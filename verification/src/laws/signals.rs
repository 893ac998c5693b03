//! Which changes are delivered.

use crate::data::{at_changes, changes_from, is_relevant, section_changes, SignalsView};
use crate::delivery::{
    among, ascending, asked_for, chain, lemma_of_signal_append, located_bytes, of_signal,
    section_delivers_by_signal, section_delivers_soundly, signal_changes, sorted,
};
use crate::filter::FilterView;
use crate::reader::{
    earliest_start, expanded, in_window, latest_end, selected, signals_read, signals_read_in_range,
    window_of, within, ReaderView,
};
use crate::section::{at_section_head, at_times, frame_end, time_table_ascends};
use crate::types::{DataSectionInfo, FloatingPointEndian, SignalInfo};
use crate::values::{at_change, at_delta, lemma_at_change_bounds, ChangeView};
use crate::wheel::{lemma_append_nothing, shown, Window};
use vstd::prelude::*;

verus! {

/// The time lies from the start to the end of a section.
pub open spec fn covers(section: DataSectionInfo, time: u64) -> bool {
    section.start_time <= time <= section.end_time
}

/// A section covers a time of the window exactly when it is read: the test for
/// the two ends is a test for overlap.
pub proof fn relevance_is_overlap(section: DataSectionInfo, start: u64, end: u64)
    requires
        start <= end,
        section.start_time <= section.end_time,
    ensures
        is_relevant(section, start, end) <==> exists|time: u64|
            start <= time <= end && #[trigger] covers(section, time),
{
    if is_relevant(section, start, end) {
        let time = if start >= section.start_time {
            start
        } else {
            section.start_time
        };
        assert(covers(section, time));
    }
}

/// What a section that can be read delivers of signal `i`.
pub open spec fn section_of_signal(
    s: Seq<u8>,
    sig: SignalsView,
    section: DataSectionInfo,
    i: int,
    window: Window,
) -> Seq<ChangeView> {
    let start = section.file_offset as int;
    match (at_section_head(s, start), frame_end(s, start)) {
        (Ok(head), Ok(end)) => match at_times(s, start, head.length) {
            Err(_) => Seq::empty(),
            Ok(table) => match at_changes(s, section.kind, start, head.length, table.size, end) {
                Err(_) => Seq::empty(),
                Ok(place) => signal_changes(s, sig, place, table.times, i, window),
            },
        },
        _ => Seq::empty(),
    }
}

/// What the sections from `k` on deliver of signal `i`, if they can be read.
pub open spec fn signal_from(
    s: Seq<u8>,
    sig: SignalsView,
    sections: Seq<DataSectionInfo>,
    k: int,
    i: int,
    window: Window,
) -> Seq<ChangeView>
    decreases sections.len() - k,
{
    if k >= sections.len() {
        Seq::empty()
    } else {
        let rest = signal_from(s, sig, sections, k + 1, i, window);
        if is_relevant(sections[k], window.start, window.end) {
            section_of_signal(s, sig, sections[k], i, window) + rest
        } else {
            rest
        }
    }
}

/// A section delivers only changes in the window, of selected signals, in the
/// order of their times.
pub proof fn section_is_sound(
    s: Seq<u8>,
    sig: SignalsView,
    section: DataSectionInfo,
    window: Window,
)
    requires
        sig.infos.len() == sig.mask.len(),
    ensures
        asked_for(section_changes(s, sig, section, window).0, window, sig.mask),
        ascending(section_changes(s, sig, section, window).0),
{
    let start = section.file_offset as int;
    if let Ok(head) = at_section_head(s, start) {
        time_table_ascends(s, start, head.length);
        if let Ok(table) = at_times(s, start, head.length) {
            if let Ok(end) = frame_end(s, start) {
                section_delivers_soundly(
                    s,
                    sig,
                    section.kind,
                    start,
                    head.length,
                    table,
                    end,
                    window,
                );
            }
        }
    }
}

proof fn lemma_asked_for_append(
    a: Seq<ChangeView>,
    b: Seq<ChangeView>,
    window: Window,
    mask: Seq<bool>,
)
    requires
        asked_for(a, window, mask),
        asked_for(b, window, mask),
    ensures
        asked_for(a + b, window, mask),
{
    assert forall|k: int| 0 <= k < (a + b).len() implies window.contains(
        (#[trigger] (a + b)[k]).time,
    ) && 0 <= (a + b)[k].signal < mask.len() && mask[(a + b)[k].signal] by {
        if k < a.len() {
            assert((a + b)[k] == a[k]);
        } else {
            assert((a + b)[k] == b[k - a.len()]);
        }
    }
}

/// The data sections deliver only changes in the window, of selected signals.
pub proof fn sections_are_sound(
    s: Seq<u8>,
    sig: SignalsView,
    sections: Seq<DataSectionInfo>,
    k: int,
    window: Window,
)
    requires
        sig.infos.len() == sig.mask.len(),
    ensures
        asked_for(changes_from(s, sig, sections, k, window).0, window, sig.mask),
    decreases sections.len() - k,
{
    if k < sections.len() {
        sections_are_sound(s, sig, sections, k + 1, window);
        if is_relevant(sections[k], window.start, window.end) {
            section_is_sound(s, sig, sections[k], window);
            lemma_asked_for_append(
                section_changes(s, sig, sections[k], window).0,
                changes_from(s, sig, sections, k + 1, window).0,
                window,
                sig.mask,
            );
        }
    }
}

/// The data sections deliver for each signal what its packed changes tell.
pub proof fn sections_deliver_by_signal(
    s: Seq<u8>,
    sig: SignalsView,
    sections: Seq<DataSectionInfo>,
    k: int,
    window: Window,
    i: int,
)
    requires
        sig.infos.len() == sig.mask.len(),
        0 <= i < sig.infos.len(),
        changes_from(s, sig, sections, k, window).1 is Ok,
    ensures
        of_signal(changes_from(s, sig, sections, k, window).0, i) == signal_from(
            s,
            sig,
            sections,
            k,
            i,
            window,
        ),
    decreases sections.len() - k,
{
    if k < sections.len() {
        sections_deliver_by_signal(s, sig, sections, k + 1, window, i);
        if is_relevant(sections[k], window.start, window.end) {
            let section = sections[k];
            let start = section.file_offset as int;
            let head = at_section_head(s, start)->Ok_0;
            time_table_ascends(s, start, head.length);
            let table = at_times(s, start, head.length)->Ok_0;
            let end = frame_end(s, start)->Ok_0;
            section_delivers_by_signal(
                s,
                sig,
                section.kind,
                start,
                head.length,
                table,
                end,
                window,
                i,
            );
            lemma_of_signal_append(
                section_changes(s, sig, section, window).0,
                changes_from(s, sig, sections, k + 1, window).0,
                i,
            );
        }
    }
}

/// The time filter is inclusive at both ends, and nothing else gets through:
/// what [`FstReader::read_signals`](crate::FstReader::read_signals) delivers
/// without a look back lies in `start..=end` and belongs to selected signals,
/// whether or not the reading ends with an error.
pub proof fn read_signals_respects_the_filter(view: ReaderView, filter: FilterView)
    requires
        !filter.include_pre_start,
    ensures
        asked_for(
            signals_read(view, filter).0,
            window_of(view, filter),
            selected(view, filter).mask,
        ),
{
    sections_are_sound(
        view.data,
        selected(view, filter),
        view.meta.data_sections,
        0,
        window_of(view, filter),
    );
}

/// All of time.
pub open spec fn always() -> Window {
    Window { start: 0, end: u64::MAX, include_end: true }
}

/// All changes of signal `i` that the file holds, in the order of the file.
pub open spec fn file_of_signal(view: ReaderView, sig: SignalsView, i: int) -> Seq<ChangeView> {
    signal_from(view.data, sig, view.meta.data_sections, 0, i, always())
}

/// The times in the table of a section are those that the section covers.
pub open spec fn consistent(s: Seq<u8>, section: DataSectionInfo) -> bool {
    let start = section.file_offset as int;
    at_section_head(s, start) matches Ok(head) ==> (at_times(s, start, head.length) matches Ok(
        table,
    ) ==> forall|t: int| 0 <= t < table.times.len() ==> covers(section, #[trigger] table.times[t]))
}

pub open spec fn all_consistent(s: Seq<u8>, sections: Seq<DataSectionInfo>) -> bool {
    forall|k: int| 0 <= k < sections.len() ==> #[trigger] consistent(s, sections[k])
}

pub proof fn lemma_within_append(a: Seq<ChangeView>, b: Seq<ChangeView>, start: u64, end: u64)
    ensures
        within(a + b, start, end) == within(a, start, end) + within(b, start, end),
    decreases b.len(),
{
    if b.len() == 0 {
        assert(b =~= Seq::empty());
        lemma_append_nothing(a);
        lemma_append_nothing(within(a, start, end));
    } else {
        assert((a + b).drop_last() =~= a + b.drop_last());
        assert((a + b).last() == b.last());
        lemma_within_append(a, b.drop_last(), start, end);
        let x = within(a, start, end);
        let y = within(b.drop_last(), start, end);
        if start <= b.last().time <= end {
            assert((x + y).push(b.last()) =~= x + y.push(b.last()));
        }
    }
}

pub proof fn lemma_within_one(c: ChangeView, start: u64, end: u64)
    ensures
        within(seq![c], start, end) == (if start <= c.time <= end {
            seq![c]
        } else {
            Seq::empty()
        }),
{
    assert(seq![c].drop_last() =~= Seq::empty());
    reveal_with_fuel(within, 2);
    assert(Seq::<ChangeView>::empty().push(c) =~= seq![c]);
}

pub proof fn lemma_within_none(changes: Seq<ChangeView>, start: u64, end: u64)
    requires
        forall|k: int|
            0 <= k < changes.len() ==> !(start <= (#[trigger] changes[k]).time <= end),
    ensures
        within(changes, start, end) == Seq::<ChangeView>::empty(),
    decreases changes.len(),
{
    if changes.len() > 0 {
        lemma_within_none(changes.drop_last(), start, end);
    }
}

pub proof fn lemma_within_all(changes: Seq<ChangeView>, start: u64, end: u64)
    requires
        forall|k: int| 0 <= k < changes.len() ==> start <= (#[trigger] changes[k]).time <= end,
    ensures
        within(changes, start, end) == changes,
    decreases changes.len(),
{
    if changes.len() > 0 {
        lemma_within_all(changes.drop_last(), start, end);
        assert(changes.drop_last().push(changes.last()) =~= changes);
    }
}

pub proof fn lemma_within_of_signal(changes: Seq<ChangeView>, start: u64, end: u64, i: int)
    ensures
        of_signal(within(changes, start, end), i) == within(of_signal(changes, i), start, end),
    decreases changes.len(),
{
    if changes.len() > 0 {
        let c = changes.last();
        let before = changes.drop_last();
        lemma_within_of_signal(before, start, end, i);
        let x = within(before, start, end);
        let y = of_signal(before, i);
        assert(x.push(c).drop_last() =~= x);
        assert(y.push(c).drop_last() =~= y);
    }
}

/// The changes of a chain have times of the table, from its first step on.
proof fn lemma_chain_among(
    info: SignalInfo,
    endian: FloatingPointEndian,
    bytes: Seq<u8>,
    i: int,
    pos: int,
    t: int,
    times: Seq<u64>,
    window: Window,
)
    requires
        0 <= t,
    ensures
        among(chain(info, endian, bytes, i, pos, t, times, window), times, t),
    decreases bytes.len() - pos,
{
    let all = chain(info, endian, bytes, i, pos, t, times, window);
    if t < times.len() && !window.is_past(times[t]) {
        if let Ok((value, next)) = at_change(info, endian, bytes, pos) {
            lemma_at_change_bounds(info, endian, bytes, pos);
            let first = shown(
                seq![ChangeView { time: times[t], signal: i, value }],
                times[t],
                window.start,
            );
            let (step, rest) = if next < bytes.len() && at_delta(info, bytes, next) is Ok {
                let delta = at_delta(info, bytes, next)->Ok_0;
                lemma_chain_among(info, endian, bytes, i, next, t + delta, times, window);
                (t + delta, chain(info, endian, bytes, i, next, t + delta, times, window))
            } else {
                (t, Seq::empty())
            };
            assert(all == first + rest);
            assert forall|k: int| 0 <= k < all.len() implies exists|u: int|
                t <= u < times.len() && #[trigger] times[u] == (#[trigger] all[k]).time by {
                if k < first.len() {
                    assert(times[t] == all[k].time);
                } else {
                    let j = k - first.len();
                    assert(all[k] == rest[j]);
                    let u = choose|u: int|
                        step <= u < times.len() && #[trigger] times[u] == rest[j].time;
                    assert(times[u] == all[k].time);
                }
            }
        }
    }
}

/// A chain delivers just the changes in the window.
pub proof fn lemma_chain_within(
    info: SignalInfo,
    endian: FloatingPointEndian,
    bytes: Seq<u8>,
    i: int,
    pos: int,
    t: int,
    times: Seq<u64>,
    window: Window,
)
    requires
        0 <= t,
        sorted(times),
        window.include_end,
    ensures
        chain(info, endian, bytes, i, pos, t, times, window) == within(
            chain(info, endian, bytes, i, pos, t, times, always()),
            window.start,
            window.end,
        ),
    decreases bytes.len() - pos,
{
    let all = chain(info, endian, bytes, i, pos, t, times, always());
    if t < times.len() {
        if window.is_past(times[t]) {
            lemma_chain_among(info, endian, bytes, i, pos, t, times, always());
            assert forall|k: int| 0 <= k < all.len() implies !(window.start <= (
            #[trigger] all[k]).time <= window.end) by {
                let u = choose|u: int| t <= u < times.len() && #[trigger] times[u] == all[k].time;
                assert(times[t] <= times[u]);
            }
            lemma_within_none(all, window.start, window.end);
        } else if let Ok((value, next)) = at_change(info, endian, bytes, pos) {
            lemma_at_change_bounds(info, endian, bytes, pos);
            let c = ChangeView { time: times[t], signal: i, value };
            lemma_within_one(c, window.start, window.end);
            if next < bytes.len() && at_delta(info, bytes, next) is Ok {
                let delta = at_delta(info, bytes, next)->Ok_0;
                lemma_chain_within(info, endian, bytes, i, next, t + delta, times, window);
                lemma_within_append(
                    seq![c],
                    chain(info, endian, bytes, i, next, t + delta, times, always()),
                    window.start,
                    window.end,
                );
            } else {
                lemma_append_nothing(seq![c]);
                lemma_append_nothing(Seq::<ChangeView>::empty());
            }
        }
    }
}

/// In a consistent section all changes of a signal come at times that the section covers.
pub proof fn lemma_section_covered(
    s: Seq<u8>,
    sig: SignalsView,
    section: DataSectionInfo,
    i: int,
    window: Window,
)
    requires
        consistent(s, section),
    ensures
        forall|k: int|
            0 <= k < section_of_signal(s, sig, section, i, window).len() ==> covers(
                section,
                (#[trigger] section_of_signal(s, sig, section, i, window)[k]).time,
            ),
{
    let start = section.file_offset as int;
    let all = section_of_signal(s, sig, section, i, window);
    if let Ok(head) = at_section_head(s, start) {
        if let Ok(end) = frame_end(s, start) {
            if let Ok(table) = at_times(s, start, head.length) {
                if let Ok(place) = at_changes(
                    s,
                    section.kind,
                    start,
                    head.length,
                    table.size,
                    end,
                ) {
                    if let Some(bytes) = located_bytes(s, place, sig.mask, i) {
                        if let Ok(delta) = at_delta(sig.infos[i], bytes, 0) {
                            lemma_chain_among(
                                sig.infos[i],
                                sig.endian,
                                bytes,
                                i,
                                0,
                                delta as int,
                                table.times,
                                window,
                            );
                            assert forall|k: int| 0 <= k < all.len() implies covers(
                                section,
                                (#[trigger] all[k]).time,
                            ) by {
                                let u = choose|u: int|
                                    delta <= u < table.times.len() && #[trigger] table.times[u]
                                        == all[k].time;
                                assert(covers(section, table.times[u]));
                            }
                        }
                    }
                }
            }
        }
    }
}

/// A section delivers of a signal just its changes in the window.
pub proof fn lemma_section_window(
    s: Seq<u8>,
    sig: SignalsView,
    section: DataSectionInfo,
    i: int,
    window: Window,
)
    requires
        window.include_end,
    ensures
        section_of_signal(s, sig, section, i, window) == within(
            section_of_signal(s, sig, section, i, always()),
            window.start,
            window.end,
        ),
{
    let start = section.file_offset as int;
    if let Ok(head) = at_section_head(s, start) {
        if let Ok(end) = frame_end(s, start) {
            time_table_ascends(s, start, head.length);
            if let Ok(table) = at_times(s, start, head.length) {
                if let Ok(place) = at_changes(
                    s,
                    section.kind,
                    start,
                    head.length,
                    table.size,
                    end,
                ) {
                    if let Some(bytes) = located_bytes(s, place, sig.mask, i) {
                        if let Ok(delta) = at_delta(sig.infos[i], bytes, 0) {
                            lemma_chain_within(
                                sig.infos[i],
                                sig.endian,
                                bytes,
                                i,
                                0,
                                delta as int,
                                table.times,
                                window,
                            );
                        }
                    }
                }
            }
        }
    }
}

proof fn lemma_sections_window(
    s: Seq<u8>,
    sig: SignalsView,
    sections: Seq<DataSectionInfo>,
    k: int,
    i: int,
    window: Window,
)
    requires
        0 <= k,
        window.include_end,
        all_consistent(s, sections),
    ensures
        signal_from(s, sig, sections, k, i, window) == within(
            signal_from(s, sig, sections, k, i, always()),
            window.start,
            window.end,
        ),
    decreases sections.len() - k,
{
    if k < sections.len() {
        lemma_sections_window(s, sig, sections, k + 1, i, window);
        let section = sections[k];
        assert(consistent(s, section));
        let all = section_of_signal(s, sig, section, i, always());
        let all_rest = signal_from(s, sig, sections, k + 1, i, always());
        lemma_within_append(all, all_rest, window.start, window.end);
        if is_relevant(section, window.start, window.end) {
            lemma_section_window(s, sig, section, i, window);
        } else {
            lemma_section_covered(s, sig, section, i, always());
            lemma_within_none(all, window.start, window.end);
            lemma_append_nothing(within(all_rest, window.start, window.end));
        }
    }
}

/// A window that covers all sections that touch a smaller one gets all changes in the smaller.
proof fn lemma_wide_window(
    s: Seq<u8>,
    sig: SignalsView,
    sections: Seq<DataSectionInfo>,
    k: int,
    i: int,
    wide: Window,
    start: u64,
    end: u64,
)
    requires
        0 <= k,
        all_consistent(s, sections),
        wide.include_end,
        forall|j: int|
            k <= j < sections.len() && is_relevant(#[trigger] sections[j], start, end)
                ==> wide.start <= sections[j].start_time && sections[j].end_time <= wide.end,
    ensures
        within(signal_from(s, sig, sections, k, i, wide), start, end) == within(
            signal_from(s, sig, sections, k, i, always()),
            start,
            end,
        ),
    decreases sections.len() - k,
{
    if k < sections.len() {
        lemma_wide_window(s, sig, sections, k + 1, i, wide, start, end);
        let section = sections[k];
        assert(consistent(s, section));
        let here = section_of_signal(s, sig, section, i, wide);
        let all = section_of_signal(s, sig, section, i, always());
        let rest = signal_from(s, sig, sections, k + 1, i, wide);
        let all_rest = signal_from(s, sig, sections, k + 1, i, always());
        lemma_within_append(here, rest, start, end);
        lemma_within_append(all, all_rest, start, end);
        if is_relevant(section, start, end) {
            lemma_section_window(s, sig, section, i, wide);
            lemma_section_covered(s, sig, section, i, always());
            lemma_within_all(all, wide.start, wide.end);
        } else {
            lemma_section_covered(s, sig, section, i, wide);
            lemma_section_covered(s, sig, section, i, always());
            lemma_within_none(here, start, end);
            lemma_within_none(all, start, end);
            lemma_append_nothing(within(rest, start, end));
            lemma_append_nothing(within(all_rest, start, end));
        }
    }
}

pub proof fn lemma_expanded(sections: Seq<DataSectionInfo>, k: int, start: u64, end: u64)
    requires
        0 <= k,
    ensures
        forall|j: int|
            k <= j < sections.len() && is_relevant(#[trigger] sections[j], start, end) ==> (
            earliest_start(sections, k, start, end) matches Some(time) && time
                <= sections[j].start_time),
        forall|j: int|
            k <= j < sections.len() && is_relevant(#[trigger] sections[j], start, end) ==> (
            latest_end(sections, k, start, end) matches Some(time) && sections[j].end_time
                <= time),
        earliest_start(sections, k, start, end) is Some <==> latest_end(
            sections,
            k,
            start,
            end,
        ) is Some,
    decreases sections.len() - k,
{
    if k < sections.len() {
        lemma_expanded(sections, k + 1, start, end);
    }
}

/// In a file whose sections hold the times that they cover,
/// [`FstReader::read_signals_in_range`](crate::FstReader::read_signals_in_range)
/// delivers of each selected signal exactly the changes that the file holds in
/// `start..=end`, in the order of the file.
pub proof fn read_signals_in_range_is_complete(view: ReaderView, filter: FilterView, i: int)
    requires
        0 <= i < view.meta.signals.len(),
        filter.selects(i),
        all_consistent(view.data, view.meta.data_sections),
        signals_read_in_range(view, filter).1 is Ok,
    ensures
        of_signal(signals_read_in_range(view, filter).0, i) == within(
            file_of_signal(view, selected(view, filter), i),
            filter.start,
            filter.end_in(view.meta.header.end_time),
        ),
{
    let sig = selected(view, filter);
    let window = window_of(view, filter);
    let sections = view.meta.data_sections;
    let s = view.data;
    lemma_expanded(sections, 0, window.start, window.end);
    match expanded(view, filter) {
        Some(wide) => {
            let (changes, _) = in_window(view, sig, wide);
            sections_deliver_by_signal(s, sig, sections, 0, wide, i);
            lemma_within_of_signal(changes, window.start, window.end, i);
            lemma_wide_window(s, sig, sections, 0, i, wide, window.start, window.end);
        },
        None => {
            lemma_untouched(s, sig, sections, 0, i, window.start, window.end);
        },
    }
}

/// Where no section touches a window, the file has no changes in it.
proof fn lemma_untouched(
    s: Seq<u8>,
    sig: SignalsView,
    sections: Seq<DataSectionInfo>,
    k: int,
    i: int,
    start: u64,
    end: u64,
)
    requires
        0 <= k,
        all_consistent(s, sections),
        forall|j: int| k <= j < sections.len() ==> !is_relevant(#[trigger] sections[j], start, end),
    ensures
        within(signal_from(s, sig, sections, k, i, always()), start, end) == Seq::<
            ChangeView,
        >::empty(),
    decreases sections.len() - k,
{
    if k < sections.len() {
        lemma_untouched(s, sig, sections, k + 1, i, start, end);
        let section = sections[k];
        assert(consistent(s, section));
        let all = section_of_signal(s, sig, section, i, always());
        lemma_within_append(
            all,
            signal_from(s, sig, sections, k + 1, i, always()),
            start,
            end,
        );
        lemma_section_covered(s, sig, section, i, always());
        lemma_within_none(all, start, end);
        lemma_append_nothing(Seq::<ChangeView>::empty());
    }
}

/// What [`FstReader::read_signals_in_range`](crate::FstReader::read_signals_in_range)
/// delivers lies in `start..=end` and belongs to selected signals, whether or not
/// the reading ends with an error.
pub proof fn read_signals_in_range_respects_the_filter(view: ReaderView, filter: FilterView)
    ensures
        asked_for(
            signals_read_in_range(view, filter).0,
            window_of(view, filter),
            selected(view, filter).mask,
        ),
{
    let sig = selected(view, filter);
    let window = window_of(view, filter);
    if let Some(wide) = expanded(view, filter) {
        sections_are_sound(view.data, sig, view.meta.data_sections, 0, wide);
        lemma_within_asked_for(in_window(view, sig, wide).0, wide, window, sig.mask);
    }
}

proof fn lemma_within_asked_for(
    changes: Seq<ChangeView>,
    wide: Window,
    window: Window,
    mask: Seq<bool>,
)
    requires
        asked_for(changes, wide, mask),
        window.include_end,
    ensures
        asked_for(within(changes, window.start, window.end), window, mask),
    decreases changes.len(),
{
    if changes.len() > 0 {
        let before = changes.drop_last();
        assert(asked_for(before, wide, mask)) by {
            assert forall|k: int| 0 <= k < before.len() implies wide.contains(
                (#[trigger] before[k]).time,
            ) && 0 <= before[k].signal < mask.len() && mask[before[k].signal] by {
                assert(before[k] == changes[k]);
            }
        }
        lemma_within_asked_for(before, wide, window, mask);
        let c = changes[changes.len() - 1];
        assert(0 <= c.signal < mask.len() && mask[c.signal]);
    }
}

/// In a file whose sections hold the times that they cover,
/// [`FstReader::read_signals`](crate::FstReader::read_signals) delivers exactly the
/// changes in `start..=end` of each selected signal, in the order of the file.
pub proof fn read_signals_is_complete(view: ReaderView, filter: FilterView, i: int)
    requires
        0 <= i < view.meta.signals.len(),
        filter.selects(i),
        !filter.include_pre_start,
        all_consistent(view.data, view.meta.data_sections),
        signals_read(view, filter).1 is Ok,
    ensures
        of_signal(signals_read(view, filter).0, i) == within(
            file_of_signal(view, selected(view, filter), i),
            filter.start,
            filter.end_in(view.meta.header.end_time),
        ),
{
    let sig = selected(view, filter);
    let window = window_of(view, filter);
    let sections = view.meta.data_sections;
    sections_deliver_by_signal(view.data, sig, sections, 0, window, i);
    lemma_sections_window(view.data, sig, sections, 0, i, window);
}

/// The sections follow one another in time.
pub open spec fn in_order(sections: Seq<DataSectionInfo>) -> bool {
    &&& forall|k: int|
        0 <= k < sections.len() ==> (#[trigger] sections[k]).start_time <= sections[k].end_time
    &&& forall|j: int, k: int|
        0 <= j < k < sections.len() ==> (#[trigger] sections[j]).end_time <= (
        #[trigger] sections[k]).start_time
}

/// Each change comes at a time that one of the sections from `k` on covers.
pub open spec fn covered_by(changes: Seq<ChangeView>, sections: Seq<DataSectionInfo>, k: int) -> bool {
    forall|j: int|
        0 <= j < changes.len() ==> exists|m: int|
            k <= m < sections.len() && covers(
                #[trigger] sections[m],
                (#[trigger] changes[j]).time,
            )
}

pub proof fn lemma_section_changes_covered(
    s: Seq<u8>,
    sig: SignalsView,
    section: DataSectionInfo,
    window: Window,
)
    requires
        sig.infos.len() == sig.mask.len(),
        consistent(s, section),
    ensures
        forall|j: int|
            0 <= j < section_changes(s, sig, section, window).0.len() ==> covers(
                section,
                (#[trigger] section_changes(s, sig, section, window).0[j]).time,
            ),
{
    let start = section.file_offset as int;
    let changes = section_changes(s, sig, section, window).0;
    if let Ok(head) = at_section_head(s, start) {
        time_table_ascends(s, start, head.length);
        if let Ok(table) = at_times(s, start, head.length) {
            if let Ok(end) = frame_end(s, start) {
                section_delivers_soundly(
                    s,
                    sig,
                    section.kind,
                    start,
                    head.length,
                    table,
                    end,
                    window,
                );
                assert forall|j: int| 0 <= j < changes.len() implies covers(
                    section,
                    (#[trigger] changes[j]).time,
                ) by {
                    let u = choose|u: int|
                        0 <= u < table.times.len() && #[trigger] table.times[u] == changes[j].time;
                    assert(covers(section, table.times[u]));
                }
            }
        }
    }
}

/// What the sections deliver comes at times that they cover.
pub proof fn lemma_sections_covered(
    s: Seq<u8>,
    sig: SignalsView,
    sections: Seq<DataSectionInfo>,
    k: int,
    window: Window,
)
    requires
        0 <= k,
        sig.infos.len() == sig.mask.len(),
        all_consistent(s, sections),
    ensures
        covered_by(changes_from(s, sig, sections, k, window).0, sections, k),
    decreases sections.len() - k,
{
    if k < sections.len() {
        lemma_sections_covered(s, sig, sections, k + 1, window);
        let rest = changes_from(s, sig, sections, k + 1, window).0;
        let all = changes_from(s, sig, sections, k, window).0;
        let here = if is_relevant(sections[k], window.start, window.end) {
            section_changes(s, sig, sections[k], window).0
        } else {
            Seq::empty()
        };
        assert(consistent(s, sections[k]));
        lemma_section_changes_covered(s, sig, sections[k], window);
        assert forall|j: int| 0 <= j < all.len() implies exists|m: int|
            k <= m < sections.len() && covers(
                #[trigger] sections[m],
                (#[trigger] all[j]).time,
            ) by {
            if j < here.len() {
                assert(all[j] == here[j]);
                assert(covers(sections[k], all[j].time));
            } else {
                assert(all[j] == rest[j - here.len()]);
                let m = choose|m: int|
                    k + 1 <= m < sections.len() && covers(
                        #[trigger] sections[m],
                        rest[j - here.len()].time,
                    );
                assert(covers(sections[m], all[j].time));
            }
        }
    }
}

/// In sections that follow one another, the changes come in the order of their times.
pub proof fn lemma_sections_ascend(
    s: Seq<u8>,
    sig: SignalsView,
    sections: Seq<DataSectionInfo>,
    k: int,
    window: Window,
)
    requires
        0 <= k,
        sig.infos.len() == sig.mask.len(),
        all_consistent(s, sections),
        in_order(sections),
    ensures
        ascending(changes_from(s, sig, sections, k, window).0),
    decreases sections.len() - k,
{
    if k < sections.len() {
        lemma_sections_ascend(s, sig, sections, k + 1, window);
        if is_relevant(sections[k], window.start, window.end) {
            lemma_sections_covered(s, sig, sections, k + 1, window);
            let rest = changes_from(s, sig, sections, k + 1, window).0;
            let all = changes_from(s, sig, sections, k, window).0;
            assert(consistent(s, sections[k]));
            section_is_sound(s, sig, sections[k], window);
            lemma_section_changes_covered(s, sig, sections[k], window);
            let here = section_changes(s, sig, sections[k], window).0;
            assert forall|j: int, l: int| 0 <= j <= l < all.len() implies (
            #[trigger] all[j]).time <= (#[trigger] all[l]).time by {
                if l < here.len() {
                    assert(all[j] == here[j]);
                    assert(all[l] == here[l]);
                } else {
                    assert(all[l] == rest[l - here.len()]);
                    if j < here.len() {
                        assert(all[j] == here[j]);
                        let m = choose|m: int|
                            k + 1 <= m < sections.len() && covers(
                                #[trigger] sections[m],
                                rest[l - here.len()].time,
                            );
                        assert(sections[k].end_time <= sections[m].start_time);
                    } else {
                        assert(all[j] == rest[j - here.len()]);
                    }
                }
            }
        }
    }
}

/// In a file whose sections follow one another,
/// [`FstReader::read_signals`](crate::FstReader::read_signals) delivers the changes
/// in the order of their times.
pub proof fn read_signals_ascends(view: ReaderView, filter: FilterView)
    requires
        !filter.include_pre_start,
        all_consistent(view.data, view.meta.data_sections),
        in_order(view.meta.data_sections),
    ensures
        ascending(signals_read(view, filter).0),
{
    lemma_sections_ascend(
        view.data,
        selected(view, filter),
        view.meta.data_sections,
        0,
        window_of(view, filter),
    );
}

} // verus!
