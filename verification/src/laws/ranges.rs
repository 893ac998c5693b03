//! Readings of a range, and readings of the whole file.

use crate::data::{
    at_changes, changes_behind, changes_from, initial_state, is_relevant, loaded, section_changes,
    slot_count, SignalsView,
};
use crate::delivery::{ascending, sorted};
use crate::filter::FilterView;
use crate::laws::signals::{
    all_consistent, always, consistent, covers, in_order, lemma_expanded,
    lemma_section_changes_covered, lemma_sections_ascend, lemma_sections_covered,
    lemma_within_append, lemma_within_none, lemma_within_one,
};
use crate::reader::{
    earliest_start, expanded, in_window, selected, signals_read, signals_read_in_range, window_of,
    within, ReaderView,
};
use crate::section::{at_section_head, at_times, frame_end, time_table_ascends, TimesView};
use crate::types::{DataSectionInfo, DataSectionKind};
use crate::values::ChangeView;
use crate::wheel::{
    bytes_left, delivered, followed_by, lemma_append_nothing, lemma_visited, visited, Delivery,
    SectionData, WheelState, Window,
};
use vstd::prelude::*;

verus! {

/// What the file holds of the signals that a filter selects, from its first
/// change to its last.
pub open spec fn file_changes(view: ReaderView, filter: FilterView) -> Delivery {
    in_window(view, selected(view, filter), always())
}

/// What a good reading delivers.
pub open spec fn good(changes: Seq<ChangeView>) -> Delivery {
    (changes, Ok(()))
}

/// If time step `t` is not before `time`, nothing that is delivered from there on is.
proof fn lemma_delivered_from(
    d: SectionData,
    w: WheelState,
    times: Seq<u64>,
    t: int,
    time: u64,
)
    requires
        sorted(times),
        0 <= t < times.len() ==> time <= times[t],
        0 <= t,
    ensures
        forall|k: int|
            0 <= k < delivered(d, w, times, t, always()).0.len() ==> time <= (
            #[trigger] delivered(d, w, times, t, always()).0[k]).time,
    decreases times.len() - t, bytes_left(d.bytes, w.pos, w.pos.len()),
{
    if t >= times.len() {
    } else if w.slots[t].len() == 0 {
        if t + 1 < times.len() {
            assert(times[t] <= times[t + 1]);
        }
        lemma_delivered_from(d, w, times, t + 1, time);
    } else {
        lemma_visited(d, w, t, times[t]);
        let (change, next) = visited(d, w, t, times[t]);
        assert(change.len() <= 1 && (change.len() == 1 ==> change[0].time == times[t])) by {
            reveal(visited);
        }
        let all = delivered(d, w, times, t, always()).0;
        if let Ok(w2) = next {
            lemma_delivered_from(d, w2, times, t, time);
            let rest = delivered(d, w2, times, t, always()).0;
            assert forall|k: int| 0 <= k < all.len() implies time <= (#[trigger] all[k]).time by {
                if k >= change.len() {
                    assert(all[k] == rest[k - change.len()]);
                }
            }
        }
    }
}

/// A wheel that runs through all its steps without an error delivers, in a
/// window, just the changes of that window.
proof fn lemma_delivered_within(
    d: SectionData,
    w: WheelState,
    times: Seq<u64>,
    t: int,
    window: Window,
)
    requires
        sorted(times),
        0 <= t,
        window.include_end,
        delivered(d, w, times, t, always()).1 is Ok,
    ensures
        delivered(d, w, times, t, window) == good(
            within(delivered(d, w, times, t, always()).0, window.start, window.end),
        ),
    decreases times.len() - t, bytes_left(d.bytes, w.pos, w.pos.len()),
{
    let all = delivered(d, w, times, t, always()).0;
    if t >= times.len() {
    } else if window.is_past(times[t]) {
        lemma_delivered_from(d, w, times, t, times[t]);
        lemma_within_none(all, window.start, window.end);
    } else if w.slots[t].len() == 0 {
        lemma_delivered_within(d, w, times, t + 1, window);
    } else {
        lemma_visited(d, w, t, times[t]);
        let (change, next) = visited(d, w, t, times[t]);
        let w2 = next->Ok_0;
        assert(change.len() == 1 && change[0].time == times[t]) by {
            reveal(visited);
        }
        assert(change =~= seq![change[0]]);
        lemma_delivered_within(d, w2, times, t, window);
        lemma_within_one(change[0], window.start, window.end);
        lemma_within_append(
            change,
            delivered(d, w2, times, t, always()).0,
            window.start,
            window.end,
        );
    }
}

/// A section whose changes can all be read delivers, in a window, just those of
/// that window.
pub proof fn lemma_behind_within(
    s: Seq<u8>,
    sig: SignalsView,
    kind: DataSectionKind,
    start: int,
    length: u64,
    table: TimesView,
    frame_end: int,
    window: Window,
)
    requires
        sorted(table.times),
        window.include_end,
        changes_behind(s, sig, kind, start, length, table, frame_end, always()).1 is Ok,
    ensures
        changes_behind(s, sig, kind, start, length, table, frame_end, window) == good(
            within(
                changes_behind(s, sig, kind, start, length, table, frame_end, always()).0,
                window.start,
                window.end,
            ),
        ),
{
    let place = at_changes(s, kind, start, length, table.size, frame_end)->Ok_0;
    let slots = slot_count(table.times.len());
    let load = loaded(s, place, sig.infos, sig.mask, slots, sig.infos.len())->Ok_0;
    let d = SectionData { infos: sig.infos, endian: sig.endian, bytes: load.bytes };
    lemma_delivered_within(d, initial_state(load), table.times, 0, window);
}

proof fn lemma_section_within(
    s: Seq<u8>,
    sig: SignalsView,
    section: DataSectionInfo,
    window: Window,
)
    requires
        window.include_end,
        section_changes(s, sig, section, always()).1 is Ok,
    ensures
        section_changes(s, sig, section, window) == good(
            within(section_changes(s, sig, section, always()).0, window.start, window.end),
        ),
{
    let start = section.file_offset as int;
    let head = at_section_head(s, start)->Ok_0;
    time_table_ascends(s, start, head.length);
    let table = at_times(s, start, head.length)->Ok_0;
    let end = frame_end(s, start)->Ok_0;
    lemma_behind_within(s, sig, section.kind, start, head.length, table, end, window);
}

proof fn lemma_sections_within(
    s: Seq<u8>,
    sig: SignalsView,
    sections: Seq<DataSectionInfo>,
    k: int,
    window: Window,
)
    requires
        0 <= k,
        sig.infos.len() == sig.mask.len(),
        window.include_end,
        all_consistent(s, sections),
        changes_from(s, sig, sections, k, always()).1 is Ok,
    ensures
        changes_from(s, sig, sections, k, window) == good(
            within(changes_from(s, sig, sections, k, always()).0, window.start, window.end),
        ),
    decreases sections.len() - k,
{
    if k < sections.len() {
        lemma_sections_within(s, sig, sections, k + 1, window);
        let section = sections[k];
        assert(consistent(s, section));
        let all = section_changes(s, sig, section, always()).0;
        let rest = changes_from(s, sig, sections, k + 1, always()).0;
        lemma_within_append(all, rest, window.start, window.end);
        if is_relevant(section, window.start, window.end) {
            lemma_section_within(s, sig, section, window);
        } else {
            lemma_section_changes_covered(s, sig, section, always());
            lemma_within_none(all, window.start, window.end);
            lemma_append_nothing(within(rest, window.start, window.end));
        }
    }
}

/// In a file that can be read as a whole and whose sections hold the times that
/// they cover, [`FstReader::read_signals`](crate::FstReader::read_signals)
/// delivers the changes of the file that lie in `start..=end`, in the same order.
pub proof fn read_signals_cuts_the_file(view: ReaderView, filter: FilterView)
    requires
        !filter.include_pre_start,
        all_consistent(view.data, view.meta.data_sections),
        file_changes(view, filter).1 is Ok,
    ensures
        signals_read(view, filter) == good(
            within(
                file_changes(view, filter).0,
                filter.start,
                filter.end_in(view.meta.header.end_time),
            ),
        ),
{
    lemma_sections_within(
        view.data,
        selected(view, filter),
        view.meta.data_sections,
        0,
        window_of(view, filter),
    );
}

/// Cutting to a wide window first loses nothing of a smaller one.
pub proof fn lemma_within_twice(
    changes: Seq<ChangeView>,
    wide_start: u64,
    wide_end: u64,
    start: u64,
    end: u64,
)
    requires
        forall|k: int|
            0 <= k < changes.len() && start <= (#[trigger] changes[k]).time <= end ==> wide_start
                <= changes[k].time <= wide_end,
    ensures
        within(within(changes, wide_start, wide_end), start, end) == within(changes, start, end),
    decreases changes.len(),
{
    if changes.len() > 0 {
        let before = changes.drop_last();
        let c = changes[changes.len() - 1];
        lemma_within_twice(before, wide_start, wide_end, start, end);
        let x = within(before, wide_start, wide_end);
        assert(x.push(c).drop_last() =~= x);
    }
}

/// In a file that can be read as a whole and whose sections hold the times that
/// they cover,
/// [`FstReader::read_signals_in_range`](crate::FstReader::read_signals_in_range)
/// delivers the changes of the file that lie in `start..=end`, in the same order:
/// where the range does not go behind the end of the file, it is the full reading
/// of [`FstReader::read_signals`](crate::FstReader::read_signals), cut to the range.
pub proof fn read_signals_in_range_cuts_the_file(view: ReaderView, filter: FilterView)
    requires
        all_consistent(view.data, view.meta.data_sections),
        file_changes(view, filter).1 is Ok,
    ensures
        signals_read_in_range(view, filter) == good(
            within(
                file_changes(view, filter).0,
                filter.start,
                filter.end_in(view.meta.header.end_time),
            ),
        ),
        filter.end_in(view.meta.header.end_time) <= view.meta.header.end_time
            ==> signals_read_in_range(view, filter) == good(
            within(
                signals_read(
                    view,
                    FilterView {
                        start: 0,
                        end: None,
                        included: filter.included,
                        include_pre_start: false,
                    },
                ).0,
                filter.start,
                filter.end_in(view.meta.header.end_time),
            ),
        ),
{
    let s = view.data;
    let sig = selected(view, filter);
    let sections = view.meta.data_sections;
    let window = window_of(view, filter);
    let all = file_changes(view, filter).0;
    lemma_sections_covered(s, sig, sections, 0, always());
    lemma_expanded(sections, 0, window.start, window.end);
    match expanded(view, filter) {
        None => {
            assert forall|k: int| 0 <= k < all.len() implies !(window.start <= (
            #[trigger] all[k]).time <= window.end) by {
                let m = choose|m: int|
                    0 <= m < sections.len() && covers(#[trigger] sections[m], all[k].time);
                assert(!is_relevant(sections[m], window.start, window.end));
            }
            lemma_within_none(all, window.start, window.end);
        },
        Some(wide) => {
            lemma_sections_within(s, sig, sections, 0, wide);
            assert forall|k: int|
                0 <= k < all.len() && window.start <= (#[trigger] all[k]).time
                    <= window.end implies wide.start <= all[k].time <= wide.end by {
                let m = choose|m: int|
                    0 <= m < sections.len() && covers(#[trigger] sections[m], all[k].time);
                assert(is_relevant(sections[m], window.start, window.end));
            }
            lemma_within_twice(all, wide.start, wide.end, window.start, window.end);
        },
    }
    let full = FilterView {
        start: 0,
        end: None,
        included: filter.included,
        include_pre_start: false,
    };
    let end_time = view.meta.header.end_time;
    assert(selected(view, full).mask =~= sig.mask);
    read_signals_cuts_the_file(view, full);
    if window.end <= end_time {
        lemma_within_twice(all, 0, end_time, window.start, window.end);
    }
}

/// A range that touches no section of the file delivers nothing, and without an error.
pub proof fn ranges_outside_the_sections_are_empty(view: ReaderView, filter: FilterView)
    requires
        forall|k: int|
            0 <= k < view.meta.data_sections.len() ==> !is_relevant(
                #[trigger] view.meta.data_sections[k],
                filter.start,
                filter.end_in(view.meta.header.end_time),
            ),
    ensures
        signals_read_in_range(view, filter) == good(Seq::empty()),
{
    lemma_no_earliest(
        view.meta.data_sections,
        0,
        filter.start,
        filter.end_in(view.meta.header.end_time),
    );
}

proof fn lemma_no_earliest(sections: Seq<DataSectionInfo>, k: int, start: u64, end: u64)
    requires
        0 <= k,
        forall|j: int| 0 <= j < sections.len() ==> !is_relevant(#[trigger] sections[j], start, end),
    ensures
        earliest_start(sections, k, start, end) is None,
    decreases sections.len() - k,
{
    if k < sections.len() {
        lemma_no_earliest(sections, k + 1, start, end);
    }
}

proof fn lemma_within_split(changes: Seq<ChangeView>, a: u64, m: u64, b: u64)
    requires
        ascending(changes),
        a <= m < b,
    ensures
        within(changes, a, m) + within(changes, (m + 1) as u64, b) == within(changes, a, b),
    decreases changes.len(),
{
    if changes.len() == 0 {
        lemma_append_nothing(Seq::<ChangeView>::empty());
    } else {
        let before = changes.drop_last();
        let c = changes[changes.len() - 1];
        assert(ascending(before)) by {
            assert forall|i: int, j: int| 0 <= i <= j < before.len() implies (
            #[trigger] before[i]).time <= (#[trigger] before[j]).time by {
                assert(before[i] == changes[i] && before[j] == changes[j]);
            }
        }
        lemma_within_split(before, a, m, b);
        let x = within(before, a, m);
        let y = within(before, (m + 1) as u64, b);
        if c.time > m {
            assert((x + y).push(c) =~= x + y.push(c));
        } else {
            assert forall|k: int| 0 <= k < before.len() implies !((m + 1) as u64 <= (
            #[trigger] before[k]).time <= b) by {
                assert(changes[k].time <= c.time);
                assert(before[k] == changes[k]);
            }
            lemma_within_none(before, (m + 1) as u64, b);
            lemma_append_nothing(x);
            lemma_append_nothing(x.push(c));
        }
    }
}

/// A filter for the same signals with the range `start..=end`.
pub open spec fn with_range(filter: FilterView, start: u64, end: u64) -> FilterView {
    FilterView { start, end: Some(end), ..filter }
}

/// In a file that can be read as a whole and whose sections follow one another,
/// a range that is split in two delivers the same as the whole range: nothing is
/// lost, and nothing comes twice. That holds of
/// [`FstReader::read_signals_in_range`](crate::FstReader::read_signals_in_range), and
/// without a look back of [`FstReader::read_signals`](crate::FstReader::read_signals).
pub proof fn ranges_can_be_split(view: ReaderView, filter: FilterView, a: u64, m: u64, b: u64)
    requires
        a <= m < b,
        all_consistent(view.data, view.meta.data_sections),
        in_order(view.meta.data_sections),
        file_changes(view, filter).1 is Ok,
    ensures
        ({
            let first = with_range(filter, a, m);
            let second = with_range(filter, (m + 1) as u64, b);
            let whole = with_range(filter, a, b);
            &&& signals_read_in_range(view, first).1 is Ok
            &&& followed_by(
                signals_read_in_range(view, first).0,
                signals_read_in_range(view, second),
            ) == signals_read_in_range(view, whole)
            &&& !filter.include_pre_start ==> {
                &&& signals_read(view, first).1 is Ok
                &&& followed_by(signals_read(view, first).0, signals_read(view, second))
                    == signals_read(view, whole)
            }
        }),
{
    let first = with_range(filter, a, m);
    let second = with_range(filter, (m + 1) as u64, b);
    let whole = with_range(filter, a, b);
    let all = file_changes(view, filter).0;
    let sig = selected(view, filter);
    assert(selected(view, first).mask =~= sig.mask);
    assert(selected(view, second).mask =~= sig.mask);
    assert(selected(view, whole).mask =~= sig.mask);
    lemma_sections_ascend(view.data, sig, view.meta.data_sections, 0, always());
    lemma_within_split(all, a, m, b);
    read_signals_in_range_cuts_the_file(view, first);
    read_signals_in_range_cuts_the_file(view, second);
    read_signals_in_range_cuts_the_file(view, whole);
    if !filter.include_pre_start {
        read_signals_cuts_the_file(view, first);
        read_signals_cuts_the_file(view, second);
        read_signals_cuts_the_file(view, whole);
    }
}

} // verus!
