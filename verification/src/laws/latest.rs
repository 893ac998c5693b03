//! Which values are the latest.

use crate::data::{changes_behind, SignalsView};
use crate::delivery::{ascending, asked_for, section_delivers_soundly};
use crate::filter::FilterView;
use crate::laws::signals::{all_consistent, consistent, covers, in_order};
use crate::pre_start::{
    all_found, collected, found_changes, initial_changes, last_change, latest, latest_values,
    none_found, reals_found, strings_found, values_found, with_older, Found, RealAt, StringAt,
    ValuesView,
};
use crate::reader::{pre_start_changes, pre_start_values, selected, signals_read, ReaderView};
use crate::section::{
    at_frame_head, at_most, at_section_head, at_times, frame_end, frame_values, time_table_ascends,
};
use crate::types::{DataSectionInfo, FloatingPointEndian, ReaderError, SignalInfo};
use crate::values::{ChangeView, ValueView};
use crate::wheel::{followed_by, lemma_append_nothing, Window};
use vstd::prelude::*;

verus! {

/// The bytes of a section say the times that are known of it.
pub open spec fn anchored(s: Seq<u8>, section: DataSectionInfo) -> bool {
    at_section_head(s, section.file_offset as int) matches Ok(head) ==> head.start_time
        == section.start_time && head.end_time == section.end_time
}

pub open spec fn all_anchored(s: Seq<u8>, sections: Seq<DataSectionInfo>) -> bool {
    forall|k: int| 0 <= k < sections.len() ==> #[trigger] anchored(s, sections[k])
}

proof fn lemma_frame_values(
    bytes: Seq<u8>,
    pos: int,
    infos: Seq<SignalInfo>,
    endian: FloatingPointEndian,
    mask: Seq<bool>,
    k: int,
    n: int,
    time: u64,
)
    requires
        0 <= k,
    ensures
        frame_values(bytes, pos, infos, endian, mask, k, n, time) matches Ok(changes) ==> forall|
            j: int,
        |
            0 <= j < changes.len() ==> (#[trigger] changes[j]).time == time && k
                <= changes[j].signal < n && mask[changes[j].signal],
    decreases n - k,
{
    if k < n {
        let next = pos + infos[k].width();
        lemma_frame_values(bytes, next, infos, endian, mask, k + 1, n, time);
    }
}

pub proof fn lemma_initial(
    s: Seq<u8>,
    sig: SignalsView,
    start: int,
    with_frame: bool,
    start_time: u64,
    times: Seq<u64>,
)
    ensures
        initial_changes(s, sig, start, with_frame, start_time, times) matches Ok(changes) ==> forall|
            j: int,
        |
            0 <= j < changes.len() ==> (#[trigger] changes[j]).time == start_time && 0
                <= changes[j].signal < sig.infos.len() && sig.mask[changes[j].signal],
{
    if let Ok(head) = at_frame_head(s, start) {
        let n = at_most(head.max_handle, sig.infos.len());
        assert forall|bytes: Seq<u8>| true implies (#[trigger] frame_values(
            bytes,
            0,
            sig.infos,
            sig.endian,
            sig.mask,
            0,
            n,
            start_time,
        ) matches Ok(changes) ==> forall|j: int|
            0 <= j < changes.len() ==> (#[trigger] changes[j]).time == start_time && 0
                <= changes[j].signal < n && sig.mask[changes[j].signal]) by {
            lemma_frame_values(bytes, 0, sig.infos, sig.endian, sig.mask, 0, n, start_time);
        }
    }
}

/// The values that a section gives are values of selected signals before the
/// window ends, in the order of their times.
pub proof fn collected_is_sound(
    s: Seq<u8>,
    sig: SignalsView,
    section: DataSectionInfo,
    with_frame: bool,
    window: Window,
)
    requires
        sig.infos.len() == sig.mask.len(),
        window.start == 0,
        anchored(s, section),
        !window.is_past(section.start_time),
    ensures
        collected(s, sig, section, with_frame, window) matches Ok(changes) ==> {
            &&& asked_for(changes, window, sig.mask)
            &&& consistent(s, section) ==> ascending(changes) && forall|j: int|
                0 <= j < changes.len() ==> (#[trigger] changes[j]).time == section.start_time
                    || covers(section, changes[j].time)
        },
{
    let start = section.file_offset as int;
    if let Ok(head) = at_section_head(s, start) {
        time_table_ascends(s, start, head.length);
        if let Ok(table) = at_times(s, start, head.length) {
            lemma_initial(s, sig, start, with_frame, head.start_time, table.times);
            if let Ok(initial) = initial_changes(
                s,
                sig,
                start,
                with_frame,
                head.start_time,
                table.times,
            ) {
                if let Ok(end) = frame_end(s, start) {
                    section_delivers_soundly(
                        s,
                        sig,
                        section.kind,
                        start,
                        head.length,
                        table,
                        end,
                        window,
                    );
                    let changes = changes_behind(
                        s,
                        sig,
                        section.kind,
                        start,
                        head.length,
                        table,
                        end,
                        window,
                    ).0;
                    let all = initial + changes;
                    assert forall|k: int| 0 <= k < all.len() implies window.contains(
                        (#[trigger] all[k]).time,
                    ) && 0 <= all[k].signal < sig.mask.len() && sig.mask[all[k].signal] by {
                        if k < initial.len() {
                            assert(all[k] == initial[k]);
                        } else {
                            assert(all[k] == changes[k - initial.len()]);
                        }
                    }
                    if consistent(s, section) {
                        assert forall|j: int| 0 <= j < changes.len() implies covers(
                            section,
                            (#[trigger] changes[j]).time,
                        ) by {
                            let u = choose|u: int|
                                0 <= u < table.times.len() && #[trigger] table.times[u]
                                    == changes[j].time;
                            assert(covers(section, table.times[u]));
                        }
                        assert forall|j: int, k: int| 0 <= j <= k < all.len() implies (
                        #[trigger] all[j]).time <= (#[trigger] all[k]).time by {
                            if j < initial.len() {
                                assert(all[j] == initial[j]);
                                if k < initial.len() {
                                    assert(all[k] == initial[k]);
                                } else {
                                    assert(all[k] == changes[k - initial.len()]);
                                }
                            } else {
                                assert(all[j] == changes[j - initial.len()]);
                                assert(all[k] == changes[k - initial.len()]);
                            }
                        }
                        assert forall|j: int| 0 <= j < all.len() implies (#[trigger] all[j]).time
                            == section.start_time || covers(section, all[j].time) by {
                            if j < initial.len() {
                                assert(all[j] == initial[j]);
                            } else {
                                assert(all[j] == changes[j - initial.len()]);
                            }
                        }
                    }
                }
            }
        }
    }
}

/// All values that the first `k` sections tell of the selected signals before
/// the window ends, in the order of the file.
pub open spec fn all_collected(
    s: Seq<u8>,
    sig: SignalsView,
    sections: Seq<DataSectionInfo>,
    k: nat,
    min_time: u64,
    window: Window,
    initial: bool,
) -> Seq<ChangeView>
    decreases k,
{
    if k == 0 {
        Seq::empty()
    } else {
        let i = k - 1;
        let before = all_collected(s, sig, sections, i as nat, min_time, window, initial);
        if window.is_past(sections[i].start_time) || sections[i].end_time < min_time {
            before
        } else {
            match collected(s, sig, sections[i], initial && i == 0, window) {
                Ok(changes) => before + changes,
                Err(_) => before,
            }
        }
    }
}

proof fn lemma_last_change_append(a: Seq<ChangeView>, b: Seq<ChangeView>, n: nat, i: int)
    requires
        n <= b.len(),
    ensures
        last_change(a + b, a.len() + n, i) == (if last_change(b, n, i) is Some {
            last_change(b, n, i)
        } else {
            last_change(a, a.len(), i)
        }),
    decreases n,
{
    if n > 0 {
        lemma_last_change_append(a, b, (n - 1) as nat, i);
        assert((a + b)[a.len() + n - 1] == b[n - 1]);
    } else {
        lemma_last_change_prefix(a, b, a.len(), i);
    }
}

pub proof fn lemma_last_change_prefix(a: Seq<ChangeView>, b: Seq<ChangeView>, n: nat, i: int)
    requires
        n <= a.len(),
    ensures
        last_change(a + b, n, i) == last_change(a, n, i),
    decreases n,
{
    if n > 0 {
        lemma_last_change_prefix(a, b, (n - 1) as nat, i);
    }
}

/// The search finds for each selected signal the last of all values that the
/// file tells of it before the window ends: older sections do not replace what
/// newer ones told, and ending early loses nothing.
pub proof fn search_finds_the_last(
    s: Seq<u8>,
    sig: SignalsView,
    sections: Seq<DataSectionInfo>,
    k: nat,
    found: Found,
    min_time: u64,
    window: Window,
    initial: bool,
    i: int,
)
    requires
        0 <= i < found.len() == sig.mask.len(),
        sig.mask[i],
    ensures
        latest(
            s,
            sig,
            sections,
            k,
            found,
            min_time,
            window,
            initial,
        ) matches Ok(result) ==> result.len()
            == found.len() && result[i] == (if found[i] is Some {
            found[i]
        } else {
            let all = all_collected(s, sig, sections, k, min_time, window, initial);
            last_change(all, all.len(), i)
        }),
    decreases k,
{
    if k > 0 {
        let j = k - 1;
        let section = sections[j];
        let before = all_collected(s, sig, sections, j as nat, min_time, window, initial);
        if window.is_past(section.start_time) || section.end_time < min_time {
            search_finds_the_last(s, sig, sections, j as nat, found, min_time, window, initial, i);
        } else {
            if let Ok(changes) = collected(s, sig, section, initial && j == 0, window) {
                let now = with_older(found, changes);
                lemma_last_change_append(before, changes, changes.len(), i);
                if !all_found(now, sig.mask) {
                    search_finds_the_last(
                        s,
                        sig,
                        sections,
                        j as nat,
                        now,
                        min_time,
                        window,
                        initial,
                        i,
                    );
                } else {
                    assert(now[i] is Some);
                }
            }
        }
    }
}

/// All values are asked for; in a file whose sections follow one another they
/// are in the order of their times.
pub proof fn lemma_all_collected(
    s: Seq<u8>,
    sig: SignalsView,
    sections: Seq<DataSectionInfo>,
    k: nat,
    min_time: u64,
    window: Window,
    initial: bool,
)
    requires
        k <= sections.len(),
        sig.infos.len() == sig.mask.len(),
        window.start == 0,
        all_anchored(s, sections),
    ensures
        ({
            let all = all_collected(s, sig, sections, k, min_time, window, initial);
            &&& asked_for(all, window, sig.mask)
            &&& all_consistent(s, sections) && in_order(sections) ==> {
                &&& ascending(all)
                &&& forall|j: int, m: int|
                    0 <= j < all.len() && k <= m < sections.len() ==> (#[trigger] all[j]).time <= (
                    #[trigger] sections[m]).start_time
            }
        }),
    decreases k,
{
    if k > 0 {
        let i = k - 1;
        lemma_all_collected(s, sig, sections, i as nat, min_time, window, initial);
        let before = all_collected(s, sig, sections, i as nat, min_time, window, initial);
        let all = all_collected(s, sig, sections, k, min_time, window, initial);
        let section = sections[i];
        assert(anchored(s, section));
        if !(window.is_past(section.start_time) || section.end_time < min_time) {
            collected_is_sound(s, sig, section, initial && i == 0, window);
            if let Ok(changes) = collected(s, sig, section, initial && i == 0, window) {
                assert forall|j: int| 0 <= j < all.len() implies window.contains(
                    (#[trigger] all[j]).time,
                ) && 0 <= all[j].signal < sig.mask.len() && sig.mask[all[j].signal] by {
                    if j < before.len() {
                        assert(all[j] == before[j]);
                    } else {
                        assert(all[j] == changes[j - before.len()]);
                    }
                }
                if all_consistent(s, sections) && in_order(sections) {
                    assert(consistent(s, section));
                    assert forall|j: int, m: int|
                        0 <= j < all.len() && k <= m < sections.len() implies (
                    #[trigger] all[j]).time <= (#[trigger] sections[m]).start_time by {
                        if j < before.len() {
                            assert(all[j] == before[j]);
                        } else {
                            assert(all[j] == changes[j - before.len()]);
                            assert(sections[i].end_time <= sections[m].start_time);
                        }
                    }
                    assert forall|j: int, m: int| 0 <= j <= m < all.len() implies (
                    #[trigger] all[j]).time <= (#[trigger] all[m]).time by {
                        if j < before.len() {
                            assert(all[j] == before[j]);
                            if m < before.len() {
                                assert(all[m] == before[m]);
                            } else {
                                assert(all[m] == changes[m - before.len()]);
                                assert(before[j].time <= sections[i].start_time);
                            }
                        } else {
                            assert(all[j] == changes[j - before.len()]);
                            assert(all[m] == changes[m - before.len()]);
                        }
                    }
                }
            }
        }
    }
}

pub proof fn lemma_last_change(changes: Seq<ChangeView>, n: nat, i: int)
    requires
        n <= changes.len(),
    ensures
        match last_change(changes, n, i) {
            None => forall|j: int| 0 <= j < n ==> (#[trigger] changes[j]).signal != i,
            Some((time, value)) => exists|m: int|
                0 <= m < n && #[trigger] changes[m] == (ChangeView { time, signal: i, value })
                    && forall|j: int| m < j < n ==> (#[trigger] changes[j]).signal != i,
        },
    decreases n,
{
    if n > 0 {
        if changes[n - 1].signal == i {
            let c = changes[n - 1];
            assert(changes[n - 1] == (ChangeView { time: c.time, signal: i, value: c.value }));
        } else {
            lemma_last_change(changes, (n - 1) as nat, i);
            if let Some((time, value)) = last_change(changes, n, i) {
                let m = choose|m: int|
                    0 <= m < n - 1 && #[trigger] changes[m] == (ChangeView {
                        time,
                        signal: i,
                        value,
                    }) && forall|j: int| m < j < n - 1 ==> (#[trigger] changes[j]).signal != i;
                assert(changes[m] == (ChangeView { time, signal: i, value }));
            }
        }
    }
}

/// In a file whose sections follow one another, no value of the signal before
/// the window ends is later than the one that the search finds.
pub proof fn search_finds_the_latest(
    s: Seq<u8>,
    sig: SignalsView,
    sections: Seq<DataSectionInfo>,
    min_time: u64,
    window: Window,
    initial: bool,
    i: int,
)
    requires
        0 <= i < sig.infos.len() == sig.mask.len(),
        sig.mask[i],
        window.start == 0,
        all_anchored(s, sections),
        all_consistent(s, sections),
        in_order(sections),
    ensures
        latest_values(s, sig, sections, min_time, window, initial) matches Ok(found) ==> {
            let all = all_collected(s, sig, sections, sections.len(), min_time, window, initial);
            match found[i] {
                None => forall|j: int| 0 <= j < all.len() ==> (#[trigger] all[j]).signal != i,
                Some((time, value)) => {
                    &&& !window.is_past(time)
                    &&& exists|m: int|
                        0 <= m < all.len() && #[trigger] all[m] == (ChangeView {
                            time,
                            signal: i,
                            value,
                        })
                    &&& forall|j: int|
                        0 <= j < all.len() && (#[trigger] all[j]).signal == i ==> all[j].time
                            <= time
                },
            }
        },
{
    let n = sections.len();
    let all = all_collected(s, sig, sections, n, min_time, window, initial);
    lemma_all_collected(s, sig, sections, n, min_time, window, initial);
    search_finds_the_last(
        s,
        sig,
        sections,
        n,
        none_found(sig.infos.len()),
        min_time,
        window,
        initial,
        i,
    );
    lemma_last_change(all, all.len(), i);
    if let Ok(found) = latest_values(s, sig, sections, min_time, window, initial) {
        if let Some((time, value)) = found[i] {
            let m = choose|m: int|
                0 <= m < all.len() && #[trigger] all[m] == (ChangeView { time, signal: i, value })
                    && forall|j: int| m < j < all.len() ==> (#[trigger] all[j]).signal != i;
            assert(window.contains(all[m].time));
            assert forall|j: int| 0 <= j < all.len() && (#[trigger] all[j]).signal == i implies all[j].time
                <= time by {
                assert(j <= m);
                assert(all[j].time <= all[m].time);
            }
        }
    }
}

proof fn lemma_strings_found(found: Found, n: nat, min_time: u64)
    requires
        n <= found.len(),
    ensures
        ({
            let list = strings_found(found, n, min_time);
            &&& forall|k: int|
                0 <= k < list.len() ==> 0 <= (#[trigger] list[k]).signal < n && list[k].time
                    >= min_time && found[list[k].signal] == Some(
                    (list[k].time, ValueView::String(list[k].value)),
                )
            &&& forall|j: int, k: int|
                0 <= j < k < list.len() ==> (#[trigger] list[j]).signal < (
                #[trigger] list[k]).signal
            &&& forall|i: int|
                0 <= i < n ==> (#[trigger] found[i] matches Some((time, ValueView::String(value)))
                    ==> (time >= min_time ==> list.contains(StringAt { signal: i, value, time })))
        }),
    decreases n,
{
    if n > 0 {
        lemma_strings_found(found, (n - 1) as nat, min_time);
        let before = strings_found(found, (n - 1) as nat, min_time);
        let list = strings_found(found, n, min_time);
        assert forall|i: int| 0 <= i < n implies (#[trigger] found[i] matches Some(
            (time, ValueView::String(value)),
        ) ==> (time >= min_time ==> list.contains(StringAt { signal: i, value, time }))) by {
            if let Some((time, ValueView::String(value))) = found[i] {
                if time >= min_time {
                    let entry = StringAt { signal: i, value, time };
                    if i < n - 1 {
                        let k = choose|k: int| 0 <= k < before.len() && before[k] == entry;
                        assert(list[k] == entry);
                    } else {
                        assert(list[list.len() - 1] == entry);
                    }
                }
            }
        }
    }
}

proof fn lemma_reals_found(found: Found, n: nat, min_time: u64)
    requires
        n <= found.len(),
    ensures
        ({
            let list = reals_found(found, n, min_time);
            &&& forall|k: int|
                0 <= k < list.len() ==> 0 <= (#[trigger] list[k]).signal < n && list[k].time
                    >= min_time && found[list[k].signal] == Some(
                    (list[k].time, ValueView::Real(list[k].value)),
                )
            &&& forall|j: int, k: int|
                0 <= j < k < list.len() ==> (#[trigger] list[j]).signal < (
                #[trigger] list[k]).signal
            &&& forall|i: int|
                0 <= i < n ==> (#[trigger] found[i] matches Some((time, ValueView::Real(value)))
                    ==> (time >= min_time ==> list.contains(RealAt { signal: i, value, time })))
        }),
    decreases n,
{
    if n > 0 {
        lemma_reals_found(found, (n - 1) as nat, min_time);
        let before = reals_found(found, (n - 1) as nat, min_time);
        let list = reals_found(found, n, min_time);
        assert forall|i: int| 0 <= i < n implies (#[trigger] found[i] matches Some(
            (time, ValueView::Real(value)),
        ) ==> (time >= min_time ==> list.contains(RealAt { signal: i, value, time }))) by {
            if let Some((time, ValueView::Real(value))) = found[i] {
                if time >= min_time {
                    let entry = RealAt { signal: i, value, time };
                    if i < n - 1 {
                        let k = choose|k: int| 0 <= k < before.len() && before[k] == entry;
                        assert(list[k] == entry);
                    } else {
                        assert(list[list.len() - 1] == entry);
                    }
                }
            }
        }
    }
}

/// The values are listed by signal, each signal once, none older than `min_time`;
/// and the list holds a value of each signal for which there is such a value.
pub open spec fn lists(values: ValuesView, found: Found, min_time: u64) -> bool {
    &&& forall|k: int|
        0 <= k < values.strings.len() ==> 0 <= (#[trigger] values.strings[k]).signal < found.len()
            && values.strings[k].time >= min_time && found[values.strings[k].signal] == Some(
            (values.strings[k].time, ValueView::String(values.strings[k].value)),
        )
    &&& forall|k: int|
        0 <= k < values.reals.len() ==> 0 <= (#[trigger] values.reals[k]).signal < found.len()
            && values.reals[k].time >= min_time && found[values.reals[k].signal] == Some(
            (values.reals[k].time, ValueView::Real(values.reals[k].value)),
        )
    &&& forall|j: int, k: int|
        0 <= j < k < values.strings.len() ==> (#[trigger] values.strings[j]).signal < (
        #[trigger] values.strings[k]).signal
    &&& forall|j: int, k: int|
        0 <= j < k < values.reals.len() ==> (#[trigger] values.reals[j]).signal < (
        #[trigger] values.reals[k]).signal
    &&& forall|i: int|
        0 <= i < found.len() ==> (match #[trigger] found[i] {
            None => true,
            Some((time, ValueView::String(value))) => time >= min_time
                ==> values.strings.contains(StringAt { signal: i, value, time }),
            Some((time, ValueView::Real(value))) => time >= min_time ==> values.reals.contains(
                RealAt { signal: i, value, time },
            ),
        })
}

/// [`FstReader::read_pre_start_values`](crate::FstReader::read_pre_start_values)
/// lists exactly the values that were found and are not older than `min_time`.
pub proof fn values_found_are_listed(found: Found, min_time: u64)
    ensures
        lists(values_found(found, min_time), found, min_time),
{
    lemma_strings_found(found, found.len(), min_time);
    lemma_reals_found(found, found.len(), min_time);
}

/// In a file whose sections follow one another,
/// [`FstReader::read_pre_start_values`](crate::FstReader::read_pre_start_values)
/// lists a value of a selected signal exactly if the file tells one in the
/// range, and then the latest one.
pub proof fn pre_start_values_are_the_latest(
    view: ReaderView,
    filter: FilterView,
    include_target: bool,
    i: int,
)
    requires
        0 <= i < view.meta.signals.len(),
        filter.selects(i),
        all_anchored(view.data, view.meta.data_sections),
        all_consistent(view.data, view.meta.data_sections),
        in_order(view.meta.data_sections),
    ensures
        pre_start_values(view, filter, include_target) matches Ok(values) ==> {
            let window = Window {
                start: 0,
                end: filter.end_in(view.meta.header.end_time),
                include_end: include_target,
            };
            let sections = view.meta.data_sections;
            let all = all_collected(
                view.data,
                selected(view, filter),
                sections,
                sections.len(),
                filter.start,
                window,
                true,
            );
            &&& forall|k: int|
                0 <= k < values.strings.len() && (#[trigger] values.strings[k]).signal == i ==> {
                    let time = values.strings[k].time;
                    &&& filter.start <= time && !window.is_past(time)
                    &&& all.contains(
                        ChangeView {
                            time,
                            signal: i,
                            value: ValueView::String(values.strings[k].value),
                        },
                    )
                    &&& forall|j: int|
                        0 <= j < all.len() && (#[trigger] all[j]).signal == i ==> all[j].time
                            <= time
                }
            &&& forall|k: int|
                0 <= k < values.reals.len() && (#[trigger] values.reals[k]).signal == i ==> {
                    let time = values.reals[k].time;
                    &&& filter.start <= time && !window.is_past(time)
                    &&& all.contains(
                        ChangeView {
                            time,
                            signal: i,
                            value: ValueView::Real(values.reals[k].value),
                        },
                    )
                    &&& forall|j: int|
                        0 <= j < all.len() && (#[trigger] all[j]).signal == i ==> all[j].time
                            <= time
                }
            &&& (exists|j: int|
                0 <= j < all.len() && (#[trigger] all[j]).signal == i && all[j].time
                    >= filter.start) ==> ((exists|k: int|
                0 <= k < values.strings.len() && (#[trigger] values.strings[k]).signal == i) || (
            exists|k: int| 0 <= k < values.reals.len() && (#[trigger] values.reals[k]).signal == i))
        },
{
    let window = Window {
        start: 0,
        end: filter.end_in(view.meta.header.end_time),
        include_end: include_target,
    };
    let sig = selected(view, filter);
    let sections = view.meta.data_sections;
    search_finds_the_latest(view.data, sig, sections, filter.start, window, true, i);
    if let Ok(found) = latest_values(view.data, sig, sections, filter.start, window, true) {
        search_finds_the_last(
            view.data,
            sig,
            sections,
            sections.len(),
            none_found(sig.infos.len()),
            filter.start,
            window,
            true,
            i,
        );
        values_found_are_listed(found, filter.start);
        let values = values_found(found, filter.start);
        let all = all_collected(
            view.data,
            sig,
            sections,
            sections.len(),
            filter.start,
            window,
            true,
        );
        if exists|j: int|
            0 <= j < all.len() && (#[trigger] all[j]).signal == i && all[j].time >= filter.start {
            let j = choose|j: int|
                0 <= j < all.len() && (#[trigger] all[j]).signal == i && all[j].time
                    >= filter.start;
            assert(found[i] is Some);
            let (time, value) = found[i]->0;
            assert(all[j].time <= time);
            match value {
                ValueView::String(bytes) => {
                    let entry = StringAt { signal: i, value: bytes, time };
                    assert(values.strings.contains(entry));
                    let k = choose|k: int|
                        0 <= k < values.strings.len() && values.strings[k] == entry;
                    assert(values.strings[k].signal == i);
                },
                ValueView::Real(bits) => {
                    let entry = RealAt { signal: i, value: bits, time };
                    assert(values.reals.contains(entry));
                    let k = choose|k: int| 0 <= k < values.reals.len() && values.reals[k] == entry;
                    assert(values.reals[k].signal == i);
                },
            }
        }
    }
}

pub proof fn lemma_unselected(
    s: Seq<u8>,
    sig: SignalsView,
    sections: Seq<DataSectionInfo>,
    k: nat,
    found: Found,
    min_time: u64,
    window: Window,
    initial: bool,
    i: int,
)
    requires
        k <= sections.len(),
        sig.infos.len() == sig.mask.len() == found.len(),
        0 <= i < found.len(),
        window.start == 0,
        all_anchored(s, sections),
        !sig.mask[i],
        found[i] is None,
    ensures
        latest(
            s,
            sig,
            sections,
            k,
            found,
            min_time,
            window,
            initial,
        ) matches Ok(result) ==> result.len()
            == found.len() && result[i] is None,
    decreases k,
{
    if k > 0 {
        let j = k - 1;
        let section = sections[j];
        assert(anchored(s, section));
        if window.is_past(section.start_time) || section.end_time < min_time {
            lemma_unselected(s, sig, sections, j as nat, found, min_time, window, initial, i);
        } else {
            collected_is_sound(s, sig, section, initial && j == 0, window);
            if let Ok(changes) = collected(s, sig, section, initial && j == 0, window) {
                lemma_last_change(changes, changes.len(), i);
                let now = with_older(found, changes);
                if let Some((time, value)) = last_change(changes, changes.len(), i) {
                    let m = choose|m: int|
                        0 <= m < changes.len() && #[trigger] changes[m] == (ChangeView {
                            time,
                            signal: i,
                            value,
                        }) && forall|j: int|
                            m < j < changes.len() ==> (#[trigger] changes[j]).signal != i;
                    assert(sig.mask[changes[m].signal]);
                }
                if !all_found(now, sig.mask) {
                    lemma_unselected(s, sig, sections, j as nat, now, min_time, window, initial, i);
                }
            }
        }
    }
}

proof fn lemma_found_changes(found: Found, n: nat)
    requires
        n <= found.len(),
    ensures
        ({
            let list = found_changes(found, n);
            &&& forall|k: int|
                0 <= k < list.len() ==> 0 <= (#[trigger] list[k]).signal < n
                    && found[list[k].signal] == Some((list[k].time, list[k].value))
            &&& forall|j: int, k: int|
                0 <= j < k < list.len() ==> (#[trigger] list[j]).signal < (
                #[trigger] list[k]).signal
            &&& forall|i: int|
                0 <= i < n ==> (#[trigger] found[i] matches Some((time, value)) ==> list.contains(
                    ChangeView { time, signal: i, value },
                ))
        }),
    decreases n,
{
    if n > 0 {
        lemma_found_changes(found, (n - 1) as nat);
        let before = found_changes(found, (n - 1) as nat);
        let list = found_changes(found, n);
        assert forall|i: int| 0 <= i < n implies (#[trigger] found[i] matches Some((time, value))
            ==> list.contains(ChangeView { time, signal: i, value })) by {
            if let Some((time, value)) = found[i] {
                let entry = ChangeView { time, signal: i, value };
                if i < n - 1 {
                    let k = choose|k: int| 0 <= k < before.len() && before[k] == entry;
                    assert(list[k] == entry);
                } else {
                    assert(list[list.len() - 1] == entry);
                }
            }
        }
    }
}

/// What comes in front of the window is one value at most of each selected
/// signal, from before the window, in the order of the signals: the last that
/// the file tells of the signal before `start`, if it tells one.
pub proof fn pre_start_changes_come_before(view: ReaderView, filter: FilterView)
    requires
        all_anchored(view.data, view.meta.data_sections),
    ensures
        pre_start_changes(view, selected(view, filter), filter.start) matches Ok(changes) ==> {
            let sections = view.meta.data_sections;
            let window = Window { start: 0, end: filter.start, include_end: false };
            let all = all_collected(
                view.data,
                selected(view, filter),
                sections,
                sections.len(),
                0,
                window,
                true,
            );
            &&& forall|k: int|
                0 <= k < changes.len() ==> (#[trigger] changes[k]).time < filter.start && 0
                    <= changes[k].signal < view.meta.signals.len() && filter.selects(
                    changes[k].signal,
                )
            &&& forall|j: int, k: int|
                0 <= j < k < changes.len() ==> (#[trigger] changes[j]).signal < (
                #[trigger] changes[k]).signal
            &&& forall|i: int|
                0 <= i < view.meta.signals.len() && #[trigger] filter.selects(i) ==> (match
                last_change(all, all.len(), i) {
                    Some((time, value)) => changes.contains(ChangeView { time, signal: i, value }),
                    None => forall|k: int|
                        0 <= k < changes.len() ==> (#[trigger] changes[k]).signal != i,
                })
        },
{
    let sections = view.meta.data_sections;
    let sig = selected(view, filter);
    let n = sections.len();
    let window = Window { start: 0, end: filter.start, include_end: false };
    let none = none_found(sig.infos.len());
    let all = all_collected(view.data, sig, sections, n, 0, window, true);
    if let Ok(found) = latest_values(view.data, sig, sections, 0, window, true) {
        let changes = found_changes(found, found.len());
        assert forall|i: int| 0 <= i < view.meta.signals.len() implies found.len()
            == sig.infos.len() && #[trigger] found[i] == (if sig.mask[i] {
            last_change(all, all.len(), i)
        } else {
            None
        }) by {
            if sig.mask[i] {
                search_finds_the_last(view.data, sig, sections, n, none, 0, window, true, i);
            } else {
                lemma_unselected(view.data, sig, sections, n, none, 0, window, true, i);
            }
        }
        lemma_latest_len(view.data, sig, sections, n, none, 0, window, true);
        lemma_found_changes(found, found.len());
        lemma_all_collected(view.data, sig, sections, n, 0, window, true);
        assert forall|k: int| 0 <= k < changes.len() implies (#[trigger] changes[k]).time
            < filter.start && 0 <= changes[k].signal < view.meta.signals.len() && filter.selects(
            changes[k].signal,
        ) by {
            let i = changes[k].signal;
            assert(found[i] == Some((changes[k].time, changes[k].value)));
            assert(sig.mask[i]);
            lemma_last_change(all, all.len(), i);
            let m = choose|m: int|
                0 <= m < all.len() && #[trigger] all[m] == (ChangeView {
                    time: changes[k].time,
                    signal: i,
                    value: changes[k].value,
                }) && forall|j: int| m < j < all.len() ==> (#[trigger] all[j]).signal != i;
            assert(window.contains(all[m].time));
        }
        assert forall|i: int| 0 <= i < view.meta.signals.len() && #[trigger] filter.selects(i) implies (
        match last_change(all, all.len(), i) {
            Some((time, value)) => changes.contains(ChangeView { time, signal: i, value }),
            None => forall|k: int| 0 <= k < changes.len() ==> (#[trigger] changes[k]).signal != i,
        }) by {
            assert(sig.mask[i]);
            assert(found[i] == last_change(all, all.len(), i));
        }
    }
}

pub proof fn lemma_latest_len(
    s: Seq<u8>,
    sig: SignalsView,
    sections: Seq<DataSectionInfo>,
    k: nat,
    found: Found,
    min_time: u64,
    window: Window,
    initial: bool,
)
    ensures
        latest(
            s,
            sig,
            sections,
            k,
            found,
            min_time,
            window,
            initial,
        ) matches Ok(result) ==> result.len()
            == found.len(),
    decreases k,
{
    if k > 0 {
        let j = (k - 1) as nat;
        lemma_latest_len(s, sig, sections, j, found, min_time, window, initial);
        if let Ok(changes) = collected(s, sig, sections[j as int], initial && j == 0, window) {
            lemma_latest_len(
                s,
                sig,
                sections,
                j,
                with_older(found, changes),
                min_time,
                window,
                initial,
            );
        }
    }
}

/// A filter with a look back delivers the same as one without, only that the
/// values before the window come first. If those cannot be read, nothing is delivered.
pub proof fn look_back_comes_first(view: ReaderView, filter: FilterView)
    requires
        filter.include_pre_start,
    ensures
        ({
            let plain = FilterView { include_pre_start: false, ..filter };
            signals_read(view, filter) == (match pre_start_changes(
                view,
                selected(view, filter),
                filter.start,
            ) {
                Ok(before) => followed_by(before, signals_read(view, plain)),
                Err(e) => (Seq::<ChangeView>::empty(), Err::<(), ReaderError>(e)),
            })
        }),
{
    let plain = FilterView { include_pre_start: false, ..filter };
    assert(selected(view, plain).mask =~= selected(view, filter).mask) by {
        assert forall|i: int| plain.selects(i) == filter.selects(i) by {}
    }
}

/// Before time zero there is nothing: a look back from there changes nothing.
pub proof fn look_back_from_zero_is_empty(view: ReaderView, filter: FilterView)
    requires
        filter.start == 0,
    ensures
        signals_read(view, filter) == signals_read(
            view,
            FilterView { include_pre_start: false, ..filter },
        ),
{
    let sig = selected(view, filter);
    let sections = view.meta.data_sections;
    let window = Window { start: 0, end: 0, include_end: false };
    let none = none_found(sig.infos.len());
    lemma_all_past(view.data, sig, sections, sections.len(), none, window);
    lemma_no_changes(none, none.len());
    let plain = FilterView { include_pre_start: false, ..filter };
    if filter.include_pre_start {
        look_back_comes_first(view, filter);
        lemma_append_nothing(signals_read(view, plain).0);
    }
}

proof fn lemma_all_past(
    s: Seq<u8>,
    sig: SignalsView,
    sections: Seq<DataSectionInfo>,
    k: nat,
    found: Found,
    window: Window,
)
    requires
        window.end == 0,
        !window.include_end,
    ensures
        latest(s, sig, sections, k, found, 0, window, true) == Ok::<Found, ReaderError>(found),
    decreases k,
{
    if k > 0 {
        lemma_all_past(s, sig, sections, (k - 1) as nat, found, window);
    }
}

proof fn lemma_no_changes(found: Found, n: nat)
    requires
        n <= found.len(),
        forall|i: int| 0 <= i < found.len() ==> #[trigger] found[i] is None,
    ensures
        found_changes(found, n) == Seq::<ChangeView>::empty(),
    decreases n,
{
    if n > 0 {
        lemma_no_changes(found, (n - 1) as nat);
    }
}

} // verus!
