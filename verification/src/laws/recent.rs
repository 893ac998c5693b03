//! The most recent values, told by the changes of the file.

use crate::data::{changes_behind, changes_from, section_changes, SignalsView};
use crate::delivery::{lemma_of_signal_append, of_signal, section_delivers_by_signal};
use crate::filter::FilterView;
use crate::laws::boundary::{lemma_of_signal_is_part, lemma_within_is_part};
use crate::laws::latest::{
    all_anchored, all_collected, anchored, lemma_initial, lemma_last_change_prefix,
    search_finds_the_last, search_finds_the_latest, values_found_are_listed,
};
use crate::laws::ranges::{file_changes, lemma_behind_within, lemma_within_twice};
use crate::laws::signals::{
    all_consistent, always, consistent, file_of_signal, in_order, lemma_section_covered,
    lemma_within_append, lemma_within_none, lemma_within_of_signal, section_of_signal, signal_from,
};
use crate::pre_start::{
    collected, initial_changes, last_change, latest, latest_values, none_found, with_older, Found,
    RealAt, StringAt, ValuesView,
};
use crate::reader::{pre_start_values, selected, within, ReaderView};
use crate::section::{at_section_head, at_times, frame_end, time_table_ascends};
use crate::types::DataSectionInfo;
use crate::values::{ChangeView, ValueView};
use crate::wheel::{lemma_append, lemma_append_nothing, Window};
use vstd::prelude::*;

verus! {

/// The list has just one value of the signal of `c`, which is that of `c`.
pub open spec fn lists_just(values: ValuesView, c: ChangeView) -> bool {
    &&& match c.value {
        ValueView::String(value) => values.strings.contains(
            StringAt { signal: c.signal, value, time: c.time },
        ),
        ValueView::Real(value) => values.reals.contains(
            RealAt { signal: c.signal, value, time: c.time },
        ),
    }
    &&& forall|k: int|
        0 <= k < values.strings.len() && (#[trigger] values.strings[k]).signal == c.signal
            ==> values.strings[k].time == c.time && c.value == ValueView::String(
            values.strings[k].value,
        )
    &&& forall|k: int|
        0 <= k < values.reals.len() && (#[trigger] values.reals[k]).signal == c.signal
            ==> values.reals[k].time == c.time && c.value == ValueView::Real(
            values.reals[k].value,
        )
    &&& forall|j: int, k: int|
        0 <= j < values.strings.len() && 0 <= k < values.strings.len() && (
        #[trigger] values.strings[j]).signal == c.signal && (#[trigger] values.strings[k]).signal
            == c.signal ==> j == k
    &&& forall|j: int, k: int|
        0 <= j < values.reals.len() && 0 <= k < values.reals.len() && (
        #[trigger] values.reals[j]).signal == c.signal && (#[trigger] values.reals[k]).signal
            == c.signal ==> j == k
}

/// The values of signal `i` in the list are all at `time`.
pub open spec fn lists_only_at(values: ValuesView, i: int, time: u64) -> bool {
    &&& forall|k: int|
        0 <= k < values.strings.len() && (#[trigger] values.strings[k]).signal == i
            ==> values.strings[k].time == time
    &&& forall|k: int|
        0 <= k < values.reals.len() && (#[trigger] values.reals[k]).signal == i
            ==> values.reals[k].time == time
}

/// The list has no value of signal `i`.
pub open spec fn lists_none(values: ValuesView, i: int) -> bool {
    &&& forall|k: int|
        0 <= k < values.strings.len() ==> (#[trigger] values.strings[k]).signal != i
    &&& forall|k: int| 0 <= k < values.reals.len() ==> (#[trigger] values.reals[k]).signal != i
}

/// What the first section tells of the selected signals can be read, its initial
/// values included.
pub open spec fn starts_readable(view: ReaderView, filter: FilterView) -> bool {
    view.meta.data_sections.len() > 0 ==> collected(
        view.data,
        selected(view, filter),
        view.meta.data_sections[0],
        true,
        always(),
    ) is Ok
}

/// What the first `k` sections tell of signal `i`.
pub open spec fn signal_to(
    s: Seq<u8>,
    sig: SignalsView,
    sections: Seq<DataSectionInfo>,
    k: nat,
    i: int,
) -> Seq<ChangeView>
    decreases k,
{
    if k == 0 {
        Seq::empty()
    } else {
        signal_to(s, sig, sections, (k - 1) as nat, i) + section_of_signal(
            s,
            sig,
            sections[k - 1],
            i,
            always(),
        )
    }
}

pub proof fn lemma_signal_to(
    s: Seq<u8>,
    sig: SignalsView,
    sections: Seq<DataSectionInfo>,
    k: nat,
    i: int,
)
    requires
        k <= sections.len(),
    ensures
        signal_from(s, sig, sections, 0, i, always()) == signal_to(s, sig, sections, k, i)
            + signal_from(s, sig, sections, k as int, i, always()),
    decreases k,
{
    let rest = signal_from(s, sig, sections, k as int, i, always());
    if k == 0 {
        lemma_append_nothing(rest);
    } else {
        lemma_signal_to(s, sig, sections, (k - 1) as nat, i);
        lemma_append(
            signal_to(s, sig, sections, (k - 1) as nat, i),
            section_of_signal(s, sig, sections[k - 1], i, always()),
            rest,
        );
    }
}

pub proof fn lemma_all_readable(
    s: Seq<u8>,
    sig: SignalsView,
    sections: Seq<DataSectionInfo>,
    k: int,
    j: int,
)
    requires
        0 <= k <= j < sections.len(),
        changes_from(s, sig, sections, k, always()).1 is Ok,
    ensures
        section_changes(s, sig, sections[j], always()).1 is Ok,
    decreases sections.len() - k,
{
    if k < j {
        lemma_all_readable(s, sig, sections, k + 1, j);
    }
}

pub proof fn lemma_last_of_signal(changes: Seq<ChangeView>, i: int)
    ensures
        last_change(changes, changes.len(), i) == (if of_signal(changes, i).len() == 0 {
            None
        } else {
            let c = of_signal(changes, i).last();
            Some((c.time, c.value))
        }),
    decreases changes.len(),
{
    if changes.len() > 0 {
        let before = changes.drop_last();
        let last = changes[changes.len() - 1];
        lemma_last_of_signal(before, i);
        assert(before + seq![last] =~= changes);
        lemma_last_change_prefix(before, seq![last], before.len(), i);
    }
}

/// What a readable section tells the search of signal `i` from `start` to `end`:
/// its changes there, behind the values of its frame if those count.
pub proof fn lemma_collected_of_signal(
    s: Seq<u8>,
    sig: SignalsView,
    section: DataSectionInfo,
    with_frame: bool,
    i: int,
    start: u64,
    end: u64,
)
    requires
        0 <= i < sig.infos.len() == sig.mask.len(),
        anchored(s, section),
        section_changes(s, sig, section, always()).1 is Ok,
        with_frame ==> collected(s, sig, section, true, always()) is Ok,
    ensures
        collected(
            s,
            sig,
            section,
            with_frame,
            Window { start: 0, end, include_end: true },
        ) matches Ok(changes) && exists|initial: Seq<ChangeView>|
            {
                &&& #[trigger] within(of_signal(changes, i), start, end) == initial + within(
                    section_of_signal(s, sig, section, i, always()),
                    start,
                    end,
                )
                &&& with_frame || initial.len() == 0
                &&& forall|k: int|
                    0 <= k < initial.len() ==> (#[trigger] initial[k]).time == section.start_time
            },
{
    let window = Window { start: 0, end, include_end: true };
    let at = section.file_offset as int;
    let head = at_section_head(s, at)->Ok_0;
    time_table_ascends(s, at, head.length);
    let table = at_times(s, at, head.length)->Ok_0;
    let behind = frame_end(s, at)->Ok_0;
    let all = changes_behind(
        s,
        sig,
        section.kind,
        at,
        head.length,
        table,
        behind,
        always(),
    ).0;
    lemma_behind_within(s, sig, section.kind, at, head.length, table, behind, window);
    section_delivers_by_signal(
        s,
        sig,
        section.kind,
        at,
        head.length,
        table,
        behind,
        always(),
        i,
    );
    let told = section_of_signal(s, sig, section, i, always());
    assert(of_signal(all, i) == told);
    let frame = initial_changes(
        s,
        sig,
        at,
        with_frame,
        head.start_time,
        table.times,
    )->Ok_0;
    lemma_initial(s, sig, at, with_frame, head.start_time, table.times);
    let inside = within(all, 0, end);
    let changes = collected(s, sig, section, with_frame, window)->Ok_0;
    assert(changes == frame + inside);
    lemma_of_signal_append(frame, inside, i);
    lemma_within_of_signal(all, 0, end, i);
    lemma_within_append(of_signal(frame, i), within(told, 0, end), start, end);
    lemma_within_twice(told, 0, end, start, end);
    let initial = within(of_signal(frame, i), start, end);
    lemma_of_signal_is_part(frame, i);
    lemma_within_is_part(of_signal(frame, i), start, end);
    assert forall|k: int| 0 <= k < initial.len() implies (#[trigger] initial[k]).time
        == section.start_time by {
        let part = of_signal(frame, i);
        let m = choose|m: int| 0 <= m < part.len() && part[m] == initial[k];
        assert(frame.contains(part[m]));
    }
    if !with_frame {
        assert(of_signal(frame, i) =~= Seq::empty());
    }
    assert(within(of_signal(changes, i), start, end) == initial + within(told, start, end));
}

/// What the search goes by for signal `i` from `start` to `end`: the changes of the
/// file there, behind initial values.
proof fn lemma_all_collected_of_signal(
    s: Seq<u8>,
    sig: SignalsView,
    sections: Seq<DataSectionInfo>,
    k: nat,
    i: int,
    start: u64,
    end: u64,
)
    requires
        k <= sections.len(),
        0 <= i < sig.infos.len() == sig.mask.len(),
        all_anchored(s, sections),
        all_consistent(s, sections),
        changes_from(s, sig, sections, 0, always()).1 is Ok,
        sections.len() > 0 ==> collected(s, sig, sections[0], true, always()) is Ok,
    ensures
        exists|initial: Seq<ChangeView>|
            {
                &&& #[trigger] (initial + within(
                    signal_to(s, sig, sections, k, i),
                    start,
                    end,
                )) == within(
                    of_signal(
                        all_collected(
                            s,
                            sig,
                            sections,
                            k,
                            start,
                            Window { start: 0, end, include_end: true },
                            true,
                        ),
                        i,
                    ),
                    start,
                    end,
                )
                &&& forall|j: int|
                    0 <= j < initial.len() ==> (#[trigger] initial[j]).time
                        == sections[0].start_time
            },
    decreases k,
{
    let window = Window { start: 0, end, include_end: true };
    let all = all_collected(s, sig, sections, k, start, window, true);
    let whole = within(signal_to(s, sig, sections, k, i), start, end);
    if k == 0 {
        let initial = Seq::<ChangeView>::empty();
        lemma_append_nothing(whole);
        assert(initial + whole == within(of_signal(all, i), start, end));
    } else {
        let m = (k - 1) as nat;
        lemma_all_collected_of_signal(s, sig, sections, m, i, start, end);
        let before = all_collected(s, sig, sections, m, start, window, true);
        let told = signal_to(s, sig, sections, m, i);
        let first = choose|initial: Seq<ChangeView>|
            {
                &&& #[trigger] (initial + within(told, start, end)) == within(
                    of_signal(before, i),
                    start,
                    end,
                )
                &&& forall|j: int|
                    0 <= j < initial.len() ==> (#[trigger] initial[j]).time
                        == sections[0].start_time
            };
        let section = sections[m as int];
        let here = section_of_signal(s, sig, section, i, always());
        assert(anchored(s, section));
        assert(consistent(s, section));
        lemma_within_append(told, here, start, end);
        if window.is_past(section.start_time) || section.end_time < start {
            lemma_section_covered(s, sig, section, i, always());
            lemma_within_none(here, start, end);
            lemma_append_nothing(within(told, start, end));
            assert(first + whole == within(of_signal(all, i), start, end));
        } else {
            lemma_all_readable(s, sig, sections, 0, m as int);
            lemma_collected_of_signal(s, sig, section, m == 0, i, start, end);
            let changes = collected(s, sig, section, m == 0, window)->Ok_0;
            let frame = choose|initial: Seq<ChangeView>|
                {
                    &&& #[trigger] within(of_signal(changes, i), start, end) == initial + within(
                        here,
                        start,
                        end,
                    )
                    &&& m == 0 || initial.len() == 0
                    &&& forall|k: int|
                        0 <= k < initial.len() ==> (#[trigger] initial[k]).time
                            == section.start_time
                };
            lemma_of_signal_append(before, changes, i);
            lemma_within_append(of_signal(before, i), of_signal(changes, i), start, end);
            let inside = within(told, start, end);
            if m == 0 {
                assert(first + inside + (frame + within(here, start, end)) =~= first + frame + (
                inside + within(here, start, end))) by {
                    assert(inside =~= Seq::empty());
                }
                let initial = first + frame;
                assert(initial + whole == within(of_signal(all, i), start, end));
                assert forall|j: int| 0 <= j < initial.len() implies (#[trigger] initial[j]).time
                    == sections[0].start_time by {
                    if j < first.len() {
                        assert(initial[j] == first[j]);
                    } else {
                        assert(initial[j] == frame[j - first.len()]);
                    }
                }
            } else {
                assert(first + inside + (frame + within(here, start, end)) =~= first + (inside
                    + within(here, start, end)));
                assert(first + whole == within(of_signal(all, i), start, end));
            }
        }
    }
}

/// In a file that can be read as a whole, the search succeeds.
proof fn lemma_latest_succeeds(
    s: Seq<u8>,
    sig: SignalsView,
    sections: Seq<DataSectionInfo>,
    k: nat,
    found: Found,
    i: int,
    start: u64,
    end: u64,
)
    requires
        k <= sections.len(),
        0 <= i < sig.infos.len() == sig.mask.len(),
        all_anchored(s, sections),
        changes_from(s, sig, sections, 0, always()).1 is Ok,
        sections.len() > 0 ==> collected(s, sig, sections[0], true, always()) is Ok,
    ensures
        latest(
            s,
            sig,
            sections,
            k,
            found,
            start,
            Window { start: 0, end, include_end: true },
            true,
        ) is Ok,
    decreases k,
{
    if k > 0 {
        let m = k - 1;
        assert(anchored(s, sections[m]));
        lemma_all_readable(s, sig, sections, 0, m);
        lemma_collected_of_signal(s, sig, sections[m], m == 0, i, start, end);
        let window = Window { start: 0, end, include_end: true };
        let changes = collected(s, sig, sections[m], m == 0, window)->Ok_0;
        lemma_latest_succeeds(s, sig, sections, m as nat, found, i, start, end);
        lemma_latest_succeeds(
            s,
            sig,
            sections,
            m as nat,
            with_older(found, changes),
            i,
            start,
            end,
        );
    }
}

/// In a file that can be read as a whole and whose sections follow one another,
/// [`FstReader::read_pre_start_values`](crate::FstReader::read_pre_start_values)
/// succeeds. It lists of each selected signal that changes in `start..=end` just the value of its
/// last change there. Of another signal it lists an initial value of the file at most.
pub proof fn pre_start_values_are_the_last_changes(view: ReaderView, filter: FilterView, i: int)
    requires
        0 <= i < view.meta.signals.len(),
        filter.selects(i),
        all_anchored(view.data, view.meta.data_sections),
        all_consistent(view.data, view.meta.data_sections),
        in_order(view.meta.data_sections),
        file_changes(view, filter).1 is Ok,
        starts_readable(view, filter),
    ensures
        pre_start_values(view, filter, true) matches Ok(values) && {
            let inside = within(
                file_of_signal(view, selected(view, filter), i),
                filter.start,
                filter.end_in(view.meta.header.end_time),
            );
            &&& inside.len() > 0 ==> lists_just(values, inside.last())
            &&& inside.len() == 0 ==> (lists_none(values, i) || lists_only_at(
                values,
                i,
                view.meta.data_sections[0].start_time,
            ))
        },
{
    let s = view.data;
    let sig = selected(view, filter);
    let sections = view.meta.data_sections;
    let n = sections.len();
    let start = filter.start;
    let end = filter.end_in(view.meta.header.end_time);
    let window = Window { start: 0, end, include_end: true };
    let none = none_found(sig.infos.len());
    lemma_latest_succeeds(s, sig, sections, n, none, i, start, end);
    let found = latest_values(s, sig, sections, start, window, true)->Ok_0;
    let values = pre_start_values(view, filter, true)->Ok_0;
    search_finds_the_last(s, sig, sections, n, none, start, window, true, i);
    search_finds_the_latest(s, sig, sections, start, window, true, i);
    let all = all_collected(s, sig, sections, n, start, window, true);
    let part = of_signal(all, i);
    lemma_last_of_signal(all, i);
    lemma_of_signal_is_part(all, i);
    lemma_all_collected_of_signal(s, sig, sections, n, i, start, end);
    lemma_signal_to(s, sig, sections, n, i);
    lemma_append_nothing(signal_to(s, sig, sections, n, i));
    let inside = within(file_of_signal(view, sig, i), start, end);
    let initial = choose|initial: Seq<ChangeView>|
        {
            &&& #[trigger] (initial + inside) == within(part, start, end)
            &&& forall|j: int|
                0 <= j < initial.len() ==> (#[trigger] initial[j]).time
                    == sections[0].start_time
        };
    values_found_are_listed(found, start);
    if let Some((time, value)) = found[i] {
        let last = part.last();
        assert(part[part.len() - 1] == last);
        if time < start {
            assert forall|k: int| 0 <= k < part.len() implies !(start <= (
            #[trigger] part[k]).time <= end) by {
                assert(all.contains(part[k]));
                let m = choose|m: int| 0 <= m < all.len() && all[m] == part[k];
                assert(all[m].signal == i);
            }
            lemma_within_none(part, start, end);
            assert(inside.len() == 0);
        } else {
            assert(within(part, start, end).last() == last);
            if inside.len() > 0 {
                assert((initial + inside).last() == inside.last());
            } else {
                assert((initial + inside).last() == initial[initial.len() - 1]);
            }
        }
    } else {
        assert(part.len() == 0);
        assert(within(part, start, end).len() == 0);
    }
}

} // verus!
