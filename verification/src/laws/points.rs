//! The values at the ends of a range, told by the changes of the file.

use crate::boundary::{boundary_values, first_values, kept, last_values, values_at};
use crate::data::{changes_from, SignalsView};
use crate::delivery::{lemma_of_signal_append, of_signal};
use crate::laws::boundary::{lemma_earliest, lemma_newest, lemma_of_signal_is_part};
use crate::laws::latest::{
    all_anchored, all_collected, anchored, search_finds_the_last, search_finds_the_latest,
    values_found_are_listed,
};
use crate::laws::recent::{
    lemma_all_readable, lemma_collected_of_signal, lemma_last_of_signal, lemma_signal_to,
    signal_to,
};
use crate::laws::signals::{
    all_consistent, always, consistent, in_order, lemma_section_covered, lemma_within_append,
    lemma_within_none, section_of_signal, signal_from,
};
use crate::pre_start::{
    collected, latest, latest_values, none_found, with_older, Found, RealAt, StringAt,
};
use crate::reader::within;
use crate::types::DataSectionInfo;
use crate::values::{ChangeView, ValueView};
use crate::wheel::{lemma_append_nothing, Window};
use vstd::prelude::*;

verus! {

/// Of the values that were found, those between two times are kept, and no others.
pub proof fn values_between_are_kept(found: Found, lo: u64, hi: u64, i: int)
    requires
        0 <= i < found.len(),
    ensures
        kept(found, lo, hi).len() == found.len(),
        found[i] is None ==> kept(found, lo, hi)[i] is None,
        found[i] matches Some((time, _)) ==> (if lo <= time <= hi {
            kept(found, lo, hi)[i] == found[i]
        } else {
            kept(found, lo, hi)[i] is None
        }),
{
}

/// A point in time has the values that were found for that time: all of them, each
/// with its signal, and no others.
pub proof fn points_list_their_values(found: Found, time: u64)
    ensures
        values_at(found, None) is None,
        values_at(found, Some(time)) matches Some(point) && {
            &&& point.time == time
            &&& forall|i: int, value: Seq<u8>|
                0 <= i < found.len() ==> (found[i] == Some((time, ValueView::String(value)))
                    <==> #[trigger] point.values.strings.contains(
                    StringAt { signal: i, value, time },
                ))
            &&& forall|i: int, value: u64|
                0 <= i < found.len() ==> (found[i] == Some((time, ValueView::Real(value)))
                    <==> #[trigger] point.values.reals.contains(
                    RealAt { signal: i, value, time },
                ))
        },
{
    let only = kept(found, time, time);
    values_found_are_listed(only, 0);
    let point = values_at(found, Some(time))->0;
    assert forall|i: int, value: Seq<u8>| 0 <= i < found.len() implies (found[i] == Some(
        (time, ValueView::String(value)),
    ) <==> #[trigger] point.values.strings.contains(StringAt { signal: i, value, time })) by {
        let entry = StringAt { signal: i, value, time };
        if point.values.strings.contains(entry) {
            let k = choose|k: int|
                0 <= k < point.values.strings.len() && point.values.strings[k] == entry;
            assert(point.values.strings[k].signal == i);
        }
        assert(only[i] is Some ==> only[i] == found[i]);
    }
    assert forall|i: int, value: u64| 0 <= i < found.len() implies (found[i] == Some(
        (time, ValueView::Real(value)),
    ) <==> #[trigger] point.values.reals.contains(RealAt { signal: i, value, time })) by {
        let entry = RealAt { signal: i, value, time };
        if point.values.reals.contains(entry) {
            let k = choose|k: int|
                0 <= k < point.values.reals.len() && point.values.reals[k] == entry;
            assert(point.values.reals[k].signal == i);
        }
        assert(only[i] is Some ==> only[i] == found[i]);
    }
}

/// The first point in time of a range is the time of one of the first values, and the
/// last point that of one of the last values.
pub proof fn points_are_times_of_values(
    s: Seq<u8>,
    sig: SignalsView,
    sections: Seq<DataSectionInfo>,
    start: u64,
    end: u64,
)
    ensures
        boundary_values(s, sig, sections, start, end) matches Ok(boundary) ==> {
            let firsts = first_values(s, sig, sections, start, end)->Ok_0;
            let lasts = last_values(s, sig, sections, start, end)->Ok_0;
            &&& boundary.first matches Some(point) ==> (exists|i: int|
                0 <= i < firsts.len() && (#[trigger] firsts[i] matches Some((time, _)) && time
                    == point.time)) && boundary.first == values_at(firsts, Some(point.time))
            &&& boundary.last matches Some(point) ==> (exists|i: int|
                0 <= i < lasts.len() && (#[trigger] lasts[i] matches Some((time, _)) && time
                    == point.time)) && boundary.last == values_at(lasts, Some(point.time))
        },
{
    if let Ok(boundary) = boundary_values(s, sig, sections, start, end) {
        let firsts = first_values(s, sig, sections, start, end)->Ok_0;
        let lasts = last_values(s, sig, sections, start, end)->Ok_0;
        lemma_earliest(firsts, firsts.len());
        lemma_newest(lasts, lasts.len());
    }
}

proof fn lemma_searched_of_signal(
    s: Seq<u8>,
    sig: SignalsView,
    sections: Seq<DataSectionInfo>,
    k: nat,
    i: int,
    start: u64,
    end: u64,
)
    requires
        k <= sections.len(),
        0 <= i < sig.infos.len() == sig.mask.len(),
        all_anchored(s, sections),
        all_consistent(s, sections),
        changes_from(s, sig, sections, 0, always()).1 is Ok,
    ensures
        within(
            of_signal(
                all_collected(
                    s,
                    sig,
                    sections,
                    k,
                    start,
                    Window { start: 0, end, include_end: true },
                    false,
                ),
                i,
            ),
            start,
            end,
        ) == within(signal_to(s, sig, sections, k, i), start, end),
    decreases k,
{
    let window = Window { start: 0, end, include_end: true };
    if k > 0 {
        let m = (k - 1) as nat;
        lemma_searched_of_signal(s, sig, sections, m, i, start, end);
        let before = all_collected(s, sig, sections, m, start, window, false);
        let told = signal_to(s, sig, sections, m, i);
        let section = sections[m as int];
        let here = section_of_signal(s, sig, section, i, always());
        assert(anchored(s, section));
        assert(consistent(s, section));
        lemma_within_append(told, here, start, end);
        if window.is_past(section.start_time) || section.end_time < start {
            lemma_section_covered(s, sig, section, i, always());
            lemma_within_none(here, start, end);
            lemma_append_nothing(within(told, start, end));
        } else {
            lemma_all_readable(s, sig, sections, 0, m as int);
            lemma_collected_of_signal(s, sig, section, false, i, start, end);
            let changes = collected(s, sig, section, false, window)->Ok_0;
            lemma_of_signal_append(before, changes, i);
            lemma_within_append(of_signal(before, i), of_signal(changes, i), start, end);
            let initial = choose|initial: Seq<ChangeView>|
                {
                    &&& #[trigger] within(of_signal(changes, i), start, end) == initial + within(
                        here,
                        start,
                        end,
                    )
                    &&& false || initial.len() == 0
                    &&& forall|k: int|
                        0 <= k < initial.len() ==> (#[trigger] initial[k]).time
                            == section.start_time
                };
            assert(initial =~= Seq::empty());
            lemma_append_nothing(within(here, start, end));
        }
    }
}

proof fn lemma_search_succeeds(
    s: Seq<u8>,
    sig: SignalsView,
    sections: Seq<DataSectionInfo>,
    k: nat,
    found: Found,
    i: int,
    start: u64,
    end: u64,
)
    requires
        k <= sections.len(),
        0 <= i < sig.infos.len() == sig.mask.len(),
        all_anchored(s, sections),
        changes_from(s, sig, sections, 0, always()).1 is Ok,
    ensures
        latest(
            s,
            sig,
            sections,
            k,
            found,
            start,
            Window { start: 0, end, include_end: true },
            false,
        ) is Ok,
    decreases k,
{
    if k > 0 {
        let m = k - 1;
        let window = Window { start: 0, end, include_end: true };
        assert(anchored(s, sections[m]));
        lemma_all_readable(s, sig, sections, 0, m);
        lemma_collected_of_signal(s, sig, sections[m], false, i, start, end);
        let changes = collected(s, sig, sections[m], false, window)->Ok_0;
        let now = with_older(found, changes);
        lemma_search_succeeds(s, sig, sections, m as nat, found, i, start, end);
        lemma_search_succeeds(s, sig, sections, m as nat, now, i, start, end);
    }
}

/// The time and the value of the last change from `start` to `end`.
pub open spec fn last_in(changes: Seq<ChangeView>, start: u64, end: u64) -> Option<
    (u64, ValueView),
> {
    let inside = within(changes, start, end);
    if inside.len() == 0 {
        None
    } else {
        Some((inside.last().time, inside.last().value))
    }
}

/// In a file that can be read as a whole and whose sections follow one another, the
/// last values of a range are found: for each selected signal just the value of its
/// last change there, and none if it does not change there.
pub proof fn last_values_are_the_last(
    s: Seq<u8>,
    sig: SignalsView,
    sections: Seq<DataSectionInfo>,
    start: u64,
    end: u64,
    i: int,
)
    requires
        0 <= i < sig.infos.len() == sig.mask.len(),
        sig.mask[i],
        all_anchored(s, sections),
        all_consistent(s, sections),
        in_order(sections),
        changes_from(s, sig, sections, 0, always()).1 is Ok,
    ensures
        last_values(s, sig, sections, start, end) matches Ok(lasts) && lasts[i] == last_in(
            signal_from(s, sig, sections, 0, i, always()),
            start,
            end,
        ),
{
    let window = Window { start: 0, end, include_end: true };
    let n = sections.len();
    let none = none_found(sig.infos.len());
    lemma_search_succeeds(s, sig, sections, n, none, i, start, end);
    let found = latest_values(s, sig, sections, start, window, false)->Ok_0;
    search_finds_the_last(s, sig, sections, n, none, start, window, false, i);
    search_finds_the_latest(s, sig, sections, start, window, false, i);
    let all = all_collected(s, sig, sections, n, start, window, false);
    let part = of_signal(all, i);
    lemma_last_of_signal(all, i);
    lemma_of_signal_is_part(all, i);
    lemma_searched_of_signal(s, sig, sections, n, i, start, end);
    lemma_signal_to(s, sig, sections, n, i);
    lemma_append_nothing(signal_to(s, sig, sections, n, i));
    if let Some((time, value)) = found[i] {
        let last = part.last();
        assert(part[part.len() - 1] == last);
        if time < start {
            assert forall|k: int| 0 <= k < part.len() implies !(start <= (
            #[trigger] part[k]).time <= end) by {
                assert(all.contains(part[k]));
                let m = choose|m: int| 0 <= m < all.len() && all[m] == part[k];
                assert(all[m].signal == i);
            }
            lemma_within_none(part, start, end);
        } else {
            assert(within(part, start, end).last() == last);
        }
    } else {
        assert(part.len() == 0);
        assert(within(part, start, end).len() == 0);
    }
}

} // verus!
