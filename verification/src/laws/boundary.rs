//! The first and the last values in a window.

use crate::boundary::{
    boundary_values, earliest, first_from, first_values, firsts_from, firsts_with, kept,
    last_values, newest, section_firsts, time_within, values_at, with_first, TimePointView,
};
use crate::data::{at_changes, changes_behind, is_relevant, ChangesView, SignalsView};
use crate::delivery::{chain, located_bytes, of_signal, section_delivers_by_signal, signal_changes};
use crate::laws::latest::{
    all_anchored, all_collected, anchored, collected_is_sound, lemma_all_collected,
    lemma_last_change, lemma_latest_len, lemma_unselected, search_finds_the_last,
    values_found_are_listed,
};
use crate::laws::signals::{
    all_consistent, always, consistent, covers, in_order, lemma_chain_within,
    lemma_section_covered, lemma_section_window, lemma_within_append, lemma_within_none,
    lemma_within_one, section_of_signal, signal_from,
};
use crate::pre_start::{
    all_found, collected, initial_changes, last_change, latest, latest_values, none_found,
    values_found, with_older, Found, RealAt, StringAt,
};
use crate::primitives::{at_variant_u32, lemma_leb_len_bound};
use crate::reader::within;
use crate::section::{at_section_head, at_times, frame_end, time_table_ascends};
use crate::types::{DataSectionInfo, FloatingPointEndian, ReaderError, SignalInfo};
use crate::values::{
    at_change, at_delta, at_value_end, lemma_at_change_bounds, lemma_value_end,
    lemma_value_end_bounds, time_delta, ChangeView, ValueView,
};
use crate::wheel::{lemma_append_nothing, Window};
use vstd::prelude::*;

verus! {

proof fn lemma_first_in_range(
    info: SignalInfo,
    endian: FloatingPointEndian,
    bytes: Seq<u8>,
    pos: int,
    step: int,
    times: Seq<u64>,
    start: u64,
    end: u64,
)
    ensures
        first_from(info, endian, bytes, pos, step, times, start, end) matches Ok(
            Some((time, _)),
        ) ==> start <= time <= end,
    decreases bytes.len() - pos,
{
    if pos < bytes.len() {
        lemma_leb_len_bound(bytes, pos, 5);
        if let Ok((vli, next)) = at_variant_u32(bytes, pos) {
            let now = step + time_delta(info, vli);
            lemma_value_end_bounds(info, vli, bytes, next);
            if !time_within(times, now, start, end) {
                if let Ok(behind) = at_value_end(info, vli, bytes, next) {
                    lemma_first_in_range(info, endian, bytes, behind, now, times, start, end);
                }
            }
        }
    }
}

/// What was found are values of selected signals from `start` to `end`.
pub open spec fn found_within(found: Found, mask: Seq<bool>, start: u64, end: u64) -> bool {
    found.len() == mask.len() && forall|i: int|
        0 <= i < found.len() ==> (#[trigger] found[i] matches Some((time, _)) ==> mask[i] && start
            <= time <= end)
}

proof fn lemma_section_firsts(
    s: Seq<u8>,
    sig: SignalsView,
    place: ChangesView,
    times: Seq<u64>,
    start: u64,
    end: u64,
    found: Found,
    k: int,
)
    requires
        0 <= k,
        sig.infos.len() == sig.mask.len(),
        found_within(found, sig.mask, start, end),
    ensures
        section_firsts(s, sig, place, times, start, end, found, k) matches Ok(result)
            ==> found_within(result, sig.mask, start, end),
    decreases sig.infos.len() - k,
{
    if k < sig.infos.len() {
        if let Ok(now) = with_first(s, sig, place, times, start, end, found, k) {
            if let Some(bytes) = located_bytes(s, place, sig.mask, k) {
                lemma_first_in_range(sig.infos[k], sig.endian, bytes, 0, 0, times, start, end);
            }
            assert(found_within(now, sig.mask, start, end));
            lemma_section_firsts(s, sig, place, times, start, end, now, k + 1);
        }
    }
}

proof fn lemma_firsts_within(
    s: Seq<u8>,
    sig: SignalsView,
    sections: Seq<DataSectionInfo>,
    k: int,
    start: u64,
    end: u64,
    found: Found,
)
    requires
        0 <= k,
        sig.infos.len() == sig.mask.len(),
        found_within(found, sig.mask, start, end),
    ensures
        firsts_from(s, sig, sections, k, start, end, found) matches Ok(result) ==> found_within(
            result,
            sig.mask,
            start,
            end,
        ),
    decreases sections.len() - k,
{
    if k < sections.len() && !all_found(found, sig.mask) {
        if !is_relevant(sections[k], start, end) {
            lemma_firsts_within(s, sig, sections, k + 1, start, end, found);
        } else if let Ok(now) = firsts_with(s, sig, sections[k], start, end, found) {
            let at = sections[k].file_offset as int;
            let head = at_section_head(s, at)->Ok_0;
            let table = at_times(s, at, head.length)->Ok_0;
            let behind = frame_end(s, at)->Ok_0;
            let place = at_changes(
                s,
                sections[k].kind,
                at,
                head.length,
                table.size,
                behind,
            )->Ok_0;
            lemma_section_firsts(s, sig, place, table.times, start, end, found, 0);
            lemma_firsts_within(s, sig, sections, k + 1, start, end, now);
        }
    }
}

/// The first values are values of selected signals in the window.
pub proof fn first_values_lie_in_the_window(
    s: Seq<u8>,
    sig: SignalsView,
    sections: Seq<DataSectionInfo>,
    start: u64,
    end: u64,
)
    requires
        sig.infos.len() == sig.mask.len(),
    ensures
        first_values(s, sig, sections, start, end) matches Ok(found) ==> found_within(
            found,
            sig.mask,
            start,
            end,
        ),
{
    lemma_firsts_within(s, sig, sections, 0, start, end, none_found(sig.infos.len()));
}

pub proof fn lemma_earliest(found: Found, n: nat)
    requires
        n <= found.len(),
    ensures
        match earliest(found, n) {
            None => forall|i: int| 0 <= i < n ==> #[trigger] found[i] is None,
            Some(time) => {
                &&& exists|i: int| 0 <= i < n && (#[trigger] found[i] matches Some((t, _)) && t == time)
                &&& forall|i: int|
                    0 <= i < n ==> (#[trigger] found[i] matches Some((t, _)) ==> time <= t)
            },
        },
    decreases n,
{
    if n > 0 {
        lemma_earliest(found, (n - 1) as nat);
        if let Some(time) = earliest(found, n) {
            if earliest(found, (n - 1) as nat) == Some(time) {
                let i = choose|i: int|
                    0 <= i < n - 1 && (#[trigger] found[i] matches Some((t, _)) && t == time);
                assert(found[i] matches Some((t, _)) && t == time);
            } else {
                assert(found[n - 1] matches Some((t, _)) && t == time);
            }
        }
    }
}

pub proof fn lemma_newest(found: Found, n: nat)
    requires
        n <= found.len(),
    ensures
        match newest(found, n) {
            None => forall|i: int| 0 <= i < n ==> #[trigger] found[i] is None,
            Some(time) => {
                &&& exists|i: int| 0 <= i < n && (#[trigger] found[i] matches Some((t, _)) && t == time)
                &&& forall|i: int|
                    0 <= i < n ==> (#[trigger] found[i] matches Some((t, _)) ==> t <= time)
            },
        },
    decreases n,
{
    if n > 0 {
        lemma_newest(found, (n - 1) as nat);
        if let Some(time) = newest(found, n) {
            if newest(found, (n - 1) as nat) == Some(time) {
                let i = choose|i: int|
                    0 <= i < n - 1 && (#[trigger] found[i] matches Some((t, _)) && t == time);
                assert(found[i] matches Some((t, _)) && t == time);
            } else {
                assert(found[n - 1] matches Some((t, _)) && t == time);
            }
        }
    }
}

/// The values of a point are all at its time, and there is one at least.
pub open spec fn all_at_its_time(point: TimePointView) -> bool {
    &&& forall|k: int|
        0 <= k < point.values.strings.len() ==> (#[trigger] point.values.strings[k]).time
            == point.time
    &&& forall|k: int|
        0 <= k < point.values.reals.len() ==> (#[trigger] point.values.reals[k]).time == point.time
    &&& point.values.strings.len() + point.values.reals.len() > 0
}

proof fn lemma_values_at(found: Found, time: u64)
    requires
        exists|i: int|
            0 <= i < found.len() && (#[trigger] found[i] matches Some((t, _)) && t == time),
    ensures
        all_at_its_time(values_at(found, Some(time))->0),
{
    let only = kept(found, time, time);
    values_found_are_listed(only, 0);
    let values = values_found(only, 0);
    let i = choose|i: int|
        0 <= i < found.len() && (#[trigger] found[i] matches Some((t, _)) && t == time);
    assert(only[i] == found[i]);
    match found[i] {
        Some((t, ValueView::String(value))) => {
            assert(values.strings.contains(StringAt { signal: i, value, time: t }));
        },
        Some((t, ValueView::Real(value))) => {
            assert(values.reals.contains(RealAt { signal: i, value, time: t }));
        },
        None => {},
    }
    assert forall|k: int| 0 <= k < values.strings.len() implies (#[trigger] values.strings[k]).time
        == time by {
        let j = values.strings[k].signal;
        assert(only[j] is Some);
    }
    assert forall|k: int| 0 <= k < values.reals.len() implies (#[trigger] values.reals[k]).time
        == time by {
        let j = values.reals[k].signal;
        assert(only[j] is Some);
    }
}

/// The first point in time lies in the window, holds values of that time only,
/// and no first value of a selected signal is earlier; there is no first point
/// exactly if no selected signal changes in the window. The last point does not
/// lie before the window, holds values of its time only, and no last value of a
/// selected signal is later; there is none exactly if no selected signal has a
/// last value.
pub proof fn boundary_points_hold_their_time(
    s: Seq<u8>,
    sig: SignalsView,
    sections: Seq<DataSectionInfo>,
    start: u64,
    end: u64,
)
    requires
        sig.infos.len() == sig.mask.len(),
    ensures
        boundary_values(s, sig, sections, start, end) matches Ok(boundary) ==> {
            let firsts = first_values(s, sig, sections, start, end)->Ok_0;
            let lasts = last_values(s, sig, sections, start, end)->Ok_0;
            &&& match boundary.first {
                None => forall|i: int| 0 <= i < firsts.len() ==> #[trigger] firsts[i] is None,
                Some(point) => {
                    &&& start <= point.time <= end
                    &&& all_at_its_time(point)
                    &&& forall|i: int|
                        0 <= i < firsts.len() ==> (#[trigger] firsts[i] matches Some((time, _))
                            ==> point.time <= time)
                },
            }
            &&& match boundary.last {
                None => forall|i: int| 0 <= i < lasts.len() ==> #[trigger] lasts[i] is None,
                Some(point) => {
                    &&& start <= point.time
                    &&& all_at_its_time(point)
                    &&& forall|i: int|
                        0 <= i < lasts.len() ==> (#[trigger] lasts[i] matches Some((time, _))
                            ==> time <= point.time)
                },
            }
        },
{
    if let Ok(boundary) = boundary_values(s, sig, sections, start, end) {
        let firsts = first_values(s, sig, sections, start, end)->Ok_0;
        first_values_lie_in_the_window(s, sig, sections, start, end);
        lemma_earliest(firsts, firsts.len());
        if let Some(time) = earliest(firsts, firsts.len()) {
            lemma_values_at(firsts, time);
        }
        let lasts = last_values(s, sig, sections, start, end)->Ok_0;
        lemma_newest(lasts, lasts.len());
        if let Some(time) = newest(lasts, lasts.len()) {
            lemma_values_at(lasts, time);
            let i = choose|i: int|
                0 <= i < lasts.len() && (#[trigger] lasts[i] matches Some((t, _)) && t == time);
            assert(lasts[i] is Some);
        }
    }
}

/// The first of the changes that comes from `start` to `end`.
pub open spec fn first_in(changes: Seq<ChangeView>, start: u64, end: u64) -> Option<
    (u64, ValueView),
> {
    let inside = within(changes, start, end);
    if inside.len() == 0 {
        None
    } else {
        Some((inside[0].time, inside[0].value))
    }
}

/// All changes that `bytes` tell can be decoded, from the one at `pos` and time
/// step `t` on, and come at times of the table.
pub open spec fn whole_chain(
    info: SignalInfo,
    endian: FloatingPointEndian,
    bytes: Seq<u8>,
    pos: int,
    t: int,
    times: nat,
) -> bool
    decreases bytes.len() - pos,
    via whole_chain_decreases
{
    &&& 0 <= t < times
    &&& match at_change(info, endian, bytes, pos) {
        Err(_) => false,
        Ok((_, next)) => next >= bytes.len() || match at_delta(info, bytes, next) {
            Err(_) => false,
            Ok(delta) => whole_chain(info, endian, bytes, next, t + delta, times),
        },
    }
}

#[via_fn]
proof fn whole_chain_decreases(
    info: SignalInfo,
    endian: FloatingPointEndian,
    bytes: Seq<u8>,
    pos: int,
    t: int,
    times: nat,
) {
    lemma_at_change_bounds(info, endian, bytes, pos);
}

proof fn lemma_first_of_chain(
    info: SignalInfo,
    endian: FloatingPointEndian,
    bytes: Seq<u8>,
    i: int,
    pos: int,
    step: int,
    t: int,
    times: Seq<u64>,
    start: u64,
    end: u64,
)
    requires
        whole_chain(info, endian, bytes, pos, t, times.len()),
        at_delta(info, bytes, pos) matches Ok(delta) && step + delta == t,
    ensures
        first_from(info, endian, bytes, pos, step, times, start, end) == Ok::<
            Option<(u64, ValueView)>,
            ReaderError,
        >(first_in(chain(info, endian, bytes, i, pos, t, times, always()), start, end)),
    decreases bytes.len() - pos,
{
    lemma_leb_len_bound(bytes, pos, 5);
    lemma_at_change_bounds(info, endian, bytes, pos);
    let (vli, next) = at_variant_u32(bytes, pos)->Ok_0;
    let (value, behind) = at_change(info, endian, bytes, pos)->Ok_0;
    lemma_value_end(info, endian, vli, bytes, next);
    let c = ChangeView { time: times[t], signal: i, value };
    let all = chain(info, endian, bytes, i, pos, t, times, always());
    let rest = if behind >= bytes.len() {
        Seq::empty()
    } else {
        chain(
            info,
            endian,
            bytes,
            i,
            behind,
            t + at_delta(info, bytes, behind)->Ok_0,
            times,
            always(),
        )
    };
    assert(all == seq![c] + rest);
    lemma_within_append(seq![c], rest, start, end);
    if time_within(times, t, start, end) {
        lemma_within_one(c, start, end);
        assert(within(all, start, end)[0] == c);
    } else {
        lemma_within_none(seq![c], start, end);
        lemma_append_nothing(within(rest, start, end));
        if behind < bytes.len() {
            let delta = at_delta(info, bytes, behind)->Ok_0;
            lemma_first_of_chain(
                info,
                endian,
                bytes,
                i,
                behind,
                t,
                t + delta,
                times,
                start,
                end,
            );
        }
    }
}

/// All changes of signal `i` in a section can be decoded.
pub open spec fn decodable(s: Seq<u8>, sig: SignalsView, section: DataSectionInfo, i: int) -> bool {
    let start = section.file_offset as int;
    at_section_head(s, start) matches Ok(head) ==> (at_times(s, start, head.length) matches Ok(
        table,
    ) ==> (frame_end(s, start) matches Ok(end) ==> (at_changes(
        s,
        section.kind,
        start,
        head.length,
        table.size,
        end,
    ) matches Ok(place) ==> (located_bytes(s, place, sig.mask, i) matches Some(bytes) ==> (at_delta(
        sig.infos[i],
        bytes,
        0,
    ) matches Ok(delta) && whole_chain(
        sig.infos[i],
        sig.endian,
        bytes,
        0,
        delta as int,
        table.times.len(),
    ))))))
}

proof fn lemma_section_first(
    s: Seq<u8>,
    sig: SignalsView,
    place: ChangesView,
    times: Seq<u64>,
    start: u64,
    end: u64,
    found: Found,
    k: int,
    i: int,
)
    requires
        0 <= k,
        sig.infos.len() == sig.mask.len() == found.len(),
        0 <= i < found.len(),
        sig.mask[i],
        located_bytes(s, place, sig.mask, i) matches Some(bytes) ==> (at_delta(
            sig.infos[i],
            bytes,
            0,
        ) matches Ok(delta) && whole_chain(
            sig.infos[i],
            sig.endian,
            bytes,
            0,
            delta as int,
            times.len(),
        )),
    ensures
        section_firsts(s, sig, place, times, start, end, found, k) matches Ok(result)
            ==> result.len() == found.len() && result[i] == (if found[i] is Some || i < k {
            found[i]
        } else {
            first_in(signal_changes(s, sig, place, times, i, always()), start, end)
        }),
    decreases sig.infos.len() - k,
{
    if k < sig.infos.len() {
        if let Ok(now) = with_first(s, sig, place, times, start, end, found, k) {
            lemma_section_first(s, sig, place, times, start, end, now, k + 1, i);
            if i == k && found[i] is None {
                if let Some(bytes) = located_bytes(s, place, sig.mask, i) {
                    let delta = at_delta(sig.infos[i], bytes, 0)->Ok_0;
                    lemma_first_of_chain(
                        sig.infos[i],
                        sig.endian,
                        bytes,
                        i,
                        0,
                        0,
                        delta as int,
                        times,
                        start,
                        end,
                    );
                }
            }
        }
    }
}

proof fn lemma_firsts_from(
    s: Seq<u8>,
    sig: SignalsView,
    sections: Seq<DataSectionInfo>,
    k: int,
    start: u64,
    end: u64,
    found: Found,
    i: int,
)
    requires
        0 <= k,
        sig.infos.len() == sig.mask.len() == found.len(),
        0 <= i < found.len(),
        sig.mask[i],
        all_consistent(s, sections),
        forall|j: int| 0 <= j < sections.len() ==> decodable(s, sig, #[trigger] sections[j], i),
    ensures
        firsts_from(s, sig, sections, k, start, end, found) matches Ok(result) ==> result.len()
            == found.len() && result[i] == (if found[i] is Some {
            found[i]
        } else {
            first_in(signal_from(s, sig, sections, k, i, always()), start, end)
        }),
    decreases sections.len() - k,
{
    if all_found(found, sig.mask) {
        assert(found[i] is Some);
    } else if k < sections.len() {
        let section = sections[k];
        assert(consistent(s, section));
        assert(decodable(s, sig, section, i));
        let here = section_of_signal(s, sig, section, i, always());
        let rest = signal_from(s, sig, sections, k + 1, i, always());
        lemma_within_append(here, rest, start, end);
        if !is_relevant(section, start, end) {
            lemma_firsts_from(s, sig, sections, k + 1, start, end, found, i);
            lemma_section_covered(s, sig, section, i, always());
            lemma_within_none(here, start, end);
            lemma_append_nothing(within(rest, start, end));
        } else if let Ok(now) = firsts_with(s, sig, section, start, end, found) {
            let at = section.file_offset as int;
            let head = at_section_head(s, at)->Ok_0;
            let table = at_times(s, at, head.length)->Ok_0;
            let behind = frame_end(s, at)->Ok_0;
            let place = at_changes(s, section.kind, at, head.length, table.size, behind)->Ok_0;
            lemma_section_first(s, sig, place, table.times, start, end, found, 0, i);
            lemma_firsts_from(s, sig, sections, k + 1, start, end, now, i);
            if within(here, start, end).len() == 0 {
                assert(within(here, start, end) =~= Seq::empty());
                lemma_append_nothing(within(rest, start, end));
            }
        }
    }
}

/// In a file whose sections hold the times that they cover, the first value that
/// is found of a selected signal is that of its first change in the window, in
/// the order of the file; none is found exactly if it has none there.
pub proof fn first_values_are_the_first(
    s: Seq<u8>,
    sig: SignalsView,
    sections: Seq<DataSectionInfo>,
    start: u64,
    end: u64,
    i: int,
)
    requires
        0 <= i < sig.infos.len() == sig.mask.len(),
        sig.mask[i],
        all_consistent(s, sections),
        forall|j: int| 0 <= j < sections.len() ==> decodable(s, sig, #[trigger] sections[j], i),
    ensures
        first_values(s, sig, sections, start, end) matches Ok(found) ==> found[i] == first_in(
            signal_from(s, sig, sections, 0, i, always()),
            start,
            end,
        ),
{
    lemma_firsts_from(s, sig, sections, 0, start, end, none_found(sig.infos.len()), i);
}

pub proof fn lemma_within_is_part(changes: Seq<ChangeView>, start: u64, end: u64)
    ensures
        forall|k: int|
            0 <= k < within(changes, start, end).len() ==> changes.contains(
                #[trigger] within(changes, start, end)[k],
            ) && start <= within(changes, start, end)[k].time <= end,
        forall|k: int|
            0 <= k < changes.len() && start <= (#[trigger] changes[k]).time <= end ==> within(
                changes,
                start,
                end,
            ).contains(changes[k]),
    decreases changes.len(),
{
    if changes.len() > 0 {
        let before = changes.drop_last();
        lemma_within_is_part(before, start, end);
        let inside = within(before, start, end);
        let all = within(changes, start, end);
        assert(changes[changes.len() - 1] == changes.last());
        assert forall|k: int| 0 <= k < all.len() implies changes.contains(#[trigger] all[k])
            && start <= all[k].time <= end by {
            if k < inside.len() {
                assert(all[k] == inside[k]);
                let j = choose|j: int| 0 <= j < before.len() && before[j] == inside[k];
                assert(changes[j] == all[k]);
            }
        }
        assert forall|k: int| 0 <= k < changes.len() && start <= (#[trigger] changes[k]).time
            <= end implies all.contains(changes[k]) by {
            if k < before.len() {
                assert(before[k] == changes[k]);
                let j = choose|j: int| 0 <= j < inside.len() && inside[j] == before[k];
                assert(all[j] == changes[k]);
            } else {
                assert(all[all.len() - 1] == changes[k]);
            }
        }
    }
}

pub proof fn lemma_of_signal_is_part(changes: Seq<ChangeView>, i: int)
    ensures
        forall|k: int|
            0 <= k < of_signal(changes, i).len() ==> changes.contains(
                #[trigger] of_signal(changes, i)[k],
            ) && of_signal(changes, i)[k].signal == i,
    decreases changes.len(),
{
    if changes.len() > 0 {
        let before = changes.drop_last();
        lemma_of_signal_is_part(before, i);
        let inside = of_signal(before, i);
        let all = of_signal(changes, i);
        assert(changes[changes.len() - 1] == changes.last());
        assert forall|k: int| 0 <= k < all.len() implies changes.contains(#[trigger] all[k])
            && all[k].signal == i by {
            if k < inside.len() {
                assert(all[k] == inside[k]);
                let j = choose|j: int| 0 <= j < before.len() && before[j] == inside[k];
                assert(changes[j] == all[k]);
            }
        }
    }
}

proof fn lemma_signal_from_part(
    s: Seq<u8>,
    sig: SignalsView,
    sections: Seq<DataSectionInfo>,
    k: int,
    i: int,
    c: ChangeView,
)
    requires
        0 <= k,
        signal_from(s, sig, sections, k, i, always()).contains(c),
    ensures
        exists|j: int|
            k <= j < sections.len() && section_of_signal(
                s,
                sig,
                #[trigger] sections[j],
                i,
                always(),
            ).contains(c),
    decreases sections.len() - k,
{
    if k < sections.len() {
        let here = section_of_signal(s, sig, sections[k], i, always());
        let rest = signal_from(s, sig, sections, k + 1, i, always());
        let all = here + rest;
        let n = choose|n: int| 0 <= n < all.len() && all[n] == c;
        if n < here.len() {
            assert(here[n] == c);
            assert(section_of_signal(s, sig, sections[k], i, always()).contains(c));
        } else {
            assert(rest[n - here.len()] == c);
            lemma_signal_from_part(s, sig, sections, k + 1, i, c);
        }
    }
}

/// A section that tells of a change tells of it, or of a later one, to the
/// search for the latest values too.
proof fn lemma_collected_has(
    s: Seq<u8>,
    sig: SignalsView,
    section: DataSectionInfo,
    with_frame: bool,
    end: u64,
    i: int,
    c: ChangeView,
)
    requires
        sig.infos.len() == sig.mask.len(),
        0 <= i < sig.infos.len(),
        anchored(s, section),
        consistent(s, section),
        section_of_signal(s, sig, section, i, always()).contains(c),
        c.time <= end,
    ensures
        collected(
            s,
            sig,
            section,
            with_frame,
            Window { start: 0, end, include_end: true },
        ) matches Ok(changes) ==> (last_change(changes, changes.len(), i) matches Some((time, _))
            && c.time <= time),
{
    let window = Window { start: 0, end, include_end: true };
    let start = section.file_offset as int;
    if let Ok(changes) = collected(s, sig, section, with_frame, window) {
        let head = at_section_head(s, start)->Ok_0;
        time_table_ascends(s, start, head.length);
        let table = at_times(s, start, head.length)->Ok_0;
        let behind = frame_end(s, start)->Ok_0;
        section_delivers_by_signal(
            s,
            sig,
            section.kind,
            start,
            head.length,
            table,
            behind,
            window,
            i,
        );
        let place = at_changes(s, section.kind, start, head.length, table.size, behind)->Ok_0;
        let bytes = located_bytes(s, place, sig.mask, i)->0;
        let delta = at_delta(sig.infos[i], bytes, 0)->Ok_0 as int;
        lemma_chain_within(sig.infos[i], sig.endian, bytes, i, 0, delta, table.times, window);
        let all = section_of_signal(s, sig, section, i, always());
        lemma_section_covered(s, sig, section, i, always());
        let n = choose|n: int| 0 <= n < all.len() && all[n] == c;
        assert(covers(section, all[n].time));
        assert(!window.is_past(section.start_time));
        collected_is_sound(s, sig, section, with_frame, window);
        lemma_within_is_part(all, 0, end);
        assert(within(all, 0, end).contains(all[n]));
        let tail = changes_behind(
            s,
            sig,
            section.kind,
            start,
            head.length,
            table,
            behind,
            window,
        ).0;
        lemma_of_signal_is_part(tail, i);
        let part = of_signal(tail, i);
        let m = choose|m: int| 0 <= m < part.len() && part[m] == c;
        assert(tail.contains(part[m]));
        let q = choose|q: int| 0 <= q < tail.len() && tail[q] == c;
        let initial = initial_changes(
            s,
            sig,
            start,
            with_frame,
            head.start_time,
            table.times,
        )->Ok_0;
        assert(changes[initial.len() + q] == c);
        assert(c.signal == i);
        lemma_last_change(changes, changes.len(), i);
        if let Some((time, value)) = last_change(changes, changes.len(), i) {
            let l = choose|l: int|
                0 <= l < changes.len() && #[trigger] changes[l] == (ChangeView {
                    time,
                    signal: i,
                    value,
                }) && forall|j: int| l < j < changes.len() ==> (#[trigger] changes[j]).signal != i;
            assert(initial.len() + q <= l);
            assert(changes[initial.len() + q].time <= changes[l].time);
        }
    }
}

/// No section from that of a change on tells the search an earlier value last.
proof fn lemma_collected_not_before(
    s: Seq<u8>,
    sig: SignalsView,
    sections: Seq<DataSectionInfo>,
    m: int,
    end: u64,
    i: int,
    j: int,
    c: ChangeView,
)
    requires
        sig.infos.len() == sig.mask.len(),
        0 <= i < sig.infos.len(),
        0 <= j <= m < sections.len(),
        anchored(s, sections[m]),
        consistent(s, sections[m]),
        in_order(sections),
        section_of_signal(s, sig, sections[j], i, always()).contains(c),
        covers(sections[j], c.time),
        c.time <= end,
        sections[m].start_time <= end,
    ensures
        collected(
            s,
            sig,
            sections[m],
            false,
            Window { start: 0, end, include_end: true },
        ) matches Ok(changes) ==> {
            let last = last_change(changes, changes.len(), i);
            &&& last matches Some((time, _)) ==> c.time <= time
            &&& m == j ==> last is Some
        },
{
    let window = Window { start: 0, end, include_end: true };
    if m == j {
        lemma_collected_has(s, sig, sections[m], false, end, i, c);
    } else if let Ok(changes) = collected(s, sig, sections[m], false, window) {
        collected_is_sound(s, sig, sections[m], false, window);
        lemma_last_change(changes, changes.len(), i);
        if let Some((time, value)) = last_change(changes, changes.len(), i) {
            let l = choose|l: int|
                0 <= l < changes.len() && #[trigger] changes[l] == (ChangeView {
                    time,
                    signal: i,
                    value,
                }) && forall|j: int| l < j < changes.len() ==> (#[trigger] changes[j]).signal != i;
            assert(changes[l].time == sections[m].start_time || covers(
                sections[m],
                changes[l].time,
            ));
            assert(sections[j].end_time <= sections[m].start_time);
        }
    }
}

proof fn lemma_latest_not_before(
    s: Seq<u8>,
    sig: SignalsView,
    sections: Seq<DataSectionInfo>,
    k: nat,
    found: Found,
    start: u64,
    end: u64,
    i: int,
    j: int,
    c: ChangeView,
)
    requires
        k <= sections.len(),
        sig.infos.len() == sig.mask.len() == found.len(),
        0 <= i < sig.infos.len(),
        sig.mask[i],
        all_anchored(s, sections),
        all_consistent(s, sections),
        in_order(sections),
        0 <= j < sections.len(),
        section_of_signal(s, sig, sections[j], i, always()).contains(c),
        covers(sections[j], c.time),
        start <= c.time <= end,
        j < k || found[i] is Some,
        found[i] matches Some((time, _)) ==> c.time <= time,
    ensures
        latest(
            s,
            sig,
            sections,
            k,
            found,
            start,
            Window { start: 0, end, include_end: true },
            false,
        ) matches Ok(result) ==> (result[i] matches Some((time, _)) && c.time <= time),
    decreases k,
{
    let window = Window { start: 0, end, include_end: true };
    if found[i] is Some {
        search_finds_the_last(s, sig, sections, k, found, start, window, false, i);
    } else {
        let m = k - 1;
        assert(anchored(s, sections[m]));
        assert(consistent(s, sections[m]));
        if window.is_past(sections[m].start_time) || sections[m].end_time < start {
            assert(m != j);
            lemma_latest_not_before(s, sig, sections, m as nat, found, start, end, i, j, c);
        } else {
            lemma_collected_not_before(s, sig, sections, m, end, i, j, c);
            if let Ok(changes) = collected(s, sig, sections[m], false, window) {
                let now = with_older(found, changes);
                assert(now[i] == last_change(changes, changes.len(), i));
                if !all_found(now, sig.mask) {
                    lemma_latest_not_before(s, sig, sections, m as nat, now, start, end, i, j, c);
                } else {
                    assert(now[i] is Some);
                }
            }
        }
    }
}

proof fn lemma_of_signal_has(changes: Seq<ChangeView>, c: ChangeView)
    requires
        changes.contains(c),
    ensures
        of_signal(changes, c.signal).contains(c),
    decreases changes.len(),
{
    let n = choose|n: int| 0 <= n < changes.len() && changes[n] == c;
    let before = changes.drop_last();
    let inside = of_signal(before, c.signal);
    let all = of_signal(changes, c.signal);
    if n == changes.len() - 1 {
        assert(all[all.len() - 1] == c);
    } else {
        assert(before[n] == c);
        lemma_of_signal_has(before, c);
        let k = choose|k: int| 0 <= k < inside.len() && inside[k] == c;
        assert(all[k] == c);
    }
}

/// What a section tells the search, without its frame, are changes of the section.
proof fn lemma_collected_told(
    s: Seq<u8>,
    sig: SignalsView,
    section: DataSectionInfo,
    end: u64,
    c: ChangeView,
)
    requires
        sig.infos.len() == sig.mask.len(),
        0 <= c.signal < sig.infos.len(),
        collected(
            s,
            sig,
            section,
            false,
            Window { start: 0, end, include_end: true },
        ) matches Ok(changes) && changes.contains(c),
    ensures
        section_of_signal(s, sig, section, c.signal, always()).contains(c),
{
    let window = Window { start: 0, end, include_end: true };
    let start = section.file_offset as int;
    let changes = collected(s, sig, section, false, window)->Ok_0;
    let head = at_section_head(s, start)->Ok_0;
    time_table_ascends(s, start, head.length);
    let table = at_times(s, start, head.length)->Ok_0;
    let behind = frame_end(s, start)->Ok_0;
    let i = c.signal;
    section_delivers_by_signal(
        s,
        sig,
        section.kind,
        start,
        head.length,
        table,
        behind,
        window,
        i,
    );
    lemma_append_nothing(
        changes_behind(s, sig, section.kind, start, head.length, table, behind, window).0,
    );
    lemma_of_signal_has(changes, c);
    lemma_section_window(s, sig, section, i, window);
    let all = section_of_signal(s, sig, section, i, always());
    lemma_within_is_part(all, 0, end);
    let inside = within(all, 0, end);
    let k = choose|k: int| 0 <= k < inside.len() && inside[k] == c;
    assert(all.contains(inside[k]));
}

/// What the search without initial values goes by are changes of the file.
proof fn lemma_all_collected_told(
    s: Seq<u8>,
    sig: SignalsView,
    sections: Seq<DataSectionInfo>,
    k: nat,
    min_time: u64,
    end: u64,
    c: ChangeView,
)
    requires
        k <= sections.len(),
        sig.infos.len() == sig.mask.len(),
        0 <= c.signal < sig.infos.len(),
        all_collected(
            s,
            sig,
            sections,
            k,
            min_time,
            Window { start: 0, end, include_end: true },
            false,
        ).contains(c),
    ensures
        exists|j: int|
            0 <= j < k && section_of_signal(
                s,
                sig,
                #[trigger] sections[j],
                c.signal,
                always(),
            ).contains(c),
    decreases k,
{
    if k > 0 {
        let window = Window { start: 0, end, include_end: true };
        let m = k - 1;
        let before = all_collected(s, sig, sections, m as nat, min_time, window, false);
        let all = all_collected(s, sig, sections, k, min_time, window, false);
        let n = choose|n: int| 0 <= n < all.len() && all[n] == c;
        if n < before.len() {
            assert(before[n] == c);
            lemma_all_collected_told(s, sig, sections, m as nat, min_time, end, c);
        } else {
            let changes = collected(s, sig, sections[m], false, window)->Ok_0;
            assert(changes[n - before.len()] == c);
            lemma_collected_told(s, sig, sections[m], end, c);
        }
    }
}

proof fn lemma_signal_from_has(
    s: Seq<u8>,
    sig: SignalsView,
    sections: Seq<DataSectionInfo>,
    k: int,
    j: int,
    i: int,
    c: ChangeView,
)
    requires
        0 <= k <= j < sections.len(),
        section_of_signal(s, sig, sections[j], i, always()).contains(c),
    ensures
        signal_from(s, sig, sections, k, i, always()).contains(c),
    decreases sections.len() - k,
{
    let here = section_of_signal(s, sig, sections[k], i, always());
    let rest = signal_from(s, sig, sections, k + 1, i, always());
    let all = here + rest;
    if k == j {
        let n = choose|n: int| 0 <= n < here.len() && here[n] == c;
        assert(all[n] == c);
    } else {
        lemma_signal_from_has(s, sig, sections, k + 1, j, i, c);
        let n = choose|n: int| 0 <= n < rest.len() && rest[n] == c;
        assert(all[here.len() + n] == c);
    }
}

/// A signal that has a last value in the window has a change there.
proof fn lemma_last_is_a_change(
    s: Seq<u8>,
    sig: SignalsView,
    sections: Seq<DataSectionInfo>,
    start: u64,
    end: u64,
    i: int,
)
    requires
        0 <= i < sig.infos.len() == sig.mask.len(),
        sig.mask[i],
        all_anchored(s, sections),
        last_values(s, sig, sections, start, end) matches Ok(lasts) && lasts[i] is Some,
    ensures
        first_in(signal_from(s, sig, sections, 0, i, always()), start, end) is Some,
{
    let window = Window { start: 0, end, include_end: true };
    let none = none_found(sig.infos.len());
    let n = sections.len();
    let found = latest_values(s, sig, sections, start, window, false)->Ok_0;
    lemma_latest_len(s, sig, sections, n, none, start, window, false);
    search_finds_the_last(s, sig, sections, n, none, start, window, false, i);
    lemma_all_collected(s, sig, sections, n, start, window, false);
    let all = all_collected(s, sig, sections, n, start, window, false);
    lemma_last_change(all, all.len(), i);
    let (time, value) = found[i]->0;
    let c = ChangeView { time, signal: i, value };
    let m = choose|m: int|
        0 <= m < all.len() && #[trigger] all[m] == (ChangeView { time, signal: i, value })
            && forall|j: int| m < j < all.len() ==> (#[trigger] all[j]).signal != i;
    assert(window.contains(all[m].time));
    assert(all.contains(c));
    lemma_all_collected_told(s, sig, sections, n, start, end, c);
    let j = choose|j: int|
        0 <= j < n && section_of_signal(s, sig, #[trigger] sections[j], i, always()).contains(c);
    lemma_signal_from_has(s, sig, sections, 0, j, i, c);
    let told = signal_from(s, sig, sections, 0, i, always());
    lemma_within_is_part(told, start, end);
    let h = choose|h: int| 0 <= h < told.len() && told[h] == c;
    assert(within(told, start, end).contains(told[h]));
}

/// In a file whose sections hold the times that they cover and follow one
/// another: a selected signal has a last value in the window exactly if it has a
/// first one, and the last is not earlier.
pub proof fn first_and_last_values_pair_up(
    s: Seq<u8>,
    sig: SignalsView,
    sections: Seq<DataSectionInfo>,
    start: u64,
    end: u64,
    i: int,
)
    requires
        0 <= i < sig.infos.len() == sig.mask.len(),
        sig.mask[i],
        all_anchored(s, sections),
        all_consistent(s, sections),
        in_order(sections),
        forall|j: int| 0 <= j < sections.len() ==> decodable(s, sig, #[trigger] sections[j], i),
    ensures
        first_values(s, sig, sections, start, end) matches Ok(firsts) ==> (last_values(
            s,
            sig,
            sections,
            start,
            end,
        ) matches Ok(lasts) ==> match (firsts[i], lasts[i]) {
            (Some((first, _)), Some((last, _))) => start <= first <= last <= end,
            (None, None) => true,
            _ => false,
        }),
{
    if let Ok(firsts) = first_values(s, sig, sections, start, end) {
        if let Ok(lasts) = last_values(s, sig, sections, start, end) {
            first_values_are_the_first(s, sig, sections, start, end, i);
            let window = Window { start: 0, end, include_end: true };
            let none = none_found(sig.infos.len());
            let n = sections.len();
            let found = latest_values(s, sig, sections, start, window, false)->Ok_0;
            lemma_latest_len(s, sig, sections, n, none, start, window, false);
            lemma_found_before_end(s, sig, sections, start, window, i);
            if lasts[i] is Some {
                lemma_last_is_a_change(s, sig, sections, start, end, i);
            }
            if firsts[i] is Some {
                let all = signal_from(s, sig, sections, 0, i, always());
                lemma_within_is_part(all, start, end);
                let c = within(all, start, end)[0];
                assert(all.contains(c));
                lemma_signal_from_part(s, sig, sections, 0, i, c);
                let j = choose|j: int|
                    0 <= j < sections.len() && section_of_signal(
                        s,
                        sig,
                        #[trigger] sections[j],
                        i,
                        always(),
                    ).contains(c);
                assert(consistent(s, sections[j]));
                lemma_section_covered(s, sig, sections[j], i, always());
                let here = section_of_signal(s, sig, sections[j], i, always());
                let h = choose|h: int| 0 <= h < here.len() && here[h] == c;
                assert(covers(sections[j], here[h].time));
                lemma_latest_not_before(s, sig, sections, n, none, start, end, i, j, c);
                assert(lasts[i] == found[i]);
            }
        }
    }
}

/// In a file whose sections hold the times that they cover and follow one
/// another: there is a first point in time exactly if there is a last one, which
/// is then neither before the first nor behind the window.
pub proof fn first_point_is_not_after_the_last(
    s: Seq<u8>,
    sig: SignalsView,
    sections: Seq<DataSectionInfo>,
    start: u64,
    end: u64,
)
    requires
        sig.infos.len() == sig.mask.len(),
        all_anchored(s, sections),
        all_consistent(s, sections),
        in_order(sections),
        forall|i: int, j: int|
            0 <= i < sig.infos.len() && sig.mask[i] && 0 <= j < sections.len()
                ==> #[trigger] decodable(s, sig, sections[j], i),
    ensures
        boundary_values(s, sig, sections, start, end) matches Ok(boundary) ==> {
            &&& boundary.first is None <==> boundary.last is None
            &&& boundary.first matches Some(first) ==> (boundary.last matches Some(last)
                && first.time <= last.time && last.time <= end)
        },
{
    if let Ok(boundary) = boundary_values(s, sig, sections, start, end) {
        let firsts = first_values(s, sig, sections, start, end)->Ok_0;
        let lasts = last_values(s, sig, sections, start, end)->Ok_0;
        let window = Window { start: 0, end, include_end: true };
        let none = none_found(sig.infos.len());
        let n = sections.len();
        first_values_lie_in_the_window(s, sig, sections, start, end);
        lemma_latest_len(s, sig, sections, n, none, start, window, false);
        lemma_earliest(firsts, firsts.len());
        lemma_newest(lasts, lasts.len());
        assert forall|i: int| 0 <= i < sig.infos.len() implies match (
            #[trigger] firsts[i],
            #[trigger] lasts[i],
        ) {
            (Some((first, _)), Some((last, _))) => start <= first <= last <= end,
            (None, None) => true,
            _ => false,
        } by {
            if sig.mask[i] {
                assert forall|j: int| 0 <= j < sections.len() implies decodable(
                    s,
                    sig,
                    #[trigger] sections[j],
                    i,
                ) by {}
                first_and_last_values_pair_up(s, sig, sections, start, end, i);
            } else {
                lemma_unselected(s, sig, sections, n, none, start, window, false, i);
            }
        }
        if let Some(first) = boundary.first {
            let i = choose|i: int|
                0 <= i < firsts.len() && (#[trigger] firsts[i] matches Some((t, _)) && t
                    == first.time);
            assert(lasts[i] is Some);
            let last = boundary.last->0;
            let l = choose|l: int|
                0 <= l < lasts.len() && (#[trigger] lasts[l] matches Some((t, _)) && t
                    == last.time);
            assert(firsts[l] is Some);
        }
        if let Some(last) = boundary.last {
            let l = choose|l: int|
                0 <= l < lasts.len() && (#[trigger] lasts[l] matches Some((t, _)) && t
                    == last.time);
            assert(firsts[l] is Some);
        }
    }
}

proof fn lemma_found_before_end(
    s: Seq<u8>,
    sig: SignalsView,
    sections: Seq<DataSectionInfo>,
    min_time: u64,
    window: Window,
    i: int,
)
    requires
        sig.infos.len() == sig.mask.len(),
        0 <= i < sig.infos.len(),
        window.start == 0,
        all_anchored(s, sections),
    ensures
        latest_values(s, sig, sections, min_time, window, false) matches Ok(found) ==> (
        found[i] matches Some((time, _)) ==> !window.is_past(time)),
{
    let n = sections.len();
    let none = none_found(sig.infos.len());
    if !sig.mask[i] {
        lemma_unselected(s, sig, sections, n, none, min_time, window, false, i);
    } else {
        search_finds_the_last(s, sig, sections, n, none, min_time, window, false, i);
        lemma_all_collected(s, sig, sections, n, min_time, window, false);
        let all = all_collected(s, sig, sections, n, min_time, window, false);
        lemma_last_change(all, all.len(), i);
        if let Some((time, value)) = last_change(all, all.len(), i) {
            let m = choose|m: int|
                0 <= m < all.len() && #[trigger] all[m] == (ChangeView { time, signal: i, value })
                    && forall|j: int| m < j < all.len() ==> (#[trigger] all[j]).signal != i;
            assert(window.contains(all[m].time));
        }
    }
}

} // verus!
