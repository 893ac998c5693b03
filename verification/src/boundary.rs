//! The first and the last values of signals in a window of time.

use crate::bitmask::{count_true, lemma_count_zero, BitMask};
use crate::data::{
    at_changes, is_relevant, read_changes_place, ChangesPlace, ChangesView, DataFilter,
    SignalsView,
};
use crate::header::MetaData;
use crate::locations::{any_located, check_any_signal_loc_non_none, loc_view};
use crate::pre_start::{
    all_found, found_view, found_views, latest_values, list_values, none_found, real_views,
    string_views, values_found, Found, PreStartReader, PreStartRealValue, PreStartSignalValue,
    PreStartValues, ValuesView,
};
use crate::primitives::{at_variant_u32, lemma_leb_len_bound, read_variant_u32};
use crate::section::{
    at_packed, at_section_head, at_times, frame_end, read_packed_signal_value_bytes,
    read_section_head, read_time_table, skip_frame,
};
use crate::types::{DataSectionInfo, FloatingPointEndian, ReaderError, Result, SignalInfo};
use crate::values::{
    at_value, at_value_end, lemma_value_end_bounds, read_signal_value, signal_time_delta,
    skip_signal_value, time_delta, FstSignalValue, ValueView,
};
use crate::wheel::Window;
use vstd::prelude::*;

verus! {

/// The time of step `step`, if that lies from `start` to `end`.
pub open spec fn time_within(times: Seq<u64>, step: int, start: u64, end: u64) -> bool {
    0 <= step < times.len() && start <= times[step] <= end
}

/// The first of the changes from `pos` on that comes from `start` to `end`, the
/// change before which was at time step `step`.
pub open spec fn first_from(
    info: SignalInfo,
    endian: FloatingPointEndian,
    bytes: Seq<u8>,
    pos: int,
    step: int,
    times: Seq<u64>,
    start: u64,
    end: u64,
) -> Result<Option<(u64, ValueView)>>
    decreases bytes.len() - pos,
    via first_from_decreases
{
    if pos >= bytes.len() {
        Ok(None)
    } else {
        match at_variant_u32(bytes, pos) {
            Err(e) => Err(e),
            Ok((vli, next)) => {
                let now = step + time_delta(info, vli);
                if time_within(times, now, start, end) {
                    match at_value(info, endian, vli, bytes, next) {
                        Err(e) => Err(e),
                        Ok((value, _)) => Ok(Some((times[now], value))),
                    }
                } else {
                    match at_value_end(info, vli, bytes, next) {
                        Err(e) => Err(e),
                        Ok(behind) => first_from(
                            info,
                            endian,
                            bytes,
                            behind,
                            now,
                            times,
                            start,
                            end,
                        ),
                    }
                }
            },
        }
    }
}

#[via_fn]
proof fn first_from_decreases(
    info: SignalInfo,
    endian: FloatingPointEndian,
    bytes: Seq<u8>,
    pos: int,
    step: int,
    times: Seq<u64>,
    start: u64,
    end: u64,
) {
    lemma_leb_len_bound(bytes, pos, 5);
    if let Ok((vli, next)) = at_variant_u32(bytes, pos) {
        lemma_value_end_bounds(info, vli, bytes, next);
    }
}

/// Finds the first change of a signal from `start` to `end`.
pub fn find_first_change(
    info: SignalInfo,
    endian: FloatingPointEndian,
    bytes: &[u8],
    times: &Vec<u64>,
    start: u64,
    end: u64,
) -> (r: Result<Option<(u64, FstSignalValue)>>)
    ensures
        match (r, first_from(info, endian, bytes@, 0, 0, times@, start, end)) {
            (Ok(v), Ok(w)) => found_view(v) == w,
            (Err(e), Err(f)) => e == f,
            _ => false,
        },
{
    let len: u64 = bytes.len() as u64;
    let mut pos: u64 = 0;
    let mut step: u64 = 0;
    let ghost mut true_step: int = 0;
    let ghost whole = first_from(info, endian, bytes@, 0, 0, times@, start, end);
    while pos < len
        invariant
            len == bytes@.len(),
            pos <= len,
            step == true_step || (step == u64::MAX && true_step >= u64::MAX),
            whole == first_from(info, endian, bytes@, 0, 0, times@, start, end),
            whole == first_from(
                info,
                endian,
                bytes@,
                pos as int,
                true_step,
                times@,
                start,
                end,
            ),
        decreases len - pos,
    {
        let (vli, next) = read_variant_u32(bytes, pos)?;
        let delta: u64 = signal_time_delta(info, vli) as u64;
        step = if delta <= u64::MAX - step {
            step + delta
        } else {
            u64::MAX
        };
        proof {
            true_step = true_step + delta;
        }
        if step < times.len() as u64 {
            let time: u64 = times[step as usize];
            if start <= time && time <= end {
                let (value, _) = read_signal_value(info, endian, vli, bytes, next)?;
                return Ok(Some((time, value)));
            }
        }
        pos = skip_signal_value(info, vli, bytes, next)?;
        proof {
            lemma_value_end_bounds(info, vli, bytes@, next as int);
        }
    }
    Ok(None)
}

/// The first values in one section of the selected signals from `k` on, for
/// those for which nothing was found before.
pub open spec fn section_firsts(
    s: Seq<u8>,
    sig: SignalsView,
    place: ChangesView,
    times: Seq<u64>,
    start: u64,
    end: u64,
    found: Found,
    k: int,
) -> Result<Found>
    decreases sig.infos.len() - k,
{
    if k >= sig.infos.len() {
        Ok(found)
    } else {
        match with_first(s, sig, place, times, start, end, found, k) {
            Err(e) => Err(e),
            Ok(now) => section_firsts(s, sig, place, times, start, end, now, k + 1),
        }
    }
}

/// What was found, with the first value of signal `i` if it is wanted and has one.
pub open spec fn with_first(
    s: Seq<u8>,
    sig: SignalsView,
    place: ChangesView,
    times: Seq<u64>,
    start: u64,
    end: u64,
    found: Found,
    i: int,
) -> Result<Found> {
    if !sig.mask[i] || found[i] is Some || i >= place.locs.len() {
        Ok(found)
    } else {
        match place.locs[i] {
            None => Ok(found),
            Some((offset, len)) => match at_packed(s, place.start + offset, len, place.pack) {
                Err(e) => Err(e),
                Ok(bytes) => match first_from(
                    sig.infos[i],
                    sig.endian,
                    bytes,
                    0,
                    0,
                    times,
                    start,
                    end,
                ) {
                    Err(e) => Err(e),
                    Ok(first) => Ok(found.update(i, first)),
                },
            },
        }
    }
}

/// What was found, with the first values in one more section.
pub open spec fn firsts_with(
    s: Seq<u8>,
    sig: SignalsView,
    section: DataSectionInfo,
    start: u64,
    end: u64,
    found: Found,
) -> Result<Found> {
    let at = section.file_offset as int;
    match at_section_head(s, at) {
        Err(e) => Err(e),
        Ok(head) => match at_times(s, at, head.length) {
            Err(e) => Err(e),
            Ok(table) => match frame_end(s, at) {
                Err(e) => Err(e),
                Ok(behind) => match at_changes(
                    s,
                    section.kind,
                    at,
                    head.length,
                    table.size,
                    behind,
                ) {
                    Err(e) => Err(e),
                    Ok(place) => section_firsts(
                        s,
                        sig,
                        place,
                        table.times,
                        start,
                        end,
                        found,
                        0,
                    ),
                },
            },
        },
    }
}

/// The first values of the selected signals in the sections from `k` on, for
/// those for which nothing was found before. The search ends once there is a
/// value for each selected signal.
pub open spec fn firsts_from(
    s: Seq<u8>,
    sig: SignalsView,
    sections: Seq<DataSectionInfo>,
    k: int,
    start: u64,
    end: u64,
    found: Found,
) -> Result<Found>
    decreases sections.len() - k,
{
    if k >= sections.len() || all_found(found, sig.mask) {
        Ok(found)
    } else if !is_relevant(sections[k], start, end) {
        firsts_from(s, sig, sections, k + 1, start, end, found)
    } else {
        match firsts_with(s, sig, sections[k], start, end, found) {
            Err(e) => Err(e),
            Ok(now) => firsts_from(s, sig, sections, k + 1, start, end, now),
        }
    }
}

/// The first values of the selected signals from `start` to `end`.
pub open spec fn first_values(
    s: Seq<u8>,
    sig: SignalsView,
    sections: Seq<DataSectionInfo>,
    start: u64,
    end: u64,
) -> Result<Found> {
    firsts_from(s, sig, sections, 0, start, end, none_found(sig.infos.len()))
}

/// The signals in `search` are those that are selected and for which nothing was found.
pub open spec fn still_wanted(search: Seq<bool>, mask: Seq<bool>, found: Found) -> bool {
    &&& search.len() == mask.len() == found.len()
    &&& forall|i: int|
        0 <= i < search.len() ==> #[trigger] search[i] == (mask[i] && found[i] is None)
}

proof fn lemma_search_done(search: Seq<bool>, mask: Seq<bool>, found: Found)
    requires
        still_wanted(search, mask, found),
    ensures
        count_true(search, search.len() as int) == 0 <==> all_found(found, mask),
{
    lemma_count_zero(search, search.len() as int);
    if all_found(found, mask) {
        assert forall|i: int| 0 <= i < search.len() implies !search[i] by {
            assert(mask[i] ==> found[i] is Some);
        }
    }
    if forall|i: int| 0 <= i < search.len() ==> !search[i] {
        assert forall|i: int| 0 <= i < mask.len() && mask[i] implies #[trigger] found[i] is Some by {
            assert(!search[i]);
        }
    }
}

/// Where no wanted signal has changes, nothing is found.
proof fn lemma_no_firsts(
    s: Seq<u8>,
    sig: SignalsView,
    place: ChangesView,
    times: Seq<u64>,
    start: u64,
    end: u64,
    found: Found,
    search: Seq<bool>,
    k: int,
)
    requires
        0 <= k,
        sig.infos.len() == sig.mask.len(),
        still_wanted(search, sig.mask, found),
        !any_located(place.locs, search),
    ensures
        section_firsts(s, sig, place, times, start, end, found, k) == Ok::<Found, ReaderError>(
            found,
        ),
    decreases sig.infos.len() - k,
{
    if k < sig.infos.len() {
        lemma_no_firsts(s, sig, place, times, start, end, found, search, k + 1);
        if search[k] && k < place.locs.len() {
            assert(place.locs[k] is None);
        }
    }
}

/// The values whose times lie from `lo` to `hi`.
pub open spec fn kept(found: Found, lo: u64, hi: u64) -> Found {
    Seq::new(
        found.len(),
        |i: int|
            match found[i] {
                Some((time, value)) => if lo <= time <= hi {
                    found[i]
                } else {
                    None
                },
                None => None,
            },
    )
}

/// The earliest time among the first `n` values.
pub open spec fn earliest(found: Found, n: nat) -> Option<u64>
    decreases n,
{
    if n == 0 {
        None
    } else {
        match (found[n - 1], earliest(found, (n - 1) as nat)) {
            (Some((time, _)), Some(before)) => if time < before {
                Some(time)
            } else {
                Some(before)
            },
            (Some((time, _)), None) => Some(time),
            (None, before) => before,
        }
    }
}

/// The latest time among the first `n` values.
pub open spec fn newest(found: Found, n: nat) -> Option<u64>
    decreases n,
{
    if n == 0 {
        None
    } else {
        match (found[n - 1], newest(found, (n - 1) as nat)) {
            (Some((time, _)), Some(before)) => if time > before {
                Some(time)
            } else {
                Some(before)
            },
            (Some((time, _)), None) => Some(time),
            (None, before) => before,
        }
    }
}

/// The values of signals at a point in time.
#[derive(Clone, Debug, PartialEq, Eq)]
pub struct TimePointValues {
    pub time: u64,
    pub string_values: Vec<PreStartSignalValue>,
    pub real_values: Vec<PreStartRealValue>,
}

/// What [`TimePointValues`] hold.
#[verifier::ext_equal]
pub struct TimePointView {
    pub time: u64,
    pub values: ValuesView,
}

impl View for TimePointValues {
    type V = TimePointView;

    open spec fn view(&self) -> TimePointView {
        TimePointView {
            time: self.time,
            values: ValuesView {
                strings: string_views(self.string_values@),
                reals: real_views(self.real_values@),
            },
        }
    }
}

/// The values at the first and at the last point in time of a window.
#[derive(Clone, Debug, PartialEq, Eq)]
pub struct RangeBoundaryValues {
    pub first: Option<TimePointValues>,
    pub last: Option<TimePointValues>,
}

/// What [`RangeBoundaryValues`] hold.
#[verifier::ext_equal]
pub struct BoundaryView {
    pub first: Option<TimePointView>,
    pub last: Option<TimePointView>,
}

pub open spec fn point_view(point: Option<TimePointValues>) -> Option<TimePointView> {
    match point {
        Some(values) => Some(values@),
        None => None,
    }
}

impl View for RangeBoundaryValues {
    type V = BoundaryView;

    open spec fn view(&self) -> BoundaryView {
        BoundaryView { first: point_view(self.first), last: point_view(self.last) }
    }
}

/// The values at `time`, if that is a time.
pub open spec fn values_at(found: Found, time: Option<u64>) -> Option<TimePointView> {
    match time {
        None => None,
        Some(time) => Some(
            TimePointView { time, values: values_found(kept(found, time, time), 0) },
        ),
    }
}

/// The value of the last change of each selected signal from `start` to `end`.
pub open spec fn last_values(
    s: Seq<u8>,
    sig: SignalsView,
    sections: Seq<DataSectionInfo>,
    start: u64,
    end: u64,
) -> Result<Found> {
    match latest_values(
        s,
        sig,
        sections,
        start,
        Window { start: 0, end, include_end: true },
        false,
    ) {
        Err(e) => Err(e),
        Ok(found) => Ok(kept(found, start, u64::MAX)),
    }
}

/// The values of the selected signals at the first time from `start` to `end` at
/// which one of them changes, and at the last.
pub open spec fn boundary_values(
    s: Seq<u8>,
    sig: SignalsView,
    sections: Seq<DataSectionInfo>,
    start: u64,
    end: u64,
) -> Result<BoundaryView> {
    match first_values(s, sig, sections, start, end) {
        Err(e) => Err(e),
        Ok(firsts) => match last_values(s, sig, sections, start, end) {
            Err(e) => Err(e),
            Ok(lasts) => Ok(
                BoundaryView {
                    first: values_at(firsts, earliest(firsts, firsts.len())),
                    last: values_at(lasts, newest(lasts, lasts.len())),
                },
            ),
        },
    }
}

/// Drops the values whose times do not lie from `lo` to `hi`.
pub fn keep_between(found: &mut Vec<Option<(u64, FstSignalValue)>>, lo: u64, hi: u64)
    ensures
        found_views(final(found)@) == kept(found_views(old(found)@), lo, hi),
        final(found)@.len() == old(found)@.len(),
{
    let ghost before = found_views(found@);
    let mut i: usize = 0;
    while i < found.len()
        invariant
            i <= found@.len() == before.len() == old(found)@.len(),
            before == found_views(old(found)@),
            forall|k: int| 0 <= k < i ==> found_view(#[trigger] found@[k]) == kept(before, lo, hi)[k],
            forall|k: int| i <= k < found@.len() ==> found_view(#[trigger] found@[k]) == before[k],
        decreases found@.len() - i,
    {
        assert(found_view(found@[i as int]) == before[i as int]);
        let drop_it = match &found[i] {
            Some((time, _)) => *time < lo || *time > hi,
            None => false,
        };
        if drop_it {
            found.set(i, None);
        }
        i = i + 1;
    }
    assert(found_views(found@) =~= kept(before, lo, hi));
}

fn earliest_time(found: &Vec<Option<(u64, FstSignalValue)>>) -> (r: Option<u64>)
    ensures
        r == earliest(found_views(found@), found@.len()),
{
    let ghost views = found_views(found@);
    let mut best: Option<u64> = None;
    let mut i: usize = 0;
    while i < found.len()
        invariant
            i <= found@.len(),
            views == found_views(found@),
            best == earliest(views, i as nat),
        decreases found@.len() - i,
    {
        assert(views[i as int] == found_view(found@[i as int]));
        if let Some((time, _)) = &found[i] {
            best = match best {
                Some(before) => if *time < before {
                    Some(*time)
                } else {
                    Some(before)
                },
                None => Some(*time),
            };
        }
        i = i + 1;
    }
    best
}

fn newest_time(found: &Vec<Option<(u64, FstSignalValue)>>) -> (r: Option<u64>)
    ensures
        r == newest(found_views(found@), found@.len()),
{
    let ghost views = found_views(found@);
    let mut best: Option<u64> = None;
    let mut i: usize = 0;
    while i < found.len()
        invariant
            i <= found@.len(),
            views == found_views(found@),
            best == newest(views, i as nat),
        decreases found@.len() - i,
    {
        assert(views[i as int] == found_view(found@[i as int]));
        if let Some((time, _)) = &found[i] {
            best = match best {
                Some(before) => if *time > before {
                    Some(*time)
                } else {
                    Some(before)
                },
                None => Some(*time),
            };
        }
        i = i + 1;
    }
    best
}

/// Lists the values at `time`.
fn point_at(found: Vec<Option<(u64, FstSignalValue)>>, time: Option<u64>) -> (r: Option<
    TimePointValues,
>)
    requires
        found@.len() < u32::MAX,
    ensures
        point_view(r) == values_at(found_views(found@), time),
{
    match time {
        None => None,
        Some(time) => {
            let mut rest = found;
            keep_between(&mut rest, time, time);
            let values = list_values(rest, 0);
            Some(
                TimePointValues {
                    time,
                    string_values: values.string_values,
                    real_values: values.real_values,
                },
            )
        },
    }
}

/// A search for the first and the last values of signals in a window.
pub struct RangeBoundaryReader<'a> {
    pub input: &'a [u8],
    pub meta: &'a MetaData,
    pub filter: &'a DataFilter,
}

impl<'a> RangeBoundaryReader<'a> {
    /// The mask speaks of the signals of the file.
    pub open spec fn wf(self) -> bool {
        self.meta.wf() && self.filter.signals@.len() == self.meta.signals@.len()
    }

    pub open spec fn signals(self) -> SignalsView {
        SignalsView {
            infos: self.meta.signals@,
            endian: self.meta.float_endian,
            mask: self.filter.signals@,
        }
    }

    /// Searches a wanted signal for its first value in one section.
    fn search_signal(
        &self,
        place: &ChangesPlace,
        time_table: &Vec<u64>,
        i: usize,
        found: &mut Vec<Option<(u64, FstSignalValue)>>,
        search_mask: &mut BitMask,
    ) -> (r: Result<()>)
        requires
            self.wf(),
            i < self.meta.signals@.len(),
            place.start <= self.input@.len(),
            still_wanted(old(search_mask)@, self.filter.signals@, found_views(old(found)@)),
        ensures
            match (
                r,
                with_first(
                    self.input@,
                    self.signals(),
                    place@,
                    time_table@,
                    self.filter.start,
                    self.filter.end,
                    found_views(old(found)@),
                    i as int,
                ),
            ) {
                (Ok(_), Ok(w)) => found_views(final(found)@) == w && still_wanted(
                    final(search_mask)@,
                    self.filter.signals@,
                    w,
                ),
                (Err(e), Err(f)) => e == f,
                _ => false,
            },
    {
        let ghost before = found_views(found@);
        let size: u64 = self.input.len() as u64;
        assert(search_mask@[i as int] == (self.filter.signals@[i as int] && before[i as int] is None));
        if !search_mask.is_set(i) || i >= place.locs.len() {
            return Ok(());
        }
        assert(place@.locs[i as int] == loc_view(place.locs@[i as int]));
        let (offset, len) = match place.locs[i] {
            None => {
                return Ok(());
            },
            Some(loc) => loc,
        };
        if offset > size - place.start {
            return Err(ReaderError::Io);
        }
        let bytes = read_packed_signal_value_bytes(
            self.input,
            place.start + offset,
            len,
            place.pack,
        )?;
        let first = find_first_change(
            self.meta.signals[i],
            self.meta.float_endian,
            bytes.as_slice(),
            time_table,
            self.filter.start,
            self.filter.end,
        )?;
        let ghost view = found_view(first);
        if first.is_some() {
            search_mask.set(i, false);
        }
        found.set(i, first);
        assert(found_views(found@) =~= before.update(i as int, view));
        Ok(())
    }

    /// Searches the wanted signals for their first values in one section.
    fn search_section(
        &self,
        section: &DataSectionInfo,
        found: &mut Vec<Option<(u64, FstSignalValue)>>,
        search_mask: &mut BitMask,
    ) -> (r: Result<()>)
        requires
            self.wf(),
            still_wanted(old(search_mask)@, self.filter.signals@, found_views(old(found)@)),
        ensures
            match (
                r,
                firsts_with(
                    self.input@,
                    self.signals(),
                    *section,
                    self.filter.start,
                    self.filter.end,
                    found_views(old(found)@),
                ),
            ) {
                (Ok(_), Ok(w)) => found_views(final(found)@) == w && still_wanted(
                    final(search_mask)@,
                    self.filter.signals@,
                    w,
                ),
                (Err(e), Err(f)) => e == f,
                _ => false,
            },
    {
        let size: usize = self.input.len();
        let head = read_section_head(self.input, section.file_offset)?;
        let (time_section_length, time_table) = read_time_table(
            self.input,
            section.file_offset,
            head.length,
        )?;
        let frame_end: u64 = skip_frame(self.input, section.file_offset)?;
        let place = read_changes_place(
            self.input,
            section.kind,
            section.file_offset,
            head.length,
            time_section_length,
            frame_end,
        )?;
        let ghost s = self.input@;
        let ghost sig = self.signals();
        let ghost times = time_table@;
        let ghost start = self.filter.start;
        let ghost end = self.filter.end;
        let ghost whole = section_firsts(s, sig, place@, times, start, end, found_views(found@), 0);
        if !check_any_signal_loc_non_none(&place.locs, search_mask) {
            proof {
                lemma_no_firsts(
                    s,
                    sig,
                    place@,
                    times,
                    start,
                    end,
                    found_views(found@),
                    search_mask@,
                    0,
                );
            }
            return Ok(());
        }
        let mut k: usize = 0;
        while k < self.meta.signals.len()
            invariant
                self.wf(),
                place.start <= self.input@.len(),
                k <= self.meta.signals@.len(),
                s == self.input@,
                sig == self.signals(),
                times == time_table@,
                start == self.filter.start,
                end == self.filter.end,
                still_wanted(search_mask@, self.filter.signals@, found_views(found@)),
                firsts_with(s, sig, *section, start, end, found_views(old(found)@)) == whole,
                whole == section_firsts(
                    s,
                    sig,
                    place@,
                    times,
                    start,
                    end,
                    found_views(found@),
                    k as int,
                ),
            decreases self.meta.signals@.len() - k,
        {
            self.search_signal(&place, &time_table, k, found, search_mask)?;
            k = k + 1;
        }
        Ok(())
    }

    /// Finds the first value of each selected signal in the window.
    pub fn search_first(&self) -> (r: Result<Vec<Option<(u64, FstSignalValue)>>>)
        requires
            self.wf(),
        ensures
            match (
                r,
                first_values(
                    self.input@,
                    self.signals(),
                    self.meta.data_sections@,
                    self.filter.start,
                    self.filter.end,
                ),
            ) {
                (Ok(v), Ok(w)) => found_views(v@) == w && v@.len() == self.meta.signals@.len(),
                (Err(e), Err(f)) => e == f,
                _ => false,
            },
    {
        let ghost s = self.input@;
        let ghost sig = self.signals();
        let ghost sections = self.meta.data_sections@;
        let ghost start = self.filter.start;
        let ghost end = self.filter.end;
        let ghost whole = first_values(s, sig, sections, start, end);
        let n: usize = self.meta.signals.len();
        let mut found: Vec<Option<(u64, FstSignalValue)>> = Vec::new();
        let mut i: usize = 0;
        while i < n
            invariant
                i <= n,
                found@.len() == i,
                forall|k: int| 0 <= k < i ==> (#[trigger] found@[k]) is None,
            decreases n - i,
        {
            found.push(None);
            i = i + 1;
        }
        assert(found_views(found@) =~= none_found(n as nat));
        let mut search_mask = self.filter.signals.duplicate();
        let mut k: usize = 0;
        while k < self.meta.data_sections.len()
            invariant
                self.wf(),
                s == self.input@,
                sig == self.signals(),
                sections == self.meta.data_sections@,
                start == self.filter.start,
                end == self.filter.end,
                k <= sections.len(),
                still_wanted(search_mask@, sig.mask, found_views(found@)),
                found@.len() == self.meta.signals@.len(),
                whole == first_values(s, sig, sections, start, end),
                whole == firsts_from(s, sig, sections, k as int, start, end, found_views(found@)),
            decreases sections.len() - k,
        {
            proof {
                lemma_search_done(search_mask@, sig.mask, found_views(found@));
            }
            if search_mask.count_ones() == 0 {
                return Ok(found);
            }
            let section: DataSectionInfo = self.meta.data_sections[k];
            if self.filter.end >= section.start_time && section.end_time >= self.filter.start {
                self.search_section(&section, &mut found, &mut search_mask)?;
            }
            k = k + 1;
        }
        Ok(found)
    }

    /// Finds the first value of each selected signal in the window.
    pub fn find_first_in_range(&self) -> (r: Result<PreStartValues>)
        requires
            self.wf(),
        ensures
            match (
                r,
                first_values(
                    self.input@,
                    self.signals(),
                    self.meta.data_sections@,
                    self.filter.start,
                    self.filter.end,
                ),
            ) {
                (Ok(v), Ok(found)) => v@ == values_found(found, 0),
                (Err(e), Err(f)) => e == f,
                _ => false,
            },
    {
        let found = self.search_first()?;
        Ok(list_values(found, 0))
    }

    /// Finds the values at the first and at the last point in time of the window.
    pub fn read(&self) -> (r: Result<RangeBoundaryValues>)
        requires
            self.wf(),
        ensures
            match (
                r,
                boundary_values(
                    self.input@,
                    self.signals(),
                    self.meta.data_sections@,
                    self.filter.start,
                    self.filter.end,
                ),
            ) {
                (Ok(v), Ok(w)) => v@ == w,
                (Err(e), Err(f)) => e == f,
                _ => false,
            },
    {
        let firsts = self.search_first()?;
        let reader = PreStartReader {
            input: self.input,
            meta: self.meta,
            filter: self.filter,
            include_target: true,
            initial: false,
        };
        let mut lasts = reader.search()?;
        keep_between(&mut lasts, self.filter.start, u64::MAX);
        let first_time = earliest_time(&firsts);
        let last_time = newest_time(&lasts);
        Ok(
            RangeBoundaryValues {
                first: point_at(firsts, first_time),
                last: point_at(lasts, last_time),
            },
        )
    }
}

} // verus!
