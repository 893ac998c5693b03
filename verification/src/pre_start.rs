//! The latest values of signals up to a time.

use crate::data::{
    changes_behind, lemma_nothing_located, load_signals, read_changes_place, DataFilter,
    SignalsView,
};
use crate::header::MetaData;
use crate::locations::check_any_signal_loc_non_none;
use crate::section::{
    at_frame, at_section_head, at_times, frame_end, read_frame, read_section_head,
    read_time_table, skip_frame, TimesView,
};
use crate::types::{DataSectionInfo, FstSignalHandle, Result};
use crate::values::{change_views, ChangeView, FstSignalChange, FstSignalValue, ValueView};
use crate::wheel::{lemma_append_nothing, Window};
use vstd::prelude::*;

verus! {

/// The characters that a signal took on at some time.
#[derive(Clone, Debug, PartialEq, Eq)]
pub struct PreStartSignalValue {
    pub handle: FstSignalHandle,
    pub value: Vec<u8>,
    pub time: u64,
}

/// The floating-point number that a signal took on at some time, by its 64 bits.
#[derive(Clone, Copy, Debug, PartialEq, Eq)]
pub struct PreStartRealValue {
    pub handle: FstSignalHandle,
    pub value: u64,
    pub time: u64,
}

/// Values of signals, at most one for each, in the order of the signals.
#[derive(Clone, Debug, PartialEq, Eq)]
pub struct PreStartValues {
    pub string_values: Vec<PreStartSignalValue>,
    pub real_values: Vec<PreStartRealValue>,
}

/// What a [`PreStartSignalValue`] holds.
#[verifier::ext_equal]
pub struct StringAt {
    pub signal: int,
    pub value: Seq<u8>,
    pub time: u64,
}

/// What a [`PreStartRealValue`] holds.
#[verifier::ext_equal]
pub struct RealAt {
    pub signal: int,
    pub value: u64,
    pub time: u64,
}

/// What [`PreStartValues`] hold.
#[verifier::ext_equal]
pub struct ValuesView {
    pub strings: Seq<StringAt>,
    pub reals: Seq<RealAt>,
}

impl View for PreStartSignalValue {
    type V = StringAt;

    open spec fn view(&self) -> StringAt {
        StringAt { signal: self.handle.index as int, value: self.value@, time: self.time }
    }
}

impl View for PreStartRealValue {
    type V = RealAt;

    open spec fn view(&self) -> RealAt {
        RealAt { signal: self.handle.index as int, value: self.value, time: self.time }
    }
}

pub open spec fn string_views(values: Seq<PreStartSignalValue>) -> Seq<StringAt> {
    Seq::new(values.len(), |i: int| values[i]@)
}

pub open spec fn real_views(values: Seq<PreStartRealValue>) -> Seq<RealAt> {
    Seq::new(values.len(), |i: int| values[i]@)
}

impl View for PreStartValues {
    type V = ValuesView;

    open spec fn view(&self) -> ValuesView {
        ValuesView {
            strings: string_views(self.string_values@),
            reals: real_views(self.real_values@),
        }
    }
}

/// For each signal, the value that was found, and its time.
pub type Found = Seq<Option<(u64, ValueView)>>;

pub open spec fn found_view(entry: Option<(u64, FstSignalValue)>) -> Option<(u64, ValueView)> {
    match entry {
        Some((time, value)) => Some((time, value@)),
        None => None,
    }
}

pub open spec fn found_views(found: Seq<Option<(u64, FstSignalValue)>>) -> Found {
    Seq::new(found.len(), |i: int| found_view(found[i]))
}

/// Nothing was found for any of `n` signals.
pub open spec fn none_found(n: nat) -> Found {
    Seq::new(n, |i: int| None)
}

/// The last of the first `n` changes that is a change of `signal`.
pub open spec fn last_change(changes: Seq<ChangeView>, n: nat, signal: int) -> Option<
    (u64, ValueView),
>
    decreases n,
{
    if n == 0 {
        None
    } else if changes[n - 1].signal == signal {
        Some((changes[n - 1].time, changes[n - 1].value))
    } else {
        last_change(changes, (n - 1) as nat, signal)
    }
}

/// What was found, and for the other signals their last change.
pub open spec fn with_older(found: Found, changes: Seq<ChangeView>) -> Found {
    Seq::new(
        found.len(),
        |i: int|
            if found[i] is Some {
                found[i]
            } else {
                last_change(changes, changes.len(), i)
            },
    )
}

/// Something was found for each selected signal.
pub open spec fn all_found(found: Found, mask: Seq<bool>) -> bool {
    forall|i: int| 0 <= i < mask.len() && mask[i] ==> #[trigger] found[i] is Some
}

/// The initial values that count for a section: those of its frame if asked for,
/// and only if nothing else tells the values at its start.
pub open spec fn initial_changes(
    s: Seq<u8>,
    sig: SignalsView,
    start: int,
    with_frame: bool,
    start_time: u64,
    times: Seq<u64>,
) -> Result<Seq<ChangeView>> {
    if with_frame && (times.len() == 0 || times[0] > start_time) {
        at_frame(s, start, sig.infos, sig.endian, sig.mask, start_time)
    } else {
        Ok(Seq::empty())
    }
}

/// The values that the selected signals take on in a section before `window` ends,
/// with or without those of its frame.
pub open spec fn collected(
    s: Seq<u8>,
    sig: SignalsView,
    section: DataSectionInfo,
    with_frame: bool,
    window: Window,
) -> Result<Seq<ChangeView>> {
    let start = section.file_offset as int;
    match at_section_head(s, start) {
        Err(e) => Err(e),
        Ok(head) => match at_times(s, start, head.length) {
            Err(e) => Err(e),
            Ok(table) => match initial_changes(
                s,
                sig,
                start,
                with_frame,
                head.start_time,
                table.times,
            ) {
                Err(e) => Err(e),
                Ok(initial) => match frame_end(s, start) {
                    Err(e) => Err(e),
                    Ok(end) => match changes_behind(
                        s,
                        sig,
                        section.kind,
                        start,
                        head.length,
                        table,
                        end,
                        window,
                    ) {
                        (_, Err(e)) => Err(e),
                        (changes, Ok(_)) => Ok(initial + changes),
                    },
                },
            },
        },
    }
}

/// The latest values of the selected signals in the first `k` sections, for
/// those signals for which nothing newer was `found`. Sections that begin behind
/// the window or end before `min_time` are passed over, and the search ends once
/// there is a value for each selected signal. If `initial`, the frame of the first
/// section of the file counts.
pub open spec fn latest(
    s: Seq<u8>,
    sig: SignalsView,
    sections: Seq<DataSectionInfo>,
    k: nat,
    found: Found,
    min_time: u64,
    window: Window,
    initial: bool,
) -> Result<Found>
    decreases k,
{
    if k == 0 {
        Ok(found)
    } else {
        let i = k - 1;
        let section = sections[i];
        if window.is_past(section.start_time) || section.end_time < min_time {
            latest(s, sig, sections, i as nat, found, min_time, window, initial)
        } else {
            match collected(s, sig, section, initial && i == 0, window) {
                Err(e) => Err(e),
                Ok(changes) => {
                    let now = with_older(found, changes);
                    if all_found(now, sig.mask) {
                        Ok(now)
                    } else {
                        latest(s, sig, sections, i as nat, now, min_time, window, initial)
                    }
                },
            }
        }
    }
}

/// The characters among the first `n` values, if they are not older than `min_time`.
pub open spec fn strings_found(found: Found, n: nat, min_time: u64) -> Seq<StringAt>
    decreases n,
{
    if n == 0 {
        Seq::empty()
    } else {
        let before = strings_found(found, (n - 1) as nat, min_time);
        match found[n - 1] {
            Some((time, ValueView::String(value))) => if time >= min_time {
                before.push(StringAt { signal: n - 1, value, time })
            } else {
                before
            },
            _ => before,
        }
    }
}

/// The floating-point numbers among the first `n` values, if they are not older
/// than `min_time`.
pub open spec fn reals_found(found: Found, n: nat, min_time: u64) -> Seq<RealAt>
    decreases n,
{
    if n == 0 {
        Seq::empty()
    } else {
        let before = reals_found(found, (n - 1) as nat, min_time);
        match found[n - 1] {
            Some((time, ValueView::Real(value))) => if time >= min_time {
                before.push(RealAt { signal: n - 1, value, time })
            } else {
                before
            },
            _ => before,
        }
    }
}

/// The values that are not older than `min_time`.
pub open spec fn values_found(found: Found, min_time: u64) -> ValuesView {
    ValuesView {
        strings: strings_found(found, found.len(), min_time),
        reals: reals_found(found, found.len(), min_time),
    }
}

/// The latest values of the selected signals from `min_time` up to the end of `window`.
pub open spec fn latest_values(
    s: Seq<u8>,
    sig: SignalsView,
    sections: Seq<DataSectionInfo>,
    min_time: u64,
    window: Window,
    initial: bool,
) -> Result<Found> {
    latest(
        s,
        sig,
        sections,
        sections.len(),
        none_found(sig.infos.len()),
        min_time,
        window,
        initial,
    )
}

/// The values among the first `n`, as changes.
pub open spec fn found_changes(found: Found, n: nat) -> Seq<ChangeView>
    decreases n,
{
    if n == 0 {
        Seq::empty()
    } else {
        let before = found_changes(found, (n - 1) as nat);
        match found[n - 1] {
            Some((time, value)) => before.push(ChangeView { time, signal: n - 1, value }),
            None => before,
        }
    }
}

/// Takes over the last change of each signal for which nothing was found yet.
pub fn take_older(found: &mut Vec<Option<(u64, FstSignalValue)>>, changes: Vec<FstSignalChange>)
    ensures
        found_views(final(found)@) == with_older(
            found_views(old(found)@),
            change_views(changes@),
        ),
{
    let ghost views = change_views(changes@);
    let ghost target = with_older(found_views(found@), views);
    let mut rest = changes;
    while rest.len() > 0
        invariant
            rest@.len() <= views.len(),
            forall|i: int| 0 <= i < rest@.len() ==> #[trigger] rest@[i]@ == views[i],
            found@.len() == old(found)@.len() == target.len(),
            target == with_older(found_views(old(found)@), views),
            forall|i: int|
                0 <= i < target.len() ==> #[trigger] target[i] == (if found@[i] is Some {
                    found_view(found@[i])
                } else {
                    last_change(views, rest@.len(), i)
                }),
        decreases rest@.len(),
    {
        let ghost n = rest@.len();
        let ghost before = found@;
        let last = rest.pop();
        if let Some(change) = last {
            let index: usize = change.handle.get_index();
            assert(change@ == views[n - 1]);
            if index < found.len() {
                if found[index].is_none() {
                    found.set(index, Some((change.time, change.value)));
                }
            }
            proof {
                assert forall|i: int| 0 <= i < target.len() implies #[trigger] target[i] == (
                if found@[i] is Some {
                    found_view(found@[i])
                } else {
                    last_change(views, (n - 1) as nat, i)
                }) by {
                    assert(target[i] == (if before[i] is Some {
                        found_view(before[i])
                    } else {
                        last_change(views, n, i)
                    }));
                }
            }
        }
    }
    assert(found_views(found@) =~= target);
}

/// A search for the latest values of signals.
pub struct PreStartReader<'a> {
    pub input: &'a [u8],
    pub meta: &'a MetaData,
    /// the values are to be no older than the start of the filter, and no newer than its end
    pub filter: &'a DataFilter,
    /// whether values at the end of the filter count
    pub include_target: bool,
    /// whether the initial values of the file count
    pub initial: bool,
}

impl<'a> PreStartReader<'a> {
    /// The mask speaks of the signals of the file.
    pub open spec fn wf(self) -> bool {
        self.meta.wf() && self.filter.signals@.len() == self.meta.signals@.len()
    }

    pub open spec fn signals(self) -> SignalsView {
        SignalsView {
            infos: self.meta.signals@,
            endian: self.meta.float_endian,
            mask: self.filter.signals@,
        }
    }

    pub open spec fn window(self) -> Window {
        Window { start: 0, end: self.filter.end, include_end: self.include_target }
    }

    /// Checks whether there is a value for each selected signal.
    fn all_signals_found(&self, found: &Vec<Option<(u64, FstSignalValue)>>) -> (r: bool)
        requires
            found@.len() == self.filter.signals@.len(),
        ensures
            r == all_found(found_views(found@), self.filter.signals@),
    {
        let ghost views = found_views(found@);
        let mut i: usize = 0;
        while i < found.len()
            invariant
                i <= found@.len() == self.filter.signals@.len(),
                views == found_views(found@),
                forall|k: int|
                    0 <= k < i && self.filter.signals@[k] ==> #[trigger] views[k] is Some,
            decreases found@.len() - i,
        {
            if self.filter.signals.is_set(i) {
                assert(views[i as int] == found_view(found@[i as int]));
                if found[i].is_none() {
                    return false;
                }
            }
            i = i + 1;
        }
        true
    }

    /// Appends the changes of a section up to the end of the filter to `out`.
    fn collect_value_changes(
        &self,
        section: &DataSectionInfo,
        section_length: u64,
        time_section_length: u64,
        time_table: &Vec<u64>,
        frame_end: u64,
        out: &mut Vec<FstSignalChange>,
    ) -> (r: Result<()>)
        requires
            self.wf(),
            time_section_length <= section.file_offset + section_length <= u64::MAX,
        ensures
            ({
                let (changes, end) = changes_behind(
                    self.input@,
                    self.signals(),
                    section.kind,
                    section.file_offset as int,
                    section_length,
                    TimesView { size: time_section_length as int, times: time_table@ },
                    frame_end as int,
                    self.window(),
                );
                change_views(final(out)@) == change_views(old(out)@) + changes && r == end
            }),
    {
        proof {
            lemma_append_nothing(change_views(out@));
        }
        let place = read_changes_place(
            self.input,
            section.kind,
            section.file_offset,
            section_length,
            time_section_length,
            frame_end,
        )?;
        if !check_any_signal_loc_non_none(&place.locs, &self.filter.signals) {
            proof {
                lemma_nothing_located(
                    self.input@,
                    self.signals(),
                    section.kind,
                    section.file_offset as int,
                    section_length,
                    TimesView { size: time_section_length as int, times: time_table@ },
                    frame_end as int,
                    self.window(),
                );
            }
            return Ok(());
        }
        let slots: usize = if time_table.len() == 0 {
            1
        } else {
            time_table.len()
        };
        let mut wheel = load_signals(
            self.input,
            &place,
            &self.meta.signals,
            &self.filter.signals,
            slots,
        )?;
        let window = Window { start: 0, end: self.filter.end, include_end: self.include_target };
        wheel.deliver(&self.meta.signals, self.meta.float_endian, time_table, window, out)
    }

    /// Collects the values of a section up to the end of the filter.
    fn collect_from_section(&self, section: &DataSectionInfo, with_frame: bool) -> (r: Result<
        Vec<FstSignalChange>,
    >)
        requires
            self.wf(),
        ensures
            match (
                r,
                collected(
                    self.input@,
                    self.signals(),
                    *section,
                    with_frame,
                    self.window(),
                ),
            ) {
                (Ok(v), Ok(w)) => change_views(v@) == w,
                (Err(e), Err(f)) => e == f,
                _ => false,
            },
    {
        let size: usize = self.input.len();
        let head = read_section_head(self.input, section.file_offset)?;
        let (time_section_length, time_table) = read_time_table(
            self.input,
            section.file_offset,
            head.length,
        )?;
        let mut changes: Vec<FstSignalChange> = Vec::new();
        assert(change_views(changes@) =~= Seq::<ChangeView>::empty());
        if with_frame && (time_table.len() == 0 || time_table[0] > head.start_time) {
            changes =
            read_frame(
                self.input,
                section.file_offset,
                &self.meta.signals,
                self.meta.float_endian,
                &self.filter.signals,
                head.start_time,
            )?;
        }
        let frame_end: u64 = skip_frame(self.input, section.file_offset)?;
        self.collect_value_changes(
            section,
            head.length,
            time_section_length,
            &time_table,
            frame_end,
            &mut changes,
        )?;
        Ok(changes)
    }

    /// Searches backwards through the sections for the latest values.
    pub fn search(&self) -> (r: Result<Vec<Option<(u64, FstSignalValue)>>>)
        requires
            self.wf(),
        ensures
            match (
                r,
                latest_values(
                    self.input@,
                    self.signals(),
                    self.meta.data_sections@,
                    self.filter.start,
                    self.window(),
                    self.initial,
                ),
            ) {
                (Ok(v), Ok(w)) => found_views(v@) == w && v@.len() == self.meta.signals@.len(),
                (Err(e), Err(f)) => e == f,
                _ => false,
            },
    {
        let ghost s = self.input@;
        let ghost sig = self.signals();
        let ghost sections = self.meta.data_sections@;
        let ghost window = self.window();
        let ghost whole = latest_values(s, sig, sections, self.filter.start, window, self.initial);
        let n: usize = self.meta.signals.len();
        let mut found: Vec<Option<(u64, FstSignalValue)>> = Vec::new();
        let mut i: usize = 0;
        while i < n
            invariant
                i <= n,
                found@.len() == i,
                forall|k: int| 0 <= k < i ==> (#[trigger] found@[k]) is None,
            decreases n - i,
        {
            found.push(None);
            i = i + 1;
        }
        assert(found_views(found@) =~= none_found(n as nat));
        let mut k: usize = self.meta.data_sections.len();
        while k > 0
            invariant
                self.wf(),
                k <= sections.len(),
                s == self.input@,
                sig == self.signals(),
                sections == self.meta.data_sections@,
                window == self.window(),
                found@.len() == self.meta.signals@.len(),
                whole == latest_values(s, sig, sections, self.filter.start, window, self.initial),
                whole == latest(
                    s,
                    sig,
                    sections,
                    k as nat,
                    found_views(found@),
                    self.filter.start,
                    window,
                    self.initial,
                ),
            decreases k,
        {
            k = k - 1;
            let section: DataSectionInfo = self.meta.data_sections[k];
            let past = if self.include_target {
                section.start_time > self.filter.end
            } else {
                section.start_time >= self.filter.end
            };
            if !past && section.end_time >= self.filter.start {
                let changes = self.collect_from_section(&section, self.initial && k == 0)?;
                take_older(&mut found, changes);
                if self.all_signals_found(&found) {
                    return Ok(found);
                }
            }
        }
        Ok(found)
    }

    /// Finds the latest values.
    pub fn read(&self) -> (r: Result<PreStartValues>)
        requires
            self.wf(),
        ensures
            match (
                r,
                latest_values(
                    self.input@,
                    self.signals(),
                    self.meta.data_sections@,
                    self.filter.start,
                    self.window(),
                    self.initial,
                ),
            ) {
                (Ok(v), Ok(found)) => v@ == values_found(found, self.filter.start),
                (Err(e), Err(f)) => e == f,
                _ => false,
            },
    {
        let found = self.search()?;
        Ok(list_values(found, self.filter.start))
    }
}

/// Lists the values that are not older than `min_time`.
pub fn list_values(found: Vec<Option<(u64, FstSignalValue)>>, min_time: u64) -> (r: PreStartValues)
    requires
        found@.len() < u32::MAX,
    ensures
        r@ == values_found(found_views(found@), min_time),
{
    let mut string_values: Vec<PreStartSignalValue> = Vec::new();
    let mut real_values: Vec<PreStartRealValue> = Vec::new();
    let ghost views = found_views(found@);
    assert(string_views(string_values@) =~= Seq::<StringAt>::empty());
    assert(real_views(real_values@) =~= Seq::<RealAt>::empty());
    let mut i: usize = 0;
    while i < found.len()
        invariant
            i <= found@.len() < u32::MAX,
            views == found_views(found@),
            string_views(string_values@) == strings_found(views, i as nat, min_time),
            real_views(real_values@) == reals_found(views, i as nat, min_time),
        decreases found@.len() - i,
    {
        let ghost strings = string_views(string_values@);
        let ghost reals = real_views(real_values@);
        assert(views[i as int] == found_view(found@[i as int]));
        if let Some((time, value)) = &found[i] {
            if *time >= min_time {
                let handle = FstSignalHandle::from_index(i);
                match value {
                    FstSignalValue::String(bytes) => {
                        let entry = PreStartSignalValue {
                            handle,
                            value: bytes.clone(),
                            time: *time,
                        };
                        let ghost view = entry@;
                        string_values.push(entry);
                        assert(string_views(string_values@) =~= strings.push(view));
                    },
                    FstSignalValue::Real(bits) => {
                        let entry = PreStartRealValue { handle, value: *bits, time: *time };
                        real_values.push(entry);
                        assert(real_views(real_values@) =~= reals.push(entry@));
                    },
                }
            }
        }
        i = i + 1;
    }
    PreStartValues { string_values, real_values }
}

/// Appends all values to `out`, as changes.
pub fn push_found(found: Vec<Option<(u64, FstSignalValue)>>, out: &mut Vec<FstSignalChange>)
    requires
        found@.len() < u32::MAX,
    ensures
        change_views(final(out)@) == change_views(old(out)@) + found_changes(
            found_views(found@),
            found@.len(),
        ),
{
    let ghost views = found_views(found@);
    let ghost front = change_views(out@);
    proof {
        lemma_append_nothing(front);
    }
    let mut i: usize = 0;
    while i < found.len()
        invariant
            i <= found@.len() < u32::MAX,
            views == found_views(found@),
            front == change_views(old(out)@),
            change_views(out@) == front + found_changes(views, i as nat),
        decreases found@.len() - i,
    {
        let ghost before = change_views(out@);
        assert(views[i as int] == found_view(found@[i as int]));
        if let Some((time, value)) = &found[i] {
            let change = FstSignalChange {
                time: *time,
                handle: FstSignalHandle::from_index(i),
                value: value.duplicate(),
            };
            let ghost view = change@;
            out.push(change);
            assert(change_views(out@) =~= before.push(view));
            assert(front + found_changes(views, i as nat).push(view) =~= before.push(view));
        }
        i = i + 1;
    }
}

} // verus!
