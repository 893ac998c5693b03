//! Reading the value changes of data sections.

use crate::bitmask::BitMask;
use crate::header::MetaData;
use crate::locations::{any_located, at_locs, loc_view, loc_views, read_signal_locs};
use crate::primitives::{at_u8, at_variant_u64, read_u8, read_variant_u64};
use crate::section::{
    at_packed, at_section_head, at_times, frame_end, read_packed_signal_value_bytes,
    read_section_head, read_time_table, skip_frame, TimesView,
};
use crate::types::{
    pack_type, DataSectionInfo, DataSectionKind, FloatingPointEndian, ReaderError, Result,
    SignalInfo, ValueChangePackType,
};
use crate::values::{at_delta, change_views, read_signal_time_delta, ChangeView, FstSignalChange};
use crate::wheel::{
    byte_views, delivered, followed_by, lemma_append, lemma_append_nothing, Delivery,
    SectionData, SlotLists, TimeWheel, WheelState, Window,
};
use vstd::prelude::*;

verus! {

/// Where the packed changes of the signals lie in a section.
#[verifier::ext_equal]
pub struct ChangesView {
    /// the place that the locations count from
    pub start: int,
    pub pack: ValueChangePackType,
    pub locs: Seq<Option<(int, int)>>,
}

/// The place of the packed changes in the section whose length field is at
/// `start`, whose frame ends at `frame_end`, and whose table of times has the size `size`.
pub open spec fn at_changes(
    s: Seq<u8>,
    kind: DataSectionKind,
    start: int,
    length: u64,
    size: int,
    frame_end: int,
) -> Result<ChangesView> {
    match at_variant_u64(s, frame_end) {
        Err(e) => Err(e),
        Ok((max_handle, vc_start)) => match at_u8(s, vc_start) {
            Err(e) => Err(e),
            Ok((mark, _)) => match at_locs(
                s,
                start + length - size - 8,
                kind,
                max_handle as nat,
                vc_start,
            ) {
                Err(e) => Err(e),
                Ok(locs) => Ok(ChangesView { start: vc_start, pack: pack_type(mark), locs }),
            },
        },
    }
}

/// Where the packed changes of the signals lie in a section.
pub struct ChangesPlace {
    pub start: u64,
    pub pack: ValueChangePackType,
    pub locs: Vec<Option<(u64, u64)>>,
}

impl View for ChangesPlace {
    type V = ChangesView;

    open spec fn view(&self) -> ChangesView {
        ChangesView { start: self.start as int, pack: self.pack, locs: loc_views(self.locs@) }
    }
}

pub fn read_changes_place(
    data: &[u8],
    kind: DataSectionKind,
    start: u64,
    length: u64,
    size: u64,
    frame_end: u64,
) -> (r: Result<ChangesPlace>)
    requires
        size <= start + length <= u64::MAX,
    ensures
        match (
            r,
            at_changes(data@, kind, start as int, length, size as int, frame_end as int),
        ) {
            (Ok(v), Ok(w)) => v@ == w && v.start <= data@.len(),
            (Err(e), Err(f)) => e == f,
            _ => false,
        },
{
    let (max_handle, vc_start) = read_variant_u64(data, frame_end)?;
    let (mark, _) = read_u8(data, vc_start)?;
    if start + length - size < 8 {
        return Err(ReaderError::Io);
    }
    let locs = read_signal_locs(
        data,
        start + length - size - 8,
        kind,
        max_handle,
        vc_start,
    )?;
    Ok(ChangesPlace { start: vc_start, pack: ValueChangePackType::from_u8(mark), locs })
}

/// The unpacked bytes of the signals, and the lists that a wheel starts with.
#[verifier::ext_equal]
pub struct LoadedView {
    pub bytes: Seq<Seq<u8>>,
    pub slots: Seq<Seq<int>>,
}

/// The selected signals among the first `k`, with their changes unpacked, each
/// in the list of the time step of its first change.
pub open spec fn loaded(
    s: Seq<u8>,
    place: ChangesView,
    infos: Seq<SignalInfo>,
    mask: Seq<bool>,
    slots: nat,
    k: nat,
) -> Result<LoadedView>
    decreases k,
{
    if k == 0 {
        Ok(
            LoadedView {
                bytes: Seq::new(infos.len(), |i: int| Seq::<u8>::empty()),
                slots: Seq::new(slots, |t: int| Seq::<int>::empty()),
            },
        )
    } else {
        match loaded(s, place, infos, mask, slots, (k - 1) as nat) {
            Err(e) => Err(e),
            Ok(before) => with_signal(s, place, infos, mask, before, k - 1),
        }
    }
}

/// What is loaded, with signal `i` added if it is selected and has changes.
pub open spec fn with_signal(
    s: Seq<u8>,
    place: ChangesView,
    infos: Seq<SignalInfo>,
    mask: Seq<bool>,
    before: LoadedView,
    i: int,
) -> Result<LoadedView> {
    if !mask[i] || i >= place.locs.len() {
        Ok(before)
    } else {
        match place.locs[i] {
            None => Ok(before),
            Some((offset, len)) => match at_packed(s, place.start + offset, len, place.pack) {
                Err(e) => Err(e),
                Ok(bytes) => match at_delta(infos[i], bytes, 0) {
                    Err(e) => Err(e),
                    Ok(delta) => Ok(
                        LoadedView {
                            bytes: before.bytes.update(i, bytes),
                            slots: if delta < before.slots.len() {
                                before.slots.update(
                                    delta as int,
                                    seq![i] + before.slots[delta as int],
                                )
                            } else {
                                before.slots
                            },
                        },
                    ),
                },
            },
        }
    }
}

/// The number of lists of a wheel for so many times.
pub open spec fn slot_count(times: nat) -> nat {
    if times == 0 {
        1
    } else {
        times
    }
}

/// The state that a wheel with these lists starts in.
pub open spec fn initial_state(loaded: LoadedView) -> WheelState {
    WheelState { slots: loaded.slots, pos: Seq::new(loaded.bytes.len(), |i: int| 0int) }
}

proof fn lemma_loaded_error(
    s: Seq<u8>,
    place: ChangesView,
    infos: Seq<SignalInfo>,
    mask: Seq<bool>,
    slots: nat,
    k: nat,
    n: nat,
)
    requires
        k <= n,
        loaded(s, place, infos, mask, slots, k) is Err,
    ensures
        loaded(s, place, infos, mask, slots, n) == loaded(s, place, infos, mask, slots, k),
    decreases n,
{
    if k < n {
        lemma_loaded_error(s, place, infos, mask, slots, k, (n - 1) as nat);
    }
}

/// The signals in the lists are all among the first `k`.
pub open spec fn only_below(lists: Seq<Seq<int>>, k: int) -> bool {
    forall|t: int, j: int|
        0 <= t < lists.len() && 0 <= j < lists[t].len() ==> #[trigger] lists[t][j] < k
}

/// Adds signal `i` to the lists, if it is selected and has changes.
fn load_signal(
    data: &[u8],
    place: &ChangesPlace,
    infos: &Vec<SignalInfo>,
    mask: &BitMask,
    i: usize,
    lists: &mut SlotLists,
    bytes: &mut Vec<Vec<u8>>,
) -> (r: Result<()>)
    requires
        i < infos@.len(),
        mask@.len() == infos@.len(),
        place.start <= data@.len(),
        old(lists).wf(),
        old(lists).signals() == infos@.len(),
        old(bytes)@.len() == infos@.len(),
        only_below(old(lists)@, i as int),
    ensures
        final(lists).wf(),
        final(lists).signals() == old(lists).signals(),
        final(lists)@.len() == old(lists)@.len(),
        final(bytes)@.len() == old(bytes)@.len(),
        only_below(final(lists)@, i + 1),
        match (
            r,
            with_signal(
                data@,
                place@,
                infos@,
                mask@,
                LoadedView { bytes: byte_views(old(bytes)@), slots: old(lists)@ },
                i as int,
            ),
        ) {
            (Ok(_), Ok(w)) => byte_views(final(bytes)@) == w.bytes && final(lists)@ == w.slots,
            (Err(e), Err(f)) => e == f,
            _ => false,
        },
{
    let size: u64 = data.len() as u64;
    if !mask.is_set(i) || i >= place.locs.len() {
        return Ok(());
    }
    assert(place@.locs[i as int] == loc_view(place.locs@[i as int]));
    let (offset, len) = match place.locs[i] {
        None => {
            return Ok(());
        },
        Some(loc) => loc,
    };
    if offset > size - place.start {
        return Err(ReaderError::Io);
    }
    let unpacked = read_packed_signal_value_bytes(data, place.start + offset, len, place.pack)?;
    let delta: u32 = read_signal_time_delta(infos[i], unpacked.as_slice(), 0)?;
    let ghost before = byte_views(bytes@);
    let ghost view = unpacked@;
    bytes.set(i, unpacked);
    assert(byte_views(bytes@) =~= before.update(i as int, view));
    if (delta as usize) < lists.len() {
        lists.push(delta as usize, i);
    }
    Ok(())
}

/// Loads the selected signals into a wheel.
pub fn load_signals(
    data: &[u8],
    place: &ChangesPlace,
    infos: &Vec<SignalInfo>,
    mask: &BitMask,
    slots: usize,
) -> (r: Result<TimeWheel>)
    requires
        infos@.len() < u32::MAX,
        mask@.len() == infos@.len(),
        place.start <= data@.len(),
    ensures
        match (r, loaded(data@, place@, infos@, mask@, slots as nat, infos@.len())) {
            (Ok(wheel), Ok(w)) => {
                &&& wheel.wf()
                &&& wheel.pos@.len() == infos@.len()
                &&& wheel.state() == initial_state(w)
                &&& byte_views(wheel.bytes@) == w.bytes
                &&& wheel.lists@.len() == slots
            },
            (Err(e), Err(f)) => e == f,
            _ => false,
        },
{
    let n: usize = infos.len();
    let mut lists = SlotLists::new(slots, n);
    let mut bytes: Vec<Vec<u8>> = Vec::new();
    let mut i: usize = 0;
    while i < n
        invariant
            i <= n == infos@.len(),
            bytes@.len() == i,
            forall|k: int| 0 <= k < i ==> (#[trigger] bytes@[k])@.len() == 0,
        decreases n - i,
    {
        bytes.push(Vec::new());
        i = i + 1;
    }
    assert(byte_views(bytes@) =~= Seq::new(n as nat, |i: int| Seq::<u8>::empty())) by {
        assert forall|k: int| 0 <= k < n implies byte_views(bytes@)[k] == Seq::<u8>::empty() by {
            assert(bytes@[k]@ =~= Seq::<u8>::empty());
        }
    }
    let mut k: usize = 0;
    while k < n
        invariant
            k <= n == infos@.len(),
            n < u32::MAX,
            mask@.len() == n,
            place.start <= data@.len(),
            lists.wf(),
            lists.signals() == n,
            lists@.len() == slots,
            bytes@.len() == n,
            only_below(lists@, k as int),
            match loaded(data@, place@, infos@, mask@, slots as nat, k as nat) {
                Ok(w) => w.bytes == byte_views(bytes@) && w.slots == lists@,
                Err(_) => false,
            },
        decreases n - k,
    {
        let ghost before = LoadedView { bytes: byte_views(bytes@), slots: lists@ };
        let step = load_signal(data, place, infos, mask, k, &mut lists, &mut bytes);
        match step {
            Ok(_) => {},
            Err(e) => {
                proof {
                    assert(loaded(data@, place@, infos@, mask@, slots as nat, k as nat) == Ok::<
                        LoadedView,
                        ReaderError,
                    >(before));
                    assert(loaded(data@, place@, infos@, mask@, slots as nat, (k + 1) as nat)
                        == with_signal(data@, place@, infos@, mask@, before, k as int));
                    lemma_loaded_error(
                        data@,
                        place@,
                        infos@,
                        mask@,
                        slots as nat,
                        (k + 1) as nat,
                        n as nat,
                    );
                }
                return Err(e);
            },
        }
        proof {
            assert(loaded(data@, place@, infos@, mask@, slots as nat, k as nat) == Ok::<
                LoadedView,
                ReaderError,
            >(before));
            assert(loaded(data@, place@, infos@, mask@, slots as nat, (k + 1) as nat)
                == with_signal(data@, place@, infos@, mask@, before, k as int));
        }
        k = k + 1;
    }
    let pos: Vec<u64> = vec![0u64; n];
    let wheel = TimeWheel { lists, pos, bytes };
    assert(wheel.state().pos =~= Seq::new(n as nat, |i: int| 0int));
    Ok(wheel)
}

/// What is asked of the data sections: changes from `start` to `end`, both
/// ends included, of the signals in a mask.
pub struct DataFilter {
    pub start: u64,
    pub end: u64,
    pub signals: BitMask,
}

/// The section covers a time from `start` to `end`.
pub open spec fn is_relevant(section: DataSectionInfo, start: u64, end: u64) -> bool {
    end >= section.start_time && section.end_time >= start
}

/// What the signals of a file are.
pub struct SignalsView {
    pub infos: Seq<SignalInfo>,
    pub endian: FloatingPointEndian,
    /// which of them are selected
    pub mask: Seq<bool>,
}

/// What a section delivers of its changes, whose table of times and the end of
/// whose frame are known.
pub open spec fn changes_behind(
    s: Seq<u8>,
    sig: SignalsView,
    kind: DataSectionKind,
    start: int,
    length: u64,
    table: TimesView,
    frame_end: int,
    window: Window,
) -> Delivery {
    match at_changes(s, kind, start, length, table.size, frame_end) {
        Err(e) => (Seq::empty(), Err(e)),
        Ok(place) => match loaded(
            s,
            place,
            sig.infos,
            sig.mask,
            slot_count(table.times.len()),
            sig.infos.len(),
        ) {
            Err(e) => (Seq::empty(), Err(e)),
            Ok(load) => delivered(
                SectionData { infos: sig.infos, endian: sig.endian, bytes: load.bytes },
                initial_state(load),
                table.times,
                0,
                window,
            ),
        },
    }
}

/// What a section delivers of its changes in `window`.
pub open spec fn section_changes(
    s: Seq<u8>,
    sig: SignalsView,
    section: DataSectionInfo,
    window: Window,
) -> Delivery {
    let start = section.file_offset as int;
    match at_section_head(s, start) {
        Err(e) => (Seq::empty(), Err(e)),
        Ok(head) => if head.start_time != section.start_time || head.end_time != section.end_time {
            (Seq::empty(), Err(ReaderError::Malformed))
        } else {
            match at_times(s, start, head.length) {
                Err(e) => (Seq::empty(), Err(e)),
                Ok(table) => match frame_end(s, start) {
                    Err(e) => (Seq::empty(), Err(e)),
                    Ok(end) => changes_behind(
                        s,
                        sig,
                        section.kind,
                        start,
                        head.length,
                        table,
                        end,
                        window,
                    ),
                },
            }
        },
    }
}

/// What the sections from `k` on deliver, one after the other, up to the first
/// that cannot be read. Sections that do not touch the window are passed over.
pub open spec fn changes_from(
    s: Seq<u8>,
    sig: SignalsView,
    sections: Seq<DataSectionInfo>,
    k: int,
    window: Window,
) -> Delivery
    decreases sections.len() - k,
{
    if k >= sections.len() {
        (Seq::empty(), Ok(()))
    } else if !is_relevant(sections[k], window.start, window.end) {
        changes_from(s, sig, sections, k + 1, window)
    } else {
        let here = section_changes(s, sig, sections[k], window);
        match here.1 {
            Err(_) => here,
            Ok(_) => followed_by(here.0, changes_from(s, sig, sections, k + 1, window)),
        }
    }
}

proof fn lemma_nothing_loaded(
    s: Seq<u8>,
    place: ChangesView,
    infos: Seq<SignalInfo>,
    mask: Seq<bool>,
    slots: nat,
    k: nat,
)
    requires
        !any_located(place.locs, mask),
        k <= mask.len(),
    ensures
        loaded(s, place, infos, mask, slots, k) == loaded(s, place, infos, mask, slots, 0),
    decreases k,
{
    if k > 0 {
        lemma_nothing_loaded(s, place, infos, mask, slots, (k - 1) as nat);
        let i = k - 1;
        if mask[i] && i < place.locs.len() {
            assert(place.locs[i] is None);
        }
    }
}

proof fn lemma_nothing_delivered(
    d: SectionData,
    w: WheelState,
    times: Seq<u64>,
    t: int,
    window: Window,
)
    requires
        0 <= t,
        forall|u: int| 0 <= u < times.len() ==> (#[trigger] w.slots[u]).len() == 0,
    ensures
        delivered(d, w, times, t, window) == (Seq::<ChangeView>::empty(), Ok::<(), ReaderError>(())),
    decreases times.len() - t,
{
    if t < times.len() {
        assert(w.slots[t].len() == 0);
        lemma_nothing_delivered(d, w, times, t + 1, window);
    }
}

/// Where no selected signal has changes, nothing is delivered.
pub proof fn lemma_nothing_located(
    s: Seq<u8>,
    sig: SignalsView,
    kind: DataSectionKind,
    start: int,
    length: u64,
    table: TimesView,
    frame_end: int,
    window: Window,
)
    requires
        sig.mask.len() == sig.infos.len(),
        at_changes(s, kind, start, length, table.size, frame_end) matches Ok(place)
            && !any_located(place.locs, sig.mask),
    ensures
        changes_behind(s, sig, kind, start, length, table, frame_end, window) == (
            Seq::<ChangeView>::empty(),
            Ok::<(), ReaderError>(()),
        ),
{
    let place = at_changes(s, kind, start, length, table.size, frame_end)->Ok_0;
    let slots = slot_count(table.times.len());
    lemma_nothing_loaded(s, place, sig.infos, sig.mask, slots, sig.infos.len());
    let load = loaded(s, place, sig.infos, sig.mask, slots, 0)->Ok_0;
    lemma_nothing_delivered(
        SectionData { infos: sig.infos, endian: sig.endian, bytes: load.bytes },
        initial_state(load),
        table.times,
        0,
        window,
    );
}

/// A reader of the value changes in the data sections.
pub struct DataReader<'a> {
    pub input: &'a [u8],
    pub meta: &'a MetaData,
    pub filter: &'a DataFilter,
}

impl<'a> DataReader<'a> {
    /// The mask speaks of the signals of the file.
    pub open spec fn wf(self) -> bool {
        self.meta.wf() && self.filter.signals@.len() == self.meta.signals@.len()
    }

    pub open spec fn signals(self) -> SignalsView {
        SignalsView {
            infos: self.meta.signals@,
            endian: self.meta.float_endian,
            mask: self.filter.signals@,
        }
    }

    pub open spec fn window(self) -> Window {
        Window { start: self.filter.start, end: self.filter.end, include_end: true }
    }

    /// Appends the changes of a section to `out`, whose table of times and the
    /// end of whose frame are known.
    pub fn read_value_changes(
        &self,
        kind: DataSectionKind,
        section_start: u64,
        section_length: u64,
        time_section_length: u64,
        time_table: &Vec<u64>,
        frame_end: u64,
        window: Window,
        out: &mut Vec<FstSignalChange>,
    ) -> (r: Result<()>)
        requires
            self.wf(),
            time_section_length <= section_start + section_length <= u64::MAX,
        ensures
            ({
                let (changes, end) = changes_behind(
                    self.input@,
                    self.signals(),
                    kind,
                    section_start as int,
                    section_length,
                    TimesView { size: time_section_length as int, times: time_table@ },
                    frame_end as int,
                    window,
                );
                change_views(final(out)@) == change_views(old(out)@) + changes && r == end
            }),
    {
        proof {
            lemma_append_nothing(change_views(out@));
        }
        let place = read_changes_place(
            self.input,
            kind,
            section_start,
            section_length,
            time_section_length,
            frame_end,
        )?;
        let slots: usize = if time_table.len() == 0 {
            1
        } else {
            time_table.len()
        };
        let mut wheel = load_signals(
            self.input,
            &place,
            &self.meta.signals,
            &self.filter.signals,
            slots,
        )?;
        wheel.deliver(&self.meta.signals, self.meta.float_endian, time_table, window, out)
    }

    /// Appends the changes of a section to `out`.
    fn read_section(&self, section: &DataSectionInfo, out: &mut Vec<FstSignalChange>) -> (r: Result<
        (),
    >)
        requires
            self.wf(),
        ensures
            ({
                let (changes, end) = section_changes(
                    self.input@,
                    self.signals(),
                    *section,
                    self.window(),
                );
                change_views(final(out)@) == change_views(old(out)@) + changes && r == end
            }),
    {
        proof {
            lemma_append_nothing(change_views(out@));
        }
        let size: usize = self.input.len();
        let head = read_section_head(self.input, section.file_offset)?;
        if head.start_time != section.start_time || head.end_time != section.end_time {
            return Err(ReaderError::Malformed);
        }
        let (time_section_length, time_table) = read_time_table(
            self.input,
            section.file_offset,
            head.length,
        )?;
        let frame_end: u64 = skip_frame(self.input, section.file_offset)?;
        let window = Window { start: self.filter.start, end: self.filter.end, include_end: true };
        self.read_value_changes(
            section.kind,
            section.file_offset,
            head.length,
            time_section_length,
            &time_table,
            frame_end,
            window,
            out,
        )
    }

    /// Appends the changes in the window to `out`, section by section.
    pub fn read(&self, out: &mut Vec<FstSignalChange>) -> (r: Result<()>)
        requires
            self.wf(),
        ensures
            ({
                let (changes, end) = changes_from(
                    self.input@,
                    self.signals(),
                    self.meta.data_sections@,
                    0,
                    self.window(),
                );
                change_views(final(out)@) == change_views(old(out)@) + changes && r == end
            }),
    {
        let ghost s = self.input@;
        let ghost sig = self.signals();
        let ghost sections = self.meta.data_sections@;
        let ghost window = self.window();
        let ghost all = changes_from(s, sig, sections, 0, window);
        let ghost front = change_views(out@);
        let ghost mut sofar = Seq::<ChangeView>::empty();
        proof {
            lemma_append_nothing(front);
            lemma_append_nothing(all.0);
        }
        let mut k: usize = 0;
        while k < self.meta.data_sections.len()
            invariant
                self.wf(),
                s == self.input@,
                sig == self.signals(),
                sections == self.meta.data_sections@,
                window == self.window(),
                k <= sections.len(),
                all == changes_from(s, sig, sections, 0, window),
                all == followed_by(sofar, changes_from(s, sig, sections, k as int, window)),
                front == change_views(old(out)@),
                change_views(out@) == front + sofar,
            decreases sections.len() - k,
        {
            let section: DataSectionInfo = self.meta.data_sections[k];
            if self.filter.end >= section.start_time && section.end_time >= self.filter.start {
                let ghost here = section_changes(s, sig, section, window).0;
                proof {
                    lemma_append(front, sofar, here);
                }
                self.read_section(&section, out)?;
                proof {
                    let rest = changes_from(s, sig, sections, k + 1, window).0;
                    lemma_append(sofar, here, rest);
                    sofar = sofar + here;
                }
            }
            k = k + 1;
        }
        proof {
            lemma_append_nothing(sofar);
        }
        Ok(())
    }
}

} // verus!
