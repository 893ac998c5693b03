//! Opening a file and reading from it.

use crate::bitmask::BitMask;
use crate::blocks::{at_block_type, read_block_tpe, HeaderView};
use crate::boundary::{boundary_values, first_values, RangeBoundaryReader, RangeBoundaryValues};
use crate::compression::same_bytes;
use crate::data::{changes_from, is_relevant, DataFilter, DataReader, SignalsView};
use crate::filter::{FilterView, FstFilter};
use crate::gzip::{decompress_gz_in_chunks, gunzipped};
use crate::header::{
    block_end, meta_of_file, meta_of_incomplete, read_incomplete_meta_data, read_meta_data,
    MetaData, MetaView, MAX_SECTION_LENGTH,
};
use crate::hierarchy::{entry_views, hierarchy_entries, FstHierarchyEntry};
use crate::pre_start::{
    found_changes, latest_values, push_found, values_found, PreStartReader, PreStartValues,
    ValuesView,
};
use crate::primitives::{at_u64, read_u64};
use crate::types::{BlockType, DataSectionInfo, FstSignalHandle, ReaderError, Result};
use crate::values::{change_views, ChangeView, FstSignalChange};
use crate::wheel::{followed_by, lemma_append, lemma_append_nothing, Delivery, Window};
use vstd::prelude::*;

verus! {

/// What the blocks from `pos` on tell of whether this could be an FST file, when
/// a header was `seen` in front of them.
pub open spec fn fst_from(s: Seq<u8>, pos: int, seen: bool) -> Result<bool>
    decreases
            if pos < s.len() {
                s.len() - pos
            } else {
                0
            },
    when 0 <= pos
{
    match at_block_type(s, pos) {
        Err(e) => if e == ReaderError::Io {
            Ok(seen)
        } else {
            Err(e)
        },
        Ok(tpe) => match at_u64(s, pos + 1) {
            Err(e) => Err(e),
            Ok((length, _)) => if tpe is GZipWrapper {
                Ok(true)
            } else if tpe is Skip && length == 0 {
                Ok(seen)
            } else {
                match block_end(pos + 1, length) {
                    Err(e) => Err(e),
                    Ok(end) => fst_from(s, end, seen || tpe is Header),
                }
            },
        },
    }
}

/// Could be an FST file: its blocks follow one another, and there is a header
/// among them or they are wrapped.
pub open spec fn could_be_fst(s: Seq<u8>) -> bool {
    fst_from(s, 0, false) == Ok::<bool, ReaderError>(true)
}

/// Returns an error or false if not an fst. Returns Ok(true) only if we think it is an fst.
fn internal_check_fst_file(input: &[u8]) -> (r: Result<bool>)
    ensures
        r == fst_from(input@, 0, false),
{
    let len: u64 = input.len() as u64;
    let mut seen_header: bool = false;
    let mut pos: u64 = 0;
    while pos < len
        invariant
            len == input@.len(),
            fst_from(input@, 0, false) == fst_from(input@, pos as int, seen_header),
        decreases len - pos,
    {
        let tpe = read_block_tpe(input, pos)?;
        let (length, _) = read_u64(input, pos + 1)?;
        if tpe == BlockType::GZipWrapper {
            return Ok(true);
        }
        if tpe == BlockType::Skip && length == 0 {
            return Ok(seen_header);
        }
        if length > MAX_SECTION_LENGTH {
            return Err(ReaderError::Malformed);
        }
        if tpe == BlockType::Header {
            seen_header = true;
        }
        if length > len - (pos + 1) {
            assert(fst_from(input@, pos + 1 + length, seen_header) == Ok::<bool, ReaderError>(
                seen_header,
            ));
            return Ok(seen_header);
        }
        pos = pos + 1 + length;
    }
    Ok(seen_header)
}

/// Quickly scans an input to see if it could be a FST file.
pub fn is_fst_file(input: &[u8]) -> (r: bool)
    ensures
        r == could_be_fst(input@),
{
    matches!(internal_check_fst_file(input), Ok(true))
}

/// The bytes of the file, freed from the gzip wrapper that the file may be in.
pub open spec fn unwrapped(s: Seq<u8>) -> Result<Seq<u8>> {
    match at_block_type(s, 0) {
        Err(e) => Err(e),
        Ok(tpe) => if !(tpe is GZipWrapper) {
            Ok(s)
        } else {
            match at_u64(s, 1) {
                Err(e) => Err(e),
                Ok((length, _)) => match at_u64(s, 9) {
                    Err(e) => Err(e),
                    Ok((unpacked, _)) => if length == 0 {
                        Err(ReaderError::NotFinishedCompressing)
                    } else {
                        gunzipped(s, 17, unpacked as nat)
                    },
                },
            }
        },
    }
}

/// Checks to see if the whole file is compressed, in which case it is decompressed.
pub fn uncompress_gzip_wrapper(input: Vec<u8>) -> (r: Result<Vec<u8>>)
    ensures
        same_bytes(r, unwrapped(input@)),
{
    let tpe = read_block_tpe(input.as_slice(), 0)?;
    if tpe != BlockType::GZipWrapper {
        return Ok(input);
    }
    let (length, _) = read_u64(input.as_slice(), 1)?;
    let (unpacked, _) = read_u64(input.as_slice(), 9)?;
    if length == 0 {
        return Err(ReaderError::NotFinishedCompressing);
    }
    decompress_gz_in_chunks(input.as_slice(), 17, unpacked)
}

/// Basic facts of a file.
#[derive(Clone, Debug, PartialEq, Eq)]
pub struct FstHeader {
    /// time of first sample
    pub start_time: u64,
    /// time of last sample
    pub end_time: u64,
    /// number of variables in the design
    pub var_count: u64,
    /// the highest signal handle; indicates the number of unique signals
    pub max_handle: u64,
    /// human readable version string
    pub version: String,
    /// human readable times stamp
    pub date: String,
    /// the exponent of the timescale; timescale will be 10^(exponent) seconds
    pub timescale_exponent: i8,
}

impl FstHeader {
    /// These are the facts that a header block tells.
    pub open spec fn tells(self, header: HeaderView) -> bool {
        &&& self.start_time == header.start_time
        &&& self.end_time == header.end_time
        &&& self.var_count == header.var_count
        &&& self.max_handle == header.max_var_id_code
        &&& self.version@ == header.version
        &&& self.date@ == header.date
        &&& self.timescale_exponent == header.timescale_exponent
    }
}

/// Reads in a FST file.
pub struct FstReader {
    input: Vec<u8>,
    /// the hierarchy of a file that has none of its own
    hierarchy: Option<Vec<u8>>,
    meta: MetaData,
}

/// What an [`FstReader`] reads from.
#[verifier::ext_equal]
pub struct ReaderView {
    /// the bytes of the file, without a wrapper
    pub data: Seq<u8>,
    /// the bytes that the hierarchy is in
    pub hierarchy: Seq<u8>,
    pub meta: MetaView,
}

impl View for FstReader {
    type V = ReaderView;

    closed spec fn view(&self) -> ReaderView {
        ReaderView {
            data: self.input@,
            hierarchy: match self.hierarchy {
                Some(hierarchy) => hierarchy@,
                None => self.input@,
            },
            meta: self.meta@,
        }
    }
}

/// The reader of a finished file.
pub open spec fn opened(s: Seq<u8>, read_time_table: bool) -> Result<ReaderView> {
    match unwrapped(s) {
        Err(e) => Err(e),
        Ok(data) => match meta_of_file(data, read_time_table) {
            Err(e) => Err(e),
            Ok(meta) => Ok(ReaderView { data, hierarchy: data, meta }),
        },
    }
}

/// The reader of a file that may not have been finished. The hierarchy is that of
/// the file itself, if it has one.
pub open spec fn opened_incomplete(s: Seq<u8>, hierarchy: Seq<u8>, read_time_table: bool) -> Result<
    ReaderView,
> {
    match unwrapped(s) {
        Err(e) => Err(e),
        Ok(data) => match meta_of_incomplete(data, hierarchy, read_time_table) {
            Err(e) => Err(e),
            Ok((meta, own)) => Ok(
                ReaderView {
                    data,
                    hierarchy: if own {
                        data
                    } else {
                        hierarchy
                    },
                    meta,
                },
            ),
        },
    }
}

/// `r` is the reader that `m` says.
pub open spec fn same_reader(r: Result<FstReader>, m: Result<ReaderView>) -> bool {
    match (r, m) {
        (Ok(v), Ok(w)) => v@ == w,
        (Err(e), Err(f)) => e == f,
        _ => false,
    }
}

impl FstReader {
    #[verifier::type_invariant]
    spec fn inv(self) -> bool {
        self.meta.wf()
    }

    /// Reads in the FST file meta-data.
    pub fn open(input: Vec<u8>) -> (r: Result<FstReader>)
        ensures
            same_reader(r, opened(input@, false)),
    {
        Self::open_internal(input, false)
    }

    /// As [`FstReader::open`], with the table of all times.
    pub fn open_and_read_time_table(input: Vec<u8>) -> (r: Result<FstReader>)
        ensures
            same_reader(r, opened(input@, true)),
    {
        Self::open_internal(input, true)
    }

    fn open_internal(input: Vec<u8>, read_time_table: bool) -> (r: Result<FstReader>)
        ensures
            same_reader(r, opened(input@, read_time_table)),
    {
        let data = uncompress_gzip_wrapper(input)?;
        let meta = read_meta_data(data.as_slice(), read_time_table)?;
        Ok(FstReader { input: data, hierarchy: None, meta })
    }

    /// Reads in the meta-data of an incomplete FST file with external `.hier` file.
    ///
    /// When the creation of a file is interrupted, its geometry block or its
    /// hierarchy block may be missing (as indicated by
    /// [`ReaderError::MissingGeometry`] and [`ReaderError::MissingHierarchy`]).
    /// This function tries to reconstruct them from the `.hier` file, which is
    /// commonly generated while outputting FST files.
    pub fn open_incomplete(input: Vec<u8>, hierarchy: Vec<u8>) -> (r: Result<FstReader>)
        ensures
            same_reader(r, opened_incomplete(input@, hierarchy@, false)),
    {
        Self::open_incomplete_internal(input, hierarchy, false)
    }

    /// As [`FstReader::open_incomplete`], with the table of all times.
    pub fn open_incomplete_and_read_time_table(input: Vec<u8>, hierarchy: Vec<u8>) -> (r: Result<
        FstReader,
    >)
        ensures
            same_reader(r, opened_incomplete(input@, hierarchy@, true)),
    {
        Self::open_incomplete_internal(input, hierarchy, true)
    }

    fn open_incomplete_internal(
        input: Vec<u8>,
        hierarchy: Vec<u8>,
        read_time_table: bool,
    ) -> (r: Result<FstReader>)
        ensures
            same_reader(r, opened_incomplete(input@, hierarchy@, read_time_table)),
    {
        let data = uncompress_gzip_wrapper(input)?;
        let (meta, own_hierarchy) = read_incomplete_meta_data(
            data.as_slice(),
            hierarchy.as_slice(),
            read_time_table,
        )?;
        let external: Option<Vec<u8>> = if own_hierarchy {
            None
        } else {
            Some(hierarchy)
        };
        Ok(FstReader { input: data, hierarchy: external, meta })
    }

    pub fn get_header(&self) -> (r: FstHeader)
        ensures
            r.tells(self@.meta.header),
    {
        FstHeader {
            start_time: self.meta.header.start_time,
            end_time: self.meta.header.end_time,
            var_count: self.meta.header.var_count,
            max_handle: self.meta.header.max_var_id_code,
            version: self.meta.header.version.clone(),
            date: self.meta.header.date.clone(),
            timescale_exponent: self.meta.header.timescale_exponent,
        }
    }

    /// The table of all times, if the file was opened with it.
    pub fn get_time_table(&self) -> (r: Option<&[u64]>)
        ensures
            match (r, self@.meta.time_table) {
                (Some(times), Some(table)) => times@ == table,
                (None, None) => true,
                _ => false,
            },
    {
        match &self.meta.time_table {
            Some(table) => Some(table.as_slice()),
            None => None,
        }
    }

    /// Get a reference to the metadata
    pub fn meta(&self) -> (r: &MetaData)
        ensures
            r@ == self@.meta,
    {
        &self.meta
    }

    /// Reads the hierarchy and appends every item to `entries`.
    pub fn read_hierarchy(&self, entries: &mut Vec<FstHierarchyEntry>) -> (r: Result<()>)
        ensures
            ({
                let (items, end) = hierarchy_entries(
                    self@.hierarchy,
                    self@.meta.hierarchy_offset as int,
                    self@.meta.hierarchy_compression,
                );
                entry_views(final(entries)@) == entry_views(old(entries)@) + items && r == end
            }),
    {
        let input = match &self.hierarchy {
            Some(hierarchy) => hierarchy.as_slice(),
            None => self.input.as_slice(),
        };
        crate::hierarchy::read_hierarchy(
            input,
            self.meta.hierarchy_offset,
            self.meta.hierarchy_compression,
            entries,
        )
    }
}

/// The signals of a file that a filter selects.
pub open spec fn selected(view: ReaderView, filter: FilterView) -> SignalsView {
    SignalsView {
        infos: view.meta.signals,
        endian: view.meta.float_endian,
        mask: filter.mask(view.meta.signals.len()),
    }
}

/// The window of a filter.
pub open spec fn window_of(view: ReaderView, filter: FilterView) -> Window {
    Window {
        start: filter.start,
        end: filter.end_in(view.meta.header.end_time),
        include_end: true,
    }
}

/// The last value before `start` of each selected signal that has one.
pub open spec fn pre_start_changes(view: ReaderView, sig: SignalsView, start: u64) -> Result<
    Seq<ChangeView>,
> {
    match latest_values(
        view.data,
        sig,
        view.meta.data_sections,
        0,
        Window { start: 0, end: start, include_end: false },
        true,
    ) {
        Err(e) => Err(e),
        Ok(found) => Ok(found_changes(found, found.len())),
    }
}

/// What the data sections deliver of the selected signals in `window`.
pub open spec fn in_window(view: ReaderView, sig: SignalsView, window: Window) -> Delivery {
    changes_from(view.data, sig, view.meta.data_sections, 0, window)
}

/// What [`FstReader::read_signals`] delivers.
pub open spec fn signals_read(view: ReaderView, filter: FilterView) -> Delivery {
    let sig = selected(view, filter);
    let changes = in_window(view, sig, window_of(view, filter));
    if filter.include_pre_start {
        match pre_start_changes(view, sig, filter.start) {
            Err(e) => (Seq::empty(), Err(e)),
            Ok(before) => followed_by(before, changes),
        }
    } else {
        changes
    }
}

/// The changes whose times lie from `start` to `end`.
pub open spec fn within(changes: Seq<ChangeView>, start: u64, end: u64) -> Seq<ChangeView>
    decreases changes.len(),
{
    if changes.len() == 0 {
        Seq::empty()
    } else {
        let before = within(changes.drop_last(), start, end);
        if start <= changes.last().time <= end {
            before.push(changes.last())
        } else {
            before
        }
    }
}

/// The earliest start of the sections from `k` on that touch the window.
pub open spec fn earliest_start(
    sections: Seq<DataSectionInfo>,
    k: int,
    start: u64,
    end: u64,
) -> Option<u64>
    decreases sections.len() - k,
{
    if k >= sections.len() {
        None
    } else {
        let rest = earliest_start(sections, k + 1, start, end);
        if !is_relevant(sections[k], start, end) {
            rest
        } else {
            match rest {
                Some(time) => if time < sections[k].start_time {
                    Some(time)
                } else {
                    Some(sections[k].start_time)
                },
                None => Some(sections[k].start_time),
            }
        }
    }
}

/// The latest end of the sections from `k` on that touch the window.
pub open spec fn latest_end(
    sections: Seq<DataSectionInfo>,
    k: int,
    start: u64,
    end: u64,
) -> Option<u64>
    decreases sections.len() - k,
{
    if k >= sections.len() {
        None
    } else {
        let rest = latest_end(sections, k + 1, start, end);
        if !is_relevant(sections[k], start, end) {
            rest
        } else {
            match rest {
                Some(time) => if time > sections[k].end_time {
                    Some(time)
                } else {
                    Some(sections[k].end_time)
                },
                None => Some(sections[k].end_time),
            }
        }
    }
}

/// The window that covers whole sections, if any section touches the filter's window.
pub open spec fn expanded(view: ReaderView, filter: FilterView) -> Option<Window> {
    let window = window_of(view, filter);
    let sections = view.meta.data_sections;
    match (
        earliest_start(sections, 0, window.start, window.end),
        latest_end(sections, 0, window.start, window.end),
    ) {
        (Some(start), Some(end)) => Some(Window { start, end, include_end: true }),
        _ => None,
    }
}

/// What [`FstReader::read_signals_in_range`] delivers.
pub open spec fn signals_read_in_range(view: ReaderView, filter: FilterView) -> Delivery {
    let window = window_of(view, filter);
    match expanded(view, filter) {
        None => (Seq::empty(), Ok(())),
        Some(wide) => {
            let (changes, end) = in_window(view, selected(view, filter), wide);
            (within(changes, window.start, window.end), end)
        },
    }
}

/// Drops the changes whose times do not lie from `start` to `end`, and appends
/// the others to `out`.
fn push_within(changes: Vec<FstSignalChange>, start: u64, end: u64, out: &mut Vec<FstSignalChange>)
    ensures
        change_views(final(out)@) == change_views(old(out)@) + within(
            change_views(changes@),
            start,
            end,
        ),
{
    let ghost views = change_views(changes@);
    let ghost front = change_views(out@);
    proof {
        lemma_append_nothing(front);
    }
    let mut i: usize = 0;
    while i < changes.len()
        invariant
            i <= changes@.len(),
            views == change_views(changes@),
            front == change_views(old(out)@),
            change_views(out@) == front + within(views.subrange(0, i as int), start, end),
        decreases changes@.len() - i,
    {
        let change = &changes[i];
        proof {
            assert(views.subrange(0, i + 1).drop_last() =~= views.subrange(0, i as int));
            assert(views.subrange(0, i + 1).last() == change@);
        }
        if start <= change.time && change.time <= end {
            let ghost before = change_views(out@);
            let copy = FstSignalChange {
                time: change.time,
                handle: change.handle,
                value: change.value.duplicate(),
            };
            out.push(copy);
            proof {
                assert(change_views(out@) =~= before.push(views[i as int]));
                let inside = within(views.subrange(0, i as int), start, end);
                assert(front + inside.push(views[i as int]) =~= before.push(views[i as int]));
            }
        }
        i = i + 1;
    }
    assert(views.subrange(0, i as int) =~= views);
}

impl FstReader {
    /// The signals that a list of handles selects.
    fn signal_mask(&self, included: &Option<Vec<FstSignalHandle>>, Ghost(filter): Ghost<FilterView>) -> (r:
        BitMask)
        requires
            filter.included == (match *included {
                Some(signals) => Some(signals@),
                None => None,
            }),
        ensures
            r@ == filter.mask(self@.meta.signals.len()),
    {
        let n: usize = self.meta.signals.len();
        match included {
            None => {
                let mask = BitMask::repeat(true, n);
                assert(mask@ =~= filter.mask(n as nat));
                mask
            },
            Some(signals) => {
                let mut mask = BitMask::repeat(false, n);
                let mut k: usize = 0;
                while k < signals.len()
                    invariant
                        k <= signals@.len(),
                        mask@.len() == n,
                        forall|i: int|
                            0 <= i < n ==> (#[trigger] mask@[i] <==> exists|j: int|
                                0 <= j < k && #[trigger] signals@[j].index == i),
                    decreases signals@.len() - k,
                {
                    let index: usize = signals[k].get_index();
                    let ghost before = mask@;
                    if index < n {
                        mask.set(index, true);
                    }
                    k = k + 1;
                    proof {
                        assert forall|i: int| 0 <= i < n implies (#[trigger] mask@[i] <==> exists|
                            j: int,
                        |
                            0 <= j < k && #[trigger] signals@[j].index == i) by {
                            if mask@[i] {
                                if i == index {
                                    assert(signals@[k - 1].index == i);
                                } else {
                                    assert(before[i]);
                                    let j = choose|j: int|
                                        0 <= j < k - 1 && #[trigger] signals@[j].index == i;
                                    assert(signals@[j].index == i);
                                }
                            }
                            if exists|j: int| 0 <= j < k && #[trigger] signals@[j].index == i {
                                let j = choose|j: int|
                                    0 <= j < k && #[trigger] signals@[j].index == i;
                                if j < k - 1 {
                                    assert(signals@[j].index == i);
                                    assert(before[i]);
                                }
                            }
                        }
                    }
                }
                proof {
                    assert forall|i: int| 0 <= i < n implies mask@[i] == filter.selects(i) by {
                        let handles = filter.included->0;
                        if mask@[i] {
                            let j = choose|j: int|
                                0 <= j < k && #[trigger] signals@[j].index == i;
                            assert(handles[j].index == i);
                        }
                        if filter.selects(i) {
                            let j = choose|j: int|
                                0 <= j < handles.len() && #[trigger] handles[j].index == i;
                            assert(signals@[j].index == i);
                        }
                    }
                    assert(mask@ =~= filter.mask(n as nat));
                }
                mask
            },
        }
    }

    /// What a filter asks of the data sections.
    fn data_filter(&self, filter: &FstFilter) -> (r: DataFilter)
        ensures
            r.start == filter.start,
            r.end == filter@.end_in(self@.meta.header.end_time),
            r.signals@ == filter@.mask(self@.meta.signals.len()),
    {
        let end: u64 = match filter.end {
            Some(end) => end,
            None => self.meta.header.end_time,
        };
        DataFilter {
            start: filter.start,
            end,
            signals: self.signal_mask(&filter.included, Ghost(filter@)),
        }
    }

    /// Read signal values for a specific time interval.
    ///
    /// The changes in the interval are appended to `changes`, section by section,
    /// in the order of their times. If the filter asks for it, the last value of
    /// each signal before the interval comes first.
    pub fn read_signals(&self, filter: &FstFilter, changes: &mut Vec<FstSignalChange>) -> (r: Result<
        (),
    >)
        ensures
            change_views(final(changes)@) == change_views(old(changes)@) + signals_read(
                self@,
                filter@,
            ).0,
            r == signals_read(self@, filter@).1,
    {
        proof {
            use_type_invariant(self);
            lemma_append_nothing(change_views(changes@));
        }
        let data_filter = self.data_filter(filter);
        let ghost front = change_views(changes@);
        if filter.include_pre_start {
            let before = DataFilter {
                start: 0,
                end: filter.start,
                signals: data_filter.signals.duplicate(),
            };
            let reader = PreStartReader {
                input: self.input.as_slice(),
                meta: &self.meta,
                filter: &before,
                include_target: false,
                initial: true,
            };
            let found = reader.search()?;
            push_found(found, changes);
        }
        let reader = DataReader {
            input: self.input.as_slice(),
            meta: &self.meta,
            filter: &data_filter,
        };
        proof {
            if filter.include_pre_start {
                let first = pre_start_changes(self@, selected(self@, filter@), filter.start)->Ok_0;
                let rest = in_window(self@, selected(self@, filter@), window_of(self@, filter@)).0;
                lemma_append(front, first, rest);
            }
        }
        reader.read(changes)
    }

    /// Read the most recent signal values within a specified time range.
    ///
    /// This finds the latest value of each signal at or before `filter.end`, but none
    /// before `filter.start`. It searches backwards through the data sections and
    /// stops early once all requested signals have been found.
    pub fn read_pre_start_values(&self, filter: &FstFilter) -> (r: Result<PreStartValues>)
        ensures
            match (r, pre_start_values(self@, filter@, true)) {
                (Ok(v), Ok(w)) => v@ == w,
                (Err(e), Err(f)) => e == f,
                _ => false,
            },
    {
        self.read_pre_start_values_internal(filter, true)
    }

    /// As [`FstReader::read_pre_start_values`], where values at `filter.end` count only
    /// if `include_target`.
    pub fn read_pre_start_values_internal(&self, filter: &FstFilter, include_target: bool) -> (r:
        Result<PreStartValues>)
        ensures
            match (r, pre_start_values(self@, filter@, include_target)) {
                (Ok(v), Ok(w)) => v@ == w,
                (Err(e), Err(f)) => e == f,
                _ => false,
            },
    {
        proof {
            use_type_invariant(self);
        }
        let data_filter = self.data_filter(filter);
        let reader = PreStartReader {
            input: self.input.as_slice(),
            meta: &self.meta,
            filter: &data_filter,
            include_target,
            initial: true,
        };
        reader.read()
    }

    /// Read all signal values within a specified time range.
    ///
    /// This expands the range to the whole sections that it touches, reads all
    /// changes in those, and drops the changes outside the range again.
    pub fn read_signals_in_range(&self, filter: &FstFilter, changes: &mut Vec<FstSignalChange>) -> (r:
        Result<()>)
        ensures
            change_views(final(changes)@) == change_views(old(changes)@) + signals_read_in_range(
                self@,
                filter@,
            ).0,
            r == signals_read_in_range(self@, filter@).1,
    {
        proof {
            use_type_invariant(self);
            lemma_append_nothing(change_views(changes@));
        }
        let asked = self.data_filter(filter);
        let ghost sections = self.meta.data_sections@;
        let mut start: Option<u64> = None;
        let mut end: Option<u64> = None;
        let mut k: usize = self.meta.data_sections.len();
        while k > 0
            invariant
                k <= sections.len(),
                sections == self.meta.data_sections@,
                start == earliest_start(sections, k as int, asked.start, asked.end),
                end == latest_end(sections, k as int, asked.start, asked.end),
            decreases k,
        {
            k = k - 1;
            let section: DataSectionInfo = self.meta.data_sections[k];
            if asked.end >= section.start_time && section.end_time >= asked.start {
                start =
                match start {
                    Some(time) => if time < section.start_time {
                        Some(time)
                    } else {
                        Some(section.start_time)
                    },
                    None => Some(section.start_time),
                };
                end =
                match end {
                    Some(time) => if time > section.end_time {
                        Some(time)
                    } else {
                        Some(section.end_time)
                    },
                    None => Some(section.end_time),
                };
            }
        }
        let (wide_start, wide_end) = match (start, end) {
            (Some(start), Some(end)) => (start, end),
            _ => {
                return Ok(());
            },
        };
        let wide = DataFilter { start: wide_start, end: wide_end, signals: asked.signals };
        let reader = DataReader {
            input: self.input.as_slice(),
            meta: &self.meta,
            filter: &wide,
        };
        let mut all: Vec<FstSignalChange> = Vec::new();
        let r = reader.read(&mut all);
        proof {
            let views = in_window(self@, selected(self@, filter@), reader.window()).0;
            assert(change_views(Seq::<FstSignalChange>::empty()) + views =~= views);
        }
        push_within(all, asked.start, asked.end, changes);
        r
    }

    /// Read the first and last signal values within a specified time range.
    ///
    /// This finds the first and the last time in the range at which one of the
    /// signals takes on a value, and returns the values at those times.
    pub fn read_range_boundary_values(&self, filter: &FstFilter) -> (r: Result<RangeBoundaryValues>)
        ensures
            match (
                r,
                boundary_values(
                    self@.data,
                    selected(self@, filter@),
                    self@.meta.data_sections,
                    filter.start,
                    filter@.end_in(self@.meta.header.end_time),
                ),
            ) {
                (Ok(v), Ok(w)) => v@ == w,
                (Err(e), Err(f)) => e == f,
                _ => false,
            },
    {
        proof {
            use_type_invariant(self);
        }
        let data_filter = self.data_filter(filter);
        let reader = RangeBoundaryReader {
            input: self.input.as_slice(),
            meta: &self.meta,
            filter: &data_filter,
        };
        reader.read()
    }

    /// Finds the first value of each signal within a specified time range.
    pub fn find_first_in_range(&self, filter: &FstFilter) -> (r: Result<PreStartValues>)
        ensures
            match (
                r,
                first_values(
                    self@.data,
                    selected(self@, filter@),
                    self@.meta.data_sections,
                    filter.start,
                    filter@.end_in(self@.meta.header.end_time),
                ),
            ) {
                (Ok(v), Ok(found)) => v@ == values_found(found, 0),
                (Err(e), Err(f)) => e == f,
                _ => false,
            },
    {
        proof {
            use_type_invariant(self);
        }
        let data_filter = self.data_filter(filter);
        let reader = RangeBoundaryReader {
            input: self.input.as_slice(),
            meta: &self.meta,
            filter: &data_filter,
        };
        reader.find_first_in_range()
    }
}

/// What [`FstReader::read_pre_start_values`] returns.
pub open spec fn pre_start_values(view: ReaderView, filter: FilterView, include_target: bool) -> Result<
    ValuesView,
> {
    match latest_values(
        view.data,
        selected(view, filter),
        view.meta.data_sections,
        filter.start,
        Window {
            start: 0,
            end: filter.end_in(view.meta.header.end_time),
            include_end: include_target,
        },
        true,
    ) {
        Err(e) => Err(e),
        Ok(found) => Ok(values_found(found, filter.start)),
    }
}

} // verus!
