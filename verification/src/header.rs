//! The scan over the blocks of a file, which collects what the library needs to
//! know before it reads any value changes.

use crate::blocks::{
    at_blackouts, at_block_type, at_geometry, at_header, read_blackout, read_block_tpe,
    read_geometry, read_header, Header, HeaderView, HEADER_LENGTH,
};
use crate::hierarchy::{geometry_of, reconstruct_geometry};
use crate::primitives::{at_u64, read_u64};
use crate::section::{at_section_head, at_times, read_section_head, read_time_table, SectionHead};
use crate::types::{
    section_kind, BlackoutData, BlockType, DataSectionInfo, DataSectionKind,
    FloatingPointEndian, HierarchyCompression, ReaderError, Result, SignalInfo,
};
use vstd::prelude::*;

verus! {

/// What is known of a file before its value changes are read.
#[derive(Debug)]
pub struct MetaData {
    pub header: Header,
    pub signals: Vec<SignalInfo>,
    pub blackouts: Vec<BlackoutData>,
    pub data_sections: Vec<DataSectionInfo>,
    pub float_endian: FloatingPointEndian,
    pub hierarchy_compression: HierarchyCompression,
    pub hierarchy_offset: u64,
    pub time_table: Option<Vec<u64>>,
}

/// What [`MetaData`] holds.
#[verifier::ext_equal]
pub struct MetaView {
    pub header: HeaderView,
    pub signals: Seq<SignalInfo>,
    pub blackouts: Seq<BlackoutData>,
    pub data_sections: Seq<DataSectionInfo>,
    pub float_endian: FloatingPointEndian,
    pub hierarchy_compression: HierarchyCompression,
    pub hierarchy_offset: u64,
    pub time_table: Option<Seq<u64>>,
}

/// The numbers in an optional table.
pub open spec fn table_view(table: Option<Vec<u64>>) -> Option<Seq<u64>> {
    match table {
        Some(times) => Some(times@),
        None => None,
    }
}

impl View for MetaData {
    type V = MetaView;

    open spec fn view(&self) -> MetaView {
        MetaView {
            header: self.header@,
            signals: self.signals@,
            blackouts: self.blackouts@,
            data_sections: self.data_sections@,
            float_endian: self.float_endian,
            hierarchy_compression: self.hierarchy_compression,
            hierarchy_offset: self.hierarchy_offset,
            time_table: table_view(self.time_table),
        }
    }
}

impl MetaData {
    /// There are few enough signals for each to have a handle.
    pub open spec fn wf(self) -> bool {
        self.signals@.len() < u32::MAX
    }
}

/// What a scan has found so far.
#[verifier::ext_equal]
pub struct ScanView {
    pub header: Option<HeaderView>,
    pub signals: Option<Seq<SignalInfo>>,
    pub blackouts: Option<Seq<BlackoutData>>,
    pub data_sections: Seq<DataSectionInfo>,
    pub float_endian: FloatingPointEndian,
    pub hierarchy: Option<(HierarchyCompression, u64)>,
    pub time_table: Option<Seq<u64>>,
    pub is_incomplete: bool,
}

/// Nothing has been found yet.
pub open spec fn nothing_found(read_time_table: bool) -> ScanView {
    ScanView {
        header: None,
        signals: None,
        blackouts: None,
        data_sections: Seq::empty(),
        float_endian: FloatingPointEndian::Little,
        hierarchy: None,
        time_table: if read_time_table {
            Some(Seq::empty())
        } else {
            None
        },
        is_incomplete: false,
    }
}

/// The table of times, with those of one more section. The first section also
/// gives its start time, unless its times begin there.
pub open spec fn joined_times(table: Seq<u64>, start_time: u64, times: Seq<u64>) -> Seq<u64> {
    if table.len() == 0 && (times.len() == 0 || times[0] > start_time) {
        seq![start_time] + times
    } else {
        table + times
    }
}

/// The table of times after the section whose length field is at `start`.
pub open spec fn table_after(s: Seq<u8>, start: int, head: SectionHead, table: Option<Seq<u64>>) -> Result<
    Option<Seq<u64>>,
> {
    match table {
        None => Ok(None),
        Some(before) => match at_times(s, start, head.length) {
            Err(e) => Err(e),
            Ok(section) => Ok(Some(joined_times(before, head.start_time, section.times))),
        },
    }
}

/// The header, corrected by a data section. A file that was not finished says
/// nothing of its times; they are those of its data sections.
pub open spec fn corrected(
    header: HeaderView,
    is_first: bool,
    is_incomplete: bool,
    head: SectionHead,
) -> HeaderView {
    if is_incomplete {
        HeaderView {
            start_time: if is_first {
                head.start_time
            } else {
                header.start_time
            },
            end_time: head.end_time,
            ..header
        }
    } else {
        header
    }
}

/// Whether the file was not finished.
pub open spec fn found_incomplete(scan: ScanView) -> bool {
    match scan.header {
        Some(header) => if scan.data_sections.len() == 0 {
            header.start_time == 0 && header.end_time == 0
        } else {
            scan.is_incomplete
        },
        None => scan.is_incomplete,
    }
}

/// The scan after the data section whose length field is at `start`.
pub open spec fn with_section(
    scan: ScanView,
    start: int,
    kind: DataSectionKind,
    head: SectionHead,
    mem: u64,
    table: Option<Seq<u64>>,
) -> ScanView {
    let info = DataSectionInfo {
        file_offset: start as u64,
        start_time: head.start_time,
        end_time: head.end_time,
        kind,
        mem_required_for_traversal: mem,
    };
    ScanView {
        header: match scan.header {
            Some(header) => Some(
                corrected(header, scan.data_sections.len() == 0, found_incomplete(scan), head),
            ),
            None => None,
        },
        data_sections: scan.data_sections.push(info),
        time_table: table,
        is_incomplete: found_incomplete(scan),
        ..scan
    }
}

/// The largest length that a block may tell.
pub const MAX_SECTION_LENGTH: u64 = 0x7fff_ffff_ffff_ffff;

/// Where the block ends whose length field is at `start`.
pub open spec fn block_end(start: int, length: u64) -> Result<int> {
    if length > MAX_SECTION_LENGTH {
        Err(ReaderError::Malformed)
    } else {
        Ok(start + length)
    }
}

/// The scan after a data section, and where that ends.
#[verifier::opaque]
pub open spec fn after_data(s: Seq<u8>, start: int, kind: DataSectionKind, scan: ScanView) -> Result<
    (ScanView, int),
> {
    match at_section_head(s, start) {
        Err(e) => Err(e),
        Ok(head) => match at_u64(s, start + 24) {
            Err(e) => Err(e),
            Ok((mem, _)) => match table_after(s, start, head, scan.time_table) {
                Err(e) => Err(e),
                Ok(table) => match block_end(start, head.length) {
                    Err(e) => Err(e),
                    Ok(end) => Ok((with_section(scan, start, kind, head, mem, table), end)),
                },
            },
        },
    }
}

/// The scan after a hierarchy, and where that ends. There may be only one.
#[verifier::opaque]
pub open spec fn after_hierarchy(
    s: Seq<u8>,
    start: int,
    compression: HierarchyCompression,
    scan: ScanView,
) -> Result<(ScanView, int)> {
    if scan.hierarchy is Some {
        Err(ReaderError::Malformed)
    } else {
        match at_u64(s, start) {
            Err(e) => Err(e),
            Ok((length, _)) => match block_end(start, length) {
                Err(e) => Err(e),
                Ok(end) => Ok(
                    (
                        ScanView { hierarchy: Some((compression, start as u64)), ..scan },
                        end,
                    ),
                ),
            },
        }
    }
}

/// The scan after the block whose length field is at `start`, and where that
/// block ends. An empty block to be skipped ends the scan.
#[verifier::opaque]
pub open spec fn after_block(s: Seq<u8>, start: int, tpe: BlockType, scan: ScanView) -> Result<
    (ScanView, Option<int>),
> {
    match tpe {
        BlockType::Header => match at_header(s, start) {
            Err(e) => Err(e),
            Ok((header, endian)) => Ok(
                (
                    ScanView { header: Some(header), float_endian: endian, ..scan },
                    Some(start + HEADER_LENGTH),
                ),
            ),
        },
        BlockType::VcData | BlockType::VcDataDynamicAlias | BlockType::VcDataDynamicAlias2 =>
        match after_data(s, start, section_kind(tpe)->0, scan) {
            Err(e) => Err(e),
            Ok((next, end)) => Ok((next, Some(end))),
        },
        BlockType::Blackout => match at_blackouts(s, start) {
            Err(e) => Err(e),
            Ok((end, blackouts)) => Ok(
                (ScanView { blackouts: Some(blackouts), ..scan }, Some(end)),
            ),
        },
        BlockType::Geometry => match at_geometry(s, start) {
            Err(e) => Err(e),
            Ok((length, signals)) => Ok(
                (ScanView { signals: Some(signals), ..scan }, Some(start + length)),
            ),
        },
        BlockType::Hierarchy => match after_hierarchy(s, start, HierarchyCompression::ZLib, scan) {
            Err(e) => Err(e),
            Ok((next, end)) => Ok((next, Some(end))),
        },
        BlockType::HierarchyLZ4 => match after_hierarchy(
            s,
            start,
            HierarchyCompression::Lz4,
            scan,
        ) {
            Err(e) => Err(e),
            Ok((next, end)) => Ok((next, Some(end))),
        },
        BlockType::HierarchyLZ4Duo => match after_hierarchy(
            s,
            start,
            HierarchyCompression::Lz4Duo,
            scan,
        ) {
            Err(e) => Err(e),
            Ok((next, end)) => Ok((next, Some(end))),
        },
        BlockType::GZipWrapper => Err(ReaderError::Malformed),
        BlockType::Skip => match at_u64(s, start) {
            Err(e) => Err(e),
            Ok((length, _)) => if length == 0 {
                Ok((scan, None))
            } else {
                match block_end(start, length) {
                    Err(e) => Err(e),
                    Ok(end) => Ok((scan, Some(end))),
                }
            },
        },
    }
}

/// What a scan finds from the block at `pos` on.
pub open spec fn scanned_from(s: Seq<u8>, pos: int, scan: ScanView) -> Result<ScanView>
    decreases
            if pos < s.len() {
                s.len() - pos
            } else {
                0
            },
    when 0 <= pos
    via scanned_from_decreases
{
    match at_block_type(s, pos) {
        Err(e) => if e == ReaderError::Io {
            Ok(scan)
        } else {
            Err(e)
        },
        Ok(tpe) => match after_block(s, pos + 1, tpe, scan) {
            Err(e) => Err(e),
            Ok((next, None)) => Ok(next),
            Ok((next, Some(end))) => scanned_from(s, end, next),
        },
    }
}

#[via_fn]
proof fn scanned_from_decreases(s: Seq<u8>, pos: int, scan: ScanView) {
    if let Ok(tpe) = at_block_type(s, pos) {
        lemma_block_advances(s, pos + 1, tpe, scan);
    }
}

pub proof fn lemma_blackouts_end(s: Seq<u8>, pos: int, n: nat, last: u64)
    ensures
        crate::blocks::at_blackout_list(s, pos, n, last) matches Ok((_, end)) ==> pos <= end,
    decreases n,
{
    if n > 0 {
        if let Ok((_, p)) = crate::primitives::at_u8(s, pos) {
            if let Ok((delta, q)) = crate::primitives::at_variant_u64(s, p) {
                if last + delta <= u64::MAX {
                    lemma_blackouts_end(s, q, (n - 1) as nat, (last + delta) as u64);
                }
            }
        }
    }
}

pub proof fn lemma_block_advances(s: Seq<u8>, start: int, tpe: BlockType, scan: ScanView)
    ensures
        after_block(s, start, tpe, scan) matches Ok((_, Some(end))) ==> start <= end,
{
    reveal(after_block);
    reveal(after_data);
    reveal(after_hierarchy);
    reveal(at_blackouts);
    if let Ok((_, p)) = at_u64(s, start) {
        if let Ok((n, q)) = crate::primitives::at_variant_u32(s, p) {
            lemma_blackouts_end(s, q, n as nat, 0);
        }
    }
}

/// What a scan from the block at `pos` on has found when it ends, be it with an
/// error: then what it found in front of the block that failed.
pub open spec fn reached(s: Seq<u8>, pos: int, scan: ScanView) -> ScanView
    decreases
            if pos < s.len() {
                s.len() - pos
            } else {
                0
            },
    when 0 <= pos
    via reached_decreases
{
    match at_block_type(s, pos) {
        Err(_) => scan,
        Ok(tpe) => match after_block(s, pos + 1, tpe, scan) {
            Err(_) => scan,
            Ok((next, None)) => next,
            Ok((next, Some(end))) => reached(s, end, next),
        },
    }
}

#[via_fn]
proof fn reached_decreases(s: Seq<u8>, pos: int, scan: ScanView) {
    if let Ok(tpe) = at_block_type(s, pos) {
        lemma_block_advances(s, pos + 1, tpe, scan);
    }
}

/// What a scan over the whole file finds.
pub open spec fn scanned(s: Seq<u8>, read_time_table: bool) -> Result<ScanView> {
    scanned_from(s, 0, nothing_found(read_time_table))
}

/// A finished file has a geometry and a hierarchy.
pub open spec fn finished(scan: ScanView) -> Result<()> {
    if scan.signals is None {
        Err(ReaderError::MissingGeometry)
    } else if scan.hierarchy is None {
        Err(ReaderError::MissingHierarchy)
    } else {
        Ok(())
    }
}

/// What is known of a file, once the scan has found all of it.
pub open spec fn meta_of(scan: ScanView) -> Result<MetaView> {
    match (scan.header, scan.signals, scan.hierarchy) {
        (None, _, _) => Err(ReaderError::MissingHeader),
        (_, None, _) => Err(ReaderError::MissingGeometry),
        (_, _, None) => Err(ReaderError::MissingHierarchy),
        (Some(header), Some(signals), Some((compression, offset))) => Ok(
            MetaView {
                header,
                signals,
                blackouts: match scan.blackouts {
                    Some(blackouts) => blackouts,
                    None => Seq::empty(),
                },
                data_sections: scan.data_sections,
                float_endian: scan.float_endian,
                hierarchy_compression: compression,
                hierarchy_offset: offset,
                time_table: scan.time_table,
            },
        ),
    }
}

/// What is known of a finished file.
pub open spec fn meta_of_file(s: Seq<u8>, read_time_table: bool) -> Result<MetaView> {
    match scanned(s, read_time_table) {
        Err(e) => Err(e),
        Ok(scan) => match finished(scan) {
            Err(e) => Err(e),
            Ok(_) => meta_of(scan),
        },
    }
}

/// The scan, with a hierarchy: if none was found, that of another file.
pub open spec fn with_hierarchy(scan: ScanView) -> ScanView {
    ScanView {
        hierarchy: match scan.hierarchy {
            Some(place) => Some(place),
            None => Some((HierarchyCompression::Uncompressed, 0)),
        },
        ..scan
    }
}

/// The scan of a file that was not finished, with its geometry taken from the
/// hierarchy in another file.
pub open spec fn repaired(scan: ScanView, hierarchy: Seq<u8>) -> Result<ScanView> {
    match finished(scan) {
        Ok(_) => Ok(scan),
        Err(_) => match geometry_of(hierarchy) {
            Err(e) => Err(e),
            Ok(signals) => Ok(ScanView { signals: Some(signals), ..with_hierarchy(scan) }),
        },
    }
}

/// What is known of a file that was not finished, and whether it has a hierarchy
/// of its own.
pub open spec fn meta_of_incomplete(s: Seq<u8>, hierarchy: Seq<u8>, read_time_table: bool) -> Result<
    (MetaView, bool),
> {
    match scanned(s, read_time_table) {
        Err(e) => Err(e),
        Ok(scan) => match repaired(scan, hierarchy) {
            Err(e) => Err(e),
            Ok(whole) => match meta_of(whole) {
                Err(e) => Err(e),
                Ok(meta) => Ok((meta, scan.hierarchy is Some)),
            },
        },
    }
}

/// A scan over the blocks of a file.
pub struct HeaderReader<'a> {
    pub input: &'a [u8],
    pub header: Option<Header>,
    pub signals: Option<Vec<SignalInfo>>,
    pub blackouts: Option<Vec<BlackoutData>>,
    pub data_sections: Vec<DataSectionInfo>,
    pub float_endian: FloatingPointEndian,
    pub hierarchy: Option<(HierarchyCompression, u64)>,
    pub time_table: Option<Vec<u64>>,
    pub is_incomplete: bool,
}

impl<'a> View for HeaderReader<'a> {
    type V = ScanView;

    open spec fn view(&self) -> ScanView {
        ScanView {
            header: match self.header {
                Some(header) => Some(header@),
                None => None,
            },
            signals: match self.signals {
                Some(signals) => Some(signals@),
                None => None,
            },
            blackouts: match self.blackouts {
                Some(blackouts) => Some(blackouts@),
                None => None,
            },
            data_sections: self.data_sections@,
            float_endian: self.float_endian,
            hierarchy: self.hierarchy,
            time_table: table_view(self.time_table),
            is_incomplete: self.is_incomplete,
        }
    }
}

impl<'a> HeaderReader<'a> {
    /// There are few enough signals for each to have a handle.
    pub open spec fn wf(self) -> bool {
        self.signals matches Some(signals) ==> signals@.len() < u32::MAX
    }

    pub fn new(input: &'a [u8], read_time_table: bool) -> (r: HeaderReader<'a>)
        ensures
            r.input == input,
            r.wf(),
            r@ == nothing_found(read_time_table),
    {
        let time_table: Option<Vec<u64>> = if read_time_table {
            Some(Vec::new())
        } else {
            None
        };
        HeaderReader {
            input,
            header: None,
            signals: None,
            blackouts: None,
            data_sections: Vec::new(),
            float_endian: FloatingPointEndian::Little,
            hierarchy: None,
            time_table,
            is_incomplete: false,
        }
    }

    /// The place behind a block, or the end of the input if the block ends behind it.
    fn skip(&self, start: u64, length: u64) -> (r: Result<u64>)
        requires
            start <= self.input@.len(),
        ensures
            match (r, block_end(start as int, length)) {
                (Ok(n), Ok(m)) => start <= n && n == (if m <= self.input@.len() {
                    m
                } else {
                    self.input@.len() as int
                }),
                (Err(e), Err(f)) => e == f,
                _ => false,
            },
    {
        let len: u64 = self.input.len() as u64;
        if length > MAX_SECTION_LENGTH {
            return Err(ReaderError::Malformed);
        }
        if length <= len - start {
            Ok(start + length)
        } else {
            Ok(len)
        }
    }

    /// Reads the times of a section, if there is to be a table of them.
    fn read_section_times(&self, start: u64, head: &SectionHead) -> (r: Result<Vec<u64>>)
        ensures
            match (r, table_after(self.input@, start as int, *head, self@.time_table)) {
                (Ok(times), Ok(table)) => match self@.time_table {
                    None => table is None,
                    Some(before) => table == Some(
                        joined_times(before, head.start_time, times@),
                    ),
                },
                (Err(e), Err(f)) => e == f,
                _ => false,
            },
    {
        if self.time_table.is_none() {
            return Ok(Vec::new());
        }
        let (_, times) = read_time_table(self.input, start, head.length)?;
        Ok(times)
    }

    /// Takes the times of a section into the table, if there is one.
    fn add_times(&mut self, start_time: u64, times: Vec<u64>)
        ensures
            *final(self) == (HeaderReader { time_table: final(self).time_table, ..*old(self) }),
            final(self)@.time_table == (match old(self)@.time_table {
                None => None,
                Some(before) => Some(joined_times(before, start_time, times@)),
            }),
    {
        match self.time_table.take() {
            None => {},
            Some(before) => {
                let mut table = before;
                let mut times = times;
                let ghost old_table = table@;
                let ghost new_times = times@;
                if table.len() == 0 && (times.len() == 0 || times[0] > start_time) {
                    table.push(start_time);
                    assert(table@ =~= seq![start_time]);
                }
                table.append(&mut times);
                assert(table@ =~= joined_times(old_table, start_time, new_times));
                self.time_table = Some(table);
            },
        }
    }

    fn read_data(&mut self, start: u64, kind: DataSectionKind) -> (r: Result<u64>)
        requires
            old(self).wf(),
        ensures
            final(self).input == old(self).input,
            final(self).wf(),
            match (r, after_data(old(self).input@, start as int, kind, old(self)@)) {
                (Ok(n), Ok((next, end))) => start <= n && final(self)@ == next && n == (if end
                    <= old(self).input@.len() {
                    end
                } else {
                    old(self).input@.len() as int
                }),
                (Err(e), Err(f)) => e == f && final(self)@ == old(self)@,
                _ => false,
            },
    {
        reveal(after_data);
        let len: usize = self.input.len();
        let head = read_section_head(self.input, start)?;
        let (mem, _) = read_u64(self.input, start + 24)?;
        let times = self.read_section_times(start, &head)?;
        let end: u64 = self.skip(start, head.length)?;
        self.add_times(head.start_time, times);
        let info = DataSectionInfo {
            file_offset: start,
            start_time: head.start_time,
            end_time: head.end_time,
            kind,
            mem_required_for_traversal: mem,
        };
        if let Some(mut header) = self.header.take() {
            if self.data_sections.len() == 0 {
                self.is_incomplete = header.start_time == 0 && header.end_time == 0;
                if self.is_incomplete {
                    header.start_time = head.start_time;
                }
            }
            if self.is_incomplete {
                header.end_time = head.end_time;
            }
            self.header = Some(header);
        }
        self.data_sections.push(info);
        Ok(end)
    }
}

impl<'a> HeaderReader<'a> {
    /// Notes where the hierarchy is. Only a single hierarchy block is expected.
    fn read_hierarchy(&mut self, start: u64, compression: HierarchyCompression) -> (r: Result<u64>)
        requires
            old(self).wf(),
            old(self).hierarchy is None,
        ensures
            final(self).input == old(self).input,
            final(self).wf(),
            match (r, after_hierarchy(old(self).input@, start as int, compression, old(self)@)) {
                (Ok(n), Ok((next, end))) => start <= n && final(self)@ == next && n == (if end
                    <= old(self).input@.len() {
                    end
                } else {
                    old(self).input@.len() as int
                }),
                (Err(e), Err(f)) => e == f && final(self)@ == old(self)@,
                _ => false,
            },
    {
        reveal(after_hierarchy);
        let (length, _) = read_u64(self.input, start)?;
        let end: u64 = self.skip(start, length)?;
        self.hierarchy = Some((compression, start));
        Ok(end)
    }

    /// Reads the block whose length field is at `start`. Returns where to go on, if the scan does.
    fn read_block(&mut self, start: u64, tpe: BlockType) -> (r: Result<Option<u64>>)
        requires
            old(self).wf(),
        ensures
            final(self).input == old(self).input,
            final(self).wf(),
            match (r, after_block(old(self).input@, start as int, tpe, old(self)@)) {
                (Ok(Some(n)), Ok((next, Some(end)))) => start <= n && final(self)@ == next && n == (
                if end <= old(self).input@.len() {
                    end
                } else {
                    old(self).input@.len() as int
                }),
                (Ok(None), Ok((next, None))) => final(self)@ == next,
                (Err(e), Err(f)) => e == f && final(self)@ == old(self)@,
                _ => false,
            },
    {
        reveal(after_block);
        let len: usize = self.input.len();
        let is_hierarchy = matches!(
            tpe,
            BlockType::Hierarchy | BlockType::HierarchyLZ4 | BlockType::HierarchyLZ4Duo
        );
        if is_hierarchy && self.hierarchy.is_some() {
            reveal(after_hierarchy);
            return Err(ReaderError::Malformed);
        }
        match tpe {
            BlockType::Header => {
                let (header, endian) = read_header(self.input, start)?;
                self.header = Some(header);
                self.float_endian = endian;
                Ok(Some(start + HEADER_LENGTH))
            },
            BlockType::VcData | BlockType::VcDataDynamicAlias | BlockType::VcDataDynamicAlias2 => {
                match DataSectionKind::from_block_type(&tpe) {
                    Some(kind) => {
                        let end: u64 = self.read_data(start, kind)?;
                        Ok(Some(end))
                    },
                    None => Err(ReaderError::BlockType),
                }
            },
            BlockType::Blackout => {
                let (end, blackouts) = read_blackout(self.input, start)?;
                self.blackouts = Some(blackouts);
                Ok(Some(end))
            },
            BlockType::Geometry => {
                let (length, signals) = read_geometry(self.input, start)?;
                self.signals = Some(signals);
                Ok(Some(start + length))
            },
            BlockType::Hierarchy => {
                let end: u64 = self.read_hierarchy(start, HierarchyCompression::ZLib)?;
                Ok(Some(end))
            },
            BlockType::HierarchyLZ4 => {
                let end: u64 = self.read_hierarchy(start, HierarchyCompression::Lz4)?;
                Ok(Some(end))
            },
            BlockType::HierarchyLZ4Duo => {
                let end: u64 = self.read_hierarchy(start, HierarchyCompression::Lz4Duo)?;
                Ok(Some(end))
            },
            BlockType::GZipWrapper => Err(ReaderError::Malformed),
            BlockType::Skip => {
                let (length, _) = read_u64(self.input, start)?;
                if length == 0 {
                    return Ok(None);
                }
                let end: u64 = self.skip(start, length)?;
                Ok(Some(end))
            },
        }
    }

    /// Runs over all blocks, up to the first that cannot be read.
    pub fn scan(&mut self) -> (r: Result<()>)
        requires
            old(self).wf(),
        ensures
            final(self).input == old(self).input,
            final(self).wf(),
            final(self)@ == reached(old(self).input@, 0, old(self)@),
            match (r, scanned_from(old(self).input@, 0, old(self)@)) {
                (Ok(_), Ok(scan)) => final(self)@ == scan,
                (Err(e), Err(f)) => e == f,
                _ => false,
            },
    {
        let ghost s = self.input@;
        let ghost last = reached(s, 0, self@);
        let ghost whole = scanned_from(s, 0, self@);
        let len: u64 = self.input.len() as u64;
        let mut pos: u64 = 0;
        while pos < len
            invariant
                self.input == old(self).input,
                s == self.input@,
                len == s.len(),
                self.wf(),
                pos <= len,
                whole == scanned_from(s, 0, old(self)@),
                whole == scanned_from(s, pos as int, self@),
                last == reached(s, 0, old(self)@),
                last == reached(s, pos as int, self@),
            decreases len - pos,
        {
            let tpe = read_block_tpe(self.input, pos)?;
            let ghost before = self@;
            match self.read_block(pos + 1, tpe)? {
                None => {
                    return Ok(());
                },
                Some(next) => {
                    proof {
                        let end = after_block(s, pos + 1, tpe, before)->Ok_0.1->0;
                        lemma_past_end(s, end, self@);
                        lemma_past_end(s, len as int, self@);
                    }
                    pos = next;
                },
            }
        }
        proof {
            lemma_past_end(s, pos as int, self@);
        }
        Ok(())
    }

    /// Checks that the scan has found a geometry and a hierarchy.
    pub fn check_finished(&self) -> (r: Result<()>)
        ensures
            r == finished(self@),
    {
        if self.signals.is_none() {
            return Err(ReaderError::MissingGeometry);
        }
        if self.hierarchy.is_none() {
            return Err(ReaderError::MissingHierarchy);
        }
        Ok(())
    }

    /// Reads the blocks of a finished file.
    pub fn read(&mut self) -> (r: Result<()>)
        requires
            old(self).wf(),
        ensures
            final(self).input == old(self).input,
            final(self).wf(),
            final(self)@ == reached(old(self).input@, 0, old(self)@),
            match scanned_from(old(self).input@, 0, old(self)@) {
                Err(e) => r == Err::<(), ReaderError>(e),
                Ok(scan) => final(self)@ == scan && r == finished(scan),
            },
    {
        self.scan()?;
        self.check_finished()
    }

    /// Takes what is missing in a file that was not finished from `hierarchy`.
    pub fn repair(&mut self, hierarchy: &[u8]) -> (r: Result<()>)
        requires
            old(self).wf(),
        ensures
            final(self).wf(),
            final(self).input == old(self).input,
            match (r, repaired(old(self)@, hierarchy@)) {
                (Ok(_), Ok(scan)) => final(self)@ == scan,
                (Err(e), Err(f)) => e == f && final(self)@ == with_hierarchy(old(self)@),
                _ => false,
            },
    {
        match self.check_finished() {
            Ok(_) => Ok(()),
            Err(_) => {
                if self.hierarchy.is_none() {
                    self.hierarchy = Some((HierarchyCompression::Uncompressed, 0));
                }
                let signals = reconstruct_geometry(hierarchy)?;
                self.signals = Some(signals);
                Ok(())
            },
        }
    }

    /// Gives out what the scan has found.
    pub fn into_meta_data(self) -> (r: Result<MetaData>)
        requires
            self.wf(),
        ensures
            match (r, meta_of(self@)) {
                (Ok(meta), Ok(view)) => meta@ == view && meta.wf(),
                (Err(e), Err(f)) => e == f,
                _ => false,
            },
    {
        let header = match self.header {
            Some(header) => header,
            None => {
                return Err(ReaderError::MissingHeader);
            },
        };
        let signals = match self.signals {
            Some(signals) => signals,
            None => {
                return Err(ReaderError::MissingGeometry);
            },
        };
        let (compression, offset) = match self.hierarchy {
            Some(place) => place,
            None => {
                return Err(ReaderError::MissingHierarchy);
            },
        };
        let blackouts = match self.blackouts {
            Some(blackouts) => blackouts,
            None => Vec::new(),
        };
        Ok(
            MetaData {
                header,
                signals,
                blackouts,
                data_sections: self.data_sections,
                float_endian: self.float_endian,
                hierarchy_compression: compression,
                hierarchy_offset: offset,
                time_table: self.time_table,
            },
        )
    }
}

/// Reads what is to be known of a finished file.
pub fn read_meta_data(input: &[u8], read_time_table: bool) -> (r: Result<MetaData>)
    ensures
        match (r, meta_of_file(input@, read_time_table)) {
            (Ok(meta), Ok(view)) => meta@ == view && meta.wf(),
            (Err(e), Err(f)) => e == f,
            _ => false,
        },
{
    let mut reader = HeaderReader::new(input, read_time_table);
    reader.read()?;
    reader.into_meta_data()
}

/// Reads what is to be known of a file that was not finished, and whether it has
/// a hierarchy of its own.
pub fn read_incomplete_meta_data(input: &[u8], hierarchy: &[u8], read_time_table: bool) -> (r: Result<
    (MetaData, bool),
>)
    ensures
        match (r, meta_of_incomplete(input@, hierarchy@, read_time_table)) {
            (Ok((meta, own)), Ok(view)) => meta@ == view.0 && own == view.1 && meta.wf(),
            (Err(e), Err(f)) => e == f,
            _ => false,
        },
{
    let mut reader = HeaderReader::new(input, read_time_table);
    reader.scan()?;
    let own_hierarchy: bool = reader.hierarchy.is_some();
    reader.repair(hierarchy)?;
    let meta = reader.into_meta_data()?;
    Ok((meta, own_hierarchy))
}

/// Behind the last byte there are no blocks.
proof fn lemma_past_end(s: Seq<u8>, pos: int, scan: ScanView)
    ensures
        pos >= s.len() ==> scanned_from(s, pos, scan) == Ok::<ScanView, ReaderError>(scan)
            && reached(s, pos, scan) == scan,
{
}

} // verus!
