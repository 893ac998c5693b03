//! What opening a file tells.

use crate::blocks::{at_blackouts, at_block_type, at_geometry, at_header};
use crate::compression::raw_inflate_reply;
use crate::gzip::{accepted, gunzipped, gzip_header, inflated_from, window_at, GZIP_ROOM};
use crate::header::{
    after_block, after_data, after_hierarchy, block_end, finished, lemma_block_advances,
    nothing_found, scanned, scanned_from, MAX_SECTION_LENGTH, MetaView, ScanView,
};
use crate::hierarchy::geometry_of;
use crate::laws::latest::{all_anchored, anchored};
use crate::primitives::at_u64;
use crate::reader::{could_be_fst, fst_from, opened, opened_incomplete, unwrapped, ReaderView};
use crate::types::{BlockType, HierarchyCompression, ReaderError};
use vstd::prelude::*;

verus! {

proof fn lemma_scan_anchored(s: Seq<u8>, pos: int, scan: ScanView)
    requires
        0 <= pos,
        s.len() <= u64::MAX,
        all_anchored(s, scan.data_sections),
    ensures
        scanned_from(s, pos, scan) matches Ok(result) ==> all_anchored(s, result.data_sections),
    decreases
            if pos < s.len() {
                s.len() - pos
            } else {
                0
            },
{
    if let Ok(tpe) = at_block_type(s, pos) {
        lemma_block_advances(s, pos + 1, tpe, scan);
        if let Ok((next, end)) = after_block(s, pos + 1, tpe, scan) {
            assert(all_anchored(s, next.data_sections)) by {
                reveal(after_block);
                reveal(after_data);
                reveal(after_hierarchy);
                assert forall|k: int| 0 <= k < next.data_sections.len() implies #[trigger] anchored(
                    s,
                    next.data_sections[k],
                ) by {
                    if k < scan.data_sections.len() {
                        assert(anchored(s, scan.data_sections[k]));
                        assert(next.data_sections[k] == scan.data_sections[k]);
                    }
                }
            }
            if let Some(end) = end {
                lemma_scan_anchored(s, end, next);
            }
        }
    }
}

/// What is known of the data sections of an open file is what the bytes of the
/// file say.
pub proof fn open_knows_the_sections(s: Seq<u8>, hierarchy: Seq<u8>, read_time_table: bool)
    ensures
        opened(s, read_time_table) matches Ok(view) ==> (view.data.len() <= u64::MAX
            ==> all_anchored(view.data, view.meta.data_sections)),
        opened_incomplete(s, hierarchy, read_time_table) matches Ok(view) ==> (view.data.len()
            <= u64::MAX ==> all_anchored(view.data, view.meta.data_sections)),
{
    if let Ok(data) = unwrapped(s) {
        if data.len() <= u64::MAX {
            lemma_scan_anchored(data, 0, nothing_found(read_time_table));
        }
    }
}

/// A scan without a table of times.
pub open spec fn without_times(scan: ScanView) -> ScanView {
    ScanView { time_table: None, ..scan }
}

proof fn lemma_block_without_times(s: Seq<u8>, start: int, tpe: BlockType, scan: ScanView)
    ensures
        after_block(s, start, tpe, scan) matches Ok((next, end)) ==> after_block(
            s,
            start,
            tpe,
            without_times(scan),
        ) == Ok::<(ScanView, Option<int>), ReaderError>((without_times(next), end)),
{
    reveal(after_block);
    reveal(after_data);
    reveal(after_hierarchy);
}

proof fn lemma_scan_without_times(s: Seq<u8>, pos: int, scan: ScanView)
    requires
        0 <= pos,
    ensures
        scanned_from(s, pos, scan) matches Ok(result) ==> scanned_from(s, pos, without_times(scan))
            == Ok::<ScanView, ReaderError>(without_times(result)),
    decreases
            if pos < s.len() {
                s.len() - pos
            } else {
                0
            },
{
    if let Ok(tpe) = at_block_type(s, pos) {
        lemma_block_advances(s, pos + 1, tpe, scan);
        lemma_block_without_times(s, pos + 1, tpe, scan);
        if let Ok((next, end)) = after_block(s, pos + 1, tpe, scan) {
            if let Some(end) = end {
                lemma_scan_without_times(s, end, next);
            }
        }
    }
}

/// Where a file can be opened with its table of times, it can be opened without,
/// and the table is the only difference.
pub proof fn time_table_is_the_only_difference(s: Seq<u8>)
    ensures
        opened(s, true) matches Ok(view) ==> opened(s, false) == Ok::<ReaderView, ReaderError>(
            ReaderView { meta: MetaView { time_table: None, ..view.meta }, ..view },
        ),
{
    if let Ok(data) = unwrapped(s) {
        lemma_scan_without_times(data, 0, nothing_found(true));
        assert(without_times(nothing_found(true)) == nothing_found(false));
    }
}

/// A finished file is read the same way whether it is opened as finished or not.
pub proof fn finished_files_need_no_repair(s: Seq<u8>, hierarchy: Seq<u8>, read_time_table: bool)
    ensures
        opened(s, read_time_table) is Ok ==> opened_incomplete(s, hierarchy, read_time_table)
            == opened(s, read_time_table),
{
}

/// Where only the geometry or the hierarchy is missing, a `.hier` file that can
/// be read makes up for it: the geometry is then the one that it tells, and a
/// missing hierarchy is read from its beginning.
pub proof fn missing_blocks_are_reconstructed(s: Seq<u8>, hierarchy: Seq<u8>, read_time_table: bool)
    requires
        unwrapped(s) matches Ok(data) && scanned(data, read_time_table) matches Ok(scan)
            && scan.header is Some && finished(scan) is Err,
        geometry_of(hierarchy) is Ok,
    ensures
        opened(s, read_time_table) == Err::<ReaderView, ReaderError>(
            ReaderError::MissingGeometry,
        ) || opened(s, read_time_table) == Err::<ReaderView, ReaderError>(
            ReaderError::MissingHierarchy,
        ),
        opened_incomplete(s, hierarchy, read_time_table) matches Ok(view) && {
            let data = unwrapped(s)->Ok_0;
            &&& view.meta.signals == geometry_of(hierarchy)->Ok_0
            &&& match scanned(data, read_time_table)->Ok_0.hierarchy {
                Some((compression, offset)) => view.hierarchy == data
                    && view.meta.hierarchy_compression == compression
                    && view.meta.hierarchy_offset == offset,
                None => view.hierarchy == hierarchy && view.meta.hierarchy_compression
                    == HierarchyCompression::Uncompressed && view.meta.hierarchy_offset == 0,
            }
        },
{
}

/// A file in a gzip wrapper is opened like the file inside.
pub proof fn wrapper_is_transparent(s: Seq<u8>, read_time_table: bool)
    requires
        unwrapped(s) matches Ok(data) && !(at_block_type(data, 0) == Ok::<BlockType, ReaderError>(
            BlockType::GZipWrapper,
        )) && at_block_type(data, 0) is Ok,
    ensures
        opened(s, read_time_table) == opened(unwrapped(s)->Ok_0, read_time_table),
{
}

proof fn lemma_scan_could_be(s: Seq<u8>, pos: int, scan: ScanView)
    requires
        0 <= pos,
        s.len() <= MAX_SECTION_LENGTH,
    ensures
        scanned_from(s, pos, scan) matches Ok(result) ==> fst_from(s, pos, scan.header is Some)
            == Ok::<bool, ReaderError>(result.header is Some),
    decreases
            if pos < s.len() {
                s.len() - pos
            } else {
                0
            },
{
    if let Ok(tpe) = at_block_type(s, pos) {
        lemma_block_advances(s, pos + 1, tpe, scan);
        if let Ok((next, end)) = after_block(s, pos + 1, tpe, scan) {
            lemma_block_could_be(s, pos + 1, tpe, scan);
            if let Some(end) = end {
                lemma_scan_could_be(s, end, next);
            }
        }
    }
}

proof fn lemma_block_could_be(s: Seq<u8>, start: int, tpe: BlockType, scan: ScanView)
    requires
        0 <= start,
        s.len() <= MAX_SECTION_LENGTH,
        after_block(s, start, tpe, scan) is Ok,
    ensures
        ({
            let (next, end) = after_block(s, start, tpe, scan)->Ok_0;
            &&& !(tpe is GZipWrapper)
            &&& at_u64(s, start) matches Ok((length, _)) && (match end {
                None => tpe is Skip && length == 0,
                Some(end) => !(tpe is Skip && length == 0) && block_end(start, length) == Ok::<
                    int,
                    ReaderError,
                >(end),
            })
            &&& next.header is Some <==> (scan.header is Some || tpe is Header)
        }),
{
    reveal(after_block);
    reveal(after_data);
    reveal(after_hierarchy);
    reveal(at_header);
    reveal(at_geometry);
    reveal(at_blackouts);
    match tpe {
        BlockType::Blackout => {
            let (length, p) = at_u64(s, start)->Ok_0;
            let (n, q) = crate::primitives::at_variant_u32(s, p)->Ok_0;
            crate::primitives::lemma_leb_len_bound(s, p, 5);
            lemma_blackouts_inside(s, q, n as nat, 0);
        },
        _ => {},
    }
}

proof fn lemma_blackouts_inside(s: Seq<u8>, pos: int, n: nat, last: u64)
    requires
        pos <= s.len(),
    ensures
        crate::blocks::at_blackout_list(s, pos, n, last) matches Ok((_, end)) ==> end <= s.len(),
    decreases n,
{
    if n > 0 {
        if let Ok((_, p)) = crate::primitives::at_u8(s, pos) {
            crate::primitives::lemma_leb_len_bound(s, p, 10);
            if let Ok((delta, q)) = crate::primitives::at_variant_u64(s, p) {
                if last + delta <= u64::MAX {
                    lemma_blackouts_inside(s, q, (n - 1) as nat, (last + delta) as u64);
                }
            }
        }
    }
}

/// Whatever can be opened is recognised as an FST file.
pub proof fn open_files_are_recognised(s: Seq<u8>, read_time_table: bool)
    requires
        s.len() <= MAX_SECTION_LENGTH,
        opened(s, read_time_table) is Ok,
    ensures
        could_be_fst(s),
{
    let data = unwrapped(s)->Ok_0;
    if at_block_type(s, 0) != Ok::<BlockType, ReaderError>(BlockType::GZipWrapper) {
        lemma_scan_could_be(s, 0, nothing_found(read_time_table));
    }
}

/// Once the file is known not to be finished, its header has the times of its
/// data sections: the start of the first, and the end of the last.
pub open spec fn times_inferred(scan: ScanView) -> bool {
    scan.is_incomplete ==> scan.data_sections.len() > 0 && (scan.header matches Some(header)
        ==> header.start_time == scan.data_sections[0].start_time && header.end_time
        == scan.data_sections.last().end_time)
}

/// From the block at `pos` on, no header comes behind a data section.
pub open spec fn headers_come_first(s: Seq<u8>, pos: int, scan: ScanView) -> bool
    decreases
            if pos < s.len() {
                s.len() - pos
            } else {
                0
            },
    when 0 <= pos
    via headers_come_first_decreases
{
    match at_block_type(s, pos) {
        Err(_) => true,
        Ok(tpe) => {
            &&& tpe is Header ==> scan.data_sections.len() == 0
            &&& match after_block(s, pos + 1, tpe, scan) {
                Ok((next, Some(end))) => headers_come_first(s, end, next),
                _ => true,
            }
        },
    }
}

#[via_fn]
proof fn headers_come_first_decreases(s: Seq<u8>, pos: int, scan: ScanView) {
    if let Ok(tpe) = at_block_type(s, pos) {
        lemma_block_advances(s, pos + 1, tpe, scan);
    }
}

proof fn lemma_times_inferred(s: Seq<u8>, pos: int, scan: ScanView)
    requires
        0 <= pos,
        times_inferred(scan),
        headers_come_first(s, pos, scan),
    ensures
        scanned_from(s, pos, scan) matches Ok(result) ==> times_inferred(result),
    decreases
            if pos < s.len() {
                s.len() - pos
            } else {
                0
            },
{
    if let Ok(tpe) = at_block_type(s, pos) {
        lemma_block_advances(s, pos + 1, tpe, scan);
        if let Ok((next, end)) = after_block(s, pos + 1, tpe, scan) {
            assert(times_inferred(next)) by {
                reveal(after_block);
                reveal(after_data);
                reveal(after_hierarchy);
            }
            if let Some(end) = end {
                lemma_times_inferred(s, end, next);
            }
        }
    }
}

/// The times of a file that was not finished are inferred from its data sections.
pub proof fn unfinished_files_have_the_times_of_their_sections(s: Seq<u8>, read_time_table: bool)
    requires
        headers_come_first(s, 0, nothing_found(read_time_table)),
    ensures
        scanned(s, read_time_table) matches Ok(scan) ==> times_inferred(scan),
{
    lemma_times_inferred(s, 0, nothing_found(read_time_table));
}

/// What a gzip stream gives is never longer than what was asked of it.
pub proof fn gunzipped_is_no_longer_than_asked(s: Seq<u8>, pos: int, length: nat)
    ensures
        gunzipped(s, pos, length) matches Ok(bytes) ==> bytes.len() <= length,
{
    if let Ok(body) = gzip_header(s, pos) {
        lemma_inflated_len(Seq::empty(), s, body, length);
    }
}

proof fn lemma_inflated_len(calls: Seq<(Seq<u8>, nat)>, s: Seq<u8>, pos: int, remaining: nat)
    requires
        0 <= pos <= s.len(),
    ensures
        inflated_from(calls, s, pos, remaining) matches Ok(bytes) ==> bytes.len() <= remaining,
    decreases s.len() - pos + remaining,
{
    if remaining > 0 {
        let window = window_at(s, pos);
        let reply = raw_inflate_reply(calls, window, GZIP_ROOM as nat);
        if let Ok((kept, more)) = accepted(reply, window.len(), remaining) {
            if more {
                lemma_inflated_len(
                    calls.push((window, GZIP_ROOM as nat)),
                    s,
                    pos + reply.0,
                    (remaining - kept.len()) as nat,
                );
            }
        }
    }
}

/// Nothing makes up for a missing header.
pub proof fn headers_are_not_reconstructed(s: Seq<u8>, hierarchy: Seq<u8>, read_time_table: bool)
    requires
        unwrapped(s) matches Ok(data) && scanned(data, read_time_table) matches Ok(scan)
            && scan.header is None,
    ensures
        opened(s, read_time_table) is Err,
        opened_incomplete(s, hierarchy, read_time_table) is Err,
{
}

} // verus!
