//! Files read back as they were written, block by block.

use crate::blocks::{at_block_type, HeaderView};
use crate::header::{
    after_block, after_data, after_hierarchy, lemma_block_advances, nothing_found, reached,
    scanned_from, MetaView, ScanView,
};
use crate::laws::blocks::{
    blackout_block, blackouts_ascend, blackouts_read_back, block_tag, block_tag_reads_back,
    data_block, geometry_block, geometry_bytes, geometry_reads_back, header_bytes,
    header_reads_back, header_writable,
};
use crate::laws::encoding::{be_bytes, lemma_eight_bytes, lemma_stands, stands_at, u64_reads_back};
use crate::laws::frames::stores;
use crate::laws::sections::{
    section_bytes, section_head_reads_back, section_reads_back, section_writable, SectionParts,
};
use crate::primitives::at_u64;
use crate::reader::{could_be_fst, fst_from, opened, ReaderView};
use crate::types::{
    BlackoutData, BlockType, DataSectionInfo, DataSectionKind, FloatingPointEndian,
    HierarchyCompression, ReaderError, SignalInfo,
};
use vstd::prelude::*;

verus! {

/// A block to be written.
pub enum Block {
    Header(HeaderView, FloatingPointEndian),
    Section(DataSectionKind, SectionParts),
    Blackouts(Seq<BlackoutData>),
    /// the signals, and what their numbers are stored as
    Geometry(Seq<SignalInfo>, Seq<u8>),
    /// how the hierarchy is packed, and what it is stored as
    Hierarchy(HierarchyCompression, Seq<u8>),
    Skipped(Seq<u8>),
}

/// The type of a block.
pub open spec fn type_of(block: Block) -> BlockType {
    match block {
        Block::Header(_, _) => BlockType::Header,
        Block::Section(kind, _) => data_block(kind),
        Block::Blackouts(_) => BlockType::Blackout,
        Block::Geometry(_, _) => BlockType::Geometry,
        Block::Hierarchy(compression, _) => match compression {
            HierarchyCompression::Lz4 => BlockType::HierarchyLZ4,
            HierarchyCompression::Lz4Duo => BlockType::HierarchyLZ4Duo,
            _ => BlockType::Hierarchy,
        },
        Block::Skipped(_) => BlockType::Skip,
    }
}

/// Bytes behind their length, which counts its own eight bytes.
pub open spec fn behind_length(body: Seq<u8>) -> Seq<u8> {
    be_bytes((8 + body.len()) as u64) + body
}

/// What follows the tag of a block, with its length in front.
pub open spec fn body_of(block: Block) -> Seq<u8> {
    match block {
        Block::Header(h, endian) => header_bytes(h, endian),
        Block::Section(kind, parts) => section_bytes(kind, parts),
        Block::Blackouts(blackouts) => blackout_block(blackouts),
        Block::Geometry(signals, raw) => geometry_block(signals, raw),
        Block::Hierarchy(_, body) => behind_length(body),
        Block::Skipped(body) => behind_length(body),
    }
}

/// A block in its written form.
pub open spec fn block_bytes(block: Block) -> Seq<u8> {
    seq![block_tag(type_of(block))] + body_of(block)
}

/// The header tells the times of the file.
pub open spec fn tells_times(h: HeaderView) -> bool {
    h.start_time != 0 || h.end_time != 0
}

/// The block can be written.
pub open spec fn block_writable(block: Block) -> bool {
    match block {
        Block::Header(h, _) => header_writable(h) && tells_times(h),
        Block::Section(kind, parts) => section_writable(kind, parts),
        Block::Blackouts(blackouts) => blackouts.len() <= u32::MAX && blackouts_ascend(
            blackouts,
            0,
        ),
        Block::Geometry(signals, raw) => {
            &&& signals.len() < u32::MAX
            &&& geometry_bytes(signals).len() <= u64::MAX
            &&& forall|k: int|
                0 <= k < signals.len() ==> #[trigger] signals[k] != SignalInfo::BitVec(u32::MAX)
            &&& stores(raw, geometry_bytes(signals))
        },
        Block::Hierarchy(compression, _) => !(compression is Uncompressed),
        Block::Skipped(_) => true,
    }
}

/// The table of times with those of one more section. In front of those of the
/// first section stands the time at which that begins.
pub open spec fn more_times(table: Seq<u64>, parts: SectionParts) -> Seq<u64> {
    if table.len() > 0 || parts.times.len() > 0 && parts.times[0] <= parts.start_time {
        table + parts.times
    } else {
        seq![parts.start_time] + parts.times
    }
}

/// What is known of a file behind one more block, which stands at `pos`.
pub open spec fn known_behind(scan: ScanView, block: Block, pos: int) -> ScanView {
    match block {
        Block::Header(h, endian) => ScanView { header: Some(h), float_endian: endian, ..scan },
        Block::Section(kind, parts) => ScanView {
            data_sections: scan.data_sections.push(
                DataSectionInfo {
                    file_offset: (pos + 1) as u64,
                    start_time: parts.start_time,
                    end_time: parts.end_time,
                    kind,
                    mem_required_for_traversal: parts.memory,
                },
            ),
            time_table: match scan.time_table {
                Some(table) => Some(more_times(table, parts)),
                None => None,
            },
            ..scan
        },
        Block::Blackouts(blackouts) => ScanView { blackouts: Some(blackouts), ..scan },
        Block::Geometry(signals, _) => ScanView { signals: Some(signals), ..scan },
        Block::Hierarchy(compression, _) => ScanView {
            hierarchy: Some((compression, (pos + 1) as u64)),
            ..scan
        },
        Block::Skipped(_) => scan,
    }
}

/// The scan has found no header that leaves the times open.
pub open spec fn times_known(scan: ScanView) -> bool {
    !scan.is_incomplete && (scan.header matches Some(h) ==> tells_times(h))
}

proof fn lemma_length_in_front(body: Seq<u8>, s: Seq<u8>, pos: int)
    requires
        s.len() <= u64::MAX,
        stands_at(behind_length(body), s, pos),
    ensures
        at_u64(s, pos) == Ok::<(u64, int), ReaderError>(((8 + body.len()) as u64, pos + 8)),
        behind_length(body).len() == 8 + body.len(),
{
    broadcast use lemma_eight_bytes;

    lemma_stands(be_bytes((8 + body.len()) as u64), body, s, pos);
    u64_reads_back((8 + body.len()) as u64, s, pos);
}

proof fn lemma_section_found(
    kind: DataSectionKind,
    parts: SectionParts,
    s: Seq<u8>,
    pos: int,
    scan: ScanView,
)
    requires
        s.len() <= 0x7fff_ffff_ffff_ffff,
        section_writable(kind, parts),
        times_known(scan),
        0 <= pos,
        stands_at(section_bytes(kind, parts), s, pos + 1),
    ensures
        after_data(s, pos + 1, kind, scan) == Ok::<(ScanView, int), ReaderError>(
            (
                known_behind(scan, Block::Section(kind, parts), pos),
                pos + 1 + section_bytes(kind, parts).len(),
            ),
        ),
{
    reveal(after_data);
    section_head_reads_back(kind, parts, s, pos + 1);
    section_reads_back(kind, parts, s, pos + 1);
}

/// A block is found wherever it stands, and adds what it tells to what is known. The
/// scan goes on behind it.
pub proof fn block_is_found(block: Block, s: Seq<u8>, pos: int, scan: ScanView)
    requires
        s.len() <= 0x7fff_ffff_ffff_ffff,
        block_writable(block),
        times_known(scan),
        block is Hierarchy ==> scan.hierarchy is None,
        stands_at(block_bytes(block), s, pos),
    ensures
        at_block_type(s, pos) == Ok::<BlockType, ReaderError>(type_of(block)),
        after_block(s, pos + 1, type_of(block), scan) == Ok::<
            (ScanView, Option<int>),
            ReaderError,
        >((known_behind(scan, block, pos), Some(pos + block_bytes(block).len()))),
        times_known(known_behind(scan, block, pos)),
{
    broadcast use lemma_eight_bytes;

    let tag = block_tag(type_of(block));
    lemma_stands(seq![tag], body_of(block), s, pos);
    block_tag_reads_back(type_of(block), s, pos);
    reveal(after_block);
    match block {
        Block::Header(h, endian) => {
            header_reads_back(h, endian, s, pos + 1);
        },
        Block::Section(kind, parts) => {
            lemma_section_found(kind, parts, s, pos, scan);
        },
        Block::Blackouts(blackouts) => {
            blackouts_read_back(blackouts, s, pos + 1);
        },
        Block::Geometry(signals, raw) => {
            geometry_reads_back(signals, raw, s, pos + 1);
        },
        Block::Hierarchy(compression, body) => {
            reveal(after_hierarchy);
            lemma_length_in_front(body, s, pos + 1);
        },
        Block::Skipped(body) => {
            lemma_length_in_front(body, s, pos + 1);
        },
    }
}

/// Blocks one behind the other.
pub open spec fn blocks_bytes(blocks: Seq<Block>) -> Seq<u8>
    decreases blocks.len(),
{
    if blocks.len() == 0 {
        Seq::empty()
    } else {
        block_bytes(blocks[0]) + blocks_bytes(blocks.drop_first())
    }
}

/// The blocks can be written into one file: there is one hierarchy at most.
pub open spec fn blocks_writable(blocks: Seq<Block>) -> bool {
    &&& forall|k: int| 0 <= k < blocks.len() ==> block_writable(#[trigger] blocks[k])
    &&& forall|j: int, k: int|
        0 <= j < k < blocks.len() ==> !(#[trigger] blocks[j] is Hierarchy && #[trigger] blocks[k]
            is Hierarchy)
}

/// What is known of a file behind blocks of which the first stands at `pos`.
pub open spec fn known_behind_all(scan: ScanView, blocks: Seq<Block>, pos: int) -> ScanView
    decreases blocks.len(),
{
    if blocks.len() == 0 {
        scan
    } else {
        known_behind_all(
            known_behind(scan, blocks[0], pos),
            blocks.drop_first(),
            pos + block_bytes(blocks[0]).len(),
        )
    }
}

proof fn lemma_rest_writable(blocks: Seq<Block>)
    requires
        blocks_writable(blocks),
        blocks.len() > 0,
    ensures
        blocks_writable(blocks.drop_first()),
{
    let rest = blocks.drop_first();
    assert forall|k: int| 0 <= k < rest.len() implies block_writable(#[trigger] rest[k]) by {
        assert(rest[k] == blocks[k + 1]);
    }
    assert forall|j: int, k: int| 0 <= j < k < rest.len() implies !(#[trigger] rest[j]
        is Hierarchy && #[trigger] rest[k] is Hierarchy) by {
        assert(rest[j] == blocks[j + 1] && rest[k] == blocks[k + 1]);
    }
}

/// A scan over blocks to the end of the file finds all that they tell.
pub proof fn blocks_are_found(blocks: Seq<Block>, s: Seq<u8>, pos: int, scan: ScanView)
    requires
        s.len() <= 0x7fff_ffff_ffff_ffff,
        blocks_writable(blocks),
        times_known(scan),
        forall|k: int|
            0 <= k < blocks.len() && #[trigger] blocks[k] is Hierarchy ==> scan.hierarchy is None,
        stands_at(blocks_bytes(blocks), s, pos),
        pos + blocks_bytes(blocks).len() == s.len(),
    ensures
        scanned_from(s, pos, scan) == Ok::<ScanView, ReaderError>(
            known_behind_all(scan, blocks, pos),
        ),
    decreases blocks.len(),
{
    if blocks.len() > 0 {
        let first = blocks[0];
        let rest = blocks.drop_first();
        lemma_stands(block_bytes(first), blocks_bytes(rest), s, pos);
        block_is_found(first, s, pos, scan);
        lemma_rest_writable(blocks);
        let next = known_behind(scan, first, pos);
        assert forall|k: int|
            0 <= k < rest.len() && #[trigger] rest[k] is Hierarchy implies next.hierarchy
            is None by {
            assert(rest[k] == blocks[k + 1]);
        }
        blocks_are_found(rest, s, pos + block_bytes(first).len(), next);
    }
}

/// What is known of a file in front of its blocks.
pub open spec fn known_first(read_time_table: bool) -> ScanView {
    ScanView {
        header: None,
        signals: None,
        blackouts: None,
        data_sections: Seq::empty(),
        float_endian: FloatingPointEndian::Little,
        hierarchy: None,
        time_table: if read_time_table {
            Some(Seq::empty())
        } else {
            None
        },
        is_incomplete: false,
    }
}

/// A file opens with what its blocks tell: the header, the signals, the blackouts,
/// the data sections with their places, the place of the hierarchy, and the times.
pub proof fn written_files_open(blocks: Seq<Block>, read_time_table: bool)
    requires
        blocks_bytes(blocks).len() <= 0x7fff_ffff_ffff_ffff,
        blocks.len() > 0,
        blocks_writable(blocks),
    ensures
        ({
            let s = blocks_bytes(blocks);
            let known = known_behind_all(known_first(read_time_table), blocks, 0);
            let (compression, offset) = known.hierarchy->0;
            &&& known.header is Some && known.signals is Some && known.hierarchy is Some
                ==> opened(s, read_time_table) == Ok::<ReaderView, ReaderError>(
                ReaderView {
                    data: s,
                    hierarchy: s,
                    meta: MetaView {
                        header: known.header->0,
                        signals: known.signals->0,
                        blackouts: match known.blackouts {
                            Some(blackouts) => blackouts,
                            None => Seq::empty(),
                        },
                        data_sections: known.data_sections,
                        float_endian: known.float_endian,
                        hierarchy_compression: compression,
                        hierarchy_offset: offset,
                        time_table: known.time_table,
                    },
                },
            )
            &&& known.signals is None ==> opened(s, read_time_table) == Err::<
                ReaderView,
                ReaderError,
            >(ReaderError::MissingGeometry)
            &&& known.signals is Some && known.hierarchy is None ==> opened(s, read_time_table)
                == Err::<ReaderView, ReaderError>(ReaderError::MissingHierarchy)
            &&& known.signals is Some && known.hierarchy is Some && known.header is None
                ==> opened(s, read_time_table) == Err::<ReaderView, ReaderError>(
                ReaderError::MissingHeader,
            )
        }),
{
    let s = blocks_bytes(blocks);
    let scan = known_first(read_time_table);
    assert(nothing_found(read_time_table) =~= scan);
    assert(stands_at(s, s, 0));
    lemma_stands(block_bytes(blocks[0]), blocks_bytes(blocks.drop_first()), s, 0);
    block_is_found(blocks[0], s, 0, scan);
    blocks_are_found(blocks, s, 0, scan);
}

/// There is a header among the blocks.
pub open spec fn has_header(blocks: Seq<Block>) -> bool {
    exists|k: int| 0 <= k < blocks.len() && #[trigger] blocks[k] is Header
}

proof fn lemma_length_of_block(block: Block, s: Seq<u8>, pos: int)
    requires
        s.len() <= 0x7fff_ffff_ffff_ffff,
        block_writable(block),
        stands_at(block_bytes(block), s, pos),
    ensures
        at_block_type(s, pos) == Ok::<BlockType, ReaderError>(type_of(block)),
        at_u64(s, pos + 1) matches Ok((length, _)) && length > 0 && pos + 1 + length == pos
            + block_bytes(block).len(),
{
    broadcast use lemma_eight_bytes;

    lemma_stands(seq![block_tag(type_of(block))], body_of(block), s, pos);
    block_tag_reads_back(type_of(block), s, pos);
    match block {
        Block::Header(h, endian) => {
            header_reads_back(h, endian, s, pos + 1);
            let rest = header_bytes(h, endian).subrange(8, 329);
            assert(header_bytes(h, endian) =~= be_bytes(329) + rest);
            lemma_stands(be_bytes(329), rest, s, pos + 1);
            u64_reads_back(329, s, pos + 1);
        },
        Block::Section(kind, parts) => {
            section_head_reads_back(kind, parts, s, pos + 1);
        },
        Block::Blackouts(blackouts) => {
            let body = blackout_block(blackouts).skip(8);
            assert(blackout_block(blackouts) =~= behind_length(body));
            lemma_length_in_front(body, s, pos + 1);
        },
        Block::Geometry(signals, raw) => {
            let body = geometry_block(signals, raw).skip(8);
            assert(geometry_block(signals, raw) =~= behind_length(body));
            lemma_length_in_front(body, s, pos + 1);
        },
        Block::Hierarchy(_, body) => {
            lemma_length_in_front(body, s, pos + 1);
        },
        Block::Skipped(body) => {
            lemma_length_in_front(body, s, pos + 1);
        },
    }
}

proof fn lemma_recognised(blocks: Seq<Block>, s: Seq<u8>, pos: int, seen: bool)
    requires
        s.len() <= 0x7fff_ffff_ffff_ffff,
        forall|k: int| 0 <= k < blocks.len() ==> block_writable(#[trigger] blocks[k]),
        stands_at(blocks_bytes(blocks), s, pos),
        pos + blocks_bytes(blocks).len() == s.len(),
    ensures
        fst_from(s, pos, seen) == Ok::<bool, ReaderError>(seen || has_header(blocks)),
    decreases blocks.len(),
{
    if blocks.len() > 0 {
        let first = blocks[0];
        let rest = blocks.drop_first();
        lemma_stands(block_bytes(first), blocks_bytes(rest), s, pos);
        lemma_length_of_block(first, s, pos);
        assert forall|k: int| 0 <= k < rest.len() implies block_writable(#[trigger] rest[k]) by {
            assert(rest[k] == blocks[k + 1]);
        }
        lemma_recognised(rest, s, pos + block_bytes(first).len(), seen || first is Header);
        if has_header(blocks) && !(first is Header) {
            let k = choose|k: int| 0 <= k < blocks.len() && #[trigger] blocks[k] is Header;
            assert(rest[k - 1] is Header);
        }
        if has_header(rest) {
            let k = choose|k: int| 0 <= k < rest.len() && #[trigger] rest[k] is Header;
            assert(blocks[k + 1] is Header);
        }
    }
}

/// A file of blocks is recognised exactly if there is a header among them.
pub proof fn written_files_are_recognised(blocks: Seq<Block>)
    requires
        blocks_bytes(blocks).len() <= 0x7fff_ffff_ffff_ffff,
        forall|k: int| 0 <= k < blocks.len() ==> block_writable(#[trigger] blocks[k]),
    ensures
        could_be_fst(blocks_bytes(blocks)) <==> has_header(blocks),
{
    let s = blocks_bytes(blocks);
    assert(stands_at(s, s, 0));
    lemma_recognised(blocks, s, 0, false);
}

/// Bytes that begin with none of the tags are neither recognised nor opened.
pub proof fn other_files_are_refused(s: Seq<u8>, read_time_table: bool)
    requires
        s.len() > 0 ==> 8 < s[0] < 254,
    ensures
        !could_be_fst(s),
        opened(s, read_time_table) is Err,
{
}

/// A scan that fails behind some blocks, because a tag follows that no block has, keeps
/// what those blocks told.
pub proof fn blocks_before_an_error_are_kept(
    blocks: Seq<Block>,
    s: Seq<u8>,
    pos: int,
    scan: ScanView,
)
    requires
        s.len() <= 0x7fff_ffff_ffff_ffff,
        blocks_writable(blocks),
        times_known(scan),
        forall|k: int|
            0 <= k < blocks.len() && #[trigger] blocks[k] is Hierarchy ==> scan.hierarchy is None,
        stands_at(blocks_bytes(blocks), s, pos),
        pos + blocks_bytes(blocks).len() < s.len(),
        8 < s[pos + blocks_bytes(blocks).len()] < 254,
    ensures
        scanned_from(s, pos, scan) == Err::<ScanView, ReaderError>(ReaderError::BlockType),
        reached(s, pos, scan) == known_behind_all(scan, blocks, pos),
    decreases blocks.len(),
{
    if blocks.len() > 0 {
        let first = blocks[0];
        let rest = blocks.drop_first();
        lemma_stands(block_bytes(first), blocks_bytes(rest), s, pos);
        block_is_found(first, s, pos, scan);
        lemma_rest_writable(blocks);
        let next = known_behind(scan, first, pos);
        assert forall|k: int|
            0 <= k < rest.len() && #[trigger] rest[k] is Hierarchy implies next.hierarchy
            is None by {
            assert(rest[k] == blocks[k + 1]);
        }
        blocks_before_an_error_are_kept(rest, s, pos + block_bytes(first).len(), next);
    }
}

/// A scan that succeeds has found all that it gives.
pub proof fn successful_scans_keep_everything(s: Seq<u8>, pos: int, scan: ScanView)
    requires
        0 <= pos,
    ensures
        scanned_from(s, pos, scan) matches Ok(result) ==> reached(s, pos, scan) == result,
    decreases
            if pos < s.len() {
                s.len() - pos
            } else {
                0
            },
{
    if let Ok(tpe) = at_block_type(s, pos) {
        lemma_block_advances(s, pos + 1, tpe, scan);
        if let Ok((next, Some(end))) = after_block(s, pos + 1, tpe, scan) {
            successful_scans_keep_everything(s, end, next);
        }
    }
}

} // verus!
