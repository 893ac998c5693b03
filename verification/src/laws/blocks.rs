//! Blocks read back as they were written.

use crate::blocks::{
    at_blackout_list, at_blackouts, at_block_type, at_geometry, at_header, at_header_tail,
    decoded_geometry, endian_of, signed_byte, HeaderView,
};
use crate::laws::encoding::{
    be_bytes, byte_reads_back, bytes_read_back, field, field_reads_back, leb_encoded,
    lemma_eight_bytes, lemma_stands, no_zero, stands_at, u64_reads_back, variant_u32_reads_back,
    variant_u64_reads_back,
};
use crate::laws::frames::{stored_bytes_read_back, stores};
use crate::primitives::{at_field, be_value};
use crate::types::{
    block_type, file_type, pack_type, section_kind, signal_info, BlackoutData, BlockType,
    DataSectionKind, FileType, FloatingPointEndian, ReaderError, SignalInfo,
};
use vstd::prelude::*;
use vstd::utf8::encode_utf8;

verus! {

/// The tag of a block.
pub open spec fn block_tag(tpe: BlockType) -> u8 {
    match tpe {
        BlockType::Header => 0,
        BlockType::VcData => 1,
        BlockType::Blackout => 2,
        BlockType::Geometry => 3,
        BlockType::Hierarchy => 4,
        BlockType::VcDataDynamicAlias => 5,
        BlockType::HierarchyLZ4 => 6,
        BlockType::HierarchyLZ4Duo => 7,
        BlockType::VcDataDynamicAlias2 => 8,
        BlockType::GZipWrapper => 254,
        BlockType::Skip => 255,
    }
}

/// A byte is the tag of one block type at most, and each type has its tag.
pub proof fn block_types_read_back(tpe: BlockType, tag: u8)
    ensures
        block_type(tag) == Some(tpe) <==> tag == block_tag(tpe),
{
}

/// The type of a block reads back from its tag, wherever it stands.
pub proof fn block_tag_reads_back(tpe: BlockType, s: Seq<u8>, pos: int)
    requires
        stands_at(seq![block_tag(tpe)], s, pos),
    ensures
        at_block_type(s, pos) == Ok::<BlockType, ReaderError>(tpe),
{
    byte_reads_back(block_tag(tpe), s, pos);
}

/// The number of a file type.
pub open spec fn file_type_code(tpe: FileType) -> u8 {
    match tpe {
        FileType::Verilog => 0,
        FileType::Vhdl => 1,
        FileType::VerilogVhdl => 2,
    }
}

/// A byte is the number of one file type at most, and each type has its number.
pub proof fn file_types_read_back(tpe: FileType, code: u8)
    ensures
        file_type(code) == Some(tpe) <==> code == file_type_code(tpe),
{
}

/// The block that a data section of some kind is in.
pub open spec fn data_block(kind: DataSectionKind) -> BlockType {
    match kind {
        DataSectionKind::Standard => BlockType::VcData,
        DataSectionKind::DynamicAlias => BlockType::VcDataDynamicAlias,
        DataSectionKind::DynamicAlias2 => BlockType::VcDataDynamicAlias2,
    }
}

/// The blocks of data sections, and no others, tell the kind of their section.
pub proof fn section_kinds_read_back(kind: DataSectionKind, tpe: BlockType)
    ensures
        section_kind(tpe) == Some(kind) <==> tpe == data_block(kind),
{
}

/// The marks `4` and `F` stand for LZ4 and FastLZ, and all others for zlib.
pub proof fn pack_types_read_back(mark: u8)
    ensures
        pack_type(mark) is Lz4 <==> mark == 0x34,
        pack_type(mark) is FastLz <==> mark == 0x46,
        pack_type(mark) is Zlib <==> mark != 0x34 && mark != 0x46,
{
}

/// The byte for a signed number, in two's complement.
pub open spec fn signed_as_byte(n: i8) -> u8 {
    if n >= 0 {
        n as u8
    } else {
        (n + 256) as u8
    }
}

/// The number e, in the byte order of a file's floating-point numbers.
pub open spec fn endian_mark(endian: FloatingPointEndian) -> Seq<u8> {
    match endian {
        FloatingPointEndian::Big => seq![
            0x40u8,
            0x05,
            0xbf,
            0x0a,
            0x8b,
            0x14,
            0x57,
            0x69,
        ],
        FloatingPointEndian::Little => seq![
            0x69u8,
            0x57,
            0x14,
            0x8b,
            0x0a,
            0xbf,
            0x05,
            0x40,
        ],
    }
}

/// The times of a header, behind its length, and the mark of the byte order.
pub open spec fn header_times(h: HeaderView, endian: FloatingPointEndian) -> Seq<u8> {
    be_bytes(h.start_time) + (be_bytes(h.end_time) + endian_mark(endian))
}

/// The counts of a header, and the exponent of its timescale.
pub open spec fn header_counts(h: HeaderView) -> Seq<u8> {
    be_bytes(h.memory_used_by_writer) + (be_bytes(h.scope_count) + (be_bytes(h.var_count) + (
    be_bytes(h.max_var_id_code) + (be_bytes(h.vc_section_count) + seq![
        signed_as_byte(h.timescale_exponent),
    ]))))
}

/// The texts of a header, its file type and the time zero.
pub open spec fn header_tail(h: HeaderView) -> Seq<u8> {
    field(h.version, 128) + (field(h.date, 119) + (seq![file_type_code(h.file_type)] + be_bytes(
        h.time_zero,
    )))
}

/// A header in its written form.
pub open spec fn header_bytes(h: HeaderView, endian: FloatingPointEndian) -> Seq<u8> {
    be_bytes(329) + (header_times(h, endian) + (header_counts(h) + header_tail(h)))
}

/// The texts of a header fit their fields.
pub open spec fn header_writable(h: HeaderView) -> bool {
    &&& no_zero(h.version)
    &&& encode_utf8(h.version).len() <= 128
    &&& no_zero(h.date)
    &&& encode_utf8(h.date).len() <= 119
}

proof fn lemma_endian_mark(endian: FloatingPointEndian, s: Seq<u8>, pos: int)
    requires
        stands_at(endian_mark(endian), s, pos),
    ensures
        endian_of(be_value(s, pos)) == Ok::<FloatingPointEndian, ReaderError>(
            endian,
        ),
{
    let m = endian_mark(endian);
    assert(s[pos + 0] == m[0] && s[pos + 1] == m[1] && s[pos + 2] == m[2] && s[pos + 3] == m[3]
        && s[pos + 4] == m[4] && s[pos + 5] == m[5] && s[pos + 6] == m[6] && s[pos + 7] == m[7]);
}

proof fn lemma_sub_value(n: u64, b: Seq<u8>, at: int)
    requires
        stands_at(be_bytes(n), b, at),
    ensures
        be_value(b, at) == n,
{
    u64_reads_back(n, b, at);
}

proof fn lemma_header_times(h: HeaderView, endian: FloatingPointEndian)
    ensures
        ({
            let b = header_times(h, endian);
            &&& b.len() == 24
            &&& be_value(b, 0) == h.start_time
            &&& be_value(b, 8) == h.end_time
            &&& endian_of(be_value(b, 16)) == Ok::<FloatingPointEndian, ReaderError>(endian)
        }),
{
    broadcast use lemma_eight_bytes;

    let b = header_times(h, endian);
    assert(stands_at(b, b, 0));
    lemma_stands(be_bytes(h.start_time), be_bytes(h.end_time) + endian_mark(endian), b, 0);
    lemma_stands(be_bytes(h.end_time), endian_mark(endian), b, 8);
    lemma_sub_value(h.start_time, b, 0);
    lemma_sub_value(h.end_time, b, 8);
    lemma_endian_mark(endian, b, 16);
}

proof fn lemma_header_counts(h: HeaderView)
    ensures
        ({
            let b = header_counts(h);
            &&& b.len() == 41
            &&& be_value(b, 0) == h.memory_used_by_writer
            &&& be_value(b, 8) == h.scope_count
            &&& be_value(b, 16) == h.var_count
            &&& be_value(b, 24) == h.max_var_id_code
            &&& be_value(b, 32) == h.vc_section_count
            &&& signed_byte(b[40]) == h.timescale_exponent
        }),
{
    broadcast use lemma_eight_bytes;

    let b = header_counts(h);
    assert(stands_at(b, b, 0));
    let e = seq![signed_as_byte(h.timescale_exponent)];
    let c4 = be_bytes(h.vc_section_count) + e;
    let c3 = be_bytes(h.max_var_id_code) + c4;
    let c2 = be_bytes(h.var_count) + c3;
    let c1 = be_bytes(h.scope_count) + c2;
    lemma_stands(be_bytes(h.memory_used_by_writer), c1, b, 0);
    lemma_stands(be_bytes(h.scope_count), c2, b, 8);
    lemma_stands(be_bytes(h.var_count), c3, b, 16);
    lemma_stands(be_bytes(h.max_var_id_code), c4, b, 24);
    lemma_stands(be_bytes(h.vc_section_count), e, b, 32);
    lemma_sub_value(h.memory_used_by_writer, b, 0);
    lemma_sub_value(h.scope_count, b, 8);
    lemma_sub_value(h.var_count, b, 16);
    lemma_sub_value(h.max_var_id_code, b, 24);
    lemma_sub_value(h.vc_section_count, b, 32);
    byte_reads_back(e[0], b, 40);
}

proof fn lemma_header_tail(h: HeaderView, s: Seq<u8>, pos: int)
    requires
        header_writable(h),
        stands_at(header_tail(h), s, pos + 73),
    ensures
        header_tail(h).len() == 256,
        at_field(s, pos + 73, 128) == Ok::<(Seq<char>, int), ReaderError>((h.version, pos + 201)),
        at_field(s, pos + 201, 119) == Ok::<(Seq<char>, int), ReaderError>((h.date, pos + 320)),
        at_header_tail(s, pos) == Ok::<(FileType, u64), ReaderError>((h.file_type, h.time_zero)),
{
    broadcast use lemma_eight_bytes;

    let version = field(h.version, 128);
    let date = field(h.date, 119);
    let code = seq![file_type_code(h.file_type)];
    let rest = code + be_bytes(h.time_zero);
    lemma_stands(version, date + rest, s, pos + 73);
    lemma_stands(date, rest, s, pos + 201);
    lemma_stands(code, be_bytes(h.time_zero), s, pos + 320);
    field_reads_back(h.version, 128, s, pos + 73);
    field_reads_back(h.date, 119, s, pos + 201);
    byte_reads_back(file_type_code(h.file_type), s, pos + 320);
    u64_reads_back(h.time_zero, s, pos + 321);
}

/// A header reads back as it was written, wherever it stands: its times, counts,
/// timescale, texts and file type, and the byte order of the file.
pub proof fn header_reads_back(
    h: HeaderView,
    endian: FloatingPointEndian,
    s: Seq<u8>,
    pos: int,
)
    requires
        header_writable(h),
        stands_at(header_bytes(h, endian), s, pos),
    ensures
        at_header(s, pos) == Ok::<(HeaderView, FloatingPointEndian), ReaderError>((h, endian)),
        header_bytes(h, endian).len() == 329,
{
    broadcast use lemma_eight_bytes;

    let times = header_times(h, endian);
    let counts = header_counts(h);
    let tail = header_tail(h);
    lemma_stands(be_bytes(329), times + (counts + tail), s, pos);
    lemma_stands(times, counts + tail, s, pos + 8);
    lemma_header_times(h, endian);
    lemma_stands(counts, tail, s, pos + 32);
    lemma_header_counts(h);
    lemma_header_tail(h, s, pos);
    u64_reads_back(329, s, pos);
    bytes_read_back(times, s, pos + 8);
    bytes_read_back(counts, s, pos + 32);
    reveal(at_header);
}

/// The number of a signal in a geometry: its width, none for a floating-point
/// number, and the largest number for a text of varying length.
pub open spec fn signal_number(info: SignalInfo) -> u32 {
    match info {
        SignalInfo::Real => 0,
        SignalInfo::BitVec(width) => if width == 0 {
            u32::MAX
        } else {
            width
        },
    }
}

/// A signal reads back from its number. (The widest vector has the number of a
/// text, and is left out.)
pub proof fn signals_read_back(info: SignalInfo)
    requires
        info != SignalInfo::BitVec(u32::MAX),
    ensures
        signal_info(signal_number(info)) == info,
{
}

/// The numbers of signals, one behind the other.
pub open spec fn geometry_bytes(signals: Seq<SignalInfo>) -> Seq<u8>
    decreases signals.len(),
{
    if signals.len() == 0 {
        Seq::empty()
    } else {
        leb_encoded(signal_number(signals[0]) as nat) + geometry_bytes(signals.drop_first())
    }
}

proof fn lemma_geometry_read(signals: Seq<SignalInfo>, s: Seq<u8>, pos: int)
    requires
        forall|k: int|
            0 <= k < signals.len() ==> #[trigger] signals[k] != SignalInfo::BitVec(u32::MAX),
        stands_at(geometry_bytes(signals), s, pos),
    ensures
        decoded_geometry(s, pos, signals.len()) == Ok::<Seq<SignalInfo>, ReaderError>(signals),
    decreases signals.len(),
{
    if signals.len() > 0 {
        let rest = signals.drop_first();
        let first = leb_encoded(signal_number(signals[0]) as nat);
        lemma_stands(first, geometry_bytes(rest), s, pos);
        variant_u32_reads_back(signal_number(signals[0]), s, pos);
        signals_read_back(signals[0]);
        assert forall|k: int| 0 <= k < rest.len() implies #[trigger] rest[k]
            != SignalInfo::BitVec(u32::MAX) by {
            assert(signals[k + 1] != SignalInfo::BitVec(u32::MAX));
        }
        lemma_geometry_read(rest, s, pos + first.len());
        assert(seq![signals[0]] + rest =~= signals);
    } else {
        assert(signals =~= Seq::empty());
    }
}

/// The geometry block behind its tag: its length, the length of the numbers, the
/// number of signals, and what the numbers are stored as.
pub open spec fn geometry_block(signals: Seq<SignalInfo>, raw: Seq<u8>) -> Seq<u8> {
    be_bytes((24 + raw.len()) as u64) + (be_bytes(geometry_bytes(signals).len() as u64) + (
    be_bytes(signals.len() as u64) + raw))
}

/// A geometry reads back as it was written, packed or not, wherever it stands.
pub proof fn geometry_reads_back(signals: Seq<SignalInfo>, raw: Seq<u8>, s: Seq<u8>, pos: int)
    requires
        signals.len() < u32::MAX,
        24 + raw.len() <= u64::MAX,
        geometry_bytes(signals).len() <= u64::MAX,
        forall|k: int|
            0 <= k < signals.len() ==> #[trigger] signals[k] != SignalInfo::BitVec(u32::MAX),
        stores(raw, geometry_bytes(signals)),
        stands_at(geometry_block(signals, raw), s, pos),
    ensures
        at_geometry(s, pos) == Ok::<(u64, Seq<SignalInfo>), ReaderError>(
            ((24 + raw.len()) as u64, signals),
        ),
{
    broadcast use lemma_eight_bytes;

    reveal(at_geometry);
    let bytes = geometry_bytes(signals);
    let a = be_bytes((24 + raw.len()) as u64);
    let b = be_bytes(bytes.len() as u64);
    let c = be_bytes(signals.len() as u64);
    lemma_stands(a, b + (c + raw), s, pos);
    lemma_stands(b, c + raw, s, pos + 8);
    lemma_stands(c, raw, s, pos + 16);
    u64_reads_back((24 + raw.len()) as u64, s, pos);
    u64_reads_back(bytes.len() as u64, s, pos + 8);
    u64_reads_back(signals.len() as u64, s, pos + 16);
    bytes_read_back(raw, s, pos + 24);
    stored_bytes_read_back(raw, bytes);
    assert(stands_at(bytes, bytes, 0));
    lemma_geometry_read(signals, bytes, 0);
}

/// Blackouts in their written form: whether there is activity, and the distance of
/// the time from the one before.
pub open spec fn blackouts_bytes(blackouts: Seq<BlackoutData>, last: u64) -> Seq<u8>
    decreases blackouts.len(),
{
    if blackouts.len() == 0 {
        Seq::empty()
    } else {
        let b = blackouts[0];
        seq![if b.contains_activity { 1u8 } else { 0u8 }] + (leb_encoded((b.time - last) as nat)
            + blackouts_bytes(blackouts.drop_first(), b.time))
    }
}

/// The times of the blackouts do not go back, and begin at `last` or later.
pub open spec fn blackouts_ascend(blackouts: Seq<BlackoutData>, last: u64) -> bool
    decreases blackouts.len(),
{
    blackouts.len() > 0 ==> last <= blackouts[0].time && blackouts_ascend(
        blackouts.drop_first(),
        blackouts[0].time,
    )
}

proof fn lemma_blackouts_read(blackouts: Seq<BlackoutData>, last: u64, s: Seq<u8>, pos: int)
    requires
        blackouts_ascend(blackouts, last),
        stands_at(blackouts_bytes(blackouts, last), s, pos),
    ensures
        at_blackout_list(s, pos, blackouts.len(), last) == Ok::<
            (Seq<BlackoutData>, int),
            ReaderError,
        >((blackouts, pos + blackouts_bytes(blackouts, last).len())),
    decreases blackouts.len(),
{
    if blackouts.len() > 0 {
        let b = blackouts[0];
        let rest = blackouts.drop_first();
        let flag = seq![if b.contains_activity { 1u8 } else { 0u8 }];
        let delta = leb_encoded((b.time - last) as nat);
        let tail = blackouts_bytes(rest, b.time);
        lemma_stands(flag, delta + tail, s, pos);
        lemma_stands(delta, tail, s, pos + 1);
        byte_reads_back(flag[0], s, pos);
        variant_u64_reads_back((b.time - last) as u64, s, pos + 1);
        lemma_blackouts_read(rest, b.time, s, pos + 1 + delta.len());
        assert(seq![BlackoutData { time: b.time, contains_activity: b.contains_activity }] + rest
            =~= blackouts);
    } else {
        assert(blackouts =~= Seq::empty());
    }
}

/// Every flag but zero tells of activity.
pub proof fn activity_reads_back(flag: u8, last: u64, time: u64, s: Seq<u8>, pos: int)
    requires
        last <= time,
        stands_at(seq![flag] + leb_encoded((time - last) as nat), s, pos),
    ensures
        at_blackout_list(s, pos, 1, last) matches Ok((blackouts, _)) && blackouts == seq![
            BlackoutData { time, contains_activity: flag != 0 },
        ],
{
    lemma_stands(seq![flag], leb_encoded((time - last) as nat), s, pos);
    byte_reads_back(flag, s, pos);
    variant_u64_reads_back((time - last) as u64, s, pos + 1);
    reveal_with_fuel(at_blackout_list, 2);
}

/// The blackout block behind its tag.
pub open spec fn blackout_block(blackouts: Seq<BlackoutData>) -> Seq<u8> {
    let body = leb_encoded(blackouts.len()) + blackouts_bytes(blackouts, 0);
    be_bytes((8 + body.len()) as u64) + body
}

/// Blackouts read back as they were written, wherever they stand.
pub proof fn blackouts_read_back(blackouts: Seq<BlackoutData>, s: Seq<u8>, pos: int)
    requires
        blackouts.len() <= u32::MAX,
        blackouts_ascend(blackouts, 0),
        s.len() <= u64::MAX,
        stands_at(blackout_block(blackouts), s, pos),
    ensures
        at_blackouts(s, pos) == Ok::<(int, Seq<BlackoutData>), ReaderError>(
            (pos + blackout_block(blackouts).len(), blackouts),
        ),
{
    broadcast use lemma_eight_bytes;

    reveal(at_blackouts);
    let n = leb_encoded(blackouts.len());
    let list = blackouts_bytes(blackouts, 0);
    let length = (8 + (n + list).len()) as u64;
    lemma_stands(be_bytes(length), n + list, s, pos);
    lemma_stands(n, list, s, pos + 8);
    u64_reads_back(length, s, pos);
    variant_u32_reads_back(blackouts.len() as u32, s, pos + 8);
    lemma_blackouts_read(blackouts, 0, s, pos + 8 + n.len());
}

} // verus!
