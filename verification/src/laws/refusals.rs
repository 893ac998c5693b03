//! What is refused, and with which error.

use crate::blocks::{at_blackouts, at_block_type, at_geometry, at_header, endian_of};
use crate::boundary::{firsts_from, firsts_with};
use crate::compression::{lz4_bytes, lz4_unpacked, zlib_bytes, zlib_unpacked};
use crate::data::{at_changes, changes_from, is_relevant, section_changes, SignalsView};
use crate::header::{after_block, after_hierarchy, scanned_from, ScanView};
use crate::hierarchy::{at_attribute, at_entry, at_scope, at_var, entries_from, EntryAt, FstVarType};
use crate::laws::encoding::{
    bytes_read_back, leb_encoded, lemma_first_zero_at, lemma_stands, lemma_text_of, no_zero,
    stands_at, variant_u32_reads_back, variant_u64_reads_back,
};
use crate::pre_start::{all_found, collected, latest, Found};
use crate::primitives::{
    at_bytes, at_c_str, at_field, at_u64, at_u8, at_variant_signed, at_variant_u32, at_variant_u64,
    first_zero, leb_len, leb_value, lemma_leb_value_bound, pow128,
};
use crate::reader::fst_from;
use crate::section::{
    at_frame_value, at_packed, at_section_head, at_times, decoded_times, frame_end,
};
use crate::types::{
    BlockType, DataSectionInfo, FloatingPointEndian, HierarchyCompression, ReaderError, SignalInfo,
    ValueChangePackType,
};
use crate::values::{at_change, at_delta, at_value, at_value_end, ChangeView, ValueView};
use crate::wheel::{delivered, visited, SectionData, WheelState, Window};
use vstd::prelude::*;
use vstd::utf8::{encode_utf8, valid_utf8};

verus! {

/// A read succeeds exactly if all its bytes are there, and ends behind them.
pub proof fn reads_end_with_the_input(s: Seq<u8>, pos: int, n: int)
    requires
        0 <= pos,
        0 <= n,
    ensures
        if pos < s.len() {
            at_u8(s, pos) == Ok::<(u8, int), ReaderError>((s[pos], pos + 1))
        } else {
            at_u8(s, pos) == Err::<(u8, int), ReaderError>(ReaderError::Io)
        },
        if pos + n <= s.len() {
            at_bytes(s, pos, n) == Ok::<(Seq<u8>, int), ReaderError>(
                (Seq::new(n as nat, |k: int| s[pos + k]), pos + n),
            )
        } else {
            at_bytes(s, pos, n) == Err::<(Seq<u8>, int), ReaderError>(ReaderError::Io)
        },
        if pos + 8 <= s.len() {
            at_u64(s, pos) matches Ok((_, next)) && next == pos + 8
        } else {
            at_u64(s, pos) == Err::<(u64, int), ReaderError>(ReaderError::Io)
        },
{
    if pos + n <= s.len() {
        assert(s.subrange(pos, pos + n) =~= Seq::new(n as nat, |k: int| s[pos + k]));
    }
}

proof fn lemma_leb_len_of(s: Seq<u8>, pos: int, max: nat, other: nat)
    requires
        leb_len(s, pos, max) matches Ok(n) && n <= other,
    ensures
        leb_len(s, pos, other) == leb_len(s, pos, max),
        leb_len(s, pos, max)->Ok_0 >= 1,
    decreases max,
{
    if s[pos] >= 128 {
        lemma_leb_len_of(s, pos + 1, (max - 1) as nat, (other - 1) as nat);
    }
}

/// A byte below 128 is a number of its own.
pub proof fn small_numbers_take_a_byte(s: Seq<u8>, pos: int)
    requires
        0 <= pos < s.len(),
        s[pos] < 128,
    ensures
        at_variant_u32(s, pos) == Ok::<(u32, int), ReaderError>((s[pos] as u32, pos + 1)),
        at_variant_u64(s, pos) == Ok::<(u64, int), ReaderError>((s[pos] as u64, pos + 1)),
        at_variant_signed(s, pos) == Ok::<(int, int), ReaderError>(
            (
                if s[pos] < 64 {
                    s[pos] as int
                } else {
                    s[pos] - 128
                },
                pos + 1,
            ),
        ),
{
    reveal_with_fuel(leb_value, 2);
    reveal_with_fuel(pow128, 2);
}

/// A byte from 128 on adds its seven bits below the number behind it, whether that is
/// written as short as possible or not. What goes beyond 32 or 64 bits is cut off.
pub proof fn bytes_of_numbers_add_up(s: Seq<u8>, pos: int)
    requires
        0 <= pos < s.len(),
        s[pos] >= 128,
    ensures
        at_variant_u64(s, pos + 1) matches Ok((high, next)) ==> {
            &&& next - pos <= 5 ==> at_variant_u32(s, pos) == Ok::<(u32, int), ReaderError>(
                (((s[pos] - 128 + 128 * high) % 0x1_0000_0000) as u32, next),
            )
            &&& next - pos <= 10 ==> at_variant_u64(s, pos) == Ok::<(u64, int), ReaderError>(
                (((s[pos] - 128 + 128 * high) % 0x1_0000_0000_0000_0000) as u64, next),
            )
        },
        at_variant_signed(s, pos + 1) matches Ok((high, next)) ==> (next - pos <= 10
            ==> at_variant_signed(s, pos) == Ok::<(int, int), ReaderError>(
            (s[pos] - 128 + 128 * high, next),
        )),
{
    if let Ok(n) = leb_len(s, pos + 1, 10) {
        lemma_leb_len_of(s, pos + 1, 10, n);
        lemma_leb_value_bound(s, pos + 1, n);
        if n <= 9 {
            lemma_leb_len_of(s, pos + 1, 10, 9);
            reveal_with_fuel(pow128, 11);
            assert(leb_len(s, pos, 10) == Ok::<nat, ReaderError>((n + 1) as nat));
            assert(leb_value(s, pos, (n + 1) as nat) == s[pos] % 128 + 128 * leb_value(
                s,
                pos + 1,
                n,
            ));
            assert(pow128((n + 1) as nat) == 128 * pow128(n));
        }
        if n <= 4 {
            lemma_leb_len_of(s, pos + 1, 10, 4);
        }
    }
}

proof fn lemma_endless(s: Seq<u8>, pos: int, max: nat)
    requires
        0 <= pos <= s.len(),
        forall|k: int| 0 <= k < max && pos + k < s.len() ==> s[#[trigger] (pos + k)] >= 128,
    ensures
        leb_len(s, pos, max) == Err::<nat, ReaderError>(
            if pos + max <= s.len() {
                ReaderError::ParseVariant
            } else {
                ReaderError::Io
            },
        ),
    decreases max,
{
    if max > 0 && pos < s.len() {
        assert(s[pos + 0] >= 128);
        assert forall|k: int| 0 <= k < max - 1 && pos + 1 + k < s.len() implies s[#[trigger] (pos + 1
            + k)] >= 128 by {
            assert(pos + 1 + k == pos + (k + 1));
        }
        lemma_endless(s, pos + 1, (max - 1) as nat);
    }
}

/// A number that goes on for too long is refused, and so is one that the input cuts
/// off.
pub proof fn endless_numbers_are_refused(s: Seq<u8>, pos: int)
    requires
        0 <= pos <= s.len(),
    ensures
        (forall|k: int| 0 <= k < 5 && pos + k < s.len() ==> s[#[trigger] (pos + k)] >= 128)
            ==> at_variant_u32(s, pos) == Err::<(u32, int), ReaderError>(
            if pos + 5 <= s.len() {
                ReaderError::ParseVariant
            } else {
                ReaderError::Io
            },
        ),
        (forall|k: int| 0 <= k < 10 && pos + k < s.len() ==> s[#[trigger] (pos + k)] >= 128)
            ==> at_variant_u64(s, pos) == Err::<(u64, int), ReaderError>(
            if pos + 10 <= s.len() {
                ReaderError::ParseVariant
            } else {
                ReaderError::Io
            },
        ) && at_variant_signed(s, pos) == Err::<(int, int), ReaderError>(
            if pos + 10 <= s.len() {
                ReaderError::ParseVariant
            } else {
                ReaderError::Io
            },
        ),
{
    if forall|k: int| 0 <= k < 5 && pos + k < s.len() ==> s[#[trigger] (pos + k)] >= 128 {
        lemma_endless(s, pos, 5);
    }
    if forall|k: int| 0 <= k < 10 && pos + k < s.len() ==> s[#[trigger] (pos + k)] >= 128 {
        lemma_endless(s, pos, 10);
    }
}

/// In a field, what stands behind the first zero byte does not matter.
pub proof fn fields_end_at_the_first_zero(text: Seq<char>, more: Seq<u8>, s: Seq<u8>, pos: int)
    requires
        no_zero(text),
        stands_at(encode_utf8(text) + (seq![0u8] + more), s, pos),
    ensures
        at_field(s, pos, (encode_utf8(text) + (seq![0u8] + more)).len() as int) == Ok::<
            (Seq<char>, int),
            ReaderError,
        >((text, pos + encode_utf8(text).len() + 1 + more.len())),
{
    let bytes = encode_utf8(text);
    let all = bytes + (seq![0u8] + more);
    bytes_read_back(all, s, pos);
    assert forall|k: int| 0 <= k < bytes.len() implies #[trigger] all[k] != 0 by {
        assert(all[k] == bytes[k]);
    }
    assert(all[bytes.len() as int] == 0);
    lemma_first_zero_at(all, 0, bytes.len() as int);
    assert(all.subrange(0, bytes.len() as int) =~= bytes);
    lemma_text_of(text);
}

/// A text without a zero byte within its bound is refused, and so is one that the
/// input cuts off, or that is not UTF-8.
pub proof fn bad_texts_are_refused(s: Seq<u8>, pos: int, end: int, max: int)
    requires
        0 <= pos <= end <= s.len(),
        forall|k: int| pos <= k < end ==> #[trigger] s[k] != 0,
        end < s.len() ==> s[end] == 0,
    ensures
        end - pos >= max ==> at_c_str(s, pos, max) == Err::<(Seq<char>, int), ReaderError>(
            ReaderError::CString,
        ),
        end - pos < max && end == s.len() ==> at_c_str(s, pos, max) == Err::<
            (Seq<char>, int),
            ReaderError,
        >(ReaderError::Io),
        end - pos < max && end < s.len() && !valid_utf8(s.subrange(pos, end)) ==> at_c_str(
            s,
            pos,
            max,
        ) == Err::<(Seq<char>, int), ReaderError>(ReaderError::Utf8),
{
    lemma_first_zero_at(s, pos, end);
}

/// Only the number e in one of the two byte orders marks the byte order.
pub proof fn other_marks_are_refused(mark: u64)
    requires
        mark != 0x4005_bf0a_8b14_5769,
        mark != 0x6957_148b_0abf_0540,
    ensures
        endian_of(mark) is Err,
{
}

/// A tag that no block has is refused.
pub proof fn other_blocks_are_refused(s: Seq<u8>, pos: int, scan: ScanView)
    requires
        0 <= pos < s.len(),
        8 < s[pos] < 254,
    ensures
        at_block_type(s, pos) == Err::<BlockType, ReaderError>(ReaderError::BlockType),
        scanned_from(s, pos, scan) == Err::<ScanView, ReaderError>(ReaderError::BlockType),
{
}

/// A scan ends with the input, and at an empty block to be skipped, with what it
/// has found.
pub proof fn scans_end(s: Seq<u8>, pos: int, scan: ScanView)
    requires
        0 <= pos,
    ensures
        pos >= s.len() ==> scanned_from(s, pos, scan) == Ok::<ScanView, ReaderError>(scan),
        pos < s.len() && s[pos] == 255 && at_u64(s, pos + 1) == Ok::<(u64, int), ReaderError>(
            (0, pos + 9),
        ) ==> scanned_from(s, pos, scan) == Ok::<ScanView, ReaderError>(scan),
{
    reveal(after_block);
}

/// A wrapper inside a file is refused, and so is a second hierarchy.
pub proof fn misplaced_blocks_are_refused(
    s: Seq<u8>,
    start: int,
    compression: HierarchyCompression,
    scan: ScanView,
)
    ensures
        after_block(s, start, BlockType::GZipWrapper, scan) == Err::<
            (ScanView, Option<int>),
            ReaderError,
        >(ReaderError::Malformed),
        scan.hierarchy is Some ==> after_hierarchy(s, start, compression, scan) == Err::<
            (ScanView, int),
            ReaderError,
        >(ReaderError::Malformed),
{
    reveal(after_block);
    reveal(after_hierarchy);
}

/// A geometry must be as long as its own head, and its signals must have handles.
pub proof fn bad_geometries_are_refused(s: Seq<u8>, pos: int, length: u64, count: u64)
    requires
        at_u64(s, pos) matches Ok((n, _)) && n == length,
        at_u64(s, pos + 16) matches Ok((n, _)) && n == count,
        length < 24 || count >= u32::MAX,
    ensures
        at_geometry(s, pos) == Err::<(u64, Seq<SignalInfo>), ReaderError>(
            ReaderError::Malformed,
        ),
{
    reveal(at_geometry);
}

/// A tag that no entry has is refused, and ends the hierarchy.
pub proof fn other_entries_are_refused(s: Seq<u8>, pos: int, count: u32)
    requires
        0 <= pos < s.len(),
        30 <= s[pos] < 252,
    ensures
        at_entry(s, pos, count) is Err,
        entries_from(s, pos, count).0.len() == 0,
        entries_from(s, pos, count).1 == Err::<(), ReaderError>(ReaderError::HierarchyType),
{
}

/// Zlib data that cannot be unpacked, or not to the right length, are refused.
pub proof fn bad_zlib_data_are_refused(data: Seq<u8>, expected: u64)
    requires
        expected <= isize::MAX,
    ensures
        data.len() == 0 ==> zlib_bytes(data, expected) is Err,
        data.len() > 0 && zlib_unpacked(data, expected as nat) is None ==> zlib_bytes(
            data,
            expected,
        ) is Err,
        data.len() > 0 && zlib_unpacked(data, expected as nat) is Some && zlib_unpacked(
            data,
            expected as nat,
        )->0.len() != expected ==> zlib_bytes(data, expected) is Err,
{
}

/// An LZ4 block that cannot be unpacked is refused.
pub proof fn bad_lz4_blocks_are_refused(data: Seq<u8>, limit: u64)
    requires
        lz4_unpacked(data, limit as nat) is None,
    ensures
        lz4_bytes(data, limit) == Err::<Seq<u8>, ReaderError>(ReaderError::Lz4),
{
}

/// Changes that are packed with FastLZ are refused, but not those that are stored as
/// they are.
pub proof fn fastlz_is_refused(n: u32, raw: Seq<u8>, s: Seq<u8>, pos: int)
    requires
        n > 0,
        stands_at(leb_encoded(n as nat) + raw, s, pos),
    ensures
        at_packed(
            s,
            pos,
            (leb_encoded(n as nat) + raw).len() as int,
            ValueChangePackType::FastLz,
        ) == Err::<Seq<u8>, ReaderError>(ReaderError::FastLz),
{
    lemma_stands(leb_encoded(n as nat), raw, s, pos);
    variant_u32_reads_back(n, s, pos);
    bytes_read_back(raw, s, pos + leb_encoded(n as nat).len());
}

/// The change of a floating-point number must be marked as one that is not packed.
pub proof fn packed_numbers_are_refused(
    n: u32,
    endian: FloatingPointEndian,
    s: Seq<u8>,
    pos: int,
)
    requires
        n % 2 == 0,
        stands_at(leb_encoded(n as nat), s, pos),
    ensures
        at_change(SignalInfo::Real, endian, s, pos) == Err::<(ValueView, int), ReaderError>(
            ReaderError::Malformed,
        ),
{
    reveal(at_value);
    variant_u32_reads_back(n, s, pos);
}

/// A section fails with the first of its parts that fails, and delivers nothing. It
/// also fails if it tells other times than it was known for.
pub proof fn broken_sections_fail(
    s: Seq<u8>,
    sig: SignalsView,
    section: DataSectionInfo,
    window: Window,
)
    ensures
        ({
            let start = section.file_offset as int;
            match at_section_head(s, start) {
                Err(e) => section_changes(s, sig, section, window) == (
                    Seq::<ChangeView>::empty(),
                    Err::<(), ReaderError>(e),
                ),
                Ok(head) => {
                    &&& head.start_time != section.start_time || head.end_time
                        != section.end_time ==> section_changes(s, sig, section, window) == (
                        Seq::<ChangeView>::empty(),
                        Err::<(), ReaderError>(ReaderError::Malformed),
                    )
                    &&& at_times(s, start, head.length) is Err ==> section_changes(
                        s,
                        sig,
                        section,
                        window,
                    ).1 is Err
                    &&& frame_end(s, start) is Err ==> section_changes(s, sig, section, window).1
                        is Err
                    &&& at_times(s, start, head.length) matches Ok(table) ==> frame_end(s, start)
                        matches Ok(end) ==> at_changes(
                        s,
                        section.kind,
                        start,
                        head.length,
                        table.size,
                        end,
                    ) is Err ==> section_changes(s, sig, section, window).1 is Err
                },
            }
        }),
{
}

/// A section that fails ends the read: what it delivers up to there is the last,
/// and its error is that of the whole.
pub proof fn failures_end_the_read(
    s: Seq<u8>,
    sig: SignalsView,
    sections: Seq<DataSectionInfo>,
    k: int,
    window: Window,
)
    requires
        0 <= k < sections.len(),
        is_relevant(sections[k], window.start, window.end),
        section_changes(s, sig, sections[k], window).1 is Err,
    ensures
        changes_from(s, sig, sections, k, window) == section_changes(
            s,
            sig,
            sections[k],
            window,
        ),
{
}

/// The length of a block leads to the next block, even if that is behind the end of the
/// input. Lengths beyond 63 bits are refused.
pub proof fn lengths_lead_to_the_next_block(
    s: Seq<u8>,
    start: int,
    length: u64,
    compression: HierarchyCompression,
    scan: ScanView,
)
    requires
        at_u64(s, start) == Ok::<(u64, int), ReaderError>((length, start + 8)),
        length > 0,
        scan.hierarchy is None,
    ensures
        if length <= 0x7fff_ffff_ffff_ffff {
            &&& after_block(s, start, BlockType::Skip, scan) == Ok::<
                (ScanView, Option<int>),
                ReaderError,
            >((scan, Some(start + length)))
            &&& after_hierarchy(s, start, compression, scan) == Ok::<
                (ScanView, int),
                ReaderError,
            >(
                (
                    ScanView { hierarchy: Some((compression, start as u64)), ..scan },
                    start + length,
                ),
            )
        } else {
            &&& after_block(s, start, BlockType::Skip, scan) is Err
            &&& after_hierarchy(s, start, compression, scan) is Err
        },
{
    reveal(after_block);
    reveal(after_hierarchy);
}

/// A file is recognised block by block: a wrapper is enough, a header is remembered, and
/// each length leads to the next block, up to the end of the input.
pub proof fn recognition_goes_block_by_block(s: Seq<u8>, pos: int, length: u64, seen: bool)
    requires
        0 <= pos,
    ensures
        pos >= s.len() ==> fst_from(s, pos, seen) == Ok::<bool, ReaderError>(seen),
        pos < s.len() && 8 < s[pos] < 254 ==> fst_from(s, pos, seen) is Err,
        pos < s.len() && pos + 9 > s.len() ==> fst_from(s, pos, seen) is Err,
        pos < s.len() && at_u64(s, pos + 1) == Ok::<(u64, int), ReaderError>((length, pos + 9))
            ==> {
            &&& s[pos] == 254 ==> fst_from(s, pos, seen) == Ok::<bool, ReaderError>(true)
            &&& s[pos] == 255 && length == 0 ==> fst_from(s, pos, seen) == Ok::<
                bool,
                ReaderError,
            >(seen)
            &&& (s[pos] <= 8 || s[pos] == 255 && length > 0) && length <= 0x7fff_ffff_ffff_ffff
                ==> fst_from(s, pos, seen) == fst_from(
                s,
                pos + 1 + length,
                seen || s[pos] == 0,
            )
            &&& (s[pos] <= 8 || s[pos] == 255) && length > 0x7fff_ffff_ffff_ffff ==> fst_from(
                s,
                pos,
                seen,
            ) is Err
        },
{
}

/// Times that do not fit 64 bits are refused.
pub proof fn endless_times_are_refused(delta: u64, last: u64, n: nat, s: Seq<u8>, pos: int)
    requires
        last + delta > u64::MAX,
        stands_at(leb_encoded(delta as nat), s, pos),
        n > 0,
    ensures
        decoded_times(s, pos, n, last) == Err::<Seq<u64>, ReaderError>(ReaderError::Malformed),
{
    variant_u64_reads_back(delta, s, pos);
}

/// A section that cannot be read ends the search for the latest values with its error,
/// and so it does with the search for the first values.
pub proof fn failures_end_the_search(
    s: Seq<u8>,
    sig: SignalsView,
    sections: Seq<DataSectionInfo>,
    k: nat,
    found: Found,
    min_time: u64,
    window: Window,
    initial: bool,
    end: u64,
    error: ReaderError,
)
    requires
        k < sections.len(),
    ensures
        collected(s, sig, sections[k as int], initial && k == 0, window) == Err::<
            Seq<ChangeView>,
            ReaderError,
        >(error) && !window.is_past(sections[k as int].start_time) && sections[k as int].end_time
            >= min_time ==> latest(
            s,
            sig,
            sections,
            (k + 1) as nat,
            found,
            min_time,
            window,
            initial,
        ) == Err::<Found, ReaderError>(error),
        firsts_with(s, sig, sections[k as int], min_time, end, found) == Err::<
            Found,
            ReaderError,
        >(error) && is_relevant(sections[k as int], min_time, end) && !all_found(found, sig.mask)
            ==> firsts_from(s, sig, sections, k as int, min_time, end, found) == Err::<
            Found,
            ReaderError,
        >(error),
{
}

/// A name of 512 bytes or more is refused, and so is the text of an attribute of 69632
/// bytes or more.
pub proof fn long_names_are_refused(s: Seq<u8>, pos: int, count: u32, tpe: FstVarType)
    requires
        0 <= pos < s.len(),
    ensures
        pos + 513 <= s.len() && (forall|k: int| pos < k < pos + 513 ==> #[trigger] s[k] != 0)
            ==> at_var(s, pos, count, tpe) == Err::<EntryAt, ReaderError>(ReaderError::CString)
            && at_scope(s, pos, count) == Err::<EntryAt, ReaderError>(ReaderError::CString),
        pos + 69634 <= s.len() && (forall|k: int| pos + 1 < k < pos + 69634 ==> #[trigger] s[k]
            != 0) ==> at_attribute(s, pos, count) == Err::<EntryAt, ReaderError>(
            ReaderError::CString,
        ),
{
    if pos + 513 <= s.len() && forall|k: int| pos < k < pos + 513 ==> #[trigger] s[k] != 0 {
        lemma_zero_is_behind(s, pos + 1, pos + 513);
    }
    if pos + 69634 <= s.len() && forall|k: int| pos + 1 < k < pos + 69634 ==> #[trigger] s[k] != 0 {
        lemma_zero_is_behind(s, pos + 2, pos + 69634);
    }
}

proof fn lemma_zero_is_behind(s: Seq<u8>, from: int, to: int)
    requires
        0 <= from <= to <= s.len(),
        forall|k: int| from <= k < to ==> #[trigger] s[k] != 0,
    ensures
        first_zero(s, from) >= to,
    decreases to - from,
{
    if from < to {
        lemma_zero_is_behind(s, from + 1, to);
    } else {
        lemma_zero_not_before(s, from);
    }
}

proof fn lemma_zero_not_before(s: Seq<u8>, from: int)
    ensures
        first_zero(s, from) >= from,
    decreases s.len() - from,
{
    if from < s.len() && s[from] != 0 {
        lemma_zero_not_before(s, from + 1);
    }
}

/// A header has its own length, a known file type and a mark of the byte order, and all
/// of it is there.
pub proof fn bad_headers_are_refused(s: Seq<u8>, pos: int)
    requires
        0 <= pos,
    ensures
        at_header(s, pos) is Ok ==> pos + 329 <= s.len() && s[pos + 320] <= 2,
        at_header(s, pos) is Ok ==> at_u64(s, pos) == Ok::<(u64, int), ReaderError>(
            (329, pos + 8),
        ),
        pos + 329 <= s.len() && s[pos + 320] > 2 ==> at_header(s, pos) is Err,
{
    reveal(at_header);
}

/// The blackouts end where the length of their block says.
pub proof fn bad_blackouts_are_refused(s: Seq<u8>, pos: int)
    ensures
        at_blackouts(s, pos) matches Ok((end, _)) ==> (at_u64(s, pos) matches Ok((length, _))
            && pos + length == end),
{
    reveal(at_blackouts);
}

/// A change whose value is cut off by the end of the bytes is refused, also where it is
/// only passed over.
pub proof fn cut_changes_are_refused(
    info: SignalInfo,
    endian: FloatingPointEndian,
    n: u32,
    s: Seq<u8>,
    pos: int,
)
    requires
        stands_at(leb_encoded(n as nat), s, pos),
        match info {
            SignalInfo::Real => n % 2 == 1 && s.len() < pos + leb_encoded(n as nat).len() + 8,
            SignalInfo::BitVec(width) => width > 1 && (if n % 2 == 1 {
                s.len() < pos + leb_encoded(n as nat).len() + width
            } else {
                8 * (s.len() - (pos + leb_encoded(n as nat).len())) < width
            }),
        },
    ensures
        at_change(info, endian, s, pos) == Err::<(ValueView, int), ReaderError>(ReaderError::Io),
        at_value_end(info, n, s, pos + leb_encoded(n as nat).len()) == Err::<int, ReaderError>(
            ReaderError::Io,
        ),
{
    reveal(at_value);
    reveal(at_value_end);
    variant_u32_reads_back(n, s, pos);
}

/// A text that is cut off by the end of the bytes is refused.
pub proof fn cut_texts_are_refused(
    endian: FloatingPointEndian,
    n: u32,
    length: u32,
    part: Seq<u8>,
    s: Seq<u8>,
    pos: int,
)
    requires
        part.len() < length,
        stands_at(leb_encoded(n as nat) + (leb_encoded(length as nat) + part), s, pos),
        pos + (leb_encoded(n as nat) + (leb_encoded(length as nat) + part)).len() == s.len(),
    ensures
        at_change(SignalInfo::BitVec(0), endian, s, pos) == Err::<(ValueView, int), ReaderError>(
            ReaderError::Io,
        ),
        at_value_end(SignalInfo::BitVec(0), n, s, pos + leb_encoded(n as nat).len()) == Err::<
            int,
            ReaderError,
        >(ReaderError::Io),
{
    reveal(at_value);
    reveal(at_value_end);
    let first = leb_encoded(n as nat);
    let second = leb_encoded(length as nat);
    lemma_stands(first, second + part, s, pos);
    lemma_stands(second, part, s, pos + first.len());
    variant_u32_reads_back(n, s, pos);
    variant_u32_reads_back(length, s, pos + first.len());
}

/// An initial value is there exactly if all its bytes are: as many as the vector has
/// bits, or eight.
pub proof fn cut_frames_are_refused(
    bytes: Seq<u8>,
    pos: int,
    width: u32,
    endian: FloatingPointEndian,
)
    requires
        0 <= pos,
    ensures
        pos + width <= bytes.len() ==> at_frame_value(
            bytes,
            pos,
            SignalInfo::BitVec(width),
            endian,
        ) == Ok::<(ValueView, int), ReaderError>(
            (
                ValueView::String(Seq::new(width as nat, |k: int| bytes[pos + k])),
                pos + width,
            ),
        ),
        pos + width > bytes.len() ==> at_frame_value(
            bytes,
            pos,
            SignalInfo::BitVec(width),
            endian,
        ) == Err::<(ValueView, int), ReaderError>(ReaderError::Io),
        pos + 8 > bytes.len() ==> at_frame_value(bytes, pos, SignalInfo::Real, endian) == Err::<
            (ValueView, int),
            ReaderError,
        >(ReaderError::Io),
{
    reads_end_with_the_input(bytes, pos, width as int);
}

/// A change is delivered before the next one of its signal is looked for. If that
/// cannot be found, or would come behind the last time, the read ends there.
pub proof fn errors_come_behind_the_change(
    d: SectionData,
    w: WheelState,
    times: Seq<u64>,
    t: int,
    window: Window,
)
    requires
        0 <= t < times.len() <= w.slots.len(),
        !window.is_past(times[t]),
        w.slots[t].len() > 0,
        0 <= w.slots[t][0] < w.pos.len(),
        at_change(
            d.infos[w.slots[t][0]],
            d.endian,
            d.bytes[w.slots[t][0]],
            w.pos[w.slots[t][0]],
        ) is Ok,
    ensures
        ({
            let i = w.slots[t][0];
            let (value, next) = at_change(d.infos[i], d.endian, d.bytes[i], w.pos[i])->Ok_0;
            let change = if window.start <= times[t] {
                seq![ChangeView { time: times[t], signal: i, value }]
            } else {
                Seq::empty()
            };
            next < d.bytes[i].len() ==> match at_delta(d.infos[i], d.bytes[i], next) {
                Err(e) => delivered(d, w, times, t, window) == (change, Err::<(), ReaderError>(e)),
                Ok(delta) => t + delta >= w.slots.len() ==> delivered(d, w, times, t, window) == (
                    change,
                    Err::<(), ReaderError>(ReaderError::Malformed),
                ),
            }
        }),
{
    reveal(visited);
}

} // verus!
