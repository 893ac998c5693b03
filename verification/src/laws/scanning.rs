//! What a scan over the blocks goes by.

use crate::blocks::{
    at_blackout_list, at_blackouts, at_block_type, at_geometry, at_header, HEADER_LENGTH,
    HeaderView,
};
use crate::header::{
    after_block, after_data, after_hierarchy, found_incomplete, lemma_blackouts_end,
    lemma_block_advances, meta_of_file, nothing_found, reached, scanned, scanned_from, ScanView,
};
use crate::primitives::{
    at_bytes, at_u64, at_u8, at_variant_u32, at_variant_u64, leb_len, leb_value,
    lemma_leb_len_bound,
};
use crate::section::at_section_head;
use crate::types::{BlockType, DataSectionKind};
use vstd::prelude::*;

verus! {

/// How many bytes of a data section a scan without a table of times reads.
pub const SECTION_HEAD_LENGTH: u64 = 32;

/// Blocks of this type are data sections.
pub open spec fn is_data(tpe: BlockType) -> bool {
    tpe is VcData || tpe is VcDataDynamicAlias || tpe is VcDataDynamicAlias2
}

/// A scan from the block at `pos` on meets a data section in whose body the byte
/// `p` lies, behind the head of the section.
pub open spec fn in_body(s: Seq<u8>, pos: int, scan: ScanView, p: int) -> bool
    decreases
            if pos < s.len() {
                s.len() - pos
            } else {
                0
            },
    when 0 <= pos
    via in_body_decreases
{
    match at_block_type(s, pos) {
        Err(_) => false,
        Ok(tpe) => {
            ||| is_data(tpe) && pos + 1 + SECTION_HEAD_LENGTH <= p && (at_u64(s, pos + 1) matches Ok(
                (length, _),
            ) && p < pos + 1 + length)
            ||| match after_block(s, pos + 1, tpe, scan) {
                Ok((next, Some(end))) => in_body(s, end, next, p),
                _ => false,
            }
        },
    }
}

#[via_fn]
proof fn in_body_decreases(s: Seq<u8>, pos: int, scan: ScanView, p: int) {
    if let Ok(tpe) = at_block_type(s, pos) {
        lemma_block_advances(s, pos + 1, tpe, scan);
    }
}

proof fn lemma_body_behind(s: Seq<u8>, pos: int, scan: ScanView, p: int)
    requires
        0 <= pos,
        in_body(s, pos, scan, p),
    ensures
        pos + 1 + SECTION_HEAD_LENGTH <= p,
    decreases
            if pos < s.len() {
                s.len() - pos
            } else {
                0
            },
{
    if let Ok(tpe) = at_block_type(s, pos) {
        lemma_block_advances(s, pos + 1, tpe, scan);
        if let Ok((next, Some(end))) = after_block(s, pos + 1, tpe, scan) {
            if in_body(s, end, next, p) {
                lemma_body_behind(s, end, next, p);
            }
        }
    }
}

/// Two inputs of the same length have the same bytes from `a` to `b`.
pub open spec fn alike(x: Seq<u8>, y: Seq<u8>, a: int, b: int) -> bool {
    &&& x.len() == y.len()
    &&& forall|p: int| a <= p < b && 0 <= p < x.len() ==> #[trigger] x[p] == y[p]
}

proof fn lemma_bytes_alike(x: Seq<u8>, y: Seq<u8>, pos: int, n: int, b: int)
    requires
        alike(x, y, pos, b),
        pos + n <= b || x.len() <= b,
    ensures
        at_bytes(x, pos, n) == at_bytes(y, pos, n),
{
    if 0 <= pos && 0 <= n && pos + n <= x.len() {
        assert(x.subrange(pos, pos + n) =~= y.subrange(pos, pos + n));
    }
}

proof fn lemma_u64_alike(x: Seq<u8>, y: Seq<u8>, pos: int, b: int)
    requires
        alike(x, y, pos, b),
        pos + 8 <= b || x.len() <= b,
    ensures
        at_u64(x, pos) == at_u64(y, pos),
{
}

proof fn lemma_leb_alike(x: Seq<u8>, y: Seq<u8>, pos: int, max: nat, b: int)
    requires
        alike(x, y, pos, b),
        leb_len(x, pos, max) matches Ok(n) ==> pos + n <= b || x.len() <= b,
        leb_len(x, pos, max) is Err ==> x.len() <= b,
    ensures
        leb_len(x, pos, max) == leb_len(y, pos, max),
        leb_len(x, pos, max) matches Ok(n) ==> leb_value(x, pos, n) == leb_value(y, pos, n),
    decreases max,
{
    lemma_leb_len_bound(x, pos, max);
    if max > 0 && 0 <= pos < x.len() {
        assert(x[pos] == y[pos]);
        if x[pos] >= 128 {
            lemma_leb_alike(x, y, pos + 1, (max - 1) as nat, b);
        } else {
            reveal_with_fuel(leb_value, 2);
        }
    }
}

proof fn lemma_header_alike(x: Seq<u8>, y: Seq<u8>, pos: int, b: int)
    requires
        alike(x, y, pos, b),
        pos + HEADER_LENGTH <= b || x.len() <= b,
    ensures
        at_header(x, pos) == at_header(y, pos),
{
    reveal(at_header);
    lemma_u64_alike(x, y, pos, b);
    lemma_bytes_alike(x, y, pos + 8, 24, b);
    lemma_bytes_alike(x, y, pos + 32, 41, b);
    lemma_bytes_alike(x, y, pos + 73, 128, b);
    lemma_bytes_alike(x, y, pos + 201, 119, b);
    lemma_u64_alike(x, y, pos + 321, b);
}

proof fn lemma_geometry_alike(x: Seq<u8>, y: Seq<u8>, pos: int, b: int)
    requires
        alike(x, y, pos, b),
        at_geometry(x, pos) matches Ok((length, _)) ==> pos + length <= b,
        at_geometry(x, pos) is Err ==> x.len() <= b,
    ensures
        at_geometry(x, pos) == at_geometry(y, pos),
{
    reveal(at_geometry);
    lemma_u64_alike(x, y, pos, b);
    lemma_u64_alike(x, y, pos + 8, b);
    lemma_u64_alike(x, y, pos + 16, b);
    if let Ok((length, _)) = at_u64(x, pos) {
        lemma_bytes_alike(x, y, pos + 24, length - 24, b);
    }
}

proof fn lemma_blackout_list_alike(
    x: Seq<u8>,
    y: Seq<u8>,
    pos: int,
    n: nat,
    last: u64,
    b: int,
)
    requires
        alike(x, y, pos, b),
        at_blackout_list(x, pos, n, last) matches Ok((_, end)) ==> end <= b || x.len() <= b,
        at_blackout_list(x, pos, n, last) is Err ==> x.len() <= b,
    ensures
        at_blackout_list(x, pos, n, last) == at_blackout_list(y, pos, n, last),
    decreases n,
{
    if n > 0 {
        if let Ok((_, p)) = at_u8(x, pos) {
            lemma_leb_len_bound(x, p, 10);
            if let Ok((delta, q)) = at_variant_u64(x, p) {
                if last + delta <= u64::MAX {
                    let time = (last + delta) as u64;
                    lemma_blackouts_end(x, q, (n - 1) as nat, time);
                    lemma_blackout_list_alike(x, y, q, (n - 1) as nat, time, b);
                }
            }
            lemma_leb_alike(x, y, p, 10, b);
        }
    }
}

proof fn lemma_blackouts_alike(x: Seq<u8>, y: Seq<u8>, pos: int, b: int)
    requires
        alike(x, y, pos, b),
        at_blackouts(x, pos) matches Ok((end, _)) ==> end <= b,
        at_blackouts(x, pos) is Err ==> x.len() <= b,
    ensures
        at_blackouts(x, pos) == at_blackouts(y, pos),
{
    reveal(at_blackouts);
    if let Ok((length, p)) = at_u64(x, pos) {
        lemma_leb_len_bound(x, p, 5);
        if let Ok((n, q)) = at_variant_u32(x, p) {
            lemma_blackouts_end(x, q, n as nat, 0);
            lemma_blackout_list_alike(x, y, q, n as nat, 0, b);
        }
        lemma_leb_alike(x, y, p, 5, b);
    }
    lemma_u64_alike(x, y, pos, b);
}

/// A block other than a data section is read from its own bytes alone.
proof fn lemma_block_alike(
    x: Seq<u8>,
    y: Seq<u8>,
    start: int,
    tpe: BlockType,
    scan: ScanView,
    b: int,
)
    requires
        !is_data(tpe),
        alike(x, y, start, b),
        start + 8 <= b || x.len() <= b,
        after_block(x, start, tpe, scan) matches Ok((_, Some(end))) ==> end <= b,
        after_block(x, start, tpe, scan) is Err ==> x.len() <= b,
    ensures
        after_block(x, start, tpe, scan) == after_block(y, start, tpe, scan),
{
    reveal(after_block);
    reveal(after_hierarchy);
    lemma_u64_alike(x, y, start, b);
    match tpe {
        BlockType::Header => {
            lemma_header_alike(x, y, start, b);
        },
        BlockType::Geometry => {
            lemma_geometry_alike(x, y, start, b);
        },
        BlockType::Blackout => {
            lemma_blackouts_alike(x, y, start, b);
        },
        _ => {},
    }
}

/// Without a table of times, a data section is read from its head alone.
proof fn lemma_data_alike(
    x: Seq<u8>,
    y: Seq<u8>,
    start: int,
    tpe: BlockType,
    scan: ScanView,
)
    requires
        is_data(tpe),
        scan.time_table is None,
        alike(x, y, start, start + SECTION_HEAD_LENGTH),
    ensures
        after_block(x, start, tpe, scan) == after_block(y, start, tpe, scan),
{
    reveal(after_block);
    reveal(after_data);
    let b = start + SECTION_HEAD_LENGTH;
    lemma_u64_alike(x, y, start, b);
    lemma_u64_alike(x, y, start + 8, b);
    lemma_u64_alike(x, y, start + 16, b);
    lemma_u64_alike(x, y, start + 24, b);
}

proof fn lemma_scan_alike(x: Seq<u8>, y: Seq<u8>, pos: int, scan: ScanView)
    requires
        0 <= pos,
        scan.time_table is None,
        x.len() == y.len(),
        forall|p: int|
            pos <= p < x.len() && !in_body(x, pos, scan, p) ==> #[trigger] x[p] == y[p],
    ensures
        scanned_from(x, pos, scan) == scanned_from(y, pos, scan),
        reached(x, pos, scan) == reached(y, pos, scan),
    decreases
            if pos < x.len() {
                x.len() - pos
            } else {
                0
            },
{
    if pos < x.len() {
        assert(!in_body(x, pos, scan, pos)) by {
            if in_body(x, pos, scan, pos) {
                lemma_body_behind(x, pos, scan, pos);
            }
        }
        assert(x[pos] == y[pos]);
    }
    assert(at_block_type(x, pos) == at_block_type(y, pos));
    if let Ok(tpe) = at_block_type(x, pos) {
        let start = pos + 1;
        lemma_block_advances(x, start, tpe, scan);
        let after = after_block(x, start, tpe, scan);
        if is_data(tpe) {
            assert forall|p: int|
                start <= p < start + SECTION_HEAD_LENGTH && 0 <= p
                    < x.len() implies #[trigger] x[p] == y[p] by {
                if in_body(x, pos, scan, p) {
                    lemma_body_behind(x, pos, scan, p);
                }
            }
            lemma_data_alike(x, y, start, tpe, scan);
        } else {
            let b = match after {
                Ok((_, Some(end))) => if end < start + 8 {
                    start + 8
                } else {
                    end
                },
                _ => x.len() as int,
            };
            assert forall|p: int| start <= p < b && 0 <= p < x.len() implies #[trigger] x[p]
                == y[p] by {
                if in_body(x, pos, scan, p) {
                    if let Ok((next, Some(end))) = after {
                        lemma_body_behind(x, end, next, p);
                    }
                }
            }
            lemma_block_alike(x, y, start, tpe, scan, b);
        }
        if let Ok((next, Some(end))) = after {
            assert(next.time_table is None && (is_data(tpe) ==> (at_u64(x, start) matches Ok(
                (length, _),
            ) && end == start + length))) by {
                reveal(after_block);
                reveal(after_data);
                reveal(after_hierarchy);
            }
            lemma_scan_alike(x, y, end, next);
        }
    }
}

/// Without a table of times, the bodies of the data sections do not matter: two
/// inputs of the same length that differ only there, behind the first
/// [`SECTION_HEAD_LENGTH`] bytes of a section, are known the same way. Scans over
/// them end with the same result, having found the same, also where they fail.
pub proof fn section_bodies_are_skipped(x: Seq<u8>, y: Seq<u8>)
    requires
        x.len() == y.len(),
        forall|p: int|
            0 <= p < x.len() && !in_body(x, 0, nothing_found(false), p) ==> #[trigger] x[p]
                == y[p],
    ensures
        scanned(x, false) == scanned(y, false),
        reached(x, 0, nothing_found(false)) == reached(y, 0, nothing_found(false)),
        meta_of_file(x, false) == meta_of_file(y, false),
{
    lemma_scan_alike(x, y, 0, nothing_found(false));
}

/// Two data sections, the first of them the first of the file, correct a header
/// that tells no times: they give it the start of the first and the end of the
/// last. A header that tells times keeps them. Nothing else in it changes.
pub proof fn sections_correct_unknown_times(
    s: Seq<u8>,
    scan: ScanView,
    first: int,
    first_kind: DataSectionKind,
    second: int,
    second_kind: DataSectionKind,
)
    requires
        scan.header is Some,
        scan.data_sections.len() == 0,
        after_data(s, first, first_kind, scan) matches Ok((one, _)) && after_data(
            s,
            second,
            second_kind,
            one,
        ) is Ok,
    ensures
        ({
            let header = scan.header->0;
            let one = after_data(s, first, first_kind, scan)->Ok_0.0;
            let two = after_data(s, second, second_kind, one)->Ok_0.0;
            let start_time = at_section_head(s, first)->Ok_0.start_time;
            let first_end = at_section_head(s, first)->Ok_0.end_time;
            let second_end = at_section_head(s, second)->Ok_0.end_time;
            if header.start_time == 0 && header.end_time == 0 {
                &&& one.header == Some(HeaderView { start_time, end_time: first_end, ..header })
                &&& two.header == Some(HeaderView { start_time, end_time: second_end, ..header })
            } else {
                one.header == Some(header) && two.header == Some(header)
            }
        }),
{
    reveal(after_data);
}

/// From the block at `pos` on, there is no header.
pub open spec fn no_header_from(s: Seq<u8>, pos: int, scan: ScanView) -> bool
    decreases
            if pos < s.len() {
                s.len() - pos
            } else {
                0
            },
    when 0 <= pos
    via no_header_from_decreases
{
    match at_block_type(s, pos) {
        Err(_) => true,
        Ok(tpe) => {
            &&& !(tpe is Header)
            &&& match after_block(s, pos + 1, tpe, scan) {
                Ok((next, Some(end))) => no_header_from(s, end, next),
                _ => true,
            }
        },
    }
}

#[via_fn]
proof fn no_header_from_decreases(s: Seq<u8>, pos: int, scan: ScanView) {
    if let Ok(tpe) = at_block_type(s, pos) {
        lemma_block_advances(s, pos + 1, tpe, scan);
    }
}

/// Whatever blocks follow a header, as long as none of them is another header:
/// nothing but its times changes, and those change only if it tells none.
pub proof fn header_is_kept(s: Seq<u8>, pos: int, scan: ScanView)
    requires
        0 <= pos,
        scan.header is Some,
        no_header_from(s, pos, scan),
    ensures
        scanned_from(s, pos, scan) matches Ok(result) ==> (result.header matches Some(header) && {
            let before = scan.header->0;
            &&& header == (HeaderView {
                start_time: header.start_time,
                end_time: header.end_time,
                ..before
            })
            &&& !found_incomplete(scan) ==> header == before
        }),
    decreases
            if pos < s.len() {
                s.len() - pos
            } else {
                0
            },
{
    if let Ok(tpe) = at_block_type(s, pos) {
        lemma_block_advances(s, pos + 1, tpe, scan);
        if let Ok((next, end)) = after_block(s, pos + 1, tpe, scan) {
            assert(next.header matches Some(header) && header == (HeaderView {
                start_time: header.start_time,
                end_time: header.end_time,
                ..scan.header->0
            }) && (!found_incomplete(scan) ==> header == scan.header->0 && !found_incomplete(next)))
                by {
                reveal(after_block);
                reveal(after_data);
                reveal(after_hierarchy);
            }
            if let Some(end) = end {
                header_is_kept(s, end, next);
            }
        }
    }
}

} // verus!
