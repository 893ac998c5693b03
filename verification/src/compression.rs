//! Unpacking of compressed bytes, by the `miniz_oxide` and `lz4_flex` crates.

use crate::types::{InflateError, ReaderError, Result};
use miniz_oxide::inflate::decompress_to_vec_zlib_with_limit;
use miniz_oxide::inflate::stream::InflateState;
use miniz_oxide::{DataFormat, MZError, MZFlush, MZStatus};
use vstd::prelude::*;

verus! {

/// The streaming decoder of `miniz_oxide`.
#[verifier::external_type_specification]
#[verifier::external_body]
pub struct ExInflateState(InflateState);

/// How far a call of the streaming decoder got.
#[derive(Clone, Copy, Debug, PartialEq, Eq, Structural)]
pub enum InflateStatus {
    /// there may be more
    Progress,
    /// the stream has ended
    StreamEnd,
    /// a dictionary is needed
    NeedDict,
}

/// What the streaming decoder made of the bytes of one call: how many it took,
/// what it wrote, and how it fared.
pub type InflateReply = (nat, Seq<u8>, core::result::Result<InflateStatus, InflateError>);

/// The calls that a streaming decoder for raw data has had: the bytes it was
/// offered, and the room it had for its output.
pub uninterp spec fn raw_inflate_calls(state: InflateState) -> Seq<(Seq<u8>, nat)>;

/// What the streaming decoder for raw data replies to a call, after earlier calls.
pub uninterp spec fn raw_inflate_reply(
    calls: Seq<(Seq<u8>, nat)>,
    input: Seq<u8>,
    room: nat,
) -> InflateReply;

/// The bytes that zlib data unpack to, if they unpack to no more than `limit` bytes.
pub uninterp spec fn zlib_unpacked(data: Seq<u8>, limit: nat) -> Option<Seq<u8>>;

/// The bytes that an LZ4 block unpacks to, if they unpack to no more than `limit` bytes.
pub uninterp spec fn lz4_unpacked(data: Seq<u8>, limit: nat) -> Option<Seq<u8>>;

/// Calls `InflateState::new` of `miniz_oxide`, for data without a wrapper. The
/// new decoder has had no calls.
#[verifier::external_body]
pub(crate) fn new_raw_inflate() -> (r: InflateState)
    ensures
        raw_inflate_calls(r) == Seq::<(Seq<u8>, nat)>::empty(),
{
    InflateState::new(DataFormat::Raw)
}

/// Calls `inflate` of `miniz_oxide`, without flushing, on an output buffer of
/// `room` bytes. The reply depends on the calls that the decoder has had, on
/// `input` and on `room`; it takes no more bytes than there are, and writes no
/// more than there is room for.
#[verifier::external_body]
pub(crate) fn raw_inflate(state: &mut InflateState, input: &[u8], room: usize) -> (r: (
    usize,
    Vec<u8>,
    core::result::Result<InflateStatus, InflateError>,
))
    requires
        0 < room <= 0x1000_0000,
    ensures
        raw_inflate_calls(*final(state)) == raw_inflate_calls(*old(state)).push(
            (input@, room as nat),
        ),
        (r.0 as nat, r.1@, r.2) == raw_inflate_reply(
            raw_inflate_calls(*old(state)),
            input@,
            room as nat,
        ),
        r.0 <= input@.len(),
        r.1@.len() <= room,
{
    let mut out = vec![0u8; room];
    let res = miniz_oxide::inflate::stream::inflate(state, input, &mut out, MZFlush::None);
    out.truncate(res.bytes_written);
    let status = match res.status {
        Ok(MZStatus::Ok) => Ok(InflateStatus::Progress),
        Ok(MZStatus::StreamEnd) => Ok(InflateStatus::StreamEnd),
        Ok(MZStatus::NeedDict) => Ok(InflateStatus::NeedDict),
        Err(MZError::Buf) => Err(InflateError::Buf),
        Err(MZError::Data) => Err(InflateError::Data),
        Err(MZError::Stream) => Err(InflateError::Stream),
        Err(_) => Err(InflateError::Other),
    };
    (res.bytes_consumed, out, status)
}

/// Calls `decompress_to_vec_zlib_with_limit` of `miniz_oxide`. The result
/// depends on the bytes and the limit, and is no longer than the limit. (The
/// call may not return if there are no bytes to read.)
#[verifier::external_body]
fn zlib_unpack(data: &[u8], limit: usize) -> (r: Option<Vec<u8>>)
    requires
        data@.len() > 0,
        limit <= isize::MAX,
    ensures
        match r {
            Some(bytes) => zlib_unpacked(data@, limit as nat) == Some(bytes@) && bytes@.len()
                <= limit,
            None => zlib_unpacked(data@, limit as nat) is None,
        },
{
    decompress_to_vec_zlib_with_limit(data, limit).ok()
}

/// Calls `decompress` of `lz4_flex`. The result depends on the bytes and the
/// limit, and is no longer than the limit. (The call sums up the bytes of a length
/// in 32 bits, and adds the sum to a position. It may overflow if a length is
/// larger than that.)
#[verifier::external_body]
fn lz4_unpack(data: &[u8], limit: usize) -> (r: Option<Vec<u8>>)
    requires
        limit <= isize::MAX,
        !has_long_length(data@, 0),
    ensures
        match r {
            Some(bytes) => lz4_unpacked(data@, limit as nat) == Some(bytes@) && bytes@.len()
                <= limit,
            None => lz4_unpacked(data@, limit as nat) is None,
        },
{
    lz4_flex::block::decompress(data, limit).ok()
}

/// The largest sum of 32 bits.
pub const LZ4_MAX_SUM: u64 = 0xffff_ffff;

/// A smaller bound, for where positions have 32 bits too: the sum is added to a
/// position, which is less than 2^31.
pub const LZ4_MAX_SUM_NARROW: u64 = 2_040_000_000;

/// The largest sum that the bytes of a length may have on this machine.
pub open spec fn max_sum() -> u64 {
    if usize::MAX > 0xffff_ffff {
        LZ4_MAX_SUM
    } else {
        LZ4_MAX_SUM_NARROW
    }
}

/// The number of bytes of 255 in a row from `pos` on.
pub open spec fn run_at(s: Seq<u8>, pos: int) -> nat
    decreases s.len() - pos,
{
    if 0 <= pos < s.len() && s[pos] == 255 {
        run_at(s, pos + 1) + 1
    } else {
        0
    }
}

/// The sum of the bytes from `pos` on up to the first that is not 255, and where
/// they end.
pub open spec fn length_sum(s: Seq<u8>, pos: int) -> (int, int) {
    let last = pos + run_at(s, pos);
    if last < s.len() {
        (255 * run_at(s, pos) + s[last], last + 1)
    } else {
        ((255 * run_at(s, pos)) as int, s.len() as int)
    }
}

/// The length that four bits of a token tell, and where the next part begins. If
/// they are all set, the bytes at `pos` add to it.
pub open spec fn token_length(s: Seq<u8>, pos: int, bits: u8) -> (int, int) {
    if bits == 15 {
        (15 + length_sum(s, pos).0, length_sum(s, pos).1)
    } else {
        (bits as int, pos)
    }
}

/// The bytes at `pos` add to a length, and their sum is too large.
pub open spec fn is_too_long(s: Seq<u8>, pos: int, bits: u8) -> bool {
    bits == 15 && length_sum(s, pos).0 > max_sum()
}

/// From the token at `pos` on, an LZ4 block has a length whose bytes have too large
/// a sum. A token is followed by the literals whose number it tells, the offset of
/// a match in two bytes, and the length of the match.
pub open spec fn has_long_length(s: Seq<u8>, pos: int) -> bool
    decreases s.len() - pos,
    when 0 <= pos
    via has_long_length_decreases
{
    if pos >= s.len() {
        false
    } else {
        let (literals, begin) = token_length(s, pos + 1, s[pos] / 16);
        let behind = begin + literals + 2;
        ||| is_too_long(s, pos + 1, s[pos] / 16)
        ||| behind <= s.len() && (is_too_long(s, behind, s[pos] % 16) || has_long_length(
            s,
            token_length(s, behind, s[pos] % 16).1,
        ))
    }
}

#[via_fn]
proof fn has_long_length_decreases(s: Seq<u8>, pos: int) {
    if 0 <= pos < s.len() {
        lemma_run_at(s, pos + 1);
        let (literals, begin) = token_length(s, pos + 1, s[pos] / 16);
        lemma_run_at(s, begin + literals + 2);
    }
}

proof fn lemma_run_at(s: Seq<u8>, pos: int)
    ensures
        0 <= pos <= s.len() ==> pos + run_at(s, pos) <= s.len(),
    decreases s.len() - pos,
{
    if 0 <= pos < s.len() {
        lemma_run_at(s, pos + 1);
    }
}

/// Reads the length that four bits of a token tell, unless it is too long.
fn read_token_length(data: &[u8], pos: usize, bits: u8) -> (r: Option<(u64, usize)>)
    requires
        pos <= data@.len(),
    ensures
        match r {
            Some((length, next)) => !is_too_long(data@, pos as int, bits) && (
                length as int,
                next as int,
            ) == token_length(data@, pos as int, bits) && length <= 15 + LZ4_MAX_SUM && pos <= next
                <= data@.len(),
            None => is_too_long(data@, pos as int, bits),
        },
{
    if bits != 15 {
        return Some((bits as u64, pos));
    }
    let max: u64 = if usize::MAX > 0xffff_ffff {
        LZ4_MAX_SUM
    } else {
        LZ4_MAX_SUM_NARROW
    };
    let mut p: usize = pos;
    let mut sum: u64 = 0;
    proof {
        lemma_run_at(data@, pos as int);
    }
    while p < data.len() && data[p] == 255
        invariant
            bits == 15,
            pos <= p <= data@.len(),
            max == max_sum() <= LZ4_MAX_SUM,
            sum <= max,
            sum == 255 * (p - pos),
            run_at(data@, pos as int) == p - pos + run_at(data@, p as int),
        decreases data@.len() - p,
    {
        sum = sum + 255;
        p = p + 1;
        if sum > max {
            return None;
        }
    }
    if p < data.len() {
        sum = sum + data[p] as u64;
        p = p + 1;
        if sum > max {
            return None;
        }
    }
    Some((15 + sum, p))
}

fn check_lengths(data: &[u8]) -> (r: bool)
    ensures
        r == has_long_length(data@, 0),
{
    let len: usize = data.len();
    let mut pos: usize = 0;
    while pos < len
        invariant
            pos <= len == data@.len(),
            has_long_length(data@, 0) == has_long_length(data@, pos as int),
        decreases len - pos,
    {
        let token: u8 = data[pos];
        let (literals, begin) = match read_token_length(data, pos + 1, token / 16) {
            None => {
                return true;
            },
            Some(length) => length,
        };
        if ((len - begin) as u64) < literals + 2 {
            return false;
        }
        let behind: usize = begin + literals as usize + 2;
        match read_token_length(data, behind, token % 16) {
            None => {
                return true;
            },
            Some((_, next)) => {
                pos = next;
            },
        }
    }
    false
}

/// `r` is what `m` says, compared by its bytes.
pub open spec fn same_bytes(r: Result<Vec<u8>>, m: Result<Seq<u8>>) -> bool {
    match (r, m) {
        (Ok(v), Ok(w)) => v@ == w,
        (Err(e), Err(f)) => e == f,
        _ => false,
    }
}

/// The bytes that the zlib data `data` unpack to, which must be `expected` in number.
pub open spec fn zlib_bytes(data: Seq<u8>, expected: u64) -> Result<Seq<u8>> {
    if data.len() == 0 || expected > isize::MAX {
        Err(ReaderError::Zlib)
    } else {
        exact_length(zlib_unpacked(data, expected as nat), expected)
    }
}

/// Unpacked bytes, which must be `expected` in number.
pub open spec fn exact_length(unpacked: Option<Seq<u8>>, expected: u64) -> Result<Seq<u8>> {
    match unpacked {
        None => Err(ReaderError::Zlib),
        Some(bytes) => if bytes.len() == expected {
            Ok(bytes)
        } else {
            Err(ReaderError::Malformed)
        },
    }
}

/// Unpacked bytes are good only if they have the expected length.
pub fn require_length(unpacked: Option<Vec<u8>>, expected: u64) -> (r: Result<Vec<u8>>)
    ensures
        same_bytes(
            r,
            exact_length(
                match unpacked {
                    Some(bytes) => Some(bytes@),
                    None => None,
                },
                expected,
            ),
        ),
{
    match unpacked {
        None => Err(ReaderError::Zlib),
        Some(bytes) => if bytes.len() as u64 == expected {
            Ok(bytes)
        } else {
            Err(ReaderError::Malformed)
        },
    }
}

pub fn unpack_zlib(data: &[u8], expected: u64) -> (r: Result<Vec<u8>>)
    ensures
        same_bytes(r, zlib_bytes(data@, expected)),
{
    if data.len() == 0 || expected > isize::MAX as u64 {
        return Err(ReaderError::Zlib);
    }
    require_length(zlib_unpack(data, expected as usize), expected)
}

/// Bytes that are zlib data, unless the packed and the unpacked length are the same.
pub open spec fn maybe_zlib_bytes(data: Seq<u8>, expected: u64) -> Result<Seq<u8>> {
    if data.len() == expected {
        Ok(data)
    } else {
        zlib_bytes(data, expected)
    }
}

pub fn unpack_maybe_zlib(data: &[u8], expected: u64) -> (r: Result<Vec<u8>>)
    ensures
        same_bytes(r, maybe_zlib_bytes(data@, expected)),
{
    if data.len() as u64 == expected {
        Ok(vstd::slice::slice_to_vec(data))
    } else {
        unpack_zlib(data, expected)
    }
}

/// The bytes that the LZ4 block `data` unpacks to, which may be at most `limit`.
pub open spec fn lz4_bytes(data: Seq<u8>, limit: u64) -> Result<Seq<u8>> {
    if limit > isize::MAX || has_long_length(data, 0) {
        Err(ReaderError::Lz4)
    } else {
        match lz4_unpacked(data, limit as nat) {
            Some(bytes) => Ok(bytes),
            None => Err(ReaderError::Lz4),
        }
    }
}

pub fn unpack_lz4(data: &[u8], limit: u64) -> (r: Result<Vec<u8>>)
    ensures
        same_bytes(r, lz4_bytes(data@, limit)),
{
    if limit > isize::MAX as u64 || check_lengths(data) {
        return Err(ReaderError::Lz4);
    }
    match lz4_unpack(data, limit as usize) {
        Some(bytes) => Ok(bytes),
        None => Err(ReaderError::Lz4),
    }
}

} // verus!
