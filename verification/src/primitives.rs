//! The smallest pieces of the format: bytes, integers and texts at a place in a
//! sequence of bytes.
//!
//! Each reading function has a model of its own, a spec function from the bytes
//! and a position to the value there and the position behind it.

use crate::types::{ReaderError, Result};
use vstd::prelude::*;
use vstd::utf8::{decode_utf8, valid_utf8};

verus! {

/// `r` is what `m` says, with positions that fit the machine.
pub open spec fn same_at<T>(r: Result<(T, u64)>, m: Result<(T, int)>) -> bool {
    match (r, m) {
        (Ok((v, p)), Ok((w, q))) => v == w && p == q,
        (Err(e), Err(f)) => e == f,
        _ => false,
    }
}

/// As [`same_at`], for a value that is compared by its bytes.
pub open spec fn same_bytes_at(r: Result<(Vec<u8>, u64)>, m: Result<(Seq<u8>, int)>) -> bool {
    match (r, m) {
        (Ok((v, p)), Ok((w, q))) => v@ == w && p == q,
        (Err(e), Err(f)) => e == f,
        _ => false,
    }
}

/// As [`same_at`], for a text.
pub open spec fn same_text_at(r: Result<(String, u64)>, m: Result<(Seq<char>, int)>) -> bool {
    match (r, m) {
        (Ok((v, p)), Ok((w, q))) => v@ == w && p == q,
        (Err(e), Err(f)) => e == f,
        _ => false,
    }
}

/// The byte at `pos`.
pub open spec fn at_u8(s: Seq<u8>, pos: int) -> Result<(u8, int)> {
    if 0 <= pos < s.len() {
        Ok((s[pos], pos + 1))
    } else {
        Err(ReaderError::Io)
    }
}

/// The `n` bytes at `pos`.
pub open spec fn at_bytes(s: Seq<u8>, pos: int, n: int) -> Result<(Seq<u8>, int)> {
    if 0 <= pos && 0 <= n && pos + n <= s.len() {
        Ok((s.subrange(pos, pos + n), pos + n))
    } else {
        Err(ReaderError::Io)
    }
}

/// The number that eight bytes spell, the most significant byte first.
pub open spec fn be_value(s: Seq<u8>, pos: int) -> u64 {
    (((((((s[pos] * 256 + s[pos + 1]) * 256 + s[pos + 2]) * 256 + s[pos + 3]) * 256 + s[pos + 4])
        * 256 + s[pos + 5]) * 256 + s[pos + 6]) * 256 + s[pos + 7]) as u64
}

/// The number that eight bytes spell, the least significant byte first.
pub open spec fn le_value(s: Seq<u8>, pos: int) -> u64 {
    (((((((s[pos + 7] * 256 + s[pos + 6]) * 256 + s[pos + 5]) * 256 + s[pos + 4]) * 256 + s[pos
        + 3]) * 256 + s[pos + 2]) * 256 + s[pos + 1]) * 256 + s[pos]) as u64
}

/// The big-endian number at `pos`.
pub open spec fn at_u64(s: Seq<u8>, pos: int) -> Result<(u64, int)> {
    if 0 <= pos && pos + 8 <= s.len() {
        Ok((be_value(s, pos), pos + 8))
    } else {
        Err(ReaderError::Io)
    }
}

/// The number of bytes of the LEB128 integer at `pos`, which may have at most `max`.
pub open spec fn leb_len(s: Seq<u8>, pos: int, max: nat) -> Result<nat>
    decreases max,
{
    if max == 0 {
        Err(ReaderError::ParseVariant)
    } else if !(0 <= pos < s.len()) {
        Err(ReaderError::Io)
    } else if s[pos] < 128 {
        Ok(1)
    } else {
        match leb_len(s, pos + 1, (max - 1) as nat) {
            Ok(n) => Ok(n + 1),
            Err(e) => Err(e),
        }
    }
}

/// The number that `n` LEB128 bytes spell: seven bits each, the lowest first.
pub open spec fn leb_value(s: Seq<u8>, pos: int, n: nat) -> nat
    decreases n,
{
    if n == 0 {
        0
    } else {
        (s[pos] % 128) as nat + 128 * leb_value(s, pos + 1, (n - 1) as nat)
    }
}

/// 128 to the power of `n`.
pub open spec fn pow128(n: nat) -> nat
    decreases n,
{
    if n == 0 {
        1
    } else {
        128 * pow128((n - 1) as nat)
    }
}

/// The LEB128 integer at `pos`, of at most five bytes, modulo 2^32.
pub open spec fn at_variant_u32(s: Seq<u8>, pos: int) -> Result<(u32, int)> {
    match leb_len(s, pos, 5) {
        Ok(n) => Ok(((leb_value(s, pos, n) % 0x1_0000_0000) as u32, pos + n)),
        Err(e) => Err(e),
    }
}

/// The LEB128 integer at `pos`, of at most ten bytes, modulo 2^64.
pub open spec fn at_variant_u64(s: Seq<u8>, pos: int) -> Result<(u64, int)> {
    match leb_len(s, pos, 10) {
        Ok(n) => Ok(((leb_value(s, pos, n) % 0x1_0000_0000_0000_0000) as u64, pos + n)),
        Err(e) => Err(e),
    }
}

/// The signed number that `n` LEB128 bytes spell in two's complement.
pub open spec fn leb_signed(s: Seq<u8>, pos: int, n: nat) -> int {
    if 2 * leb_value(s, pos, n) >= pow128(n) {
        leb_value(s, pos, n) - pow128(n)
    } else {
        leb_value(s, pos, n) as int
    }
}

/// The signed LEB128 integer at `pos`, of at most ten bytes.
pub open spec fn at_variant_signed(s: Seq<u8>, pos: int) -> Result<(int, int)> {
    match leb_len(s, pos, 10) {
        Ok(n) => Ok((leb_signed(s, pos, n), pos + n)),
        Err(e) => Err(e),
    }
}

/// The index of the first zero byte of `s` at or behind `from`, or the length of `s`.
pub open spec fn first_zero(s: Seq<u8>, from: int) -> int
    decreases s.len() - from,
{
    if from >= s.len() || s[from] == 0 {
        from
    } else {
        first_zero(s, from + 1)
    }
}

/// The text that the UTF-8 bytes `s` spell.
pub open spec fn text_of(s: Seq<u8>) -> Result<Seq<char>> {
    if valid_utf8(s) {
        Ok(decode_utf8(s))
    } else {
        Err(ReaderError::Utf8)
    }
}

/// The text in the field of `n` bytes at `pos`, up to its first zero byte.
pub open spec fn at_field(s: Seq<u8>, pos: int, n: int) -> Result<(Seq<char>, int)> {
    match at_bytes(s, pos, n) {
        Err(e) => Err(e),
        Ok((field, next)) => match text_of(field.subrange(0, first_zero(field, 0))) {
            Err(e) => Err(e),
            Ok(text) => Ok((text, next)),
        },
    }
}

/// The text at `pos` up to a zero byte, which must come within `max` bytes.
pub open spec fn at_c_str(s: Seq<u8>, pos: int, max: int) -> Result<(Seq<char>, int)> {
    if !(0 <= pos <= s.len()) {
        Err(ReaderError::Io)
    } else {
        let end = first_zero(s, pos);
        if end - pos >= max {
            Err(ReaderError::CString)
        } else if end >= s.len() {
            Err(ReaderError::Io)
        } else {
            match text_of(s.subrange(pos, end)) {
                Err(e) => Err(e),
                Ok(text) => Ok((text, end + 1)),
            }
        }
    }
}

pub proof fn lemma_leb_value_bound(s: Seq<u8>, pos: int, n: nat)
    ensures
        leb_value(s, pos, n) < pow128(n),
    decreases n,
{
    if n > 0 {
        lemma_leb_value_bound(s, pos + 1, (n - 1) as nat);
    }
}

pub proof fn lemma_leb_len_bound(s: Seq<u8>, pos: int, max: nat)
    ensures
        leb_len(s, pos, max) matches Ok(n) ==> 1 <= n <= max && 0 <= pos && pos + n <= s.len(),
    decreases max,
{
    if max > 0 && 0 <= pos < s.len() && s[pos] >= 128 {
        lemma_leb_len_bound(s, pos + 1, (max - 1) as nat);
    }
}

proof fn lemma_pow128_monotone(a: nat, b: nat)
    requires
        a <= b,
    ensures
        pow128(a) <= pow128(b),
    decreases b,
{
    if a < b {
        lemma_pow128_monotone(a, (b - 1) as nat);
    }
}

proof fn lemma_pow128_10()
    ensures
        pow128(5) == 0x8_0000_0000,
        pow128(10) == 0x40_0000_0000_0000_0000,
{
    reveal_with_fuel(pow128, 11);
}

pub proof fn lemma_first_zero(s: Seq<u8>, from: int)
    requires
        0 <= from <= s.len(),
    ensures
        from <= first_zero(s, from) <= s.len(),
        forall|i: int| from <= i < first_zero(s, from) ==> s[i] != 0,
        first_zero(s, from) < s.len() ==> s[first_zero(s, from)] == 0,
    decreases s.len() - from,
{
    if from < s.len() && s[from] != 0 {
        lemma_first_zero(s, from + 1);
    }
}

pub fn read_u8(data: &[u8], pos: u64) -> (r: Result<(u8, u64)>)
    ensures
        same_at(r, at_u8(data@, pos as int)),
{
    if pos < data.len() as u64 {
        Ok((data[pos as usize], pos + 1))
    } else {
        Err(ReaderError::Io)
    }
}

/// The `n` bytes at `pos`, as a part of `data`.
pub fn read_slice<'a>(data: &'a [u8], pos: u64, n: u64) -> (r: Result<&'a [u8]>)
    ensures
        match (r, at_bytes(data@, pos as int, n as int)) {
            (Ok(part), Ok((bytes, _))) => part@ == bytes && pos + n <= data@.len() <= u64::MAX,
            (Err(e), Err(f)) => e == f,
            _ => false,
        },
{
    let len: u64 = data.len() as u64;
    if pos <= len && n <= len - pos {
        Ok(vstd::slice::slice_subrange(data, pos as usize, (pos + n) as usize))
    } else {
        Err(ReaderError::Io)
    }
}

/// A copy of the `n` bytes at `pos`.
pub fn read_bytes(data: &[u8], pos: u64, n: u64) -> (r: Result<(Vec<u8>, u64)>)
    ensures
        same_bytes_at(r, at_bytes(data@, pos as int, n as int)),
{
    let part = read_slice(data, pos, n)?;
    Ok((vstd::slice::slice_to_vec(part), pos + n))
}

pub fn read_u64(data: &[u8], pos: u64) -> (r: Result<(u64, u64)>)
    ensures
        same_at(r, at_u64(data@, pos as int)),
{
    let b = read_slice(data, pos, 8)?;
    let value: u64 = ((((((b[0] as u64 * 256 + b[1] as u64) * 256 + b[2] as u64) * 256
        + b[3] as u64) * 256 + b[4] as u64) * 256 + b[5] as u64) * 256 + b[6] as u64) * 256
        + b[7] as u64;
    Ok((value, pos + 8))
}

/// The little-endian number at the start of `b`.
pub fn le_u64(b: &[u8]) -> (r: u64)
    requires
        b@.len() >= 8,
    ensures
        r == le_value(b@, 0),
{
    ((((((b[7] as u64 * 256 + b[6] as u64) * 256 + b[5] as u64) * 256 + b[4] as u64) * 256
        + b[3] as u64) * 256 + b[2] as u64) * 256 + b[1] as u64) * 256 + b[0] as u64
}

/// The number of bytes of the LEB128 integer at `pos`.
fn variant_len(data: &[u8], pos: u64, max: u64) -> (r: Result<u64>)
    requires
        max <= 10,
    ensures
        match (r, leb_len(data@, pos as int, max as nat)) {
            (Ok(n), Ok(m)) => n == m && data@.len() <= u64::MAX,
            (Err(e), Err(f)) => e == f,
            _ => false,
        },
{
    let len: u64 = data.len() as u64;
    let mut n: u64 = 0;
    while n < max
        invariant
            n <= max <= 10,
            len == data@.len(),
            pos + n <= len || n == 0,
            leb_len(data@, pos as int, max as nat) == (match leb_len(
                data@,
                pos + n,
                (max - n) as nat,
            ) {
                Ok(k) => Ok::<nat, ReaderError>(k + n as nat),
                Err(e) => Err(e),
            }),
        decreases max - n,
    {
        if pos >= len || n >= len - pos {
            return Err(ReaderError::Io);
        }
        let byte: u8 = data[(pos + n) as usize];
        if byte < 128 {
            return Ok(n + 1);
        }
        n = n + 1;
    }
    Err(ReaderError::ParseVariant)
}

/// The number that the `n` LEB128 bytes at `pos` spell.
fn variant_value(data: &[u8], pos: u64, n: u64) -> (r: u128)
    requires
        n <= 10,
        pos + n <= data@.len() <= u64::MAX,
    ensures
        r == leb_value(data@, pos as int, n as nat),
        r < pow128(n as nat),
{
    let mut value: u128 = 0;
    let mut i: u64 = n;
    while i > 0
        invariant
            i <= n <= 10,
            pos + n <= data@.len() <= u64::MAX,
            value == leb_value(data@, pos + i, (n - i) as nat),
        decreases i,
    {
        proof {
            lemma_leb_value_bound(data@, pos + i, (n - i) as nat);
            lemma_pow128_monotone((n - i) as nat, 10);
            lemma_pow128_10();
        }
        i = i - 1;
        let byte: u8 = data[(pos + i) as usize];
        value = (byte % 128) as u128 + 128 * value;
    }
    proof {
        lemma_leb_value_bound(data@, pos as int, n as nat);
    }
    value
}

pub fn read_variant_u32(data: &[u8], pos: u64) -> (r: Result<(u32, u64)>)
    ensures
        same_at(r, at_variant_u32(data@, pos as int)),
        r matches Ok((_, next)) ==> pos < next <= data@.len() && next <= pos + 5,
{
    let n: u64 = variant_len(data, pos, 5)?;
    proof {
        lemma_leb_len_bound(data@, pos as int, 5);
    }
    let value: u128 = variant_value(data, pos, n);
    Ok(((value % 0x1_0000_0000) as u32, pos + n))
}

pub fn read_variant_u64(data: &[u8], pos: u64) -> (r: Result<(u64, u64)>)
    ensures
        same_at(r, at_variant_u64(data@, pos as int)),
        r matches Ok((_, next)) ==> pos < next <= data@.len() && next <= pos + 10,
{
    let n: u64 = variant_len(data, pos, 10)?;
    proof {
        lemma_leb_len_bound(data@, pos as int, 10);
    }
    let value: u128 = variant_value(data, pos, n);
    Ok(((value % 0x1_0000_0000_0000_0000) as u64, pos + n))
}

/// 128 to the power of `n`.
fn power128(n: u64) -> (r: u128)
    requires
        n <= 10,
    ensures
        r == pow128(n as nat),
{
    let mut r: u128 = 1;
    let mut i: u64 = 0;
    while i < n
        invariant
            i <= n <= 10,
            r == pow128(i as nat),
        decreases n - i,
    {
        proof {
            lemma_pow128_monotone(i as nat, 10);
            lemma_pow128_10();
        }
        r = 128 * r;
        i = i + 1;
    }
    r
}

pub fn read_variant_i64(data: &[u8], pos: u64) -> (r: Result<(i128, u64)>)
    ensures
        match (r, at_variant_signed(data@, pos as int)) {
            (Ok((v, p)), Ok((w, q))) => v == w && p == q && pos < p <= data@.len(),
            (Err(e), Err(f)) => e == f,
            _ => false,
        },
        r matches Ok((v, _)) ==> -0x40_0000_0000_0000_0000 <= v <= 0x40_0000_0000_0000_0000,
{
    let n: u64 = variant_len(data, pos, 10)?;
    proof {
        lemma_leb_len_bound(data@, pos as int, 10);
        lemma_pow128_monotone(n as nat, 10);
        lemma_pow128_10();
    }
    let value: u128 = variant_value(data, pos, n);
    let limit: u128 = power128(n);
    let signed: i128 = if 2 * value >= limit {
        value as i128 - limit as i128
    } else {
        value as i128
    };
    Ok((signed, pos + n))
}

/// The index of the first zero byte of `data` at or behind `from`, or the length of `data`.
fn find_zero(data: &[u8], from: usize) -> (r: usize)
    requires
        from <= data@.len(),
    ensures
        r == first_zero(data@, from as int),
        from <= r <= data@.len(),
{
    let mut i: usize = from;
    while i < data.len() && data[i] != 0
        invariant
            from <= i <= data@.len(),
            first_zero(data@, from as int) == first_zero(data@, i as int),
        decreases data@.len() - i,
    {
        i = i + 1;
    }
    i
}

/// Calls `String::from_utf8`. A vector of bytes becomes a text exactly when it
/// is valid UTF-8, and the text is then what the bytes spell.
#[verifier::external_body]
fn string_from_utf8(bytes: Vec<u8>) -> (r: Option<String>)
    ensures
        match r {
            Some(text) => valid_utf8(bytes@) && text@ == decode_utf8(bytes@),
            None => !valid_utf8(bytes@),
        },
{
    String::from_utf8(bytes).ok()
}

fn text_from(bytes: Vec<u8>) -> (r: Result<String>)
    ensures
        match (r, text_of(bytes@)) {
            (Ok(text), Ok(chars)) => text@ == chars,
            (Err(e), Err(f)) => e == f,
            _ => false,
        },
{
    match string_from_utf8(bytes) {
        Some(text) => Ok(text),
        None => Err(ReaderError::Utf8),
    }
}

/// The text in a field of fixed length.
pub fn read_c_str_fixed_length(data: &[u8], pos: u64, n: u64) -> (r: Result<(String, u64)>)
    ensures
        same_text_at(r, at_field(data@, pos as int, n as int)),
{
    let field = read_slice(data, pos, n)?;
    let end: usize = find_zero(field, 0);
    let text = text_from(
        vstd::slice::slice_to_vec(vstd::slice::slice_subrange(field, 0, end)),
    )?;
    Ok((text, pos + n))
}

/// A text that ends with a zero byte.
pub fn read_c_str(data: &[u8], pos: u64, max: u64) -> (r: Result<(String, u64)>)
    ensures
        same_text_at(r, at_c_str(data@, pos as int, max as int)),
{
    if pos > data.len() as u64 {
        return Err(ReaderError::Io);
    }
    let end: usize = find_zero(data, pos as usize);
    if end as u64 - pos >= max {
        return Err(ReaderError::CString);
    }
    if end >= data.len() {
        return Err(ReaderError::Io);
    }
    let text = text_from(
        vstd::slice::slice_to_vec(vstd::slice::slice_subrange(data, pos as usize, end)),
    )?;
    Ok((text, end as u64 + 1))
}

} // verus!
