//! Integers, texts and times read back as they were written.

use crate::primitives::{
    at_bytes, at_c_str, at_field, at_u64, at_u8, at_variant_signed, at_variant_u32, at_variant_u64,
    be_value, first_zero, le_value, leb_len, leb_signed, leb_value, pow128, text_of,
};
use crate::section::decoded_times;
use crate::types::ReaderError;
use vstd::prelude::*;
use vstd::utf8::{encode_utf8, encode_utf8_decode_utf8, encode_utf8_valid_utf8};

verus! {

/// The LEB128 encoding of `n`: seven bits in each byte, the lowest first; the
/// highest bit of a byte tells that another follows.
pub open spec fn leb_encoded(n: nat) -> Seq<u8>
    decreases n,
{
    if n < 128 {
        seq![n as u8]
    } else {
        seq![(n % 128 + 128) as u8] + leb_encoded(n / 128)
    }
}

/// The bytes of `part` stand at `pos` in `s`.
pub open spec fn stands_at(part: Seq<u8>, s: Seq<u8>, pos: int) -> bool {
    0 <= pos && pos + part.len() <= s.len() && forall|k: int|
        0 <= k < part.len() ==> #[trigger] part[k] == s[pos + k]
}

/// What stands one behind the other stands each at its own place.
pub proof fn lemma_stands(a: Seq<u8>, b: Seq<u8>, s: Seq<u8>, pos: int)
    requires
        stands_at(a + b, s, pos),
    ensures
        stands_at(a, s, pos),
        stands_at(b, s, pos + a.len()),
{
    assert forall|k: int| 0 <= k < a.len() implies #[trigger] a[k] == s[pos + k] by {
        assert(a[k] == (a + b)[k]);
    }
    assert forall|k: int| 0 <= k < b.len() implies #[trigger] b[k] == s[pos + a.len() + k] by {
        assert(b[k] == (a + b)[a.len() + k]);
    }
}

/// A part of something stands where that part is.
pub proof fn lemma_part_stands(part: Seq<u8>, whole: Seq<u8>, at: int, s: Seq<u8>, pos: int)
    requires
        stands_at(part, whole, at),
        stands_at(whole, s, pos),
    ensures
        stands_at(part, s, pos + at),
{
    assert forall|k: int| 0 <= k < part.len() implies #[trigger] part[k] == s[pos + at + k] by {
        assert(part[k] == whole[at + k]);
    }
}

/// Bytes that stand somewhere are what is read there.
pub proof fn bytes_read_back(part: Seq<u8>, s: Seq<u8>, pos: int)
    requires
        stands_at(part, s, pos),
    ensures
        at_bytes(s, pos, part.len() as int) == Ok::<(Seq<u8>, int), ReaderError>(
            (part, pos + part.len()),
        ),
{
    assert(s.subrange(pos, pos + part.len()) =~= part);
}

/// A byte that stands somewhere is what is read there.
pub proof fn byte_reads_back(byte: u8, s: Seq<u8>, pos: int)
    requires
        stands_at(seq![byte], s, pos),
    ensures
        at_u8(s, pos) == Ok::<(u8, int), ReaderError>((byte, pos + 1)),
{
    assert(seq![byte][0] == s[pos + 0]);
}

/// The eight bytes of `n`, the most significant first.
#[verifier::opaque]
pub open spec fn be_bytes(n: u64) -> Seq<u8> {
    let n1 = n / 256;
    let n2 = n1 / 256;
    let n3 = n2 / 256;
    let n4 = n3 / 256;
    let n5 = n4 / 256;
    let n6 = n5 / 256;
    let n7 = n6 / 256;
    seq![
        n7 as u8,
        (n6 % 256) as u8,
        (n5 % 256) as u8,
        (n4 % 256) as u8,
        (n3 % 256) as u8,
        (n2 % 256) as u8,
        (n1 % 256) as u8,
        (n % 256) as u8,
    ]
}

/// The eight bytes of `n`, the least significant first.
pub open spec fn le_bytes(n: u64) -> Seq<u8> {
    be_bytes(n).reverse()
}

pub broadcast proof fn lemma_eight_bytes(n: u64)
    ensures
        (#[trigger] be_bytes(n)).len() == 8,
{
    reveal(be_bytes);
}

proof fn lemma_be_value(n: u64, s: Seq<u8>, pos: int)
    requires
        forall|k: int| 0 <= k < 8 ==> be_bytes(n)[k] == #[trigger] s[pos + k],
    ensures
        be_value(s, pos) == n,
{
    reveal(be_bytes);
    let b = be_bytes(n);
    assert(s[pos + 0] == b[0] && s[pos + 1] == b[1] && s[pos + 2] == b[2] && s[pos + 3] == b[3]
        && s[pos + 4] == b[4] && s[pos + 5] == b[5] && s[pos + 6] == b[6] && s[pos + 7] == b[7]);
    let n1 = n / 256;
    let n2 = n1 / 256;
    let n3 = n2 / 256;
    let n4 = n3 / 256;
    let n5 = n4 / 256;
    let n6 = n5 / 256;
    let n7 = n6 / 256;
    assert(n7 < 256);
    assert(b[0] == n7);
    assert(b[0] * 256 + b[1] == n6);
    assert(n6 * 256 + b[2] == n5);
    assert(n5 * 256 + b[3] == n4);
    assert(n4 * 256 + b[4] == n3);
    assert(n3 * 256 + b[5] == n2);
    assert(n2 * 256 + b[6] == n1);
    assert(n1 * 256 + b[7] == n);
}

/// A number of eight bytes reads back as it was written, the most significant
/// byte first.
pub proof fn u64_reads_back(n: u64, s: Seq<u8>, pos: int)
    requires
        stands_at(be_bytes(n), s, pos),
    ensures
        at_u64(s, pos) == Ok::<(u64, int), ReaderError>((n, pos + 8)),
        be_value(s, pos) == n,
{
    lemma_eight_bytes(n);
    assert forall|k: int| 0 <= k < 8 implies be_bytes(n)[k] == #[trigger] s[pos + k] by {}
    lemma_be_value(n, s, pos);
}

/// A number of eight bytes reads back as it was written, the least significant
/// byte first.
pub proof fn le_u64_reads_back(n: u64, s: Seq<u8>, pos: int)
    requires
        stands_at(le_bytes(n), s, pos),
    ensures
        le_value(s, pos) == n,
{
    lemma_eight_bytes(n);
    let t = s.subrange(pos, pos + 8).reverse();
    let b = le_bytes(n);
    assert forall|k: int| 0 <= k < 8 implies be_bytes(n)[k] == #[trigger] t[0 + k] by {
        assert(b[7 - k] == s[pos + (7 - k)]);
    }
    lemma_be_value(n, t, 0);
    assert(t[0] == s[pos + 7] && t[1] == s[pos + 6] && t[2] == s[pos + 5] && t[3] == s[pos + 4]
        && t[4] == s[pos + 3] && t[5] == s[pos + 2] && t[6] == s[pos + 1] && t[7] == s[pos]);
}

/// No byte of the UTF-8 encoding of the text is zero.
pub open spec fn no_zero(text: Seq<char>) -> bool {
    forall|k: int| 0 <= k < encode_utf8(text).len() ==> #[trigger] encode_utf8(text)[k] != 0
}

/// A text, with a zero byte behind it.
pub open spec fn c_str(text: Seq<char>) -> Seq<u8> {
    encode_utf8(text) + seq![0u8]
}

pub proof fn lemma_first_zero_at(s: Seq<u8>, from: int, at: int)
    requires
        0 <= from <= at <= s.len(),
        forall|k: int| from <= k < at ==> #[trigger] s[k] != 0,
        at < s.len() ==> s[at] == 0,
    ensures
        first_zero(s, from) == at,
    decreases at - from,
{
    if from < at {
        lemma_first_zero_at(s, from + 1, at);
    }
}

pub proof fn lemma_text_of(text: Seq<char>)
    ensures
        text_of(encode_utf8(text)) == Ok::<Seq<char>, ReaderError>(text),
{
    encode_utf8_valid_utf8(text);
    encode_utf8_decode_utf8(text);
}

/// A text reads back up to the zero byte behind it, wherever it stands, if it is
/// short enough.
pub proof fn c_str_reads_back(text: Seq<char>, max: int, s: Seq<u8>, pos: int)
    requires
        no_zero(text),
        encode_utf8(text).len() < max,
        stands_at(c_str(text), s, pos),
    ensures
        at_c_str(s, pos, max) == Ok::<(Seq<char>, int), ReaderError>(
            (text, pos + encode_utf8(text).len() + 1),
        ),
{
    let bytes = encode_utf8(text);
    lemma_stands(bytes, seq![0u8], s, pos);
    let end = pos + bytes.len();
    assert(s[end] == 0) by {
        assert(seq![0u8][0] == s[end + 0]);
    }
    assert forall|k: int| pos <= k < end implies #[trigger] s[k] != 0 by {
        assert(bytes[k - pos] == s[pos + (k - pos)]);
    }
    lemma_first_zero_at(s, pos, end);
    assert(s.subrange(pos, end) =~= bytes);
    lemma_text_of(text);
}

/// A field of `n` bytes that holds a text, filled up with zero bytes.
pub open spec fn field(text: Seq<char>, n: nat) -> Seq<u8> {
    encode_utf8(text) + Seq::new((n - encode_utf8(text).len()) as nat, |i: int| 0u8)
}

/// A text in a field of fixed length reads back as it was written.
pub proof fn field_reads_back(text: Seq<char>, n: nat, s: Seq<u8>, pos: int)
    requires
        no_zero(text),
        encode_utf8(text).len() <= n,
        stands_at(field(text, n), s, pos),
    ensures
        at_field(s, pos, n as int) == Ok::<(Seq<char>, int), ReaderError>((text, pos + n)),
{
    let bytes = encode_utf8(text);
    let all = field(text, n);
    bytes_read_back(all, s, pos);
    assert forall|k: int| 0 <= k < bytes.len() implies #[trigger] all[k] != 0 by {
        assert(all[k] == bytes[k]);
    }
    lemma_first_zero_at(all, 0, bytes.len() as int);
    assert(all.subrange(0, bytes.len() as int) =~= bytes);
    lemma_text_of(text);
}

proof fn lemma_encoded_len(n: nat, k: nat)
    requires
        0 < k,
        n < pow128(k),
    ensures
        1 <= leb_encoded(n).len() <= k,
    decreases k,
{
    if n >= 128 {
        if k == 1 {
            reveal_with_fuel(pow128, 2);
        } else {
            assert(n / 128 < pow128((k - 1) as nat));
            lemma_encoded_len(n / 128, (k - 1) as nat);
        }
    }
}

proof fn lemma_encoded_read(n: nat, s: Seq<u8>, pos: int, max: nat)
    requires
        stands_at(leb_encoded(n), s, pos),
        leb_encoded(n).len() <= max,
    ensures
        leb_len(s, pos, max) == Ok::<nat, ReaderError>(leb_encoded(n).len()),
        leb_value(s, pos, leb_encoded(n).len()) == n,
    decreases n,
{
    let enc = leb_encoded(n);
    assert(s[pos] == enc[0]) by {
        assert(enc[0] == s[pos + 0]);
    }
    if n < 128 {
        reveal_with_fuel(leb_value, 2);
    } else {
        let rest = leb_encoded(n / 128);
        assert(enc.len() == rest.len() + 1);
        assert forall|k: int| 0 <= k < rest.len() implies #[trigger] rest[k] == s[pos + 1 + k] by {
            assert(rest[k] == enc[k + 1]);
        }
        assert(stands_at(rest, s, pos + 1));
        lemma_encoded_read(n / 128, s, pos + 1, (max - 1) as nat);
        assert(enc[0] % 128 == n % 128);
    }
}

/// A 32-bit integer reads back as it was written, wherever it stands.
pub proof fn variant_u32_reads_back(n: u32, s: Seq<u8>, pos: int)
    requires
        stands_at(leb_encoded(n as nat), s, pos),
    ensures
        at_variant_u32(s, pos) == Ok::<(u32, int), ReaderError>(
            (n, pos + leb_encoded(n as nat).len()),
        ),
{
    reveal_with_fuel(pow128, 6);
    lemma_encoded_len(n as nat, 5);
    lemma_encoded_read(n as nat, s, pos, 5);
}

/// A 64-bit integer reads back as it was written, wherever it stands.
pub proof fn variant_u64_reads_back(n: u64, s: Seq<u8>, pos: int)
    requires
        stands_at(leb_encoded(n as nat), s, pos),
    ensures
        at_variant_u64(s, pos) == Ok::<(u64, int), ReaderError>(
            (n, pos + leb_encoded(n as nat).len()),
        ),
{
    reveal_with_fuel(pow128, 11);
    lemma_encoded_len(n as nat, 10);
    lemma_encoded_read(n as nat, s, pos, 10);
}

/// The LEB128 encoding of a signed number: as of an unsigned one, in two's
/// complement, with no more bytes than needed for the sign to show.
pub open spec fn leb_signed_encoded(n: int) -> Seq<u8>
    decreases
            if n < 0 {
                -n
            } else {
                n
            },
{
    if -64 <= n < 64 {
        seq![(n % 128) as u8]
    } else {
        seq![(n % 128 + 128) as u8] + leb_signed_encoded(n / 128)
    }
}

proof fn lemma_signed_read(n: int, s: Seq<u8>, pos: int, max: nat)
    requires
        stands_at(leb_signed_encoded(n), s, pos),
        leb_signed_encoded(n).len() <= max,
    ensures
        leb_len(s, pos, max) == Ok::<nat, ReaderError>(leb_signed_encoded(n).len()),
        leb_signed(s, pos, leb_signed_encoded(n).len()) == n,
    decreases leb_signed_encoded(n).len(),
{
    let enc = leb_signed_encoded(n);
    assert(s[pos] == enc[0]) by {
        assert(enc[0] == s[pos + 0]);
    }
    reveal_with_fuel(leb_value, 2);
    reveal_with_fuel(pow128, 2);
    if -64 <= n < 64 {
    } else {
        let rest = leb_signed_encoded(n / 128);
        lemma_stands(seq![(n % 128 + 128) as u8], rest, s, pos);
        lemma_signed_read(n / 128, s, pos + 1, (max - 1) as nat);
        let k = rest.len();
        assert(enc.len() == k + 1);
        assert(leb_value(s, pos, k + 1) == n % 128 + 128 * leb_value(s, pos + 1, k));
        assert(pow128(k + 1) == 128 * pow128(k));
    }
}

proof fn lemma_signed_len(n: int, k: nat)
    requires
        0 < k,
        -(pow128(k) as int) <= 2 * n < pow128(k),
    ensures
        1 <= leb_signed_encoded(n).len() <= k,
    decreases k,
{
    reveal_with_fuel(pow128, 2);
    if -64 <= n < 64 {
    } else {
        assert(k > 1);
        let half = pow128((k - 1) as nat);
        assert(-(half as int) <= 2 * (n / 128) < half) by {
            assert(pow128(k) == 128 * half);
            assert(half % 2 == 0) by {
                reveal_with_fuel(pow128, 2);
            }
        }
        lemma_signed_len(n / 128, (k - 1) as nat);
    }
}

/// A signed integer of 64 bits reads back as it was written, wherever it stands.
pub proof fn variant_signed_reads_back(n: int, s: Seq<u8>, pos: int)
    requires
        -0x8000_0000_0000_0000 <= n < 0x8000_0000_0000_0000,
        stands_at(leb_signed_encoded(n), s, pos),
    ensures
        at_variant_signed(s, pos) == Ok::<(int, int), ReaderError>(
            (n, pos + leb_signed_encoded(n).len()),
        ),
{
    reveal_with_fuel(pow128, 11);
    lemma_signed_len(n, 10);
    lemma_signed_read(n, s, pos, 10);
}

/// The encoding of `times`: the distance of each from the one before.
pub open spec fn times_encoded(times: Seq<u64>, last: u64) -> Seq<u8>
    decreases times.len(),
{
    if times.len() == 0 {
        Seq::empty()
    } else {
        leb_encoded((times[0] - last) as nat) + times_encoded(times.drop_first(), times[0])
    }
}

proof fn lemma_times_read(times: Seq<u64>, last: u64, s: Seq<u8>, pos: int)
    requires
        times.len() > 0 ==> last <= times[0],
        forall|i: int, j: int| 0 <= i <= j < times.len() ==> times[i] <= times[j],
        stands_at(times_encoded(times, last), s, pos),
    ensures
        decoded_times(s, pos, times.len(), last) == Ok::<Seq<u64>, ReaderError>(times),
    decreases times.len(),
{
    if times.len() > 0 {
        let first = leb_encoded((times[0] - last) as nat);
        let rest = times_encoded(times.drop_first(), times[0]);
        let all = times_encoded(times, last);
        assert forall|k: int| 0 <= k < first.len() implies #[trigger] first[k] == s[pos + k] by {
            assert(first[k] == all[k]);
        }
        assert(stands_at(first, s, pos));
        variant_u64_reads_back((times[0] - last) as u64, s, pos);
        let next = pos + first.len();
        assert forall|k: int| 0 <= k < rest.len() implies #[trigger] rest[k] == s[next + k] by {
            assert(rest[k] == all[first.len() + k]);
        }
        assert(stands_at(rest, s, next));
        lemma_times_read(times.drop_first(), times[0], s, next);
        assert(seq![times[0]] + times.drop_first() =~= times);
    } else {
        assert(times =~= Seq::empty());
    }
}

/// A table of ascending times reads back as it was written.
pub proof fn times_read_back(times: Seq<u64>)
    requires
        forall|i: int, j: int| 0 <= i <= j < times.len() ==> times[i] <= times[j],
    ensures
        decoded_times(times_encoded(times, 0), 0, times.len(), 0) == Ok::<Seq<u64>, ReaderError>(
            times,
        ),
{
    lemma_times_read(times, 0, times_encoded(times, 0), 0);
}

} // verus!
