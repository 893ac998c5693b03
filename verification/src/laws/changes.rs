//! Value changes read back as they were written.

use crate::delivery::chain;
use crate::laws::encoding::{
    be_bytes, bytes_read_back, le_bytes, le_u64_reads_back, leb_encoded, lemma_eight_bytes,
    lemma_stands, stands_at, u64_reads_back, variant_u32_reads_back,
};
use crate::laws::signals::always;
use crate::primitives::at_variant_u32;
use crate::types::{FloatingPointEndian, ReaderError, SignalInfo};
use crate::values::{
    at_change, at_delta, at_value, at_value_end, bit_chars, byte_bit, one_bit_char, time_delta,
    ChangeView, ValueView,
};
use vstd::prelude::*;

verus! {

/// A change to be written: so many time steps behind the one before, to `value`.
/// The value of a vector is written with a bit for each character if it is
/// `packed`, and else with a byte.
#[verifier::ext_equal]
pub struct Written {
    pub steps: nat,
    pub value: ValueView,
    pub packed: bool,
}

/// The number of a state of one bit that is neither `0` nor `1`.
pub open spec fn state_code(state: u8) -> Option<nat> {
    if state == 0x78 {
        Some(0)
    } else if state == 0x7a {
        Some(1)
    } else if state == 0x68 {
        Some(2)
    } else if state == 0x75 {
        Some(3)
    } else if state == 0x77 {
        Some(4)
    } else if state == 0x6c {
        Some(5)
    } else if state == 0x2d {
        Some(6)
    } else if state == 0x3f {
        Some(7)
    } else {
        None
    }
}

/// The leading integer of the change of a single bit.
pub open spec fn bit_leading(steps: nat, state: u8) -> nat {
    if state == 0x30 {
        4 * steps
    } else if state == 0x31 {
        4 * steps + 2
    } else {
        16 * steps + 2 * state_code(state)->0 + 1
    }
}

/// The bit that character `k` stands for; characters behind the end stand for none.
pub open spec fn bit_of(chars: Seq<u8>, k: int) -> int {
    if k < chars.len() && chars[k] == 0x31 {
        1
    } else {
        0
    }
}

/// The byte for the eight characters from `k` on, the first in its highest bit.
pub open spec fn packed_byte(chars: Seq<u8>, k: int) -> u8 {
    (128 * bit_of(chars, k) + 64 * bit_of(chars, k + 1) + 32 * bit_of(chars, k + 2) + 16 * bit_of(
        chars,
        k + 3,
    ) + 8 * bit_of(chars, k + 4) + 4 * bit_of(chars, k + 5) + 2 * bit_of(chars, k + 6) + bit_of(
        chars,
        k + 7,
    )) as u8
}

/// The characters `0` and `1`, packed eight to a byte.
pub open spec fn packed_bits(chars: Seq<u8>) -> Seq<u8> {
    Seq::new(((chars.len() + 7) / 8) as nat, |j: int| packed_byte(chars, 8 * j))
}

/// All characters are `0` or `1`.
pub open spec fn two_state(chars: Seq<u8>) -> bool {
    forall|k: int| 0 <= k < chars.len() ==> #[trigger] chars[k] == 0x30 || chars[k] == 0x31
}

/// The characters of a value.
pub open spec fn chars_of(value: ValueView) -> Seq<u8> {
    match value {
        ValueView::String(chars) => chars,
        ValueView::Real(_) => Seq::empty(),
    }
}

/// The integer in front of a change: the number of steps, and what kind of value follows.
pub open spec fn leading(info: SignalInfo, w: Written) -> nat {
    if info == SignalInfo::BitVec(1) {
        bit_leading(w.steps, chars_of(w.value)[0])
    } else if w.packed && info != SignalInfo::Real {
        2 * w.steps
    } else {
        2 * w.steps + 1
    }
}

/// The bytes of a value, behind the leading integer.
pub open spec fn value_bytes(info: SignalInfo, endian: FloatingPointEndian, w: Written) -> Seq<u8> {
    match w.value {
        ValueView::Real(bits) => if endian == FloatingPointEndian::Big {
            be_bytes(bits)
        } else {
            le_bytes(bits)
        },
        ValueView::String(chars) => if info == SignalInfo::BitVec(1) {
            Seq::empty()
        } else if info == SignalInfo::BitVec(0) {
            leb_encoded(chars.len()) + chars
        } else if w.packed {
            packed_bits(chars)
        } else {
            chars
        },
    }
}

/// Each character of a packed vector is a bit of its own: the first is the highest bit
/// of the first byte.
pub proof fn characters_are_bits(bytes: Seq<u8>, len: nat, i: int)
    requires
        len <= 8 * bytes.len(),
        0 <= i < len,
    ensures
        bit_chars(bytes, len).len() == len,
        bit_chars(bytes, len)[i] == 0x30 + ((bytes[i / 8] >> ((7 - i % 8) as u8)) & 1u8),
{
    let b = bytes[i / 8];
    assert(b / 128 % 2 == (b >> 7u8) & 1u8 && b / 64 % 2 == (b >> 6u8) & 1u8 && b / 32 % 2 == (b
        >> 5u8) & 1u8 && b / 16 % 2 == (b >> 4u8) & 1u8 && b / 8 % 2 == (b >> 3u8) & 1u8 && b / 4
        % 2 == (b >> 2u8) & 1u8 && b / 2 % 2 == (b >> 1u8) & 1u8 && b % 2 == (b >> 0u8) & 1u8)
        by (bit_vector);
    assert(byte_bit(b, i % 8) == (b >> ((7 - i % 8) as u8)) & 1u8);
}

/// A change in its written form.
pub open spec fn change_bytes(
    info: SignalInfo,
    endian: FloatingPointEndian,
    w: Written,
) -> Seq<u8> {
    leb_encoded(leading(info, w)) + value_bytes(info, endian, w)
}

/// The change is one that a signal of this kind can have, and its leading integer
/// has no more than 32 bits.
pub open spec fn writable(info: SignalInfo, w: Written) -> bool {
    &&& match (info, w.value) {
        (SignalInfo::Real, ValueView::Real(_)) => true,
        (SignalInfo::BitVec(width), ValueView::String(chars)) => if width == 0 {
            chars.len() <= u32::MAX
        } else if width == 1 {
            chars.len() == 1 && (chars[0] == 0x30 || chars[0] == 0x31 || state_code(
                chars[0],
            ) is Some)
        } else {
            chars.len() == width && (w.packed ==> two_state(chars))
        },
        _ => false,
    }
    &&& leading(info, w) <= u32::MAX
}

/// Two-state characters read back as they were packed, however many there are.
pub proof fn two_state_values_read_back(chars: Seq<u8>)
    requires
        two_state(chars),
    ensures
        bit_chars(packed_bits(chars), chars.len()) == chars,
{
    let bytes = packed_bits(chars);
    assert forall|i: int| 0 <= i < chars.len() implies bit_chars(bytes, chars.len())[i]
        == chars[i] by {
        let j = i / 8;
        let k = 8 * j;
        assert(bytes[j] == packed_byte(chars, k));
        let b0 = bit_of(chars, k);
        let b1 = bit_of(chars, k + 1);
        let b2 = bit_of(chars, k + 2);
        let b3 = bit_of(chars, k + 3);
        let b4 = bit_of(chars, k + 4);
        let b5 = bit_of(chars, k + 5);
        let b6 = bit_of(chars, k + 6);
        let b7 = bit_of(chars, k + 7);
        assert(bytes[j] == 128 * b0 + 64 * b1 + 32 * b2 + 16 * b3 + 8 * b4 + 4 * b5 + 2 * b6 + b7);
        assert(byte_bit(bytes[j], i % 8) == bit_of(chars, i));
        assert(chars[i] == 0x30 || chars[i] == 0x31);
    }
    assert(bit_chars(bytes, chars.len()) =~= chars);
}

/// Bytes pack back from the characters that they are read as: different bytes never
/// read as the same characters.
pub proof fn packed_bytes_tell_themselves(bytes: Seq<u8>)
    ensures
        packed_bits(bit_chars(bytes, 8 * bytes.len())) == bytes,
        two_state(bit_chars(bytes, 8 * bytes.len())),
{
    let n = 8 * bytes.len();
    let chars = bit_chars(bytes, n);
    assert forall|j: int| 0 <= j < bytes.len() implies packed_bits(chars)[j] == bytes[j] by {
        let b = bytes[j];
        let k = 8 * j;
        assert forall|m: int| 0 <= m < 8 implies bit_of(chars, #[trigger] (k + m)) == byte_bit(
            b,
            m,
        ) by {
            assert((k + m) / 8 == j && (k + m) % 8 == m);
            assert(chars[k + m] == (0x30 + byte_bit(b, m)) as u8);
        }
        assert(bit_of(chars, k) == byte_bit(b, 0)) by {
            assert(bit_of(chars, k + 0) == byte_bit(b, 0));
        }
        lemma_byte_of_bits(b);
    }
    assert(packed_bits(chars) =~= bytes);
}

proof fn lemma_byte_of_bits(b: u8)
    ensures
        128 * byte_bit(b, 0) + 64 * byte_bit(b, 1) + 32 * byte_bit(b, 2) + 16 * byte_bit(b, 3) + 8
            * byte_bit(b, 4) + 4 * byte_bit(b, 5) + 2 * byte_bit(b, 6) + byte_bit(b, 7) == b,
{
    assert(128 * ((b / 128) % 2) + 64 * ((b / 64) % 2) + 32 * ((b / 32) % 2) + 16 * ((b / 16) % 2)
        + 8 * ((b / 8) % 2) + 4 * ((b / 4) % 2) + 2 * ((b / 2) % 2) + b % 2 == b) by (bit_vector);
}

/// The state of a single bit and the number of its time steps read back as they
/// were written.
proof fn lemma_bit_leading(steps: nat, state: u8)
    requires
        state == 0x30 || state == 0x31 || state_code(state) is Some,
        bit_leading(steps, state) <= u32::MAX,
    ensures
        time_delta(SignalInfo::BitVec(1), bit_leading(steps, state) as u32) == steps,
        one_bit_char(bit_leading(steps, state) as u32) == state,
{
    let vli = bit_leading(steps, state) as u32;
    if state == 0x30 || state == 0x31 {
        assert(vli % 2 == 0);
    } else {
        let code = state_code(state)->0;
        assert(vli % 2 == 1);
        assert((vli / 2) % 8 == code);
    }
}

/// A change reads back as it was written, wherever it stands: the number of its time
/// steps, its value, and where it ends.
pub proof fn change_reads_back(
    info: SignalInfo,
    endian: FloatingPointEndian,
    w: Written,
    s: Seq<u8>,
    pos: int,
)
    requires
        writable(info, w),
        stands_at(change_bytes(info, endian, w), s, pos),
    ensures
        at_delta(info, s, pos) matches Ok(delta) && delta == w.steps,
        at_change(info, endian, s, pos) == Ok::<(ValueView, int), ReaderError>(
            (w.value, pos + change_bytes(info, endian, w).len()),
        ),
        at_variant_u32(s, pos) == Ok::<(u32, int), ReaderError>(
            (leading(info, w) as u32, pos + leb_encoded(leading(info, w)).len()),
        ),
        at_value_end(
            info,
            leading(info, w) as u32,
            s,
            pos + leb_encoded(leading(info, w)).len(),
        ) == Ok::<int, ReaderError>(pos + change_bytes(info, endian, w).len()),
{
    broadcast use lemma_eight_bytes;

    reveal(at_value);
    reveal(at_value_end);
    let vli = leading(info, w) as u32;
    let body = value_bytes(info, endian, w);
    lemma_stands(leb_encoded(leading(info, w)), body, s, pos);
    variant_u32_reads_back(vli, s, pos);
    let next = pos + leb_encoded(leading(info, w)).len();
    match (info, w.value) {
        (SignalInfo::Real, ValueView::Real(bits)) => {
            if endian == FloatingPointEndian::Big {
                u64_reads_back(bits, s, next);
            } else {
                le_u64_reads_back(bits, s, next);
            }
        },
        (SignalInfo::BitVec(width), ValueView::String(chars)) => {
            if width == 1 {
                lemma_bit_leading(w.steps, chars[0]);
                assert(seq![one_bit_char(vli)] =~= chars);
            } else if width == 0 {
                lemma_stands(leb_encoded(chars.len()), chars, s, next);
                variant_u32_reads_back(chars.len() as u32, s, next);
                bytes_read_back(chars, s, next + leb_encoded(chars.len()).len());
            } else if w.packed {
                bytes_read_back(body, s, next);
                two_state_values_read_back(chars);
            } else {
                bytes_read_back(chars, s, next);
            }
        },
        _ => {},
    }
}

/// Changes one behind the other.
pub open spec fn changes_bytes(
    info: SignalInfo,
    endian: FloatingPointEndian,
    changes: Seq<Written>,
) -> Seq<u8>
    decreases changes.len(),
{
    if changes.len() == 0 {
        Seq::empty()
    } else {
        change_bytes(info, endian, changes[0]) + changes_bytes(
            info,
            endian,
            changes.drop_first(),
        )
    }
}

/// All changes can be written, and come at one of `n` time steps, the first of them
/// behind the step `step`.
pub open spec fn all_writable(info: SignalInfo, changes: Seq<Written>, step: nat, n: nat) -> bool
    decreases changes.len(),
{
    changes.len() > 0 ==> {
        &&& writable(info, changes[0])
        &&& step + changes[0].steps < n
        &&& all_writable(info, changes.drop_first(), step + changes[0].steps, n)
    }
}

/// The changes of `signal` that were written, each at the time of its step.
pub open spec fn written_changes(
    changes: Seq<Written>,
    step: nat,
    times: Seq<u64>,
    signal: int,
) -> Seq<ChangeView>
    decreases changes.len(),
{
    if changes.len() == 0 {
        Seq::empty()
    } else {
        let now = step + changes[0].steps;
        seq![ChangeView { time: times[now as int], signal, value: changes[0].value }]
            + written_changes(changes.drop_first(), now, times, signal)
    }
}

/// The changes of a signal read back as they were written: each at the time of the
/// step that it was written for, with its value, and no others.
pub proof fn changes_read_back(
    info: SignalInfo,
    endian: FloatingPointEndian,
    changes: Seq<Written>,
    step: nat,
    s: Seq<u8>,
    pos: int,
    times: Seq<u64>,
    signal: int,
)
    requires
        changes.len() > 0,
        all_writable(info, changes, step, times.len()),
        stands_at(changes_bytes(info, endian, changes), s, pos),
        pos + changes_bytes(info, endian, changes).len() == s.len(),
    ensures
        chain(
            info,
            endian,
            s,
            signal,
            pos,
            (step + changes[0].steps) as int,
            times,
            always(),
        ) == written_changes(changes, step, times, signal),
    decreases changes.len(),
{
    let first = change_bytes(info, endian, changes[0]);
    let rest = changes.drop_first();
    let others = changes_bytes(info, endian, rest);
    lemma_stands(first, others, s, pos);
    change_reads_back(info, endian, changes[0], s, pos);
    let now = step + changes[0].steps;
    let next = pos + first.len();
    assert(all_writable(info, rest, now, times.len()));
    if rest.len() > 0 {
        assert(others.len() > 0) by {
            lemma_change_len(info, endian, rest[0]);
        }
        changes_read_back(info, endian, rest, now, s, next, times, signal);
        lemma_stands(
            change_bytes(info, endian, rest[0]),
            changes_bytes(info, endian, rest.drop_first()),
            s,
            next,
        );
        change_reads_back(info, endian, rest[0], s, next);
        assert(next < s.len());
    } else {
        assert(others =~= Seq::empty());
        assert(written_changes(rest, now, times, signal) =~= Seq::empty());
    }
    assert(written_changes(changes, step, times, signal) == seq![
        ChangeView { time: times[now as int], signal, value: changes[0].value },
    ] + written_changes(rest, now, times, signal));
}

pub proof fn lemma_change_len(info: SignalInfo, endian: FloatingPointEndian, w: Written)
    ensures
        change_bytes(info, endian, w).len() > 0,
{
    assert(leb_encoded(leading(info, w)).len() > 0);
}

} // verus!
