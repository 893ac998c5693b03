//! The value changes of one signal, as a data section stores them.
//!
//! A change begins with an integer that tells how many time steps have gone by
//! since the change before. The new value follows, or is part of that integer.

use crate::primitives::{
    at_bytes, at_variant_u32, be_value, le_u64, le_value, lemma_leb_len_bound, read_slice,
    read_u64, read_variant_u32,
};
use crate::types::{FloatingPointEndian, FstSignalHandle, ReaderError, Result, SignalInfo};
use vstd::prelude::*;

verus! {

/// The value of a signal.
#[derive(Debug, PartialEq, Eq)]
pub enum FstSignalValue {
    /// The characters of a text or of a vector of bits.
    String(Vec<u8>),
    /// The 64 bits of a floating-point number.
    Real(u64),
}

/// What an [`FstSignalValue`] holds.
#[verifier::ext_equal]
pub enum ValueView {
    String(Seq<u8>),
    Real(u64),
}

impl View for FstSignalValue {
    type V = ValueView;

    open spec fn view(&self) -> ValueView {
        match self {
            FstSignalValue::String(bytes) => ValueView::String(bytes@),
            FstSignalValue::Real(bits) => ValueView::Real(*bits),
        }
    }
}

impl FstSignalValue {
    pub fn duplicate(&self) -> (r: FstSignalValue)
        ensures
            r@ == self@,
    {
        match self {
            FstSignalValue::String(bytes) => FstSignalValue::String(bytes.clone()),
            FstSignalValue::Real(bits) => FstSignalValue::Real(*bits),
        }
    }
}

/// A signal takes on a value.
#[derive(Debug, PartialEq, Eq)]
pub struct FstSignalChange {
    pub time: u64,
    pub handle: FstSignalHandle,
    pub value: FstSignalValue,
}

/// What an [`FstSignalChange`] holds.
#[verifier::ext_equal]
pub struct ChangeView {
    pub time: u64,
    pub signal: int,
    pub value: ValueView,
}

impl View for FstSignalChange {
    type V = ChangeView;

    open spec fn view(&self) -> ChangeView {
        ChangeView { time: self.time, signal: self.handle.index as int, value: self.value@ }
    }
}

/// What a sequence of changes holds.
pub open spec fn change_views(changes: Seq<FstSignalChange>) -> Seq<ChangeView> {
    Seq::new(changes.len(), |i: int| changes[i]@)
}

/// `r` is what `m` says, the values compared by what they hold.
pub open spec fn same_value_at(r: Result<(FstSignalValue, u64)>, m: Result<(ValueView, int)>) -> bool {
    match (r, m) {
        (Ok((v, p)), Ok((w, q))) => v@ == w && p == q,
        (Err(e), Err(f)) => e == f,
        _ => false,
    }
}

/// The number of time steps that the leading integer `vli` of a change tells.
pub open spec fn time_delta(info: SignalInfo, vli: u32) -> u32 {
    if info.width() == 1 {
        if vli % 2 == 0 {
            vli / 4
        } else {
            vli / 16
        }
    } else {
        vli / 2
    }
}

/// The character for the value of a one-bit signal, which its leading integer tells:
/// one of `0` and `1`, or one of `xzhuwl-?`.
pub open spec fn one_bit_char(vli: u32) -> u8 {
    if vli % 2 == 0 {
        (0x30 + (vli / 2) % 2) as u8
    } else {
        seq![0x78u8, 0x7au8, 0x68u8, 0x75u8, 0x77u8, 0x6cu8, 0x2du8, 0x3fu8][((vli / 2) % 8) as int]
    }
}

/// The bits of a byte, the most significant bit first.
pub open spec fn byte_bit(byte: u8, bit: int) -> u8 {
    (if bit == 0 {
        byte / 128
    } else if bit == 1 {
        byte / 64
    } else if bit == 2 {
        byte / 32
    } else if bit == 3 {
        byte / 16
    } else if bit == 4 {
        byte / 8
    } else if bit == 5 {
        byte / 4
    } else if bit == 6 {
        byte / 2
    } else {
        byte
    }) % 2
}

/// The first `len` bits of `bytes`, as characters.
pub open spec fn bit_chars(bytes: Seq<u8>, len: nat) -> Seq<u8> {
    Seq::new(len, |i: int| (0x30 + byte_bit(bytes[i / 8], i % 8)) as u8)
}

/// The number of bytes that `bits` bits fill.
pub open spec fn bytes_for(bits: u32) -> u32 {
    ((bits + 7) / 8) as u32
}

/// The eight bytes at `pos`, in the byte order of the file's floating-point numbers.
pub open spec fn at_real(s: Seq<u8>, pos: int, endian: FloatingPointEndian) -> Result<(u64, int)> {
    if 0 <= pos && pos + 8 <= s.len() {
        match endian {
            FloatingPointEndian::Big => Ok((be_value(s, pos), pos + 8)),
            FloatingPointEndian::Little => Ok((le_value(s, pos), pos + 8)),
        }
    } else {
        Err(ReaderError::Io)
    }
}

/// The text of the `n` characters at `pos`.
pub open spec fn at_text(s: Seq<u8>, pos: int, n: int) -> Result<(ValueView, int)> {
    match at_bytes(s, pos, n) {
        Ok((text, next)) => Ok((ValueView::String(text), next)),
        Err(e) => Err(e),
    }
}

/// The value of a change with leading integer `vli`, which has its other bytes at `pos`.
#[verifier::opaque]
pub open spec fn at_value(
    info: SignalInfo,
    endian: FloatingPointEndian,
    vli: u32,
    s: Seq<u8>,
    pos: int,
) -> Result<(ValueView, int)> {
    match info {
        SignalInfo::Real => if vli % 2 == 0 {
            Err(ReaderError::Malformed)
        } else {
            match at_real(s, pos, endian) {
                Ok((bits, next)) => Ok((ValueView::Real(bits), next)),
                Err(e) => Err(e),
            }
        },
        SignalInfo::BitVec(width) => if width == 1 {
            Ok((ValueView::String(seq![one_bit_char(vli)]), pos))
        } else if width == 0 {
            match at_variant_u32(s, pos) {
                Ok((len, next)) => at_text(s, next, len as int),
                Err(e) => Err(e),
            }
        } else if vli % 2 == 0 {
            match at_bytes(s, pos, bytes_for(width) as int) {
                Ok((bytes, next)) => Ok((ValueView::String(bit_chars(bytes, width as nat)), next)),
                Err(e) => Err(e),
            }
        } else {
            at_text(s, pos, width as int)
        },
    }
}

/// The value of the change at `pos`, and where the change ends.
pub open spec fn at_change(
    info: SignalInfo,
    endian: FloatingPointEndian,
    s: Seq<u8>,
    pos: int,
) -> Result<(ValueView, int)> {
    match at_variant_u32(s, pos) {
        Ok((vli, next)) => at_value(info, endian, vli, s, next),
        Err(e) => Err(e),
    }
}

/// The time steps that the change at `pos` comes after the one before.
pub open spec fn at_delta(info: SignalInfo, s: Seq<u8>, pos: int) -> Result<u32> {
    match at_variant_u32(s, pos) {
        Ok((vli, _)) => Ok(time_delta(info, vli)),
        Err(e) => Err(e),
    }
}

/// The number of bytes that the value of a change takes up behind its leading
/// integer, without a look at the value itself.
#[verifier::opaque]
pub open spec fn at_value_end(info: SignalInfo, vli: u32, s: Seq<u8>, pos: int) -> Result<int> {
    let end: Result<int> = match info {
        SignalInfo::Real => Ok(pos + 8),
        SignalInfo::BitVec(width) => if width == 1 {
            Ok(pos)
        } else if width == 0 {
            match at_variant_u32(s, pos) {
                Ok((len, next)) => Ok(next + len),
                Err(e) => Err(e),
            }
        } else if vli % 2 == 0 {
            Ok(pos + bytes_for(width))
        } else {
            Ok(pos + width)
        },
    };
    match end {
        Err(e) => Err(e),
        Ok(next) => if next <= s.len() {
            Ok(next)
        } else {
            Err(ReaderError::Io)
        },
    }
}

/// A change takes up at least one byte, and lies within the bytes.
pub proof fn lemma_at_change_bounds(
    info: SignalInfo,
    endian: FloatingPointEndian,
    s: Seq<u8>,
    pos: int,
)
    ensures
        at_change(info, endian, s, pos) matches Ok((_, next)) ==> 0 <= pos < next <= s.len(),
{
    reveal(at_value);
    lemma_leb_len_bound(s, pos, 5);
    if let Ok((_, next)) = at_variant_u32(s, pos) {
        lemma_leb_len_bound(s, next, 5);
    }
}

/// The end of a value lies behind its beginning, and within the bytes.
pub proof fn lemma_value_end_bounds(info: SignalInfo, vli: u32, s: Seq<u8>, pos: int)
    ensures
        at_value_end(info, vli, s, pos) matches Ok(next) ==> pos <= next <= s.len(),
{
    reveal(at_value_end);
    lemma_leb_len_bound(s, pos, 5);
}

/// Where a value can be read, skipping it leads to the same place.
pub proof fn lemma_value_end(
    info: SignalInfo,
    endian: FloatingPointEndian,
    vli: u32,
    s: Seq<u8>,
    pos: int,
)
    requires
        0 <= pos <= s.len(),
    ensures
        at_value(info, endian, vli, s, pos) matches Ok((_, next)) ==> at_value_end(
            info,
            vli,
            s,
            pos,
        ) == Ok::<int, ReaderError>(next),
{
    reveal(at_value);
    reveal(at_value_end);
}

pub fn signal_time_delta(info: SignalInfo, vli: u32) -> (r: u32)
    ensures
        r == time_delta(info, vli),
{
    if info.len() == 1 {
        if vli % 2 == 0 {
            vli / 4
        } else {
            vli / 16
        }
    } else {
        vli / 2
    }
}

pub fn one_bit_signal_value_to_char(vli: u32) -> (r: u8)
    ensures
        r == one_bit_char(vli),
{
    if vli % 2 == 0 {
        0x30 + ((vli / 2) % 2) as u8
    } else {
        match (vli / 2) % 8 {
            0 => 0x78,
            1 => 0x7a,
            2 => 0x68,
            3 => 0x75,
            4 => 0x77,
            5 => 0x6c,
            6 => 0x2d,
            _ => 0x3f,
        }
    }
}

fn bit_of_byte(byte: u8, bit: usize) -> (r: u8)
    requires
        bit < 8,
    ensures
        r == byte_bit(byte, bit as int),
        r < 2,
{
    (match bit {
        0 => byte / 128,
        1 => byte / 64,
        2 => byte / 32,
        3 => byte / 16,
        4 => byte / 8,
        5 => byte / 4,
        6 => byte / 2,
        _ => byte,
    }) % 2
}

pub fn multi_bit_digital_signal_to_chars(bytes: &[u8], len: usize) -> (r: Vec<u8>)
    requires
        8 * bytes@.len() >= len,
    ensures
        r@ == bit_chars(bytes@, len as nat),
{
    let mut chars: Vec<u8> = Vec::new();
    let mut i: usize = 0;
    while i < len
        invariant
            i <= len <= 8 * bytes@.len(),
            chars@ == bit_chars(bytes@, i as nat),
        decreases len - i,
    {
        let bit: u8 = bit_of_byte(bytes[i / 8], i % 8);
        chars.push(0x30 + bit);
        i = i + 1;
        assert(chars@ =~= bit_chars(bytes@, i as nat));
    }
    chars
}

pub fn read_f64_bits(data: &[u8], pos: u64, endian: FloatingPointEndian) -> (r: Result<(u64, u64)>)
    ensures
        match (r, at_real(data@, pos as int, endian)) {
            (Ok((v, p)), Ok((w, q))) => v == w && p == q,
            (Err(e), Err(f)) => e == f,
            _ => false,
        },
{
    match endian {
        FloatingPointEndian::Big => read_u64(data, pos),
        FloatingPointEndian::Little => {
            let b = read_slice(data, pos, 8)?;
            Ok((le_u64(b), pos + 8))
        },
    }
}

/// Reads a text of `n` characters.
pub fn read_text(data: &[u8], pos: u64, n: u64) -> (r: Result<(FstSignalValue, u64)>)
    ensures
        same_value_at(r, at_text(data@, pos as int, n as int)),
{
    let text = read_slice(data, pos, n)?;
    Ok((FstSignalValue::String(vstd::slice::slice_to_vec(text)), pos + n))
}

/// Reads the value of a change whose leading integer is `vli`.
pub fn read_signal_value(
    info: SignalInfo,
    endian: FloatingPointEndian,
    vli: u32,
    data: &[u8],
    pos: u64,
) -> (r: Result<(FstSignalValue, u64)>)
    ensures
        same_value_at(r, at_value(info, endian, vli, data@, pos as int)),
{
    reveal(at_value);
    match info {
        SignalInfo::Real => {
            if vli % 2 == 0 {
                return Err(ReaderError::Malformed);
            }
            let (bits, next) = read_f64_bits(data, pos, endian)?;
            Ok((FstSignalValue::Real(bits), next))
        },
        SignalInfo::BitVec(width) => {
            if width == 1 {
                let value = vec![one_bit_signal_value_to_char(vli)];
                assert(value@ =~= seq![one_bit_char(vli)]);
                Ok((FstSignalValue::String(value), pos))
            } else if width == 0 {
                let (len, next) = read_variant_u32(data, pos)?;
                read_text(data, next, len as u64)
            } else if vli % 2 == 0 {
                let n: u64 = (width as u64 + 7) / 8;
                let bytes = read_slice(data, pos, n)?;
                let chars = multi_bit_digital_signal_to_chars(bytes, width as usize);
                Ok((FstSignalValue::String(chars), pos + n))
            } else {
                read_text(data, pos, width as u64)
            }
        },
    }
}

/// Finds the end of the value of a change whose leading integer is `vli`.
pub fn skip_signal_value(info: SignalInfo, vli: u32, data: &[u8], pos: u64) -> (r: Result<u64>)
    requires
        pos <= data@.len(),
    ensures
        match (r, at_value_end(info, vli, data@, pos as int)) {
            (Ok(n), Ok(m)) => n == m,
            (Err(e), Err(f)) => e == f,
            _ => false,
        },
{
    reveal(at_value_end);
    let len: u64 = data.len() as u64;
    let mut start: u64 = pos;
    let count: u64 = match info {
        SignalInfo::Real => 8,
        SignalInfo::BitVec(width) => {
            if width == 1 {
                0
            } else if width == 0 {
                let (n, next) = read_variant_u32(data, pos)?;
                start = next;
                n as u64
            } else if vli % 2 == 0 {
                (width as u64 + 7) / 8
            } else {
                width as u64
            }
        },
    };
    if count <= len - start {
        Ok(start + count)
    } else {
        Err(ReaderError::Io)
    }
}

/// Reads the time steps between the change at `pos` and the one before.
pub fn read_signal_time_delta(info: SignalInfo, data: &[u8], pos: u64) -> (r: Result<u32>)
    ensures
        match (r, at_delta(info, data@, pos as int)) {
            (Ok(n), Ok(m)) => n == m,
            (Err(e), Err(f)) => e == f,
            _ => false,
        },
{
    let (vli, _) = read_variant_u32(data, pos)?;
    Ok(signal_time_delta(info, vli))
}

/// Reads the value of the change at `pos`.
pub fn read_signal_change(info: SignalInfo, endian: FloatingPointEndian, data: &[u8], pos: u64) -> (r:
    Result<(FstSignalValue, u64)>)
    ensures
        same_value_at(r, at_change(info, endian, data@, pos as int)),
{
    let (vli, next) = read_variant_u32(data, pos)?;
    read_signal_value(info, endian, vli, data, next)
}

} // verus!
