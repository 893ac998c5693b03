//! The parts of a data section: the table of times, the frame of initial
//! values, the locations of the signals and their packed changes.

use crate::compression::{
    lz4_bytes, maybe_zlib_bytes, same_bytes, unpack_lz4, unpack_maybe_zlib, unpack_zlib,
    zlib_bytes,
};
use crate::bitmask::BitMask;
use crate::primitives::{
    at_bytes, at_u64, at_variant_u32, at_variant_u64, read_slice, read_u64, read_variant_u32,
    read_variant_u64,
};
use crate::types::{
    FloatingPointEndian, FstSignalHandle, ReaderError, Result, SignalInfo, ValueChangePackType,
};
use crate::values::{
    at_real, at_text, change_views, read_f64_bits, read_text, ChangeView, FstSignalChange,
    FstSignalValue, ValueView,
};
use vstd::prelude::*;

verus! {

/// `n` times, each told by its distance from the one before.
pub open spec fn decoded_times(s: Seq<u8>, pos: int, n: nat, last: u64) -> Result<Seq<u64>>
    decreases n,
{
    if n == 0 {
        Ok(Seq::empty())
    } else {
        match at_variant_u64(s, pos) {
            Err(e) => Err(e),
            Ok((delta, next)) => if last + delta > u64::MAX {
                Err(ReaderError::Malformed)
            } else {
                let time = (last + delta) as u64;
                match decoded_times(s, next, (n - 1) as nat, time) {
                    Err(e) => Err(e),
                    Ok(rest) => Ok(seq![time] + rest),
                }
            },
        }
    }
}

/// A table of times, and the number of bytes that it takes up at the end of its section.
#[verifier::ext_equal]
pub struct TimesView {
    pub size: int,
    pub times: Seq<u64>,
}

/// The table of times of the section whose length field is at `start`.
pub open spec fn at_times(s: Seq<u8>, start: int, length: u64) -> Result<TimesView> {
    let end = start + length;
    match at_u64(s, end - 24) {
        Err(e) => Err(e),
        Ok((unpacked, _)) => match at_u64(s, end - 16) {
            Err(e) => Err(e),
            Ok((packed, _)) => match at_u64(s, end - 8) {
                Err(e) => Err(e),
                Ok((count, _)) => match at_bytes(s, end - 24 - packed, packed as int) {
                    Err(e) => Err(e),
                    Ok((raw, _)) => match maybe_zlib_bytes(raw, unpacked) {
                        Err(e) => Err(e),
                        Ok(bytes) => match decoded_times(bytes, 0, count as nat, 0) {
                            Err(e) => Err(e),
                            Ok(times) => Ok(TimesView { size: packed + 24, times }),
                        },
                    },
                },
            },
        },
    }
}

pub proof fn lemma_times_sorted(s: Seq<u8>, pos: int, n: nat, last: u64)
    ensures
        decoded_times(s, pos, n, last) matches Ok(times) ==> {
            &&& times.len() == n
            &&& forall|i: int| 0 <= i < times.len() ==> last <= #[trigger] times[i]
            &&& forall|i: int, j: int| 0 <= i <= j < times.len() ==> times[i] <= times[j]
        },
    decreases n,
{
    if n > 0 {
        if let Ok((delta, next)) = at_variant_u64(s, pos) {
            if last + delta <= u64::MAX {
                lemma_times_sorted(s, next, (n - 1) as nat, (last + delta) as u64);
            }
        }
    }
}

/// The times of a table are in ascending order.
pub proof fn time_table_ascends(s: Seq<u8>, start: int, length: u64)
    ensures
        at_times(s, start, length) matches Ok(table) ==> forall|i: int, j: int|
            0 <= i <= j < table.times.len() ==> table.times[i] <= table.times[j],
{
    let end = start + length;
    if let Ok((unpacked, _)) = at_u64(s, end - 24) {
        if let Ok((packed, _)) = at_u64(s, end - 16) {
            if let Ok((count, _)) = at_u64(s, end - 8) {
                if let Ok((raw, _)) = at_bytes(s, end - 24 - packed, packed as int) {
                    if let Ok(bytes) = maybe_zlib_bytes(raw, unpacked) {
                        lemma_times_sorted(bytes, 0, count as nat, 0);
                    }
                }
            }
        }
    }
}

/// Adds the distances between `n` times up.
pub fn decode_times(bytes: &[u8], n: u64) -> (r: Result<Vec<u64>>)
    ensures
        match (r, decoded_times(bytes@, 0, n as nat, 0)) {
            (Ok(v), Ok(w)) => v@ == w,
            (Err(e), Err(f)) => e == f,
            _ => false,
        },
{
    let mut times: Vec<u64> = Vec::new();
    let mut pos: u64 = 0;
    let mut last: u64 = 0;
    let mut k: u64 = 0;
    let ghost whole = decoded_times(bytes@, 0, n as nat, 0);
    proof {
        if let Ok(w) = whole {
            assert(Seq::<u64>::empty() + w =~= w);
        }
    }
    while k < n
        invariant
            k <= n,
            whole == decoded_times(bytes@, 0, n as nat, 0),
            match decoded_times(bytes@, pos as int, (n - k) as nat, last) {
                Ok(rest) => whole == Ok::<Seq<u64>, ReaderError>(times@ + rest),
                Err(e) => whole == Err::<Seq<u64>, ReaderError>(e),
            },
        decreases n - k,
    {
        let ghost before = times@;
        let (delta, next) = read_variant_u64(bytes, pos)?;
        if delta > u64::MAX - last {
            return Err(ReaderError::Malformed);
        }
        last = last + delta;
        times.push(last);
        pos = next;
        k = k + 1;
        proof {
            if let Ok(rest) = decoded_times(bytes@, pos as int, (n - k) as nat, last) {
                assert(before + (seq![last] + rest) =~= times@ + rest);
            }
        }
    }
    assert(times@ + Seq::<u64>::empty() =~= times@);
    Ok(times)
}

/// Reads the table of times of the section whose length field is at `start`.
pub fn read_time_table(data: &[u8], start: u64, length: u64) -> (r: Result<(u64, Vec<u64>)>)
    ensures
        match (r, at_times(data@, start as int, length)) {
            (Ok((size, times)), Ok(table)) => size == table.size && times@ == table.times && size
                <= start + length <= data@.len(),
            (Err(e), Err(f)) => e == f,
            _ => false,
        },
{
    let len: u64 = data.len() as u64;
    if start > len || length > len - start || start + length < 24 {
        return Err(ReaderError::Io);
    }
    let end: u64 = start + length;
    let (unpacked, _) = read_u64(data, end - 24)?;
    let (packed, _) = read_u64(data, end - 16)?;
    let (count, _) = read_u64(data, end - 8)?;
    if packed > end - 24 {
        return Err(ReaderError::Io);
    }
    let raw = read_slice(data, end - 24 - packed, packed)?;
    let bytes = unpack_maybe_zlib(raw, unpacked)?;
    let times = decode_times(bytes.as_slice(), count)?;
    Ok((packed + 24, times))
}

/// The length and the times of the section whose length field is at `start`.
pub struct SectionHead {
    pub length: u64,
    pub start_time: u64,
    pub end_time: u64,
}

/// The head of the section whose length field is at `start`.
pub open spec fn at_section_head(s: Seq<u8>, start: int) -> Result<SectionHead> {
    match at_u64(s, start) {
        Err(e) => Err(e),
        Ok((length, _)) => match at_u64(s, start + 8) {
            Err(e) => Err(e),
            Ok((start_time, _)) => match at_u64(s, start + 16) {
                Err(e) => Err(e),
                Ok((end_time, _)) => Ok(SectionHead { length, start_time, end_time }),
            },
        },
    }
}

pub fn read_section_head(data: &[u8], start: u64) -> (r: Result<SectionHead>)
    ensures
        r == at_section_head(data@, start as int),
{
    let (length, next) = read_u64(data, start)?;
    let (start_time, next) = read_u64(data, next)?;
    let (end_time, _) = read_u64(data, next)?;
    Ok(SectionHead { length, start_time, end_time })
}

/// Where the packed frame of a section lies, and of how many signals it tells.
pub struct FrameHead {
    pub unpacked: u64,
    pub packed: u64,
    pub max_handle: u64,
    /// where the packed bytes begin
    pub pos: u64,
}

/// The frame of the section whose length field is at `start`.
pub open spec fn at_frame_head(s: Seq<u8>, start: int) -> Result<FrameHead> {
    match at_variant_u64(s, start + 32) {
        Err(e) => Err(e),
        Ok((unpacked, p)) => match at_variant_u64(s, p) {
            Err(e) => Err(e),
            Ok((packed, q)) => match at_variant_u64(s, q) {
                Err(e) => Err(e),
                Ok((max_handle, pos)) => if packed > s.len() - pos {
                    Err(ReaderError::Io)
                } else {
                    Ok(FrameHead { unpacked, packed, max_handle, pos: pos as u64 })
                },
            },
        },
    }
}

pub fn read_frame_head(data: &[u8], start: u64) -> (r: Result<FrameHead>)
    ensures
        r == at_frame_head(data@, start as int),
        r matches Ok(head) ==> head.pos + head.packed <= data@.len() <= u64::MAX,
{
    let len: u64 = data.len() as u64;
    if start > len || len - start < 32 {
        return Err(ReaderError::Io);
    }
    let (unpacked, p) = read_variant_u64(data, start + 32)?;
    let (packed, q) = read_variant_u64(data, p)?;
    let (max_handle, pos) = read_variant_u64(data, q)?;
    if packed > len - pos {
        return Err(ReaderError::Io);
    }
    Ok(FrameHead { unpacked, packed, max_handle, pos })
}

/// Where the frame of the section ends.
pub open spec fn frame_end(s: Seq<u8>, start: int) -> Result<int> {
    match at_frame_head(s, start) {
        Err(e) => Err(e),
        Ok(head) => Ok(head.pos + head.packed),
    }
}

pub fn skip_frame(data: &[u8], start: u64) -> (r: Result<u64>)
    ensures
        match (r, frame_end(data@, start as int)) {
            (Ok(n), Ok(m)) => n == m && n <= data@.len(),
            (Err(e), Err(f)) => e == f,
            _ => false,
        },
{
    let head = read_frame_head(data, start)?;
    Ok(head.pos + head.packed)
}

/// The initial value of a signal, which lies at `pos` in an unpacked frame.
pub open spec fn at_frame_value(
    bytes: Seq<u8>,
    pos: int,
    info: SignalInfo,
    endian: FloatingPointEndian,
) -> Result<(ValueView, int)> {
    match info {
        SignalInfo::Real => match at_real(bytes, pos, endian) {
            Err(e) => Err(e),
            Ok((bits, next)) => Ok((ValueView::Real(bits), next)),
        },
        SignalInfo::BitVec(width) => at_text(bytes, pos, width as int),
    }
}

/// The initial values of the selected signals from `k` on, the first of which
/// lies at `pos` in an unpacked frame. Texts of varying length have none.
pub open spec fn frame_values(
    bytes: Seq<u8>,
    pos: int,
    infos: Seq<SignalInfo>,
    endian: FloatingPointEndian,
    mask: Seq<bool>,
    k: int,
    n: int,
    time: u64,
) -> Result<Seq<ChangeView>>
    decreases n - k,
{
    if k >= n {
        Ok(Seq::empty())
    } else {
        let rest = frame_values(
            bytes,
            pos + infos[k].width(),
            infos,
            endian,
            mask,
            k + 1,
            n,
            time,
        );
        if mask[k] && infos[k].width() > 0 {
            match at_frame_value(bytes, pos, infos[k], endian) {
                Err(e) => Err(e),
                Ok((value, _)) => match rest {
                    Err(e) => Err(e),
                    Ok(changes) => Ok(seq![ChangeView { time, signal: k, value }] + changes),
                },
            }
        } else {
            rest
        }
    }
}

/// The smaller of a handle and a number of signals.
pub open spec fn at_most(max_handle: u64, signals: nat) -> int {
    if max_handle < signals {
        max_handle as int
    } else {
        signals as int
    }
}

/// The initial values of the selected signals in the frame of a section.
pub open spec fn at_frame(
    s: Seq<u8>,
    start: int,
    infos: Seq<SignalInfo>,
    endian: FloatingPointEndian,
    mask: Seq<bool>,
    time: u64,
) -> Result<Seq<ChangeView>> {
    match at_frame_head(s, start) {
        Err(e) => Err(e),
        Ok(head) => match at_bytes(s, head.pos as int, head.packed as int) {
            Err(e) => Err(e),
            Ok((raw, _)) => match maybe_zlib_bytes(raw, head.unpacked) {
                Err(e) => Err(e),
                Ok(bytes) => frame_values(
                    bytes,
                    0,
                    infos,
                    endian,
                    mask,
                    0,
                    at_most(head.max_handle, infos.len()),
                    time,
                ),
            },
        },
    }
}

fn read_frame_value(bytes: &[u8], pos: u64, info: SignalInfo, endian: FloatingPointEndian) -> (r:
    Result<FstSignalValue>)
    ensures
        match (r, at_frame_value(bytes@, pos as int, info, endian)) {
            (Ok(v), Ok((w, _))) => v@ == w,
            (Err(e), Err(f)) => e == f,
            _ => false,
        },
{
    match info {
        SignalInfo::Real => {
            let (bits, _) = read_f64_bits(bytes, pos, endian)?;
            Ok(FstSignalValue::Real(bits))
        },
        SignalInfo::BitVec(width) => {
            let (value, _) = read_text(bytes, pos, width as u64)?;
            Ok(value)
        },
    }
}

/// Lists the initial values of the selected signals in an unpacked frame.
pub fn list_frame_values(
    bytes: &[u8],
    infos: &Vec<SignalInfo>,
    endian: FloatingPointEndian,
    mask: &BitMask,
    max_handle: u64,
    time: u64,
) -> (r: Result<Vec<FstSignalChange>>)
    requires
        infos@.len() < u32::MAX,
        mask@.len() == infos@.len(),
    ensures
        match (
            r,
            frame_values(
                bytes@,
                0,
                infos@,
                endian,
                mask@,
                0,
                at_most(max_handle, infos@.len()),
                time,
            ),
        ) {
            (Ok(v), Ok(w)) => change_views(v@) == w,
            (Err(e), Err(f)) => e == f,
            _ => false,
        },
{
    let n: usize = if max_handle < infos.len() as u64 {
        max_handle as usize
    } else {
        infos.len()
    };
    let mut out: Vec<FstSignalChange> = Vec::new();
    let mut pos: u64 = 0;
    let mut k: usize = 0;
    let ghost whole = frame_values(bytes@, 0, infos@, endian, mask@, 0, n as int, time);
    proof {
        assert(change_views(out@) =~= Seq::<ChangeView>::empty());
        if let Ok(w) = whole {
            assert(Seq::<ChangeView>::empty() + w =~= w);
        }
    }
    while k < n
        invariant
            k <= n <= infos@.len() < u32::MAX,
            mask@.len() == infos@.len(),
            n == at_most(max_handle, infos@.len()),
            pos <= k * 0xffff_ffff,
            whole == frame_values(bytes@, 0, infos@, endian, mask@, 0, n as int, time),
            match frame_values(
                bytes@,
                pos as int,
                infos@,
                endian,
                mask@,
                k as int,
                n as int,
                time,
            ) {
                Ok(rest) => whole == Ok::<Seq<ChangeView>, ReaderError>(change_views(out@) + rest),
                Err(e) => whole == Err::<Seq<ChangeView>, ReaderError>(e),
            },
        decreases n - k,
    {
        let info: SignalInfo = infos[k];
        let width: u32 = info.len();
        if mask.is_set(k) && width > 0 {
            let value = match read_frame_value(bytes, pos, info, endian) {
                Ok(value) => value,
                Err(e) => {
                    return Err(e);
                },
            };
            let change = FstSignalChange { time, handle: FstSignalHandle::from_index(k), value };
            let ghost before = change_views(out@);
            let ghost view = change@;
            out.push(change);
            proof {
                assert(change_views(out@) =~= before.push(view));
                if let Ok(rest) = frame_values(
                    bytes@,
                    pos + width,
                    infos@,
                    endian,
                    mask@,
                    k + 1,
                    n as int,
                    time,
                ) {
                    assert(before + (seq![view] + rest) =~= change_views(out@) + rest);
                }
            }
        }
        pos = pos + width as u64;
        k = k + 1;
    }
    assert(change_views(out@) + Seq::<ChangeView>::empty() =~= change_views(out@));
    Ok(out)
}

/// Reads the initial values of the selected signals.
pub fn read_frame(
    data: &[u8],
    start: u64,
    infos: &Vec<SignalInfo>,
    endian: FloatingPointEndian,
    mask: &BitMask,
    time: u64,
) -> (r: Result<Vec<FstSignalChange>>)
    requires
        infos@.len() < u32::MAX,
        mask@.len() == infos@.len(),
    ensures
        match (r, at_frame(data@, start as int, infos@, endian, mask@, time)) {
            (Ok(v), Ok(w)) => change_views(v@) == w,
            (Err(e), Err(f)) => e == f,
            _ => false,
        },
{
    let head = read_frame_head(data, start)?;
    let raw = read_slice(data, head.pos, head.packed)?;
    let bytes = unpack_maybe_zlib(raw, head.unpacked)?;
    list_frame_values(bytes.as_slice(), infos, endian, mask, head.max_handle, time)
}

/// The packed changes of a signal, which lie in the `len` bytes at `pos`.
pub open spec fn at_packed(s: Seq<u8>, pos: int, len: int, pack: ValueChangePackType) -> Result<
    Seq<u8>,
> {
    match at_variant_u32(s, pos) {
        Err(e) => Err(e),
        Ok((unpacked, next)) => if next - pos > len {
            Err(ReaderError::Malformed)
        } else {
            match at_bytes(s, next, len - (next - pos)) {
                Err(e) => Err(e),
                Ok((raw, _)) => if unpacked == 0 {
                    Ok(raw)
                } else {
                    match pack {
                        ValueChangePackType::Lz4 => lz4_bytes(raw, unpacked as u64),
                        ValueChangePackType::FastLz => Err(ReaderError::FastLz),
                        ValueChangePackType::Zlib => zlib_bytes(raw, unpacked as u64),
                    }
                },
            }
        },
    }
}

/// Reads and unpacks the changes of a signal.
pub fn read_packed_signal_value_bytes(
    data: &[u8],
    pos: u64,
    len: u64,
    pack: ValueChangePackType,
) -> (r: Result<Vec<u8>>)
    ensures
        same_bytes(r, at_packed(data@, pos as int, len as int, pack)),
{
    let (unpacked, next) = read_variant_u32(data, pos)?;
    if next - pos > len {
        return Err(ReaderError::Malformed);
    }
    let raw = read_slice(data, next, len - (next - pos))?;
    if unpacked == 0 {
        return Ok(vstd::slice::slice_to_vec(raw));
    }
    match pack {
        ValueChangePackType::Lz4 => unpack_lz4(raw, unpacked as u64),
        ValueChangePackType::FastLz => Err(ReaderError::FastLz),
        ValueChangePackType::Zlib => unpack_zlib(raw, unpacked as u64),
    }
}

} // verus!
