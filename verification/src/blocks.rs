//! The blocks of a file that are read as a whole: the header, the geometry and
//! the blackouts.

use crate::compression::{maybe_zlib_bytes, unpack_maybe_zlib};
use crate::primitives::{
    at_bytes, at_field, at_u64, at_u8, at_variant_u32, at_variant_u64, be_value,
    read_c_str_fixed_length, read_slice, read_u64, read_u8, read_variant_u32, read_variant_u64,
};
use crate::types::{
    block_type, file_type, signal_info, BlackoutData, BlockType, FileType, FloatingPointEndian,
    ReaderError, Result, SignalInfo,
};
use vstd::prelude::*;

verus! {

/// The length of a header block.
pub const HEADER_LENGTH: u64 = 329;

/// The bits of the floating-point number e, in big-endian order.
pub const DOUBLE_ENDIAN_TEST: u64 = 0x4005_bf0a_8b14_5769;

/// The same bits in little-endian order.
pub const DOUBLE_ENDIAN_TEST_LE: u64 = 0x6957_148b_0abf_0540;

/// What the header block says.
#[derive(Debug, PartialEq, Eq)]
pub struct Header {
    pub start_time: u64,
    pub end_time: u64,
    pub memory_used_by_writer: u64,
    pub scope_count: u64,
    pub var_count: u64,
    pub max_var_id_code: u64,
    pub vc_section_count: u64,
    pub timescale_exponent: i8,
    pub version: String,
    pub date: String,
    pub file_type: FileType,
    pub time_zero: u64,
}

/// What a [`Header`] holds.
#[verifier::ext_equal]
pub struct HeaderView {
    pub start_time: u64,
    pub end_time: u64,
    pub memory_used_by_writer: u64,
    pub scope_count: u64,
    pub var_count: u64,
    pub max_var_id_code: u64,
    pub vc_section_count: u64,
    pub timescale_exponent: i8,
    pub version: Seq<char>,
    pub date: Seq<char>,
    pub file_type: FileType,
    pub time_zero: u64,
}

impl View for Header {
    type V = HeaderView;

    open spec fn view(&self) -> HeaderView {
        HeaderView {
            start_time: self.start_time,
            end_time: self.end_time,
            memory_used_by_writer: self.memory_used_by_writer,
            scope_count: self.scope_count,
            var_count: self.var_count,
            max_var_id_code: self.max_var_id_code,
            vc_section_count: self.vc_section_count,
            timescale_exponent: self.timescale_exponent,
            version: self.version@,
            date: self.date@,
            file_type: self.file_type,
            time_zero: self.time_zero,
        }
    }
}

/// The type of the block whose tag is at `pos`.
pub open spec fn at_block_type(s: Seq<u8>, pos: int) -> Result<BlockType> {
    match at_u8(s, pos) {
        Err(e) => Err(e),
        Ok((tag, _)) => match block_type(tag) {
            Some(tpe) => Ok(tpe),
            None => Err(ReaderError::BlockType),
        },
    }
}

pub fn read_block_tpe(data: &[u8], pos: u64) -> (r: Result<BlockType>)
    ensures
        r == at_block_type(data@, pos as int),
{
    let (tag, _) = read_u8(data, pos)?;
    match BlockType::from_u8(tag) {
        Some(tpe) => Ok(tpe),
        None => Err(ReaderError::BlockType),
    }
}

/// The byte order in which `mark`, read in big-endian order, is the number e.
pub open spec fn endian_of(mark: u64) -> Result<FloatingPointEndian> {
    if mark == DOUBLE_ENDIAN_TEST {
        Ok(FloatingPointEndian::Big)
    } else if mark == DOUBLE_ENDIAN_TEST_LE {
        Ok(FloatingPointEndian::Little)
    } else {
        Err(ReaderError::FloatEndian)
    }
}

pub fn determine_f64_endian(mark: u64) -> (r: Result<FloatingPointEndian>)
    ensures
        r == endian_of(mark),
{
    if mark == DOUBLE_ENDIAN_TEST {
        Ok(FloatingPointEndian::Big)
    } else if mark == DOUBLE_ENDIAN_TEST_LE {
        Ok(FloatingPointEndian::Little)
    } else {
        Err(ReaderError::FloatEndian)
    }
}

/// The signed number with the same bits as `byte`.
pub open spec fn signed_byte(byte: u8) -> i8 {
    if byte < 128 {
        byte as i8
    } else {
        (byte - 256) as i8
    }
}

/// The first numbers of a header: the times, and the mark of the byte order.
pub open spec fn at_header_times(s: Seq<u8>, pos: int) -> Result<(u64, u64, FloatingPointEndian)> {
    match at_u64(s, pos) {
        Err(e) => Err(e),
        Ok((length, _)) => if length != HEADER_LENGTH {
            Err(ReaderError::Malformed)
        } else {
            match at_bytes(s, pos + 8, 24) {
                Err(e) => Err(e),
                Ok((b, _)) => match endian_of(be_value(b, 16)) {
                    Err(e) => Err(e),
                    Ok(endian) => Ok((be_value(b, 0), be_value(b, 8), endian)),
                },
            }
        },
    }
}

/// The file type of a header, and the time zero.
pub open spec fn at_header_tail(s: Seq<u8>, pos: int) -> Result<(FileType, u64)> {
    match at_u8(s, pos + 320) {
        Err(e) => Err(e),
        Ok((code, _)) => match file_type(code) {
            None => Err(ReaderError::FileType),
            Some(tpe) => match at_u64(s, pos + 321) {
                Err(e) => Err(e),
                Ok((time_zero, _)) => Ok((tpe, time_zero)),
            },
        },
    }
}

/// The header whose length field is at `pos`.
#[verifier::opaque]
pub open spec fn at_header(s: Seq<u8>, pos: int) -> Result<(HeaderView, FloatingPointEndian)> {
    match at_header_times(s, pos) {
        Err(e) => Err(e),
        Ok((start_time, end_time, endian)) => match at_bytes(s, pos + 32, 41) {
            Err(e) => Err(e),
            Ok((b, _)) => match at_field(s, pos + 73, 128) {
                Err(e) => Err(e),
                Ok((version, _)) => match at_field(s, pos + 201, 119) {
                    Err(e) => Err(e),
                    Ok((date, _)) => match at_header_tail(s, pos) {
                        Err(e) => Err(e),
                        Ok((file_type, time_zero)) => Ok(
                            (
                                HeaderView {
                                    start_time,
                                    end_time,
                                    memory_used_by_writer: be_value(b, 0),
                                    scope_count: be_value(b, 8),
                                    var_count: be_value(b, 16),
                                    max_var_id_code: be_value(b, 24),
                                    vc_section_count: be_value(b, 32),
                                    timescale_exponent: signed_byte(b[40]),
                                    version,
                                    date,
                                    file_type,
                                    time_zero,
                                },
                                endian,
                            ),
                        ),
                    },
                },
            },
        },
    }
}

fn read_header_times(data: &[u8], pos: u64) -> (r: Result<(u64, u64, FloatingPointEndian)>)
    ensures
        r == at_header_times(data@, pos as int),
        r is Ok ==> pos + 32 <= data@.len(),
{
    let (length, next) = read_u64(data, pos)?;
    if length != HEADER_LENGTH {
        return Err(ReaderError::Malformed);
    }
    let b = read_slice(data, next, 24)?;
    let (start_time, _) = read_u64(b, 0)?;
    let (end_time, _) = read_u64(b, 8)?;
    let (mark, _) = read_u64(b, 16)?;
    let endian = determine_f64_endian(mark)?;
    Ok((start_time, end_time, endian))
}

fn read_header_tail(data: &[u8], pos: u64) -> (r: Result<(FileType, u64)>)
    requires
        pos + 320 <= data@.len(),
    ensures
        r == at_header_tail(data@, pos as int),
        r is Ok ==> pos + 329 <= data@.len(),
{
    let len: usize = data.len();
    let (code, next) = read_u8(data, pos + 320)?;
    match FileType::from_u8(code) {
        None => Err(ReaderError::FileType),
        Some(tpe) => {
            let (time_zero, _) = read_u64(data, next)?;
            Ok((tpe, time_zero))
        },
    }
}

pub fn read_header(data: &[u8], pos: u64) -> (r: Result<(Header, FloatingPointEndian)>)
    ensures
        match (r, at_header(data@, pos as int)) {
            (Ok((v, endian)), Ok(w)) => v@ == w.0 && endian == w.1 && pos + 329 <= data@.len(),
            (Err(e), Err(f)) => e == f,
            _ => false,
        },
{
    reveal(at_header);
    let (start_time, end_time, endian) = read_header_times(data, pos)?;
    let len: usize = data.len();
    let b = read_slice(data, pos + 32, 41)?;
    let (memory_used_by_writer, _) = read_u64(b, 0)?;
    let (scope_count, _) = read_u64(b, 8)?;
    let (var_count, _) = read_u64(b, 16)?;
    let (max_var_id_code, _) = read_u64(b, 24)?;
    let (vc_section_count, _) = read_u64(b, 32)?;
    let exponent: u8 = b[40];
    let timescale_exponent: i8 = if exponent < 128 {
        exponent as i8
    } else {
        (exponent as i16 - 256) as i8
    };
    let (version, next) = read_c_str_fixed_length(data, pos + 73, 128)?;
    let (date, _) = read_c_str_fixed_length(data, next, 119)?;
    let (file_type, time_zero) = read_header_tail(data, pos)?;
    let header = Header {
        start_time,
        end_time,
        memory_used_by_writer,
        scope_count,
        var_count,
        max_var_id_code,
        vc_section_count,
        timescale_exponent,
        version,
        date,
        file_type,
        time_zero,
    };
    Ok((header, endian))
}

/// The signals that the first `n` integers of an unpacked geometry stand for.
pub open spec fn decoded_geometry(bytes: Seq<u8>, pos: int, n: nat) -> Result<Seq<SignalInfo>>
    decreases n,
{
    if n == 0 {
        Ok(Seq::empty())
    } else {
        match at_variant_u32(bytes, pos) {
            Err(e) => Err(e),
            Ok((value, next)) => match decoded_geometry(bytes, next, (n - 1) as nat) {
                Err(e) => Err(e),
                Ok(rest) => Ok(seq![signal_info(value)] + rest),
            },
        }
    }
}

/// The geometry block whose length field is at `pos`: its length, and the signals.
#[verifier::opaque]
pub open spec fn at_geometry(s: Seq<u8>, pos: int) -> Result<(u64, Seq<SignalInfo>)> {
    match at_u64(s, pos) {
        Err(e) => Err(e),
        Ok((length, _)) => match at_u64(s, pos + 8) {
            Err(e) => Err(e),
            Ok((unpacked, _)) => match at_u64(s, pos + 16) {
                Err(e) => Err(e),
                Ok((max_handle, _)) => if length < 24 || max_handle >= u32::MAX {
                    Err(ReaderError::Malformed)
                } else {
                    match at_bytes(s, pos + 24, length - 24) {
                        Err(e) => Err(e),
                        Ok((raw, _)) => match maybe_zlib_bytes(raw, unpacked) {
                            Err(e) => Err(e),
                            Ok(bytes) => match decoded_geometry(bytes, 0, max_handle as nat) {
                                Err(e) => Err(e),
                                Ok(signals) => Ok((length, signals)),
                            },
                        },
                    }
                },
            },
        },
    }
}

/// Reads the signals in an unpacked geometry.
pub fn decode_geometry(bytes: &[u8], n: u64) -> (r: Result<Vec<SignalInfo>>)
    ensures
        match (r, decoded_geometry(bytes@, 0, n as nat)) {
            (Ok(v), Ok(w)) => v@ == w && v@.len() == n,
            (Err(e), Err(f)) => e == f,
            _ => false,
        },
{
    let mut signals: Vec<SignalInfo> = Vec::new();
    let mut pos: u64 = 0;
    let mut k: u64 = 0;
    let ghost whole = decoded_geometry(bytes@, 0, n as nat);
    proof {
        if let Ok(w) = whole {
            assert(Seq::<SignalInfo>::empty() + w =~= w);
        }
    }
    while k < n
        invariant
            k <= n,
            signals@.len() == k,
            whole == decoded_geometry(bytes@, 0, n as nat),
            match decoded_geometry(bytes@, pos as int, (n - k) as nat) {
                Ok(rest) => whole == Ok::<Seq<SignalInfo>, ReaderError>(signals@ + rest),
                Err(e) => whole == Err::<Seq<SignalInfo>, ReaderError>(e),
            },
        decreases n - k,
    {
        let ghost before = signals@;
        let (value, next) = read_variant_u32(bytes, pos)?;
        signals.push(SignalInfo::from_file_format(value));
        pos = next;
        k = k + 1;
        proof {
            if let Ok(rest) = decoded_geometry(bytes@, pos as int, (n - k) as nat) {
                assert(before + (seq![signal_info(value)] + rest) =~= signals@ + rest);
            }
        }
    }
    assert(signals@ + Seq::<SignalInfo>::empty() =~= signals@);
    Ok(signals)
}

pub fn read_geometry(data: &[u8], pos: u64) -> (r: Result<(u64, Vec<SignalInfo>)>)
    ensures
        match (r, at_geometry(data@, pos as int)) {
            (Ok((length, v)), Ok(w)) => {
                &&& length == w.0
                &&& v@ == w.1
                &&& v@.len() < u32::MAX
                &&& pos + length <= data@.len()
            },
            (Err(e), Err(f)) => e == f,
            _ => false,
        },
{
    reveal(at_geometry);
    let (length, next) = read_u64(data, pos)?;
    let (unpacked, next) = read_u64(data, next)?;
    let (max_handle, next) = read_u64(data, next)?;
    if length < 24 || max_handle >= u32::MAX as u64 {
        return Err(ReaderError::Malformed);
    }
    let raw = read_slice(data, next, length - 24)?;
    let bytes = unpack_maybe_zlib(raw, unpacked)?;
    let signals = decode_geometry(bytes.as_slice(), max_handle)?;
    Ok((length, signals))
}

/// `n` blackouts, each told by its distance from the one before, and where they end.
pub open spec fn at_blackout_list(s: Seq<u8>, pos: int, n: nat, last: u64) -> Result<
    (Seq<BlackoutData>, int),
>
    decreases n,
{
    if n == 0 {
        Ok((Seq::empty(), pos))
    } else {
        match at_u8(s, pos) {
            Err(e) => Err(e),
            Ok((activity, p)) => match at_variant_u64(s, p) {
                Err(e) => Err(e),
                Ok((delta, q)) => if last + delta > u64::MAX {
                    Err(ReaderError::Malformed)
                } else {
                    let time = (last + delta) as u64;
                    match at_blackout_list(s, q, (n - 1) as nat, time) {
                        Err(e) => Err(e),
                        Ok((rest, end)) => Ok(
                            (
                                seq![BlackoutData { time, contains_activity: activity != 0 }]
                                    + rest,
                                end,
                            ),
                        ),
                    }
                },
            },
        }
    }
}

/// The blackout block whose length field is at `pos`: where it ends, and the blackouts.
#[verifier::opaque]
pub open spec fn at_blackouts(s: Seq<u8>, pos: int) -> Result<(int, Seq<BlackoutData>)> {
    match at_u64(s, pos) {
        Err(e) => Err(e),
        Ok((length, p)) => match at_variant_u32(s, p) {
            Err(e) => Err(e),
            Ok((n, q)) => match at_blackout_list(s, q, n as nat, 0) {
                Err(e) => Err(e),
                Ok((blackouts, end)) => if pos + length != end {
                    Err(ReaderError::Malformed)
                } else {
                    Ok((end, blackouts))
                },
            },
        },
    }
}

pub fn read_blackout(data: &[u8], pos: u64) -> (r: Result<(u64, Vec<BlackoutData>)>)
    ensures
        match (r, at_blackouts(data@, pos as int)) {
            (Ok((end, v)), Ok(w)) => end == w.0 && v@ == w.1 && pos < end <= data@.len(),
            (Err(e), Err(f)) => e == f,
            _ => false,
        },
{
    reveal(at_blackouts);
    let (length, next) = read_u64(data, pos)?;
    let (n, start) = read_variant_u32(data, next)?;
    let mut blackouts: Vec<BlackoutData> = Vec::new();
    let mut at: u64 = start;
    let mut last: u64 = 0;
    let mut k: u32 = 0;
    let ghost whole = at_blackout_list(data@, start as int, n as nat, 0);
    proof {
        if let Ok((w, _)) = whole {
            assert(Seq::<BlackoutData>::empty() + w =~= w);
        }
    }
    while k < n
        invariant
            k <= n,
            pos < start <= at <= data@.len(),
            whole == at_blackout_list(data@, start as int, n as nat, 0),
            at_blackouts(data@, pos as int) == (match whole {
                Ok((blackouts, end)) => if pos + length != end {
                    Err::<(int, Seq<BlackoutData>), ReaderError>(ReaderError::Malformed)
                } else {
                    Ok((end, blackouts))
                },
                Err(e) => Err(e),
            }),
            match at_blackout_list(data@, at as int, (n - k) as nat, last) {
                Ok((rest, end)) => whole == Ok::<(Seq<BlackoutData>, int), ReaderError>(
                    (blackouts@ + rest, end),
                ),
                Err(e) => whole == Err::<(Seq<BlackoutData>, int), ReaderError>(e),
            },
        decreases n - k,
    {
        let ghost before = blackouts@;
        let (activity, next) = read_u8(data, at)?;
        let (delta, next) = read_variant_u64(data, next)?;
        if delta > u64::MAX - last {
            return Err(ReaderError::Malformed);
        }
        last = last + delta;
        let blackout = BlackoutData { time: last, contains_activity: activity != 0 };
        blackouts.push(blackout);
        at = next;
        k = k + 1;
        proof {
            if let Ok((rest, _)) = at_blackout_list(data@, at as int, (n - k) as nat, last) {
                assert(before + (seq![blackout] + rest) =~= blackouts@ + rest);
            }
        }
    }
    assert(blackouts@ + Seq::<BlackoutData>::empty() =~= blackouts@);
    if length != at - pos {
        return Err(ReaderError::Malformed);
    }
    Ok((at, blackouts))
}

} // verus!
