//! The small parts: integers, texts, masks, times, values and unpacking.

use fst_reader::bitmask::BitMask;
use fst_reader::compression::{
    require_length, unpack_lz4, unpack_maybe_zlib, unpack_zlib, InflateStatus,
};
use fst_reader::gzip::{accept, decompress_gz_in_chunks, read_gzip_header};
use fst_reader::hierarchy::{list_entries, reconstruct_geometry, FstHierarchyEntry, FstVarType};
use fst_reader::locations::{read_signal_locs, resolve, SignalLoc};
use fst_reader::primitives::{
    le_u64, read_bytes, read_c_str, read_c_str_fixed_length, read_u64, read_u8, read_variant_i64,
    read_variant_u32, read_variant_u64,
};
use fst_reader::section::{decode_times, read_packed_signal_value_bytes};
use fst_reader::values::{
    multi_bit_digital_signal_to_chars, one_bit_signal_value_to_char, read_f64_bits,
    read_signal_change, read_signal_time_delta, skip_signal_value,
};
use fst_reader::wheel::SlotLists;
use fst_reader::{
    BlockType, DataSectionKind, FileType, FloatingPointEndian, FstSignalHandle, FstSignalValue,
    InflateError, ReaderError, SignalInfo, ValueChangePackType,
};

fn leb(mut n: u64) -> Vec<u8> {
    let mut out = vec![];
    while n >= 128 {
        out.push((n % 128) as u8 + 128);
        n /= 128;
    }
    out.push(n as u8);
    out
}

fn gzip(data: &[u8]) -> Vec<u8> {
    let mut out = vec![0x1f, 0x8b, 8, 0, 0, 0, 0, 0, 0, 3];
    out.extend(miniz_oxide::deflate::compress_to_vec(data, 6));
    out.extend([0; 8]);
    out
}

/// Bytes that do not compress well.
fn noise(n: usize) -> Vec<u8> {
    let mut x: u64 = 88172645463325252;
    let mut out = vec![];
    for _ in 0..n {
        x ^= x << 13;
        x ^= x >> 7;
        x ^= x << 17;
        out.push((x >> 24) as u8);
    }
    out
}

#[test]
fn leb128_example() {
    assert_eq!(leb(0x1234), vec![0xb4, 0x24]);
    assert_eq!(read_variant_u32(&[0xb4, 0x24], 0), Ok((0x1234, 2)));
    assert_eq!(read_variant_u64(&[0xff, 0xb4, 0x24, 0x55], 1), Ok((0x1234, 3)));
}

#[test]
fn leb128_reads_back() {
    for n in [0u64, 1, 127, 128, 16383, 16384, u32::MAX as u64 - 1, u32::MAX as u64] {
        let bytes = leb(n);
        assert_eq!(read_variant_u32(&bytes, 0), Ok((n as u32, bytes.len() as u64)));
        assert_eq!(read_variant_u64(&bytes, 0), Ok((n, bytes.len() as u64)));
    }
    let bytes = leb(u64::MAX);
    assert_eq!(bytes.len(), 10);
    assert_eq!(read_variant_u64(&bytes, 0), Ok((u64::MAX, 10)));
}

#[test]
fn leb128_limits() {
    // six bytes are too many for 32 bits, eleven for 64
    assert_eq!(read_variant_u32(&[0x80; 6], 0), Err(ReaderError::ParseVariant));
    assert_eq!(read_variant_u64(&[0x80; 11], 0), Err(ReaderError::ParseVariant));
    // cut short
    assert_eq!(read_variant_u32(&[0x80, 0x80], 0), Err(ReaderError::Io));
    assert_eq!(read_variant_u32(&[], 0), Err(ReaderError::Io));
    assert_eq!(read_variant_u32(&[1], 7), Err(ReaderError::Io));
    // the bits above the 32nd are dropped
    assert_eq!(read_variant_u32(&[0xff, 0xff, 0xff, 0xff, 0x7f], 0), Ok((u32::MAX, 5)));
}

#[test]
fn signed_leb128() {
    assert_eq!(read_variant_i64(&[0x02], 0), Ok((2, 1)));
    assert_eq!(read_variant_i64(&[0x7e], 0), Ok((-2, 1)));
    assert_eq!(read_variant_i64(&[0xff, 0x00], 0), Ok((127, 2)));
    assert_eq!(read_variant_i64(&[0x81, 0x7f], 0), Ok((-127, 2)));
    assert_eq!(read_variant_i64(&[0x80, 0x7f], 0), Ok((-128, 2)));
    assert_eq!(read_variant_i64(&[0x80], 0), Err(ReaderError::Io));
    assert_eq!(read_variant_i64(&[0x80; 10], 0), Err(ReaderError::ParseVariant));
}

#[test]
fn fixed_integers() {
    let bytes = [0, 1, 2, 3, 4, 5, 6, 7, 8];
    assert_eq!(read_u8(&bytes, 8), Ok((8, 9)));
    assert_eq!(read_u8(&bytes, 9), Err(ReaderError::Io));
    assert_eq!(read_u64(&bytes, 1), Ok((0x0102030405060708, 9)));
    assert_eq!(read_u64(&bytes, 2), Err(ReaderError::Io));
    assert_eq!(read_u64(&bytes, u64::MAX), Err(ReaderError::Io));
    assert_eq!(le_u64(&bytes), 0x0706050403020100);
    assert_eq!(read_bytes(&bytes, 7, 2), Ok((vec![7, 8], 9)));
    assert_eq!(read_bytes(&bytes, 7, 3), Err(ReaderError::Io));
}

#[test]
fn texts() {
    assert_eq!(read_c_str(b"top\0x", 0, 512), Ok(("top".to_string(), 4)));
    assert_eq!(read_c_str(b"top\0x", 3, 512), Ok(("".to_string(), 4)));
    assert_eq!(read_c_str(b"top", 0, 512), Err(ReaderError::Io));
    assert_eq!(read_c_str(b"top\0", 0, 3), Err(ReaderError::CString));
    assert_eq!(read_c_str(b"top\0", 0, 4), Ok(("top".to_string(), 4)));
    assert_eq!(read_c_str(&[0xff, 0], 0, 512), Err(ReaderError::Utf8));
    assert_eq!(read_c_str("\u{e9}\0".as_bytes(), 0, 512), Ok(("\u{e9}".to_string(), 3)));
    assert_eq!(read_c_str_fixed_length(b"ab\0cd", 0, 5), Ok(("ab".to_string(), 5)));
    assert_eq!(read_c_str_fixed_length(b"abcde", 0, 5), Ok(("abcde".to_string(), 5)));
    assert_eq!(read_c_str_fixed_length(b"abcde", 1, 5), Err(ReaderError::Io));
    assert_eq!(read_c_str_fixed_length(&[0xc3, 0x28], 0, 2), Err(ReaderError::Utf8));
}

#[test]
fn masks() {
    let mut mask = BitMask::repeat(false, 70);
    assert_eq!(mask.len(), 70);
    assert_eq!(mask.count_ones(), 0);
    mask.set(0, true);
    mask.set(63, true);
    mask.set(64, true);
    mask.set(69, true);
    assert_eq!(mask.count_ones(), 4);
    assert!(mask.is_set(63) && mask.is_set(64) && !mask.is_set(65));
    let copy = mask.duplicate();
    mask.set(63, false);
    assert!(!mask.is_set(63) && copy.is_set(63));
    assert!(!mask.is_set(70) && !mask.is_set(1000));
    assert_eq!(BitMask::repeat(true, 65).count_ones(), 65);
    assert!(!BitMask::repeat(true, 65).is_set(65));
}

#[test]
fn codes() {
    assert_eq!(BlockType::from_u8(8), Some(BlockType::VcDataDynamicAlias2));
    assert_eq!(BlockType::from_u8(254), Some(BlockType::GZipWrapper));
    assert_eq!(BlockType::from_u8(9), None);
    assert_eq!(
        DataSectionKind::from_block_type(&BlockType::VcData),
        Some(DataSectionKind::Standard)
    );
    assert_eq!(DataSectionKind::from_block_type(&BlockType::Skip), None);
    assert_eq!(ValueChangePackType::from_u8(b'4'), ValueChangePackType::Lz4);
    assert_eq!(ValueChangePackType::from_u8(b'F'), ValueChangePackType::FastLz);
    assert_eq!(ValueChangePackType::from_u8(b'Z'), ValueChangePackType::Zlib);
    assert_eq!(FileType::from_u8(2), Some(FileType::VerilogVhdl));
    assert_eq!(FileType::from_u8(3), None);
    assert_eq!(SignalInfo::from_file_format(0), SignalInfo::Real);
    assert_eq!(SignalInfo::from_file_format(u32::MAX).len(), 0);
    assert_eq!(SignalInfo::from_file_format(12), SignalInfo::BitVec(12));
    assert_eq!(SignalInfo::Real.len(), 8);
    assert!(SignalInfo::Real.is_real() && !SignalInfo::BitVec(8).is_real());
    assert_eq!(FstSignalHandle::from_index(17).get_index(), 17);
}

#[test]
fn time_table_example() {
    let mut bytes = vec![];
    for delta in [0, 100, 150, 50] {
        bytes.extend(leb(delta));
    }
    assert_eq!(decode_times(&bytes, 4), Ok(vec![0, 100, 250, 300]));
    assert_eq!(decode_times(&bytes, 0), Ok(vec![]));
    assert_eq!(decode_times(&bytes, 5), Err(ReaderError::Io));
    let mut bytes = leb(u64::MAX);
    bytes.extend(leb(1));
    assert_eq!(decode_times(&bytes, 1), Ok(vec![u64::MAX]));
    assert_eq!(decode_times(&bytes, 2), Err(ReaderError::Malformed));
}

#[test]
fn one_bit_values() {
    let info = SignalInfo::BitVec(1);
    assert_eq!(one_bit_signal_value_to_char(0b00), b'0');
    assert_eq!(one_bit_signal_value_to_char(0b10), b'1');
    let chars: Vec<u8> =
        (0..8).map(|code| one_bit_signal_value_to_char(code * 2 + 1)).collect();
    assert_eq!(chars, b"xzhuwl-?".to_vec());
    // three time steps, then a one
    assert_eq!(read_signal_time_delta(info, &[3 * 4 + 2], 0), Ok(3));
    // three time steps, then a z
    assert_eq!(read_signal_time_delta(info, &[3 * 16 + 3], 0), Ok(3));
    assert_eq!(
        read_signal_change(info, FloatingPointEndian::Little, &[3 * 16 + 3], 0),
        Ok((FstSignalValue::String(b"z".to_vec()), 1))
    );
}

#[test]
fn vector_values() {
    let little = FloatingPointEndian::Little;
    assert_eq!(multi_bit_digital_signal_to_chars(&[0b1010_0000], 3), b"101".to_vec());
    assert_eq!(
        multi_bit_digital_signal_to_chars(&[0b1000_0001, 0b0100_0000], 10),
        b"1000000101".to_vec()
    );
    let info = SignalInfo::BitVec(10);
    // two states: five time steps, packed bits
    let packed = [10, 0b1000_0001, 0b0100_0000];
    assert_eq!(read_signal_time_delta(info, &packed, 0), Ok(5));
    assert_eq!(
        read_signal_change(info, little, &packed, 0),
        Ok((FstSignalValue::String(b"1000000101".to_vec()), 3))
    );
    assert_eq!(skip_signal_value(info, 10, &packed, 1), Ok(3));
    assert_eq!(read_signal_change(info, little, &packed[..2], 0), Err(ReaderError::Io));
    assert_eq!(skip_signal_value(info, 10, &packed[..2], 1), Err(ReaderError::Io));
    // more states: one character for each bit
    let mut chars = vec![11];
    chars.extend(b"10xz10xz10");
    assert_eq!(
        read_signal_change(info, little, &chars, 0),
        Ok((FstSignalValue::String(b"10xz10xz10".to_vec()), 11))
    );
    assert_eq!(skip_signal_value(info, 11, &chars, 1), Ok(11));
}

#[test]
fn text_values() {
    let info = SignalInfo::from_file_format(u32::MAX);
    let bytes = [4, 3, b'a', b'b', b'c', 9];
    assert_eq!(read_signal_time_delta(info, &bytes, 0), Ok(2));
    assert_eq!(
        read_signal_change(info, FloatingPointEndian::Little, &bytes, 0),
        Ok((FstSignalValue::String(b"abc".to_vec()), 5))
    );
    assert_eq!(skip_signal_value(info, 4, &bytes, 1), Ok(5));
    assert_eq!(
        read_signal_change(info, FloatingPointEndian::Little, &bytes[..4], 0),
        Err(ReaderError::Io)
    );
}

#[test]
fn real_values() {
    let bits = 2.5f64.to_bits();
    let mut little = vec![7];
    little.extend(2.5f64.to_le_bytes());
    let mut big = vec![7];
    big.extend(2.5f64.to_be_bytes());
    assert_eq!(
        read_signal_change(SignalInfo::Real, FloatingPointEndian::Little, &little, 0),
        Ok((FstSignalValue::Real(bits), 9))
    );
    assert_eq!(
        read_signal_change(SignalInfo::Real, FloatingPointEndian::Big, &big, 0),
        Ok((FstSignalValue::Real(bits), 9))
    );
    assert_eq!(read_f64_bits(&big, 2, FloatingPointEndian::Big), Err(ReaderError::Io));
    // packed floating-point numbers cannot be read, but skipped
    little[0] = 6;
    assert_eq!(
        read_signal_change(SignalInfo::Real, FloatingPointEndian::Little, &little, 0),
        Err(ReaderError::Malformed)
    );
    assert_eq!(skip_signal_value(SignalInfo::Real, 6, &little, 1), Ok(9));
}

#[test]
fn zlib() {
    let data = b"to be or not to be, to be or not to be, to be or not to be".to_vec();
    let packed = miniz_oxide::deflate::compress_to_vec_zlib(&data, 6);
    let n = data.len() as u64;
    assert_eq!(unpack_zlib(&packed, n), Ok(data.clone()));
    assert_eq!(unpack_zlib(&packed, n + 1), Err(ReaderError::Malformed));
    assert_eq!(unpack_zlib(&packed, n - 1), Err(ReaderError::Zlib));
    assert_eq!(unpack_zlib(&packed[..10], n), Err(ReaderError::Zlib));
    assert_eq!(unpack_zlib(&data, n), Err(ReaderError::Zlib));
    assert_eq!(unpack_zlib(&[], 0), Err(ReaderError::Zlib));
    assert_eq!(unpack_zlib(&packed, u64::MAX), Err(ReaderError::Zlib));
    assert_eq!(unpack_maybe_zlib(&packed, n), Ok(data.clone()));
    assert_eq!(unpack_maybe_zlib(&data, n), Ok(data));
    assert_eq!(unpack_maybe_zlib(&[], 0), Ok(vec![]));
}

#[test]
fn zlib_lengths() {
    assert_eq!(require_length(Some(vec![1, 2]), 2), Ok(vec![1, 2]));
    assert_eq!(require_length(Some(vec![1, 2]), 3), Err(ReaderError::Malformed));
    assert_eq!(require_length(None, 2), Err(ReaderError::Zlib));
}

#[test]
fn lz4() {
    let data: Vec<u8> = (0..1000u32).map(|i| (i % 7) as u8).collect();
    let packed = lz4_flex::block::compress(&data);
    assert!(packed.len() < 100);
    assert_eq!(unpack_lz4(&packed, 1000), Ok(data.clone()));
    // the limit may be larger than the data
    assert_eq!(unpack_lz4(&packed, 1001), Ok(data));
    assert_eq!(unpack_lz4(&packed, 999), Err(ReaderError::Lz4));
    assert_eq!(unpack_lz4(&packed[..5], 1000), Err(ReaderError::Lz4));
    assert_eq!(unpack_lz4(&[], 1000), Err(ReaderError::Lz4));
    assert_eq!(unpack_lz4(&packed, u64::MAX), Err(ReaderError::Lz4));
    // a length that does not fit 32 bits
    assert_eq!(unpack_lz4(&vec![255; 16_843_011], 10), Err(ReaderError::Lz4));
    let mut long_match = vec![0x1f, b'a', 1, 0];
    long_match.extend(vec![255; 16_843_010]);
    assert_eq!(unpack_lz4(&long_match, 10), Err(ReaderError::Lz4));
    // a long run of the same byte, stored as it is
    let length: usize = 17_000_000;
    let mut stored = vec![0xf0];
    stored.extend(vec![255; (length - 15) / 255]);
    stored.push(((length - 15) % 255) as u8);
    stored.extend(vec![255; length]);
    assert_eq!(unpack_lz4(&stored, length as u64), Ok(vec![255; length]));
}

#[test]
fn gzip_streams() {
    let data = noise(200_000);
    let packed = gzip(&data);
    // more than one window of input and of output
    assert!(packed.len() > 3 * 16384);
    assert_eq!(decompress_gz_in_chunks(&packed, 0, 200_000), Ok(data.clone()));
    // no more than what is asked for
    assert_eq!(decompress_gz_in_chunks(&packed, 0, 70_000), Ok(data[..70_000].to_vec()));
    assert_eq!(decompress_gz_in_chunks(&packed, 0, 0), Ok(vec![]));
    // the stream may end early
    assert_eq!(decompress_gz_in_chunks(&packed, 0, 300_000), Ok(data.clone()));
    // somewhere in the input
    let mut shifted = vec![9; 5];
    shifted.extend(&packed);
    assert_eq!(decompress_gz_in_chunks(&shifted, 5, 200_000), Ok(data));
}

#[test]
fn gzip_errors() {
    let packed = gzip(&noise(50_000));
    assert_eq!(read_gzip_header(&packed, 0), Ok(10));
    assert_eq!(read_gzip_header(&packed[..9], 0), Err(ReaderError::Io));
    assert_eq!(read_gzip_header(&packed, 1), Err(ReaderError::GZipHeader));
    let mut flags = packed.clone();
    flags[3] = 8;
    assert_eq!(decompress_gz_in_chunks(&flags, 0, 50_000), Err(ReaderError::GZipHeader));
    let mut broken = packed.clone();
    broken[10] = 0xff;
    assert_eq!(
        decompress_gz_in_chunks(&broken, 0, 50_000),
        Err(ReaderError::GZipBody(InflateError::Data))
    );
    assert_eq!(
        decompress_gz_in_chunks(&packed[..20_000], 0, 50_000),
        Err(ReaderError::GZipBody(InflateError::Buf))
    );
}

#[test]
fn gzip_replies() {
    let mut target = vec![1];
    let more = accept(5, vec![2, 3], Ok(InflateStatus::Progress), 9, 10, &mut target);
    assert_eq!(more, Ok(true));
    assert_eq!(target, vec![1, 2, 3]);
    // no more bytes are kept than remain
    let more = accept(5, vec![4, 5, 6], Ok(InflateStatus::Progress), 9, 2, &mut target);
    assert_eq!(more, Ok(true));
    assert_eq!(target, vec![1, 2, 3, 4, 5]);
    let more = accept(0, vec![6], Ok(InflateStatus::StreamEnd), 9, 2, &mut target);
    assert_eq!(more, Ok(false));
    assert_eq!(target, vec![1, 2, 3, 4, 5, 6]);
    let stalled = accept(0, vec![], Ok(InflateStatus::Progress), 9, 2, &mut target);
    assert_eq!(stalled, Err(ReaderError::GZipBody(InflateError::Buf)));
    let dict = accept(1, vec![7], Ok(InflateStatus::NeedDict), 9, 2, &mut target);
    assert_eq!(dict, Err(ReaderError::Malformed));
    let failed = accept(1, vec![7], Err(InflateError::Stream), 9, 2, &mut target);
    assert_eq!(failed, Err(ReaderError::GZipBody(InflateError::Stream)));
    assert_eq!(target, vec![1, 2, 3, 4, 5, 6]);
}

#[test]
fn packed_changes() {
    let data: Vec<u8> = (0..300u32).map(|i| (i % 5) as u8).collect();
    let lz4 = lz4_flex::block::compress(&data);
    let zlib = miniz_oxide::deflate::compress_to_vec_zlib(&data, 6);
    for (pack, packed) in [(ValueChangePackType::Lz4, lz4), (ValueChangePackType::Zlib, zlib)] {
        let mut bytes = vec![99];
        bytes.extend(leb(300));
        bytes.extend(&packed);
        let len = bytes.len() as u64 - 1;
        assert_eq!(read_packed_signal_value_bytes(&bytes, 1, len, pack), Ok(data.clone()));
        assert_eq!(
            read_packed_signal_value_bytes(&bytes, 1, len, ValueChangePackType::FastLz),
            Err(ReaderError::FastLz)
        );
        assert_eq!(read_packed_signal_value_bytes(&bytes, 1, len + 1, pack), Err(ReaderError::Io));
    }
    // a zero in front means that nothing is packed
    let bytes = [0, 1, 2, 3];
    let pack = ValueChangePackType::FastLz;
    assert_eq!(read_packed_signal_value_bytes(&bytes, 0, 3, pack), Ok(vec![1, 2]));
    assert_eq!(read_packed_signal_value_bytes(&bytes, 0, 0, pack), Err(ReaderError::Malformed));
}

#[test]
fn locations() {
    let table = vec![
        SignalLoc::Offset(1),
        SignalLoc::Empty,
        SignalLoc::Alias(0),
        SignalLoc::Offset(5),
        SignalLoc::Alias(2),
        SignalLoc::Alias(1),
    ];
    assert_eq!(
        resolve(&table, 9),
        vec![Some((1, 4)), None, Some((1, 4)), Some((5, 4)), Some((1, 4)), None]
    );
}

#[test]
fn location_tables() {
    // twenty bytes of changes, then the table, then its length
    let with_table = |table: &[u8]| {
        let mut bytes = vec![0; 20];
        bytes.extend(table);
        let offset = bytes.len() as u64;
        bytes.extend((table.len() as u64).to_be_bytes());
        (bytes, offset)
    };
    let signed = DataSectionKind::DynamicAlias2;
    // offset 1; two without changes; an alias for the first; the same; offset 7
    let (bytes, at) = with_table(&[1 * 2 + 1, 2 * 2, 0x7f, 0x01, 6 * 2 + 1]);
    assert_eq!(
        read_signal_locs(&bytes, at, signed, 6, 0),
        Ok(vec![Some((1, 6)), None, None, Some((1, 6)), Some((1, 6)), Some((7, 13))])
    );
    // more signals than there may be
    assert_eq!(read_signal_locs(&bytes, at, signed, 5, 0), Err(ReaderError::Malformed));
    // an offset behind the changes
    let (bytes, at) = with_table(&[20 * 2 + 1]);
    assert_eq!(read_signal_locs(&bytes, at, signed, 6, 0), Err(ReaderError::Malformed));
    let (bytes, at) = with_table(&[19 * 2 + 1]);
    assert_eq!(read_signal_locs(&bytes, at, signed, 6, 0), Ok(vec![Some((19, 1))]));
    assert_eq!(read_signal_locs(&bytes, at, signed, 6, 21), Err(ReaderError::Malformed));
    // the table is longer than the file
    let mut bytes = vec![0; 20];
    bytes.extend(21u64.to_be_bytes());
    assert_eq!(read_signal_locs(&bytes, 20, signed, 6, 0), Err(ReaderError::Io));
    assert_eq!(read_signal_locs(&bytes, 21, signed, 6, 0), Err(ReaderError::Io));

    // the older form: offset 3; one without changes; an alias for the first; offset 4
    let (bytes, at) = with_table(&[3 * 2 + 1, 1 * 2, 0, 1, 1 * 2 + 1]);
    for kind in [DataSectionKind::Standard, DataSectionKind::DynamicAlias] {
        assert_eq!(
            read_signal_locs(&bytes, at, kind, 4, 0),
            Ok(vec![Some((3, 1)), None, Some((3, 1)), Some((4, 16))])
        );
    }
    // an offset does not stand still
    let (bytes, at) = with_table(&[1]);
    let standard = DataSectionKind::Standard;
    assert_eq!(read_signal_locs(&bytes, at, standard, 4, 0), Err(ReaderError::Malformed));
}

#[test]
fn slot_lists() {
    let mut lists = SlotLists::new(3, 4);
    assert_eq!(lists.len(), 3);
    assert_eq!(lists.first(1), None);
    lists.push(1, 2);
    lists.push(1, 0);
    lists.push(2, 3);
    assert_eq!(lists.first(1), Some(0));
    assert_eq!(lists.pop(1), 0);
    assert_eq!(lists.pop(1), 2);
    assert_eq!(lists.first(1), None);
    assert_eq!(lists.pop(2), 3);
}

fn var(tpe: u8, name: &str, length: u64, alias: u64) -> Vec<u8> {
    let mut out = vec![tpe, 0];
    out.extend(name.as_bytes());
    out.push(0);
    out.extend(leb(length));
    out.extend(leb(alias));
    out
}

#[test]
fn hierarchy_entries() {
    let mut bytes = vec![254, 0];
    bytes.extend(b"top\0module\0");
    bytes.extend([252, 1, 2]);
    bytes.extend(b"note\0");
    bytes.extend(leb(300));
    bytes.push(253);
    bytes.extend(var(16, "clk", 1, 0));
    bytes.extend(var(18, "port", 14, 0));
    bytes.extend(var(5, "copy", 1, 1));
    bytes.extend(var(3, "volt", 64, 0));
    bytes.extend(var(21, "text", u32::MAX as u64, 0));
    bytes.push(255);
    let mut entries = vec![];
    assert_eq!(list_entries(&bytes, &mut entries), Ok(()));
    let handle = |index| FstSignalHandle { index };
    let name = |name: &str| name.to_string();
    assert_eq!(
        entries,
        vec![
            FstHierarchyEntry::Scope { tpe: 0, name: name("top"), component: name("module") },
            FstHierarchyEntry::AttributeBegin { tpe: 1, subtype: 2, name: name("note"), arg: 300 },
            FstHierarchyEntry::AttributeEnd,
            FstHierarchyEntry::Var {
                tpe: FstVarType::Wire,
                direction: 0,
                name: name("clk"),
                length: 1,
                handle: handle(0),
                is_alias: false,
            },
            // three characters for each of the four bits, and two spaces
            FstHierarchyEntry::Var {
                tpe: FstVarType::Port,
                direction: 0,
                name: name("port"),
                length: 4,
                handle: handle(1),
                is_alias: false,
            },
            FstHierarchyEntry::Var {
                tpe: FstVarType::Reg,
                direction: 0,
                name: name("copy"),
                length: 1,
                handle: handle(0),
                is_alias: true,
            },
            FstHierarchyEntry::Var {
                tpe: FstVarType::Real,
                direction: 0,
                name: name("volt"),
                length: 64,
                handle: handle(2),
                is_alias: false,
            },
            FstHierarchyEntry::Var {
                tpe: FstVarType::GenericString,
                direction: 0,
                name: name("text"),
                length: u32::MAX,
                handle: handle(3),
                is_alias: false,
            },
            FstHierarchyEntry::UpScope,
        ]
    );
    // the handles name the signals of the geometry
    assert_eq!(
        reconstruct_geometry(&bytes),
        Ok(vec![
            SignalInfo::BitVec(1),
            SignalInfo::BitVec(4),
            SignalInfo::Real,
            SignalInfo::BitVec(0)
        ])
    );
}

#[test]
fn hierarchy_errors() {
    let mut entries = vec![];
    let mut bytes = var(16, "clk", 1, 0);
    bytes.push(100);
    assert_eq!(list_entries(&bytes, &mut entries), Err(ReaderError::HierarchyType));
    // what came before is delivered
    assert_eq!(entries.len(), 1);
    assert_eq!(reconstruct_geometry(&bytes), Err(ReaderError::HierarchyType));
    let long = "n".repeat(512);
    let bytes = var(16, &long, 1, 0);
    assert_eq!(reconstruct_geometry(&bytes), Err(ReaderError::CString));
    assert_eq!(reconstruct_geometry(&var(16, &long[1..], 1, 0)), Ok(vec![SignalInfo::BitVec(1)]));
    assert_eq!(reconstruct_geometry(&var(18, "p", 1, 0)), Err(ReaderError::Malformed));
    assert_eq!(reconstruct_geometry(&[254, 0, b'a']), Err(ReaderError::Io));
    assert_eq!(reconstruct_geometry(&[254, 0, 0xff, 0, 0]), Err(ReaderError::Utf8));
    assert_eq!(reconstruct_geometry(&[]), Ok(vec![]));
}
