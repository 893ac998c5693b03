//! Whole files, built in memory.

use fst_reader::data::{DataFilter, DataReader};
use fst_reader::header::{read_meta_data, HeaderReader};
use fst_reader::wheel::Window;
use fst_reader::{
    is_fst_file, BitMask, BlackoutData, DataSectionInfo, DataSectionKind, FstFilter,
    FstHierarchyEntry, FstReader, FstSignalChange, FstSignalHandle, FstSignalValue,
    HierarchyCompression, InflateError, MetaData, PreStartRealValue, PreStartSignalValue, ReaderError, SignalInfo, TimePointValues,
};

const ZLIB: u8 = b'Z';
const LZ4: u8 = b'4';
const FAST_LZ: u8 = b'F';

fn leb(mut n: u64) -> Vec<u8> {
    let mut out = vec![];
    while n >= 128 {
        out.push((n % 128) as u8 + 128);
        n /= 128;
    }
    out.push(n as u8);
    out
}

fn signed_leb(mut n: i64) -> Vec<u8> {
    let mut out = vec![];
    loop {
        let byte = (n & 0x7f) as u8;
        n >>= 7;
        if (n == 0 && byte & 0x40 == 0) || (n == -1 && byte & 0x40 != 0) {
            out.push(byte);
            return out;
        }
        out.push(byte | 0x80);
    }
}

fn block(tag: u8, content: &[u8]) -> Vec<u8> {
    let mut out = vec![tag];
    out.extend((content.len() as u64 + 8).to_be_bytes());
    out.extend(content);
    out
}

fn header(start: u64, end: u64) -> Vec<u8> {
    let mut content = vec![];
    content.extend(start.to_be_bytes());
    content.extend(end.to_be_bytes());
    content.extend(std::f64::consts::E.to_le_bytes());
    for n in [4096u64, 1, 7, 6, 2] {
        content.extend(n.to_be_bytes());
    }
    content.push((-9i8) as u8);
    let mut version = b"writer 1.0".to_vec();
    version.resize(128, 0);
    content.extend(version);
    let mut date = b"Monday".to_vec();
    date.resize(119, 0);
    content.extend(date);
    content.push(0);
    content.extend(0u64.to_be_bytes());
    block(0, &content)
}

fn zlib_block(bytes: &[u8]) -> Vec<u8> {
    miniz_oxide::deflate::compress_to_vec_zlib(bytes, 6)
}

fn geometry(signals: &[u32]) -> Vec<u8> {
    let mut data = vec![];
    for value in signals {
        data.extend(leb(*value as u64));
    }
    let mut content = vec![];
    content.extend((data.len() as u64).to_be_bytes());
    content.extend((signals.len() as u64).to_be_bytes());
    content.extend(data);
    block(3, &content)
}

fn gzip(data: &[u8]) -> Vec<u8> {
    let mut out = vec![0x1f, 0x8b, 8, 0, 0, 0, 0, 0, 0, 3];
    out.extend(miniz_oxide::deflate::compress_to_vec(data, 6));
    out.extend([0; 8]);
    out
}

fn var(tpe: u8, name: &str, length: u64, alias: u64) -> Vec<u8> {
    let mut out = vec![tpe, 0];
    out.extend(name.as_bytes());
    out.push(0);
    out.extend(leb(length));
    out.extend(leb(alias));
    out
}

fn hierarchy_bytes() -> Vec<u8> {
    let mut out = vec![254, 0];
    out.extend(b"top\0\0");
    out.extend(var(16, "clk", 1, 0));
    out.extend(var(16, "bus", 8, 0));
    out.extend(var(3, "volt", 64, 0));
    out.extend(var(21, "msg", u32::MAX as u64, 0));
    out.extend(var(16, "bus2", 8, 0));
    out.extend(var(16, "flag", 1, 0));
    out.extend(var(16, "clk_again", 1, 1));
    out.push(255);
    out
}

fn hierarchy() -> Vec<u8> {
    let bytes = hierarchy_bytes();
    let mut content = (bytes.len() as u64).to_be_bytes().to_vec();
    content.extend(gzip(&bytes));
    block(4, &content)
}

enum Sig {
    Nothing,
    Data(Vec<Vec<u8>>),
    Alias(u64),
}

struct Section {
    tag: u8,
    start: u64,
    end: u64,
    frame: Vec<u8>,
    times: Vec<u64>,
    signals: Vec<Sig>,
    pack: u8,
    packed: bool,
}

fn bit(delta: u64, value: u8) -> Vec<u8> {
    match value {
        b'0' => leb(delta * 4),
        b'1' => leb(delta * 4 + 2),
        other => {
            let code = b"xzhuwl-?".iter().position(|c| *c == other).unwrap() as u64;
            leb(delta * 16 + code * 2 + 1)
        }
    }
}

fn bus(delta: u64, value: &str) -> Vec<u8> {
    if value.bytes().all(|c| c == b'0' || c == b'1') {
        let mut out = leb(delta * 2);
        for chunk in value.as_bytes().chunks(8) {
            let mut byte = 0;
            for (i, c) in chunk.iter().enumerate() {
                byte += (*c - b'0') << (7 - i);
            }
            out.push(byte);
        }
        out
    } else {
        let mut out = leb(delta * 2 + 1);
        out.extend(value.as_bytes());
        out
    }
}

fn volt(delta: u64, value: f64) -> Vec<u8> {
    let mut out = leb(delta * 2 + 1);
    out.extend(value.to_le_bytes());
    out
}

fn text(delta: u64, value: &str) -> Vec<u8> {
    let mut out = leb(delta * 2);
    out.extend(leb(value.len() as u64));
    out.extend(value.as_bytes());
    out
}

impl Section {
    fn build(&self) -> Vec<u8> {
        let mut content = vec![];
        for n in [self.start, self.end, 0] {
            content.extend(n.to_be_bytes());
        }
        // the frame
        let frame = if self.packed { zlib_block(&self.frame) } else { self.frame.clone() };
        content.extend(leb(self.frame.len() as u64));
        content.extend(leb(frame.len() as u64));
        content.extend(leb(self.signals.len() as u64));
        content.extend(frame);
        // the changes
        content.extend(leb(self.signals.len() as u64));
        let vc_start = content.len();
        content.push(self.pack);
        let mut table = vec![];
        let mut last = 0;
        for signal in &self.signals {
            let signed = self.tag == 8;
            match signal {
                Sig::Nothing => table.extend(leb(2)),
                Sig::Alias(index) => {
                    if signed {
                        table.extend(signed_leb(-(*index as i64 + 1) * 2 + 1));
                    } else {
                        table.push(0);
                        table.extend(leb(index + 1));
                    }
                }
                Sig::Data(changes) => {
                    let offset = content.len() - vc_start;
                    let step = (offset - last) as u64;
                    last = offset;
                    if signed {
                        table.extend(signed_leb(step as i64 * 2 + 1));
                    } else {
                        table.extend(leb(step * 2 + 1));
                    }
                    let bytes = changes.concat();
                    if self.packed {
                        content.extend(leb(bytes.len() as u64));
                        if self.pack == LZ4 {
                            content.extend(lz4_flex::block::compress(&bytes));
                        } else {
                            content.extend(zlib_block(&bytes));
                        }
                    } else {
                        content.push(0);
                        content.extend(bytes);
                    }
                }
            }
        }
        content.extend(&table);
        content.extend((table.len() as u64).to_be_bytes());
        // the times
        let mut times = vec![];
        let mut last = 0;
        for time in &self.times {
            times.extend(leb(time - last));
            last = *time;
        }
        let stored = if self.packed { zlib_block(&times) } else { times.clone() };
        content.extend(&stored);
        content.extend((times.len() as u64).to_be_bytes());
        content.extend((stored.len() as u64).to_be_bytes());
        content.extend((self.times.len() as u64).to_be_bytes());
        block(self.tag, &content)
    }
}

fn first_section(tag: u8, pack: u8, packed: bool) -> Section {
    let mut frame = b"000000000".to_vec();
    frame.extend(1.5f64.to_le_bytes());
    frame.extend(b"11111111x");
    Section {
        tag,
        start: 0,
        end: 100,
        frame,
        times: vec![10, 20, 50, 100],
        signals: vec![
            Sig::Data(vec![bit(0, b'1'), bit(1, b'0'), bit(2, b'1')]),
            Sig::Data(vec![bus(1, "10100101"), bus(1, "1x10z101")]),
            Sig::Data(vec![volt(2, 2.25)]),
            Sig::Data(vec![text(0, "hi")]),
            Sig::Alias(1),
            Sig::Nothing,
        ],
        pack,
        packed,
    }
}

fn second_section(tag: u8, pack: u8, packed: bool) -> Section {
    Section {
        tag,
        start: 101,
        end: 200,
        frame: vec![],
        times: vec![110, 150, 200],
        signals: vec![
            Sig::Data(vec![bit(0, b'0'), bit(2, b'z')]),
            Sig::Data(vec![bus(1, "00001111")]),
            Sig::Data(vec![volt(0, 3.5), volt(1, -1.0)]),
            Sig::Nothing,
            Sig::Nothing,
            Sig::Data(vec![bit(1, b'1')]),
        ],
        pack,
        packed,
    }
}

fn file(tag: u8, pack: u8, packed: bool) -> Vec<u8> {
    let mut out = header(0, 200);
    out.extend(first_section(tag, pack, packed).build());
    out.extend(second_section(tag, pack, packed).build());
    out.extend(geometry(&[1, 8, 0, u32::MAX, 8, 1]));
    out.extend(hierarchy());
    out
}

fn plain() -> FstReader {
    FstReader::open(file(8, ZLIB, false)).unwrap()
}

fn handle(index: u32) -> FstSignalHandle {
    FstSignalHandle { index }
}

fn s(time: u64, index: u32, value: &str) -> FstSignalChange {
    let value = FstSignalValue::String(value.as_bytes().to_vec());
    FstSignalChange { time, handle: handle(index), value }
}

fn r(time: u64, index: u32, value: f64) -> FstSignalChange {
    FstSignalChange { time, handle: handle(index), value: FstSignalValue::Real(value.to_bits()) }
}

fn all_changes() -> Vec<FstSignalChange> {
    vec![
        s(10, 3, "hi"),
        s(10, 0, "1"),
        s(20, 0, "0"),
        s(20, 4, "10100101"),
        s(20, 1, "10100101"),
        s(50, 1, "1x10z101"),
        s(50, 4, "1x10z101"),
        r(50, 2, 2.25),
        s(100, 0, "1"),
        r(110, 2, 3.5),
        s(110, 0, "0"),
        r(150, 2, -1.0),
        s(150, 5, "1"),
        s(150, 1, "00001111"),
        s(200, 0, "z"),
    ]
}

fn read(reader: &FstReader, filter: &FstFilter) -> Vec<FstSignalChange> {
    let mut changes = vec![];
    assert_eq!(reader.read_signals(filter, &mut changes), Ok(()));
    changes
}

fn read_in_range(reader: &FstReader, filter: &FstFilter) -> Vec<FstSignalChange> {
    let mut changes = vec![];
    assert_eq!(reader.read_signals_in_range(filter, &mut changes), Ok(()));
    changes
}

fn string_at(index: u32, value: &str, time: u64) -> PreStartSignalValue {
    PreStartSignalValue { handle: handle(index), value: value.as_bytes().to_vec(), time }
}

fn real_at(index: u32, value: f64, time: u64) -> PreStartRealValue {
    PreStartRealValue { handle: handle(index), value: value.to_bits(), time }
}

#[test]
fn opens_a_file() {
    let reader = plain();
    let header = reader.get_header();
    assert_eq!(header.start_time, 0);
    assert_eq!(header.end_time, 200);
    assert_eq!(header.var_count, 7);
    assert_eq!(header.max_handle, 6);
    assert_eq!(header.version, "writer 1.0");
    assert_eq!(header.date, "Monday");
    assert_eq!(header.timescale_exponent, -9);
    assert_eq!(reader.get_time_table(), None);
    let meta = reader.meta();
    assert_eq!(meta.signals.len(), 6);
    assert_eq!(meta.signals[2], SignalInfo::Real);
    assert_eq!(meta.signals[3], SignalInfo::BitVec(0));
    assert_eq!(meta.data_sections.len(), 2);
    assert_eq!(meta.data_sections[0].file_offset, 331);
    assert_eq!(meta.data_sections[0].kind, DataSectionKind::DynamicAlias2);
    assert_eq!((meta.data_sections[1].start_time, meta.data_sections[1].end_time), (101, 200));
    assert!(meta.blackouts.is_empty());
}

#[test]
fn time_table_of_the_file() {
    let reader = FstReader::open_and_read_time_table(file(8, ZLIB, false)).unwrap();
    // the start of the first section comes in front
    let expected: &[u64] = &[0, 10, 20, 50, 100, 110, 150, 200];
    assert_eq!(reader.get_time_table(), Some(expected));
    // nothing else is different
    let without = plain();
    assert_eq!(reader.get_header(), without.get_header());
    assert_eq!(reader.meta().data_sections, without.meta().data_sections);
    assert_eq!(reader.meta().signals, without.meta().signals);
}

#[test]
fn time_table_that_begins_at_the_start() {
    let mut section = first_section(8, ZLIB, false);
    section.times = vec![0, 20, 50, 100];
    let mut bytes = header(0, 100);
    bytes.extend(section.build());
    bytes.extend(geometry(&[1, 8, 0, u32::MAX, 8, 1]));
    bytes.extend(hierarchy());
    let reader = FstReader::open_and_read_time_table(bytes).unwrap();
    let expected: &[u64] = &[0, 20, 50, 100];
    assert_eq!(reader.get_time_table(), Some(expected));
}

#[test]
fn empty_time_table() {
    let mut section = first_section(8, ZLIB, false);
    section.times = vec![];
    section.signals = vec![];
    section.start = 7;
    let mut bytes = header(7, 100);
    bytes.extend(section.build());
    bytes.extend(geometry(&[1]));
    bytes.extend(hierarchy());
    let reader = FstReader::open_and_read_time_table(bytes).unwrap();
    let expected: &[u64] = &[7];
    assert_eq!(reader.get_time_table(), Some(expected));
    assert_eq!(read(&reader, &FstFilter::all()), vec![]);
}

#[test]
fn reads_the_hierarchy() {
    let reader = plain();
    let mut entries = vec![];
    assert_eq!(reader.read_hierarchy(&mut entries), Ok(()));
    assert_eq!(entries.len(), 9);
    let mut names = vec![];
    for entry in &entries {
        if let FstHierarchyEntry::Var { name, handle, is_alias, .. } = entry {
            names.push((name.as_str(), handle.get_index(), *is_alias));
        }
    }
    assert_eq!(
        names,
        vec![
            ("clk", 0, false),
            ("bus", 1, false),
            ("volt", 2, false),
            ("msg", 3, false),
            ("bus2", 4, false),
            ("flag", 5, false),
            ("clk_again", 0, true)
        ]
    );
    assert_eq!(entries[8], FstHierarchyEntry::UpScope);
}

#[test]
fn hierarchy_in_lz4() {
    let bytes = hierarchy_bytes();
    let once = lz4_flex::block::compress(&bytes);
    let twice = lz4_flex::block::compress(&once);
    let mut content = (bytes.len() as u64).to_be_bytes().to_vec();
    content.extend(&once);
    let lz4 = block(6, &content);
    let mut content = (bytes.len() as u64).to_be_bytes().to_vec();
    content.extend(leb(once.len() as u64));
    content.extend(&twice);
    let duo = block(7, &content);
    let mut expected = vec![];
    plain().read_hierarchy(&mut expected).unwrap();
    for hierarchy in [lz4, duo] {
        let mut file = header(0, 0);
        file.extend(geometry(&[1]));
        file.extend(hierarchy);
        let reader = FstReader::open(file).unwrap();
        let mut entries = vec![];
        assert_eq!(reader.read_hierarchy(&mut entries), Ok(()));
        assert_eq!(entries, expected);
    }
}

#[test]
fn hierarchy_that_cannot_be_unpacked() {
    let mut content = 500u64.to_be_bytes().to_vec();
    content.extend([7; 10]);
    for (tag, error) in [
        (4, ReaderError::GZipHeader),
        (6, ReaderError::Lz4),
        (7, ReaderError::Lz4),
    ] {
        let mut file = header(0, 0);
        file.extend(geometry(&[1]));
        file.extend(block(tag, &content));
        let reader = FstReader::open(file).unwrap();
        let mut entries = vec![];
        assert_eq!(reader.read_hierarchy(&mut entries), Err(error));
        assert!(entries.is_empty());
    }
}

#[test]
fn reads_all_signals() {
    assert_eq!(read(&plain(), &FstFilter::all()), all_changes());
}

#[test]
fn all_kinds_and_packings_are_alike() {
    for tag in [1, 5, 8] {
        for pack in [ZLIB, LZ4, FAST_LZ] {
            let reader = FstReader::open(file(tag, pack, false)).unwrap();
            assert_eq!(read(&reader, &FstFilter::all()), all_changes());
        }
        for pack in [ZLIB, LZ4] {
            let reader = FstReader::open_and_read_time_table(file(tag, pack, true)).unwrap();
            assert_eq!(read(&reader, &FstFilter::all()), all_changes());
            assert_eq!(reader.get_time_table().unwrap().len(), 8);
        }
    }
    let reader = FstReader::open(file(8, FAST_LZ, true)).unwrap();
    let mut changes = vec![];
    assert_eq!(reader.read_signals(&FstFilter::all(), &mut changes), Err(ReaderError::FastLz));
}

#[test]
fn big_endian_numbers() {
    let mut bytes = file(8, ZLIB, false);
    bytes[25..33].copy_from_slice(&std::f64::consts::E.to_be_bytes());
    let reader = FstReader::open(bytes).unwrap();
    let changes = read(&reader, &FstFilter::filter_signals(vec![handle(2)]));
    let swapped = f64::from_bits(2.25f64.to_bits().swap_bytes());
    assert_eq!(changes[0], r(50, 2, swapped));
}

#[test]
fn filters_by_signal() {
    let reader = plain();
    let changes = read(&reader, &FstFilter::filter_signals(vec![handle(5), handle(1), handle(99)]));
    assert_eq!(
        changes,
        vec![
            s(20, 1, "10100101"),
            s(50, 1, "1x10z101"),
            s(150, 5, "1"),
            s(150, 1, "00001111")
        ]
    );
    assert_eq!(read(&reader, &FstFilter::filter_signals(vec![])), vec![]);
}

#[test]
fn filters_by_time() {
    let reader = plain();
    // both ends belong to the range
    assert_eq!(
        read(&reader, &FstFilter::filter_time(0, 20)),
        all_changes().into_iter().filter(|c| c.time <= 20).collect::<Vec<_>>()
    );
    assert_eq!(read(&reader, &FstFilter::filter_time(0, 9)), vec![]);
    assert_eq!(read(&reader, &FstFilter::filter_time(201, 300)), vec![]);
    assert_eq!(
        read(&reader, &FstFilter::new(110, 150, vec![handle(2)])),
        vec![r(110, 2, 3.5), r(150, 2, -1.0)]
    );
}

#[test]
fn early_changes_do_not_hide_later_ones() {
    let reader = plain();
    // the clock changes at 10, and then in the range at 20 and 100
    let inside: Vec<_> =
        all_changes().into_iter().filter(|c| 20 <= c.time && c.time <= 110).collect();
    assert_eq!(inside.len(), 9);
    assert_eq!(read(&reader, &FstFilter::filter_time(20, 110)), inside);
    assert_eq!(read_in_range(&reader, &FstFilter::filter_time(20, 110)), inside);
    assert_eq!(
        read(&reader, &FstFilter::new(20, 110, vec![handle(0)])),
        vec![s(20, 0, "0"), s(100, 0, "1"), s(110, 0, "0")]
    );
}

/// What is known of a file with some one-bit signals and no sections.
fn meta_of_bits(signals: usize) -> MetaData {
    let mut bytes = header(0, 0);
    bytes.extend(geometry(&vec![1; signals]));
    bytes.extend(hierarchy());
    read_meta_data(&bytes, false).unwrap()
}

fn section_of(numbers: [u64; 4], body: &[u8], tail: [&[u8]; 2], lengths: [u64; 4]) -> Vec<u8> {
    let mut out = vec![];
    for n in numbers {
        out.extend(n.to_be_bytes());
    }
    out.extend(body);
    out.extend(tail[0]);
    out.extend(lengths[0].to_be_bytes());
    out.extend(tail[1]);
    for n in &lengths[1..] {
        out.extend(n.to_be_bytes());
    }
    out
}

#[test]
fn the_wheel_turns_before_the_window() {
    // the first signal changes at 0 and 300, the second at 0, the third at 200
    let input = section_of(
        [83, 0, 300, 0],
        &[0, 0, 0, 3, b'4', 0, 0, 14, 0, 0, 0, 10],
        [&[3, 7, 5], &[0, 100, 100, 100]],
        [3, 4, 4, 4],
    );
    assert_eq!(input.len(), 83);
    let meta = meta_of_bits(3);
    let filter = DataFilter { start: 200, end: 300, signals: BitMask::repeat(true, 3) };
    let reader = DataReader { input: &input, meta: &meta, filter: &filter };
    let window = Window { start: 200, end: 300, include_end: true };
    let mut changes = vec![];
    let end = reader.read_value_changes(
        DataSectionKind::DynamicAlias2,
        0,
        83,
        28,
        &vec![0, 100, 200, 300],
        35,
        window,
        &mut changes,
    );
    assert_eq!(end, Ok(()));
    assert_eq!(changes, vec![s(200, 2, "1"), s(300, 0, "1")]);
}

#[test]
fn all_changes_of_the_window_come() {
    // the signal changes at 5, 10 and 20
    let input = section_of(
        [79, 0, 30, 0],
        &[0, 0, 0, 1, b'4', 0, 4, 6, 4],
        [&[3], &[0, 5, 5, 10, 10]],
        [1, 5, 5, 5],
    );
    assert_eq!(input.len(), 79);
    let mut meta = meta_of_bits(1);
    meta.data_sections = vec![DataSectionInfo {
        file_offset: 0,
        start_time: 0,
        end_time: 30,
        kind: DataSectionKind::DynamicAlias2,
        mem_required_for_traversal: 0,
    }];
    let filter = DataFilter { start: 10, end: 25, signals: BitMask::repeat(true, 1) };
    let reader = DataReader { input: &input, meta: &meta, filter: &filter };
    let mut changes = vec![];
    assert_eq!(reader.read(&mut changes), Ok(()));
    assert_eq!(changes, vec![s(10, 0, "1"), s(20, 0, "0")]);
}

#[test]
fn range_is_the_full_reading_cut() {
    let reader = plain();
    assert_eq!(read(&reader, &FstFilter::all()), all_changes());
    for start in [0, 10, 20, 55, 100, 101, 110, 151, 200] {
        for end in [0, 10, 50, 99, 100, 105, 150, 200] {
            let cut: Vec<_> =
                all_changes().into_iter().filter(|c| start <= c.time && c.time <= end).collect();
            let filter = FstFilter::filter_time(start, end);
            assert_eq!(read(&reader, &filter), cut);
            assert_eq!(read_in_range(&reader, &filter), cut);
        }
    }
}

#[test]
fn split_range() {
    let reader = plain();
    for middle in [20, 49, 50, 100, 105, 149] {
        let mut parts = read_in_range(&reader, &FstFilter::filter_time(20, middle));
        parts.extend(read_in_range(&reader, &FstFilter::filter_time(middle + 1, 150)));
        assert_eq!(parts, read_in_range(&reader, &FstFilter::filter_time(20, 150)));
        let mut parts = read(&reader, &FstFilter::filter_time(20, middle));
        parts.extend(read(&reader, &FstFilter::filter_time(middle + 1, 150)));
        assert_eq!(parts, read(&reader, &FstFilter::filter_time(20, 150)));
    }
}

#[test]
fn range_in_one_section() {
    let reader = plain();
    assert_eq!(
        read_in_range(&reader, &FstFilter::new(15, 60, vec![handle(0), handle(2)])),
        vec![s(20, 0, "0"), r(50, 2, 2.25)]
    );
    assert_eq!(read_in_range(&reader, &FstFilter::filter_time(300, 400)), vec![]);
    assert_eq!(read_in_range(&reader, &FstFilter::all()), all_changes());
    // values from before the range are none of it
    assert_eq!(
        read_in_range(&reader, &FstFilter::new(101, 149, vec![handle(0)]).with_pre_start()),
        vec![s(110, 0, "0")]
    );
}

#[test]
fn changes_are_appended() {
    let reader = plain();
    let mut changes = vec![s(1, 2, "3")];
    reader.read_signals(&FstFilter::filter_time(0, 10), &mut changes).unwrap();
    assert_eq!(changes, vec![s(1, 2, "3"), s(10, 3, "hi"), s(10, 0, "1")]);
}

#[test]
fn look_back() {
    let reader = plain();
    let filter = FstFilter::filter_time(20, 60).with_pre_start();
    let changes = read(&reader, &filter);
    let mut expected = vec![
        s(10, 0, "1"),
        s(0, 1, "00000000"),
        r(0, 2, 1.5),
        s(10, 3, "hi"),
        s(0, 4, "11111111"),
        s(0, 5, "x"),
    ];
    let inside = vec![
        s(20, 0, "0"),
        s(20, 4, "10100101"),
        s(20, 1, "10100101"),
        s(50, 1, "1x10z101"),
        s(50, 4, "1x10z101"),
        r(50, 2, 2.25),
    ];
    expected.extend(inside);
    assert_eq!(changes, expected);
    // a change at the start is not before it
    let changes = read(&reader, &FstFilter::new(10, 10, vec![handle(0)]).with_pre_start());
    assert_eq!(changes, vec![s(0, 0, "0"), s(10, 0, "1")]);
}

#[test]
fn look_back_from_zero() {
    let reader = plain();
    assert_eq!(read(&reader, &FstFilter::all().with_pre_start()), all_changes());
}

#[test]
fn latest_values_up_to_a_time() {
    let reader = plain();
    // a change at the end counts
    let values = reader.read_pre_start_values(&FstFilter::filter_time(0, 150)).unwrap();
    assert_eq!(
        values.string_values,
        vec![
            string_at(0, "0", 110),
            string_at(1, "00001111", 150),
            string_at(3, "hi", 10),
            string_at(4, "1x10z101", 50),
            string_at(5, "1", 150),
        ]
    );
    assert_eq!(values.real_values, vec![real_at(2, -1.0, 150)]);
    let values = reader.read_pre_start_values(&FstFilter::new(0, 20, vec![handle(0)])).unwrap();
    assert_eq!(values.string_values, vec![string_at(0, "0", 20)]);
    // nothing before the start
    let values = reader.read_pre_start_values(&FstFilter::filter_time(60, 149)).unwrap();
    assert_eq!(values.string_values, vec![string_at(0, "0", 110)]);
    assert_eq!(values.real_values, vec![real_at(2, 3.5, 110)]);
    // only some signals
    let filter = FstFilter::new(0, 150, vec![handle(4)]);
    let values = reader.read_pre_start_values(&filter).unwrap();
    assert_eq!(values.string_values, vec![string_at(4, "1x10z101", 50)]);
    assert!(values.real_values.is_empty());
    // the initial values, and without an end
    let values = reader.read_pre_start_values(&FstFilter::new(0, 0, vec![handle(5)])).unwrap();
    assert_eq!(values.string_values, vec![string_at(5, "x", 0)]);
    let values = reader.read_pre_start_values(&FstFilter::all()).unwrap();
    assert_eq!(values.string_values[0], string_at(0, "z", 200));
    assert_eq!(values.string_values[1], string_at(1, "00001111", 150));
}

#[test]
fn latest_values_are_the_last_changes() {
    let reader = plain();
    for start in [1, 10, 20, 51, 110, 150] {
        for end in [10, 20, 60, 100, 110, 150, 200] {
            let values =
                reader.read_pre_start_values(&FstFilter::filter_time(start, end)).unwrap();
            for index in [0, 1, 3, 4, 5] {
                let last = all_changes()
                    .into_iter()
                    .filter(|c| c.handle == handle(index) && start <= c.time && c.time <= end)
                    .last();
                let listed: Vec<_> =
                    values.string_values.iter().filter(|v| v.handle == handle(index)).collect();
                match last {
                    None => assert!(listed.is_empty()),
                    Some(change) => {
                        assert_eq!(listed.len(), 1);
                        assert_eq!(listed[0].time, change.time);
                        assert_eq!(FstSignalValue::String(listed[0].value.clone()), change.value);
                    }
                }
            }
        }
    }
}

#[test]
fn latest_values_before_a_time() {
    let reader = plain();
    let filter = FstFilter::filter_time(0, 150);
    let values = reader.read_pre_start_values_internal(&filter, false).unwrap();
    assert_eq!(
        values.string_values,
        vec![
            string_at(0, "0", 110),
            string_at(1, "1x10z101", 50),
            string_at(3, "hi", 10),
            string_at(4, "1x10z101", 50),
            string_at(5, "x", 0),
        ]
    );
    assert_eq!(values.real_values, vec![real_at(2, 3.5, 110)]);
    let filter = FstFilter::filter_time(0, 0);
    let values = reader.read_pre_start_values_internal(&filter, false).unwrap();
    assert!(values.string_values.is_empty() && values.real_values.is_empty());
}

#[test]
fn early_end_of_the_search() {
    // the first section cannot be read, but is not needed
    let mut broken = first_section(8, ZLIB, false);
    broken.signals = vec![Sig::Data(vec![vec![]])];
    let mut bytes = header(0, 200);
    bytes.extend(broken.build());
    bytes.extend(second_section(8, ZLIB, false).build());
    bytes.extend(geometry(&[1, 8, 0, u32::MAX, 8, 1]));
    bytes.extend(hierarchy());
    let reader = FstReader::open(bytes).unwrap();
    let filter = FstFilter::new(0, 200, vec![handle(0)]);
    let values = reader.read_pre_start_values(&filter).unwrap();
    assert_eq!(values.string_values, vec![string_at(0, "z", 200)]);
    let filter = FstFilter::new(0, 110, vec![handle(0)]);
    let values = reader.read_pre_start_values(&filter).unwrap();
    assert_eq!(values.string_values, vec![string_at(0, "0", 110)]);
    let filter = FstFilter::new(0, 109, vec![handle(0)]);
    assert_eq!(reader.read_pre_start_values(&filter).unwrap_err(), ReaderError::Io);
}

#[test]
fn first_values_of_a_range() {
    let reader = plain();
    let values = reader.find_first_in_range(&FstFilter::filter_time(20, 150)).unwrap();
    assert_eq!(
        values.string_values,
        vec![
            string_at(0, "0", 20),
            string_at(1, "10100101", 20),
            string_at(4, "10100101", 20),
            string_at(5, "1", 150),
        ]
    );
    assert_eq!(values.real_values, vec![real_at(2, 2.25, 50)]);
    let values = reader.find_first_in_range(&FstFilter::filter_time(160, 190)).unwrap();
    assert!(values.string_values.is_empty() && values.real_values.is_empty());
}

#[test]
fn boundary_of_a_range() {
    let reader = plain();
    let boundary = reader.read_range_boundary_values(&FstFilter::filter_time(20, 150)).unwrap();
    assert_eq!(
        boundary.first,
        Some(TimePointValues {
            time: 20,
            string_values: vec![
                string_at(0, "0", 20),
                string_at(1, "10100101", 20),
                string_at(4, "10100101", 20)
            ],
            real_values: vec![],
        })
    );
    assert_eq!(
        boundary.last,
        Some(TimePointValues {
            time: 150,
            string_values: vec![string_at(1, "00001111", 150), string_at(5, "1", 150)],
            real_values: vec![real_at(2, -1.0, 150)],
        })
    );
}

#[test]
fn boundary_of_one_time() {
    let reader = plain();
    let filter = FstFilter::new(60, 120, vec![handle(2)]);
    let boundary = reader.read_range_boundary_values(&filter).unwrap();
    let point = TimePointValues {
        time: 110,
        string_values: vec![],
        real_values: vec![real_at(2, 3.5, 110)],
    };
    assert_eq!(boundary.last, Some(point));
    assert_eq!(boundary.first, boundary.last);
}

#[test]
fn boundary_without_values() {
    let reader = plain();
    let boundary = reader.read_range_boundary_values(&FstFilter::filter_time(151, 199)).unwrap();
    assert_eq!(boundary.first, None);
    assert_eq!(boundary.last, None);
    // the initial values of the file are no changes
    let boundary = reader.read_range_boundary_values(&FstFilter::filter_time(0, 9)).unwrap();
    assert_eq!(boundary.first, None);
    assert_eq!(boundary.last, None);
    let values = reader.read_pre_start_values(&FstFilter::filter_time(0, 9)).unwrap();
    assert_eq!(values.string_values[0], string_at(0, "0", 0));
    let boundary =
        reader.read_range_boundary_values(&FstFilter::new(0, 100, vec![handle(5)])).unwrap();
    assert!(boundary.first.is_none() && boundary.last.is_none());
}

#[test]
fn file_without_sections() {
    let mut bytes = header(0, 0);
    bytes.extend(geometry(&[1]));
    bytes.extend(hierarchy());
    let reader = FstReader::open(bytes).unwrap();
    assert_eq!(read(&reader, &FstFilter::all().with_pre_start()), vec![]);
    assert_eq!(read_in_range(&reader, &FstFilter::all()), vec![]);
    let values = reader.read_pre_start_values(&FstFilter::all()).unwrap();
    assert!(values.string_values.is_empty());
    let boundary = reader.read_range_boundary_values(&FstFilter::all()).unwrap();
    assert!(boundary.first.is_none() && boundary.last.is_none());
}

#[test]
fn wrapped_file() {
    let inner = file(8, ZLIB, false);
    let mut content = (inner.len() as u64).to_be_bytes().to_vec();
    content.extend(gzip(&inner));
    let wrapped = block(254, &content);
    assert!(is_fst_file(&wrapped));
    let reader = FstReader::open(wrapped.clone()).unwrap();
    assert_eq!(reader.get_header(), plain().get_header());
    assert_eq!(read(&reader, &FstFilter::all()), all_changes());
    let mut entries = vec![];
    assert_eq!(reader.read_hierarchy(&mut entries), Ok(()));
    assert_eq!(entries.len(), 9);
    // still being written
    let mut unfinished = wrapped.clone();
    unfinished[1..9].fill(0);
    assert_eq!(FstReader::open(unfinished).err(), Some(ReaderError::NotFinishedCompressing));
    let mut broken = wrapped;
    broken[17 + 10] = 0xff;
    assert_eq!(
        FstReader::open(broken).err(),
        Some(ReaderError::GZipBody(InflateError::Data))
    );
}

fn unfinished() -> Vec<u8> {
    let mut out = header(0, 0);
    let mut first = first_section(8, ZLIB, false);
    first.start = 5;
    out.extend(first.build());
    out.extend(second_section(8, ZLIB, false).build());
    out
}

#[test]
fn file_that_was_not_finished() {
    assert_eq!(FstReader::open(unfinished()).err(), Some(ReaderError::MissingGeometry));
    let reader = FstReader::open_incomplete(unfinished(), hierarchy_bytes()).unwrap();
    // the times are those of the sections
    assert_eq!(reader.get_header().start_time, 5);
    assert_eq!(reader.get_header().end_time, 200);
    assert_eq!(
        reader.meta().signals,
        vec![
            SignalInfo::BitVec(1),
            SignalInfo::BitVec(8),
            SignalInfo::Real,
            SignalInfo::BitVec(0),
            SignalInfo::BitVec(8),
            SignalInfo::BitVec(1)
        ]
    );
    assert_eq!(read(&reader, &FstFilter::all()), all_changes());
    let mut entries = vec![];
    assert_eq!(reader.read_hierarchy(&mut entries), Ok(()));
    assert_eq!(entries.len(), 9);
    let reader =
        FstReader::open_incomplete_and_read_time_table(unfinished(), hierarchy_bytes()).unwrap();
    let expected: &[u64] = &[5, 10, 20, 50, 100, 110, 150, 200];
    assert_eq!(reader.get_time_table(), Some(expected));
}

#[test]
fn file_without_a_hierarchy() {
    let mut bytes = unfinished();
    bytes.extend(geometry(&[1, 8, 0, u32::MAX, 8, 1]));
    assert_eq!(FstReader::open(bytes.clone()).err(), Some(ReaderError::MissingHierarchy));
    let reader = FstReader::open_incomplete(bytes, hierarchy_bytes()).unwrap();
    assert_eq!(read(&reader, &FstFilter::all()), all_changes());
    assert_eq!(entries_of(&reader), entries_of(&plain()));
}

fn entries_of(reader: &FstReader) -> Vec<FstHierarchyEntry> {
    let mut entries = vec![];
    assert_eq!(reader.read_hierarchy(&mut entries), Ok(()));
    entries
}

#[test]
fn file_without_a_geometry() {
    let mut bytes = unfinished();
    bytes.extend(hierarchy());
    assert_eq!(FstReader::open(bytes.clone()).err(), Some(ReaderError::MissingGeometry));
    let reader = FstReader::open_incomplete(bytes, hierarchy_bytes()).unwrap();
    assert_eq!(read(&reader, &FstFilter::all()), all_changes());
    assert_eq!(entries_of(&reader), entries_of(&plain()));
}

#[test]
fn finished_file_opened_as_unfinished() {
    for hier in [vec![], hierarchy_bytes()] {
        let reader = FstReader::open_incomplete(file(8, ZLIB, false), hier).unwrap();
        assert_eq!(reader.get_header(), plain().get_header());
        assert_eq!(read(&reader, &FstFilter::all()), all_changes());
        assert_eq!(entries_of(&reader).len(), 9);
        assert_eq!(entries_of(&reader), entries_of(&plain()));
    }
}

#[test]
fn bodies_of_sections_are_skipped() {
    let bytes = file(8, ZLIB, false);
    let meta = read_meta_data(&bytes, false).unwrap();
    let mut changed = bytes.clone();
    for section in &meta.data_sections {
        let start = section.file_offset as usize;
        let length = u64::from_be_bytes(bytes[start..start + 8].try_into().unwrap()) as usize;
        changed[start + 32..start + length].fill(0xaa);
    }
    let other = read_meta_data(&changed, false).unwrap();
    assert_eq!(other.header, meta.header);
    assert_eq!(other.signals, meta.signals);
    assert_eq!(other.data_sections, meta.data_sections);
    assert_eq!(other.hierarchy_offset, meta.hierarchy_offset);
    assert!(read_meta_data(&changed, true).is_err());
}

#[test]
fn scan_that_fails() {
    // an unknown block between the two sections
    let mut bytes = header(0, 0);
    bytes.extend(first_section(8, ZLIB, false).build());
    bytes.push(77);
    bytes.extend(second_section(8, ZLIB, false).build());
    let mut reader = HeaderReader::new(&bytes, true);
    assert_eq!(reader.scan(), Err(ReaderError::BlockType));
    // what comes before it was found
    assert_eq!(reader.data_sections.len(), 1);
    assert_eq!(reader.time_table, Some(vec![0, 10, 20, 50, 100]));
    assert_eq!(reader.header.as_ref().map(|h| h.end_time), Some(100));
    assert!(reader.signals.is_none());
    // a hierarchy that cannot be read repairs nothing
    assert_eq!(reader.repair(&[100]), Err(ReaderError::HierarchyType));
    assert!(reader.signals.is_none());
    assert_eq!(reader.hierarchy, Some((HierarchyCompression::Uncompressed, 0)));
    // a section whose times cannot be read leaves the table as it was
    let mut bytes = header(0, 0);
    bytes.extend(first_section(8, ZLIB, false).build());
    let end = bytes.len();
    bytes.extend(second_section(8, ZLIB, false).build());
    bytes[end + 1..].fill(0xff);
    let mut reader = HeaderReader::new(&bytes, true);
    assert!(reader.read().is_err());
    assert_eq!(reader.time_table, Some(vec![0, 10, 20, 50, 100]));
    assert_eq!(reader.data_sections.len(), 1);
}

#[test]
fn times_of_the_header() {
    // a header without times gets those of the sections
    let header_of = |start: u64, end: u64| {
        let mut bytes = header(start, end);
        bytes.extend(first_section(8, ZLIB, false).build());
        bytes.extend(second_section(8, ZLIB, false).build());
        bytes.extend(geometry(&[1, 8, 0, u32::MAX, 8, 1]));
        bytes.extend(hierarchy());
        read_meta_data(&bytes, false).unwrap().header
    };
    let inferred = header_of(0, 0);
    assert_eq!((inferred.start_time, inferred.end_time), (0, 200));
    // one with times keeps them
    let kept = header_of(7, 77);
    assert_eq!((kept.start_time, kept.end_time), (7, 77));
    assert_eq!(kept.version, inferred.version);
}

#[test]
fn unfinished_file_errors() {
    assert_eq!(
        FstReader::open_incomplete(unfinished(), vec![100]).err(),
        Some(ReaderError::HierarchyType)
    );
    let no_header = second_section(8, ZLIB, false).build();
    assert_eq!(
        FstReader::open_incomplete(no_header, hierarchy_bytes()).err(),
        Some(ReaderError::MissingHeader)
    );
}

#[test]
fn blackouts() {
    let mut content = leb(2);
    content.push(1);
    content.extend(leb(30));
    content.push(0);
    content.extend(leb(12));
    let mut bytes = header(0, 0);
    bytes.extend(block(2, &content));
    bytes.extend(geometry(&[1]));
    bytes.extend(hierarchy());
    let meta = read_meta_data(&bytes, false).unwrap();
    assert_eq!(
        meta.blackouts,
        vec![
            BlackoutData { time: 30, contains_activity: true },
            BlackoutData { time: 42, contains_activity: false }
        ]
    );
    content.push(0);
    let mut bytes = header(0, 0);
    bytes.extend(block(2, &content));
    assert_eq!(read_meta_data(&bytes, false).err(), Some(ReaderError::Malformed));
}

#[test]
fn packed_geometry() {
    let mut data = vec![];
    for _ in 0..100 {
        data.extend(leb(300));
    }
    let packed = zlib_block(&data);
    let mut content = vec![];
    content.extend((data.len() as u64).to_be_bytes());
    content.extend(100u64.to_be_bytes());
    content.extend(packed);
    let mut bytes = header(0, 0);
    bytes.extend(block(3, &content));
    bytes.extend(hierarchy());
    let reader = FstReader::open(bytes).unwrap();
    assert_eq!(reader.meta().signals, vec![SignalInfo::BitVec(300); 100]);
    // a length that is wrong
    content[7] += 1;
    let mut bytes = header(0, 0);
    bytes.extend(block(3, &content));
    assert_eq!(FstReader::open(bytes).err(), Some(ReaderError::Malformed));
    content.truncate(20);
    content[7] = 0;
    let mut bytes = header(0, 0);
    bytes.extend(block(3, &content));
    assert_eq!(FstReader::open(bytes).err(), Some(ReaderError::Zlib));
}

#[test]
fn skipped_blocks() {
    // a block to be skipped is passed over
    let mut bytes = header(0, 200);
    bytes.extend(block(255, &[1, 2, 3]));
    bytes.extend(geometry(&[1]));
    bytes.extend(hierarchy());
    assert!(FstReader::open(bytes.clone()).is_ok());
    // an empty one ends the file
    bytes.push(255);
    bytes.extend([0; 8]);
    bytes.push(77);
    assert!(FstReader::open(bytes.clone()).is_ok());
    assert!(is_fst_file(&bytes));
}

#[test]
fn header_errors() {
    let good = file(8, ZLIB, false);
    assert_eq!(FstReader::open(vec![]).err(), Some(ReaderError::Io));
    assert_eq!(FstReader::open(vec![77]).err(), Some(ReaderError::BlockType));
    assert_eq!(FstReader::open(good[..100].to_vec()).err(), Some(ReaderError::Io));
    let mut bytes = good.clone();
    bytes[8] += 1;
    assert_eq!(FstReader::open(bytes).err(), Some(ReaderError::Malformed));
    let mut bytes = good.clone();
    bytes[25] += 1;
    assert_eq!(FstReader::open(bytes).err(), Some(ReaderError::FloatEndian));
    let mut bytes = good.clone();
    bytes[74] = 0xff;
    assert_eq!(FstReader::open(bytes).err(), Some(ReaderError::Utf8));
    let mut bytes = good.clone();
    bytes[321] = 9;
    assert_eq!(FstReader::open(bytes).err(), Some(ReaderError::FileType));
    let mut bytes = geometry(&[1]);
    bytes.extend(hierarchy());
    assert_eq!(FstReader::open(bytes).err(), Some(ReaderError::MissingHeader));
}

#[test]
fn block_errors() {
    // two hierarchies, a wrapper inside, a length that cannot be
    let mut bytes = file(8, ZLIB, false);
    bytes.extend(hierarchy());
    assert_eq!(FstReader::open(bytes).err(), Some(ReaderError::Malformed));
    let mut bytes = header(0, 0);
    bytes.extend(block(254, &[]));
    assert_eq!(FstReader::open(bytes).err(), Some(ReaderError::Malformed));
    let mut bytes = header(0, 0);
    bytes.push(255);
    bytes.extend(u64::MAX.to_be_bytes());
    assert_eq!(FstReader::open(bytes.clone()).err(), Some(ReaderError::Malformed));
    assert!(!is_fst_file(&bytes));
}

#[test]
fn change_errors() {
    let with_signal = |changes: Vec<Vec<u8>>| {
        let mut section = second_section(8, ZLIB, false);
        section.signals = vec![Sig::Data(changes)];
        section.frame = 0.5f64.to_le_bytes().to_vec();
        let mut bytes = header(0, 200);
        bytes.extend(section.build());
        bytes.extend(geometry(&[0]));
        bytes.extend(hierarchy());
        FstReader::open(bytes).unwrap()
    };
    let mut changes = vec![];
    // the second value is cut short: the first is delivered
    let reader = with_signal(vec![volt(0, 1.0), vec![3, 1, 2]]);
    assert_eq!(reader.read_signals(&FstFilter::all(), &mut changes), Err(ReaderError::Io));
    assert_eq!(changes, vec![r(110, 0, 1.0)]);
    // a change behind the last time
    changes.clear();
    let reader = with_signal(vec![volt(0, 1.0), volt(3, 2.0)]);
    assert_eq!(reader.read_signals(&FstFilter::all(), &mut changes), Err(ReaderError::Malformed));
    assert_eq!(changes, vec![r(110, 0, 1.0)]);
    // a first change behind the last time is no change at all
    changes.clear();
    let reader = with_signal(vec![volt(3, 1.0)]);
    assert_eq!(reader.read_signals(&FstFilter::all(), &mut changes), Ok(()));
    assert!(changes.is_empty());
    // two changes at one time
    changes.clear();
    let reader = with_signal(vec![volt(1, 1.0), volt(0, 2.0)]);
    assert_eq!(reader.read_signals(&FstFilter::all(), &mut changes), Ok(()));
    assert_eq!(changes, vec![r(150, 0, 1.0), r(150, 0, 2.0)]);
    let values = reader.read_pre_start_values(&FstFilter::all()).unwrap();
    assert_eq!(values.real_values, vec![real_at(0, 2.0, 150)]);
    let values = reader.find_first_in_range(&FstFilter::all()).unwrap();
    assert_eq!(values.real_values, vec![real_at(0, 1.0, 150)]);
    // before the first change there is the initial value
    let values = reader.read_pre_start_values(&FstFilter::filter_time(0, 110)).unwrap();
    assert_eq!(values.real_values, vec![real_at(0, 0.5, 101)]);
}

#[test]
fn frame_errors() {
    let mut first = first_section(8, ZLIB, false);
    first.frame.truncate(20);
    let mut bytes = header(0, 100);
    bytes.extend(first.build());
    bytes.extend(geometry(&[1, 8, 0, u32::MAX, 8, 1]));
    bytes.extend(hierarchy());
    let reader = FstReader::open(bytes).unwrap();
    let filter = FstFilter::new(0, 60, vec![handle(4)]);
    assert_eq!(reader.read_pre_start_values(&filter).err(), Some(ReaderError::Io));
    // what the frame does hold can be read
    let filter = FstFilter::new(0, 60, vec![handle(0), handle(1), handle(2)]);
    assert!(reader.read_pre_start_values(&filter).is_ok());
    // changes do not need the frame
    assert_eq!(read(&reader, &FstFilter::all()).len(), 9);
}

#[test]
fn recognises_files() {
    assert!(is_fst_file(&file(8, ZLIB, false)));
    assert!(is_fst_file(&header(0, 0)));
    assert!(is_fst_file(&unfinished()));
    assert!(!is_fst_file(b""));
    assert!(!is_fst_file(b"$timescale 1ns $end"));
    assert!(!is_fst_file(&geometry(&[1])));
    // cut short within a length
    assert!(!is_fst_file(&[0, 0, 0]));
    // a header whose length leads behind the end of the file
    assert!(is_fst_file(&header(0, 0)[..50]));
}
