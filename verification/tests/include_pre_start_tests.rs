use fst_reader::{
    FstFilter, FstHierarchyEntry, FstReader, FstSignalChange, FstSignalHandle,
};

fn block(tag: u8, content: &[u8]) -> Vec<u8> {
    let mut out = vec![tag];
    out.extend((content.len() as u64 + 8).to_be_bytes());
    out.extend(content);
    out
}

fn header(start: u64, end: u64) -> Vec<u8> {
    let mut content = vec![0; 321];
    content[0..8].copy_from_slice(&start.to_be_bytes());
    content[8..16].copy_from_slice(&end.to_be_bytes());
    content[16..24].copy_from_slice(&std::f64::consts::E.to_le_bytes());
    block(0, &content)
}

/// A section with two one-bit signals. `deltas` holds the time steps between the
/// changes of each; the times are below 128.
fn section(start: u64, end: u64, times: &[u8], deltas: [&[u8]; 2]) -> Vec<u8> {
    let mut content = vec![];
    for n in [start, end, 0] {
        content.extend(n.to_be_bytes());
    }
    // a frame of two characters for two signals
    content.extend([2, 2, 2, b'x', b'x']);
    // two signals, not packed
    content.extend([2, b'Z']);
    let mut table = vec![3u8];
    for (k, steps) in deltas.iter().enumerate() {
        content.push(0);
        for (i, step) in steps.iter().enumerate() {
            content.push(step * 4 + (i as u8 % 2) * 2);
        }
        if k == 0 {
            table.push((steps.len() as u8 + 1) * 2 + 1);
        }
    }
    content.extend(&table);
    content.extend((table.len() as u64).to_be_bytes());
    content.extend(times);
    for n in [times.len(); 3] {
        content.extend((n as u64).to_be_bytes());
    }
    block(8, &content)
}

/// Two sections: the first signal changes at 0, 50 and 150, the second at 0, 90,
/// 110 and 150.
fn sections() -> Vec<u8> {
    let mut out = section(0, 99, &[0, 50, 40], [&[0, 1], &[0, 2]]);
    out.extend(section(100, 200, &[110, 40], [&[1], &[0, 1]]));
    out
}

fn hierarchy() -> Vec<u8> {
    let mut out = vec![254, 0];
    out.extend(b"top\0\0");
    out.extend([16, 0, b'a', 0, 1, 0]);
    out.extend([16, 0, b'b', 0, 1, 0]);
    out.push(255);
    out
}

/// A file whose writer was interrupted.
fn minimal_2sections() -> FstReader {
    let mut fst = header(0, 0);
    fst.extend(sections());
    FstReader::open_incomplete(fst, hierarchy()).unwrap()
}

/// The same, finished.
fn simple() -> FstReader {
    let mut fst = header(0, 200);
    fst.extend(sections());
    let mut geometry = 2u64.to_be_bytes().to_vec();
    geometry.extend(2u64.to_be_bytes());
    geometry.extend([1, 1]);
    fst.extend(block(3, &geometry));
    let bytes = hierarchy();
    let mut content = (bytes.len() as u64).to_be_bytes().to_vec();
    content.extend(lz4_flex::block::compress(&bytes));
    fst.extend(block(6, &content));
    FstReader::open(fst).unwrap()
}

fn handles(reader: &FstReader) -> Vec<FstSignalHandle> {
    let mut entries = vec![];
    reader.read_hierarchy(&mut entries).unwrap();
    let mut out = vec![];
    for entry in &entries {
        if let FstHierarchyEntry::Var { handle, .. } = entry {
            out.push(*handle);
        }
    }
    out
}

fn first_handle(reader: &FstReader) -> FstSignalHandle {
    *handles(reader).first().expect("Should have at least one signal")
}

fn changes(reader: &FstReader, filter: &FstFilter) -> Vec<FstSignalChange> {
    let mut out = vec![];
    reader.read_signals(filter, &mut out).unwrap();
    out
}

fn times_of(reader: &FstReader, filter: &FstFilter, handle: FstSignalHandle) -> Vec<u64> {
    let mut out = vec![];
    for change in changes(reader, filter) {
        if change.handle == handle {
            out.push(change.time);
        }
    }
    out
}

/// Test that include_pre_start defaults to false
#[test]
fn test_include_pre_start_defaults_to_false() {
    let filter = FstFilter::all();
    assert!(!filter.include_pre_start);

    let filter = FstFilter::new(100, 200, vec![]);
    assert!(!filter.include_pre_start);

    let filter = FstFilter::filter_time(100, 200);
    assert!(!filter.include_pre_start);

    let filter = FstFilter::filter_signals(vec![]);
    assert!(!filter.include_pre_start);
}

/// Test the with_pre_start() method
#[test]
fn test_with_pre_start_method() {
    let filter = FstFilter::all().with_pre_start();
    assert!(filter.include_pre_start);

    let filter = FstFilter::new(100, 200, vec![]).with_pre_start();
    assert!(filter.include_pre_start);

    let filter = FstFilter::filter_time(100, 200).with_pre_start();
    assert!(filter.include_pre_start);

    let filter = FstFilter::filter_signals(vec![]).with_pre_start();
    assert!(filter.include_pre_start);
}

/// Test that we can directly set the field
#[test]
fn test_direct_field_assignment() {
    let mut filter = FstFilter::all();
    filter.include_pre_start = true;
    assert!(filter.include_pre_start);

    let mut filter = FstFilter::new(100, 200, vec![]);
    filter.include_pre_start = true;
    assert!(filter.include_pre_start);
}

/// Without include_pre_start only values >= start are returned.
#[test]
fn test_read_signals_without_pre_start() {
    let reader = minimal_2sections();
    let handle = first_handle(&reader);

    // Read with start=100, include_pre_start=false (default)
    let filter = FstFilter::new(100, 200, vec![handle]);
    let times = times_of(&reader, &filter, handle);
    assert_eq!(times, vec![150]);

    // All callbacks should be >= 100
    for time in &times {
        assert!(*time >= 100, "Time {} should be >= 100", time);
    }
}

/// With include_pre_start the last value before start comes first.
#[test]
fn test_read_signals_with_pre_start() {
    let reader = minimal_2sections();
    let handle = first_handle(&reader);
    assert_eq!(times_of(&reader, &FstFilter::all(), handle), vec![0, 50, 150]);

    // Now read with start=100, include_pre_start=true
    let filter = FstFilter::new(100, 200, vec![handle]).with_pre_start();
    let times = times_of(&reader, &filter, handle);
    assert!(!times.is_empty(), "Should have at least one callback");

    // The first callback should be the last change before or at start
    let first_time = times[0];
    assert!(
        first_time <= 100,
        "First callback time {} should be <= 100 when include_pre_start=true",
        first_time
    );
    assert_eq!(times, vec![50, 150]);
}

/// Test that include_pre_start works correctly when start is exactly at a signal change
#[test]
fn test_include_pre_start_at_exact_boundary() {
    let reader = minimal_2sections();
    let handle = first_handle(&reader);

    // Read with start=0 (beginning of file)
    let filter = FstFilter::new(0, 200, vec![handle]).with_pre_start();
    let times = times_of(&reader, &filter, handle);

    // Should still work correctly at boundary
    assert!(!times.is_empty(), "Should have callbacks at boundary");

    let filter = FstFilter::new(50, 200, vec![handle]).with_pre_start();
    assert_eq!(times_of(&reader, &filter, handle), vec![0, 50, 150]);
}

/// Test include_pre_start with multiple signals
#[test]
fn test_include_pre_start_multiple_signals() {
    let reader = minimal_2sections();
    let signal_handles = handles(&reader);
    assert!(signal_handles.len() >= 2);

    // Read with include_pre_start=true
    let filter = FstFilter::new(100, 200, signal_handles[..2].to_vec()).with_pre_start();
    let mut callback_count = 0;
    for change in changes(&reader, &filter) {
        if signal_handles.contains(&change.handle) {
            callback_count += 1;
        }
    }
    assert!(callback_count > 0, "Should have callbacks for multiple signals");
    assert_eq!(callback_count, 5);
}

/// Test that include_pre_start doesn't affect the total number of callbacks when start=0
#[test]
fn test_include_pre_start_with_start_at_zero() {
    let reader = minimal_2sections();
    let handle = first_handle(&reader);
    let count_without = times_of(&reader, &FstFilter::new(0, 200, vec![handle]), handle).len();
    let filter_with = FstFilter::new(0, 200, vec![handle]).with_pre_start();
    let count_with = times_of(&reader, &filter_with, handle).len();

    // When start=0, both should give the same count
    assert_eq!(
        count_without, count_with,
        "With start=0, include_pre_start should not affect callback count"
    );
}

/// Test include_pre_start with a regular (non-incomplete) FST file
#[test]
fn test_include_pre_start_regular_fst() {
    let reader = simple();
    let handle = first_handle(&reader);

    // Read with include_pre_start=true
    let filter = FstFilter::new(10, 100, vec![handle]).with_pre_start();
    let times = times_of(&reader, &filter, handle);
    assert!(!times.is_empty(), "Should have callbacks");
    // First callback should be <= 10
    if let Some(&first_time) = times.first() {
        assert!(first_time <= 10, "First callback {} should be <= 10", first_time);
    }
    assert_eq!(times, vec![0, 50]);
}

/// Test that the feature works with FstFilter::all()
#[test]
fn test_include_pre_start_with_filter_all() {
    let reader = minimal_2sections();

    // FstFilter::all() with include_pre_start
    let filter = FstFilter::all().with_pre_start();
    let callback_count = changes(&reader, &filter).len();

    // Should read all values (same as without with_pre_start since start=0)
    assert!(callback_count > 0, "Should have callbacks");
    assert_eq!(callback_count, changes(&reader, &FstFilter::all()).len());
}
