//! Data sections read back as they were written.

use crate::compression::{
    has_long_length, lz4_bytes, lz4_unpacked, run_at, token_length, zlib_bytes, zlib_unpacked,
};
use crate::data::{at_changes, ChangesView, SignalsView};
use crate::delivery::{located_bytes, signal_changes};
use crate::laws::blocks::pack_types_read_back;
use crate::laws::changes::{
    all_writable, change_bytes, change_reads_back, changes_bytes, changes_read_back,
    written_changes, Written,
};
use crate::laws::encoding::{
    be_bytes, byte_reads_back, bytes_read_back, leb_encoded, lemma_eight_bytes, lemma_part_stands,
    lemma_stands, stands_at, times_encoded, times_read_back, u64_reads_back,
    variant_u32_reads_back, variant_u64_reads_back,
};
use crate::laws::frames::{frame_head_reads_back, stored_bytes_read_back, stored_frame, stores};
use crate::laws::signals::{always, section_of_signal};
use crate::laws::tables::{locations_read_back, table_bytes, table_of, table_writable, Item};
use crate::locations::{resolved, resolved_all};
use crate::primitives::at_u64;
use crate::section::{at_packed, at_section_head, at_times, frame_end, SectionHead, TimesView};
use crate::types::{pack_type, DataSectionInfo, DataSectionKind, ReaderError, ValueChangePackType};
use vstd::prelude::*;

verus! {

/// The time table at the end of a section: the stored times, the length that they
/// unpack to, the length as stored and the number of times.
pub open spec fn times_part(times: Seq<u64>, raw: Seq<u8>) -> Seq<u8> {
    raw + (be_bytes(times_encoded(times, 0).len() as u64) + (be_bytes(raw.len() as u64)
        + be_bytes(times.len() as u64)))
}

/// The time table of a section reads back as it was written, packed or not.
pub proof fn time_table_reads_back(
    times: Seq<u64>,
    raw: Seq<u8>,
    s: Seq<u8>,
    start: int,
    length: u64,
)
    requires
        s.len() <= u64::MAX,
        times.len() <= u64::MAX,
        times_encoded(times, 0).len() <= u64::MAX,
        forall|i: int, j: int| 0 <= i <= j < times.len() ==> times[i] <= times[j],
        stores(raw, times_encoded(times, 0)),
        stands_at(times_part(times, raw), s, start + length - raw.len() - 24),
    ensures
        at_times(s, start, length) == Ok::<TimesView, ReaderError>(
            TimesView { size: (raw.len() + 24) as int, times },
        ),
{
    broadcast use lemma_eight_bytes;

    let bytes = times_encoded(times, 0);
    let a = be_bytes(bytes.len() as u64);
    let b = be_bytes(raw.len() as u64);
    let c = be_bytes(times.len() as u64);
    let end = start + length;
    let p = end - raw.len() - 24;
    lemma_stands(raw, a + (b + c), s, p);
    lemma_stands(a, b + c, s, end - 24);
    lemma_stands(b, c, s, end - 16);
    bytes_read_back(raw, s, p);
    u64_reads_back(bytes.len() as u64, s, end - 24);
    u64_reads_back(raw.len() as u64, s, end - 16);
    u64_reads_back(times.len() as u64, s, end - 8);
    stored_bytes_read_back(raw, bytes);
    times_read_back(times);
}

proof fn lemma_run_is_short(s: Seq<u8>, pos: int)
    requires
        0 <= pos <= s.len(),
    ensures
        run_at(s, pos) <= s.len() - pos,
    decreases s.len() - pos,
{
    if pos < s.len() {
        lemma_run_is_short(s, pos + 1);
    }
}

/// The LZ4 block is too short to hold a length that could not be added up.
pub open spec fn is_short_block(data: Seq<u8>) -> bool {
    data.len() <= 8_000_000 || usize::MAX > 0xffff_ffff && data.len() <= 16_843_009
}

proof fn lemma_short_block(data: Seq<u8>, pos: int)
    requires
        0 <= pos,
        is_short_block(data),
    ensures
        !has_long_length(data, pos),
    decreases data.len() - pos,
{
    if pos < data.len() {
        lemma_run_is_short(data, pos + 1);
        let (literals, begin) = token_length(data, pos + 1, data[pos] / 16);
        let behind = begin + literals + 2;
        if behind <= data.len() {
            lemma_run_is_short(data, behind);
            lemma_short_block(data, token_length(data, behind, data[pos] % 16).1);
        }
    }
}

/// A short LZ4 block is never refused for a length that it holds: it gives what it
/// unpacks to.
pub proof fn lz4_blocks_are_unpacked(data: Seq<u8>, bytes: Seq<u8>)
    requires
        is_short_block(data),
        bytes.len() <= isize::MAX,
        lz4_unpacked(data, bytes.len()) == Some(bytes),
    ensures
        lz4_bytes(data, bytes.len() as u64) == Ok::<Seq<u8>, ReaderError>(bytes),
{
    lemma_short_block(data, 0);
}

/// The bytes `raw` pack `bytes` in the way that the mark of a section names.
pub open spec fn packs(mark: u8, raw: Seq<u8>, bytes: Seq<u8>) -> bool {
    &&& 0 < bytes.len() <= isize::MAX
    &&& bytes.len() <= u32::MAX
    &&& if mark == 0x34 {
        is_short_block(raw) && lz4_unpacked(raw, bytes.len()) == Some(bytes)
    } else {
        mark != 0x46 && raw.len() > 0 && zlib_unpacked(raw, bytes.len()) == Some(bytes)
    }
}

/// The changes of a signal as they are stored in a section: as they are behind a
/// zero, or packed behind the length that they unpack to.
pub open spec fn stores_changes(mark: u8, part: Seq<u8>, bytes: Seq<u8>) -> bool {
    ||| part == leb_encoded(0) + bytes
    ||| exists|raw: Seq<u8>|
        part == leb_encoded(bytes.len()) + raw && #[trigger] packs(mark, raw, bytes)
}

proof fn lemma_packed_read(
    n: u32,
    raw: Seq<u8>,
    pack: ValueChangePackType,
    s: Seq<u8>,
    pos: int,
)
    requires
        stands_at(leb_encoded(n as nat) + raw, s, pos),
    ensures
        at_packed(s, pos, (leb_encoded(n as nat) + raw).len() as int, pack) == (if n == 0 {
            Ok(raw)
        } else {
            match pack {
                ValueChangePackType::Lz4 => lz4_bytes(raw, n as u64),
                ValueChangePackType::FastLz => Err(ReaderError::FastLz),
                ValueChangePackType::Zlib => zlib_bytes(raw, n as u64),
            }
        }),
{
    let a = leb_encoded(n as nat);
    lemma_stands(a, raw, s, pos);
    variant_u32_reads_back(n, s, pos);
    bytes_read_back(raw, s, pos + a.len());
    assert((a + raw).len() - a.len() == raw.len());
}

/// The stored changes of a signal give its changes, packed or not.
pub proof fn stored_changes_read_back(
    mark: u8,
    part: Seq<u8>,
    bytes: Seq<u8>,
    pack: ValueChangePackType,
    s: Seq<u8>,
    pos: int,
)
    requires
        stores_changes(mark, part, bytes),
        pack == pack_type(mark),
        stands_at(part, s, pos),
    ensures
        at_packed(s, pos, part.len() as int, pack) == Ok::<Seq<u8>, ReaderError>(bytes),
{
    pack_types_read_back(mark);
    if part == leb_encoded(0) + bytes {
        lemma_packed_read(0, bytes, pack, s, pos);
    } else {
        let raw = choose|raw: Seq<u8>|
            part == leb_encoded(bytes.len()) + raw && #[trigger] packs(mark, raw, bytes);
        lemma_packed_read(bytes.len() as u32, raw, pack, s, pos);
        if mark == 0x34 {
            lz4_blocks_are_unpacked(raw, bytes);
        }
    }
}

/// What a data section is written from.
pub struct SectionParts {
    pub start_time: u64,
    pub end_time: u64,
    /// the memory that a reader may need
    pub memory: u64,
    /// the length of the unpacked frame
    pub frame_length: u64,
    /// the number of signals in the frame
    pub frame_signals: u64,
    /// the frame as stored
    pub frame: Seq<u8>,
    /// the number of signals in the table of places
    pub signals: u64,
    /// the mark of the packing and the stored changes
    pub data: Seq<u8>,
    pub items: Seq<Item>,
    pub times: Seq<u64>,
    /// the time table as stored
    pub raw_times: Seq<u8>,
}

/// What follows the times at the head of a section.
pub open spec fn section_tail(kind: DataSectionKind, parts: SectionParts) -> Seq<u8> {
    let table = table_bytes(kind, parts.items);
    stored_frame(parts.frame_length, parts.frame_signals, parts.frame) + (leb_encoded(
        parts.signals as nat,
    ) + (parts.data + ((table + be_bytes(table.len() as u64)) + times_part(
        parts.times,
        parts.raw_times,
    ))))
}

/// The length of a section, its own eight bytes counted.
pub open spec fn section_length(kind: DataSectionKind, parts: SectionParts) -> nat {
    32 + section_tail(kind, parts).len()
}

/// A data section in its written form.
pub open spec fn section_bytes(kind: DataSectionKind, parts: SectionParts) -> Seq<u8> {
    be_bytes(section_length(kind, parts) as u64) + (be_bytes(parts.start_time) + (be_bytes(
        parts.end_time,
    ) + (be_bytes(parts.memory) + section_tail(kind, parts))))
}

/// The parts can be written as a section.
pub open spec fn section_writable(kind: DataSectionKind, parts: SectionParts) -> bool {
    &&& parts.data.len() > 0
    &&& table_writable(
        kind,
        parts.items,
        0,
        0,
        None,
        parts.signals as nat,
        parts.data.len(),
    )
    &&& parts.times.len() <= u64::MAX
    &&& times_encoded(parts.times, 0).len() <= u64::MAX
    &&& forall|i: int, j: int|
        0 <= i <= j < parts.times.len() ==> parts.times[i] <= parts.times[j]
    &&& stores(parts.raw_times, times_encoded(parts.times, 0))
}

/// Where the changes of a section begin, with their mark.
pub open spec fn changes_start(parts: SectionParts, start: int) -> int {
    start + 32 + stored_frame(parts.frame_length, parts.frame_signals, parts.frame).len()
        + leb_encoded(parts.signals as nat).len()
}

/// The length, the times and the memory at the head of a section read back as they
/// were written.
pub proof fn section_head_reads_back(
    kind: DataSectionKind,
    parts: SectionParts,
    s: Seq<u8>,
    start: int,
)
    requires
        s.len() <= u64::MAX,
        stands_at(section_bytes(kind, parts), s, start),
    ensures
        at_section_head(s, start) == Ok::<SectionHead, ReaderError>(
            SectionHead {
                length: section_length(kind, parts) as u64,
                start_time: parts.start_time,
                end_time: parts.end_time,
            },
        ),
        at_u64(s, start + 24) == Ok::<(u64, int), ReaderError>((parts.memory, start + 32)),
        section_length(kind, parts) == section_bytes(kind, parts).len(),
        start + section_length(kind, parts) <= s.len(),
        stands_at(section_tail(kind, parts), s, start + 32),
{
    broadcast use lemma_eight_bytes;

    let a = be_bytes(section_length(kind, parts) as u64);
    let b = be_bytes(parts.start_time);
    let c = be_bytes(parts.end_time);
    let d = be_bytes(parts.memory);
    let tail = section_tail(kind, parts);
    lemma_stands(a, b + (c + (d + tail)), s, start);
    lemma_stands(b, c + (d + tail), s, start + 8);
    lemma_stands(c, d + tail, s, start + 16);
    lemma_stands(d, tail, s, start + 24);
    u64_reads_back(section_length(kind, parts) as u64, s, start);
    u64_reads_back(parts.start_time, s, start + 8);
    u64_reads_back(parts.end_time, s, start + 16);
    u64_reads_back(parts.memory, s, start + 24);
}

/// Where the parts of a section stand.
pub proof fn lemma_section_parts(
    kind: DataSectionKind,
    parts: SectionParts,
    s: Seq<u8>,
    start: int,
) -> (end: int)
    requires
        stands_at(section_tail(kind, parts), s, start + 32),
    ensures
        end == changes_start(parts, start) + parts.data.len(),
        stands_at(
            stored_frame(parts.frame_length, parts.frame_signals, parts.frame),
            s,
            start + 32,
        ),
        stands_at(
            leb_encoded(parts.signals as nat),
            s,
            changes_start(parts, start) - leb_encoded(parts.signals as nat).len(),
        ),
        stands_at(parts.data, s, changes_start(parts, start)),
        stands_at(
            table_bytes(kind, parts.items) + be_bytes(
                table_bytes(kind, parts.items).len() as u64,
            ),
            s,
            end,
        ),
        stands_at(
            times_part(parts.times, parts.raw_times),
            s,
            end + table_bytes(kind, parts.items).len() + 8,
        ),
        start + section_length(kind, parts) == end + table_bytes(kind, parts.items).len() + 8
            + parts.raw_times.len() + 24,
{
    broadcast use lemma_eight_bytes;

    let frame = stored_frame(parts.frame_length, parts.frame_signals, parts.frame);
    let count = leb_encoded(parts.signals as nat);
    let bytes = table_bytes(kind, parts.items);
    let table = bytes + be_bytes(bytes.len() as u64);
    let times = times_part(parts.times, parts.raw_times);
    let p = start + 32;
    lemma_stands(frame, count + (parts.data + (table + times)), s, p);
    lemma_stands(count, parts.data + (table + times), s, p + frame.len());
    let at = p + frame.len() + count.len();
    lemma_stands(parts.data, table + times, s, at);
    lemma_stands(table, times, s, at + parts.data.len());
    at + parts.data.len()
}

/// The time table of a section, the end of its frame and the places of the changes
/// read back as they were written.
pub proof fn section_reads_back(
    kind: DataSectionKind,
    parts: SectionParts,
    s: Seq<u8>,
    start: int,
)
    requires
        s.len() <= u64::MAX,
        section_writable(kind, parts),
        stands_at(section_bytes(kind, parts), s, start),
    ensures
        ({
            let length = section_length(kind, parts) as u64;
            let size = (parts.raw_times.len() + 24) as int;
            let frame = stored_frame(parts.frame_length, parts.frame_signals, parts.frame);
            let end = start + 32 + frame.len();
            &&& at_times(s, start, length) == Ok::<TimesView, ReaderError>(
                TimesView { size, times: parts.times },
            )
            &&& frame_end(s, start) == Ok::<int, ReaderError>(end)
            &&& at_changes(s, kind, start, length, size, end) == Ok::<ChangesView, ReaderError>(
                ChangesView {
                    start: changes_start(parts, start),
                    pack: pack_type(parts.data[0]),
                    locs: resolved_all(
                        table_of(parts.items, Seq::empty(), 0, None),
                        parts.data.len() as int,
                    ),
                },
            )
            &&& stands_at(parts.data, s, changes_start(parts, start))
        }),
{
    section_head_reads_back(kind, parts, s, start);
    let end = lemma_section_parts(kind, parts, s, start);
    let at = changes_start(parts, start);
    time_table_reads_back(
        parts.times,
        parts.raw_times,
        s,
        start,
        section_length(kind, parts) as u64,
    );
    frame_head_reads_back(parts.frame_length, parts.frame_signals, parts.frame, s, start);
    variant_u64_reads_back(parts.signals, s, at - leb_encoded(parts.signals as nat).len());
    assert(parts.data[0] == s[at + 0]);
    byte_reads_back(parts.data[0], s, at);
    locations_read_back(kind, parts.items, parts.signals as nat, s, at, end);
}

proof fn lemma_signal_delivered(
    s: Seq<u8>,
    sig: SignalsView,
    place: ChangesView,
    times: Seq<u64>,
    i: int,
    changes: Seq<Written>,
)
    requires
        0 <= i < sig.infos.len() == sig.mask.len(),
        sig.mask[i],
        i < place.locs.len(),
        place.locs[i] matches Some((offset, len)) && at_packed(
            s,
            place.start + offset,
            len,
            place.pack,
        ) == Ok::<Seq<u8>, ReaderError>(changes_bytes(sig.infos[i], sig.endian, changes)),
        changes.len() > 0,
        all_writable(sig.infos[i], changes, 0, times.len()),
    ensures
        signal_changes(s, sig, place, times, i, always()) == written_changes(
            changes,
            0,
            times,
            i,
        ),
{
    let info = sig.infos[i];
    let bytes = changes_bytes(info, sig.endian, changes);
    assert(stands_at(bytes, bytes, 0));
    changes_read_back(info, sig.endian, changes, 0, bytes, 0, times, i);
    lemma_stands(
        change_bytes(info, sig.endian, changes[0]),
        changes_bytes(info, sig.endian, changes.drop_first()),
        bytes,
        0,
    );
    change_reads_back(info, sig.endian, changes[0], bytes, 0);
    assert(located_bytes(s, place, sig.mask, i) == Some(bytes));
}

/// The changes of a signal that were written into a section are what the section
/// delivers of it: each at the time of the step that it was written for.
pub proof fn section_delivers_what_was_written(
    kind: DataSectionKind,
    parts: SectionParts,
    s: Seq<u8>,
    sig: SignalsView,
    section: DataSectionInfo,
    i: int,
    changes: Seq<Written>,
)
    requires
        s.len() <= u64::MAX,
        section_writable(kind, parts),
        section.kind == kind,
        stands_at(section_bytes(kind, parts), s, section.file_offset as int),
        0 <= i < sig.infos.len() == sig.mask.len(),
        sig.mask[i],
        changes.len() > 0,
        all_writable(sig.infos[i], changes, 0, parts.times.len()),
        ({
            let table = table_of(parts.items, Seq::empty(), 0, None);
            let place = resolved(table, i, parts.data.len() as int);
            &&& i < table.len()
            &&& place matches Some((offset, len)) && 0 <= offset <= offset + len
                <= parts.data.len() && stores_changes(
                parts.data[0],
                parts.data.subrange(offset, offset + len),
                changes_bytes(sig.infos[i], sig.endian, changes),
            )
        }),
    ensures
        section_of_signal(s, sig, section, i, always()) == written_changes(
            changes,
            0,
            parts.times,
            i,
        ),
{
    let start = section.file_offset as int;
    let info = sig.infos[i];
    section_head_reads_back(kind, parts, s, start);
    section_reads_back(kind, parts, s, start);
    let table = table_of(parts.items, Seq::empty(), 0, None);
    let (offset, len) = resolved(table, i, parts.data.len() as int)->0;
    let part = parts.data.subrange(offset, offset + len);
    let at = changes_start(parts, start);
    let bytes = changes_bytes(info, sig.endian, changes);
    lemma_part_stands(part, parts.data, offset, s, at);
    stored_changes_read_back(
        parts.data[0],
        part,
        bytes,
        pack_type(parts.data[0]),
        s,
        at + offset,
    );
    let place = ChangesView {
        start: at,
        pack: pack_type(parts.data[0]),
        locs: resolved_all(table, parts.data.len() as int),
    };
    lemma_signal_delivered(s, sig, place, parts.times, i, changes);
}

} // verus!
