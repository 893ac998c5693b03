//! What was written can be read without an error.

use crate::boundary::{
    boundary_values, first_from, firsts_from, firsts_with, section_firsts, with_first,
};
use crate::data::{
    changes_from, initial_state, is_relevant, loaded, section_changes, slot_count, ChangesView,
    SignalsView,
};
use crate::delivery::{lemma_loaded, lemma_turned, loaded_right, located_bytes, proper};
use crate::filter::FilterView;
use crate::laws::changes::{
    all_writable, change_bytes, change_reads_back, changes_bytes, lemma_change_len, Written,
};
use crate::laws::encoding::{lemma_part_stands, lemma_stands, stands_at};
use crate::laws::frames::{
    fits_frame, frame_bytes, initial_values, initial_values_read_back, stores,
};
use crate::laws::sections::{
    changes_start, lemma_section_parts, section_bytes, section_head_reads_back, section_reads_back,
    section_writable, stored_changes_read_back, stores_changes, SectionParts,
};
use crate::laws::tables::table_of;
use crate::locations::{resolved, resolved_all};
use crate::pre_start::{collected, latest, none_found, with_older, Found};
use crate::reader::{
    expanded, pre_start_changes, pre_start_values, selected, signals_read, signals_read_in_range,
    window_of, ReaderView,
};
use crate::section::at_packed;
use crate::types::{pack_type, DataSectionInfo, FloatingPointEndian, ReaderError, SignalInfo};
use crate::values::{at_change, at_delta, ChangeView, ValueView};
use crate::wheel::{bytes_left, delivered, lemma_visited, visited, SectionData, WheelState, Window};
use vstd::prelude::*;

verus! {

/// The changes `held` are those that the bytes tell from `pos` on, the first of them
/// at time step `t`.
pub open spec fn holds_from(
    info: SignalInfo,
    endian: FloatingPointEndian,
    bytes: Seq<u8>,
    pos: int,
    t: int,
    n: nat,
    held: Seq<Written>,
) -> bool {
    &&& held.len() > 0
    &&& held[0].steps <= t
    &&& all_writable(info, held, (t - held[0].steps) as nat, n)
    &&& stands_at(changes_bytes(info, endian, held), bytes, pos)
    &&& pos + changes_bytes(info, endian, held).len() == bytes.len()
}

proof fn lemma_holds_next(
    info: SignalInfo,
    endian: FloatingPointEndian,
    bytes: Seq<u8>,
    pos: int,
    t: int,
    n: nat,
    held: Seq<Written>,
)
    requires
        holds_from(info, endian, bytes, pos, t, n, held),
    ensures
        t < n,
        at_delta(info, bytes, pos) matches Ok(delta) && delta == held[0].steps,
        at_change(info, endian, bytes, pos) matches Ok((_, next)) && (if held.len() == 1 {
            next == bytes.len()
        } else {
            &&& next < bytes.len()
            &&& at_delta(info, bytes, next) matches Ok(delta) && holds_from(
                info,
                endian,
                bytes,
                next,
                t + delta,
                n,
                held.drop_first(),
            ) && t + delta < n
        }),
{
    let rest = held.drop_first();
    let first = change_bytes(info, endian, held[0]);
    let others = changes_bytes(info, endian, rest);
    lemma_stands(first, others, bytes, pos);
    change_reads_back(info, endian, held[0], bytes, pos);
    let next = pos + first.len();
    assert(all_writable(info, rest, t as nat, n));
    if held.len() > 1 {
        lemma_change_len(info, endian, rest[0]);
        lemma_stands(
            change_bytes(info, endian, rest[0]),
            changes_bytes(info, endian, rest.drop_first()),
            bytes,
            next,
        );
        change_reads_back(info, endian, rest[0], bytes, next);
    }
}

/// Every signal that waits in the wheel has changes that can be read.
pub open spec fn all_hold(
    d: SectionData,
    w: WheelState,
    n: nat,
    held: Seq<Seq<Written>>,
) -> bool {
    forall|u: int, i: int|
        0 <= u < w.slots.len() && #[trigger] w.slots[u].contains(i) ==> holds_from(
            d.infos[i],
            d.endian,
            d.bytes[i],
            w.pos[i],
            u,
            n,
            held[i],
        )
}

proof fn lemma_visit_holds(
    d: SectionData,
    w: WheelState,
    t: int,
    time: u64,
    n: nat,
    held: Seq<Seq<Written>>,
)
    requires
        proper(w),
        0 <= t < w.slots.len(),
        n <= w.slots.len(),
        w.slots[t].len() > 0,
        held.len() == w.pos.len(),
        all_hold(d, w, n, held),
    ensures
        visited(d, w, t, time).1 matches Ok(w2) && proper(w2) && w2.slots.len() == w.slots.len()
            && w2.pos.len() == w.pos.len() && all_hold(
            d,
            w2,
            n,
            held.update(w.slots[t][0], held[w.slots[t][0]].drop_first()),
        ),
{
    let i = w.slots[t][0];
    assert(w.slots[t].contains(i));
    assert(0 <= i < w.pos.len());
    lemma_holds_next(d.infos[i], d.endian, d.bytes[i], w.pos[i], t, n, held[i]);
    assert(visited(d, w, t, time).1 is Ok) by {
        reveal(visited);
    }
    lemma_turned(d, w, t, time);
    let w2 = visited(d, w, t, time).1->Ok_0;
    let (value, next) = at_change(d.infos[i], d.endian, d.bytes[i], w.pos[i])->Ok_0;
    let after = held.update(i, held[i].drop_first());
    assert forall|u: int, j: int|
        0 <= u < w2.slots.len() && #[trigger] w2.slots[u].contains(j) implies holds_from(
        d.infos[j],
        d.endian,
        d.bytes[j],
        w2.pos[j],
        u,
        n,
        after[j],
    ) by {
        if j != i {
            assert(w.slots[u].contains(j));
            let k = choose|k: int| 0 <= k < w.slots[u].len() && w.slots[u][k] == j;
            assert(0 <= w.slots[u][k] < w.pos.len());
        } else {
            assert(next < d.bytes[i].len());
            let delta = at_delta(d.infos[i], d.bytes[i], next)->Ok_0;
            let v = t + delta;
            assert(w2.slots[v].contains(i));
            let a = choose|a: int| 0 <= a < w2.slots[u].len() && w2.slots[u][a] == i;
            let b = choose|b: int| 0 <= b < w2.slots[v].len() && w2.slots[v][b] == i;
            assert(w2.slots[u][a] == w2.slots[v][b]);
            assert(u == v);
        }
    }
}

proof fn lemma_delivered_whole(
    d: SectionData,
    w: WheelState,
    times: Seq<u64>,
    t: int,
    window: Window,
    held: Seq<Seq<Written>>,
)
    requires
        proper(w),
        0 <= t,
        times.len() <= w.slots.len(),
        held.len() == w.pos.len(),
        all_hold(d, w, times.len(), held),
    ensures
        delivered(d, w, times, t, window).1 is Ok,
    decreases times.len() - t, bytes_left(d.bytes, w.pos, w.pos.len()),
{
    if t >= times.len() || window.is_past(times[t]) {
    } else if w.slots[t].len() == 0 {
        lemma_delivered_whole(d, w, times, t + 1, window, held);
    } else {
        let i = w.slots[t][0];
        lemma_visited(d, w, t, times[t]);
        lemma_visit_holds(d, w, t, times[t], times.len(), held);
        let w2 = visited(d, w, t, times[t]).1->Ok_0;
        lemma_delivered_whole(
            d,
            w2,
            times,
            t,
            window,
            held.update(i, held[i].drop_first()),
        );
    }
}

/// The changes of signal `i` in a section are the ones that were written for it.
pub open spec fn place_holds(
    s: Seq<u8>,
    sig: SignalsView,
    place: ChangesView,
    n: nat,
    held: Seq<Seq<Written>>,
    i: int,
) -> bool {
    sig.mask[i] && i < place.locs.len() ==> (place.locs[i] matches Some((offset, len)) ==> {
        &&& held[i].len() > 0
        &&& all_writable(sig.infos[i], held[i], 0, n)
        &&& at_packed(s, place.start + offset, len, place.pack) == Ok::<Seq<u8>, ReaderError>(
            changes_bytes(sig.infos[i], sig.endian, held[i]),
        )
    })
}

proof fn lemma_first_holds(
    info: SignalInfo,
    endian: FloatingPointEndian,
    n: nat,
    held: Seq<Written>,
)
    requires
        held.len() > 0,
        all_writable(info, held, 0, n),
    ensures
        holds_from(
            info,
            endian,
            changes_bytes(info, endian, held),
            0,
            held[0].steps as int,
            n,
            held,
        ),
        at_delta(info, changes_bytes(info, endian, held), 0) matches Ok(delta) && delta
            == held[0].steps,
{
    let bytes = changes_bytes(info, endian, held);
    assert(stands_at(bytes, bytes, 0));
    lemma_holds_next(info, endian, bytes, 0, held[0].steps as int, n, held);
}

proof fn lemma_loads(
    s: Seq<u8>,
    sig: SignalsView,
    place: ChangesView,
    slots: nat,
    n: nat,
    held: Seq<Seq<Written>>,
    k: nat,
)
    requires
        k <= sig.infos.len() == sig.mask.len() == held.len(),
        forall|i: int|
            0 <= i < sig.infos.len() ==> #[trigger] place_holds(s, sig, place, n, held, i),
    ensures
        loaded(s, place, sig.infos, sig.mask, slots, k) is Ok,
    decreases k,
{
    if k > 0 {
        lemma_loads(s, sig, place, slots, n, held, (k - 1) as nat);
        let i = k - 1;
        assert(place_holds(s, sig, place, n, held, i));
        if sig.mask[i] && i < place.locs.len() && place.locs[i] is Some {
            lemma_first_holds(sig.infos[i], sig.endian, n, held[i]);
        }
    }
}

proof fn lemma_starts_whole(
    s: Seq<u8>,
    sig: SignalsView,
    place: ChangesView,
    times: Seq<u64>,
    window: Window,
    held: Seq<Seq<Written>>,
)
    requires
        sig.infos.len() == sig.mask.len() == held.len(),
        forall|i: int|
            0 <= i < sig.infos.len() ==> #[trigger] place_holds(
                s,
                sig,
                place,
                times.len(),
                held,
                i,
            ),
    ensures
        loaded(
            s,
            place,
            sig.infos,
            sig.mask,
            slot_count(times.len()),
            sig.infos.len(),
        ) matches Ok(load) && delivered(
            SectionData { infos: sig.infos, endian: sig.endian, bytes: load.bytes },
            initial_state(load),
            times,
            0,
            window,
        ).1 is Ok,
{
    let slots = slot_count(times.len());
    let n = sig.infos.len();
    lemma_loads(s, sig, place, slots, times.len(), held, n);
    lemma_loaded(s, place, sig.infos, sig.mask, slots, n);
    let load = loaded(s, place, sig.infos, sig.mask, slots, n)->Ok_0;
    let d = SectionData { infos: sig.infos, endian: sig.endian, bytes: load.bytes };
    let w = initial_state(load);
    assert forall|u: int, i: int|
        0 <= u < w.slots.len() && #[trigger] w.slots[u].contains(i) implies holds_from(
        d.infos[i],
        d.endian,
        d.bytes[i],
        w.pos[i],
        u,
        times.len(),
        held[i],
    ) by {
        assert(0 <= i < n && sig.mask[i]);
        assert(loaded_right(s, place, sig.infos, sig.mask, load, i));
        assert(place_holds(s, sig, place, times.len(), held, i));
        assert(located_bytes(s, place, sig.mask, i) is Some);
        lemma_first_holds(sig.infos[i], sig.endian, times.len(), held[i]);
    }
    lemma_delivered_whole(d, w, times, 0, window, held);
}

/// The places of a section hold the changes that were written: `held` has those of
/// each signal.
pub open spec fn section_holds(
    parts: SectionParts,
    sig: SignalsView,
    held: Seq<Seq<Written>>,
) -> bool {
    let table = table_of(parts.items, Seq::empty(), 0, None);
    &&& held.len() == sig.infos.len()
    &&& forall|i: int|
        0 <= i < sig.infos.len() && i < table.len() && sig.mask[i] ==> (#[trigger] resolved(
            table,
            i,
            parts.data.len() as int,
        ) matches Some((offset, len)) ==> {
            &&& 0 <= offset <= offset + len <= parts.data.len()
            &&& held[i].len() > 0
            &&& all_writable(sig.infos[i], held[i], 0, parts.times.len())
            &&& stores_changes(
                parts.data[0],
                parts.data.subrange(offset, offset + len),
                changes_bytes(sig.infos[i], sig.endian, held[i]),
            )
        })
}

/// A section is the one that was written, and is known as such.
pub open spec fn section_is(s: Seq<u8>, section: DataSectionInfo, parts: SectionParts) -> bool {
    &&& section_writable(section.kind, parts)
    &&& section.start_time == parts.start_time
    &&& section.end_time == parts.end_time
    &&& stands_at(section_bytes(section.kind, parts), s, section.file_offset as int)
}

/// Where the changes of a section are that was written at `start`.
pub open spec fn place_of(parts: SectionParts, start: int) -> ChangesView {
    ChangesView {
        start: changes_start(parts, start),
        pack: pack_type(parts.data[0]),
        locs: resolved_all(
            table_of(parts.items, Seq::empty(), 0, None),
            parts.data.len() as int,
        ),
    }
}

proof fn lemma_places_hold(
    s: Seq<u8>,
    sig: SignalsView,
    section: DataSectionInfo,
    parts: SectionParts,
    held: Seq<Seq<Written>>,
)
    requires
        s.len() <= u64::MAX,
        sig.infos.len() == sig.mask.len(),
        section_is(s, section, parts),
        section_holds(parts, sig, held),
    ensures
        forall|i: int|
            0 <= i < sig.infos.len() ==> #[trigger] place_holds(
                s,
                sig,
                place_of(parts, section.file_offset as int),
                parts.times.len(),
                held,
                i,
            ),
{
    let start = section.file_offset as int;
    section_reads_back(section.kind, parts, s, start);
    let table = table_of(parts.items, Seq::empty(), 0, None);
    let place = place_of(parts, start);
    let n = parts.times.len();
    assert forall|i: int| 0 <= i < sig.infos.len() implies #[trigger] place_holds(
        s,
        sig,
        place,
        n,
        held,
        i,
    ) by {
        if sig.mask[i] && i < place.locs.len() && place.locs[i] is Some {
            let found = resolved(table, i, parts.data.len() as int);
            assert(place.locs[i] == found);
            let (offset, len) = found->0;
            let part = parts.data.subrange(offset, offset + len);
            lemma_part_stands(part, parts.data, offset, s, place.start);
            stored_changes_read_back(
                parts.data[0],
                part,
                changes_bytes(sig.infos[i], sig.endian, held[i]),
                pack_type(parts.data[0]),
                s,
                place.start + offset,
            );
        }
    }
}

/// A section is read to its end without an error, whatever the window, if all the
/// changes in it are such as can be written.
pub proof fn written_sections_are_read(
    s: Seq<u8>,
    sig: SignalsView,
    section: DataSectionInfo,
    parts: SectionParts,
    held: Seq<Seq<Written>>,
    window: Window,
)
    requires
        s.len() <= u64::MAX,
        sig.infos.len() == sig.mask.len(),
        section_is(s, section, parts),
        section_holds(parts, sig, held),
    ensures
        section_changes(s, sig, section, window).1 is Ok,
{
    let start = section.file_offset as int;
    section_head_reads_back(section.kind, parts, s, start);
    section_reads_back(section.kind, parts, s, start);
    lemma_places_hold(s, sig, section, parts, held);
    lemma_starts_whole(s, sig, place_of(parts, start), parts.times, window, held);
}

/// The initial values of a section are such as can be written.
pub open spec fn frame_holds(
    parts: SectionParts,
    sig: SignalsView,
    values: Seq<ValueView>,
) -> bool {
    let bytes = frame_bytes(sig.endian, values);
    &&& values.len() <= sig.infos.len() <= u64::MAX
    &&& forall|j: int| 0 <= j < values.len() ==> fits_frame(sig.infos[j], #[trigger] values[j])
    &&& bytes.len() <= u64::MAX
    &&& parts.frame_length == bytes.len()
    &&& parts.frame_signals == values.len()
    &&& stores(parts.frame, bytes)
}

/// What a section tells of the values before a time is found without an error: its
/// initial values, if they count, and the changes in front of that time.
pub proof fn written_sections_are_collected(
    s: Seq<u8>,
    sig: SignalsView,
    section: DataSectionInfo,
    parts: SectionParts,
    held: Seq<Seq<Written>>,
    values: Seq<ValueView>,
    with_frame: bool,
    window: Window,
)
    requires
        s.len() <= u64::MAX,
        sig.infos.len() == sig.mask.len(),
        section_is(s, section, parts),
        section_holds(parts, sig, held),
        frame_holds(parts, sig, values),
    ensures
        collected(s, sig, section, with_frame, window) == Ok::<Seq<ChangeView>, ReaderError>(
            (if with_frame && (parts.times.len() == 0 || parts.times[0] > parts.start_time) {
                initial_values(sig.infos, values, sig.mask, 0, parts.start_time)
            } else {
                Seq::empty()
            }) + section_changes(s, sig, section, window).0,
        ),
{
    let kind = section.kind;
    let start = section.file_offset as int;
    section_head_reads_back(kind, parts, s, start);
    section_reads_back(kind, parts, s, start);
    lemma_section_parts(kind, parts, s, start);
    initial_values_read_back(
        sig.infos,
        sig.endian,
        values,
        sig.mask,
        parts.start_time,
        parts.frame,
        s,
        start,
    );
    written_sections_are_read(s, sig, section, parts, held, window);
}

/// The latest values are found without an error if every section can be read.
pub proof fn latest_values_are_found(
    s: Seq<u8>,
    sig: SignalsView,
    sections: Seq<DataSectionInfo>,
    k: nat,
    found: Found,
    min_time: u64,
    window: Window,
    initial: bool,
)
    requires
        k <= sections.len(),
        forall|j: int, with_frame: bool|
            0 <= j < sections.len() ==> (#[trigger] collected(
                s,
                sig,
                sections[j],
                with_frame,
                window,
            )) is Ok,
    ensures
        latest(s, sig, sections, k, found, min_time, window, initial) is Ok,
    decreases k,
{
    if k > 0 {
        let i = k - 1;
        assert(collected(s, sig, sections[i], initial && i == 0, window) is Ok);
        let changes = collected(s, sig, sections[i], initial && i == 0, window)->Ok_0;
        let now = with_older(found, changes);
        latest_values_are_found(s, sig, sections, i as nat, now, min_time, window, initial);
        latest_values_are_found(s, sig, sections, i as nat, found, min_time, window, initial);
    }
}

proof fn lemma_first_found(
    info: SignalInfo,
    endian: FloatingPointEndian,
    bytes: Seq<u8>,
    pos: int,
    step: nat,
    times: Seq<u64>,
    n: nat,
    held: Seq<Written>,
    start: u64,
    end: u64,
)
    requires
        held.len() > 0 ==> holds_from(
            info,
            endian,
            bytes,
            pos,
            (step + held[0].steps) as int,
            n,
            held,
        ),
        held.len() == 0 ==> pos == bytes.len(),
    ensures
        first_from(info, endian, bytes, pos, step as int, times, start, end) is Ok,
    decreases held.len(),
{
    if held.len() > 0 {
        let rest = held.drop_first();
        let now = step + held[0].steps;
        lemma_holds_next(info, endian, bytes, pos, now as int, n, held);
        lemma_stands(
            change_bytes(info, endian, held[0]),
            changes_bytes(info, endian, rest),
            bytes,
            pos,
        );
        change_reads_back(info, endian, held[0], bytes, pos);
        let next = pos + change_bytes(info, endian, held[0]).len();
        lemma_first_found(info, endian, bytes, next, now, times, n, rest, start, end);
    }
}

proof fn lemma_firsts_found(
    s: Seq<u8>,
    sig: SignalsView,
    place: ChangesView,
    times: Seq<u64>,
    held: Seq<Seq<Written>>,
    start: u64,
    end: u64,
    found: Found,
    k: int,
)
    requires
        0 <= k,
        sig.infos.len() == sig.mask.len() == held.len(),
        forall|i: int|
            0 <= i < sig.infos.len() ==> #[trigger] place_holds(
                s,
                sig,
                place,
                times.len(),
                held,
                i,
            ),
    ensures
        section_firsts(s, sig, place, times, start, end, found, k) is Ok,
    decreases sig.infos.len() - k,
{
    if k < sig.infos.len() {
        assert(place_holds(s, sig, place, times.len(), held, k));
        if sig.mask[k] && k < place.locs.len() && place.locs[k] is Some {
            let bytes = changes_bytes(sig.infos[k], sig.endian, held[k]);
            lemma_first_holds(sig.infos[k], sig.endian, times.len(), held[k]);
            lemma_first_found(
                sig.infos[k],
                sig.endian,
                bytes,
                0,
                0,
                times,
                times.len(),
                held[k],
                start,
                end,
            );
        }
        let now = with_first(s, sig, place, times, start, end, found, k)->Ok_0;
        lemma_firsts_found(s, sig, place, times, held, start, end, now, k + 1);
    }
}

/// The first values in a section are found without an error, if all the changes in
/// it are such as can be written.
pub proof fn written_sections_are_searched(
    s: Seq<u8>,
    sig: SignalsView,
    section: DataSectionInfo,
    parts: SectionParts,
    held: Seq<Seq<Written>>,
    start: u64,
    end: u64,
    found: Found,
)
    requires
        s.len() <= u64::MAX,
        sig.infos.len() == sig.mask.len(),
        section_is(s, section, parts),
        section_holds(parts, sig, held),
    ensures
        firsts_with(s, sig, section, start, end, found) is Ok,
{
    let at = section.file_offset as int;
    section_head_reads_back(section.kind, parts, s, at);
    section_reads_back(section.kind, parts, s, at);
    let place = place_of(parts, at);
    lemma_places_hold(s, sig, section, parts, held);
    lemma_firsts_found(s, sig, place, parts.times, held, start, end, found, 0);
}

/// The first values are found without an error if every section can be searched.
pub proof fn first_values_are_found(
    s: Seq<u8>,
    sig: SignalsView,
    sections: Seq<DataSectionInfo>,
    k: int,
    start: u64,
    end: u64,
    found: Found,
)
    requires
        0 <= k,
        forall|j: int, found: Found|
            0 <= j < sections.len() ==> (#[trigger] firsts_with(
                s,
                sig,
                sections[j],
                start,
                end,
                found,
            )) is Ok,
    ensures
        firsts_from(s, sig, sections, k, start, end, found) is Ok,
    decreases sections.len() - k,
{
    if k < sections.len() {
        assert(firsts_with(s, sig, sections[k], start, end, found) is Ok);
        let now = firsts_with(s, sig, sections[k], start, end, found)->Ok_0;
        first_values_are_found(s, sig, sections, k + 1, start, end, now);
        first_values_are_found(s, sig, sections, k + 1, start, end, found);
    }
}

/// Sections are read one after the other to the last if those that touch the window
/// can be read.
pub proof fn readable_sections_are_read(
    s: Seq<u8>,
    sig: SignalsView,
    sections: Seq<DataSectionInfo>,
    k: int,
    window: Window,
)
    requires
        0 <= k,
        forall|j: int|
            0 <= j < sections.len() && is_relevant(#[trigger] sections[j], window.start, window.end)
                ==> section_changes(s, sig, sections[j], window).1 is Ok,
    ensures
        changes_from(s, sig, sections, k, window).1 is Ok,
    decreases sections.len() - k,
{
    if k < sections.len() {
        readable_sections_are_read(s, sig, sections, k + 1, window);
    }
}

/// Signals are read without an error if the sections that touch the window can be read.
pub proof fn readable_files_are_read(view: ReaderView, filter: FilterView)
    requires
        !filter.include_pre_start,
        forall|j: int, window: Window|
            0 <= j < view.meta.data_sections.len() ==> (#[trigger] section_changes(
                view.data,
                selected(view, filter),
                view.meta.data_sections[j],
                window,
            )).1 is Ok,
    ensures
        signals_read(view, filter).1 is Ok,
        signals_read_in_range(view, filter).1 is Ok,
{
    let sig = selected(view, filter);
    let sections = view.meta.data_sections;
    readable_sections_are_read(view.data, sig, sections, 0, window_of(view, filter));
    if let Some(wide) = expanded(view, filter) {
        readable_sections_are_read(view.data, sig, sections, 0, wide);
    }
}

/// Values before a time, and those at the ends of a range, are found without an error
/// if every section can be searched.
pub proof fn readable_files_are_searched(
    view: ReaderView,
    filter: FilterView,
    include_target: bool,
)
    requires
        forall|j: int, with_frame: bool, window: Window|
            0 <= j < view.meta.data_sections.len() ==> (#[trigger] collected(
                view.data,
                selected(view, filter),
                view.meta.data_sections[j],
                with_frame,
                window,
            )) is Ok,
        forall|j: int, start: u64, end: u64, found: Found|
            0 <= j < view.meta.data_sections.len() ==> (#[trigger] firsts_with(
                view.data,
                selected(view, filter),
                view.meta.data_sections[j],
                start,
                end,
                found,
            )) is Ok,
    ensures
        pre_start_values(view, filter, include_target) is Ok,
        pre_start_changes(view, selected(view, filter), filter.start) is Ok,
        boundary_values(
            view.data,
            selected(view, filter),
            view.meta.data_sections,
            filter.start,
            filter.end_in(view.meta.header.end_time),
        ) is Ok,
{
    let s = view.data;
    let sig = selected(view, filter);
    let sections = view.meta.data_sections;
    let n = sections.len();
    let none = none_found(sig.infos.len());
    let start = filter.start;
    let end = filter.end_in(view.meta.header.end_time);
    let target = Window { start: 0, end, include_end: include_target };
    let before = Window { start: 0, end: start, include_end: false };
    let whole = Window { start: 0, end, include_end: true };
    latest_values_are_found(s, sig, sections, n, none, start, target, true);
    latest_values_are_found(s, sig, sections, n, none, 0, before, true);
    latest_values_are_found(s, sig, sections, n, none, start, whole, false);
    first_values_are_found(s, sig, sections, 0, start, end, none);
}

} // verus!
