//! What a time wheel delivers, told signal by signal.

use crate::data::{
    at_changes, changes_behind, initial_state, loaded, slot_count, with_signal, ChangesView,
    LoadedView, SignalsView,
};
use crate::section::{at_packed, TimesView};
use crate::types::{DataSectionKind, FloatingPointEndian, SignalInfo};
use crate::values::{at_change, at_delta, lemma_at_change_bounds, ChangeView};
use crate::wheel::{
    bytes_left, delivered, lemma_append_nothing, lemma_visited, shown, turned, visited,
    SectionData, WheelState, Window,
};
use vstd::prelude::*;

verus! {

/// The changes of one signal, in the same order.
pub open spec fn of_signal(changes: Seq<ChangeView>, signal: int) -> Seq<ChangeView>
    decreases changes.len(),
{
    if changes.len() == 0 {
        Seq::empty()
    } else {
        let before = of_signal(changes.drop_last(), signal);
        if changes.last().signal == signal {
            before.push(changes.last())
        } else {
            before
        }
    }
}

/// The changes in `window` that the packed `bytes` of `signal` tell, from the one
/// on that begins at `pos` and comes at time step `t`.
pub open spec fn chain(
    info: SignalInfo,
    endian: FloatingPointEndian,
    bytes: Seq<u8>,
    signal: int,
    pos: int,
    t: int,
    times: Seq<u64>,
    window: Window,
) -> Seq<ChangeView>
    decreases bytes.len() - pos,
    via chain_decreases
{
    if t >= times.len() || window.is_past(times[t]) {
        Seq::empty()
    } else {
        match at_change(info, endian, bytes, pos) {
            Err(_) => Seq::empty(),
            Ok((value, next)) => shown(
                seq![ChangeView { time: times[t], signal, value }],
                times[t],
                window.start,
            ) + (if next >= bytes.len() {
                Seq::empty()
            } else {
                match at_delta(info, bytes, next) {
                    Err(_) => Seq::empty(),
                    Ok(delta) => chain(
                        info,
                        endian,
                        bytes,
                        signal,
                        next,
                        t + delta,
                        times,
                        window,
                    ),
                }
            }),
        }
    }
}

#[via_fn]
proof fn chain_decreases(
    info: SignalInfo,
    endian: FloatingPointEndian,
    bytes: Seq<u8>,
    signal: int,
    pos: int,
    t: int,
    times: Seq<u64>,
    window: Window,
) {
    lemma_at_change_bounds(info, endian, bytes, pos);
}

/// The times never go back.
pub open spec fn sorted(times: Seq<u64>) -> bool {
    forall|i: int, j: int| 0 <= i <= j < times.len() ==> times[i] <= times[j]
}

/// Each signal is in one place at most, and is one of those that have a position.
pub open spec fn proper(w: WheelState) -> bool {
    &&& forall|t: int, k: int|
        0 <= t < w.slots.len() && 0 <= k < w.slots[t].len() ==> 0 <= #[trigger] w.slots[t][k]
            < w.pos.len()
    &&& forall|t: int, k: int, u: int, j: int|
        0 <= t < w.slots.len() && 0 <= k < w.slots[t].len() && 0 <= u < w.slots.len() && 0 <= j
            < w.slots[u].len() && (t != u || k != j) ==> #[trigger] w.slots[t][k]
            != #[trigger] w.slots[u][j]
}

pub proof fn lemma_of_signal_append(a: Seq<ChangeView>, b: Seq<ChangeView>, signal: int)
    ensures
        of_signal(a + b, signal) == of_signal(a, signal) + of_signal(b, signal),
    decreases b.len(),
{
    if b.len() == 0 {
        lemma_append_nothing(a);
        assert(b =~= Seq::empty());
        lemma_append_nothing(of_signal(a, signal));
    } else {
        assert((a + b).drop_last() =~= a + b.drop_last());
        assert((a + b).last() == b.last());
        lemma_of_signal_append(a, b.drop_last(), signal);
        let x = of_signal(a, signal);
        let y = of_signal(b.drop_last(), signal);
        if b.last().signal == signal {
            assert((x + y).push(b.last()) =~= x + y.push(b.last()));
        }
    }
}

pub proof fn lemma_of_signal_one(c: ChangeView, signal: int)
    ensures
        of_signal(seq![c], signal) == (if c.signal == signal {
            seq![c]
        } else {
            Seq::empty()
        }),
{
    assert(seq![c].drop_last() =~= Seq::empty());
    reveal_with_fuel(of_signal, 2);
    assert(Seq::<ChangeView>::empty().push(c) =~= seq![c]);
}

/// Where the entries of the lists go when the first signal at time step `t` moves on.
pub proof fn lemma_turned(d: SectionData, w: WheelState, t: int, time: u64)
    requires
        proper(w),
        0 <= t < w.slots.len(),
        w.slots[t].len() > 0,
        visited(d, w, t, time).1 is Ok,
    ensures
        ({
            let i = w.slots[t][0];
            let w2 = visited(d, w, t, time).1->Ok_0;
            let (value, next) = at_change(d.infos[i], d.endian, d.bytes[i], w.pos[i])->Ok_0;
            &&& at_change(d.infos[i], d.endian, d.bytes[i], w.pos[i]) is Ok
            &&& visited(d, w, t, time).0 == seq![ChangeView { time, signal: i, value }]
            &&& proper(w2)
            &&& w2.slots.len() == w.slots.len()
            &&& w2.pos == w.pos.update(i, next)
            &&& forall|u: int, j: int|
                0 <= u < w.slots.len() && j != i ==> (#[trigger] w2.slots[u].contains(j)
                    <==> w.slots[u].contains(j))
            &&& next < d.bytes[i].len() ==> {
                let delta = at_delta(d.infos[i], d.bytes[i], next)->Ok_0;
                &&& at_delta(d.infos[i], d.bytes[i], next) is Ok
                &&& t + delta < w.slots.len()
                &&& w2.slots[t + delta].contains(i)
            }
            &&& next >= d.bytes[i].len() ==> forall|u: int|
                0 <= u < w.slots.len() ==> !(#[trigger] w2.slots[u].contains(i))
        }),
{
    reveal(visited);
    let i = w.slots[t][0];
    let (value, next) = at_change(d.infos[i], d.endian, d.bytes[i], w.pos[i])->Ok_0;
    let w2 = turned(d, w, t, next)->Ok_0;
    let popped = w.slots.update(t, w.slots[t].drop_first());
    assert forall|u: int, k: int| 0 <= u < popped.len() && 0 <= k < popped[u].len() implies (
    #[trigger] popped[u][k]) == w.slots[u][if u == t { k + 1 } else { k }] by {}
    assert forall|u: int, k: int| 0 <= u < popped.len() && 0 <= k < popped[u].len() implies (
    #[trigger] popped[u][k]) != i by {
        assert(popped[u][k] == w.slots[u][if u == t { k + 1 } else { k }]);
        assert(w.slots[t][0] == i);
    }
    assert forall|u: int, j: int| 0 <= u < w.slots.len() && j != i implies (
    #[trigger] popped[u].contains(j) <==> w.slots[u].contains(j)) by {
        if popped[u].contains(j) {
            let k = choose|k: int| 0 <= k < popped[u].len() && popped[u][k] == j;
            assert(popped[u][k] == w.slots[u][if u == t { k + 1 } else { k }]);
        }
        if w.slots[u].contains(j) {
            let k = choose|k: int| 0 <= k < w.slots[u].len() && w.slots[u][k] == j;
            if u == t {
                assert(k != 0);
                assert(popped[u][k - 1] == j);
            } else {
                assert(popped[u][k] == j);
            }
        }
    }
    if next >= d.bytes[i].len() {
        assert(w2.slots == popped);
        assert forall|u: int| 0 <= u < w.slots.len() implies !(#[trigger] w2.slots[u].contains(
            i,
        )) by {}
    } else {
        let delta = at_delta(d.infos[i], d.bytes[i], next)->Ok_0;
        let v = t + delta;
        let after = popped.update(v, seq![i] + popped[v]);
        assert(w2.slots == after);
        assert forall|u: int, k: int| 0 <= u < after.len() && 0 <= k < after[u].len() implies (
        #[trigger] after[u][k]) == (if u == v && k == 0 {
            i
        } else {
            popped[u][if u == v { k - 1 } else { k }]
        }) by {}
        assert(after[v][0] == i);
        assert forall|u: int, j: int| 0 <= u < w.slots.len() && j != i implies (
        #[trigger] after[u].contains(j) <==> popped[u].contains(j)) by {
            if after[u].contains(j) {
                let k = choose|k: int| 0 <= k < after[u].len() && after[u][k] == j;
                assert(after[u][k] == popped[u][if u == v { k - 1 } else { k }]);
            }
            if popped[u].contains(j) {
                let k = choose|k: int| 0 <= k < popped[u].len() && popped[u][k] == j;
                assert(after[u][if u == v { k + 1 } else { k }] == j);
            }
        }
    }
}

/// A signal that waits at time step `u` delivers all its changes in the window
/// from there on.
pub proof fn lemma_waiting(
    d: SectionData,
    w: WheelState,
    times: Seq<u64>,
    t: int,
    window: Window,
    signal: int,
    u: int,
)
    requires
        proper(w),
        sorted(times),
        times.len() <= w.slots.len(),
        0 <= t <= u < w.slots.len(),
        w.slots[u].contains(signal),
        delivered(d, w, times, t, window).1 is Ok,
    ensures
        of_signal(delivered(d, w, times, t, window).0, signal) == chain(
            d.infos[signal],
            d.endian,
            d.bytes[signal],
            signal,
            w.pos[signal],
            u,
            times,
            window,
        ),
    decreases times.len() - t, bytes_left(d.bytes, w.pos, w.pos.len()),
{
    if t >= times.len() {
    } else if window.is_past(times[t]) {
        assert(u < times.len() ==> times[t] <= times[u]);
    } else if w.slots[t].len() == 0 {
        lemma_waiting(d, w, times, t + 1, window, signal, u);
    } else {
        lemma_visited(d, w, t, times[t]);
        lemma_turned(d, w, t, times[t]);
        let i = w.slots[t][0];
        let w2 = visited(d, w, t, times[t]).1->Ok_0;
        let change = visited(d, w, t, times[t]).0;
        let front = shown(change, times[t], window.start);
        let rest = delivered(d, w2, times, t, window).0;
        let (value, next) = at_change(d.infos[i], d.endian, d.bytes[i], w.pos[i])->Ok_0;
        lemma_of_signal_append(front, rest, signal);
        lemma_of_signal_one(change[0], signal);
        assert(change =~= seq![change[0]]);
        if signal == i {
            assert(u == t) by {
                let k = choose|k: int| 0 <= k < w.slots[u].len() && w.slots[u][k] == signal;
                assert(w.slots[u][k] == w.slots[t][0]);
            }
            if next < d.bytes[i].len() {
                let delta = at_delta(d.infos[i], d.bytes[i], next)->Ok_0;
                lemma_waiting(d, w2, times, t, window, signal, t + delta);
            } else {
                lemma_absent(d, w2, times, t, window, signal);
            }
        } else {
            assert(w2.slots[u].contains(signal));
            lemma_waiting(d, w2, times, t, window, signal, u);
            lemma_append_nothing(of_signal(rest, signal));
            assert(w2.pos[signal] == w.pos[signal]) by {
                let k = choose|k: int| 0 <= k < w.slots[u].len() && w.slots[u][k] == signal;
                assert(0 <= w.slots[u][k] < w.pos.len());
            }
        }
    }
}

/// A signal that waits nowhere delivers nothing.
pub proof fn lemma_absent(
    d: SectionData,
    w: WheelState,
    times: Seq<u64>,
    t: int,
    window: Window,
    signal: int,
)
    requires
        proper(w),
        sorted(times),
        times.len() <= w.slots.len(),
        0 <= t,
        forall|u: int|
            t <= u < w.slots.len() && #[trigger] w.slots[u].contains(signal) ==> u >= times.len(),
        delivered(d, w, times, t, window).1 is Ok,
    ensures
        of_signal(delivered(d, w, times, t, window).0, signal) == Seq::<ChangeView>::empty(),
    decreases times.len() - t, bytes_left(d.bytes, w.pos, w.pos.len()),
{
    if t >= times.len() {
    } else if window.is_past(times[t]) {
    } else if w.slots[t].len() == 0 {
        lemma_absent(d, w, times, t + 1, window, signal);
    } else {
        lemma_visited(d, w, t, times[t]);
        lemma_turned(d, w, t, times[t]);
        let i = w.slots[t][0];
        let w2 = visited(d, w, t, times[t]).1->Ok_0;
        let change = visited(d, w, t, times[t]).0;
        let front = shown(change, times[t], window.start);
        let rest = delivered(d, w2, times, t, window).0;
        assert(w.slots[t].contains(i));
        assert(signal != i);
        lemma_of_signal_append(front, rest, signal);
        lemma_of_signal_one(change[0], signal);
        assert(change =~= seq![change[0]]);
        assert forall|u: int| t <= u < w2.slots.len() && #[trigger] w2.slots[u].contains(signal)
            implies u >= times.len() by {
            assert(w.slots[u].contains(signal));
        }
        lemma_absent(d, w2, times, t, window, signal);
        lemma_append_nothing(of_signal(rest, signal));
    }
}

/// The unpacked changes of a signal, if it is selected and has any.
pub open spec fn located_bytes(s: Seq<u8>, place: ChangesView, mask: Seq<bool>, i: int) -> Option<
    Seq<u8>,
> {
    if !mask[i] || i >= place.locs.len() {
        None
    } else {
        match place.locs[i] {
            None => None,
            Some((offset, len)) => match at_packed(s, place.start + offset, len, place.pack) {
                Err(_) => None,
                Ok(bytes) => Some(bytes),
            },
        }
    }
}

/// What signal `i` delivers in a section: all its changes in the window.
pub open spec fn signal_changes(
    s: Seq<u8>,
    sig: SignalsView,
    place: ChangesView,
    times: Seq<u64>,
    i: int,
    window: Window,
) -> Seq<ChangeView> {
    match located_bytes(s, place, sig.mask, i) {
        None => Seq::empty(),
        Some(bytes) => match at_delta(sig.infos[i], bytes, 0) {
            Err(_) => Seq::empty(),
            Ok(delta) => chain(
                sig.infos[i],
                sig.endian,
                bytes,
                i,
                0,
                delta as int,
                times,
                window,
            ),
        },
    }
}

/// Signal `i` is loaded as its packed changes say.
pub open spec fn loaded_right(
    s: Seq<u8>,
    place: ChangesView,
    infos: Seq<SignalInfo>,
    mask: Seq<bool>,
    load: LoadedView,
    i: int,
) -> bool {
    match located_bytes(s, place, mask, i) {
        None => forall|u: int| 0 <= u < load.slots.len() ==> !(#[trigger] load.slots[u].contains(i)),
        Some(bytes) => {
            &&& load.bytes[i] == bytes
            &&& at_delta(infos[i], bytes, 0) matches Ok(delta) && (delta < load.slots.len()
                ==> load.slots[delta as int].contains(i)) && forall|u: int|
                0 <= u < load.slots.len() && #[trigger] load.slots[u].contains(i) ==> u == delta
        },
    }
}

/// The lists with `new` put in front of the list at `v`.
proof fn lemma_put(w: WheelState, v: int, new: int)
    requires
        proper(w),
        0 <= v < w.slots.len(),
        0 <= new < w.pos.len(),
        forall|u: int| 0 <= u < w.slots.len() ==> !(#[trigger] w.slots[u].contains(new)),
    ensures
        ({
            let after = w.slots.update(v, seq![new] + w.slots[v]);
            &&& proper(WheelState { slots: after, pos: w.pos })
            &&& forall|u: int, i: int|
                0 <= u < after.len() ==> (#[trigger] after[u].contains(i) <==> (
                w.slots[u].contains(i) || (u == v && i == new)))
        }),
{
    let after = w.slots.update(v, seq![new] + w.slots[v]);
    assert forall|u: int, k: int| 0 <= u < after.len() && 0 <= k < after[u].len() implies (
    #[trigger] after[u][k]) == (if u == v && k == 0 {
        new
    } else {
        w.slots[u][if u == v { k - 1 } else { k }]
    }) by {}
    assert forall|u: int, k: int| 0 <= u < w.slots.len() && 0 <= k < w.slots[u].len() implies (
    #[trigger] w.slots[u][k]) != new by {
        assert(!w.slots[u].contains(new));
    }
    assert forall|u: int, i: int| 0 <= u < after.len() implies (#[trigger] after[u].contains(i) <==> (
    w.slots[u].contains(i) || (u == v && i == new))) by {
        if after[u].contains(i) {
            let k = choose|k: int| 0 <= k < after[u].len() && after[u][k] == i;
            if !(u == v && k == 0) {
                assert(after[u][k] == w.slots[u][if u == v { k - 1 } else { k }]);
            }
        }
        if w.slots[u].contains(i) {
            let k = choose|k: int| 0 <= k < w.slots[u].len() && w.slots[u][k] == i;
            assert(after[u][if u == v { k + 1 } else { k }] == i);
        }
        if u == v && i == new {
            assert(after[v][0] == new);
        }
    }
}

/// All signals in the lists are selected, and among the first `k`.
pub open spec fn only_selected(slots: Seq<Seq<int>>, mask: Seq<bool>, k: int) -> bool {
    forall|u: int, i: int|
        0 <= u < slots.len() && #[trigger] slots[u].contains(i) ==> 0 <= i < k && mask[i]
}

pub proof fn lemma_loaded(
    s: Seq<u8>,
    place: ChangesView,
    infos: Seq<SignalInfo>,
    mask: Seq<bool>,
    slots: nat,
    k: nat,
)
    requires
        k <= infos.len(),
        infos.len() == mask.len(),
        loaded(s, place, infos, mask, slots, k) is Ok,
    ensures
        ({
            let load = loaded(s, place, infos, mask, slots, k)->Ok_0;
            &&& load.bytes.len() == infos.len()
            &&& load.slots.len() == slots
            &&& proper(initial_state(load))
            &&& only_selected(load.slots, mask, k as int)
            &&& forall|i: int|
                0 <= i < k ==> #[trigger] loaded_right(s, place, infos, mask, load, i)
        }),
    decreases k,
{
    if k > 0 {
        lemma_loaded(s, place, infos, mask, slots, (k - 1) as nat);
        let before = loaded(s, place, infos, mask, slots, (k - 1) as nat)->Ok_0;
        let load = loaded(s, place, infos, mask, slots, k)->Ok_0;
        let new = k - 1;
        assert forall|u: int| 0 <= u < before.slots.len() implies !(
        #[trigger] before.slots[u].contains(new)) by {}
        lemma_load_one(s, place, infos, mask, before, new);
        assert forall|i: int| 0 <= i < k implies #[trigger] loaded_right(
            s,
            place,
            infos,
            mask,
            load,
            i,
        ) by {
            if i < new {
                assert(loaded_right(s, place, infos, mask, before, i));
            }
        }
    }
}

proof fn lemma_load_one(
    s: Seq<u8>,
    place: ChangesView,
    infos: Seq<SignalInfo>,
    mask: Seq<bool>,
    before: LoadedView,
    new: int,
)
    requires
        0 <= new < infos.len() == mask.len() == before.bytes.len(),
        proper(initial_state(before)),
        only_selected(before.slots, mask, new),
        with_signal(s, place, infos, mask, before, new) is Ok,
    ensures
        ({
            let load = with_signal(s, place, infos, mask, before, new)->Ok_0;
            &&& load.bytes.len() == infos.len()
            &&& load.slots.len() == before.slots.len()
            &&& proper(initial_state(load))
            &&& only_selected(load.slots, mask, new + 1)
            &&& loaded_right(s, place, infos, mask, load, new)
            &&& forall|i: int|
                0 <= i < new && loaded_right(s, place, infos, mask, before, i)
                    ==> #[trigger] loaded_right(s, place, infos, mask, load, i)
        }),
{
    let load = with_signal(s, place, infos, mask, before, new)->Ok_0;
    assert forall|u: int| 0 <= u < before.slots.len() implies !(#[trigger] before.slots[u].contains(
        new,
    )) by {}
    if let Some(bytes) = located_bytes(s, place, mask, new) {
        let delta = at_delta(infos[new], bytes, 0)->Ok_0 as int;
        if delta < before.slots.len() {
            lemma_put(initial_state(before), delta, new);
            assert(initial_state(load).pos =~= initial_state(before).pos);
        } else {
            assert(initial_state(load).pos =~= initial_state(before).pos);
        }
        assert forall|i: int|
            0 <= i < new && loaded_right(s, place, infos, mask, before, i) implies #[trigger] loaded_right(
        s, place, infos, mask, load, i) by {
            assert(load.bytes[i] == before.bytes[i]);
            assert forall|u: int| 0 <= u < load.slots.len() implies (
            #[trigger] load.slots[u].contains(i) <==> before.slots[u].contains(i)) by {}
        }
    }
}

/// A section that can be read delivers for each signal what its packed changes tell.
pub proof fn section_delivers_by_signal(
    s: Seq<u8>,
    sig: SignalsView,
    kind: DataSectionKind,
    start: int,
    length: u64,
    table: TimesView,
    frame_end: int,
    window: Window,
    i: int,
)
    requires
        sig.infos.len() == sig.mask.len(),
        0 <= i < sig.infos.len(),
        sorted(table.times),
        changes_behind(s, sig, kind, start, length, table, frame_end, window).1 is Ok,
    ensures
        at_changes(s, kind, start, length, table.size, frame_end) matches Ok(place) && of_signal(
            changes_behind(s, sig, kind, start, length, table, frame_end, window).0,
            i,
        ) == signal_changes(s, sig, place, table.times, i, window),
{
    let place = at_changes(s, kind, start, length, table.size, frame_end)->Ok_0;
    let times = table.times;
    let slots = slot_count(times.len());
    lemma_loaded(s, place, sig.infos, sig.mask, slots, sig.infos.len());
    let load = loaded(s, place, sig.infos, sig.mask, slots, sig.infos.len())->Ok_0;
    let d = SectionData { infos: sig.infos, endian: sig.endian, bytes: load.bytes };
    let w = initial_state(load);
    assert(loaded_right(s, place, sig.infos, sig.mask, load, i));
    match located_bytes(s, place, sig.mask, i) {
        None => {
            lemma_absent(d, w, times, 0, window, i);
        },
        Some(bytes) => {
            let delta = at_delta(sig.infos[i], bytes, 0)->Ok_0 as int;
            if delta < times.len() {
                lemma_waiting(d, w, times, 0, window, i, delta);
            } else {
                lemma_absent(d, w, times, 0, window, i);
            }
        },
    }
}

/// The times of the changes never go back.
pub open spec fn ascending(changes: Seq<ChangeView>) -> bool {
    forall|i: int, j: int|
        0 <= i <= j < changes.len() ==> #[trigger] changes[i].time <= #[trigger] changes[j].time
}

/// The changes lie in `window` and are changes of selected signals.
pub open spec fn asked_for(changes: Seq<ChangeView>, window: Window, mask: Seq<bool>) -> bool {
    forall|k: int|
        0 <= k < changes.len() ==> window.contains((#[trigger] changes[k]).time) && 0
            <= changes[k].signal < mask.len() && mask[changes[k].signal]
}

/// The times of the changes are among `times`, from step `t` on.
pub open spec fn among(changes: Seq<ChangeView>, times: Seq<u64>, t: int) -> bool {
    forall|k: int|
        0 <= k < changes.len() ==> exists|u: int|
            t <= u < times.len() && #[trigger] times[u] == (#[trigger] changes[k]).time
}

/// A wheel delivers only what is asked for, in the order of the times.
pub proof fn lemma_delivered_sound(
    d: SectionData,
    w: WheelState,
    times: Seq<u64>,
    t: int,
    window: Window,
    mask: Seq<bool>,
)
    requires
        proper(w),
        sorted(times),
        times.len() <= w.slots.len(),
        0 <= t,
        only_selected(w.slots, mask, mask.len() as int),
    ensures
        asked_for(delivered(d, w, times, t, window).0, window, mask),
        among(delivered(d, w, times, t, window).0, times, t),
        ascending(delivered(d, w, times, t, window).0),
    decreases times.len() - t, bytes_left(d.bytes, w.pos, w.pos.len()),
{
    if t >= times.len() {
    } else if window.is_past(times[t]) {
    } else if w.slots[t].len() == 0 {
        lemma_delivered_sound(d, w, times, t + 1, window, mask);
    } else {
        let i = w.slots[t][0];
        assert(w.slots[t].contains(i));
        assert(0 <= i < mask.len() && mask[i]);
        lemma_visited(d, w, t, times[t]);
        let (found, next) = visited(d, w, t, times[t]);
        let change = shown(found, times[t], window.start);
        let all = delivered(d, w, times, t, window).0;
        assert(change.len() <= 1 && (change.len() == 1 ==> change[0].time == times[t]
            && change[0].signal == i)) by {
            reveal(visited);
        }
        if let Ok(w2) = next {
            lemma_turned(d, w, t, times[t]);
            assert(only_selected(w2.slots, mask, mask.len() as int)) by {
                assert forall|u: int, j: int|
                    0 <= u < w2.slots.len() && #[trigger] w2.slots[u].contains(j) implies 0 <= j
                    < mask.len() && mask[j] by {
                    if j != i {
                        assert(w.slots[u].contains(j));
                    }
                }
            }
            lemma_delivered_sound(d, w2, times, t, window, mask);
            let rest = delivered(d, w2, times, t, window).0;
            assert forall|k: int| 0 <= k < all.len() implies exists|u: int|
                t <= u < times.len() && #[trigger] times[u] == (#[trigger] all[k]).time by {
                if k < change.len() {
                    assert(times[t] == all[k].time);
                } else {
                    assert(all[k] == rest[k - change.len()]);
                }
            }
            assert forall|k: int, j: int| 0 <= k <= j < all.len() implies #[trigger] all[k].time
                <= #[trigger] all[j].time by {
                if j >= change.len() {
                    assert(all[j] == rest[j - change.len()]);
                    if k >= change.len() {
                        assert(all[k] == rest[k - change.len()]);
                    } else {
                        let u = choose|u: int|
                            t <= u < times.len() && #[trigger] times[u] == rest[j
                                - change.len()].time;
                        assert(times[t] <= times[u]);
                    }
                }
            }
            assert forall|k: int| 0 <= k < all.len() implies window.contains(
                (#[trigger] all[k]).time,
            ) && 0 <= all[k].signal < mask.len() && mask[all[k].signal] by {
                if k >= change.len() {
                    assert(all[k] == rest[k - change.len()]);
                }
            }
        } else {
            assert forall|k: int| 0 <= k < all.len() implies exists|u: int|
                t <= u < times.len() && #[trigger] times[u] == (#[trigger] all[k]).time by {
                assert(times[t] == all[k].time);
            }
        }
    }
}

/// A section delivers only what is asked for, in the order of its times.
pub proof fn section_delivers_soundly(
    s: Seq<u8>,
    sig: SignalsView,
    kind: DataSectionKind,
    start: int,
    length: u64,
    table: TimesView,
    frame_end: int,
    window: Window,
)
    requires
        sig.infos.len() == sig.mask.len(),
        sorted(table.times),
    ensures
        ({
            let changes = changes_behind(
                s,
                sig,
                kind,
                start,
                length,
                table,
                frame_end,
                window,
            ).0;
            asked_for(changes, window, sig.mask) && among(changes, table.times, 0) && ascending(
                changes,
            )
        }),
{
    if let Ok(place) = at_changes(s, kind, start, length, table.size, frame_end) {
        let slots = slot_count(table.times.len());
        if let Ok(load) = loaded(s, place, sig.infos, sig.mask, slots, sig.infos.len()) {
            lemma_loaded(s, place, sig.infos, sig.mask, slots, sig.infos.len());
            let d = SectionData { infos: sig.infos, endian: sig.endian, bytes: load.bytes };
            lemma_delivered_sound(
                d,
                initial_state(load),
                table.times,
                0,
                window,
                sig.mask,
            );
        }
    }
}

} // verus!
