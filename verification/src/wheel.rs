//! The time wheel: the signals of a data section, sorted by the time step of
//! their next change.
//!
//! Each time step has a list of the signals that change there. All lists
//! together need two vectors of integers: the head of each list, and for each
//! signal the one that follows it in its list.

use crate::types::{FloatingPointEndian, FstSignalHandle, ReaderError, Result, SignalInfo};
use crate::values::{
    at_change, at_delta, change_views, lemma_at_change_bounds, read_signal_change,
    read_signal_time_delta, ChangeView, FstSignalChange,
};
use vstd::prelude::*;

verus! {

/// Lists of signals, one for each time step. No signal is in two places.
pub struct SlotLists {
    /// for each time step, one more than the first signal of its list, or zero
    heads: Vec<u32>,
    /// for each signal, one more than the signal that follows it in its list, or zero
    links: Vec<u32>,
    lists: Ghost<Seq<Seq<int>>>,
}

/// One more than the entry at `k`, or zero behind the end of the list.
pub open spec fn link_to(list: Seq<int>, k: int) -> int {
    if k < list.len() {
        list[k] + 1
    } else {
        0
    }
}

/// No list has `signal` in it.
pub open spec fn vacant(lists: Seq<Seq<int>>, signal: int) -> bool {
    forall|t: int, k: int|
        0 <= t < lists.len() && 0 <= k < lists[t].len() ==> #[trigger] lists[t][k] != signal
}

impl View for SlotLists {
    type V = Seq<Seq<int>>;

    closed spec fn view(&self) -> Seq<Seq<int>> {
        self.lists@
    }
}

impl SlotLists {
    /// The number of signals that the lists can hold.
    pub closed spec fn signals(self) -> nat {
        self.links@.len()
    }

    pub closed spec fn wf(self) -> bool {
        &&& self.heads@.len() == self.lists@.len()
        &&& self.links@.len() < u32::MAX
        &&& forall|t: int|
            0 <= t < self.lists@.len() ==> #[trigger] self.heads@[t] == link_to(self.lists@[t], 0)
        &&& forall|t: int, k: int|
            0 <= t < self.lists@.len() && 0 <= k < self.lists@[t].len() ==> 0
                <= #[trigger] self.lists@[t][k] < self.links@.len()
        &&& forall|t: int, k: int|
            0 <= t < self.lists@.len() && 0 <= k < self.lists@[t].len() ==> self.links@[(
            #[trigger] self.lists@[t][k])] == link_to(self.lists@[t], k + 1)
        &&& forall|t: int, k: int, u: int, j: int|
            0 <= t < self.lists@.len() && 0 <= k < self.lists@[t].len() && 0 <= u
                < self.lists@.len() && 0 <= j < self.lists@[u].len() && (t != u || k != j)
                ==> #[trigger] self.lists@[t][k] != #[trigger] self.lists@[u][j]
    }

    pub proof fn lemma_in_range(self, t: int, k: int)
        requires
            self.wf(),
            0 <= t < self@.len(),
            0 <= k < self@[t].len(),
        ensures
            0 <= self@[t][k] < self.signals(),
    {
    }

    /// Empty lists for `slots` time steps and `signals` signals.
    pub fn new(slots: usize, signals: usize) -> (r: SlotLists)
        requires
            signals < u32::MAX,
        ensures
            r.wf(),
            r.signals() == signals,
            r@ == Seq::new(slots as nat, |t: int| Seq::<int>::empty()),
    {
        SlotLists {
            heads: vec![0u32; slots],
            links: vec![0u32; signals],
            lists: Ghost(Seq::new(slots as nat, |t: int| Seq::<int>::empty())),
        }
    }

    pub fn len(&self) -> (r: usize)
        requires
            self.wf(),
        ensures
            r == self@.len(),
    {
        self.heads.len()
    }

    /// The first signal at time step `t`.
    pub fn first(&self, t: usize) -> (r: Option<usize>)
        requires
            self.wf(),
            t < self@.len(),
        ensures
            match r {
                None => self@[t as int].len() == 0,
                Some(i) => self@[t as int].len() > 0 && i == self@[t as int][0] && i
                    < self.signals(),
            },
    {
        let head: u32 = self.heads[t];
        assert(head == link_to(self.lists@[t as int], 0));
        if head == 0 {
            proof {
                if self.lists@[t as int].len() > 0 {
                    assert(0 <= self.lists@[t as int][0]);
                }
            }
            None
        } else {
            assert(0 <= self.lists@[t as int][0] < self.links@.len());
            Some((head - 1) as usize)
        }
    }

    /// Takes the first signal at time step `t` away.
    pub fn pop(&mut self, t: usize) -> (r: usize)
        requires
            old(self).wf(),
            t < old(self)@.len(),
            old(self)@[t as int].len() > 0,
        ensures
            final(self).wf(),
            final(self).signals() == old(self).signals(),
            final(self)@ == old(self)@.update(t as int, old(self)@[t as int].drop_first()),
            r == old(self)@[t as int][0],
            r < final(self).signals(),
            vacant(final(self)@, r as int),
    {
        let ghost before = self.lists@;
        assert(self.heads@[t as int] == link_to(before[t as int], 0));
        assert(0 <= before[t as int][0] < self.links@.len());
        let signal: usize = (self.heads[t] - 1) as usize;
        let next: u32 = self.links[signal];
        self.heads[t] = next;
        self.links[signal] = 0;
        let ghost after = before.update(t as int, before[t as int].drop_first());
        self.lists = Ghost(after);
        proof {
            assert forall|u: int, k: int|
                0 <= u < after.len() && 0 <= k < after[u].len() implies #[trigger] after[u][k]
                == before[u][if u == t { k + 1 } else { k }] by {}
            assert forall|u: int, k: int| 0 <= u < after.len() && 0 <= k < after[u].len() implies (
            #[trigger] after[u][k]) != signal by {
                assert(after[u][k] == before[u][if u == t { k + 1 } else { k }]);
                assert(before[t as int][0] == signal);
            }
            assert forall|u: int| 0 <= u < after.len() implies #[trigger] self.heads@[u] == link_to(
                after[u],
                0,
            ) by {
                if u == t {
                    assert(next == link_to(before[t as int], 1));
                }
            }
            assert forall|u: int, k: int| 0 <= u < after.len() && 0 <= k < after[u].len() implies
                self.links@[(#[trigger] after[u][k])] == link_to(after[u], k + 1) by {
                assert(after[u][k] == before[u][if u == t { k + 1 } else { k }]);
            }
        }
        signal
    }

    /// Puts `signal` in front of the list at time step `t`.
    pub fn push(&mut self, t: usize, signal: usize)
        requires
            old(self).wf(),
            t < old(self)@.len(),
            signal < old(self).signals(),
            vacant(old(self)@, signal as int),
        ensures
            final(self).wf(),
            final(self).signals() == old(self).signals(),
            final(self)@ == old(self)@.update(
                t as int,
                seq![signal as int] + old(self)@[t as int],
            ),
    {
        let ghost before = self.lists@;
        assert(self.heads@[t as int] == link_to(before[t as int], 0));
        self.links[signal] = self.heads[t];
        self.heads[t] = signal as u32 + 1;
        let ghost after = before.update(t as int, seq![signal as int] + before[t as int]);
        self.lists = Ghost(after);
        proof {
            assert forall|u: int, k: int|
                0 <= u < after.len() && 0 <= k < after[u].len() implies #[trigger] after[u][k] == (
            if u == t && k == 0 {
                signal as int
            } else {
                before[u][if u == t { k - 1 } else { k }]
            }) by {}
            assert forall|u: int| 0 <= u < after.len() implies #[trigger] self.heads@[u] == link_to(
                after[u],
                0,
            ) by {
                if u != t {
                    assert(after[u] == before[u]);
                }
            }
            assert forall|u: int, k: int| 0 <= u < after.len() && 0 <= k < after[u].len() implies
                self.links@[(#[trigger] after[u][k])] == link_to(after[u], k + 1) by {
                if u == t && k == 0 {
                } else {
                    let j = if u == t { k - 1 } else { k };
                    assert(after[u][k] == before[u][j]);
                    assert(before[u][j] != signal);
                }
            }
        }
    }
}

/// A window of time. Changes before `start` are run through but not delivered;
/// those behind the end are not looked at.
#[derive(Clone, Copy, Debug)]
pub struct Window {
    pub start: u64,
    pub end: u64,
    /// whether the time `end` itself belongs to the window
    pub include_end: bool,
}

impl Window {
    pub open spec fn is_past(self, time: u64) -> bool {
        if self.include_end {
            time > self.end
        } else {
            time >= self.end
        }
    }

    pub open spec fn contains(self, time: u64) -> bool {
        self.start <= time && !self.is_past(time)
    }

    pub fn past(&self, time: u64) -> (r: bool)
        ensures
            r == self.is_past(time),
    {
        if self.include_end {
            time > self.end
        } else {
            time >= self.end
        }
    }
}

/// The changes of all signals in a data section, in packed form.
pub struct SectionData {
    pub infos: Seq<SignalInfo>,
    pub endian: FloatingPointEndian,
    /// for each signal, the bytes of its changes
    pub bytes: Seq<Seq<u8>>,
}

/// The state of a time wheel: the signals that change at each time step, and
/// where the next change of each signal lies in its bytes.
#[verifier::ext_equal]
pub struct WheelState {
    pub slots: Seq<Seq<int>>,
    pub pos: Seq<int>,
}

/// What a traversal delivers, and how it ends.
pub type Delivery = (Seq<ChangeView>, Result<()>);

/// `front`, and then what `rest` delivers.
pub open spec fn followed_by(front: Seq<ChangeView>, rest: Delivery) -> Delivery {
    (front + rest.0, rest.1)
}

pub proof fn lemma_append<A>(a: Seq<A>, b: Seq<A>, c: Seq<A>)
    ensures
        a + (b + c) == a + b + c,
{
    assert(a + (b + c) =~= a + b + c);
}

pub proof fn lemma_append_nothing<A>(a: Seq<A>)
    ensures
        a + Seq::<A>::empty() == a,
        Seq::<A>::empty() + a == a,
{
    assert(a + Seq::<A>::empty() =~= a);
    assert(Seq::<A>::empty() + a =~= a);
}

/// The number of bytes that the first `n` signals have left.
pub open spec fn bytes_left(bytes: Seq<Seq<u8>>, pos: Seq<int>, n: nat) -> nat
    decreases n,
{
    if n == 0 {
        0
    } else {
        let k = n - 1;
        bytes_left(bytes, pos, k as nat) + (if bytes[k].len() > pos[k] {
            (bytes[k].len() - pos[k]) as nat
        } else {
            0
        })
    }
}

pub proof fn lemma_bytes_left(bytes: Seq<Seq<u8>>, pos: Seq<int>, n: nat, i: int, next: int)
    requires
        n <= pos.len(),
        0 <= i < pos.len(),
        pos[i] < next <= bytes[i].len(),
    ensures
        i < n ==> bytes_left(bytes, pos.update(i, next), n) < bytes_left(bytes, pos, n),
        i >= n ==> bytes_left(bytes, pos.update(i, next), n) == bytes_left(bytes, pos, n),
    decreases n,
{
    if n > 0 {
        lemma_bytes_left(bytes, pos, (n - 1) as nat, i, next);
    }
}

/// The state of the wheel once the first signal at time step `t` has changed,
/// and its next change, if it has one, begins at `next`.
pub open spec fn turned(d: SectionData, w: WheelState, t: int, next: int) -> Result<WheelState> {
    let i = w.slots[t][0];
    let slots = w.slots.update(t, w.slots[t].drop_first());
    let pos = w.pos.update(i, next);
    if next >= d.bytes[i].len() {
        Ok(WheelState { slots, pos })
    } else {
        match at_delta(d.infos[i], d.bytes[i], next) {
            Err(e) => Err(e),
            Ok(delta) => if t + delta < slots.len() {
                Ok(
                    WheelState {
                        slots: slots.update(t + delta, seq![i] + slots[t + delta]),
                        pos,
                    },
                )
            } else {
                Err(ReaderError::Malformed)
            },
        }
    }
}

/// The change of the first signal at time step `t`, and the state behind it.
#[verifier::opaque]
pub open spec fn visited(d: SectionData, w: WheelState, t: int, time: u64) -> (
    Seq<ChangeView>,
    Result<WheelState>,
) {
    let i = w.slots[t][0];
    if !(0 <= i < w.pos.len()) {
        (Seq::empty(), Err(ReaderError::Malformed))
    } else {
        match at_change(d.infos[i], d.endian, d.bytes[i], w.pos[i]) {
            Err(e) => (Seq::empty(), Err(e)),
            Ok((value, next)) => (
                seq![ChangeView { time, signal: i, value }],
                turned(d, w, t, next),
            ),
        }
    }
}

/// Each visit leaves fewer bytes.
pub proof fn lemma_visited(d: SectionData, w: WheelState, t: int, time: u64)
    ensures
        visited(d, w, t, time).1 matches Ok(w2) ==> w2.pos.len() == w.pos.len() && bytes_left(
            d.bytes,
            w2.pos,
            w2.pos.len(),
        ) < bytes_left(d.bytes, w.pos, w.pos.len()),
{
    reveal(visited);
    let i = w.slots[t][0];
    if 0 <= i < w.pos.len() {
        lemma_at_change_bounds(d.infos[i], d.endian, d.bytes[i], w.pos[i]);
        if let Ok((_, next)) = at_change(d.infos[i], d.endian, d.bytes[i], w.pos[i]) {
            lemma_bytes_left(d.bytes, w.pos, w.pos.len(), i, next);
        }
    }
}

/// What is delivered of the changes at `time`: nothing, if that is before `start`.
pub open spec fn shown(changes: Seq<ChangeView>, time: u64, start: u64) -> Seq<ChangeView> {
    if time < start {
        Seq::empty()
    } else {
        changes
    }
}

/// What a wheel delivers from time step `t` on. The wheel turns through all steps
/// up to the end of the window.
pub open spec fn delivered(
    d: SectionData,
    w: WheelState,
    times: Seq<u64>,
    t: int,
    window: Window,
) -> Delivery
    decreases times.len() - t, bytes_left(d.bytes, w.pos, w.pos.len()),
{
    if t >= times.len() {
        (Seq::empty(), Ok(()))
    } else if window.is_past(times[t]) {
        (Seq::empty(), Ok(()))
    } else if w.slots[t].len() == 0 {
        delivered(d, w, times, t + 1, window)
    } else {
        proof {
            lemma_visited(d, w, t, times[t]);
        }
        let (change, turned) = visited(d, w, t, times[t]);
        let front = shown(change, times[t], window.start);
        match turned {
            Err(e) => (front, Err(e)),
            Ok(w2) => followed_by(front, delivered(d, w2, times, t, window)),
        }
    }
}

/// The bytes of each signal.
pub open spec fn byte_views(bytes: Seq<Vec<u8>>) -> Seq<Seq<u8>> {
    Seq::new(bytes.len(), |i: int| bytes[i]@)
}

/// The positions, as mathematical integers.
pub open spec fn pos_views(pos: Seq<u64>) -> Seq<int> {
    Seq::new(pos.len(), |i: int| pos[i] as int)
}

/// A time wheel and the packed changes that it runs through.
pub struct TimeWheel {
    pub lists: SlotLists,
    pub pos: Vec<u64>,
    pub bytes: Vec<Vec<u8>>,
}

impl TimeWheel {
    pub open spec fn wf(self) -> bool {
        &&& self.lists.wf()
        &&& self.lists.signals() == self.pos@.len()
        &&& self.bytes@.len() == self.pos@.len()
    }

    pub open spec fn state(self) -> WheelState {
        WheelState { slots: self.lists@, pos: pos_views(self.pos@) }
    }

    pub open spec fn data(self, infos: Seq<SignalInfo>, endian: FloatingPointEndian) -> SectionData {
        SectionData { infos, endian, bytes: byte_views(self.bytes@) }
    }

    /// Moves the first signal at time step `t` to its next change, which begins at `next`.
    fn turn(&mut self, info: SignalInfo, t: usize, next: u64, Ghost(d): Ghost<SectionData>) -> (r: Result<
        (),
    >)
        requires
            old(self).wf(),
            t < old(self).lists@.len(),
            old(self).lists@[t as int].len() > 0,
            d.bytes == byte_views(old(self).bytes@),
            d.infos[old(self).lists@[t as int][0]] == info,
        ensures
            final(self).wf(),
            final(self).bytes == old(self).bytes,
            final(self).pos@.len() == old(self).pos@.len(),
            final(self).lists@.len() == old(self).lists@.len(),
            match (r, turned(d, old(self).state(), t as int, next as int)) {
                (Ok(_), Ok(w)) => final(self).state() == w,
                (Err(e), Err(f)) => e == f,
                _ => false,
            },
    {
        let ghost w = self.state();
        let signal: usize = self.lists.pop(t);
        self.pos.set(signal, next);
        let ghost slots = w.slots.update(t as int, w.slots[t as int].drop_first());
        assert(pos_views(self.pos@) =~= w.pos.update(signal as int, next as int));
        if next < self.bytes[signal].len() as u64 {
            let delta: u32 = read_signal_time_delta(info, self.bytes[signal].as_slice(), next)?;
            if delta as usize >= self.lists.len() - t {
                return Err(ReaderError::Malformed);
            }
            self.lists.push(t + delta as usize, signal);
        }
        Ok(())
    }

    /// Reads the change of the first signal at time step `t`, and appends it to
    /// `out` unless it comes before `start`.
    fn visit(
        &mut self,
        info: SignalInfo,
        endian: FloatingPointEndian,
        t: usize,
        time: u64,
        start: u64,
        out: &mut Vec<FstSignalChange>,
        Ghost(d): Ghost<SectionData>,
    ) -> (r: Result<()>)
        requires
            old(self).wf(),
            t < old(self).lists@.len(),
            old(self).lists@[t as int].len() > 0,
            d.bytes == byte_views(old(self).bytes@),
            d.infos[old(self).lists@[t as int][0]] == info,
            d.endian == endian,
        ensures
            final(self).wf(),
            final(self).bytes == old(self).bytes,
            final(self).pos@.len() == old(self).pos@.len(),
            final(self).lists@.len() == old(self).lists@.len(),
            ({
                let (change, turned) = visited(d, old(self).state(), t as int, time);
                &&& change_views(final(out)@) == change_views(old(out)@) + shown(
                    change,
                    time,
                    start,
                )
                &&& match (r, turned) {
                    (Ok(_), Ok(w)) => final(self).state() == w,
                    (Err(e), Err(f)) => e == f,
                    _ => false,
                }
            }),
    {
        let ghost w = self.state();
        let ghost front = change_views(out@);
        proof {
            reveal(visited);
            self.lists.lemma_in_range(t as int, 0);
            assert(front + Seq::<ChangeView>::empty() =~= front);
        }
        let signal: usize = match self.lists.first(t) {
            Some(signal) => signal,
            None => {
                return Ok(());
            },
        };
        assert(w.pos[signal as int] == self.pos@[signal as int]);
        assert(d.bytes[signal as int] == self.bytes@[signal as int]@);
        let (value, next) = read_signal_change(
            info,
            endian,
            self.bytes[signal].as_slice(),
            self.pos[signal],
        )?;
        if time >= start {
            let change = FstSignalChange {
                time,
                handle: FstSignalHandle::from_index(signal),
                value,
            };
            let ghost view = change@;
            out.push(change);
            assert(change_views(out@) =~= front + seq![view]);
        }
        self.turn(info, t, next, Ghost(d))
    }

    /// Runs through all time steps and appends the changes in `window` to `out`.
    #[verifier::spinoff_prover]
    pub fn deliver(
        &mut self,
        infos: &Vec<SignalInfo>,
        endian: FloatingPointEndian,
        times: &Vec<u64>,
        window: Window,
        out: &mut Vec<FstSignalChange>,
    ) -> (r: Result<()>)
        requires
            old(self).wf(),
            old(self).pos@.len() <= infos@.len(),
            times@.len() <= old(self).lists@.len(),
        ensures
            final(self).wf(),
            final(self).bytes == old(self).bytes,
            ({
                let (changes, end) = delivered(
                    old(self).data(infos@, endian),
                    old(self).state(),
                    times@,
                    0,
                    window,
                );
                change_views(final(out)@) == change_views(old(out)@) + changes && r == end
            }),
    {
        let ghost d = self.data(infos@, endian);
        let ghost all = delivered(d, self.state(), times@, 0, window);
        let ghost front = change_views(out@);
        let ghost mut sofar = Seq::<ChangeView>::empty();
        let mut t: usize = 0;
        while t < times.len()
            invariant
                self.wf(),
                self.bytes == old(self).bytes,
                d == self.data(infos@, endian),
                self.pos@.len() <= infos@.len(),
                t <= times@.len() <= self.lists@.len(),
                front == change_views(old(out)@),
                change_views(out@) == front + sofar,
                all == delivered(
                    old(self).data(infos@, endian),
                    old(self).state(),
                    times@,
                    0,
                    window,
                ),
                all == followed_by(sofar, delivered(d, self.state(), times@, t as int, window)),
            decreases times@.len() - t, bytes_left(d.bytes, self.state().pos, self.pos@.len()),
        {
            let time: u64 = times[t];
            if window.past(time) {
                proof {
                    lemma_append_nothing(sofar);
                }
                return Ok(());
            }
            match self.lists.first(t) {
                None => {
                    t = t + 1;
                },
                Some(signal) => {
                    let ghost w = self.state();
                    let ghost change = shown(
                        visited(d, w, t as int, time).0,
                        time,
                        window.start,
                    );
                    proof {
                        lemma_visited(d, w, t as int, time);
                        lemma_append(front, sofar, change);
                    }
                    self.visit(infos[signal], endian, t, time, window.start, out, Ghost(d))?;
                    proof {
                        let rest = delivered(d, self.state(), times@, t as int, window).0;
                        lemma_append(sofar, change, rest);
                        sofar = sofar + change;
                    }
                },
            }
        }
        proof {
            lemma_append_nothing(sofar);
        }
        Ok(())
    }
}

} // verus!
