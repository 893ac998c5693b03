//! Handles and the signals that they name.

use crate::hierarchy::{
    at_entry, entries_from, geometry_of, lemma_entry_bounds, own_signals, EntryView, FstVarType,
};
use crate::types::{signal_info, SignalInfo};
use vstd::prelude::*;

verus! {

/// The signal of a variable.
pub open spec fn signal_of(tpe: FstVarType, length: u32) -> SignalInfo {
    if tpe.has_reals() {
        SignalInfo::Real
    } else {
        signal_info(length)
    }
}

/// The handles of the variables that are no aliases count the signals up, from
/// `count` on; each names the signal of its variable.
pub open spec fn numbered(entries: Seq<EntryView>, count: int) -> bool {
    forall|k: int|
        0 <= k < entries.len() ==> (#[trigger] entries[k] matches EntryView::Var {
            tpe,
            length,
            handle,
            is_alias: false,
            ..
        } ==> {
            let before = own_signals(entries.subrange(0, k));
            let signals = own_signals(entries);
            &&& handle.index == count + before.len()
            &&& before.len() < signals.len()
            &&& signals[before.len() as int] == signal_of(tpe, length)
        })
}

proof fn lemma_own_append(a: Seq<EntryView>, b: Seq<EntryView>)
    ensures
        own_signals(a + b) == own_signals(a) + own_signals(b),
    decreases b.len(),
{
    if b.len() == 0 {
        assert(b =~= Seq::empty());
        assert(a + b =~= a);
        assert(own_signals(a) + own_signals(b) =~= own_signals(a));
    } else {
        assert((a + b).drop_last() =~= a + b.drop_last());
        assert((a + b).last() == b.last());
        lemma_own_append(a, b.drop_last());
        let x = own_signals(a);
        let y = own_signals(b.drop_last());
        assert forall|i: SignalInfo| #[trigger] (x + y).push(i) == x + y.push(i) by {
            assert((x + y).push(i) =~= x + y.push(i));
        }
        assert(own_signals(a + b) =~= own_signals(a) + own_signals(b));
    }
}

proof fn lemma_own_one(entry: EntryView)
    ensures
        own_signals(seq![entry]) == (match entry {
            EntryView::Var { tpe, length, is_alias: false, .. } => seq![signal_of(tpe, length)],
            _ => Seq::<SignalInfo>::empty(),
        }),
{
    assert(seq![entry].drop_last() =~= Seq::empty());
    reveal_with_fuel(own_signals, 2);
    assert(own_signals(seq![entry]) =~= (match entry {
        EntryView::Var { tpe, length, is_alias: false, .. } => seq![signal_of(tpe, length)],
        _ => Seq::<SignalInfo>::empty(),
    }));
}

/// The handles of a hierarchy number its own signals.
pub proof fn handles_number_the_signals(s: Seq<u8>, pos: int, count: u32)
    requires
        0 <= pos,
    ensures
        numbered(entries_from(s, pos, count).0, count as int),
    decreases s.len() - pos,
{
    if pos < s.len() {
        lemma_entry_bounds(s, pos, count);
        if let Ok(at) = at_entry(s, pos, count) {
            handles_number_the_signals(s, at.next, at.count);
            let rest = entries_from(s, at.next, at.count).0;
            let all = entries_from(s, pos, count).0;
            let first = seq![at.entry];
            lemma_own_append(first, rest);
            lemma_own_one(at.entry);
            assert(at.count == count + own_signals(first).len());
            assert forall|k: int| 0 <= k < all.len() implies (
            #[trigger] all[k] matches EntryView::Var {
                tpe,
                length,
                handle,
                is_alias: false,
                ..
            } ==> {
                let before = own_signals(all.subrange(0, k));
                let signals = own_signals(all);
                &&& handle.index == count + before.len()
                &&& before.len() < signals.len()
                &&& signals[before.len() as int] == signal_of(tpe, length)
            }) by {
                if k == 0 {
                    assert(all.subrange(0, 0) =~= Seq::empty());
                    assert(all[0] == at.entry);
                } else {
                    assert(all[k] == rest[k - 1]);
                    assert(all.subrange(0, k) =~= first + rest.subrange(0, k - 1));
                    lemma_own_append(first, rest.subrange(0, k - 1));
                }
            }
        }
    }
}

/// Each variable of a hierarchy that is no alias has, in the geometry that the
/// hierarchy tells, the signal that its handle names.
pub proof fn own_handles_are_in_the_geometry(bytes: Seq<u8>, k: int)
    requires
        geometry_of(bytes) is Ok,
        0 <= k < entries_from(bytes, 0, 0).0.len(),
    ensures
        entries_from(bytes, 0, 0).0[k] matches EntryView::Var {
            tpe,
            length,
            handle,
            is_alias: false,
            ..
        } ==> {
            let signals = geometry_of(bytes)->Ok_0;
            handle.index < signals.len() && signals[handle.index as int] == signal_of(tpe, length)
        },
{
    handles_number_the_signals(bytes, 0, 0);
}

} // verus!
