//! Where the signals of a data section have their packed changes.

use crate::bitmask::BitMask;
use crate::primitives::{
    at_bytes, at_u64, at_variant_signed, at_variant_u32, lemma_leb_len_bound, read_slice,
    read_u64, read_variant_i64, read_variant_u32,
};
use crate::types::{DataSectionKind, ReaderError, Result};
use vstd::prelude::*;

verus! {

/// What the table of a data section says of one signal.
#[derive(Clone, Copy, PartialEq, Eq, Structural, Debug)]
pub enum SignalLoc {
    /// the signal does not change
    Empty,
    /// the changes are so many bytes behind the start of the value changes
    Offset(u64),
    /// the changes are those of another signal
    Alias(u64),
}

/// A run of signals that do not change.
pub open spec fn empties(n: nat) -> Seq<SignalLoc> {
    Seq::new(n, |i: int| SignalLoc::Empty)
}

/// An alias for signal `target`, which must come before the signal `own`.
pub open spec fn alias_for(target: int, own: int) -> SignalLoc {
    if 0 <= target < own {
        SignalLoc::Alias(target as u64)
    } else {
        SignalLoc::Empty
    }
}

/// The table with the bytes from `pos` on still to be read. Each entry is a
/// signed integer, or an even integer for a run of signals that do not change:
/// a positive entry advances the offset, a negative one names an alias, and zero
/// repeats the last alias.
pub open spec fn signed_table(
    s: Seq<u8>,
    pos: int,
    table: Seq<SignalLoc>,
    offset: int,
    alias: SignalLoc,
    max: nat,
    limit: int,
) -> Result<Seq<SignalLoc>>
    decreases s.len() - pos,
    via signed_table_decreases
{
    if pos >= s.len() {
        Ok(table)
    } else if s[pos] % 2 == 1 {
        match at_variant_signed(s, pos) {
            Err(e) => Err(e),
            Ok((value, next)) => {
                let shift = value / 2;
                if table.len() >= max || offset + shift >= limit {
                    Err(ReaderError::Malformed)
                } else if shift > 0 {
                    signed_table(
                        s,
                        next,
                        table.push(SignalLoc::Offset((offset + shift) as u64)),
                        offset + shift,
                        alias,
                        max,
                        limit,
                    )
                } else {
                    let target = if shift < 0 {
                        alias_for(-shift - 1, table.len() as int)
                    } else {
                        alias
                    };
                    signed_table(s, next, table.push(target), offset, target, max, limit)
                }
            },
        }
    } else {
        match at_variant_u32(s, pos) {
            Err(e) => Err(e),
            Ok((value, next)) => if table.len() + value / 2 > max {
                Err(ReaderError::Malformed)
            } else {
                signed_table(
                    s,
                    next,
                    table + empties((value / 2) as nat),
                    offset,
                    alias,
                    max,
                    limit,
                )
            },
        }
    }
}

#[via_fn]
proof fn signed_table_decreases(
    s: Seq<u8>,
    pos: int,
    table: Seq<SignalLoc>,
    offset: int,
    alias: SignalLoc,
    max: nat,
    limit: int,
) {
    lemma_leb_len_bound(s, pos, 10);
    lemma_leb_len_bound(s, pos, 5);
}

/// The table with the bytes from `pos` on still to be read. An odd integer
/// advances the offset, an even one is a run of signals that do not change, and
/// zero comes in front of an alias.
pub open spec fn unsigned_table(
    s: Seq<u8>,
    pos: int,
    table: Seq<SignalLoc>,
    offset: int,
    max: nat,
    limit: int,
) -> Result<Seq<SignalLoc>>
    decreases s.len() - pos,
    via unsigned_table_decreases
{
    if pos >= s.len() {
        Ok(table)
    } else {
        match at_variant_u32(s, pos) {
            Err(e) => Err(e),
            Ok((value, next)) => if value == 0 {
                match at_variant_u32(s, next) {
                    Err(e) => Err(e),
                    Ok((alias, behind)) => if table.len() >= max {
                        Err(ReaderError::Malformed)
                    } else {
                        unsigned_table(
                            s,
                            behind,
                            table.push(alias_for(alias - 1, table.len() as int)),
                            offset,
                            max,
                            limit,
                        )
                    },
                }
            } else if value % 2 == 1 {
                let step = value / 2;
                if table.len() >= max || step == 0 || offset + step >= limit {
                    Err(ReaderError::Malformed)
                } else {
                    unsigned_table(
                        s,
                        next,
                        table.push(SignalLoc::Offset((offset + step) as u64)),
                        offset + step,
                        max,
                        limit,
                    )
                }
            } else if table.len() + value / 2 > max {
                Err(ReaderError::Malformed)
            } else {
                unsigned_table(s, next, table + empties((value / 2) as nat), offset, max, limit)
            },
        }
    }
}

#[via_fn]
proof fn unsigned_table_decreases(
    s: Seq<u8>,
    pos: int,
    table: Seq<SignalLoc>,
    offset: int,
    max: nat,
    limit: int,
) {
    lemma_leb_len_bound(s, pos, 5);
    if let Ok((_, next)) = at_variant_u32(s, pos) {
        lemma_leb_len_bound(s, next, 5);
    }
}

/// The table of a section of the given kind.
pub open spec fn loc_table(s: Seq<u8>, kind: DataSectionKind, max: nat, limit: int) -> Result<
    Seq<SignalLoc>,
> {
    if kind == DataSectionKind::DynamicAlias2 {
        signed_table(s, 0, Seq::empty(), 0, SignalLoc::Empty, max, limit)
    } else {
        unsigned_table(s, 0, Seq::empty(), 0, max, limit)
    }
}

/// The first offset in the table at or behind `k`, or `limit`.
pub open spec fn next_offset(table: Seq<SignalLoc>, k: int, limit: int) -> int
    decreases table.len() - k,
{
    if k >= table.len() {
        limit
    } else {
        match table[k] {
            SignalLoc::Offset(offset) => offset as int,
            _ => next_offset(table, k + 1, limit),
        }
    }
}

/// Where the changes of signal `i` lie: their offset, and how many bytes they have.
pub open spec fn resolved(table: Seq<SignalLoc>, i: int, limit: int) -> Option<(int, int)>
    decreases i,
{
    match table[i] {
        SignalLoc::Empty => None,
        SignalLoc::Offset(offset) => Some(
            (offset as int, next_offset(table, i + 1, limit) - offset),
        ),
        SignalLoc::Alias(target) => if 0 <= target < i {
            resolved(table, target as int, limit)
        } else {
            None
        },
    }
}

/// Where the changes of each signal lie.
pub open spec fn resolved_all(table: Seq<SignalLoc>, limit: int) -> Seq<Option<(int, int)>> {
    Seq::new(table.len(), |i: int| resolved(table, i, limit))
}

/// Where the changes of each signal lie behind `start`, as the table says whose
/// length is stored at `chain_len_offset`.
pub open spec fn at_locs(
    s: Seq<u8>,
    chain_len_offset: int,
    kind: DataSectionKind,
    max: nat,
    start: int,
) -> Result<Seq<Option<(int, int)>>> {
    match at_u64(s, chain_len_offset) {
        Err(e) => Err(e),
        Ok((length, _)) => match at_bytes(s, chain_len_offset - length, length as int) {
            Err(e) => Err(e),
            Ok((bytes, _)) => {
                let limit = chain_len_offset - length - start;
                if limit < 0 {
                    Err(ReaderError::Malformed)
                } else {
                    match loc_table(bytes, kind, max, limit) {
                        Err(e) => Err(e),
                        Ok(table) => Ok(resolved_all(table, limit)),
                    }
                }
            },
        },
    }
}

/// The offsets in a table ascend, and none is above `top`.
pub open spec fn ascends(table: Seq<SignalLoc>, top: int) -> bool {
    &&& forall|i: int| 0 <= i < table.len() ==> (#[trigger] table[i] matches SignalLoc::Offset(o) ==> o <= top)
    &&& forall|i: int, j: int|
        0 <= i < j < table.len() && #[trigger] table[i] is Offset && #[trigger] table[j] is Offset
            ==> table[i]->Offset_0 < table[j]->Offset_0
}

proof fn lemma_next_offset(table: Seq<SignalLoc>, i: int, k: int, limit: int)
    requires
        ascends(table, limit),
        0 <= i < k <= table.len(),
        table[i] is Offset,
    ensures
        table[i]->Offset_0 <= next_offset(table, k, limit) <= limit,
    decreases table.len() - k,
{
    if k < table.len() && !(table[k] is Offset) {
        lemma_next_offset(table, i, k + 1, limit);
    }
}

fn push_empties(table: &mut Vec<SignalLoc>, n: u64)
    ensures
        final(table)@ == old(table)@ + empties(n as nat),
{
    let mut k: u64 = 0;
    while k < n
        invariant
            k <= n,
            table@ == old(table)@ + empties(k as nat),
        decreases n - k,
    {
        table.push(SignalLoc::Empty);
        k = k + 1;
        assert(table@ =~= old(table)@ + empties(k as nat));
    }
    assert(old(table)@ + empties(0) =~= old(table)@);
}

proof fn lemma_push_empties(table: Seq<SignalLoc>, n: nat, top: int)
    requires
        ascends(table, top),
    ensures
        ascends(table + empties(n), top),
{
}

proof fn lemma_push_loc(table: Seq<SignalLoc>, loc: SignalLoc, top: int, new_top: int)
    requires
        ascends(table, top),
        top <= new_top,
        loc matches SignalLoc::Offset(o) ==> top < o <= new_top,
    ensures
        ascends(table.push(loc), new_top),
{
    let longer = table.push(loc);
    assert forall|i: int| 0 <= i < longer.len() implies (
    #[trigger] longer[i] matches SignalLoc::Offset(o) ==> o <= new_top) by {
        if i < table.len() {
            assert(longer[i] == table[i]);
        }
    }
    assert forall|i: int, j: int|
        0 <= i < j < longer.len() && #[trigger] longer[i] is Offset && #[trigger] longer[j] is Offset
        implies longer[i]->Offset_0 < longer[j]->Offset_0 by {
        assert(longer[i] == table[i]);
        if j < table.len() {
            assert(longer[j] == table[j]);
        }
    }
}

fn read_signed_table(bytes: &[u8], max: u64, limit: u64) -> (r: Result<Vec<SignalLoc>>)
    ensures
        match (
            r,
            signed_table(bytes@, 0, Seq::empty(), 0, SignalLoc::Empty, max as nat, limit as int),
        ) {
            (Ok(v), Ok(w)) => v@ == w && ascends(w, limit as int),
            (Err(e), Err(f)) => e == f,
            _ => false,
        },
{
    let len: u64 = bytes.len() as u64;
    let mut table: Vec<SignalLoc> = Vec::new();
    let mut pos: u64 = 0;
    let mut offset: u64 = 0;
    let mut alias: SignalLoc = SignalLoc::Empty;
    let ghost whole = signed_table(
        bytes@,
        0,
        Seq::empty(),
        0,
        SignalLoc::Empty,
        max as nat,
        limit as int,
    );
    while pos < len
        invariant
            len == bytes@.len(),
            whole == signed_table(
                bytes@,
                0,
                Seq::empty(),
                0,
                SignalLoc::Empty,
                max as nat,
                limit as int,
            ),
            whole == signed_table(
                bytes@,
                pos as int,
                table@,
                offset as int,
                alias,
                max as nat,
                limit as int,
            ),
            offset == 0 || offset <= limit,
            !(alias is Offset),
            ascends(table@, offset as int),
        decreases len - pos,
    {
        if bytes[pos as usize] % 2 == 1 {
            let (value, next) = read_variant_i64(bytes, pos)?;
            let shift: i128 = if value >= 0 {
                value / 2
            } else {
                -((1 - value) / 2)
            };
            assert(shift == value as int / 2);
            if table.len() as u64 >= max || offset as i128 + shift >= limit as i128 {
                return Err(ReaderError::Malformed);
            }
            if shift > 0 {
                proof {
                    lemma_push_loc(
                        table@,
                        SignalLoc::Offset((offset + shift) as u64),
                        offset as int,
                        offset + shift,
                    );
                }
                offset = (offset as i128 + shift) as u64;
                table.push(SignalLoc::Offset(offset));
            } else {
                if shift < 0 {
                    let target: i128 = -shift - 1;
                    alias = if target < table.len() as i128 {
                        SignalLoc::Alias(target as u64)
                    } else {
                        SignalLoc::Empty
                    };
                }
                proof {
                    lemma_push_loc(table@, alias, offset as int, offset as int);
                }
                table.push(alias);
            }
            pos = next;
        } else {
            let (value, next) = read_variant_u32(bytes, pos)?;
            let n: u64 = (value / 2) as u64;
            if table.len() as u64 > max || n > max - table.len() as u64 {
                return Err(ReaderError::Malformed);
            }
            proof {
                lemma_push_empties(table@, n as nat, offset as int);
            }
            push_empties(&mut table, n);
            pos = next;
        }
    }
    Ok(table)
}

fn read_unsigned_table(bytes: &[u8], max: u64, limit: u64) -> (r: Result<Vec<SignalLoc>>)
    ensures
        match (r, unsigned_table(bytes@, 0, Seq::empty(), 0, max as nat, limit as int)) {
            (Ok(v), Ok(w)) => v@ == w && ascends(w, limit as int),
            (Err(e), Err(f)) => e == f,
            _ => false,
        },
{
    let len: u64 = bytes.len() as u64;
    let mut table: Vec<SignalLoc> = Vec::new();
    let mut pos: u64 = 0;
    let mut offset: u64 = 0;
    let ghost whole = unsigned_table(bytes@, 0, Seq::empty(), 0, max as nat, limit as int);
    while pos < len
        invariant
            len == bytes@.len(),
            whole == unsigned_table(bytes@, 0, Seq::empty(), 0, max as nat, limit as int),
            whole == unsigned_table(
                bytes@,
                pos as int,
                table@,
                offset as int,
                max as nat,
                limit as int,
            ),
            offset == 0 || offset <= limit,
            ascends(table@, offset as int),
        decreases len - pos,
    {
        let (value, next) = read_variant_u32(bytes, pos)?;
        if value == 0 {
            let (alias, behind) = read_variant_u32(bytes, next)?;
            if table.len() as u64 >= max {
                return Err(ReaderError::Malformed);
            }
            let target: SignalLoc = if alias >= 1 && (alias as u64) <= table.len() as u64 {
                SignalLoc::Alias(alias as u64 - 1)
            } else {
                SignalLoc::Empty
            };
            proof {
                lemma_push_loc(table@, target, offset as int, offset as int);
            }
            table.push(target);
            pos = behind;
        } else if value % 2 == 1 {
            let step: u64 = (value / 2) as u64;
            if table.len() as u64 >= max || step == 0 || offset >= limit || step >= limit - offset {
                return Err(ReaderError::Malformed);
            }
            proof {
                lemma_push_loc(
                    table@,
                    SignalLoc::Offset((offset + step) as u64),
                    offset as int,
                    offset + step,
                );
            }
            offset = offset + step;
            table.push(SignalLoc::Offset(offset));
            pos = next;
        } else {
            let n: u64 = (value / 2) as u64;
            if table.len() as u64 > max || n > max - table.len() as u64 {
                return Err(ReaderError::Malformed);
            }
            proof {
                lemma_push_empties(table@, n as nat, offset as int);
            }
            push_empties(&mut table, n);
            pos = next;
        }
    }
    Ok(table)
}

/// The entry of an executable location, for a mathematical one.
pub open spec fn loc_view(loc: Option<(u64, u64)>) -> Option<(int, int)> {
    match loc {
        Some((offset, len)) => Some((offset as int, len as int)),
        None => None,
    }
}

pub open spec fn loc_views(locs: Seq<Option<(u64, u64)>>) -> Seq<Option<(int, int)>> {
    Seq::new(locs.len(), |i: int| loc_view(locs[i]))
}

/// For each entry of a table, the next offset behind it.
fn offsets_behind(table: &Vec<SignalLoc>, limit: u64) -> (r: Vec<u64>)
    requires
        ascends(table@, limit as int),
    ensures
        r@.len() == table@.len(),
        forall|i: int|
            0 <= i < table@.len() ==> #[trigger] r@[i] == next_offset(table@, i + 1, limit as int),
{
    let n: usize = table.len();
    let mut behind: Vec<u64> = vec![limit; n];
    let mut next: u64 = limit;
    let mut k: usize = n;
    while k > 0
        invariant
            k <= n == table@.len(),
            behind@.len() == n,
            next == next_offset(table@, k as int, limit as int),
            forall|i: int|
                k <= i < n ==> #[trigger] behind@[i] == next_offset(table@, i + 1, limit as int),
        decreases k,
    {
        k = k - 1;
        behind.set(k, next);
        if let SignalLoc::Offset(offset) = table[k] {
            next = offset;
        }
    }
    behind
}

/// Works out where the changes of each signal lie.
pub fn resolve(table: &Vec<SignalLoc>, limit: u64) -> (r: Vec<Option<(u64, u64)>>)
    requires
        ascends(table@, limit as int),
    ensures
        loc_views(r@) == resolved_all(table@, limit as int),
{
    let behind = offsets_behind(table, limit);
    let mut locs: Vec<Option<(u64, u64)>> = Vec::new();
    let mut i: usize = 0;
    while i < table.len()
        invariant
            i <= table@.len(),
            locs@.len() == i,
            behind@.len() == table@.len(),
            ascends(table@, limit as int),
            forall|k: int|
                0 <= k < table@.len() ==> #[trigger] behind@[k] == next_offset(
                    table@,
                    k + 1,
                    limit as int,
                ),
            forall|k: int|
                0 <= k < i ==> loc_view(#[trigger] locs@[k]) == resolved(table@, k, limit as int),
        decreases table@.len() - i,
    {
        let loc = match table[i] {
            SignalLoc::Empty => None,
            SignalLoc::Offset(offset) => {
                proof {
                    lemma_next_offset(table@, i as int, i + 1, limit as int);
                }
                Some((offset, behind[i] - offset))
            },
            SignalLoc::Alias(target) => if target < i as u64 {
                locs[target as usize]
            } else {
                None
            },
        };
        locs.push(loc);
        i = i + 1;
    }
    assert(loc_views(locs@) =~= resolved_all(table@, limit as int));
    locs
}

/// Reads where the changes of each signal lie.
pub fn read_signal_locs(
    data: &[u8],
    chain_len_offset: u64,
    kind: DataSectionKind,
    max_handle: u64,
    start: u64,
) -> (r: Result<Vec<Option<(u64, u64)>>>)
    ensures
        match (
            r,
            at_locs(data@, chain_len_offset as int, kind, max_handle as nat, start as int),
        ) {
            (Ok(v), Ok(w)) => loc_views(v@) == w,
            (Err(e), Err(f)) => e == f,
            _ => false,
        },
{
    let (length, _) = read_u64(data, chain_len_offset)?;
    if length > chain_len_offset {
        return Err(ReaderError::Io);
    }
    let chain_start: u64 = chain_len_offset - length;
    let bytes = read_slice(data, chain_start, length)?;
    if chain_start < start {
        return Err(ReaderError::Malformed);
    }
    let limit: u64 = chain_start - start;
    let table = if kind == DataSectionKind::DynamicAlias2 {
        read_signed_table(bytes, max_handle, limit)?
    } else {
        read_unsigned_table(bytes, max_handle, limit)?
    };
    Ok(resolve(&table, limit))
}

/// A selected signal has changes.
pub open spec fn any_located(locs: Seq<Option<(int, int)>>, mask: Seq<bool>) -> bool {
    exists|i: int| 0 <= i < locs.len() && i < mask.len() && mask[i] && #[trigger] locs[i] is Some
}

/// Checks whether any selected signal has changes.
pub fn check_any_signal_loc_non_none(locs: &Vec<Option<(u64, u64)>>, mask: &BitMask) -> (r: bool)
    ensures
        r == any_located(loc_views(locs@), mask@),
{
    let ghost views = loc_views(locs@);
    let mut i: usize = 0;
    while i < locs.len()
        invariant
            i <= locs@.len(),
            views == loc_views(locs@),
            forall|k: int| 0 <= k < i && k < mask@.len() && mask@[k] ==> #[trigger] views[k] is None,
        decreases locs@.len() - i,
    {
        if mask.is_set(i) {
            assert(views[i as int] == loc_view(locs@[i as int]));
            if locs[i].is_some() {
                return true;
            }
        }
        i = i + 1;
    }
    false
}

} // verus!
