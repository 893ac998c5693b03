//! The table of a section that tells where the changes of the signals are.

use crate::laws::encoding::{
    be_bytes, bytes_read_back, leb_encoded, leb_signed_encoded, lemma_eight_bytes, lemma_stands,
    stands_at, u64_reads_back, variant_signed_reads_back, variant_u32_reads_back,
};
use crate::locations::{
    at_locs, empties, loc_table, next_offset, resolved, resolved_all, signed_table, unsigned_table,
    SignalLoc,
};
use crate::types::{DataSectionKind, ReaderError};
use vstd::prelude::*;

verus! {

/// An item of a table to be written.
pub enum Item {
    /// so many signals do not change
    Gap(nat),
    /// the changes of a signal begin so many bytes behind those before
    At(nat),
    /// a signal has the changes of another one
    Like(nat),
    /// a signal has the changes that the last such signal has
    Again,
}

/// An item of a table with signed numbers.
pub open spec fn signed_item(item: Item) -> Seq<u8> {
    match item {
        Item::Gap(n) => leb_encoded(2 * n),
        Item::At(step) => leb_signed_encoded((2 * step + 1) as int),
        Item::Like(target) => leb_signed_encoded(-2 * (target + 1) + 1),
        Item::Again => leb_signed_encoded(1),
    }
}

/// An item of a table with unsigned numbers.
pub open spec fn unsigned_item(item: Item) -> Seq<u8> {
    match item {
        Item::Gap(n) => leb_encoded(2 * n),
        Item::At(step) => leb_encoded(2 * step + 1),
        Item::Like(target) => leb_encoded(0) + leb_encoded(target + 1),
        Item::Again => Seq::empty(),
    }
}

/// An item of the table of a section of the given kind.
pub open spec fn item_bytes(kind: DataSectionKind, item: Item) -> Seq<u8> {
    if kind == DataSectionKind::DynamicAlias2 {
        signed_item(item)
    } else {
        unsigned_item(item)
    }
}

/// A table in its written form.
pub open spec fn table_bytes(kind: DataSectionKind, items: Seq<Item>) -> Seq<u8>
    decreases items.len(),
{
    if items.len() == 0 {
        Seq::empty()
    } else {
        item_bytes(kind, items[0]) + table_bytes(kind, items.drop_first())
    }
}

/// What the items say of the signals, those in front of them being known: `offset` is
/// where the last changes begin, and `last` the last signal whose changes another has.
pub open spec fn table_of(
    items: Seq<Item>,
    before: Seq<SignalLoc>,
    offset: nat,
    last: Option<nat>,
) -> Seq<SignalLoc>
    decreases items.len(),
{
    if items.len() == 0 {
        before
    } else {
        let rest = items.drop_first();
        match items[0] {
            Item::Gap(n) => table_of(
                rest,
                before + Seq::new(n, |k: int| SignalLoc::Empty),
                offset,
                last,
            ),
            Item::At(step) => table_of(
                rest,
                before.push(SignalLoc::Offset((offset + step) as u64)),
                offset + step,
                last,
            ),
            Item::Like(target) => table_of(
                rest,
                before.push(SignalLoc::Alias(target as u64)),
                offset,
                Some(target),
            ),
            Item::Again => table_of(
                rest,
                before.push(SignalLoc::Alias(last->0 as u64)),
                offset,
                last,
            ),
        }
    }
}

/// The items can be written, with `n` signals in front of them: there are no more
/// than `max` signals, the changes begin before `limit`, and a signal has the
/// changes of an earlier one.
pub open spec fn table_writable(
    kind: DataSectionKind,
    items: Seq<Item>,
    n: nat,
    offset: nat,
    last: Option<nat>,
    max: nat,
    limit: nat,
) -> bool
    decreases items.len(),
{
    items.len() > 0 ==> {
        let rest = items.drop_first();
        let signed = kind == DataSectionKind::DynamicAlias2;
        match items[0] {
            Item::Gap(k) => 0 < k && 2 * k <= u32::MAX && n + k <= max && table_writable(
                kind,
                rest,
                n + k,
                offset,
                last,
                max,
                limit,
            ),
            Item::At(step) => 0 < step && 2 * step + 1 <= (if signed {
                0x7fff_ffff_ffff_ffff
            } else {
                u32::MAX as nat
            }) && offset + step < limit && n < max && table_writable(
                kind,
                rest,
                n + 1,
                offset + step,
                last,
                max,
                limit,
            ),
            Item::Like(target) => target < n < max && 2 * (target + 1) <= u32::MAX
                && table_writable(kind, rest, n + 1, offset, Some(target), max, limit),
            Item::Again => signed && offset < limit && n < max && last is Some && table_writable(
                kind,
                rest,
                n + 1,
                offset,
                last,
                max,
                limit,
            ),
        }
    }
}

proof fn lemma_odd_byte(n: int)
    ensures
        leb_signed_encoded(n).len() > 0,
        leb_signed_encoded(n)[0] % 2 == n % 2,
{
}

proof fn lemma_even_byte(n: nat)
    ensures
        leb_encoded(n).len() > 0,
        leb_encoded(n)[0] % 2 == n % 2,
{
}

proof fn lemma_signed_table(
    items: Seq<Item>,
    before: Seq<SignalLoc>,
    offset: nat,
    last: Option<nat>,
    alias: SignalLoc,
    s: Seq<u8>,
    pos: int,
    max: nat,
    limit: nat,
)
    requires
        table_writable(
            DataSectionKind::DynamicAlias2,
            items,
            before.len(),
            offset,
            last,
            max,
            limit,
        ),
        offset <= limit <= u64::MAX,
        last matches Some(target) ==> alias == SignalLoc::Alias(target as u64) && target
            < before.len() && target <= u32::MAX,
        stands_at(table_bytes(DataSectionKind::DynamicAlias2, items), s, pos),
        pos + table_bytes(DataSectionKind::DynamicAlias2, items).len() == s.len(),
    ensures
        signed_table(s, pos, before, offset as int, alias, max, limit as int) == Ok::<
            Seq<SignalLoc>,
            ReaderError,
        >(table_of(items, before, offset, last)),
    decreases items.len(),
{
    if items.len() > 0 {
        let kind = DataSectionKind::DynamicAlias2;
        let item = items[0];
        let rest = items.drop_first();
        let first = signed_item(item);
        lemma_stands(first, table_bytes(kind, rest), s, pos);
        let next = pos + first.len();
        match item {
            Item::Gap(n) => {
                lemma_even_byte(2 * n);
                assert(first[0] == s[pos + 0]);
                variant_u32_reads_back((2 * n) as u32, s, pos);
                let more = before + Seq::new(n, |k: int| SignalLoc::Empty);
                assert(before + empties(n) =~= more);
                lemma_signed_table(rest, more, offset, last, alias, s, next, max, limit);
                assert(signed_table(s, pos, before, offset as int, alias, max, limit as int)
                    == signed_table(s, next, more, offset as int, alias, max, limit as int));
            },
            Item::At(step) => {
                lemma_odd_byte((2 * step + 1) as int);
                assert(first[0] == s[pos + 0]);
                variant_signed_reads_back((2 * step + 1) as int, s, pos);
                let more = before.push(SignalLoc::Offset((offset + step) as u64));
                lemma_signed_table(rest, more, offset + step, last, alias, s, next, max, limit);
                assert(signed_table(s, pos, before, offset as int, alias, max, limit as int)
                    == signed_table(s, next, more, (offset + step) as int, alias, max, limit as int));
            },
            Item::Like(target) => {
                lemma_odd_byte(-2 * (target + 1) + 1);
                assert(first[0] == s[pos + 0]);
                variant_signed_reads_back(-2 * (target + 1) + 1, s, pos);
                let same = SignalLoc::Alias(target as u64);
                lemma_signed_table(
                    rest,
                    before.push(same),
                    offset,
                    Some(target),
                    same,
                    s,
                    next,
                    max,
                    limit,
                );
                let more = before.push(same);
                assert(signed_table(s, pos, before, offset as int, alias, max, limit as int)
                    == signed_table(s, next, more, offset as int, same, max, limit as int));
            },
            Item::Again => {
                lemma_odd_byte(1);
                assert(first[0] == s[pos + 0]);
                variant_signed_reads_back(1, s, pos);
                lemma_signed_table(
                    rest,
                    before.push(alias),
                    offset,
                    last,
                    alias,
                    s,
                    next,
                    max,
                    limit,
                );
                let more = before.push(alias);
                assert(signed_table(s, pos, before, offset as int, alias, max, limit as int)
                    == signed_table(s, next, more, offset as int, alias, max, limit as int));
            },
        }
    }
}

proof fn lemma_unsigned_table(
    kind: DataSectionKind,
    items: Seq<Item>,
    before: Seq<SignalLoc>,
    offset: nat,
    last: Option<nat>,
    s: Seq<u8>,
    pos: int,
    max: nat,
    limit: nat,
)
    requires
        kind != DataSectionKind::DynamicAlias2,
        table_writable(kind, items, before.len(), offset, last, max, limit),
        limit <= u64::MAX,
        stands_at(table_bytes(kind, items), s, pos),
        pos + table_bytes(kind, items).len() == s.len(),
    ensures
        unsigned_table(s, pos, before, offset as int, max, limit as int) == Ok::<
            Seq<SignalLoc>,
            ReaderError,
        >(table_of(items, before, offset, last)),
    decreases items.len(),
{
    if items.len() > 0 {
        let item = items[0];
        let rest = items.drop_first();
        let first = unsigned_item(item);
        lemma_stands(first, table_bytes(kind, rest), s, pos);
        let next = pos + first.len();
        match item {
            Item::Gap(n) => {
                lemma_even_byte(2 * n);
                variant_u32_reads_back((2 * n) as u32, s, pos);
                let more = before + Seq::new(n, |k: int| SignalLoc::Empty);
                assert(before + empties(n) =~= more);
                lemma_unsigned_table(kind, rest, more, offset, last, s, next, max, limit);
            },
            Item::At(step) => {
                lemma_even_byte(2 * step + 1);
                variant_u32_reads_back((2 * step + 1) as u32, s, pos);
                let more = before.push(SignalLoc::Offset((offset + step) as u64));
                lemma_unsigned_table(kind, rest, more, offset + step, last, s, next, max, limit);
            },
            Item::Like(target) => {
                lemma_even_byte(0);
                lemma_stands(leb_encoded(0), leb_encoded(target + 1), s, pos);
                variant_u32_reads_back(0, s, pos);
                variant_u32_reads_back((target + 1) as u32, s, pos + leb_encoded(0).len());
                let same = SignalLoc::Alias(target as u64);
                lemma_unsigned_table(
                    kind,
                    rest,
                    before.push(same),
                    offset,
                    Some(target),
                    s,
                    next,
                    max,
                    limit,
                );
            },
            Item::Again => {},
        }
    }
}

/// A table reads back as it was written: which signals do not change, where the
/// changes of the others begin, and which have those of another.
pub proof fn table_reads_back(kind: DataSectionKind, items: Seq<Item>, max: nat, limit: nat)
    requires
        table_writable(kind, items, 0, 0, None, max, limit),
        limit <= u64::MAX,
    ensures
        loc_table(table_bytes(kind, items), kind, max, limit as int) == Ok::<
            Seq<SignalLoc>,
            ReaderError,
        >(table_of(items, Seq::empty(), 0, None)),
{
    let bytes = table_bytes(kind, items);
    assert(stands_at(bytes, bytes, 0));
    if kind == DataSectionKind::DynamicAlias2 {
        lemma_signed_table(
            items,
            Seq::empty(),
            0,
            None,
            SignalLoc::Empty,
            bytes,
            0,
            max,
            limit,
        );
    } else {
        lemma_unsigned_table(kind, items, Seq::empty(), 0, None, bytes, 0, max, limit);
    }
}

/// The place of the changes of each signal reads back from a table that stands
/// behind them, with its length behind it.
pub proof fn locations_read_back(
    kind: DataSectionKind,
    items: Seq<Item>,
    max: nat,
    s: Seq<u8>,
    start: int,
    end: int,
)
    requires
        0 <= start <= end,
        s.len() <= u64::MAX,
        table_writable(kind, items, 0, 0, None, max, (end - start) as nat),
        stands_at(
            table_bytes(kind, items) + be_bytes(table_bytes(kind, items).len() as u64),
            s,
            end,
        ),
    ensures
        at_locs(s, end + table_bytes(kind, items).len(), kind, max, start) == Ok::<
            Seq<Option<(int, int)>>,
            ReaderError,
        >(resolved_all(table_of(items, Seq::empty(), 0, None), end - start)),
{
    let bytes = table_bytes(kind, items);
    lemma_eight_bytes(bytes.len() as u64);
    lemma_stands(bytes, be_bytes(bytes.len() as u64), s, end);
    u64_reads_back(bytes.len() as u64, s, end + bytes.len());
    bytes_read_back(bytes, s, end);
    table_reads_back(kind, items, max, (end - start) as nat);
}

proof fn lemma_next_offset_is(table: Seq<SignalLoc>, k: int, j: int, limit: int)
    requires
        0 <= k <= j <= table.len(),
        forall|m: int| k <= m < j ==> !(#[trigger] table[m] is Offset),
        j < table.len() ==> table[j] is Offset,
    ensures
        next_offset(table, k, limit) == (if j < table.len() {
            table[j]->Offset_0 as int
        } else {
            limit
        }),
    decreases j - k,
{
    if k < j {
        assert(!(table[k] is Offset));
        lemma_next_offset_is(table, k + 1, j, limit);
    }
}

/// What a table says of a signal: one that does not change has no place. The
/// changes of another go from their beginning to that of the next changes, or to the
/// end if there are no more. One with the changes of an earlier signal has its place.
pub proof fn places_are_those_of_the_table(table: Seq<SignalLoc>, i: int, j: int, limit: int)
    requires
        0 <= i < j <= table.len(),
        forall|m: int| i < m < j ==> !(#[trigger] table[m] is Offset),
        j < table.len() ==> table[j] is Offset,
    ensures
        table[i] is Empty ==> resolved(table, i, limit) is None,
        table[i] matches SignalLoc::Offset(offset) ==> resolved(table, i, limit) == Some(
            (
                offset as int,
                (if j < table.len() {
                    table[j]->Offset_0 as int
                } else {
                    limit
                }) - offset,
            ),
        ),
        table[i] matches SignalLoc::Alias(target) ==> (target < i ==> resolved(table, i, limit)
            == resolved(table, target as int, limit)),
{
    lemma_next_offset_is(table, i + 1, j, limit);
}

/// A signal cannot have the changes of itself or of a later one: then it has no place.
pub proof fn later_signals_are_no_places(table: Seq<SignalLoc>, i: int, limit: int)
    requires
        0 <= i < table.len(),
        table[i] matches SignalLoc::Alias(target) && target >= i,
    ensures
        resolved(table, i, limit) is None,
{
}

/// An item that names a signal that does not come before tells nothing.
pub proof fn unknown_signals_tell_nothing(
    target: nat,
    s: Seq<u8>,
    pos: int,
    before: Seq<SignalLoc>,
    offset: nat,
    alias: SignalLoc,
    max: nat,
    limit: nat,
)
    requires
        before.len() < max,
        before.len() <= target,
        2 * (target + 1) <= u32::MAX,
        offset <= limit <= u64::MAX,
    ensures
        stands_at(signed_item(Item::Like(target)), s, pos) && pos + signed_item(
            Item::Like(target),
        ).len() == s.len() ==> signed_table(
            s,
            pos,
            before,
            offset as int,
            alias,
            max,
            limit as int,
        ) == Ok::<Seq<SignalLoc>, ReaderError>(before.push(SignalLoc::Empty)),
        stands_at(unsigned_item(Item::Like(target)), s, pos) && pos + unsigned_item(
            Item::Like(target),
        ).len() == s.len() ==> unsigned_table(s, pos, before, offset as int, max, limit as int)
            == Ok::<Seq<SignalLoc>, ReaderError>(before.push(SignalLoc::Empty)),
{
    let signed = signed_item(Item::Like(target));
    if stands_at(signed, s, pos) && pos + signed.len() == s.len() {
        lemma_odd_byte(-2 * (target + 1) + 1);
        assert(signed[0] == s[pos + 0]);
        variant_signed_reads_back(-2 * (target + 1) + 1, s, pos);
        reveal_with_fuel(signed_table, 2);
    }
    let zero = leb_encoded(0);
    let unsigned = unsigned_item(Item::Like(target));
    if stands_at(unsigned, s, pos) && pos + unsigned.len() == s.len() {
        lemma_even_byte(0);
        lemma_stands(zero, leb_encoded(target + 1), s, pos);
        variant_u32_reads_back(0, s, pos);
        variant_u32_reads_back((target + 1) as u32, s, pos + zero.len());
        reveal_with_fuel(unsigned_table, 2);
    }
}

/// A table is refused where it tells of more signals than there are, or of changes that
/// would begin at the end or behind it.
pub proof fn bad_tables_are_refused(
    item: Item,
    kind: DataSectionKind,
    s: Seq<u8>,
    pos: int,
    before: Seq<SignalLoc>,
    offset: nat,
    alias: SignalLoc,
    max: nat,
    limit: nat,
)
    requires
        before.len() <= max,
        stands_at(item_bytes(kind, item), s, pos),
        match item {
            Item::Gap(n) => 0 < n && 2 * n <= u32::MAX && before.len() + n > max,
            Item::At(step) => 0 < step && 2 * step + 1 <= u32::MAX && (before.len() == max
                || offset + step >= limit),
            Item::Like(target) => 2 * (target + 1) <= u32::MAX && before.len() == max,
            Item::Again => kind == DataSectionKind::DynamicAlias2 && before.len() == max,
        },
    ensures
        kind == DataSectionKind::DynamicAlias2 ==> signed_table(
            s,
            pos,
            before,
            offset as int,
            alias,
            max,
            limit as int,
        ) == Err::<Seq<SignalLoc>, ReaderError>(ReaderError::Malformed),
        kind != DataSectionKind::DynamicAlias2 ==> unsigned_table(
            s,
            pos,
            before,
            offset as int,
            max,
            limit as int,
        ) == Err::<Seq<SignalLoc>, ReaderError>(ReaderError::Malformed),
{
    let bytes = item_bytes(kind, item);
    if kind == DataSectionKind::DynamicAlias2 {
        match item {
            Item::Gap(n) => {
                lemma_even_byte(2 * n);
                assert(bytes[0] == s[pos + 0]);
                variant_u32_reads_back((2 * n) as u32, s, pos);
            },
            Item::At(step) => {
                lemma_odd_byte((2 * step + 1) as int);
                assert(bytes[0] == s[pos + 0]);
                variant_signed_reads_back((2 * step + 1) as int, s, pos);
            },
            Item::Like(target) => {
                lemma_odd_byte(-2 * (target + 1) + 1);
                assert(bytes[0] == s[pos + 0]);
                variant_signed_reads_back(-2 * (target + 1) + 1, s, pos);
            },
            Item::Again => {
                lemma_odd_byte(1);
                assert(bytes[0] == s[pos + 0]);
                variant_signed_reads_back(1, s, pos);
            },
        }
    } else {
        match item {
            Item::Gap(n) => {
                lemma_even_byte(2 * n);
                variant_u32_reads_back((2 * n) as u32, s, pos);
            },
            Item::At(step) => {
                lemma_even_byte(2 * step + 1);
                variant_u32_reads_back((2 * step + 1) as u32, s, pos);
            },
            Item::Like(target) => {
                lemma_even_byte(0);
                lemma_stands(leb_encoded(0), leb_encoded(target + 1), s, pos);
                variant_u32_reads_back(0, s, pos);
                variant_u32_reads_back((target + 1) as u32, s, pos + leb_encoded(0).len());
            },
            Item::Again => {},
        }
    }
}

} // verus!
