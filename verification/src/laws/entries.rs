//! The entries of a hierarchy read back as they were written.

use crate::hierarchy::{
    at_attribute, at_entry, at_hierarchy_bytes, at_scope, at_var, entries_from, geometry_of,
    hierarchy_entries, own_signals, var_length, var_type, EntryAt, EntryView, FstVarType,
};
use crate::laws::encoding::{
    byte_reads_back, c_str, c_str_reads_back, leb_encoded, lemma_stands, no_zero, stands_at,
    variant_u32_reads_back, variant_u64_reads_back,
};
use crate::types::{FstSignalHandle, HierarchyCompression, ReaderError, SignalInfo};
use vstd::prelude::*;
use vstd::utf8::encode_utf8;

verus! {

/// The number of a variable type.
pub open spec fn var_code(tpe: FstVarType) -> u8 {
    match tpe {
        FstVarType::Event => 0,
        FstVarType::Integer => 1,
        FstVarType::Parameter => 2,
        FstVarType::Real => 3,
        FstVarType::RealParameter => 4,
        FstVarType::Reg => 5,
        FstVarType::Supply0 => 6,
        FstVarType::Supply1 => 7,
        FstVarType::Time => 8,
        FstVarType::Tri => 9,
        FstVarType::TriAnd => 10,
        FstVarType::TriOr => 11,
        FstVarType::TriReg => 12,
        FstVarType::Tri0 => 13,
        FstVarType::Tri1 => 14,
        FstVarType::Wand => 15,
        FstVarType::Wire => 16,
        FstVarType::Wor => 17,
        FstVarType::Port => 18,
        FstVarType::SparseArray => 19,
        FstVarType::RealTime => 20,
        FstVarType::GenericString => 21,
        FstVarType::Bit => 22,
        FstVarType::Logic => 23,
        FstVarType::Int => 24,
        FstVarType::ShortInt => 25,
        FstVarType::LongInt => 26,
        FstVarType::Byte => 27,
        FstVarType::Enum => 28,
        FstVarType::ShortReal => 29,
    }
}

/// A byte is the number of one variable type at most, and each type has its number.
pub proof fn var_types_read_back(tpe: FstVarType, code: u8)
    ensures
        var_type(code) == Some(tpe) <==> code == var_code(tpe),
{
}

/// The length that is stored for a variable: that of a port is the number of its
/// characters, three for each bit and two spaces.
pub open spec fn stored_length(tpe: FstVarType, length: u32) -> nat {
    if tpe is Port {
        (3 * length + 2) as nat
    } else {
        length as nat
    }
}

/// An entry in its written form.
pub open spec fn entry_bytes(entry: EntryView) -> Seq<u8> {
    match entry {
        EntryView::Scope { tpe, name, component } => seq![254u8] + (seq![tpe] + (c_str(name)
            + c_str(component))),
        EntryView::UpScope => seq![255u8],
        EntryView::Var { tpe, direction, name, length, handle, is_alias } => seq![var_code(tpe)]
            + (seq![direction] + (c_str(name) + (leb_encoded(stored_length(tpe, length))
            + leb_encoded(alias_field(handle, is_alias))))),
        EntryView::AttributeBegin { tpe, subtype, name, arg } => seq![252u8] + (seq![tpe] + (seq![
            subtype,
        ] + (c_str(name) + leb_encoded(arg as nat)))),
        EntryView::AttributeEnd => seq![253u8],
    }
}

/// The text has no zero byte, and less than `max` bytes.
pub open spec fn is_short(text: Seq<char>, max: int) -> bool {
    no_zero(text) && encode_utf8(text).len() < max
}

/// The entry can be written, with `count` signals in front of it: its texts are
/// short enough, its numbers have no more than 32 bits, and a variable that is no
/// alias has the next handle.
pub open spec fn entry_writable(entry: EntryView, count: u32) -> bool {
    match entry {
        EntryView::Scope { name, component, .. } => is_short(name, 512) && is_short(
            component,
            512,
        ),
        EntryView::Var { tpe, name, length, handle, is_alias, .. } => {
            &&& is_short(name, 512)
            &&& stored_length(tpe, length) <= u32::MAX
            &&& if is_alias {
                handle.index < u32::MAX
            } else {
                handle.index == count && count < u32::MAX - 1
            }
        },
        EntryView::AttributeBegin { name, .. } => is_short(name, 69632),
        _ => true,
    }
}

/// The number of signals behind an entry.
pub open spec fn count_behind(entry: EntryView, count: u32) -> u32 {
    match entry {
        EntryView::Var { is_alias, .. } => if is_alias {
            count
        } else {
            (count + 1) as u32
        },
        _ => count,
    }
}

proof fn lemma_scope_read(
    tpe: u8,
    name: Seq<char>,
    component: Seq<char>,
    count: u32,
    s: Seq<u8>,
    pos: int,
)
    requires
        is_short(name, 512),
        is_short(component, 512),
        stands_at(seq![tpe] + (c_str(name) + c_str(component)), s, pos),
    ensures
        at_scope(s, pos, count) == Ok::<EntryAt, ReaderError>(
            EntryAt {
                entry: EntryView::Scope { tpe, name, component },
                next: pos + 1 + c_str(name).len() + c_str(component).len(),
                count,
            },
        ),
{
    lemma_stands(seq![tpe], c_str(name) + c_str(component), s, pos);
    lemma_stands(c_str(name), c_str(component), s, pos + 1);
    byte_reads_back(tpe, s, pos);
    c_str_reads_back(name, 512, s, pos + 1);
    c_str_reads_back(component, 512, s, pos + 1 + c_str(name).len());
}

proof fn lemma_attribute_read(
    tpe: u8,
    subtype: u8,
    name: Seq<char>,
    arg: u64,
    count: u32,
    s: Seq<u8>,
    pos: int,
)
    requires
        is_short(name, 69632),
        stands_at(
            seq![tpe] + (seq![subtype] + (c_str(name) + leb_encoded(arg as nat))),
            s,
            pos,
        ),
    ensures
        at_attribute(s, pos, count) == Ok::<EntryAt, ReaderError>(
            EntryAt {
                entry: EntryView::AttributeBegin { tpe, subtype, name, arg },
                next: pos + 2 + c_str(name).len() + leb_encoded(arg as nat).len(),
                count,
            },
        ),
{
    let tail = c_str(name) + leb_encoded(arg as nat);
    lemma_stands(seq![tpe], seq![subtype] + tail, s, pos);
    lemma_stands(seq![subtype], tail, s, pos + 1);
    lemma_stands(c_str(name), leb_encoded(arg as nat), s, pos + 2);
    byte_reads_back(tpe, s, pos);
    byte_reads_back(subtype, s, pos + 1);
    c_str_reads_back(name, 69632, s, pos + 2);
    variant_u64_reads_back(arg, s, pos + 2 + c_str(name).len());
}

/// The alias field of a variable.
pub open spec fn alias_field(handle: FstSignalHandle, is_alias: bool) -> nat {
    if is_alias {
        handle.index as nat + 1
    } else {
        0
    }
}

proof fn lemma_var_read(
    tpe: FstVarType,
    direction: u8,
    name: Seq<char>,
    length: u32,
    handle: FstSignalHandle,
    is_alias: bool,
    count: u32,
    s: Seq<u8>,
    pos: int,
)
    requires
        entry_writable(
            EntryView::Var { tpe, direction, name, length, handle, is_alias },
            count,
        ),
        stands_at(
            seq![direction] + (c_str(name) + (leb_encoded(stored_length(tpe, length))
                + leb_encoded(alias_field(handle, is_alias)))),
            s,
            pos,
        ),
    ensures
        at_var(s, pos, count, tpe) == Ok::<EntryAt, ReaderError>(
            EntryAt {
                entry: EntryView::Var { tpe, direction, name, length, handle, is_alias },
                next: pos + 1 + c_str(name).len() + leb_encoded(stored_length(tpe, length)).len()
                    + leb_encoded(alias_field(handle, is_alias)).len(),
                count: if is_alias {
                    count
                } else {
                    (count + 1) as u32
                },
            },
        ),
{
    let stored = stored_length(tpe, length);
    let alias = alias_field(handle, is_alias);
    let numbers = leb_encoded(stored) + leb_encoded(alias);
    lemma_stands(seq![direction], c_str(name) + numbers, s, pos);
    lemma_stands(c_str(name), numbers, s, pos + 1);
    let p = pos + 1 + c_str(name).len();
    lemma_stands(leb_encoded(stored), leb_encoded(alias), s, p);
    byte_reads_back(direction, s, pos);
    c_str_reads_back(name, 512, s, pos + 1);
    variant_u32_reads_back(stored as u32, s, p);
    variant_u32_reads_back(alias as u32, s, p + leb_encoded(stored).len());
}

/// An entry reads back as it was written, wherever it stands. An alias has the
/// handle that it was written with, and another variable the next one.
pub proof fn entry_reads_back(entry: EntryView, count: u32, s: Seq<u8>, pos: int)
    requires
        entry_writable(entry, count),
        stands_at(entry_bytes(entry), s, pos),
    ensures
        at_entry(s, pos, count) == Ok::<EntryAt, ReaderError>(
            EntryAt {
                entry,
                next: pos + entry_bytes(entry).len(),
                count: count_behind(entry, count),
            },
        ),
{
    let all = entry_bytes(entry);
    assert(s[pos] == all[0]) by {
        assert(all[0] == s[pos + 0]);
    }
    match entry {
        EntryView::Scope { tpe, name, component } => {
            lemma_stands(seq![254u8], seq![tpe] + (c_str(name) + c_str(component)), s, pos);
            lemma_scope_read(tpe, name, component, count, s, pos + 1);
        },
        EntryView::Var { tpe, direction, name, length, handle, is_alias } => {
            let tail = seq![direction] + (c_str(name) + (leb_encoded(stored_length(tpe, length))
                + leb_encoded(alias_field(handle, is_alias))));
            lemma_stands(seq![var_code(tpe)], tail, s, pos);
            var_types_read_back(tpe, s[pos]);
            lemma_var_read(tpe, direction, name, length, handle, is_alias, count, s, pos + 1);
        },
        EntryView::AttributeBegin { tpe, subtype, name, arg } => {
            let tail = seq![tpe] + (seq![subtype] + (c_str(name) + leb_encoded(arg as nat)));
            lemma_stands(seq![252u8], tail, s, pos);
            lemma_attribute_read(tpe, subtype, name, arg, count, s, pos + 1);
        },
        _ => {},
    }
}

/// Entries one behind the other.
pub open spec fn entries_bytes(entries: Seq<EntryView>) -> Seq<u8>
    decreases entries.len(),
{
    if entries.len() == 0 {
        Seq::empty()
    } else {
        entry_bytes(entries[0]) + entries_bytes(entries.drop_first())
    }
}

/// All entries can be written, with `count` signals in front of them.
pub open spec fn entries_writable(entries: Seq<EntryView>, count: u32) -> bool
    decreases entries.len(),
{
    entries.len() > 0 ==> entry_writable(entries[0], count) && entries_writable(
        entries.drop_first(),
        count_behind(entries[0], count),
    )
}

/// A hierarchy reads back as it was written: all its entries, in their order.
pub proof fn entries_read_back(entries: Seq<EntryView>, count: u32, s: Seq<u8>, pos: int)
    requires
        entries_writable(entries, count),
        stands_at(entries_bytes(entries), s, pos),
        pos + entries_bytes(entries).len() == s.len(),
    ensures
        entries_from(s, pos, count).0 == entries,
        entries_from(s, pos, count).1 is Ok,
    decreases entries.len(),
{
    if entries.len() > 0 {
        let first = entry_bytes(entries[0]);
        let rest = entries.drop_first();
        lemma_stands(first, entries_bytes(rest), s, pos);
        entry_reads_back(entries[0], count, s, pos);
        entries_read_back(rest, count_behind(entries[0], count), s, pos + first.len());
        assert(first.len() > 0);
        assert(seq![entries[0]] + rest =~= entries);
    } else {
        assert(entries =~= Seq::empty());
    }
}

/// The signal of a variable with a signal of its own.
pub open spec fn signal_written(tpe: FstVarType, length: u32) -> SignalInfo {
    if var_code(tpe) == 3 || var_code(tpe) == 4 || var_code(tpe) == 20 || var_code(tpe) == 29
        || length == 0 {
        SignalInfo::Real
    } else if length == u32::MAX {
        SignalInfo::BitVec(0)
    } else {
        SignalInfo::BitVec(length)
    }
}

/// The signals of the variables that are no aliases, in their order.
pub open spec fn signals_written(entries: Seq<EntryView>) -> Seq<SignalInfo>
    decreases entries.len(),
{
    if entries.len() == 0 {
        Seq::empty()
    } else {
        let rest = signals_written(entries.drop_first());
        match entries[0] {
            EntryView::Var { tpe, length, is_alias, .. } => if is_alias {
                rest
            } else {
                seq![signal_written(tpe, length)] + rest
            },
            _ => rest,
        }
    }
}

proof fn lemma_own_signals(entries: Seq<EntryView>, n: nat)
    requires
        n <= entries.len(),
    ensures
        own_signals(entries.take(n as int)) + signals_written(entries.skip(n as int))
            == signals_written(entries),
    decreases n,
{
    if n == 0 {
        assert(entries.skip(0) =~= entries);
        assert(entries.take(0) =~= Seq::empty());
        assert(Seq::<SignalInfo>::empty() + signals_written(entries) =~= signals_written(entries));
    } else {
        let m = n - 1;
        lemma_own_signals(entries, m as nat);
        assert(entries.take(n as int).drop_last() =~= entries.take(m));
        assert(entries.take(n as int).last() == entries[m]);
        assert(entries.skip(m)[0] == entries[m]);
        assert(entries.skip(m).drop_first() =~= entries.skip(n as int));
        let before = own_signals(entries.take(m));
        let rest = signals_written(entries.skip(n as int));
        if let EntryView::Var { tpe, length, is_alias: false, .. } = entries[m] {
            let signal = signal_written(tpe, length);
            assert(before + (seq![signal] + rest) =~= before.push(signal) + rest);
        }
    }
}

/// The geometry that a written hierarchy tells has one signal for each variable
/// that is no alias, as its type and its length say.
pub proof fn geometry_is_that_of_the_variables(entries: Seq<EntryView>)
    requires
        entries_writable(entries, 0),
        signals_written(entries).len() < u32::MAX,
    ensures
        geometry_of(entries_bytes(entries)) == Ok::<Seq<SignalInfo>, ReaderError>(
            signals_written(entries),
        ),
{
    let bytes = entries_bytes(entries);
    assert(stands_at(bytes, bytes, 0));
    entries_read_back(entries, 0, bytes, 0);
    lemma_own_signals(entries, entries.len());
    assert(entries.take(entries.len() as int) =~= entries);
    assert(entries.skip(entries.len() as int) =~= Seq::empty());
    assert(own_signals(entries) + Seq::<SignalInfo>::empty() =~= own_signals(entries));
}

/// A byte begins an entry exactly if it is the number of a variable type or one of
/// the four tags.
pub proof fn entries_begin_with_a_tag(s: Seq<u8>, pos: int, count: u32)
    ensures
        29 < s[pos] < 252 ==> at_entry(s, pos, count) == Err::<EntryAt, ReaderError>(
            ReaderError::HierarchyType,
        ),
{
}

/// The length of a port is a third of what is stored for it, less the two
/// characters that every port has; that of other variables is what is stored.
pub proof fn port_lengths_are_thirds(tpe: FstVarType, stored: u32)
    ensures
        tpe is Port && stored < 2 ==> var_length(tpe, stored) is Err,
        tpe is Port && stored >= 2 ==> (var_length(tpe, stored) matches Ok(length) && 3 * length
            <= stored - 2 < 3 * length + 3),
        !(tpe is Port) ==> var_length(tpe, stored) == Ok::<u32, ReaderError>(stored),
{
}

/// The entries in front of a tag that no entry has are told, and then the error.
pub proof fn entries_before_an_error_are_told(
    entries: Seq<EntryView>,
    count: u32,
    s: Seq<u8>,
    pos: int,
)
    requires
        entries_writable(entries, count),
        stands_at(entries_bytes(entries), s, pos),
        pos + entries_bytes(entries).len() < s.len(),
        30 <= s[pos + entries_bytes(entries).len()] < 252,
    ensures
        entries_from(s, pos, count).0 == entries,
        entries_from(s, pos, count).1 == Err::<(), ReaderError>(ReaderError::HierarchyType),
    decreases entries.len(),
{
    if entries.len() > 0 {
        let first = entry_bytes(entries[0]);
        let rest = entries.drop_first();
        lemma_stands(first, entries_bytes(rest), s, pos);
        entry_reads_back(entries[0], count, s, pos);
        entries_before_an_error_are_told(
            rest,
            count_behind(entries[0], count),
            s,
            pos + first.len(),
        );
        assert(first.len() > 0);
        assert(seq![entries[0]] + rest =~= entries);
    } else {
        assert(entries =~= Seq::empty());
    }
}

/// The hierarchy of a file has the entries that its stored bytes give.
pub proof fn stored_entries_read_back(
    entries: Seq<EntryView>,
    s: Seq<u8>,
    offset: int,
    compression: HierarchyCompression,
)
    requires
        entries_writable(entries, 0),
        at_hierarchy_bytes(s, offset, compression) == Ok::<Seq<u8>, ReaderError>(
            entries_bytes(entries),
        ),
    ensures
        hierarchy_entries(s, offset, compression).0 == entries,
        hierarchy_entries(s, offset, compression).1 is Ok,
{
    let bytes = entries_bytes(entries);
    assert(stands_at(bytes, bytes, 0));
    entries_read_back(entries, 0, bytes, 0);
}

} // verus!
