//! The hierarchy of the design: its scopes, variables and attributes.

use crate::compression::{lz4_bytes, same_bytes, unpack_lz4};
use crate::gzip::{decompress_gz_in_chunks, gunzipped};
use crate::primitives::{
    at_bytes, at_c_str, at_u64, at_u8, at_variant_u32, at_variant_u64, lemma_first_zero,
    lemma_leb_len_bound, read_bytes, read_c_str, read_slice, read_u64, read_u8,
    read_variant_u32, read_variant_u64,
};
use crate::types::{
    signal_info, FstSignalHandle, HierarchyCompression, ReaderError, Result, SignalInfo,
};
use vstd::prelude::*;

verus! {

/// How long the name of a scope or of a variable may be, with the zero byte behind it.
pub const HIERARCHY_NAME_MAX_SIZE: u64 = 512;

/// How long the name of an attribute may be, with the zero byte behind it.
pub const HIERARCHY_ATTRIBUTE_MAX_SIZE: u64 = 69632;

/// The type of a variable.
#[derive(Clone, Copy, PartialEq, Eq, Structural, Debug)]
pub enum FstVarType {
    Event,
    Integer,
    Parameter,
    Real,
    RealParameter,
    Reg,
    Supply0,
    Supply1,
    Time,
    Tri,
    TriAnd,
    TriOr,
    TriReg,
    Tri0,
    Tri1,
    Wand,
    Wire,
    Wor,
    Port,
    SparseArray,
    RealTime,
    GenericString,
    Bit,
    Logic,
    Int,
    ShortInt,
    LongInt,
    Byte,
    Enum,
    ShortReal,
}

/// The variable type with number `code`.
pub open spec fn var_type(code: u8) -> Option<FstVarType> {
    if code == 0 {
        Some(FstVarType::Event)
    } else if code == 1 {
        Some(FstVarType::Integer)
    } else if code == 2 {
        Some(FstVarType::Parameter)
    } else if code == 3 {
        Some(FstVarType::Real)
    } else if code == 4 {
        Some(FstVarType::RealParameter)
    } else if code == 5 {
        Some(FstVarType::Reg)
    } else if code == 6 {
        Some(FstVarType::Supply0)
    } else if code == 7 {
        Some(FstVarType::Supply1)
    } else if code == 8 {
        Some(FstVarType::Time)
    } else if code == 9 {
        Some(FstVarType::Tri)
    } else if code == 10 {
        Some(FstVarType::TriAnd)
    } else if code == 11 {
        Some(FstVarType::TriOr)
    } else if code == 12 {
        Some(FstVarType::TriReg)
    } else if code == 13 {
        Some(FstVarType::Tri0)
    } else if code == 14 {
        Some(FstVarType::Tri1)
    } else if code == 15 {
        Some(FstVarType::Wand)
    } else if code == 16 {
        Some(FstVarType::Wire)
    } else if code == 17 {
        Some(FstVarType::Wor)
    } else if code == 18 {
        Some(FstVarType::Port)
    } else if code == 19 {
        Some(FstVarType::SparseArray)
    } else if code == 20 {
        Some(FstVarType::RealTime)
    } else if code == 21 {
        Some(FstVarType::GenericString)
    } else if code == 22 {
        Some(FstVarType::Bit)
    } else if code == 23 {
        Some(FstVarType::Logic)
    } else if code == 24 {
        Some(FstVarType::Int)
    } else if code == 25 {
        Some(FstVarType::ShortInt)
    } else if code == 26 {
        Some(FstVarType::LongInt)
    } else if code == 27 {
        Some(FstVarType::Byte)
    } else if code == 28 {
        Some(FstVarType::Enum)
    } else if code == 29 {
        Some(FstVarType::ShortReal)
    } else {
        None
    }
}

impl FstVarType {
    pub fn from_u8(code: u8) -> (r: Option<FstVarType>)
        ensures
            r == var_type(code),
    {
        match code {
            0 => Some(FstVarType::Event),
            1 => Some(FstVarType::Integer),
            2 => Some(FstVarType::Parameter),
            3 => Some(FstVarType::Real),
            4 => Some(FstVarType::RealParameter),
            5 => Some(FstVarType::Reg),
            6 => Some(FstVarType::Supply0),
            7 => Some(FstVarType::Supply1),
            8 => Some(FstVarType::Time),
            9 => Some(FstVarType::Tri),
            10 => Some(FstVarType::TriAnd),
            11 => Some(FstVarType::TriOr),
            12 => Some(FstVarType::TriReg),
            13 => Some(FstVarType::Tri0),
            14 => Some(FstVarType::Tri1),
            15 => Some(FstVarType::Wand),
            16 => Some(FstVarType::Wire),
            17 => Some(FstVarType::Wor),
            18 => Some(FstVarType::Port),
            19 => Some(FstVarType::SparseArray),
            20 => Some(FstVarType::RealTime),
            21 => Some(FstVarType::GenericString),
            22 => Some(FstVarType::Bit),
            23 => Some(FstVarType::Logic),
            24 => Some(FstVarType::Int),
            25 => Some(FstVarType::ShortInt),
            26 => Some(FstVarType::LongInt),
            27 => Some(FstVarType::Byte),
            28 => Some(FstVarType::Enum),
            29 => Some(FstVarType::ShortReal),
            _ => None,
        }
    }

    /// The values of a variable of this type are floating-point numbers.
    pub open spec fn has_reals(self) -> bool {
        self is Real || self is RealParameter || self is RealTime || self is ShortReal
    }

    pub fn is_real(&self) -> (r: bool)
        ensures
            r == self.has_reals(),
    {
        matches!(
            self,
            FstVarType::Real | FstVarType::RealParameter | FstVarType::RealTime
                | FstVarType::ShortReal
        )
    }
}

/// An entry of the hierarchy.
#[allow(inconsistent_fields)]
#[derive(Debug, PartialEq, Eq)]
pub enum FstHierarchyEntry {
    Scope { tpe: u8, name: String, component: String },
    UpScope,
    Var {
        tpe: FstVarType,
        direction: u8,
        name: String,
        length: u32,
        handle: FstSignalHandle,
        is_alias: bool,
    },
    AttributeBegin { tpe: u8, subtype: u8, name: String, arg: u64 },
    AttributeEnd,
}

/// What an [`FstHierarchyEntry`] holds.
#[allow(inconsistent_fields)]
#[verifier::ext_equal]
pub enum EntryView {
    Scope { tpe: u8, name: Seq<char>, component: Seq<char> },
    UpScope,
    Var {
        tpe: FstVarType,
        direction: u8,
        name: Seq<char>,
        length: u32,
        handle: FstSignalHandle,
        is_alias: bool,
    },
    AttributeBegin { tpe: u8, subtype: u8, name: Seq<char>, arg: u64 },
    AttributeEnd,
}

impl View for FstHierarchyEntry {
    type V = EntryView;

    open spec fn view(&self) -> EntryView {
        match *self {
            FstHierarchyEntry::Scope { tpe, name, component } => EntryView::Scope {
                tpe,
                name: name@,
                component: component@,
            },
            FstHierarchyEntry::UpScope => EntryView::UpScope,
            FstHierarchyEntry::Var { tpe, direction, name, length, handle, is_alias } =>
            EntryView::Var { tpe, direction, name: name@, length, handle, is_alias },
            FstHierarchyEntry::AttributeBegin { tpe, subtype, name, arg } =>
            EntryView::AttributeBegin { tpe, subtype, name: name@, arg },
            FstHierarchyEntry::AttributeEnd => EntryView::AttributeEnd,
        }
    }
}

/// What a sequence of entries holds.
pub open spec fn entry_views(entries: Seq<FstHierarchyEntry>) -> Seq<EntryView> {
    Seq::new(entries.len(), |i: int| entries[i]@)
}

/// An entry, where it ends, and the number of signals up to there.
#[verifier::ext_equal]
pub struct EntryAt {
    pub entry: EntryView,
    pub next: int,
    pub count: u32,
}

/// The entry of a scope, behind its tag.
pub open spec fn at_scope(s: Seq<u8>, pos: int, count: u32) -> Result<EntryAt> {
    match at_u8(s, pos) {
        Err(e) => Err(e),
        Ok((tpe, p)) => match at_c_str(s, p, HIERARCHY_NAME_MAX_SIZE as int) {
            Err(e) => Err(e),
            Ok((name, q)) => match at_c_str(s, q, HIERARCHY_NAME_MAX_SIZE as int) {
                Err(e) => Err(e),
                Ok((component, next)) => Ok(
                    EntryAt { entry: EntryView::Scope { tpe, name, component }, next, count },
                ),
            },
        },
    }
}

/// The entry of an attribute, behind its tag.
pub open spec fn at_attribute(s: Seq<u8>, pos: int, count: u32) -> Result<EntryAt> {
    match at_u8(s, pos) {
        Err(e) => Err(e),
        Ok((tpe, p)) => match at_u8(s, p) {
            Err(e) => Err(e),
            Ok((subtype, q)) => match at_c_str(s, q, HIERARCHY_ATTRIBUTE_MAX_SIZE as int) {
                Err(e) => Err(e),
                Ok((name, r)) => match at_variant_u64(s, r) {
                    Err(e) => Err(e),
                    Ok((arg, next)) => Ok(
                        EntryAt {
                            entry: EntryView::AttributeBegin { tpe, subtype, name, arg },
                            next,
                            count,
                        },
                    ),
                },
            },
        },
    }
}

/// The length of a variable, from the length that is stored. Ports have three
/// characters for each bit, with two spaces around them.
pub open spec fn var_length(tpe: FstVarType, stored: u32) -> Result<u32> {
    if tpe is Port {
        if stored < 2 {
            Err(ReaderError::Malformed)
        } else {
            Ok(((stored - 2) / 3) as u32)
        }
    } else {
        Ok(stored)
    }
}

/// The entry of a variable, behind its tag. A variable that is no alias has a
/// signal of its own, the next one in the count.
pub open spec fn at_var(s: Seq<u8>, pos: int, count: u32, tpe: FstVarType) -> Result<EntryAt> {
    match at_u8(s, pos) {
        Err(e) => Err(e),
        Ok((direction, p)) => match at_c_str(s, p, HIERARCHY_NAME_MAX_SIZE as int) {
            Err(e) => Err(e),
            Ok((name, q)) => match at_variant_u32(s, q) {
                Err(e) => Err(e),
                Ok((stored, r)) => match var_length(tpe, stored) {
                    Err(e) => Err(e),
                    Ok(length) => match at_variant_u32(s, r) {
                        Err(e) => Err(e),
                        Ok((alias, next)) => if alias != 0 {
                            let handle = FstSignalHandle { index: (alias - 1) as u32 };
                            Ok(
                                EntryAt {
                                    entry: EntryView::Var {
                                        tpe,
                                        direction,
                                        name,
                                        length,
                                        handle,
                                        is_alias: true,
                                    },
                                    next,
                                    count,
                                },
                            )
                        } else if count >= u32::MAX - 1 {
                            Err(ReaderError::Malformed)
                        } else {
                            let handle = FstSignalHandle { index: count };
                            Ok(
                                EntryAt {
                                    entry: EntryView::Var {
                                        tpe,
                                        direction,
                                        name,
                                        length,
                                        handle,
                                        is_alias: false,
                                    },
                                    next,
                                    count: (count + 1) as u32,
                                },
                            )
                        },
                    },
                },
            },
        },
    }
}

/// The entry at `pos`, with `count` signals in front of it.
pub open spec fn at_entry(s: Seq<u8>, pos: int, count: u32) -> Result<EntryAt> {
    let tag = s[pos];
    if tag == 254 {
        at_scope(s, pos + 1, count)
    } else if tag == 255 {
        Ok(EntryAt { entry: EntryView::UpScope, next: pos + 1, count })
    } else if tag == 252 {
        at_attribute(s, pos + 1, count)
    } else if tag == 253 {
        Ok(EntryAt { entry: EntryView::AttributeEnd, next: pos + 1, count })
    } else {
        match var_type(tag) {
            Some(tpe) => at_var(s, pos + 1, count, tpe),
            None => Err(ReaderError::HierarchyType),
        }
    }
}

/// An entry ends behind its tag, and within the bytes.
pub proof fn lemma_entry_bounds(s: Seq<u8>, pos: int, count: u32)
    requires
        0 <= pos < s.len(),
    ensures
        at_entry(s, pos, count) matches Ok(at) ==> pos < at.next <= s.len(),
{
    let p = pos + 2;
    if p <= s.len() {
        lemma_first_zero(s, p);
        let q = first_zero_end(s, p);
        if q <= s.len() {
            lemma_first_zero(s, q);
            lemma_leb_len_bound(s, q, 5);
            if let Ok((_, r)) = at_variant_u32(s, q) {
                lemma_leb_len_bound(s, r, 5);
            }
        }
        if p + 1 <= s.len() {
            lemma_first_zero(s, p + 1);
            lemma_leb_len_bound(s, first_zero_end(s, p + 1), 10);
        }
    }
}

/// The place behind the first zero byte at or behind `pos`.
pub open spec fn first_zero_end(s: Seq<u8>, pos: int) -> int {
    crate::primitives::first_zero(s, pos) + 1
}

/// What the entries from `pos` on are, and how they end.
pub open spec fn entries_from(s: Seq<u8>, pos: int, count: u32) -> (Seq<EntryView>, Result<()>)
    decreases s.len() - pos,
    when 0 <= pos
{
    if pos >= s.len() {
        (Seq::empty(), Ok(()))
    } else {
        proof {
            lemma_entry_bounds(s, pos, count);
        }
        match at_entry(s, pos, count) {
            Err(e) => (Seq::empty(), Err(e)),
            Ok(at) => {
                let rest = entries_from(s, at.next, at.count);
                (seq![at.entry] + rest.0, rest.1)
            },
        }
    }
}

fn read_scope(data: &[u8], pos: u64) -> (r: Result<(FstHierarchyEntry, u64)>)
    ensures
        forall|count: u32|
            match (r, #[trigger] at_scope(data@, pos as int, count)) {
                (Ok((entry, next)), Ok(at)) => entry@ == at.entry && next == at.next && at.count
                    == count,
                (Err(e), Err(f)) => e == f,
                _ => false,
            },
{
    let (tpe, next) = read_u8(data, pos)?;
    let (name, next) = read_c_str(data, next, HIERARCHY_NAME_MAX_SIZE)?;
    let (component, next) = read_c_str(data, next, HIERARCHY_NAME_MAX_SIZE)?;
    Ok((FstHierarchyEntry::Scope { tpe, name, component }, next))
}

fn read_attribute(data: &[u8], pos: u64) -> (r: Result<(FstHierarchyEntry, u64)>)
    ensures
        forall|count: u32|
            match (r, #[trigger] at_attribute(data@, pos as int, count)) {
                (Ok((entry, next)), Ok(at)) => entry@ == at.entry && next == at.next && at.count
                    == count,
                (Err(e), Err(f)) => e == f,
                _ => false,
            },
{
    let (tpe, next) = read_u8(data, pos)?;
    let (subtype, next) = read_u8(data, next)?;
    let (name, next) = read_c_str(data, next, HIERARCHY_ATTRIBUTE_MAX_SIZE)?;
    let (arg, next) = read_variant_u64(data, next)?;
    Ok((FstHierarchyEntry::AttributeBegin { tpe, subtype, name, arg }, next))
}

fn read_var(data: &[u8], pos: u64, count: u32, tpe: FstVarType) -> (r: Result<
    (FstHierarchyEntry, u64, u32),
>)
    ensures
        match (r, at_var(data@, pos as int, count, tpe)) {
            (Ok((entry, next, new_count)), Ok(at)) => entry@ == at.entry && next == at.next
                && new_count == at.count,
            (Err(e), Err(f)) => e == f,
            _ => false,
        },
{
    let (direction, next) = read_u8(data, pos)?;
    let (name, next) = read_c_str(data, next, HIERARCHY_NAME_MAX_SIZE)?;
    let (stored, next) = read_variant_u32(data, next)?;
    let length: u32 = if tpe == FstVarType::Port {
        if stored < 2 {
            return Err(ReaderError::Malformed);
        }
        (stored - 2) / 3
    } else {
        stored
    };
    let (alias, next) = read_variant_u32(data, next)?;
    if alias != 0 {
        let handle = FstSignalHandle { index: alias - 1 };
        let entry = FstHierarchyEntry::Var {
            tpe,
            direction,
            name,
            length,
            handle,
            is_alias: true,
        };
        return Ok((entry, next, count));
    }
    if count >= u32::MAX - 1 {
        return Err(ReaderError::Malformed);
    }
    let handle = FstSignalHandle { index: count };
    let entry = FstHierarchyEntry::Var { tpe, direction, name, length, handle, is_alias: false };
    Ok((entry, next, count + 1))
}

/// Reads the entry at `pos`. Returns it, where it ends, and the number of signals up to there.
pub fn read_hierarchy_entry(data: &[u8], pos: u64, count: u32) -> (r: Result<
    (FstHierarchyEntry, u64, u32),
>)
    requires
        pos < data@.len(),
    ensures
        match (r, at_entry(data@, pos as int, count)) {
            (Ok((entry, next, new_count)), Ok(at)) => {
                &&& entry@ == at.entry
                &&& next == at.next
                &&& new_count == at.count
                &&& pos < next <= data@.len()
            },
            (Err(e), Err(f)) => e == f,
            _ => false,
        },
{
    proof {
        lemma_entry_bounds(data@, pos as int, count);
    }
    let len: u64 = data.len() as u64;
    let tag: u8 = data[pos as usize];
    if tag == 254 {
        let (entry, next) = read_scope(data, pos + 1)?;
        Ok((entry, next, count))
    } else if tag == 255 {
        Ok((FstHierarchyEntry::UpScope, pos + 1, count))
    } else if tag == 252 {
        let (entry, next) = read_attribute(data, pos + 1)?;
        Ok((entry, next, count))
    } else if tag == 253 {
        Ok((FstHierarchyEntry::AttributeEnd, pos + 1, count))
    } else {
        match FstVarType::from_u8(tag) {
            Some(tpe) => read_var(data, pos + 1, count, tpe),
            None => Err(ReaderError::HierarchyType),
        }
    }
}

/// Appends all entries to `out`, up to the end or to the first that cannot be read.
pub fn list_entries(data: &[u8], out: &mut Vec<FstHierarchyEntry>) -> (r: Result<()>)
    ensures
        entry_views(final(out)@) == entry_views(old(out)@) + entries_from(data@, 0, 0).0,
        r == entries_from(data@, 0, 0).1,
{
    let len: u64 = data.len() as u64;
    let mut pos: u64 = 0;
    let mut count: u32 = 0;
    let ghost whole = entries_from(data@, 0, 0);
    let ghost front = entry_views(out@);
    let ghost mut sofar = Seq::<EntryView>::empty();
    proof {
        assert(front + sofar =~= front);
        assert(sofar + whole.0 =~= whole.0);
    }
    while pos < len
        invariant
            len == data@.len(),
            whole == entries_from(data@, 0, 0),
            front == entry_views(old(out)@),
            entry_views(out@) == front + sofar,
            whole == (
                sofar + entries_from(data@, pos as int, count).0,
                entries_from(data@, pos as int, count).1,
            ),
        decreases len - pos,
    {
        match read_hierarchy_entry(data, pos, count) {
            Err(e) => {
                assert(sofar + Seq::<EntryView>::empty() =~= sofar);
                return Err(e);
            },
            Ok((entry, next, new_count)) => {
                let ghost view = entry@;
                let ghost before = entry_views(out@);
                out.push(entry);
                proof {
                    assert(entry_views(out@) =~= before.push(view));
                    assert(before.push(view) =~= front + sofar.push(view));
                    let rest = entries_from(data@, next as int, new_count).0;
                    assert(sofar + (seq![view] + rest) =~= sofar.push(view) + rest);
                    sofar = sofar.push(view);
                }
                pos = next;
                count = new_count;
            },
        }
    }
    assert(sofar + Seq::<EntryView>::empty() =~= sofar);
    Ok(())
}

/// The signals of the variables among the entries that are no aliases.
pub open spec fn own_signals(entries: Seq<EntryView>) -> Seq<SignalInfo>
    decreases entries.len(),
{
    if entries.len() == 0 {
        Seq::empty()
    } else {
        let before = own_signals(entries.drop_last());
        match entries.last() {
            EntryView::Var { tpe, length, is_alias, .. } => if is_alias {
                before
            } else if tpe.has_reals() {
                before.push(SignalInfo::Real)
            } else {
                before.push(signal_info(length))
            },
            _ => before,
        }
    }
}

/// The geometry that an uncompressed hierarchy tells. Its signals must be few
/// enough to have handles.
pub open spec fn geometry_of(bytes: Seq<u8>) -> Result<Seq<SignalInfo>> {
    match entries_from(bytes, 0, 0) {
        (_, Err(e)) => Err(e),
        (entries, Ok(_)) => if own_signals(entries).len() >= u32::MAX {
            Err(ReaderError::Malformed)
        } else {
            Ok(own_signals(entries))
        },
    }
}

/// Lists the signals of the variables that are no aliases.
pub fn signals_of(entries: &Vec<FstHierarchyEntry>) -> (r: Vec<SignalInfo>)
    ensures
        r@ == own_signals(entry_views(entries@)),
{
    let mut signals: Vec<SignalInfo> = Vec::new();
    let mut i: usize = 0;
    let ghost views = entry_views(entries@);
    while i < entries.len()
        invariant
            i <= entries@.len(),
            views == entry_views(entries@),
            signals@ == own_signals(views.subrange(0, i as int)),
        decreases entries@.len() - i,
    {
        proof {
            assert(views.subrange(0, i + 1).drop_last() =~= views.subrange(0, i as int));
            assert(views.subrange(0, i + 1).last() == entries@[i as int]@);
        }
        match &entries[i] {
            FstHierarchyEntry::Var { tpe, length, is_alias, .. } => {
                if !*is_alias {
                    let info = if tpe.is_real() {
                        SignalInfo::Real
                    } else {
                        SignalInfo::from_file_format(*length)
                    };
                    signals.push(info);
                }
            },
            _ => {},
        }
        i = i + 1;
    }
    assert(views.subrange(0, i as int) =~= views);
    signals
}

/// Reconstructs the geometry from an uncompressed hierarchy.
pub fn reconstruct_geometry(hierarchy: &[u8]) -> (r: Result<Vec<SignalInfo>>)
    ensures
        match (r, geometry_of(hierarchy@)) {
            (Ok(v), Ok(w)) => v@ == w && v@.len() < u32::MAX,
            (Err(e), Err(f)) => e == f,
            _ => false,
        },
{
    let mut entries: Vec<FstHierarchyEntry> = Vec::new();
    let end = list_entries(hierarchy, &mut entries);
    proof {
        let views = entries_from(hierarchy@, 0, 0).0;
        assert(entry_views(Seq::<FstHierarchyEntry>::empty()) + views =~= views);
    }
    match end {
        Err(e) => Err(e),
        Ok(_) => {
            let signals = signals_of(&entries);
            if signals.len() as u64 >= u32::MAX as u64 {
                return Err(ReaderError::Malformed);
            }
            Ok(signals)
        },
    }
}

/// The uncompressed hierarchy that is stored at `offset`.
pub open spec fn at_hierarchy_bytes(
    s: Seq<u8>,
    offset: int,
    compression: HierarchyCompression,
) -> Result<Seq<u8>> {
    if compression is Uncompressed {
        if offset <= s.len() {
            Ok(s.subrange(offset, s.len() as int))
        } else {
            Ok(Seq::empty())
        }
    } else {
        match at_u64(s, offset) {
            Err(e) => Err(e),
            Ok((length, _)) => match at_u64(s, offset + 8) {
                Err(e) => Err(e),
                Ok((unpacked, p)) => match compression {
                    HierarchyCompression::ZLib => gunzipped(s, p, unpacked as nat),
                    HierarchyCompression::Lz4 => if length < 16 {
                        Err(ReaderError::Malformed)
                    } else {
                        match at_bytes(s, p, length - 16) {
                            Err(e) => Err(e),
                            Ok((raw, _)) => lz4_bytes(raw, unpacked),
                        }
                    },
                    _ => match at_variant_u64(s, p) {
                        Err(e) => Err(e),
                        Ok((once, q)) => if length < q - offset {
                            Err(ReaderError::Malformed)
                        } else {
                            match at_bytes(s, q, length - (q - offset)) {
                                Err(e) => Err(e),
                                Ok((raw, _)) => match lz4_bytes(raw, once) {
                                    Err(e) => Err(e),
                                    Ok(bytes) => lz4_bytes(bytes, unpacked),
                                },
                            }
                        },
                    },
                },
            },
        }
    }
}

pub fn read_hierarchy_bytes(data: &[u8], offset: u64, compression: HierarchyCompression) -> (r:
    Result<Vec<u8>>)
    ensures
        same_bytes(r, at_hierarchy_bytes(data@, offset as int, compression)),
{
    if compression == HierarchyCompression::Uncompressed {
        let len: u64 = data.len() as u64;
        if offset > len {
            return Ok(Vec::new());
        }
        let (bytes, _) = read_bytes(data, offset, len - offset)?;
        return Ok(bytes);
    }
    let (length, next) = read_u64(data, offset)?;
    let (unpacked, next) = read_u64(data, next)?;
    match compression {
        HierarchyCompression::ZLib => decompress_gz_in_chunks(data, next, unpacked),
        HierarchyCompression::Lz4 => {
            if length < 16 {
                return Err(ReaderError::Malformed);
            }
            let raw = read_slice(data, next, length - 16)?;
            unpack_lz4(raw, unpacked)
        },
        _ => {
            let (once, next) = read_variant_u64(data, next)?;
            if length < next - offset {
                return Err(ReaderError::Malformed);
            }
            let raw = read_slice(data, next, length - (next - offset))?;
            let bytes = unpack_lz4(raw, once)?;
            unpack_lz4(bytes.as_slice(), unpacked)
        },
    }
}

/// The entries of the hierarchy that is stored at `offset`, and how they end.
pub open spec fn hierarchy_entries(
    s: Seq<u8>,
    offset: int,
    compression: HierarchyCompression,
) -> (Seq<EntryView>, Result<()>) {
    match at_hierarchy_bytes(s, offset, compression) {
        Err(e) => (Seq::empty(), Err(e)),
        Ok(bytes) => entries_from(bytes, 0, 0),
    }
}

/// Appends the entries of a hierarchy to `out`.
pub fn read_hierarchy(
    data: &[u8],
    offset: u64,
    compression: HierarchyCompression,
    out: &mut Vec<FstHierarchyEntry>,
) -> (r: Result<()>)
    ensures
        entry_views(final(out)@) == entry_views(old(out)@) + hierarchy_entries(
            data@,
            offset as int,
            compression,
        ).0,
        r == hierarchy_entries(data@, offset as int, compression).1,
{
    proof {
        let front = entry_views(out@);
        assert(front + Seq::<EntryView>::empty() =~= front);
    }
    match read_hierarchy_bytes(data, offset, compression) {
        Err(e) => Err(e),
        Ok(bytes) => list_entries(bytes.as_slice(), out),
    }
}

} // verus!
