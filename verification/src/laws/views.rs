//! What the public values hold, and what is let through.

use crate::bitmask::count_true;
use crate::blocks::{Header, HeaderView};
use crate::boundary::{RangeBoundaryValues, TimePointValues};
use crate::compression::same_bytes;
use crate::delivery::of_signal;
use crate::filter::{FilterView, FstFilter};
use crate::header::MetaData;
use crate::hierarchy::{entry_views, EntryView, FstHierarchyEntry};
use crate::pre_start::{found_view, PreStartValues};
use crate::primitives::{same_at, same_bytes_at, same_text_at};
use crate::reader::{same_reader, selected, window_of, within, FstHeader, FstReader, ReaderView};
use crate::types::{ReaderError, Result};
use crate::values::{
    change_views, same_value_at, ChangeView, FstSignalChange, FstSignalValue, ValueView,
};
use crate::wheel::Window;
use vstd::prelude::*;

verus! {

/// A value is known by its characters or by its 64 bits.
pub proof fn values_tell_all(value: FstSignalValue)
    ensures
        match value {
            FstSignalValue::String(bytes) => value@ == ValueView::String(bytes@),
            FstSignalValue::Real(bits) => value@ == ValueView::Real(bits),
        },
{
}

/// A change is known by its time, the index of its signal and its value.
pub proof fn changes_tell_all(change: FstSignalChange)
    ensures
        change@.time == change.time,
        change@.signal == change.handle.index,
        change@.value == change.value@,
{
}

/// What is known of changes is what is known of each of them, in their order.
pub proof fn change_lists_tell_all(changes: Seq<FstSignalChange>)
    ensures
        change_views(changes).len() == changes.len(),
        forall|k: int| 0 <= k < changes.len() ==> #[trigger] change_views(changes)[k] == changes[k]@,
{
}

/// An entry of the hierarchy is known by all of its fields.
pub proof fn entries_tell_all(entry: FstHierarchyEntry)
    ensures
        match entry {
            FstHierarchyEntry::Scope { tpe, name, component } => entry@ == (EntryView::Scope {
                tpe,
                name: name@,
                component: component@,
            }),
            FstHierarchyEntry::UpScope => entry@ == EntryView::UpScope,
            FstHierarchyEntry::Var { tpe, direction, name, length, handle, is_alias } => entry@
                == (EntryView::Var { tpe, direction, name: name@, length, handle, is_alias }),
            FstHierarchyEntry::AttributeBegin { tpe, subtype, name, arg } => entry@ == (
            EntryView::AttributeBegin { tpe, subtype, name: name@, arg }),
            FstHierarchyEntry::AttributeEnd => entry@ == EntryView::AttributeEnd,
        },
{
}

/// What is known of entries is what is known of each of them, in their order.
pub proof fn entry_lists_tell_all(entries: Seq<FstHierarchyEntry>)
    ensures
        entry_views(entries).len() == entries.len(),
        forall|k: int| 0 <= k < entries.len() ==> #[trigger] entry_views(entries)[k] == entries[k]@,
{
}

/// A header block is known by all of its fields.
pub proof fn headers_tell_all(header: Header)
    ensures
        header@ == (HeaderView {
            start_time: header.start_time,
            end_time: header.end_time,
            memory_used_by_writer: header.memory_used_by_writer,
            scope_count: header.scope_count,
            var_count: header.var_count,
            max_var_id_code: header.max_var_id_code,
            vc_section_count: header.vc_section_count,
            timescale_exponent: header.timescale_exponent,
            version: header.version@,
            date: header.date@,
            file_type: header.file_type,
            time_zero: header.time_zero,
        }),
{
}

/// Two headers of which a reader tells the same have the same times, counts,
/// timescale and texts.
pub proof fn basic_facts_tell_the_header(facts: FstHeader, a: HeaderView, b: HeaderView)
    requires
        facts.tells(a),
        facts.tells(b),
    ensures
        a.start_time == b.start_time == facts.start_time,
        a.end_time == b.end_time == facts.end_time,
        a.var_count == b.var_count == facts.var_count,
        a.max_var_id_code == b.max_var_id_code == facts.max_handle,
        a.timescale_exponent == b.timescale_exponent == facts.timescale_exponent,
        a.version == b.version,
        a.version == facts.version@,
        a.date == b.date,
        a.date == facts.date@,
{
}

/// What is known of a file is all that was read of it.
pub proof fn meta_data_tell_all(meta: MetaData)
    ensures
        meta@.header == meta.header@,
        meta@.signals == meta.signals@,
        meta@.blackouts == meta.blackouts@,
        meta@.data_sections == meta.data_sections@,
        meta@.float_endian == meta.float_endian,
        meta@.hierarchy_compression == meta.hierarchy_compression,
        meta@.hierarchy_offset == meta.hierarchy_offset,
        meta.time_table is None <==> meta@.time_table is None,
        meta.time_table matches Some(times) ==> meta@.time_table == Some(times@),
{
}

/// Values before a start are known by their signals, values and times, in order.
pub proof fn pre_start_values_tell_all(values: PreStartValues)
    ensures
        values@.strings.len() == values.string_values@.len(),
        values@.reals.len() == values.real_values@.len(),
        forall|k: int|
            0 <= k < values.string_values@.len() ==> ({
                let value = #[trigger] values.string_values@[k];
                let known = values@.strings[k];
                known.signal == value.handle.index && known.value == value.value@ && known.time
                    == value.time
            }),
        forall|k: int|
            0 <= k < values.real_values@.len() ==> ({
                let value = #[trigger] values.real_values@[k];
                let known = values@.reals[k];
                known.signal == value.handle.index && known.value == value.value && known.time
                    == value.time
            }),
{
}

/// The values at a point in time are known by that time, and by their signals,
/// values and times.
pub proof fn time_points_tell_all(point: TimePointValues)
    ensures
        point@.time == point.time,
        point@.values == (PreStartValues {
            string_values: point.string_values,
            real_values: point.real_values,
        })@,
{
}

/// The boundaries of a range are known by their two points.
pub proof fn boundaries_tell_all(values: RangeBoundaryValues)
    ensures
        values.first is None <==> values@.first is None,
        values.first matches Some(point) ==> values@.first == Some(point@),
        values.last is None <==> values@.last is None,
        values.last matches Some(point) ==> values@.last == Some(point@),
{
}

/// A filter is known by all of its fields.
pub proof fn filters_tell_all(filter: FstFilter)
    ensures
        filter@.start == filter.start,
        filter@.end == filter.end,
        filter.included is None <==> filter@.included is None,
        filter.included matches Some(signals) ==> filter@.included == Some(signals@),
        filter@.include_pre_start == filter.include_pre_start,
{
}

/// What was found for a signal is known by its time and value.
pub proof fn findings_tell_all(entry: Option<(u64, FstSignalValue)>)
    ensures
        entry is None <==> found_view(entry) is None,
        entry matches Some((time, value)) ==> found_view(entry) == Some((time, value@)),
{
}

/// A filter selects the signals on its list, wherever they stand on it, and no
/// others. Without a list it selects all.
pub proof fn filters_select_what_they_list(view: ReaderView, filter: FilterView, i: int)
    requires
        0 <= i < view.meta.signals.len(),
    ensures
        selected(view, filter).infos == view.meta.signals,
        selected(view, filter).endian == view.meta.float_endian,
        selected(view, filter).mask.len() == view.meta.signals.len(),
        selected(view, filter).mask[i] <==> (filter.included matches Some(signals) ==> exists|
            k: int,
        |
            0 <= k < signals.len() && #[trigger] signals[k].index == i),
{
}

/// A filter lets through the times from its start to its end, both counted. Without
/// an end it goes on to the end of the file.
pub proof fn filters_let_times_through(view: ReaderView, filter: FilterView, time: u64)
    ensures
        window_of(view, filter).contains(time) <==> filter.start <= time && (match filter.end {
            Some(end) => time <= end,
            None => time <= view.meta.header.end_time,
        }),
{
}

/// A window holds the times from its start to its end, with or without the end itself.
pub proof fn windows_hold_their_times(window: Window, time: u64)
    ensures
        window.include_end ==> (window.contains(time) <==> window.start <= time <= window.end),
        !window.include_end ==> (window.contains(time) <==> window.start <= time < window.end),
        window.include_end ==> (window.is_past(time) <==> window.end < time),
        !window.include_end ==> (window.is_past(time) <==> window.end <= time),
{
}

/// Cutting changes to a range keeps those whose times lie in it, in their order.
pub proof fn ranges_keep_what_lies_in_them(changes: Seq<ChangeView>, start: u64, end: u64)
    ensures
        within(changes, start, end) == changes.filter(
            |change: ChangeView| start <= change.time <= end,
        ),
    decreases changes.len(),
{
    reveal(Seq::filter);
    if changes.len() > 0 {
        ranges_keep_what_lies_in_them(changes.drop_last(), start, end);
    }
}

/// The changes of a signal are those that are about it, in their order.
pub proof fn signals_keep_their_changes(changes: Seq<ChangeView>, signal: int)
    ensures
        of_signal(changes, signal) == changes.filter(|change: ChangeView| change.signal == signal),
    decreases changes.len(),
{
    reveal(Seq::filter);
    if changes.len() > 0 {
        signals_keep_their_changes(changes.drop_last(), signal);
    }
}

/// What is read is what was to be read: the same value up to the same place, or the
/// same error.
pub proof fn readings_are_the_same<T>(
    numbers: (Result<(T, u64)>, Result<(T, int)>),
    bytes: (Result<(Vec<u8>, u64)>, Result<(Seq<u8>, int)>),
    texts: (Result<(String, u64)>, Result<(Seq<char>, int)>),
    values: (Result<(FstSignalValue, u64)>, Result<(ValueView, int)>),
    unpacked: (Result<Vec<u8>>, Result<Seq<u8>>),
)
    ensures
        same_at(numbers.0, numbers.1) <==> match numbers.0 {
            Ok((value, pos)) => numbers.1 == Ok::<(T, int), ReaderError>(
                (value, pos as int),
            ),
            Err(e) => numbers.1 == Err::<(T, int), ReaderError>(e),
        },
        same_bytes_at(bytes.0, bytes.1) <==> match bytes.0 {
            Ok((value, pos)) => bytes.1 == Ok::<(Seq<u8>, int), ReaderError>(
                (value@, pos as int),
            ),
            Err(e) => bytes.1 == Err::<(Seq<u8>, int), ReaderError>(e),
        },
        same_text_at(texts.0, texts.1) <==> match texts.0 {
            Ok((value, pos)) => texts.1 == Ok::<(Seq<char>, int), ReaderError>(
                (value@, pos as int),
            ),
            Err(e) => texts.1 == Err::<(Seq<char>, int), ReaderError>(e),
        },
        same_value_at(values.0, values.1) <==> match values.0 {
            Ok((value, pos)) => values.1 == Ok::<(ValueView, int), ReaderError>(
                (value@, pos as int),
            ),
            Err(e) => values.1 == Err::<(ValueView, int), ReaderError>(e),
        },
        same_bytes(unpacked.0, unpacked.1) <==> match unpacked.0 {
            Ok(value) => unpacked.1 == Ok::<Seq<u8>, ReaderError>(value@),
            Err(e) => unpacked.1 == Err::<Seq<u8>, ReaderError>(e),
        },
{
}

/// An opened reader is the one that was to be opened, or fails with the same error.
pub proof fn readers_are_the_same(r: Result<FstReader>, m: Result<ReaderView>)
    ensures
        same_reader(r, m) <==> match r {
            Ok(reader) => m == Ok::<ReaderView, ReaderError>(reader@),
            Err(e) => m == Err::<ReaderView, ReaderError>(e),
        },
{
}

/// The number of selected signals is the number of those that are set.
pub proof fn selected_signals_are_counted(bits: Seq<bool>)
    ensures
        count_true(bits, bits.len() as int) == bits.filter(|bit: bool| bit).len(),
    decreases bits.len(),
{
    reveal(Seq::filter);
    if bits.len() > 0 {
        selected_signals_are_counted(bits.drop_last());
        lemma_count_of_prefix(bits, bits.len() - 1);
    }
}

proof fn lemma_count_of_prefix(bits: Seq<bool>, n: int)
    requires
        0 <= n < bits.len(),
    ensures
        count_true(bits.drop_last(), n) == count_true(bits, n),
    decreases n,
{
    if n > 0 {
        lemma_count_of_prefix(bits, n - 1);
    }
}

} // verus!
