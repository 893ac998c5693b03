//! Initial values read back as they were written.

use crate::compression::{maybe_zlib_bytes, zlib_unpacked};
use crate::laws::encoding::{
    be_bytes, bytes_read_back, le_bytes, le_u64_reads_back, leb_encoded, lemma_eight_bytes,
    lemma_stands, stands_at, u64_reads_back, variant_u64_reads_back,
};
use crate::section::{at_frame, at_frame_head, frame_end, frame_values};
use crate::types::{FloatingPointEndian, ReaderError, SignalInfo};
use crate::values::{ChangeView, ValueView};
use vstd::prelude::*;

verus! {

/// The bytes `raw` are what `bytes` are stored as: themselves, or zlib data of
/// another length that unpack to them.
pub open spec fn stores(raw: Seq<u8>, bytes: Seq<u8>) -> bool {
    ||| raw == bytes
    ||| 0 < raw.len() && raw.len() != bytes.len() && bytes.len() <= isize::MAX && zlib_unpacked(
        raw,
        bytes.len(),
    ) == Some(bytes)
}

/// Stored bytes read back as what they store.
pub proof fn stored_bytes_read_back(raw: Seq<u8>, bytes: Seq<u8>)
    requires
        stores(raw, bytes),
        bytes.len() <= u64::MAX,
    ensures
        maybe_zlib_bytes(raw, bytes.len() as u64) == Ok::<Seq<u8>, ReaderError>(bytes),
{
}

/// The value is one that a signal of this kind can have in a frame: as many
/// characters as the vector has bits, or a floating-point number.
pub open spec fn fits_frame(info: SignalInfo, value: ValueView) -> bool {
    match (info, value) {
        (SignalInfo::Real, ValueView::Real(_)) => true,
        (SignalInfo::BitVec(width), ValueView::String(chars)) => chars.len() == width,
        _ => false,
    }
}

/// The bytes of an initial value.
pub open spec fn frame_part(endian: FloatingPointEndian, value: ValueView) -> Seq<u8> {
    match value {
        ValueView::String(chars) => chars,
        ValueView::Real(bits) => if endian == FloatingPointEndian::Big {
            be_bytes(bits)
        } else {
            le_bytes(bits)
        },
    }
}

/// A frame: the initial values of the signals, one behind the other.
pub open spec fn frame_bytes(endian: FloatingPointEndian, values: Seq<ValueView>) -> Seq<u8>
    decreases values.len(),
{
    if values.len() == 0 {
        Seq::empty()
    } else {
        frame_part(endian, values[0]) + frame_bytes(endian, values.drop_first())
    }
}

/// The initial values of the selected signals, at `time`: the first of `values` is
/// that of signal `k`. Texts of varying length have none.
pub open spec fn initial_values(
    infos: Seq<SignalInfo>,
    values: Seq<ValueView>,
    mask: Seq<bool>,
    k: int,
    time: u64,
) -> Seq<ChangeView>
    decreases values.len(),
{
    if values.len() == 0 {
        Seq::empty()
    } else {
        let rest = initial_values(infos, values.drop_first(), mask, k + 1, time);
        if mask[k] && infos[k] != SignalInfo::BitVec(0) {
            seq![ChangeView { time, signal: k, value: values[0] }] + rest
        } else {
            rest
        }
    }
}

/// A frame reads back as it was written: each selected signal has just its own part.
pub proof fn frame_values_read_back(
    infos: Seq<SignalInfo>,
    endian: FloatingPointEndian,
    values: Seq<ValueView>,
    mask: Seq<bool>,
    k: int,
    time: u64,
    bytes: Seq<u8>,
    pos: int,
)
    requires
        0 <= k,
        k + values.len() <= infos.len() == mask.len(),
        forall|j: int| 0 <= j < values.len() ==> fits_frame(infos[k + j], #[trigger] values[j]),
        stands_at(frame_bytes(endian, values), bytes, pos),
    ensures
        frame_values(
            bytes,
            pos,
            infos,
            endian,
            mask,
            k,
            k + values.len(),
            time,
        ) == Ok::<Seq<ChangeView>, ReaderError>(initial_values(infos, values, mask, k, time)),
    decreases values.len(),
{
    broadcast use lemma_eight_bytes;

    if values.len() > 0 {
        let part = frame_part(endian, values[0]);
        let rest = values.drop_first();
        lemma_stands(part, frame_bytes(endian, rest), bytes, pos);
        assert(fits_frame(infos[k], values[0])) by {
            assert(fits_frame(infos[k + 0], values[0]));
        }
        assert forall|j: int| 0 <= j < rest.len() implies fits_frame(
            infos[k + 1 + j],
            #[trigger] rest[j],
        ) by {
            assert(fits_frame(infos[k + (j + 1)], values[j + 1]));
        }
        assert(part.len() == infos[k].width());
        frame_values_read_back(
            infos,
            endian,
            rest,
            mask,
            k + 1,
            time,
            bytes,
            pos + part.len(),
        );
        match values[0] {
            ValueView::String(chars) => {
                bytes_read_back(chars, bytes, pos);
            },
            ValueView::Real(bits) => {
                if endian == FloatingPointEndian::Big {
                    u64_reads_back(bits, bytes, pos);
                } else {
                    le_u64_reads_back(bits, bytes, pos);
                }
            },
        }
        assert(k + values.len() == k + 1 + rest.len());
    }
}

/// The frame of a section, behind the numbers at its beginning: the lengths of the
/// frame and of what it is stored as, the number of signals, and the stored bytes.
pub open spec fn stored_frame(unpacked: u64, signals: u64, raw: Seq<u8>) -> Seq<u8> {
    leb_encoded(unpacked as nat) + (leb_encoded(raw.len()) + (leb_encoded(signals as nat) + raw))
}

/// The place and the end of a frame read back as they were written.
pub proof fn frame_head_reads_back(
    unpacked: u64,
    signals: u64,
    raw: Seq<u8>,
    s: Seq<u8>,
    start: int,
)
    requires
        s.len() <= u64::MAX,
        stands_at(stored_frame(unpacked, signals, raw), s, start + 32),
    ensures
        at_frame_head(s, start) matches Ok(head) && head.unpacked == unpacked && head.packed
            == raw.len() && head.max_handle == signals && stands_at(raw, s, head.pos as int),
        frame_end(s, start) == Ok::<int, ReaderError>(
            start + 32 + stored_frame(unpacked, signals, raw).len(),
        ),
{
    let a = leb_encoded(unpacked as nat);
    let b = leb_encoded(raw.len());
    let c = leb_encoded(signals as nat);
    let p = start + 32;
    lemma_stands(a, b + (c + raw), s, p);
    lemma_stands(b, c + raw, s, p + a.len());
    lemma_stands(c, raw, s, p + a.len() + b.len());
    variant_u64_reads_back(unpacked, s, p);
    variant_u64_reads_back(raw.len() as u64, s, p + a.len());
    variant_u64_reads_back(signals, s, p + a.len() + b.len());
}

/// The initial values of a section read back as they were written, packed or not.
pub proof fn initial_values_read_back(
    infos: Seq<SignalInfo>,
    endian: FloatingPointEndian,
    values: Seq<ValueView>,
    mask: Seq<bool>,
    time: u64,
    raw: Seq<u8>,
    s: Seq<u8>,
    start: int,
)
    requires
        s.len() <= u64::MAX,
        values.len() <= infos.len() == mask.len(),
        infos.len() <= u64::MAX,
        forall|j: int| 0 <= j < values.len() ==> fits_frame(infos[j], #[trigger] values[j]),
        frame_bytes(endian, values).len() <= u64::MAX,
        stores(raw, frame_bytes(endian, values)),
        stands_at(
            stored_frame(frame_bytes(endian, values).len() as u64, values.len() as u64, raw),
            s,
            start + 32,
        ),
    ensures
        at_frame(s, start, infos, endian, mask, time) == Ok::<Seq<ChangeView>, ReaderError>(
            initial_values(infos, values, mask, 0, time),
        ),
{
    let bytes = frame_bytes(endian, values);
    frame_head_reads_back(bytes.len() as u64, values.len() as u64, raw, s, start);
    let head = at_frame_head(s, start)->Ok_0;
    bytes_read_back(raw, s, head.pos as int);
    stored_bytes_read_back(raw, bytes);
    assert(stands_at(bytes, bytes, 0));
    assert forall|j: int| 0 <= j < values.len() implies fits_frame(
        infos[0 + j],
        #[trigger] values[j],
    ) by {}
    frame_values_read_back(infos, endian, values, mask, 0, time, bytes, 0);
}

/// In a frame with more signals than are known, those that are known still have their
/// values.
pub proof fn longer_frames_read_back(
    infos: Seq<SignalInfo>,
    endian: FloatingPointEndian,
    values: Seq<ValueView>,
    more: Seq<u8>,
    signals: u64,
    mask: Seq<bool>,
    time: u64,
    raw: Seq<u8>,
    s: Seq<u8>,
    start: int,
)
    requires
        s.len() <= u64::MAX,
        values.len() == infos.len() == mask.len(),
        infos.len() <= signals,
        forall|j: int| 0 <= j < values.len() ==> fits_frame(infos[j], #[trigger] values[j]),
        (frame_bytes(endian, values) + more).len() <= u64::MAX,
        stores(raw, frame_bytes(endian, values) + more),
        stands_at(
            stored_frame((frame_bytes(endian, values) + more).len() as u64, signals, raw),
            s,
            start + 32,
        ),
    ensures
        at_frame(s, start, infos, endian, mask, time) == Ok::<Seq<ChangeView>, ReaderError>(
            initial_values(infos, values, mask, 0, time),
        ),
{
    let bytes = frame_bytes(endian, values) + more;
    frame_head_reads_back(bytes.len() as u64, signals, raw, s, start);
    let head = at_frame_head(s, start)->Ok_0;
    bytes_read_back(raw, s, head.pos as int);
    stored_bytes_read_back(raw, bytes);
    assert(stands_at(bytes, bytes, 0));
    lemma_stands(frame_bytes(endian, values), more, bytes, 0);
    assert forall|j: int| 0 <= j < values.len() implies fits_frame(
        infos[0 + j],
        #[trigger] values[j],
    ) by {}
    frame_values_read_back(infos, endian, values, mask, 0, time, bytes, 0);
}

} // verus!
