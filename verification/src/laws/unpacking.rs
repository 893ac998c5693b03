//! What gzip streams and packed hierarchies give.

use crate::compression::{lz4_unpacked, raw_inflate_reply, InflateReply, InflateStatus};
use crate::gzip::{gunzipped, inflated_from, window_at};
use crate::hierarchy::at_hierarchy_bytes;
use crate::laws::blocks::block_tag_reads_back;
use crate::laws::encoding::{
    be_bytes, bytes_read_back, leb_encoded, lemma_eight_bytes, lemma_stands, stands_at,
    u64_reads_back, variant_u64_reads_back,
};
use crate::laws::sections::{is_short_block, lz4_blocks_are_unpacked};
use crate::reader::unwrapped;
use crate::types::{BlockType, HierarchyCompression, InflateError, ReaderError};
use vstd::prelude::*;

verus! {

/// The bytes from `pos` on that a decoder is offered at a time.
pub open spec fn offered(s: Seq<u8>, pos: int) -> Seq<u8> {
    if pos + 16384 <= s.len() {
        s.subrange(pos, pos + 16384)
    } else {
        s.subrange(pos, s.len() as int)
    }
}

/// These are the replies of a decoder up to the end of its stream, if it goes on
/// with the bytes at `pos` behind the given calls.
pub open spec fn replies_are(
    calls: Seq<(Seq<u8>, nat)>,
    s: Seq<u8>,
    pos: int,
    replies: Seq<InflateReply>,
) -> bool
    decreases replies.len(),
{
    &&& replies.len() > 0
    &&& pos <= s.len()
    &&& raw_inflate_reply(calls, offered(s, pos), 65536) == replies[0]
    &&& if replies.len() == 1 {
        replies[0].2 matches Ok(status) && status == InflateStatus::StreamEnd
    } else {
        &&& replies[0].2 matches Ok(status) && status == InflateStatus::Progress
        &&& replies[0].0 <= offered(s, pos).len()
        &&& replies[0].0 > 0 || replies[0].1.len() > 0
        &&& replies_are(
            calls.push((offered(s, pos), 65536)),
            s,
            pos + replies[0].0,
            replies.drop_first(),
        )
    }
}

/// All that a decoder gave, in order.
pub open spec fn given(replies: Seq<InflateReply>) -> Seq<u8>
    decreases replies.len(),
{
    if replies.len() == 0 {
        Seq::empty()
    } else {
        replies[0].1 + given(replies.drop_first())
    }
}

/// The first `n` bytes, or all if there are fewer.
pub open spec fn up_to(bytes: Seq<u8>, n: nat) -> Seq<u8> {
    if bytes.len() <= n {
        bytes
    } else {
        bytes.subrange(0, n as int)
    }
}

proof fn lemma_given(
    calls: Seq<(Seq<u8>, nat)>,
    s: Seq<u8>,
    pos: int,
    replies: Seq<InflateReply>,
    n: nat,
)
    requires
        0 <= pos,
        replies_are(calls, s, pos, replies),
    ensures
        inflated_from(calls, s, pos, n) == Ok::<Seq<u8>, ReaderError>(up_to(given(replies), n)),
    decreases replies.len(),
{
    let rest = replies.drop_first();
    let out = replies[0].1;
    assert(window_at(s, pos) == offered(s, pos));
    if n == 0 {
        assert(up_to(given(replies), 0) =~= Seq::empty());
    } else if replies.len() == 1 {
        assert(given(rest) =~= Seq::empty());
        assert(given(replies) =~= out);
    } else {
        let kept = up_to(out, n);
        let left = (n - kept.len()) as nat;
        lemma_given(
            calls.push((offered(s, pos), 65536)),
            s,
            pos + replies[0].0,
            rest,
            left,
        );
        assert(kept + up_to(given(rest), left) =~= up_to(out + given(rest), n));
        assert(kept =~= if out.len() <= n {
            out
        } else {
            out.subrange(0, n as int)
        });
    }
}

/// The ten bytes in front of the data of a gzip stream, four of them fixed.
pub open spec fn stream_head(head: Seq<u8>) -> bool {
    head.len() == 10 && head[0] == 0x1f && head[1] == 0x8b && head[2] == 8 && head[3] == 0
}

/// A gzip stream gives all that its decoder gives, in order, and no more of it than
/// was asked for.
pub proof fn streams_are_unpacked(
    head: Seq<u8>,
    s: Seq<u8>,
    pos: int,
    replies: Seq<InflateReply>,
    n: nat,
)
    requires
        stream_head(head),
        stands_at(head, s, pos),
        replies_are(Seq::empty(), s, pos + 10, replies),
    ensures
        gunzipped(s, pos, n) == Ok::<Seq<u8>, ReaderError>(up_to(given(replies), n)),
{
    bytes_read_back(head, s, pos);
    lemma_given(Seq::empty(), s, pos + 10, replies, n);
}

/// A stream that does not begin as it should is refused, and so is one that is cut
/// off in front of its data.
pub proof fn other_streams_are_refused(s: Seq<u8>, pos: int, n: nat)
    requires
        0 <= pos,
    ensures
        pos + 10 > s.len() ==> gunzipped(s, pos, n) is Err,
        pos + 10 <= s.len() && !stream_head(s.subrange(pos, pos + 10)) ==> gunzipped(s, pos, n)
            == Err::<Seq<u8>, ReaderError>(ReaderError::GZipHeader),
{
}

/// A file in a gzip wrapper is what the stream in it gives, up to the length that
/// the wrapper tells. A wrapper without a length was not finished.
pub proof fn wrapped_files_are_unwrapped(
    length: u64,
    unpacked: u64,
    head: Seq<u8>,
    s: Seq<u8>,
    replies: Seq<InflateReply>,
)
    requires
        stream_head(head),
        stands_at(seq![254u8] + (be_bytes(length) + (be_bytes(unpacked) + head)), s, 0),
        replies_are(Seq::empty(), s, 27, replies),
    ensures
        unwrapped(s) == (if length == 0 {
            Err(ReaderError::NotFinishedCompressing)
        } else {
            Ok(up_to(given(replies), unpacked as nat))
        }),
{
    broadcast use lemma_eight_bytes;

    let a = be_bytes(length);
    let b = be_bytes(unpacked);
    lemma_stands(seq![254u8], a + (b + head), s, 0);
    lemma_stands(a, b + head, s, 1);
    lemma_stands(b, head, s, 9);
    block_tag_reads_back(BlockType::GZipWrapper, s, 0);
    u64_reads_back(length, s, 1);
    u64_reads_back(unpacked, s, 9);
    streams_are_unpacked(head, s, 17, replies, unpacked as nat);
}

/// A file without a wrapper is left as it is.
pub proof fn unwrapped_files_are_left_alone(s: Seq<u8>)
    requires
        s.len() > 0,
        s[0] <= 8 || s[0] == 255,
    ensures
        unwrapped(s) == Ok::<Seq<u8>, ReaderError>(s),
{
}

/// A hierarchy in a gzip stream gives what the stream gives.
pub proof fn zipped_hierarchies_read_back(
    length: u64,
    bytes: Seq<u8>,
    head: Seq<u8>,
    s: Seq<u8>,
    pos: int,
    replies: Seq<InflateReply>,
)
    requires
        bytes.len() <= u64::MAX,
        stream_head(head),
        stands_at(be_bytes(length) + (be_bytes(bytes.len() as u64) + head), s, pos),
        replies_are(Seq::empty(), s, pos + 26, replies),
        given(replies) == bytes,
    ensures
        at_hierarchy_bytes(s, pos, HierarchyCompression::ZLib) == Ok::<Seq<u8>, ReaderError>(
            bytes,
        ),
{
    broadcast use lemma_eight_bytes;

    let a = be_bytes(length);
    let b = be_bytes(bytes.len() as u64);
    lemma_stands(a, b + head, s, pos);
    lemma_stands(b, head, s, pos + 8);
    u64_reads_back(length, s, pos);
    u64_reads_back(bytes.len() as u64, s, pos + 8);
    streams_are_unpacked(head, s, pos + 16, replies, bytes.len());
}

/// The block `raw` is an LZ4 block of moderate length that unpacks to `bytes`.
pub open spec fn lz4_packs(raw: Seq<u8>, bytes: Seq<u8>) -> bool {
    &&& is_short_block(raw)
    &&& bytes.len() <= isize::MAX
    &&& lz4_unpacked(raw, bytes.len()) == Some(bytes)
}

/// A hierarchy in an LZ4 block gives what the block unpacks to.
pub proof fn lz4_hierarchies_read_back(bytes: Seq<u8>, raw: Seq<u8>, s: Seq<u8>, pos: int)
    requires
        lz4_packs(raw, bytes),
        stands_at(
            be_bytes((16 + raw.len()) as u64) + (be_bytes(bytes.len() as u64) + raw),
            s,
            pos,
        ),
    ensures
        at_hierarchy_bytes(s, pos, HierarchyCompression::Lz4) == Ok::<Seq<u8>, ReaderError>(
            bytes,
        ),
{
    broadcast use lemma_eight_bytes;

    let a = be_bytes((16 + raw.len()) as u64);
    let b = be_bytes(bytes.len() as u64);
    lemma_stands(a, b + raw, s, pos);
    lemma_stands(b, raw, s, pos + 8);
    u64_reads_back((16 + raw.len()) as u64, s, pos);
    u64_reads_back(bytes.len() as u64, s, pos + 8);
    bytes_read_back(raw, s, pos + 16);
    lz4_blocks_are_unpacked(raw, bytes);
}

/// A hierarchy that was packed twice gives what the block inside the block unpacks to.
pub proof fn lz4_duo_hierarchies_read_back(
    bytes: Seq<u8>,
    once: Seq<u8>,
    raw: Seq<u8>,
    s: Seq<u8>,
    pos: int,
)
    requires
        lz4_packs(once, bytes),
        lz4_packs(raw, once),
        stands_at(
            be_bytes((16 + leb_encoded(once.len()).len() + raw.len()) as u64) + (be_bytes(
                bytes.len() as u64,
            ) + (leb_encoded(once.len()) + raw)),
            s,
            pos,
        ),
        s.len() <= u64::MAX,
    ensures
        at_hierarchy_bytes(s, pos, HierarchyCompression::Lz4Duo) == Ok::<Seq<u8>, ReaderError>(
            bytes,
        ),
{
    broadcast use lemma_eight_bytes;

    let c = leb_encoded(once.len());
    let length = (16 + c.len() + raw.len()) as u64;
    let a = be_bytes(length);
    let b = be_bytes(bytes.len() as u64);
    lemma_stands(a, b + (c + raw), s, pos);
    lemma_stands(b, c + raw, s, pos + 8);
    lemma_stands(c, raw, s, pos + 16);
    u64_reads_back(length, s, pos);
    u64_reads_back(bytes.len() as u64, s, pos + 8);
    variant_u64_reads_back(once.len() as u64, s, pos + 16);
    bytes_read_back(raw, s, pos + 16 + c.len());
    lz4_blocks_are_unpacked(raw, once);
    lz4_blocks_are_unpacked(once, bytes);
}

/// An unpacked hierarchy is all that stands from its place on.
pub proof fn plain_hierarchies_read_back(bytes: Seq<u8>, s: Seq<u8>, pos: int)
    requires
        stands_at(bytes, s, pos),
        pos + bytes.len() == s.len(),
    ensures
        at_hierarchy_bytes(s, pos, HierarchyCompression::Uncompressed) == Ok::<
            Seq<u8>,
            ReaderError,
        >(bytes),
{
    assert(s.subrange(pos, s.len() as int) =~= bytes);
}

/// A decoder that neither takes nor gives anything is not asked again, and one that
/// asks for a dictionary gets none: the stream is refused.
pub proof fn stalled_streams_are_refused(
    head: Seq<u8>,
    s: Seq<u8>,
    pos: int,
    reply: InflateReply,
    n: nat,
)
    requires
        stream_head(head),
        stands_at(head, s, pos),
        n > 0,
        raw_inflate_reply(Seq::empty(), offered(s, pos + 10), 65536) == reply,
    ensures
        reply.2 == Ok::<InflateStatus, InflateError>(InflateStatus::Progress) && reply.0 == 0
            && reply.1.len() == 0 ==> gunzipped(s, pos, n) == Err::<Seq<u8>, ReaderError>(
            ReaderError::GZipBody(InflateError::Buf),
        ),
        reply.2 == Ok::<InflateStatus, InflateError>(InflateStatus::NeedDict) ==> gunzipped(
            s,
            pos,
            n,
        ) == Err::<Seq<u8>, ReaderError>(ReaderError::Malformed),
{
    bytes_read_back(head, s, pos);
    assert(window_at(s, pos + 10) == offered(s, pos + 10));
}

/// These are the replies of a decoder up to one that fails with `error`.
pub open spec fn replies_fail(
    calls: Seq<(Seq<u8>, nat)>,
    s: Seq<u8>,
    pos: int,
    replies: Seq<InflateReply>,
    error: InflateError,
) -> bool
    decreases replies.len(),
{
    &&& replies.len() > 0
    &&& pos <= s.len()
    &&& raw_inflate_reply(calls, offered(s, pos), 65536) == replies[0]
    &&& if replies.len() == 1 {
        replies[0].2 == Err::<InflateStatus, InflateError>(error)
    } else {
        &&& replies[0].2 matches Ok(status) && status == InflateStatus::Progress
        &&& replies[0].0 <= offered(s, pos).len()
        &&& replies[0].0 > 0 || replies[0].1.len() > 0
        &&& replies_fail(
            calls.push((offered(s, pos), 65536)),
            s,
            pos + replies[0].0,
            replies.drop_first(),
            error,
        )
    }
}

proof fn lemma_fails(
    calls: Seq<(Seq<u8>, nat)>,
    s: Seq<u8>,
    pos: int,
    replies: Seq<InflateReply>,
    error: InflateError,
    n: nat,
)
    requires
        0 <= pos,
        replies_fail(calls, s, pos, replies, error),
        given(replies.drop_last()).len() < n,
    ensures
        inflated_from(calls, s, pos, n) == Err::<Seq<u8>, ReaderError>(
            ReaderError::GZipBody(error),
        ),
    decreases replies.len(),
{
    assert(window_at(s, pos) == offered(s, pos));
    if replies.len() > 1 {
        let rest = replies.drop_first();
        assert(replies.drop_last().drop_first() =~= rest.drop_last());
        assert(replies.drop_last()[0] == replies[0]);
        lemma_fails(
            calls.push((offered(s, pos), 65536)),
            s,
            pos + replies[0].0,
            rest,
            error,
            (n - replies[0].1.len()) as nat,
        );
    }
}

/// A stream whose decoder fails before it has given enough is refused with the failure.
pub proof fn failing_streams_are_refused(
    head: Seq<u8>,
    s: Seq<u8>,
    pos: int,
    replies: Seq<InflateReply>,
    error: InflateError,
    n: nat,
)
    requires
        stream_head(head),
        stands_at(head, s, pos),
        replies_fail(Seq::empty(), s, pos + 10, replies, error),
        given(replies.drop_last()).len() < n,
    ensures
        gunzipped(s, pos, n) == Err::<Seq<u8>, ReaderError>(ReaderError::GZipBody(error)),
{
    bytes_read_back(head, s, pos);
    lemma_fails(Seq::empty(), s, pos + 10, replies, error, n);
}

} // verus!
