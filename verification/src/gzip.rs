//! Unpacking of gzip streams, a window of bytes at a time.

use crate::compression::{
    new_raw_inflate, raw_inflate, raw_inflate_calls, raw_inflate_reply, same_bytes,
    InflateReply, InflateStatus,
};
use crate::primitives::{at_bytes, read_slice};
use crate::types::{InflateError, ReaderError, Result};
use vstd::prelude::*;

verus! {

/// How many bytes the decoder is offered at a time.
pub const GZIP_WINDOW: usize = 16384;

/// How much room the decoder has for its output at a time.
pub const GZIP_ROOM: usize = 65536;

/// The ten bytes in front of the compressed data are as expected: the magic
/// number, the method "deflate", and no flags.
pub open spec fn gzip_header(s: Seq<u8>, pos: int) -> Result<int> {
    match at_bytes(s, pos, 10) {
        Err(e) => Err(e),
        Ok((b, next)) => if b[0] == 0x1f && b[1] == 0x8b && b[2] == 8 && b[3] == 0 {
            Ok(next)
        } else {
            Err(ReaderError::GZipHeader)
        },
    }
}

/// What follows from a reply of the decoder when `remaining` bytes are still
/// wanted: the bytes to keep, and whether to go on.
pub open spec fn accepted(reply: InflateReply, window: nat, remaining: nat) -> Result<
    (Seq<u8>, bool),
> {
    let kept = if reply.1.len() <= remaining {
        reply.1
    } else {
        reply.1.subrange(0, remaining as int)
    };
    match reply.2 {
        Err(e) => Err(ReaderError::GZipBody(e)),
        Ok(InflateStatus::StreamEnd) => Ok((kept, false)),
        Ok(InflateStatus::NeedDict) => Err(ReaderError::Malformed),
        Ok(InflateStatus::Progress) => if reply.0 > window || (reply.0 == 0 && kept.len() == 0) {
            Err(ReaderError::GZipBody(InflateError::Buf))
        } else {
            Ok((kept, true))
        },
    }
}

/// The window of bytes that starts at `pos`.
pub open spec fn window_at(s: Seq<u8>, pos: int) -> Seq<u8> {
    s.subrange(
        pos,
        if pos + GZIP_WINDOW <= s.len() {
            pos + GZIP_WINDOW
        } else {
            s.len() as int
        },
    )
}

/// `front` and what comes behind it.
pub open spec fn behind(front: Seq<u8>, rest: Result<Seq<u8>>) -> Result<Seq<u8>> {
    match rest {
        Ok(bytes) => Ok(front + bytes),
        Err(e) => Err(e),
    }
}

/// The next `remaining` bytes that a decoder unpacks from the bytes at `pos`,
/// or fewer if its stream ends before.
pub open spec fn inflated_from(
    calls: Seq<(Seq<u8>, nat)>,
    s: Seq<u8>,
    pos: int,
    remaining: nat,
) -> Result<Seq<u8>>
    decreases s.len() - pos + remaining,
    when 0 <= pos <= s.len()
{
    if remaining == 0 {
        Ok(Seq::empty())
    } else {
        let window = window_at(s, pos);
        let reply = raw_inflate_reply(calls, window, GZIP_ROOM as nat);
        match accepted(reply, window.len(), remaining) {
            Err(e) => Err(e),
            Ok((kept, more)) => if more {
                behind(
                    kept,
                    inflated_from(
                        calls.push((window, GZIP_ROOM as nat)),
                        s,
                        pos + reply.0,
                        (remaining - kept.len()) as nat,
                    ),
                )
            } else {
                Ok(kept)
            },
        }
    }
}

/// The first `length` bytes that the gzip stream at `pos` unpacks to.
pub open spec fn gunzipped(s: Seq<u8>, pos: int, length: nat) -> Result<Seq<u8>> {
    match gzip_header(s, pos) {
        Err(e) => Err(e),
        Ok(body) => inflated_from(Seq::empty(), s, body, length),
    }
}

pub fn read_gzip_header(data: &[u8], pos: u64) -> (r: Result<u64>)
    ensures
        match (r, gzip_header(data@, pos as int)) {
            (Ok(n), Ok(m)) => n == m && n <= data@.len(),
            (Err(e), Err(f)) => e == f,
            _ => false,
        },
{
    let b = read_slice(data, pos, 10)?;
    if b[0] == 0x1f && b[1] == 0x8b && b[2] == 8 && b[3] == 0 {
        Ok(pos + 10)
    } else {
        Err(ReaderError::GZipHeader)
    }
}

/// Appends what a reply of the decoder gives to `target`. Returns whether to go on.
pub fn accept(
    consumed: usize,
    written: Vec<u8>,
    status: core::result::Result<InflateStatus, InflateError>,
    window: usize,
    remaining: u64,
    target: &mut Vec<u8>,
) -> (r: Result<bool>)
    ensures
        match (r, accepted((consumed as nat, written@, status), window as nat, remaining as nat)) {
            (Ok(go_on), Ok((kept, more))) => go_on == more && final(target)@ == old(target)@
                + kept,
            (Err(e), Err(f)) => e == f && final(target)@ == old(target)@,
            _ => false,
        },
{
    let status = match status {
        Err(e) => {
            return Err(ReaderError::GZipBody(e));
        },
        Ok(status) => status,
    };
    let mut kept = written;
    if kept.len() as u64 > remaining {
        kept.truncate(remaining as usize);
    }
    match status {
        InflateStatus::StreamEnd => {
            target.append(&mut kept);
            Ok(false)
        },
        InflateStatus::NeedDict => Err(ReaderError::Malformed),
        InflateStatus::Progress => {
            if consumed > window || (consumed == 0 && kept.len() == 0) {
                return Err(ReaderError::GZipBody(InflateError::Buf));
            }
            target.append(&mut kept);
            Ok(true)
        },
    }
}

/// Unpacks a gzip stream, until `length` bytes are there or it ends.
pub fn decompress_gz_in_chunks(data: &[u8], pos: u64, length: u64) -> (r: Result<Vec<u8>>)
    ensures
        same_bytes(r, gunzipped(data@, pos as int, length as nat)),
{
    let start: u64 = read_gzip_header(data, pos)?;
    let size: usize = data.len();
    let mut at: usize = start as usize;
    let mut remaining: u64 = length;
    let mut target: Vec<u8> = Vec::new();
    let mut state = new_raw_inflate();
    let ghost whole = gunzipped(data@, pos as int, length as nat);
    proof {
        assert(Seq::<u8>::empty() + Seq::<u8>::empty() =~= Seq::<u8>::empty());
        if let Ok(bytes) = whole {
            assert(Seq::<u8>::empty() + bytes =~= bytes);
        }
    }
    while remaining > 0
        invariant
            at <= size == data@.len(),
            whole == gunzipped(data@, pos as int, length as nat),
            whole == behind(
                target@,
                inflated_from(raw_inflate_calls(state), data@, at as int, remaining as nat),
            ),
        decreases data@.len() - at + remaining,
    {
        let end: usize = if size - at >= GZIP_WINDOW {
            at + GZIP_WINDOW
        } else {
            size
        };
        let window = vstd::slice::slice_subrange(data, at, end);
        let ghost front = target@;
        let ghost calls = raw_inflate_calls(state);
        let (consumed, written, status) = raw_inflate(&mut state, window, GZIP_ROOM);
        let before: usize = target.len();
        let go_on = accept(consumed, written, status, window.len(), remaining, &mut target)?;
        if !go_on {
            return Ok(target);
        }
        let kept: u64 = (target.len() - before) as u64;
        proof {
            assert(window@ == window_at(data@, at as int));
            let reply = raw_inflate_reply(calls, window@, GZIP_ROOM as nat);
            let kept_bytes = accepted(reply, window@.len(), remaining as nat)->Ok_0.0;
            let rest = inflated_from(
                raw_inflate_calls(state),
                data@,
                at + consumed,
                (remaining - kept) as nat,
            );
            if let Ok(bytes) = rest {
                assert(front + (kept_bytes + bytes) =~= target@ + bytes);
            }
        }
        at = at + consumed;
        remaining = remaining - kept;
    }
    proof {
        assert(target@ + Seq::<u8>::empty() =~= target@);
    }
    Ok(target)
}

} // verus!
