//! Framing of replies: collecting bytes until a reply's terminator arrives.
use vstd::prelude::*;
use crate::error::{GenericEspAtError, TransportError};
use crate::reply::{reply_as_slice, reply_bytes, reply_extend, reply_new, reply_truncate, ReplyData, REPLY_CAPACITY};

verus! {

/// `OK\r\n`: the end of a successful reply.
pub open spec fn ok_sentinel() -> Seq<u8> {
    seq![79u8, 75, 13, 10]
}

/// `ERROR\r\n`: the end of a failed reply.
pub open spec fn error_sentinel() -> Seq<u8> {
    seq![69u8, 82, 82, 79, 82, 13, 10]
}

/// Whether `s` ends with `t`.
pub open spec fn ends_with(s: Seq<u8>, t: Seq<u8>) -> bool {
    s.len() >= t.len() && s.subrange(s.len() - t.len(), s.len() as int) == t
}

/// What the bytes collected so far make of a reply.
pub enum FrameOutcome {
    /// The reply ended with `OK`; the payload before it.
    Success(Seq<u8>),
    /// The reply ended with `ERROR`; the payload before it.
    Failure(Seq<u8>),
    /// The capacity was reached without a terminator; the bytes collected.
    Overflow(Seq<u8>),
    /// More bytes are needed; the bytes collected.
    Pending(Seq<u8>),
}

/// The reading of a buffer holding `acc`: a terminator at its end completes the
/// reply, a full buffer without one overflows, anything else waits for more.
pub open spec fn frame_of(acc: Seq<u8>) -> FrameOutcome {
    if ends_with(acc, ok_sentinel()) {
        FrameOutcome::Success(acc.subrange(0, acc.len() - 4))
    } else if ends_with(acc, error_sentinel()) {
        FrameOutcome::Failure(acc.subrange(0, acc.len() - 7))
    } else if acc.len() >= 512 {
        FrameOutcome::Overflow(acc)
    } else {
        FrameOutcome::Pending(acc)
    }
}

/// One delivery of bytes: they are appended when they fit, and the whole buffer
/// is read anew; bytes that would pass the capacity end the reply as an overflow.
pub open spec fn step(acc: Seq<u8>, chunk: Seq<u8>) -> FrameOutcome {
    if acc.len() + chunk.len() > 512 {
        FrameOutcome::Overflow(acc)
    } else {
        frame_of(acc + chunk)
    }
}

/// A sequence of deliveries, stopping at the first that completes the reply.
pub open spec fn frame_chunks(acc: Seq<u8>, chunks: Seq<Seq<u8>>) -> FrameOutcome
    decreases chunks.len(),
{
    if chunks.len() == 0 {
        FrameOutcome::Pending(acc)
    } else {
        match step(acc, chunks[0]) {
            FrameOutcome::Pending(next) => frame_chunks(next, chunks.drop_first()),
            done => done,
        }
    }
}

/// All chunks, one after the other.
pub open spec fn concat_all(chunks: Seq<Seq<u8>>) -> Seq<u8>
    decreases chunks.len(),
{
    if chunks.len() == 0 {
        Seq::empty()
    } else {
        chunks[0] + concat_all(chunks.drop_first())
    }
}

/// Whether the reads `reads` stopped where the reply ended: none of them but the
/// last completed it.
pub open spec fn stopped_at_end(reads: Seq<Seq<u8>>) -> bool {
    reads.len() > 0 && frame_chunks(Seq::empty(), reads.drop_last()) is Pending
}

/// Whether the bytes `acc` complete a reply, or fill the buffer.
pub open spec fn completes(acc: Seq<u8>) -> bool {
    !(frame_of(acc) is Pending)
}

/// The result of handing one chunk to the framer.
pub enum Framing {
    /// The reply is not complete; the bytes collected so far.
    Pending(ReplyData),
    /// The reply is complete: its payload, or the failure it ends in.
    Done(Result<ReplyData, GenericEspAtError>),
}

/// The outcome a framing result stands for.
pub open spec fn framing_outcome(r: Framing) -> FrameOutcome {
    match r {
        Framing::Pending(v) => FrameOutcome::Pending(reply_bytes(v)),
        Framing::Done(Ok(v)) => FrameOutcome::Success(reply_bytes(v)),
        Framing::Done(Err(GenericEspAtError::ATError(v))) => FrameOutcome::Failure(reply_bytes(v)),
        Framing::Done(Err(GenericEspAtError::ATResponseTooLong(v))) => FrameOutcome::Overflow(
            reply_bytes(v),
        ),
        Framing::Done(Err(_)) => FrameOutcome::Pending(Seq::empty()),
    }
}

/// The outcome a finished reply stands for.
pub open spec fn result_outcome(r: Result<ReplyData, GenericEspAtError>) -> FrameOutcome {
    framing_outcome(Framing::Done(r))
}

/// Whether a framing result is one the framer itself produces: pending, a
/// payload, a failure reply or an overflow.
pub open spec fn framer_made(r: Framing) -> bool {
    match r {
        Framing::Pending(_) => true,
        Framing::Done(Ok(_)) => true,
        Framing::Done(Err(GenericEspAtError::ATError(_))) => true,
        Framing::Done(Err(GenericEspAtError::ATResponseTooLong(_))) => true,
        Framing::Done(Err(_)) => false,
    }
}

/// Whether `s` ends with `t`, compared byte by byte.
fn slice_ends_with(s: &[u8], t: &[u8]) -> (r: bool)
    ensures
        r == ends_with(s@, t@),
{
    if s.len() < t.len() {
        return false;
    }
    let off = s.len() - t.len();
    let mut i: usize = 0;
    while i < t.len()
        invariant
            off + t@.len() == s@.len(),
            s@.len() == s.len(),
            t@.len() <= s@.len(),
            0 <= i <= t@.len(),
            forall|j: int| 0 <= j < i ==> s@[off + j] == t@[j],
        decreases t@.len() - i,
    {
        if s[off + i] != t[i] {
            assert(s@.subrange(off as int, s@.len() as int)[i as int] != t@[i as int]);
            return false;
        }
        i = i + 1;
    }
    assert(s@.subrange(off as int, s@.len() as int) =~= t@);
    true
}

/// Appends `chunk` to the reply collected so far and reads the buffer: the reply
/// ends when the buffer ends with `OK\r\n` or `ERROR\r\n` (which is taken off), or
/// overflows when the buffer is full or the chunk does not fit.
pub fn frame_chunk(reply: ReplyData, chunk: &[u8]) -> (r: Framing)
    ensures
        framing_outcome(r) == step(reply_bytes(reply), chunk@),
        framer_made(r),
{
    let mut reply = reply;
    let ghost acc = reply_bytes(reply);
    match reply_extend(&mut reply, chunk) {
        Err(()) => {
            return Framing::Done(Err(GenericEspAtError::ATResponseTooLong(reply)));
        },
        Ok(()) => {},
    }
    let ok: [u8; 4] = [79u8, 75, 13, 10];
    let error: [u8; 7] = [69u8, 82, 82, 79, 82, 13, 10];
    let bytes = reply_as_slice(&reply);
    let len = bytes.len();
    assert(ok@ =~= ok_sentinel());
    assert(error@ =~= error_sentinel());
    if slice_ends_with(bytes, ok.as_slice()) {
        reply_truncate(&mut reply, len - 4);
        Framing::Done(Ok(reply))
    } else if slice_ends_with(bytes, error.as_slice()) {
        reply_truncate(&mut reply, len - 7);
        Framing::Done(Err(GenericEspAtError::ATError(reply)))
    } else if len >= 512 {
        Framing::Done(Err(GenericEspAtError::ATResponseTooLong(reply)))
    } else {
        Framing::Pending(reply)
    }
}

/// How many bytes the next read may bring: the room left in the buffer.
pub fn read_room(reply: &ReplyData) -> (r: usize)
    ensures
        r == REPLY_CAPACITY - reply_bytes(*reply).len(),
{
    REPLY_CAPACITY - reply_as_slice(reply).len()
}

/// Frames the bytes of one read: a read that brings nothing means the stream
/// ended; any other is handed to the framer.
pub fn frame_read(reply: ReplyData, chunk: &[u8]) -> (r: Framing)
    ensures
        chunk@.len() == 0 ==> r matches Framing::Done(
            Err(GenericEspAtError::Transport(TransportError::EndOfStream)),
        ),
        chunk@.len() > 0 ==> framing_outcome(r) == step(reply_bytes(reply), chunk@) && framer_made(r),
{
    if chunk.len() == 0 {
        Framing::Done(Err(GenericEspAtError::Transport(TransportError::EndOfStream)))
    } else {
        frame_chunk(reply, chunk)
    }
}

/// The bytes of one unframed read as a reply: all of them when they fit, or an
/// overflow holding as many as fit.
pub fn reply_from_read(chunk: &[u8]) -> (r: Result<ReplyData, GenericEspAtError>)
    ensures
        chunk@.len() <= 512 ==> r is Ok && reply_bytes(r->Ok_0) == chunk@,
        chunk@.len() > 512 ==> (r matches Err(GenericEspAtError::ATResponseTooLong(v)) && reply_bytes(
            v,
        ) == chunk@.subrange(0, 512)),
{
    let mut reply = reply_new();
    if chunk.len() <= REPLY_CAPACITY {
        let _ = reply_extend(&mut reply, chunk);
        assert(Seq::<u8>::empty() + chunk@ =~= chunk@);
        Ok(reply)
    } else {
        let head = vstd::slice::slice_subrange(chunk, 0, REPLY_CAPACITY);
        let _ = reply_extend(&mut reply, head);
        assert(Seq::<u8>::empty() + head@ =~= head@);
        Err(GenericEspAtError::ATResponseTooLong(reply))
    }
}

proof fn lemma_single_chunk(acc: Seq<u8>, chunk: Seq<u8>)
    requires
        acc.len() + chunk.len() <= 512,
    ensures
        frame_chunks(acc, seq![chunk]) == frame_of(acc + chunk),
{
    let cs = seq![chunk];
    assert(cs[0] == chunk);
    assert(cs.drop_first() =~= Seq::<Seq<u8>>::empty());
    match frame_of(acc + chunk) {
        FrameOutcome::Pending(next) => {
            assert(frame_chunks(next, Seq::<Seq<u8>>::empty()) == FrameOutcome::Pending(next));
        },
        _ => {},
    }
}

proof fn lemma_concat_take(chunks: Seq<Seq<u8>>, k: int)
    requires
        0 <= k < chunks.len(),
    ensures
        concat_all(chunks.take(k + 1)) == chunks[0] + concat_all(chunks.drop_first().take(k)),
{
    let t = chunks.take(k + 1);
    assert(t[0] == chunks[0]);
    assert(t.drop_first() =~= chunks.drop_first().take(k));
}

/// Framing does not depend on how the bytes are split into reads: when no read
/// but the last ends the reply, handing over the chunks one by one gives what
/// handing over all of their bytes at once gives.
pub proof fn lemma_fragmentation_invariant(acc: Seq<u8>, chunks: Seq<Seq<u8>>)
    requires
        chunks.len() > 0,
        acc.len() + concat_all(chunks).len() <= 512,
        forall|k: int| 0 < k < chunks.len() ==> !completes(acc + concat_all(chunks.take(k))),
    ensures
        frame_chunks(acc, chunks) == frame_chunks(acc, seq![concat_all(chunks)]),
    decreases chunks.len(),
{
    let c0 = chunks[0];
    let rest = chunks.drop_first();
    assert(concat_all(chunks) == c0 + concat_all(rest));
    lemma_single_chunk(acc, concat_all(chunks));
    if chunks.len() == 1 {
        assert(rest =~= Seq::<Seq<u8>>::empty());
        assert(concat_all(chunks) =~= c0);
        assert(chunks =~= seq![c0]);
    } else {
        let next = acc + c0;
        lemma_concat_take(chunks, 0);
        assert(chunks.drop_first().take(0) =~= Seq::<Seq<u8>>::empty());
        assert(concat_all(chunks.take(1)) =~= c0);
        assert(!completes(acc + concat_all(chunks.take(1))));
        assert(frame_of(next) == FrameOutcome::Pending(next));
        assert(frame_chunks(acc, chunks) == frame_chunks(next, rest));
        assert forall|k: int| 0 < k < rest.len() implies !completes(
            next + concat_all(rest.take(k)),
        ) by {
            lemma_concat_take(chunks, k);
            assert(!completes(acc + concat_all(chunks.take(k + 1))));
            assert(acc + concat_all(chunks.take(k + 1)) =~= next + concat_all(rest.take(k)));
        }
        lemma_fragmentation_invariant(next, rest);
        lemma_single_chunk(next, concat_all(rest));
        assert(next + concat_all(rest) =~= acc + concat_all(chunks));
    }
}

proof fn lemma_pending_prefixes(acc: Seq<u8>, chunks: Seq<Seq<u8>>)
    requires
        frame_chunks(acc, chunks) is Pending,
    ensures
        forall|k: int| 0 < k <= chunks.len() ==> !completes(acc + concat_all(chunks.take(k))),
    decreases chunks.len(),
{
    if chunks.len() > 0 {
        let c0 = chunks[0];
        let rest = chunks.drop_first();
        let next = acc + c0;
        assert(step(acc, c0) == FrameOutcome::Pending(next));
        lemma_pending_prefixes(next, rest);
        assert forall|k: int| 0 < k <= chunks.len() implies !completes(
            acc + concat_all(chunks.take(k)),
        ) by {
            lemma_concat_take(chunks, k - 1);
            if k == 1 {
                assert(rest.take(0) =~= Seq::<Seq<u8>>::empty());
                assert(acc + concat_all(chunks.take(k)) =~= next);
            } else {
                assert(acc + concat_all(chunks.take(k)) =~= next + concat_all(rest.take(k - 1)));
            }
        }
    }
}

/// A run of reads that stops where its reply ends gives what framing all of
/// their bytes at once gives, however they were split, as long as the bytes fit
/// in the buffer.
pub proof fn lemma_reads_frame_as_whole(reads: Seq<Seq<u8>>)
    requires
        stopped_at_end(reads),
        concat_all(reads).len() <= 512,
    ensures
        frame_chunks(Seq::empty(), reads) == frame_of(concat_all(reads)),
{
    let empty = Seq::<u8>::empty();
    let init = reads.drop_last();
    lemma_pending_prefixes(empty, init);
    assert forall|k: int| 0 < k < reads.len() implies !completes(
        empty + concat_all(reads.take(k)),
    ) by {
        assert(init.take(k) =~= reads.take(k));
    }
    lemma_fragmentation_invariant(empty, reads);
    lemma_single_chunk(empty, concat_all(reads));
    assert(empty + concat_all(reads) =~= concat_all(reads));
}

/// Two runs of reads that bring the same bytes, split differently, give the
/// same reply when each stops where its reply ends and the bytes fit the buffer.
pub proof fn lemma_read_split_invariant(first: Seq<Seq<u8>>, second: Seq<Seq<u8>>)
    requires
        stopped_at_end(first),
        stopped_at_end(second),
        concat_all(first) == concat_all(second),
        concat_all(first).len() <= 512,
    ensures
        frame_chunks(Seq::empty(), first) == frame_chunks(Seq::empty(), second),
{
    lemma_reads_frame_as_whole(first);
    lemma_reads_frame_as_whole(second);
}

/// Reads that fill the buffer, stopping where the reply ends, with no terminator
/// at the end of the bytes, overflow; the overflow carries exactly the bytes read.
pub proof fn lemma_overflow_carries_bytes(reads: Seq<Seq<u8>>)
    requires
        stopped_at_end(reads),
        concat_all(reads).len() == 512,
        !ends_with(concat_all(reads), ok_sentinel()),
        !ends_with(concat_all(reads), error_sentinel()),
    ensures
        frame_chunks(Seq::empty(), reads) == FrameOutcome::Overflow(concat_all(reads)),
{
    lemma_reads_frame_as_whole(reads);
}

/// Reads that bring exactly `OK\r\n`, stopping where the reply ends, succeed
/// with an empty payload.
pub proof fn lemma_ok_reply_of_reads(reads: Seq<Seq<u8>>)
    requires
        stopped_at_end(reads),
        concat_all(reads) == ok_sentinel(),
    ensures
        frame_chunks(Seq::empty(), reads) == FrameOutcome::Success(Seq::empty()),
{
    lemma_reads_frame_as_whole(reads);
    let s = ok_sentinel();
    assert(s.subrange(0, 4) =~= s);
    assert(s.subrange(0, 0) =~= Seq::<u8>::empty());
}

/// Reads that bring a payload followed by `ERROR\r\n`, stopping where the reply
/// ends, fail with exactly that payload.
pub proof fn lemma_error_reply_of_reads(reads: Seq<Seq<u8>>, payload: Seq<u8>)
    requires
        stopped_at_end(reads),
        concat_all(reads) == payload + error_sentinel(),
        payload.len() + 7 <= 512,
    ensures
        frame_chunks(Seq::empty(), reads) == FrameOutcome::Failure(payload),
{
    lemma_reads_frame_as_whole(reads);
    lemma_error_payload(payload);
}

/// A reply that ends in `ERROR\r\n` fails, and the failure carries exactly the
/// bytes before that terminator.
pub proof fn lemma_error_payload(payload: Seq<u8>)
    requires
        payload.len() + 7 <= 512,
    ensures
        frame_of(payload + error_sentinel()) == FrameOutcome::Failure(payload),
        step(Seq::empty(), payload + error_sentinel()) == FrameOutcome::Failure(payload),
{
    let s = payload + error_sentinel();
    assert(s.subrange(s.len() - 4, s.len() as int)[1] == 82u8);
    assert(!ends_with(s, ok_sentinel()));
    assert(s.subrange(s.len() - 7, s.len() as int) =~= error_sentinel());
    assert(s.subrange(0, s.len() - 7) =~= payload);
    assert(Seq::<u8>::empty() + s =~= s);
}

} // verus!
