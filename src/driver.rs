//! The driver: one command written, one reply framed, per operation.
use vstd::prelude::*;
use crate::command::{join_command, join_line, mode_command, mode_line, query_command, query_line, ConnectionConfig, WifiMode};
use crate::error::{GenericEspAtError, TransportError};
use crate::fields::{addresses_fit, addresses_of, local_addresses, Interface, LocalAddresses};
use crate::framing::{
    error_sentinel, lemma_ok_reply_of_reads, lemma_read_split_invariant, lemma_reads_frame_as_whole, lemma_error_payload, ends_with, ok_sentinel,
    concat_all, frame_chunks, frame_of, frame_read, read_room, reply_from_read, result_outcome, step,
    stopped_at_end, FrameOutcome, Framing,
};
use crate::reply::{reply_as_slice, reply_bytes, ReplyData, REPLY_CAPACITY};

verus! {

/// The byte link to the co-processor.
pub trait Transport {
    /// Reads at most `max_len` bytes and returns those that arrived: at least one,
    /// unless the stream has ended.
    fn read(&mut self, max_len: usize) -> Result<Vec<u8>, TransportError>;

    /// Writes all of `data`, or fails.
    fn write_all(&mut self, data: &[u8]) -> Result<(), TransportError>;
}

/// One call the driver made on its transport, with what came of it.
pub enum IoEvent {
    /// All of these bytes were written.
    Wrote(Seq<u8>),
    /// The write of these bytes failed with this error.
    WriteFailed(Seq<u8>, TransportError),
    /// A read asked for at most this many bytes and brought these.
    Read(usize, Seq<u8>),
    /// A read asked for at most this many bytes and failed with this error.
    ReadFailed(usize, TransportError),
}

/// The bytes each successful read among `events` brought, in order.
pub open spec fn read_bytes(events: Seq<IoEvent>) -> Seq<Seq<u8>>
    decreases events.len(),
{
    if events.len() == 0 {
        Seq::empty()
    } else {
        match events.last() {
            IoEvent::Read(_, b) => read_bytes(events.drop_last()).push(b),
            _ => read_bytes(events.drop_last()),
        }
    }
}

/// Whether every event is a read that asked for exactly the room left in the
/// buffer: its capacity less the bytes the reads before it brought.
#[verifier::opaque]
pub open spec fn reads_ask_for_room(events: Seq<IoEvent>) -> bool {
    forall|i: int|
        0 <= i < events.len() ==> match #[trigger] events[i] {
            IoEvent::Read(n, _) => n == 512 - concat_all(read_bytes(events.take(i))).len(),
            IoEvent::ReadFailed(n, _) => n == 512 - concat_all(read_bytes(events.take(i))).len(),
            _ => false,
        }
}

/// Whether `events` are the reads of one reply: at least one, each asking for the
/// room left, every one but the last successful.
#[verifier::opaque]
pub open spec fn read_phase(events: Seq<IoEvent>) -> bool {
    events.len() > 0 && reads_ask_for_room(events) && forall|i: int|
        0 <= i < events.len() - 1 ==> #[trigger] events[i] is Read
}

/// Whether the reads `events` ended in the transport failure `e`: a failed read,
/// or a read that brought nothing because the stream ended.
pub open spec fn read_failed_with(events: Seq<IoEvent>, e: TransportError) -> bool {
    events.last() == IoEvent::ReadFailed(
        (512 - concat_all(read_bytes(events.drop_last())).len()) as usize,
        e,
    ) || (e == TransportError::EndOfStream && (events.last() matches IoEvent::Read(_, b)
        && b.len() == 0))
}

/// What reading a reply through the reads `events` gives: the payload, failure or
/// overflow that framing their bytes yields, read up to the end of the reply and
/// no further; or a transport failure at the last read, with the reply still
/// incomplete.
#[verifier::opaque]
pub open spec fn reply_read(r: Result<ReplyData, GenericEspAtError>, events: Seq<IoEvent>) -> bool {
    read_phase(events) && match r {
        Err(GenericEspAtError::Transport(e)) => read_failed_with(events, e) && frame_chunks(
            Seq::empty(),
            read_bytes(events),
        ) is Pending,
        Err(GenericEspAtError::ATResponseInvalid) => false,
        _ => events.last() is Read && stopped_at_end(read_bytes(events)) && frame_chunks(
            Seq::empty(),
            read_bytes(events),
        ) == result_outcome(r),
    }
}

/// What a command that only needs `OK` gives after the reads `events`: success
/// exactly when they frame to a successful reply.
#[verifier::opaque]
pub open spec fn command_read(r: Result<(), GenericEspAtError>, events: Seq<IoEvent>) -> bool {
    match r {
        Ok(()) => read_phase(events) && events.last() is Read && stopped_at_end(read_bytes(events))
            && frame_chunks(Seq::empty(), read_bytes(events)) is Success,
        Err(e) => reply_read(Err(e), events),
    }
}

/// What an address query for `interface` gives after the reads `events`: the
/// addresses named in the successful payload, or an error when one does not fit.
#[verifier::opaque]
pub open spec fn query_read(
    r: Result<LocalAddresses, GenericEspAtError>,
    events: Seq<IoEvent>,
    interface: Interface,
) -> bool {
    match r {
        Ok(a) => read_phase(events) && events.last() is Read && stopped_at_end(read_bytes(events))
            && (frame_chunks(Seq::empty(), read_bytes(events)) matches FrameOutcome::Success(p)
            && addresses_fit(p, interface) && addresses_of(a, p, interface)),
        Err(GenericEspAtError::ATResponseInvalid) => read_phase(events) && events.last() is Read
            && stopped_at_end(read_bytes(events)) && (frame_chunks(
            Seq::empty(),
            read_bytes(events),
        ) matches FrameOutcome::Success(p) && !addresses_fit(p, interface)),
        Err(e) => reply_read(Err(e), events),
    }
}

/// The events of a command that waits for `OK`: `line` written, then the reads of
/// the reply; or the failed write alone.
pub open spec fn command_trace(events: Seq<IoEvent>, line: Seq<u8>, r: Result<(), GenericEspAtError>) -> bool {
    (r matches Err(GenericEspAtError::Transport(e)) && events == seq![
        IoEvent::WriteFailed(line, e),
    ]) || (events.len() > 0 && events[0] == IoEvent::Wrote(line) && command_read(
        r,
        events.drop_first(),
    ))
}

/// The events of an address query for `interface`: `AT+CIFSR\r\n` written, then the
/// reads of the reply; or the failed write alone.
pub open spec fn query_trace(
    events: Seq<IoEvent>,
    r: Result<LocalAddresses, GenericEspAtError>,
    interface: Interface,
) -> bool {
    (r matches Err(GenericEspAtError::Transport(e)) && events == seq![
        IoEvent::WriteFailed(query_line(), e),
    ]) || (events.len() > 0 && events[0] == IoEvent::Wrote(query_line()) && query_read(
        r,
        events.drop_first(),
        interface,
    ))
}

proof fn lemma_frame_chunks_push(acc: Seq<u8>, chunks: Seq<Seq<u8>>, last: Seq<u8>, now: Seq<u8>)
    requires
        frame_chunks(acc, chunks) == FrameOutcome::Pending(now),
    ensures
        frame_chunks(acc, chunks.push(last)) == frame_chunks(now, seq![last]),
    decreases chunks.len(),
{
    let all = chunks.push(last);
    if chunks.len() == 0 {
        assert(all =~= seq![last]);
    } else {
        assert(all[0] == chunks[0]);
        assert(all.drop_first() =~= chunks.drop_first().push(last));
        match step(acc, chunks[0]) {
            FrameOutcome::Pending(next) => {
                lemma_frame_chunks_push(next, chunks.drop_first(), last, now);
            },
            _ => {},
        }
    }
}

proof fn lemma_concat_push(chunks: Seq<Seq<u8>>, last: Seq<u8>)
    ensures
        concat_all(chunks.push(last)) == concat_all(chunks) + last,
    decreases chunks.len(),
{
    let all = chunks.push(last);
    if chunks.len() == 0 {
        assert(all[0] == last);
        assert(all.drop_first() =~= Seq::<Seq<u8>>::empty());
        assert(concat_all(Seq::<Seq<u8>>::empty()) =~= Seq::<u8>::empty());
        assert(concat_all(all) =~= concat_all(chunks) + last);
    } else {
        assert(all[0] == chunks[0]);
        assert(all.drop_first() =~= chunks.drop_first().push(last));
        lemma_concat_push(chunks.drop_first(), last);
        let a = concat_all(chunks.drop_first());
        assert((chunks[0] + a) + last =~= chunks[0] + (a + last));
    }
}

proof fn lemma_room_push(events: Seq<IoEvent>, event: IoEvent)
    requires
        reads_ask_for_room(events),
        event matches IoEvent::Read(n, _) ==> n == 512 - concat_all(read_bytes(events)).len(),
        event matches IoEvent::ReadFailed(n, _) ==> n == 512 - concat_all(read_bytes(events)).len(),
        event is Read || event is ReadFailed,
    ensures
        reads_ask_for_room(events.push(event)),
{
    reveal(reads_ask_for_room);
    let all = events.push(event);
    assert forall|i: int| 0 <= i < all.len() implies match #[trigger] all[i] {
        IoEvent::Read(n, _) => n == 512 - concat_all(read_bytes(all.take(i))).len(),
        IoEvent::ReadFailed(n, _) => n == 512 - concat_all(read_bytes(all.take(i))).len(),
        _ => false,
    } by {
        if i < events.len() {
            assert(all.take(i) =~= events.take(i));
            assert(all[i] == events[i]);
        } else {
            assert(all.take(i) =~= events);
        }
    }
}

proof fn lemma_read_bytes_push(events: Seq<IoEvent>, event: IoEvent)
    ensures
        event matches IoEvent::Read(_, b) ==> read_bytes(events.push(event)) == read_bytes(events).push(b),
        !(event is Read) ==> read_bytes(events.push(event)) == read_bytes(events),
{
    assert(events.push(event).drop_last() =~= events);
}

/// Whether two command results end the same way: both in success, or both in
/// the same failure reply or overflow.
pub open spec fn same_command_result(a: Result<(), GenericEspAtError>, b: Result<(), GenericEspAtError>) -> bool {
    match (a, b) {
        (Ok(()), Ok(())) => true,
        (Err(GenericEspAtError::ATError(x)), Err(GenericEspAtError::ATError(y))) => reply_bytes(x)
            == reply_bytes(y),
        (Err(GenericEspAtError::ATResponseTooLong(x)), Err(GenericEspAtError::ATResponseTooLong(y))) => reply_bytes(x)
            == reply_bytes(y),
        _ => false,
    }
}

/// The bytes the reads of a command's reply brought, all together.
pub open spec fn reply_stream(events: Seq<IoEvent>) -> Seq<u8> {
    concat_all(read_bytes(events.drop_first()))
}

/// Two runs of a command whose reply reads bring the same bytes, split
/// differently, end the same way, unless the transport failed in one of them.
pub proof fn lemma_command_split_invariant(
    first: Seq<IoEvent>,
    second: Seq<IoEvent>,
    line: Seq<u8>,
    r1: Result<(), GenericEspAtError>,
    r2: Result<(), GenericEspAtError>,
)
    requires
        command_trace(first, line, r1),
        command_trace(second, line, r2),
        !(r1 matches Err(GenericEspAtError::Transport(_))),
        !(r2 matches Err(GenericEspAtError::Transport(_))),
        reply_stream(first) == reply_stream(second),
        reply_stream(first).len() <= 512,
    ensures
        same_command_result(r1, r2),
{
    reveal(command_read);
    reveal(reply_read);
    lemma_read_split_invariant(read_bytes(first.drop_first()), read_bytes(second.drop_first()));
}

/// A command whose reply reads bring 512 bytes with no terminator at their end
/// overflows, carrying exactly those bytes, unless the transport failed.
pub proof fn lemma_command_overflow(events: Seq<IoEvent>, line: Seq<u8>, r: Result<(), GenericEspAtError>)
    requires
        command_trace(events, line, r),
        !(r matches Err(GenericEspAtError::Transport(_))),
        reply_stream(events).len() == 512,
        !ends_with(reply_stream(events), ok_sentinel()),
        !ends_with(reply_stream(events), error_sentinel()),
    ensures
        r matches Err(GenericEspAtError::ATResponseTooLong(v)) && reply_bytes(v) == reply_stream(events),
{
    reveal(command_read);
    reveal(reply_read);
    lemma_reads_frame_as_whole(read_bytes(events.drop_first()));
}

/// A command whose reply reads bring a payload followed by `ERROR\r\n` fails
/// with exactly that payload, unless the transport failed.
pub proof fn lemma_command_error_payload(
    events: Seq<IoEvent>,
    line: Seq<u8>,
    r: Result<(), GenericEspAtError>,
    payload: Seq<u8>,
)
    requires
        command_trace(events, line, r),
        !(r matches Err(GenericEspAtError::Transport(_))),
        reply_stream(events) == payload + error_sentinel(),
        payload.len() + 7 <= 512,
    ensures
        r matches Err(GenericEspAtError::ATError(v)) && reply_bytes(v) == payload,
{
    reveal(command_read);
    reveal(reply_read);
    lemma_reads_frame_as_whole(read_bytes(events.drop_first()));
    lemma_error_payload(payload);
}

/// A command whose reply reads bring exactly `OK\r\n` succeeds, having read
/// nothing past it, unless the transport failed.
pub proof fn lemma_command_ok(events: Seq<IoEvent>, line: Seq<u8>, r: Result<(), GenericEspAtError>)
    requires
        command_trace(events, line, r),
        !(r matches Err(GenericEspAtError::Transport(_))),
        reply_stream(events) == ok_sentinel(),
    ensures
        r is Ok,
        events[0] == IoEvent::Wrote(line),
        stopped_at_end(read_bytes(events.drop_first())),
{
    reveal(command_read);
    reveal(reply_read);
    lemma_ok_reply_of_reads(read_bytes(events.drop_first()));
}

/// A driver for the AT command firmware of ESP Wi-Fi chips, over a transport it
/// owns. Instances are cheap: create one per session and drop it after.
pub struct EspAt<T: Transport> {
    uart: T,
    trace: Ghost<Seq<IoEvent>>,
}

impl<T: Transport> EspAt<T> {
    /// The transport the driver owns.
    pub closed spec fn transport(&self) -> T {
        self.uart
    }

    /// Every call this driver has made on its transport, in order, with its outcome.
    pub closed spec fn trace(&self) -> Seq<IoEvent> {
        self.trace@
    }

    /// Takes ownership of the transport.
    pub fn new(uart: T) -> (r: Self)
        ensures
            r.transport() == uart,
            r.trace() == Seq::<IoEvent>::empty(),
    {
        EspAt { uart, trace: Ghost(Seq::empty()) }
    }

    /// Selects the radio mode: writes `AT+CWMODE=<n>,1\r\n`, then reads until the
    /// reply ends, and succeeds on `OK`.
    pub fn set_wifi_mode(&mut self, mode: WifiMode) -> (r: Result<(), GenericEspAtError>)
        ensures
            old(self).trace().is_prefix_of(final(self).trace()),
            command_trace(final(self).trace().skip(old(self).trace().len() as int), mode_line(mode), r),
    {
        let line = mode_command(mode);
        self.send(line.as_slice())
    }

    /// Joins the access point that `config` describes: writes `AT+CWJAP=` with its
    /// ten slots, then reads until the reply ends, and succeeds on `OK`.
    pub fn connect_to_access_point(&mut self, config: ConnectionConfig) -> (r: Result<
        (),
        GenericEspAtError,
    >)
        ensures
            old(self).trace().is_prefix_of(final(self).trace()),
            command_trace(final(self).trace().skip(old(self).trace().len() as int), join_line(config), r),
    {
        let line = join_command(&config);
        self.send(line.as_slice())
    }

    /// Writes a command line, then reads until the reply ends.
    fn send(&mut self, line: &[u8]) -> (r: Result<(), GenericEspAtError>)
        ensures
            old(self).trace().is_prefix_of(final(self).trace()),
            command_trace(final(self).trace().skip(old(self).trace().len() as int), line@, r),
    {
        let ghost start = self.trace();
        if let Err(e) = self.direct_write(line) {
            assert(self.trace().skip(start.len() as int) =~= seq![
                IoEvent::WriteFailed(line@, e->Transport_0),
            ]);
            return Err(e);
        }
        let ghost mid = self.trace();
        let res = self.read_reply();
        proof {
            let ev = self.trace().skip(start.len() as int);
            assert(ev.drop_first() =~= self.trace().skip(mid.len() as int));
            assert(mid == start.push(IoEvent::Wrote(line@)));
            assert(self.trace().subrange(0, mid.len() as int) == mid);
            assert(self.trace().subrange(0, mid.len() as int)[start.len() as int] == self.trace()[start.len() as int]);
            assert(ev[0] == IoEvent::Wrote(line@));
            assert(self.trace().subrange(0, start.len() as int) =~= mid.subrange(0, start.len() as int));
            reveal(reply_read);
            reveal(command_read);
        }
        match res {
            Ok(v) => Ok(()),
            Err(e) => Err(e),
        }
    }

    /// Queries the local addresses and keeps those of `interface`.
    fn get_local_addresses(&mut self, interface: Interface) -> (r: Result<
        LocalAddresses,
        GenericEspAtError,
    >)
        ensures
            old(self).trace().is_prefix_of(final(self).trace()),
            query_trace(final(self).trace().skip(old(self).trace().len() as int), r, interface),
    {
        let ghost start = self.trace();
        let line = query_command();
        if let Err(e) = self.direct_write(line.as_slice()) {
            assert(self.trace().skip(start.len() as int) =~= seq![
                IoEvent::WriteFailed(query_line(), e->Transport_0),
            ]);
            return Err(e);
        }
        let ghost mid = self.trace();
        let res = self.read_reply();
        proof {
            let ev = self.trace().skip(start.len() as int);
            assert(ev.drop_first() =~= self.trace().skip(mid.len() as int));
            assert(mid == start.push(IoEvent::Wrote(query_line())));
            assert(self.trace().subrange(0, mid.len() as int) == mid);
            assert(self.trace().subrange(0, mid.len() as int)[start.len() as int] == self.trace()[start.len() as int]);
            assert(ev[0] == IoEvent::Wrote(query_line()));
            assert(self.trace().subrange(0, start.len() as int) =~= mid.subrange(0, start.len() as int));
            reveal(reply_read);
            reveal(query_read);
        }
        let reply = res?;
        let payload = reply_as_slice(&reply);
        local_addresses(payload, interface)
    }

    /// The local addresses of the access point role.
    pub fn get_local_addresses_softap(&mut self) -> (r: Result<LocalAddresses, GenericEspAtError>)
        ensures
            old(self).trace().is_prefix_of(final(self).trace()),
            query_trace(final(self).trace().skip(old(self).trace().len() as int), r, Interface::SoftAP),
    {
        self.get_local_addresses(Interface::SoftAP)
    }

    /// The local addresses of the station role.
    pub fn get_local_addresses_station(&mut self) -> (r: Result<LocalAddresses, GenericEspAtError>)
        ensures
            old(self).trace().is_prefix_of(final(self).trace()),
            query_trace(final(self).trace().skip(old(self).trace().len() as int), r, Interface::Station),
    {
        self.get_local_addresses(Interface::Station)
    }

    /// The local addresses of the wired interface.
    pub fn get_local_addresses_ethernet(&mut self) -> (r: Result<LocalAddresses, GenericEspAtError>)
        ensures
            old(self).trace().is_prefix_of(final(self).trace()),
            query_trace(final(self).trace().skip(old(self).trace().len() as int), r, Interface::Ethernet),
    {
        self.get_local_addresses(Interface::Ethernet)
    }

    /// One read of at most `max_len` bytes, recorded in the trace.
    fn read_chunk(&mut self, max_len: usize) -> (r: Result<Vec<u8>, TransportError>)
        ensures
            r is Ok ==> final(self).trace() == old(self).trace().push(IoEvent::Read(max_len, r->Ok_0@)),
            r is Err ==> final(self).trace() == old(self).trace().push(IoEvent::ReadFailed(max_len, r->Err_0)),
    {
        let r = self.uart.read(max_len);
        match &r {
            Ok(c) => {
                self.trace = Ghost(self.trace@.push(IoEvent::Read(max_len, c@)));
            },
            Err(e) => {
                self.trace = Ghost(self.trace@.push(IoEvent::ReadFailed(max_len, *e)));
            },
        }
        r
    }

    /// Reads until the reply ends with `OK\r\n` or `ERROR\r\n`, checking the end of
    /// the buffer after every read and asking each read for the room left, or until
    /// the buffer is full.
    #[verifier::rlimit(50)]
    fn read_reply(&mut self) -> (r: Result<ReplyData, GenericEspAtError>)
        ensures
            old(self).trace().is_prefix_of(final(self).trace()),
            reply_read(r, final(self).trace().skip(old(self).trace().len() as int)),
    {
        let ghost start = self.trace();
        let mut reply = crate::reply::reply_new();
        assert(self.trace().skip(start.len() as int) =~= Seq::<IoEvent>::empty());
        proof {
            reveal(reads_ask_for_room);
        }
        loop
            invariant
                start == old(self).trace(),
                start.is_prefix_of(self.trace()),
                forall|i: int| 0 <= i < self.trace().skip(start.len() as int).len()
                    ==> #[trigger] self.trace().skip(start.len() as int)[i] is Read,
                reads_ask_for_room(self.trace().skip(start.len() as int)),
                concat_all(read_bytes(self.trace().skip(start.len() as int))) == reply_bytes(reply),
                frame_chunks(Seq::empty(), read_bytes(self.trace().skip(start.len() as int)))
                    == FrameOutcome::Pending(reply_bytes(reply)),
                frame_of(reply_bytes(reply)) == FrameOutcome::Pending(reply_bytes(reply)),
                reply_bytes(reply).len() < 512,
            decreases 512 - reply_bytes(reply).len(),
        {
            let ghost events = self.trace().skip(start.len() as int);
            let ghost reads = read_bytes(events);
            let ghost acc = reply_bytes(reply);
            let room = read_room(&reply);
            let res = self.read_chunk(room);
            let ghost now = self.trace().skip(start.len() as int);
            proof {
                assert(now =~= events.push(now.last()));
                assert(now.drop_last() =~= events);
                lemma_room_push(events, now.last());
                lemma_read_bytes_push(events, now.last());
                assert forall|i: int| 0 <= i < now.len() - 1 implies #[trigger] now[i] is Read by {
                    assert(now[i] == events[i]);
                }
            }
            let chunk = match res {
                Ok(c) => c,
                Err(e) => {
                    proof {
                        reveal(read_phase);
                        reveal(reply_read);
                    }
                    return Err(GenericEspAtError::Transport(e));
                },
            };
            proof {
                lemma_concat_push(reads, chunk@);
                lemma_frame_chunks_push(Seq::empty(), reads, chunk@, acc);
                assert(seq![chunk@][0] == chunk@);
                assert(seq![chunk@].drop_first() =~= Seq::<Seq<u8>>::empty());
                assert(reads.push(chunk@).drop_last() =~= reads);
                assert(acc + Seq::<u8>::empty() =~= acc);
            }
            match frame_read(reply, chunk.as_slice()) {
                Framing::Pending(next) => {
                    assert(frame_chunks(reply_bytes(next), Seq::<Seq<u8>>::empty())
                        == FrameOutcome::Pending(reply_bytes(next)));
                    reply = next;
                },
                Framing::Done(done) => {
                    proof {
                        if chunk@.len() == 0 {
                            assert(frame_chunks(acc, Seq::<Seq<u8>>::empty())
                                == FrameOutcome::Pending(acc));
                            assert(frame_chunks(Seq::empty(), read_bytes(now)) is Pending);
                        } else {
                            assert(frame_chunks(Seq::empty(), read_bytes(now)) == step(acc, chunk@));
                            assert(stopped_at_end(read_bytes(now)));
                        }
                        reveal(read_phase);
                        reveal(reply_read);
                    }
                    return done;
                },
            }
        }
    }

    /// Writes `data` as it is.
    pub fn direct_write(&mut self, data: &[u8]) -> (r: Result<(), GenericEspAtError>)
        ensures
            r is Ok ==> final(self).trace() == old(self).trace().push(IoEvent::Wrote(data@)),
            r matches Err(GenericEspAtError::Transport(e)) ==> final(self).trace() == old(self).trace().push(
                IoEvent::WriteFailed(data@, e),
            ),
            r is Ok || r->Err_0 is Transport,
    {
        let r = match self.uart.write_all(data) {
            Ok(()) => {
                self.trace = Ghost(self.trace@.push(IoEvent::Wrote(data@)));
                Ok(())
            },
            Err(e) => {
                self.trace = Ghost(self.trace@.push(IoEvent::WriteFailed(data@, e)));
                Err(GenericEspAtError::Transport(e))
            },
        };
        r
    }

    /// Reads once, asking for up to a buffer's capacity, and returns the bytes that
    /// arrived, or an overflow holding as many as fit.
    pub fn direct_read(&mut self) -> (r: Result<ReplyData, GenericEspAtError>)
        ensures
            final(self).trace().len() == old(self).trace().len() + 1,
            final(self).trace().drop_last() == old(self).trace(),
            final(self).trace().last() matches IoEvent::ReadFailed(n, e) ==> n == REPLY_CAPACITY && r
                == Err::<ReplyData, GenericEspAtError>(GenericEspAtError::Transport(e)),
            final(self).trace().last() matches IoEvent::Read(n, b) ==> n == REPLY_CAPACITY && (b.len()
                <= 512 ==> r is Ok && reply_bytes(r->Ok_0) == b) && (b.len() > 512 ==> (r matches Err(
                GenericEspAtError::ATResponseTooLong(v),
            ) && reply_bytes(v) == b.subrange(0, 512))),
            final(self).trace().last() is Read || final(self).trace().last() is ReadFailed,
    {
        let chunk = match self.read_chunk(REPLY_CAPACITY) {
            Ok(c) => c,
            Err(e) => {
                return Err(GenericEspAtError::Transport(e));
            },
        };
        assert(self.trace().drop_last() =~= old(self).trace());
        reply_from_read(chunk.as_slice())
    }
}

} // verus!
