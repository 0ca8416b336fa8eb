use vstd::prelude::*;
use crate::interest::Interest;

verus! {

/// Where a connection stands, with the one buffer that this phase owns.
#[derive(Debug)]
pub enum Phase {
    /// Waiting for a request; inbound bytes accumulate in `read_buf`.
    AwaitingRequest { read_buf: Vec<u8> },
    /// Sending `payload`, of which the first `sent` bytes have gone out.
    Flushing { payload: Vec<u8>, sent: usize },
    /// Torn down: no buffer, no interest.
    Closed,
}

/// The abstract state of a connection.
pub ghost enum PhaseModel {
    AwaitingRequest { buffered: Seq<u8> },
    Flushing { payload: Seq<u8>, sent: nat },
    Closed,
}

/// What a non-blocking read on the connection's socket gave.
#[derive(Debug)]
pub enum ReadOutcome {
    /// Nothing to read yet.
    WouldBlock,
    /// These bytes were read; an empty read is the peer's orderly close.
    Data(Vec<u8>),
    /// The read failed.
    Failed,
}

/// What a non-blocking write of the pending bytes gave.
#[derive(Debug)]
pub enum WriteOutcome {
    /// Nothing could be written yet.
    WouldBlock,
    /// This many of the pending bytes were written.
    Written(usize),
    /// The write failed.
    Failed,
}

/// What the caller must do after an event was handled.
#[derive(Debug)]
pub enum Step {
    /// Arm the registration again with this interest.
    Rearm(Interest),
    /// Hand these bytes to the request handler, then report its answer.
    Request(Vec<u8>),
    /// Tear the connection down.
    Close,
}

/// The state machine of one client connection.
#[derive(Debug)]
pub struct Connection {
    pub token: usize,
    pub phase: Phase,
}

impl Phase {
    pub open spec fn model(&self) -> PhaseModel {
        match self {
            Phase::AwaitingRequest { read_buf } => PhaseModel::AwaitingRequest { buffered: read_buf@ },
            Phase::Flushing { payload, sent } => PhaseModel::Flushing { payload: payload@, sent: *sent as nat },
            Phase::Closed => PhaseModel::Closed,
        }
    }
}

/// The interest that belongs to each phase; hangup is in every live one.
pub open spec fn interest_of(p: PhaseModel) -> Interest {
    match p {
        PhaseModel::AwaitingRequest { .. } => Interest { readable: true, writable: false, hup: true },
        PhaseModel::Flushing { .. } => Interest { readable: false, writable: true, hup: true },
        PhaseModel::Closed => Interest { readable: false, writable: false, hup: false },
    }
}

/// The bytes of a response that are still to be sent.
pub open spec fn pending_of(p: PhaseModel) -> Seq<u8> {
    match p {
        PhaseModel::Flushing { payload, sent } => payload.subrange(sent as int, payload.len() as int),
        _ => Seq::empty(),
    }
}

/// The bytes of a response that have been sent so far.
pub open spec fn flushed_of(p: PhaseModel) -> Seq<u8> {
    match p {
        PhaseModel::Flushing { payload, sent } => payload.subrange(0, sent as int),
        _ => Seq::empty(),
    }
}

/// The phase after a readable event with this read outcome.
pub open spec fn after_read(p: PhaseModel, outcome: ReadOutcome) -> PhaseModel {
    match p {
        PhaseModel::AwaitingRequest { .. } => match outcome {
            ReadOutcome::WouldBlock => p,
            ReadOutcome::Data(b) => if b@.len() == 0 {
                PhaseModel::Closed
            } else {
                PhaseModel::AwaitingRequest { buffered: Seq::empty() }
            },
            ReadOutcome::Failed => PhaseModel::Closed,
        },
        _ => p,
    }
}

/// The request that a readable event hands out: the buffered bytes followed
/// by those just read, when any were read while a request was awaited.
pub open spec fn request_of(p: PhaseModel, outcome: ReadOutcome) -> Option<Seq<u8>> {
    match p {
        PhaseModel::AwaitingRequest { buffered } => match outcome {
            ReadOutcome::Data(b) => if b@.len() == 0 {
                None
            } else {
                Some(buffered + b@)
            },
            _ => None,
        },
        _ => None,
    }
}

/// The bytes that an optional buffer holds, if there is one.
pub open spec fn bytes_view(o: Option<Vec<u8>>) -> Option<Seq<u8>> {
    match o {
        Some(v) => Some(v@),
        None => None,
    }
}

/// The phase after the request handler answered: a payload starts a flush,
/// no payload leaves the connection awaiting the next request.
pub open spec fn after_response(p: PhaseModel, response: Option<Seq<u8>>) -> PhaseModel {
    match p {
        PhaseModel::AwaitingRequest { .. } => match response {
            Some(payload) => PhaseModel::Flushing { payload, sent: 0 },
            None => PhaseModel::AwaitingRequest { buffered: Seq::empty() },
        },
        _ => p,
    }
}

/// The phase after a writable event with this write outcome.
pub open spec fn after_write(p: PhaseModel, outcome: WriteOutcome) -> PhaseModel {
    match p {
        PhaseModel::Flushing { payload, sent } => match outcome {
            WriteOutcome::WouldBlock => p,
            WriteOutcome::Written(n) => if sent + n > payload.len() {
                PhaseModel::Closed
            } else if sent + n == payload.len() {
                PhaseModel::AwaitingRequest { buffered: Seq::empty() }
            } else {
                PhaseModel::Flushing { payload, sent: (sent + n) as nat }
            },
            WriteOutcome::Failed => PhaseModel::Closed,
        },
        _ => p,
    }
}

/// The step that goes with a phase reached without a request to hand out.
pub open spec fn step_for(p: PhaseModel, r: Step) -> bool {
    if p is Closed {
        r is Close
    } else {
        r == Step::Rearm(interest_of(p))
    }
}

/// The total of a sequence of write counts.
pub open spec fn total(writes: Seq<nat>) -> nat
    decreases writes.len(),
{
    if writes.len() == 0 {
        0
    } else {
        writes[0] + total(writes.drop_first())
    }
}

/// The bytes that successive writes of `writes` bytes each send, starting at
/// offset `start` of `payload`.
pub open spec fn written_chunks(payload: Seq<u8>, start: nat, writes: Seq<nat>) -> Seq<u8>
    decreases writes.len(),
{
    if writes.len() == 0 {
        Seq::empty()
    } else {
        payload.subrange(start as int, (start + writes[0]) as int)
            + written_chunks(payload, start + writes[0], writes.drop_first())
    }
}

/// A write of `n` bytes while flushing sends the first `n` pending bytes:
/// what was flushed before followed by them is what is flushed after, and
/// the flushed and the pending bytes together are the payload.
pub proof fn lemma_partial_write_extends_flushed(payload: Seq<u8>, sent: nat, n: nat)
    requires
        sent + n <= payload.len(),
    ensures
        flushed_of(PhaseModel::Flushing { payload, sent })
            + pending_of(PhaseModel::Flushing { payload, sent }).subrange(0, n as int)
            == flushed_of(PhaseModel::Flushing { payload, sent: sent + n }),
        flushed_of(PhaseModel::Flushing { payload, sent })
            + pending_of(PhaseModel::Flushing { payload, sent }) == payload,
{
    assert(payload.subrange(0, sent as int) + payload.subrange(sent as int, payload.len() as int).subrange(0, n as int)
        =~= payload.subrange(0, (sent + n) as int));
    assert(payload.subrange(0, sent as int) + payload.subrange(sent as int, payload.len() as int) =~= payload);
}

/// Partial writes neither lose nor repeat bytes: the chunks sent by
/// successive writes, from `start` on, are the payload's bytes from `start`
/// to `start` plus their total; when they add up to the whole payload, the
/// chunks are the payload.
pub proof fn lemma_partial_writes_concatenate(payload: Seq<u8>, start: nat, writes: Seq<nat>)
    requires
        start + total(writes) <= payload.len(),
    ensures
        written_chunks(payload, start, writes)
            == payload.subrange(start as int, (start + total(writes)) as int),
        start == 0 && total(writes) == payload.len() ==> written_chunks(payload, start, writes) == payload,
    decreases writes.len(),
{
    if writes.len() == 0 {
        assert(payload.subrange(start as int, start as int) =~= Seq::<u8>::empty());
    } else {
        let w = writes[0];
        lemma_partial_writes_concatenate(payload, start + w, writes.drop_first());
        assert(payload.subrange(start as int, (start + w) as int)
            + payload.subrange((start + w) as int, (start + total(writes)) as int)
            =~= payload.subrange(start as int, (start + total(writes)) as int));
    }
    if start == 0 && total(writes) == payload.len() {
        assert(payload.subrange(0, payload.len() as int) =~= payload);
    }
}

/// A message read whole by a connection that awaits a request is handed to
/// the request handler unchanged; when the handler answers with a payload,
/// the connection flushes that payload and nothing else, and writes that add
/// up to its length send exactly it.
pub proof fn lemma_reply_is_handler_payload(outcome: ReadOutcome, sent: Seq<u8>, payload: Seq<u8>, writes: Seq<nat>)
    requires
        outcome matches ReadOutcome::Data(b) && b@ == sent,
        sent.len() > 0,
        total(writes) == payload.len(),
    ensures
        request_of(PhaseModel::AwaitingRequest { buffered: Seq::empty() }, outcome) == Some(sent),
        after_response(after_read(PhaseModel::AwaitingRequest { buffered: Seq::empty() }, outcome), Some(payload))
            == (PhaseModel::Flushing { payload, sent: 0 }),
        pending_of(PhaseModel::Flushing { payload, sent: 0 }) == payload,
        written_chunks(payload, 0, writes) == payload,
{
    assert(Seq::<u8>::empty() + sent =~= sent);
    assert(payload.subrange(0, payload.len() as int) =~= payload);
    lemma_partial_writes_concatenate(payload, 0, writes);
}

/// A connection whose request gets no payload stays open, waits for the next
/// request on an empty buffer, and hands that next message to the handler
/// unchanged.
pub proof fn lemma_no_payload_keeps_connection(first: ReadOutcome, next: ReadOutcome, sent: Seq<u8>)
    requires
        first matches ReadOutcome::Data(b) && b@.len() > 0,
        next matches ReadOutcome::Data(b) && b@ == sent,
        sent.len() > 0,
    ensures
        after_response(after_read(PhaseModel::AwaitingRequest { buffered: Seq::empty() }, first), None)
            == (PhaseModel::AwaitingRequest { buffered: Seq::empty() }),
        request_of(PhaseModel::AwaitingRequest { buffered: Seq::empty() }, next) == Some(sent),
{
    assert(Seq::<u8>::empty() + sent =~= sent);
}

impl Connection {
    pub open spec fn model(&self) -> PhaseModel {
        self.phase.model()
    }

    /// A flushing connection never counts more sent bytes than its payload holds.
    pub open spec fn wf(&self) -> bool {
        match self.phase {
            Phase::Flushing { payload, sent } => sent <= payload.len(),
            _ => true,
        }
    }

    /// A new connection, waiting for a request with an empty read buffer.
    pub fn new(token: usize) -> (r: Connection)
        ensures
            r.token == token,
            r.model() == (PhaseModel::AwaitingRequest { buffered: Seq::empty() }),
            r.wf(),
    {
        Connection { token, phase: Phase::AwaitingRequest { read_buf: Vec::new() } }
    }

    pub fn is_closed(&self) -> (r: bool)
        ensures
            r == (self.model() is Closed),
    {
        match self.phase {
            Phase::Closed => true,
            _ => false,
        }
    }

    /// The readiness kinds this connection currently waits for.
    pub fn interest(&self) -> (r: Interest)
        ensures
            r == interest_of(self.model()),
    {
        match self.phase {
            Phase::AwaitingRequest { .. } => Interest::awaiting_request(),
            Phase::Flushing { .. } => Interest::flushing(),
            Phase::Closed => Interest::none(),
        }
    }

    /// A copy of the response bytes that are still to be sent.
    pub fn pending(&self) -> (r: Vec<u8>)
        requires
            self.wf(),
        ensures
            r@ == pending_of(self.model()),
    {
        let mut out: Vec<u8> = Vec::new();
        match &self.phase {
            Phase::Flushing { payload, sent } => {
                let mut i: usize = *sent;
                while i < payload.len()
                    invariant
                        *sent <= i <= payload.len(),
                        out@ == payload@.subrange(*sent as int, i as int),
                    decreases payload.len() - i,
                {
                    out.push(payload[i]);
                    i = i + 1;
                    assert(out@ =~= payload@.subrange(*sent as int, i as int));
                }
            },
            _ => {},
        }
        out
    }
    /// Takes the phase out, leaving the connection closed.
    fn take_phase(&mut self) -> (r: Phase)
        ensures
            r == old(self).phase,
            final(self).token == old(self).token,
            final(self).phase == Phase::Closed,
    {
        let mut p = Phase::Closed;
        std::mem::swap(&mut self.phase, &mut p);
        p
    }

    /// Handles a readable event, given what the read gave.
    ///
    /// While a request is awaited: on would-block nothing changes; bytes are
    /// appended to the read buffer and the whole buffer is handed out as a
    /// request, leaving the buffer empty; an empty read or a failure closes
    /// the connection. In another phase the event is stale and changes nothing.
    pub fn on_readable(&mut self, outcome: ReadOutcome) -> (r: Step)
        requires
            old(self).wf(),
        ensures
            final(self).wf(),
            final(self).token == old(self).token,
            final(self).model() == after_read(old(self).model(), outcome),
            match request_of(old(self).model(), outcome) {
                Some(q) => r matches Step::Request(v) && v@ == q,
                None => step_for(final(self).model(), r),
            },
    {
        let phase = self.take_phase();
        match phase {
            Phase::AwaitingRequest { mut read_buf } => match outcome {
                ReadOutcome::WouldBlock => {
                    self.phase = Phase::AwaitingRequest { read_buf };
                    Step::Rearm(Interest::awaiting_request())
                },
                ReadOutcome::Data(mut b) => {
                    if b.len() == 0 {
                        Step::Close
                    } else {
                        read_buf.append(&mut b);
                        self.phase = Phase::AwaitingRequest { read_buf: Vec::new() };
                        Step::Request(read_buf)
                    }
                },
                ReadOutcome::Failed => Step::Close,
            },
            Phase::Flushing { payload, sent } => {
                self.phase = Phase::Flushing { payload, sent };
                Step::Rearm(Interest::flushing())
            },
            Phase::Closed => Step::Close,
        }
    }

    /// Takes the request handler's answer to the last request.
    ///
    /// With a payload the connection starts flushing it from its first byte;
    /// without one it keeps waiting for the next request, on an empty read
    /// buffer. Outside the awaiting phase nothing changes.
    pub fn on_response(&mut self, response: Option<Vec<u8>>) -> (r: Step)
        requires
            old(self).wf(),
        ensures
            final(self).wf(),
            final(self).token == old(self).token,
            final(self).model() == after_response(old(self).model(), bytes_view(response)),
            step_for(final(self).model(), r),
    {
        let phase = self.take_phase();
        match phase {
            Phase::AwaitingRequest { .. } => match response {
                Some(payload) => {
                    self.phase = Phase::Flushing { payload, sent: 0 };
                    Step::Rearm(Interest::flushing())
                },
                None => {
                    self.phase = Phase::AwaitingRequest { read_buf: Vec::new() };
                    Step::Rearm(Interest::awaiting_request())
                },
            },
            Phase::Flushing { payload, sent } => {
                self.phase = Phase::Flushing { payload, sent };
                Step::Rearm(Interest::flushing())
            },
            Phase::Closed => Step::Close,
        }
    }

    /// Handles a writable event, given what the write of the pending bytes gave.
    ///
    /// While flushing: on would-block nothing changes; `n` written bytes move
    /// the cursor by `n`, and once the payload is all sent the connection
    /// waits for the next request on an empty read buffer; a failure, or a
    /// count larger than what was pending, closes the connection. In another
    /// phase the event is stale and changes nothing.
    pub fn on_writable(&mut self, outcome: WriteOutcome) -> (r: Step)
        requires
            old(self).wf(),
        ensures
            final(self).wf(),
            final(self).token == old(self).token,
            final(self).model() == after_write(old(self).model(), outcome),
            step_for(final(self).model(), r),
    {
        let phase = self.take_phase();
        match phase {
            Phase::Flushing { payload, sent } => match outcome {
                WriteOutcome::WouldBlock => {
                    self.phase = Phase::Flushing { payload, sent };
                    Step::Rearm(Interest::flushing())
                },
                WriteOutcome::Written(n) => {
                    let left = payload.len() - sent;
                    if n > left {
                        Step::Close
                    } else if n == left {
                        self.phase = Phase::AwaitingRequest { read_buf: Vec::new() };
                        Step::Rearm(Interest::awaiting_request())
                    } else {
                        self.phase = Phase::Flushing { payload, sent: sent + n };
                        Step::Rearm(Interest::flushing())
                    }
                },
                WriteOutcome::Failed => Step::Close,
            },
            Phase::AwaitingRequest { read_buf } => {
                self.phase = Phase::AwaitingRequest { read_buf };
                Step::Rearm(Interest::awaiting_request())
            },
            Phase::Closed => Step::Close,
        }
    }

    /// Handles a hangup: the connection closes whatever its phase.
    pub fn on_hangup(&mut self) -> (r: Step)
        ensures
            final(self).token == old(self).token,
            final(self).model() is Closed,
            final(self).wf(),
            step_for(final(self).model(), r),
    {
        self.phase = Phase::Closed;
        Step::Close
    }
}

} // verus!
