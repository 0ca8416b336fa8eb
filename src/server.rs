use vstd::prelude::*;
use crate::connection::{
    after_read, after_response, after_write, bytes_view, interest_of, lemma_reply_is_handler_payload,
    pending_of, request_of, total, written_chunks, Connection, PhaseModel, ReadOutcome, Step,
    WriteOutcome,
};
use crate::interest::Interest;
use crate::slots::{ConnectionTable, LISTENER};

verus! {

/// The text that a byte sequence decodes to as UTF-8, if it is well formed.
pub uninterp spec fn utf8_decoded(b: Seq<u8>) -> Option<Seq<char>>;

/// Relies on String::from_utf8: text comes back exactly when the bytes are
/// well-formed UTF-8.
#[verifier::external_body]
fn utf8_text(b: Vec<u8>) -> (r: Option<String>)
    ensures
        r matches Some(s) ==> utf8_decoded(b@) == Some(s@),
        r is None ==> utf8_decoded(b@) is None,
{
    String::from_utf8(b).ok()
}

/// What the event loop must do after a readable event.
#[derive(Debug)]
pub enum Dispatch {
    /// The token names no live connection: nothing to do.
    Ignore,
    /// Arm the connection's registration again with this interest.
    Rearm(Interest),
    /// Deregister the connection and close its socket; its token is free.
    Close,
    /// Hand this request text to the request handler and report its answer
    /// through `complete_request`.
    Handle(String),
}

/// What the event loop must do for a connection after an event.
#[derive(Clone, Copy, Debug, PartialEq, Eq, Structural)]
pub enum Action {
    /// The token names no live connection: nothing to do.
    Ignore,
    /// Arm the connection's registration again with this interest.
    Rearm(Interest),
    /// Deregister the connection and close its socket; its token is free.
    Close,
}

/// Which handling a readiness event calls for.
#[derive(Clone, Copy, Debug, PartialEq, Eq, Structural)]
pub enum Route {
    /// A client is waiting on the listener: accept it.
    Accept,
    /// Read from the connection.
    Read,
    /// Write the connection's pending bytes.
    Write,
    /// The peer hung up.
    Hangup,
    /// Nothing that the server acts on.
    Nothing,
}

/// The table after the connection under `token` reached phase `m`: gone if
/// `m` is the closed phase, else in place with that phase, the others untouched.
pub open spec fn moved_to(
    before: Map<usize, Connection>,
    token: usize,
    m: PhaseModel,
    after: Map<usize, Connection>,
) -> bool {
    if m is Closed {
        after == before.remove(token)
    } else {
        &&& after.dom().contains(token)
        &&& after == before.insert(token, after[token])
        &&& after[token].token == token
        &&& after[token].model() == m
    }
}

/// The action that goes with a connection reaching phase `m`.
pub open spec fn action_for(m: PhaseModel) -> Action {
    if m is Closed {
        Action::Close
    } else {
        Action::Rearm(interest_of(m))
    }
}

/// The dispatch that goes with a connection reaching phase `m`.
pub open spec fn dispatch_for(m: PhaseModel) -> Dispatch {
    if m is Closed {
        Dispatch::Close
    } else {
        Dispatch::Rearm(interest_of(m))
    }
}

/// The routing of a readiness event: the listener only accepts; a connection
/// closes on hangup whatever else is reported, else reads when readable,
/// else writes when writable.
pub open spec fn route_of(token: usize, ready: Interest) -> Route {
    if token == LISTENER {
        if ready.readable { Route::Accept } else { Route::Nothing }
    } else if ready.hup {
        Route::Hangup
    } else if ready.readable {
        Route::Read
    } else if ready.writable {
        Route::Write
    } else {
        Route::Nothing
    }
}

/// The dispatcher: the live connections, by token.
pub struct RpcServer {
    connections: ConnectionTable,
}

impl RpcServer {
    /// The live connections, by token.
    pub closed spec fn table(&self) -> Map<usize, Connection> {
        self.connections@
    }

    pub closed spec fn inv(&self) -> bool {
        self.connections.inv()
    }

    /// The token that the next accepted connection gets.
    pub closed spec fn next_token(&self) -> int {
        self.connections.next_token()
    }

    /// A server with no connections yet.
    pub fn new() -> (r: RpcServer)
        ensures
            r.table() == Map::<usize, Connection>::empty(),
            r.inv(),
            r.next_token() == 1,
    {
        RpcServer { connections: ConnectionTable::with_capacity(8) }
    }

    /// Which handling a readiness event for `token` calls for.
    pub fn route(token: usize, ready: Interest) -> (r: Route)
        ensures
            r == route_of(token, ready),
    {
        if token == LISTENER {
            if ready.readable { Route::Accept } else { Route::Nothing }
        } else if ready.hup {
            Route::Hangup
        } else if ready.readable {
            Route::Read
        } else if ready.writable {
            Route::Write
        } else {
            Route::Nothing
        }
    }

    /// Takes in a newly accepted client: a connection awaiting its first
    /// request, under a fresh token, which the caller registers for reading.
    pub fn accept(&mut self) -> (t: usize)
        requires
            old(self).inv(),
        ensures
            final(self).inv(),
            t != LISTENER,
            t == old(self).next_token(),
            !old(self).table().dom().contains(t),
            moved_to(old(self).table(), t, PhaseModel::AwaitingRequest { buffered: Seq::empty() }, final(self).table()),
    {
        self.connections.insert_new()
    }

    /// A connection taken out and settled in phase `m` has moved to `m` in
    /// the table it was taken from.
    proof fn lemma_settled(&self, before: Map<usize, Connection>, token: usize, c: Connection, m: PhaseModel)
        requires
            before.dom().contains(token),
            moved_to(before.remove(token).insert(token, c), token, m, self.table()),
        ensures
            moved_to(before, token, m, self.table()),
    {
        let x = before.remove(token).insert(token, c);
        if m is Closed {
            assert(x.remove(token) =~= before.remove(token));
        } else {
            assert(x.insert(token, self.table()[token]) =~= before.insert(token, self.table()[token]));
        }
    }

    /// Puts a connection back after a step, or lets it go when it closed.
    fn settle(&mut self, c: Connection, step: Step) -> (r: Action)
        requires
            old(self).inv(),
            old(self).next_token() == c.token,
            !old(self).table().dom().contains(c.token),
            c.wf(),
            c.model() is Closed ==> step is Close,
            !(c.model() is Closed) ==> step == Step::Rearm(interest_of(c.model())),
        ensures
            final(self).inv(),
            moved_to(old(self).table().insert(c.token, c), c.token, c.model(), final(self).table()),
            r == action_for(c.model()),
    {
        proof {
            assert(old(self).table().insert(c.token, c).remove(c.token) =~= old(self).table());
        }
        match step {
            Step::Rearm(i) => {
                let ghost t = c.token;
                self.connections.put_back(c);
                assert(self.table() =~= old(self).table().insert(t, c).insert(t, self.table()[t]));
                Action::Rearm(i)
            },
            _ => Action::Close,
        }
    }

    /// Hands the handler's answer to the request that the connection under
    /// `token` sent last: with a payload it starts flushing it, without one it
    /// waits for the next request.
    pub fn complete_request(&mut self, token: usize, response: Option<Vec<u8>>) -> (r: Action)
        requires
            old(self).inv(),
        ensures
            final(self).inv(),
            !old(self).table().dom().contains(token) ==> r == Action::Ignore && final(self).table() == old(self).table(),
            old(self).table().dom().contains(token) ==> {
                let m = after_response(old(self).table()[token].model(), bytes_view(response));
                &&& moved_to(old(self).table(), token, m, final(self).table())
                &&& r == action_for(m)
            },
    {
        proof { self.connections.lemma_inv(); }
        match self.connections.take(token) {
            None => Action::Ignore,
            Some(mut c) => {
                let step = c.on_response(response);
                let ghost before = old(self).table();
                proof { assert(before.remove(token).insert(token, c) =~= before.insert(token, c)); }
                let ghost m = c.model();
                let r = self.settle(c, step);
                proof { self.lemma_settled(before, token, c, m); }
                r
            },
        }
    }
    fn to_dispatch(a: Action) -> (r: Dispatch)
        ensures
            a is Close ==> r is Close,
            a matches Action::Rearm(i) ==> r == Dispatch::Rearm(i),
            a is Ignore ==> r is Ignore,
    {
        match a {
            Action::Ignore => Dispatch::Ignore,
            Action::Rearm(i) => Dispatch::Rearm(i),
            Action::Close => Dispatch::Close,
        }
    }

    /// Handles a readable event for `token`, given what the read gave.
    ///
    /// A request that is not UTF-8 text is a decode failure: it gets no
    /// answer and the connection closes. A request that is text is handed
    /// out, the connection keeps waiting, and `complete_request` takes the
    /// answer.
    pub fn readable(&mut self, token: usize, outcome: ReadOutcome) -> (r: Dispatch)
        requires
            old(self).inv(),
        ensures
            final(self).inv(),
            !old(self).table().dom().contains(token) ==> r is Ignore && final(self).table() == old(self).table(),
            old(self).table().dom().contains(token) ==> {
                let p = old(self).table()[token].model();
                let m = after_read(p, outcome);
                match request_of(p, outcome) {
                    None => moved_to(old(self).table(), token, m, final(self).table()) && r == dispatch_for(m),
                    Some(q) => match utf8_decoded(q) {
                        Some(text) => moved_to(old(self).table(), token, m, final(self).table())
                            && (r matches Dispatch::Handle(s) && s@ == text),
                        None => final(self).table() == old(self).table().remove(token) && r is Close,
                    },
                }
            },
    {
        proof { self.connections.lemma_inv(); }
        let ghost before = self.table();
        let ghost p = before[token].model();
        match self.connections.take(token) {
            None => Dispatch::Ignore,
            Some(mut c) => {
                proof { assert(before.remove(token).insert(token, c) =~= before.insert(token, c)); }
                let step = c.on_readable(outcome);
                match step {
                    Step::Request(q) => {
                        match utf8_text(q) {
                            Some(text) => {
                                let ghost m = c.model();
                                let _ = self.settle(c, Step::Rearm(Interest::awaiting_request()));
                                proof { self.lemma_settled(before, token, c, m); }
                                Dispatch::Handle(text)
                            },
                            None => Dispatch::Close,
                        }
                    },
                    _ => {
                        let ghost m = c.model();
                        let a = self.settle(c, step);
                        proof { self.lemma_settled(before, token, c, m); }
                        Self::to_dispatch(a)
                    },
                }
            },
        }
    }

    /// Handles a writable event for `token`, given what the write of its
    /// pending bytes gave.
    pub fn writable(&mut self, token: usize, outcome: WriteOutcome) -> (r: Action)
        requires
            old(self).inv(),
        ensures
            final(self).inv(),
            !old(self).table().dom().contains(token) ==> r == Action::Ignore && final(self).table() == old(self).table(),
            old(self).table().dom().contains(token) ==> {
                let m = after_write(old(self).table()[token].model(), outcome);
                &&& moved_to(old(self).table(), token, m, final(self).table())
                &&& r == action_for(m)
            },
    {
        proof { self.connections.lemma_inv(); }
        let ghost before = self.table();
        match self.connections.take(token) {
            None => Action::Ignore,
            Some(mut c) => {
                proof { assert(before.remove(token).insert(token, c) =~= before.insert(token, c)); }
                let step = c.on_writable(outcome);
                let ghost m = c.model();
                let r = self.settle(c, step);
                proof { self.lemma_settled(before, token, c, m); }
                r
            },
        }
    }

    /// Handles a hangup for `token`: the connection is removed and closed.
    pub fn hangup(&mut self, token: usize) -> (r: Action)
        requires
            old(self).inv(),
        ensures
            final(self).inv(),
            final(self).table() == old(self).table().remove(token),
            old(self).table().dom().contains(token) ==> r == Action::Close && final(self).next_token() == token,
            !old(self).table().dom().contains(token) ==> r == Action::Ignore,
    {
        match self.connections.take(token) {
            None => Action::Ignore,
            Some(_) => Action::Close,
        }
    }

    /// The response bytes that the connection under `token` still has to
    /// send; none when it is not flushing or not live.
    pub fn pending(&self, token: usize) -> (r: Vec<u8>)
        requires
            self.inv(),
        ensures
            self.table().dom().contains(token) ==> r@ == pending_of(self.table()[token].model()),
            !self.table().dom().contains(token) ==> r@.len() == 0,
    {
        proof { self.connections.lemma_inv(); }
        match self.connections.get(token) {
            None => Vec::new(),
            Some(c) => c.pending(),
        }
    }

    /// Whether a live connection stands under `token`.
    pub fn is_live(&self, token: usize) -> (r: bool)
        ensures
            r == self.table().dom().contains(token),
    {
        self.connections.contains(token)
    }
}

/// A message read whole on a connection that awaits a request reaches the
/// handler as the very bytes sent; once the handler's payload is handed back,
/// the connection has exactly that payload to send, and writes that add up to
/// its length send it whole, once.
pub proof fn lemma_request_round_trip(
    s0: RpcServer,
    s1: RpcServer,
    s2: RpcServer,
    token: usize,
    outcome: ReadOutcome,
    sent: Seq<u8>,
    payload: Seq<u8>,
    writes: Seq<nat>,
)
    requires
        s0.table().dom().contains(token),
        s0.table()[token].model() == (PhaseModel::AwaitingRequest { buffered: Seq::empty() }),
        outcome matches ReadOutcome::Data(b) && b@ == sent,
        sent.len() > 0,
        moved_to(s0.table(), token, after_read(s0.table()[token].model(), outcome), s1.table()),
        moved_to(s1.table(), token, after_response(s1.table()[token].model(), Some(payload)), s2.table()),
        total(writes) == payload.len(),
    ensures
        request_of(s0.table()[token].model(), outcome) == Some(sent),
        s2.table().dom().contains(token),
        s2.table()[token].model() == (PhaseModel::Flushing { payload, sent: 0 }),
        pending_of(s2.table()[token].model()) == payload,
        written_chunks(payload, 0, writes) == payload,
{
    lemma_reply_is_handler_payload(outcome, sent, payload, writes);
}

/// Events on one connection never reach another: whatever phase the
/// connection under `token` moves to, every other connection stays as it was.
pub proof fn lemma_connections_isolated(before: RpcServer, after: RpcServer, token: usize, m: PhaseModel, other: usize)
    requires
        moved_to(before.table(), token, m, after.table()),
        other != token,
    ensures
        after.table().dom().contains(other) == before.table().dom().contains(other),
        after.table().dom().contains(other) ==> after.table()[other] == before.table()[other],
{
}

/// Over any run of events on other connections, interleaved in any order
/// and including closes, a connection keeps its state: what it has to send
/// is its own and nothing else.
pub proof fn lemma_isolated_over_steps(
    states: Seq<RpcServer>,
    tokens: Seq<usize>,
    phases: Seq<PhaseModel>,
    other: usize,
)
    requires
        states.len() == tokens.len() + 1,
        phases.len() == tokens.len(),
        forall|i: int| 0 <= i < tokens.len() ==> moved_to(#[trigger] states[i].table(), tokens[i], phases[i], states[i + 1].table()),
        forall|i: int| 0 <= i < tokens.len() ==> #[trigger] tokens[i] != other,
    ensures
        states.last().table().dom().contains(other) == states[0].table().dom().contains(other),
        states.last().table().dom().contains(other) ==> states.last().table()[other] == states[0].table()[other],
    decreases tokens.len(),
{
    if tokens.len() > 0 {
        let n = tokens.len() - 1;
        lemma_isolated_over_steps(states.subrange(0, n + 1), tokens.subrange(0, n), phases.subrange(0, n), other);
        assert(states.subrange(0, n + 1).last() == states[n]);
        assert(moved_to(states[n].table(), tokens[n], phases[n], states[n + 1].table()));
        lemma_connections_isolated(states[n], states[n + 1], tokens[n], phases[n], other);
    }
}

proof fn lemma_accepts_prefix(states: Seq<RpcServer>, tokens: Seq<usize>, n: int)
    requires
        states.len() == tokens.len() + 1,
        0 <= n <= tokens.len(),
        forall|i: int| 0 <= i < tokens.len() ==> !(#[trigger] states[i].table()).dom().contains(tokens[i]),
        forall|i: int| 0 <= i < tokens.len() ==> moved_to(#[trigger] states[i].table(), tokens[i],
            PhaseModel::AwaitingRequest { buffered: Seq::empty() }, states[i + 1].table()),
    ensures
        forall|i: int| 0 <= i < n ==> states[n].table().dom().contains(#[trigger] tokens[i])
            && states[n].table()[tokens[i]].token == tokens[i],
        forall|i: int, j: int| 0 <= i < j < n ==> #[trigger] tokens[i] != #[trigger] tokens[j],
    decreases n,
{
    if n > 0 {
        let k = n - 1;
        lemma_accepts_prefix(states, tokens, k);
        assert(moved_to(states[k].table(), tokens[k], PhaseModel::AwaitingRequest { buffered: Seq::empty() }, states[k + 1].table()));
        assert(!states[k].table().dom().contains(tokens[k]));
        assert forall|i: int| 0 <= i < n implies states[n].table().dom().contains(#[trigger] tokens[i])
            && states[n].table()[tokens[i]].token == tokens[i] by {
            if i < k {
                assert(states[k].table().dom().contains(tokens[i]));
            }
        }
        assert forall|i: int, j: int| 0 <= i < j < n implies #[trigger] tokens[i] != #[trigger] tokens[j] by {
            if j == k {
                assert(states[k].table().dom().contains(tokens[i]));
            }
        }
    }
}

/// However many connections are accepted one after another, past any
/// reserved capacity, their tokens are pairwise distinct and each is still
/// found, carrying its own token.
pub proof fn lemma_accepts_keep_all(states: Seq<RpcServer>, tokens: Seq<usize>)
    requires
        states.len() == tokens.len() + 1,
        forall|i: int| 0 <= i < tokens.len() ==> !(#[trigger] states[i].table()).dom().contains(tokens[i]),
        forall|i: int| 0 <= i < tokens.len() ==> moved_to(#[trigger] states[i].table(), tokens[i],
            PhaseModel::AwaitingRequest { buffered: Seq::empty() }, states[i + 1].table()),
    ensures
        forall|i: int| 0 <= i < tokens.len() ==> states.last().table().dom().contains(#[trigger] tokens[i])
            && states.last().table()[tokens[i]].token == tokens[i],
        forall|i: int, j: int| 0 <= i < j < tokens.len() ==> #[trigger] tokens[i] != #[trigger] tokens[j],
{
    lemma_accepts_prefix(states, tokens, tokens.len() as int);
}

} // verus!
