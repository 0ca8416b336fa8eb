use vstd::prelude::*;

verus! {

/// A set of readiness kinds: a subset of {readable, writable, hangup}.
#[derive(Clone, Copy, Debug, PartialEq, Eq, Structural)]
pub struct Interest {
    pub readable: bool,
    pub writable: bool,
    pub hup: bool,
}

impl Interest {
    pub open spec fn none_spec() -> Interest {
        Interest { readable: false, writable: false, hup: false }
    }

    /// The empty set.
    pub fn none() -> (r: Interest)
        ensures
            r == Interest::none_spec(),
    {
        Interest { readable: false, writable: false, hup: false }
    }

    /// What a connection waits for while it expects a request.
    pub fn awaiting_request() -> (r: Interest)
        ensures
            r.readable && !r.writable && r.hup,
    {
        Interest { readable: true, writable: false, hup: true }
    }

    /// What a connection waits for while it flushes a response.
    pub fn flushing() -> (r: Interest)
        ensures
            !r.readable && r.writable && r.hup,
    {
        Interest { readable: false, writable: true, hup: true }
    }

    pub open spec fn is_empty_spec(self) -> bool {
        !self.readable && !self.writable && !self.hup
    }

    pub fn is_empty(&self) -> (r: bool)
        ensures
            r == self.is_empty_spec(),
    {
        !self.readable && !self.writable && !self.hup
    }

    pub open spec fn intersect_spec(self, o: Interest) -> Interest {
        Interest {
            readable: self.readable && o.readable,
            writable: self.writable && o.writable,
            hup: self.hup && o.hup,
        }
    }

    /// The kinds that are in both sets.
    pub fn intersect(&self, o: &Interest) -> (r: Interest)
        ensures
            r == self.intersect_spec(*o),
    {
        Interest {
            readable: self.readable && o.readable,
            writable: self.writable && o.writable,
            hup: self.hup && o.hup,
        }
    }
}

/// One registration with an edge-triggered, one-shot readiness source.
///
/// A readiness kind is reported only while it is armed, and reporting it
/// disarms the whole registration until it is armed again.
#[derive(Clone, Copy, Debug)]
pub struct OneShotRegistration {
    pub token: usize,
    pub armed: Interest,
}

impl OneShotRegistration {
    /// The registration after `ready` has been offered to it: disarmed when
    /// anything armed was ready, unchanged otherwise.
    pub open spec fn after_deliver(self, ready: Interest) -> OneShotRegistration {
        if self.armed.intersect_spec(ready).is_empty_spec() {
            self
        } else {
            OneShotRegistration { token: self.token, armed: Interest::none_spec() }
        }
    }

    /// Registers `token` with the kinds in `interest` armed.
    pub fn register(token: usize, interest: Interest) -> (r: OneShotRegistration)
        ensures
            r.token == token,
            r.armed == interest,
    {
        OneShotRegistration { token, armed: interest }
    }

    /// Replaces the armed set with `interest`.
    pub fn rearm(&mut self, interest: Interest)
        ensures
            final(self).token == old(self).token,
            final(self).armed == interest,
    {
        self.armed = interest;
    }

    /// Offers the kinds in `ready` to the registration and returns those it
    /// reports. When anything is reported the registration is disarmed.
    pub fn deliver(&mut self, ready: Interest) -> (r: Interest)
        ensures
            r == old(self).armed.intersect_spec(ready),
            *final(self) == old(self).after_deliver(ready),
    {
        let r = self.armed.intersect(&ready);
        if !r.is_empty() {
            self.armed = Interest::none();
        }
        r
    }
}

/// After a registration reports anything, offering it any readiness again,
/// without arming it in between, reports nothing.
pub proof fn lemma_no_delivery_without_rearm(reg: OneShotRegistration, first: Interest, later: Interest)
    requires
        !reg.armed.intersect_spec(first).is_empty_spec(),
    ensures
        reg.after_deliver(first).armed.intersect_spec(later).is_empty_spec(),
{
}

} // verus!
