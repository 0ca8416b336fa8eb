use vstd::prelude::*;
use crate::connection::{Connection, PhaseModel};

verus! {

#[verifier::external_type_specification]
#[verifier::external_body]
#[verifier::reject_recursive_types(T)]
pub struct ExSlab<T>(slab::Slab<T>);

/// The connections that a slab holds, by key.
pub uninterp spec fn slab_entries(s: slab::Slab<Connection>) -> Map<usize, Connection>;

/// The key that a slab hands out on its next insertion.
pub uninterp spec fn slab_vacant_key(s: slab::Slab<Connection>) -> usize;

/// Relies on slab::Slab::with_capacity: an empty slab whose first key is 0.
#[verifier::external_body]
fn slab_with_capacity(capacity: usize) -> (r: slab::Slab<Connection>)
    ensures
        slab_entries(r).dom() == Set::<usize>::empty(),
        slab_vacant_key(r) == 0,
{
    slab::Slab::with_capacity(capacity)
}

/// Relies on slab::Slab::vacant_key: the key of the next insertion, which is
/// never occupied and never exceeds the length of the slab's entry vector,
/// so it is below `usize::MAX`.
#[verifier::external_body]
fn slab_next_key(s: &slab::Slab<Connection>) -> (r: usize)
    ensures
        r == slab_vacant_key(*s),
        !slab_entries(*s).dom().contains(r),
        r < usize::MAX,
{
    s.vacant_key()
}

/// Relies on slab::Slab::insert: the value goes under the vacant key, the
/// other entries stay.
#[verifier::external_body]
fn slab_insert(s: &mut slab::Slab<Connection>, c: Connection) -> (r: usize)
    ensures
        r == slab_vacant_key(*old(s)),
        slab_entries(*final(s)) == slab_entries(*old(s)).insert(r, c),
{
    s.insert(c)
}

/// Relies on slab::Slab::get: the entry under `key`, if there is one.
#[verifier::external_body]
fn slab_get(s: &slab::Slab<Connection>, key: usize) -> (r: Option<&Connection>)
    ensures
        r is Some <==> slab_entries(*s).dom().contains(key),
        r matches Some(c) ==> *c == slab_entries(*s)[key],
{
    s.get(key)
}

/// Relies on slab::Slab::try_remove: takes the entry under `key` out, if
/// there is one, and makes `key` the next key handed out.
#[verifier::external_body]
fn slab_try_remove(s: &mut slab::Slab<Connection>, key: usize) -> (r: Option<Connection>)
    ensures
        slab_entries(*final(s)) == slab_entries(*old(s)).remove(key),
        r is Some <==> slab_entries(*old(s)).dom().contains(key),
        r matches Some(c) ==> c == slab_entries(*old(s))[key] && slab_vacant_key(*final(s)) == key,
        r is None ==> slab_vacant_key(*final(s)) == slab_vacant_key(*old(s)),
{
    s.try_remove(key)
}

} // verus!

verus! {

/// The token of the listening socket; connections get tokens from 1 up.
pub const LISTENER: usize = 0;

/// The live connections, each under the token it was issued. A removed
/// connection's token is handed out again to a later connection.
pub struct ConnectionTable {
    slots: slab::Slab<Connection>,
}

impl View for ConnectionTable {
    type V = Map<usize, Connection>;

    /// Each slab key `k` stands for the token `k + 1`.
    closed spec fn view(&self) -> Map<usize, Connection> {
        Map::new(
            |t: usize| 1 <= t && slab_entries(self.slots).dom().contains((t - 1) as usize),
            |t: usize| slab_entries(self.slots)[(t - 1) as usize],
        )
    }
}

impl ConnectionTable {
    /// The token that the next insertion issues, when it is below `usize::MAX`.
    pub closed spec fn next_token(&self) -> int {
        slab_vacant_key(self.slots) + 1
    }

    /// Every stored connection carries its own token, is well formed and live.
    pub closed spec fn inv(&self) -> bool {
        forall|k: usize| #[trigger] slab_entries(self.slots).dom().contains(k) ==> {
            &&& k < usize::MAX
            &&& slab_entries(self.slots)[k].token == k + 1
            &&& slab_entries(self.slots)[k].wf()
            &&& !(slab_entries(self.slots)[k].model() is Closed)
        }
    }

    /// Seen by token: the listener's token is never in the table, and each
    /// connection in it carries the token it stands under, is well formed
    /// and is not closed.
    pub proof fn lemma_inv(&self)
        requires
            self.inv(),
        ensures
            !self@.dom().contains(LISTENER),
            forall|t: usize| #[trigger] self@.dom().contains(t) ==> {
                &&& self@[t].token == t
                &&& self@[t].wf()
                &&& !(self@[t].model() is Closed)
            },
    {
        assert forall|t: usize| #[trigger] self@.dom().contains(t) implies {
            &&& self@[t].token == t
            &&& self@[t].wf()
            &&& !(self@[t].model() is Closed)
        } by {
            let k = (t - 1) as usize;
            assert(slab_entries(self.slots).dom().contains(k));
        }
    }

    /// An empty table with room reserved for `capacity` connections; it grows
    /// beyond that as needed.
    pub fn with_capacity(capacity: usize) -> (r: ConnectionTable)
        ensures
            r@ == Map::<usize, Connection>::empty(),
            r.inv(),
            r.next_token() == 1,
    {
        let r = ConnectionTable { slots: slab_with_capacity(capacity) };
        assert(r@ =~= Map::<usize, Connection>::empty());
        r
    }

    /// Whether a live connection stands under `token`.
    pub fn contains(&self, token: usize) -> (r: bool)
        ensures
            r == self@.dom().contains(token),
    {
        if token == LISTENER {
            false
        } else {
            let found = slab_get(&self.slots, token - 1);
            found.is_some()
        }
    }

    /// The connection under `token`, if one is live there.
    pub fn get(&self, token: usize) -> (r: Option<&Connection>)
        ensures
            r is Some <==> self@.dom().contains(token),
            r matches Some(c) ==> *c == self@[token],
    {
        if token == LISTENER {
            None
        } else {
            slab_get(&self.slots, token - 1)
        }
    }

    /// A new connection awaiting its first request, under a token that no live
    /// connection holds; the table grows as needed.
    pub fn insert_new(&mut self) -> (t: usize)
        requires
            old(self).inv(),
        ensures
            final(self).inv(),
            t != LISTENER,
            t == old(self).next_token(),
            !old(self)@.dom().contains(t),
            final(self)@ == old(self)@.insert(t, final(self)@[t]),
            final(self)@[t].token == t,
            final(self)@[t].model() == (PhaseModel::AwaitingRequest { buffered: Seq::empty() }),
    {
        let key = slab_next_key(&self.slots);
        let token = key + 1;
        let c = Connection::new(token);
        let ghost before = self@;
        slab_insert(&mut self.slots, c);
        assert(self@ =~= before.insert(token, c));
        token
    }

    /// Takes the connection under `token` out of the table, if there is one.
    /// Until a later insertion reuses it, the token is then not found.
    pub fn take(&mut self, token: usize) -> (r: Option<Connection>)
        requires
            old(self).inv(),
        ensures
            final(self).inv(),
            final(self)@ == old(self)@.remove(token),
            r is Some <==> old(self)@.dom().contains(token),
            r matches Some(c) ==> c == old(self)@[token] && final(self).next_token() == token,
            r is None ==> final(self).next_token() == old(self).next_token(),
    {
        if token == LISTENER {
            assert(self@ =~= self@.remove(token));
            return None;
        }
        let ghost before = self@;
        let r = slab_try_remove(&mut self.slots, token - 1);
        assert(self@ =~= before.remove(token));
        r
    }

    /// Puts a live connection back under its token, right after `take`
    /// freed that token.
    pub fn put_back(&mut self, c: Connection)
        requires
            old(self).inv(),
            old(self).next_token() == c.token,
            c.wf(),
            !(c.model() is Closed),
        ensures
            final(self).inv(),
            final(self)@ == old(self)@.insert(c.token, c),
    {
        let ghost before = self@;
        let ghost t = c.token;
        slab_insert(&mut self.slots, c);
        assert(self@ =~= before.insert(t, c));
    }
}

/// Inserting a connection keeps every earlier connection under its token,
/// however many connections the table already holds.
pub proof fn lemma_insert_keeps_lookups(
    before: ConnectionTable,
    after: ConnectionTable,
    token: usize,
    c: Connection,
    earlier: usize,
)
    requires
        !before@.dom().contains(token),
        after@ == before@.insert(token, c),
        before@.dom().contains(earlier),
    ensures
        after@.dom().contains(earlier),
        after@[earlier] == before@[earlier],
        earlier != token,
{
}

/// A token whose connection was taken out is not found until an insertion
/// issues it again, and the other tokens keep their connections.
pub proof fn lemma_removed_token_not_found(
    before: ConnectionTable,
    after: ConnectionTable,
    token: usize,
    other: usize,
)
    requires
        after@ == before@.remove(token),
        other != token,
    ensures
        !after@.dom().contains(token),
        after@.dom().contains(other) == before@.dom().contains(other),
        after@.dom().contains(other) ==> after@[other] == before@[other],
{
}

} // verus!
