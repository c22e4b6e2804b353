use vstd::prelude::*;

use crate::event::{Event, NewMessage, NewUser};
use crate::ids::ClientId;

verus! {

/// A registered client: its identifier and its outbound handle.
pub struct Client<H> {
    pub id: ClientId,
    pub handle: H,
}

/// The registry that a sequence of clients describes; a later entry for an
/// identifier replaces an earlier one.
pub open spec fn map_of<H>(s: Seq<Client<H>>) -> Map<ClientId, H>
    decreases s.len(),
{
    if s.len() == 0 {
        Map::empty()
    } else {
        map_of(s.drop_last()).insert(s.last().id, s.last().handle)
    }
}

/// No identifier occurs twice.
pub open spec fn distinct_ids<H>(s: Seq<Client<H>>) -> bool {
    forall|i: int, j: int| 0 <= i < j < s.len() ==> s[i].id != s[j].id
}

/// The clients whose write succeeded, in order.
pub open spec fn delivered<H>(s: Seq<(Client<H>, bool)>) -> Seq<Client<H>>
    decreases s.len(),
{
    if s.len() == 0 {
        Seq::empty()
    } else if s.last().1 {
        delivered(s.drop_last()).push(s.last().0)
    } else {
        delivered(s.drop_last())
    }
}

/// What the hub did with one event.
pub enum Step<H> {
    /// The client was registered under this identifier.
    Registered(ClientId),
    /// `text` is to be written to each of `recipients`; their handles come
    /// back to the hub through `finish_broadcast`.
    Broadcast { text: String, recipients: Vec<Client<H>> },
    /// A broadcast is still in flight: the event is handed back untouched.
    Deferred(Event<H>),
}

/// The single owner of every registered client's outbound handle.
pub struct Hub<H> {
    clients: Vec<Client<H>>,
    in_flight: bool,
}

proof fn lemma_dom<H>(s: Seq<Client<H>>)
    ensures
        forall|k: ClientId|
            map_of(s).contains_key(k) <==> exists|i: int| 0 <= i < s.len() && s[i].id == k,
    decreases s.len(),
{
    if s.len() > 0 {
        lemma_dom(s.drop_last());
        let d = s.drop_last();
        assert forall|k: ClientId|
            map_of(s).contains_key(k) <==> exists|i: int| 0 <= i < s.len() && s[i].id == k by {
            assert(map_of(d).contains_key(k) <==> exists|i: int| 0 <= i < d.len() && d[i].id == k);
            if map_of(d).contains_key(k) {
                let i = choose|i: int| 0 <= i < d.len() && d[i].id == k;
                assert(s[i].id == k);
            }
            if k == s.last().id {
                assert(s[s.len() - 1].id == k);
            }
            if exists|i: int| 0 <= i < s.len() && s[i].id == k {
                let i = choose|i: int| 0 <= i < s.len() && s[i].id == k;
                if i < s.len() - 1 {
                    assert(d[i].id == k);
                }
            }
        }
    }
}

proof fn lemma_update<H>(s: Seq<Client<H>>, i: int, c: Client<H>)
    requires
        distinct_ids(s),
        0 <= i < s.len(),
        s[i].id == c.id,
    ensures
        map_of(s.update(i, c)) == map_of(s).insert(c.id, c.handle),
        distinct_ids(s.update(i, c)),
    decreases s.len(),
{
    let t = s.update(i, c);
    if i == s.len() - 1 {
        assert(t.drop_last() =~= s.drop_last());
    } else {
        assert(t.drop_last() =~= s.drop_last().update(i, c));
        lemma_update(s.drop_last(), i, c);
    }
    assert(map_of(t) =~= map_of(s).insert(c.id, c.handle));
}

proof fn lemma_index<H>(s: Seq<Client<H>>, i: int)
    requires
        distinct_ids(s),
        0 <= i < s.len(),
    ensures
        map_of(s).contains_key(s[i].id),
        map_of(s)[s[i].id] == s[i].handle,
    decreases s.len(),
{
    if i < s.len() - 1 {
        assert(s.drop_last()[i] == s[i]);
        lemma_index(s.drop_last(), i);
    }
}

impl<H> Hub<H> {
    /// Each registered identifier and its outbound handle.
    pub closed spec fn registry(self) -> Map<ClientId, H> {
        map_of(self.clients@)
    }

    /// A broadcast has been handed out and its handles are not back yet.
    pub closed spec fn awaiting(self) -> bool {
        self.in_flight
    }

    pub closed spec fn wf(self) -> bool {
        distinct_ids(self.clients@)
    }

    pub fn new() -> (r: Self)
        ensures
            r.wf(),
            r.registry() == Map::<ClientId, H>::empty(),
            !r.awaiting(),
    {
        let r = Hub { clients: Vec::new(), in_flight: false };
        assert(r.registry() =~= Map::<ClientId, H>::empty());
        r
    }

    /// The number of registered clients.
    pub fn len(&self) -> (n: usize)
        requires
            self.wf(),
        ensures
            n == self.registry().len(),
    {
        proof {
            lemma_len_of(self.clients@);
        }
        self.clients.len()
    }

    /// `handle_event` takes hub `h` with `event` to hub `g`, returning `r`.
    pub open spec fn handled(h: Hub<H>, event: Event<H>, g: Hub<H>, r: Step<H>) -> bool {
        if h.awaiting() {
            r == Step::Deferred(event) && g == h
        } else {
            match event {
                Event::NewUser(u) => {
                    &&& r == Step::<H>::Registered(u.id)
                    &&& g.registry() == h.registry().insert(u.id, u.stream)
                    &&& !g.awaiting()
                },
                Event::NewMessage(m) => match r {
                    Step::Broadcast { text, recipients } => {
                        &&& text@ == m.message@
                        &&& distinct_ids(recipients@)
                        &&& map_of(recipients@) == h.registry().remove(m.id)
                        &&& g.registry() == h.registry().restrict(set![m.id])
                        &&& g.awaiting()
                    },
                    _ => false,
                },
            }
        }
    }

    /// Processes one event. While a broadcast is in flight nothing is
    /// processed: the event is handed back and the hub is left as it was.
    /// Otherwise a `NewUser` registers its handle (replacing any handle under
    /// the same id), and a `NewMessage` lends out the handle of every
    /// registered client except the sender; the hub then waits for them.
    pub fn handle_event(&mut self, event: Event<H>) -> (r: Step<H>)
        requires
            old(self).wf(),
        ensures
            final(self).wf(),
            Self::handled(*old(self), event, *final(self), r),
    {
        if self.in_flight {
            return Step::Deferred(event);
        }
        match event {
            Event::NewUser(u) => {
                let id = u.id;
                self.insert(Client { id, handle: u.stream });
                Step::Registered(id)
            },
            Event::NewMessage(m) => {
                let recipients = self.lend_all_but(m.id);
                self.in_flight = true;
                Step::Broadcast { text: m.message, recipients }
            },
        }
    }

    /// Takes every client but `sender` out of the registry.
    fn lend_all_but(&mut self, sender: ClientId) -> (out: Vec<Client<H>>)
        requires
            old(self).wf(),
        ensures
            final(self).wf(),
            final(self).in_flight == old(self).in_flight,
            distinct_ids(out@),
            map_of(out@) == old(self).registry().remove(sender),
            final(self).registry() == old(self).registry().restrict(set![sender]),
    {
        let mut rest: Vec<Client<H>> = Vec::new();
        std::mem::swap(&mut rest, &mut self.clients);
        let ghost all = rest@;
        let n = rest.len();
        let mut out: Vec<Client<H>> = Vec::new();
        let mut keep: Vec<Client<H>> = Vec::new();
        proof {
            assert(all.take(0) =~= Seq::<Client<H>>::empty());
            assert(map_of(out@) =~= map_of(all.take(0)).remove(sender));
            assert(map_of(keep@) =~= map_of(all.take(0)).restrict(set![sender]));
        }
        while rest.len() > 0
            invariant
                distinct_ids(all),
                n == all.len(),
                rest.len() <= n,
                rest@ == all.subrange(n - rest.len(), n as int),
                distinct_ids(out@),
                distinct_ids(keep@),
                map_of(out@) == map_of(all.take(n - rest.len())).remove(sender),
                map_of(keep@) == map_of(all.take(n - rest.len())).restrict(set![sender]),
            decreases rest.len(),
        {
            let ghost k = n - rest.len();
            let c = rest.remove(0);
            proof {
                assert(rest@ =~= all.subrange(n - rest.len(), n as int));
                assert(c == all[k]);
                assert(all.take(k + 1).drop_last() =~= all.take(k));
                lemma_dom(all.take(k));
                lemma_dom(out@);
                lemma_dom(keep@);
                if map_of(all.take(k)).contains_key(c.id) {
                    let m = choose|m: int| 0 <= m < all.take(k).len() && all.take(k)[m].id == c.id;
                    assert(all[m].id == c.id);
                }
                assert(!map_of(all.take(k)).contains_key(c.id));
                assert forall|i: int| 0 <= i < out@.len() implies out@[i].id != c.id by {
                    if out@[i].id == c.id {
                        assert(map_of(out@).contains_key(c.id));
                    }
                }
                assert forall|i: int| 0 <= i < keep@.len() implies keep@[i].id != c.id by {
                    if keep@[i].id == c.id {
                        assert(map_of(keep@).contains_key(c.id));
                    }
                }
            }
            if c.id == sender {
                let ghost before = keep@;
                keep.push(c);
                proof {
                    assert(keep@.drop_last() =~= before);
                    assert(map_of(keep@) =~= map_of(all.take(k + 1)).restrict(set![sender]));
                    assert(map_of(out@) =~= map_of(all.take(k + 1)).remove(sender));
                }
            } else {
                let ghost before = out@;
                out.push(c);
                proof {
                    assert(out@.drop_last() =~= before);
                    assert(map_of(out@) =~= map_of(all.take(k + 1)).remove(sender));
                    assert(map_of(keep@) =~= map_of(all.take(k + 1)).restrict(set![sender]));
                }
            }
        }
        proof {
            assert(all.take(n as int) =~= all);
        }
        self.clients = keep;
        out
    }

    /// Takes back the handles of a broadcast and ends it. Each result pairs a
    /// lent client with whether the write to it succeeded: a client whose
    /// write failed is dropped from the registry, the others are registered
    /// again, in order.
    pub fn finish_broadcast(&mut self, results: Vec<(Client<H>, bool)>)
        requires
            old(self).wf(),
        ensures
            final(self).wf(),
            !final(self).awaiting(),
            final(self).registry() == old(self).registry().union_prefer_right(
                map_of(delivered(results@)),
            ),
    {
        let ghost all = results@;
        let n = results.len();
        let mut rest = results;
        proof {
            assert(all.take(0) =~= Seq::<(Client<H>, bool)>::empty());
            assert(self.registry() =~= old(self).registry().union_prefer_right(
                map_of(delivered(all.take(0))),
            ));
        }
        while rest.len() > 0
            invariant
                self.wf(),
                n == all.len(),
                rest.len() <= n,
                rest@ == all.subrange(n - rest.len(), n as int),
                self.registry() == old(self).registry().union_prefer_right(
                    map_of(delivered(all.take(n - rest.len()))),
                ),
            decreases rest.len(),
        {
            let ghost k = n - rest.len();
            let (c, ok) = rest.remove(0);
            proof {
                assert(rest@ =~= all.subrange(n - rest.len(), n as int));
                assert(all.take(k + 1).drop_last() =~= all.take(k));
                assert(all.take(k + 1).last() == (c, ok));
                let d = delivered(all.take(k));
                assert(d.push(c).drop_last() =~= d);
            }
            if ok {
                self.insert(c);
            }
            proof {
                assert(self.registry() =~= old(self).registry().union_prefer_right(
                    map_of(delivered(all.take(k + 1))),
                ));
            }
        }
        proof {
            assert(all.take(n as int) =~= all);
        }
        self.in_flight = false;
    }

    /// The outbound handle registered under `id`.
    pub fn get(&self, id: ClientId) -> (r: Option<&H>)
        requires
            self.wf(),
        ensures
            match r {
                Some(h) => self.registry().contains_key(id) && *h == self.registry()[id],
                None => !self.registry().contains_key(id),
            },
    {
        let n = self.clients.len();
        let mut i: usize = 0;
        while i < n
            invariant
                n == self.clients@.len(),
                i <= n,
                self.wf(),
                forall|j: int| 0 <= j < i ==> self.clients@[j].id != id,
            decreases n - i,
        {
            if self.clients[i].id == id {
                proof {
                    lemma_index(self.clients@, i as int);
                }
                return Some(&self.clients[i].handle);
            }
            i = i + 1;
        }
        proof {
            lemma_dom(self.clients@);
        }
        None
    }

    /// Registers `c`, replacing any client registered under the same id.
    fn insert(&mut self, c: Client<H>)
        requires
            old(self).wf(),
        ensures
            final(self).wf(),
            final(self).registry() == old(self).registry().insert(c.id, c.handle),
            final(self).in_flight == old(self).in_flight,
    {
        let n = self.clients.len();
        let mut i: usize = 0;
        while i < n
            invariant
                self.clients@ == old(self).clients@,
                self.in_flight == old(self).in_flight,
                distinct_ids(self.clients@),
                n == self.clients@.len(),
                i <= n,
                forall|j: int| 0 <= j < i ==> self.clients@[j].id != c.id,
            decreases n - i,
        {
            if self.clients[i].id == c.id {
                proof {
                    lemma_update(self.clients@, i as int, c);
                }
                self.clients[i] = c;
                return;
            }
            i = i + 1;
        }
        proof {
            lemma_dom(self.clients@);
        }
        self.clients.push(c);
        assert(self.clients@.drop_last() =~= old(self).clients@);
    }
}

proof fn lemma_len_of<H>(s: Seq<Client<H>>)
    requires
        distinct_ids(s),
    ensures
        map_of(s).len() == s.len(),
        map_of(s).dom().finite(),
    decreases s.len(),
{
    if s.len() > 0 {
        let d = s.drop_last();
        assert(distinct_ids(d));
        lemma_len_of(d);
        lemma_dom(d);
        assert(!map_of(d).contains_key(s.last().id));
    }
}

/// A broadcast is a barrier: once a message has been handed out for
/// broadcast, the next event is not processed but handed back, and the hub
/// stays as it was, until `finish_broadcast` takes the handles back.
pub proof fn broadcast_is_a_barrier<H>(
    h0: Hub<H>,
    m: NewMessage,
    h1: Hub<H>,
    r1: Step<H>,
    e: Event<H>,
    h2: Hub<H>,
    r2: Step<H>,
)
    requires
        Hub::handled(h0, Event::NewMessage(m), h1, r1),
        Hub::handled(h1, e, h2, r2),
    ensures
        r2 == Step::Deferred(e),
        h2 == h1,
{
}

} // verus!
