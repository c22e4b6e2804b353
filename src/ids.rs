use vstd::prelude::*;

verus! {

/// Identifies one accepted connection for the lifetime of the process.
pub type ClientId = i128;

/// Hands out connection identifiers: 0, 1, 2, ... in order of acceptance.
pub struct Acceptor {
    next: ClientId,
}

impl Acceptor {
    /// The identifier the next accepted connection receives.
    pub closed spec fn next_id(self) -> ClientId {
        self.next
    }

    pub fn new() -> (r: Self)
        ensures
            r.next_id() == 0,
    {
        Acceptor { next: 0 }
    }

    /// The outcome of one attempt to accept a connection: `accepted` is
    /// false when the listener reported an error, which is skipped. An
    /// accepted connection receives the next identifier; once identifiers
    /// are exhausted, connections are turned away with `None`.
    pub fn on_accept(&mut self, accepted: bool) -> (r: Option<ClientId>)
        ensures
            Self::accept_step(*old(self), accepted, *final(self), r),
    {
        if accepted && self.next < ClientId::MAX {
            let id = self.next;
            self.next = self.next + 1;
            Some(id)
        } else {
            None
        }
    }

    /// One step of `on_accept`, from `a` to `b` with result `r`.
    pub open spec fn accept_step(a: Acceptor, accepted: bool, b: Acceptor, r: Option<ClientId>) -> bool {
        if accepted && a.next_id() < ClientId::MAX {
            &&& r == Some(a.next_id())
            &&& b.next_id() == a.next_id() + 1
        } else {
            &&& r.is_none()
            &&& b.next_id() == a.next_id()
        }
    }
}

/// A run of the acceptor: `states[i]` goes to `states[i + 1]` on the
/// attempt `accepted[i]`, which hands out `ids[i]`.
pub open spec fn is_run(states: Seq<Acceptor>, accepted: Seq<bool>, ids: Seq<Option<ClientId>>) -> bool {
    &&& states.len() == accepted.len() + 1
    &&& ids.len() == accepted.len()
    &&& forall|i: int|
        0 <= i < accepted.len() ==> #[trigger] Acceptor::accept_step(
            states[i],
            accepted[i],
            states[i + 1],
            ids[i],
        )
}

/// However many connections the acceptor admits, no two of them share an
/// identifier: the identifiers it hands out strictly increase.
pub proof fn ids_pairwise_distinct(states: Seq<Acceptor>, accepted: Seq<bool>, ids: Seq<Option<ClientId>>)
    requires
        is_run(states, accepted, ids),
    ensures
        forall|i: int, j: int|
            0 <= i < j < ids.len() && ids[i] is Some && ids[j] is Some ==> ids[i]->0 < ids[j]->0,
{
    assert forall|i: int, j: int|
        0 <= i < j < ids.len() && ids[i] is Some && ids[j] is Some implies ids[i]->0 < ids[j]->0 by {
        assert(Acceptor::accept_step(states[i], accepted[i], states[i + 1], ids[i]));
        assert(Acceptor::accept_step(states[j], accepted[j], states[j + 1], ids[j]));
        lemma_monotone(states, accepted, ids, i + 1, j);
    }
}

proof fn lemma_monotone(states: Seq<Acceptor>, accepted: Seq<bool>, ids: Seq<Option<ClientId>>, i: int, j: int)
    requires
        is_run(states, accepted, ids),
        0 <= i <= j < states.len(),
    ensures
        states[i].next_id() <= states[j].next_id(),
    decreases j - i,
{
    if i < j {
        let k = j - 1;
        assert(Acceptor::accept_step(states[k], accepted[k], states[k + 1], ids[k]));
        lemma_monotone(states, accepted, ids, i, j - 1);
    }
}

} // verus!
