use std::collections::{HashMap, VecDeque};
use vstd::prelude::*;

verus! {

broadcast use vstd::std_specs::hash::group_hash_axioms;

/// Why the lobby refused a request.
#[derive(Debug, Clone, Copy, PartialEq, Eq, Structural)]
pub enum LobbyError {
    /// The identity already has a live registration.
    AlreadyRegistered,
}

/// Where a connection stands after a pairing check.
#[derive(Debug, Clone, Copy, PartialEq, Eq, Structural)]
pub enum Pairing {
    /// The connection is paired with the given partner.
    Paired(u64),
    /// The connection has no partner (yet).
    Unpaired,
}

/// Shared state of the matchmaker: the registry of live connections and
/// their outbound handles, the queue of connections waiting for a partner,
/// and the symmetric table of current pairings.
pub struct Lobby<H> {
    registry: HashMap<u64, H>,
    queue: VecDeque<u64>,
    pairs: HashMap<u64, u64>,
    /// Number of registrations accepted so far.
    arrivals: Ghost<nat>,
    /// Number of pairings formed so far.
    matches: Ghost<nat>,
}

/// `post` is `pre` after one pairing transaction that took the two identities
/// at the head of the waiting queue, `front` then `second`, and recorded them
/// as partners of each other.
pub open spec fn match_step<H>(pre: Lobby<H>, post: Lobby<H>, front: u64, second: u64) -> bool {
    &&& pre.queue().len() >= 2
    &&& pre.queue()[0] == front
    &&& pre.queue()[1] == second
    &&& post.queue() == pre.queue().subrange(2, pre.queue().len() as int)
    &&& post.pairs() == pre.pairs().insert(front, second).insert(second, front)
    &&& post.registry() == pre.registry()
    &&& post.arrivals() == pre.arrivals()
    &&& post.matches() == pre.matches() + 1
}

/// Index of the first occurrence of `x` in `q`, if any.
fn position(q: &VecDeque<u64>, x: u64) -> (r: Option<usize>)
    ensures
        match r {
            Some(i) => q@.index_of_first(x) == Some(i as int),
            None => !q@.contains(x),
        },
{
    let mut i: usize = 0;
    while i < q.len()
        invariant
            i <= q@.len(),
            forall|j: int| 0 <= j < i ==> q@[j] != x,
        decreases q@.len() - i,
    {
        if q[i] == x {
            proof {
                q@.index_of_first_ensures(x);
                match q@.index_of_first(x) {
                    Some(k) => {
                        assert(k == i as int);
                    },
                    None => {
                        assert(q@[i as int] == x);
                    },
                }
            }
            return Some(i);
        }
        i = i + 1;
    }
    None
}

impl<H> Lobby<H> {
    /// Live connections and their outbound handles.
    pub closed spec fn registry(&self) -> Map<u64, H> {
        self.registry@
    }

    /// Identities waiting for a partner, oldest first.
    pub closed spec fn queue(&self) -> Seq<u64> {
        self.queue@
    }

    /// Current pairings, one entry in each direction.
    pub closed spec fn pairs(&self) -> Map<u64, u64> {
        self.pairs@
    }

    /// How many registrations have been accepted.
    pub closed spec fn arrivals(&self) -> nat {
        self.arrivals@
    }

    /// How many pairings have been formed.
    pub closed spec fn matches(&self) -> nat {
        self.matches@
    }

    /// The state invariant of the lobby.
    pub open spec fn wf(&self) -> bool {
        &&& self.queue().no_duplicates()
        &&& forall|i: int|
            0 <= i < self.queue().len() ==> {
                &&& self.registry().contains_key(#[trigger] self.queue()[i])
                &&& !self.pairs().contains_key(self.queue()[i])
            }
        &&& forall|a: u64| #[trigger]
            self.pairs().contains_key(a) ==> {
                let b = self.pairs()[a];
                &&& b != a
                &&& self.pairs().contains_key(b)
                &&& self.pairs()[b] == a
                &&& self.registry().contains_key(a)
            }
        &&& 2 * self.matches() + self.queue().len() <= self.arrivals()
    }

    /// An empty lobby.
    pub fn new() -> (r: Self)
        ensures
            r.wf(),
            r.registry() == Map::<u64, H>::empty(),
            r.queue() == Seq::<u64>::empty(),
            r.pairs() == Map::<u64, u64>::empty(),
            r.arrivals() == 0,
            r.matches() == 0,
    {
        Lobby {
            registry: HashMap::new(),
            queue: VecDeque::new(),
            pairs: HashMap::new(),
            arrivals: Ghost(0),
            matches: Ghost(0),
        }
    }

    /// Registers a new connection with its outbound handle and puts it at the
    /// back of the waiting queue. An identity that is already registered is
    /// refused and nothing changes.
    pub fn register(&mut self, id: u64, handle: H) -> (r: Result<(), LobbyError>)
        requires
            old(self).wf(),
        ensures
            final(self).wf(),
            old(self).registry().contains_key(id) ==> {
                &&& r == Err::<(), LobbyError>(LobbyError::AlreadyRegistered)
                &&& *final(self) == *old(self)
            },
            !old(self).registry().contains_key(id) ==> {
                &&& r == Ok::<(), LobbyError>(())
                &&& final(self).registry() == old(self).registry().insert(id, handle)
                &&& final(self).queue() == old(self).queue().push(id)
                &&& final(self).pairs() == old(self).pairs()
                &&& final(self).arrivals() == old(self).arrivals() + 1
                &&& final(self).matches() == old(self).matches()
            },
    {
        if self.registry.contains_key(&id) {
            return Err(LobbyError::AlreadyRegistered);
        }
        proof {
            assert(!self.queue().contains(id));
            assert(!self.pairs().contains_key(id));
        }
        self.registry.insert(id, handle);
        self.queue.push_back(id);
        self.arrivals = Ghost(self.arrivals@ + 1);
        proof {
            let q = self.queue();
            assert forall|i: int| 0 <= i < q.len() implies {
                &&& self.registry().contains_key(#[trigger] q[i])
                &&& !self.pairs().contains_key(q[i])
            } by {
                if i < q.len() - 1 {
                    assert(q[i] == old(self).queue()[i]);
                    assert(old(self).registry().contains_key(q[i]));
                } else {
                    assert(q[i] == id);
                }
            }
            assert forall|i: int, j: int|
                0 <= i < q.len() && 0 <= j < q.len() && i != j implies q[i] != q[j] by {
                if i < q.len() - 1 && j < q.len() - 1 {
                    assert(q[i] == old(self).queue()[i] && q[j] == old(self).queue()[j]);
                } else if i < q.len() - 1 {
                    assert(old(self).queue().contains(q[i]));
                } else {
                    assert(old(self).queue().contains(q[j]));
                }
            }
            assert forall|a: u64| #[trigger] self.pairs().contains_key(a) implies self.registry().contains_key(a) by {
                assert(old(self).registry().contains_key(a));
            }
        }
        Ok(())
    }

    /// One pairing attempt by connection `me`, as a single atomic step.
    ///
    /// If some other connection has already paired `me`, the partner is
    /// returned and nothing changes. Otherwise, if `me` holds the second place
    /// of the waiting queue, it takes the first two entries off the queue and
    /// records itself and the front entry as partners. In every other case no
    /// pairing is possible now and nothing changes.
    pub fn attempt_pair(&mut self, me: u64) -> (r: Pairing)
        requires
            old(self).wf(),
        ensures
            final(self).wf(),
            old(self).pairs().contains_key(me) ==> {
                &&& r == Pairing::Paired(old(self).pairs()[me])
                &&& *final(self) == *old(self)
            },
            !old(self).pairs().contains_key(me) && old(self).queue().len() >= 2
                && old(self).queue()[1] == me ==> {
                &&& r == Pairing::Paired(old(self).queue()[0])
                &&& match_step(*old(self), *final(self), old(self).queue()[0], me)
            },
            !old(self).pairs().contains_key(me) && !(old(self).queue().len() >= 2
                && old(self).queue()[1] == me) ==> {
                &&& r == Pairing::Unpaired
                &&& *final(self) == *old(self)
            },
    {
        match self.pairs.get(&me) {
            Some(p) => {
                return Pairing::Paired(*p);
            },
            None => {},
        }
        if self.queue.len() < 2 || self.queue[1] != me {
            return Pairing::Unpaired;
        }
        let ghost pre = *self;
        let front = self.queue[0];
        self.queue.pop_front();
        self.queue.pop_front();
        self.pairs.insert(front, me);
        self.pairs.insert(me, front);
        self.matches = Ghost(self.matches@ + 1);
        proof {
            let q0 = pre.queue();
            let q = self.queue();
            assert(q =~= q0.subrange(2, q0.len() as int));
            assert(q0[0] != q0[1]);
            assert forall|i: int| 0 <= i < q.len() implies {
                &&& self.registry().contains_key(#[trigger] q[i])
                &&& !self.pairs().contains_key(q[i])
            } by {
                assert(q[i] == q0[i + 2]);
                assert(q0[i + 2] != q0[0] && q0[i + 2] != q0[1]);
            }
            assert forall|i: int, j: int|
                0 <= i < q.len() && 0 <= j < q.len() && i != j implies q[i] != q[j] by {
                assert(q[i] == q0[i + 2] && q[j] == q0[j + 2]);
            }
            assert(pre.registry().contains_key(q0[0]) && pre.registry().contains_key(q0[1]));
            assert forall|a: u64| #[trigger] self.pairs().contains_key(a) implies {
                let b = self.pairs()[a];
                &&& b != a
                &&& self.pairs().contains_key(b)
                &&& self.pairs()[b] == a
                &&& self.registry().contains_key(a)
            } by {
                if a != front && a != me {
                    assert(pre.pairs().contains_key(a));
                    let b = pre.pairs()[a];
                    assert(b != front) by {
                        if b == front {
                            assert(pre.pairs().contains_key(front));
                            assert(q0[0] == front);
                        }
                    }
                    assert(b != me) by {
                        if b == me {
                            assert(pre.pairs().contains_key(me));
                        }
                    }
                }
            }
        }
        Pairing::Paired(front)
    }

    /// Takes `me` out of the waiting queue, if it is there.
    fn leave_queue(&mut self, me: u64)
        requires
            old(self).wf(),
        ensures
            final(self).wf(),
            final(self).queue() == old(self).queue().remove_value(me),
            !final(self).queue().contains(me),
            final(self).registry() == old(self).registry(),
            final(self).pairs() == old(self).pairs(),
            final(self).arrivals() == old(self).arrivals(),
            final(self).matches() == old(self).matches(),
    {
        match position(&self.queue, me) {
            Some(i) => {
                let ghost q0 = self.queue@;
                proof {
                    q0.index_of_first_ensures(me);
                }
                self.queue.remove(i);
                proof {
                    let q = self.queue@;
                    assert(q == q0.remove_value(me));
                    assert(!q.contains(me)) by {
                        if q.contains(me) {
                            let k = choose|k: int| 0 <= k < q.len() && q[k] == me;
                            let k0 = if k < i { k } else { k + 1 };
                            assert(q0[k0] == me && k0 != i);
                        }
                    }
                    assert forall|k: int| 0 <= k < q.len() implies {
                        &&& self.registry().contains_key(#[trigger] q[k])
                        &&& !self.pairs().contains_key(q[k])
                    } by {
                        if k < i {
                            assert(q[k] == q0[k]);
                        } else {
                            assert(q[k] == q0[k + 1]);
                        }
                    }
                    assert forall|k: int, j: int|
                        0 <= k < q.len() && 0 <= j < q.len() && k != j implies q[k] != q[j] by {
                        let k0 = if k < i { k } else { k + 1 };
                        let j0 = if j < i { j } else { j + 1 };
                        assert(q[k] == q0[k0] && q[j] == q0[j0]);
                    }
                }
            },
            None => {
                proof {
                    self.queue@.index_of_first_ensures(me);
                }
            },
        }
    }

    /// The last check of a connection whose attempt budget is spent.
    ///
    /// If it was paired meanwhile, the partner is returned and nothing
    /// changes; otherwise it times out: it leaves the waiting queue and
    /// `Unpaired` is returned.
    pub fn give_up(&mut self, me: u64) -> (r: Pairing)
        requires
            old(self).wf(),
        ensures
            final(self).wf(),
            old(self).pairs().contains_key(me) ==> {
                &&& r == Pairing::Paired(old(self).pairs()[me])
                &&& *final(self) == *old(self)
            },
            !old(self).pairs().contains_key(me) ==> {
                &&& r == Pairing::Unpaired
                &&& final(self).queue() == old(self).queue().remove_value(me)
                &&& !final(self).queue().contains(me)
                &&& final(self).registry() == old(self).registry()
                &&& final(self).pairs() == old(self).pairs()
                &&& final(self).arrivals() == old(self).arrivals()
                &&& final(self).matches() == old(self).matches()
            },
    {
        match self.pairs.get(&me) {
            Some(p) => {
                return Pairing::Paired(*p);
            },
            None => {},
        }
        self.leave_queue(me);
        Pairing::Unpaired
    }

    /// Ends the chat of `me`: both halves of its pairing entry are removed
    /// together, and the former partner is returned. Without a pairing
    /// nothing changes and `None` is returned.
    pub fn end_chat(&mut self, me: u64) -> (r: Option<u64>)
        requires
            old(self).wf(),
        ensures
            final(self).wf(),
            final(self).registry() == old(self).registry(),
            final(self).queue() == old(self).queue(),
            final(self).arrivals() == old(self).arrivals(),
            final(self).matches() == old(self).matches(),
            old(self).pairs().contains_key(me) ==> {
                &&& r == Some(old(self).pairs()[me])
                &&& final(self).pairs() == old(self).pairs().remove(me).remove(
                    old(self).pairs()[me],
                )
            },
            !old(self).pairs().contains_key(me) ==> {
                &&& r == None::<u64>
                &&& final(self).pairs() == old(self).pairs()
            },
    {
        let partner = match self.pairs.remove(&me) {
            Some(p) => p,
            None => {
                proof {
                    assert(self.pairs() =~= old(self).pairs());
                }
                return None;
            },
        };
        self.pairs.remove(&partner);
        proof {
            let p0 = old(self).pairs();
            assert forall|a: u64| #[trigger] self.pairs().contains_key(a) implies {
                let b = self.pairs()[a];
                &&& b != a
                &&& self.pairs().contains_key(b)
                &&& self.pairs()[b] == a
                &&& self.registry().contains_key(a)
            } by {
                assert(p0.contains_key(a) && a != me && a != partner);
                let b = p0[a];
                assert(p0.contains_key(b));
                assert(b != me) by {
                    if b == me {
                        assert(p0[me] == a);
                    }
                }
                assert(b != partner) by {
                    if b == partner {
                        assert(p0[partner] == me);
                    }
                }
            }
        }
        Some(partner)
    }

    /// Removes every trace of `me`: its registry entry, its place in the
    /// waiting queue and its pairing (both halves). Removing an identity that
    /// is not there changes nothing.
    pub fn unregister(&mut self, me: u64)
        requires
            old(self).wf(),
        ensures
            final(self).wf(),
            final(self).registry() == old(self).registry().remove(me),
            final(self).queue() == old(self).queue().remove_value(me),
            old(self).pairs().contains_key(me) ==> final(self).pairs() == old(
                self,
            ).pairs().remove(me).remove(old(self).pairs()[me]),
            !old(self).pairs().contains_key(me) ==> final(self).pairs() == old(self).pairs(),
            final(self).arrivals() == old(self).arrivals(),
            final(self).matches() == old(self).matches(),
    {
        self.end_chat(me);
        self.leave_queue(me);
        let ghost mid = *self;
        self.registry.remove(&me);
        proof {
            assert forall|i: int| 0 <= i < self.queue().len() implies {
                &&& self.registry().contains_key(#[trigger] self.queue()[i])
                &&& !self.pairs().contains_key(self.queue()[i])
            } by {
                assert(mid.registry().contains_key(self.queue()[i]));
                assert(self.queue()[i] != me);
            }
            assert forall|a: u64| #[trigger] self.pairs().contains_key(a) implies self.registry().contains_key(a) by {
                assert(mid.registry().contains_key(a));
                assert(a != me);
            }
        }
    }

    /// The partner of `me`, if it is paired.
    pub fn partner_of(&self, me: u64) -> (r: Option<u64>)
        ensures
            r == (if self.pairs().contains_key(me) {
                Some(self.pairs()[me])
            } else {
                None
            }),
    {
        match self.pairs.get(&me) {
            Some(p) => Some(*p),
            None => None,
        }
    }

    /// The outbound handle registered for `id`; `None` once that
    /// connection has gone, in which case a delivery to it is dropped.
    pub fn route(&self, id: u64) -> (r: Option<&H>)
        ensures
            match r {
                Some(h) => self.registry().contains_key(id) && *h == self.registry()[id],
                None => !self.registry().contains_key(id),
            },
    {
        self.registry.get(&id)
    }

    /// Whether `id` has a live registration.
    pub fn is_registered(&self, id: u64) -> (r: bool)
        ensures
            r == self.registry().contains_key(id),
    {
        self.registry.contains_key(&id)
    }

    /// Whether `id` is waiting in the queue.
    pub fn is_waiting(&self, id: u64) -> (r: bool)
        ensures
            r == self.queue().contains(id),
    {
        match position(&self.queue, id) {
            Some(_) => {
                proof {
                    self.queue@.index_of_first_ensures(id);
                }
                true
            },
            None => false,
        }
    }

    /// Number of connections waiting for a partner.
    pub fn waiting_len(&self) -> (r: usize)
        ensures
            r == self.queue().len(),
    {
        self.queue.len()
    }
}

/// Pairings form only two at a time out of registrations: no more pairings
/// have formed than half the registrations accepted, each pairing joins two
/// distinct identities, and no identity is the partner of two others.
pub proof fn lemma_pairings_bounded<H>(l: Lobby<H>, a: u64, b: u64)
    requires
        l.wf(),
    ensures
        2 * l.matches() <= l.arrivals(),
        l.pairs().contains_key(a) ==> l.pairs()[a] != a,
        l.pairs().contains_key(a) && l.pairs().contains_key(b) && l.pairs()[a] == l.pairs()[b]
            ==> a == b,
{
    if l.pairs().contains_key(a) && l.pairs().contains_key(b) && l.pairs()[a] == l.pairs()[b] {
        let c = l.pairs()[a];
        assert(l.pairs().contains_key(c));
    }
}

/// A pairing transaction consumes two distinct waiting identities that no
/// pairing holds yet; afterwards both are partners of each other and neither
/// is waiting, so no later transaction can consume either of them again.
pub proof fn lemma_match_consumes_waiting<H>(pre: Lobby<H>, post: Lobby<H>, front: u64, second: u64)
    requires
        pre.wf(),
        match_step(pre, post, front, second),
    ensures
        front != second,
        pre.queue().contains(front) && pre.queue().contains(second),
        !pre.pairs().contains_key(front) && !pre.pairs().contains_key(second),
        post.pairs()[front] == second && post.pairs()[second] == front,
        !post.queue().contains(front) && !post.queue().contains(second),
{
    let q0 = pre.queue();
    assert(q0[0] == front && q0[1] == second);
    assert(pre.registry().contains_key(q0[0]) && pre.registry().contains_key(q0[1]));
    if post.queue().contains(front) {
        let k = choose|k: int| 0 <= k < post.queue().len() && post.queue()[k] == front;
        assert(q0[k + 2] == front);
    }
    if post.queue().contains(second) {
        let k = choose|k: int| 0 <= k < post.queue().len() && post.queue()[k] == second;
        assert(q0[k + 2] == second);
    }
}

/// Two pairing transactions in a row consume four distinct identities: no
/// waiting entry is paired twice.
pub proof fn lemma_matches_disjoint<H>(
    l0: Lobby<H>,
    l1: Lobby<H>,
    l2: Lobby<H>,
    a: u64,
    b: u64,
    c: u64,
    d: u64,
)
    requires
        l0.wf(),
        match_step(l0, l1, a, b),
        match_step(l1, l2, c, d),
    ensures
        a != c && a != d && b != c && b != d,
{
    let q0 = l0.queue();
    assert(l1.queue()[0] == q0[2] && l1.queue()[1] == q0[3]);
}

} // verus!
