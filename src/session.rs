use crate::lobby::Pairing;
use vstd::prelude::*;

verus! {

/// Pairing attempts a waiting connection makes before it gives up.
pub const MAX_ATTEMPTS: u32 = 101;

/// Reserved text frame that tells a client its wait for a partner timed out.
pub const TIMEOUT_NOTICE: &'static str = "$T$I$M$E$O$U$T!!^^";

/// Reserved text frame that tells a client its chat has begun.
pub const START_NOTICE: &'static str = "$S$T$A$R$T!!^^";

/// Milliseconds a waiting connection sleeps between two pairing attempts.
pub const POLL_INTERVAL_MS: u64 = 100;

/// Where one connection's handler stands.
#[derive(Debug, Clone, Copy, PartialEq, Eq, Structural)]
pub enum Phase {
    /// Waiting for a partner, after `attempts` failed pairing attempts.
    Waiting { attempts: u32 },
    /// The attempt budget is spent; one last check is due.
    Expiring,
    /// Relaying frames to and from `partner`.
    Chatting { partner: u64 },
    /// The handler is done; nothing more happens.
    Closed,
}

/// What the handler is told, carrying frames of type `F`.
#[derive(Debug)]
pub enum Event<F> {
    /// Result of a pairing attempt in the lobby.
    Attempted(Pairing),
    /// Result of the last check once the budget is spent.
    Expired(Pairing),
    /// A frame read from this connection's own socket.
    Inbound(F),
    /// The partner's outbound handle is gone.
    PartnerGone,
    /// This connection's socket or outbound handle has closed.
    RelayEnded,
}

/// What the handler asks to be done.
#[derive(Debug)]
pub enum Action<F> {
    /// Sleep one poll interval, then make another pairing attempt.
    Retry,
    /// Sleep one poll interval, then make the last check.
    Expire,
    /// Send the chat-start notice to the partner and start relaying.
    StartChat(u64),
    /// Deliver `frame`, unchanged, to connection `to`.
    Forward { to: u64, frame: F },
    /// Send the timeout notice to this connection, then close it.
    NotifyTimeout,
    /// End the chat and close this connection.
    Close,
    /// The event has no meaning in the current phase.
    Ignore,
}

/// The phase after `event` in `phase`, and the action it asks for.
pub open spec fn next<F>(phase: Phase, event: Event<F>) -> (Phase, Action<F>) {
    match (phase, event) {
        (Phase::Waiting { attempts }, Event::Attempted(Pairing::Paired(p))) => (
            Phase::Chatting { partner: p },
            Action::StartChat(p),
        ),
        (Phase::Waiting { attempts }, Event::Attempted(Pairing::Unpaired)) => {
            if attempts + 1 < MAX_ATTEMPTS {
                (Phase::Waiting { attempts: (attempts + 1) as u32 }, Action::Retry)
            } else {
                (Phase::Expiring, Action::Expire)
            }
        },
        (Phase::Expiring, Event::Expired(Pairing::Paired(p))) => (
            Phase::Chatting { partner: p },
            Action::StartChat(p),
        ),
        (Phase::Expiring, Event::Expired(Pairing::Unpaired)) => (
            Phase::Closed,
            Action::NotifyTimeout,
        ),
        (Phase::Chatting { partner }, Event::Inbound(f)) => (
            Phase::Chatting { partner },
            Action::Forward { to: partner, frame: f },
        ),
        (Phase::Chatting { partner }, Event::PartnerGone) => (Phase::Closed, Action::Close),
        (Phase::Chatting { partner }, Event::RelayEnded) => (Phase::Closed, Action::Close),
        _ => (phase, Action::Ignore),
    }
}

/// The phase after a sequence of events, and the actions they ask for, in
/// order.
pub open spec fn run<F>(phase: Phase, events: Seq<Event<F>>) -> (Phase, Seq<Action<F>>)
    decreases events.len(),
{
    if events.len() == 0 {
        (phase, Seq::empty())
    } else {
        let (p1, a) = next(phase, events[0]);
        let (p2, rest) = run(p1, events.subrange(1, events.len() as int));
        (p2, seq![a] + rest)
    }
}

/// The decision logic of one connection, from registration to close.
pub struct Handler {
    phase: Phase,
}

impl Handler {
    /// The phase the handler is in.
    pub closed spec fn spec_phase(&self) -> Phase {
        self.phase
    }

    /// A handler for a freshly registered connection.
    pub fn new() -> (r: Self)
        ensures
            r.spec_phase() == (Phase::Waiting { attempts: 0 }),
    {
        Handler { phase: Phase::Waiting { attempts: 0 } }
    }

    /// The current phase.
    pub fn phase(&self) -> (r: Phase)
        ensures
            r == self.spec_phase(),
    {
        self.phase
    }

    /// Takes one event and returns the action it asks for.
    pub fn handle<F>(&mut self, event: Event<F>) -> (r: Action<F>)
        ensures
            (final(self).spec_phase(), r) == next(old(self).spec_phase(), event),
    {
        let (p, a) = match (self.phase, event) {
            (Phase::Waiting { attempts: _ }, Event::Attempted(Pairing::Paired(p))) => (
                Phase::Chatting { partner: p },
                Action::StartChat(p),
            ),
            (Phase::Waiting { attempts }, Event::Attempted(Pairing::Unpaired)) => {
                if attempts < MAX_ATTEMPTS - 1 {
                    (Phase::Waiting { attempts: attempts + 1 }, Action::Retry)
                } else {
                    (Phase::Expiring, Action::Expire)
                }
            },
            (Phase::Expiring, Event::Expired(Pairing::Paired(p))) => (
                Phase::Chatting { partner: p },
                Action::StartChat(p),
            ),
            (Phase::Expiring, Event::Expired(Pairing::Unpaired)) => (
                Phase::Closed,
                Action::NotifyTimeout,
            ),
            (Phase::Chatting { partner }, Event::Inbound(f)) => (
                Phase::Chatting { partner },
                Action::Forward { to: partner, frame: f },
            ),
            (Phase::Chatting { partner: _ }, Event::PartnerGone) => (Phase::Closed, Action::Close),
            (Phase::Chatting { partner: _ }, Event::RelayEnded) => (Phase::Closed, Action::Close),
            (phase, _) => (phase, Action::Ignore),
        };
        self.phase = p;
        a
    }
}

/// How many timeout notices a sequence of actions sends.
pub open spec fn timeout_notices<F>(actions: Seq<Action<F>>) -> nat
    decreases actions.len(),
{
    if actions.len() == 0 {
        0
    } else {
        (if actions[0] is NotifyTimeout {
            1nat
        } else {
            0nat
        }) + timeout_notices(actions.subrange(1, actions.len() as int))
    }
}

/// `n` failed pairing attempts, then a failed last check.
pub open spec fn unpartnered<F>(n: nat) -> Seq<Event<F>> {
    Seq::new(n, |i: int| Event::Attempted(Pairing::Unpaired)).push(Event::Expired(Pairing::Unpaired))
}

/// Once closed, a handler stays closed and ignores every event.
pub proof fn lemma_closed_is_final<F>(events: Seq<Event<F>>)
    ensures
        run(Phase::Closed, events).0 == Phase::Closed,
        forall|i: int| 0 <= i < events.len() ==> #[trigger] run(Phase::Closed, events).1[i] is Ignore,
        run(Phase::Closed, events).1.len() == events.len(),
        timeout_notices(run(Phase::Closed, events).1) == 0,
    decreases events.len(),
{
    if events.len() > 0 {
        let rest = events.subrange(1, events.len() as int);
        lemma_closed_is_final(rest);
        let acts = run(Phase::Closed, events).1;
        assert(acts == seq![Action::<F>::Ignore] + run(Phase::Closed, rest).1);
        assert(acts.subrange(1, acts.len() as int) =~= run(Phase::Closed, rest).1);
        assert forall|i: int| 0 <= i < events.len() implies #[trigger] acts[i] is Ignore by {
            if i > 0 {
                assert(acts[i] == run(Phase::Closed, rest).1[i - 1]);
            }
        }
    }
}

/// Whatever happens, a connection is sent at most one timeout notice.
pub proof fn lemma_at_most_one_timeout<F>(phase: Phase, events: Seq<Event<F>>)
    ensures
        timeout_notices(run(phase, events).1) <= 1,
        phase == Phase::Closed ==> timeout_notices(run(phase, events).1) == 0,
    decreases events.len(),
{
    if events.len() > 0 {
        let rest = events.subrange(1, events.len() as int);
        let (p1, a) = next(phase, events[0]);
        lemma_at_most_one_timeout(p1, rest);
        let acts = run(phase, events).1;
        assert(acts.subrange(1, acts.len() as int) =~= run(p1, rest).1);
        if phase == Phase::Closed {
            assert(!(a is NotifyTimeout));
        }
    }
}

/// A connection that is never paired within its attempt budget is sent
/// exactly one timeout notice, as its last action, and its handler closes.
pub proof fn lemma_unpartnered_times_out<F>()
    ensures
        run(Phase::Waiting { attempts: 0 }, unpartnered::<F>(MAX_ATTEMPTS as nat)).0 == Phase::Closed,
        run(Phase::Waiting { attempts: 0 }, unpartnered::<F>(MAX_ATTEMPTS as nat)).1.last() is NotifyTimeout,
        timeout_notices(run(Phase::Waiting { attempts: 0 }, unpartnered::<F>(MAX_ATTEMPTS as nat)).1) == 1,
{
    lemma_waiting_runs_out::<F>(0);
}

proof fn lemma_waiting_runs_out<F>(k: u32)
    requires
        k < MAX_ATTEMPTS,
    ensures
        run(Phase::Waiting { attempts: k }, unpartnered::<F>((MAX_ATTEMPTS - k) as nat)).0 == Phase::Closed,
        run(Phase::Waiting { attempts: k }, unpartnered::<F>((MAX_ATTEMPTS - k) as nat)).1.len() > 0,
        run(Phase::Waiting { attempts: k }, unpartnered::<F>((MAX_ATTEMPTS - k) as nat)).1.last() is NotifyTimeout,
        timeout_notices(run(Phase::Waiting { attempts: k }, unpartnered::<F>((MAX_ATTEMPTS - k) as nat)).1) == 1,
    decreases MAX_ATTEMPTS - k,
{
    let n = (MAX_ATTEMPTS - k) as nat;
    let evs = unpartnered::<F>(n);
    let rest = evs.subrange(1, evs.len() as int);
    let acts = run(Phase::Waiting { attempts: k }, evs).1;
    assert(evs[0] == Event::<F>::Attempted(Pairing::Unpaired));
    if k + 1 < MAX_ATTEMPTS {
        assert(rest =~= unpartnered::<F>((MAX_ATTEMPTS - (k + 1)) as nat));
        lemma_waiting_runs_out::<F>((k + 1) as u32);
        let racts = run(Phase::Waiting { attempts: (k + 1) as u32 }, rest).1;
        assert(acts == seq![Action::<F>::Retry] + racts);
        assert(acts.subrange(1, acts.len() as int) =~= racts);
        assert(acts.last() == racts.last());
    } else {
        assert(rest =~= seq![Event::<F>::Expired(Pairing::Unpaired)]);
        let rest2 = rest.subrange(1, rest.len() as int);
        assert(rest2 =~= Seq::<Event<F>>::empty());
        assert(rest[0] == Event::<F>::Expired(Pairing::Unpaired));
        assert(run(Phase::Closed, rest2).1 == Seq::<Action<F>>::empty());
        assert(next(Phase::Expiring, rest[0]) == (Phase::Closed, Action::<F>::NotifyTimeout));
        let racts = run(Phase::Expiring, rest).1;
        assert(racts == seq![Action::<F>::NotifyTimeout] + Seq::<Action<F>>::empty());
        assert(racts.subrange(1, racts.len() as int) =~= Seq::<Action<F>>::empty());
        assert(timeout_notices(racts.subrange(1, racts.len() as int)) == 0);
        assert(timeout_notices(racts) == 1);
        assert(acts == seq![Action::<F>::Expire] + racts);
        assert(acts.subrange(1, acts.len() as int) =~= racts);
    }
}

/// While chatting with `partner`, the frames read from the socket are
/// forwarded to `partner` alone, each unchanged, in the order they were read.
pub proof fn lemma_relay_in_order<F>(partner: u64, frames: Seq<F>)
    ensures
        run(Phase::Chatting { partner }, frames.map_values(|f: F| Event::Inbound(f))).0
            == (Phase::Chatting { partner }),
        run(Phase::Chatting { partner }, frames.map_values(|f: F| Event::Inbound(f))).1
            == frames.map_values(|f: F| Action::Forward { to: partner, frame: f }),
    decreases frames.len(),
{
    let evs = frames.map_values(|f: F| Event::Inbound(f));
    if frames.len() > 0 {
        let rest = frames.subrange(1, frames.len() as int);
        lemma_relay_in_order(partner, rest);
        assert(evs.subrange(1, evs.len() as int) =~= rest.map_values(|f: F| Event::Inbound(f)));
        assert(run(Phase::Chatting { partner }, evs).1 =~= frames.map_values(
            |f: F| Action::Forward { to: partner, frame: f },
        ));
    } else {
        assert(run(Phase::Chatting { partner }, evs).1 =~= frames.map_values(
            |f: F| Action::Forward { to: partner, frame: f },
        ));
    }
}

/// A frame is only ever forwarded to the partner of a chatting handler, and
/// unchanged.
pub proof fn lemma_forward_only_to_partner<F>(phase: Phase, event: Event<F>)
    ensures
        next(phase, event).1 is Forward ==> {
            &&& phase == Phase::Chatting { partner: next(phase, event).1->to }
            &&& event == Event::Inbound(next(phase, event).1->frame)
        },
{
}

/// When the partner goes away mid-chat, the session ends and no frame is
/// forwarded afterwards, whatever else arrives.
pub proof fn lemma_partner_gone_ends_chat<F>(partner: u64, events: Seq<Event<F>>)
    ensures
        next(Phase::Chatting { partner }, Event::<F>::PartnerGone) == (Phase::Closed, Action::<F>::Close),
        run(Phase::Closed, events).0 == Phase::Closed,
        forall|i: int| 0 <= i < events.len() ==> !(#[trigger] run(Phase::Closed, events).1[i] is Forward),
{
    lemma_closed_is_final(events);
}

} // verus!
