//! The acceptor's id allocator, and the decisions of the loop that drives one
//! plugin connection. The loop itself (waiting, reading, writing) is run by
//! the caller, which performs each action and reports what came of it.
use vstd::prelude::*;
use crate::connection::TransportError;
use crate::message::{PluginEvent, PluginRequest};

verus! {

/// Hands out plugin ids: 0, 1, 2, ..., each at most once.
pub struct IdAllocator {
    next: usize,
}

impl IdAllocator {
    /// How many ids were handed out so far.
    pub closed spec fn issued(&self) -> nat {
        self.next as nat
    }

    /// The allocator, and the id it hands out, after one request.
    pub open spec fn after_one(a: nat) -> (nat, Option<usize>) {
        if a < usize::MAX {
            (a + 1, Some(a as usize))
        } else {
            (a, None)
        }
    }

    /// An allocator that has handed out nothing.
    pub fn new() -> (r: IdAllocator)
        ensures
            r.issued() == 0,
    {
        IdAllocator { next: 0 }
    }

    /// A fresh id: the number of ids handed out before. `None` only once
    /// every `usize` but the largest has been handed out.
    pub fn unique_id(&mut self) -> (r: Option<usize>)
        ensures
            (final(self).issued(), r) == IdAllocator::after_one(old(self).issued()),
    {
        if self.next < usize::MAX {
            let id = self.next;
            self.next = self.next + 1;
            Some(id)
        } else {
            None
        }
    }
}

/// The ids handed out by `n` requests, starting from `a` ids already issued.
pub open spec fn ids_from(a: nat, n: nat) -> Seq<Option<usize>>
    decreases n,
{
    if n == 0 {
        Seq::empty()
    } else {
        let (b, id) = IdAllocator::after_one(a);
        seq![id] + ids_from(b, (n - 1) as nat)
    }
}

proof fn lemma_ids_from(a: nat, n: nat)
    ensures
        ids_from(a, n).len() == n,
        forall|i: int|
            0 <= i < n && (#[trigger] ids_from(a, n)[i]) is Some ==> ids_from(a, n)[i]->Some_0
                == a + i,
    decreases n,
{
    if n > 0 {
        let (b, id) = IdAllocator::after_one(a);
        lemma_ids_from(b, (n - 1) as nat);
        let s = ids_from(a, n);
        assert forall|i: int| 0 <= i < n && (#[trigger] s[i]) is Some implies s[i]->Some_0 == a + i by {
            if i > 0 {
                assert(s[i] == ids_from(b, (n - 1) as nat)[i - 1]);
                if a >= usize::MAX {
                    assert(ids_from(b, (n - 1) as nat)[i - 1] is None) by {
                        lemma_exhausted(a, (n - 1) as nat);
                    }
                }
            }
        }
    }
}

proof fn lemma_ids_len(a: nat, n: nat)
    ensures
        ids_from(a, n).len() == n,
    decreases n,
{
    if n > 0 {
        lemma_ids_len(IdAllocator::after_one(a).0, (n - 1) as nat);
    }
}

proof fn lemma_exhausted(a: nat, n: nat)
    requires
        a >= usize::MAX,
    ensures
        forall|i: int| 0 <= i < n ==> (#[trigger] ids_from(a, n)[i]) is None,
    decreases n,
{
    if n > 0 {
        lemma_exhausted(a, (n - 1) as nat);
        lemma_ids_len(a, (n - 1) as nat);
        assert forall|i: int| 0 <= i < n implies (#[trigger] ids_from(a, n)[i]) is None by {
            if i > 0 {
                assert(ids_from(a, n)[i] == ids_from(a, (n - 1) as nat)[i - 1]);
            }
        }
    }
}

/// Across any sequence of requests to one allocator, the ids handed out are
/// pairwise distinct, and none of them was handed out before the sequence
/// began: an id is never reused, whether or not its connection has closed.
pub proof fn lemma_ids_unique(a: nat, n: nat)
    ensures
        forall|i: int, j: int|
            0 <= i < j < n && (#[trigger] ids_from(a, n)[i]) is Some && (#[trigger] ids_from(
                a,
                n,
            )[j]) is Some ==> ids_from(a, n)[i]->Some_0 != ids_from(a, n)[j]->Some_0,
        forall|i: int|
            0 <= i < n && (#[trigger] ids_from(a, n)[i]) is Some ==> ids_from(a, n)[i]->Some_0
                >= a,
{
    lemma_ids_from(a, n);
}

/// Where one connection's exchange stands: what it waits to hear about.
#[derive(Debug, Clone, Copy, PartialEq, Eq, Structural)]
pub enum Phase {
    /// Not started.
    Registering,
    /// The registry is being told of the new plugin.
    Announcing,
    /// The liveness probe is being written.
    Probing,
    /// Waiting, up to the polling interval, for an event queued by the host.
    Waiting,
    /// An event is being written.
    Writing,
    /// The plugin's reply is being read.
    Reading,
    /// The reply is being handed to the registry.
    Forwarding,
    /// The registry is being told that the plugin is gone.
    Closing,
    /// Done: nothing more is read or written.
    Closed,
}

/// What came of the last action, as the caller reports it.
#[derive(Debug)]
pub enum Outcome {
    /// The loop is to begin.
    Started,
    /// The registry was told of the new plugin.
    Announced,
    /// The liveness probe was written (`true`) or the write failed (`false`).
    Liveness(bool),
    /// The event queued by the host, or `None` where the polling interval
    /// passed with nothing queued.
    Outbound(Option<PluginEvent>),
    /// The host dropped this plugin's queue of events.
    OutboundClosed,
    /// The event was written, or why not.
    Written(Result<(), TransportError>),
    /// The reply that was read (`None`: no message), or why none could be.
    Reply(Result<Option<PluginRequest>, TransportError>),
    /// The reply was handed to the registry.
    Forwarded,
    /// The reply could not be handed on: the bridge to the registry is gone.
    ForwardFailed,
    /// The registry was told that the plugin is gone.
    Unregistered,
}

/// What the caller is to do next.
#[derive(Debug)]
pub enum Action {
    /// Tell the registry of a new plugin with this id.
    Announce(usize),
    /// Write a liveness probe.
    Probe,
    /// Wait up to the polling interval for an event queued by the host.
    AwaitOutbound,
    /// Write this event as a frame.
    Write(PluginEvent),
    /// Read one frame: the plugin's reply.
    ReadReply,
    /// Hand this request, from the plugin with this id, to the registry.
    Forward(PluginRequest, usize),
    /// Tell the registry that the plugin with this id is gone.
    Unregister(usize),
    /// Stop: the connection's task ends.
    Finish,
}

/// The next phase and action of the connection with this id, given what came
/// of the last action. Any failure, and an outcome that does not belong to
/// the phase, closes the connection: the registry is told, then the loop
/// ends.
pub open spec fn step(phase: Phase, id: usize, outcome: Outcome) -> (Phase, Action) {
    match (phase, outcome) {
        (Phase::Registering, Outcome::Started) => (Phase::Announcing, Action::Announce(id)),
        (Phase::Registering, _) => (Phase::Closed, Action::Finish),
        (Phase::Announcing, Outcome::Announced) => (Phase::Probing, Action::Probe),
        (Phase::Probing, Outcome::Liveness(true)) => (Phase::Waiting, Action::AwaitOutbound),
        (Phase::Waiting, Outcome::Outbound(Some(e))) => (Phase::Writing, Action::Write(e)),
        (Phase::Waiting, Outcome::Outbound(None)) => (Phase::Probing, Action::Probe),
        (Phase::Writing, Outcome::Written(Ok(()))) => (Phase::Reading, Action::ReadReply),
        (Phase::Reading, Outcome::Reply(Ok(Some(r)))) => (Phase::Forwarding, Action::Forward(r, id)),
        (Phase::Reading, Outcome::Reply(Ok(None))) => (Phase::Probing, Action::Probe),
        (Phase::Forwarding, Outcome::Forwarded) => (Phase::Probing, Action::Probe),
        (Phase::Closing, _) => (Phase::Closed, Action::Finish),
        (Phase::Closed, _) => (Phase::Closed, Action::Finish),
        _ => (Phase::Closing, Action::Unregister(id)),
    }
}

/// The decisions of one plugin connection's exchange loop.
pub struct ExchangeLoop {
    pub id: usize,
    pub phase: Phase,
}

impl ExchangeLoop {
    /// The loop of a connection that was given `id`, not yet started.
    pub fn new(id: usize) -> (r: ExchangeLoop)
        ensures
            r.id == id,
            r.phase == Phase::Registering,
    {
        ExchangeLoop { id, phase: Phase::Registering }
    }

    /// Takes in what came of the last action and says what to do next.
    pub fn advance(&mut self, outcome: Outcome) -> (r: Action)
        ensures
            final(self).id == old(self).id,
            (final(self).phase, r) == step(old(self).phase, old(self).id, outcome),
    {
        let id = self.id;
        let (phase, action) = match (self.phase, outcome) {
            (Phase::Registering, Outcome::Started) => (Phase::Announcing, Action::Announce(id)),
            (Phase::Registering, _) => (Phase::Closed, Action::Finish),
            (Phase::Announcing, Outcome::Announced) => (Phase::Probing, Action::Probe),
            (Phase::Probing, Outcome::Liveness(true)) => (Phase::Waiting, Action::AwaitOutbound),
            (Phase::Waiting, Outcome::Outbound(Some(e))) => (Phase::Writing, Action::Write(e)),
            (Phase::Waiting, Outcome::Outbound(None)) => (Phase::Probing, Action::Probe),
            (Phase::Writing, Outcome::Written(Ok(()))) => (Phase::Reading, Action::ReadReply),
            (Phase::Reading, Outcome::Reply(Ok(Some(r)))) => (
                Phase::Forwarding,
                Action::Forward(r, id),
            ),
            (Phase::Reading, Outcome::Reply(Ok(None))) => (Phase::Probing, Action::Probe),
            (Phase::Forwarding, Outcome::Forwarded) => (Phase::Probing, Action::Probe),
            (Phase::Closing, _) => (Phase::Closed, Action::Finish),
            (Phase::Closed, _) => (Phase::Closed, Action::Finish),
            _ => (Phase::Closing, Action::Unregister(id)),
        };
        self.phase = phase;
        action
    }

    /// Whether the loop has ended.
    pub fn is_finished(&self) -> (r: bool)
        ensures
            r == (self.phase == Phase::Closed),
    {
        self.phase == Phase::Closed
    }
}

/// The actions decided for a run of outcomes, starting in `phase`.
pub open spec fn run_steps(phase: Phase, id: usize, outcomes: Seq<Outcome>) -> Seq<Action>
    decreases outcomes.len(),
{
    if outcomes.len() == 0 {
        Seq::empty()
    } else {
        let (next, action) = step(phase, id, outcomes[0]);
        seq![action] + run_steps(next, id, outcomes.drop_first())
    }
}

/// Once a connection is closing, nothing more is read or written, whatever
/// is reported: every later decision is to stop.
pub proof fn lemma_closing_is_terminal(phase: Phase, id: usize, outcomes: Seq<Outcome>)
    requires
        phase == Phase::Closing || phase == Phase::Closed,
    ensures
        run_steps(phase, id, outcomes).len() == outcomes.len(),
        forall|i: int|
            0 <= i < outcomes.len() ==> (#[trigger] run_steps(phase, id, outcomes)[i]) is Finish,
    decreases outcomes.len(),
{
    if outcomes.len() > 0 {
        let rest = outcomes.drop_first();
        lemma_closing_is_terminal(Phase::Closed, id, rest);
        let all = run_steps(phase, id, outcomes);
        assert forall|i: int| 0 <= i < outcomes.len() implies (#[trigger] all[i]) is Finish by {
            if i > 0 {
                assert(all[i] == run_steps(Phase::Closed, id, rest)[i - 1]);
            }
        }
    }
}

} // verus!
