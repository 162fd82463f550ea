//! What a leader knows of one follower: how far its log matches, what to send next, and
//! which appends are on their way.

use crate::raft::message::EntryView;
use vstd::prelude::*;

verus! {

/// How the leader replicates to a follower.
#[derive(Clone, Copy, Debug, PartialEq, Eq, Structural)]
pub enum ProgressState {
    /// The leader does not know the follower's log: one append at a time.
    Probe,
    /// The follower keeps up: appends are sent ahead of their acknowledgements.
    Replicate,
    /// The follower needs a snapshot: nothing is sent until it has one.
    Snapshot,
}

/// The window of appends that were sent and not yet acknowledged, each named by the index
/// of its last entry, oldest first.
#[derive(Debug)]
pub struct Inflights {
    buffer: Vec<u64>,
    size: usize,
}

/// A window as a mathematical value.
pub struct InflightsView {
    /// The indices on their way, oldest first.
    pub sent: Seq<u64>,
    /// How many the window can hold.
    pub size: nat,
}

impl InflightsView {
    /// The window holds as many as it can.
    pub open spec fn full(self) -> bool {
        self.sent.len() == self.size
    }

    /// The number of leading indices that are `to` or below.
    pub open spec fn acked(self, to: u64) -> nat
        decreases self.sent.len(),
    {
        if self.sent.len() == 0 || to < self.sent[0] {
            0
        } else {
            1 + (InflightsView { sent: self.sent.skip(1), size: self.size }).acked(to)
        }
    }

    /// The window after the acknowledgement of everything up to `to`.
    pub open spec fn free_to(self, to: u64) -> InflightsView {
        InflightsView { sent: self.sent.skip(self.acked(to) as int), size: self.size }
    }

    /// The window after the oldest index has been let go.
    pub open spec fn free_first_one(self) -> InflightsView {
        if self.sent.len() == 0 {
            self
        } else {
            self.free_to(self.sent[0])
        }
    }

    /// The window with one more index.
    pub open spec fn add(self, inflight: u64) -> InflightsView {
        InflightsView { sent: self.sent.push(inflight), size: self.size }
    }

    /// The empty window of the same size.
    pub open spec fn reset(self) -> InflightsView {
        InflightsView { sent: Seq::<u64>::empty(), size: self.size }
    }
}

proof fn lemma_acked_bound(w: InflightsView, to: u64)
    ensures
        w.acked(to) <= w.sent.len(),
    decreases w.sent.len(),
{
    if !(w.sent.len() == 0 || to < w.sent[0]) {
        lemma_acked_bound(InflightsView { sent: w.sent.skip(1), size: w.size }, to);
    }
}

proof fn lemma_acked_step(w: InflightsView, to: u64, i: int)
    requires
        0 <= i <= w.sent.len(),
        forall|j: int| 0 <= j < i ==> w.sent[j] <= to,
    ensures
        w.acked(to) == i + (InflightsView { sent: w.sent.skip(i), size: w.size }).acked(to),
    decreases i,
{
    if i == 0 {
        assert(w.sent.skip(0) =~= w.sent);
    } else {
        let rest = InflightsView { sent: w.sent.skip(1), size: w.size };
        assert forall|j: int| 0 <= j < i - 1 implies rest.sent[j] <= to by {
            assert(rest.sent[j] == w.sent[j + 1]);
        }
        lemma_acked_step(rest, to, i - 1);
        assert(rest.sent.skip(i - 1) =~= w.sent.skip(i));
    }
}

impl View for Inflights {
    type V = InflightsView;

    closed spec fn view(&self) -> InflightsView {
        InflightsView { sent: self.buffer@, size: self.size as nat }
    }
}

impl Inflights {
    /// The window holds no more than it can.
    pub open spec fn wf(&self) -> bool {
        self@.sent.len() <= self@.size
    }

    /// An empty window for `cap` appends.
    pub fn new(cap: usize) -> (r: Inflights)
        ensures
            r@ == (InflightsView { sent: Seq::<u64>::empty(), size: cap as nat }),
            r.wf(),
    {
        Inflights { buffer: Vec::new(), size: cap }
    }

    /// `true` iff no further append may be sent.
    pub fn full(&self) -> (r: bool)
        ensures
            r == self@.full(),
    {
        self.buffer.len() == self.size
    }

    /// How many appends are on their way.
    pub fn count(&self) -> (r: usize)
        ensures
            r == self@.sent.len(),
    {
        self.buffer.len()
    }

    /// Records an append that was sent.
    pub fn add(&mut self, inflight: u64)
        requires
            old(self).wf(),
            !old(self)@.full(),
        ensures
            final(self)@ == old(self)@.add(inflight),
            final(self).wf(),
    {
        self.buffer.push(inflight);
    }

    /// Lets go of every append up to `to`.
    pub fn free_to(&mut self, to: u64)
        requires
            old(self).wf(),
        ensures
            final(self)@ == old(self)@.free_to(to),
            final(self).wf(),
    {
        let mut i: usize = 0;
        while i < self.buffer.len() && self.buffer[i] <= to
            invariant
                i <= self.buffer@.len(),
                self.buffer@ == old(self).buffer@,
                forall|j: int| 0 <= j < i ==> self.buffer@[j] <= to,
            decreases self.buffer@.len() - i,
        {
            i += 1;
        }
        proof {
            lemma_acked_step(old(self)@, to, i as int);
        }
        let rest = self.buffer.split_off(i);
        self.buffer = rest;
        assert(self.buffer@ =~= old(self).buffer@.skip(i as int));
    }

    /// Lets go of the oldest append.
    pub fn free_first_one(&mut self)
        requires
            old(self).wf(),
        ensures
            final(self)@ == old(self)@.free_first_one(),
            final(self).wf(),
    {
        if self.buffer.len() > 0 {
            let first: u64 = self.buffer[0];
            self.free_to(first);
        }
    }

    /// Empties the window.
    pub fn reset(&mut self)
        ensures
            final(self)@ == old(self)@.reset(),
            final(self).wf(),
    {
        self.buffer = Vec::new();
    }
}

/// The leader's record of one follower.
#[derive(Debug)]
pub struct Progress {
    /// The highest index known to be on the follower.
    pub matched: u64,
    /// The index of the next entry to send.
    pub next_idx: u64,
    pub state: ProgressState,
    /// In `Probe`: an append was sent and the next one waits.
    pub paused: bool,
    /// In `Snapshot`: the index of the snapshot on its way.
    pub pending_snapshot: u64,
    /// The follower was heard from since the last check.
    pub recent_active: bool,
    pub ins: Inflights,
}

/// A record as a mathematical value.
pub struct ProgressView {
    pub matched: u64,
    pub next_idx: u64,
    pub state: ProgressState,
    pub paused: bool,
    pub pending_snapshot: u64,
    pub recent_active: bool,
    pub ins: InflightsView,
}

impl ProgressView {
    /// The record of a follower of which nothing is known but where to start.
    pub open spec fn fresh(next_idx: u64, ins_size: nat) -> ProgressView {
        ProgressView {
            matched: 0,
            next_idx,
            state: ProgressState::Probe,
            paused: false,
            pending_snapshot: 0,
            recent_active: false,
            ins: InflightsView { sent: Seq::<u64>::empty(), size: ins_size },
        }
    }

    /// `matched` is below `next_idx`, the window is within its size, and the indices
    /// leave room for the next one.
    pub open spec fn wf(self) -> bool {
        &&& self.matched < self.next_idx
        &&& self.matched < u64::MAX
        &&& self.pending_snapshot < u64::MAX
        &&& self.ins.sent.len() <= self.ins.size
    }

    pub open spec fn reset_state(self, state: ProgressState) -> ProgressView {
        ProgressView { paused: false, pending_snapshot: 0, state, ins: self.ins.reset(), ..self }
    }

    pub open spec fn become_probe(self) -> ProgressView {
        if self.state == ProgressState::Snapshot {
            let next: u64 = if self.matched >= self.pending_snapshot {
                (self.matched + 1) as u64
            } else {
                (self.pending_snapshot + 1) as u64
            };
            ProgressView { next_idx: next, ..self.reset_state(ProgressState::Probe) }
        } else {
            ProgressView {
                next_idx: (self.matched + 1) as u64,
                ..self.reset_state(ProgressState::Probe)
            }
        }
    }

    pub open spec fn become_replicate(self) -> ProgressView {
        ProgressView {
            next_idx: (self.matched + 1) as u64,
            ..self.reset_state(ProgressState::Replicate)
        }
    }

    pub open spec fn become_snapshot(self, snapshot_idx: u64) -> ProgressView {
        ProgressView {
            pending_snapshot: snapshot_idx,
            ..self.reset_state(ProgressState::Snapshot)
        }
    }

    /// The acknowledgement `n` tells something new.
    pub open spec fn updates(self, n: u64) -> bool {
        self.matched < n
    }

    pub open spec fn maybe_update(self, n: u64) -> ProgressView {
        ProgressView {
            matched: if self.matched < n {
                n
            } else {
                self.matched
            },
            paused: if self.matched < n {
                false
            } else {
                self.paused
            },
            next_idx: if self.next_idx < n + 1 {
                (n + 1) as u64
            } else {
                self.next_idx
            },
            ..self
        }
    }

    pub open spec fn optimistic_update(self, n: u64) -> ProgressView {
        ProgressView { next_idx: (n + 1) as u64, ..self }
    }

    /// The rejection of the append behind `rejected` is not stale.
    pub open spec fn decrements(self, rejected: u64) -> bool {
        if self.state == ProgressState::Replicate {
            rejected > self.matched
        } else {
            self.next_idx - 1 == rejected
        }
    }

    /// The record after the rejection of the append behind `rejected` by a follower whose
    /// last index is `last`. In `Replicate` the next entry to send is the one behind
    /// `matched`. Else it is `rejected`, or the one behind `last` if that is earlier, and
    /// never one that is known to match.
    pub open spec fn maybe_decr_to(self, rejected: u64, last: u64) -> ProgressView {
        if !self.decrements(rejected) {
            self
        } else if self.state == ProgressState::Replicate {
            ProgressView { next_idx: (self.matched + 1) as u64, ..self }
        } else {
            let lower: int = if rejected <= last + 1 {
                rejected as int
            } else {
                last + 1
            };
            ProgressView {
                next_idx: if lower < self.matched + 1 {
                    (self.matched + 1) as u64
                } else {
                    lower as u64
                },
                paused: false,
                ..self
            }
        }
    }

    pub open spec fn is_paused(self) -> bool {
        match self.state {
            ProgressState::Probe => self.paused,
            ProgressState::Replicate => self.ins.full(),
            ProgressState::Snapshot => true,
        }
    }

    pub open spec fn maybe_snapshot_abort(self) -> bool {
        self.state == ProgressState::Snapshot && self.matched >= self.pending_snapshot
    }
}

impl View for Progress {
    type V = ProgressView;

    open spec fn view(&self) -> ProgressView {
        ProgressView {
            matched: self.matched,
            next_idx: self.next_idx,
            state: self.state,
            paused: self.paused,
            pending_snapshot: self.pending_snapshot,
            recent_active: self.recent_active,
            ins: self.ins@,
        }
    }
}

/// The record of a follower of which nothing is known but where to start.
pub fn new_progress(next_idx: u64, ins_size: usize) -> (r: Progress)
    ensures
        r@ == ProgressView::fresh(next_idx, ins_size as nat),
{
    Progress {
        matched: 0,
        next_idx,
        state: ProgressState::Probe,
        paused: false,
        pending_snapshot: 0,
        recent_active: false,
        ins: Inflights::new(ins_size),
    }
}

impl Progress {
    fn reset_state(&mut self, state: ProgressState)
        ensures
            final(self)@ == old(self)@.reset_state(state),
    {
        self.paused = false;
        self.pending_snapshot = 0;
        self.state = state;
        self.ins.reset();
    }

    /// Goes to `Probe`. After a snapshot the next entry to send is the one behind it.
    pub fn become_probe(&mut self)
        requires
            old(self).matched < u64::MAX,
            old(self).pending_snapshot < u64::MAX,
        ensures
            final(self)@ == old(self)@.become_probe(),
    {
        if self.state == ProgressState::Snapshot {
            let pending_snapshot: u64 = self.pending_snapshot;
            self.reset_state(ProgressState::Probe);
            self.next_idx = if self.matched >= pending_snapshot {
                self.matched + 1
            } else {
                pending_snapshot + 1
            };
        } else {
            self.reset_state(ProgressState::Probe);
            self.next_idx = self.matched + 1;
        }
    }

    /// Goes to `Replicate`.
    pub fn become_replicate(&mut self)
        requires
            old(self).matched < u64::MAX,
        ensures
            final(self)@ == old(self)@.become_replicate(),
    {
        self.reset_state(ProgressState::Replicate);
        self.next_idx = self.matched + 1;
    }

    /// Goes to `Snapshot`, with the snapshot at `snapshot_idx` on its way.
    pub fn become_snapshot(&mut self, snapshot_idx: u64)
        ensures
            final(self)@ == old(self)@.become_snapshot(snapshot_idx),
    {
        self.reset_state(ProgressState::Snapshot);
        self.pending_snapshot = snapshot_idx;
    }

    /// Takes note that the follower has everything up to `n`. Returns `false` if that was
    /// known already.
    pub fn maybe_update(&mut self, n: u64) -> (r: bool)
        requires
            n < u64::MAX,
        ensures
            r == old(self)@.updates(n),
            final(self)@ == old(self)@.maybe_update(n),
    {
        let mut updated = false;
        if self.matched < n {
            self.matched = n;
            updated = true;
            self.resume();
        }
        if self.next_idx < n + 1 {
            self.next_idx = n + 1;
        }
        updated
    }

    /// Takes an append up to `n` for received.
    pub fn optimistic_update(&mut self, n: u64)
        requires
            n < u64::MAX,
        ensures
            final(self)@ == old(self)@.optimistic_update(n),
    {
        self.next_idx = n + 1;
    }

    /// Steps back after the follower rejected the append behind `rejected`; `last` is the
    /// follower's last index. Returns `false`, and changes nothing, if the rejection is stale.
    pub fn maybe_decr_to(&mut self, rejected: u64, last: u64) -> (r: bool)
        requires
            old(self).matched < u64::MAX,
        ensures
            r == old(self)@.decrements(rejected),
            final(self)@ == old(self)@.maybe_decr_to(rejected, last),
    {
        if self.state == ProgressState::Replicate {
            if rejected <= self.matched {
                return false;
            }
            self.next_idx = self.matched + 1;
            return true;
        }
        if self.next_idx == 0 || self.next_idx - 1 != rejected {
            return false;
        }
        let lower: u64 = if last == u64::MAX || rejected <= last + 1 {
            rejected
        } else {
            last + 1
        };
        self.next_idx = if lower < self.matched + 1 {
            self.matched + 1
        } else {
            lower
        };
        self.resume();
        true
    }

    /// Holds back the next append.
    pub fn pause(&mut self)
        ensures
            final(self)@ == (ProgressView { paused: true, ..old(self)@ }),
    {
        self.paused = true;
    }

    /// Lets the next append go.
    pub fn resume(&mut self)
        ensures
            final(self)@ == (ProgressView { paused: false, ..old(self)@ }),
    {
        self.paused = false;
    }

    /// `true` iff nothing may be sent to the follower now.
    pub fn is_paused(&self) -> (r: bool)
        ensures
            r == self@.is_paused(),
    {
        match self.state {
            ProgressState::Probe => self.paused,
            ProgressState::Replicate => self.ins.full(),
            ProgressState::Snapshot => true,
        }
    }

    /// Forgets the snapshot on its way.
    pub fn snapshot_failure(&mut self)
        ensures
            final(self)@ == (ProgressView { pending_snapshot: 0, ..old(self)@ }),
    {
        self.pending_snapshot = 0;
    }

    /// `true` iff the follower has caught up with the snapshot on its way, so that it is
    /// no longer needed.
    pub fn maybe_snapshot_abort(&self) -> (r: bool)
        ensures
            r == self@.maybe_snapshot_abort(),
    {
        self.state == ProgressState::Snapshot && self.matched >= self.pending_snapshot
    }
}

/// What the leader is to do once it has taken note of a member's message.
pub struct Hints {
    /// Send the member what it needs next.
    pub send_append: bool,
    /// Nothing could be sent to the member before the message came.
    pub old_paused: bool,
    /// The member holds more than before: see what may be committed.
    pub maybe_commit: bool,
}

impl Hints {
    pub open spec fn none() -> Hints {
        Hints { send_append: false, old_paused: false, maybe_commit: false }
    }
}

impl ProgressView {
    /// The record after an append with `ents` was sent to the member. An empty append
    /// changes nothing. In `Replicate` the last entry sent is on its way and the next
    /// append starts behind it; otherwise the member is to answer before the next append.
    pub open spec fn after_append(self, ents: Seq<EntryView>) -> ProgressView {
        if ents.len() == 0 {
            self
        } else if self.state == ProgressState::Replicate {
            ProgressView {
                ins: self.ins.add(ents.last().index),
                ..self.optimistic_update(ents.last().index)
            }
        } else {
            ProgressView { paused: true, ..self }
        }
    }

    /// The record after the member has answered an append, and what the leader is to do.
    /// A rejection that is not stale moves `next_idx` back and the member to `Probe`. An
    /// acceptance that tells something new moves `matched` forward, the member from
    /// `Probe` to `Replicate`, or out of `Snapshot` if it has caught up, and lets go of
    /// the acknowledged appends.
    pub open spec fn on_append_response(self, reject: bool, index: u64, hint: u64) -> (
        ProgressView,
        Hints,
    ) {
        let pr = ProgressView { recent_active: true, ..self };
        if reject {
            if pr.decrements(index) {
                let back = pr.maybe_decr_to(index, hint);
                (
                    if back.state == ProgressState::Replicate {
                        back.become_probe()
                    } else {
                        back
                    },
                    Hints { send_append: true, ..Hints::none() },
                )
            } else {
                (pr, Hints::none())
            }
        } else if !pr.updates(index) {
            (pr, Hints { old_paused: pr.is_paused(), ..Hints::none() })
        } else {
            let up = pr.maybe_update(index);
            (
                match up.state {
                    ProgressState::Probe => up.become_replicate(),
                    ProgressState::Snapshot => if up.maybe_snapshot_abort() {
                        up.become_probe()
                    } else {
                        up
                    },
                    ProgressState::Replicate => ProgressView { ins: up.ins.free_to(index), ..up },
                },
                Hints { send_append: false, old_paused: pr.is_paused(), maybe_commit: true },
            )
        }
    }

    /// The record after the member has answered a heartbeat: it was heard from, the next
    /// append may go, and a full window gives one place free.
    pub open spec fn on_heartbeat_response(self) -> ProgressView {
        let pr = ProgressView { recent_active: true, paused: false, ..self };
        if pr.state == ProgressState::Replicate && pr.ins.full() {
            ProgressView { ins: pr.ins.free_first_one(), ..pr }
        } else {
            pr
        }
    }

    /// The record after word of how the snapshot fared: back to `Probe`, behind the
    /// snapshot if it arrived, and nothing more is sent until the member is heard from.
    pub open spec fn on_snapshot_status(self, reject: bool) -> ProgressView {
        if self.state != ProgressState::Snapshot {
            self
        } else {
            let probing = if reject {
                (ProgressView { pending_snapshot: 0, ..self }).become_probe()
            } else {
                self.become_probe()
            };
            ProgressView { paused: true, ..probing }
        }
    }

    /// The record after a message to the member could not be delivered: an append is
    /// likely lost, so a member in `Replicate` goes back to `Probe`.
    pub open spec fn on_unreachable(self) -> ProgressView {
        if self.state == ProgressState::Replicate {
            self.become_probe()
        } else {
            self
        }
    }
}

} // verus!
