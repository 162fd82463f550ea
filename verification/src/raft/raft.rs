//! The replication state machine of one peer.

use crate::raft::errors::{Error, Result};
use crate::raft::message::{
    copy_ids, duplicate_entries, entries_view, messages_view, new_message, Entry, EntryType,
    EntryView, HardState, Message, MessageType, MessageView, Snapshot, SnapshotView,
};
use crate::raft::model::{
    count_active, count_below, count_matched, granted, has_voted, quorum_index_from, RaftView,
};
use crate::raft::progress::{new_progress, Hints, Progress, ProgressState, ProgressView};
use crate::raft::raft_log::{lemma_fit_bounds, RaftLog, RaftLogView};
use rand::Rng;
use vstd::prelude::*;

verus! {

/// The role of a peer.
#[derive(Debug, PartialEq, Eq, Clone, Copy, Structural)]
pub enum StateRole {
    Follower,
    Candidate,
    Leader,
}

impl Default for StateRole {
    fn default() -> (r: StateRole)
        ensures
            r == StateRole::Follower,
    {
        StateRole::Follower
    }
}

/// The id that stands for "no peer".
pub const INVALID_ID: u64 = 0;

/// What a peer has kept from before it starts: its hard state, its latest snapshot, whose
/// members are the group, and the entries behind the snapshot.
#[derive(Debug)]
pub struct MemStorage {
    pub hard_state: HardState,
    pub snapshot: Snapshot,
    pub entries: Vec<Entry>,
}

impl MemStorage {
    /// The storage of a peer that has seen nothing.
    pub fn new() -> (r: MemStorage)
        ensures
            r.hard_state == (HardState { term: 0, vote: 0, commit: 0 }),
            r.snapshot@ == SnapshotView::empty(),
            r.entries@.len() == 0,
    {
        MemStorage { hard_state: HardState::new(), snapshot: Snapshot::new(), entries: Vec::new() }
    }

    /// The log that the storage holds.
    pub open spec fn log(&self) -> RaftLogView {
        RaftLogView {
            entries: entries_view(self.entries@),
            snapshot: self.snapshot@,
            committed: self.snapshot@.index,
            applied: self.snapshot@.index,
        }
    }
}

/// The parameters to start a peer with.
#[derive(Debug)]
pub struct Config {
    /// The id of the peer; not 0.
    pub id: u64,
    /// The ids of all members, the peer included. Set only to start a new group: a
    /// snapshot in the storage names the members itself.
    pub peers: Vec<u64>,
    /// Ticks without word from a leader before a follower stands for election. Above
    /// `heartbeat_tick`.
    pub election_tick: usize,
    /// Ticks between the heartbeats of a leader.
    pub heartbeat_tick: usize,
    /// What the peer has kept from before.
    pub storage: MemStorage,
    /// The last position that the application has applied: set on restart only.
    pub applied: u64,
    /// The most bytes of entries in one append.
    pub max_size_per_msg: u64,
    /// The most appends on their way to one follower.
    pub max_inflight_msgs: usize,
    /// Whether a leader steps down when it has not heard from a quorum for an election
    /// timeout.
    pub check_quorum: bool,
}

impl Config {
    /// The rules that a configuration must keep.
    pub open spec fn valid(&self) -> bool {
        &&& self.id != INVALID_ID
        &&& self.heartbeat_tick > 0
        &&& self.election_tick > self.heartbeat_tick
        &&& self.max_inflight_msgs > 0
    }

    /// Checks the rules, in the order in which `valid` lists them. The error names the
    /// first that is broken.
    pub fn validate(&self) -> (r: Result<()>)
        ensures
            self.valid() <==> r is Ok,
            self.id == INVALID_ID ==> (r matches Err(Error::ConfigInvalid(s)) && s@
                == "invalid node id"@),
            self.id != INVALID_ID && self.heartbeat_tick == 0 ==> (r matches Err(
                Error::ConfigInvalid(s),
            ) && s@ == "heartbeat tick must greater than 0"@),
            self.id != INVALID_ID && self.heartbeat_tick > 0 && self.election_tick
                <= self.heartbeat_tick ==> (r matches Err(Error::ConfigInvalid(s)) && s@
                == "election tick must be greater than heartbeat tick"@),
            self.id != INVALID_ID && self.heartbeat_tick > 0 && self.election_tick
                > self.heartbeat_tick && self.max_inflight_msgs == 0 ==> (r matches Err(
                Error::ConfigInvalid(s),
            ) && s@ == "max inflight messages must be greater than 0"@),
    {
        if self.id == INVALID_ID {
            return Err(Error::ConfigInvalid("invalid node id".to_owned()));
        }
        if self.heartbeat_tick == 0 {
            return Err(Error::ConfigInvalid("heartbeat tick must greater than 0".to_owned()));
        }
        if self.election_tick <= self.heartbeat_tick {
            return Err(
                Error::ConfigInvalid(
                    "election tick must be greater than heartbeat tick".to_owned(),
                ),
            );
        }
        if self.max_inflight_msgs == 0 {
            return Err(
                Error::ConfigInvalid("max inflight messages must be greater than 0".to_owned()),
            );
        }
        Ok(())
    }
}

/// The state that need not be kept across restarts.
#[derive(Debug, PartialEq, Eq, Clone, Copy, Structural)]
pub struct SoftState {
    pub lead: u64,
    pub raft_state: StateRole,
}

/// The records of the members as mathematical values, by ascending id.
pub open spec fn prs_view(prs: Seq<(u64, Progress)>) -> Seq<(u64, ProgressView)> {
    Seq::new(prs.len(), |i: int| (prs[i].0, prs[i].1@))
}

proof fn lemma_count_below(prs: Seq<(u64, ProgressView)>, id: u64, i: int)
    requires
        0 <= i <= prs.len(),
        forall|a: int, b: int| 0 <= a < b < prs.len() ==> (#[trigger] prs[a]).0 < (#[trigger] prs[b]).0,
        forall|j: int| 0 <= j < i ==> (#[trigger] prs[j]).0 < id,
        forall|j: int| i <= j < prs.len() ==> (#[trigger] prs[j]).0 >= id,
    ensures
        count_below(prs, id) == i,
    decreases prs.len(),
{
    if prs.len() > 0 {
        let shorter = prs.drop_last();
        if i == prs.len() {
            lemma_count_below(shorter, id, i - 1);
        } else {
            lemma_count_below(shorter, id, i);
        }
    }
}

/// A peer of a replicated group.
#[derive(Debug)]
pub struct Raft {
    pub hs: HardState,
    pub id: u64,
    /// The log.
    pub raft_log: RaftLog,
    pub max_inflight: usize,
    pub max_msg_size: u64,
    /// The record of every member, by ascending id.
    pub prs: Vec<(u64, Progress)>,
    pub state: StateRole,
    /// Who has answered the request for votes, and how.
    pub votes: Vec<(u64, bool)>,
    /// The outbox: what the peer wants sent.
    pub msgs: Vec<Message>,
    /// The id of the leader.
    pub lead: u64,
    /// A change of membership is in the log and not yet applied: no second one is taken.
    pub pending_conf: bool,
    /// Ticks since the timer was last set back.
    pub election_elapsed: usize,
    /// Ticks since the last heartbeat; only a leader counts them.
    pub heartbeat_elapsed: usize,
    pub check_quorum: bool,
    pub heartbeat_timeout: usize,
    pub election_timeout: usize,
    /// The election timeout of the running countdown: `election_timeout` plus a random
    /// number of ticks below `election_timeout`.
    pub randomized_election_timeout: usize,
}

impl View for Raft {
    type V = RaftView;

    open spec fn view(&self) -> RaftView {
        RaftView {
            hs: self.hs,
            id: self.id,
            log: self.raft_log@,
            max_inflight: self.max_inflight,
            max_msg_size: self.max_msg_size,
            prs: prs_view(self.prs@),
            state: self.state,
            votes: self.votes@,
            msgs: messages_view(self.msgs@),
            lead: self.lead,
            pending_conf: self.pending_conf,
            election_elapsed: self.election_elapsed,
            heartbeat_elapsed: self.heartbeat_elapsed,
            check_quorum: self.check_quorum,
            heartbeat_timeout: self.heartbeat_timeout,
            election_timeout: self.election_timeout,
            randomized_election_timeout: self.randomized_election_timeout,
        }
    }
}

impl Raft {
    pub fn soft_state(&self) -> (r: SoftState)
        ensures
            r == (SoftState { lead: self.lead, raft_state: self.state }),
    {
        SoftState { lead: self.lead, raft_state: self.state }
    }

    pub fn hard_state(&self) -> (r: HardState)
        ensures
            r == self.hs,
    {
        self.hs
    }

    fn quorum(&self) -> (r: usize)
        ensures
            r == self@.quorum(),
    {
        self.prs.len() / 2 + 1
    }

    /// The ids of the members, ascending.
    pub fn nodes(&self) -> (r: Vec<u64>)
        ensures
            r@ == self@.nodes(),
    {
        let mut nodes: Vec<u64> = Vec::with_capacity(self.prs.len());
        let mut i: usize = 0;
        while i < self.prs.len()
            invariant
                i <= self.prs@.len(),
                nodes@.len() == i,
                forall|j: int| 0 <= j < i ==> nodes@[j] == self.prs@[j].0,
            decreases self.prs@.len() - i,
        {
            nodes.push(self.prs[i].0);
            i += 1;
        }
        assert(nodes@ =~= self@.nodes());
        nodes
    }

    fn get_term(&self) -> (r: u64)
        ensures
            r == self@.term(),
    {
        self.hs.term
    }

    /// The place of the member `id`, if it is one.
    fn find(&self, id: u64) -> (r: Option<usize>)
        requires
            self@.ids_sorted(),
        ensures
            match r {
                Some(i) => i < self.prs@.len() && self.prs@[i as int].0 == id && self@.has_peer(id)
                    && self@.pos(id) == i,
                None => !self@.has_peer(id),
            },
    {
        let mut i: usize = 0;
        while i < self.prs.len()
            invariant
                i <= self.prs@.len(),
                self@.ids_sorted(),
                forall|j: int| 0 <= j < i ==> (#[trigger] self@.prs[j]).0 != id,
            decreases self.prs@.len() - i,
        {
            if self.prs[i].0 == id {
                proof {
                    assert(self@.prs[i as int].0 == id);
                    let j = self@.pos(id);
                    if j < i {
                        assert(self@.prs[j].0 < self@.prs[i as int].0);
                    } else if j > i {
                        assert(self@.prs[i as int].0 < self@.prs[j].0);
                    }
                }
                return Some(i);
            }
            i += 1;
        }
        None
    }

    /// `true` iff the peer is a member and so may stand for election.
    fn promotable(&self) -> (r: bool)
        requires
            self@.ids_sorted(),
        ensures
            r == self@.promotable(),
    {
        self.find(self.id).is_some()
    }

    /// Puts `m` into the outbox, signed and, unless it is a proposal, stamped with the
    /// term.
    fn send(&mut self, m: Message)
        ensures
            final(self)@ == old(self)@.send(m@),
    {
        let mut m = m;
        m.from = self.id;
        if m.msg_type != MessageType::MsgPropose {
            m.term = self.get_term();
        }
        self.msgs.push(m);
        assert(self@.msgs =~= old(self)@.send(m@).msgs);
    }

    #[verifier::loop_isolation(false)]
    fn reset(&mut self, term: u64)
        requires
            old(self)@.wf(),
            old(self)@.log.last_term() <= term,
        ensures
            final(self)@ == old(self)@.reset(term),
            final(self)@.wf(),
    {
        if self.get_term() != term {
            self.hs.term = term;
            self.hs.vote = INVALID_ID;
        }
        self.lead = INVALID_ID;
        self.election_elapsed = 0;
        self.heartbeat_elapsed = 0;
        self.votes = Vec::new();
        let last_index: u64 = self.raft_log.last_index();
        let max_inflight: usize = self.max_inflight;
        let self_id: u64 = self.id;
        let n: usize = self.prs.len();
        let mut i: usize = 0;
        let ghost pre = *self;
        while i < n
            invariant
                i <= n,
                *self == (Raft { prs: self.prs, ..pre }),
                n == self.prs@.len(),
                n == old(self).prs@.len(),
                last_index == old(self)@.log.last_index(),
                max_inflight == old(self).max_inflight,
                self_id == old(self).id,
                last_index < u64::MAX,
                forall|j: int| 0 <= j < n ==> (#[trigger] self.prs@[j]).0 == old(self).prs@[j].0,
                forall|j: int|
                    0 <= j < i ==> (#[trigger] self.prs@[j]).1@ == old(self)@.fresh_prs()[j].1,
            decreases n - i,
        {
            let id: u64 = self.prs[i].0;
            let mut p = new_progress(last_index + 1, max_inflight);
            if id == self_id {
                p.matched = last_index;
            }
            self.prs[i] = (id, p);
            i += 1;
        }
        self.pending_conf = false;
        assert(self@.prs =~= old(self)@.fresh_prs());
        assert(self@.votes =~= Seq::<(u64, bool)>::empty());
    }

    /// Makes the peer a follower of `lead` in `term`.
    pub fn become_follower(&mut self, term: u64, lead: u64)
        requires
            old(self)@.wf(),
            old(self)@.log.last_term() <= term,
        ensures
            final(self)@ == old(self)@.become_follower(term, lead),
            final(self)@.wf(),
    {
        self.reset(term);
        self.lead = lead;
        self.state = StateRole::Follower;
    }

    /// Makes the peer a candidate in the next term, with its own vote.
    pub fn become_candidate(&mut self)
        requires
            old(self)@.wf(),
            old(self).state != StateRole::Leader,
            old(self).hs.term < u64::MAX,
        ensures
            final(self)@ == old(self)@.become_candidate(),
            final(self)@.wf(),
    {
        let term: u64 = self.get_term() + 1;
        self.reset(term);
        let id: u64 = self.id;
        self.hs.vote = id;
        self.state = StateRole::Candidate;
    }

    fn set_progress(&mut self, id: u64, matched: u64, next_idx: u64)
        requires
            old(self)@.wf(),
            matched < next_idx,
        ensures
            final(self)@ == old(self)@.set_progress(id, matched, next_idx),
            final(self)@.wf(),
            final(self)@.has_peer(id),
    {
        let mut p = new_progress(next_idx, self.max_inflight);
        p.matched = matched;
        match self.find(id) {
            Some(i) => {
                self.prs[i] = (id, p);
                assert(self@.prs =~= old(self)@.set_progress(id, matched, next_idx).prs);
                assert(self@.prs[i as int].0 == id);
            },
            None => {
                let mut at: usize = 0;
                while at < self.prs.len() && self.prs[at].0 < id
                    invariant
                        at <= self.prs@.len(),
                        self.prs == old(self).prs,
                        forall|j: int| 0 <= j < at ==> (#[trigger] self@.prs[j]).0 < id,
                    decreases self.prs@.len() - at,
                {
                    at += 1;
                }
                proof {
                    assert forall|j: int| at <= j < self@.prs.len() implies (
                    #[trigger] self@.prs[j]).0 >= id by {
                        if j > at {
                            assert(self@.prs[at as int].0 < self@.prs[j].0);
                        }
                    }
                    assert forall|j: int| at <= j < self@.prs.len() implies (
                    #[trigger] self@.prs[j]).0 > id by {
                        assert(self@.prs[j].0 != id);
                    }
                    lemma_count_below(self@.prs, id, at as int);
                }
                self.prs.insert(at, (id, p));
                proof {
                    assert(self@.prs =~= old(self)@.prs.insert(at as int, (id, p@)));
                    assert(self@.prs[at as int].0 == id);
                    assert forall|a: int, b: int| 0 <= a < b < self@.prs.len() implies (
                    #[trigger] self@.prs[a]).0 < (#[trigger] self@.prs[b]).0 by {
                        let a0 = if a < at {
                            a
                        } else {
                            a - 1
                        };
                        let b0 = if b < at {
                            b
                        } else {
                            b - 1
                        };
                        if a != at && b != at {
                            assert(old(self)@.prs[a0].0 < old(self)@.prs[b0].0);
                        } else if a == at {
                            assert(old(self)@.prs[b0].0 > id);
                        } else {
                            assert(old(self)@.prs[a0].0 < id);
                        }
                    }
                    assert forall|j: int| 0 <= j < self@.prs.len() implies (
                    #[trigger] self@.prs[j]).1.wf() && self@.prs[j].1.ins.size
                        == self@.max_inflight by {
                        if j < at {
                            assert(self@.prs[j] == old(self)@.prs[j]);
                        } else if j > at {
                            assert(self@.prs[j] == old(self)@.prs[j - 1]);
                        }
                    }
                }
            },
        }
    }

    fn del_progress(&mut self, id: u64)
        requires
            old(self)@.wf(),
        ensures
            final(self)@ == old(self)@.del_progress(id),
            final(self)@.wf(),
            !final(self)@.has_peer(id),
    {
        match self.find(id) {
            Some(i) => {
                self.prs.remove(i);
                proof {
                    assert(self@.prs =~= old(self)@.prs.remove(i as int));
                    assert forall|j: int| 0 <= j < self@.prs.len() implies (
                    #[trigger] self@.prs[j]) == old(self)@.prs[if j < i {
                        j
                    } else {
                        j + 1
                    }] by {}
                    assert forall|a: int, b: int| 0 <= a < b < self@.prs.len() implies (
                    #[trigger] self@.prs[a]).0 < (#[trigger] self@.prs[b]).0 by {
                        let a1 = if a < i {
                            a
                        } else {
                            a + 1
                        };
                        let b1 = if b < i {
                            b
                        } else {
                            b + 1
                        };
                        assert(old(self)@.prs[a1].0 < old(self)@.prs[b1].0);
                    }
                    if self@.has_peer(id) {
                        let j = self@.pos(id);
                        let j1 = if j < i {
                            j
                        } else {
                            j + 1
                        };
                        assert(old(self)@.prs[j1].0 == id);
                        if j1 < i {
                            assert(old(self)@.prs[j1].0 < old(self)@.prs[i as int].0);
                        } else {
                            assert(old(self)@.prs[i as int].0 < old(self)@.prs[j1].0);
                        }
                    }
                }
            },
            None => {},
        }
    }

    /// Makes `id` a member; nothing changes if it is one. The pending change of
    /// membership is done with.
    pub fn add_node(&mut self, id: u64)
        requires
            old(self)@.wf(),
        ensures
            final(self)@ == old(self)@.add_node(id),
            final(self)@.wf(),
    {
        if self.find(id).is_some() {
            return ;
        }
        let last_index: u64 = self.raft_log.last_index();
        self.set_progress(id, 0, last_index + 1);
        self.pending_conf = false;
    }

    /// Ends the membership of `id`. The pending change of membership is done with.
    pub fn remove_node(&mut self, id: u64)
        requires
            old(self)@.wf(),
        ensures
            final(self)@ == old(self)@.remove_node(id),
            final(self)@.wf(),
    {
        self.del_progress(id);
        self.pending_conf = false;
    }

    /// Takes the pending change of membership for done.
    pub fn reset_pending_conf(&mut self)
        ensures
            final(self)@ == (RaftView { pending_conf: false, ..old(self)@ }),
    {
        self.pending_conf = false;
    }
}

proof fn lemma_with_pr(r: RaftView, i: int, p: ProgressView)
    requires
        r.ids_sorted(),
        0 <= i < r.prs.len(),
    ensures
        r.has_peer(r.prs[i].0),
        r.pos(r.prs[i].0) == i,
        r.pr(r.prs[i].0) == r.prs[i].1,
        r.with_pr(r.prs[i].0, p).prs == r.prs.update(i, (r.prs[i].0, p)),
        r.with_pr(r.prs[i].0, p).ids_sorted(),
{
    let id = r.prs[i].0;
    let j = r.pos(id);
    if j < i {
        assert(r.prs[j].0 < r.prs[i].0);
    } else if j > i {
        assert(r.prs[i].0 < r.prs[j].0);
    }
    let r2 = r.with_pr(id, p);
    assert forall|a: int, b: int| 0 <= a < b < r2.prs.len() implies (#[trigger] r2.prs[a]).0 < (
    #[trigger] r2.prs[b]).0 by {
        assert(r.prs[a].0 < r.prs[b].0);
    }
}

proof fn lemma_with_pr_wf(r: RaftView, i: int, p: ProgressView)
    requires
        r.wf(),
        0 <= i < r.prs.len(),
        p.wf(),
        p.ins.size == r.max_inflight,
    ensures
        r.with_pr(r.prs[i].0, p).wf(),
        r.with_pr(r.prs[i].0, p).nodes() == r.nodes(),
{
    lemma_with_pr(r, i, p);
    let r2 = r.with_pr(r.prs[i].0, p);
    assert forall|j: int| 0 <= j < r2.prs.len() implies (#[trigger] r2.prs[j]).1.wf()
        && r2.prs[j].1.ins.size == r2.max_inflight by {
        if j != i {
            assert(r2.prs[j] == r.prs[j]);
        }
    }
    assert(r2.nodes() =~= r.nodes());
}

proof fn lemma_count_matched_take(prs: Seq<(u64, ProgressView)>, n: u64, j: int)
    requires
        0 <= j < prs.len(),
    ensures
        count_matched(prs.take(j + 1), n) == count_matched(prs.take(j), n) + if prs[j].1.matched
            >= n {
            1nat
        } else {
            0nat
        },
        count_matched(prs.take(j), n) <= j,
    decreases j,
{
    assert(prs.take(j + 1).drop_last() =~= prs.take(j));
    if j > 0 {
        lemma_count_matched_take(prs, n, j - 1);
    }
}

proof fn lemma_granted_push(votes: Seq<(u64, bool)>, v: (u64, bool))
    ensures
        granted(votes.push(v)) == granted(votes) + if v.1 {
            1nat
        } else {
            0nat
        },
        granted(votes) <= votes.len(),
    decreases votes.len(),
{
    assert(votes.push(v).drop_last() =~= votes);
    if votes.len() > 0 {
        lemma_granted_push(votes.drop_last(), votes.last());
        assert(votes.drop_last().push(votes.last()) =~= votes);
    }
}

impl Raft {
    /// Makes `m` the snapshot message for the member `to` and notes that the member waits
    /// for the snapshot. Returns `false`, with nothing changed, where there is nothing to
    /// send: the member was not heard from, or the log holds no snapshot.
    fn prepare_send_snapshot(&mut self, m: &mut Message, to: u64) -> (r: bool)
        requires
            old(self)@.wf(),
            old(self)@.has_peer(to),
        ensures
            r == (old(self)@.pr(to).recent_active && old(self)@.log.snapshot.index != 0),
            !r ==> final(self)@ == old(self)@ && final(m)@ == old(m)@,
            r ==> final(self)@ == old(self)@.with_pr(
                to,
                old(self)@.pr(to).become_snapshot(old(self)@.log.snapshot.index),
            ) && final(m)@ == (MessageView {
                msg_type: MessageType::MsgSnapshot,
                snapshot: old(self)@.log.snapshot,
                ..old(m)@
            }),
            final(self)@.wf(),
            final(self)@.nodes() == old(self)@.nodes(),
            final(self)@.log == old(self)@.log,
    {
        let i: usize = self.find(to).unwrap();
        proof {
            lemma_with_pr(self@, i as int, self@.prs[i as int].1);
        }
        if !self.prs[i].1.recent_active || self.raft_log.snapshot.metadata.index == 0 {
            return false;
        }
        m.msg_type = MessageType::MsgSnapshot;
        let snapshot = self.raft_log.snapshot();
        let sindex: u64 = snapshot.metadata.index;
        m.snapshot = snapshot;
        let ghost before = self@;
        self.prs[i].1.become_snapshot(sindex);
        proof {
            let p = before.pr(to).become_snapshot(sindex);
            assert(self@.prs =~= before.prs.update(i as int, (to, p)));
            lemma_with_pr_wf(before, i as int, p);
        }
        true
    }

    /// Makes `m` the append for the member `to` with the entries `ents`, which follow the
    /// position of the term `term`, and notes what was sent.
    fn prepare_send_entries(&mut self, m: &mut Message, to: u64, term: u64, ents: Vec<Entry>)
        requires
            old(self)@.wf(),
            old(self)@.has_peer(to),
            !old(self)@.pr(to).is_paused(),
            ents@.len() > 0 ==> old(self)@.pr(to).next_idx <= entries_view(ents@).last().index
                < u64::MAX,
        ensures
            final(self)@ == old(self)@.with_pr(
                to,
                old(self)@.pr(to).after_append(entries_view(ents@)),
            ),
            final(m)@ == (MessageView {
                msg_type: MessageType::MsgAppend,
                index: (old(self)@.pr(to).next_idx - 1) as u64,
                log_term: term,
                entries: entries_view(ents@),
                commit: old(self)@.log.committed,
                ..old(m)@
            }),
            final(self)@.wf(),
            final(self)@.nodes() == old(self)@.nodes(),
            final(self)@.log == old(self)@.log,
    {
        let i: usize = self.find(to).unwrap();
        proof {
            lemma_with_pr(self@, i as int, self@.prs[i as int].1);
        }
        m.msg_type = MessageType::MsgAppend;
        m.index = self.prs[i].1.next_idx - 1;
        m.log_term = term;
        m.commit = self.raft_log.committed;
        let ghost before = self@;
        let ghost evs = entries_view(ents@);
        let n: usize = ents.len();
        if n != 0 {
            assert(evs[n - 1] == ents@[n - 1]@);
            let last_sent: u64 = ents[n - 1].index;
            match self.prs[i].1.state {
                ProgressState::Replicate => {
                    self.prs[i].1.optimistic_update(last_sent);
                    self.prs[i].1.ins.add(last_sent);
                },
                _ => {
                    self.prs[i].1.pause();
                },
            }
        }
        m.entries = ents;
        proof {
            let p = before.pr(to).after_append(evs);
            assert(self@.prs =~= before.prs.update(i as int, (to, p)));
            lemma_with_pr_wf(before, i as int, p);
        }
    }

    /// Sends to the member `to` what it needs next: entries, or the snapshot where the
    /// entries are gone.
    fn send_append(&mut self, to: u64)
        requires
            old(self)@.wf(),
            old(self)@.has_peer(to),
        ensures
            final(self)@ == old(self)@.send_append(to),
            final(self)@.wf(),
            final(self)@.nodes() == old(self)@.nodes(),
            final(self)@.log == old(self)@.log,
    {
        let i: usize = self.find(to).unwrap();
        proof {
            lemma_with_pr(self@, i as int, self@.prs[i as int].1);
        }
        if self.prs[i].1.is_paused() {
            return ;
        }
        let next_idx: u64 = self.prs[i].1.next_idx;
        let first: u64 = self.raft_log.first_index();
        let last: u64 = self.raft_log.last_index();
        let mut m = Message::new();
        m.to = to;
        if next_idx < first || next_idx - 1 > last {
            if !self.prepare_send_snapshot(&mut m, to) {
                return ;
            }
        } else {
            let term: u64 = match self.raft_log.term(next_idx - 1) {
                Ok(t) => t,
                Err(_) => 0,
            };
            let ents: Vec<Entry> = match self.raft_log.entries(next_idx, self.max_msg_size) {
                Ok(v) => v,
                Err(_) => Vec::new(),
            };
            proof {
                let evs = entries_view(ents@);
                let n = evs.len() as int;
                if n != 0 {
                    let rest = self@.log.entries.skip(next_idx - self@.log.offset() - 1);
                    lemma_fit_bounds(rest, self@.max_msg_size, 1);
                    assert(evs[n - 1] == rest[n - 1]);
                    assert(rest[n - 1] == self@.log.entries[next_idx - self@.log.offset() - 1 + n
                        - 1]);
                }
            }
            self.prepare_send_entries(&mut m, to, term, ents);
        }
        self.send(m);
    }

    /// Sends a heartbeat to the member `to`.
    fn send_heartbeat(&mut self, to: u64)
        requires
            old(self)@.wf(),
            old(self)@.has_peer(to),
        ensures
            final(self)@ == old(self)@.send_heartbeat(to),
            final(self)@.wf(),
    {
        let i: usize = self.find(to).unwrap();
        let mut m = Message::new();
        m.to = to;
        m.msg_type = MessageType::MsgHeartbeat;
        let matched: u64 = self.prs[i].1.matched;
        let committed: u64 = self.raft_log.committed;
        m.commit = if matched < committed {
            matched
        } else {
            committed
        };
        self.send(m);
    }

    /// Sends to every other member what it needs next.
    fn bcast_append(&mut self)
        requires
            old(self)@.wf(),
        ensures
            final(self)@ == old(self)@.bcast_append(),
            final(self)@.wf(),
            final(self)@.nodes() == old(self)@.nodes(),
            final(self)@.log == old(self)@.log,
    {
        let n: usize = self.prs.len();
        let mut i: usize = 0;
        while i < n
            invariant
                i <= n,
                n == self@.prs.len(),
                self@.wf(),
                self@.nodes() == old(self)@.nodes(),
                self@.log == old(self)@.log,
                old(self)@.bcast_append() == self@.bcast_append_from(i as int, n as int),
            decreases n - i,
        {
            let id: u64 = self.prs[i].0;
            assert(self@.prs[i as int].0 == id);
            if id != self.id {
                let ghost before = self@;
                self.send_append(id);
                proof {
                    assert(self@.nodes().len() == before.nodes().len());
                }
            }
            i += 1;
        }
    }

    /// Sends a heartbeat to every other member, and lets appends to it go again.
    fn bcast_heartbeat(&mut self)
        requires
            old(self)@.wf(),
        ensures
            final(self)@ == old(self)@.bcast_heartbeat(),
            final(self)@.wf(),
            final(self)@.nodes() == old(self)@.nodes(),
            final(self)@.log == old(self)@.log,
    {
        let n: usize = self.prs.len();
        let mut i: usize = 0;
        while i < n
            invariant
                i <= n,
                n == self@.prs.len(),
                self@.wf(),
                self@.nodes() == old(self)@.nodes(),
                self@.log == old(self)@.log,
                old(self)@.bcast_heartbeat() == self@.bcast_heartbeat_from(i as int, n as int),
            decreases n - i,
        {
            let id: u64 = self.prs[i].0;
            assert(self@.prs[i as int].0 == id);
            if id != self.id {
                self.send_heartbeat(id);
                let ghost sent = self@;
                proof {
                    lemma_with_pr(sent, i as int, sent.prs[i as int].1);
                }
                self.prs[i].1.resume();
                proof {
                    let p = ProgressView { paused: false, ..sent.pr(id) };
                    assert(self@.prs =~= sent.prs.update(i as int, (id, p)));
                    lemma_with_pr_wf(sent, i as int, p);
                }
            }
            i += 1;
        }
    }

    /// Commits what the commit rule allows. Returns whether the commit index moved.
    fn maybe_commit(&mut self) -> (r: bool)
        requires
            old(self)@.wf(),
        ensures
            r == old(self)@.may_commit(),
            final(self)@ == old(self)@.maybe_commit(),
            final(self)@.wf(),
            old(self)@.log.committed_kept_in(final(self)@.log),
    {
        let n: usize = self.prs.len();
        let quorum: usize = self.quorum();
        let mut best: u64 = 0;
        let mut i: usize = n;
        while i > 0
            invariant
                i <= n,
                n == self@.prs.len(),
                quorum == self@.quorum(),
                *self == *old(self),
                best == quorum_index_from(self@.prs, quorum as nat, i as int),
            decreases i,
        {
            i -= 1;
            let own: u64 = self.prs[i].1.matched;
            assert(self@.prs[i as int].1.matched == own);
            let mut count: usize = 0;
            let mut j: usize = 0;
            while j < n
                invariant
                    j <= n,
                    n == self@.prs.len(),
                    *self == *old(self),
                    count == count_matched(self@.prs.take(j as int), own),
                    count <= j,
                decreases n - j,
            {
                proof {
                    lemma_count_matched_take(self@.prs, own, j as int);
                }
                assert(self@.prs[j as int].1.matched == self.prs@[j as int].1.matched);
                if self.prs[j].1.matched >= own {
                    count += 1;
                }
                j += 1;
            }
            assert(self@.prs.take(n as int) =~= self@.prs);
            if count >= quorum && own > best {
                best = own;
            }
        }
        let term: u64 = self.get_term();
        self.raft_log.maybe_commit(best, term)
    }

    /// Puts `es` at the end of the log as entries of the current term, and commits what
    /// may be committed.
    fn append_entry(&mut self, es: Vec<Entry>)
        requires
            old(self)@.wf(),
            old(self)@.log.last_index() + es@.len() < u64::MAX,
        ensures
            final(self)@ == old(self)@.append_entry(entries_view(es@)),
            final(self)@.wf(),
            final(self)@.nodes() == old(self)@.nodes(),
            old(self)@.log.committed_kept_in(final(self)@.log),
    {
        let mut es = es;
        let li: u64 = self.raft_log.last_index();
        let term: u64 = self.get_term();
        let n: usize = es.len();
        let ghost evs = entries_view(es@);
        let mut i: usize = 0;
        while i < n
            invariant
                i <= n,
                n == es@.len(),
                li + n < u64::MAX,
                evs.len() == n,
                forall|j: int|
                    0 <= j < i ==> (#[trigger] es@[j])@ == (EntryView {
                        term,
                        index: (li + 1 + j) as u64,
                        ..evs[j]
                    }),
                forall|j: int| i <= j < n ==> (#[trigger] es@[j])@ == evs[j],
            decreases n - i,
        {
            es[i].term = term;
            es[i].index = li + 1 + i as u64;
            i += 1;
        }
        let ghost stamped = old(self)@.stamped(evs);
        proof {
            assert(entries_view(es@) =~= stamped);
            if n > 0 {
                assert(stamped[0].index == li + 1);
                assert(self@.log.term_at(li as int) == Some(self@.log.last_term()));
            }
        }
        self.raft_log.append(es.as_slice());
        let id: u64 = self.id;
        let last_index: u64 = self.raft_log.last_index();
        let ghost r = self@;
        proof {
            assert(r.log.last_term() <= r.hs.term) by {
                if n > 0 {
                    assert(r.log.entries.last() == stamped[n - 1]);
                }
            }
        }
        match self.find(id) {
            Some(at) => {
                proof {
                    lemma_with_pr(r, at as int, r.prs[at as int].1);
                }
                self.prs[at].1.maybe_update(last_index);
                proof {
                    let p = r.pr(id).maybe_update(last_index);
                    assert(self@.prs =~= r.prs.update(at as int, (id, p)));
                    lemma_with_pr_wf(r, at as int, p);
                }
            },
            None => {},
        }
        let ghost noted = self@;
        self.maybe_commit();
        proof {
            assert(self@.nodes() =~= noted.nodes());
            assert forall|k: int|
                old(self)@.log.has(k) && k <= old(self)@.log.committed && self@.log.has(
                    k,
                ) implies (#[trigger] self@.log.entry_at(k)) == old(self)@.log.entry_at(k) by {
                assert(noted.log.entry_at(k) == old(self)@.log.entry_at(k));
            }
        }
    }

    /// `true` iff a change of membership stands in the log behind the commit index.
    fn has_uncommitted_conf(&self) -> (r: bool)
        requires
            self@.wf(),
        ensures
            r == self@.has_uncommitted_conf(),
    {
        let n: usize = self.raft_log.entries.len();
        let mut k: usize = 0;
        while k < n
            invariant
                k <= n,
                n == self@.log.entries.len(),
                forall|j: int|
                    0 <= j < k ==> !((#[trigger] self@.log.entries[j]).index > self@.log.committed
                        && self@.log.entries[j].entry_type == EntryType::EntryConfChange),
            decreases n - k,
        {
            let e = &self.raft_log.entries[k];
            assert(self@.log.entries[k as int] == e@);
            if e.index > self.raft_log.committed && e.entry_type == EntryType::EntryConfChange {
                return true;
            }
            k += 1;
        }
        false
    }

    /// Makes the peer the leader of its term.
    fn become_leader(&mut self)
        requires
            old(self)@.wf(),
            old(self).state != StateRole::Follower,
            old(self)@.log.last_index() + 1 < u64::MAX,
        ensures
            final(self)@ == old(self)@.become_leader(),
            final(self)@.wf(),
            final(self)@.nodes() == old(self)@.nodes(),
            old(self)@.log.committed_kept_in(final(self)@.log),
    {
        let term: u64 = self.get_term();
        self.reset(term);
        self.lead = self.id;
        self.state = StateRole::Leader;
        self.pending_conf = self.has_uncommitted_conf();
        let mut es: Vec<Entry> = Vec::new();
        es.push(Entry::new());
        proof {
            assert(entries_view(es@) =~= seq![
                EntryView {
                    entry_type: EntryType::EntryNormal,
                    term: 0,
                    index: 0,
                    data: Seq::<u8>::empty(),
                },
            ]);
            assert(self@.nodes() =~= old(self)@.nodes());
        }
        self.append_entry(es);
    }

    /// Records the vote `v` of `id`, unless `id` has voted, and counts the votes granted.
    fn poll(&mut self, id: u64, v: bool) -> (r: usize)
        ensures
            final(self)@ == old(self)@.poll(id, v),
            r == granted(final(self)@.votes),
    {
        let n: usize = self.votes.len();
        let mut seen: bool = false;
        let mut count: usize = 0;
        let mut i: usize = 0;
        while i < n
            invariant
                i <= n,
                n == self.votes@.len(),
                *self == *old(self),
                seen == has_voted(self.votes@.take(i as int), id),
                count == granted(self.votes@.take(i as int)),
                count <= i,
            decreases n - i,
        {
            proof {
                let t = self.votes@.take(i as int);
                let t2 = self.votes@.take(i + 1);
                assert(t2 =~= t.push(self.votes@[i as int]));
                lemma_granted_push(t, self.votes@[i as int]);
                if has_voted(t, id) {
                    let w = choose|w: int| 0 <= w < t.len() && (#[trigger] t[w]).0 == id;
                    assert(t2[w].0 == id);
                }
                if has_voted(t2, id) && self.votes@[i as int].0 != id {
                    let w = choose|w: int| 0 <= w < t2.len() && (#[trigger] t2[w]).0 == id;
                    assert(t[w].0 == id);
                }
                if self.votes@[i as int].0 == id {
                    assert(t2[i as int].0 == id);
                }
            }
            if self.votes[i].0 == id {
                seen = true;
            }
            if self.votes[i].1 {
                count += 1;
            }
            i += 1;
        }
        assert(self.votes@.take(n as int) =~= self.votes@);
        if !seen {
            proof {
                lemma_granted_push(self.votes@, (id, v));
            }
            self.votes.push((id, v));
            let total: usize = self.votes.len();
            if v {
                count += 1;
            }
        }
        count
    }

    /// Stands for election.
    fn campaign(&mut self)
        requires
            old(self)@.wf(),
            old(self).state != StateRole::Leader,
            old(self).hs.term < u64::MAX,
            old(self)@.log.last_index() + 1 < u64::MAX,
        ensures
            final(self)@ == old(self)@.campaign(),
            final(self)@.wf(),
            final(self)@.nodes() == old(self)@.nodes(),
            old(self)@.log.committed_kept_in(final(self)@.log),
    {
        self.become_candidate();
        let id: u64 = self.id;
        let poll_res: usize = self.poll(id, true);
        proof {
            assert(self@.nodes() =~= old(self)@.nodes());
        }
        if self.quorum() == poll_res {
            self.become_leader();
            return ;
        }
        let ghost c = self@;
        let n: usize = self.prs.len();
        let mut i: usize = 0;
        while i < n
            invariant
                i <= n,
                n == self@.prs.len(),
                self@.wf(),
                self@.nodes() == old(self)@.nodes(),
                self@.log == c.log,
                c.log == old(self)@.log,
                c.request_votes_from(0, n as int) == self@.request_votes_from(i as int, n as int),
            decreases n - i,
        {
            let to: u64 = self.prs[i].0;
            assert(self@.prs[i as int].0 == to);
            if to != self.id {
                let mut m = new_message(to, MessageType::MsgRequestVote, None);
                m.index = self.raft_log.last_index();
                m.log_term = self.raft_log.last_term();
                let ghost before = self@;
                self.send(m);
                proof {
                    assert(self@.nodes() =~= before.nodes());
                }
            }
            i += 1;
        }
    }
}

/// `rand::rngs::ThreadRng`: the random number generator of a thread.
#[verifier::external_type_specification]
#[verifier::external_body]
pub struct ExThreadRng(rand::rngs::ThreadRng);

/// `rand::thread_rng`: the generator of the calling thread. Nothing is said of it.
#[verifier::external_body]
fn thread_generator() -> (rng: rand::rngs::ThreadRng) {
    rand::thread_rng()
}

/// `rand::Rng::gen_range` with the bounds 0 and `high`: a number from 0 up to, not
/// including, `high`. Which one is up to chance, so nothing more is said of it. It panics
/// where `high` is 0, which `requires` leaves out.
#[verifier::external_body]
fn random_below(rng: &mut rand::rngs::ThreadRng, high: usize) -> (r: usize)
    requires
        high > 0,
    ensures
        r < high,
{
    rng.gen_range(0, high)
}

proof fn lemma_kept_transitive(a: RaftLogView, b: RaftLogView, c: RaftLogView)
    requires
        a.wf(),
        b.wf(),
        a.committed_kept_in(b),
        b.committed_kept_in(c),
        b.offset() <= c.offset(),
        a.offset() <= b.offset(),
    ensures
        a.committed_kept_in(c),
{
    assert forall|i: int| a.has(i) && i <= a.committed && c.has(i) implies (#[trigger] c.entry_at(
        i,
    )) == a.entry_at(i) by {
        assert(b.has(i));
        assert(b.entry_at(i) == a.entry_at(i));
    }
}

impl Raft {
    fn handle_append_entries(&mut self, m: &Message)
        requires
            old(self)@.wf(),
            m@.entries_follow(),
            !old(self)@.log.conflicts_committed(m@.entries),
            m.term <= old(self).hs.term,
        ensures
            final(self)@ == old(self)@.handle_append_entries(m@),
            final(self)@.wf(),
            old(self)@.log.committed_kept_in(final(self)@.log),
            final(self)@.log.offset() == old(self)@.log.offset(),
    {
        let mut to_send = Message::new();
        to_send.to = m.from;
        to_send.msg_type = MessageType::MsgAppendResponse;
        if m.index < self.hs.commit {
            to_send.index = self.hs.commit;
            self.send(to_send);
            return ;
        }
        match self.raft_log.maybe_append(m.index, m.log_term, m.commit, m.entries.as_slice()) {
            Some(mlast_index) => {
                to_send.index = mlast_index;
                self.send(to_send);
            },
            None => {
                to_send.index = m.index;
                to_send.reject = true;
                to_send.reject_hint = self.raft_log.last_index();
                self.send(to_send);
            },
        }
    }

    fn handle_heartbeat(&mut self, m: &Message)
        requires
            old(self)@.wf(),
            m.commit <= old(self)@.log.last_index(),
        ensures
            final(self)@ == old(self)@.handle_heartbeat(m@),
            final(self)@.wf(),
            old(self)@.log.committed_kept_in(final(self)@.log),
            final(self)@.log.offset() == old(self)@.log.offset(),
    {
        self.raft_log.commit_to(m.commit);
        let mut to_send = Message::new();
        to_send.to = m.from;
        to_send.msg_type = MessageType::MsgHeartbeatResponse;
        self.send(to_send);
    }

    /// Takes the members that `snap` names, unless the log holds what `snap` stands for.
    /// Returns `Some(false)`, with the commit index moved up to the snapshot, where the
    /// log holds its position with its term; `None` where the members were replaced and
    /// the log is still to be restored.
    fn restore_raft(&mut self, snap: &Snapshot) -> (r: Option<bool>)
        requires
            old(self)@.wf(),
            snap@.index < u64::MAX,
            snap@.term <= old(self).hs.term,
            snap@.index > old(self)@.log.committed,
        ensures
            r == if old(self)@.log.match_term(snap@.index, snap@.term) {
                Some(false)
            } else {
                None::<bool>
            },
            r is Some ==> final(self)@ == (RaftView {
                log: old(self)@.log.commit_to(snap@.index),
                ..old(self)@
            }),
            r is None ==> final(self)@ == (RaftView {
                prs: Seq::<(u64, ProgressView)>::empty(),
                ..old(self)@
            }).with_nodes_from(snap@.nodes, 0) && final(self)@.log == old(self)@.log,
            final(self)@.wf(),
            final(self).hs == old(self).hs,
            old(self)@.log.committed_kept_in(final(self)@.log),
            old(self)@.log.offset() == final(self)@.log.offset(),
    {
        if self.raft_log.match_term(snap.metadata.index, snap.metadata.term) {
            self.raft_log.commit_to(snap.metadata.index);
            return Some(false);
        }
        self.prs = Vec::new();
        assert(self@.prs =~= Seq::<(u64, ProgressView)>::empty());
        let ghost cleared = self@;
        let n: usize = snap.metadata.conf_state.nodes.len();
        let mut k: usize = 0;
        while k < n
            invariant
                k <= n,
                n == snap@.nodes.len(),
                self@.wf(),
                self@.log == old(self)@.log,
                self.hs == old(self).hs,
                cleared.with_nodes_from(snap@.nodes, 0) == self@.with_nodes_from(
                    snap@.nodes,
                    k as int,
                ),
            decreases n - k,
        {
            let id: u64 = snap.metadata.conf_state.nodes[k];
            let next_idx: u64 = self.raft_log.last_index() + 1;
            let matched: u64 = if id == self.id {
                next_idx - 1
            } else {
                0
            };
            self.set_progress(id, matched, next_idx);
            k += 1;
        }
        None
    }

    /// Takes the snapshot `snap` if it is ahead of the commit index and the log does not
    /// hold its position with its term. Returns whether it was taken.
    fn restore(&mut self, snap: Snapshot) -> (r: bool)
        requires
            old(self)@.wf(),
            snap@.index < u64::MAX,
            snap@.term <= old(self).hs.term,
        ensures
            r == old(self)@.restores(snap@),
            final(self)@ == old(self)@.restore(snap@),
            final(self)@.wf(),
            old(self)@.log.committed_kept_in(final(self)@.log),
            old(self)@.log.offset() <= final(self)@.log.offset(),
    {
        if snap.metadata.index <= self.raft_log.committed {
            return false;
        }
        if let Some(b) = self.restore_raft(&snap) {
            return b;
        }
        self.raft_log.restore(snap);
        true
    }

    fn handle_snapshot(&mut self, m: Message)
        requires
            old(self)@.wf(),
            m@.snapshot.index < u64::MAX,
            m@.snapshot.term <= old(self).hs.term,
        ensures
            final(self)@ == old(self)@.handle_snapshot(m@),
            final(self)@.wf(),
            old(self)@.log.committed_kept_in(final(self)@.log),
            old(self)@.log.offset() <= final(self)@.log.offset(),
    {
        let from: u64 = m.from;
        let mut to_send = Message::new();
        to_send.to = from;
        to_send.msg_type = MessageType::MsgAppendResponse;
        if self.restore(m.snapshot) {
            to_send.index = self.raft_log.last_index();
        } else {
            to_send.index = self.raft_log.committed;
        }
        self.send(to_send);
    }

    /// Takes note of the answer `m` of a member to an append. Returns what the leader is
    /// to do.
    fn handle_append_response(&mut self, m: &Message) -> (h: Hints)
        requires
            old(self)@.wf(),
            old(self)@.has_peer(m.from),
            m.index < u64::MAX,
        ensures
            final(self)@ == old(self)@.with_pr(
                m.from,
                old(self)@.pr(m.from).on_append_response(m.reject, m.index, m.reject_hint).0,
            ),
            h == old(self)@.pr(m.from).on_append_response(m.reject, m.index, m.reject_hint).1,
            final(self)@.wf(),
            final(self)@.nodes() == old(self)@.nodes(),
            final(self)@.log == old(self)@.log,
    {
        let mut h = Hints { send_append: false, old_paused: false, maybe_commit: false };
        let i: usize = self.find(m.from).unwrap();
        let ghost before = self@;
        let ghost pr = before.pr(m.from);
        proof {
            lemma_with_pr(before, i as int, pr);
        }
        self.prs[i].1.recent_active = true;
        if m.reject {
            if self.prs[i].1.maybe_decr_to(m.index, m.reject_hint) {
                if self.prs[i].1.state == ProgressState::Replicate {
                    self.prs[i].1.become_probe();
                }
                h.send_append = true;
            }
        } else {
            h.old_paused = self.prs[i].1.is_paused();
            if self.prs[i].1.maybe_update(m.index) {
                match self.prs[i].1.state {
                    ProgressState::Probe => {
                        self.prs[i].1.become_replicate();
                    },
                    ProgressState::Snapshot => {
                        if self.prs[i].1.maybe_snapshot_abort() {
                            self.prs[i].1.become_probe();
                        }
                    },
                    ProgressState::Replicate => {
                        self.prs[i].1.ins.free_to(m.index);
                    },
                }
                h.maybe_commit = true;
            }
        }
        proof {
            let (p, hs) = pr.on_append_response(m.reject, m.index, m.reject_hint);
            assert(self@.prs =~= before.prs.update(i as int, (m.from, p)));
            lemma_with_pr_wf(before, i as int, p);
        }
        h
    }

    /// Takes note of what a member reports of a snapshot that was sent to it.
    fn handle_snapshot_status(&mut self, m: &Message)
        requires
            old(self)@.wf(),
            old(self)@.has_peer(m.from),
        ensures
            final(self)@ == old(self)@.with_pr(
                m.from,
                old(self)@.pr(m.from).on_snapshot_status(m.reject),
            ),
            final(self)@.wf(),
            final(self)@.nodes() == old(self)@.nodes(),
            final(self)@.log == old(self)@.log,
    {
        let i: usize = self.find(m.from).unwrap();
        let ghost before = self@;
        let ghost pr = before.pr(m.from);
        proof {
            lemma_with_pr(before, i as int, pr);
        }
        if self.prs[i].1.state == ProgressState::Snapshot {
            if m.reject {
                self.prs[i].1.snapshot_failure();
            }
            self.prs[i].1.become_probe();
            self.prs[i].1.pause();
        }
        proof {
            let p = pr.on_snapshot_status(m.reject);
            assert(self@.prs =~= before.prs.update(i as int, (m.from, p)));
            lemma_with_pr_wf(before, i as int, p);
        }
    }

    /// Takes note of a member's message. Returns what the leader is to do.
    fn check_message_with_progress(&mut self, m: &Message) -> (h: Hints)
        requires
            old(self)@.wf(),
            m.index < u64::MAX,
        ensures
            (final(self)@, h) == old(self)@.check_message_with_progress(m@),
            final(self)@.wf(),
            final(self)@.nodes() == old(self)@.nodes(),
            final(self)@.log == old(self)@.log,
    {
        let mut h = Hints { send_append: false, old_paused: false, maybe_commit: false };
        let i: usize = match self.find(m.from) {
            Some(i) => i,
            None => {
                return h;
            },
        };
        let ghost before = self@;
        let ghost pr = before.pr(m.from);
        proof {
            lemma_with_pr(before, i as int, pr);
        }
        match m.msg_type {
            MessageType::MsgAppendResponse => {
                h = self.handle_append_response(m);
            },
            MessageType::MsgHeartbeatResponse => {
                self.prs[i].1.recent_active = true;
                self.prs[i].1.resume();
                if self.prs[i].1.state == ProgressState::Replicate && self.prs[i].1.ins.full() {
                    self.prs[i].1.ins.free_first_one();
                }
                if self.prs[i].1.matched < self.raft_log.last_index() {
                    h.send_append = true;
                }
                proof {
                    let p = pr.on_heartbeat_response();
                    assert(self@.prs =~= before.prs.update(i as int, (m.from, p)));
                    lemma_with_pr_wf(before, i as int, p);
                }
            },
            MessageType::MsgSnapStatus => {
                self.handle_snapshot_status(m);
            },
            MessageType::MsgUnreachable => {
                if self.prs[i].1.state == ProgressState::Replicate {
                    self.prs[i].1.become_probe();
                }
                proof {
                    let p = pr.on_unreachable();
                    assert(self@.prs =~= before.prs.update(i as int, (m.from, p)));
                    lemma_with_pr_wf(before, i as int, p);
                }
            },
            _ => {},
        }
        h
    }

    /// `true` iff a quorum of the members was heard from since the last check. The marks
    /// of the other members are wiped for the next check.
    fn check_quorum_active(&mut self) -> (r: bool)
        requires
            old(self)@.wf(),
        ensures
            r == old(self)@.quorum_active(),
            final(self)@ == old(self)@.unmarked(),
            final(self)@.wf(),
            final(self)@.nodes() == old(self)@.nodes(),
    {
        let mut act: usize = 0;
        let self_id: u64 = self.id;
        let n: usize = self.prs.len();
        let mut i: usize = 0;
        let ghost pre = *self;
        while i < n
            invariant
                i <= n,
                n == old(self)@.prs.len(),
                n == self@.prs.len(),
                *self == (Raft { prs: self.prs, ..pre }),
                pre == *old(self),
                self_id == self.id,
                act == count_active(old(self)@.prs.take(i as int), self_id),
                act <= i,
                forall|j: int|
                    0 <= j < i ==> (#[trigger] self@.prs[j]) == if old(self)@.prs[j].0 == self_id {
                        old(self)@.prs[j]
                    } else {
                        (
                            old(self)@.prs[j].0,
                            ProgressView { recent_active: false, ..old(self)@.prs[j].1 },
                        )
                    },
                forall|j: int| i <= j < n ==> (#[trigger] self@.prs[j]) == old(self)@.prs[j],
            decreases n - i,
        {
            proof {
                assert(old(self)@.prs.take(i + 1).drop_last() =~= old(self)@.prs.take(i as int));
                assert(self@.prs[i as int] == old(self)@.prs[i as int]);
            }
            let ghost before = self@.prs;
            if self.prs[i].0 == self_id {
                act += 1;
            } else {
                if self.prs[i].1.recent_active {
                    act += 1;
                }
                self.prs[i].1.recent_active = false;
                proof {
                    assert(self@.prs =~= before.update(
                        i as int,
                        (before[i as int].0, ProgressView { recent_active: false, ..before[i as int].1 }),
                    ));
                }
            }
            i += 1;
        }
        proof {
            assert(old(self)@.prs.take(n as int) =~= old(self)@.prs);
            assert(self@.prs =~= old(self)@.unmarked().prs);
            assert(self@.nodes() =~= old(self)@.nodes());
        }
        act >= self.quorum()
    }

    /// Takes a proposal as leader: the entries go to the end of the log and out to the
    /// members. A leader that is no member drops it.
    fn propose(&mut self, m: Message)
        requires
            old(self)@.wf(),
            old(self)@.log.last_index() + 1 + m@.entries.len() < u64::MAX,
        ensures
            final(self)@ == old(self)@.propose(m@),
            final(self)@.wf(),
            old(self)@.log.committed_kept_in(final(self)@.log),
            old(self)@.log.offset() == final(self)@.log.offset(),
    {
        if !self.promotable() {
            return ;
        }
        let mut es: Vec<Entry> = m.entries;
        let ghost evs = entries_view(es@);
        let n: usize = es.len();
        let mut pending: bool = self.pending_conf;
        let mut k: usize = 0;
        assert(entries_view(es@).take(0) + RaftView::taken_from(evs, pending, 0).0
            =~= RaftView::taken_from(evs, pending, 0).0);
        while k < n
            invariant
                k <= n,
                n == es@.len(),
                n == evs.len(),
                forall|j: int| k <= j < n ==> (#[trigger] es@[j])@ == evs[j],
                RaftView::taken_from(evs, old(self).pending_conf, 0).0 == entries_view(es@).take(
                    k as int,
                ) + RaftView::taken_from(evs, pending, k as int).0,
                RaftView::taken_from(evs, old(self).pending_conf, 0).1 == RaftView::taken_from(
                    evs,
                    pending,
                    k as int,
                ).1,
            decreases n - k,
        {
            let ghost prev = entries_view(es@);
            let ghost was = pending;
            if es[k].entry_type == EntryType::EntryConfChange {
                if pending {
                    es[k] = Entry::new();
                }
                pending = true;
            }
            k += 1;
            proof {
                let now = entries_view(es@);
                assert(prev[k - 1] == evs[k - 1]);
                assert(now.take(k as int) =~= prev.take(k - 1).push(now[k - 1]));
                let rest = RaftView::taken_from(evs, pending, k as int).0;
                assert(prev.take(k - 1) + (seq![now[k - 1]] + rest) =~= now.take(k as int) + rest);
            }
        }
        proof {
            assert(entries_view(es@).take(n as int) =~= entries_view(es@));
            assert(entries_view(es@) + Seq::<EntryView>::empty() =~= entries_view(es@));
        }
        self.pending_conf = pending;
        self.append_entry(es);
        self.bcast_append();
    }

    /// Takes a member's word on its progress as leader, commits what a quorum now holds,
    /// and sends on.
    fn member_message(&mut self, m: &Message)
        requires
            old(self)@.wf(),
            m.index < u64::MAX,
        ensures
            final(self)@ == old(self)@.member_message(m@),
            final(self)@.wf(),
            old(self)@.log.committed_kept_in(final(self)@.log),
            old(self)@.log.offset() == final(self)@.log.offset(),
    {
        let h = self.check_message_with_progress(m);
        let ghost noted = self@;
        let mut send_append: bool = h.send_append;
        if h.maybe_commit {
            if self.maybe_commit() {
                self.bcast_append();
            } else if h.old_paused {
                send_append = true;
            }
        }
        if send_append {
            proof {
                assert(self@.nodes() == old(self)@.nodes());
                lemma_nodes_peer(old(self)@, self@, m.from);
                lemma_hints_need_peer(old(self)@, m@);
            }
            self.send_append(m.from);
        }
    }

    fn step_leader(&mut self, m: Message)
        requires
            old(self)@.wf(),
            old(self)@.accepts(m@),
        ensures
            final(self)@ == old(self)@.step_leader(m@),
            final(self)@.wf(),
            old(self)@.log.committed_kept_in(final(self)@.log),
            old(self)@.log.offset() <= final(self)@.log.offset(),
    {
        match m.msg_type {
            MessageType::MsgBeat => {
                self.bcast_heartbeat();
            },
            MessageType::MsgCheckQuorum => {
                if !self.check_quorum_active() {
                    let term: u64 = self.get_term();
                    self.become_follower(term, INVALID_ID);
                }
            },
            MessageType::MsgPropose => {
                self.propose(m);
            },
            MessageType::MsgRequestVote => {
                let mut to_sent = Message::new();
                to_sent.to = m.to;
                to_sent.msg_type = MessageType::MsgRequestVoteResponse;
                to_sent.reject = true;
                self.send(to_sent);
            },
            _ => {
                self.member_message(&m);
            },
        }
    }

    fn step_candidate(&mut self, m: Message)
        requires
            old(self)@.wf(),
            old(self)@.accepts(m@),
            old(self).state == StateRole::Candidate,
            m.term <= old(self).hs.term,
        ensures
            final(self)@ == old(self)@.step_candidate(m@),
            final(self)@.wf(),
            old(self)@.log.committed_kept_in(final(self)@.log),
            old(self)@.log.offset() <= final(self)@.log.offset(),
    {
        let term: u64 = self.get_term();
        match m.msg_type {
            MessageType::MsgAppend => {
                self.become_follower(term, m.from);
                self.handle_append_entries(&m);
            },
            MessageType::MsgHeartbeat => {
                self.become_follower(term, m.from);
                self.handle_heartbeat(&m);
            },
            MessageType::MsgSnapshot => {
                self.become_follower(term, m.from);
                self.handle_snapshot(m);
            },
            MessageType::MsgRequestVote => {
                let mut to_send = new_message(m.from, MessageType::MsgRequestVoteResponse, None);
                to_send.reject = true;
                self.send(to_send);
            },
            MessageType::MsgRequestVoteResponse => {
                let gr: usize = self.poll(m.from, !m.reject);
                let quorum: usize = self.quorum();
                proof {
                    lemma_granted_push(self@.votes, (0, false));
                }
                if quorum == gr {
                    self.become_leader();
                    self.bcast_append();
                } else if quorum == self.votes.len() - gr {
                    self.become_follower(term, INVALID_ID);
                }
            },
            _ => {},
        }
    }

    fn step_follower(&mut self, m: Message)
        requires
            old(self)@.wf(),
            old(self)@.accepts(m@),
            m.term <= old(self).hs.term,
        ensures
            final(self)@ == old(self)@.step_follower(m@),
            final(self)@.wf(),
            old(self)@.log.committed_kept_in(final(self)@.log),
            old(self)@.log.offset() <= final(self)@.log.offset(),
    {
        match m.msg_type {
            MessageType::MsgPropose => {
                if self.lead == INVALID_ID {
                    return ;
                }
                let mut m = m;
                m.to = self.lead;
                self.send(m);
            },
            MessageType::MsgAppend => {
                self.election_elapsed = 0;
                self.lead = m.from;
                self.handle_append_entries(&m);
            },
            MessageType::MsgHeartbeat => {
                self.election_elapsed = 0;
                self.lead = m.from;
                self.handle_heartbeat(&m);
            },
            MessageType::MsgSnapshot => {
                self.election_elapsed = 0;
                self.handle_snapshot(m);
            },
            MessageType::MsgRequestVote => {
                let t = MessageType::MsgRequestVoteResponse;
                if (self.hs.vote == INVALID_ID || self.hs.vote == m.from)
                    && self.raft_log.is_up_to_date(m.index, m.log_term) {
                    self.election_elapsed = 0;
                    self.hs.vote = m.from;
                    self.send(new_message(m.from, t, None));
                } else {
                    let mut to_send = new_message(m.from, t, None);
                    to_send.reject = true;
                    self.send(to_send);
                }
            },
            _ => {},
        }
    }

    /// `true` iff `step` can take the message.
    pub fn can_step(&self, m: &Message) -> (r: bool)
        requires
            self@.wf(),
        ensures
            r == self@.accepts(m@),
    {
        let last: u64 = self.raft_log.last_index();
        if m.index == u64::MAX {
            return false;
        }
        if m.entries.len() as u64 >= u64::MAX - last - 1 {
            return false;
        }
        match m.msg_type {
            MessageType::MsgHup => self.hs.term < u64::MAX,
            MessageType::MsgPropose => m.entries.len() > 0,
            MessageType::MsgAppend => {
                if !m.entries_follow() {
                    return false;
                }
                let conflict: u64 = self.raft_log.find_conflict(m.entries.as_slice());
                proof {
                    let pos = self@.log.first_conflict(m@.entries, 0);
                    crate::raft::raft_log::lemma_conflict_position(self@.log, m@.entries);
                    if pos < m@.entries.len() {
                        assert(m@.entries[pos].index == m.index + 1 + pos);
                    }
                }
                !(conflict != 0 && conflict <= self.raft_log.committed)
            },
            MessageType::MsgHeartbeat => m.commit <= last,
            MessageType::MsgSnapshot => m.snapshot.metadata.index < u64::MAX && (
            m.snapshot.metadata.term <= m.term || m.snapshot.metadata.term <= self.hs.term),
            _ => true,
        }
    }

    /// Hands the message to the role.
    fn dispatch(&mut self, m: Message)
        requires
            old(self)@.wf(),
            old(self)@.accepts(m@),
            m.term <= old(self).hs.term,
        ensures
            final(self)@ == old(self)@.dispatch(m@),
            final(self)@.wf(),
            old(self)@.log.committed_kept_in(final(self)@.log),
            old(self)@.log.offset() <= final(self)@.log.offset(),
    {
        match self.state {
            StateRole::Candidate => self.step_candidate(m),
            StateRole::Follower => self.step_follower(m),
            StateRole::Leader => self.step_leader(m),
        }
    }

    /// Becomes a follower in the term of `m` if that is a later term.
    fn sync_term(&mut self, m: &Message)
        requires
            old(self)@.wf(),
            old(self)@.accepts(m@),
            m.msg_type != MessageType::MsgHup,
            m.term == 0 || m.term >= old(self).hs.term,
        ensures
            final(self)@ == old(self)@.sync_term(m@),
            final(self)@.wf(),
            final(self)@.log == old(self)@.log,
            final(self)@.accepts(m@),
            m.term <= final(self).hs.term,
    {
        if m.term > self.get_term() {
            let mut lead: u64 = m.from;
            if m.msg_type == MessageType::MsgRequestVote {
                lead = INVALID_ID;
            }
            self.become_follower(m.term, lead);
        }
    }

    /// Stands for election if the peer is a member and not the leader.
    fn hup(&mut self)
        requires
            old(self)@.wf(),
            old(self).hs.term < u64::MAX,
            old(self)@.log.last_index() + 1 < u64::MAX,
        ensures
            final(self)@ == if old(self).state != StateRole::Leader && old(self)@.promotable() {
                old(self)@.campaign().commit_noted()
            } else {
                old(self)@
            },
            final(self)@.wf(),
            old(self)@.log.committed_kept_in(final(self)@.log),
    {
        if self.state != StateRole::Leader && self.promotable() {
            self.campaign();
            let committed: u64 = self.raft_log.committed;
            self.hs.commit = committed;
        }
    }

    /// Takes a message that is not of an earlier term.
    fn take(&mut self, m: Message)
        requires
            old(self)@.wf(),
            old(self)@.accepts(m@),
            m.msg_type != MessageType::MsgHup,
            m.term == 0 || m.term >= old(self).hs.term,
        ensures
            final(self)@ == old(self)@.sync_term(m@).dispatch(m@).commit_noted(),
            final(self)@.wf(),
            old(self)@.log.committed_kept_in(final(self)@.log),
    {
        self.sync_term(&m);
        let ghost synced = self@;
        self.dispatch(m);
        let ghost done = self@;
        let committed: u64 = self.raft_log.committed;
        self.hs.commit = committed;
        assert(self@.log == done.log);
    }

    /// Takes a message.
    pub fn step(&mut self, m: Message) -> (r: Result<()>)
        requires
            old(self)@.wf(),
            old(self)@.accepts(m@),
        ensures
            r is Ok,
            final(self)@ == old(self)@.step(m@),
            final(self)@.wf(),
            old(self)@.log.committed_kept_in(final(self)@.log),
    {
        if m.msg_type == MessageType::MsgHup {
            self.hup();
            return Ok(());
        }
        if m.term != 0 && m.term < self.get_term() {
            return Ok(());
        }
        self.take(m);
        Ok(())
    }
}

proof fn lemma_hints_need_peer(r: RaftView, m: MessageView)
    ensures
        !r.has_peer(m.from) ==> r.check_message_with_progress(m).1 == Hints::none(),
{
}

proof fn lemma_nodes_peer(a: RaftView, b: RaftView, id: u64)
    requires
        a.nodes() == b.nodes(),
    ensures
        a.has_peer(id) == b.has_peer(id),
{
    assert(a.nodes().len() == a.prs.len());
    assert(b.nodes().len() == b.prs.len());
    if a.has_peer(id) {
        let i = a.pos(id);
        assert(a.nodes()[i] == id);
        assert(b.nodes()[i] == b.prs[i].0);
    }
    if b.has_peer(id) {
        let i = b.pos(id);
        assert(b.nodes()[i] == id);
        assert(a.nodes()[i] == a.prs[i].0);
    }
}

impl Config {
    /// The hard state of a peer that has seen nothing.
    pub open spec fn no_state() -> HardState {
        HardState { term: 0, vote: 0, commit: 0 }
    }

    /// The members that the peer starts with: those that the snapshot names or, where it
    /// names none, `peers`.
    pub open spec fn members(&self) -> Seq<u64> {
        if self.storage.snapshot@.nodes.len() > 0 {
            self.storage.snapshot@.nodes
        } else {
            self.peers@
        }
    }

    /// A peer can start from the configuration: it keeps the rules, the members are named
    /// once, the stored log is sound, and the stored commit index and the applied index
    /// lie in the log.
    pub open spec fn startable(&self) -> bool {
        let log = self.storage.log();
        let hs = self.storage.hard_state;
        let committed = if hs != Self::no_state() {
            hs.commit
        } else {
            log.committed
        };
        &&& self.valid()
        &&& self.election_tick <= usize::MAX / 2
        &&& log.wf()
        &&& log.last_index() + 1 < u64::MAX
        &&& log.last_term() <= hs.term
        &&& !(self.peers@.len() > 0 && self.storage.snapshot@.nodes.len() > 0)
        &&& hs != Self::no_state() ==> log.committed <= hs.commit <= log.last_index()
        &&& self.applied > 0 ==> log.applied <= self.applied <= committed
    }
}

impl MemStorage {
    /// `true` iff the log that the storage holds is sound: its entries are numbered from
    /// the snapshot on without a gap, and their terms start at that of the snapshot or
    /// above and never fall.
    pub fn is_sound(&self) -> (r: bool)
        ensures
            r == (self.log().wf() && self.log().last_index() + 1 < u64::MAX),
    {
        let n: usize = self.entries.len();
        let offset: u64 = self.snapshot.metadata.index;
        if offset >= u64::MAX - 1 || n as u64 >= u64::MAX - 1 - offset {
            return false;
        }
        let ghost log = self.log();
        let mut last_term: u64 = self.snapshot.metadata.term;
        let mut k: usize = 0;
        while k < n
            invariant
                k <= n,
                n == self.entries@.len(),
                log == self.log(),
                offset == log.offset(),
                offset + n + 1 < u64::MAX,
                log.snapshot.term <= last_term,
                k == 0 ==> last_term == log.snapshot.term,
                k > 0 ==> last_term == log.entries[k - 1].term,
                forall|j: int| 0 <= j < k ==> (#[trigger] log.entries[j]).index == offset + 1 + j,
                forall|j: int| 0 <= j < k ==> log.snapshot.term <= (#[trigger] log.entries[j]).term,
                forall|i: int, j: int|
                    0 <= i <= j < k ==> (#[trigger] log.entries[i]).term <= (
                    #[trigger] log.entries[j]).term,
            decreases n - k,
        {
            let e = &self.entries[k];
            assert(log.entries[k as int] == e@);
            if e.index != offset + 1 + k as u64 || e.term < last_term {
                proof {
                    if k > 0 {
                        assert(log.entries[k - 1].term == last_term);
                    }
                }
                return false;
            }
            last_term = e.term;
            k += 1;
            assert forall|i: int, j: int| 0 <= i <= j < k implies (#[trigger] log.entries[i]).term
                <= (#[trigger] log.entries[j]).term by {
                if j == k - 1 && i < j {
                    assert(log.entries[i].term <= log.entries[k - 2].term);
                }
            }
        }
        true
    }
}

impl Config {
    /// `true` iff a peer can start from the configuration.
    pub fn can_start(&self) -> (r: bool)
        ensures
            r == self.startable(),
    {
        if self.validate().is_err() || self.election_tick > usize::MAX / 2 {
            return false;
        }
        if !self.storage.is_sound() {
            return false;
        }
        let store = &self.storage;
        let n: usize = store.entries.len();
        let offset: u64 = store.snapshot.metadata.index;
        let last_index: u64 = offset + n as u64;
        let last_term: u64 = if n == 0 {
            store.snapshot.metadata.term
        } else {
            assert(store.log().entries[n - 1] == store.entries@[n - 1]@);
            store.entries[n - 1].term
        };
        let hs = store.hard_state;
        if last_term > hs.term {
            return false;
        }
        if self.peers.len() > 0 && store.snapshot.metadata.conf_state.nodes.len() > 0 {
            return false;
        }
        let loaded: bool = hs != HardState::new();
        if loaded && !(offset <= hs.commit && hs.commit <= last_index) {
            return false;
        }
        let committed: u64 = if loaded {
            hs.commit
        } else {
            offset
        };
        if self.applied > 0 && !(offset <= self.applied && self.applied <= committed) {
            return false;
        }
        true
    }
}

impl Raft {
    /// `true` iff the peer can take a tick.
    pub fn can_tick(&self) -> (r: bool)
        requires
            self@.wf(),
        ensures
            r == self@.can_tick(),
    {
        self.hs.term < u64::MAX && self.raft_log.last_index() < u64::MAX - 1
    }

    /// Takes the term, the vote and the commit index that were stored.
    fn load_state(&mut self, hs: HardState)
        requires
            old(self)@.log.committed <= hs.commit <= old(self)@.log.last_index(),
        ensures
            final(self)@ == (RaftView {
                hs,
                log: RaftLogView { committed: hs.commit, ..old(self)@.log },
                ..old(self)@
            }),
    {
        self.raft_log.committed = hs.commit;
        self.hs = hs;
    }

    /// A peer that starts from `c`.
    pub fn new(c: &Config) -> (r: Raft)
        requires
            c.startable(),
        ensures
            r@ == RaftView::init(*c),
            r@.wf(),
    {
        let store = &c.storage;
        let raft_log = RaftLog::new(
            store.snapshot.duplicate(),
            duplicate_entries(store.entries.as_slice()),
        );
        let peers: Vec<u64> = if store.snapshot.metadata.conf_state.nodes.len() > 0 {
            copy_ids(store.snapshot.metadata.conf_state.nodes.as_slice())
        } else {
            copy_ids(c.peers.as_slice())
        };
        let mut r = Raft {
            hs: HardState::new(),
            id: c.id,
            raft_log,
            max_inflight: c.max_inflight_msgs,
            max_msg_size: c.max_size_per_msg,
            prs: Vec::new(),
            state: StateRole::Follower,
            votes: Vec::new(),
            msgs: Vec::new(),
            lead: INVALID_ID,
            pending_conf: false,
            election_elapsed: 0,
            heartbeat_elapsed: 0,
            check_quorum: c.check_quorum,
            heartbeat_timeout: c.heartbeat_tick,
            election_timeout: c.election_tick,
            randomized_election_timeout: c.election_tick,
        };
        proof {
            assert(r@.prs =~= Seq::<(u64, ProgressView)>::empty());
            assert(r@.msgs =~= Seq::<MessageView>::empty());
            assert(r@.votes =~= Seq::<(u64, bool)>::empty());
        }
        if store.hard_state != HardState::new() {
            r.load_state(store.hard_state);
        }
        if c.applied > 0 {
            r.raft_log.applied = c.applied;
        }
        let ghost base = r@;
        let n: usize = peers.len();
        let mut k: usize = 0;
        while k < n
            invariant
                k <= n,
                n == peers@.len(),
                peers@ == c.members(),
                r@.wf(),
                r@.log == base.log,
                r.hs == base.hs,
                base.with_peers_from(peers@, 0) == r@.with_peers_from(peers@, k as int),
            decreases n - k,
        {
            r.set_progress(peers[k], 0, 1);
            k += 1;
        }
        let term: u64 = r.get_term();
        r.become_follower(term, INVALID_ID);
        r
    }

    /// Replaces the log up to `index`, which the application has applied, by a snapshot
    /// of the application with the state `data` and the members of now.
    pub fn compact(&mut self, index: u64, data: Vec<u8>)
        requires
            old(self)@.wf(),
            old(self)@.log.offset() < index <= old(self)@.log.applied,
        ensures
            final(self)@ == (RaftView {
                log: old(self)@.log.compact(index, old(self)@.nodes(), data@),
                ..old(self)@
            }),
            final(self)@.wf(),
            old(self)@.log.committed_kept_in(final(self)@.log),
    {
        let nodes = self.nodes();
        self.raft_log.compact(index, nodes, data);
        proof {
            if self@.log.entries.len() > 0 {
                assert(self@.log.entries.last() == old(self)@.log.entries.last());
            } else {
                assert(old(self)@.log.entries[index - old(self)@.log.offset() - 1].term <= old(
                    self,
                )@.log.entries.last().term);
            }
        }
    }

    /// The application has applied everything up to `index`.
    pub fn applied_to(&mut self, index: u64)
        requires
            old(self)@.wf(),
            index == 0 || old(self)@.log.applied <= index <= old(self)@.log.committed,
        ensures
            final(self)@ == (RaftView {
                log: RaftLogView {
                    applied: if index == 0 {
                        old(self)@.log.applied
                    } else {
                        index
                    },
                    ..old(self)@.log
                },
                ..old(self)@
            }),
            final(self)@.wf(),
    {
        self.raft_log.applied_to(index);
    }

    /// The log of the peer.
    pub fn get_store(&self) -> (r: &RaftLog)
        ensures
            *r == self.raft_log,
    {
        &self.raft_log
    }

    /// `true` iff the timer is past the election timeout of this countdown.
    fn is_election_timeout(&self) -> (r: bool)
        ensures
            r == (self.election_elapsed > self.randomized_election_timeout),
    {
        self.election_elapsed > self.randomized_election_timeout
    }

    /// One tick of a follower or candidate.
    fn tick_election(&mut self, rand: usize)
        requires
            old(self)@.wf(),
            old(self)@.can_tick(),
            rand < old(self).election_timeout,
        ensures
            final(self)@ == old(self)@.tick_election(rand),
            final(self)@.wf(),
            old(self)@.log.committed_kept_in(final(self)@.log),
    {
        if !self.promotable() {
            self.election_elapsed = 0;
            return ;
        }
        if self.election_elapsed == 0 {
            self.randomized_election_timeout = self.election_timeout + rand;
        }
        self.election_elapsed += 1;
        if self.is_election_timeout() {
            self.election_elapsed = 0;
            let m = new_message(INVALID_ID, MessageType::MsgHup, Some(self.id));
            let _ = self.step(m);
        }
    }

    /// The part of a leader's tick that checks the quorum.
    fn tick_quorum(&mut self)
        requires
            old(self)@.wf(),
            old(self)@.can_tick(),
            old(self).state == StateRole::Leader,
        ensures
            final(self)@ == old(self)@.tick_quorum(),
            final(self)@.wf(),
            final(self)@.can_tick(),
            old(self)@.log.committed_kept_in(final(self)@.log),
            old(self)@.log.offset() == final(self)@.log.offset(),
    {
        self.election_elapsed += 1;
        if self.election_elapsed >= self.election_timeout {
            self.election_elapsed = 0;
            if self.check_quorum {
                let m = new_message(INVALID_ID, MessageType::MsgCheckQuorum, Some(self.id));
                let _ = self.step_leader(m);
                let committed: u64 = self.raft_log.committed;
                self.hs.commit = committed;
            }
        }
    }

    /// The part of a leader's tick that sends heartbeats.
    fn tick_beat(&mut self)
        requires
            old(self)@.wf(),
            old(self)@.can_tick(),
            old(self).state == StateRole::Leader,
        ensures
            final(self)@ == old(self)@.tick_beat(),
            final(self)@.wf(),
            old(self)@.log.committed_kept_in(final(self)@.log),
            old(self)@.log.offset() <= final(self)@.log.offset(),
    {
        self.heartbeat_elapsed += 1;
        if self.heartbeat_elapsed >= self.heartbeat_timeout {
            self.heartbeat_elapsed = 0;
            let m = new_message(INVALID_ID, MessageType::MsgBeat, Some(self.id));
            let _ = self.step_leader(m);
            let committed: u64 = self.raft_log.committed;
            self.hs.commit = committed;
        }
    }

    /// One tick of a leader.
    fn tick_heartbeat(&mut self)
        requires
            old(self)@.wf(),
            old(self)@.can_tick(),
            old(self).state == StateRole::Leader,
        ensures
            final(self)@ == old(self)@.tick_heartbeat(),
            final(self)@.wf(),
            old(self)@.log.committed_kept_in(final(self)@.log),
    {
        self.tick_quorum();
        if self.state != StateRole::Leader {
            return ;
        }
        let ghost mid = self@;
        self.tick_beat();
        proof {
            lemma_kept_transitive(old(self)@.log, mid.log, self@.log);
        }
    }

    /// One tick, with `rand` as the number that chance gave for the election timeout.
    pub fn tick_with(&mut self, rand: usize)
        requires
            old(self)@.wf(),
            old(self)@.can_tick(),
            rand < old(self).election_timeout,
        ensures
            final(self)@ == old(self)@.tick(rand),
            final(self)@.wf(),
            old(self)@.log.committed_kept_in(final(self)@.log),
    {
        match self.state {
            StateRole::Candidate | StateRole::Follower => self.tick_election(rand),
            StateRole::Leader => self.tick_heartbeat(),
        }
    }

    /// One tick of the clock. A follower or candidate that has not heard from a leader for
    /// its election timeout stands for election; a leader sends its heartbeats. The
    /// election timeout of a countdown is `election_timeout` plus a random number of ticks
    /// below `election_timeout`.
    pub fn tick(&mut self)
        requires
            old(self)@.wf(),
            old(self)@.can_tick(),
        ensures
            exists|rand: usize|
                rand < old(self).election_timeout && final(self)@ == #[trigger] old(self)@.tick(
                    rand,
                ),
            final(self)@.wf(),
            old(self)@.log.committed_kept_in(final(self)@.log),
    {
        let mut rng = thread_generator();
        let rand: usize = random_below(&mut rng, self.election_timeout);
        self.tick_with(rand);
    }
}

} // verus!
