//! The replication state machine as mathematics: a peer as a value, and each of its
//! transitions as a function from the peer before to the peer after.

use crate::raft::message::{EntryType, EntryView, HardState, MessageType, MessageView, SnapshotView};
use crate::raft::progress::{Hints, ProgressState, ProgressView};
use crate::raft::raft::{Config, StateRole, INVALID_ID};
use crate::raft::raft_log::RaftLogView;
use vstd::prelude::*;

verus! {

/// The number of votes that were granted.
pub open spec fn granted(votes: Seq<(u64, bool)>) -> nat
    decreases votes.len(),
{
    if votes.len() == 0 {
        0
    } else {
        granted(votes.drop_last()) + if votes.last().1 {
            1nat
        } else {
            0nat
        }
    }
}

/// Somebody with the id `id` has voted.
pub open spec fn has_voted(votes: Seq<(u64, bool)>, id: u64) -> bool {
    exists|i: int| 0 <= i < votes.len() && (#[trigger] votes[i]).0 == id
}

/// The number of members whose log is known to match up to `n` at least.
pub open spec fn count_matched(prs: Seq<(u64, ProgressView)>, n: u64) -> nat
    decreases prs.len(),
{
    if prs.len() == 0 {
        0
    } else {
        count_matched(prs.drop_last(), n) + if prs.last().1.matched >= n {
            1nat
        } else {
            0nat
        }
    }
}

/// The highest of the `matched` values of the members from place `from` on that a quorum
/// of `quorum` members has reached; 0 if there is none.
pub open spec fn quorum_index_from(prs: Seq<(u64, ProgressView)>, quorum: nat, from: int) -> u64
    decreases prs.len() - from,
{
    if from >= prs.len() || from < 0 {
        0
    } else {
        let rest = quorum_index_from(prs, quorum, from + 1);
        let own = prs[from].1.matched;
        if count_matched(prs, own) >= quorum && own > rest {
            own
        } else {
            rest
        }
    }
}

/// The number of members that were heard from since the last check, the peer `id` counted
/// in whatever its record says.
pub open spec fn count_active(prs: Seq<(u64, ProgressView)>, id: u64) -> nat
    decreases prs.len(),
{
    if prs.len() == 0 {
        0
    } else {
        count_active(prs.drop_last(), id) + if prs.last().0 == id || prs.last().1.recent_active {
            1nat
        } else {
            0nat
        }
    }
}

/// The number of records with an id below `id`.
pub open spec fn count_below(prs: Seq<(u64, ProgressView)>, id: u64) -> nat
    decreases prs.len(),
{
    if prs.len() == 0 {
        0
    } else {
        count_below(prs.drop_last(), id) + if prs.last().0 < id {
            1nat
        } else {
            0nat
        }
    }
}

/// A peer as a mathematical value.
pub struct RaftView {
    pub hs: HardState,
    pub id: u64,
    pub log: RaftLogView,
    pub max_inflight: usize,
    pub max_msg_size: u64,
    pub prs: Seq<(u64, ProgressView)>,
    pub state: StateRole,
    pub votes: Seq<(u64, bool)>,
    pub msgs: Seq<MessageView>,
    pub lead: u64,
    pub pending_conf: bool,
    pub election_elapsed: usize,
    pub heartbeat_elapsed: usize,
    pub check_quorum: bool,
    pub heartbeat_timeout: usize,
    pub election_timeout: usize,
    pub randomized_election_timeout: usize,
}

impl RaftView {
    pub open spec fn term(self) -> u64 {
        self.hs.term
    }

    /// The smallest number of members that is more than half.
    pub open spec fn quorum(self) -> nat {
        self.prs.len() / 2 + 1
    }

    /// `id` is a member.
    pub open spec fn has_peer(self, id: u64) -> bool {
        exists|i: int| 0 <= i < self.prs.len() && (#[trigger] self.prs[i]).0 == id
    }

    /// The place of the member `id`.
    pub open spec fn pos(self, id: u64) -> int {
        choose|i: int| 0 <= i < self.prs.len() && (#[trigger] self.prs[i]).0 == id
    }

    /// The record of the member `id`.
    pub open spec fn pr(self, id: u64) -> ProgressView {
        self.prs[self.pos(id)].1
    }

    /// The peer with another record for the member `id`.
    pub open spec fn with_pr(self, id: u64, p: ProgressView) -> RaftView {
        RaftView { prs: self.prs.update(self.pos(id), (id, p)), ..self }
    }

    /// The peer may stand for election: it is a member.
    pub open spec fn promotable(self) -> bool {
        self.has_peer(self.id)
    }

    /// The members are listed by ascending id, none twice.
    pub open spec fn ids_sorted(self) -> bool {
        forall|i: int, j: int|
            0 <= i < j < self.prs.len() ==> (#[trigger] self.prs[i]).0 < (#[trigger] self.prs[j]).0
    }

    /// What holds of a peer between any two calls.
    pub open spec fn wf(self) -> bool {
        &&& self.log.wf()
        &&& self.log.last_term() <= self.hs.term
        &&& self.ids_sorted()
        &&& forall|i: int|
            0 <= i < self.prs.len() ==> (#[trigger] self.prs[i]).1.wf() && self.prs[i].1.ins.size
                == self.max_inflight
        &&& self.max_inflight > 0
        &&& 0 < self.heartbeat_timeout < self.election_timeout
        &&& self.election_timeout <= usize::MAX / 2
        &&& self.election_timeout <= self.randomized_election_timeout < 2 * self.election_timeout
        &&& self.election_elapsed <= self.randomized_election_timeout
        &&& self.heartbeat_elapsed <= self.heartbeat_timeout
    }

    /// The peer after it has put `m` into its outbox: it signs the message and, unless it
    /// is a proposal, stamps it with its term.
    pub open spec fn send(self, m: MessageView) -> RaftView {
        RaftView {
            msgs: self.msgs.push(
                MessageView {
                    from: self.id,
                    term: if m.msg_type != MessageType::MsgPropose {
                        self.term()
                    } else {
                        m.term
                    },
                    ..m
                },
            ),
            ..self
        }
    }

    /// The records after a change of role: every member starts over behind the last
    /// entry, and the peer itself matches its own log.
    pub open spec fn fresh_prs(self) -> Seq<(u64, ProgressView)> {
        Seq::new(
            self.prs.len(),
            |i: int|
                (
                    self.prs[i].0,
                    ProgressView {
                        matched: if self.prs[i].0 == self.id {
                            self.log.last_index() as u64
                        } else {
                            0
                        },
                        ..ProgressView::fresh(
                            (self.log.last_index() + 1) as u64,
                            self.max_inflight as nat,
                        )
                    },
                ),
        )
    }

    /// The peer at the start of `term`: no leader, no votes, the timers at 0, every record
    /// fresh. A new term also takes the vote back.
    pub open spec fn reset(self, term: u64) -> RaftView {
        RaftView {
            hs: if self.hs.term != term {
                HardState { term, vote: INVALID_ID, ..self.hs }
            } else {
                self.hs
            },
            lead: INVALID_ID,
            election_elapsed: 0,
            heartbeat_elapsed: 0,
            votes: Seq::<(u64, bool)>::empty(),
            prs: self.fresh_prs(),
            pending_conf: false,
            ..self
        }
    }

    pub open spec fn become_follower(self, term: u64, lead: u64) -> RaftView {
        RaftView { lead, state: StateRole::Follower, ..self.reset(term) }
    }

    pub open spec fn become_candidate(self) -> RaftView {
        let r = self.reset((self.hs.term + 1) as u64);
        RaftView { hs: HardState { vote: self.id, ..r.hs }, state: StateRole::Candidate, ..r }
    }

    /// The peer with `id` as a member whose record starts at `next_idx` and matches up to
    /// `matched`; a record that was there is replaced.
    pub open spec fn set_progress(self, id: u64, matched: u64, next_idx: u64) -> RaftView {
        let p = ProgressView { matched, ..ProgressView::fresh(next_idx, self.max_inflight as nat) };
        if self.has_peer(id) {
            self.with_pr(id, p)
        } else {
            RaftView { prs: self.prs.insert(self.insert_pos(id), (id, p)), ..self }
        }
    }

    /// The number of members with an id below `id`.
    pub open spec fn insert_pos(self, id: u64) -> int {
        count_below(self.prs, id) as int
    }

    pub open spec fn del_progress(self, id: u64) -> RaftView {
        if self.has_peer(id) {
            RaftView { prs: self.prs.remove(self.pos(id)), ..self }
        } else {
            self
        }
    }

    pub open spec fn add_node(self, id: u64) -> RaftView {
        if self.has_peer(id) {
            self
        } else {
            RaftView {
                pending_conf: false,
                ..self.set_progress(id, 0, (self.log.last_index() + 1) as u64)
            }
        }
    }

    pub open spec fn remove_node(self, id: u64) -> RaftView {
        RaftView { pending_conf: false, ..self.del_progress(id) }
    }

    /// The ids of the members, ascending.
    pub open spec fn nodes(self) -> Seq<u64> {
        Seq::new(self.prs.len(), |i: int| self.prs[i].0)
    }
}

impl RaftView {
    /// The follower `to` needs a snapshot: the entry before the next one to send is no
    /// longer in the log.
    pub open spec fn needs_snapshot(self, to: u64) -> bool {
        let next = self.pr(to).next_idx;
        next < self.log.first_index() || next - 1 > self.log.last_index()
    }

    /// The peer after it has sent to the member `to` what that member needs next, if it
    /// may send now: the entries from the member's `next_idx` on, or the snapshot where
    /// those are gone and the member was heard from.
    pub open spec fn send_append(self, to: u64) -> RaftView {
        let pr = self.pr(to);
        if pr.is_paused() {
            self
        } else if self.needs_snapshot(to) {
            if !pr.recent_active || self.log.snapshot.index == 0 {
                self
            } else {
                self.with_pr(to, pr.become_snapshot(self.log.snapshot.index)).send(
                    MessageView {
                        snapshot: self.log.snapshot,
                        ..MessageView::bare(MessageType::MsgSnapshot, to)
                    },
                )
            }
        } else {
            let ents = self.log.slice(pr.next_idx, self.max_msg_size);
            let m = MessageView {
                index: (pr.next_idx - 1) as u64,
                log_term: self.log.term_at(pr.next_idx - 1)->Some_0,
                entries: ents,
                commit: self.log.committed,
                ..MessageView::bare(MessageType::MsgAppend, to)
            };
            self.with_pr(to, pr.after_append(ents)).send(m)
        }
    }

    /// The peer after it has sent a heartbeat to the member `to`. The heartbeat carries the
    /// commit index, though not more than the member is known to hold.
    pub open spec fn send_heartbeat(self, to: u64) -> RaftView {
        let matched = self.pr(to).matched;
        self.send(
            MessageView {
                commit: if matched < self.log.committed {
                    matched
                } else {
                    self.log.committed
                },
                ..MessageView::bare(MessageType::MsgHeartbeat, to)
            },
        )
    }

    /// The peer after `send_append` to each of the first `n` members from place `i` on, by
    /// ascending id, the peer itself left out.
    pub open spec fn bcast_append_from(self, i: int, n: int) -> RaftView
        decreases n - i,
    {
        if i < 0 || i >= n {
            self
        } else if self.prs[i].0 == self.id {
            self.bcast_append_from(i + 1, n)
        } else {
            self.send_append(self.prs[i].0).bcast_append_from(i + 1, n)
        }
    }

    pub open spec fn bcast_append(self) -> RaftView {
        self.bcast_append_from(0, self.prs.len() as int)
    }

    /// The peer after a heartbeat to each of the first `n` members from place `i` on, by
    /// ascending id, the peer itself left out. Each of them may be sent to again.
    pub open spec fn bcast_heartbeat_from(self, i: int, n: int) -> RaftView
        decreases n - i,
    {
        if i < 0 || i >= n {
            self
        } else if self.prs[i].0 == self.id {
            self.bcast_heartbeat_from(i + 1, n)
        } else {
            let id = self.prs[i].0;
            let sent = self.send_heartbeat(id);
            sent.with_pr(id, ProgressView { paused: false, ..sent.pr(id) }).bcast_heartbeat_from(
                i + 1,
                n,
            )
        }
    }

    pub open spec fn bcast_heartbeat(self) -> RaftView {
        self.bcast_heartbeat_from(0, self.prs.len() as int)
    }

    /// The highest index that a quorum of the members is known to hold.
    pub open spec fn quorum_index(self) -> u64 {
        quorum_index_from(self.prs, self.quorum(), 0)
    }

    /// The commit rule: the entry at the quorum index may be committed if it is behind
    /// the commit index and of the current term.
    pub open spec fn may_commit(self) -> bool {
        self.log.commits(self.quorum_index(), self.term())
    }

    pub open spec fn maybe_commit(self) -> RaftView {
        if self.may_commit() {
            RaftView { log: self.log.commit_to(self.quorum_index()), ..self }
        } else {
            self
        }
    }

    /// `es` as the peer puts them into its log: of the current term, behind the last
    /// entry.
    pub open spec fn stamped(self, es: Seq<EntryView>) -> Seq<EntryView> {
        Seq::new(
            es.len(),
            |i: int|
                EntryView {
                    term: self.term(),
                    index: (self.log.last_index() + 1 + i) as u64,
                    ..es[i]
                },
        )
    }

    /// The peer after it has put `es` at the end of its log, noted that in its own record,
    /// and committed what may be committed.
    pub open spec fn append_entry(self, es: Seq<EntryView>) -> RaftView {
        let log = self.log.append(self.stamped(es));
        let r = RaftView { log, ..self };
        let noted = if r.has_peer(r.id) {
            r.with_pr(r.id, r.pr(r.id).maybe_update(log.last_index() as u64))
        } else {
            r
        };
        noted.maybe_commit()
    }

    /// A change of membership stands in the log behind the commit index.
    pub open spec fn has_uncommitted_conf(self) -> bool {
        exists|k: int|
            0 <= k < self.log.entries.len() && (#[trigger] self.log.entries[k]).index
                > self.log.committed && self.log.entries[k].entry_type
                == EntryType::EntryConfChange
    }

    /// The peer as leader of its term. It starts over with every member, takes note of a
    /// change of membership that is not yet committed, and puts an empty entry of its term
    /// into the log: committing that entry commits what earlier terms left.
    pub open spec fn become_leader(self) -> RaftView {
        let r = self.reset(self.term());
        (RaftView {
            lead: self.id,
            state: StateRole::Leader,
            pending_conf: r.has_uncommitted_conf(),
            ..r
        }).append_entry(
            seq![
                EntryView {
                    entry_type: EntryType::EntryNormal,
                    term: 0,
                    index: 0,
                    data: Seq::<u8>::empty(),
                },
            ],
        )
    }

    /// The votes with that of `id`, unless `id` has voted before.
    pub open spec fn recorded(self, id: u64, v: bool) -> Seq<(u64, bool)> {
        if has_voted(self.votes, id) {
            self.votes
        } else {
            self.votes.push((id, v))
        }
    }

    pub open spec fn poll(self, id: u64, v: bool) -> RaftView {
        RaftView { votes: self.recorded(id, v), ..self }
    }

    /// The peer after a request for votes to each of the first `n` members from place `i`
    /// on, the peer itself left out. The request names the end of the peer's log.
    pub open spec fn request_votes_from(self, i: int, n: int) -> RaftView
        decreases n - i,
    {
        if i < 0 || i >= n {
            self
        } else if self.prs[i].0 == self.id {
            self.request_votes_from(i + 1, n)
        } else {
            self.send(
                MessageView {
                    index: self.log.last_index() as u64,
                    log_term: self.log.last_term(),
                    ..MessageView::bare(MessageType::MsgRequestVote, self.prs[i].0)
                },
            ).request_votes_from(i + 1, n)
        }
    }

    /// The peer after it has stood for election: a candidate with its own vote. Where that
    /// vote is a quorum it is leader at once; else it asks the other members.
    pub open spec fn campaign(self) -> RaftView {
        let c = self.become_candidate().poll(self.id, true);
        if c.quorum() == granted(c.votes) {
            c.become_leader()
        } else {
            c.request_votes_from(0, c.prs.len() as int)
        }
    }
}

impl RaftView {
    /// The answer to an append, addressed to `to`.
    pub open spec fn append_response(to: u64, index: u64, reject: bool, hint: u64) -> MessageView {
        MessageView {
            index,
            reject,
            reject_hint: hint,
            ..MessageView::bare(MessageType::MsgAppendResponse, to)
        }
    }

    /// The answer to a request for a vote, addressed to `to`.
    pub open spec fn vote_response(to: u64, reject: bool) -> MessageView {
        MessageView { reject, ..MessageView::bare(MessageType::MsgRequestVoteResponse, to) }
    }

    /// The peer after an append from the leader. An append behind what is committed is
    /// answered with the commit index. An append that the log takes is answered with the
    /// index of its last entry; any other with a rejection that names the append's
    /// position and, as a hint, the last index of the log.
    pub open spec fn handle_append_entries(self, m: MessageView) -> RaftView {
        if m.index < self.hs.commit {
            self.send(Self::append_response(m.from, self.hs.commit, false, 0))
        } else if self.log.accepts_append(m.index, m.log_term) {
            (RaftView { log: self.log.maybe_append(m.index, m.commit, m.entries), ..self }).send(
                Self::append_response(m.from, (m.index + m.entries.len()) as u64, false, 0),
            )
        } else {
            self.send(Self::append_response(m.from, m.index, true, self.log.last_index() as u64))
        }
    }

    pub open spec fn handle_heartbeat(self, m: MessageView) -> RaftView {
        (RaftView { log: self.log.commit_to(m.commit), ..self }).send(
            MessageView::bare(MessageType::MsgHeartbeatResponse, m.from),
        )
    }

    /// The peer takes the snapshot: it is ahead of the commit index, and the log does not
    /// hold its position with its term.
    pub open spec fn restores(self, s: SnapshotView) -> bool {
        s.index > self.log.committed && !self.log.match_term(s.index, s.term)
    }

    /// The peer with a record for each of `nodes` from place `k` on: all start behind the
    /// last entry, the peer itself matching its log.
    pub open spec fn with_nodes_from(self, nodes: Seq<u64>, k: int) -> RaftView
        decreases nodes.len() - k,
    {
        if k < 0 || k >= nodes.len() {
            self
        } else {
            let next = (self.log.last_index() + 1) as u64;
            self.set_progress(
                nodes[k],
                if nodes[k] == self.id {
                    (next - 1) as u64
                } else {
                    0
                },
                next,
            ).with_nodes_from(nodes, k + 1)
        }
    }

    /// The peer after a snapshot was offered to it. One that is not ahead of the commit
    /// index changes nothing. One whose position the log holds only moves the commit index
    /// up to it. Any other replaces the log and names the members.
    pub open spec fn restore(self, s: SnapshotView) -> RaftView {
        if s.index <= self.log.committed {
            self
        } else if self.log.match_term(s.index, s.term) {
            RaftView { log: self.log.commit_to(s.index), ..self }
        } else {
            let named = (RaftView {
                prs: Seq::<(u64, ProgressView)>::empty(),
                ..self
            }).with_nodes_from(s.nodes, 0);
            RaftView { log: self.log.restore(s), ..named }
        }
    }

    pub open spec fn handle_snapshot(self, m: MessageView) -> RaftView {
        let r = self.restore(m.snapshot);
        r.send(
            Self::append_response(
                m.from,
                if self.restores(m.snapshot) {
                    r.log.last_index() as u64
                } else {
                    r.log.committed
                },
                false,
                0,
            ),
        )
    }

    /// The leader after it has taken note of a message of the member `m.from`, and what it
    /// is to do.
    pub open spec fn check_message_with_progress(self, m: MessageView) -> (RaftView, Hints) {
        if !self.has_peer(m.from) {
            (self, Hints::none())
        } else {
            let pr = self.pr(m.from);
            match m.msg_type {
                MessageType::MsgAppendResponse => {
                    let (p, h) = pr.on_append_response(m.reject, m.index, m.reject_hint);
                    (self.with_pr(m.from, p), h)
                },
                MessageType::MsgHeartbeatResponse => (
                    self.with_pr(m.from, pr.on_heartbeat_response()),
                    Hints {
                        send_append: pr.matched < self.log.last_index(),
                        ..Hints::none()
                    },
                ),
                MessageType::MsgSnapStatus => (
                    self.with_pr(m.from, pr.on_snapshot_status(m.reject)),
                    Hints::none(),
                ),
                MessageType::MsgUnreachable => (
                    self.with_pr(m.from, pr.on_unreachable()),
                    Hints::none(),
                ),
                _ => (self, Hints::none()),
            }
        }
    }

    /// The members as they stand after the leader has counted who was heard from: the
    /// marks of the others are wiped.
    pub open spec fn unmarked(self) -> RaftView {
        RaftView {
            prs: Seq::new(
                self.prs.len(),
                |i: int|
                    if self.prs[i].0 == self.id {
                        self.prs[i]
                    } else {
                        (self.prs[i].0, ProgressView { recent_active: false, ..self.prs[i].1 })
                    },
            ),
            ..self
        }
    }

    /// A quorum of the members was heard from since the last check, the leader itself
    /// counted in.
    pub open spec fn quorum_active(self) -> bool {
        count_active(self.prs, self.id) >= self.quorum()
    }

    /// The entries of a proposal as the leader takes them: while a change of membership
    /// is pending, a further one becomes an empty normal entry; the first change taken
    /// makes one pending. Returns the entries from place `k` on and whether a change is
    /// pending at the end.
    pub open spec fn taken_from(es: Seq<EntryView>, pending: bool, k: int) -> (
        Seq<EntryView>,
        bool,
    )
        decreases es.len() - k,
    {
        if k < 0 || k >= es.len() {
            (Seq::<EntryView>::empty(), pending)
        } else if es[k].entry_type == EntryType::EntryConfChange {
            let (rest, p) = Self::taken_from(es, true, k + 1);
            (
                seq![
                    if pending {
                        EntryView {
                            entry_type: EntryType::EntryNormal,
                            term: 0,
                            index: 0,
                            data: Seq::<u8>::empty(),
                        }
                    } else {
                        es[k]
                    },
                ] + rest,
                p,
            )
        } else {
            let (rest, p) = Self::taken_from(es, pending, k + 1);
            (seq![es[k]] + rest, p)
        }
    }

    /// The leader after a proposal: the entries stand at the end of its log and are on
    /// their way to the members. A leader that is no member drops the proposal.
    pub open spec fn propose(self, m: MessageView) -> RaftView {
        if !self.has_peer(self.id) {
            self
        } else {
            let (es, pending) = Self::taken_from(m.entries, self.pending_conf, 0);
            (RaftView { pending_conf: pending, ..self }).append_entry(es).bcast_append()
        }
    }

    /// The leader after a member's word on its progress. Where the member holds more than
    /// before and the commit index moves, every member is told; else the member alone is
    /// sent what it needs next, if its message calls for that.
    pub open spec fn member_message(self, m: MessageView) -> RaftView {
        let (noted, h) = self.check_message_with_progress(m);
        let (committed, again) = if h.maybe_commit {
            if noted.may_commit() {
                (noted.maybe_commit().bcast_append(), h.send_append)
            } else {
                (noted, h.send_append || h.old_paused)
            }
        } else {
            (noted, h.send_append)
        };
        if again {
            committed.send_append(m.from)
        } else {
            committed
        }
    }

    /// The leader after a message. A request for a vote in its own term is answered with
    /// a rejection, addressed as the request was.
    pub open spec fn step_leader(self, m: MessageView) -> RaftView {
        match m.msg_type {
            MessageType::MsgBeat => self.bcast_heartbeat(),
            MessageType::MsgCheckQuorum => if self.quorum_active() {
                self.unmarked()
            } else {
                self.unmarked().become_follower(self.term(), INVALID_ID)
            },
            MessageType::MsgPropose => self.propose(m),
            MessageType::MsgRequestVote => self.send(Self::vote_response(m.to, true)),
            _ => self.member_message(m),
        }
    }

    /// The candidate after a message.
    pub open spec fn step_candidate(self, m: MessageView) -> RaftView {
        match m.msg_type {
            MessageType::MsgAppend => self.become_follower(
                self.term(),
                m.from,
            ).handle_append_entries(m),
            MessageType::MsgHeartbeat => self.become_follower(
                self.term(),
                m.from,
            ).handle_heartbeat(m),
            MessageType::MsgSnapshot => self.become_follower(self.term(), m.from).handle_snapshot(
                m,
            ),
            MessageType::MsgRequestVote => self.send(Self::vote_response(m.from, true)),
            MessageType::MsgRequestVoteResponse => {
                let polled = self.poll(m.from, !m.reject);
                let gr = granted(polled.votes);
                if polled.quorum() == gr {
                    polled.become_leader().bcast_append()
                } else if polled.quorum() == polled.votes.len() - gr {
                    polled.become_follower(self.term(), INVALID_ID)
                } else {
                    polled
                }
            },
            _ => self,
        }
    }

    /// The follower grants its vote to the sender of the request `m`: it has given its
    /// vote to nobody else in this term, and the sender's log is at least as current as
    /// its own.
    pub open spec fn grants_vote(self, m: MessageView) -> bool {
        (self.hs.vote == INVALID_ID || self.hs.vote == m.from) && self.log.is_up_to_date(
            m.index,
            m.log_term,
        )
    }

    /// The follower after a message.
    pub open spec fn step_follower(self, m: MessageView) -> RaftView {
        match m.msg_type {
            MessageType::MsgPropose => if self.lead == INVALID_ID {
                self
            } else {
                self.send(MessageView { to: self.lead, ..m })
            },
            MessageType::MsgAppend => (RaftView {
                election_elapsed: 0,
                lead: m.from,
                ..self
            }).handle_append_entries(m),
            MessageType::MsgHeartbeat => (RaftView {
                election_elapsed: 0,
                lead: m.from,
                ..self
            }).handle_heartbeat(m),
            MessageType::MsgSnapshot => (RaftView { election_elapsed: 0, ..self }).handle_snapshot(
                m,
            ),
            MessageType::MsgRequestVote => if self.grants_vote(m) {
                (RaftView {
                    election_elapsed: 0,
                    hs: HardState { vote: m.from, ..self.hs },
                    ..self
                }).send(Self::vote_response(m.from, false))
            } else {
                self.send(Self::vote_response(m.from, true))
            },
            _ => self,
        }
    }

    /// The peer with the commit index of its log written to its hard state.
    pub open spec fn commit_noted(self) -> RaftView {
        RaftView { hs: HardState { commit: self.log.committed, ..self.hs }, ..self }
    }

    /// The peer after its role has dealt with the message.
    pub open spec fn dispatch(self, m: MessageView) -> RaftView {
        match self.state {
            StateRole::Candidate => self.step_candidate(m),
            StateRole::Follower => self.step_follower(m),
            StateRole::Leader => self.step_leader(m),
        }
    }

    /// The peer once it has seen the term of `m`: a later term makes it a follower in that
    /// term, of the sender unless the sender only asks for a vote.
    pub open spec fn sync_term(self, m: MessageView) -> RaftView {
        if m.term > self.term() {
            self.become_follower(
                m.term,
                if m.msg_type == MessageType::MsgRequestVote {
                    INVALID_ID
                } else {
                    m.from
                },
            )
        } else {
            self
        }
    }

    /// The peer after the message `m`. `MsgHup` makes a member that is not leader stand
    /// for election. A message of an earlier term is dropped, term 0 marking a message of
    /// the peer to itself. The rest is up to the role, after which the hard state takes
    /// note of the commit index.
    pub open spec fn step(self, m: MessageView) -> RaftView {
        if m.msg_type == MessageType::MsgHup {
            if self.state != StateRole::Leader && self.promotable() {
                self.campaign().commit_noted()
            } else {
                self
            }
        } else if m.term != 0 && m.term < self.term() {
            self
        } else {
            self.sync_term(m).dispatch(m).commit_noted()
        }
    }

    /// What `step` asks of a message: its indices leave room for the next one, and where
    /// it makes the peer write to its log, the log can take what it brings.
    pub open spec fn accepts(self, m: MessageView) -> bool {
        &&& m.index < u64::MAX
        &&& self.log.last_index() + 1 + m.entries.len() < u64::MAX
        &&& m.msg_type == MessageType::MsgHup ==> self.hs.term < u64::MAX
        &&& m.msg_type == MessageType::MsgPropose ==> m.entries.len() > 0
        &&& m.msg_type == MessageType::MsgAppend ==> m.entries_follow()
            && !self.log.conflicts_committed(m.entries)
        &&& m.msg_type == MessageType::MsgHeartbeat ==> m.commit <= self.log.last_index()
        &&& m.msg_type == MessageType::MsgSnapshot ==> m.snapshot.index < u64::MAX && (
        m.snapshot.term <= m.term || m.snapshot.term <= self.hs.term)
    }
}

impl RaftView {
    /// A message of the peer to itself.
    pub open spec fn local(self, t: MessageType) -> MessageView {
        MessageView { from: self.id, ..MessageView::bare(t, INVALID_ID) }
    }

    /// The peer can take a tick: its term and its log leave room for an election.
    pub open spec fn can_tick(self) -> bool {
        self.hs.term < u64::MAX && self.log.last_index() + 1 < u64::MAX
    }

    /// A follower or candidate after a tick. A peer that is no member only sets its timer
    /// back. The first tick of a countdown fixes its timeout at `election_timeout + rand`;
    /// the tick that takes the timer past the timeout sets it back and makes the peer
    /// stand for election.
    pub open spec fn tick_election(self, rand: usize) -> RaftView {
        if !self.promotable() {
            RaftView { election_elapsed: 0, ..self }
        } else {
            let timeout = if self.election_elapsed == 0 {
                (self.election_timeout + rand) as usize
            } else {
                self.randomized_election_timeout
            };
            let elapsed = (self.election_elapsed + 1) as usize;
            if elapsed > timeout {
                (RaftView {
                    election_elapsed: 0,
                    randomized_election_timeout: timeout,
                    ..self
                }).step(self.local(MessageType::MsgHup))
            } else {
                RaftView {
                    election_elapsed: elapsed,
                    randomized_election_timeout: timeout,
                    ..self
                }
            }
        }
    }

    /// A leader after the part of a tick that checks the quorum: every `election_timeout`
    /// ticks it sees, if it is to, whether a quorum was heard from.
    pub open spec fn tick_quorum(self) -> RaftView {
        let e = (self.election_elapsed + 1) as usize;
        if e >= self.election_timeout {
            let r = RaftView { election_elapsed: 0, ..self };
            if self.check_quorum {
                r.step(self.local(MessageType::MsgCheckQuorum))
            } else {
                r
            }
        } else {
            RaftView { election_elapsed: e, ..self }
        }
    }

    /// A leader after the part of a tick that sends heartbeats: every `heartbeat_timeout`
    /// ticks.
    pub open spec fn tick_beat(self) -> RaftView {
        let h = (self.heartbeat_elapsed + 1) as usize;
        if h >= self.heartbeat_timeout {
            (RaftView { heartbeat_elapsed: 0, ..self }).step(self.local(MessageType::MsgBeat))
        } else {
            RaftView { heartbeat_elapsed: h, ..self }
        }
    }

    /// A leader after a tick: it checks the quorum and, if it is still leader, sees to the
    /// heartbeats.
    pub open spec fn tick_heartbeat(self) -> RaftView {
        let checked = self.tick_quorum();
        if checked.state == StateRole::Leader {
            checked.tick_beat()
        } else {
            checked
        }
    }

    /// The peer after a tick, `rand` being the number that chance gave.
    pub open spec fn tick(self, rand: usize) -> RaftView {
        match self.state {
            StateRole::Leader => self.tick_heartbeat(),
            _ => self.tick_election(rand),
        }
    }

    /// The peer with a fresh record for each of `peers` from place `k` on.
    pub open spec fn with_peers_from(self, peers: Seq<u64>, k: int) -> RaftView
        decreases peers.len() - k,
    {
        if k < 0 || k >= peers.len() {
            self
        } else {
            self.set_progress(peers[k], 0, 1).with_peers_from(peers, k + 1)
        }
    }

    /// The peer that starts from `c`: a follower without a leader, in the stored term, with
    /// the stored log and the members that `c` names.
    pub open spec fn init(c: Config) -> RaftView {
        let hs = c.storage.hard_state;
        let log = c.storage.log();
        let base = RaftView {
            hs: Config::no_state(),
            id: c.id,
            log,
            max_inflight: c.max_inflight_msgs,
            max_msg_size: c.max_size_per_msg,
            prs: Seq::<(u64, ProgressView)>::empty(),
            state: StateRole::Follower,
            votes: Seq::<(u64, bool)>::empty(),
            msgs: Seq::<MessageView>::empty(),
            lead: INVALID_ID,
            pending_conf: false,
            election_elapsed: 0,
            heartbeat_elapsed: 0,
            check_quorum: c.check_quorum,
            heartbeat_timeout: c.heartbeat_tick,
            election_timeout: c.election_tick,
            randomized_election_timeout: c.election_tick,
        };
        let loaded = if hs != Config::no_state() {
            RaftView { hs, log: RaftLogView { committed: hs.commit, ..base.log }, ..base }
        } else {
            base
        };
        let applied = if c.applied > 0 {
            RaftView { log: RaftLogView { applied: c.applied, ..loaded.log }, ..loaded }
        } else {
            loaded
        };
        let named = applied.with_peers_from(c.members(), 0);
        named.become_follower(named.term(), INVALID_ID)
    }
}

} // verus!
