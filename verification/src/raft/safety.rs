//! What holds of the replication state machine whatever it is told.

use crate::raft::message::{EntryView, MessageType, MessageView};
use crate::raft::progress::ProgressView;
use crate::raft::model::{count_matched, quorum_index_from, RaftView};
use crate::raft::raft::{StateRole, INVALID_ID};
use crate::raft::raft_log::{
    lemma_append_keeps_agreement, lemma_append_keeps_committed, same_term_same_entry, RaftLogView,
};
use vstd::prelude::*;

verus! {

proof fn lemma_count_same(prs: Seq<(u64, ProgressView)>, a: u64, b: u64)
    requires
        forall|i: int| 0 <= i < prs.len() ==> ((#[trigger] prs[i]).1.matched >= a) == (prs[i].1.matched >= b),
    ensures
        count_matched(prs, a) == count_matched(prs, b),
    decreases prs.len(),
{
    if prs.len() > 0 {
        assert forall|i: int| 0 <= i < prs.drop_last().len() implies ((
        #[trigger] prs.drop_last()[i]).1.matched >= a) == (prs.drop_last()[i].1.matched >= b) by {
            assert(prs.drop_last()[i] == prs[i]);
        }
        lemma_count_same(prs.drop_last(), a, b);
        assert(prs.last() == prs[prs.len() - 1]);
    }
}

proof fn lemma_least_above(prs: Seq<(u64, ProgressView)>, n: u64) -> (j: int)
    requires
        count_matched(prs, n) >= 1,
    ensures
        0 <= j < prs.len(),
        prs[j].1.matched >= n,
        forall|i: int|
            0 <= i < prs.len() && (#[trigger] prs[i]).1.matched >= n ==> prs[i].1.matched
                >= prs[j].1.matched,
    decreases prs.len(),
{
    let shorter = prs.drop_last();
    let last = prs.len() - 1;
    if count_matched(shorter, n) >= 1 {
        let j = lemma_least_above(shorter, n);
        assert(shorter[j] == prs[j]);
        let pick = if prs[last].1.matched >= n && prs[last].1.matched < prs[j].1.matched {
            last
        } else {
            j
        };
        assert forall|i: int| 0 <= i < prs.len() && (#[trigger] prs[i]).1.matched >= n implies prs[i].1.matched
            >= prs[pick].1.matched by {
            if i < last {
                assert(shorter[i] == prs[i]);
            }
        }
        pick
    } else {
        assert forall|i: int| 0 <= i < prs.len() && (#[trigger] prs[i]).1.matched >= n implies prs[i].1.matched
            >= prs[last].1.matched by {
            if i < last {
                lemma_count_positive(shorter, n, i);
            }
        }
        last
    }
}

proof fn lemma_count_positive(prs: Seq<(u64, ProgressView)>, n: u64, i: int)
    requires
        0 <= i < prs.len(),
        prs[i].1.matched >= n,
    ensures
        count_matched(prs, n) >= 1,
    decreases prs.len(),
{
    if i < prs.len() - 1 {
        assert(prs.drop_last()[i] == prs[i]);
        lemma_count_positive(prs.drop_last(), n, i);
    }
}

proof fn lemma_quorum_index_covers(prs: Seq<(u64, ProgressView)>, quorum: nat, from: int, j: int)
    requires
        0 <= from <= j < prs.len(),
        count_matched(prs, prs[j].1.matched) >= quorum,
    ensures
        quorum_index_from(prs, quorum, from) >= prs[j].1.matched,
    decreases prs.len() - from,
{
    if from < j {
        lemma_quorum_index_covers(prs, quorum, from + 1, j);
    }
}

proof fn lemma_quorum_index_reached(prs: Seq<(u64, ProgressView)>, quorum: nat, from: int)
    requires
        0 <= from,
    ensures
        quorum_index_from(prs, quorum, from) > 0 ==> count_matched(
            prs,
            quorum_index_from(prs, quorum, from),
        ) >= quorum,
    decreases prs.len() - from,
{
    if from < prs.len() {
        lemma_quorum_index_reached(prs, quorum, from + 1);
    }
}

/// The quorum index is the highest index that a quorum of the members holds: a quorum has
/// reached it, and no quorum has reached a higher one.
pub proof fn lemma_quorum_index(r: RaftView, n: u64)
    ensures
        r.quorum_index() > 0 ==> count_matched(r.prs, r.quorum_index()) >= r.quorum(),
        n > r.quorum_index() ==> count_matched(r.prs, n) < r.quorum(),
{
    lemma_quorum_index_reached(r.prs, r.quorum(), 0);
    if n > r.quorum_index() && count_matched(r.prs, n) >= r.quorum() {
        let j = lemma_least_above(r.prs, n);
        let w = r.prs[j].1.matched;
        lemma_count_same(r.prs, n, w);
        lemma_quorum_index_covers(r.prs, r.quorum(), 0, j);
    }
}

/// The commit rule. Where the leader moves its commit index, it moves it to an index
/// that a quorum of the members holds and whose entry is of the leader's term; no quorum
/// holds a higher index. An entry of an earlier term is thus never committed by counting
/// who holds it: it is committed with the first entry of the leader's term behind it.
pub proof fn lemma_commit_rule(r: RaftView, n: u64)
    requires
        r.may_commit(),
    ensures
        r.maybe_commit().log.committed == r.quorum_index(),
        r.quorum_index() > r.log.committed,
        count_matched(r.prs, r.quorum_index()) >= r.quorum(),
        r.log.term_at(r.quorum_index() as int) == Some(r.term()),
        n > r.quorum_index() ==> count_matched(r.prs, n) < r.quorum(),
{
    lemma_quorum_index(r, n);
}

/// The terms of an entry at one place are the same in the two logs only if the logs hold
/// the same entries up to that place.
pub open spec fn log_matching(a: RaftLogView, b: RaftLogView) -> bool {
    forall|i: int|
        a.has(i) && b.has(i) && (#[trigger] a.entry_at(i)).term == b.entry_at(i).term
            ==> a.agrees_upto(b, i)
}

/// Log matching is kept by replication. Take a leader and a follower whose logs match:
/// wherever they hold an entry of the same term at the same place, they hold the same
/// entries up to that place. Let the follower take an append that carries the leader's
/// entries behind the place `idx` and names the leader's term of `idx`. If the follower
/// accepts it, the logs hold the same entries up to the last entry of the append, and
/// they still match.
pub proof fn lemma_log_matching_step(
    leader: RaftLogView,
    follower: RaftLogView,
    idx: u64,
    log_term: u64,
    committed: u64,
    ents: Seq<EntryView>,
)
    requires
        leader.wf(),
        follower.wf(),
        log_matching(follower, leader),
        leader.term_at(idx as int) == Some(log_term),
        idx + ents.len() <= leader.last_index(),
        forall|k: int| 0 <= k < ents.len() ==> #[trigger] ents[k] == leader.entry_at(idx + 1 + k),
        follower.accepts_append(idx, log_term),
        !follower.conflicts_committed(ents),
    ensures
        follower.maybe_append(idx, committed, ents).agrees_upto(leader, idx + ents.len()),
        log_matching(follower.maybe_append(idx, committed, ents), leader),
{
    let next = follower.maybe_append(idx, committed, ents);
    assert(same_term_same_entry(leader, follower)) by {
        assert forall|i: int|
            leader.has(i) && follower.has(i) && leader.entry_at(i).term == follower.entry_at(
                i,
            ).term implies #[trigger] leader.entry_at(i) == follower.entry_at(i) by {
            assert(follower.agrees_upto(leader, i));
        }
    }
    assert(follower.agrees_upto(leader, idx as int)) by {
        if follower.has(idx as int) && leader.has(idx as int) {
            assert(follower.entry_at(idx as int).term == leader.entry_at(idx as int).term);
        }
    }
    lemma_append_keeps_agreement(leader, follower, idx, committed, ents);
    let pos = follower.first_conflict(ents, 0);
    crate::raft::raft_log::lemma_first_conflict(follower, ents, 0);
    assert forall|k: int| 0 <= k < ents.len() implies (#[trigger] ents[k]).index == idx + 1 + k by {
        assert(ents[k] == leader.entry_at(idx + 1 + k));
    }
    assert forall|i: int|
        next.has(i) && leader.has(i) && (#[trigger] next.entry_at(i)).term == leader.entry_at(
            i,
        ).term implies next.agrees_upto(leader, i) by {
        if i > idx + ents.len() {
            // entries behind the append are left only where nothing was replaced
            if pos < ents.len() {
                assert(ents.skip(pos)[0] == ents[pos]);
                assert(ents[pos] == leader.entry_at(idx + 1 + pos));
                if pos > 0 {
                    assert(follower.match_term(ents[pos - 1].index, ents[pos - 1].term));
                }
                assert(next.last_index() == idx + ents.len());
            } else {
                assert(ents.skip(pos) =~= Seq::<EntryView>::empty());
                assert(next.entries == follower.entries);
                assert(follower.agrees_upto(leader, i));
            }
        }
    }
}

/// What a follower has committed is what its leader holds. Take a leader and a follower
/// whose logs match, and let every entry that the follower has committed be the leader's
/// entry at that place. Let the follower accept an append that carries the leader's
/// entries behind the place `idx`, names the leader's term of `idx` and replaces nothing
/// committed. Then every entry up to the follower's new commit index is again the
/// leader's entry at that place.
pub proof fn lemma_committed_entries_match(
    leader: RaftLogView,
    follower: RaftLogView,
    idx: u64,
    log_term: u64,
    committed: u64,
    ents: Seq<EntryView>,
)
    requires
        leader.wf(),
        follower.wf(),
        log_matching(follower, leader),
        follower.agrees_upto(leader, follower.committed as int),
        leader.term_at(idx as int) == Some(log_term),
        idx + ents.len() <= leader.last_index(),
        forall|k: int| 0 <= k < ents.len() ==> #[trigger] ents[k] == leader.entry_at(idx + 1 + k),
        follower.accepts_append(idx, log_term),
        !follower.conflicts_committed(ents),
    ensures
        follower.maybe_append(idx, committed, ents).agrees_upto(
            leader,
            follower.maybe_append(idx, committed, ents).committed as int,
        ),
        follower.committed_kept_in(follower.maybe_append(idx, committed, ents)),
{
    let next = follower.maybe_append(idx, committed, ents);
    lemma_log_matching_step(leader, follower, idx, log_term, committed, ents);
    assert forall|k: int| 0 <= k < ents.len() implies (#[trigger] ents[k]).index == ents[0].index
        + k by {
        assert(ents[k] == leader.entry_at(idx + 1 + k));
        assert(ents[0] == leader.entry_at(idx + 1));
    }
    assert forall|j: int, k: int| 0 <= j <= k < ents.len() implies (#[trigger] ents[j]).term <= (
    #[trigger] ents[k]).term by {
        assert(ents[j] == leader.entry_at(idx + 1 + j));
        assert(ents[k] == leader.entry_at(idx + 1 + k));
    }
    if ents.len() > 0 {
        assert(ents[0] == leader.entry_at(idx + 1));
        assert(log_term <= ents[0].term);
    }
    lemma_append_keeps_committed(follower, ents);
    let mid = follower.append(ents);
    assert(follower.committed_kept_in(next)) by {
        assert(next.entries == mid.entries);
        assert forall|i: int|
            follower.has(i) && i <= follower.committed && next.has(i) implies #[trigger] next.entry_at(
            i,
        ) == follower.entry_at(i) by {
            assert(mid.has(i));
            assert(mid.entry_at(i) == follower.entry_at(i));
        }
    }
    assert forall|j: int|
        j <= next.committed && next.has(j) && leader.has(j) implies #[trigger] next.entry_at(j)
        == leader.entry_at(j) by {
        if j > idx + ents.len() {
            assert(next.committed == follower.committed);
            assert(follower.has(j));
            assert(next.entry_at(j) == follower.entry_at(j));
        }
    }
}

impl RaftView {
    /// The term of `next` is not below that of `self`, and a vote that `self` has given in
    /// its term is still the vote of `next` if the term is the same.
    pub open spec fn vote_kept_in(self, next: RaftView) -> bool {
        &&& self.hs.term <= next.hs.term
        &&& next.hs.term == self.hs.term && self.hs.vote != INVALID_ID ==> next.hs.vote
            == self.hs.vote
    }
}

proof fn lemma_bcast_append_frame(r: RaftView, i: int, n: int)
    ensures
        r.bcast_append_from(i, n).hs == r.hs,
        r.bcast_append_from(i, n).state == r.state,
    decreases n - i,
{
    if 0 <= i < n {
        if r.prs[i].0 == r.id {
            lemma_bcast_append_frame(r, i + 1, n);
        } else {
            lemma_bcast_append_frame(r.send_append(r.prs[i].0), i + 1, n);
        }
    }
}

proof fn lemma_bcast_heartbeat_frame(r: RaftView, i: int, n: int)
    ensures
        r.bcast_heartbeat_from(i, n).hs == r.hs,
        r.bcast_heartbeat_from(i, n).state == r.state,
    decreases n - i,
{
    if 0 <= i < n {
        if r.prs[i].0 == r.id {
            lemma_bcast_heartbeat_frame(r, i + 1, n);
        } else {
            let id = r.prs[i].0;
            let sent = r.send_heartbeat(id);
            lemma_bcast_heartbeat_frame(
                sent.with_pr(id, ProgressView { paused: false, ..sent.pr(id) }),
                i + 1,
                n,
            );
        }
    }
}

proof fn lemma_request_votes_frame(r: RaftView, i: int, n: int)
    ensures
        r.request_votes_from(i, n).hs == r.hs,
        r.request_votes_from(i, n).state == r.state,
    decreases n - i,
{
    if 0 <= i < n {
        if r.prs[i].0 == r.id {
            lemma_request_votes_frame(r, i + 1, n);
        } else {
            lemma_request_votes_frame(
                r.send(
                    MessageView {
                        index: r.log.last_index() as u64,
                        log_term: r.log.last_term(),
                        ..MessageView::bare(MessageType::MsgRequestVote, r.prs[i].0)
                    },
                ),
                i + 1,
                n,
            );
        }
    }
}

proof fn lemma_with_nodes_frame(r: RaftView, nodes: Seq<u64>, k: int)
    ensures
        r.with_nodes_from(nodes, k).hs == r.hs,
        r.with_nodes_from(nodes, k).state == r.state,
    decreases nodes.len() - k,
{
    if 0 <= k < nodes.len() {
        let next = (r.log.last_index() + 1) as u64;
        lemma_with_nodes_frame(
            r.set_progress(
                nodes[k],
                if nodes[k] == r.id {
                    (next - 1) as u64
                } else {
                    0
                },
                next,
            ),
            nodes,
            k + 1,
        );
    }
}

proof fn lemma_become_leader_frame(r: RaftView)
    ensures
        r.become_leader().hs == r.hs,
{
}

proof fn lemma_handlers_frame(r: RaftView, m: MessageView)
    ensures
        r.handle_append_entries(m).hs == r.hs,
        r.handle_heartbeat(m).hs == r.hs,
        r.handle_snapshot(m).hs == r.hs,
{
    lemma_with_nodes_frame(
        RaftView { prs: Seq::<(u64, ProgressView)>::empty(), ..r },
        m.snapshot.nodes,
        0,
    );
}

proof fn lemma_step_leader_frame(r: RaftView, m: MessageView)
    requires
        r.hs.term < u64::MAX,
    ensures
        r.vote_kept_in(r.step_leader(m)),
{
    lemma_bcast_heartbeat_frame(r, 0, r.prs.len() as int);
    let (es, pending) = RaftView::taken_from(m.entries, r.pending_conf, 0);
    let appended = (RaftView { pending_conf: pending, ..r }).append_entry(es);
    lemma_bcast_append_frame(appended, 0, appended.prs.len() as int);
    let (noted, h) = r.check_message_with_progress(m);
    let committed = noted.maybe_commit();
    lemma_bcast_append_frame(committed, 0, committed.prs.len() as int);
}

proof fn lemma_step_candidate_frame(r: RaftView, m: MessageView)
    ensures
        r.vote_kept_in(r.step_candidate(m)),
{
    let f = r.become_follower(r.term(), m.from);
    lemma_handlers_frame(f, m);
    let polled = r.poll(m.from, !m.reject);
    lemma_become_leader_frame(polled);
    let lead = polled.become_leader();
    lemma_bcast_append_frame(lead, 0, lead.prs.len() as int);
}

proof fn lemma_step_follower_frame(r: RaftView, m: MessageView)
    ensures
        r.vote_kept_in(r.step_follower(m)),
{
    lemma_handlers_frame(RaftView { election_elapsed: 0, lead: m.from, ..r }, m);
    lemma_handlers_frame(RaftView { election_elapsed: 0, ..r }, m);
}

/// A peer never goes back in its term, and within a term it never changes its vote: what
/// it has promised one candidate it promises no other.
pub proof fn lemma_step_keeps_vote(r: RaftView, m: MessageView)
    requires
        r.hs.term < u64::MAX,
    ensures
        r.vote_kept_in(r.step(m)),
{
    if m.msg_type == MessageType::MsgHup {
        if r.state != StateRole::Leader && r.promotable() {
            let c = r.become_candidate().poll(r.id, true);
            lemma_become_leader_frame(c);
            lemma_request_votes_frame(c, 0, c.prs.len() as int);
        }
    } else if m.term != 0 && m.term < r.term() {
    } else {
        let s = r.sync_term(m);
        if s.hs.term < u64::MAX {
            lemma_step_leader_frame(s, m);
        }
        lemma_step_candidate_frame(s, m);
        lemma_step_follower_frame(s, m);
        if s.hs.term == u64::MAX && s.state == StateRole::Leader {
            lemma_bcast_heartbeat_frame(s, 0, s.prs.len() as int);
            let (es, pending) = RaftView::taken_from(m.entries, s.pending_conf, 0);
            let appended = (RaftView { pending_conf: pending, ..s }).append_entry(es);
            lemma_bcast_append_frame(appended, 0, appended.prs.len() as int);
            let (noted, h) = s.check_message_with_progress(m);
            let committed = noted.maybe_commit();
            lemma_bcast_append_frame(committed, 0, committed.prs.len() as int);
        }
    }
}

} // verus!
