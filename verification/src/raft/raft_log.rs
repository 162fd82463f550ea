//! The replicated log of one peer: the entries behind its latest snapshot, and how far
//! they are committed and applied.

use crate::raft::errors::{Error, StorageError};
use crate::raft::message::{entries_view, Entry, EntryView, Snapshot, SnapshotView};
use vstd::prelude::*;

verus! {

/// For `entries`: no limit on the bytes returned.
pub const NO_LIMIT: u64 = u64::MAX;

/// The bytes that a list of entries takes in a message.
pub open spec fn total_size(ents: Seq<EntryView>) -> nat
    decreases ents.len(),
{
    if ents.len() == 0 {
        0
    } else {
        total_size(ents.drop_last()) + ents.last().size()
    }
}

/// How many of the first entries of `rest` fit into `max_size` bytes, given that the first
/// `n` do.
pub open spec fn fit_from(rest: Seq<EntryView>, max_size: u64, n: int) -> int
    decreases rest.len() - n,
{
    if n >= rest.len() || n < 0 {
        rest.len() as int
    } else if total_size(rest.take(n + 1)) > max_size {
        n
    } else {
        fit_from(rest, max_size, n + 1)
    }
}

/// The entries follow one another without a gap and their terms never fall.
pub open spec fn contiguous(ents: Seq<EntryView>) -> bool {
    &&& forall|k: int| 0 <= k < ents.len() ==> (#[trigger] ents[k]).index == ents[0].index + k
    &&& forall|j: int, k: int|
        0 <= j <= k < ents.len() ==> (#[trigger] ents[j]).term <= (#[trigger] ents[k]).term
}

/// A log as a mathematical value.
pub struct RaftLogView {
    /// The entries behind the snapshot, oldest first.
    pub entries: Seq<EntryView>,
    /// The snapshot that stands for everything before them.
    pub snapshot: SnapshotView,
    pub committed: u64,
    pub applied: u64,
}

impl RaftLogView {
    /// The index of the last position that the snapshot stands for.
    pub open spec fn offset(self) -> int {
        self.snapshot.index as int
    }

    pub open spec fn first_index(self) -> int {
        self.offset() + 1
    }

    pub open spec fn last_index(self) -> int {
        self.offset() + self.entries.len()
    }

    /// The log holds the entry at `i`.
    pub open spec fn has(self, i: int) -> bool {
        self.offset() < i <= self.last_index()
    }

    pub open spec fn entry_at(self, i: int) -> EntryView {
        self.entries[i - self.offset() - 1]
    }

    /// The term of position `i`: known for the entries and for the end of the snapshot.
    pub open spec fn term_at(self, i: int) -> Option<u64> {
        if i == self.offset() {
            Some(self.snapshot.term)
        } else if self.has(i) {
            Some(self.entry_at(i).term)
        } else {
            None
        }
    }

    pub open spec fn last_term(self) -> u64 {
        if self.entries.len() == 0 {
            self.snapshot.term
        } else {
            self.entries.last().term
        }
    }

    /// The entries are numbered from the snapshot on without a gap, their terms never
    /// fall, and `applied <= committed <= last_index`, the snapshot being committed.
    pub open spec fn wf(self) -> bool {
        &&& self.last_index() < u64::MAX
        &&& forall|k: int|
            0 <= k < self.entries.len() ==> (#[trigger] self.entries[k]).index == self.offset() + 1
                + k
        &&& forall|k: int|
            0 <= k < self.entries.len() ==> self.snapshot.term <= (#[trigger] self.entries[k]).term
        &&& forall|j: int, k: int|
            0 <= j <= k < self.entries.len() ==> (#[trigger] self.entries[j]).term <= (
            #[trigger] self.entries[k]).term
        &&& self.offset() <= self.committed <= self.last_index()
        &&& self.applied <= self.committed
    }

    /// A log that ends at `(idx, term)` is at least as current as this one.
    pub open spec fn is_up_to_date(self, idx: u64, term: u64) -> bool {
        term > self.last_term() || (term == self.last_term() && idx >= self.last_index())
    }

    pub open spec fn match_term(self, i: u64, term: u64) -> bool {
        self.term_at(i as int) == Some(term)
    }

    /// The place in `ents`, at `from` or later, of the first entry that the log does not
    /// hold with the same term; `ents.len()` if there is none.
    pub open spec fn first_conflict(self, ents: Seq<EntryView>, from: int) -> int
        decreases ents.len() - from,
    {
        if from >= ents.len() || from < 0 {
            ents.len() as int
        } else if !self.match_term(ents[from].index, ents[from].term) {
            from
        } else {
            self.first_conflict(ents, from + 1)
        }
    }

    /// The index of the first entry of `ents` that the log does not hold with the same
    /// term; 0 if it holds them all.
    pub open spec fn find_conflict(self, ents: Seq<EntryView>) -> u64 {
        let pos = self.first_conflict(ents, 0);
        if pos == ents.len() {
            0
        } else {
            ents[pos].index
        }
    }

    /// `ents` can be put at their place: they are contiguous, start behind the committed
    /// part and not behind the end, and their terms go on from the log's.
    pub open spec fn can_replace(self, ents: Seq<EntryView>) -> bool {
        ents.len() > 0 ==> {
            &&& contiguous(ents)
            &&& self.committed < ents[0].index <= self.last_index() + 1
            &&& ents[0].index + ents.len() <= u64::MAX
            &&& self.term_at(ents[0].index - 1) is Some
            &&& self.term_at(ents[0].index - 1)->Some_0 <= ents[0].term
        }
    }

    /// The log with `ents` at their place: what stood there or later is gone.
    pub open spec fn replace_from(self, ents: Seq<EntryView>) -> RaftLogView {
        if ents.len() == 0 {
            self
        } else {
            RaftLogView {
                entries: self.entries.take(ents[0].index - self.offset() - 1) + ents,
                ..self
            }
        }
    }

    pub open spec fn commit_to(self, to: u64) -> RaftLogView {
        RaftLogView {
            committed: if self.committed < to {
                to
            } else {
                self.committed
            },
            ..self
        }
    }

    /// The entries of `ents` from the first conflict on would replace a committed entry.
    pub open spec fn conflicts_committed(self, ents: Seq<EntryView>) -> bool {
        let pos = self.first_conflict(ents, 0);
        pos < ents.len() && ents[pos].index <= self.committed
    }

    /// `ents` can be appended: they follow one another without a gap behind a position
    /// that the log holds, their terms go on from the term of that position, and from their
    /// first conflict with the log on they replace nothing that is committed.
    pub open spec fn can_append(self, ents: Seq<EntryView>) -> bool {
        ents.len() > 0 ==> {
            &&& contiguous(ents)
            &&& ents[0].index + ents.len() <= u64::MAX
            &&& self.term_at(ents[0].index - 1) is Some
            &&& self.term_at(ents[0].index - 1)->Some_0 <= ents[0].term
            &&& !self.conflicts_committed(ents)
        }
    }

    /// The log after the append of `ents`. Where they overlap what the log holds, the log
    /// is cut at the first entry that differs in its term, and the entries from there on
    /// take its place; entries that the log holds already change nothing.
    pub open spec fn append(self, ents: Seq<EntryView>) -> RaftLogView {
        self.replace_from(ents.skip(self.first_conflict(ents, 0)))
    }

    /// The log takes the append behind `(idx, term)`.
    pub open spec fn accepts_append(self, idx: u64, term: u64) -> bool {
        self.match_term(idx, term)
    }

    /// The log after an accepted append of `ents` behind `idx`, with the sender's commit
    /// index `committed`: the entries from the first conflict on replace what stood at
    /// their place, and the commit index goes up to `committed`, though not past the last
    /// new entry.
    pub open spec fn maybe_append(self, idx: u64, committed: u64, ents: Seq<EntryView>) -> RaftLogView {
        let last_new = (idx + ents.len()) as u64;
        self.append(ents).commit_to(
            if committed < last_new {
                committed
            } else {
                last_new
            },
        )
    }

    /// `max_index` is behind the commit index and its entry is of `term`.
    pub open spec fn commits(self, max_index: u64, term: u64) -> bool {
        max_index > self.committed && self.term_at(max_index as int) == Some(term)
    }

    /// The log once everything up to `index` is replaced by a snapshot of the application
    /// with the members `nodes` and the state `data`.
    pub open spec fn compact(self, index: u64, nodes: Seq<u64>, data: Seq<u8>) -> RaftLogView {
        RaftLogView {
            snapshot: SnapshotView { index, term: self.entry_at(index as int).term, nodes, data },
            entries: self.entries.skip(index - self.offset()),
            ..self
        }
    }

    /// The log that a snapshot leaves: no entries, everything up to it committed.
    pub open spec fn restore(self, snapshot: SnapshotView) -> RaftLogView {
        RaftLogView {
            entries: Seq::<EntryView>::empty(),
            snapshot,
            committed: snapshot.index,
            applied: self.applied,
        }
    }

    /// The entries from `lo` on that one message of `max_size` bytes takes: the first, and
    /// those behind it as long as the sum of their sizes stays within `max_size`.
    pub open spec fn slice(self, lo: u64, max_size: u64) -> Seq<EntryView> {
        if lo < self.first_index() || lo > self.last_index() {
            Seq::<EntryView>::empty()
        } else {
            let rest = self.entries.skip(lo - self.offset() - 1);
            rest.take(fit_from(rest, max_size, 1))
        }
    }

    /// The commit index of `next` is not below that of `self`, and every entry of `self`
    /// up to its commit index that `next` still holds is the same in both.
    pub open spec fn committed_kept_in(self, next: RaftLogView) -> bool {
        &&& self.committed <= next.committed
        &&& forall|i: int|
            self.has(i) && i <= self.committed && next.has(i) ==> #[trigger] next.entry_at(i)
                == self.entry_at(i)
    }

    /// `self` and `other` hold the same entries at every position up to `i` that both hold.
    pub open spec fn agrees_upto(self, other: RaftLogView, i: int) -> bool {
        forall|j: int|
            j <= i && self.has(j) && other.has(j) ==> #[trigger] self.entry_at(j)
                == other.entry_at(j)
    }
}

/// Entries put behind the commit index leave every committed entry where it was.
proof fn lemma_replace_keeps_committed(log: RaftLogView, ents: Seq<EntryView>)
    requires
        log.wf(),
        log.can_replace(ents),
    ensures
        log.committed_kept_in(log.replace_from(ents)),
        log.replace_from(ents).wf(),
{
    if ents.len() > 0 {
        let keep = ents[0].index - log.offset() - 1;
        let next = log.replace_from(ents);
        assert forall|k: int| 0 <= k < next.entries.len() implies (#[trigger] next.entries[k]).index
            == next.offset() + 1 + k by {
            if k >= keep {
                assert(next.entries[k] == ents[k - keep]);
            }
        }
        assert forall|k: int| 0 <= k < next.entries.len() implies next.snapshot.term <= (
        #[trigger] next.entries[k]).term by {
            if k >= keep {
                assert(next.entries[k] == ents[k - keep]);
                assert(ents[0].term <= ents[k - keep].term);
                if keep > 0 {
                    assert(log.entries[keep - 1].term <= ents[0].term);
                }
            }
        }
        assert forall|j: int, k: int| 0 <= j <= k < next.entries.len() implies (
        #[trigger] next.entries[j]).term <= (#[trigger] next.entries[k]).term by {
            if k >= keep {
                assert(next.entries[k] == ents[k - keep]);
                assert(ents[0].term <= ents[k - keep].term);
                if j >= keep {
                    assert(next.entries[j] == ents[j - keep]);
                } else {
                    assert(next.entries[j] == log.entries[j]);
                    assert(log.entries[j].term <= log.entries[keep - 1].term);
                }
            }
        }
        assert forall|i: int| log.has(i) && i <= log.committed && next.has(i) implies (
        #[trigger] next.entry_at(i)) == log.entry_at(i) by {
            assert(i - log.offset() - 1 < keep);
        }
    }
}

/// What `append` puts at its place: the entries from the first conflict on, which can be
/// put there.
pub proof fn lemma_append_tail(log: RaftLogView, ents: Seq<EntryView>)
    requires
        log.wf(),
        log.can_append(ents),
    ensures
        log.can_replace(ents.skip(log.first_conflict(ents, 0))),
        log.first_conflict(ents, 0) < ents.len() ==> log.append(ents).last_index() == ents.last().index
            && log.append(ents).last_term() == ents.last().term,
        log.first_conflict(ents, 0) == ents.len() ==> log.append(ents) == log,
        ents.len() > 0 ==> ents.last().index <= log.append(ents).last_index(),
{
    let pos = log.first_conflict(ents, 0);
    lemma_first_conflict(log, ents, 0);
    let tail = ents.skip(pos);
    if pos < ents.len() {
        assert(tail[0] == ents[pos]);
        assert(tail.last() == ents.last());
        assert forall|k: int| 0 <= k < tail.len() implies (#[trigger] tail[k]).index
            == tail[0].index + k by {
            assert(tail[k] == ents[pos + k]);
        }
        assert forall|j: int, k: int| 0 <= j <= k < tail.len() implies (#[trigger] tail[j]).term <= (
        #[trigger] tail[k]).term by {
            assert(tail[j] == ents[pos + j]);
            assert(tail[k] == ents[pos + k]);
        }
        if pos > 0 {
            assert(log.match_term(ents[pos - 1].index, ents[pos - 1].term));
            assert(ents[pos - 1].term <= ents[pos].term);
        }
        if !log.has(ents[pos].index as int) {
            assert(ents[pos].index == log.last_index() + 1) by {
                if pos > 0 {
                    assert(log.match_term(ents[pos - 1].index, ents[pos - 1].term));
                }
            }
        }
        let keep = tail[0].index - log.offset() - 1;
        assert(log.append(ents).entries.last() == tail.last());
    } else {
        assert(tail.len() == 0);
        if ents.len() > 0 {
            assert(log.match_term(ents[ents.len() - 1].index, ents[ents.len() - 1].term));
        }
    }
}

/// What was committed stays: a log that takes an append keeps every committed entry,
/// whatever the entries are.
pub proof fn lemma_append_keeps_committed(log: RaftLogView, ents: Seq<EntryView>)
    requires
        log.wf(),
        log.can_append(ents),
    ensures
        log.committed_kept_in(log.append(ents)),
        log.append(ents).wf(),
{
    lemma_append_tail(log, ents);
    lemma_replace_keeps_committed(log, ents.skip(log.first_conflict(ents, 0)));
}

/// Two logs that hold an entry of the same term at the same position hold the same entry
/// there: what the election rule gives, a leader writing one entry per position in its
/// term.
pub open spec fn same_term_same_entry(a: RaftLogView, b: RaftLogView) -> bool {
    forall|i: int|
        a.has(i) && b.has(i) && a.entry_at(i).term == b.entry_at(i).term ==> #[trigger] a.entry_at(
            i,
        ) == b.entry_at(i)
}

/// Log matching, one step. Take a leader and a follower of which entries of one term at
/// one position are the same entry, and whose logs agree up to `idx`. Once the follower has
/// taken the leader's entries behind `idx`, the logs agree up to the last of them.
pub proof fn lemma_append_keeps_agreement(
    leader: RaftLogView,
    follower: RaftLogView,
    idx: u64,
    committed: u64,
    ents: Seq<EntryView>,
)
    requires
        leader.wf(),
        follower.wf(),
        same_term_same_entry(leader, follower),
        follower.agrees_upto(leader, idx as int),
        idx + ents.len() <= leader.last_index(),
        leader.offset() <= idx,
        follower.offset() <= idx <= follower.last_index(),
        forall|k: int| 0 <= k < ents.len() ==> #[trigger] ents[k] == leader.entry_at(idx + 1 + k),
        !follower.conflicts_committed(ents),
    ensures
        follower.maybe_append(idx, committed, ents).agrees_upto(leader, idx + ents.len()),
{
    let pos = follower.first_conflict(ents, 0);
    lemma_first_conflict(follower, ents, 0);
    let next = follower.maybe_append(idx, committed, ents);
    let tail = ents.skip(pos);
    assert forall|k: int| 0 <= k < ents.len() implies (#[trigger] ents[k]).index == idx + 1 + k by {
        assert(ents[k] == leader.entry_at(idx + 1 + k));
    }
    assert forall|j: int| j <= idx + ents.len() && next.has(j) && leader.has(j) implies (
    #[trigger] next.entry_at(j)) == leader.entry_at(j) by {
        let keep = if pos < ents.len() {
            tail[0].index - follower.offset() - 1
        } else {
            follower.entries.len() as int
        };
        if pos < ents.len() {
            assert(tail[0] == ents[pos]);
        }
        if pos > 0 {
            assert(follower.match_term(ents[pos - 1].index, ents[pos - 1].term));
        }
        assert(0 <= keep <= follower.entries.len());
        let at = j - follower.offset() - 1;
        if at >= keep {
            assert(pos < ents.len());
            assert(next.entries[at] == tail[at - keep]);
            assert(tail[at - keep] == ents[pos + at - keep]);
        } else {
            assert(next.entry_at(j) == follower.entry_at(j));
            if j > idx {
                let k = j - idx - 1;
                assert(k < pos);
                assert(follower.match_term(ents[k].index, ents[k].term));
                assert(ents[k] == leader.entry_at(j));
                assert(follower.entry_at(j).term == leader.entry_at(j).term);
            }
        }
    }
}

/// The log holds every entry before the first conflict, and not the entry there.
pub proof fn lemma_first_conflict(log: RaftLogView, ents: Seq<EntryView>, from: int)
    requires
        0 <= from <= ents.len(),
    ensures
        from <= log.first_conflict(ents, from) <= ents.len(),
        forall|k: int|
            from <= k < log.first_conflict(ents, from) ==> log.match_term(
                (#[trigger] ents[k]).index,
                ents[k].term,
            ),
        log.first_conflict(ents, from) < ents.len() ==> !log.match_term(
            ents[log.first_conflict(ents, from)].index,
            ents[log.first_conflict(ents, from)].term,
        ),
    decreases ents.len() - from,
{
    if from < ents.len() && log.match_term(ents[from].index, ents[from].term) {
        lemma_first_conflict(log, ents, from + 1);
    }
}

/// Where `find_conflict` finds a conflict, it names the entry at `first_conflict`.
pub proof fn lemma_conflict_position(log: RaftLogView, ents: Seq<EntryView>)
    ensures
        0 <= log.first_conflict(ents, 0) <= ents.len(),
{
    lemma_first_conflict(log, ents, 0);
}

/// At least what was found to fit fits, and no more than there is.
pub proof fn lemma_fit_bounds(rest: Seq<EntryView>, max_size: u64, n: int)
    requires
        0 <= n <= rest.len(),
    ensures
        n <= fit_from(rest, max_size, n) <= rest.len(),
    decreases rest.len() - n,
{
    if n < rest.len() && total_size(rest.take(n + 1)) <= max_size {
        lemma_fit_bounds(rest, max_size, n + 1);
    }
}

proof fn lemma_total_size_take(ents: Seq<EntryView>, n: int)
    requires
        0 <= n < ents.len(),
    ensures
        total_size(ents.take(n + 1)) == total_size(ents.take(n)) + ents[n].size(),
{
    assert(ents.take(n + 1).drop_last() =~= ents.take(n));
}

/// The log of a peer.
#[derive(Debug)]
pub struct RaftLog {
    /// The entries behind the snapshot.
    pub entries: Vec<Entry>,
    /// The latest snapshot; with index 0 it stands for nothing.
    pub snapshot: Snapshot,
    /// The highest position known to be stored on a quorum.
    pub committed: u64,
    /// The highest position that the application has been told to apply.
    pub applied: u64,
}

impl View for RaftLog {
    type V = RaftLogView;

    open spec fn view(&self) -> RaftLogView {
        RaftLogView {
            entries: entries_view(self.entries@),
            snapshot: self.snapshot@,
            committed: self.committed,
            applied: self.applied,
        }
    }
}

impl RaftLog {
    /// The log that holds `entries` behind `snapshot`, with the snapshot committed and
    /// applied and nothing else.
    pub fn new(snapshot: Snapshot, entries: Vec<Entry>) -> (r: RaftLog)
        ensures
            r@ == (RaftLogView {
                entries: entries_view(entries@),
                snapshot: snapshot@,
                committed: snapshot@.index,
                applied: snapshot@.index,
            }),
    {
        let at: u64 = snapshot.metadata.index;
        RaftLog { entries, snapshot, committed: at, applied: at }
    }

    pub fn first_index(&self) -> (r: u64)
        requires
            self@.wf(),
        ensures
            r == self@.first_index(),
    {
        self.snapshot.metadata.index + 1
    }

    pub fn last_index(&self) -> (r: u64)
        requires
            self@.wf(),
        ensures
            r == self@.last_index(),
    {
        self.snapshot.metadata.index + self.entries.len() as u64
    }

    pub fn last_term(&self) -> (r: u64)
        requires
            self@.wf(),
        ensures
            r == self@.last_term(),
            self@.term_at(self@.last_index()) == Some(r),
    {
        let n: usize = self.entries.len();
        if n == 0 {
            self.snapshot.metadata.term
        } else {
            assert(self@.entries[n - 1] == self.entries@[n - 1]@);
            self.entries[n - 1].term
        }
    }

    pub fn get_applied(&self) -> (r: u64)
        ensures
            r == self.applied,
    {
        self.applied
    }

    /// The term of position `i`. Positions before the end of the snapshot are compacted,
    /// positions behind the last entry are unavailable.
    pub fn term(&self, i: u64) -> (r: Result<u64, Error>)
        requires
            self@.wf(),
        ensures
            match self@.term_at(i as int) {
                Some(t) => r matches Ok(v) && v == t,
                None => if i < self@.offset() {
                    r matches Err(Error::Store(StorageError::Compacted))
                } else {
                    r matches Err(Error::Store(StorageError::Unavailable))
                },
            },
    {
        let offset: u64 = self.snapshot.metadata.index;
        if i < offset {
            return Err(Error::Store(StorageError::Compacted));
        }
        if i == offset {
            return Ok(self.snapshot.metadata.term);
        }
        if i - offset > self.entries.len() as u64 {
            return Err(Error::Store(StorageError::Unavailable));
        }
        let at: usize = (i - offset - 1) as usize;
        assert(self@.entries[at as int] == self.entries@[at as int]@);
        Ok(self.entries[at].term)
    }

    /// `true` iff the log knows position `i` to be of `term`.
    pub fn match_term(&self, i: u64, term: u64) -> (r: bool)
        requires
            self@.wf(),
        ensures
            r == self@.match_term(i, term),
    {
        match self.term(i) {
            Ok(t) => t == term,
            Err(_) => false,
        }
    }

    /// `true` iff a log that ends at `(idx, term)` is at least as current as this one.
    pub fn is_up_to_date(&self, idx: u64, term: u64) -> (r: bool)
        requires
            self@.wf(),
        ensures
            r == self@.is_up_to_date(idx, term),
    {
        let last_term: u64 = self.last_term();
        term > last_term || (term == last_term && idx >= self.last_index())
    }

    /// The index of the first entry of `ents` that the log does not hold with the same
    /// term; 0 if it holds them all.
    pub fn find_conflict(&self, ents: &[Entry]) -> (r: u64)
        requires
            self@.wf(),
        ensures
            r == self@.find_conflict(entries_view(ents@)),
    {
        let ghost evs = entries_view(ents@);
        let mut k: usize = 0;
        while k < ents.len()
            invariant
                k <= ents@.len(),
                self@.wf(),
                evs == entries_view(ents@),
                self@.first_conflict(evs, 0) == self@.first_conflict(evs, k as int),
            decreases ents@.len() - k,
        {
            assert(evs[k as int] == ents@[k as int]@);
            if !self.match_term(ents[k].index, ents[k].term) {
                return ents[k].index;
            }
            k += 1;
        }
        0
    }

    /// Puts `ents` at their place, in place of what stood there or later. Returns the new
    /// last index.
    fn replace_from(&mut self, ents: &[Entry]) -> (r: u64)
        requires
            old(self)@.wf(),
            old(self)@.can_replace(entries_view(ents@)),
        ensures
            final(self)@ == old(self)@.replace_from(entries_view(ents@)),
            final(self)@.wf(),
            old(self)@.committed_kept_in(final(self)@),
            r == final(self)@.last_index(),
            final(self)@.last_term() == if ents@.len() > 0 {
                entries_view(ents@).last().term
            } else {
                old(self)@.last_term()
            },
    {
        let ghost evs = entries_view(ents@);
        proof {
            lemma_replace_keeps_committed(self@, evs);
        }
        if ents.len() == 0 {
            return self.last_index();
        }
        assert(evs[0] == ents@[0]@);
        assert(ents[0].index - self.snapshot.metadata.index - 1 <= self.entries@.len());
        let keep: usize = (ents[0].index - self.snapshot.metadata.index - 1) as usize;
        self.entries.truncate(keep);
        assert(entries_view(self.entries@) =~= old(self)@.entries.take(keep as int));
        let mut k: usize = 0;
        while k < ents.len()
            invariant
                k <= ents@.len(),
                evs == entries_view(ents@),
                self.snapshot == old(self).snapshot,
                self.committed == old(self).committed,
                self.applied == old(self).applied,
                entries_view(self.entries@) == old(self)@.entries.take(keep as int) + evs.take(
                    k as int,
                ),
            decreases ents@.len() - k,
        {
            let ghost prev = entries_view(self.entries@);
            self.entries.push(ents[k].duplicate());
            k += 1;
            proof {
                assert(evs[k - 1] == ents@[k - 1]@);
                assert(entries_view(self.entries@) =~= prev.push(evs[k - 1]));
                assert(evs.take(k as int) =~= evs.take(k - 1).push(evs[k - 1]));
                assert(prev.push(evs[k - 1]) =~= old(self)@.entries.take(keep as int) + evs.take(
                    k as int,
                ));
            }
        }
        assert(evs.take(ents@.len() as int) =~= evs);
        self.last_index()
    }

    /// Appends `ents`. Where they overlap what the log holds, the log is cut at the first
    /// entry that differs in its term; entries that the log holds already change nothing.
    /// Returns the new last index.
    pub fn append(&mut self, ents: &[Entry]) -> (r: u64)
        requires
            old(self)@.wf(),
            old(self)@.can_append(entries_view(ents@)),
        ensures
            final(self)@ == old(self)@.append(entries_view(ents@)),
            final(self)@.wf(),
            old(self)@.committed_kept_in(final(self)@),
            r == final(self)@.last_index(),
            final(self)@.last_term() == old(self)@.last_term() || (ents@.len() > 0
                && final(self)@.last_term() == entries_view(ents@).last().term),
            ents@.len() > 0 ==> entries_view(ents@).last().index <= r,
    {
        let ghost evs = entries_view(ents@);
        proof {
            lemma_append_tail(self@, evs);
            lemma_first_conflict(self@, evs, 0);
        }
        let ghost pos = self@.first_conflict(evs, 0);
        let conflict: u64 = self.find_conflict(ents);
        if ents.len() > 0 && conflict != 0 {
            assert(evs[0] == ents@[0]@);
            assert(evs[pos].index == evs[0].index + pos);
            let from: usize = (conflict - ents[0].index) as usize;
            let tail = vstd::slice::slice_subrange(ents, from, ents.len());
            assert(entries_view(tail@) =~= evs.skip(pos));
            self.replace_from(tail);
        } else {
            proof {
                if pos < evs.len() {
                    assert(evs[0].index >= 1);
                    assert(evs[pos].index == evs[0].index + pos);
                }
                assert(evs.skip(pos).len() == 0);
            }
        }
        self.last_index()
    }

    /// Moves the commit index up to `to_commit`; it never moves down.
    pub fn commit_to(&mut self, to_commit: u64)
        requires
            old(self)@.wf(),
            to_commit <= old(self)@.last_index(),
        ensures
            final(self)@ == old(self)@.commit_to(to_commit),
            final(self)@.wf(),
            old(self)@.committed_kept_in(final(self)@),
    {
        if self.committed < to_commit {
            self.committed = to_commit;
        }
    }

    /// Takes note that the application was told to apply everything up to `idx`.
    pub fn applied_to(&mut self, idx: u64)
        requires
            old(self)@.wf(),
            idx == 0 || old(self).applied <= idx <= old(self).committed,
        ensures
            final(self)@ == (RaftLogView {
                applied: if idx == 0 {
                    old(self).applied
                } else {
                    idx
                },
                ..old(self)@
            }),
            final(self)@.wf(),
    {
        if idx == 0 {
            return ;
        }
        self.applied = idx;
    }

    /// Takes the entries `ents` that follow `(idx, term)` in the sender's log, whose commit
    /// index is `committed`. Returns the index of the last of them, or `None`, with the log
    /// unchanged, if the log does not hold `(idx, term)`.
    pub fn maybe_append(&mut self, idx: u64, term: u64, committed: u64, ents: &[Entry]) -> (r:
        Option<u64>)
        requires
            old(self)@.wf(),
            idx + ents@.len() < u64::MAX,
            forall|k: int|
                0 <= k < ents@.len() ==> (#[trigger] entries_view(ents@)[k]).index == idx + 1 + k,
            forall|k: int|
                0 <= k < ents@.len() ==> term <= (#[trigger] entries_view(ents@)[k]).term,
            forall|j: int, k: int|
                0 <= j <= k < ents@.len() ==> (#[trigger] entries_view(ents@)[j]).term <= (
                #[trigger] entries_view(ents@)[k]).term,
            !old(self)@.conflicts_committed(entries_view(ents@)),
        ensures
            old(self)@.accepts_append(idx, term) ==> r == Some((idx + ents@.len()) as u64)
                && final(self)@ == old(self)@.maybe_append(idx, committed, entries_view(ents@)),
            !old(self)@.accepts_append(idx, term) ==> r is None && final(self)@ == old(self)@,
            final(self)@.wf(),
            old(self)@.committed_kept_in(final(self)@),
            final(self)@.last_term() == old(self)@.last_term() || (ents@.len() > 0
                && final(self)@.last_term() == entries_view(ents@).last().term),
    {
        if !self.match_term(idx, term) {
            return None;
        }
        let ghost evs = entries_view(ents@);
        let last_new: u64 = idx + ents.len() as u64;
        proof {
            if evs.len() > 0 {
                assert(evs[0].index == idx + 1);
                assert(evs[evs.len() - 1].index == last_new);
                assert forall|k: int| 0 <= k < evs.len() implies (#[trigger] evs[k]).index
                    == evs[0].index + k by {}
            }
        }
        self.append(ents);
        let ghost mid = self@;
        let to_commit: u64 = if committed < last_new {
            committed
        } else {
            last_new
        };
        self.commit_to(to_commit);
        proof {
            assert forall|i: int|
                old(self)@.has(i) && i <= old(self)@.committed && self@.has(i) implies (
            #[trigger] self@.entry_at(i)) == old(self)@.entry_at(i) by {
                assert(mid.entry_at(i) == old(self)@.entry_at(i));
            }
        }
        Some(last_new)
    }

    /// Commits everything up to `max_index` if that is behind the commit index and of
    /// `term`. Returns whether it did.
    pub fn maybe_commit(&mut self, max_index: u64, term: u64) -> (r: bool)
        requires
            old(self)@.wf(),
        ensures
            r == old(self)@.commits(max_index, term),
            final(self)@ == if r {
                old(self)@.commit_to(max_index)
            } else {
                old(self)@
            },
            final(self)@.wf(),
            old(self)@.committed_kept_in(final(self)@),
    {
        if max_index > self.committed && self.match_term(max_index, term) {
            self.commit_to(max_index);
            true
        } else {
            false
        }
    }

    /// Copies of the entries from `lo` on, as many as fit into `max_size` bytes and one at
    /// least. Nothing if `lo` is behind the end; an error if `lo` was compacted away.
    pub fn entries(&self, lo: u64, max_size: u64) -> (r: Result<Vec<Entry>, Error>)
        requires
            self@.wf(),
        ensures
            lo < self@.first_index() ==> r matches Err(Error::Store(StorageError::Compacted)),
            lo >= self@.first_index() ==> (r matches Ok(v) && entries_view(v@) == self@.slice(
                lo,
                max_size,
            )),
    {
        let offset: u64 = self.snapshot.metadata.index;
        if lo <= offset {
            return Err(Error::Store(StorageError::Compacted));
        }
        let mut out: Vec<Entry> = Vec::new();
        if lo - offset > self.entries.len() as u64 {
            assert(entries_view(out@) =~= Seq::<EntryView>::empty());
            return Ok(out);
        }
        let from: usize = (lo - offset - 1) as usize;
        let ghost rest = self@.entries.skip(from as int);
        let n: usize = self.entries.len();
        let mut size: u64 = self.entries[from].size();
        out.push(self.entries[from].duplicate());
        let mut k: usize = from + 1;
        let mut done: bool = false;
        proof {
            assert(self@.entries[from as int] == self.entries@[from as int]@);
            assert(rest.take(1).drop_last() =~= Seq::<EntryView>::empty());
            assert(rest.take(1).last() == self@.entries[from as int]);
            assert(total_size(rest.take(1).drop_last()) == 0);
        }
        while k < n && !done
            invariant
                from < k <= n,
                n == self.entries@.len(),
                rest == self@.entries.skip(from as int),
                out@.len() == k - from,
                forall|j: int|
                    0 <= j < out@.len() ==> (#[trigger] out@[j])@ == self@.entries[from + j],
                17 <= size <= total_size(rest.take(k - from)),
                size < u64::MAX ==> size == total_size(rest.take(k - from)),
                fit_from(rest, max_size, 1) == if done {
                    k - from
                } else {
                    fit_from(rest, max_size, k - from)
                },
            decreases n - k, (if done { 0int } else { 1int }),
        {
            let e = &self.entries[k];
            assert(self@.entries[k as int] == e@);
            let s: u64 = e.size();
            proof {
                lemma_total_size_take(rest, k - from);
                assert(rest[k - from] == e@);
            }
            if s > u64::MAX - size {
                done = true;
            } else if size + s > max_size {
                done = true;
            } else {
                size = size + s;
                out.push(e.duplicate());
                k += 1;
            }
        }
        proof {
            assert(rest.len() == n - from);
            assert(entries_view(out@) =~= rest.take(out@.len() as int));
        }
        Ok(out)
    }

    /// A copy of the latest snapshot.
    pub fn snapshot(&self) -> (r: Snapshot)
        ensures
            r@ == self@.snapshot,
    {
        self.snapshot.duplicate()
    }

    /// Replaces the log by `snapshot`: no entries are left, and everything up to it is
    /// committed.
    pub fn restore(&mut self, snapshot: Snapshot)
        requires
            old(self)@.wf(),
            old(self).committed <= snapshot@.index < u64::MAX,
        ensures
            final(self)@ == old(self)@.restore(snapshot@),
            final(self)@.wf(),
            old(self)@.committed_kept_in(final(self)@),
    {
        self.committed = snapshot.metadata.index;
        self.entries = Vec::new();
        self.snapshot = snapshot;
        assert(self@.entries =~= Seq::<EntryView>::empty());
    }

    /// Replaces everything up to `index`, which the application has applied, by a
    /// snapshot of the application: its state `data` and the members `nodes`.
    pub fn compact(&mut self, index: u64, nodes: Vec<u64>, data: Vec<u8>)
        requires
            old(self)@.wf(),
            old(self)@.offset() < index <= old(self).applied,
        ensures
            final(self)@ == old(self)@.compact(index, nodes@, data@),
            final(self)@.wf(),
            old(self)@.committed_kept_in(final(self)@),
    {
        let n: usize = self.entries.len();
        let d: u64 = index - self.snapshot.metadata.index;
        assert(index <= self@.last_index());
        assert(d <= n);
        let cut: usize = d as usize;
        assert(self@.entries[cut - 1] == self.entries@[cut - 1]@);
        let term: u64 = self.entries[cut - 1].term;
        let rest = self.entries.split_off(cut);
        self.entries = rest;
        self.snapshot = Snapshot {
            data,
            metadata: crate::raft::message::SnapshotMetadata {
                conf_state: crate::raft::message::ConfState { nodes },
                index,
                term,
            },
        };
        proof {
            assert(self@.entries =~= old(self)@.entries.skip(cut as int));
            assert forall|k: int| 0 <= k < self@.entries.len() implies (
            #[trigger] self@.entries[k]).index == self@.offset() + 1 + k by {
                assert(self@.entries[k] == old(self)@.entries[k + cut]);
            }
            assert forall|k: int| 0 <= k < self@.entries.len() implies self@.snapshot.term <= (
            #[trigger] self@.entries[k]).term by {
                assert(self@.entries[k] == old(self)@.entries[k + cut]);
                assert(old(self)@.entries[cut - 1].term <= old(self)@.entries[k + cut].term);
            }
            assert forall|j: int, k: int| 0 <= j <= k < self@.entries.len() implies (
            #[trigger] self@.entries[j]).term <= (#[trigger] self@.entries[k]).term by {
                assert(self@.entries[j] == old(self)@.entries[j + cut]);
                assert(self@.entries[k] == old(self)@.entries[k + cut]);
            }
            assert forall|i: int|
                old(self)@.has(i) && i <= old(self)@.committed && self@.has(i) implies (
            #[trigger] self@.entry_at(i)) == old(self)@.entry_at(i) by {
                assert(self@.entries[i - self@.offset() - 1] == old(self)@.entries[i
                    - self@.offset() - 1 + cut]);
            }
        }
    }
}

} // verus!
