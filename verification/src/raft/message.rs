//! The values that peers store and exchange: entries, states, snapshots and messages.

use crate::util::order::copy_bytes;
use vstd::prelude::*;

verus! {

/// What an entry carries.
#[derive(Clone, Copy, Debug, PartialEq, Eq, Structural)]
pub enum EntryType {
    EntryNormal,
    EntryConfChange,
}

/// The kinds of message. `MsgHup`, `MsgBeat`, `MsgCheckQuorum`, `MsgUnreachable` and
/// `MsgSnapStatus` are local: a peer sends them to itself.
#[derive(Clone, Copy, Debug, PartialEq, Eq, Structural)]
pub enum MessageType {
    MsgHup,
    MsgBeat,
    MsgPropose,
    MsgAppend,
    MsgAppendResponse,
    MsgRequestVote,
    MsgRequestVoteResponse,
    MsgSnapshot,
    MsgHeartbeat,
    MsgHeartbeatResponse,
    MsgUnreachable,
    MsgSnapStatus,
    MsgCheckQuorum,
}

/// Bytes that an entry takes in a message besides its payload.
pub const ENTRY_HEADER_SIZE: u64 = 17;

/// One position of the replicated log.
#[derive(Debug)]
pub struct Entry {
    pub entry_type: EntryType,
    pub term: u64,
    pub index: u64,
    pub data: Vec<u8>,
}

/// An entry as a mathematical value.
pub struct EntryView {
    pub entry_type: EntryType,
    pub term: u64,
    pub index: u64,
    pub data: Seq<u8>,
}

impl EntryView {
    /// The bytes that the entry takes in a message.
    pub open spec fn size(self) -> nat {
        self.data.len() + ENTRY_HEADER_SIZE as nat
    }
}

impl View for Entry {
    type V = EntryView;

    open spec fn view(&self) -> EntryView {
        EntryView {
            entry_type: self.entry_type,
            term: self.term,
            index: self.index,
            data: self.data@,
        }
    }
}

impl Entry {
    /// An empty normal entry at position 0.
    pub fn new() -> (r: Entry)
        ensures
            r@ == (EntryView {
                entry_type: EntryType::EntryNormal,
                term: 0,
                index: 0,
                data: Seq::<u8>::empty(),
            }),
    {
        Entry { entry_type: EntryType::EntryNormal, term: 0, index: 0, data: Vec::new() }
    }

    /// A copy of the entry.
    pub fn duplicate(&self) -> (r: Entry)
        ensures
            r@ == self@,
    {
        Entry {
            entry_type: self.entry_type,
            term: self.term,
            index: self.index,
            data: copy_bytes(self.data.as_slice()),
        }
    }

    /// The bytes that the entry takes in a message, `u64::MAX` at most.
    pub fn size(&self) -> (r: u64)
        ensures
            r == if self@.size() <= u64::MAX {
                self@.size() as u64
            } else {
                u64::MAX
            },
    {
        let n: usize = self.data.len();
        if n as u64 > u64::MAX - ENTRY_HEADER_SIZE {
            u64::MAX
        } else {
            n as u64 + ENTRY_HEADER_SIZE
        }
    }
}

/// The views of a list of entries.
pub open spec fn entries_view(es: Seq<Entry>) -> Seq<EntryView> {
    Seq::new(es.len(), |i: int| es[i]@)
}

/// A copy of a list of entries.
pub fn duplicate_entries(es: &[Entry]) -> (r: Vec<Entry>)
    ensures
        entries_view(r@) == entries_view(es@),
{
    let mut out: Vec<Entry> = Vec::with_capacity(es.len());
    let mut i: usize = 0;
    while i < es.len()
        invariant
            i <= es@.len(),
            out@.len() == i,
            forall|j: int| 0 <= j < i ==> (#[trigger] out@[j])@ == es@[j]@,
        decreases es@.len() - i,
    {
        out.push(es[i].duplicate());
        i += 1;
    }
    assert(entries_view(out@) =~= entries_view(es@));
    out
}

/// What a peer must keep across restarts.
#[derive(Clone, Copy, Debug, PartialEq, Eq, Structural)]
pub struct HardState {
    pub term: u64,
    pub vote: u64,
    pub commit: u64,
}

impl HardState {
    /// The state of a peer that has seen nothing.
    pub fn new() -> (r: HardState)
        ensures
            r == (HardState { term: 0, vote: 0, commit: 0 }),
    {
        HardState { term: 0, vote: 0, commit: 0 }
    }
}

/// The members of a group.
#[derive(Debug)]
pub struct ConfState {
    pub nodes: Vec<u64>,
}

/// Where a snapshot stands in the log and who was a member at that point.
#[derive(Debug)]
pub struct SnapshotMetadata {
    pub conf_state: ConfState,
    pub index: u64,
    pub term: u64,
}

/// The state of the application up to a log position; it stands for the entries up to it.
#[derive(Debug)]
pub struct Snapshot {
    pub data: Vec<u8>,
    pub metadata: SnapshotMetadata,
}

/// A snapshot as a mathematical value.
pub struct SnapshotView {
    pub data: Seq<u8>,
    pub index: u64,
    pub term: u64,
    pub nodes: Seq<u64>,
}

impl SnapshotView {
    /// The snapshot that stands for nothing.
    pub open spec fn empty() -> SnapshotView {
        SnapshotView {
            data: Seq::<u8>::empty(),
            index: 0,
            term: 0,
            nodes: Seq::<u64>::empty(),
        }
    }
}

impl View for Snapshot {
    type V = SnapshotView;

    open spec fn view(&self) -> SnapshotView {
        SnapshotView {
            data: self.data@,
            index: self.metadata.index,
            term: self.metadata.term,
            nodes: self.metadata.conf_state.nodes@,
        }
    }
}

/// A copy of a list of ids.
pub fn copy_ids(a: &[u64]) -> (r: Vec<u64>)
    ensures
        r@ == a@,
{
    let mut out: Vec<u64> = Vec::with_capacity(a.len());
    let mut i: usize = 0;
    while i < a.len()
        invariant
            i <= a@.len(),
            out@ == a@.subrange(0, i as int),
        decreases a@.len() - i,
    {
        out.push(a[i]);
        i += 1;
        assert(out@ =~= a@.subrange(0, i as int));
    }
    assert(out@ =~= a@);
    out
}

impl Snapshot {
    /// The snapshot that stands for nothing.
    pub fn new() -> (r: Snapshot)
        ensures
            r@ == SnapshotView::empty(),
    {
        Snapshot {
            data: Vec::new(),
            metadata: SnapshotMetadata {
                conf_state: ConfState { nodes: Vec::new() },
                index: 0,
                term: 0,
            },
        }
    }

    /// A copy of the snapshot.
    pub fn duplicate(&self) -> (r: Snapshot)
        ensures
            r@ == self@,
    {
        Snapshot {
            data: copy_bytes(self.data.as_slice()),
            metadata: SnapshotMetadata {
                conf_state: ConfState {
                    nodes: copy_ids(self.metadata.conf_state.nodes.as_slice()),
                },
                index: self.metadata.index,
                term: self.metadata.term,
            },
        }
    }
}

/// What one peer tells another, or itself.
#[derive(Debug)]
pub struct Message {
    pub msg_type: MessageType,
    pub to: u64,
    pub from: u64,
    pub term: u64,
    pub log_term: u64,
    pub index: u64,
    pub entries: Vec<Entry>,
    pub commit: u64,
    pub snapshot: Snapshot,
    pub reject: bool,
    pub reject_hint: u64,
}

/// A message as a mathematical value.
pub struct MessageView {
    pub msg_type: MessageType,
    pub to: u64,
    pub from: u64,
    pub term: u64,
    pub log_term: u64,
    pub index: u64,
    pub entries: Seq<EntryView>,
    pub commit: u64,
    pub snapshot: SnapshotView,
    pub reject: bool,
    pub reject_hint: u64,
}

impl MessageView {
    /// The message of kind `t` for `to` with every other field empty.
    pub open spec fn bare(t: MessageType, to: u64) -> MessageView {
        MessageView {
            msg_type: t,
            to,
            from: 0,
            term: 0,
            log_term: 0,
            index: 0,
            entries: Seq::<EntryView>::empty(),
            commit: 0,
            snapshot: SnapshotView::empty(),
            reject: false,
            reject_hint: 0,
        }
    }

    /// The entries follow the position `self.index` without a gap, and their terms start at
    /// `self.log_term` or above and never fall.
    pub open spec fn entries_follow(self) -> bool {
        &&& self.index + self.entries.len() < u64::MAX
        &&& forall|k: int|
            0 <= k < self.entries.len() ==> (#[trigger] self.entries[k]).index == self.index + 1
                + k
        &&& forall|k: int|
            0 <= k < self.entries.len() ==> self.log_term <= (#[trigger] self.entries[k]).term
                <= self.term
        &&& forall|j: int, k: int|
            0 <= j <= k < self.entries.len() ==> (#[trigger] self.entries[j]).term <= (
            #[trigger] self.entries[k]).term
    }
}

impl View for Message {
    type V = MessageView;

    open spec fn view(&self) -> MessageView {
        MessageView {
            msg_type: self.msg_type,
            to: self.to,
            from: self.from,
            term: self.term,
            log_term: self.log_term,
            index: self.index,
            entries: entries_view(self.entries@),
            commit: self.commit,
            snapshot: self.snapshot@,
            reject: self.reject,
            reject_hint: self.reject_hint,
        }
    }
}

/// The views of a list of messages.
pub open spec fn messages_view(ms: Seq<Message>) -> Seq<MessageView> {
    Seq::new(ms.len(), |i: int| ms[i]@)
}

impl Message {
    /// A message of kind `MsgHup` for nobody, with every field empty.
    pub fn new() -> (r: Message)
        ensures
            r@ == MessageView::bare(MessageType::MsgHup, 0),
    {
        let r = Message {
            msg_type: MessageType::MsgHup,
            to: 0,
            from: 0,
            term: 0,
            log_term: 0,
            index: 0,
            entries: Vec::new(),
            commit: 0,
            snapshot: Snapshot::new(),
            reject: false,
            reject_hint: 0,
        };
        assert(r@.entries =~= Seq::<EntryView>::empty());
        r
    }

    /// `true` iff the entries that the message carries follow its position without a gap
    /// and with terms that never fall.
    pub fn entries_follow(&self) -> (r: bool)
        ensures
            r == self@.entries_follow(),
    {
        let n: usize = self.entries.len();
        if n as u64 >= u64::MAX - self.index {
            return false;
        }
        let mut k: usize = 0;
        let mut last_term: u64 = self.log_term;
        while k < n
            invariant
                k <= n,
                n == self.entries@.len(),
                self.index + n < u64::MAX,
                self.log_term <= last_term <= self.term || k == 0,
                k == 0 ==> last_term == self.log_term,
                k > 0 ==> last_term == self.entries@[k - 1].term,
                forall|j: int|
                    0 <= j < k ==> (#[trigger] self@.entries[j]).index == self.index + 1 + j,
                forall|j: int|
                    0 <= j < k ==> self.log_term <= (#[trigger] self@.entries[j]).term
                        <= self.term,
                forall|i: int, j: int|
                    0 <= i <= j < k ==> (#[trigger] self@.entries[i]).term <= (
                    #[trigger] self@.entries[j]).term,
            decreases n - k,
        {
            let e = &self.entries[k];
            assert(self@.entries[k as int] == e@);
            if e.index != self.index + 1 + k as u64 || e.term < last_term || e.term > self.term {
                proof {
                    if k > 0 {
                        assert(self@.entries[k - 1].term == last_term);
                    }
                }
                return false;
            }
            last_term = e.term;
            k += 1;
            assert forall|i: int, j: int| 0 <= i <= j < k implies (
            #[trigger] self@.entries[i]).term <= (#[trigger] self@.entries[j]).term by {
                if j == k - 1 && i < j {
                    assert(self@.entries[i].term <= self@.entries[k - 2].term);
                }
            }
        }
        true
    }
}

/// A message of kind `field_type` for `to`. `from`, if given, is filled in; every other
/// field is empty.
pub fn new_message(to: u64, field_type: MessageType, from: Option<u64>) -> (m: Message)
    ensures
        m@ == (MessageView {
            from: match from {
                Some(id) => id,
                None => 0,
            },
            ..MessageView::bare(field_type, to)
        }),
{
    let mut m = Message::new();
    m.to = to;
    if let Some(id) = from {
        m.from = id;
    }
    m.msg_type = field_type;
    m
}

} // verus!
