use tikv::raft::errors::{Error, StorageError};
use tikv::raft::message::{
    new_message, ConfState, Entry, EntryType, HardState, Message, MessageType, Snapshot,
    SnapshotMetadata,
};
use tikv::raft::progress::{new_progress, Inflights, ProgressState};
use tikv::raft::raft::{Config, MemStorage, Raft, StateRole, INVALID_ID};
use tikv::raft::raft_log::{RaftLog, NO_LIMIT};

const ELECTION_TICK: usize = 10;
const HEARTBEAT_TICK: usize = 1;

fn new_config(id: u64, peers: Vec<u64>) -> Config {
    Config {
        id,
        peers,
        election_tick: ELECTION_TICK,
        heartbeat_tick: HEARTBEAT_TICK,
        storage: MemStorage::new(),
        applied: 0,
        max_size_per_msg: NO_LIMIT,
        max_inflight_msgs: 256,
        check_quorum: false,
    }
}

fn entry(term: u64, index: u64, data: &[u8]) -> Entry {
    Entry { entry_type: EntryType::EntryNormal, term, index, data: data.to_vec() }
}

fn propose(data: &[u8]) -> Message {
    let mut m = new_message(INVALID_ID, MessageType::MsgPropose, None);
    m.entries = vec![entry(0, 0, data)];
    m
}

/// Peers that talk to each other, some of them cut off.
struct Network {
    peers: Vec<Raft>,
    cut_off: Vec<u64>,
}

impl Network {
    fn new(n: u64) -> Network {
        let ids: Vec<u64> = (1..=n).collect();
        let peers = ids.iter().map(|id| Raft::new(&new_config(*id, ids.clone()))).collect();
        Network { peers, cut_off: vec![] }
    }

    fn peer(&mut self, id: u64) -> &mut Raft {
        &mut self.peers[(id - 1) as usize]
    }

    /// Delivers what the peers want sent until nothing is left.
    fn deliver(&mut self) {
        loop {
            let mut msgs: Vec<Message> = vec![];
            for p in self.peers.iter_mut() {
                msgs.append(&mut p.msgs);
            }
            if msgs.is_empty() {
                return;
            }
            for m in msgs {
                if self.cut_off.contains(&m.to) || self.cut_off.contains(&m.from) {
                    continue;
                }
                if m.to == INVALID_ID || m.to as usize > self.peers.len() {
                    continue;
                }
                let p = self.peer(m.to);
                if p.can_step(&m) {
                    p.step(m).unwrap();
                }
            }
        }
    }

    fn step(&mut self, id: u64, m: Message) {
        let p = self.peer(id);
        assert!(p.can_step(&m));
        p.step(m).unwrap();
        self.deliver();
    }

    fn elect(&mut self, id: u64) {
        let hup = new_message(INVALID_ID, MessageType::MsgHup, Some(id));
        self.step(id, hup);
        assert_eq!(self.peer(id).state, StateRole::Leader);
    }

    fn leaders(&self) -> Vec<u64> {
        self.peers
            .iter()
            .filter(|p| p.state == StateRole::Leader && !self.cut_off.contains(&p.id))
            .map(|p| p.id)
            .collect()
    }
}

#[test]
fn test_config_validate() {
    let mut c = new_config(0, vec![]);
    match c.validate() {
        Err(Error::ConfigInvalid(s)) => assert_eq!(s, "invalid node id"),
        other => panic!("expect an invalid configuration, but got {:?}", other),
    }
    c.id = 1;
    c.heartbeat_tick = 0;
    match c.validate() {
        Err(Error::ConfigInvalid(s)) => assert_eq!(s, "heartbeat tick must greater than 0"),
        other => panic!("expect an invalid configuration, but got {:?}", other),
    }
    c.heartbeat_tick = 10;
    match c.validate() {
        Err(Error::ConfigInvalid(s)) => {
            assert_eq!(s, "election tick must be greater than heartbeat tick")
        }
        other => panic!("expect an invalid configuration, but got {:?}", other),
    }
    c.heartbeat_tick = 1;
    c.max_inflight_msgs = 0;
    match c.validate() {
        Err(Error::ConfigInvalid(s)) => {
            assert_eq!(s, "max inflight messages must be greater than 0")
        }
        other => panic!("expect an invalid configuration, but got {:?}", other),
    }
    c.max_inflight_msgs = 1;
    assert!(c.validate().is_ok());
}

#[test]
fn test_new_raft_is_follower() {
    let r = Raft::new(&new_config(1, vec![3, 1, 2, 2]));
    assert_eq!(r.state, StateRole::Follower);
    assert_eq!(r.lead, INVALID_ID);
    assert_eq!(r.nodes(), vec![1, 2, 3]);
    assert_eq!(r.hard_state(), HardState { term: 0, vote: 0, commit: 0 });
    assert_eq!(r.soft_state().raft_state, StateRole::Follower);
    assert!(r.msgs.is_empty());
}

#[test]
fn test_single_node_becomes_leader() {
    let mut r = Raft::new(&new_config(1, vec![1]));
    let hup = new_message(INVALID_ID, MessageType::MsgHup, Some(1));
    r.step(hup).unwrap();
    assert_eq!(r.state, StateRole::Leader);
    assert_eq!(r.hs.term, 1);
    assert_eq!(r.hs.vote, 1);
    // the empty entry of the new term is committed at once
    assert_eq!(r.raft_log.last_index(), 1);
    assert_eq!(r.raft_log.committed, 1);
    assert_eq!(r.hs.commit, 1);
}

#[test]
fn test_election_timeout_is_randomized() {
    let mut r = Raft::new(&new_config(1, vec![1, 2, 3]));
    // with the number 4 from chance the timeout is 14 ticks: the 15th tick starts the election
    for _ in 0..14 {
        r.tick_with(4);
        assert_eq!(r.state, StateRole::Follower);
        assert!(r.msgs.is_empty());
    }
    r.tick_with(4);
    assert_eq!(r.state, StateRole::Candidate);
    assert_eq!(r.hs.term, 1);
    assert_eq!(r.msgs.len(), 2);
    assert_eq!(r.msgs[0].msg_type, MessageType::MsgRequestVote);
    assert_eq!(r.msgs[0].to, 2);
    assert_eq!(r.msgs[1].to, 3);

    // whatever chance gives, the election starts within two timeouts
    let mut r = Raft::new(&new_config(1, vec![1, 2, 3]));
    let mut ticks = 0;
    while r.state == StateRole::Follower {
        r.tick();
        ticks += 1;
        assert!(ticks <= 2 * ELECTION_TICK);
    }
    assert!(ticks > ELECTION_TICK);
}

#[test]
fn test_leader_election_with_three_peers() {
    let mut net = Network::new(3);
    net.elect(1);
    let old_term = net.peer(1).hs.term;
    assert_eq!(net.peer(2).lead, 1);
    assert_eq!(net.peer(3).lead, 1);

    // the leader stops
    net.cut_off = vec![1];
    let mut ticks = 0;
    while net.leaders().is_empty() {
        // chance gives the two different timeouts
        net.peer(2).tick_with(3);
        net.peer(3).tick_with(7);
        net.deliver();
        ticks += 1;
        assert!(ticks <= 2 * ELECTION_TICK);
    }
    let leaders = net.leaders();
    assert_eq!(leaders.len(), 1);
    assert!(leaders[0] == 2 || leaders[0] == 3);
    assert_eq!(leaders[0], 2);
    assert!(net.peer(leaders[0]).hs.term > old_term);
    let new_term = net.peer(2).hs.term;
    assert_eq!(net.peer(3).hs.term, new_term);
    assert_eq!(net.peer(3).lead, 2);
}

#[test]
fn test_log_replication_under_partition() {
    let mut net = Network::new(3);
    net.elect(1);
    assert_eq!(net.peer(1).raft_log.committed, 1);

    // a write while 3 is cut off commits on the quorum of 1 and 2
    net.cut_off = vec![3];
    net.step(1, propose(b"first"));
    net.step(1, propose(b"second"));
    assert_eq!(net.peer(1).raft_log.committed, 3);
    assert_eq!(net.peer(2).raft_log.last_index(), 3);
    assert_eq!(net.peer(3).raft_log.last_index(), 1);
    // the follower learns of the commit with the next message
    let beat = new_message(INVALID_ID, MessageType::MsgBeat, Some(1));
    net.step(1, beat);
    assert_eq!(net.peer(2).raft_log.committed, 3);

    // 3 comes back and catches up through appends
    net.cut_off = vec![];
    let beat = new_message(INVALID_ID, MessageType::MsgBeat, Some(1));
    net.step(1, beat);
    assert_eq!(net.peer(3).raft_log.last_index(), 3);
    assert_eq!(net.peer(3).raft_log.committed, 3);
    for i in 0..3 {
        let data = net.peer(1).raft_log.entries[i].data.clone();
        let term = net.peer(1).raft_log.entries[i].term;
        assert_eq!(net.peer(3).raft_log.entries[i].data, data);
        assert_eq!(net.peer(3).raft_log.entries[i].term, term);
    }
    assert_eq!(net.peer(3).raft_log.entries[1].data, b"first".to_vec());
}

#[test]
fn test_catch_up_by_snapshot() {
    let mut net = Network::new(3);
    net.elect(1);
    net.cut_off = vec![3];
    for i in 0..5u8 {
        net.step(1, propose(&[i]));
    }
    assert_eq!(net.peer(1).raft_log.committed, 6);
    // the application applies and the log is cut
    net.peer(1).applied_to(6);
    net.peer(1).compact(5, b"state at 5".to_vec());
    assert_eq!(net.peer(1).raft_log.first_index(), 6);
    assert!(matches!(
        net.peer(1).raft_log.term(3),
        Err(Error::Store(StorageError::Compacted))
    ));

    // 3 comes back: what it needs is gone from the log, so it gets the snapshot
    net.cut_off = vec![];
    net.peer(1).prs[2].1.recent_active = true;
    let beat = new_message(INVALID_ID, MessageType::MsgBeat, Some(1));
    net.step(1, beat);
    assert_eq!(net.peer(3).raft_log.snapshot.metadata.index, 5);
    assert_eq!(net.peer(3).raft_log.snapshot.data, b"state at 5".to_vec());
    assert_eq!(net.peer(3).nodes(), vec![1, 2, 3]);
    // and the rest by append
    let beat = new_message(INVALID_ID, MessageType::MsgBeat, Some(1));
    net.step(1, beat);
    let beat = new_message(INVALID_ID, MessageType::MsgBeat, Some(1));
    net.step(1, beat);
    assert_eq!(net.peer(3).raft_log.last_index(), 6);
    assert_eq!(net.peer(3).raft_log.committed, 6);
    assert_eq!(net.peer(1).prs[2].1.matched, 6);
    assert_eq!(net.peer(1).prs[2].1.state, ProgressState::Replicate);
}

#[test]
fn test_commit_only_current_term() {
    // the leader of term 2 holds an entry of term 1 that a quorum has: it is committed
    // only with an entry of term 2
    let mut c = new_config(1, vec![1, 2, 3]);
    c.storage.entries = vec![entry(1, 1, b"old")];
    c.storage.hard_state = HardState { term: 1, vote: 0, commit: 0 };
    let mut r = Raft::new(&c);
    r.step(new_message(INVALID_ID, MessageType::MsgHup, Some(1))).unwrap();
    assert_eq!(r.state, StateRole::Candidate);
    assert_eq!(r.hs.term, 2);
    let mut vote = new_message(1, MessageType::MsgRequestVoteResponse, Some(2));
    vote.term = 2;
    r.step(vote).unwrap();
    assert_eq!(r.state, StateRole::Leader);
    assert_eq!(r.raft_log.last_index(), 2);
    r.msgs.clear();
    // 2 has the old entry only
    let mut resp = new_message(1, MessageType::MsgAppendResponse, Some(2));
    resp.term = 2;
    resp.index = 1;
    r.step(resp).unwrap();
    assert_eq!(r.raft_log.committed, 0);
    // 2 has the entry of term 2 as well
    let mut resp = new_message(1, MessageType::MsgAppendResponse, Some(2));
    resp.term = 2;
    resp.index = 2;
    r.step(resp).unwrap();
    assert_eq!(r.raft_log.committed, 2);
}

#[test]
fn test_messages_of_earlier_and_later_terms() {
    let mut net = Network::new(3);
    net.elect(2);
    net.elect(1);
    let term = net.peer(1).hs.term;
    assert_eq!(term, 2);
    // a message of an earlier term is dropped
    let mut stale = new_message(1, MessageType::MsgAppendResponse, Some(2));
    stale.term = term - 1;
    stale.index = 77;
    let before = net.peer(1).prs[1].1.matched;
    net.peer(1).step(stale).unwrap();
    assert_eq!(net.peer(1).state, StateRole::Leader);
    assert_eq!(net.peer(1).prs[1].1.matched, before);
    // a message of a later term makes a follower of the leader
    let mut later = new_message(1, MessageType::MsgHeartbeat, Some(3));
    later.term = term + 5;
    net.peer(1).step(later).unwrap();
    assert_eq!(net.peer(1).state, StateRole::Follower);
    assert_eq!(net.peer(1).hs.term, term + 5);
    assert_eq!(net.peer(1).lead, 3);
    assert_eq!(net.peer(1).hs.vote, INVALID_ID);
    // a request for a vote of a later term names no leader
    let mut ask = new_message(1, MessageType::MsgRequestVote, Some(2));
    ask.term = term + 6;
    ask.index = 100;
    ask.log_term = term + 5;
    net.peer(1).step(ask).unwrap();
    assert_eq!(net.peer(1).lead, INVALID_ID);
    assert_eq!(net.peer(1).hs.vote, 2);
}

#[test]
fn test_vote_granting() {
    let mut c = new_config(1, vec![1, 2, 3]);
    c.storage.entries = vec![entry(1, 1, b"a"), entry(2, 2, b"b")];
    c.storage.hard_state = HardState { term: 2, vote: 0, commit: 0 };
    let mut r = Raft::new(&c);
    // a log that ends earlier is turned down
    let mut ask = new_message(1, MessageType::MsgRequestVote, Some(2));
    ask.term = 2;
    ask.index = 5;
    ask.log_term = 1;
    r.step(ask).unwrap();
    assert_eq!(r.msgs.len(), 1);
    assert!(r.msgs[0].reject);
    assert_eq!(r.hs.vote, INVALID_ID);
    // a log of the same last term that is as long gets the vote
    let mut ask = new_message(1, MessageType::MsgRequestVote, Some(3));
    ask.term = 2;
    ask.index = 2;
    ask.log_term = 2;
    r.step(ask).unwrap();
    assert_eq!(r.msgs.len(), 2);
    assert!(!r.msgs[1].reject);
    assert_eq!(r.msgs[1].to, 3);
    assert_eq!(r.msgs[1].msg_type, MessageType::MsgRequestVoteResponse);
    assert_eq!(r.hs.vote, 3);
    // the vote is given: another candidate of the term is turned down
    let mut ask = new_message(1, MessageType::MsgRequestVote, Some(2));
    ask.term = 2;
    ask.index = 9;
    ask.log_term = 2;
    r.step(ask).unwrap();
    assert!(r.msgs[2].reject);
    assert_eq!(r.hs.vote, 3);
}

#[test]
fn test_append_rejection_carries_hint() {
    let mut c = new_config(2, vec![1, 2, 3]);
    c.storage.entries = vec![entry(1, 1, b"a")];
    c.storage.hard_state = HardState { term: 1, vote: 0, commit: 0 };
    let mut r = Raft::new(&c);
    let mut app = new_message(2, MessageType::MsgAppend, Some(1));
    app.term = 1;
    app.index = 3;
    app.log_term = 1;
    app.entries = vec![entry(1, 4, b"d")];
    assert!(r.can_step(&app));
    r.step(app).unwrap();
    assert_eq!(r.msgs.len(), 1);
    assert_eq!(r.msgs[0].msg_type, MessageType::MsgAppendResponse);
    assert!(r.msgs[0].reject);
    assert_eq!(r.msgs[0].index, 3);
    assert_eq!(r.msgs[0].reject_hint, 1);
    assert_eq!(r.lead, 1);
    // entries with a gap are not taken
    let mut app = new_message(2, MessageType::MsgAppend, Some(1));
    app.term = 1;
    app.index = 1;
    app.log_term = 1;
    app.entries = vec![entry(1, 3, b"gap")];
    assert!(!r.can_step(&app));
}

#[test]
fn test_pending_conf_change() {
    let mut r = Raft::new(&new_config(1, vec![1]));
    r.step(new_message(INVALID_ID, MessageType::MsgHup, Some(1))).unwrap();
    let mut m = new_message(INVALID_ID, MessageType::MsgPropose, None);
    m.entries = vec![
        Entry { entry_type: EntryType::EntryConfChange, term: 0, index: 0, data: b"c1".to_vec() },
        Entry { entry_type: EntryType::EntryConfChange, term: 0, index: 0, data: b"c2".to_vec() },
    ];
    r.step(m).unwrap();
    assert_eq!(r.raft_log.entries[1].entry_type, EntryType::EntryConfChange);
    assert_eq!(r.raft_log.entries[1].data, b"c1".to_vec());
    // the second change became an empty entry
    assert_eq!(r.raft_log.entries[2].entry_type, EntryType::EntryNormal);
    assert!(r.raft_log.entries[2].data.is_empty());
    assert!(r.pending_conf);
    r.add_node(2);
    assert!(!r.pending_conf);
    assert_eq!(r.nodes(), vec![1, 2]);
    r.remove_node(1);
    assert_eq!(r.nodes(), vec![2]);
    // a leader that is no member drops proposals
    let last = r.raft_log.last_index();
    r.step(propose(b"x")).unwrap();
    assert_eq!(r.raft_log.last_index(), last);
    r.pending_conf = true;
    r.reset_pending_conf();
    assert!(!r.pending_conf);
}

#[test]
fn test_check_quorum_steps_down() {
    let mut c = new_config(1, vec![1, 2, 3]);
    c.check_quorum = true;
    let mut r = Raft::new(&c);
    r.step(new_message(INVALID_ID, MessageType::MsgHup, Some(1))).unwrap();
    let mut vote = new_message(1, MessageType::MsgRequestVoteResponse, Some(2));
    vote.term = 1;
    r.step(vote).unwrap();
    assert_eq!(r.state, StateRole::Leader);
    // nobody is heard from for an election timeout
    for _ in 0..ELECTION_TICK {
        r.tick_with(0);
    }
    assert_eq!(r.state, StateRole::Follower);
    assert_eq!(r.hs.term, 1);
}

#[test]
fn test_raft_log_append_and_conflict() {
    let mut log = RaftLog::new(Snapshot::new(), vec![entry(1, 1, b"a"), entry(2, 2, b"b")]);
    assert_eq!(log.first_index(), 1);
    assert_eq!(log.last_index(), 2);
    assert_eq!(log.last_term(), 2);
    assert_eq!(log.term(0).unwrap(), 0);
    assert_eq!(log.term(2).unwrap(), 2);
    assert!(matches!(log.term(3), Err(Error::Store(StorageError::Unavailable))));
    assert_eq!(log.find_conflict(&[entry(1, 1, b"a"), entry(2, 2, b"b")]), 0);
    assert_eq!(log.find_conflict(&[entry(2, 2, b"b"), entry(2, 3, b"c")]), 3);
    assert_eq!(log.find_conflict(&[entry(1, 1, b"a"), entry(3, 2, b"x")]), 2);
    // the entry that differs and what follows it are replaced
    let r = log.maybe_append(1, 1, 3, &[entry(3, 2, b"x"), entry(3, 3, b"y")]);
    assert_eq!(r, Some(3));
    assert_eq!(log.last_index(), 3);
    assert_eq!(log.entries[1].data, b"x".to_vec());
    assert_eq!(log.committed, 3);
    // what does not match is not taken
    assert_eq!(log.maybe_append(2, 2, 3, &[entry(3, 3, b"z")]), None);
    assert_eq!(log.entries[2].data, b"y".to_vec());
    // a log is up to date by its last term first, its length second
    assert!(log.is_up_to_date(1, 4));
    assert!(log.is_up_to_date(3, 3));
    assert!(!log.is_up_to_date(2, 3));
    assert!(!log.is_up_to_date(9, 2));
    assert!(log.maybe_commit(3, 3) == false);
}

#[test]
fn test_raft_log_append_cuts_at_first_divergence() {
    let mut log = RaftLog::new(
        Snapshot::new(),
        vec![entry(1, 1, b"a"), entry(1, 2, b"b"), entry(1, 3, b"c")],
    );
    // entries that the log holds already change nothing, not even their payload
    assert_eq!(log.append(&[entry(1, 2, b"x"), entry(1, 3, b"y")]), 3);
    assert_eq!(log.entries[1].data, b"b".to_vec());
    assert_eq!(log.entries[2].data, b"c".to_vec());
    // the first entry of another term and what follows it are replaced
    assert_eq!(log.append(&[entry(1, 2, b"x"), entry(2, 3, b"y"), entry(2, 4, b"z")]), 4);
    assert_eq!(log.entries.len(), 4);
    assert_eq!(log.entries[1].data, b"b".to_vec());
    assert_eq!(log.entries[2].data, b"y".to_vec());
    assert_eq!(log.entries[3].data, b"z".to_vec());
    assert_eq!(log.last_term(), 2);
    // a divergence in the middle cuts what stood behind it
    assert_eq!(log.append(&[entry(1, 2, b"q"), entry(3, 3, b"r")]), 3);
    assert_eq!(log.entries.len(), 3);
    assert_eq!(log.entries[1].data, b"b".to_vec());
    assert_eq!(log.entries[2].data, b"r".to_vec());
    // nothing to append
    assert_eq!(log.append(&[]), 3);
}

#[test]
fn test_raft_log_entries_limit() {
    let log = RaftLog::new(
        Snapshot::new(),
        vec![entry(1, 1, &[0; 3]), entry(1, 2, &[0; 3]), entry(1, 3, &[0; 3])],
    );
    // each entry takes 17 bytes and its payload
    assert_eq!(log.entries[0].size(), 20);
    assert_eq!(log.entries(1, NO_LIMIT).unwrap().len(), 3);
    assert_eq!(log.entries(1, 40).unwrap().len(), 2);
    assert_eq!(log.entries(1, 39).unwrap().len(), 1);
    // the first entry is always returned
    assert_eq!(log.entries(2, 0).unwrap().len(), 1);
    assert_eq!(log.entries(2, 0).unwrap()[0].index, 2);
    assert_eq!(log.entries(4, NO_LIMIT).unwrap().len(), 0);
    assert!(matches!(log.entries(0, NO_LIMIT), Err(Error::Store(StorageError::Compacted))));
}

#[test]
fn test_raft_log_restore() {
    let mut log = RaftLog::new(Snapshot::new(), vec![entry(1, 1, b"a")]);
    let snap = Snapshot {
        data: b"s".to_vec(),
        metadata: SnapshotMetadata {
            conf_state: ConfState { nodes: vec![1, 2] },
            index: 10,
            term: 3,
        },
    };
    log.restore(snap);
    assert_eq!(log.first_index(), 11);
    assert_eq!(log.last_index(), 10);
    assert_eq!(log.last_term(), 3);
    assert_eq!(log.committed, 10);
    assert_eq!(log.snapshot().metadata.conf_state.nodes, vec![1, 2]);
    assert_eq!(log.append(&[entry(3, 11, b"k")]), 11);
}

#[test]
fn test_inflights_window() {
    let mut ins = Inflights::new(3);
    assert!(!ins.full());
    ins.add(5);
    ins.add(7);
    ins.add(9);
    assert!(ins.full());
    ins.free_to(6);
    assert_eq!(ins.count(), 2);
    ins.free_to(4);
    assert_eq!(ins.count(), 2);
    ins.free_first_one();
    assert_eq!(ins.count(), 1);
    ins.free_to(100);
    assert_eq!(ins.count(), 0);
    ins.add(1);
    ins.reset();
    assert_eq!(ins.count(), 0);
}

#[test]
fn test_progress_transitions() {
    let mut p = new_progress(5, 2);
    assert_eq!(p.state, ProgressState::Probe);
    assert_eq!(p.matched, 0);
    // probe: one append, then wait
    assert!(!p.is_paused());
    p.pause();
    assert!(p.is_paused());
    // a rejection moves next back by the hint
    assert!(!p.maybe_decr_to(3, 1));
    assert!(p.maybe_decr_to(4, 1));
    assert_eq!(p.next_idx, 2);
    assert!(!p.is_paused());
    // an acceptance moves matched and makes the follower replicate
    assert!(p.maybe_update(3));
    assert!(!p.maybe_update(3));
    assert_eq!(p.matched, 3);
    assert_eq!(p.next_idx, 4);
    p.become_replicate();
    assert_eq!(p.state, ProgressState::Replicate);
    p.optimistic_update(6);
    assert_eq!(p.next_idx, 7);
    p.ins.add(5);
    p.ins.add(6);
    assert!(p.is_paused());
    // a rejection in replicate falls back behind matched
    assert!(!p.maybe_decr_to(2, 0));
    assert!(p.maybe_decr_to(6, 0));
    assert_eq!(p.next_idx, 4);
    // snapshot: nothing is sent until it is done
    p.become_snapshot(20);
    assert!(p.is_paused());
    assert!(!p.maybe_snapshot_abort());
    p.maybe_update(20);
    assert!(p.maybe_snapshot_abort());
    p.matched = 3;
    p.become_probe();
    assert_eq!(p.next_idx, 21);
    p.become_snapshot(30);
    p.snapshot_failure();
    p.become_probe();
    assert_eq!(p.next_idx, 4);
}

#[test]
fn test_can_start_and_can_tick() {
    let mut c = new_config(1, vec![1, 2, 3]);
    assert!(c.can_start());
    assert!(c.storage.is_sound());
    // a gap in the stored log
    c.storage.entries = vec![entry(1, 1, b"a"), entry(1, 3, b"c")];
    c.storage.hard_state = HardState { term: 1, vote: 0, commit: 0 };
    assert!(!c.storage.is_sound());
    assert!(!c.can_start());
    // terms that fall
    c.storage.entries = vec![entry(2, 1, b"a"), entry(1, 2, b"b")];
    assert!(!c.storage.is_sound());
    // a stored term below that of the log
    c.storage.entries = vec![entry(2, 1, b"a")];
    assert!(c.storage.is_sound());
    assert!(!c.can_start());
    c.storage.hard_state = HardState { term: 2, vote: 0, commit: 1 };
    assert!(c.can_start());
    // a commit index behind the log
    c.storage.hard_state = HardState { term: 2, vote: 0, commit: 2 };
    assert!(!c.can_start());
    c.storage.hard_state = HardState { term: 2, vote: 0, commit: 1 };
    // what is applied must be committed
    c.applied = 2;
    assert!(!c.can_start());
    c.applied = 1;
    assert!(c.can_start());
    // members are named once
    c.storage.snapshot.metadata.conf_state.nodes = vec![1];
    assert!(!c.can_start());
    c.peers = vec![];
    assert!(c.can_start());
    let mut r = Raft::new(&c);
    assert_eq!(r.nodes(), vec![1]);
    assert_eq!(r.hs.term, 2);
    assert_eq!(r.raft_log.committed, 1);
    assert_eq!(r.raft_log.get_applied(), 1);
    assert!(r.can_tick());
    r.hs.term = u64::MAX;
    assert!(!r.can_tick());
    let mut c = new_config(1, vec![1]);
    c.election_tick = usize::MAX;
    assert!(!c.can_start());
}
