use raft::defs::{AppendContext, AppendLogsArgs, Role};
use raft::peer::RaftPeer;

fn elect(peers: &mut Vec<RaftPeer>, candidate: usize) -> bool {
    peers[candidate].convert_to_candidate();
    let args = peers[candidate].build_vote_args();
    let mut votes: u64 = 1;
    for p in 0..peers.len() {
        if p == candidate {
            continue;
        }
        let reply = peers[p].handle_request_vote(&args);
        if reply.vote_granted {
            votes += 1;
        }
    }
    peers[candidate].try_become_leader(args.term, votes)
}

fn replicate_once(peers: &mut Vec<RaftPeer>, leader: usize, follower: usize) -> bool {
    let args = peers[leader].build_append_args(follower);
    let ctx = AppendContext {
        follower: follower as u64,
        prev_log_index: args.prev_log_index,
        sent_len: args.entries.len() as u64,
        sent_term: args.term,
    };
    let reply = peers[follower].handle_append_logs(&args);
    peers[leader].handle_append_logs_reply(&reply, &ctx);
    reply.success
}

fn cluster(n: u64) -> Vec<RaftPeer> {
    let mut peers = Vec::new();
    for me in 0..n {
        peers.push(RaftPeer::new(me, n));
    }
    peers
}

#[test]
fn initial_election_three_peers() {
    let mut peers = cluster(3);
    assert!(elect(&mut peers, 0));
    let leaders: Vec<usize> = (0..3).filter(|&p| peers[p].state().is_leader).collect();
    assert_eq!(leaders, vec![0]);
    assert!(peers[0].state().term >= 1);
    // every peer has seen the leader's term
    for p in 0..3 {
        assert_eq!(peers[p].state().term, peers[0].state().term);
    }
}

#[test]
fn single_command_replicated_and_applied() {
    let mut peers = cluster(3);
    assert!(elect(&mut peers, 0));
    let term = peers[0].state().term;
    let (index, start_term) = peers[0].start(b"x".to_vec()).unwrap();
    assert_eq!((index, start_term), (1, term));
    for f in 1..3 {
        assert!(replicate_once(&mut peers, 0, f));
    }
    assert_eq!(peers[0].commit_index, 1);
    // the next heartbeat carries the leader's commit index to the followers
    for f in 1..3 {
        assert!(replicate_once(&mut peers, 0, f));
        assert_eq!(peers[f].commit_index, 1);
    }
    for p in 0..3 {
        let msgs = peers[p].apply();
        assert_eq!(msgs.len(), 1);
        assert_eq!(msgs[0].command_index, 1);
        assert_eq!(msgs[0].command, b"x".to_vec());
        assert!(msgs[0].command_valid);
    }
}

#[test]
fn leader_isolation_majority_elects_fresh_leader() {
    let mut peers = cluster(3);
    assert!(elect(&mut peers, 0));
    let old_term = peers[0].state().term;
    // peer 0 is partitioned away; peer 1 times out and asks only peer 2
    peers[1].convert_to_candidate();
    let args = peers[1].build_vote_args();
    let reply = peers[2].handle_request_vote(&args);
    assert!(reply.vote_granted);
    assert!(peers[1].try_become_leader(args.term, 2));
    assert!(peers[1].state().term > old_term);
    // the old leader rejoins, hears the new term, and steps down
    let heartbeat = peers[1].build_append_args(0);
    let hb_reply = peers[0].handle_append_logs(&heartbeat);
    assert!(hb_reply.success);
    assert_eq!(peers[0].role, Role::Follower);
    assert_eq!(peers[0].start(b"y".to_vec()), Err(raft::defs::RaftError::NotLeader));
    let leaders: Vec<usize> = (0..3).filter(|&p| peers[p].state().is_leader).collect();
    assert_eq!(leaders, vec![1]);
}

#[test]
fn log_backfill_rejoined_follower_catches_up() {
    let mut peers = cluster(5);
    assert!(elect(&mut peers, 0));
    // peer 4 is isolated; ten commands reach the other three followers
    for i in 0..10u64 {
        let (index, _) = peers[0].start(vec![i as u8]).unwrap();
        assert_eq!(index, i + 1);
    }
    for f in 1..4 {
        assert!(replicate_once(&mut peers, 0, f));
    }
    assert_eq!(peers[0].commit_index, 10);
    // peer 4 rejoins; one append backfills everything it missed
    assert!(replicate_once(&mut peers, 0, 4));
    assert_eq!(peers[4].log, peers[0].log);
    assert!(replicate_once(&mut peers, 0, 4));
    assert_eq!(peers[4].commit_index, 10);
    let msgs = peers[4].apply();
    assert_eq!(msgs.len(), 10);
    for (k, m) in msgs.iter().enumerate() {
        assert_eq!(m.command_index, k as u64 + 1);
        assert_eq!(m.command, vec![k as u8]);
    }
}

#[test]
fn conflict_truncation_adopts_new_leader_entries() {
    let mut follower = RaftPeer::new(1, 3);
    // a leader of term 1 commits entries 1..=4
    let committed: Vec<raft::defs::LogEntry> = (1..=4u64)
        .map(|i| raft::defs::LogEntry { term: 1, index: i, command: vec![i as u8] })
        .collect();
    let reply = follower.handle_append_logs(&AppendLogsArgs {
        term: 1,
        leader_id: 0,
        prev_log_index: 0,
        prev_log_term: 0,
        entries: committed,
        leader_commit: 4,
    });
    assert!(reply.success);
    assert_eq!(follower.commit_index, 4);
    // a stale leader of term 2 leaves uncommitted entries at 5..=7
    let stale: Vec<raft::defs::LogEntry> = (5..=7u64)
        .map(|i| raft::defs::LogEntry { term: 2, index: i, command: vec![0x20 + i as u8] })
        .collect();
    let reply = follower.handle_append_logs(&AppendLogsArgs {
        term: 2,
        leader_id: 2,
        prev_log_index: 4,
        prev_log_term: 1,
        entries: stale,
        leader_commit: 4,
    });
    assert!(reply.success);
    // the new leader of term 3 sends different entries for 5..=7
    let fresh: Vec<raft::defs::LogEntry> = (5..=7u64)
        .map(|i| raft::defs::LogEntry { term: 3, index: i, command: vec![0x30 + i as u8] })
        .collect();
    let reply = follower.handle_append_logs(&AppendLogsArgs {
        term: 3,
        leader_id: 0,
        prev_log_index: 4,
        prev_log_term: 1,
        entries: fresh.clone(),
        leader_commit: 4,
    });
    assert!(reply.success);
    assert_eq!(follower.commit_index, 4);
    assert_eq!(follower.log.len(), 8);
    for i in 5..=7usize {
        assert_eq!(follower.log[i], fresh[i - 5]);
    }
    // the committed prefix was not touched
    for i in 1..=4usize {
        assert_eq!(follower.log[i].term, 1);
        assert_eq!(follower.log[i].command, vec![i as u8]);
    }
}

#[test]
fn persist_and_recover_resumes_after_commit() {
    let mut peers = cluster(3);
    assert!(elect(&mut peers, 0));
    for i in 0..4u64 {
        peers[0].start(vec![i as u8]).unwrap();
    }
    for f in 1..3 {
        assert!(replicate_once(&mut peers, 0, f));
        assert!(replicate_once(&mut peers, 0, f));
    }
    assert_eq!(peers[1].commit_index, 4);
    let _ = peers[1].apply();
    // peer 1 crashes after persisting, and comes back from the blob
    let blob = peers[1].persisted_state();
    let revived = RaftPeer::restore(1, 3, &blob).unwrap();
    assert_eq!(revived.current_term, peers[1].current_term);
    assert_eq!(revived.voted_for, peers[1].voted_for);
    assert_eq!(revived.log, peers[1].log);
    assert_eq!(revived.commit_index, 0);
    peers[1] = revived;
    // the application had already consumed entries 1..=4
    let (index, _) = peers[0].start(b"z".to_vec()).unwrap();
    assert_eq!(index, 5);
    assert!(replicate_once(&mut peers, 0, 1));
    assert!(replicate_once(&mut peers, 0, 1));
    assert_eq!(peers[1].commit_index, 5);
    peers[1].last_applied = 4;
    let msgs = peers[1].apply();
    assert_eq!(msgs.len(), 1);
    assert_eq!(msgs[0].command_index, 5);
    assert_eq!(msgs[0].command, b"z".to_vec());
}
