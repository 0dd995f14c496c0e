use raft::command::Command;
use raft::defs::{AppendContext, AppendLogsArgs, LogEntry, RaftError, RequestVoteArgs, Role};
use raft::peer::RaftPeer;
use raft::persist::{decode_state, encode_state};
use raft::timeout::next_election_timeout;

#[test]
fn vote_rejected_for_stale_term() {
    let mut peer = RaftPeer::new(0, 3);
    peer.current_term = 5;
    let reply = peer.handle_request_vote(&RequestVoteArgs {
        term: 4,
        candidate_id: 1,
        last_log_index: 9,
        last_log_term: 9,
    });
    assert!(!reply.vote_granted);
    assert_eq!(reply.term, 5);
    assert_eq!(peer.current_term, 5);
}

#[test]
fn vote_granted_once_per_term() {
    let mut peer = RaftPeer::new(0, 3);
    let args1 = RequestVoteArgs { term: 1, candidate_id: 1, last_log_index: 0, last_log_term: 0 };
    let args2 = RequestVoteArgs { term: 1, candidate_id: 2, last_log_index: 0, last_log_term: 0 };
    assert!(peer.handle_request_vote(&args1).vote_granted);
    assert!(!peer.handle_request_vote(&args2).vote_granted);
    // the same candidate may ask again
    assert!(peer.handle_request_vote(&args1).vote_granted);
}

#[test]
fn vote_rejected_for_outdated_log() {
    let mut peer = RaftPeer::new(0, 3);
    peer.log.push(LogEntry { term: 3, index: 1, command: vec![1] });
    // shorter log of the same last term loses
    let reply = peer.handle_request_vote(&RequestVoteArgs {
        term: 4,
        candidate_id: 1,
        last_log_index: 0,
        last_log_term: 3,
    });
    assert!(!reply.vote_granted);
    // the higher term was still adopted
    assert_eq!(peer.current_term, 4);
    // a higher last term wins regardless of length
    let reply = peer.handle_request_vote(&RequestVoteArgs {
        term: 4,
        candidate_id: 1,
        last_log_index: 0,
        last_log_term: 4,
    });
    assert!(reply.vote_granted);
}

#[test]
fn append_rejected_on_missing_or_mismatched_prev() {
    let mut peer = RaftPeer::new(0, 3);
    // previous slot beyond the end of the log
    let reply = peer.handle_append_logs(&AppendLogsArgs {
        term: 1,
        leader_id: 1,
        prev_log_index: 3,
        prev_log_term: 1,
        entries: vec![],
        leader_commit: 0,
    });
    assert!(!reply.success);
    // previous slot present but of another term
    peer.log.push(LogEntry { term: 1, index: 1, command: vec![7] });
    let reply = peer.handle_append_logs(&AppendLogsArgs {
        term: 2,
        leader_id: 1,
        prev_log_index: 1,
        prev_log_term: 2,
        entries: vec![],
        leader_commit: 0,
    });
    assert!(!reply.success);
    assert_eq!(peer.log.len(), 2);
}

#[test]
fn follower_commit_stops_at_its_own_log_end() {
    let mut peer = RaftPeer::new(0, 3);
    let entries = vec![LogEntry { term: 1, index: 1, command: vec![1] }];
    let reply = peer.handle_append_logs(&AppendLogsArgs {
        term: 1,
        leader_id: 1,
        prev_log_index: 0,
        prev_log_term: 0,
        entries,
        leader_commit: 9,
    });
    assert!(reply.success);
    assert_eq!(peer.commit_index, 1);
}

#[test]
fn old_term_entries_not_committed_by_count_alone() {
    let mut peer = RaftPeer::new(0, 3);
    peer.current_term = 2;
    peer.role = Role::Leader;
    peer.log.push(LogEntry { term: 1, index: 1, command: vec![1] });
    peer.next_index = vec![2, 2, 2];
    peer.match_index = vec![0, 1, 1];
    peer.advance_commit();
    assert_eq!(peer.commit_index, 0);
    // an entry of the leader's own term carries the older one with it
    peer.log.push(LogEntry { term: 2, index: 2, command: vec![2] });
    peer.next_index = vec![3, 3, 3];
    peer.match_index = vec![0, 2, 2];
    peer.advance_commit();
    assert_eq!(peer.commit_index, 2);
}

#[test]
fn stale_append_reply_is_discarded() {
    let mut peers: Vec<RaftPeer> = (0..3).map(|me| RaftPeer::new(me, 3)).collect();
    peers[0].convert_to_candidate();
    let args = peers[0].build_vote_args();
    assert!(peers[0].try_become_leader(args.term, 3));
    let before = peers[0].next_index.clone();
    // a reply tagged with an older sending term changes nothing
    let reply = raft::defs::AppendLogsReply { term: 1, success: true };
    let ctx = AppendContext { follower: 1, prev_log_index: 0, sent_len: 3, sent_term: 0 };
    peers[0].handle_append_logs_reply(&reply, &ctx);
    assert_eq!(peers[0].next_index, before);
    assert_eq!(peers[0].match_index, vec![0, 0, 0]);
}

#[test]
fn higher_term_reply_dethrones_leader() {
    let mut peer = RaftPeer::new(0, 3);
    peer.convert_to_candidate();
    assert!(peer.try_become_leader(1, 3));
    let reply = raft::defs::AppendLogsReply { term: 7, success: false };
    let ctx = AppendContext { follower: 1, prev_log_index: 0, sent_len: 0, sent_term: 1 };
    peer.handle_append_logs_reply(&reply, &ctx);
    assert_eq!(peer.role, Role::Follower);
    assert_eq!(peer.current_term, 7);
    assert_eq!(peer.voted_for, None);
}

#[test]
fn failed_append_backs_off_next_index_with_floor_one() {
    let mut peer = RaftPeer::new(0, 3);
    peer.convert_to_candidate();
    assert!(peer.try_become_leader(1, 3));
    let reply = raft::defs::AppendLogsReply { term: 1, success: false };
    let ctx = AppendContext { follower: 1, prev_log_index: 0, sent_len: 0, sent_term: 1 };
    peer.handle_append_logs_reply(&reply, &ctx);
    assert_eq!(peer.next_index[1], 1);
    peer.handle_append_logs_reply(&reply, &ctx);
    assert_eq!(peer.next_index[1], 1);
}

#[test]
fn start_refused_off_leader() {
    let mut peer = RaftPeer::new(0, 3);
    assert_eq!(peer.start(b"cmd".to_vec()), Err(RaftError::NotLeader));
    peer.convert_to_candidate();
    assert_eq!(peer.start(b"cmd".to_vec()), Err(RaftError::NotLeader));
}

#[test]
fn apply_is_contiguous_and_exactly_once() {
    let mut peer = RaftPeer::new(0, 3);
    let entries: Vec<LogEntry> = (1..=3u64)
        .map(|i| LogEntry { term: 1, index: i, command: vec![i as u8] })
        .collect();
    let reply = peer.handle_append_logs(&AppendLogsArgs {
        term: 1,
        leader_id: 1,
        prev_log_index: 0,
        prev_log_term: 0,
        entries,
        leader_commit: 3,
    });
    assert!(reply.success);
    let msgs = peer.apply();
    let indices: Vec<u64> = msgs.iter().map(|m| m.command_index).collect();
    assert_eq!(indices, vec![1, 2, 3]);
    // a second round emits nothing new
    assert!(peer.apply().is_empty());
}

#[test]
fn persisted_blob_round_trips() {
    let log = vec![
        LogEntry { term: 0, index: 0, command: vec![] },
        LogEntry { term: 2, index: 1, command: b"alpha".to_vec() },
        LogEntry { term: 3, index: 2, command: vec![] },
    ];
    let blob = encode_state(3, &Some(2), &log);
    let (term, vote, decoded) = decode_state(&blob).unwrap();
    assert_eq!(term, 3);
    assert_eq!(vote, Some(2));
    assert_eq!(decoded, log);
    let blob2 = encode_state(0, &None, &vec![]);
    let (term2, vote2, decoded2) = decode_state(&blob2).unwrap();
    assert_eq!((term2, vote2, decoded2), (0, None, vec![]));
}

#[test]
fn malformed_blob_is_refused() {
    assert!(decode_state(&vec![]).is_none());
    assert!(decode_state(&vec![0u8; 10]).is_none());
    // a valid blob with trailing garbage is refused
    let mut blob = encode_state(1, &None, &vec![]);
    blob.push(0);
    assert!(decode_state(&blob).is_none());
    // a vote byte outside {0, 1} is refused
    let mut blob = encode_state(1, &None, &vec![]);
    blob[8] = 9;
    assert!(decode_state(&blob).is_none());
}

#[test]
fn restore_refuses_misshapen_logs() {
    let crooked = vec![
        LogEntry { term: 0, index: 0, command: vec![] },
        LogEntry { term: 1, index: 5, command: vec![1] },
    ];
    let blob = encode_state(1, &None, &crooked);
    assert!(RaftPeer::restore(0, 3, &blob).is_none());
    assert!(RaftPeer::restore(0, 3, &vec![1, 2, 3]).is_none());
}

#[test]
fn election_timeout_stays_in_window() {
    for _ in 0..200 {
        let t = next_election_timeout();
        assert!((80..300).contains(&t));
    }
}

#[test]
fn command_constructors_build_their_records() {
    let c = Command::set("k".to_string(), "v".to_string());
    assert_eq!(c, Command::Put { key: "k".to_string(), value: "v".to_string() });
    let r = Command::remove("k".to_string());
    assert_eq!(r, Command::Remove { key: "k".to_string() });
}
