use vstd::prelude::*;

verus! {

/// The three Raft roles.
#[derive(Clone, Copy, PartialEq, Eq, Structural, Debug)]
pub enum Role {
    Follower,
    Candidate,
    Leader,
}

/// Term and leadership, as the node handle reports them.
#[derive(Clone, Copy, PartialEq, Eq, Structural, Debug)]
pub struct State {
    pub term: u64,
    pub is_leader: bool,
}

/// One slot of the replicated log. Slot 0 is a sentinel with term 0 and an
/// empty command; a real entry at position `i` carries `index == i`.
#[derive(Clone, Debug, PartialEq, Eq)]
pub struct LogEntry {
    pub term: u64,
    pub index: u64,
    pub command: Vec<u8>,
}

/// Mathematical model of a log entry: the command as a sequence of bytes.
pub struct EntryModel {
    pub term: u64,
    pub index: u64,
    pub command: Seq<u8>,
}

impl DeepView for LogEntry {
    type V = EntryModel;

    open spec fn deep_view(&self) -> EntryModel {
        EntryModel { term: self.term, index: self.index, command: self.command@ }
    }
}

/// Arguments of the vote request a candidate broadcasts.
#[derive(Clone, Copy, PartialEq, Eq, Structural, Debug)]
pub struct RequestVoteArgs {
    pub term: u64,
    pub candidate_id: u64,
    pub last_log_index: u64,
    pub last_log_term: u64,
}

/// Reply to a vote request.
#[derive(Clone, Copy, PartialEq, Eq, Structural, Debug)]
pub struct RequestVoteReply {
    pub term: u64,
    pub vote_granted: bool,
}

/// Arguments of an append (heartbeat or replication) RPC.
#[derive(Clone, Debug, PartialEq, Eq)]
pub struct AppendLogsArgs {
    pub term: u64,
    pub leader_id: u64,
    pub prev_log_index: u64,
    pub prev_log_term: u64,
    pub entries: Vec<LogEntry>,
    pub leader_commit: u64,
}

/// Reply to an append RPC.
#[derive(Clone, Copy, PartialEq, Eq, Structural, Debug)]
pub struct AppendLogsReply {
    pub term: u64,
    pub success: bool,
}

/// What the leader remembers about an append it sent, so that the reply can
/// be judged against the state the leader had at send time.
#[derive(Clone, Copy, PartialEq, Eq, Structural, Debug)]
pub struct AppendContext {
    pub follower: u64,
    pub prev_log_index: u64,
    pub sent_len: u64,
    pub sent_term: u64,
}

/// A committed command handed to the application, in strict index order.
#[derive(Clone, Debug, PartialEq, Eq)]
pub struct ApplyMsg {
    pub command_valid: bool,
    pub command: Vec<u8>,
    pub command_index: u64,
}

/// Errors the peer surfaces to its callers.
#[derive(Clone, Copy, PartialEq, Eq, Structural, Debug)]
pub enum RaftError {
    NotLeader,
}

} // verus!
