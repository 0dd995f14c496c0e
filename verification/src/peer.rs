use vstd::pervasive::VecAdditionalExecFns;
use vstd::prelude::*;
use vstd::set_lib::lemma_int_range;
use vstd::set_lib::lemma_len_subset;
use vstd::set_lib::lemma_set_disjoint_lens;
use vstd::set_lib::set_int_range;

use crate::persist::{decode_state, encode_state, parse_state, state_bytes};

use crate::defs::{
    AppendContext, AppendLogsArgs, AppendLogsReply, ApplyMsg, EntryModel, LogEntry, RaftError,
    RequestVoteArgs, RequestVoteReply, Role, State,
};

verus! {

/// The peer state the event loop owns: everything Raft mutates lives here.
pub struct RaftPeer {
    /// This peer's index in the cluster.
    pub me: u64,
    /// How many peers the cluster was configured with; fixed at construction.
    pub peer_count: u64,
    /// Latest term this peer has seen; persistent.
    pub current_term: u64,
    /// Whom this peer voted for in `current_term`, if anyone; persistent.
    pub voted_for: Option<u64>,
    /// The replicated log, with the sentinel at position 0; persistent.
    pub log: Vec<LogEntry>,
    /// Highest index known to be committed; volatile, never decreases.
    pub commit_index: u64,
    /// Highest index handed to the application; volatile, never decreases.
    pub last_applied: u64,
    /// Leader only: next log index to send to each follower.
    pub next_index: Vec<u64>,
    /// Leader only: highest index known replicated on each follower.
    pub match_index: Vec<u64>,
    /// The role this peer currently plays.
    pub role: Role,
}

impl RaftPeer {
    /// Index of the last log slot (0 when only the sentinel is present).
    pub open spec fn last_index(self) -> int {
        self.log@.len() - 1
    }

    /// Term of the last log slot.
    pub open spec fn last_term(self) -> u64 {
        self.log@.last().term
    }

    /// Structural soundness of the peer state.
    pub open spec fn wf(self) -> bool {
        &&& 1 <= self.peer_count
        &&& self.peer_count <= usize::MAX as u64
        &&& self.me < self.peer_count
        &&& 1 <= self.log@.len()
        &&& self.log@[0].term == 0
        &&& (forall|i: int|
            0 <= i < self.log@.len() ==> (#[trigger] self.log@[i].index) == i as u64)
        &&& self.last_applied <= self.commit_index
        &&& self.commit_index < self.log@.len()
        &&& self.next_index@.len() == self.peer_count
        &&& self.match_index@.len() == self.peer_count
        &&& (self.role == Role::Leader ==> (forall|p: int|
            0 <= p < self.peer_count ==> 1 <= (#[trigger] self.next_index@[p])
                && self.next_index@[p] <= self.log@.len()
                && self.match_index@[p] < self.log@.len()))
    }

    /// The state after the term rule: a strictly greater term is adopted, the
    /// vote is cleared, and the peer steps down to follower.
    pub open spec fn after_observe(self, t: u64) -> RaftPeer {
        if t > self.current_term {
            RaftPeer { current_term: t, voted_for: None, role: Role::Follower, ..self }
        } else {
            self
        }
    }

    /// Whether a candidate whose log ends in (`last_log_term`, `last_log_index`)
    /// is at least as up-to-date as this peer.
    pub open spec fn log_up_to_date(self, last_log_term: u64, last_log_index: u64) -> bool {
        ||| last_log_term > self.last_term()
        ||| (last_log_term == self.last_term() && last_log_index as int >= self.last_index())
    }

    /// A fresh peer: term 0, no vote, sentinel-only log, follower.
    pub fn new(me: u64, peer_count: u64) -> (r: RaftPeer)
        requires
            1 <= peer_count,
            peer_count <= usize::MAX as u64,
            me < peer_count,
        ensures
            r.wf(),
            r.me == me,
            r.peer_count == peer_count,
            r.current_term == 0,
            r.voted_for is None,
            r.log.deep_view() == seq![
                (EntryModel { term: 0u64, index: 0u64, command: Seq::<u8>::empty() }),
            ],
            r.log@.len() == 1,
            r.last_term() == 0,
            r.commit_index == 0,
            r.last_applied == 0,
            r.role == Role::Follower,
    {
        let mut log: Vec<LogEntry> = Vec::new();
        log.push(LogEntry { term: 0, index: 0, command: Vec::new() });
        let mut next_index: Vec<u64> = Vec::new();
        let mut match_index: Vec<u64> = Vec::new();
        let mut p: u64 = 0;
        while p < peer_count
            invariant
                p <= peer_count,
                next_index@.len() == p,
                match_index@.len() == p,
            decreases peer_count - p,
        {
            next_index.push(1);
            match_index.push(0);
            p = p + 1;
        }
        let r = RaftPeer {
            me,
            peer_count,
            current_term: 0,
            voted_for: None,
            log,
            commit_index: 0,
            last_applied: 0,
            next_index,
            match_index,
            role: Role::Follower,
        };
        proof {
            assert(r.log.deep_view() =~= seq![
                (EntryModel { term: 0u64, index: 0u64, command: Seq::<u8>::empty() }),
            ]);
        }
        r
    }

    /// Index of the last log entry, as the RPC arguments carry it.
    pub fn last_log_index(&self) -> (r: u64)
        requires
            self.wf(),
        ensures
            r == self.last_index(),
    {
        (self.log.len() - 1) as u64
    }

    /// Term of the last log entry.
    pub fn last_log_term(&self) -> (r: u64)
        requires
            self.wf(),
        ensures
            r == self.last_term(),
    {
        self.log[self.log.len() - 1].term
    }

    /// Term and leadership in one readable value.
    pub fn state(&self) -> (s: State)
        ensures
            s.term == self.current_term,
            s.is_leader == (self.role == Role::Leader),
    {
        State { term: self.current_term, is_leader: matches!(self.role, Role::Leader) }
    }

    /// The term rule: on observing a term above our own, adopt it, clear the
    /// vote, and become follower; otherwise nothing changes.
    pub fn observe_term(&mut self, t: u64)
        requires
            old(self).wf(),
        ensures
            final(self).wf(),
            *final(self) == old(self).after_observe(t),
            final(self).commit_index == old(self).commit_index,
            final(self).log == old(self).log,
    {
        if t > self.current_term {
            self.current_term = t;
            self.voted_for = None;
            self.role = Role::Follower;
        }
    }

    /// Receiver side of the election protocol: grant the vote exactly when the
    /// term is current, the vote is free, and the candidate's log is at least
    /// as up-to-date as ours.
    pub fn handle_request_vote(&mut self, args: &RequestVoteArgs) -> (reply: RequestVoteReply)
        requires
            old(self).wf(),
        ensures
            final(self).wf(),
            reply.term == final(self).current_term,
            final(self).log == old(self).log,
            final(self).commit_index == old(self).commit_index,
            final(self).last_applied == old(self).last_applied,
            args.term < old(self).current_term ==> *final(self) == *old(self)
                && !reply.vote_granted,
            args.term >= old(self).current_term ==> ({
                let s1 = old(self).after_observe(args.term);
                let grant = (s1.voted_for is None || s1.voted_for == Some(args.candidate_id))
                    && s1.log_up_to_date(args.last_log_term, args.last_log_index);
                &&& reply.vote_granted == grant
                &&& grant ==> *final(self) == (RaftPeer {
                    voted_for: Some(args.candidate_id),
                    ..s1
                })
                &&& !grant ==> *final(self) == s1
            }),
    {
        if args.term < self.current_term {
            return RequestVoteReply { term: self.current_term, vote_granted: false };
        }
        self.observe_term(args.term);
        let my_last_term = self.last_log_term();
        let my_last_index = self.last_log_index();
        let up_to_date = args.last_log_term > my_last_term || (args.last_log_term == my_last_term
            && args.last_log_index >= my_last_index);
        let vote_free = match self.voted_for {
            None => true,
            Some(c) => c == args.candidate_id,
        };
        if vote_free && up_to_date {
            self.voted_for = Some(args.candidate_id);
            RequestVoteReply { term: self.current_term, vote_granted: true }
        } else {
            RequestVoteReply { term: self.current_term, vote_granted: false }
        }
    }
}

/// Clone a command buffer; the bytes come out equal.
fn clone_bytes(v: &Vec<u8>) -> (r: Vec<u8>)
    ensures
        r@ == v@,
{
    let r = v.clone();
    proof {
        assert forall|i: int| 0 <= i < v@.len() implies r@[i] == v@[i] by {
            assert(cloned::<u8>(v@[i], r@[i]));
        }
        assert(r@ =~= v@);
    }
    r
}

/// Position of the first sent entry whose term disagrees with the local log
/// at its slot (or that runs past the local log); the number of sent entries
/// when every one of them already matches.
pub open spec fn first_mismatch(log: Seq<EntryModel>, prev: int, entries: Seq<EntryModel>) -> int
    decreases entries.len(),
{
    if entries.len() == 0 {
        0
    } else if prev + 1 >= log.len() || log[prev + 1].term != entries[0].term {
        0
    } else {
        1 + first_mismatch(log, prev + 1, entries.drop_first())
    }
}

/// What `first_mismatch` returns, stated pointwise: every sent entry before it
/// matches the local slot's term, the matched slots all exist, and the entry
/// at the returned position (if any) does not match.
pub proof fn lemma_first_mismatch(log: Seq<EntryModel>, prev: int, entries: Seq<EntryModel>)
    ensures
        0 <= first_mismatch(log, prev, entries) <= entries.len(),
        first_mismatch(log, prev, entries) > 0 ==> prev + first_mismatch(log, prev, entries)
            < log.len(),
        forall|k: int|
            0 <= k < first_mismatch(log, prev, entries) ==> (#[trigger] entries[k]).term == log[
                prev + 1 + k
            ].term,
        first_mismatch(log, prev, entries) < entries.len() ==> (prev + 1 + first_mismatch(
            log,
            prev,
            entries,
        ) >= log.len() || log[prev + 1 + first_mismatch(log, prev, entries)].term
            != entries[first_mismatch(log, prev, entries)].term),
    decreases entries.len(),
{
    if entries.len() == 0 {
    } else if prev + 1 >= log.len() || log[prev + 1].term != entries[0].term {
    } else {
        lemma_first_mismatch(log, prev + 1, entries.drop_first());
        let c0 = first_mismatch(log, prev + 1, entries.drop_first());
        assert(first_mismatch(log, prev, entries) == 1 + c0);
        assert forall|k: int| 0 <= k < 1 + c0 implies (#[trigger] entries[k]).term == log[prev + 1
            + k].term by {
            if k > 0 {
                assert(entries.drop_first()[k - 1] == entries[k]);
                assert((#[trigger] entries.drop_first()[k - 1]).term == log[(prev + 1) + 1 + (k
                    - 1)].term);
            }
        }
        if 1 + c0 < entries.len() {
            assert(entries.drop_first()[c0] == entries[1 + c0]);
            assert((prev + 1) + 1 + c0 >= log.len() || log[(prev + 1) + 1 + c0].term
                != entries.drop_first()[c0].term);
        }
    }
}

/// The log after the merge step of the append handler: entries that already
/// match stay in place; from the first disagreement on, the local log is cut
/// and the remaining sent entries take over, renumbered to their slots.
pub open spec fn merged_log(log: Seq<EntryModel>, prev: int, entries: Seq<EntryModel>) -> Seq<
    EntryModel,
> {
    let c = first_mismatch(log, prev, entries);
    if c == entries.len() {
        log
    } else {
        log.subrange(0, prev + 1 + c) + Seq::new(
            (entries.len() - c) as nat,
            |j: int|
                (EntryModel {
                    term: entries[c + j].term,
                    index: (prev + 1 + c + j) as u64,
                    command: entries[c + j].command,
                }),
        )
    }
}

/// Log matching, the piece the append handler guarantees by itself: the merge
/// keeps the prefix up to the consistency point word for word, carries every
/// sent entry's term at its slot, and from the first disagreement on carries
/// the sent entries whole.
pub proof fn lemma_append_log_matching(log: Seq<EntryModel>, prev: int, entries: Seq<EntryModel>)
    requires
        0 <= prev < log.len(),
    ensures
        merged_log(log, prev, entries).subrange(0, prev + 1) == log.subrange(0, prev + 1),
        merged_log(log, prev, entries).len() >= prev + 1 + entries.len(),
        forall|k: int|
            0 <= k < entries.len() ==> (#[trigger] merged_log(log, prev, entries)[prev + 1
                + k]).term == entries[k].term,
        forall|k: int|
            first_mismatch(log, prev, entries) <= k < entries.len() ==> (#[trigger] merged_log(
                log,
                prev,
                entries,
            )[prev + 1 + k]).command == entries[k].command,
{
    lemma_first_mismatch(log, prev, entries);
    let c = first_mismatch(log, prev, entries);
    let m = merged_log(log, prev, entries);
    if c == entries.len() {
        assert(m.subrange(0, prev + 1) =~= log.subrange(0, prev + 1));
        if entries.len() > 0 {
            assert(prev + entries.len() < log.len());
        }
        assert forall|k: int| 0 <= k < entries.len() implies (#[trigger] m[prev + 1 + k]).term
            == entries[k].term by {
            assert(entries[k].term == log[prev + 1 + k].term);
        }
    } else {
        let tail = Seq::new(
            (entries.len() - c) as nat,
            |j: int|
                (EntryModel {
                    term: entries[c + j].term,
                    index: (prev + 1 + c + j) as u64,
                    command: entries[c + j].command,
                }),
        );
        if c > 0 {
            assert(prev + c < log.len());
        }
        assert(prev + 1 + c <= log.len());
        assert(m =~= log.subrange(0, prev + 1 + c) + tail);
        assert(m.len() == prev + 1 + entries.len());
        assert(m.subrange(0, prev + 1) =~= log.subrange(0, prev + 1));
        assert forall|k: int| 0 <= k < entries.len() implies (#[trigger] m[prev + 1 + k]).term
            == entries[k].term by {
            if k < c {
                assert(m[prev + 1 + k] == log.subrange(0, prev + 1 + c)[prev + 1 + k]);
            } else {
                assert(m[prev + 1 + k] == tail[k - c]);
            }
        }
        assert forall|k: int| c <= k < entries.len() implies (#[trigger] m[prev + 1 + k]).command
            == entries[k].command by {
            assert(m[prev + 1 + k] == tail[k - c]);
        }
    }
}

/// The commit index after a successful append: raised to the leader's commit,
/// but never past the end of the merged log, and never lowered.
pub open spec fn bumped_commit(leader_commit: u64, commit: u64, last: int) -> int {
    if leader_commit > commit {
        if leader_commit <= last {
            leader_commit as int
        } else {
            last
        }
    } else {
        commit as int
    }
}

impl RaftPeer {
    /// The state after the term rules of the append handler: a greater term is
    /// adopted as in `after_observe`, and a candidate of the same term steps
    /// down to follower.
    pub open spec fn after_observe_append(self, t: u64) -> RaftPeer {
        if t > self.current_term {
            RaftPeer { current_term: t, voted_for: None, role: Role::Follower, ..self }
        } else if t == self.current_term && self.role == Role::Candidate {
            RaftPeer { role: Role::Follower, ..self }
        } else {
            self
        }
    }

    /// The consistency check of the append handler: the slot before the sent
    /// entries exists here and carries the term the leader claims.
    pub open spec fn append_prev_ok(self, args: AppendLogsArgs) -> bool {
        &&& args.prev_log_index < self.log@.len()
        &&& self.log@[args.prev_log_index as int].term == args.prev_log_term
    }

    /// Whether the merge would cut into the committed prefix; such an append
    /// contradicts what this peer knows to be committed and is refused.
    pub open spec fn append_conflicts_commit(self, args: AppendLogsArgs) -> bool {
        let c = first_mismatch(
            self.log.deep_view(),
            args.prev_log_index as int,
            args.entries.deep_view(),
        );
        c < args.entries@.len() && args.prev_log_index + 1 + c <= self.commit_index
    }

    /// Follower side of log replication: reject stale terms and failed
    /// consistency checks; otherwise merge the sent entries into the log and
    /// raise the commit index toward the leader's.
    #[verifier::rlimit(80)]
    pub fn handle_append_logs(&mut self, args: &AppendLogsArgs) -> (reply: AppendLogsReply)
        requires
            old(self).wf(),
        ensures
            final(self).wf(),
            reply.term == final(self).current_term,
            final(self).last_applied == old(self).last_applied,
            final(self).commit_index >= old(self).commit_index,
            (old(self).role == Role::Leader && final(self).role == Role::Leader
                && final(self).current_term == old(self).current_term)
                ==> final(self).log == old(self).log,
            args.term < old(self).current_term ==> *final(self) == *old(self) && !reply.success,
            args.term >= old(self).current_term ==> ({
                let s1 = old(self).after_observe_append(args.term);
                &&& (s1.role == Role::Leader ==> *final(self) == s1 && !reply.success)
                &&& (s1.role != Role::Leader && !s1.append_prev_ok(*args) ==> *final(self) == s1
                    && !reply.success)
                &&& (s1.role != Role::Leader && s1.append_prev_ok(*args)
                    && s1.append_conflicts_commit(*args) ==> *final(self) == s1 && !reply.success)
                &&& (s1.role != Role::Leader && s1.append_prev_ok(*args)
                    && !s1.append_conflicts_commit(*args) ==> {
                    &&& reply.success
                    &&& final(self).log.deep_view() == merged_log(
                        s1.log.deep_view(),
                        args.prev_log_index as int,
                        args.entries.deep_view(),
                    )
                    &&& final(self).current_term == s1.current_term
                    &&& final(self).voted_for == s1.voted_for
                    &&& final(self).role == s1.role
                    &&& final(self).next_index == s1.next_index
                    &&& final(self).match_index == s1.match_index
                    &&& final(self).commit_index == bumped_commit(
                        args.leader_commit,
                        s1.commit_index,
                        final(self).last_index(),
                    )
                })
            }),
    {
        if args.term < self.current_term {
            return AppendLogsReply { term: self.current_term, success: false };
        }
        if args.term > self.current_term {
            self.current_term = args.term;
            self.voted_for = None;
            self.role = Role::Follower;
        } else if matches!(self.role, Role::Candidate) {
            self.role = Role::Follower;
        }
        let ghost s1 = *self;
        proof {
            assert(s1 == old(self).after_observe_append(args.term));
        }
        if matches!(self.role, Role::Leader) {
            return AppendLogsReply { term: self.current_term, success: false };
        }
        if args.prev_log_index >= self.log.len() as u64 {
            return AppendLogsReply { term: self.current_term, success: false };
        }
        let prev = args.prev_log_index as usize;
        if self.log[prev].term != args.prev_log_term {
            return AppendLogsReply { term: self.current_term, success: false };
        }
        let ghost logd = s1.log.deep_view();
        let ghost entriesd = args.entries.deep_view();
        proof {
            lemma_first_mismatch(logd, prev as int, entriesd);
        }
        let ghost c = first_mismatch(logd, prev as int, entriesd);
        // find the first sent entry whose term disagrees with the local slot
        let mut k: usize = 0;
        let mut pos: usize = prev + 1;
        while k < args.entries.len() && pos < self.log.len() && self.log[pos].term
            == args.entries[k].term
            invariant
                *self == s1,
                self.wf(),
                prev < self.log@.len(),
                0 <= k <= args.entries@.len(),
                pos == prev + 1 + k,
                pos <= self.log@.len(),
                logd == self.log.deep_view(),
                entriesd == args.entries.deep_view(),
                c == first_mismatch(logd, prev as int, entriesd),
                forall|j: int|
                    0 <= j < k ==> prev + 1 + j < logd.len() && (#[trigger] entriesd[j]).term
                        == logd[prev + 1 + j].term,
            decreases args.entries@.len() - k,
        {
            k = k + 1;
            pos = pos + 1;
        }
        proof {
            lemma_first_mismatch(logd, prev as int, entriesd);
            if c < k as int {
                assert(entriesd[c].term == logd[prev + 1 + c].term);
                assert(false);
            }
            if (k as int) < c {
                assert(prev + c < logd.len());
                assert(entriesd[k as int].term == logd[prev + 1 + (k as int)].term);
                assert(logd[prev + 1 + (k as int)].term == self.log@[prev + 1 + (k as int)].term);
                assert(false);
            }
            assert(k as int == c);
        }
        if k < args.entries.len() {
            // the merge would rewrite slots from prev + 1 + k on
            if args.prev_log_index + 1 + (k as u64) <= self.commit_index {
                return AppendLogsReply { term: self.current_term, success: false };
            }
            self.log.truncate(prev + 1 + k);
            proof {
                assert(self.log@.subrange(0, prev + 1 + k as int) =~= s1.log@.subrange(
                    0,
                    prev + 1 + k as int,
                ));
            }
            let mut j: usize = k;
            while j < args.entries.len()
                invariant
                    k as int == c,
                    c == first_mismatch(logd, prev as int, entriesd),
                    0 <= c < entriesd.len(),
                    prev < logd.len(),
                    prev + 1 + k <= logd.len(),
                    logd == s1.log.deep_view(),
                    logd.len() == s1.log@.len(),
                    k <= j <= args.entries@.len(),
                    entriesd == args.entries.deep_view(),
                    entriesd.len() == args.entries@.len(),
                    s1.wf(),
                    *self == (RaftPeer { log: self.log, ..s1 }),
                    s1.commit_index < prev + 1 + k,
                    self.log@.len() == prev + 1 + j,
                    self.log@.subrange(0, prev + 1 + k as int) == s1.log@.subrange(
                        0,
                        prev + 1 + k as int,
                    ),
                    forall|t: int|
                        k <= t < j ==> (#[trigger] self.log@[prev + 1 + t]).term
                            == entriesd[t].term && self.log@[prev + 1 + t].index == ((prev + 1
                            + t) as u64) && self.log@[prev + 1 + t].command@ == entriesd[t].command,
                decreases args.entries@.len() - j,
            {
                let cmd = clone_bytes(&args.entries[j].command);
                let idx = self.log.len() as u64;
                let ghost pre = self.log@;
                self.log.push(LogEntry { term: args.entries[j].term, index: idx, command: cmd });
                proof {
                    assert(self.log@.subrange(0, prev + 1 + k as int) =~= pre.subrange(
                        0,
                        prev + 1 + k as int,
                    ));
                }
                j = j + 1;
            }
            proof {
                lemma_first_mismatch(logd, prev as int, entriesd);
                let m = merged_log(logd, prev as int, entriesd);
                let tail = Seq::new(
                    (entriesd.len() - c) as nat,
                    |t: int|
                        (EntryModel {
                            term: entriesd[c + t].term,
                            index: (prev + 1 + c + t) as u64,
                            command: entriesd[c + t].command,
                        }),
                );
                assert(m =~= logd.subrange(0, prev + 1 + c) + tail);
                assert(self.log@.len() == prev + 1 + entriesd.len());
                assert forall|i: int| 0 <= i < self.log@.len() implies self.log.deep_view()[i]
                    == m[i] && (#[trigger] self.log@[i]).index == i as u64 by {
                    if i < prev + 1 + c {
                        assert(self.log@[i] == self.log@.subrange(0, prev + 1 + k as int)[i]);
                        assert(s1.log@.subrange(0, prev + 1 + k as int)[i] == s1.log@[i]);
                        assert(m[i] == logd.subrange(0, prev + 1 + c)[i]);
                        assert(logd[i] == s1.log@[i].deep_view());
                        assert(s1.log@[i].index == i as u64);
                    } else {
                        let t = i - (prev + 1);
                        assert(self.log@[prev + 1 + t].term == entriesd[t].term);
                        assert(self.log@[prev + 1 + t].index == ((prev + 1 + t) as u64));
                        assert(m[i] == tail[t - c]);
                    }
                }
                assert(self.log.deep_view() =~= m);
            }
        } else {
            proof {
                assert(k as int == entriesd.len());
                assert(self.log.deep_view() =~= merged_log(logd, prev as int, entriesd));
            }
        }
        if args.leader_commit > self.commit_index {
            let last = (self.log.len() - 1) as u64;
            self.commit_index = if args.leader_commit <= last {
                args.leader_commit
            } else {
                last
            };
        }
        AppendLogsReply { term: self.current_term, success: true }
    }
}

/// How many peers other than `me` have `match_index` at least `n`, among the
/// first `upto` peers.
pub open spec fn count_matched(m: Seq<u64>, me: int, upto: int, n: u64) -> int
    decreases upto,
{
    if upto <= 0 {
        0
    } else {
        count_matched(m, me, upto - 1, n) + if upto - 1 != me && m[upto - 1] >= n {
            1int
        } else {
            0int
        }
    }
}

impl RaftPeer {
    /// Whether a leader may move its commit index to `n`: the slot exists, it
    /// carries the leader's own term, and counting the leader itself a strict
    /// majority of the cluster holds a copy.
    pub open spec fn commit_ok(self, n: u64) -> bool {
        &&& self.commit_index < n
        &&& n <= self.last_index()
        &&& self.log@[n as int].term == self.current_term
        &&& 2 * (count_matched(self.match_index@, self.me as int, self.peer_count as int, n) + 1)
            > self.peer_count
    }

    /// Count the followers whose known replication reaches index `n`.
    fn count_matched_at(&self, n: u64) -> (r: u64)
        requires
            self.wf(),
        ensures
            r == count_matched(self.match_index@, self.me as int, self.peer_count as int, n),
            r <= self.peer_count,
    {
        let mut r: u64 = 0;
        let mut p: usize = 0;
        while p < self.match_index.len()
            invariant
                self.wf(),
                0 <= p <= self.match_index@.len(),
                r == count_matched(self.match_index@, self.me as int, p as int, n),
                r <= p,
            decreases self.match_index@.len() - p,
        {
            if (p as u64) != self.me && self.match_index[p] >= n {
                r = r + 1;
            }
            p = p + 1;
        }
        r
    }

    /// Commit advancement: move the commit index to the largest slot of the
    /// current term that a strict majority holds; leave it alone if there is
    /// none. Only a leader advances this way.
    pub fn advance_commit(&mut self)
        requires
            old(self).wf(),
        ensures
            final(self).wf(),
            *final(self) == (RaftPeer { commit_index: final(self).commit_index, ..*old(self) }),
            final(self).commit_index >= old(self).commit_index,
            old(self).role != Role::Leader ==> final(self).commit_index == old(self).commit_index,
            final(self).commit_index != old(self).commit_index ==> old(self).commit_ok(
                final(self).commit_index,
            ),
            old(self).role == Role::Leader ==> (forall|m: u64|
                final(self).commit_index < m <= old(self).last_index() ==> !old(self).commit_ok(m)),
    {
        if !matches!(self.role, Role::Leader) {
            return ;
        }
        let ghost s0 = *self;
        let mut n: usize = self.log.len() - 1;
        while n > self.commit_index as usize
            invariant
                s0 == *old(self),
                *self == s0,
                self.wf(),
                self.role == Role::Leader,
                self.commit_index <= n < self.log@.len(),
                forall|m: u64| n < m <= s0.last_index() ==> !s0.commit_ok(m),
            decreases n,
        {
            let majority = {
                let c = self.count_matched_at(n as u64);
                2 * ((c as u128) + 1) > (self.peer_count as u128)
            };
            if self.log[n].term == self.current_term && majority {
                self.commit_index = n as u64;
                return ;
            }
            proof {
                assert(!s0.commit_ok(n as u64));
            }
            n = n - 1;
        }
    }

    /// Application entry point: a leader appends the command to its own log
    /// and answers with the slot it will occupy; anyone else refuses.
    pub fn start(&mut self, command: Vec<u8>) -> (r: Result<(u64, u64), RaftError>)
        requires
            old(self).wf(),
        ensures
            final(self).wf(),
            final(self).commit_index == old(self).commit_index,
            final(self).last_applied == old(self).last_applied,
            final(self).current_term == old(self).current_term,
            final(self).role == old(self).role,
            old(self).role != Role::Leader ==> r == Err::<(u64, u64), RaftError>(
                RaftError::NotLeader,
            ) && *final(self) == *old(self),
            old(self).log.deep_view().is_prefix_of(final(self).log.deep_view()),
            old(self).role == Role::Leader ==> ({
                &&& r == Ok::<(u64, u64), RaftError>(
                    (old(self).log@.len() as u64, old(self).current_term),
                )
                &&& final(self).log.deep_view() == old(self).log.deep_view().push(
                    (EntryModel {
                        term: old(self).current_term,
                        index: old(self).log@.len() as u64,
                        command: command@,
                    }),
                )
                &&& *final(self) == (RaftPeer { log: final(self).log, ..*old(self) })
            }),
    {
        if !matches!(self.role, Role::Leader) {
            return Err(RaftError::NotLeader);
        }
        let index = self.log.len() as u64;
        let term = self.current_term;
        self.log.push(LogEntry { term, index, command });
        proof {
            assert(self.log.deep_view() =~= old(self).log.deep_view().push(
                (EntryModel { term: term, index: index, command: command@ }),
            ));
        }
        Ok((index, term))
    }

    /// Apply pipeline: hand every newly committed entry to the application,
    /// in index order, each exactly once.
    pub fn apply(&mut self) -> (msgs: Vec<ApplyMsg>)
        requires
            old(self).wf(),
        ensures
            final(self).wf(),
            *final(self) == (RaftPeer { last_applied: old(self).commit_index, ..*old(self) }),
            msgs@.len() == old(self).commit_index - old(self).last_applied,
            forall|j: int|
                0 <= j < msgs@.len() ==> {
                    &&& (#[trigger] msgs@[j]).command_valid
                    &&& msgs@[j].command_index == old(self).last_applied + 1 + j
                    &&& msgs@[j].command@ == old(self).log.deep_view()[old(self).last_applied + 1
                        + j].command
                },
    {
        let mut msgs: Vec<ApplyMsg> = Vec::new();
        let log_len = self.log.len();
        let mut i: u64 = self.last_applied;
        while i < self.commit_index
            invariant
                *self == *old(self),
                self.wf(),
                self.log@.len() == log_len,
                old(self).last_applied <= i <= self.commit_index,
                msgs@.len() == i - old(self).last_applied,
                forall|j: int|
                    0 <= j < msgs@.len() ==> {
                        &&& (#[trigger] msgs@[j]).command_valid
                        &&& msgs@[j].command_index == old(self).last_applied + 1 + j
                        &&& msgs@[j].command@ == old(self).log.deep_view()[old(self).last_applied
                            + 1 + j].command
                    },
            decreases self.commit_index - i,
        {
            i = i + 1;
            let command = clone_bytes(&self.log[i as usize].command);
            msgs.push(ApplyMsg { command_valid: true, command, command_index: i });
            proof {
                let j = msgs@.len() - 1;
                assert(msgs@[j].command@ == old(self).log.deep_view()[old(self).last_applied + 1
                    + j].command);
            }
        }
        self.last_applied = self.commit_index;
        msgs
    }

    /// Election trigger: step up to candidate in a fresh term and vote for
    /// ourselves. The vote-request arguments to broadcast come from
    /// `build_vote_args` afterwards.
    pub fn convert_to_candidate(&mut self)
        requires
            old(self).wf(),
            old(self).current_term < u64::MAX,
        ensures
            final(self).wf(),
            *final(self) == (RaftPeer {
                current_term: (old(self).current_term + 1) as u64,
                voted_for: Some(old(self).me),
                role: Role::Candidate,
                ..*old(self)
            }),
    {
        self.current_term = self.current_term + 1;
        self.voted_for = Some(self.me);
        self.role = Role::Candidate;
    }

    /// The vote request this peer broadcasts as a candidate.
    pub fn build_vote_args(&self) -> (args: RequestVoteArgs)
        requires
            self.wf(),
        ensures
            args.term == self.current_term,
            args.candidate_id == self.me,
            args.last_log_index == self.last_index(),
            args.last_log_term == self.last_term(),
    {
        RequestVoteArgs {
            term: self.current_term,
            candidate_id: self.me,
            last_log_index: self.last_log_index(),
            last_log_term: self.last_log_term(),
        }
    }

    /// Election close: with `votes` ballots (our own included) gathered for the
    /// election started in `election_term`, become leader exactly when we are
    /// still that term's candidate and the ballots form a strict majority.
    /// A new leader starts every follower at its own log end, with nothing yet
    /// known to be replicated.
    pub fn try_become_leader(&mut self, election_term: u64, votes: u64) -> (won: bool)
        requires
            old(self).wf(),
        ensures
            final(self).wf(),
            won == (old(self).role == Role::Candidate && old(self).current_term == election_term
                && 2 * votes > old(self).peer_count),
            !won ==> *final(self) == *old(self),
            won ==> ({
                &&& *final(self) == (RaftPeer {
                    role: Role::Leader,
                    next_index: final(self).next_index,
                    match_index: final(self).match_index,
                    ..*old(self)
                })
                &&& final(self).next_index@ == Seq::new(
                    old(self).peer_count as nat,
                    |p: int| (old(self).last_index() + 1) as u64,
                )
                &&& final(self).match_index@ == Seq::new(
                    old(self).peer_count as nat,
                    |p: int| 0u64,
                )
            }),
    {
        let still_candidate = matches!(self.role, Role::Candidate) && self.current_term
            == election_term;
        let majority = 2 * ((votes as u128)) > (self.peer_count as u128);
        if !(still_candidate && majority) {
            return false;
        }
        let next = self.log.len() as u64;
        let mut next_index: Vec<u64> = Vec::new();
        let mut match_index: Vec<u64> = Vec::new();
        let mut p: u64 = 0;
        while p < self.peer_count
            invariant
                p <= self.peer_count,
                next == self.log@.len(),
                next_index@.len() == p,
                match_index@.len() == p,
                forall|q: int| 0 <= q < p ==> (#[trigger] next_index@[q]) == next,
                forall|q: int| 0 <= q < p ==> (#[trigger] match_index@[q]) == 0u64,
            decreases self.peer_count - p,
        {
            next_index.push(next);
            match_index.push(0);
            p = p + 1;
        }
        self.next_index = next_index;
        self.match_index = match_index;
        self.role = Role::Leader;
        proof {
            assert(self.next_index@ =~= Seq::new(
                old(self).peer_count as nat,
                |q: int| (old(self).last_index() + 1) as u64,
            ));
            assert(self.match_index@ =~= Seq::new(old(self).peer_count as nat, |q: int| 0u64));
        }
        true
    }

    /// The append a leader sends to one follower: everything from that
    /// follower's next index on, after the matching previous slot.
    pub fn build_append_args(&self, follower: usize) -> (args: AppendLogsArgs)
        requires
            self.wf(),
            self.role == Role::Leader,
            follower < self.peer_count,
        ensures
            args.term == self.current_term,
            args.leader_id == self.me,
            args.prev_log_index == self.next_index@[follower as int] - 1,
            args.prev_log_term == self.log@[args.prev_log_index as int].term,
            args.entries.deep_view() == self.log.deep_view().subrange(
                self.next_index@[follower as int] as int,
                self.log@.len() as int,
            ),
            args.leader_commit == self.commit_index,
    {
        proof {
            assert(1 <= self.next_index@[follower as int] <= self.log@.len());
        }
        let next = self.next_index[follower];
        let log_len = self.log.len();
        let prev = (next - 1) as usize;
        let prev_log_term = self.log[prev].term;
        let mut entries: Vec<LogEntry> = Vec::new();
        let mut j: usize = next as usize;
        while j < log_len
            invariant
                self.wf(),
                self.log@.len() == log_len,
                1 <= next <= j <= self.log@.len(),
                entries@.len() == j - next,
                forall|t: int|
                    0 <= t < entries@.len() ==> (#[trigger] entries@[t]).term == self.log@[next
                        + t].term && entries@[t].index == self.log@[next + t].index
                        && entries@[t].command@ == self.log@[next + t].command@,
            decreases self.log@.len() - j,
        {
            let e = &self.log[j];
            let command = clone_bytes(&e.command);
            entries.push(LogEntry { term: e.term, index: e.index, command });
            j = j + 1;
        }
        proof {
            assert forall|t: int| 0 <= t < entries.deep_view().len() implies (
            #[trigger] entries.deep_view()[t]) == self.log.deep_view()[next + t] by {
                assert(entries.deep_view()[t] == entries@[t].deep_view());
                assert(self.log.deep_view()[next + t] == self.log@[next + t].deep_view());
            }
            assert(entries.deep_view() =~= self.log.deep_view().subrange(
                next as int,
                self.log@.len() as int,
            ));
        }
        AppendLogsArgs {
            term: self.current_term,
            leader_id: self.me,
            prev_log_index: next - 1,
            prev_log_term,
            entries,
            leader_commit: self.commit_index,
        }
    }

    /// Leader's handling of an append reply, judged against the send-time
    /// context: a higher term dethrones us; a stale context is dropped; a
    /// success moves the follower's progress forward and may advance the
    /// commit index; a refusal backs the follower's next index off by one.
    pub fn handle_append_logs_reply(&mut self, reply: &AppendLogsReply, ctx: &AppendContext)
        requires
            old(self).wf(),
        ensures
            final(self).wf(),
            final(self).commit_index >= old(self).commit_index,
            final(self).log == old(self).log,
            final(self).last_applied == old(self).last_applied,
            reply.term > old(self).current_term ==> *final(self) == old(self).after_observe(
                reply.term,
            ),
            reply.term <= old(self).current_term ==> ({
                let stale = old(self).role != Role::Leader || ctx.sent_term != old(
                    self,
                ).current_term || ctx.follower >= old(self).peer_count;
                &&& (stale ==> *final(self) == *old(self))
                &&& (!stale && !reply.success ==> *final(self) == (RaftPeer {
                    next_index: final(self).next_index,
                    ..*old(self)
                }) && final(self).next_index@ == old(self).next_index@.update(
                    ctx.follower as int,
                    (if old(self).next_index@[ctx.follower as int] > 1 {
                        (old(self).next_index@[ctx.follower as int] - 1) as u64
                    } else {
                        1u64
                    }),
                ))
                &&& (!stale && reply.success ==> ({
                    let advanced = if ctx.prev_log_index + ctx.sent_len <= old(self).last_index() {
                        (ctx.prev_log_index + ctx.sent_len) as u64
                    } else {
                        old(self).last_index() as u64
                    };
                    let matched = if advanced > old(self).match_index@[ctx.follower as int] {
                        advanced
                    } else {
                        old(self).match_index@[ctx.follower as int]
                    };
                    let mid = RaftPeer {
                        match_index: final(self).match_index,
                        next_index: final(self).next_index,
                        ..*old(self)
                    };
                    &&& final(self).match_index@ == old(self).match_index@.update(
                        ctx.follower as int,
                        matched,
                    )
                    &&& final(self).next_index@ == old(self).next_index@.update(
                        ctx.follower as int,
                        (matched + 1) as u64,
                    )
                    &&& final(self).current_term == old(self).current_term
                    &&& final(self).voted_for == old(self).voted_for
                    &&& final(self).role == old(self).role
                    &&& (final(self).commit_index != old(self).commit_index ==> mid.commit_ok(
                        final(self).commit_index,
                    ))
                    &&& (forall|m: u64|
                        final(self).commit_index < m <= old(self).last_index() ==> !mid.commit_ok(
                            m,
                        ))
                }))
            }),
    {
        if reply.term > self.current_term {
            self.current_term = reply.term;
            self.voted_for = None;
            self.role = Role::Follower;
            return ;
        }
        if !matches!(self.role, Role::Leader) || ctx.sent_term != self.current_term
            || ctx.follower >= self.peer_count {
            return ;
        }
        let f = ctx.follower as usize;
        proof {
            assert(self.match_index@[f as int] < self.log@.len() && self.next_index@[f as int]
                >= 1);
        }
        if reply.success {
            let log_len = self.log.len();
            let last = self.last_log_index();
            proof {
                assert(last as int == log_len - 1);
            }
            let target = {
                let sum = (ctx.prev_log_index as u128) + (ctx.sent_len as u128);
                if sum <= (last as u128) {
                    (ctx.prev_log_index + ctx.sent_len) as u64
                } else {
                    last
                }
            };
            let cur = self.match_index[f];
            let matched = if target > cur {
                target
            } else {
                cur
            };
            self.match_index.set(f, matched);
            self.next_index.set(f, matched + 1);
            self.advance_commit();
        } else {
            let cur = self.next_index[f];
            let backed = if cur > 1 {
                cur - 1
            } else {
                1
            };
            self.next_index.set(f, backed);
        }
    }

    /// The blob to hand to stable storage: term, vote and log, as
    /// `state_bytes` lays them out.
    pub fn persisted_state(&self) -> (b: Vec<u8>)
        ensures
            b@ == state_bytes(self.current_term, self.voted_for, self.log.deep_view()),
    {
        encode_state(self.current_term, &self.voted_for, &self.log)
    }

    /// Whether a decoded log has the shape a peer's log must have: a sentinel
    /// of term 0 in front, and every entry numbered with its slot.
    pub open spec fn log_shape_ok(l: Seq<EntryModel>) -> bool {
        &&& 1 <= l.len()
        &&& l[0].term == 0
        &&& (forall|i: int| 0 <= i < l.len() ==> (#[trigger] l[i]).index == i as u64)
    }

    /// Bring a peer back from a saved blob: the persistent fields are read
    /// out of it, the volatile ones start over. A blob that does not parse,
    /// or parses to a log no peer could have written, is refused.
    pub fn restore(me: u64, peer_count: u64, blob: &Vec<u8>) -> (r: Option<RaftPeer>)
        requires
            1 <= peer_count,
            peer_count <= usize::MAX as u64,
            me < peer_count,
        ensures
            parse_state(blob@) is None ==> r is None,
            parse_state(blob@) matches Some(s) ==> {
                &&& !Self::log_shape_ok(s.2) ==> r is None
                &&& Self::log_shape_ok(s.2) ==> (r matches Some(p) && p.wf() && p.me == me
                    && p.peer_count == peer_count && p.current_term == s.0 && p.voted_for == s.1
                    && p.log.deep_view() == s.2 && p.commit_index == 0 && p.last_applied == 0
                    && p.role == Role::Follower)
            },
    {
        let decoded = decode_state(blob);
        match decoded {
            None => None,
            Some((term, vote, log)) => {
                if log.len() == 0 {
                    return None;
                }
                if log[0].term != 0 {
                    return None;
                }
                let mut i: usize = 0;
                let mut shape_ok = true;
                while i < log.len()
                    invariant
                        i <= log@.len(),
                        log@.len() <= usize::MAX,
                        shape_ok == (forall|t: int|
                            0 <= t < i ==> (#[trigger] log.deep_view()[t]).index == t as u64),
                    decreases log@.len() - i,
                {
                    if log[i].index != i as u64 {
                        shape_ok = false;
                        proof {
                            assert(log.deep_view()[i as int].index != i as u64);
                        }
                    } else {
                        proof {
                            assert(log.deep_view()[i as int].index == i as u64);
                        }
                    }
                    i = i + 1;
                }
                if !shape_ok {
                    return None;
                }
                proof {
                    assert forall|t: int| 0 <= t < log@.len() implies (#[trigger] log@[t].index)
                        == t as u64 by {
                        assert(log.deep_view()[t].index == log@[t].index);
                    }
                }
                let mut peer = RaftPeer::new(me, peer_count);
                peer.current_term = term;
                peer.voted_for = vote;
                peer.log = log;
                Some(peer)
            },
        }
    }
}

/// Election safety within one term: a term's ballots are a map from each
/// voter to the one candidate it granted its vote, so two strict majorities
/// of ballots must name the same candidate — no term elects two leaders.
pub proof fn lemma_election_safety(
    ballots: Map<int, int>,
    n: int,
    cand_a: int,
    cand_b: int,
    sa: Set<int>,
    sb: Set<int>,
)
    requires
        1 <= n,
        sa.subset_of(set_int_range(0, n)),
        sb.subset_of(set_int_range(0, n)),
        forall|v: int| sa.contains(v) ==> ballots.contains_key(v) && ballots[v] == cand_a,
        forall|v: int| sb.contains(v) ==> ballots.contains_key(v) && ballots[v] == cand_b,
        2 * sa.len() > n,
        2 * sb.len() > n,
    ensures
        cand_a == cand_b,
{
    lemma_int_range(0, n);
    lemma_len_subset(sa, set_int_range(0, n));
    lemma_len_subset(sb, set_int_range(0, n));
    if cand_a != cand_b {
        assert(sa.disjoint(sb)) by {
            assert forall|v: int| sa.contains(v) implies !sb.contains(v) by {
                if sb.contains(v) {
                    assert(ballots[v] == cand_a && ballots[v] == cand_b);
                }
            }
        }
        lemma_set_disjoint_lens(sa, sb);
        lemma_len_subset(sa + sb, set_int_range(0, n));
        assert((sa + sb).len() <= n);
        assert(false);
    }
}

} // verus!
