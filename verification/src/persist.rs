use vstd::prelude::*;

use crate::defs::{EntryModel, LogEntry};

verus! {

/// A `u64` as its eight little-endian bytes.
pub open spec fn u64_le(x: u64) -> Seq<u8> {
    seq![
        (x & 0xff) as u8,
        ((x >> 8) & 0xff) as u8,
        ((x >> 16) & 0xff) as u8,
        ((x >> 24) & 0xff) as u8,
        ((x >> 32) & 0xff) as u8,
        ((x >> 40) & 0xff) as u8,
        ((x >> 48) & 0xff) as u8,
        ((x >> 56) & 0xff) as u8,
    ]
}

/// The `u64` eight little-endian bytes stand for.
pub open spec fn u64_of_le(b: Seq<u8>) -> u64 {
    (b[0] as u64) | ((b[1] as u64) << 8) | ((b[2] as u64) << 16) | ((b[3] as u64) << 24) | ((
    b[4] as u64) << 32) | ((b[5] as u64) << 40) | ((b[6] as u64) << 48) | ((b[7] as u64) << 56)
}

/// Eight little-endian bytes read back as the number they came from.
pub proof fn lemma_u64_le_round_trip(x: u64)
    ensures
        u64_le(x).len() == 8,
        u64_of_le(u64_le(x)) == x,
{
    assert(((x & 0xff) as u8 as u64) | ((((x >> 8) & 0xff) as u8 as u64) << 8) | ((((x >> 16)
        & 0xff) as u8 as u64) << 16) | ((((x >> 24) & 0xff) as u8 as u64) << 24) | ((((x >> 32)
        & 0xff) as u8 as u64) << 32) | ((((x >> 40) & 0xff) as u8 as u64) << 40) | ((((x >> 48)
        & 0xff) as u8 as u64) << 48) | ((((x >> 56) & 0xff) as u8 as u64) << 56) == x)
        by (bit_vector);
}

/// The vote, as a presence byte followed by the peer index (zero when absent).
pub open spec fn vote_bytes(v: Option<u64>) -> Seq<u8> {
    match v {
        None => seq![0u8] + u64_le(0),
        Some(p) => seq![1u8] + u64_le(p),
    }
}

/// The log entries, each as term, index, command length and command bytes.
pub open spec fn entries_bytes(l: Seq<EntryModel>) -> Seq<u8>
    decreases l.len(),
{
    if l.len() == 0 {
        Seq::empty()
    } else {
        u64_le(l[0].term) + (u64_le(l[0].index) + (u64_le(l[0].command.len() as u64) + (
        l[0].command + entries_bytes(l.drop_first()))))
    }
}

/// The whole persistent state as one blob: term, vote, entry count, entries.
pub open spec fn state_bytes(term: u64, voted_for: Option<u64>, l: Seq<EntryModel>) -> Seq<u8> {
    u64_le(term) + (vote_bytes(voted_for) + (u64_le(l.len() as u64) + entries_bytes(l)))
}

/// What a blob decodes to, entry section: `count` entries from position `at`,
/// or nothing if the bytes do not parse.
pub open spec fn parse_entries(b: Seq<u8>, at: int, count: nat) -> Option<(Seq<EntryModel>, int)>
    decreases count,
{
    if count == 0 {
        Some((Seq::empty(), at))
    } else if at + 24 > b.len() {
        None
    } else {
        let term = u64_of_le(b.subrange(at, at + 8));
        let index = u64_of_le(b.subrange(at + 8, at + 16));
        let clen = u64_of_le(b.subrange(at + 16, at + 24));
        if at + 24 + clen > b.len() {
            None
        } else {
            let command = b.subrange(at + 24, at + 24 + clen);
            match parse_entries(b, at + 24 + clen, (count - 1) as nat) {
                Some(rest) => Some(
                    (seq![(EntryModel { term, index, command })] + rest.0, rest.1),
                ),
                None => None,
            }
        }
    }
}

/// What a blob decodes to: the persistent state it encodes, or nothing. Every
/// byte must be accounted for.
pub open spec fn parse_state(b: Seq<u8>) -> Option<(u64, Option<u64>, Seq<EntryModel>)> {
    if b.len() < 25 {
        None
    } else {
        let term = u64_of_le(b.subrange(0, 8));
        let tag = b[8];
        let votenum = u64_of_le(b.subrange(9, 17));
        let count = u64_of_le(b.subrange(17, 25));
        if tag != 0 && tag != 1 {
            None
        } else if tag == 0 && votenum != 0 {
            None
        } else {
            let vote = if tag == 0 {
                Option::<u64>::None
            } else {
                Some(votenum)
            };
            match parse_entries(b, 25, count as nat) {
                Some(rest) => if rest.1 == b.len() {
                    Some((term, vote, rest.0))
                } else {
                    None
                },
                None => None,
            }
        }
    }
}

/// Splitting a known concatenation at a position: the head and the tail read
/// back exactly.
pub proof fn lemma_sub_concat(b: Seq<u8>, at: int, x: Seq<u8>, rest: Seq<u8>)
    requires
        0 <= at <= b.len(),
        b.subrange(at, b.len() as int) == x + rest,
    ensures
        at + x.len() <= b.len(),
        b.subrange(at, at + x.len() as int) == x,
        b.subrange(at + x.len() as int, b.len() as int) == rest,
{
    assert(b.subrange(at, b.len() as int).len() == x.len() + rest.len());
    assert forall|i: int| 0 <= i < x.len() implies b.subrange(at, at + x.len() as int)[i] == x[i] by {
        assert(b.subrange(at, b.len() as int)[i] == (x + rest)[i]);
    }
    assert(b.subrange(at, at + x.len() as int) =~= x);
    assert forall|i: int| 0 <= i < rest.len() implies b.subrange(
        at + x.len() as int,
        b.len() as int,
    )[i] == rest[i] by {
        assert(b.subrange(at, b.len() as int)[x.len() + i] == (x + rest)[x.len() + i]);
        assert((x + rest)[x.len() + i] == rest[i]);
        assert(b[at + x.len() + i] == rest[i]);
        assert(b.subrange(at + x.len() as int, b.len() as int)[i] == b[at + x.len() + i]);
    }
    assert(b.subrange(at + x.len() as int, b.len() as int) =~= rest);
}

/// The entry section reads back the entries it was written from.
pub proof fn lemma_entries_round_trip(b: Seq<u8>, at: int, l: Seq<EntryModel>)
    requires
        0 <= at <= b.len(),
        b.subrange(at, b.len() as int) == entries_bytes(l),
        forall|i: int| 0 <= i < l.len() ==> (#[trigger] l[i]).command.len() <= u64::MAX,
    ensures
        parse_entries(b, at, l.len() as nat) == Some((l, b.len() as int)),
    decreases l.len(),
{
    if l.len() == 0 {
        assert(b.subrange(at, b.len() as int).len() == 0);
        assert(parse_entries(b, at, 0) == Some((Seq::<EntryModel>::empty(), at)));
        assert(l =~= Seq::<EntryModel>::empty());
    } else {
        let e = l[0];
        let tailb = u64_le(e.index) + (u64_le(e.command.len() as u64) + (e.command
            + entries_bytes(l.drop_first())));
        lemma_sub_concat(b, at, u64_le(e.term), tailb);
        lemma_u64_le_round_trip(e.term);
        let at1 = at + 8;
        let tail2 = u64_le(e.command.len() as u64) + (e.command + entries_bytes(l.drop_first()));
        lemma_sub_concat(b, at1, u64_le(e.index), tail2);
        lemma_u64_le_round_trip(e.index);
        let at2 = at1 + 8;
        let tail3 = e.command + entries_bytes(l.drop_first());
        lemma_sub_concat(b, at2, u64_le(e.command.len() as u64), tail3);
        lemma_u64_le_round_trip(e.command.len() as u64);
        let at3 = at2 + 8;
        lemma_sub_concat(b, at3, e.command, entries_bytes(l.drop_first()));
        let at4 = at3 + e.command.len() as int;
        assert(e.command.len() as u64 as int == e.command.len() as int);
        assert(u64_of_le(b.subrange(at, at + 8)) == e.term);
        assert(u64_of_le(b.subrange(at + 8, at + 16)) == e.index);
        assert(u64_of_le(b.subrange(at + 16, at + 24)) == e.command.len() as u64);
        assert(b.subrange(at + 24, at + 24 + e.command.len() as int) == e.command);
        assert forall|i: int| 0 <= i < l.drop_first().len() implies (
        #[trigger] l.drop_first()[i]).command.len() <= u64::MAX by {
            assert(l.drop_first()[i] == l[i + 1]);
        }
        lemma_entries_round_trip(b, at4, l.drop_first());
        assert(parse_entries(b, at4, (l.len() - 1) as nat) == Some(
            (l.drop_first(), b.len() as int),
        ));
        assert(seq![(EntryModel { term: e.term, index: e.index, command: e.command })]
            + l.drop_first() =~= l);
        assert((EntryModel { term: e.term, index: e.index, command: e.command }) == e);
        assert(parse_entries(b, at, l.len() as nat) == Some((l, b.len() as int)));
    }
}

/// Persistence round trip: a blob written from a term, a vote and a log reads
/// back as exactly that term, vote and log.
#[verifier::rlimit(100)]
pub proof fn lemma_persist_round_trip(term: u64, voted_for: Option<u64>, l: Seq<EntryModel>)
    requires
        l.len() <= u64::MAX,
        forall|i: int| 0 <= i < l.len() ==> (#[trigger] l[i]).command.len() <= u64::MAX,
    ensures
        parse_state(state_bytes(term, voted_for, l)) == Some((term, voted_for, l)),
{
    let b = state_bytes(term, voted_for, l);
    let tail1 = vote_bytes(voted_for) + (u64_le(l.len() as u64) + entries_bytes(l));
    assert(b.subrange(0, b.len() as int) =~= u64_le(term) + tail1);
    lemma_sub_concat(b, 0, u64_le(term), tail1);
    lemma_u64_le_round_trip(term);
    let tag = match voted_for {
        None => 0u8,
        Some(p) => 1u8,
    };
    let votenum = match voted_for {
        None => 0u64,
        Some(p) => p,
    };
    assert(vote_bytes(voted_for) =~= seq![tag] + u64_le(votenum));
    let tail2 = u64_le(votenum) + (u64_le(l.len() as u64) + entries_bytes(l));
    assert(tail1 =~= seq![tag] + tail2);
    lemma_sub_concat(b, 8, seq![tag], tail2);
    let tail3 = u64_le(l.len() as u64) + entries_bytes(l);
    lemma_sub_concat(b, 9, u64_le(votenum), tail3);
    lemma_u64_le_round_trip(votenum);
    lemma_sub_concat(b, 17, u64_le(l.len() as u64), entries_bytes(l));
    lemma_u64_le_round_trip(l.len() as u64);
    assert(b[8] == tag);
    assert(u64_of_le(b.subrange(0, 8)) == term);
    assert(u64_of_le(b.subrange(9, 17)) == votenum);
    assert(u64_of_le(b.subrange(17, 25)) == l.len() as u64);
    lemma_entries_round_trip(b, 25, l);
    assert(parse_entries(b, 25, (l.len() as u64) as nat) == Some((l, b.len() as int)));
}

/// Append a `u64` to the blob, little-endian.
fn push_u64(out: &mut Vec<u8>, x: u64)
    ensures
        final(out)@ == old(out)@ + u64_le(x),
{
    out.push((x & 0xff) as u8);
    out.push(((x >> 8) & 0xff) as u8);
    out.push(((x >> 16) & 0xff) as u8);
    out.push(((x >> 24) & 0xff) as u8);
    out.push(((x >> 32) & 0xff) as u8);
    out.push(((x >> 40) & 0xff) as u8);
    out.push(((x >> 48) & 0xff) as u8);
    out.push(((x >> 56) & 0xff) as u8);
    proof {
        assert(out@ =~= old(out)@ + u64_le(x));
    }
}

/// Append a byte buffer to the blob.
fn push_bytes(out: &mut Vec<u8>, v: &Vec<u8>)
    ensures
        final(out)@ == old(out)@ + v@,
{
    let mut i: usize = 0;
    while i < v.len()
        invariant
            i <= v@.len(),
            out@ == old(out)@ + v@.subrange(0, i as int),
        decreases v@.len() - i,
    {
        out.push(v[i]);
        proof {
            assert(out@ =~= old(out)@ + v@.subrange(0, i + 1));
        }
        i = i + 1;
    }
    proof {
        assert(v@.subrange(0, v@.len() as int) =~= v@);
    }
}

/// Write the persistent state as one blob, as `state_bytes` lays it out.
pub fn encode_state(term: u64, voted_for: &Option<u64>, log: &Vec<LogEntry>) -> (b: Vec<u8>)
    ensures
        b@ == state_bytes(term, *voted_for, log.deep_view()),
{
    let ghost ld = log.deep_view();
    let mut out: Vec<u8> = Vec::new();
    push_u64(&mut out, term);
    match voted_for {
        None => {
            out.push(0);
            push_u64(&mut out, 0);
        },
        Some(p) => {
            out.push(1);
            push_u64(&mut out, *p);
        },
    }
    push_u64(&mut out, log.len() as u64);
    proof {
        assert(out@ =~= u64_le(term) + (vote_bytes(*voted_for) + u64_le(ld.len() as u64)));
    }
    let ghost pre = out@;
    proof {
        assert(ld.subrange(0, ld.len() as int) =~= ld);
    }
    let mut i: usize = 0;
    while i < log.len()
        invariant
            i <= log@.len(),
            ld == log.deep_view(),
            ld.len() == log@.len(),
            out@ + entries_bytes(ld.subrange(i as int, ld.len() as int)) == pre + entries_bytes(
                ld,
            ),
        decreases log@.len() - i,
    {
        let e = &log[i];
        let ghost mid = ld.subrange(i as int, ld.len() as int);
        proof {
            assert(mid[0] == ld[i as int]);
            assert(mid.drop_first() =~= ld.subrange(i + 1, ld.len() as int));
            assert(ld[i as int].command == log@[i as int].command@);
        }
        push_u64(&mut out, e.term);
        push_u64(&mut out, e.index);
        push_u64(&mut out, e.command.len() as u64);
        push_bytes(&mut out, &e.command);
        proof {
            assert(out@ + entries_bytes(ld.subrange(i + 1, ld.len() as int)) =~= pre
                + entries_bytes(ld));
        }
        i = i + 1;
    }
    proof {
        assert(entries_bytes(ld.subrange(ld.len() as int, ld.len() as int)) =~= Seq::<u8>::empty());
        assert(out@ =~= pre + entries_bytes(ld));
        assert(out@ =~= state_bytes(term, *voted_for, ld));
    }
    out
}

/// Read a `u64` out of the blob, little-endian.
fn read_u64(b: &Vec<u8>, at: usize) -> (r: u64)
    requires
        at + 8 <= b@.len(),
    ensures
        r == u64_of_le(b@.subrange(at as int, at as int + 8)),
{
    let n = b.len();
    proof {
        assert(at + 8 <= n);
    }
    let r = (b[at] as u64) | ((b[at + 1] as u64) << 8) | ((b[at + 2] as u64) << 16) | ((b[at
        + 3] as u64) << 24) | ((b[at + 4] as u64) << 32) | ((b[at + 5] as u64) << 40) | ((b[at
        + 6] as u64) << 48) | ((b[at + 7] as u64) << 56);
    proof {
        let s = b@.subrange(at as int, at as int + 8);
        assert(s[0] == b@[at as int] && s[1] == b@[at as int + 1] && s[2] == b@[at as int + 2]
            && s[3] == b@[at as int + 3] && s[4] == b@[at as int + 4] && s[5] == b@[at as int + 5]
            && s[6] == b@[at as int + 6] && s[7] == b@[at as int + 7]);
    }
    r
}

/// Read `count` entries from position `at`, as `parse_entries` reads them.
fn decode_entries(b: &Vec<u8>, at: usize, count: u64) -> (r: Option<(Vec<LogEntry>, usize)>)
    requires
        at <= b@.len(),
    ensures
        ({
            let p = parse_entries(b@, at as int, count as nat);
            match r {
                Some(v) => {
                    &&& p matches Some(q) && v.0.deep_view() == q.0 && v.1 as int == q.1
                    &&& at <= v.1 <= b@.len()
                },
                None => p is None,
            }
        }),
    decreases count,
{
    if count == 0 {
        let empty: Vec<LogEntry> = Vec::new();
        proof {
            assert(empty.deep_view() =~= Seq::<EntryModel>::empty());
        }
        return Some((empty, at));
    }
    if b.len() - at < 24 {
        return None;
    }
    let term = read_u64(b, at);
    let index = read_u64(b, at + 8);
    let clen = read_u64(b, at + 16);
    if clen > (b.len() - (at + 24)) as u64 {
        return None;
    }
    let cl = clen as usize;
    let mut command: Vec<u8> = Vec::new();
    let mut i: usize = 0;
    while i < cl
        invariant
            at + 24 + cl <= b@.len(),
            b@.len() <= usize::MAX as int,
            i <= cl,
            command@ == b@.subrange(at as int + 24, at as int + 24 + i as int),
        decreases cl - i,
    {
        command.push(b[at + 24 + i]);
        proof {
            assert(command@ =~= b@.subrange(at as int + 24, at as int + 24 + (i + 1)));
        }
        i = i + 1;
    }
    let ghost cmdv = command@;
    match decode_entries(b, at + 24 + cl, count - 1) {
        None => None,
        Some((mut tail, end)) => {
            let ghost taild = tail.deep_view();
            let mut out: Vec<LogEntry> = Vec::new();
            out.push(LogEntry { term, index, command });
            out.append(&mut tail);
            proof {
                assert(out.deep_view() =~= seq![
                    (EntryModel { term, index, command: cmdv }),
                ] + taild);
            }
            Some((out, end))
        },
    }
}

/// Read a blob back as the persistent state, as `parse_state` reads it;
/// nothing for a blob that does not parse whole.
pub fn decode_state(b: &Vec<u8>) -> (r: Option<(u64, Option<u64>, Vec<LogEntry>)>)
    ensures
        ({
            let p = parse_state(b@);
            match r {
                Some(v) => p matches Some(q) && v.0 == q.0 && v.1 == q.1 && v.2.deep_view()
                    == q.2,
                None => p is None,
            }
        }),
{
    if b.len() < 25 {
        return None;
    }
    let term = read_u64(b, 0);
    let tag = b[8];
    let votenum = read_u64(b, 9);
    let count = read_u64(b, 17);
    if tag != 0 && tag != 1 {
        return None;
    }
    if tag == 0 && votenum != 0 {
        return None;
    }
    let vote = if tag == 0 {
        None
    } else {
        Some(votenum)
    };
    match decode_entries(b, 25, count) {
        Some((entries, end)) => {
            if end == b.len() {
                Some((term, vote, entries))
            } else {
                None
            }
        },
        None => None,
    }
}

} // verus!
