use rand::Rng;
use vstd::prelude::*;

verus! {

/// Relies on rand's `thread_rng` and `Rng::gen_range`: a uniform draw from
/// `[80, 300)`, the election-timeout window in milliseconds. The range is a
/// non-empty constant, so the call cannot panic.
#[verifier::external_body]
fn draw_election_timeout() -> (r: u64)
    ensures
        80 <= r < 300,
{
    rand::thread_rng().gen_range(80..300)
}

/// A fresh randomized election timeout in milliseconds: the election timer
/// sleeps this long before it checks whether the leader has gone quiet.
pub fn next_election_timeout() -> (r: u64)
    ensures
        80 <= r < 300,
{
    draw_election_timeout()
}

} // verus!
