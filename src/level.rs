use vstd::prelude::*;

verus! {

/// The number of levels a skip list can have; every node's top level is
/// below this bound.
pub const MAX_LEVEL: usize = 16;

/// Relies on `rand::random::<bool>()`, which takes the top bit of a `u32`
/// drawn from the thread-local generator: a fair coin. Nothing is promised of
/// which side comes up.
#[verifier::external_body]
fn flip_coin() -> (r: bool) {
    rand::random::<bool>()
}

/// One step of the level draw, given the coin: heads raises the level by one
/// unless it already stands at `MAX_LEVEL - 1`; tails, or the cap, ends the
/// draw (`None`).
pub fn next_level(lvl: usize, heads: bool) -> (r: Option<usize>)
    requires
        lvl < MAX_LEVEL,
    ensures
        r == (if heads && lvl < MAX_LEVEL - 1 {
            Some((lvl + 1) as usize)
        } else {
            None::<usize>
        }),
{
    if heads && lvl < MAX_LEVEL - 1 {
        Some(lvl + 1)
    } else {
        None
    }
}

/// Draws a node's top level: starting from 0, each coin is handed to
/// `next_level` until it ends the draw. Level `k` thus comes with probability
/// about `2^-(k+1)`, and the level never reaches `MAX_LEVEL`.
pub fn random_level() -> (r: usize)
    ensures
        r < MAX_LEVEL,
{
    let mut lvl: usize = 0;
    loop
        invariant
            lvl < MAX_LEVEL,
        decreases MAX_LEVEL - lvl,
    {
        match next_level(lvl, flip_coin()) {
            Some(next) => {
                lvl = next;
            },
            None => {
                break ;
            },
        }
    }
    lvl
}

} // verus!
