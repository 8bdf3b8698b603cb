//! Seeds for the random spacing of blinks.

use vstd::prelude::*;

verus! {

/// A random number, from `rand::random`. Nothing is claimed of it: every value
/// may come.
#[verifier::external_body]
fn random_number() -> (r: u64) {
    rand::random::<u64>()
}

/// The last five decimal digits of a number.
pub open spec fn seed_of(n: u64) -> int {
    n as int % 100_000
}

/// The seed that a random number makes: its last five decimal digits.
pub fn seed_from(random: u64) -> (r: u64)
    ensures
        r == random % 100_000,
        r == seed_of(random),
{
    random % 100_000
}

/// The number may have been drawn at random.
pub closed spec fn drawn(n: u64) -> bool {
    call_ensures(random_number, (), n)
}

/// Draws a number and makes a seed of it.
fn seed_drawn<D: Fn() -> u64>(draw: D) -> (r: u64)
    requires
        call_requires(draw, ()),
    ensures
        exists|n: u64| #[trigger] call_ensures(draw, (), n) && r == n % 100_000,
{
    let n: u64 = draw();
    seed_from(n)
}

/// Draws a new seed of at most five decimal digits.
pub fn reroll() -> (r: u64)
    ensures
        exists|n: u64| #[trigger] drawn(n) && r == n % 100_000,
        r < 100_000,
{
    let r: u64 = seed_drawn(random_number);
    proof {
        let n = choose|n: u64| #[trigger] call_ensures(random_number, (), n) && r == n % 100_000;
        assert(drawn(n));
    }
    r
}

/// A seed has at most five digits, and differs from the number that it is made of by whole
/// hundred thousands; so every seed below a hundred thousand can come.
pub proof fn lemma_seed(n: u64)
    ensures
        0 <= seed_of(n) < 100_000,
        (n - seed_of(n)) % 100_000 == 0,
        n < 100_000 ==> seed_of(n) == n,
{
}

} // verus!
