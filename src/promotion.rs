use vstd::prelude::*;

verus! {

/// Number of levels that the head and tail sentinels take part in.
pub const MAX_LEVEL: usize = 20;

/// How the level of a freshly inserted node is chosen.
#[derive(Debug, PartialEq, Eq, Structural)]
pub enum PromotionType {
    Probabilistic,
    Deterministic,
}

/// The level that the deterministic policy gives to the `n`-th insertion (counted from 1):
/// the trailing zero bits of `n`, capped at the top level.
pub open spec fn spec_deterministic_level(n: usize) -> usize {
    let tz = vstd::std_specs::bits::u64_trailing_zeros(n as u64);
    if tz >= (MAX_LEVEL - 1) as u32 {
        (MAX_LEVEL - 1) as usize
    } else {
        tz as usize
    }
}

/// The level that the deterministic policy gives to the `n`-th insertion (counted from 1).
/// It depends on `n` alone, so every run assigns the same levels.
pub fn deterministic_level(n: usize) -> (r: usize)
    ensures
        r == spec_deterministic_level(n),
        r < MAX_LEVEL,
{
    let tz = (n as u64).trailing_zeros();
    if tz >= (MAX_LEVEL - 1) as u32 {
        MAX_LEVEL - 1
    } else {
        tz as usize
    }
}

/// The number of heads in `s` from position `i` up to the first tail.
pub open spec fn heads_from(s: Seq<bool>, i: int) -> nat
    decreases s.len() - i,
{
    if i < 0 || i >= s.len() || !s[i] {
        0
    } else {
        1 + heads_from(s, i + 1)
    }
}

/// The number of heads before the first tail in `s`.
pub open spec fn leading_heads(s: Seq<bool>) -> nat {
    heads_from(s, 0)
}

/// The level that a run of coin flips gives: the heads before the first tail. A run of
/// `MAX_LEVEL - 1` flips caps it at the top level.
pub fn level_from_flips(flips: &Vec<bool>) -> (r: usize)
    requires
        flips@.len() == MAX_LEVEL - 1,
    ensures
        r == leading_heads(flips@),
        r < MAX_LEVEL,
{
    let mut level: usize = 0;
    while level < flips.len() && flips[level]
        invariant
            level <= flips@.len(),
            flips@.len() == MAX_LEVEL - 1,
            leading_heads(flips@) == level + heads_from(flips@, level as int),
        decreases flips@.len() - level,
    {
        level = level + 1;
    }
    level
}

/// Relies on rand::random::<bool>: a fair coin flip; nothing is known of its outcome.
#[verifier::external_body]
fn coin_flip() -> bool {
    rand::random::<bool>()
}

/// The level that the probabilistic policy gives: the number of heads before the first
/// tail in a run of fair coin flips, capped at the top level.
pub fn probabilistic_level() -> (r: usize)
    ensures
        r < MAX_LEVEL,
        exists|flips: Seq<bool>| flips.len() == MAX_LEVEL - 1 && r == leading_heads(flips),
{
    let mut flips: Vec<bool> = Vec::new();
    let mut i: usize = 0;
    while i < MAX_LEVEL - 1
        invariant
            i <= MAX_LEVEL - 1,
            flips@.len() == i,
        decreases MAX_LEVEL - 1 - i,
    {
        flips.push(coin_flip());
        i = i + 1;
    }
    level_from_flips(&flips)
}

} // verus!
