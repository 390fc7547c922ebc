//! Uniform in-place shuffling of the deck, drawing from a caller-supplied
//! seedable random number generator.

use vstd::prelude::*;
use crate::cards::Card;

verus! {

/// The seedable pseudo-random generator of the `rand` crate that callers
/// hand to [`shuffle`] and [`crate::game::Game::new`]. Opaque to the
/// verifier; seeding it is the caller's concern.
#[verifier::external_type_specification]
#[verifier::external_body]
pub struct ExStdRng(rand::rngs::StdRng);

/// Relies on `rand::Rng::gen_range` over `0..n`: it returns a uniformly
/// drawn value of that range, and panics only when the range is empty.
#[verifier::external_body]
fn rand_below(rng: &mut rand::rngs::StdRng, n: usize) -> (r: usize)
    requires
        n >= 1,
    ensures
        r < n,
{
    rand::Rng::gen_range(rng, 0..n)
}

/// Shuffles `cards` in place by a Fisher-Yates walk: step `n` draws a
/// uniform index `i` below `len - n` and swaps it with position
/// `len - n - 1`. The result is a permutation of the input - the same
/// multiset of cards at the same length - and, the generator being
/// deterministic once seeded, is reproducible from the seed.
pub fn shuffle(cards: &mut Vec<Card>, rng: &mut rand::rngs::StdRng)
    ensures
        final(cards)@.len() == old(cards)@.len(),
        final(cards)@.to_multiset() == old(cards)@.to_multiset(),
{
    let ghost orig = cards@;
    let l = cards.len();
    let mut n: usize = 0;
    while n < l
        invariant
            n <= l,
            l == cards@.len(),
            cards@.to_multiset() == orig.to_multiset(),
        decreases l - n,
    {
        let i = rand_below(rng, l - n);
        let j = l - n - 1;
        let a = cards[i];
        let b = cards[j];
        let ghost before = cards@;
        cards[i] = b;
        cards[j] = a;
        proof {
            broadcast use vstd::seq_lib::group_to_multiset_ensures;
            broadcast use vstd::multiset::group_multiset_axioms;

            assert(before.contains(a));
            assert(cards@ == before.update(i as int, b).update(j as int, a));
            assert(cards@.to_multiset() =~= before.to_multiset());
        }
        n = n + 1;
    }
}

} // verus!
