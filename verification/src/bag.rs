//! The tile bag: the fixed letter distribution, tile point values, and drawing.
use vstd::prelude::*;

use rand::seq::SliceRandom;

use vstd::multiset::Multiset;

use crate::utils::alphabet_spec;
use crate::utils::lemma_remove_first_multiset;
use crate::utils::remove_item;

verus! {

/// The point value of a tile: 0 for the blank and for any character that is
/// not a letter tile.
pub open spec fn letter_value_spec(c: char) -> int {
    match c {
        'A' => 1,
        'B' => 3,
        'C' => 3,
        'D' => 2,
        'E' => 1,
        'F' => 4,
        'G' => 2,
        'H' => 4,
        'I' => 1,
        'J' => 8,
        'K' => 5,
        'L' => 1,
        'M' => 3,
        'N' => 1,
        'O' => 1,
        'P' => 3,
        'Q' => 10,
        'R' => 1,
        'S' => 1,
        'T' => 1,
        'U' => 1,
        'V' => 4,
        'W' => 4,
        'X' => 8,
        'Y' => 4,
        'Z' => 10,
        _ => 0,
    }
}

/// How many tiles of each alphabet entry the full bag holds, blank last.
pub open spec fn letter_amount_spec(j: int) -> nat {
    seq![9nat, 2, 2, 4, 12, 2, 3, 2, 9, 1, 1, 4, 2, 6, 8, 2, 1, 6, 4, 6, 4, 2, 2, 1, 2, 1, 2][j]
}

/// `n` copies of the character `c`.
pub open spec fn repeat_char(c: char, n: nat) -> Seq<char> {
    Seq::new(n, |i: int| c)
}

/// The full 100-tile bag in alphabet order, before any shuffle.
pub open spec fn standard_distribution_prefix(j: int) -> Seq<char>
    decreases j,
{
    if j <= 0 {
        Seq::empty()
    } else {
        standard_distribution_prefix(j - 1) + repeat_char(
            alphabet_spec()[j - 1],
            letter_amount_spec(j - 1),
        )
    }
}

pub open spec fn standard_distribution() -> Seq<char> {
    standard_distribution_prefix(27)
}

/// Relies on rand's `SliceRandom::shuffle`: an in-place Fisher-Yates shuffle,
/// built from swaps, so a permutation of the slice.
#[verifier::external_body]
fn shuffle_tiles(v: &mut Vec<char>)
    ensures
        final(v)@.to_multiset() == old(v)@.to_multiset(),
{
    v.shuffle(&mut rand::thread_rng());
}

/// Relies on rand's `SliceRandom::choose_multiple`: `min(n, len)` elements
/// sampled at distinct indices, so drawn without repetition.
#[verifier::external_body]
fn choose_tiles(v: &Vec<char>, n: usize) -> (r: Vec<char>)
    ensures
        r@.len() == vstd::math::min(n as int, v@.len() as int),
        r@.to_multiset().subset_of(v@.to_multiset()),
{
    v.choose_multiple(&mut rand::thread_rng(), n).cloned().collect()
}

/// The bag of not-yet-drawn tiles. `random` is false for bags built with a
/// fixed draw order.
pub struct Bag {
    pub distribution: Vec<char>,
    pub random: bool,
}

impl Bag {
    /// A full 100-tile bag in random order.
    pub fn default() -> (r: Bag)
        ensures
            r.distribution@.to_multiset() == standard_distribution().to_multiset(),
            r.distribution@.len() == standard_distribution().len(),
            r.is_random(),
    {
        let alph = crate::utils::alphabet();
        let mut amts: Vec<usize> = Vec::new();
        amts.push(9);
        amts.push(2);
        amts.push(2);
        amts.push(4);
        amts.push(12);
        amts.push(2);
        amts.push(3);
        amts.push(2);
        amts.push(9);
        amts.push(1);
        amts.push(1);
        amts.push(4);
        amts.push(2);
        amts.push(6);
        amts.push(8);
        amts.push(2);
        amts.push(1);
        amts.push(6);
        amts.push(4);
        amts.push(6);
        amts.push(4);
        amts.push(2);
        amts.push(2);
        amts.push(1);
        amts.push(2);
        amts.push(1);
        amts.push(2);
        proof {
            assert(forall|j: int| 0 <= j < 27 ==> amts@[j] == letter_amount_spec(j));
        }
        let mut distribution: Vec<char> = Vec::new();
        let mut j: usize = 0;
        while j < 27
            invariant
                j <= 27,
                alph@ == alphabet_spec(),
                amts@.len() == 27,
                forall|k: int| 0 <= k < 27 ==> amts@[k] == letter_amount_spec(k),
                distribution@ == standard_distribution_prefix(j as int),
            decreases 27 - j,
        {
            let ghost before = distribution@;
            let c = alph[j];
            let m = amts[j];
            let mut k: usize = 0;
            while k < m
                invariant
                    k <= m,
                    distribution@ == before + repeat_char(c, k as nat),
                decreases m - k,
            {
                distribution.push(c);
                proof {
                    assert(distribution@ =~= before + repeat_char(c, (k + 1) as nat));
                }
                k = k + 1;
            }
            proof {
                assert(repeat_char(c, k as nat) =~= repeat_char(
                    alphabet_spec()[j as int],
                    letter_amount_spec(j as int),
                ));
            }
            j = j + 1;
        }
        let ghost built = distribution@;
        shuffle_tiles(&mut distribution);
        proof {
            vstd::seq_lib::to_multiset_len(built);
            vstd::seq_lib::to_multiset_len(distribution@);
        }
        Bag { distribution, random: true }
    }

    /// Whether draws from this bag are randomized.
    pub open spec fn is_random(self) -> bool {
        self.random
    }

    /// A bag that will hand tiles out in exactly the given order.
    pub fn with(order: &Vec<char>) -> (r: Bag)
        ensures
            r.distribution@ == order@,
            !r.is_random(),
    {
        let mut b = Bag::default();
        b.distribution = order.clone();
        b.random = false;
        b
    }

    /// The point value of a tile.
    pub fn score(&self, c: char) -> (r: i32)
        ensures
            r == letter_value_spec(c),
            0 <= r <= 10,
    {
        match c {
            'A' => 1,
            'B' => 3,
            'C' => 3,
            'D' => 2,
            'E' => 1,
            'F' => 4,
            'G' => 2,
            'H' => 4,
            'I' => 1,
            'J' => 8,
            'K' => 5,
            'L' => 1,
            'M' => 3,
            'N' => 1,
            'O' => 1,
            'P' => 3,
            'Q' => 10,
            'R' => 1,
            'S' => 1,
            'T' => 1,
            'U' => 1,
            'V' => 4,
            'W' => 4,
            'X' => 8,
            'Y' => 4,
            'Z' => 10,
            _ => 0,
        }
    }

    /// Draws up to `n` tiles: the drawn tiles and the rest partition the bag.
    /// A non-random bag hands out its first `n` tiles in order.
    pub fn draw_tiles(&mut self, n: usize) -> (r: Vec<char>)
        ensures
            r@.len() == vstd::math::min(n as int, old(self).distribution@.len() as int),
            r@.to_multiset().add(final(self).distribution@.to_multiset()) == old(self).distribution@.to_multiset(),
            !old(self).is_random() ==> r@ == old(self).distribution@.take(r@.len() as int)
                && final(self).distribution@ == old(self).distribution@.skip(r@.len() as int),
            final(self).is_random() == old(self).is_random(),
    {
        broadcast use vstd::seq_lib::group_to_multiset_ensures;

        if self.random {
            let tiles = choose_tiles(&self.distribution, n);
            let ghost orig = self.distribution@;
            proof {
                broadcast use vstd::multiset::group_multiset_axioms;

                assert(tiles@.skip(0) =~= tiles@);
                assert(tiles@.take(0) =~= Seq::<char>::empty());
                assert(tiles@.to_multiset().add(Seq::<char>::empty().to_multiset())
                    =~= tiles@.to_multiset());
            }
            let mut i: usize = 0;
            while i < tiles.len()
                invariant
                    i <= tiles@.len(),
                    tiles@.skip(i as int).to_multiset().subset_of(
                        self.distribution@.to_multiset(),
                    ),
                    tiles@.skip(i as int).to_multiset().add(
                        tiles@.take(i as int).to_multiset(),
                    ) == tiles@.to_multiset(),
                    tiles@.take(i as int).to_multiset().add(self.distribution@.to_multiset())
                        == orig.to_multiset(),
                    self.random == old(self).random,
                decreases tiles@.len() - i,
            {
                let ghost rest = tiles@.skip(i as int);
                let ghost dist_before = self.distribution@;
                let t = tiles[i];
                proof {
                    broadcast use vstd::seq_lib::group_to_multiset_ensures;
                    broadcast use vstd::multiset::group_multiset_axioms;

                    assert(rest[0] == t);
                    assert(rest.contains(t));
                    assert(rest.to_multiset().count(t) > 0);
                    assert(dist_before.to_multiset().count(t) > 0);
                    assert(dist_before.contains(t));
                }
                remove_item(&mut self.distribution, t);
                proof {
                    lemma_remove_first_multiset(dist_before, t);
                    assert(rest =~= tiles@.skip(i + 1).insert(0, t));
                    vstd::seq_lib::to_multiset_insert(tiles@.skip(i + 1), 0, t);
                    assert(tiles@.take(i + 1) =~= tiles@.take(i as int).push(t));
                    vstd::seq_lib::to_multiset_build(tiles@.take(i as int), t);
                    lemma_multiset_partition_step(
                        tiles@.skip(i + 1).to_multiset(),
                        tiles@.take(i as int).to_multiset(),
                        dist_before.to_multiset(),
                        orig.to_multiset(),
                        tiles@.to_multiset(),
                        t,
                    );
                }
                i = i + 1;
            }
            proof {
                assert(tiles@.take(tiles@.len() as int) =~= tiles@);
                assert(tiles@.skip(tiles@.len() as int) =~= Seq::<char>::empty());
                vstd::seq_lib::to_multiset_len(tiles@);
                assert(tiles@.to_multiset().add(self.distribution@.to_multiset())
                    == orig.to_multiset());
            }
            tiles
        } else {
            let m = if n < self.distribution.len() {
                n
            } else {
                self.distribution.len()
            };
            let ghost orig = self.distribution@;
            let mut tiles: Vec<char> = Vec::new();
            let mut i: usize = 0;
            while i < m
                invariant
                    i <= m <= orig.len(),
                    orig == old(self).distribution@,
                    tiles@ == orig.take(i as int),
                    self.distribution@ == orig.skip(i as int),
                    self.random == old(self).random,
            decreases m - i,
            {
                let t = self.distribution[0];
                self.distribution.remove(0);
                tiles.push(t);
                proof {
                    assert(self.distribution@ =~= orig.skip(i + 1));
                    assert(tiles@ =~= orig.take(i + 1));
                }
                i = i + 1;
            }
            proof {
                assert(orig =~= orig.take(m as int) + orig.skip(m as int));
                vstd::seq_lib::lemma_multiset_commutative(
                    orig.take(m as int),
                    orig.skip(m as int),
                );
            }
            tiles
        }
    }
}

/// Bookkeeping step for a draw: moving one copy of `t` from the undrawn side
/// of a partition to the drawn side keeps it a partition.
proof fn lemma_multiset_partition_step(
    rest_after: Multiset<char>,
    taken: Multiset<char>,
    dist: Multiset<char>,
    orig: Multiset<char>,
    tiles: Multiset<char>,
    t: char,
)
    requires
        dist.count(t) > 0,
        rest_after.insert(t).subset_of(dist),
        rest_after.insert(t).add(taken) == tiles,
        taken.add(dist) == orig,
    ensures
        rest_after.subset_of(dist.remove(t)),
        rest_after.add(taken.insert(t)) == tiles,
        taken.insert(t).add(dist.remove(t)) == orig,
{
    broadcast use vstd::multiset::group_multiset_axioms;

    assert(rest_after.subset_of(dist.remove(t))) by {
        assert forall|c: char| rest_after.count(c) <= dist.remove(t).count(c) by {
            assert(rest_after.insert(t).count(c) <= dist.count(c));
        }
    }
    assert(rest_after.add(taken.insert(t)) =~= rest_after.insert(t).add(taken));
    assert(taken.insert(t).add(dist.remove(t)) =~= taken.add(dist));
}


/// Every tile value lies between 0 and 10.
pub proof fn lemma_letter_value_bounds(c: char)
    ensures
        0 <= letter_value_spec(c) <= 10,
{
}

impl Bag {
    /// The point value of a tile, without a bag instance.
    pub fn default_score(c: char) -> (r: i32)
        ensures
            r == letter_value_spec(c),
            0 <= r <= 10,
    {
        match c {
            'A' => 1,
            'B' => 3,
            'C' => 3,
            'D' => 2,
            'E' => 1,
            'F' => 4,
            'G' => 2,
            'H' => 4,
            'I' => 1,
            'J' => 8,
            'K' => 5,
            'L' => 1,
            'M' => 3,
            'N' => 1,
            'O' => 1,
            'P' => 3,
            'Q' => 10,
            'R' => 1,
            'S' => 1,
            'T' => 1,
            'U' => 1,
            'V' => 4,
            'W' => 4,
            'X' => 8,
            'Y' => 4,
            'Z' => 10,
            _ => 0,
        }
    }
}


} // verus!
