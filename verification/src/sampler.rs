//! A Monte-Carlo sampler for one trigger: one random draw of three items
//! without replacement from a pool with a given number of marked items.

use vstd::prelude::*;
use rand::seq::SliceRandom;

verus! {

/// Relies on rand's SliceRandom::shuffle: a Fisher-Yates shuffle permutes
/// the slice in place, so the multiset of its elements is unchanged.
#[verifier::external_body]
fn shuffle_bools(v: &mut Vec<bool>)
    ensures
        final(v)@.to_multiset() == old(v)@.to_multiset(),
        final(v)@.len() == old(v)@.len(),
{
    v.shuffle(&mut rand::thread_rng());
}

/// A sequence whose first three entries are unmarked holds at least three
/// unmarked items.
proof fn lemma_three_false_count(s: Seq<bool>)
    requires
        s.len() >= 3,
        s[0] == false,
        s[1] == false,
        s[2] == false,
    ensures
        s.to_multiset().count(false) >= 3,
{
    broadcast use vstd::seq_lib::group_to_multiset_ensures;
    broadcast use vstd::multiset::group_multiset_axioms;

    let s1 = s.remove(0);
    s.remove_ensures(0);
    assert(s1[0] == s[1]);
    assert(s1[1] == s[2]);
    let s2 = s1.remove(0);
    s1.remove_ensures(0);
    assert(s2[0] == s1[1]);
    assert(s1.to_multiset() =~= s.to_multiset().remove(s[0]));
    assert(s2.to_multiset() =~= s1.to_multiset().remove(s1[0]));
    assert(s2.contains(false));
    assert(s2.to_multiset().count(false) >= 1);
    assert(s1.contains(false));
    assert(s1.to_multiset().count(false) == s2.to_multiset().count(false) + 1);
    assert(s.contains(false));
    assert(s.to_multiset().count(false) == s1.to_multiset().count(false) + 1);
}

/// Simulates one trigger: shuffles a pool of `gy_size` items of which
/// `hits` are marked, draws the first three, and reports whether a marked
/// item was drawn.  The outcome is random; what is promised holds of every
/// outcome: without marked items no draw can hit, and with fewer than
/// three unmarked items every draw must.
pub fn simulate_hellraiser_trigger(hits: u32, gy_size: u32) -> (r: bool)
    requires
        hits <= gy_size,
        gy_size >= 3,
    ensures
        hits == 0 ==> r == false,
        gy_size - hits < 3 ==> r == true,
{
    let mut graveyard: Vec<bool> = Vec::new();
    let mut t: u32 = 0;
    while t < hits
        invariant
            t <= hits,
            graveyard@.len() == t,
            forall|x: int| 0 <= x < graveyard@.len() ==> graveyard@[x] == true,
        decreases hits - t,
    {
        graveyard.push(true);
        t = t + 1;
    }
    proof {
        broadcast use vstd::seq_lib::group_to_multiset_ensures;

        assert(!graveyard@.contains(false));
        assert(graveyard@.to_multiset().count(false) == 0);
    }
    let mut u: u32 = 0;
    while u < gy_size - hits
        invariant
            u <= gy_size - hits,
            graveyard@.len() == hits + u,
            forall|x: int| 0 <= x < hits ==> graveyard@[x] == true,
            forall|x: int| hits <= x < graveyard@.len() ==> graveyard@[x] == false,
            graveyard@.to_multiset().count(false) == u,
        decreases gy_size - hits - u,
    {
        proof {
            broadcast use vstd::seq_lib::group_to_multiset_ensures;
            broadcast use vstd::multiset::group_multiset_axioms;

            assert(graveyard@.push(false).to_multiset() =~= graveyard@.to_multiset().insert(
                false,
            ));
            assert(graveyard@.to_multiset().insert(false).count(false) == graveyard@.to_multiset()
                .count(false) + 1);
        }
        graveyard.push(false);
        u = u + 1;
    }
    let ghost before = graveyard@;
    shuffle_bools(&mut graveyard);
    proof {
        assert(graveyard@.to_multiset().count(false) == gy_size - hits);
    }
    let d0 = graveyard[0];
    let d1 = graveyard[1];
    let d2 = graveyard[2];
    proof {
        broadcast use vstd::seq_lib::group_to_multiset_ensures;

        if hits == 0 {
            assert(!before.contains(true));
            assert(graveyard@.to_multiset().count(true) == before.to_multiset().count(true));
            assert(!graveyard@.contains(true));
            assert forall|x: int| 0 <= x < graveyard@.len() implies graveyard@[x] == false by {
                if graveyard@[x] == true {
                    assert(graveyard@.contains(true));
                }
            }
        }
        if gy_size - hits < 3 && !d0 && !d1 && !d2 {
            lemma_three_false_count(graveyard@);
            assert(false);
        }
    }
    d0 || d1 || d2
}

} // verus!
