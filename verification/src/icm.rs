//! Payout normalization for tournament ICM.
//!
//! An ICM payout structure lists the prize of each finishing place. Before it is used, the
//! structure is sorted from the largest prize down and fitted to the number of players: missing
//! places get a prize of zero and places beyond the number of players are dropped.
use vstd::prelude::*;
use vstd::multiset::Multiset;
use vstd::relations::{sorted_by, total_ordering};
use vstd::seq_lib::{group_to_multiset_ensures, lemma_sorted_unique};

verus! {

/// The order of a payout structure: larger prizes first.
pub open spec fn prize_order() -> spec_fn(i32, i32) -> bool {
    |a: i32, b: i32| a >= b
}

/// `payouts` sorted from the largest prize down.
pub open spec fn sorted_desc(payouts: Seq<i32>) -> Seq<i32> {
    payouts.sort_by(prize_order())
}

/// The payout structure `payouts` sorted from the largest prize down, then padded with zero
/// prizes or truncated to exactly `player_count` places.
pub open spec fn normalized_payouts(payouts: Seq<i32>, player_count: nat) -> Seq<i32> {
    Seq::new(
        player_count,
        |i: int|
            if i < payouts.len() {
                sorted_desc(payouts)[i]
            } else {
                0i32
            },
    )
}

/// The prize order is a total order.
pub proof fn lemma_prize_order_total()
    ensures
        total_ordering(prize_order()),
{
    let leq = prize_order();
    assert forall|x: i32, y: i32, z: i32| #[trigger] leq(x, y) && #[trigger] leq(y, z) implies leq(
        x,
        z,
    ) by {}
    assert forall|x: i32, y: i32| #[trigger] leq(x, y) && #[trigger] leq(y, x) implies x == y by {}
    assert forall|x: i32, y: i32| #[trigger] leq(x, y) || #[trigger] leq(y, x) by {}
    assert forall|x: i32| #[trigger] leq(x, x) by {}
}

/// `sorted_desc(payouts)` is sorted from the largest prize down and holds exactly the prizes of
/// `payouts`.
pub proof fn lemma_sorted_desc(payouts: Seq<i32>)
    ensures
        sorted_by(sorted_desc(payouts), prize_order()),
        sorted_desc(payouts).to_multiset() == payouts.to_multiset(),
        sorted_desc(payouts).len() == payouts.len(),
{
    lemma_prize_order_total();
    payouts.lemma_sort_by_ensures(prize_order());
    broadcast use group_to_multiset_ensures;

    assert(sorted_desc(payouts).len() == sorted_desc(payouts).to_multiset().len());
}

/// Normalization depends only on which prizes the structure holds, not on the order in which
/// they are listed.
pub proof fn law_normalize_ignores_order(p1: Seq<i32>, p2: Seq<i32>, player_count: nat)
    requires
        p1.to_multiset() == p2.to_multiset(),
    ensures
        normalized_payouts(p1, player_count) == normalized_payouts(p2, player_count),
{
    lemma_sorted_desc(p1);
    lemma_sorted_desc(p2);
    lemma_prize_order_total();
    lemma_sorted_unique(sorted_desc(p1), sorted_desc(p2), prize_order());
    broadcast use group_to_multiset_ensures;

    assert(p1.len() == p1.to_multiset().len());
    assert(p2.len() == p2.to_multiset().len());
    assert(normalized_payouts(p1, player_count) =~= normalized_payouts(p2, player_count));
}

/// Normalizing a payout structure without negative prizes a second time changes nothing.
pub proof fn law_normalize_idempotent(payouts: Seq<i32>, player_count: nat)
    requires
        forall|i: int| 0 <= i < payouts.len() ==> payouts[i] >= 0,
    ensures
        normalized_payouts(normalized_payouts(payouts, player_count), player_count)
            == normalized_payouts(payouts, player_count),
{
    let sorted = sorted_desc(payouts);
    let q = normalized_payouts(payouts, player_count);
    lemma_sorted_desc(payouts);
    lemma_prize_order_total();
    broadcast use group_to_multiset_ensures;

    assert forall|i: int| 0 <= i < sorted.len() implies sorted[i] >= 0 by {
        assert(sorted.contains(sorted[i]));
        assert(sorted.to_multiset().count(sorted[i]) > 0);
        assert(payouts.contains(sorted[i]));
    }
    assert(sorted_by(q, prize_order())) by {
        assert forall|i: int, j: int| 0 <= i < j < q.len() implies #[trigger] (prize_order())(
            q[i],
            q[j],
        ) by {
            if j < payouts.len() {
                assert((prize_order())(sorted[i], sorted[j]));
            }
        }
    }
    lemma_sorted_desc(q);
    lemma_sorted_unique(q, sorted_desc(q), prize_order());
    assert(normalized_payouts(q, player_count) =~= q);
}

/// Sorts the prizes of `payouts` from the largest down.
fn sort_descending(payouts: &[i32]) -> (r: Vec<i32>)
    ensures
        r@ == sorted_desc(payouts@),
{
    broadcast use group_to_multiset_ensures;

    let mut rest: Vec<i32> = vstd::slice::slice_to_vec(payouts);
    let mut out: Vec<i32> = Vec::new();
    while rest.len() > 0
        invariant
            out@.to_multiset().add(rest@.to_multiset()) == payouts@.to_multiset(),
            sorted_by(out@, prize_order()),
            forall|i: int, j: int|
                0 <= i < out@.len() && 0 <= j < rest@.len() ==> out@[i] >= rest@[j],
        decreases rest.len(),
    {
        let mut best: usize = 0;
        let mut k: usize = 1;
        while k < rest.len()
            invariant
                0 <= best < rest@.len(),
                1 <= k <= rest@.len(),
                forall|j: int| 0 <= j < k ==> rest@[best as int] >= rest@[j],
            decreases rest.len() - k,
        {
            if rest[k] > rest[best] {
                best = k;
            }
            k = k + 1;
        }
        let ghost old_rest = rest@;
        let ghost old_out = out@;
        let x = rest.remove(best);
        out.push(x);
        proof {
            old_rest.to_multiset_ensures();
            old_out.to_multiset_ensures();
            assert(rest@ == old_rest.remove(best as int));
            assert(out@ == old_out.push(x));
            assert(rest@.to_multiset() == old_rest.to_multiset().remove(x));
            assert(out@.to_multiset() == old_out.to_multiset().insert(x));
            assert(old_rest.to_multiset().count(x) > 0);
            assert(out@.to_multiset().add(rest@.to_multiset()) =~= old_out.to_multiset().add(
                old_rest.to_multiset(),
            ));
            assert forall|i: int, j: int| 0 <= i < j < out@.len() implies #[trigger] (
            prize_order())(out@[i], out@[j]) by {
                if j == out@.len() - 1 {
                    assert(old_rest[best as int] == x);
                } else {
                    assert((prize_order())(old_out[i], old_out[j]));
                }
            }
            assert forall|i: int, j: int|
                0 <= i < out@.len() && 0 <= j < rest@.len() implies out@[i] >= rest@[j] by {
                if j < best {
                    assert(rest@[j] == old_rest[j]);
                } else {
                    assert(rest@[j] == old_rest[j + 1]);
                }
            }
        }
    }
    proof {
        assert(rest@.to_multiset() =~= Multiset::empty());
        assert(out@.to_multiset() =~= payouts@.to_multiset());
        lemma_sorted_desc(payouts@);
        lemma_prize_order_total();
        lemma_sorted_unique(out@, sorted_desc(payouts@), prize_order());
    }
    out
}

/// Returns the payout structure sorted from the largest prize down, padded with zero prizes or
/// truncated to exactly `player_count` places.
pub fn normalize_payouts(payouts: &[i32], player_count: usize) -> (r: Vec<i32>)
    ensures
        r@ == normalized_payouts(payouts@, player_count as nat),
{
    let sorted = sort_descending(payouts);
    proof {
        lemma_sorted_desc(payouts@);
    }
    let mut r: Vec<i32> = Vec::new();
    let mut i: usize = 0;
    while i < player_count
        invariant
            i <= player_count,
            sorted@ == sorted_desc(payouts@),
            sorted@.len() == payouts@.len(),
            r@ =~= normalized_payouts(payouts@, i as nat),
        decreases player_count - i,
    {
        if i < sorted.len() {
            r.push(sorted[i]);
        } else {
            r.push(0);
        }
        i = i + 1;
    }
    r
}

} // verus!
