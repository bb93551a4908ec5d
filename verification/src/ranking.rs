//! Ranking the dice of a term for a keep suffix.

use itertools::Itertools;
use std::cmp::Ordering;
use vstd::prelude::*;
use vstd::relations::injective_on;
use vstd::set_lib::{lemma_int_range, lemma_map_size, lemma_subset_equality, set_int_range};

verus! {

/// Whether a die that shows `a` is a better keeper than one that shows `b`:
/// the lower one where the low dice are kept, else the higher one.
pub open spec fn beats(low: bool, a: u64, b: u64) -> bool {
    if low {
        a < b
    } else {
        a > b
    }
}

/// Whether the die at position `j` is preferred as a keeper to the die at
/// position `i`. Among dice that show the same face, the one rolled earlier
/// is preferred.
pub open spec fn preferred(faces: Seq<u64>, low: bool, j: int, i: int) -> bool {
    beats(low, faces[j], faces[i]) || (faces[j] == faces[i] && j < i)
}

/// How many dice of the term are preferred to the die at position `i`.
pub open spec fn rank(faces: Seq<u64>, low: bool, i: int) -> nat {
    Set::new(|j: int| 0 <= j < faces.len() && preferred(faces, low, j, i)).len()
}

/// Whether `order` lists positions of `faces`, as many as there are dice,
/// each one preferred to all that follow it.
pub open spec fn is_ranking(faces: Seq<u64>, low: bool, order: Seq<usize>) -> bool {
    &&& order.len() == faces.len()
    &&& forall|p: int| 0 <= p < order.len() ==> (#[trigger] order[p]) < faces.len()
    &&& forall|p: int, q: int|
        0 <= p < q < order.len() ==> preferred(
            faces,
            low,
            #[trigger] order[p] as int,
            #[trigger] order[q] as int,
        )
}

/// Orders two faces for the sort: the better keeper is the lesser.
pub fn face_order(low: bool, a: u64, b: u64) -> (o: Ordering)
    ensures
        o == Ordering::Less <==> beats(low, a, b),
        o == Ordering::Greater <==> beats(low, b, a),
        o == Ordering::Equal <==> a == b,
{
    if a == b {
        Ordering::Equal
    } else if (a < b) == low {
        Ordering::Less
    } else {
        Ordering::Greater
    }
}

/// `itertools::Itertools::sorted_by` over the dice, each paired with its
/// position, handing back only the positions. The sort puts a die before
/// every die that `face_order` calls greater, and it is stable: dice that
/// compare equal stay in the order in which they were rolled. So each
/// position of the result is preferred to all that follow it.
#[verifier::external_body]
pub(crate) fn ranked_positions(faces: &Vec<u64>, low: bool) -> (order: Vec<usize>)
    ensures
        is_ranking(faces@, low, order@),
{
    faces.iter().enumerate().sorted_by(|a, b| face_order(low, *a.1, *b.1)).map(|a| a.0).collect()
}

/// In a ranking, the die listed at place `p` has exactly `p` dice preferred
/// to it: the ones listed before it.
pub proof fn lemma_rank_of_place(faces: Seq<u64>, low: bool, order: Seq<usize>, p: int)
    requires
        is_ranking(faces, low, order),
        0 <= p < order.len(),
    ensures
        rank(faces, low, order[p] as int) == p,
{
    let i = order[p] as int;
    let better = Set::new(|j: int| 0 <= j < faces.len() && preferred(faces, low, j, i));
    let f = |q: int| order[q] as int;
    let places = set_int_range(0, p);
    let listed = places.map(f);
    lemma_int_range(0, p);
    lemma_ranking_injective(faces, low, order, p);
    lemma_map_size(places, listed, f);
    assert forall|j: int| better.contains(j) implies listed.contains(j) by {
        lemma_ranking_covers(faces, low, order, j);
        let q = choose|q: int| 0 <= q < order.len() && order[q] == j;
        if q > p {
            assert(preferred(faces, low, order[p] as int, order[q] as int));
        }
        assert(places.contains(q) && j == f(q));
    }
    assert forall|j: int| listed.contains(j) implies better.contains(j) by {
        let q = choose|q: int| places.contains(q) && j == f(q);
        assert(order[q] < faces.len());
        assert(preferred(faces, low, order[q] as int, order[p] as int));
    }
    assert(better =~= listed);
}

/// A ranking lists every position of the dice.
pub proof fn lemma_ranking_covers(faces: Seq<u64>, low: bool, order: Seq<usize>, i: int)
    requires
        is_ranking(faces, low, order),
        0 <= i < faces.len(),
    ensures
        exists|q: int| 0 <= q < order.len() && order[q] == i,
{
    let n = order.len() as int;
    let f = |q: int| order[q] as int;
    let places = set_int_range(0, n);
    let listed = places.map(f);
    lemma_int_range(0, n);
    lemma_ranking_injective(faces, low, order, n);
    lemma_map_size(places, listed, f);
    assert forall|j: int| listed.contains(j) implies places.contains(j) by {
        let q = choose|q: int| places.contains(q) && j == f(q);
        assert(order[q] < faces.len());
    }
    lemma_subset_equality(listed, places);
    assert(places.contains(i));
    assert(listed.contains(i));
    let q = choose|q: int| places.contains(q) && i == f(q);
    assert(0 <= q < order.len() && order[q] == i);
}

/// A ranking lists no position twice among its first `n` places.
proof fn lemma_ranking_injective(faces: Seq<u64>, low: bool, order: Seq<usize>, n: int)
    requires
        is_ranking(faces, low, order),
        0 <= n <= order.len(),
    ensures
        injective_on(|q: int| order[q] as int, set_int_range(0, n)),
{
    let f = |q: int| order[q] as int;
    assert forall|a: int, b: int|
        set_int_range(0, n).contains(a) && set_int_range(0, n).contains(b) && #[trigger] f(a)
            == #[trigger] f(b) implies a == b by {
        if a < b {
            assert(preferred(faces, low, order[a] as int, order[b] as int));
        } else if b < a {
            assert(preferred(faces, low, order[b] as int, order[a] as int));
        }
    }
}

} // verus!
