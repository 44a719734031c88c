//! Counting values in a sequence, and the classic survival rule.

use vstd::prelude::*;
use vstd::std_specs::cmp::PartialEqSpec;

verus! {

/// The number of elements of `s` that are equal to `t`, by `T`'s own `==`.
pub open spec fn count_equal<T: PartialEq>(s: Seq<T>, t: T) -> nat {
    s.filter(|e: T| e.eq_spec(&t)).len()
}

/// No value occurs more often than a sequence has elements.
pub proof fn lemma_count_at_most_len<T: PartialEq>(s: Seq<T>, t: T)
    ensures
        count_equal(s, t) <= s.len(),
{
    s.lemma_filter_len(|e: T| e.eq_spec(&t));
}

/// Appending an element adds one to its own count and to no other.
pub proof fn lemma_count_push<T: PartialEq>(s: Seq<T>, x: T, t: T)
    ensures
        count_equal(s.push(x), t) == count_equal(s, t) + if x.eq_spec(&t) { 1int } else { 0int },
{
    reveal(Seq::filter);
    assert(s.push(x).drop_last() =~= s);
}

/// Counts how many elements of `v` are equal to `t`.
pub fn occurrences<T: Eq>(v: Vec<T>, t: T) -> (r: i32)
    requires
        T::obeys_eq_spec(),
        v.len() <= i32::MAX,
    ensures
        r == count_equal(v@, t),
{
    let mut n: i32 = 0;
    let mut i: usize = 0;
    while i < v.len()
        invariant
            T::obeys_eq_spec(),
            v.len() <= i32::MAX,
            i <= v.len(),
            n == count_equal(v@.take(i as int), t),
            n <= i,
        decreases v.len() - i,
    {
        proof {
            assert(v@.take(i as int + 1).drop_last() =~= v@.take(i as int));
            assert(v@.take(i as int + 1).last() == v@[i as int]);
        }
        if v[i] == t {
            n = n + 1;
        }
        proof {
            reveal(Seq::filter);
        }
        i = i + 1;
    }
    assert(v@.take(v.len() as int) =~= v@);
    n
}

/// The number of live cells in a neighborhood.
pub open spec fn live_count(neighbors: Seq<bool>) -> nat {
    count_equal(neighbors, true)
}

/// The classic survival rule: a live cell with two or three live neighbors
/// stays alive, a dead cell with exactly three live neighbors is born, and
/// every other cell is dead in the next generation.
pub open spec fn conway(alive: bool, neighbors: Seq<bool>) -> bool {
    live_count(neighbors) == 3 || (alive && live_count(neighbors) == 2)
}

/// Decides the next state of a cell under the classic survival rule.
pub fn survives(alive: bool, neighbors: Vec<bool>) -> (r: bool)
    requires
        neighbors.len() <= i32::MAX,
    ensures
        r == conway(alive, neighbors@),
{
    let live = occurrences(neighbors, true);
    live == 3 || (alive && live == 2)
}

} // verus!
