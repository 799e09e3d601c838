//! Set-level statements of the laws the structure obeys.
//!
//! The operations' own contracts describe each call in terms of the abstract
//! set `t@`. The proof functions here state what follows for whole call
//! sequences: membership survives unrelated operations, repeated insertion
//! is absorbed, and walking `successor` (or `predecessor`) step by step
//! enumerates the entire set in order.

use vstd::prelude::*;

verus! {

/// Inserting a value makes it a member, and it stays a member across
/// insertions and removals of other values, until it is itself removed.
pub proof fn lemma_round_trip(s: Set<int>, x: int, y: int)
    ensures
        s.insert(x).contains(x),
        x != y ==> s.insert(y).contains(x) == s.contains(x),
        x != y ==> s.remove(y).contains(x) == s.contains(x),
        !s.remove(x).contains(x),
{
}

/// A second insertion of the same value is absorbed by the first: the set,
/// and with it the size, stays as it was.
pub proof fn lemma_insert_idempotent(s: Set<int>, x: int)
    ensures
        s.insert(x).insert(x) == s.insert(x),
{
    assert(s.insert(x).insert(x) =~= s.insert(x));
}

/// `y` is the next member after `x`: in the set, above `x`, with no member
/// in between. This is exactly what `successor` returns.
pub open spec fn is_next(s: Set<int>, x: int, y: int) -> bool {
    &&& s.contains(y)
    &&& x < y
    &&& forall|z: int| s.contains(z) && z > x ==> y <= z
}

/// `y` is the previous member before `x`: the mirror of [`is_next`]. This is
/// exactly what `predecessor` returns for an in-range query.
pub open spec fn is_prev(s: Set<int>, x: int, y: int) -> bool {
    &&& s.contains(y)
    &&& y < x
    &&& forall|z: int| s.contains(z) && z < x ==> z <= y
}

/// The values visited by calling `successor` repeatedly, starting just after
/// `x`, in a set whose members lie below `bound`.
pub open spec fn succ_chain(s: Set<int>, bound: int, x: int) -> Seq<int>
    decreases bound - x,
{
    if exists|y: int| is_next(s, x, y) && y < bound {
        let y = choose|y: int| is_next(s, x, y) && y < bound;
        seq![y] + succ_chain(s, bound, y)
    } else {
        seq![]
    }
}

/// The values visited by calling `predecessor` repeatedly, starting just
/// below `x`, in a set of non-negative members.
pub open spec fn pred_chain(s: Set<int>, x: int) -> Seq<int>
    decreases x,
{
    if exists|y: int| is_prev(s, x, y) && y >= 0 {
        let y = choose|y: int| is_prev(s, x, y) && y >= 0;
        seq![y] + pred_chain(s, y)
    } else {
        seq![]
    }
}

/// Any member above `x` guarantees a least member above `x`.
proof fn lemma_next_exists(s: Set<int>, bound: int, x: int, z: int)
    requires
        s.contains(z),
        x < z,
        forall|w: int| s.contains(w) ==> w < bound,
    ensures
        exists|y: int| is_next(s, x, y) && y < bound,
    decreases z - x,
{
    if is_next(s, x, z) {
        assert(is_next(s, x, z) && z < bound);
    } else {
        let w = choose|w: int| s.contains(w) && w > x && w < z;
        lemma_next_exists(s, bound, x, w);
    }
}

/// Any member below `x` guarantees a greatest member below `x`.
proof fn lemma_prev_exists(s: Set<int>, x: int, z: int)
    requires
        s.contains(z),
        z < x,
        forall|w: int| s.contains(w) ==> w >= 0,
    ensures
        exists|y: int| is_prev(s, x, y) && y >= 0,
    decreases x - z,
{
    if is_prev(s, x, z) {
        assert(is_prev(s, x, z) && z >= 0);
    } else {
        let w = choose|w: int| s.contains(w) && w < x && w > z;
        lemma_prev_exists(s, x, w);
    }
}

/// Order consistency, upward: the successor chain from any starting point
/// visits members only, each above the start, in strictly increasing order,
/// and misses none.
pub proof fn lemma_succ_chain_enumerates(s: Set<int>, bound: int, x: int)
    requires
        forall|z: int| s.contains(z) ==> z < bound,
    ensures
        forall|i: int|
            0 <= i < succ_chain(s, bound, x).len() ==> s.contains(
                #[trigger] succ_chain(s, bound, x)[i],
            ) && x < succ_chain(s, bound, x)[i],
        forall|i: int|
            0 <= i < succ_chain(s, bound, x).len() - 1 ==> #[trigger] succ_chain(s, bound, x)[i]
                < succ_chain(s, bound, x)[i + 1],
        forall|z: int| s.contains(z) && z > x ==> succ_chain(s, bound, x).contains(z),
    decreases bound - x,
{
    let c = succ_chain(s, bound, x);
    if exists|y: int| is_next(s, x, y) && y < bound {
        let y = choose|y: int| is_next(s, x, y) && y < bound;
        lemma_succ_chain_enumerates(s, bound, y);
        let tail = succ_chain(s, bound, y);
        assert(c == seq![y] + tail);
        assert forall|z: int| s.contains(z) && z > x implies c.contains(z) by {
            if z == y {
                assert(c[0] == y);
            } else {
                assert(z > y);
                assert(tail.contains(z));
                let i = choose|i: int| 0 <= i < tail.len() && tail[i] == z;
                assert(c[i + 1] == z);
            }
        }
        assert forall|i: int| 0 <= i < c.len() - 1 implies #[trigger] c[i] < c[i + 1] by {
            if i == 0 {
                assert(c[1] == tail[0]);
            }
        }
    } else {
        if exists|z: int| s.contains(z) && z > x {
            let z = choose|z: int| s.contains(z) && z > x;
            lemma_next_exists(s, bound, x, z);
        }
        assert(c == Seq::<int>::empty());
    }
}

/// Order consistency, downward: the mirror statement for the predecessor
/// chain.
pub proof fn lemma_pred_chain_enumerates(s: Set<int>, x: int)
    requires
        forall|z: int| s.contains(z) ==> z >= 0,
    ensures
        forall|i: int|
            0 <= i < pred_chain(s, x).len() ==> s.contains(#[trigger] pred_chain(s, x)[i])
                && pred_chain(s, x)[i] < x,
        forall|i: int|
            0 <= i < pred_chain(s, x).len() - 1 ==> #[trigger] pred_chain(s, x)[i] > pred_chain(
                s,
                x,
            )[i + 1],
        forall|z: int| s.contains(z) && z < x ==> pred_chain(s, x).contains(z),
    decreases x,
{
    let c = pred_chain(s, x);
    if exists|y: int| is_prev(s, x, y) && y >= 0 {
        let y = choose|y: int| is_prev(s, x, y) && y >= 0;
        lemma_pred_chain_enumerates(s, y);
        let tail = pred_chain(s, y);
        assert(c == seq![y] + tail);
        assert forall|z: int| s.contains(z) && z < x implies c.contains(z) by {
            if z == y {
                assert(c[0] == y);
            } else {
                assert(z < y);
                assert(tail.contains(z));
                let i = choose|i: int| 0 <= i < tail.len() && tail[i] == z;
                assert(c[i + 1] == z);
            }
        }
        assert forall|i: int| 0 <= i < c.len() - 1 implies #[trigger] c[i] > c[i + 1] by {
            if i == 0 {
                assert(c[1] == tail[0]);
            }
        }
    } else {
        if exists|z: int| s.contains(z) && z < x {
            let z = choose|z: int| s.contains(z) && z < x;
            lemma_prev_exists(s, x, z);
        }
        assert(c == Seq::<int>::empty());
    }
}

/// Order consistency, assembled: starting from the least member `m`, the
/// sequence `m` followed by the successor chain lists exactly the members,
/// in strictly increasing order, and the chain of a set with no member above
/// `m` is empty — the walk ends in "none".
pub proof fn lemma_enumeration_from_min(s: Set<int>, bound: int, m: int)
    requires
        s.contains(m),
        forall|z: int| s.contains(z) ==> m <= z && z < bound,
    ensures
        forall|z: int|
            s.contains(z) <==> (z == m || succ_chain(s, bound, m).contains(z)),
        forall|i: int|
            0 <= i < succ_chain(s, bound, m).len() ==> m < #[trigger] succ_chain(s, bound, m)[i],
        forall|i: int|
            0 <= i < succ_chain(s, bound, m).len() - 1 ==> #[trigger] succ_chain(s, bound, m)[i]
                < succ_chain(s, bound, m)[i + 1],
{
    lemma_succ_chain_enumerates(s, bound, m);
    let c = succ_chain(s, bound, m);
    assert forall|z: int| c.contains(z) implies s.contains(z) by {
        let i = choose|i: int| 0 <= i < c.len() && c[i] == z;
    }
}

} // verus!
