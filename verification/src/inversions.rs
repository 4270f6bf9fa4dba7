use vstd::prelude::*;
use vstd::set_lib::{lemma_int_range, lemma_len_subset, lemma_map_size, set_int_range};
use vstd::relations::injective_on;
use crate::sorter::swapped;

verus! {

/// The pairs of positions `a < b` of `s` whose elements are out of order.
pub open spec fn inverted_pairs(s: Seq<u8>) -> Set<(int, int)> {
    Set::new(|q: (int, int)| 0 <= q.0 < q.1 < s.len() && s[q.0] > s[q.1])
}

/// The number of pairs of positions of `s` whose elements are out of order.
pub open spec fn inversions(s: Seq<u8>) -> nat {
    inverted_pairs(s).len()
}

/// The pairs of positions `a < b` below `n`.
spec fn pairs_below(n: int) -> Set<(int, int)> {
    Set::new(|q: (int, int)| 0 <= q.0 < q.1 < n)
}

/// There are finitely many pairs of positions below `n`.
proof fn lemma_pairs_below_finite(n: nat)
    ensures
        pairs_below(n as int).finite(),
    decreases n,
{
    if n == 0 {
        assert(pairs_below(0) =~= Set::empty());
    } else {
        let m = (n - 1) as nat;
        lemma_pairs_below_finite(m);
        lemma_int_range(0, m as int);
        let last = set_int_range(0, m as int).map(|a: int| (a, m as int));
        set_int_range(0, m as int).lemma_map_finite(|a: int| (a, m as int));
        assert(pairs_below(n as int) =~= pairs_below(m as int).union(last)) by {
            assert forall|q: (int, int)| pairs_below(n as int).contains(q) implies
                pairs_below(m as int).union(last).contains(q) by {
                if q.1 == m {
                    assert(set_int_range(0, m as int).contains(q.0));
                    assert(q == (|a: int| (a, m as int))(q.0));
                }
            }
        }
        vstd::set::axiom_set_union_finite(pairs_below(m as int), last);
    }
}

/// There are finitely many inverted pairs.
pub proof fn lemma_inverted_pairs_finite(s: Seq<u8>)
    ensures
        inverted_pairs(s).finite(),
{
    lemma_pairs_below_finite(s.len());
    lemma_len_subset(inverted_pairs(s), pairs_below(s.len() as int));
}

/// The position that `x` takes when the elements at `p` and `q` change places.
spec fn other(x: int, p: int, q: int) -> int {
    if x == p { q } else if x == q { p } else { x }
}

/// Where each inverted pair after the exchange of `p` and `q` comes from:
/// itself where one end is `p` or `q` and the other lies between them, else
/// the pair of the positions its elements held before.
spec fn origin(r: (int, int), p: int, q: int) -> (int, int) {
    if (r.0 == p && p < r.1 < q) || (p < r.0 < q && r.1 == q) {
        r
    } else {
        let a = other(r.0, p, q);
        let b = other(r.1, p, q);
        if a < b { (a, b) } else { (b, a) }
    }
}

/// Exchanging two elements that are out of order removes at least one
/// inverted pair: the inverted pairs after the exchange come from distinct
/// inverted pairs before it, none of which is the exchanged pair.
pub proof fn lemma_swap_removes_inversion(s: Seq<u8>, p: int, q: int)
    requires
        0 <= p < q < s.len(),
        s[p] > s[q],
    ensures
        inversions(swapped(s, p, q)) < inversions(s),
{
    let t = swapped(s, p, q);
    let f = |r: (int, int)| origin(r, p, q);
    let after = inverted_pairs(t);
    let before = inverted_pairs(s);
    lemma_inverted_pairs_finite(s);
    lemma_inverted_pairs_finite(t);
    assert(injective_on(f, after)) by {
        assert forall|r1: (int, int), r2: (int, int)|
            after.contains(r1) && after.contains(r2) && #[trigger] f(r1) == #[trigger] f(r2) implies r1 == r2 by {
        }
    }
    let image = after.map(f);
    lemma_map_size(after, image, f);
    let rest = before.remove((p, q));
    assert(image.subset_of(rest)) by {
        assert forall|o: (int, int)| image.contains(o) implies rest.contains(o) by {
            let r = choose|r: (int, int)| after.contains(r) && f(r) == o;
            assert(t[r.0] > t[r.1]);
        }
    }
    assert(before.contains((p, q)));
    lemma_len_subset(image, rest);
}

/// Exchanging two adjacent elements that are out of order removes exactly
/// one inverted pair: the exchanged one.
pub proof fn lemma_adjacent_swap_removes_one(s: Seq<u8>, p: int)
    requires
        0 <= p < p + 1 < s.len(),
        s[p] > s[p + 1],
    ensures
        inversions(swapped(s, p, p + 1)) + 1 == inversions(s),
{
    let q = p + 1;
    let t = swapped(s, p, q);
    let f = |r: (int, int)| origin(r, p, q);
    let after = inverted_pairs(t);
    let before = inverted_pairs(s);
    lemma_inverted_pairs_finite(s);
    lemma_inverted_pairs_finite(t);
    assert(injective_on(f, after)) by {
        assert forall|r1: (int, int), r2: (int, int)|
            after.contains(r1) && after.contains(r2) && #[trigger] f(r1) == #[trigger] f(r2) implies r1 == r2 by {
        }
    }
    let rest = before.remove((p, q));
    assert(after.map(f) =~= rest) by {
        assert forall|o: (int, int)| after.map(f).contains(o) implies rest.contains(o) by {
            let r = choose|r: (int, int)| after.contains(r) && f(r) == o;
            assert(t[r.0] > t[r.1]);
        }
        assert forall|o: (int, int)| rest.contains(o) implies after.map(f).contains(o) by {
            let a = other(o.0, p, q);
            let b = other(o.1, p, q);
            let r = if a < b { (a, b) } else { (b, a) };
            assert(after.contains(r));
            assert(f(r) == o);
        }
    }
    lemma_map_size(after, rest, f);
    assert(before.contains((p, q)));
}

} // verus!
