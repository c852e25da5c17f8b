//! The lexicographic order on index tuples, and listings in that order.

use vstd::prelude::*;

verus! {

/// `a` and `b` agree before position `k`, and there `a` holds the smaller
/// index.
pub open spec fn precedes_at(a: Seq<usize>, b: Seq<usize>, k: int) -> bool {
    &&& 0 <= k < a.len()
    &&& k < b.len()
    &&& forall|j: int| 0 <= j < k ==> a[j] == b[j]
    &&& a[k] < b[k]
}

/// `a` is a beginning of `b`, and shorter.
pub open spec fn is_proper_prefix(a: Seq<usize>, b: Seq<usize>) -> bool {
    &&& a.len() < b.len()
    &&& forall|j: int| 0 <= j < a.len() ==> a[j] == b[j]
}

/// `a` comes before `b` in lexicographic order: at the first position where
/// they differ `a` holds the smaller index, or `a` ends first.
pub open spec fn lex_lt(a: Seq<usize>, b: Seq<usize>) -> bool {
    is_proper_prefix(a, b) || exists|k: int| precedes_at(a, b, k)
}

/// Each tuple of the listing comes before all the tuples after it.
pub open spec fn strictly_ascending(groups: Seq<Seq<usize>>) -> bool {
    forall|i: int, j: int|
        0 <= i < j < groups.len() ==> lex_lt(#[trigger] groups[i], #[trigger] groups[j])
}

/// The two listings hold the same tuples.
pub open spec fn same_members(a: Seq<Seq<usize>>, b: Seq<Seq<usize>>) -> bool {
    forall|g: Seq<usize>| a.contains(g) <==> b.contains(g)
}

/// No tuple comes before itself.
pub proof fn lemma_lex_lt_irreflexive(a: Seq<usize>)
    ensures
        !lex_lt(a, a),
{
}

/// Of two tuples, at most one comes before the other.
pub proof fn lemma_lex_lt_asymmetric(a: Seq<usize>, b: Seq<usize>)
    requires
        lex_lt(a, b),
    ensures
        !lex_lt(b, a),
{
    if lex_lt(b, a) {
        if is_proper_prefix(a, b) {
            let k = choose|k: int| precedes_at(b, a, k);
            assert(a[k] == b[k]);
        } else if is_proper_prefix(b, a) {
            let k = choose|k: int| precedes_at(a, b, k);
            assert(b[k] == a[k]);
        } else {
            let k = choose|k: int| precedes_at(a, b, k);
            let m = choose|m: int| precedes_at(b, a, m);
            if k < m {
                assert(b[k] == a[k]);
            } else if m < k {
                assert(a[m] == b[m]);
            }
        }
    }
}

/// A strictly ascending listing holds no tuple twice.
pub proof fn lemma_ascending_no_duplicates(groups: Seq<Seq<usize>>)
    requires
        strictly_ascending(groups),
    ensures
        groups.no_duplicates(),
{
    assert forall|i: int, j: int| 0 <= i < groups.len() && 0 <= j < groups.len() && i != j implies groups[i]
        != groups[j] by {
        if i < j {
            assert(lex_lt(groups[i], groups[j]));
        } else {
            assert(lex_lt(groups[j], groups[i]));
        }
        lemma_lex_lt_irreflexive(groups[i]);
    }
}

/// A set of tuples has one strictly ascending listing: two such listings with
/// the same members are the same sequence.
pub proof fn lemma_ascending_listing_unique(a: Seq<Seq<usize>>, b: Seq<Seq<usize>>)
    requires
        strictly_ascending(a),
        strictly_ascending(b),
        same_members(a, b),
    ensures
        a == b,
    decreases a.len(),
{
    if a.len() == 0 {
        if b.len() > 0 {
            assert(b.contains(b[0]));
            assert(a.contains(b[0]));
        }
        assert(a =~= b);
    } else {
        assert(a.contains(a.last()));
        assert(b.contains(a.last()));
        let j = choose|j: int| 0 <= j < b.len() && b[j] == a.last();
        assert(b.contains(b.last()));
        assert(a.contains(b.last()));
        let i = choose|i: int| 0 <= i < a.len() && a[i] == b.last();
        if a.last() != b.last() {
            assert(j < b.len() - 1);
            assert(i < a.len() - 1);
            assert(lex_lt(b[j], b[b.len() - 1]));
            assert(lex_lt(a[i], a[a.len() - 1]));
            lemma_lex_lt_asymmetric(a.last(), b.last());
        }
        let a0 = a.drop_last();
        let b0 = b.drop_last();
        assert(strictly_ascending(a0)) by {
            assert forall|p: int, q: int| 0 <= p < q < a0.len() implies lex_lt(
                #[trigger] a0[p],
                #[trigger] a0[q],
            ) by {
                assert(lex_lt(a[p], a[q]));
            }
        }
        assert(strictly_ascending(b0)) by {
            assert forall|p: int, q: int| 0 <= p < q < b0.len() implies lex_lt(
                #[trigger] b0[p],
                #[trigger] b0[q],
            ) by {
                assert(lex_lt(b[p], b[q]));
            }
        }
        assert forall|g: Seq<usize>| a0.contains(g) <==> b0.contains(g) by {
            lemma_lex_lt_irreflexive(g);
            if a0.contains(g) {
                let p = choose|p: int| 0 <= p < a0.len() && a0[p] == g;
                assert(a[p] == g);
                assert(lex_lt(a[p], a[a.len() - 1]));
                assert(a.contains(g));
                assert(b.contains(g));
                let q = choose|q: int| 0 <= q < b.len() && b[q] == g;
                assert(q < b.len() - 1);
                assert(b0[q] == g);
            }
            if b0.contains(g) {
                let q = choose|q: int| 0 <= q < b0.len() && b0[q] == g;
                assert(b[q] == g);
                assert(lex_lt(b[q], b[b.len() - 1]));
                assert(b.contains(g));
                assert(a.contains(g));
                let p = choose|p: int| 0 <= p < a.len() && a[p] == g;
                assert(p < a.len() - 1);
                assert(a0[p] == g);
            }
        }
        lemma_ascending_listing_unique(a0, b0);
        assert(a =~= a0.push(a.last()));
        assert(b =~= b0.push(b.last()));
    }
}

} // verus!
