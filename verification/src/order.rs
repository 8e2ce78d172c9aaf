//! The lexicographic order of texts, and sorting by it.

use vstd::prelude::*;
use vstd::relations::{sorted_by, total_ordering};
use vstd::seq_lib::{lemma_sorted_unique, to_multiset_build, to_multiset_insert};

verus! {

/// `a` comes before `b`, or equals it, from position `i` on: at the first
/// position where they differ, `a` ends or holds the lesser character.
pub open spec fn text_leq_from(a: Seq<char>, b: Seq<char>, i: int) -> bool
    decreases a.len() - i,
{
    if i >= a.len() {
        true
    } else if i >= b.len() {
        false
    } else if a[i] != b[i] {
        a[i] < b[i]
    } else {
        text_leq_from(a, b, i + 1)
    }
}

/// The lexicographic order of texts, by code point.
pub open spec fn text_leq(a: Seq<char>, b: Seq<char>) -> bool {
    text_leq_from(a, b, 0)
}

/// `text_leq` as a relation.
pub open spec fn by_text() -> spec_fn(Seq<char>, Seq<char>) -> bool {
    |a: Seq<char>, b: Seq<char>| text_leq(a, b)
}

proof fn lemma_leq_reflexive(a: Seq<char>, i: int)
    requires
        0 <= i,
    ensures
        text_leq_from(a, a, i),
    decreases a.len() - i,
{
    if i < a.len() {
        lemma_leq_reflexive(a, i + 1);
    }
}

proof fn lemma_leq_connected(a: Seq<char>, b: Seq<char>, i: int)
    requires
        0 <= i,
    ensures
        text_leq_from(a, b, i) || text_leq_from(b, a, i),
    decreases a.len() - i,
{
    if i < a.len() && i < b.len() {
        if a[i] == b[i] {
            lemma_leq_connected(a, b, i + 1);
        } else {

        }
    }
}

proof fn lemma_leq_antisymmetric(a: Seq<char>, b: Seq<char>, i: int)
    requires
        0 <= i,
        text_leq_from(a, b, i),
        text_leq_from(b, a, i),
        i <= a.len(),
        i <= b.len(),
        forall|k: int| 0 <= k < i ==> a[k] == b[k],
    ensures
        a == b,
    decreases a.len() - i,
{
    if i < a.len() {
        lemma_leq_antisymmetric(a, b, i + 1);
    } else {
        assert(a =~= b);
    }
}

proof fn lemma_leq_transitive(a: Seq<char>, b: Seq<char>, c: Seq<char>, i: int)
    requires
        0 <= i,
        text_leq_from(a, b, i),
        text_leq_from(b, c, i),
    ensures
        text_leq_from(a, c, i),
    decreases a.len() - i,
{
    if i < a.len() && a[i] == b[i] && b[i] == c[i] {
        lemma_leq_transitive(a, b, c, i + 1);
    }
}

/// The lexicographic order is a total order.
pub proof fn lemma_text_order_total()
    ensures
        total_ordering(by_text()),
{
    let r = by_text();
    assert forall|x: Seq<char>| #[trigger] r(x, x) by {
        lemma_leq_reflexive(x, 0);
    }
    assert forall|x: Seq<char>, y: Seq<char>| #[trigger] r(x, y) && #[trigger] r(y, x) implies x == y by {
        lemma_leq_antisymmetric(x, y, 0);
    }
    assert forall|x: Seq<char>, y: Seq<char>, z: Seq<char>| #[trigger] r(x, y) && #[trigger] r(y, z) implies
        r(x, z) by {
        lemma_leq_transitive(x, y, z, 0);
    }
    assert forall|x: Seq<char>, y: Seq<char>| #[trigger] r(x, y) || #[trigger] r(y, x) by {
        lemma_leq_connected(x, y, 0);
    }
}

/// Whether `a` comes before `b` or equals it.
pub fn text_before(a: &Vec<char>, b: &Vec<char>) -> (r: bool)
    ensures
        r == text_leq(a@, b@),
{
    let mut i: usize = 0;
    while i < a.len() && i < b.len() && a[i] == b[i]
        invariant
            i <= a.len(),
            i <= b.len(),
            text_leq(a@, b@) == text_leq_from(a@, b@, i as int),
        decreases a.len() - i,
    {
        i += 1;
    }
    if i >= a.len() {
        true
    } else if i >= b.len() {
        false
    } else {
        a[i] < b[i]
    }
}

/// The texts that a list of character vectors holds.
pub open spec fn lines(v: Seq<Vec<char>>) -> Seq<Seq<char>> {
    Seq::new(v.len(), |i: int| v[i]@)
}

/// The texts in lexicographic order.
pub open spec fn sorted_texts(v: Seq<Seq<char>>) -> Seq<Seq<char>> {
    v.sort_by(by_text())
}

/// There is one way to put texts in order: any ordered arrangement of them
/// is `sorted_texts`.
pub proof fn lemma_sorted_texts_unique(v: Seq<Seq<char>>, w: Seq<Seq<char>>)
    requires
        sorted_by(w, by_text()),
        w.to_multiset() == v.to_multiset(),
    ensures
        w == sorted_texts(v),
{
    lemma_text_order_total();
    v.lemma_sort_by_ensures(by_text());
    lemma_sorted_unique(w, sorted_texts(v), by_text());
}

/// Sorts the texts lexicographically.
pub fn sort_texts(v: Vec<Vec<char>>) -> (out: Vec<Vec<char>>)
    ensures
        lines(out@) == sorted_texts(lines(v@)),
        out.len() == v.len(),
{
    let mut out: Vec<Vec<char>> = Vec::new();
    let mut v = v;
    let ghost all = lines(v@);
    let ghost n = v.len();
    let mut taken: usize = 0;
    proof {
        broadcast use vstd::seq_lib::group_to_multiset_ensures;
        broadcast use vstd::multiset::group_multiset_axioms;

        assert(lines(out@) =~= Seq::<Seq<char>>::empty());
        assert(all.take(v.len() as int) =~= all);
        assert(lines(out@).to_multiset() =~= vstd::multiset::Multiset::<Seq<char>>::empty());
        assert(lines(out@).to_multiset().add(all.to_multiset()) =~= all.to_multiset());
    }
    while v.len() > 0
        invariant
            taken + v.len() == n,
            n == all.len(),
            lines(v@) == all.take(v.len() as int),
            out.len() == taken,
            sorted_by(lines(out@), by_text()),
            lines(out@).to_multiset().add(all.take(v.len() as int).to_multiset()) == all.to_multiset(),
        decreases v.len(),
    {
        let ghost rest_before = all.take(v.len() as int);
        let x = v.pop().unwrap();
        let ghost rest = all.take(v.len() as int);
        let mut p: usize = 0;
        while p < out.len() && text_before(&out[p], &x)
            invariant
                p <= out.len(),
                forall|k: int| 0 <= k < p ==> text_leq(#[trigger] out[k]@, x@),
            decreases out.len() - p,
        {
            p += 1;
        }
        let ghost before = lines(out@);
        out.insert(p, x);
        proof {
            lemma_text_order_total();
            let after = lines(out@);
            assert(after =~= before.insert(p as int, x@));
            assert forall|i: int, j: int| 0 <= i < j < after.len() implies by_text()(after[i], after[j]) by {
                if j == p {
                    assert(text_leq(out@[i]@, x@)) by {
                        assert(after[i] == before[i]);
                    }
                } else if i == p {
                    // the element at p + 1 was the first one not before x
                    assert(before[p as int] == after[p + 1]);
                    assert(!text_leq(before[p as int], x@));
                    assert(by_text()(before[p as int], x@) || by_text()(x@, before[p as int]));
                    if j > p + 1 {
                        assert(by_text()(before[p as int], before[j - 1]));
                        assert(by_text()(x@, before[p as int]) && by_text()(before[p as int], before[j - 1])
                            ==> by_text()(x@, before[j - 1]));
                    }
                } else {
                    let bi = if i < p { i } else { i - 1 };
                    let bj = if j < p { j } else { j - 1 };
                    assert(by_text()(before[bi], before[bj]));
                }
            }
            assert(rest_before =~= rest.push(x@)) by {
                assert(lines(v@) == rest);
            }
            to_multiset_build(rest, x@);
            to_multiset_insert(before, p as int, x@);
            assert(after.to_multiset().add(rest.to_multiset()) =~= before.to_multiset().add(rest_before.to_multiset()));
            assert(lines(v@) =~= rest);
        }
        taken += 1;
    }
    proof {
        assert(all.take(0) =~= Seq::<Seq<char>>::empty());
        assert(lines(out@).to_multiset() =~= all.to_multiset()) by {
            broadcast use vstd::seq_lib::group_to_multiset_ensures;
            broadcast use vstd::multiset::group_multiset_axioms;

            assert(Seq::<Seq<char>>::empty().to_multiset() =~= vstd::multiset::Multiset::<Seq<char>>::empty());
        }
        lemma_sorted_texts_unique(all, lines(out@));
    }
    out
}

} // verus!
