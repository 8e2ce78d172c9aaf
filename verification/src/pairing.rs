//! The identity of a pairing: its members, whoever is named first and
//! whoever is the active partner.

use vstd::prelude::*;
use crate::ballot::{CPItem, PickView, UNTAGGED};
use crate::frame::{frame_list, framed_list, lemma_framed_list_injective};
use crate::order::{
    by_text, lemma_sorted_texts_unique, lemma_text_order_total, lines, sort_texts, sorted_texts,
};
use crate::text::{chars_of, opt_text, text_of, texts};

verus! {

/// The active partner is the first member in lexicographic order.
pub const ACTIVE_FIRST: usize = 0;

/// The active partner is the second member.
pub const ACTIVE_SECOND: usize = 1;

/// The active partner is the third member.
pub const ACTIVE_THIRD: usize = 2;

/// No active partner is named.
pub const ACTIVE_NONE: usize = 3;

/// The members of a pairing, as named.
pub open spec fn members(p: CPItem) -> Seq<Seq<char>> {
    match p.c {
        Some(c) => seq![p.a@, p.b@, c@],
        None => seq![p.a@, p.b@],
    }
}

/// The members of a pairing in lexicographic order.
pub open spec fn canonical(p: CPItem) -> Seq<Seq<char>> {
    sorted_texts(members(p))
}

/// The identity of a pairing: its members in lexicographic order, each
/// behind its length. The active partner and the reason are no part of it.
pub open spec fn identity(p: CPItem) -> Seq<char> {
    framed_list(canonical(p))
}

/// Which member is the active partner: its place among the members in
/// lexicographic order, `ACTIVE_NONE` where none is named, `UNTAGGED` where
/// the partner named is no member.
pub open spec fn active_class(p: CPItem) -> int {
    let names = canonical(p);
    match p.active {
        None => ACTIVE_NONE as int,
        Some(x) => if names[0] == x@ {
            ACTIVE_FIRST as int
        } else if names[1] == x@ {
            ACTIVE_SECOND as int
        } else if names.len() > 2 && names[2] == x@ {
            ACTIVE_THIRD as int
        } else {
            UNTAGGED as int
        },
    }
}

/// A pairing pick as the aggregator counts it: under its identity, with
/// its reason, in the class of its active partner.
pub open spec fn pair_pick(p: CPItem) -> PickView {
    PickView { name: identity(p), reason: opt_text(p.reason), tag: active_class(p) }
}

proof fn lemma_canonical_len(p: CPItem)
    ensures
        canonical(p).len() == members(p).len(),
        2 <= canonical(p).len() <= 3,
{
    broadcast use vstd::seq_lib::group_to_multiset_ensures;

    lemma_text_order_total();
    members(p).lemma_sort_by_ensures(by_text());
    assert(canonical(p).to_multiset().len() == members(p).to_multiset().len());
}

/// The members of a pairing in lexicographic order.
pub fn canonical_names(p: &CPItem) -> (names: Vec<String>)
    ensures
        texts(names@) == canonical(*p),
        2 <= names.len() <= 3,
{
    let mut rows: Vec<Vec<char>> = Vec::new();
    rows.push(chars_of(p.a.as_str()));
    rows.push(chars_of(p.b.as_str()));
    match &p.c {
        Some(c) => {
            rows.push(chars_of(c.as_str()));
        },
        None => {},
    }
    proof {
        assert(lines(rows@) =~= members(*p));
        lemma_canonical_len(*p);
    }
    let sorted = sort_texts(rows);
    let mut names: Vec<String> = Vec::new();
    let mut j: usize = 0;
    while j < sorted.len()
        invariant
            j <= sorted.len(),
            names.len() == j,
            forall|k: int| 0 <= k < j ==> (#[trigger] names[k])@ == sorted[k]@,
        decreases sorted.len() - j,
    {
        names.push(text_of(&sorted[j]));
        j += 1;
    }
    proof {
        assert(texts(names@) =~= lines(sorted@));
    }
    names
}

/// The identity of a pairing.
pub fn pair_key(p: &CPItem) -> (key: String)
    ensures
        key@ == identity(*p),
{
    let names = canonical_names(p);
    frame_list(&names)
}

/// The class of the active partner of a pairing.
pub fn active_tag(p: &CPItem) -> (tag: usize)
    ensures
        tag == active_class(*p),
        tag <= UNTAGGED,
{
    match &p.active {
        None => ACTIVE_NONE,
        Some(x) => {
            let names = canonical_names(p);
            assert(texts(names@)[0] == names[0]@ && texts(names@)[1] == names[1]@);
            if names[0] == *x {
                ACTIVE_FIRST
            } else if names[1] == *x {
                ACTIVE_SECOND
            } else if names.len() > 2 && names[2] == *x {
                assert(texts(names@)[2] == names[2]@);
                ACTIVE_THIRD
            } else {
                assert(names.len() > 2 ==> texts(names@)[2] == names[2]@);
                UNTAGGED
            }
        },
    }
}

/// The pairing with its members in lexicographic order, and neither active
/// partner nor reason.
pub fn representative(p: &CPItem) -> (r: CPItem)
    ensures
        members(r) == canonical(*p),
        r.active.is_none(),
        r.reason.is_none(),
{
    let names = canonical_names(p);
    assert(texts(names@)[0] == names[0]@ && texts(names@)[1] == names[1]@);
    let c = if names.len() > 2 {
        assert(texts(names@)[2] == names[2]@);
        Some(names[2].clone())
    } else {
        None
    };
    let r = CPItem { a: names[0].clone(), b: names[1].clone(), c, active: None, reason: None };
    proof {
        assert(members(r) =~= texts(names@));
    }
    r
}

/// Two pairings with the same members, named in whatever order, with
/// whatever active partner and reason, have the same identity.
pub proof fn lemma_identity_ignores_order(p: CPItem, q: CPItem)
    requires
        members(p).to_multiset() == members(q).to_multiset(),
    ensures
        identity(p) == identity(q),
{
    lemma_text_order_total();
    members(q).lemma_sort_by_ensures(by_text());
    lemma_sorted_texts_unique(members(p), canonical(q));
}

/// Swapping the two partners of a pairing keeps its identity.
pub proof fn lemma_identity_symmetric(p: CPItem, q: CPItem)
    requires
        q.a@ == p.b@,
        q.b@ == p.a@,
        opt_text(q.c) == opt_text(p.c),
    ensures
        identity(p) == identity(q),
{
    broadcast use vstd::seq_lib::group_to_multiset_ensures;
    broadcast use vstd::multiset::group_multiset_axioms;

    let mp = members(p);
    let mq = members(q);
    assert(mp.len() == mq.len());
    if p.c.is_some() {
        assert(mp =~= seq![p.a@, p.b@].push(p.c.unwrap()@));
        assert(mq =~= seq![p.b@, p.a@].push(p.c.unwrap()@));
    }
    assert(seq![p.a@, p.b@] =~= Seq::<Seq<char>>::empty().push(p.a@).push(p.b@));
    assert(seq![p.b@, p.a@] =~= Seq::<Seq<char>>::empty().push(p.b@).push(p.a@));
    assert(seq![p.a@, p.b@].to_multiset() =~= seq![p.b@, p.a@].to_multiset());
    assert(mp.to_multiset() =~= mq.to_multiset());
    lemma_identity_ignores_order(p, q);
}

/// Two pairings have the same identity exactly when they have the same
/// members, each as often: whatever the names hold, in whatever order they
/// are named, with whatever active partner and reason.
pub proof fn lemma_identity_is_member_multiset(p: CPItem, q: CPItem)
    ensures
        identity(p) == identity(q) <==> members(p).to_multiset() == members(q).to_multiset(),
{
    lemma_text_order_total();
    members(p).lemma_sort_by_ensures(by_text());
    members(q).lemma_sort_by_ensures(by_text());
    if identity(p) == identity(q) {
        lemma_framed_list_injective(canonical(p), canonical(q));
    }
    if members(p).to_multiset() == members(q).to_multiset() {
        lemma_identity_ignores_order(p, q);
    }
}

impl CPItem {
    /// Whether the two pairings are the same pairing: they have the same
    /// members, in whatever order.
    pub fn eq(&self, other: &CPItem) -> (r: bool)
        ensures
            r == (members(*self).to_multiset() == members(*other).to_multiset()),
    {
        proof {
            lemma_identity_is_member_multiset(*self, *other);
        }
        let own = pair_key(self);
        let others = pair_key(other);
        own == others
    }
}

} // verus!
