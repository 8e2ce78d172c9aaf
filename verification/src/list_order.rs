//! The order of the values inside a list of a query does not matter: two
//! queries that differ in nothing else compile to one filter and share
//! their cache key.

use vstd::prelude::*;
use crate::filter::{cache_key_of, lemma_value_order_is_irrelevant};
use crate::parser::{
    and_at, compiled, condition_at, primary_at, query_at, root_of, TokenView, values_at, words_from,
};
use crate::query::request_key;

verus! {

/// The word is a value.
pub open spec fn is_value(w: TokenView) -> bool {
    w is Value
}

/// Word `i` stands where a list holds its values: after the opening
/// bracket or after a comma.
pub open spec fn in_list(t: Seq<TokenView>, i: int) -> bool {
    i > 0 && (t[i - 1] == TokenView::LBracket || t[i - 1] == TokenView::Comma)
}

/// The values of the list that starts at word `i`; none where no list of
/// values starts there.
pub open spec fn list_values(t: Seq<TokenView>, i: int) -> Seq<Seq<char>> {
    match values_at(t, i) {
        Some((values, _)) => values,
        None => Seq::empty(),
    }
}

/// The words `t` and `u` differ at most in the order of the values inside
/// lists: they are equally many; where one has a value the other has a
/// value, and all other words are the same; a value outside a list is the
/// same in both; and after every opening bracket both list the same values
/// equally often.
pub open spec fn same_but_list_order(t: Seq<TokenView>, u: Seq<TokenView>) -> bool {
    &&& t.len() == u.len()
    &&& forall|i: int| 0 <= i < t.len() ==> if is_value(#[trigger] t[i]) { is_value(u[i]) } else { u[i] == t[i] }
    &&& forall|i: int| 0 <= i < t.len() && is_value(#[trigger] t[i]) && !in_list(t, i) ==> u[i] == t[i]
    &&& forall|i: int| 0 < i < t.len() && t[i - 1] == TokenView::LBracket
        ==> (#[trigger] list_values(t, i)).to_multiset() == list_values(u, i).to_multiset()
}

/// The texts `p` and `q` are both made of words, and their words differ at
/// most in the order of the values inside lists. Blanks between the words
/// do not count.
pub open spec fn texts_same_but_list_order(p: Seq<char>, q: Seq<char>) -> bool {
    match (words_from(p, 0), words_from(q, 0)) {
        (Some(t), Some(u)) => same_but_list_order(t, u),
        _ => false,
    }
}

/// Where the words of a list of values are, and where it ends, does not
/// depend on the values.
proof fn lemma_list_ends_alike(t: Seq<TokenView>, u: Seq<TokenView>, i: int)
    requires
        same_but_list_order(t, u),
    ensures
        values_at(t, i).is_some() == values_at(u, i).is_some(),
        values_at(t, i).is_some() ==> values_at(t, i).unwrap().1 == values_at(u, i).unwrap().1,
    decreases t.len() - i,
{
    if 0 <= i < t.len() {
        let a = t[i];
        assert(if is_value(a) { is_value(u[i]) } else { u[i] == a });
        if is_value(a) && i + 1 < t.len() {
            let b = t[i + 1];
            assert(if is_value(b) { is_value(u[i + 1]) } else { u[i + 1] == b });
            if b == TokenView::Comma {
                lemma_list_ends_alike(t, u, i + 2);
            }
        }
    }
}

/// A condition compiles alike from both lists of words.
proof fn lemma_condition_alike(t: Seq<TokenView>, u: Seq<TokenView>, i: int)
    requires
        same_but_list_order(t, u),
    ensures
        condition_at(t, i) == condition_at(u, i),
{
    if 0 <= i && i + 2 < t.len() {
        let a = t[i];
        let b = t[i + 1];
        let c = t[i + 2];
        assert(if is_value(a) { is_value(u[i]) } else { u[i] == a });
        assert(if is_value(b) { is_value(u[i + 1]) } else { u[i + 1] == b });
        assert(if is_value(c) { is_value(u[i + 2]) } else { u[i + 2] == c });
        match a {
            TokenView::Ident(ident) => {
                if b == TokenView::Colon && c == TokenView::LBracket {
                    lemma_list_ends_alike(t, u, i + 3);
                    match values_at(t, i + 3) {
                        Some((values, j)) => {
                            let others = values_at(u, i + 3).unwrap().0;
                            assert(list_values(t, i + 3) == values);
                            assert(list_values(u, i + 3) == others);
                            assert(t[i + 3 - 1] == TokenView::LBracket);
                            lemma_value_order_is_irrelevant(ident, values, others);
                            if 0 <= j < t.len() {
                                let d = t[j];
                                assert(if is_value(d) { is_value(u[j]) } else { u[j] == d });
                            }
                        },
                        None => {},
                    }
                } else if b == TokenView::Equals {
                    if is_value(c) {
                        assert(!in_list(t, i + 2));
                        assert(u[i + 2] == c);
                    }
                }
            },
            _ => {},
        }
    }
}

/// A query in parentheses or a condition compiles alike from both lists of
/// words.
proof fn lemma_primary_alike(t: Seq<TokenView>, u: Seq<TokenView>, i: int)
    requires
        same_but_list_order(t, u),
    ensures
        primary_at(t, i) == primary_at(u, i),
    decreases t.len() - i, 0int,
{
    if 0 <= i < t.len() {
        let a = t[i];
        assert(if is_value(a) { is_value(u[i]) } else { u[i] == a });
        if a == TokenView::LParen {
            lemma_query_alike(t, u, i + 1);
            match query_at(t, i + 1) {
                Some((_, j)) => {
                    if 0 <= j < t.len() {
                        let d = t[j];
                        assert(if is_value(d) { is_value(u[j]) } else { u[j] == d });
                    }
                },
                None => {},
            }
        } else {
            lemma_condition_alike(t, u, i);
        }
    }
}

/// A conjunction compiles alike from both lists of words.
proof fn lemma_and_alike(t: Seq<TokenView>, u: Seq<TokenView>, i: int)
    requires
        same_but_list_order(t, u),
    ensures
        and_at(t, i) == and_at(u, i),
    decreases t.len() - i, 1int,
{
    if 0 <= i < t.len() {
        lemma_primary_alike(t, u, i);
        match primary_at(t, i) {
            Some((_, j)) => {
                if i < j < t.len() {
                    let d = t[j];
                    assert(if is_value(d) { is_value(u[j]) } else { u[j] == d });
                    if d == TokenView::And {
                        lemma_and_alike(t, u, j + 1);
                    }
                }
            },
            None => {},
        }
    }
}

/// A query compiles alike from both lists of words.
proof fn lemma_query_alike(t: Seq<TokenView>, u: Seq<TokenView>, i: int)
    requires
        same_but_list_order(t, u),
    ensures
        query_at(t, i) == query_at(u, i),
    decreases t.len() - i, 2int,
{
    if 0 <= i < t.len() {
        lemma_and_alike(t, u, i);
        match and_at(t, i) {
            Some((_, j)) => {
                if i < j < t.len() {
                    let d = t[j];
                    assert(if is_value(d) { is_value(u[j]) } else { u[j] == d });
                    if d == TokenView::Or {
                        lemma_query_alike(t, u, j + 1);
                    }
                }
            },
            None => {},
        }
    }
}

/// Words that differ at most in the order of the values inside lists
/// compile to the same filter, or neither is a query.
pub proof fn lemma_list_order_keeps_filter(t: Seq<TokenView>, u: Seq<TokenView>)
    requires
        same_but_list_order(t, u),
    ensures
        root_of(t) == root_of(u),
{
    lemma_query_alike(t, u, 0);
}

/// Two query texts that differ at most in the order of the values inside
/// lists compile to the same filter and have the same cache key, or
/// neither is a query.
pub proof fn lemma_list_order_keeps_filter_and_key(p: Seq<char>, q: Seq<char>)
    requires
        texts_same_but_list_order(p, q),
    ensures
        compiled(p) == compiled(q),
        request_key(Some(p)) == request_key(Some(q)),
        compiled(p).is_some() ==> cache_key_of(compiled(p).unwrap()) == cache_key_of(compiled(q).unwrap()),
{
    lemma_list_order_keeps_filter(words_from(p, 0).unwrap(), words_from(q, 0).unwrap());
}

} // verus!
