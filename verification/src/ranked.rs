//! Which names a ranking lists: those that enough counted sections pick,
//! and no others.

use vstd::prelude::*;
use crate::rank::{is_rank_order, lemma_rank_order_exists, rank_order_of};
use crate::ranking::{rank_keys, ranking_names, voted_among, voted_names};
use crate::tally::{Counted, supporters_for};

verus! {

/// Of `names`, those are kept that at least `min` counted sections pick.
pub proof fn lemma_voted_among_members(names: Seq<Seq<char>>, h: Seq<Counted>, min: nat, n: Seq<char>)
    ensures
        voted_among(names, h, min).contains(n) <==> names.contains(n) && supporters_for(h, n) >= min,
        voted_among(names, h, min).len() <= names.len(),
    decreases names.len(),
{
    if names.len() > 0 {
        let init = names.drop_last();
        let rest = voted_among(init, h, min);
        let kept = voted_among(names, h, min);
        lemma_voted_among_members(init, h, min, n);
        if names.contains(n) {
            let k = choose|k: int| 0 <= k < names.len() && names[k] == n;
            if k < init.len() {
                assert(init[k] == n);
            }
        }
        if init.contains(n) {
            let k = choose|k: int| 0 <= k < init.len() && init[k] == n;
            assert(names[k] == n);
        }
        if rest.contains(n) {
            let k = choose|k: int| 0 <= k < rest.len() && rest[k] == n;
            assert(kept[k] == n);
        }
        if kept.contains(n) {
            let k = choose|k: int| 0 <= k < kept.len() && kept[k] == n;
            if k < rest.len() {
                assert(rest[k] == n);
            } else {
                assert(names[names.len() - 1] == n);
            }
        }
        if names.last() == n && supporters_for(h, n) >= min {
            assert(kept[kept.len() - 1] == n);
        }
    }
}

/// The ranking lists the names that at least `min` counted sections pick,
/// and no others.
pub proof fn lemma_ranking_names_members(h: Seq<Counted>, min: nat, n: Seq<char>)
    requires
        voted_names(h, min).len() <= usize::MAX,
    ensures
        ranking_names(h, min).contains(n) <==> voted_names(h, min).contains(n),
{
    let voted = voted_names(h, min);
    let keys = rank_keys(h, min);
    let order = rank_order_of(keys);
    let ranked = ranking_names(h, min);
    lemma_rank_order_exists(keys);
    assert(is_rank_order(keys, order));
    if ranked.contains(n) {
        let p = choose|p: int| 0 <= p < ranked.len() && ranked[p] == n;
        assert(order[p] < keys.len());
        assert(voted[order[p] as int] == n);
    }
    if voted.contains(n) {
        let k = choose|k: int| 0 <= k < voted.len() && voted[k] == n;
        assert(order.contains(k as usize));
        let p = choose|p: int| 0 <= p < order.len() && order[p] == k as usize;
        assert(ranked[p] == n);
    }
}

} // verus!
