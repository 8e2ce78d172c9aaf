//! The ranker: orders items by votes, assigns a dense rank and a display
//! rank shared across ties, and derives the global summary figures.

use vstd::prelude::*;

verus! {

/// An exact fraction. Percentages and averages are reported as fractions so
/// that no rounding happens inside the engine.
#[derive(Clone, Copy, Debug, PartialEq, Eq, Structural)]
pub struct Ratio {
    pub num: u64,
    pub den: u64,
}

/// The fraction `num / den`, with a zero denominator replaced by one.
pub open spec fn ratio(num: int, den: int) -> Ratio {
    Ratio { num: num as u64, den: if den == 0 { 1 } else { den as u64 } }
}

/// A zero denominator is replaced by one: the fraction is the numerator
/// itself.
pub proof fn lemma_zero_guard(num: u64, den: u64)
    ensures
        ratio(num as int, 0) == (Ratio { num, den: 1 }),
        ratio(num as int, den as int).den != 0,
        den != 0 ==> ratio(num as int, den as int) == (Ratio { num, den }),
{
}

impl Ratio {
    /// `num / den`, where a zero denominator is replaced by one.
    pub fn guarded(num: u64, den: u64) -> (r: Ratio)
        ensures
            r == ratio(num as int, den as int),
            r.num == num,
            r.den == (if den == 0 { 1 } else { den }),
            r.den > 0,
    {
        Ratio { num, den: if den == 0 { 1 } else { den } }
    }
}

/// What an item is ranked by.
#[derive(Clone, Copy, Debug, PartialEq, Eq, Structural)]
pub struct RankKey {
    pub vote_count: u32,
    pub first_count: u32,
}

/// Item `a` is ranked before item `b`: more votes; at equal votes, more
/// first-choice votes; at equal keys, the earlier position in the input.
pub open spec fn precedes(keys: Seq<RankKey>, a: int, b: int) -> bool {
    ||| keys[a].vote_count > keys[b].vote_count
    ||| (keys[a].vote_count == keys[b].vote_count && keys[a].first_count > keys[b].first_count)
    ||| (keys[a] == keys[b] && a < b)
}

/// `order` lists every position of `keys` exactly once, each before all the
/// positions it precedes.
pub open spec fn is_rank_order(keys: Seq<RankKey>, order: Seq<usize>) -> bool {
    &&& order.len() == keys.len()
    &&& forall|p: int| 0 <= p < order.len() ==> (#[trigger] order[p]) < keys.len()
    &&& forall|k: usize| k < keys.len() ==> #[trigger] order.contains(k)
    &&& forall|p: int, q: int| 0 <= p < q < order.len()
        ==> precedes(keys, #[trigger] order[p] as int, #[trigger] order[q] as int)
}

fn ranks_before(keys: &Vec<RankKey>, a: usize, b: usize) -> (r: bool)
    requires
        a < keys.len(),
        b < keys.len(),
    ensures
        r == precedes(keys@, a as int, b as int),
{
    let ka = keys[a];
    let kb = keys[b];
    if ka.vote_count != kb.vote_count {
        ka.vote_count > kb.vote_count
    } else if ka.first_count != kb.first_count {
        ka.first_count > kb.first_count
    } else {
        a < b
    }
}

/// The positions of `keys` in rank order: by votes descending, ties broken
/// by first-choice votes descending, remaining ties left in input order.
pub fn rank_order(keys: &Vec<RankKey>) -> (order: Vec<usize>)
    ensures
        is_rank_order(keys@, order@),
        order@ == rank_order_of(keys@),
{
    let n = keys.len();
    let mut order: Vec<usize> = Vec::new();
    let ghost mut pos: Seq<int> = Seq::empty();
    let mut i: usize = 0;
    while i < n
        invariant
            n == keys.len(),
            i <= n,
            order.len() == i,
            pos.len() == i,
            forall|p: int| 0 <= p < i ==> (#[trigger] order[p]) < i,
            forall|k: int| 0 <= k < i ==> 0 <= #[trigger] pos[k] < i && order[pos[k]] == k,
            forall|p: int| 0 <= p < i ==> pos[(#[trigger] order[p]) as int] == p,
            forall|p: int, q: int| 0 <= p < q < i
                ==> precedes(keys@, #[trigger] order[p] as int, #[trigger] order[q] as int),
        decreases n - i,
    {
        order.push(i);
        proof {
            pos = pos.push(i as int);
        }
        let mut j: usize = i;
        while j > 0 && ranks_before(keys, i, order[j - 1])
            invariant
                n == keys.len(),
                i < n,
                j <= i,
                order.len() == i + 1,
                pos.len() == i + 1,
                order[j as int] == i,
                forall|p: int| 0 <= p <= i ==> (#[trigger] order[p]) <= i,
                forall|k: int| 0 <= k <= i ==> 0 <= #[trigger] pos[k] <= i && order[pos[k]] == k,
                forall|p: int| 0 <= p <= i ==> pos[(#[trigger] order[p]) as int] == p,
                forall|p: int, q: int| 0 <= p < q <= i && p != j && q != j
                    ==> precedes(keys@, #[trigger] order[p] as int, #[trigger] order[q] as int),
                forall|q: int| j < q <= i ==> precedes(keys@, i as int, #[trigger] order[q] as int),
            decreases j,
        {
            let prev = order[j - 1];
            order[j] = prev;
            order[j - 1] = i;
            proof {
                pos = pos.update(prev as int, j as int).update(i as int, j - 1);
            }
            j -= 1;
        }
        proof {
            assert forall|p: int, q: int| 0 <= p < q <= i implies
                precedes(keys@, #[trigger] order[p] as int, #[trigger] order[q] as int) by {
                if q == j {
                    // every earlier element stayed in front of the new one
                    if j > 0 {
                        assert(!precedes(keys@, i as int, order[j - 1] as int));
                        assert(order[j - 1] < i) by {
                            assert(pos[order[j - 1] as int] == j - 1);
                            assert(pos[order[j as int] as int] == j);
                        }
                        if p != j - 1 {
                            assert(precedes(keys@, order[p] as int, order[j - 1] as int));
                        }
                    }
                }
            }
        }
        i += 1;
    }
    proof {
        assert forall|k: usize| k < keys.len() implies #[trigger] order@.contains(k) by {
            assert(order@[pos[k as int]] == k);
        }
        assert(is_rank_order(keys@, order@));
        lemma_rank_order_unique(keys@, order@, rank_order_of(keys@));
    }
    order
}

/// A rank order never lists a position twice.
pub proof fn lemma_rank_order_injective(keys: Seq<RankKey>, order: Seq<usize>, p: int, q: int)
    requires
        is_rank_order(keys, order),
        0 <= p < order.len(),
        0 <= q < order.len(),
        p != q,
    ensures
        order[p] != order[q],
{
    if p < q {
        assert(precedes(keys, order[p] as int, order[q] as int));
    } else {
        assert(precedes(keys, order[q] as int, order[p] as int));
    }
}

/// There is only one rank order of a list of keys.
pub proof fn lemma_rank_order_unique(keys: Seq<RankKey>, a: Seq<usize>, b: Seq<usize>)
    requires
        is_rank_order(keys, a),
        is_rank_order(keys, b),
    ensures
        a == b,
{
    assert forall|p: int| 0 <= p < a.len() implies a[p] == b[p] by {
        lemma_rank_order_agree(keys, a, b, p);
    }
    assert(a =~= b);
}

proof fn lemma_rank_order_agree(keys: Seq<RankKey>, a: Seq<usize>, b: Seq<usize>, p: int)
    requires
        is_rank_order(keys, a),
        is_rank_order(keys, b),
        0 <= p < a.len(),
    ensures
        a[p] == b[p],
    decreases p,
{
    assert forall|q: int| 0 <= q < p implies a[q] == b[q] by {
        lemma_rank_order_agree(keys, a, b, q);
    }
    let x = a[p];
    let y = b[p];
    if x != y {
        assert(a.contains(y));
        let r = choose|r: int| 0 <= r < a.len() && a[r] == y;
        if r < p {
            lemma_rank_order_injective(keys, b, r, p);
        }
        assert(precedes(keys, x as int, y as int));
        assert(b.contains(x));
        let t = choose|t: int| 0 <= t < b.len() && b[t] == x;
        if t < p {
            lemma_rank_order_injective(keys, a, t, p);
        }
        assert(precedes(keys, y as int, x as int));
    }
}

/// The rank order of a list of keys.
pub open spec fn rank_order_of(keys: Seq<RankKey>) -> Seq<usize> {
    choose|order: Seq<usize>| is_rank_order(keys, order)
}

/// Where item `k` enters an order: the first position from `i` on that
/// holds an item which `k` precedes, or the end.
pub open spec fn entry_point(keys: Seq<RankKey>, order: Seq<usize>, k: int, i: int) -> int
    decreases order.len() - i,
{
    if i < 0 || i >= order.len() {
        order.len() as int
    } else if precedes(keys, k, order[i] as int) {
        i
    } else {
        entry_point(keys, order, k, i + 1)
    }
}

/// The first `n` positions in rank order, built by entering them one
/// after the other.
pub open spec fn ordered_upto(keys: Seq<RankKey>, n: nat) -> Seq<usize>
    decreases n,
{
    if n == 0 {
        Seq::empty()
    } else {
        let before = ordered_upto(keys, (n - 1) as nat);
        before.insert(entry_point(keys, before, n - 1, 0), (n - 1) as usize)
    }
}

/// `order` lists each of the first `n` positions once, in rank order.
pub open spec fn orders_first(keys: Seq<RankKey>, order: Seq<usize>, n: int) -> bool {
    &&& order.len() == n
    &&& forall|p: int| 0 <= p < order.len() ==> (#[trigger] order[p]) < n
    &&& forall|k: usize| k < n ==> #[trigger] order.contains(k)
    &&& forall|p: int, q: int|
        0 <= p < q < order.len() ==> precedes(keys, #[trigger] order[p] as int, #[trigger] order[q] as int)
}

proof fn lemma_entry_point(keys: Seq<RankKey>, order: Seq<usize>, k: int, i: int)
    requires
        0 <= i <= order.len(),
    ensures
        i <= entry_point(keys, order, k, i) <= order.len(),
        forall|q: int| i <= q < entry_point(keys, order, k, i) ==> !precedes(keys, k, #[trigger] order[q] as int),
        entry_point(keys, order, k, i) < order.len()
            ==> precedes(keys, k, order[entry_point(keys, order, k, i)] as int),
    decreases order.len() - i,
{
    if i < order.len() && !precedes(keys, k, order[i] as int) {
        lemma_entry_point(keys, order, k, i + 1);
    }
}

proof fn lemma_ordered_upto(keys: Seq<RankKey>, n: nat)
    requires
        n <= usize::MAX,
    ensures
        orders_first(keys, ordered_upto(keys, n), n as int),
    decreases n,
{
    if n > 0 {
        let k = (n - 1) as usize;
        let before = ordered_upto(keys, (n - 1) as nat);
        lemma_ordered_upto(keys, (n - 1) as nat);
        lemma_entry_point(keys, before, k as int, 0);
        let at = entry_point(keys, before, k as int, 0);
        let after = before.insert(at, k);
        assert(after.len() == n);
        assert forall|p: int| 0 <= p < after.len() implies #[trigger] after[p] == (if p < at {
            before[p]
        } else if p == at {
            k
        } else {
            before[p - 1]
        }) by {}
        assert forall|p: int| 0 <= p < after.len() implies (#[trigger] after[p]) < n by {
            if p < at {
                assert(before[p] < n - 1);
            } else if p > at {
                assert(before[p - 1] < n - 1);
            }
        }
        assert forall|x: usize| x < n implies #[trigger] after.contains(x) by {
            if x == k {
                assert(after[at] == x);
            } else {
                assert(before.contains(x));
                let q = choose|q: int| 0 <= q < before.len() && before[q] == x;
                if q < at {
                    assert(after[q] == x);
                } else {
                    assert(after[q + 1] == x);
                }
            }
        }
        assert forall|p: int, q: int| 0 <= p < q < after.len() implies precedes(
            keys,
            #[trigger] after[p] as int,
            #[trigger] after[q] as int,
        ) by {
            if q < at {
                assert(precedes(keys, before[p] as int, before[q] as int));
            } else if q == at {
                assert(!precedes(keys, k as int, before[p] as int));
                assert(before[p] < k);
            } else if p == at {
                assert(precedes(keys, k as int, before[at] as int));
                if q - 1 > at {
                    assert(precedes(keys, before[at] as int, before[q - 1] as int));
                }
            } else if p < at {
                assert(precedes(keys, before[p] as int, before[q - 1] as int));
            } else {
                assert(precedes(keys, before[p - 1] as int, before[q - 1] as int));
            }
        }
    }
}

/// Every list of keys has a rank order: `rank_order_of` is one.
pub proof fn lemma_rank_order_exists(keys: Seq<RankKey>)
    requires
        keys.len() <= usize::MAX,
    ensures
        is_rank_order(keys, rank_order_of(keys)),
{
    lemma_ordered_upto(keys, keys.len());
    let order = ordered_upto(keys, keys.len());
    assert(is_rank_order(keys, order));
}

/// The vote counts of the items, listed in the given order.
pub open spec fn votes_in_order(keys: Seq<RankKey>, order: Seq<usize>) -> Seq<u32> {
    Seq::new(order.len(), |p: int| keys[order[p] as int].vote_count)
}

/// In rank order the vote counts never rise: the middle of the list is the
/// median of the counts.
pub proof fn lemma_votes_in_order_sorted(keys: Seq<RankKey>, order: Seq<usize>, p: int, q: int)
    requires
        is_rank_order(keys, order),
        0 <= p <= q < order.len(),
    ensures
        votes_in_order(keys, order)[p] >= votes_in_order(keys, order)[q],
{
    if p < q {
        assert(precedes(keys, order[p] as int, order[q] as int));
    }
}

/// The display rank of position `p` of a list of vote counts: the first
/// position has display rank 1; a position with the same vote count as the
/// one before it shares that one's display rank; any other position shows
/// its own dense rank `p + 1`.
pub open spec fn display_rank_at(votes: Seq<u32>, p: int) -> int
    decreases p,
{
    if p <= 0 {
        1
    } else if votes[p] == votes[p - 1] {
        display_rank_at(votes, p - 1)
    } else {
        p + 1
    }
}

/// A display rank is at least 1 and never exceeds the dense rank.
pub proof fn lemma_display_rank_bounds(votes: Seq<u32>, p: int)
    requires
        0 <= p < votes.len(),
    ensures
        1 <= display_rank_at(votes, p) <= p + 1,
    decreases p,
{
    if p > 0 && votes[p] == votes[p - 1] {
        lemma_display_rank_bounds(votes, p - 1);
    }
}

/// Two neighbours share a display rank exactly when they have the same
/// number of votes.
pub proof fn lemma_display_rank_ties(votes: Seq<u32>, p: int)
    requires
        0 < p < votes.len(),
    ensures
        (display_rank_at(votes, p) == display_rank_at(votes, p - 1)) <==> (votes[p] == votes[p - 1]),
{
    lemma_display_rank_bounds(votes, p - 1);
}

/// Display ranks only depend on the vote counts up to the position asked for.
pub(crate) proof fn lemma_display_rank_prefix(a: Seq<u32>, b: Seq<u32>, p: int)
    requires
        0 <= p < a.len(),
        p < b.len(),
        forall|k: int| 0 <= k <= p ==> a[k] == b[k],
    ensures
        display_rank_at(a, p) == display_rank_at(b, p),
    decreases p,
{
    if p > 0 {
        lemma_display_rank_prefix(a, b, p - 1);
    }
}

/// One ranked item: its position in the input, its dense rank (1, 2, 3, ...)
/// and its display rank.
#[derive(Clone, Copy, Debug, PartialEq, Eq, Structural)]
pub struct Ranked {
    pub item: usize,
    pub rank: usize,
    pub display_rank: usize,
}

/// The input positions of a ranked list, in order.
pub open spec fn items_of(ranked: Seq<Ranked>) -> Seq<usize> {
    Seq::new(ranked.len(), |p: int| ranked[p].item)
}

/// Dense ranks number the items one to one from 1 to N: every item has an
/// entry, no two entries are of one item or of one rank, and every rank
/// lies between 1 and the number of items.
pub proof fn lemma_dense_rank_bijection(keys: Seq<RankKey>, ranked: Seq<Ranked>)
    requires
        is_rank_order(keys, items_of(ranked)),
        forall|p: int| 0 <= p < ranked.len() ==> (#[trigger] ranked[p]).rank == p + 1,
    ensures
        ranked.len() == keys.len(),
        forall|k: usize| k < keys.len() ==> #[trigger] items_of(ranked).contains(k),
        forall|p: int, q: int|
            0 <= p < ranked.len() && 0 <= q < ranked.len() && p != q
                ==> (#[trigger] ranked[p]).item != (#[trigger] ranked[q]).item && ranked[p].rank != ranked[q].rank,
        forall|p: int| 0 <= p < ranked.len() ==> 1 <= (#[trigger] ranked[p]).rank <= keys.len(),
{
    let order = items_of(ranked);
    assert forall|p: int, q: int| 0 <= p < ranked.len() && 0 <= q < ranked.len() && p != q implies
        (#[trigger] ranked[p]).item != (#[trigger] ranked[q]).item && ranked[p].rank != ranked[q].rank by {
        lemma_rank_order_injective(keys, order, p, q);
        assert(order[p] == ranked[p].item && order[q] == ranked[q].item);
    }
}

/// Ranks the items: the result lists every input position once, in rank
/// order, with dense ranks 1..N and display ranks shared across equal vote
/// counts.
pub fn rank_items(keys: &Vec<RankKey>) -> (ranked: Vec<Ranked>)
    ensures
        ranked.len() == keys.len(),
        is_rank_order(keys@, items_of(ranked@)),
        items_of(ranked@) == rank_order_of(keys@),
        forall|p: int| 0 <= p < ranked.len() ==> (#[trigger] ranked[p]).rank == p + 1,
        forall|p: int| 0 <= p < ranked.len() ==> (#[trigger] ranked[p]).display_rank == display_rank_at(
            votes_in_order(keys@, items_of(ranked@)), p),
{
    let order = rank_order(keys);
    let n = order.len();
    let mut ranked: Vec<Ranked> = Vec::new();
    let mut display_rank: usize = 1;
    let mut last_votes: u32 = 0;
    let ghost votes = votes_in_order(keys@, order@);
    let mut p: usize = 0;
    while p < n
        invariant
            n == order.len(),
            n == keys.len(),
            p <= n,
            is_rank_order(keys@, order@),
            votes == votes_in_order(keys@, order@),
            ranked.len() == p,
            forall|k: int| 0 <= k < p ==> (#[trigger] ranked[k]).item == order[k],
            forall|k: int| 0 <= k < p ==> (#[trigger] ranked[k]).rank == k + 1,
            forall|k: int| 0 <= k < p ==> (#[trigger] ranked[k]).display_rank == display_rank_at(votes, k),
            p > 0 ==> last_votes == votes[p - 1] && display_rank == display_rank_at(votes, p - 1),
            p == 0 ==> display_rank == 1,
        decreases n - p,
    {
        let item = order[p];
        let cur_votes = keys[item].vote_count;
        if p == 0 || last_votes != cur_votes {
            display_rank = p + 1;
        }
        ranked.push(Ranked { item, rank: p + 1, display_rank });
        last_votes = cur_votes;
        p += 1;
    }
    proof {
        assert(items_of(ranked@) =~= order@);
    }
    ranked
}

/// The median of a list of counts that is sorted (in either direction): the
/// middle element of an odd-length list, the mean of the two middle elements
/// of an even-length list, zero for an empty list.
pub open spec fn median_of(sorted: Seq<u32>) -> Ratio {
    let n = sorted.len() as int;
    if n == 0 {
        Ratio { num: 0, den: 1 }
    } else if n % 2 == 1 {
        Ratio { num: sorted[n / 2] as u64, den: 1 }
    } else {
        Ratio { num: (sorted[n / 2 - 1] + sorted[n / 2]) as u64, den: 2 }
    }
}

/// Computes `median_of` on the list as given; the caller passes the counts
/// sorted.
pub fn median(sorted: &Vec<u32>) -> (r: Ratio)
    ensures
        r == median_of(sorted@),
{
    let n = sorted.len();
    if n == 0 {
        Ratio { num: 0, den: 1 }
    } else if n % 2 == 1 {
        Ratio { num: sorted[n / 2] as u64, den: 1 }
    } else {
        Ratio { num: sorted[n / 2 - 1] as u64 + sorted[n / 2] as u64, den: 2 }
    }
}

/// Mean number of votes per item; zero when there is no item.
pub open spec fn average_of(total_votes: u64, items: usize) -> Ratio {
    if items == 0 {
        Ratio { num: 0, den: 1 }
    } else {
        Ratio { num: total_votes, den: items as u64 }
    }
}

/// Mean number of votes per item; zero when there is no item.
pub fn average(total_votes: u64, items: usize) -> (r: Ratio)
    ensures
        r == average_of(total_votes, items),
{
    if items == 0 {
        Ratio { num: 0, den: 1 }
    } else {
        Ratio { num: total_votes, den: items as u64 }
    }
}

} // verus!
