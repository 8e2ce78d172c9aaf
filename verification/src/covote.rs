//! The covote analyzer: for every pair among the top-ranked items, how many
//! ballots picked both, only one, or neither. The tables are kept by
//! touching, for each ballot, only the items that the ballot picked.

use vstd::hash_map::StringHashMap;
use vstd::prelude::*;
use itertools::Itertools;
use crate::ballot::{Ballot, Pick, Section};
use crate::handlers::{invalid_k, invalid_k_error};
use crate::models::PartialVoteItemEntry;
use crate::rank::{Ratio, ratio};
use crate::ranking::{entry_names, item_ranking, listed_names, tally_error, tally_error_kind};
use crate::service_error::{bare_error, SERVICE_NAME, ServiceError};
use crate::tally::{submitted, tally_all, TallyError};
use crate::text::{distinct, texts};

verus! {

/// All pairs of two elements of `s` at different positions, the element at
/// the earlier position first: the pairs with the first element of `s`, in
/// the order of their second elements, then the pairs among the rest.
pub open spec fn all_pairs(s: Seq<usize>) -> Seq<(usize, usize)>
    decreases s.len(),
{
    if s.len() < 2 {
        Seq::empty()
    } else {
        Seq::new((s.len() - 1) as nat, |j: int| (s[0], s[j + 1])) + all_pairs(s.drop_first())
    }
}

/// Calls `Itertools::combinations(2)` on the elements of `ids`: the
/// combinations of two elements, by position, in lexicographic order.
#[verifier::external_body]
fn pairs_of(ids: &Vec<usize>) -> (pairs: Vec<(usize, usize)>)
    ensures
        pairs@ == all_pairs(ids@),
{
    ids.iter().combinations(2).map(|c| (*c[0], *c[1])).collect()
}

/// The pair `{x, y}` is listed in `q`, in either order.
pub open spec fn has_pair(q: Seq<(usize, usize)>, x: usize, y: usize) -> bool {
    q.contains((x, y)) || q.contains((y, x))
}

/// The pairs of a list without repetitions are the pairs of two different
/// elements of the list.
pub proof fn lemma_all_pairs_members(s: Seq<usize>, x: usize, y: usize)
    requires
        distinct(s),
    ensures
        has_pair(all_pairs(s), x, y) <==> (x != y && s.contains(x) && s.contains(y)),
    decreases s.len(),
{
    let q = all_pairs(s);
    if s.len() < 2 {
        if x != y && s.contains(x) && s.contains(y) {
            let i = choose|i: int| 0 <= i < s.len() && s[i] == x;
            let j = choose|j: int| 0 <= j < s.len() && s[j] == y;
            assert(false);
        }
    } else {
        let head = Seq::new((s.len() - 1) as nat, |j: int| (s[0], s[j + 1]));
        let rest = s.drop_first();
        let tail = all_pairs(rest);
        assert(distinct(rest)) by {
            assert forall|i: int, j: int| 0 <= i < j < rest.len() implies rest[i] != rest[j] by {
                assert(rest[i] == s[i + 1] && rest[j] == s[j + 1]);
            }
        }
        lemma_all_pairs_members(rest, x, y);
        assert forall|p: (usize, usize)| q.contains(p) <==> (head.contains(p) || tail.contains(p)) by {
            if q.contains(p) {
                let k = choose|k: int| 0 <= k < q.len() && q[k] == p;
                if k < head.len() {
                    assert(head[k] == p);
                } else {
                    assert(tail[k - head.len()] == p);
                }
            }
            if head.contains(p) {
                let k = choose|k: int| 0 <= k < head.len() && head[k] == p;
                assert(q[k] == p);
            }
            if tail.contains(p) {
                let k = choose|k: int| 0 <= k < tail.len() && tail[k] == p;
                assert(q[k + head.len()] == p);
            }
        }
        assert forall|p: (usize, usize)| head.contains(p) <==> (p.0 == s[0] && rest.contains(p.1)) by {
            if head.contains(p) {
                let k = choose|k: int| 0 <= k < head.len() && head[k] == p;
                assert(rest[k] == p.1);
            }
            if p.0 == s[0] && rest.contains(p.1) {
                let k = choose|k: int| 0 <= k < rest.len() && rest[k] == p.1;
                assert(head[k] == p);
            }
        }
        assert forall|v: usize| s.contains(v) <==> (v == s[0] || rest.contains(v)) by {
            if s.contains(v) {
                let k = choose|k: int| 0 <= k < s.len() && s[k] == v;
                if k > 0 {
                    assert(rest[k - 1] == v);
                }
            }
            if rest.contains(v) {
                let k = choose|k: int| 0 <= k < rest.len() && rest[k] == v;
                assert(s[k + 1] == v);
            }
        }
        assert(!rest.contains(s[0])) by {
            if rest.contains(s[0]) {
                let k = choose|k: int| 0 <= k < rest.len() && rest[k] == s[0];
                assert(s[k + 1] == s[0]);
            }
        }
        assert(q.contains((x, y)) <==> (head.contains((x, y)) || tail.contains((x, y))));
        assert(q.contains((y, x)) <==> (head.contains((y, x)) || tail.contains((y, x))));
        assert(head.contains((x, y)) <==> (x == s[0] && rest.contains(y)));
        assert(head.contains((y, x)) <==> (y == s[0] && rest.contains(x)));
        assert(s.contains(x) <==> (x == s[0] || rest.contains(x)));
        assert(s.contains(y) <==> (y == s[0] || rest.contains(y)));
    }
}

/// The pairs of a list without repetitions list no pair twice, in whatever
/// order.
pub proof fn lemma_all_pairs_once(s: Seq<usize>, t: int, u: int)
    requires
        distinct(s),
        0 <= t < u < all_pairs(s).len(),
    ensures
        all_pairs(s)[t] != all_pairs(s)[u],
        all_pairs(s)[t] != (all_pairs(s)[u].1, all_pairs(s)[u].0),
    decreases s.len(),
{
    let q = all_pairs(s);
    if s.len() >= 2 {
        let head = Seq::new((s.len() - 1) as nat, |j: int| (s[0], s[j + 1]));
        let rest = s.drop_first();
        let tail = all_pairs(rest);
        assert(distinct(rest)) by {
            assert forall|i: int, j: int| 0 <= i < j < rest.len() implies rest[i] != rest[j] by {
                assert(rest[i] == s[i + 1] && rest[j] == s[j + 1]);
            }
        }
        if u < head.len() {
            assert(q[t] == (s[0], s[t + 1]));
            assert(q[u] == (s[0], s[u + 1]));
        } else if t < head.len() {
            assert(q[t] == (s[0], s[t + 1]));
            let p = tail[u - head.len()];
            assert(q[u] == p);
            assert(tail.contains(p));
            lemma_all_pairs_members(rest, p.0, p.1);
            assert(has_pair(tail, p.0, p.1));
            if p.0 == s[0] || p.1 == s[0] {
                let k = choose|k: int| 0 <= k < rest.len() && rest[k] == s[0];
                assert(s[k + 1] == s[0]);
            }
        } else {
            assert(q[t] == tail[t - head.len()]);
            assert(q[u] == tail[u - head.len()]);
            lemma_all_pairs_once(rest, t - head.len(), u - head.len());
        }
    }
}

/// How many of the selections satisfy `f`.
pub open spec fn count_if(h: Seq<Seq<Seq<char>>>, f: spec_fn(Seq<Seq<char>>) -> bool) -> nat
    decreases h.len(),
{
    if h.len() == 0 {
        0
    } else {
        count_if(h.drop_last(), f) + (if f(h.last()) { 1nat } else { 0nat })
    }
}

/// Selections that pick both `a` and `b`.
pub open spec fn both_of(h: Seq<Seq<Seq<char>>>, a: Seq<char>, b: Seq<char>) -> nat {
    count_if(h, |s: Seq<Seq<char>>| s.contains(a) && s.contains(b))
}

/// Selections that pick `a` and not `b`.
pub open spec fn only_a_of(h: Seq<Seq<Seq<char>>>, a: Seq<char>, b: Seq<char>) -> nat {
    count_if(h, |s: Seq<Seq<char>>| s.contains(a) && !s.contains(b))
}

/// Selections that pick `b` and not `a`.
pub open spec fn only_b_of(h: Seq<Seq<Seq<char>>>, a: Seq<char>, b: Seq<char>) -> nat {
    count_if(h, |s: Seq<Seq<char>>| !s.contains(a) && s.contains(b))
}

/// Selections that pick neither `a` nor `b`.
pub open spec fn neither_of(h: Seq<Seq<Seq<char>>>, a: Seq<char>, b: Seq<char>) -> nat {
    count_if(h, |s: Seq<Seq<char>>| !s.contains(a) && !s.contains(b))
}

/// Selections that pick `a` or `b`.
pub open spec fn either_of(h: Seq<Seq<Seq<char>>>, a: Seq<char>, b: Seq<char>) -> nat {
    count_if(h, |s: Seq<Seq<char>>| s.contains(a) || s.contains(b))
}

proof fn lemma_count_push(
    h: Seq<Seq<Seq<char>>>,
    x: Seq<Seq<char>>,
    f: spec_fn(Seq<Seq<char>>) -> bool,
)
    ensures
        count_if(h.push(x), f) == count_if(h, f) + (if f(x) { 1nat } else { 0nat }),
{
    assert(h.push(x).drop_last() =~= h);
}

/// The four cells of a pair add up to the number of selections.
pub proof fn lemma_cells_partition(h: Seq<Seq<Seq<char>>>, a: Seq<char>, b: Seq<char>)
    ensures
        both_of(h, a, b) + only_a_of(h, a, b) + only_b_of(h, a, b) == either_of(h, a, b),
        either_of(h, a, b) + neither_of(h, a, b) == h.len(),
    decreases h.len(),
{
    if h.len() > 0 {
        lemma_cells_partition(h.drop_last(), a, b);
    }
}

/// The working counters of one pair `(a, b)`, where `a` is ranked below `b`.
#[derive(Clone, Copy, Debug, PartialEq, Eq, Structural)]
pub struct PairCell {
    /// Ballots that picked both.
    pub both: i64,
    /// Ballots that picked only `a`.
    pub only_a: i64,
    /// Ballots that picked only `b`.
    pub only_b: i64,
    /// Minus the number of ballots that picked `a` or `b`: the ballots that
    /// picked neither, short of the number of all ballots.
    pub neither: i64,
}

/// The counters of the pair `(a, b)` hold what the selections `h` say.
pub open spec fn cell_is(c: PairCell, h: Seq<Seq<Seq<char>>>, a: Seq<char>, b: Seq<char>) -> bool {
    &&& c.both == both_of(h, a, b)
    &&& c.only_a == only_a_of(h, a, b)
    &&& c.only_b == only_b_of(h, a, b)
    &&& c.neither == -either_of(h, a, b)
}

/// A cell after the first pass over a ballot: for each of the two items
/// that the ballot picked, its "only" counter went up and "neither" down.
pub open spec fn marked(c: PairCell, a: bool, b: bool) -> PairCell {
    PairCell {
        both: c.both,
        only_a: (c.only_a + (if a { 1int } else { 0int })) as i64,
        only_b: (c.only_b + (if b { 1int } else { 0int })) as i64,
        neither: (c.neither - (if a { 1int } else { 0int }) - (if b { 1int } else { 0int })) as i64,
    }
}

/// A cell after the second pass: where the ballot picked both items, what
/// the first pass counted twice is set right.
pub open spec fn settled(c: PairCell, both: bool) -> PairCell {
    if both {
        PairCell {
            both: (c.both + 1) as i64,
            only_a: (c.only_a - 1) as i64,
            only_b: (c.only_b - 1) as i64,
            neither: (c.neither + 1) as i64,
        }
    } else {
        c
    }
}

/// Triangular rows: row `a` holds the pairs `(a, b)` with `b < a`.
pub open spec fn triangular(rows: Seq<Vec<PairCell>>, k: int) -> bool {
    &&& rows.len() == k
    &&& forall|a: int| 0 <= a < k ==> (#[trigger] rows[a]).len() == a
}

/// Every counter lies within `bound` of zero.
pub open spec fn bounded(rows: Seq<Vec<PairCell>>, bound: int) -> bool {
    forall|a: int, b: int| 0 <= b < a < rows.len() ==> {
        let c = #[trigger] rows[a][b];
        &&& -bound <= c.both <= bound
        &&& -bound <= c.only_a <= bound
        &&& -bound <= c.only_b <= bound
        &&& -bound <= c.neither <= bound
    }
}

/// The state of the first pass: the ranks in `done` are marked in full, the
/// rank `s` as far as `a_upto` in its own row and `b_upto` in its column.
pub open spec fn in_first_pass(
    rows: Seq<Vec<PairCell>>,
    base: Seq<Vec<PairCell>>,
    done: Seq<usize>,
    s: int,
    a_upto: int,
    b_upto: int,
) -> bool {
    &&& triangular(rows, base.len() as int)
    &&& triangular(base, base.len() as int)
    &&& forall|a: int, b: int| 0 <= b < a < base.len() ==> #[trigger] rows[a][b] == marked(
            base[a][b],
            done.contains(a as usize) || (a == s && b < a_upto),
            done.contains(b as usize) || (b == s && a < b_upto),
        )
}

/// The state of the second pass: the pairs in `q` are settled.
pub open spec fn in_second_pass(
    rows: Seq<Vec<PairCell>>,
    base: Seq<Vec<PairCell>>,
    sel: Seq<usize>,
    q: Seq<(usize, usize)>,
) -> bool {
    &&& triangular(rows, base.len() as int)
    &&& triangular(base, base.len() as int)
    &&& forall|a: int, b: int| 0 <= b < a < base.len() ==> #[trigger] rows[a][b] == settled(
            marked(base[a][b], sel.contains(a as usize), sel.contains(b as usize)),
            has_pair(q, a as usize, b as usize),
        )
}

/// First pass for one picked rank `s`: in every pair of `s`, the "only"
/// counter of `s` goes up and "neither" goes down.
fn mark_rank(
    rows: &mut Vec<Vec<PairCell>>,
    s: usize,
    Ghost(base): Ghost<Seq<Vec<PairCell>>>,
    Ghost(done): Ghost<Seq<usize>>,
)
    requires
        in_first_pass(old(rows)@, base, done, -1, 0, 0),
        bounded(base, u32::MAX as int),
        s < base.len(),
        !done.contains(s),
    ensures
        in_first_pass(final(rows)@, base, done.push(s), -1, 0, 0),
{
    let k = rows.len();
    let mut b: usize = 0;
    while b < s
        invariant
            k == base.len(),
            s < k,
            b <= s,
            !done.contains(s),
            bounded(base, u32::MAX as int),
            in_first_pass(rows@, base, done, s as int, b as int, 0),
        decreases s - b,
    {
        let ghost before = rows@;
        assert(before[s as int][b as int] == marked(base[s as int][b as int], false, done.contains(b)));
        rows[s][b].only_a += 1;
        rows[s][b].neither -= 1;
        proof {
            assert forall|x: int, y: int| 0 <= y < x < base.len() implies #[trigger] rows@[x][y] == marked(
                base[x][y],
                done.contains(x as usize) || (x == s && y < b + 1),
                done.contains(y as usize) || (y == s && x < 0),
            ) by {
                if x == s && y == b {
                } else {
                    assert(rows@[x][y] == before[x][y]);
                }
            }
        }
        b += 1;
    }
    let mut a: usize = s + 1;
    while a < k
        invariant
            k == base.len(),
            s < k,
            s < a <= k,
            !done.contains(s),
            bounded(base, u32::MAX as int),
            triangular(rows@, k as int),
            triangular(base, k as int),
            forall|x: int, y: int| 0 <= y < x < base.len() ==> #[trigger] rows@[x][y] == marked(
                base[x][y],
                done.contains(x as usize) || x == s,
                done.contains(y as usize) || (y == s && x < a),
            ),
        decreases k - a,
    {
        let ghost before = rows@;
        assert(before[a as int][s as int] == marked(base[a as int][s as int], done.contains(a), false));
        rows[a][s].only_b += 1;
        rows[a][s].neither -= 1;
        proof {
            assert forall|x: int, y: int| 0 <= y < x < base.len() implies #[trigger] rows@[x][y] == marked(
                base[x][y],
                done.contains(x as usize) || x == s,
                done.contains(y as usize) || (y == s && x < a + 1),
            ) by {
                if x == a && y == s {
                } else {
                    assert(rows@[x][y] == before[x][y]);
                }
            }
        }
        a += 1;
    }
    proof {
        let after = done.push(s);
        assert forall|v: usize| after.contains(v) <==> (done.contains(v) || v == s) by {
            if after.contains(v) {
                let i = choose|i: int| 0 <= i < after.len() && after[i] == v;
                if i < done.len() {
                    assert(done[i] == v);
                }
            }
            if done.contains(v) {
                let i = choose|i: int| 0 <= i < done.len() && done[i] == v;
                assert(after[i] == v);
            }
            if v == s {
                assert(after[done.len() as int] == v);
            }
        }
    }
}

/// Second pass: for every pair of picked ranks, what the first pass
/// counted twice is set right.
fn settle_pairs(
    rows: &mut Vec<Vec<PairCell>>,
    q: &Vec<(usize, usize)>,
    Ghost(base): Ghost<Seq<Vec<PairCell>>>,
    Ghost(sel): Ghost<Seq<usize>>,
)
    requires
        in_first_pass(old(rows)@, base, sel, -1, 0, 0),
        bounded(base, u32::MAX as int),
        distinct(sel),
        forall|i: int| 0 <= i < sel.len() ==> (#[trigger] sel[i]) < base.len(),
        q@ == all_pairs(sel),
    ensures
        in_second_pass(final(rows)@, base, sel, q@),
{
    let mut t: usize = 0;
    while t < q.len()
        invariant
            t <= q.len(),
            bounded(base, u32::MAX as int),
            distinct(sel),
            forall|i: int| 0 <= i < sel.len() ==> (#[trigger] sel[i]) < base.len(),
            q@ == all_pairs(sel),
            in_second_pass(rows@, base, sel, q@.take(t as int)),
        decreases q.len() - t,
    {
        let (x, y) = q[t];
        let ghost seen = q@.take(t as int);
        let ghost next = q@.take(t as int + 1);
        proof {
            assert(q@.contains((x, y)));
            lemma_all_pairs_members(sel, x, y);
            let i = choose|i: int| 0 <= i < sel.len() && sel[i] == x;
            let j = choose|j: int| 0 <= j < sel.len() && sel[j] == y;
            assert(sel[i] < base.len() && sel[j] < base.len());
            assert(!has_pair(seen, x, y)) by {
                if seen.contains((x, y)) {
                    let u = choose|u: int| 0 <= u < seen.len() && seen[u] == (x, y);
                    lemma_all_pairs_once(sel, u, t as int);
                }
                if seen.contains((y, x)) {
                    let u = choose|u: int| 0 <= u < seen.len() && seen[u] == (y, x);
                    lemma_all_pairs_once(sel, u, t as int);
                }
            }
            assert forall|p: (usize, usize)| next.contains(p) <==> (seen.contains(p) || p == (x, y)) by {
                if next.contains(p) {
                    let u = choose|u: int| 0 <= u < next.len() && next[u] == p;
                    if u < t {
                        assert(seen[u] == p);
                    }
                }
                if seen.contains(p) {
                    let u = choose|u: int| 0 <= u < seen.len() && seen[u] == p;
                    assert(next[u] == p);
                }
                if p == (x, y) {
                    assert(next[t as int] == p);
                }
            }
        }
        let (a, b) = if x >= y {
            (x, y)
        } else {
            (y, x)
        };
        let ghost before = rows@;
        assert(before[a as int][b as int]
            == settled(marked(base[a as int][b as int], sel.contains(a), sel.contains(b)), false));
        rows[a][b].both += 1;
        rows[a][b].neither += 1;
        rows[a][b].only_a -= 1;
        rows[a][b].only_b -= 1;
        proof {
            assert forall|u: int, v: int| 0 <= v < u < base.len() implies #[trigger] rows@[u][v] == settled(
                marked(base[u][v], sel.contains(u as usize), sel.contains(v as usize)),
                has_pair(next, u as usize, v as usize),
            ) by {
                assert(next.contains((u as usize, v as usize))
                    <==> (seen.contains((u as usize, v as usize)) || (u as usize, v as usize) == (
                    x,
                    y,
                )));
                assert(next.contains((v as usize, u as usize))
                    <==> (seen.contains((v as usize, u as usize)) || (v as usize, u as usize) == (
                    x,
                    y,
                )));
                if u == a && v == b {
                } else {
                    assert(rows@[u][v] == before[u][v]);
                }
            }
        }
        t += 1;
    }
    proof {
        assert(q@.take(q.len() as int) =~= q@);
    }
}

/// The names picked, in order.
pub open spec fn pick_names(picks: Seq<Pick>) -> Seq<Seq<char>> {
    Seq::new(picks.len(), |i: int| picks[i].name@)
}

fn holds(v: &Vec<usize>, x: usize) -> (r: bool)
    ensures
        r == v@.contains(x),
{
    let mut i: usize = 0;
    while i < v.len()
        invariant
            i <= v.len(),
            forall|k: int| 0 <= k < i ==> v[k] != x,
        decreases v.len() - i,
    {
        if v[i] == x {
            return true;
        }
        i += 1;
    }
    false
}

/// The pairwise tables of the top-ranked items, kept ballot by ballot.
pub struct Covote {
    names: Vec<String>,
    ranks: StringHashMap<usize>,
    rows: Vec<Vec<PairCell>>,
    total: u32,
    history: Ghost<Seq<Seq<Seq<char>>>>,
}

impl View for Covote {
    type V = Seq<Seq<Seq<char>>>;

    /// The selections counted so far, in order.
    closed spec fn view(&self) -> Seq<Seq<Seq<char>>> {
        self.history@
    }
}

impl Covote {
    /// The items whose pairs are analyzed, in rank order.
    pub closed spec fn names(&self) -> Seq<Seq<char>> {
        texts(self.names@)
    }

    spec fn ranks_ok(&self) -> bool {
        &&& forall|n: Seq<char>| #[trigger] self.ranks@.contains_key(n)
            ==> self.ranks@[n] < self.names.len() && self.names[self.ranks@[n] as int]@ == n
        &&& forall|r: int| 0 <= r < self.names.len()
            ==> self.ranks@.contains_key(#[trigger] self.names[r]@) && self.ranks@[self.names[r]@] == r
    }

    /// The tables hold what the selections counted say.
    pub closed spec fn wf(&self) -> bool {
        &&& self.ranks_ok()
        &&& triangular(self.rows@, self.names.len() as int)
        &&& self.total == self.history@.len()
        &&& forall|a: int, b: int| 0 <= b < a < self.names.len()
            ==> cell_is(#[trigger] self.rows@[a][b], self.history@, self.names[a]@, self.names[b]@)
    }

    /// Empty tables for the given items; none if a name occurs twice.
    pub fn new(names: &Vec<String>) -> (r: Option<Covote>)
        ensures
            r.is_some() <==> distinct(texts(names@)),
            r.is_some() ==> r.unwrap().wf() && r.unwrap().names() == texts(names@)
                && r.unwrap()@ == Seq::<Seq<Seq<char>>>::empty(),
    {
        let mut own: Vec<String> = Vec::new();
        let mut ranks: StringHashMap<usize> = StringHashMap::new();
        let mut rows: Vec<Vec<PairCell>> = Vec::new();
        let mut r: usize = 0;
        while r < names.len()
            invariant
                r <= names.len(),
                own.len() == r,
                forall|i: int| 0 <= i < r ==> (#[trigger] own[i])@ == names[i]@,
                distinct(texts(names@).take(r as int)),
                forall|n: Seq<char>| #[trigger] ranks@.contains_key(n)
                    ==> ranks@[n] < r && names[ranks@[n] as int]@ == n,
                forall|i: int| 0 <= i < r ==> ranks@.contains_key(#[trigger] names[i]@) && ranks@[names[i]@] == i,
                triangular(rows@, r as int),
                forall|a: int, b: int| 0 <= b < a < r
                    ==> #[trigger] rows@[a][b] == (PairCell { both: 0, only_a: 0, only_b: 0, neither: 0 }),
            decreases names.len() - r,
        {
            if ranks.contains_key(names[r].as_str()) {
                proof {
                    let i = ranks@[names[r as int]@] as int;
                    assert(texts(names@)[i] == texts(names@)[r as int]);
                }
                return None;
            }
            proof {
                let was = texts(names@).take(r as int);
                let now = texts(names@).take(r as int + 1);
                assert forall|i: int, j: int| 0 <= i < j < now.len() implies
                    #[trigger] now[i] != #[trigger] now[j] by {
                    if j < r {
                        assert(was[i] != was[j]);
                    } else {
                        assert(ranks@.contains_key(names[i]@));
                    }
                }
            }
            ranks.insert(names[r].clone(), r);
            own.push(names[r].clone());
            let mut row: Vec<PairCell> = Vec::new();
            while row.len() < r
                invariant
                    row.len() <= r,
                    forall|b: int| 0 <= b < row.len()
                        ==> #[trigger] row[b] == (PairCell { both: 0, only_a: 0, only_b: 0, neither: 0 }),
                decreases r - row.len(),
            {
                row.push(PairCell { both: 0, only_a: 0, only_b: 0, neither: 0 });
            }
            rows.push(row);
            r += 1;
        }
        proof {
            assert(texts(names@).take(names.len() as int) =~= texts(names@));
            assert(texts(own@) =~= texts(names@));
        }
        let c = Covote { names: own, ranks, rows, total: 0, history: Ghost(Seq::empty()) };
        proof {
            assert forall|n: Seq<char>| #[trigger] c.ranks@.contains_key(n) implies
                c.ranks@[n] < c.names.len() && c.names[c.ranks@[n] as int]@ == n by {}
        }
        Some(c)
    }

    /// The ranks, each once, of the items that `picks` names.
    fn selected_ranks(&self, picks: &Vec<Pick>) -> (sel: Vec<usize>)
        requires
            self.ranks_ok(),
        ensures
            distinct(sel@),
            forall|i: int| 0 <= i < sel.len() ==> (#[trigger] sel[i]) < self.names.len(),
            forall|r: usize| r < self.names.len()
                ==> (sel@.contains(r) <==> pick_names(picks@).contains(self.names[r as int]@)),
    {
        let mut sel: Vec<usize> = Vec::new();
        let ghost chosen = pick_names(picks@);
        let mut i: usize = 0;
        while i < picks.len()
            invariant
                i <= picks.len(),
                self.ranks_ok(),
                chosen == pick_names(picks@),
                distinct(sel@),
                forall|k: int| 0 <= k < sel.len() ==> (#[trigger] sel[k]) < self.names.len(),
                forall|r: usize| r < self.names.len()
                    ==> (sel@.contains(r) <==> chosen.take(i as int).contains(self.names[r as int]@)),
            decreases picks.len() - i,
        {
            let ghost before = sel@;
            let ghost name = picks[i as int].name@;
            let found: Option<usize> = match self.ranks.get(picks[i].name.as_str()) {
                Some(r) => Some(*r),
                None => None,
            };
            let mut added = false;
            match found {
                Some(r) => {
                    if !holds(&sel, r) {
                        sel.push(r);
                        added = true;
                    }
                },
                None => {},
            }
            proof {
                let now = chosen.take(i as int + 1);
                let was = chosen.take(i as int);
                assert(chosen[i as int] == name);
                assert forall|n: Seq<char>| now.contains(n) <==> (was.contains(n) || n == name) by {
                    if now.contains(n) {
                        let k = choose|k: int| 0 <= k < now.len() && now[k] == n;
                        if k < i {
                            assert(was[k] == n);
                        }
                    }
                    if was.contains(n) {
                        let k = choose|k: int| 0 <= k < was.len() && was[k] == n;
                        assert(now[k] == n);
                    }
                    if n == name {
                        assert(now[i as int] == n);
                    }
                }
                assert forall|r: usize| sel@.contains(r) <==> (before.contains(r) || (added && found == Some(r))) by {
                    if sel@.contains(r) {
                        let k = choose|k: int| 0 <= k < sel.len() && sel[k] == r;
                        if k < before.len() {
                            assert(before[k] == r);
                        }
                    }
                    if before.contains(r) {
                        let k = choose|k: int| 0 <= k < before.len() && before[k] == r;
                        assert(sel[k] == r);
                    }
                    if added && found == Some(r) {
                        assert(sel[before.len() as int] == r);
                    }
                }
                assert forall|r: usize| r < self.names.len() implies (sel@.contains(r)
                    <==> now.contains(self.names[r as int]@)) by {
                    let nm = self.names[r as int]@;
                    assert(self.ranks@.contains_key(nm) && self.ranks@[nm] == r);
                    assert(now.contains(nm) <==> (was.contains(nm) || nm == name));
                    assert(before.contains(r) <==> was.contains(nm));
                    assert(sel@.contains(r) <==> (before.contains(r) || (added && found == Some(r))));
                    if nm == name {
                        assert(found == Some(r));
                    } else if found.is_some() {
                        assert(self.names[found.unwrap() as int]@ == name);
                    }
                }
            }
            i += 1;
        }
        proof {
            assert(chosen.take(picks.len() as int) =~= chosen);
        }
        sel
    }

    /// Counts one ballot that picked `picks`. The ballot is refused when
    /// `u32::MAX` ballots are counted already.
    pub fn add_picks(&mut self, picks: &Vec<Pick>) -> (r: Result<(), TallyError>)
        requires
            old(self).wf(),
        ensures
            final(self).wf(),
            final(self).names() == old(self).names(),
            old(self)@.len() >= u32::MAX
                ==> r == Err::<(), TallyError>(TallyError::TooManyVotes) && final(self)@ == old(self)@,
            old(self)@.len() < u32::MAX ==> r.is_ok() && final(self)@ == old(self)@.push(pick_names(picks@)),
    {
        if self.total == u32::MAX {
            return Err(TallyError::TooManyVotes);
        }
        let sel = self.selected_ranks(picks);
        let ghost base = self.rows@;
        let ghost h = self.history@;
        let ghost chosen = pick_names(picks@);
        proof {
            assert forall|a: int, b: int| 0 <= b < a < base.len() implies {
                let c = #[trigger] base[a][b];
                &&& -(u32::MAX as int) <= c.both <= u32::MAX as int
                &&& -(u32::MAX as int) <= c.only_a <= u32::MAX as int
                &&& -(u32::MAX as int) <= c.only_b <= u32::MAX as int
                &&& -(u32::MAX as int) <= c.neither <= u32::MAX as int
            } by {
                assert(cell_is(self.rows@[a][b], h, self.names[a]@, self.names[b]@));
                lemma_cells_partition(h, self.names[a]@, self.names[b]@);
            }
        }
        let mut i: usize = 0;
        while i < sel.len()
            invariant
                i <= sel.len(),
                base.len() == self.names.len(),
                bounded(base, u32::MAX as int),
                distinct(sel@),
                forall|k: int| 0 <= k < sel.len() ==> (#[trigger] sel[k]) < self.names.len(),
                in_first_pass(self.rows@, base, sel@.take(i as int), -1, 0, 0),
                self.names == old(self).names,
                self.ranks == old(self).ranks,
                self.total == old(self).total,
                self.history == old(self).history,
            decreases sel.len() - i,
        {
            proof {
                let done = sel@.take(i as int);
                if done.contains(sel[i as int]) {
                    let k = choose|k: int| 0 <= k < done.len() && done[k] == sel[i as int];
                    assert(sel[k] == sel[i as int]);
                }
                assert(done.push(sel[i as int]) =~= sel@.take(i as int + 1));
            }
            mark_rank(&mut self.rows, sel[i], Ghost(base), Ghost(sel@.take(i as int)));
            i += 1;
        }
        proof {
            assert(sel@.take(sel.len() as int) =~= sel@);
        }
        let q = pairs_of(&sel);
        settle_pairs(&mut self.rows, &q, Ghost(base), Ghost(sel@));
        self.total += 1;
        self.history = Ghost(h.push(chosen));
        proof {
            assert forall|a: int, b: int| 0 <= b < a < self.names.len() implies cell_is(
                #[trigger] self.rows@[a][b],
                self.history@,
                self.names[a]@,
                self.names[b]@,
            ) by {
                let na = self.names[a]@;
                let nb = self.names[b]@;
                lemma_all_pairs_members(sel@, a as usize, b as usize);
                assert(sel@.contains(a as usize) <==> chosen.contains(na));
                assert(sel@.contains(b as usize) <==> chosen.contains(nb));
                assert(cell_is(base[a][b], h, na, nb));
                lemma_cells_partition(h, na, nb);
                lemma_count_push(h, chosen, |s: Seq<Seq<char>>| s.contains(na) && s.contains(nb));
                lemma_count_push(h, chosen, |s: Seq<Seq<char>>| s.contains(na) && !s.contains(nb));
                lemma_count_push(h, chosen, |s: Seq<Seq<char>>| !s.contains(na) && s.contains(nb));
                lemma_count_push(h, chosen, |s: Seq<Seq<char>>| s.contains(na) || s.contains(nb));
            }
        }
        Ok(())
    }
}

/// The parts of the chi-square statistic of a pair: the statistic is
/// `n * det * det / den`.
#[derive(Clone, Copy, Debug, PartialEq, Eq, Structural)]
pub struct ChiSquare {
    /// Number of ballots.
    pub n: u32,
    /// `m00 * m11 - m01 * m10`.
    pub det: i128,
    /// `(m00 + m10) * (m00 + m01) * (m11 + m10) * (m11 + m01)`, or one where
    /// that is zero.
    pub den: u128,
}

/// The contingency table of one pair of items, `a` ranked below `b`, and
/// what is derived from it.
#[derive(Clone, Debug)]
pub struct CovoteItem {
    pub a: String,
    pub b: String,
    /// Chi-square statistic.
    pub cs: ChiSquare,
    /// Mutual-information ratio: `m00 * n` over `(m00 + m01) * (m00 + m10)`.
    pub mi: Ratio,
    /// Co-vote rate: `m11` over `m11 + m01 + m10`.
    pub cv: Ratio,
    /// Ballots that picked neither.
    pub m00: u32,
    /// Ballots that picked only `b`.
    pub m01: u32,
    /// Ballots that picked only `a`.
    pub m10: u32,
    /// Ballots that picked both.
    pub m11: u32,
}

/// The answer to a covote request: the table of every pair.
#[derive(Clone, Debug)]
pub struct CovoteResponse {
    pub items: Vec<CovoteItem>,
}

/// The statistics derived from a contingency table over `n` ballots.
pub open spec fn chi_square_of(m00: int, m01: int, m10: int, m11: int, n: int) -> ChiSquare {
    let den = (m00 + m10) * (m00 + m01) * (m11 + m10) * (m11 + m01);
    ChiSquare { n: n as u32, det: (m00 * m11 - m01 * m10) as i128, den: if den == 0 { 1 } else { den as u128 } }
}

/// The mutual-information ratio of a contingency table over `n` ballots.
pub open spec fn mutual_info_of(m00: int, m01: int, m10: int, n: int) -> Ratio {
    ratio(m00 * n, (m00 + m01) * (m00 + m10))
}

/// The co-vote rate of a contingency table.
pub open spec fn co_vote_rate_of(m01: int, m10: int, m11: int) -> Ratio {
    ratio(m11, m11 + m01 + m10)
}

/// `e` is the table of the pair `(a, b)` over the selections `h`.
pub open spec fn covote_item_ok(
    e: CovoteItem,
    h: Seq<Seq<Seq<char>>>,
    a: Seq<char>,
    b: Seq<char>,
) -> bool {
    let m00 = neither_of(h, a, b) as int;
    let m01 = only_b_of(h, a, b) as int;
    let m10 = only_a_of(h, a, b) as int;
    let m11 = both_of(h, a, b) as int;
    &&& e.a@ == a
    &&& e.b@ == b
    &&& e.m00 == m00
    &&& e.m01 == m01
    &&& e.m10 == m10
    &&& e.m11 == m11
    &&& e.cs == chi_square_of(m00, m01, m10, m11, h.len() as int)
    &&& e.mi == mutual_info_of(m00, m01, m10, h.len() as int)
    &&& e.cv == co_vote_rate_of(m01, m10, m11)
}

proof fn lemma_product_bound(x: int, y: int, bx: int, by: int)
    requires
        0 <= x <= bx,
        0 <= y <= by,
    ensures
        0 <= x * y <= bx * by,
{
    assert(0 <= x * y <= bx * by) by (nonlinear_arith)
        requires
            0 <= x <= bx,
            0 <= y <= by,
    ;
}

/// The statistics of a contingency table whose cells add up to `n`.
pub fn covote_item(
    a: String,
    b: String,
    m00: u32,
    m01: u32,
    m10: u32,
    m11: u32,
    n: u32,
) -> (e: CovoteItem)
    requires
        m00 + m01 + m10 + m11 == n,
    ensures
        e.a == a,
        e.b == b,
        e.m00 == m00,
        e.m01 == m01,
        e.m10 == m10,
        e.m11 == m11,
        e.cs == chi_square_of(m00 as int, m01 as int, m10 as int, m11 as int, n as int),
        e.mi == mutual_info_of(m00 as int, m01 as int, m10 as int, n as int),
        e.cv == co_vote_rate_of(m01 as int, m10 as int, m11 as int),
{
    let ghost big = u32::MAX as int;
    proof {
        lemma_product_bound(m00 as int, m11 as int, big, big);
        lemma_product_bound(m01 as int, m10 as int, big, big);
        lemma_product_bound(m00 as int, n as int, big, big);
        lemma_product_bound((m00 + m01) as int, (m00 + m10) as int, big, big);
        lemma_product_bound((m00 + m10) as int, (m00 + m01) as int, big, big);
        lemma_product_bound((m11 + m10) as int, (m11 + m01) as int, big, big);
        lemma_product_bound((m00 + m10) * (m00 + m01), (m11 + m10) * (m11 + m01), big * big, big * big);
        assert((m00 + m10) * (m00 + m01) * (m11 + m10) * (m11 + m01)
            == ((m00 + m10) * (m00 + m01)) * ((m11 + m10) * (m11 + m01)))
            by (nonlinear_arith);
        assert(big * big == 0xFFFF_FFFE_0000_0001);
        assert((big * big) * (big * big) < 0x1_0000_0000_0000_0000_0000_0000_0000_0000) by (nonlinear_arith)
            requires
                big * big == 0xFFFF_FFFE_0000_0001,
        ;
    }
    let det: i128 = (m00 as i128) * (m11 as i128) - (m01 as i128) * (m10 as i128);
    let left: u128 = (m00 as u128 + m10 as u128) * (m00 as u128 + m01 as u128);
    let right: u128 = (m11 as u128 + m10 as u128) * (m11 as u128 + m01 as u128);
    let den: u128 = left * right;
    let mi_num: u64 = (m00 as u64) * (n as u64);
    let mi_den: u64 = (m00 as u64 + m01 as u64) * (m00 as u64 + m10 as u64);
    CovoteItem {
        a,
        b,
        cs: ChiSquare { n, det, den: if den == 0 { 1 } else { den } },
        mi: Ratio::guarded(mi_num, mi_den),
        cv: Ratio::guarded(m11 as u64, m11 as u64 + m01 as u64 + m10 as u64),
        m00,
        m01,
        m10,
        m11,
    }
}

/// The pairs `(a, b)` of ranks with `b < a < k`, row by row.
pub open spec fn pair_list(k: int) -> Seq<(int, int)>
    decreases k,
{
    if k <= 0 {
        Seq::empty()
    } else {
        pair_list(k - 1) + Seq::new((k - 1) as nat, |b: int| (k - 1, b))
    }
}

/// The number of pairs among `k` items: `0 + 1 + ... + (k - 1)`.
pub open spec fn triangle(k: int) -> int
    decreases k,
{
    if k <= 0 {
        0
    } else {
        triangle(k - 1) + (k - 1)
    }
}

/// The triangular numbers: among `k` items there are `k (k - 1) / 2` pairs.
pub proof fn lemma_triangle_formula(k: int)
    requires
        k >= 0,
    ensures
        2 * triangle(k) == k * (k - 1),
    decreases k,
{
    if k > 0 {
        lemma_triangle_formula(k - 1);
        let t = triangle(k - 1);
        let m = k - 1;
        assert(2 * (t + m) == k * (k - 1)) by (nonlinear_arith)
            requires
                2 * t == m * (m - 1),
                k == m + 1,
        ;
    } else {
        assert(k * (k - 1) == 0) by (nonlinear_arith)
            requires
                k == 0,
        ;
    }
}

proof fn lemma_triangle_grows(a: int, k: int)
    requires
        0 <= a <= k,
    ensures
        0 <= triangle(a) <= triangle(k),
    decreases k,
{
    if a < k {
        lemma_triangle_grows(a, k - 1);
    } else if k > 0 {
        lemma_triangle_grows(a - 1, k - 1);
    }
}

/// The pairs are laid out by triangular numbers: there are `triangle(k)` of
/// them, and the pair `(a, b)` stands at position `triangle(a) + b`.
pub proof fn lemma_pair_position(k: int, a: int, b: int)
    requires
        0 <= b < a < k,
    ensures
        pair_list(k).len() == triangle(k),
        pair_list(k)[triangle(a) + b] == (a, b),
    decreases k,
{
    lemma_pair_count(k);
    lemma_pair_count(k - 1);
    let row = Seq::new((k - 1) as nat, |b: int| (k - 1, b));
    if a < k - 1 {
        lemma_pair_position(k - 1, a, b);
        lemma_triangle_grows(a + 1, k - 1);
        lemma_triangle_grows(a, a);
        assert(triangle(a + 1) == triangle(a) + a);
        assert(0 <= triangle(a) + b < pair_list(k - 1).len());
        assert(pair_list(k) == pair_list(k - 1) + row);
        assert(pair_list(k)[triangle(a) + b] == pair_list(k - 1)[triangle(a) + b]);
    } else {
        lemma_triangle_grows(a, a);
        assert(pair_list(k) == pair_list(k - 1) + row);
        assert(pair_list(k)[triangle(a) + b] == row[b]);
    }
}

/// Among `k` items there are `triangle(k)` pairs.
pub proof fn lemma_pair_count(k: int)
    ensures
        pair_list(k).len() == triangle(k),
    decreases k,
{
    if k > 0 {
        lemma_pair_count(k - 1);
    }
}

/// `items` holds the table of every pair of `names` over the selections
/// `h`: row by row, the pairs of each item with the items ranked above it.
pub open spec fn covote_ok(
    items: Seq<CovoteItem>,
    h: Seq<Seq<Seq<char>>>,
    names: Seq<Seq<char>>,
) -> bool {
    let pairs = pair_list(names.len() as int);
    &&& items.len() == pairs.len()
    &&& forall|i: int| 0 <= i < items.len()
        ==> covote_item_ok(#[trigger] items[i], h, names[pairs[i].0], names[pairs[i].1])
}

impl Covote {
    /// The tables of all pairs.
    pub fn items(&self) -> (items: Vec<CovoteItem>)
        requires
            self.wf(),
        ensures
            covote_ok(items@, self@, self.names()),
    {
        let k = self.names.len();
        let ghost h = self.history@;
        let ghost names = texts(self.names@);
        let mut items: Vec<CovoteItem> = Vec::new();
        let mut a: usize = 0;
        while a < k
            invariant
                a <= k,
                k == self.names.len(),
                self.wf(),
                h == self.history@,
                names == texts(self.names@),
                items.len() == pair_list(a as int).len(),
                forall|i: int| 0 <= i < items.len() ==> covote_item_ok(
                    #[trigger] items[i],
                    h,
                    names[pair_list(a as int)[i].0],
                    names[pair_list(a as int)[i].1],
                ),
                forall|i: int| 0 <= i < pair_list(a as int).len()
                    ==> 0 <= (#[trigger] pair_list(a as int)[i]).1 < pair_list(a as int)[i].0 < a,
            decreases k - a,
        {
            let ghost start = items.len() as int;
            let ghost done = pair_list(a as int);
            let mut b: usize = 0;
            while b < a
                invariant
                    b <= a,
                    a < k,
                    k == self.names.len(),
                    self.wf(),
                    h == self.history@,
                    names == texts(self.names@),
                    start == done.len(),
                    done == pair_list(a as int),
                    items.len() == start + b,
                    forall|i: int| 0 <= i < start
                        ==> covote_item_ok(#[trigger] items[i], h, names[done[i].0], names[done[i].1]),
                    forall|j: int| 0 <= j < b
                        ==> covote_item_ok(#[trigger] items[start + j], h, names[a as int], names[j]),
                decreases a - b,
            {
                let c = self.rows[a][b];
                proof {
                    assert(cell_is(self.rows@[a as int][b as int], h, self.names[a as int]@, self.names[b as int]@));
                    lemma_cells_partition(h, self.names[a as int]@, self.names[b as int]@);
                }
                let m00: u32 = (self.total as i64 + c.neither) as u32;
                let e = covote_item(self.names[a].clone(), self.names[b].clone(), m00, c.only_b as u32,
                    c.only_a as u32, c.both as u32, self.total);
                items.push(e);
                b += 1;
            }
            proof {
                let next = pair_list(a as int + 1);
                let row = Seq::new(a as nat, |b: int| (a as int, b));
                assert(next == done + row);
                assert forall|i: int| 0 <= i < items.len() implies
                    covote_item_ok(#[trigger] items[i], h, names[next[i].0], names[next[i].1]) by {
                    if i < start {
                        assert(next[i] == done[i]);
                    } else {
                        assert(next[i] == row[i - start]);
                        assert(items[start + (i - start)] == items[i]);
                    }
                }
                assert forall|i: int| 0 <= i < next.len() implies 0 <= (#[trigger] next[i]).1 < next[i].0 < a + 1 by {
                    if i < start {
                        assert(next[i] == done[i]);
                    } else {
                        assert(next[i] == row[i - start]);
                    }
                }
            }
            a += 1;
        }
        items
    }
}

/// The selections of the ballots that submitted the section, in order.
pub open spec fn selections(section: Section, ballots: Seq<Ballot>) -> Seq<Seq<Seq<char>>>
    decreases ballots.len(),
{
    if ballots.len() == 0 {
        Seq::empty()
    } else {
        let rest = selections(section, ballots.drop_last());
        match submitted(ballots.last(), section) {
            Some(v) => rest.push(pick_names(v.picks@)),
            None => rest,
        }
    }
}

/// The tables of all pairs of `names` over the ballots that submitted the
/// section; an error when there are more than `u32::MAX` such ballots; none
/// when a name occurs twice.
pub fn covote(
    names: &Vec<String>,
    section: Section,
    ballots: &Vec<Ballot>,
) -> (r: Option<Result<CovoteResponse, TallyError>>)
    ensures
        r.is_some() <==> distinct(texts(names@)),
        r.is_some() ==> match r.unwrap() {
            Ok(resp) => selections(section, ballots@).len() <= u32::MAX
                && covote_ok(resp.items@, selections(section, ballots@), texts(names@)),
            Err(e) => selections(section, ballots@).len() > u32::MAX && e == TallyError::TooManyVotes,
        },
{
    let mut tables = match Covote::new(names) {
        Some(t) => t,
        None => {
            return None;
        },
    };
    let mut i: usize = 0;
    while i < ballots.len()
        invariant
            i <= ballots.len(),
            tables.wf(),
            tables.names() == texts(names@),
            tables@ == selections(section, ballots@.take(i as int)),
            tables@.len() <= u32::MAX,
        decreases ballots.len() - i,
    {
        proof {
            assert(ballots@.take(i as int + 1).drop_last() =~= ballots@.take(i as int));
            assert(ballots@.take(i as int + 1).last() == ballots@[i as int]);
        }
        let votes = match section {
            Section::Chars => &ballots[i].chars,
            Section::Musics => &ballots[i].musics,
        };
        match votes {
            Some(v) => {
                if v.picks.len() > 0 {
                    match tables.add_picks(&v.picks) {
                        Ok(()) => {},
                        Err(e) => {
                            proof {
                                lemma_selections_grow(section, ballots@, i as int + 1);
                            }
                            return Some(Err(e));
                        },
                    }
                }
            },
            None => {},
        }
        i += 1;
    }
    proof {
        assert(ballots@.take(ballots.len() as int) =~= ballots@);
    }
    Some(Ok(CovoteResponse { items: tables.items() }))
}

/// A longer list of ballots has no fewer selections.
proof fn lemma_selections_grow(section: Section, ballots: Seq<Ballot>, k: int)
    requires
        0 <= k <= ballots.len(),
    ensures
        selections(section, ballots.take(k)).len() <= selections(section, ballots).len(),
    decreases ballots.len(),
{
    if k == ballots.len() {
        assert(ballots.take(k) =~= ballots);
    } else {
        assert(ballots.drop_last().take(k) =~= ballots.take(k));
        lemma_selections_grow(section, ballots.drop_last(), k);
    }
}

/// `r` answers a covote request: an error for a number of items below
/// one; the error of the ranking if a ballot is refused; else the tables of
/// all pairs among the first `first_k` names of the ranking (all of them, if
/// there are fewer) over the ballots that submitted the section.
pub open spec fn covote_result_ok(
    r: Result<CovoteResponse, ServiceError>,
    section: Section,
    ballots: Seq<Ballot>,
    start: i64,
    catalog: Seq<PartialVoteItemEntry>,
    whole: bool,
    first_k: i32,
) -> bool {
    if first_k <= 0 {
        r.is_err() && r.unwrap_err()@ == invalid_k()
    } else {
        match tally_all(Seq::empty(), section, start, ballots) {
            Err(e) => r.is_err() && r.unwrap_err()@ == bare_error(SERVICE_NAME@, tally_error_kind(e)),
            Ok(h) => {
                let listed = listed_names(h, catalog, whole);
                let k = if listed.len() < first_k { listed.len() as int } else { first_k as int };
                let chosen = selections(section, ballots);
                if chosen.len() > u32::MAX {
                    r.is_err() && r.unwrap_err()@
                        == bare_error(SERVICE_NAME@, tally_error_kind(TallyError::TooManyVotes))
                } else {
                    r.is_ok() && covote_ok(r.unwrap().items@, chosen, listed.take(k))
                }
            },
        }
    }
}

/// The pairwise tables of the top items of one section.
pub fn item_covote(
    section: Section,
    ballots: &Vec<Ballot>,
    vote_start: i64,
    catalog: &Vec<PartialVoteItemEntry>,
    empty_query: bool,
    first_k: i32,
) -> (r: Result<CovoteResponse, ServiceError>)
    ensures
        covote_result_ok(r, section, ballots@, vote_start, catalog@, empty_query, first_k),
{
    if first_k <= 0 {
        return Err(invalid_k_error());
    }
    let ranking = match item_ranking(section, ballots, vote_start, catalog, empty_query) {
        Ok(resp) => resp,
        Err(e) => {
            return Err(e);
        },
    };
    let ghost listed = entry_names(ranking.entries@);
    let k = if ranking.entries.len() < first_k as usize {
        ranking.entries.len()
    } else {
        first_k as usize
    };
    let mut names: Vec<String> = Vec::new();
    let mut i: usize = 0;
    while i < k
        invariant
            i <= k,
            k <= ranking.entries.len(),
            listed == entry_names(ranking.entries@),
            names.len() == i,
            forall|j: int| 0 <= j < i ==> (#[trigger] names[j])@ == listed[j],
        decreases k - i,
    {
        names.push(ranking.entries[i].name.clone());
        i += 1;
    }
    proof {
        assert(texts(names@) =~= listed.take(k as int));
        assert(distinct(listed.take(k as int))) by {
            assert forall|x: int, y: int| 0 <= x < y < listed.take(k as int).len() implies
                #[trigger] listed.take(k as int)[x]
                != #[trigger] listed.take(k as int)[y] by {
                assert(listed[x] != listed[y]);
            }
        }
    }
    // A ranking lists no name twice, so the tables exist.
    match covote(&names, section, ballots).unwrap() {
        Ok(resp) => Ok(resp),
        Err(e) => Err(tally_error(e)),
    }
}

/// The pairwise tables of the top characters.
pub fn chars_covote(
    ballots: &Vec<Ballot>,
    vote_start: i64,
    catalog: &Vec<PartialVoteItemEntry>,
    empty_query: bool,
    first_k: i32,
) -> (r: Result<CovoteResponse, ServiceError>)
    ensures
        covote_result_ok(r, Section::Chars, ballots@, vote_start, catalog@, empty_query, first_k),
{
    item_covote(Section::Chars, ballots, vote_start, catalog, empty_query, first_k)
}

/// The pairwise tables of the top pieces of music.
pub fn musics_covote(
    ballots: &Vec<Ballot>,
    vote_start: i64,
    catalog: &Vec<PartialVoteItemEntry>,
    empty_query: bool,
    first_k: i32,
) -> (r: Result<CovoteResponse, ServiceError>)
    ensures
        covote_result_ok(r, Section::Musics, ballots@, vote_start, catalog@, empty_query, first_k),
{
    item_covote(Section::Musics, ballots, vote_start, catalog, empty_query, first_k)
}

} // verus!
