//! The rows of the cache: answers under the key of their filter and the
//! year of the poll. A row is written once and never changed.

use vstd::prelude::*;
use vstd::string::StringExecFns;
use crate::covote::{CovoteItem, CovoteResponse};
use crate::cps::{CPRankingEntry, CPRankingQueryResponse};
use crate::models::{RankingEntry, RankingGlobal, RankingQueryResponse};

verus! {

/// One entry of a cached character or music ranking.
#[derive(Clone, Debug)]
pub struct CachedRankingEntry {
    pub key: String,
    pub vote_year: i32,
    pub entry: RankingEntry,
}

/// One entry of a cached pairing ranking.
#[derive(Clone, Debug)]
pub struct CachedCPRankingEntry {
    pub key: String,
    pub vote_year: i32,
    pub entry: CPRankingEntry,
}

/// The summary of a cached ranking.
#[derive(Clone, Debug)]
pub struct CachedRankingGlobal {
    pub key: String,
    pub vote_year: i32,
    pub global: RankingGlobal,
}

/// The cached pairwise tables of the top `first_k` items.
#[derive(Clone, Debug)]
pub struct CachedCovote {
    pub key: String,
    pub vote_year: i32,
    pub first_k: i32,
    pub items: Vec<CovoteItem>,
}

/// The elements of a list in reverse order.
fn reversed<T>(v: Vec<T>) -> (r: Vec<T>)
    ensures
        r@.len() == v@.len(),
        forall|i: int| 0 <= i < v@.len() ==> #[trigger] r@[i] == v@[v@.len() - 1 - i],
{
    let mut v = v;
    let ghost all = v@;
    let mut r: Vec<T> = Vec::new();
    while v.len() > 0
        invariant
            v@ == all.take(v.len() as int),
            r.len() + v.len() == all.len(),
            forall|i: int| 0 <= i < r.len() ==> #[trigger] r@[i] == all[all.len() - 1 - i],
        decreases v.len(),
    {
        let x = v.pop().unwrap();
        r.push(x);
        proof {
            assert(v@ =~= all.take(v.len() as int));
        }
    }
    r
}

/// The rows under which a ranking is cached: one for each entry, in order,
/// and one for the summary.
pub fn ranking_rows(
    resp: RankingQueryResponse,
    key: &str,
    vote_year: i32,
) -> (rows: (Vec<CachedRankingEntry>, CachedRankingGlobal))
    ensures
        rows.0@.len() == resp.entries@.len(),
        forall|i: int| 0 <= i < rows.0@.len()
            ==> (#[trigger] rows.0@[i]).entry == resp.entries@[i] && rows.0@[i].key@ == key@ && rows.0@[i].vote_year
            == vote_year,
        rows.1.key@ == key@,
        rows.1.vote_year == vote_year,
        rows.1.global == resp.global,
{
    let global = CachedRankingGlobal { key: String::from_str(key), vote_year, global: resp.global };
    let mut back = reversed(resp.entries);
    let ghost all = resp.entries@;
    let ghost n = all.len() as int;
    let mut out: Vec<CachedRankingEntry> = Vec::new();
    while back.len() > 0
        invariant
            n == all.len(),
            out.len() + back.len() == n,
            forall|i: int| 0 <= i < back.len() ==> #[trigger] back@[i] == all[n - 1 - i],
            forall|i: int| 0 <= i < out.len()
                ==> (#[trigger] out@[i]).entry == all[i] && out@[i].key@ == key@ && out@[i].vote_year == vote_year,
        decreases back.len(),
    {
        let ghost k = back.len() as int;
        let entry = back.pop().unwrap();
        proof {
            assert(entry == all[n - k]);
        }
        out.push(CachedRankingEntry { key: String::from_str(key), vote_year, entry });
    }
    (out, global)
}

/// The ranking that cached rows hold: the entries of the rows, in order,
/// and the summary.
pub fn cached_ranking(
    rows: Vec<CachedRankingEntry>,
    global: CachedRankingGlobal,
) -> (resp: RankingQueryResponse)
    ensures
        resp.global == global.global,
        resp.entries@.len() == rows@.len(),
        forall|i: int| 0 <= i < rows@.len() ==> #[trigger] resp.entries@[i] == rows@[i].entry,
{
    let mut back = reversed(rows);
    let ghost all = rows@;
    let ghost n = all.len() as int;
    let mut entries: Vec<RankingEntry> = Vec::new();
    while back.len() > 0
        invariant
            n == all.len(),
            entries.len() + back.len() == n,
            forall|i: int| 0 <= i < back.len() ==> #[trigger] back@[i] == all[n - 1 - i],
            forall|i: int| 0 <= i < entries.len() ==> #[trigger] entries@[i] == all[i].entry,
        decreases back.len(),
    {
        let ghost k = back.len() as int;
        let row = back.pop().unwrap();
        proof {
            assert(row == all[n - k]);
        }
        entries.push(row.entry);
    }
    RankingQueryResponse { entries, global: global.global }
}

/// The rows under which a pairing ranking is cached.
pub fn cps_rows(
    resp: CPRankingQueryResponse,
    key: &str,
    vote_year: i32,
) -> (rows: (Vec<CachedCPRankingEntry>, CachedRankingGlobal))
    ensures
        rows.0@.len() == resp.entries@.len(),
        forall|i: int| 0 <= i < rows.0@.len()
            ==> (#[trigger] rows.0@[i]).entry == resp.entries@[i] && rows.0@[i].key@ == key@ && rows.0@[i].vote_year
            == vote_year,
        rows.1.key@ == key@,
        rows.1.vote_year == vote_year,
        rows.1.global == resp.global,
{
    let global = CachedRankingGlobal { key: String::from_str(key), vote_year, global: resp.global };
    let mut back = reversed(resp.entries);
    let ghost all = resp.entries@;
    let ghost n = all.len() as int;
    let mut out: Vec<CachedCPRankingEntry> = Vec::new();
    while back.len() > 0
        invariant
            n == all.len(),
            out.len() + back.len() == n,
            forall|i: int| 0 <= i < back.len() ==> #[trigger] back@[i] == all[n - 1 - i],
            forall|i: int| 0 <= i < out.len()
                ==> (#[trigger] out@[i]).entry == all[i] && out@[i].key@ == key@ && out@[i].vote_year == vote_year,
        decreases back.len(),
    {
        let ghost k = back.len() as int;
        let entry = back.pop().unwrap();
        proof {
            assert(entry == all[n - k]);
        }
        out.push(CachedCPRankingEntry { key: String::from_str(key), vote_year, entry });
    }
    (out, global)
}

/// The pairing ranking that cached rows hold.
pub fn cached_cps_ranking(
    rows: Vec<CachedCPRankingEntry>,
    global: CachedRankingGlobal,
) -> (resp: CPRankingQueryResponse)
    ensures
        resp.global == global.global,
        resp.entries@.len() == rows@.len(),
        forall|i: int| 0 <= i < rows@.len() ==> #[trigger] resp.entries@[i] == rows@[i].entry,
{
    let mut back = reversed(rows);
    let ghost all = rows@;
    let ghost n = all.len() as int;
    let mut entries: Vec<CPRankingEntry> = Vec::new();
    while back.len() > 0
        invariant
            n == all.len(),
            entries.len() + back.len() == n,
            forall|i: int| 0 <= i < back.len() ==> #[trigger] back@[i] == all[n - 1 - i],
            forall|i: int| 0 <= i < entries.len() ==> #[trigger] entries@[i] == all[i].entry,
        decreases back.len(),
    {
        let ghost k = back.len() as int;
        let row = back.pop().unwrap();
        proof {
            assert(row == all[n - k]);
        }
        entries.push(row.entry);
    }
    CPRankingQueryResponse { entries, global: global.global }
}

/// The row under which the pairwise tables of the top `first_k` items are
/// cached.
pub fn covote_row(
    resp: CovoteResponse,
    key: &str,
    vote_year: i32,
    first_k: i32,
) -> (row: CachedCovote)
    ensures
        row.key@ == key@,
        row.vote_year == vote_year,
        row.first_k == first_k,
        row.items == resp.items,
{
    CachedCovote { key: String::from_str(key), vote_year, first_k, items: resp.items }
}

/// The pairwise tables that a cached row holds.
pub fn cached_covote(row: CachedCovote) -> (resp: CovoteResponse)
    ensures
        resp.items == row.items,
{
    CovoteResponse { items: row.items }
}

} // verus!
