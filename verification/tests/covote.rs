use result_query::ballot::{Ballot, ItemVotes, Pick, Section};
use result_query::covote::{chars_covote, covote, covote_item, musics_covote, ChiSquare, Covote};
use result_query::models::PartialVoteItemEntry;
use result_query::rank::Ratio;
use result_query::tally::TallyError;

fn ballot(names: &[&str]) -> Ballot {
    Ballot {
        demographic: vec!["1101101".to_string()],
        chars: Some(ItemVotes {
            picks: names.iter().map(|n| Pick { name: n.to_string(), reason: None }).collect(),
            first: None,
            created_at: 0,
        }),
        musics: None,
        cps: None,
        doujins: 0,
        papers: None,
    }
}

fn names(v: &[&str]) -> Vec<String> {
    v.iter().map(|s| s.to_string()).collect()
}

#[test]
fn three_ballots_one_of_each_kind() {
    let ballots = vec![ballot(&["X"]), ballot(&["Y"]), ballot(&["X", "Y"])];
    let resp = covote(&names(&["X", "Y"]), Section::Chars, &ballots).unwrap().unwrap();
    assert_eq!(resp.items.len(), 1);
    let item = &resp.items[0];
    assert_eq!((item.a.as_str(), item.b.as_str()), ("Y", "X"));
    assert_eq!((item.m11, item.m10, item.m01, item.m00), (1, 1, 1, 0));
    assert_eq!(item.cv, Ratio { num: 1, den: 3 });
    assert_eq!(item.cv.num as f64 / item.cv.den as f64, 1.0 / 3.0);
    assert_eq!(item.mi, Ratio { num: 0, den: 1 });
    assert_eq!(item.cs, ChiSquare { n: 3, det: -1, den: 4 });
}

#[test]
fn tables_match_a_direct_count() {
    let universe = ["A", "B", "C", "D", "E"];
    let picks: Vec<Vec<&str>> = vec![
        vec!["A", "C"],
        vec!["E", "D", "C", "B", "A"],
        vec!["B"],
        vec!["Z"],
        vec!["C", "C", "A"],
        vec!["D", "E"],
        vec!["E", "A", "Q"],
        vec!["B", "D", "A"],
    ];
    let ballots: Vec<Ballot> = picks.iter().map(|p| ballot(p)).collect();
    let resp = covote(&names(&universe), Section::Chars, &ballots).unwrap().unwrap();
    let mut i = 0;
    for a in 0..universe.len() {
        for b in 0..a {
            assert_eq!(i, a * (a - 1) / 2 + b);
            let item = &resp.items[i];
            i += 1;
            assert_eq!((item.a.as_str(), item.b.as_str()), (universe[a], universe[b]));
            let count = |wa: bool, wb: bool| {
                picks.iter().filter(|p| p.contains(&universe[a]) == wa && p.contains(&universe[b]) == wb).count() as u32
            };
            assert_eq!(item.m11, count(true, true));
            assert_eq!(item.m10, count(true, false));
            assert_eq!(item.m01, count(false, true));
            assert_eq!(item.m00, count(false, false));
            assert_eq!(item.cs.n, 8);
        }
    }
    assert_eq!(i, 10);
    assert_eq!(resp.items.len(), 10);
}

#[test]
fn derived_statistics_follow_the_formulas() {
    let item = covote_item("a".to_string(), "b".to_string(), 4, 3, 2, 1, 10);
    assert_eq!(item.cs, ChiSquare { n: 10, det: 4 * 1 - 3 * 2, den: (4 + 2) * (4 + 3) * (1 + 2) * (1 + 3) });
    assert_eq!(item.mi, Ratio { num: 40, den: (4 + 3) * (4 + 2) });
    assert_eq!(item.cv, Ratio { num: 1, den: 6 });
    let empty = covote_item("a".to_string(), "b".to_string(), 0, 0, 0, 0, 0);
    assert_eq!(empty.cv, Ratio { num: 0, den: 1 });
    assert_eq!(empty.mi, Ratio { num: 0, den: 1 });
    assert_eq!(empty.cs.den, 1);
}

#[test]
fn repeated_name_is_refused() {
    assert!(covote(&names(&["X", "Y", "X"]), Section::Chars, &vec![]).is_none());
    assert!(Covote::new(&names(&["X", "X"])).is_none());
    assert!(Covote::new(&names(&[])).is_some());
}

#[test]
fn add_picks_counts_ballot_by_ballot() {
    let mut tables = Covote::new(&names(&["X", "Y", "Z"])).unwrap();
    let picks = |v: &[&str]| v.iter().map(|n| Pick { name: n.to_string(), reason: None }).collect::<Vec<_>>();
    assert_eq!(tables.add_picks(&picks(&["Z", "X"])), Ok::<(), TallyError>(()));
    assert_eq!(tables.add_picks(&picks(&["Y"])), Ok(()));
    let items = tables.items();
    let got: Vec<(String, String, u32, u32, u32, u32)> =
        items.iter().map(|e| (e.a.clone(), e.b.clone(), e.m00, e.m01, e.m10, e.m11)).collect();
    assert_eq!(
        got,
        vec![
            ("Y".to_string(), "X".to_string(), 0, 1, 1, 0),
            ("Z".to_string(), "X".to_string(), 1, 0, 0, 1),
            ("Z".to_string(), "Y".to_string(), 0, 1, 1, 0),
        ]
    );
}

#[test]
fn covote_takes_the_top_of_the_ranking() {
    let ballots = vec![ballot(&["A", "B"]), ballot(&["A", "B", "C"]), ballot(&["A"]), ballot(&["D", "C"])];
    let resp = chars_covote(&ballots, 0, &vec![], false, 2).unwrap();
    assert_eq!(resp.items.len(), 1);
    let item = &resp.items[0];
    assert_eq!((item.a.as_str(), item.b.as_str()), ("B", "A"));
    assert_eq!((item.m00, item.m01, item.m10, item.m11), (1, 1, 0, 2));
    let all = chars_covote(&ballots, 0, &vec![], false, 100).unwrap();
    assert_eq!(all.items.len(), 6);
    let catalog = vec![PartialVoteItemEntry {
        vote_year: 1,
        name: "N".to_string(),
        kind: vec![],
        work: vec![],
        date: String::new(),
        origname: String::new(),
    }];
    let whole = chars_covote(&ballots, 0, &catalog, true, 100).unwrap();
    assert_eq!(whole.items.len(), 10);
    assert_eq!(whole.items[9].a, "N");
    assert_eq!((whole.items[9].m00, whole.items[9].m11), (3, 0));
    assert!(musics_covote(&ballots, 0, &vec![], false, 3).unwrap().items.is_empty());
}

#[test]
fn covote_refuses_k_below_one() {
    let err = chars_covote(&vec![], 0, &vec![], false, 0).unwrap_err();
    assert!(err.is_kind("INVALID_K"));
    assert!(chars_covote(&vec![], 0, &vec![], false, -3).unwrap_err().is_kind("INVALID_K"));
}
