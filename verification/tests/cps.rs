use result_query::ballot::{Ballot, CPItem, PairVotes};
use result_query::cps::{cps_ranking, PairTally};
use result_query::pairing::{active_tag, canonical_names, pair_key, representative, ACTIVE_FIRST, ACTIVE_NONE, ACTIVE_SECOND, ACTIVE_THIRD};
use result_query::rank::Ratio;

fn pair(a: &str, b: &str, c: Option<&str>, active: Option<&str>) -> CPItem {
    CPItem { a: a.to_string(), b: b.to_string(), c: c.map(|s| s.to_string()), active: active.map(|s| s.to_string()), reason: None }
}

fn ballot(picks: Vec<CPItem>, first: Option<CPItem>, at: i64, male: bool) -> Ballot {
    Ballot {
        demographic: vec![if male { "1101101".to_string() } else { "1101102".to_string() }],
        chars: None,
        musics: None,
        cps: Some(PairVotes { picks, first, created_at: at }),
        doujins: 0,
        papers: None,
    }
}

#[test]
fn swapped_partners_are_one_pairing() {
    let p = pair("X", "Y", None, Some("X"));
    let q = pair("Y", "X", None, Some("X"));
    let r = pair("X", "Y", None, Some("Y"));
    assert_eq!(pair_key(&p), pair_key(&q));
    assert_eq!(pair_key(&p), pair_key(&r));
    assert_eq!(pair_key(&p), "1:X1:Y");
    assert!(p.eq(&q) && q.eq(&p) && p.eq(&r) && p.eq(&p));
    assert!(!p.eq(&pair("X", "Z", None, Some("X"))));
    assert!(!p.eq(&pair("X", "Y", Some("Z"), None)));
    let resp = cps_ranking(&vec![ballot(vec![p], None, 0, true), ballot(vec![q], None, 0, true), ballot(vec![r], None, 0, false)], 0).unwrap();
    assert_eq!(resp.entries.len(), 1);
    let e = &resp.entries[0];
    assert_eq!((e.cp.a.as_str(), e.cp.b.as_str(), e.cp.c.clone()), ("X", "Y", None));
    assert_eq!(e.vote_count, 3);
    assert_eq!(e.a_active, Ratio { num: 2, den: 3 });
    assert_eq!(e.b_active, Ratio { num: 1, den: 3 });
    assert_eq!(e.c_active, Ratio { num: 0, den: 3 });
    assert_eq!(e.none_active, Ratio { num: 0, den: 3 });
    assert_eq!(e.male_vote_count, 2);
    assert_eq!(e.female_vote_count, 1);
}

#[test]
fn members_are_put_in_order() {
    let p = pair("c", "a", Some("b"), Some("c"));
    assert_eq!(canonical_names(&p), vec!["a".to_string(), "b".to_string(), "c".to_string()]);
    assert_eq!(pair_key(&p), "1:a1:b1:c");
    assert_eq!(active_tag(&p), ACTIVE_THIRD);
    assert_eq!(active_tag(&pair("c", "a", Some("b"), Some("a"))), ACTIVE_FIRST);
    assert_eq!(active_tag(&pair("c", "a", Some("b"), Some("b"))), ACTIVE_SECOND);
    assert_eq!(active_tag(&pair("c", "a", None, None)), ACTIVE_NONE);
    assert_eq!(active_tag(&pair("c", "a", None, Some("z"))), 4);
    let r = representative(&p);
    assert_eq!((r.a.as_str(), r.b.as_str(), r.c.as_deref(), r.active, r.reason), ("a", "b", Some("c"), None, None));
    assert_ne!(pair_key(&pair("a", "b", None, None)), pair_key(&pair("a", "b", Some(""), None)));
}

#[test]
fn names_with_any_characters_are_told_apart() {
    let sep = "\u{1f}";
    let joined = pair(&format!("X{}Y", sep), "Z", None, None);
    let trio = pair("X", "Y", Some("Z"), None);
    assert_ne!(pair_key(&joined), pair_key(&trio));
    assert!(!joined.eq(&trio));
    let framed = pair("1:Y", "X", None, None);
    assert_ne!(pair_key(&framed), pair_key(&pair("X", "Y", None, None)));
    assert_ne!(pair_key(&pair("X1:Y", "", None, None)), pair_key(&pair("X", "Y", None, None)));
    assert_eq!(pair_key(&pair("0123456789x", "", None, None)), "0:11:0123456789x");
    let ballots = vec![
        ballot(vec![joined.clone()], None, 0, true),
        ballot(vec![trio.clone()], None, 0, true),
        ballot(vec![pair("Z", "Y", Some("X"), None)], None, 0, true),
        ballot(vec![pair("Z", &format!("X{}Y", sep), None, None)], None, 0, true),
    ];
    let resp = cps_ranking(&ballots, 0).unwrap();
    let got: Vec<(String, String, Option<String>, u32)> =
        resp.entries.iter().map(|e| (e.cp.a.clone(), e.cp.b.clone(), e.cp.c.clone(), e.vote_count)).collect();
    assert_eq!(
        got,
        vec![
            (format!("X{}Y", sep), "Z".to_string(), None, 2),
            ("X".to_string(), "Y".to_string(), Some("Z".to_string()), 2),
        ]
    );
}

#[test]
fn pairing_with_a_single_vote_is_left_out() {
    let ballots = vec![
        ballot(vec![pair("A", "B", None, None), pair("C", "D", None, None)], Some(pair("B", "A", None, None)), 0, true),
        ballot(vec![pair("B", "A", None, None), pair("E", "F", None, None)], None, 3_600_000, false),
        ballot(vec![pair("F", "E", None, None), pair("A", "B", Some("C"), None)], Some(pair("E", "F", None, None)), 0, false),
        ballot(vec![pair("E", "F", None, None)], Some(pair("F", "E", None, None)), 0, false),
    ];
    let resp = cps_ranking(&ballots, 0).unwrap();
    let got: Vec<(String, usize, usize, u32, u32)> =
        resp.entries.iter().map(|e| (format!("{}+{}", e.cp.a, e.cp.b), e.rank, e.display_rank, e.vote_count, e.first_vote_count)).collect();
    assert_eq!(got, vec![("E+F".to_string(), 1, 1, 3, 2), ("A+B".to_string(), 2, 2, 2, 1)]);
    assert_eq!(resp.global.total_unique_items, 2);
    assert_eq!(resp.global.total_votes, 5);
    assert_eq!(resp.global.total_first, 3);
    assert_eq!(resp.global.average_votes_per_item, Ratio { num: 5, den: 2 });
    assert_eq!(resp.global.median_votes_per_item, Ratio { num: 5, den: 2 });
    assert_eq!(resp.entries[1].trend.iter().map(|t| (t.hrs, t.cnt)).collect::<Vec<_>>(), vec![(0, 1), (1, 1)]);
    assert_eq!(resp.entries[0].none_active, Ratio { num: 3, den: 3 });
    assert_eq!(resp.entries[0].vote_percentage, Ratio { num: 3, den: 5 });
    assert_eq!(resp.entries[1].vote_percentage, Ratio { num: 2, den: 5 });
    assert_eq!(resp.entries[0].first_percentage, Ratio { num: 2, den: 3 });
    assert_eq!(resp.entries[0].female_percentage_per_total, Ratio { num: 3, den: 4 });
    assert_eq!(resp.entries[1].male_percentage_per_total, Ratio { num: 1, den: 1 });
}

#[test]
fn pair_tally_counts_ballot_by_ballot() {
    let mut tally = PairTally::new(0);
    assert!(tally.add_ballot(&ballot(vec![pair("A", "B", None, None)], None, 0, true)).is_ok());
    assert!(tally.add_ballot(&ballot(vec![], None, -5, true)).is_ok());
    assert!(tally.add_ballot(&ballot(vec![pair("A", "B", None, None)], None, -5, true)).is_err());
    assert!(tally.add_ballot(&ballot(vec![pair("B", "A", None, None)], None, 5, true)).is_ok());
    let resp = tally.ranking();
    assert_eq!(resp.entries.len(), 1);
    assert_eq!(resp.entries[0].vote_count, 2);
    let err = cps_ranking(&vec![ballot(vec![pair("A", "B", None, None)], None, 720 * 3_600_000, true)], 0).unwrap_err();
    assert!(err.is_kind("HOUR_OUT_OF_WINDOW"));
}

#[test]
fn one_ballot_naming_a_pairing_twice_does_not_rank_it() {
    let twice = ballot(vec![pair("X", "Y", None, None), pair("Y", "X", None, Some("Y"))], Some(pair("X", "Y", None, None)), 0, true);
    let resp = cps_ranking(&vec![twice.clone()], 0).unwrap();
    assert!(resp.entries.is_empty());
    assert_eq!(resp.global.total_unique_items, 0);
    assert_eq!(resp.global.total_votes, 0);
    assert_eq!(resp.global.total_first, 0);
    assert_eq!(resp.global.average_votes_per_item, Ratio { num: 0, den: 1 });
    assert_eq!(resp.global.median_votes_per_item, Ratio { num: 0, den: 1 });

    let resp = cps_ranking(&vec![twice, ballot(vec![pair("Y", "X", None, None)], None, 3_600_000, false)], 0).unwrap();
    assert_eq!(resp.entries.len(), 1);
    let e = &resp.entries[0];
    assert_eq!((e.cp.a.as_str(), e.cp.b.as_str()), ("X", "Y"));
    assert_eq!(e.vote_count, 3);
    assert_eq!(e.first_vote_count, 1);
    assert_eq!(e.male_vote_count, 2);
    assert_eq!(e.female_vote_count, 1);
    assert_eq!(e.b_active, Ratio { num: 1, den: 3 });
    assert_eq!(e.none_active, Ratio { num: 2, den: 3 });
    assert_eq!(e.trend.iter().map(|t| (t.hrs, t.cnt)).collect::<Vec<_>>(), vec![(0, 2), (1, 1)]);
    assert_eq!(resp.global.total_votes, 3);
}

#[test]
fn totals_are_taken_over_the_ranked_pairings() {
    let ballots = vec![
        ballot(vec![pair("X", "Y", None, None)], None, 0, true),
        ballot(vec![pair("X", "Y", None, None)], None, 0, false),
        ballot(vec![pair("P", "Q", None, None)], Some(pair("P", "Q", None, None)), 0, false),
    ];
    let resp = cps_ranking(&ballots, 0).unwrap();
    assert_eq!(resp.entries.len(), 1);
    assert_eq!(resp.global.total_unique_items, 1);
    assert_eq!(resp.global.total_votes, 2);
    assert_eq!(resp.global.total_first, 0);
    assert_eq!(resp.global.average_votes_per_item, Ratio { num: 2, den: 1 });
    assert_eq!(resp.global.median_votes_per_item, Ratio { num: 2, den: 1 });
    let e = &resp.entries[0];
    assert_eq!(e.vote_percentage, Ratio { num: 2, den: 2 });
    assert_eq!(e.first_percentage, Ratio { num: 0, den: 1 });
    assert_eq!(e.male_percentage_per_total, Ratio { num: 1, den: 1 });
    assert_eq!(e.female_percentage_per_total, Ratio { num: 1, den: 1 });
}
