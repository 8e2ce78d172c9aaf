use result_query::ballot::{hour_bucket, Ballot, ItemVotes, Pick, Section};
use result_query::catalog::kind_label;
use result_query::models::PartialVoteItemEntry;
use result_query::rank::{average, median, rank_items, rank_order, RankKey, Ratio};
use result_query::ranking::{chars_ranking, chars_reasons, chars_trend, musics_ranking, musics_reasons, musics_trend, rank_offset, ranking};
use result_query::tally::{Tally, TallyError};
const HOUR: i64 = 3_600_000;

fn ballot(names: &[&str], first: Option<&str>, at: i64, male: bool) -> Ballot {
    Ballot {
        demographic: vec![if male { "1101101".to_string() } else { "1101102".to_string() }],
        chars: Some(ItemVotes {
            picks: names.iter().map(|n| Pick { name: n.to_string(), reason: Some(format!("because {}", n)) }).collect(),
            first: first.map(|f| f.to_string()),
            created_at: at,
        }),
        musics: None,
        cps: None,
        doujins: 0,
        papers: None,
    }
}

fn sample() -> Vec<Ballot> {
    vec![
        ballot(&["A", "B", "C"], Some("A"), 1000, true),
        ballot(&["B", "A", "C"], Some("A"), 1000 + HOUR, false),
        ballot(&["A", "B", "C"], Some("B"), 1000 + HOUR, true),
        ballot(&["B", "A"], None, 1000 + 5 * HOUR, false),
        ballot(&["A", "B"], None, 1000 + 719 * HOUR, false),
    ]
}

#[test]
fn ranking_breaks_ties_by_first_choice_and_shares_display_rank() {
    let resp = chars_ranking(&sample(), 1000, &vec![], false).unwrap();
    let got: Vec<(String, usize, usize, u32, u32)> =
        resp.entries.iter().map(|e| (e.name.clone(), e.rank, e.display_rank, e.vote_count, e.first_vote_count)).collect();
    assert_eq!(
        got,
        vec![
            ("A".to_string(), 1, 1, 5, 2),
            ("B".to_string(), 2, 1, 5, 1),
            ("C".to_string(), 3, 3, 3, 0),
        ]
    );
}

#[test]
fn ranking_reports_statistics_of_each_item() {
    let resp = chars_ranking(&sample(), 1000, &vec![], false).unwrap();
    let a = &resp.entries[0];
    assert_eq!(a.first_vote_percentage, Ratio { num: 2, den: 5 });
    assert_eq!(a.first_vote_count_weighted, 7);
    assert_eq!(a.vote_percentage, Ratio { num: 5, den: 13 });
    assert_eq!(a.first_percentage, Ratio { num: 2, den: 3 });
    assert_eq!(a.male_vote_count, 2);
    assert_eq!(a.female_vote_count, 3);
    assert_eq!(a.male_percentage_per_char, Ratio { num: 2, den: 5 });
    assert_eq!(a.male_percentage_per_total, Ratio { num: 2, den: 6 });
    assert_eq!(a.female_percentage_per_total, Ratio { num: 3, den: 7 });
    let trend: Vec<(usize, u32)> = a.trend.iter().map(|t| (t.hrs, t.cnt)).collect();
    assert_eq!(trend, vec![(0, 1), (1, 2), (5, 1), (719, 1)]);
    let trend_first: Vec<(usize, u32)> = a.trend_first.iter().map(|t| (t.hrs, t.cnt)).collect();
    assert_eq!(trend_first, vec![(0, 1), (1, 1)]);
    assert_eq!(a.reasons, vec!["because A".to_string(); 5]);
    assert_eq!(a.character_type, "未知");
    assert_eq!(resp.global.total_unique_items, 3);
    assert_eq!(resp.global.total_votes, 13);
    assert_eq!(resp.global.total_first, 3);
    assert_eq!(resp.global.average_votes_per_item, Ratio { num: 13, den: 3 });
    assert_eq!(resp.global.median_votes_per_item, Ratio { num: 5, den: 1 });
}

#[test]
fn ranking_of_other_section_is_empty() {
    let resp = musics_ranking(&sample(), 1000, &vec![], false).unwrap();
    assert!(resp.entries.is_empty());
    assert_eq!(resp.global.total_unique_items, 0);
    assert_eq!(resp.global.average_votes_per_item, Ratio { num: 0, den: 1 });
    assert_eq!(resp.global.median_votes_per_item, Ratio { num: 0, den: 1 });
}

#[test]
fn ranking_rejects_section_outside_window() {
    let mut ballots = sample();
    ballots.push(ballot(&["A"], None, 1000 + 720 * HOUR, true));
    let err = chars_ranking(&ballots, 1000, &vec![], false).unwrap_err();
    assert!(err.is_kind("HOUR_OUT_OF_WINDOW"));
    let mut early = sample();
    early.push(ballot(&["A"], None, 999, true));
    assert!(chars_ranking(&early, 1000, &vec![], false).unwrap_err().is_kind("HOUR_OUT_OF_WINDOW"));
}

#[test]
fn whole_dataset_lists_unvoted_catalog_items() {
    let row = |name: &str, kind: &[&str]| PartialVoteItemEntry {
        vote_year: 9,
        name: name.to_string(),
        kind: kind.iter().map(|k| k.to_string()).collect(),
        work: vec!["W1".to_string(), "W2".to_string()],
        date: "2002-08-11".to_string(),
        origname: format!("{}-jp", name),
    };
    let catalog = vec![row("C", &["old", "game"]), row("D", &["new"]), row("E", &["CD", "nonsense"]), row("D", &["book"])];
    let resp = chars_ranking(&sample(), 1000, &catalog, true).unwrap();
    let got: Vec<(String, usize, usize, u32)> =
        resp.entries.iter().map(|e| (e.name.clone(), e.rank, e.display_rank, e.vote_count)).collect();
    assert_eq!(
        got,
        vec![
            ("A".to_string(), 1, 1, 5),
            ("B".to_string(), 2, 1, 5),
            ("C".to_string(), 3, 3, 3),
            ("D".to_string(), 4, 4, 0),
            ("E".to_string(), 5, 4, 0),
        ]
    );
    assert_eq!(resp.entries[2].character_type, "旧作,游戏");
    assert_eq!(resp.entries[2].character_origin, "W1,W2");
    assert_eq!(resp.entries[2].first_appearance, "2002-08-11");
    assert_eq!(resp.entries[2].name_jpn, "C-jp");
    assert_eq!(resp.entries[3].character_type, "出版物");
    assert_eq!(resp.entries[4].character_type, "专辑,未知");
    assert_eq!(resp.entries[3].vote_percentage, Ratio { num: 0, den: 1 });
    assert_eq!(resp.global.total_unique_items, 3);
    let filtered = chars_ranking(&sample(), 1000, &catalog, false).unwrap();
    assert_eq!(filtered.entries.len(), 3);
}

#[test]
fn median_and_average_of_sorted_counts() {
    let m = median(&vec![1, 3, 5, 7]);
    assert_eq!(m, Ratio { num: 8, den: 2 });
    assert_eq!(m.num as f64 / m.den as f64, 4.0);
    let m = median(&vec![1, 3, 5]);
    assert_eq!(m.num as f64 / m.den as f64, 3.0);
    let m = median(&vec![]);
    assert_eq!(m.num as f64 / m.den as f64, 0.0);
    let a = average(0, 0);
    assert_eq!(a.num as f64 / a.den as f64, 0.0);
    assert_eq!(average(7, 2), Ratio { num: 7, den: 2 });
    assert_eq!(Ratio::guarded(3, 0), Ratio { num: 3, den: 1 });
    assert_eq!(Ratio::guarded(3, 4), Ratio { num: 3, den: 4 });
    let keys: Vec<RankKey> =
        [(3, 0), (5, 1), (5, 2), (3, 0), (9, 0), (5, 1)].iter().map(|&(v, f)| RankKey { vote_count: v, first_count: f }).collect();
    assert_eq!(rank_order(&keys), vec![4, 2, 1, 5, 0, 3]);
    let ranked: Vec<(usize, usize, usize)> = rank_items(&keys).iter().map(|r| (r.item, r.rank, r.display_rank)).collect();
    assert_eq!(ranked, vec![(4, 1, 1), (2, 2, 2), (1, 3, 2), (5, 4, 2), (0, 5, 5), (3, 6, 5)]);
}

#[test]
fn reasons_and_trends_are_read_from_a_ranking() {
    let resp = chars_ranking(&sample(), 1000, &vec![], false).unwrap();
    assert_eq!(chars_reasons(&resp.entries, 3).reasons, vec!["because C".to_string(); 3]);
    assert_eq!(chars_reasons(&resp.entries, 0).reasons, vec!["because A".to_string(); 5]);
    assert_eq!(musics_reasons(&resp.entries, -4).reasons.len(), 5);
    assert!(chars_reasons(&resp.entries, 4).reasons.is_empty());
    assert_eq!((rank_offset(-1), rank_offset(1), rank_offset(2)), (0, 0, 1));
    let t = chars_trend(&resp.entries, &"B".to_string());
    assert_eq!(t.trend.iter().map(|t| (t.hrs, t.cnt)).collect::<Vec<_>>(), vec![(0, 1), (1, 2), (5, 1), (719, 1)]);
    assert_eq!(t.trend_first.iter().map(|t| (t.hrs, t.cnt)).collect::<Vec<_>>(), vec![(1, 1)]);
    let none = musics_trend(&resp.entries, &"Z".to_string());
    assert!(none.trend.is_empty() && none.trend_first.is_empty());
}

#[test]
fn tally_counts_ballot_by_ballot() {
    let mut tally = Tally::new(1000);
    let ballots = sample();
    assert_eq!(tally.add_ballot(Section::Chars, &ballots[0]), Ok(()));
    assert_eq!(tally.add_ballot(Section::Musics, &ballots[1]), Ok(()));
    assert_eq!(tally.add_ballot(Section::Chars, &ballot(&["A"], None, 0, true)), Err(TallyError::HourOutOfWindow));
    assert_eq!(tally.add_ballot(Section::Chars, &ballot(&[], None, 0, true)), Ok(()));
    assert_eq!(tally.total_votes(), 3);
    assert_eq!((tally.total_first(), tally.total_male(), tally.total_female()), (1, 3, 0));
    assert_eq!(tally.slot_of("B"), Some(1));
    assert_eq!(tally.slot_of("Q"), None);
    assert_eq!(ranking(&tally, &vec![], false).entries.len(), 3);
    assert_eq!(hour_bucket(10, 10 + 3 * HOUR - 1), Some(2));
    assert_eq!(hour_bucket(10, 10 + 3 * HOUR), Some(3));
    assert_eq!(hour_bucket(10, 9), None);
    assert_eq!(hour_bucket(i64::MIN, i64::MAX), None);
    assert_eq!(hour_bucket(-HOUR, 0), Some(1));
}

#[test]
fn first_choice_without_votes_is_not_ranked() {
    let ballots = vec![ballot(&["A"], Some("Z"), 1000, true)];
    let resp = chars_ranking(&ballots, 1000, &vec![], false).unwrap();
    assert_eq!(resp.entries.len(), 1);
    assert_eq!((resp.entries[0].name.as_str(), resp.entries[0].first_vote_count), ("A", 0));
    assert_eq!(resp.global.total_first, 1);
    assert_eq!(resp.entries[0].first_percentage, Ratio { num: 0, den: 1 });
    assert_eq!(resp.entries[0].female_percentage_per_total, Ratio { num: 0, den: 1 });
}

#[test]
fn catalog_labels() {
    let pairs = [("old", "旧作"), ("new", "新作"), ("CD", "专辑"), ("book", "出版物"), ("others", "其他"), ("other", "其他"), ("game", "游戏"), ("?", "未知")];
    for (k, v) in pairs {
        assert_eq!(kind_label(&k.to_string()), v);
    }
}

#[test]
fn supporters_are_sections_not_votes() {
    let mut tally = Tally::new(0);
    assert_eq!(tally.add_ballot(Section::Chars, &ballot(&["A", "A", "B"], Some("A"), 0, true)), Ok(()));
    assert_eq!(tally.add_ballot(Section::Chars, &ballot(&["B", "A", "B", "A"], None, HOUR, false)), Ok(()));
    assert_eq!(tally.add_ballot(Section::Chars, &ballot(&["C"], Some("D"), HOUR, false)), Ok(()));
    let got: Vec<(String, u32, u32)> =
        tally.items().iter().map(|i| (i.name.clone(), i.vote_count, i.supporters)).collect();
    assert_eq!(
        got,
        vec![("A".to_string(), 4, 2), ("B".to_string(), 3, 2), ("D".to_string(), 0, 0), ("C".to_string(), 1, 1)]
    );
    assert_eq!(tally.total_votes(), 8);
    let resp = ranking(&tally, &vec![], false);
    let names: Vec<&str> = resp.entries.iter().map(|e| e.name.as_str()).collect();
    assert_eq!(names, vec!["A", "B", "C"]);
    assert_eq!(resp.global.total_votes, 8);
    assert_eq!(resp.global.total_unique_items, 3);
}
