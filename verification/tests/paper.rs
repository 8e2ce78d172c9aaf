use result_query::ballot::{Ballot, PaperAnswer, PaperVotes, SinglePaperItem};
use result_query::paper::{
    missing_questions, paper_result, papers_trend, tabulate, CachedQuestionAnswerItem, CachedQuestionEntry, CachedQuestionItem, QuestionTally,
};
use result_query::stats::{completion_rates, global_stats};
use result_query::rank::Ratio;

const HOUR: i64 = 3_600_000;

fn answer(q: &str, opt: &[&str], ans: &str) -> PaperAnswer {
    PaperAnswer {
        question_id: q.to_string(),
        item: SinglePaperItem { opt: opt.iter().map(|o| o.to_string()).collect(), ans: ans.to_string() },
    }
}

fn ballot(answers: Vec<PaperAnswer>, at: i64) -> Ballot {
    Ballot {
        demographic: vec!["1101102".to_string()],
        chars: None,
        musics: None,
        cps: None,
        doujins: 0,
        papers: Some(PaperVotes { answers, created_at: Some(at) }),
    }
}

fn sample() -> Vec<Ballot> {
    vec![
        ballot(vec![answer("q1", &["a"], ""), answer("q2", &["x", "y"], "free")], 0),
        ballot(vec![answer("q1", &["b", "a"], "text"), answer("q3", &[], "only text")], 2 * HOUR + 5),
        ballot(vec![answer("q2", &["y"], ""), answer("q1", &["a"], "more")], 2 * HOUR),
    ]
}

fn cat(e: &CachedQuestionItem) -> Vec<(String, u32)> {
    e.answers_cat.iter().map(|a| (a.aid.clone(), a.votes)).collect()
}

fn strings(v: &[&str]) -> Vec<String> {
    v.iter().map(|s| s.to_string()).collect()
}

#[test]
fn questions_are_tabulated() {
    let out = tabulate(&strings(&["q1", "q3", "q9", "q1"]), &sample(), 0, "none", 11).unwrap();
    assert_eq!(out.len(), 3);
    let q1 = &out[0];
    assert_eq!((q1.key.as_str(), q1.vote_year, q1.entry.question_id.as_str()), ("none", 11, "q1"));
    assert_eq!(q1.entry.total_answers, 3);
    assert_eq!(cat(&q1.entry), vec![("a".to_string(), 3), ("b".to_string(), 1)]);
    assert_eq!(q1.entry.answers_str, strings(&["text", "more"]));
    assert_eq!(q1.trend.iter().map(|t| (t.hrs, t.cnt)).collect::<Vec<_>>(), vec![(0, 1), (2, 2)]);
    let q3 = &out[1];
    assert_eq!(q3.entry.total_answers, 1);
    assert!(q3.entry.answers_cat.is_empty());
    assert_eq!(q3.entry.answers_str, strings(&["only text"]));
    let q9 = &out[2];
    assert_eq!((q9.entry.question_id.as_str(), q9.entry.total_answers), ("q9", 0));
    assert!(q9.entry.answers_cat.is_empty() && q9.entry.answers_str.is_empty() && q9.trend.is_empty());
}

#[test]
fn questions_not_asked_for_are_not_counted() {
    let out = tabulate(&strings(&["q2"]), &sample(), 0, "k", 1).unwrap();
    assert_eq!(out.len(), 1);
    assert_eq!(cat(&out[0].entry), vec![("x".to_string(), 1), ("y".to_string(), 2)]);
    assert_eq!(out[0].entry.total_answers, 2);
    assert_eq!(out[0].entry.answers_str, strings(&["free"]));
}

#[test]
fn questionnaire_outside_window_is_refused() {
    let mut ballots = sample();
    ballots.push(ballot(vec![answer("q1", &["a"], "")], -1));
    assert!(tabulate(&strings(&["q1"]), &ballots, 0, "k", 1).unwrap_err().is_kind("HOUR_OUT_OF_WINDOW"));
    assert!(tabulate(&strings(&["q7"]), &ballots, 0, "k", 1).is_ok());
    let mut tally = QuestionTally::new(0, &strings(&["q1"]));
    assert!(tally.add_ballot(&ballots[0]).is_ok());
    assert!(tally.add_ballot(&ballots[3]).is_err());
    assert_eq!(tally.results("k", 1)[0].entry.total_answers, 1);
}

#[test]
fn questionnaire_without_time_is_counted_outside_the_trend() {
    let mut ballots = sample();
    let mut untimed = ballot(vec![answer("q1", &["b"], "late")], 0);
    untimed.papers.as_mut().unwrap().created_at = None;
    ballots.push(untimed);
    let out = tabulate(&strings(&["q1"]), &ballots, 0, "none", 1).unwrap();
    assert_eq!(out[0].entry.total_answers, 4);
    assert_eq!(cat(&out[0].entry), vec![("a".to_string(), 3), ("b".to_string(), 2)]);
    assert_eq!(out[0].entry.answers_str, strings(&["text", "more", "late"]));
    assert_eq!(out[0].trend.iter().map(|t| (t.hrs, t.cnt)).collect::<Vec<_>>(), vec![(0, 1), (2, 2)]);
}

#[test]
fn questions_and_options_are_kept_apart() {
    let sep = "\u{1f}";
    let odd = format!("q1{}2", sep);
    let ballots = vec![
        ballot(vec![answer("q1", &["2", "=x"], ""), answer(&odd, &["7"], "odd")], 0),
        ballot(vec![answer("q1", &["2"], ""), answer("2:q1", &["y"], ""), answer("q", &["1=2"], "")], 0),
    ];
    let asked = vec!["q1".to_string(), odd.clone(), "2:q1=2".to_string(), "2:q1".to_string(), "q".to_string()];
    let out = tabulate(&asked, &ballots, 0, "none", 1).unwrap();
    let got: Vec<(String, u32, Vec<(String, u32)>)> =
        out.iter().map(|e| (e.entry.question_id.clone(), e.entry.total_answers, cat(&e.entry))).collect();
    assert_eq!(
        got,
        vec![
            ("q1".to_string(), 2, vec![("2".to_string(), 2), ("=x".to_string(), 1)]),
            (odd, 1, vec![("7".to_string(), 1)]),
            ("2:q1=2".to_string(), 0, vec![]),
            ("2:q1".to_string(), 1, vec![("y".to_string(), 1)]),
            ("q".to_string(), 1, vec![("1=2".to_string(), 1)]),
        ]
    );
}

#[test]
fn only_missing_questions_are_scanned() {
    let cached = vec![
        CachedQuestionItem { question_id: "q2".to_string(), answers_cat: vec![], answers_str: vec![], total_answers: 4 },
        CachedQuestionItem {
            question_id: "q5".to_string(),
            answers_cat: vec![CachedQuestionAnswerItem { aid: "z".to_string(), votes: 1 }],
            answers_str: vec![],
            total_answers: 1,
        },
    ];
    let asked = strings(&["q1", "q2", "q3", "q5", "q1"]);
    let missing = missing_questions(&asked, &cached);
    assert_eq!(missing, strings(&["q1", "q3", "q1"]));
    let computed = tabulate(&missing, &sample(), 0, "none", 1).unwrap();
    let resp = paper_result(cached, computed);
    let ids: Vec<(&str, u32)> = resp.entries.iter().map(|e| (e.question_id.as_str(), e.total_answers)).collect();
    assert_eq!(ids, vec![("q2", 4), ("q5", 1), ("q1", 3), ("q3", 1)]);
    assert_eq!(missing_questions(&strings(&["q2"]), &resp.entries), Vec::<String>::new());
}

#[test]
fn trend_of_a_question_comes_from_its_row() {
    let rows: Vec<CachedQuestionEntry> = tabulate(&strings(&["q1", "q2"]), &sample(), 0, "none", 1).unwrap();
    let t = papers_trend(&rows, &"q2".to_string());
    assert_eq!(t.trend.iter().map(|t| (t.hrs, t.cnt)).collect::<Vec<_>>(), vec![(0, 1), (2, 1)]);
    assert!(t.trend_first.is_empty());
    assert!(papers_trend(&rows, &"q4".to_string()).trend.is_empty());
}

#[test]
fn global_stats_count_ballots() {
    let mut ballots = sample();
    ballots[0].doujins = 2;
    ballots[1].demographic = vec!["1101101".to_string()];
    ballots[2].demographic = vec![];
    let gs = global_stats(&ballots, 10);
    assert_eq!((gs.vote_year, gs.num_vote, gs.num_char, gs.num_music, gs.num_cp), (10, 3, 0, 0, 0));
    assert_eq!((gs.num_doujin, gs.num_male, gs.num_female), (1, 1, 2));
    assert_eq!(global_stats(&vec![], 3).num_vote, 0);
}

#[test]
fn completion_rates_count_questions_with_options() {
    let rates = completion_rates(&sample(), 12).unwrap();
    assert_eq!(rates.vote_year, 12);
    let got: Vec<(String, u32, usize, Ratio)> = rates.items.iter().map(|i| (i.name.clone(), i.num_complete, i.total, i.rate)).collect();
    assert_eq!(
        got,
        vec![("q1".to_string(), 3, 3, Ratio { num: 3, den: 3 }), ("q2".to_string(), 2, 3, Ratio { num: 2, den: 3 })]
    );
    assert!(completion_rates(&vec![], 12).unwrap().items.is_empty());
}
