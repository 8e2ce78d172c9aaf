//! The questionnaire aggregator: per question, the number of answers, the
//! votes of each option, the free-text answers and the hourly trend.
//!
//! The answers are counted by the vote aggregator: every answer is a pick
//! of its question, and every option ticked is a pick of that option of the
//! question. Questions and options are counted under names that keep them
//! apart, whatever characters their ids hold.

use vstd::hash_map::StringHashMap;
use vstd::prelude::*;
use vstd::string::StringExecFns;
use crate::ballot::{
    Ballot, PaperAnswer, Pick, picks_view, PickView, TREND_WINDOW_HOURS, UNTAGGED,
};
use crate::frame::{frame, framed, lemma_frame_splits};
use crate::models::{TrendResponse, VotingTrendItem};
use crate::ranking::{
    bins_of, copy_trend, note_each, tally_error, tally_error_kind, trend, trend_of,
};
use crate::service_error::{bare_error, SERVICE_NAME, ServiceError};
use crate::tally::{
    count_step, Counted, item_names, ItemTally, reasons_for, seen_names, Tally, TallyError,
    votes_for,
};
use crate::text::{chars_of, clone_texts, text_of, texts};

verus! {

/// The votes of one option of a question.
#[derive(Clone, Debug)]
pub struct CachedQuestionAnswerItem {
    pub aid: String,
    pub votes: u32,
}

/// The tabulation of one question.
#[derive(Clone, Debug)]
pub struct CachedQuestionItem {
    pub question_id: String,
    /// The options that were ticked, in the order of their first tick, each
    /// with its votes.
    pub answers_cat: Vec<CachedQuestionAnswerItem>,
    /// The free-text answers, in the order in which they were counted.
    pub answers_str: Vec<String>,
    pub total_answers: u32,
}

/// The tabulation of one question as it is cached, with its trend.
#[derive(Clone, Debug)]
pub struct CachedQuestionEntry {
    pub key: String,
    pub vote_year: i32,
    pub entry: CachedQuestionItem,
    pub trend: Vec<VotingTrendItem>,
}

/// The answer to a questionnaire request.
#[derive(Clone, Debug)]
pub struct QueryQuestionnaireResponse {
    pub entries: Vec<CachedQuestionItem>,
}

/// The name under which the answers to the question `q` are counted: the
/// id of the question behind its length.
pub open spec fn question_key(q: Seq<char>) -> Seq<char> {
    framed(q)
}

/// What the names of all options of the question `q` start with.
pub open spec fn option_prefix(q: Seq<char>) -> Seq<char> {
    framed(q) + "="@
}

/// The name under which the option `opt` of the question `q` is counted.
pub open spec fn option_key(q: Seq<char>, opt: Seq<char>) -> Seq<char> {
    framed(q) + "="@ + opt
}

/// The names keep questions and options apart: no question is counted
/// under the name of an option; two options under one name are the same
/// option of the same question; and the names that start with the prefix
/// of a question are those of its options, whose ids follow the prefix.
pub proof fn lemma_names_apart(q: Seq<char>, other: Seq<char>, opt: Seq<char>, opt2: Seq<char>)
    ensures
        question_key(other) != option_key(q, opt),
        question_key(q) == question_key(other) ==> q == other,
        option_key(q, opt) == option_key(other, opt2) ==> q == other && opt == opt2,
        after_prefix(question_key(other), option_prefix(q)).is_none(),
        after_prefix(option_key(other, opt), option_prefix(q)) == (if other == q { Some(opt) } else { None }),
{
    reveal_strlit("=");
    let eq = "="@;
    assert(eq.len() == 1);
    let empty = Seq::<char>::empty();
    assert(question_key(other) =~= framed(other) + empty);
    assert(option_key(q, opt) =~= framed(q) + (eq + opt));
    assert(option_key(other, opt) =~= framed(other) + (eq + opt));
    assert(option_key(other, opt2) =~= framed(other) + (eq + opt2));
    if question_key(other) == option_key(q, opt) {
        lemma_frame_splits(other, empty, q, eq + opt);
        assert((eq + opt).len() > 0);
    }
    if question_key(q) == question_key(other) {
        assert(question_key(q) =~= framed(q) + empty);
        lemma_frame_splits(q, empty, other, empty);
    }
    if option_key(q, opt) == option_key(other, opt2) {
        lemma_frame_splits(q, eq + opt, other, eq + opt2);
        assert(opt =~= (eq + opt).subrange(1, (eq + opt).len() as int));
        assert(opt2 =~= (eq + opt2).subrange(1, (eq + opt2).len() as int));
    }
    let prefix = option_prefix(q);
    let name = question_key(other);
    if after_prefix(name, prefix).is_some() {
        let rest = name.subrange(prefix.len() as int, name.len() as int);
        assert(name =~= name.subrange(0, prefix.len() as int) + rest);
        assert(name =~= framed(q) + (eq + rest));
        lemma_frame_splits(other, empty, q, eq + rest);
        assert((eq + rest).len() > 0);
    }
    let name2 = option_key(other, opt);
    if after_prefix(name2, prefix).is_some() {
        let rest = name2.subrange(prefix.len() as int, name2.len() as int);
        assert(name2 =~= name2.subrange(0, prefix.len() as int) + rest);
        assert(name2 =~= framed(q) + (eq + rest));
        lemma_frame_splits(other, eq + opt, q, eq + rest);
        assert(opt =~= (eq + opt).subrange(1, (eq + opt).len() as int));
        assert(rest =~= (eq + rest).subrange(1, (eq + rest).len() as int));
    }
    if other == q {
        assert(name2.subrange(0, prefix.len() as int) =~= prefix);
        assert(name2.subrange(prefix.len() as int, name2.len() as int) =~= opt);
    }
}

/// The picks that one answer stands for: its question, with the free text
/// as the reason if there is one, then each option ticked.
pub open spec fn answer_picks(a: PaperAnswer) -> Seq<PickView> {
    let head = PickView {
        name: question_key(a.question_id@),
        reason: if a.item.ans@.len() > 0 { Some(a.item.ans@) } else { None },
        tag: UNTAGGED as int,
    };
    seq![head] + Seq::new(
        a.item.opt.len() as nat,
        |i: int| PickView { name: option_key(a.question_id@, a.item.opt[i]@), reason: None, tag: UNTAGGED as int },
    )
}

/// The picks that the answers to the questions `wanted` stand for.
pub open spec fn paper_picks(answers: Seq<PaperAnswer>, wanted: Seq<Seq<char>>) -> Seq<PickView>
    decreases answers.len(),
{
    if answers.len() == 0 {
        Seq::empty()
    } else {
        let rest = paper_picks(answers.drop_last(), wanted);
        if wanted.contains(answers.last().question_id@) {
            rest + answer_picks(answers.last())
        } else {
            rest
        }
    }
}

/// The counted sections after the questionnaire of `ballot` was offered.
pub open spec fn paper_step(
    h: Seq<Counted>,
    start: i64,
    wanted: Seq<Seq<char>>,
    ballot: Ballot,
) -> Result<Seq<Counted>, TallyError> {
    match ballot.papers {
        None => Ok(h),
        Some(v) => count_step(h, start, paper_picks(v.answers@, wanted), None, v.created_at, false),
    }
}

/// The counted sections after the questionnaires of the ballots were
/// offered one after the other, or the error of the first that was refused.
pub open spec fn papers_all(
    h: Seq<Counted>,
    start: i64,
    wanted: Seq<Seq<char>>,
    ballots: Seq<Ballot>,
) -> Result<Seq<Counted>, TallyError>
    decreases ballots.len(),
{
    if ballots.len() == 0 {
        Ok(h)
    } else {
        match papers_all(h, start, wanted, ballots.drop_last()) {
            Err(e) => Err(e),
            Ok(counted) => paper_step(counted, start, wanted, ballots.last()),
        }
    }
}

/// The text after the first `k` characters of `n`, if `n` starts with
/// `prefix` and `k` is the length of `prefix`.
pub open spec fn after_prefix(n: Seq<char>, prefix: Seq<char>) -> Option<Seq<char>> {
    if prefix.len() <= n.len() && n.subrange(0, prefix.len() as int) == prefix {
        Some(n.subrange(prefix.len() as int, n.len() as int))
    } else {
        None
    }
}

/// The table of the options of the question `q`: of the names counted,
/// those of options of `q`, in order, each with its votes.
pub open spec fn option_table(
    names: Seq<Seq<char>>,
    h: Seq<Counted>,
    q: Seq<char>,
) -> Seq<(Seq<char>, nat)>
    decreases names.len(),
{
    if names.len() == 0 {
        Seq::empty()
    } else {
        let rest = option_table(names.drop_last(), h, q);
        match after_prefix(names.last(), option_prefix(q)) {
            Some(opt) => rest.push((opt, votes_for(h, names.last()))),
            None => rest,
        }
    }
}

/// The options of a table, each with its votes.
pub open spec fn answer_rows(v: Seq<CachedQuestionAnswerItem>) -> Seq<(Seq<char>, nat)> {
    Seq::new(v.len(), |i: int| (v[i].aid@, v[i].votes as nat))
}

/// `e` is the tabulation of the question `q` over the counted sections `h`.
pub open spec fn question_ok(
    e: CachedQuestionItem,
    trend: Seq<VotingTrendItem>,
    h: Seq<Counted>,
    q: Seq<char>,
) -> bool {
    &&& e.question_id@ == q
    &&& e.total_answers == votes_for(h, question_key(q))
    &&& texts(e.answers_str@) == reasons_for(h, question_key(q))
    &&& answer_rows(e.answers_cat@) == option_table(seen_names(h), h, q)
    &&& trend == trend_of(bins_of(h, question_key(q)), TREND_WINDOW_HOURS as int)
}

fn starts_with(n: &Vec<char>, prefix: &Vec<char>) -> (r: bool)
    ensures
        r == (prefix.len() <= n.len() && n@.subrange(0, prefix.len() as int) == prefix@),
{
    if prefix.len() > n.len() {
        return false;
    }
    let mut i: usize = 0;
    while i < prefix.len()
        invariant
            i <= prefix.len(),
            prefix.len() <= n.len(),
            forall|k: int| 0 <= k < i ==> n[k] == prefix[k],
        decreases prefix.len() - i,
    {
        if n[i] != prefix[i] {
            proof {
                assert(n@.subrange(0, prefix.len() as int)[i as int] == n[i as int]);
            }
            return false;
        }
        i += 1;
    }
    proof {
        assert(n@.subrange(0, prefix.len() as int) =~= prefix@);
    }
    true
}

fn tail(n: &Vec<char>, from: usize) -> (r: String)
    requires
        from <= n.len(),
    ensures
        r@ == n@.subrange(from as int, n.len() as int),
{
    let mut out: Vec<char> = Vec::new();
    let mut k: usize = from;
    while k < n.len()
        invariant
            from <= k <= n.len(),
            out@ == n@.subrange(from as int, k as int),
        decreases n.len() - k,
    {
        out.push(n[k]);
        proof {
            assert(n@.subrange(from as int, k as int).push(n@[k as int]) =~= n@.subrange(from as int, k as int + 1));
        }
        k += 1;
    }
    text_of(&out)
}

/// The questionnaire aggregator of one request.
pub struct QuestionTally {
    tally: Tally,
    wanted: Vec<String>,
    index: StringHashMap<bool>,
}

impl View for QuestionTally {
    type V = Seq<Counted>;

    closed spec fn view(&self) -> Seq<Counted> {
        self.tally@
    }
}

impl QuestionTally {
    /// The start of the poll, in milliseconds since the epoch.
    pub closed spec fn start(&self) -> i64 {
        self.tally.start()
    }

    /// The questions that are tabulated.
    pub closed spec fn wanted(&self) -> Seq<Seq<char>> {
        texts(self.wanted@)
    }

    /// The counters hold what the counted sections say.
    pub closed spec fn wf(&self) -> bool {
        &&& self.tally.wf()
        &&& forall|n: Seq<char>| (#[trigger] self.index@.contains_key(n)) <==> texts(self.wanted@).contains(n)
    }

    /// An aggregator for the given questions of a poll that started at
    /// `start`, with nothing counted.
    pub fn new(start: i64, questions: &Vec<String>) -> (t: QuestionTally)
        ensures
            t.wf(),
            t@ == Seq::<Counted>::empty(),
            t.start() == start,
            t.wanted() == texts(questions@),
    {
        let wanted = clone_texts(questions);
        let mut index: StringHashMap<bool> = StringHashMap::new();
        let ghost all = texts(wanted@);
        let mut i: usize = 0;
        while i < wanted.len()
            invariant
                i <= wanted.len(),
                all == texts(wanted@),
                forall|n: Seq<char>| (#[trigger] index@.contains_key(n)) <==> all.take(i as int).contains(n),
            decreases wanted.len() - i,
        {
            index.insert(wanted[i].clone(), true);
            proof {
                let was = all.take(i as int);
                let now = all.take(i as int + 1);
                assert forall|n: Seq<char>| now.contains(n) <==> (was.contains(n) || n == wanted[i as int]@) by {
                    if now.contains(n) {
                        let k = choose|k: int| 0 <= k < now.len() && now[k] == n;
                        if k < i {
                            assert(was[k] == n);
                        }
                    }
                    if was.contains(n) {
                        let k = choose|k: int| 0 <= k < was.len() && was[k] == n;
                        assert(now[k] == n);
                    }
                    if n == wanted[i as int]@ {
                        assert(now[i as int] == n);
                    }
                }
            }
            i += 1;
        }
        proof {
            assert(all.take(wanted.len() as int) =~= all);
        }
        QuestionTally { tally: Tally::new(start), wanted, index }
    }

    /// The picks that the answers stand for.
    fn picks_of(&self, answers: &Vec<PaperAnswer>) -> (picks: Vec<Pick>)
        requires
            self.wf(),
        ensures
            picks_view(picks@) == paper_picks(answers@, self.wanted()),
    {
        let mut picks: Vec<Pick> = Vec::new();
        let ghost wanted = texts(self.wanted@);
        let mut i: usize = 0;
        proof {
            assert(picks_view(picks@) =~= paper_picks(answers@.take(0), wanted));
        }
        while i < answers.len()
            invariant
                i <= answers.len(),
                self.wf(),
                wanted == texts(self.wanted@),
                picks_view(picks@) == paper_picks(answers@.take(i as int), wanted),
            decreases answers.len() - i,
        {
            let a = &answers[i];
            proof {
                assert(answers@.take(i as int + 1).drop_last() =~= answers@.take(i as int));
                assert(answers@.take(i as int + 1).last() == answers@[i as int]);
            }
            if self.index.contains_key(a.question_id.as_str()) {
                let ghost before = picks_view(picks@);
                let reason = if a.item.ans.as_str().unicode_len() > 0 {
                    Some(a.item.ans.clone())
                } else {
                    None
                };
                picks.push(Pick { name: frame(a.question_id.as_str()), reason });
                let mut k: usize = 0;
                while k < a.item.opt.len()
                    invariant
                        k <= a.item.opt.len(),
                        picks_view(picks@) == before + answer_picks(*a).take(k as int + 1),
                    decreases a.item.opt.len() - k,
                {
                    let ghost was = picks_view(picks@);
                    let name = frame(a.question_id.as_str()).concat("=").concat(a.item.opt[k].as_str());
                    picks.push(Pick { name, reason: None });
                    proof {
                        assert(picks_view(picks@) =~= was.push(answer_picks(*a)[k as int + 1]));
                        assert(before + answer_picks(*a).take(k as int + 2) =~= (before
                            + answer_picks(*a).take(k as int + 1)).push(
                            answer_picks(*a)[k as int + 1],
                        ));
                    }
                    k += 1;
                }
                proof {
                    assert(answer_picks(*a).take(a.item.opt.len() as int + 1) =~= answer_picks(*a));
                }
            }
            i += 1;
        }
        proof {
            assert(answers@.take(answers.len() as int) =~= answers@);
        }
        picks
    }

    /// Offers the questionnaire of one ballot. A ballot without one, or
    /// with no answer to a question that is tabulated, changes nothing. A
    /// questionnaire that bears a time outside the trend window, or one
    /// that would overflow the counters, is refused and changes nothing. A
    /// questionnaire that bears no time is counted, but not in the trend.
    pub fn add_ballot(&mut self, ballot: &Ballot) -> (r: Result<(), TallyError>)
        requires
            old(self).wf(),
        ensures
            final(self).wf(),
            final(self).start() == old(self).start(),
            final(self).wanted() == old(self).wanted(),
            match paper_step(old(self)@, old(self).start(), old(self).wanted(), *ballot) {
                Ok(h) => r.is_ok() && final(self)@ == h,
                Err(e) => r == Err::<(), TallyError>(e) && final(self)@ == old(self)@,
            },
    {
        match &ballot.papers {
            None => Ok(()),
            Some(v) => {
                let picks = self.picks_of(&v.answers);
                self.tally.add_picks(&picks, &None, v.created_at, false)
            },
        }
    }
}

/// A histogram without votes has no trend.
proof fn lemma_empty_trend(bins: Seq<u32>, k: int)
    requires
        0 <= k <= bins.len(),
        forall|i: int| 0 <= i < bins.len() ==> #[trigger] bins[i] == 0,
    ensures
        trend_of(bins, k) == Seq::<VotingTrendItem>::empty(),
    decreases k,
{
    if k > 0 {
        lemma_empty_trend(bins, k - 1);
    }
}

/// The table of the options of the question `q`.
fn options_of(
    items: &Vec<ItemTally>,
    q: &String,
    Ghost(h): Ghost<Seq<Counted>>,
) -> (cat: Vec<CachedQuestionAnswerItem>)
    requires
        forall|i: int| 0 <= i < items.len() ==> (#[trigger] items[i]).agrees(h),
    ensures
        answer_rows(cat@) == option_table(item_names(items@), h, q@),
{
    let prefix = chars_of(frame(q.as_str()).concat("=").as_str());
    let ghost names = item_names(items@);
    let mut cat: Vec<CachedQuestionAnswerItem> = Vec::new();
    let mut k: usize = 0;
    proof {
        assert(answer_rows(cat@) =~= option_table(names.take(0), h, q@));
    }
    while k < items.len()
        invariant
            k <= items.len(),
            names == item_names(items@),
            prefix@ == option_prefix(q@),
            forall|i: int| 0 <= i < items.len() ==> (#[trigger] items[i]).agrees(h),
            answer_rows(cat@) == option_table(names.take(k as int), h, q@),
        decreases items.len() - k,
    {
        proof {
            assert(names.take(k as int + 1).drop_last() =~= names.take(k as int));
            assert(names.take(k as int + 1).last() == items[k as int].name@);
            assert(items[k as int].agrees(h));
        }
        let name = chars_of(items[k].name.as_str());
        if starts_with(&name, &prefix) {
            let ghost before = answer_rows(cat@);
            cat.push(CachedQuestionAnswerItem { aid: tail(&name, prefix.len()), votes: items[k].vote_count });
            proof {
                assert(answer_rows(cat@) =~= before.push((name@.subrange(prefix.len() as int, name.len() as int),
                    items[k as int].vote_count as nat)));
            }
        }
        k += 1;
    }
    proof {
        assert(names.take(items.len() as int) =~= names);
    }
    cat
}

impl QuestionTally {
    /// The tabulation of one question.
    fn question(&self, q: &String, key: &str, vote_year: i32) -> (e: CachedQuestionEntry)
        requires
            self.wf(),
        ensures
            question_ok(e.entry, e.trend@, self@, q@),
            e.key@ == key@,
            e.vote_year == vote_year,
    {
        let ghost h = self.tally@;
        let items = self.tally.items();
        let answers_cat = options_of(items, q, Ghost(h));
        let name = frame(q.as_str());
        match self.tally.slot_of(name.as_str()) {
            Some(i) => {
                let item = &items[i];
                proof {
                    assert(item_names(items@)[i as int] == item.name@);
                    assert(item.agrees(h));
                    assert(item.bins@ =~= bins_of(h, name@));
                }
                CachedQuestionEntry {
                    key: String::from_str(key),
                    vote_year,
                    entry: CachedQuestionItem {
                        question_id: q.clone(),
                        answers_cat,
                        answers_str: clone_texts(&item.reasons),
                        total_answers: item.vote_count,
                    },
                    trend: trend(&item.bins),
                }
            },
            None => {
                let answers_str: Vec<String> = Vec::new();
                proof {
                    self.tally.lemma_unseen(name@);
                    lemma_empty_trend(bins_of(h, name@), TREND_WINDOW_HOURS as int);
                    assert(texts(answers_str@) =~= reasons_for(h, name@));
                }
                CachedQuestionEntry {
                    key: String::from_str(key),
                    vote_year,
                    entry: CachedQuestionItem { question_id: q.clone(), answers_cat, answers_str, total_answers: 0 },
                    trend: Vec::new(),
                }
            },
        }
    }

    /// The tabulations of the questions, each question once, in the order
    /// in which they were asked for, as rows of the cache under `key` and
    /// `vote_year`.
    pub fn results(&self, key: &str, vote_year: i32) -> (out: Vec<CachedQuestionEntry>)
        requires
            self.wf(),
        ensures
            tabulation_ok(out@, self@, self.wanted(), key@, vote_year),
    {
        let mut out: Vec<CachedQuestionEntry> = Vec::new();
        let mut done: StringHashMap<bool> = StringHashMap::new();
        let ghost wanted = texts(self.wanted@);
        let mut i: usize = 0;
        proof {
            assert(entry_ids(out@) =~= note_each(Seq::empty(), wanted.take(0)));
        }
        while i < self.wanted.len()
            invariant
                i <= self.wanted.len(),
                self.wf(),
                wanted == texts(self.wanted@),
                entry_ids(out@) == note_each(Seq::empty(), wanted.take(i as int)),
                forall|n: Seq<char>| (#[trigger] done@.contains_key(n)) <==> entry_ids(out@).contains(n),
                forall|k: int| 0 <= k < out.len()
                    ==> question_ok((#[trigger] out[k]).entry, out[k].trend@, self@, entry_ids(out@)[k])
                    && out[k].key@ == key@ && out[k].vote_year == vote_year,
            decreases self.wanted.len() - i,
        {
            let q = &self.wanted[i];
            proof {
                assert(wanted.take(i as int + 1).drop_last() =~= wanted.take(i as int));
                assert(wanted.take(i as int + 1).last() == q@);
            }
            if !done.contains_key(q.as_str()) {
                let ghost before = entry_ids(out@);
                let e = self.question(q, key, vote_year);
                out.push(e);
                done.insert(q.clone(), true);
                proof {
                    assert(entry_ids(out@) =~= before.push(q@));
                    assert forall|n: Seq<char>| (#[trigger] done@.contains_key(n))
                        <==> entry_ids(out@).contains(n) by {
                        if entry_ids(out@).contains(n) {
                            let k = choose|k: int| 0 <= k < entry_ids(out@).len() && entry_ids(out@)[k] == n;
                            if k < before.len() {
                                assert(before[k] == n);
                            }
                        }
                        if before.contains(n) {
                            let k = choose|k: int| 0 <= k < before.len() && before[k] == n;
                            assert(entry_ids(out@)[k] == n);
                        }
                        if n == q@ {
                            assert(entry_ids(out@)[before.len() as int] == n);
                        }
                    }
                    assert forall|k: int| 0 <= k < out.len() implies
                        question_ok((#[trigger] out[k]).entry, out[k].trend@, self@, entry_ids(out@)[k])
                        && out[k].key@ == key@ && out[k].vote_year == vote_year by {
                        if k < before.len() {
                            assert(entry_ids(out@)[k] == before[k]);
                        }
                    }
                }
            }
            i += 1;
        }
        proof {
            assert(wanted.take(self.wanted.len() as int) =~= wanted);
        }
        out
    }
}

/// The question ids of a list of cached rows.
pub open spec fn entry_ids(entries: Seq<CachedQuestionEntry>) -> Seq<Seq<char>> {
    Seq::new(entries.len(), |i: int| entries[i].entry.question_id@)
}

/// `out` holds the tabulation over `h` of each of the questions `wanted`,
/// each once, in the order of `wanted`, under `key` and `vote_year`.
pub open spec fn tabulation_ok(
    out: Seq<CachedQuestionEntry>,
    h: Seq<Counted>,
    wanted: Seq<Seq<char>>,
    key: Seq<char>,
    vote_year: i32,
) -> bool {
    &&& entry_ids(out) == note_each(Seq::empty(), wanted)
    &&& forall|k: int| 0 <= k < out.len()
        ==> question_ok((#[trigger] out[k]).entry, out[k].trend@, h, entry_ids(out)[k]) && out[k].key@ == key
        && out[k].vote_year == vote_year
}

/// `r` answers the scan for the questions `wanted` over `ballots`.
pub open spec fn tabulate_ok(
    r: Result<Vec<CachedQuestionEntry>, ServiceError>,
    wanted: Seq<Seq<char>>,
    ballots: Seq<Ballot>,
    start: i64,
    key: Seq<char>,
    vote_year: i32,
) -> bool {
    match papers_all(Seq::empty(), start, wanted, ballots) {
        Ok(h) => match r {
            Ok(out) => tabulation_ok(out@, h, wanted, key, vote_year),
            Err(_) => false,
        },
        Err(e) => match r {
            Ok(_) => false,
            Err(err) => err@ == bare_error(SERVICE_NAME@, tally_error_kind(e)),
        },
    }
}

proof fn lemma_papers_all_fails(start: i64, wanted: Seq<Seq<char>>, ballots: Seq<Ballot>, k: int)
    requires
        0 <= k <= ballots.len(),
        papers_all(Seq::empty(), start, wanted, ballots.take(k)).is_err(),
    ensures
        papers_all(Seq::empty(), start, wanted, ballots) == papers_all(Seq::empty(), start, wanted, ballots.take(k)),
    decreases ballots.len(),
{
    if k == ballots.len() {
        assert(ballots.take(k) =~= ballots);
    } else {
        assert(ballots.drop_last().take(k) =~= ballots.take(k));
        lemma_papers_all_fails(start, wanted, ballots.drop_last(), k);
    }
}

/// Tabulates the questions `wanted` over the ballots that a filter
/// matched, as rows of the cache under `key` and `vote_year`.
pub fn tabulate(
    wanted: &Vec<String>,
    ballots: &Vec<Ballot>,
    vote_start: i64,
    key: &str,
    vote_year: i32,
) -> (r: Result<Vec<CachedQuestionEntry>, ServiceError>)
    ensures
        tabulate_ok(r, texts(wanted@), ballots@, vote_start, key@, vote_year),
{
    let mut tally = QuestionTally::new(vote_start, wanted);
    let mut i: usize = 0;
    while i < ballots.len()
        invariant
            i <= ballots.len(),
            tally.wf(),
            tally.start() == vote_start,
            tally.wanted() == texts(wanted@),
            papers_all(Seq::empty(), vote_start, texts(wanted@), ballots@.take(i as int))
                == Ok::<Seq<Counted>, TallyError>(tally@),
        decreases ballots.len() - i,
    {
        proof {
            assert(ballots@.take(i as int + 1).drop_last() =~= ballots@.take(i as int));
            assert(ballots@.take(i as int + 1).last() == ballots@[i as int]);
        }
        match tally.add_ballot(&ballots[i]) {
            Ok(()) => {},
            Err(e) => {
                proof {
                    lemma_papers_all_fails(vote_start, texts(wanted@), ballots@, i as int + 1);
                }
                return Err(tally_error(e));
            },
        }
        i += 1;
    }
    proof {
        assert(ballots@.take(ballots.len() as int) =~= ballots@);
    }
    Ok(tally.results(key, vote_year))
}

/// The question ids of a list of tabulations.
pub open spec fn item_ids(items: Seq<CachedQuestionItem>) -> Seq<Seq<char>> {
    Seq::new(items.len(), |i: int| items[i].question_id@)
}

/// Those of `names` that `known` lacks, in the same order.
pub open spec fn without(names: Seq<Seq<char>>, known: Seq<Seq<char>>) -> Seq<Seq<char>>
    decreases names.len(),
{
    if names.len() == 0 {
        Seq::empty()
    } else {
        let rest = without(names.drop_last(), known);
        if known.contains(names.last()) {
            rest
        } else {
            rest.push(names.last())
        }
    }
}

/// The questions asked for that the cache does not hold: only these are
/// scanned for.
pub fn missing_questions(
    questions_of_interest: &Vec<String>,
    cached: &Vec<CachedQuestionItem>,
) -> (missing: Vec<String>)
    ensures
        texts(missing@) == without(texts(questions_of_interest@), item_ids(cached@)),
{
    let mut known: StringHashMap<bool> = StringHashMap::new();
    let ghost ids = item_ids(cached@);
    let mut c: usize = 0;
    while c < cached.len()
        invariant
            c <= cached.len(),
            ids == item_ids(cached@),
            forall|n: Seq<char>| (#[trigger] known@.contains_key(n)) <==> ids.take(c as int).contains(n),
        decreases cached.len() - c,
    {
        known.insert(cached[c].question_id.clone(), true);
        proof {
            let was = ids.take(c as int);
            let now = ids.take(c as int + 1);
            assert forall|n: Seq<char>| now.contains(n)
                <==> (was.contains(n) || n == cached[c as int].question_id@) by {
                if now.contains(n) {
                    let k = choose|k: int| 0 <= k < now.len() && now[k] == n;
                    if k < c {
                        assert(was[k] == n);
                    }
                }
                if was.contains(n) {
                    let k = choose|k: int| 0 <= k < was.len() && was[k] == n;
                    assert(now[k] == n);
                }
                if n == cached[c as int].question_id@ {
                    assert(now[c as int] == n);
                }
            }
        }
        c += 1;
    }
    proof {
        assert(ids.take(cached.len() as int) =~= ids);
    }
    let mut missing: Vec<String> = Vec::new();
    let ghost asked = texts(questions_of_interest@);
    let mut i: usize = 0;
    proof {
        assert(texts(missing@) =~= without(asked.take(0), ids));
    }
    while i < questions_of_interest.len()
        invariant
            i <= questions_of_interest.len(),
            asked == texts(questions_of_interest@),
            ids == item_ids(cached@),
            forall|n: Seq<char>| (#[trigger] known@.contains_key(n)) <==> ids.contains(n),
            texts(missing@) == without(asked.take(i as int), ids),
        decreases questions_of_interest.len() - i,
    {
        proof {
            assert(asked.take(i as int + 1).drop_last() =~= asked.take(i as int));
            assert(asked.take(i as int + 1).last() == questions_of_interest[i as int]@);
        }
        if !known.contains_key(questions_of_interest[i].as_str()) {
            let ghost before = texts(missing@);
            missing.push(questions_of_interest[i].clone());
            proof {
                assert(texts(missing@) =~= before.push(questions_of_interest[i as int]@));
            }
        }
        i += 1;
    }
    proof {
        assert(asked.take(questions_of_interest.len() as int) =~= asked);
    }
    missing
}

/// The answer to a questionnaire request: the tabulations that the cache
/// held, then those that were computed.
pub fn paper_result(
    cached: Vec<CachedQuestionItem>,
    computed: Vec<CachedQuestionEntry>,
) -> (resp: QueryQuestionnaireResponse)
    ensures
        resp.entries@.len() == cached@.len() + computed@.len(),
        forall|i: int| 0 <= i < cached@.len() ==> #[trigger] resp.entries@[i] == cached@[i],
        forall|i: int| 0 <= i < computed@.len() ==> #[trigger] resp.entries@[cached@.len() + i] == computed@[i].entry,
{
    let mut entries = cached;
    let mut rest = computed;
    let ghost all = rest@;
    let ghost base = entries@;
    let mut tail: Vec<CachedQuestionItem> = Vec::new();
    while rest.len() > 0
        invariant
            rest@ == all.take(rest.len() as int),
            tail.len() + rest.len() == all.len(),
            forall|k: int| 0 <= k < tail.len() ==> #[trigger] tail@[k] == all[all.len() - 1 - k].entry,
        decreases rest.len(),
    {
        let e = rest.pop().unwrap();
        tail.push(e.entry);
        proof {
            assert(rest@ =~= all.take(rest.len() as int));
        }
    }
    while tail.len() > 0
        invariant
            tail.len() <= all.len(),
            entries@.len() == base.len() + (all.len() - tail.len()),
            forall|i: int| 0 <= i < base.len() ==> #[trigger] entries@[i] == base[i],
            forall|i: int| 0 <= i < all.len() - tail.len() ==> #[trigger] entries@[base.len() + i] == all[i].entry,
            forall|k: int| 0 <= k < tail.len() ==> #[trigger] tail@[k] == all[all.len() - 1 - k].entry,
        decreases tail.len(),
    {
        let ghost n = tail.len() as int;
        let e = tail.pop().unwrap();
        proof {
            assert(e == all[all.len() - n].entry);
        }
        entries.push(e);
    }
    QueryQuestionnaireResponse { entries }
}

/// The first row of the cache that is about the question, if there is one.
pub open spec fn row_of(rows: Seq<CachedQuestionEntry>, question_id: Seq<char>) -> Option<int>
    decreases rows.len(),
{
    if rows.len() == 0 {
        None
    } else {
        match row_of(rows.drop_last(), question_id) {
            Some(i) => Some(i),
            None => if rows.last().entry.question_id@ == question_id {
                Some(rows.len() - 1)
            } else {
                None
            },
        }
    }
}

/// The trend of a question as the cache holds it; empty where the cache
/// has no row of the question.
pub fn papers_trend(rows: &Vec<CachedQuestionEntry>, question_id: &String) -> (resp: TrendResponse)
    ensures
        resp.trend_first@ == Seq::<VotingTrendItem>::empty(),
        match row_of(rows@, question_id@) {
            Some(i) => 0 <= i < rows.len() && resp.trend@ == rows[i].trend@,
            None => resp.trend@ == Seq::<VotingTrendItem>::empty(),
        },
{
    let mut i: usize = 0;
    while i < rows.len()
        invariant
            i <= rows.len(),
            row_of(rows@.take(i as int), question_id@).is_none(),
        decreases rows.len() - i,
    {
        proof {
            assert(rows@.take(i as int + 1).drop_last() =~= rows@.take(i as int));
            assert(rows@.take(i as int + 1).last() == rows@[i as int]);
        }
        if rows[i].entry.question_id == *question_id {
            proof {
                lemma_row_found(rows@, question_id@, i as int);
            }
            return TrendResponse { trend: copy_trend(&rows[i].trend), trend_first: Vec::new() };
        }
        i += 1;
    }
    proof {
        assert(rows@.take(rows.len() as int) =~= rows@);
    }
    TrendResponse { trend: Vec::new(), trend_first: Vec::new() }
}

proof fn lemma_row_found(rows: Seq<CachedQuestionEntry>, q: Seq<char>, i: int)
    requires
        0 <= i < rows.len(),
        row_of(rows.take(i + 1), q) == Some(i),
    ensures
        row_of(rows, q) == Some(i),
    decreases rows.len(),
{
    if i + 1 == rows.len() {
        assert(rows.take(i + 1) =~= rows);
    } else {
        assert(rows.drop_last().take(i + 1) =~= rows.take(i + 1));
        lemma_row_found(rows.drop_last(), q, i);
    }
}

} // verus!
