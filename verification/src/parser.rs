//! The filter language: its words, its grammar and the compiler from text
//! to filters.
//!
//! ```text
//! query     := and_query ("OR" query)?
//! and_query := primary ("AND" and_query)?
//! primary   := "(" query ")" | condition
//! condition := ident ":" "[" value ("," value)* "]" | ident "=" value
//! value     := integer | quoted string
//! ```
//!
//! `AND` and `OR` are reserved words. Blanks between words are skipped.

use vstd::prelude::*;
use crate::filter::{
    eq_condition, eq_condition_of, Filter, FilterView, in_condition, in_condition_of, is_digit,
};
use crate::service_error::{bare_error, SERVICE_NAME, ServiceError};
use crate::text::{chars_of, text_of, texts};

verus! {

/// A word of the filter language.
#[derive(Debug)]
pub enum Token {
    LParen,
    RParen,
    LBracket,
    RBracket,
    Colon,
    Equals,
    Comma,
    And,
    Or,
    Ident(Vec<char>),
    /// An integer as written, or the text between the quotes of a string.
    Value(Vec<char>),
}

/// The mathematical value of a word.
pub ghost enum TokenView {
    LParen,
    RParen,
    LBracket,
    RBracket,
    Colon,
    Equals,
    Comma,
    And,
    Or,
    Ident(Seq<char>),
    Value(Seq<char>),
}

impl View for Token {
    type V = TokenView;

    open spec fn view(&self) -> TokenView {
        match self {
            Token::LParen => TokenView::LParen,
            Token::RParen => TokenView::RParen,
            Token::LBracket => TokenView::LBracket,
            Token::RBracket => TokenView::RBracket,
            Token::Colon => TokenView::Colon,
            Token::Equals => TokenView::Equals,
            Token::Comma => TokenView::Comma,
            Token::And => TokenView::And,
            Token::Or => TokenView::Or,
            Token::Ident(t) => TokenView::Ident(t@),
            Token::Value(t) => TokenView::Value(t@),
        }
    }
}

/// The mathematical values of a list of words.
pub open spec fn words(tokens: Seq<Token>) -> Seq<TokenView> {
    Seq::new(tokens.len(), |i: int| tokens[i]@)
}

/// A blank between words.
pub open spec fn is_space(c: char) -> bool {
    c == ' ' || c == '\t' || c == '\n' || c == '\r'
}

/// A character that an identifier may start with.
pub open spec fn is_ident_start(c: char) -> bool {
    ('a' <= c && c <= 'z') || ('A' <= c && c <= 'Z') || c == '_'
}

/// A character that an identifier may hold.
pub open spec fn is_ident_char(c: char) -> bool {
    is_ident_start(c) || is_digit(c)
}

/// The kinds of runs that a word is made of.
#[derive(Clone, Copy, Debug, PartialEq, Eq, Structural)]
pub enum Run {
    Digits,
    IdentChars,
    /// Anything but a double quote.
    Quoted,
}

/// Whether a character belongs to a run of the given kind.
pub open spec fn in_run(run: Run, c: char) -> bool {
    match run {
        Run::Digits => is_digit(c),
        Run::IdentChars => is_ident_char(c),
        Run::Quoted => c != '"',
    }
}

/// The end of the longest run of the given kind that starts at `i`.
pub open spec fn run_end(s: Seq<char>, i: int, run: Run) -> int
    decreases s.len() - i,
{
    if 0 <= i < s.len() && in_run(run, s[i]) {
        run_end(s, i + 1, run)
    } else {
        i
    }
}

/// The word that starts at position `i`, and the position after it.
pub open spec fn word_at(s: Seq<char>, i: int) -> Option<(TokenView, int)> {
    let c = s[i];
    if c == '(' {
        Some((TokenView::LParen, i + 1))
    } else if c == ')' {
        Some((TokenView::RParen, i + 1))
    } else if c == '[' {
        Some((TokenView::LBracket, i + 1))
    } else if c == ']' {
        Some((TokenView::RBracket, i + 1))
    } else if c == ':' {
        Some((TokenView::Colon, i + 1))
    } else if c == '=' {
        Some((TokenView::Equals, i + 1))
    } else if c == ',' {
        Some((TokenView::Comma, i + 1))
    } else if c == '"' {
        let e = run_end(s, i + 1, Run::Quoted);
        if e < s.len() {
            Some((TokenView::Value(s.subrange(i + 1, e)), e + 1))
        } else {
            None
        }
    } else if is_digit(c) || c == '-' {
        let start = if c == '-' { i + 1 } else { i };
        let e = run_end(s, start, Run::Digits);
        if e > start {
            Some((TokenView::Value(s.subrange(i, e)), e))
        } else {
            None
        }
    } else if is_ident_start(c) {
        let e = run_end(s, i + 1, Run::IdentChars);
        let word = s.subrange(i, e);
        if word == seq!['A', 'N', 'D'] {
            Some((TokenView::And, e))
        } else if word == seq!['O', 'R'] {
            Some((TokenView::Or, e))
        } else {
            Some((TokenView::Ident(word), e))
        }
    } else {
        None
    }
}

/// The words of `s` from position `i` on; none if some character starts no
/// word.
pub open spec fn words_from(s: Seq<char>, i: int) -> Option<Seq<TokenView>>
    decreases s.len() - i,
{
    if i < 0 || i >= s.len() {
        Some(Seq::empty())
    } else if is_space(s[i]) {
        words_from(s, i + 1)
    } else {
        match word_at(s, i) {
            None => None,
            Some((word, j)) => if j <= i || j > s.len() {
                None
            } else {
                match words_from(s, j) {
                    None => None,
                    Some(rest) => Some(seq![word] + rest),
                }
            },
        }
    }
}

fn in_run_exec(run: Run, c: char) -> (r: bool)
    ensures
        r == in_run(run, c),
{
    match run {
        Run::Digits => '0' <= c && c <= '9',
        Run::IdentChars => ('a' <= c && c <= 'z') || ('A' <= c && c <= 'Z') || c == '_' || ('0' <= c && c <= '9'),
        Run::Quoted => c != '"',
    }
}

fn scan_run(s: &Vec<char>, i: usize, run: Run) -> (e: usize)
    requires
        i <= s.len(),
    ensures
        e == run_end(s@, i as int, run),
        i <= e <= s.len(),
{
    let mut e: usize = i;
    while e < s.len() && in_run_exec(run, s[e])
        invariant
            i <= e <= s.len(),
            run_end(s@, i as int, run) == run_end(s@, e as int, run),
        decreases s.len() - e,
    {
        e += 1;
    }
    e
}

fn slice(s: &Vec<char>, from: usize, to: usize) -> (r: Vec<char>)
    requires
        from <= to <= s.len(),
    ensures
        r@ == s@.subrange(from as int, to as int),
{
    let mut r: Vec<char> = Vec::new();
    let mut k: usize = from;
    while k < to
        invariant
            from <= k <= to,
            to <= s.len(),
            r@ == s@.subrange(from as int, k as int),
        decreases to - k,
    {
        r.push(s[k]);
        proof {
            assert(s@.subrange(from as int, k as int).push(s@[k as int]) =~= s@.subrange(from as int, k as int + 1));
        }
        k += 1;
    }
    r
}

/// The word that starts at `i`.
fn read_word(s: &Vec<char>, i: usize) -> (r: Option<(Token, usize)>)
    requires
        i < s.len(),
    ensures
        match r {
            Some((t, j)) => word_at(s@, i as int) == Some((t@, j as int)) && i < j <= s.len(),
            None => word_at(s@, i as int).is_none(),
        },
{
    let c = s[i];
    if c == '(' {
        Some((Token::LParen, i + 1))
    } else if c == ')' {
        Some((Token::RParen, i + 1))
    } else if c == '[' {
        Some((Token::LBracket, i + 1))
    } else if c == ']' {
        Some((Token::RBracket, i + 1))
    } else if c == ':' {
        Some((Token::Colon, i + 1))
    } else if c == '=' {
        Some((Token::Equals, i + 1))
    } else if c == ',' {
        Some((Token::Comma, i + 1))
    } else if c == '"' {
        let e = scan_run(s, i + 1, Run::Quoted);
        if e < s.len() {
            Some((Token::Value(slice(s, i + 1, e)), e + 1))
        } else {
            None
        }
    } else if ('0' <= c && c <= '9') || c == '-' {
        let start = if c == '-' {
            i + 1
        } else {
            i
        };
        let e = scan_run(s, start, Run::Digits);
        if e > start {
            Some((Token::Value(slice(s, i, e)), e))
        } else {
            None
        }
    } else if ('a' <= c && c <= 'z') || ('A' <= c && c <= 'Z') || c == '_' {
        let e = scan_run(s, i + 1, Run::IdentChars);
        let word = slice(s, i, e);
        if word.len() == 3 && word[0] == 'A' && word[1] == 'N' && word[2] == 'D' {
            proof {
                assert(word@ =~= seq!['A', 'N', 'D']);
            }
            Some((Token::And, e))
        } else if word.len() == 2 && word[0] == 'O' && word[1] == 'R' {
            proof {
                assert(word@ =~= seq!['O', 'R']);
            }
            Some((Token::Or, e))
        } else {
            proof {
                assert(word@ != seq!['A', 'N', 'D']) by {
                    if word@ == seq!['A', 'N', 'D'] {
                        assert(word@.len() == 3 && word@[0] == 'A' && word@[1] == 'N' && word@[2] == 'D');
                    }
                }
                assert(word@ != seq!['O', 'R']) by {
                    if word@ == seq!['O', 'R'] {
                        assert(word@.len() == 2 && word@[0] == 'O' && word@[1] == 'R');
                    }
                }
            }
            Some((Token::Ident(word), e))
        }
    } else {
        None
    }
}

/// The words of a text.
pub fn tokenize(s: &Vec<char>) -> (r: Option<Vec<Token>>)
    ensures
        match r {
            Some(tokens) => words_from(s@, 0) == Some(words(tokens@)),
            None => words_from(s@, 0).is_none(),
        },
{
    let mut tokens: Vec<Token> = Vec::new();
    let mut i: usize = 0;
    proof {
        assert(words(tokens@) =~= Seq::<TokenView>::empty());
    }
    while i < s.len()
        invariant
            i <= s.len(),
            words_from(s@, 0) == (match words_from(s@, i as int) {
                Some(rest) => Some(words(tokens@) + rest),
                None => None,
            }),
        decreases s.len() - i,
    {
        let c = s[i];
        if c == ' ' || c == '\t' || c == '\n' || c == '\r' {
            i += 1;
        } else {
            match read_word(s, i) {
                None => {
                    return None;
                },
                Some((t, j)) => {
                    let ghost before = words(tokens@);
                    tokens.push(t);
                    proof {
                        assert(words(tokens@) =~= before.push(t@));
                        match words_from(s@, j as int) {
                            Some(rest) => {
                                assert(before + (seq![t@] + rest) =~= before.push(t@) + rest);
                            },
                            None => {},
                        }
                    }
                    i = j;
                },
            }
        }
    }
    proof {
        assert(words(tokens@) + Seq::<TokenView>::empty() =~= words(tokens@));
    }
    Some(tokens)
}

/// A list of values separated by commas, from word `i` on, and the
/// position after it.
pub open spec fn values_at(t: Seq<TokenView>, i: int) -> Option<(Seq<Seq<char>>, int)>
    decreases t.len() - i,
{
    if i < 0 || i >= t.len() {
        None
    } else {
        match t[i] {
            TokenView::Value(v) => if i + 1 < t.len() && t[i + 1] == TokenView::Comma {
                match values_at(t, i + 2) {
                    Some((rest, j)) => Some((seq![v] + rest, j)),
                    None => None,
                }
            } else {
                Some((seq![v], i + 1))
            },
            _ => None,
        }
    }
}

/// A condition from word `i` on, compiled, and the position after it.
pub open spec fn condition_at(t: Seq<TokenView>, i: int) -> Option<(FilterView, int)> {
    if i < 0 || i + 2 >= t.len() {
        None
    } else {
        match t[i] {
            TokenView::Ident(ident) => if t[i + 1] == TokenView::Colon && t[i + 2] == TokenView::LBracket {
                match values_at(t, i + 3) {
                    Some((values, j)) => if 0 <= j < t.len() && t[j] == TokenView::RBracket {
                        Some((in_condition_of(ident, values), j + 1))
                    } else {
                        None
                    },
                    None => None,
                }
            } else if t[i + 1] == TokenView::Equals {
                match t[i + 2] {
                    TokenView::Value(v) => Some((eq_condition_of(ident, v), i + 3)),
                    _ => None,
                }
            } else {
                None
            },
            _ => None,
        }
    }
}

/// A condition, or a query in parentheses, from word `i` on.
pub open spec fn primary_at(t: Seq<TokenView>, i: int) -> Option<(FilterView, int)>
    decreases t.len() - i, 0int,
{
    if i < 0 || i >= t.len() {
        None
    } else if t[i] == TokenView::LParen {
        match query_at(t, i + 1) {
            Some((f, j)) => if 0 <= j < t.len() && t[j] == TokenView::RParen {
                Some((f, j + 1))
            } else {
                None
            },
            None => None,
        }
    } else {
        condition_at(t, i)
    }
}

/// Primaries joined by `AND`, from word `i` on; the operator groups to the
/// right.
pub open spec fn and_at(t: Seq<TokenView>, i: int) -> Option<(FilterView, int)>
    decreases t.len() - i, 1int,
{
    if i < 0 || i >= t.len() {
        None
    } else {
        match primary_at(t, i) {
            Some((left, j)) => if i < j < t.len() && t[j] == TokenView::And {
                match and_at(t, j + 1) {
                    Some((right, k)) => Some((FilterView::And(Box::new(left), Box::new(right)), k)),
                    None => None,
                }
            } else {
                Some((left, j))
            },
            None => None,
        }
    }
}

/// Conjunctions joined by `OR`, from word `i` on; the operator groups to
/// the right.
pub open spec fn query_at(t: Seq<TokenView>, i: int) -> Option<(FilterView, int)>
    decreases t.len() - i, 2int,
{
    if i < 0 || i >= t.len() {
        None
    } else {
        match and_at(t, i) {
            Some((left, j)) => if i < j < t.len() && t[j] == TokenView::Or {
                match query_at(t, j + 1) {
                    Some((right, k)) => Some((FilterView::Or(Box::new(left), Box::new(right)), k)),
                    None => None,
                }
            } else {
                Some((left, j))
            },
            None => None,
        }
    }
}

/// The filter that a list of words compiles to: the words are one query,
/// with nothing after it.
pub open spec fn root_of(t: Seq<TokenView>) -> Option<FilterView> {
    match query_at(t, 0) {
        Some((f, j)) => if j == t.len() {
            Some(f)
        } else {
            None
        },
        None => None,
    }
}

/// The filter that a text compiles to, if it is a query.
pub open spec fn compiled(query: Seq<char>) -> Option<FilterView> {
    match words_from(query, 0) {
        Some(t) => root_of(t),
        None => None,
    }
}

fn is_word(t: &Vec<Token>, i: usize, word: &Token) -> (r: bool)
    requires
        !(word@ is Ident),
        !(word@ is Value),
    ensures
        r == (i < t.len() && words(t@)[i as int] == word@),
{
    if i >= t.len() {
        return false;
    }
    match (&t[i], word) {
        (Token::LParen, Token::LParen) => true,
        (Token::RParen, Token::RParen) => true,
        (Token::LBracket, Token::LBracket) => true,
        (Token::RBracket, Token::RBracket) => true,
        (Token::Colon, Token::Colon) => true,
        (Token::Equals, Token::Equals) => true,
        (Token::Comma, Token::Comma) => true,
        (Token::And, Token::And) => true,
        (Token::Or, Token::Or) => true,
        _ => false,
    }
}

fn parse_value(t: &Vec<Token>, i: usize) -> (r: Option<String>)
    ensures
        match r {
            Some(v) => i < t.len() && words(t@)[i as int] == TokenView::Value(v@),
            None => !(i < t.len() && words(t@)[i as int] is Value),
        },
{
    if i >= t.len() {
        return None;
    }
    match &t[i] {
        Token::Value(v) => Some(text_of(v)),
        _ => None,
    }
}

fn parse_value_list(t: &Vec<Token>, i: usize) -> (r: Option<(Vec<String>, usize)>)
    ensures
        match r {
            Some((values, j)) => values_at(words(t@), i as int) == Some((texts(values@), j as int))
                && i < j <= t.len(),
            None => values_at(words(t@), i as int).is_none(),
        },
{
    let ghost w = words(t@);
    let mut values: Vec<String> = Vec::new();
    let mut k: usize = i;
    proof {
        assert(texts(values@) =~= Seq::<Seq<char>>::empty());
    }
    loop
        invariant
            w == words(t@),
            i <= k,
            k == i ==> values.len() == 0,
            values_at(w, i as int) == (match values_at(w, k as int) {
                Some((rest, j)) => Some((texts(values@) + rest, j)),
                None => None,
            }),
        decreases t.len() - k,
    {
        let v = match parse_value(t, k) {
            Some(v) => v,
            None => {
                return None;
            },
        };
        let ghost before = texts(values@);
        values.push(v);
        proof {
            assert(texts(values@) =~= before.push(v@));
            assert(before + seq![v@] =~= before.push(v@));
        }
        if is_word(t, k + 1, &Token::Comma) {
            proof {
                match values_at(w, k as int + 2) {
                    Some((rest, j)) => {
                        assert(before + (seq![v@] + rest) =~= before.push(v@) + rest);
                    },
                    None => {},
                }
            }
            k = k + 2;
        } else {
            return Some((values, k + 1));
        }
    }
}

fn ident_at(t: &Vec<Token>, i: usize) -> (r: Option<String>)
    ensures
        match r {
            Some(v) => i < t.len() && words(t@)[i as int] == TokenView::Ident(v@),
            None => !(i < t.len() && words(t@)[i as int] is Ident),
        },
{
    if i >= t.len() {
        return None;
    }
    match &t[i] {
        Token::Ident(v) => Some(text_of(v)),
        _ => None,
    }
}

fn parse_in_condition(t: &Vec<Token>, ident: &String, i: usize) -> (r: Option<(Filter, usize)>)
    requires
        i <= t.len(),
    ensures
        match r {
            Some((f, j)) => i < j <= t.len() && exists|values: Seq<Seq<char>>, e: int|
                values_at(words(t@), i as int) == Some((values, e)) && e < t.len()
                    && words(t@)[e] == TokenView::RBracket && j == e + 1
                    && f@ == in_condition_of(ident@, values),
            None => match values_at(words(t@), i as int) {
                Some((values, e)) => !(0 <= e < t.len() && words(t@)[e] == TokenView::RBracket),
                None => true,
            },
        },
{
    match parse_value_list(t, i) {
        Some((values, e)) => {
            if is_word(t, e, &Token::RBracket) {
                Some((in_condition(ident.as_str(), &values), e + 1))
            } else {
                None
            }
        },
        None => None,
    }
}

fn parse_eq_condition(t: &Vec<Token>, ident: &String, i: usize) -> (r: Option<(Filter, usize)>)
    ensures
        match r {
            Some((f, j)) => i < t.len() && j == i + 1
                && exists|v: Seq<char>| words(t@)[i as int] == TokenView::Value(v)
                    && f@ == eq_condition_of(ident@, v),
            None => !(i < t.len() && words(t@)[i as int] is Value),
        },
{
    match parse_value(t, i) {
        Some(v) => Some((eq_condition(ident.as_str(), v), i + 1)),
        None => None,
    }
}

fn parse_condition(t: &Vec<Token>, i: usize) -> (r: Option<(Filter, usize)>)
    requires
        i <= t.len(),
    ensures
        match r {
            Some((f, j)) => condition_at(words(t@), i as int) == Some((f@, j as int)) && i < j <= t.len(),
            None => condition_at(words(t@), i as int).is_none(),
        },
{
    if t.len() < 3 || i >= t.len() - 2 {
        return None;
    }
    let ident = match ident_at(t, i) {
        Some(id) => id,
        None => {
            return None;
        },
    };
    if is_word(t, i + 1, &Token::Colon) && is_word(t, i + 2, &Token::LBracket) {
        parse_in_condition(t, &ident, i + 3)
    } else if is_word(t, i + 1, &Token::Equals) {
        parse_eq_condition(t, &ident, i + 2)
    } else {
        None
    }
}

fn parse_primary_query(t: &Vec<Token>, i: usize) -> (r: Option<(Filter, usize)>)
    requires
        i <= t.len(),
    ensures
        match r {
            Some((f, j)) => primary_at(words(t@), i as int) == Some((f@, j as int)) && i < j <= t.len(),
            None => primary_at(words(t@), i as int).is_none(),
        },
    decreases t.len() - i, 0int,
{
    if i >= t.len() {
        return None;
    }
    if is_word(t, i, &Token::LParen) {
        match parse_query(t, i + 1) {
            Some((f, j)) => {
                if is_word(t, j, &Token::RParen) {
                    Some((f, j + 1))
                } else {
                    None
                }
            },
            None => None,
        }
    } else {
        parse_condition(t, i)
    }
}

fn parse_and_query(t: &Vec<Token>, i: usize) -> (r: Option<(Filter, usize)>)
    requires
        i <= t.len(),
    ensures
        match r {
            Some((f, j)) => and_at(words(t@), i as int) == Some((f@, j as int)) && i < j <= t.len(),
            None => and_at(words(t@), i as int).is_none(),
        },
    decreases t.len() - i, 1int,
{
    if i >= t.len() {
        return None;
    }
    match parse_primary_query(t, i) {
        Some((left, j)) => {
            if is_word(t, j, &Token::And) {
                match parse_and_query(t, j + 1) {
                    Some((right, k)) => Some((Filter::And(Box::new(left), Box::new(right)), k)),
                    None => None,
                }
            } else {
                Some((left, j))
            }
        },
        None => None,
    }
}

fn parse_query(t: &Vec<Token>, i: usize) -> (r: Option<(Filter, usize)>)
    requires
        i <= t.len(),
    ensures
        match r {
            Some((f, j)) => query_at(words(t@), i as int) == Some((f@, j as int)) && i < j <= t.len(),
            None => query_at(words(t@), i as int).is_none(),
        },
    decreases t.len() - i, 2int,
{
    if i >= t.len() {
        return None;
    }
    match parse_and_query(t, i) {
        Some((left, j)) => {
            if is_word(t, j, &Token::Or) {
                match parse_query(t, j + 1) {
                    Some((right, k)) => Some((Filter::Or(Box::new(left), Box::new(right)), k)),
                    None => None,
                }
            } else {
                Some((left, j))
            }
        },
        None => None,
    }
}

fn parse_root(t: &Vec<Token>) -> (r: Option<Filter>)
    ensures
        match r {
            Some(f) => root_of(words(t@)) == Some(f@),
            None => root_of(words(t@)).is_none(),
        },
{
    match parse_query(t, 0) {
        Some((f, j)) => {
            if j == t.len() {
                Some(f)
            } else {
                None
            }
        },
        None => None,
    }
}

/// The parser of the filter language.
#[derive(Clone, Copy, Debug)]
pub struct QueryParser;

impl QueryParser {
    /// Compiles a query; none if the text is no query.
    pub fn parse(query: &str) -> (r: Option<Filter>)
        ensures
            match r {
                Some(f) => compiled(query@) == Some(f@),
                None => compiled(query@).is_none(),
            },
    {
        let chars = chars_of(query);
        match tokenize(&chars) {
            Some(tokens) => parse_root(&tokens),
            None => None,
        }
    }
}

/// The error for a text that is no query.
pub open spec fn malformed_query() -> crate::service_error::ErrorView {
    bare_error(SERVICE_NAME@, "MALFORMED_QUERY"@)
}

/// Compiles a query of the filter language to the filter that the ballot
/// store is asked with.
pub fn generate_mongodb_query(query: &str) -> (r: Result<Filter, ServiceError>)
    ensures
        match r {
            Ok(f) => compiled(query@) == Some(f@),
            Err(e) => compiled(query@).is_none() && e@ == malformed_query(),
        },
{
    match QueryParser::parse(query) {
        Some(f) => Ok(f),
        None => Err(ServiceError::new_error_kind(SERVICE_NAME, "MALFORMED_QUERY")),
    }
}

/// The words `x = v` and the words `x : [ v ]` compile to the same filter.
pub proof fn lemma_equality_parses_as_list_of_one(x: Seq<char>, v: Seq<char>)
    ensures
        root_of(seq![TokenView::Ident(x), TokenView::Equals, TokenView::Value(v)]) == Some(eq_condition_of(x, v)),
        root_of(seq![TokenView::Ident(x), TokenView::Colon, TokenView::LBracket, TokenView::Value(v),
            TokenView::RBracket]) == Some(
            eq_condition_of(x, v),
        ),
{
    let eq = seq![TokenView::Ident(x), TokenView::Equals, TokenView::Value(v)];
    let list = seq![TokenView::Ident(x), TokenView::Colon, TokenView::LBracket, TokenView::Value(v),
        TokenView::RBracket];
    crate::filter::lemma_eq_is_in_of_one(x, v);
    assert(condition_at(eq, 0) == Some((eq_condition_of(x, v), 3int)));
    assert(primary_at(eq, 0) == condition_at(eq, 0));
    assert(and_at(eq, 0) == primary_at(eq, 0));
    assert(query_at(eq, 0) == and_at(eq, 0));
    assert(values_at(list, 3) == Some((seq![v], 4int)));
    assert(condition_at(list, 0) == Some((in_condition_of(x, seq![v]), 5int)));
    assert(primary_at(list, 0) == condition_at(list, 0));
    assert(and_at(list, 0) == primary_at(list, 0));
    assert(query_at(list, 0) == and_at(list, 0));
}

} // verus!
