//! Framed texts: a text behind its length, so that texts written one after
//! the other can be told apart again, whatever characters they hold.

use vstd::prelude::*;
use crate::text::{chars_of, text_of, texts};

verus! {

/// The decimal digit of a number below ten.
pub open spec fn digit_of(d: nat) -> char {
    if d == 0 {
        '0'
    } else if d == 1 {
        '1'
    } else if d == 2 {
        '2'
    } else if d == 3 {
        '3'
    } else if d == 4 {
        '4'
    } else if d == 5 {
        '5'
    } else if d == 6 {
        '6'
    } else if d == 7 {
        '7'
    } else if d == 8 {
        '8'
    } else {
        '9'
    }
}

/// A number in decimal.
pub open spec fn digits(n: nat) -> Seq<char>
    decreases n,
{
    if n < 10 {
        seq![digit_of(n)]
    } else {
        digits(n / 10).push(digit_of(n % 10))
    }
}

/// A text behind its length: the length in decimal, a colon, the text.
pub open spec fn framed(t: Seq<char>) -> Seq<char> {
    digits(t.len()) + seq![':'] + t
}

/// The texts, each framed, one after the other.
pub open spec fn framed_list(parts: Seq<Seq<char>>) -> Seq<char>
    decreases parts.len(),
{
    if parts.len() == 0 {
        Seq::empty()
    } else {
        framed_list(parts.drop_last()) + framed(parts.last())
    }
}

proof fn lemma_digits(n: nat)
    ensures
        digits(n).len() >= 1,
        forall|i: int| 0 <= i < digits(n).len() ==> '0' <= #[trigger] digits(n)[i] <= '9',
    decreases n,
{
    if n >= 10 {
        lemma_digits(n / 10);
    }
}

proof fn lemma_digit_injective(a: nat, b: nat)
    requires
        a < 10,
        b < 10,
        digit_of(a) == digit_of(b),
    ensures
        a == b,
{
}

proof fn lemma_digits_injective(n: nat, m: nat)
    requires
        digits(n) == digits(m),
    ensures
        n == m,
    decreases n,
{
    lemma_digits(n / 10);
    lemma_digits(m / 10);
    if n < 10 && m < 10 {
        assert(digits(n)[0] == digit_of(n));
        assert(digits(m)[0] == digit_of(m));
        lemma_digit_injective(n, m);
    } else if n < 10 {
        assert(digits(m).len() >= 2);
    } else if m < 10 {
        assert(digits(n).len() >= 2);
    } else {
        let a = digits(n / 10);
        let b = digits(m / 10);
        assert(digits(n).last() == digit_of(n % 10));
        assert(digits(m).last() == digit_of(m % 10));
        assert(a =~= digits(n).drop_last());
        assert(b =~= digits(m).drop_last());
        lemma_digits_injective(n / 10, m / 10);
        lemma_digit_injective(n % 10, m % 10);
        assert(n == (n / 10) * 10 + n % 10);
        assert(m == (m / 10) * 10 + m % 10);
    }
}

/// A framed text ends where its length says: of two texts that start with
/// a framed text each and are equal, the framed texts are equal and so is
/// what follows them.
pub proof fn lemma_frame_splits(x: Seq<char>, r: Seq<char>, y: Seq<char>, s: Seq<char>)
    requires
        framed(x) + r == framed(y) + s,
    ensures
        x == y,
        r == s,
{
    let t = framed(x) + r;
    let dx = digits(x.len());
    let dy = digits(y.len());
    lemma_digits(x.len());
    lemma_digits(y.len());
    assert(t.len() == dx.len() + 1 + x.len() + r.len());
    assert(t.len() == dy.len() + 1 + y.len() + s.len());
    assert forall|i: int| 0 <= i < dx.len() implies t[i] == dx[i] by {
        assert((framed(x) + r)[i] == framed(x)[i]);
    }
    assert forall|i: int| 0 <= i < dy.len() implies t[i] == dy[i] by {
        assert((framed(y) + s)[i] == framed(y)[i]);
    }
    assert(t[dx.len() as int] == ':') by {
        assert((framed(x) + r)[dx.len() as int] == framed(x)[dx.len() as int]);
    }
    assert(t[dy.len() as int] == ':') by {
        assert((framed(y) + s)[dy.len() as int] == framed(y)[dy.len() as int]);
    }
    if dx.len() < dy.len() {
        assert(t[dx.len() as int] == dy[dx.len() as int]);
    } else if dy.len() < dx.len() {
        assert(t[dy.len() as int] == dx[dy.len() as int]);
    }
    assert(dx =~= dy);
    lemma_digits_injective(x.len(), y.len());
    let k = dx.len() + 1;
    assert(x =~= y) by {
        assert forall|i: int| 0 <= i < x.len() implies x[i] == y[i] by {
            assert((framed(x) + r)[k + i] == framed(x)[k + i]);
            assert((framed(y) + s)[k + i] == framed(y)[k + i]);
            assert(framed(x)[k + i] == x[i]);
            assert(framed(y)[k + i] == y[i]);
        }
    }
    assert(r =~= s) by {
        assert(r.len() == s.len());
        assert forall|i: int| 0 <= i < r.len() implies r[i] == s[i] by {
            assert((framed(x) + r)[framed(x).len() + i] == r[i]);
            assert((framed(y) + s)[framed(y).len() + i] == s[i]);
        }
    }
}

proof fn lemma_framed_list_front(parts: Seq<Seq<char>>)
    requires
        parts.len() > 0,
    ensures
        framed_list(parts) == framed(parts[0]) + framed_list(parts.drop_first()),
    decreases parts.len(),
{
    if parts.len() == 1 {
        assert(parts.drop_last() =~= Seq::<Seq<char>>::empty());
        assert(parts.drop_first() =~= Seq::<Seq<char>>::empty());
        assert(framed_list(parts) =~= framed(parts[0]) + framed_list(parts.drop_first()));
    } else {
        let init = parts.drop_last();
        lemma_framed_list_front(init);
        assert(init[0] == parts[0]);
        assert(init.drop_first() =~= parts.drop_first().drop_last());
        assert(parts.drop_first().last() == parts.last());
        assert(framed_list(parts) =~= framed(parts[0]) + framed_list(parts.drop_first()));
    }
}

/// Framed lists can be read back: two lists of texts with the same framed
/// list are the same list.
pub proof fn lemma_framed_list_injective(a: Seq<Seq<char>>, b: Seq<Seq<char>>)
    requires
        framed_list(a) == framed_list(b),
    ensures
        a == b,
    decreases a.len(),
{
    if a.len() == 0 {
        if b.len() > 0 {
            lemma_framed_list_front(b);
            lemma_digits(b[0].len());
            assert(framed_list(b).len() >= framed(b[0]).len());
        }
        assert(a =~= b);
    } else if b.len() == 0 {
        lemma_framed_list_front(a);
        lemma_digits(a[0].len());
        assert(framed_list(a).len() >= framed(a[0]).len());
    } else {
        lemma_framed_list_front(a);
        lemma_framed_list_front(b);
        lemma_frame_splits(a[0], framed_list(a.drop_first()), b[0], framed_list(b.drop_first()));
        lemma_framed_list_injective(a.drop_first(), b.drop_first());
        assert(a =~= seq![a[0]] + a.drop_first());
        assert(b =~= seq![b[0]] + b.drop_first());
    }
}

fn digit_char(d: usize) -> (c: char)
    requires
        d < 10,
    ensures
        c == digit_of(d as nat),
{
    if d == 0 {
        '0'
    } else if d == 1 {
        '1'
    } else if d == 2 {
        '2'
    } else if d == 3 {
        '3'
    } else if d == 4 {
        '4'
    } else if d == 5 {
        '5'
    } else if d == 6 {
        '6'
    } else if d == 7 {
        '7'
    } else if d == 8 {
        '8'
    } else {
        '9'
    }
}

fn push_digits(out: &mut Vec<char>, n: usize)
    ensures
        final(out)@ == old(out)@ + digits(n as nat),
    decreases n,
{
    if n < 10 {
        out.push(digit_char(n));
        proof {
            assert(out@ =~= old(out)@ + digits(n as nat));
        }
    } else {
        push_digits(out, n / 10);
        out.push(digit_char(n % 10));
        proof {
            assert(out@ =~= old(out)@ + digits(n as nat));
        }
    }
}

/// Appends the framed text.
pub fn push_framed(out: &mut Vec<char>, t: &Vec<char>)
    ensures
        final(out)@ == old(out)@ + framed(t@),
{
    push_digits(out, t.len());
    out.push(':');
    let ghost head = out@;
    let mut i: usize = 0;
    while i < t.len()
        invariant
            i <= t.len(),
            out@ == head + t@.take(i as int),
        decreases t.len() - i,
    {
        out.push(t[i]);
        proof {
            assert(head + t@.take(i as int + 1) =~= (head + t@.take(i as int)).push(t@[i as int]));
        }
        i += 1;
    }
    proof {
        assert(t@.take(t.len() as int) =~= t@);
        assert(out@ =~= old(out)@ + framed(t@));
    }
}

/// The framed text of a string.
pub fn frame(t: &str) -> (s: String)
    ensures
        s@ == framed(t@),
{
    let mut out: Vec<char> = Vec::new();
    push_framed(&mut out, &chars_of(t));
    proof {
        assert(Seq::<char>::empty() + framed(t@) =~= framed(t@));
    }
    text_of(&out)
}

/// The framed list of a list of strings.
pub fn frame_list(parts: &Vec<String>) -> (s: String)
    ensures
        s@ == framed_list(texts(parts@)),
{
    let mut out: Vec<char> = Vec::new();
    let ghost all = texts(parts@);
    let mut i: usize = 0;
    proof {
        assert(all.take(0) =~= Seq::<Seq<char>>::empty());
    }
    while i < parts.len()
        invariant
            i <= parts.len(),
            all == texts(parts@),
            out@ == framed_list(all.take(i as int)),
        decreases parts.len() - i,
    {
        proof {
            assert(all.take(i as int + 1).drop_last() =~= all.take(i as int));
            assert(all.take(i as int + 1).last() == parts[i as int]@);
        }
        push_framed(&mut out, &chars_of(parts[i].as_str()));
        i += 1;
    }
    proof {
        assert(all.take(parts.len() as int) =~= all);
    }
    text_of(&out)
}

} // verus!
