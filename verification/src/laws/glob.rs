//! What patterns match: each by what its pieces match.

use vstd::prelude::*;

use crate::flash::{globbed, matches_glob};
use crate::text::{upper, uppercase};

verus! {

proof fn lemma_shift(pattern: Seq<char>, text: Seq<char>, p: int, t: int)
    requires
        0 <= p <= pattern.len(),
        0 <= t <= text.len(),
    ensures
        globbed(pattern, text, p, t) == globbed(pattern.skip(p), text.skip(t), 0, 0),
    decreases pattern.len() - p, text.len() - t,
{
    lemma_shift_by(pattern, text, p, t, p, t);
}

proof fn lemma_shift_by(
    pattern: Seq<char>,
    text: Seq<char>,
    p: int,
    t: int,
    from: int,
    start: int,
)
    requires
        0 <= from <= p <= pattern.len(),
        0 <= start <= t <= text.len(),
    ensures
        globbed(pattern, text, p, t) == globbed(
            pattern.skip(from),
            text.skip(start),
            p - from,
            t - start,
        ),
    decreases pattern.len() - p, text.len() - t,
{
    if p < pattern.len() {
        if pattern[p] == '*' {
            lemma_shift_by(pattern, text, p + 1, t, from, start);
            if t < text.len() {
                lemma_shift_by(pattern, text, p, t + 1, from, start);
            }
        } else if t < text.len() {
            lemma_shift_by(pattern, text, p + 1, t + 1, from, start);
        }
    }
}

spec fn fits(pattern: Seq<char>, text: Seq<char>) -> bool {
    globbed(pattern, text, 0, 0)
}

proof fn lemma_join(a: Seq<char>, b: Seq<char>, text: Seq<char>, at: int)
    requires
        0 <= at <= text.len(),
        fits(a, text.take(at)),
        fits(b, text.skip(at)),
    ensures
        fits(a + b, text),
    decreases a.len(), text.len(),
{
    let whole = a + b;
    let head = text.take(at);
    if a.len() == 0 {
        assert(whole =~= b);
        assert(text.skip(0) =~= text);
    } else {
        let rest = a.skip(1);
        assert(whole.skip(1) =~= rest + b);
        lemma_shift(whole, text, 1, 0);
        assert(text.skip(0) =~= text);
        lemma_shift(a, head, 1, 0);
        assert(head.skip(0) =~= head);
        if a[0] == '*' {
            if fits(rest, head) {
                lemma_join(rest, b, text, at);
            } else {
                assert(head.len() > 0 && globbed(a, head, 0, 1));
                lemma_shift(a, head, 0, 1);
                lemma_shift(whole, text, 0, 1);
                assert(a.skip(0) =~= a);
                assert(whole.skip(0) =~= whole);
                assert(head.skip(1) =~= text.skip(1).take(at - 1));
                assert(text.skip(1).skip(at - 1) =~= text.skip(at));
                lemma_join(a, b, text.skip(1), at - 1);
            }
        } else {
            assert(head.len() > 0);
            assert(head[0] == text[0]);
            lemma_shift(a, head, 1, 1);
            lemma_shift(whole, text, 1, 1);
            assert(head.skip(1) =~= text.skip(1).take(at - 1));
            assert(text.skip(1).skip(at - 1) =~= text.skip(at));
            lemma_join(rest, b, text.skip(1), at - 1);
        }
    }
}

proof fn lemma_part(a: Seq<char>, b: Seq<char>, text: Seq<char>) -> (at: int)
    requires
        fits(a + b, text),
    ensures
        0 <= at <= text.len(),
        fits(a, text.take(at)),
        fits(b, text.skip(at)),
    decreases a.len(), text.len(),
{
    let whole = a + b;
    if a.len() == 0 {
        assert(whole =~= b);
        assert(text.skip(0) =~= text);
        0
    } else {
        let rest = a.skip(1);
        assert(whole.skip(1) =~= rest + b);
        lemma_shift(whole, text, 1, 0);
        assert(text.skip(0) =~= text);
        if a[0] == '*' {
            if fits(rest + b, text) {
                let at = lemma_part(rest, b, text);
                lemma_shift(a, text.take(at), 1, 0);
                assert(text.take(at).skip(0) =~= text.take(at));
                at
            } else {
                lemma_shift(whole, text, 0, 1);
                assert(whole.skip(0) =~= whole);
                let inner = lemma_part(a, b, text.skip(1));
                let at = inner + 1;
                lemma_shift(a, text.take(at), 0, 1);
                assert(a.skip(0) =~= a);
                assert(text.take(at).skip(1) =~= text.skip(1).take(inner));
                assert(text.skip(1).skip(inner) =~= text.skip(at));
                at
            }
        } else {
            lemma_shift(whole, text, 1, 1);
            let inner = lemma_part(rest, b, text.skip(1));
            let at = inner + 1;
            lemma_shift(a, text.take(at), 1, 1);
            assert(text.take(at)[0] == text[0]);
            assert(text.take(at).skip(1) =~= text.skip(1).take(inner));
            assert(text.skip(1).skip(inner) =~= text.skip(at));
            at
        }
    }
}

/// Two patterns in a row match what the first matches, followed by what the second
/// matches, and nothing else.
pub proof fn patterns_in_a_row(a: Seq<char>, b: Seq<char>, text: Seq<char>)
    ensures
        matches_glob(a + b, text) <==> exists|at: int|
            0 <= at <= text.len() && matches_glob(a, #[trigger] text.take(at)) && matches_glob(
                b,
                text.skip(at),
            ),
{
    let x = uppercase(a);
    let y = uppercase(b);
    let t = uppercase(text);
    assert(uppercase(a + b) =~= x + y);
    if matches_glob(a + b, text) {
        let at = lemma_part(x, y, t);
        assert(uppercase(text.take(at)) =~= t.take(at));
        assert(uppercase(text.skip(at)) =~= t.skip(at));
        assert(matches_glob(a, text.take(at)));
    }
    if exists|at: int|
        0 <= at <= text.len() && matches_glob(a, #[trigger] text.take(at)) && matches_glob(
            b,
            text.skip(at),
        ) {
        let at = choose|at: int|
            0 <= at <= text.len() && matches_glob(a, #[trigger] text.take(at)) && matches_glob(
                b,
                text.skip(at),
            );
        assert(uppercase(text.take(at)) =~= t.take(at));
        assert(uppercase(text.skip(at)) =~= t.skip(at));
        lemma_join(x, y, t, at);
    }
}

proof fn lemma_star(text: Seq<char>, at: int)
    requires
        0 <= at <= text.len(),
    ensures
        globbed(seq!['*'], text, 0, at),
    decreases text.len() - at,
{
    if at < text.len() {
        lemma_star(text, at + 1);
    } else {
        assert(globbed(seq!['*'], text, 1, at));
    }
}

/// A star matches every text, a question mark every single character, and any other
/// character itself, whatever its case. A pattern of nothing matches nothing else.
pub proof fn single_patterns(c: char, text: Seq<char>)
    ensures
        matches_glob(seq!['*'], text),
        matches_glob(seq!['?'], text) <==> text.len() == 1,
        c != '*' && c != '?' ==> (matches_glob(seq![c], text) <==> text.len() == 1 && upper(c)
            == upper(text[0])),
        matches_glob(Seq::empty(), text) <==> text.len() == 0,
{
    let t = uppercase(text);
    lemma_star(t, 0);
    assert(uppercase(seq!['*']) =~= seq!['*']);
    assert(uppercase(seq!['?']) =~= seq!['?']);
    assert(uppercase(seq![c]) =~= seq![upper(c)]);
    assert(uppercase(Seq::<char>::empty()) =~= Seq::<char>::empty());
    if t.len() > 0 {
        assert(globbed(seq!['?'], t, 1, 1) <==> t.len() == 1);
        assert(globbed(seq![upper(c)], t, 1, 1) <==> t.len() == 1);
    }
}

/// Letters match in either case.
pub proof fn case_does_not_matter(a: char, b: char)
    ensures
        upper(a) == upper(b) <==> a == b || ('a' <= a && a <= 'z' && b as int == a as int - 32) || (
        'a' <= b && b <= 'z' && a as int == b as int - 32),
{
}

}
