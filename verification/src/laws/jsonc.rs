//! What is taken out of JSON with comments and trailing commas.

use vstd::prelude::*;

use crate::vscode::jsonc::{
    is_blank, is_trailing, next_visible, place_after, stands_at, uncommented, untrailed, Place,
};

verus! {

/// What surrounds the end of a text without comments that begins in a place.
pub open spec fn place_behind(s: Seq<char>, place: Place) -> Place
    decreases s.len(),
{
    if s.len() == 0 {
        place
    } else {
        place_behind(s.skip(1), place_after(place, s[0]))
    }
}

/// A text before another, if there is one.
pub open spec fn before(kept: Seq<char>, rest: Option<Seq<char>>) -> Option<Seq<char>> {
    match rest {
        Some(text) => Some(kept + text),
        None => None,
    }
}

proof fn lemma_push(s: Seq<char>, at: int, place: Place, kept: Seq<char>, c: char)
    ensures
        uncommented(s, at, place, kept.push(c)) == before(
            kept,
            uncommented(s, at, place, Seq::<char>::empty().push(c)),
        ),
    decreases s.len() - at, 1int,
{
    let none = Seq::<char>::empty();
    lemma_kept_first(s, at, place, kept.push(c));
    lemma_kept_first(s, at, place, none.push(c));
    if let Some(text) = uncommented(s, at, place, seq![]) {
        assert(kept.push(c) + text =~= kept + (none.push(c) + text));
    }
}

proof fn lemma_kept_first(s: Seq<char>, at: int, place: Place, kept: Seq<char>)
    ensures
        uncommented(s, at, place, kept) == before(kept, uncommented(s, at, place, seq![])),
    decreases s.len() - at, 0int,
{
    if at < 0 || at >= s.len() {
        assert(kept + Seq::<char>::empty() =~= kept);
    } else {
        let c = s[at];
        match place {
            Place::Line => if c == '\n' {
                lemma_push(s, at + 1, Place::Plain, kept, c);
            } else {
                lemma_kept_first(s, at + 1, place, kept);
            },
            Place::Block => if c == '*' && stands_at(s, at + 1, '/') {
                lemma_kept_first(s, at + 2, Place::Plain, kept);
            } else if c == '\n' {
                lemma_push(s, at + 1, place, kept, c);
            } else {
                lemma_kept_first(s, at + 1, place, kept);
            },
            _ => if place == Place::Plain && c == '/' && stands_at(s, at + 1, '/') {
                lemma_kept_first(s, at + 2, Place::Line, kept);
            } else if place == Place::Plain && c == '/' && stands_at(s, at + 1, '*') {
                lemma_kept_first(s, at + 2, Place::Block, kept);
            } else {
                lemma_push(s, at + 1, place_after(place, c), kept, c);
            },
        }
    }
}

proof fn lemma_from_here(s: Seq<char>, at: int, from: int, place: Place, kept: Seq<char>)
    requires
        0 <= from <= at <= s.len(),
    ensures
        uncommented(s, at, place, kept) == uncommented(s.skip(from), at - from, place, kept),
    decreases s.len() - at,
{
    let t = s.skip(from);
    if at < s.len() {
        let c = s[at];
        assert(t[at - from] == c);
        assert(stands_at(s, at + 1, '/') == stands_at(t, at - from + 1, '/'));
        assert(stands_at(s, at + 1, '*') == stands_at(t, at - from + 1, '*'));
        lemma_from_here(s, at + 1, from, place, kept);
        lemma_from_here(s, at + 1, from, place, kept.push(c));
        lemma_from_here(s, at + 1, from, Place::Plain, kept.push(c));
        lemma_from_here(s, at + 1, from, place_after(place, c), kept.push(c));
        if at + 2 <= s.len() {
            lemma_from_here(s, at + 2, from, Place::Plain, kept);
            lemma_from_here(s, at + 2, from, Place::Line, kept);
            lemma_from_here(s, at + 2, from, Place::Block, kept);
        }
    }
}

proof fn lemma_plain_front(a: Seq<char>, b: Seq<char>, at: int, place: Place, kept: Seq<char>)
    requires
        0 <= at <= a.len(),
        !a.contains('/'),
        place == Place::Plain || place == Place::Text || place == Place::Escape,
    ensures
        uncommented(a + b, at, place, kept) == uncommented(
            a + b,
            a.len() as int,
            place_behind(a.skip(at), place),
            kept + a.skip(at),
        ),
        ({
            let end = place_behind(a.skip(at), place);
            end == Place::Plain || end == Place::Text || end == Place::Escape
        }),
    decreases a.len() - at,
{
    let rest = a.skip(at);
    if at < a.len() {
        assert(a.contains(a[at]));
        assert((a + b)[at] == a[at]);
        assert(rest[0] == a[at]);
        assert(rest.skip(1) =~= a.skip(at + 1));
        lemma_plain_front(a, b, at + 1, place_after(place, a[at]), kept.push(a[at]));
        assert(kept.push(a[at]) + a.skip(at + 1) =~= kept + rest);
    } else {
        assert(kept + rest =~= kept);
    }
}

proof fn lemma_line(s: Seq<char>, at: int, end: int, kept: Seq<char>)
    requires
        0 <= at <= end < s.len(),
        s[end] == '\n',
        forall|i: int| at <= i < end ==> #[trigger] s[i] != '\n',
    ensures
        uncommented(s, at, Place::Line, kept) == uncommented(
            s,
            end + 1,
            Place::Plain,
            kept.push('\n'),
        ),
    decreases end - at,
{
    if at < end {
        lemma_line(s, at + 1, end, kept);
    }
}

/// A comment up to the end of a line is taken out, and the line end is kept: what
/// stands before it stays, and so does what the rest of the text is without its own
/// comments.
pub proof fn line_comments_are_taken_out(a: Seq<char>, comment: Seq<char>, b: Seq<char>)
    requires
        !a.contains('/'),
        place_behind(a, Place::Plain) == Place::Plain,
        !comment.contains('\n'),
    ensures
        uncommented(
            a + seq!['/', '/'] + comment + seq!['\n'] + b,
            0,
            Place::Plain,
            seq![],
        ) == before(a.push('\n'), uncommented(b, 0, Place::Plain, seq![])),
{
    let tail = seq!['/', '/'] + comment + seq!['\n'] + b;
    let s = a + seq!['/', '/'] + comment + seq!['\n'] + b;
    assert(s =~= a + tail);
    let n = a.len() as int;
    let end = n + 2 + comment.len();
    assert(a.skip(0) =~= a);
    lemma_plain_front(a, tail, 0, Place::Plain, seq![]);
    assert(Seq::<char>::empty() + a =~= a);
    assert(s[n] == '/' && s[n + 1] == '/');
    assert forall|i: int| n + 2 <= i < end implies #[trigger] s[i] != '\n' by {
        assert(s[i] == comment[i - n - 2]);
        assert(comment.contains(comment[i - n - 2]));
    }
    assert(s[end] == '\n');
    lemma_line(s, n + 2, end, a);
    lemma_from_here(s, end + 1, end + 1, Place::Plain, a.push('\n'));
    assert(s.skip(end + 1) =~= b);
    lemma_kept_first(b, 0, Place::Plain, a.push('\n'));
}

/// The line ends of a text.
pub open spec fn line_ends(s: Seq<char>) -> Seq<char> {
    s.filter(|c: char| c == '\n')
}

proof fn lemma_block(s: Seq<char>, at: int, end: int, kept: Seq<char>)
    requires
        0 <= at <= end,
        end + 1 < s.len(),
        s[end] == '*',
        s[end + 1] == '/',
        forall|i: int| at <= i < end ==> #[trigger] s[i] != '*',
    ensures
        uncommented(s, at, Place::Block, kept) == uncommented(
            s,
            end + 2,
            Place::Plain,
            kept + line_ends(s.subrange(at, end)),
        ),
    decreases end - at,
{
    let part = s.subrange(at, end);
    if at < end {
        let c = s[at];
        let rest = s.subrange(at + 1, end);
        lemma_line_ends_front(c, rest);
        assert(part =~= seq![c] + rest);
        if c == '\n' {
            lemma_block(s, at + 1, end, kept.push(c));
            assert(kept.push(c) + line_ends(rest) =~= kept + line_ends(part));
        } else {
            lemma_block(s, at + 1, end, kept);
        }
    } else {
        reveal(Seq::filter);
        assert(part.len() == 0);
        assert(kept + line_ends(part) =~= kept);
    }
}

proof fn lemma_line_ends_front(c: char, rest: Seq<char>)
    ensures
        line_ends(seq![c] + rest) == (if c == '\n' {
            seq![c] + line_ends(rest)
        } else {
            line_ends(rest)
        }),
    decreases rest.len(),
{
    reveal(Seq::filter);
    let whole = seq![c] + rest;
    if rest.len() == 0 {
        assert(whole =~= seq![c]);
        assert(whole.drop_last() =~= seq![]);
        assert(line_ends(whole.drop_last()) =~= seq![]);
        assert(line_ends(rest) =~= seq![]);
        assert(line_ends(whole) =~= if c == '\n' {
            seq![c]
        } else {
            seq![]
        });
    } else {
        assert(whole.drop_last() =~= seq![c] + rest.drop_last());
        assert(whole.last() == rest.last());
        lemma_line_ends_front(c, rest.drop_last());
        assert(line_ends(whole) =~= if c == '\n' {
            seq![c] + line_ends(rest)
        } else {
            line_ends(rest)
        });
    }
}

/// A comment up to its end mark is taken out but for its line ends: what stands
/// before it stays, and so does what the rest of the text is without its own
/// comments.
pub proof fn block_comments_are_taken_out(a: Seq<char>, comment: Seq<char>, b: Seq<char>)
    requires
        !a.contains('/'),
        place_behind(a, Place::Plain) == Place::Plain,
        !comment.contains('*'),
    ensures
        uncommented(
            a + seq!['/', '*'] + comment + seq!['*', '/'] + b,
            0,
            Place::Plain,
            seq![],
        ) == before(a + line_ends(comment), uncommented(b, 0, Place::Plain, seq![])),
        uncommented(a + seq!['/', '*'] + comment, 0, Place::Plain, seq![]) is None,
{
    let tail = seq!['/', '*'] + comment + seq!['*', '/'] + b;
    let s = a + seq!['/', '*'] + comment + seq!['*', '/'] + b;
    assert(s =~= a + tail);
    let n = a.len() as int;
    let end = n + 2 + comment.len();
    assert(a.skip(0) =~= a);
    lemma_plain_front(a, tail, 0, Place::Plain, seq![]);
    assert(Seq::<char>::empty() + a =~= a);
    assert(s[n] == '/' && s[n + 1] == '*');
    assert forall|i: int| n + 2 <= i < end implies #[trigger] s[i] != '*' by {
        assert(s[i] == comment[i - n - 2]);
        assert(comment.contains(comment[i - n - 2]));
    }
    assert(s[end] == '*' && s[end + 1] == '/');
    lemma_block(s, n + 2, end, a);
    assert(s.subrange(n + 2, end) =~= comment);
    let kept = a + line_ends(comment);
    lemma_from_here(s, end + 2, end + 2, Place::Plain, kept);
    assert(s.skip(end + 2) =~= b);
    lemma_kept_first(b, 0, Place::Plain, kept);
    let open = a + seq!['/', '*'] + comment;
    assert(open =~= a + (seq!['/', '*'] + comment));
    lemma_plain_front(a, seq!['/', '*'] + comment, 0, Place::Plain, seq![]);
    assert(open[n] == '/' && open[n + 1] == '*');
    assert forall|i: int| n + 2 <= i < open.len() implies #[trigger] open[i] != '*' by {
        assert(open[i] == comment[i - n - 2]);
        assert(comment.contains(comment[i - n - 2]));
    }
    lemma_unclosed(open, n + 2, a);
}

proof fn lemma_unclosed(s: Seq<char>, at: int, kept: Seq<char>)
    requires
        0 <= at <= s.len(),
        forall|i: int| at <= i < s.len() ==> #[trigger] s[i] != '*',
    ensures
        uncommented(s, at, Place::Block, kept) is None,
    decreases s.len() - at,
{
    if at < s.len() {
        lemma_unclosed(s, at + 1, kept);
        lemma_unclosed(s, at + 1, kept.push(s[at]));
    }
}

proof fn lemma_untrailed_kept(s: Seq<char>, at: int, place: Place, kept: Seq<char>)
    ensures
        untrailed(s, at, place, kept) == kept + untrailed(s, at, place, seq![]),
    decreases s.len() - at,
{
    let none = Seq::<char>::empty();
    if at < 0 || at >= s.len() {
        assert(kept + none =~= kept);
    } else if place == Place::Plain && is_trailing(s, at) {
        lemma_untrailed_kept(s, at + 1, place, kept);
    } else {
        let next = place_after(place, s[at]);
        lemma_untrailed_kept(s, at + 1, next, kept.push(s[at]));
        lemma_untrailed_kept(s, at + 1, next, none.push(s[at]));
        let rest = untrailed(s, at + 1, next, none);
        assert(kept.push(s[at]) + rest =~= kept + (none.push(s[at]) + rest));
    }
}

proof fn lemma_visible_from(s: Seq<char>, at: int, from: int)
    requires
        0 <= from <= at,
        from <= s.len(),
    ensures
        next_visible(s, at) == next_visible(s.skip(from), at - from),
    decreases s.len() - at,
{
    if at < s.len() {
        assert(s.skip(from)[at - from] == s[at]);
        lemma_visible_from(s, at + 1, from);
    }
}

proof fn lemma_untrailed_from(s: Seq<char>, at: int, from: int, place: Place, kept: Seq<char>)
    requires
        0 <= from <= at <= s.len(),
    ensures
        untrailed(s, at, place, kept) == untrailed(s.skip(from), at - from, place, kept),
    decreases s.len() - at,
{
    if at < s.len() {
        assert(s.skip(from)[at - from] == s[at]);
        lemma_visible_from(s, at + 1, from);
        lemma_untrailed_from(s, at + 1, from, place, kept);
        lemma_untrailed_from(s, at + 1, from, place_after(place, s[at]), kept.push(s[at]));
    }
}

proof fn lemma_no_comma(a: Seq<char>, b: Seq<char>, at: int, place: Place, kept: Seq<char>)
    requires
        0 <= at <= a.len(),
        !a.contains(','),
    ensures
        untrailed(a + b, at, place, kept) == untrailed(
            a + b,
            a.len() as int,
            place_behind(a.skip(at), place),
            kept + a.skip(at),
        ),
    decreases a.len() - at,
{
    let rest = a.skip(at);
    if at < a.len() {
        assert(a.contains(a[at]));
        assert((a + b)[at] == a[at]);
        assert(rest[0] == a[at]);
        assert(rest.skip(1) =~= a.skip(at + 1));
        lemma_no_comma(a, b, at + 1, place_after(place, a[at]), kept.push(a[at]));
        assert(kept.push(a[at]) + a.skip(at + 1) =~= kept + rest);
    } else {
        assert(kept + rest =~= kept);
    }
}

proof fn lemma_blanks(blanks: Seq<char>, rest: Seq<char>, at: int)
    requires
        0 <= at <= blanks.len(),
        forall|i: int| 0 <= i < blanks.len() ==> is_blank(#[trigger] blanks[i]),
        rest.len() > 0,
        !is_blank(rest[0]),
    ensures
        next_visible(blanks + rest, at) == Some(rest[0]),
    decreases blanks.len() - at,
{
    if at < blanks.len() {
        assert((blanks + rest)[at] == blanks[at]);
        lemma_blanks(blanks, rest, at + 1);
    } else {
        assert((blanks + rest)[at] == rest[0]);
    }
}

/// A comma outside strings is taken out exactly if a closing bracket follows it
/// behind white space: what stands before it stays, and so does what the rest of the
/// text is without its own trailing commas.
pub proof fn trailing_commas_are_taken_out(a: Seq<char>, blanks: Seq<char>, rest: Seq<char>)
    requires
        !a.contains(','),
        place_behind(a, Place::Plain) == Place::Plain,
        forall|i: int| 0 <= i < blanks.len() ==> is_blank(#[trigger] blanks[i]),
        rest.len() > 0,
        !is_blank(rest[0]),
    ensures
        untrailed(a.push(',') + blanks + rest, 0, Place::Plain, seq![]) == (if rest[0] == '}'
            || rest[0] == ']' {
            a
        } else {
            a.push(',')
        }) + untrailed(blanks + rest, 0, Place::Plain, seq![]),
{
    let tail = blanks + rest;
    let s = a.push(',') + blanks + rest;
    let n = a.len() as int;
    assert(s =~= a + (seq![','] + tail));
    assert(a.skip(0) =~= a);
    lemma_no_comma(a, seq![','] + tail, 0, Place::Plain, seq![]);
    assert(Seq::<char>::empty() + a =~= a);
    assert(s[n] == ',');
    lemma_visible_from(s, n + 1, n + 1);
    assert(s.skip(n + 1) =~= tail);
    lemma_blanks(blanks, rest, 0);
    let kept = if rest[0] == '}' || rest[0] == ']' {
        a
    } else {
        a.push(',')
    };
    lemma_untrailed_from(s, n + 1, n + 1, Place::Plain, kept);
    lemma_untrailed_kept(tail, 0, Place::Plain, kept);
}

/// Whether a text can stand between quotes: each quote and each backslash in it
/// follows a backslash.
pub open spec fn is_quotable(t: Seq<char>) -> bool
    decreases t.len(),
{
    if t.len() == 0 {
        true
    } else if t[0] == '\\' {
        t.len() >= 2 && is_quotable(t.skip(2))
    } else {
        t[0] != '"' && is_quotable(t.skip(1))
    }
}

proof fn lemma_in_string(s: Seq<char>, at: int, t: Seq<char>, kept: Seq<char>)
    requires
        0 <= at,
        at + t.len() < s.len(),
        s.subrange(at, at + t.len()) == t,
        s[at + t.len()] == '"',
        is_quotable(t),
    ensures
        uncommented(s, at, Place::Text, kept) == uncommented(
            s,
            at + t.len() + 1,
            Place::Plain,
            (kept + t).push('"'),
        ),
        untrailed(s, at, Place::Text, kept) == untrailed(
            s,
            at + t.len() + 1,
            Place::Plain,
            (kept + t).push('"'),
        ),
    decreases t.len(),
{
    if t.len() == 0 {
        assert(kept + t =~= kept);
    } else if t[0] == '\\' {
        assert(s[at] == t[0] && s[at + 1] == t[1]);
        let rest = t.skip(2);
        assert(s.subrange(at + 2, at + 2 + rest.len()) =~= rest);
        let more = kept.push(t[0]).push(t[1]);
        lemma_in_string(s, at + 2, rest, more);
        assert(more + rest =~= kept + t);
        assert(uncommented(s, at, Place::Text, kept) == uncommented(
            s,
            at + 1,
            Place::Escape,
            kept.push(t[0]),
        ));
        assert(untrailed(s, at, Place::Text, kept) == untrailed(
            s,
            at + 1,
            Place::Escape,
            kept.push(t[0]),
        ));
    } else {
        assert(s[at] == t[0]);
        let rest = t.skip(1);
        assert(s.subrange(at + 1, at + 1 + rest.len()) =~= rest);
        lemma_in_string(s, at + 1, rest, kept.push(t[0]));
        assert(kept.push(t[0]) + rest =~= kept + t);
    }
}

proof fn lemma_no_quote(a: Seq<char>)
    requires
        !a.contains('"'),
    ensures
        place_behind(a, Place::Plain) == Place::Plain,
    decreases a.len(),
{
    if a.len() > 0 {
        assert(a.contains(a[0]));
        assert forall|c: char| a.skip(1).contains(c) implies a.contains(c) by {
            let i = choose|i: int| 0 <= i < a.skip(1).len() && a.skip(1)[i] == c;
            assert(a[i + 1] == c);
        }
        lemma_no_quote(a.skip(1));
    }
}

/// Between quotes nothing is taken out, whatever looks like a comment or a trailing
/// comma there; behind the closing quote it goes on as if nothing had been before.
pub proof fn strings_are_kept(a: Seq<char>, t: Seq<char>, b: Seq<char>)
    requires
        !a.contains('/'),
        !a.contains(','),
        !a.contains('"'),
        is_quotable(t),
    ensures
        ({
            let s = a.push('"') + t.push('"') + b;
            let kept = a.push('"') + t.push('"');
            &&& uncommented(s, 0, Place::Plain, seq![]) == before(
                kept,
                uncommented(b, 0, Place::Plain, seq![]),
            )
            &&& untrailed(s, 0, Place::Plain, seq![]) == kept + untrailed(
                b,
                0,
                Place::Plain,
                seq![],
            )
        }),
{
    let s = a.push('"') + t.push('"') + b;
    let kept = a.push('"') + t.push('"');
    let tail = seq!['"'] + t.push('"') + b;
    assert(s =~= a + tail);
    let n = a.len() as int;
    assert(a.skip(0) =~= a);
    assert(Seq::<char>::empty() + a =~= a);
    lemma_no_quote(a);
    lemma_plain_front(a, tail, 0, Place::Plain, seq![]);
    lemma_no_comma(a, tail, 0, Place::Plain, seq![]);
    assert(s[n] == '"');
    assert(s.subrange(n + 1, n + 1 + t.len()) =~= t);
    assert(s[n + 1 + t.len()] == '"');
    lemma_in_string(s, n + 1, t, a.push('"'));
    assert((a.push('"') + t).push('"') =~= kept);
    let end = n + 2 + t.len();
    assert(s.skip(end) =~= b);
    lemma_from_here(s, end, end, Place::Plain, kept);
    lemma_kept_first(b, 0, Place::Plain, kept);
    lemma_untrailed_from(s, end, end, Place::Plain, kept);
    lemma_untrailed_kept(b, 0, Place::Plain, kept);
}

}
