//! Blanks, lines, capital letters and fixed words.

use vstd::prelude::*;

use crate::flash::lines_of;
use crate::laws::header::strung;
use crate::laws::split::strung_words_are_split;
use crate::text::{
    is_space, occurs_at, replace_from, replaced, trim_end, trim_start, trimmed, upper, uppercase,
};

verus! {

/// Whether a text is white space throughout.
pub open spec fn is_blank_text(s: Seq<char>) -> bool {
    forall|i: int| 0 <= i < s.len() ==> is_space(#[trigger] s[i])
}

proof fn lemma_trim_start(a: Seq<char>, t: Seq<char>)
    requires
        is_blank_text(a),
        t.len() > 0 ==> !is_space(t[0]),
    ensures
        trim_start(a + t) == t,
    decreases a.len(),
{
    if a.len() > 0 {
        assert((a + t)[0] == a[0]);
        assert((a + t).skip(1) =~= a.skip(1) + t);
        assert forall|i: int| 0 <= i < a.skip(1).len() implies is_space(#[trigger] a.skip(1)[i]) by {
            assert(a.skip(1)[i] == a[i + 1]);
        }
        lemma_trim_start(a.skip(1), t);
    } else {
        assert(a + t =~= t);
    }
}

proof fn lemma_trim_end(t: Seq<char>, b: Seq<char>)
    requires
        is_blank_text(b),
        t.len() > 0 ==> !is_space(t.last()),
    ensures
        trim_end(t + b) == t,
    decreases b.len(),
{
    if b.len() > 0 {
        assert((t + b).last() == b.last());
        assert((t + b).drop_last() =~= t + b.drop_last());
        assert(is_space(b[b.len() - 1]));
        assert forall|i: int| 0 <= i < b.drop_last().len() implies is_space(
            #[trigger] b.drop_last()[i],
        ) by {
            assert(b.drop_last()[i] == b[i]);
        }
        lemma_trim_end(t, b.drop_last());
    } else {
        assert(t + b =~= t);
    }
}

/// Trimming takes the white space on both sides away and nothing else: what begins
/// and ends with another character stays whole.
pub proof fn the_middle_stays(a: Seq<char>, t: Seq<char>, b: Seq<char>)
    requires
        is_blank_text(a),
        is_blank_text(b),
        t.len() > 0 ==> !is_space(t[0]) && !is_space(t.last()),
    ensures
        trimmed(a + t + b) == t,
{
    if t.len() == 0 {
        let all = a + t + b;
        assert forall|i: int| 0 <= i < all.len() implies is_space(#[trigger] all[i]) by {
            if i < a.len() {
                assert(all[i] == a[i]);
            } else {
                assert(all[i] == b[i - a.len()]);
            }
        }
        assert(all + t =~= all);
        lemma_trim_start(all, t);
        assert(trim_end(t) == t);
    } else {
        assert(a + t + b =~= a + (t + b));
        assert((t + b)[0] == t[0]);
        lemma_trim_start(a, t + b);
        lemma_trim_end(t, b);
    }
}

/// No visible ASCII character is white space; the blank, the tab and the line ends
/// are.
pub proof fn visible_characters_are_no_space(c: char)
    ensures
        '!' <= c && c <= '~' ==> !is_space(c),
        c == ' ' || c == '\t' || c == '\n' || c == '\r' ==> is_space(c),
{
}

/// Only the letters from a to z change, each to the one with which it forms a pair,
/// and so texts that differ in the case of such letters become the same.
pub proof fn capitals_stand_for_small_letters(c: char, s: Seq<char>, i: int)
    requires
        0 <= i < s.len(),
    ensures
        97 <= c as u32 && c as u32 <= 122 ==> upper(c) as u32 + 32 == c as u32,
        !(97 <= c as u32 && c as u32 <= 122) ==> upper(c) == c,
        uppercase(s).len() == s.len(),
        uppercase(s)[i] == upper(s[i]),
        uppercase(uppercase(s)) == uppercase(s),
{
    assert forall|k: int| 0 <= k < s.len() implies #[trigger] uppercase(uppercase(s))[k]
        == uppercase(s)[k] by {
        assert(uppercase(s)[k] == upper(s[k]));
    }
    assert(uppercase(uppercase(s)) =~= uppercase(s));
}

/// A text is the lines that line feeds part: a carriage return before a line feed is
/// no part of the line, and what follows the last line feed is a line of its own
/// unless it is empty.
pub proof fn lines_lie_between_line_feeds(pieces: Seq<Seq<char>>, i: int)
    requires
        pieces.len() > 0,
        forall|i: int| 0 <= i < pieces.len() ==> !(#[trigger] pieces[i]).contains('\n'),
        0 <= i < pieces.len() - 1,
    ensures
        ({
            let lines = lines_of(strung(pieces, '\n'));
            &&& pieces.last().len() == 0 ==> lines.len() == pieces.len() - 1
            &&& pieces.last().len() > 0 ==> lines.len() == pieces.len() && lines.last()
                == pieces.last()
            &&& pieces[i].len() > 0 && pieces[i].last() == '\r' ==> lines[i].push('\r')
                == pieces[i]
            &&& pieces[i].len() == 0 || pieces[i].last() != '\r' ==> lines[i] == pieces[i]
        }),
{
    strung_words_are_split(pieces, '\n');
    let lines = lines_of(strung(pieces, '\n'));
    assert(pieces.drop_last()[i] == pieces[i]);
    if pieces[i].len() > 0 && pieces[i].last() == '\r' {
        assert(lines[i].push('\r') =~= pieces[i]);
    }
}

/// A text without line feeds is one line as it stands, and none where it is empty.
pub proof fn a_text_without_line_feeds_is_a_line(s: Seq<char>)
    requires
        !s.contains('\n'),
    ensures
        s.len() > 0 ==> lines_of(s) == seq![s],
        s.len() == 0 ==> lines_of(s).len() == 0,
{
    let pieces = seq![s];
    strung_words_are_split(pieces, '\n');
    assert(strung(pieces, '\n') == s);
    assert(lines_of(s) =~= if s.len() > 0 {
        seq![s]
    } else {
        seq![]
    });
}

/// A pattern at the front of a text is replaced, and what follows it as if it stood
/// alone.
pub proof fn patterns_are_replaced_from_the_left(
    pattern: Seq<char>,
    with: Seq<char>,
    c: char,
    rest: Seq<char>,
)
    requires
        pattern.len() > 0,
    ensures
        replaced(pattern + rest, pattern, with) == with + replaced(rest, pattern, with),
        !occurs_at(seq![c] + rest, pattern, 0) ==> replaced(seq![c] + rest, pattern, with) == seq![
            c,
        ] + replaced(rest, pattern, with),
        replaced(seq![], pattern, with) == Seq::<char>::empty(),
{
    let s = pattern + rest;
    assert(s.subrange(0, pattern.len() as int) =~= pattern);
    lemma_replaced_behind(s, pattern, with, pattern.len() as int, pattern.len() as int);
    assert(s.skip(pattern.len() as int) =~= rest);
    let t = seq![c] + rest;
    lemma_replaced_behind(t, pattern, with, 1, 1);
    assert(t.skip(1) =~= rest);
}

proof fn lemma_replaced_behind(
    s: Seq<char>,
    pattern: Seq<char>,
    with: Seq<char>,
    from: int,
    at: int,
)
    requires
        0 <= from <= at,
        from <= s.len(),
        pattern.len() > 0,
    ensures
        replace_from(s, pattern, with, at) == replace_from(s.skip(from), pattern, with, at - from),
    decreases s.len() - at,
{
    if at < s.len() {
        let t = s.skip(from);
        assert(t[at - from] == s[at]);
        assert(occurs_at(s, pattern, at) == occurs_at(t, pattern, at - from)) by {
            if at + pattern.len() <= s.len() {
                assert(s.subrange(at, at + pattern.len()) =~= t.subrange(
                    at - from,
                    at - from + pattern.len(),
                ));
            }
        }
        lemma_replaced_behind(s, pattern, with, from, at + 1);
        if occurs_at(s, pattern, at) {
            lemma_replaced_behind(s, pattern, with, from, at + pattern.len());
        }
    }
}

/// The white space of Unicode beyond ASCII: the next line, the blanks that do not
/// break, and those of other widths.
pub proof fn other_blanks_are_space(c: char)
    ensures
        c as u32 >= 0x7F ==> (is_space(c) <==> {
            let code = c as u32;
            ||| code == 0x85 || code == 0xA0 || code == 0x1680
            ||| 0x2000 <= code && code <= 0x200A
            ||| code == 0x2028 || code == 0x2029 || code == 0x202F || code == 0x205F
            ||| code == 0x3000
        }),
        c as u32 <= 0x20 ==> (is_space(c) <==> c == ' ' || (9 <= c as u32 && c as u32 <= 13)),
{
}

}
