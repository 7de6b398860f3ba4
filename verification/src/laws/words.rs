//! How a command line is split into words.

use vstd::prelude::*;

use crate::laws::header::strung;
use crate::pycompat::{words_from, words_of, Quote};

verus! {

/// Whether a character has no meaning of its own in a command line.
pub open spec fn is_ordinary(c: char) -> bool {
    c != ' ' && c != '\t' && c != '\r' && c != '\n' && c != '\\' && c != '\'' && c != '"'
}

/// Whether a text is made of such characters.
pub open spec fn is_ordinary_text(s: Seq<char>) -> bool {
    forall|i: int| 0 <= i < s.len() ==> is_ordinary(#[trigger] s[i])
}

/// The word under way with a text behind it.
spec fn grown(word: Option<Seq<char>>, text: Seq<char>) -> Seq<char> {
    match word {
        Some(begun) => begun + text,
        None => text,
    }
}

proof fn lemma_ordinary(
    s: Seq<char>,
    at: int,
    end: int,
    words: Seq<Seq<char>>,
    word: Option<Seq<char>>,
)
    requires
        0 <= at < end <= s.len(),
        forall|i: int| at <= i < end ==> is_ordinary(#[trigger] s[i]),
    ensures
        words_from(s, at, words, word, Quote::Open) == words_from(
            s,
            end,
            words,
            Some(grown(word, s.subrange(at, end))),
            Quote::Open,
        ),
    decreases end - at,
{
    assert(is_ordinary(s[at]));
    let begun = match word {
        Some(word) => word,
        None => seq![],
    };
    let next = begun.push(s[at]);
    if at + 1 < end {
        lemma_ordinary(s, at + 1, end, words, Some(next));
        assert(grown(Some(next), s.subrange(at + 1, end)) =~= grown(word, s.subrange(at, end)));
    } else {
        assert(next =~= grown(word, s.subrange(at, end)));
    }
}

proof fn lemma_single(
    s: Seq<char>,
    at: int,
    end: int,
    words: Seq<Seq<char>>,
    word: Seq<char>,
)
    requires
        0 <= at <= end < s.len(),
        s[end] == '\'',
        forall|i: int| at <= i < end ==> #[trigger] s[i] != '\'',
    ensures
        words_from(s, at, words, Some(word), Quote::Single) == words_from(
            s,
            end + 1,
            words,
            Some(word + s.subrange(at, end)),
            Quote::Open,
        ),
    decreases end - at,
{
    if at < end {
        lemma_single(s, at + 1, end, words, word.push(s[at]));
        assert(word.push(s[at]) + s.subrange(at + 1, end) =~= word + s.subrange(at, end));
    } else {
        assert(word + s.subrange(at, end) =~= word);
    }
}

proof fn lemma_list(
    list: Seq<Seq<char>>,
    i: int,
    s: Seq<char>,
    at: int,
    words: Seq<Seq<char>>,
)
    requires
        0 <= i < list.len(),
        0 <= at <= s.len(),
        s.skip(at) == strung_from(list, i),
        forall|k: int|
            0 <= k < list.len() ==> (#[trigger] list[k]).len() > 0 && is_ordinary_text(list[k]),
    ensures
        words_from(s, at, words, None, Quote::Open) == Ok::<_, Seq<char>>(words + list.skip(i)),
    decreases list.len() - i,
{
    let word = list[i];
    let rest = strung_from(list, i);
    let end = at + word.len();
    assert(rest.len() >= word.len());
    assert(rest.subrange(0, word.len() as int) =~= word);
    assert(s.subrange(at, end) =~= word) by {
        assert forall|k: int| at <= k < end implies #[trigger] s[k] == word[k - at] by {
            assert(s.skip(at)[k - at] == rest.subrange(0, word.len() as int)[k - at]);
        }
    }
    assert forall|k: int| at <= k < end implies is_ordinary(#[trigger] s[k]) by {
        assert(s[k] == s.subrange(at, end)[k - at]);
        assert(is_ordinary(word[k - at]));
    }
    lemma_ordinary(s, at, end, words, None);
    if i + 1 < list.len() {
        assert(s[end] == s.skip(at)[word.len() as int]);
        assert(rest[word.len() as int] == ' ');
        assert(s.skip(end + 1) =~= strung_from(list, i + 1)) by {
            assert(s.skip(end + 1) =~= s.skip(at).skip(word.len() as int + 1));
            assert(rest.skip(word.len() as int + 1) =~= strung_from(list, i + 1));
        }
        lemma_list(list, i + 1, s, end + 1, words.push(word));
        assert(words.push(word) + list.skip(i + 1) =~= words + list.skip(i));
    } else {
        assert(rest == word);
        assert(s.skip(at).len() == word.len());
        assert(words.push(word) =~= words + list.skip(i));
    }
}

/// The words of a list from one on, with blanks between them.
spec fn strung_from(list: Seq<Seq<char>>, i: int) -> Seq<char>
    decreases list.len() - i,
{
    if i >= list.len() {
        seq![]
    } else if i + 1 == list.len() {
        list[i]
    } else {
        list[i] + seq![' '] + strung_from(list, i + 1)
    }
}

proof fn lemma_strung(list: Seq<Seq<char>>, n: int)
    requires
        0 < n <= list.len(),
    ensures
        n < list.len() ==> strung(list, ' ') == strung(list.take(n), ' ') + seq![' '] + strung_from(
            list,
            n,
        ),
        strung_from(list, 0) == strung(list, ' ') || n > 1,
    decreases list.len() - n,
{
    if n < list.len() {
        let more = list.take(n + 1);
        assert(more.drop_last() =~= list.take(n));
        assert(more.last() == list[n]);
        lemma_strung(list, n + 1);
        if n + 1 < list.len() {
            assert(strung(list, ' ') =~= strung(list.take(n), ' ') + seq![' '] + strung_from(list, n));
        } else {
            assert(more =~= list);
            assert(strung(list, ' ') =~= strung(list.take(n), ' ') + seq![' '] + strung_from(list, n));
        }
    }
    if n == 1 {
        assert(list.take(1).len() == 1);
        assert(strung(list.take(1), ' ') == list[0]);
        if list.len() == 1 {
            assert(list.take(1) =~= list);
        }
    }
}

/// Words without blanks, quotation marks and backslashes, with blanks between them,
/// are found as they are.
pub proof fn ordinary_words_are_found(list: Seq<Seq<char>>)
    requires
        list.len() > 0,
        forall|k: int|
            0 <= k < list.len() ==> (#[trigger] list[k]).len() > 0 && is_ordinary_text(list[k]),
    ensures
        words_of(strung(list, ' ')) == Ok::<_, Seq<char>>(list),
{
    let s = strung(list, ' ');
    lemma_strung(list, 1);
    assert(s.skip(0) =~= s);
    lemma_list(list, 0, s, 0, seq![]);
    assert(list.skip(0) =~= list);
    assert(Seq::<Seq<char>>::empty() + list =~= list);
}

/// Between single quotation marks everything stands for itself, and what stands
/// directly before them belongs to the same word. Without the second mark there is no
/// result.
pub proof fn single_quotes_keep_everything(a: Seq<char>, t: Seq<char>)
    requires
        is_ordinary_text(a),
        !t.contains('\''),
    ensures
        words_of(a.push('\'') + t.push('\'')) == Ok::<_, Seq<char>>(seq![a + t]),
        words_of(a.push('\'') + t) is Err,
{
    let s = a.push('\'') + t.push('\'');
    let n = a.len() as int;
    let end = n + 1 + t.len();
    let none = Seq::<Seq<char>>::empty();
    assert forall|i: int| n + 1 <= i < end implies #[trigger] s[i] != '\'' by {
        assert(s[i] == t[i - n - 1]);
        assert(t.contains(t[i - n - 1]));
    }
    assert(s[n] == '\'' && s[end] == '\'');
    assert(s.subrange(n + 1, end) =~= t);
    let begun = if n == 0 {
        None
    } else {
        Some(a)
    };
    assert(n == 0 ==> a =~= seq![]);
    lemma_front(a, s);
    assert(words_of(s) == words_from(s, n, none, begun, Quote::Open));
    assert(words_of(s) == words_from(s, n + 1, none, Some(a), Quote::Single));
    lemma_single(s, n + 1, end, none, a);
    assert(s.len() == end + 1);
    assert(words_of(s) == Ok::<_, Seq<char>>(none.push(a + t)));
    assert(none.push(a + t) =~= seq![a + t]);
    let open = a.push('\'') + t;
    assert(open[n] == '\'');
    assert forall|i: int| n + 1 <= i < open.len() implies #[trigger] open[i] != '\'' by {
        assert(open[i] == t[i - n - 1]);
        assert(t.contains(t[i - n - 1]));
    }
    lemma_front(a, open);
    assert(words_of(open) == words_from(open, n, none, begun, Quote::Open));
    assert(words_of(open) == words_from(open, n + 1, none, Some(a), Quote::Single));
    lemma_unclosed(open, n + 1, none, a);
}

proof fn lemma_front(a: Seq<char>, s: Seq<char>)
    requires
        is_ordinary_text(a),
        a.is_prefix_of(s),
    ensures
        a.len() > 0 ==> words_of(s) == words_from(
            s,
            a.len() as int,
            seq![],
            Some(a),
            Quote::Open,
        ),
{
    if a.len() > 0 {
        assert forall|i: int| 0 <= i < a.len() implies is_ordinary(#[trigger] s[i]) by {
            assert(s[i] == a[i]);
        }
        lemma_ordinary(s, 0, a.len() as int, seq![], None);
        assert(s.subrange(0, a.len() as int) =~= a);
    } else {
        assert(a =~= seq![]);
    }
}

proof fn lemma_unclosed(s: Seq<char>, at: int, words: Seq<Seq<char>>, word: Seq<char>)
    requires
        0 <= at <= s.len(),
        forall|i: int| at <= i < s.len() ==> #[trigger] s[i] != '\'',
    ensures
        words_from(s, at, words, Some(word), Quote::Single) is Err,
    decreases s.len() - at,
{
    if at < s.len() {
        lemma_unclosed(s, at + 1, words, word.push(s[at]));
    }
}

/// Outside quotation marks a backslash takes the next character as it is; it cannot
/// stand at the end.
pub proof fn backslashes_take_the_next_character(a: Seq<char>, c: char)
    requires
        is_ordinary_text(a),
    ensures
        words_of(a.push('\\').push(c)) == Ok::<_, Seq<char>>(seq![a.push(c)]),
        words_of(a.push('\\')) is Err,
{
    let s = a.push('\\').push(c);
    let n = a.len() as int;
    lemma_front(a, s);
    lemma_front(a, a.push('\\'));
    assert(s[n] == '\\' && s[n + 1] == c);
    assert(a.len() == 0 ==> a =~= seq![]);
    let none = Seq::<Seq<char>>::empty();
    let begun = if n == 0 {
        None
    } else {
        Some(a)
    };
    assert(words_of(s) == words_from(s, n, none, begun, Quote::Open));
    assert(words_of(s) == words_from(s, n + 2, none, Some(a.push(c)), Quote::Open));
    assert(none.push(a.push(c)) =~= seq![a.push(c)]);
}

/// Between double quotation marks a backslash takes a double quotation mark or another
/// backslash as it is, and before any other character it stands for itself.
pub proof fn backslashes_in_double_quotes(c: char)
    ensures
        words_of(seq!['"', '\\', c, '"']) == Ok::<_, Seq<char>>(
            seq![
                if c == '"' || c == '\\' {
                    seq![c]
                } else {
                    seq!['\\', c]
                },
            ],
        ),
{
    let s = seq!['"', '\\', c, '"'];
    let none = Seq::<Seq<char>>::empty();
    let word = if c == '"' || c == '\\' {
        seq![c]
    } else {
        seq!['\\', c]
    };
    let empty = Seq::<char>::empty();
    assert(words_of(s) == words_from(s, 1, none, Some(empty), Quote::Double));
    assert(empty.push(c) =~= seq![c]);
    assert(empty.push('\\').push(c) =~= seq!['\\', c]);
    assert(words_from(s, 1, none, Some(empty), Quote::Double) == words_from(
        s,
        3,
        none,
        Some(word),
        Quote::Double,
    ));
    assert(words_from(s, 3, none, Some(word), Quote::Double) == words_from(
        s,
        4,
        none,
        Some(word),
        Quote::Open,
    ));
    assert(none.push(word) =~= seq![word]);
}

}
