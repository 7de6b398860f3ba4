//! Splitting what was strung together.

use vstd::prelude::*;

use crate::laws::header::strung;
use crate::text::{occurs_at, split_from, split_text};

verus! {

proof fn lemma_split_rest(s: Seq<char>, c: char, start: int, at: int)
    requires
        0 <= start <= at <= s.len(),
        !s.subrange(start, s.len() as int).contains(c),
    ensures
        split_from(s, seq![c], start, at) == seq![s.subrange(start, s.len() as int)],
    decreases s.len() - at,
{
    if at < s.len() {
        let rest = s.subrange(start, s.len() as int);
        assert(rest[at - start] == s[at]);
        assert(s.subrange(at, at + 1)[0] == s[at]);
        assert(seq![c][0] == c);
        assert(!occurs_at(s, seq![c], at));
        lemma_split_rest(s, c, start, at + 1);
    }
}

/// Splitting a text whose last piece lacks the separator splits off that piece.
pub proof fn lemma_split_last(head: Seq<char>, c: char, tail: Seq<char>, start: int, at: int)
    requires
        0 <= start <= at <= head.len(),
        !tail.contains(c),
    ensures
        split_from(head.push(c) + tail, seq![c], start, at) == split_from(
            head,
            seq![c],
            start,
            at,
        ).push(tail),
    decreases head.len() - at,
{
    let s = head.push(c) + tail;
    assert(s.subrange(at, at + 1) =~= seq![s[at]]);
    if at < head.len() {
        assert(head.subrange(at, at + 1) =~= seq![head[at]]);
        assert(s[at] == head[at]);
        if head[at] == c {
            lemma_split_last(head, c, tail, at + 1, at + 1);
            assert(s.subrange(start, at) =~= head.subrange(start, at));
            let rest = split_from(head, seq![c], at + 1, at + 1);
            assert(seq![s.subrange(start, at)] + rest.push(tail) =~= (seq![head.subrange(start, at)]
                + rest).push(tail));
        } else {
            assert(seq![s[at]][0] != seq![c][0]);
            lemma_split_last(head, c, tail, start, at + 1);
        }
    } else {
        assert(s[at] == c);
        assert(s.subrange(at + 1, s.len() as int) =~= tail);
        lemma_split_rest(s, c, at + 1, at + 1);
        assert(s.subrange(start, at) =~= head.subrange(start, head.len() as int));
        assert(seq![s.subrange(start, at)] + seq![tail] =~= seq![
            head.subrange(start, head.len() as int),
        ].push(tail));
    }
}

/// Words that lack a character, strung together with it, are what splitting at it
/// gives.
pub proof fn strung_words_are_split(words: Seq<Seq<char>>, c: char)
    requires
        words.len() > 0,
        forall|i: int| 0 <= i < words.len() ==> !(#[trigger] words[i]).contains(c),
    ensures
        split_text(strung(words, c), seq![c]) == words,
    decreases words.len(),
{
    if words.len() == 1 {
        let s = words[0];
        assert(s.subrange(0, s.len() as int) =~= s);
        lemma_split_rest(s, c, 0, 0);
        assert(seq![s] =~= words);
    } else {
        let rest = words.drop_last();
        assert forall|i: int| 0 <= i < rest.len() implies !(#[trigger] rest[i]).contains(c) by {
            assert(rest[i] == words[i]);
        }
        assert(!words[words.len() - 1].contains(c));
        strung_words_are_split(rest, c);
        lemma_split_last(strung(rest, c), c, words.last(), 0, 0);
        assert(rest.push(words.last()) =~= words);
    }
}

}
