//! What the header of a flash script says, and how the choice of a script goes on.

use vstd::prelude::*;
use vstd::string::*;

use crate::config::{ConfigView, Known, Vars};
use crate::flash::{
    chips_in, choice_for, chosen, comment_text, header_of, is_separator, lines_of, patterns_from,
    script_of, scripts_in, sets_cpu, ChoiceView, ScriptFile, ScriptView, Source,
};
use crate::laws::config::is_harmless;
use crate::paths::resolved;
use crate::text::{has_text, occurs_at, uppercase};
use crate::world::Found;

verus! {

/// Words with one character between them.
pub open spec fn strung(words: Seq<Seq<char>>, between: char) -> Seq<char>
    decreases words.len(),
{
    if words.len() == 0 {
        seq![]
    } else if words.len() == 1 {
        words[0]
    } else {
        strung(words.drop_last(), between).push(between) + words.last()
    }
}

/// Whether a text is a word: not empty, and without blanks, tabs and commas.
pub open spec fn is_word(text: Seq<char>) -> bool {
    text.len() > 0 && forall|i: int|
        0 <= i < text.len() ==> #[trigger] text[i] != ' ' && text[i] != '\t' && text[i] != ','
}

/// Whether characters may stand before a chip line: those that begin a comment,
/// blanks and tabs.
pub open spec fn is_lead(text: Seq<char>) -> bool {
    forall|i: int|
        0 <= i < text.len() ==> #[trigger] text[i] == ';' || text[i] == ' ' || text[i] == '\t'
}

proof fn lemma_word_at_end(
    s: Seq<char>,
    at: int,
    found: Seq<Seq<char>>,
    word: Seq<char>,
)
    requires
        0 <= at <= s.len(),
        word.len() + s.len() - at > 0,
        forall|i: int| at <= i < s.len() ==> !is_separator(#[trigger] s[i]),
    ensures
        patterns_from(s, at, found, word) == found.push(word + s.skip(at)),
    decreases s.len() - at,
{
    if at < s.len() {
        assert(!is_separator(s[at]));
        lemma_word_at_end(s, at + 1, found, word.push(s[at]));
        assert(word.push(s[at]) + s.skip(at + 1) =~= word + s.skip(at));
    } else {
        assert(word + s.skip(at) =~= word);
    }
}

proof fn lemma_last_pattern(
    head: Seq<char>,
    between: char,
    last: Seq<char>,
    at: int,
    found: Seq<Seq<char>>,
    word: Seq<char>,
)
    requires
        0 <= at <= head.len(),
        between == ' ' || between == '\t' || between == ',',
        is_word(last),
    ensures
        patterns_from(head.push(between) + last, at, found, word) == patterns_from(
            head,
            at,
            found,
            word,
        ).push(last),
    decreases head.len() - at,
{
    let s = head.push(between) + last;
    if at < head.len() {
        assert(s[at] == head[at]);
        let done = if word.len() > 0 {
            found.push(word)
        } else {
            found
        };
        if is_separator(s[at]) {
            lemma_last_pattern(head, between, last, at + 1, done, seq![]);
        } else {
            lemma_last_pattern(head, between, last, at + 1, found, word.push(s[at]));
        }
    } else {
        assert(s[at] == between);
        let done = if word.len() > 0 {
            found.push(word)
        } else {
            found
        };
        assert forall|i: int| at + 1 <= i < s.len() implies !is_separator(#[trigger] s[i]) by {
            assert(s[i] == last[i - at - 1]);
        }
        lemma_word_at_end(s, at + 1, done, seq![]);
        assert(Seq::<char>::empty() + s.skip(at + 1) =~= last);
    }
}

proof fn lemma_strung(
    front: Seq<char>,
    words: Seq<Seq<char>>,
    between: char,
    found: Seq<Seq<char>>,
)
    requires
        between == ' ' || between == '\t' || between == ',',
        forall|i: int| 0 <= i < words.len() ==> is_word(#[trigger] words[i]),
    ensures
        patterns_from(front + strung(words, between), front.len() as int, found, seq![]) == found
            + words,
    decreases words.len(),
{
    let s = front + strung(words, between);
    let at = front.len() as int;
    if words.len() == 0 {
        assert(found + words =~= found);
    } else if words.len() == 1 {
        assert(is_word(words[0]));
        assert forall|i: int| at <= i < s.len() implies !is_separator(#[trigger] s[i]) by {
            assert(s[i] == words[0][i - at]);
        }
        lemma_word_at_end(s, at, found, seq![]);
        assert(Seq::<char>::empty() + s.skip(at) =~= words[0]);
        assert(found.push(words[0]) =~= found + words);
    } else {
        let rest = words.drop_last();
        assert forall|i: int| 0 <= i < rest.len() implies is_word(#[trigger] rest[i]) by {
            assert(rest[i] == words[i]);
        }
        assert(is_word(words[words.len() - 1]));
        lemma_strung(front, rest, between, found);
        let head = front + strung(rest, between);
        assert(s =~= head.push(between) + words.last());
        lemma_last_pattern(head, between, words.last(), at, found, seq![]);
        assert((found + rest).push(words.last()) =~= found + words);
    }
}

proof fn lemma_lead(lead: Seq<char>, text: Seq<char>)
    requires
        is_lead(lead),
        text.len() > 0,
        text[0] == '@',
    ensures
        comment_text(lead + text) == text,
    decreases lead.len(),
{
    if lead.len() == 0 {
        assert(lead + text =~= text);
    } else {
        let rest = lead.skip(1);
        assert forall|i: int| 0 <= i < rest.len() implies #[trigger] rest[i] == ';' || rest[i]
            == ' ' || rest[i] == '\t' by {
            assert(rest[i] == lead[i + 1]);
        }
        assert((lead + text)[0] == lead[0]);
        assert((lead + text).skip(1) =~= rest + text);
        lemma_lead(rest, text);
    }
}

/// The patterns of a chip line are the words behind `@Chip:`, in order, whether
/// blanks, tabs or commas stand between them, and whatever comment signs stand
/// before it; they follow those of the lines above.
pub proof fn chip_lines_are_read(
    above: Seq<Seq<char>>,
    lead: Seq<char>,
    words: Seq<Seq<char>>,
    between: char,
)
    requires
        is_lead(lead),
        between == ' ' || between == '\t' || between == ',',
        forall|i: int| 0 <= i < words.len() ==> is_word(#[trigger] words[i]),
    ensures
        chips_in(above.push(lead + "@Chip:"@ + strung(words, between))) == chips_in(above) + words,
        chips_in(above.push(lead + "@Chip: "@ + strung(words, between))) == chips_in(above)
            + words,
{
    reveal_strlit("@Chip:");
    reveal_strlit("@Chip: ");
    let list = strung(words, between);
    let plain = "@Chip:"@ + list;
    let spaced = "@Chip: "@ + list;
    let one = above.push(lead + "@Chip:"@ + list);
    let two = above.push(lead + "@Chip: "@ + list);
    assert(one.drop_last() =~= above);
    assert(two.drop_last() =~= above);
    assert(lead + "@Chip:"@ + list =~= lead + plain);
    assert(lead + "@Chip: "@ + list =~= lead + spaced);
    lemma_lead(lead, plain);
    lemma_lead(lead, spaced);
    assert(plain.subrange(0, 6) =~= "@Chip:"@);
    assert(spaced.subrange(0, 6) =~= "@Chip:"@);
    lemma_strung("@Chip:"@, words, between, chips_in(above));
    lemma_strung("@Chip: "@, words, between, chips_in(above));
    assert(spaced[6] == ' ');
    assert(patterns_from(spaced, 6, chips_in(above), seq![]) == patterns_from(
        spaced,
        7,
        chips_in(above),
        seq![],
    ));
}

proof fn lemma_comment_text(line: Seq<char>) -> (at: int)
    ensures
        0 <= at <= line.len(),
        comment_text(line) == line.skip(at),
    decreases line.len(),
{
    if line.len() > 0 && (line[0] == ';' || line[0] == ' ' || line[0] == '\t') {
        let inner = lemma_comment_text(line.skip(1));
        assert(line.skip(1).skip(inner) =~= line.skip(inner + 1));
        inner + 1
    } else {
        assert(line.skip(0) =~= line);
        0
    }
}

/// A line without `@Chip:` adds no pattern.
pub proof fn other_lines_are_skipped(above: Seq<Seq<char>>, line: Seq<char>)
    requires
        !has_text(line, "@Chip:"@),
    ensures
        chips_in(above.push(line)) == chips_in(above),
{
    assert(above.push(line).drop_last() =~= above);
    let at = lemma_comment_text(line);
    let text = comment_text(line);
    if "@Chip:"@.is_prefix_of(text) {
        assert(line.subrange(at, at + "@Chip:"@.len()) =~= text.subrange(
            0,
            "@Chip:"@.len() as int,
        ));
        assert(occurs_at(line, "@Chip:"@, at));
    }
}

/// Only the first two hundred lines of a script are searched for patterns.
pub proof fn patterns_stand_in_the_header(lines: Seq<Seq<char>>, more: Seq<Seq<char>>)
    ensures
        lines.len() == 200 ==> header_of(lines + more) == lines,
        lines.len() <= 200 ==> header_of(lines) == lines,
{
    if lines.len() == 200 {
        assert((lines + more).take(200) =~= lines);
        if more.len() == 0 {
            assert(lines + more =~= lines);
        }
    }
}

/// Whether a text holds another, whatever the case of its letters.
pub open spec fn mentions(text: Seq<char>, word: Seq<char>) -> bool {
    exists|at: int|
        0 <= at <= text.len() - word.len() && uppercase(
            #[trigger] text.subrange(at, at + word.len()),
        ) == word
}

/// A script keeps its path and its source, and is known by what its text mentions:
/// `PREPAREONLY` anywhere means that it can only prepare the flash, and `"CPU="`
/// that it takes the derivative.
pub proof fn scripts_are_known_by_their_text(path: Seq<char>, source: Source, text: Seq<char>)
    ensures
        script_of(path, source, text).path == path,
        script_of(path, source, text).source == source,
        script_of(path, source, text).prepare_only <==> mentions(text, "PREPAREONLY"@),
        script_of(path, source, text).accepts_cpu <==> mentions(text, "\"CPU=\""@),
        script_of(path, source, text).chips == chips_in(header_of(lines_of(text))),
{
    lemma_mentions(text, "PREPAREONLY"@);
    lemma_mentions(text, "\"CPU=\""@);
}

proof fn lemma_mentions(text: Seq<char>, word: Seq<char>)
    ensures
        mentions(text, word) <==> has_text(uppercase(text), word),
{
    if mentions(text, word) {
        let at = choose|at: int|
            0 <= at <= text.len() - word.len() && uppercase(
                #[trigger] text.subrange(at, at + word.len()),
            ) == word;
        assert(uppercase(text).subrange(at, at + word.len()) =~= uppercase(
            text.subrange(at, at + word.len()),
        ));
        assert(occurs_at(uppercase(text), word, at));
    }
    if has_text(uppercase(text), word) {
        let at = choose|at: int| occurs_at(uppercase(text), word, at);
        assert(uppercase(text.subrange(at, at + word.len())) =~= uppercase(text).subrange(
            at,
            at + word.len(),
        ));
    }
}

/// Every file that could be read becomes one script, in the order of the files.
pub proof fn files_become_scripts(files: Seq<ScriptFile>, more: ScriptFile)
    ensures
        scripts_in(Seq::empty()).len() == 0,
        match more.content {
            Some(_) => scripts_in(files.push(more)).len() == scripts_in(files).len() + 1
                && scripts_in(files.push(more)).drop_last() == scripts_in(files) && scripts_in(
                files.push(more),
            ).last().path == more.path@ && scripts_in(files.push(more)).last().source
                == more.source,
            None => scripts_in(files.push(more)) == scripts_in(files),
        },
{
    assert(files.push(more).drop_last() =~= files);
    if more.content is Some {
        assert(scripts_in(files.push(more)).drop_last() =~= scripts_in(files));
    }
}

/// A script that is named in the settings is used as it is; a path of TRACE32 stays
/// as it is written, any other is seen from the directory of the configuration.
pub proof fn named_scripts_win(
    config: ConfigView,
    env: Vars,
    scripts: Seq<ScriptView>,
    world: Known,
)
    requires
        config.flash_script.len() > 0,
    ensures
        config.flash_script.len() >= 2 && config.flash_script[0] == '~' && config.flash_script[1]
            == '~' ==> choice_for(config, env, scripts, world) == Found::Found(
            Ok::<_, Seq<char>>(ChoiceView::Explicit(config.flash_script)),
        ),
        !(config.flash_script.len() >= 2 && config.flash_script[0] == '~' && config.flash_script[1]
            == '~') ==> match resolved(config.flash_script, config.config_dir, world) {
            Found::Found(path) => choice_for(config, env, scripts, world) == Found::Found(
                Ok::<_, Seq<char>>(ChoiceView::Explicit(path)),
            ),
            Found::Ask(question) => choice_for(config, env, scripts, world) == Found::<
                Result<ChoiceView, Seq<char>>,
            >::Ask(question),
        },
{
    reveal_strlit("~~");
    let script = config.flash_script;
    if script.len() >= 2 {
        assert(script.subrange(0, 2) =~= seq![script[0], script[1]]);
        if script[0] == '~' && script[1] == '~' {
            assert("~~"@ =~= script.subrange(0, 2));
        } else if "~~"@.is_prefix_of(script) {
            assert("~~"@[0] == script[0] && "~~"@[1] == script[1]);
        }
    }
}

/// Without a named script, the one for the chip is used: the chip of the flash
/// settings, else the one of the target.
pub proof fn scripts_are_chosen_by_chip(
    config: ConfigView,
    env: Vars,
    scripts: Seq<ScriptView>,
    world: Known,
    chip: Seq<char>,
)
    requires
        config.flash_script.len() == 0,
        chip.len() > 0,
        chip == config.flash_chip || (config.flash_chip.len() == 0 && chip == config.cpu),
    ensures
        match chosen(chip, scripts) {
            Ok((pattern, script)) => if is_harmless(script.path) {
                choice_for(config, env, scripts, world) == Found::Found(
                    Ok::<_, Seq<char>>(ChoiceView::Chip { chip, pattern, script }),
                )
            } else {
                choice_for(config, env, scripts, world) matches Found::Found(Err(_))
            },
            Err(_) => !(choice_for(config, env, scripts, world) matches Found::Found(Ok(_))),
        },
{
    if let Ok((pattern, script)) = chosen(chip, scripts) {
        crate::laws::config::lemma_harmless(script.path);
    }
}

/// A script that takes the derivative is told the chip exactly once: unless an
/// argument begins with `CPU=` in any case, it gets one; with that one, no other.
pub proof fn the_chip_is_passed_once(
    chip: Seq<char>,
    pattern: Seq<char>,
    script: ScriptView,
    arguments: Seq<Seq<char>>,
)
    ensures
        ({
            let choice = ChoiceView::Chip { chip, pattern, script };
            &&& choice.cpu(arguments) matches Some(argument) ==> argument == "CPU="@ + chip
                && script.accepts_cpu && choice.cpu(arguments.push(argument)) is None
            &&& script.accepts_cpu && choice.cpu(arguments) is None ==> exists|i: int|
                0 <= i < arguments.len() && #[trigger] arguments[i].len() >= 4 && uppercase(
                    arguments[i].take(4),
                ) == "CPU="@
            &&& (exists|i: int|
                0 <= i < arguments.len() && #[trigger] arguments[i].len() >= 4 && uppercase(
                    arguments[i].take(4),
                ) == "CPU="@) ==> choice.cpu(arguments) is None
        }),
        ChoiceView::Explicit(chip).cpu(arguments) is None,
{
    reveal_strlit("CPU=");
    let choice = ChoiceView::Chip { chip, pattern, script };
    assert forall|a: Seq<char>| #[trigger] sets_cpu(a) <==> a.len() >= 4 && uppercase(a.take(4))
        == "CPU="@ by {
        if a.len() >= 4 {
            assert(uppercase(a).subrange(0, 4) =~= uppercase(a.take(4)));
        }
    }
    let argument = "CPU="@ + chip;
    assert(argument.take(4) =~= "CPU="@);
    assert(uppercase("CPU="@) =~= "CPU="@);
    let more = arguments.push(argument);
    assert(more[more.len() - 1] == argument);
    assert(sets_cpu(more[more.len() - 1]));
    if exists|i: int|
        0 <= i < arguments.len() && #[trigger] arguments[i].len() >= 4 && uppercase(
            arguments[i].take(4),
        ) == "CPU="@ {
        let i = choose|i: int|
            0 <= i < arguments.len() && #[trigger] arguments[i].len() >= 4 && uppercase(
                arguments[i].take(4),
            ) == "CPU="@;
        assert(sets_cpu(arguments[i]));
    }
    if script.accepts_cpu && choice.cpu(arguments) is None {
        let i = choose|i: int| 0 <= i < arguments.len() && sets_cpu(#[trigger] arguments[i]);
        assert(arguments[i].len() >= 4);
    }
}

}
