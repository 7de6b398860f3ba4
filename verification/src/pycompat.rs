//! Expansion of user input: home directories, variables, numbers and command
//! lines.

use vstd::prelude::*;
use vstd::string::*;

use crate::t32rcl::eval::{
    after_underscore, grouped_value, int_value, parse_grouped, parse_int, text_views,
};
use crate::text::{
    chars_of, copy_range, decimal_text, digit_of, find_from, first_from, has_text, hex_text,
    is_space, lemma_radix_ten_sixteen, lemma_without_absent, occurs_at, push_chars,
    radix_round_trip, radix_text, remove_char, string_of, trim, trim_end_char, trim_end_matches,
    trim_start, trimmed, without,
};
use crate::world::{ask, text_lookup, variable, Env, Found, Lookup, Question, QuestionView, World};

verus! {

/// The home directory that a leading `~` or `~user` stands for.
pub open spec fn home_for(
    user: Seq<char>,
    env: Map<Seq<char>, Seq<char>>,
    world: Map<QuestionView, Option<Seq<char>>>,
) -> Found<Option<Seq<char>>> {
    if user == seq!['~'] {
        match variable(env, "HOME"@) {
            Some(home) => Found::Found(Some(home)),
            None => ask(world, QuestionView::OwnHome),
        }
    } else {
        ask(world, QuestionView::Home(user.skip(1)))
    }
}

/// The position of the first slash, or the length of the text.
pub open spec fn first_slash(value: Seq<char>) -> int {
    let slash = first_from(value, '/', 0);
    if slash < 0 {
        value.len() as int
    } else {
        slash
    }
}

/// A path with a leading `~` or `~user` replaced by a home directory. What does
/// not start with `~`, or names an unknown user, stays as it is.
pub open spec fn user_expanded(
    value: Seq<char>,
    env: Map<Seq<char>, Seq<char>>,
    world: Map<QuestionView, Option<Seq<char>>>,
) -> Found<Seq<char>> {
    if value.len() == 0 || value[0] != '~' {
        Found::Found(value)
    } else {
        let end = first_slash(value);
        match home_for(value.take(end), env, world) {
            Found::Ask(question) => Found::Ask(question),
            Found::Found(None) => Found::Found(value),
            Found::Found(Some(home)) => {
                let whole = trim_end_char(home, '/') + value.skip(end);
                if whole.len() == 0 {
                    Found::Found(seq!['/'])
                } else {
                    Found::Found(whole)
                }
            },
        }
    }
}

/// Replaces a leading `~` or `~user` by a home directory.
pub fn expanduser(value: &str, env: &Env, world: &World) -> (result: Lookup<String>)
    ensures
        text_lookup(result) == user_expanded(value@, env@, world@),
{
    let chars = chars_of(value);
    if chars.len() == 0 || chars[0] != '~' {
        return Lookup::Found(value.to_owned());
    }
    let end: usize = match find_from(&chars, '/', 0) {
        Some(slash) => slash,
        None => chars.len(),
    };
    let user = copy_range(&chars, 0, end);
    assert(user@ =~= value@.take(end as int));
    let rest = copy_range(&chars, end, chars.len());
    assert(rest@ =~= value@.skip(end as int));
    let own = user.len() == 1;
    assert(own == (user@ == seq!['~'])) by {
        if end == 0 {
            assert(value@[0] == '/');
        }
        if own {
            assert(user@ =~= seq!['~']);
        }
    }
    let answer: Lookup<Option<&str>> = if own {
        match env.get("HOME") {
            Some(home) => Lookup::Found(Some(home)),
            None => world.ask(Question::OwnHome),
        }
    } else {
        let name = copy_range(&user, 1, user.len());
        assert(name@ =~= user@.skip(1));
        world.ask(Question::Home(string_of(&name)))
    };
    match answer {
        Lookup::Ask(question) => Lookup::Ask(question),
        Lookup::Found(None) => Lookup::Found(value.to_owned()),
        Lookup::Found(Some(home)) => {
            let mut whole = trim_end_matches(&chars_of(home), '/');
            push_chars(&mut whole, &rest);
            if whole.len() == 0 {
                whole.push('/');
                assert(whole@ =~= seq!['/']);
            }
            Lookup::Found(string_of(&whole))
        },
    }
}

/// Whether a character can stand in the name of a variable without braces.
pub open spec fn is_name_char(c: char) -> bool {
    ('a' <= c && c <= 'z') || ('A' <= c && c <= 'Z') || ('0' <= c && c <= '9') || c == '_'
}

/// The end of the run of name characters that begins at a position.
pub open spec fn name_end(s: Seq<char>, at: int) -> int
    decreases s.len() - at,
{
    if 0 <= at < s.len() && is_name_char(s[at]) {
        name_end(s, at + 1)
    } else {
        at
    }
}

fn skip_name(s: &[char], at: usize) -> (end: usize)
    requires
        at <= s@.len(),
    ensures
        end == name_end(s@, at as int),
        at <= end <= s@.len(),
{
    let mut end: usize = at;
    while end < s.len() && (('a' <= s[end] && s[end] <= 'z') || ('A' <= s[end] && s[end] <= 'Z')
        || ('0' <= s[end] && s[end] <= '9') || s[end] == '_')
        invariant
            at <= end <= s@.len(),
            name_end(s@, at as int) == name_end(s@, end as int),
        decreases s@.len() - end,
    {
        end = end + 1;
    }
    end
}

/// The variable that a reference behind a dollar sign names, and where the
/// reference ends: a name in braces, or a run of name characters. A reference
/// that ends where it begins is none.
pub open spec fn reference_at(s: Seq<char>, at: int) -> (Seq<char>, int) {
    if at < s.len() && s[at] == '{' {
        let brace = first_from(s, '}', at + 1);
        if brace < 0 {
            (seq![], at)
        } else {
            (s.subrange(at + 1, brace), brace + 1)
        }
    } else {
        (s.subrange(at, name_end(s, at)), name_end(s, at))
    }
}

proof fn lemma_first_from(s: Seq<char>, c: char, at: int)
    requires
        0 <= at,
    ensures
        first_from(s, c, at) == -1 || at <= first_from(s, c, at) < s.len(),
    decreases s.len() - at,
{
    if at < s.len() && s[at] != c {
        lemma_first_from(s, c, at + 1);
    }
}

proof fn lemma_name_end(s: Seq<char>, at: int)
    requires
        0 <= at <= s.len(),
    ensures
        at <= name_end(s, at) <= s.len(),
    decreases s.len() - at,
{
    if at < s.len() && is_name_char(s[at]) {
        lemma_name_end(s, at + 1);
    }
}

/// A text from a position on, with the references to variables that are set
/// replaced by their values. Everything else is left alone.
pub open spec fn vars_expanded(s: Seq<char>, env: Map<Seq<char>, Seq<char>>, at: int) -> Seq<char>
    decreases s.len() - at,
    when 0 <= at <= s.len()
    via vars_expanded_ends
{
    let dollar = first_from(s, '$', at);
    if dollar < 0 {
        s.skip(at)
    } else {
        let (name, end) = reference_at(s, dollar + 1);
        match variable(env, name) {
            Some(value) => if end > dollar + 1 {
                s.subrange(at, dollar) + value + vars_expanded(s, env, end)
            } else {
                s.subrange(at, dollar + 1) + vars_expanded(s, env, dollar + 1)
            },
            None => s.subrange(at, dollar + 1) + vars_expanded(s, env, dollar + 1),
        }
    }
}

#[via_fn]
proof fn vars_expanded_ends(s: Seq<char>, env: Map<Seq<char>, Seq<char>>, at: int) {
    lemma_first_from(s, '$', at);
    let dollar = first_from(s, '$', at);
    if dollar >= 0 {
        lemma_first_from(s, '}', dollar + 2);
        lemma_name_end(s, dollar + 1);
    }
}

fn find_reference(s: &[char], at: usize) -> (result: (Vec<char>, usize))
    requires
        at <= s@.len(),
    ensures
        (result.0@, result.1 as int) == reference_at(s@, at as int),
        at <= result.1 <= s@.len(),
{
    if at < s.len() && s[at] == '{' {
        match find_from(s, '}', at + 1) {
            Some(brace) => (copy_range(s, at + 1, brace), brace + 1),
            None => {
                let none: Vec<char> = Vec::new();
                assert(none@ =~= seq![]);
                (none, at)
            },
        }
    } else {
        let end: usize = skip_name(s, at);
        (copy_range(s, at, end), end)
    }
}

/// Replaces `$name` and `${name}` where the variable is set.
pub fn expandvars(value: &str, env: &Env) -> (result: String)
    ensures
        result@ == vars_expanded(value@, env@, 0),
{
    let s = chars_of(value);
    let mut out: Vec<char> = Vec::new();
    let mut at: usize = 0;
    loop
        invariant
            at <= s@.len(),
            s@ == value@,
            out@ + vars_expanded(s@, env@, at as int) == vars_expanded(s@, env@, 0),
        decreases s@.len() - at,
    {
        match find_from(&s, '$', at) {
            None => {
                let rest = copy_range(&s, at, s.len());
                push_chars(&mut out, &rest);
                assert(rest@ =~= s@.skip(at as int));
                return string_of(&out);
            },
            Some(dollar) => {
                let ghost before = out@;
                let (name, end) = find_reference(&s, dollar + 1);
                let known = if end > dollar + 1 {
                    env.get(&string_of(&name))
                } else {
                    None
                };
                match known {
                    Some(text) => {
                        push_chars(&mut out, &copy_range(&s, at, dollar));
                        push_chars(&mut out, &chars_of(text));
                        assert(out@ + vars_expanded(s@, env@, end as int) =~= before
                            + vars_expanded(s@, env@, at as int));
                        at = end;
                    },
                    None => {
                        push_chars(&mut out, &copy_range(&s, at, dollar + 1));
                        assert(out@ + vars_expanded(s@, env@, dollar + 1) =~= before
                            + vars_expanded(s@, env@, at as int));
                        at = dollar + 1;
                    },
                }
            },
        }
    }
}

/// A path with its home directory and then its variables expanded.
pub open spec fn path_expanded(
    value: Seq<char>,
    env: Map<Seq<char>, Seq<char>>,
    world: Map<QuestionView, Option<Seq<char>>>,
) -> Found<Seq<char>> {
    match user_expanded(value, env, world) {
        Found::Found(text) => Found::Found(vars_expanded(text, env, 0)),
        Found::Ask(question) => Found::Ask(question),
    }
}

/// Expands the home directory and then the variables of a path.
pub fn expand_path(value: &str, env: &Env, world: &World) -> (result: Lookup<String>)
    ensures
        text_lookup(result) == path_expanded(value@, env@, world@),
{
    match expanduser(value, env, world) {
        Lookup::Found(text) => Lookup::Found(expandvars(&text, env)),
        Lookup::Ask(question) => Lookup::Ask(question),
    }
}

/// A text without a dollar sign has nothing to expand.
pub proof fn plain_text_is_kept(s: Seq<char>, env: Map<Seq<char>, Seq<char>>)
    requires
        !s.contains('$'),
    ensures
        vars_expanded(s, env, 0) == s,
{
    lemma_first_from(s, '$', 0);
    let dollar = first_from(s, '$', 0);
    if dollar >= 0 {
        lemma_first_hit(s, '$', 0);
        assert(s.contains('$'));
    }
    assert(s.skip(0) =~= s);
}

proof fn lemma_first_hit(s: Seq<char>, c: char, at: int)
    requires
        0 <= at,
        first_from(s, c, at) >= 0,
    ensures
        s[first_from(s, c, at)] == c,
        first_from(s, c, at) < s.len(),
    decreases s.len() - at,
{
    if at < s.len() && s[at] != c {
        lemma_first_hit(s, c, at + 1);
    }
}

/// The decimal number of at most 64 bits that a text denotes.
pub open spec fn decimal_value(text: Seq<char>) -> Option<int> {
    match int_value(text, 10) {
        Some(value) => if i64::MIN <= value <= i64::MAX {
            Some(value)
        } else {
            None
        },
        None => None,
    }
}

/// Reads a decimal number: an optional sign, white space around it, and single
/// underscores between digits.
pub fn parse_decimal(text: &str) -> (result: Option<i64>)
    ensures
        match decimal_value(text@) {
            Some(value) => result == Some(value as i64),
            None => result is None,
        },
{
    match parse_int(text, 10) {
        Some(value) => if i64::MIN as i128 <= value && value <= i64::MAX as i128 {
            Some(value as i64)
        } else {
            None
        },
        None => None,
    }
}

/// The base that the prefix of a number gives: `0x`, `0o` or `0b` in any case,
/// else ten.
pub open spec fn prefix_base(body: Seq<char>) -> nat {
    if body.len() < 2 || body[0] != '0' {
        10
    } else if body[1] == 'x' || body[1] == 'X' {
        16
    } else if body[1] == 'o' || body[1] == 'O' {
        8
    } else if body[1] == 'b' || body[1] == 'B' {
        2
    } else {
        10
    }
}

/// Whether a decimal number has zeros in front of it and is not zero.
pub open spec fn has_leading_zeros(digits: Seq<char>) -> bool {
    digits.len() > 1 && digits[0] == '0' && exists|i: int|
        0 <= i < digits.len() && #[trigger] digits[i] != '0'
}

/// The number that a text denotes, in the base of its prefix. A decimal number
/// has no leading zeros.
pub open spec fn auto_value(text: Seq<char>) -> Option<int> {
    let s = trimmed(text);
    if s.len() == 0 {
        None
    } else {
        let body = if s[0] == '-' || s[0] == '+' {
            s.skip(1)
        } else {
            s
        };
        let base = prefix_base(body);
        let digits = if base == 10 {
            body
        } else {
            after_underscore(body.skip(2))
        };
        match grouped_value(digits, base) {
            Some(value) => if value > i128::MAX || (base == 10 && has_leading_zeros(
                without(digits, '_'),
            )) {
                None
            } else if s[0] == '-' {
                Some(-value)
            } else {
                Some(value as int)
            },
            None => None,
        }
    }
}

fn leading_zeros(digits: &[char]) -> (result: bool)
    ensures
        result == has_leading_zeros(digits@),
{
    if digits.len() <= 1 || digits[0] != '0' {
        return false;
    }
    let mut i: usize = 0;
    while i < digits.len()
        invariant
            i <= digits@.len(),
            digits@.len() > 1,
            digits@[0] == '0',
            forall|j: int| 0 <= j < i ==> digits@[j] == '0',
        decreases digits@.len() - i,
    {
        if digits[i] != '0' {
            return true;
        }
        i = i + 1;
    }
    false
}

/// Reads a number in the base of its prefix.
pub fn parse_int_auto(text: &str) -> (result: Option<i128>)
    ensures
        match auto_value(text@) {
            Some(value) => result == Some(value as i128) && -i128::MAX <= value <= i128::MAX,
            None => result is None,
        },
{
    let s = trim(&chars_of(text));
    if s.len() == 0 {
        return None;
    }
    let negative = s[0] == '-';
    let start: usize = if negative || s[0] == '+' {
        1
    } else {
        0
    };
    let body = copy_range(&s, start, s.len());
    assert(body@ =~= if start == 1 {
        s@.skip(1)
    } else {
        s@
    });
    let base: u32 = if body.len() < 2 || body[0] != '0' {
        10
    } else if body[1] == 'x' || body[1] == 'X' {
        16
    } else if body[1] == 'o' || body[1] == 'O' {
        8
    } else if body[1] == 'b' || body[1] == 'B' {
        2
    } else {
        10
    };
    let from: usize = if base == 10 {
        0
    } else if body.len() > 2 && body[2] == '_' {
        3
    } else {
        2
    };
    let digits = copy_range(&body, from, body.len());
    assert(digits@ =~= if base == 10 {
        body@
    } else {
        after_underscore(body@.skip(2))
    });
    if base == 10 && leading_zeros(&remove_char(&digits, '_')) {
        return None;
    }
    match parse_grouped(&digits, base, i128::MAX as u128) {
        Some(value) => if negative {
            Some(-(value as i128))
        } else {
            Some(value as i128)
        },
        None => None,
    }
}

/// The quotation that a position in a command line lies in.
#[derive(Debug, Clone, Copy, PartialEq, Eq, Structural)]
pub enum Quote {
    Open,
    Single,
    Double,
}

/// The words that a command line has from a position on, in front of them those
/// already finished. `word` is the word under way, if one is. Outside quotation
/// marks a backslash takes the next character as it is, and so it does between
/// double ones before another backslash or a double quotation mark; single ones
/// take everything as it is.
pub open spec fn words_from(
    s: Seq<char>,
    at: int,
    words: Seq<Seq<char>>,
    word: Option<Seq<char>>,
    quote: Quote,
) -> Result<Seq<Seq<char>>, Seq<char>>
    decreases s.len() - at,
{
    let begun = match word {
        Some(word) => word,
        None => seq![],
    };
    if at < 0 || at >= s.len() {
        if quote != Quote::Open {
            Err("No closing quotation"@)
        } else {
            match word {
                Some(word) => Ok(words.push(word)),
                None => Ok(words),
            }
        }
    } else {
        let c = s[at];
        match quote {
            Quote::Open => if c == ' ' || c == '\t' || c == '\r' || c == '\n' {
                match word {
                    Some(word) => words_from(s, at + 1, words.push(word), None, quote),
                    None => words_from(s, at + 1, words, None, quote),
                }
            } else if c == '\\' {
                if at + 1 >= s.len() {
                    Err("No escaped character"@)
                } else {
                    words_from(s, at + 2, words, Some(begun.push(s[at + 1])), quote)
                }
            } else if c == '\'' {
                words_from(s, at + 1, words, Some(begun), Quote::Single)
            } else if c == '"' {
                words_from(s, at + 1, words, Some(begun), Quote::Double)
            } else {
                words_from(s, at + 1, words, Some(begun.push(c)), quote)
            },
            Quote::Single => if c == '\'' {
                words_from(s, at + 1, words, Some(begun), Quote::Open)
            } else {
                words_from(s, at + 1, words, Some(begun.push(c)), quote)
            },
            Quote::Double => if c == '"' {
                words_from(s, at + 1, words, Some(begun), Quote::Open)
            } else if c == '\\' {
                if at + 1 >= s.len() {
                    Err("No escaped character"@)
                } else if s[at + 1] == '"' || s[at + 1] == '\\' {
                    words_from(s, at + 2, words, Some(begun.push(s[at + 1])), quote)
                } else {
                    words_from(s, at + 2, words, Some(begun.push('\\').push(s[at + 1])), quote)
                }
            } else {
                words_from(s, at + 1, words, Some(begun.push(c)), quote)
            },
        }
    }
}

/// The words of a command line.
pub open spec fn words_of(s: Seq<char>) -> Result<Seq<Seq<char>>, Seq<char>> {
    words_from(s, 0, seq![], None, Quote::Open)
}

/// Splits a command line into its words.
pub fn shlex_split(text: &str) -> (result: Result<Vec<String>, &'static str>)
    ensures
        match result {
            Ok(words) => words_of(text@) == Ok::<_, Seq<char>>(text_views(words@)),
            Err(message) => words_of(text@) == Err::<Seq<Seq<char>>, _>(message@),
        },
{
    let s = chars_of(text);
    let mut words: Vec<String> = Vec::new();
    let mut current: Vec<char> = Vec::new();
    let mut in_word = false;
    let mut quote = Quote::Open;
    let mut at: usize = 0;
    assert(text_views(words@) =~= seq![]);
    while at < s.len()
        invariant
            at <= s@.len(),
            s@ == text@,
            !in_word ==> current@.len() == 0,
            quote != Quote::Open ==> in_word,
            words_of(text@) == words_from(
                s@,
                at as int,
                text_views(words@),
                if in_word {
                    Some(current@)
                } else {
                    None
                },
                quote,
            ),
        decreases s@.len() - at,
    {
        let c: char = s[at];
        assert(!in_word ==> current@ =~= seq![]);
        match quote {
            Quote::Open => {
                if c == ' ' || c == '\t' || c == '\r' || c == '\n' {
                    if in_word {
                        let ghost before = text_views(words@);
                        words.push(string_of(&current));
                        assert(text_views(words@) =~= before.push(current@));
                        current = Vec::new();
                        in_word = false;
                    }
                } else if c == '\\' {
                    if at + 1 >= s.len() {
                        return Err("No escaped character");
                    }
                    at = at + 1;
                    current.push(s[at]);
                    in_word = true;
                } else if c == '\'' {
                    quote = Quote::Single;
                    in_word = true;
                } else if c == '"' {
                    quote = Quote::Double;
                    in_word = true;
                } else {
                    current.push(c);
                    in_word = true;
                }
            },
            Quote::Single => {
                if c == '\'' {
                    quote = Quote::Open;
                } else {
                    current.push(c);
                }
            },
            Quote::Double => {
                if c == '"' {
                    quote = Quote::Open;
                } else if c == '\\' {
                    if at + 1 >= s.len() {
                        return Err("No escaped character");
                    }
                    at = at + 1;
                    if s[at] != '"' && s[at] != '\\' {
                        current.push('\\');
                    }
                    current.push(s[at]);
                } else {
                    current.push(c);
                }
            },
        }
        at = at + 1;
    }
    if quote != Quote::Open {
        return Err("No closing quotation");
    }
    if in_word {
        let ghost before = text_views(words@);
        words.push(string_of(&current));
        assert(text_views(words@) =~= before.push(current@));
    }
    Ok(words)
}

/// A number as it is written in base 2, 8, 10 or 16, with the prefix of the base.
pub open spec fn number_text(n: nat, base: nat) -> Seq<char> {
    if base == 16 {
        seq!['0', 'x'] + hex_text(n)
    } else if base == 8 {
        seq!['0', 'o'] + radix_text(n, 8)
    } else if base == 2 {
        seq!['0', 'b'] + radix_text(n, 2)
    } else {
        decimal_text(n)
    }
}

/// A number that is written in base 2, 8, 10 or 16, with or without a sign, is
/// read back.
pub proof fn numbers_are_read_back(n: nat, base: nat, sign: Seq<char>)
    requires
        n <= i128::MAX,
        base == 2 || base == 8 || base == 10 || base == 16,
        sign == Seq::<char>::empty() || sign == seq!['+'] || sign == seq!['-'],
    ensures
        auto_value(sign + number_text(n, base)) == Some(
            if sign == seq!['-'] {
                -n
            } else {
                n as int
            },
        ),
{
    let digits = radix_text(n, base);
    let body = number_text(n, base);
    let text = sign + body;
    radix_round_trip(n, base);
    lemma_radix_ten_sixteen(n);
    assert forall|i: int| 0 <= i < digits.len() implies #[trigger] digits[i] != '_' && !is_space(
        digits[i],
    ) && digits[i] != '-' && digits[i] != '+' by {
        assert(digit_of(digits[i], base) is Some);
    }
    lemma_without_absent(digits, '_');
    if base != 10 {
        assert(body.skip(2) =~= digits);
        assert(body.len() == digits.len() + 2);
        assert(body.last() == digits.last());
        assert(body[0] == '0');
    } else {
        assert(body == digits);
        assert(digit_of(digits[0], 10) is Some);
    }
    assert(text.last() == digits.last());
    assert(digits.last() == digits[digits.len() - 1]);
    if sign.len() == 0 {
        assert(text =~= body);
        assert(sign != seq!['-']) by {
            assert(seq!['-'].len() == 1);
        }
    } else {
        assert(text[0] == sign[0]);
        assert(text.skip(1) =~= body);
        if sign == seq!['+'] {
            assert(seq!['+'][0] != seq!['-'][0]);
        }
    }
    assert(trim_start(text) == text);
    assert(trimmed(text) == text);
    if base == 10 && digits.len() > 1 {
        assert(digits[0] != '0');
    }
    assert(prefix_base(body) == base);
    assert(!has_text(digits, seq!['_', '_'])) by {
        if has_text(digits, seq!['_', '_']) {
            let at = choose|at: int| occurs_at(digits, seq!['_', '_'], at);
            assert(digits.subrange(at, at + 2)[0] == digits[at]);
        }
    }
    assert(grouped_value(digits, base) == Some(n));
}

}
