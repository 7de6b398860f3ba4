//! Choosing the flash script.
//!
//! A script is named by the configuration, or chosen by chip name from the
//! user's library and from the TRACE32 installation. A script is a candidate when
//! its header has an `@Chip:` line with a pattern that matches the chip, and it
//! supports `PREPAREONLY`. The library wins over the installation; within one
//! source an exact pattern wins over a wildcard, and a longer wildcard over a
//! shorter one. On a tie the script for internal flash wins over those for other
//! memories, which are named `<family>-<memory>.cmm`. A remaining tie is reported
//! instead of guessed.

use vstd::prelude::*;
use vstd::string::*;

use crate::config::{env_or, is_command_safe, script_path, Config, ConfigView, Known, Vars};
use crate::errors::BridgeError;
use crate::paths::{
    component_views, components, components_of, extension, extension_of, file_name, file_name_of,
    file_stem, join, joined, lemma_steps_one_way, lemma_steps_order, precedes, stem_of,
    steps_before, ComponentView,
};
use crate::pycompat::{expanduser, user_expanded};
use crate::t32rcl::eval::{comma_list, join_commas, text_views};
use crate::text::{
    char_views, chars_of, concat2, concat3, concat4, concat5, contains, contains_char, copy_range,
    decode_utf8_lossy, has_text, same, split, split_text, starts_with, string_of, to_uppercase,
    uppercase, utf8_replaced,
};
use crate::world::{text_lookup, Env, Found, Lookup, World};

verus! {

/// Where a script comes from.
#[derive(Debug, Clone, Copy, PartialEq, Eq, Structural)]
pub enum Source {
    Trace32,
    Library,
}

impl Source {
    /// The name by which a user knows the source.
    pub open spec fn text(self) -> Seq<char> {
        match self {
            Source::Library => "library"@,
            Source::Trace32 => "TRACE32"@,
        }
    }

    /// The name by which a user knows the source.
    pub fn name(self) -> (name: &'static str)
        ensures
            name@ == self.text(),
    {
        match self {
            Source::Library => "library",
            Source::Trace32 => "TRACE32",
        }
    }
}

/// A flash script with the chip patterns from its header.
#[derive(Debug, Clone, PartialEq, Eq)]
pub struct Script {
    pub path: String,
    pub source: Source,
    pub chips: Vec<String>,
    pub prepare_only: bool,
    /// Whether the script takes the derivative as `CPU=<name>`.
    pub accepts_cpu: bool,
}

/// The content of a [`Script`].
pub ghost struct ScriptView {
    pub path: Seq<char>,
    pub source: Source,
    pub chips: Seq<Seq<char>>,
    pub prepare_only: bool,
    pub accepts_cpu: bool,
}

impl View for Script {
    type V = ScriptView;

    open spec fn view(&self) -> ScriptView {
        ScriptView {
            path: self.path@,
            source: self.source,
            chips: text_views(self.chips@),
            prepare_only: self.prepare_only,
            accepts_cpu: self.accepts_cpu,
        }
    }
}

/// The contents of scripts.
pub open spec fn script_views(scripts: Seq<Script>) -> Seq<ScriptView> {
    scripts.map_values(|script: Script| script@)
}

/// How the flash script was chosen.
#[derive(Debug, Clone, PartialEq, Eq)]
pub enum Choice {
    /// Named by the configuration.
    Explicit(String),
    /// Chosen for `chip` by the pattern `pattern`.
    Chip { chip: String, pattern: String, script: Script },
}

/// The content of a [`Choice`].
pub ghost enum ChoiceView {
    Explicit(Seq<char>),
    Chip { chip: Seq<char>, pattern: Seq<char>, script: ScriptView },
}

impl View for Choice {
    type V = ChoiceView;

    open spec fn view(&self) -> ChoiceView {
        match *self {
            Choice::Explicit(script) => ChoiceView::Explicit(script@),
            Choice::Chip { chip, pattern, script } => ChoiceView::Chip {
                chip: chip@,
                pattern: pattern@,
                script: script@,
            },
        }
    }
}

/// Whether an argument sets the derivative.
pub open spec fn sets_cpu(argument: Seq<char>) -> bool {
    "CPU="@.is_prefix_of(uppercase(argument))
}

impl ChoiceView {
    /// The argument that names the derivative: for a script that was chosen by
    /// chip and takes it, unless the arguments set it already.
    pub open spec fn cpu(self, arguments: Seq<Seq<char>>) -> Option<Seq<char>> {
        match self {
            ChoiceView::Chip { chip, pattern, script } => if script.accepts_cpu && !exists|i: int|
                0 <= i < arguments.len() && sets_cpu(#[trigger] arguments[i]) {
                Some("CPU="@ + chip)
            } else {
                None
            },
            ChoiceView::Explicit(_) => None,
        }
    }

    /// The script as TRACE32 is told to run it.
    pub open spec fn path(self) -> Seq<char> {
        match self {
            ChoiceView::Explicit(script) => script,
            ChoiceView::Chip { chip, pattern, script } => script.path,
        }
    }
}

impl Choice {
    /// The argument that names the derivative, where one is needed.
    pub fn cpu_argument(&self, arguments: &Vec<String>) -> (result: Option<String>)
        ensures
            match result {
                Some(text) => self@.cpu(text_views(arguments@)) == Some(text@),
                None => self@.cpu(text_views(arguments@)) is None,
            },
    {
        let ghost views = text_views(arguments@);
        match self {
            Choice::Chip { chip, pattern, script } => {
                if !script.accepts_cpu {
                    return None;
                }
                let prefix = chars_of("CPU=");
                let mut i: usize = 0;
                while i < arguments.len()
                    invariant
                        i <= arguments@.len(),
                        views == text_views(arguments@),
                        prefix@ == "CPU="@,
                        self@ matches ChoiceView::Chip { chip: c, pattern: p, script: s }
                            && s.accepts_cpu && c == chip@,
                        forall|j: int| 0 <= j < i ==> !sets_cpu(#[trigger] views[j]),
                    decreases arguments@.len() - i,
                {
                    assert(views[i as int] == arguments@[i as int]@);
                    if starts_with(&to_uppercase(&chars_of(&arguments[i])), &prefix) {
                        assert(sets_cpu(views[i as int]));
                        return None;
                    }
                    i = i + 1;
                }
                Some(concat2("CPU=", chip))
            },
            Choice::Explicit(_) => None,
        }
    }

    /// The script as TRACE32 is told to run it.
    pub fn script(&self) -> (result: String)
        ensures
            result@ == self@.path(),
    {
        match self {
            Choice::Explicit(script) => script.clone(),
            Choice::Chip { chip, pattern, script } => script.path.clone(),
        }
    }
}

/// The directory of the user's own flash scripts.
pub open spec fn library_of(env: Vars, world: Known) -> Found<Seq<char>> {
    let base = env_or(env, "XDG_CONFIG_HOME"@, seq![]);
    if base.len() > 0 {
        Found::Found(joined(joined(base, "tracebridge"@), "flash"@))
    } else {
        match user_expanded("~/.config"@, env, world) {
            Found::Found(base) => Found::Found(joined(joined(base, "tracebridge"@), "flash"@)),
            Found::Ask(question) => Found::Ask(question),
        }
    }
}

/// The directory of the user's own flash scripts.
pub fn library_dir(env: &Env, world: &World) -> (result: Lookup<String>)
    ensures
        text_lookup(result) == library_of(env@, world@),
{
    let none = String::new();
    assert(none@ =~= seq![]);
    let base = crate::config::env_text(env, "XDG_CONFIG_HOME", none);
    if !base.as_str().is_empty() {
        return Lookup::Found(join(&join(&base, "tracebridge"), "flash"));
    }
    match expanduser("~/.config", env, world) {
        Lookup::Found(base) => Lookup::Found(join(&join(&base, "tracebridge"), "flash")),
        Lookup::Ask(question) => Lookup::Ask(question),
    }
}

/// Whether a pattern matches a text: `*` stands for any characters, `?` for any
/// one, and every other character for itself.
pub open spec fn globbed(pattern: Seq<char>, text: Seq<char>, p: int, t: int) -> bool
    decreases pattern.len() - p, text.len() - t,
    when 0 <= p <= pattern.len() && 0 <= t <= text.len()
{
    if p == pattern.len() {
        t == text.len()
    } else if pattern[p] == '*' {
        globbed(pattern, text, p + 1, t) || (t < text.len() && globbed(pattern, text, p, t + 1))
    } else {
        t < text.len() && (pattern[p] == '?' || pattern[p] == text[t]) && globbed(
            pattern,
            text,
            p + 1,
            t + 1,
        )
    }
}

/// Whether a pattern matches a text, whatever the case of ASCII letters.
pub open spec fn matches_glob(pattern: Seq<char>, text: Seq<char>) -> bool {
    globbed(uppercase(pattern), uppercase(text), 0, 0)
}

proof fn lemma_star_absorbs(pattern: Seq<char>, text: Seq<char>, p: int, t: int, later: int)
    requires
        0 <= p < pattern.len(),
        pattern[p] == '*',
        0 <= t <= later <= text.len(),
        globbed(pattern, text, p, later),
    ensures
        globbed(pattern, text, p, t),
    decreases later - t,
{
    if t < later {
        lemma_star_absorbs(pattern, text, p, t + 1, later);
    }
}

proof fn lemma_star_choice(pattern: Seq<char>, text: Seq<char>, p: int, t: int) -> (hit: int)
    requires
        0 <= p < pattern.len(),
        pattern[p] == '*',
        0 <= t <= text.len(),
        globbed(pattern, text, p, t),
    ensures
        t <= hit <= text.len(),
        globbed(pattern, text, p + 1, hit),
    decreases text.len() - t,
{
    if globbed(pattern, text, p + 1, t) {
        t
    } else {
        lemma_star_choice(pattern, text, p, t + 1)
    }
}

proof fn lemma_literal_run(pattern: Seq<char>, text: Seq<char>, from: int, to: int, t: int)
    requires
        0 <= from <= to <= pattern.len(),
        0 <= t <= text.len(),
        forall|i: int| from <= i < to ==> #[trigger] pattern[i] != '*',
        globbed(pattern, text, from, t),
    ensures
        t + (to - from) <= text.len(),
        globbed(pattern, text, to, t + (to - from)),
    decreases to - from,
{
    if from < to {
        assert(pattern[from] != '*');
        lemma_literal_run(pattern, text, from + 1, to, t + 1);
    }
}

proof fn lemma_stars_only(pattern: Seq<char>, text: Seq<char>, p: int)
    requires
        0 <= p <= pattern.len(),
    ensures
        globbed(pattern, text, p, text.len() as int) <==> forall|i: int|
            p <= i < pattern.len() ==> #[trigger] pattern[i] == '*',
    decreases pattern.len() - p,
{
    if p < pattern.len() {
        lemma_stars_only(pattern, text, p + 1);
        if pattern[p] == '*' {
            assert(globbed(pattern, text, p, text.len() as int) == globbed(
                pattern,
                text,
                p + 1,
                text.len() as int,
            ));
        } else {
            assert(!globbed(pattern, text, p, text.len() as int));
        }
    }
}

fn glob_chars(pattern: &[char], text: &[char]) -> (result: bool)
    ensures
        result == globbed(pattern@, text@, 0, 0),
{
    let mut p: usize = 0;
    let mut t: usize = 0;
    let mut starred = false;
    let mut star: usize = 0;
    let mut mark: usize = 0;
    while t < text.len()
        invariant
            p <= pattern@.len(),
            t <= text@.len(),
            mark <= t,
            !starred ==> globbed(pattern@, text@, 0, 0) == globbed(
                pattern@,
                text@,
                p as int,
                t as int,
            ),
            starred ==> {
                &&& star < p
                &&& pattern@[star as int] == '*'
                &&& t - mark == p - star - 1
                &&& forall|i: int| star < i < p ==> #[trigger] pattern@[i] != '*'
                &&& globbed(pattern@, text@, 0, 0) == (globbed(
                    pattern@,
                    text@,
                    p as int,
                    t as int,
                ) || (mark < text@.len() && globbed(pattern@, text@, star as int, mark + 1)))
            },
        decreases text@.len() - mark, pattern@.len() - p,
    {
        if p < pattern.len() && pattern[p] == '*' {
            proof {
                if starred && globbed(pattern@, text@, star as int, mark + 1) {
                    let hit = lemma_star_choice(pattern@, text@, star as int, mark + 1);
                    lemma_literal_run(pattern@, text@, star + 1, p as int, hit);
                    lemma_star_absorbs(pattern@, text@, p as int, t as int, hit + (p - star - 1));
                }
            }
            starred = true;
            star = p;
            mark = t;
            p = p + 1;
        } else if p < pattern.len() && (pattern[p] == '?' || pattern[p] == text[t]) {
            p = p + 1;
            t = t + 1;
        } else if starred {
            assert(!globbed(pattern@, text@, p as int, t as int));
            mark = mark + 1;
            p = star + 1;
            t = mark;
        } else {
            return false;
        }
    }
    proof {
        if starred && mark < text@.len() && globbed(pattern@, text@, star as int, mark + 1) {
            let hit = lemma_star_choice(pattern@, text@, star as int, mark + 1);
            lemma_literal_run(pattern@, text@, star + 1, p as int, hit);
        }
        lemma_stars_only(pattern@, text@, p as int);
    }
    let mut i: usize = p;
    while i < pattern.len()
        invariant
            p <= i <= pattern@.len(),
            forall|j: int| p <= j < i ==> pattern@[j] == '*',
            globbed(pattern@, text@, 0, 0) <==> forall|j: int|
                p <= j < pattern@.len() ==> #[trigger] pattern@[j] == '*',
        decreases pattern@.len() - i,
    {
        if pattern[i] != '*' {
            return false;
        }
        i = i + 1;
    }
    true
}

/// Whether a pattern matches a text, whatever the case of ASCII letters.
pub fn glob_match(pattern: &str, text: &str) -> (result: bool)
    ensures
        result == matches_glob(pattern@, text@),
{
    glob_chars(&to_uppercase(&chars_of(pattern)), &to_uppercase(&chars_of(text)))
}

/// Whether a character of a pattern stands for itself.
pub open spec fn is_literal(c: char) -> bool {
    c != '*' && c != '?'
}

/// The number of characters of a pattern that stand for themselves.
pub open spec fn literals(pattern: Seq<char>) -> nat
    decreases pattern.len(),
{
    if pattern.len() == 0 {
        0
    } else if is_literal(pattern.last()) {
        literals(pattern.drop_last()) + 1
    } else {
        literals(pattern.drop_last())
    }
}

/// How specific a pattern is: whether it is an exact name, and the number of
/// literal characters.
pub fn specificity(pattern: &str) -> (result: (bool, usize))
    ensures
        result.0 == (literals(pattern@) == pattern@.len()),
        result.1 == literals(pattern@),
{
    let chars = chars_of(pattern);
    let mut literal: usize = 0;
    let mut i: usize = 0;
    while i < chars.len()
        invariant
            i <= chars@.len(),
            literal == literals(chars@.take(i as int)),
            literal <= i,
        decreases chars@.len() - i,
    {
        assert(chars@.take(i as int + 1).drop_last() =~= chars@.take(i as int));
        if chars[i] != '*' && chars[i] != '?' {
            literal = literal + 1;
        }
        i = i + 1;
    }
    assert(chars@.take(i as int) =~= chars@);
    (literal == chars.len(), literal)
}

/// Whether a pattern is at least as specific as another.
pub open spec fn as_specific(a: Seq<char>, b: Seq<char>) -> bool {
    let exact_a = literals(a) == a.len();
    let exact_b = literals(b) == b.len();
    if exact_a != exact_b {
        exact_a
    } else {
        literals(a) >= literals(b)
    }
}

/// The most specific pattern that matches a chip; the last of several.
pub open spec fn best_of(chips: Seq<Seq<char>>, chip: Seq<char>) -> Option<Seq<char>>
    decreases chips.len(),
{
    if chips.len() == 0 {
        None
    } else {
        let before = best_of(chips.drop_last(), chip);
        let last = chips.last();
        if !matches_glob(last, chip) {
            before
        } else {
            match before {
                Some(pattern) => if as_specific(last, pattern) {
                    Some(last)
                } else {
                    before
                },
                None => Some(last),
            }
        }
    }
}

fn at_least_as_specific(a: &str, b: &str) -> (result: bool)
    ensures
        result == as_specific(a@, b@),
{
    let x = specificity(a);
    let y = specificity(b);
    if x.0 != y.0 {
        x.0
    } else {
        x.1 >= y.1
    }
}

/// The most specific pattern of a script that matches a chip.
pub fn best_pattern<'a>(script: &'a Script, chip: &str) -> (result: Option<&'a str>)
    ensures
        match result {
            Some(pattern) => best_of(script@.chips, chip@) == Some(pattern@),
            None => best_of(script@.chips, chip@) is None,
        },
{
    let ghost views = script@.chips;
    let mut best: Option<&'a str> = None;
    let mut i: usize = 0;
    while i < script.chips.len()
        invariant
            i <= script.chips@.len(),
            views == text_views(script.chips@),
            match best {
                Some(pattern) => best_of(views.take(i as int), chip@) == Some(pattern@),
                None => best_of(views.take(i as int), chip@) is None,
            },
        decreases script.chips@.len() - i,
    {
        assert(views.take(i as int + 1).drop_last() =~= views.take(i as int));
        assert(views[i as int] == script.chips@[i as int]@);
        if glob_match(&script.chips[i], chip) {
            let better = match best {
                Some(pattern) => at_least_as_specific(&script.chips[i], pattern),
                None => true,
            };
            if better {
                best = Some(script.chips[i].as_str());
            }
        }
        i = i + 1;
    }
    assert(views.take(i as int) =~= views);
    best
}

/// The name of the file at a path, without its extension.
pub open spec fn path_stem(path: Seq<char>) -> Option<Seq<char>> {
    match file_name_of(path) {
        Some(name) => Some(stem_of(name)),
        None => None,
    }
}

/// Whether a script is one for external or special memory.
pub open spec fn is_variant_path(path: Seq<char>) -> bool {
    path_stem(path) matches Some(stem) && stem.contains('-')
}

fn find_stem(path: &str) -> (result: Option<String>)
    ensures
        match result {
            Some(stem) => path_stem(path@) == Some(stem@),
            None => path_stem(path@) is None,
        },
{
    match file_name(path) {
        Some(name) => Some(file_stem(&name)),
        None => None,
    }
}

/// Whether a script is one for external or special memory.
pub fn is_variant(script: &Script) -> (result: bool)
    ensures
        result == is_variant_path(script@.path),
{
    match find_stem(&script.path) {
        Some(stem) => contains_char(&chars_of(&stem), '-'),
        None => false,
    }
}

/// How well a script fits: by its source, by the pattern that matched, and by
/// whether it is for internal flash.
#[derive(Debug, Clone, Copy, PartialEq, Eq, Structural)]
pub struct Rank {
    pub library: bool,
    pub exact: bool,
    pub literal: usize,
    pub internal: bool,
}

/// Whether a rank is above another: the source counts first, then the pattern,
/// then the kind of memory.
pub open spec fn above(a: Rank, b: Rank) -> bool {
    if a.library != b.library {
        a.library
    } else if a.exact != b.exact {
        a.exact
    } else if a.literal != b.literal {
        a.literal > b.literal
    } else {
        a.internal && !b.internal
    }
}

fn ranks_above(a: &Rank, b: &Rank) -> (result: bool)
    ensures
        result == above(*a, *b),
{
    if a.library != b.library {
        a.library
    } else if a.exact != b.exact {
        a.exact
    } else if a.literal != b.literal {
        a.literal > b.literal
    } else {
        a.internal && !b.internal
    }
}

/// A script that can be chosen, with its rank and the pattern that matched.
pub ghost struct Candidate {
    pub rank: Rank,
    pub pattern: Seq<char>,
    pub script: ScriptView,
}

/// What a script is as a candidate for a chip, if it is one.
pub open spec fn candidate(script: ScriptView, chip: Seq<char>) -> Option<Candidate> {
    match best_of(script.chips, chip) {
        Some(pattern) => if script.prepare_only {
            Some(
                Candidate {
                    rank: Rank {
                        library: script.source == Source::Library,
                        exact: literals(pattern) == pattern.len(),
                        literal: literals(pattern) as usize,
                        internal: !is_variant_path(script.path),
                    },
                    pattern,
                    script,
                },
            )
        } else {
            None
        },
        None => None,
    }
}

/// The highest rank among the scripts for a chip.
pub open spec fn highest(scripts: Seq<ScriptView>, chip: Seq<char>) -> Option<Rank>
    decreases scripts.len(),
{
    if scripts.len() == 0 {
        None
    } else {
        let before = highest(scripts.drop_last(), chip);
        match candidate(scripts.last(), chip) {
            Some(last) => match before {
                Some(rank) => if above(last.rank, rank) {
                    Some(last.rank)
                } else {
                    before
                },
                None => Some(last.rank),
            },
            None => before,
        }
    }
}

/// The candidates of a rank, in the order of the scripts.
pub open spec fn ranked(scripts: Seq<ScriptView>, chip: Seq<char>, rank: Rank) -> Seq<Candidate>
    decreases scripts.len(),
{
    if scripts.len() == 0 {
        seq![]
    } else {
        let before = ranked(scripts.drop_last(), chip, rank);
        match candidate(scripts.last(), chip) {
            Some(last) => if last.rank == rank {
                before.push(last)
            } else {
                before
            },
            None => before,
        }
    }
}

/// The paths of the scripts that match a chip but do not support `PREPAREONLY`.
pub open spec fn unusable(scripts: Seq<ScriptView>, chip: Seq<char>) -> Seq<Seq<char>>
    decreases scripts.len(),
{
    if scripts.len() == 0 {
        seq![]
    } else {
        let before = unusable(scripts.drop_last(), chip);
        let last = scripts.last();
        if !last.prepare_only && best_of(last.chips, chip) is Some {
            before.push(last.path)
        } else {
            before
        }
    }
}

/// How candidates are listed.
pub open spec fn listed(candidates: Seq<Candidate>) -> Seq<Seq<char>> {
    candidates.map_values(|c: Candidate| c.script.path + " ("@ + c.pattern + ")"@)
}

/// The script for a chip: the one candidate of the highest rank.
pub open spec fn chosen(chip: Seq<char>, scripts: Seq<ScriptView>) -> Result<
    (Seq<char>, ScriptView),
    Seq<char>,
> {
    match highest(scripts, chip) {
        None => {
            let misfits = unusable(scripts, chip);
            Err(
                "no flash script found for chip "@ + chip + (if misfits.len() == 0 {
                    seq![]
                } else {
                    " ("@ + comma_list(misfits) + " match but do not support PREPAREONLY)"@
                }),
            )
        },
        Some(rank) => {
            let top = ranked(scripts, chip, rank);
            if top.len() == 1 {
                Ok((top[0].pattern, top[0].script))
            } else {
                Err(
                    "chip "@ + chip + " matches several flash scripts equally well: "@
                        + comma_list(listed(top)),
                )
            }
        },
    }
}

fn copy_texts(list: &Vec<String>) -> (result: Vec<String>)
    ensures
        text_views(result@) == text_views(list@),
{
    let mut result: Vec<String> = Vec::new();
    let mut i: usize = 0;
    while i < list.len()
        invariant
            i <= list@.len(),
            text_views(result@) == text_views(list@).take(i as int),
        decreases list@.len() - i,
    {
        let ghost before = text_views(result@);
        result.push(list[i].clone());
        assert(text_views(result@) =~= before.push(list@[i as int]@));
        i = i + 1;
        assert(text_views(result@) =~= text_views(list@).take(i as int));
    }
    assert(text_views(result@) =~= text_views(list@));
    result
}

fn copy_script(script: &Script) -> (result: Script)
    ensures
        result@ == script@,
{
    Script {
        path: script.path.clone(),
        source: script.source,
        chips: copy_texts(&script.chips),
        prepare_only: script.prepare_only,
        accepts_cpu: script.accepts_cpu,
    }
}

fn rank_of(script: &Script, chip: &str) -> (result: Option<(Rank, String)>)
    ensures
        match result {
            Some((rank, pattern)) => candidate(script@, chip@) == Some(
                Candidate { rank, pattern: pattern@, script: script@ },
            ),
            None => candidate(script@, chip@) is None,
        },
{
    match best_pattern(script, chip) {
        Some(pattern) => {
            if !script.prepare_only {
                return None;
            }
            let (exact, literal) = specificity(pattern);
            let library = match script.source {
                Source::Library => true,
                Source::Trace32 => false,
            };
            Some(
                (
                    Rank { library, exact, literal, internal: !is_variant(script) },
                    pattern.to_owned(),
                ),
            )
        },
        None => None,
    }
}

fn highest_rank(scripts: &[Script], chip: &str) -> (result: Option<Rank>)
    ensures
        result == highest(script_views(scripts@), chip@),
{
    let ghost views = script_views(scripts@);
    let mut best: Option<Rank> = None;
    let mut i: usize = 0;
    while i < scripts.len()
        invariant
            i <= scripts@.len(),
            views == script_views(scripts@),
            best == highest(views.take(i as int), chip@),
        decreases scripts@.len() - i,
    {
        assert(views.take(i as int + 1).drop_last() =~= views.take(i as int));
        assert(views[i as int] == scripts@[i as int]@);
        match rank_of(&scripts[i], chip) {
            Some((rank, _)) => {
                let better = match &best {
                    Some(known) => ranks_above(&rank, known),
                    None => true,
                };
                if better {
                    best = Some(rank);
                }
            },
            None => {},
        }
        i = i + 1;
    }
    assert(views.take(i as int) =~= views);
    best
}

fn unusable_paths(scripts: &[Script], chip: &str) -> (result: Vec<String>)
    ensures
        text_views(result@) == unusable(script_views(scripts@), chip@),
{
    let ghost views = script_views(scripts@);
    let mut result: Vec<String> = Vec::new();
    let mut i: usize = 0;
    assert(text_views(result@) =~= seq![]);
    while i < scripts.len()
        invariant
            i <= scripts@.len(),
            views == script_views(scripts@),
            text_views(result@) == unusable(views.take(i as int), chip@),
        decreases scripts@.len() - i,
    {
        assert(views.take(i as int + 1).drop_last() =~= views.take(i as int));
        assert(views[i as int] == scripts@[i as int]@);
        if !scripts[i].prepare_only {
            match best_pattern(&scripts[i], chip) {
                Some(_) => {
                    let ghost before = text_views(result@);
                    result.push(scripts[i].path.clone());
                    assert(text_views(result@) =~= before.push(scripts@[i as int].path@));
                },
                None => {},
            }
        }
        i = i + 1;
    }
    assert(views.take(i as int) =~= views);
    result
}

/// Picks the script for a chip.
pub fn choose_script(chip: &str, scripts: &[Script]) -> (result: Result<(String, Script), String>)
    ensures
        match result {
            Ok((pattern, script)) => chosen(chip@, script_views(scripts@)) == Ok::<_, Seq<char>>(
                (pattern@, script@),
            ),
            Err(text) => chosen(chip@, script_views(scripts@)) == Err::<
                (Seq<char>, ScriptView),
                _,
            >(text@),
        },
{
    let ghost views = script_views(scripts@);
    let rank = match highest_rank(scripts, chip) {
        Some(rank) => rank,
        None => {
            let misfits = unusable_paths(scripts, chip);
            assert(text_views(misfits@).len() == misfits@.len());
            let mut text = concat2("no flash script found for chip ", chip);
            if misfits.len() > 0 {
                let note = concat3(
                    " (",
                    &join_commas(&misfits),
                    " match but do not support PREPAREONLY)",
                );
                text.append(&note);
            } else {
                assert(text@ + seq![] =~= text@);
            }
            return Err(text);
        },
    };
    let ghost top = ranked(views, chip@, rank);
    let mut list: Vec<String> = Vec::new();
    let mut found: Option<(String, usize)> = None;
    let mut i: usize = 0;
    assert(text_views(list@) =~= listed(ranked(views.take(0), chip@, rank)));
    while i < scripts.len()
        invariant
            i <= scripts@.len(),
            views == script_views(scripts@),
            text_views(list@) == listed(ranked(views.take(i as int), chip@, rank)),
            match found {
                Some((pattern, at)) => {
                    &&& at < scripts@.len()
                    &&& ranked(views.take(i as int), chip@, rank).len() > 0
                    &&& ranked(views.take(i as int), chip@, rank)[0] == (Candidate {
                        rank,
                        pattern: pattern@,
                        script: scripts@[at as int]@,
                    })
                },
                None => ranked(views.take(i as int), chip@, rank).len() == 0,
            },
        decreases scripts@.len() - i,
    {
        assert(views.take(i as int + 1).drop_last() =~= views.take(i as int));
        assert(views[i as int] == scripts@[i as int]@);
        let ghost before = ranked(views.take(i as int), chip@, rank);
        match rank_of(&scripts[i], chip) {
            Some((other, pattern)) => {
                if other == rank {
                    let ghost lines = text_views(list@);
                    list.push(concat4(&scripts[i].path, " (", &pattern, ")"));
                    assert(text_views(list@) =~= lines.push(
                        scripts@[i as int].path@ + " ("@ + pattern@ + ")"@,
                    ));
                    assert(text_views(list@) =~= listed(
                        ranked(views.take(i as int + 1), chip@, rank),
                    ));
                    if found.is_none() {
                        found = Some((pattern, i));
                    }
                }
            },
            None => {},
        }
        i = i + 1;
    }
    assert(views.take(i as int) =~= views);
    assert(text_views(list@).len() == list@.len());
    assert(listed(top).len() == top.len());
    if list.len() == 1 {
        match found {
            Some((pattern, at)) => {
                return Ok((pattern, copy_script(&scripts[at])));
            },
            None => {},
        }
    }
    Err(
        concat4(
            "chip ",
            chip,
            " matches several flash scripts equally well: ",
            &join_commas(&list),
        ),
    )
}

proof fn lemma_highest(scripts: Seq<ScriptView>, chip: Seq<char>)
    ensures
        highest(scripts, chip) is None <==> forall|i: int|
            0 <= i < scripts.len() ==> candidate(#[trigger] scripts[i], chip) is None,
        highest(scripts, chip) matches Some(rank) ==> forall|i: int|
            0 <= i < scripts.len() ==> (candidate(#[trigger] scripts[i], chip) matches Some(c)
                ==> !above(c.rank, rank)),
    decreases scripts.len(),
{
    if scripts.len() > 0 {
        let rest = scripts.drop_last();
        lemma_highest(rest, chip);
        assert forall|i: int| 0 <= i < rest.len() implies #[trigger] scripts[i] == rest[i] by {}
        if highest(scripts, chip) is None {
            assert forall|i: int| 0 <= i < scripts.len() implies candidate(
                #[trigger] scripts[i],
                chip,
            ) is None by {
                if i < rest.len() {
                    assert(candidate(rest[i], chip) is None);
                }
            }
        } else {
            let rank = highest(scripts, chip)->Some_0;
            if candidate(scripts.last(), chip) is None {
                if forall|i: int|
                    0 <= i < scripts.len() ==> candidate(#[trigger] scripts[i], chip) is None {
                    assert forall|i: int| 0 <= i < rest.len() implies candidate(
                        #[trigger] rest[i],
                        chip,
                    ) is None by {
                        assert(candidate(scripts[i], chip) is None);
                    }
                }
            } else {
                assert(candidate(scripts[scripts.len() - 1], chip) is Some);
            }
            assert forall|i: int| 0 <= i < scripts.len() implies (candidate(
                #[trigger] scripts[i],
                chip,
            ) matches Some(c) ==> !above(c.rank, rank)) by {
                if i < rest.len() {
                    assert(candidate(rest[i], chip) == candidate(scripts[i], chip));
                }
            }
        }
    }
}

proof fn lemma_ranked(scripts: Seq<ScriptView>, chip: Seq<char>, rank: Rank)
    ensures
        forall|k: int|
            0 <= k < ranked(scripts, chip, rank).len() ==> exists|i: int|
                0 <= i < scripts.len() && candidate(#[trigger] scripts[i], chip) == Some(
                    #[trigger] ranked(scripts, chip, rank)[k],
                ),
    decreases scripts.len(),
{
    if scripts.len() > 0 {
        let rest = scripts.drop_last();
        lemma_ranked(rest, chip, rank);
        let before = ranked(rest, chip, rank);
        assert forall|k: int| 0 <= k < ranked(scripts, chip, rank).len() implies exists|i: int|
            0 <= i < scripts.len() && candidate(#[trigger] scripts[i], chip) == Some(
                #[trigger] ranked(scripts, chip, rank)[k],
            ) by {
            if k < before.len() {
                let i = choose|i: int|
                    0 <= i < rest.len() && candidate(#[trigger] rest[i], chip) == Some(before[k]);
                assert(scripts[i] == rest[i]);
            } else {
                assert(scripts[scripts.len() - 1] == scripts.last());
            }
        }
    }
}

/// The script that is chosen is one of the candidates, matches by the pattern
/// that is given, and no candidate ranks above it.
pub proof fn the_best_script_is_chosen(chip: Seq<char>, scripts: Seq<ScriptView>)
    ensures
        chosen(chip, scripts) matches Ok((pattern, script)) ==> {
            &&& candidate(script, chip) matches Some(own) && own.pattern == pattern && forall|
                i: int,
            |
                0 <= i < scripts.len() ==> (candidate(#[trigger] scripts[i], chip) matches Some(
                    other,
                ) ==> !above(other.rank, own.rank))
            &&& scripts.contains(script)
            &&& script.prepare_only
        },
        chosen(chip, scripts) is Ok ==> exists|i: int|
            0 <= i < scripts.len() && candidate(#[trigger] scripts[i], chip) is Some,
{
    lemma_highest(scripts, chip);
    if let Some(rank) = highest(scripts, chip) {
        let top = ranked(scripts, chip, rank);
        lemma_ranked(scripts, chip, rank);
        lemma_ranks_agree(scripts, chip, rank);
        if top.len() == 1 {
            let k: int = 0;
            let i = choose|i: int|
                0 <= i < scripts.len() && candidate(#[trigger] scripts[i], chip) == Some(top[k]);
            assert(scripts[i] == top[0].script);
        }
    }
}

proof fn lemma_ranks_agree(scripts: Seq<ScriptView>, chip: Seq<char>, rank: Rank)
    ensures
        forall|k: int|
            0 <= k < ranked(scripts, chip, rank).len() ==> (#[trigger] ranked(
                scripts,
                chip,
                rank,
            )[k]).rank == rank,
    decreases scripts.len(),
{
    if scripts.len() > 0 {
        lemma_ranks_agree(scripts.drop_last(), chip, rank);
    }
}

/// A line without the carriage return before its end.
pub open spec fn without_return(line: Seq<char>) -> Seq<char> {
    if line.len() > 0 && line.last() == '\r' {
        line.drop_last()
    } else {
        line
    }
}

/// The lines of a text. A line ends with a line feed, before which a carriage
/// return does not count; what follows the last line end is a line unless it is
/// empty.
pub open spec fn lines_of(text: Seq<char>) -> Seq<Seq<char>> {
    let pieces = split_text(text, seq!['\n']);
    let ended = pieces.drop_last().map_values(|line: Seq<char>| without_return(line));
    if pieces.last().len() == 0 {
        ended
    } else {
        ended.push(pieces.last())
    }
}

proof fn lemma_split_not_empty(s: Seq<char>, separator: Seq<char>, start: int, at: int)
    ensures
        crate::text::split_from(s, separator, start, at).len() > 0,
    decreases s.len() - at,
{
    if separator.len() == 0 || at < 0 || at + separator.len() > s.len() {
    } else if crate::text::occurs_at(s, separator, at) {
    } else {
        lemma_split_not_empty(s, separator, start, at + 1);
    }
}

/// The lines of a text.
pub fn text_lines(text: &[char]) -> (result: Vec<Vec<char>>)
    ensures
        char_views(result@) == lines_of(text@),
{
    let end: [char; 1] = ['\n'];
    assert(end@ =~= seq!['\n']);
    let pieces = split(text, &end);
    proof {
        lemma_split_not_empty(text@, end@, 0, 0);
    }
    let ghost views = char_views(pieces@);
    let ghost ended = views.drop_last().map_values(|line: Seq<char>| without_return(line));
    let count: usize = pieces.len();
    assert(views.len() == count);
    let mut result: Vec<Vec<char>> = Vec::new();
    let mut i: usize = 0;
    while i < count - 1
        invariant
            i <= count - 1,
            count == pieces@.len(),
            count > 0,
            views == char_views(pieces@),
            ended == views.drop_last().map_values(|line: Seq<char>| without_return(line)),
            char_views(result@) == ended.take(i as int),
        decreases count - i,
    {
        let piece = &pieces[i];
        let length: usize = if piece.len() > 0 && piece[piece.len() - 1] == '\r' {
            piece.len() - 1
        } else {
            piece.len()
        };
        let line = copy_range(piece, 0, length);
        assert(line@ =~= without_return(piece@));
        let ghost before = char_views(result@);
        result.push(line);
        assert(char_views(result@) =~= before.push(line@));
        assert(ended[i as int] == without_return(pieces@[i as int]@));
        i = i + 1;
        assert(char_views(result@) =~= ended.take(i as int));
    }
    assert(ended.take(i as int) =~= ended);
    let last = &pieces[count - 1];
    assert(views.last() == last@);
    if last.len() > 0 {
        let line = copy_range(last, 0, last.len());
        assert(line@ =~= last@);
        let ghost before = char_views(result@);
        result.push(line);
        assert(char_views(result@) =~= before.push(line@));
    }
    result
}

/// A line behind the characters that begin a comment.
pub open spec fn comment_text(line: Seq<char>) -> Seq<char>
    decreases line.len(),
{
    if line.len() > 0 && (line[0] == ';' || line[0] == ' ' || line[0] == '\t') {
        comment_text(line.skip(1))
    } else {
        line
    }
}

/// Whether a character separates patterns.
pub open spec fn is_separator(c: char) -> bool {
    c == ' ' || c == '\t' || c == ','
}

/// The patterns in a text from a position on, behind those already found; `word`
/// is the one under way.
pub open spec fn patterns_from(
    s: Seq<char>,
    at: int,
    found: Seq<Seq<char>>,
    word: Seq<char>,
) -> Seq<Seq<char>>
    decreases s.len() - at,
{
    let done = if word.len() > 0 {
        found.push(word)
    } else {
        found
    };
    if at < 0 || at >= s.len() {
        done
    } else if is_separator(s[at]) {
        patterns_from(s, at + 1, done, seq![])
    } else {
        patterns_from(s, at + 1, found, word.push(s[at]))
    }
}

/// The patterns of the chip lines among the lines of a header.
pub open spec fn chips_in(lines: Seq<Seq<char>>) -> Seq<Seq<char>>
    decreases lines.len(),
{
    if lines.len() == 0 {
        seq![]
    } else {
        let before = chips_in(lines.drop_last());
        let text = comment_text(lines.last());
        if "@Chip:"@.is_prefix_of(text) {
            patterns_from(text, "@Chip:"@.len() as int, before, seq![])
        } else {
            before
        }
    }
}

/// The number of lines that are searched for patterns.
pub const HEADER_LINES: usize = 200;

/// The lines that are searched for patterns.
pub open spec fn header_of(lines: Seq<Seq<char>>) -> Seq<Seq<char>> {
    if lines.len() > HEADER_LINES {
        lines.take(HEADER_LINES as int)
    } else {
        lines
    }
}

/// What a script's text says of it.
pub open spec fn script_of(path: Seq<char>, source: Source, text: Seq<char>) -> ScriptView {
    ScriptView {
        path,
        source,
        chips: chips_in(header_of(lines_of(text))),
        prepare_only: has_text(uppercase(text), "PREPAREONLY"@),
        accepts_cpu: has_text(uppercase(text), "\"CPU=\""@),
    }
}

fn skip_comment(line: &[char]) -> (result: Vec<char>)
    ensures
        result@ == comment_text(line@),
{
    let mut start: usize = 0;
    assert(line@.skip(0) =~= line@);
    while start < line.len() && (line[start] == ';' || line[start] == ' ' || line[start] == '\t')
        invariant
            start <= line@.len(),
            comment_text(line@) == comment_text(line@.skip(start as int)),
        decreases line@.len() - start,
    {
        assert(line@.skip(start as int).skip(1) =~= line@.skip(start as int + 1));
        start = start + 1;
    }
    let result = copy_range(line, start, line.len());
    assert(result@ =~= line@.skip(start as int));
    result
}

fn add_patterns(s: &[char], from: usize, found: &mut Vec<String>)
    requires
        from <= s@.len(),
    ensures
        text_views(final(found)@) == patterns_from(
            s@,
            from as int,
            text_views(old(found)@),
            seq![],
        ),
{
    let ghost goal = patterns_from(s@, from as int, text_views(found@), seq![]);
    let mut word: Vec<char> = Vec::new();
    assert(word@ =~= seq![]);
    let mut at: usize = from;
    while at < s.len()
        invariant
            at <= s@.len(),
            goal == patterns_from(s@, from as int, text_views(old(found)@), seq![]),
            goal == patterns_from(s@, at as int, text_views(found@), word@),
        decreases s@.len() - at,
    {
        let c: char = s[at];
        if c == ' ' || c == '\t' || c == ',' {
            if word.len() > 0 {
                let ghost before = text_views(found@);
                found.push(string_of(&word));
                assert(text_views(found@) =~= before.push(word@));
            }
            word = Vec::new();
            assert(word@ =~= seq![]);
        } else {
            word.push(c);
        }
        at = at + 1;
    }
    if word.len() > 0 {
        let ghost before = text_views(found@);
        found.push(string_of(&word));
        assert(text_views(found@) =~= before.push(word@));
    }
}

fn read_chips(lines: &Vec<Vec<char>>) -> (chips: Vec<String>)
    ensures
        text_views(chips@) == chips_in(header_of(char_views(lines@))),
{
    let count: usize = if lines.len() > HEADER_LINES {
        HEADER_LINES
    } else {
        lines.len()
    };
    let ghost views = char_views(lines@);
    let mut chips: Vec<String> = Vec::new();
    let tag = chars_of("@Chip:");
    let mut i: usize = 0;
    assert(text_views(chips@) =~= seq![]);
    while i < count
        invariant
            i <= count <= lines@.len(),
            views == char_views(lines@),
            tag@ == "@Chip:"@,
            text_views(chips@) == chips_in(views.take(i as int)),
        decreases count - i,
    {
        assert(views.take(i as int + 1).drop_last() =~= views.take(i as int));
        assert(views[i as int] == lines@[i as int]@);
        let text = skip_comment(&lines[i]);
        if starts_with(&text, &tag) {
            add_patterns(&text, tag.len(), &mut chips);
        }
        i = i + 1;
    }
    assert(views.take(count as int) =~= header_of(views));
    chips
}

/// Reads the patterns and abilities of a script from its content; nothing where
/// it could not be read.
pub fn read_script(path: &str, source: Source, content: Option<&Vec<u8>>) -> (result: Option<
    Script,
>)
    ensures
        match content {
            Some(bytes) => result matches Some(script) && script@ == script_of(
                path@,
                source,
                utf8_replaced(bytes@),
            ),
            None => result is None,
        },
{
    match content {
        Some(bytes) => {
            let text = chars_of(&decode_utf8_lossy(bytes));
            let upper = to_uppercase(&text);
            Some(
                Script {
                    path: path.to_owned(),
                    source,
                    chips: read_chips(&text_lines(&text)),
                    prepare_only: contains(&upper, &chars_of("PREPAREONLY")),
                    accepts_cpu: contains(&upper, &chars_of("\"CPU=\"")),
                },
            )
        },
        None => None,
    }
}

/// Whether paths stand in order.
pub open spec fn in_order(paths: Seq<Seq<char>>) -> bool {
    forall|i: int, j: int|
        0 <= i < j < paths.len() ==> !precedes(#[trigger] paths[j], #[trigger] paths[i])
}

/// The paths of a list with given steps, in order.
pub open spec fn alike(paths: Seq<Seq<char>>, steps: Seq<ComponentView>) -> Seq<Seq<char>>
    decreases paths.len(),
{
    if paths.len() == 0 {
        seq![]
    } else if components_of(paths.last()) == steps {
        alike(paths.drop_last(), steps).push(paths.last())
    } else {
        alike(paths.drop_last(), steps)
    }
}

/// Whether a list holds the paths of another, sorted; paths that differ only in how
/// they are written keep their order.
pub open spec fn is_sorted(sorted: Seq<Seq<char>>, paths: Seq<Seq<char>>) -> bool {
    &&& in_order(sorted)
    &&& sorted.to_multiset() == paths.to_multiset()
    &&& forall|steps: Seq<ComponentView>| #[trigger] alike(sorted, steps) == alike(paths, steps)
}

proof fn lemma_alike_insert(paths: Seq<Seq<char>>, at: int, path: Seq<char>, steps: Seq<ComponentView>)
    requires
        0 <= at <= paths.len(),
        forall|j: int|
            at <= j < paths.len() ==> components_of(#[trigger] paths[j]) != components_of(path),
    ensures
        alike(paths.insert(at, path), steps) == (if components_of(path) == steps {
            alike(paths, steps).push(path)
        } else {
            alike(paths, steps)
        }),
    decreases paths.len(),
{
    let after = paths.insert(at, path);
    if at == paths.len() {
        assert(after.drop_last() =~= paths);
    } else {
        let rest = paths.drop_last();
        assert(after.drop_last() =~= rest.insert(at, path));
        assert(after.last() == paths.last());
        assert(components_of(paths[paths.len() - 1]) != components_of(path));
        assert forall|j: int| at <= j < rest.len() implies components_of(#[trigger] rest[j])
            != components_of(path) by {
            assert(rest[j] == paths[j]);
        }
        lemma_alike_insert(rest, at, path, steps);
    }
}

proof fn lemma_precedes_differs(a: Seq<char>, b: Seq<char>)
    requires
        precedes(a, b),
    ensures
        components_of(a) != components_of(b),
{
    lemma_steps_one_way(components_of(a), components_of(b), 0);
}

fn insert_in_order(paths: &mut Vec<String>, path: String)
    requires
        in_order(text_views(old(paths)@)),
    ensures
        in_order(text_views(final(paths)@)),
        text_views(final(paths)@).to_multiset() == text_views(old(paths)@).to_multiset().insert(
            path@,
        ),
        forall|steps: Seq<ComponentView>| #[trigger]
            alike(text_views(final(paths)@), steps) == (if components_of(path@) == steps {
                alike(text_views(old(paths)@), steps).push(path@)
            } else {
                alike(text_views(old(paths)@), steps)
            }),
{
    let ghost before = text_views(paths@);
    let steps = components(&path);
    let mut at: usize = paths.len();
    while at > 0 && steps_before(&steps, &components(&paths[at - 1]))
        invariant
            at <= paths@.len(),
            paths@ == old(paths)@,
            before == text_views(paths@),
            component_views(steps@) == components_of(path@),
            forall|j: int| at <= j < before.len() ==> precedes(path@, #[trigger] before[j]),
        decreases at,
    {
        assert(before[at - 1] == paths@[at - 1]@);
        at = at - 1;
    }
    paths.insert(at, path);
    proof {
        let after = text_views(paths@);
        assert(after =~= before.insert(at as int, path@));
        assert(at > 0 ==> before[at - 1] == old(paths)@[at - 1]@);
        assert forall|i: int, j: int| 0 <= i < j < after.len() implies !precedes(
            #[trigger] after[j],
            #[trigger] after[i],
        ) by {
            if j < at {
                assert(after[i] == before[i] && after[j] == before[j]);
            } else if j == at {
                assert(after[i] == before[i]);
                if i < at - 1 {
                    lemma_steps_order(
                        components_of(before[i]),
                        components_of(before[at - 1]),
                        components_of(path@),
                        0,
                    );
                }
            } else if i < at {
                assert(after[i] == before[i] && after[j] == before[j - 1]);
            } else if i == at {
                assert(after[j] == before[j - 1]);
                lemma_steps_one_way(components_of(path@), components_of(before[j - 1]), 0);
            } else {
                assert(after[i] == before[i - 1] && after[j] == before[j - 1]);
            }
        }
        assert forall|j: int| at <= j < before.len() implies components_of(#[trigger] before[j])
            != components_of(path@) by {
            lemma_precedes_differs(path@, before[j]);
        }
        assert forall|steps: Seq<ComponentView>| #[trigger] alike(after, steps) == (
        if components_of(path@) == steps {
            alike(before, steps).push(path@)
        } else {
            alike(before, steps)
        }) by {
            lemma_alike_insert(before, at as int, path@, steps);
        }
        before.to_multiset_ensures();
        lemma_multiset_insert(before, at as int, path@);
    }
}

proof fn lemma_sorted_more(
    before: Seq<Seq<char>>,
    after: Seq<Seq<char>>,
    list: Seq<Seq<char>>,
    path: Seq<char>,
)
    requires
        is_sorted(before, list),
        in_order(after),
        after.to_multiset() == before.to_multiset().insert(path),
        forall|steps: Seq<ComponentView>| #[trigger]
            alike(after, steps) == (if components_of(path) == steps {
                alike(before, steps).push(path)
            } else {
                alike(before, steps)
            }),
    ensures
        is_sorted(after, list.push(path)),
{
    list.to_multiset_ensures();
    assert(list.push(path).drop_last() =~= list);
    assert forall|steps: Seq<ComponentView>| #[trigger] alike(after, steps) == alike(
        list.push(path),
        steps,
    ) by {
        assert(alike(before, steps) == alike(list, steps));
    }
}

proof fn lemma_multiset_insert(s: Seq<Seq<char>>, at: int, x: Seq<char>)
    requires
        0 <= at <= s.len(),
    ensures
        s.insert(at, x).to_multiset() == s.to_multiset().insert(x),
{
    let head = s.take(at);
    let tail = s.skip(at);
    assert(s =~= head + tail);
    assert(s.insert(at, x) =~= (head + seq![x]) + tail);
    vstd::seq_lib::lemma_multiset_commutative(head, tail);
    vstd::seq_lib::lemma_multiset_commutative(head + seq![x], tail);
    vstd::seq_lib::lemma_multiset_commutative(head, seq![x]);
    assert(Seq::<Seq<char>>::empty().push(x) =~= seq![x]);
    Seq::<Seq<char>>::empty().to_multiset_ensures();
    assert(seq![x].to_multiset() =~= vstd::multiset::Multiset::empty().insert(x));
    assert(s.insert(at, x).to_multiset() =~= s.to_multiset().insert(x));
}

/// Whether a path is that of a PRACTICE script.
pub open spec fn is_cmm(path: Seq<char>) -> bool {
    file_name_of(path) matches Some(name) && (extension_of(name) matches Some(text) && uppercase(
        text,
    ) == "CMM"@)
}

/// The scripts among the entries of a directory.
pub open spec fn cmm_among(entries: Seq<Seq<char>>) -> Seq<Seq<char>>
    decreases entries.len(),
{
    if entries.len() == 0 {
        seq![]
    } else if is_cmm(entries.last()) {
        cmm_among(entries.drop_last()).push(entries.last())
    } else {
        cmm_among(entries.drop_last())
    }
}

fn has_cmm_extension(path: &str) -> (result: bool)
    ensures
        result == is_cmm(path@),
{
    match file_name(path) {
        Some(name) => match extension(&name) {
            Some(text) => same(&string_of(&to_uppercase(&chars_of(&text))), "CMM"),
            None => false,
        },
        None => false,
    }
}

/// The scripts among the entries of a directory, in order.
pub fn cmm_files(entries: &Vec<String>) -> (files: Vec<String>)
    ensures
        is_sorted(text_views(files@), cmm_among(text_views(entries@))),
{
    let ghost views = text_views(entries@);
    let mut files: Vec<String> = Vec::new();
    let mut i: usize = 0;
    assert(text_views(files@) =~= seq![]);
    while i < entries.len()
        invariant
            i <= entries@.len(),
            views == text_views(entries@),
            is_sorted(text_views(files@), cmm_among(views.take(i as int))),
        decreases entries@.len() - i,
    {
        assert(views.take(i as int + 1).drop_last() =~= views.take(i as int));
        assert(views[i as int] == entries@[i as int]@);
        if has_cmm_extension(&entries[i]) {
            let ghost before = text_views(files@);
            insert_in_order(&mut files, entries[i].clone());
            proof {
                lemma_sorted_more(
                    before,
                    text_views(files@),
                    cmm_among(views.take(i as int)),
                    views[i as int],
                );
            }
        }
        i = i + 1;
    }
    assert(views.take(i as int) =~= views);
    files
}

/// Directories in order.
pub fn sort_paths(paths: &Vec<String>) -> (sorted: Vec<String>)
    ensures
        is_sorted(text_views(sorted@), text_views(paths@)),
{
    let ghost views = text_views(paths@);
    let mut sorted: Vec<String> = Vec::new();
    let mut i: usize = 0;
    assert(text_views(sorted@) =~= views.take(0));
    while i < paths.len()
        invariant
            i <= paths@.len(),
            views == text_views(paths@),
            is_sorted(text_views(sorted@), views.take(i as int)),
        decreases paths@.len() - i,
    {
        assert(views.take(i as int + 1) =~= views.take(i as int).push(views[i as int]));
        assert(views[i as int] == paths@[i as int]@);
        let ghost before = text_views(sorted@);
        insert_in_order(&mut sorted, paths[i].clone());
        proof {
            lemma_sorted_more(
                before,
                text_views(sorted@),
                views.take(i as int),
                views[i as int],
            );
        }
        i = i + 1;
    }
    assert(views.take(i as int) =~= views);
    sorted
}

/// A script file as it was found and read.
#[derive(Debug)]
pub struct ScriptFile {
    pub path: String,
    pub source: Source,
    pub content: Option<Vec<u8>>,
}

/// The scripts in files; those that could not be read are left out.
pub open spec fn scripts_in(files: Seq<ScriptFile>) -> Seq<ScriptView>
    decreases files.len(),
{
    if files.len() == 0 {
        seq![]
    } else {
        let before = scripts_in(files.drop_last());
        match files.last().content {
            Some(bytes) => before.push(
                script_of(files.last().path@, files.last().source, utf8_replaced(bytes@)),
            ),
            None => before,
        }
    }
}

/// The scripts in files; those that could not be read are left out.
pub fn catalog(files: &Vec<ScriptFile>) -> (scripts: Vec<Script>)
    ensures
        script_views(scripts@) == scripts_in(files@),
{
    let mut scripts: Vec<Script> = Vec::new();
    let mut i: usize = 0;
    assert(script_views(scripts@) =~= seq![]);
    while i < files.len()
        invariant
            i <= files@.len(),
            script_views(scripts@) == scripts_in(files@.take(i as int)),
        decreases files@.len() - i,
    {
        assert(files@.take(i as int + 1).drop_last() =~= files@.take(i as int));
        let file = &files[i];
        match read_script(&file.path, file.source, file.content.as_ref()) {
            Some(script) => {
                let ghost before = script_views(scripts@);
                scripts.push(script);
                assert(script_views(scripts@) =~= before.push(script@));
            },
            None => {},
        }
        i = i + 1;
    }
    assert(files@.take(i as int) =~= files@);
    scripts
}

/// The chip that a script is chosen by: that of the flash settings, else that of
/// the target.
pub open spec fn chip_of(config: ConfigView) -> Option<Seq<char>> {
    if config.flash_chip.len() > 0 {
        Some(config.flash_chip)
    } else if config.cpu.len() > 0 {
        Some(config.cpu)
    } else {
        None
    }
}

/// The chip that a script is chosen by.
pub fn chip_name(config: &Config) -> (result: Option<&str>)
    ensures
        match result {
            Some(name) => chip_of(config@) == Some(name@),
            None => chip_of(config@) is None,
        },
{
    if !config.flash_chip.as_str().is_empty() {
        Some(config.flash_chip.as_str())
    } else if !config.cpu.as_str().is_empty() {
        Some(config.cpu.as_str())
    } else {
        None
    }
}

/// The script to flash with: the one that is named, else the one that is chosen
/// by chip among the scripts that were found.
pub open spec fn choice_for(
    config: ConfigView,
    env: Vars,
    scripts: Seq<ScriptView>,
    world: Known,
) -> Found<Result<ChoiceView, Seq<char>>> {
    if config.flash_script.len() > 0 {
        match script_path(config, world) {
            Found::Found(path) => Found::Found(Ok(ChoiceView::Explicit(path))),
            Found::Ask(question) => Found::Ask(question),
        }
    } else {
        match chip_of(config) {
            None => Found::Found(
                Err(
                    "no flash script: set flash.chip (or target.cpu) or flash.script in trace32.toml; use load for RAM images"@,
                ),
            ),
            Some(chip) => match chosen(chip, scripts) {
                Ok((pattern, script)) => if is_command_safe(script.path) {
                    Found::Found(Ok(ChoiceView::Chip { chip, pattern, script }))
                } else {
                    Found::Found(
                        Err("flash script path is unsafe for TRACE32 commands: "@ + script.path),
                    )
                },
                Err(error) => match library_of(env, world) {
                    Found::Ask(question) => Found::Ask(question),
                    Found::Found(library) => Found::Found(
                        Err(
                            error + "; put a script with '; @Chip: "@ + chip
                                + "' in its header into "@ + library
                                + " or set flash.script (see 'tracebridge chips "@ + chip + "')"@,
                        ),
                    ),
                },
            },
        }
    }
}

/// Resolves the script to flash with.
pub fn resolve(config: &Config, env: &Env, scripts: &[Script], world: &World) -> (result: Lookup<
    Result<Choice, BridgeError>,
>)
    ensures
        match result {
            Lookup::Found(Ok(choice)) => choice_for(
                config@,
                env@,
                script_views(scripts@),
                world@,
            ) == Found::Found(Ok::<_, Seq<char>>(choice@)),
            Lookup::Found(Err(error)) => choice_for(
                config@,
                env@,
                script_views(scripts@),
                world@,
            ) == Found::Found(Err::<ChoiceView, _>(error@)),
            Lookup::Ask(question) => choice_for(config@, env@, script_views(scripts@), world@)
                == Found::<Result<ChoiceView, Seq<char>>>::Ask(question@),
        },
{
    if !config.flash_script.as_str().is_empty() {
        return match config.resolved_flash_script(world) {
            Lookup::Found(path) => Lookup::Found(Ok(Choice::Explicit(path))),
            Lookup::Ask(question) => Lookup::Ask(question),
        };
    }
    let chip = match chip_name(config) {
        Some(chip) => chip,
        None => {
            return Lookup::Found(
                Err(
                    BridgeError::new(
                        "no flash script: set flash.chip (or target.cpu) or flash.script in trace32.toml; use load for RAM images",
                    ),
                ),
            );
        },
    };
    match choose_script(chip, scripts) {
        Ok((pattern, script)) => {
            let path = chars_of(&script.path);
            if contains_char(&path, '"') || contains_char(&path, '\n') || contains_char(
                &path,
                '\r',
            ) {
                return Lookup::Found(
                    Err(
                        BridgeError(
                            concat2(
                                "flash script path is unsafe for TRACE32 commands: ",
                                &script.path,
                            ),
                        ),
                    ),
                );
            }
            Lookup::Found(Ok(Choice::Chip { chip: chip.to_owned(), pattern, script }))
        },
        Err(error) => match library_dir(env, world) {
            Lookup::Ask(question) => Lookup::Ask(question),
            Lookup::Found(library) => {
                let mut text = concat5(
                    &error,
                    "; put a script with '; @Chip: ",
                    chip,
                    "' in its header into ",
                    &library,
                );
                text.append(" or set flash.script (see 'tracebridge chips ");
                text.append(chip);
                text.append("')");
                Lookup::Found(Err(BridgeError(text)))
            },
        },
    }
}

/// Whether a script has to do with a query: a pattern matches it, or a pattern or
/// the name of the file contains it.
pub open spec fn is_related(script: ScriptView, query: Seq<char>) -> bool {
    ||| best_of(script.chips, query) is Some
    ||| exists|i: int|
        0 <= i < script.chips.len() && has_text(uppercase(#[trigger] script.chips[i]), uppercase(query))
    ||| path_stem(script.path) matches Some(stem) && has_text(uppercase(stem), uppercase(query))
}

/// The scripts that have to do with a query.
pub open spec fn related(scripts: Seq<ScriptView>, query: Seq<char>) -> Seq<ScriptView>
    decreases scripts.len(),
{
    if scripts.len() == 0 {
        seq![]
    } else if is_related(scripts.last(), query) {
        related(scripts.drop_last(), query).push(scripts.last())
    } else {
        related(scripts.drop_last(), query)
    }
}

fn relates(script: &Script, query: &str) -> (result: bool)
    ensures
        result == is_related(script@, query@),
{
    if best_pattern(script, query).is_some() {
        return true;
    }
    let upper = to_uppercase(&chars_of(query));
    let ghost views = script@.chips;
    let mut i: usize = 0;
    while i < script.chips.len()
        invariant
            i <= script.chips@.len(),
            views == text_views(script.chips@),
            views == script@.chips,
            upper@ == uppercase(query@),
            forall|j: int| 0 <= j < i ==> !has_text(uppercase(#[trigger] views[j]), upper@),
        decreases script.chips@.len() - i,
    {
        assert(views[i as int] == script.chips@[i as int]@);
        if contains(&to_uppercase(&chars_of(&script.chips[i])), &upper) {
            assert(has_text(uppercase(script@.chips[i as int]), uppercase(query@)));
            return true;
        }
        i = i + 1;
    }
    match find_stem(&script.path) {
        Some(stem) => contains(&to_uppercase(&chars_of(&stem)), &upper),
        None => false,
    }
}

/// The contents of references to scripts.
pub open spec fn reference_views(scripts: Seq<&Script>) -> Seq<ScriptView> {
    scripts.map_values(|script: &Script| script@)
}

/// The scripts that have to do with a query.
pub fn search<'a>(query: &str, scripts: &'a [Script]) -> (found: Vec<&'a Script>)
    ensures
        reference_views(found@) == related(script_views(scripts@), query@),
{
    let ghost views = script_views(scripts@);
    let mut found: Vec<&'a Script> = Vec::new();
    let mut i: usize = 0;
    assert(reference_views(found@) =~= seq![]);
    while i < scripts.len()
        invariant
            i <= scripts@.len(),
            views == script_views(scripts@),
            reference_views(found@) == related(views.take(i as int), query@),
        decreases scripts@.len() - i,
    {
        assert(views.take(i as int + 1).drop_last() =~= views.take(i as int));
        assert(views[i as int] == scripts@[i as int]@);
        if relates(&scripts[i], query) {
            let ghost before = reference_views(found@);
            found.push(&scripts[i]);
            assert(reference_views(found@) =~= before.push(scripts@[i as int]@));
        }
        i = i + 1;
    }
    assert(views.take(i as int) =~= views);
    found
}

proof fn lemma_all_literal(pattern: Seq<char>)
    requires
        literals(pattern) == pattern.len(),
    ensures
        forall|i: int| 0 <= i < pattern.len() ==> is_literal(#[trigger] pattern[i]),
    decreases pattern.len(),
{
    if pattern.len() > 0 {
        lemma_literals_bound(pattern.drop_last());
        lemma_all_literal(pattern.drop_last());
        assert forall|i: int| 0 <= i < pattern.len() implies is_literal(#[trigger] pattern[i]) by {
            if i < pattern.len() - 1 {
                assert(pattern[i] == pattern.drop_last()[i]);
            }
        }
    }
}

proof fn lemma_literals_bound(pattern: Seq<char>)
    ensures
        literals(pattern) <= pattern.len(),
    decreases pattern.len(),
{
    if pattern.len() > 0 {
        lemma_literals_bound(pattern.drop_last());
    }
}

proof fn lemma_literal_glob(pattern: Seq<char>, text: Seq<char>, p: int, t: int)
    requires
        0 <= p <= pattern.len(),
        0 <= t <= text.len(),
        forall|i: int| 0 <= i < pattern.len() ==> is_literal(#[trigger] pattern[i]),
    ensures
        globbed(pattern, text, p, t) <==> pattern.skip(p) == text.skip(t),
    decreases pattern.len() - p,
{
    if p == pattern.len() {
        assert(pattern.skip(p) =~= seq![]);
        if t == text.len() {
            assert(text.skip(t) =~= seq![]);
        } else {
            assert(text.skip(t).len() > 0);
        }
    } else {
        assert(is_literal(pattern[p]));
        if t < text.len() {
            lemma_literal_glob(pattern, text, p + 1, t + 1);
            let head = pattern.skip(p);
            let rest = text.skip(t);
            assert(head.skip(1) =~= pattern.skip(p + 1));
            assert(rest.skip(1) =~= text.skip(t + 1));
            assert(head =~= seq![pattern[p]] + pattern.skip(p + 1));
            assert(rest =~= seq![text[t]] + text.skip(t + 1));
            if head == rest {
                assert(head[0] == rest[0]);
            }
        } else {
            assert(pattern.skip(p).len() > 0);
            assert(text.skip(t).len() == 0);
        }
    }
}

/// A pattern without wildcards matches one name only, whatever the case of its
/// ASCII letters.
pub proof fn exact_patterns_match_one_name(pattern: Seq<char>, text: Seq<char>)
    requires
        literals(pattern) == pattern.len(),
    ensures
        matches_glob(pattern, text) <==> uppercase(pattern) == uppercase(text),
{
    let upper = uppercase(pattern);
    lemma_all_literal(pattern);
    assert forall|i: int| 0 <= i < upper.len() implies is_literal(#[trigger] upper[i]) by {
        assert(is_literal(pattern[i]));
    }
    lemma_literal_glob(upper, uppercase(text), 0, 0);
    assert(upper.skip(0) =~= upper);
    assert(uppercase(text).skip(0) =~= uppercase(text));
}

}
