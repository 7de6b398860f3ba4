//! What is known of the surroundings: environment variables, and the answers to
//! questions about the file system and the password database.
//!
//! A function that depends on the surroundings works on the answers gathered so
//! far and names the first question that it lacks an answer to. The caller finds
//! the answer out, adds it and calls again.

use vstd::prelude::*;

use crate::text::same;

verus! {

/// The environment variables of a process.
#[derive(Debug, Clone)]
pub struct Env {
    pub entries: Vec<(String, String)>,
}

/// The meaning of a list of assignments: the last one to a variable counts.
pub open spec fn assignments(entries: Seq<(String, String)>) -> Map<Seq<char>, Seq<char>>
    decreases entries.len(),
{
    if entries.len() == 0 {
        Map::empty()
    } else {
        assignments(entries.drop_last()).insert(entries.last().0@, entries.last().1@)
    }
}

impl View for Env {
    type V = Map<Seq<char>, Seq<char>>;

    open spec fn view(&self) -> Map<Seq<char>, Seq<char>> {
        assignments(self.entries@)
    }
}

/// The value of a variable, if it is set.
pub open spec fn variable(env: Map<Seq<char>, Seq<char>>, name: Seq<char>) -> Option<Seq<char>> {
    if env.contains_key(name) {
        Some(env[name])
    } else {
        None
    }
}

impl Env {
    /// No variable is set.
    pub fn new() -> (env: Env)
        ensures
            env@ == Map::<Seq<char>, Seq<char>>::empty(),
    {
        Env { entries: Vec::new() }
    }

    /// Sets a variable.
    pub fn insert(&mut self, name: &str, value: &str)
        ensures
            final(self)@ == old(self)@.insert(name@, value@),
    {
        let ghost before = self.entries@;
        self.entries.push((name.to_owned(), value.to_owned()));
        assert(self.entries@.drop_last() =~= before);
    }

    /// The value of a variable, if it is set.
    pub fn get(&self, name: &str) -> (value: Option<&str>)
        ensures
            match value {
                Some(text) => variable(self@, name@) == Some(text@),
                None => variable(self@, name@) is None,
            },
    {
        let mut i: usize = self.entries.len();
        assert(self.entries@.take(i as int) =~= self.entries@);
        while i > 0
            invariant
                i <= self.entries@.len(),
                variable(self@, name@) == variable(
                    assignments(self.entries@.take(i as int)),
                    name@,
                ),
            decreases i,
        {
            assert(self.entries@.take(i as int).drop_last() =~= self.entries@.take(i as int - 1));
            if same(self.entries[i - 1].0.as_str(), name) {
                return Some(self.entries[i - 1].1.as_str());
            }
            i = i - 1;
        }
        None
    }
}

/// A question about the surroundings.
#[derive(Debug, Clone, PartialEq, Eq)]
pub enum Question {
    /// Where does this symbolic link lead, if it is one?
    Link(String),
    /// Is this an existing directory?
    Directory(String),
    /// Is this an existing file?
    File(String),
    /// May this file be executed?
    Executable(String),
    /// What is the home directory of this user?
    Home(String),
    /// What is the home directory of the user that runs this process?
    OwnHome,
}

/// The content of a [`Question`].
pub ghost enum QuestionView {
    Link(Seq<char>),
    Directory(Seq<char>),
    File(Seq<char>),
    Executable(Seq<char>),
    Home(Seq<char>),
    OwnHome,
}

impl View for Question {
    type V = QuestionView;

    open spec fn view(&self) -> QuestionView {
        match *self {
            Question::Link(path) => QuestionView::Link(path@),
            Question::Directory(path) => QuestionView::Directory(path@),
            Question::File(path) => QuestionView::File(path@),
            Question::Executable(path) => QuestionView::Executable(path@),
            Question::Home(user) => QuestionView::Home(user@),
            Question::OwnHome => QuestionView::OwnHome,
        }
    }
}

/// What a computation on the surroundings comes to: a result, or the first
/// question that must be answered before it can go on.
#[derive(Debug, Clone, PartialEq, Eq)]
pub enum Lookup<T> {
    Found(T),
    Ask(Question),
}

/// The content of a [`Lookup`].
pub ghost enum Found<T> {
    Found(T),
    Ask(QuestionView),
}

/// The content of a lookup of a text.
pub open spec fn text_lookup(lookup: Lookup<String>) -> Found<Seq<char>> {
    match lookup {
        Lookup::Found(text) => Found::Found(text@),
        Lookup::Ask(question) => Found::Ask(question@),
    }
}

/// The answers gathered so far. The answer to a question about a path or a user
/// that has none is `None`; a yes is `Some` of anything.
#[derive(Debug, Clone)]
pub struct World {
    pub answers: Vec<(Question, Option<String>)>,
}

/// The meaning of a list of answers: the last one to a question counts.
pub open spec fn answered(entries: Seq<(Question, Option<String>)>) -> Map<
    QuestionView,
    Option<Seq<char>>,
>
    decreases entries.len(),
{
    if entries.len() == 0 {
        Map::empty()
    } else {
        answered(entries.drop_last()).insert(
            entries.last().0@,
            match entries.last().1 {
                Some(text) => Some(text@),
                None => None,
            },
        )
    }
}

impl View for World {
    type V = Map<QuestionView, Option<Seq<char>>>;

    open spec fn view(&self) -> Map<QuestionView, Option<Seq<char>>> {
        answered(self.answers@)
    }
}

/// The answer to a question, if it is known.
pub open spec fn ask(
    world: Map<QuestionView, Option<Seq<char>>>,
    question: QuestionView,
) -> Found<Option<Seq<char>>> {
    if world.contains_key(question) {
        Found::Found(world[question])
    } else {
        Found::Ask(question)
    }
}

/// Whether two questions are the same.
pub fn same_question(a: &Question, b: &Question) -> (result: bool)
    ensures
        result == (a@ == b@),
{
    match (a, b) {
        (Question::Link(x), Question::Link(y)) => same(x, y),
        (Question::Directory(x), Question::Directory(y)) => same(x, y),
        (Question::File(x), Question::File(y)) => same(x, y),
        (Question::Executable(x), Question::Executable(y)) => same(x, y),
        (Question::Home(x), Question::Home(y)) => same(x, y),
        (Question::OwnHome, Question::OwnHome) => true,
        _ => false,
    }
}

impl World {
    /// Nothing is known.
    pub fn new() -> (world: World)
        ensures
            world@ == Map::<QuestionView, Option<Seq<char>>>::empty(),
    {
        World { answers: Vec::new() }
    }

    /// Adds the answer to a question.
    pub fn learn(&mut self, question: Question, answer: Option<String>)
        ensures
            final(self)@ == old(self)@.insert(
                question@,
                match answer {
                    Some(text) => Some(text@),
                    None => None,
                },
            ),
    {
        let ghost before = self.answers@;
        self.answers.push((question, answer));
        assert(self.answers@.drop_last() =~= before);
    }

    /// The answer to a question, or the question itself.
    pub fn ask(&self, question: Question) -> (answer: Lookup<Option<&str>>)
        ensures
            match answer {
                Lookup::Found(Some(text)) => ask(self@, question@) == Found::Found(Some(text@)),
                Lookup::Found(None) => ask(self@, question@) == Found::Found(None::<Seq<char>>),
                Lookup::Ask(open) => open@ == question@ && ask(self@, question@) == Found::<
                    Option<Seq<char>>,
                >::Ask(question@),
            },
    {
        let mut i: usize = self.answers.len();
        assert(self.answers@.take(i as int) =~= self.answers@);
        while i > 0
            invariant
                i <= self.answers@.len(),
                ask(self@, question@) == ask(
                    answered(self.answers@.take(i as int)),
                    question@,
                ),
            decreases i,
        {
            assert(self.answers@.take(i as int).drop_last() =~= self.answers@.take(i as int - 1));
            if same_question(&self.answers[i - 1].0, &question) {
                return match &self.answers[i - 1].1 {
                    Some(text) => Lookup::Found(Some(text.as_str())),
                    None => Lookup::Found(None),
                };
            }
            i = i - 1;
        }
        Lookup::Ask(question)
    }
}

/// Whether a lookup stands when more becomes known: a result stays the same, and
/// a question is one that had no answer yet.
pub open spec fn stands<T>(
    before: Found<T>,
    world: Map<QuestionView, Option<Seq<char>>>,
    after: Found<T>,
) -> bool {
    match before {
        Found::Found(_) => after == before,
        Found::Ask(question) => !world.contains_key(question),
    }
}

}
