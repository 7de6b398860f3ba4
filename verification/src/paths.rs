//! Paths as text: their parts, their composition, and their resolution through
//! symbolic links.

use vstd::prelude::*;
use vstd::string::*;

use crate::text::{
    char_views, chars_of, copy_range, last_position, occurs_at, push_chars, rfind, split,
    split_from, split_text, string_of,
};
use crate::world::{ask, stands, Found, Lookup, Question, QuestionView, World};

verus! {

/// Whether a path starts at the root.
pub open spec fn is_absolute(path: Seq<char>) -> bool {
    path.len() > 0 && path[0] == '/'
}

/// Whether a piece between slashes says anything.
pub open spec fn is_part(piece: Seq<char>) -> bool {
    piece.len() > 0 && piece != seq!['.']
}

/// The pieces that say anything.
pub open spec fn meaningful(pieces: Seq<Seq<char>>) -> Seq<Seq<char>>
    decreases pieces.len(),
{
    if pieces.len() == 0 {
        seq![]
    } else if is_part(pieces.last()) {
        meaningful(pieces.drop_last()).push(pieces.last())
    } else {
        meaningful(pieces.drop_last())
    }
}

/// The names on a path; empty pieces and `.` do not count.
pub open spec fn parts(path: Seq<char>) -> Seq<Seq<char>> {
    meaningful(split_text(path, seq!['/']))
}

/// Whether a path starts at the root.
pub fn absolute(path: &[char]) -> (result: bool)
    ensures
        result == is_absolute(path@),
{
    path.len() > 0 && path[0] == '/'
}

fn is_dots(piece: &[char], count: usize) -> (result: bool)
    requires
        count <= 2,
    ensures
        result == (piece@ == Seq::new(count as nat, |i: int| '.')),
{
    let result = piece.len() == count && (count < 1 || piece[0] == '.') && (count < 2 || piece[1]
        == '.');
    proof {
        let dots = Seq::new(count as nat, |i: int| '.');
        if result {
            assert(piece@ =~= dots);
        } else if piece@ == dots {
            assert(count >= 1 ==> piece@[0] == dots[0]);
            assert(count >= 2 ==> piece@[1] == dots[1]);
        }
    }
    result
}

/// The names on a path.
pub fn path_parts(path: &[char]) -> (result: Vec<Vec<char>>)
    ensures
        char_views(result@) == parts(path@),
{
    let slash: [char; 1] = ['/'];
    assert(slash@ =~= seq!['/']);
    let pieces = split(path, &slash);
    let ghost views = char_views(pieces@);
    let mut result: Vec<Vec<char>> = Vec::new();
    let mut i: usize = 0;
    while i < pieces.len()
        invariant
            i <= pieces@.len(),
            views == char_views(pieces@),
            char_views(result@) == meaningful(views.take(i as int)),
        decreases pieces@.len() - i,
    {
        assert(views.take(i as int + 1).drop_last() =~= views.take(i as int));
        assert(views[i as int] == pieces@[i as int]@);
        assert(Seq::new(1, |i: int| '.') =~= seq!['.']);
        if pieces[i].len() > 0 && !is_dots(&pieces[i], 1) {
            let ghost before = char_views(result@);
            let piece = copy_range(&pieces[i], 0, pieces[i].len());
            assert(piece@ =~= pieces@[i as int]@);
            result.push(piece);
            assert(char_views(result@) =~= before.push(pieces@[i as int]@));
        }
        i = i + 1;
    }
    assert(views.take(i as int) =~= views);
    result
}

/// Names with a slash between them.
pub open spec fn slashed(names: Seq<Seq<char>>) -> Seq<char>
    decreases names.len(),
{
    if names.len() == 0 {
        seq![]
    } else if names.len() == 1 {
        names[0]
    } else {
        slashed(names.drop_last()) + seq!['/'] + names.last()
    }
}

/// The path through some names, from the root or from where one is.
pub open spec fn path_text(rooted: bool, names: Seq<Seq<char>>) -> Seq<char> {
    if rooted {
        seq!['/'] + slashed(names)
    } else {
        slashed(names)
    }
}

/// The path through some names, from the root or from where one is.
pub fn path_of(rooted: bool, names: &Vec<Vec<char>>) -> (result: Vec<char>)
    ensures
        result@ == path_text(rooted, char_views(names@)),
{
    let ghost views = char_views(names@);
    let mut result: Vec<char> = Vec::new();
    if rooted {
        result.push('/');
    }
    let mut i: usize = 0;
    assert(result@ =~= path_text(rooted, views.take(0)));
    while i < names.len()
        invariant
            i <= names@.len(),
            views == char_views(names@),
            result@ == path_text(rooted, views.take(i as int)),
        decreases names@.len() - i,
    {
        assert(views.take(i as int + 1).drop_last() =~= views.take(i as int));
        assert(views[i as int] == names@[i as int]@);
        if i > 0 {
            result.push('/');
        }
        push_chars(&mut result, &names[i]);
        i = i + 1;
        assert(result@ =~= path_text(rooted, views.take(i as int)));
    }
    assert(views.take(i as int) =~= views);
    result
}

/// A path seen from another: itself if it starts at the root, else behind the
/// other and a slash.
pub open spec fn joined(base: Seq<char>, path: Seq<char>) -> Seq<char> {
    if is_absolute(path) || base.len() == 0 {
        path
    } else if base.last() == '/' {
        base + path
    } else {
        base.push('/') + path
    }
}

/// A path seen from another.
pub fn join(base: &str, path: &str) -> (result: String)
    ensures
        result@ == joined(base@, path@),
{
    let tail = chars_of(path);
    let mut head = chars_of(base);
    if absolute(&tail) || head.len() == 0 {
        return path.to_owned();
    }
    if head[head.len() - 1] != '/' {
        head.push('/');
    }
    push_chars(&mut head, &tail);
    string_of(&head)
}

/// The last name on a path, unless that leads upwards.
pub open spec fn file_name_of(path: Seq<char>) -> Option<Seq<char>> {
    let names = parts(path);
    if names.len() == 0 || names.last() == seq!['.', '.'] {
        None
    } else {
        Some(names.last())
    }
}

/// The last name on a path, unless that leads upwards.
pub fn file_name(path: &str) -> (result: Option<String>)
    ensures
        match result {
            Some(name) => file_name_of(path@) == Some(name@),
            None => file_name_of(path@) is None,
        },
{
    let names = path_parts(&chars_of(path));
    assert(Seq::new(2, |i: int| '.') =~= seq!['.', '.']);
    if names.len() == 0 {
        return None;
    }
    let ghost views = char_views(names@);
    assert(views.last() == names@.last()@);
    if is_dots(&names[names.len() - 1], 2) {
        None
    } else {
        Some(string_of(&names[names.len() - 1]))
    }
}

/// The position of the dot before the extension of a name, or -1. A dot at the
/// beginning does not count.
pub open spec fn extension_dot(name: Seq<char>) -> int {
    let dot = last_position(name, '.');
    if dot == 0 {
        -1
    } else {
        dot
    }
}

/// The name of a file without its extension.
pub open spec fn stem_of(name: Seq<char>) -> Seq<char> {
    let dot = extension_dot(name);
    if dot < 0 {
        name
    } else {
        name.take(dot)
    }
}

/// The extension of the name of a file.
pub open spec fn extension_of(name: Seq<char>) -> Option<Seq<char>> {
    let dot = extension_dot(name);
    if dot < 0 {
        None
    } else {
        Some(name.skip(dot + 1))
    }
}

/// The name of a file without its extension.
pub fn file_stem(name: &str) -> (result: String)
    ensures
        result@ == stem_of(name@),
{
    let chars = chars_of(name);
    match rfind(&chars, '.') {
        Some(dot) => if dot == 0 {
            name.to_owned()
        } else {
            let stem = copy_range(&chars, 0, dot);
            assert(stem@ =~= name@.take(dot as int));
            string_of(&stem)
        },
        None => name.to_owned(),
    }
}

/// The extension of the name of a file.
pub fn extension(name: &str) -> (result: Option<String>)
    ensures
        match result {
            Some(text) => extension_of(name@) == Some(text@),
            None => extension_of(name@) is None,
        },
{
    let chars = chars_of(name);
    match rfind(&chars, '.') {
        Some(dot) => if dot == 0 {
            None
        } else {
            let length: usize = chars.len();
            let text = copy_range(&chars, dot + 1, length);
            assert(text@ =~= name@.skip(dot + 1));
            Some(string_of(&text))
        },
        None => None,
    }
}

/// Whether a path begins with the directory that one is in.
pub open spec fn starts_here(path: Seq<char>) -> bool {
    path.len() > 0 && path[0] == '.' && (path.len() == 1 || path[1] == '/')
}

fn begins_here(path: &[char]) -> (result: bool)
    ensures
        result == starts_here(path@),
{
    path.len() > 0 && path[0] == '.' && (path.len() == 1 || path[1] == '/')
}

/// Where the names on a path begin, behind the root or a leading dot.
pub open spec fn body_start(path: Seq<char>) -> int {
    if is_absolute(path) || starts_here(path) {
        1
    } else {
        0
    }
}

/// The end of the part of a path before the slashes and dots that say nothing at
/// its end.
pub open spec fn trimmed_end(path: Seq<char>, start: int, end: int) -> int
    decreases end,
{
    if end <= start || end <= 0 {
        end
    } else if path[end - 1] == '/' {
        trimmed_end(path, start, end - 1)
    } else if path[end - 1] == '.' && end - 1 == start {
        start
    } else if path[end - 1] == '.' && end >= 2 && path[end - 2] == '/' {
        trimmed_end(path, start, end - 2)
    } else {
        end
    }
}

/// Where the last name before an end begins.
pub open spec fn name_start(path: Seq<char>, start: int, end: int) -> int
    decreases end,
{
    if end <= start || end <= 0 || path[end - 1] == '/' {
        end
    } else {
        name_start(path, start, end - 1)
    }
}

/// The path without its last name, as it is written. The root has none.
pub open spec fn parent_of(path: Seq<char>) -> Option<Seq<char>> {
    let start = body_start(path);
    let end = trimmed_end(path, start, path.len() as int);
    if end > start {
        let name = name_start(path, start, end);
        let before = if name > start {
            name - 1
        } else {
            start
        };
        Some(path.take(trimmed_end(path, start, before)))
    } else if starts_here(path) {
        Some(seq![])
    } else {
        None
    }
}

proof fn lemma_trimmed_end(path: Seq<char>, start: int, end: int)
    requires
        0 <= start <= end <= path.len(),
    ensures
        start <= trimmed_end(path, start, end) <= end,
    decreases end,
{
    if end > start {
        if path[end - 1] == '/' {
            lemma_trimmed_end(path, start, end - 1);
        } else if path[end - 1] == '.' && end - 1 > start && path[end - 2] == '/' {
            lemma_trimmed_end(path, start, end - 2);
        }
    }
}

proof fn lemma_name_start(path: Seq<char>, start: int, end: int)
    requires
        0 <= start <= end <= path.len(),
    ensures
        start <= name_start(path, start, end) <= end,
    decreases end,
{
    if end > start && path[end - 1] != '/' {
        lemma_name_start(path, start, end - 1);
    }
}

/// A parent is shorter than the path.
pub proof fn lemma_parent_is_shorter(path: Seq<char>)
    ensures
        parent_of(path) matches Some(parent) ==> parent.len() < path.len(),
{
    let start = body_start(path);
    let end = trimmed_end(path, start, path.len() as int);
    lemma_trimmed_end(path, start, path.len() as int);
    if end > start {
        let name = name_start(path, start, end);
        lemma_name_start(path, start, end);
        let before = if name > start {
            name - 1
        } else {
            start
        };
        lemma_trimmed_end(path, start, before);
    }
}

fn trim_end_of(path: &[char], start: usize, end: usize) -> (result: usize)
    requires
        start <= end <= path@.len(),
    ensures
        result == trimmed_end(path@, start as int, end as int),
        start <= result <= end,
{
    let mut at: usize = end;
    loop
        invariant
            start <= at <= end <= path@.len(),
            trimmed_end(path@, start as int, end as int) == trimmed_end(
                path@,
                start as int,
                at as int,
            ),
        decreases at,
    {
        if at <= start {
            return at;
        }
        if path[at - 1] == '/' {
            at = at - 1;
        } else if path[at - 1] == '.' && at - 1 == start {
            return start;
        } else if path[at - 1] == '.' && path[at - 2] == '/' {
            at = at - 2;
        } else {
            return at;
        }
    }
}

/// The path without its last name, as it is written.
pub fn parent(path: &str) -> (result: Option<String>)
    ensures
        match result {
            Some(text) => parent_of(path@) == Some(text@),
            None => parent_of(path@) is None,
        },
{
    let chars = chars_of(path);
    let start: usize = if absolute(&chars) || begins_here(&chars) {
        1
    } else {
        0
    };
    let end: usize = trim_end_of(&chars, start, chars.len());
    if end > start {
        let mut name: usize = end;
        while name > start && chars[name - 1] != '/'
            invariant
                start <= name <= end <= chars@.len(),
                name_start(chars@, start as int, end as int) == name_start(
                    chars@,
                    start as int,
                    name as int,
                ),
            decreases name,
        {
            name = name - 1;
        }
        let before: usize = if name > start {
            name - 1
        } else {
            start
        };
        let cut: usize = trim_end_of(&chars, start, before);
        let text = copy_range(&chars, 0, cut);
        assert(text@ =~= chars@.take(cut as int));
        Some(string_of(&text))
    } else if begins_here(&chars) {
        let none = String::new();
        assert(none@ =~= seq![]);
        Some(none)
    } else {
        None
    }
}

/// One step of a path.
#[derive(Debug)]
pub enum Component {
    Root,
    Here,
    Up,
    Name(Vec<char>),
}

/// The content of a [`Component`].
pub ghost enum ComponentView {
    Root,
    Here,
    Up,
    Name(Seq<char>),
}

impl View for Component {
    type V = ComponentView;

    open spec fn view(&self) -> ComponentView {
        match *self {
            Component::Root => ComponentView::Root,
            Component::Here => ComponentView::Here,
            Component::Up => ComponentView::Up,
            Component::Name(name) => ComponentView::Name(name@),
        }
    }
}

/// The contents of components.
pub open spec fn component_views(list: Seq<Component>) -> Seq<ComponentView> {
    list.map_values(|c: Component| c@)
}

/// The step that a name on a path stands for.
pub open spec fn named_component(name: Seq<char>) -> ComponentView {
    if name == seq!['.', '.'] {
        ComponentView::Up
    } else {
        ComponentView::Name(name)
    }
}

/// The steps of a path. A leading dot counts as one; doubled slashes, and dots and
/// slashes that say nothing, do not.
pub open spec fn components_of(path: Seq<char>) -> Seq<ComponentView> {
    (if is_absolute(path) {
        seq![ComponentView::Root]
    } else if starts_here(path) {
        seq![ComponentView::Here]
    } else {
        seq![]
    }) + parts(path).map_values(|name: Seq<char>| named_component(name))
}

fn push_component(list: &mut Vec<Component>, component: Component)
    ensures
        component_views(final(list)@) == component_views(old(list)@).push(component@),
{
    let ghost before = component_views(list@);
    list.push(component);
    assert(component_views(list@) =~= before.push(component@));
}

/// The steps of a path.
pub fn components(path: &str) -> (result: Vec<Component>)
    ensures
        component_views(result@) == components_of(path@),
{
    let chars = chars_of(path);
    let names = path_parts(&chars);
    let ghost views = char_views(names@);
    let ghost steps = parts(path@).map_values(|name: Seq<char>| named_component(name));
    let mut result: Vec<Component> = Vec::new();
    assert(component_views(result@) =~= seq![]);
    if absolute(&chars) {
        push_component(&mut result, Component::Root);
    } else if begins_here(&chars) {
        push_component(&mut result, Component::Here);
    }
    let ghost head = component_views(result@);
    assert(head =~= if is_absolute(path@) {
        seq![ComponentView::Root]
    } else if starts_here(path@) {
        seq![ComponentView::Here]
    } else {
        seq![]
    });
    let mut i: usize = 0;
    assert(head + steps.take(0) =~= head);
    while i < names.len()
        invariant
            i <= names@.len(),
            views == char_views(names@),
            steps == views.map_values(|name: Seq<char>| named_component(name)),
            component_views(result@) == head + steps.take(i as int),
        decreases names@.len() - i,
    {
        assert(Seq::new(2, |i: int| '.') =~= seq!['.', '.']);
        assert(views[i as int] == names@[i as int]@);
        assert(head + steps.take(i as int + 1) =~= (head + steps.take(i as int)).push(
            steps[i as int],
        ));
        if is_dots(&names[i], 2) {
            push_component(&mut result, Component::Up);
        } else {
            let name = copy_range(&names[i], 0, names[i].len());
            assert(name@ =~= names@[i as int]@);
            push_component(&mut result, Component::Name(name));
        }
        i = i + 1;
    }
    assert(steps.take(i as int) =~= steps);
    result
}

/// Whether a text comes before another, from a position on, by the order of the
/// characters.
pub open spec fn text_precedes(a: Seq<char>, b: Seq<char>, at: int) -> bool
    decreases a.len() - at,
{
    if at < 0 || at >= b.len() {
        false
    } else if at >= a.len() {
        true
    } else if a[at] != b[at] {
        a[at] < b[at]
    } else {
        text_precedes(a, b, at + 1)
    }
}

/// The place of a kind of step in the order of steps.
pub open spec fn component_rank(component: ComponentView) -> int {
    match component {
        ComponentView::Root => 0,
        ComponentView::Here => 1,
        ComponentView::Up => 2,
        ComponentView::Name(_) => 3,
    }
}

/// Whether a step comes before another: by its kind, and names by their text.
pub open spec fn component_precedes(a: ComponentView, b: ComponentView) -> bool {
    match (a, b) {
        (ComponentView::Name(x), ComponentView::Name(y)) => text_precedes(x, y, 0),
        _ => component_rank(a) < component_rank(b),
    }
}

/// Whether steps come before others, from a position on, step by step.
pub open spec fn steps_precede(a: Seq<ComponentView>, b: Seq<ComponentView>, at: int) -> bool
    decreases a.len() - at,
{
    if at < 0 || at >= b.len() {
        false
    } else if at >= a.len() {
        true
    } else if a[at] != b[at] {
        component_precedes(a[at], b[at])
    } else {
        steps_precede(a, b, at + 1)
    }
}

/// Whether a path comes before another: step by step.
pub open spec fn precedes(a: Seq<char>, b: Seq<char>) -> bool {
    steps_precede(components_of(a), components_of(b), 0)
}

proof fn lemma_text_order(a: Seq<char>, b: Seq<char>, c: Seq<char>, at: int)
    requires
        0 <= at,
        !text_precedes(b, a, at),
        !text_precedes(c, b, at),
    ensures
        !text_precedes(c, a, at),
    decreases a.len() + b.len() + c.len() - 3 * at,
{
    if at < a.len() && at < b.len() && at < c.len() {
        if a[at] == b[at] && b[at] == c[at] {
            lemma_text_order(a, b, c, at + 1);
        }
    }
}

proof fn lemma_text_one_way(a: Seq<char>, b: Seq<char>, at: int)
    requires
        0 <= at,
        text_precedes(a, b, at),
    ensures
        !text_precedes(b, a, at),
    decreases a.len() - at,
{
    if at < a.len() && at < b.len() && a[at] == b[at] {
        lemma_text_one_way(a, b, at + 1);
    }
}

proof fn lemma_text_total(a: Seq<char>, b: Seq<char>, at: int)
    requires
        0 <= at <= a.len(),
        at <= b.len(),
        !text_precedes(a, b, at),
        !text_precedes(b, a, at),
    ensures
        a.skip(at) == b.skip(at),
    decreases a.len() - at,
{
    if at < a.len() && at < b.len() {
        assert(a[at] == b[at]);
        lemma_text_total(a, b, at + 1);
        assert(a.skip(at) =~= seq![a[at]] + a.skip(at + 1));
        assert(b.skip(at) =~= seq![b[at]] + b.skip(at + 1));
    } else {
        assert(a.skip(at) =~= b.skip(at));
    }
}

proof fn lemma_component_order(a: ComponentView, b: ComponentView, c: ComponentView)
    ensures
        !component_precedes(b, a) && !component_precedes(c, b) ==> !component_precedes(c, a),
        component_precedes(a, b) ==> !component_precedes(b, a),
        a == b || component_precedes(a, b) || component_precedes(b, a),
{
    if let (ComponentView::Name(x), ComponentView::Name(y)) = (a, b) {
        if text_precedes(x, y, 0) {
            lemma_text_one_way(x, y, 0);
        } else if !text_precedes(y, x, 0) {
            lemma_text_total(x, y, 0);
            assert(x.skip(0) =~= x);
            assert(y.skip(0) =~= y);
        }
        if let ComponentView::Name(z) = c {
            if !text_precedes(y, x, 0) && !text_precedes(z, y, 0) {
                lemma_text_order(x, y, z, 0);
            }
        }
    }
}

/// The order of steps: what does not come behind another does not come behind what
/// the other does not come behind.
pub proof fn lemma_steps_order(
    a: Seq<ComponentView>,
    b: Seq<ComponentView>,
    c: Seq<ComponentView>,
    at: int,
)
    requires
        0 <= at,
        !steps_precede(b, a, at),
        !steps_precede(c, b, at),
    ensures
        !steps_precede(c, a, at),
    decreases a.len() + b.len() + c.len() - 3 * at,
{
    if at < a.len() && at < b.len() && at < c.len() {
        lemma_component_order(a[at], b[at], c[at]);
        lemma_component_order(b[at], c[at], a[at]);
        lemma_component_order(c[at], a[at], b[at]);
        if a[at] == b[at] && b[at] == c[at] {
            lemma_steps_order(a, b, c, at + 1);
        }
    }
}

/// Of two lists of steps, at most one comes before the other.
pub proof fn lemma_steps_one_way(a: Seq<ComponentView>, b: Seq<ComponentView>, at: int)
    requires
        0 <= at,
        steps_precede(a, b, at),
    ensures
        !steps_precede(b, a, at),
    decreases a.len() - at,
{
    if at < a.len() && at < b.len() {
        lemma_component_order(a[at], b[at], a[at]);
        if a[at] == b[at] {
            lemma_steps_one_way(a, b, at + 1);
        }
    }
}

fn text_before(a: &[char], b: &[char]) -> (result: bool)
    ensures
        result == text_precedes(a@, b@, 0),
{
    let mut at: usize = 0;
    while at < a.len() && at < b.len()
        invariant
            at <= a@.len(),
            at <= b@.len(),
            text_precedes(a@, b@, 0) == text_precedes(a@, b@, at as int),
        decreases a@.len() - at,
    {
        let x: char = a[at];
        let y: char = b[at];
        if x != y {
            return x < y;
        }
        at = at + 1;
    }
    at < b.len()
}

fn rank(component: &Component) -> (result: u8)
    ensures
        result == component_rank(component@),
{
    match component {
        Component::Root => 0,
        Component::Here => 1,
        Component::Up => 2,
        Component::Name(_) => 3,
    }
}

fn component_before(a: &Component, b: &Component) -> (result: bool)
    ensures
        result == component_precedes(a@, b@),
{
    match (a, b) {
        (Component::Name(x), Component::Name(y)) => text_before(x, y),
        _ => rank(a) < rank(b),
    }
}

/// Whether steps come before others.
pub fn steps_before(a: &Vec<Component>, b: &Vec<Component>) -> (result: bool)
    ensures
        result == steps_precede(component_views(a@), component_views(b@), 0),
{
    let ghost x = component_views(a@);
    let ghost y = component_views(b@);
    let mut at: usize = 0;
    while at < a.len() && at < b.len()
        invariant
            at <= a@.len(),
            at <= b@.len(),
            x == component_views(a@),
            y == component_views(b@),
            steps_precede(x, y, 0) == steps_precede(x, y, at as int),
        decreases a@.len() - at,
    {
        proof {
            assert(x[at as int] == a@[at as int]@);
            assert(y[at as int] == b@[at as int]@);
            lemma_component_order(x[at as int], y[at as int], x[at as int]);
        }
        if component_before(&a[at], &b[at]) {
            return true;
        }
        if component_before(&b[at], &a[at]) {
            return false;
        }
        at = at + 1;
    }
    at < b.len()
}

/// Whether two texts name the same path, step by step.
pub fn same_path(a: &str, b: &str) -> (result: bool)
    ensures
        result == (components_of(a@) == components_of(b@)),
{
    let x = components(a);
    let y = components(b);
    let ghost left = component_views(x@);
    let ghost right = component_views(y@);
    if x.len() != y.len() {
        assert(left.len() != right.len());
        return false;
    }
    let mut i: usize = 0;
    while i < x.len()
        invariant
            i <= x@.len(),
            x@.len() == y@.len(),
            left == component_views(x@),
            left == components_of(a@),
            right == component_views(y@),
            right == components_of(b@),
            forall|j: int| 0 <= j < i ==> left[j] == right[j],
        decreases x@.len() - i,
    {
        proof {
            assert(left[i as int] == x@[i as int]@);
            assert(right[i as int] == y@[i as int]@);
            lemma_component_order(left[i as int], right[i as int], left[i as int]);
        }
        if component_before(&x[i], &y[i]) || component_before(&y[i], &x[i]) {
            assert(left[i as int] != right[i as int]);
            return false;
        }
        i = i + 1;
    }
    assert(left =~= right);
    true
}

/// How deep links may lead through links before they are left alone.
pub const MAX_LINKS: usize = 40;

/// A path taken apart: whether it starts at the root, and its names.
pub ghost struct Place {
    pub rooted: bool,
    pub names: Seq<Seq<char>>,
}

/// Follows names from a place: `..` leads up, and a name that is a symbolic link
/// leads to its target, which is followed in turn from the root or from where
/// the link stands.
pub open spec fn walked(
    place: Place,
    names: Seq<Seq<char>>,
    depth: nat,
    world: Map<QuestionView, Option<Seq<char>>>,
) -> Found<Place>
    decreases MAX_LINKS - depth, names.len(),
{
    if names.len() == 0 {
        Found::Found(place)
    } else if names[0] == seq!['.', '.'] {
        let up = if place.names.len() == 0 {
            place.names
        } else {
            place.names.drop_last()
        };
        walked(Place { names: up, ..place }, names.skip(1), depth, world)
    } else {
        let next = Place { names: place.names.push(names[0]), ..place };
        if depth >= MAX_LINKS {
            walked(next, names.skip(1), depth, world)
        } else {
            match ask(world, QuestionView::Link(path_text(next.rooted, next.names))) {
                Found::Ask(question) => Found::Ask(question),
                Found::Found(None) => walked(next, names.skip(1), depth, world),
                Found::Found(Some(target)) => {
                    let inner = if is_absolute(target) {
                        walked(Place { rooted: true, names: seq![] }, parts(target), depth + 1, world)
                    } else {
                        walked(
                            Place { rooted: place.rooted, names: seq![] },
                            place.names + parts(target),
                            depth + 1,
                            world,
                        )
                    };
                    match inner {
                        Found::Ask(question) => Found::Ask(question),
                        Found::Found(there) => walked(there, names.skip(1), depth, world),
                    }
                },
            }
        }
    }
}

/// A path made absolute against `base`, with its symbolic links followed and the
/// rest of it normalised, whether or not it exists.
pub open spec fn resolved(
    path: Seq<char>,
    base: Seq<char>,
    world: Map<QuestionView, Option<Seq<char>>>,
) -> Found<Seq<char>> {
    let whole = if is_absolute(path) {
        path
    } else {
        joined(base, path)
    };
    match walked(Place { rooted: is_absolute(whole), names: seq![] }, parts(whole), 0, world) {
        Found::Found(place) => Found::Found(path_text(place.rooted, place.names)),
        Found::Ask(question) => Found::Ask(question),
    }
}

/// A path taken apart.
#[derive(Debug)]
struct Walk {
    rooted: bool,
    names: Vec<Vec<char>>,
}

impl View for Walk {
    type V = Place;

    closed spec fn view(&self) -> Place {
        Place { rooted: self.rooted, names: char_views(self.names@) }
    }
}

fn copy_names(names: &Vec<Vec<char>>) -> (result: Vec<Vec<char>>)
    ensures
        char_views(result@) == char_views(names@),
{
    let mut result: Vec<Vec<char>> = Vec::new();
    let mut i: usize = 0;
    while i < names.len()
        invariant
            i <= names@.len(),
            char_views(result@) == char_views(names@).take(i as int),
        decreases names@.len() - i,
    {
        let name = copy_range(&names[i], 0, names[i].len());
        assert(name@ =~= names@[i as int]@);
        let ghost before = char_views(result@);
        result.push(name);
        assert(char_views(result@) =~= before.push(names@[i as int]@));
        i = i + 1;
        assert(char_views(result@) =~= char_views(names@).take(i as int));
    }
    assert(char_views(result@) =~= char_views(names@));
    result
}

fn walk(start: Walk, names: &Vec<Vec<char>>, depth: usize, world: &World) -> (result: Lookup<Walk>)
    requires
        depth <= MAX_LINKS,
    ensures
        match result {
            Lookup::Found(place) => walked(start@, char_views(names@), depth as nat, world@)
                == Found::Found(place@),
            Lookup::Ask(question) => walked(start@, char_views(names@), depth as nat, world@)
                == Found::<Place>::Ask(question@),
        },
    decreases MAX_LINKS - depth,
{
    let ghost all = char_views(names@);
    let mut place = start;
    let mut i: usize = 0;
    assert(all.skip(0) =~= all);
    assert(Seq::new(2, |i: int| '.') =~= seq!['.', '.']);
    while i < names.len()
        invariant
            i <= names@.len(),
            depth <= MAX_LINKS,
            all == char_views(names@),
            Seq::new(2, |i: int| '.') == seq!['.', '.'],
            walked(start@, all, depth as nat, world@) == walked(
                place@,
                all.skip(i as int),
                depth as nat,
                world@,
            ),
        decreases names@.len() - i,
    {
        assert(all.skip(i as int).skip(1) =~= all.skip(i as int + 1));
        assert(all.skip(i as int)[0] == names@[i as int]@);
        if is_dots(&names[i], 2) {
            if place.names.len() > 0 {
                let ghost before = char_views(place.names@);
                place.names.pop();
                assert(char_views(place.names@) =~= before.drop_last());
            }
        } else {
            let ghost outer = place@;
            let above = copy_names(&place.names);
            let name = copy_range(&names[i], 0, names[i].len());
            assert(name@ =~= names@[i as int]@);
            place.names.push(name);
            assert(place@.names =~= outer.names.push(names@[i as int]@));
            if depth < MAX_LINKS {
                let path = string_of(&path_of(place.rooted, &place.names));
                match world.ask(Question::Link(path)) {
                    Lookup::Ask(question) => {
                        return Lookup::Ask(question);
                    },
                    Lookup::Found(None) => {},
                    Lookup::Found(Some(target)) => {
                        let chars = chars_of(target);
                        let mut route = path_parts(&chars);
                        let rooted = absolute(&chars) || place.rooted;
                        if !absolute(&chars) {
                            let mut full = above;
                            let ghost head = char_views(full@);
                            let ghost tail = char_views(route@);
                            full.append(&mut route);
                            assert(char_views(full@) =~= head + tail);
                            route = full;
                        }
                        let from = Walk { rooted, names: Vec::new() };
                        assert(from@.names =~= seq![]);
                        match walk(from, &route, depth + 1, world) {
                            Lookup::Ask(question) => {
                                return Lookup::Ask(question);
                            },
                            Lookup::Found(there) => {
                                place = there;
                            },
                        }
                    },
                }
            }
        }
        i = i + 1;
    }
    Lookup::Found(place)
}

/// A path made absolute against `base`, with its symbolic links followed and the
/// rest of it normalised, whether or not it exists.
pub fn resolve(path: &str, base: &str, world: &World) -> (result: Lookup<String>)
    ensures
        crate::world::text_lookup(result) == resolved(path@, base@, world@),
{
    let chars = chars_of(path);
    let whole = if absolute(&chars) {
        chars
    } else {
        chars_of(&join(base, path))
    };
    let start = Walk { rooted: absolute(&whole), names: Vec::new() };
    assert(start@.names =~= seq![]);
    match walk(start, &path_parts(&whole), 0, world) {
        Lookup::Found(place) => Lookup::Found(string_of(&path_of(place.rooted, &place.names))),
        Lookup::Ask(question) => Lookup::Ask(question),
    }
}

proof fn lemma_walk_stands(
    place: Place,
    names: Seq<Seq<char>>,
    depth: nat,
    world: Map<QuestionView, Option<Seq<char>>>,
    more: Map<QuestionView, Option<Seq<char>>>,
)
    requires
        world.submap_of(more),
    ensures
        stands(walked(place, names, depth, world), world, walked(place, names, depth, more)),
    decreases MAX_LINKS - depth, names.len(),
{
    if names.len() > 0 {
        let up = if place.names.len() == 0 {
            place.names
        } else {
            place.names.drop_last()
        };
        let next = Place { names: place.names.push(names[0]), ..place };
        let question = QuestionView::Link(path_text(next.rooted, next.names));
        if names[0] == seq!['.', '.'] {
            lemma_walk_stands(Place { names: up, ..place }, names.skip(1), depth, world, more);
        } else if depth >= MAX_LINKS {
            lemma_walk_stands(next, names.skip(1), depth, world, more);
        } else if world.contains_key(question) {
            assert(more.contains_key(question) && more[question] == world[question]);
            match world[question] {
                None => {
                    lemma_walk_stands(next, names.skip(1), depth, world, more);
                },
                Some(target) => {
                    let start = Place {
                        rooted: is_absolute(target) || place.rooted,
                        names: seq![],
                    };
                    let way = if is_absolute(target) {
                        parts(target)
                    } else {
                        place.names + parts(target)
                    };
                    lemma_walk_stands(start, way, depth + 1, world, more);
                    if let Found::Found(there) = walked(start, way, depth + 1, world) {
                        lemma_walk_stands(there, names.skip(1), depth, world, more);
                    }
                },
            }
        }
    }
}

/// A path that was resolved stays the same when more becomes known, and only what
/// is not known is asked.
pub proof fn resolved_paths_stand(
    path: Seq<char>,
    base: Seq<char>,
    world: Map<QuestionView, Option<Seq<char>>>,
    more: Map<QuestionView, Option<Seq<char>>>,
)
    requires
        world.submap_of(more),
    ensures
        stands(resolved(path, base, world), world, resolved(path, base, more)),
{
    let whole = if is_absolute(path) {
        path
    } else {
        joined(base, path)
    };
    lemma_walk_stands(
        Place { rooted: is_absolute(whole), names: seq![] },
        parts(whole),
        0,
        world,
        more,
    );
}

/// Whether a text can stand between two slashes of a path and says anything.
pub open spec fn is_name(piece: Seq<char>) -> bool {
    is_part(piece) && !piece.contains('/')
}

/// Whether all of a list are names.
pub open spec fn are_names(names: Seq<Seq<char>>) -> bool {
    forall|i: int| 0 <= i < names.len() ==> is_name(#[trigger] names[i])
}

/// Whether all of a list are names, and none leads up.
pub open spec fn is_normal(names: Seq<Seq<char>>) -> bool {
    forall|i: int|
        0 <= i < names.len() ==> is_name(#[trigger] names[i]) && names[i] != seq!['.', '.']
}

proof fn lemma_pieces_without_slash(s: Seq<char>, start: int, at: int)
    requires
        0 <= start <= at <= s.len(),
        forall|i: int| start <= i < at ==> #[trigger] s[i] != '/',
    ensures
        forall|i: int|
            0 <= i < split_from(s, seq!['/'], start, at).len() ==> !(#[trigger] split_from(
                s,
                seq!['/'],
                start,
                at,
            )[i]).contains('/'),
    decreases s.len() - at,
{
    let pieces = split_from(s, seq!['/'], start, at);
    if at >= s.len() {
        let rest = s.subrange(start, s.len() as int);
        assert(pieces == seq![rest]);
        assert forall|i: int| 0 <= i < rest.len() implies #[trigger] rest[i] != '/' by {
            assert(rest[i] == s[start + i]);
        }
    } else {
        assert(s.subrange(at, at + 1) =~= seq![s[at]]);
        if s[at] == '/' {
            assert(occurs_at(s, seq!['/'], at));
            lemma_pieces_without_slash(s, at + 1, at + 1);
            let first = s.subrange(start, at);
            assert forall|i: int| 0 <= i < first.len() implies #[trigger] first[i] != '/' by {
                assert(first[i] == s[start + i]);
            }
            let rest = split_from(s, seq!['/'], at + 1, at + 1);
            assert forall|i: int| 0 <= i < pieces.len() implies !(#[trigger] pieces[i]).contains(
                '/',
            ) by {
                if i > 0 {
                    assert(pieces[i] == rest[i - 1]);
                }
            }
        } else {
            assert(s.subrange(at, at + 1)[0] != seq!['/'][0]);
            assert(!occurs_at(s, seq!['/'], at));
            lemma_pieces_without_slash(s, start, at + 1);
            assert(pieces == split_from(s, seq!['/'], start, at + 1));
        }
    }
}

proof fn lemma_meaningful_names(pieces: Seq<Seq<char>>)
    requires
        forall|i: int| 0 <= i < pieces.len() ==> !(#[trigger] pieces[i]).contains('/'),
    ensures
        are_names(meaningful(pieces)),
    decreases pieces.len(),
{
    if pieces.len() > 0 {
        let rest = pieces.drop_last();
        assert forall|i: int| 0 <= i < rest.len() implies !(#[trigger] rest[i]).contains('/') by {
            assert(rest[i] == pieces[i]);
        }
        lemma_meaningful_names(rest);
        assert(!pieces[pieces.len() - 1].contains('/'));
    }
}

/// The parts of a path are names.
pub proof fn lemma_parts_are_names(path: Seq<char>)
    ensures
        are_names(parts(path)),
{
    lemma_pieces_without_slash(path, 0, 0);
    lemma_meaningful_names(split_text(path, seq!['/']));
}

proof fn lemma_split_last(head: Seq<char>, tail: Seq<char>, start: int, at: int)
    requires
        0 <= start <= at <= head.len(),
        !tail.contains('/'),
    ensures
        split_from(head.push('/') + tail, seq!['/'], start, at) == split_from(
            head,
            seq!['/'],
            start,
            at,
        ).push(tail),
    decreases head.len() - at,
{
    let s = head.push('/') + tail;
    assert(s.subrange(at, at + 1) =~= seq![s[at]]);
    if at < head.len() {
        assert(head.subrange(at, at + 1) =~= seq![head[at]]);
        assert(s[at] == head[at]);
        if head[at] == '/' {
            lemma_split_last(head, tail, at + 1, at + 1);
            assert(s.subrange(start, at) =~= head.subrange(start, at));
            let rest = split_from(head, seq!['/'], at + 1, at + 1);
            assert(seq![s.subrange(start, at)] + rest.push(tail) =~= (seq![head.subrange(start, at)]
                + rest).push(tail));
        } else {
            assert(seq![s[at]][0] != seq!['/'][0]);
            lemma_split_last(head, tail, start, at + 1);
        }
    } else {
        assert(s[at] == '/');
        lemma_split_rest(s, at + 1, at + 1);
        assert(s.subrange(at + 1, s.len() as int) =~= tail);
        assert(s.subrange(start, at) =~= head.subrange(start, head.len() as int));
        assert(seq![s.subrange(start, at)] + seq![tail] =~= seq![
            head.subrange(start, head.len() as int),
        ].push(tail));
    }
}

proof fn lemma_split_rest(s: Seq<char>, start: int, at: int)
    requires
        0 <= start <= at <= s.len(),
        !s.subrange(start, s.len() as int).contains('/'),
    ensures
        split_from(s, seq!['/'], start, at) == seq![s.subrange(start, s.len() as int)],
    decreases s.len() - at,
{
    if at < s.len() {
        let rest = s.subrange(start, s.len() as int);
        assert(rest[at - start] == s[at]);
        assert(s.subrange(at, at + 1) =~= seq![s[at]]);
        assert(s.subrange(at, at + 1)[0] != seq!['/'][0]);
        lemma_split_rest(s, start, at + 1);
    }
}

/// The path through some names has these names as its parts.
pub proof fn lemma_parts_of_path_text(rooted: bool, names: Seq<Seq<char>>)
    requires
        are_names(names),
    ensures
        parts(path_text(rooted, names)) == names,
    decreases names.len(),
{
    let none = Seq::<char>::empty();
    let text = path_text(rooted, names);
    assert(split_text(none, seq!['/']) =~= seq![none]) by {
        assert(none.subrange(0, 0) =~= none);
    }
    assert(meaningful(seq![none]) =~= seq![]) by {
        assert(seq![none].drop_last() =~= seq![]);
        assert(!is_part(seq![none].last()));
        assert(meaningful(seq![]) =~= seq![]);
    }
    if names.len() == 0 {
        assert(names =~= seq![]);
        if rooted {
            assert(text =~= none.push('/') + none);
            lemma_split_last(none, none, 0, 0);
            let pieces = seq![none].push(none);
            assert(split_text(text, seq!['/']) == pieces);
            assert(pieces.drop_last() =~= seq![none]);
            assert(!is_part(pieces.last()));
            assert(meaningful(pieces) == meaningful(seq![none]));
        } else {
            assert(text =~= none);
        }
    } else {
        let rest = names.drop_last();
        let last = names.last();
        assert(is_name(names[names.len() - 1]));
        assert forall|i: int| 0 <= i < rest.len() implies is_name(#[trigger] rest[i]) by {
            assert(rest[i] == names[i]);
        }
        lemma_parts_of_path_text(rooted, rest);
        if !rooted && names.len() == 1 {
            assert(text == last);
            lemma_split_rest(text, 0, 0);
            assert(text.subrange(0, text.len() as int) =~= text);
            assert(split_text(text, seq!['/']) == seq![last]);
            assert(seq![last].drop_last() =~= seq![]);
            assert(meaningful(seq![]) =~= Seq::<Seq<char>>::empty());
            assert(meaningful(seq![last]) =~= seq![last]);
            assert(seq![last] =~= names);
        } else {
            let head = if names.len() == 1 {
                none
            } else {
                path_text(rooted, rest)
            };
            assert(text =~= head.push('/') + last);
            lemma_split_last(head, last, 0, 0);
            let pieces = split_text(head, seq!['/']);
            assert(pieces.push(last).drop_last() =~= pieces);
            if names.len() == 1 {
                assert(rest =~= seq![]);
            }
            assert(meaningful(pieces) =~= rest);
            assert(meaningful(pieces.push(last)) == rest.push(last));
            assert(rest.push(last) =~= names);
        }
    }
}

proof fn lemma_walk_is_normal(
    place: Place,
    names: Seq<Seq<char>>,
    depth: nat,
    world: Map<QuestionView, Option<Seq<char>>>,
)
    requires
        is_normal(place.names),
        are_names(names),
    ensures
        walked(place, names, depth, world) matches Found::Found(there) ==> is_normal(there.names)
            && (place.rooted ==> there.rooted),
    decreases MAX_LINKS - depth, names.len(),
{
    if names.len() > 0 {
        let rest = names.skip(1);
        assert forall|i: int| 0 <= i < rest.len() implies is_name(#[trigger] rest[i]) by {
            assert(rest[i] == names[i + 1]);
        }
        let up = if place.names.len() == 0 {
            place.names
        } else {
            place.names.drop_last()
        };
        let next = Place { names: place.names.push(names[0]), ..place };
        if names[0] == seq!['.', '.'] {
            assert forall|i: int| 0 <= i < up.len() implies is_name(#[trigger] up[i]) && up[i]
                != seq!['.', '.'] by {
                assert(up[i] == place.names[i]);
            }
            lemma_walk_is_normal(Place { names: up, ..place }, rest, depth, world);
        } else {
            assert(is_name(names[0]));
            assert forall|i: int| 0 <= i < next.names.len() implies is_name(
                #[trigger] next.names[i],
            ) && next.names[i] != seq!['.', '.'] by {
                if i < place.names.len() {
                    assert(next.names[i] == place.names[i]);
                }
            }
            lemma_walk_is_normal(next, rest, depth, world);
            let question = QuestionView::Link(path_text(next.rooted, next.names));
            if depth < MAX_LINKS && world.contains_key(question) {
                if let Some(target) = world[question] {
                    let start = Place {
                        rooted: is_absolute(target) || place.rooted,
                        names: seq![],
                    };
                    let way = if is_absolute(target) {
                        parts(target)
                    } else {
                        place.names + parts(target)
                    };
                    lemma_parts_are_names(target);
                    assert forall|i: int| 0 <= i < way.len() implies is_name(#[trigger] way[i]) by {
                        if !is_absolute(target) {
                            if i < place.names.len() {
                                assert(way[i] == place.names[i]);
                            } else {
                                assert(way[i] == parts(target)[i - place.names.len()]);
                            }
                        }
                    }
                    lemma_walk_is_normal(start, way, depth + 1, world);
                    if let Found::Found(there) = walked(start, way, depth + 1, world) {
                        lemma_walk_is_normal(there, rest, depth, world);
                    }
                }
            }
        }
    }
}

/// A resolved path is absolute where its base is, no name on it leads up, and its
/// text is that of its names.
pub proof fn resolved_paths_are_normal(
    path: Seq<char>,
    base: Seq<char>,
    world: Map<QuestionView, Option<Seq<char>>>,
)
    requires
        is_absolute(base),
    ensures
        resolved(path, base, world) matches Found::Found(text) ==> is_absolute(text) && is_normal(
            parts(text),
        ) && text == path_text(true, parts(text)),
{
    let whole = if is_absolute(path) {
        path
    } else {
        joined(base, path)
    };
    let start = Place { rooted: is_absolute(whole), names: seq![] };
    assert(is_absolute(whole));
    lemma_parts_are_names(whole);
    lemma_walk_is_normal(start, parts(whole), 0, world);
    if let Found::Found(there) = walked(start, parts(whole), 0, world) {
        assert(is_normal(there.names));
        assert(are_names(there.names));
        lemma_parts_of_path_text(true, there.names);
        assert(path_text(true, there.names)[0] == '/');
    }
}

/// Whether following names from a place comes by a known symbolic link.
pub open spec fn meets_link(
    place: Place,
    names: Seq<Seq<char>>,
    world: Map<QuestionView, Option<Seq<char>>>,
) -> bool
    decreases names.len(),
{
    if names.len() == 0 {
        false
    } else if names[0] == seq!['.', '.'] {
        let up = if place.names.len() == 0 {
            place.names
        } else {
            place.names.drop_last()
        };
        meets_link(Place { names: up, ..place }, names.skip(1), world)
    } else {
        let next = Place { names: place.names.push(names[0]), ..place };
        let question = QuestionView::Link(path_text(next.rooted, next.names));
        (world.contains_key(question) && world[question] is Some) || meets_link(
            next,
            names.skip(1),
            world,
        )
    }
}

/// Whether resolving a path comes by a known symbolic link.
pub open spec fn goes_through_link(
    path: Seq<char>,
    base: Seq<char>,
    world: Map<QuestionView, Option<Seq<char>>>,
) -> bool {
    let whole = if is_absolute(path) {
        path
    } else {
        joined(base, path)
    };
    meets_link(Place { rooted: is_absolute(whole), names: seq![] }, parts(whole), world)
}

/// Whether every place on the way to a place is known to be no symbolic link.
spec fn is_known(place: Place, world: Map<QuestionView, Option<Seq<char>>>) -> bool {
    forall|k: int|
        0 < k <= place.names.len() ==> ask(
            world,
            QuestionView::Link(path_text(place.rooted, #[trigger] place.names.take(k))),
        ) == Found::Found(None::<Seq<char>>)
}

proof fn lemma_walk_is_known(
    place: Place,
    names: Seq<Seq<char>>,
    world: Map<QuestionView, Option<Seq<char>>>,
)
    requires
        is_known(place, world),
        !meets_link(place, names, world),
    ensures
        walked(place, names, 0, world) matches Found::Found(there) ==> is_known(there, world),
    decreases names.len(),
{
    if names.len() > 0 {
        if names[0] == seq!['.', '.'] {
            let up = Place {
                names: if place.names.len() == 0 {
                    place.names
                } else {
                    place.names.drop_last()
                },
                ..place
            };
            assert forall|k: int| 0 < k <= up.names.len() implies ask(
                world,
                QuestionView::Link(path_text(up.rooted, #[trigger] up.names.take(k))),
            ) == Found::Found(None::<Seq<char>>) by {
                assert(up.names.take(k) =~= place.names.take(k));
            }
            lemma_walk_is_known(up, names.skip(1), world);
        } else {
            let next = Place { names: place.names.push(names[0]), ..place };
            let question = QuestionView::Link(path_text(next.rooted, next.names));
            if world.contains_key(question) {
                assert forall|k: int| 0 < k <= next.names.len() implies ask(
                    world,
                    QuestionView::Link(path_text(next.rooted, #[trigger] next.names.take(k))),
                ) == Found::Found(None::<Seq<char>>) by {
                    if k == next.names.len() {
                        assert(next.names.take(k) =~= next.names);
                    } else {
                        assert(next.names.take(k) =~= place.names.take(k));
                    }
                }
                lemma_walk_is_known(next, names.skip(1), world);
            }
        }
    }
}

proof fn lemma_known_walk(
    place: Place,
    count: int,
    world: Map<QuestionView, Option<Seq<char>>>,
)
    requires
        is_known(place, world),
        is_normal(place.names),
        0 <= count <= place.names.len(),
    ensures
        walked(
            Place { names: place.names.take(count), ..place },
            place.names.skip(count),
            0,
            world,
        ) == Found::Found(place),
    decreases place.names.len() - count,
{
    let names = place.names;
    if count == names.len() {
        assert(names.take(count) =~= names);
    } else {
        let rest = names.skip(count);
        assert(rest[0] == names[count]);
        assert(names[count] != seq!['.', '.']);
        assert(names.take(count).push(names[count]) =~= names.take(count + 1));
        assert(rest.skip(1) =~= names.skip(count + 1));
        lemma_known_walk(place, count + 1, world);
    }
}

/// Where no symbolic link is met, resolving a resolved path once more gives it
/// back, whatever the base.
pub proof fn resolving_again_changes_nothing(
    path: Seq<char>,
    base: Seq<char>,
    text: Seq<char>,
    other: Seq<char>,
    world: Map<QuestionView, Option<Seq<char>>>,
)
    requires
        is_absolute(base),
        resolved(path, base, world) == Found::Found(text),
        !goes_through_link(path, base, world),
    ensures
        resolved(text, other, world) == Found::Found(text),
        is_absolute(text),
        is_normal(parts(text)),
{
    resolved_paths_are_normal(path, base, world);
    let whole = if is_absolute(path) {
        path
    } else {
        joined(base, path)
    };
    let start = Place { rooted: true, names: seq![] };
    assert(is_absolute(whole));
    lemma_walk_is_known(start, parts(whole), world);
    let there = walked(start, parts(whole), 0, world)->Found_0;
    lemma_parts_are_names(whole);
    lemma_walk_is_normal(start, parts(whole), 0, world);
    assert(are_names(there.names));
    lemma_parts_of_path_text(true, there.names);
    lemma_known_walk(there, 0, world);
    assert(there.names.take(0) =~= seq![]);
    assert(there.names.skip(0) =~= there.names);
}

}
