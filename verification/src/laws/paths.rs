//! What paths, home directories and variables lead to.

use vstd::prelude::*;
use vstd::string::*;

use crate::flash::{cmm_among, is_cmm, library_of};
use crate::laws::header::strung;
use crate::laws::split::strung_words_are_split;
use crate::paths::{
    are_names, components_of, extension_of, file_name_of, is_absolute, is_name, is_normal, joined,
    lemma_parts_of_path_text, meaningful, parent_of, parts, path_text, precedes, resolved, slashed,
    stem_of, steps_precede, text_precedes, walked, ComponentView, Place,
};
use crate::pycompat::{name_end, path_expanded, reference_at, user_expanded, vars_expanded};
use crate::text::{first_from, last_position, lemma_first_at, lemma_last_position_tail, uppercase};
use crate::world::{Found, QuestionView};

verus! {

/// Whether a character can stand in the name of a variable: a letter, a digit or an
/// underscore.
pub open spec fn names_variable(c: char) -> bool {
    ('A' <= c && c <= 'Z') || ('a' <= c && c <= 'z') || ('0' <= c && c <= '9') || c == '_'
}

proof fn lemma_first_behind(s: Seq<char>, c: char, at: int, from: int)
    requires
        0 <= from <= at <= s.len(),
    ensures
        first_from(s, c, at) < 0 <==> first_from(s.skip(from), c, at - from) < 0,
        first_from(s, c, at) >= 0 ==> first_from(s, c, at) - from == first_from(
            s.skip(from),
            c,
            at - from,
        ) && at <= first_from(s, c, at) < s.len() && s[first_from(s, c, at)] == c,
    decreases s.len() - at,
{
    if at < s.len() {
        assert(s.skip(from)[at - from] == s[at]);
        if s[at] != c {
            lemma_first_behind(s, c, at + 1, from);
        }
    }
}

proof fn lemma_name_end_behind(s: Seq<char>, at: int, from: int)
    requires
        0 <= from <= at <= s.len(),
    ensures
        name_end(s, at) - from == name_end(s.skip(from), at - from),
        at <= name_end(s, at) <= s.len(),
    decreases s.len() - at,
{
    if at < s.len() {
        assert(s.skip(from)[at - from] == s[at]);
        lemma_name_end_behind(s, at + 1, from);
    }
}

proof fn lemma_vars_behind(s: Seq<char>, env: Map<Seq<char>, Seq<char>>, at: int, from: int)
    requires
        0 <= from <= at <= s.len(),
    ensures
        vars_expanded(s, env, at) == vars_expanded(s.skip(from), env, at - from),
    decreases s.len() - at,
{
    let t = s.skip(from);
    lemma_first_behind(s, '$', at, from);
    let dollar = first_from(s, '$', at);
    if dollar < 0 {
        assert(s.skip(at) =~= t.skip(at - from));
    } else {
        let next = dollar + 1;
        let (name, end) = reference_at(s, next);
        let (other, there) = reference_at(t, next - from);
        lemma_name_end_behind(s, next, from);
        if next < s.len() && s[next] == '{' {
            assert(t[next - from] == '{');
            lemma_first_behind(s, '}', next + 1, from);
            let brace = first_from(s, '}', next + 1);
            if brace >= 0 {
                assert(s.subrange(next + 1, brace) =~= t.subrange(
                    next + 1 - from,
                    brace - from,
                ));
            }
        } else {
            if next < s.len() {
                assert(t[next - from] == s[next]);
            }
            assert(s.subrange(next, name_end(s, next)) =~= t.subrange(
                next - from,
                name_end(s, next) - from,
            ));
        }
        assert(name == other);
        assert(end - from == there);
        lemma_vars_behind(s, env, next, from);
        if end > next {
            lemma_vars_behind(s, env, end, from);
        }
        assert(s.subrange(at, dollar) =~= t.subrange(at - from, dollar - from));
        assert(s.subrange(at, next) =~= t.subrange(at - from, next - from));
    }
}

/// A reference in braces is replaced by the value of its variable where there is one;
/// otherwise its dollar sign stays and the search goes on behind it. What stands
/// before it stays.
pub proof fn references_in_braces_are_replaced(
    env: Map<Seq<char>, Seq<char>>,
    a: Seq<char>,
    name: Seq<char>,
    b: Seq<char>,
)
    requires
        !a.contains('$'),
        !name.contains('}'),
    ensures
        ({
            let rest = seq!['{'] + name + seq!['}'] + b;
            vars_expanded(a.push('$') + rest, env, 0) == if env.contains_key(name) {
                a + env[name] + vars_expanded(b, env, 0)
            } else {
                a.push('$') + vars_expanded(rest, env, 0)
            }
        }),
{
    let rest = seq!['{'] + name + seq!['}'] + b;
    let s = a.push('$') + rest;
    let n = a.len() as int;
    assert forall|i: int| 0 <= i < n implies #[trigger] s[i] != '$' by {
        assert(s[i] == a[i]);
        assert(a.contains(a[i]));
    }
    assert(s[n] == '$');
    lemma_first_at(s, '$', 0, n);
    assert(s[n + 1] == '{');
    let brace = n + 2 + name.len();
    assert forall|i: int| n + 2 <= i < brace implies #[trigger] s[i] != '}' by {
        assert(s[i] == name[i - n - 2]);
        assert(name.contains(name[i - n - 2]));
    }
    assert(s[brace] == '}');
    lemma_first_at(s, '}', n + 2, brace);
    assert(s.subrange(n + 2, brace) =~= name);
    assert(s.subrange(0, n) =~= a);
    assert(s.subrange(0, n + 1) =~= a.push('$'));
    lemma_vars_behind(s, env, brace + 1, brace + 1);
    assert(s.skip(brace + 1) =~= b);
    lemma_vars_behind(s, env, n + 1, n + 1);
    assert(s.skip(n + 1) =~= rest);
}

proof fn lemma_name_end(s: Seq<char>, at: int, end: int)
    requires
        0 <= at <= end <= s.len(),
        forall|i: int| at <= i < end ==> names_variable(#[trigger] s[i]),
        end < s.len() ==> !names_variable(s[end]),
    ensures
        name_end(s, at) == end,
    decreases end - at,
{
    if at < end {
        assert(names_variable(s[at]));
        lemma_name_end(s, at + 1, end);
    }
}

/// A reference without braces reaches as far as letters, digits and underscores do; it
/// is replaced by the value of its variable where there is one, and otherwise its
/// dollar sign stays and the search goes on behind it.
pub proof fn plain_references_are_replaced(
    env: Map<Seq<char>, Seq<char>>,
    a: Seq<char>,
    name: Seq<char>,
    b: Seq<char>,
)
    requires
        !a.contains('$'),
        name.len() > 0,
        forall|i: int| 0 <= i < name.len() ==> names_variable(#[trigger] name[i]),
        b.len() > 0 ==> !names_variable(b[0]),
    ensures
        vars_expanded(a.push('$') + name + b, env, 0) == if env.contains_key(name) {
            a + env[name] + vars_expanded(b, env, 0)
        } else {
            a.push('$') + vars_expanded(name + b, env, 0)
        },
{
    let s = a.push('$') + name + b;
    let n = a.len() as int;
    assert forall|i: int| 0 <= i < n implies #[trigger] s[i] != '$' by {
        assert(s[i] == a[i]);
        assert(a.contains(a[i]));
    }
    assert(s[n] == '$');
    lemma_first_at(s, '$', 0, n);
    let end = n + 1 + name.len();
    assert(s[n + 1] == name[0]);
    assert(names_variable(name[0]));
    assert forall|i: int| n + 1 <= i < end implies names_variable(#[trigger] s[i]) by {
        assert(s[i] == name[i - n - 1]);
    }
    if b.len() > 0 {
        assert(s[end] == b[0]);
    }
    lemma_name_end(s, n + 1, end);
    assert(s.subrange(n + 1, end) =~= name);
    assert(s.subrange(0, n) =~= a);
    assert(s.subrange(0, n + 1) =~= a.push('$'));
    lemma_vars_behind(s, env, end, end);
    assert(s.skip(end) =~= b);
    lemma_vars_behind(s, env, n + 1, n + 1);
    assert(s.skip(n + 1) =~= name + b);
}

/// A dollar sign that begins no reference stays.
pub proof fn other_dollar_signs_stay(env: Map<Seq<char>, Seq<char>>, a: Seq<char>, b: Seq<char>)
    requires
        !a.contains('$'),
        b.len() > 0 ==> !names_variable(b[0]) && (b[0] == '{' ==> !b.contains('}')),
    ensures
        vars_expanded(a.push('$') + b, env, 0) == a.push('$') + vars_expanded(b, env, 0),
{
    let s = a.push('$') + b;
    let n = a.len() as int;
    assert forall|i: int| 0 <= i < n implies #[trigger] s[i] != '$' by {
        assert(s[i] == a[i]);
        assert(a.contains(a[i]));
    }
    assert(s[n] == '$');
    lemma_first_at(s, '$', 0, n);
    if b.len() > 0 {
        assert(s[n + 1] == b[0]);
        if b[0] == '{' {
            lemma_first_behind(s, '}', n + 2, n + 1);
            assert(s.skip(n + 1) =~= b);
            let brace = first_from(s, '}', n + 2);
            if brace >= 0 {
                assert(b[brace - n - 1] == '}');
                assert(b.contains('}'));
            }
        }
    }
    if b.len() == 0 || b[0] != '{' {
        lemma_name_end(s, n + 1, n + 1);
    }
    assert(s.subrange(0, n + 1) =~= a.push('$'));
    lemma_vars_behind(s, env, n + 1, n + 1);
    assert(s.skip(n + 1) =~= b);
}

/// The home directory that stands for the tilde and the name behind it: that of the
/// user with the name, or that of the variable `HOME`, else one's own.
pub open spec fn home_is(
    env: Map<Seq<char>, Seq<char>>,
    world: Map<QuestionView, Option<Seq<char>>>,
    user: Seq<char>,
    home: Option<Seq<char>>,
) -> bool {
    if user.len() > 0 {
        world.contains_key(QuestionView::Home(user)) && world[QuestionView::Home(user)] == home
    } else if env.contains_key("HOME"@) {
        home == Some(env["HOME"@])
    } else {
        world.contains_key(QuestionView::OwnHome) && world[QuestionView::OwnHome] == home
    }
}

/// A tilde at the beginning, with a user name or without, stands for a home
/// directory; where there is none it stays. Elsewhere a tilde is an ordinary
/// character.
pub proof fn tildes_stand_for_homes(
    env: Map<Seq<char>, Seq<char>>,
    world: Map<QuestionView, Option<Seq<char>>>,
    user: Seq<char>,
    rest: Seq<char>,
    home: Seq<char>,
    other: Seq<char>,
)
    requires
        !user.contains('/'),
        rest.len() > 0 ==> rest[0] == '/',
        home.len() > 0,
        home.last() != '/',
        other.len() > 0 ==> other[0] != '~',
    ensures
        home_is(env, world, user, Some(home)) ==> user_expanded(
            seq!['~'] + user + rest,
            env,
            world,
        ) == Found::Found(home + rest),
        home_is(env, world, user, None) ==> user_expanded(seq!['~'] + user + rest, env, world)
            == Found::Found(seq!['~'] + user + rest),
        user_expanded(other, env, world) == Found::Found(other),
{
    let value = seq!['~'] + user + rest;
    let end = 1 + user.len() as int;
    assert forall|i: int| 0 <= i < end implies #[trigger] value[i] != '/' by {
        if i > 0 {
            assert(value[i] == user[i - 1]);
            assert(user.contains(user[i - 1]));
        }
    }
    if rest.len() > 0 {
        assert(value[end] == '/');
        lemma_first_at(value, '/', 0, end);
    } else {
        lemma_nowhere(value, '/', 0);
    }
    assert(value.take(end) =~= seq!['~'] + user);
    assert((seq!['~'] + user).skip(1) =~= user);
    assert(value.skip(end) =~= rest);
    if user.len() == 0 {
        assert(seq!['~'] + user =~= seq!['~']);
    } else {
        assert((seq!['~'] + user).len() > 1);
    }
    assert(crate::text::trim_end_char(home, '/') == home);
}

proof fn lemma_nowhere(s: Seq<char>, c: char, at: int)
    requires
        0 <= at,
        forall|i: int| 0 <= i < s.len() ==> #[trigger] s[i] != c,
    ensures
        first_from(s, c, at) == -1,
    decreases s.len() - at,
{
    if at < s.len() {
        lemma_nowhere(s, c, at + 1);
    }
}

/// A path first has its tilde replaced, and then its references, also those that the
/// home directory brings in.
pub proof fn homes_come_before_variables(
    value: Seq<char>,
    env: Map<Seq<char>, Seq<char>>,
    world: Map<QuestionView, Option<Seq<char>>>,
    text: Seq<char>,
)
    requires
        user_expanded(value, env, world) == Found::Found(text),
    ensures
        path_expanded(value, env, world) == Found::Found(vars_expanded(text, env, 0)),
{
}

/// Whether it is known of every path that it is no symbolic link, but for some paths.
pub open spec fn only_link(
    world: Map<QuestionView, Option<Seq<char>>>,
    link: Seq<char>,
    target: Option<Seq<char>>,
) -> bool {
    forall|path: Seq<char>| #[trigger]
        world.contains_key(QuestionView::Link(path)) && world[QuestionView::Link(path)] == (
        if path == link {
            target
        } else {
            None
        })
}

proof fn lemma_walk(
    world: Map<QuestionView, Option<Seq<char>>>,
    link: Seq<char>,
    target: Option<Seq<char>>,
    rooted: bool,
    from: Seq<Seq<char>>,
    names: Seq<Seq<char>>,
    more: Seq<Seq<char>>,
    depth: nat,
)
    requires
        only_link(world, link, target),
        is_normal(names),
        target is Some ==> forall|k: int|
            0 < k <= names.len() ==> path_text(rooted, from + #[trigger] names.take(k)) != link,
    ensures
        walked(Place { rooted, names: from }, names + more, depth, world) == walked(
            Place { rooted, names: from + names },
            more,
            depth,
            world,
        ),
    decreases names.len(),
{
    if names.len() == 0 {
        assert(names + more =~= more);
        assert(from + names =~= from);
    } else {
        let all = names + more;
        let next = from.push(names[0]);
        let rest = names.skip(1);
        assert(all[0] == names[0]);
        assert(is_name(names[0]));
        assert(all.skip(1) =~= rest + more);
        assert(next + rest =~= from + names);
        assert(from + names.take(1) =~= next);
        assert(world.contains_key(QuestionView::Link(path_text(rooted, next))));
        assert forall|i: int| 0 <= i < rest.len() implies is_name(#[trigger] rest[i]) && rest[i]
            != seq!['.', '.'] by {
            assert(rest[i] == names[i + 1]);
        }
        if target is Some {
            assert forall|k: int| 0 < k <= rest.len() implies path_text(
                rooted,
                next + #[trigger] rest.take(k),
            ) != link by {
                assert(next + rest.take(k) =~= from + names.take(k + 1));
            }
        }
        lemma_walk(world, link, target, rooted, next, rest, more, depth);
    }
}

/// Without symbolic links a path that is not absolute leads on from the base.
pub proof fn relative_paths_lead_on(
    world: Map<QuestionView, Option<Seq<char>>>,
    base: Seq<Seq<char>>,
    names: Seq<Seq<char>>,
)
    requires
        only_link(world, seq![], None),
        is_normal(base),
        is_normal(names),
        base.len() > 0,
        names.len() > 0,
    ensures
        resolved(slashed(names), path_text(true, base), world) == Found::Found(
            path_text(true, base + names),
        ),
        resolved(path_text(true, names), path_text(true, base), world) == Found::Found(
            path_text(true, names),
        ),
{
    lemma_slashed_front(names);
    lemma_slashed_back(base);
    lemma_joined(base, names);
    let all = base + names;
    lemma_normal_both(base, names);
    lemma_parts_of_path_text(true, all);
    lemma_parts_of_path_text(true, names);
    lemma_walk(world, seq![], None, true, seq![], all, seq![], 0);
    assert(all + seq![] =~= all);
    assert(seq![] + all =~= all);
    lemma_walk(world, seq![], None, true, seq![], names, seq![], 0);
    assert(names + seq![] =~= names);
    assert(seq![] + names =~= names);
}

proof fn lemma_normal_both(a: Seq<Seq<char>>, b: Seq<Seq<char>>)
    requires
        is_normal(a),
        is_normal(b),
    ensures
        is_normal(a + b),
        are_names(a + b),
        are_names(a),
        are_names(b),
{
    assert forall|i: int| 0 <= i < (a + b).len() implies is_name(#[trigger] (a + b)[i]) && (a
        + b)[i] != seq!['.', '.'] by {
        if i < a.len() {
            assert((a + b)[i] == a[i]);
        } else {
            assert((a + b)[i] == b[i - a.len()]);
        }
    }
}

proof fn lemma_slashed_front(names: Seq<Seq<char>>)
    requires
        are_names(names),
        names.len() > 0,
    ensures
        slashed(names).len() > 0,
        slashed(names)[0] == names[0][0],
        names[0][0] != '/',
        !is_absolute(slashed(names)),
    decreases names.len(),
{
    assert(is_name(names[0]));
    assert(names[0].contains(names[0][0]));
    if names.len() > 1 {
        let rest = names.drop_last();
        assert forall|i: int| 0 <= i < rest.len() implies is_name(#[trigger] rest[i]) by {
            assert(rest[i] == names[i]);
        }
        lemma_slashed_front(rest);
        assert(slashed(names)[0] == slashed(rest)[0]);
    }
}

proof fn lemma_slashed_back(names: Seq<Seq<char>>)
    requires
        are_names(names),
        names.len() > 0,
    ensures
        slashed(names).len() > 0,
        slashed(names).last() != '/',
{
    let last = names.last();
    assert(is_name(names[names.len() - 1]));
    assert(last.contains(last[last.len() - 1]));
    if names.len() > 1 {
        assert(slashed(names).last() == last.last());
    }
}

proof fn lemma_slashed_both(a: Seq<Seq<char>>, b: Seq<Seq<char>>)
    requires
        a.len() > 0,
        b.len() > 0,
    ensures
        slashed(a + b) == slashed(a) + seq!['/'] + slashed(b),
    decreases b.len(),
{
    assert((a + b).drop_last() =~= a + b.drop_last());
    if b.len() == 1 {
        assert(a + b.drop_last() =~= a);
    } else {
        lemma_slashed_both(a, b.drop_last());
        assert(slashed(a + b) =~= slashed(a) + seq!['/'] + slashed(b));
    }
}

proof fn lemma_joined(base: Seq<Seq<char>>, names: Seq<Seq<char>>)
    requires
        are_names(base),
        are_names(names),
        base.len() > 0,
        names.len() > 0,
    ensures
        joined(path_text(true, base), slashed(names)) == path_text(true, base + names),
        joined(slashed(base), slashed(names)) == slashed(base + names),
{
    lemma_slashed_front(names);
    lemma_slashed_back(base);
    lemma_slashed_both(base, names);
    assert(path_text(true, base).last() == slashed(base).last());
    assert(path_text(true, base).push('/') + slashed(names) =~= path_text(true, base + names));
    assert(slashed(base).push('/') + slashed(names) =~= slashed(base + names));
}

/// A name and the step up behind it cancel each other, and a step up from the root
/// leads nowhere.
pub proof fn steps_up_undo_names(
    world: Map<QuestionView, Option<Seq<char>>>,
    base: Seq<char>,
    a: Seq<Seq<char>>,
    name: Seq<char>,
    b: Seq<Seq<char>>,
)
    requires
        only_link(world, seq![], None),
        is_normal(a.push(name)),
        is_normal(b),
    ensures
        resolved(path_text(true, a.push(name).push(seq!['.', '.']) + b), base, world)
            == Found::Found(path_text(true, a + b)),
        resolved(path_text(true, seq![seq!['.', '.']] + b), base, world) == Found::Found(
            path_text(true, b),
        ),
{
    let up = seq!['.', '.'];
    let named = a.push(name);
    let all = named.push(up) + b;
    assert forall|i: int| 0 <= i < a.len() implies is_name(#[trigger] a[i]) && a[i] != seq![
        '.',
        '.',
    ] by {
        assert(named[i] == a[i]);
    }
    assert(up.len() == 2 && up[0] == '.' && up[1] == '.');
    assert(!up.contains('/'));
    assert(is_name(up));
    lemma_normal_both(named, b);
    assert forall|i: int| 0 <= i < all.len() implies is_name(#[trigger] all[i]) by {
        if i < named.len() {
            assert(all[i] == named[i]);
        } else if i > named.len() {
            assert(all[i] == b[i - named.len() - 1]);
        }
    }
    lemma_parts_of_path_text(true, all);
    assert(all =~= named + (seq![up] + b));
    lemma_walk(world, seq![], None, true, seq![], named, seq![up] + b, 0);
    assert(seq![] + named =~= named);
    assert((seq![up] + b)[0] == up);
    assert((seq![up] + b).skip(1) =~= b);
    assert(named.drop_last() =~= a);
    lemma_walk(world, seq![], None, true, a, b, seq![], 0);
    assert(b + seq![] =~= b);
    let from_root = seq![up] + b;
    assert forall|i: int| 0 <= i < from_root.len() implies is_name(#[trigger] from_root[i]) by {
        if i > 0 {
            assert(from_root[i] == b[i - 1]);
        }
    }
    lemma_parts_of_path_text(true, from_root);
    lemma_walk(world, seq![], None, true, seq![], b, seq![], 0);
    assert(seq![] + b =~= b);
}

/// Where a link in a directory leads: to an absolute target from the root, to another
/// from the directory.
pub open spec fn end_of_link(
    directory: Seq<Seq<char>>,
    target: Seq<Seq<char>>,
    absolute: bool,
) -> Seq<Seq<char>> {
    if absolute {
        target
    } else {
        directory + target
    }
}

/// A symbolic link on a path is followed: to an absolute target from the root, to
/// another from the directory of the link; the names behind it lead on from there.
pub proof fn links_are_followed(
    world: Map<QuestionView, Option<Seq<char>>>,
    base: Seq<char>,
    a: Seq<Seq<char>>,
    name: Seq<char>,
    target: Seq<Seq<char>>,
    absolute: bool,
    b: Seq<Seq<char>>,
)
    requires
        is_normal(a.push(name)),
        is_normal(target),
        is_normal(b),
        target.len() > 0,
        only_link(
            world,
            path_text(true, a.push(name)),
            Some(
                if absolute {
                    path_text(true, target)
                } else {
                    slashed(target)
                },
            ),
        ),
        forall|k: int|
            0 < k <= (end_of_link(a, target, absolute) + b).len() ==> path_text(
                true,
                #[trigger] (end_of_link(a, target, absolute) + b).take(k),
            ) != path_text(true, a.push(name)),
    ensures
        resolved(path_text(true, a.push(name) + b), base, world) == Found::Found(
            path_text(true, end_of_link(a, target, absolute) + b),
        ),
{
    let named = a.push(name);
    let link = path_text(true, named);
    let text = if absolute {
        path_text(true, target)
    } else {
        slashed(target)
    };
    let there = end_of_link(a, target, absolute);
    assert forall|i: int| 0 <= i < a.len() implies is_name(#[trigger] a[i]) && a[i] != seq![
        '.',
        '.',
    ] by {
        assert(named[i] == a[i]);
    }
    assert(is_name(named[named.len() - 1]));
    lemma_normal_both(named, b);
    lemma_normal_both(a, target);
    lemma_normal_both(there, b);
    let all = named + b;
    lemma_parts_of_path_text(true, all);
    assert(all =~= a + (seq![name] + b));
    assert forall|k: int| 0 < k <= a.len() implies path_text(
        true,
        Seq::<Seq<char>>::empty() + #[trigger] a.take(k),
    ) != link by {
        let front = Seq::<Seq<char>>::empty() + a.take(k);
        assert(front =~= a.take(k));
        assert forall|i: int| 0 <= i < front.len() implies is_name(#[trigger] front[i]) by {
            assert(front[i] == a[i]);
        }
        lemma_parts_of_path_text(true, front);
        lemma_parts_of_path_text(true, named);
        assert(front.len() != named.len());
    }
    lemma_walk(world, link, Some(text), true, seq![], a, seq![name] + b, 0);
    assert(seq![] + a =~= a);
    assert((seq![name] + b)[0] == name);
    assert((seq![name] + b).skip(1) =~= b);
    assert(world.contains_key(QuestionView::Link(link)));
    lemma_parts_of_path_text(true, target);
    lemma_parts_of_path_text(false, target);
    lemma_slashed_front(target);
    assert forall|k: int| 0 < k <= there.len() implies path_text(
        true,
        Seq::<Seq<char>>::empty() + #[trigger] there.take(k),
    ) != link by {
        assert(Seq::<Seq<char>>::empty() + there.take(k) =~= (there + b).take(k));
    }
    lemma_walk(world, link, Some(text), true, seq![], there, seq![], 1);
    assert(there + seq![] =~= there);
    assert(seq![] + there =~= there);
    assert forall|k: int| 0 < k <= b.len() implies path_text(
        true,
        there + #[trigger] b.take(k),
    ) != link by {
        assert(there + b.take(k) =~= (there + b).take(there.len() + k));
    }
    lemma_walk(world, link, Some(text), true, there, b, seq![], 0);
    assert(b + seq![] =~= b);
}

/// The last name on a path is that of the file.
pub proof fn files_are_named_by_the_last_name(rooted: bool, names: Seq<Seq<char>>)
    requires
        are_names(names),
    ensures
        names.len() > 0 && names.last() != seq!['.', '.'] ==> file_name_of(
            path_text(rooted, names),
        ) == Some(names.last()),
        names.len() == 0 || names.last() == seq!['.', '.'] ==> file_name_of(
            path_text(rooted, names),
        ) is None,
{
    lemma_parts_of_path_text(rooted, names);
}

/// The extension is what follows the last dot of a name, unless that is its first
/// character; the stem is what stands before.
pub proof fn extensions_follow_the_last_dot(stem: Seq<char>, extension: Seq<char>, bare: Seq<char>)
    requires
        stem.len() > 0,
        !extension.contains('.'),
        !bare.contains('.'),
    ensures
        stem_of(stem.push('.') + extension) == stem,
        extension_of(stem.push('.') + extension) == Some(extension),
        stem_of(bare) == bare,
        extension_of(bare) is None,
        stem_of(seq!['.'] + bare) == seq!['.'] + bare,
        extension_of(seq!['.'] + bare) is None,
{
    let name = stem.push('.') + extension;
    lemma_last_position_tail(stem, '.', extension);
    assert(name.take(stem.len() as int) =~= stem);
    assert(name.skip(stem.len() as int + 1) =~= extension);
    lemma_no_last(bare, '.');
    lemma_last_position_tail(seq![], '.', bare);
    assert(Seq::<char>::empty().push('.') + bare =~= seq!['.'] + bare);
}

proof fn lemma_no_last(s: Seq<char>, c: char)
    requires
        !s.contains(c),
    ensures
        last_position(s, c) == -1,
    decreases s.len(),
{
    if s.len() > 0 {
        assert(s.contains(s[s.len() - 1]));
        assert forall|d: char| s.drop_last().contains(d) implies s.contains(d) by {
            let i = choose|i: int| 0 <= i < s.drop_last().len() && s.drop_last()[i] == d;
            assert(s[i] == d);
        }
        lemma_no_last(s.drop_last(), c);
    }
}

/// A file is a PRACTICE script by its extension alone, whatever the case of its
/// letters.
pub proof fn scripts_have_their_extension(
    rooted: bool,
    names: Seq<Seq<char>>,
    stem: Seq<char>,
    extension: Seq<char>,
)
    requires
        are_names(names),
        stem.len() > 0,
        !stem.contains('/'),
        !extension.contains('/'),
        !extension.contains('.'),
        stem.push('.') + extension != seq!['.', '.'],
    ensures
        is_cmm(path_text(rooted, names.push(stem.push('.') + extension))) <==> uppercase(extension)
            == "CMM"@,
{
    let name = stem.push('.') + extension;
    let all = names.push(name);
    assert(!name.contains('/')) by {
        if name.contains('/') {
            let i = choose|i: int| 0 <= i < name.len() && name[i] == '/';
            if i < stem.len() {
                assert(stem[i] == '/');
                assert(stem.contains('/'));
            } else if i > stem.len() {
                assert(extension[i - stem.len() - 1] == '/');
                assert(extension.contains('/'));
            }
        }
    }
    assert(name.len() >= 2);
    assert forall|i: int| 0 <= i < all.len() implies is_name(#[trigger] all[i]) by {
        if i < names.len() {
            assert(all[i] == names[i]);
        }
    }
    files_are_named_by_the_last_name(rooted, all);
    extensions_follow_the_last_dot(stem, extension, seq![]);
}

/// A path joined to another leads through the names of both.
pub proof fn joined_paths_lead_through_both(a: Seq<Seq<char>>, b: Seq<Seq<char>>, rooted: bool)
    requires
        are_names(a),
        are_names(b),
        a.len() > 0,
        b.len() > 0,
    ensures
        joined(path_text(rooted, a), path_text(false, b)) == path_text(rooted, a + b),
        joined(path_text(rooted, a), path_text(true, b)) == path_text(true, b),
        joined(path_text(true, seq![]), path_text(false, b)) == path_text(true, b),
{
    lemma_joined(a, b);
    lemma_slashed_front(b);
    lemma_slashed_back(a);
    let root = path_text(true, seq![]);
    assert(root =~= seq!['/']);
    assert(root.last() == '/');
    assert(root + slashed(b) =~= path_text(true, b));
}

/// The parent of a path has the names but for the last one.
pub proof fn parents_lack_the_last_name(names: Seq<Seq<char>>, name: Seq<char>)
    requires
        are_names(names.push(name)),
    ensures
        parent_of(path_text(true, names.push(name))) == Some(path_text(true, names)),
        parent_of(path_text(true, seq![])) is None,
{
    let all = names.push(name);
    let path = path_text(true, all);
    assert(is_name(all[all.len() - 1]));
    assert forall|i: int| 0 <= i < names.len() implies is_name(#[trigger] names[i]) by {
        assert(all[i] == names[i]);
    }
    assert(all.drop_last() =~= names);
    lemma_slashed_back(all);
    let front = path_text(true, names);
    let n = path.len() as int;
    if names.len() == 0 {
        assert(all =~= seq![name]);
        assert(path =~= seq!['/'] + name);
        assert(front =~= seq!['/']);
    } else {
        assert(path =~= front + seq!['/'] + name);
        lemma_slashed_back(names);
        lemma_slashed_front(names);
    }
    let start_of_name = n - name.len();
    assert forall|i: int| start_of_name <= i < n implies #[trigger] path[i] != '/' by {
        assert(path[i] == name[i - start_of_name]);
        assert(name.contains(name[i - start_of_name]));
    }
    assert(path[start_of_name - 1] == '/');
    assert(path[n - 1] == name.last());
    assert(name.len() == 1 ==> name[0] != '.') by {
        if name.len() == 1 && name[0] == '.' {
            assert(name =~= seq!['.']);
        }
    }
    assert(crate::paths::trimmed_end(path, 1, n) == n) by {
        if path[n - 1] == '.' {
            assert(name.len() >= 2);
            assert(path[n - 2] != '/');
        }
    }
    lemma_name_start(path, start_of_name, n);
    if names.len() == 0 {
        assert(path.take(1) =~= front);
    } else {
        let m = front.len() as int;
        assert(start_of_name == m + 1);
        assert(path.take(m) =~= front);
        let last = names.last();
        assert(is_name(names[names.len() - 1]));
        assert(path[m - 1] == front[m - 1]);
        assert(front.last() == last.last()) by {
            if names.len() == 1 {
                assert(slashed(names) == last);
            } else {
                assert(slashed(names).last() == last.last());
            }
        }
        assert(crate::paths::trimmed_end(path, 1, m) == m) by {
            if path[m - 1] == '.' {
                assert(last.len() >= 2) by {
                    if last.len() == 1 {
                        assert(last =~= seq!['.']);
                    }
                }
                assert(path[m - 2] == last[last.len() - 2]) by {
                    assert(path[m - 2] == front[m - 2]);
                    assert(front[m - 2] == slashed(names)[m - 3]);
                }
                assert(last.contains(last[last.len() - 2]));
            }
        }
    }
    let root = path_text(true, seq![]);
    assert(root =~= seq!['/']);
}

proof fn lemma_name_start(path: Seq<char>, begin: int, end: int)
    requires
        1 <= begin <= end <= path.len(),
        path[begin - 1] == '/',
        forall|i: int| begin <= i < end ==> #[trigger] path[i] != '/',
    ensures
        crate::paths::name_start(path, 1, end) == begin,
    decreases end - begin,
{
    if begin < end {
        assert(path[end - 1] != '/');
        lemma_name_start(path, begin, end - 1);
    }
}

/// Texts are ordered by the first character in which they differ, and a text comes
/// before one that goes on from it.
pub proof fn the_first_difference_orders_texts(
    front: Seq<char>,
    c: char,
    d: char,
    a: Seq<char>,
    b: Seq<char>,
)
    ensures
        c < d ==> text_precedes(front.push(c) + a, front.push(d) + b, 0),
        c < d ==> !text_precedes(front.push(d) + b, front.push(c) + a, 0),
        text_precedes(front, front.push(c) + a, 0),
        !text_precedes(front.push(c) + a, front, 0),
        !text_precedes(front, front, 0),
{
    lemma_text_front(front, front.push(c) + a, front.push(d) + b, 0);
    lemma_text_front(front, front.push(d) + b, front.push(c) + a, 0);
    lemma_text_front(front, front, front.push(c) + a, 0);
    lemma_text_front(front, front.push(c) + a, front, 0);
    lemma_text_front(front, front, front, 0);
}

proof fn lemma_text_front(front: Seq<char>, a: Seq<char>, b: Seq<char>, at: int)
    requires
        0 <= at <= front.len(),
        front.is_prefix_of(a),
        front.is_prefix_of(b),
    ensures
        text_precedes(a, b, at) == text_precedes(a, b, front.len() as int),
    decreases front.len() - at,
{
    if at < front.len() {
        assert(a[at] == front[at]);
        assert(b[at] == front[at]);
        lemma_text_front(front, a, b, at + 1);
    }
}

proof fn lemma_steps_front(
    front: Seq<ComponentView>,
    a: Seq<ComponentView>,
    b: Seq<ComponentView>,
    at: int,
)
    requires
        0 <= at <= front.len(),
        front.is_prefix_of(a),
        front.is_prefix_of(b),
    ensures
        steps_precede(a, b, at) == steps_precede(a, b, front.len() as int),
    decreases front.len() - at,
{
    if at < front.len() {
        assert(a[at] == front[at]);
        assert(b[at] == front[at]);
        lemma_steps_front(front, a, b, at + 1);
    }
}

/// Paths are ordered by the first name in which they differ, and a directory comes
/// before what is in it.
pub proof fn the_first_name_orders_paths(
    front: Seq<Seq<char>>,
    x: Seq<char>,
    y: Seq<char>,
    a: Seq<Seq<char>>,
    b: Seq<Seq<char>>,
)
    requires
        is_normal(front.push(x) + a),
        is_normal(front.push(y) + b),
        x != y,
    ensures
        precedes(path_text(true, front.push(x) + a), path_text(true, front.push(y) + b))
            <==> text_precedes(x, y, 0),
        precedes(path_text(true, front), path_text(true, front.push(x) + a)),
{
    let left = front.push(x) + a;
    let right = front.push(y) + b;
    lemma_steps_of(left);
    lemma_steps_of(right);
    assert forall|i: int| 0 <= i < front.len() implies is_name(#[trigger] front[i]) && front[i]
        != seq!['.', '.'] by {
        assert(left[i] == front[i]);
    }
    lemma_steps_of(front);
    let one = components_of(path_text(true, left));
    let two = components_of(path_text(true, right));
    let whole = components_of(path_text(true, front));
    let n = whole.len() as int;
    assert(left[front.len() as int] == x);
    assert(right[front.len() as int] == y);
    assert(whole =~= one.take(n)) by {
        assert forall|i: int| 0 <= i < n implies whole[i] == one[i] by {
            if i > 0 {
                assert(left[i - 1] == front[i - 1]);
            }
        }
    }
    assert(whole =~= two.take(n)) by {
        assert forall|i: int| 0 <= i < n implies whole[i] == two[i] by {
            if i > 0 {
                assert(right[i - 1] == front[i - 1]);
            }
        }
    }
    assert(whole.is_prefix_of(one));
    assert(whole.is_prefix_of(two));
    lemma_steps_front(whole, one, two, 0);
    lemma_steps_front(whole, whole, one, 0);
    assert(one[n] == ComponentView::Name(x));
    assert(two[n] == ComponentView::Name(y));
}

proof fn lemma_steps_of(names: Seq<Seq<char>>)
    requires
        is_normal(names),
    ensures
        components_of(path_text(true, names)).len() == names.len() + 1,
        components_of(path_text(true, names))[0] == ComponentView::Root,
        forall|i: int|
            0 < i <= names.len() ==> #[trigger] components_of(path_text(true, names))[i]
                == ComponentView::Name(names[i - 1]),
{
    lemma_parts_of_path_text(true, names);
    let steps = components_of(path_text(true, names));
    assert forall|i: int| 0 < i <= names.len() implies #[trigger] steps[i] == ComponentView::Name(
        names[i - 1],
    ) by {
        assert(is_name(names[i - 1]) && names[i - 1] != seq!['.', '.']);
    }
}

/// Where two paths first differ in the kind of a step, the root comes first, then the
/// directory that one is in, then a step up, then a name.
pub proof fn kinds_order_steps(
    front: Seq<ComponentView>,
    name: Seq<char>,
    a: Seq<ComponentView>,
    b: Seq<ComponentView>,
)
    ensures
        steps_precede(front.push(ComponentView::Root) + a, front.push(ComponentView::Here) + b, 0),
        steps_precede(front.push(ComponentView::Here) + a, front.push(ComponentView::Up) + b, 0),
        steps_precede(
            front.push(ComponentView::Up) + a,
            front.push(ComponentView::Name(name)) + b,
            0,
        ),
        !steps_precede(front.push(ComponentView::Here) + a, front.push(ComponentView::Root) + b, 0),
        !steps_precede(front.push(ComponentView::Up) + a, front.push(ComponentView::Here) + b, 0),
        !steps_precede(
            front.push(ComponentView::Name(name)) + a,
            front.push(ComponentView::Up) + b,
            0,
        ),
{
    let n = front.len() as int;
    let root = front.push(ComponentView::Root);
    let here = front.push(ComponentView::Here);
    let up = front.push(ComponentView::Up);
    let named = front.push(ComponentView::Name(name));
    lemma_steps_front(front, root + a, here + b, 0);
    lemma_steps_front(front, here + a, up + b, 0);
    lemma_steps_front(front, up + a, named + b, 0);
    lemma_steps_front(front, here + a, root + b, 0);
    lemma_steps_front(front, up + a, here + b, 0);
    lemma_steps_front(front, named + a, up + b, 0);
    assert((root + a)[n] == ComponentView::Root && (root + b)[n] == ComponentView::Root);
    assert((here + a)[n] == ComponentView::Here && (here + b)[n] == ComponentView::Here);
    assert((up + a)[n] == ComponentView::Up && (up + b)[n] == ComponentView::Up);
    assert((named + a)[n] == ComponentView::Name(name) && (named + b)[n] == ComponentView::Name(
        name,
    ));
}

/// Of the entries of a directory exactly the scripts are taken, in their order.
pub proof fn scripts_are_taken_in_order(entries: Seq<Seq<char>>)
    ensures
        cmm_among(entries) == entries.filter(|path: Seq<char>| is_cmm(path)),
    decreases entries.len(),
{
    reveal(Seq::filter);
    if entries.len() > 0 {
        scripts_are_taken_in_order(entries.drop_last());
    }
}

/// A home directory that is the root, or empty, is written as the root: what follows
/// the tilde begins with its own slash.
pub proof fn the_root_can_be_a_home(
    env: Map<Seq<char>, Seq<char>>,
    world: Map<QuestionView, Option<Seq<char>>>,
    rest: Seq<char>,
    home: Seq<char>,
)
    requires
        rest.len() > 0 ==> rest[0] == '/',
        forall|i: int| 0 <= i < home.len() ==> #[trigger] home[i] == '/',
        home_is(env, world, seq![], Some(home)),
    ensures
        user_expanded(seq!['~'] + rest, env, world) == Found::Found(
            if rest.len() > 0 {
                rest
            } else {
                seq!['/']
            },
        ),
{
    let value = seq!['~'] + rest;
    if rest.len() > 0 {
        assert(value[1] == '/');
        lemma_first_at(value, '/', 0, 1);
    } else {
        lemma_nowhere(value, '/', 0);
    }
    assert(value.take(1) =~= seq!['~']);
    assert(value.skip(1) =~= rest);
    lemma_only_slashes(home);
    assert(seq![] + rest =~= rest);
}

proof fn lemma_only_slashes(s: Seq<char>)
    requires
        forall|i: int| 0 <= i < s.len() ==> #[trigger] s[i] == '/',
    ensures
        crate::text::trim_end_char(s, '/') == Seq::<char>::empty(),
    decreases s.len(),
{
    if s.len() > 0 {
        assert(s[s.len() - 1] == '/');
        lemma_only_slashes(s.drop_last());
    } else {
        assert(s =~= seq![]);
    }
}

/// A dot at the beginning of a path is a step of its own; elsewhere it is none.
pub proof fn leading_dots_are_steps(names: Seq<Seq<char>>, i: int)
    requires
        is_normal(names),
        names.len() > 0,
    ensures
        components_of(seq!['.']) == seq![ComponentView::Here],
        ({
            let steps = components_of(seq!['.', '/'] + slashed(names));
            &&& steps.len() == names.len() + 1
            &&& steps[0] == ComponentView::Here
            &&& 0 <= i < names.len() ==> steps[i + 1] == ComponentView::Name(names[i])
        }),
{
    let dot = seq!['.'];
    let empty = Seq::<Seq<char>>::empty();
    strung_words_are_split(seq![dot], '/');
    assert(strung(seq![dot], '/') == dot);
    assert(parts(dot) =~= empty) by {
        assert(seq![dot].drop_last() =~= empty);
        reveal_with_fuel(meaningful, 2);
    }
    assert(components_of(dot) =~= seq![ComponentView::Here]);
    let path = seq!['.', '/'] + slashed(names);
    lemma_normal_both(names, names);
    lemma_slashed_strung(names);
    let words = seq![dot] + names;
    assert forall|k: int| 0 <= k < words.len() implies !(#[trigger] words[k]).contains('/') by {
        if k > 0 {
            assert(words[k] == names[k - 1]);
            assert(is_name(names[k - 1]));
        } else {
            assert(words[k] == dot);
        }
    }
    lemma_strung_dot(names);
    strung_words_are_split(words, '/');
    lemma_meaningful(dot, names);
    assert(path[0] == '.' && path[1] == '/');
    if 0 <= i < names.len() {
        assert(is_name(names[i]) && names[i] != seq!['.', '.']);
    }
}

proof fn lemma_slashed_strung(names: Seq<Seq<char>>)
    ensures
        slashed(names) == strung(names, '/'),
    decreases names.len(),
{
    if names.len() > 1 {
        lemma_slashed_strung(names.drop_last());
        assert(slashed(names) =~= strung(names, '/'));
    }
}

proof fn lemma_strung_dot(names: Seq<Seq<char>>)
    requires
        names.len() > 0,
    ensures
        strung(seq![seq!['.']] + names, '/') == seq!['.', '/'] + strung(names, '/'),
    decreases names.len(),
{
    let all = seq![seq!['.']] + names;
    let before = names.drop_last();
    assert(all.drop_last() =~= seq![seq!['.']] + before);
    assert(all.last() == names.last());
    if before.len() == 0 {
        assert(all.drop_last() =~= seq![seq!['.']]);
        assert(strung(all.drop_last(), '/') == seq!['.']);
    } else {
        lemma_strung_dot(before);
    }
    assert(strung(all, '/') =~= seq!['.', '/'] + strung(names, '/'));
}

proof fn lemma_meaningful(dot: Seq<char>, names: Seq<Seq<char>>)
    requires
        dot == seq!['.'],
        are_names(names),
    ensures
        meaningful(seq![dot] + names) == names,
    decreases names.len(),
{
    let all = seq![dot] + names;
    let before = names.drop_last();
    if names.len() == 0 {
        assert(all =~= seq![dot]);
        assert(all.drop_last() =~= seq![]);
        reveal_with_fuel(meaningful, 2);
    } else {
        assert(all.drop_last() =~= seq![dot] + before);
        assert(all.last() == names[names.len() - 1]);
        assert(is_name(names[names.len() - 1]));
        assert forall|i: int| 0 <= i < before.len() implies is_name(#[trigger] before[i]) by {
            assert(before[i] == names[i]);
        }
        lemma_meaningful(dot, before);
        assert(meaningful(all) =~= names);
    }
}

/// The user's own scripts lie in `tracebridge/flash` in the directory for
/// configurations: the one that a variable gives, else the one in the home directory.
pub proof fn own_scripts_lie_with_the_configurations(
    env: Map<Seq<char>, Seq<char>>,
    world: Map<QuestionView, Option<Seq<char>>>,
    names: Seq<Seq<char>>,
)
    requires
        are_names(names),
        names.len() > 0,
    ensures
        env.contains_key("XDG_CONFIG_HOME"@) && env["XDG_CONFIG_HOME"@] == path_text(true, names)
            ==> library_of(env, world) == Found::Found(
            path_text(true, names + seq!["tracebridge"@, "flash"@]),
        ),
        !env.contains_key("XDG_CONFIG_HOME"@) && user_expanded("~/.config"@, env, world)
            == Found::Found(path_text(true, names)) ==> library_of(env, world) == Found::Found(
            path_text(true, names + seq!["tracebridge"@, "flash"@]),
        ),
{
    reveal_strlit("tracebridge");
    reveal_strlit("flash");
    let one = seq!["tracebridge"@];
    let two = seq!["flash"@];
    assert(!"tracebridge"@.contains('/') && !"flash"@.contains('/'));
    assert("tracebridge"@.len() > 1 && "flash"@.len() > 1);
    assert(is_name(one[0]) && is_name(two[0]));
    assert(slashed(one) == "tracebridge"@ && slashed(two) == "flash"@);
    lemma_joined(names, one);
    let both = names + one;
    assert forall|i: int| 0 <= i < both.len() implies is_name(#[trigger] both[i]) by {
        if i < names.len() {
            assert(both[i] == names[i]);
        }
    }
    lemma_joined(both, two);
    assert(both + two =~= names + seq!["tracebridge"@, "flash"@]);
}

}
