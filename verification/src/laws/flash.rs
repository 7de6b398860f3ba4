//! Which flash script a chip gets.

use vstd::prelude::*;
use vstd::string::*;

use crate::flash::{
    above, best_of, candidate, chosen, highest, is_literal, is_related, literals, matches_glob,
    ranked, related, unusable, Candidate, Rank, ScriptView, Source,
};
use crate::laws::report::lemma_has_middle;
use crate::paths::{file_name_of, stem_of};
use crate::t32rcl::eval::comma_list;
use crate::text::{has_text, uppercase};

verus! {

/// Whether a pattern stands for more than one name.
pub open spec fn has_wildcard(pattern: Seq<char>) -> bool {
    pattern.contains('*') || pattern.contains('?')
}

/// The number of characters of a pattern other than wildcards.
pub open spec fn letters(pattern: Seq<char>) -> nat {
    pattern.filter(|c: char| c != '*' && c != '?').len()
}

/// Whether the name of a script has a dash before its extension, as scripts for
/// other memories than the internal flash have.
pub open spec fn has_dash(path: Seq<char>) -> bool {
    file_name_of(path) matches Some(name) && stem_of(name).contains('-')
}

/// Whether a script can be used for a chip, by the pattern at a place in its header.
pub open spec fn fits(script: ScriptView, at: int, chip: Seq<char>) -> bool {
    script.prepare_only && 0 <= at < script.chips.len() && matches_glob(script.chips[at], chip)
}

/// Whether the patterns of scripts are texts that a machine can hold.
pub open spec fn are_machine_texts(scripts: Seq<ScriptView>) -> bool {
    forall|i: int, j: int|
        0 <= i < scripts.len() && 0 <= j < scripts[i].chips.len() ==> (
        #[trigger] scripts[i].chips[j]).len() <= usize::MAX
}

proof fn lemma_letters(pattern: Seq<char>)
    ensures
        letters(pattern) == literals(pattern),
        letters(pattern) <= pattern.len(),
        has_wildcard(pattern) <==> letters(pattern) < pattern.len(),
    decreases pattern.len(),
{
    reveal(Seq::filter);
    if pattern.len() > 0 {
        let rest = pattern.drop_last();
        lemma_letters(rest);
        assert(pattern =~= rest.push(pattern.last()));
        if has_wildcard(rest) {
            let i = choose|i: int|
                0 <= i < rest.len() && (#[trigger] rest[i] == '*' || rest[i] == '?');
            assert(pattern[i] == rest[i]);
        }
        if has_wildcard(pattern) && is_literal(pattern.last()) {
            let i = choose|i: int|
                0 <= i < pattern.len() && (#[trigger] pattern[i] == '*' || pattern[i] == '?');
            assert(rest[i] == pattern[i]);
        }
        if !is_literal(pattern.last()) {
            assert(pattern.contains(pattern.last()));
        }
    }
}

/// How specific a pattern is: its own name, then its letters.
spec fn beats(a: Seq<char>, b: Seq<char>) -> bool {
    if has_wildcard(a) != has_wildcard(b) {
        !has_wildcard(a)
    } else {
        letters(a) >= letters(b)
    }
}

proof fn lemma_best_of(chips: Seq<Seq<char>>, chip: Seq<char>)
    ensures
        match best_of(chips, chip) {
            Some(best) => chips.contains(best) && matches_glob(best, chip) && forall|j: int|
                0 <= j < chips.len() && matches_glob(#[trigger] chips[j], chip) ==> beats(
                    best,
                    chips[j],
                ),
            None => forall|j: int|
                0 <= j < chips.len() ==> !matches_glob(#[trigger] chips[j], chip),
        },
    decreases chips.len(),
{
    if chips.len() > 0 {
        let rest = chips.drop_last();
        lemma_best_of(rest, chip);
        assert forall|p: Seq<char>| letters(p) == #[trigger] literals(p) && letters(p) <= p.len()
            && (has_wildcard(p) <==> letters(p) < p.len()) by {
            lemma_letters(p);
        }
        if let Some(best) = best_of(rest, chip) {
            let i = choose|i: int| 0 <= i < rest.len() && rest[i] == best;
            assert(chips[i] == best);
        }
        assert(chips[chips.len() - 1] == chips.last());
        if let Some(best) = best_of(chips, chip) {
            lemma_letters(best);
            assert forall|j: int| 0 <= j < chips.len() && matches_glob(
                #[trigger] chips[j],
                chip,
            ) implies beats(best, chips[j]) by {
                lemma_letters(chips[j]);
                lemma_letters(chips.last());
                if j < rest.len() {
                    assert(rest[j] == chips[j]);
                    let old = best_of(rest, chip)->Some_0;
                    lemma_letters(old);
                    assert(beats(old, rest[j]));
                }
            }
        } else {
            assert forall|j: int| 0 <= j < chips.len() implies !matches_glob(
                #[trigger] chips[j],
                chip,
            ) by {
                if j < rest.len() {
                    assert(rest[j] == chips[j]);
                }
            }
        }
    }
}

proof fn lemma_highest(scripts: Seq<ScriptView>, chip: Seq<char>)
    ensures
        match highest(scripts, chip) {
            Some(rank) => forall|i: int|
                0 <= i < scripts.len() ==> (candidate(#[trigger] scripts[i], chip) matches Some(c)
                    ==> !above(c.rank, rank)),
            None => forall|i: int|
                0 <= i < scripts.len() ==> candidate(#[trigger] scripts[i], chip) is None,
        },
    decreases scripts.len(),
{
    if scripts.len() > 0 {
        let rest = scripts.drop_last();
        lemma_highest(rest, chip);
        assert forall|i: int| 0 <= i < scripts.len() implies match highest(scripts, chip) {
            Some(rank) => candidate(#[trigger] scripts[i], chip) matches Some(c) ==> !above(
                c.rank,
                rank,
            ),
            None => candidate(scripts[i], chip) is None,
        } by {
            if i < rest.len() {
                assert(rest[i] == scripts[i]);
            }
        }
    }
}

proof fn lemma_ranked(scripts: Seq<ScriptView>, chip: Seq<char>, rank: Rank)
    ensures
        forall|k: int|
            0 <= k < ranked(scripts, chip, rank).len() ==> exists|i: int|
                0 <= i < scripts.len() && candidate(#[trigger] scripts[i], chip) == Some(
                    #[trigger] ranked(scripts, chip, rank)[k],
                ),
        forall|i: int|
            0 <= i < scripts.len() && (candidate(#[trigger] scripts[i], chip) matches Some(c)
                && c.rank == rank) ==> ranked(scripts, chip, rank).contains(
                candidate(scripts[i], chip)->Some_0,
            ),
        forall|i: int, j: int|
            0 <= i < j < scripts.len() && (candidate(#[trigger] scripts[i], chip) matches Some(c)
                && c.rank == rank) && (candidate(#[trigger] scripts[j], chip) matches Some(d)
                && d.rank == rank) ==> ranked(scripts, chip, rank).len() >= 2,
    decreases scripts.len(),
{
    if scripts.len() > 0 {
        let rest = scripts.drop_last();
        let before = ranked(rest, chip, rank);
        let top = ranked(scripts, chip, rank);
        lemma_ranked(rest, chip, rank);
        assert(scripts[scripts.len() - 1] == scripts.last());
        assert forall|k: int| 0 <= k < top.len() implies exists|i: int|
            0 <= i < scripts.len() && candidate(#[trigger] scripts[i], chip) == Some(
                #[trigger] top[k],
            ) by {
            if k < before.len() {
                assert(top[k] == before[k]);
                let i = choose|i: int|
                    0 <= i < rest.len() && candidate(#[trigger] rest[i], chip) == Some(before[k]);
                assert(scripts[i] == rest[i]);
            } else {
                assert(candidate(scripts[scripts.len() - 1], chip) == Some(top[k]));
            }
        }
        assert forall|i: int|
            0 <= i < scripts.len() && (candidate(#[trigger] scripts[i], chip) matches Some(c)
                && c.rank == rank) implies top.contains(
            candidate(scripts[i], chip)->Some_0,
        ) by {
            let c = candidate(scripts[i], chip)->Some_0;
            if i < rest.len() {
                assert(rest[i] == scripts[i]);
                assert(before.contains(c));
                let k = choose|k: int| 0 <= k < before.len() && before[k] == c;
                assert(top[k] == c);
            } else {
                assert(top.last() == c);
                assert(top[top.len() - 1] == c);
            }
        }
        assert forall|i: int, j: int|
            0 <= i < j < scripts.len() && (candidate(#[trigger] scripts[i], chip) matches Some(c)
                && c.rank == rank) && (candidate(#[trigger] scripts[j], chip) matches Some(d)
                && d.rank == rank) implies top.len() >= 2 by {
            assert(rest[i] == scripts[i]);
            assert(before.contains(candidate(rest[i], chip)->Some_0));
            if j < rest.len() {
                assert(rest[j] == scripts[j]);
            }
        }
    }
}

/// A script is chosen by a pattern of its own header that matches the chip, and it
/// is one that supports `PREPAREONLY`.
pub proof fn the_chosen_script_fits(chip: Seq<char>, scripts: Seq<ScriptView>)
    ensures
        chosen(chip, scripts) matches Ok((pattern, script)) ==> scripts.contains(script)
            && script.prepare_only && script.chips.contains(pattern) && matches_glob(
            pattern,
            chip,
        ),
{
    if let Some(rank) = highest(scripts, chip) {
        let top = ranked(scripts, chip, rank);
        lemma_ranked(scripts, chip, rank);
        if top.len() == 1 {
            let i = choose|i: int|
                0 <= i < scripts.len() && candidate(#[trigger] scripts[i], chip) == Some(top[0]);
            lemma_best_of(scripts[i].chips, chip);
        }
    }
}

proof fn lemma_chosen_against(
    chip: Seq<char>,
    scripts: Seq<ScriptView>,
    i: int,
    at: int,
)
    requires
        chosen(chip, scripts) is Ok,
        0 <= i < scripts.len(),
        fits(scripts[i], at, chip),
    ensures
        candidate(chosen(chip, scripts)->Ok_0.1, chip) matches Some(own) && own.pattern == chosen(
            chip,
            scripts,
        )->Ok_0.0,
        scripts.contains(chosen(chip, scripts)->Ok_0.1),
        candidate(scripts[i], chip) matches Some(other) && beats(
            other.pattern,
            scripts[i].chips[at],
        ) && !above(other.rank, candidate(chosen(chip, scripts)->Ok_0.1, chip)->Some_0.rank),
{
    lemma_highest(scripts, chip);
    let rank = highest(scripts, chip)->Some_0;
    let top = ranked(scripts, chip, rank);
    lemma_ranked(scripts, chip, rank);
    lemma_rank_of_ranked(scripts, chip, rank);
    let k = choose|k: int|
        0 <= k < scripts.len() && candidate(#[trigger] scripts[k], chip) == Some(top[0]);
    lemma_best_of(scripts[i].chips, chip);
    assert(matches_glob(scripts[i].chips[at], chip));
}

proof fn lemma_rank_of_ranked(scripts: Seq<ScriptView>, chip: Seq<char>, rank: Rank)
    ensures
        forall|k: int|
            0 <= k < ranked(scripts, chip, rank).len() ==> (#[trigger] ranked(
                scripts,
                chip,
                rank,
            )[k]).rank == rank,
    decreases scripts.len(),
{
    if scripts.len() > 0 {
        lemma_rank_of_ranked(scripts.drop_last(), chip, rank);
    }
}

/// The scripts of the user's library come first: one of the installation is chosen
/// only where none of the library fits.
pub proof fn the_library_wins(chip: Seq<char>, scripts: Seq<ScriptView>, i: int, at: int)
    requires
        chosen(chip, scripts) matches Ok((_, script)) && script.source == Source::Trace32,
        0 <= i < scripts.len(),
        scripts[i].source == Source::Library,
    ensures
        !fits(scripts[i], at, chip),
{
    if fits(scripts[i], at, chip) {
        lemma_chosen_against(chip, scripts, i, at);
    }
}

/// An exact name wins over a wildcard: a script is chosen by a pattern with a
/// wildcard only where no script of the same source has the name of the chip.
pub proof fn exact_names_win(chip: Seq<char>, scripts: Seq<ScriptView>, i: int, at: int)
    requires
        chosen(chip, scripts) matches Ok((pattern, script)) && has_wildcard(pattern)
            && scripts[i].source == script.source,
        0 <= i < scripts.len(),
        fits(scripts[i], at, chip),
    ensures
        has_wildcard(scripts[i].chips[at]),
{
    let pattern = chosen(chip, scripts)->Ok_0.0;
    lemma_chosen_against(chip, scripts, i, at);
    lemma_letters(pattern);
    lemma_letters(candidate(scripts[i], chip)->Some_0.pattern);
    lemma_letters(scripts[i].chips[at]);
}

proof fn lemma_machine_candidate(scripts: Seq<ScriptView>, chip: Seq<char>, script: ScriptView)
    requires
        are_machine_texts(scripts),
        scripts.contains(script),
        candidate(script, chip) is Some,
    ensures
        candidate(script, chip)->Some_0.rank.literal == letters(
            candidate(script, chip)->Some_0.pattern,
        ),
        candidate(script, chip)->Some_0.rank.exact == !has_wildcard(
            candidate(script, chip)->Some_0.pattern,
        ),
        candidate(script, chip)->Some_0.rank.internal == !has_dash(script.path),
{
    let pattern = candidate(script, chip)->Some_0.pattern;
    let i = choose|i: int| 0 <= i < scripts.len() && scripts[i] == script;
    lemma_best_of(script.chips, chip);
    let j = choose|j: int| 0 <= j < script.chips.len() && script.chips[j] == pattern;
    assert(scripts[i].chips[j].len() <= usize::MAX);
    lemma_letters(pattern);
}

/// A longer wildcard wins over a shorter one: no script of the same source fits by
/// a pattern with a wildcard and more letters.
pub proof fn longer_patterns_win(chip: Seq<char>, scripts: Seq<ScriptView>, i: int, at: int)
    requires
        chosen(chip, scripts) matches Ok((pattern, script)) && has_wildcard(pattern)
            && scripts[i].source == script.source,
        0 <= i < scripts.len(),
        fits(scripts[i], at, chip),
        are_machine_texts(scripts),
    ensures
        letters(scripts[i].chips[at]) <= letters(chosen(chip, scripts)->Ok_0.0),
{
    let pattern = chosen(chip, scripts)->Ok_0.0;
    exact_names_win(chip, scripts, i, at);
    lemma_chosen_against(chip, scripts, i, at);
    lemma_letters(pattern);
    lemma_letters(candidate(scripts[i], chip)->Some_0.pattern);
    lemma_letters(scripts[i].chips[at]);
    lemma_machine_candidate(scripts, chip, scripts[i]);
    lemma_machine_candidate(scripts, chip, chosen(chip, scripts)->Ok_0.1);
}

/// Scripts for the internal flash win over those for other memories: where another
/// script of the same source fits just as well by its pattern, the chosen one has no
/// dash in its name and the other has one.
pub proof fn internal_flash_wins(
    chip: Seq<char>,
    scripts: Seq<ScriptView>,
    k: int,
    i: int,
    at: int,
)
    requires
        0 <= k < scripts.len(),
        0 <= i < scripts.len(),
        i != k,
        chosen(chip, scripts) matches Ok((pattern, script)) && script == scripts[k]
            && scripts[i].source == script.source && has_wildcard(scripts[i].chips[at])
            == has_wildcard(pattern) && letters(scripts[i].chips[at]) == letters(pattern),
        fits(scripts[i], at, chip),
        are_machine_texts(scripts),
    ensures
        !has_dash(scripts[k].path),
        has_dash(scripts[i].path),
{
    let pattern = chosen(chip, scripts)->Ok_0.0;
    let rank = highest(scripts, chip)->Some_0;
    lemma_chosen_against(chip, scripts, i, at);
    lemma_ranked(scripts, chip, rank);
    lemma_rank_of_ranked(scripts, chip, rank);
    let other = candidate(scripts[i], chip)->Some_0;
    let own = candidate(scripts[k], chip)->Some_0;
    lemma_letters(pattern);
    lemma_letters(other.pattern);
    lemma_letters(scripts[i].chips[at]);
    lemma_machine_candidate(scripts, chip, scripts[i]);
    lemma_machine_candidate(scripts, chip, scripts[k]);
    assert(own.rank == rank) by {
        let top = ranked(scripts, chip, rank);
        let j = choose|j: int|
            0 <= j < scripts.len() && candidate(#[trigger] scripts[j], chip) == Some(top[0]);
        assert(scripts[j] == scripts[k]);
        assert(top[0].rank == rank);
    }
    assert(other.rank != rank);
}

/// No script is chosen only where none fits or where several fit equally well: the
/// one script that fits is always chosen.
pub proof fn the_only_script_is_chosen(chip: Seq<char>, scripts: Seq<ScriptView>, k: int, at: int)
    requires
        0 <= k < scripts.len(),
        fits(scripts[k], at, chip),
        forall|i: int, j: int|
            0 <= i < scripts.len() && i != k ==> !#[trigger] fits(scripts[i], j, chip),
    ensures
        chosen(chip, scripts) matches Ok((_, script)) && script == scripts[k],
{
    lemma_best_of(scripts[k].chips, chip);
    assert(candidate(scripts[k], chip) is Some);
    assert forall|i: int| 0 <= i < scripts.len() && i != k implies candidate(
        #[trigger] scripts[i],
        chip,
    ) is None by {
        lemma_best_of(scripts[i].chips, chip);
        if candidate(scripts[i], chip) is Some {
            let best = best_of(scripts[i].chips, chip)->Some_0;
            let j = choose|j: int| 0 <= j < scripts[i].chips.len() && scripts[i].chips[j] == best;
            assert(fits(scripts[i], j, chip));
        }
    }
    lemma_single(scripts, chip, k);
}

proof fn lemma_single(scripts: Seq<ScriptView>, chip: Seq<char>, k: int)
    requires
        0 <= k < scripts.len(),
        candidate(scripts[k], chip) is Some,
        forall|i: int|
            0 <= i < scripts.len() && i != k ==> candidate(#[trigger] scripts[i], chip) is None,
    ensures
        highest(scripts, chip) == Some(candidate(scripts[k], chip)->Some_0.rank),
        ranked(scripts, chip, candidate(scripts[k], chip)->Some_0.rank) == seq![
            candidate(scripts[k], chip)->Some_0,
        ],
    decreases scripts.len(),
{
    let rest = scripts.drop_last();
    let own = candidate(scripts[k], chip)->Some_0;
    assert(scripts[scripts.len() - 1] == scripts.last());
    if k == scripts.len() - 1 {
        assert forall|i: int| 0 <= i < rest.len() implies candidate(#[trigger] rest[i], chip)
            is None by {
            assert(rest[i] == scripts[i]);
        }
        lemma_none(rest, chip, own.rank);
        assert(Seq::<Candidate>::empty().push(own) =~= seq![own]);
    } else {
        assert(rest[k] == scripts[k]);
        assert forall|i: int| 0 <= i < rest.len() && i != k implies candidate(
            #[trigger] rest[i],
            chip,
        ) is None by {
            assert(rest[i] == scripts[i]);
        }
        lemma_single(rest, chip, k);
    }
}

proof fn lemma_none(scripts: Seq<ScriptView>, chip: Seq<char>, rank: Rank)
    requires
        forall|i: int| 0 <= i < scripts.len() ==> candidate(#[trigger] scripts[i], chip) is None,
    ensures
        highest(scripts, chip) is None,
        ranked(scripts, chip, rank) == Seq::<Candidate>::empty(),
    decreases scripts.len(),
{
    if scripts.len() > 0 {
        let rest = scripts.drop_last();
        assert(candidate(scripts[scripts.len() - 1], chip) is None);
        assert forall|i: int| 0 <= i < rest.len() implies candidate(#[trigger] rest[i], chip)
            is None by {
            assert(rest[i] == scripts[i]);
        }
        lemma_none(rest, chip, rank);
    }
}

/// Where no script fits, none is chosen.
pub proof fn nothing_is_chosen_without_a_match(chip: Seq<char>, scripts: Seq<ScriptView>)
    requires
        forall|i: int, j: int|
            0 <= i < scripts.len() ==> !#[trigger] fits(scripts[i], j, chip),
    ensures
        chosen(chip, scripts) matches Err(text) && ("no flash script found for chip "@
            + chip).is_prefix_of(text),
{
    if chosen(chip, scripts) is Ok {
        the_chosen_script_fits(chip, scripts);
        let (pattern, script) = chosen(chip, scripts)->Ok_0;
        let i = choose|i: int| 0 <= i < scripts.len() && scripts[i] == script;
        let j = choose|j: int| 0 <= j < script.chips.len() && script.chips[j] == pattern;
        assert(fits(scripts[i], j, chip));
    }
    assert forall|i: int| 0 <= i < scripts.len() implies candidate(#[trigger] scripts[i], chip)
        is None by {
        lemma_best_of(scripts[i].chips, chip);
        if candidate(scripts[i], chip) is Some {
            let best = best_of(scripts[i].chips, chip)->Some_0;
            let j = choose|j: int| 0 <= j < scripts[i].chips.len() && scripts[i].chips[j] == best;
            assert(fits(scripts[i], j, chip));
        }
    }
    lemma_none(
        scripts,
        chip,
        Rank { library: false, exact: false, literal: 0, internal: false },
    );
    let text = chosen(chip, scripts)->Err_0;
    let head = "no flash script found for chip "@ + chip;
    assert(text.subrange(0, head.len() as int) =~= head);
}

/// The script that a chip gets is among those that are listed for it.
pub proof fn the_chosen_script_is_listed(chip: Seq<char>, scripts: Seq<ScriptView>)
    ensures
        chosen(chip, scripts) matches Ok((_, script)) ==> related(scripts, chip).contains(script),
{
    the_chosen_script_fits(chip, scripts);
    if let Ok((pattern, script)) = chosen(chip, scripts) {
        let i = choose|i: int| 0 <= i < scripts.len() && scripts[i] == script;
        lemma_best_of(script.chips, chip);
        let j = choose|j: int| 0 <= j < script.chips.len() && script.chips[j] == pattern;
        assert(matches_glob(script.chips[j], chip));
        lemma_related(scripts, chip, i);
    }
}

proof fn lemma_related(scripts: Seq<ScriptView>, query: Seq<char>, i: int)
    requires
        0 <= i < scripts.len(),
        best_of(scripts[i].chips, query) is Some,
    ensures
        related(scripts, query).contains(scripts[i]),
    decreases scripts.len(),
{
    let rest = scripts.drop_last();
    let all = related(scripts, query);
    if i == scripts.len() - 1 {
        assert(all.last() == scripts[i]);
        assert(all[all.len() - 1] == scripts[i]);
    } else {
        assert(rest[i] == scripts[i]);
        lemma_related(rest, query, i);
        let before = related(rest, query);
        let k = choose|k: int| 0 <= k < before.len() && before[k] == scripts[i];
        assert(all[k] == scripts[i]);
    }
}

/// Two scripts that fit equally well, as scripts with the same patterns from the same
/// source do, are not chosen between.
pub proof fn equals_are_not_chosen_between(
    chip: Seq<char>,
    scripts: Seq<ScriptView>,
    i: int,
    j: int,
)
    requires
        0 <= i < scripts.len(),
        0 <= j < scripts.len(),
        i != j,
        scripts[i].source == scripts[j].source,
        scripts[i].chips == scripts[j].chips,
        scripts[i].prepare_only == scripts[j].prepare_only,
        has_dash(scripts[i].path) == has_dash(scripts[j].path),
    ensures
        chosen(chip, scripts) matches Ok((_, script)) ==> script != scripts[i] && script
            != scripts[j],
{
    if let Some(rank) = highest(scripts, chip) {
        let top = ranked(scripts, chip, rank);
        lemma_ranked(scripts, chip, rank);
        lemma_rank_of_ranked(scripts, chip, rank);
        if top.len() == 1 {
            let k = choose|k: int|
                0 <= k < scripts.len() && candidate(#[trigger] scripts[k], chip) == Some(top[0]);
            assert(scripts[k] == top[0].script);
            assert(top[0].rank == rank);
            if scripts[k] == scripts[i] || scripts[k] == scripts[j] {
                assert(candidate(scripts[i], chip) is Some);
                assert(candidate(scripts[j], chip) is Some);
                assert(candidate(scripts[i], chip)->Some_0.rank == rank);
                assert(candidate(scripts[j], chip)->Some_0.rank == rank);
            }
        }
    }
}

/// A script has to do with a query exactly if one of its patterns matches the query, or
/// one of them or the name of the file without its extension contains it, whatever the
/// case.
pub proof fn queries_find_scripts(script: ScriptView, query: Seq<char>)
    ensures
        related(seq![script], query) == (if {
            ||| exists|i: int|
                0 <= i < script.chips.len() && (matches_glob(#[trigger] script.chips[i], query)
                    || has_text(uppercase(script.chips[i]), uppercase(query)))
            ||| file_name_of(script.path) matches Some(name) && has_text(
                uppercase(stem_of(name)),
                uppercase(query),
            )
        } {
            seq![script]
        } else {
            seq![]
        }),
{
    lemma_best_of(script.chips, query);
    let all = seq![script];
    assert(all.drop_last() =~= seq![]);
    reveal_with_fuel(related, 2);
    let found = {
        ||| exists|i: int|
            0 <= i < script.chips.len() && (matches_glob(#[trigger] script.chips[i], query)
                || has_text(uppercase(script.chips[i]), uppercase(query)))
        ||| file_name_of(script.path) matches Some(name) && has_text(
            uppercase(stem_of(name)),
            uppercase(query),
        )
    };
    if let Some(best) = best_of(script.chips, query) {
        let i = choose|i: int| 0 <= i < script.chips.len() && script.chips[i] == best;
        assert(matches_glob(script.chips[i], query));
    }
    assert(is_related(script, query) == found) by {
        if exists|i: int|
            0 <= i < script.chips.len() && (matches_glob(#[trigger] script.chips[i], query)
                || has_text(uppercase(script.chips[i]), uppercase(query))) {
            let i = choose|i: int|
                0 <= i < script.chips.len() && (matches_glob(#[trigger] script.chips[i], query)
                    || has_text(uppercase(script.chips[i]), uppercase(query)));
            assert(matches_glob(script.chips[i], query) ==> best_of(script.chips, query) is Some);
        }
    }
    assert(related(all, query) =~= if found {
        seq![script]
    } else {
        seq![]
    });
}

/// Of patterns of one script that are equally specific, the last one that matches is
/// given.
pub proof fn the_last_of_equal_patterns_is_given(
    chips: Seq<Seq<char>>,
    pattern: Seq<char>,
    chip: Seq<char>,
)
    requires
        matches_glob(pattern, chip),
        best_of(chips, chip) matches Some(other) && letters(other) == letters(pattern)
            && has_wildcard(other) == has_wildcard(pattern),
    ensures
        best_of(chips.push(pattern), chip) == Some(pattern),
{
    let other = best_of(chips, chip)->Some_0;
    lemma_letters(pattern);
    lemma_letters(other);
    assert(chips.push(pattern).drop_last() =~= chips);
}

/// Where nothing fits, the scripts that match but cannot be used are named, and nothing
/// is said of the others.
pub proof fn scripts_that_cannot_be_used_are_named(
    chip: Seq<char>,
    scripts: Seq<ScriptView>,
    i: int,
    j: int,
)
    requires
        forall|i: int, j: int| 0 <= i < scripts.len() ==> !#[trigger] fits(scripts[i], j, chip),
    ensures
        (forall|k: int|
            0 <= k < scripts.len() ==> best_of((#[trigger] scripts[k]).chips, chip) is None)
            ==> chosen(chip, scripts) == Err::<(Seq<char>, ScriptView), _>(
            "no flash script found for chip "@ + chip,
        ),
        0 <= i < scripts.len() && 0 <= j < scripts[i].chips.len() && matches_glob(
            scripts[i].chips[j],
            chip,
        ) ==> (chosen(chip, scripts) matches Err(text) && has_text(text, scripts[i].path)),
{
    assert forall|k: int| 0 <= k < scripts.len() implies candidate(#[trigger] scripts[k], chip)
        is None by {
        lemma_best_of(scripts[k].chips, chip);
        if candidate(scripts[k], chip) is Some {
            let best = best_of(scripts[k].chips, chip)->Some_0;
            let m = choose|m: int| 0 <= m < scripts[k].chips.len() && scripts[k].chips[m] == best;
            assert(fits(scripts[k], m, chip));
        }
    }
    lemma_none(
        scripts,
        chip,
        Rank { library: false, exact: false, literal: 0, internal: false },
    );
    let head = "no flash script found for chip "@ + chip;
    assert(head + seq![] =~= head);
    if forall|k: int|
        0 <= k < scripts.len() ==> best_of((#[trigger] scripts[k]).chips, chip) is None {
        lemma_no_misfits(scripts, chip);
    }
    if 0 <= i < scripts.len() && 0 <= j < scripts[i].chips.len() && matches_glob(
        scripts[i].chips[j],
        chip,
    ) {
        lemma_best_of(scripts[i].chips, chip);
        assert(!fits(scripts[i], j, chip));
        lemma_misfit(scripts, chip, i);
        let misfits = unusable(scripts, chip);
        let k = choose|k: int| 0 <= k < misfits.len() && misfits[k] == scripts[i].path;
        let (a, b) = lemma_listed(misfits, k);
        let text = chosen(chip, scripts)->Err_0;
        let front = head + " ("@ + a;
        let back = b + " match but do not support PREPAREONLY)"@;
        assert(text =~= front + scripts[i].path + back);
        lemma_has_middle(front, scripts[i].path, back);
    }
}

proof fn lemma_no_misfits(scripts: Seq<ScriptView>, chip: Seq<char>)
    requires
        forall|k: int|
            0 <= k < scripts.len() ==> best_of((#[trigger] scripts[k]).chips, chip) is None,
    ensures
        unusable(scripts, chip).len() == 0,
    decreases scripts.len(),
{
    if scripts.len() > 0 {
        let rest = scripts.drop_last();
        assert forall|k: int| 0 <= k < rest.len() implies best_of(
            (#[trigger] rest[k]).chips,
            chip,
        ) is None by {
            assert(rest[k] == scripts[k]);
        }
        assert(best_of(scripts[scripts.len() - 1].chips, chip) is None);
        lemma_no_misfits(rest, chip);
    }
}

proof fn lemma_misfit(scripts: Seq<ScriptView>, chip: Seq<char>, i: int)
    requires
        0 <= i < scripts.len(),
        !scripts[i].prepare_only,
        best_of(scripts[i].chips, chip) is Some,
    ensures
        unusable(scripts, chip).contains(scripts[i].path),
    decreases scripts.len(),
{
    let rest = scripts.drop_last();
    let all = unusable(scripts, chip);
    if i == scripts.len() - 1 {
        assert(all.last() == scripts[i].path);
        assert(all[all.len() - 1] == scripts[i].path);
    } else {
        assert(rest[i] == scripts[i]);
        lemma_misfit(rest, chip, i);
        let before = unusable(rest, chip);
        let k = choose|k: int| 0 <= k < before.len() && before[k] == scripts[i].path;
        assert(all[k] == scripts[i].path);
    }
}

/// What stands before and behind an item of a list with commas.
proof fn lemma_listed(list: Seq<Seq<char>>, k: int) -> (parts: (Seq<char>, Seq<char>))
    requires
        0 <= k < list.len(),
    ensures
        comma_list(list) == parts.0 + list[k] + parts.1,
    decreases list.len(),
{
    let none = Seq::<char>::empty();
    if list.len() == 1 {
        assert(comma_list(list) =~= none + list[k] + none);
        (none, none)
    } else if k == list.len() - 1 {
        let front = comma_list(list.drop_last()) + ", "@;
        assert(comma_list(list) =~= front + list[k] + none);
        (front, none)
    } else {
        let (a, b) = lemma_listed(list.drop_last(), k);
        let back = b + ", "@ + list.last();
        assert(comma_list(list) =~= a + list[k] + back);
        (a, back)
    }
}

}
