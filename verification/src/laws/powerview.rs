//! How PowerView is configured, started and waited for.

use vstd::prelude::*;
use vstd::string::*;

use crate::config::{ConfigView, Known};
use crate::flash::lines_of;
use crate::laws::header::strung;
use crate::laws::split::strung_words_are_split;
use crate::laws::text::{is_blank_text, the_middle_stays};
use crate::powerview::{
    exit_complaint, file_complaint, start_after, toolbar_arguments, unready_complaint, wait_after,
    StartEvent, StartView, WaitEvent, WaitStage, WaitView,
};
use crate::t32config::{assigned, port_from, port_of, protocol_from, settings_in};
use crate::text::{
    decimal_round_trip, decimal_text, first_from, has_text, is_space, lemma_first_at, occurs_at,
    split_text, trimmed, uppercase,
};
use crate::world::{Found, QuestionView};

verus! {

/// A key and a value on both sides of the first equals sign are found, whatever the
/// white space around them and the case of the key.
pub proof fn assignments_are_read(
    a: Seq<char>,
    key: Seq<char>,
    b: Seq<char>,
    c: Seq<char>,
    value: Seq<char>,
    d: Seq<char>,
    wanted: Seq<char>,
)
    requires
        is_blank_text(a),
        is_blank_text(b),
        is_blank_text(c),
        is_blank_text(d),
        key.len() > 0 ==> !is_space(key[0]) && !is_space(key.last()),
        value.len() > 0 ==> !is_space(value[0]) && !is_space(value.last()),
        !key.contains('='),
    ensures
        uppercase(key) == wanted ==> assigned(a + key + b + seq!['='] + (c + value + d), wanted)
            == Some(value),
        uppercase(key) != wanted ==> assigned(
            a + key + b + seq!['='] + (c + value + d),
            wanted,
        ) is None,
{
    let head = a + key + b;
    let tail = c + value + d;
    let line = head + seq!['='] + tail;
    let n = head.len() as int;
    assert(line[n] == '=');
    assert forall|i: int| 0 <= i < n implies #[trigger] line[i] != '=' by {
        assert(line[i] == head[i]);
        if i < a.len() {
            assert(head[i] == a[i]);
            assert(is_space(a[i]));
        } else if i < a.len() + key.len() {
            assert(head[i] == key[i - a.len()]);
            assert(key.contains(key[i - a.len()]));
        } else {
            assert(head[i] == b[i - a.len() - key.len()]);
            assert(is_space(b[i - a.len() - key.len()]));
        }
    }
    lemma_first_at(line, '=', 0, n);
    assert(line.take(n) =~= head);
    assert(line.skip(n + 1) =~= tail);
    the_middle_stays(a, key, b);
    the_middle_stays(c, value, d);
}

/// A line without an equals sign assigns nothing.
pub proof fn other_lines_assign_nothing(line: Seq<char>, key: Seq<char>)
    requires
        !line.contains('='),
    ensures
        assigned(line, key) is None,
{
    lemma_no_first(line, '=', 0);
}

proof fn lemma_no_first(s: Seq<char>, c: char, at: int)
    requires
        0 <= at,
        !s.contains(c),
    ensures
        first_from(s, c, at) == -1,
    decreases s.len() - at,
{
    if at < s.len() {
        assert(s.contains(s[at]));
        lemma_no_first(s, c, at + 1);
    }
}

proof fn lemma_protocol(lines: Seq<Seq<char>>, at: int, hit: int)
    requires
        0 <= at <= hit < lines.len(),
        assigned(trimmed(lines[hit]), "RCL"@) is Some,
        forall|i: int| at <= i < hit ==> assigned(trimmed(#[trigger] lines[i]), "RCL"@) is None,
    ensures
        protocol_from(lines, at) == Some((hit, assigned(trimmed(lines[hit]), "RCL"@).unwrap())),
    decreases hit - at,
{
    if at < hit {
        lemma_protocol(lines, at + 1, hit);
    }
}

proof fn lemma_no_protocol(lines: Seq<Seq<char>>, at: int)
    requires
        0 <= at <= lines.len(),
        forall|i: int|
            at <= i < lines.len() ==> assigned(trimmed(#[trigger] lines[i]), "RCL"@) is None,
    ensures
        protocol_from(lines, at) is None,
    decreases lines.len() - at,
{
    if at < lines.len() {
        lemma_no_protocol(lines, at + 1);
    }
}

/// Whether a line gives a port: it is no comment and assigns one.
pub open spec fn gives_port(line: Seq<char>) -> bool {
    &&& trimmed(line).len() > 0
    &&& trimmed(line)[0] != ';'
    &&& assigned(trimmed(line), "PORT"@) is Some
}

proof fn lemma_port_kept(lines: Seq<Seq<char>>, at: int, end: int, port: Option<u16>)
    requires
        0 <= at <= end <= lines.len(),
        forall|i: int| at <= i < end ==> !gives_port(#[trigger] lines[i]),
        end < lines.len() ==> trimmed(lines[end]).len() == 0,
    ensures
        port_from(lines, at, port) == port,
    decreases end - at,
{
    if at < end {
        lemma_port_kept(lines, at + 1, end, port);
    }
}

proof fn lemma_port(lines: Seq<Seq<char>>, at: int, hit: int, end: int, port: Option<u16>)
    requires
        0 <= at <= hit < end <= lines.len(),
        forall|i: int| at <= i < end ==> trimmed(#[trigger] lines[i]).len() > 0,
        gives_port(lines[hit]),
        forall|i: int| hit < i < end ==> !gives_port(#[trigger] lines[i]),
        end < lines.len() ==> trimmed(lines[end]).len() == 0,
    ensures
        port_from(lines, at, port) == port_of(assigned(trimmed(lines[hit]), "PORT"@).unwrap()),
    decreases hit - at,
{
    assert(trimmed(lines[at]).len() > 0);
    if at < hit {
        lemma_port(lines, at + 1, hit, end, port);
        if gives_port(lines[at]) {
            lemma_port(
                lines,
                at + 1,
                hit,
                end,
                port_of(assigned(trimmed(lines[at]), "PORT"@).unwrap()),
            );
        }
    } else {
        lemma_port_kept(
            lines,
            hit + 1,
            end,
            port_of(assigned(trimmed(lines[hit]), "PORT"@).unwrap()),
        );
    }
}

/// The first line that assigns a protocol decides; the port is the one that is given
/// last between that line and the next empty one, and no comment gives one.
pub proof fn the_first_protocol_and_its_port_count(
    source: Seq<char>,
    first: int,
    given: int,
    end: int,
)
    requires
        0 <= first < given < end <= lines_of(source).len(),
        assigned(trimmed(lines_of(source)[first]), "RCL"@) is Some,
        forall|i: int|
            0 <= i < first ==> assigned(trimmed(#[trigger] lines_of(source)[i]), "RCL"@) is None,
        forall|i: int| first < i < end ==> trimmed(#[trigger] lines_of(source)[i]).len() > 0,
        end < lines_of(source).len() ==> trimmed(lines_of(source)[end]).len() == 0,
        gives_port(lines_of(source)[given]),
        forall|i: int| given < i < end ==> !gives_port(#[trigger] lines_of(source)[i]),
    ensures
        settings_in(source) matches Some(found) && Some(found.protocol) == assigned(
            trimmed(lines_of(source)[first]),
            "RCL"@,
        ) && found.port == port_of(assigned(trimmed(lines_of(source)[given]), "PORT"@).unwrap()),
{
    let lines = lines_of(source);
    lemma_protocol(lines, 0, first);
    lemma_port(lines, first + 1, given, end, None);
}

/// Without a port between the protocol and the next empty line there is none, though
/// a port may stand elsewhere.
pub proof fn other_ports_do_not_count(source: Seq<char>, first: int, end: int)
    requires
        0 <= first < end <= lines_of(source).len(),
        assigned(trimmed(lines_of(source)[first]), "RCL"@) is Some,
        forall|i: int|
            0 <= i < first ==> assigned(trimmed(#[trigger] lines_of(source)[i]), "RCL"@) is None,
        forall|i: int| first < i < end ==> !gives_port(#[trigger] lines_of(source)[i]),
        end < lines_of(source).len() ==> trimmed(lines_of(source)[end]).len() == 0,
    ensures
        settings_in(source) matches Some(found) && found.port is None,
{
    let lines = lines_of(source);
    lemma_protocol(lines, 0, first);
    lemma_port_kept(lines, first + 1, end, None);
}

/// Without a line that assigns a protocol there are no settings.
pub proof fn no_protocol_means_no_settings(source: Seq<char>)
    requires
        forall|i: int|
            0 <= i < lines_of(source).len() ==> assigned(
                trimmed(#[trigger] lines_of(source)[i]),
                "RCL"@,
            ) is None,
    ensures
        settings_in(source) is None,
{
    lemma_no_protocol(lines_of(source), 0);
}

/// The digits of a port are read as that port, and those of a greater number as
/// none.
pub proof fn ports_are_read_back(n: nat)
    ensures
        n <= 65535 ==> port_of(decimal_text(n)) == Some(n as u16),
        n > 65535 ==> port_of(decimal_text(n)) is None,
{
    decimal_round_trip(n);
    assert(decimal_text(n)[0] != '+');
}

/// Waiting succeeds only with an answer of the remote control, and fails only when
/// the process exits with a failure or the time is over; the complaint then names
/// the exit code or the port.
pub proof fn waiting_ends_for_a_reason(
    wait: WaitView,
    event: WaitEvent,
    config: ConfigView,
    log: Seq<char>,
)
    ensures
        match wait_after(wait, event, config, log).1 {
            Some(Ok(())) => wait.stage == WaitStage::Verify && (event matches WaitEvent::Verified(
                result,
            ) && result is Ok),
            Some(Err(error)) => {
                ||| (wait.stage == WaitStage::Process && (event matches WaitEvent::Exit(Some(code))
                    && code != 0 && error == exit_complaint(code, log)))
                ||| (wait.stage == WaitStage::Clock && (event matches WaitEvent::Time(now) && now
                    > wait.deadline && error == unready_complaint(wait, config, log)))
            },
            None => {
                &&& wait.stage == WaitStage::Verify ==> (event matches WaitEvent::Verified(result)
                    ==> result is Err)
                &&& wait.stage == WaitStage::Process ==> (event matches WaitEvent::Exit(Some(code))
                    ==> code == 0)
                &&& wait.stage == WaitStage::Clock ==> (event matches WaitEvent::Time(now) ==> now
                    <= wait.deadline)
            },
        },
{
}

/// The deadline is set once, to the given time after the beginning, and kept from
/// then on.
pub proof fn deadlines_are_kept(
    wait: WaitView,
    event: WaitEvent,
    config: ConfigView,
    log: Seq<char>,
)
    ensures
        wait_after(wait, event, config, log).0.timeout == wait.timeout,
        wait.stage != WaitStage::Begin ==> wait_after(wait, event, config, log).0.deadline
            == wait.deadline && wait_after(wait, event, config, log).0.stage != WaitStage::Begin,
        wait.stage == WaitStage::Begin ==> (event matches WaitEvent::Time(now) ==> now
            + wait.timeout <= u64::MAX ==> wait_after(wait, event, config, log).0.deadline == now
            + wait.timeout),
        wait.stage == WaitStage::Begin ==> (event matches WaitEvent::Time(now) ==> now
            + wait.timeout > u64::MAX ==> wait_after(wait, event, config, log).0.deadline
            == u64::MAX),
{
}

/// While waiting, the time, the process, the port and the remote control are looked
/// at in turn: a closed port and a failed answer lead to a pause, and a pause back to
/// the time. What an answer complained of last is remembered, and so is that the
/// launcher has exited.
pub proof fn waiting_goes_round(wait: WaitView, event: WaitEvent, config: ConfigView, log: Seq<char>)
    requires
        wait_after(wait, event, config, log).1 is None,
        wait_after(wait, event, config, log).0 != wait,
    ensures
        ({
            let after = wait_after(wait, event, config, log).0;
            &&& after.stage == WaitStage::Process ==> wait.stage == WaitStage::Clock
            &&& after.stage == WaitStage::Port ==> wait.stage == WaitStage::Process
            &&& after.stage == WaitStage::Verify ==> wait.stage == WaitStage::Port && event
                == WaitEvent::Port(true)
            &&& after.stage == WaitStage::Pause ==> {
                ||| (wait.stage == WaitStage::Port && event == WaitEvent::Port(false))
                ||| wait.stage == WaitStage::Verify
            }
            &&& after.stage == WaitStage::Clock ==> {
                ||| wait.stage == WaitStage::Pause
                ||| wait.stage == WaitStage::Begin
            }
            &&& match event {
                WaitEvent::Verified(Err(error)) => after.last_error == Some(error@),
                _ => after.last_error == wait.last_error,
            }
            &&& after.launcher_exited == (wait.launcher_exited || event == WaitEvent::Exit(Some(0)))
        }),
{
}

/// What is asked for is always taken in: an event that fits the stage ends the wait
/// or leads on.
pub proof fn answers_lead_on(wait: WaitView, event: WaitEvent, config: ConfigView, log: Seq<char>)
    requires
        match wait.stage {
            WaitStage::Begin | WaitStage::Clock => event is Time,
            WaitStage::Process => event is Exit,
            WaitStage::Port => event is Port,
            WaitStage::Verify => event is Verified,
            WaitStage::Pause => event is Paused,
        },
    ensures
        wait_after(wait, event, config, log).1 is Some || wait_after(
            wait,
            event,
            config,
            log,
        ).0.stage != wait.stage,
{
}

/// The complaints while waiting name what a user needs to look at.
pub proof fn complaints_name_the_port_and_the_log(
    wait: WaitView,
    config: ConfigView,
    log: Seq<char>,
    error: Seq<char>,
)
    ensures
        has_text(
            unready_complaint(wait, config, log),
            "RCL port "@ + decimal_text(config.rcl_port as nat),
        ),
        has_text(unready_complaint(wait, config, log), config.t32_config),
        has_text(unready_complaint(wait, config, log), log),
        wait.last_error == Some(error) ==> has_text(unready_complaint(wait, config, log), error),
        has_text(unready_complaint(wait, config, log), "the launcher exited"@)
            || !wait.launcher_exited,
{
    reveal_strlit("PowerView did not become ready on RCL port ");
    reveal_strlit("RCL port ");
    reveal_strlit(" (the launcher exited successfully, but RCL never became ready)");
    reveal_strlit("the launcher exited");
    reveal_strlit("");
    reveal_strlit(": ");
    reveal_strlit("; check RCL=NETTCP in ");
    reveal_strlit(" and ");
    let all = unready_complaint(wait, config, log);
    let digits = decimal_text(config.rcl_port as nat);
    let first = "PowerView did not become ready on RCL port "@ + digits;
    let exited = if wait.launcher_exited {
        " (the launcher exited successfully, but RCL never became ready)"@
    } else {
        ""@
    };
    let cause = match wait.last_error {
        Some(error) => ": "@ + error,
        None => ""@,
    };
    let head = first + exited;
    let before = head + cause;
    let middle = before + "; check RCL=NETTCP in "@;
    let n = ("PowerView did not become ready on RCL port "@.len() - "RCL port "@.len()) as int;
    assert(all.subrange(n, n + ("RCL port "@ + digits).len()) =~= "RCL port "@ + digits);
    assert(occurs_at(all, "RCL port "@ + digits, n));
    let m = middle.len() as int;
    assert(all.subrange(m, m + config.t32_config.len()) =~= config.t32_config);
    assert(occurs_at(all, config.t32_config, m));
    assert(all.subrange(all.len() - log.len(), all.len() as int) =~= log);
    assert(occurs_at(all, log, all.len() - log.len()));
    if wait.last_error == Some(error) {
        let k = head.len() as int + 2;
        assert(all.subrange(k, k + error.len()) =~= error);
        assert(occurs_at(all, error, k));
    }
    if wait.launcher_exited {
        let k = first.len() as int + 2;
        assert(all.subrange(k, k + "the launcher exited"@.len())
            =~= "the launcher exited"@);
        assert(occurs_at(all, "the launcher exited"@, k));
    }
}

/// A start ends well only with a PowerView that answers: one that ran before, or a new
/// one with its toolbar. Every failure that an event brings ends it.
pub proof fn starting_ends_for_a_reason(
    stage: StartView,
    event: StartEvent,
    config: ConfigView,
    log: Seq<char>,
)
    ensures
        match start_after(stage, event, config, log).1 {
            Some(Ok(false)) => stage == StartView::Verify && (event matches StartEvent::Verified(
                result,
            ) && result is Ok),
            Some(Ok(true)) => stage == StartView::Toolbar && (event matches StartEvent::Installed(
                result,
            ) && result is Ok),
            Some(Err(error)) => match event {
                StartEvent::Verified(Err(cause)) => stage == StartView::Verify,
                StartEvent::Prepared(Err(cause)) => stage == StartView::Prepare && error == cause@,
                StartEvent::Spawned(Err(cause)) => stage == StartView::Spawn && error == cause@,
                StartEvent::Installed(Err(cause)) => stage == StartView::Toolbar && error
                    == cause@,
                StartEvent::Waited(inner) => stage matches StartView::Wait(wait) && wait_after(
                    wait,
                    inner,
                    config,
                    log,
                ).1 == Some(Err::<(), _>(error)),
                _ => false,
            },
            None => match event {
                StartEvent::Verified(_) => stage != StartView::Verify,
                StartEvent::Prepared(Err(_)) => stage != StartView::Prepare,
                StartEvent::Spawned(Err(_)) => stage != StartView::Spawn,
                StartEvent::Installed(_) => stage != StartView::Toolbar,
                StartEvent::Waited(inner) => stage matches StartView::Wait(wait) ==> !(wait_after(
                    wait,
                    inner,
                    config,
                    log,
                ).1 matches Some(Err(_))),
                _ => true,
            },
        },
{
}

/// A new PowerView is prepared for, started, waited for and given its toolbar, in
/// this order, and only where the port was closed. Waiting begins anew, with two
/// minutes.
pub proof fn starting_keeps_its_order(
    stage: StartView,
    event: StartEvent,
    config: ConfigView,
    log: Seq<char>,
)
    requires
        start_after(stage, event, config, log).1 is None,
        start_after(stage, event, config, log).0 != stage,
    ensures
        match start_after(stage, event, config, log).0 {
            StartView::Probe => false,
            StartView::Verify => stage == StartView::Probe && event == StartEvent::Port(true),
            StartView::Prepare => stage == StartView::Probe && event == StartEvent::Port(false),
            StartView::Spawn => stage == StartView::Prepare,
            StartView::Wait(after) => match stage {
                StartView::Spawn => after.stage == WaitStage::Begin && after.timeout == 120_000
                    && after.last_error is None && !after.launcher_exited,
                StartView::Wait(wait) => event matches StartEvent::Waited(inner) && after
                    == wait_after(wait, inner, config, log).0,
                _ => false,
            },
            StartView::Toolbar => stage matches StartView::Wait(wait) && (event
                matches StartEvent::Waited(inner) && wait_after(wait, inner, config, log).1 == Some(
                Ok::<_, Seq<char>>(()),
            )),
        },
{
}

/// A file that is needed is complained of exactly if it is not there, or is not
/// executable though it has to be; its path is named.
pub proof fn missing_files_are_complained_of(
    path: Seq<char>,
    description: Seq<char>,
    executable: bool,
    world: Known,
)
    requires
        world.contains_key(QuestionView::File(path)),
        world.contains_key(QuestionView::Executable(path)),
    ensures
        file_complaint(path, description, executable, world) matches Found::Found(complaint) && {
            &&& complaint is Some <==> {
                ||| world[QuestionView::File(path)] is None
                ||| executable && world[QuestionView::Executable(path)] is None
            }
            &&& complaint matches Some(text) ==> has_text(text, path) && has_text(
                text,
                description,
            )
        },
{
    let gone = description + " not found: "@ + path;
    let locked = description + " not executable: "@ + path;
    assert(gone.subrange(0, description.len() as int) =~= description);
    assert(occurs_at(gone, description, 0));
    assert(gone.subrange(gone.len() - path.len(), gone.len() as int) =~= path);
    assert(occurs_at(gone, path, gone.len() - path.len()));
    assert(locked.subrange(0, description.len() as int) =~= description);
    assert(occurs_at(locked, description, 0));
    assert(locked.subrange(locked.len() - path.len(), locked.len() as int) =~= path);
    assert(occurs_at(locked, path, locked.len() - path.len()));
}

/// The toolbar script gets the executable and the configuration, each between
/// quotation marks of its own.
pub proof fn toolbars_get_the_executable_and_the_file(
    script: Seq<char>,
    exe: Seq<char>,
    file: Seq<char>,
)
    requires
        !script.contains('"'),
        !exe.contains('"'),
        !file.contains('"'),
    ensures
        split_text(toolbar_arguments(script, exe, file), seq!['"']) == seq![
            Seq::<char>::empty(),
            script,
            seq![' '],
            exe,
            seq![' '],
            file,
            Seq::<char>::empty(),
        ],
{
    reveal_strlit("\"");
    reveal_strlit("\" \"");
    let empty = Seq::<char>::empty();
    let words = seq![empty, script, seq![' '], exe, seq![' '], file, empty];
    assert forall|i: int| 0 <= i < words.len() implies !(#[trigger] words[i]).contains('"') by {
        if i == 2 || i == 4 {
            assert(words[i] =~= seq![' ']);
        }
    }
    strung_words_are_split(words, '"');
    let six = words.drop_last();
    let five = six.drop_last();
    let four = five.drop_last();
    let three = four.drop_last();
    let two = three.drop_last();
    let one = two.drop_last();
    assert(one.len() == 1 && one[0] == empty);
    assert(strung(one, '"') == empty);
    assert(strung(two, '"') =~= seq!['"'] + script);
    assert(strung(three, '"') =~= seq!['"'] + script + seq!['"', ' ']);
    assert(strung(four, '"') =~= seq!['"'] + script + seq!['"', ' ', '"'] + exe);
    assert(strung(five, '"') =~= seq!['"'] + script + seq!['"', ' ', '"'] + exe + seq!['"', ' ']);
    assert(strung(six, '"') =~= seq!['"'] + script + seq!['"', ' ', '"'] + exe + seq![
        '"',
        ' ',
        '"',
    ] + file);
    assert(strung(words, '"') =~= toolbar_arguments(script, exe, file));
}

/// A plus sign before the digits of a port changes nothing, and no other sign may
/// stand there.
pub proof fn ports_may_have_a_plus_sign(n: u16)
    ensures
        port_of(seq!['+'] + decimal_text(n as nat)) == Some(n),
        port_of(seq!['-'] + decimal_text(n as nat)) is None,
{
    let d = decimal_text(n as nat);
    decimal_round_trip(n as nat);
    assert((seq!['+'] + d).skip(1) =~= d);
    let negative = seq!['-'] + d;
    assert(negative[0] == '-');
    assert(crate::text::digit_of('-', 10) is None);
}

}
