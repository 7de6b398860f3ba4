//! A shared run configuration for JetBrains IDEs with the LSP4IJ plugin, which
//! starts the adapter and connects to the address in its ready line.

use vstd::prelude::*;
use vstd::string::*;

use crate::config::{Config, ConfigView};
use crate::dap::proxy::{ready_line, LOG_PREFIX};
use crate::pycompat::{words_from, words_of, Quote};
use crate::text::{
    chars_of, concat3, concat5, decimal, decimal_round_trip, decimal_text, is_digits, push_chars,
    str_view, string_of,
};

verus! {

/// The name of the file with the run configuration.
pub const RUN_CONFIGURATION: &'static str = "TRACE32 Attach.run.xml";

/// A character of an XML attribute value.
pub open spec fn xml_char(c: char) -> Seq<char> {
    if c == '&' {
        "&amp;"@
    } else if c == '<' {
        "&lt;"@
    } else if c == '>' {
        "&gt;"@
    } else if c == '"' {
        "&quot;"@
    } else if c == '\n' {
        "&#10;"@
    } else {
        seq![c]
    }
}

/// A text as the value of an XML attribute.
pub open spec fn xml_text(s: Seq<char>) -> Seq<char>
    decreases s.len(),
{
    if s.len() == 0 {
        seq![]
    } else {
        xml_text(s.drop_last()) + xml_char(s.last())
    }
}

/// Escapes a text for the value of an XML attribute.
pub fn xml_escape(text: &str) -> (result: String)
    ensures
        result@ == xml_text(text@),
{
    let s = chars_of(text);
    let mut out: Vec<char> = Vec::new();
    let mut i: usize = 0;
    assert(out@ =~= xml_text(s@.take(0)));
    while i < s.len()
        invariant
            i <= s@.len(),
            s@ == text@,
            out@ == xml_text(s@.take(i as int)),
        decreases s@.len() - i,
    {
        assert(s@.take(i as int + 1).drop_last() =~= s@.take(i as int));
        let c: char = s[i];
        if c == '&' {
            push_chars(&mut out, &chars_of("&amp;"));
        } else if c == '<' {
            push_chars(&mut out, &chars_of("&lt;"));
        } else if c == '>' {
            push_chars(&mut out, &chars_of("&gt;"));
        } else if c == '"' {
            push_chars(&mut out, &chars_of("&quot;"));
        } else if c == '\n' {
            push_chars(&mut out, &chars_of("&#10;"));
        } else {
            out.push(c);
            assert(out@ =~= xml_text(s@.take(i as int)) + seq![c]);
        }
        i = i + 1;
    }
    assert(s@.take(i as int) =~= s@);
    string_of(&out)
}

/// An escaped text ends no attribute value and begins no tag.
pub proof fn escaped_text_is_safe(s: Seq<char>)
    ensures
        forall|i: int|
            0 <= i < xml_text(s).len() ==> #[trigger] xml_text(s)[i] != '"' && xml_text(s)[i]
                != '<' && xml_text(s)[i] != '>' && xml_text(s)[i] != '\n',
    decreases s.len(),
{
    reveal_strlit("&amp;");
    reveal_strlit("&lt;");
    reveal_strlit("&gt;");
    reveal_strlit("&quot;");
    reveal_strlit("&#10;");
    if s.len() > 0 {
        escaped_text_is_safe(s.drop_last());
        let head = xml_text(s.drop_last());
        let tail = xml_char(s.last());
        assert forall|i: int| 0 <= i < xml_text(s).len() implies #[trigger] xml_text(s)[i] != '"'
            && xml_text(s)[i] != '<' && xml_text(s)[i] != '>' && xml_text(s)[i] != '\n' by {
            if i < head.len() {
                assert(xml_text(s)[i] == head[i]);
            } else {
                assert(xml_text(s)[i] == tail[i - head.len()]);
            }
        }
    }
}

/// Whether a character needs no quotation marks in a command line.
pub open spec fn is_plain_char(c: char) -> bool {
    ('a' <= c && c <= 'z') || ('A' <= c && c <= 'Z') || ('0' <= c && c <= '9') || c == '/' || c
        == '.' || c == '_' || c == '-' || c == '+' || c == ':' || c == '=' || c == '@' || c == '%'
        || c == ','
}

/// Whether an argument needs no quotation marks in a command line.
pub open spec fn is_plain_argument(s: Seq<char>) -> bool {
    s.len() > 0 && forall|i: int| 0 <= i < s.len() ==> is_plain_char(#[trigger] s[i])
}

/// A character between quotation marks in a command line.
pub open spec fn quoted_char(c: char) -> Seq<char> {
    if c == '\\' || c == '"' {
        seq!['\\', c]
    } else {
        seq![c]
    }
}

/// A text between quotation marks in a command line.
pub open spec fn quoted_text(s: Seq<char>) -> Seq<char>
    decreases s.len(),
{
    if s.len() == 0 {
        seq![]
    } else {
        quoted_text(s.drop_last()) + quoted_char(s.last())
    }
}

/// An argument in a command line.
pub open spec fn quoted(s: Seq<char>) -> Seq<char> {
    if is_plain_argument(s) {
        s
    } else {
        seq!['"'] + quoted_text(s) + seq!['"']
    }
}

fn plain_argument(s: &[char]) -> (result: bool)
    ensures
        result == is_plain_argument(s@),
{
    if s.len() == 0 {
        return false;
    }
    let mut i: usize = 0;
    while i < s.len()
        invariant
            i <= s@.len(),
            s@.len() > 0,
            forall|j: int| 0 <= j < i ==> is_plain_char(#[trigger] s@[j]),
        decreases s@.len() - i,
    {
        let c: char = s[i];
        let plain = ('a' <= c && c <= 'z') || ('A' <= c && c <= 'Z') || ('0' <= c && c <= '9') || c
            == '/' || c == '.' || c == '_' || c == '-' || c == '+' || c == ':' || c == '=' || c
            == '@' || c == '%' || c == ',';
        if !plain {
            assert(!is_plain_char(s@[i as int]));
            return false;
        }
        i = i + 1;
    }
    true
}

/// Quotes an argument for a command line, where that is needed.
pub fn quote(argument: &str) -> (result: String)
    ensures
        result@ == quoted(argument@),
{
    let s = chars_of(argument);
    if plain_argument(&s) {
        return argument.to_owned();
    }
    let mut out: Vec<char> = Vec::new();
    out.push('"');
    let mut i: usize = 0;
    assert(out@ =~= seq!['"'] + quoted_text(s@.take(0)));
    while i < s.len()
        invariant
            i <= s@.len(),
            s@ == argument@,
            out@ == seq!['"'] + quoted_text(s@.take(i as int)),
        decreases s@.len() - i,
    {
        assert(s@.take(i as int + 1).drop_last() =~= s@.take(i as int));
        if s[i] == '\\' || s[i] == '"' {
            out.push('\\');
        }
        out.push(s[i]);
        i = i + 1;
        assert(out@ =~= seq!['"'] + quoted_text(s@.take(i as int)));
    }
    assert(s@.take(i as int) =~= s@);
    out.push('"');
    assert(out@ =~= seq!['"'] + quoted_text(s@) + seq!['"']);
    string_of(&out)
}

proof fn lemma_plain_word(
    s: Seq<char>,
    at: int,
    words: Seq<Seq<char>>,
    argument: Seq<char>,
    done: int,
)
    requires
        0 <= at,
        0 <= done <= argument.len(),
        at + argument.len() <= s.len(),
        s.subrange(at, at + argument.len()) == argument,
        forall|i: int| 0 <= i < argument.len() ==> is_plain_char(#[trigger] argument[i]),
        done > 0,
    ensures
        words_from(s, at + done, words, Some(argument.take(done)), Quote::Open) == words_from(
            s,
            at + argument.len(),
            words,
            Some(argument),
            Quote::Open,
        ),
    decreases argument.len() - done,
{
    if done < argument.len() {
        assert(s[at + done] == s.subrange(at, at + argument.len())[done]);
        assert(is_plain_char(argument[done]));
        assert(argument.take(done).push(argument[done]) =~= argument.take(done + 1));
        lemma_plain_word(s, at, words, argument, done + 1);
    } else {
        assert(argument.take(done) =~= argument);
    }
}

proof fn lemma_quoted_word(
    s: Seq<char>,
    at: int,
    words: Seq<Seq<char>>,
    argument: Seq<char>,
    done: int,
)
    requires
        0 <= at,
        0 <= done <= argument.len(),
        at + quoted_text(argument).len() <= s.len(),
        s.subrange(at, at + quoted_text(argument).len()) == quoted_text(argument),
    ensures
        words_from(
            s,
            at + quoted_text(argument.take(done)).len(),
            words,
            Some(argument.take(done)),
            Quote::Double,
        ) == words_from(
            s,
            at + quoted_text(argument).len(),
            words,
            Some(argument),
            Quote::Double,
        ),
    decreases argument.len() - done,
{
    if done == argument.len() {
        assert(argument.take(done) =~= argument);
    } else {
        let c = argument[done];
        let here = argument.take(done);
        let next = argument.take(done + 1);
        assert(next.drop_last() =~= here);
        assert(here.push(c) =~= next);
        let offset = quoted_text(here).len() as int;
        lemma_quoted_prefix(argument, done + 1);
        let whole = quoted_text(argument);
        let part = quoted_char(c);
        assert forall|i: int| 0 <= i < part.len() implies s[at + offset + i] == part[i] by {
            assert(s[at + offset + i] == s.subrange(at, at + whole.len())[offset + i]);
            assert(whole[offset + i] == quoted_text(next)[offset + i]);
        }
        assert(s[at + offset] == part[0]);
        if c == '\\' || c == '"' {
            assert(s[at + offset + 1] == part[1]);
        }
        lemma_quoted_word(s, at, words, argument, done + 1);
    }
}

proof fn lemma_quoted_prefix(s: Seq<char>, n: int)
    requires
        0 <= n <= s.len(),
    ensures
        quoted_text(s.take(n)).is_prefix_of(quoted_text(s)),
    decreases s.len() - n,
{
    if n == s.len() {
        assert(s.take(n) =~= s);
    } else {
        lemma_quoted_prefix(s, n + 1);
        assert(s.take(n + 1).drop_last() =~= s.take(n));
        let a = quoted_text(s.take(n));
        let b = quoted_text(s.take(n + 1));
        let c = quoted_text(s);
        assert(a =~= b.subrange(0, a.len() as int));
        assert(a =~= c.subrange(0, a.len() as int)) by {
            assert forall|i: int| 0 <= i < a.len() implies a[i] == c[i] by {
                assert(a[i] == b[i]);
                assert(b[i] == c.subrange(0, b.len() as int)[i]);
            }
        }
    }
}

proof fn lemma_argument_is_read(
    s: Seq<char>,
    at: int,
    words: Seq<Seq<char>>,
    argument: Seq<char>,
)
    requires
        0 <= at,
        at + quoted(argument).len() <= s.len(),
        s.subrange(at, at + quoted(argument).len()) == quoted(argument),
    ensures
        words_from(s, at, words, None, Quote::Open) == words_from(
            s,
            at + quoted(argument).len(),
            words,
            Some(argument),
            Quote::Open,
        ),
{
    let q = quoted(argument);
    if is_plain_argument(argument) {
        assert(s[at] == s.subrange(at, at + q.len())[0]);
        assert(is_plain_char(argument[0]));
        assert(Seq::<char>::empty().push(argument[0]) =~= argument.take(1));
        lemma_plain_word(s, at, words, argument, 1);
    } else {
        let inner = quoted_text(argument);
        assert(s[at] == s.subrange(at, at + q.len())[0]);
        assert(s.subrange(at + 1, at + 1 + inner.len()) =~= inner) by {
            assert forall|i: int| 0 <= i < inner.len() implies s[at + 1 + i] == inner[i] by {
                assert(s[at + 1 + i] == s.subrange(at, at + q.len())[i + 1]);
            }
        }
        lemma_quoted_word(s, at + 1, words, argument, 0);
        assert(argument.take(0) =~= seq![]);
        assert(quoted_text(argument.take(0)).len() == 0);
        let end = at + 1 + inner.len();
        assert(s[end] == s.subrange(at, at + q.len())[inner.len() as int + 1]);
        assert(words_from(s, at, words, None, Quote::Open) == words_from(
            s,
            at + 1,
            words,
            Some(seq![]),
            Quote::Double,
        ));
        assert(words_from(s, end, words, Some(argument), Quote::Double) == words_from(
            s,
            end + 1,
            words,
            Some(argument),
            Quote::Open,
        ));
    }
}

/// Whatever an argument holds, a quoted argument is read back as that argument,
/// alone.
pub proof fn quoted_argument_is_read_back(argument: Seq<char>)
    ensures
        words_of(quoted(argument)) == Ok::<_, Seq<char>>(seq![argument]),
{
    let q = quoted(argument);
    assert(q.subrange(0, q.len() as int) =~= q);
    lemma_argument_is_read(q, 0, seq![], argument);
    assert(Seq::<Seq<char>>::empty().push(argument) =~= seq![argument]);
}

/// The command line that starts the adapter.
pub open spec fn adapter_command(exe: Seq<char>, config_file: Seq<char>) -> Seq<char> {
    quoted(exe) + " --config "@ + quoted(config_file) + " adapter"@
}

/// The command line that starts the adapter is split into the executable, the
/// configuration and the command, whatever the two paths hold.
pub proof fn adapter_command_is_read_back(exe: Seq<char>, config_file: Seq<char>)
    ensures
        words_of(adapter_command(exe, config_file)) == Ok::<_, Seq<char>>(
            seq![exe, "--config"@, config_file, "adapter"@],
        ),
{
    let s = adapter_command(exe, config_file);
    let a = quoted(exe);
    let b = quoted(config_file);
    reveal_strlit(" --config ");
    reveal_strlit("--config");
    reveal_strlit(" adapter");
    reveal_strlit("adapter");
    let option = "--config"@;
    let command = "adapter"@;
    let one = a.len() as int;
    assert(s.subrange(0, one) =~= a);
    lemma_argument_is_read(s, 0, seq![], exe);
    assert(s[one] == ' ');
    let first = seq![exe];
    assert(Seq::<Seq<char>>::empty().push(exe) =~= first);
    assert(words_from(s, 0, seq![], None, Quote::Open) == words_from(
        s,
        one + 1,
        first,
        None,
        Quote::Open,
    ));
    assert(is_plain_argument(option));
    assert(s.subrange(one + 1, one + 9) =~= option);
    lemma_argument_is_read(s, one + 1, first, option);
    assert(s[one + 9] == ' ');
    let second = first.push(option);
    let two = one + 10;
    assert(s.subrange(two, two + b.len()) =~= b);
    lemma_argument_is_read(s, two, second, config_file);
    let three = two + b.len();
    assert(s[three] == ' ');
    let third = second.push(config_file);
    assert(is_plain_argument(command));
    assert(s.subrange(three + 1, three + 8) =~= command);
    lemma_argument_is_read(s, three + 1, third, command);
    assert(s.len() == three + 8);
    assert(third.push(command) =~= seq![exe, option, config_file, command]);
}

/// What the IDE waits for: its fixed text, then an address, a colon and a port.
pub const READY_PATTERN: &'static str = "[tracebridge] adapter listening on ${address}:${port}";

/// One option of the run configuration.
pub open spec fn option_line(name: Seq<char>, value: Seq<char>) -> Seq<char> {
    "    <option name=\""@ + name + "\" value=\""@ + xml_text(value) + "\" />\n"@
}

/// The parameters with which the IDE attaches.
pub open spec fn attach_parameters(config: ConfigView) -> Seq<char> {
    "{\n  \"type\": \"node\",\n  \"request\": \"attach\",\n  \"trace32Node\": \"localhost\",\n  \"trace32Port\": "@
        + decimal_text(config.rcl_port as nat) + "\n}"@
}

/// The files in which the IDE allows breakpoints.
pub open spec fn mapping_lines() -> Seq<char> {
    "            <option value=\"*.c\" />\n            <option value=\"*.h\" />\n            <option value=\"*.cpp\" />\n            <option value=\"*.hpp\" />\n            <option value=\"*.cc\" />\n            <option value=\"*.s\" />\n            <option value=\"*.S\" />\n            <option value=\"*.rs\" />\n"@
}

/// The run configuration.
pub open spec fn rendered(config: ConfigView, exe: Seq<char>) -> Seq<char> {
    "<component name=\"ProjectRunConfigurationManager\">\n  <configuration default=\"false\" name=\"TRACE32: Attach\" type=\"DAPConfiguration\" factoryName=\"DAPConfiguration\">\n"@
        + option_line("serverName"@, "tracebridge"@) + option_line(
        "command"@,
        adapter_command(exe, config.config_file),
    ) + option_line("workingDirectory"@, config.project_dir) + option_line(
        "debugMode"@,
        "LAUNCH"@,
    ) + option_line("debugServerWaitStrategy"@, "TRACE"@) + option_line(
        "debugServerReadyPattern"@,
        READY_PATTERN@,
    ) + option_line(
        "connectTimeout"@,
        decimal_text((config.dap_backend_timeout * 1000 + 5000) as nat),
    ) + option_line("launchConfiguration"@, attach_parameters(config))
        + "    <option name=\"serverMappings\">\n      <list>\n        <ServerMappingSettings>\n          <fileType>\n"@
        + mapping_lines()
        + "          </fileType>\n        </ServerMappingSettings>\n      </list>\n    </option>\n"@
        + "    <method v=\"2\" />\n  </configuration>\n</component>\n"@
}

fn option(name: &str, value: &str) -> (line: String)
    ensures
        line@ == option_line(name@, value@),
{
    concat5("    <option name=\"", name, "\" value=\"", &xml_escape(value), "\" />\n")
}

/// Renders the run configuration.
pub fn render(config: &Config, exe: &str) -> (xml: String)
    ensures
        xml@ == rendered(config@, exe@),
{
    let mut command = concat3(&quote(exe), " --config ", &quote(&config.config_file));
    command.append(" adapter");
    let parameters = concat3(
        "{\n  \"type\": \"node\",\n  \"request\": \"attach\",\n  \"trace32Node\": \"localhost\",\n  \"trace32Port\": ",
        &decimal(config.rcl_port as u128),
        "\n}",
    );
    let timeout: u128 = config.dap_backend_timeout as u128 * 1000 + 5000;
    let mut xml = String::from_str(
        "<component name=\"ProjectRunConfigurationManager\">\n  <configuration default=\"false\" name=\"TRACE32: Attach\" type=\"DAPConfiguration\" factoryName=\"DAPConfiguration\">\n",
    );
    xml.append(&option("serverName", "tracebridge"));
    xml.append(&option("command", &command));
    xml.append(&option("workingDirectory", &config.project_dir));
    xml.append(&option("debugMode", "LAUNCH"));
    xml.append(&option("debugServerWaitStrategy", "TRACE"));
    xml.append(
        &option(
            "debugServerReadyPattern",
            READY_PATTERN,
        ),
    );
    xml.append(&option("connectTimeout", &decimal(timeout)));
    xml.append(&option("launchConfiguration", &parameters));
    xml.append(
        "    <option name=\"serverMappings\">\n      <list>\n        <ServerMappingSettings>\n          <fileType>\n",
    );
    xml.append(
        "            <option value=\"*.c\" />\n            <option value=\"*.h\" />\n            <option value=\"*.cpp\" />\n            <option value=\"*.hpp\" />\n            <option value=\"*.cc\" />\n            <option value=\"*.s\" />\n            <option value=\"*.S\" />\n            <option value=\"*.rs\" />\n",
    );
    xml.append(
        "          </fileType>\n        </ServerMappingSettings>\n      </list>\n    </option>\n",
    );
    xml.append("    <method v=\"2\" />\n  </configuration>\n</component>\n");
    xml
}

/// What installing a file comes to.
#[derive(Debug, Clone, Copy, PartialEq, Eq, Structural)]
pub enum Installation {
    /// The file is there with the same content.
    Unchanged,
    /// The file is there with another content and is kept as a backup.
    Replace,
    /// The file is not there.
    Create,
}

/// What installing a file comes to, where there is one or not and its text is known
/// or not.
pub open spec fn installation(
    exists: bool,
    current: Option<Seq<char>>,
    contents: Seq<char>,
) -> Installation {
    if !exists {
        Installation::Create
    } else if current == Some(contents) {
        Installation::Unchanged
    } else {
        Installation::Replace
    }
}

/// Decides what installing a file comes to; a file that cannot be read as text
/// counts as a different one.
pub fn plan_installation(exists: bool, current: Option<&str>, contents: &str) -> (plan: Installation)
    ensures
        plan == installation(exists, str_view(current), contents@),
{
    if !exists {
        return Installation::Create;
    }
    match current {
        Some(text) => if crate::text::same(text, contents) {
            Installation::Unchanged
        } else {
            Installation::Replace
        },
        None => Installation::Replace,
    }
}

/// Whether a character can stand in the address that the IDE reads: a word
/// character or a dot.
pub open spec fn is_address_char(c: char) -> bool {
    ('a' <= c && c <= 'z') || ('A' <= c && c <= 'Z') || ('0' <= c && c <= '9') || c == '_' || c
        == '.'
}

/// Whether a line fits the pattern that the IDE waits for: it begins with the fixed
/// text of the pattern, the address and the port follow where the pattern has them,
/// and the port ends where the digits end.
pub open spec fn fits_ready_pattern(line: Seq<char>, address: Seq<char>, port: Seq<char>) -> bool {
    exists|fixed: Seq<char>, rest: Seq<char>|
        {
            &&& READY_PATTERN@ == fixed + "${address}"@ + ":"@ + "${port}"@
            &&& line == #[trigger] (fixed + address + ":"@ + port + rest)
            &&& rest.len() > 0 ==> !('0' <= rest[0] && rest[0] <= '9')
        }
}

/// The line with which the proxy says that it is ready is the one that the run
/// configuration waits for: the IDE reads the address and the port of the proxy.
pub proof fn ready_line_fits_run_configuration(port: u16, backend_port: u16)
    ensures
        fits_ready_pattern(
            ready_line(port, backend_port),
            "127.0.0.1"@,
            decimal_text(port as nat),
        ),
        forall|i: int|
            0 <= i < "127.0.0.1"@.len() ==> is_address_char(#[trigger] "127.0.0.1"@[i]),
        is_digits(decimal_text(port as nat), 10),
{
    reveal_strlit("[tracebridge] adapter listening on ${address}:${port}");
    reveal_strlit("[tracebridge] adapter listening on ");
    reveal_strlit("[tracebridge] ");
    reveal_strlit("adapter listening on 127.0.0.1:");
    reveal_strlit("${address}");
    reveal_strlit("${port}");
    reveal_strlit(":");
    reveal_strlit("127.0.0.1");
    reveal_strlit(" (backend ");
    let fixed = "[tracebridge] adapter listening on "@;
    let digits = decimal_text(port as nat);
    let rest = " (backend "@ + decimal_text(backend_port as nat) + ")"@;
    decimal_round_trip(port as nat);
    assert(READY_PATTERN@ =~= fixed + "${address}"@ + ":"@ + "${port}"@);
    assert(LOG_PREFIX@ + "adapter listening on 127.0.0.1:"@ =~= fixed + "127.0.0.1"@ + ":"@);
    assert(ready_line(port, backend_port) =~= fixed + "127.0.0.1"@ + ":"@ + digits + rest);
    assert(rest[0] == ' ');
}

}
