//! The remote control settings in a TRACE32 configuration file.
//!
//! The file consists of sections with blank lines between them; comments start
//! with a semicolon. The section of the remote control begins with `RCL=` and the
//! protocol, and can give a port.

use vstd::prelude::*;

use crate::flash::{lines_of, text_lines};
use crate::text::{
    char_views, chars_of, copy_range, digits_value, find_from, first_from, is_digits, parse_digits,
    same, string_of, to_uppercase, trim, trimmed, uppercase,
};

verus! {

/// The remote control settings.
#[derive(Debug, Clone, PartialEq, Eq)]
pub struct RclSettings {
    pub protocol: String,
    pub port: Option<u16>,
}

/// The content of a [`RclSettings`].
pub ghost struct RclSettingsView {
    pub protocol: Seq<char>,
    pub port: Option<u16>,
}

impl View for RclSettings {
    type V = RclSettingsView;

    open spec fn view(&self) -> RclSettingsView {
        RclSettingsView { protocol: self.protocol@, port: self.port }
    }
}

/// The value that a line assigns to a key, whatever the case of the key.
pub open spec fn assigned(line: Seq<char>, key: Seq<char>) -> Option<Seq<char>> {
    let equals = first_from(line, '=', 0);
    if equals >= 0 && uppercase(trimmed(line.take(equals))) == key {
        Some(trimmed(line.skip(equals + 1)))
    } else {
        None
    }
}

/// The port that a text denotes: digits, with an optional plus sign.
pub open spec fn port_of(text: Seq<char>) -> Option<u16> {
    let digits = if text.len() > 0 && text[0] == '+' {
        text.skip(1)
    } else {
        text
    };
    if is_digits(digits, 10) && digits_value(digits, 10) <= 65535 {
        Some(digits_value(digits, 10) as u16)
    } else {
        None
    }
}

/// The first line from `at` on that names a protocol, and the protocol.
pub open spec fn protocol_from(lines: Seq<Seq<char>>, at: int) -> Option<(int, Seq<char>)>
    decreases lines.len() - at,
{
    if at < 0 || at >= lines.len() {
        None
    } else {
        match assigned(trimmed(lines[at]), "RCL"@) {
            Some(protocol) => Some((at, protocol)),
            None => protocol_from(lines, at + 1),
        }
    }
}

/// The port that the lines from `at` on give, up to a blank one; the last
/// assignment counts.
pub open spec fn port_from(lines: Seq<Seq<char>>, at: int, port: Option<u16>) -> Option<u16>
    decreases lines.len() - at,
{
    if at < 0 || at >= lines.len() {
        port
    } else {
        let line = trimmed(lines[at]);
        if line.len() == 0 {
            port
        } else if line[0] == ';' {
            port_from(lines, at + 1, port)
        } else {
            match assigned(line, "PORT"@) {
                Some(value) => port_from(lines, at + 1, port_of(value)),
                None => port_from(lines, at + 1, port),
            }
        }
    }
}

/// The remote control settings in a configuration.
pub open spec fn settings_in(source: Seq<char>) -> Option<RclSettingsView> {
    let lines = lines_of(source);
    match protocol_from(lines, 0) {
        Some((at, protocol)) => Some(
            RclSettingsView { protocol, port: port_from(lines, at + 1, None) },
        ),
        None => None,
    }
}

fn find_assigned(line: &[char], key: &str) -> (result: Option<Vec<char>>)
    ensures
        match result {
            Some(value) => assigned(line@, key@) == Some(value@),
            None => assigned(line@, key@) is None,
        },
{
    match find_from(line, '=', 0) {
        Some(equals) => {
            let name = copy_range(line, 0, equals);
            assert(name@ =~= line@.take(equals as int));
            let value = copy_range(line, equals + 1, line.len());
            assert(value@ =~= line@.skip(equals + 1));
            if same(&string_of(&to_uppercase(&trim(&name))), key) {
                Some(trim(&value))
            } else {
                None
            }
        },
        None => None,
    }
}

fn parse_port(text: &[char]) -> (result: Option<u16>)
    ensures
        result == port_of(text@),
{
    let start: usize = if text.len() > 0 && text[0] == '+' {
        1
    } else {
        0
    };
    let digits = copy_range(text, start, text.len());
    assert(digits@ =~= if start == 1 {
        text@.skip(1)
    } else {
        text@
    });
    match parse_digits(&digits, 10, 65535) {
        Some(value) => Some(value as u16),
        None => None,
    }
}

/// Reads the remote control settings of a configuration.
pub fn parse_rcl_settings(source: &str) -> (result: Option<RclSettings>)
    ensures
        match result {
            Some(settings) => settings_in(source@) == Some(settings@),
            None => settings_in(source@) is None,
        },
{
    let lines = text_lines(&chars_of(source));
    let ghost views = char_views(lines@);
    let mut at: usize = 0;
    while at < lines.len()
        invariant
            at <= lines@.len(),
            views == char_views(lines@),
            views == lines_of(source@),
            protocol_from(views, 0) == protocol_from(views, at as int),
        decreases lines@.len() - at,
    {
        assert(views[at as int] == lines@[at as int]@);
        match find_assigned(&trim(&lines[at]), "RCL") {
            Some(protocol) => {
                let mut port: Option<u16> = None;
                let mut i: usize = at + 1;
                while i < lines.len()
                    invariant
                        at + 1 <= i <= lines@.len(),
                        views == char_views(lines@),
                        views == lines_of(source@),
                        protocol_from(views, 0) == Some((at as int, protocol@)),
                        port_from(views, at + 1, None) == port_from(views, i as int, port),
                    decreases lines@.len() - i,
                {
                    assert(views[i as int] == lines@[i as int]@);
                    let line = trim(&lines[i]);
                    if line.len() == 0 {
                        return Some(RclSettings { protocol: string_of(&protocol), port });
                    }
                    if line[0] != ';' {
                        match find_assigned(&line, "PORT") {
                            Some(value) => {
                                port = parse_port(&value);
                            },
                            None => {},
                        }
                    }
                    i = i + 1;
                }
                return Some(RclSettings { protocol: string_of(&protocol), port });
            },
            None => {},
        }
        at = at + 1;
    }
    None
}

}
