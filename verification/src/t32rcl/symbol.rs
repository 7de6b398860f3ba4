//! Symbol queries and their answers.

use vstd::prelude::*;
use vstd::slice::slice_subrange;
use vstd::utf8::*;

use crate::bytes::{
    copy_bytes, le_bytes, le_value, left, lemma_le_bytes_two, push_bytes, push_le, push_zeros,
    read_u16, read_u64, tagged, zeros,
};
use crate::t32rcl::address::{read_address, Address, AddressView};
use crate::t32rcl::error::{Error, ErrorView};
use crate::text::{
    chars_of, concat2, debug_text, decode_utf8_lossy, decode_utf8_text, opt_view, quoted_debug,
    string_of, trim_end_char, trim_end_matches, utf8_replaced,
};

verus! {

/// The answer of a symbol query.
#[derive(Debug, Clone, PartialEq, Eq)]
pub struct Symbol {
    pub name: Option<String>,
    pub path: Option<String>,
    pub address: Option<Address>,
    pub size: u64,
}

/// The content of a [`Symbol`].
pub ghost struct SymbolView {
    pub name: Option<Seq<char>>,
    pub path: Option<Seq<char>>,
    pub address: Option<AddressView>,
    pub size: u64,
}

impl View for Symbol {
    type V = SymbolView;

    open spec fn view(&self) -> SymbolView {
        SymbolView {
            name: opt_view(self.name),
            path: opt_view(self.path),
            address: match self.address {
                Some(address) => Some(address@),
                None => None,
            },
            size: self.size,
        }
    }
}

impl Default for Symbol {
    fn default() -> (symbol: Symbol)
        ensures
            symbol@ == empty_symbol(),
    {
        Symbol { name: None, path: None, address: None, size: 0 }
    }
}

/// A symbol of which nothing is known.
pub open spec fn empty_symbol() -> SymbolView {
    SymbolView { name: None, path: None, address: None, size: 0 }
}

/// A field of exactly `length` bytes: cut off, or filled up with zeros.
pub open spec fn fitted(raw: Seq<u8>, length: nat) -> Seq<u8> {
    if raw.len() >= length {
        raw.take(length as int)
    } else {
        raw + zeros((length - raw.len()) as nat)
    }
}

/// The length of the name field: the number of characters plus at least one,
/// rounded up to an even number.
pub open spec fn name_length(name: Seq<char>) -> nat {
    (name.len() + 2) / 2 * 2
}

/// A query by name.
pub open spec fn name_query(name: Seq<char>) -> Seq<u8> {
    seq![0x4Eu8, 0x4Du8] + le_bytes(name_length(name), 2) + fitted(
        encode_utf8(name),
        name_length(name),
    ) + seq![0x58u8, 0x58u8]
}

proof fn lemma_encoding_is_longer(text: Seq<char>)
    ensures
        encode_utf8(text).len() >= text.len(),
    decreases text.len(),
{
    if text.len() > 0 {
        lemma_encoding_is_longer(text.drop_first());
    }
}

/// A query by name.
pub fn serialize_name_query(name: &str) -> (result: Vec<u8>)
    ensures
        result@ == name_query(name@),
{
    let count: usize = chars_of(name).len();
    let fill: usize = 2 - count % 2;
    let mut result: Vec<u8> = Vec::new();
    result.push(0x4E);
    result.push(0x4D);
    proof {
        assert(name_length(name@) == count + fill);
        lemma_le_bytes_two((count % 65536 + fill) as nat, name_length(name@));
    }
    push_le(&mut result, (count % 65536 + fill) as u64, 2);
    let raw = name.as_bytes();
    let ghost head = result@;
    proof {
        lemma_encoding_is_longer(name@);
    }
    let extra: usize = raw.len() - count;
    if extra >= fill {
        let field = copy_bytes(raw, 0, raw.len() - (extra - fill));
        push_bytes(&mut result, &field);
    } else {
        push_bytes(&mut result, raw);
        push_zeros(&mut result, fill - extra);
    }
    assert(result@ =~= head + fitted(raw@, name_length(name@)));
    result.push(0x58);
    result.push(0x58);
    assert(result@ =~= name_query(name@));
    result
}

/// The complaint about a symbol that ends too early.
pub open spec fn truncated_symbol() -> ErrorView {
    ErrorView::Protocol("truncated symbol in answer"@)
}

/// A text field of `length` bytes: UTF-8 without trailing zeros.
pub open spec fn symbol_text(data: Seq<u8>, at: nat, length: nat) -> Result<Seq<char>, ErrorView> {
    if at + length > data.len() {
        Err(truncated_symbol())
    } else {
        let raw = data.subrange(at as int, at + length as int);
        if valid_utf8(raw) {
            Ok(trim_end_char(decode_utf8(raw), '\0'))
        } else {
            Err(ErrorView::Protocol("symbol text is not UTF-8"@))
        }
    }
}

/// A symbol after one more text field: its name, its path, or a continuation of
/// its name.
pub open spec fn with_text(symbol: SymbolView, id: Seq<u8>, text: Seq<char>) -> Result<
    SymbolView,
    ErrorView,
> {
    if id == seq![0x4Eu8, 0x4Du8] {
        Ok(SymbolView { name: Some(text), ..symbol })
    } else if id == seq![0x50u8, 0x54u8] {
        Ok(SymbolView { path: Some(text), ..symbol })
    } else {
        match symbol.name {
            Some(name) => Ok(SymbolView { name: Some(name + text), ..symbol }),
            None => Err(ErrorView::Protocol("name extension without a name"@)),
        }
    }
}

/// Reads the fields of a symbol from `at` on, up to the end mark `XX` or the end
/// of the data.
pub open spec fn symbol_fields(data: Seq<u8>, at: nat, symbol: SymbolView) -> Result<
    SymbolView,
    ErrorView,
>
    decreases left(data.len(), at),
{
    if at >= data.len() {
        Ok(symbol)
    } else if at + 2 > data.len() {
        Err(truncated_symbol())
    } else {
        let id = data.subrange(at as int, at as int + 2);
        if id == seq![0x41u8, 0x44u8] {
            match read_address(data.skip(at as int + 2)) {
                Ok((end, address)) => symbol_fields(
                    data,
                    at + 2 + end,
                    SymbolView { address: Some(address), ..symbol },
                ),
                Err(error) => Err(error),
            }
        } else if id == seq![0x4Eu8, 0x4Du8] || id == seq![0x50u8, 0x54u8] || id == seq![
            0x4Eu8,
            0x45u8,
        ] {
            if at + 4 > data.len() {
                Err(truncated_symbol())
            } else {
                let length = le_value(data.subrange(at as int + 2, at as int + 4));
                match symbol_text(data, at + 4, length) {
                    Ok(text) => match with_text(symbol, id, text) {
                        Ok(next) => symbol_fields(data, at + 4 + length, next),
                        Err(error) => Err(error),
                    },
                    Err(error) => Err(error),
                }
            }
        } else if id == seq![0x53u8, 0x5Au8] {
            if at + 10 > data.len() {
                Err(truncated_symbol())
            } else {
                symbol_fields(
                    data,
                    at + 10,
                    SymbolView {
                        size: le_value(data.subrange(at as int + 2, at as int + 10)) as u64,
                        ..symbol
                    },
                )
            }
        } else if id == seq![0x58u8, 0x58u8] {
            Ok(symbol)
        } else {
            Err(
                ErrorView::Protocol("unknown symbol parameter "@ + debug_text(utf8_replaced(id))),
            )
        }
    }
}

fn read_text(data: &[u8], at: usize, length: usize) -> (result: Result<String, Error>)
    requires
        at <= data@.len(),
    ensures
        match result {
            Ok(text) => symbol_text(data@, at as nat, length as nat) == Ok::<_, ErrorView>(text@),
            Err(error) => symbol_text(data@, at as nat, length as nat) == Err::<Seq<char>, _>(
                error@,
            ),
        },
{
    if data.len() - at < length {
        return Err(Error::protocol("truncated symbol in answer"));
    }
    match decode_utf8_text(&copy_bytes(data, at, at + length)) {
        Ok(text) => Ok(string_of(&trim_end_matches(&chars_of(&text), '\0'))),
        Err(_) => Err(Error::protocol("symbol text is not UTF-8")),
    }
}

fn add_text(symbol: Symbol, id: &[u8], text: String) -> (result: Result<Symbol, Error>)
    requires
        id@.len() == 2,
    ensures
        match result {
            Ok(next) => with_text(symbol@, id@, text@) == Ok::<_, ErrorView>(next@),
            Err(error) => with_text(symbol@, id@, text@) == Err::<SymbolView, _>(error@),
        },
{
    let mut symbol = symbol;
    assert(id@.subrange(0, 2) =~= id@);
    if tagged(id, 0, 0x4E, 0x4D) {
        symbol.name = Some(text);
        Ok(symbol)
    } else if tagged(id, 0, 0x50, 0x54) {
        symbol.path = Some(text);
        Ok(symbol)
    } else {
        match symbol.name {
            Some(name) => {
                symbol.name = Some(concat2(&name, &text));
                Ok(symbol)
            },
            None => Err(Error::protocol("name extension without a name")),
        }
    }
}

/// Reads the answer of a symbol query.
pub fn deserialize(data: &[u8]) -> (result: Result<Symbol, Error>)
    ensures
        match result {
            Ok(symbol) => symbol_fields(data@, 0, empty_symbol()) == Ok::<_, ErrorView>(symbol@),
            Err(error) => symbol_fields(data@, 0, empty_symbol()) == Err::<SymbolView, _>(error@),
        },
{
    let mut symbol = Symbol::default();
    let mut at: usize = 0;
    assert(data@.len() == data.len());
    while at < data.len()
        invariant
            at <= data@.len() <= usize::MAX,
            symbol_fields(data@, at as nat, symbol@) == symbol_fields(data@, 0, empty_symbol()),
        decreases data@.len() - at,
    {
        if data.len() - at < 2 {
            return Err(Error::protocol("truncated symbol in answer"));
        }
        if tagged(data, at, 0x41, 0x44) {
            let rest = slice_subrange(data, at + 2, data.len());
            assert(rest@ =~= data@.skip(at as int + 2));
            match Address::deserialize(rest) {
                Ok((end, address)) => {
                    symbol.address = Some(address);
                    if end >= rest.len() {
                        assert(symbol_fields(
                            data@,
                            at as nat + 2 + (read_address(rest@)->Ok_0).0,
                            symbol@,
                        ) == Ok::<_, ErrorView>(symbol@));
                        return Ok(symbol);
                    }
                    at = at + 2 + end;
                },
                Err(error) => {
                    return Err(error);
                },
            }
        } else if tagged(data, at, 0x4E, 0x4D) || tagged(data, at, 0x50, 0x54) || tagged(
            data,
            at,
            0x4E,
            0x45,
        ) {
            if data.len() - at < 4 {
                return Err(Error::protocol("truncated symbol in answer"));
            }
            let length: usize = read_u16(data, at + 2) as usize;
            match read_text(data, at + 4, length) {
                Ok(text) => {
                    let id = copy_bytes(data, at, at + 2);
                    match add_text(symbol, &id, text) {
                        Ok(next) => {
                            symbol = next;
                        },
                        Err(error) => {
                            return Err(error);
                        },
                    }
                },
                Err(error) => {
                    return Err(error);
                },
            }
            at = at + 4 + length;
        } else if tagged(data, at, 0x53, 0x5A) {
            if data.len() - at < 10 {
                return Err(Error::protocol("truncated symbol in answer"));
            }
            symbol.size = read_u64(data, at + 2);
            at = at + 10;
        } else if tagged(data, at, 0x58, 0x58) {
            return Ok(symbol);
        } else {
            let id = copy_bytes(data, at, at + 2);
            return Err(
                Error::Protocol(
                    concat2("unknown symbol parameter ", &quoted_debug(&decode_utf8_lossy(&id))),
                ),
            );
        }
    }
    Ok(symbol)
}

}
