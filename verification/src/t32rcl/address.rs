//! TRACE32 addresses as text and on the wire.

use vstd::prelude::*;
use vstd::utf8::*;

use crate::bytes::{
    copy_bytes, le_bytes, le_limit, le_round_trip, le_value, left, lemma_le_bytes_len,
    lemma_le_bytes_two, push_bytes, push_le, push_zeros, read_u16, read_u32, read_u64, saturated,
    tagged, zeros,
};
use crate::t32rcl::error::{Error, ErrorView};
use crate::text::{
    chars_of, concat2, concat3, contains_char, copy_range, debug_text, decimal, decimal_text,
    decode_utf8_lossy, decode_utf8_text, digit_of, digits_value, hex_padded, hex_round_trip,
    hex_text, is_digits, last_position, lemma_last_position_tail, opt_view, parse_digits,
    quoted_debug, repeated, rfind, string_of, trim_end_char, trim_end_matches, trim_start_char,
    trim_start_matches, utf8_replaced, zero_padded,
};

verus! {

/// Address type of a 32-bit value.
pub const ADDRESS_32: u16 = 2;

/// Address type of a 64-bit value.
pub const ADDRESS_64: u16 = 3;

/// A TRACE32 address: an optional access class such as `E`, and a value.
#[derive(Debug, Clone, PartialEq, Eq)]
pub struct Address {
    pub access: Option<String>,
    pub value: u64,
}

/// The content of an [`Address`].
pub ghost struct AddressView {
    pub access: Option<Seq<char>>,
    pub value: u64,
}

impl View for Address {
    type V = AddressView;

    open spec fn view(&self) -> AddressView {
        AddressView { access: opt_view(self.access), value: self.value }
    }
}

/// Whether a text is a decimal number without superfluous leading zeros; a run
/// of zeros alone is accepted.
pub open spec fn is_plain_decimal(s: Seq<char>) -> bool {
    is_digits(s, 10) && (s.len() > 1 && s[0] == '0' ==> forall|i: int|
        0 <= i < s.len() ==> #[trigger] s[i] == '0')
}

/// The value of a decimal number or of a hexadecimal one behind `0x`.
pub open spec fn address_value(s: Seq<char>) -> Option<u64> {
    if s.len() >= 2 && s[0] == '0' && s[1] == 'x' {
        if is_digits(s.skip(2), 16) && digits_value(s.skip(2), 16) <= u64::MAX {
            Some(digits_value(s.skip(2), 16) as u64)
        } else {
            None
        }
    } else if is_plain_decimal(s) && digits_value(s, 10) <= u64::MAX {
        Some(digits_value(s, 10) as u64)
    } else {
        None
    }
}

/// The address that `[access:]value` denotes. Everything before the last colon
/// is the access class.
pub open spec fn parsed_address(text: Seq<char>) -> Option<AddressView> {
    let colon = last_position(text, ':');
    if text.contains('\n') || colon == 0 {
        None
    } else {
        match address_value(text.skip(colon + 1)) {
            Some(value) => Some(
                AddressView {
                    access: if colon < 0 {
                        None
                    } else {
                        Some(text.take(colon))
                    },
                    value,
                },
            ),
            None => None,
        }
    }
}

/// The field of an access class: its UTF-8 bytes, ended by a zero and filled up
/// to an even length.
pub open spec fn access_field(access: Seq<char>) -> Seq<u8> {
    let raw = encode_utf8(access);
    let fill = 2 - raw.len() % 2;
    seq![0x41u8, 0x43u8] + le_bytes((raw.len() + fill) as nat, 2) + raw + zeros(fill as nat)
}

/// An address on the wire.
pub open spec fn address_bytes(address: AddressView, offset: u64, width: Option<u16>) -> Seq<u8> {
    le_bytes(3, 2) + le_bytes(((address.value + offset) % 0x1_0000_0000_0000_0000) as nat, 8) + (
    match address.access {
        Some(access) => access_field(access),
        None => seq![],
    }) + (match width {
        Some(width) => seq![0x57u8, 0x49u8] + le_bytes(width as nat, 2),
        None => seq![],
    }) + seq![0x58u8, 0x58u8]
}

/// An access class in an answer: UTF-8 without surrounding zeros, and without
/// the colons then left around it.
pub open spec fn access_text(raw: Seq<u8>) -> Result<Seq<char>, ErrorView> {
    if valid_utf8(raw) {
        let text = trim_start_char(trim_end_char(decode_utf8(raw), '\0'), '\0');
        Ok(trim_start_char(trim_end_char(text, ':'), ':'))
    } else {
        Err(ErrorView::Protocol("access class is not UTF-8"@))
    }
}

/// The complaint about an address that ends too early.
pub open spec fn truncated_address() -> ErrorView {
    ErrorView::Protocol("truncated address in answer"@)
}

/// Reads the parameters of an address from `at` on, up to the end mark `XX` or
/// the end of the data. Of all parameters only the access class matters.
pub open spec fn address_parameters(
    data: Seq<u8>,
    at: nat,
    access: Option<Seq<char>>,
) -> Result<(nat, Option<Seq<char>>), ErrorView>
    decreases left(data.len(), at),
{
    if at >= data.len() {
        Ok((at, access))
    } else if at + 2 > data.len() {
        Err(truncated_address())
    } else {
        let id = data.subrange(at as int, at as int + 2);
        if id == seq![0x41u8, 0x43u8] {
            if at + 4 > data.len() {
                Err(truncated_address())
            } else {
                let length = le_value(data.subrange(at as int + 2, at as int + 4));
                if at + 4 + length > data.len() {
                    Err(truncated_address())
                } else {
                    match access_text(data.subrange(at as int + 4, at + 4 + length as int)) {
                        Ok(text) => address_parameters(data, at + 4 + length, Some(text)),
                        Err(error) => Err(error),
                    }
                }
            }
        } else if id == seq![0x57u8, 0x49u8] || id == seq![0x43u8, 0x4Fu8] || id == seq![
            0x4Du8,
            0x55u8,
        ] || id == seq![0x54u8, 0x55u8] {
            address_parameters(data, at + 4, access)
        } else if id == seq![0x53u8, 0x49u8] || id == seq![0x49u8, 0x4Du8] || id == seq![
            0x41u8,
            0x54u8,
        ] {
            address_parameters(data, at + 6, access)
        } else if id == seq![0x58u8, 0x58u8] {
            Ok((at + 2, access))
        } else {
            Err(
                ErrorView::Protocol(
                    "unknown address parameter "@ + debug_text(utf8_replaced(id)),
                ),
            )
        }
    }
}

/// An address in an answer, and how far it reaches.
pub open spec fn read_address(data: Seq<u8>) -> Result<(nat, AddressView), ErrorView> {
    if data.len() < 2 {
        Err(truncated_address())
    } else {
        let kind = le_value(data.subrange(0, 2));
        if kind == ADDRESS_32 || kind == ADDRESS_64 {
            let start: nat = if kind == ADDRESS_32 {
                6
            } else {
                10
            };
            if data.len() < start {
                Err(truncated_address())
            } else {
                match address_parameters(data, start, None) {
                    Ok((end, access)) => Ok(
                        (
                            end,
                            AddressView {
                                access,
                                value: le_value(data.subrange(2, start as int)) as u64,
                            },
                        ),
                    ),
                    Err(error) => Err(error),
                }
            }
        } else {
            Err(ErrorView::Protocol("unsupported address type "@ + decimal_text(kind)))
        }
    }
}

/// Decodes an access class of an answer.
pub fn parse_access(raw: &[u8]) -> (result: Result<String, Error>)
    ensures
        match result {
            Ok(text) => access_text(raw@) == Ok::<_, ErrorView>(text@),
            Err(error) => access_text(raw@) == Err::<Seq<char>, _>(error@),
        },
{
    match decode_utf8_text(raw) {
        Ok(text) => {
            let inner = trim_start_matches(&trim_end_matches(&chars_of(&text), '\0'), '\0');
            Ok(string_of(&trim_start_matches(&trim_end_matches(&inner, ':'), ':')))
        },
        Err(_) => Err(Error::protocol("access class is not UTF-8")),
    }
}

fn parse_address_value(s: &[char]) -> (result: Option<u64>)
    ensures
        result == address_value(s@),
{
    if s.len() >= 2 && s[0] == '0' && s[1] == 'x' {
        let digits = copy_range(s, 2, s.len());
        assert(digits@ =~= s@.skip(2));
        match parse_digits(&digits, 16, u64::MAX as u128) {
            Some(value) => Some(value as u64),
            None => None,
        }
    } else {
        if s.len() > 1 && s[0] == '0' {
            let mut i: usize = 0;
            while i < s.len()
                invariant
                    i <= s@.len(),
                    s@.len() > 1,
                    s@[0] == '0',
                    !(s@[0] == '0' && s@[1] == 'x'),
                    forall|j: int| 0 <= j < i ==> s@[j] == '0',
                decreases s@.len() - i,
            {
                if s[i] != '0' {
                    return None;
                }
                i = i + 1;
            }
        }
        match parse_digits(s, 10, u64::MAX as u128) {
            Some(value) => Some(value as u64),
            None => None,
        }
    }
}

impl AddressView {
    /// The address as a user reads it.
    pub open spec fn text(self) -> Seq<char> {
        match self.access {
            Some(access) => access + ":0x"@ + zero_padded(hex_text(self.value as nat), 8),
            None => "0x"@ + zero_padded(hex_text(self.value as nat), 8),
        }
    }
}

impl Address {
    /// An address from its parts.
    pub fn new(access: Option<&str>, value: u64) -> (address: Address)
        ensures
            address@ == (AddressView {
                access: match access {
                    Some(text) => Some(text@),
                    None => None,
                },
                value,
            }),
    {
        let access = match access {
            Some(text) => Some(text.to_owned()),
            None => None,
        };
        Address { access, value }
    }

    /// Parses `[access:]value`, where the value is decimal, or hexadecimal
    /// behind `0x`. Nothing is sent to TRACE32.
    pub fn parse(text: &str) -> (result: Result<Address, Error>)
        ensures
            match parsed_address(text@) {
                Some(address) => result matches Ok(parsed) && parsed@ == address,
                None => result matches Err(error) && error@ == ErrorView::Protocol(
                    "invalid address: "@ + text@,
                ),
            },
    {
        let chars = chars_of(text);
        let invalid = Error::Protocol(concat2("invalid address: ", text));
        if contains_char(&chars, '\n') {
            return Err(invalid);
        }
        match rfind(&chars, ':') {
            Some(colon) => {
                if colon == 0 {
                    return Err(invalid);
                }
                let number = copy_range(&chars, colon + 1, chars.len());
                assert(number@ =~= text@.skip(colon + 1));
                match parse_address_value(&number) {
                    Some(value) => {
                        let access = copy_range(&chars, 0, colon);
                        assert(access@ =~= text@.take(colon as int));
                        Ok(Address { access: Some(string_of(&access)), value })
                    },
                    None => Err(invalid),
                }
            },
            None => {
                assert(text@.skip(0) =~= text@);
                match parse_address_value(&chars) {
                    Some(value) => Ok(Address { access: None, value }),
                    None => Err(invalid),
                }
            },
        }
    }

    /// The address `offset` bytes further on, as it is sent to TRACE32, with the
    /// access width where one is given.
    pub fn serialize(&self, offset: u64, width: Option<u16>) -> (result: Vec<u8>)
        ensures
            result@ == address_bytes(self@, offset, width),
    {
        let mut result: Vec<u8> = Vec::new();
        push_le(&mut result, ADDRESS_64 as u64, 2);
        push_le(&mut result, self.value.wrapping_add(offset), 8);
        let ghost head = le_bytes(3, 2) + le_bytes(
            ((self.value + offset) % 0x1_0000_0000_0000_0000) as nat,
            8,
        );
        assert(result@ =~= head);
        match &self.access {
            Some(access) => {
                let raw = access.as_str().as_bytes();
                let fill: usize = 2 - raw.len() % 2;
                result.push(0x41);
                result.push(0x43);
                proof {
                    lemma_le_bytes_two(
                        (raw@.len() % 65536 + fill) as nat,
                        (raw@.len() + fill) as nat,
                    );
                }
                push_le(&mut result, (raw.len() % 65536 + fill) as u64, 2);
                push_bytes(&mut result, raw);
                push_zeros(&mut result, fill);
                assert(result@ =~= head + access_field(access@));
            },
            None => {
                assert(result@ =~= head + Seq::<u8>::empty());
            },
        }
        let ghost middle = result@;
        match width {
            Some(width) => {
                result.push(0x57);
                result.push(0x49);
                push_le(&mut result, width as u64, 2);
                assert(result@ =~= middle + (seq![0x57u8, 0x49u8] + le_bytes(width as nat, 2)));
            },
            None => {
                assert(result@ =~= middle + Seq::<u8>::empty());
            },
        }
        let ghost body = result@;
        result.push(0x58);
        result.push(0x58);
        assert(result@ =~= body + seq![0x58u8, 0x58u8]);
        result
    }

    /// Reads an address of an answer. The first part of the result is the
    /// position behind it, which may lie beyond the data when the last parameter
    /// is cut short.
    pub fn deserialize(data: &[u8]) -> (result: Result<(usize, Address), Error>)
        ensures
            match read_address(data@) {
                Ok((end, address)) => result matches Ok((at, read)) && at == saturated(end as int)
                    && read@ == address,
                Err(error) => result matches Err(e) && e@ == error,
            },
    {
        if data.len() < 2 {
            return Err(Error::protocol("truncated address in answer"));
        }
        let kind: u16 = read_u16(data, 0);
        let start: usize = if kind == ADDRESS_32 {
            6
        } else {
            10
        };
        if kind != ADDRESS_32 && kind != ADDRESS_64 {
            return Err(
                Error::Protocol(concat2("unsupported address type ", &decimal(kind as u128))),
            );
        }
        if data.len() < start {
            return Err(Error::protocol("truncated address in answer"));
        }
        let value: u64 = if kind == ADDRESS_32 {
            read_u32(data, 2) as u64
        } else {
            read_u64(data, 2)
        };
        let mut access: Option<String> = None;
        let mut at: usize = start;
        let ghost mut position: nat = start as nat;
        while at < data.len()
            invariant
                at == saturated(position as int),
                data@.len() <= usize::MAX,
                start <= position,
                data@.len() >= 2,
                kind == le_value(data@.subrange(0, 2)),
                kind == ADDRESS_32 || kind == ADDRESS_64,
                start == (if kind == ADDRESS_32 {
                    6nat
                } else {
                    10nat
                }),
                start <= data@.len(),
                value == le_value(data@.subrange(2, start as int)),
                address_parameters(data@, position, opt_view(access)) == address_parameters(
                    data@,
                    start as nat,
                    None,
                ),
            decreases left(data@.len(), at as nat),
        {
            if data.len() - at < 2 {
                return Err(Error::protocol("truncated address in answer"));
            }
            if tagged(data, at, 0x41, 0x43) {
                if data.len() - at < 4 {
                    return Err(Error::protocol("truncated address in answer"));
                }
                let length: usize = read_u16(data, at + 2) as usize;
                if data.len() - at - 4 < length {
                    return Err(Error::protocol("truncated address in answer"));
                }
                let raw = copy_bytes(data, at + 4, at + 4 + length);
                match parse_access(&raw) {
                    Ok(text) => {
                        access = Some(text);
                    },
                    Err(error) => {
                        return Err(error);
                    },
                }
                at = at + 4 + length;
                proof {
                    position = position + 4 + length as nat;
                }
            } else if tagged(data, at, 0x57, 0x49) || tagged(data, at, 0x43, 0x4F) || tagged(
                data,
                at,
                0x4D,
                0x55,
            ) || tagged(data, at, 0x54, 0x55) {
                at = at.saturating_add(4);
                proof {
                    position = position + 4;
                }
            } else if tagged(data, at, 0x53, 0x49) || tagged(data, at, 0x49, 0x4D) || tagged(
                data,
                at,
                0x41,
                0x54,
            ) {
                at = at.saturating_add(6);
                proof {
                    position = position + 6;
                }
            } else if tagged(data, at, 0x58, 0x58) {
                return Ok((at + 2, Address { access, value }));
            } else {
                let id = copy_bytes(data, at, at + 2);
                return Err(
                    Error::Protocol(
                        concat2(
                            "unknown address parameter ",
                            &quoted_debug(&decode_utf8_lossy(&id)),
                        ),
                    ),
                );
            }
        }
        Ok((at, Address { access, value }))
    }

    /// The address as a user reads it.
    pub fn to_string(&self) -> (text: String)
        ensures
            text@ == self@.text(),
    {
        let digits = hex_padded(self.value, 8);
        match &self.access {
            Some(access) => concat3(access, ":0x", &digits),
            None => concat2("0x", &digits),
        }
    }
}

proof fn lemma_encode_concat(a: Seq<char>, b: Seq<char>)
    ensures
        encode_utf8(a + b) == encode_utf8(a) + encode_utf8(b),
    decreases a.len(),
{
    if a.len() == 0 {
        assert(a + b =~= b);
        assert(encode_utf8(a) + encode_utf8(b) =~= encode_utf8(b));
    } else {
        assert((a + b).drop_first() =~= a.drop_first() + b);
        lemma_encode_concat(a.drop_first(), b);
        assert(encode_utf8(a + b) =~= encode_utf8(a) + encode_utf8(b));
    }
}

proof fn lemma_encode_nuls(count: nat)
    ensures
        encode_utf8(repeated('\0', count)) == zeros(count),
    decreases count,
{
    let nuls = repeated('\0', count);
    if count > 0 {
        assert(nuls.drop_first() =~= repeated('\0', (count - 1) as nat));
        lemma_encode_nuls((count - 1) as nat);
        is_ascii_chars_encode_utf8(seq!['\0']);
        lemma_encode_concat(seq!['\0'], nuls.drop_first());
        assert(seq!['\0'] + nuls.drop_first() =~= nuls);
        assert(encode_utf8(nuls) =~= zeros(count));
    } else {
        assert(encode_utf8(nuls) =~= zeros(count));
    }
}

proof fn lemma_trim_nuls(text: Seq<char>, count: nat)
    requires
        text.len() > 0 ==> text.last() != '\0',
    ensures
        trim_end_char(text + repeated('\0', count), '\0') == text,
    decreases count,
{
    let nuls = repeated('\0', count);
    if count == 0 {
        assert(text + nuls =~= text);
    } else {
        assert((text + nuls).drop_last() =~= text + repeated('\0', (count - 1) as nat));
        lemma_trim_nuls(text, (count - 1) as nat);
    }
}

/// Whether an access class survives the trip over the wire: nothing is trimmed
/// off it, and its length fits the two bytes of the field.
pub open spec fn is_wire_access(access: Seq<char>) -> bool {
    &&& access.len() > 0 ==> access[0] != '\0' && access[0] != ':' && access.last() != '\0'
        && access.last() != ':'
    &&& encode_utf8(access).len() < 0xFFFE
}

proof fn lemma_access_parameter(
    data: Seq<u8>,
    at: nat,
    access: Seq<char>,
    before: Option<Seq<char>>,
)
    requires
        is_wire_access(access),
        at + access_field(access).len() <= data.len(),
        data.subrange(at as int, (at + access_field(access).len()) as int) == access_field(access),
    ensures
        address_parameters(data, at, before) == address_parameters(
            data,
            at + access_field(access).len(),
            Some(access),
        ),
{
    let field = access_field(access);
    let raw = encode_utf8(access);
    let fill = (2 - raw.len() % 2) as nat;
    let length = raw.len() + fill;
    lemma_le_bytes_len(length, 2);
    reveal_with_fuel(le_limit, 3);
    le_round_trip(length, 2);
    assert(field.len() == 4 + length);
    assert(data.subrange(at as int, at as int + 2) =~= field.subrange(0, 2));
    assert(field.subrange(0, 2) =~= seq![0x41u8, 0x43u8]);
    assert(data.subrange(at as int + 2, at as int + 4) =~= field.subrange(2, 4));
    assert(field.subrange(2, 4) =~= le_bytes(length, 2));
    assert(data.subrange(at as int + 4, at + 4 + length as int) =~= field.skip(4));
    assert(field.skip(4) =~= raw + zeros(fill));
    let nuls = repeated('\0', fill);
    lemma_encode_nuls(fill);
    lemma_encode_concat(access, nuls);
    encode_utf8_valid_utf8(access + nuls);
    encode_utf8_decode_utf8(access + nuls);
    lemma_trim_nuls(access, fill);
    assert(access_text(raw + zeros(fill)) == Ok::<_, ErrorView>(access));
}

proof fn lemma_width_parameter(data: Seq<u8>, at: nat, access: Option<Seq<char>>)
    requires
        at + 4 <= data.len(),
        data[at as int] == 0x57,
        data[at as int + 1] == 0x49,
    ensures
        address_parameters(data, at, access) == address_parameters(data, at + 4, access),
{
    let id = data.subrange(at as int, at as int + 2);
    assert(id[0] == 0x57);
    assert(seq![0x41u8, 0x43u8][0] == 0x41);
    assert(id =~= seq![0x57u8, 0x49u8]);
}

proof fn lemma_end_mark(data: Seq<u8>, at: nat, access: Option<Seq<char>>)
    requires
        at + 2 <= data.len(),
        data[at as int] == 0x58,
        data[at as int + 1] == 0x58,
    ensures
        address_parameters(data, at, access) == Ok::<_, ErrorView>((at + 2, access)),
{
    let id = data.subrange(at as int, at as int + 2);
    assert(id[0] == 0x58);
    assert(seq![0x41u8, 0x43u8][0] == 0x41);
    assert(seq![0x57u8, 0x49u8][0] == 0x57);
    assert(seq![0x43u8, 0x4Fu8][0] == 0x43);
    assert(seq![0x4Du8, 0x55u8][0] == 0x4D);
    assert(seq![0x54u8, 0x55u8][0] == 0x54);
    assert(seq![0x53u8, 0x49u8][0] == 0x53);
    assert(seq![0x49u8, 0x4Du8][0] == 0x49);
    assert(seq![0x41u8, 0x54u8][0] == 0x41);
    assert(id =~= seq![0x58u8, 0x58u8]);
}

/// An address is read back from the front of whatever follows it.
pub proof fn lemma_read_address_more(
    address: AddressView,
    offset: u64,
    width: Option<u16>,
    behind: Seq<u8>,
)
    requires
        address.access matches Some(access) ==> is_wire_access(access),
    ensures
        read_address(address_bytes(address, offset, width) + behind) == Ok::<_, ErrorView>(
            (
                address_bytes(address, offset, width).len(),
                AddressView {
                    access: address.access,
                    value: ((address.value + offset) % 0x1_0000_0000_0000_0000) as u64,
                },
            ),
        ),
{
    let bytes = address_bytes(address, offset, width);
    let data = bytes + behind;
    let value = ((address.value + offset) % 0x1_0000_0000_0000_0000) as nat;
    let head = le_bytes(3, 2) + le_bytes(value, 8);
    let field = match address.access {
        Some(access) => access_field(access),
        None => seq![],
    };
    let extra = match width {
        Some(width) => seq![0x57u8, 0x49u8] + le_bytes(width as nat, 2),
        None => seq![],
    };
    let mark = seq![0x58u8, 0x58u8];
    assert(bytes == head + field + extra + mark);
    lemma_le_bytes_len(3, 2);
    lemma_le_bytes_len(value, 8);
    reveal_with_fuel(le_limit, 9);
    le_round_trip(3, 2);
    le_round_trip(value, 8);
    assert(data.subrange(0, 2) =~= le_bytes(3, 2));
    assert(data.subrange(2, 10) =~= le_bytes(value, 8));
    let middle: nat = 10 + field.len();
    if let Some(access) = address.access {
        assert(data.subrange(10, middle as int) =~= field);
        lemma_access_parameter(data, 10, access, None);
    }
    let tail: nat = middle + extra.len();
    if let Some(width) = width {
        lemma_le_bytes_len(width as nat, 2);
        assert(data[middle as int] == extra[0]);
        assert(data[middle as int + 1] == extra[1]);
        lemma_width_parameter(data, middle, address.access);
    }
    assert(data[tail as int] == mark[0]);
    assert(data[tail as int + 1] == mark[1]);
    lemma_end_mark(data, tail, address.access);
}

/// What `serialize` writes, `deserialize` reads back, up to its last byte.
pub proof fn wire_round_trip(address: AddressView, offset: u64, width: Option<u16>)
    requires
        address.access matches Some(access) ==> is_wire_access(access),
    ensures
        read_address(address_bytes(address, offset, width)) == Ok::<_, ErrorView>(
            (
                address_bytes(address, offset, width).len(),
                AddressView {
                    access: address.access,
                    value: ((address.value + offset) % 0x1_0000_0000_0000_0000) as u64,
                },
            ),
        ),
{
    let data = address_bytes(address, offset, width);
    lemma_read_address_more(address, offset, width, seq![]);
    assert(data + Seq::<u8>::empty() =~= data);
}

/// The text of an address is parsed back to the address.
pub proof fn text_round_trip(address: AddressView)
    requires
        address.access matches Some(access) ==> access.len() > 0 && !access.contains('\n'),
    ensures
        parsed_address(address.text()) == Some(address),
{
    reveal_strlit("0x");
    reveal_strlit(":0x");
    let digits = zero_padded(hex_text(address.value as nat), 8);
    hex_round_trip(address.value as nat, 8);
    let number = "0x"@ + digits;
    assert(number.skip(2) =~= digits);
    assert forall|i: int| 0 <= i < number.len() implies number[i] != ':' && number[i] != '\n' by {
        if i >= 2 {
            assert(digit_of(digits[i - 2], 16) is Some);
        }
    }
    let text = address.text();
    match address.access {
        Some(access) => {
            assert(text =~= access.push(':') + number);
            lemma_last_position_tail(access, ':', number);
            assert(text.skip(access.len() as int + 1) =~= number);
            assert(text.take(access.len() as int) =~= access);
            assert forall|i: int| 0 <= i < text.len() implies text[i] != '\n' by {
                if i < access.len() {
                    assert(access[i] == text[i]);
                } else if i > access.len() {
                    assert(text[i] == number[i - access.len() - 1]);
                }
            }
        },
        None => {
            lemma_absent(number, ':');
            assert(text.skip(0) =~= number);
        },
    }
}

proof fn lemma_absent(s: Seq<char>, c: char)
    requires
        !s.contains(c),
    ensures
        last_position(s, c) == -1,
    decreases s.len(),
{
    if s.len() > 0 {
        assert(s.contains(s.last()));
        assert forall|x: char| s.drop_last().contains(x) implies s.contains(x) by {
            let i = choose|i: int| 0 <= i < s.drop_last().len() && s.drop_last()[i] == x;
            assert(s[i] == x);
        }
        lemma_absent(s.drop_last(), c);
    }
}

}
