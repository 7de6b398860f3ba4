//! What the answers of TRACE32 stand for.

use vstd::prelude::*;
use vstd::string::*;
use vstd::utf8::*;

use crate::bytes::{le_bytes, le_limit, le_round_trip, le_value, lemma_le_bytes_len};
use crate::laws::text::the_middle_stays;
use crate::t32rcl::address::{access_text, address_parameters, read_address};
use crate::t32rcl::api::answer_payload;
use crate::t32rcl::error::{duration_text, ErrorView, OperationView, Span, Trace32View};
use crate::t32rcl::eval::{
    decoded, digit_run, float_literal, is_number, range_literals, range_parts, result_parts,
    ValueView,
};
use crate::t32rcl::symbol::{symbol_fields, symbol_text, SymbolView};
use crate::text::{
    decimal_round_trip, decimal_text, has_text, is_space, lemma_replace_absent, occurs_at, repeated,
    replaced, trim_end_char, trim_start_char, upper, uppercase,
};

verus! {

/// Whether a text comes back whole from a field: it does not end with a zero, and its
/// bytes can be counted in two.
pub open spec fn is_field_text(text: Seq<char>) -> bool {
    &&& text.len() > 0 ==> text.last() != '\0'
    &&& encode_utf8(text).len() < 65536
}

/// A field with a text: what it is, the number of its bytes, and the bytes.
pub open spec fn text_field(first: u8, second: u8, text: Seq<char>) -> Seq<u8> {
    seq![first, second] + le_bytes(encode_utf8(text).len(), 2) + encode_utf8(text)
}

proof fn lemma_text_field(first: u8, second: u8, text: Seq<char>)
    requires
        is_field_text(text),
    ensures
        ({
            let data = text_field(first, second, text);
            let length = encode_utf8(text).len();
            &&& data.len() == 4 + length
            &&& data.subrange(0, 2) == seq![first, second]
            &&& le_value(data.subrange(2, 4)) == length
            &&& symbol_text(data, 4, length) == Ok::<_, ErrorView>(text)
        }),
{
    let raw = encode_utf8(text);
    let data = text_field(first, second, text);
    lemma_le_bytes_len(raw.len(), 2);
    reveal_with_fuel(le_limit, 3);
    le_round_trip(raw.len(), 2);
    assert(data.subrange(0, 2) =~= seq![first, second]);
    assert(data.subrange(2, 4) =~= le_bytes(raw.len(), 2));
    assert(data.subrange(4, 4 + raw.len() as int) =~= raw);
    encode_utf8_valid_utf8(text);
    encode_utf8_decode_utf8(text);
}

/// The field `NM` of a symbol gives its name, `PT` its path and `NE` what its name goes
/// on with; none touches the others. A name cannot go on before it began.
pub proof fn symbol_texts_are_told_apart(symbol: SymbolView, text: Seq<char>, name: Seq<char>)
    requires
        is_field_text(text),
    ensures
        symbol_fields(text_field(0x4E, 0x4D, text), 0, symbol) == Ok::<_, ErrorView>(
            SymbolView { name: Some(text), ..symbol },
        ),
        symbol_fields(text_field(0x50, 0x54, text), 0, symbol) == Ok::<_, ErrorView>(
            SymbolView { path: Some(text), ..symbol },
        ),
        symbol.name == Some(name) ==> symbol_fields(text_field(0x4E, 0x45, text), 0, symbol)
            == Ok::<_, ErrorView>(SymbolView { name: Some(name + text), ..symbol }),
        symbol.name is None ==> symbol_fields(text_field(0x4E, 0x45, text), 0, symbol) is Err,
{
    lemma_text_field(0x4E, 0x4D, text);
    lemma_text_field(0x50, 0x54, text);
    lemma_text_field(0x4E, 0x45, text);
    assert(seq![0x4Eu8, 0x4Du8][0] == 0x4E && seq![0x4Eu8, 0x4Du8][1] == 0x4D);
    assert(seq![0x4Eu8, 0x45u8][0] == 0x4E && seq![0x4Eu8, 0x45u8][1] == 0x45);
    assert(seq![0x50u8, 0x54u8][0] == 0x50);
    assert(seq![0x41u8, 0x44u8][0] == 0x41);
    reveal_with_fuel(symbol_fields, 2);
}

/// The field `SZ` of a symbol gives its size.
pub proof fn symbol_sizes_are_read(symbol: SymbolView, size: u64)
    ensures
        symbol_fields(seq![0x53u8, 0x5Au8] + le_bytes(size as nat, 8), 0, symbol) == Ok::<
            _,
            ErrorView,
        >(SymbolView { size, ..symbol }),
{
    let data = seq![0x53u8, 0x5Au8] + le_bytes(size as nat, 8);
    lemma_le_bytes_len(size as nat, 8);
    reveal_with_fuel(le_limit, 9);
    le_round_trip(size as nat, 8);
    assert(data.subrange(0, 2) =~= seq![0x53u8, 0x5Au8]);
    assert(data.subrange(2, 10) =~= le_bytes(size as nat, 8));
    assert(data.subrange(0, 2)[0] == 0x53);
    assert(seq![0x4Eu8, 0x4Du8][0] == 0x4E);
    assert(seq![0x4Eu8, 0x45u8][0] == 0x4E);
    assert(seq![0x50u8, 0x54u8][0] == 0x50);
    assert(seq![0x41u8, 0x44u8][0] == 0x41);
    reveal_with_fuel(symbol_fields, 2);
}

/// A result of a function gives its type, the number of its bytes and its text;
/// what follows that does not matter, and fewer bytes are an error.
pub proof fn results_have_a_type_and_a_text(kind: u32, text: Seq<char>, behind: Seq<u8>)
    requires
        encode_utf8(text).len() < 0x1_0000_0000,
    ensures
        ({
            let head = le_bytes(kind as nat, 4) + le_bytes(encode_utf8(text).len(), 4);
            &&& result_parts(head + encode_utf8(text) + behind) == Ok::<_, ErrorView>((kind, text))
            &&& text.len() > 0 ==> result_parts(head) is Err
        }),
{
    let raw = encode_utf8(text);
    let size = le_bytes(raw.len(), 4);
    let mark = le_bytes(kind as nat, 4);
    lemma_le_bytes_len(raw.len(), 4);
    lemma_le_bytes_len(kind as nat, 4);
    reveal_with_fuel(le_limit, 5);
    le_round_trip(raw.len(), 4);
    le_round_trip(kind as nat, 4);
    let head = mark + size;
    let data = head + raw + behind;
    assert(data.subrange(0, 4) =~= mark);
    assert(data.subrange(4, 8) =~= size);
    assert(data.subrange(8, 8 + raw.len() as int) =~= raw);
    encode_utf8_valid_utf8(text);
    encode_utf8_decode_utf8(text);
    assert(head.subrange(4, 8) =~= size);
    if text.len() > 0 {
        assert(raw.len() > 0) by {
            if raw.len() == 0 {
                assert(raw =~= encode_utf8(Seq::<char>::empty()));
                encode_utf8_decode_utf8(Seq::<char>::empty());
            }
        }
    }
}

/// An answer with an error brings its message: as many bytes of text as it says,
/// behind the first ten.
pub proof fn errors_bring_their_message(
    front: Seq<u8>,
    text: Seq<char>,
    behind: Seq<u8>,
)
    requires
        front.len() == 6,
        front[0] != 0,
        text.len() > 0,
        text.last() != '\0',
        encode_utf8(text).len() < 0x1_0000_0000,
    ensures
        ({
            let answer = front + le_bytes(encode_utf8(text).len(), 4) + encode_utf8(text) + behind;
            answer_payload(answer) matches Err(error) && error.message == text && error.code
                == Some(front[0])
        }),
{
    let raw = encode_utf8(text);
    let size = le_bytes(raw.len(), 4);
    lemma_le_bytes_len(raw.len(), 4);
    reveal_with_fuel(le_limit, 5);
    le_round_trip(raw.len(), 4);
    let answer = front + size + raw + behind;
    assert(answer.subrange(6, 10) =~= size);
    assert(answer.subrange(10, 10 + raw.len() as int) =~= raw);
    encode_utf8_valid_utf8(text);
    encode_utf8_decode_utf8(text);
    assert(raw.len() > 0) by {
        if raw.len() == 0 {
            assert(raw =~= encode_utf8(Seq::<char>::empty()));
            encode_utf8_decode_utf8(Seq::<char>::empty());
        }
    }
    assert(answer[0] == front[0]);
}

/// What a user reads of a failure names the command or the function where there is
/// one, and the message where there is one.
pub proof fn failures_are_told(
    code: Option<u8>,
    message: Seq<char>,
    command: Seq<char>,
)
    ensures
        has_text(
            (Trace32View { code, operation: OperationView::Command(command), message }).text(),
            command,
        ),
        has_text(
            (Trace32View { code, operation: OperationView::Command(command), message }).text(),
            message,
        ),
        has_text(
            (Trace32View { code, operation: OperationView::Function(command), message }).text(),
            message,
        ),
        message.len() == 0 ==> has_text(
            (Trace32View { code, operation: OperationView::Function(command), message }).text(),
            command,
        ),
        has_text(
            (Trace32View { code, operation: OperationView::MemoryRead, message }).text(),
            "memory read"@,
        ),
        has_text(
            (Trace32View { code, operation: OperationView::MemoryWrite, message }).text(),
            "memory write"@,
        ),
        has_text(
            (Trace32View { code, operation: OperationView::MemoryRead, message }).text(),
            message,
        ),
        has_text(
            (Trace32View { code, operation: OperationView::MemoryWrite, message }).text(),
            message,
        ),
        has_text((Trace32View { code, operation: OperationView::Api, message }).text(), message),
        (Trace32View { code, operation: OperationView::Api, message }).text().len() > 0,
{
    let failed = (Trace32View { code, operation: OperationView::Command(command), message }).text();
    reveal_strlit("command failed (command: ");
    reveal_strlit(" (command: ");
    reveal_strlit(")");
    let at = failed.len() - 1 - command.len();
    assert(failed.subrange(at, at + command.len()) =~= command);
    assert(occurs_at(failed, command, at));
    assert(failed.subrange(0, message.len() as int) =~= message);
    assert(occurs_at(failed, message, 0));
    let function = (Trace32View {
        code,
        operation: OperationView::Function(command),
        message,
    }).text();
    assert(function.subrange(0, message.len() as int) =~= message);
    assert(occurs_at(function, message, 0));
    if message.len() == 0 {
        let k = function.len() - command.len();
        assert(function.subrange(k, k + command.len()) =~= command);
        assert(occurs_at(function, command, k));
    }
    reveal_strlit("memory read failed");
    reveal_strlit("memory read failed: ");
    reveal_strlit("memory write failed");
    reveal_strlit("memory write failed: ");
    reveal_strlit("memory read");
    reveal_strlit("memory write");
    let read = (Trace32View { code, operation: OperationView::MemoryRead, message }).text();
    let write = (Trace32View { code, operation: OperationView::MemoryWrite, message }).text();
    let api = (Trace32View { code, operation: OperationView::Api, message }).text();
    assert(read.subrange(0, "memory read"@.len() as int) =~= "memory read"@);
    assert(occurs_at(read, "memory read"@, 0));
    assert(write.subrange(0, "memory write"@.len() as int) =~= "memory write"@);
    assert(occurs_at(write, "memory write"@, 0));
    let r = read.len() - message.len();
    assert(read.subrange(r, r + message.len()) =~= message);
    assert(occurs_at(read, message, r));
    let w = write.len() - message.len();
    assert(write.subrange(w, w + message.len()) =~= message);
    assert(occurs_at(write, message, w));
    assert(api.subrange(0, message.len() as int) =~= message);
    assert(occurs_at(api, message, 0));
    reveal_strlit("TRACE32 error ");
    reveal_strlit("TRACE32 error");
}

proof fn lemma_run(s: Seq<char>, at: int, end: int)
    requires
        0 <= at <= end <= s.len(),
        forall|i: int| at <= i < end ==> '0' <= #[trigger] s[i] && s[i] <= '9',
        end < s.len() ==> !('0' <= s[end] && s[end] <= '9'),
    ensures
        digit_run(s, at) == end,
    decreases end - at,
{
    if at < end {
        assert('0' <= s[at] && s[at] <= '9');
        lemma_run(s, at + 1, end);
    }
}

proof fn lemma_digits_literal(n: nat)
    ensures
        float_literal(decimal_text(n)) == Some(decimal_text(n)),
        decimal_text(n).len() > 0,
        !decimal_text(n).contains('.'),
        !decimal_text(n).contains('-'),
{
    let d = decimal_text(n);
    decimal_round_trip(n);
    assert(d.len() > 0);
    assert('0' <= d[0] && d[0] <= '9');
    assert('0' <= d[d.len() - 1] && d[d.len() - 1] <= '9');
    the_middle_stays(seq![], d, seq![]);
    assert(seq![] + d + seq![] =~= d);
    lemma_run(d, 0, d.len() as int);
    assert forall|i: int| 0 <= i < d.len() implies #[trigger] d[i] != '.' && d[i] != '-' by {
        assert('0' <= d[i] && d[i] <= '9');
    }
}

/// A result of a numeric type with digits on both sides of a point is that number.
pub proof fn numbers_with_a_point_are_read(n: nat, m: nat, unit: char, expression: Seq<char>)
    ensures
        ({
            let number = decimal_text(n).push('.') + decimal_text(m);
            &&& decoded(0x0010, number, expression) == Ok::<_, ErrorView>(ValueView::Float(number))
            &&& decoded(0x0400, number.push(unit), expression) == Ok::<_, ErrorView>(
                ValueView::Float(number),
            )
        }),
{
    let a = decimal_text(n);
    let b = decimal_text(m);
    let s = a.push('.') + b;
    decimal_round_trip(n);
    decimal_round_trip(m);
    assert forall|i: int| 0 <= i < a.len() implies '0' <= #[trigger] s[i] && s[i] <= '9' by {
        assert(s[i] == a[i]);
    }
    assert forall|i: int| a.len() < i < s.len() implies '0' <= #[trigger] s[i] && s[i] <= '9' by {
        assert(s[i] == b[i - a.len() - 1]);
    }
    let point = a.len() as int;
    assert(s[point] == '.');
    lemma_run(s, 0, point);
    lemma_run(s, point + 1, s.len() as int);
    assert('0' <= s[0] && s[0] <= '9');
    assert('0' <= s[s.len() - 1] && s[s.len() - 1] <= '9');
    the_middle_stays(seq![], s, seq![]);
    assert(seq![] + s + seq![] =~= s);
    assert(is_number(s));
    assert(s.push(unit).drop_last() =~= s);
}

/// A range of times gives its two limits, without their units.
pub proof fn ranges_give_both_limits(n: nat, m: nat, expression: Seq<char>)
    ensures
        decoded(
            0x0800,
            decimal_text(n).push('s') + seq!['.', '.'] + decimal_text(m).push('s'),
            expression,
        ) == Ok::<_, ErrorView>(ValueView::TimeRange(seq![decimal_text(n), decimal_text(m)])),
{
    let a = decimal_text(n).push('s');
    let b = decimal_text(m).push('s');
    let dots = seq!['.', '.'];
    let dashes = seq!['-', '-'];
    let value = a + dots + b;
    lemma_digits_literal(n);
    lemma_digits_literal(m);
    lemma_lacks(decimal_text(n), '.', 's');
    lemma_lacks(decimal_text(m), '.', 's');
    lemma_lacks(decimal_text(n), '-', 's');
    lemma_lacks(decimal_text(m), '-', 's');
    assert forall|i: int| 0 <= i < value.len() implies !occurs_at(value, dashes, i) by {
        if occurs_at(value, dashes, i) {
            assert(value.subrange(i, i + 2)[0] == value[i]);
            assert(dashes[0] == '-');
            if i < a.len() {
                assert(a[i] == value[i]);
                assert(a.contains('-'));
            } else if i >= a.len() + 2 {
                assert(b[i - a.len() - 2] == value[i]);
                assert(b.contains('-'));
            }
        }
    }
    lemma_replace_absent(value, dashes, dots, 0);
    assert(value.skip(0) =~= value);
    assert(replaced(value, dashes, dots) == value);
    crate::laws::framing::lemma_split_first(a, dots, b, 0);
    assert forall|i: int| 0 <= i < b.len() implies #[trigger] b[i] != dots[0] by {
        assert(b.contains(b[i]));
    }
    crate::text::lemma_split_absent(b, dots, 0);
    let parts = range_parts(value);
    assert(parts =~= seq![a, b]);
    assert(a.drop_last() =~= decimal_text(n));
    assert(b.drop_last() =~= decimal_text(m));
    assert(parts.drop_last() =~= seq![a]);
    assert(seq![a].drop_last() =~= seq![]);
    reveal_with_fuel(range_literals, 3);
    assert(range_literals(seq![a]) == Some(seq![decimal_text(n)])) by {
        assert(Seq::<Seq<char>>::empty().push(decimal_text(n)) =~= seq![decimal_text(n)]);
    }
    assert(seq![decimal_text(n)].push(decimal_text(m)) =~= seq![decimal_text(n), decimal_text(m)]);
}

proof fn lemma_lacks(s: Seq<char>, c: char, last: char)
    requires
        !s.contains(c),
        last != c,
    ensures
        !s.push(last).contains(c),
{
    if s.push(last).contains(c) {
        let i = choose|i: int| 0 <= i < s.push(last).len() && s.push(last)[i] == c;
        assert(s[i] == c);
    }
}

/// A result whose type is one of texts is its text; one of an unknown type is nothing.
pub proof fn other_results_are_texts_or_nothing(kind: u32, value: Seq<char>, expression: Seq<char>)
    ensures
        kind == 0 || kind == 0x20 || kind == 0x40 || kind == 0x80 || kind == 0x100 || kind == 0x200
            || kind == 0x4000 ==> decoded(kind, value, expression) == Ok::<_, ErrorView>(
            ValueView::Text(value),
        ),
        kind == 3 || (kind > 0x800 && kind != 0x4000) ==> decoded(kind, value, expression) == Ok::<
            _,
            ErrorView,
        >(ValueView::Empty),
{
}

/// Whether two bytes name a parameter of an address with a value of two bytes.
pub open spec fn is_short_parameter(first: u8, second: u8) -> bool {
    ||| first == 0x57 && second == 0x49
    ||| first == 0x43 && second == 0x4F
    ||| first == 0x4D && second == 0x55
    ||| first == 0x54 && second == 0x55
}

/// Whether two bytes name a parameter of an address with a value of four bytes.
pub open spec fn is_long_parameter(first: u8, second: u8) -> bool {
    ||| first == 0x53 && second == 0x49
    ||| first == 0x49 && second == 0x4D
    ||| first == 0x41 && second == 0x54
}

/// Parameters of an address that do not matter are passed over, each with its value;
/// what is no parameter is an error.
pub proof fn other_parameters_are_passed_over(
    data: Seq<u8>,
    at: nat,
    access: Option<Seq<char>>,
)
    requires
        at + 2 <= data.len(),
    ensures
        ({
            let first = data[at as int];
            let second = data[at as int + 1];
            &&& is_short_parameter(first, second) ==> address_parameters(data, at, access)
                == address_parameters(data, at + 4, access)
            &&& is_long_parameter(first, second) ==> address_parameters(data, at, access)
                == address_parameters(data, at + 6, access)
            &&& first == 0x58 && second == 0x58 ==> address_parameters(data, at, access) == Ok::<
                _,
                ErrorView,
            >((at + 2, access))
            &&& !is_short_parameter(first, second) && !is_long_parameter(first, second) && !(first
                == 0x58 && second == 0x58) && !(first == 0x41 && second == 0x43)
                ==> address_parameters(data, at, access) is Err
        }),
{
    let id = data.subrange(at as int, at as int + 2);
    let first = data[at as int];
    let second = data[at as int + 1];
    assert(id =~= seq![first, second]);
    assert(id[0] == first && id[1] == second);
    assert(seq![0x41u8, 0x43u8][0] == 0x41 && seq![0x41u8, 0x43u8][1] == 0x43);
    assert(seq![0x57u8, 0x49u8][0] == 0x57 && seq![0x57u8, 0x49u8][1] == 0x49);
    assert(seq![0x43u8, 0x4Fu8][0] == 0x43 && seq![0x43u8, 0x4Fu8][1] == 0x4F);
    assert(seq![0x4Du8, 0x55u8][0] == 0x4D && seq![0x4Du8, 0x55u8][1] == 0x55);
    assert(seq![0x54u8, 0x55u8][0] == 0x54 && seq![0x54u8, 0x55u8][1] == 0x55);
    assert(seq![0x53u8, 0x49u8][0] == 0x53 && seq![0x53u8, 0x49u8][1] == 0x49);
    assert(seq![0x49u8, 0x4Du8][0] == 0x49 && seq![0x49u8, 0x4Du8][1] == 0x4D);
    assert(seq![0x41u8, 0x54u8][0] == 0x41 && seq![0x41u8, 0x54u8][1] == 0x54);
    assert(seq![0x58u8, 0x58u8][0] == 0x58 && seq![0x58u8, 0x58u8][1] == 0x58);
}

/// An address has four bytes of value or eight, by its type; other types are refused.
pub proof fn addresses_have_their_size(value: u64, kind: u16)
    ensures
        value <= u32::MAX ==> (read_address(
            le_bytes(2, 2) + le_bytes(value as nat, 4) + seq![0x58u8, 0x58u8],
        ) matches Ok((end, address)) && end == 8 && address.value == value && address.access
            is None),
        read_address(le_bytes(3, 2) + le_bytes(value as nat, 8) + seq![0x58u8, 0x58u8]) matches Ok(
            (end, address),
        ) && end == 12 && address.value == value && address.access is None,
        kind != 2 && kind != 3 ==> read_address(
            le_bytes(kind as nat, 2) + le_bytes(value as nat, 8) + seq![0x58u8, 0x58u8],
        ) is Err,
{
    let end = seq![0x58u8, 0x58u8];
    lemma_le_bytes_len(2, 2);
    lemma_le_bytes_len(3, 2);
    lemma_le_bytes_len(kind as nat, 2);
    lemma_le_bytes_len(value as nat, 4);
    lemma_le_bytes_len(value as nat, 8);
    reveal_with_fuel(le_limit, 9);
    le_round_trip(2, 2);
    le_round_trip(3, 2);
    le_round_trip(kind as nat, 2);
    le_round_trip(value as nat, 8);
    let short = le_bytes(2, 2) + le_bytes(value as nat, 4) + end;
    let long = le_bytes(3, 2) + le_bytes(value as nat, 8) + end;
    let other = le_bytes(kind as nat, 2) + le_bytes(value as nat, 8) + end;
    assert(short.subrange(0, 2) =~= le_bytes(2, 2));
    assert(short.subrange(2, 6) =~= le_bytes(value as nat, 4));
    assert(long.subrange(0, 2) =~= le_bytes(3, 2));
    assert(long.subrange(2, 10) =~= le_bytes(value as nat, 8));
    assert(other.subrange(0, 2) =~= le_bytes(kind as nat, 2));
    other_parameters_are_passed_over(short, 6, None);
    other_parameters_are_passed_over(long, 10, None);
    if value <= u32::MAX {
        le_round_trip(value as nat, 4);
    }
}

/// The names of infinities and of what is no number are numbers, in any case and with
/// a sign or without.
pub proof fn infinities_are_numbers(name: Seq<char>, sign: char)
    requires
        uppercase(name) == "INF"@ || uppercase(name) == "INFINITY"@ || uppercase(name) == "NAN"@,
        sign == '+' || sign == '-',
    ensures
        float_literal(name) == Some(name),
        float_literal(seq![sign] + name) == Some(seq![sign] + name),
{
    reveal_strlit("INF");
    reveal_strlit("INFINITY");
    reveal_strlit("NAN");
    let big = uppercase(name);
    assert(big.len() == name.len());
    let n = name.len() as int;
    assert(big[0] == upper(name[0]) && big[n - 1] == upper(name[n - 1]));
    assert(!is_space(name[0]) && !is_space(name[n - 1]));
    assert(name[0] != '+' && name[0] != '-');
    the_middle_stays(seq![], name, seq![]);
    assert(seq![] + name + seq![] =~= name);
    let signed = seq![sign] + name;
    assert(signed.last() == name[n - 1]);
    the_middle_stays(seq![], signed, seq![]);
    assert(seq![] + signed + seq![] =~= signed);
    assert(signed.skip(1) =~= name);
}

/// Digits may have an exponent with digits behind them, with a sign or without.
pub proof fn exponents_follow_digits(n: nat, m: nat, letter: char, sign: char)
    requires
        letter == 'e' || letter == 'E',
        sign == '+' || sign == '-',
    ensures
        ({
            let plain = decimal_text(n).push(letter) + decimal_text(m);
            let signed = decimal_text(n).push(letter).push(sign) + decimal_text(m);
            &&& float_literal(plain) == Some(plain)
            &&& float_literal(signed) == Some(signed)
            &&& float_literal(decimal_text(n).push(letter)) is None
        }),
{
    let a = decimal_text(n);
    let b = decimal_text(m);
    decimal_round_trip(n);
    decimal_round_trip(m);
    lemma_exponent(a, a.push(letter), b);
    lemma_exponent(a, a.push(letter).push(sign), b);
    let open = a.push(letter);
    assert forall|i: int| 0 <= i < a.len() implies '0' <= #[trigger] open[i] && open[i] <= '9' by {
        assert(open[i] == a[i]);
    }
    lemma_run(open, 0, a.len() as int);
    assert(open[0] == a[0]);
    assert('0' <= a[0] && a[0] <= '9');
    the_middle_stays(seq![], open, seq![]);
    assert(seq![] + open + seq![] =~= open);
    reveal_strlit("INF");
    reveal_strlit("INFINITY");
    reveal_strlit("NAN");
    let big = uppercase(open);
    assert(big.len() == open.len());
    assert(big[0] == upper(open[0]));
    assert(upper(open[0]) == open[0]);
    assert("INF"@[0] == 'I' && "INFINITY"@[0] == 'I' && "NAN"@[0] == 'N');
}

proof fn lemma_exponent(a: Seq<char>, head: Seq<char>, b: Seq<char>)
    requires
        a.len() > 0,
        b.len() > 0,
        forall|i: int| 0 <= i < a.len() ==> '0' <= #[trigger] a[i] && a[i] <= '9',
        forall|i: int| 0 <= i < b.len() ==> '0' <= #[trigger] b[i] && b[i] <= '9',
        a.is_prefix_of(head),
        head.len() == a.len() + 1 || head.len() == a.len() + 2,
        head[a.len() as int] == 'e' || head[a.len() as int] == 'E',
        head.len() == a.len() + 2 ==> head.last() == '+' || head.last() == '-',
    ensures
        float_literal(head + b) == Some(head + b),
{
    let s = head + b;
    let n = a.len() as int;
    assert forall|i: int| 0 <= i < n implies '0' <= #[trigger] s[i] && s[i] <= '9' by {
        assert(s[i] == head[i]);
        assert(head[i] == a[i]);
    }
    assert(s[n] == head[n]);
    lemma_run(s, 0, n);
    assert forall|i: int| head.len() <= i < s.len() implies '0' <= #[trigger] s[i] && s[i]
        <= '9' by {
        assert(s[i] == b[i - head.len()]);
    }
    lemma_run(s, head.len() as int, s.len() as int);
    if head.len() == n + 2 {
        assert(s[n + 1] == head.last());
    } else {
        assert('0' <= s[n + 1] && s[n + 1] <= '9');
    }
    assert(is_number(s));
    assert('0' <= s[0] && s[0] <= '9');
    assert('0' <= s[s.len() - 1] && s[s.len() - 1] <= '9');
    the_middle_stays(seq![], s, seq![]);
    assert(seq![] + s + seq![] =~= s);
}

proof fn lemma_trim_front(c: char, count: nat, text: Seq<char>)
    requires
        text.len() > 0,
        text[0] != c,
    ensures
        trim_start_char(repeated(c, count) + text, c) == text,
    decreases count,
{
    let all = repeated(c, count) + text;
    if count == 0 {
        assert(all =~= text);
    } else {
        assert(all[0] == c);
        assert(all.skip(1) =~= repeated(c, (count - 1) as nat) + text);
        lemma_trim_front(c, (count - 1) as nat, text);
    }
}

proof fn lemma_trim_back(c: char, count: nat, text: Seq<char>)
    requires
        text.len() > 0,
        text.last() != c,
    ensures
        trim_end_char(text + repeated(c, count), c) == text,
    decreases count,
{
    let all = text + repeated(c, count);
    if count == 0 {
        assert(all =~= text);
    } else {
        assert(all.last() == c);
        assert(all.drop_last() =~= text + repeated(c, (count - 1) as nat));
        lemma_trim_back(c, (count - 1) as nat, text);
    }
}

/// An access class has neither the zeros around it that fill its field nor the colons
/// inside them.
pub proof fn access_classes_lack_what_surrounds_them(
    text: Seq<char>,
    zeros_before: nat,
    colons_before: nat,
    colons_behind: nat,
    zeros_behind: nat,
)
    requires
        text.len() > 0,
        text[0] != ':' && text[0] != '\0',
        text.last() != ':' && text.last() != '\0',
    ensures
        access_text(
            encode_utf8(
                repeated('\0', zeros_before) + (repeated(':', colons_before) + (text + repeated(
                    ':',
                    colons_behind,
                ))) + repeated('\0', zeros_behind),
            ),
        ) == Ok::<_, ErrorView>(text),
{
    let right = text + repeated(':', colons_behind);
    let core = repeated(':', colons_before) + right;
    let left = repeated('\0', zeros_before) + core;
    let all = left + repeated('\0', zeros_behind);
    encode_utf8_valid_utf8(all);
    encode_utf8_decode_utf8(all);
    assert(core.len() > 0);
    assert(core.last() != '\0') by {
        if colons_behind > 0 {
            assert(core.last() == ':');
        } else {
            assert(core.last() == text.last());
        }
    }
    assert(left.last() == core.last());
    lemma_trim_back('\0', zeros_behind, left);
    assert(core[0] != '\0') by {
        if colons_before > 0 {
            assert(core[0] == ':');
        } else {
            assert(core[0] == text[0]);
        }
    }
    lemma_trim_front('\0', zeros_before, core);
    assert(core =~= repeated(':', colons_before) + text + repeated(':', colons_behind));
    let front = repeated(':', colons_before) + text;
    assert(front.last() == text.last());
    lemma_trim_back(':', colons_behind, front);
    lemma_trim_front(':', colons_before, text);
}

/// What a user reads of an error is its own text where it has one; an expired time is
/// told as such.
pub proof fn errors_are_told(text: Seq<char>, limit: Span, error: Trace32View)
    ensures
        ErrorView::Connect(text).text() == text,
        ErrorView::Protocol(text).text() == text,
        ErrorView::Trace32(error).text() == error.text(),
        ErrorView::Timeout.text() == "timed out"@,
        ErrorView::ScriptTimeout(limit).text() == "PRACTICE script did not finish within "@
            + duration_text(limit.whole(), limit.part()),
{
}

}
