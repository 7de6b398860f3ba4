//! How numbers and addresses are written and read.

use vstd::prelude::*;
use vstd::string::*;

use crate::laws::text::{is_blank_text, the_middle_stays};
use crate::pycompat::{auto_value, prefix_base};
use crate::t32rcl::address::{parsed_address, AddressView};
use crate::t32rcl::error::{default_text, error_of_code};
use crate::t32rcl::eval::{after_underscore, behind_prefix, grouped_value, int_value};
use crate::text::{
    decimal_round_trip, decimal_text, digit_of, digits_value, has_text, is_digits, is_space,
    last_position, lemma_last_position_tail, lemma_without_absent, occurs_at, radix_round_trip,
    radix_text, trimmed, without, zero_padded,
};
use crate::world::assignments;

verus! {

/// Digits of which none is an underscore may be parted by one; at the ends, doubled or
/// among other characters it is refused.
pub proof fn underscores_part_digits(a: Seq<char>, b: Seq<char>, base: nat)
    requires
        2 <= base <= 36,
        is_digits(a, base),
        is_digits(b, base),
    ensures
        grouped_value(a, base) == Some(digits_value(a, base)),
        grouped_value(a.push('_') + b, base) == Some(digits_value(a + b, base)),
        grouped_value(a.push('_'), base) is None,
        grouped_value(seq!['_'] + b, base) is None,
        grouped_value(a.push('_').push('_') + b, base) is None,
        grouped_value(seq![], base) is None,
{
    lemma_no_underscore(a, base);
    lemma_no_underscore(b, base);
    lemma_without_both(a, b);
    lemma_without_absent(a, '_');
    lemma_without_absent(b, '_');
    let one = a.push('_') + b;
    let both = a + b;
    assert forall|i: int| 0 <= i < both.len() implies digit_of(
        #[trigger] both[i],
        base,
    ) is Some by {
        if i < a.len() {
            assert(both[i] == a[i]);
        } else {
            assert(both[i] == b[i - a.len()]);
        }
    }
    assert(!has_text(a, seq!['_', '_'])) by {
        if has_text(a, seq!['_', '_']) {
            let at = choose|at: int| occurs_at(a, seq!['_', '_'], at);
            assert(a.subrange(at, at + 2)[0] == a[at]);
        }
    }
    assert(!has_text(one, seq!['_', '_'])) by {
        if has_text(one, seq!['_', '_']) {
            let at = choose|at: int| occurs_at(one, seq!['_', '_'], at);
            let part = one.subrange(at, at + 2);
            assert(part[0] == one[at] && part[1] == one[at + 1]);
            if at < a.len() {
                assert(a[at] == one[at]);
            } else {
                assert(b[at - a.len()] == one[at + 1]);
            }
        }
    }
    assert(one[0] == a[0]);
    assert(one.last() == b[b.len() - 1]);
    let two = a.push('_').push('_') + b;
    assert(two.subrange(a.len() as int, a.len() as int + 2) =~= seq!['_', '_']);
    assert(occurs_at(two, seq!['_', '_'], a.len() as int));
}

proof fn lemma_no_underscore(s: Seq<char>, base: nat)
    requires
        base <= 36,
        is_digits(s, base),
    ensures
        forall|i: int| 0 <= i < s.len() ==> #[trigger] s[i] != '_',
{
    assert forall|i: int| 0 <= i < s.len() implies #[trigger] s[i] != '_' by {
        assert(digit_of(s[i], base) is Some);
    }
}

proof fn lemma_without_both(a: Seq<char>, b: Seq<char>)
    ensures
        without(a.push('_') + b, '_') == without(a, '_') + without(b, '_'),
    decreases b.len(),
{
    let all = a.push('_') + b;
    if b.len() == 0 {
        assert(all.drop_last() =~= a);
        assert(all.last() == '_');
        assert(without(a, '_') + without(b, '_') =~= without(a, '_'));
    } else {
        assert(all.drop_last() =~= a.push('_') + b.drop_last());
        assert(all.last() == b.last());
        lemma_without_both(a, b.drop_last());
        assert(without(all, '_') =~= without(a, '_') + without(b, '_'));
    }
}

/// A number may have white space around it and a sign before it.
pub proof fn numbers_may_have_a_sign(a: Seq<char>, digits: Seq<char>, b: Seq<char>)
    requires
        is_blank_text(a),
        is_blank_text(b),
        is_digits(digits, 10),
        digits_value(digits, 10) <= i128::MAX,
    ensures
        int_value(a + digits + b, 10) == Some(digits_value(digits, 10) as int),
        int_value(a + (seq!['+'] + digits) + b, 10) == Some(digits_value(digits, 10) as int),
        int_value(a + (seq!['-'] + digits) + b, 10) == Some(-digits_value(digits, 10)),
{
    lemma_no_underscore(digits, 10);
    underscores_part_digits(digits, digits, 10);
    assert forall|i: int| 0 <= i < digits.len() implies !is_space(#[trigger] digits[i]) && digits[i]
        != '+' && digits[i] != '-' by {
        assert(digit_of(digits[i], 10) is Some);
    }
    let n = digits.len() as int;
    assert(!is_space(digits[n - 1]));
    the_middle_stays(a, digits, b);
    the_middle_stays(a, seq!['+'] + digits, b);
    the_middle_stays(a, seq!['-'] + digits, b);
    assert((seq!['+'] + digits).last() == digits[n - 1]);
    assert((seq!['-'] + digits).last() == digits[n - 1]);
    assert((seq!['+'] + digits).skip(1) =~= digits);
    assert((seq!['-'] + digits).skip(1) =~= digits);
}

/// A decimal number with zeros before it is refused where its base has to be guessed;
/// zeros alone are zero.
pub proof fn leading_zeros_are_refused(n: nat, zeros: nat)
    requires
        zeros > 0,
        n <= i128::MAX,
    ensures
        n > 0 ==> auto_value(crate::text::repeated('0', zeros) + decimal_text(n)) is None,
{
    if n > 0 {
        let d = decimal_text(n);
        let front = crate::text::repeated('0', zeros);
        let s = front + d;
        decimal_round_trip(n);
        radix_round_trip(n, 10);
        crate::text::lemma_radix_ten_sixteen(n);
        assert(d[0] != '0');
        assert(s[front.len() as int] == d[0]);
        assert forall|i: int| 0 <= i < s.len() implies '0' <= #[trigger] s[i] && s[i] <= '9' by {
            if i >= front.len() {
                assert(s[i] == d[i - front.len()]);
            }
        }
        assert(s[0] == '0');
        assert('0' <= s[s.len() - 1] && s[s.len() - 1] <= '9');
        the_middle_stays(seq![], s, seq![]);
        assert(seq![] + s + seq![] =~= s);
        lemma_without_absent(s, '_');
        assert('0' <= s[1] && s[1] <= '9');
    }
}

/// An address in decimal digits is read as it is, and one behind an access class has
/// that class.
pub proof fn decimal_addresses_are_read(n: u64, access: Seq<char>)
    requires
        access.len() > 0,
        !access.contains('\n'),
    ensures
        parsed_address(decimal_text(n as nat)) == Some(AddressView { access: None, value: n }),
        parsed_address(access.push(':') + decimal_text(n as nat)) == Some(
            AddressView { access: Some(access), value: n },
        ),
{
    let d = decimal_text(n as nat);
    decimal_round_trip(n as nat);
    radix_round_trip(n as nat, 10);
    crate::text::lemma_radix_ten_sixteen(n as nat);
    assert forall|i: int| 0 <= i < d.len() implies #[trigger] d[i] != ':' && d[i] != '\n' && d[i]
        != 'x' by {
        assert('0' <= d[i] && d[i] <= '9');
    }
    assert(!d.contains(':'));
    lemma_no_last(d, ':');
    assert(d.skip(0) =~= d);
    let text = access.push(':') + d;
    lemma_last_position_tail(access, ':', d);
    assert(text.skip(access.len() as int + 1) =~= d);
    assert(text.take(access.len() as int) =~= access);
    assert(!text.contains('\n')) by {
        if text.contains('\n') {
            let i = choose|i: int| 0 <= i < text.len() && text[i] == '\n';
            if i < access.len() {
                assert(access[i] == '\n');
            } else if i > access.len() {
                assert(d[i - access.len() - 1] == '\n');
            }
        }
    }
}

proof fn lemma_no_last(s: Seq<char>, c: char)
    requires
        forall|i: int| 0 <= i < s.len() ==> #[trigger] s[i] != c,
    ensures
        last_position(s, c) == -1,
    decreases s.len(),
{
    if s.len() > 0 {
        assert(s[s.len() - 1] != c);
        assert forall|i: int| 0 <= i < s.drop_last().len() implies #[trigger] s.drop_last()[i]
            != c by {
            assert(s.drop_last()[i] == s[i]);
        }
        lemma_no_last(s.drop_last(), c);
    }
}

/// An address is shown with eight hexadecimal digits at least.
pub proof fn addresses_are_shown_in_full(value: u64)
    ensures
        (AddressView { access: None, value }).text().len() >= 10,
        value < 0x1000_0000 ==> (AddressView { access: None, value }).text()[2] == '0',
{
    reveal_strlit("0x");
    if value < 0x1000_0000 {
        reveal_with_fuel(crate::text::hex_text, 8);
    }
}

/// Filling up changes nothing but the width: zeros come before the text, as many as
/// are missing.
pub proof fn zeros_fill_up_to_the_width(text: Seq<char>, width: nat, i: int)
    ensures
        ({
            let filled = zero_padded(text, width);
            &&& filled.len() == (if text.len() >= width {
                text.len()
            } else {
                width
            })
            &&& filled.skip(filled.len() - text.len()) == text
            &&& 0 <= i < filled.len() - text.len() ==> filled[i] == '0'
        }),
{
    let filled = zero_padded(text, width);
    assert(filled.skip(filled.len() - text.len()) =~= text);
}

/// What is assigned last counts, and an assignment to one variable leaves the others
/// alone.
pub proof fn the_last_assignment_counts(
    entries: Seq<(String, String)>,
    name: String,
    value: String,
    other: Seq<char>,
)
    ensures
        assignments(entries.push((name, value))).contains_key(name@),
        assignments(entries.push((name, value)))[name@] == value@,
        other != name@ ==> assignments(entries.push((name, value))).contains_key(other)
            == assignments(entries).contains_key(other),
        other != name@ ==> assignments(entries.push((name, value)))[other] == assignments(
            entries,
        )[other],
{
    assert(entries.push((name, value)).drop_last() =~= entries);
}

/// An error with a message tells the message; without one it tells what its code
/// stands for, and the code itself where that is not known.
pub proof fn codes_stand_for_texts(code: u8, message: Seq<char>)
    ensures
        error_of_code(code, Some(message)).message == message,
        error_of_code(code, None).message == (match default_text(code) {
            Some(text) => text,
            None => "TRACE32 error "@ + decimal_text(code as nat),
        }),
        code == 2 ==> default_text(code) == Some("target running"@),
        code == 3 ==> default_text(code) == Some("target not running"@),
        code == 4 ==> default_text(code) == Some("target is in reset"@),
        code == 6 ==> default_text(code) == Some("access timeout, target running"@),
        code == 10 ==> default_text(code) == Some("not implemented"@),
        code == 14 ==> default_text(code) == Some("registerset undefined"@),
        code == 15 ==> default_text(code) == Some("verify error"@),
        code == 16 ==> default_text(code) == Some("bus error"@),
        code == 22 ==> default_text(code) == Some("no memory mapped"@),
        code == 48 ==> default_text(code) == Some("target reset detected"@),
        code == 49 ==> default_text(code) == Some("FDX buffer error"@),
        code == 57 ==> default_text(code) == Some("no RTCK detected"@),
        code == 60 ==> default_text(code) == Some("no valid license detected"@),
        code == 64 ==> default_text(code) == Some("core has no clock/power/reset in SMP"@),
        code == 67 ==> default_text(code) == Some("user signal"@),
        code == 83 ==> default_text(code) == Some("tried to connect to emu"@),
        90 <= code <= 93 ==> default_text(code) == Some(""@),
        code == 113 ==> default_text(code) == Some("113 std failed"@),
        code == 123 ==> default_text(code) == Some("access locked"@),
        code == 128 ==> default_text(code) == Some("power fail"@),
        code == 140 ==> default_text(code) == Some("debug port fail"@),
        code == 144 ==> default_text(code) == Some("debug port timeout"@),
        code == 147 ==> default_text(code) == Some("no debug device"@),
        code == 161 ==> default_text(code) == Some("target reset fail"@),
        code == 162 ==> default_text(code) == Some("emulator communication timeout"@),
        code == 164 ==> default_text(code) == Some("no RTCK on emulator"@),
        code == 254 ==> default_text(code) == Some("T32_Attach() is missing"@),
        code == 255 ==> default_text(code) == Some("FATAL ERROR 255"@),
{
}

/// The digits behind a prefix: those themselves, or what follows one underscore.
proof fn lemma_behind_prefix(s: Seq<char>, base: nat, digits: Seq<char>)
    requires
        s.len() > 2,
        s[0] == '0',
        base == 16 && (s[1] == 'x' || s[1] == 'X') || base == 8 && (s[1] == 'o' || s[1] == 'O')
            || base == 2 && (s[1] == 'b' || s[1] == 'B'),
        !is_space(s.last()),
        after_underscore(s.skip(2)) == digits,
        grouped_value(digits, base) matches Some(value) && value <= i128::MAX,
    ensures
        auto_value(s) == Some(grouped_value(digits, base)->Some_0 as int),
        base != 8 ==> int_value(s, base) == Some(grouped_value(digits, base)->Some_0 as int),
{
    the_middle_stays(seq![], s, seq![]);
    assert(seq![] + s + seq![] =~= s);
    assert(trimmed(s) == s);
    assert(prefix_base(s) == base);
    if base != 8 {
        assert(behind_prefix(s, base) == digits);
    }
}

/// The letter behind the first zero gives the base, whatever its case.
pub proof fn prefixes_give_the_base(n: nat, base: nat, letter: char)
    requires
        n <= i128::MAX,
        base == 16 && (letter == 'x' || letter == 'X') || base == 8 && (letter == 'o' || letter
            == 'O') || base == 2 && (letter == 'b' || letter == 'B'),
    ensures
        auto_value(seq!['0', letter] + radix_text(n, base)) == Some(n as int),
        auto_value(seq!['0', letter, '_'] + radix_text(n, base)) == Some(n as int),
        base != 8 ==> int_value(seq!['0', letter] + radix_text(n, base), base) == Some(n as int),
{
    let digits = radix_text(n, base);
    let s = seq!['0', letter] + digits;
    let t = seq!['0', letter, '_'] + digits;
    radix_round_trip(n, base);
    lemma_no_underscore(digits, base);
    underscores_part_digits(digits, digits, base);
    let last = digits[digits.len() - 1];
    assert(!is_space(last)) by {
        assert(digit_of(last, base) is Some);
    }
    assert(s.last() == last && t.last() == last);
    assert(s.skip(2) =~= digits);
    assert(t.skip(2) =~= seq!['_'] + digits);
    assert((seq!['_'] + digits).skip(1) =~= digits);
    assert(digits[0] != '_');
    lemma_behind_prefix(s, base, digits);
    lemma_behind_prefix(t, base, digits);
}

}
