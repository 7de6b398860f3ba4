//! What is found in JSON values.

use vstd::prelude::*;

use crate::json::{field, integer_in, is_truthy, member, string_in, with_member, JsonView};
use crate::text::{decimal_round_trip, decimal_text, digit_of, integer_text};

verus! {

/// The first member with a key counts, and a key that no member has is not found.
pub proof fn the_first_member_counts(
    before: Seq<(Seq<char>, JsonView)>,
    key: Seq<char>,
    value: JsonView,
    behind: Seq<(Seq<char>, JsonView)>,
)
    requires
        forall|i: int| 0 <= i < before.len() ==> (#[trigger] before[i]).0 != key,
    ensures
        member(before.push((key, value)) + behind, key) == Some(value),
        field(JsonView::Object(before.push((key, value)) + behind), key) == Some(value),
        member(before, key) is None,
        field(JsonView::Array(seq![value]), key) is None,
    decreases before.len(),
{
    let all = before.push((key, value)) + behind;
    if before.len() == 0 {
        assert(all[0] == (key, value));
    } else {
        let rest = before.skip(1);
        assert forall|i: int| 0 <= i < rest.len() implies (#[trigger] rest[i]).0 != key by {
            assert(rest[i] == before[i + 1]);
        }
        assert(all[0] == before[0]);
        assert(all.skip(1) =~= rest.push((key, value)) + behind);
        the_first_member_counts(rest, key, value, behind);
    }
}

/// Setting a member replaces the first one with its key where it stands, and adds one
/// at the end where there is none.
pub proof fn members_are_set_in_place(
    before: Seq<(Seq<char>, JsonView)>,
    key: Seq<char>,
    old_value: JsonView,
    value: JsonView,
    behind: Seq<(Seq<char>, JsonView)>,
)
    requires
        forall|i: int| 0 <= i < before.len() ==> (#[trigger] before[i]).0 != key,
    ensures
        with_member(before.push((key, old_value)) + behind, key, value) == before.push((key, value))
            + behind,
        with_member(before, key, value) == before.push((key, value)),
    decreases before.len(),
{
    let all = before.push((key, old_value)) + behind;
    if before.len() == 0 {
        assert(all[0] == (key, old_value));
        assert(all.skip(1) =~= behind);
        assert(with_member(all, key, value) =~= before.push((key, value)) + behind);
        assert(with_member(before, key, value) =~= before.push((key, value)));
    } else {
        let rest = before.skip(1);
        assert forall|i: int| 0 <= i < rest.len() implies (#[trigger] rest[i]).0 != key by {
            assert(rest[i] == before[i + 1]);
        }
        assert(all[0] == before[0]);
        assert(all.skip(1) =~= rest.push((key, old_value)) + behind);
        members_are_set_in_place(rest, key, old_value, value, behind);
        assert(with_member(all, key, value) =~= before.push((key, value)) + behind);
        assert(with_member(before, key, value) =~= before.push((key, value)));
    }
}

/// An integer of 64 bits is read back from its digits; a greater one, a text and
/// everything else is none.
pub proof fn integers_are_read_back(n: int, text: Seq<char>)
    ensures
        i64::MIN <= n <= i64::MAX ==> integer_in(Some(JsonView::Number(integer_text(n)))) == Some(
            n as i64,
        ),
        n < i64::MIN || n > i64::MAX ==> integer_in(Some(JsonView::Number(integer_text(n)))) is None,
        text.contains('.') ==> integer_in(Some(JsonView::Number(text))) is None,
        integer_in(Some(JsonView::Text(text))) is None,
        integer_in(None) is None,
{
    let size = if n < 0 {
        (-n) as nat
    } else {
        n as nat
    };
    let digits = decimal_text(size);
    decimal_round_trip(size);
    assert(digits.len() > 0);
    assert('0' <= digits[0] && digits[0] <= '9');
    if n < 0 {
        assert(integer_text(n).skip(1) =~= digits);
    }
    if text.contains('.') {
        let i = choose|i: int| 0 <= i < text.len() && text[i] == '.';
        assert(digit_of('.', 10) is None);
        if i > 0 {
            assert(text.skip(1)[i - 1] == '.');
        }
    }
}

/// A text is one only where the value is a text.
pub proof fn texts_are_texts(text: Seq<char>, items: Seq<JsonView>)
    ensures
        string_in(Some(JsonView::Text(text))) == Some(text),
        string_in(Some(JsonView::Number(text))) is None,
        string_in(Some(JsonView::Array(items))) is None,
        string_in(Some(JsonView::Null)) is None,
        string_in(Some(JsonView::Bool(true))) is None,
        string_in(None) is None,
{
}

/// What is missing, null, false or empty does not count as true; other texts, lists
/// and objects do.
pub proof fn empty_values_are_not_true(
    text: Seq<char>,
    items: Seq<JsonView>,
    members: Seq<(Seq<char>, JsonView)>,
    flag: bool,
)
    ensures
        !is_truthy(None),
        !is_truthy(Some(JsonView::Null)),
        is_truthy(Some(JsonView::Bool(flag))) == flag,
        is_truthy(Some(JsonView::Text(text))) <==> text.len() > 0,
        is_truthy(Some(JsonView::Array(items))) <==> items.len() > 0,
        is_truthy(Some(JsonView::Object(members))) <==> members.len() > 0,
{
}

/// A plus sign before the digits changes nothing.
pub proof fn plus_signs_change_nothing(n: i64)
    requires
        n >= 0,
    ensures
        integer_in(Some(JsonView::Number(seq!['+'] + decimal_text(n as nat)))) == Some(n),
{
    decimal_round_trip(n as nat);
    assert((seq!['+'] + decimal_text(n as nat)).skip(1) =~= decimal_text(n as nat));
}

}
