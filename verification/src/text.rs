//! Decimal rendering and comparison of texts.

use vstd::prelude::*;

verus! {

/// The character of a decimal digit.
pub open spec fn digit_char(digit: nat) -> char
    recommends
        digit < 10,
{
    (48 + digit) as char
}

/// The decimal digits of `value`, most significant first and without padding.
pub open spec fn decimal(value: nat) -> Seq<char>
    decreases value,
{
    if value < 10 {
        seq![digit_char(value)]
    } else {
        decimal(value / 10).push(digit_char(value % 10))
    }
}

fn digit_text(digit: u64) -> (text: &'static str)
    requires
        digit < 10,
    ensures
        text@ == seq![digit_char(digit as nat)],
{
    proof {
        reveal_strlit("0");
        reveal_strlit("1");
        reveal_strlit("2");
        reveal_strlit("3");
        reveal_strlit("4");
        reveal_strlit("5");
        reveal_strlit("6");
        reveal_strlit("7");
        reveal_strlit("8");
        reveal_strlit("9");
    }
    match digit {
        0 => "0",
        1 => "1",
        2 => "2",
        3 => "3",
        4 => "4",
        5 => "5",
        6 => "6",
        7 => "7",
        8 => "8",
        _ => "9",
    }
}

/// Appends the decimal digits of `value` to `out`.
pub fn push_decimal(out: &mut String, value: u64)
    ensures
        final(out)@ == old(out)@ + decimal(value as nat),
    decreases value,
{
    if value >= 10 {
        push_decimal(out, value / 10);
    }
    out.append(digit_text(value % 10));
    assert(out@ =~= old(out)@ + decimal(value as nat));
}

/// The number that decimal digits stand for.
pub open spec fn digits_value(digits: Seq<char>) -> nat
    decreases digits.len(),
{
    if digits.len() == 0 {
        0
    } else {
        (10 * digits_value(digits.drop_last()) + (digits.last() as int - 48)) as nat
    }
}

/// Decimal digits stand for the number they were made from.
pub proof fn lemma_decimal_value(value: nat)
    ensures
        digits_value(decimal(value)) == value,
    decreases value,
{
    reveal_with_fuel(digits_value, 2);
    if value < 10 {
        assert(decimal(value).drop_last() =~= seq![]);
    } else {
        lemma_decimal_value(value / 10);
        assert(decimal(value).drop_last() =~= decimal(value / 10));
    }
}

/// The bytes of a text.
pub open spec fn bytes_of(text: &str) -> Seq<u8> {
    vstd::utf8::encode_utf8(text@)
}

/// Characters below 128 are bytes of their own.
pub proof fn lemma_ascii_bytes(chars: Seq<char>)
    requires
        forall|i: int| 0 <= i < chars.len() ==> (#[trigger] chars[i]) as u32 <= 0x7F,
    ensures
        vstd::utf8::encode_utf8(chars).len() == chars.len(),
        forall|i: int|
            0 <= i < chars.len() ==> #[trigger] vstd::utf8::encode_utf8(chars)[i] == chars[i] as u32,
    decreases chars.len(),
{
    if chars.len() > 0 {
        let first = chars[0] as u32;
        assert((first & 0x7F) as u8 == first) by (bit_vector)
            requires
                first <= 0x7F,
        ;
        let rest = chars.drop_first();
        assert forall|i: int| 0 <= i < rest.len() implies (#[trigger] rest[i]) as u32 <= 0x7F by {
            assert(rest[i] == chars[i + 1]);
        }
        lemma_ascii_bytes(rest);
        let bytes = vstd::utf8::encode_utf8(chars);
        assert(bytes == vstd::utf8::encode_scalar(first) + vstd::utf8::encode_utf8(rest));
        assert forall|i: int| 0 <= i < chars.len() implies #[trigger] bytes[i] == chars[i] as u32 by {
            if i > 0 {
                assert(bytes[i] == vstd::utf8::encode_utf8(rest)[i - 1]);
                assert(rest[i - 1] == chars[i]);
            }
        }
    }
}

/// Compares two byte strings.
pub fn same_bytes(a: &[u8], b: &[u8]) -> (same: bool)
    ensures
        same == (a@ == b@),
{
    if a.len() != b.len() {
        return false;
    }
    let mut i: usize = 0;
    while i < a.len()
        invariant
            a@.len() == b@.len(),
            i <= a@.len(),
            forall|j: int| 0 <= j < i ==> a@[j] == b@[j],
        decreases a@.len() - i,
    {
        if a[i] != b[i] {
            return false;
        }
        i += 1;
    }
    assert(a@ =~= b@);
    true
}

/// Appends bytes.
pub(crate) fn append_bytes(out: &mut Vec<u8>, bytes: &[u8])
    ensures
        final(out)@ == old(out)@ + bytes@,
{
    out.extend_from_slice(bytes);
    assert(out@ =~= old(out)@ + bytes@);
}

/// Compares two texts.
pub fn same_text(a: &str, b: &str) -> (same: bool)
    ensures
        same == (a@ == b@),
{
    let same: bool = same_bytes(a.as_bytes(), b.as_bytes());
    proof {
        broadcast use vstd::utf8::encode_utf8_decode_utf8;

        assert(vstd::utf8::decode_utf8(bytes_of(a)) == a@);
        assert(vstd::utf8::decode_utf8(bytes_of(b)) == b@);
    }
    same
}

/// Decimal digits read as the number they were made from, are digits throughout,
/// and start with a zero only where that is all; so no two numbers read alike.
pub proof fn law_decimal_digits_read_as_the_number(value: nat, other: nat)
    ensures
        decimal(value).len() > 0,
        forall|i: int|
            0 <= i < decimal(value).len() ==> '0' as int <= (#[trigger] decimal(value)[i]) as int
                <= '9' as int,
        decimal(value)[0] == '0' <==> value == 0,
        value == 0 ==> decimal(value).len() == 1,
        digits_value(decimal(value)) == value,
        decimal(value) == decimal(other) ==> value == other,
{
    lemma_decimal_value(value);
    lemma_decimal_value(other);
    lemma_decimal_shape(value);
}

proof fn lemma_decimal_shape(value: nat)
    ensures
        decimal(value).len() > 0,
        forall|i: int|
            0 <= i < decimal(value).len() ==> '0' as int <= (#[trigger] decimal(value)[i]) as int
                <= '9' as int,
        decimal(value)[0] == '0' <==> value == 0,
        value == 0 ==> decimal(value).len() == 1,
    decreases value,
{
    if value >= 10 {
        lemma_decimal_shape(value / 10);
        assert(decimal(value)[0] == decimal(value / 10)[0]);
    }
}

} // verus!
