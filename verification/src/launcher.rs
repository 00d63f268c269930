//! Texts for the launcher's message box.

use vstd::prelude::*;

verus! {

/// The UTF-16 units of a character, with a replacement for NUL, which would end
/// the text.
pub open spec fn char_units(c: char) -> Seq<u16> {
    let code = c as int;
    if code == 0 {
        seq![0xFFFDu16]
    } else if code < 0x1_0000 {
        seq![code as u16]
    } else {
        seq![
            (0xD800 + (code - 0x1_0000) / 0x400) as u16,
            (0xDC00 + (code - 0x1_0000) % 0x400) as u16,
        ]
    }
}

/// The UTF-16 units of a text, with a replacement for each NUL.
pub open spec fn text_units(text: Seq<char>) -> Seq<u16>
    decreases text.len(),
{
    if text.len() == 0 {
        seq![]
    } else {
        text_units(text.drop_last()) + char_units(text.last())
    }
}

fn push_char(units: &mut Vec<u16>, c: char)
    ensures
        final(units)@ == old(units)@ + char_units(c),
{
    let code: u32 = c as u32;
    if code == 0 {
        units.push(0xFFFD);
    } else if code < 0x1_0000 {
        units.push(code as u16);
    } else {
        let offset: u32 = code - 0x1_0000;
        units.push((0xD800 + offset / 0x400) as u16);
        units.push((0xDC00 + offset % 0x400) as u16);
    }
    assert(units@ =~= old(units)@ + char_units(c));
}

/// The UTF-16 units of a text, ended by the only NUL among them.
pub fn nul_terminated_utf16(value: &str) -> (units: Vec<u16>)
    ensures
        units@ == text_units(value@).push(0),
{
    let mut units: Vec<u16> = Vec::new();
    assert(units@ =~= text_units(value@.take(0)));
    for c in iter: value.chars()
        invariant
            iter.seq() == value@,
            units@ == text_units(value@.take(iter.index())),
    {
        assert(value@.take(iter.index() + 1).drop_last() =~= value@.take(iter.index()));
        push_char(&mut units, c);
    }
    assert(value@.take(value@.len() as int) =~= value@);
    units.push(0);
    units
}

proof fn lemma_units_are_nonzero(c: char)
    ensures
        forall|i: int| 0 <= i < char_units(c).len() ==> #[trigger] char_units(c)[i] != 0,
{
    assert(c as int <= 0x10_FFFF);
}

/// The terminator is the only NUL of a terminated text, so nothing of the text
/// is cut off.
pub proof fn law_terminator_is_the_only_nul(text: Seq<char>)
    ensures
        forall|i: int|
            0 <= i < text_units(text).len() ==> #[trigger] text_units(text).push(0)[i] != 0,
        text_units(text).push(0).last() == 0,
    decreases text.len(),
{
    if text.len() > 0 {
        law_terminator_is_the_only_nul(text.drop_last());
        let before = text_units(text.drop_last());
        let units = char_units(text.last());
        lemma_units_are_nonzero(text.last());
        assert forall|i: int| 0 <= i < text_units(text).len() implies #[trigger] text_units(
            text,
        ).push(0)[i] != 0 by {
            if i < before.len() {
                assert(before.push(0)[i] != 0);
            } else {
                assert(text_units(text)[i] == units[i - before.len()]);
            }
        }
    }
}

/// Each character of a text becomes one unit, that is its number, or two, from which
/// the number can be told; a NUL becomes the replacement character. The units follow
/// those of what stands in front of it, and the terminator follows them all.
pub proof fn law_characters_become_their_units(
    front: &str,
    text: &str,
    c: char,
    before: Vec<u16>,
    units: Vec<u16>,
)
    requires
        text@ == front@.push(c),
        call_ensures(nul_terminated_utf16, (front,), before),
        call_ensures(nul_terminated_utf16, (text,), units),
    ensures
        ({
            let n = before@.len() - 1;
            let code = c as int;
            &&& n >= 0 && before@[n] == 0 && units@.last() == 0
            &&& units@.take(n) == before@.take(n)
            &&& 0 < code < 0x1_0000 ==> units@.len() == n + 2 && units@[n] == code
            &&& code == 0 ==> units@.len() == n + 2 && units@[n] == 0xFFFD
            &&& code >= 0x1_0000 ==> {
                &&& units@.len() == n + 3
                &&& 0xD800 <= units@[n] < 0xDC00 <= units@[n + 1] < 0xE000
                &&& 0x1_0000 + (units@[n] - 0xD800) * 0x400 + (units@[n + 1] - 0xDC00) == code
            }
        }),
{
    assert(text@.drop_last() =~= front@);
    assert(text@.last() == c);
    assert(c as int <= 0x10_FFFF);
    let n = before@.len() - 1;
    assert(units@.take(n) =~= before@.take(n));
    assert(units@.skip(n) =~= char_units(c).push(0));
    assert forall|i: int| 0 <= i < char_units(c).len() implies units@[n + i] == #[trigger] char_units(
        c,
    )[i] by {
        assert(units@.skip(n)[i] == units@[n + i]);
    }
    if c as int >= 0x1_0000 {
        assert(char_units(c)[0] == units@[n + 0]);
        assert(char_units(c)[1] == units@[n + 1]);
    } else {
        assert(char_units(c)[0] == units@[n + 0]);
    }
}

/// The empty text is the terminator alone.
pub proof fn law_the_empty_text_is_its_terminator(text: &str, units: Vec<u16>)
    requires
        text@.len() == 0,
        call_ensures(nul_terminated_utf16, (text,), units),
    ensures
        units@.len() == 1,
        units@[0] == 0,
{
}

} // verus!
