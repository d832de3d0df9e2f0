//! Zero-terminated UTF-16 strings, as the wide-character system calls take them.
use vstd::prelude::*;

verus! {

/// The UTF-16 code units of one character.
pub open spec fn utf16_char(c: char) -> Seq<u16> {
    let v = c as int;
    if v < 0x1_0000 {
        seq![v as u16]
    } else {
        seq![
            (0xD800 + (v - 0x1_0000) / 0x400) as u16,
            (0xDC00 + (v - 0x1_0000) % 0x400) as u16,
        ]
    }
}

/// The UTF-16 code units of a text.
pub open spec fn utf16(text: Seq<char>) -> Seq<u16>
    decreases text.len(),
{
    if text.len() == 0 {
        Seq::empty()
    } else {
        utf16(text.drop_last()) + utf16_char(text.last())
    }
}

/// Appends the code units of `c`.
fn push_utf16(units: &mut Vec<u16>, c: char)
    ensures
        final(units)@ == old(units)@ + utf16_char(c),
{
    let v: u32 = c as u32;
    if v < 0x1_0000 {
        units.push(v as u16);
    } else {
        units.push((0xD800 + (v - 0x1_0000) / 0x400) as u16);
        units.push((0xDC00 + (v - 0x1_0000) % 0x400) as u16);
    }
    assert(units@ == old(units)@ + utf16_char(c));
}

/// `s` in UTF-16, followed by a zero.
pub fn to_wide(s: &str) -> (r: Vec<u16>)
    ensures
        r@ == utf16(s@).push(0),
        r@.len() > s@.len(),
        r@.last() == 0,
{
    proof {
        units_are_as_many_as_characters(s@);
    }
    let mut r: Vec<u16> = Vec::new();
    for c in chars: s.chars()
        invariant
            chars.seq() == s@,
            r@ == utf16(s@.take(chars.index() as int)),
    {
        assert(s@.take(chars.index() + 1).drop_last() == s@.take(chars.index() as int));
        push_utf16(&mut r, c);
    }
    assert(s@.take(s@.len() as int) == s@);
    r.push(0);
    r
}

/// A character below 2^16 is its own code unit. Any other one is split in two: a lead
/// from 0xD800 on, and a trail from 0xDC00 on, of ten bits each.
pub proof fn characters_are_split_in_two(c: char)
    ensures
        (c as int) < 0x1_0000 ==> utf16_char(c).len() == 1 && utf16_char(c)[0] == c as int,
        (c as int) >= 0x1_0000 ==> {
            &&& utf16_char(c).len() == 2
            &&& 0xD800 <= utf16_char(c)[0] < 0xDC00
            &&& 0xDC00 <= utf16_char(c)[1] < 0xE000
            &&& (utf16_char(c)[0] - 0xD800) * 0x400 + (utf16_char(c)[1] - 0xDC00) + 0x1_0000
                == c as int
        },
{
}

/// The code units of two texts one behind the other are those of the one and then
/// those of the other; a single character has its own.
pub proof fn code_units_follow_the_text(first: Seq<char>, second: Seq<char>, c: char)
    ensures
        utf16(first + second) == utf16(first) + utf16(second),
        utf16(seq![c]) == utf16_char(c),
    decreases second.len(),
{
    reveal_with_fuel(utf16, 2);
    assert(seq![c].drop_last() =~= Seq::empty());
    assert(utf16(seq![c]) =~= utf16_char(c));
    if second.len() == 0 {
        assert(first + second =~= first);
        assert(utf16(first) + utf16(second) =~= utf16(first));
    } else {
        code_units_follow_the_text(first, second.drop_last(), c);
        assert((first + second).drop_last() =~= first + second.drop_last());
        assert((first + second).last() == second.last());
        assert(utf16(first + second) =~= utf16(first) + utf16(second));
    }
}

/// A text has no fewer code units than characters, and no more than twice as many.
pub proof fn units_are_as_many_as_characters(text: Seq<char>)
    ensures
        text.len() <= utf16(text).len() <= 2 * text.len(),
    decreases text.len(),
{
    if text.len() > 0 {
        units_are_as_many_as_characters(text.drop_last());
    }
}

/// The text that a run of UTF-16 code units stands for.
pub open spec fn utf16_text(units: Seq<u16>) -> Seq<char>
    decreases units.len(),
{
    if units.len() == 0 {
        Seq::empty()
    } else {
        let last = units.last() as int;
        if 0xDC00 <= last < 0xE000 && units.len() >= 2 {
            let lead = units[units.len() - 2] as int;
            utf16_text(units.take(units.len() - 2)).push(
                (0x1_0000 + (lead - 0xD800) * 0x400 + (last - 0xDC00)) as char,
            )
        } else {
            utf16_text(units.drop_last()).push(last as char)
        }
    }
}

proof fn lemma_last_char(units: Seq<u16>, c: char)
    ensures
        utf16_text(units + utf16_char(c)) == utf16_text(units).push(c),
{
    let v = c as int;
    let all = units + utf16_char(c);
    if v < 0x1_0000 {
        assert(all.drop_last() == units);
    } else {
        assert(all.take(all.len() - 2) == units);
    }
}

/// A text is read back from its code units unchanged.
pub proof fn utf16_reads_back(text: Seq<char>)
    ensures
        utf16_text(utf16(text)) == text,
    decreases text.len(),
{
    if text.len() > 0 {
        utf16_reads_back(text.drop_last());
        lemma_last_char(utf16(text.drop_last()), text.last());
        assert(text.drop_last().push(text.last()) == text);
    }
}

/// Different texts have different wide strings.
pub proof fn wide_strings_differ(a: Seq<char>, b: Seq<char>)
    requires
        utf16(a).push(0) == utf16(b).push(0),
    ensures
        a == b,
{
    assert(utf16(a).push(0).drop_last() == utf16(a));
    assert(utf16(b).push(0).drop_last() == utf16(b));
    utf16_reads_back(a);
    utf16_reads_back(b);
}

proof fn lemma_char_has_zero_unit(c: char)
    ensures
        utf16_char(c).contains(0) <==> c == '\0',
{
    if c == '\0' {
        assert(utf16_char(c)[0] == 0);
    }
}

/// The terminator is the first zero of a wide string, unless the text itself
/// holds a NUL.
pub proof fn terminator_comes_first(text: Seq<char>)
    requires
        !text.contains('\0'),
    ensures
        !utf16(text).contains(0),
    decreases text.len(),
{
    if text.len() > 0 {
        let rest = text.drop_last();
        assert forall|i: int| 0 <= i < rest.len() implies rest[i] != '\0' by {
            assert(text.contains(text[i]));
        }
        terminator_comes_first(rest);
        assert(text.contains(text.last()));
        lemma_char_has_zero_unit(text.last());
        let tail = utf16_char(text.last());
        assert forall|i: int| 0 <= i < utf16(text).len() implies utf16(text)[i] != 0 by {
            let head = utf16(rest);
            if i < head.len() {
                assert(head.contains(head[i]));
            } else {
                assert(tail.contains(tail[i - head.len()]));
            }
        }
    }
}

} // verus!
