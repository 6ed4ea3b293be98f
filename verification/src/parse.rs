//! Reading the digits of a board from a line of text: fields between commas,
//! each a number with blanks around it, and 0 where a field holds no number.

use vstd::prelude::*;

verus! {

/// Whether a character is white space.
pub open spec fn is_space(c: char) -> bool {
    let code = c as u32;
    ||| 0x09 <= code <= 0x0d
    ||| code == 0x20
    ||| code == 0x85
    ||| code == 0xa0
    ||| code == 0x1680
    ||| 0x2000 <= code <= 0x200a
    ||| code == 0x2028
    ||| code == 0x2029
    ||| code == 0x202f
    ||| code == 0x205f
    ||| code == 0x3000
}

/// Whether a character is one of the digits 0 to 9.
pub open spec fn is_digit(c: char) -> bool {
    0x30 <= c as u32 <= 0x39
}

/// The text without the white space at its start.
pub open spec fn trim_start(text: Seq<char>) -> Seq<char>
    decreases text.len(),
{
    if text.len() > 0 && is_space(text[0]) {
        trim_start(text.drop_first())
    } else {
        text
    }
}

/// The text without the white space at its end.
pub open spec fn trim_end(text: Seq<char>) -> Seq<char>
    decreases text.len(),
{
    if text.len() > 0 && is_space(text.last()) {
        trim_end(text.drop_last())
    } else {
        text
    }
}

/// The text without the white space at its start and at its end.
pub open spec fn trimmed(text: Seq<char>) -> Seq<char> {
    trim_end(trim_start(text))
}

/// The number that a sequence of digits writes in base ten.
pub open spec fn number(digits: Seq<char>) -> int
    decreases digits.len(),
{
    if digits.len() == 0 {
        0
    } else {
        10 * number(digits.drop_last()) + (digits.last() as u32 - 0x30)
    }
}

/// Every character of the text is a digit.
pub open spec fn only_digits(text: Seq<char>) -> bool {
    forall|i: int| 0 <= i < text.len() ==> is_digit(#[trigger] text[i])
}

/// The number that a text writes: a plus sign or none, then one digit or
/// more and nothing else, and no more than 255 in all.
pub open spec fn parse_u8(text: Seq<char>) -> Option<u8> {
    let digits = if text.len() > 0 && text[0] == '+' {
        text.drop_first()
    } else {
        text
    };
    if digits.len() > 0 && only_digits(digits) && number(digits) <= 255 {
        Some(number(digits) as u8)
    } else {
        None
    }
}

/// The digit that a field stands for: its number, the white space around it
/// left aside, and 0 where it holds no number.
pub open spec fn field_value(field: Seq<char>) -> u8 {
    match parse_u8(trimmed(field)) {
        Some(value) => value,
        None => 0,
    }
}

/// The fields of a text: what stands between its commas.
pub open spec fn fields(text: Seq<char>) -> Seq<Seq<char>>
    decreases text.len(),
{
    if text.len() == 0 {
        seq![Seq::<char>::empty()]
    } else {
        let before = fields(text.drop_last());
        if text.last() == ',' {
            before.push(Seq::<char>::empty())
        } else {
            before.drop_last().push(before.last().push(text.last()))
        }
    }
}

/// The digits that a text holds, one for each of its fields.
pub open spec fn parsed_digits(text: Seq<char>) -> Seq<u8> {
    fields(text).map_values(|field: Seq<char>| field_value(field))
}

/// A digit more makes the number no smaller.
proof fn lemma_number_grows(digits: Seq<char>)
    requires
        digits.len() > 0,
        only_digits(digits),
    ensures
        number(digits) >= number(digits.drop_last()),
        number(digits) >= 0,
    decreases digits.len(),
{
    let shorter = digits.drop_last();
    assert(is_digit(digits[digits.len() - 1]));
    if shorter.len() > 0 {
        assert forall|i: int| 0 <= i < shorter.len() implies is_digit(#[trigger] shorter[i]) by {
            assert(shorter[i] == digits[i]);
        }
        lemma_number_grows(shorter);
    }
}

/// Whether a character is white space.
fn char_is_space(c: char) -> (space: bool)
    ensures
        space == is_space(c),
{
    let code = c as u32;
    (0x09 <= code && code <= 0x0d) || code == 0x20 || code == 0x85 || code == 0xa0 || code
        == 0x1680 || (0x2000 <= code && code <= 0x200a) || code == 0x2028 || code == 0x2029
        || code == 0x202f || code == 0x205f || code == 0x3000
}

/// The digit that a field stands for.
pub fn field_digit(field: &Vec<char>) -> (digit: u8)
    ensures
        digit == field_value(field@),
{
    let ghost text = field@;
    let mut start: usize = 0;
    assert(text.subrange(0, text.len() as int) =~= text);
    while start < field.len() && char_is_space(field[start])
        invariant
            start <= field@.len(),
            text == field@,
            trim_start(text) == trim_start(text.subrange(start as int, text.len() as int)),
        decreases field.len() - start,
    {
        proof {
            let rest = text.subrange(start as int, text.len() as int);
            assert(rest[0] == text[start as int]);
            assert(rest.drop_first() =~= text.subrange(start + 1, text.len() as int));
        }
        start += 1;
    }
    let ghost tail = text.subrange(start as int, text.len() as int);
    proof {
        if start < text.len() {
            assert(tail[0] == text[start as int]);
        }
        assert(trim_start(text) == tail);
    }
    let mut end: usize = field.len();
    while end > start && char_is_space(field[end - 1])
        invariant
            start <= end <= field@.len(),
            text == field@,
            tail == text.subrange(start as int, text.len() as int),
            trim_end(tail) == trim_end(text.subrange(start as int, end as int)),
        decreases end,
    {
        proof {
            let rest = text.subrange(start as int, end as int);
            assert(rest.last() == text[end - 1]);
            assert(rest.drop_last() =~= text.subrange(start as int, end - 1));
        }
        end -= 1;
    }
    let ghost word = text.subrange(start as int, end as int);
    proof {
        if start < end {
            assert(word.last() == text[end - 1]);
        }
        assert(trimmed(text) == word);
    }
    let mut at: usize = start;
    if at < end && field[at] == '+' {
        at += 1;
    }
    let ghost digits = text.subrange(at as int, end as int);
    proof {
        if start < end {
            assert(word[0] == text[start as int]);
        }
        if at > start {
            assert(word.drop_first() =~= digits);
        }
        assert(digits == if word.len() > 0 && word[0] == '+' {
            word.drop_first()
        } else {
            word
        });
    }
    if at == end {
        return 0;
    }
    let first = at;
    let mut value: u32 = 0;
    assert(text.subrange(first as int, at as int) =~= Seq::<char>::empty());
    while at < end
        invariant
            first <= at <= end <= field@.len(),
            text == field@,
            digits == text.subrange(first as int, end as int),
            field_value(text) == (if only_digits(digits) && number(digits) <= 255 {
                number(digits) as u8
            } else {
                0u8
            }),
            only_digits(text.subrange(first as int, at as int)),
            value == number(text.subrange(first as int, at as int)),
            value <= 255,
        decreases end - at,
    {
        let c = field[at];
        let code = c as u32;
        let ghost seen = text.subrange(first as int, at as int);
        let ghost longer = text.subrange(first as int, at + 1);
        proof {
            assert(longer.drop_last() =~= seen);
            assert(longer.last() == c);
        }
        if !(0x30 <= code && code <= 0x39) {
            proof {
                assert(digits[at - first] == c);
                assert(!only_digits(digits));
            }
            return 0;
        }
        proof {
            assert forall|i: int| 0 <= i < longer.len() implies is_digit(#[trigger] longer[i]) by {
                if i < seen.len() {
                    assert(longer[i] == seen[i]);
                }
            }
        }
        let next = value * 10 + (code - 0x30);
        assert(number(longer) == next);
        if next > 255 {
            proof {
                if only_digits(digits) {
                    lemma_number_over(text, first as int, at + 1, end as int);
                }
            }
            return 0;
        }
        value = next;
        at += 1;
    }
    proof {
        assert(text.subrange(first as int, at as int) =~= digits);
    }
    value as u8
}

/// Digits that write more than 255 still do so when more digits follow.
proof fn lemma_number_over(text: Seq<char>, first: int, at: int, end: int)
    requires
        0 <= first <= at <= end <= text.len(),
        only_digits(text.subrange(first, end)),
        number(text.subrange(first, at)) > 255,
    ensures
        number(text.subrange(first, end)) > 255,
    decreases end - at,
{
    if at < end {
        let whole = text.subrange(first, end);
        let shorter = text.subrange(first, end - 1);
        assert(whole.drop_last() =~= shorter);
        assert forall|i: int| 0 <= i < shorter.len() implies is_digit(#[trigger] shorter[i]) by {
            assert(shorter[i] == whole[i]);
        }
        lemma_number_over(text, first, at, end - 1);
        lemma_number_grows(whole);
    }
}

/// The characters of a text.
pub fn text_chars(text: &str) -> (chars: Vec<char>)
    ensures
        chars@ == text@,
{
    let mut chars: Vec<char> = Vec::new();
    for c in it: text.chars()
        invariant
            chars@ == it.seq().take(it.index() as int),
            it.seq() == text@,
    {
        chars.push(c);
    }
    chars
}

/// Reads the digits of a text: one for each field between its commas.
pub fn parse_digits(text: &str) -> (digits: Vec<u8>)
    ensures
        digits@ == parsed_digits(text@),
{
    let chars = text_chars(text);
    let mut digits: Vec<u8> = Vec::new();
    let mut field: Vec<char> = Vec::new();
    let ghost mut done: Seq<Seq<char>> = Seq::empty();
    let mut i: usize = 0;
    assert(chars@.take(0) =~= Seq::<char>::empty());
    assert(fields(chars@.take(0)) =~= done.push(field@));
    while i < chars.len()
        invariant
            i <= chars@.len(),
            fields(chars@.take(i as int)) == done.push(field@),
            digits@ == done.map_values(|f: Seq<char>| field_value(f)),
        decreases chars.len() - i,
    {
        let c = chars[i];
        let ghost before = chars@.take(i as int);
        let ghost longer = chars@.take(i + 1);
        proof {
            assert(longer.drop_last() =~= before);
            assert(longer.last() == c);
            assert(done.push(field@).drop_last() =~= done);
            assert(done.push(field@).last() == field@);
        }
        if c == ',' {
            let digit = field_digit(&field);
            digits.push(digit);
            proof {
                let grown = done.push(field@);
                assert(digits@ =~= grown.map_values(|f: Seq<char>| field_value(f)));
                done = grown;
            }
            field = Vec::new();
        } else {
            field.push(c);
        }
        i += 1;
    }
    let digit = field_digit(&field);
    digits.push(digit);
    proof {
        assert(chars@.take(i as int) =~= chars@);
        assert(digits@ =~= done.push(field@).map_values(|f: Seq<char>| field_value(f)));
    }
    digits
}

} // verus!
