//! Pieces that arguments are read with: trimming, splitting and numbers.
use crate::text::{
    char_is_white_space, decimal, digit_char, from_chars, hex, is_white_space, to_chars,
};
use vstd::prelude::*;

verus! {

/// Text without the white space at its end.
pub open spec fn trimmed_end(text: Seq<char>) -> Seq<char>
    decreases text.len(),
{
    if text.len() > 0 && is_white_space(text.last()) {
        trimmed_end(text.drop_last())
    } else {
        text
    }
}

/// Text without the white space at its start.
pub open spec fn trimmed_start(text: Seq<char>) -> Seq<char>
    decreases text.len(),
{
    if text.len() > 0 && is_white_space(text[0]) {
        trimmed_start(text.skip(1))
    } else {
        text
    }
}

/// Text without the white space around it.
pub open spec fn trimmed(text: Seq<char>) -> Seq<char> {
    trimmed_end(trimmed_start(text))
}

/// Takes away the white space around a text.
pub fn trim(text: &[char]) -> (result: Vec<char>)
    ensures
        result@ == trimmed(text@),
{
    let mut start: usize = 0;
    assert(text@.skip(0) =~= text@);
    while start < text.len() && char_is_white_space(text[start])
        invariant
            start <= text@.len(),
            trimmed_start(text@) == trimmed_start(text@.skip(start as int)),
        decreases text@.len() - start,
    {
        assert(text@.skip(start as int).skip(1) =~= text@.skip(start + 1));
        start += 1;
    }
    let mut result = slice_of(text, start, text.len());
    assert(result@ =~= text@.skip(start as int));
    assert(result@ == trimmed_start(text@));
    while result.len() > 0 && char_is_white_space(result[result.len() - 1])
        invariant
            trimmed_end(trimmed_start(text@)) == trimmed_end(result@),
        decreases result@.len(),
    {
        result.pop();
    }
    result
}

/// Copies a part of a text.
pub fn slice_of(text: &[char], from: usize, to: usize) -> (part: Vec<char>)
    requires
        from <= to <= text@.len(),
    ensures
        part@ == text@.subrange(from as int, to as int),
{
    let mut part: Vec<char> = Vec::new();
    let mut index = from;
    while index < to
        invariant
            from <= index <= to <= text@.len(),
            part@ == text@.subrange(from as int, index as int),
        decreases to - index,
    {
        part.push(text[index]);
        assert(text@.subrange(from as int, index + 1) =~= text@.subrange(
            from as int,
            index as int,
        ).push(text@[index as int]));
        index += 1;
    }
    part
}

/// Two texts are the same.
pub fn same_chars(first: &[char], second: &[char]) -> (same: bool)
    ensures
        same <==> first@ == second@,
{
    if first.len() != second.len() {
        return false;
    }
    let mut index: usize = 0;
    while index < first.len()
        invariant
            index <= first@.len(),
            first@.len() == second@.len(),
            forall|i: int| 0 <= i < index ==> #[trigger] first@[i] == second@[i],
        decreases first@.len() - index,
    {
        if first[index] != second[index] {
            return false;
        }
        index += 1;
    }
    assert(first@ =~= second@);
    true
}

/// A text spells a literal.
pub fn is_text(chars: &[char], text: &str) -> (same: bool)
    ensures
        same <==> chars@ == text@,
{
    let other = to_chars(text);
    same_chars(chars, &other)
}

/// The pieces of a text between the places where a character stands. A text
/// without that character is one piece.
pub open spec fn pieces(text: Seq<char>, separator: char) -> Seq<Seq<char>>
    decreases text.len(),
{
    if text.len() == 0 {
        seq![Seq::empty()]
    } else {
        let before = pieces(text.drop_last(), separator);
        if text.last() == separator {
            before.push(Seq::empty())
        } else {
            before.drop_last().push(before.last().push(text.last()))
        }
    }
}

/// Pieces of text as sequences.
pub open spec fn pieces_view(pieces: Seq<Vec<char>>) -> Seq<Seq<char>> {
    pieces.map_values(|piece: Vec<char>| piece@)
}

/// Cuts a text at a character.
pub fn split(text: &[char], separator: char) -> (result: Vec<Vec<char>>)
    ensures
        pieces_view(result@) == pieces(text@, separator),
        result@.len() > 0,
{
    let mut result: Vec<Vec<char>> = Vec::new();
    let mut piece: Vec<char> = Vec::new();
    let mut index: usize = 0;
    assert(text@.take(0) =~= Seq::<char>::empty());
    assert(pieces(text@.take(0), separator).drop_last() =~= pieces_view(result@));
    while index < text.len()
        invariant
            index <= text@.len(),
            pieces(text@.take(index as int), separator).len() == result@.len() + 1,
            pieces(text@.take(index as int), separator).drop_last() == pieces_view(result@),
            pieces(text@.take(index as int), separator).last() == piece@,
        decreases text@.len() - index,
    {
        let ghost before = pieces(text@.take(index as int), separator);
        assert(text@.take(index + 1).drop_last() =~= text@.take(index as int));
        let character = text[index];
        if character == separator {
            let ghost done = piece@;
            result.push(piece);
            piece = Vec::new();
            assert(before =~= before.drop_last().push(done));
            assert(pieces(text@.take(index + 1), separator).drop_last() =~= pieces_view(result@));
        } else {
            piece.push(character);
            assert(pieces(text@.take(index + 1), separator).drop_last() =~= pieces_view(result@));
        }
        index += 1;
    }
    assert(text@.take(text@.len() as int) =~= text@);
    let ghost all = pieces(text@, separator);
    let ghost last = piece@;
    result.push(piece);
    assert(all =~= all.drop_last().push(last));
    assert(pieces_view(result@) =~= all);
    result
}

/// The value of a digit in a base, letters of either case behind the numerals.
pub open spec fn digit_value(character: char, radix: int) -> Option<int> {
    let value = if '0' <= character <= '9' {
        character as int - '0' as int
    } else if 'a' <= character <= 'z' {
        character as int - 'a' as int + 10
    } else if 'A' <= character <= 'Z' {
        character as int - 'A' as int + 10
    } else {
        radix
    };
    if value < radix {
        Some(value)
    } else {
        None
    }
}

/// The number that digits spell, where they are all digits.
pub open spec fn digits_value(digits: Seq<char>, radix: int) -> Option<int>
    decreases digits.len(),
{
    if digits.len() == 0 {
        Some(0)
    } else {
        match (digits_value(digits.drop_last(), radix), digit_value(digits.last(), radix)) {
            (Some(before), Some(digit)) => Some(before * radix + digit),
            _ => None,
        }
    }
}

/// The number that a text spells: one digit or more, behind a plus sign or none.
pub open spec fn number(text: Seq<char>, radix: int) -> Option<int> {
    if text.len() > 0 && text[0] == '+' {
        if text.len() > 1 {
            digits_value(text.skip(1), radix)
        } else {
            None
        }
    } else if text.len() > 0 {
        digits_value(text, radix)
    } else {
        None
    }
}

/// A number that a text spells is not negative.
pub proof fn lemma_number_is_natural(text: Seq<char>, radix: int)
    requires
        radix > 0,
    ensures
        match number(text, radix) {
            Some(value) => value >= 0,
            None => true,
        },
{
    lemma_digits_are_natural(text, radix);
    lemma_digits_are_natural(text.skip(1), radix);
}

proof fn lemma_digits_are_natural(digits: Seq<char>, radix: int)
    requires
        radix > 0,
    ensures
        match digits_value(digits, radix) {
            Some(value) => value >= 0,
            None => true,
        },
    decreases digits.len(),
{
    if digits.len() > 0 {
        lemma_digits_are_natural(digits.drop_last(), radix);
        if let Some(before) = digits_value(digits.drop_last(), radix) {
            assert(before * radix >= 0) by (nonlinear_arith)
                requires
                    before >= 0,
                    radix > 0,
            ;
        }
    }
}

/// What the standard library says of a text that is no 64-bit number.
pub uninterp spec fn number_error(text: Seq<char>, radix: u32) -> Seq<char>;

/// Calls `u64::from_str_radix` of the standard library, which takes a plus sign or
/// none and digits of the base, and nothing else. Which error it names where a text
/// is wrong in several ways is not said.
#[verifier::external_body]
fn number_from_text(text: &str, radix: u32) -> (result: Result<u64, String>)
    requires
        2 <= radix <= 36,
    ensures
        match result {
            Ok(value) => number(text@, radix as int) == Some(value as int),
            Err(message) => message@ == number_error(text@, radix) && match number(
                text@,
                radix as int,
            ) {
                Some(value) => value > u64::MAX,
                None => true,
            },
        },
{
    u64::from_str_radix(text, radix).map_err(|error| error.to_string())
}

/// Reads a number of up to 64 bits.
pub fn parse_u64(text: &[char], radix: u32) -> (result: Result<u64, String>)
    requires
        2 <= radix <= 36,
    ensures
        match result {
            Ok(value) => number(text@, radix as int) == Some(value as int),
            Err(message) => message@ == number_error(text@, radix) && match number(
                text@,
                radix as int,
            ) {
                Some(value) => value > u64::MAX,
                None => true,
            },
        },
{
    let text = from_chars(text);
    number_from_text(text.as_str(), radix)
}

/// Reads a decimal number of up to 32 bits.
pub fn parse_u32(text: &[char]) -> (result: Option<u32>)
    ensures
        result == (match number(text@, 10) {
            Some(value) => if value <= u32::MAX {
                Some(value as u32)
            } else {
                None
            },
            None => None,
        }),
{
    match parse_u64(text, 10) {
        Ok(value) => if value <= u32::MAX as u64 {
            Some(value as u32)
        } else {
            None
        },
        Err(_) => None,
    }
}

/// Reads a decimal number that counts or indexes.
pub fn parse_usize(text: &[char]) -> (result: Option<usize>)
    ensures
        result == (match number(text@, 10) {
            Some(value) => if value <= usize::MAX {
                Some(value as usize)
            } else {
                None
            },
            None => None,
        }),
{
    match parse_u64(text, 10) {
        Ok(value) => if value <= usize::MAX as u64 {
            Some(value as usize)
        } else {
            None
        },
        Err(_) => None,
    }
}

/// The decimal digits of a number are read back as the number, and none but zero
/// begins with a zero.
pub proof fn law_decimal_digits_are_read_back(value: nat)
    ensures
        digits_value(decimal(value), 10) == Some(value as int),
        number(decimal(value), 10) == Some(value as int),
        decimal(value).len() > 0,
        forall|i: int| 0 <= i < decimal(value).len() ==> '0' <= #[trigger] decimal(value)[i] <= '9',
        decimal(value)[0] == '0' ==> value == 0,
    decreases value,
{
    if value < 10 {
        assert(decimal(value) =~= seq![digit_char(value)]);
        assert(decimal(value).drop_last() =~= Seq::<char>::empty());
        assert(digits_value(decimal(value).drop_last(), 10) == Some(0int));
        assert(digit_value(decimal(value).last(), 10) == Some(value as int));
    } else {
        law_decimal_digits_are_read_back(value / 10);
        let front = decimal(value / 10);
        assert(decimal(value).drop_last() =~= front);
        assert(digit_value(digit_char(value % 10), 10) == Some((value % 10) as int));
        assert(decimal(value)[0] == front[0]);
        assert forall|i: int| 0 <= i < decimal(value).len() implies '0' <= #[trigger] decimal(
            value,
        )[i] <= '9' by {
            if i < front.len() {
                assert(decimal(value)[i] == front[i]);
            }
        }
    }
    assert(decimal(value)[0] >= '0');
}

/// The hexadecimal digits of a number are read back as the number, and are digits
/// and small letters.
pub proof fn law_hexadecimal_digits_are_read_back(value: nat)
    ensures
        digits_value(hex(value), 16) == Some(value as int),
        number(hex(value), 16) == Some(value as int),
        hex(value).len() > 0,
        forall|i: int|
            0 <= i < hex(value).len() ==> '0' <= #[trigger] hex(value)[i] <= '9' || 'a' <= hex(
                value,
            )[i] <= 'f',
    decreases value,
{
    if value < 16 {
        assert(hex(value) =~= seq![digit_char(value)]);
        assert(hex(value).drop_last() =~= Seq::<char>::empty());
        assert(digits_value(hex(value).drop_last(), 16) == Some(0int));
        assert(digit_value(hex(value).last(), 16) == Some(value as int));
    } else {
        law_hexadecimal_digits_are_read_back(value / 16);
        let front = hex(value / 16);
        assert(hex(value).drop_last() =~= front);
        assert(digit_value(digit_char(value % 16), 16) == Some((value % 16) as int));
        assert forall|i: int| 0 <= i < hex(value).len() implies '0' <= #[trigger] hex(value)[i]
            <= '9' || 'a' <= hex(value)[i] <= 'f' by {
            if i < front.len() {
                assert(hex(value)[i] == front[i]);
            }
        }
    }
    assert('0' <= hex(value)[0] <= '9' || 'a' <= hex(value)[0] <= 'f');
}

/// One more digit behind a number multiplies it by the base and adds the digit;
/// capitals count as small letters, and any other character spoils the number.
pub proof fn law_digits_have_place_value(digits: Seq<char>, digit: char)
    ensures
        '0' <= digit <= '9' && digits_value(digits, 10) is Some ==> digits_value(
            digits.push(digit),
            10,
        ) == Some(digits_value(digits, 10)->0 * 10 + (digit as int - '0' as int)),
        digits_value(digits, 16) is Some ==> {
            let before = digits_value(digits, 16)->0 * 16;
            let after = digits_value(digits.push(digit), 16);
            &&& '0' <= digit <= '9' ==> after == Some(before + (digit as int - '0' as int))
            &&& 'a' <= digit <= 'f' ==> after == Some(before + (digit as int - 'a' as int) + 10)
            &&& 'A' <= digit <= 'F' ==> after == Some(before + (digit as int - 'A' as int) + 10)
        },
        !('0' <= digit <= '9') ==> digits_value(digits.push(digit), 10) is None,
        !('0' <= digit <= '9' || 'a' <= digit <= 'f' || 'A' <= digit <= 'F') ==> digits_value(
            digits.push(digit),
            16,
        ) is None,
        digits_value(digits, 10) is None ==> digits_value(digits.push(digit), 10) is None,
        digits_value(digits, 16) is None ==> digits_value(digits.push(digit), 16) is None,
{
    assert(digits.push(digit).drop_last() =~= digits);
}

/// A plus sign before digits changes nothing; signs alone, a minus sign and an empty
/// text are no numbers.
pub proof fn law_signs_of_numbers(digits: Seq<char>, radix: int)
    requires
        radix == 10 || radix == 16,
    ensures
        digits.len() > 0 ==> number(seq!['+'] + digits, radix) == digits_value(digits, radix),
        digits.len() > 0 && digits[0] != '+' ==> number(digits, radix) == digits_value(
            digits,
            radix,
        ),
        number(seq!['+'], radix) is None,
        number(Seq::empty(), radix) is None,
        number(seq!['-'] + digits, radix) is None,
{
    assert((seq!['+'] + digits).skip(1) =~= digits);
    lemma_spoiled_number(seq!['-'], digits, radix);
    assert(seq!['-'].drop_last() =~= Seq::<char>::empty());
}

proof fn lemma_spoiled_number(front: Seq<char>, digits: Seq<char>, radix: int)
    requires
        radix == 10 || radix == 16,
        front == seq!['-'],
    ensures
        digits_value(front + digits, radix) is None,
    decreases digits.len(),
{
    if digits.len() == 0 {
        assert(front + digits =~= front);
        assert(digit_value('-', radix) is None);
    } else {
        lemma_spoiled_number(front, digits.drop_last(), radix);
        assert((front + digits).drop_last() =~= front + digits.drop_last());
    }
}

/// White space around a text is taken away, and what is left has none at its ends.
pub proof fn law_trimming(before: Seq<char>, text: Seq<char>, after: Seq<char>)
    requires
        forall|i: int| 0 <= i < before.len() ==> is_white_space(#[trigger] before[i]),
        forall|i: int| 0 <= i < after.len() ==> is_white_space(#[trigger] after[i]),
        text.len() > 0 ==> !is_white_space(text[0]) && !is_white_space(text.last()),
    ensures
        trimmed(before + text + after) == text,
{
    assert(before + text + after =~= before + (text + after));
    lemma_trimmed_front(before, text + after);
    if text.len() == 0 {
        assert(text + after =~= after);
        lemma_trimmed_front(after, text);
        assert(after + text =~= after);
    } else {
        assert((text + after)[0] == text[0]);
    }
    lemma_trimmed_back(text, after);
    if text.len() == 0 {
        assert(trimmed_start(after) =~= text);
    }
}

proof fn lemma_trimmed_front(before: Seq<char>, rest: Seq<char>)
    requires
        forall|i: int| 0 <= i < before.len() ==> is_white_space(#[trigger] before[i]),
    ensures
        trimmed_start(before + rest) == trimmed_start(rest),
    decreases before.len(),
{
    if before.len() == 0 {
        assert(before + rest =~= rest);
    } else {
        assert(is_white_space(before[0]));
        assert((before + rest)[0] == before[0]);
        assert((before + rest).skip(1) =~= before.skip(1) + rest);
        assert forall|i: int| 0 <= i < before.skip(1).len() implies is_white_space(
            #[trigger] before.skip(1)[i],
        ) by {
            assert(before.skip(1)[i] == before[i + 1]);
        }
        lemma_trimmed_front(before.skip(1), rest);
    }
}

proof fn lemma_trimmed_back(text: Seq<char>, after: Seq<char>)
    requires
        forall|i: int| 0 <= i < after.len() ==> is_white_space(#[trigger] after[i]),
        text.len() > 0 ==> !is_white_space(text.last()),
    ensures
        trimmed_end(text + after) == text,
    decreases after.len(),
{
    if after.len() == 0 {
        assert(text + after =~= text);
    } else {
        assert(is_white_space(after.last()));
        assert((text + after).drop_last() =~= text + after.drop_last());
        assert forall|i: int| 0 <= i < after.drop_last().len() implies is_white_space(
            #[trigger] after.drop_last()[i],
        ) by {
            assert(after.drop_last()[i] == after[i]);
        }
        lemma_trimmed_back(text, after.drop_last());
    }
}

/// A text without the separator is one piece; a text that is put together with the
/// separator has the pieces of its parts.
pub proof fn law_pieces_stand_between_separators(
    first: Seq<char>,
    second: Seq<char>,
    separator: char,
)
    ensures
        !first.contains(separator) ==> pieces(first, separator) == seq![first],
        pieces(first + seq![separator] + second, separator) == pieces(first, separator) + pieces(
            second,
            separator,
        ),
        pieces(first, separator).len() > 0,
    decreases second.len(), first.len(),
{
    let middle = first + seq![separator];
    lemma_one_piece(first, separator);
    if second.len() == 0 {
        assert(middle + second =~= middle);
        assert(middle.drop_last() =~= first);
        assert(pieces(middle, separator) =~= pieces(first, separator) + seq![Seq::<char>::empty()]);
    } else {
        law_pieces_stand_between_separators(first, second.drop_last(), separator);
        lemma_one_piece(second.drop_last(), separator);
        assert((middle + second).drop_last() =~= middle + second.drop_last());
        let before = pieces(second.drop_last(), separator);
        let all = pieces(first, separator) + before;
        assert(all.last() == before.last());
        assert(all.drop_last() =~= pieces(first, separator) + before.drop_last());
        assert(pieces(middle + second, separator) =~= pieces(first, separator) + pieces(
            second,
            separator,
        ));
    }
}

proof fn lemma_one_piece(text: Seq<char>, separator: char)
    ensures
        pieces(text, separator).len() > 0,
        !text.contains(separator) ==> pieces(text, separator) == seq![text],
    decreases text.len(),
{
    if text.len() == 0 {
        assert(text =~= Seq::<char>::empty());
    } else {
        lemma_one_piece(text.drop_last(), separator);
        if !text.contains(separator) {
            assert(text[text.len() - 1] != separator);
            assert(!text.drop_last().contains(separator)) by {
                assert forall|i: int| 0 <= i < text.drop_last().len() implies text.drop_last()[i]
                    != separator by {
                    assert(text.drop_last()[i] == text[i]);
                    assert(text.contains(text[i]));
                }
            }
            assert(text.drop_last().push(text.last()) =~= text);
            assert(pieces(text, separator) =~= seq![text]);
        }
    }
}

} // verus!
