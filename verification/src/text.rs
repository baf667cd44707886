//! Text and byte building blocks: UTF-8 output, numbers, and character tests.
use vstd::prelude::*;
use vstd::string::*;
use vstd::utf8::*;

verus! {

/// Describes `String::push` of the standard library: it appends one character.
pub assume_specification[ String::push ](text: &mut String, character: char)
    ensures
        final(text)@ == old(text)@.push(character),
;

/// The characters with the Unicode `White_Space` property.
pub open spec fn is_white_space(character: char) -> bool {
    let code = character as u32;
    ||| 0x09 <= code <= 0x0d
    ||| code == 0x20
    ||| code == 0x85
    ||| code == 0xa0
    ||| code == 0x1680
    ||| 0x2000 <= code <= 0x200a
    ||| code == 0x2028
    ||| code == 0x2029
    ||| code == 0x202f
    ||| code == 0x205f
    ||| code == 0x3000
}

/// Calls `char::is_whitespace` of the standard library, which answers whether the
/// character has the Unicode `White_Space` property.
#[verifier::external_body]
pub(crate) fn char_is_white_space(character: char) -> (white: bool)
    ensures
        white == is_white_space(character),
{
    character.is_whitespace()
}

/// The encoding of a concatenation is the concatenation of the encodings.
pub proof fn lemma_encode_concat(first: Seq<char>, second: Seq<char>)
    ensures
        encode_utf8(first + second) == encode_utf8(first) + encode_utf8(second),
    decreases first.len(),
{
    if first.len() == 0 {
        assert(first + second =~= second);
        assert(encode_utf8(first) + encode_utf8(second) =~= encode_utf8(second));
    } else {
        lemma_encode_concat(first.drop_first(), second);
        assert((first + second).drop_first() =~= first.drop_first() + second);
        assert(encode_utf8(first + second) =~= encode_utf8(first) + encode_utf8(second));
    }
}

/// Appends bytes to an output buffer.
pub fn push_bytes(output: &mut Vec<u8>, bytes: &[u8])
    ensures
        final(output)@ == old(output)@ + bytes@,
{
    output.extend_from_slice(bytes);
    assert(output@ =~= old(output)@ + bytes@);
}

/// Appends the UTF-8 encoding of a text to an output buffer.
pub fn push_str(output: &mut Vec<u8>, text: &str)
    ensures
        final(output)@ == old(output)@ + encode_utf8(text@),
{
    push_bytes(output, text.as_bytes());
}

/// Appends the UTF-8 encoding of a character to an output buffer.
pub fn push_char(bytes: &mut Vec<u8>, character: char)
    ensures
        final(bytes)@ == old(bytes)@ + encode_utf8(seq![character]),
{
    let mut text = String::new();
    text.push(character);
    assert(text@ =~= seq![character]);
    push_str(bytes, text.as_str());
}

/// Appends the UTF-8 encoding of characters to an output buffer.
pub fn push_chars(bytes: &mut Vec<u8>, characters: &[char])
    ensures
        final(bytes)@ == old(bytes)@ + encode_utf8(characters@),
{
    let text = from_chars(characters);
    push_str(bytes, text.as_str());
}

/// Lines of bytes as sequences.
pub open spec fn lines_view(lines: Seq<Vec<u8>>) -> Seq<Seq<u8>> {
    lines.map_values(|line: Vec<u8>| line@)
}

/// The decimal digits of a number, most significant first.
pub open spec fn decimal(number: nat) -> Seq<char>
    decreases number,
{
    if number < 10 {
        seq![digit_char(number)]
    } else {
        decimal(number / 10).push(digit_char(number % 10))
    }
}

/// The lower-case hexadecimal digits of a number, most significant first.
pub open spec fn hex(number: nat) -> Seq<char>
    decreases number,
{
    if number < 16 {
        seq![digit_char(number)]
    } else {
        hex(number / 16).push(digit_char(number % 16))
    }
}

/// The lower-case character that stands for a digit below sixteen.
pub open spec fn digit_char(digit: nat) -> char {
    if digit < 10 {
        ('0' as nat + digit) as char
    } else {
        ('a' as nat + (digit - 10)) as char
    }
}

fn digit(value: u64) -> (character: char)
    requires
        value < 16,
    ensures
        character == digit_char(value as nat),
{
    let code: u8 = if value < 10 {
        48 + value as u8
    } else {
        97 + (value as u8 - 10)
    };
    code as char
}

/// Writes a number in decimal.
pub fn decimal_string(number: u64) -> (text: String)
    ensures
        text@ == decimal(number as nat),
    decreases number,
{
    if number < 10 {
        let mut text = String::new();
        text.push(digit(number));
        assert(text@ =~= seq![digit_char(number as nat)]);
        text
    } else {
        let mut text = decimal_string(number / 10);
        text.push(digit(number % 10));
        text
    }
}

/// Writes a number in lower-case hexadecimal.
pub fn hex_string(number: u64) -> (text: String)
    ensures
        text@ == hex(number as nat),
    decreases number,
{
    if number < 16 {
        let mut text = String::new();
        text.push(digit(number));
        assert(text@ =~= seq![digit_char(number as nat)]);
        text
    } else {
        let mut text = hex_string(number / 16);
        text.push(digit(number % 16));
        text
    }
}

/// Appends a number in decimal to an output buffer.
pub fn push_decimal(output: &mut Vec<u8>, number: u64)
    ensures
        final(output)@ == old(output)@ + encode_utf8(decimal(number as nat)),
{
    let text = decimal_string(number);
    push_str(output, text.as_str());
}

/// The characters of a text.
pub fn to_chars(text: &str) -> (chars: Vec<char>)
    ensures
        chars@ == text@,
{
    let mut chars: Vec<char> = Vec::new();
    for character in iter: text.chars()
        invariant
            chars@ == text@.take(iter.index() as int),
            iter.seq() == text@,
    {
        chars.push(character);
        assert(text@.take(iter.index() + 1) =~= text@.take(iter.index() as int).push(character));
    }
    assert(text@.take(text@.len() as int) =~= text@);
    chars
}

/// The text that a slice of characters spells.
pub fn from_chars(chars: &[char]) -> (text: String)
    ensures
        text@ == chars@,
{
    let mut text = String::new();
    let mut index: usize = 0;
    while index < chars.len()
        invariant
            index <= chars@.len(),
            text@ == chars@.take(index as int),
        decreases chars@.len() - index,
    {
        text.push(chars[index]);
        assert(chars@.take(index + 1) =~= chars@.take(index as int).push(chars@[index as int]));
        index += 1;
    }
    assert(chars@.take(chars@.len() as int) =~= chars@);
    text
}

/// Puts a text between two others.
pub fn between(before: &str, text: &str, after: &str) -> (result: String)
    ensures
        result@ == before@ + text@ + after@,
{
    let mut chars = to_chars(before);
    let middle = to_chars(text);
    let ending = to_chars(after);
    chars.extend_from_slice(&middle);
    chars.extend_from_slice(&ending);
    assert(chars@ =~= before@ + text@ + after@);
    from_chars(&chars)
}

/// Puts a text behind another.
pub fn followed(text: &str, more: &str) -> (result: String)
    ensures
        result@ == text@ + more@,
{
    let mut chars = to_chars(text);
    let ending = to_chars(more);
    chars.extend_from_slice(&ending);
    assert(chars@ =~= text@ + more@);
    from_chars(&chars)
}

/// Of the ASCII characters, the space and the five control functions from tab to
/// carriage return are white space.
pub proof fn law_ascii_white_space(character: char)
    requires
        character <= '\u{7f}',
    ensures
        is_white_space(character) <==> character == ' ' || '\t' <= character <= '\r',
{
}

} // verus!
