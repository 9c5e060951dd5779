//! The canonical JSON spelling of the strings and integers this crate writes.

use vstd::prelude::*;

verus! {

/// The lowercase hexadecimal digit for a value below sixteen.
pub open spec fn hex_digit(value: nat) -> char {
    if value < 10 {
        (('0' as int) + value) as char
    } else {
        (('a' as int) + value - 10) as char
    }
}

/// How one character is written inside a canonical JSON string: the quote and the reverse
/// solidus escaped, the five control characters with a short form written short, every other
/// control character as a lowercase `\u00xx`, and everything else as itself.
pub open spec fn escaped(c: char) -> Seq<char> {
    if c == '"' {
        seq!['\\', '"']
    } else if c == '\\' {
        seq!['\\', '\\']
    } else if c == '\u{8}' {
        seq!['\\', 'b']
    } else if c == '\t' {
        seq!['\\', 't']
    } else if c == '\n' {
        seq!['\\', 'n']
    } else if c == '\u{c}' {
        seq!['\\', 'f']
    } else if c == '\r' {
        seq!['\\', 'r']
    } else if (c as int) < 0x20 {
        seq!['\\', 'u', '0', '0', hex_digit((c as nat) / 16), hex_digit((c as nat) % 16)]
    } else {
        seq![c]
    }
}

/// The escaped body of a string: each character escaped in turn.
pub open spec fn escaped_text(text: Seq<char>) -> Seq<char>
    decreases text.len(),
{
    if text.len() == 0 {
        Seq::empty()
    } else {
        escaped_text(text.drop_last()) + escaped(text.last())
    }
}

/// A canonical JSON string literal.
pub open spec fn json_string(text: Seq<char>) -> Seq<char> {
    seq!['"'] + escaped_text(text) + seq!['"']
}

/// The decimal digits of a natural number, most significant first, with no leading zero.
pub open spec fn decimal(value: nat) -> Seq<char>
    decreases value,
{
    if value < 10 {
        seq![(('0' as int) + value) as char]
    } else {
        decimal(value / 10) + seq![(('0' as int) + value % 10) as char]
    }
}

/// Append one character to a string, by std's `String::push`, which vstd gives no
/// specification: the contract claims that the string's characters afterwards are the old
/// ones followed by `c`, as std documents the call.
#[verifier::external_body]
fn push_char(text: &mut String, c: char)
    ensures
        final(text)@ == old(text)@.push(c),
{
    text.push(c);
}

/// The digit character for a value below ten.
fn digit_char(value: u64) -> (c: char)
    requires
        value < 10,
    ensures
        c == (('0' as int) + value) as char,
{
    match value {
        0 => '0',
        1 => '1',
        2 => '2',
        3 => '3',
        4 => '4',
        5 => '5',
        6 => '6',
        7 => '7',
        8 => '8',
        _ => '9',
    }
}

/// Append the decimal spelling of `value`.
pub fn write_decimal(out: &mut String, value: u64)
    ensures
        final(out)@ == old(out)@ + decimal(value as nat),
    decreases value,
{
    if value < 10 {
        push_char(out, digit_char(value));
        assert(old(out)@ + decimal(value as nat) =~= old(out)@.push((('0' as int) + value) as char));
    } else {
        write_decimal(out, value / 10);
        push_char(out, digit_char(value % 10));
        assert(old(out)@ + decimal(value as nat) =~= (old(out)@ + decimal((value / 10) as nat)).push(
            (('0' as int) + value % 10) as char,
        ));
    }
}

/// Append one escaped character.
fn write_escaped(out: &mut String, c: char)
    ensures
        final(out)@ == old(out)@ + escaped(c),
{
    let code = c as u32;
    if c == '"' {
        push_char(out, '\\');
        push_char(out, '"');
    } else if c == '\\' {
        push_char(out, '\\');
        push_char(out, '\\');
    } else if c == '\u{8}' {
        push_char(out, '\\');
        push_char(out, 'b');
    } else if c == '\t' {
        push_char(out, '\\');
        push_char(out, 't');
    } else if c == '\n' {
        push_char(out, '\\');
        push_char(out, 'n');
    } else if c == '\u{c}' {
        push_char(out, '\\');
        push_char(out, 'f');
    } else if c == '\r' {
        push_char(out, '\\');
        push_char(out, 'r');
    } else if code < 0x20 {
        push_char(out, '\\');
        push_char(out, 'u');
        push_char(out, '0');
        push_char(out, '0');
        push_char(out, hex_char((code / 16) as u64));
        push_char(out, hex_char((code % 16) as u64));
    } else {
        push_char(out, c);
    }
    assert(final(out)@ =~= old(out)@ + escaped(c));
}

/// The lowercase hexadecimal digit for a value below sixteen.
fn hex_char(value: u64) -> (c: char)
    requires
        value < 16,
    ensures
        c == hex_digit(value as nat),
{
    if value < 10 {
        digit_char(value)
    } else {
        match value {
            10 => 'a',
            11 => 'b',
            12 => 'c',
            13 => 'd',
            14 => 'e',
            _ => 'f',
        }
    }
}

/// Append the canonical JSON string literal for `text`.
pub fn write_string(out: &mut String, text: &str)
    ensures
        final(out)@ == old(out)@ + json_string(text@),
{
    push_char(out, '"');
    let n = text.unicode_len();
    let mut i: usize = 0;
    while i < n
        invariant
            n == text@.len(),
            i <= n,
            out@ == old(out)@ + seq!['"'] + escaped_text(text@.subrange(0, i as int)),
        decreases n - i,
    {
        let c = text.get_char(i);
        write_escaped(out, c);
        proof {
            let prefix = text@.subrange(0, i + 1);
            assert(prefix.drop_last() =~= text@.subrange(0, i as int));
            assert(prefix.last() == c);
        }
        i = i + 1;
    }
    push_char(out, '"');
    proof {
        assert(text@.subrange(0, n as int) =~= text@);
        assert(out@ =~= old(out)@ + json_string(text@));
    }
}

/// Append a fixed piece of JSON punctuation or a key written out in full.
pub fn write_raw(out: &mut String, piece: &str)
    ensures
        final(out)@ == old(out)@ + piece@,
{
    out.append(piece);
}

/// Encoded elements separated by commas.
pub open spec fn joined(items: Seq<Seq<char>>) -> Seq<char>
    decreases items.len(),
{
    if items.len() == 0 {
        Seq::empty()
    } else if items.len() == 1 {
        items[0]
    } else {
        joined(items.drop_last()) + seq![','] + items.last()
    }
}

/// A canonical JSON array of already-encoded elements.
pub open spec fn json_array(items: Seq<Seq<char>>) -> Seq<char> {
    seq!['['] + joined(items) + seq![']']
}

/// Extending the elements by one extends their joining by a comma and that element, or by the
/// element alone when it is the first.
pub proof fn lemma_joined_push(items: Seq<Seq<char>>, item: Seq<char>)
    ensures
        joined(items.push(item)) == if items.len() == 0 { item } else { joined(items) + seq![','] + item },
{
    let longer = items.push(item);
    assert(longer.drop_last() =~= items);
    if items.len() == 0 {
        assert(longer.len() == 1);
        assert(longer[0] == item);
    }
}

/// Append the separator that comes before the element at `index` of an array.
pub fn write_separator(out: &mut String, index: usize)
    ensures
        final(out)@ == if index == 0 { old(out)@ } else { old(out)@ + seq![','] },
{
    if index > 0 {
        push_char(out, ',');
    }
}

} // verus!
