use vstd::prelude::*;
use crate::chars::chars_of;
use crate::lexer::{false_word, null_word, true_word};
use crate::numeric::{Decimal, decimal_digits, digit_char, magnitude, push_decimal};
use crate::value::JsonData;

verus! {

// ----- Canonical JSON text, as mathematics -----

/// A character that cannot stand as itself inside a JSON string.
pub open spec fn needs_escape(c: char) -> bool {
    c == '"' || c == '\\' || (c as u32) < 0x20
}

pub open spec fn hex_digit(d: nat) -> char {
    if d < 10 {
        digit_char(d)
    } else {
        ((d + 87) as u32) as char
    }
}

/// How `c` is written inside a JSON string.
pub open spec fn escape_char(c: char) -> Seq<char> {
    if c == '"' {
        seq!['\\', '"']
    } else if c == '\\' {
        seq!['\\', '\\']
    } else if c == '\n' {
        seq!['\\', 'n']
    } else if c == '\r' {
        seq!['\\', 'r']
    } else if c == '\t' {
        seq!['\\', 't']
    } else if c == '\x08' {
        seq!['\\', 'b']
    } else if c == '\x0C' {
        seq!['\\', 'f']
    } else if (c as u32) < 0x20 {
        seq!['\\', 'u', '0', '0', hex_digit((c as u32 / 16) as nat), hex_digit((c as u32 % 16) as nat)]
    } else {
        seq![c]
    }
}

pub open spec fn escape(s: Seq<char>) -> Seq<char>
    decreases s.len(),
{
    if s.len() == 0 {
        Seq::empty()
    } else {
        escape(s.drop_last()) + escape_char(s.last())
    }
}

/// `s` as a JSON string literal.
pub open spec fn quoted(s: Seq<char>) -> Seq<char> {
    seq!['"'] + escape(s) + seq!['"']
}

pub open spec fn integer_text(n: int) -> Seq<char> {
    if n < 0 {
        seq!['-'] + decimal_digits((-n) as nat)
    } else {
        decimal_digits(n as nat)
    }
}

/// A decimal as JSON text: `12.5` when the point falls within the digits,
/// `3.0` for a whole number with exponent zero, else `125e-7` or `5e3`.
pub open spec fn decimal_text(d: Decimal) -> Seq<char> {
    let digits = decimal_digits(magnitude(d.mantissa as int));
    let sign = if d.mantissa < 0 {
        seq!['-']
    } else {
        Seq::<char>::empty()
    };
    let e = d.exponent as int;
    if e == 0 {
        sign + digits + seq!['.', '0']
    } else if e < 0 && -e < digits.len() {
        let cut = digits.len() + e;
        sign + digits.subrange(0, cut) + seq!['.'] + digits.subrange(cut, digits.len() as int)
    } else {
        sign + digits + seq!['e'] + integer_text(e)
    }
}

/// The compact JSON text of a value.
pub open spec fn ser(v: JsonData) -> Seq<char>
    decreases v,
{
    match v {
        JsonData::Object(entries) => seq!['{'] + ser_members(entries) + seq!['}'],
        JsonData::Array(items) => seq!['['] + ser_items(items) + seq![']'],
        JsonData::Number(n) => integer_text(n as int),
        JsonData::Float(d) => decimal_text(d),
        JsonData::Bool(b) => if b {
            true_word()
        } else {
            false_word()
        },
        JsonData::Str(s) => quoted(s),
        JsonData::Null => null_word(),
    }
}

/// Array items joined by commas.
pub open spec fn ser_items(items: Seq<JsonData>) -> Seq<char>
    decreases items,
{
    if items.len() == 0 {
        Seq::empty()
    } else if items.len() == 1 {
        ser(items[0])
    } else {
        ser_items(items.drop_last()) + seq![','] + ser(items.last())
    }
}

/// Object members, `"key":value`, joined by commas.
pub open spec fn ser_members(entries: Seq<(Seq<char>, JsonData)>) -> Seq<char>
    decreases entries,
{
    if entries.len() == 0 {
        Seq::empty()
    } else if entries.len() == 1 {
        quoted(entries[0].0) + seq![':'] + ser(entries[0].1)
    } else {
        ser_members(entries.drop_last()) + seq![','] + quoted(entries.last().0) + seq![':'] + ser(
            entries.last().1,
        )
    }
}

// ----- Writing text -----

fn hex_char(d: u32) -> (c: char)
    requires
        d < 16,
    ensures
        c == hex_digit(d as nat),
{
    if d < 10 {
        (d as u8 + 48u8) as char
    } else {
        (d as u8 + 87u8) as char
    }
}

/// Appends `c` as it is written inside a JSON string.
pub fn push_escaped_char(out: &mut Vec<char>, c: char)
    ensures
        final(out)@ == old(out)@ + escape_char(c),
{
    let code = c as u32;
    if c == '"' {
        out.push('\\');
        out.push('"');
    } else if c == '\\' {
        out.push('\\');
        out.push('\\');
    } else if c == '\n' {
        out.push('\\');
        out.push('n');
    } else if c == '\r' {
        out.push('\\');
        out.push('r');
    } else if c == '\t' {
        out.push('\\');
        out.push('t');
    } else if c == '\x08' {
        out.push('\\');
        out.push('b');
    } else if c == '\x0C' {
        out.push('\\');
        out.push('f');
    } else if code < 0x20 {
        out.push('\\');
        out.push('u');
        out.push('0');
        out.push('0');
        out.push(hex_char(code / 16));
        out.push(hex_char(code % 16));
    } else {
        out.push(c);
    }
    proof {
        assert(final(out)@ =~= old(out)@ + escape_char(c));
    }
}

/// Appends `s` as a JSON string literal.
pub fn push_quoted(out: &mut Vec<char>, s: &str)
    ensures
        final(out)@ == old(out)@ + quoted(s@),
{
    let chars = chars_of(s);
    out.push('"');
    let ghost start = out@;
    let mut i: usize = 0;
    while i < chars.len()
        invariant
            i <= chars@.len(),
            chars@ == s@,
            out@ == start + escape(chars@.subrange(0, i as int)),
        decreases chars@.len() - i,
    {
        push_escaped_char(out, chars[i]);
        proof {
            let pre = chars@.subrange(0, i as int);
            let next = chars@.subrange(0, i + 1);
            assert(next.drop_last() =~= pre);
            assert(out@ =~= start + escape(next));
        }
        i = i + 1;
    }
    out.push('"');
    proof {
        assert(chars@.subrange(0, chars@.len() as int) =~= s@);
        assert(final(out)@ =~= old(out)@ + quoted(s@));
    }
}

/// Appends an integer in decimal.
pub fn push_integer(out: &mut Vec<char>, n: i64)
    ensures
        final(out)@ == old(out)@ + integer_text(n as int),
{
    if n < 0 {
        out.push('-');
        let m: u64 = (-(n as i128)) as u64;
        push_decimal(out, m);
        proof {
            assert(final(out)@ =~= old(out)@ + integer_text(n as int));
        }
    } else {
        push_decimal(out, n as u64);
    }
}

/// Appends a decimal as `decimal_text` writes it.
pub fn push_decimal_number(out: &mut Vec<char>, d: Decimal)
    ensures
        final(out)@ == old(out)@ + decimal_text(d),
{
    let mag: u64 = if d.mantissa < 0 {
        (-(d.mantissa as i128)) as u64
    } else {
        d.mantissa as u64
    };
    let mut digits: Vec<char> = Vec::new();
    push_decimal(&mut digits, mag);
    proof {
        assert(digits@ =~= decimal_digits(magnitude(d.mantissa as int)));
    }
    if d.mantissa < 0 {
        out.push('-');
    }
    let ghost signed_start = out@;
    let n = digits.len();
    let e = d.exponent;
    if e == 0 {
        append_chars(out, &digits, 0, n);
        out.push('.');
        out.push('0');
    } else if e < 0 && (e as i128) > -(n as i128) {
        let cut = (n as i128 + e as i128) as usize;
        append_chars(out, &digits, 0, cut);
        out.push('.');
        append_chars(out, &digits, cut, n);
    } else {
        append_chars(out, &digits, 0, n);
        out.push('e');
        push_integer(out, e);
    }
    proof {
        assert(digits@.subrange(0, n as int) =~= digits@);
        assert(final(out)@ =~= old(out)@ + decimal_text(d));
    }
}

/// Appends `v[from..to]`.
pub fn append_chars(out: &mut Vec<char>, v: &Vec<char>, from: usize, to: usize)
    requires
        from <= to <= v@.len(),
    ensures
        final(out)@ == old(out)@ + v@.subrange(from as int, to as int),
{
    let mut i = from;
    while i < to
        invariant
            from <= i <= to <= v@.len(),
            out@ == old(out)@ + v@.subrange(from as int, i as int),
        decreases to - i,
    {
        out.push(v[i]);
        proof {
            assert(v@.subrange(from as int, i + 1) =~= v@.subrange(from as int, i as int).push(
                v@[i as int],
            ));
            assert(out@ =~= old(out)@ + v@.subrange(from as int, i + 1));
        }
        i = i + 1;
    }
}

/// Appends the characters of `w`.
pub fn push_word(out: &mut Vec<char>, w: &Vec<char>)
    ensures
        final(out)@ == old(out)@ + w@,
{
    append_chars(out, w, 0, w.len());
    proof {
        assert(w@.subrange(0, w@.len() as int) =~= w@);
    }
}

} // verus!
