use vstd::prelude::*;
use crate::lexer::{
    ReserveCode, TokenKind, after_token, digits_end, false_word, is_ws, lex, null_word,
    number_layout, reserve_of, scan_token, skip_ws, string_close, token_at, true_word, word_at,
};
use crate::numeric::{
    Decimal, all_digits, decimal_digits, decode_decimal, decode_integer, digits_value, is_digit,
    lemma_decimal_digits, magnitude, trim_zeros,
};
use crate::parser::{array_body, object_body, parse_elements, parse_members, parse_text, parse_value};
use crate::text::{
    decimal_text, escape, escape_char, integer_text, needs_escape, quoted, ser, ser_items,
    ser_members,
};
use crate::value::{JsonData, key_position, keys_unique, lemma_key_position, lookup, upsert, upsert_all, valid};

verus! {

/// No character of `s` needs escaping.
pub open spec fn clean_text(s: Seq<char>) -> bool {
    forall|i: int| 0 <= i < s.len() ==> !needs_escape(#[trigger] s[i])
}

/// No string of `v`, key or value, holds a character that needs escaping.
pub open spec fn escape_free(v: JsonData) -> bool
    decreases v,
{
    match v {
        JsonData::Object(entries) => forall|i: int|
            0 <= i < entries.len() ==> clean_text(#[trigger] entries[i].0) && escape_free(
                entries[i].1,
            ),
        JsonData::Array(items) => forall|i: int|
            0 <= i < items.len() ==> escape_free(#[trigger] items[i]),
        JsonData::Str(s) => clean_text(s),
        _ => true,
    }
}

/// `s` stands in `t` at `pos`.
pub open spec fn at(t: Seq<char>, pos: int, s: Seq<char>) -> bool {
    0 <= pos && pos + s.len() <= t.len() && t.subrange(pos, pos + s.len()) == s
}

/// What may follow a value in compact text: a separator, a closing bracket
/// or brace, or the end.
pub open spec fn boundary(t: Seq<char>, q: int) -> bool {
    q == t.len() || (0 <= q < t.len() && (t[q] == ',' || t[q] == ']' || t[q] == '}'))
}

/// A token that can start a value.
pub open spec fn value_start(k: TokenKind) -> bool {
    match k {
        TokenKind::Undefined => false,
        TokenKind::Reserve(r) => r == ReserveCode::OpenBrace || r == ReserveCode::OpenBracket,
        _ => true,
    }
}

proof fn lemma_at(t: Seq<char>, pos: int, s: Seq<char>)
    requires
        at(t, pos, s),
    ensures
        forall|k: int| 0 <= k < s.len() ==> t[pos + k] == #[trigger] s[k],
{
    assert forall|k: int| 0 <= k < s.len() implies t[pos + k] == #[trigger] s[k] by {
        assert(t.subrange(pos, pos + s.len())[k] == t[pos + k]);
    }
}

proof fn lemma_at_split(t: Seq<char>, pos: int, a: Seq<char>, b: Seq<char>)
    requires
        at(t, pos, a + b),
    ensures
        at(t, pos, a),
        at(t, pos + a.len(), b),
{
    assert(t.subrange(pos, pos + a.len()) =~= (a + b).subrange(0, a.len() as int));
    assert((a + b).subrange(0, a.len() as int) =~= a);
    assert(t.subrange(pos + a.len(), pos + a.len() + b.len()) =~= (a + b).subrange(
        a.len() as int,
        (a + b).len() as int,
    ));
    assert((a + b).subrange(a.len() as int, (a + b).len() as int) =~= b);
}

proof fn lemma_digits_run(t: Seq<char>, i: int, j: int)
    requires
        0 <= i <= j <= t.len(),
        forall|k: int| i <= k < j ==> is_digit(#[trigger] t[k]),
        j == t.len() || !is_digit(t[j]),
    ensures
        digits_end(t, i) == j,
    decreases j - i,
{
    if i < j {
        lemma_digits_run(t, i + 1, j);
    }
}

proof fn lemma_string_run(t: Seq<char>, i: int, q: int)
    requires
        0 <= i <= q < t.len(),
        t[q] == '"',
        forall|k: int| i <= k < q ==> !needs_escape(#[trigger] t[k]),
    ensures
        string_close(t, i) == Some(q),
    decreases q - i,
{
    if i < q {
        assert(!needs_escape(t[i]));
        assert(t[i] != '\n') by {
            assert(('\n' as u32) < 0x20);
        }
        lemma_string_run(t, i + 1, q);
    }
}

pub proof fn lemma_escape_identity(s: Seq<char>)
    requires
        clean_text(s),
    ensures
        escape(s) == s,
    decreases s.len(),
{
    if s.len() > 0 {
        let s0 = s.drop_last();
        assert(clean_text(s0)) by {
            assert forall|i: int| 0 <= i < s0.len() implies !needs_escape(#[trigger] s0[i]) by {
                assert(s0[i] == s[i]);
            }
        }
        lemma_escape_identity(s0);
        let c = s.last();
        assert(!needs_escape(c));
        assert(escape_char(c) == seq![c]) by {
            assert(('\n' as u32) < 0x20);
            assert(('\r' as u32) < 0x20);
            assert(('\t' as u32) < 0x20);
            assert(('\x08' as u32) < 0x20);
            assert(('\x0C' as u32) < 0x20);
        }
        assert(s0.push(c) =~= s);
    }
}

/// A character that starts no number, string or literal.
proof fn lemma_no_word_at(t: Seq<char>, pos: int)
    requires
        0 <= pos < t.len(),
        t[pos] != 't' && t[pos] != 'f' && t[pos] != 'n',
    ensures
        !word_at(t, pos, true_word()),
        !word_at(t, pos, false_word()),
        !word_at(t, pos, null_word()),
{
    if word_at(t, pos, true_word()) {
        assert(t.subrange(pos, pos + 4)[0] == t[pos]);
    }
    if word_at(t, pos, false_word()) {
        assert(t.subrange(pos, pos + 5)[0] == t[pos]);
    }
    if word_at(t, pos, null_word()) {
        assert(t.subrange(pos, pos + 4)[0] == t[pos]);
    }
}

proof fn lemma_lex_reserve(t: Seq<char>, pos: int, code: ReserveCode)
    requires
        0 <= pos < t.len(),
        reserve_of(t[pos]) == Some(code),
    ensures
        lex(t, pos) == (TokenKind::Reserve(code), pos, pos + 1),
{
    assert(!is_ws(t[pos]));
    assert(skip_ws(t, pos) == pos);
    lemma_no_word_at(t, pos);
}

proof fn lemma_lex_string(t: Seq<char>, pos: int, s: Seq<char>)
    requires
        at(t, pos, quoted(s)),
        clean_text(s),
    ensures
        lex(t, pos) == (TokenKind::Str(s), pos, pos + s.len() + 2),
{
    lemma_escape_identity(s);
    let q = quoted(s);
    lemma_at(t, pos, q);
    assert(q[0] == '"');
    assert(t[pos] == '"');
    assert(skip_ws(t, pos) == pos);
    let close = pos + 1 + s.len();
    assert(q[s.len() + 1int] == '"');
    assert forall|k: int| pos + 1 <= k < close implies !needs_escape(#[trigger] t[k]) by {
        assert(q[k - pos] == s[k - pos - 1]);
        assert(t[pos + (k - pos)] == q[k - pos]);
    }
    lemma_string_run(t, pos + 1, close);
    assert(t.subrange(pos + 1, close) =~= s) by {
        assert forall|k: int| 0 <= k < s.len() implies t.subrange(pos + 1, close)[k] == s[k] by {
            assert(q[k + 1] == s[k]);
            assert(t[pos + (k + 1)] == q[k + 1]);
        }
    }
    assert(scan_token(t, pos) == Some((TokenKind::Str(s), close + 1)));
}

proof fn lemma_lex_word(t: Seq<char>, pos: int, w: Seq<char>)
    requires
        at(t, pos, w),
        w == true_word() || w == false_word() || w == null_word(),
    ensures
        w == true_word() ==> lex(t, pos) == (TokenKind::Boolean(true), pos, pos + 4),
        w == false_word() ==> lex(t, pos) == (TokenKind::Boolean(false), pos, pos + 5),
        w == null_word() ==> lex(t, pos) == (TokenKind::Null, pos, pos + 4),
{
    lemma_at(t, pos, w);
    assert(t[pos] == w[0]);
    assert(!is_ws(t[pos]));
    assert(skip_ws(t, pos) == pos);
    assert(word_at(t, pos, w));
    if w == false_word() {
        if word_at(t, pos, true_word()) {
            assert(t.subrange(pos, pos + 4)[0] == t[pos]);
        }
    }
    if w == null_word() {
        if word_at(t, pos, true_word()) {
            assert(t.subrange(pos, pos + 4)[0] == t[pos]);
        }
        if word_at(t, pos, false_word()) {
            assert(t.subrange(pos, pos + 5)[0] == t[pos]);
        }
    }
}


proof fn lemma_integer_text(n: int)
    ensures
        integer_text(n).len() >= 1,
        n < 0 ==> integer_text(n)[0] == '-' && integer_text(n) == seq!['-'] + decimal_digits(
            magnitude(n),
        ),
        n >= 0 ==> integer_text(n) == decimal_digits(magnitude(n)) && is_digit(integer_text(n)[0]),
        all_digits(decimal_digits(magnitude(n))),
        digits_value(decimal_digits(magnitude(n))) == magnitude(n),
{
    lemma_decimal_digits(magnitude(n));
}

/// An integer in compact text lexes back to itself.
proof fn lemma_lex_integer(t: Seq<char>, pos: int, n: i64)
    requires
        at(t, pos, integer_text(n as int)),
        boundary(t, pos + integer_text(n as int).len()),
    ensures
        lex(t, pos) == (TokenKind::Number(n), pos, pos + integer_text(n as int).len()),
{
    let text = integer_text(n as int);
    let d = decimal_digits(magnitude(n as int));
    lemma_integer_text(n as int);
    lemma_at(t, pos, text);
    let neg = n < 0;
    let a = if neg { pos + 1 } else { pos };
    let end = pos + text.len();
    assert(t[pos] == text[0]);
    assert(!is_ws(t[pos]));
    assert(skip_ws(t, pos) == pos);
    assert forall|k: int| a <= k < end implies is_digit(#[trigger] t[k]) by {
        if neg {
            assert(text[k - pos] == d[k - pos - 1]);
        } else {
            assert(text[k - pos] == d[k - pos]);
        }
        assert(t[pos + (k - pos)] == text[k - pos]);
    }
    lemma_digits_run(t, a, end);
    assert(t.subrange(a, end) =~= d) by {
        assert forall|k: int| 0 <= k < d.len() implies t.subrange(a, end)[k] == d[k] by {
            if neg {
                assert(text[k + 1] == d[k]);
                assert(t[pos + (k + 1)] == text[k + 1]);
            } else {
                assert(t[pos + k] == text[k]);
            }
        }
    }
    let l = number_layout(t, pos);
    assert(l.neg == neg);
    assert(l.int_start == a && l.int_end == end);
    assert(!l.has_frac && !l.has_exp);
    assert(decode_integer(neg, d) == Some(n));
}

proof fn lemma_trim_whole(d: Seq<char>)
    requires
        d.len() > 0,
        d.last() != '0',
    ensures
        trim_zeros(d) == d,
{
}

proof fn lemma_lex_decimal_point_zero(t: Seq<char>, pos: int, x: Decimal)
    requires
        x.normalized(),
        x.exponent == 0,
        at(t, pos, decimal_text(x)),
        boundary(t, pos + decimal_text(x).len()),
    ensures
        lex(t, pos) == (TokenKind::Float(x), pos, pos + decimal_text(x).len()),
{
    let m = x.mantissa as int;
    let e = x.exponent as int;
    let text = decimal_text(x);
    let d = decimal_digits(magnitude(m));
    lemma_decimal_digits(magnitude(m));
    lemma_at(t, pos, text);
    let neg = m < 0;
    let sign = if neg { seq!['-'] } else { Seq::<char>::empty() };
    let a = pos + sign.len();
    let b = a + d.len();
    let end = pos + text.len();
    let l = number_layout(t, pos);
    if m != 0 {
        assert(magnitude(m) % 10 != 0);
        lemma_trim_whole(d);
    }
    assert(text =~= sign + d + seq!['.', '0']);
    assert(t[pos] == text[0]);
    if neg {
        assert(text[0] == '-');
    } else {
        assert(text[0] == d[0]);
    }
    assert(!is_ws(t[pos]));
    assert(skip_ws(t, pos) == pos);
    assert(l.neg == neg);
    assert(l.int_start == a);
    assert(text =~= sign + d + seq!['.', '0']);
    assert forall|k: int| a <= k < b implies is_digit(#[trigger] t[k]) by {
        assert(text[k - pos] == d[k - a]);
        assert(t[pos + (k - pos)] == text[k - pos]);
    }
    assert(t[b] == text[b - pos]);
    lemma_digits_run(t, a, b);
    assert(t[b + 1] == text[b + 1 - pos]);
    lemma_digits_run(t, b + 1, b + 2);
    assert(l.int_end == b && l.has_frac && l.frac_start == b + 1 && l.frac_end == b + 2);
    assert(!l.has_exp);
    assert(t.subrange(a, b) =~= d) by {
        assert forall|k: int| 0 <= k < d.len() implies t.subrange(a, b)[k] == d[k] by {
            assert(text[a - pos + k] == d[k]);
            assert(t[pos + (a - pos + k)] == text[a - pos + k]);
        }
    }
    assert(t.subrange(b + 1, b + 2) =~= seq!['0']);
    assert(t.subrange(l.exp_start, l.exp_end) =~= Seq::<char>::empty());
    let dd = d + seq!['0'];
    assert(dd.drop_last() =~= d);
    assert(trim_zeros(dd) == trim_zeros(d));
    if m == 0 {
        crate::numeric::lemma_digit_char(0);
        assert(d =~= seq!['0']);
        assert(d.last() == '0');
        assert(trim_zeros(d) == trim_zeros(d.drop_last()));
        assert(trim_zeros(Seq::<char>::empty()) == Seq::<char>::empty());
        assert(seq!['0'].drop_last() =~= Seq::<char>::empty());
        assert(trim_zeros(d) =~= Seq::<char>::empty());
    }
    assert(decode_decimal(neg, d, seq!['0'], false, Seq::<char>::empty()) == Some(x));
}

proof fn lemma_lex_decimal_fraction(t: Seq<char>, pos: int, x: Decimal)
    requires
        x.normalized(),
        x.exponent < 0 && -x.exponent < decimal_digits(magnitude(x.mantissa as int)).len(),
        at(t, pos, decimal_text(x)),
        boundary(t, pos + decimal_text(x).len()),
    ensures
        lex(t, pos) == (TokenKind::Float(x), pos, pos + decimal_text(x).len()),
{
    let m = x.mantissa as int;
    let e = x.exponent as int;
    let text = decimal_text(x);
    let d = decimal_digits(magnitude(m));
    lemma_decimal_digits(magnitude(m));
    lemma_at(t, pos, text);
    let neg = m < 0;
    let sign = if neg { seq!['-'] } else { Seq::<char>::empty() };
    let a = pos + sign.len();
    let b = a + d.len();
    let end = pos + text.len();
    let l = number_layout(t, pos);
    if m != 0 {
        assert(magnitude(m) % 10 != 0);
        lemma_trim_whole(d);
    }
    let cut = d.len() + e;
    assert(text =~= sign + d.subrange(0, cut) + seq!['.'] + d.subrange(cut, d.len() as int));
    assert(t[pos] == text[0]);
    if neg {
        assert(text[0] == '-');
    } else {
        assert(text[0] == d[0]);
    }
    assert(!is_ws(t[pos]));
    assert(skip_ws(t, pos) == pos);
    assert(l.neg == neg);
    assert(l.int_start == a);
    assert(text =~= sign + d.subrange(0, cut) + seq!['.'] + d.subrange(cut, d.len() as int));
    let c = b + 1;
    assert forall|k: int| a <= k < a + cut implies is_digit(#[trigger] t[k]) by {
        assert(text[k - pos] == d[k - a]);
        assert(t[pos + (k - pos)] == text[k - pos]);
    }
    assert(t[a + cut] == text[a + cut - pos]);
    lemma_digits_run(t, a, a + cut);
    assert forall|k: int| a + cut + 1 <= k < end implies is_digit(#[trigger] t[k]) by {
        assert(text[k - pos] == d[k - a - 1]);
        assert(t[pos + (k - pos)] == text[k - pos]);
    }
    lemma_digits_run(t, a + cut + 1, end);
    assert(l.int_end == a + cut && l.has_frac && l.frac_start == a + cut + 1);
    assert(l.frac_end == end && !l.has_exp);
    assert(t.subrange(a, a + cut) =~= d.subrange(0, cut)) by {
        assert forall|k: int| 0 <= k < cut implies t.subrange(a, a + cut)[k] == d[k] by {
            assert(text[a - pos + k] == d[k]);
            assert(t[pos + (a - pos + k)] == text[a - pos + k]);
        }
    }
    assert(t.subrange(a + cut + 1, end) =~= d.subrange(cut, d.len() as int)) by {
        assert forall|k: int| 0 <= k < d.len() - cut implies #[trigger] t.subrange(a + cut + 1, end)[k]
            == d[cut + k] by {
            assert(text[a - pos + cut + 1 + k] == d[cut + k]);
            assert(t[pos + (a - pos + cut + 1 + k)] == text[a - pos + cut + 1 + k]);
        }
    }
    assert(t.subrange(l.exp_start, l.exp_end) =~= Seq::<char>::empty());
    assert(d.subrange(0, cut) + d.subrange(cut, d.len() as int) =~= d);
    assert(decode_decimal(
        neg,
        d.subrange(0, cut),
        d.subrange(cut, d.len() as int),
        false,
        Seq::<char>::empty(),
    ) == Some(x));
}

proof fn lemma_lex_decimal_exponent(t: Seq<char>, pos: int, x: Decimal)
    requires
        x.normalized(),
        x.exponent != 0 && !(x.exponent < 0 && -x.exponent < decimal_digits(magnitude(x.mantissa as int)).len()),
        at(t, pos, decimal_text(x)),
        boundary(t, pos + decimal_text(x).len()),
    ensures
        lex(t, pos) == (TokenKind::Float(x), pos, pos + decimal_text(x).len()),
{
    let m = x.mantissa as int;
    let e = x.exponent as int;
    let text = decimal_text(x);
    let d = decimal_digits(magnitude(m));
    lemma_decimal_digits(magnitude(m));
    lemma_at(t, pos, text);
    let neg = m < 0;
    let sign = if neg { seq!['-'] } else { Seq::<char>::empty() };
    let a = pos + sign.len();
    let b = a + d.len();
    let end = pos + text.len();
    let l = number_layout(t, pos);
    if m != 0 {
        assert(magnitude(m) % 10 != 0);
        lemma_trim_whole(d);
    }
    let xt = integer_text(e);
    lemma_integer_text(e);
    assert(text =~= sign + d + seq!['e'] + xt);
    assert(t[pos] == text[0]);
    if neg {
        assert(text[0] == '-');
    } else {
        assert(text[0] == d[0]);
    }
    assert(!is_ws(t[pos]));
    assert(skip_ws(t, pos) == pos);
    assert(l.neg == neg);
    assert(l.int_start == a);
    let xd = decimal_digits(magnitude(e));
    assert(text =~= sign + d + seq!['e'] + xt);
    assert forall|k: int| a <= k < b implies is_digit(#[trigger] t[k]) by {
        assert(text[k - pos] == d[k - a]);
        assert(t[pos + (k - pos)] == text[k - pos]);
    }
    assert(t[b] == text[b - pos]);
    lemma_digits_run(t, a, b);
    assert(t[b + 1] == text[b + 1 - pos]);
    assert(text[b + 1 - pos] == xt[0]);
    let xs = if e < 0 { b + 2 } else { b + 1 };
    assert forall|k: int| xs <= k < end implies is_digit(#[trigger] t[k]) by {
        assert(t[pos + (k - pos)] == text[k - pos]);
        assert(text[k - pos] == xt[k - b - 1]);
        if e < 0 {
            assert(xt[k - b - 1] == xd[k - b - 2]);
        }
    }
    lemma_digits_run(t, xs, end);
    assert(l.int_end == b && !l.has_frac && l.frac_start == b && l.frac_end == b);
    assert(l.has_exp && l.exp_neg == (e < 0) && l.exp_start == xs && l.exp_end == end);
    assert(t.subrange(a, b) =~= d) by {
        assert forall|k: int| 0 <= k < d.len() implies t.subrange(a, b)[k] == d[k] by {
            assert(text[a - pos + k] == d[k]);
            assert(t[pos + (a - pos + k)] == text[a - pos + k]);
        }
    }
    assert(t.subrange(xs, end) =~= xd) by {
        assert forall|k: int| 0 <= k < xd.len() implies t.subrange(xs, end)[k] == xd[k] by {
            assert(t[pos + (xs - pos + k)] == text[xs - pos + k]);
            if e < 0 {
                assert(xt[k + 1] == xd[k]);
            }
        }
    }
    assert(t.subrange(b, b) =~= Seq::<char>::empty());
    assert(d + Seq::<char>::empty() =~= d);
    assert(decode_decimal(neg, d, Seq::<char>::empty(), e < 0, xd) == Some(x));
}

/// A normalized decimal in compact text lexes back to itself.
proof fn lemma_lex_decimal(t: Seq<char>, pos: int, x: Decimal)
    requires
        x.normalized(),
        at(t, pos, decimal_text(x)),
        boundary(t, pos + decimal_text(x).len()),
    ensures
        lex(t, pos) == (TokenKind::Float(x), pos, pos + decimal_text(x).len()),
{
    if x.exponent == 0 {
        lemma_lex_decimal_point_zero(t, pos, x);
    } else if x.exponent < 0 && -x.exponent < decimal_digits(magnitude(x.mantissa as int)).len() {
        lemma_lex_decimal_fraction(t, pos, x);
    } else {
        lemma_lex_decimal_exponent(t, pos, x);
    }
}


proof fn lemma_lex_bounds_at(t: Seq<char>, q: int)
    requires
        0 <= q,
    ensures
        lex(t, q).2 <= t.len(),
{
    crate::lexer::lemma_lex_bounds(t, q);
}

pub open spec fn member_text(e: (Seq<char>, JsonData)) -> Seq<char> {
    quoted(e.0) + seq![':'] + ser(e.1)
}

proof fn lemma_ser_items_front(s: Seq<JsonData>)
    requires
        s.len() >= 1,
    ensures
        s.len() == 1 ==> ser_items(s) == ser(s[0]),
        s.len() >= 2 ==> ser_items(s) == ser(s[0]) + seq![','] + ser_items(s.drop_first()),
    decreases s.len(),
{
    if s.len() == 2 {
        assert(s.drop_last().len() == 1);
        assert(s.drop_first().len() == 1);
        assert(s.drop_first()[0] == s.last());
        assert(s.drop_last()[0] == s[0]);
        assert(ser_items(s.drop_last()) == ser(s[0]));
        assert(ser_items(s.drop_first()) == ser(s[1]));
    } else if s.len() > 2 {
        let s0 = s.drop_last();
        lemma_ser_items_front(s0);
        assert(s0.drop_first() =~= s.drop_first().drop_last());
        assert(s.drop_first().last() == s.last());
        assert(ser_items(s.drop_first()) == ser_items(s.drop_first().drop_last()) + seq![','] + ser(
            s.drop_first().last(),
        ));
        assert(ser_items(s) =~= ser(s[0]) + seq![','] + ser_items(s.drop_first()));
    }
}

proof fn lemma_ser_members_front(s: Seq<(Seq<char>, JsonData)>)
    requires
        s.len() >= 1,
    ensures
        s.len() == 1 ==> ser_members(s) == member_text(s[0]),
        s.len() >= 2 ==> ser_members(s) == member_text(s[0]) + seq![','] + ser_members(
            s.drop_first(),
        ),
    decreases s.len(),
{
    if s.len() == 1 {
        assert(ser_members(s) =~= member_text(s[0]));
    } else if s.len() == 2 {
        assert(s.drop_last().len() == 1);
        assert(s.drop_first().len() == 1);
        assert(s.drop_first()[0] == s.last());
        assert(ser_members(s.drop_last()) =~= member_text(s[0]));
        assert(ser_members(s.drop_first()) =~= member_text(s[1]));
        assert(ser_members(s) =~= member_text(s[0]) + seq![','] + ser_members(s.drop_first()));
    } else if s.len() > 2 {
        let s0 = s.drop_last();
        lemma_ser_members_front(s0);
        assert(s0.drop_first() =~= s.drop_first().drop_last());
        assert(s.drop_first().last() == s.last());
        assert(ser_members(s) =~= member_text(s[0]) + seq![','] + ser_members(s.drop_first()));
    }
}

/// Setting members with fresh keys appends them.
pub proof fn lemma_upsert_all_fresh(acc: Seq<(Seq<char>, JsonData)>, rest: Seq<(Seq<char>, JsonData)>)
    requires
        keys_unique(acc + rest),
    ensures
        upsert_all(acc, rest) == acc + rest,
    decreases rest.len(),
{
    if rest.len() == 0 {
        assert(acc + rest =~= acc);
    } else {
        let k = rest[0].0;
        lemma_key_position(acc, k);
        if key_position(acc, k) >= 0 {
            let p = key_position(acc, k);
            assert((acc + rest)[p].0 == (acc + rest)[acc.len() as int].0);
        }
        let acc2 = acc.push(rest[0]);
        assert(upsert(acc, k, rest[0].1) == acc2);
        assert(acc2 + rest.drop_first() =~= acc + rest);
        lemma_upsert_all_fresh(acc2, rest.drop_first());
    }
}

proof fn lemma_scalar_text(t: Seq<char>, pos: int, v: JsonData)
    requires
        !(v is Object),
        !(v is Array),
        valid(v),
        escape_free(v),
        at(t, pos, ser(v)),
        boundary(t, pos + ser(v).len()),
    ensures
        value_start(token_at(t, pos)),
        pos < after_token(t, pos) <= pos + ser(v).len(),
        parse_value(t, token_at(t, pos), after_token(t, pos)) == Some((v, pos + ser(v).len())),
{
    match v {
        JsonData::Number(n) => {
            assert(ser(v) == integer_text(n as int));
            lemma_lex_integer(t, pos, n);
            assert(after_token(t, pos) == pos + ser(v).len());
            assert(token_at(t, pos) == TokenKind::Number(n));
            assert(pos < after_token(t, pos) <= pos + ser(v).len());
            assert(parse_value(t, token_at(t, pos), after_token(t, pos)) == Some((v, pos + ser(v).len())));
        },
        JsonData::Float(x) => {
            assert(ser(v) == decimal_text(x));
            lemma_lex_decimal(t, pos, x);
            assert(pos < after_token(t, pos) <= pos + ser(v).len());
            assert(parse_value(t, token_at(t, pos), after_token(t, pos)) == Some((v, pos + ser(v).len())));
        },
        JsonData::Bool(b) => {
            if b {
                assert(ser(v) == true_word());
                lemma_lex_word(t, pos, true_word());
            } else {
                assert(ser(v) == false_word());
                lemma_lex_word(t, pos, false_word());
            }
            assert(pos < after_token(t, pos) <= pos + ser(v).len());
            assert(parse_value(t, token_at(t, pos), after_token(t, pos)) == Some((v, pos + ser(v).len())));
        },
        JsonData::Str(s) => {
            assert(ser(v) == quoted(s));
            lemma_lex_string(t, pos, s);
            assert(ser(v).len() == s.len() + 2) by {
                lemma_escape_identity(s);
            }
            assert(pos < after_token(t, pos) <= pos + ser(v).len());
            assert(parse_value(t, token_at(t, pos), after_token(t, pos)) == Some((v, pos + ser(v).len())));
        },
        _ => {
            assert(ser(v) == null_word());
            lemma_lex_word(t, pos, null_word());
            assert(pos < after_token(t, pos) <= pos + ser(v).len());
            assert(parse_value(t, token_at(t, pos), after_token(t, pos)) == Some((v, pos + ser(v).len())));
        },
    }
}

proof fn lemma_value_text(t: Seq<char>, pos: int, v: JsonData)
    requires
        valid(v),
        escape_free(v),
        at(t, pos, ser(v)),
        boundary(t, pos + ser(v).len()),
    ensures
        value_start(token_at(t, pos)),
        pos < after_token(t, pos) <= pos + ser(v).len(),
        parse_value(t, token_at(t, pos), after_token(t, pos)) == Some((v, pos + ser(v).len())),
    decreases v, 1int,
{
    if v is Array {
        lemma_array_text(t, pos, v);
    } else if v is Object {
        lemma_object_text(t, pos, v);
    } else {
        lemma_scalar_text(t, pos, v);
    }
}

#[verifier::rlimit(30)]
proof fn lemma_array_text(t: Seq<char>, pos: int, v: JsonData)
    requires
        v is Array,
        valid(v),
        escape_free(v),
        at(t, pos, ser(v)),
        boundary(t, pos + ser(v).len()),
    ensures
        value_start(token_at(t, pos)),
        pos < after_token(t, pos) <= pos + ser(v).len(),
        parse_value(t, token_at(t, pos), after_token(t, pos)) == Some((v, pos + ser(v).len())),
    decreases v, 0int,
{
    let items = v->Array_0;
    let body = ser_items(items);
    assert(ser(v) == seq!['['] + body + seq![']']);
    lemma_at(t, pos, ser(v));
    assert(t[pos] == ser(v)[0]);
    lemma_lex_reserve(t, pos, ReserveCode::OpenBracket);
    let pos1 = pos + 1;
    if items.len() == 0 {
        assert(body =~= Seq::<char>::empty());
        assert(t[pos1] == ser(v)[1]);
        lemma_lex_reserve(t, pos1, ReserveCode::CloseBracket);
        assert(items =~= Seq::<JsonData>::empty());
    } else {
        assert(seq!['['] + body + seq![']'] =~= seq!['['] + (body + seq![']']));
        lemma_at_split(t, pos, seq!['['], body + seq![']']);
        assert forall|i: int| 0 <= i < items.len() implies valid(#[trigger] items[i])
            && escape_free(items[i]) by {}
        assert(decreases_to!(v => items));
        lemma_elements_text(t, pos1, items, Seq::empty());
        assert(Seq::<JsonData>::empty() + items =~= items);
    }
}

#[verifier::rlimit(30)]
proof fn lemma_object_text(t: Seq<char>, pos: int, v: JsonData)
    requires
        v is Object,
        valid(v),
        escape_free(v),
        at(t, pos, ser(v)),
        boundary(t, pos + ser(v).len()),
    ensures
        value_start(token_at(t, pos)),
        pos < after_token(t, pos) <= pos + ser(v).len(),
        parse_value(t, token_at(t, pos), after_token(t, pos)) == Some((v, pos + ser(v).len())),
    decreases v, 0int,
{
    let entries = v->Object_0;
    let body = ser_members(entries);
    assert(ser(v) == seq!['{'] + body + seq!['}']);
    lemma_at(t, pos, ser(v));
    assert(t[pos] == ser(v)[0]);
    lemma_lex_reserve(t, pos, ReserveCode::OpenBrace);
    let pos1 = pos + 1;
    if entries.len() == 0 {
        assert(body =~= Seq::<char>::empty());
        assert(t[pos1] == ser(v)[1]);
        lemma_lex_reserve(t, pos1, ReserveCode::CloseBrace);
        assert(entries =~= Seq::<(Seq<char>, JsonData)>::empty());
    } else {
        assert(seq!['{'] + body + seq!['}'] =~= seq!['{'] + (body + seq!['}']));
        lemma_at_split(t, pos, seq!['{'], body + seq!['}']);
        assert forall|i: int| 0 <= i < entries.len() implies valid(#[trigger] entries[i].1)
            && escape_free(entries[i].1) && clean_text(entries[i].0) by {}
        assert(decreases_to!(v => entries));
        lemma_members_text(t, pos1, entries, Seq::empty());
        assert(Seq::<(Seq<char>, JsonData)>::empty() + entries =~= entries);
        lemma_upsert_all_fresh(Seq::empty(), entries);
    }
}

proof fn lemma_elements_text(t: Seq<char>, pos: int, rest: Seq<JsonData>, acc: Seq<JsonData>)
    requires
        rest.len() >= 1,
        forall|i: int| 0 <= i < rest.len() ==> valid(#[trigger] rest[i]) && escape_free(rest[i]),
        at(t, pos, ser_items(rest) + seq![']']),
    ensures
        value_start(token_at(t, pos)),
        pos < after_token(t, pos),
        parse_elements(t, token_at(t, pos), after_token(t, pos), acc) == Some(
            (JsonData::Array(acc + rest), pos + ser_items(rest).len() + 1),
        ),
    decreases rest, 2int,
{
    let v = rest[0];
    lemma_ser_items_front(rest);
    let tail = rest.drop_first();
    let q = pos + ser(v).len();
    assert(decreases_to!(rest => rest[0]));
    if rest.len() == 1 {
        lemma_at_split(t, pos, ser(v), seq![']']);
        lemma_at(t, q, seq![']']);
        assert(t[q + 0] == seq![']'][0]);
        assert(t[q] == ']');
        lemma_value_text(t, pos, v);
        lemma_lex_reserve(t, q, ReserveCode::CloseBracket);
        assert(acc.push(v) =~= acc + rest);
    } else {
        let more = ser_items(tail);
        assert(ser(v) + seq![','] + more + seq![']'] =~= ser(v) + (seq![','] + (more + seq![']'])));
        lemma_at_split(t, pos, ser(v), seq![','] + (more + seq![']']));
        lemma_at_split(t, q, seq![','], more + seq![']']);
        lemma_at(t, q, seq![',']);
        assert(t[q + 0] == seq![','][0]);
        assert(t[q] == ',');
        lemma_value_text(t, pos, v);
        lemma_lex_reserve(t, q, ReserveCode::Comma);
        assert forall|i: int| 0 <= i < tail.len() implies valid(#[trigger] tail[i]) && escape_free(
            tail[i],
        ) by {
            assert(tail[i] == rest[i + 1]);
        }
        lemma_elements_text(t, q + 1, tail, acc.push(v));
        assert(acc.push(v) + tail =~= acc + rest);
    }
}

#[verifier::rlimit(80)]
proof fn lemma_members_text(
    t: Seq<char>,
    pos: int,
    rest: Seq<(Seq<char>, JsonData)>,
    acc: Seq<(Seq<char>, JsonData)>,
)
    requires
        rest.len() >= 1,
        forall|i: int|
            0 <= i < rest.len() ==> valid(#[trigger] rest[i].1) && escape_free(rest[i].1)
                && clean_text(rest[i].0),
        at(t, pos, ser_members(rest) + seq!['}']),
    ensures
        token_at(t, pos) == TokenKind::Str(rest[0].0),
        parse_members(t, token_at(t, pos), after_token(t, pos), acc) == Some(
            (JsonData::Object(upsert_all(acc, rest)), pos + ser_members(rest).len() + 1),
        ),
    decreases rest, 2int,
{
    let (k, v) = rest[0];
    lemma_ser_members_front(rest);
    let tail = rest.drop_first();
    let kq = quoted(k);
    let p = pos + kq.len();
    let vp = p + 1;
    let q = vp + ser(v).len();
    assert(decreases_to!(rest => rest[0]));
    assert(decreases_to!(rest[0] => rest[0].1));
    let closing = if rest.len() == 1 {
        seq!['}']
    } else {
        seq![','] + (ser_members(tail) + seq!['}'])
    };
    assert(ser_members(rest) + seq!['}'] =~= kq + (seq![':'] + (ser(v) + closing))) by {
        if rest.len() >= 2 {
            assert(ser_members(rest) + seq!['}'] =~= member_text(rest[0]) + seq![','] + ser_members(
                tail,
            ) + seq!['}']);
        }
    }
    lemma_at_split(t, pos, kq, seq![':'] + (ser(v) + closing));
    lemma_at_split(t, p, seq![':'], ser(v) + closing);
    lemma_at_split(t, vp, ser(v), closing);
    lemma_at(t, p, seq![':']);
    assert(t[p + 0] == seq![':'][0]);
    assert(t[p] == ':');
    lemma_at(t, q, closing);
    assert(t[q + 0] == closing[0]);
    if rest.len() == 1 {
        assert(t[q] == '}');
    } else {
        assert(t[q] == ',');
    }
    lemma_lex_string(t, pos, k);
    lemma_escape_identity(k);
    assert(kq.len() == k.len() + 2);
    assert(after_token(t, pos) == p);
    lemma_lex_reserve(t, p, ReserveCode::Colon);
    assert(token_at(t, p) == TokenKind::Reserve(ReserveCode::Colon));
    assert(after_token(t, p) == vp);
    lemma_value_text(t, vp, v);
    let acc2 = upsert(acc, k, v);
    assert(upsert_all(acc, rest) == upsert_all(acc2, tail));
    if rest.len() == 1 {
        lemma_lex_reserve(t, q, ReserveCode::CloseBrace);
        assert(tail.len() == 0);
        assert(upsert_all(acc2, tail) == acc2);
        assert(ser_members(rest).len() == kq.len() + 1 + ser(v).len());
        assert(parse_members(t, token_at(t, pos), after_token(t, pos), acc) == Some(
            (JsonData::Object(acc2), q + 1),
        ));
    } else {
        lemma_lex_reserve(t, q, ReserveCode::Comma);
        lemma_at_split(t, q, seq![','], ser_members(tail) + seq!['}']);
        assert forall|i: int| 0 <= i < tail.len() implies valid(#[trigger] tail[i].1)
            && escape_free(tail[i].1) && clean_text(tail[i].0) by {
            assert(tail[i] == rest[i + 1]);
        }
        lemma_members_text(t, q + 1, tail, acc2);
        lemma_lex_bounds_at(t, q);
        assert(ser_members(rest).len() == kq.len() + 1 + ser(v).len() + 1 + ser_members(tail).len());
        assert(parse_members(t, token_at(t, pos), after_token(t, pos), acc) == parse_members(
            t,
            token_at(t, q + 1),
            after_token(t, q + 1),
            acc2,
        ));
    }
}


pub open spec fn has_key(entries: Seq<(Seq<char>, JsonData)>, k: Seq<char>) -> bool {
    exists|j: int| 0 <= j < entries.len() && #[trigger] entries[j].0 == k
}

proof fn lemma_key_position_has_key(entries: Seq<(Seq<char>, JsonData)>, k: Seq<char>)
    ensures
        has_key(entries, k) <==> key_position(entries, k) >= 0,
{
    lemma_key_position(entries, k);
    if key_position(entries, k) >= 0 {
        assert(entries[key_position(entries, k)].0 == k);
    }
}

/// Setting one key leaves the value of every other key alone.
proof fn lemma_upsert_other(
    entries: Seq<(Seq<char>, JsonData)>,
    k2: Seq<char>,
    v2: JsonData,
    k: Seq<char>,
)
    requires
        k != k2,
    ensures
        lookup(upsert(entries, k2, v2), k) == lookup(entries, k),
        has_key(upsert(entries, k2, v2), k) == has_key(entries, k),
{
    let u = upsert(entries, k2, v2);
    lemma_key_position(entries, k);
    lemma_key_position(entries, k2);
    lemma_key_position(u, k);
    lemma_key_position_has_key(entries, k);
    lemma_key_position_has_key(u, k);
    let pos2 = key_position(entries, k2);
    assert forall|j: int| 0 <= j < entries.len() implies (#[trigger] u[j].0 == k) == (entries[j].0
        == k) by {
        if j == pos2 {
            assert(u[j].0 == k2);
        } else {
            assert(u[j] == entries[j]);
        }
    }
    if pos2 < 0 {
        assert(u[entries.len() as int].0 == k2);
    }
    let a = key_position(entries, k);
    let b = key_position(u, k);
    if a >= 0 && b >= 0 {
        if a < b {
            assert(u[a].0 == k);
        }
        if b < a {
            assert(entries[b].0 == k);
        }
        assert(a == b);
        assert(a != pos2);
        assert(u[a] == entries[a]);
    } else if a >= 0 {
        assert(u[a].0 == k);
    } else if b >= 0 {
        assert(entries[b].0 == k);
    }
}

proof fn lemma_upsert_keys(entries: Seq<(Seq<char>, JsonData)>, k2: Seq<char>, v2: JsonData)
    ensures
        has_key(upsert(entries, k2, v2), k2),
        forall|k: Seq<char>|
            k != k2 ==> #[trigger] has_key(upsert(entries, k2, v2), k) == has_key(entries, k),
{
    crate::value::lemma_upsert(entries, k2, v2);
    lemma_key_position_has_key(upsert(entries, k2, v2), k2);
    assert forall|k: Seq<char>| k != k2 implies #[trigger] has_key(upsert(entries, k2, v2), k)
        == has_key(entries, k) by {
        lemma_upsert_other(entries, k2, v2, k);
    }
}

/// Setting members one after another: the keys stay unique, and the keys
/// are those already there and those set.
proof fn lemma_upsert_all_keys(acc: Seq<(Seq<char>, JsonData)>, rest: Seq<(Seq<char>, JsonData)>)
    requires
        keys_unique(acc),
    ensures
        keys_unique(upsert_all(acc, rest)),
        forall|k: Seq<char>|
            #[trigger] has_key(upsert_all(acc, rest), k) == (has_key(acc, k) || has_key(rest, k)),
    decreases rest.len(),
{
    if rest.len() > 0 {
        let acc2 = upsert(acc, rest[0].0, rest[0].1);
        let tail = rest.drop_first();
        crate::value::lemma_upsert(acc, rest[0].0, rest[0].1);
        lemma_upsert_keys(acc, rest[0].0, rest[0].1);
        lemma_upsert_all_keys(acc2, tail);
        assert forall|k: Seq<char>| #[trigger] has_key(upsert_all(acc, rest), k) == (has_key(acc, k)
            || has_key(rest, k)) by {
            if has_key(tail, k) {
                let j = choose|j: int| 0 <= j < tail.len() && #[trigger] tail[j].0 == k;
                assert(rest[j + 1].0 == k);
            }
            if has_key(rest, k) && k != rest[0].0 {
                let j = choose|j: int| 0 <= j < rest.len() && #[trigger] rest[j].0 == k;
                assert(tail[j - 1].0 == k);
            }
        }
    } else {
        assert forall|k: Seq<char>| #[trigger] has_key(upsert_all(acc, rest), k) == (has_key(acc, k)
            || has_key(rest, k)) by {}
    }
}

/// Members set after the last occurrence of `k` leave its value alone.
proof fn lemma_upsert_all_absent(
    acc: Seq<(Seq<char>, JsonData)>,
    rest: Seq<(Seq<char>, JsonData)>,
    k: Seq<char>,
)
    requires
        !has_key(rest, k),
    ensures
        lookup(upsert_all(acc, rest), k) == lookup(acc, k),
    decreases rest.len(),
{
    if rest.len() > 0 {
        assert(rest[0].0 != k);
        lemma_upsert_other(acc, rest[0].0, rest[0].1, k);
        let tail = rest.drop_first();
        assert(!has_key(tail, k)) by {
            if has_key(tail, k) {
                let j = choose|j: int| 0 <= j < tail.len() && #[trigger] tail[j].0 == k;
                assert(rest[j + 1].0 == k);
            }
        }
        lemma_upsert_all_absent(upsert(acc, rest[0].0, rest[0].1), tail, k);
    }
}

/// A key set more than once takes the value it was set to last.
proof fn lemma_upsert_all_last(
    acc: Seq<(Seq<char>, JsonData)>,
    rest: Seq<(Seq<char>, JsonData)>,
    i: int,
)
    requires
        0 <= i < rest.len(),
        forall|j: int| i < j < rest.len() ==> #[trigger] rest[j].0 != rest[i].0,
    ensures
        lookup(upsert_all(acc, rest), rest[i].0) == Some(rest[i].1),
    decreases rest.len(),
{
    let k = rest[i].0;
    let tail = rest.drop_first();
    let acc2 = upsert(acc, rest[0].0, rest[0].1);
    if i == 0 {
        crate::value::lemma_upsert(acc, k, rest[0].1);
        assert(!has_key(tail, k)) by {
            if has_key(tail, k) {
                let j = choose|j: int| 0 <= j < tail.len() && #[trigger] tail[j].0 == k;
                assert(rest[j + 1].0 == k);
            }
        }
        lemma_upsert_all_absent(acc2, tail, k);
    } else {
        assert forall|j: int| i - 1 < j < tail.len() implies #[trigger] tail[j].0 != tail[i - 1].0 by {
            assert(tail[j] == rest[j + 1]);
        }
        lemma_upsert_all_last(acc2, tail, i - 1);
    }
}

/// Writing a tree as compact text and parsing that text gives the tree back,
/// provided every object has unique keys, every decimal is normalized and no
/// string holds a character that needs escaping.
pub proof fn law_round_trip(v: JsonData)
    requires
        valid(v),
        escape_free(v),
    ensures
        parse_text(ser(v)) == Some(v),
{
    let t = ser(v);
    assert(t.subrange(0, t.len() as int) =~= t);
    lemma_value_text(t, 0, v);
}

/// An object written with a key more than once parses to an object that
/// holds each of its keys once, every key with the value of its last
/// occurrence.
pub proof fn law_repeated_key_last_wins(entries: Seq<(Seq<char>, JsonData)>, i: int)
    requires
        forall|j: int|
            0 <= j < entries.len() ==> valid(#[trigger] entries[j].1) && escape_free(entries[j].1)
                && clean_text(entries[j].0),
        0 <= i < entries.len(),
        forall|j: int| i < j < entries.len() ==> #[trigger] entries[j].0 != entries[i].0,
    ensures
        parse_text(ser(JsonData::Object(entries))) == Some(
            JsonData::Object(upsert_all(Seq::empty(), entries)),
        ),
        lookup(upsert_all(Seq::empty(), entries), entries[i].0) == Some(entries[i].1),
        keys_unique(upsert_all(Seq::empty(), entries)),
        forall|k: Seq<char>|
            #[trigger] has_key(upsert_all(Seq::empty(), entries), k) == has_key(entries, k),
{
    let v = JsonData::Object(entries);
    let t = ser(v);
    assert(t.subrange(0, t.len() as int) =~= t);
    let body = ser_members(entries);
    assert(t == seq!['{'] + body + seq!['}']);
    lemma_at(t, 0, t);
    assert(t[0] == '{');
    lemma_lex_reserve(t, 0, ReserveCode::OpenBrace);
    assert(seq!['{'] + body + seq!['}'] =~= seq!['{'] + (body + seq!['}']));
    lemma_at_split(t, 0, seq!['{'], body + seq!['}']);
    lemma_members_text(t, 1, entries, Seq::empty());
    lemma_upsert_all_last(Seq::empty(), entries, i);
    lemma_upsert_all_keys(Seq::empty(), entries);
    assert forall|k: Seq<char>| #[trigger] has_key(upsert_all(Seq::empty(), entries), k) == has_key(
        entries,
        k,
    ) by {
        assert(!has_key(Seq::<(Seq<char>, JsonData)>::empty(), k));
    }
}


/// A decimal token carries a normalized decimal.
pub open spec fn token_ok(k: TokenKind) -> bool {
    k matches TokenKind::Float(d) ==> d.normalized()
}

pub open spec fn values_valid(acc: Seq<(Seq<char>, JsonData)>) -> bool {
    forall|i: int| 0 <= i < acc.len() ==> valid(#[trigger] acc[i].1)
}

proof fn lemma_decode_normalized(
    neg: bool,
    a: Seq<char>,
    f: Seq<char>,
    xneg: bool,
    x: Seq<char>,
)
    requires
        all_digits(a + f),
    ensures
        decode_decimal(neg, a, f, xneg, x) matches Some(d) ==> d.normalized(),
{
    crate::numeric::lemma_trim_zeros(a + f);
}

/// Every token the scanner yields is well formed.
pub proof fn lemma_token_ok(t: Seq<char>, pos: int)
    requires
        0 <= pos,
    ensures
        token_ok(token_at(t, pos)),
{
    crate::lexer::lemma_skip_ws(t, pos);
    let i = skip_ws(t, pos);
    if i < t.len() && (is_digit(t[i]) || t[i] == '-') {
        let l = number_layout(t, i);
        crate::lexer::lemma_digits_end(t, l.int_start);
        if l.has_frac {
            crate::lexer::lemma_digits_end(t, l.frac_start);
        } else {
            assert(t.subrange(l.frac_start, l.frac_end) =~= Seq::<char>::empty());
        }
        let a = t.subrange(l.int_start, l.int_end);
        let f = t.subrange(l.frac_start, l.frac_end);
        assert(all_digits(a + f)) by {
            assert forall|k: int| 0 <= k < (a + f).len() implies is_digit(#[trigger] (a + f)[k]) by {
                if k < a.len() {
                    assert((a + f)[k] == a[k]);
                } else {
                    assert((a + f)[k] == f[k - a.len()]);
                }
            }
        }
        lemma_decode_normalized(l.neg, a, f, l.exp_neg, t.subrange(l.exp_start, l.exp_end));
    }
}

proof fn lemma_upsert_valid(acc: Seq<(Seq<char>, JsonData)>, k: Seq<char>, v: JsonData)
    requires
        values_valid(acc),
        valid(v),
    ensures
        values_valid(upsert(acc, k, v)),
{
    let u = upsert(acc, k, v);
    lemma_key_position(acc, k);
    assert forall|i: int| 0 <= i < u.len() implies valid(#[trigger] u[i].1) by {
        if i < acc.len() && i != key_position(acc, k) {
            assert(u[i] == acc[i]);
        }
    }
}

proof fn lemma_parsed_value_valid(t: Seq<char>, tok: TokenKind, p: int)
    requires
        token_ok(tok),
    ensures
        parse_value(t, tok, p) matches Some((v, _)) ==> valid(v),
    decreases t.len() - p, 2int,
{
    if 0 <= p <= t.len() {
        match tok {
            TokenKind::Reserve(ReserveCode::OpenBrace) => lemma_parsed_object_valid(t, p),
            TokenKind::Reserve(ReserveCode::OpenBracket) => lemma_parsed_array_valid(t, p),
            _ => {},
        }
    }
}

proof fn lemma_parsed_object_valid(t: Seq<char>, p: int)
    ensures
        object_body(t, p) matches Some((v, _)) ==> valid(v),
    decreases t.len() - p, 1int,
{
    if 0 <= p <= t.len() {
        crate::lexer::lemma_lex_bounds(t, p);
        lemma_token_ok(t, p);
        let k = token_at(t, p);
        if k != TokenKind::Reserve(ReserveCode::CloseBrace) {
            lemma_parsed_members_valid(t, k, after_token(t, p), Seq::empty());
        }
    }
}

proof fn lemma_parsed_members_valid(
    t: Seq<char>,
    k: TokenKind,
    p: int,
    acc: Seq<(Seq<char>, JsonData)>,
)
    requires
        keys_unique(acc),
        values_valid(acc),
    ensures
        parse_members(t, k, p, acc) matches Some((v, _)) ==> valid(v),
    decreases t.len() - p, 0int,
{
    if 0 <= p <= t.len() {
        if let TokenKind::Str(key) = k {
            crate::lexer::lemma_lex_bounds(t, p);
            if token_at(t, p) == TokenKind::Reserve(ReserveCode::Colon) {
                let pos2 = after_token(t, p);
                crate::lexer::lemma_lex_bounds(t, pos2);
                lemma_token_ok(t, pos2);
                let vt = token_at(t, pos2);
                let pos3 = after_token(t, pos2);
                lemma_parsed_value_valid(t, vt, pos3);
                if let Some((v, q)) = parse_value(t, vt, pos3) {
                    if p < q && q <= t.len() {
                        crate::lexer::lemma_lex_bounds(t, q);
                        let acc2 = upsert(acc, key, v);
                        crate::value::lemma_upsert(acc, key, v);
                        lemma_upsert_valid(acc, key, v);
                        let pos5 = after_token(t, q);
                        if token_at(t, q) == TokenKind::Reserve(ReserveCode::Comma) {
                            crate::lexer::lemma_lex_bounds(t, pos5);
                            lemma_parsed_members_valid(t, token_at(t, pos5), after_token(t, pos5), acc2);
                        }
                    }
                }
            }
        }
    }
}

proof fn lemma_parsed_array_valid(t: Seq<char>, p: int)
    ensures
        array_body(t, p) matches Some((v, _)) ==> valid(v),
    decreases t.len() - p, 1int,
{
    if 0 <= p <= t.len() {
        crate::lexer::lemma_lex_bounds(t, p);
        lemma_token_ok(t, p);
        let k = token_at(t, p);
        if k != TokenKind::Reserve(ReserveCode::CloseBracket) && !(k is Undefined) {
            lemma_parsed_elements_valid(t, k, after_token(t, p), Seq::empty());
        }
    }
}

proof fn lemma_parsed_elements_valid(t: Seq<char>, k: TokenKind, p: int, acc: Seq<JsonData>)
    requires
        token_ok(k),
        forall|i: int| 0 <= i < acc.len() ==> valid(#[trigger] acc[i]),
    ensures
        parse_elements(t, k, p, acc) matches Some((v, _)) ==> valid(v),
    decreases t.len() - p, 3int,
{
    if 0 <= p <= t.len() {
        lemma_parsed_value_valid(t, k, p);
        if let Some((v, q)) = parse_value(t, k, p) {
            if p <= q && q <= t.len() {
                crate::lexer::lemma_lex_bounds(t, q);
                let acc2 = acc.push(v);
                assert forall|i: int| 0 <= i < acc2.len() implies valid(#[trigger] acc2[i]) by {
                    if i < acc.len() {
                        assert(acc2[i] == acc[i]);
                    }
                }
                let pos5 = after_token(t, q);
                if token_at(t, q) == TokenKind::Reserve(ReserveCode::Comma) {
                    crate::lexer::lemma_lex_bounds(t, pos5);
                    lemma_token_ok(t, pos5);
                    lemma_parsed_elements_valid(t, token_at(t, pos5), after_token(t, pos5), acc2);
                }
            }
        }
    }
}

/// Whatever the parser returns has unique keys in every object and only
/// normalized decimals.
pub proof fn lemma_parse_text_valid(t: Seq<char>)
    ensures
        parse_text(t) matches Some(v) ==> valid(v),
{
    lemma_token_ok(t, 0);
    lemma_parsed_value_valid(t, token_at(t, 0), after_token(t, 0));
}

/// A parsed document whose strings need no escaping, written out as compact
/// text, parses back to the same tree.
pub proof fn law_reparse(s: Seq<char>)
    requires
        parse_text(s) is Some,
        escape_free(parse_text(s)->0),
    ensures
        parse_text(ser(parse_text(s)->0)) == parse_text(s),
{
    lemma_parse_text_valid(s);
    law_round_trip(parse_text(s)->0);
}


pub open spec fn all_ws(w: Seq<char>) -> bool {
    forall|i: int| 0 <= i < w.len() ==> is_ws(#[trigger] w[i])
}

proof fn lemma_skip_run(t: Seq<char>, i: int, j: int)
    requires
        0 <= i <= j < t.len(),
        forall|k: int| i <= k < j ==> is_ws(#[trigger] t[k]),
        !is_ws(t[j]),
    ensures
        skip_ws(t, i) == j,
    decreases j - i,
{
    if i < j {
        lemma_skip_run(t, i + 1, j);
    }
}

proof fn lemma_string_cut(t: Seq<char>, i: int, n: int)
    requires
        0 <= i <= n < t.len(),
        t[n] == '\n',
        forall|k: int| i <= k < n ==> #[trigger] t[k] != '"' && t[k] != '\\' && t[k] != '\n',
    ensures
        string_close(t, i) is None,
    decreases n - i,
{
    if i < n {
        lemma_string_cut(t, i + 1, n);
    }
}

/// A string opened after an opening brace and cut by a newline before its
/// closing quote: the tokens are the brace and then `Undefined`, which ends
/// the text, and the document does not parse.
pub proof fn law_unterminated_string(
    w: Seq<char>,
    s: Seq<char>,
    rest: Seq<char>,
)
    requires
        all_ws(w),
        forall|i: int| 0 <= i < s.len() ==> #[trigger] s[i] != '"' && s[i] != '\\' && s[i] != '\n',
    ensures
        ({
            let t = seq!['{'] + w + seq!['"'] + s + seq!['\n'] + rest;
            &&& lex(t, 0) == (TokenKind::Reserve(ReserveCode::OpenBrace), 0int, 1int)
            &&& token_at(t, 1) is Undefined
            &&& after_token(t, 1) == t.len()
            &&& token_at(t, t.len() as int) is Undefined
            &&& parse_text(t) is None
        }),
{
    let t = seq!['{'] + w + seq!['"'] + s + seq!['\n'] + rest;
    let q: int = 1 + w.len() as int;
    let n: int = q + 1 + s.len() as int;
    assert(t[0] == '{');
    lemma_lex_reserve(t, 0, ReserveCode::OpenBrace);
    assert(t[q] == '"');
    assert forall|k: int| 1 <= k < q implies is_ws(#[trigger] t[k]) by {
        assert(t[k] == w[k - 1]);
    }
    lemma_skip_run(t, 1, q);
    assert(t[n] == '\n');
    assert forall|k: int| q + 1 <= k < n implies #[trigger] t[k] != '"' && t[k] != '\\' && t[k]
        != '\n' by {
        assert(t[k] == s[k - q - 1]);
    }
    lemma_string_cut(t, q + 1, n);
    assert(!is_digit(t[q]));
    assert(skip_ws(t, t.len() as int) == t.len());
}

/// A number whose exponent marker has no digit after it (and after its sign,
/// if any) scans as `Undefined`, which ends the text; a document that starts
/// with one does not parse.
pub proof fn law_exponent_without_digits(t: Seq<char>, pos: int, d: Seq<char>)
    requires
        0 <= pos,
        pos + d.len() + 1 < t.len(),
        skip_ws(t, pos) == pos,
        d.len() > 0,
        all_digits(d),
        t.subrange(pos, pos + d.len()) == d,
        t[pos + d.len()] == 'e' || t[pos + d.len()] == 'E',
        ({
            let s = pos + d.len() + 1;
            let x = if t[s] == '-' || t[s] == '+' { s + 1 } else { s };
            x == t.len() || !is_digit(t[x])
        }),
    ensures
        token_at(t, pos) is Undefined,
        after_token(t, pos) == t.len(),
        pos == 0 ==> parse_text(t) is None,
{
    let e = pos + d.len();
    assert forall|k: int| pos <= k < e implies is_digit(#[trigger] t[k]) by {
        assert(t.subrange(pos, e)[k - pos] == t[k]);
    }
    assert(t[pos] == t.subrange(pos, e)[0]);
    assert(!is_digit(t[e]));
    lemma_digits_run(t, pos, e);
    let l = number_layout(t, pos);
    assert(l.int_end == e);
    assert(!l.has_frac);
    assert(l.has_exp);
    let s = e + 1;
    let x = if t[s] == '-' || t[s] == '+' { s + 1 } else { s };
    assert(l.exp_start == x);
    assert(digits_end(t, x) == x);
    assert(!is_ws(t[pos]));
}

} // verus!
