use vstd::prelude::*;
use crate::chars::{chars_of, copy_range, string_from_chars};
use crate::numeric::{
    Decimal, I64_MAGNITUDE, accumulate_digits, all_digits, decode_decimal, decode_integer,
    digits_value, extend_value, is_digit, lemma_extend_concat, lemma_value_of_zero_extension,
    trim_zeros,
};

verus! {

/// The structural punctuation of JSON.
#[derive(Debug, Clone, Copy, PartialEq, Eq, Structural)]
pub enum ReserveCode {
    OpenBrace,
    CloseBrace,
    OpenBracket,
    CloseBracket,
    Colon,
    Comma,
    Undefined,
}

impl Default for ReserveCode {
    fn default() -> (r: Self)
        ensures
            r == ReserveCode::Undefined,
    {
        ReserveCode::Undefined
    }
}

/// What a token carries.
#[allow(inconsistent_fields)]
#[derive(Debug, Clone, PartialEq)]
pub enum TokenType {
    Reserve { reserve_id: ReserveCode },
    Number { value: i64 },
    Float { value: Decimal },
    Boolean { value: bool },
    String { value: String },
    Null,
    /// End of input, or a scan failure.
    Undefined,
}

/// A token's payload as a mathematical value.
pub enum TokenKind {
    Reserve(ReserveCode),
    Number(i64),
    Float(Decimal),
    Boolean(bool),
    Str(Seq<char>),
    Null,
    Undefined,
}

impl View for TokenType {
    type V = TokenKind;

    open spec fn view(&self) -> TokenKind {
        match self {
            TokenType::Reserve { reserve_id } => TokenKind::Reserve(*reserve_id),
            TokenType::Number { value } => TokenKind::Number(*value),
            TokenType::Float { value } => TokenKind::Float(*value),
            TokenType::Boolean { value } => TokenKind::Boolean(*value),
            TokenType::String { value } => TokenKind::Str(value@),
            TokenType::Null => TokenKind::Null,
            TokenType::Undefined => TokenKind::Undefined,
        }
    }
}

impl Default for TokenType {
    fn default() -> (r: Self)
        ensures
            r@ == TokenKind::Undefined,
    {
        TokenType::Undefined
    }
}

impl TokenType {
    /// A copy of this payload.
    pub fn duplicate(&self) -> (r: TokenType)
        ensures
            r@ == self@,
    {
        match self {
            TokenType::Reserve { reserve_id } => TokenType::Reserve { reserve_id: *reserve_id },
            TokenType::Number { value } => TokenType::Number { value: *value },
            TokenType::Float { value } => TokenType::Float { value: *value },
            TokenType::Boolean { value } => TokenType::Boolean { value: *value },
            TokenType::String { value } => TokenType::String { value: value.clone() },
            TokenType::Null => TokenType::Null,
            TokenType::Undefined => TokenType::Undefined,
        }
    }
}

/// A token: where it starts and ends in the text (in characters, the end
/// exclusive) and what it carries.
#[derive(Debug)]
pub struct Token {
    lex_start: usize,
    lex_end: usize,
    token_type: TokenType,
}

impl Default for Token {
    fn default() -> (r: Self)
        ensures
            r.kind() == TokenKind::Undefined,
            r.start() == 0,
            r.end() == 0,
    {
        Token { lex_start: 0, lex_end: 0, token_type: TokenType::Undefined }
    }
}

impl Token {
    pub closed spec fn kind(&self) -> TokenKind {
        self.token_type@
    }

    pub closed spec fn start(&self) -> int {
        self.lex_start as int
    }

    pub closed spec fn end(&self) -> int {
        self.lex_end as int
    }

    pub fn get_type(&self) -> (r: TokenType)
        ensures
            r@ == self.kind(),
    {
        self.token_type.duplicate()
    }

    /// Borrows the payload.
    pub fn payload(&self) -> (r: &TokenType)
        ensures
            r@ == self.kind(),
    {
        &self.token_type
    }
}

// ----- The scanner, as mathematics -----

/// ASCII whitespace, as `u8::is_ascii_whitespace` has it.
pub open spec fn is_ws(c: char) -> bool {
    c == ' ' || c == '\t' || c == '\n' || c == '\x0C' || c == '\r'
}

/// The first position at or after `i` that holds no whitespace.
pub open spec fn skip_ws(t: Seq<char>, i: int) -> int
    decreases t.len() - i,
{
    if 0 <= i < t.len() && is_ws(t[i]) {
        skip_ws(t, i + 1)
    } else {
        i
    }
}

/// The first position at or after `i` that holds no digit.
pub open spec fn digits_end(t: Seq<char>, i: int) -> int
    decreases t.len() - i,
{
    if 0 <= i < t.len() && is_digit(t[i]) {
        digits_end(t, i + 1)
    } else {
        i
    }
}

/// The layout of a number that starts at `p`: `[-]digits[.digits][(e|E)[+|-]digits]`.
pub struct NumberLayout {
    pub neg: bool,
    /// Integer digits are `[int_start, int_end)`.
    pub int_start: int,
    pub int_end: int,
    pub has_frac: bool,
    /// Fraction digits are `[frac_start, frac_end)`; empty without a fraction.
    pub frac_start: int,
    pub frac_end: int,
    pub has_exp: bool,
    pub exp_neg: bool,
    /// Exponent digits are `[exp_start, exp_end)`; the number ends at `exp_end`.
    pub exp_start: int,
    pub exp_end: int,
}

pub open spec fn number_layout(t: Seq<char>, p: int) -> NumberLayout {
    let neg = t[p] == '-';
    let a = if neg {
        p + 1
    } else {
        p
    };
    let b = digits_end(t, a);
    let has_frac = b < t.len() && t[b] == '.';
    let fs = if has_frac {
        b + 1
    } else {
        b
    };
    let c = if has_frac {
        digits_end(t, b + 1)
    } else {
        b
    };
    let has_exp = c < t.len() && (t[c] == 'e' || t[c] == 'E');
    let signed = has_exp && c + 1 < t.len() && (t[c + 1] == '-' || t[c + 1] == '+');
    let xs = if !has_exp {
        c
    } else if signed {
        c + 2
    } else {
        c + 1
    };
    let xe = if has_exp {
        digits_end(t, xs)
    } else {
        c
    };
    NumberLayout {
        neg,
        int_start: a,
        int_end: b,
        has_frac,
        frac_start: fs,
        frac_end: c,
        has_exp,
        exp_neg: signed && t[c + 1] == '-',
        exp_start: xs,
        exp_end: xe,
    }
}

/// Scans the number that starts at `p`: the token and the position after it,
/// or `None` when it is malformed or does not fit its type.
pub open spec fn scan_number(t: Seq<char>, p: int) -> Option<(TokenKind, int)> {
    let l = number_layout(t, p);
    if l.int_end == l.int_start || (l.has_frac && l.frac_end == l.frac_start) || (l.has_exp
        && l.exp_end == l.exp_start) {
        None
    } else if !l.has_frac && !l.has_exp {
        match decode_integer(l.neg, t.subrange(l.int_start, l.int_end)) {
            Some(n) => Some((TokenKind::Number(n), l.int_end)),
            None => None,
        }
    } else {
        match decode_decimal(
            l.neg,
            t.subrange(l.int_start, l.int_end),
            t.subrange(l.frac_start, l.frac_end),
            l.exp_neg,
            t.subrange(l.exp_start, l.exp_end),
        ) {
            Some(d) => Some((TokenKind::Float(d), l.exp_end)),
            None => None,
        }
    }
}

/// The position of the quote that closes a string whose contents start at
/// `i`. A backslash takes the next character with it; a newline or the end of
/// the text before the closing quote leaves the string unterminated.
pub open spec fn string_close(t: Seq<char>, i: int) -> Option<int>
    decreases t.len() - i,
{
    if i < 0 || i >= t.len() {
        None
    } else if t[i] == '"' {
        Some(i)
    } else if t[i] == '\n' {
        None
    } else if t[i] == '\\' {
        if i + 1 < t.len() {
            string_close(t, i + 2)
        } else {
            None
        }
    } else {
        string_close(t, i + 1)
    }
}

pub open spec fn word_at(t: Seq<char>, i: int, w: Seq<char>) -> bool {
    0 <= i && i + w.len() <= t.len() && t.subrange(i, i + w.len()) == w
}

pub open spec fn true_word() -> Seq<char> {
    seq!['t', 'r', 'u', 'e']
}

pub open spec fn false_word() -> Seq<char> {
    seq!['f', 'a', 'l', 's', 'e']
}

pub open spec fn null_word() -> Seq<char> {
    seq!['n', 'u', 'l', 'l']
}

pub open spec fn reserve_of(c: char) -> Option<ReserveCode> {
    if c == '{' {
        Some(ReserveCode::OpenBrace)
    } else if c == '}' {
        Some(ReserveCode::CloseBrace)
    } else if c == '[' {
        Some(ReserveCode::OpenBracket)
    } else if c == ']' {
        Some(ReserveCode::CloseBracket)
    } else if c == ':' {
        Some(ReserveCode::Colon)
    } else if c == ',' {
        Some(ReserveCode::Comma)
    } else {
        None
    }
}

/// Scans the token that starts at `i` (which holds no whitespace).
pub open spec fn scan_token(t: Seq<char>, i: int) -> Option<(TokenKind, int)> {
    let c = t[i];
    if is_digit(c) || c == '-' {
        scan_number(t, i)
    } else if c == '"' {
        match string_close(t, i + 1) {
            Some(q) => Some((TokenKind::Str(t.subrange(i + 1, q)), q + 1)),
            None => None,
        }
    } else if word_at(t, i, true_word()) {
        Some((TokenKind::Boolean(true), i + 4))
    } else if word_at(t, i, false_word()) {
        Some((TokenKind::Boolean(false), i + 5))
    } else if word_at(t, i, null_word()) {
        Some((TokenKind::Null, i + 4))
    } else {
        match reserve_of(c) {
            Some(r) => Some((TokenKind::Reserve(r), i + 1)),
            None => None,
        }
    }
}

/// The token after position `pos`: its payload, start and end. At the end
/// of the text, and on a scan failure, the token is `Undefined` and ends at
/// the end of the text, so that nothing follows it.
pub open spec fn lex(t: Seq<char>, pos: int) -> (TokenKind, int, int) {
    let i = skip_ws(t, pos);
    if i >= t.len() {
        (TokenKind::Undefined, i, t.len() as int)
    } else {
        match scan_token(t, i) {
            Some((k, e)) => (k, i, e),
            None => (TokenKind::Undefined, i, t.len() as int),
        }
    }
}

/// The payload of the token after `pos`.
pub open spec fn token_at(t: Seq<char>, pos: int) -> TokenKind {
    lex(t, pos).0
}

/// The position after the token that follows `pos`.
pub open spec fn after_token(t: Seq<char>, pos: int) -> int {
    lex(t, pos).2
}


// ----- Facts about the scanner -----

pub proof fn lemma_skip_ws(t: Seq<char>, i: int)
    ensures
        skip_ws(t, i) >= i,
        0 <= i <= t.len() ==> skip_ws(t, i) <= t.len(),
        0 <= i ==> (skip_ws(t, i) < t.len() ==> !is_ws(t[skip_ws(t, i)])),
    decreases t.len() - i,
{
    if 0 <= i < t.len() && is_ws(t[i]) {
        lemma_skip_ws(t, i + 1);
    }
}

pub proof fn lemma_digits_end(t: Seq<char>, i: int)
    requires
        0 <= i <= t.len(),
    ensures
        i <= digits_end(t, i) <= t.len(),
        all_digits(t.subrange(i, digits_end(t, i))),
        digits_end(t, i) < t.len() ==> !is_digit(t[digits_end(t, i)]),
    decreases t.len() - i,
{
    if i < t.len() && is_digit(t[i]) {
        lemma_digits_end(t, i + 1);
        let e = digits_end(t, i);
        assert forall|k: int| 0 <= k < e - i implies is_digit(#[trigger] t.subrange(i, e)[k]) by {
            if k > 0 {
                assert(t.subrange(i, e)[k] == t.subrange(i + 1, e)[k - 1]);
            }
        }
    }
}

pub proof fn lemma_string_close(t: Seq<char>, i: int)
    requires
        0 <= i,
    ensures
        string_close(t, i) matches Some(q) ==> i <= q < t.len() && t[q] == '"',
    decreases t.len() - i,
{
    if 0 <= i < t.len() && t[i] != '"' && t[i] != '\n' {
        if t[i] == '\\' {
            if i + 1 < t.len() {
                lemma_string_close(t, i + 2);
            }
        } else {
            lemma_string_close(t, i + 1);
        }
    }
}

pub proof fn lemma_scan_number_bounds(t: Seq<char>, p: int)
    requires
        0 <= p < t.len(),
    ensures
        scan_number(t, p) matches Some((k, e)) ==> p < e <= t.len() && !(k is Undefined),
{
    let l = number_layout(t, p);
    lemma_digits_end(t, l.int_start);
    if l.has_frac {
        lemma_digits_end(t, l.frac_start);
    }
    if l.has_exp {
        lemma_digits_end(t, l.exp_start);
    }
}

/// A token other than `Undefined` starts at or after `pos` and is not empty;
/// the cursor never moves back and never passes the end of the text.
pub proof fn lemma_lex_bounds(t: Seq<char>, pos: int)
    requires
        0 <= pos,
    ensures
        pos <= lex(t, pos).1,
        lex(t, pos).2 <= t.len(),
        pos <= t.len() ==> lex(t, pos).1 <= lex(t, pos).2,
        pos <= t.len() ==> pos <= lex(t, pos).2,
        !(lex(t, pos).0 is Undefined) ==> lex(t, pos).1 < lex(t, pos).2 && pos < lex(t, pos).2,
{
    lemma_skip_ws(t, pos);
    let i = skip_ws(t, pos);
    if i < t.len() {
        let c = t[i];
        if is_digit(c) || c == '-' {
            lemma_scan_number_bounds(t, i);
        } else if c == '"' {
            lemma_string_close(t, i + 1);
        }
    }
}

pub proof fn lemma_trim_split(x: Seq<char>, y: Seq<char>)
    requires
        forall|i: int| 0 <= i < y.len() ==> #[trigger] y[i] == '0',
        x.len() == 0 || x.last() != '0',
    ensures
        trim_zeros(x + y) == x,
    decreases y.len(),
{
    if y.len() == 0 {
        assert(x + y =~= x);
    } else {
        let y0 = y.drop_last();
        assert((x + y).drop_last() =~= x + y0);
        assert((x + y).last() == '0');
        lemma_trim_split(x, y0);
    }
}

// ----- The scanner -----

/// Holds the text being tokenized and a cursor into it.
pub struct JsonLexer {
    json_text: Vec<char>,
    index: usize,
}

fn is_eof(index: usize, size: usize) -> (r: bool)
    ensures
        r == (index >= size),
{
    index >= size
}

fn is_ws_char(c: char) -> (r: bool)
    ensures
        r == is_ws(c),
{
    c == ' ' || c == '\t' || c == '\n' || c == '\x0C' || c == '\r'
}

fn is_digit_char(c: char) -> (r: bool)
    ensures
        r == is_digit(c),
{
    '0' <= c && c <= '9'
}

fn is_str_start(c: char) -> (r: bool)
    ensures
        r == (c == '"'),
{
    c == '"'
}

fn skip_whitespace(json: &Vec<char>, index: &mut usize)
    ensures
        *final(index) == skip_ws(json@, *old(index) as int),
{
    let size = json.len();
    while !is_eof(*index, size) && is_ws_char(json[*index])
        invariant
            size == json@.len(),
            skip_ws(json@, *index as int) == skip_ws(json@, *old(index) as int),
        decreases size - *index,
    {
        *index = *index + 1;
    }
}

/// Moves `index` past a run of digits.
fn get_integer_num(json: &Vec<char>, index: &mut usize)
    ensures
        *final(index) == digits_end(json@, *old(index) as int),
{
    let size = json.len();
    while !is_eof(*index, size) && is_digit_char(json[*index])
        invariant
            size == json@.len(),
            digits_end(json@, *index as int) == digits_end(json@, *old(index) as int),
        decreases size - *index,
    {
        *index = *index + 1;
    }
}

/// The position after the last nonzero digit of `json[from..to]`, or `from`
/// when there is none.
fn last_nonzero(json: &Vec<char>, from: usize, to: usize) -> (k: usize)
    requires
        from <= to <= json@.len(),
    ensures
        from <= k <= to,
        forall|i: int| k <= i < to ==> #[trigger] json@[i] == '0',
        k > from ==> json@[k - 1] != '0',
{
    let mut k = to;
    while k > from && json[k - 1] == '0'
        invariant
            from <= k <= to <= json@.len(),
            forall|i: int| k <= i < to ==> #[trigger] json@[i] == '0',
        decreases k,
    {
        k = k - 1;
    }
    k
}

/// Decodes the decimal whose digits lie at the given ranges of `json`.
fn decode_decimal_at(
    json: &Vec<char>,
    neg: bool,
    a: usize,
    b: usize,
    fs: usize,
    c: usize,
    exp_neg: bool,
    xs: usize,
    xe: usize,
) -> (r: Option<Decimal>)
    requires
        a <= b <= fs <= c <= json@.len(),
        xs <= xe <= json@.len(),
        all_digits(json@.subrange(a as int, b as int)),
        all_digits(json@.subrange(fs as int, c as int)),
        all_digits(json@.subrange(xs as int, xe as int)),
    ensures
        r == decode_decimal(
            neg,
            json@.subrange(a as int, b as int),
            json@.subrange(fs as int, c as int),
            exp_neg,
            json@.subrange(xs as int, xe as int),
        ),
{
    let ghost t = json@;
    let ghost int_d = t.subrange(a as int, b as int);
    let ghost frac_d = t.subrange(fs as int, c as int);
    let ghost d = int_d + frac_d;
    let kf = last_nonzero(json, fs, c);
    let mut mag: u128;
    let zeros: usize;
    if kf > fs {
        // The last nonzero digit is in the fraction.
        let ghost x = int_d + t.subrange(fs as int, kf as int);
        proof {
            let y = t.subrange(kf as int, c as int);
            assert(d =~= x + y);
            assert(x.last() == t[kf - 1]);
            lemma_trim_split(x, y);
            assert(all_digits(t.subrange(fs as int, kf as int))) by {
                assert forall|i: int| 0 <= i < kf - fs implies is_digit(
                    #[trigger] t.subrange(fs as int, kf as int)[i],
                ) by {
                    assert(t.subrange(fs as int, kf as int)[i] == frac_d[i]);
                }
            }
            lemma_extend_concat(0, int_d, t.subrange(fs as int, kf as int));
            lemma_value_of_zero_extension(x);
            lemma_value_of_zero_extension(int_d);
        }
        match accumulate_digits(json, a, b, 0, I64_MAGNITUDE) {
            Some(v) => {
                match accumulate_digits(json, fs, kf, v, I64_MAGNITUDE) {
                    Some(w) => {
                        mag = w;
                    },
                    None => {
                        return None;
                    },
                }
            },
            None => {
                proof {
                    crate::numeric::lemma_extend_grows(
                        extend_value(0, int_d),
                        t.subrange(fs as int, kf as int),
                    );
                }
                return None;
            },
        }
        zeros = c - kf;
        proof {
            assert(mag == digits_value(trim_zeros(d)));
        }
    } else {
        let ki = last_nonzero(json, a, b);
        let ghost x = t.subrange(a as int, ki as int);
        proof {
            let y = t.subrange(ki as int, b as int) + frac_d;
            assert(d =~= x + y);
            if ki > a {
                assert(x.last() == t[ki - 1]);
            }
            assert forall|i: int| 0 <= i < y.len() implies #[trigger] y[i] == '0' by {
                if i < b - ki {
                    assert(y[i] == t[ki + i]);
                } else {
                    assert(y[i] == t[fs + (i - (b - ki))]);
                }
            }
            lemma_trim_split(x, y);
            assert(all_digits(x)) by {
                assert forall|i: int| 0 <= i < x.len() implies is_digit(#[trigger] x[i]) by {
                    assert(x[i] == int_d[i]);
                }
            }
            lemma_value_of_zero_extension(x);
        }
        if ki == a {
            return Some(Decimal { mantissa: 0, exponent: 0 });
        }
        match accumulate_digits(json, a, ki, 0, I64_MAGNITUDE) {
            Some(v) => {
                mag = v;
            },
            None => {
                return None;
            },
        }
        zeros = (b - ki) + (c - fs);
    }
    proof {
        assert(trim_zeros(d).len() > 0);
        assert(zeros == d.len() - trim_zeros(d).len());
    }
    // The exponent: beyond this cap no adjustment by a text length can bring
    // it back into range.
    let cap: u128 = 0x4_0000_0000_0000_0000;
    let xv = match accumulate_digits(json, xs, xe, 0, cap) {
        Some(v) => v,
        None => {
            proof {
                lemma_value_of_zero_extension(t.subrange(xs as int, xe as int));
            }
            return None;
        },
    };
    proof {
        lemma_value_of_zero_extension(t.subrange(xs as int, xe as int));
    }
    let sx: i128 = if exp_neg {
        -(xv as i128)
    } else {
        xv as i128
    };
    let e: i128 = sx - ((c - fs) as i128) + (zeros as i128);
    if e < i64::MIN as i128 || e > i64::MAX as i128 {
        return None;
    }
    if neg {
        let m: i128 = -(mag as i128);
        Some(Decimal { mantissa: m as i64, exponent: e as i64 })
    } else {
        if mag > i64::MAX as u128 {
            return None;
        }
        Some(Decimal { mantissa: mag as i64, exponent: e as i64 })
    }
}

/// Scans the number at `*index`, moving `index` past it.
fn load_number(json: &Vec<char>, index: &mut usize) -> (r: Option<TokenType>)
    requires
        *old(index) < json@.len(),
        is_digit(json@[*old(index) as int]) || json@[*old(index) as int] == '-',
    ensures
        match scan_number(json@, *old(index) as int) {
            Some((k, e)) => r matches Some(tt) && tt@ == k && *final(index) == e,
            None => r is None,
        },
{
    let ghost t = json@;
    let ghost l = number_layout(t, *index as int);
    let len = json.len();
    let p = *index;
    let neg = json[p] == '-';
    let a = if neg {
        p + 1
    } else {
        p
    };
    let mut b = a;
    get_integer_num(json, &mut b);
    proof {
        lemma_digits_end(t, a as int);
    }
    let has_frac = b < len && json[b] == '.';
    let fs = if has_frac {
        b + 1
    } else {
        b
    };
    let mut c = fs;
    if has_frac {
        get_integer_num(json, &mut c);
    }
    proof {
        lemma_digits_end(t, fs as int);
    }
    let has_exp = c < len && (json[c] == 'e' || json[c] == 'E');
    let signed = has_exp && c + 1 < len && (json[c + 1] == '-' || json[c + 1] == '+');
    let exp_neg = signed && json[c + 1] == '-';
    let xs = if !has_exp {
        c
    } else if signed {
        c + 2
    } else {
        c + 1
    };
    let mut xe = xs;
    if has_exp {
        get_integer_num(json, &mut xe);
    }
    proof {
        lemma_digits_end(t, xs as int);
        assert(l.int_start == a && l.int_end == b && l.has_frac == has_frac);
        assert(l.frac_start == fs && l.frac_end == c && l.has_exp == has_exp);
        assert(l.exp_start == xs && l.exp_end == xe && l.exp_neg == exp_neg);
        if !has_frac {
            assert(t.subrange(fs as int, c as int) =~= Seq::<char>::empty());
        }
        if !has_exp {
            assert(t.subrange(xs as int, xe as int) =~= Seq::<char>::empty());
        }
    }
    if b == a || (has_frac && c == fs) || (has_exp && xe == xs) {
        return None;
    }
    if !has_frac && !has_exp {
        let v = match accumulate_digits(json, a, b, 0, I64_MAGNITUDE) {
            Some(v) => v,
            None => {
                proof {
                    lemma_value_of_zero_extension(t.subrange(a as int, b as int));
                }
                return None;
            },
        };
        proof {
            lemma_value_of_zero_extension(t.subrange(a as int, b as int));
        }
        let value: i64 = if neg {
            (-(v as i128)) as i64
        } else {
            if v > i64::MAX as u128 {
                return None;
            }
            v as i64
        };
        *index = b;
        Some(TokenType::Number { value })
    } else {
        match decode_decimal_at(json, neg, a, b, fs, c, exp_neg, xs, xe) {
            Some(d) => {
                *index = xe;
                Some(TokenType::Float { value: d })
            },
            None => None,
        }
    }
}


/// Scans the string whose opening quote is at `p`; on success, the contents
/// and the position after the closing quote.
fn load_string(json: &Vec<char>, p: usize) -> (r: Option<(TokenType, usize)>)
    requires
        p < json@.len(),
        json@[p as int] == '"',
    ensures
        match string_close(json@, p + 1) {
            Some(q) => r matches Some((tt, e)) && tt@ == TokenKind::Str(
                json@.subrange(p + 1, q),
            ) && e == q + 1,
            None => r is None,
        },
{
    let size = json.len();
    let mut i = p + 1;
    loop
        invariant
            p + 1 <= i,
            size == json@.len(),
            string_close(json@, i as int) == string_close(json@, p + 1),
        decreases size - i,
    {
        if is_eof(i, size) {
            return None;
        }
        let ch = json[i];
        if is_str_start(ch) {
            proof {
                lemma_string_close(json@, p + 1);
            }
            let contents = copy_range(json, p + 1, i);
            let value = string_from_chars(&contents);
            return Some((TokenType::String { value }, i + 1));
        }
        if ch == '\n' {
            return None;
        }
        if ch == '\\' {
            if i + 1 >= size {
                return None;
            }
            i = i + 2;
        } else {
            i = i + 1;
        }
    }
}

/// Whether `word` stands in `json` at `i`.
fn word_at_exec(json: &Vec<char>, i: usize, word: &Vec<char>) -> (r: bool)
    ensures
        r == word_at(json@, i as int, word@),
{
    if i > json.len() || word.len() > json.len() - i {
        return false;
    }
    let mut k: usize = 0;
    while k < word.len()
        invariant
            i + word@.len() <= json@.len(),
            json@.len() == json.len(),
            k <= word@.len(),
            forall|j: int| 0 <= j < k ==> json@[i + j] == word@[j],
        decreases word@.len() - k,
    {
        if json[i + k] != word[k] {
            proof {
                assert(json@.subrange(i as int, i + word@.len())[k as int] != word@[k as int]);
            }
            return false;
        }
        k = k + 1;
    }
    proof {
        assert(json@.subrange(i as int, i + word@.len()) =~= word@);
    }
    true
}

/// Scans `true`, `false` or `null` at `i`.
fn load_literal(json: &Vec<char>, i: usize) -> (r: Option<(TokenType, usize)>)
    ensures
        if word_at(json@, i as int, true_word()) {
            r matches Some((tt, e)) && tt@ == TokenKind::Boolean(true) && e == i + 4
        } else if word_at(json@, i as int, false_word()) {
            r matches Some((tt, e)) && tt@ == TokenKind::Boolean(false) && e == i + 5
        } else if word_at(json@, i as int, null_word()) {
            r matches Some((tt, e)) && tt@ == TokenKind::Null && e == i + 4
        } else {
            r is None
        },
{
    let _size = json.len();
    let t = vec!['t', 'r', 'u', 'e'];
    let f = vec!['f', 'a', 'l', 's', 'e'];
    let n = vec!['n', 'u', 'l', 'l'];
    proof {
        assert(t@ == true_word());
        assert(f@ == false_word());
        assert(n@ == null_word());
    }
    if word_at_exec(json, i, &t) {
        Some((TokenType::Boolean { value: true }, i + 4))
    } else if word_at_exec(json, i, &f) {
        Some((TokenType::Boolean { value: false }, i + 5))
    } else if word_at_exec(json, i, &n) {
        Some((TokenType::Null, i + 4))
    } else {
        None
    }
}

fn load_reserve(c: char) -> (r: Option<ReserveCode>)
    ensures
        r == reserve_of(c),
{
    match c {
        '{' => Some(ReserveCode::OpenBrace),
        '}' => Some(ReserveCode::CloseBrace),
        '[' => Some(ReserveCode::OpenBracket),
        ']' => Some(ReserveCode::CloseBracket),
        ':' => Some(ReserveCode::Colon),
        ',' => Some(ReserveCode::Comma),
        _ => None,
    }
}

/// Scans the token at `i`, which holds no whitespace.
fn scan_token_exec(json: &Vec<char>, i: usize) -> (r: Option<(TokenType, usize)>)
    requires
        i < json@.len(),
    ensures
        match scan_token(json@, i as int) {
            Some((k, e)) => r matches Some((tt, e2)) && tt@ == k && e2 == e,
            None => r is None,
        },
{
    let _size = json.len();
    let c = json[i];
    if is_digit_char(c) || c == '-' {
        let mut index = i;
        match load_number(json, &mut index) {
            Some(tt) => Some((tt, index)),
            None => None,
        }
    } else if is_str_start(c) {
        load_string(json, i)
    } else {
        match load_literal(json, i) {
            Some(found) => Some(found),
            None => match load_reserve(c) {
                Some(code) => Some((TokenType::Reserve { reserve_id: code }, i + 1)),
                None => None,
            },
        }
    }
}

impl JsonLexer {
    pub closed spec fn text(&self) -> Seq<char> {
        self.json_text@
    }

    pub closed spec fn cursor(&self) -> int {
        self.index as int
    }

    /// A lexer over `raw_json`, its cursor at the start.
    pub fn from_raw_json(raw_json: &str) -> (r: Option<JsonLexer>)
        ensures
            r matches Some(l) && l.text() == raw_json@ && l.cursor() == 0,
    {
        Some(JsonLexer { json_text: chars_of(raw_json), index: 0 })
    }

    /// Moves the cursor back to the start of the text.
    pub fn reset(&mut self)
        ensures
            final(self).text() == old(self).text(),
            final(self).cursor() == 0,
    {
        self.index = 0;
    }

    /// Advances past the next token and reports it in `token`.
    pub fn next_token(&mut self, token: &mut Token)
        ensures
            final(self).text() == old(self).text(),
            final(token).kind() == lex(old(self).text(), old(self).cursor()).0,
            final(token).start() == lex(old(self).text(), old(self).cursor()).1,
            final(token).end() == lex(old(self).text(), old(self).cursor()).2,
            final(self).cursor() == lex(old(self).text(), old(self).cursor()).2,
    {
        let size = self.json_text.len();
        let mut i = self.index;
        skip_whitespace(&self.json_text, &mut i);
        proof {
            lemma_skip_ws(self.json_text@, self.index as int);
        }
        if is_eof(i, size) {
            self.index = size;
            *token = Token { lex_start: i, lex_end: size, token_type: TokenType::Undefined };
            return ;
        }
        match scan_token_exec(&self.json_text, i) {
            Some((token_type, end)) => {
                self.index = end;
                *token = Token { lex_start: i, lex_end: end, token_type };
            },
            None => {
                self.index = size;
                *token = Token { lex_start: i, lex_end: size, token_type: TokenType::Undefined };
            },
        }
    }
}

} // verus!
