use vstd::prelude::*;
use crate::lexer::{
    JsonLexer, ReserveCode, Token, TokenKind, TokenType, after_token, lemma_lex_bounds, token_at,
};
use crate::laws::lemma_parse_text_valid;
use crate::value::{JsonArray, JsonData, JsonNode, JsonObject, JsonValue, upsert, valid};

verus! {

/// The value whose first token is `tok`, which ends at `p`: the value and
/// the position after its last token.
pub open spec fn parse_value(t: Seq<char>, tok: TokenKind, p: int) -> Option<(JsonData, int)>
    decreases t.len() - p, 2int,
{
    if !(0 <= p <= t.len()) {
        None
    } else {
        match tok {
            TokenKind::Reserve(ReserveCode::OpenBrace) => object_body(t, p),
            TokenKind::Reserve(ReserveCode::OpenBracket) => array_body(t, p),
            TokenKind::Number(n) => Some((JsonData::Number(n), p)),
            TokenKind::Float(d) => Some((JsonData::Float(d), p)),
            TokenKind::Boolean(b) => Some((JsonData::Bool(b), p)),
            TokenKind::Str(s) => Some((JsonData::Str(s), p)),
            TokenKind::Null => Some((JsonData::Null, p)),
            _ => None,
        }
    }
}

/// The rest of an object whose opening brace ends at `p`.
pub open spec fn object_body(t: Seq<char>, p: int) -> Option<(JsonData, int)>
    decreases t.len() - p, 1int,
{
    if !(0 <= p <= t.len()) {
        None
    } else {
        proof {
            lemma_lex_bounds(t, p);
        }
        let k = token_at(t, p);
        let pos1 = after_token(t, p);
        if k == TokenKind::Reserve(ReserveCode::CloseBrace) {
            Some((JsonData::Object(Seq::empty()), pos1))
        } else {
            parse_members(t, k, pos1, Seq::empty())
        }
    }
}

/// Object members from the key token `k`, which ends at `p`, to the closing
/// brace; `acc` holds the members read so far. A repeated key takes the later
/// value.
pub open spec fn parse_members(
    t: Seq<char>,
    k: TokenKind,
    p: int,
    acc: Seq<(Seq<char>, JsonData)>,
) -> Option<(JsonData, int)>
    decreases t.len() - p, 0int,
{
    if !(0 <= p <= t.len()) {
        None
    } else {
        match k {
            TokenKind::Str(key) => {
                proof {
                    lemma_lex_bounds(t, p);
                }
                if token_at(t, p) != TokenKind::Reserve(ReserveCode::Colon) {
                    None
                } else {
                    let pos2 = after_token(t, p);
                    proof {
                        lemma_lex_bounds(t, pos2);
                    }
                    let vt = token_at(t, pos2);
                    let pos3 = after_token(t, pos2);
                    match parse_value(t, vt, pos3) {
                        Some((v, q)) => {
                            if !(p < q && q <= t.len()) {
                                None
                            } else {
                                proof {
                                    lemma_lex_bounds(t, q);
                                }
                                let acc2 = upsert(acc, key, v);
                                let sep = token_at(t, q);
                                let pos5 = after_token(t, q);
                                if sep == TokenKind::Reserve(ReserveCode::Comma) {
                                    proof {
                                        lemma_lex_bounds(t, pos5);
                                    }
                                    parse_members(t, token_at(t, pos5), after_token(t, pos5), acc2)
                                } else if sep == TokenKind::Reserve(ReserveCode::CloseBrace) {
                                    Some((JsonData::Object(acc2), pos5))
                                } else {
                                    None
                                }
                            }
                        },
                        None => None,
                    }
                }
            },
            _ => None,
        }
    }
}

/// The rest of an array whose opening bracket ends at `p`.
pub open spec fn array_body(t: Seq<char>, p: int) -> Option<(JsonData, int)>
    decreases t.len() - p, 1int,
{
    if !(0 <= p <= t.len()) {
        None
    } else {
        proof {
            lemma_lex_bounds(t, p);
        }
        let k = token_at(t, p);
        let pos1 = after_token(t, p);
        if k == TokenKind::Reserve(ReserveCode::CloseBracket) {
            Some((JsonData::Array(Seq::empty()), pos1))
        } else if k is Undefined {
            None
        } else {
            parse_elements(t, k, pos1, Seq::empty())
        }
    }
}

/// Array items from the item whose first token `k` ends at `p`, to the
/// closing bracket; `acc` holds the items read so far.
pub open spec fn parse_elements(t: Seq<char>, k: TokenKind, p: int, acc: Seq<JsonData>) -> Option<
    (JsonData, int),
>
    decreases t.len() - p, 3int,
{
    if !(0 <= p <= t.len()) {
        None
    } else {
        match parse_value(t, k, p) {
            Some((v, q)) => {
                if !(p <= q && q <= t.len()) {
                    None
                } else {
                    proof {
                        lemma_lex_bounds(t, q);
                    }
                    let acc2 = acc.push(v);
                    let sep = token_at(t, q);
                    let pos5 = after_token(t, q);
                    if sep == TokenKind::Reserve(ReserveCode::Comma) {
                        proof {
                            lemma_lex_bounds(t, pos5);
                        }
                        parse_elements(t, token_at(t, pos5), after_token(t, pos5), acc2)
                    } else if sep == TokenKind::Reserve(ReserveCode::CloseBracket) {
                        Some((JsonData::Array(acc2), pos5))
                    } else {
                        None
                    }
                }
            },
            None => None,
        }
    }
}

/// The document `t`: the value that its first token starts. What follows
/// that value is not read.
pub open spec fn parse_text(t: Seq<char>) -> Option<JsonData> {
    match parse_value(t, token_at(t, 0), after_token(t, 0)) {
        Some((v, _)) => Some(v),
        None => None,
    }
}


fn is_reserve(token: &Token, code: ReserveCode) -> (r: bool)
    ensures
        r == (token.kind() == TokenKind::Reserve(code)),
{
    match token.payload() {
        TokenType::Reserve { reserve_id } => *reserve_id == code,
        _ => false,
    }
}

fn is_undefined(token: &Token) -> (r: bool)
    ensures
        r == (token.kind() is Undefined),
{
    match token.payload() {
        TokenType::Undefined => true,
        _ => false,
    }
}

/// Parses the document held by `lexer` from its start.
pub fn parse_json(lexer: &mut JsonLexer) -> (r: Option<JsonNode>)
    ensures
        final(lexer).text() == old(lexer).text(),
        match parse_text(old(lexer).text()) {
            Some(v) => r matches Some(n) && n@ == v,
            None => r is None,
        },
        r matches Some(n) ==> valid(n@),
{
    proof {
        lemma_parse_text_valid(old(lexer).text());
    }
    let mut token = Token::default();
    lexer.reset();
    lexer.next_token(&mut token);
    proof {
        lemma_lex_bounds(lexer.text(), 0);
    }
    parse_node(lexer, &mut token)
}

/// Parses the value whose first token is `token`, which the lexer has just
/// passed; the lexer is left after the value's last token.
fn parse_node(lexer: &mut JsonLexer, token: &mut Token) -> (r: Option<JsonNode>)
    requires
        0 <= old(lexer).cursor() <= old(lexer).text().len(),
    ensures
        final(lexer).text() == old(lexer).text(),
        old(lexer).cursor() <= final(lexer).cursor() <= old(lexer).text().len(),
        match parse_value(old(lexer).text(), old(token).kind(), old(lexer).cursor()) {
            Some((v, q)) => r matches Some(n) && n@ == v && final(lexer).cursor() == q,
            None => r is None,
        },
    decreases old(lexer).text().len() - old(lexer).cursor(), 2int,
{
    match token.get_type() {
        TokenType::Reserve { reserve_id: ReserveCode::OpenBrace } => parse_object(lexer, token),
        TokenType::Reserve { reserve_id: ReserveCode::OpenBracket } => parse_array(lexer, token),
        TokenType::Number { value } => Some(JsonNode::Number(JsonValue::new(value))),
        TokenType::Float { value } => Some(JsonNode::Float(JsonValue::new(value))),
        TokenType::Boolean { value } => Some(JsonNode::Bool(JsonValue::new(value))),
        TokenType::String { value } => Some(JsonNode::String(JsonValue::new(value))),
        TokenType::Null => Some(JsonNode::Null),
        _ => None,
    }
}

/// Parses the rest of an object; the lexer has just passed its opening brace.
fn parse_object(lexer: &mut JsonLexer, token: &mut Token) -> (r: Option<JsonNode>)
    requires
        0 <= old(lexer).cursor() <= old(lexer).text().len(),
    ensures
        final(lexer).text() == old(lexer).text(),
        old(lexer).cursor() <= final(lexer).cursor() <= old(lexer).text().len(),
        match object_body(old(lexer).text(), old(lexer).cursor()) {
            Some((v, q)) => r matches Some(n) && n@ == v && final(lexer).cursor() == q,
            None => r is None,
        },
    decreases old(lexer).text().len() - old(lexer).cursor(), 1int,
{
    let ghost t = lexer.text();
    let ghost pos0 = lexer.cursor();
    proof {
        lemma_lex_bounds(t, pos0);
    }
    lexer.next_token(token);
    let mut obj = JsonObject::new();
    if is_reserve(token, ReserveCode::CloseBrace) {
        return Some(JsonNode::Object(obj));
    }
    loop
        invariant
            t == old(lexer).text(),
            pos0 == old(lexer).cursor(),
            lexer.text() == t,
            0 <= pos0 <= lexer.cursor() <= t.len(),
            object_body(t, pos0) == parse_members(t, token.kind(), lexer.cursor(), obj@),
        decreases t.len() - lexer.cursor(),
    {
        let ghost p = lexer.cursor();
        let ghost acc = obj@;
        let key = match token.get_type() {
            TokenType::String { value } => value,
            _ => {
                return None;
            },
        };
        proof {
            lemma_lex_bounds(t, p);
        }
        lexer.next_token(token);
        if !is_reserve(token, ReserveCode::Colon) {
            return None;
        }
        let ghost pos2 = lexer.cursor();
        proof {
            lemma_lex_bounds(t, pos2);
        }
        lexer.next_token(token);
        let node = match parse_node(lexer, token) {
            Some(node) => node,
            None => {
                return None;
            },
        };
        let ghost q = lexer.cursor();
        obj.add(key.as_str(), node);
        proof {
            lemma_lex_bounds(t, q);
            assert(obj@ == upsert(acc, key@, node@));
        }
        lexer.next_token(token);
        if is_reserve(token, ReserveCode::Comma) {
            let ghost pos5 = lexer.cursor();
            proof {
                lemma_lex_bounds(t, pos5);
            }
            lexer.next_token(token);
        } else if is_reserve(token, ReserveCode::CloseBrace) {
            return Some(JsonNode::Object(obj));
        } else {
            return None;
        }
    }
}

/// Parses the rest of an array; the lexer has just passed its opening
/// bracket.
fn parse_array(lexer: &mut JsonLexer, token: &mut Token) -> (r: Option<JsonNode>)
    requires
        0 <= old(lexer).cursor() <= old(lexer).text().len(),
    ensures
        final(lexer).text() == old(lexer).text(),
        old(lexer).cursor() <= final(lexer).cursor() <= old(lexer).text().len(),
        match array_body(old(lexer).text(), old(lexer).cursor()) {
            Some((v, q)) => r matches Some(n) && n@ == v && final(lexer).cursor() == q,
            None => r is None,
        },
    decreases old(lexer).text().len() - old(lexer).cursor(), 1int,
{
    let ghost t = lexer.text();
    let ghost pos0 = lexer.cursor();
    proof {
        lemma_lex_bounds(t, pos0);
    }
    lexer.next_token(token);
    let mut array = JsonArray::new();
    if is_reserve(token, ReserveCode::CloseBracket) {
        return Some(JsonNode::Array(array));
    }
    if is_undefined(token) {
        return None;
    }
    loop
        invariant
            t == old(lexer).text(),
            pos0 == old(lexer).cursor(),
            lexer.text() == t,
            0 <= pos0 < lexer.cursor() <= t.len(),
            array_body(t, pos0) == parse_elements(t, token.kind(), lexer.cursor(), array@),
        decreases t.len() - lexer.cursor(),
    {
        let ghost p = lexer.cursor();
        let node = match parse_node(lexer, token) {
            Some(node) => node,
            None => {
                return None;
            },
        };
        let ghost q = lexer.cursor();
        array.add(node);
        proof {
            lemma_lex_bounds(t, q);
        }
        lexer.next_token(token);
        if is_reserve(token, ReserveCode::Comma) {
            let ghost pos5 = lexer.cursor();
            proof {
                lemma_lex_bounds(t, pos5);
            }
            lexer.next_token(token);
            if is_undefined(token) {
                return None;
            }
        } else if is_reserve(token, ReserveCode::CloseBracket) {
            return Some(JsonNode::Array(array));
        } else {
            return None;
        }
    }
}

} // verus!
