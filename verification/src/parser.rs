//! The parser: consumes the token sequence through a single cursor and
//! produces one root value, owning all syntactic error detection.
//!
//! The grammar: a document is `key '{' map_body '}' ','` where the key must
//! be exactly `root`; a map body is any number of `key value ','` entries;
//! an array is `'[' (value ',')* ']'`. Every entry is comma-terminated,
//! the last included; empty `{}` and `[]` need no comma. The executable
//! parser is verified against the recursive specification [`sp_document`].

use crate::ast::{
    entries_view, items_view, lemma_entries_view, lemma_items_view, value_view, Value, ValueView,
};
use crate::text::{lemma_suffix_suffix, suffix};
use crate::token::{toks_view, Token, TokenView};
use vstd::prelude::*;

verus! {

/// A syntactic failure; any one aborts the entire parse call.
#[derive(Debug, Clone)]
pub enum ParseError {
    /// A present token where another was needed; carries the offender.
    UnexpectedToken(Token),
    /// The input ended where a token was needed.
    UnexpectedEof,
    /// The document's opening key is not exactly `root`.
    InvalidRoot,
}

/// The mathematical model of a [`ParseError`].
#[verifier::ext_equal]
pub enum ParseErrorView {
    UnexpectedToken(TokenView),
    UnexpectedEof,
    InvalidRoot,
}

impl View for ParseError {
    type V = ParseErrorView;

    open spec fn view(&self) -> ParseErrorView {
        match self {
            ParseError::UnexpectedToken(t) => ParseErrorView::UnexpectedToken(t@),
            ParseError::UnexpectedEof => ParseErrorView::UnexpectedEof,
            ParseError::InvalidRoot => ParseErrorView::InvalidRoot,
        }
    }
}

/// The token under the cursor; one past the end it is the end marker.
pub open spec fn sp_peek(ts: Seq<TokenView>) -> TokenView {
    if ts.len() > 0 {
        ts[0]
    } else {
        TokenView::Eof
    }
}

/// The value beginning at the head of `ts`, with the number of tokens it
/// occupies.
pub open spec fn sp_value(ts: Seq<TokenView>) -> Result<(ValueView, nat), ParseErrorView>
    decreases ts.len(), 0int,
{
    match sp_peek(ts) {
        TokenView::OpenCurly => match sp_map_entries(suffix(ts, 1)) {
            Ok((entries, u)) => Ok((ValueView::Mapping(entries), (1 + u) as nat)),
            Err(e) => Err(e),
        },
        TokenView::OpenBracket => match sp_array_items(suffix(ts, 1)) {
            Ok((items, u)) => Ok((ValueView::Array(items), (1 + u) as nat)),
            Err(e) => Err(e),
        },
        TokenView::String(s) => Ok((ValueView::String(s), 1)),
        TokenView::Number(n) => Ok((ValueView::Number(n), 1)),
        TokenView::True => Ok((ValueView::Bool(true), 1)),
        TokenView::False => Ok((ValueView::Bool(false), 1)),
        TokenView::Eof => Err(ParseErrorView::UnexpectedEof),
        t => Err(ParseErrorView::UnexpectedToken(t)),
    }
}

/// The entries of a map body beginning at the head of `ts`, with the
/// number of tokens they occupy, the closing brace included.
pub open spec fn sp_map_entries(ts: Seq<TokenView>) -> Result<
    (Seq<(Seq<char>, ValueView)>, nat),
    ParseErrorView,
>
    decreases ts.len(), 1int,
{
    match sp_peek(ts) {
        TokenView::CloseCurly => Ok((Seq::empty(), 1)),
        TokenView::Eof => Err(ParseErrorView::UnexpectedEof),
        TokenView::Key(k) => match sp_value(suffix(ts, 1)) {
            Ok((v, u)) => {
                let c = 1 + u;
                if sp_peek(suffix(ts, c as int)) is Comma {
                    match sp_map_entries(suffix(ts, (c + 1) as int)) {
                        Ok((rest, u2)) => Ok(
                            (seq![(k, v)] + rest, (c + 1 + u2) as nat),
                        ),
                        Err(e) => Err(e),
                    }
                } else if sp_peek(suffix(ts, c as int)) is Eof {
                    Err(ParseErrorView::UnexpectedEof)
                } else {
                    Err(ParseErrorView::UnexpectedToken(sp_peek(suffix(ts, c as int))))
                }
            },
            Err(e) => Err(e),
        },
        t => Err(ParseErrorView::UnexpectedToken(t)),
    }
}

/// The items of an array body beginning at the head of `ts`, with the
/// number of tokens they occupy, the closing bracket included.
pub open spec fn sp_array_items(ts: Seq<TokenView>) -> Result<
    (Seq<ValueView>, nat),
    ParseErrorView,
>
    decreases ts.len(), 1int,
{
    match sp_peek(ts) {
        TokenView::CloseBracket => Ok((Seq::empty(), 1)),
        TokenView::Eof => Err(ParseErrorView::UnexpectedEof),
        _ => match sp_value(ts) {
            Ok((v, u)) => {
                if sp_peek(suffix(ts, u as int)) is Comma {
                    match sp_array_items(suffix(ts, (u + 1) as int)) {
                        Ok((rest, u2)) => Ok((seq![v] + rest, (u + 1 + u2) as nat)),
                        Err(e) => Err(e),
                    }
                } else if sp_peek(suffix(ts, u as int)) is Eof {
                    Err(ParseErrorView::UnexpectedEof)
                } else {
                    Err(ParseErrorView::UnexpectedToken(sp_peek(suffix(ts, u as int))))
                }
            },
            Err(e) => Err(e),
        },
    }
}

/// The document at the head of `ts`: a key that must equal `root`, a braced
/// map body, and a final comma. The result is the one-entry map wrapping
/// the document's content; tokens after the final comma are not inspected.
pub open spec fn sp_document(ts: Seq<TokenView>) -> Result<ValueView, ParseErrorView> {
    match sp_peek(ts) {
        TokenView::Key(k) => {
            if k != "root"@ {
                Err(ParseErrorView::InvalidRoot)
            } else if sp_peek(suffix(ts, 1)) is OpenCurly {
                match sp_map_entries(suffix(ts, 2)) {
                    Ok((entries, u)) => {
                        let c = 2 + u;
                        if sp_peek(suffix(ts, c as int)) is Comma {
                            Ok(
                                ValueView::Mapping(
                                    seq![(k, ValueView::Mapping(entries))],
                                ),
                            )
                        } else if sp_peek(suffix(ts, c as int)) is Eof {
                            Err(ParseErrorView::UnexpectedEof)
                        } else {
                            Err(ParseErrorView::UnexpectedToken(sp_peek(suffix(ts, c as int))))
                        }
                    },
                    Err(e) => Err(e),
                }
            } else if sp_peek(suffix(ts, 1)) is Eof {
                Err(ParseErrorView::UnexpectedEof)
            } else {
                Err(ParseErrorView::UnexpectedToken(sp_peek(suffix(ts, 1))))
            }
        },
        TokenView::Eof => Err(ParseErrorView::UnexpectedEof),
        t => Err(ParseErrorView::UnexpectedToken(t)),
    }
}

/// The entries found so far together with the rest of the body parse make
/// up the parse of the whole map body, which begins at `p0`.
spec fn entries_from(
    toks: Seq<TokenView>,
    p0: int,
    done: Seq<(Seq<char>, ValueView)>,
    p: int,
) -> bool {
    match sp_map_entries(suffix(toks, p)) {
        Ok((rest, u)) => sp_map_entries(suffix(toks, p0)) == Ok::<
            (Seq<(Seq<char>, ValueView)>, nat),
            ParseErrorView,
        >((done + rest, ((p - p0) + u) as nat)),
        Err(e) => sp_map_entries(suffix(toks, p0)) == Err::<
            (Seq<(Seq<char>, ValueView)>, nat),
            ParseErrorView,
        >(e),
    }
}

/// The items found so far together with the rest of the body parse make up
/// the parse of the whole array body, which begins at `p0`.
spec fn items_from(toks: Seq<TokenView>, p0: int, done: Seq<ValueView>, p: int) -> bool {
    match sp_array_items(suffix(toks, p)) {
        Ok((rest, u)) => sp_array_items(suffix(toks, p0)) == Ok::<
            (Seq<ValueView>, nat),
            ParseErrorView,
        >((done + rest, ((p - p0) + u) as nat)),
        Err(e) => sp_array_items(suffix(toks, p0)) == Err::<(Seq<ValueView>, nat), ParseErrorView>(
            e,
        ),
    }
}

/// One `key value ,` group between positions `p` and `p2` extends the
/// entries found so far.
proof fn lemma_entries_step(
    toks: Seq<TokenView>,
    p0: int,
    done: Seq<(Seq<char>, ValueView)>,
    p: int,
    k: Seq<char>,
    v: ValueView,
    p2: int,
)
    requires
        entries_from(toks, p0, done, p),
        0 <= p0 <= p,
        p + 2 <= p2,
        sp_peek(suffix(toks, p)) == TokenView::Key(k),
        sp_value(suffix(toks, p + 1)) == Ok::<(ValueView, nat), ParseErrorView>(
            (v, (p2 - p - 2) as nat),
        ),
        sp_peek(suffix(toks, p2 - 1)) is Comma,
    ensures
        entries_from(toks, p0, done.push((k, v)), p2),
{
    lemma_suffix_suffix(toks, p, 1);
    lemma_suffix_suffix(toks, p, p2 - 1 - p);
    lemma_suffix_suffix(toks, p, p2 - p);
    assert(sp_map_entries(suffix(toks, p)) == match sp_map_entries(suffix(toks, p2)) {
        Ok((rest, u2)) => Ok::<(Seq<(Seq<char>, ValueView)>, nat), ParseErrorView>(
            (seq![(k, v)] + rest, ((p2 - p) + u2) as nat),
        ),
        Err(e) => Err(e),
    });
    match sp_map_entries(suffix(toks, p2)) {
        Ok((rest, u2)) => {
            assert(done + (seq![(k, v)] + rest) =~= done.push((k, v)) + rest);
        },
        Err(e) => {},
    }
}

/// One `value ,` group between positions `p` and `p2` extends the items
/// found so far.
proof fn lemma_items_step(
    toks: Seq<TokenView>,
    p0: int,
    done: Seq<ValueView>,
    p: int,
    v: ValueView,
    p2: int,
)
    requires
        items_from(toks, p0, done, p),
        0 <= p0 <= p,
        p + 1 <= p2,
        !(sp_peek(suffix(toks, p)) is CloseBracket),
        !(sp_peek(suffix(toks, p)) is Eof),
        sp_value(suffix(toks, p)) == Ok::<(ValueView, nat), ParseErrorView>(
            (v, (p2 - p - 1) as nat),
        ),
        sp_peek(suffix(toks, p2 - 1)) is Comma,
    ensures
        items_from(toks, p0, done.push(v), p2),
{
    lemma_suffix_suffix(toks, p, p2 - 1 - p);
    lemma_suffix_suffix(toks, p, p2 - p);
    assert(sp_array_items(suffix(toks, p)) == match sp_array_items(suffix(toks, p2)) {
        Ok((rest, u2)) => Ok::<(Seq<ValueView>, nat), ParseErrorView>(
            (seq![v] + rest, ((p2 - p) + u2) as nat),
        ),
        Err(e) => Err(e),
    });
    match sp_array_items(suffix(toks, p2)) {
        Ok((rest, u2)) => {
            assert(done + (seq![v] + rest) =~= done.push(v) + rest);
        },
        Err(e) => {},
    }
}

/// Appending an entry appends its model.
proof fn lemma_entries_view_push(s: Seq<(String, Value)>, k: String, v: Value)
    ensures
        entries_view(s.push((k, v))) == entries_view(s).push((k@, v@)),
{
    assert(s.push((k, v)).drop_last() =~= s);
}

/// Appending an item appends its model.
proof fn lemma_items_view_push(s: Seq<Value>, v: Value)
    ensures
        items_view(s.push(v)) == items_view(s).push(v@),
{
    assert(s.push(v).drop_last() =~= s);
}

/// The cursor over the token sequence.
pub struct Parser {
    pub tokens: Vec<Token>,
    pub pos: usize,
}

impl Parser {
    /// The models of the tokens not yet consumed.
    pub open spec fn rest(&self) -> Seq<TokenView> {
        suffix(toks_view(self.tokens@), self.pos as int)
    }

    /// The cursor never stands past the end marker.
    pub open spec fn wf(&self) -> bool {
        self.pos <= self.tokens@.len()
    }

    /// The token under the cursor, or the end marker past the end.
    pub fn peek(&self) -> (t: Token)
        ensures
            t@ == sp_peek(self.rest()),
    {
        if self.pos < self.tokens.len() {
            let t = self.tokens[self.pos].duplicate();
            proof {
                assert(self.rest()[0] == toks_view(self.tokens@)[self.pos as int]);
            }
            t
        } else {
            proof {
                assert(self.rest().len() == 0);
            }
            Token::Eof
        }
    }

    /// Whether the token under the cursor closes a map.
    fn at_close_curly(&self) -> (b: bool)
        ensures
            b == (sp_peek(self.rest()) is CloseCurly),
    {
        let t = self.peek();
        match t {
            Token::CloseCurly => true,
            _ => false,
        }
    }

    /// Whether the token under the cursor closes an array.
    fn at_close_bracket(&self) -> (b: bool)
        ensures
            b == (sp_peek(self.rest()) is CloseBracket),
    {
        let t = self.peek();
        match t {
            Token::CloseBracket => true,
            _ => false,
        }
    }

    /// Moves the cursor one token forward, never past the end.
    pub fn advance(&mut self)
        ensures
            final(self).tokens == old(self).tokens,
            final(self).pos == if old(self).pos < old(self).tokens@.len() {
                old(self).pos + 1
            } else {
                old(self).pos as int
            },
    {
        if self.pos < self.tokens.len() {
            self.pos += 1;
        }
    }

    /// Consumes the token under the cursor if it equals `expected`;
    /// otherwise reports it, or the end of input, cursor unmoved.
    pub fn expect(&mut self, expected: Token) -> (r: Result<(), ParseError>)
        requires
            old(self).wf(),
        ensures
            final(self).tokens == old(self).tokens,
            final(self).wf(),
            if sp_peek(old(self).rest()) == expected@ {
                r is Ok && final(self).pos == if old(self).pos < old(self).tokens@.len() {
                    old(self).pos + 1
                } else {
                    old(self).pos as int
                }
            } else if sp_peek(old(self).rest()) is Eof {
                (r matches Err(pe) && pe@ == ParseErrorView::UnexpectedEof) && *final(self)
                    == *old(self)
            } else {
                (r matches Err(pe) && pe@ == ParseErrorView::UnexpectedToken(
                    sp_peek(old(self).rest()),
                )) && *final(self) == *old(self)
            },
    {
        let t = self.peek();
        if t.token_eq(&expected) {
            self.advance();
            Ok(())
        } else {
            match t {
                Token::Eof => Err(ParseError::UnexpectedEof),
                other => Err(ParseError::UnexpectedToken(other)),
            }
        }
    }

    /// Consumes a key token and returns its text; any other token, or the
    /// end of input, is reported, cursor unmoved.
    pub fn parse_key(&mut self) -> (r: Result<String, ParseError>)
        requires
            old(self).wf(),
        ensures
            final(self).tokens == old(self).tokens,
            final(self).wf(),
            match sp_peek(old(self).rest()) {
                TokenView::Key(k) => (r matches Ok(s) && s@ == k) && final(self).pos == old(self).pos + 1,
                TokenView::Eof => (r matches Err(pe) && pe@ == ParseErrorView::UnexpectedEof)
                    && *final(self) == *old(self),
                t => (r matches Err(pe) && pe@ == ParseErrorView::UnexpectedToken(t)) && *final(self) == *old(self),
            },
    {
        let tok = self.peek();
        match tok {
            Token::Key(key) => {
                proof {
                    assert(old(self).pos < old(self).tokens@.len());
                }
                self.advance();
                Ok(key)
            },
            Token::Eof => Err(ParseError::UnexpectedEof),
            other => Err(ParseError::UnexpectedToken(other)),
        }
    }

    /// Parses one value beginning at the cursor.
    pub fn parse_value(&mut self) -> (r: Result<Value, ParseError>)
        requires
            old(self).wf(),
        ensures
            final(self).tokens == old(self).tokens,
            final(self).wf(),
            match sp_value(old(self).rest()) {
                Ok((v, u)) => (r matches Ok(val) && val@ == v) && final(self).pos == old(self).pos
                    + u,
                Err(e) => r matches Err(pe) && pe@ == e,
            },
        decreases old(self).tokens@.len() - old(self).pos, 0int,
    {
        let ghost toks = toks_view(self.tokens@);
        let ghost p0 = self.pos as int;
        let t = self.peek();
        match t {
            Token::OpenCurly => {
                proof {
                    assert(p0 < toks.len());
                    lemma_suffix_suffix(toks, p0, 1);
                }
                self.advance();
                match self.parse_map() {
                    Ok(v) => Ok(v),
                    Err(e) => Err(e),
                }
            },
            Token::OpenBracket => {
                proof {
                    assert(p0 < toks.len());
                    lemma_suffix_suffix(toks, p0, 1);
                }
                self.advance();
                match self.parse_array() {
                    Ok(v) => Ok(v),
                    Err(e) => Err(e),
                }
            },
            Token::String(s) => {
                proof {
                    assert(p0 < toks.len());
                }
                self.advance();
                Ok(Value::String(s))
            },
            Token::Number(n) => {
                proof {
                    assert(p0 < toks.len());
                }
                self.advance();
                Ok(Value::Number(n))
            },
            Token::True => {
                proof {
                    assert(p0 < toks.len());
                }
                self.advance();
                Ok(Value::Bool(true))
            },
            Token::False => {
                proof {
                    assert(p0 < toks.len());
                }
                self.advance();
                Ok(Value::Bool(false))
            },
            Token::Eof => Err(ParseError::UnexpectedEof),
            other => Err(ParseError::UnexpectedToken(other)),
        }
    }

    /// Parses a map body beginning at the cursor (the opening brace is
    /// already consumed) up to and including its closing brace.
    pub fn parse_map(&mut self) -> (r: Result<Value, ParseError>)
        requires
            old(self).wf(),
        ensures
            final(self).tokens == old(self).tokens,
            final(self).wf(),
            match sp_map_entries(old(self).rest()) {
                Ok((entries, u)) => (r matches Ok(v) && v@ == ValueView::Mapping(entries)) && final(self).pos == old(self).pos + u,
                Err(e) => r matches Err(pe) && pe@ == e,
            },
        decreases old(self).tokens@.len() - old(self).pos, 1int,
    {
        let ghost toks = toks_view(self.tokens@);
        let ghost p0 = self.pos as int;
        let mut map_entries: Vec<(String, Value)> = Vec::new();
        proof {
            assert(entries_view(map_entries@) =~= Seq::<(Seq<char>, ValueView)>::empty());
            match sp_map_entries(suffix(toks, p0)) {
                Ok((rest, u)) => {
                    assert(Seq::<(Seq<char>, ValueView)>::empty() + rest =~= rest);
                },
                Err(e) => {},
            }
        }

        while !self.at_close_curly()
            invariant
                self.wf(),
                self.tokens == old(self).tokens,
                toks == toks_view(self.tokens@),
                p0 == old(self).pos,
                p0 <= self.pos,
                entries_from(toks, p0, entries_view(map_entries@), self.pos as int),
            decreases self.tokens@.len() - self.pos,
        {
            let ghost p = self.pos as int;
            let ghost done = entries_view(map_entries@);
            let t = self.peek();
            if let Token::Eof = t {
                return Err(ParseError::UnexpectedEof);
            }
            let key = match self.parse_key() {
                Ok(k) => k,
                Err(e) => {
                    return Err(e);
                },
            };
            proof {
                lemma_suffix_suffix(toks, p, 1);
            }
            let value = match self.parse_value() {
                Ok(v) => v,
                Err(e) => {
                    return Err(e);
                },
            };
            let ghost p2 = self.pos as int;
            match self.expect(Token::Comma) {
                Ok(()) => {},
                Err(e) => {
                    proof {
                        lemma_suffix_suffix(toks, p, p2 - p);
                    }
                    return Err(e);
                },
            }
            proof {
                lemma_suffix_suffix(toks, p, p2 - p);
                lemma_entries_step(toks, p0, done, p, key@, value@, p2 + 1);
                lemma_entries_view_push(map_entries@, key, value);
            }
            map_entries.push((key, value));
        }
        let ghost pclose = self.pos as int;
        match self.expect(Token::CloseCurly) {
            Ok(()) => {},
            Err(e) => {
                return Err(e);
            },
        }
        proof {
            lemma_suffix_suffix(toks, pclose, 1);
            match sp_map_entries(suffix(toks, pclose)) {
                Ok((rest, u)) => {
                    assert(rest =~= Seq::<(Seq<char>, ValueView)>::empty());
                    assert(entries_view(map_entries@) + rest =~= entries_view(map_entries@));
                },
                Err(e2) => {},
            }
        }
        Ok(Value::Mapping(map_entries))
    }

    /// Parses an array body beginning at the cursor (the opening bracket
    /// is already consumed) up to and including its closing bracket.
    pub fn parse_array(&mut self) -> (r: Result<Value, ParseError>)
        requires
            old(self).wf(),
        ensures
            final(self).tokens == old(self).tokens,
            final(self).wf(),
            match sp_array_items(old(self).rest()) {
                Ok((items, u)) => (r matches Ok(v) && v@ == ValueView::Array(items)) && final(self).pos == old(self).pos + u,
                Err(e) => r matches Err(pe) && pe@ == e,
            },
        decreases old(self).tokens@.len() - old(self).pos, 1int,
    {
        let ghost toks = toks_view(self.tokens@);
        let ghost p0 = self.pos as int;
        let mut array: Vec<Value> = Vec::new();
        proof {
            assert(items_view(array@) =~= Seq::<ValueView>::empty());
            match sp_array_items(suffix(toks, p0)) {
                Ok((rest, u)) => {
                    assert(Seq::<ValueView>::empty() + rest =~= rest);
                },
                Err(e) => {},
            }
        }

        while !self.at_close_bracket()
            invariant
                self.wf(),
                self.tokens == old(self).tokens,
                toks == toks_view(self.tokens@),
                p0 == old(self).pos,
                p0 <= self.pos,
                items_from(toks, p0, items_view(array@), self.pos as int),
            decreases self.tokens@.len() - self.pos,
        {
            let ghost p = self.pos as int;
            let ghost done = items_view(array@);
            let t = self.peek();
            if let Token::Eof = t {
                return Err(ParseError::UnexpectedEof);
            }
            let value = match self.parse_value() {
                Ok(v) => v,
                Err(e) => {
                    return Err(e);
                },
            };
            let ghost p2 = self.pos as int;
            match self.expect(Token::Comma) {
                Ok(()) => {},
                Err(e) => {
                    proof {
                        lemma_suffix_suffix(toks, p, p2 - p);
                    }
                    return Err(e);
                },
            }
            proof {
                lemma_suffix_suffix(toks, p, p2 - p);
                lemma_items_step(toks, p0, done, p, value@, p2 + 1);
                lemma_items_view_push(array@, value);
            }
            array.push(value);
        }
        let ghost pclose = self.pos as int;
        match self.expect(Token::CloseBracket) {
            Ok(()) => {},
            Err(e) => {
                return Err(e);
            },
        }
        proof {
            lemma_suffix_suffix(toks, pclose, 1);
            match sp_array_items(suffix(toks, pclose)) {
                Ok((rest, u)) => {
                    assert(rest =~= Seq::<ValueView>::empty());
                    assert(items_view(array@) + rest =~= items_view(array@));
                },
                Err(e2) => {},
            }
        }
        Ok(Value::Array(array))
    }

    /// Parses the whole document: the mandatory `root` key, its braced
    /// body, and the final comma. Tokens after that comma are not
    /// inspected.
    pub fn parse_root(&mut self) -> (r: Result<Value, ParseError>)
        requires
            old(self).wf(),
        ensures
            final(self).tokens == old(self).tokens,
            final(self).wf(),
            match sp_document(old(self).rest()) {
                Ok(v) => r matches Ok(val) && val@ == v,
                Err(e) => r matches Err(pe) && pe@ == e,
            },
    {
        let ghost toks = toks_view(self.tokens@);
        let ghost p0 = self.pos as int;
        let key = match self.parse_key() {
            Ok(k) => k,
            Err(e) => {
                return Err(e);
            },
        };
        if !(key == String::from_str("root")) {
            return Err(ParseError::InvalidRoot);
        }
        proof {
            lemma_suffix_suffix(toks, p0, 1);
        }
        match self.expect(Token::OpenCurly) {
            Ok(()) => {},
            Err(e) => {
                return Err(e);
            },
        }
        proof {
            lemma_suffix_suffix(toks, p0, 2);
        }
        let value = match self.parse_map() {
            Ok(v) => v,
            Err(e) => {
                return Err(e);
            },
        };
        let map = (key, value);
        let ghost pc = self.pos as int;
        proof {
            lemma_suffix_suffix(toks, p0, pc - p0);
        }
        match self.expect(Token::Comma) {
            Ok(()) => {},
            Err(e) => {
                return Err(e);
            },
        }
        let mut wrapper: Vec<(String, Value)> = Vec::new();
        wrapper.push(map);
        proof {
            lemma_entries_view(wrapper@);
            assert(entries_view(wrapper@) =~= seq![(map.0@, map.1@)]);
        }
        Ok(Value::Mapping(wrapper))
    }

    /// Parses a token sequence into the document's tree value.
    pub fn parse(tokens: Vec<Token>) -> (r: Result<Value, ParseError>)
        ensures
            match sp_document(toks_view(tokens@)) {
                Ok(v) => r matches Ok(val) && val@ == v,
                Err(e) => r matches Err(pe) && pe@ == e,
            },
    {
        let mut parser = Parser { tokens, pos: 0 };
        proof {
            assert(suffix(toks_view(parser.tokens@), 0) =~= toks_view(parser.tokens@));
        }
        parser.parse_root()
    }
}

/// Parses a token sequence into the document's tree value.
pub fn parse(tokens: Vec<Token>) -> (r: Result<Value, ParseError>)
    ensures
        match sp_document(toks_view(tokens@)) {
            Ok(v) => r matches Ok(val) && val@ == v,
            Err(e) => r matches Err(pe) && pe@ == e,
        },
{
    Parser::parse(tokens)
}

} // verus!
