//! The lexical alphabet of the format: structural punctuation, literals,
//! and the end-of-input marker.

use vstd::prelude::*;

verus! {

/// One lexical token, in left-to-right document order.
///
/// Number tokens keep the raw captured text; the decision how to interpret
/// that text numerically is deferred to the consumer of the tree. String
/// tokens carry text whose escape sequences are already decoded.
#[derive(Debug, Clone)]
pub enum Token {
    OpenCurly,
    CloseCurly,
    OpenBracket,
    CloseBracket,
    Comma,
    True,
    False,
    Key(String),
    Number(String),
    String(String),
    Eof,
}

/// The mathematical model of a [`Token`]: the same variants over `Seq<char>`.
#[verifier::ext_equal]
pub enum TokenView {
    OpenCurly,
    CloseCurly,
    OpenBracket,
    CloseBracket,
    Comma,
    True,
    False,
    Key(Seq<char>),
    Number(Seq<char>),
    String(Seq<char>),
    Eof,
}

impl View for Token {
    type V = TokenView;

    open spec fn view(&self) -> TokenView {
        match self {
            Token::OpenCurly => TokenView::OpenCurly,
            Token::CloseCurly => TokenView::CloseCurly,
            Token::OpenBracket => TokenView::OpenBracket,
            Token::CloseBracket => TokenView::CloseBracket,
            Token::Comma => TokenView::Comma,
            Token::True => TokenView::True,
            Token::False => TokenView::False,
            Token::Key(s) => TokenView::Key(s@),
            Token::Number(s) => TokenView::Number(s@),
            Token::String(s) => TokenView::String(s@),
            Token::Eof => TokenView::Eof,
        }
    }
}

impl DeepView for Token {
    type V = TokenView;

    open spec fn deep_view(&self) -> TokenView {
        self.view()
    }
}

/// The models of a sequence of tokens, in order.
pub open spec fn toks_view(s: Seq<Token>) -> Seq<TokenView> {
    Seq::new(s.len(), |i: int| s[i]@)
}

/// Appending a token appends its model.
pub proof fn lemma_toks_view_push(s: Seq<Token>, t: Token)
    ensures
        toks_view(s.push(t)) == toks_view(s).push(t@),
{
    assert(toks_view(s.push(t)) =~= toks_view(s).push(t@));
}

impl Token {
    /// Whether two tokens are equal, payload included.
    pub fn token_eq(&self, other: &Token) -> (r: bool)
        ensures
            r == (self@ == other@),
    {
        match (self, other) {
            (Token::OpenCurly, Token::OpenCurly) => true,
            (Token::CloseCurly, Token::CloseCurly) => true,
            (Token::OpenBracket, Token::OpenBracket) => true,
            (Token::CloseBracket, Token::CloseBracket) => true,
            (Token::Comma, Token::Comma) => true,
            (Token::True, Token::True) => true,
            (Token::False, Token::False) => true,
            (Token::Key(a), Token::Key(b)) => a.eq(b),
            (Token::Number(a), Token::Number(b)) => a.eq(b),
            (Token::String(a), Token::String(b)) => a.eq(b),
            (Token::Eof, Token::Eof) => true,
            _ => false,
        }
    }

    /// A copy of this token.
    pub fn duplicate(&self) -> (r: Token)
        ensures
            r@ == self@,
    {
        match self {
            Token::OpenCurly => Token::OpenCurly,
            Token::CloseCurly => Token::CloseCurly,
            Token::OpenBracket => Token::OpenBracket,
            Token::CloseBracket => Token::CloseBracket,
            Token::Comma => Token::Comma,
            Token::True => Token::True,
            Token::False => Token::False,
            Token::Key(s) => Token::Key(s.clone()),
            Token::Number(s) => Token::Number(s.clone()),
            Token::String(s) => Token::String(s.clone()),
            Token::Eof => Token::Eof,
        }
    }

    /// The display text of this token.
    pub open spec fn spec_text(t: TokenView) -> Seq<char> {
        match t {
            TokenView::OpenCurly => "{"@,
            TokenView::CloseCurly => "}"@,
            TokenView::OpenBracket => "["@,
            TokenView::CloseBracket => "]"@,
            TokenView::Comma => ","@,
            TokenView::True => "true"@,
            TokenView::False => "false"@,
            TokenView::Key(s) => s,
            TokenView::Number(s) => s,
            TokenView::String(s) => "\""@ + s + "\""@,
            TokenView::Eof => "<eof>"@,
        }
    }

    /// Renders this token as display text: punctuation and keywords as
    /// themselves, keys and numbers as their raw text, strings re-quoted.
    pub fn to_text(&self) -> (r: String)
        ensures
            r@ == Token::spec_text(self@),
    {
        match self {
            Token::OpenCurly => String::from_str("{"),
            Token::CloseCurly => String::from_str("}"),
            Token::OpenBracket => String::from_str("["),
            Token::CloseBracket => String::from_str("]"),
            Token::Comma => String::from_str(","),
            Token::True => String::from_str("true"),
            Token::False => String::from_str("false"),
            Token::Key(s) => s.clone(),
            Token::Number(s) => s.clone(),
            Token::String(s) => {
                let mut out = String::from_str("\"");
                out.append(s.as_str());
                out.append("\"");
                out
            },
            Token::Eof => String::from_str("<eof>"),
        }
    }
}

} // verus!
