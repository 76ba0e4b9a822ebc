//! The tokenizer: a single left-to-right scan that turns raw text into the
//! token sequence, and owns all lexical error detection.
//!
//! The executable scanner is verified against a recursive specification,
//! [`spec_lex`], which is the authoritative statement of the lexical grammar:
//! whitespace is skipped, `"`-delimited strings are escape-decoded (`\"`,
//! `\\`, `\n`, `\t`, `\r` and the two-digit hexadecimal form `\xHH`),
//! numbers are captured as raw text, bare identifiers become keys (with
//! `true` and `false` special-cased), and `{ } [ ] ,` stand for themselves.

use crate::text::{
    hex_digit_val, hex_val, is_digit, is_digit_char, is_hex, is_hex_char, is_ident_cont,
    is_ident_cont_char, is_ident_start, is_ident_start_char, is_ws, is_ws_char,
    lemma_suffix_suffix, push_char, string_to_chars, suffix,
};
use crate::token::{lemma_toks_view_push, toks_view, Token, TokenView};
use vstd::prelude::*;

verus! {

/// A lexical failure; any one aborts the entire tokenize call.
#[derive(Debug, Clone, PartialEq, Eq)]
pub enum LexError {
    /// A character that cannot begin any token.
    UnexpectedChar(char),
    /// The input ended inside a string literal.
    UnclosedString,
    /// `\` followed by anything but `"`, `\`, `n`, `t`, `r` or a valid
    /// two-hex-digit `\xHH` form.
    InvalidEscapeSequence,
}

/// The result of scanning a string literal body: the decoded text and the
/// number of characters consumed, closing quote included.
pub open spec fn scan_string(cs: Seq<char>) -> Result<(Seq<char>, nat), LexError>
    decreases cs.len(),
{
    if cs.len() == 0 {
        Err(LexError::UnclosedString)
    } else if cs[0] == '"' {
        Ok((Seq::empty(), 1))
    } else if cs[0] == '\\' {
        if cs.len() < 2 {
            Err(LexError::UnclosedString)
        } else {
            let e = cs[1];
            if e == '"' || e == '\\' || e == 'n' || e == 't' || e == 'r' {
                let d = if e == 'n' {
                    '\n'
                } else if e == 't' {
                    '\t'
                } else if e == 'r' {
                    '\r'
                } else {
                    e
                };
                match scan_string(suffix(cs, 2)) {
                    Ok((s, used)) => Ok((seq![d] + s, (2 + used) as nat)),
                    Err(er) => Err(er),
                }
            } else if e == 'x' {
                if cs.len() >= 4 && is_hex_char(cs[2]) && is_hex_char(cs[3]) {
                    let d = ((hex_val(cs[2]) * 16 + hex_val(cs[3])) as u8) as char;
                    match scan_string(suffix(cs, 4)) {
                        Ok((s, used)) => Ok((seq![d] + s, (4 + used) as nat)),
                        Err(er) => Err(er),
                    }
                } else {
                    Err(LexError::InvalidEscapeSequence)
                }
            } else {
                Err(LexError::InvalidEscapeSequence)
            }
        }
    } else {
        match scan_string(suffix(cs, 1)) {
            Ok((s, used)) => Ok((seq![cs[0]] + s, (1 + used) as nat)),
            Err(er) => Err(er),
        }
    }
}

/// How many leading characters of `cs` are ASCII digits.
pub open spec fn count_digits(cs: Seq<char>) -> nat
    decreases cs.len(),
{
    if cs.len() > 0 && is_digit_char(cs[0]) {
        (1 + count_digits(suffix(cs, 1))) as nat
    } else {
        0
    }
}

/// How many leading characters of `cs` may continue a bare identifier.
pub open spec fn count_ident(cs: Seq<char>) -> nat
    decreases cs.len(),
{
    if cs.len() > 0 && is_ident_cont_char(cs[0]) {
        (1 + count_ident(suffix(cs, 1))) as nat
    } else {
        0
    }
}

/// How many characters a number token occupies after its first character:
/// the remaining digits of the integer part, then optionally `.` and a
/// (possibly empty) run of fraction digits.
pub open spec fn number_cont_len(cs: Seq<char>) -> nat {
    let d = count_digits(cs);
    if d < cs.len() && cs[d as int] == '.' {
        (d + 1 + count_digits(suffix(cs, (d + 1) as int))) as nat
    } else {
        d
    }
}

/// The token for a completed identifier: `true` and `false` are keywords,
/// anything else is a key.
pub open spec fn ident_token(text: Seq<char>) -> TokenView {
    if text == "true"@ {
        TokenView::True
    } else if text == "false"@ {
        TokenView::False
    } else {
        TokenView::Key(text)
    }
}

/// The token sequence of `cs`, or the first lexical error.
///
/// This is the contract of [`tokenize`]; no token is produced for
/// whitespace, and an error aborts the whole scan with no partial result.
pub open spec fn spec_lex(cs: Seq<char>) -> Result<Seq<TokenView>, LexError>
    decreases cs.len(),
{
    if cs.len() == 0 {
        Ok(Seq::empty())
    } else {
        let c = cs[0];
        if is_ws_char(c) {
            spec_lex(suffix(cs, 1))
        } else if c == '"' {
            match scan_string(suffix(cs, 1)) {
                Ok((s, used)) => match spec_lex(suffix(cs, 1 + used as int)) {
                    Ok(ts) => Ok(seq![TokenView::String(s)] + ts),
                    Err(e) => Err(e),
                },
                Err(e) => Err(e),
            }
        } else if is_digit_char(c) || (c == '-' && cs.len() >= 2 && is_digit_char(cs[1])) {
            let used = 1 + number_cont_len(suffix(cs, 1));
            match spec_lex(suffix(cs, used as int)) {
                Ok(ts) => Ok(seq![TokenView::Number(cs.subrange(0, used as int))] + ts),
                Err(e) => Err(e),
            }
        } else if is_ident_start_char(c) {
            let used = 1 + count_ident(suffix(cs, 1));
            match spec_lex(suffix(cs, used as int)) {
                Ok(ts) => Ok(seq![ident_token(cs.subrange(0, used as int))] + ts),
                Err(e) => Err(e),
            }
        } else if c == '{' {
            match spec_lex(suffix(cs, 1)) {
                Ok(ts) => Ok(seq![TokenView::OpenCurly] + ts),
                Err(e) => Err(e),
            }
        } else if c == '}' {
            match spec_lex(suffix(cs, 1)) {
                Ok(ts) => Ok(seq![TokenView::CloseCurly] + ts),
                Err(e) => Err(e),
            }
        } else if c == '[' {
            match spec_lex(suffix(cs, 1)) {
                Ok(ts) => Ok(seq![TokenView::OpenBracket] + ts),
                Err(e) => Err(e),
            }
        } else if c == ']' {
            match spec_lex(suffix(cs, 1)) {
                Ok(ts) => Ok(seq![TokenView::CloseBracket] + ts),
                Err(e) => Err(e),
            }
        } else if c == ',' {
            match spec_lex(suffix(cs, 1)) {
                Ok(ts) => Ok(seq![TokenView::Comma] + ts),
                Err(e) => Err(e),
            }
        } else {
            Err(LexError::UnexpectedChar(c))
        }
    }
}

/// The tokens found so far together with the rest of the scan make up the
/// scan of the whole input.
spec fn lex_from(cs: Seq<char>, done: Seq<TokenView>, pos: int) -> bool {
    match spec_lex(suffix(cs, pos)) {
        Ok(ts) => spec_lex(cs) == Ok::<Seq<TokenView>, LexError>(done + ts),
        Err(e) => spec_lex(cs) == Err::<Seq<TokenView>, LexError>(e),
    }
}

/// Skipping a whitespace character keeps the scan's outcome.
proof fn lemma_lex_skip_ws(cs: Seq<char>, done: Seq<TokenView>, i: int)
    requires
        0 <= i < cs.len(),
        is_ws_char(cs[i]),
        lex_from(cs, done, i),
    ensures
        lex_from(cs, done, i + 1),
{
    let s = suffix(cs, i);
    assert(s[0] == cs[i]);
    lemma_suffix_suffix(cs, i, 1);
    assert(spec_lex(s) == spec_lex(suffix(cs, i + 1)));
}

/// One token recognized between positions `a` and `b` extends the tokens
/// found so far.
proof fn lemma_lex_step(cs: Seq<char>, done: Seq<TokenView>, tok: TokenView, a: int, b: int)
    requires
        lex_from(cs, done, a),
        match spec_lex(suffix(cs, b)) {
            Ok(ts) => spec_lex(suffix(cs, a)) == Ok::<Seq<TokenView>, LexError>(seq![tok] + ts),
            Err(e) => spec_lex(suffix(cs, a)) == Err::<Seq<TokenView>, LexError>(e),
        },
    ensures
        lex_from(cs, done.push(tok), b),
{
    match spec_lex(suffix(cs, b)) {
        Ok(ts) => {
            assert(done + (seq![tok] + ts) =~= done.push(tok) + ts);
        },
        Err(e) => {},
    }
}

/// The decoded text so far together with the rest of the literal scan make
/// up the scan of the whole literal body, which begins at `start`.
spec fn scan_from(cs: Seq<char>, start: int, j: int, buf: Seq<char>) -> bool {
    match scan_string(suffix(cs, j)) {
        Ok((s, u)) => scan_string(suffix(cs, start)) == Ok::<(Seq<char>, nat), LexError>(
            (buf + s, ((j - start) + u) as nat),
        ),
        Err(e) => scan_string(suffix(cs, start)) == Err::<(Seq<char>, nat), LexError>(e),
    }
}

/// One decoded character, spanning `k` input characters, extends the
/// decoded text so far.
proof fn lemma_scan_step(cs: Seq<char>, start: int, j: int, buf: Seq<char>, d: char, k: nat)
    requires
        start <= j,
        scan_from(cs, start, j, buf),
        match scan_string(suffix(cs, j + k)) {
            Ok((s, u)) => scan_string(suffix(cs, j)) == Ok::<(Seq<char>, nat), LexError>(
                (seq![d] + s, (k + u) as nat),
            ),
            Err(e) => scan_string(suffix(cs, j)) == Err::<(Seq<char>, nat), LexError>(e),
        },
    ensures
        scan_from(cs, start, j + k, buf.push(d)),
{
    match scan_string(suffix(cs, j + k)) {
        Ok((s, u)) => {
            assert(buf + (seq![d] + s) =~= buf.push(d) + s);
        },
        Err(e) => {},
    }
}

/// Scans a string literal body beginning at `start` (just past the opening
/// quote): on success returns the decoded text and the position just past
/// the closing quote.
fn scan_string_exec(chars: &Vec<char>, start: usize) -> (r: Result<(String, usize), LexError>)
    requires
        start <= chars@.len(),
    ensures
        match scan_string(suffix(chars@, start as int)) {
            Ok((s, u)) => r matches Ok(p) && p.0@ == s && p.1 == start + u && p.1 <= chars@.len(),
            Err(e) => r == Err::<(String, usize), LexError>(e),
        },
{
    let ghost cs = chars@;
    let mut string_buf = String::new();
    let mut i: usize = start;

    while i < chars.len() && chars[i] != '"'
        invariant
            chars@ == cs,
            start <= i <= chars.len(),
            scan_from(cs, start as int, i as int, string_buf@),
        decreases chars.len() - i,
    {
        let ghost j = i as int;
        let ghost buf0 = string_buf@;
        assert(suffix(cs, j)[0] == cs[j]);
        proof {
            lemma_suffix_suffix(cs, j, 1);
            lemma_suffix_suffix(cs, j, 2);
            lemma_suffix_suffix(cs, j, 4);
        }
        if chars[i] == '\\' {
            if chars.len() - i < 2 {
                // the input ends on the backslash
                return Err(LexError::UnclosedString);
            }
            let e = chars[i + 1];
            assert(suffix(cs, j)[1] == e);
            if e == '"' || e == '\\' || e == 'n' || e == 't' || e == 'r' {
                let d = if e == 'n' {
                    '\n'
                } else if e == 't' {
                    '\t'
                } else if e == 'r' {
                    '\r'
                } else {
                    e
                };
                push_char(&mut string_buf, d);
                proof {
                    lemma_scan_step(cs, start as int, j, buf0, d, 2);
                }
                i += 2;
            } else if e == 'x' {
                if chars.len() - i >= 4 {
                    let h1 = chars[i + 2];
                    let h2 = chars[i + 3];
                    assert(suffix(cs, j)[2] == h1);
                    assert(suffix(cs, j)[3] == h2);
                    if is_hex(h1) && is_hex(h2) {
                        let b: u8 = hex_digit_val(h1) * 16 + hex_digit_val(h2);
                        let d = b as char;
                        push_char(&mut string_buf, d);
                        proof {
                            lemma_scan_step(cs, start as int, j, buf0, d, 4);
                        }
                        i += 4;
                    } else {
                        return Err(LexError::InvalidEscapeSequence);
                    }
                } else {
                    return Err(LexError::InvalidEscapeSequence);
                }
            } else {
                return Err(LexError::InvalidEscapeSequence);
            }
        } else {
            let d = chars[i];
            push_char(&mut string_buf, d);
            proof {
                lemma_scan_step(cs, start as int, j, buf0, d, 1);
            }
            i += 1;
        }
    }
    if i >= chars.len() {
        // the closing quote never came
        assert(suffix(cs, i as int) =~= Seq::<char>::empty());
        return Err(LexError::UnclosedString);
    }
    assert(suffix(cs, i as int)[0] == cs[i as int]);
    assert(string_buf@ + Seq::<char>::empty() =~= string_buf@);
    Ok((string_buf, i + 1))
}

/// Appends the run of ASCII digits beginning at `start` to `buf` and
/// returns the position just past the run.
fn read_digits(chars: &Vec<char>, start: usize, buf: &mut String) -> (j: usize)
    requires
        start <= chars@.len(),
    ensures
        start <= j <= chars@.len(),
        j - start == count_digits(suffix(chars@, start as int)),
        final(buf)@ == old(buf)@ + chars@.subrange(start as int, j as int),
{
    let ghost cs = chars@;
    let ghost buf0 = buf@;
    let mut i: usize = start;
    while i < chars.len() && is_digit(chars[i])
        invariant
            chars@ == cs,
            start <= i <= chars.len(),
            buf@ == buf0 + cs.subrange(start as int, i as int),
            count_digits(suffix(cs, start as int)) == (i - start) + count_digits(
                suffix(cs, i as int),
            ),
        decreases chars.len() - i,
    {
        let ghost j = i as int;
        assert(suffix(cs, j)[0] == cs[j]);
        proof {
            lemma_suffix_suffix(cs, j, 1);
        }
        push_char(buf, chars[i]);
        assert(buf@ =~= buf0 + cs.subrange(start as int, j + 1));
        i += 1;
    }
    proof {
        if (i as int) < cs.len() {
            assert(suffix(cs, i as int)[0] == cs[i as int]);
        }
        assert(count_digits(suffix(cs, i as int)) == 0);
    }
    i
}

/// Appends the run of identifier characters beginning at `start` to `buf`
/// and returns the position just past the run.
fn read_ident(chars: &Vec<char>, start: usize, buf: &mut String) -> (j: usize)
    requires
        start <= chars@.len(),
    ensures
        start <= j <= chars@.len(),
        j - start == count_ident(suffix(chars@, start as int)),
        final(buf)@ == old(buf)@ + chars@.subrange(start as int, j as int),
{
    let ghost cs = chars@;
    let ghost buf0 = buf@;
    let mut i: usize = start;
    while i < chars.len() && is_ident_cont(chars[i])
        invariant
            chars@ == cs,
            start <= i <= chars.len(),
            buf@ == buf0 + cs.subrange(start as int, i as int),
            count_ident(suffix(cs, start as int)) == (i - start) + count_ident(
                suffix(cs, i as int),
            ),
        decreases chars.len() - i,
    {
        let ghost j = i as int;
        assert(suffix(cs, j)[0] == cs[j]);
        proof {
            lemma_suffix_suffix(cs, j, 1);
        }
        push_char(buf, chars[i]);
        assert(buf@ =~= buf0 + cs.subrange(start as int, j + 1));
        i += 1;
    }
    proof {
        if (i as int) < cs.len() {
            assert(suffix(cs, i as int)[0] == cs[i as int]);
        }
        assert(count_ident(suffix(cs, i as int)) == 0);
    }
    i
}

/// Recognizes the string literal whose opening quote stands at `i`,
/// appends its token, and returns the position just past it.
fn lex_string_at(chars: &Vec<char>, i: usize, tokens: &mut Vec<Token>) -> (r: Result<
    usize,
    LexError,
>)
    requires
        i < chars@.len(),
        chars@[i as int] == '"',
        lex_from(chars@, toks_view(old(tokens)@), i as int),
    ensures
        match r {
            Ok(j) => i < j <= chars@.len() && lex_from(
                chars@,
                toks_view(final(tokens)@),
                j as int,
            ),
            Err(e) => spec_lex(chars@) == Err::<Seq<TokenView>, LexError>(e),
        },
{
    let ghost cs = chars@;
    let ghost done = toks_view(tokens@);
    let n = chars.len();
    proof {
        assert(suffix(cs, i as int)[0] == cs[i as int]);
        lemma_suffix_suffix(cs, i as int, 1);
    }
    match scan_string_exec(chars, i + 1) {
        Ok(p) => {
            let (string_buf, j) = p;
            proof {
                lemma_suffix_suffix(cs, i as int, j - i);
                lemma_lex_step(cs, done, TokenView::String(string_buf@), i as int, j as int);
                lemma_toks_view_push(tokens@, Token::String(string_buf));
            }
            tokens.push(Token::String(string_buf));
            Ok(j)
        },
        Err(e) => {
            proof {
                assert(spec_lex(suffix(cs, i as int)) == Err::<Seq<TokenView>, LexError>(e));
            }
            Err(e)
        },
    }
}

/// Recognizes the number token beginning at `i`, appends it, and returns
/// the position just past it.
#[verifier::rlimit(100)]
fn lex_number_at(chars: &Vec<char>, i: usize, tokens: &mut Vec<Token>) -> (j: usize)
    requires
        i < chars@.len(),
        is_digit_char(chars@[i as int]) || (chars@[i as int] == '-' && chars@.len() - i >= 2
            && is_digit_char(chars@[i + 1])),
        lex_from(chars@, toks_view(old(tokens)@), i as int),
    ensures
        i < j <= chars@.len(),
        lex_from(chars@, toks_view(final(tokens)@), j as int),
{
    let ghost cs = chars@;
    let ghost done = toks_view(tokens@);
    let n = chars.len();
    let ghost nstart = i as int;
    proof {
        assert(suffix(cs, nstart)[0] == cs[nstart]);
        if cs[nstart] == '-' && cs.len() - nstart >= 2 {
            assert(suffix(cs, nstart)[1] == cs[nstart + 1]);
        }
        lemma_suffix_suffix(cs, nstart, 1);
    }
    let c = chars[i];
    let mut num_buf = String::new();
    let mut k: usize = i;
    if c == '-' {
        push_char(&mut num_buf, c);
        k = i + 1;
    }
    let ghost dstart = k as int;
    assert(num_buf@ =~= cs.subrange(nstart, dstart));
    let dend = read_digits(chars, k, &mut num_buf);
    assert(num_buf@ =~= cs.subrange(nstart, dend as int));
    let mut j: usize = dend;
    if j < chars.len() && chars[j] == '.' {
        assert(suffix(cs, dend as int)[0] == '.');
        push_char(&mut num_buf, '.');
        assert(num_buf@ =~= cs.subrange(nstart, dend + 1));
        j = read_digits(chars, dend + 1, &mut num_buf);
        assert(num_buf@ =~= cs.subrange(nstart, j as int));
    }
    let ghost nend = j as int;
    proof {
        let cont = suffix(cs, nstart + 1);
        let d = count_digits(cont);
        if dstart == nstart {
            // a digit starts the number; its remaining digits begin one
            // past the start
            assert(suffix(cs, dstart)[0] == cs[dstart]);
            lemma_suffix_suffix(cs, dstart, 1);
            assert(count_digits(suffix(cs, dstart)) == 1 + count_digits(suffix(cs, dstart + 1)));
            assert(d == dend - dstart - 1);
        } else {
            assert(d == dend - dstart);
        }
        assert(cont.len() == cs.len() - nstart - 1);
        if (dend as int) < cs.len() {
            assert(cont[d as int] == cs[dend as int]);
        }
        if nend > dend {
            // a fraction part was taken
            lemma_suffix_suffix(cs, nstart + 1, d + 1 as int);
            assert(number_cont_len(cont) == d + 1 + count_digits(suffix(cs, dend + 1)));
            assert(number_cont_len(cont) == nend - nstart - 1);
        } else {
            assert(number_cont_len(cont) == nend - nstart - 1);
        }
        lemma_suffix_suffix(cs, nstart, nend - nstart);
        assert(suffix(cs, nstart).subrange(0, nend - nstart) =~= cs.subrange(nstart, nend));
        lemma_lex_step(cs, done, TokenView::Number(num_buf@), nstart, nend);
        lemma_toks_view_push(tokens@, Token::Number(num_buf));
    }
    tokens.push(Token::Number(num_buf));
    j
}

/// Recognizes the identifier beginning at `i`, appends its token (`true`
/// and `false` become keyword tokens), and returns the position just past
/// it.
fn lex_ident_at(chars: &Vec<char>, i: usize, tokens: &mut Vec<Token>) -> (j: usize)
    requires
        i < chars@.len(),
        is_ident_start_char(chars@[i as int]),
        lex_from(chars@, toks_view(old(tokens)@), i as int),
    ensures
        i < j <= chars@.len(),
        lex_from(chars@, toks_view(final(tokens)@), j as int),
{
    let ghost cs = chars@;
    let ghost done = toks_view(tokens@);
    let n = chars.len();
    let ghost kstart = i as int;
    proof {
        assert(suffix(cs, kstart)[0] == cs[kstart]);
        lemma_suffix_suffix(cs, kstart, 1);
    }
    let c = chars[i];
    let mut key_buf = String::new();
    push_char(&mut key_buf, c);
    assert(key_buf@ =~= cs.subrange(kstart, kstart + 1));
    let j = read_ident(chars, i + 1, &mut key_buf);
    let ghost kend = j as int;
    assert(key_buf@ =~= cs.subrange(kstart, kend));
    proof {
        lemma_suffix_suffix(cs, kstart, kend - kstart);
        assert(suffix(cs, kstart).subrange(0, kend - kstart) =~= cs.subrange(kstart, kend));
    }
    let tok: Token = if key_buf == String::from_str("true") {
        Token::True
    } else if key_buf == String::from_str("false") {
        Token::False
    } else {
        Token::Key(key_buf)
    };
    proof {
        lemma_lex_step(cs, done, ident_token(cs.subrange(kstart, kend)), kstart, kend);
        lemma_toks_view_push(tokens@, tok);
    }
    tokens.push(tok);
    j
}

/// Recognizes the single-character token standing at `i` and appends it.
fn lex_punct_at(chars: &Vec<char>, i: usize, tokens: &mut Vec<Token>, tok: Token)
    requires
        i < chars@.len(),
        tok matches Token::OpenCurly ==> chars@[i as int] == '{',
        tok matches Token::CloseCurly ==> chars@[i as int] == '}',
        tok matches Token::OpenBracket ==> chars@[i as int] == '[',
        tok matches Token::CloseBracket ==> chars@[i as int] == ']',
        tok matches Token::Comma ==> chars@[i as int] == ',',
        tok matches Token::OpenCurly || tok matches Token::CloseCurly || tok
            matches Token::OpenBracket || tok matches Token::CloseBracket || tok
            matches Token::Comma,
        lex_from(chars@, toks_view(old(tokens)@), i as int),
    ensures
        lex_from(chars@, toks_view(final(tokens)@), i + 1),
{
    let ghost cs = chars@;
    let ghost done = toks_view(tokens@);
    proof {
        assert(suffix(cs, i as int)[0] == cs[i as int]);
        lemma_suffix_suffix(cs, i as int, 1);
        lemma_lex_step(cs, done, tok@, i as int, i + 1);
        lemma_toks_view_push(tokens@, tok);
    }
    tokens.push(tok);
}

/// Converts raw text into its token sequence, or reports the first lexical
/// error; no token is produced for whitespace, and an error aborts the
/// whole call with no partial result.
pub fn tokenize(file_content: String) -> (r: Result<Vec<Token>, LexError>)
    ensures
        match spec_lex(file_content@) {
            Ok(ts) => r matches Ok(v) && toks_view(v@) == ts,
            Err(e) => r == Err::<Vec<Token>, LexError>(e),
        },
{
    let ghost cs = file_content@;
    let chars: Vec<char> = string_to_chars(file_content.as_str());
    let mut tokens: Vec<Token> = Vec::new();
    let mut i: usize = 0;

    proof {
        assert(suffix(cs, 0) =~= cs);
        assert(toks_view(tokens@) =~= Seq::<TokenView>::empty());
        match spec_lex(cs) {
            Ok(ts) => {
                assert(Seq::<TokenView>::empty() + ts =~= ts);
            },
            Err(e) => {},
        }
    }

    while i < chars.len()
        invariant
            i <= chars.len(),
            chars@ == cs,
            cs == file_content@,
            lex_from(cs, toks_view(tokens@), i as int),
        decreases chars.len() - i,
    {
        let ghost done = toks_view(tokens@);
        let c = chars[i];
        assert(suffix(cs, i as int)[0] == c);

        if is_ws(c) {
            proof {
                lemma_lex_skip_ws(cs, done, i as int);
                lemma_suffix_suffix(cs, i as int, 1);
            }
            i += 1;
        } else if c == '"' {
            match lex_string_at(&chars, i, &mut tokens) {
                Ok(j) => {
                    i = j;
                },
                Err(e) => {
                    return Err(e);
                },
            }
        } else if is_digit(c) || (c == '-' && chars.len() - i >= 2 && {
            let c1 = chars[i + 1];
            is_digit(c1)
        }) {
            i = lex_number_at(&chars, i, &mut tokens);
        } else if is_ident_start(c) {
            i = lex_ident_at(&chars, i, &mut tokens);
        } else if c == '{' {
            lex_punct_at(&chars, i, &mut tokens, Token::OpenCurly);
            i += 1;
        } else if c == '}' {
            lex_punct_at(&chars, i, &mut tokens, Token::CloseCurly);
            i += 1;
        } else if c == '[' {
            lex_punct_at(&chars, i, &mut tokens, Token::OpenBracket);
            i += 1;
        } else if c == ']' {
            lex_punct_at(&chars, i, &mut tokens, Token::CloseBracket);
            i += 1;
        } else if c == ',' {
            lex_punct_at(&chars, i, &mut tokens, Token::Comma);
            i += 1;
        } else {
            proof {
                let s = suffix(cs, i as int);
                assert(s.len() == cs.len() - i);
                assert(s[0] == c);
                if c == '-' && s.len() >= 2 {
                    assert(s[1] == cs[i + 1]);
                }
                assert(spec_lex(s) == Err::<Seq<TokenView>, LexError>(LexError::UnexpectedChar(c)));
            }
            return Err(LexError::UnexpectedChar(c));
        }
    }
    proof {
        assert(suffix(cs, chars.len() as int) =~= Seq::<char>::empty());
        assert(toks_view(tokens@) + Seq::<TokenView>::empty() =~= toks_view(tokens@));
    }
    Ok(tokens)
}

} // verus!
