//! The properties that tie the pipeline together: which trees the
//! renderer can write so that parsing reads them back, and the round-trip
//! theorems themselves.

use crate::ast::ValueView;
use crate::lexer::{
    count_digits, count_ident, ident_token, number_cont_len, scan_string, spec_lex, LexError,
};
use crate::parser::{sp_array_items, sp_document, sp_map_entries, sp_peek, sp_value};
use crate::parser::ParseErrorView;
use crate::ser::{esc1, escape_str, render_document, render_entries, render_items, render_value, spaces};
use crate::text::{
    is_digit_char, is_ident, is_ident_cont_char, is_ident_start_char, is_ws_char, suffix,
};
use crate::token::TokenView;
use vstd::prelude::*;

verus! {

/// Whether `k` can stand as a bare key: an identifier that is not a
/// keyword.
pub open spec fn wf_key(k: Seq<char>) -> bool {
    is_ident(k) && k != "true"@ && k != "false"@
}

/// Whether `s` is exactly the raw text of one number token: an optional
/// `-`, at least one digit, and optionally `.` followed by digits.
pub open spec fn is_number_text(s: Seq<char>) -> bool {
    s.len() > 0 && {
        let start: int = if s[0] == '-' {
            1
        } else {
            0
        };
        let d = count_digits(suffix(s, start));
        d >= 1 && {
            let p = start + d;
            p == s.len() || (s[p] == '.' && p + 1 + count_digits(suffix(s, (p + 1) as int))
                == s.len())
        }
    }
}

/// Whether the renderer writes `v` so that parsing reads it back: keys are
/// bare identifiers and not keywords, numbers carry valid raw text, and no
/// map anywhere is the one-entry `root` shape, which the renderer treats
/// as the document wrapper.
pub open spec fn wf_value(v: ValueView) -> bool
    decreases v, 0int,
    via wf_value_decreases
{
    match v {
        ValueView::Mapping(es) => !(es.len() == 1 && es[0].0 == "root"@) && wf_entries(es),
        ValueView::Array(items) => wf_items(items),
        ValueView::String(s) => true,
        ValueView::Number(n) => is_number_text(n),
        ValueView::Bool(b) => true,
    }
}

/// Whether every entry of a map body has a well-formed key and value.
pub open spec fn wf_entries(es: Seq<(Seq<char>, ValueView)>) -> bool
    decreases es, 1int,
    via wf_entries_decreases
{
    es.len() == 0 || (wf_key(es[0].0) && wf_value(es[0].1) && wf_entries(es.drop_first()))
}

/// Whether every element of an array body is well-formed.
pub open spec fn wf_items(items: Seq<ValueView>) -> bool
    decreases items, 1int,
    via wf_items_decreases
{
    items.len() == 0 || (wf_value(items[0]) && wf_items(items.drop_first()))
}

/// Whether `d` is a complete well-formed document tree: the one-entry
/// `root` map over a map of well-formed entries.
pub open spec fn wf_document(d: ValueView) -> bool {
    match d {
        ValueView::Mapping(es) => es.len() == 1 && es[0].0 == "root"@ && match es[0].1 {
            ValueView::Mapping(inner) => wf_entries(inner),
            _ => false,
        },
        _ => false,
    }
}

#[via_fn]
proof fn wf_value_decreases(v: ValueView) {
    match v {
        ValueView::Mapping(es) => {
            assert(decreases_to!(v => es));
        },
        ValueView::Array(items) => {
            assert(decreases_to!(v => items));
        },
        _ => {},
    }
}

#[via_fn]
proof fn wf_entries_decreases(es: Seq<(Seq<char>, ValueView)>) {
    if es.len() > 0 {
        assert(decreases_to!(es => es[0]));
        assert(decreases_to!(es[0] => es[0].1));
        assert(decreases_to!(es => es.subrange(1, es.len() as int)));
        assert(es.drop_first() == es.subrange(1, es.len() as int));
    }
}

#[via_fn]
proof fn wf_items_decreases(items: Seq<ValueView>) {
    if items.len() > 0 {
        assert(decreases_to!(items => items[0]));
        assert(decreases_to!(items => items.subrange(1, items.len() as int)));
        assert(items.drop_first() == items.subrange(1, items.len() as int));
    }
}

/// The token sequence that writes `v`: the lexical image of the rendered
/// text.
pub open spec fn tokens_of_value(v: ValueView) -> Seq<TokenView>
    decreases v, 0int,
    via tokens_of_value_decreases
{
    match v {
        ValueView::Mapping(es) => seq![TokenView::OpenCurly] + tokens_of_entries(es) + seq![
            TokenView::CloseCurly,
        ],
        ValueView::Array(items) => seq![TokenView::OpenBracket] + tokens_of_items(items) + seq![
            TokenView::CloseBracket,
        ],
        ValueView::String(s) => seq![TokenView::String(s)],
        ValueView::Number(n) => seq![TokenView::Number(n)],
        ValueView::Bool(b) => if b {
            seq![TokenView::True]
        } else {
            seq![TokenView::False]
        },
    }
}

/// The token sequence of a map body: `key value ,` for each entry.
pub open spec fn tokens_of_entries(es: Seq<(Seq<char>, ValueView)>) -> Seq<TokenView>
    decreases es, 1int,
    via tokens_of_entries_decreases
{
    if es.len() == 0 {
        Seq::empty()
    } else {
        seq![TokenView::Key(es[0].0)] + tokens_of_value(es[0].1) + seq![TokenView::Comma]
            + tokens_of_entries(es.drop_first())
    }
}

/// The token sequence of an array body: `value ,` for each element.
pub open spec fn tokens_of_items(items: Seq<ValueView>) -> Seq<TokenView>
    decreases items, 1int,
    via tokens_of_items_decreases
{
    if items.len() == 0 {
        Seq::empty()
    } else {
        tokens_of_value(items[0]) + seq![TokenView::Comma] + tokens_of_items(items.drop_first())
    }
}

/// The token sequence of a whole document: the `root` key, its braced
/// body, the final comma.
pub open spec fn tokens_of_document(d: ValueView) -> Seq<TokenView> {
    match d {
        ValueView::Mapping(es) => seq![TokenView::Key("root"@), TokenView::OpenCurly]
            + tokens_of_entries(match es[0].1 {
            ValueView::Mapping(inner) => inner,
            _ => Seq::empty(),
        }) + seq![TokenView::CloseCurly, TokenView::Comma],
        _ => Seq::empty(),
    }
}

#[via_fn]
proof fn tokens_of_value_decreases(v: ValueView) {
    match v {
        ValueView::Mapping(es) => {
            assert(decreases_to!(v => es));
        },
        ValueView::Array(items) => {
            assert(decreases_to!(v => items));
        },
        _ => {},
    }
}

#[via_fn]
proof fn tokens_of_entries_decreases(es: Seq<(Seq<char>, ValueView)>) {
    if es.len() > 0 {
        assert(decreases_to!(es => es[0]));
        assert(decreases_to!(es[0] => es[0].1));
        assert(decreases_to!(es => es.subrange(1, es.len() as int)));
        assert(es.drop_first() == es.subrange(1, es.len() as int));
    }
}

#[via_fn]
proof fn tokens_of_items_decreases(items: Seq<ValueView>) {
    if items.len() > 0 {
        assert(decreases_to!(items => items[0]));
        assert(decreases_to!(items => items.subrange(1, items.len() as int)));
        assert(items.drop_first() == items.subrange(1, items.len() as int));
    }
}

/// Dropping a prefix of a concatenation, within the first part, keeps the
/// second part whole.
proof fn lemma_suffix_concat<T>(a: Seq<T>, b: Seq<T>, k: int)
    requires
        0 <= k <= a.len(),
    ensures
        suffix(a + b, k) == suffix(a, k) + b,
{
    assert(suffix(a + b, k) =~= suffix(a, k) + b);
}

/// Parsing the tokens of one well-formed value consumes exactly them and
/// yields the value back, whatever tokens follow.
proof fn lemma_parse_value_tokens(v: ValueView, rest: Seq<TokenView>)
    requires
        wf_value(v),
    ensures
        sp_value(tokens_of_value(v) + rest) == Ok::<(ValueView, nat), ParseErrorView>(
            (v, tokens_of_value(v).len() as nat),
        ),
    decreases v, 0int,
{
    let ts = tokens_of_value(v) + rest;
    match v {
        ValueView::Mapping(es) => {
            let toe = tokens_of_entries(es);
            assert(ts =~= seq![TokenView::OpenCurly] + (toe + seq![TokenView::CloseCurly]
                + rest));
            assert(ts[0] == TokenView::OpenCurly);
            lemma_suffix_concat(
                seq![TokenView::OpenCurly],
                toe + seq![TokenView::CloseCurly] + rest,
                1,
            );
            assert(suffix(seq![TokenView::OpenCurly], 1) =~= Seq::<TokenView>::empty());
            assert(suffix(ts, 1) =~= toe + seq![TokenView::CloseCurly] + rest);
            assert(decreases_to!(v => es));
            lemma_parse_entries_tokens(es, rest);
            assert(sp_map_entries(suffix(ts, 1)) == Ok::<
                (Seq<(Seq<char>, ValueView)>, nat),
                ParseErrorView,
            >((es, (toe.len() + 1) as nat)));
            assert(tokens_of_value(v).len() == toe.len() + 2);
        },
        ValueView::Array(items) => {
            let toi = tokens_of_items(items);
            assert(ts =~= seq![TokenView::OpenBracket] + (toi + seq![TokenView::CloseBracket]
                + rest));
            assert(ts[0] == TokenView::OpenBracket);
            assert(suffix(ts, 1) =~= toi + seq![TokenView::CloseBracket] + rest);
            assert(decreases_to!(v => items));
            lemma_parse_items_tokens(items, rest);
            assert(tokens_of_value(v).len() == toi.len() + 2);
        },
        ValueView::String(s) => {
            assert(ts[0] == TokenView::String(s));
        },
        ValueView::Number(n) => {
            assert(ts[0] == TokenView::Number(n));
        },
        ValueView::Bool(b) => {
            if b {
                assert(ts[0] == TokenView::True);
            } else {
                assert(ts[0] == TokenView::False);
            }
        },
    }
}


/// The token shape of a non-empty map body followed by its closing brace:
/// the head entry's pieces stand at known offsets.
#[verifier::rlimit(100)]
proof fn lemma_entries_shape(es: Seq<(Seq<char>, ValueView)>, rest: Seq<TokenView>)
    requires
        es.len() > 0,
    ensures
        ({
            let ts = tokens_of_entries(es) + seq![TokenView::CloseCurly] + rest;
            let tov0 = tokens_of_value(es[0].1);
            let toe_tail = tokens_of_entries(es.drop_first());
            &&& ts.len() > 0
            &&& ts[0] == TokenView::Key(es[0].0)
            &&& suffix(ts, 1) == tov0 + (seq![TokenView::Comma] + toe_tail + seq![
                TokenView::CloseCurly,
            ] + rest)
            &&& suffix(ts, 1 + tov0.len() as int) == seq![TokenView::Comma] + (toe_tail + seq![
                TokenView::CloseCurly,
            ] + rest)
            &&& suffix(ts, 2 + tov0.len() as int) == toe_tail + seq![TokenView::CloseCurly] + rest
            &&& tokens_of_entries(es).len() == 2 + tov0.len() + toe_tail.len()
        }),
{
    let ts = tokens_of_entries(es) + seq![TokenView::CloseCurly] + rest;
    let tov0 = tokens_of_value(es[0].1);
    let toe_tail = tokens_of_entries(es.drop_first());
    assert(tokens_of_entries(es) == seq![TokenView::Key(es[0].0)] + tov0 + seq![TokenView::Comma]
        + toe_tail);
    assert(suffix(ts, 1) =~= tov0 + (seq![TokenView::Comma] + toe_tail + seq![
        TokenView::CloseCurly,
    ] + rest));
    assert(suffix(ts, 1 + tov0.len() as int) =~= seq![TokenView::Comma] + (toe_tail + seq![
        TokenView::CloseCurly,
    ] + rest));
    assert(suffix(ts, 2 + tov0.len() as int) =~= toe_tail + seq![TokenView::CloseCurly] + rest);
}

/// The token shape of a non-empty array body followed by its closing
/// bracket: the head element's pieces stand at known offsets.
#[verifier::rlimit(100)]
proof fn lemma_items_shape(items: Seq<ValueView>, rest: Seq<TokenView>)
    requires
        items.len() > 0,
    ensures
        ({
            let ts = tokens_of_items(items) + seq![TokenView::CloseBracket] + rest;
            let tov0 = tokens_of_value(items[0]);
            let toi_tail = tokens_of_items(items.drop_first());
            &&& ts == tov0 + (seq![TokenView::Comma] + toi_tail + seq![TokenView::CloseBracket]
                + rest)
            &&& suffix(ts, tov0.len() as int) == seq![TokenView::Comma] + (toi_tail + seq![
                TokenView::CloseBracket,
            ] + rest)
            &&& suffix(ts, tov0.len() as int + 1) == toi_tail + seq![TokenView::CloseBracket]
                + rest
            &&& tokens_of_items(items).len() == 1 + tov0.len() + toi_tail.len()
        }),
{
    let ts = tokens_of_items(items) + seq![TokenView::CloseBracket] + rest;
    let tov0 = tokens_of_value(items[0]);
    let toi_tail = tokens_of_items(items.drop_first());
    assert(tokens_of_items(items) == tov0 + seq![TokenView::Comma] + toi_tail);
    assert(ts =~= tov0 + (seq![TokenView::Comma] + toi_tail + seq![TokenView::CloseBracket]
        + rest));
    assert(suffix(ts, tov0.len() as int) =~= seq![TokenView::Comma] + (toi_tail + seq![
        TokenView::CloseBracket,
    ] + rest));
    assert(suffix(ts, tov0.len() as int + 1) =~= toi_tail + seq![TokenView::CloseBracket] + rest);
}

/// Parsing the tokens of a well-formed map body, up to and including the
/// closing brace, yields exactly its entries, whatever tokens follow.
#[verifier::rlimit(100)]
proof fn lemma_parse_entries_tokens(es: Seq<(Seq<char>, ValueView)>, rest: Seq<TokenView>)
    requires
        wf_entries(es),
    ensures
        sp_map_entries(tokens_of_entries(es) + seq![TokenView::CloseCurly] + rest) == Ok::<
            (Seq<(Seq<char>, ValueView)>, nat),
            ParseErrorView,
        >((es, (tokens_of_entries(es).len() + 1) as nat)),
    decreases es, 1int,
{
    let toe = tokens_of_entries(es);
    let ts = toe + seq![TokenView::CloseCurly] + rest;
    if es.len() == 0 {
        assert(ts[0] == TokenView::CloseCurly);
        assert(sp_map_entries(ts) == Ok::<(Seq<(Seq<char>, ValueView)>, nat), ParseErrorView>(
            (Seq::empty(), 1),
        ));
        assert(es =~= Seq::<(Seq<char>, ValueView)>::empty());
    } else {
        let k0 = es[0].0;
        let v0 = es[0].1;
        let tail = es.drop_first();
        let tov0 = tokens_of_value(v0);
        let toe_tail = tokens_of_entries(tail);
        lemma_entries_shape(es, rest);
        assert(decreases_to!(es => es[0]));
        assert(decreases_to!(es[0] => es[0].1));
        lemma_parse_value_tokens(v0, seq![TokenView::Comma] + toe_tail + seq![
            TokenView::CloseCurly,
        ] + rest);
        assert(sp_value(suffix(ts, 1)) == Ok::<(ValueView, nat), ParseErrorView>(
            (v0, tov0.len() as nat),
        ));
        let c: int = 1 + tov0.len() as int;
        assert(sp_peek(suffix(ts, c)) == TokenView::Comma);
        assert(decreases_to!(es => es.subrange(1, es.len() as int)));
        assert(tail == es.subrange(1, es.len() as int));
        lemma_parse_entries_tokens(tail, rest);
        assert(sp_map_entries(suffix(ts, c + 1)) == Ok::<
            (Seq<(Seq<char>, ValueView)>, nat),
            ParseErrorView,
        >((tail, (toe_tail.len() + 1) as nat)));
        assert(seq![(k0, v0)] + tail =~= es);
        assert(toe.len() == 2 + tov0.len() + toe_tail.len());
    }
}

/// Parsing the tokens of a well-formed array body, up to and including the
/// closing bracket, yields exactly its elements, whatever tokens follow.
#[verifier::rlimit(100)]
proof fn lemma_parse_items_tokens(items: Seq<ValueView>, rest: Seq<TokenView>)
    requires
        wf_items(items),
    ensures
        sp_array_items(tokens_of_items(items) + seq![TokenView::CloseBracket] + rest) == Ok::<
            (Seq<ValueView>, nat),
            ParseErrorView,
        >((items, (tokens_of_items(items).len() + 1) as nat)),
    decreases items, 1int,
{
    let toi = tokens_of_items(items);
    let ts = toi + seq![TokenView::CloseBracket] + rest;
    if items.len() == 0 {
        assert(ts[0] == TokenView::CloseBracket);
        assert(items =~= Seq::<ValueView>::empty());
    } else {
        let v0 = items[0];
        let tail = items.drop_first();
        let tov0 = tokens_of_value(v0);
        let toi_tail = tokens_of_items(tail);
        lemma_items_shape(items, rest);
        let whole_rest = seq![TokenView::Comma] + toi_tail + seq![TokenView::CloseBracket] + rest;
        assert(decreases_to!(items => items[0]));
        lemma_parse_value_tokens(v0, whole_rest);
        assert(sp_value(ts) == Ok::<(ValueView, nat), ParseErrorView>((v0, tov0.len() as nat)));
        // the head token of a value is never a closing bracket nor the
        // end marker
        assert(tov0.len() > 0);
        assert(ts[0] == tov0[0]);
        match v0 {
            ValueView::Mapping(_) => assert(tov0[0] == TokenView::OpenCurly),
            ValueView::Array(_) => assert(tov0[0] == TokenView::OpenBracket),
            ValueView::String(s) => assert(tov0[0] == TokenView::String(s)),
            ValueView::Number(n) => assert(tov0[0] == TokenView::Number(n)),
            ValueView::Bool(b) => {},
        }
        assert(!(sp_peek(ts) is CloseBracket));
        assert(!(sp_peek(ts) is Eof));
        let u = tov0.len();
        assert(sp_peek(suffix(ts, u as int)) == TokenView::Comma);
        assert(decreases_to!(items => items.subrange(1, items.len() as int)));
        assert(tail == items.subrange(1, items.len() as int));
        lemma_parse_items_tokens(tail, rest);
        assert(seq![v0] + tail =~= items);
        assert(toi.len() == tov0.len() + 1 + toi_tail.len());
    }
}

/// Parsing the tokens of a well-formed document yields exactly that
/// document tree.
pub proof fn theorem_parse_tokens_round_trip(d: ValueView)
    requires
        wf_document(d),
    ensures
        sp_document(tokens_of_document(d)) == Ok::<ValueView, ParseErrorView>(d),
{
    let es = d->Mapping_0;
    let inner = es[0].1->Mapping_0;
    let toe = tokens_of_entries(inner);
    let ts = tokens_of_document(d);
    assert(ts == seq![TokenView::Key("root"@), TokenView::OpenCurly] + toe + seq![
        TokenView::CloseCurly,
        TokenView::Comma,
    ]);
    assert(ts[0] == TokenView::Key("root"@));
    assert(ts[1] == TokenView::OpenCurly);
    assert(suffix(ts, 1)[0] == TokenView::OpenCurly);
    assert(suffix(ts, 2) =~= toe + seq![TokenView::CloseCurly] + seq![TokenView::Comma]);
    lemma_parse_entries_tokens(inner, seq![TokenView::Comma]);
    assert(sp_map_entries(suffix(ts, 2)) == Ok::<
        (Seq<(Seq<char>, ValueView)>, nat),
        ParseErrorView,
    >((inner, (toe.len() + 1) as nat)));
    let c = 2 + toe.len() + 1;
    assert(suffix(ts, c as int) =~= seq![TokenView::Comma]);
    assert(sp_peek(suffix(ts, c as int)) == TokenView::Comma);
    assert(seq![("root"@, ValueView::Mapping(inner))] =~= es);
    assert(ValueView::Mapping(seq![("root"@, ValueView::Mapping(inner))]) =~~= d);
}

/// A successful parse always yields exactly one top-level map entry, and
/// its key is `root`.
pub proof fn theorem_parse_wraps_root(ts: Seq<TokenView>, v: ValueView)
    requires
        sp_document(ts) == Ok::<ValueView, ParseErrorView>(v),
    ensures
        v matches ValueView::Mapping(es) && es.len() == 1 && es[0].0 == "root"@,
{
}

/// Every counted leading character is a digit, and the one after the run,
/// if any, is not.
proof fn lemma_count_digits_chars(s: Seq<char>)
    ensures
        count_digits(s) <= s.len(),
        forall|i: int| 0 <= i < count_digits(s) ==> is_digit_char(#[trigger] s[i]),
        count_digits(s) < s.len() ==> !is_digit_char(s[count_digits(s) as int]),
    decreases s.len(),
{
    if s.len() > 0 && is_digit_char(s[0]) {
        lemma_count_digits_chars(suffix(s, 1));
        assert forall|i: int| 0 <= i < count_digits(s) implies is_digit_char(
            #[trigger] s[i],
        ) by {
            if i > 0 {
                assert(suffix(s, 1)[i - 1] == s[i]);
            }
        }
        if count_digits(s) < s.len() {
            assert(suffix(s, 1)[count_digits(s) as int - 1] == s[count_digits(s) as int]);
        }
    }
}

/// A run of digits followed by a non-digit counts exactly its length.
proof fn lemma_count_digits_concat(a: Seq<char>, b: Seq<char>)
    requires
        forall|i: int| 0 <= i < a.len() ==> is_digit_char(#[trigger] a[i]),
        b.len() > 0,
        !is_digit_char(b[0]),
    ensures
        count_digits(a + b) == a.len(),
    decreases a.len(),
{
    let s = a + b;
    if a.len() == 0 {
        assert(s =~= b);
    } else {
        assert(s[0] == a[0]);
        assert(suffix(s, 1) =~= a.drop_first() + b);
        lemma_count_digits_concat(a.drop_first(), b);
    }
}

/// A run of identifier characters followed by something else counts
/// exactly its length.
proof fn lemma_count_ident_concat(a: Seq<char>, b: Seq<char>)
    requires
        forall|i: int| 0 <= i < a.len() ==> is_ident_cont_char(#[trigger] a[i]),
        b.len() > 0,
        !is_ident_cont_char(b[0]),
    ensures
        count_ident(a + b) == a.len(),
    decreases a.len(),
{
    let s = a + b;
    if a.len() == 0 {
        assert(s =~= b);
    } else {
        assert(s[0] == a[0]);
        assert(suffix(s, 1) =~= a.drop_first() + b);
        lemma_count_ident_concat(a.drop_first(), b);
    }
}

/// Leading whitespace never changes what a scan finds.
proof fn lemma_lex_ws(ws: Seq<char>, r: Seq<char>)
    requires
        forall|i: int| 0 <= i < ws.len() ==> is_ws_char(#[trigger] ws[i]),
    ensures
        spec_lex(ws + r) == spec_lex(r),
    decreases ws.len(),
{
    let s = ws + r;
    if ws.len() == 0 {
        assert(s =~= r);
    } else {
        assert(s[0] == ws[0]);
        assert(s.len() > 0);
        assert(suffix(s, 1) =~= ws.drop_first() + r);
        lemma_lex_ws(ws.drop_first(), r);
    }
}

/// One structural character scans as its own token.
proof fn lemma_lex_punct(c: char, r: Seq<char>)
    requires
        c == '{' || c == '}' || c == '[' || c == ']' || c == ',',
    ensures
        spec_lex(seq![c] + r) == match spec_lex(r) {
            Ok(ts) => Ok::<Seq<TokenView>, LexError>(
                seq![
                    if c == '{' {
                        TokenView::OpenCurly
                    } else if c == '}' {
                        TokenView::CloseCurly
                    } else if c == '[' {
                        TokenView::OpenBracket
                    } else if c == ']' {
                        TokenView::CloseBracket
                    } else {
                        TokenView::Comma
                    },
                ] + ts,
            ),
            Err(e) => Err(e),
        },
{
    let s = seq![c] + r;
    assert(s[0] == c);
    assert(suffix(s, 1) =~= r);
}

/// An identifier followed by a delimiter scans as one keyword or key
/// token.
proof fn lemma_lex_ident(k: Seq<char>, r: Seq<char>)
    requires
        is_ident(k),
        r.len() > 0,
        !is_ident_cont_char(r[0]),
    ensures
        spec_lex(k + r) == match spec_lex(r) {
            Ok(ts) => Ok::<Seq<TokenView>, LexError>(seq![ident_token(k)] + ts),
            Err(e) => Err(e),
        },
{
    let s = k + r;
    assert(s[0] == k[0]);
    assert(is_ident_start_char(k[0]));
    assert(!is_ws_char(k[0]));
    assert(!is_digit_char(k[0]));
    assert(suffix(s, 1) =~= k.drop_first() + r);
    assert(forall|i: int|
        0 <= i < k.drop_first().len() ==> is_ident_cont_char(#[trigger] k.drop_first()[i]))
        by {
        assert forall|i: int|
            0 <= i < k.drop_first().len() implies is_ident_cont_char(
            #[trigger] k.drop_first()[i],
        ) by {
            assert(k.drop_first()[i] == suffix(k, 1)[i]);
        }
    }
    lemma_count_ident_concat(k.drop_first(), r);
    let used = 1 + count_ident(suffix(s, 1));
    assert(used == k.len());
    assert(s.subrange(0, used as int) =~= k);
    assert(suffix(s, used as int) =~= r);
}

/// The escaped text, first character first.
proof fn lemma_escape_first(s: Seq<char>)
    requires
        s.len() > 0,
    ensures
        escape_str(s) == esc1(s[0]) + escape_str(s.drop_first()),
    decreases s.len(),
{
    if s.len() == 1 {
        assert(s.drop_last() =~= Seq::<char>::empty());
        assert(s.drop_first() =~= Seq::<char>::empty());
        assert(escape_str(s) =~= esc1(s[0]) + escape_str(s.drop_first()));
    } else {
        lemma_escape_first(s.drop_last());
        assert(s.drop_last()[0] == s[0]);
        assert(s.drop_last().drop_first() =~= s.drop_first().drop_last());
        assert(s.drop_first().last() == s.last());
        assert(escape_str(s.drop_first()) == escape_str(s.drop_first().drop_last()) + esc1(
            s.last(),
        ));
        assert(esc1(s[0]) + (escape_str(s.drop_first().drop_last()) + esc1(s.last())) =~= (esc1(
            s[0],
        ) + escape_str(s.drop_first().drop_last())) + esc1(s.last()));
    }
}

/// Scanning an escaped string body up to its closing quote decodes it
/// back, whatever text follows the quote.
proof fn lemma_scan_escaped(s: Seq<char>, r: Seq<char>)
    ensures
        scan_string(escape_str(s) + seq!['"'] + r) == Ok::<
            (Seq<char>, nat),
            LexError,
        >((s, (escape_str(s).len() + 1) as nat)),
    decreases s.len(),
{
    let cs = escape_str(s) + seq!['"'] + r;
    if s.len() == 0 {
        assert(cs[0] == '"');
        assert(s =~= Seq::<char>::empty());
    } else {
        let c = s[0];
        lemma_escape_first(s);
        lemma_scan_escaped(s.drop_first(), r);
        let tail_cs = escape_str(s.drop_first()) + seq!['"'] + r;
        if c == '"' || c == '\\' || c == '\n' || c == '\t' || c == '\r' {
            assert(esc1(c).len() == 2);
            assert(cs[0] == '\\');
            let e = esc1(c)[1];
            assert(cs[1] == e);
            assert(e == '"' || e == '\\' || e == 'n' || e == 't' || e == 'r');
            let d = if e == 'n' {
                '\n'
            } else if e == 't' {
                '\t'
            } else if e == 'r' {
                '\r'
            } else {
                e
            };
            assert(d == c);
            assert(suffix(cs, 2) =~= tail_cs);
            assert(seq![d] + s.drop_first() =~= s);
        } else {
            assert(esc1(c) =~= seq![c]);
            assert(cs[0] == c);
            assert(suffix(cs, 1) =~= tail_cs);
            assert(seq![c] + s.drop_first() =~= s);
        }
    }
}

/// A quoted, escaped string scans as one string token holding the decoded
/// text.
proof fn lemma_lex_string(s: Seq<char>, r: Seq<char>)
    ensures
        spec_lex(seq!['"'] + escape_str(s) + seq!['"'] + r) == match spec_lex(r) {
            Ok(ts) => Ok::<Seq<TokenView>, LexError>(
                seq![TokenView::String(s)] + ts,
            ),
            Err(e) => Err(e),
        },
{
    let cs = seq!['"'] + escape_str(s) + seq!['"'] + r;
    assert(cs[0] == '"');
    assert(!is_ws_char('"'));
    assert(suffix(cs, 1) =~= escape_str(s) + seq!['"'] + r);
    lemma_scan_escaped(s, r);
    let used = (escape_str(s).len() + 1) as nat;
    assert(suffix(cs, 1 + used as int) =~= r);
}

/// A number's raw text followed by a comma scans as one number token.
#[verifier::rlimit(100)]
#[verifier::spinoff_prover]
proof fn lemma_lex_number(n: Seq<char>, r: Seq<char>)
    requires
        is_number_text(n),
        r.len() > 0,
        r[0] == ',',
    ensures
        spec_lex(n + r) == match spec_lex(r) {
            Ok(ts) => Ok::<Seq<TokenView>, LexError>(
                seq![TokenView::Number(n)] + ts,
            ),
            Err(e) => Err(e),
        },
{
    let cs = n + r;
    let start: int = if n[0] == '-' {
        1
    } else {
        0
    };
    let d = count_digits(suffix(n, start));
    lemma_count_digits_chars(suffix(n, start));
    assert(forall|i: int| 0 <= i < d ==> is_digit_char(#[trigger] n[start + i])) by {
        assert forall|i: int| 0 <= i < d implies is_digit_char(#[trigger] n[start + i]) by {
            assert(suffix(n, start)[i] == n[start + i]);
        }
    }
    assert(cs[0] == n[0]);
    assert(is_digit_char(n[start]));
    if n[0] == '-' {
        assert(cs[1] == n[1]);
    }
    assert(!is_ws_char(cs[0]));
    assert(cs[0] != '"');
    assert(suffix(cs, 1) =~= n.subrange(1, n.len() as int) + r);
    let body = suffix(cs, 1);
    if start + d == n.len() {
        // no fraction part: the digits run to the end of the text
        assert(n.subrange(1, n.len() as int) =~= n.subrange(1, start + d));
        assert forall|i: int| 0 <= i < n.subrange(1, start + d).len() implies is_digit_char(
            #[trigger] n.subrange(1, start + d)[i],
        ) by {
            assert(n.subrange(1, start + d)[i] == n[1 + i]);
            assert(n[start + (1 + i - start)] == n[1 + i]);
            assert(is_digit_char(n[start + (1 + i - start)]));
        }
        lemma_count_digits_concat(n.subrange(1, start + d), r);
        let dd = count_digits(body);
        assert(dd == start + d - 1);
        assert(body[dd as int] == r[0]);
        assert(body[dd as int] != '.');
        assert(number_cont_len(body) == dd);
        let used = 1 + number_cont_len(body);
        assert(used == n.len());
        assert(cs.subrange(0, used as int) =~= n);
        assert(suffix(cs, used as int) =~= r);
    } else {
        // a fraction part follows the dot
        assert(n[start + d] == '.');
        let d2 = count_digits(suffix(n, start + d + 1));
        assert(start + d + 1 + d2 == n.len());
        lemma_count_digits_chars(suffix(n, start + d + 1));
        assert(forall|i: int|
            0 <= i < d2 ==> is_digit_char(#[trigger] n[start + d + 1 + i])) by {
            assert forall|i: int| 0 <= i < d2 implies is_digit_char(
                #[trigger] n[start + d + 1 + i],
            ) by {
                assert(suffix(n, start + d + 1)[i] == n[start + d + 1 + i]);
            }
        }
        let abody = n.subrange(1, start + d);
        let bbody = n.subrange(start + d, n.len() as int) + r;
        assert(body =~= abody + bbody);
        assert(bbody[0] == '.');
        assert forall|i: int| 0 <= i < abody.len() implies is_digit_char(
            #[trigger] abody[i],
        ) by {
            assert(abody[i] == n[1 + i]);
            assert(n[start + (1 + i - start)] == n[1 + i]);
            assert(is_digit_char(n[start + (1 + i - start)]));
        }
        lemma_count_digits_concat(abody, bbody);
        let dd = count_digits(body);
        assert(dd == start + d - 1);
        assert(body[dd as int] == n[start + d]);
        assert(body[dd as int] == '.');
        assert(suffix(body, dd as int + 1) =~= n.subrange(start + d + 1, n.len() as int) + r);
        assert forall|i: int|
            0 <= i < n.subrange(start + d + 1, n.len() as int).len() implies is_digit_char(
            #[trigger] n.subrange(start + d + 1, n.len() as int)[i],
        ) by {
            assert(n.subrange(start + d + 1, n.len() as int)[i] == n[start + d + 1 + i]);
        }
        lemma_count_digits_concat(n.subrange(start + d + 1, n.len() as int), r);
        assert(count_digits(suffix(body, dd as int + 1)) == d2);
        assert(number_cont_len(body) == dd + 1 + d2);
        let used = 1 + number_cont_len(body);
        assert(used == n.len());
        assert(cs.subrange(0, used as int) =~= n);
        assert(suffix(cs, used as int) =~= r);
    }
}

/// The text `a` scans as the tokens `pre` followed by whatever the text
/// `b` scans as.
spec fn lex_cons(a: Seq<char>, pre: Seq<TokenView>, b: Seq<char>) -> bool {
    spec_lex(a) == match spec_lex(b) {
        Ok(ts) => Ok::<Seq<TokenView>, LexError>(pre + ts),
        Err(e) => Err(e),
    }
}

/// Chaining two scans chains their tokens.
proof fn lemma_lex_cons_trans(
    a: Seq<char>,
    p1: Seq<TokenView>,
    b: Seq<char>,
    p2: Seq<TokenView>,
    c: Seq<char>,
)
    requires
        lex_cons(a, p1, b),
        lex_cons(b, p2, c),
    ensures
        lex_cons(a, p1 + p2, c),
{
    match spec_lex(c) {
        Ok(ts) => {
            assert(p1 + (p2 + ts) =~= (p1 + p2) + ts);
        },
        Err(e) => {},
    }
}

/// A map body renders entry by entry, first entry first.
proof fn lemma_render_entries_first(es: Seq<(Seq<char>, ValueView)>, ind: nat)
    requires
        es.len() > 0,
    ensures
        render_entries(es, ind) == spaces(ind * 4) + es[0].0 + " "@ + render_value(
            es[0].1,
            ind,
            false,
        ) + ",\n"@ + render_entries(es.drop_first(), ind),
    decreases es.len(),
{
    if es.len() == 1 {
        assert(es.drop_last() =~= Seq::<(Seq<char>, ValueView)>::empty());
        assert(es.drop_first() =~= Seq::<(Seq<char>, ValueView)>::empty());
        assert(render_entries(es, ind) =~= spaces(ind * 4) + es[0].0 + " "@ + render_value(
            es[0].1,
            ind,
            false,
        ) + ",\n"@ + render_entries(es.drop_first(), ind));
    } else {
        lemma_render_entries_first(es.drop_last(), ind);
        assert(es.drop_last()[0] == es[0]);
        assert(es.drop_last().drop_first() =~= es.drop_first().drop_last());
        assert(es.drop_first().last() == es.last());
        assert(render_entries(es.drop_first(), ind) == render_entries(
            es.drop_first().drop_last(),
            ind,
        ) + spaces(ind * 4) + es.last().0 + " "@ + render_value(es.last().1, ind, false)
            + ",\n"@);
        assert(render_entries(es, ind) =~= spaces(ind * 4) + es[0].0 + " "@ + render_value(
            es[0].1,
            ind,
            false,
        ) + ",\n"@ + render_entries(es.drop_first(), ind));
    }
}

/// An array body renders element by element, first element first.
proof fn lemma_render_items_first(items: Seq<ValueView>, ind: nat)
    requires
        items.len() > 0,
    ensures
        render_items(items, ind) == spaces(ind * 4) + render_value(items[0], ind, false) + ",\n"@
            + render_items(items.drop_first(), ind),
    decreases items.len(),
{
    if items.len() == 1 {
        assert(items.drop_last() =~= Seq::<ValueView>::empty());
        assert(items.drop_first() =~= Seq::<ValueView>::empty());
        assert(render_items(items, ind) =~= spaces(ind * 4) + render_value(items[0], ind, false)
            + ",\n"@ + render_items(items.drop_first(), ind));
    } else {
        lemma_render_items_first(items.drop_last(), ind);
        assert(items.drop_last()[0] == items[0]);
        assert(items.drop_last().drop_first() =~= items.drop_first().drop_last());
        assert(items.drop_first().last() == items.last());
        assert(render_items(items.drop_first(), ind) == render_items(
            items.drop_first().drop_last(),
            ind,
        ) + spaces(ind * 4) + render_value(items.last(), ind, false) + ",\n"@);
        assert(render_items(items, ind) =~= spaces(ind * 4) + render_value(items[0], ind, false)
            + ",\n"@ + render_items(items.drop_first(), ind));
    }
}

/// The text `,` then a line break scans as one comma token before the
/// rest.
proof fn lemma_lex_comma_newline(t: Seq<char>)
    ensures
        lex_cons(",\n"@ + t, seq![TokenView::Comma], t),
{
    reveal_strlit(",\n");
    assert(seq!['\n'][0] == '\n');
    assert(is_ws_char('\n'));
    lemma_lex_ws(seq!['\n'], t);
    assert(seq!['\n'] + t =~= ",\n"@.drop_first() + t);
    lemma_lex_punct(',', ",\n"@.drop_first() + t);
    assert(seq![','] + (",\n"@.drop_first() + t) =~= ",\n"@ + t);
}

/// Every space is whitespace.
proof fn lemma_spaces_ws(n: nat)
    ensures
        forall|i: int| 0 <= i < spaces(n).len() ==> is_ws_char(#[trigger] spaces(n)[i]),
{
    assert forall|i: int| 0 <= i < spaces(n).len() implies is_ws_char(
        #[trigger] spaces(n)[i],
    ) by {
        assert(spaces(n)[i] == ' ');
    }
}

/// The three identifiers the grammar treats specially.
proof fn lemma_keyword_idents()
    ensures
        is_ident("true"@),
        is_ident("false"@),
        is_ident("root"@),
        ident_token("true"@) == TokenView::True,
        ident_token("false"@) == TokenView::False,
        ident_token("root"@) == TokenView::Key("root"@),
{
    reveal_strlit("true");
    reveal_strlit("false");
    reveal_strlit("root");
    assert(is_ident("true"@)) by {
        assert forall|i: int| 0 <= i < suffix("true"@, 1).len() implies is_ident_cont_char(
            #[trigger] suffix("true"@, 1)[i],
        ) by {
            assert(suffix("true"@, 1)[i] == "true"@[i + 1]);
        }
    }
    assert(is_ident("false"@)) by {
        assert forall|i: int| 0 <= i < suffix("false"@, 1).len() implies is_ident_cont_char(
            #[trigger] suffix("false"@, 1)[i],
        ) by {
            assert(suffix("false"@, 1)[i] == "false"@[i + 1]);
        }
    }
    assert(is_ident("root"@)) by {
        assert forall|i: int| 0 <= i < suffix("root"@, 1).len() implies is_ident_cont_char(
            #[trigger] suffix("root"@, 1)[i],
        ) by {
            assert(suffix("root"@, 1)[i] == "root"@[i + 1]);
        }
    }
    assert("root"@[0] != "true"@[0]);
    assert("root"@.len() != "false"@.len());
}

/// The rendered text of one well-formed value, followed by a comma, scans
/// as exactly its tokens.
#[verifier::rlimit(100)]
proof fn lemma_lex_render_value(v: ValueView, ind: nat, r: Seq<char>)
    requires
        wf_value(v),
        r.len() > 0,
        r[0] == ',',
    ensures
        lex_cons(render_value(v, ind, false) + r, tokens_of_value(v), r),
    decreases v, 0int,
{
    match v {
        ValueView::Mapping(es) => {
            reveal_strlit("{\n");
            reveal_strlit("}");
            let body = render_entries(es, (ind + 1) as nat);
            let close_text = "}"@ + r;
            lemma_lex_punct('}', r);
            assert(seq!['}'] + r =~= close_text);
            assert(lex_cons(close_text, seq![TokenView::CloseCurly], r));
            let closing = spaces(ind * 4) + close_text;
            lemma_spaces_ws(ind * 4);
            lemma_lex_ws(spaces(ind * 4), close_text);
            assert(lex_cons(closing, seq![TokenView::CloseCurly], r));
            assert(decreases_to!(v => es));
            lemma_lex_render_entries(es, (ind + 1) as nat, closing);
            lemma_lex_cons_trans(
                body + closing,
                tokens_of_entries(es),
                closing,
                seq![TokenView::CloseCurly],
                r,
            );
            let bc = body + closing;
            lemma_lex_ws(seq!['\n'], bc);
            assert(seq!['\n'][0] == '\n');
            lemma_lex_punct('{', seq!['\n'] + bc);
            assert(lex_cons(
                seq!['{'] + (seq!['\n'] + bc),
                seq![TokenView::OpenCurly],
                seq!['\n'] + bc,
            ));
            assert(spec_lex(seq!['\n'] + bc) == spec_lex(bc));
            assert(lex_cons(seq!['{'] + (seq!['\n'] + bc), seq![TokenView::OpenCurly], bc));
            lemma_lex_cons_trans(
                seq!['{'] + (seq!['\n'] + bc),
                seq![TokenView::OpenCurly],
                bc,
                tokens_of_entries(es) + seq![TokenView::CloseCurly],
                r,
            );
            assert(render_value(v, ind, false) + r =~= seq!['{'] + (seq!['\n'] + bc));
            assert(tokens_of_value(v) =~= seq![TokenView::OpenCurly] + (tokens_of_entries(es)
                + seq![TokenView::CloseCurly]));
        },
        ValueView::Array(items) => {
            reveal_strlit("[\n");
            reveal_strlit("]");
            let body = render_items(items, (ind + 1) as nat);
            let close_text = "]"@ + r;
            lemma_lex_punct(']', r);
            assert(seq![']'] + r =~= close_text);
            assert(lex_cons(close_text, seq![TokenView::CloseBracket], r));
            let closing = spaces(ind * 4) + close_text;
            lemma_spaces_ws(ind * 4);
            lemma_lex_ws(spaces(ind * 4), close_text);
            assert(lex_cons(closing, seq![TokenView::CloseBracket], r));
            assert(decreases_to!(v => items));
            lemma_lex_render_items(items, (ind + 1) as nat, closing);
            lemma_lex_cons_trans(
                body + closing,
                tokens_of_items(items),
                closing,
                seq![TokenView::CloseBracket],
                r,
            );
            let bc = body + closing;
            lemma_lex_ws(seq!['\n'], bc);
            assert(seq!['\n'][0] == '\n');
            lemma_lex_punct('[', seq!['\n'] + bc);
            assert(lex_cons(
                seq!['['] + (seq!['\n'] + bc),
                seq![TokenView::OpenBracket],
                seq!['\n'] + bc,
            ));
            assert(spec_lex(seq!['\n'] + bc) == spec_lex(bc));
            assert(lex_cons(seq!['['] + (seq!['\n'] + bc), seq![TokenView::OpenBracket], bc));
            lemma_lex_cons_trans(
                seq!['['] + (seq!['\n'] + bc),
                seq![TokenView::OpenBracket],
                bc,
                tokens_of_items(items) + seq![TokenView::CloseBracket],
                r,
            );
            assert(render_value(v, ind, false) + r =~= seq!['['] + (seq!['\n'] + bc));
            assert(tokens_of_value(v) =~= seq![TokenView::OpenBracket] + (tokens_of_items(items)
                + seq![TokenView::CloseBracket]));
        },
        ValueView::String(s) => {
            reveal_strlit("\"");
            lemma_lex_string(s, r);
            assert(render_value(v, ind, false) + r =~= seq!['"'] + escape_str(s) + seq!['"'] + r);
        },
        ValueView::Number(n) => {
            lemma_lex_number(n, r);
        },
        ValueView::Bool(b) => {
            lemma_keyword_idents();
            if b {
                assert(!is_ident_cont_char(r[0]));
                lemma_lex_ident("true"@, r);
            } else {
                assert(!is_ident_cont_char(r[0]));
                lemma_lex_ident("false"@, r);
            }
        },
    }
}

/// The rendered text of a well-formed map body scans as exactly its
/// tokens, whatever text follows.
#[verifier::rlimit(100)]
proof fn lemma_lex_render_entries(es: Seq<(Seq<char>, ValueView)>, ind: nat, t: Seq<char>)
    requires
        wf_entries(es),
    ensures
        lex_cons(render_entries(es, ind) + t, tokens_of_entries(es), t),
    decreases es, 1int,
{
    if es.len() == 0 {
        assert(render_entries(es, ind) + t =~= t);
        match spec_lex(t) {
            Ok(ts) => {
                assert(Seq::<TokenView>::empty() + ts =~= ts);
            },
            Err(e) => {},
        }
    } else {
        reveal_strlit(" ");
        reveal_strlit(",\n");
        let k = es[0].0;
        let v0 = es[0].1;
        let tail = es.drop_first();
        let tov0 = tokens_of_value(v0);
        let toe_tail = tokens_of_entries(tail);
        assert(decreases_to!(es => es.subrange(1, es.len() as int)));
        assert(tail == es.subrange(1, es.len() as int));
        lemma_lex_render_entries(tail, ind, t);
        let t5 = render_entries(tail, ind) + t;
        let t4 = ",\n"@ + t5;
        lemma_lex_comma_newline(t5);
        lemma_lex_cons_trans(t4, seq![TokenView::Comma], t5, toe_tail, t);
        assert(t4[0] == ',');
        assert(decreases_to!(es => es[0]));
        assert(decreases_to!(es[0] => es[0].1));
        lemma_lex_render_value(v0, ind, t4);
        let t3 = render_value(v0, ind, false) + t4;
        lemma_lex_cons_trans(t3, tov0, t4, seq![TokenView::Comma] + toe_tail, t);
        let t2 = " "@ + t3;
        assert(" "@ =~= seq![' ']);
        assert(seq![' '][0] == ' ');
        lemma_lex_ws(" "@, t3);
        assert(lex_cons(t2, tov0 + (seq![TokenView::Comma] + toe_tail), t));
        assert(!is_ident_cont_char(t2[0]));
        lemma_lex_ident(k, t2);
        assert(ident_token(k) == TokenView::Key(k));
        let t1 = k + t2;
        lemma_lex_cons_trans(
            t1,
            seq![TokenView::Key(k)],
            t2,
            tov0 + (seq![TokenView::Comma] + toe_tail),
            t,
        );
        let t0 = spaces(ind * 4) + t1;
        lemma_spaces_ws(ind * 4);
        lemma_lex_ws(spaces(ind * 4), t1);
        assert(lex_cons(
            t0,
            seq![TokenView::Key(k)] + (tov0 + (seq![TokenView::Comma] + toe_tail)),
            t,
        ));
        lemma_render_entries_first(es, ind);
        assert(render_entries(es, ind) + t =~= t0);
        assert(tokens_of_entries(es) =~= seq![TokenView::Key(k)] + (tov0 + (seq![
            TokenView::Comma,
        ] + toe_tail)));
    }
}

/// The rendered text of a well-formed array body scans as exactly its
/// tokens, whatever text follows.
#[verifier::rlimit(100)]
proof fn lemma_lex_render_items(items: Seq<ValueView>, ind: nat, t: Seq<char>)
    requires
        wf_items(items),
    ensures
        lex_cons(render_items(items, ind) + t, tokens_of_items(items), t),
    decreases items, 1int,
{
    if items.len() == 0 {
        assert(render_items(items, ind) + t =~= t);
        match spec_lex(t) {
            Ok(ts) => {
                assert(Seq::<TokenView>::empty() + ts =~= ts);
            },
            Err(e) => {},
        }
    } else {
        reveal_strlit(",\n");
        let v0 = items[0];
        let tail = items.drop_first();
        let tov0 = tokens_of_value(v0);
        let toi_tail = tokens_of_items(tail);
        assert(decreases_to!(items => items.subrange(1, items.len() as int)));
        assert(tail == items.subrange(1, items.len() as int));
        lemma_lex_render_items(tail, ind, t);
        let t5 = render_items(tail, ind) + t;
        let t4 = ",\n"@ + t5;
        lemma_lex_comma_newline(t5);
        lemma_lex_cons_trans(t4, seq![TokenView::Comma], t5, toi_tail, t);
        assert(t4[0] == ',');
        assert(decreases_to!(items => items[0]));
        lemma_lex_render_value(v0, ind, t4);
        let t3 = render_value(v0, ind, false) + t4;
        lemma_lex_cons_trans(t3, tov0, t4, seq![TokenView::Comma] + toi_tail, t);
        let t0 = spaces(ind * 4) + t3;
        lemma_spaces_ws(ind * 4);
        lemma_lex_ws(spaces(ind * 4), t3);
        assert(lex_cons(t0, tov0 + (seq![TokenView::Comma] + toi_tail), t));
        lemma_render_items_first(items, ind);
        assert(render_items(items, ind) + t =~= t0);
        assert(tokens_of_items(items) =~= tov0 + (seq![TokenView::Comma] + toi_tail));
    }
}

/// Scanning the rendered text of a well-formed document yields exactly its
/// token sequence.
#[verifier::rlimit(100)]
pub proof fn theorem_lex_render_document(d: ValueView)
    requires
        wf_document(d),
    ensures
        spec_lex(render_document(d)) == Ok::<Seq<TokenView>, LexError>(
            tokens_of_document(d),
        ),
{
    reveal_strlit("root {\n");
    reveal_strlit("root");
    reveal_strlit("}");
    reveal_strlit(",\n");
    let es = d->Mapping_0;
    let inner = es[0].1->Mapping_0;
    let body = render_entries(inner, 1);
    let toe = tokens_of_entries(inner);
    lemma_keyword_idents();

    // the closing text: the brace, the document comma, nothing more
    let t_end = Seq::<char>::empty();
    assert(spec_lex(t_end) == Ok::<Seq<TokenView>, LexError>(Seq::empty()));
    let t_comma = ",\n"@ + t_end;
    lemma_lex_comma_newline(t_end);
    assert(spec_lex(t_comma) == Ok::<Seq<TokenView>, LexError>(
        seq![TokenView::Comma] + Seq::<TokenView>::empty(),
    ));
    let t_close = "}"@ + t_comma;
    lemma_lex_punct('}', t_comma);
    assert(seq!['}'] + t_comma =~= t_close);
    assert(spec_lex(t_close) == Ok::<Seq<TokenView>, LexError>(
        seq![TokenView::CloseCurly] + (seq![TokenView::Comma] + Seq::<TokenView>::empty()),
    ));
    assert(seq![TokenView::CloseCurly] + (seq![TokenView::Comma] + Seq::<TokenView>::empty())
        =~= seq![TokenView::CloseCurly, TokenView::Comma]);

    // the body scans as its tokens before the closing text
    lemma_lex_render_entries(inner, 1, t_close);
    assert(spec_lex(body + t_close) == Ok::<Seq<TokenView>, LexError>(
        toe + seq![TokenView::CloseCurly, TokenView::Comma],
    ));

    // the opening text: the root key, a space, the brace, a line break
    let t_open_rest = body + t_close;
    lemma_lex_ws(seq!['\n'], t_open_rest);
    assert(seq!['\n'][0] == '\n');
    lemma_lex_punct('{', seq!['\n'] + t_open_rest);
    assert(spec_lex(seq!['{'] + (seq!['\n'] + t_open_rest)) == Ok::<
        Seq<TokenView>,
        LexError,
    >(seq![TokenView::OpenCurly] + (toe + seq![TokenView::CloseCurly, TokenView::Comma])));
    let t_brace = seq!['{'] + (seq!['\n'] + t_open_rest);
    lemma_lex_ws(seq![' '], t_brace);
    assert(seq![' '][0] == ' ');
    assert(!is_ident_cont_char((seq![' '] + t_brace)[0]));
    lemma_lex_ident("root"@, seq![' '] + t_brace);
    assert(spec_lex("root"@ + (seq![' '] + t_brace)) == Ok::<
        Seq<TokenView>,
        LexError,
    >(seq![TokenView::Key("root"@)] + (seq![TokenView::OpenCurly] + (toe + seq![
        TokenView::CloseCurly,
        TokenView::Comma,
    ]))));

    assert(render_document(d) =~= "root"@ + (seq![' '] + t_brace));
    assert(tokens_of_document(d) =~= seq![TokenView::Key("root"@)] + (seq![TokenView::OpenCurly]
        + (toe + seq![TokenView::CloseCurly, TokenView::Comma])));
}

/// The whole round trip: the rendered text of a well-formed document
/// scans to its token sequence, and parsing that sequence yields the
/// document back.
pub proof fn theorem_render_parse_round_trip(d: ValueView)
    requires
        wf_document(d),
    ensures
        spec_lex(render_document(d)) == Ok::<Seq<TokenView>, LexError>(
            tokens_of_document(d),
        ),
        sp_document(tokens_of_document(d)) == Ok::<ValueView, ParseErrorView>(d),
{
    theorem_lex_render_document(d);
    theorem_parse_tokens_round_trip(d);
}

/// A rendered document opens with the `root` key and its brace and closes
/// with the brace and the final comma; together with the round trip, the
/// wrapper stands exactly once.
pub proof fn theorem_render_wraps_once(d: ValueView)
    requires
        wf_document(d),
    ensures
        ({
            let ts = tokens_of_document(d);
            &&& ts.len() >= 4
            &&& ts[0] == TokenView::Key("root"@)
            &&& ts[1] == TokenView::OpenCurly
            &&& ts[ts.len() - 2] == TokenView::CloseCurly
            &&& ts.last() == TokenView::Comma
        }),
{
}

} // verus!
