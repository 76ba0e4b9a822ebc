//! The renderer: turns data into formatted text with four-space
//! indentation, emitting the `root { ... },` wrapper exactly once, for the
//! first record-shaped aggregate at the top level.
//!
//! [`render_value`] is the authoritative statement of the text produced
//! for a tree value; [`to_text`] is the verified renderer for whole trees,
//! and the [`Serializer`] methods are the building blocks a generic
//! binding adapter drives one write-event at a time.

use crate::ast::{entries_view, lemma_entries_view, value_view, Value, ValueView};
use crate::ast::{items_view, lemma_items_view};
use crate::text::{push_char, string_to_chars, suffix};
use vstd::prelude::*;

verus! {

/// The escaped form of one string character: `"`, `\`, newline, tab and
/// carriage return take their two-character escape; all else passes
/// through.
pub open spec fn esc1(c: char) -> Seq<char> {
    if c == '"' {
        seq!['\\', '"']
    } else if c == '\\' {
        seq!['\\', '\\']
    } else if c == '\n' {
        seq!['\\', 'n']
    } else if c == '\t' {
        seq!['\\', 't']
    } else if c == '\r' {
        seq!['\\', 'r']
    } else {
        seq![c]
    }
}

/// The escaped form of a whole string body.
pub open spec fn escape_str(s: Seq<char>) -> Seq<char>
    decreases s.len(),
{
    if s.len() == 0 {
        Seq::empty()
    } else {
        escape_str(s.drop_last()) + esc1(s.last())
    }
}

/// `n` spaces.
pub open spec fn spaces(n: nat) -> Seq<char> {
    Seq::new(n, |i: int| ' ')
}

/// Whether `v` is the record shape that takes the named-root wrapper: a
/// one-entry map keyed `root` whose payload is itself a map.
pub open spec fn is_root_struct(v: ValueView) -> bool {
    match v {
        ValueView::Mapping(es) => es.len() == 1 && es[0].0 == "root"@ && es[0].1 is Mapping,
        _ => false,
    }
}

/// The rendered text of a value at indentation level `ind`; `top` is
/// whether this is the outermost aggregate, which alone may take the
/// named-root wrapper.
pub open spec fn render_value(v: ValueView, ind: nat, top: bool) -> Seq<char>
    decreases v, 0int,
    via render_value_decreases
{
    match v {
        ValueView::Mapping(es) => {
            if es.len() == 1 && es[0].0 == "root"@ {
                if es[0].1 is Mapping {
                    let inner = es[0].1->Mapping_0;
                    if top {
                        "root {\n"@ + render_entries(inner, 1) + "}"@ + ",\n"@
                    } else {
                        "{\n"@ + render_entries(inner, (ind + 1) as nat) + spaces(ind * 4) + "}"@
                    }
                } else {
                    render_value(es[0].1, ind, top)
                }
            } else {
                "{\n"@ + render_entries(es, (ind + 1) as nat) + spaces(ind * 4) + "}"@
            }
        },
        ValueView::Array(items) => "[\n"@ + render_items(items, (ind + 1) as nat) + spaces(
            ind * 4,
        ) + "]"@,
        ValueView::String(s) => "\""@ + escape_str(s) + "\""@,
        ValueView::Number(n) => n,
        ValueView::Bool(b) => if b {
            "true"@
        } else {
            "false"@
        },
    }
}

/// The rendered text of a map body: each entry on its own indented line as
/// `key value,`.
pub open spec fn render_entries(es: Seq<(Seq<char>, ValueView)>, ind: nat) -> Seq<char>
    decreases es, 1int,
    via render_entries_decreases
{
    if es.len() == 0 {
        Seq::empty()
    } else {
        render_entries(es.drop_last(), ind) + spaces(ind * 4) + es.last().0 + " "@ + render_value(
            es.last().1,
            ind,
            false,
        ) + ",\n"@
    }
}

/// The rendered text of an array body: each element on its own indented
/// line, comma-terminated.
pub open spec fn render_items(items: Seq<ValueView>, ind: nat) -> Seq<char>
    decreases items, 1int,
    via render_items_decreases
{
    if items.len() == 0 {
        Seq::empty()
    } else {
        render_items(items.drop_last(), ind) + spaces(ind * 4) + render_value(
            items.last(),
            ind,
            false,
        ) + ",\n"@
    }
}

#[via_fn]
proof fn render_value_decreases(v: ValueView, ind: nat, top: bool) {
    match v {
        ValueView::Mapping(es) => {
            if es.len() == 1 && es[0].0 == "root"@ && es[0].1 is Mapping {
                assert(decreases_to!(v => es));
                assert(decreases_to!(es => es[0]));
                assert(decreases_to!(es[0] => es[0].1));
                assert(decreases_to!(es[0].1 => es[0].1->Mapping_0));
            } else if es.len() == 1 && es[0].0 == "root"@ {
                assert(decreases_to!(v => es));
                assert(decreases_to!(es => es[0]));
                assert(decreases_to!(es[0] => es[0].1));
            } else {
                assert(decreases_to!(v => es));
            }
        },
        ValueView::Array(items) => {
            assert(decreases_to!(v => items));
        },
        _ => {},
    }
}

#[via_fn]
proof fn render_entries_decreases(es: Seq<(Seq<char>, ValueView)>, ind: nat) {
    if es.len() > 0 {
        assert(decreases_to!(es => es.last()));
        assert(decreases_to!(es.last() => es.last().1));
    }
}

#[via_fn]
proof fn render_items_decreases(items: Seq<ValueView>, ind: nat) {
    if items.len() > 0 {
        assert(decreases_to!(items => items.last()));
    }
}

/// The rendered text of a whole tree: the outermost render, at
/// indentation level zero.
pub open spec fn render_document(v: ValueView) -> Seq<char> {
    render_value(v, 0, true)
}

/// The running state of a render: the output buffer, the current
/// indentation depth, the indent width (four spaces per level), and the
/// two flags that award the named-root wrapper to the first record-shaped
/// aggregate at the top level, and to it alone.
pub struct Serializer {
    pub output: String,
    pub current_indent: usize,
    pub indent_size: usize,
    pub is_top_level: bool,
    pub has_root_wrapper: bool,
}

impl Serializer {
    /// A fresh render state: empty output, no indentation, at top level,
    /// no wrapper emitted yet.
    pub fn new() -> (r: Serializer)
        ensures
            r.output@ == Seq::<char>::empty(),
            r.current_indent == 0,
            r.indent_size == 4,
            r.is_top_level == true,
            r.has_root_wrapper == false,
    {
        Serializer {
            output: String::new(),
            current_indent: 0,
            indent_size: 4,
            is_top_level: true,
            has_root_wrapper: false,
        }
    }

    /// Gives up the state and hands out the rendered text.
    pub fn finish(self) -> (r: String)
        ensures
            r@ == self.output@,
    {
        self.output
    }

    /// Writes the spaces for the current indentation depth.
    pub fn write_indent(&mut self)
        requires
            old(self).current_indent * old(self).indent_size <= usize::MAX,
        ensures
            final(self).output@ == old(self).output@ + spaces(
                (old(self).current_indent * old(self).indent_size) as nat,
            ),
            final(self).current_indent == old(self).current_indent,
            final(self).indent_size == old(self).indent_size,
            final(self).is_top_level == old(self).is_top_level,
            final(self).has_root_wrapper == old(self).has_root_wrapper,
    {
        let ghost o0 = self.output@;
        let total: usize = self.current_indent * self.indent_size;
        let mut k: usize = 0;
        while k < total
            invariant
                k <= total,
                self.output@ == o0 + spaces(k as nat),
                self.current_indent == old(self).current_indent,
                self.indent_size == old(self).indent_size,
                self.is_top_level == old(self).is_top_level,
                self.has_root_wrapper == old(self).has_root_wrapper,
            decreases total - k,
        {
            push_char(&mut self.output, ' ');
            proof {
                assert(o0 + spaces((k + 1) as nat) =~= (o0 + spaces(k as nat)).push(' '));
            }
            k += 1;
        }
    }

    /// Writes `s` as it stands.
    pub fn write_raw(&mut self, s: &str)
        ensures
            final(self).output@ == old(self).output@ + s@,
            final(self).current_indent == old(self).current_indent,
            final(self).indent_size == old(self).indent_size,
            final(self).is_top_level == old(self).is_top_level,
            final(self).has_root_wrapper == old(self).has_root_wrapper,
    {
        self.output.append(s);
    }

    /// Writes `true` or `false`.
    pub fn write_bool(&mut self, v: bool)
        ensures
            final(self).output@ == old(self).output@ + (if v {
                "true"@
            } else {
                "false"@
            }),
            final(self).current_indent == old(self).current_indent,
            final(self).indent_size == old(self).indent_size,
            final(self).is_top_level == old(self).is_top_level,
            final(self).has_root_wrapper == old(self).has_root_wrapper,
    {
        if v {
            self.output.append("true");
        } else {
            self.output.append("false");
        }
    }

    /// Writes `s` as a quoted string literal, re-escaping `"`, `\`,
    /// newline, tab and carriage return.
    pub fn write_escaped_str(&mut self, s: &str)
        ensures
            final(self).output@ == old(self).output@ + "\""@ + escape_str(s@) + "\""@,
            final(self).current_indent == old(self).current_indent,
            final(self).indent_size == old(self).indent_size,
            final(self).is_top_level == old(self).is_top_level,
            final(self).has_root_wrapper == old(self).has_root_wrapper,
    {
        let ghost o0 = self.output@;
        self.output.append("\"");
        let chars = string_to_chars(s);
        let mut i: usize = 0;
        while i < chars.len()
            invariant
                i <= chars.len(),
                chars@ == s@,
                self.output@ == o0 + "\""@ + escape_str(s@.subrange(0, i as int)),
                self.current_indent == old(self).current_indent,
                self.indent_size == old(self).indent_size,
                self.is_top_level == old(self).is_top_level,
                self.has_root_wrapper == old(self).has_root_wrapper,
            decreases chars.len() - i,
        {
            let c = chars[i];
            let ghost pre = s@.subrange(0, i as int);
            if c == '"' {
                self.output.append("\\\"");
            } else if c == '\\' {
                self.output.append("\\\\");
            } else if c == '\n' {
                self.output.append("\\n");
            } else if c == '\t' {
                self.output.append("\\t");
            } else if c == '\r' {
                self.output.append("\\r");
            } else {
                push_char(&mut self.output, c);
            }
            proof {
                reveal_strlit("\\\"");
                reveal_strlit("\\\\");
                reveal_strlit("\\n");
                reveal_strlit("\\t");
                reveal_strlit("\\r");
                let pre1 = s@.subrange(0, i + 1);
                assert(pre1.drop_last() =~= pre);
                assert(pre1.last() == c);
                assert(escape_str(pre1) == escape_str(pre) + esc1(c));
                assert(self.output@ =~= o0 + "\""@ + escape_str(pre1));
            }
            i += 1;
        }
        proof {
            assert(s@.subrange(0, s@.len() as int) =~= s@);
        }
        self.output.append("\"");
        proof {
            assert(final(self).output@ =~= o0 + "\""@ + escape_str(s@) + "\""@);
        }
    }

    /// Opens an array: the bracket, a newline, one more level of
    /// indentation.
    pub fn begin_seq(&mut self)
        requires
            old(self).current_indent < usize::MAX,
        ensures
            final(self).output@ == old(self).output@ + "[\n"@,
            final(self).current_indent == old(self).current_indent + 1,
            final(self).indent_size == old(self).indent_size,
            final(self).is_top_level == old(self).is_top_level,
            final(self).has_root_wrapper == old(self).has_root_wrapper,
    {
        self.output.append("[\n");
        self.current_indent += 1;
    }

    /// Closes an array: one level less of indentation, the indent, the
    /// bracket.
    pub fn end_seq(&mut self)
        requires
            old(self).current_indent >= 1,
            (old(self).current_indent - 1) * old(self).indent_size <= usize::MAX,
        ensures
            final(self).output@ == old(self).output@ + spaces(
                ((old(self).current_indent - 1) * old(self).indent_size) as nat,
            ) + "]"@,
            final(self).current_indent == old(self).current_indent - 1,
            final(self).indent_size == old(self).indent_size,
            final(self).is_top_level == old(self).is_top_level,
            final(self).has_root_wrapper == old(self).has_root_wrapper,
    {
        self.current_indent -= 1;
        self.write_indent();
        self.output.append("]");
    }

    /// Opens a map: the brace, a newline, one more level of indentation.
    pub fn begin_map(&mut self)
        requires
            old(self).current_indent < usize::MAX,
        ensures
            final(self).output@ == old(self).output@ + "{\n"@,
            final(self).current_indent == old(self).current_indent + 1,
            final(self).indent_size == old(self).indent_size,
            final(self).is_top_level == old(self).is_top_level,
            final(self).has_root_wrapper == old(self).has_root_wrapper,
    {
        self.output.append("{\n");
        self.current_indent += 1;
    }

    /// Closes a map: one level less of indentation, the indent, the brace.
    pub fn end_map(&mut self)
        requires
            old(self).current_indent >= 1,
            (old(self).current_indent - 1) * old(self).indent_size <= usize::MAX,
        ensures
            final(self).output@ == old(self).output@ + spaces(
                ((old(self).current_indent - 1) * old(self).indent_size) as nat,
            ) + "}"@,
            final(self).current_indent == old(self).current_indent - 1,
            final(self).indent_size == old(self).indent_size,
            final(self).is_top_level == old(self).is_top_level,
            final(self).has_root_wrapper == old(self).has_root_wrapper,
    {
        self.current_indent -= 1;
        self.write_indent();
        self.output.append("}");
    }

    /// Opens a record: at the top level, before any other wrapper, it is
    /// the named-root wrapper at depth one; anywhere else it is an
    /// ordinary brace.
    pub fn begin_struct(&mut self)
        requires
            old(self).current_indent < usize::MAX,
        ensures
            final(self).indent_size == old(self).indent_size,
            final(self).is_top_level == old(self).is_top_level,
            if old(self).is_top_level && !old(self).has_root_wrapper {
                final(self).output@ == old(self).output@ + "root {\n"@ && final(self).current_indent
                    == 1 && final(self).has_root_wrapper == true
            } else {
                final(self).output@ == old(self).output@ + "{\n"@ && final(self).current_indent
                    == old(self).current_indent + 1 && final(self).has_root_wrapper == old(
                    self,
                ).has_root_wrapper
            },
    {
        if self.is_top_level && !self.has_root_wrapper {
            self.output.append("root {\n");
            self.current_indent = 1;
            self.has_root_wrapper = true;
        } else {
            self.output.append("{\n");
            self.current_indent += 1;
        }
    }

    /// Closes a record: one level less of indentation, the indent, the
    /// brace, and at the top level the document's final comma.
    pub fn end_struct(&mut self)
        requires
            old(self).current_indent >= 1,
            (old(self).current_indent - 1) * old(self).indent_size <= usize::MAX,
        ensures
            final(self).output@ == old(self).output@ + spaces(
                ((old(self).current_indent - 1) * old(self).indent_size) as nat,
            ) + "}"@ + (if old(self).is_top_level {
                ",\n"@
            } else {
                Seq::<char>::empty()
            }),
            final(self).current_indent == old(self).current_indent - 1,
            final(self).indent_size == old(self).indent_size,
            final(self).is_top_level == old(self).is_top_level,
            final(self).has_root_wrapper == old(self).has_root_wrapper,
    {
        self.current_indent -= 1;
        self.write_indent();
        self.output.append("}");
        if self.is_top_level {
            self.output.append(",\n");
        }
        proof {
            if !old(self).is_top_level {
                assert(final(self).output@ =~= old(self).output@ + spaces(
                    ((old(self).current_indent - 1) * old(self).indent_size) as nat,
                ) + "}"@ + Seq::<char>::empty());
            }
        }
    }

    /// Writes the indent and a key followed by one space, readying the
    /// entry's value.
    pub fn write_key(&mut self, key: &str)
        requires
            old(self).current_indent * old(self).indent_size <= usize::MAX,
        ensures
            final(self).output@ == old(self).output@ + spaces(
                (old(self).current_indent * old(self).indent_size) as nat,
            ) + key@ + " "@,
            final(self).current_indent == old(self).current_indent,
            final(self).indent_size == old(self).indent_size,
            final(self).is_top_level == old(self).is_top_level,
            final(self).has_root_wrapper == old(self).has_root_wrapper,
    {
        self.write_indent();
        self.output.append(key);
        self.output.append(" ");
    }

    /// Steps into a child value, which is never at the top level; hands
    /// back the flag to restore afterwards.
    pub fn enter_value(&mut self) -> (was: bool)
        ensures
            was == old(self).is_top_level,
            final(self).is_top_level == false,
            final(self).output@ == old(self).output@,
            final(self).current_indent == old(self).current_indent,
            final(self).indent_size == old(self).indent_size,
            final(self).has_root_wrapper == old(self).has_root_wrapper,
    {
        let was = self.is_top_level;
        self.is_top_level = false;
        was
    }

    /// Steps back out of a child value, restoring the top-level flag.
    pub fn leave_value(&mut self, was: bool)
        ensures
            final(self).is_top_level == was,
            final(self).output@ == old(self).output@,
            final(self).current_indent == old(self).current_indent,
            final(self).indent_size == old(self).indent_size,
            final(self).has_root_wrapper == old(self).has_root_wrapper,
    {
        self.is_top_level = was;
    }
}

/// The nesting depth of a value: how many aggregate levels stand below it.
pub open spec fn vdepth(v: ValueView) -> nat
    decreases v, 0int,
    via vdepth_decreases
{
    match v {
        ValueView::Mapping(es) => 1 + entries_vdepth(es),
        ValueView::Array(items) => 1 + items_vdepth(items),
        _ => 0,
    }
}

/// The greatest nesting depth among a map body's values.
pub open spec fn entries_vdepth(es: Seq<(Seq<char>, ValueView)>) -> nat
    decreases es, 1int,
    via entries_vdepth_decreases
{
    if es.len() == 0 {
        0
    } else {
        let a = entries_vdepth(es.drop_last());
        let b = vdepth(es.last().1);
        if a > b {
            a
        } else {
            b
        }
    }
}

/// The greatest nesting depth among an array body's elements.
pub open spec fn items_vdepth(items: Seq<ValueView>) -> nat
    decreases items, 1int,
    via items_vdepth_decreases
{
    if items.len() == 0 {
        0
    } else {
        let a = items_vdepth(items.drop_last());
        let b = vdepth(items.last());
        if a > b {
            a
        } else {
            b
        }
    }
}

#[via_fn]
proof fn vdepth_decreases(v: ValueView) {
    match v {
        ValueView::Mapping(es) => {
            assert(decreases_to!(v => es));
        },
        ValueView::Array(items) => {
            assert(decreases_to!(v => items));
        },
        _ => {},
    }
}

#[via_fn]
proof fn entries_vdepth_decreases(es: Seq<(Seq<char>, ValueView)>) {
    if es.len() > 0 {
        assert(decreases_to!(es => es.last()));
        assert(decreases_to!(es.last() => es.last().1));
    }
}

#[via_fn]
proof fn items_vdepth_decreases(items: Seq<ValueView>) {
    if items.len() > 0 {
        assert(decreases_to!(items => items.last()));
    }
}

/// No value in a map body stands deeper than the body's depth.
proof fn lemma_entries_vdepth(es: Seq<(Seq<char>, ValueView)>)
    ensures
        forall|i: int| 0 <= i < es.len() ==> vdepth(#[trigger] es[i].1) <= entries_vdepth(es),
    decreases es.len(),
{
    if es.len() > 0 {
        lemma_entries_vdepth(es.drop_last());
        assert forall|i: int| 0 <= i < es.len() implies vdepth(#[trigger] es[i].1)
            <= entries_vdepth(es) by {
            if i < es.len() - 1 {
                assert(es.drop_last()[i] == es[i]);
            }
        }
    }
}

/// No element of an array body stands deeper than the body's depth.
proof fn lemma_items_vdepth(items: Seq<ValueView>)
    ensures
        forall|i: int| 0 <= i < items.len() ==> vdepth(#[trigger] items[i]) <= items_vdepth(items),
    decreases items.len(),
{
    if items.len() > 0 {
        lemma_items_vdepth(items.drop_last());
        assert forall|i: int| 0 <= i < items.len() implies vdepth(#[trigger] items[i])
            <= items_vdepth(items) by {
            if i < items.len() - 1 {
                assert(items.drop_last()[i] == items[i]);
            }
        }
    }
}

/// Renders one value into the running state, exactly as [`render_value`]
/// says, leaving the indentation depth and the top-level flag as they
/// were.
fn encode_value(ser: &mut Serializer, v: &Value)
    requires
        old(ser).indent_size == 4,
        old(ser).is_top_level ==> !old(ser).has_root_wrapper,
        old(ser).is_top_level ==> old(ser).current_indent == 0,
        4 * (old(ser).current_indent + vdepth(v@) + 1) <= usize::MAX,
    ensures
        final(ser).output@ == old(ser).output@ + render_value(
            v@,
            old(ser).current_indent as nat,
            old(ser).is_top_level && !old(ser).has_root_wrapper,
        ),
        final(ser).current_indent == old(ser).current_indent,
        final(ser).indent_size == old(ser).indent_size,
        final(ser).is_top_level == old(ser).is_top_level,
        final(ser).has_root_wrapper == if old(ser).is_top_level && !old(ser).has_root_wrapper {
            is_root_struct(v@)
        } else {
            old(ser).has_root_wrapper
        },
    decreases v,
{
    let ghost ind0 = old(ser).current_indent as nat;
    let ghost top0 = old(ser).is_top_level && !old(ser).has_root_wrapper;
    match v {
        Value::Mapping(entries) => {
            proof {
                lemma_entries_view(entries@);
                lemma_entries_vdepth(entries_view(entries@));
            }
            let root_text = String::from_str("root");
            let is_root_key = entries.len() == 1 && entries[0].0.eq(&root_text);
            if is_root_key {
                let payload_is_map = match &entries[0].1 {
                    Value::Mapping(_) => true,
                    _ => false,
                };
                if payload_is_map {
                    encode_root_struct(ser, v, entries);
                    return ;
                }
                // a lone `root` key over a non-map payload forwards to the
                // payload with the same flags
                proof {
                    assert(decreases_to!(*v => v->Mapping_0));
                    assert(v->Mapping_0 == *entries);
                    assert(decreases_to!(*entries => entries@));
                    assert(decreases_to!(entries@ => entries@[0]));
                    assert(decreases_to!(entries@[0] => entries@[0].1));
                    assert(vdepth(entries@[0].1@) <= entries_vdepth(entries_view(entries@)));
                }
                encode_value(ser, &entries[0].1);
                return ;
            }
            encode_plain_map(ser, v, entries);
        },
        Value::Array(items) => {
            let ghost o0 = ser.output@;
            proof {
                lemma_items_view(items@);
                lemma_items_vdepth(items_view(items@));
            }
            let was = ser.enter_value();
            ser.begin_seq();
            let ghost body = items_view(items@);
            let mut i: usize = 0;
            proof {
                assert(render_items(body.subrange(0, 0), (ind0 + 1) as nat)
                    =~= Seq::<char>::empty());
                assert(o0 + "[\n"@ + Seq::<char>::empty() =~= o0 + "[\n"@);
            }
            while i < items.len()
                invariant
                    *v == Value::Array(*items),
                    i <= items@.len(),
                    body == items_view(items@),
                    body.len() == items@.len(),
                    forall|k: int| 0 <= k < items@.len() ==> #[trigger] body[k] == items@[k]@,
                    forall|k: int|
                        0 <= k < items@.len() ==> vdepth(#[trigger] body[k]) <= items_vdepth(body),
                    ser.output@ == o0 + "[\n"@ + render_items(
                        body.subrange(0, i as int),
                        (ind0 + 1) as nat,
                    ),
                    ser.current_indent == ind0 + 1,
                    ser.indent_size == 4,
                    ser.is_top_level == false,
                    ser.has_root_wrapper == old(ser).has_root_wrapper,
                    4 * (ind0 + 1 + items_vdepth(body) + 1) <= usize::MAX,
                    items@.len() == items.len(),
                decreases items@.len() - i,
            {
                let ghost pre = body.subrange(0, i as int);
                ser.write_indent();
                proof {
                    assert(decreases_to!(*v => v->Array_0));
                    assert(v->Array_0 == *items);
                    assert(decreases_to!(*items => items@));
                    assert(decreases_to!(items@ => items@[i as int]));
                    assert(body[i as int] == items@[i as int]@);
                    assert(vdepth(body[i as int]) <= items_vdepth(body));
                    assert(vdepth(items@[i as int]@) <= items_vdepth(body));
                }
                encode_value(ser, &items[i]);
                ser.write_raw(",\n");
                proof {
                    let pre1 = body.subrange(0, i + 1);
                    assert(pre1.drop_last() =~= pre);
                    assert(pre1.last() == body[i as int]);
                    assert(ser.output@ =~= o0 + "[\n"@ + render_items(
                        pre1,
                        (ind0 + 1) as nat,
                    ));
                }
                i += 1;
            }
            proof {
                assert(body.subrange(0, body.len() as int) =~= body);
            }
            ser.end_seq();
            ser.leave_value(was);
            proof {
                assert(final(ser).output@ =~= o0 + render_value(v@, ind0, top0));
            }
        },
        Value::String(s) => {
            ser.write_escaped_str(s.as_str());
        },
        Value::Number(n) => {
            ser.write_raw(n.as_str());
        },
        Value::Bool(b) => {
            ser.write_bool(*b);
        },
    }
}

/// Renders the record shape that takes the named-root wrapper.
fn encode_root_struct(ser: &mut Serializer, v: &Value, entries: &Vec<(String, Value)>)
    requires
        old(ser).indent_size == 4,
        old(ser).is_top_level ==> !old(ser).has_root_wrapper,
        old(ser).is_top_level ==> old(ser).current_indent == 0,
        4 * (old(ser).current_indent + vdepth(v@) + 1) <= usize::MAX,
        *v == Value::Mapping(*entries),
        entries@.len() == 1,
        entries@[0].0@ == "root"@,
        entries@[0].1 is Mapping,
    ensures
        final(ser).output@ == old(ser).output@ + render_value(
            v@,
            old(ser).current_indent as nat,
            old(ser).is_top_level && !old(ser).has_root_wrapper,
        ),
        final(ser).current_indent == old(ser).current_indent,
        final(ser).indent_size == old(ser).indent_size,
        final(ser).is_top_level == old(ser).is_top_level,
        final(ser).has_root_wrapper == if old(ser).is_top_level && !old(ser).has_root_wrapper {
            is_root_struct(v@)
        } else {
            old(ser).has_root_wrapper
        },
    decreases v, 0int,
{
    let ghost ind0 = old(ser).current_indent as nat;
    let ghost top0 = old(ser).is_top_level && !old(ser).has_root_wrapper;
    let ghost o0 = ser.output@;
    proof {
        lemma_entries_view(entries@);
    }
    let inner: &Vec<(String, Value)> = match &entries[0].1 {
        Value::Mapping(m) => m,
        _ => {
            proof {
                assert(false);
            }
            entries
        },
    };
    let ghost body = entries_view(inner@);
    proof {
        lemma_entries_view(inner@);
        lemma_entries_vdepth(body);
        assert(v@ == ValueView::Mapping(entries_view(entries@)));
        assert(entries_view(entries@)[0] == (entries@[0].0@, entries@[0].1@));
        assert(entries@[0].1@ == ValueView::Mapping(body));
        assert(is_root_struct(v@));
        // the payload's depth bounds every field's depth
        assert(vdepth(entries@[0].1@) <= entries_vdepth(entries_view(entries@)));
    }
    ser.begin_struct();
    let ghost ind1: nat = if top0 {
        1
    } else {
        (ind0 + 1) as nat
    };
    proof {
        assert(render_entries(body.subrange(0, 0), ind1) =~= Seq::<char>::empty());
        let header: Seq<char> = if top0 {
            "root {\n"@
        } else {
            "{\n"@
        };
        assert(o0 + header + Seq::<char>::empty() =~= o0 + header);
    }
    let mut i: usize = 0;
    while i < inner.len()
        invariant
            *v == Value::Mapping(*entries),
            entries@.len() == 1,
            entries@[0].1 == Value::Mapping(*inner),
            i <= inner@.len(),
            body == entries_view(inner@),
            body.len() == inner@.len(),
            forall|k: int|
                0 <= k < inner@.len() ==> #[trigger] body[k] == (inner@[k].0@, inner@[k].1@),
            forall|k: int|
                0 <= k < inner@.len() ==> vdepth(#[trigger] body[k].1) <= entries_vdepth(body),
            ser.output@ == o0 + (if top0 {
                "root {\n"@
            } else {
                "{\n"@
            }) + render_entries(body.subrange(0, i as int), ind1),
            ser.current_indent == ind1,
            ser.indent_size == 4,
            ser.is_top_level == old(ser).is_top_level,
            ser.has_root_wrapper == if top0 {
                true
            } else {
                old(ser).has_root_wrapper
            },
            4 * (ind1 + entries_vdepth(body) + 1) <= usize::MAX,
            inner@.len() == inner.len(),
        decreases inner@.len() - i,
    {
        let ghost pre = body.subrange(0, i as int);
        let pair = &inner[i];
        ser.write_key(pair.0.as_str());
        let was = ser.enter_value();
        proof {
            assert(decreases_to!(*v => v->Mapping_0));
            assert(v->Mapping_0 == *entries);
            assert(decreases_to!(*entries => entries@));
            assert(decreases_to!(entries@ => entries@[0]));
            assert(decreases_to!(entries@[0] => entries@[0].1));
            assert(decreases_to!(entries@[0].1 => entries@[0].1->Mapping_0));
            assert(entries@[0].1->Mapping_0 == *inner);
            assert(decreases_to!(*inner => inner@));
            assert(decreases_to!(inner@ => inner@[i as int]));
            assert(decreases_to!(inner@[i as int] => inner@[i as int].1));
            assert(body[i as int].1 == inner@[i as int].1@);
            assert(vdepth(body[i as int].1) <= entries_vdepth(body));
            assert(vdepth(inner@[i as int].1@) <= entries_vdepth(body));
        }
        encode_value(ser, &pair.1);
        ser.leave_value(was);
        ser.write_raw(",\n");
        proof {
            let pre1 = body.subrange(0, i + 1);
            assert(pre1.drop_last() =~= pre);
            assert(pre1.last() == body[i as int]);
            assert(ser.output@ =~= o0 + (if top0 {
                "root {\n"@
            } else {
                "{\n"@
            }) + render_entries(pre1, ind1));
        }
        i += 1;
    }
    proof {
        assert(body.subrange(0, body.len() as int) =~= body);
    }
    ser.end_struct();
    proof {
        if top0 {
            assert(spaces(((1 - 1) * 4) as nat) =~= Seq::<char>::empty());
            assert(final(ser).output@ =~= o0 + "root {\n"@ + render_entries(body, 1) + "}"@
                + ",\n"@);
            assert(final(ser).output@ =~= o0 + render_value(v@, ind0, top0));
        } else {
            assert(final(ser).output@ =~= o0 + "{\n"@ + render_entries(body, (ind0 + 1) as nat)
                + spaces(ind0 * 4) + "}"@);
            assert(final(ser).output@ =~= o0 + render_value(v@, ind0, top0));
        }
    }
}

/// Renders an ordinary map: every entry as `key value,` between braces.
fn encode_plain_map(ser: &mut Serializer, v: &Value, entries: &Vec<(String, Value)>)
    requires
        old(ser).indent_size == 4,
        old(ser).is_top_level ==> !old(ser).has_root_wrapper,
        old(ser).is_top_level ==> old(ser).current_indent == 0,
        4 * (old(ser).current_indent + vdepth(v@) + 1) <= usize::MAX,
        *v == Value::Mapping(*entries),
        !(entries@.len() == 1 && entries@[0].0@ == "root"@),
    ensures
        final(ser).output@ == old(ser).output@ + render_value(
            v@,
            old(ser).current_indent as nat,
            old(ser).is_top_level && !old(ser).has_root_wrapper,
        ),
        final(ser).current_indent == old(ser).current_indent,
        final(ser).indent_size == old(ser).indent_size,
        final(ser).is_top_level == old(ser).is_top_level,
        final(ser).has_root_wrapper == old(ser).has_root_wrapper,
    decreases v, 0int,
{
    let ghost ind0 = old(ser).current_indent as nat;
    let ghost top0 = old(ser).is_top_level && !old(ser).has_root_wrapper;
    let ghost o0 = ser.output@;
    let ghost body = entries_view(entries@);
    proof {
        lemma_entries_view(entries@);
        lemma_entries_vdepth(body);
        assert(v@ == ValueView::Mapping(body));
        assert(!(body.len() == 1 && body[0].0 == "root"@));
    }
    let was = ser.enter_value();
    ser.begin_map();
    proof {
        assert(render_entries(body.subrange(0, 0), (ind0 + 1) as nat) =~= Seq::<char>::empty());
        assert(o0 + "{\n"@ + Seq::<char>::empty() =~= o0 + "{\n"@);
    }
    let mut i: usize = 0;
    while i < entries.len()
        invariant
            *v == Value::Mapping(*entries),
            i <= entries@.len(),
            body == entries_view(entries@),
            body.len() == entries@.len(),
            forall|k: int|
                0 <= k < entries@.len() ==> #[trigger] body[k] == (entries@[k].0@, entries@[k].1@),
            forall|k: int|
                0 <= k < entries@.len() ==> vdepth(#[trigger] body[k].1) <= entries_vdepth(body),
            ser.output@ == o0 + "{\n"@ + render_entries(body.subrange(0, i as int), (ind0
                + 1) as nat),
            ser.current_indent == ind0 + 1,
            ser.indent_size == 4,
            ser.is_top_level == false,
            ser.has_root_wrapper == old(ser).has_root_wrapper,
            4 * (ind0 + 1 + entries_vdepth(body) + 1) <= usize::MAX,
            entries@.len() == entries.len(),
        decreases entries@.len() - i,
    {
        let ghost pre = body.subrange(0, i as int);
        let pair = &entries[i];
        ser.write_key(pair.0.as_str());
        proof {
            assert(decreases_to!(*v => v->Mapping_0));
            assert(v->Mapping_0 == *entries);
            assert(decreases_to!(*entries => entries@));
            assert(decreases_to!(entries@ => entries@[i as int]));
            assert(decreases_to!(entries@[i as int] => entries@[i as int].1));
            assert(body[i as int].1 == entries@[i as int].1@);
            assert(vdepth(body[i as int].1) <= entries_vdepth(body));
            assert(vdepth(entries@[i as int].1@) <= entries_vdepth(body));
        }
        encode_value(ser, &pair.1);
        ser.write_raw(",\n");
        proof {
            let pre1 = body.subrange(0, i + 1);
            assert(pre1.drop_last() =~= pre);
            assert(pre1.last() == body[i as int]);
            assert(ser.output@ =~= o0 + "{\n"@ + render_entries(pre1, (ind0 + 1) as nat));
        }
        i += 1;
    }
    proof {
        assert(body.subrange(0, body.len() as int) =~= body);
    }
    ser.end_map();
    ser.leave_value(was);
    proof {
        assert(final(ser).output@ =~= o0 + render_value(v@, ind0, top0));
    }
}

/// Renders a whole tree value as document text.
pub fn to_text(value: &Value) -> (r: String)
    requires
        4 * (vdepth(value@) + 1) <= usize::MAX,
    ensures
        r@ == render_document(value@),
{
    let mut ser = Serializer::new();
    encode_value(&mut ser, value);
    proof {
        assert(Seq::<char>::empty() + render_value(value@, 0, true) =~= render_value(
            value@,
            0,
            true,
        ));
    }
    ser.finish()
}

/// The character of one decimal digit.
pub open spec fn digit_char(d: nat) -> char {
    ((0x30 + d) as u8) as char
}

/// The decimal text of a natural number, most significant digit first,
/// with no leading zero except for zero itself.
pub open spec fn dec_digits(n: nat) -> Seq<char>
    decreases n,
{
    if n < 10 {
        seq![digit_char(n)]
    } else {
        dec_digits(n / 10) + seq![digit_char(n % 10)]
    }
}

/// The decimal text of a signed number: a minus sign for negatives.
pub open spec fn dec_int(v: int) -> Seq<char> {
    if v < 0 {
        seq!['-'] + dec_digits((-v) as nat)
    } else {
        dec_digits(v as nat)
    }
}

/// The decimal text of `v`.
pub fn u64_to_string(v: u64) -> (r: String)
    ensures
        r@ == dec_digits(v as nat),
{
    let mut rev: Vec<char> = Vec::new();
    let mut n: u64 = v;
    proof {
        assert(rev@.reverse() =~= Seq::<char>::empty());
        assert(dec_digits(n as nat) + Seq::<char>::empty() =~= dec_digits(n as nat));
    }
    while n >= 10
        invariant
            dec_digits(v as nat) == dec_digits(n as nat) + rev@.reverse(),
        decreases n,
    {
        let ghost rev0 = rev@;
        let d: u8 = (n % 10) as u8;
        rev.push((48 + d) as char);
        proof {
            assert(digit_char((n % 10) as nat) == (48 + d) as char);
            assert(rev@.reverse() =~= seq![(48 + d) as char] + rev0.reverse());
            assert(dec_digits(n as nat) == dec_digits((n / 10) as nat) + seq![
                digit_char((n % 10) as nat),
            ]);
            assert(dec_digits((n / 10) as nat) + (seq![digit_char((n % 10) as nat)]
                + rev0.reverse()) =~= (dec_digits((n / 10) as nat) + seq![
                digit_char((n % 10) as nat),
            ]) + rev0.reverse());
        }
        n = n / 10;
    }
    let ghost rev1 = rev@;
    let d: u8 = n as u8;
    rev.push((48 + d) as char);
    proof {
        assert(digit_char(n as nat) == (48 + d) as char);
        assert(rev@.reverse() =~= seq![digit_char(n as nat)] + rev1.reverse());
        assert(dec_digits(n as nat) == seq![digit_char(n as nat)]);
        assert(dec_digits(v as nat) =~= rev@.reverse());
    }
    let mut out = String::new();
    let total = rev.len();
    let mut k: usize = 0;
    while k < total
        invariant
            k <= total,
            total == rev@.len(),
            out@ == rev@.reverse().subrange(0, k as int),
        decreases total - k,
    {
        let c = rev[total - 1 - k];
        push_char(&mut out, c);
        proof {
            assert(rev@.reverse()[k as int] == rev@[total - 1 - k]);
            assert(out@ =~= rev@.reverse().subrange(0, k + 1));
        }
        k += 1;
    }
    proof {
        assert(rev@.reverse().subrange(0, rev@.len() as int) =~= rev@.reverse());
    }
    out
}

/// The decimal text of `v`, sign included.
pub fn i64_to_string(v: i64) -> (r: String)
    ensures
        r@ == dec_int(v as int),
{
    if v >= 0 {
        u64_to_string(v as u64)
    } else {
        let m: u64 = if v == i64::MIN {
            9223372036854775808u64
        } else {
            (-v) as u64
        };
        proof {
            assert(m as nat == (-(v as int)) as nat);
        }
        let mut out = String::from_str("-");
        let digits = u64_to_string(m);
        out.append(digits.as_str());
        proof {
            reveal_strlit("-");
            assert(out@ =~= seq!['-'] + dec_digits(m as nat));
        }
        out
    }
}

impl Serializer {
    /// Writes the decimal text of an unsigned integer.
    pub fn write_u64(&mut self, v: u64)
        ensures
            final(self).output@ == old(self).output@ + dec_digits(v as nat),
            final(self).current_indent == old(self).current_indent,
            final(self).indent_size == old(self).indent_size,
            final(self).is_top_level == old(self).is_top_level,
            final(self).has_root_wrapper == old(self).has_root_wrapper,
    {
        let digits = u64_to_string(v);
        self.output.append(digits.as_str());
    }

    /// Writes the decimal text of a signed integer.
    pub fn write_i64(&mut self, v: i64)
        ensures
            final(self).output@ == old(self).output@ + dec_int(v as int),
            final(self).current_indent == old(self).current_indent,
            final(self).indent_size == old(self).indent_size,
            final(self).is_top_level == old(self).is_top_level,
            final(self).has_root_wrapper == old(self).has_root_wrapper,
    {
        let digits = i64_to_string(v);
        self.output.append(digits.as_str());
    }
}

} // verus!
