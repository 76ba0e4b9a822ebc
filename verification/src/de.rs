//! The decode side of the binding bridge: reading a parsed tree value and
//! handing out its parts so an arbitrary target shape can reconstruct
//! itself, plus the text-to-tree entry point.
//!
//! A one-entry map keyed `root` is transparently unwrapped, as often as it
//! applies, when a map shape is requested; a tagged-union request reads a
//! one-entry map as variant name and payload, and a bare string as a
//! payloadless variant name.

use crate::ast::{entries_view, items_view, lemma_entries_view, lemma_items_view, Value, ValueView};
use crate::error::{Error, ErrorView};
use crate::lexer::{spec_lex, tokenize};
use crate::parser::{parse, sp_document};
use vstd::prelude::*;

verus! {

/// The value behind any number of one-entry `root` map wrappers.
pub open spec fn spec_unwrap_root(v: ValueView) -> ValueView
    decreases v,
    via spec_unwrap_root_decreases
{
    match v {
        ValueView::Mapping(es) => {
            if es.len() == 1 && es[0].0 == "root"@ {
                spec_unwrap_root(es[0].1)
            } else {
                v
            }
        },
        _ => v,
    }
}

#[via_fn]
proof fn spec_unwrap_root_decreases(v: ValueView) {
    match v {
        ValueView::Mapping(es) => {
            if es.len() == 1 && es[0].0 == "root"@ {
                assert(decreases_to!(v => es));
                assert(decreases_to!(es => es[0]));
                assert(decreases_to!(es[0] => es[0].1));
            }
        },
        _ => {},
    }
}

/// Parses text all the way to its tree value: tokenizing, then parsing.
pub fn from_text(s: &str) -> (r: Result<Value, Error>)
    ensures
        match spec_lex(s@) {
            Ok(ts) => match sp_document(ts) {
                Ok(v) => r matches Ok(val) && val@ == v,
                Err(e) => r matches Err(err) && err@ == ErrorView::ParseError(e),
            },
            Err(e) => r == Err::<Value, Error>(Error::LexError(e)),
        },
{
    match tokenize(String::from_str(s)) {
        Ok(tokens) => match parse(tokens) {
            Ok(v) => Ok(v),
            Err(e) => Err(Error::from(e)),
        },
        Err(e) => Err(Error::from(e)),
    }
}

/// Peels every one-entry `root` map wrapper off `v`.
pub fn unwrap_root(v: Value) -> (r: Value)
    ensures
        r@ == spec_unwrap_root(v@),
    decreases v,
{
    let ghost v0 = v;
    match v {
        Value::Mapping(mut entries) => {
            let ghost entries0 = entries;
            proof {
                lemma_entries_view(entries@);
            }
            let is_root = entries.len() == 1 && entries[0].0.eq(&String::from_str("root"));
            if is_root {
                match entries.pop() {
                    Some(pair) => {
                        proof {
                            assert(decreases_to!(v0 => v0->Mapping_0));
                            assert(v0->Mapping_0 == entries0);
                            assert(decreases_to!(entries0 => entries0@));
                            assert(decreases_to!(entries0@ => entries0@[0]));
                            assert(pair == entries0@[0]);
                            assert(decreases_to!(entries0@[0] => entries0@[0].1));
                        }
                        unwrap_root(pair.1)
                    },
                    None => Value::Mapping(entries),
                }
            } else {
                Value::Mapping(entries)
            }
        },
        other => other,
    }
}

/// Requests a map shape: unwraps the named root, then hands out the
/// entries of the map beneath it; any other shape beneath is refused.
pub fn mapping_entries(v: Value) -> (r: Result<Vec<(String, Value)>, Error>)
    ensures
        match spec_unwrap_root(v@) {
            ValueView::Mapping(es) => r matches Ok(out) && entries_view(out@) == es,
            _ => r matches Err(e) && e is Serde,
        },
{
    let unwrapped = unwrap_root(v);
    match unwrapped {
        Value::Mapping(entries) => Ok(entries),
        _ => Err(Error::Serde(String::from_str("expected map"))),
    }
}

/// Requests a sequence shape: hands out an array's elements; any other
/// shape is refused.
pub fn array_items(v: Value) -> (r: Result<Vec<Value>, Error>)
    ensures
        match v@ {
            ValueView::Array(items) => r matches Ok(out) && items_view(out@) == items,
            _ => r matches Err(e) && e is Serde,
        },
{
    match v {
        Value::Array(items) => Ok(items),
        _ => Err(Error::Serde(String::from_str("expected array"))),
    }
}

/// Requests a boolean: only a boolean value supplies one.
pub fn bool_value(v: &Value) -> (r: Result<bool, Error>)
    ensures
        match v@ {
            ValueView::Bool(b) => r == Ok::<bool, Error>(b),
            _ => r matches Err(e) && e is Serde,
        },
{
    match v {
        Value::Bool(b) => Ok(*b),
        _ => Err(Error::Serde(String::from_str("expected bool"))),
    }
}

/// Requests a number: hands out the raw decimal text of a number value;
/// any other shape is refused.
pub fn number_text(v: &Value) -> (r: Result<String, Error>)
    ensures
        match v@ {
            ValueView::Number(n) => r matches Ok(s) && s@ == n,
            _ => r matches Err(e) && e is Serde,
        },
{
    match v {
        Value::Number(n) => Ok(n.clone()),
        _ => Err(Error::Serde(String::from_str("expected number"))),
    }
}

/// Requests a string: hands out the decoded text of a string value; any
/// other shape is refused.
pub fn string_value(v: Value) -> (r: Result<String, Error>)
    ensures
        match v@ {
            ValueView::String(s) => r matches Ok(out) && out@ == s,
            _ => r matches Err(e) && e is Serde,
        },
{
    match v {
        Value::String(s) => Ok(s),
        _ => Err(Error::Serde(String::from_str("expected string"))),
    }
}

/// Requests a single character: succeeds exactly on a string value of
/// length one, whose character it returns.
pub fn char_value(v: &Value) -> (r: Result<char, Error>)
    ensures
        match v@ {
            ValueView::String(s) => if s.len() == 1 {
                r == Ok::<char, Error>(s[0])
            } else {
                r matches Err(e) && e is Serde
            },
            _ => r matches Err(e) && e is Serde,
        },
{
    match v {
        Value::String(s) => {
            let n = s.as_str().unicode_len();
            if n == 1 {
                Ok(s.as_str().get_char(0))
            } else {
                Err(Error::Serde(String::from_str("expected single char")))
            }
        },
        _ => Err(Error::Serde(String::from_str("expected string"))),
    }
}

/// How a value binds against a tagged-union target.
#[derive(Debug)]
pub enum EnumBinding {
    /// A one-entry map: the key selects the variant, the value is its
    /// payload.
    Tagged(String, Value),
    /// A bare string: it selects a payloadless variant.
    Unit(String),
}

/// Requests a tagged-union shape: a one-entry map selects the variant
/// named by its key and hands its value to the payload; a bare string
/// selects the payloadless variant of that name; anything else, a map of
/// any other entry count included, is refused.
pub fn enum_access(v: Value) -> (r: Result<EnumBinding, Error>)
    ensures
        match v@ {
            ValueView::Mapping(es) => if es.len() == 1 {
                r matches Ok(b) && (b matches EnumBinding::Tagged(k, payload) && k@ == es[0].0
                    && payload@ == es[0].1)
            } else {
                r matches Err(e) && e is Serde
            },
            ValueView::String(s) => r matches Ok(b) && (b matches EnumBinding::Unit(name) && name@
                == s),
            _ => r matches Err(e) && e is Serde,
        },
{
    match v {
        Value::Mapping(mut entries) => {
            proof {
                lemma_entries_view(entries@);
            }
            if entries.len() == 1 {
                match entries.pop() {
                    Some(pair) => Ok(EnumBinding::Tagged(pair.0, pair.1)),
                    None => Err(Error::Serde(String::from_str("expected single key map for enum"))),
                }
            } else {
                Err(Error::Serde(String::from_str("expected single key map for enum")))
            }
        },
        Value::String(s) => Ok(EnumBinding::Unit(s)),
        _ => Err(Error::Serde(String::from_str("expected map or string for enum"))),
    }
}

/// A cursor handing out an array's elements strictly in order.
pub struct ValueSeq {
    pub values: Vec<Value>,
    pub index: usize,
}

impl ValueSeq {
    /// A cursor at the start of `values`.
    pub fn new(values: Vec<Value>) -> (r: ValueSeq)
        ensures
            r.values == values,
            r.index == 0,
    {
        ValueSeq { values, index: 0 }
    }

    /// The next element, or nothing once every element is spent.
    pub fn next(&mut self) -> (r: Option<Value>)
        ensures
            final(self).values == old(self).values,
            if old(self).index < old(self).values@.len() {
                final(self).index == old(self).index + 1 && (r matches Some(v) && v@ == old(
                    self,
                ).values@[old(self).index as int]@)
            } else {
                final(self).index == old(self).index && r is None
            },
    {
        if self.index < self.values.len() {
            let v = self.values[self.index].duplicate();
            self.index += 1;
            Some(v)
        } else {
            None
        }
    }
}

/// A cursor handing out a map's entries strictly in order, key first,
/// value second.
pub struct ValueMap {
    pub entries: Vec<(String, Value)>,
    pub index: usize,
    pub current_value: Option<Value>,
}

impl ValueMap {
    /// A cursor at the start of `entries`, with no value pending.
    pub fn new(entries: Vec<(String, Value)>) -> (r: ValueMap)
        ensures
            r.entries == entries,
            r.index == 0,
            r.current_value is None,
    {
        ValueMap { entries, index: 0, current_value: None }
    }

    /// The next entry's key, or nothing once every entry is spent; the
    /// entry's value is held back for [`ValueMap::next_value`].
    pub fn next_key(&mut self) -> (r: Option<String>)
        ensures
            final(self).entries == old(self).entries,
            final(self).index == old(self).index,
            if old(self).index < old(self).entries@.len() {
                (r matches Some(k) && k@ == old(self).entries@[old(self).index as int].0@) && (
                final(self).current_value matches Some(v) && v@ == old(self).entries@[old(
                    self,
                ).index as int].1@)
            } else {
                r is None && final(self).current_value == old(self).current_value
            },
    {
        if self.index < self.entries.len() {
            let pair = &self.entries[self.index];
            self.current_value = Some(pair.1.duplicate());
            Some(pair.0.clone())
        } else {
            None
        }
    }

    /// The value held back by the last [`ValueMap::next_key`]; asking
    /// without one pending is refused.
    pub fn next_value(&mut self) -> (r: Result<Value, Error>)
        requires
            old(self).current_value is Some ==> old(self).index < usize::MAX,
        ensures
            final(self).entries == old(self).entries,
            final(self).current_value is None,
            match old(self).current_value {
                Some(v) => (r matches Ok(out) && out == v) && final(self).index == old(self).index
                    + 1,
                None => (r matches Err(e) && e is Serde) && final(self).index == old(self).index,
            },
    {
        let pending = self.current_value.take();
        match pending {
            Some(v) => {
                self.index += 1;
                Ok(v)
            },
            None => Err(Error::Serde(String::from_str("no more values in map"))),
        }
    }
}

} // verus!
