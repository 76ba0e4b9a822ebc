//! The generic tree representation of parsed data: maps, arrays, strings,
//! numbers and booleans.

use vstd::prelude::*;

verus! {

/// A parsed tree value.
///
/// A map is an ordered sequence of key/value pairs; duplicate keys are kept
/// positionally. A number keeps the raw decimal text captured by the
/// tokenizer (an optional `-`, digits, and an optional fraction part);
/// consumers decide how to read it numerically. A tree produced by the
/// parser from a complete document is always a one-entry map whose key is
/// `root`.
#[derive(Debug)]
pub enum Value {
    Mapping(Vec<(String, Value)>),
    Array(Vec<Value>),
    String(String),
    Number(String),
    Bool(bool),
}

/// The mathematical model of a [`Value`]: the same shape over `Seq`.
#[verifier::ext_equal]
pub enum ValueView {
    Mapping(Seq<(Seq<char>, ValueView)>),
    Array(Seq<ValueView>),
    String(Seq<char>),
    Number(Seq<char>),
    Bool(bool),
}

/// The model of a map's entry sequence.
pub open spec fn entries_view(s: Seq<(String, Value)>) -> Seq<(Seq<char>, ValueView)>
    decreases s,
    via entries_view_decreases
{
    if s.len() == 0 {
        Seq::empty()
    } else {
        entries_view(s.drop_last()).push((s.last().0@, value_view(s.last().1)))
    }
}

#[via_fn]
proof fn entries_view_decreases(s: Seq<(String, Value)>) {
    if s.len() > 0 {
        assert(decreases_to!(s => s.last()));
        assert(decreases_to!(s.last() => s.last().1));
    }
}

/// The model of an array's element sequence.
pub open spec fn items_view(s: Seq<Value>) -> Seq<ValueView>
    decreases s,
{
    if s.len() == 0 {
        Seq::empty()
    } else {
        items_view(s.drop_last()).push(value_view(s.last()))
    }
}

/// The model of a value.
pub open spec fn value_view(v: Value) -> ValueView
    decreases v,
    via value_view_decreases
{
    match v {
        Value::Mapping(entries) => ValueView::Mapping(entries_view(entries@)),
        Value::Array(items) => ValueView::Array(items_view(items@)),
        Value::String(s) => ValueView::String(s@),
        Value::Number(s) => ValueView::Number(s@),
        Value::Bool(b) => ValueView::Bool(b),
    }
}

#[via_fn]
proof fn value_view_decreases(v: Value) {
    match v {
        Value::Mapping(entries) => {
            assert(decreases_to!(v => entries));
            assert(decreases_to!(entries => entries@));
        },
        Value::Array(items) => {
            assert(decreases_to!(v => items));
            assert(decreases_to!(items => items@));
        },
        _ => {},
    }
}

impl View for Value {
    type V = ValueView;

    open spec fn view(&self) -> ValueView {
        value_view(*self)
    }
}

/// The model of an entry sequence, element by element.
pub proof fn lemma_entries_view(s: Seq<(String, Value)>)
    ensures
        entries_view(s).len() == s.len(),
        forall|i: int|
            0 <= i < s.len() ==> #[trigger] entries_view(s)[i] == (s[i].0@, value_view(s[i].1)),
    decreases s.len(),
{
    if s.len() > 0 {
        lemma_entries_view(s.drop_last());
        assert forall|i: int| 0 <= i < s.len() implies #[trigger] entries_view(s)[i] == (
            s[i].0@,
            value_view(s[i].1),
        ) by {
            if i < s.len() - 1 {
                assert(s.drop_last()[i] == s[i]);
            }
        }
    }
}

/// The model of an element sequence, element by element.
pub proof fn lemma_items_view(s: Seq<Value>)
    ensures
        items_view(s).len() == s.len(),
        forall|i: int| 0 <= i < s.len() ==> #[trigger] items_view(s)[i] == value_view(s[i]),
    decreases s.len(),
{
    if s.len() > 0 {
        lemma_items_view(s.drop_last());
        assert forall|i: int| 0 <= i < s.len() implies #[trigger] items_view(s)[i] == value_view(
            s[i],
        ) by {
            if i < s.len() - 1 {
                assert(s.drop_last()[i] == s[i]);
            }
        }
    }
}

impl Value {
    /// A copy of this value, children included.
    pub fn duplicate(&self) -> (r: Value)
        ensures
            r@ == self@,
        decreases self,
    {
        match self {
            Value::Mapping(entries) => {
                let mut out: Vec<(String, Value)> = Vec::new();
                let mut i: usize = 0;
                while i < entries.len()
                    invariant
                        *self == Value::Mapping(*entries),
                        i <= entries@.len(),
                        out@.len() == i,
                        forall|k: int|
                            0 <= k < i ==> (#[trigger] out@[k]).0@ == entries@[k].0@ && value_view(
                                out@[k].1,
                            ) == value_view(entries@[k].1),
                    decreases entries@.len() - i,
                {
                    let pair = &entries[i];
                    proof {
                        assert(decreases_to!(*self => self->Mapping_0));
                        assert(self->Mapping_0 == *entries);
                        assert(decreases_to!(*entries => entries@));
                        assert(decreases_to!(entries@ => entries@[i as int]));
                        assert(decreases_to!(entries@[i as int] => entries@[i as int].1));
                    }
                    let copied = pair.1.duplicate();
                    out.push((pair.0.clone(), copied));
                    i += 1;
                }
                proof {
                    lemma_entries_view(entries@);
                    lemma_entries_view(out@);
                    assert(entries_view(out@) =~= entries_view(entries@));
                }
                Value::Mapping(out)
            },
            Value::Array(items) => {
                let mut out: Vec<Value> = Vec::new();
                let mut i: usize = 0;
                while i < items.len()
                    invariant
                        *self == Value::Array(*items),
                        i <= items@.len(),
                        out@.len() == i,
                        forall|k: int|
                            0 <= k < i ==> value_view(#[trigger] out@[k]) == value_view(
                                items@[k],
                            ),
                    decreases items@.len() - i,
                {
                    proof {
                        assert(decreases_to!(*self => self->Array_0));
                        assert(self->Array_0 == *items);
                        assert(decreases_to!(*items => items@));
                        assert(decreases_to!(items@ => items@[i as int]));
                    }
                    let copied = items[i].duplicate();
                    out.push(copied);
                    i += 1;
                }
                proof {
                    lemma_items_view(items@);
                    lemma_items_view(out@);
                    assert(items_view(out@) =~= items_view(items@));
                }
                Value::Array(out)
            },
            Value::String(s) => Value::String(s.clone()),
            Value::Number(s) => Value::Number(s.clone()),
            Value::Bool(b) => Value::Bool(*b),
        }
    }
}

/// Whether two values are equal, children included.
fn value_eq(a: &Value, b: &Value) -> (r: bool)
    ensures
        r == (a@ == b@),
    decreases a,
{
    match (a, b) {
        (Value::Mapping(ea), Value::Mapping(eb)) => {
            proof {
                lemma_entries_view(ea@);
                lemma_entries_view(eb@);
            }
            if ea.len() != eb.len() {
                return false;
            }
            let mut i: usize = 0;
            while i < ea.len()
                invariant
                    *a == Value::Mapping(*ea),
                    *b == Value::Mapping(*eb),
                    ea@.len() == eb@.len(),
                    i <= ea@.len(),
                    forall|k: int|
                        0 <= k < i ==> #[trigger] entries_view(ea@)[k] == entries_view(eb@)[k],
                decreases ea@.len() - i,
            {
                proof {
                    lemma_entries_view(ea@);
                    lemma_entries_view(eb@);
                }
                let pa = &ea[i];
                let pb = &eb[i];
                if !pa.0.eq(&pb.0) {
                    proof {
                        assert(entries_view(ea@)[i as int].0 != entries_view(eb@)[i as int].0);
                        assert(entries_view(ea@) != entries_view(eb@));
                    }
                    return false;
                }
                proof {
                    assert(decreases_to!(*a => a->Mapping_0));
                    assert(a->Mapping_0 == *ea);
                    assert(decreases_to!(*ea => ea@));
                    assert(decreases_to!(ea@ => ea@[i as int]));
                    assert(decreases_to!(ea@[i as int] => ea@[i as int].1));
                }
                if !value_eq(&pa.1, &pb.1) {
                    proof {
                        assert(entries_view(ea@)[i as int].1 != entries_view(eb@)[i as int].1);
                        assert(entries_view(ea@) != entries_view(eb@));
                    }
                    return false;
                }
                i += 1;
            }
            proof {
                lemma_entries_view(ea@);
                lemma_entries_view(eb@);
                assert(entries_view(ea@) =~= entries_view(eb@));
            }
            true
        },
        (Value::Array(ia), Value::Array(ib)) => {
            proof {
                lemma_items_view(ia@);
                lemma_items_view(ib@);
            }
            if ia.len() != ib.len() {
                return false;
            }
            let mut i: usize = 0;
            while i < ia.len()
                invariant
                    *a == Value::Array(*ia),
                    *b == Value::Array(*ib),
                    ia@.len() == ib@.len(),
                    i <= ia@.len(),
                    forall|k: int| 0 <= k < i ==> #[trigger] items_view(ia@)[k] == items_view(ib@)[k],
                decreases ia@.len() - i,
            {
                proof {
                    lemma_items_view(ia@);
                    lemma_items_view(ib@);
                    assert(decreases_to!(*a => a->Array_0));
                    assert(a->Array_0 == *ia);
                    assert(decreases_to!(*ia => ia@));
                    assert(decreases_to!(ia@ => ia@[i as int]));
                }
                if !value_eq(&ia[i], &ib[i]) {
                    proof {
                        assert(items_view(ia@)[i as int] != items_view(ib@)[i as int]);
                        assert(items_view(ia@) != items_view(ib@));
                    }
                    return false;
                }
                i += 1;
            }
            proof {
                lemma_items_view(ia@);
                lemma_items_view(ib@);
                assert(items_view(ia@) =~= items_view(ib@));
            }
            true
        },
        (Value::String(x), Value::String(y)) => x.eq(y),
        (Value::Number(x), Value::Number(y)) => x.eq(y),
        (Value::Bool(x), Value::Bool(y)) => x == y,
        _ => false,
    }
}

impl PartialEq for Value {
    /// Whether two values are equal, children included.
    fn eq(&self, other: &Value) -> (r: bool)
        ensures
            r == (self@ == other@),
    {
        value_eq(self, other)
    }
}

impl vstd::std_specs::cmp::PartialEqSpecImpl for Value {
    open spec fn obeys_eq_spec() -> bool {
        true
    }

    open spec fn eq_spec(&self, other: &Value) -> bool {
        self@ == other@
    }
}

impl Clone for Value {
    /// A copy of this value, children included.
    fn clone(&self) -> (r: Self)
        ensures
            r@ == self@,
    {
        self.duplicate()
    }
}

} // verus!
