//! The document model: a JSON value tree of plain values. Numbers carry
//! their canonical JSON text, so the tree itself is fully transparent to
//! specification code.

use vstd::prelude::*;
use crate::outside::number_from_text;

verus! {

/// One JSON value. Object entries keep their insertion order; a number holds
/// its canonical JSON text.
pub enum JsonValue {
    Null,
    Bool(bool),
    Num(String),
    Str(String),
    Arr(Vec<JsonValue>),
    Obj(Vec<(String, JsonValue)>),
}

/// The mathematical shape of a `JsonValue`.
#[verifier::ext_equal]
pub ghost enum JsonView {
    Null,
    Bool(bool),
    Num(Seq<char>),
    Str(Seq<char>),
    Arr(Seq<JsonView>),
    Obj(Seq<(Seq<char>, JsonView)>),
}

/// The views of a sequence of values, in order.
pub open spec fn arr_view(items: Seq<JsonValue>) -> Seq<JsonView>
    decreases items,
{
    if items.len() == 0 {
        Seq::empty()
    } else {
        proof {
            assert(decreases_to!(items => items[items.len() - 1]));
            assert(decreases_to!(items => items.subrange(0, items.len() - 1)));
        }
        arr_view(items.drop_last()).push(items.last()@)
    }
}

/// The views of a sequence of object entries, in order.
pub open spec fn obj_view(entries: Seq<(String, JsonValue)>) -> Seq<(Seq<char>, JsonView)>
    decreases entries,
{
    if entries.len() == 0 {
        Seq::empty()
    } else {
        proof {
            assert(decreases_to!(entries => entries[entries.len() - 1]));
            assert(decreases_to!(entries => entries.subrange(0, entries.len() - 1)));
        }
        obj_view(entries.drop_last()).push((entries.last().0@, entries.last().1@))
    }
}

impl View for JsonValue {
    type V = JsonView;

    open spec fn view(&self) -> JsonView
        decreases self,
    {
        match self {
            JsonValue::Null => JsonView::Null,
            JsonValue::Bool(b) => JsonView::Bool(*b),
            JsonValue::Num(t) => JsonView::Num(t@),
            JsonValue::Str(s) => JsonView::Str(s@),
            JsonValue::Arr(items) => {
                proof {
                    assert(decreases_to!(*self => *items));
                    assert(decreases_to!(*items => items@));
                }
                JsonView::Arr(arr_view(items@))
            },
            JsonValue::Obj(entries) => {
                proof {
                    assert(decreases_to!(*self => *entries));
                    assert(decreases_to!(*entries => entries@));
                }
                JsonView::Obj(obj_view(entries@))
            },
        }
    }
}

pub proof fn lemma_arr_view(items: Seq<JsonValue>)
    ensures
        arr_view(items).len() == items.len(),
        forall|i: int| 0 <= i < items.len() ==> arr_view(items)[i] == (#[trigger] items[i])@,
    decreases items.len(),
{
    if items.len() > 0 {
        lemma_arr_view(items.drop_last());
        let pushed = arr_view(items.drop_last()).push(items.last()@);
        assert(arr_view(items) == pushed);
        assert forall|i: int| 0 <= i < items.len() implies arr_view(items)[i] == (
        #[trigger] items[i])@ by {
            if i < items.len() - 1 {
                assert(items.drop_last()[i] == items[i]);
                assert(pushed[i] == arr_view(items.drop_last())[i]);
            } else {
                assert(items.last() == items[i]);
                assert(pushed[i] == items.last()@);
            }
        }
    }
}

pub proof fn lemma_obj_view(entries: Seq<(String, JsonValue)>)
    ensures
        obj_view(entries).len() == entries.len(),
        forall|i: int|
            0 <= i < entries.len() ==> obj_view(entries)[i] == ((#[trigger] entries[i]).0@,
            entries[i].1@),
    decreases entries.len(),
{
    if entries.len() > 0 {
        lemma_obj_view(entries.drop_last());
        let pushed = obj_view(entries.drop_last()).push(
            (entries.last().0@, entries.last().1@),
        );
        assert(obj_view(entries) == pushed);
        assert forall|i: int| 0 <= i < entries.len() implies obj_view(entries)[i] == ((
        #[trigger] entries[i]).0@, entries[i].1@) by {
            if i < entries.len() - 1 {
                assert(entries.drop_last()[i] == entries[i]);
                assert(pushed[i] == obj_view(entries.drop_last())[i]);
            } else {
                assert(entries.last() == entries[i]);
                assert(pushed[i] == (entries.last().0@, entries.last().1@));
            }
        }
    }
}

/// Objects and arrays have children; the other kinds are leaves.
pub open spec fn is_container(j: JsonView) -> bool {
    j is Arr || j is Obj
}

/// The scalar kinds whose text takes part in value search and editing.
pub open spec fn is_scalar(j: JsonView) -> bool {
    j is Str || j is Num || j is Bool
}

pub open spec fn child_count_of(j: JsonView) -> nat {
    match j {
        JsonView::Arr(items) => items.len(),
        JsonView::Obj(entries) => entries.len(),
        _ => 0,
    }
}

pub open spec fn bool_text(b: bool) -> Seq<char> {
    if b {
        "true"@
    } else {
        "false"@
    }
}

/// The text a scalar shows: the string itself, the number's canonical text,
/// or the boolean literal.
pub open spec fn scalar_text(j: JsonView) -> Seq<char> {
    match j {
        JsonView::Str(s) => s,
        JsonView::Num(t) => t,
        JsonView::Bool(b) => bool_text(b),
        _ => Seq::empty(),
    }
}

/// The type name a node reports.
pub open spec fn type_text(j: JsonView) -> Seq<char> {
    match j {
        JsonView::Null => "null"@,
        JsonView::Bool(_) => "boolean"@,
        JsonView::Num(_) => "number"@,
        JsonView::Str(_) => "string"@,
        JsonView::Arr(_) => "array"@,
        JsonView::Obj(_) => "object"@,
    }
}

/// Whether a serialization of a bare value agrees with the literal text of
/// a scalar: a number prints as its canonical text, a boolean as its
/// literal, and null as `null`; composite values are unconstrained here.
pub open spec fn scalar_literal_text(v: JsonView, out: Seq<char>) -> bool {
    match v {
        JsonView::Num(t) => out == t,
        JsonView::Bool(b) => out == bool_text(b),
        JsonView::Null => out == "null"@,
        _ => true,
    }
}

/// Well-formedness of a document: object keys are distinct at every level,
/// and every number text is canonical (it re-parses to itself). Documents
/// built by the loader and maintained by the mutation engine satisfy this.
pub open spec fn wf_view(j: JsonView) -> bool
    decreases j,
{
    match j {
        JsonView::Num(t) => number_from_text(t) == Some(t),
        JsonView::Arr(items) => forall|i: int|
            0 <= i < items.len() ==> wf_view(#[trigger] items[i]),
        JsonView::Obj(entries) => {
            &&& forall|i: int, k: int|
                0 <= i < k < entries.len() ==> (#[trigger] entries[i].0) != (
                #[trigger] entries[k].0)
            &&& forall|i: int| 0 <= i < entries.len() ==> wf_view(#[trigger] entries[i].1)
        },
        _ => true,
    }
}

impl JsonValue {
    /// A structural copy of the value, equal to it in view.
    pub fn deep_copy(&self) -> (r: JsonValue)
        ensures
            r@ == self@,
        decreases self,
    {
        match self {
            JsonValue::Null => JsonValue::Null,
            JsonValue::Bool(b) => JsonValue::Bool(*b),
            JsonValue::Num(t) => JsonValue::Num(t.clone()),
            JsonValue::Str(s) => JsonValue::Str(s.clone()),
            JsonValue::Arr(items) => {
                let mut out: Vec<JsonValue> = Vec::new();
                let mut i: usize = 0;
                while i < items.len()
                    invariant
                        0 <= i <= items@.len(),
                        out@.len() == i,
                        decreases_to!(*self => items@),
                        forall|k: int| 0 <= k < i ==> (#[trigger] out@[k])@ == items@[k]@,
                    decreases items@.len() - i,
                {
                    proof {
                        assert(decreases_to!(items@ => items@[i as int]));
                    }
                    out.push(items[i].deep_copy());
                    i = i + 1;
                }
                let r = JsonValue::Arr(out);
                proof {
                    lemma_arr_view(out@);
                    lemma_arr_view(items@);
                    assert forall|k: int| 0 <= k < out@.len() implies arr_view(out@)[k]
                        == arr_view(items@)[k] by {
                        assert(out@[k]@ == items@[k]@);
                    }
                    assert(arr_view(out@) =~= arr_view(items@));
                }
                r
            },
            JsonValue::Obj(entries) => {
                let mut out: Vec<(String, JsonValue)> = Vec::new();
                let mut i: usize = 0;
                while i < entries.len()
                    invariant
                        0 <= i <= entries@.len(),
                        out@.len() == i,
                        decreases_to!(*self => entries@),
                        forall|k: int|
                            0 <= k < i ==> (#[trigger] out@[k]).0@ == entries@[k].0@ && out@[
                            k].1@ == entries@[k].1@,
                    decreases entries@.len() - i,
                {
                    proof {
                        assert(decreases_to!(entries@ => entries@[i as int]));
                        assert(decreases_to!(entries@[i as int] => entries@[i as int].1));
                    }
                    let e = &entries[i];
                    out.push((e.0.clone(), e.1.deep_copy()));
                    i = i + 1;
                }
                let r = JsonValue::Obj(out);
                proof {
                    lemma_obj_view(out@);
                    lemma_obj_view(entries@);
                    assert forall|k: int| 0 <= k < out@.len() implies obj_view(out@)[k]
                        == obj_view(entries@)[k] by {
                        assert(out@[k].0@ == entries@[k].0@ && out@[k].1@ == entries@[k].1@);
                    }
                    assert(obj_view(out@) =~= obj_view(entries@));
                }
                r
            },
        }
    }
}

} // verus!
