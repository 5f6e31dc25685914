//! The document side: values extracted from a parsed JSON text, each with
//! the source span it came from.

use vstd::prelude::*;

verus! {

/// A range of source text, as zero-based line and column positions.
#[derive(Clone, Copy, Debug, PartialEq, Eq, Structural)]
pub struct Span {
    pub start_line: u32,
    pub start_column: u32,
    pub end_line: u32,
    pub end_column: u32,
}

/// The semantic value of one document node.
#[derive(Debug)]
pub enum NodeValue {
    Str(String),
    Number(i64),
    Bool(bool),
    Null,
    Array(Vec<Node>),
    Object(Vec<Entry>),
}

/// A document value together with where it stands in the source.
#[derive(Debug)]
pub struct Node {
    pub span: Span,
    pub value: NodeValue,
}

/// One `"key": value` pair of a document object.
#[derive(Debug)]
pub struct Entry {
    pub key: String,
    pub key_span: Span,
    pub value: Node,
}

/// `k` is the key of some entry among `es`.
pub open spec fn has_key(es: Seq<Entry>, k: Seq<char>) -> bool {
    exists|i: int| 0 <= i < es.len() && (#[trigger] es[i]).key@ == k
}

/// Whether some entry among `es` has the key `k`.
pub fn contains_key(es: &Vec<Entry>, k: &String) -> (r: bool)
    ensures
        r == has_key(es@, k@),
{
    let mut i: usize = 0;
    while i < es.len()
        invariant
            i <= es.len(),
            forall|j: int| 0 <= j < i ==> (#[trigger] es@[j]).key@ != k@,
        decreases es.len() - i,
    {
        if es[i].key == *k {
            return true;
        }
        i = i + 1;
    }
    false
}

/// Structural equality of two document values: the same kind and the same
/// content, arrays element by element, objects entry by entry in order.
pub open spec fn same_value(a: Node, b: Node) -> bool
    decreases a,
{
    match (a.value, b.value) {
        (NodeValue::Str(x), NodeValue::Str(y)) => x@ == y@,
        (NodeValue::Number(x), NodeValue::Number(y)) => x == y,
        (NodeValue::Bool(x), NodeValue::Bool(y)) => x == y,
        (NodeValue::Null, NodeValue::Null) => true,
        (NodeValue::Array(xs), NodeValue::Array(ys)) => xs.len() == ys.len() && forall|i: int|
            0 <= i < xs.len() ==> same_value(#[trigger] xs[i], ys[i]),
        (NodeValue::Object(xs), NodeValue::Object(ys)) => xs.len() == ys.len() && forall|i: int|
            0 <= i < xs.len() ==> (#[trigger] xs[i]).key@ == ys[i].key@ && same_value(
                xs[i].value,
                ys[i].value,
            ),
        _ => false,
    }
}

/// Whether `a` and `b` hold the same value, wherever they stand.
pub fn values_equal(a: &Node, b: &Node) -> (r: bool)
    ensures
        r == same_value(*a, *b),
    decreases a,
{
    match (&a.value, &b.value) {
        (NodeValue::Str(x), NodeValue::Str(y)) => *x == *y,
        (NodeValue::Number(x), NodeValue::Number(y)) => *x == *y,
        (NodeValue::Bool(x), NodeValue::Bool(y)) => *x == *y,
        (NodeValue::Null, NodeValue::Null) => true,
        (NodeValue::Array(xs), NodeValue::Array(ys)) => {
            if xs.len() != ys.len() {
                return false;
            }
            let mut i: usize = 0;
            while i < xs.len()
                invariant
                    i <= xs.len(),
                    xs.len() == ys.len(),
                    a.value == NodeValue::Array(*xs),
                    b.value == NodeValue::Array(*ys),
                    forall|j: int| 0 <= j < i ==> same_value(#[trigger] xs@[j], ys@[j]),
                decreases xs.len() - i,
            {
                proof {
                    assert(decreases_to!(*xs => xs[i as int]));
                    assert(decreases_to!(*a => a.value));
                    assert(a.value->Array_0 == *xs); assert(decreases_to!(a.value => a.value->Array_0));
                    assert(decreases_to!(*a => xs[i as int]));
                }
                if !values_equal(&xs[i], &ys[i]) {
                    return false;
                }
                i = i + 1;
            }
            true
        },
        (NodeValue::Object(xs), NodeValue::Object(ys)) => {
            if xs.len() != ys.len() {
                return false;
            }
            let mut i: usize = 0;
            while i < xs.len()
                invariant
                    i <= xs.len(),
                    xs.len() == ys.len(),
                    a.value == NodeValue::Object(*xs),
                    b.value == NodeValue::Object(*ys),
                    forall|j: int|
                        0 <= j < i ==> (#[trigger] xs@[j]).key@ == ys@[j].key@ && same_value(
                            xs@[j].value,
                            ys@[j].value,
                        ),
                decreases xs.len() - i,
            {
                proof {
                    assert(decreases_to!(*xs => xs[i as int]));
                    assert(decreases_to!(*a => a.value));
                    assert(a.value->Object_0 == *xs); assert(decreases_to!(a.value => a.value->Object_0));
                    assert(decreases_to!(*a => xs[i as int]));
                }
                if xs[i].key != ys[i].key || !values_equal(&xs[i].value, &ys[i].value) {
                    return false;
                }
                i = i + 1;
            }
            true
        },
        _ => false,
    }
}

} // verus!
