//! Keyword checks that need no recursion: each yields at most one
//! diagnostic, exactly when its condition is violated.

use crate::document::{has_key, same_value, values_equal, Entry, Node, NodeValue, Span};
use crate::json::{get, get_spec, member, member_value, same_text, Json};
use crate::format::{format_violated, violates_format};
use crate::pattern::{pattern_search, search};
use crate::report::{keyword_name, Diagnostic, Keyword};
use vstd::prelude::*;

verus! {

/// The integer value of keyword `k` in `s`, where it is a number.
pub open spec fn int_keyword(s: Json, k: Seq<char>) -> Option<int> {
    match get_spec(s, k) {
        Some(Json::Number(n)) => Some(n as int),
        _ => None,
    }
}

/// Keyword `k` of `s` is `true`.
pub open spec fn flag_keyword(s: Json, k: Seq<char>) -> bool {
    get_spec(s, k) == Some(Json::Bool(true))
}

pub fn number_keyword(s: &Json, k: &str) -> (r: Option<i64>)
    ensures
        match r {
            Some(n) => int_keyword(*s, k@) == Some(n as int),
            None => int_keyword(*s, k@) is None,
        },
{
    match get(s, k) {
        Some(Json::Number(n)) => Some(*n),
        _ => None,
    }
}

pub fn flag(s: &Json, k: &str) -> (r: bool)
    ensures
        r == flag_keyword(*s, k@),
{
    match get(s, k) {
        Some(Json::Bool(b)) => *b,
        _ => false,
    }
}

pub fn diagnostic(span: Span, keyword: Keyword) -> (d: Diagnostic)
    ensures
        d.span == span,
        d.keyword == keyword,
        d.subject@ == Seq::<char>::empty(),
        d.counts is None,
{
    Diagnostic { span, keyword, subject: String::new(), counts: None }
}

/// A check result: present exactly when `violated`, then at `span` and due
/// to `keyword`.
pub open spec fn reported(r: Option<Diagnostic>, violated: bool, span: Span, keyword: Keyword) -> bool {
    &&& r is Some <==> violated
    &&& r is Some ==> r->0.span == span && r->0.keyword == keyword && r->0.subject@ == Seq::<char>::empty()
        && r->0.counts is None
}

/// Type name `t` admits the value `v`; `integer` admits every number, as
/// numbers here are integers.
pub open spec fn names_kind(t: Seq<char>, v: NodeValue) -> bool {
    ||| t == "string"@ && v is Str
    ||| t == "number"@ && v is Number
    ||| t == "integer"@ && v is Number
    ||| t == "boolean"@ && v is Bool
    ||| t == "null"@ && v is Null
    ||| t == "array"@ && v is Array
    ||| t == "object"@ && v is Object
}

/// `type` is a name, or a list of names, none of which admits `v`.
pub open spec fn type_mismatch(s: Json, v: NodeValue) -> bool {
    match get_spec(s, "type"@) {
        Some(Json::Str(t)) => !names_kind(t@, v),
        Some(Json::Array(ts)) => !(exists|i: int|
            0 <= i < ts.len() && (#[trigger] ts[i]) is Str && names_kind(ts[i]->Str_0@, v)),
        _ => false,
    }
}

pub fn kind_named(t: &String, v: &NodeValue) -> (r: bool)
    ensures
        r == names_kind(t@, *v),
{
    let t = t.as_str();
    match v {
        NodeValue::Str(_) => same_text(t, "string"),
        NodeValue::Number(_) => same_text(t, "number") || same_text(t, "integer"),
        NodeValue::Bool(_) => same_text(t, "boolean"),
        NodeValue::Null => same_text(t, "null"),
        NodeValue::Array(_) => same_text(t, "array"),
        NodeValue::Object(_) => same_text(t, "object"),
    }
}

pub fn check_type(node: &Node, s: &Json) -> (r: Option<Diagnostic>)
    ensures
        reported(r, type_mismatch(*s, node.value), node.span, Keyword::Type),
{
    let admitted = match get(s, "type") {
        Some(Json::Str(t)) => kind_named(t, &node.value),
        Some(Json::Array(ts)) => {
            let mut found = false;
            let mut i: usize = 0;
            while i < ts.len()
                invariant
                    i <= ts.len(),
                    found == exists|j: int|
                        0 <= j < i && (#[trigger] ts@[j]) is Str && names_kind(
                            ts@[j]->Str_0@,
                            node.value,
                        ),
                decreases ts.len() - i,
            {
                if let Json::Str(t) = &ts[i] {
                    if kind_named(t, &node.value) {
                        found = true;
                    }
                }
                i = i + 1;
            }
            found
        },
        _ => true,
    };
    if admitted {
        None
    } else {
        Some(diagnostic(node.span, Keyword::Type))
    }
}

/// The document value `n` equals the schema value `j`: the same kind and
/// content, arrays element by element, objects with as many members, each
/// key of `n` bound in `j` to an equal value.
pub open spec fn equals_json(n: Node, j: Json) -> bool
    decreases n,
{
    match (n.value, j) {
        (NodeValue::Str(x), Json::Str(y)) => x@ == y@,
        (NodeValue::Number(x), Json::Number(y)) => x == y,
        (NodeValue::Bool(x), Json::Bool(y)) => x == y,
        (NodeValue::Null, Json::Null) => true,
        (NodeValue::Array(xs), Json::Array(ys)) => xs.len() == ys.len() && forall|i: int|
            0 <= i < xs.len() ==> equals_json(#[trigger] xs[i], ys[i]),
        (NodeValue::Object(es), Json::Object(ms)) => es.len() == ms.len() && forall|i: int|
            0 <= i < es.len() ==> match member_value(ms@, (#[trigger] es[i]).key@) {
                Some(v) => equals_json(es[i].value, v),
                None => false,
            },
        _ => false,
    }
}

pub fn equals_value(n: &Node, j: &Json) -> (r: bool)
    ensures
        r == equals_json(*n, *j),
    decreases n,
{
    match (&n.value, j) {
        (NodeValue::Str(x), Json::Str(y)) => *x == *y,
        (NodeValue::Number(x), Json::Number(y)) => *x == *y,
        (NodeValue::Bool(x), Json::Bool(y)) => *x == *y,
        (NodeValue::Null, Json::Null) => true,
        (NodeValue::Array(xs), Json::Array(ys)) => {
            if xs.len() != ys.len() {
                return false;
            }
            let mut i: usize = 0;
            while i < xs.len()
                invariant
                    i <= xs.len(),
                    xs.len() == ys.len(),
                    n.value == NodeValue::Array(*xs),
                    *j == Json::Array(*ys),
                    forall|k: int| 0 <= k < i ==> equals_json(#[trigger] xs@[k], ys@[k]),
                decreases xs.len() - i,
            {
                proof {
                    assert(decreases_to!(*n => n.value));
                    assert(decreases_to!(n.value => n.value->Array_0));
                    assert(decreases_to!(*xs => xs[i as int]));
                }
                if !equals_value(&xs[i], &ys[i]) {
                    return false;
                }
                i = i + 1;
            }
            true
        },
        (NodeValue::Object(es), Json::Object(ms)) => {
            if es.len() != ms.len() {
                return false;
            }
            let mut i: usize = 0;
            while i < es.len()
                invariant
                    i <= es.len(),
                    es.len() == ms.len(),
                    n.value == NodeValue::Object(*es),
                    *j == Json::Object(*ms),
                    forall|k: int|
                        0 <= k < i ==> match member_value(ms@, (#[trigger] es@[k]).key@) {
                            Some(v) => equals_json(es@[k].value, v),
                            None => false,
                        },
                decreases es.len() - i,
            {
                proof {
                    assert(decreases_to!(*n => n.value));
                    assert(decreases_to!(n.value => n.value->Object_0));
                    assert(decreases_to!(*es => es[i as int]));
                }
                match member(ms, es[i].key.as_str()) {
                    Some(v) => {
                        if !equals_value(&es[i].value, v) {
                            return false;
                        }
                    },
                    None => {
                        return false;
                    },
                }
                i = i + 1;
            }
            true
        },
        _ => false,
    }
}

/// Some value among `opts` equals `n`.
pub open spec fn listed(n: Node, opts: Seq<Json>) -> bool {
    exists|i: int| 0 <= i < opts.len() && equals_json(n, #[trigger] opts[i])
}

/// `enum` is a list of values, none equal to the value of `n`.
pub open spec fn enum_mismatch(s: Json, n: Node) -> bool {
    match get_spec(s, "enum"@) {
        Some(Json::Array(opts)) => !listed(n, opts@),
        _ => false,
    }
}

/// `enum`: the value equals none of the listed values.
pub fn check_enum(node: &Node, s: &Json) -> (r: Option<Diagnostic>)
    ensures
        reported(r, enum_mismatch(*s, *node), node.span, Keyword::Enum),
{
    match get(s, "enum") {
        Some(Json::Array(opts)) => {
            let mut i: usize = 0;
            while i < opts.len()
                invariant
                    i <= opts.len(),
                    get_spec(*s, "enum"@) == Some(Json::Array(*opts)),
                    forall|k: int| 0 <= k < i ==> !equals_json(*node, #[trigger] opts@[k]),
                decreases opts.len() - i,
            {
                if equals_value(node, &opts[i]) {
                    assert(0 <= i < opts@.len() && equals_json(*node, opts@[i as int]));
                    assert(listed(*node, opts@));
                    return None;
                }
                i = i + 1;
            }
            Some(diagnostic(node.span, Keyword::Enum))
        },
        _ => None,
    }
}

pub open spec fn below_min_length(s: Json, text: Seq<char>) -> bool {
    match int_keyword(s, "minLength"@) {
        Some(n) => text.len() < n,
        None => false,
    }
}

pub open spec fn above_max_length(s: Json, text: Seq<char>) -> bool {
    match int_keyword(s, "maxLength"@) {
        Some(n) => text.len() > n,
        None => false,
    }
}

/// `pattern` compiles and finds no match anywhere in `text`.
pub open spec fn pattern_fails(s: Json, text: Seq<char>) -> bool {
    match get_spec(s, "pattern"@) {
        Some(Json::Str(p)) => pattern_search(p@, text) == Some(false),
        _ => false,
    }
}

/// `minLength`: the string has fewer characters than the bound.
pub fn check_min_length(text: &String, span: Span, s: &Json) -> (r: Option<Diagnostic>)
    ensures
        reported(r, below_min_length(*s, text@), span, Keyword::MinLength),
{
    match number_keyword(s, "minLength") {
        Some(n) => {
            let len = text.as_str().unicode_len();
            if n >= 0 && (len as u64) < (n as u64) {
                Some(diagnostic(span, Keyword::MinLength))
            } else {
                None
            }
        },
        None => None,
    }
}

/// `maxLength`: the string has more characters than the bound.
pub fn check_max_length(text: &String, span: Span, s: &Json) -> (r: Option<Diagnostic>)
    ensures
        reported(r, above_max_length(*s, text@), span, Keyword::MaxLength),
{
    match number_keyword(s, "maxLength") {
        Some(n) => {
            let len = text.as_str().unicode_len();
            if n < 0 || (len as u64) > (n as u64) {
                Some(diagnostic(span, Keyword::MaxLength))
            } else {
                None
            }
        },
        None => None,
    }
}

/// `pattern`: the expression finds no match in the string. A pattern that
/// does not compile is no constraint.
pub fn check_pattern(text: &String, span: Span, s: &Json) -> (r: Option<Diagnostic>)
    ensures
        reported(r, pattern_fails(*s, text@), span, Keyword::Pattern),
{
    match get(s, "pattern") {
        Some(Json::Str(p)) => {
            match search(p.as_str(), text.as_str()) {
                Some(false) => Some(diagnostic(span, Keyword::Pattern)),
                _ => None,
            }
        },
        _ => None,
    }
}

/// `format` names a registered format whose shape `text` lacks.
pub open spec fn format_fails(s: Json, text: Seq<char>) -> bool {
    match get_spec(s, "format"@) {
        Some(Json::Str(f)) => format_violated(f@, text),
        _ => false,
    }
}

/// `format`: the string lacks the shape of the named format. A name outside
/// the registry is no constraint.
pub fn check_format(text: &String, span: Span, s: &Json) -> (r: Option<Diagnostic>)
    ensures
        reported(r, format_fails(*s, text@), span, Keyword::Format),
{
    match get(s, "format") {
        Some(Json::Str(f)) => {
            if violates_format(f.as_str(), text.as_str()) {
                Some(diagnostic(span, Keyword::Format))
            } else {
                None
            }
        },
        _ => None,
    }
}

/// `multipleOf` is a positive divisor that does not divide `v`.
pub open spec fn not_multiple(s: Json, v: int) -> bool {
    match int_keyword(s, "multipleOf"@) {
        Some(d) => d > 0 && v % d != 0,
        None => false,
    }
}

/// `v` lies under `minimum`, or on it where `exclusiveMinimum` is `true`.
pub open spec fn below_minimum(s: Json, v: int) -> bool {
    match int_keyword(s, "minimum"@) {
        Some(m) => v < m || (flag_keyword(s, "exclusiveMinimum"@) && v == m),
        None => false,
    }
}

/// `v` lies over `maximum`, or on it where `exclusiveMaximum` is `true`.
pub open spec fn above_maximum(s: Json, v: int) -> bool {
    match int_keyword(s, "maximum"@) {
        Some(m) => v > m || (flag_keyword(s, "exclusiveMaximum"@) && v == m),
        None => false,
    }
}

pub fn check_multiple_of(v: i64, span: Span, s: &Json) -> (r: Option<Diagnostic>)
    ensures
        reported(r, not_multiple(*s, v as int), span, Keyword::MultipleOf),
{
    match number_keyword(s, "multipleOf") {
        Some(d) => {
            let magnitude: u64 = if v < 0 {
                (0 - (v as i128)) as u64
            } else {
                v as u64
            };
            proof {
                if d > 0 {
                    lemma_mod_of_negation(v as int, d as int);
                }
            }
            if d > 0 && magnitude % (d as u64) != 0 {
                Some(diagnostic(span, Keyword::MultipleOf))
            } else {
                None
            }
        },
        None => None,
    }
}

proof fn lemma_mod_of_negation(v: int, d: int)
    requires
        d > 0,
    ensures
        (v % d == 0) == ((-v) % d == 0),
{
    vstd::arithmetic::div_mod::lemma_fundamental_div_mod(v, d);
    vstd::arithmetic::div_mod::lemma_fundamental_div_mod(-v, d);
    if v % d == 0 {
        assert(-v == d * (-(v / d))) by (nonlinear_arith)
            requires
                v == d * (v / d),
        ;
        vstd::arithmetic::div_mod::lemma_mod_multiples_basic(-(v / d), d);
        assert(d * (-(v / d)) == (-(v / d)) * d) by (nonlinear_arith);
    }
    if (-v) % d == 0 {
        assert(v == d * (-((-v) / d))) by (nonlinear_arith)
            requires
                -v == d * ((-v) / d),
        ;
        vstd::arithmetic::div_mod::lemma_mod_multiples_basic(-((-v) / d), d);
        assert(d * (-((-v) / d)) == (-((-v) / d)) * d) by (nonlinear_arith);
    }
}

/// `minimum`, made exclusive by `exclusiveMinimum: true`.
pub fn check_minimum(v: i64, span: Span, s: &Json) -> (r: Option<Diagnostic>)
    ensures
        reported(r, below_minimum(*s, v as int), span, Keyword::Minimum),
{
    match number_keyword(s, "minimum") {
        Some(m) => {
            if v < m || (v == m && flag(s, "exclusiveMinimum")) {
                Some(diagnostic(span, Keyword::Minimum))
            } else {
                None
            }
        },
        None => None,
    }
}

/// `maximum`, made exclusive by `exclusiveMaximum: true`.
pub fn check_maximum(v: i64, span: Span, s: &Json) -> (r: Option<Diagnostic>)
    ensures
        reported(r, above_maximum(*s, v as int), span, Keyword::Maximum),
{
    match number_keyword(s, "maximum") {
        Some(m) => {
            if v > m || (v == m && flag(s, "exclusiveMaximum")) {
                Some(diagnostic(span, Keyword::Maximum))
            } else {
                None
            }
        },
        None => None,
    }
}

/// A count lies under the number bound `k` of `s`.
pub open spec fn under_bound(s: Json, k: Seq<char>, count: int) -> bool {
    match int_keyword(s, k) {
        Some(n) => count < n,
        None => false,
    }
}

/// A count lies over the number bound `k` of `s`.
pub open spec fn over_bound(s: Json, k: Seq<char>, count: int) -> bool {
    match int_keyword(s, k) {
        Some(n) => count > n,
        None => false,
    }
}

/// `minItems` or `minProperties`, as `keyword` says, against `count`.
pub fn check_min_count(count: usize, span: Span, s: &Json, keyword: Keyword) -> (r: Option<Diagnostic>)
    requires
        keyword == Keyword::MinItems || keyword == Keyword::MinProperties,
    ensures
        reported(r, under_bound(*s, keyword_name(keyword), count as int), span, keyword),
{
    let bound = if keyword == Keyword::MinItems {
        number_keyword(s, "minItems")
    } else {
        number_keyword(s, "minProperties")
    };
    match bound {
        Some(n) => {
            if n >= 0 && (count as u64) < (n as u64) {
                Some(diagnostic(span, keyword))
            } else {
                None
            }
        },
        None => None,
    }
}

/// `maxItems` or `maxProperties`, as `keyword` says, against `count`.
pub fn check_max_count(count: usize, span: Span, s: &Json, keyword: Keyword) -> (r: Option<Diagnostic>)
    requires
        keyword == Keyword::MaxItems || keyword == Keyword::MaxProperties,
    ensures
        reported(r, over_bound(*s, keyword_name(keyword), count as int), span, keyword),
{
    let bound = if keyword == Keyword::MaxItems {
        number_keyword(s, "maxItems")
    } else {
        number_keyword(s, "maxProperties")
    };
    match bound {
        Some(n) => {
            if n < 0 || (count as u64) > (n as u64) {
                Some(diagnostic(span, keyword))
            } else {
                None
            }
        },
        None => None,
    }
}

/// Two elements of `items` hold the same value.
pub open spec fn has_duplicate(items: Seq<Node>) -> bool {
    exists|i: int, j: int| 0 <= i < j < items.len() && same_value(#[trigger] items[i], #[trigger] items[j])
}

/// `uniqueItems: true` and two elements are equal: one diagnostic on the
/// whole array, whatever the number of equal pairs.
pub fn check_unique_items(items: &Vec<Node>, span: Span, s: &Json) -> (r: Option<Diagnostic>)
    ensures
        reported(r, flag_keyword(*s, "uniqueItems"@) && has_duplicate(items@), span, Keyword::UniqueItems),
{
    if !flag(s, "uniqueItems") {
        return None;
    }
    let mut i: usize = 0;
    while i < items.len()
        invariant
            i <= items.len(),
            flag_keyword(*s, "uniqueItems"@),
            forall|a: int, b: int| 0 <= a < i && a < b < items.len() ==> !same_value(#[trigger] items@[a], #[trigger] items@[b]),
        decreases items.len() - i,
    {
        let mut j: usize = i + 1;
        while j < items.len()
            invariant
                i < items.len(),
                flag_keyword(*s, "uniqueItems"@),
                i + 1 <= j <= items.len(),
                forall|a: int, b: int| 0 <= a < i && a < b < items.len() ==> !same_value(#[trigger] items@[a], #[trigger] items@[b]),
                forall|b: int| i < b < j ==> !same_value(items@[i as int], #[trigger] items@[b]),
            decreases items.len() - j,
        {
            if values_equal(&items[i], &items[j]) {
                assert(0 <= i < j < items.len() && same_value(items@[i as int], items@[j as int]));
                assert(has_duplicate(items@));
                return Some(diagnostic(span, Keyword::UniqueItems));
            }
            j = j + 1;
        }
        i = i + 1;
    }
    None
}

/// The names listed under `required`, in order, that no entry has as key.
pub open spec fn missing_names(req: Seq<Json>, es: Seq<Entry>) -> Seq<Seq<char>>
    decreases req.len(),
{
    if req.len() == 0 {
        seq![]
    } else {
        let rest = missing_names(req.drop_last(), es);
        match req.last() {
            Json::Str(n) => if has_key(es, n@) {
                rest
            } else {
                rest.push(n@)
            },
            _ => rest,
        }
    }
}

/// The required names that the object lacks.
pub open spec fn required_missing(s: Json, es: Seq<Entry>) -> Seq<Seq<char>> {
    match get_spec(s, "required"@) {
        Some(Json::Array(req)) => missing_names(req@, es),
        _ => seq![],
    }
}

/// `required`: one diagnostic per listed name that the object lacks,
/// naming it, in the order listed.
pub fn check_required(entries: &Vec<Entry>, span: Span, s: &Json) -> (r: Vec<Diagnostic>)
    ensures
        r@.len() == required_missing(*s, entries@).len(),
        forall|i: int| 0 <= i < r@.len() ==> (#[trigger] r@[i]).keyword == Keyword::Required
            && r@[i].span == span && r@[i].subject@ == required_missing(*s, entries@)[i],
{
    let mut out: Vec<Diagnostic> = Vec::new();
    if let Some(Json::Array(req)) = get(s, "required") {
        let mut i: usize = 0;
        while i < req.len()
            invariant
                i <= req.len(),
                get_spec(*s, "required"@) == Some(Json::Array(*req)),
                out@.len() == missing_names(req@.subrange(0, i as int), entries@).len(),
                forall|j: int| 0 <= j < out@.len() ==> (#[trigger] out@[j]).keyword == Keyword::Required
                    && out@[j].span == span && out@[j].subject@ == missing_names(req@.subrange(0, i as int), entries@)[j],
            decreases req.len() - i,
        {
            proof {
                let p = req@.subrange(0, i + 1);
                assert(p.drop_last() =~= req@.subrange(0, i as int));
                assert(p.last() == req@[i as int]);
            }
            if let Json::Str(n) = &req[i] {
                if !crate::document::contains_key(entries, n) {
                    out.push(Diagnostic { span, keyword: Keyword::Required, subject: n.clone(), counts: None });
                }
            }
            i = i + 1;
        }
        assert(req@.subrange(0, req@.len() as int) =~= req@);
    }
    out
}

} // verus!
