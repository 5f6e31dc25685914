//! The diagnostics that a validation produces, stated as a recursive
//! function of the document value and the schema fragment, in the order in
//! which the keywords are applied.

use crate::checks::{flag_keyword, has_duplicate, over_bound, required_missing, under_bound};
use crate::document::{has_key, Node, Span};
use crate::json::{get_spec, lemma_get_decreases, lemma_member_value_in, member_value, Json};
use crate::pattern::pattern_search;
use crate::report::{Diagnostic, Keyword};
use crate::validator::{declared, lemma_array_child, lemma_object_child, pattern_claims, scalar_findings};
use vstd::prelude::*;

verus! {

/// What a diagnostic says: where, which keyword, which name, which counts.
pub struct Finding {
    pub span: Span,
    pub keyword: Keyword,
    pub subject: Seq<char>,
    pub counts: Option<(int, int)>,
}

pub open spec fn finding_of(d: Diagnostic) -> Finding {
    Finding {
        span: d.span,
        keyword: d.keyword,
        subject: d.subject@,
        counts: match d.counts {
            Some((a, b)) => Some((a as int, b as int)),
            None => None,
        },
    }
}

pub open spec fn findings_of(ds: Seq<Diagnostic>) -> Seq<Finding> {
    ds.map_values(|d: Diagnostic| finding_of(d))
}

pub proof fn lemma_findings_append(a: Seq<Diagnostic>, b: Seq<Diagnostic>)
    ensures
        findings_of(a + b) == findings_of(a) + findings_of(b),
{
    assert(findings_of(a + b) =~= findings_of(a) + findings_of(b));
}

pub proof fn lemma_findings_push(a: Seq<Diagnostic>, d: Diagnostic)
    ensures
        findings_of(a.push(d)) == findings_of(a).push(finding_of(d)),
{
    assert(findings_of(a.push(d)) =~= findings_of(a).push(finding_of(d)));
}

/// A finding that names nothing.
pub open spec fn plain(span: Span, k: Keyword) -> Finding {
    Finding { span, keyword: k, subject: seq![], counts: None }
}

pub open spec fn plains(span: Span, ks: Seq<Keyword>) -> Seq<Finding> {
    ks.map_values(|k: Keyword| plain(span, k))
}

pub open spec fn flag_if(span: Span, k: Keyword, violated: bool) -> Seq<Finding> {
    if violated {
        seq![plain(span, k)]
    } else {
        seq![]
    }
}

/// The diagnostics of validating `n` against `s`: `type` and `enum`, the
/// checks of its kind, and for arrays and objects their composed keywords.
pub open spec fn findings(n: Node, s: Json) -> Seq<Finding>
    decreases n, s, 4int, 0int,
{
    plains(n.span, scalar_findings(n, s)) + if n.value is Array {
        array_findings(n, s)
    } else if n.value is Object {
        object_findings(n, s)
    } else {
        seq![]
    }
}

/// `minItems`, `maxItems`, `items` / `additionalItems`, then `uniqueItems`.
pub open spec fn array_findings(n: Node, s: Json) -> Seq<Finding>
    decreases n, s, 3int, 0int,
{
    let items = n.value->Array_0@;
    flag_if(n.span, Keyword::MinItems, under_bound(s, "minItems"@, items.len() as int)) + flag_if(
        n.span,
        Keyword::MaxItems,
        over_bound(s, "maxItems"@, items.len() as int),
    ) + items_findings(n, s) + flag_if(
        n.span,
        Keyword::UniqueItems,
        flag_keyword(s, "uniqueItems"@) && has_duplicate(items),
    )
}

/// One `additionalItems` finding per element from `from` to `to`, on it.
pub open spec fn excess_findings(n: Node, from: int, to: int) -> Seq<Finding> {
    let items = n.value->Array_0@;
    Seq::new(
        (to - from) as nat,
        |k: int|
            Finding {
                span: items[from + k].span,
                keyword: Keyword::AdditionalItems,
                subject: seq![],
                counts: Some((from, to)),
            },
    )
}

pub open spec fn items_findings(n: Node, s: Json) -> Seq<Finding>
    decreases n, s, 2int, 0int
    via items_findings_decreases
{
    let items = n.value->Array_0@;
    let it = get_spec(s, "items"@);
    if it is Some && it->0 is Object {
        range_findings(n, it->0, 0, items.len() as int)
    } else if it is Some && it->0 is Array {
        let list = it->0->Array_0@;
        let extra = get_spec(s, "additionalItems"@);
        listed_findings(n, it->0, if items.len() < list.len() { items.len() as int } else { list.len() as int })
            + if extra is Some && extra->0 is Object {
            range_findings(n, extra->0, list.len() as int, items.len() as int)
        } else if extra == Some(Json::Bool(false)) && list.len() < items.len() {
            excess_findings(n, list.len() as int, items.len() as int)
        } else {
            seq![]
        }
    } else {
        seq![]
    }
}

/// The elements from `from` to `to`, each against `sub`.
pub open spec fn range_findings(n: Node, sub: Json, from: int, to: int) -> Seq<Finding>
    decreases n, sub, 1int, to - from
    via range_findings_decreases
{
    let items = n.value->Array_0@;
    if !(n.value is Array) || to <= from || to > items.len() || from < 0 {
        seq![]
    } else {
        range_findings(n, sub, from, to - 1) + findings(items[to - 1], sub)
    }
}

/// The first `i` elements, each against the schema at its index in `list`.
pub open spec fn listed_findings(n: Node, list: Json, i: int) -> Seq<Finding>
    decreases n, list, 1int, i
    via listed_findings_decreases
{
    let items = n.value->Array_0@;
    if !(n.value is Array) || i <= 0 || i > items.len() || i > list->Array_0@.len() {
        seq![]
    } else {
        listed_findings(n, list, i - 1) + findings(items[i - 1], list->Array_0@[i - 1])
    }
}

/// `properties`, `patternProperties`, `additionalProperties`,
/// `dependencies`, `maxProperties`, `minProperties`, then `required`.
pub open spec fn object_findings(n: Node, s: Json) -> Seq<Finding>
    decreases n, s, 3int, 0int,
{
    let es = n.value->Object_0@;
    let dp = get_spec(s, "dependencies"@);
    properties_findings(n, s, es.len() as int) + patterns_findings(n, s, es.len() as int)
        + additional_findings(n, s, es.len() as int) + (if dp is Some && dp->0 is Object {
        dependencies_findings(n, s, dp->0->Object_0@.len() as int)
    } else {
        seq![]
    }) + flag_if(n.span, Keyword::MaxProperties, over_bound(s, "maxProperties"@, es.len() as int))
        + flag_if(n.span, Keyword::MinProperties, under_bound(s, "minProperties"@, es.len() as int))
        + required_missing(s, es).map_values(
        |name: Seq<char>| Finding { span: n.span, keyword: Keyword::Required, subject: name, counts: None },
    )
}

/// The first `i` entries: each declared one against its property schema.
pub open spec fn properties_findings(n: Node, s: Json, i: int) -> Seq<Finding>
    decreases n, s, 2int, i
    via properties_findings_decreases
{
    let es = n.value->Object_0@;
    if !(n.value is Object) || i <= 0 || i > es.len() {
        seq![]
    } else {
        properties_findings(n, s, i - 1) + if declared(s, es[i - 1].key@) {
            findings(es[i - 1].value, member_value(get_spec(s, "properties"@)->0->Object_0@, es[i - 1].key@)->0)
        } else {
            seq![]
        }
    }
}

/// The first `i` entries: each undeclared one against every pattern schema
/// whose pattern finds a match in its key.
pub open spec fn patterns_findings(n: Node, s: Json, i: int) -> Seq<Finding>
    decreases n, s, 2int, i,
{
    let es = n.value->Object_0@;
    let pp = get_spec(s, "patternProperties"@);
    if !(n.value is Object) || i <= 0 || i > es.len() {
        seq![]
    } else {
        patterns_findings(n, s, i - 1) + if !declared(s, es[i - 1].key@) && pp is Some && pp->0 is Object {
            pattern_findings(n, s, i - 1, pp->0->Object_0@.len() as int)
        } else {
            seq![]
        }
    }
}

/// Entry `e` against the first `j` pattern schemas whose pattern matches.
pub open spec fn pattern_findings(n: Node, s: Json, e: int, j: int) -> Seq<Finding>
    decreases n, s, 1int, j
    via pattern_findings_decreases
{
    let es = n.value->Object_0@;
    let pps = get_spec(s, "patternProperties"@)->0->Object_0@;
    if !(n.value is Object) || j <= 0 || e < 0 || e >= es.len() || j > pps.len() {
        seq![]
    } else {
        pattern_findings(n, s, e, j - 1) + if pattern_search(pps[j - 1].key@, es[e].key@) == Some(true) {
            findings(es[e].value, pps[j - 1].value)
        } else {
            seq![]
        }
    }
}

/// The first `i` entries: each one that neither `properties` nor
/// `patternProperties` claimed, as `additionalProperties` says.
pub open spec fn additional_findings(n: Node, s: Json, i: int) -> Seq<Finding>
    decreases n, s, 2int, i
    via additional_findings_decreases
{
    let es = n.value->Object_0@;
    let ap = get_spec(s, "additionalProperties"@);
    if !(n.value is Object) || i <= 0 || i > es.len() {
        seq![]
    } else {
        additional_findings(n, s, i - 1) + if declared(s, es[i - 1].key@) || pattern_claims(s, es[i - 1].key@) {
            seq![]
        } else if ap == Some(Json::Bool(true)) {
            findings(es[i - 1].value, s)
        } else if ap is Some && ap->0 is Object {
            findings(es[i - 1].value, ap->0)
        } else if ap == Some(Json::Bool(false)) {
            seq![Finding { span: es[i - 1].value.span, keyword: Keyword::AdditionalProperties, subject: es[i - 1].key@, counts: None }]
        } else {
            seq![]
        }
    }
}

/// The names listed among the first `k` of `names` that the object lacks.
pub open spec fn companion_findings(n: Node, names: Seq<Json>, k: int) -> Seq<Finding>
    decreases k,
{
    let es = n.value->Object_0@;
    if k <= 0 || k > names.len() {
        seq![]
    } else {
        companion_findings(n, names, k - 1) + if names[k - 1] is Str && !has_key(es, names[k - 1]->Str_0@) {
            seq![Finding { span: n.span, keyword: Keyword::Dependencies, subject: names[k - 1]->Str_0@, counts: None }]
        } else {
            seq![]
        }
    }
}

/// The first `j` dependencies whose key the object holds: a list of names,
/// or a schema that the whole object is validated against.
pub open spec fn dependencies_findings(n: Node, s: Json, j: int) -> Seq<Finding>
    decreases n, s, 2int, j
    via dependencies_findings_decreases
{
    let es = n.value->Object_0@;
    let dms = get_spec(s, "dependencies"@)->0->Object_0@;
    if j <= 0 || j > dms.len() || !(get_spec(s, "dependencies"@) is Some && get_spec(s, "dependencies"@)->0 is Object) {
        seq![]
    } else {
        dependencies_findings(n, s, j - 1) + if !has_key(es, dms[j - 1].key@) {
            seq![]
        } else if dms[j - 1].value is Array {
            companion_findings(n, dms[j - 1].value->Array_0@, dms[j - 1].value->Array_0@.len() as int)
        } else if dms[j - 1].value is Object {
            findings(n, dms[j - 1].value)
        } else {
            seq![]
        }
    }
}

#[via_fn]
proof fn items_findings_decreases(n: Node, s: Json) {
    if get_spec(s, "items"@) is Some {
        lemma_get_decreases(s, "items"@);
    }
    if get_spec(s, "additionalItems"@) is Some {
        lemma_get_decreases(s, "additionalItems"@);
    }
}

#[via_fn]
proof fn range_findings_decreases(n: Node, sub: Json, from: int, to: int) {
    if n.value is Array && 0 <= from < to <= n.value->Array_0@.len() {
        lemma_array_child(n, to - 1);
        assert(n.value->Array_0@[to - 1] == n.value->Array_0[to - 1]);
    }
}

#[via_fn]
proof fn listed_findings_decreases(n: Node, list: Json, i: int) {
    if n.value is Array && 0 < i <= n.value->Array_0@.len() {
        lemma_array_child(n, i - 1);
        assert(n.value->Array_0@[i - 1] == n.value->Array_0[i - 1]);
    }
}

#[via_fn]
proof fn properties_findings_decreases(n: Node, s: Json, i: int) {
    if n.value is Object && 0 < i <= n.value->Object_0@.len() {
        lemma_object_child(n, i - 1);
        assert(n.value->Object_0@[i - 1] == n.value->Object_0[i - 1]);
    }
}

#[via_fn]
proof fn pattern_findings_decreases(n: Node, s: Json, e: int, j: int) {
    if n.value is Object && 0 <= e < n.value->Object_0@.len() {
        lemma_object_child(n, e);
        assert(n.value->Object_0@[e] == n.value->Object_0[e]);
    }
}

#[via_fn]
proof fn additional_findings_decreases(n: Node, s: Json, i: int) {
    if n.value is Object && 0 < i <= n.value->Object_0@.len() {
        lemma_object_child(n, i - 1);
        assert(n.value->Object_0@[i - 1] == n.value->Object_0[i - 1]);
    }
}

#[via_fn]
proof fn dependencies_findings_decreases(n: Node, s: Json, j: int) {
    let dp = get_spec(s, "dependencies"@);
    if dp is Some && dp->0 is Object && 0 < j <= dp->0->Object_0@.len() {
        lemma_get_decreases(s, "dependencies"@);
        let ms = dp->0->Object_0;
        assert(decreases_to!(dp->0 => ms));
        assert(decreases_to!(ms => ms[j - 1]));
        assert(decreases_to!(ms[j - 1] => ms[j - 1].value));
    }
}

} // verus!

verus! {

/// Validation is deterministic: two validations of one value against one
/// fragment, each meeting the validator's contract, give the same
/// diagnostics in the same order.
pub proof fn lemma_validation_deterministic(a: Seq<Diagnostic>, b: Seq<Diagnostic>, n: Node, s: Json)
    requires
        findings_of(a) == findings(n, s),
        findings_of(b) == findings(n, s),
    ensures
        findings_of(a) == findings_of(b),
{
}

pub proof fn lemma_properties_absent(n: Node, s: Json, i: int)
    requires
        !(get_spec(s, "properties"@) is Some && get_spec(s, "properties"@)->0 is Object),
    ensures
        properties_findings(n, s, i) == Seq::<Finding>::empty(),
    decreases i,
{
    if i > 0 {
        lemma_properties_absent(n, s, i - 1);
    }
}

pub proof fn lemma_patterns_absent(n: Node, s: Json, i: int)
    requires
        !(get_spec(s, "patternProperties"@) is Some && get_spec(s, "patternProperties"@)->0 is Object),
    ensures
        patterns_findings(n, s, i) == Seq::<Finding>::empty(),
    decreases i,
{
    if i > 0 {
        lemma_patterns_absent(n, s, i - 1);
    }
}

pub proof fn lemma_additional_absent(n: Node, s: Json, i: int)
    requires
        get_spec(s, "additionalProperties"@) is None,
    ensures
        additional_findings(n, s, i) == Seq::<Finding>::empty(),
    decreases i,
{
    if i > 0 {
        lemma_additional_absent(n, s, i - 1);
    }
}

} // verus!
