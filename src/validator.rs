//! The recursive validator: pairs each document value with a schema
//! fragment, runs the checks that apply to its kind, and composes the
//! structural keywords of objects and arrays.

use crate::checks::{
    above_max_length, above_maximum, below_min_length, below_minimum, check_enum, check_format,
    check_max_count, check_max_length, check_maximum, check_min_count, check_min_length,
    check_minimum, check_multiple_of, check_pattern, check_required, check_type,
    check_unique_items, diagnostic, enum_mismatch, format_fails, not_multiple, pattern_fails,
    flag_keyword, has_duplicate, over_bound, reported, required_missing, type_mismatch, under_bound,
};
use crate::document::{contains_key, has_key, Entry, Node, NodeValue, Span};
use crate::json::{
    get, get_spec, has_keyword, lemma_get_decreases, lemma_get_keyword, member, member_value,
    same_json, Json,
};
use crate::pattern::{pattern_search, search};
use crate::report::{
    attributable, covers, keyword_name, lemma_attributable_append, lemma_grows_append, lemma_grows_trans, grows, reports,
    reports_named, Diagnostic, Keyword, Report, SchemaMatch,
};
use crate::expected::{
    additional_findings, array_findings, companion_findings, dependencies_findings, excess_findings,
    findings, findings_of, finding_of, flag_if, items_findings, lemma_additional_absent, lemma_findings_append,
    lemma_findings_push, lemma_patterns_absent, lemma_properties_absent,
    listed_findings, object_findings, pattern_findings, patterns_findings, plain, plains,
    properties_findings, range_findings, Finding,
};
use vstd::prelude::*;

verus! {

/// Validates documents against one schema, held for the validator's life.
pub struct JSONSchemaValidator {
    pub schema: Json,
}

pub proof fn lemma_covers_get(s: Json, k: Seq<char>)
    requires
        get_spec(s, k) is Some,
    ensures
        covers(s, get_spec(s, k)->0),
{
    assert forall|k2: Seq<char>| #[trigger] has_keyword(get_spec(s, k)->0, k2) implies has_keyword(s, k2) by {
        lemma_get_keyword(s, k, k2);
    }
}

pub proof fn lemma_covers_element(s: Json, i: int)
    requires
        s is Array,
        0 <= i < s->Array_0.len(),
    ensures
        covers(s, s->Array_0[i]),
{
    let xs = s->Array_0;
    assert forall|k: Seq<char>| #[trigger] has_keyword(xs[i], k) implies has_keyword(s, k) by {
        assert(0 <= i < xs.len() && has_keyword(xs[i], k));
    }
}

pub proof fn lemma_covers_member(s: Json, i: int)
    requires
        s is Object,
        0 <= i < s->Object_0.len(),
    ensures
        covers(s, s->Object_0[i].value),
{
    let ms = s->Object_0;
    assert forall|k: Seq<char>| #[trigger] has_keyword(ms[i].value, k) implies has_keyword(s, k) by {
        assert(0 <= i < ms.len() && has_keyword(ms[i].value, k));
    }
}

pub proof fn lemma_covers_trans(a: Json, b: Json, c: Json)
    requires
        covers(a, b),
        covers(b, c),
    ensures
        covers(a, c),
{
    assert forall|k: Seq<char>| #[trigger] has_keyword(c, k) implies has_keyword(a, k) by {
        assert(has_keyword(b, k));
    }
}

pub proof fn lemma_array_child(node: Node, i: int)
    requires
        node.value is Array,
        0 <= i < node.value->Array_0.len(),
    ensures
        decreases_to!(node => node.value->Array_0[i]),
{
    assert(decreases_to!(node => node.value));
    assert(decreases_to!(node.value => node.value->Array_0));
}

pub proof fn lemma_object_child(node: Node, i: int)
    requires
        node.value is Object,
        0 <= i < node.value->Object_0.len(),
    ensures
        decreases_to!(node => node.value->Object_0[i].value),
{
    assert(decreases_to!(node => node.value));
    assert(decreases_to!(node.value => node.value->Object_0));
    assert(decreases_to!(node.value->Object_0 => node.value->Object_0[i]));
}

/// The keywords of a list of diagnostics, in order.
pub open spec fn keywords_of(ds: Seq<Diagnostic>) -> Seq<Keyword> {
    ds.map_values(|d: Diagnostic| d.keyword)
}

/// Every diagnostic among `ds` stands at `span` and names nothing.
pub open spec fn all_at(ds: Seq<Diagnostic>, span: Span) -> bool {
    forall|i: int| 0 <= i < ds.len() ==> (#[trigger] ds[i]).span == span && ds[i].subject@ == Seq::<char>::empty()
        && ds[i].counts is None
}

pub proof fn lemma_all_at_findings(ds: Seq<Diagnostic>, span: Span)
    requires
        all_at(ds, span),
    ensures
        findings_of(ds) == plains(span, keywords_of(ds)),
{
    assert forall|i: int| 0 <= i < ds.len() implies findings_of(ds)[i] == plains(span, keywords_of(ds))[i] by {
        assert(ds[i].subject@ =~= Seq::<char>::empty());
    }
    assert(findings_of(ds) =~= plains(span, keywords_of(ds)));
}

/// `k` once where `violated`, else nothing.
pub open spec fn flagged(k: Keyword, violated: bool) -> Seq<Keyword> {
    if violated {
        seq![k]
    } else {
        seq![]
    }
}

/// The keywords that a scalar value violates under `s`, in the order they
/// are checked: `type`, `enum`, then those of its kind.
pub open spec fn scalar_findings(n: Node, s: Json) -> Seq<Keyword> {
    flagged(Keyword::Type, type_mismatch(s, n.value)) + flagged(Keyword::Enum, enum_mismatch(s, n))
        + match n.value {
        NodeValue::Str(t) => flagged(Keyword::MinLength, below_min_length(s, t@)) + flagged(
            Keyword::MaxLength,
            above_max_length(s, t@),
        ) + flagged(Keyword::Pattern, pattern_fails(s, t@)) + flagged(Keyword::Format, format_fails(s, t@)),
        NodeValue::Number(n) => flagged(Keyword::MultipleOf, not_multiple(s, n as int)) + flagged(
            Keyword::Minimum,
            below_minimum(s, n as int),
        ) + flagged(Keyword::Maximum, above_maximum(s, n as int)),
        _ => seq![],
    }
}

/// The array's own keywords that `node` violates under `s` are each reported
/// on it: `minItems`, `maxItems`, `uniqueItems`.
pub open spec fn array_reported(ds: Seq<Diagnostic>, node: Node, s: Json) -> bool {
    let n = node.value->Array_0@.len() as int;
    &&& under_bound(s, "minItems"@, n) ==> reports(ds, node.span, Keyword::MinItems)
    &&& over_bound(s, "maxItems"@, n) ==> reports(ds, node.span, Keyword::MaxItems)
    &&& flag_keyword(s, "uniqueItems"@) && has_duplicate(node.value->Array_0@) ==> reports(
        ds,
        node.span,
        Keyword::UniqueItems,
    )
}

/// The object's own count bounds that `node` violates under `s` are
/// reported on it, and every required name it lacks is reported.
pub open spec fn object_reported(ds: Seq<Diagnostic>, node: Node, s: Json) -> bool {
    let es = node.value->Object_0@;
    &&& under_bound(s, "minProperties"@, es.len() as int) ==> reports(ds, node.span, Keyword::MinProperties)
    &&& over_bound(s, "maxProperties"@, es.len() as int) ==> reports(ds, node.span, Keyword::MaxProperties)
    &&& forall|j: int| 0 <= j < required_missing(s, es).len() ==> #[trigger] reports_named(ds, Keyword::Required, required_missing(s, es)[j])
}

/// The string checks that `t` violates under `s` are reported at `span`.
pub open spec fn string_reported(ds: Seq<Diagnostic>, span: Span, s: Json, t: Seq<char>) -> bool {
    &&& below_min_length(s, t) ==> reports(ds, span, Keyword::MinLength)
    &&& above_max_length(s, t) ==> reports(ds, span, Keyword::MaxLength)
    &&& pattern_fails(s, t) ==> reports(ds, span, Keyword::Pattern)
    &&& format_fails(s, t) ==> reports(ds, span, Keyword::Format)
}

/// The number checks that `v` violates under `s` are reported at `span`.
pub open spec fn number_reported(ds: Seq<Diagnostic>, span: Span, s: Json, v: int) -> bool {
    &&& not_multiple(s, v) ==> reports(ds, span, Keyword::MultipleOf)
    &&& below_minimum(s, v) ==> reports(ds, span, Keyword::Minimum)
    &&& above_maximum(s, v) ==> reports(ds, span, Keyword::Maximum)
}

/// Every keyword of `f` that the node `n` itself violates is reported in
/// `ds`: `type`, `enum`, and the keywords of its kind (those that concern
/// its own value, not its children's).
pub open spec fn own_reported(ds: Seq<Diagnostic>, n: Node, f: Json) -> bool {
    &&& type_mismatch(f, n.value) ==> reports(ds, n.span, Keyword::Type)
    &&& enum_mismatch(f, n) ==> reports(ds, n.span, Keyword::Enum)
    &&& n.value is Str ==> string_reported(ds, n.span, f, n.value->Str_0@)
    &&& n.value is Number ==> number_reported(ds, n.span, f, n.value->Number_0 as int)
    &&& n.value is Array ==> array_reported(ds, n, f)
    &&& n.value is Object ==> object_reported(ds, n, f)
}

pub proof fn lemma_own_grows(a: Seq<Diagnostic>, b: Seq<Diagnostic>, n: Node, f: Json)
    requires
        grows(a, b),
        own_reported(a, n, f),
    ensures
        own_reported(b, n, f),
{
    if n.value is Object {
        let es = n.value->Object_0@;
        assert forall|j: int| 0 <= j < required_missing(f, es).len() implies #[trigger] reports_named(b, Keyword::Required, required_missing(f, es)[j]) by {
            assert(reports_named(a, Keyword::Required, required_missing(f, es)[j]));
        }
    }
}

/// Of the object keywords, `s` holds none but `required` that could report
/// anything on an object of `count` entries.
pub open spec fn only_required(s: Json, count: int) -> bool {
    &&& get_spec(s, "properties"@) is None
    &&& get_spec(s, "patternProperties"@) is None
    &&& get_spec(s, "additionalProperties"@) is None
    &&& get_spec(s, "dependencies"@) is None
    &&& !under_bound(s, "minProperties"@, count)
    &&& !over_bound(s, "maxProperties"@, count)
}

/// Of the array keywords, `s` holds none but `uniqueItems` that could report
/// anything on an array of `count` elements.
pub open spec fn only_unique(s: Json, count: int) -> bool {
    &&& get_spec(s, "items"@) is None
    &&& !under_bound(s, "minItems"@, count)
    &&& !over_bound(s, "maxItems"@, count)
}

/// The diagnostics are exactly one per name in `names`, in order, each due to
/// `required` and at `span`.
pub open spec fn exactly_required(ds: Seq<Diagnostic>, names: Seq<Seq<char>>, span: Span) -> bool {
    &&& ds.len() == names.len()
    &&& forall|j: int| 0 <= j < ds.len() ==> (#[trigger] ds[j]).keyword == Keyword::Required
        && ds[j].subject@ == names[j] && ds[j].span == span && ds[j].counts is None
}

pub proof fn lemma_exactly_required_findings(ds: Seq<Diagnostic>, names: Seq<Seq<char>>, span: Span)
    requires
        exactly_required(ds, names, span),
    ensures
        findings_of(ds) == names.map_values(
            |name: Seq<char>| Finding { span, keyword: Keyword::Required, subject: name, counts: None },
        ),
{
    assert(findings_of(ds) =~= names.map_values(
        |name: Seq<char>| Finding { span, keyword: Keyword::Required, subject: name, counts: None },
    ));
}

/// A check result, as a list of findings, is the finding of its keyword
/// where violated.
pub proof fn lemma_reported_flag(d: Option<Diagnostic>, violated: bool, span: Span, k: Keyword)
    requires
        reported(d, violated, span, k),
    ensures
        (if d is Some {
            seq![finding_of(d->0)]
        } else {
            Seq::<Finding>::empty()
        }) == flag_if(span, k, violated),
{
    if d is Some {
        assert(finding_of(d->0) == plain(span, k));
        assert(seq![finding_of(d->0)] =~= flag_if(span, k, violated));
    } else {
        assert(Seq::<Finding>::empty() =~= flag_if(span, k, violated));
    }
}

/// Adds a check's diagnostic, if any, to `r`.
fn record(r: &mut Report, d: Option<Diagnostic>, Ghost(s): Ghost<Json>)
    requires
        attributable(old(r).diagnostics@, s),
        d is Some ==> get_spec(s, keyword_name(d->0.keyword)) is Some,
    ensures
        attributable(final(r).diagnostics@, s),
        final(r).matches@ == old(r).matches@,
        d is None ==> final(r).diagnostics@ == old(r).diagnostics@,
        d is Some ==> final(r).diagnostics@ == old(r).diagnostics@.push(d->0),
        keywords_of(final(r).diagnostics@) == keywords_of(old(r).diagnostics@) + if d is Some {
            seq![d->0.keyword]
        } else {
            seq![]
        },
        forall|sp: Span| all_at(old(r).diagnostics@, sp) && (d is Some ==> d->0.span == sp && d->0.subject@
            == Seq::<char>::empty() && d->0.counts is None) ==> #[trigger] all_at(final(r).diagnostics@, sp),
        grows(old(r).diagnostics@, final(r).diagnostics@),
        d is Some ==> reports(final(r).diagnostics@, d->0.span, d->0.keyword),
        d is Some ==> reports_named(final(r).diagnostics@, d->0.keyword, d->0.subject@),
        findings_of(final(r).diagnostics@) == findings_of(old(r).diagnostics@) + if d is Some {
            seq![finding_of(d->0)]
        } else {
            Seq::<Finding>::empty()
        },
{
    proof {
        if d is Some {
            lemma_findings_push(old(r).diagnostics@, d->0);
            assert(findings_of(old(r).diagnostics@).push(finding_of(d->0)) =~= findings_of(old(r).diagnostics@) + seq![finding_of(d->0)]);
        } else {
            assert(findings_of(old(r).diagnostics@) =~= findings_of(old(r).diagnostics@) + Seq::<Finding>::empty());
        }
        lemma_grows_append(old(r).diagnostics@, seq![]);
        if d is Some {
            lemma_grows_append(old(r).diagnostics@, seq![d->0]);
            assert(old(r).diagnostics@ + seq![] =~= old(r).diagnostics@);
            assert(old(r).diagnostics@.push(d->0) =~= old(r).diagnostics@ + seq![d->0]);
            assert(old(r).diagnostics@.push(d->0)[old(r).diagnostics@.len() as int] == d->0);
        } else {
            assert(old(r).diagnostics@ + seq![] =~= old(r).diagnostics@);
        }
    }
    if let Some(d) = d {
        proof {
            lemma_get_keyword(s, keyword_name(d.keyword), keyword_name(d.keyword));
        }
        r.diagnostics.push(d);
        assert(keywords_of(r.diagnostics@) =~= keywords_of(old(r).diagnostics@) + seq![d.keyword]);
    } else {
        assert(keywords_of(r.diagnostics@) =~= keywords_of(old(r).diagnostics@) + seq![]);
    }
}

/// Merges the report `o` of a fragment `sub` of `s` into `r`.
fn absorb(r: &mut Report, o: Report, Ghost(s): Ghost<Json>, Ghost(sub): Ghost<Json>)
    requires
        attributable(old(r).diagnostics@, s),
        attributable(o.diagnostics@, sub),
        covers(s, sub),
    ensures
        attributable(final(r).diagnostics@, s),
        final(r).matches@ == old(r).matches@ + o.matches@,
        final(r).diagnostics@ == old(r).diagnostics@ + o.diagnostics@,
        grows(old(r).diagnostics@, final(r).diagnostics@),
        grows(o.diagnostics@, final(r).diagnostics@),
        findings_of(final(r).diagnostics@) == findings_of(old(r).diagnostics@) + findings_of(o.diagnostics@),
{
    proof {
        lemma_findings_append(old(r).diagnostics@, o.diagnostics@);
        lemma_attributable_append(old(r).diagnostics@, o.diagnostics@, s, sub);
        lemma_grows_append(old(r).diagnostics@, o.diagnostics@);
    }
    r.merge(o);
}

/// Keyword `k` is declared under `properties` of `s`.
pub open spec fn declared(s: Json, k: Seq<char>) -> bool {
    match get_spec(s, "properties"@) {
        Some(Json::Object(pms)) => member_value(pms@, k) is Some,
        _ => false,
    }
}

/// An entry left unclaimed by `properties` and `patternProperties` is dealt
/// with by `additionalProperties`: under `true` its value's own violations of
/// the whole fragment are reported, under a schema those of that schema, and
/// under `false` the entry itself is reported by its key.
pub open spec fn unclaimed_entry_reported(ds: Seq<Diagnostic>, e: Entry, s: Json) -> bool {
    let ap = get_spec(s, "additionalProperties"@);
    &&& ap == Some(Json::Bool(true)) ==> own_reported(ds, e.value, s)
    &&& ap is Some && ap->0 is Object ==> own_reported(ds, e.value, ap->0)
    &&& ap == Some(Json::Bool(false)) ==> reports_named(ds, Keyword::AdditionalProperties, e.key@)
}

pub proof fn lemma_unclaimed_entry_grows(a: Seq<Diagnostic>, b: Seq<Diagnostic>, e: Entry, s: Json)
    requires
        grows(a, b),
        unclaimed_entry_reported(a, e, s),
    ensures
        unclaimed_entry_reported(b, e, s),
{
    let ap = get_spec(s, "additionalProperties"@);
    if ap == Some(Json::Bool(true)) {
        lemma_own_grows(a, b, e.value, s);
    }
    if ap is Some && ap->0 is Object {
        lemma_own_grows(a, b, e.value, ap->0);
    }
}

/// Some pattern of `patternProperties` finds a match in the key `k`.
pub open spec fn pattern_claims(s: Json, k: Seq<char>) -> bool {
    let pp = get_spec(s, "patternProperties"@);
    &&& pp is Some
    &&& pp->0 is Object
    &&& exists|j: int| 0 <= j < pp->0->Object_0@.len() && pattern_search((#[trigger] pp->0->Object_0@[j]).key@, k) == Some(true)
}

/// The value of every entry declared under `properties` has its own
/// violations of its property schema reported.
pub open spec fn properties_reported(ds: Seq<Diagnostic>, node: Node, s: Json) -> bool {
    let es = node.value->Object_0@;
    forall|i: int| 0 <= i < es.len() && declared(s, es[i].key@) ==> own_reported(
        ds,
        (#[trigger] es[i]).value,
        member_value(get_spec(s, "properties"@)->0->Object_0@, es[i].key@)->0,
    )
}

/// The value of every undeclared entry has its own violations reported
/// under each pattern schema whose pattern finds a match in its key.
pub open spec fn patterns_reported(ds: Seq<Diagnostic>, node: Node, s: Json) -> bool {
    let es = node.value->Object_0@;
    let pp = get_spec(s, "patternProperties"@);
    pp is Some && pp->0 is Object ==> forall|i: int, j: int|
        0 <= i < es.len() && !declared(s, es[i].key@) && 0 <= j < pp->0->Object_0@.len()
            && pattern_search(pp->0->Object_0@[j].key@, es[i].key@) == Some(true) ==> own_reported(
            ds,
            (#[trigger] es[i]).value,
            (#[trigger] pp->0->Object_0@[j]).value,
        )
}

/// Every entry that neither `properties` nor `patternProperties` claims is
/// dealt with by `additionalProperties`.
pub open spec fn additional_reported(ds: Seq<Diagnostic>, node: Node, s: Json) -> bool {
    let es = node.value->Object_0@;
    forall|i: int| 0 <= i < es.len() && !declared(s, es[i].key@) && !pattern_claims(s, es[i].key@)
        ==> unclaimed_entry_reported(ds, #[trigger] es[i], s)
}

/// A dependency `d` of a key that the object holds: a schema has the
/// object's own violations of it reported; a list has each listed name that
/// the object lacks reported.
pub open spec fn dependency_reported(ds: Seq<Diagnostic>, node: Node, d: Json) -> bool {
    let es = node.value->Object_0@;
    &&& d is Object ==> own_reported(ds, node, d)
    &&& d is Array ==> forall|k: int|
        0 <= k < d->Array_0@.len() && (#[trigger] d->Array_0@[k]) is Str && !has_key(es, d->Array_0@[k]->Str_0@)
            ==> reports_named(ds, Keyword::Dependencies, d->Array_0@[k]->Str_0@)
}

pub open spec fn dependencies_reported(ds: Seq<Diagnostic>, node: Node, s: Json) -> bool {
    let es = node.value->Object_0@;
    let dp = get_spec(s, "dependencies"@);
    dp is Some && dp->0 is Object ==> forall|j: int|
        0 <= j < dp->0->Object_0@.len() && has_key(es, dp->0->Object_0@[j].key@) ==> dependency_reported(
            ds,
            node,
            (#[trigger] dp->0->Object_0@[j]).value,
        )
}

/// The entries' values, each under the schemas that govern it, and the
/// dependencies of the keys present.
pub open spec fn entries_reported(ds: Seq<Diagnostic>, node: Node, s: Json) -> bool {
    &&& properties_reported(ds, node, s)
    &&& patterns_reported(ds, node, s)
    &&& additional_reported(ds, node, s)
    &&& dependencies_reported(ds, node, s)
}

pub proof fn lemma_dependency_grows(a: Seq<Diagnostic>, b: Seq<Diagnostic>, node: Node, d: Json)
    requires
        grows(a, b),
        dependency_reported(a, node, d),
    ensures
        dependency_reported(b, node, d),
{
    if d is Object {
        lemma_own_grows(a, b, node, d);
    }
}

pub proof fn lemma_entries_grows(a: Seq<Diagnostic>, b: Seq<Diagnostic>, node: Node, s: Json)
    requires
        grows(a, b),
        node.value is Object,
    ensures
        properties_reported(a, node, s) ==> properties_reported(b, node, s),
        patterns_reported(a, node, s) ==> patterns_reported(b, node, s),
        additional_reported(a, node, s) ==> additional_reported(b, node, s),
        dependencies_reported(a, node, s) ==> dependencies_reported(b, node, s),
{
    let es = node.value->Object_0@;
    if properties_reported(a, node, s) {
        assert forall|i: int| 0 <= i < es.len() && declared(s, es[i].key@) implies own_reported(
            b,
            (#[trigger] es[i]).value,
            member_value(get_spec(s, "properties"@)->0->Object_0@, es[i].key@)->0,
        ) by {
            lemma_own_grows(a, b, es[i].value, member_value(get_spec(s, "properties"@)->0->Object_0@, es[i].key@)->0);
        }
    }
    let pp = get_spec(s, "patternProperties"@);
    if patterns_reported(a, node, s) && pp is Some && pp->0 is Object {
        assert forall|i: int, j: int|
            0 <= i < es.len() && !declared(s, es[i].key@) && 0 <= j < pp->0->Object_0@.len()
                && pattern_search(pp->0->Object_0@[j].key@, es[i].key@) == Some(true) implies own_reported(
                b,
                (#[trigger] es[i]).value,
                (#[trigger] pp->0->Object_0@[j]).value,
            ) by {
            lemma_own_grows(a, b, es[i].value, pp->0->Object_0@[j].value);
        }
    }
    if additional_reported(a, node, s) {
        assert forall|i: int| 0 <= i < es.len() && !declared(s, es[i].key@) && !pattern_claims(s, es[i].key@)
            implies unclaimed_entry_reported(b, #[trigger] es[i], s) by {
            lemma_unclaimed_entry_grows(a, b, es[i], s);
        }
    }
    let dp = get_spec(s, "dependencies"@);
    if dependencies_reported(a, node, s) && dp is Some && dp->0 is Object {
        assert forall|j: int| 0 <= j < dp->0->Object_0@.len() && has_key(es, dp->0->Object_0@[j].key@)
            implies dependency_reported(b, node, (#[trigger] dp->0->Object_0@[j]).value) by {
            lemma_dependency_grows(a, b, node, dp->0->Object_0@[j].value);
        }
    }
}

/// The keys of the entries left unclaimed, in order.
pub open spec fn unclaimed_keys(es: Seq<Entry>, claimed: Seq<bool>) -> Seq<Seq<char>>
    decreases es.len(),
{
    if es.len() == 0 {
        seq![]
    } else {
        let rest = unclaimed_keys(es.drop_last(), claimed);
        if claimed[es.len() - 1] {
            rest
        } else {
            rest.push(es.last().key@)
        }
    }
}

/// A key declared under `properties` is claimed before
/// `additionalProperties` runs, so it is never among the keys reported as
/// additional.
pub proof fn lemma_declared_never_additional(s: Json, es: Seq<Entry>, claimed: Seq<bool>, j: int)
    requires
        claimed.len() >= es.len(),
        forall|i: int| 0 <= i < es.len() && declared(s, (#[trigger] es[i]).key@) ==> claimed[i],
        0 <= j < unclaimed_keys(es, claimed).len(),
    ensures
        !declared(s, unclaimed_keys(es, claimed)[j]),
    decreases es.len(),
{
    let rest = unclaimed_keys(es.drop_last(), claimed);
    if j < rest.len() {
        assert forall|i: int| 0 <= i < es.drop_last().len() && declared(s, (#[trigger] es.drop_last()[i]).key@) implies claimed[i] by {
            assert(es.drop_last()[i] == es[i]);
        }
        lemma_declared_never_additional(s, es.drop_last(), claimed, j);
    } else {
        assert(es.last() == es[es.len() - 1]);
    }
}

impl JSONSchemaValidator {
    pub fn new(schema: Json) -> (r: JSONSchemaValidator)
        ensures
            r.schema == schema,
    {
        JSONSchemaValidator { schema }
    }

    /// Validates a whole document against the schema. The diagnostics are
    /// exactly `findings(root, schema)`, in its order; every one is due to a
    /// keyword that the schema uses, so a keyword absent from the schema never
    /// yields one.
    pub fn validate(&self, root: &Node) -> (r: Report)
        ensures
            attributable(r.diagnostics@, self.schema),
            r.matches@.len() >= 1,
            r.matches@[0].span == root.span,
            same_json(self.schema, r.matches@[0].schema),
            findings_of(r.diagnostics@) == findings(*root, self.schema),
            own_reported(r.diagnostics@, *root, self.schema),
            root.value is Array ==> items_reported(r.diagnostics@, *root, self.schema),
            root.value is Object ==> entries_reported(r.diagnostics@, *root, self.schema),
            root.value is Array && !type_mismatch(self.schema, root.value) && !enum_mismatch(self.schema, *root) && only_unique(
                self.schema,
                root.value->Array_0@.len() as int,
            ) ==> r.diagnostics@.len() == if flag_keyword(self.schema, "uniqueItems"@) && has_duplicate(root.value->Array_0@) {
                1int
            } else {
                0int
            },
            root.value is Object && !type_mismatch(self.schema, root.value) && !enum_mismatch(self.schema, *root) && only_required(
                self.schema,
                root.value->Object_0@.len() as int,
            ) ==> exactly_required(r.diagnostics@, required_missing(self.schema, root.value->Object_0@), root.span),
            !(root.value is Array) && !(root.value is Object) ==> keywords_of(r.diagnostics@)
                == scalar_findings(*root, self.schema) && all_at(r.diagnostics@, root.span),
    {
        self.validate_root(root, &self.schema)
    }

    /// Validates `node` against the fragment `s`: the universal checks, a
    /// match record for the node, then the checks of its kind. For a scalar
    /// value the diagnostics are exactly the keywords it violates, on it.
    pub fn validate_root(&self, node: &Node, s: &Json) -> (r: Report)
        ensures
            attributable(r.diagnostics@, *s),
            r.matches@.len() >= 1,
            r.matches@[0].span == node.span,
            same_json(*s, r.matches@[0].schema),
            findings_of(r.diagnostics@) == findings(*node, *s),
            own_reported(r.diagnostics@, *node, *s),
            node.value is Array ==> items_reported(r.diagnostics@, *node, *s),
            node.value is Object ==> entries_reported(r.diagnostics@, *node, *s),
            node.value is Array && !type_mismatch(*s, node.value) && !enum_mismatch(*s, *node) && only_unique(
                *s,
                node.value->Array_0@.len() as int,
            ) ==> r.diagnostics@.len() == if flag_keyword(*s, "uniqueItems"@) && has_duplicate(node.value->Array_0@) {
                1int
            } else {
                0int
            },
            node.value is Object && !type_mismatch(*s, node.value) && !enum_mismatch(*s, *node) && only_required(
                *s,
                node.value->Object_0@.len() as int,
            ) ==> exactly_required(r.diagnostics@, required_missing(*s, node.value->Object_0@), node.span),
            !(node.value is Array) && !(node.value is Object) ==> {
                &&& keywords_of(r.diagnostics@) == scalar_findings(*node, *s)
                &&& all_at(r.diagnostics@, node.span)
                &&& r.matches@.len() == 1
            },
        decreases *node, *s, 3int,
    {
        let mut r = Report::new();
        assert(keywords_of(r.diagnostics@) =~= seq![]);
        record(&mut r, check_type(node, s), Ghost(*s));
        let ghost typed = r.diagnostics@;
        assert(type_mismatch(*s, node.value) ==> reports(typed, node.span, Keyword::Type));
        record(&mut r, check_enum(node, s), Ghost(*s));
        r.matches.push(SchemaMatch { span: node.span, schema: s.deep_copy() });
        let ghost mid = r.diagnostics@;
        assert(type_mismatch(*s, node.value) ==> reports(mid, node.span, Keyword::Type));
        assert(enum_mismatch(*s, *node) ==> reports(mid, node.span, Keyword::Enum));
        match &node.value {
            NodeValue::Str(t) => {
                self.validate_string(&mut r, t, node.span, s);
                assert(keywords_of(r.diagnostics@) =~= scalar_findings(*node, *s));
            },
            NodeValue::Number(v) => {
                self.validate_number(&mut r, *v, node.span, s);
                assert(keywords_of(r.diagnostics@) =~= scalar_findings(*node, *s));
            },
            NodeValue::Array(items) => {
                let ghost start = r.diagnostics@;
                let a = self.validate_array(node, items, s);
                let ghost inner = a.diagnostics@;
                absorb(&mut r, a, Ghost(*s), Ghost(*s));
                proof {
                    lemma_items_grows(inner, r.diagnostics@, *node, *s);
                    if !type_mismatch(*s, node.value) && !enum_mismatch(*s, *node) {
                        assert(start.len() == 0);
                    }
                }
            },
            NodeValue::Object(entries) => {
                let ghost start = r.diagnostics@;
                let o = self.validate_object(node, entries, s);
                let ghost inner = o.diagnostics@;
                absorb(&mut r, o, Ghost(*s), Ghost(*s));
                proof {
                    if !type_mismatch(*s, node.value) && !enum_mismatch(*s, *node) {
                        assert(start.len() == 0);
                        assert(r.diagnostics@ =~= inner);
                    }
                    lemma_entries_grows(inner, r.diagnostics@, *node, *s);
                    let names = required_missing(*s, entries@);
                    assert forall|j: int| 0 <= j < names.len() implies #[trigger] reports_named(r.diagnostics@, Keyword::Required, names[j]) by {
                        assert(reports_named(inner, Keyword::Required, names[j]));
                    }
                }
            },
            NodeValue::Bool(_) | NodeValue::Null => {
                assert(keywords_of(r.diagnostics@) =~= scalar_findings(*node, *s));
            },
        }
        proof {
            if node.value is Array || node.value is Object {
                lemma_all_at_findings(mid, node.span);
                assert(scalar_findings(*node, *s) =~= keywords_of(mid));
            } else {
                lemma_all_at_findings(r.diagnostics@, node.span);
                assert(findings(*node, *s) =~= plains(node.span, scalar_findings(*node, *s)));
            }
        }
        assert(reports(mid, node.span, Keyword::Type) ==> reports(r.diagnostics@, node.span, Keyword::Type));
        assert(reports(mid, node.span, Keyword::Enum) ==> reports(r.diagnostics@, node.span, Keyword::Enum));
        r
    }

    /// `minLength`, `maxLength`, `pattern` and `format`, in that order.
    fn validate_string(&self, r: &mut Report, t: &String, span: Span, s: &Json)
        requires
            attributable(old(r).diagnostics@, *s),
            all_at(old(r).diagnostics@, span),
        ensures
            attributable(final(r).diagnostics@, *s),
            all_at(final(r).diagnostics@, span),
            grows(old(r).diagnostics@, final(r).diagnostics@),
            final(r).matches@ == old(r).matches@,
            keywords_of(final(r).diagnostics@) == keywords_of(old(r).diagnostics@) + (flagged(
                Keyword::MinLength,
                below_min_length(*s, t@),
            ) + flagged(Keyword::MaxLength, above_max_length(*s, t@)) + flagged(
                Keyword::Pattern,
                pattern_fails(*s, t@),
            ) + flagged(Keyword::Format, format_fails(*s, t@))),
            string_reported(final(r).diagnostics@, span, *s, t@),
    {
        let ghost k0 = keywords_of(r.diagnostics@);
        record(r, check_min_length(t, span, s), Ghost(*s));
        let ghost d1 = r.diagnostics@;
        assert(below_min_length(*s, t@) ==> reports(d1, span, Keyword::MinLength));
        record(r, check_max_length(t, span, s), Ghost(*s));
        let ghost d2 = r.diagnostics@;
        assert(below_min_length(*s, t@) ==> reports(d2, span, Keyword::MinLength));
        assert(above_max_length(*s, t@) ==> reports(d2, span, Keyword::MaxLength));
        record(r, check_pattern(t, span, s), Ghost(*s));
        let ghost d3 = r.diagnostics@;
        assert(below_min_length(*s, t@) ==> reports(d3, span, Keyword::MinLength));
        assert(above_max_length(*s, t@) ==> reports(d3, span, Keyword::MaxLength));
        assert(pattern_fails(*s, t@) ==> reports(d3, span, Keyword::Pattern));
        record(r, check_format(t, span, s), Ghost(*s));
        assert(below_min_length(*s, t@) ==> reports(r.diagnostics@, span, Keyword::MinLength));
        assert(above_max_length(*s, t@) ==> reports(r.diagnostics@, span, Keyword::MaxLength));
        assert(pattern_fails(*s, t@) ==> reports(r.diagnostics@, span, Keyword::Pattern));
        assert(keywords_of(r.diagnostics@) =~= k0 + (flagged(
            Keyword::MinLength,
            below_min_length(*s, t@),
        ) + flagged(Keyword::MaxLength, above_max_length(*s, t@)) + flagged(
            Keyword::Pattern,
            pattern_fails(*s, t@),
        ) + flagged(Keyword::Format, format_fails(*s, t@))));
    }

    /// `multipleOf`, `minimum` and `maximum`, in that order.
    fn validate_number(&self, r: &mut Report, v: i64, span: Span, s: &Json)
        requires
            attributable(old(r).diagnostics@, *s),
            all_at(old(r).diagnostics@, span),
        ensures
            attributable(final(r).diagnostics@, *s),
            all_at(final(r).diagnostics@, span),
            grows(old(r).diagnostics@, final(r).diagnostics@),
            final(r).matches@ == old(r).matches@,
            keywords_of(final(r).diagnostics@) == keywords_of(old(r).diagnostics@) + (flagged(
                Keyword::MultipleOf,
                not_multiple(*s, v as int),
            ) + flagged(Keyword::Minimum, below_minimum(*s, v as int)) + flagged(
                Keyword::Maximum,
                above_maximum(*s, v as int),
            )),
            number_reported(final(r).diagnostics@, span, *s, v as int),
    {
        let ghost k0 = keywords_of(r.diagnostics@);
        record(r, check_multiple_of(v, span, s), Ghost(*s));
        let ghost d1 = r.diagnostics@;
        assert(not_multiple(*s, v as int) ==> reports(d1, span, Keyword::MultipleOf));
        record(r, check_minimum(v, span, s), Ghost(*s));
        let ghost d2 = r.diagnostics@;
        assert(not_multiple(*s, v as int) ==> reports(d2, span, Keyword::MultipleOf));
        assert(below_minimum(*s, v as int) ==> reports(d2, span, Keyword::Minimum));
        record(r, check_maximum(v, span, s), Ghost(*s));
        assert(not_multiple(*s, v as int) ==> reports(r.diagnostics@, span, Keyword::MultipleOf));
        assert(below_minimum(*s, v as int) ==> reports(r.diagnostics@, span, Keyword::Minimum));
        assert(keywords_of(r.diagnostics@) =~= k0 + (flagged(
            Keyword::MultipleOf,
            not_multiple(*s, v as int),
        ) + flagged(Keyword::Minimum, below_minimum(*s, v as int)) + flagged(
            Keyword::Maximum,
            above_maximum(*s, v as int),
        )));
    }

    fn validate_array(&self, node: &Node, items: &Vec<Node>, s: &Json) -> (r: Report)
        requires
            node.value == NodeValue::Array(*items),
        ensures
            attributable(r.diagnostics@, *s),
            findings_of(r.diagnostics@) == array_findings(*node, *s),
            array_reported(r.diagnostics@, *node, *s),
            items_reported(r.diagnostics@, *node, *s),
            only_unique(*s, items@.len() as int) ==> r.diagnostics@.len() == if flag_keyword(*s, "uniqueItems"@)
                && has_duplicate(items@) {
                1int
            } else {
                0int
            },
        decreases *node, *s, 2int,
    {
        let mut r = Report::new();
        assert(findings_of(r.diagnostics@) =~= Seq::<Finding>::empty());
        let c = check_min_count(items.len(), node.span, s, Keyword::MinItems);
        proof {
            lemma_reported_flag(c, under_bound(*s, "minItems"@, items@.len() as int), node.span, Keyword::MinItems);
        }
        record(&mut r, c, Ghost(*s));
        let ghost d1 = r.diagnostics@;
        assert(under_bound(*s, "minItems"@, items@.len() as int) ==> reports(d1, node.span, Keyword::MinItems));
        let c = check_max_count(items.len(), node.span, s, Keyword::MaxItems);
        proof {
            lemma_reported_flag(c, over_bound(*s, "maxItems"@, items@.len() as int), node.span, Keyword::MaxItems);
        }
        record(&mut r, c, Ghost(*s));
        let ghost d2 = r.diagnostics@;
        assert(under_bound(*s, "minItems"@, items@.len() as int) ==> reports(d2, node.span, Keyword::MinItems));
        assert(over_bound(*s, "maxItems"@, items@.len() as int) ==> reports(d2, node.span, Keyword::MaxItems));
        let a = validate_additional_items(self, node, items, s);
        let ghost inner = a.diagnostics@;
        absorb(&mut r, a, Ghost(*s), Ghost(*s));
        let ghost d3 = r.diagnostics@;
        assert(under_bound(*s, "minItems"@, items@.len() as int) ==> reports(d3, node.span, Keyword::MinItems));
        assert(over_bound(*s, "maxItems"@, items@.len() as int) ==> reports(d3, node.span, Keyword::MaxItems));
        proof {
            lemma_items_grows(inner, d3, *node, *s);
        }
        let c = check_unique_items(items, node.span, s);
        proof {
            lemma_reported_flag(c, flag_keyword(*s, "uniqueItems"@) && has_duplicate(items@), node.span, Keyword::UniqueItems);
        }
        record(&mut r, c, Ghost(*s));
        assert(findings_of(r.diagnostics@) =~= array_findings(*node, *s));
        proof {
            lemma_items_grows(d3, r.diagnostics@, *node, *s);
        }
        r
    }

    #[verifier::rlimit(100)]
    #[verifier::spinoff_prover]
    fn validate_object(&self, node: &Node, entries: &Vec<Entry>, s: &Json) -> (r: Report)
        requires
            node.value == NodeValue::Object(*entries),
        ensures
            attributable(r.diagnostics@, *s),
            findings_of(r.diagnostics@) == object_findings(*node, *s),
            object_reported(r.diagnostics@, *node, *s),
            entries_reported(r.diagnostics@, *node, *s),
            r.diagnostics@.len() >= required_missing(*s, entries@).len(),
            exactly_required(
                r.diagnostics@.subrange(
                    r.diagnostics@.len() - required_missing(*s, entries@).len(),
                    r.diagnostics@.len() as int,
                ),
                required_missing(*s, entries@),
                node.span,
            ),
            only_required(*s, entries@.len() as int) ==> exactly_required(
                r.diagnostics@,
                required_missing(*s, entries@),
                node.span,
            ),
        decreases *node, *s, 2int,
    {
        let mut r = Report::new();
        let mut claimed: Vec<bool> = Vec::new();
        let mut i: usize = 0;
        while i < entries.len()
            invariant
                i <= entries.len(),
                claimed@.len() == i,
                forall|j: int| 0 <= j < i ==> !claimed@[j],
            decreases entries.len() - i,
        {
            claimed.push(false);
            i = i + 1;
        }
        assert(findings_of(r.diagnostics@) =~= Seq::<Finding>::empty());
        // properties
        if let Some(props) = get(s, "properties") {
            if let Json::Object(pms) = props {
                proof {
                    lemma_covers_get(*s, "properties"@);
                }
                let mut i: usize = 0;
                while i < entries.len()
                    invariant
                        node.value == NodeValue::Object(*entries),
                        get_spec(*s, "properties"@) == Some(*props),
                        *props == Json::Object(*pms),
                        covers(*s, *props),
                        i <= entries.len(),
                        claimed@.len() == entries.len(),
                        attributable(r.diagnostics@, *s),
                        forall|j: int| 0 <= j < entries.len() ==> claimed@[j] == (j < i && declared(*s, (#[trigger] entries@[j]).key@)),
                        forall|j: int| 0 <= j < i && declared(*s, (#[trigger] entries@[j]).key@) ==> own_reported(
                            r.diagnostics@,
                            entries@[j].value,
                            member_value(pms@, entries@[j].key@)->0,
                        ),
                        findings_of(r.diagnostics@) == properties_findings(*node, *s, i as int),
                    decreases entries.len() - i,
                {
                    let ghost before = r.diagnostics@;
                    if let Some(sub) = member(pms, entries[i].key.as_str()) {
                        proof {
                            lemma_object_child(*node, i as int);
                            lemma_get_decreases(*props, entries@[i as int].key@);
                            lemma_get_decreases(*s, "properties"@);
                            lemma_covers_get(*props, entries@[i as int].key@);
                            lemma_covers_trans(*s, *props, *sub);
                        }
                        let o = self.validate_root(&entries[i].value, sub);
                        let ghost inner = o.diagnostics@;
                        absorb(&mut r, o, Ghost(*s), Ghost(*sub));
                        proof {
                            lemma_own_grows(inner, r.diagnostics@, entries@[i as int].value, *sub);
                        }
                        claimed.set(i, true);
                    }
                    proof {
                        assert forall|j: int| 0 <= j < i + 1 && declared(*s, (#[trigger] entries@[j]).key@) implies own_reported(
                            r.diagnostics@,
                            entries@[j].value,
                            member_value(pms@, entries@[j].key@)->0,
                        ) by {
                            if j < i {
                                lemma_own_grows(before, r.diagnostics@, entries@[j].value, member_value(pms@, entries@[j].key@)->0);
                            }
                        }
                    }
                    i = i + 1;
                }
            }
        }
        assert(forall|j: int| 0 <= j < entries.len() ==> claimed@[j] == declared(*s, (#[trigger] entries@[j]).key@));
        assert(only_required(*s, entries@.len() as int) ==> r.diagnostics@.len() == 0);
        proof {
            if !(get_spec(*s, "properties"@) is Some && get_spec(*s, "properties"@)->0 is Object) {
                lemma_properties_absent(*node, *s, entries@.len() as int);
            }
        }
        assert(findings_of(r.diagnostics@) == properties_findings(*node, *s, entries@.len() as int));
        let ghost after_properties = r.diagnostics@;
        assert(properties_reported(after_properties, *node, *s));
        // patternProperties
        if let Some(pats) = get(s, "patternProperties") {
            if let Json::Object(pps) = pats {
                proof {
                    lemma_covers_get(*s, "patternProperties"@);
                    lemma_get_decreases(*s, "patternProperties"@);
                }
                let mut i: usize = 0;
                while i < entries.len()
                    invariant
                        node.value == NodeValue::Object(*entries),
                        get_spec(*s, "patternProperties"@) == Some(*pats),
                        *pats == Json::Object(*pps),
                        covers(*s, *pats),
                        decreases_to!(*s => *pats),
                        i <= entries.len(),
                        claimed@.len() == entries.len(),
                        attributable(r.diagnostics@, *s),
                        grows(after_properties, r.diagnostics@),
                        forall|j: int| 0 <= j < entries.len() ==> claimed@[j] == (declared(*s, (#[trigger] entries@[j]).key@)
                            || (j < i && pattern_claims(*s, entries@[j].key@))),
                        forall|a: int, b: int|
                            0 <= a < i && !declared(*s, entries@[a].key@) && 0 <= b < pps@.len()
                                && pattern_search(pps@[b].key@, entries@[a].key@) == Some(true) ==> own_reported(
                                r.diagnostics@,
                                (#[trigger] entries@[a]).value,
                                (#[trigger] pps@[b]).value,
                            ),
                        findings_of(r.diagnostics@) == findings_of(after_properties) + patterns_findings(*node, *s, i as int),
                    decreases entries.len() - i,
                {
                    let ghost outer = r.diagnostics@;
                    assert(findings_of(r.diagnostics@) =~= findings_of(after_properties) + patterns_findings(*node, *s, i as int)
                        + pattern_findings(*node, *s, i as int, 0));
                    if !claimed[i] {
                        let mut hit = false;
                        let mut j: usize = 0;
                        while j < pps.len()
                            invariant
                                node.value == NodeValue::Object(*entries),
                                *pats == Json::Object(*pps),
                                covers(*s, *pats),
                                decreases_to!(*s => *pats),
                                i < entries.len(),
                                j <= pps.len(),
                                attributable(r.diagnostics@, *s),
                                grows(outer, r.diagnostics@),
                                hit == exists|b: int| 0 <= b < j && pattern_search((#[trigger] pps@[b]).key@, entries@[i as int].key@) == Some(true),
                                forall|b: int| 0 <= b < j && pattern_search(pps@[b].key@, entries@[i as int].key@) == Some(true)
                                    ==> own_reported(r.diagnostics@, entries@[i as int].value, (#[trigger] pps@[b]).value),
                                get_spec(*s, "patternProperties"@) == Some(*pats),
                                findings_of(r.diagnostics@) == findings_of(after_properties) + patterns_findings(*node, *s, i as int)
                                    + pattern_findings(*node, *s, i as int, j as int),
                            decreases pps.len() - j,
                        {
                            let ghost step = r.diagnostics@;
                            proof {
                                assert(findings_of(after_properties) + patterns_findings(*node, *s, i as int)
                                    + pattern_findings(*node, *s, i as int, j + 1) =~= findings_of(after_properties)
                                    + patterns_findings(*node, *s, i as int) + pattern_findings(*node, *s, i as int, j as int)
                                    + (pattern_findings(*node, *s, i as int, j + 1).subrange(
                                        pattern_findings(*node, *s, i as int, j as int).len() as int,
                                        pattern_findings(*node, *s, i as int, j + 1).len() as int,
                                    )));
                            }
                            if search(pps[j].key.as_str(), entries[i].key.as_str()) == Some(true) {
                                proof {
                                    lemma_object_child(*node, i as int);
                                    lemma_covers_member(*pats, j as int);
                                    lemma_covers_trans(*s, *pats, pps@[j as int].value);
                                }
                                let o = self.validate_root(&entries[i].value, &pps[j].value);
                                let ghost inner = o.diagnostics@;
                                absorb(&mut r, o, Ghost(*s), Ghost(pps@[j as int].value));
                                proof {
                                    lemma_own_grows(inner, r.diagnostics@, entries@[i as int].value, pps@[j as int].value);
                                    lemma_grows_trans(outer, step, r.diagnostics@);
                                }
                                hit = true;
                            }
                            proof {
                                assert forall|b: int| 0 <= b < j + 1 && pattern_search(pps@[b].key@, entries@[i as int].key@) == Some(true)
                                    implies own_reported(r.diagnostics@, entries@[i as int].value, (#[trigger] pps@[b]).value) by {
                                    if b < j {
                                        lemma_own_grows(step, r.diagnostics@, entries@[i as int].value, pps@[b].value);
                                    }
                                }
                            }
                            j = j + 1;
                        }
                        if hit {
                            claimed.set(i, true);
                        }
                    }
                    assert(findings_of(r.diagnostics@) =~= findings_of(after_properties) + patterns_findings(*node, *s, i + 1));
                    proof {
                        assert forall|a: int, b: int|
                            0 <= a < i + 1 && !declared(*s, entries@[a].key@) && 0 <= b < pps@.len()
                                && pattern_search(pps@[b].key@, entries@[a].key@) == Some(true) implies own_reported(
                                r.diagnostics@,
                                (#[trigger] entries@[a]).value,
                                (#[trigger] pps@[b]).value,
                            ) by {
                            if a < i {
                                lemma_own_grows(outer, r.diagnostics@, entries@[a].value, pps@[b].value);
                            }
                        }
                        lemma_grows_trans(after_properties, outer, r.diagnostics@);
                    }
                    i = i + 1;
                }
            }
        }
        assert(forall|j: int| 0 <= j < entries.len() ==> claimed@[j] == (declared(*s, (#[trigger] entries@[j]).key@)
            || pattern_claims(*s, entries@[j].key@)));
        assert(only_required(*s, entries@.len() as int) ==> r.diagnostics@.len() == 0);
        proof {
            if !(get_spec(*s, "patternProperties"@) is Some && get_spec(*s, "patternProperties"@)->0 is Object) {
                lemma_patterns_absent(*node, *s, entries@.len() as int);
                assert(r.diagnostics@ == after_properties);
            }
        }
        assert(findings_of(r.diagnostics@) =~= findings_of(after_properties) + patterns_findings(*node, *s, entries@.len() as int));
        let ghost after_patterns = r.diagnostics@;
        assert(grows(after_properties, after_patterns));
        assert(patterns_reported(after_patterns, *node, *s));
        let a = validate_additional_properties(self, node, entries, &claimed, s);
        let ghost additional = a.diagnostics@;
        absorb(&mut r, a, Ghost(*s), Ghost(*s));
        proof {
            assert(additional_reported(additional, *node, *s));
            lemma_entries_grows(additional, r.diagnostics@, *node, *s);
            lemma_entries_grows(after_properties, after_patterns, *node, *s);
            lemma_entries_grows(after_patterns, r.diagnostics@, *node, *s);
        }
        assert(only_required(*s, entries@.len() as int) ==> r.diagnostics@.len() == 0);
        assert(findings_of(r.diagnostics@) =~= properties_findings(*node, *s, entries@.len() as int)
            + patterns_findings(*node, *s, entries@.len() as int) + additional_findings(*node, *s, entries@.len() as int));
        let ghost after_additional = r.diagnostics@;
        // dependencies
        if let Some(deps) = get(s, "dependencies") {
            if let Json::Object(dms) = deps {
                proof {
                    lemma_covers_get(*s, "dependencies"@);
                    lemma_get_decreases(*s, "dependencies"@);
                    lemma_get_keyword(*s, "dependencies"@, "dependencies"@);
                }
                let mut j: usize = 0;
                while j < dms.len()
                    invariant
                        node.value == NodeValue::Object(*entries),
                        get_spec(*s, "dependencies"@) == Some(*deps),
                        *deps == Json::Object(*dms),
                        covers(*s, *deps),
                        decreases_to!(*s => *deps),
                        has_keyword(*s, "dependencies"@),
                        j <= dms.len(),
                        attributable(r.diagnostics@, *s),
                        grows(after_additional, r.diagnostics@),
                        forall|q: int| 0 <= q < j && has_key(entries@, dms@[q].key@) ==> dependency_reported(
                            r.diagnostics@,
                            *node,
                            (#[trigger] dms@[q]).value,
                        ),
                        findings_of(r.diagnostics@) == findings_of(after_additional) + dependencies_findings(*node, *s, j as int),
                    decreases dms.len() - j,
                {
                    let ghost before = r.diagnostics@;
                    assert(findings_of(r.diagnostics@) =~= findings_of(after_additional) + dependencies_findings(*node, *s, j as int)
                        + companion_findings(*node, Seq::<Json>::empty(), 0));
                    if contains_key(entries, &dms[j].key) {
                        match &dms[j].value {
                            Json::Array(names) => {
                                let mut k: usize = 0;
                                while k < names.len()
                                    invariant
                                        node.value == NodeValue::Object(*entries),
                                        get_spec(*s, "dependencies"@) == Some(*deps),
                                        has_keyword(*s, "dependencies"@),
                                        k <= names.len(),
                                        attributable(r.diagnostics@, *s),
                                        grows(before, r.diagnostics@),
                                        forall|q: int| 0 <= q < k && (#[trigger] names@[q]) is Str && !has_key(entries@, names@[q]->Str_0@)
                                            ==> reports_named(r.diagnostics@, Keyword::Dependencies, names@[q]->Str_0@),
                                        findings_of(r.diagnostics@) == findings_of(after_additional) + dependencies_findings(*node, *s, j as int)
                                            + companion_findings(*node, names@, k as int),
                                    decreases names.len() - k,
                                {
                                    let ghost step = r.diagnostics@;
                                    if let Json::Str(n) = &names[k] {
                                        if !contains_key(entries, n) {
                                            let d = Diagnostic {
                                                span: node.span,
                                                keyword: Keyword::Dependencies,
                                                subject: n.clone(),
                                                counts: None,
                                            };
                                            record(&mut r, Some(d), Ghost(*s));
                                            proof {
                                                assert(d.subject@ == n@);
                                                lemma_grows_trans(before, step, r.diagnostics@);
                                            }
                                        }
                                    }
                                    proof {
                                        assert forall|q: int| 0 <= q < k + 1 && (#[trigger] names@[q]) is Str && !has_key(entries@, names@[q]->Str_0@)
                                            implies reports_named(r.diagnostics@, Keyword::Dependencies, names@[q]->Str_0@) by {
                                            if q < k {
                                                assert(reports_named(step, Keyword::Dependencies, names@[q]->Str_0@));
                                            }
                                        }
                                    }
                                    assert(findings_of(r.diagnostics@) =~= findings_of(after_additional) + dependencies_findings(*node, *s, j as int)
                                        + companion_findings(*node, names@, k + 1));
                                    k = k + 1;
                                }
                            },
                            Json::Object(_) => {
                                proof {
                                    lemma_covers_member(*deps, j as int);
                                    lemma_covers_trans(*s, *deps, dms@[j as int].value);
                                    assert(decreases_to!(*deps => dms@[j as int].value)) by {
                                        assert(decreases_to!(*deps => *dms));
                                        assert(decreases_to!(*dms => dms@[j as int]));
                                    }
                                }
                                let o = self.validate_root(node, &dms[j].value);
                                let ghost inner = o.diagnostics@;
                                absorb(&mut r, o, Ghost(*s), Ghost(dms@[j as int].value));
                                proof {
                                    lemma_own_grows(inner, r.diagnostics@, *node, dms@[j as int].value);
                                }
                            },
                            _ => {},
                        }
                    }
                    assert(findings_of(r.diagnostics@) =~= findings_of(after_additional) + dependencies_findings(*node, *s, j + 1));
                    proof {
                        lemma_grows_trans(after_additional, before, r.diagnostics@);
                        assert forall|q: int| 0 <= q < j + 1 && has_key(entries@, dms@[q].key@) implies dependency_reported(
                            r.diagnostics@,
                            *node,
                            (#[trigger] dms@[q]).value,
                        ) by {
                            if q < j {
                                lemma_dependency_grows(before, r.diagnostics@, *node, dms@[q].value);
                            }
                        }
                    }
                    j = j + 1;
                }
            }
        }
        assert(only_required(*s, entries@.len() as int) ==> r.diagnostics@.len() == 0);
        let ghost deps_done = r.diagnostics@;
        assert(findings_of(deps_done) =~= findings_of(after_additional) + (if get_spec(*s, "dependencies"@) is Some
            && get_spec(*s, "dependencies"@)->0 is Object {
            dependencies_findings(*node, *s, get_spec(*s, "dependencies"@)->0->Object_0@.len() as int)
        } else {
            Seq::<Finding>::empty()
        }));
        proof {
            lemma_entries_grows(after_additional, deps_done, *node, *s);
        }
        assert(entries_reported(deps_done, *node, *s));
        let c = check_max_count(entries.len(), node.span, s, Keyword::MaxProperties);
        proof {
            lemma_reported_flag(c, over_bound(*s, "maxProperties"@, entries@.len() as int), node.span, Keyword::MaxProperties);
        }
        record(&mut r, c, Ghost(*s));
        let ghost counted = r.diagnostics@;
        assert(over_bound(*s, "maxProperties"@, entries@.len() as int) ==> reports(counted, node.span, Keyword::MaxProperties));
        let c = check_min_count(entries.len(), node.span, s, Keyword::MinProperties);
        proof {
            lemma_reported_flag(c, under_bound(*s, "minProperties"@, entries@.len() as int), node.span, Keyword::MinProperties);
        }
        record(&mut r, c, Ghost(*s));
        assert(only_required(*s, entries@.len() as int) ==> r.diagnostics@.len() == 0);
        let ghost after_dependencies = r.diagnostics@;
        proof {
            lemma_grows_trans(deps_done, counted, after_dependencies);
            lemma_entries_grows(deps_done, after_dependencies, *node, *s);
        }
        let missing = check_required(entries, node.span, s);
        let ghost names = required_missing(*s, entries@);
        assert(r.diagnostics@.subrange(0, after_dependencies.len() as int) =~= after_dependencies);
        assert(r.diagnostics@.subrange(after_dependencies.len() as int, r.diagnostics@.len() as int) =~= Seq::<Diagnostic>::empty());
        let mut k: usize = 0;
        while k < missing.len()
            invariant
                k <= missing.len(),
                names == required_missing(*s, entries@),
                missing@.len() == names.len(),
                attributable(r.diagnostics@, *s),
                forall|i: int| 0 <= i < missing@.len() ==> (#[trigger] missing@[i]).keyword == Keyword::Required
                    && missing@[i].subject@ == names[i],
                missing@.len() > 0 ==> get_spec(*s, "required"@) is Some,
                under_bound(*s, "minProperties"@, entries@.len() as int) ==> reports(r.diagnostics@, node.span, Keyword::MinProperties),
                over_bound(*s, "maxProperties"@, entries@.len() as int) ==> reports(r.diagnostics@, node.span, Keyword::MaxProperties),
                forall|j: int| 0 <= j < k ==> #[trigger] reports_named(r.diagnostics@, Keyword::Required, names[j]),
                grows(after_dependencies, r.diagnostics@),
                r.diagnostics@.len() == after_dependencies.len() + k,
                r.diagnostics@.subrange(0, after_dependencies.len() as int) == after_dependencies,
                exactly_required(
                    r.diagnostics@.subrange(after_dependencies.len() as int, r.diagnostics@.len() as int),
                    names.subrange(0, k as int),
                    node.span,
                ),
                forall|i: int| 0 <= i < missing@.len() ==> (#[trigger] missing@[i]).span == node.span,
            decreases missing.len() - k,
        {
            proof {
                lemma_get_keyword(*s, "required"@, "required"@);
            }
            let d = Diagnostic { span: missing[k].span, keyword: Keyword::Required, subject: missing[k].subject.clone(), counts: None };
            let ghost before = r.diagnostics@;
            r.diagnostics.push(d);
            proof {
                lemma_grows_append(before, seq![d]);
                assert(r.diagnostics@ =~= before + seq![d]);
                assert(r.diagnostics@[before.len() as int] == d);
                assert(reports_named(r.diagnostics@, Keyword::Required, names[k as int]));
                assert forall|j: int| 0 <= j < k + 1 implies #[trigger] reports_named(r.diagnostics@, Keyword::Required, names[j]) by {
                    if j < k {
                        assert(reports_named(before, Keyword::Required, names[j]));
                    }
                }
                lemma_grows_trans(after_dependencies, before, r.diagnostics@);
                let base = after_dependencies.len() as int;
                assert(r.diagnostics@.subrange(0, base) =~= before.subrange(0, base));
                let tail = r.diagnostics@.subrange(base, r.diagnostics@.len() as int);
                let prev = before.subrange(base, before.len() as int);
                assert forall|j: int| 0 <= j < tail.len() implies (#[trigger] tail[j]).keyword == Keyword::Required
                    && tail[j].subject@ == names.subrange(0, k + 1)[j] && tail[j].span == node.span && tail[j].counts is None by {
                    if j < k {
                        assert(tail[j] == prev[j]);
                    } else {
                        assert(tail[j] == d);
                    }
                }
            }
            k = k + 1;
        }
        proof {
            assert(names.subrange(0, names.len() as int) =~= names);
            assert(r.diagnostics@.len() - names.len() == after_dependencies.len());
            if only_required(*s, entries@.len() as int) {
                assert(r.diagnostics@.subrange(0, r.diagnostics@.len() as int) =~= r.diagnostics@);
            }
        }
        proof {
            lemma_entries_grows(after_dependencies, r.diagnostics@, *node, *s);
            let base = after_dependencies.len() as int;
            let tail = r.diagnostics@.subrange(base, r.diagnostics@.len() as int);
            assert(r.diagnostics@ =~= after_dependencies + tail);
            lemma_findings_append(after_dependencies, tail);
            lemma_exactly_required_findings(tail, names, node.span);
            assert(findings_of(r.diagnostics@) =~= object_findings(*node, *s));
        }
        r
    }
}

/// The elements' own violations are reported, each under the schema that
/// governs it: a single `items` schema governs every element; a list of
/// schemas governs the elements at the same indices, and past its end an
/// `additionalItems` schema governs the rest, or `additionalItems: false`
/// reports each of them.
pub open spec fn items_reported(ds: Seq<Diagnostic>, node: Node, s: Json) -> bool {
    let items = node.value->Array_0@;
    let it = get_spec(s, "items"@);
    if it is Some && it->0 is Object {
        forall|i: int| 0 <= i < items.len() ==> own_reported(ds, #[trigger] items[i], it->0)
    } else if it is Some && it->0 is Array {
        let list = it->0->Array_0@;
        let extra = get_spec(s, "additionalItems"@);
        &&& forall|i: int| 0 <= i < items.len() && i < list.len() ==> own_reported(ds, #[trigger] items[i], list[i])
        &&& extra is Some && extra->0 is Object ==> forall|i: int|
            list.len() <= i < items.len() ==> own_reported(ds, #[trigger] items[i], extra->0)
        &&& extra == Some(Json::Bool(false)) ==> forall|i: int|
            list.len() <= i < items.len() ==> reports(ds, (#[trigger] items[i]).span, Keyword::AdditionalItems)
    } else {
        true
    }
}

pub proof fn lemma_items_grows(a: Seq<Diagnostic>, b: Seq<Diagnostic>, node: Node, s: Json)
    requires
        grows(a, b),
        node.value is Array,
        items_reported(a, node, s),
    ensures
        items_reported(b, node, s),
{
    let items = node.value->Array_0@;
    let it = get_spec(s, "items"@);
    if it is Some && it->0 is Object {
        assert forall|i: int| 0 <= i < items.len() implies own_reported(b, #[trigger] items[i], it->0) by {
            lemma_own_grows(a, b, items[i], it->0);
        }
    } else if it is Some && it->0 is Array {
        let list = it->0->Array_0@;
        let extra = get_spec(s, "additionalItems"@);
        assert forall|i: int| 0 <= i < items.len() && i < list.len() implies own_reported(b, #[trigger] items[i], list[i]) by {
            lemma_own_grows(a, b, items[i], list[i]);
        }
        if extra is Some && extra->0 is Object {
            assert forall|i: int| list.len() <= i < items.len() implies own_reported(b, #[trigger] items[i], extra->0) by {
                lemma_own_grows(a, b, items[i], extra->0);
            }
        }
        if extra == Some(Json::Bool(false)) {
            assert forall|i: int| list.len() <= i < items.len() implies reports(b, (#[trigger] items[i]).span, Keyword::AdditionalItems) by {
                assert(reports(a, items[i].span, Keyword::AdditionalItems));
            }
        }
    }
}

/// `items` and `additionalItems`, as `items_reported` describes. Where
/// `items` is neither a schema nor a list, nothing is reported.
pub fn validate_additional_items(
    validate: &JSONSchemaValidator,
    node: &Node,
    items: &Vec<Node>,
    s: &Json,
) -> (r: Report)
    requires
        node.value == NodeValue::Array(*items),
    ensures
        attributable(r.diagnostics@, *s),
        items_reported(r.diagnostics@, *node, *s),
        findings_of(r.diagnostics@) == items_findings(*node, *s),
        !(get_spec(*s, "items"@) is Some && (get_spec(*s, "items"@)->0 is Object || get_spec(*s, "items"@)->0 is Array))
            ==> r.diagnostics@.len() == 0,
    decreases *node, *s, 1int,
{
    let mut r = Report::new();
    let it = match get(s, "items") {
        Some(it) => it,
        None => {
            return r;
        },
    };
    proof {
        lemma_covers_get(*s, "items"@);
    }
    assert(findings_of(r.diagnostics@) =~= Seq::<Finding>::empty());
    match it {
        Json::Object(_) => {
            let mut i: usize = 0;
            while i < items.len()
                invariant
                    node.value == NodeValue::Array(*items),
                    get_spec(*s, "items"@) == Some(*it),
                    covers(*s, *it),
                    i <= items.len(),
                    attributable(r.diagnostics@, *s),
                    forall|j: int| 0 <= j < i ==> own_reported(r.diagnostics@, #[trigger] items@[j], *it),
                    findings_of(r.diagnostics@) == range_findings(*node, *it, 0, i as int),
                decreases items.len() - i,
            {
                proof {
                    lemma_array_child(*node, i as int);
                }
                let o = validate.validate_root(&items[i], it);
                let ghost before = r.diagnostics@;
                let ghost inner = o.diagnostics@;
                absorb(&mut r, o, Ghost(*s), Ghost(*it));
                proof {
                    assert forall|j: int| 0 <= j < i + 1 implies own_reported(r.diagnostics@, #[trigger] items@[j], *it) by {
                        if j < i {
                            lemma_own_grows(before, r.diagnostics@, items@[j], *it);
                        } else {
                            lemma_own_grows(inner, r.diagnostics@, items@[j], *it);
                        }
                    }
                }
                i = i + 1;
            }
        },
        Json::Array(list) => {
            let n = if items.len() < list.len() {
                items.len()
            } else {
                list.len()
            };
            let mut i: usize = 0;
            while i < n
                invariant
                    node.value == NodeValue::Array(*items),
                    get_spec(*s, "items"@) == Some(*it),
                    *it == Json::Array(*list),
                    covers(*s, *it),
                    n <= items.len(),
                    n <= list.len(),
                    n == items.len() || n == list.len(),
                    i <= n,
                    attributable(r.diagnostics@, *s),
                    forall|j: int| 0 <= j < i ==> own_reported(r.diagnostics@, #[trigger] items@[j], list@[j]),
                    findings_of(r.diagnostics@) == listed_findings(*node, *it, i as int),
                decreases n - i,
            {
                proof {
                    lemma_array_child(*node, i as int);
                    lemma_covers_element(*it, i as int);
                    lemma_covers_trans(*s, *it, list@[i as int]);
                }
                let o = validate.validate_root(&items[i], &list[i]);
                let ghost before = r.diagnostics@;
                let ghost inner = o.diagnostics@;
                absorb(&mut r, o, Ghost(*s), Ghost(list@[i as int]));
                proof {
                    assert forall|j: int| 0 <= j < i + 1 implies own_reported(r.diagnostics@, #[trigger] items@[j], list@[j]) by {
                        if j < i {
                            lemma_own_grows(before, r.diagnostics@, items@[j], list@[j]);
                        } else {
                            lemma_own_grows(inner, r.diagnostics@, items@[j], list@[j]);
                        }
                    }
                }
                i = i + 1;
            }
            let ghost listed = r.diagnostics@;
            if let Some(extra) = get(s, "additionalItems") {
                proof {
                    lemma_covers_get(*s, "additionalItems"@);
                }
                match extra {
                    Json::Object(_) => {
                        let mut i: usize = list.len();
                        while i < items.len()
                            invariant
                                node.value == NodeValue::Array(*items),
                                get_spec(*s, "additionalItems"@) == Some(*extra),
                                covers(*s, *extra),
                                attributable(r.diagnostics@, *s),
                                grows(listed, r.diagnostics@),
                                list@.len() <= i,
                                forall|j: int| list@.len() <= j < i && j < items@.len() ==> own_reported(r.diagnostics@, #[trigger] items@[j], *extra),
                                i == list@.len() || i <= items@.len(),
                                findings_of(r.diagnostics@) == findings_of(listed) + range_findings(*node, *extra, list@.len() as int, i as int),
                            decreases items.len() - i,
                        {
                            proof {
                                lemma_array_child(*node, i as int);
                            }
                            let o = validate.validate_root(&items[i], extra);
                            let ghost before = r.diagnostics@;
                            let ghost inner = o.diagnostics@;
                            absorb(&mut r, o, Ghost(*s), Ghost(*extra));
                            proof {
                                lemma_grows_trans(listed, before, r.diagnostics@);
                                assert forall|j: int| list@.len() <= j < i + 1 && j < items@.len() implies own_reported(r.diagnostics@, #[trigger] items@[j], *extra) by {
                                    if j < i {
                                        lemma_own_grows(before, r.diagnostics@, items@[j], *extra);
                                    } else {
                                        lemma_own_grows(inner, r.diagnostics@, items@[j], *extra);
                                    }
                                }
                            }
                            i = i + 1;
                        }
                    },
                    Json::Bool(false) => {
                        let mut i: usize = list.len();
                        while i < items.len()
                            invariant
                                node.value == NodeValue::Array(*items),
                                get_spec(*s, "additionalItems"@) == Some(*extra),
                                *extra == Json::Bool(false),
                                attributable(r.diagnostics@, *s),
                                grows(listed, r.diagnostics@),
                                list@.len() <= i,
                                forall|j: int| list@.len() <= j < i && j < items@.len() ==> reports(r.diagnostics@, (#[trigger] items@[j]).span, Keyword::AdditionalItems),
                                i == list@.len() || i <= items@.len(),
                                list@.len() < items@.len() ==> findings_of(r.diagnostics@) == findings_of(listed) + excess_findings(
                                    *node,
                                    list@.len() as int,
                                    items@.len() as int,
                                ).subrange(0, i - list@.len()),
                                list@.len() >= items@.len() ==> findings_of(r.diagnostics@) == findings_of(listed),
                            decreases items.len() - i,
                        {
                            let d = Diagnostic {
                                span: items[i].span,
                                keyword: Keyword::AdditionalItems,
                                subject: String::new(),
                                counts: Some((list.len(), items.len())),
                            };
                            let ghost before = r.diagnostics@;
                            record(&mut r, Some(d), Ghost(*s));
                            proof {
                                assert(d.subject@ =~= Seq::<char>::empty());
                                let ex = excess_findings(*node, list@.len() as int, items@.len() as int);
                                assert(finding_of(d) == ex[i - list@.len()]);
                                assert(ex.subrange(0, i + 1 - list@.len()) =~= ex.subrange(0, i - list@.len()).push(ex[i - list@.len()]));
                                lemma_grows_trans(listed, before, r.diagnostics@);
                                assert forall|j: int| list@.len() <= j < i + 1 && j < items@.len() implies reports(r.diagnostics@, (#[trigger] items@[j]).span, Keyword::AdditionalItems) by {
                                    if j < i {
                                        assert(reports(before, items@[j].span, Keyword::AdditionalItems));
                                    }
                                }
                            }
                            i = i + 1;
                        }
                    },
                    _ => {},
                }
            }
            proof {
                assert forall|j: int| 0 <= j < items@.len() && j < list@.len() implies own_reported(r.diagnostics@, #[trigger] items@[j], list@[j]) by {
                    lemma_own_grows(listed, r.diagnostics@, items@[j], list@[j]);
                }
                let extra = get_spec(*s, "additionalItems"@);
                if extra == Some(Json::Bool(false)) && list@.len() < items@.len() {
                    let ex = excess_findings(*node, list@.len() as int, items@.len() as int);
                    assert(ex.subrange(0, items@.len() - list@.len()) =~= ex);
                }
                if !(extra is Some && extra->0 is Object) && !(extra == Some(Json::Bool(false)) && list@.len() < items@.len()) {
                    assert(findings_of(r.diagnostics@) =~= findings_of(listed) + Seq::<Finding>::empty());
                }
            }
        },
        _ => {},
    }
    r
}

/// `additionalProperties`, over the entries that `properties` and
/// `patternProperties` left unclaimed (`claimed[i]` is false). Absent: they
/// stay unchecked. `true`: each is validated against the whole fragment `s`.
/// `false`: one diagnostic per unclaimed entry, naming its key, in order. A
/// schema: each is validated against it.
pub fn validate_additional_properties(
    validate: &JSONSchemaValidator,
    node: &Node,
    entries: &Vec<Entry>,
    claimed: &Vec<bool>,
    s: &Json,
) -> (r: Report)
    requires
        node.value == NodeValue::Object(*entries),
        claimed@.len() == entries@.len(),
    ensures
        attributable(r.diagnostics@, *s),
        get_spec(*s, "additionalProperties"@) == Some(Json::Bool(false)) ==> {
            &&& r.diagnostics@.len() == unclaimed_keys(entries@, claimed@).len()
            &&& forall|j: int| 0 <= j < r.diagnostics@.len() ==> (#[trigger] r.diagnostics@[j]).keyword
                == Keyword::AdditionalProperties && r.diagnostics@[j].subject@ == unclaimed_keys(
                entries@,
                claimed@,
            )[j]
        },
        get_spec(*s, "additionalProperties"@) == Some(Json::Bool(false)) && (forall|i: int|
            0 <= i < entries@.len() && declared(*s, (#[trigger] entries@[i]).key@) ==> claimed@[i])
            ==> forall|j: int| 0 <= j < r.diagnostics@.len() ==> !declared(*s, (#[trigger] r.diagnostics@[j]).subject@),
        forall|i: int| 0 <= i < entries@.len() && !claimed@[i] ==> unclaimed_entry_reported(r.diagnostics@, #[trigger] entries@[i], *s),
        get_spec(*s, "additionalProperties"@) == Some(Json::Bool(false)) ==> forall|q: int| 0 <= q < r.diagnostics@.len() ==> exists|i: int|
            0 <= i < entries@.len() && !claimed@[i] && (#[trigger] r.diagnostics@[q]).span == entries@[i].value.span
                && r.diagnostics@[q].subject@ == entries@[i].key@,
        !(get_spec(*s, "additionalProperties"@) is Some && (get_spec(*s, "additionalProperties"@)->0 is Bool
            || get_spec(*s, "additionalProperties"@)->0 is Object)) ==> r.diagnostics@.len() == 0,
        (forall|i: int| 0 <= i < entries@.len() ==> claimed@[i] == (declared(*s, (#[trigger] entries@[i]).key@)
            || pattern_claims(*s, entries@[i].key@))) ==> findings_of(r.diagnostics@) == additional_findings(
            *node,
            *s,
            entries@.len() as int,
        ),
    decreases *node, *s, 1int,
{
    let mut r = validate_unclaimed(validate, node, entries, claimed, s);
    proof {
        if get_spec(*s, "additionalProperties"@) == Some(Json::Bool(false)) && (forall|i: int|
            0 <= i < entries@.len() && declared(*s, (#[trigger] entries@[i]).key@) ==> claimed@[i]) {
            assert forall|j: int| 0 <= j < r.diagnostics@.len() implies !declared(*s, (#[trigger] r.diagnostics@[j]).subject@) by {
                lemma_declared_never_additional(*s, entries@, claimed@, j);
            }
        }
    }
    r
}

/// The walk over the unclaimed entries behind `validate_additional_properties`.
fn validate_unclaimed(
    validate: &JSONSchemaValidator,
    node: &Node,
    entries: &Vec<Entry>,
    claimed: &Vec<bool>,
    s: &Json,
) -> (r: Report)
    requires
        node.value == NodeValue::Object(*entries),
        claimed@.len() == entries@.len(),
    ensures
        attributable(r.diagnostics@, *s),
        get_spec(*s, "additionalProperties"@) == Some(Json::Bool(false)) ==> {
            &&& r.diagnostics@.len() == unclaimed_keys(entries@, claimed@).len()
            &&& forall|j: int| 0 <= j < r.diagnostics@.len() ==> (#[trigger] r.diagnostics@[j]).keyword
                == Keyword::AdditionalProperties && r.diagnostics@[j].subject@ == unclaimed_keys(
                entries@,
                claimed@,
            )[j]
        },
        forall|i: int| 0 <= i < entries@.len() && !claimed@[i] ==> unclaimed_entry_reported(r.diagnostics@, #[trigger] entries@[i], *s),
        get_spec(*s, "additionalProperties"@) == Some(Json::Bool(false)) ==> forall|q: int| 0 <= q < r.diagnostics@.len() ==> exists|i: int|
            0 <= i < entries@.len() && !claimed@[i] && (#[trigger] r.diagnostics@[q]).span == entries@[i].value.span
                && r.diagnostics@[q].subject@ == entries@[i].key@,
        !(get_spec(*s, "additionalProperties"@) is Some && (get_spec(*s, "additionalProperties"@)->0 is Bool
            || get_spec(*s, "additionalProperties"@)->0 is Object)) ==> r.diagnostics@.len() == 0,
        (forall|i: int| 0 <= i < entries@.len() ==> claimed@[i] == (declared(*s, (#[trigger] entries@[i]).key@)
            || pattern_claims(*s, entries@[i].key@))) ==> findings_of(r.diagnostics@) == additional_findings(
            *node,
            *s,
            entries@.len() as int,
        ),
    decreases *node, *s, 0int,
{
    let mut r = Report::new();
    let ghost exact = forall|i: int| 0 <= i < entries@.len() ==> claimed@[i] == (declared(*s, (#[trigger] entries@[i]).key@)
        || pattern_claims(*s, entries@[i].key@));
    assert(findings_of(r.diagnostics@) =~= Seq::<Finding>::empty());
    let extra = match get(s, "additionalProperties") {
        Some(e) => e,
        None => {
            proof {
                lemma_additional_absent(*node, *s, entries@.len() as int);
            }
            return r;
        },
    };
    proof {
        lemma_covers_get(*s, "additionalProperties"@);
        lemma_get_keyword(*s, "additionalProperties"@, "additionalProperties"@);
    }
    let mut i: usize = 0;
    while i < entries.len()
        invariant
            node.value == NodeValue::Object(*entries),
            claimed@.len() == entries@.len(),
            get_spec(*s, "additionalProperties"@) == Some(*extra),
            covers(*s, *extra),
            has_keyword(*s, "additionalProperties"@),
            i <= entries.len(),
            attributable(r.diagnostics@, *s),
            *extra == Json::Bool(false) ==> {
                &&& r.diagnostics@.len() == unclaimed_keys(entries@.subrange(0, i as int), claimed@).len()
                &&& forall|j: int| 0 <= j < r.diagnostics@.len() ==> (#[trigger] r.diagnostics@[j]).keyword
                    == Keyword::AdditionalProperties && r.diagnostics@[j].subject@ == unclaimed_keys(
                    entries@.subrange(0, i as int),
                    claimed@,
                )[j]
            },
            forall|j: int| 0 <= j < i && !claimed@[j] ==> unclaimed_entry_reported(r.diagnostics@, #[trigger] entries@[j], *s),
            *extra == Json::Bool(false) ==> forall|q: int| 0 <= q < r.diagnostics@.len() ==> exists|k: int|
                0 <= k < i && !claimed@[k] && (#[trigger] r.diagnostics@[q]).span == entries@[k].value.span
                    && r.diagnostics@[q].subject@ == entries@[k].key@,
            !(*extra is Bool || *extra is Object) ==> r.diagnostics@.len() == 0,
            exact == forall|i: int| 0 <= i < entries@.len() ==> claimed@[i] == (declared(*s, (#[trigger] entries@[i]).key@)
                || pattern_claims(*s, entries@[i].key@)),
            exact ==> findings_of(r.diagnostics@) == additional_findings(*node, *s, i as int),
        decreases entries.len() - i,
    {
        let ghost before = r.diagnostics@;
        proof {
            let p = entries@.subrange(0, i + 1);
            assert(p.drop_last() =~= entries@.subrange(0, i as int));
            assert(p.last() == entries@[i as int]);
        }
        if !claimed[i] {
            proof {
                lemma_object_child(*node, i as int);
            }
            match extra {
                Json::Bool(true) => {
                    let o = validate.validate_root(&entries[i].value, s);
                    let ghost inner = o.diagnostics@;
                    absorb(&mut r, o, Ghost(*s), Ghost(*s));
                    proof {
                        lemma_own_grows(inner, r.diagnostics@, entries@[i as int].value, *s);
                    }
                },
                Json::Bool(false) => {
                    let d = Diagnostic {
                        span: entries[i].value.span,
                        keyword: Keyword::AdditionalProperties,
                        subject: entries[i].key.clone(),
                        counts: None,
                    };
                    record(&mut r, Some(d), Ghost(*s));
                    proof {
                        assert forall|q: int| 0 <= q < r.diagnostics@.len() implies exists|k: int|
                            0 <= k < i + 1 && !claimed@[k] && (#[trigger] r.diagnostics@[q]).span == entries@[k].value.span
                                && r.diagnostics@[q].subject@ == entries@[k].key@ by {
                            if q < before.len() {
                                assert(r.diagnostics@[q] == before[q]);
                            } else {
                                assert(r.diagnostics@[q] == d);
                            }
                        }
                    }
                },
                Json::Object(_) => {
                    let o = validate.validate_root(&entries[i].value, extra);
                    let ghost inner = o.diagnostics@;
                    absorb(&mut r, o, Ghost(*s), Ghost(*extra));
                    proof {
                        lemma_own_grows(inner, r.diagnostics@, entries@[i as int].value, *extra);
                    }
                },
                _ => {},
            }
        }
        proof {
            if exact {
                if !claimed@[i as int] && *extra == Json::Bool(false) {
                    assert(r.diagnostics@[before.len() as int].subject@ == entries@[i as int].key@);
                }
                assert(findings_of(r.diagnostics@) =~= additional_findings(*node, *s, i + 1));
            }
            assert forall|j: int| 0 <= j < i + 1 && !claimed@[j] implies unclaimed_entry_reported(r.diagnostics@, #[trigger] entries@[j], *s) by {
                if j < i {
                    lemma_unclaimed_entry_grows(before, r.diagnostics@, entries@[j], *s);
                }
            }
        }
        i = i + 1;
    }
    proof {
        assert(entries@.subrange(0, entries@.len() as int) =~= entries@);
    }
    r
}

} // verus!
