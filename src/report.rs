//! What a validation produces: diagnostics, and which schema fragment each
//! node was matched against.

use crate::document::Span;
use crate::json::{has_keyword, Json};
use vstd::prelude::*;

verus! {

/// The schema keyword that a diagnostic is due to.
#[derive(Clone, Copy, Debug, PartialEq, Eq, Structural)]
pub enum Keyword {
    Type,
    Enum,
    MinLength,
    MaxLength,
    Pattern,
    Format,
    MultipleOf,
    Minimum,
    Maximum,
    MinItems,
    MaxItems,
    UniqueItems,
    AdditionalItems,
    AdditionalProperties,
    Dependencies,
    MinProperties,
    MaxProperties,
    Required,
}

/// The key under which a keyword is written in a schema.
pub open spec fn keyword_name(k: Keyword) -> Seq<char> {
    match k {
        Keyword::Type => "type"@,
        Keyword::Enum => "enum"@,
        Keyword::MinLength => "minLength"@,
        Keyword::MaxLength => "maxLength"@,
        Keyword::Pattern => "pattern"@,
        Keyword::Format => "format"@,
        Keyword::MultipleOf => "multipleOf"@,
        Keyword::Minimum => "minimum"@,
        Keyword::Maximum => "maximum"@,
        Keyword::MinItems => "minItems"@,
        Keyword::MaxItems => "maxItems"@,
        Keyword::UniqueItems => "uniqueItems"@,
        Keyword::AdditionalItems => "additionalItems"@,
        Keyword::AdditionalProperties => "additionalProperties"@,
        Keyword::Dependencies => "dependencies"@,
        Keyword::MinProperties => "minProperties"@,
        Keyword::MaxProperties => "maxProperties"@,
        Keyword::Required => "required"@,
    }
}

/// One validation failure: where, which keyword, the property name it
/// concerns (empty where it concerns none), and for `additionalItems` the
/// number of elements that the item schemas cover and the number present.
#[derive(Debug)]
pub struct Diagnostic {
    pub span: Span,
    pub keyword: Keyword,
    pub subject: String,
    pub counts: Option<(usize, usize)>,
}

/// A node that was validated, and the schema fragment it was validated
/// against.
#[derive(Debug)]
pub struct SchemaMatch {
    pub span: Span,
    pub schema: Json,
}

/// Diagnostics, and a match record for every node validated, in the order
/// met.
#[derive(Debug)]
pub struct Report {
    pub diagnostics: Vec<Diagnostic>,
    pub matches: Vec<SchemaMatch>,
}

/// Every diagnostic among `ds` is due to a keyword used in `s`.
pub open spec fn attributable(ds: Seq<Diagnostic>, s: Json) -> bool {
    forall|i: int| 0 <= i < ds.len() ==> has_keyword(s, keyword_name(#[trigger] ds[i].keyword))
}

/// Some diagnostic among `ds` is due to `k` and stands at `span`.
pub open spec fn reports(ds: Seq<Diagnostic>, span: Span, k: Keyword) -> bool {
    exists|i: int| 0 <= i < ds.len() && (#[trigger] ds[i]).span == span && ds[i].keyword == k
}

/// Some diagnostic among `ds` is due to `k` and names `name`.
pub open spec fn reports_named(ds: Seq<Diagnostic>, k: Keyword, name: Seq<char>) -> bool {
    exists|i: int| 0 <= i < ds.len() && (#[trigger] ds[i]).keyword == k && ds[i].subject@ == name
}

/// Everything that `a` reports, `b` reports too.
pub open spec fn grows(a: Seq<Diagnostic>, b: Seq<Diagnostic>) -> bool {
    &&& forall|span: Span, k: Keyword| #[trigger] reports(a, span, k) ==> reports(b, span, k)
    &&& forall|k: Keyword, name: Seq<char>| #[trigger] reports_named(a, k, name) ==> reports_named(b, k, name)
}

pub proof fn lemma_grows_trans(a: Seq<Diagnostic>, b: Seq<Diagnostic>, c: Seq<Diagnostic>)
    requires
        grows(a, b),
        grows(b, c),
    ensures
        grows(a, c),
{
}

/// A list grows into itself followed by more, and so does what follows.
pub proof fn lemma_grows_append(ds: Seq<Diagnostic>, more: Seq<Diagnostic>)
    ensures
        grows(ds, ds + more),
        grows(more, ds + more),
{
    assert forall|span: Span, k: Keyword| #[trigger] reports(ds, span, k) implies reports(ds + more, span, k) by {
        let i = choose|i: int| 0 <= i < ds.len() && (#[trigger] ds[i]).span == span && ds[i].keyword == k;
        assert((ds + more)[i] == ds[i]);
    }
    assert forall|k: Keyword, name: Seq<char>| #[trigger] reports_named(ds, k, name) implies reports_named(ds + more, k, name) by {
        let i = choose|i: int| 0 <= i < ds.len() && (#[trigger] ds[i]).keyword == k && ds[i].subject@ == name;
        assert((ds + more)[i] == ds[i]);
    }
    assert forall|span: Span, k: Keyword| #[trigger] reports(more, span, k) implies reports(ds + more, span, k) by {
        let i = choose|i: int| 0 <= i < more.len() && (#[trigger] more[i]).span == span && more[i].keyword == k;
        assert((ds + more)[ds.len() + i] == more[i]);
    }
    assert forall|k: Keyword, name: Seq<char>| #[trigger] reports_named(more, k, name) implies reports_named(ds + more, k, name) by {
        let i = choose|i: int| 0 <= i < more.len() && (#[trigger] more[i]).keyword == k && more[i].subject@ == name;
        assert((ds + more)[ds.len() + i] == more[i]);
    }
}

/// Every keyword used in `sub` is used in `s`.
pub open spec fn covers(s: Json, sub: Json) -> bool {
    forall|k: Seq<char>| #[trigger] has_keyword(sub, k) ==> has_keyword(s, k)
}

pub proof fn lemma_attributable_append(a: Seq<Diagnostic>, b: Seq<Diagnostic>, s: Json, sub: Json)
    requires
        attributable(a, s),
        attributable(b, sub),
        covers(s, sub),
    ensures
        attributable(a + b, s),
{
    assert forall|i: int| 0 <= i < (a + b).len() implies has_keyword(
        s,
        keyword_name(#[trigger] (a + b)[i].keyword),
    ) by {
        if i >= a.len() {
            assert((a + b)[i] == b[i - a.len()]);
        }
    }
}

impl Report {
    pub fn new() -> (r: Report)
        ensures
            r.diagnostics@.len() == 0,
            r.matches@.len() == 0,
    {
        Report { diagnostics: Vec::new(), matches: Vec::new() }
    }

    /// Appends the diagnostics and matches of `other` after those of `self`.
    pub fn merge(&mut self, other: Report)
        ensures
            final(self).diagnostics@ == old(self).diagnostics@ + other.diagnostics@,
            final(self).matches@ == old(self).matches@ + other.matches@,
    {
        let mut other = other;
        self.diagnostics.append(&mut other.diagnostics);
        self.matches.append(&mut other.matches);
    }
}

} // verus!
