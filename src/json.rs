//! Schema fragments: a plain JSON value tree, and lookup of keywords in it.

use vstd::prelude::*;

verus! {

broadcast use vstd::std_specs::vec::group_vec_axioms;

/// A JSON value, as a schema document is made of.
#[derive(Debug)]
pub enum Json {
    Null,
    Bool(bool),
    Number(i64),
    Str(String),
    Array(Vec<Json>),
    Object(Vec<Member>),
}

/// One `"key": value` member of a JSON object.
#[derive(Debug)]
pub struct Member {
    pub key: String,
    pub value: Json,
}

/// The value bound to `k` among `ms`; where a key is repeated the last
/// binding wins, as a JSON parser keeping one value per key does.
pub open spec fn member_value(ms: Seq<Member>, k: Seq<char>) -> Option<Json>
    decreases ms.len(),
{
    if ms.len() == 0 {
        None
    } else if ms.last().key@ == k {
        Some(ms.last().value)
    } else {
        member_value(ms.drop_last(), k)
    }
}

/// The value of keyword `k` in fragment `j`, if `j` is an object holding it.
pub open spec fn get_spec(j: Json, k: Seq<char>) -> Option<Json> {
    match j {
        Json::Object(ms) => member_value(ms@, k),
        _ => None,
    }
}

/// `k` is used as a key somewhere inside fragment `j`.
pub open spec fn has_keyword(j: Json, k: Seq<char>) -> bool
    decreases j,
{
    match j {
        Json::Object(ms) => exists|i: int|
            0 <= i < ms.len() && (#[trigger] ms[i]).key@ == k || (0 <= i < ms.len()
                && has_keyword(ms[i].value, k)),
        Json::Array(xs) => exists|i: int| 0 <= i < xs.len() && has_keyword(#[trigger] xs[i], k),
        _ => false,
    }
}

pub proof fn lemma_member_value_in(ms: Seq<Member>, k: Seq<char>)
    requires
        member_value(ms, k) is Some,
    ensures
        exists|i: int| 0 <= i < ms.len() && ms[i].key@ == k && ms[i].value == member_value(ms, k)->0,
    decreases ms.len(),
{
    if ms.last().key@ != k {
        lemma_member_value_in(ms.drop_last(), k);
        let i = choose|i: int|
            0 <= i < ms.drop_last().len() && ms.drop_last()[i].key@ == k
                && ms.drop_last()[i].value == member_value(ms.drop_last(), k)->0;
        assert(ms[i] == ms.drop_last()[i]);
    } else {
        assert(ms[ms.len() - 1] == ms.last());
    }
}

/// A keyword found in a fragment is used in it, and so is every keyword
/// used inside the value found.
pub proof fn lemma_get_keyword(j: Json, k: Seq<char>, k2: Seq<char>)
    requires
        get_spec(j, k) is Some,
    ensures
        has_keyword(j, k),
        has_keyword(get_spec(j, k)->0, k2) ==> has_keyword(j, k2),
{
    if let Json::Object(ms) = j {
        lemma_member_value_in(ms@, k);
        let i = choose|i: int| 0 <= i < ms@.len() && ms@[i].key@ == k && ms@[i].value == member_value(ms@, k)->0;
        assert(ms[i].key@ == k);
        if has_keyword(get_spec(j, k)->0, k2) {
            assert(0 <= i < ms.len() && has_keyword(ms[i].value, k2));
        }
    }
}

/// `a` and `b` are the same JSON value: the same kind and content, arrays
/// element by element, objects member by member in order.
pub open spec fn same_json(a: Json, b: Json) -> bool
    decreases a,
{
    match (a, b) {
        (Json::Null, Json::Null) => true,
        (Json::Bool(x), Json::Bool(y)) => x == y,
        (Json::Number(x), Json::Number(y)) => x == y,
        (Json::Str(x), Json::Str(y)) => x@ == y@,
        (Json::Array(xs), Json::Array(ys)) => xs.len() == ys.len() && forall|i: int|
            0 <= i < xs.len() ==> same_json(#[trigger] xs[i], ys[i]),
        (Json::Object(xs), Json::Object(ys)) => xs.len() == ys.len() && forall|i: int|
            0 <= i < xs.len() ==> (#[trigger] xs[i]).key@ == ys[i].key@ && same_json(
                xs[i].value,
                ys[i].value,
            ),
        _ => false,
    }
}

impl Json {
    /// A copy of the whole value.
    pub fn deep_copy(&self) -> (r: Json)
        ensures
            same_json(*self, r),
        decreases self,
    {
        match self {
            Json::Null => Json::Null,
            Json::Bool(b) => Json::Bool(*b),
            Json::Number(n) => Json::Number(*n),
            Json::Str(t) => Json::Str(t.clone()),
            Json::Array(xs) => {
                let mut out: Vec<Json> = Vec::new();
                let mut i: usize = 0;
                while i < xs.len()
                    invariant
                        *self == Json::Array(*xs),
                        i <= xs.len(),
                        out@.len() == i,
                        forall|j: int| 0 <= j < i ==> same_json(#[trigger] xs@[j], out@[j]),
                    decreases xs.len() - i,
                {
                    proof {
                        assert(decreases_to!(*self => self->Array_0));
                    }
                    out.push(xs[i].deep_copy());
                    i = i + 1;
                }
                Json::Array(out)
            },
            Json::Object(ms) => {
                let mut out: Vec<Member> = Vec::new();
                let mut i: usize = 0;
                while i < ms.len()
                    invariant
                        *self == Json::Object(*ms),
                        i <= ms.len(),
                        out@.len() == i,
                        forall|j: int|
                            0 <= j < i ==> (#[trigger] ms@[j]).key@ == out@[j].key@ && same_json(
                                ms@[j].value,
                                out@[j].value,
                            ),
                    decreases ms.len() - i,
                {
                    proof {
                        assert(decreases_to!(*self => self->Object_0));
                        assert(decreases_to!(*ms => ms[i as int]));
                    }
                    out.push(Member { key: ms[i].key.clone(), value: ms[i].value.deep_copy() });
                    i = i + 1;
                }
                Json::Object(out)
            },
        }
    }
}

/// An exec lookup result agrees with the spec one.
pub open spec fn found(r: Option<&Json>, o: Option<Json>) -> bool {
    match r {
        Some(v) => o == Some(*v),
        None => o is None,
    }
}

/// A keyword's value is a part of the fragment that holds it.
pub proof fn lemma_get_decreases(j: Json, k: Seq<char>)
    requires
        get_spec(j, k) is Some,
    ensures
        decreases_to!(j => get_spec(j, k)->0),
{
    let ms = j->Object_0;
    lemma_member_value_in(ms@, k);
    let i = choose|i: int| 0 <= i < ms@.len() && ms@[i].key@ == k && ms@[i].value == member_value(ms@, k)->0;
    assert(decreases_to!(j => ms));
    assert(decreases_to!(ms => ms[i]));
    assert(decreases_to!(ms[i] => ms[i].value));
}

/// Character-wise equality of a key with a name.
pub fn same_text(a: &str, b: &str) -> (r: bool)
    ensures
        r == (a@ == b@),
{
    let n = a.unicode_len();
    if n != b.unicode_len() {
        return false;
    }
    let mut i: usize = 0;
    while i < n
        invariant
            n == a@.len(),
            n == b@.len(),
            i <= n,
            forall|j: int| 0 <= j < i ==> a@[j] == b@[j],
        decreases n - i,
    {
        if a.get_char(i) != b.get_char(i) {
            return false;
        }
        i = i + 1;
    }
    assert(a@ =~= b@);
    true
}

/// The value bound to `k` among the members `ms`.
pub fn member<'a>(ms: &'a Vec<Member>, k: &str) -> (r: Option<&'a Json>)
    ensures
        found(r, member_value(ms@, k@)),
{
    let mut i = ms.len();
    assert(ms@.subrange(0, i as int) =~= ms@);
    while i > 0
        invariant
            i <= ms.len(),
            member_value(ms@, k@) == member_value(ms@.subrange(0, i as int), k@),
        decreases i,
    {
        let m = &ms[i - 1];
        let hit = same_text(m.key.as_str(), k);
        proof {
            let s = ms@.subrange(0, i as int);
            assert(s.last() == ms@[i - 1]);
            assert(s.drop_last() =~= ms@.subrange(0, i - 1));
        }
        if hit {
            return Some(&m.value);
        }
        i = i - 1;
    }
    proof {
        assert(ms@.subrange(0, 0).len() == 0);
    }
    None
}

/// The value of keyword `k` in fragment `j`.
pub fn get<'a>(j: &'a Json, k: &str) -> (r: Option<&'a Json>)
    ensures
        found(r, get_spec(*j, k@)),
{
    match j {
        Json::Object(ms) => member(ms, k),
        _ => None,
    }
}

} // verus!
