//! The `format` registry: named checkers of a string's shape. Names outside
//! the registry are no constraint.

use crate::json::same_text;
use vstd::prelude::*;

verus! {

pub open spec fn is_digit(c: char) -> bool {
    '0' <= c <= '9'
}

pub open spec fn is_alpha(c: char) -> bool {
    ('a' <= c <= 'z') || ('A' <= c <= 'Z')
}

/// Characters after the first one of a URI scheme.
pub open spec fn is_scheme_char(c: char) -> bool {
    is_alpha(c) || is_digit(c) || c == '+' || c == '-' || c == '.'
}

pub open spec fn digits_at(t: Seq<char>, from: int, to: int) -> bool {
    forall|i: int| from <= i < to ==> is_digit(#[trigger] t[i])
}

/// `YYYY-MM-DD`, by shape.
pub open spec fn full_date(t: Seq<char>) -> bool {
    &&& t.len() >= 10
    &&& digits_at(t, 0, 4)
    &&& t[4] == '-'
    &&& digits_at(t, 5, 7)
    &&& t[7] == '-'
    &&& digits_at(t, 8, 10)
}

/// `Z`, or an offset `+HH:MM` / `-HH:MM`.
pub open spec fn zone(t: Seq<char>) -> bool {
    ||| t =~= seq!['Z']
    ||| t =~= seq!['z']
    ||| t.len() == 6 && (t[0] == '+' || t[0] == '-') && digits_at(t, 1, 3) && t[3] == ':' && digits_at(t, 4, 6)
}

/// Digits, then a zone.
pub open spec fn digits_then_zone(t: Seq<char>) -> bool
    decreases t.len(),
{
    zone(t) || (t.len() > 0 && is_digit(t[0]) && digits_then_zone(t.drop_first()))
}

/// After the seconds: a zone, or a fraction `.d+` and then a zone.
pub open spec fn time_tail(t: Seq<char>) -> bool {
    zone(t) || (t.len() >= 2 && t[0] == '.' && is_digit(t[1]) && digits_then_zone(t.subrange(2, t.len() as int)))
}

/// `YYYY-MM-DDTHH:MM:SS[.frac](Z|±HH:MM)`, by shape.
pub open spec fn date_time(t: Seq<char>) -> bool {
    &&& t.len() >= 20
    &&& full_date(t)
    &&& (t[10] == 'T' || t[10] == 't')
    &&& digits_at(t, 11, 13)
    &&& t[13] == ':'
    &&& digits_at(t, 14, 16)
    &&& t[16] == ':'
    &&& digits_at(t, 17, 19)
    &&& time_tail(t.subrange(19, t.len() as int))
}

/// One `@`, with characters on both sides of it.
pub open spec fn email(t: Seq<char>) -> bool {
    exists|k: int|
        0 < k < t.len() - 1 && #[trigger] t[k] == '@' && forall|j: int| 0 <= j < t.len() && j != k ==> #[trigger] t[j] != '@'
}

/// A scheme (a letter, then letters, digits, `+`, `-` or `.`) and a colon.
pub open spec fn uri(t: Seq<char>) -> bool {
    exists|k: int| 0 < k < t.len() && #[trigger] t[k] == ':' && is_alpha(t[0]) && forall|j: int| 1 <= j < k ==> is_scheme_char(#[trigger] t[j])
}

/// Format name `f` is in the registry and `t` does not have its shape.
pub open spec fn format_violated(f: Seq<char>, t: Seq<char>) -> bool {
    if f == "date"@ {
        !(t.len() == 10 && full_date(t))
    } else if f == "date-time"@ {
        !date_time(t)
    } else if f == "email"@ {
        !email(t)
    } else if f == "uri"@ {
        !uri(t)
    } else {
        false
    }
}

fn chars_of(t: &str) -> (r: Vec<char>)
    ensures
        r@ == t@,
{
    let n = t.unicode_len();
    let mut r: Vec<char> = Vec::new();
    let mut i: usize = 0;
    while i < n
        invariant
            n == t@.len(),
            i <= n,
            r@ =~= t@.subrange(0, i as int),
        decreases n - i,
    {
        r.push(t.get_char(i));
        i = i + 1;
    }
    r
}

fn digit(c: char) -> (r: bool)
    ensures
        r == is_digit(c),
{
    '0' <= c && c <= '9'
}

fn digits_in(t: &Vec<char>, from: usize, to: usize) -> (r: bool)
    requires
        from <= to <= t@.len(),
    ensures
        r == digits_at(t@, from as int, to as int),
{
    let mut i = from;
    while i < to
        invariant
            from <= i <= to <= t@.len(),
            digits_at(t@, from as int, i as int),
        decreases to - i,
    {
        if !digit(t[i]) {
            return false;
        }
        i = i + 1;
    }
    true
}

fn full_date_at(t: &Vec<char>) -> (r: bool)
    ensures
        r == full_date(t@),
{
    t.len() >= 10 && digits_in(t, 0, 4) && t[4] == '-' && digits_in(t, 5, 7) && t[7] == '-' && digits_in(t, 8, 10)
}

/// Whether `t[from..]` is a zone.
fn zone_from(t: &Vec<char>, from: usize) -> (r: bool)
    requires
        from <= t@.len(),
    ensures
        r == zone(t@.subrange(from as int, t@.len() as int)),
{
    let ghost z = t@.subrange(from as int, t@.len() as int);
    let n = t.len() - from;
    if n == 1 {
        assert(z =~= seq![t@[from as int]]) ;
        assert(z =~= seq!['Z'] ==> z[0] == 'Z');
        assert(z =~= seq!['z'] ==> z[0] == 'z');
        t[from] == 'Z' || t[from] == 'z'
    } else if n == 6 {
        let sign = t[from] == '+' || t[from] == '-';
        let r = sign && digit(t[from + 1]) && digit(t[from + 2]) && t[from + 3] == ':' && digit(t[from + 4]) && digit(t[from + 5]);
        assert(digits_at(z, 1, 3) == (is_digit(z[1]) && is_digit(z[2])));
        assert(digits_at(z, 4, 6) == (is_digit(z[4]) && is_digit(z[5])));
        r
    } else {
        false
    }
}

fn date_time_at(t: &Vec<char>) -> (r: bool)
    ensures
        r == date_time(t@),
{
    if !(t.len() >= 20 && full_date_at(t) && (t[10] == 'T' || t[10] == 't') && digits_in(t, 11, 13)
        && t[13] == ':' && digits_in(t, 14, 16) && t[16] == ':' && digits_in(t, 17, 19)) {
        return false;
    }
    let n = t.len();
    let ghost tail = t@.subrange(19, n as int);
    if zone_from(t, 19) {
        return true;
    }
    if !(n >= 21 && t[19] == '.' && digit(t[20])) {
        return false;
    }
    // digits_then_zone over t[j..], computed from the end
    let mut acc = zone_from(t, n);
    let mut j = n;
    while j > 21
        invariant
            21 <= j <= n == t@.len(),
            acc == digits_then_zone(t@.subrange(j as int, n as int)),
        decreases j,
    {
        j = j - 1;
        let z = zone_from(t, j);
        proof {
            let u = t@.subrange(j as int, n as int);
            assert(u.drop_first() =~= t@.subrange(j + 1, n as int));
        }
        acc = z || (digit(t[j]) && acc);
    }
    assert(tail.subrange(2, tail.len() as int) =~= t@.subrange(21, n as int));
    acc
}

fn email_at(t: &Vec<char>) -> (r: bool)
    ensures
        r == email(t@),
{
    let mut at: usize = 0;
    let mut count: usize = 0;
    let mut i: usize = 0;
    while i < t.len()
        invariant
            i <= t@.len(),
            count <= i,
            count == 0 ==> forall|j: int| 0 <= j < i ==> #[trigger] t@[j] != '@',
            count >= 1 ==> at < i && t@[at as int] == '@',
            count == 1 ==> forall|j: int| 0 <= j < i && j != at ==> #[trigger] t@[j] != '@',
            count >= 2 ==> exists|a: int, b: int| 0 <= a < b < t@.len() && t@[a] == '@' && t@[b] == '@',
        decreases t.len() - i,
    {
        if t[i] == '@' {
            if count == 0 {
                at = i;
            } else {
                assert(0 <= at < i < t@.len() && t@[at as int] == '@' && t@[i as int] == '@');
            }
            if count < 2 {
                count = count + 1;
            }
        }
        i = i + 1;
    }
    if count >= 2 {
        proof {
            let (a, b) = choose|a: int, b: int| 0 <= a < b < t@.len() && t@[a] == '@' && t@[b] == '@';
            assert forall|k: int| 0 < k < t@.len() - 1 && #[trigger] t@[k] == '@' implies exists|j: int| 0 <= j < t@.len() && j != k && #[trigger] t@[j] == '@' by {
                if k == a {
                    assert(t@[b] == '@');
                } else {
                    assert(t@[a] == '@');
                }
            }
        }
        return false;
    }
    if count == 0 {
        return false;
    }
    let r = 0 < at && at + 1 < t.len();
    proof {
        if !r {
            assert forall|k: int| 0 < k < t@.len() - 1 && #[trigger] t@[k] == '@' implies exists|j: int| 0 <= j < t@.len() && j != k && #[trigger] t@[j] == '@' by {
                assert(k != at);
                assert(t@[at as int] == '@');
            }
        }
    }
    r
}

fn uri_at(t: &Vec<char>) -> (r: bool)
    ensures
        r == uri(t@),
{
    if t.len() == 0 {
        return false;
    }
    let first = t[0];
    if !(('a' <= first && first <= 'z') || ('A' <= first && first <= 'Z')) {
        return false;
    }
    let mut i: usize = 1;
    while i < t.len()
        invariant
            1 <= i <= t@.len(),
            is_alpha(t@[0]),
            forall|j: int| 1 <= j < i ==> is_scheme_char(#[trigger] t@[j]),
        decreases t.len() - i,
    {
        let c = t[i];
        if c == ':' {
            return true;
        }
        if !(('a' <= c && c <= 'z') || ('A' <= c && c <= 'Z') || digit(c) || c == '+' || c == '-' || c == '.') {
            proof {
                assert forall|k: int| 0 < k < t@.len() && #[trigger] t@[k] == ':' && is_alpha(t@[0]) implies !(forall|j: int| 1 <= j < k ==> is_scheme_char(#[trigger] t@[j])) by {
                    assert(k > i);
                    assert(!is_scheme_char(t@[i as int]));
                }
            }
            return false;
        }
        i = i + 1;
    }
    false
}

/// Whether `text` violates the registered format named `name`.
pub fn violates_format(name: &str, text: &str) -> (r: bool)
    ensures
        r == format_violated(name@, text@),
{
    let t = chars_of(text);
    if same_text(name, "date") {
        !(t.len() == 10 && full_date_at(&t))
    } else if same_text(name, "date-time") {
        !date_time_at(&t)
    } else if same_text(name, "email") {
        !email_at(&t)
    } else if same_text(name, "uri") {
        !uri_at(&t)
    } else {
        false
    }
}

} // verus!
