//! Rule conditions: whether a file satisfies a condition group, by its name
//! parts, size and times.
use vstd::prelude::*;
use crate::clock::{local_date_instant, local_datetime_instant, local_timestamp};
use crate::models::{Condition, ConditionField, ConditionGroup, JsonValue, Logic, Operator};
use crate::paths::{ext_or_empty, file_name_of, name_or_empty, name_parts, parent_chars, parent_of, stem_or_empty, file_name_chars};
use crate::text::{
    ascii_lower, ascii_lower_seq, ascii_lowercase, chars_of, chars_eq, contains_chars, contains_seq, ends_with_seq, lower_chars,
    lowercase, matches_at, occurs_at, starts_with_seq,
};

verus! {

/// Whether `text` matches the regular expression `pattern`; false when the
/// pattern does not compile. Named, as the regex crate decides it.
pub uninterp spec fn regex_match(pattern: Seq<char>, text: Seq<char>) -> bool;

/// `regex::Regex::new(pattern)`, then `is_match(text)`; false when the pattern
/// is refused. The result is what `regex_match` names.
#[verifier::external_body]
fn regex_is_match(pattern: &str, text: &str) -> (r: bool)
    ensures
        r == regex_match(pattern@, text@),
{
    regex::Regex::new(pattern).map(|re| re.is_match(text)).unwrap_or(false)
}

/// What a condition can read of a file besides its path: its size and its
/// creation and modification times (UNIX seconds and nanoseconds), each when
/// known, and the current time.
#[derive(Debug)]
pub struct FileFacts {
    pub path: String,
    pub size: Option<u64>,
    pub created: Option<(i64, u32)>,
    pub modified: Option<(i64, u32)>,
    pub now: (i64, u32),
}

// ------------------------------------------------------------ json values

pub open spec fn json_text(v: JsonValue) -> Option<Seq<char>> {
    match v {
        JsonValue::Text(s) => Some(s@),
        _ => None,
    }
}

pub open spec fn json_int(v: JsonValue) -> Option<i64> {
    match v {
        JsonValue::Number(n) => Some(n),
        _ => None,
    }
}

/// Two texts agree ignoring ASCII case.
pub open spec fn eq_ascii_ci(a: Seq<char>, b: Seq<char>) -> bool {
    ascii_lower_seq(a) == ascii_lower_seq(b)
}

/// A list holds a text equal to `value` ignoring ASCII case.
pub open spec fn list_has(items: Seq<JsonValue>, value: Seq<char>) -> bool {
    exists|i: int| 0 <= i < items.len() && (#[trigger] json_text(items[i]) matches Some(s) && eq_ascii_ci(s, value))
}

// ------------------------------------------------------------- conditions

/// A text condition: `target`'s text (empty when it is none) against `value`.
pub open spec fn string_holds(value: Seq<char>, op: Operator, target: JsonValue) -> bool {
    let t = match json_text(target) { Some(s) => s, None => Seq::empty() };
    match op {
        Operator::Equals => eq_ascii_ci(value, t),
        Operator::NotEquals => !eq_ascii_ci(value, t),
        Operator::Contains => contains_seq(lowercase(value), lowercase(t)),
        Operator::NotContains => !contains_seq(lowercase(value), lowercase(t)),
        Operator::StartsWith => starts_with_seq(lowercase(value), lowercase(t)),
        Operator::EndsWith => ends_with_seq(lowercase(value), lowercase(t)),
        Operator::Regex => regex_match(t, value),
        Operator::In => match target {
            JsonValue::List(items) => list_has(items@, value),
            _ => false,
        },
        Operator::NotIn => match target {
            JsonValue::List(items) => !list_has(items@, value),
            _ => true,
        },
        _ => false,
    }
}

/// Ten to the power `s`.
pub open spec fn pow10(s: nat) -> int
    decreases s,
{
    if s == 0 { 1 } else { 10 * pow10((s - 1) as nat) }
}

pub open spec fn sign(x: int) -> int {
    if x < 0 { -1 } else if x == 0 { 0 } else { 1 }
}

/// The sign of `value` less the number `target` is: a whole number, or a
/// decimal; none when it is no number.
pub open spec fn compare_to(value: int, target: JsonValue) -> Option<int> {
    match target {
        JsonValue::Number(n) => Some(sign(value - n)),
        JsonValue::Decimal(m, s) => Some(sign(value * pow10(s as nat) - m)),
        _ => None,
    }
}

/// A size condition; the target is a number, or a list of two for a range.
pub open spec fn number_holds(value: int, op: Operator, target: JsonValue) -> bool {
    match op {
        Operator::Equals => compare_to(value, target) == Some(0int),
        Operator::NotEquals => compare_to(value, target) matches Some(c) && c != 0,
        Operator::Gt => compare_to(value, target) == Some(1int),
        Operator::Gte => compare_to(value, target) matches Some(c) && c >= 0,
        Operator::Lt => compare_to(value, target) == Some(-1int),
        Operator::Lte => compare_to(value, target) matches Some(c) && c <= 0,
        Operator::Between => match target {
            JsonValue::List(items) => items@.len() >= 2 && (compare_to(value, items@[0]) matches Some(lo) && (compare_to(value, items@[1]) matches Some(hi)
                && lo >= 0 && hi <= 0)),
            _ => false,
        },
        _ => false,
    }
}

proof fn lemma_pow10_pos(n: nat)
    ensures
        pow10(n) >= 1,
    decreases n,
{
    if n > 0 {
        lemma_pow10_pos((n - 1) as nat);
    }
}

proof fn lemma_pow10_le(i: nat, j: nat)
    requires
        i <= j,
    ensures
        1 <= pow10(i) <= pow10(j),
    decreases j,
{
    lemma_pow10_pos(i);
    if j > i {
        lemma_pow10_le(i, (j - 1) as nat);
    }
}

/// The sign of `value` less the number `target` is (see `compare_to`).
fn compare_value(value: u64, target: &JsonValue) -> (r: Option<i8>)
    ensures
        match compare_to(value as int, *target) {
            Some(c) => r matches Some(x) && x == c,
            None => r is None,
        },
{
    let v = value as i128;
    let d: i128 = match target {
        JsonValue::Number(n) => v - *n as i128,
        JsonValue::Decimal(m, s) => {
            let s = *s;
            let m = *m as i128;
            if s <= 18 {
                let mut p: i128 = 1;
                let mut i: u32 = 0;
                assert(pow10(18) == 1_000_000_000_000_000_000) by { reveal_with_fuel(pow10, 19); }
                while i < s
                    invariant
                        i <= s <= 18,
                        p == pow10(i as nat),
                        pow10(18) == 1_000_000_000_000_000_000,
                    decreases s - i,
                {
                    proof { lemma_pow10_le((i + 1) as nat, 18); }
                    p = p * 10;
                    i = i + 1;
                }
                proof { lemma_pow10_le(s as nat, 18); }
                assert(v * p <= 18_446_744_073_709_551_615 * 1_000_000_000_000_000_000) by (nonlinear_arith)
                    requires 0 <= v <= 18_446_744_073_709_551_615, 0 < p <= 1_000_000_000_000_000_000;
                assert(v * p >= 0) by (nonlinear_arith)
                    requires 0 <= v, 0 < p;
                v * p - m
            } else {
                proof {
                    lemma_pow10_le(19, s as nat);
                    assert(pow10(19) == 10_000_000_000_000_000_000) by { reveal_with_fuel(pow10, 20); }
                    let q = pow10(s as nat);
                    assert(v >= 1 ==> v * q >= q) by (nonlinear_arith)
                        requires q >= 1, v >= 0;
                    assert(v == 0 ==> v * q == 0);
                }
                if v == 0 { 0 - m } else { 1 }
            }
        },
        _ => { return None; },
    };
    if d < 0 { Some(-1) } else if d == 0 { Some(0) } else { Some(1) }
}

fn text_of(v: &JsonValue) -> (r: Vec<char>)
    ensures
        r@ == (match json_text(*v) { Some(s) => s, None => Seq::empty() }),
{
    match v {
        JsonValue::Text(s) => chars_of(s.as_str()),
        _ => Vec::new(),
    }
}

fn eq_ci(a: &Vec<char>, b: &Vec<char>) -> (r: bool)
    ensures
        r == eq_ascii_ci(a@, b@),
{
    let x = ascii_lowercase(a);
    let y = ascii_lowercase(b);
    chars_eq(&x, &y)
}

fn list_contains(items: &Vec<JsonValue>, value: &Vec<char>) -> (r: bool)
    ensures
        r == list_has(items@, value@),
{
    let mut i: usize = 0;
    while i < items.len()
        invariant
            i <= items.len(),
            forall|k: int| 0 <= k < i ==> !(#[trigger] json_text(items@[k]) matches Some(s) && eq_ascii_ci(s, value@)),
        decreases items.len() - i,
    {
        match &items[i] {
            JsonValue::Text(s) => {
                let sv = chars_of(s.as_str());
                if eq_ci(&sv, value) {
                    assert(json_text(items@[i as int]) matches Some(x) && eq_ascii_ci(x, value@));
                    return true;
                }
            },
            _ => {},
        }
        i = i + 1;
    }
    false
}

fn starts_with_chars(s: &Vec<char>, p: &Vec<char>) -> (r: bool)
    ensures
        r == starts_with_seq(s@, p@),
{
    matches_at(s, p, 0)
}

fn ends_with_chars(s: &Vec<char>, p: &Vec<char>) -> (r: bool)
    ensures
        r == ends_with_seq(s@, p@),
{
    if p.len() > s.len() {
        false
    } else {
        matches_at(s, p, s.len() - p.len())
    }
}

pub fn match_string(value: &str, op: Operator, target: &JsonValue) -> (r: bool)
    ensures
        r == string_holds(value@, op, *target),
{
    let v = chars_of(value);
    let t = text_of(target);
    match op {
        Operator::Equals => eq_ci(&v, &t),
        Operator::NotEquals => !eq_ci(&v, &t),
        Operator::Contains => contains_chars(&lower_chars(&v), &lower_chars(&t)),
        Operator::NotContains => !contains_chars(&lower_chars(&v), &lower_chars(&t)),
        Operator::StartsWith => starts_with_chars(&lower_chars(&v), &lower_chars(&t)),
        Operator::EndsWith => ends_with_chars(&lower_chars(&v), &lower_chars(&t)),
        Operator::Regex => {
            let ts = crate::text::string_of(&t);
            regex_is_match(ts.as_str(), value)
        },
        Operator::In => match target {
            JsonValue::List(items) => list_contains(items, &v),
            _ => false,
        },
        Operator::NotIn => match target {
            JsonValue::List(items) => !list_contains(items, &v),
            _ => true,
        },
        _ => false,
    }
}

pub fn match_number(value: u64, op: Operator, target: &JsonValue) -> (r: bool)
    ensures
        r == number_holds(value as int, op, *target),
{
    let c = compare_value(value, target);
    match op {
        Operator::Equals => match c { Some(x) => x == 0, None => false },
        Operator::NotEquals => match c { Some(x) => x != 0, None => false },
        Operator::Gt => match c { Some(x) => x == 1, None => false },
        Operator::Gte => match c { Some(x) => x >= 0, None => false },
        Operator::Lt => match c { Some(x) => x == -1, None => false },
        Operator::Lte => match c { Some(x) => x <= 0, None => false },
        Operator::Between => match target {
            JsonValue::List(items) => {
                if items.len() >= 2 {
                    match (compare_value(value, &items[0]), compare_value(value, &items[1])) {
                        (Some(lo), Some(hi)) => lo >= 0 && hi <= 0,
                        _ => false,
                    }
                } else {
                    false
                }
            },
            _ => false,
        },
        _ => false,
    }
}

// ------------------------------------------------------------ numbers as text

pub open spec fn is_digit(c: char) -> bool {
    48 <= (c as u32) <= 57
}

pub open spec fn all_digits(d: Seq<char>) -> bool {
    forall|i: int| 0 <= i < d.len() ==> is_digit(#[trigger] d[i])
}

/// The value of a string of decimal digits.
pub open spec fn digits_value(d: Seq<char>) -> int
    decreases d.len(),
{
    if d.len() == 0 { 0 } else { digits_value(d.drop_last()) * 10 + ((d.last() as u32) - 48) }
}

/// The index of the first `.` from `i` on.
pub open spec fn first_dot(t: Seq<char>, i: int) -> Option<int>
    decreases t.len() - i,
{
    if i < 0 || i >= t.len() { None } else if t[i] == '.' { Some(i) } else { first_dot(t, i + 1) }
}

/// The number a JSON number's text writes in plain decimal form (an optional
/// `-`, digits, and optionally `.` and more digits): a whole number, or a
/// decimal of as many places as the fraction has digits; null when the text has
/// another form or the digits do not fit in an `i64`.
pub open spec fn number_of_text(t: Seq<char>) -> JsonValue {
    let neg = t.len() > 0 && t[0] == '-';
    let body = if neg { t.skip(1) } else { t };
    let dot = first_dot(body, 0);
    let int_part = match dot { Some(k) => body.take(k), None => body };
    let frac = match dot { Some(k) => body.skip(k + 1), None => Seq::<char>::empty() };
    let m = digits_value(int_part + frac);
    let v = if neg { -m } else { m };
    if int_part.len() == 0 || !all_digits(int_part + frac) || (dot is Some && frac.len() == 0) || v < i64::MIN || v > i64::MAX
        || frac.len() > u32::MAX {
        JsonValue::Null
    } else if dot is None {
        JsonValue::Number(v as i64)
    } else {
        JsonValue::Decimal(v as i64, frac.len() as u32)
    }
}

proof fn lemma_digits_nonneg(d: Seq<char>)
    requires
        all_digits(d),
    ensures
        digits_value(d) >= 0,
    decreases d.len(),
{
    if d.len() > 0 {
        lemma_digits_nonneg(d.drop_last());
        assert(is_digit(d[d.len() - 1]));
    }
}

proof fn lemma_digits_prefix(d: Seq<char>, k: int)
    requires
        all_digits(d),
        0 <= k <= d.len(),
    ensures
        digits_value(d.take(k)) <= digits_value(d),
    decreases d.len(),
{
    if k < d.len() {
        assert(all_digits(d.drop_last())) by {
            assert forall|i: int| 0 <= i < d.drop_last().len() implies is_digit(#[trigger] d.drop_last()[i]) by {
                assert(d.drop_last()[i] == d[i]);
            }
        }
        assert(d.drop_last().take(k) =~= d.take(k));
        lemma_digits_prefix(d.drop_last(), k);
        lemma_digits_nonneg(d.drop_last());
        assert(is_digit(d[d.len() - 1]));
    } else {
        assert(d.take(k) =~= d);
    }
}

proof fn lemma_first_dot(t: Seq<char>, i: int)
    requires
        0 <= i,
    ensures
        (forall|j: int| i <= j < t.len() ==> #[trigger] t[j] != '.') ==> first_dot(t, i) is None,
        forall|k: int| i <= k < t.len() && #[trigger] t[k] == '.' && (forall|j: int| i <= j < k ==> t[j] != '.')
            ==> first_dot(t, i) == Some(k),
    decreases t.len() - i,
{
    if i < t.len() {
        lemma_first_dot(t, i + 1);
    }
}

/// How number texts read: digits give the whole number they write, a leading
/// `-` its negation, and digits, `.` and more digits the decimal with as many
/// places as digits follow the dot (as long as the digits fit in an `i64` and
/// the places in a `u32`).
pub proof fn lemma_number_texts(d: Seq<char>, f: Seq<char>)
    requires
        d.len() > 0,
        all_digits(d),
        all_digits(f),
    ensures
        digits_value(d) <= i64::MAX ==> number_of_text(d) == JsonValue::Number(digits_value(d) as i64),
        digits_value(d) <= i64::MAX ==> number_of_text(seq!['-'] + d) == JsonValue::Number((-digits_value(d)) as i64),
        0 < f.len() <= u32::MAX && digits_value(d + f) <= i64::MAX
            ==> number_of_text(d + seq!['.'] + f) == JsonValue::Decimal(digits_value(d + f) as i64, f.len() as u32),
{
    lemma_digits_nonneg(d);
    assert(d[0] != '-') by { assert(is_digit(d[0])); }
    lemma_first_dot(d, 0);
    assert(d.take(d.len() as int) =~= d);
    assert(d + Seq::<char>::empty() =~= d);
    let n = seq!['-'] + d;
    assert(n.skip(1) =~= d);
    assert(n[0] == '-');
    if 0 < f.len() <= u32::MAX && digits_value(d + f) <= i64::MAX {
        let t = d + seq!['.'] + f;
        assert(t.take(d.len() as int) + t.skip(d.len() + 1 as int) =~= d + f);
        assert(t[d.len() as int] == '.');
        assert(t[0] == d[0]);
        assert forall|j: int| 0 <= j < d.len() implies t[j] != '.' by {
            assert(t[j] == d[j]);
            assert(is_digit(d[j]));
        }
        lemma_first_dot(t, 0);
        assert(first_dot(t, 0) == Some(d.len() as int));
        assert(t.take(d.len() as int) =~= d);
        assert(t.skip(d.len() + 1 as int) =~= f);
        assert forall|j: int| 0 <= j < (d + f).len() implies is_digit(#[trigger] (d + f)[j]) by {
            if j < d.len() {
                assert((d + f)[j] == d[j]);
            } else {
                assert((d + f)[j] == f[j - d.len()]);
            }
        }
        lemma_digits_nonneg(d + f);
    }
    assert forall|j: int| 0 <= j < d.len() implies #[trigger] d[j] != '.' by {
        assert(is_digit(d[j]));
    }
}

/// The number a JSON number's text writes (see `number_of_text`).
pub fn number_from_text(text: &str) -> (r: JsonValue)
    ensures
        r == number_of_text(text@),
{
    let t = chars_of(text);
    assert(t@ == text@);
    let neg = t.len() > 0 && t[0] == '-';
    let start: usize = if neg { 1 } else { 0 };
    let ghost body = if neg { t@.skip(1) } else { t@ };
    // find the dot
    let mut k: usize = start;
    while k < t.len() && t[k] != '.'
        invariant
            start <= k <= t.len(),
            body == t@.skip(start as int),
            first_dot(body, 0) == first_dot(body, k - start),
        decreases t.len() - k,
    {
        k = k + 1;
    }
    let has_dot = k < t.len();
    let ghost dot = first_dot(body, 0);
    assert(dot == (if has_dot { Some(k - start) } else { None::<int> }));
    let ghost int_part = body.take(k - start);
    let ghost frac = if has_dot { body.skip(k - start + 1) } else { Seq::<char>::empty() };
    let ghost digits = int_part + frac;
    assert(int_part == (match dot { Some(q) => body.take(q), None => body }));
    let frac_len: usize = if has_dot { t.len() - k - 1 } else { 0 };
    if k == start || (has_dot && frac_len == 0) {
        return JsonValue::Null;
    }
    // accumulate the digits, skipping the dot
    let bound: i128 = 9_223_372_036_854_775_808;
    let mut acc: i128 = 0;
    let mut i: usize = start;
    let mut seen: usize = 0;
    while i < t.len()
        invariant
            start <= i <= t.len(),
            start <= k <= t.len(),
            has_dot == (k < t.len()),
            body == t@.skip(start as int),
            int_part == body.take(k - start),
            frac == (if has_dot { body.skip(k - start + 1) } else { Seq::<char>::empty() }),
            digits == int_part + frac,
            seen == (if i <= k { i - start } else { i - start - 1 }),
            i != k + 1 || has_dot,
            (i <= k || has_dot),
            all_digits(digits.take(seen as int)),
            acc == digits_value(digits.take(seen as int)),
            0 <= acc <= bound,
            bound == 9_223_372_036_854_775_808,
            t@ == text@,
            neg == (t@.len() > 0 && t@[0] == '-'),
            start == (if neg { 1usize } else { 0usize }),
            body == (if neg { t@.skip(1) } else { t@ }),
            dot == first_dot(body, 0),
            dot == (if has_dot { Some(k - start) } else { None::<int> }),
            int_part == (match dot { Some(q) => body.take(q), None => body }),
            k > start,
        decreases t.len() - i,
    {
        if i == k {
            i = i + 1;
            continue;
        }
        let c = t[i];
        let ghost idx = seen as int;
        assert(digits[idx] == c) by {
            if i < k {
                assert(int_part[idx] == body[idx]);
            } else {
                assert(frac[idx - int_part.len()] == body[(k - start + 1) + (idx - int_part.len())]);
            }
        }
        if !((c as u32) >= 48 && (c as u32) <= 57) {
            assert(!is_digit(digits[idx]));
            assert(!all_digits(int_part + frac));
            return JsonValue::Null;
        }
        assert(digits.take(idx + 1).drop_last() =~= digits.take(idx));
        let d = (c as u32 - 48) as i128;
        if acc > (bound - d) / 10 {
            proof {
                assert(acc * 10 + d > bound) by (nonlinear_arith)
                    requires acc > (bound - d) / 10, 0 <= d <= 9, bound == 9_223_372_036_854_775_808;
                assert(is_digit(digits[idx]));
                assert(digits_value(digits.take(idx + 1)) > bound);
                assert(all_digits(digits.take(idx + 1)));
                if all_digits(digits) {
                    lemma_digits_prefix(digits, idx + 1);
                    assert(digits_value(int_part + frac) > bound);
                }
            }
            return JsonValue::Null;
        }
        acc = acc * 10 + d;
        seen = seen + 1;
        i = i + 1;
    }
    assert(digits.take(seen as int) =~= digits);
    let v: i128 = if neg { -acc } else { acc };
    if v > 9_223_372_036_854_775_807 {
        return JsonValue::Null;
    }
    if has_dot {
        if frac_len > 4294967295 {
            return JsonValue::Null;
        }
        JsonValue::Decimal(v as i64, frac_len as u32)
    } else {
        JsonValue::Number(v as i64)
    }
}

// ------------------------------------------------------------- timestamps

/// The UNIX time a condition's target names: a local `%Y-%m-%d` date, a local
/// `%Y-%m-%dT%H:%M:%S` time, or a number of seconds. The local readings depend on
/// the machine's time zone; what is stated is which form is tried when.
pub fn parse_datetime(value: &JsonValue) -> (r: Option<i64>)
    ensures
        (value is Text || value is Number) || r is None,
        value matches JsonValue::Number(n) ==> (r is None || r == Some(*n)),
{
    match value {
        JsonValue::Text(s) => {
            match local_date_instant(s.as_str()) {
                Some(t) => Some(t),
                None => local_datetime_instant(s.as_str()),
            }
        },
        JsonValue::Number(n) => local_timestamp(*n),
        _ => None,
    }
}

/// Whole seconds from `then` to `now`, zero when `then` is later.
pub open spec fn elapsed_secs(now: (i64, u32), then: (i64, u32)) -> int {
    let d = (now.0 - then.0) * 1_000_000_000 + (now.1 - then.1);
    if d <= 0 { 0 } else { d / 1_000_000_000 }
}

/// A time condition on the moment `value`; `instant` is the moment the target
/// names (see `parse_datetime`).
pub open spec fn timestamp_holds(value: (i64, u32), now: (i64, u32), op: Operator, target: JsonValue, instant: Option<i64>) -> bool {
    match op {
        Operator::Before => instant matches Some(t) && value.0 < t,
        Operator::After => instant matches Some(t) && (value.0 > t || (value.0 == t && value.1 > 0)),
        Operator::WithinDays => json_int(target) matches Some(days) && days >= 0 && elapsed_secs(now, value) <= days * 86400,
        _ => false,
    }
}

pub fn match_timestamp(value: (i64, u32), now: (i64, u32), op: Operator, target: &JsonValue, instant: Option<i64>) -> (r: bool)
    requires
        value.1 < 1_000_000_000,
        now.1 < 1_000_000_000,
    ensures
        r == timestamp_holds(value, now, op, *target, instant),
{
    match op {
        Operator::Before => match instant { Some(t) => value.0 < t, None => false },
        Operator::After => match instant { Some(t) => value.0 > t || (value.0 == t && value.1 > 0), None => false },
        Operator::WithinDays => match target {
            JsonValue::Number(days) => {
                if *days < 0 {
                    false
                } else {
                    let d: i128 = (now.0 as i128 - value.0 as i128) * 1_000_000_000 + (now.1 as i128 - value.1 as i128);
                    let secs: i128 = if d <= 0 { 0 } else { d / 1_000_000_000 };
                    secs <= (*days as i128) * 86400
                }
            },
            _ => false,
        },
        _ => false,
    }
}

// ------------------------------------------------------------- conditions

/// The name parts a condition reads: stem, extension, file name, parent folder name.
pub open spec fn parent_name_of(path: Seq<char>) -> Seq<char> {
    match parent_of(path) {
        Some(p) => match file_name_of(p) {
            Some(n) => n,
            None => Seq::empty(),
        },
        None => Seq::empty(),
    }
}

/// A condition on a file; `instants` gives the moment each time target names.
pub open spec fn condition_holds(f: FileFacts, c: Condition, instants: spec_fn(JsonValue) -> Option<i64>) -> bool {
    match c.field {
        ConditionField::Filename => string_holds(stem_or_empty(f.path@), c.operator, c.value),
        ConditionField::Extension => string_holds(ext_or_empty(f.path@), c.operator, c.value),
        ConditionField::FullName => string_holds(name_or_empty(f.path@), c.operator, c.value),
        ConditionField::SizeBytes => number_holds(match f.size { Some(s) => s as int, None => 0 }, c.operator, c.value),
        ConditionField::CreatedAt => f.created matches Some(t) && timestamp_holds(t, f.now, c.operator, c.value, instants(c.value)),
        ConditionField::ModifiedAt => f.modified matches Some(t) && timestamp_holds(t, f.now, c.operator, c.value, instants(c.value)),
        ConditionField::ParentDir => string_holds(parent_name_of(f.path@), c.operator, c.value),
    }
}

/// Each field of a condition reads its own fact of the file: a size condition
/// only the size (a missing size read as 0), a creation-time condition only
/// the creation time, a modification-time condition only the modification time
/// (each with the current time), and the name fields only the path; a time
/// condition on a time the file does not have never holds.
pub proof fn lemma_condition_fields(f: FileFacts, g: FileFacts, c: Condition, instants: spec_fn(JsonValue) -> Option<i64>)
    ensures
        c.field == ConditionField::SizeBytes ==> (condition_holds(f, c, instants)
            <==> number_holds(match f.size { Some(s) => s as int, None => 0 }, c.operator, c.value)),
        c.field == ConditionField::SizeBytes && f.size == g.size ==> condition_holds(f, c, instants) == condition_holds(g, c, instants),
        c.field == ConditionField::CreatedAt && f.created == g.created && f.now == g.now
            ==> condition_holds(f, c, instants) == condition_holds(g, c, instants),
        c.field == ConditionField::ModifiedAt && f.modified == g.modified && f.now == g.now
            ==> condition_holds(f, c, instants) == condition_holds(g, c, instants),
        c.field == ConditionField::CreatedAt && f.created is None ==> !condition_holds(f, c, instants),
        c.field == ConditionField::ModifiedAt && f.modified is None ==> !condition_holds(f, c, instants),
        (c.field == ConditionField::Filename || c.field == ConditionField::Extension || c.field == ConditionField::FullName
            || c.field == ConditionField::ParentDir) && f.path@ == g.path@
            ==> condition_holds(f, c, instants) == condition_holds(g, c, instants),
{
}

/// Times are well formed: nanoseconds below a second.
pub open spec fn facts_valid(f: FileFacts) -> bool {
    &&& f.now.1 < 1_000_000_000
    &&& f.created matches Some(t) ==> t.1 < 1_000_000_000
    &&& f.modified matches Some(t) ==> t.1 < 1_000_000_000
}

/// The moments an `instant_of` gives, as long as it gives one answer per target.
pub open spec fn instants_of<F: Fn(&JsonValue) -> Option<i64>>(instant_of: F) -> spec_fn(JsonValue) -> Option<i64> {
    |v: JsonValue| choose|r: Option<i64>| call_ensures(instant_of, (&v,), r)
}

pub open spec fn functional<F: Fn(&JsonValue) -> Option<i64>>(instant_of: F) -> bool {
    &&& forall|v: &JsonValue| #[trigger] instant_of.requires((v,))
    &&& forall|v: &JsonValue, a: Option<i64>, b: Option<i64>| call_ensures(instant_of, (v,), a) && call_ensures(instant_of, (v,), b) ==> a == b
}

fn parent_name(path: &str) -> (r: Vec<char>)
    ensures
        r@ == parent_name_of(path@),
{
    let v = chars_of(path);
    match parent_chars(&v) {
        Some(p) => match file_name_chars(&p) {
            Some(n) => n,
            None => Vec::new(),
        },
        None => Vec::new(),
    }
}

pub fn evaluate_condition<F: Fn(&JsonValue) -> Option<i64>>(facts: &FileFacts, cond: &Condition, instant_of: &F) -> (r: bool)
    requires
        facts_valid(*facts),
        functional(*instant_of),
    ensures
        r == condition_holds(*facts, *cond, instants_of(*instant_of)),
{
    let pv = chars_of(facts.path.as_str());
    let (name, stem, ext) = name_parts(&pv);
    match cond.field {
        ConditionField::Filename => match_string(crate::text::string_of(&stem).as_str(), cond.operator, &cond.value),
        ConditionField::Extension => match_string(crate::text::string_of(&ext).as_str(), cond.operator, &cond.value),
        ConditionField::FullName => match_string(crate::text::string_of(&name).as_str(), cond.operator, &cond.value),
        ConditionField::SizeBytes => {
            let size = match facts.size { Some(s) => s, None => 0 };
            match_number(size, cond.operator, &cond.value)
        },
        ConditionField::CreatedAt => match facts.created {
            Some(t) => {
                let inst = instant_of(&cond.value);
                match_timestamp(t, facts.now, cond.operator, &cond.value, inst)
            },
            None => false,
        },
        ConditionField::ModifiedAt => match facts.modified {
            Some(t) => {
                let inst = instant_of(&cond.value);
                match_timestamp(t, facts.now, cond.operator, &cond.value, inst)
            },
            None => false,
        },
        ConditionField::ParentDir => {
            let p = parent_name(facts.path.as_str());
            match_string(crate::text::string_of(&p).as_str(), cond.operator, &cond.value)
        },
    }
}

// ----------------------------------------------------------------- groups

/// Whether every (`all`) or some (not `all`) condition holds.
pub open spec fn conditions_hold(f: FileFacts, cs: Seq<Condition>, all: bool, instants: spec_fn(JsonValue) -> Option<i64>) -> bool {
    if all {
        forall|i: int| 0 <= i < cs.len() ==> condition_holds(f, #[trigger] cs[i], instants)
    } else {
        exists|i: int| 0 <= i < cs.len() && condition_holds(f, #[trigger] cs[i], instants)
    }
}

/// A group with no conditions and no subgroups always holds; an AND group when
/// all of them hold, an OR group when one does.
pub open spec fn group_holds(f: FileFacts, g: ConditionGroup, instants: spec_fn(JsonValue) -> Option<i64>) -> bool
    decreases g, 1nat,
{
    let all = g.logic == Logic::And;
    if g.conditions@.len() == 0 && g.sub_groups@.len() == 0 {
        true
    } else if all {
        conditions_hold(f, g.conditions@, true, instants) && subgroups_hold(f, g, g.sub_groups@.len() as int, true, instants)
    } else {
        conditions_hold(f, g.conditions@, false, instants) || subgroups_hold(f, g, g.sub_groups@.len() as int, false, instants)
    }
}

/// Over the first `n` subgroups of `g`: all hold (`all`), or one holds.
pub open spec fn subgroups_hold(f: FileFacts, g: ConditionGroup, n: int, all: bool, instants: spec_fn(JsonValue) -> Option<i64>) -> bool
    decreases g, 0nat, n,
{
    if n <= 0 || n > g.sub_groups@.len() {
        all
    } else {
        let prev = subgroups_hold(f, g, n - 1, all, instants);
        let cur = group_holds(f, g.sub_groups@[n - 1], instants);
        if all { prev && cur } else { prev || cur }
    }
}

/// Whether a file satisfies a condition group.
pub fn matches<F: Fn(&JsonValue) -> Option<i64>>(facts: &FileFacts, group: &ConditionGroup, instant_of: &F) -> (r: bool)
    requires
        facts_valid(*facts),
        functional(*instant_of),
    ensures
        r == group_holds(*facts, *group, instants_of(*instant_of)),
    decreases group,
{
    let ghost inst = instants_of(*instant_of);
    let all = group.logic == Logic::And;
    if group.conditions.len() == 0 && group.sub_groups.len() == 0 {
        return true;
    }
    let mut conds = all;
    let mut i: usize = 0;
    while i < group.conditions.len()
        invariant
            i <= group.conditions.len(),
            facts_valid(*facts),
            functional(*instant_of),
            inst == instants_of(*instant_of),
            all == (group.logic == Logic::And),
            all ==> (conds == forall|k: int| 0 <= k < i ==> condition_holds(*facts, #[trigger] group.conditions@[k], inst)),
            !all ==> (conds == exists|k: int| 0 <= k < i && condition_holds(*facts, #[trigger] group.conditions@[k], inst)),
        decreases group.conditions.len() - i,
    {
        let c = evaluate_condition(facts, &group.conditions[i], instant_of);
        if all {
            conds = conds && c;
        } else {
            conds = conds || c;
        }
        i = i + 1;
    }
    let mut subs = all;
    let mut j: usize = 0;
    while j < group.sub_groups.len()
        invariant
            j <= group.sub_groups.len(),
            facts_valid(*facts),
            functional(*instant_of),
            inst == instants_of(*instant_of),
            all == (group.logic == Logic::And),
            subs == subgroups_hold(*facts, *group, j as int, all, inst),
        decreases group.sub_groups.len() - j,
    {
        let m = matches(facts, &group.sub_groups[j], instant_of);
        if all {
            subs = subs && m;
        } else {
            subs = subs || m;
        }
        j = j + 1;
    }
    if all { conds && subs } else { conds || subs }
}

// ------------------------------------------------------------------ laws

/// What the text operators of a condition mean, for a value and a target text,
/// both compared in lowercase: `StartsWith` holds exactly when the target is a
/// prefix of the value, `EndsWith` exactly when it is a suffix, `Contains`
/// exactly when it stands somewhere in the value, and the negated operators
/// hold exactly when these do not; `Equals` ignores ASCII case.
pub proof fn lemma_text_operators(value: Seq<char>, target: String)
    ensures
        ({
            let v = lowercase(value);
            let t = lowercase(target@);
            &&& string_holds(value, Operator::StartsWith, JsonValue::Text(target))
                <==> (t.len() <= v.len() && v.subrange(0, t.len() as int) == t)
            &&& string_holds(value, Operator::EndsWith, JsonValue::Text(target))
                <==> (t.len() <= v.len() && v.subrange(v.len() - t.len(), v.len() as int) == t)
            &&& string_holds(value, Operator::Contains, JsonValue::Text(target))
                <==> (exists|k: int| 0 <= k && k + t.len() <= v.len() && #[trigger] v.subrange(k, k + t.len()) == t)
            &&& string_holds(value, Operator::NotContains, JsonValue::Text(target))
                <==> !(exists|k: int| 0 <= k && k + t.len() <= v.len() && #[trigger] v.subrange(k, k + t.len()) == t)
            &&& string_holds(value, Operator::Equals, JsonValue::Text(target))
                <==> (value.len() == target@.len() && forall|k: int| 0 <= k < value.len()
                    ==> #[trigger] ascii_lower(value[k]) == ascii_lower(target@[k]))
            &&& string_holds(value, Operator::NotEquals, JsonValue::Text(target))
                <==> !string_holds(value, Operator::Equals, JsonValue::Text(target))
        }),
{
    let v = lowercase(value);
    let t = lowercase(target@);
    assert(string_holds(value, Operator::Contains, JsonValue::Text(target))
        <==> (exists|k: int| 0 <= k && k + t.len() <= v.len() && #[trigger] v.subrange(k, k + t.len()) == t)) by {
        if exists|k: int| 0 <= k && k + t.len() <= v.len() && #[trigger] v.subrange(k, k + t.len()) == t {
            let k = choose|k: int| 0 <= k && k + t.len() <= v.len() && #[trigger] v.subrange(k, k + t.len()) == t;
            assert(occurs_at(v, t, k));
        }
    }
    let a = ascii_lower_seq(value);
    let b = ascii_lower_seq(target@);
    if value.len() == target@.len() && forall|k: int| 0 <= k < value.len() ==> #[trigger] ascii_lower(value[k]) == ascii_lower(target@[k]) {
        assert(a =~= b);
    }
    assert(a.len() == value.len() && b.len() == target@.len());
    if a == b {
        assert(value.len() == target@.len());
        assert forall|k: int| 0 <= k < value.len() implies #[trigger] ascii_lower(value[k]) == ascii_lower(target@[k]) by {
            assert(a[k] == ascii_lower(value[k]));
            assert(b[k] == ascii_lower(target@[k]));
            assert(a[k] == b[k]);
        }
    }
}

/// A text operator that takes a prefix or a suffix is stricter than one that
/// takes the text anywhere: what starts or ends with a text contains it.
pub proof fn lemma_prefix_and_suffix_are_contained(value: Seq<char>, target: String)
    ensures
        string_holds(value, Operator::StartsWith, JsonValue::Text(target)) ==> string_holds(value, Operator::Contains, JsonValue::Text(target)),
        string_holds(value, Operator::EndsWith, JsonValue::Text(target)) ==> string_holds(value, Operator::Contains, JsonValue::Text(target)),
{
    let v = lowercase(value);
    let t = lowercase(target@);
    if string_holds(value, Operator::EndsWith, JsonValue::Text(target)) {
        assert(occurs_at(v, t, v.len() - t.len()));
    }
    if string_holds(value, Operator::StartsWith, JsonValue::Text(target)) {
        assert(occurs_at(v, t, 0));
    }
}

/// What the size operators mean against a whole number `n`: the order of the
/// size and `n`.
pub proof fn lemma_number_operators(value: int, n: i64)
    ensures
        number_holds(value, Operator::Equals, JsonValue::Number(n)) <==> value == n,
        number_holds(value, Operator::NotEquals, JsonValue::Number(n)) <==> value != n,
        number_holds(value, Operator::Gt, JsonValue::Number(n)) <==> value > n,
        number_holds(value, Operator::Gte, JsonValue::Number(n)) <==> value >= n,
        number_holds(value, Operator::Lt, JsonValue::Number(n)) <==> value < n,
        number_holds(value, Operator::Lte, JsonValue::Number(n)) <==> value <= n,
{
}

/// `Between` a list that starts with two whole numbers holds exactly when the
/// size lies between them, both ends included.
pub proof fn lemma_between(value: int, items: Vec<JsonValue>, lo: i64, hi: i64)
    requires
        items@.len() >= 2,
        items@[0] == JsonValue::Number(lo),
        items@[1] == JsonValue::Number(hi),
    ensures
        number_holds(value, Operator::Between, JsonValue::List(items)) <==> lo <= value <= hi,
{
}

/// Against a decimal `m / 10^s` a size compares by its value: it is greater
/// exactly when `size * 10^s > m`, and equal exactly when `size * 10^s == m`.
pub proof fn lemma_decimal_operators(value: int, m: i64, s: u32)
    ensures
        number_holds(value, Operator::Gt, JsonValue::Decimal(m, s)) <==> value * pow10(s as nat) > m,
        number_holds(value, Operator::Lt, JsonValue::Decimal(m, s)) <==> value * pow10(s as nat) < m,
        number_holds(value, Operator::Equals, JsonValue::Decimal(m, s)) <==> value * pow10(s as nat) == m,
{
}

proof fn lemma_subgroups(f: FileFacts, g: ConditionGroup, n: int, instants: spec_fn(JsonValue) -> Option<i64>)
    requires
        0 <= n <= g.sub_groups@.len(),
    ensures
        subgroups_hold(f, g, n, true, instants) <==> forall|j: int| 0 <= j < n ==> group_holds(f, #[trigger] g.sub_groups@[j], instants),
        subgroups_hold(f, g, n, false, instants) <==> exists|j: int| 0 <= j < n && group_holds(f, #[trigger] g.sub_groups@[j], instants),
    decreases n,
{
    if n > 0 {
        lemma_subgroups(f, g, n - 1, instants);
    }
}

/// An AND group holds exactly when every one of its conditions and subgroups
/// holds, an OR group exactly when one of them does; a group with neither
/// holds.
pub proof fn lemma_group_logic(f: FileFacts, g: ConditionGroup, instants: spec_fn(JsonValue) -> Option<i64>)
    ensures
        g.conditions@.len() == 0 && g.sub_groups@.len() == 0 ==> group_holds(f, g, instants),
        g.logic == Logic::And && (g.conditions@.len() > 0 || g.sub_groups@.len() > 0) ==> (group_holds(f, g, instants) <==> (
            (forall|i: int| 0 <= i < g.conditions@.len() ==> condition_holds(f, #[trigger] g.conditions@[i], instants))
            && (forall|j: int| 0 <= j < g.sub_groups@.len() ==> group_holds(f, #[trigger] g.sub_groups@[j], instants)))),
        g.logic == Logic::Or && (g.conditions@.len() > 0 || g.sub_groups@.len() > 0) ==> (group_holds(f, g, instants) <==> (
            (exists|i: int| 0 <= i < g.conditions@.len() && condition_holds(f, #[trigger] g.conditions@[i], instants))
            || (exists|j: int| 0 <= j < g.sub_groups@.len() && group_holds(f, #[trigger] g.sub_groups@[j], instants)))),
{
    lemma_subgroups(f, g, g.sub_groups@.len() as int, instants);
}

/// `In` a list holds exactly when some text of the list is the value, ASCII
/// case ignored; `NotIn` exactly when none is.
pub proof fn lemma_list_operators(value: Seq<char>, items: Vec<JsonValue>)
    ensures
        string_holds(value, Operator::In, JsonValue::List(items)) <==> exists|i: int| 0 <= i < items@.len()
            && (#[trigger] items@[i] matches JsonValue::Text(s) && s@.len() == value.len()
                && forall|k: int| 0 <= k < value.len() ==> #[trigger] ascii_lower(s@[k]) == ascii_lower(value[k])),
        string_holds(value, Operator::NotIn, JsonValue::List(items)) <==> !string_holds(value, Operator::In, JsonValue::List(items)),
{
    let l = items@;
    assert forall|i: int| 0 <= i < l.len() implies ((json_text(#[trigger] l[i]) matches Some(s) && eq_ascii_ci(s, value)) <==>
        (l[i] matches JsonValue::Text(s) && s@.len() == value.len()
            && forall|k: int| 0 <= k < value.len() ==> #[trigger] ascii_lower(s@[k]) == ascii_lower(value[k]))) by {
        if let JsonValue::Text(s) = l[i] {
            let a = ascii_lower_seq(s@);
            let b = ascii_lower_seq(value);
            if s@.len() == value.len() && forall|k: int| 0 <= k < value.len() ==> #[trigger] ascii_lower(s@[k]) == ascii_lower(value[k]) {
                assert(a =~= b);
            }
            if a == b {
                assert(a.len() == b.len());
                assert forall|k: int| 0 <= k < value.len() implies #[trigger] ascii_lower(s@[k]) == ascii_lower(value[k]) by {
                    assert(a[k] == b[k]);
                }
            }
        }
    }
    if string_holds(value, Operator::In, JsonValue::List(items)) {
        let i = choose|i: int| 0 <= i < l.len() && (#[trigger] json_text(l[i]) matches Some(s) && eq_ascii_ci(s, value));
        assert(json_text(l[i]) matches Some(s) && eq_ascii_ci(s, value));
    }
    if exists|i: int| 0 <= i < l.len()
            && (#[trigger] l[i] matches JsonValue::Text(s) && s@.len() == value.len()
                && forall|k: int| 0 <= k < value.len() ==> #[trigger] ascii_lower(s@[k]) == ascii_lower(value[k])) {
        let i = choose|i: int| 0 <= i < l.len()
            && (#[trigger] l[i] matches JsonValue::Text(s) && s@.len() == value.len()
                && forall|k: int| 0 <= k < value.len() ==> #[trigger] ascii_lower(s@[k]) == ascii_lower(value[k]));
        assert(json_text(l[i]) matches Some(s) && eq_ascii_ci(s, value));
    }
}

proof fn lemma_floor_le(d: int, days: int)
    requires
        d > 0,
        days >= 0,
    ensures
        d / 1_000_000_000 <= days * 86400 <==> d < (days * 86400 + 1) * 1_000_000_000,
{
    let q = d / 1_000_000_000;
    let r = d % 1_000_000_000;
    assert(d == q * 1_000_000_000 + r && 0 <= r < 1_000_000_000) by (nonlinear_arith)
        requires d > 0, q == d / 1_000_000_000, r == d % 1_000_000_000;
    let m = days * 86400;
    assert(q <= m ==> d < (m + 1) * 1_000_000_000) by (nonlinear_arith)
        requires d == q * 1_000_000_000 + r, 0 <= r < 1_000_000_000;
    assert(d < (m + 1) * 1_000_000_000 ==> q <= m) by (nonlinear_arith)
        requires d == q * 1_000_000_000 + r, 0 <= r < 1_000_000_000;
}

/// What the time operators mean, on moments in nanoseconds: `Before` holds
/// exactly when the file's moment is earlier than the target's, `After`
/// exactly when it is later (so never both); `WithinDays` with a number of days
/// `n >= 0` holds exactly when the file's moment is less than `n` days and one
/// second before now (its whole seconds of age are at most `n` days), and
/// never with a negative number.
pub proof fn lemma_time_operators(value: (i64, u32), now: (i64, u32), target: JsonValue, instant: Option<i64>, days: i64)
    requires
        value.1 < 1_000_000_000,
        now.1 < 1_000_000_000,
    ensures
        timestamp_holds(value, now, Operator::Before, target, instant) <==> (instant matches Some(t)
            && value.0 * 1_000_000_000 + value.1 < t * 1_000_000_000),
        timestamp_holds(value, now, Operator::After, target, instant) <==> (instant matches Some(t)
            && value.0 * 1_000_000_000 + value.1 > t * 1_000_000_000),
        !(timestamp_holds(value, now, Operator::Before, target, instant) && timestamp_holds(value, now, Operator::After, target, instant)),
        days >= 0 ==> (timestamp_holds(value, now, Operator::WithinDays, JsonValue::Number(days), instant) <==>
            (now.0 * 1_000_000_000 + now.1) - (value.0 * 1_000_000_000 + value.1) < (days * 86400 + 1) * 1_000_000_000),
        days < 0 ==> !timestamp_holds(value, now, Operator::WithinDays, JsonValue::Number(days), instant),
{
    if let Some(t) = instant {
        let v0 = value.0 as int;
        let v1 = value.1 as int;
        let tt = t as int;
        assert(v0 < tt <==> v0 * 1_000_000_000 + v1 < tt * 1_000_000_000) by (nonlinear_arith)
            requires 0 <= v1 < 1_000_000_000;
        assert((v0 > tt || (v0 == tt && v1 > 0)) <==> v0 * 1_000_000_000 + v1 > tt * 1_000_000_000) by (nonlinear_arith)
            requires 0 <= v1 < 1_000_000_000;
    }
    let n0 = now.0 as int;
    let n1 = now.1 as int;
    let w0 = value.0 as int;
    let w1 = value.1 as int;
    let d = (n0 - w0) * 1_000_000_000 + (n1 - w1);
    assert(d == (n0 * 1_000_000_000 + n1) - (w0 * 1_000_000_000 + w1)) by (nonlinear_arith)
        requires d == (n0 - w0) * 1_000_000_000 + (n1 - w1);
    assert(elapsed_secs(now, value) == if d <= 0 { 0 } else { d / 1_000_000_000 });
    if days >= 0 {
        if d > 0 {
            lemma_floor_le(d, days as int);
        } else {
            assert(0 <= days * 86400) by (nonlinear_arith) requires days >= 0;
            assert(d < (days * 86400 + 1) * 1_000_000_000) by (nonlinear_arith) requires d <= 0, days >= 0;
        }
    }
}

proof fn lemma_last_dot(s: Seq<char>)
    ensures
        crate::paths::last_dot(s) matches Some(i) ==> 0 <= i < s.len() && s[i] == '.',
    decreases s.len(),
{
    if s.len() > 0 && s.last() != '.' {
        lemma_last_dot(s.drop_last());
    }
}

/// A file's name is its stem, then `.` and its extension when it has one;
/// without an extension the name is the stem.
pub proof fn lemma_name_is_stem_and_extension(path: Seq<char>)
    ensures
        crate::paths::extension_of(path) matches Some(e) ==> name_or_empty(path) == stem_or_empty(path) + seq!['.'] + e,
        crate::paths::extension_of(path) is None ==> name_or_empty(path) == stem_or_empty(path),
{
    if let Some(n) = file_name_of(path) {
        lemma_last_dot(n);
        if n != seq!['.', '.'] {
            if let Some(i) = crate::paths::last_dot(n) {
                if i != 0 {
                    assert(n =~= n.take(i) + seq!['.'] + n.skip(i + 1));
                }
            }
        }
    }
}

/// Conditions on a name's parts read those parts: on a file with no extension,
/// a condition on the file name (stem) holds exactly when the same condition on
/// the full name does, and a condition on the extension reads an empty text.
pub proof fn lemma_name_fields(f: FileFacts, op: Operator, value: JsonValue, instants: spec_fn(JsonValue) -> Option<i64>)
    requires
        crate::paths::extension_of(f.path@) is None,
    ensures
        condition_holds(f, Condition { field: ConditionField::Filename, operator: op, value }, instants)
            == condition_holds(f, Condition { field: ConditionField::FullName, operator: op, value }, instants),
        condition_holds(f, Condition { field: ConditionField::Extension, operator: op, value }, instants)
            == string_holds(Seq::<char>::empty(), op, value),
{
    lemma_name_is_stem_and_extension(f.path@);
}

} // verus!
