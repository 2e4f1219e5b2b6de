use std::fmt::Display;
use vstd::prelude::*;
use vstd::std_specs::cmp::{PartialEqSpec, PartialOrdIs, PartialOrdSpec};
use vstd::string::to_string_from_display_ensures;

use crate::error::{Error, ErrorModel};

verus! {

/// The decimal digits, `'0'` to `'9'`.
pub open spec fn digits() -> Seq<char> {
    seq!['0', '1', '2', '3', '4', '5', '6', '7', '8', '9']
}

/// The decimal text of `n`, without sign or leading zeros.
pub open spec fn decimal(n: nat) -> Seq<char>
    decreases n,
{
    if n < 10 {
        seq![digits()[n as int]]
    } else {
        decimal(n / 10).push(digits()[(n % 10) as int])
    }
}

fn digit_text(d: usize) -> (r: &'static str)
    requires
        d < 10,
    ensures
        r@ == seq![digits()[d as int]],
{
    proof {
        reveal_strlit("0");
        reveal_strlit("1");
        reveal_strlit("2");
        reveal_strlit("3");
        reveal_strlit("4");
        reveal_strlit("5");
        reveal_strlit("6");
        reveal_strlit("7");
        reveal_strlit("8");
        reveal_strlit("9");
    }
    if d == 0 {
        "0"
    } else if d == 1 {
        "1"
    } else if d == 2 {
        "2"
    } else if d == 3 {
        "3"
    } else if d == 4 {
        "4"
    } else if d == 5 {
        "5"
    } else if d == 6 {
        "6"
    } else if d == 7 {
        "7"
    } else if d == 8 {
        "8"
    } else {
        "9"
    }
}

/// The decimal text of `n`.
pub fn decimal_text(n: usize) -> (r: String)
    ensures
        r@ == decimal(n as nat),
    decreases n,
{
    let last = digit_text(n % 10);
    if n < 10 {
        String::from_str(last)
    } else {
        let mut s = decimal_text(n / 10);
        s.append(last);
        s
    }
}

/// `'v'` followed by `middle` and `'b'`: the shape of the comparison reasons.
pub open spec fn quoted_pair(v: Seq<char>, middle: Seq<char>, b: Seq<char>) -> Seq<char> {
    "'"@ + v + middle + b + "'"@
}

fn quoted_pair_text(v: &str, middle: &str, b: &str) -> (r: String)
    ensures
        r@ == quoted_pair(v@, middle@, b@),
{
    let mut s = String::from_str("'");
    s.append(v);
    s.append(middle);
    s.append(b);
    s.append("'");
    s
}

/// The text between the two quoted values of an equality reason.
pub open spec fn equal_middle() -> Seq<char> {
    "' must equal '"@
}

/// The text between the two quoted values of a lower bound reason.
pub open spec fn min_middle() -> Seq<char> {
    "' must be greater than or equal to '"@
}

/// The text between the two quoted values of an upper bound reason.
pub open spec fn max_middle() -> Seq<char> {
    "' must be less than or equal to '"@
}

/// The reason given when a sequence of `len` elements is shorter than `min_length`.
pub open spec fn min_length_reason(len: nat, min_length: nat) -> Seq<char> {
    "sequence does not have enough elements, it has "@ + decimal(len) + " but the minimum is "@
        + decimal(min_length)
}

/// The reason given when a sequence of `len` elements is longer than `max_length`.
pub open spec fn max_length_reason(len: nat, max_length: nat) -> Seq<char> {
    "sequence has too many elements, it has "@ + decimal(len) + " but the maximum is "@ + decimal(
        max_length,
    )
}

/// Whether `e` is the report of the one reason `'v'`, `middle`, `'b'`, where
/// `v` and `b` are the texts that `Display` gives for `value` and `bound`.
pub open spec fn reports_comparison<L: Display + ?Sized, R: Display + ?Sized>(
    e: ErrorModel,
    value: &L,
    bound: &R,
    middle: Seq<char>,
) -> bool {
    exists|v: String, b: String|
        {
            &&& to_string_from_display_ensures::<L>(value, v)
            &&& to_string_from_display_ensures::<R>(bound, b)
            &&& e == ErrorModel::Unstructured(seq![quoted_pair(v@, middle, b@)])
        }
}

/// The reason given when a required value is absent.
pub open spec fn required_reason() -> Seq<char> {
    "a value is required."@
}

/// Checks that an optional value is present.
pub fn is_required<T>(value: &Option<T>) -> (r: Result<(), Error>)
    ensures
        r is Ok <==> value is Some,
        r matches Err(e) ==> e@ == ErrorModel::Unstructured(seq![required_reason()]),
{
    if value.is_none() {
        Err(Error::new("a value is required."))
    } else {
        Ok(())
    }
}

/// Checks that `value` equals `other`.
pub fn is_equal<L, R>(value: &L, other: R) -> (r: Result<(), Error>) where
    L: PartialEq<R> + Display,
    R: Display,

    ensures
        exists|b: bool| call_ensures(<L as PartialEq<R>>::eq, (value, &other), b) && (r is Ok <==> b),
        L::obeys_eq_spec() ==> (r is Ok <==> value.eq_spec(&other)),
        r matches Err(e) ==> reports_comparison(e@, value, &other, equal_middle()),
{
    if value.eq(&other) {
        Ok(())
    } else {
        let v = value.to_string();
        let b = other.to_string();
        let m = quoted_pair_text(v.as_str(), "' must equal '", b.as_str());
        let e = Error::reason(m);
        assert(reports_comparison(e@, value, &other, equal_middle()));
        Err(e)
    }
}

/// Checks that `value` is not below the lower bound `bound`.
pub fn min<L, R>(value: &L, bound: R) -> (r: Result<(), Error>) where
    L: PartialOrd<R> + Display,
    R: Display,

    ensures
        exists|b: bool| call_ensures(<L as PartialOrd<R>>::lt, (value, &bound), b) && (r is Err <==> b),
        L::obeys_partial_cmp_spec() ==> (r is Err <==> value.is_lt(&bound)),
        r matches Err(e) ==> reports_comparison(e@, value, &bound, min_middle()),
{
    if value.lt(&bound) {
        let v = value.to_string();
        let b = bound.to_string();
        let m = quoted_pair_text(v.as_str(), "' must be greater than or equal to '", b.as_str());
        let e = Error::reason(m);
        assert(reports_comparison(e@, value, &bound, min_middle()));
        Err(e)
    } else {
        Ok(())
    }
}

/// Checks that an optional value is absent or not below the lower bound `min_value`.
pub fn option_min<L, R>(value: &Option<L>, min_value: R) -> (r: Result<(), Error>) where
    L: PartialOrd<R> + Display,
    R: Display,

    ensures
        value is None ==> r is Ok,
        value matches Some(x) ==> {
            &&& exists|b: bool|
                call_ensures(<L as PartialOrd<R>>::lt, (x, &min_value), b) && (r is Err <==> b)
            &&& L::obeys_partial_cmp_spec() ==> (r is Err <==> x.is_lt(&min_value))
            &&& r matches Err(e) ==> reports_comparison(e@, x, &min_value, min_middle())
        },
{
    if let Some(x) = value {
        min(x, min_value)
    } else {
        Ok(())
    }
}

/// Checks that `value` is not above the upper bound `bound`.
pub fn max<L, R>(value: &L, bound: R) -> (r: Result<(), Error>) where
    L: PartialOrd<R> + Display,
    R: Display,

    ensures
        exists|b: bool| call_ensures(<L as PartialOrd<R>>::gt, (value, &bound), b) && (r is Err <==> b),
        L::obeys_partial_cmp_spec() ==> (r is Err <==> value.is_gt(&bound)),
        r matches Err(e) ==> reports_comparison(e@, value, &bound, max_middle()),
{
    if value.gt(&bound) {
        let v = value.to_string();
        let b = bound.to_string();
        let m = quoted_pair_text(v.as_str(), "' must be less than or equal to '", b.as_str());
        let e = Error::reason(m);
        assert(reports_comparison(e@, value, &bound, max_middle()));
        Err(e)
    } else {
        Ok(())
    }
}

/// Checks that an optional value is absent or not above the upper bound `max_value`.
pub fn option_max<L, R>(value: &Option<L>, max_value: R) -> (r: Result<(), Error>) where
    L: PartialOrd<R> + Display,
    R: Display,

    ensures
        value is None ==> r is Ok,
        value matches Some(x) ==> {
            &&& exists|b: bool|
                call_ensures(<L as PartialOrd<R>>::gt, (x, &max_value), b) && (r is Err <==> b)
            &&& L::obeys_partial_cmp_spec() ==> (r is Err <==> x.is_gt(&max_value))
            &&& r matches Err(e) ==> reports_comparison(e@, x, &max_value, max_middle())
        },
{
    if let Some(x) = value {
        max(x, max_value)
    } else {
        Ok(())
    }
}

/// Checks that `items` holds at least `min_length` elements.
pub fn is_min_length<T>(items: &[T], min_length: usize) -> (r: Result<(), Error>)
    ensures
        r is Err <==> items@.len() < min_length,
        r matches Err(e) ==> e@ == ErrorModel::Unstructured(
            seq![min_length_reason(items@.len(), min_length as nat)],
        ),
{
    let len = items.len();
    if len < min_length {
        let mut m = String::from_str("sequence does not have enough elements, it has ");
        m.append(decimal_text(len).as_str());
        m.append(" but the minimum is ");
        m.append(decimal_text(min_length).as_str());
        Err(Error::reason(m))
    } else {
        Ok(())
    }
}

/// Checks that `items` holds at most `max_length` elements.
pub fn is_max_length<T>(items: &[T], max_length: usize) -> (r: Result<(), Error>)
    ensures
        r is Err <==> items@.len() > max_length,
        r matches Err(e) ==> e@ == ErrorModel::Unstructured(
            seq![max_length_reason(items@.len(), max_length as nat)],
        ),
{
    let len = items.len();
    if len > max_length {
        let mut m = String::from_str("sequence has too many elements, it has ");
        m.append(decimal_text(len).as_str());
        m.append(" but the maximum is ");
        m.append(decimal_text(max_length).as_str());
        Err(Error::reason(m))
    } else {
        Ok(())
    }
}

} // verus!
