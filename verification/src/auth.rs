//! Authorization: only one configured Telegram user may drive the toy.

use vstd::prelude::*;

use crate::number::{decimal, is_digit, lemma_decimal, parse_i64_at, parse_signed};
use crate::text::{all_ws, chars_of, lemma_trim_unchanged, lemma_trim_ws_around, trim, trim_bounds};

verus! {

/// Returns `true` if `user_id` is the configured `allowed_id`.
pub fn is_allowed(user_id: i64, allowed_id: i64) -> (allowed: bool)
    ensures
        allowed <==> user_id == allowed_id,
{
    user_id == allowed_id
}


/// What [`parse_allowed_id`] gives for the characters `s`: the trimmed text read
/// as an `i64` the way `str::parse` reads it.
pub open spec fn spec_parse_allowed_id(s: Seq<char>) -> Option<i64> {
    match parse_signed(trim(s), i64::MIN as int, i64::MAX as int) {
        Some(v) => Some(v as i64),
        None => None,
    }
}

/// Parse the `ALLOWED_USER_ID` value into a numeric Telegram id.
///
/// Surrounding whitespace is ignored; anything non-numeric yields `None`.
pub fn parse_allowed_id(s: &str) -> (id: Option<i64>)
    ensures
        id == spec_parse_allowed_id(s@),
{
    let chars = chars_of(s);
    let (a, b) = trim_bounds(&chars);
    parse_i64_at(&chars, a, b)
}


/// The decimal form of `i`, with a leading `-` when negative (how `i64` displays).
pub open spec fn i64_text(i: i64) -> Seq<char> {
    if i < 0 {
        seq!['-'] + decimal((-i) as nat)
    } else {
        decimal(i as nat)
    }
}

/// Whitespace around an id does not change what it parses to.
pub proof fn lemma_parse_allowed_id_ignores_whitespace(w1: Seq<char>, s: Seq<char>, w2: Seq<char>)
    requires
        all_ws(w1),
        all_ws(w2),
    ensures
        spec_parse_allowed_id(w1 + s + w2) == spec_parse_allowed_id(s),
{
    lemma_trim_ws_around(w1, s, w2);
}

/// Every `i64`, written in decimal, parses back to itself.
pub proof fn lemma_parse_allowed_id_reads_decimal(i: i64)
    ensures
        spec_parse_allowed_id(i64_text(i)) == Some(i),
{
    let t = i64_text(i);
    if i < 0 {
        let m = (-i) as nat;
        lemma_decimal(m);
        let d = decimal(m);
        assert(is_digit(d[0]));
        assert(is_digit(d.last()));
        assert(t[0] == '-');
        assert(t.last() == d.last());
        lemma_trim_unchanged(t);
        assert(t.drop_first() =~= d);
    } else {
        let m = i as nat;
        lemma_decimal(m);
        let d = decimal(m);
        assert(is_digit(d[0]));
        assert(is_digit(d.last()));
        lemma_trim_unchanged(t);
    }
}

} // verus!
