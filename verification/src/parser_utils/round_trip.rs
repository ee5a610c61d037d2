use vstd::prelude::*;

use crate::parser_utils::character_class::is_digit;
use crate::parser_utils::common_parsing_functions::{lemma_skip_from_stops, skipped};
use crate::parser_utils::decimal_text::{signed_text, unsigned_text};
use crate::parser_utils::number_parsing::{
    decimal_value, digit_run_end, i32_negation_overflows, lemma_digit_run_bounds, spec_parse_i32,
    spec_parse_u32, two_pow_32,
};
use crate::parser_utils::parser_errors::PrimitiveError;

verus! {

/// Every byte of `d` is a decimal digit.
pub open spec fn all_digits(d: Seq<u8>) -> bool {
    forall|k: int| 0 <= k < d.len() ==> is_digit(#[trigger] d[k])
}

/// `d` is digits in the form that writing produces: at least one digit and
/// no leading zero unless the number is zero itself.
pub open spec fn canonical_digits(d: Seq<u8>) -> bool {
    &&& d.len() >= 1
    &&& all_digits(d)
    &&& (d.len() == 1 || d[0] != 0x30)
}

/// The text of a number is canonical digits and denotes that number.
pub proof fn lemma_unsigned_text(n: nat)
    ensures
        canonical_digits(unsigned_text(n)),
        decimal_value(unsigned_text(n)) == n,
    decreases n,
{
    let t = unsigned_text(n);
    if n < 10 {
        assert(t.drop_last() =~= Seq::<u8>::empty());
        assert(decimal_value(Seq::<u8>::empty()) == 0);
        assert(t.last() == t[0]);
        assert(is_digit(t[0]));
        assert(decimal_value(t) == n);
        assert(canonical_digits(t));
    } else {
        lemma_unsigned_text(n / 10);
        let u = unsigned_text(n / 10);
        let r = n % 10;
        assert(0 <= r < 10);
        assert(t.drop_last() =~= u);
        assert(t.last() == (0x30 + r) as u8);
        vstd::arithmetic::div_mod::lemma_fundamental_div_mod(n as int, 10);
        assert(n == 10 * (n / 10) + r);
        assert forall|k: int| 0 <= k < t.len() implies is_digit(#[trigger] t[k]) by {
            if k < u.len() {
                assert(t[k] == u[k]);
            }
        }
        assert(t[0] == u[0]);
        if u.len() == 1 {
            assert(u.drop_last() =~= Seq::<u8>::empty());
            assert(decimal_value(Seq::<u8>::empty()) == 0);
            assert(u.last() == u[0]);
        }
        assert(decimal_value(t) == 10 * decimal_value(u) + r);
        assert(canonical_digits(t));
    }
}

/// Canonical digits that start with a non-zero digit denote a positive number.
proof fn lemma_leading_digit_positive(d: Seq<u8>)
    requires
        d.len() >= 1,
        all_digits(d),
        d[0] != 0x30,
    ensures
        decimal_value(d) >= 1,
    decreases d.len(),
{
    if d.len() > 1 {
        let e = d.drop_last();
        assert(e[0] == d[0]);
        assert forall|k: int| 0 <= k < e.len() implies is_digit(#[trigger] e[k]) by {
            assert(e[k] == d[k]);
        }
        lemma_leading_digit_positive(e);
    } else {
        assert(d.drop_last() =~= Seq::<u8>::empty());
    }
}

/// Writing the number that canonical digits denote gives back those digits.
pub proof fn lemma_text_of_canonical_digits(d: Seq<u8>)
    requires
        canonical_digits(d),
    ensures
        unsigned_text(decimal_value(d)) == d,
    decreases d.len(),
{
    let n = decimal_value(d);
    let last = (d.last() - 0x30) as nat;
    assert(is_digit(d[d.len() - 1]));
    if d.len() == 1 {
        assert(d.drop_last() =~= Seq::<u8>::empty());
        assert(decimal_value(Seq::<u8>::empty()) == 0);
        assert(n == last);
        assert(d.last() == d[0]);
        assert(unsigned_text(n) =~= d);
    } else {
        let e = d.drop_last();
        assert(e[0] == d[0]);
        assert forall|k: int| 0 <= k < e.len() implies is_digit(#[trigger] e[k]) by {
            assert(e[k] == d[k]);
        }
        lemma_leading_digit_positive(e);
        lemma_text_of_canonical_digits(e);
        let m = decimal_value(e);
        assert(n == 10 * m + last);
        vstd::arithmetic::div_mod::lemma_fundamental_div_mod_converse(n as int, 10, m as int, last as int);
        assert(n / 10 == m);
        assert(n % 10 == last);
        assert(n >= 10);
        assert(unsigned_text(n) == e.push((0x30 + last) as u8));
        assert(d.last() == (0x30 + last) as u8);
        assert(e.push(d.last()) =~= d);
    }
}

/// A run of digits from `i` that ends at `j` is where reading digits stops.
proof fn lemma_digit_run(s: Seq<u8>, i: int, j: int)
    requires
        0 <= i <= j <= s.len(),
        forall|k: int| i <= k < j ==> is_digit(#[trigger] s[k]),
        j == s.len() || !is_digit(s[j]),
    ensures
        digit_run_end(s, i) == j,
    decreases j - i,
{
    if i < j {
        lemma_digit_run(s, i + 1, j);
    }
}

/// The decimal text of a number followed by `rest`, where `rest` does not
/// continue the digits, reads back as that text alone.
proof fn lemma_text_then_rest(n: nat, lead: Seq<u8>, rest: Seq<u8>)
    requires
        rest.len() == 0 || !is_digit(rest[0]),
    ensures
        ({
            let t = unsigned_text(n);
            let s = lead + t + rest;
            &&& digit_run_end(s, lead.len() as int) == lead.len() + t.len()
            &&& s.subrange(lead.len() as int, (lead.len() + t.len()) as int) =~= t
            &&& t.len() >= 1
        }),
{
    let t = unsigned_text(n);
    let s = lead + t + rest;
    lemma_unsigned_text(n);
    assert forall|k: int| lead.len() <= k < lead.len() + t.len() implies is_digit(#[trigger] s[k]) by {
        assert(s[k] == t[k - lead.len()]);
    }
    if rest.len() > 0 {
        assert(s[(lead.len() + t.len()) as int] == rest[0]);
    }
    lemma_digit_run(s, lead.len() as int, (lead.len() + t.len()) as int);
}

/// Reading back the decimal text of an unsigned value gives the value and
/// stops right after the text, whatever follows that is not a digit.
pub proof fn lemma_u32_text_round_trip(v: u32, rest: Seq<u8>)
    requires
        rest.len() == 0 || !is_digit(rest[0]),
    ensures
        spec_parse_u32(unsigned_text(v as nat) + rest, 0) == (
            Ok::<u32, PrimitiveError>(v),
            unsigned_text(v as nat).len() as int,
        ),
{
    let t = unsigned_text(v as nat);
    let s = t + rest;
    lemma_text_then_rest(v as nat, Seq::<u8>::empty(), rest);
    assert(Seq::<u8>::empty() + t + rest =~= s);
    assert(s[0] == t[0]);
    assert(skipped(s, 0) == 0);
    lemma_unsigned_text(v as nat);
    vstd::arithmetic::div_mod::lemma_small_mod(v as nat, two_pow_32() as nat);
}

/// Reading back the decimal text of a signed value gives the value and stops
/// right after the text, whatever follows that is not a digit. `i32::MIN` is
/// left out: its magnitude wraps around to itself and the negation that
/// follows overflows.
pub proof fn lemma_i32_text_round_trip(v: i32, rest: Seq<u8>)
    requires
        v != i32::MIN,
        rest.len() == 0 || !is_digit(rest[0]),
    ensures
        !i32_negation_overflows(signed_text(v as int) + rest, 0),
        spec_parse_i32(signed_text(v as int) + rest, 0) == (
            Ok::<i32, PrimitiveError>(v),
            signed_text(v as int).len() as int,
        ),
{
    let t = signed_text(v as int);
    let s = t + rest;
    if v < 0 {
        let m = (-v) as nat;
        let lead = seq![0x2du8];
        lemma_text_then_rest(m, lead, rest);
        assert(lead + unsigned_text(m) + rest =~= s);
        assert(s[0] == 0x2d);
        assert(skipped(s, 0) == 0);
        lemma_unsigned_text(m);
        vstd::arithmetic::div_mod::lemma_small_mod(m, two_pow_32() as nat);
    } else {
        lemma_text_then_rest(v as nat, Seq::<u8>::empty(), rest);
        assert(Seq::<u8>::empty() + t + rest =~= s);
        assert(s[0] == t[0]);
        assert(skipped(s, 0) == 0);
        lemma_unsigned_text(v as nat);
        vstd::arithmetic::div_mod::lemma_small_mod(v as nat, two_pow_32() as nat);
    }
}

/// An unsigned value read from digits in canonical form (no `+` sign, no
/// leading zero, no wrap-around past 32 bits) writes back as exactly the text
/// it was read from.
pub proof fn lemma_u32_read_then_write(s: Seq<u8>, pos: int)
    requires
        0 <= pos,
        ({
            let (r, end) = spec_parse_u32(s, pos);
            let start = skipped(s, pos);
            &&& r is Ok
            &&& canonical_digits(s.subrange(start, end))
            &&& decimal_value(s.subrange(start, end)) < two_pow_32()
        }),
    ensures
        ({
            let (r, end) = spec_parse_u32(s, pos);
            unsigned_text(r->Ok_0 as nat) == s.subrange(skipped(s, pos), end)
        }),
{
    let (r, end) = spec_parse_u32(s, pos);
    let p = skipped(s, pos);
    lemma_skip_from_stops(s, pos, false);
    let start = if s[p] == 0x2b { p + 1 } else { p };
    lemma_digit_run_bounds(s, start);
    let d = s.subrange(p, end);
    assert(is_digit(d[0]));
    assert(s[p] == d[0]);
    lemma_text_of_canonical_digits(d);
    vstd::arithmetic::div_mod::lemma_small_mod(decimal_value(d), two_pow_32() as nat);
}

/// A signed value read from text in canonical form (no `+` sign, no leading
/// zero, no `-0`, no wrap-around) writes back as exactly the text it was
/// read from.
pub proof fn lemma_i32_read_then_write(s: Seq<u8>, pos: int)
    requires
        0 <= pos,
        ({
            let (r, end) = spec_parse_i32(s, pos);
            let p = skipped(s, pos);
            &&& r is Ok
            &&& p < s.len()
            &&& (s[p] == 0x2d && canonical_digits(s.subrange(p + 1, end)) && 1 <= decimal_value(
                s.subrange(p + 1, end),
            ) <= 0x7fff_ffff) || (canonical_digits(s.subrange(p, end)) && decimal_value(
                s.subrange(p, end),
            ) <= 0x7fff_ffff)
        }),
    ensures
        ({
            let (r, end) = spec_parse_i32(s, pos);
            signed_text(r->Ok_0 as int) == s.subrange(skipped(s, pos), end)
        }),
{
    let (r, end) = spec_parse_i32(s, pos);
    let p = skipped(s, pos);
    lemma_skip_from_stops(s, pos, false);
    let start = if s[p] == 0x2d || s[p] == 0x2b { p + 1 } else { p };
    lemma_digit_run_bounds(s, start);
    if s[p] == 0x2d && canonical_digits(s.subrange(p + 1, end)) && 1 <= decimal_value(
        s.subrange(p + 1, end),
    ) <= 0x7fff_ffff {
        let d = s.subrange(p + 1, end);
        lemma_text_of_canonical_digits(d);
        vstd::arithmetic::div_mod::lemma_small_mod(decimal_value(d), two_pow_32() as nat);
        assert(seq![0x2du8] + d =~= s.subrange(p, end));
    } else {
        let d = s.subrange(p, end);
        assert(is_digit(d[0]));
        assert(s[p] == d[0]);
        lemma_text_of_canonical_digits(d);
        vstd::arithmetic::div_mod::lemma_small_mod(decimal_value(d), two_pow_32() as nat);
    }
}

} // verus!
