use vstd::prelude::*;

use crate::parser_utils::character_class::{is_digit, is_digit_byte};
use crate::parser_utils::common_parsing_functions::{lemma_skip_from_stops, skip_whitespace, skipped};
use crate::parser_utils::parser_errors::PrimitiveError;

verus! {

/// 2^32, the number of values of a 32-bit integer.
pub open spec fn two_pow_32() -> int {
    0x1_0000_0000
}

/// The index of the first byte at or after `i` that is not a decimal digit.
pub open spec fn digit_run_end(s: Seq<u8>, i: int) -> int
    decreases s.len() - i,
{
    if 0 <= i < s.len() && is_digit(s[i]) {
        digit_run_end(s, i + 1)
    } else {
        i
    }
}

/// Reading digits from `i` stops within the input, past digits only.
pub proof fn lemma_digit_run_bounds(s: Seq<u8>, i: int)
    requires
        0 <= i,
    ensures
        i <= digit_run_end(s, i),
        i <= s.len() ==> digit_run_end(s, i) <= s.len(),
    decreases s.len() - i,
{
    if 0 <= i < s.len() && is_digit(s[i]) {
        lemma_digit_run_bounds(s, i + 1);
    }
}

/// The number that a sequence of decimal digits denotes.
pub open spec fn decimal_value(d: Seq<u8>) -> nat
    decreases d.len(),
{
    if d.len() == 0 {
        0
    } else {
        10 * decimal_value(d.drop_last()) + (d.last() - 0x30) as nat
    }
}

/// `n` reduced to the 32 bits of an unsigned integer.
pub open spec fn wrap_u32(n: int) -> int {
    n % two_pow_32()
}

/// `n` reduced to the 32 bits of a two's complement signed integer.
pub open spec fn wrap_i32(n: int) -> int {
    let m = n % two_pow_32();
    if m > 0x7fff_ffff {
        m - two_pow_32()
    } else {
        m
    }
}

/// What reading a signed integer at `pos` gives: the result and the position
/// after it. Leading blanks and comments are skipped, one `+` or `-` sign is
/// accepted, and the digits accumulate with 32-bit wrap-around.
pub open spec fn spec_parse_i32(s: Seq<u8>, pos: int) -> (Result<i32, PrimitiveError>, int) {
    let p = skipped(s, pos);
    if p >= s.len() {
        (Err(PrimitiveError::UnexpectedEnd), p)
    } else {
        let start = if s[p] == 0x2d || s[p] == 0x2b {
            p + 1
        } else {
            p
        };
        let end = digit_run_end(s, start);
        if end == start {
            (Err(PrimitiveError::InvalidInteger), end)
        } else {
            let v = wrap_i32(decimal_value(s.subrange(start, end)) as int);
            (Ok((if s[p] == 0x2d { -v } else { v }) as i32), end)
        }
    }
}

/// Reading a signed integer at `pos` would negate `i32::MIN`: the digits
/// after a `-` wrap around to `-2^31`, whose negation overflows.
pub open spec fn i32_negation_overflows(s: Seq<u8>, pos: int) -> bool {
    let p = skipped(s, pos);
    &&& 0 <= p < s.len()
    &&& s[p] == 0x2d
    &&& digit_run_end(s, p + 1) > p + 1
    &&& wrap_i32(decimal_value(s.subrange(p + 1, digit_run_end(s, p + 1))) as int) == -0x8000_0000
}

/// What reading an unsigned integer at `pos` gives: the result and the
/// position after it. Leading blanks and comments are skipped, a `-` sign is
/// refused, one `+` sign is accepted, and the digits accumulate with 32-bit
/// wrap-around.
pub open spec fn spec_parse_u32(s: Seq<u8>, pos: int) -> (Result<u32, PrimitiveError>, int) {
    let p = skipped(s, pos);
    if p >= s.len() {
        (Err(PrimitiveError::UnexpectedEnd), p)
    } else if s[p] == 0x2d {
        (Err(PrimitiveError::InvalidUnsigned), p)
    } else {
        let start = if s[p] == 0x2b {
            p + 1
        } else {
            p
        };
        let end = digit_run_end(s, start);
        if end == start {
            (Err(PrimitiveError::InvalidUnsigned), end)
        } else {
            (Ok(wrap_u32(decimal_value(s.subrange(start, end)) as int) as u32), end)
        }
    }
}

/// One more digit: `10 * n + d`, reduced to 32 bits, can be computed from
/// `n` reduced to 32 bits.
proof fn lemma_wrap_step(n: int, d: int)
    requires
        0 <= n,
        0 <= d < 10,
    ensures
        (((n % two_pow_32()) * 10) % two_pow_32() + d) % two_pow_32() == (10 * n + d)
            % two_pow_32(),
{
    let m = two_pow_32();
    vstd::arithmetic::div_mod::lemma_mul_mod_noop_left(n, 10, m);
    vstd::arithmetic::div_mod::lemma_small_mod(d as nat, m as nat);
    vstd::arithmetic::div_mod::lemma_add_mod_noop(n * 10, d, m);
    vstd::arithmetic::div_mod::lemma_mod_twice(n * 10, m);
    assert(n * 10 == 10 * n) by (nonlinear_arith);
}

/// Reads the run of decimal digits that starts at `*pos`, leaving `*pos` at
/// its end; returns the value reduced to 32 bits.
fn read_digits(bytes: &[u8], pos: &mut usize) -> (value: u32)
    ensures
        *final(pos) == digit_run_end(bytes@, *old(pos) as int),
        *old(pos) <= *final(pos),
        *old(pos) <= bytes@.len() ==> *final(pos) <= bytes@.len(),
        *old(pos) <= bytes@.len() ==> value == wrap_u32(
            decimal_value(bytes@.subrange(*old(pos) as int, *final(pos) as int)) as int,
        ),
{
    let ghost s = bytes@;
    let ghost start = *pos as int;
    if *pos > bytes.len() {
        return 0;
    }
    let mut value: u32 = 0;
    assert(s.subrange(start, start) =~= Seq::<u8>::empty());
    while *pos < bytes.len() && is_digit_byte(bytes[*pos])
        invariant
            s == bytes@,
            0 <= start <= *pos <= s.len(),
            digit_run_end(s, *pos as int) == digit_run_end(s, start),
            value == wrap_u32(decimal_value(s.subrange(start, *pos as int)) as int),
        decreases s.len() - *pos,
    {
        let digit = (bytes[*pos] - 0x30) as u32;
        let ghost n = decimal_value(s.subrange(start, *pos as int)) as int;
        proof {
            let next = s.subrange(start, *pos + 1);
            assert(next.drop_last() =~= s.subrange(start, *pos as int));
            assert(decimal_value(next) == 10 * n + digit);
            lemma_wrap_step(n, digit as int);
        }
        value = value.wrapping_mul(10).wrapping_add(digit);
        *pos = *pos + 1;
    }
    value
}

/// The signed 32-bit integer whose bits are those of `v`.
fn reinterpret_i32(v: u32) -> (r: i32)
    ensures
        r as int == (if v > 0x7fff_ffff { v - two_pow_32() } else { v as int }),
{
    if v > 0x7fff_ffff {
        (v as i64 - 0x1_0000_0000i64) as i32
    } else {
        v as i32
    }
}

/// Fast integer parsing (handles negative)
pub fn parse_i32_fast(bytes: &[u8], pos: &mut usize) -> (res: Result<i32, PrimitiveError>)
    requires
        !i32_negation_overflows(bytes@, *old(pos) as int),
    ensures
        (res, *final(pos) as int) == spec_parse_i32(bytes@, *old(pos) as int),
{
    skip_whitespace(bytes, pos);
    proof {
        lemma_skip_from_stops(bytes@, *old(pos) as int, false);
    }

    if *pos >= bytes.len() {
        return Err(PrimitiveError::UnexpectedEnd);
    }

    let mut negative = false;
    if bytes[*pos] == 0x2d {
        negative = true;
        *pos = *pos + 1;
    } else if bytes[*pos] == 0x2b {
        *pos = *pos + 1;
    }

    let start = *pos;
    let value = read_digits(bytes, pos);

    if *pos == start {
        return Err(PrimitiveError::InvalidInteger);
    }

    let value = reinterpret_i32(value);
    Ok(if negative { -value } else { value })
}

/// Tests whether reading a signed integer at `pos` would negate `i32::MIN`,
/// the one input that `parse_i32_fast` and `parse_spanned_i32` refuse.
pub fn i32_negation_overflows_at(bytes: &[u8], pos: usize) -> (b: bool)
    ensures
        b == i32_negation_overflows(bytes@, pos as int),
{
    let mut p = pos;
    skip_whitespace(bytes, &mut p);
    proof {
        lemma_skip_from_stops(bytes@, pos as int, false);
    }
    if p >= bytes.len() || bytes[p] != 0x2d {
        return false;
    }
    let start = p + 1;
    let mut q = start;
    let value = read_digits(bytes, &mut q);
    if q == start {
        return false;
    }
    reinterpret_i32(value) == i32::MIN
}

/// Fast unsigned integer parsing (refuses a minus sign)
pub fn parse_u32_fast(bytes: &[u8], pos: &mut usize) -> (res: Result<u32, PrimitiveError>)
    ensures
        (res, *final(pos) as int) == spec_parse_u32(bytes@, *old(pos) as int),
{
    skip_whitespace(bytes, pos);
    proof {
        lemma_skip_from_stops(bytes@, *old(pos) as int, false);
    }

    if *pos >= bytes.len() {
        return Err(PrimitiveError::UnexpectedEnd);
    }

    if bytes[*pos] == 0x2d {
        return Err(PrimitiveError::InvalidUnsigned);
    } else if bytes[*pos] == 0x2b {
        *pos = *pos + 1;
    }

    let start = *pos;
    let value = read_digits(bytes, pos);

    if *pos == start {
        return Err(PrimitiveError::InvalidUnsigned);
    }

    Ok(value)
}

/// `b` is a `+` or a `-`.
pub open spec fn is_sign(b: u8) -> bool {
    b == 0x2b || b == 0x2d
}

/// Past one optional sign at `i`.
pub open spec fn after_sign(s: Seq<u8>, i: int) -> int {
    if 0 <= i < s.len() && is_sign(s[i]) {
        i + 1
    } else {
        i
    }
}

/// The end of the text of a floating-point number that starts at `i`: an
/// optional sign, digits, optionally a `.` and digits, and optionally an
/// exponent (`e` or `E`, an optional sign and digits).
pub open spec fn float_text_end(s: Seq<u8>, i: int) -> int {
    let whole = digit_run_end(s, after_sign(s, i));
    let frac = if 0 <= whole < s.len() && s[whole] == 0x2e {
        digit_run_end(s, whole + 1)
    } else {
        whole
    };
    if 0 <= frac < s.len() && (s[frac] == 0x65 || s[frac] == 0x45) {
        digit_run_end(s, after_sign(s, frac + 1))
    } else {
        frac
    }
}

/// The state of reading `b` in state `state` of the recogniser of float
/// text `[+-]?[0-9]*(\.[0-9]*)?([eE][+-]?[0-9]*)?`: 0 at the start, 1 after
/// the sign, 2 in the whole digits, 3 after the `.`, 4 after the `e`, 5
/// after the exponent's sign, 6 in the exponent's digits; -1 once the text
/// can no longer be float text.
pub open spec fn float_char_step(state: int, b: u8) -> int {
    let digit = is_digit(b);
    let dot = b == 0x2e;
    let exp = b == 0x65 || b == 0x45;
    if state == 0 {
        if is_sign(b) {
            1
        } else if digit {
            2
        } else if dot {
            3
        } else if exp {
            4
        } else {
            -1
        }
    } else if state == 1 || state == 2 {
        if digit {
            2
        } else if dot {
            3
        } else if exp {
            4
        } else {
            -1
        }
    } else if state == 3 {
        if digit {
            3
        } else if exp {
            4
        } else {
            -1
        }
    } else if state == 4 {
        if is_sign(b) {
            5
        } else if digit {
            6
        } else {
            -1
        }
    } else if state == 5 || state == 6 {
        if digit {
            6
        } else {
            -1
        }
    } else {
        -1
    }
}

/// The recogniser's state after reading `t`.
pub open spec fn float_state(t: Seq<u8>) -> int
    decreases t.len(),
{
    if t.len() == 0 {
        0
    } else {
        float_char_step(float_state(t.drop_last()), t.last())
    }
}

/// `t` has the form of float text: `[+-]?[0-9]*(\.[0-9]*)?([eE][+-]?[0-9]*)?`.
pub open spec fn is_float_text(t: Seq<u8>) -> bool {
    float_state(t) >= 0
}

/// Reading one more byte of `s` from `p`.
proof fn lemma_float_state_extend(s: Seq<u8>, p: int, i: int)
    requires
        0 <= p <= i < s.len(),
    ensures
        float_state(s.subrange(p, i + 1)) == float_char_step(float_state(s.subrange(p, i)), s[i]),
{
    assert(s.subrange(p, i + 1).drop_last() =~= s.subrange(p, i));
}

/// A run of digits keeps the recogniser in a state that loops on digits.
proof fn lemma_float_state_digits(s: Seq<u8>, p: int, i: int, q: int)
    requires
        0 <= p <= i <= s.len(),
        q == 2 || q == 3 || q == 6,
        float_state(s.subrange(p, i)) == q,
    ensures
        i <= digit_run_end(s, i) <= s.len(),
        float_state(s.subrange(p, digit_run_end(s, i))) == q,
    decreases s.len() - i,
{
    if i < s.len() && is_digit(s[i]) {
        lemma_float_state_extend(s, p, i);
        lemma_float_state_digits(s, p, i + 1, q);
    }
}

/// A run of digits, started from a state that goes to `q` on a digit.
proof fn lemma_float_state_first_digits(s: Seq<u8>, p: int, i: int, q0: int, q: int)
    requires
        0 <= p <= i <= s.len(),
        q == 2 || q == 6,
        float_state(s.subrange(p, i)) == q0,
        forall|b: u8| is_digit(b) ==> float_char_step(q0, b) == q,
    ensures
        i <= digit_run_end(s, i) <= s.len(),
        float_state(s.subrange(p, digit_run_end(s, i))) == (if digit_run_end(s, i) > i {
            q
        } else {
            q0
        }),
{
    if i < s.len() && is_digit(s[i]) {
        lemma_float_state_extend(s, p, i);
        lemma_float_state_digits(s, p, i + 1, q);
    }
}

/// A run of digits stops at a byte that is not a digit.
proof fn lemma_digit_run_stops(s: Seq<u8>, i: int)
    requires
        0 <= i,
    ensures
        digit_run_end(s, i) < s.len() ==> !is_digit(s[digit_run_end(s, i)]),
    decreases s.len() - i,
{
    if 0 <= i < s.len() && is_digit(s[i]) {
        lemma_digit_run_stops(s, i + 1);
    }
}

/// Once the recogniser has refused, it refuses every longer text.
proof fn lemma_float_state_refused(s: Seq<u8>, p: int, i: int, j: int)
    requires
        0 <= p <= i <= j <= s.len(),
        float_state(s.subrange(p, i)) < 0,
    ensures
        float_state(s.subrange(p, j)) < 0,
    decreases j - i,
{
    if i < j {
        lemma_float_state_extend(s, p, i);
        lemma_float_state_refused(s, p, i + 1, j);
    }
}

/// The float text that `scan_float_text` finds at `p` is the longest prefix
/// of the rest of the input that has the form
/// `[+-]?[0-9]*(\.[0-9]*)?([eE][+-]?[0-9]*)?`: every byte of it belongs to
/// the number, and no longer prefix has that form.
pub proof fn lemma_float_text_is_longest(s: Seq<u8>, p: int)
    requires
        0 <= p <= s.len(),
    ensures
        p <= float_text_end(s, p) <= s.len(),
        is_float_text(s.subrange(p, float_text_end(s, p))),
        forall|j: int|
            float_text_end(s, p) < j <= s.len() ==> !is_float_text(#[trigger] s.subrange(p, j)),
{
    let e = float_text_end(s, p);
    assert(s.subrange(p, p) =~= Seq::<u8>::empty());
    assert(float_state(Seq::<u8>::empty()) == 0);
    let a = after_sign(s, p);
    let qa = if a == p + 1 { 1int } else { 0int };
    if a == p + 1 {
        lemma_float_state_extend(s, p, p);
    }
    assert(float_state(s.subrange(p, a)) == qa);
    lemma_float_state_first_digits(s, p, a, qa, 2);
    let w = digit_run_end(s, a);
    let qw = if w > a { 2int } else { qa };
    let f = if 0 <= w < s.len() && s[w] == 0x2e { digit_run_end(s, w + 1) } else { w };
    let qf = if 0 <= w < s.len() && s[w] == 0x2e { 3int } else { qw };
    if 0 <= w < s.len() && s[w] == 0x2e {
        lemma_float_state_extend(s, p, w);
        lemma_float_state_digits(s, p, w + 1, 3);
    }
    assert(float_state(s.subrange(p, f)) == qf);
    let q = if 0 <= f < s.len() && (s[f] == 0x65 || s[f] == 0x45) {
        lemma_float_state_extend(s, p, f);
        let b = after_sign(s, f + 1);
        let qb = if b == f + 2 { 5int } else { 4int };
        if b == f + 2 {
            lemma_float_state_extend(s, p, f + 1);
        }
        lemma_float_state_first_digits(s, p, b, qb, 6);
        if digit_run_end(s, b) > b { 6int } else { qb }
    } else {
        qf
    };
    assert(float_state(s.subrange(p, e)) == q);
    lemma_digit_run_stops(s, a);
    lemma_digit_run_stops(s, w + 1);
    if 0 <= f < s.len() && (s[f] == 0x65 || s[f] == 0x45) {
        lemma_digit_run_stops(s, after_sign(s, f + 1));
    }
    if e < s.len() {
        lemma_float_state_extend(s, p, e);
        assert(float_state(s.subrange(p, e + 1)) < 0);
        assert forall|j: int| e < j <= s.len() implies !is_float_text(#[trigger] s.subrange(p, j)) by {
            lemma_float_state_refused(s, p, e + 1, j);
        }
    }
}

/// Advances `*pos` past one `+` or `-`, if one stands there.
fn skip_sign(bytes: &[u8], pos: &mut usize)
    ensures
        *final(pos) == after_sign(bytes@, *old(pos) as int),
{
    if *pos < bytes.len() && (bytes[*pos] == 0x2b || bytes[*pos] == 0x2d) {
        *pos = *pos + 1;
    }
}

/// Advances `*pos` past a run of decimal digits.
fn skip_digits(bytes: &[u8], pos: &mut usize)
    ensures
        *final(pos) == digit_run_end(bytes@, *old(pos) as int),
{
    let ghost start = *pos as int;
    while *pos < bytes.len() && is_digit_byte(bytes[*pos])
        invariant
            digit_run_end(bytes@, *pos as int) == digit_run_end(bytes@, start),
        decreases bytes@.len() - *pos,
    {
        *pos = *pos + 1;
    }
}

/// Finds the text of a floating-point number after any blanks and comments:
/// returns where it starts and leaves `*pos` at its end. Converting the text
/// to a number is left to the caller. Fails with `UnexpectedEnd` when the
/// input ends before any text.
pub fn scan_float_text(bytes: &[u8], pos: &mut usize) -> (res: Result<usize, PrimitiveError>)
    ensures
        ({
            let p = skipped(bytes@, *old(pos) as int);
            &&& p >= bytes@.len() ==> res == Err::<usize, PrimitiveError>(
                PrimitiveError::UnexpectedEnd,
            ) && *final(pos) == p
            &&& p < bytes@.len() ==> res == Ok::<usize, PrimitiveError>(p as usize)
                && *final(pos) == float_text_end(bytes@, p)
        }),
{
    skip_whitespace(bytes, pos);
    if *pos >= bytes.len() {
        return Err(PrimitiveError::UnexpectedEnd);
    }
    let start = *pos;
    skip_sign(bytes, pos);
    skip_digits(bytes, pos);
    if *pos < bytes.len() && bytes[*pos] == 0x2e {
        *pos = *pos + 1;
        skip_digits(bytes, pos);
    }
    if *pos < bytes.len() && (bytes[*pos] == 0x65 || bytes[*pos] == 0x45) {
        *pos = *pos + 1;
        skip_sign(bytes, pos);
        skip_digits(bytes, pos);
    }
    Ok(start)
}

} // verus!
