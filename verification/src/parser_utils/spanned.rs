use vstd::prelude::*;

use crate::parser_utils::common_parsing_functions::{
    lemma_skip_from_stops, lemma_skip_idempotent, skip_whitespace, skipped,
};
use crate::parser_utils::decimal_text::DisplayBytes;
use crate::parser_utils::number_parsing::{
    decimal_value, i32_negation_overflows, is_sign, lemma_digit_run_bounds, parse_i32_fast,
    parse_u32_fast, spec_parse_i32, spec_parse_u32,
};
use crate::parser_utils::parser_errors::PrimitiveError;

verus! {

/// A byte-range within a card's original byte buffer.
///
/// `Span(start, end)` stores half-open indices `[start, end)`.
/// A zero-length span (`start == end`) represents a virtually inserted
/// value: it is written with a leading space but does not consume
/// any source bytes.
#[derive(Debug, PartialEq, Eq, Structural, Clone, Copy)]
pub struct Span(pub usize, pub usize);

impl Span {
    /// A zero-length span anchored at `pos`, used for virtually inserted values.
    pub fn empty_at(pos: usize) -> (s: Self)
        ensures
            s == Span(pos, pos),
    {
        Span(pos, pos)
    }

    /// Returns `true` when this span represents an insertion (start == end).
    pub fn is_insertion(self) -> (b: bool)
        ensures
            b == (self.0 == self.1),
    {
        self.0 == self.1
    }
}

/// A value together with the span of source bytes it was read from.
#[derive(Debug, PartialEq, Clone)]
pub struct Spanned<T> {
    pub value: T,
    pub span: Span,
}

impl<T> Spanned<T> {
    /// Pairs a value with the span of its text.
    pub fn new(value: T, span: Span) -> (s: Self)
        ensures
            s.value == value,
            s.span == span,
    {
        Spanned { value, span }
    }
}

impl<T: DisplayBytes> Spanned<T> {
    /// Appends the text of the value to `buf`.
    pub fn write_into(&self, buf: &mut Vec<u8>)
        ensures
            final(buf)@ == old(buf)@ + self.value.display_bytes(),
    {
        self.value.write_display(buf);
    }
}

/// Reads a signed integer after any blanks and comments, and records the
/// span of its text (sign included). Every failure is reported as
/// `InvalidInteger`.
pub fn parse_spanned_i32(bytes: &[u8], pos: &mut usize) -> (res: Result<
    Spanned<i32>,
    PrimitiveError,
>)
    requires
        !i32_negation_overflows(bytes@, *old(pos) as int),
    ensures
        ({
            let (r, p) = spec_parse_i32(bytes@, *old(pos) as int);
            &&& *final(pos) as int == p
            &&& res is Ok <==> r is Ok
            &&& res matches Ok(sp) ==> r == Ok::<i32, PrimitiveError>(sp.value) && sp.span.0
                == skipped(bytes@, *old(pos) as int) && sp.span.1 == p && sp.span.0 < sp.span.1
            &&& res matches Err(e) ==> e == PrimitiveError::InvalidInteger
        }),
{
    skip_whitespace(bytes, pos);
    proof {
        lemma_skip_idempotent(bytes@, *old(pos) as int);
        lemma_spanned_text_not_empty(bytes@, *old(pos) as int);
    }
    let start = *pos;
    let value = match parse_i32_fast(bytes, pos) {
        Ok(v) => v,
        Err(_) => {
            return Err(PrimitiveError::InvalidInteger);
        },
    };
    Ok(Spanned::new(value, Span(start, *pos)))
}

/// Reads an unsigned integer after any blanks and comments, and records the
/// span of its text. Every failure is reported as `InvalidUnsigned`.
pub fn parse_spanned_u32(bytes: &[u8], pos: &mut usize) -> (res: Result<
    Spanned<u32>,
    PrimitiveError,
>)
    ensures
        ({
            let (r, p) = spec_parse_u32(bytes@, *old(pos) as int);
            &&& *final(pos) as int == p
            &&& res is Ok <==> r is Ok
            &&& res matches Ok(sp) ==> r == Ok::<u32, PrimitiveError>(sp.value) && sp.span.0
                == skipped(bytes@, *old(pos) as int) && sp.span.1 == p && sp.span.0 < sp.span.1
            &&& res matches Err(e) ==> e == PrimitiveError::InvalidUnsigned
        }),
{
    skip_whitespace(bytes, pos);
    proof {
        lemma_skip_idempotent(bytes@, *old(pos) as int);
        lemma_spanned_text_not_empty(bytes@, *old(pos) as int);
    }
    let start = *pos;
    let value = match parse_u32_fast(bytes, pos) {
        Ok(v) => v,
        Err(_) => {
            return Err(PrimitiveError::InvalidUnsigned);
        },
    };
    Ok(Spanned::new(value, Span(start, *pos)))
}

/// Reading a number from a non-empty text reads at least one byte: the
/// digits (and sign) start where skipping stops and end after it.
proof fn lemma_spanned_text_not_empty(s: Seq<u8>, pos: int)
    requires
        0 <= pos,
    ensures
        spec_parse_i32(s, pos).0 is Ok ==> skipped(s, pos) < spec_parse_i32(s, pos).1,
        spec_parse_u32(s, pos).0 is Ok ==> skipped(s, pos) < spec_parse_u32(s, pos).1,
{
    lemma_skip_from_stops(s, pos, false);
    let p = skipped(s, pos);
    if p < s.len() {
        lemma_digit_run_bounds(s, p);
        lemma_digit_run_bounds(s, p + 1);
    }
}

/// What writing `text` for a value with span `span` does to the output
/// `result` and the source position `pos`.
///
/// A value read from the source (a non-empty span) is preceded by the source
/// bytes from `pos` up to its span, and `pos` moves to the end of its span.
/// A virtually inserted value (an empty span) is written after a single space
/// and `pos` stays put, so that the following element still copies the
/// whitespace that stood before it in the source.
pub open spec fn write_step(
    source: Seq<u8>,
    result: Seq<u8>,
    pos: int,
    span: Span,
    text: Seq<u8>,
) -> (Seq<u8>, int) {
    if span.0 == span.1 {
        (result + seq![0x20u8] + text, pos)
    } else {
        (result + source.subrange(pos, span.0 as int) + text, span.1 as int)
    }
}

/// Writes the already rendered `text` of a value with span `span` into
/// `result`, keeping the source bytes that lie between `*pos` and the span.
pub fn write_spanned_text(
    source: &[u8],
    result: &mut Vec<u8>,
    pos: &mut usize,
    span: Span,
    text: &[u8],
)
    requires
        span.0 != span.1 ==> *old(pos) <= span.0 <= source@.len(),
    ensures
        (final(result)@, *final(pos) as int) == write_step(
            source@,
            old(result)@,
            *old(pos) as int,
            span,
            text@,
        ),
{
    let ghost before = result@;
    if span.is_insertion() {
        result.push(0x20);
        result.extend_from_slice(text);
        assert(result@ =~= before + seq![0x20u8] + text@);
    } else {
        result.extend_from_slice(&source[*pos..span.0]);
        let ghost middle = result@;
        assert(middle =~= before + source@.subrange(*old(pos) as int, span.0 as int));
        result.extend_from_slice(text);
        assert(result@ =~= middle + text@);
        *pos = span.1;
    }
}

/// Writes `spanned` into `result`, keeping the source bytes that lie between
/// `*pos` and the value's span (see `write_step`).
pub fn write_spanned<T: DisplayBytes>(
    source: &[u8],
    result: &mut Vec<u8>,
    pos: &mut usize,
    spanned: &Spanned<T>,
)
    requires
        spanned.span.0 != spanned.span.1 ==> *old(pos) <= spanned.span.0 <= source@.len(),
    ensures
        (final(result)@, *final(pos) as int) == write_step(
            source@,
            old(result)@,
            *old(pos) as int,
            spanned.span,
            spanned.value.display_bytes(),
        ),
{
    let mut text: Vec<u8> = Vec::new();
    spanned.write_into(&mut text);
    assert(text@ =~= spanned.value.display_bytes());
    write_spanned_text(source, result, pos, spanned.span, text.as_slice());
}

/// The spans lie in a source of `len` bytes, are not empty, and come in
/// increasing order without overlapping.
pub open spec fn ordered_spans(spans: Seq<Span>, len: int) -> bool {
    &&& forall|k: int| 0 <= k < spans.len() ==> (#[trigger] spans[k]).0 < spans[k].1 <= len
    &&& forall|i: int, j: int| 0 <= i < j < spans.len() ==> (#[trigger] spans[i]).1 <= (#[trigger] spans[j]).0
}

/// The output and source position after writing `texts[k]` for the value
/// with span `spans[k]`, for each `k` in order, starting from an empty
/// output at position 0.
pub open spec fn write_steps(source: Seq<u8>, spans: Seq<Span>, texts: Seq<Seq<u8>>) -> (Seq<u8>, int)
    decreases spans.len(),
{
    if spans.len() == 0 {
        (Seq::<u8>::empty(), 0)
    } else {
        let (r, p) = write_steps(source, spans.drop_last(), texts.drop_last());
        write_step(source, r, p, spans.last(), texts.last())
    }
}

/// `source` with the bytes of each span `spans[k]` replaced by `texts[k]`
/// (for ordered spans).
pub open spec fn splice(source: Seq<u8>, spans: Seq<Span>, texts: Seq<Seq<u8>>) -> Seq<u8>
    decreases spans.len(),
{
    if spans.len() == 0 {
        source
    } else {
        let last = spans.last();
        splice(source.take(last.0 as int), spans.drop_last(), texts.drop_last()) + texts.last()
            + source.skip(last.1 as int)
    }
}

/// The end of the last span, or 0 when there is none.
pub open spec fn end_of_spans(spans: Seq<Span>) -> int {
    if spans.len() == 0 {
        0
    } else {
        spans.last().1 as int
    }
}

/// Dropping the last span keeps spans ordered.
proof fn lemma_ordered_drop_last(spans: Seq<Span>, len: int, cut: int)
    requires
        ordered_spans(spans, len),
        spans.len() > 0,
        cut == spans.last().0,
    ensures
        ordered_spans(spans.drop_last(), cut),
        end_of_spans(spans.drop_last()) <= cut,
{
    let d = spans.drop_last();
    let n = spans.len() as int;
    assert forall|k: int| 0 <= k < d.len() implies (#[trigger] d[k]).0 < d[k].1 <= cut by {
        assert(d[k] == spans[k]);
        assert(spans[k].1 <= spans[n - 1].0);
    }
    assert forall|i: int, j: int| 0 <= i < j < d.len() implies (#[trigger] d[i]).1 <= (#[trigger] d[j]).0 by {
        assert(d[i] == spans[i] && d[j] == spans[j]);
    }
    if d.len() > 0 {
        assert(d.last() == spans[n - 2]);
        assert(spans[n - 2].1 <= spans[n - 1].0);
    }
}

/// Splicing spans that end by `cut` touches only the bytes before `cut`.
proof fn lemma_splice_prefix(s: Seq<u8>, spans: Seq<Span>, texts: Seq<Seq<u8>>, cut: int)
    requires
        0 <= cut <= s.len(),
        ordered_spans(spans, cut),
    ensures
        splice(s, spans, texts) == splice(s.take(cut), spans, texts) + s.skip(cut),
{
    if spans.len() == 0 {
        assert(s =~= s.take(cut) + s.skip(cut));
    } else {
        let last = spans.last();
        assert(last == spans[spans.len() - 1]);
        assert(s.take(cut).take(last.0 as int) =~= s.take(last.0 as int));
        assert(s.take(cut).skip(last.1 as int) + s.skip(cut) =~= s.skip(last.1 as int));
        let a = splice(s.take(last.0 as int), spans.drop_last(), texts.drop_last());
        assert(a + texts.last() + s.skip(last.1 as int) =~= a + texts.last() + s.take(cut).skip(
            last.1 as int,
        ) + s.skip(cut));
    }
}

/// Writing values with ordered, non-empty spans one after the other, from
/// position 0 and an empty output, is allowed at every step (the position
/// never passes the next span) and ends at the last span with an output
/// that, followed by the rest of the source, is the source with each span
/// replaced by the text written for it.
pub proof fn lemma_writes_splice_source(source: Seq<u8>, spans: Seq<Span>, texts: Seq<Seq<u8>>)
    requires
        texts.len() == spans.len(),
        ordered_spans(spans, source.len() as int),
    ensures
        write_steps(source, spans, texts).1 == end_of_spans(spans),
        write_steps(source, spans, texts).0 == splice(
            source.take(end_of_spans(spans)),
            spans,
            texts,
        ),
        write_steps(source, spans, texts).0 + source.skip(write_steps(source, spans, texts).1)
            == splice(source, spans, texts),
        forall|k: int|
            0 <= k < spans.len() ==> write_steps(source, spans.take(k), texts.take(k)).1 <= (
            #[trigger] spans[k]).0,
    decreases spans.len(),
{
    let n = spans.len() as int;
    if n == 0 {
        assert(source.take(0) =~= Seq::<u8>::empty());
        assert(Seq::<u8>::empty() + source.skip(0) =~= source);
    } else {
        let last = spans.last();
        let c = last.0 as int;
        let d = spans.drop_last();
        let dt = texts.drop_last();
        assert(last == spans[n - 1]);
        lemma_ordered_drop_last(spans, source.len() as int, c);
        assert(ordered_spans(d, source.len() as int)) by {
            assert forall|k: int| 0 <= k < d.len() implies (#[trigger] d[k]).0 < d[k].1 <= source.len() by {
                assert(d[k] == spans[k]);
            }
        }
        lemma_writes_splice_source(source, d, dt);
        let (r, p) = write_steps(source, d, dt);
        // r == splice(source.take(p), d, dt), p <= c
        lemma_splice_prefix(source.take(c), d, dt, p);
        assert(source.take(c).take(p) =~= source.take(p));
        assert(source.take(c).skip(p) =~= source.subrange(p, c));
        let e = last.1 as int;
        assert(source.take(e).take(c) =~= source.take(c));
        assert(source.take(e).skip(e) =~= Seq::<u8>::empty());
        assert(splice(source.take(e), spans, texts) =~= splice(source.take(c), d, dt) + texts.last());
        lemma_splice_prefix(source, spans, texts, e);
        assert forall|k: int| 0 <= k < n implies write_steps(source, spans.take(k), texts.take(k)).1
            <= (#[trigger] spans[k]).0 by {
            if k < n - 1 {
                assert(spans.take(k) =~= d.take(k));
                assert(texts.take(k) =~= dt.take(k));
                assert(d[k] == spans[k]);
            } else {
                assert(spans.take(k) =~= d);
                assert(texts.take(k) =~= dt);
            }
        }
    }
}

/// Writing every value back with its own source text reproduces the source:
/// splicing each span with the bytes it already holds changes nothing.
pub proof fn lemma_unchanged_writes_reproduce_source(
    source: Seq<u8>,
    spans: Seq<Span>,
    texts: Seq<Seq<u8>>,
)
    requires
        texts.len() == spans.len(),
        ordered_spans(spans, source.len() as int),
        forall|k: int|
            0 <= k < spans.len() ==> #[trigger] texts[k] == source.subrange(
                spans[k].0 as int,
                spans[k].1 as int,
            ),
    ensures
        splice(source, spans, texts) == source,
    decreases spans.len(),
{
    let n = spans.len() as int;
    if n > 0 {
        let last = spans.last();
        let c = last.0 as int;
        let d = spans.drop_last();
        let dt = texts.drop_last();
        let t = source.take(c);
        assert(last == spans[n - 1]);
        assert(texts.last() == texts[n - 1]);
        lemma_ordered_drop_last(spans, source.len() as int, c);
        assert forall|k: int| 0 <= k < d.len() implies #[trigger] dt[k] == t.subrange(
            d[k].0 as int,
            d[k].1 as int,
        ) by {
            assert(d[k] == spans[k] && dt[k] == texts[k]);
            assert(spans[k].1 <= spans[n - 1].0);
            assert(t.subrange(d[k].0 as int, d[k].1 as int) =~= source.subrange(
                spans[k].0 as int,
                spans[k].1 as int,
            ));
        }
        lemma_unchanged_writes_reproduce_source(t, d, dt);
        assert(t + texts.last() + source.skip(last.1 as int) =~= source);
    }
}

/// The index of the first `E` in `s`, or its length when it holds none.
pub open spec fn first_e(s: Seq<u8>, i: int) -> int
    decreases s.len() - i,
{
    if i < 0 || i >= s.len() {
        s.len() as int
    } else if s[i] == 0x45 {
        i
    } else {
        first_e(s, i + 1)
    }
}

/// Scientific notation with its exponent written with at least two digits
/// and with a sign: `3.21543E-8` becomes `3.21543E-08` and `1.00000E0`
/// becomes `1.00000E+00`. Text without an `E`, or whose exponent already has
/// two digits or more, is kept as it is.
pub open spec fn padded_exponent(s: Seq<u8>) -> Seq<u8> {
    let e = first_e(s, 0);
    if e >= s.len() {
        s
    } else {
        let mantissa = s.subrange(0, e + 1);
        let rest = s.subrange(e + 1, s.len() as int);
        let signed = rest.len() > 0 && (rest[0] == 0x2b || rest[0] == 0x2d);
        let sign = if signed {
            rest.subrange(0, 1)
        } else {
            seq![0x2bu8]
        };
        let digits = if signed {
            rest.subrange(1, rest.len() as int)
        } else {
            rest
        };
        if digits.len() < 2 {
            mantissa + sign + seq![0x30u8] + digits
        } else {
            s
        }
    }
}

/// A zero written before digits does not change the number they denote.
pub proof fn lemma_leading_zero_keeps_value(d: Seq<u8>)
    ensures
        decimal_value(seq![0x30u8] + d) == decimal_value(d),
    decreases d.len(),
{
    let z = seq![0x30u8] + d;
    if d.len() == 0 {
        assert(z.drop_last() =~= Seq::<u8>::empty());
        assert(decimal_value(Seq::<u8>::empty()) == 0);
    } else {
        assert(z.drop_last() =~= seq![0x30u8] + d.drop_last());
        assert(z.last() == d.last());
        lemma_leading_zero_keeps_value(d.drop_last());
    }
}

/// Padding keeps what the text says: the mantissa and the `E` are kept, the
/// exponent's sign is kept (or `+` is supplied), and a short exponent is
/// written with one more digit that denotes the same number. Text without an
/// `E`, or with an exponent of two digits or more, is kept as it is.
pub proof fn lemma_padding_keeps_exponent(text: Seq<u8>)
    ensures
        ({
            let e = first_e(text, 0);
            let out = padded_exponent(text);
            &&& e >= text.len() ==> out == text
            &&& e < text.len() ==> {
                let rest = text.skip(e + 1);
                let signed = rest.len() > 0 && is_sign(rest[0]);
                let digits = if signed {
                    rest.skip(1)
                } else {
                    rest
                };
                &&& out.take(e + 1) == text.take(e + 1)
                &&& digits.len() >= 2 ==> out == text
                &&& digits.len() < 2 ==> {
                    &&& out.len() == e + 3 + digits.len()
                    &&& out[e + 1] == (if signed {
                        rest[0]
                    } else {
                        0x2bu8
                    })
                    &&& decimal_value(out.skip(e + 2)) == decimal_value(digits)
                    &&& out.skip(e + 2)[0] == 0x30
                }
            }
        }),
{
    let e = first_e(text, 0);
    lemma_first_e_bounds(text, 0);
    if e < text.len() {
        let rest = text.skip(e + 1);
        let signed = rest.len() > 0 && is_sign(rest[0]);
        let digits = if signed {
            rest.skip(1)
        } else {
            rest
        };
        let out = padded_exponent(text);
        assert(text.subrange(0, e + 1) =~= text.take(e + 1));
        assert(rest =~= text.subrange(e + 1, text.len() as int));
        if signed {
            assert(digits =~= rest.subrange(1, rest.len() as int));
        }
        if digits.len() < 2 {
            let sign = if signed {
                rest.subrange(0, 1)
            } else {
                seq![0x2bu8]
            };
            assert(out == text.take(e + 1) + sign + seq![0x30u8] + digits);
            assert(out.take(e + 1) =~= text.take(e + 1));
            assert(out.skip(e + 2) =~= seq![0x30u8] + digits);
            lemma_leading_zero_keeps_value(digits);
        }
    }
}

/// Where the first `E` search stops: at the end or at an `E` at or after `i`.
proof fn lemma_first_e_bounds(s: Seq<u8>, i: int)
    requires
        0 <= i,
    ensures
        i <= first_e(s, i) <= s.len() || first_e(s, i) == s.len(),
        first_e(s, i) < s.len() ==> s[first_e(s, i)] == 0x45,
        first_e(s, i) >= 0,
    decreases s.len() - i,
{
    if i < s.len() && s[i] != 0x45 {
        lemma_first_e_bounds(s, i + 1);
    }
}

/// Appends `src[from..to]` to `out`.
fn push_range(out: &mut Vec<u8>, src: &[u8], from: usize, to: usize)
    requires
        from <= to <= src@.len(),
    ensures
        final(out)@ == old(out)@ + src@.subrange(from as int, to as int),
{
    let mut i = from;
    while i < to
        invariant
            from <= i <= to <= src@.len(),
            out@ == old(out)@ + src@.subrange(from as int, i as int),
        decreases to - i,
    {
        out.push(src[i]);
        i = i + 1;
        assert(out@ =~= old(out)@ + src@.subrange(from as int, i as int));
    }
}

/// Pads the exponent of a number in scientific notation (`3.21543E-8`) to
/// the two digits that MCNP input expects (`3.21543E-08`).
pub fn pad_sci_exponent(text: &[u8]) -> (padded: Vec<u8>)
    ensures
        padded@ == padded_exponent(text@),
{
    let mut e: usize = 0;
    while e < text.len() && text[e] != 0x45
        invariant
            e <= text@.len(),
            first_e(text@, e as int) == first_e(text@, 0),
        decreases text@.len() - e,
    {
        e = e + 1;
    }
    let mut out: Vec<u8> = Vec::new();
    if e >= text.len() {
        push_range(&mut out, text, 0, text.len());
        assert(out@ =~= text@);
        return out;
    }
    let rest_start = e + 1;
    let signed = rest_start < text.len() && (text[rest_start] == 0x2b || text[rest_start]
        == 0x2d);
    let digits_start = if signed {
        rest_start + 1
    } else {
        rest_start
    };
    if text.len() - digits_start < 2 {
        push_range(&mut out, text, 0, rest_start);
        if signed {
            out.push(text[rest_start]);
        } else {
            out.push(0x2b);
        }
        out.push(0x30);
        push_range(&mut out, text, digits_start, text.len());
        proof {
            let s = text@;
            let rest = s.subrange(rest_start as int, s.len() as int);
            if signed {
                assert(rest.subrange(0, 1) =~= seq![s[rest_start as int]]);
                assert(rest.subrange(1, rest.len() as int) =~= s.subrange(
                    digits_start as int,
                    s.len() as int,
                ));
            } else {
                assert(rest =~= s.subrange(digits_start as int, s.len() as int));
            }
            assert(out@ =~= padded_exponent(s));
        }
    } else {
        push_range(&mut out, text, 0, text.len());
        assert(out@ =~= text@);
    }
    out
}

} // verus!
