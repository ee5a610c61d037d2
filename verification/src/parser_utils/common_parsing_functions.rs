use vstd::prelude::*;

use crate::parser_utils::character_class::{is_blank, is_blank_byte};

verus! {

/// `i` is the first byte of a line of `s`.
pub open spec fn at_line_start(s: Seq<u8>, i: int) -> bool {
    i == 0 || (0 < i <= s.len() && s[i - 1] == 0x0a)
}

/// A comment opens at byte `i`: either a `$`, which comments out the rest of
/// its line, or a `c`/`C` at the start of a line followed by a blank or by
/// the end of the input, which makes the whole line a comment.
pub open spec fn opens_comment(s: Seq<u8>, i: int) -> bool {
    &&& 0 <= i < s.len()
    &&& (s[i] == 0x24 || (at_line_start(s, i) && (s[i] == 0x63 || s[i] == 0x43) && (i + 1
        == s.len() || is_blank(s[i + 1]))))
}

/// Where skipping blanks and comments that starts at `i` stops; `in_comment`
/// tells whether `i` lies inside a comment, which runs to the end of its line.
pub open spec fn skip_from(s: Seq<u8>, i: int, in_comment: bool) -> int
    decreases s.len() - i,
{
    if i < 0 || i >= s.len() {
        i
    } else if in_comment {
        skip_from(s, i + 1, s[i] != 0x0a)
    } else if is_blank(s[i]) {
        skip_from(s, i + 1, false)
    } else if opens_comment(s, i) {
        skip_from(s, i + 1, true)
    } else {
        i
    }
}

/// The position of the first byte at or after `i` that is neither a blank
/// nor part of a comment (or the end of `s`).
pub open spec fn skipped(s: Seq<u8>, i: int) -> int {
    skip_from(s, i, false)
}

/// Tests whether a comment opens at `i`.
pub fn opens_comment_at(bytes: &[u8], i: usize) -> (r: bool)
    requires
        i < bytes@.len(),
    ensures
        r == opens_comment(bytes@, i as int),
{
    if bytes[i] == 0x24 {
        return true;
    }
    let line_start = i == 0 || bytes[i - 1] == 0x0a;
    let letter = bytes[i] == 0x63 || bytes[i] == 0x43;
    let followed = i + 1 == bytes.len() || is_blank_byte(bytes[i + 1]);
    line_start && letter && followed
}

/// Advances `pos` past blanks and comments.
pub fn skip_whitespace(bytes: &[u8], pos: &mut usize)
    ensures
        *final(pos) == skipped(bytes@, *old(pos) as int),
{
    let mut in_comment = false;
    while *pos < bytes.len()
        invariant
            skip_from(bytes@, *pos as int, in_comment) == skipped(bytes@, *old(pos) as int),
        decreases bytes@.len() - *pos,
    {
        let b = bytes[*pos];
        if in_comment {
            in_comment = b != 0x0a;
        } else if is_blank_byte(b) {
        } else if opens_comment_at(bytes, *pos) {
            in_comment = true;
        } else {
            return;
        }
        *pos = *pos + 1;
    }
}

/// Skipping twice stops where skipping once does.
pub proof fn lemma_skip_idempotent(s: Seq<u8>, i: int)
    ensures
        skipped(s, skipped(s, i)) == skipped(s, i),
{
    lemma_skip_from_stops(s, i, false);
}

/// Skipping stops at the end of the input or at a byte that is neither a
/// blank nor opens a comment.
pub proof fn lemma_skip_from_stops(s: Seq<u8>, i: int, in_comment: bool)
    ensures
        ({
            let j = skip_from(s, i, in_comment);
            &&& i < 0 ==> j == i
            &&& 0 <= i ==> i <= j
            &&& j >= s.len() || j < 0 || (!is_blank(s[j]) && !opens_comment(s, j))
            &&& 0 <= i <= s.len() ==> j <= s.len()
        }),
    decreases s.len() - i,
{
    if 0 <= i < s.len() {
        if in_comment {
            lemma_skip_from_stops(s, i + 1, s[i] != 0x0a);
        } else if is_blank(s[i]) {
            lemma_skip_from_stops(s, i + 1, false);
        } else if opens_comment(s, i) {
            lemma_skip_from_stops(s, i + 1, true);
        }
    }
}

} // verus!
