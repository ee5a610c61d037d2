use vstd::prelude::*;

verus! {

/// The decimal digits of `n`, most significant first, with no leading zero
/// (`0` is written as a single `0`).
pub open spec fn unsigned_text(n: nat) -> Seq<u8>
    decreases n,
{
    if n < 10 {
        seq![(0x30 + n) as u8]
    } else {
        unsigned_text(n / 10).push((0x30 + n % 10) as u8)
    }
}

/// The decimal text of `v`: a `-` before the digits of its magnitude when it
/// is negative.
pub open spec fn signed_text(v: int) -> Seq<u8> {
    if v < 0 {
        seq![0x2du8] + unsigned_text((-v) as nat)
    } else {
        unsigned_text(v as nat)
    }
}

/// A value that can be written out as text.
pub trait DisplayBytes {
    /// The bytes that writing the value appends.
    spec fn display_bytes(&self) -> Seq<u8>;

    /// Appends the text of the value to `buf`.
    fn write_display(&self, buf: &mut Vec<u8>)
        ensures
            final(buf)@ == old(buf)@ + self.display_bytes(),
    ;
}

/// Appends the decimal digits of `n` to `buf`.
fn push_unsigned_text(n: u64, buf: &mut Vec<u8>)
    ensures
        final(buf)@ == old(buf)@ + unsigned_text(n as nat),
    decreases n,
{
    let ghost start = buf@;
    if n >= 10 {
        push_unsigned_text(n / 10, buf);
    }
    let digit = (0x30 + n % 10) as u8;
    buf.push(digit);
    assert(buf@ =~= start + unsigned_text(n as nat));
}

impl DisplayBytes for u32 {
    open spec fn display_bytes(&self) -> Seq<u8> {
        unsigned_text(*self as nat)
    }

    fn write_display(&self, buf: &mut Vec<u8>) {
        push_unsigned_text(*self as u64, buf);
    }
}

impl DisplayBytes for i32 {
    open spec fn display_bytes(&self) -> Seq<u8> {
        signed_text(*self as int)
    }

    fn write_display(&self, buf: &mut Vec<u8>) {
        if *self < 0 {
            let ghost start = buf@;
            buf.push(0x2d);
            let magnitude = (0 - (*self as i64)) as u64;
            push_unsigned_text(magnitude, buf);
            assert(buf@ =~= start + signed_text(*self as int));
        } else {
            push_unsigned_text(*self as u64, buf);
        }
    }
}

} // verus!
