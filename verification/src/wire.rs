//! Little-endian integers of 1 to 8 bytes.

use vstd::prelude::*;

verus! {

/// The number of values that `width` bytes can hold: 256 to the power `width`.
pub open spec fn limit(width: nat) -> nat
    decreases width,
{
    if width == 0 {
        1
    } else {
        256 * limit((width - 1) as nat)
    }
}

/// The `width` low bytes of `value`, least significant first.
pub open spec fn le_bytes(value: nat, width: nat) -> Seq<u8>
    decreases width,
{
    if width == 0 {
        Seq::empty()
    } else {
        seq![(value % 256) as u8] + le_bytes(value / 256, (width - 1) as nat)
    }
}

/// The number that the bytes spell, least significant first.
pub open spec fn le_value(bytes: Seq<u8>) -> nat
    decreases bytes.len(),
{
    if bytes.len() == 0 {
        0
    } else {
        bytes[0] as nat + 256 * le_value(bytes.drop_first())
    }
}

/// The limits of the widths in use.
pub proof fn lemma_limits()
    ensures
        limit(0) == 1,
        limit(1) == 0x100,
        limit(2) == 0x1_0000,
        limit(3) == 0x100_0000,
        limit(4) == 0x1_0000_0000,
        limit(5) == 0x100_0000_0000,
        limit(6) == 0x1_0000_0000_0000,
        limit(7) == 0x100_0000_0000_0000,
        limit(8) == 0x1_0000_0000_0000_0000,
{
    reveal_with_fuel(limit, 10);
}

/// `le_bytes` gives `width` bytes.
pub proof fn lemma_le_bytes_len(value: nat, width: nat)
    ensures
        le_bytes(value, width).len() == width,
    decreases width,
{
    if width > 0 {
        lemma_le_bytes_len(value / 256, (width - 1) as nat);
    }
}

/// A value that fits in `width` bytes is read back from its bytes.
pub proof fn lemma_le_round_trip(value: nat, width: nat)
    requires
        value < limit(width),
    ensures
        le_value(le_bytes(value, width)) == value,
    decreases width,
{
    if width > 0 {
        let rest = (width - 1) as nat;
        assert(value / 256 < limit(rest)) by (nonlinear_arith)
            requires
                value < 256 * limit(rest),
        ;
        lemma_le_round_trip(value / 256, rest);
        let bytes = le_bytes(value, width);
        assert(bytes.drop_first() =~= le_bytes(value / 256, rest));
        assert(bytes[0] == (value % 256) as u8);
        assert(value == value % 256 + 256 * (value / 256)) by (nonlinear_arith);
    }
}

/// What bytes spell fits in as many bytes.
pub proof fn lemma_le_value_bound(bytes: Seq<u8>)
    ensures
        le_value(bytes) < limit(bytes.len()),
    decreases bytes.len(),
{
    if bytes.len() > 0 {
        lemma_le_value_bound(bytes.drop_first());
        let rest = le_value(bytes.drop_first());
        let cap = limit((bytes.len() - 1) as nat);
        assert(bytes[0] as nat + 256 * rest < 256 * cap) by (nonlinear_arith)
            requires
                rest < cap,
                bytes[0] as nat <= 255,
        ;
    }
}

/// Different bytes spell different numbers: byte strings of one length
/// that spell the same number are the same.
pub proof fn lemma_le_value_injective(a: Seq<u8>, b: Seq<u8>)
    requires
        a.len() == b.len(),
        le_value(a) == le_value(b),
    ensures
        a == b,
    decreases a.len(),
{
    if a.len() > 0 {
        let rest_a = le_value(a.drop_first());
        let rest_b = le_value(b.drop_first());
        assert(a[0] == b[0] && rest_a == rest_b) by (nonlinear_arith)
            requires
                a[0] as nat + 256 * rest_a == b[0] as nat + 256 * rest_b,
                a[0] as nat <= 255,
                b[0] as nat <= 255,
        ;
        lemma_le_value_injective(a.drop_first(), b.drop_first());
        assert(a =~= seq![a[0]] + a.drop_first());
        assert(b =~= seq![b[0]] + b.drop_first());
    }
    assert(a =~= b);
}

/// Appends the `width` low bytes of `value`, least significant first.
pub fn put_le(out: &mut Vec<u8>, value: u64, width: usize)
    requires
        width <= 8,
    ensures
        final(out)@ == old(out)@ + le_bytes(value as nat, width as nat),
{
    let mut rest: u64 = value;
    let mut i: usize = 0;
    assert(out@ + le_bytes(rest as nat, width as nat) =~= old(out)@ + le_bytes(
        value as nat,
        width as nat,
    ));
    while i < width
        invariant
            i <= width,
            out@ + le_bytes(rest as nat, (width - i) as nat) == old(out)@ + le_bytes(
                value as nat,
                width as nat,
            ),
        decreases width - i,
    {
        let ghost before = out@;
        out.push((rest % 256) as u8);
        assert(before + le_bytes(rest as nat, (width - i) as nat) =~= out@ + le_bytes(
            (rest / 256) as nat,
            (width - i - 1) as nat,
        ));
        rest = rest / 256;
        i += 1;
    }
    assert(out@ + le_bytes(rest as nat, 0) =~= out@);
}

/// Reads `width` bytes at `start` as a number, least significant first.
pub fn get_le(bytes: &[u8], start: usize, width: usize) -> (value: u64)
    requires
        width <= 8,
        start + width <= bytes.len(),
    ensures
        value == le_value(bytes@.subrange(start as int, start + width)),
{
    let mut value: u64 = 0;
    let mut k: usize = width;
    assert(bytes@.subrange(start + width, start + width) =~= Seq::<u8>::empty());
    while k > 0
        invariant
            k <= width <= 8,
            start + width <= bytes.len(),
            value == le_value(bytes@.subrange(start + k, start + width)),
        decreases k,
    {
        proof {
            let tail = bytes@.subrange(start + k, start + width);
            let next = bytes@.subrange(start + k - 1, start + width);
            lemma_le_value_bound(tail);
            lemma_le_value_bound(next);
            lemma_limits();
            assert(next.drop_first() =~= tail);
            assert(next[0] == bytes@[start + k - 1]);
            assert(limit(next.len()) <= limit(8)) by {
                reveal_with_fuel(limit, 10);
            }
        }
        k -= 1;
        value = value * 256 + bytes[start + k] as u64;
    }
    value
}

/// Whether `value` fits in `width` bytes.
pub fn fits_width(value: u64, width: usize) -> (r: bool)
    requires
        width == 1 || width == 2 || width == 4 || width == 8,
    ensures
        r == (value < limit(width as nat)),
{
    proof {
        lemma_limits();
    }
    if width == 1 {
        value < 0x100
    } else if width == 2 {
        value < 0x1_0000
    } else if width == 4 {
        value < 0x1_0000_0000
    } else {
        true
    }
}

} // verus!
