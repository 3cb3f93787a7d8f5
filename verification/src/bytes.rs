//! Little endian numbers in byte sequences.

use vstd::prelude::*;

verus! {

/// The `width` low bytes of a number, least significant first.
pub open spec fn le_bytes(n: nat, width: nat) -> Seq<u8>
    decreases width,
{
    if width == 0 {
        Seq::empty()
    } else {
        seq![(n % 256) as u8] + le_bytes(n / 256, (width - 1) as nat)
    }
}

/// The number that bytes write, least significant first.
pub open spec fn le_value(s: Seq<u8>) -> nat
    decreases s.len(),
{
    if s.len() == 0 {
        0
    } else {
        s[0] as nat + 256 * le_value(s.skip(1))
    }
}

/// How many numbers fit in `width` bytes.
pub open spec fn span(width: nat) -> nat
    decreases width,
{
    if width == 0 {
        1
    } else {
        256 * span((width - 1) as nat)
    }
}

/// The spans of the widths in use.
pub proof fn lemma_spans()
    ensures
        span(0) == 1,
        span(1) == 0x100,
        span(2) == 0x1_0000,
        span(4) == 0x1_0000_0000,
        span(8) == 0x1_0000_0000_0000_0000,
{
    reveal_with_fuel(span, 9);
}

/// `le_bytes` gives as many bytes as asked for.
pub proof fn lemma_le_bytes_len(n: nat, width: nat)
    ensures
        le_bytes(n, width).len() == width,
    decreases width,
{
    if width > 0 {
        lemma_le_bytes_len(n / 256, (width - 1) as nat);
    }
}

/// A number that fits reads back from its bytes.
pub proof fn law_le_round_trip(n: nat, width: nat)
    requires
        n < span(width),
    ensures
        le_bytes(n, width).len() == width,
        le_value(le_bytes(n, width)) == n,
    decreases width,
{
    lemma_le_bytes_len(n, width);
    if width > 0 {
        law_le_round_trip(n / 256, (width - 1) as nat);
        assert(le_bytes(n, width).skip(1) =~= le_bytes(n / 256, (width - 1) as nat));
    }
}

/// Bytes are what the number they write is written as, and the number fits.
pub proof fn law_le_bytes_of_value(s: Seq<u8>)
    ensures
        le_value(s) < span(s.len()),
        le_bytes(le_value(s), s.len()) == s,
    decreases s.len(),
{
    if s.len() > 0 {
        law_le_bytes_of_value(s.skip(1));
        assert(le_value(s) / 256 == le_value(s.skip(1)));
        assert(le_bytes(le_value(s), s.len()) =~= seq![s[0]] + s.skip(1));
        assert(seq![s[0]] + s.skip(1) =~= s);
    } else {
        assert(le_bytes(le_value(s), s.len()) =~= s);
    }
}

/// Appends the `width` low bytes of a number, least significant first.
pub fn push_le(out: &mut Vec<u8>, n: u64, width: u32)
    ensures
        final(out)@ == old(out)@ + le_bytes(n as nat, width as nat),
    decreases width,
{
    if width > 0 {
        out.push((n % 256) as u8);
        push_le(out, n / 256, width - 1);
        assert(out@ =~= old(out)@ + le_bytes(n as nat, width as nat));
    } else {
        assert(out@ =~= old(out)@ + le_bytes(n as nat, width as nat));
    }
}

/// The number that at most eight bytes write, least significant first.
pub fn read_le(s: &[u8]) -> (n: u64)
    requires
        s@.len() <= 8,
    ensures
        n == le_value(s@),
    decreases s@.len(),
{
    if s.len() == 0 {
        0
    } else {
        let rest = vstd::slice::slice_subrange(s, 1, s.len());
        assert(rest@ =~= s@.skip(1));
        let high: u64 = read_le(rest);
        proof {
            law_le_bytes_of_value(s@);
            reveal_with_fuel(span, 9);
        }
        s[0] as u64 + 256 * high
    }
}

/// The number that four bytes write.
pub fn read_le32(s: &[u8]) -> (n: u32)
    requires
        s@.len() == 4,
    ensures
        n == le_value(s@),
{
    proof {
        law_le_bytes_of_value(s@);
        lemma_spans();
    }
    read_le(s) as u32
}

/// Appends bytes.
pub fn extend(out: &mut Vec<u8>, tail: &[u8])
    ensures
        final(out)@ == old(out)@ + tail@,
{
    out.extend_from_slice(tail);
    assert(out@ =~= old(out)@ + tail@);
}

/// The byte in each place counts by the power of 256 of its place.
pub proof fn law_bytes_count_by_their_place(s: Seq<u8>, i: nat)
    requires
        i < s.len(),
    ensures
        (le_value(s) / span(i)) % 256 == s[i as int],
        span(0) == 1,
        span(i + 1) == 256 * span(i),
    decreases i,
{
    let rest = le_value(s.skip(1));
    lemma_span_pos(i);
    if i == 0 {
        assert(le_value(s) as int / 1 == le_value(s));
        assert((s[0] as int + 256 * rest) % 256 == s[0]);
    } else {
        let k = (i - 1) as nat;
        law_bytes_count_by_their_place(s.skip(1), k);
        lemma_span_pos(k);
        vstd::arithmetic::div_mod::lemma_div_denominator(
            le_value(s) as int,
            256,
            span(k) as int,
        );
        assert((s[0] as int + 256 * rest) / 256 == rest);
        assert(s.skip(1)[k as int] == s[i as int]);
    }
}

proof fn lemma_span_pos(width: nat)
    ensures
        span(width) > 0,
    decreases width,
{
    if width > 0 {
        lemma_span_pos((width - 1) as nat);
    }
}

} // verus!
