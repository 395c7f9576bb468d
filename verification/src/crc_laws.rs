//! What holds of the checksum: two streams of one length that differ in one
//! byte or in two neighbouring bytes never have the same checksum.

use crate::crc::{crc_shift_bit, crc_shift_byte, spec_crc_update};
use crate::radix::differ_within;
use vstd::prelude::*;

verus! {

/// The registers `a` and `b` differ in one of their `n` lowest bits.
pub open spec fn differ_low(a: u32, b: u32, n: u32) -> bool {
    (a ^ b) & !(0xffff_ffffu32 << n) != 0
}

/// How far up the lowest difference of two registers can stand after one
/// more bit, where it stood below `n` before (`n` being 0 where the
/// registers were equal) and `differ` says whether the two bits differ.
pub open spec fn reach_after(n: u32, differ: bool) -> u32 {
    if n == 0 && !differ {
        0
    } else {
        (n + 1) as u32
    }
}

/// Two registers are equal in their 20 bits (`n` is 0), or differ in one of
/// their `n` lowest bits.
#[verifier::opaque]
pub open spec fn apart(a: u32, b: u32, n: u32) -> bool {
    if n == 0 {
        a & 0xfffff == b & 0xfffff
    } else {
        differ_low(a, b, n)
    }
}

/// One bit into each of two registers: equal registers stay equal under
/// equal bits and come to differ in their lowest bit under different bits;
/// the lowest difference of two registers moves up by at most one place.
pub proof fn lemma_shift_bit_apart(a: u32, b: u32, n: u32, p: bool, q: bool)
    requires
        n <= 19,
        apart(a, b, n),
    ensures
        apart(crc_shift_bit(a, p), crc_shift_bit(b, q), reach_after(n, p != q)),
{
    reveal(apart);
    if n == 0 {
        if p == q {
            assert(a & 0xfffff == b & 0xfffff ==> crc_shift_bit(a, p) & 0xfffff == crc_shift_bit(
                b,
                p,
            ) & 0xfffff) by (bit_vector);
        } else {
            assert(a & 0xfffff == b & 0xfffff && p != q ==> (crc_shift_bit(a, p) ^ crc_shift_bit(
                b,
                q,
            )) & !(0xffff_ffffu32 << 1u32) != 0) by (bit_vector);
        }
    } else {
        assert(1 <= n <= 19 && (a ^ b) & !(0xffff_ffffu32 << n) != 0 ==> (crc_shift_bit(a, p)
            ^ crc_shift_bit(b, q)) & !(0xffff_ffffu32 << ((n + 1) as u32)) != 0) by (bit_vector);
    }
}

/// `reach_after`, for the eight bits of a byte in each register.
pub open spec fn reach_after_byte(n: u32, x: u8, y: u8) -> u32 {
    let n7 = reach_after(n, (x & 0x80 != 0) != (y & 0x80 != 0));
    let n6 = reach_after(n7, (x & 0x40 != 0) != (y & 0x40 != 0));
    let n5 = reach_after(n6, (x & 0x20 != 0) != (y & 0x20 != 0));
    let n4 = reach_after(n5, (x & 0x10 != 0) != (y & 0x10 != 0));
    let n3 = reach_after(n4, (x & 0x08 != 0) != (y & 0x08 != 0));
    let n2 = reach_after(n3, (x & 0x04 != 0) != (y & 0x04 != 0));
    let n1 = reach_after(n2, (x & 0x02 != 0) != (y & 0x02 != 0));
    reach_after(n1, (x & 0x01 != 0) != (y & 0x01 != 0))
}

/// One byte into each of two registers: equal registers stay equal under
/// equal bytes and come to differ in one of their 8 lowest bits under
/// different bytes; the lowest difference of two registers moves up by at
/// most 8 places.
pub proof fn lemma_shift_byte_apart(a: u32, b: u32, n: u32, x: u8, y: u8)
    requires
        n <= 12,
        apart(a, b, n),
    ensures
        apart(crc_shift_byte(a, x), crc_shift_byte(b, y), reach_after_byte(n, x, y)),
{
    let d7 = (x & 0x80 != 0) != (y & 0x80 != 0);
    let d6 = (x & 0x40 != 0) != (y & 0x40 != 0);
    let d5 = (x & 0x20 != 0) != (y & 0x20 != 0);
    let d4 = (x & 0x10 != 0) != (y & 0x10 != 0);
    let d3 = (x & 0x08 != 0) != (y & 0x08 != 0);
    let d2 = (x & 0x04 != 0) != (y & 0x04 != 0);
    let d1 = (x & 0x02 != 0) != (y & 0x02 != 0);
    let n7 = reach_after(n, d7);
    let n6 = reach_after(n7, d6);
    let n5 = reach_after(n6, d5);
    let n4 = reach_after(n5, d4);
    let n3 = reach_after(n4, d3);
    let n2 = reach_after(n3, d2);
    let n1 = reach_after(n2, d1);
    let a7 = crc_shift_bit(a, x & 0x80 != 0);
    let b7 = crc_shift_bit(b, y & 0x80 != 0);
    lemma_shift_bit_apart(a, b, n, x & 0x80 != 0, y & 0x80 != 0);
    let a6 = crc_shift_bit(a7, x & 0x40 != 0);
    let b6 = crc_shift_bit(b7, y & 0x40 != 0);
    lemma_shift_bit_apart(a7, b7, n7, x & 0x40 != 0, y & 0x40 != 0);
    let a5 = crc_shift_bit(a6, x & 0x20 != 0);
    let b5 = crc_shift_bit(b6, y & 0x20 != 0);
    lemma_shift_bit_apart(a6, b6, n6, x & 0x20 != 0, y & 0x20 != 0);
    let a4 = crc_shift_bit(a5, x & 0x10 != 0);
    let b4 = crc_shift_bit(b5, y & 0x10 != 0);
    lemma_shift_bit_apart(a5, b5, n5, x & 0x10 != 0, y & 0x10 != 0);
    let a3 = crc_shift_bit(a4, x & 0x08 != 0);
    let b3 = crc_shift_bit(b4, y & 0x08 != 0);
    lemma_shift_bit_apart(a4, b4, n4, x & 0x08 != 0, y & 0x08 != 0);
    let a2 = crc_shift_bit(a3, x & 0x04 != 0);
    let b2 = crc_shift_bit(b3, y & 0x04 != 0);
    lemma_shift_bit_apart(a3, b3, n3, x & 0x04 != 0, y & 0x04 != 0);
    let a1 = crc_shift_bit(a2, x & 0x02 != 0);
    let b1 = crc_shift_bit(b2, y & 0x02 != 0);
    lemma_shift_bit_apart(a2, b2, n2, x & 0x02 != 0, y & 0x02 != 0);
    lemma_shift_bit_apart(a1, b1, n1, x & 0x01 != 0, y & 0x01 != 0);
}

/// Where the lowest difference can stand after a byte: 8 places further up;
/// nowhere where equal registers took equal bytes; below the eighth place
/// where equal registers took different bytes.
pub proof fn lemma_reach_after_byte(n: u32, x: u8, y: u8)
    requires
        n <= 12,
    ensures
        n >= 1 ==> reach_after_byte(n, x, y) == n + 8,
        n == 0 && x == y ==> reach_after_byte(n, x, y) == 0,
        n == 0 && x != y ==> 1 <= reach_after_byte(n, x, y) <= 8,
{
    assert(x != y ==> (((x & 0x80 != 0) != (y & 0x80 != 0)) || ((x & 0x40 != 0) != (y & 0x40
        != 0)) || ((x & 0x20 != 0) != (y & 0x20 != 0)) || ((x & 0x10 != 0) != (y & 0x10 != 0)) || ((
    x & 0x08 != 0) != (y & 0x08 != 0)) || ((x & 0x04 != 0) != (y & 0x04 != 0)) || ((x & 0x02 != 0)
        != (y & 0x02 != 0)) || ((x & 0x01 != 0) != (y & 0x01 != 0)))) by (bit_vector);
}

/// A difference in one of the `n` lowest bits is a difference in one of the
/// `m` lowest, where `m` is not less than `n`, and so a difference of the
/// 20-bit registers.
pub proof fn lemma_apart_widens(a: u32, b: u32, n: u32, m: u32)
    requires
        1 <= n <= m <= 20,
        apart(a, b, n),
    ensures
        apart(a, b, m),
        a & 0xfffff != b & 0xfffff,
{
    reveal(apart);
    assert(n <= m <= 20 && (a ^ b) & !(0xffff_ffffu32 << n) != 0 ==> (a ^ b) & !(0xffff_ffffu32
        << m) != 0 && a & 0xfffff != b & 0xfffff) by (bit_vector);
}

/// One bit into each of two different registers, the same for both, leaves
/// them different.
pub proof fn lemma_shift_bit_injective(a: u32, b: u32, p: bool)
    requires
        a & 0xfffff != b & 0xfffff,
    ensures
        crc_shift_bit(a, p) & 0xfffff != crc_shift_bit(b, p) & 0xfffff,
{
    assert(a & 0xfffff != b & 0xfffff ==> crc_shift_bit(a, p) & 0xfffff != crc_shift_bit(b, p)
        & 0xfffff) by (bit_vector);
}

/// One byte into each of two different registers, the same for both, leaves
/// them different.
pub proof fn lemma_shift_byte_injective(a: u32, b: u32, x: u8)
    requires
        a & 0xfffff != b & 0xfffff,
    ensures
        crc_shift_byte(a, x) & 0xfffff != crc_shift_byte(b, x) & 0xfffff,
{
    let a7 = crc_shift_bit(a, x & 0x80 != 0);
    let b7 = crc_shift_bit(b, x & 0x80 != 0);
    lemma_shift_bit_injective(a, b, x & 0x80 != 0);
    let a6 = crc_shift_bit(a7, x & 0x40 != 0);
    let b6 = crc_shift_bit(b7, x & 0x40 != 0);
    lemma_shift_bit_injective(a7, b7, x & 0x40 != 0);
    let a5 = crc_shift_bit(a6, x & 0x20 != 0);
    let b5 = crc_shift_bit(b6, x & 0x20 != 0);
    lemma_shift_bit_injective(a6, b6, x & 0x20 != 0);
    let a4 = crc_shift_bit(a5, x & 0x10 != 0);
    let b4 = crc_shift_bit(b5, x & 0x10 != 0);
    lemma_shift_bit_injective(a5, b5, x & 0x10 != 0);
    let a3 = crc_shift_bit(a4, x & 0x08 != 0);
    let b3 = crc_shift_bit(b4, x & 0x08 != 0);
    lemma_shift_bit_injective(a4, b4, x & 0x08 != 0);
    let a2 = crc_shift_bit(a3, x & 0x04 != 0);
    let b2 = crc_shift_bit(b3, x & 0x04 != 0);
    lemma_shift_bit_injective(a3, b3, x & 0x04 != 0);
    let a1 = crc_shift_bit(a2, x & 0x02 != 0);
    let b1 = crc_shift_bit(b2, x & 0x02 != 0);
    lemma_shift_bit_injective(a2, b2, x & 0x02 != 0);
    lemma_shift_bit_injective(a1, b1, x & 0x01 != 0);
}

/// The same bytes into two different registers leave them different: the
/// checksum of a stream tells apart any two checksums of what came before.
pub proof fn lemma_crc_update_injective(data: Seq<u8>, a: u32, b: u32)
    requires
        a & 0xfffff != b & 0xfffff,
    ensures
        spec_crc_update(data, a) != spec_crc_update(data, b),
    decreases data.len(),
{
    if data.len() > 0 {
        lemma_shift_byte_injective(a, b, data[0]);
        lemma_crc_update_injective(
            data.drop_first(),
            crc_shift_byte(a, data[0]),
            crc_shift_byte(b, data[0]),
        );
    }
}

/// Burst detection: two streams of one length that differ, and differ in
/// one byte or in two neighbouring bytes only, have different checksums,
/// whatever came before them.
pub proof fn lemma_crc_detects_burst(a: Seq<u8>, b: Seq<u8>, p: int, crc: u32)
    requires
        0 <= p,
        differ_within(a, b, p),
        a != b,
    ensures
        spec_crc_update(a, crc) != spec_crc_update(b, crc),
    decreases a.len(),
{
    if a.len() == 0 {
        assert(a =~= b);
    } else if p > 0 {
        let ra = a.drop_first();
        let rb = b.drop_first();
        assert(a[0] == b[0]);
        assert forall|q: int| 0 <= q < ra.len() && q != p - 1 && q != p implies ra[q] == rb[q] by {
            assert(ra[q] == a[q + 1]);
            assert(rb[q] == b[q + 1]);
        }
        if ra =~= rb {
            assert(a =~= b) by {
                assert forall|q: int| 0 <= q < a.len() implies a[q] == b[q] by {
                    if q > 0 {
                        assert(ra[q - 1] == a[q]);
                        assert(rb[q - 1] == b[q]);
                    }
                }
            }
        }
        lemma_crc_detects_burst(ra, rb, p - 1, crc_shift_byte(crc, a[0]));
        assert(spec_crc_update(a, crc) == spec_crc_update(ra, crc_shift_byte(crc, a[0])));
        assert(spec_crc_update(b, crc) == spec_crc_update(rb, crc_shift_byte(crc, b[0])));
    } else {
        let a1 = crc_shift_byte(crc, a[0]);
        let b1 = crc_shift_byte(crc, b[0]);
        assert(apart(crc, crc, 0)) by {
            reveal(apart);
        }
        lemma_shift_byte_apart(crc, crc, 0, a[0], b[0]);
        lemma_reach_after_byte(0, a[0], b[0]);
        let n1 = reach_after_byte(0, a[0], b[0]);
        let ra = a.drop_first();
        let rb = b.drop_first();
        if a.len() == 1 {
            if a[0] == b[0] {
                assert(a =~= b);
            }
            lemma_apart_widens(a1, b1, n1, 20);
            lemma_crc_update_injective(ra, a1, b1);
            assert(ra =~= rb);
        } else {
            let a2 = crc_shift_byte(a1, a[1]);
            let b2 = crc_shift_byte(b1, b[1]);
            lemma_shift_byte_apart(a1, b1, n1, a[1], b[1]);
            lemma_reach_after_byte(n1, a[1], b[1]);
            let n2 = reach_after_byte(n1, a[1], b[1]);
            let rra = ra.drop_first();
            let rrb = rb.drop_first();
            assert(ra[0] == a[1] && rb[0] == b[1]);
            assert(rra =~= rrb) by {
                assert forall|q: int| 0 <= q < rra.len() implies rra[q] == rrb[q] by {
                    assert(rra[q] == a[q + 2]);
                    assert(rrb[q] == b[q + 2]);
                }
            }
            if a[0] == b[0] && a[1] == b[1] {
                assert(a =~= b) by {
                    assert forall|q: int| 0 <= q < a.len() implies a[q] == b[q] by {
                        if q >= 2 {
                            assert(rra[q - 2] == a[q]);
                            assert(rrb[q - 2] == b[q]);
                        }
                    }
                }
            }
            assert(1 <= n2 <= 16);
            lemma_apart_widens(a2, b2, n2, 20);
            lemma_crc_update_injective(rra, a2, b2);
            assert(spec_crc_update(ra, a1) == spec_crc_update(rra, a2));
            assert(spec_crc_update(rb, b1) == spec_crc_update(rrb, b2));
        }
    }
}

} // verus!
