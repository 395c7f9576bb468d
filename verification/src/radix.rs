//! Byte strings as numbers: the little-endian value of a run of bytes, and
//! the low bytes of a number.

use vstd::prelude::*;

verus! {

/// The number that a run of bytes spells, the first byte being the least
/// significant.
pub open spec fn le_value(bytes: Seq<u8>) -> nat
    decreases bytes.len(),
{
    if bytes.len() == 0 {
        0
    } else {
        bytes[0] as nat + 256 * le_value(bytes.drop_first())
    }
}

/// The `n` low bytes of `v`, least significant first.
pub open spec fn low_bytes(v: nat, n: nat) -> Seq<u8>
    decreases n,
{
    if n == 0 {
        Seq::empty()
    } else {
        seq![(v % 256) as u8] + low_bytes(v / 256, (n - 1) as nat)
    }
}

/// 256 to the power `n`.
pub open spec fn pow256(n: nat) -> nat
    decreases n,
{
    if n == 0 {
        1
    } else {
        256 * pow256((n - 1) as nat)
    }
}

pub proof fn lemma_low_bytes_len(v: nat, n: nat)
    ensures
        low_bytes(v, n).len() == n,
    decreases n,
{
    if n > 0 {
        lemma_low_bytes_len(v / 256, (n - 1) as nat);
    }
}

/// A run of `n` bytes spells a number below 256 to the `n`.
pub proof fn lemma_le_value_bound(bytes: Seq<u8>)
    ensures
        le_value(bytes) < pow256(bytes.len()),
    decreases bytes.len(),
{
    if bytes.len() > 0 {
        lemma_le_value_bound(bytes.drop_first());
    }
}

/// Taking a number apart into as many bytes as spelled it gives the bytes
/// back.
pub proof fn lemma_low_bytes_of_le_value(bytes: Seq<u8>)
    ensures
        low_bytes(le_value(bytes), bytes.len()) == bytes,
    decreases bytes.len(),
{
    if bytes.len() > 0 {
        let rest = bytes.drop_first();
        lemma_low_bytes_of_le_value(rest);
        let v = le_value(bytes);
        assert(v % 256 == bytes[0] as nat);
        assert(v / 256 == le_value(rest));
        assert(low_bytes(v, bytes.len()) =~= bytes);
    } else {
        assert(low_bytes(le_value(bytes), bytes.len()) =~= bytes);
    }
}

/// Spelling the `n` low bytes of a number gives the number back, as far as
/// it fits in `n` bytes.
pub proof fn lemma_le_value_of_low_bytes(v: nat, n: nat)
    ensures
        le_value(low_bytes(v, n)) == v % pow256(n),
    decreases n,
{
    if n > 0 {
        let rest = low_bytes(v / 256, (n - 1) as nat);
        lemma_le_value_of_low_bytes(v / 256, (n - 1) as nat);
        assert(low_bytes(v, n).drop_first() =~= rest);
        let p = pow256((n - 1) as nat);
        lemma_pow256_positive((n - 1) as nat);
        lemma_mod_breakdown(v, p);
    }
}

pub proof fn lemma_pow256_positive(n: nat)
    ensures
        pow256(n) > 0,
    decreases n,
{
    if n > 0 {
        lemma_pow256_positive((n - 1) as nat);
    }
}

/// The remainder by `256 * p` in terms of the remainders by 256 and by `p`.
proof fn lemma_mod_breakdown(v: nat, p: nat)
    requires
        p > 0,
    ensures
        v % (256 * p) == v % 256 + 256 * ((v / 256) % p),
{
    vstd::arithmetic::div_mod::lemma_breakdown(v as int, 256, p as int);
}

/// Zero bytes after the last byte do not change the number.
pub proof fn lemma_le_value_zero_extended(bytes: Seq<u8>, zeros: Seq<u8>)
    requires
        forall|i: int| 0 <= i < zeros.len() ==> zeros[i] == 0,
    ensures
        le_value(bytes + zeros) == le_value(bytes),
    decreases bytes.len() + zeros.len(),
{
    if bytes.len() > 0 {
        assert((bytes + zeros).drop_first() =~= bytes.drop_first() + zeros);
        lemma_le_value_zero_extended(bytes.drop_first(), zeros);
    } else if zeros.len() > 0 {
        assert(bytes + zeros =~= zeros);
        assert(zeros.drop_first() =~= Seq::<u8>::empty() + zeros.drop_first());
        lemma_le_value_zero_extended(Seq::empty(), zeros.drop_first());
    } else {
        assert(bytes + zeros =~= bytes);
    }
}

/// The byte strings `a` and `b` have one length and are equal but at the
/// indices `p` and `p + 1`.
pub open spec fn differ_within(a: Seq<u8>, b: Seq<u8>, p: int) -> bool {
    &&& a.len() == b.len()
    &&& forall|q: int| 0 <= q < a.len() && q != p && q != p + 1 ==> a[q] == b[q]
}

/// The low bytes of a number, one by one.
pub proof fn lemma_low_bytes_index(v: nat, n: nat)
    requires
        n <= 5,
    ensures
        low_bytes(v, n).len() == n,
        n > 0 ==> low_bytes(v, n)[0] == v % 256,
        n > 1 ==> low_bytes(v, n)[1] == (v / 256) % 256,
        n > 2 ==> low_bytes(v, n)[2] == (v / 256 / 256) % 256,
        n > 3 ==> low_bytes(v, n)[3] == (v / 256 / 256 / 256) % 256,
        n > 4 ==> low_bytes(v, n)[4] == (v / 256 / 256 / 256 / 256) % 256,
    decreases n,
{
    lemma_low_bytes_len(v, n);
    if n > 0 {
        lemma_low_bytes_index(v / 256, (n - 1) as nat);
        let rest = low_bytes(v / 256, (n - 1) as nat);
        let all = low_bytes(v, n);
        assert forall|q: int| 1 <= q < n implies all[q] == rest[q - 1] by {}
    }
}

} // verus!
