//! Big-endian byte encodings of unsigned integers and their inverse.
//!
//! Fixed-width fields of the ledger are serialized big-endian,
//! left-zero-padded to 32 bytes. `be_bytes` gives the encoding of a value,
//! `from_be` the value of an encoding; the lemmas below make the pair a
//! round trip on values that fit the width.

use vstd::prelude::*;
use vstd::arithmetic::div_mod::lemma_fundamental_div_mod;

verus! {

/// 256 raised to the given power.
pub open spec fn pow256(n: nat) -> nat
    decreases n,
{
    if n == 0 {
        1
    } else {
        256 * pow256((n - 1) as nat)
    }
}

/// The low `n` bytes of `v`, big-endian.
pub open spec fn be_bytes(v: nat, n: nat) -> Seq<u8>
    decreases n,
{
    if n == 0 {
        Seq::empty()
    } else {
        be_bytes(v / 256, (n - 1) as nat).push((v % 256) as u8)
    }
}

/// The value of a big-endian byte sequence.
pub open spec fn from_be(s: Seq<u8>) -> nat
    decreases s.len(),
{
    if s.len() == 0 {
        0
    } else {
        from_be(s.drop_last()) * 256 + s.last() as nat
    }
}

pub proof fn lemma_pow256_pos(n: nat)
    ensures
        pow256(n) >= 1,
    decreases n,
{
    if n > 0 {
        lemma_pow256_pos((n - 1) as nat);
    }
}

/// `256^16` is `2^128`, one more than the largest `u128`.
pub proof fn lemma_pow256_16()
    ensures
        pow256(16) == 0x100000000000000000000000000000000,
{
    reveal_with_fuel(pow256, 17);
}

/// `256^8` is `2^64`, one more than the largest `u64`.
pub proof fn lemma_pow256_8()
    ensures
        pow256(8) == 0x10000000000000000,
{
    reveal_with_fuel(pow256, 9);
}

pub proof fn lemma_pow256_mono(a: nat, b: nat)
    requires
        a <= b,
    ensures
        pow256(a) <= pow256(b),
    decreases b,
{
    if a < b {
        lemma_pow256_mono(a, (b - 1) as nat);
        lemma_pow256_pos((b - 1) as nat);
        assert(pow256(b) == 256 * pow256((b - 1) as nat));
        assert(pow256((b - 1) as nat) <= 256 * pow256((b - 1) as nat)) by (nonlinear_arith)
            requires
                pow256((b - 1) as nat) >= 1,
        ;
    }
}

pub proof fn lemma_be_bytes_len(v: nat, n: nat)
    ensures
        be_bytes(v, n).len() == n,
    decreases n,
{
    if n > 0 {
        lemma_be_bytes_len(v / 256, (n - 1) as nat);
    }
}

/// Decoding inverts encoding on values that fit the width.
pub proof fn lemma_from_be_of_be_bytes(v: nat, n: nat)
    requires
        v < pow256(n),
    ensures
        from_be(be_bytes(v, n)) == v,
    decreases n,
{
    if n == 0 {
    } else {
        let rest = be_bytes(v / 256, (n - 1) as nat);
        lemma_be_bytes_len(v / 256, (n - 1) as nat);
        assert(rest.push((v % 256) as u8).drop_last() =~= rest);
        lemma_pow256_pos((n - 1) as nat);
        assert(v / 256 < pow256((n - 1) as nat)) by (nonlinear_arith)
            requires
                v < 256 * pow256((n - 1) as nat),
                pow256((n - 1) as nat) >= 1,
        ;
        lemma_from_be_of_be_bytes(v / 256, (n - 1) as nat);
        lemma_fundamental_div_mod(v as int, 256);
    }
}

/// A byte sequence of length `n` encodes a value below `256^n`.
pub proof fn lemma_from_be_bound(s: Seq<u8>)
    ensures
        from_be(s) < pow256(s.len()),
    decreases s.len(),
{
    if s.len() == 0 {
    } else {
        lemma_from_be_bound(s.drop_last());
        assert(from_be(s) < pow256(s.len())) by (nonlinear_arith)
            requires
                from_be(s) == from_be(s.drop_last()) * 256 + s.last(),
                from_be(s.drop_last()) < pow256((s.len() - 1) as nat),
                s.last() < 256,
                pow256(s.len()) == 256 * pow256((s.len() - 1) as nat),
        ;
    }
}

/// A value that fits `m` bytes is encoded in `n >= m` bytes as
/// `n - m` zero bytes followed by its `m`-byte encoding.
pub proof fn lemma_be_bytes_pad(v: nat, m: nat, n: nat)
    requires
        v < pow256(m),
        m <= n,
    ensures
        be_bytes(v, n) =~= Seq::new((n - m) as nat, |i: int| 0u8) + be_bytes(v, m),
    decreases m,
{
    lemma_be_bytes_len(v, n);
    lemma_be_bytes_len(v, m);
    if m == 0 {
        lemma_be_bytes_zero(n);
    } else {
        lemma_pow256_pos((m - 1) as nat);
        assert(v / 256 < pow256((m - 1) as nat)) by (nonlinear_arith)
            requires
                v < 256 * pow256((m - 1) as nat),
                pow256((m - 1) as nat) >= 1,
        ;
        lemma_be_bytes_pad(v / 256, (m - 1) as nat, (n - 1) as nat);
        lemma_be_bytes_len(v / 256, (n - 1) as nat);
        lemma_be_bytes_len(v / 256, (m - 1) as nat);
    }
}

/// The encoding of zero is all zero bytes.
pub proof fn lemma_be_bytes_zero(n: nat)
    ensures
        be_bytes(0, n) =~= Seq::new(n, |i: int| 0u8),
    decreases n,
{
    if n > 0 {
        lemma_be_bytes_zero((n - 1) as nat);
        lemma_be_bytes_len(0, (n - 1) as nat);
    }
}

} // verus!
