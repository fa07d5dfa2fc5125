//! The commitment scheme: addresses, commitments and nullifiers derived
//! from secrets and notes.
//!
//! The hash primitive is abstract: `digest_of` names the digest of a byte
//! sequence, and every derivation is stated as `digest_of` applied to the
//! concatenation of its fixed-width inputs. All three derivations are pure
//! functions of their arguments, so equal inputs give equal results.

use vstd::prelude::*;
use vstd::string::StringExecFns;
use sha2::Digest;
use rand::RngCore;
use crate::bytes::be_bytes;
use crate::error::ClientError;
use crate::hexstr::{
    bytes_of_hex, hex_of_bytes, valid_hex, decode_hex_run, push_hex_of_bytes,
};
use crate::strutil::{chars_of_str, string_of_chars};

verus! {

/// The digest of a byte sequence under the hash primitive. The digest is a
/// function of the input alone; nothing else is assumed of it.
pub uninterp spec fn digest_of(data: Seq<u8>) -> Seq<u8>;

/// Relies on sha2::Sha256 through the digest crate's `Digest::digest`: the
/// 32-byte digest is computed from the input bytes alone.
#[verifier::external_body]
fn sha256_digest(data: &Vec<u8>) -> (r: [u8; 32])
    ensures
        r@ == digest_of(data@),
{
    let d = sha2::Sha256::digest(data.as_slice());
    let mut out = [0u8; 32];
    out.copy_from_slice(&d);
    out
}

/// Relies on rand::thread_rng and RngCore::fill_bytes: fills the buffer
/// with random bytes. Nothing is promised of the values.
#[verifier::external_body]
pub fn generate_secret() -> (r: [u8; 32])
{
    let mut secret = [0u8; 32];
    rand::thread_rng().fill_bytes(&mut secret);
    secret
}

/// The concatenation of a sequence of byte sequences, in order.
pub open spec fn concat_all(s: Seq<Seq<u8>>) -> Seq<u8>
    decreases s.len(),
{
    if s.len() == 0 {
        Seq::empty()
    } else {
        concat_all(s.drop_last()) + s.last()
    }
}

pub proof fn lemma_concat_all_one(a: Seq<u8>)
    ensures
        concat_all(seq![a]) == a,
{
    let s = seq![a];
    assert(s.drop_last() =~= Seq::<Seq<u8>>::empty());
    assert(concat_all(Seq::<Seq<u8>>::empty()) == Seq::<u8>::empty());
    assert(concat_all(s) == Seq::<u8>::empty() + a);
    assert(Seq::<u8>::empty() + a =~= a);
}

pub proof fn lemma_concat_all_two(a: Seq<u8>, b: Seq<u8>)
    ensures
        concat_all(seq![a, b]) == a + b,
{
    let s = seq![a, b];
    assert(s.drop_last() =~= seq![a]);
    lemma_concat_all_one(a);
    assert(concat_all(s) == a + b);
}

pub proof fn lemma_concat_all_three(a: Seq<u8>, b: Seq<u8>, c: Seq<u8>)
    ensures
        concat_all(seq![a, b, c]) == a + b + c,
{
    let s = seq![a, b, c];
    assert(s.drop_last() =~= seq![a, b]);
    lemma_concat_all_two(a, b);
    assert(concat_all(s) == a + b + c);
}

/// The address an owner secret stands for.
pub open spec fn address_of(secret: Seq<u8>) -> Seq<u8> {
    digest_of(secret)
}

/// The commitment of a note: the digest of address, balance and nonce,
/// each serialized big-endian and left-zero-padded to 32 bytes.
pub open spec fn commitment_of(address: Seq<u8>, balance: u128, nonce: u64) -> Seq<u8> {
    digest_of(address + be_bytes(balance as nat, 32) + be_bytes(nonce as nat, 32))
}

/// The nullifier revealed when a note with this nonce is spent by the
/// holder of this secret.
pub open spec fn nullifier_of(secret: Seq<u8>, nonce: u64) -> Seq<u8> {
    digest_of(secret + be_bytes(nonce as nat, 32))
}

/// The digest of the concatenation of the given 32-byte blocks.
pub fn pedersen_hash(inputs: &[[u8; 32]]) -> (r: [u8; 32])
    ensures
        r@ == digest_of(concat_all(inputs.deep_view())),
{
    let mut data: Vec<u8> = Vec::new();
    let mut i: usize = 0;
    while i < inputs.len()
        invariant
            i <= inputs@.len(),
            data@ == concat_all(inputs.deep_view().take(i as int)),
        decreases inputs@.len() - i,
    {
        let mut k: usize = 0;
        while k < 32
            invariant
                i < inputs@.len(),
                k <= 32,
                data@ == concat_all(inputs.deep_view().take(i as int)) + inputs@[i as int]@.take(
                    k as int,
                ),
            decreases 32 - k,
        {
            data.push(inputs[i][k]);
            assert(inputs@[i as int]@.take((k + 1) as int) =~= inputs@[i as int]@.take(
                k as int,
            ).push(inputs@[i as int]@[k as int]));
            k = k + 1;
        }
        proof {
            let dv = inputs.deep_view();
            assert(dv.take((i + 1) as int).drop_last() =~= dv.take(i as int));
            assert(inputs@[i as int]@.take(32) =~= dv[i as int]);
            assert(data@ =~= concat_all(dv.take((i + 1) as int)));
        }
        i = i + 1;
    }
    assert(inputs.deep_view().take(inputs@.len() as int) =~= inputs.deep_view());
    sha256_digest(&data)
}

/// Derives the address of an owner secret. Deterministic and one-way: the
/// address is the digest of the secret alone.
pub fn derive_address(secret: &[u8; 32]) -> (r: [u8; 32])
    ensures
        r@ == address_of(secret@),
{
    let mut inputs: Vec<[u8; 32]> = Vec::new();
    inputs.push(*secret);
    let sl = inputs.as_slice();
    let r = pedersen_hash(sl);
    proof {
        let dv = sl.deep_view();
        assert(dv =~~= seq![secret@]);
        lemma_concat_all_one(secret@);
    }
    r
}

/// Computes a note's commitment: the digest of `(address, balance, nonce)`,
/// deterministic in its inputs.
pub fn compute_commitment(address: &[u8; 32], balance: u128, nonce: u64) -> (r: [u8; 32])
    ensures
        r@ == commitment_of(address@, balance, nonce),
{
    let balance_bytes = u128_to_bytes32(balance);
    let nonce_bytes = u64_to_bytes32(nonce);
    let mut inputs: Vec<[u8; 32]> = Vec::new();
    inputs.push(*address);
    inputs.push(balance_bytes);
    inputs.push(nonce_bytes);
    let sl = inputs.as_slice();
    let r = pedersen_hash(sl);
    proof {
        let dv = sl.deep_view();
        assert(dv =~~= seq![address@, balance_bytes@, nonce_bytes@]);
        lemma_concat_all_three(address@, balance_bytes@, nonce_bytes@);
    }
    r
}

/// Computes the nullifier of `(secret, nonce)`, deterministic in its
/// inputs and computable only by the secret holder.
pub fn compute_nullifier(secret: &[u8; 32], nonce: u64) -> (r: [u8; 32])
    ensures
        r@ == nullifier_of(secret@, nonce),
{
    let nonce_bytes = u64_to_bytes32(nonce);
    let mut inputs: Vec<[u8; 32]> = Vec::new();
    inputs.push(*secret);
    inputs.push(nonce_bytes);
    let sl = inputs.as_slice();
    let r = pedersen_hash(sl);
    proof {
        let dv = sl.deep_view();
        assert(dv =~~= seq![secret@, nonce_bytes@]);
        lemma_concat_all_two(secret@, nonce_bytes@);
    }
    r
}

/// Serializes a `u128` as 32 bytes, big-endian, left-zero-padded.
pub fn u128_to_bytes32(value: u128) -> (r: [u8; 32])
    ensures
        r@ == be_bytes(value as nat, 32),
{
    let mut out: [u8; 32] = [0u8; 32];
    let mut x: u128 = value;
    let mut i: usize = 0;
    proof {
        assert(out@.skip(32) =~= Seq::<u8>::empty());
        crate::bytes::lemma_be_bytes_len(value as nat, 32);
        assert(be_bytes(value as nat, 32) =~= be_bytes(value as nat, 32) + out@.skip(32));
    }
    while i < 16
        invariant
            i <= 16,
            out@.len() == 32,
            forall|j: int| 0 <= j < 32 - i ==> out@[j] == 0,
            be_bytes(value as nat, 32) =~= be_bytes(x as nat, (32 - i) as nat) + out@.skip(
                (32 - i) as int,
            ),
        decreases 16 - i,
    {
        let ghost prev = out@;
        out[31 - i] = (x % 256) as u8;
        proof {
            let w = (32 - i) as nat;
            crate::bytes::lemma_be_bytes_len(x as nat / 256, (w - 1) as nat);
            assert(out@.skip((31 - i) as int) =~= seq![(x as nat % 256) as u8] + prev.skip(
                (32 - i) as int,
            ));
            assert(be_bytes(x as nat, w) =~= be_bytes(x as nat / 256, (w - 1) as nat) + seq![
                (x as nat % 256) as u8,
            ]);
            assert(be_bytes(value as nat, 32) =~= be_bytes(x as nat / 256, (w - 1) as nat)
                + out@.skip((31 - i) as int));
        }
        x = x / 256;
        i = i + 1;
    }
    proof {
        crate::bytes::lemma_pow256_16();
        crate::bytes::lemma_be_bytes_pad(value as nat, 16, 32);
        crate::bytes::lemma_be_bytes_len(x as nat, 16);
        crate::bytes::lemma_be_bytes_len(value as nat, 16);
        let zeros = Seq::new(16, |j: int| 0u8);
        assert(be_bytes(value as nat, 32) =~= zeros + be_bytes(value as nat, 16));
        let lhs = be_bytes(x as nat, 16) + out@.skip(16);
        let rhs = zeros + be_bytes(value as nat, 16);
        assert(lhs == rhs);
        assert forall|k: int| 0 <= k < 16 implies out@.skip(16)[k] == be_bytes(
            value as nat,
            16,
        )[k] by {
            assert(lhs[k + 16] == rhs[k + 16]);
        }
        assert(out@.skip(16) =~= be_bytes(value as nat, 16));
        assert(out@ =~= be_bytes(value as nat, 32));
    }
    out
}

/// Serializes a `u64` as 32 bytes, big-endian, left-zero-padded.
pub fn u64_to_bytes32(value: u64) -> (r: [u8; 32])
    ensures
        r@ == be_bytes(value as nat, 32),
{
    u128_to_bytes32(value as u128)
}

/// The `0x`-prefixed lowercase hex form of a byte sequence.
pub open spec fn hex_with_prefix(b: Seq<u8>) -> Seq<char> {
    seq!['0', 'x'] + hex_of_bytes(b)
}

/// Renders 32 bytes as a `0x`-prefixed lowercase hex string.
pub fn bytes32_to_hex(bytes: &[u8; 32]) -> (s: String)
    ensures
        s@ == hex_with_prefix(bytes@),
{
    let mut v: Vec<char> = Vec::new();
    v.push('0');
    v.push('x');
    assert(v@ =~= seq!['0', 'x']);
    push_hex_of_bytes(&mut v, bytes.as_slice());
    string_of_chars(&v)
}

/// The hex run of a string with any single `0x` prefix removed.
pub open spec fn strip_hex_prefix(s: Seq<char>) -> Seq<char> {
    if s.len() >= 2 && s[0] == '0' && s[1] == 'x' {
        s.skip(2)
    } else {
        s
    }
}

/// A byte sequence of fewer than 32 bytes, left-zero-padded to 32.
pub open spec fn left_pad32(b: Seq<u8>) -> Seq<u8>
    recommends
        b.len() <= 32,
{
    Seq::new((32 - b.len()) as nat, |i: int| 0u8) + b
}

/// Reads a hex string (with or without a `0x` prefix) into 32 bytes,
/// left-zero-padding shorter values. Rejects odd-length or non-hex input
/// and values wider than 32 bytes.
pub fn hex_to_bytes32(hex_str: &str) -> (r: Result<[u8; 32], ClientError>)
    ensures
        r is Ok <==> valid_hex(strip_hex_prefix(hex_str@)) && bytes_of_hex(
            strip_hex_prefix(hex_str@),
        ).len() <= 32,
        r matches Ok(b) ==> b@ == left_pad32(bytes_of_hex(strip_hex_prefix(hex_str@))),
        r matches Err(e) ==> e is InvalidInput,
{
    let chars = chars_of_str(hex_str);
    let start: usize = if chars.len() >= 2 && chars[0] == '0' && chars[1] == 'x' {
        2
    } else {
        0
    };
    assert(chars@.skip(start as int) == strip_hex_prefix(hex_str@));
    let bytes = match decode_hex_run(&chars, start) {
        Some(b) => b,
        None => {
            return Err(ClientError::InvalidInput(String::from_str("malformed hex")));
        },
    };
    if bytes.len() > 32 {
        return Err(ClientError::InvalidInput(String::from_str("value wider than 32 bytes")));
    }
    let n = bytes.len();
    let mut out: [u8; 32] = [0u8; 32];
    let mut j: usize = 0;
    while j < n
        invariant
            j <= n <= 32,
            n == bytes@.len(),
            out@.len() == 32,
            forall|k: int| 0 <= k < 32 - n ==> out@[k] == 0,
            forall|k: int| 0 <= k < j ==> out@[32 - n + k] == bytes@[k],
        decreases n - j,
    {
        out[32 - n + j] = bytes[j];
        j = j + 1;
    }
    assert(out@ =~= left_pad32(bytes@));
    Ok(out)
}

} // verus!
