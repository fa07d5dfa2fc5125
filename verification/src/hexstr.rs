//! Lowercase hexadecimal encoding of byte sequences, and its inverse.
//!
//! `hex_of_bytes` gives two digits per byte; `bytes_of_hex` reads an even
//! run of hex digits (either case) back into bytes. Decoding inverts
//! encoding exactly (`lemma_bytes_of_hex_of_bytes`).

use vstd::prelude::*;
use vstd::arithmetic::div_mod::lemma_fundamental_div_mod;

verus! {

/// The lowercase hex digit for a nibble: `'0'..'9'` then `'a'..'f'`.
pub open spec fn nibble_char(n: u8) -> char
    recommends
        n < 16,
{
    if n < 10 {
        (n + 48) as char
    } else {
        (n + 87) as char
    }
}

/// Whether `c` is a hex digit, in either case.
pub open spec fn is_hex_digit(c: char) -> bool {
    let v = c as u32;
    (48 <= v && v <= 57) || (97 <= v && v <= 102) || (65 <= v && v <= 70)
}

/// The nibble a hex digit stands for.
pub open spec fn hex_val(c: char) -> u8
    recommends
        is_hex_digit(c),
{
    let v = c as u32;
    if 48 <= v && v <= 57 {
        (v - 48) as u8
    } else if 97 <= v && v <= 102 {
        (v - 87) as u8
    } else {
        (v - 55) as u8
    }
}

/// The two lowercase hex digits of one byte.
pub open spec fn hex_pair(b: u8) -> Seq<char> {
    seq![nibble_char(b / 16), nibble_char(b % 16)]
}

/// The lowercase hex encoding of a byte sequence: two digits per byte.
pub open spec fn hex_of_bytes(s: Seq<u8>) -> Seq<char>
    decreases s.len(),
{
    if s.len() == 0 {
        Seq::empty()
    } else {
        hex_of_bytes(s.drop_last()) + hex_pair(s.last())
    }
}

/// Whether `s` is a well-formed hex run: even length, hex digits only.
pub open spec fn valid_hex(s: Seq<char>) -> bool {
    s.len() % 2 == 0 && forall|i: int| 0 <= i < s.len() ==> is_hex_digit(#[trigger] s[i])
}

/// The bytes a hex digit run stands for, one byte per digit pair.
pub open spec fn bytes_of_hex(s: Seq<char>) -> Seq<u8>
    decreases s.len(),
{
    if s.len() < 2 {
        Seq::empty()
    } else {
        bytes_of_hex(s.drop_last().drop_last()).push(
            (hex_val(s[s.len() - 2]) * 16 + hex_val(s[s.len() - 1])) as u8,
        )
    }
}

pub proof fn lemma_hex_of_bytes_len(s: Seq<u8>)
    ensures
        hex_of_bytes(s).len() == 2 * s.len(),
    decreases s.len(),
{
    if s.len() > 0 {
        lemma_hex_of_bytes_len(s.drop_last());
    }
}

/// Every character of an encoding is a lowercase hex digit.
pub proof fn lemma_hex_of_bytes_valid(s: Seq<u8>)
    ensures
        valid_hex(hex_of_bytes(s)),
    decreases s.len(),
{
    lemma_hex_of_bytes_len(s);
    if s.len() > 0 {
        lemma_hex_of_bytes_valid(s.drop_last());
        lemma_hex_of_bytes_len(s.drop_last());
    }
}

/// Reading a nibble's digit back gives the nibble.
pub proof fn lemma_nibble_round_trip(n: u8)
    requires
        n < 16,
    ensures
        is_hex_digit(nibble_char(n)),
        hex_val(nibble_char(n)) == n,
{
}

/// Decoding inverts encoding: the bytes of the hex of `s` are `s`.
pub proof fn lemma_bytes_of_hex_of_bytes(s: Seq<u8>)
    ensures
        bytes_of_hex(hex_of_bytes(s)) =~= s,
    decreases s.len(),
{
    if s.len() > 0 {
        let h = hex_of_bytes(s);
        let hp = hex_of_bytes(s.drop_last());
        lemma_hex_of_bytes_len(s);
        lemma_hex_of_bytes_len(s.drop_last());
        assert(h.drop_last().drop_last() =~= hp);
        lemma_bytes_of_hex_of_bytes(s.drop_last());
        let b = s.last();
        lemma_nibble_round_trip(b / 16);
        lemma_nibble_round_trip(b % 16);
        assert(h[h.len() - 2] == nibble_char(b / 16));
        assert(h[h.len() - 1] == nibble_char(b % 16));
        lemma_fundamental_div_mod(b as int, 16);
    }
}

/// The hex digit for a nibble, lowercase.
pub fn hex_char_of_nibble(n: u8) -> (c: char)
    requires
        n < 16,
    ensures
        c == nibble_char(n),
{
    if n < 10 {
        (n + 48) as char
    } else {
        (n + 87) as char
    }
}

/// The nibble a hex digit stands for, or `None` if `c` is no hex digit.
pub fn nibble_of_hex_char(c: char) -> (r: Option<u8>)
    ensures
        r is Some <==> is_hex_digit(c),
        r matches Some(n) ==> n == hex_val(c) && n < 16,
{
    let v = c as u32;
    if 48 <= v && v <= 57 {
        Some((v - 48) as u8)
    } else if 97 <= v && v <= 102 {
        Some((v - 87) as u8)
    } else if 65 <= v && v <= 70 {
        Some((v - 55) as u8)
    } else {
        None
    }
}

/// Appends the hex encoding of `bytes` to `out`.
pub fn push_hex_of_bytes(out: &mut Vec<char>, bytes: &[u8])
    ensures
        final(out)@ == old(out)@ + hex_of_bytes(bytes@),
{
    let ghost orig = out@;
    let mut i: usize = 0;
    while i < bytes.len()
        invariant
            i <= bytes@.len(),
            out@ == orig + hex_of_bytes(bytes@.take(i as int)),
        decreases bytes@.len() - i,
    {
        let b = bytes[i];
        out.push(hex_char_of_nibble(b / 16));
        out.push(hex_char_of_nibble(b % 16));
        proof {
            let t = bytes@.take((i + 1) as int);
            assert(t.drop_last() =~= bytes@.take(i as int));
            assert(t.last() == bytes@[i as int]);
            assert(out@ =~= orig + hex_of_bytes(t));
        }
        i = i + 1;
    }
    assert(bytes@.take(bytes@.len() as int) =~= bytes@);
}

/// Reads `chars[start..]` as a hex digit run: `Some` exactly when the run
/// is even-length hex digits, and then the decoded bytes.
pub fn decode_hex_run(chars: &Vec<char>, start: usize) -> (r: Option<Vec<u8>>)
    requires
        start <= chars@.len(),
    ensures
        r is Some <==> valid_hex(chars@.skip(start as int)),
        r matches Some(b) ==> b@ == bytes_of_hex(chars@.skip(start as int)),
{
    let n = chars.len() - start;
    let ghost tail = chars@.skip(start as int);
    assert(tail.len() == n);
    if n % 2 != 0 {
        return None;
    }
    let mut out: Vec<u8> = Vec::new();
    let mut j: usize = start;
    while j < chars.len()
        invariant
            start <= j <= chars@.len(),
            (j - start) % 2 == 0,
            tail == chars@.skip(start as int),
            tail.len() == chars@.len() - start,
            tail.len() % 2 == 0,
            forall|k: int| 0 <= k < j - start ==> is_hex_digit(#[trigger] tail[k]),
            out@ == bytes_of_hex(tail.take(j - start)),
        decreases chars@.len() - j,
    {
        let ghost i = j - start;
        assert(tail[i] == chars@[j as int]);
        assert(tail[i + 1] == chars@[j as int + 1]);
        let hi = match nibble_of_hex_char(chars[j]) {
            Some(v) => v,
            None => {
                return None;
            },
        };
        let lo = match nibble_of_hex_char(chars[j + 1]) {
            Some(v) => v,
            None => {
                return None;
            },
        };
        out.push(hi * 16 + lo);
        proof {
            let t = tail.take(i + 2);
            assert(t.drop_last().drop_last() =~= tail.take(i));
            assert(t[t.len() - 2] == tail[i]);
            assert(t[t.len() - 1] == tail[i + 1]);
            assert(out@ =~= bytes_of_hex(t));
        }
        j = j + 2;
    }
    assert(tail.take(tail.len() as int) =~= tail);
    Some(out)
}

} // verus!
