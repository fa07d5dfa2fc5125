//! The persisted state document: one text holding every note and every
//! known account, and its parser.
//!
//! The document is a single run of hex digits and `0`/`1` flags: a count
//! of notes, the notes, a count of accounts, the accounts. Fixed-width
//! fields are big-endian and left-zero-padded (balances and nonces to 32
//! bytes, counts and lengths to 8); a string is its character count
//! followed by each character's Unicode scalar in 3 bytes. `enc_store`
//! gives the document of a store, `sp_store` reads one back, and parsing
//! inverts rendering exactly (`lemma_store_round_trip`).

use vstd::prelude::*;
use crate::bytes::{
    be_bytes, from_be, lemma_be_bytes_len, lemma_be_bytes_pad, lemma_from_be_bound,
    lemma_from_be_of_be_bytes, lemma_pow256_16, lemma_pow256_8, lemma_pow256_mono,
    lemma_pow256_pos, pow256,
};
use crate::hexstr::{
    bytes_of_hex, hex_of_bytes, lemma_bytes_of_hex_of_bytes, lemma_hex_of_bytes_len,
    lemma_hex_of_bytes_valid, valid_hex,
};
use crate::error::ClientError;
use crate::state::{Account, AccountView, Commitment, NoteView, StateManager, StoreView};
use vstd::string::StringExecFns;

verus! {

/// A count or length as 8 big-endian bytes, in hex: 16 characters.
pub open spec fn enc_count(v: nat) -> Seq<char> {
    hex_of_bytes(be_bytes(v, 8))
}

/// A balance as 32 big-endian bytes, in hex: 64 characters.
pub open spec fn enc_u128(v: u128) -> Seq<char> {
    hex_of_bytes(be_bytes(v as nat, 32))
}

/// A nonce as 32 big-endian bytes, in hex: 64 characters.
pub open spec fn enc_u64(v: u64) -> Seq<char> {
    hex_of_bytes(be_bytes(v as nat, 32))
}

/// One character as its Unicode scalar in 3 big-endian bytes: 6 hex
/// characters.
pub open spec fn enc_char(c: char) -> Seq<char> {
    hex_of_bytes(be_bytes(c as u32 as nat, 3))
}

/// The characters of a string, each as `enc_char`.
pub open spec fn enc_chars(s: Seq<char>) -> Seq<char>
    decreases s.len(),
{
    if s.len() == 0 {
        Seq::empty()
    } else {
        enc_chars(s.drop_last()) + enc_char(s.last())
    }
}

/// A string: its character count, then its characters.
pub open spec fn enc_str(s: Seq<char>) -> Seq<char> {
    enc_count(s.len()) + enc_chars(s)
}

/// A spent flag: one character.
pub open spec fn enc_bool(b: bool) -> Seq<char> {
    if b {
        seq!['1']
    } else {
        seq!['0']
    }
}

/// One note record.
pub open spec fn enc_note(n: NoteView) -> Seq<char> {
    enc_str(n.commitment) + enc_str(n.address) + enc_u128(n.balance) + enc_u64(n.nonce) + enc_str(
        n.secret,
    ) + enc_bool(n.spent)
}

/// The note records, in store order.
pub open spec fn enc_notes(s: Seq<NoteView>) -> Seq<char>
    decreases s.len(),
{
    if s.len() == 0 {
        Seq::empty()
    } else {
        enc_notes(s.drop_last()) + enc_note(s.last())
    }
}

/// One account record.
pub open spec fn enc_account(a: AccountView) -> Seq<char> {
    enc_str(a.address) + enc_str(a.secret)
}

/// The account records, in store order.
pub open spec fn enc_accounts(s: Seq<AccountView>) -> Seq<char>
    decreases s.len(),
{
    if s.len() == 0 {
        Seq::empty()
    } else {
        enc_accounts(s.drop_last()) + enc_account(s.last())
    }
}

/// The whole document of a store.
pub open spec fn enc_store(s: StoreView) -> Seq<char> {
    enc_count(s.notes.len()) + enc_notes(s.notes) + enc_count(s.accounts.len()) + enc_accounts(
        s.accounts,
    )
}

/// Whether a store fits the document's fixed widths: every count and
/// every string length below `2^64`.
pub open spec fn encodable(s: StoreView) -> bool {
    &&& s.notes.len() < pow256(8)
    &&& s.accounts.len() < pow256(8)
    &&& forall|i: int|
        0 <= i < s.notes.len() ==> (#[trigger] s.notes[i]).commitment.len() < pow256(8)
            && s.notes[i].address.len() < pow256(8) && s.notes[i].secret.len() < pow256(8)
    &&& forall|i: int|
        0 <= i < s.accounts.len() ==> (#[trigger] s.accounts[i]).address.len() < pow256(8)
            && s.accounts[i].secret.len() < pow256(8)
}

/// Reads `nbytes` bytes (2 hex characters each) at `pos`.
pub open spec fn sp_bytes(s: Seq<char>, pos: int, nbytes: nat) -> Option<Seq<u8>> {
    if 0 <= pos && pos + 2 * nbytes <= s.len() && valid_hex(s.subrange(pos, pos + 2 * nbytes)) {
        Some(bytes_of_hex(s.subrange(pos, pos + 2 * nbytes)))
    } else {
        None
    }
}

/// Reads a count: 8 bytes at `pos`.
pub open spec fn sp_count(s: Seq<char>, pos: int) -> Option<(nat, int)> {
    match sp_bytes(s, pos, 8) {
        Some(b) => Some((from_be(b), pos + 16)),
        None => None,
    }
}

/// Reads a balance: 32 bytes at `pos`, the first 16 zero.
pub open spec fn sp_u128(s: Seq<char>, pos: int) -> Option<(u128, int)> {
    match sp_bytes(s, pos, 32) {
        Some(b) => if forall|i: int| 0 <= i < 16 ==> b[i] == 0 {
            Some((from_be(b.subrange(16, 32)) as u128, pos + 64))
        } else {
            None
        },
        None => None,
    }
}

/// Reads a nonce: 32 bytes at `pos`, the first 24 zero.
pub open spec fn sp_u64(s: Seq<char>, pos: int) -> Option<(u64, int)> {
    match sp_bytes(s, pos, 32) {
        Some(b) => if forall|i: int| 0 <= i < 24 ==> b[i] == 0 {
            Some((from_be(b.subrange(24, 32)) as u64, pos + 64))
        } else {
            None
        },
        None => None,
    }
}

/// Reads one character: 3 bytes at `pos` holding a Unicode scalar.
pub open spec fn sp_char(s: Seq<char>, pos: int) -> Option<(char, int)> {
    match sp_bytes(s, pos, 3) {
        Some(b) => {
            let v = from_be(b);
            if v < 0xD800 || (0xE000 <= v && v <= 0x10FFFF) {
                Some(((v as u32) as char, pos + 6))
            } else {
                None
            }
        },
        None => None,
    }
}

/// Reads `count` characters at `pos`.
pub open spec fn sp_chars(s: Seq<char>, pos: int, count: nat) -> Option<(Seq<char>, int)>
    decreases count,
{
    if count == 0 {
        Some((Seq::empty(), pos))
    } else {
        match sp_char(s, pos) {
            Some((c, p1)) => match sp_chars(s, p1, (count - 1) as nat) {
                Some((rest, p2)) => Some((seq![c] + rest, p2)),
                None => None,
            },
            None => None,
        }
    }
}

/// Reads a string: a count, then that many characters.
pub open spec fn sp_str(s: Seq<char>, pos: int) -> Option<(Seq<char>, int)> {
    match sp_count(s, pos) {
        Some((n, p1)) => sp_chars(s, p1, n),
        None => None,
    }
}

/// Reads a spent flag.
pub open spec fn sp_bool(s: Seq<char>, pos: int) -> Option<(bool, int)> {
    if 0 <= pos < s.len() && (s[pos] == '0' || s[pos] == '1') {
        Some((s[pos] == '1', pos + 1))
    } else {
        None
    }
}

/// Reads one note record.
pub open spec fn sp_note(s: Seq<char>, pos: int) -> Option<(NoteView, int)> {
    match sp_str(s, pos) {
        Some((commitment, p1)) => match sp_str(s, p1) {
            Some((address, p2)) => match sp_u128(s, p2) {
                Some((balance, p3)) => match sp_u64(s, p3) {
                    Some((nonce, p4)) => match sp_str(s, p4) {
                        Some((secret, p5)) => match sp_bool(s, p5) {
                            Some((spent, p6)) => Some(
                                (NoteView { commitment, address, balance, nonce, secret, spent },
                                p6),
                            ),
                            None => None,
                        },
                        None => None,
                    },
                    None => None,
                },
                None => None,
            },
            None => None,
        },
        None => None,
    }
}

/// Reads `count` note records.
pub open spec fn sp_notes(s: Seq<char>, pos: int, count: nat) -> Option<(Seq<NoteView>, int)>
    decreases count,
{
    if count == 0 {
        Some((Seq::empty(), pos))
    } else {
        match sp_note(s, pos) {
            Some((n, p1)) => match sp_notes(s, p1, (count - 1) as nat) {
                Some((rest, p2)) => Some((seq![n] + rest, p2)),
                None => None,
            },
            None => None,
        }
    }
}

/// Reads one account record.
pub open spec fn sp_account(s: Seq<char>, pos: int) -> Option<(AccountView, int)> {
    match sp_str(s, pos) {
        Some((address, p1)) => match sp_str(s, p1) {
            Some((secret, p2)) => Some((AccountView { address, secret }, p2)),
            None => None,
        },
        None => None,
    }
}

/// Reads `count` account records.
pub open spec fn sp_accounts(s: Seq<char>, pos: int, count: nat) -> Option<(Seq<AccountView>, int)>
    decreases count,
{
    if count == 0 {
        Some((Seq::empty(), pos))
    } else {
        match sp_account(s, pos) {
            Some((a, p1)) => match sp_accounts(s, p1, (count - 1) as nat) {
                Some((rest, p2)) => Some((seq![a] + rest, p2)),
                None => None,
            },
            None => None,
        }
    }
}

/// Reads a whole document: counts and records, ending exactly at the end.
pub open spec fn sp_store(s: Seq<char>) -> Option<StoreView> {
    match sp_count(s, 0) {
        Some((n_notes, p1)) => match sp_notes(s, p1, n_notes) {
            Some((notes, p2)) => match sp_count(s, p2) {
                Some((n_accounts, p3)) => match sp_accounts(s, p3, n_accounts) {
                    Some((accounts, p4)) => if p4 == s.len() {
                        Some(StoreView { notes, accounts })
                    } else {
                        None
                    },
                    None => None,
                },
                None => None,
            },
            None => None,
        },
        None => None,
    }
}

/// A prefix equal to `a + b` splits at `a.len()`.
pub proof fn lemma_subrange_split(s: Seq<char>, pos: int, a: Seq<char>, b: Seq<char>)
    requires
        0 <= pos,
        pos + a.len() + b.len() <= s.len(),
        s.subrange(pos, pos + a.len() + b.len()) == a + b,
    ensures
        s.subrange(pos, pos + a.len()) == a,
        s.subrange(pos + a.len(), pos + a.len() + b.len()) == b,
{
    let ab = s.subrange(pos, pos + a.len() + b.len());
    assert forall|i: int| 0 <= i < a.len() implies s.subrange(pos, pos + a.len())[i] == a[i] by {
        assert(ab[i] == (a + b)[i]);
    }
    assert(s.subrange(pos, pos + a.len()) =~= a);
    assert forall|i: int| 0 <= i < b.len() implies s.subrange(
        pos + a.len(),
        pos + a.len() + b.len(),
    )[i] == b[i] by {
        assert(ab[a.len() + i] == (a + b)[a.len() + i]);
    }
    assert(s.subrange(pos + a.len(), pos + a.len() + b.len()) =~= b);
}

/// Reading bytes back where their hex was written yields the bytes.
pub proof fn lemma_sp_bytes_rt(s: Seq<char>, pos: int, b: Seq<u8>)
    requires
        0 <= pos,
        pos + 2 * b.len() <= s.len(),
        s.subrange(pos, pos + 2 * b.len()) == hex_of_bytes(b),
    ensures
        sp_bytes(s, pos, b.len()) == Some(b),
{
    lemma_hex_of_bytes_len(b);
    lemma_hex_of_bytes_valid(b);
    lemma_bytes_of_hex_of_bytes(b);
}

/// Reading a count where one was written yields the count.
pub proof fn lemma_sp_count_rt(s: Seq<char>, pos: int, v: nat)
    requires
        v < pow256(8),
        0 <= pos,
        pos + 16 <= s.len(),
        s.subrange(pos, pos + 16) == enc_count(v),
    ensures
        sp_count(s, pos) == Some((v, pos + 16)),
{
    lemma_be_bytes_len(v, 8);
    lemma_sp_bytes_rt(s, pos, be_bytes(v, 8));
    lemma_from_be_of_be_bytes(v, 8);
}

/// Reading a balance where one was written yields the balance.
pub proof fn lemma_sp_u128_rt(s: Seq<char>, pos: int, v: u128)
    requires
        0 <= pos,
        pos + 64 <= s.len(),
        s.subrange(pos, pos + 64) == enc_u128(v),
    ensures
        sp_u128(s, pos) == Some((v, pos + 64)),
{
    lemma_be_bytes_len(v as nat, 32);
    lemma_sp_bytes_rt(s, pos, be_bytes(v as nat, 32));
    lemma_pow256_16();
    lemma_be_bytes_pad(v as nat, 16, 32);
    let b = be_bytes(v as nat, 32);
    let zeros = Seq::new(16, |i: int| 0u8);
    assert(b == zeros + be_bytes(v as nat, 16));
    lemma_be_bytes_len(v as nat, 16);
    assert(forall|i: int| 0 <= i < 16 ==> b[i] == 0);
    assert(b.subrange(16, 32) =~= be_bytes(v as nat, 16));
    lemma_from_be_of_be_bytes(v as nat, 16);
}

/// Reading a nonce where one was written yields the nonce.
pub proof fn lemma_sp_u64_rt(s: Seq<char>, pos: int, v: u64)
    requires
        0 <= pos,
        pos + 64 <= s.len(),
        s.subrange(pos, pos + 64) == enc_u64(v),
    ensures
        sp_u64(s, pos) == Some((v, pos + 64)),
{
    lemma_be_bytes_len(v as nat, 32);
    lemma_sp_bytes_rt(s, pos, be_bytes(v as nat, 32));
    lemma_pow256_8();
    lemma_be_bytes_pad(v as nat, 8, 32);
    let b = be_bytes(v as nat, 32);
    let zeros = Seq::new(24, |i: int| 0u8);
    assert(b == zeros + be_bytes(v as nat, 8));
    lemma_be_bytes_len(v as nat, 8);
    assert(forall|i: int| 0 <= i < 24 ==> b[i] == 0);
    assert(b.subrange(24, 32) =~= be_bytes(v as nat, 8));
    lemma_from_be_of_be_bytes(v as nat, 8);
}

/// Reading a character where one was written yields the character.
pub proof fn lemma_sp_char_rt(s: Seq<char>, pos: int, c: char)
    requires
        0 <= pos,
        pos + 6 <= s.len(),
        s.subrange(pos, pos + 6) == enc_char(c),
    ensures
        sp_char(s, pos) == Some((c, pos + 6)),
{
    let v = c as u32;
    broadcast use vstd::utf8::char_is_scalar;

    assert(v < 0xD800 || (0xE000 <= v && v <= 0x10FFFF));
    assert((v as nat) < pow256(3)) by {
        reveal_with_fuel(pow256, 4);
    }
    lemma_be_bytes_len(v as nat, 3);
    lemma_sp_bytes_rt(s, pos, be_bytes(v as nat, 3));
    lemma_from_be_of_be_bytes(v as nat, 3);
}

pub proof fn lemma_enc_count_len(v: nat)
    ensures
        enc_count(v).len() == 16,
{
    lemma_be_bytes_len(v, 8);
    lemma_hex_of_bytes_len(be_bytes(v, 8));
}

pub proof fn lemma_enc_u128_len(v: u128)
    ensures
        enc_u128(v).len() == 64,
{
    lemma_be_bytes_len(v as nat, 32);
    lemma_hex_of_bytes_len(be_bytes(v as nat, 32));
}

pub proof fn lemma_enc_u64_len(v: u64)
    ensures
        enc_u64(v).len() == 64,
{
    lemma_be_bytes_len(v as nat, 32);
    lemma_hex_of_bytes_len(be_bytes(v as nat, 32));
}

pub proof fn lemma_enc_char_len(c: char)
    ensures
        enc_char(c).len() == 6,
{
    lemma_be_bytes_len(c as u32 as nat, 3);
    lemma_hex_of_bytes_len(be_bytes(c as u32 as nat, 3));
}

pub proof fn lemma_enc_chars_len(t: Seq<char>)
    ensures
        enc_chars(t).len() == 6 * t.len(),
    decreases t.len(),
{
    if t.len() > 0 {
        lemma_enc_chars_len(t.drop_last());
        lemma_enc_char_len(t.last());
    }
}

pub proof fn lemma_enc_str_len(t: Seq<char>)
    ensures
        enc_str(t).len() == 16 + 6 * t.len(),
{
    lemma_enc_count_len(t.len());
    lemma_enc_chars_len(t);
}

/// A nonempty encoding decomposes at its first character.
proof fn lemma_enc_chars_front(t: Seq<char>)
    requires
        t.len() > 0,
    ensures
        enc_chars(t) == enc_char(t[0]) + enc_chars(t.drop_first()),
    decreases t.len(),
{
    if t.len() == 1 {
        assert(t.drop_last() =~= Seq::<char>::empty());
        assert(t.drop_first() =~= Seq::<char>::empty());
        assert(enc_chars(t) =~= enc_char(t[0]) + enc_chars(t.drop_first()));
    } else {
        lemma_enc_chars_front(t.drop_last());
        assert(t.drop_last().drop_first() =~= t.drop_first().drop_last());
        assert(t.drop_first().last() == t.last());
        assert(enc_chars(t) == enc_chars(t.drop_last()) + enc_char(t.last()));
        assert(enc_chars(t.drop_first()) == enc_chars(t.drop_first().drop_last()) + enc_char(
            t.drop_first().last(),
        ));
        assert(enc_char(t[0]) + enc_chars(t.drop_first().drop_last()) + enc_char(t.last()) =~=
            enc_char(t[0]) + enc_chars(t.drop_first()));
        assert(enc_chars(t) =~= enc_char(t[0]) + enc_chars(t.drop_first()));
    }
}

/// Reading characters where a run was written yields the run.
pub proof fn lemma_sp_chars_rt(s: Seq<char>, pos: int, t: Seq<char>)
    requires
        0 <= pos,
        pos + 6 * t.len() <= s.len(),
        s.subrange(pos, pos + 6 * t.len()) == enc_chars(t),
    ensures
        sp_chars(s, pos, t.len()) == Some((t, pos + 6 * t.len())),
    decreases t.len(),
{
    if t.len() == 0 {
        assert(t =~= Seq::<char>::empty());
    } else {
        lemma_enc_chars_front(t);
        lemma_enc_char_len(t[0]);
        lemma_enc_chars_len(t.drop_first());
        lemma_subrange_split(s, pos, enc_char(t[0]), enc_chars(t.drop_first()));
        lemma_sp_char_rt(s, pos, t[0]);
        lemma_sp_chars_rt(s, pos + 6, t.drop_first());
        assert(seq![t[0]] + t.drop_first() =~= t);
    }
}

/// Reading a string where one was written yields the string.
pub proof fn lemma_sp_str_rt(s: Seq<char>, pos: int, t: Seq<char>)
    requires
        t.len() < pow256(8),
        0 <= pos,
        pos + 16 + 6 * t.len() <= s.len(),
        s.subrange(pos, pos + 16 + 6 * t.len()) == enc_str(t),
    ensures
        sp_str(s, pos) == Some((t, pos + 16 + 6 * t.len())),
{
    lemma_enc_count_len(t.len());
    lemma_enc_chars_len(t);
    lemma_subrange_split(s, pos, enc_count(t.len()), enc_chars(t));
    lemma_sp_count_rt(s, pos, t.len());
    lemma_sp_chars_rt(s, pos + 16, t);
}

/// Reading a flag where one was written yields the flag.
pub proof fn lemma_sp_bool_rt(s: Seq<char>, pos: int, b: bool)
    requires
        0 <= pos,
        pos + 1 <= s.len(),
        s.subrange(pos, pos + 1) == enc_bool(b),
    ensures
        sp_bool(s, pos) == Some((b, pos + 1)),
{
    assert(s[pos] == enc_bool(b)[0]);
}

/// The length of one note record.
pub open spec fn enc_note_len(n: NoteView) -> int {
    (16 + 6 * n.commitment.len() + 16 + 6 * n.address.len() + 64 + 64 + 16 + 6 * n.secret.len() + 1) as int
}

pub proof fn lemma_enc_note_len(n: NoteView)
    ensures
        enc_note(n).len() == enc_note_len(n),
{
    lemma_enc_str_len(n.commitment);
    lemma_enc_str_len(n.address);
    lemma_enc_u128_len(n.balance);
    lemma_enc_u64_len(n.nonce);
    lemma_enc_str_len(n.secret);
}

/// Reading a note where one was written yields the note.
pub proof fn lemma_sp_note_rt(s: Seq<char>, pos: int, n: NoteView)
    requires
        n.commitment.len() < pow256(8),
        n.address.len() < pow256(8),
        n.secret.len() < pow256(8),
        0 <= pos,
        pos + enc_note_len(n) <= s.len(),
        s.subrange(pos, pos + enc_note_len(n)) == enc_note(n),
    ensures
        sp_note(s, pos) == Some((n, pos + enc_note_len(n))),
{
    lemma_enc_str_len(n.commitment);
    lemma_enc_str_len(n.address);
    lemma_enc_u128_len(n.balance);
    lemma_enc_u64_len(n.nonce);
    lemma_enc_str_len(n.secret);
    let e1 = enc_str(n.commitment);
    let e2 = enc_str(n.address);
    let e3 = enc_u128(n.balance);
    let e4 = enc_u64(n.nonce);
    let e5 = enc_str(n.secret);
    let e6 = enc_bool(n.spent);
    assert(enc_note(n) == e1 + e2 + e3 + e4 + e5 + e6);
    let p1 = pos + e1.len();
    let p2 = p1 + e2.len();
    let p3 = p2 + e3.len();
    let p4 = p3 + e4.len();
    let p5 = p4 + e5.len();
    let p6 = p5 + 1;
    assert(e1 + e2 + e3 + e4 + e5 + e6 =~= e1 + (e2 + (e3 + (e4 + (e5 + e6)))));
    lemma_subrange_split(s, pos, e1, e2 + (e3 + (e4 + (e5 + e6))));
    lemma_subrange_split(s, p1, e2, e3 + (e4 + (e5 + e6)));
    lemma_subrange_split(s, p2, e3, e4 + (e5 + e6));
    lemma_subrange_split(s, p3, e4, e5 + e6);
    lemma_subrange_split(s, p4, e5, e6);
    lemma_sp_str_rt(s, pos, n.commitment);
    lemma_sp_str_rt(s, p1, n.address);
    lemma_sp_u128_rt(s, p2, n.balance);
    lemma_sp_u64_rt(s, p3, n.nonce);
    lemma_sp_str_rt(s, p4, n.secret);
    lemma_sp_bool_rt(s, p5, n.spent);
}

/// Every note of the run fits the fixed widths.
pub open spec fn notes_encodable(ns: Seq<NoteView>) -> bool {
    forall|i: int|
        0 <= i < ns.len() ==> (#[trigger] ns[i]).commitment.len() < pow256(8)
            && ns[i].address.len() < pow256(8) && ns[i].secret.len() < pow256(8)
}

/// A nonempty run of note records decomposes at its first record.
proof fn lemma_enc_notes_front(ns: Seq<NoteView>)
    requires
        ns.len() > 0,
    ensures
        enc_notes(ns) == enc_note(ns[0]) + enc_notes(ns.drop_first()),
    decreases ns.len(),
{
    if ns.len() == 1 {
        assert(ns.drop_last() =~= Seq::<NoteView>::empty());
        assert(ns.drop_first() =~= Seq::<NoteView>::empty());
        assert(enc_notes(ns) =~= enc_note(ns[0]) + enc_notes(ns.drop_first()));
    } else {
        lemma_enc_notes_front(ns.drop_last());
        assert(ns.drop_last().drop_first() =~= ns.drop_first().drop_last());
        assert(ns.drop_first().last() == ns.last());
        assert(enc_note(ns[0]) + enc_notes(ns.drop_first().drop_last()) + enc_note(ns.last()) =~=
            enc_note(ns[0]) + enc_notes(ns.drop_first()));
        assert(enc_notes(ns) =~= enc_note(ns[0]) + enc_notes(ns.drop_first()));
    }
}

/// Reading `ns.len()` notes where the run was written yields the run.
pub proof fn lemma_sp_notes_rt(s: Seq<char>, pos: int, ns: Seq<NoteView>)
    requires
        notes_encodable(ns),
        0 <= pos,
        pos + enc_notes(ns).len() <= s.len(),
        s.subrange(pos, pos + enc_notes(ns).len()) == enc_notes(ns),
    ensures
        sp_notes(s, pos, ns.len()) == Some((ns, pos + enc_notes(ns).len())),
    decreases ns.len(),
{
    if ns.len() == 0 {
        assert(ns =~= Seq::<NoteView>::empty());
    } else {
        lemma_enc_notes_front(ns);
        lemma_enc_note_len(ns[0]);
        lemma_subrange_split(s, pos, enc_note(ns[0]), enc_notes(ns.drop_first()));
        lemma_sp_note_rt(s, pos, ns[0]);
        assert(notes_encodable(ns.drop_first()));
        lemma_sp_notes_rt(s, pos + enc_note_len(ns[0]), ns.drop_first());
        assert(seq![ns[0]] + ns.drop_first() =~= ns);
    }
}

/// The length of one account record.
pub open spec fn enc_account_len(a: AccountView) -> int {
    (16 + 6 * a.address.len() + 16 + 6 * a.secret.len()) as int
}

pub proof fn lemma_enc_account_len(a: AccountView)
    ensures
        enc_account(a).len() == enc_account_len(a),
{
    lemma_enc_str_len(a.address);
    lemma_enc_str_len(a.secret);
}

/// Reading an account where one was written yields the account.
pub proof fn lemma_sp_account_rt(s: Seq<char>, pos: int, a: AccountView)
    requires
        a.address.len() < pow256(8),
        a.secret.len() < pow256(8),
        0 <= pos,
        pos + enc_account_len(a) <= s.len(),
        s.subrange(pos, pos + enc_account_len(a)) == enc_account(a),
    ensures
        sp_account(s, pos) == Some((a, pos + enc_account_len(a))),
{
    lemma_enc_str_len(a.address);
    lemma_enc_str_len(a.secret);
    lemma_subrange_split(s, pos, enc_str(a.address), enc_str(a.secret));
    lemma_sp_str_rt(s, pos, a.address);
    lemma_sp_str_rt(s, pos + 16 + 6 * a.address.len(), a.secret);
}

/// Every account of the run fits the fixed widths.
pub open spec fn accounts_encodable(accts: Seq<AccountView>) -> bool {
    forall|i: int|
        0 <= i < accts.len() ==> (#[trigger] accts[i]).address.len() < pow256(8)
            && accts[i].secret.len() < pow256(8)
}

/// A nonempty run of account records decomposes at its first record.
proof fn lemma_enc_accounts_front(accts: Seq<AccountView>)
    requires
        accts.len() > 0,
    ensures
        enc_accounts(accts) == enc_account(accts[0]) + enc_accounts(accts.drop_first()),
    decreases accts.len(),
{
    if accts.len() == 1 {
        assert(accts.drop_last() =~= Seq::<AccountView>::empty());
        assert(accts.drop_first() =~= Seq::<AccountView>::empty());
        assert(enc_accounts(accts) =~= enc_account(accts[0]) + enc_accounts(accts.drop_first()));
    } else {
        lemma_enc_accounts_front(accts.drop_last());
        assert(accts.drop_last().drop_first() =~= accts.drop_first().drop_last());
        assert(accts.drop_first().last() == accts.last());
        assert(enc_account(accts[0]) + enc_accounts(accts.drop_first().drop_last()) + enc_account(
            accts.last(),
        ) =~= enc_account(accts[0]) + enc_accounts(accts.drop_first()));
        assert(enc_accounts(accts) =~= enc_account(accts[0]) + enc_accounts(accts.drop_first()));
    }
}

/// Reading `accts.len()` accounts where the run was written yields it.
pub proof fn lemma_sp_accounts_rt(s: Seq<char>, pos: int, accts: Seq<AccountView>)
    requires
        accounts_encodable(accts),
        0 <= pos,
        pos + enc_accounts(accts).len() <= s.len(),
        s.subrange(pos, pos + enc_accounts(accts).len()) == enc_accounts(accts),
    ensures
        sp_accounts(s, pos, accts.len()) == Some((accts, pos + enc_accounts(accts).len())),
    decreases accts.len(),
{
    if accts.len() == 0 {
        assert(accts =~= Seq::<AccountView>::empty());
    } else {
        lemma_enc_accounts_front(accts);
        lemma_enc_account_len(accts[0]);
        lemma_subrange_split(s, pos, enc_account(accts[0]), enc_accounts(accts.drop_first()));
        lemma_sp_account_rt(s, pos, accts[0]);
        assert(accounts_encodable(accts.drop_first()));
        lemma_sp_accounts_rt(s, pos + enc_account_len(accts[0]), accts.drop_first());
        assert(seq![accts[0]] + accts.drop_first() =~= accts);
    }
}

/// Persistence round trip: reading the document of any encodable store
/// yields exactly that store, balances, spent flags and secrets included.
pub proof fn lemma_store_round_trip(sv: StoreView)
    requires
        encodable(sv),
    ensures
        sp_store(enc_store(sv)) == Some(sv),
{
    let s = enc_store(sv);
    let c1 = enc_count(sv.notes.len());
    let e1 = enc_notes(sv.notes);
    let c2 = enc_count(sv.accounts.len());
    let e2 = enc_accounts(sv.accounts);
    lemma_enc_count_len(sv.notes.len());
    lemma_enc_count_len(sv.accounts.len());
    assert(s == c1 + e1 + c2 + e2);
    assert(c1 + e1 + c2 + e2 =~= c1 + (e1 + (c2 + e2)));
    assert(s.subrange(0, s.len() as int) =~= s);
    lemma_subrange_split(s, 0, c1, e1 + (c2 + e2));
    let p1: int = 16;
    let p2 = p1 + e1.len();
    let p3 = p2 + 16;
    lemma_subrange_split(s, p1, e1, c2 + e2);
    lemma_subrange_split(s, p2, c2, e2);
    lemma_sp_count_rt(s, 0, sv.notes.len());
    lemma_sp_notes_rt(s, p1, sv.notes);
    lemma_sp_count_rt(s, p2, sv.accounts.len());
    lemma_sp_accounts_rt(s, p3, sv.accounts);
    assert(p3 + e2.len() == s.len());
    assert(sp_store(s) == Some(StoreView { notes: sv.notes, accounts: sv.accounts }));
    assert(StoreView { notes: sv.notes, accounts: sv.accounts } == sv);
}


// --- Executable rendering ---------------------------------------------

/// Appends a count: 8 big-endian bytes, in hex.
fn push_count(out: &mut Vec<char>, v: u64)
    ensures
        final(out)@ == old(out)@ + enc_count(v as nat),
{
    let mut bytes: [u8; 8] = [0u8; 8];
    let mut x: u64 = v;
    let mut i: usize = 0;
    proof {
        assert(bytes@.skip(8) =~= Seq::<u8>::empty());
        lemma_be_bytes_len(v as nat, 8);
        assert(be_bytes(v as nat, 8) =~= be_bytes(v as nat, 8) + bytes@.skip(8));
    }
    while i < 8
        invariant
            i <= 8,
            bytes@.len() == 8,
            be_bytes(v as nat, 8) =~= be_bytes(x as nat, (8 - i) as nat) + bytes@.skip(
                (8 - i) as int,
            ),
        decreases 8 - i,
    {
        let ghost prev = bytes@;
        bytes[7 - i] = (x % 256) as u8;
        proof {
            let w = (8 - i) as nat;
            lemma_be_bytes_len(x as nat / 256, (w - 1) as nat);
            assert(bytes@.skip((7 - i) as int) =~= seq![(x as nat % 256) as u8] + prev.skip(
                (8 - i) as int,
            ));
            assert(be_bytes(x as nat, w) =~= be_bytes(x as nat / 256, (w - 1) as nat) + seq![
                (x as nat % 256) as u8,
            ]);
            assert(be_bytes(v as nat, 8) =~= be_bytes(x as nat / 256, (w - 1) as nat)
                + bytes@.skip((7 - i) as int));
        }
        x = x / 256;
        i = i + 1;
    }
    proof {
        assert(bytes@.skip(0) =~= bytes@);
        assert(be_bytes(0 as nat, 0) =~= Seq::<u8>::empty());
        assert(bytes@ =~= be_bytes(v as nat, 8));
    }
    crate::hexstr::push_hex_of_bytes(out, bytes.as_slice());
}

/// Appends a balance: 32 big-endian bytes, in hex.
fn push_u128_token(out: &mut Vec<char>, v: u128)
    ensures
        final(out)@ == old(out)@ + enc_u128(v),
{
    let bytes = crate::crypto::u128_to_bytes32(v);
    crate::hexstr::push_hex_of_bytes(out, bytes.as_slice());
}

/// Appends a nonce: 32 big-endian bytes, in hex.
fn push_u64_token(out: &mut Vec<char>, v: u64)
    ensures
        final(out)@ == old(out)@ + enc_u64(v),
{
    let bytes = crate::crypto::u64_to_bytes32(v);
    crate::hexstr::push_hex_of_bytes(out, bytes.as_slice());
}

/// Appends one character's scalar: 3 big-endian bytes, in hex.
fn push_char_token(out: &mut Vec<char>, c: char)
    ensures
        final(out)@ == old(out)@ + enc_char(c),
{
    let v: u32 = c as u32;
    proof {
        broadcast use vstd::utf8::char_is_scalar;
        assert(v <= 0x10FFFF);
    }
    let mut bytes: Vec<u8> = Vec::new();
    bytes.push((v / 65536) as u8);
    bytes.push(((v / 256) % 256) as u8);
    bytes.push((v % 256) as u8);
    proof {
        let n = v as nat;
        assert(n / 256 / 256 == n / 65536) by {
            vstd::arithmetic::div_mod::lemma_div_denominator(n as int, 256, 256);
        }
        assert(n / 65536 < 256);
        assert(be_bytes(n / 65536 / 256, 0) =~= Seq::<u8>::empty());
        assert(be_bytes(n / 65536, 1) =~= seq![(n / 65536 % 256) as u8]);
        assert(n / 65536 % 256 == n / 65536) by {
            vstd::arithmetic::div_mod::lemma_small_mod(n / 65536, 256);
        }
        assert(be_bytes(n / 256, 2) =~= seq![(n / 65536) as u8, (n / 256 % 256) as u8]);
        assert(be_bytes(n, 3) =~= seq![(n / 65536) as u8, (n / 256 % 256) as u8, (n % 256) as u8]);
        assert(bytes@ =~= be_bytes(n, 3));
    }
    crate::hexstr::push_hex_of_bytes(out, bytes.as_slice());
}

/// Appends a string: its character count, then its characters.
fn push_str_token(out: &mut Vec<char>, s: &String)
    ensures
        final(out)@ == old(out)@ + enc_str(s@),
{
    let ghost orig = out@;
    let chars = crate::strutil::chars_of_str(s.as_str());
    push_count(out, chars.len() as u64);
    let mut i: usize = 0;
    while i < chars.len()
        invariant
            i <= chars@.len(),
            chars@ == s@,
            out@ == orig + enc_count(s@.len()) + enc_chars(s@.take(i as int)),
        decreases chars@.len() - i,
    {
        push_char_token(out, chars[i]);
        proof {
            let t = s@.take((i + 1) as int);
            assert(t.drop_last() =~= s@.take(i as int));
            assert(t.last() == s@[i as int]);
            assert(out@ =~= orig + enc_count(s@.len()) + enc_chars(t));
        }
        i = i + 1;
    }
    proof {
        assert(s@.take(s@.len() as int) =~= s@);
        assert(orig + enc_count(s@.len()) + enc_chars(s@) =~= orig + enc_str(s@));
    }
}

/// Appends a spent flag.
fn push_bool_token(out: &mut Vec<char>, b: bool)
    ensures
        final(out)@ == old(out)@ + enc_bool(b),
{
    if b {
        out.push('1');
    } else {
        out.push('0');
    }
    assert(out@ =~= old(out)@ + enc_bool(b));
}

/// Appends one note record.
fn push_note_token(out: &mut Vec<char>, c: &Commitment)
    ensures
        final(out)@ == old(out)@ + enc_note(c@),
{
    let ghost orig = out@;
    push_str_token(out, &c.commitment);
    push_str_token(out, &c.address);
    push_u128_token(out, c.balance);
    push_u64_token(out, c.nonce);
    push_str_token(out, &c.secret);
    push_bool_token(out, c.spent);
    proof {
        assert(out@ =~= orig + enc_note(c@));
    }
}

/// Appends one account record.
fn push_account_token(out: &mut Vec<char>, a: &Account)
    ensures
        final(out)@ == old(out)@ + enc_account(a@),
{
    let ghost orig = out@;
    push_str_token(out, &a.address);
    push_str_token(out, &a.secret);
    proof {
        assert(out@ =~= orig + enc_account(a@));
    }
}

/// Renders the whole store as its persisted document.
pub fn render_store(store: &StateManager) -> (r: String)
    ensures
        r@ == enc_store(store@),
{
    let mut out: Vec<char> = Vec::new();
    let notes = store.notes();
    let accounts = store.accounts();
    push_count(&mut out, notes.len() as u64);
    proof {
        assert(Seq::<char>::empty() + enc_count(store@.notes.len()) =~= enc_count(
            store@.notes.len(),
        ));
    }
    let mut i: usize = 0;
    while i < notes.len()
        invariant
            i <= notes@.len(),
            notes.deep_view() == store@.notes,
            notes@.len() == store@.notes.len(),
            out@ == enc_count(store@.notes.len()) + enc_notes(store@.notes.take(i as int)),
        decreases notes@.len() - i,
    {
        proof {
            assert(notes@[i as int]@ == store@.notes[i as int]);
        }
        push_note_token(&mut out, &notes[i]);
        proof {
            let t = store@.notes.take((i + 1) as int);
            assert(t.drop_last() =~= store@.notes.take(i as int));
            assert(t.last() == store@.notes[i as int]);
            assert(out@ =~= enc_count(store@.notes.len()) + enc_notes(t));
        }
        i = i + 1;
    }
    proof {
        assert(store@.notes.take(store@.notes.len() as int) =~= store@.notes);
    }
    let ghost mid = out@;
    push_count(&mut out, accounts.len() as u64);
    let mut j: usize = 0;
    while j < accounts.len()
        invariant
            j <= accounts@.len(),
            accounts@.len() == store@.accounts.len(),
            forall|k: int| 0 <= k < accounts@.len() ==> (#[trigger] accounts@[k])@
                == store@.accounts[k],
            mid == enc_count(store@.notes.len()) + enc_notes(store@.notes),
            out@ == mid + enc_count(store@.accounts.len()) + enc_accounts(
                store@.accounts.take(j as int),
            ),
        decreases accounts@.len() - j,
    {
        proof {
            assert(accounts@[j as int]@ == store@.accounts[j as int]);
        }
        push_account_token(&mut out, &accounts[j]);
        proof {
            let t = store@.accounts.take((j + 1) as int);
            assert(t.drop_last() =~= store@.accounts.take(j as int));
            assert(t.last() == store@.accounts[j as int]);
            assert(out@ =~= mid + enc_count(store@.accounts.len()) + enc_accounts(t));
        }
        j = j + 1;
    }
    proof {
        assert(store@.accounts.take(store@.accounts.len() as int) =~= store@.accounts);
        assert(out@ =~= enc_store(store@));
    }
    crate::strutil::string_of_chars(&out)
}


// --- Executable parsing -----------------------------------------------

/// Reads `nbytes` bytes (2 hex characters each) at the cursor.
fn parse_bytes(text: &Vec<char>, pos: &mut usize, nbytes: usize) -> (r: Option<Vec<u8>>)
    requires
        *old(pos) <= text@.len(),
        nbytes <= 32,
    ensures
        (r is Some) == (sp_bytes(text@, *old(pos) as int, nbytes as nat) is Some),
        r matches Some(b) ==> sp_bytes(text@, *old(pos) as int, nbytes as nat) == Some(b@)
            && b@.len() == nbytes && *final(pos) == *old(pos) + 2 * nbytes && *final(pos)
            <= text@.len(),
        r is None ==> *final(pos) == *old(pos),
{
    let need = 2 * nbytes;
    let start = *pos;
    let tlen = text.len();
    if tlen - start < need {
        return None;
    }
    let end = start + need;
    let ghost sub = text@.subrange(start as int, start as int + 2 * nbytes as int);
    let mut out: Vec<u8> = Vec::new();
    let mut j: usize = start;
    while j < end
        invariant
            start == *old(pos),
            *pos == start,
            start <= j <= end,
            need == 2 * nbytes,
            end == start + need,
            end <= tlen,
            tlen == text@.len(),
            (j - start) % 2 == 0,
            sub == text@.subrange(start as int, start as int + 2 * nbytes as int),
            sub.len() == need,
            forall|k: int| 0 <= k < j - start ==> crate::hexstr::is_hex_digit(#[trigger] sub[k]),
            out@ == bytes_of_hex(sub.take(j - start)),
            out@.len() * 2 == j - start,
        decreases end - j,
    {
        let ghost i = j - start;
        assert(sub[i] == text@[j as int]);
        assert(sub[i + 1] == text@[j as int + 1]);
        let hi = match crate::hexstr::nibble_of_hex_char(text[j]) {
            Some(v) => v,
            None => {
                assert(!crate::hexstr::is_hex_digit(sub[i]));
                assert(!valid_hex(sub));
                assert(sp_bytes(text@, start as int, nbytes as nat) is None);
                return None;
            },
        };
        let lo = match crate::hexstr::nibble_of_hex_char(text[j + 1]) {
            Some(v) => v,
            None => {
                assert(!crate::hexstr::is_hex_digit(sub[i + 1]));
                assert(!valid_hex(sub));
                assert(sp_bytes(text@, start as int, nbytes as nat) is None);
                return None;
            },
        };
        out.push(hi * 16 + lo);
        proof {
            let t = sub.take(i + 2);
            assert(t.drop_last().drop_last() =~= sub.take(i));
            assert(t[t.len() - 2] == sub[i]);
            assert(t[t.len() - 1] == sub[i + 1]);
            assert(out@ =~= bytes_of_hex(t));
        }
        j = j + 2;
    }
    assert(sub.take(need as int) =~= sub);
    assert(valid_hex(sub));
    *pos = end;
    Some(out)
}

/// The value of `count` big-endian bytes of `b` starting at `start`.
fn fold_be(b: &Vec<u8>, start: usize, count: usize) -> (r: u128)
    requires
        start + count <= b@.len(),
        count <= 16,
    ensures
        r as nat == from_be(b@.subrange(start as int, (start + count) as int)),
{
    let mut acc: u128 = 0;
    let mut i: usize = 0;
    let blen = b.len();
    proof {
        lemma_pow256_16();
        assert(b@.subrange(start as int, start as int) =~= Seq::<u8>::empty());
    }
    while i < count
        invariant
            i <= count,
            count <= 16,
            start + count <= blen,
            blen == b@.len(),
            acc as nat == from_be(b@.subrange(start as int, (start + i) as int)),
            (acc as nat) < pow256(i as nat),
            pow256(16) == 0x100000000000000000000000000000000,
        decreases count - i,
    {
        proof {
            let t = b@.subrange(start as int, (start + i + 1) as int);
            assert(t.drop_last() =~= b@.subrange(start as int, (start + i) as int));
            assert(t.last() == b@[(start + i) as int]);
            lemma_pow256_mono((i + 1) as nat, 16);
            lemma_pow256_pos(i as nat);
            assert(acc as nat * 256 + 255 < pow256((i + 1) as nat)) by (nonlinear_arith)
                requires
                    (acc as nat) < pow256(i as nat),
                    pow256((i + 1) as nat) == 256 * pow256(i as nat),
            ;
        }
        acc = acc * 256 + (b[start + i] as u128);
        i = i + 1;
    }
    acc
}

/// Reads a count at the cursor.
fn parse_count(text: &Vec<char>, pos: &mut usize) -> (r: Option<u64>)
    requires
        *old(pos) <= text@.len(),
    ensures
        (r is Some) == (sp_count(text@, *old(pos) as int) is Some),
        r matches Some(v) ==> sp_count(text@, *old(pos) as int) == Some(
            (v as nat, *final(pos) as int),
        ) && *final(pos) <= text@.len(),
        r is None ==> *final(pos) == *old(pos),
{
    let b = match parse_bytes(text, pos, 8) {
        Some(b) => b,
        None => {
            return None;
        },
    };
    proof {
        lemma_from_be_bound(b@);
        lemma_pow256_8();
        assert(b@.subrange(0, 8) =~= b@);
    }
    let v = fold_be(&b, 0, 8);
    Some(v as u64)
}

/// Reads a balance at the cursor.
fn parse_u128_token(text: &Vec<char>, pos: &mut usize) -> (r: Option<u128>)
    requires
        *old(pos) <= text@.len(),
    ensures
        (r is Some) == (sp_u128(text@, *old(pos) as int) is Some),
        r matches Some(v) ==> sp_u128(text@, *old(pos) as int) == Some((v, *final(pos) as int))
            && *final(pos) <= text@.len(),
{
    let b = match parse_bytes(text, pos, 32) {
        Some(b) => b,
        None => {
            return None;
        },
    };
    let mut i: usize = 0;
    while i < 16
        invariant
            i <= 16,
            b@.len() == 32,
            sp_bytes(text@, *old(pos) as int, 32) == Some(b@),
            *pos == *old(pos) + 64,
            *pos <= text@.len(),
            forall|k: int| 0 <= k < i ==> b@[k] == 0,
        decreases 16 - i,
    {
        if b[i] != 0 {
            assert(sp_u128(text@, *old(pos) as int) is None);
            return None;
        }
        i = i + 1;
    }
    proof {
        lemma_from_be_bound(b@.subrange(16, 32));
        lemma_pow256_16();
    }
    let v = fold_be(&b, 16, 16);
    Some(v)
}

/// Reads a nonce at the cursor.
fn parse_u64_token(text: &Vec<char>, pos: &mut usize) -> (r: Option<u64>)
    requires
        *old(pos) <= text@.len(),
    ensures
        (r is Some) == (sp_u64(text@, *old(pos) as int) is Some),
        r matches Some(v) ==> sp_u64(text@, *old(pos) as int) == Some((v, *final(pos) as int))
            && *final(pos) <= text@.len(),
{
    let b = match parse_bytes(text, pos, 32) {
        Some(b) => b,
        None => {
            return None;
        },
    };
    let mut i: usize = 0;
    while i < 24
        invariant
            i <= 24,
            b@.len() == 32,
            sp_bytes(text@, *old(pos) as int, 32) == Some(b@),
            *pos == *old(pos) + 64,
            *pos <= text@.len(),
            forall|k: int| 0 <= k < i ==> b@[k] == 0,
        decreases 24 - i,
    {
        if b[i] != 0 {
            assert(sp_u64(text@, *old(pos) as int) is None);
            return None;
        }
        i = i + 1;
    }
    proof {
        lemma_from_be_bound(b@.subrange(24, 32));
        lemma_pow256_8();
    }
    let v = fold_be(&b, 24, 8);
    Some(v as u64)
}

/// Reads one character at the cursor.
fn parse_char_token(text: &Vec<char>, pos: &mut usize) -> (r: Option<char>)
    requires
        *old(pos) <= text@.len(),
    ensures
        (r is Some) == (sp_char(text@, *old(pos) as int) is Some),
        r matches Some(c) ==> sp_char(text@, *old(pos) as int) == Some((c, *final(pos) as int))
            && *final(pos) <= text@.len(),
{
    let b = match parse_bytes(text, pos, 3) {
        Some(b) => b,
        None => {
            return None;
        },
    };
    proof {
        lemma_from_be_bound(b@);
        assert(pow256(3) == 0x1000000) by {
            reveal_with_fuel(pow256, 4);
        }
        assert(b@.subrange(0, 3) =~= b@);
    }
    let v128 = fold_be(&b, 0, 3);
    let v = v128 as u32;
    proof {
        assert(v as nat == from_be(b@));
    }
    match crate::strutil::char_of_u32(v) {
        Some(c) => {
            proof {
                broadcast use vstd::utf8::char_is_scalar;
                assert(c as u32 == v);
                vstd::utf8::char_u32_cast(c, from_be(b@) as u32);
                assert((from_be(b@) as u32) as char == c);
                assert(sp_char(text@, *old(pos) as int) == Some((c, *pos as int)));
            }
            Some(c)
        },
        None => None,
    }
}

/// Reads a string at the cursor.
fn parse_str_token(text: &Vec<char>, pos: &mut usize) -> (r: Option<String>)
    requires
        *old(pos) <= text@.len(),
    ensures
        (r is Some) == (sp_str(text@, *old(pos) as int) is Some),
        r matches Some(t) ==> sp_str(text@, *old(pos) as int) == Some((t@, *final(pos) as int))
            && *final(pos) <= text@.len(),
{
    let ghost p0 = *old(pos) as int;
    let n = match parse_count(text, pos) {
        Some(n) => n,
        None => {
            return None;
        },
    };
    let ghost p1 = *pos as int;
    let mut collected: Vec<char> = Vec::new();
    let mut done: u64 = 0;
    while done < n
        invariant
            done <= n,
            *pos <= text@.len(),
            p0 == *old(pos) as int,
            sp_count(text@, p0) == Some((n as nat, p1)),
            (sp_chars(text@, *pos as int, (n - done) as nat) is Some) == (sp_chars(
                text@,
                p1,
                n as nat,
            ) is Some),
            sp_chars(text@, *pos as int, (n - done) as nat) matches Some(pr) ==> sp_chars(
                text@,
                p1,
                n as nat,
            ) == Some((collected@ + pr.0, pr.1)),
        decreases n - done,
    {
        let ghost cur = *pos as int;
        let ghost k = (n - done) as nat;
        let c = match parse_char_token(text, pos) {
            Some(c) => c,
            None => {
                proof {
                    assert(sp_chars(text@, cur, k) is None);
                }
                return None;
            },
        };
        collected.push(c);
        proof {
            assert(sp_char(text@, cur) == Some((c, *pos as int)));
            assert(sp_chars(text@, cur, k) matches Some(pr) ==> sp_chars(
                text@,
                *pos as int,
                (k - 1) as nat,
            ) matches Some(pr2) && pr.0 == seq![c] + pr2.0 && pr.1 == pr2.1);
            assert forall|rest: Seq<char>, p2: int|
                sp_chars(text@, *pos as int, (k - 1) as nat) == Some::<(Seq<char>, int)>(
                    (rest, p2),
                ) implies collected@ + rest == collected@.drop_last() + (seq![c] + rest) by {
                assert(collected@.drop_last().push(c) =~= collected@);
                assert(collected@ + rest =~= collected@.drop_last() + (seq![c] + rest));
            }
        }
        done = done + 1;
    }
    proof {
        assert(sp_chars(text@, *pos as int, 0) == Some((Seq::<char>::empty(), *pos as int)));
        assert(collected@ + Seq::<char>::empty() =~= collected@);
    }
    let out = crate::strutil::string_of_chars(&collected);
    Some(out)
}

/// Reads a spent flag at the cursor.
fn parse_bool_token(text: &Vec<char>, pos: &mut usize) -> (r: Option<bool>)
    requires
        *old(pos) <= text@.len(),
    ensures
        (r is Some) == (sp_bool(text@, *old(pos) as int) is Some),
        r matches Some(b) ==> sp_bool(text@, *old(pos) as int) == Some((b, *final(pos) as int))
            && *final(pos) <= text@.len(),
{
    if *pos >= text.len() {
        return None;
    }
    let c = text[*pos];
    if c == '1' {
        *pos = *pos + 1;
        Some(true)
    } else if c == '0' {
        *pos = *pos + 1;
        Some(false)
    } else {
        None
    }
}

/// Reads one note record at the cursor.
fn parse_note_token(text: &Vec<char>, pos: &mut usize) -> (r: Option<Commitment>)
    requires
        *old(pos) <= text@.len(),
    ensures
        (r is Some) == (sp_note(text@, *old(pos) as int) is Some),
        r matches Some(c) ==> sp_note(text@, *old(pos) as int) == Some((c@, *final(pos) as int))
            && *final(pos) <= text@.len(),
{
    let commitment = match parse_str_token(text, pos) {
        Some(t) => t,
        None => {
            return None;
        },
    };
    let address = match parse_str_token(text, pos) {
        Some(t) => t,
        None => {
            return None;
        },
    };
    let balance = match parse_u128_token(text, pos) {
        Some(v) => v,
        None => {
            return None;
        },
    };
    let nonce = match parse_u64_token(text, pos) {
        Some(v) => v,
        None => {
            return None;
        },
    };
    let secret = match parse_str_token(text, pos) {
        Some(t) => t,
        None => {
            return None;
        },
    };
    let spent = match parse_bool_token(text, pos) {
        Some(b) => b,
        None => {
            return None;
        },
    };
    Some(Commitment { commitment, address, balance, nonce, secret, spent })
}

/// Reads one account record at the cursor.
fn parse_account_token(text: &Vec<char>, pos: &mut usize) -> (r: Option<Account>)
    requires
        *old(pos) <= text@.len(),
    ensures
        (r is Some) == (sp_account(text@, *old(pos) as int) is Some),
        r matches Some(a) ==> sp_account(text@, *old(pos) as int) == Some((a@, *final(pos) as int))
            && *final(pos) <= text@.len(),
{
    let address = match parse_str_token(text, pos) {
        Some(t) => t,
        None => {
            return None;
        },
    };
    let secret = match parse_str_token(text, pos) {
        Some(t) => t,
        None => {
            return None;
        },
    };
    Some(Account { address, secret })
}

/// Reads a whole persisted document back into a store.
///
/// Succeeds exactly on texts the document reader accepts, and on the
/// document of any encodable store yields that store back
/// (`lemma_store_round_trip`). A malformed document is reported as
/// `StateError`.
pub fn parse_store(s: &str) -> (r: Result<StateManager, ClientError>)
    ensures
        (r is Ok) == (sp_store(s@) is Some),
        r matches Ok(m) ==> sp_store(s@) == Some(m@),
        r matches Err(e) ==> e is StateError,
{
    let text = crate::strutil::chars_of_str(s);
    let mut pos: usize = 0;
    let err_msg = "malformed state document";
    let n_notes = match parse_count(&text, &mut pos) {
        Some(n) => n,
        None => {
            return Err(ClientError::StateError(String::from_str(err_msg)));
        },
    };
    let ghost p1 = pos as int;
    let mut notes: Vec<Commitment> = Vec::new();
    let mut done: u64 = 0;
    while done < n_notes
        invariant
            done <= n_notes,
            pos <= text@.len(),
            text@ == s@,
            sp_count(text@, 0) == Some((n_notes as nat, p1)),
            (sp_notes(text@, pos as int, (n_notes - done) as nat) is Some) == (sp_notes(
                text@,
                p1,
                n_notes as nat,
            ) is Some),
            sp_notes(text@, pos as int, (n_notes - done) as nat) matches Some(pr) ==> sp_notes(
                text@,
                p1,
                n_notes as nat,
            ) == Some((notes.deep_view() + pr.0, pr.1)),
        decreases n_notes - done,
    {
        let ghost cur = pos as int;
        let ghost k = (n_notes - done) as nat;
        let c = match parse_note_token(&text, &mut pos) {
            Some(c) => c,
            None => {
                proof {
                    assert(sp_notes(text@, cur, k) is None);
                }
                return Err(ClientError::StateError(String::from_str(err_msg)));
            },
        };
        let ghost prev = notes.deep_view();
        notes.push(c);
        proof {
            assert(notes.deep_view() =~= prev.push(c@));
            assert(sp_notes(text@, cur, k) matches Some(pr) ==> sp_notes(
                text@,
                pos as int,
                (k - 1) as nat,
            ) matches Some(pr2) && pr.0 == seq![c@] + pr2.0 && pr.1 == pr2.1);
            assert forall|rest: Seq<NoteView>, p2: int|
                sp_notes(text@, pos as int, (k - 1) as nat) == Some::<(Seq<NoteView>, int)>(
                    (rest, p2),
                ) implies notes.deep_view() + rest == prev + (seq![c@] + rest) by {
                assert(notes.deep_view() + rest =~= prev + (seq![c@] + rest));
            }
        }
        done = done + 1;
    }
    proof {
        assert(sp_notes(text@, pos as int, 0) == Some((Seq::<NoteView>::empty(), pos as int)));
        assert(notes.deep_view() + Seq::<NoteView>::empty() =~= notes.deep_view());
    }
    let ghost p2 = pos as int;
    let n_accounts = match parse_count(&text, &mut pos) {
        Some(n) => n,
        None => {
            return Err(ClientError::StateError(String::from_str(err_msg)));
        },
    };
    let ghost p3 = pos as int;
    let mut accounts: Vec<Account> = Vec::new();
    let ghost accounts_seq = Seq::<AccountView>::empty();
    let mut done2: u64 = 0;
    while done2 < n_accounts
        invariant
            done2 <= n_accounts,
            pos <= text@.len(),
            text@ == s@,
            sp_count(text@, 0) == Some((n_notes as nat, p1)),
            sp_notes(text@, p1, n_notes as nat) == Some((notes.deep_view(), p2)),
            sp_count(text@, p2) == Some((n_accounts as nat, p3)),
            accounts_seq == Seq::new(accounts@.len(), |i: int| accounts@[i]@),
            (sp_accounts(text@, pos as int, (n_accounts - done2) as nat) is Some) == (sp_accounts(
                text@,
                p3,
                n_accounts as nat,
            ) is Some),
            sp_accounts(text@, pos as int, (n_accounts - done2) as nat) matches Some(pr)
                ==> sp_accounts(text@, p3, n_accounts as nat) == Some((accounts_seq + pr.0, pr.1)),
        decreases n_accounts - done2,
    {
        let ghost cur = pos as int;
        let ghost k = (n_accounts - done2) as nat;
        let a = match parse_account_token(&text, &mut pos) {
            Some(a) => a,
            None => {
                proof {
                    assert(sp_accounts(text@, cur, k) is None);
                }
                return Err(ClientError::StateError(String::from_str(err_msg)));
            },
        };
        let ghost prev = accounts_seq;
        accounts.push(a);
        proof {
            accounts_seq = Seq::new(accounts@.len(), |i: int| accounts@[i]@);
            assert(accounts_seq =~= prev.push(a@));
            assert(sp_accounts(text@, cur, k) matches Some(pr) ==> sp_accounts(
                text@,
                pos as int,
                (k - 1) as nat,
            ) matches Some(pr2) && pr.0 == seq![a@] + pr2.0 && pr.1 == pr2.1);
            assert forall|rest: Seq<AccountView>, pz: int|
                sp_accounts(text@, pos as int, (k - 1) as nat) == Some::<(Seq<AccountView>, int)>(
                    (rest, pz),
                ) implies accounts_seq + rest == prev + (seq![a@] + rest) by {
                assert(accounts_seq + rest =~= prev + (seq![a@] + rest));
            }
        }
        done2 = done2 + 1;
    }
    proof {
        assert(sp_accounts(text@, pos as int, 0) == Some(
            (Seq::<AccountView>::empty(), pos as int),
        ));
        assert(accounts_seq + Seq::<AccountView>::empty() =~= accounts_seq);
    }
    if pos != text.len() {
        return Err(ClientError::StateError(String::from_str(err_msg)));
    }
    let m = StateManager::from_parts(notes, accounts);
    proof {
        assert(sp_store(s@) == Some(m@));
    }
    Ok(m)
}

} // verus!
