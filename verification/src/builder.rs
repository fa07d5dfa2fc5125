//! The transaction builder: mint and transfer state transitions over the
//! note store, and account creation.
//!
//! A transfer selects one unspent note (first-fit, no combination of
//! notes), reveals its nullifier, marks it spent, and registers a change
//! note (when the selected note exceeds the amount) and the recipient's
//! note. On failure nothing is mutated: selection happens before any
//! write, and the in-memory writes cannot fail after it.

use vstd::prelude::*;
use crate::crypto::{
    address_of, bytes32_to_hex, commitment_of, compute_commitment, compute_nullifier,
    derive_address, generate_secret, hex_with_prefix, nullifier_of,
};
use crate::error::ClientError;
use crate::state::{
    balance_of, first_note_at, has_note, inserted, inserted_account, mark_note_spent,
    max_unspent, spendable_at, spent_marked, store_wf, AccountView, Commitment, NoteView,
    StateManager,
};
use vstd::string::StringExecFns;

verus! {

/// `i` is the first unspent note of `address` covering `amount`.
pub open spec fn first_spendable_at(
    notes: Seq<NoteView>,
    address: Seq<char>,
    amount: u128,
    i: int,
) -> bool {
    &&& spendable_at(notes, address, amount, i)
    &&& forall|j: int| 0 <= j < i ==> !spendable_at(notes, address, amount, j)
}

/// The note a mint of `(address, amount, nonce)` registers.
pub open spec fn minted_note(address: Seq<u8>, amount: u128, nonce: u64) -> NoteView {
    NoteView {
        commitment: hex_with_prefix(commitment_of(address, amount, nonce)),
        address: hex_with_prefix(address),
        balance: amount,
        nonce,
        secret: Seq::empty(),
        spent: false,
    }
}

/// The sender's change note of a transfer: the remainder under the next
/// nonce, carrying the sender's secret in hex.
pub open spec fn change_note(
    sender: Seq<u8>,
    secret: Seq<u8>,
    change: u128,
    nonce: u64,
) -> NoteView {
    NoteView {
        commitment: hex_with_prefix(commitment_of(sender, change, nonce)),
        address: hex_with_prefix(sender),
        balance: change,
        nonce,
        secret: hex_with_prefix(secret),
        spent: false,
    }
}

/// The recipient's note of a transfer: the amount under nonce zero; the
/// recipient's secret is unknown locally.
pub open spec fn recipient_note(recipient: Seq<u8>, amount: u128) -> NoteView {
    NoteView {
        commitment: hex_with_prefix(commitment_of(recipient, amount, 0)),
        address: hex_with_prefix(recipient),
        balance: amount,
        nonce: 0,
        secret: Seq::empty(),
        spent: false,
    }
}

/// The notes after a successful transfer that selected the note at `i`:
/// that note spent, the change note (if the note exceeded the amount)
/// inserted, then the recipient note inserted.
pub open spec fn transfer_result_notes(
    notes: Seq<NoteView>,
    i: int,
    sender: Seq<u8>,
    secret: Seq<u8>,
    recipient: Seq<u8>,
    amount: u128,
) -> Seq<NoteView>
    recommends
        0 <= i < notes.len(),
        notes[i].balance >= amount,
        notes[i].nonce < u64::MAX,
{
    let note = notes[i];
    let after_spend = notes.update(i, mark_note_spent(note));
    let with_change = if note.balance > amount {
        inserted(
            after_spend,
            change_note(sender, secret, (note.balance - amount) as u128, (note.nonce + 1) as u64),
        )
    } else {
        after_spend
    };
    inserted(with_change, recipient_note(recipient, amount))
}

/// A spendable note implies a first spendable note.
pub proof fn lemma_first_spendable_exists(
    notes: Seq<NoteView>,
    address: Seq<char>,
    amount: u128,
)
    requires
        exists|i: int| spendable_at(notes, address, amount, i),
    ensures
        exists|i: int| first_spendable_at(notes, address, amount, i),
{
    let w = choose|i: int| spendable_at(notes, address, amount, i);
    lemma_first_spendable_below(notes, address, amount, w);
}

proof fn lemma_first_spendable_below(
    notes: Seq<NoteView>,
    address: Seq<char>,
    amount: u128,
    w: int,
)
    requires
        spendable_at(notes, address, amount, w),
    ensures
        exists|i: int| first_spendable_at(notes, address, amount, i),
    decreases w,
{
    if forall|j: int| 0 <= j < w ==> !spendable_at(notes, address, amount, j) {
        assert(first_spendable_at(notes, address, amount, w));
    } else {
        let w2 = choose|j: int| 0 <= j < w && spendable_at(notes, address, amount, j);
        lemma_first_spendable_below(notes, address, amount, w2);
    }
}

/// Balance conservation: on a store holding no notes of the sender's or
/// the recipient's address, a mint of `k` to the sender followed by a
/// transfer of `j <= k` to the recipient leaves the sender's balance at
/// exactly `k - j` and the recipient's at exactly `j`. The fresh
/// commitment keys are assumed distinct, as collision resistance of the
/// hash primitive gives with overwhelming probability.
pub proof fn lemma_balance_conservation(
    notes: Seq<NoteView>,
    sender: Seq<u8>,
    secret: Seq<u8>,
    recipient: Seq<u8>,
    k_amount: u128,
    j_amount: u128,
    nonce: u64,
)
    requires
        j_amount <= k_amount,
        nonce < u64::MAX,
        hex_with_prefix(sender) != hex_with_prefix(recipient),
        forall|i: int|
            0 <= i < notes.len() ==> (#[trigger] notes[i]).address != hex_with_prefix(sender)
                && notes[i].address != hex_with_prefix(recipient),
        !has_note(notes, minted_note(sender, k_amount, nonce).commitment),
        !has_note(
            notes,
            change_note(
                sender,
                secret,
                (k_amount - j_amount) as u128,
                (nonce + 1) as u64,
            ).commitment,
        ),
        !has_note(notes, recipient_note(recipient, j_amount).commitment),
        minted_note(sender, k_amount, nonce).commitment != change_note(
            sender,
            secret,
            (k_amount - j_amount) as u128,
            (nonce + 1) as u64,
        ).commitment,
        minted_note(sender, k_amount, nonce).commitment != recipient_note(
            recipient,
            j_amount,
        ).commitment,
        change_note(
            sender,
            secret,
            (k_amount - j_amount) as u128,
            (nonce + 1) as u64,
        ).commitment != recipient_note(recipient, j_amount).commitment,
    ensures
        first_spendable_at(
            inserted(notes, minted_note(sender, k_amount, nonce)),
            hex_with_prefix(sender),
            j_amount,
            notes.len() as int,
        ),
        balance_of(
            transfer_result_notes(
                inserted(notes, minted_note(sender, k_amount, nonce)),
                notes.len() as int,
                sender,
                secret,
                recipient,
                j_amount,
            ),
            hex_with_prefix(sender),
        ) == k_amount - j_amount,
        balance_of(
            transfer_result_notes(
                inserted(notes, minted_note(sender, k_amount, nonce)),
                notes.len() as int,
                sender,
                secret,
                recipient,
                j_amount,
            ),
            hex_with_prefix(recipient),
        ) == j_amount,
{
    let saddr = hex_with_prefix(sender);
    let raddr = hex_with_prefix(recipient);
    let m = minted_note(sender, k_amount, nonce);
    let cn = change_note(sender, secret, (k_amount - j_amount) as u128, (nonce + 1) as u64);
    let rn = recipient_note(recipient, j_amount);
    let l = notes.len() as int;

    let after_mint = inserted(notes, m);
    assert(after_mint == notes.push(m));
    assert(first_spendable_at(after_mint, saddr, j_amount, l)) by {
        assert(spendable_at(after_mint, saddr, j_amount, l));
        assert forall|j: int| 0 <= j < l implies !spendable_at(after_mint, saddr, j_amount, j) by {
            assert(after_mint[j] == notes[j]);
            assert(notes[j].address != saddr);
        }
    }

    let after_spend = after_mint.update(l, mark_note_spent(after_mint[l]));
    crate::state::lemma_balance_absent(notes, saddr);
    crate::state::lemma_balance_absent(notes, raddr);
    crate::state::lemma_balance_push(notes, m, saddr);
    crate::state::lemma_balance_push(notes, m, raddr);
    crate::state::lemma_balance_after_spend(after_mint, l, saddr);
    crate::state::lemma_balance_after_spend(after_mint, l, raddr);
    assert(balance_of(after_spend, saddr) == 0);
    assert(balance_of(after_spend, raddr) == 0);

    assert(!has_note(after_spend, cn.commitment)) by {
        crate::state::lemma_has_note_update_spent(after_mint, l, cn.commitment);
        if has_note(after_mint, cn.commitment) {
            let w = choose|j: int|
                0 <= j < after_mint.len() && (#[trigger] after_mint[j]).commitment
                    == cn.commitment;
            if w < l {
                assert(notes[w].commitment == cn.commitment);
            }
        }
    }
    assert(!has_note(after_spend, rn.commitment)) by {
        crate::state::lemma_has_note_update_spent(after_mint, l, rn.commitment);
        if has_note(after_mint, rn.commitment) {
            let w = choose|j: int|
                0 <= j < after_mint.len() && (#[trigger] after_mint[j]).commitment
                    == rn.commitment;
            if w < l {
                assert(notes[w].commitment == rn.commitment);
            }
        }
    }

    let post = transfer_result_notes(after_mint, l, sender, secret, recipient, j_amount);
    if j_amount < k_amount {
        let with_change = inserted(after_spend, cn);
        assert(with_change == after_spend.push(cn));
        crate::state::lemma_balance_push(after_spend, cn, saddr);
        crate::state::lemma_balance_push(after_spend, cn, raddr);
        assert(!has_note(with_change, rn.commitment)) by {
            if has_note(with_change, rn.commitment) {
                let w = choose|j: int|
                    0 <= j < with_change.len() && (#[trigger] with_change[j]).commitment
                        == rn.commitment;
                if w < after_spend.len() {
                    assert(after_spend[w].commitment == rn.commitment);
                } else {
                    assert(with_change[w] == cn);
                }
            }
        }
        assert(post == with_change.push(rn));
        crate::state::lemma_balance_push(with_change, rn, saddr);
        crate::state::lemma_balance_push(with_change, rn, raddr);
    } else {
        assert(post == inserted(after_spend, rn));
        assert(post == after_spend.push(rn));
        crate::state::lemma_balance_push(after_spend, rn, saddr);
        crate::state::lemma_balance_push(after_spend, rn, raddr);
    }
}

/// What a successful transfer returns and leaves behind.
pub struct TransferOutcome {
    /// The nullifier of the spent note, derived at spend time.
    pub nullifier: [u8; 32],
    /// The commitment key of the note that was spent.
    pub spent_commitment: String,
    /// The sender's change note, absent when the note was spent exactly.
    pub change: Option<Commitment>,
    /// The recipient's new note.
    pub recipient: Commitment,
}

/// Creates an account: draws a fresh random secret, derives its address,
/// and records the pair in the store. Returns `(address, secret)`.
pub fn create_account(store: &mut StateManager) -> (r: ([u8; 32], [u8; 32]))
    ensures
        r.0@ == address_of(r.1@),
        final(store)@.notes == old(store)@.notes,
        final(store)@.accounts == inserted_account(
            old(store)@.accounts,
            AccountView {
                address: hex_with_prefix(r.0@),
                secret: hex_with_prefix(r.1@),
            },
        ),
        store_wf(old(store)@) ==> store_wf(final(store)@),
{
    let secret = generate_secret();
    let address = derive_address(&secret);
    let address_hex = bytes32_to_hex(&address);
    let secret_hex = bytes32_to_hex(&secret);
    store.add_account(address_hex, secret_hex);
    (address, secret)
}

/// Mints a note: registers `{H(address, amount, nonce), address, amount,
/// nonce, unspent}` and returns it. The caller supplies a nonce unique
/// per address; reusing one replaces the colliding note, as the store's
/// insert does.
pub fn mint(store: &mut StateManager, address: &[u8; 32], amount: u128, nonce: u64) -> (c:
    Commitment)
    ensures
        c@ == minted_note(address@, amount, nonce),
        final(store)@.notes == inserted(old(store)@.notes, minted_note(address@, amount, nonce)),
        final(store)@.accounts == old(store)@.accounts,
        store_wf(old(store)@) ==> store_wf(final(store)@),
{
    let commitment_bytes = compute_commitment(address, amount, nonce);
    let c = Commitment {
        commitment: bytes32_to_hex(&commitment_bytes),
        address: bytes32_to_hex(address),
        balance: amount,
        nonce,
        secret: String::new(),
        spent: false,
    };
    let r = c.clone();
    store.add_commitment(c);
    r
}

/// Transfers `amount` from the sender to the recipient.
///
/// Selects the first unspent sender note covering the amount; with none,
/// fails with `InsufficientBalance { have, need }` where `have` is the
/// largest single unspent balance, and mutates nothing. The selected
/// note's full balance is conserved exactly: change plus amount.
pub fn transfer(
    store: &mut StateManager,
    secret: &[u8; 32],
    sender_address: &[u8; 32],
    recipient_address: &[u8; 32],
    amount: u128,
) -> (r: Result<TransferOutcome, ClientError>)
    requires
        store_wf(old(store)@),
    ensures
        store_wf(final(store)@),
        final(store)@.accounts == old(store)@.accounts,
        r is Err ==> final(store)@ == old(store)@,
        (forall|i: int|
            !spendable_at(
                old(store)@.notes,
                hex_with_prefix(sender_address@),
                amount,
                i,
            )) ==> (r matches Err(e) && e matches ClientError::InsufficientBalance {
            have,
            need,
        } && have == max_unspent(old(store)@.notes, hex_with_prefix(sender_address@)) && need
            == amount),
        forall|i: int|
            first_spendable_at(old(store)@.notes, hex_with_prefix(sender_address@), amount, i)
                && old(store)@.notes[i].nonce == u64::MAX ==> (r matches Err(e) && e matches
            ClientError::InvalidInput(m)),
        forall|i: int|
            #![auto]
            first_spendable_at(old(store)@.notes, hex_with_prefix(sender_address@), amount, i)
                && old(store)@.notes[i].nonce < u64::MAX ==> (r matches Ok(t) && {
                let note = old(store)@.notes[i];
                &&& t.nullifier@ == nullifier_of(secret@, note.nonce)
                &&& t.spent_commitment@ == note.commitment
                &&& t.recipient@ == recipient_note(recipient_address@, amount)
                &&& (note.balance > amount ==> (t.change matches Some(c) && c@ == change_note(
                    sender_address@,
                    secret@,
                    (note.balance - amount) as u128,
                    (note.nonce + 1) as u64,
                )))
                &&& (note.balance == amount ==> t.change is None)
                &&& final(store)@.notes == transfer_result_notes(
                    old(store)@.notes,
                    i,
                    sender_address@,
                    secret@,
                    recipient_address@,
                    amount,
                )
            }),
{
    let ghost pre = store@;
    let ghost saddr = hex_with_prefix(sender_address@);
    let sender_hex = bytes32_to_hex(sender_address);

    let selected: Option<Commitment> = match store.find_spendable_commitment(
        sender_hex.as_str(),
        amount,
    ) {
        Some(c) => Some(c.clone()),
        None => None,
    };
    let note = match selected {
        Some(n) => n,
        None => {
            let have = store.max_unspent_balance(sender_hex.as_str());
            return Err(ClientError::InsufficientBalance { have, need: amount });
        },
    };
    let ghost i = choose|i: int|
        #![auto]
        spendable_at(pre.notes, saddr, amount, i) && note@ == pre.notes[i] && forall|j: int|
            0 <= j < i ==> !spendable_at(pre.notes, saddr, amount, j);
    proof {
        assert(first_spendable_at(pre.notes, saddr, amount, i));
        assert(note@ == pre.notes[i]);
    }
    if note.nonce == u64::MAX {
        return Err(ClientError::InvalidInput(String::from_str("note nonce exhausted")));
    }

    let nullifier = compute_nullifier(secret, note.nonce);
    let change_amount = note.balance - amount;
    let new_nonce = note.nonce + 1;

    let spend_result = store.mark_spent(note.commitment.as_str());
    proof {
        assert(has_note(pre.notes, note@.commitment));
        assert(forall|j: int, k: int|
            0 <= j < k < pre.notes.len() ==> (#[trigger] pre.notes[j]).commitment != (
            #[trigger] pre.notes[k]).commitment);
        assert(first_note_at(pre.notes, note@.commitment, i)) by {
            assert forall|j: int| 0 <= j < i implies (#[trigger] pre.notes[j]).commitment
                != note@.commitment by {
                if pre.notes[j].commitment == note@.commitment {
                    assert(pre.notes[j].commitment != pre.notes[i].commitment);
                }
            }
        }
        let w = choose|k: int| first_note_at(pre.notes, note@.commitment, k);
        crate::state::lemma_first_note_unique(pre.notes, note@.commitment, w, i);
        assert(store@.notes == pre.notes.update(i, mark_note_spent(pre.notes[i])));
    }
    if let Err(e) = spend_result {
        assert(false);
        return Err(e);
    }

    let mut change: Option<Commitment> = None;
    if change_amount > 0 {
        let change_bytes = compute_commitment(sender_address, change_amount, new_nonce);
        let change_commitment = Commitment {
            commitment: bytes32_to_hex(&change_bytes),
            address: sender_hex.clone(),
            balance: change_amount,
            nonce: new_nonce,
            secret: bytes32_to_hex(secret),
            spent: false,
        };
        proof {
            assert(change_commitment@ == change_note(
                sender_address@,
                secret@,
                (pre.notes[i].balance - amount) as u128,
                (pre.notes[i].nonce + 1) as u64,
            ));
        }
        let c2 = change_commitment.clone();
        store.add_commitment(change_commitment);
        change = Some(c2);
    }

    let recipient_bytes = compute_commitment(recipient_address, amount, 0);
    let recipient_commitment = Commitment {
        commitment: bytes32_to_hex(&recipient_bytes),
        address: bytes32_to_hex(recipient_address),
        balance: amount,
        nonce: 0,
        secret: String::new(),
        spent: false,
    };
    proof {
        assert(recipient_commitment@ == recipient_note(recipient_address@, amount));
    }
    let r2 = recipient_commitment.clone();
    store.add_commitment(recipient_commitment);

    proof {
        assert(store@.notes == transfer_result_notes(
            pre.notes,
            i,
            sender_address@,
            secret@,
            recipient_address@,
            amount,
        ));
    }
    Ok(TransferOutcome {
        nullifier,
        spent_commitment: note.commitment,
        change,
        recipient: r2,
    })
}

} // verus!
