//! The note store: a durable mapping from commitments to notes and from
//! addresses to owner secrets.
//!
//! Notes are append-only: a note is created unspent and mutated exactly
//! once, unspent to spent, never reversed and never deleted. Insertion
//! with an existing key replaces that entry, as a map insert would; the
//! store keeps notes in insertion order, which makes note selection
//! first-fit and reproducible.

use vstd::prelude::*;
use vstd::string::StringExecFns;
use crate::error::ClientError;
use crate::strutil::str_eq;

verus! {

/// One note: a unit of spendable value bound to an address.
#[derive(Debug)]
pub struct Commitment {
    /// The commitment hash, hex, `0x`-prefixed.
    pub commitment: String,
    /// The address the note belongs to.
    pub address: String,
    /// The balance held in this note.
    pub balance: u128,
    /// The nonce used in this note's commitment.
    pub nonce: u64,
    /// The owner secret, if known locally; empty for received notes.
    pub secret: String,
    /// Whether this note has been spent.
    pub spent: bool,
}

/// The mathematical content of one stored note.
pub ghost struct NoteView {
    pub commitment: Seq<char>,
    pub address: Seq<char>,
    pub balance: u128,
    pub nonce: u64,
    pub secret: Seq<char>,
    pub spent: bool,
}

impl View for Commitment {
    type V = NoteView;

    open spec fn view(&self) -> NoteView {
        NoteView {
            commitment: self.commitment@,
            address: self.address@,
            balance: self.balance,
            nonce: self.nonce,
            secret: self.secret@,
            spent: self.spent,
        }
    }
}

impl DeepView for Commitment {
    type V = NoteView;

    open spec fn deep_view(&self) -> NoteView {
        self.view()
    }
}

impl Clone for Commitment {
    fn clone(&self) -> (r: Self)
        ensures
            r@ == self@,
    {
        Commitment {
            commitment: self.commitment.clone(),
            address: self.address.clone(),
            balance: self.balance,
            nonce: self.nonce,
            secret: self.secret.clone(),
            spent: self.spent,
        }
    }
}

/// One known account: an address and the secret it is derived from.
#[derive(Debug)]
pub struct Account {
    pub address: String,
    pub secret: String,
}

/// The mathematical content of one account entry.
pub ghost struct AccountView {
    pub address: Seq<char>,
    pub secret: Seq<char>,
}

impl View for Account {
    type V = AccountView;

    open spec fn view(&self) -> AccountView {
        AccountView { address: self.address@, secret: self.secret@ }
    }
}

impl Clone for Account {
    fn clone(&self) -> (r: Self)
        ensures
            r@ == self@,
    {
        Account { address: self.address.clone(), secret: self.secret.clone() }
    }
}

/// The mathematical content of the whole store.
pub ghost struct StoreView {
    pub notes: Seq<NoteView>,
    pub accounts: Seq<AccountView>,
}

/// Manages the local private state: all notes and all known accounts.
#[derive(Debug)]
pub struct StateManager {
    commitments: Vec<Commitment>,
    accounts: Vec<Account>,
}

impl View for StateManager {
    type V = StoreView;

    closed spec fn view(&self) -> StoreView {
        StoreView {
            notes: Seq::new(self.commitments@.len(), |i: int| self.commitments@[i]@),
            accounts: Seq::new(self.accounts@.len(), |i: int| self.accounts@[i]@),
        }
    }
}

/// Commitment keys and account addresses are unique.
pub open spec fn store_wf(s: StoreView) -> bool {
    &&& forall|i: int, j: int|
        0 <= i < j < s.notes.len() ==> (#[trigger] s.notes[i]).commitment != (
        #[trigger] s.notes[j]).commitment
    &&& forall|i: int, j: int|
        0 <= i < j < s.accounts.len() ==> (#[trigger] s.accounts[i]).address != (
        #[trigger] s.accounts[j]).address
}

/// Some note carries this commitment key.
pub open spec fn has_note(notes: Seq<NoteView>, key: Seq<char>) -> bool {
    exists|i: int| 0 <= i < notes.len() && (#[trigger] notes[i]).commitment == key
}

/// `i` is the first position carrying this commitment key.
pub open spec fn first_note_at(notes: Seq<NoteView>, key: Seq<char>, i: int) -> bool {
    &&& 0 <= i < notes.len()
    &&& notes[i].commitment == key
    &&& forall|j: int| 0 <= j < i ==> (#[trigger] notes[j]).commitment != key
}

/// Some account carries this address.
pub open spec fn has_account(accounts: Seq<AccountView>, address: Seq<char>) -> bool {
    exists|i: int| 0 <= i < accounts.len() && (#[trigger] accounts[i]).address == address
}

/// `i` is the first position carrying this address.
pub open spec fn first_account_at(accounts: Seq<AccountView>, address: Seq<char>, i: int) -> bool {
    &&& 0 <= i < accounts.len()
    &&& accounts[i].address == address
    &&& forall|j: int| 0 <= j < i ==> (#[trigger] accounts[j]).address != address
}

/// The note at `i` belongs to `address` and is unspent.
pub open spec fn unspent_at(notes: Seq<NoteView>, address: Seq<char>, i: int) -> bool {
    &&& 0 <= i < notes.len()
    &&& notes[i].address == address
    &&& !notes[i].spent
}

/// The note at `i` is unspent, belongs to `address`, and covers `amount`.
pub open spec fn spendable_at(
    notes: Seq<NoteView>,
    address: Seq<char>,
    amount: u128,
    i: int,
) -> bool {
    unspent_at(notes, address, i) && notes[i].balance >= amount
}

/// The unspent notes of an address, in store order.
pub open spec fn unspent_for(notes: Seq<NoteView>, address: Seq<char>) -> Seq<NoteView>
    decreases notes.len(),
{
    if notes.len() == 0 {
        Seq::empty()
    } else {
        unspent_for(notes.drop_last(), address) + if notes.last().address == address
            && !notes.last().spent {
            seq![notes.last()]
        } else {
            Seq::empty()
        }
    }
}

/// The total balance of an address: the sum over its unspent notes.
pub open spec fn balance_of(notes: Seq<NoteView>, address: Seq<char>) -> int
    decreases notes.len(),
{
    if notes.len() == 0 {
        0
    } else {
        balance_of(notes.drop_last(), address) + if notes.last().address == address
            && !notes.last().spent {
            notes.last().balance as int
        } else {
            0
        }
    }
}

/// The note `n` marked spent; all other fields kept.
pub open spec fn mark_note_spent(n: NoteView) -> NoteView {
    NoteView { spent: true, ..n }
}

/// The store's insert: the first note with this key replaced in place, or
/// the note appended if the key is absent.
pub open spec fn inserted(notes: Seq<NoteView>, n: NoteView) -> Seq<NoteView> {
    if has_note(notes, n.commitment) {
        notes.update(choose|i: int| first_note_at(notes, n.commitment, i), n)
    } else {
        notes.push(n)
    }
}

/// The account insert: the first entry with this address replaced in
/// place, or the entry appended if the address is absent.
pub open spec fn inserted_account(accounts: Seq<AccountView>, a: AccountView) -> Seq<AccountView> {
    if has_account(accounts, a.address) {
        accounts.update(choose|i: int| first_account_at(accounts, a.address, i), a)
    } else {
        accounts.push(a)
    }
}

/// The first note with this key marked spent; unchanged if the key is
/// absent.
pub open spec fn spent_marked(notes: Seq<NoteView>, key: Seq<char>) -> Seq<NoteView> {
    if has_note(notes, key) {
        let i = choose|i: int| first_note_at(notes, key, i);
        notes.update(i, mark_note_spent(notes[i]))
    } else {
        notes
    }
}

/// A present key has a first position.
pub proof fn lemma_first_note_exists(notes: Seq<NoteView>, key: Seq<char>)
    requires
        has_note(notes, key),
    ensures
        exists|i: int| first_note_at(notes, key, i),
{
    let w = choose|i: int| 0 <= i < notes.len() && (#[trigger] notes[i]).commitment == key;
    lemma_first_note_below(notes, key, w);
}

proof fn lemma_first_note_below(notes: Seq<NoteView>, key: Seq<char>, w: int)
    requires
        0 <= w < notes.len(),
        notes[w].commitment == key,
    ensures
        exists|i: int| first_note_at(notes, key, i),
    decreases w,
{
    if forall|j: int| 0 <= j < w ==> (#[trigger] notes[j]).commitment != key {
        assert(first_note_at(notes, key, w));
    } else {
        let w2 = choose|j: int| 0 <= j < w && (#[trigger] notes[j]).commitment == key;
        lemma_first_note_below(notes, key, w2);
    }
}

/// The first position of a key is unique.
pub proof fn lemma_first_note_unique(notes: Seq<NoteView>, key: Seq<char>, i: int, j: int)
    requires
        first_note_at(notes, key, i),
        first_note_at(notes, key, j),
    ensures
        i == j,
{
}

/// A present address has a first entry.
pub proof fn lemma_first_account_exists(accounts: Seq<AccountView>, address: Seq<char>)
    requires
        has_account(accounts, address),
    ensures
        exists|i: int| first_account_at(accounts, address, i),
{
    let w = choose|i: int|
        0 <= i < accounts.len() && (#[trigger] accounts[i]).address == address;
    lemma_first_account_below(accounts, address, w);
}

proof fn lemma_first_account_below(accounts: Seq<AccountView>, address: Seq<char>, w: int)
    requires
        0 <= w < accounts.len(),
        accounts[w].address == address,
    ensures
        exists|i: int| first_account_at(accounts, address, i),
    decreases w,
{
    if forall|j: int| 0 <= j < w ==> (#[trigger] accounts[j]).address != address {
        assert(first_account_at(accounts, address, w));
    } else {
        let w2 = choose|j: int| 0 <= j < w && (#[trigger] accounts[j]).address == address;
        lemma_first_account_below(accounts, address, w2);
    }
}

/// The first position of an address is unique.
pub proof fn lemma_first_account_unique(
    accounts: Seq<AccountView>,
    address: Seq<char>,
    i: int,
    j: int,
)
    requires
        first_account_at(accounts, address, i),
        first_account_at(accounts, address, j),
    ensures
        i == j,
{
}

impl StateManager {
    /// Creates an empty store.
    pub fn new() -> (s: Self)
        ensures
            s@.notes == Seq::<NoteView>::empty(),
            s@.accounts == Seq::<AccountView>::empty(),
            store_wf(s@),
    {
        let s = StateManager { commitments: Vec::new(), accounts: Vec::new() };
        proof {
            assert(s@.notes =~= Seq::<NoteView>::empty());
            assert(s@.accounts =~= Seq::<AccountView>::empty());
        }
        s
    }

    /// Builds a store from its parts. Used when a persisted document is
    /// read back.
    pub fn from_parts(commitments: Vec<Commitment>, accounts: Vec<Account>) -> (s: Self)
        ensures
            s@.notes == commitments.deep_view(),
            s@.accounts =~= Seq::new(accounts@.len(), |i: int| accounts@[i]@),
    {
        let s = StateManager { commitments, accounts };
        proof {
            assert(s@.notes =~= s.commitments.deep_view());
        }
        s
    }

    /// Records an account: replaces the secret of a known address, or
    /// appends a new entry. The notes are untouched.
    pub fn add_account(&mut self, address: String, secret: String)
        ensures
            final(self)@.notes == old(self)@.notes,
            final(self)@.accounts == inserted_account(
                old(self)@.accounts,
                AccountView { address: address@, secret: secret@ },
            ),
            store_wf(old(self)@) ==> store_wf(final(self)@),
    {
        let ghost pre = self@;
        let mut i: usize = 0;
        let n = self.accounts.len();
        while i < n
            invariant
                i <= n,
                n == self.accounts@.len(),
                *self == *old(self),
                forall|j: int| 0 <= j < i ==> (#[trigger] pre.accounts[j]).address != address@,
                pre == self@,
            decreases n - i,
        {
            if self.accounts[i].address == address {
                proof {
                    assert(first_account_at(pre.accounts, address@, i as int));
                }
                self.accounts[i] = Account { address, secret };
                proof {
                    assert(has_account(pre.accounts, address@));
                    let w = choose|k: int| first_account_at(pre.accounts, address@, k);
                    lemma_first_account_unique(pre.accounts, address@, w, i as int);
                    assert(self@.accounts =~= pre.accounts.update(
                        i as int,
                        AccountView { address: address@, secret: secret@ },
                    ));
                    assert(self@.notes =~= pre.notes);
                }
                return ;
            }
            i = i + 1;
        }
        self.accounts.push(Account { address, secret });
        proof {
            assert(!has_account(pre.accounts, address@));
            assert(self@.accounts =~= pre.accounts.push(
                AccountView { address: address@, secret: secret@ },
            ));
            assert(self@.notes =~= pre.notes);
        }
    }

    /// The secret of a known address: the first entry carrying it.
    pub fn get_secret(&self, address: &str) -> (r: Option<&String>)
        ensures
            r is Some <==> has_account(self@.accounts, address@),
            r matches Some(s) ==> exists|i: int|
                first_account_at(self@.accounts, address@, i) && s@ == self@.accounts[i].secret,
    {
        let mut i: usize = 0;
        let n = self.accounts.len();
        while i < n
            invariant
                i <= n,
                n == self.accounts@.len(),
                forall|j: int| 0 <= j < i ==> (#[trigger] self@.accounts[j]).address != address@,
            decreases n - i,
        {
            if str_eq(self.accounts[i].address.as_str(), address) {
                assert(first_account_at(self@.accounts, address@, i as int));
                return Some(&self.accounts[i].secret);
            }
            i = i + 1;
        }
        None
    }

    /// Registers a note: replaces the entry with the same commitment key,
    /// or appends a new one. The accounts are untouched.
    pub fn add_commitment(&mut self, commitment: Commitment)
        ensures
            final(self)@.accounts == old(self)@.accounts,
            final(self)@.notes == inserted(old(self)@.notes, commitment@),
            store_wf(old(self)@) ==> store_wf(final(self)@),
    {
        let ghost pre = self@;
        let ghost nv = commitment@;
        let mut i: usize = 0;
        let n = self.commitments.len();
        while i < n
            invariant
                i <= n,
                n == self.commitments@.len(),
                *self == *old(self),
                forall|j: int| 0 <= j < i ==> (#[trigger] pre.notes[j]).commitment != nv.commitment,
                pre == self@,
                nv == commitment@,
            decreases n - i,
        {
            if str_eq(self.commitments[i].commitment.as_str(), commitment.commitment.as_str()) {
                proof {
                    assert(first_note_at(pre.notes, nv.commitment, i as int));
                }
                self.commitments[i] = commitment;
                proof {
                    assert(has_note(pre.notes, nv.commitment));
                    let w = choose|k: int| first_note_at(pre.notes, nv.commitment, k);
                    lemma_first_note_unique(pre.notes, nv.commitment, w, i as int);
                    assert(self@.notes =~= pre.notes.update(i as int, nv));
                    assert(self@.accounts =~= pre.accounts);
                }
                return ;
            }
            i = i + 1;
        }
        self.commitments.push(commitment);
        proof {
            assert(!has_note(pre.notes, nv.commitment));
            assert(self@.notes =~= pre.notes.push(nv));
            assert(self@.accounts =~= pre.accounts);
        }
    }

    /// The note with this commitment key: the first entry carrying it.
    pub fn get_commitment(&self, commitment_hash: &str) -> (r: Option<&Commitment>)
        ensures
            r is Some <==> has_note(self@.notes, commitment_hash@),
            r matches Some(c) ==> exists|i: int|
                first_note_at(self@.notes, commitment_hash@, i) && c@ == self@.notes[i],
    {
        let mut i: usize = 0;
        let n = self.commitments.len();
        while i < n
            invariant
                i <= n,
                n == self.commitments@.len(),
                forall|j: int| 0 <= j < i ==> (#[trigger] self@.notes[j]).commitment
                    != commitment_hash@,
            decreases n - i,
        {
            if str_eq(self.commitments[i].commitment.as_str(), commitment_hash) {
                assert(first_note_at(self@.notes, commitment_hash@, i as int));
                return Some(&self.commitments[i]);
            }
            i = i + 1;
        }
        None
    }

    /// All unspent notes of an address, in store order.
    pub fn get_unspent_commitments(&self, address: &str) -> (r: Vec<&Commitment>)
        ensures
            r.deep_view() == unspent_for(self@.notes, address@),
    {
        let mut r: Vec<&Commitment> = Vec::new();
        let mut i: usize = 0;
        let n = self.commitments.len();
        while i < n
            invariant
                i <= n,
                n == self.commitments@.len(),
                r.deep_view() == unspent_for(self@.notes.take(i as int), address@),
            decreases n - i,
        {
            let c = &self.commitments[i];
            proof {
                let t = self@.notes.take((i + 1) as int);
                assert(t.drop_last() =~= self@.notes.take(i as int));
                assert(t.last() == self@.notes[i as int]);
            }
            if str_eq(c.address.as_str(), address) && !c.spent {
                r.push(c);
                proof {
                    assert(r.deep_view() =~= unspent_for(
                        self@.notes.take((i + 1) as int),
                        address@,
                    ));
                }
            } else {
                proof {
                    assert(r.deep_view() =~= unspent_for(
                        self@.notes.take((i + 1) as int),
                        address@,
                    ));
                }
            }
            i = i + 1;
        }
        proof {
            assert(self@.notes.take(n as int) =~= self@.notes);
        }
        r
    }

    /// Marks the note with this commitment key spent. Fails, and leaves
    /// the store untouched, exactly when the key is unknown; marking an
    /// already spent note again succeeds.
    pub fn mark_spent(&mut self, commitment_hash: &str) -> (r: Result<(), ClientError>)
        ensures
            r is Ok <==> has_note(old(self)@.notes, commitment_hash@),
            final(self)@.notes == spent_marked(old(self)@.notes, commitment_hash@),
            r is Err ==> final(self)@ == old(self)@,
            r matches Err(e) ==> e matches ClientError::CommitmentNotFound(h) && h@
                == commitment_hash@,
            final(self)@.accounts == old(self)@.accounts,
            store_wf(old(self)@) ==> store_wf(final(self)@),
    {
        let ghost pre = self@;
        let mut i: usize = 0;
        let n = self.commitments.len();
        while i < n
            invariant
                i <= n,
                n == self.commitments@.len(),
                *self == *old(self),
                forall|j: int| 0 <= j < i ==> (#[trigger] pre.notes[j]).commitment
                    != commitment_hash@,
                pre == self@,
            decreases n - i,
        {
            if str_eq(self.commitments[i].commitment.as_str(), commitment_hash) {
                proof {
                    assert(first_note_at(pre.notes, commitment_hash@, i as int));
                }
                self.commitments[i].spent = true;
                proof {
                    assert(has_note(pre.notes, commitment_hash@));
                    let w = choose|k: int| first_note_at(pre.notes, commitment_hash@, k);
                    lemma_first_note_unique(pre.notes, commitment_hash@, w, i as int);
                    assert(self@.notes =~= pre.notes.update(
                        i as int,
                        NoteView { spent: true, ..pre.notes[i as int] },
                    ));
                    assert(self@.accounts =~= pre.accounts);
                }
                return Ok(());
            }
            i = i + 1;
        }
        assert(self@ == pre);
        Err(ClientError::CommitmentNotFound(String::from_str(commitment_hash)))
    }

    /// The total balance of an address: the sum over its unspent notes.
    pub fn get_balance(&self, address: &str) -> (r: u128)
        requires
            balance_of(self@.notes, address@) <= u128::MAX,
        ensures
            r == balance_of(self@.notes, address@),
    {
        let mut total: u128 = 0;
        let mut i: usize = 0;
        let n = self.commitments.len();
        proof {
            lemma_balance_of_nonneg_prefix(self@.notes, address@);
        }
        while i < n
            invariant
                i <= n,
                n == self.commitments@.len(),
                total == balance_of(self@.notes.take(i as int), address@),
                balance_of(self@.notes, address@) <= u128::MAX,
                forall|k: int| 0 <= k <= self@.notes.len() ==> balance_of(
                    #[trigger] self@.notes.take(k),
                    address@,
                ) <= balance_of(self@.notes, address@),
                forall|k: int| 0 <= k <= self@.notes.len() ==> 0 <= balance_of(
                    #[trigger] self@.notes.take(k),
                    address@,
                ),
            decreases n - i,
        {
            let c = &self.commitments[i];
            proof {
                let t = self@.notes.take((i + 1) as int);
                assert(t.drop_last() =~= self@.notes.take(i as int));
                assert(t.last() == self@.notes[i as int]);
            }
            if str_eq(c.address.as_str(), address) && !c.spent {
                total = total + c.balance;
            }
            i = i + 1;
        }
        proof {
            assert(self@.notes.take(n as int) =~= self@.notes);
        }
        total
    }

    /// The total balance of an address, or `None` when the sum of its
    /// unspent notes does not fit the balance width.
    pub fn try_balance(&self, address: &str) -> (r: Option<u128>)
        ensures
            r is Some <==> balance_of(self@.notes, address@) <= u128::MAX,
            r matches Some(v) ==> v == balance_of(self@.notes, address@),
    {
        let mut total: u128 = 0;
        let mut i: usize = 0;
        let n = self.commitments.len();
        proof {
            lemma_balance_of_nonneg_prefix(self@.notes, address@);
        }
        while i < n
            invariant
                i <= n,
                n == self.commitments@.len(),
                total == balance_of(self@.notes.take(i as int), address@),
                forall|k: int| 0 <= k <= self@.notes.len() ==> 0 <= balance_of(
                    #[trigger] self@.notes.take(k),
                    address@,
                ),
            decreases n - i,
        {
            let c = &self.commitments[i];
            proof {
                let t = self@.notes.take((i + 1) as int);
                assert(t.drop_last() =~= self@.notes.take(i as int));
                assert(t.last() == self@.notes[i as int]);
            }
            if str_eq(c.address.as_str(), address) && !c.spent {
                if c.balance > u128::MAX - total {
                    proof {
                        lemma_balance_of_prefix(self@.notes, address@, i + 1);
                    }
                    return None;
                }
                total = total + c.balance;
            }
            i = i + 1;
        }
        proof {
            assert(self@.notes.take(n as int) =~= self@.notes);
        }
        Some(total)
    }

    /// The first unspent note of this address whose balance covers the
    /// amount, if any; no combination of notes is attempted.
    pub fn find_spendable_commitment(&self, address: &str, amount: u128) -> (r: Option<
        &Commitment,
    >)
        ensures
            r is Some <==> exists|i: int| spendable_at(self@.notes, address@, amount, i),
            r matches Some(c) ==> exists|i: int|
                #![auto]
                spendable_at(self@.notes, address@, amount, i) && c@ == self@.notes[i] && forall|
                    j: int,
                |
                    0 <= j < i ==> !spendable_at(self@.notes, address@, amount, j),
    {
        let mut i: usize = 0;
        let n = self.commitments.len();
        while i < n
            invariant
                i <= n,
                n == self.commitments@.len(),
                forall|j: int| 0 <= j < i ==> !spendable_at(self@.notes, address@, amount, j),
            decreases n - i,
        {
            let c = &self.commitments[i];
            if str_eq(c.address.as_str(), address) && !c.spent && c.balance >= amount {
                assert(spendable_at(self@.notes, address@, amount, i as int));
                return Some(c);
            }
            assert(!spendable_at(self@.notes, address@, amount, i as int));
            i = i + 1;
        }
        None
    }

    /// The largest balance among the unspent notes of an address, zero if
    /// it has none.
    pub fn max_unspent_balance(&self, address: &str) -> (r: u128)
        ensures
            r == max_unspent(self@.notes, address@),
    {
        let mut best: u128 = 0;
        let mut i: usize = 0;
        let n = self.commitments.len();
        while i < n
            invariant
                i <= n,
                n == self.commitments@.len(),
                best == max_unspent(self@.notes.take(i as int), address@),
            decreases n - i,
        {
            let c = &self.commitments[i];
            proof {
                let t = self@.notes.take((i + 1) as int);
                assert(t.drop_last() =~= self@.notes.take(i as int));
                assert(t.last() == self@.notes[i as int]);
            }
            if str_eq(c.address.as_str(), address) && !c.spent && c.balance > best {
                best = c.balance;
            }
            i = i + 1;
        }
        proof {
            assert(self@.notes.take(n as int) =~= self@.notes);
        }
        best
    }

    /// Every known address with its balance, in store order.
    pub fn list_accounts(&self) -> (r: Vec<(&String, u128)>)
        requires
            forall|i: int| 0 <= i < self@.accounts.len() ==> balance_of(
                self@.notes,
                (#[trigger] self@.accounts[i]).address,
            ) <= u128::MAX,
        ensures
            r@.len() == self@.accounts.len(),
            forall|i: int| 0 <= i < r@.len() ==> (#[trigger] r@[i]).0@ == self@.accounts[i].address
                && r@[i].1 == balance_of(self@.notes, self@.accounts[i].address),
    {
        let mut r: Vec<(&String, u128)> = Vec::new();
        let mut i: usize = 0;
        let n = self.accounts.len();
        while i < n
            invariant
                i <= n,
                n == self.accounts@.len(),
                r@.len() == i,
                forall|i: int| 0 <= i < self@.accounts.len() ==> balance_of(
                    self@.notes,
                    (#[trigger] self@.accounts[i]).address,
                ) <= u128::MAX,
                forall|j: int| 0 <= j < i ==> (#[trigger] r@[j]).0@ == self@.accounts[j].address
                    && r@[j].1 == balance_of(self@.notes, self@.accounts[j].address),
            decreases n - i,
        {
            let a = &self.accounts[i];
            assert(self@.accounts[i as int].address == a.address@);
            let b = self.get_balance(a.address.as_str());
            r.push((&a.address, b));
            i = i + 1;
        }
        r
    }

    /// The stored notes, in store order. Gives persistence and the
    /// builder a whole view of the ledger.
    pub fn notes(&self) -> (r: &Vec<Commitment>)
        ensures
            r.deep_view() == self@.notes,
    {
        proof {
            assert(self.commitments.deep_view() =~= self@.notes);
        }
        &self.commitments
    }

    /// The known accounts, in store order.
    pub fn accounts(&self) -> (r: &Vec<Account>)
        ensures
            r@.len() == self@.accounts.len(),
            forall|i: int| 0 <= i < r@.len() ==> (#[trigger] r@[i])@ == self@.accounts[i],
    {
        &self.accounts
    }
}

/// The maximum balance over the unspent notes of an address, zero if none.
pub open spec fn max_unspent(notes: Seq<NoteView>, address: Seq<char>) -> u128
    decreases notes.len(),
{
    if notes.len() == 0 {
        0u128
    } else {
        let rest = max_unspent(notes.drop_last(), address);
        if notes.last().address == address && !notes.last().spent && notes.last().balance
            > rest {
            notes.last().balance
        } else {
            rest
        }
    }
}

/// Prefix sums of balances never exceed the whole sum and are nonnegative.
pub proof fn lemma_balance_of_nonneg_prefix(notes: Seq<NoteView>, address: Seq<char>)
    ensures
        forall|k: int| 0 <= k <= notes.len() ==> 0 <= balance_of(
            #[trigger] notes.take(k),
            address,
        ),
        forall|k: int| 0 <= k <= notes.len() ==> balance_of(#[trigger] notes.take(k), address)
            <= balance_of(notes, address),
{
    assert forall|k: int| 0 <= k <= notes.len() implies 0 <= balance_of(
        #[trigger] notes.take(k),
        address,
    ) by {
        lemma_balance_of_nonneg(notes.take(k), address);
    }
    assert forall|k: int| 0 <= k <= notes.len() implies balance_of(
        #[trigger] notes.take(k),
        address,
    ) <= balance_of(notes, address) by {
        lemma_balance_of_prefix(notes, address, k);
    }
}

/// A balance sum is nonnegative.
pub proof fn lemma_balance_of_nonneg(notes: Seq<NoteView>, address: Seq<char>)
    ensures
        0 <= balance_of(notes, address),
    decreases notes.len(),
{
    if notes.len() > 0 {
        lemma_balance_of_nonneg(notes.drop_last(), address);
    }
}

/// An address with no notes has balance zero.
pub proof fn lemma_balance_absent(notes: Seq<NoteView>, address: Seq<char>)
    requires
        forall|i: int| 0 <= i < notes.len() ==> (#[trigger] notes[i]).address != address,
    ensures
        balance_of(notes, address) == 0,
    decreases notes.len(),
{
    if notes.len() > 0 {
        lemma_balance_absent(notes.drop_last(), address);
    }
}

/// Appending a note adds exactly its contribution to a balance.
pub proof fn lemma_balance_push(notes: Seq<NoteView>, n: NoteView, address: Seq<char>)
    ensures
        balance_of(notes.push(n), address) == balance_of(notes, address) + if n.address == address
            && !n.spent {
            n.balance as int
        } else {
            0
        },
{
    assert(notes.push(n).drop_last() =~= notes);
}

/// Marking notes spent keeps every commitment key in place.
pub proof fn lemma_has_note_update_spent(notes: Seq<NoteView>, i: int, key: Seq<char>)
    requires
        0 <= i < notes.len(),
    ensures
        has_note(notes.update(i, mark_note_spent(notes[i])), key) == has_note(notes, key),
{
    let upd = notes.update(i, mark_note_spent(notes[i]));
    assert(forall|j: int| 0 <= j < notes.len() ==> (#[trigger] upd[j]).commitment == (
    #[trigger] notes[j]).commitment);
    if has_note(notes, key) {
        let w = choose|j: int| 0 <= j < notes.len() && (#[trigger] notes[j]).commitment == key;
        assert(upd[w].commitment == key);
    }
    if has_note(upd, key) {
        let w = choose|j: int| 0 <= j < upd.len() && (#[trigger] upd[j]).commitment == key;
        assert(notes[w].commitment == key);
    }
}

/// Marking the note at `i` spent removes exactly its contribution from
/// its address's balance and touches no other note.
pub proof fn lemma_balance_after_spend(notes: Seq<NoteView>, i: int, address: Seq<char>)
    requires
        0 <= i < notes.len(),
    ensures
        balance_of(notes.update(i, mark_note_spent(notes[i])), address) == balance_of(
            notes,
            address,
        ) - if notes[i].address == address && !notes[i].spent {
            notes[i].balance as int
        } else {
            0
        },
    decreases notes.len(),
{
    let upd = notes.update(i, mark_note_spent(notes[i]));
    if i == notes.len() - 1 {
        assert(upd.drop_last() =~= notes.drop_last());
    } else {
        assert(upd.drop_last() =~= notes.drop_last().update(i, mark_note_spent(notes[i])));
        assert(notes.drop_last()[i] == notes[i]);
        lemma_balance_after_spend(notes.drop_last(), i, address);
    }
}

/// No double-spend: once the note carrying key `c` is marked spent, no
/// spendable note carries `c` any more, and the balance of its address no
/// longer counts it.
pub proof fn lemma_no_double_spend(
    notes: Seq<NoteView>,
    c: Seq<char>,
    address: Seq<char>,
    amount: u128,
)
    requires
        forall|i: int, j: int|
            0 <= i < j < notes.len() ==> (#[trigger] notes[i]).commitment != (
            #[trigger] notes[j]).commitment,
        has_note(notes, c),
    ensures
        forall|k: int|
            spendable_at(spent_marked(notes, c), address, amount, k) ==> (
            #[trigger] spent_marked(notes, c)[k]).commitment != c,
        forall|i: int|
            first_note_at(notes, c, i) && notes[i].address == address && !notes[i].spent
                ==> balance_of(spent_marked(notes, c), address) == balance_of(notes, address)
                - notes[i].balance,
        forall|i: int|
            first_note_at(notes, c, i) && notes[i].spent ==> balance_of(
                spent_marked(notes, c),
                address,
            ) == balance_of(notes, address),
{
    lemma_first_note_exists(notes, c);
    let i = choose|i: int| first_note_at(notes, c, i);
    let post = spent_marked(notes, c);
    assert(post == notes.update(i, mark_note_spent(notes[i])));
    assert forall|k: int| spendable_at(post, address, amount, k) implies (
    #[trigger] post[k]).commitment != c by {
        if k == i {
            assert(post[k].spent);
        } else {
            assert(post[k] == notes[k]);
            if notes[k].commitment == c {
                if k < i {
                    assert(notes[k].commitment != c);
                } else {
                    assert(notes[i].commitment != notes[k].commitment);
                }
            }
        }
    }
    assert forall|j: int|
        first_note_at(notes, c, j) && notes[j].address == address
            && !notes[j].spent implies balance_of(post, address) == balance_of(notes, address)
        - notes[j].balance by {
        lemma_first_note_unique(notes, c, i, j);
        lemma_balance_after_spend(notes, i, address);
    }
    assert forall|j: int| first_note_at(notes, c, j) && notes[j].spent implies balance_of(
        post,
        address,
    ) == balance_of(notes, address) by {
        lemma_first_note_unique(notes, c, i, j);
        lemma_balance_after_spend(notes, i, address);
    }
}

/// The spent flag is terminal: a spent note stays spent under any later
/// spend, and under any insert whose key is not the note's own.
pub proof fn lemma_spent_is_terminal(notes: Seq<NoteView>, k: int, n: NoteView, c: Seq<char>)
    requires
        0 <= k < notes.len(),
        notes[k].spent,
        n.commitment != notes[k].commitment,
    ensures
        inserted(notes, n)[k].spent,
        spent_marked(notes, c)[k].spent,
{
    if has_note(notes, n.commitment) {
        let i = choose|i: int| first_note_at(notes, n.commitment, i);
        lemma_first_note_exists(notes, n.commitment);
        assert(i != k);
    }
    if has_note(notes, c) {
        lemma_first_note_exists(notes, c);
        let i = choose|i: int| first_note_at(notes, c, i);
        if i == k {
            assert(spent_marked(notes, c)[k] == mark_note_spent(notes[k]));
        }
    }
}

/// A prefix's balance sum never exceeds the whole sum.
pub proof fn lemma_balance_of_prefix(notes: Seq<NoteView>, address: Seq<char>, k: int)
    requires
        0 <= k <= notes.len(),
    ensures
        balance_of(notes.take(k), address) <= balance_of(notes, address),
    decreases notes.len() - k,
{
    if k == notes.len() {
        assert(notes.take(k) =~= notes);
    } else {
        let t = notes.take(k + 1);
        assert(t.drop_last() =~= notes.take(k));
        assert(t.last() == notes[k]);
        lemma_balance_of_prefix(notes, address, k + 1);
    }
}

} // verus!
