//! An in-memory double of the chain collaborator: deterministic and
//! inspectable, for local runs and tests.
//!
//! The real chain is reached over the network by the surrounding binary;
//! this double answers the same queries from recorded state. A nullifier
//! recorded here stays recorded, which is what makes a second spend of
//! the same note detectable.

use vstd::prelude::*;

verus! {

/// The mathematical content of the chain double.
pub ghost struct ChainView {
    pub commitments: Seq<Seq<u8>>,
    pub nullifiers: Seq<Seq<u8>>,
}

/// An in-memory chain: the commitments and nullifiers seen so far, in
/// submission order.
#[derive(Debug)]
pub struct LocalChain {
    commitments: Vec<[u8; 32]>,
    nullifiers: Vec<[u8; 32]>,
}

impl View for LocalChain {
    type V = ChainView;

    closed spec fn view(&self) -> ChainView {
        ChainView {
            commitments: Seq::new(self.commitments@.len(), |i: int| self.commitments@[i]@),
            nullifiers: Seq::new(self.nullifiers@.len(), |i: int| self.nullifiers@[i]@),
        }
    }
}

/// Whether two 32-byte values hold the same bytes.
fn bytes32_eq(a: &[u8; 32], b: &[u8; 32]) -> (r: bool)
    ensures
        r == (a@ == b@),
{
    let mut i: usize = 0;
    while i < 32
        invariant
            i <= 32,
            forall|j: int| 0 <= j < i ==> a@[j] == b@[j],
        decreases 32 - i,
    {
        if a[i] != b[i] {
            return false;
        }
        i = i + 1;
    }
    assert(a@ =~= b@);
    true
}

impl LocalChain {
    /// An empty chain: nothing submitted yet.
    pub fn new() -> (c: Self)
        ensures
            c@.commitments == Seq::<Seq<u8>>::empty(),
            c@.nullifiers == Seq::<Seq<u8>>::empty(),
    {
        let c = LocalChain { commitments: Vec::new(), nullifiers: Vec::new() };
        proof {
            assert(c@.commitments =~= Seq::<Seq<u8>>::empty());
            assert(c@.nullifiers =~= Seq::<Seq<u8>>::empty());
        }
        c
    }

    /// Records a submitted commitment.
    pub fn record_commitment(&mut self, commitment: &[u8; 32])
        ensures
            final(self)@.commitments == old(self)@.commitments.push(commitment@),
            final(self)@.nullifiers == old(self)@.nullifiers,
    {
        let ghost pre = self@;
        self.commitments.push(*commitment);
        proof {
            assert(self@.commitments =~= pre.commitments.push(commitment@));
            assert(self@.nullifiers =~= pre.nullifiers);
        }
    }

    /// Records a revealed nullifier.
    pub fn record_nullifier(&mut self, nullifier: &[u8; 32])
        ensures
            final(self)@.nullifiers == old(self)@.nullifiers.push(nullifier@),
            final(self)@.commitments == old(self)@.commitments,
    {
        let ghost pre = self@;
        self.nullifiers.push(*nullifier);
        proof {
            assert(self@.nullifiers =~= pre.nullifiers.push(nullifier@));
            assert(self@.commitments =~= pre.commitments);
        }
    }

    /// Whether this commitment was ever recorded.
    pub fn has_commitment(&self, commitment: &[u8; 32]) -> (r: bool)
        ensures
            r == self@.commitments.contains(commitment@),
    {
        let n = self.commitments.len();
        let mut i: usize = 0;
        while i < n
            invariant
                i <= n,
                n == self.commitments@.len(),
                forall|j: int| 0 <= j < i ==> #[trigger] self@.commitments[j] != commitment@,
            decreases n - i,
        {
            if bytes32_eq(&self.commitments[i], commitment) {
                assert(self@.commitments[i as int] == commitment@);
                return true;
            }
            i = i + 1;
        }
        assert(forall|j: int|
            0 <= j < self@.commitments.len() ==> #[trigger] self@.commitments[j] != commitment@);
        false
    }

    /// Whether this nullifier was ever recorded: a second spend of the
    /// same note would find its nullifier already used.
    pub fn is_nullifier_used(&self, nullifier: &[u8; 32]) -> (r: bool)
        ensures
            r == self@.nullifiers.contains(nullifier@),
    {
        let n = self.nullifiers.len();
        let mut i: usize = 0;
        while i < n
            invariant
                i <= n,
                n == self.nullifiers@.len(),
                forall|j: int| 0 <= j < i ==> #[trigger] self@.nullifiers[j] != nullifier@,
            decreases n - i,
        {
            if bytes32_eq(&self.nullifiers[i], nullifier) {
                assert(self@.nullifiers[i as int] == nullifier@);
                return true;
            }
            i = i + 1;
        }
        assert(forall|j: int|
            0 <= j < self@.nullifiers.len() ==> #[trigger] self@.nullifiers[j] != nullifier@);
        false
    }

    /// How many commitments were recorded.
    pub fn commitment_count(&self) -> (r: u64)
        requires
            self@.commitments.len() <= u64::MAX,
        ensures
            r == self@.commitments.len(),
    {
        self.commitments.len() as u64
    }
}

} // verus!
