//! Opaque account identifiers.
//!
//! An account is a 32-byte opaque identifier; equality and the total
//! order used for tie-breaking are byte-wise lexicographic.

use vstd::prelude::*;

verus! {

/// A 32-byte opaque account identifier, ordered byte-lexicographically.
#[derive(Clone, Copy, Debug, PartialEq, Eq, Hash)]
pub struct AccountId(pub [u8; 32]);

impl View for AccountId {
    type V = Seq<u8>;

    open spec fn view(&self) -> Seq<u8> {
        self.0@
    }
}

/// Strict byte-lexicographic order: a proper prefix comes first, and the
/// first differing byte decides.
pub open spec fn bytes_lt(a: Seq<u8>, b: Seq<u8>) -> bool
    decreases b.len(),
{
    if b.len() == 0 {
        false
    } else if a.len() == 0 {
        true
    } else if a[0] < b[0] {
        true
    } else if a[0] > b[0] {
        false
    } else {
        bytes_lt(a.skip(1), b.skip(1))
    }
}

impl AccountId {
    /// Builds an account from its raw bytes.
    pub fn from_bytes(bytes: [u8; 32]) -> (r: AccountId)
        ensures
            r == AccountId(bytes),
    {
        AccountId(bytes)
    }

    /// Byte-wise equality.
    pub fn eq_account(&self, other: &AccountId) -> (r: bool)
        ensures
            r == (*self == *other),
    {
        let mut i: usize = 0;
        while i < 32
            invariant
                i <= 32,
                forall|j: int| 0 <= j < i ==> self@[j] == other@[j],
            decreases 32 - i,
        {
            if self.0[i] != other.0[i] {
                proof {
                    assert(self@[i as int] != other@[i as int]);
                    assert(self.0@ != other.0@);
                }
                return false;
            }
            i = i + 1;
        }
        proof {
            broadcast use vstd::array::group_array_axioms;

            assert forall|j: int| 0 <= j < 32 implies self.0@[j] == other.0@[j] by {
                assert(self@[j] == other@[j]);
            }
            assert(self.0 =~= other.0);
        }
        true
    }

    /// Strict byte-lexicographic "less than", the tie-breaking order.
    pub fn lt_account(&self, other: &AccountId) -> (r: bool)
        ensures
            r == bytes_lt(self@, other@),
    {
        let mut i: usize = 0;
        proof {
            assert(self@.skip(0) =~= self@);
            assert(other@.skip(0) =~= other@);
        }
        while i < 32
            invariant
                i <= 32,
                bytes_lt(self@, other@) == bytes_lt(
                    self@.skip(i as int),
                    other@.skip(i as int),
                ),
            decreases 32 - i,
        {
            let x = self.0[i];
            let y = other.0[i];
            proof {
                assert(self@.skip(i as int)[0] == self@[i as int]);
                assert(other@.skip(i as int)[0] == other@[i as int]);
                assert(self@.skip(i as int).skip(1) =~= self@.skip(i + 1));
                assert(other@.skip(i as int).skip(1) =~= other@.skip(i + 1));
            }
            if x < y {
                return true;
            }
            if x > y {
                return false;
            }
            i = i + 1;
        }
        proof {
            assert(self@.skip(32) =~= Seq::<u8>::empty());
            assert(other@.skip(32) =~= Seq::<u8>::empty());
        }
        false
    }
}

/// `bytes_lt` is irreflexive.
pub proof fn lemma_bytes_lt_irrefl(a: Seq<u8>)
    ensures
        !bytes_lt(a, a),
    decreases a.len(),
{
    if a.len() > 0 {
        lemma_bytes_lt_irrefl(a.skip(1));
    }
}

/// `bytes_lt` is transitive.
pub proof fn lemma_bytes_lt_trans(a: Seq<u8>, b: Seq<u8>, c: Seq<u8>)
    requires
        bytes_lt(a, b),
        bytes_lt(b, c),
    ensures
        bytes_lt(a, c),
    decreases a.len(),
{
    if a.len() > 0 && b.len() > 0 && c.len() > 0 {
        if a[0] == b[0] && b[0] == c[0] {
            lemma_bytes_lt_trans(a.skip(1), b.skip(1), c.skip(1));
        }
    }
}

/// `bytes_lt` is connected: two byte strings where neither is below the
/// other are equal.
pub proof fn lemma_bytes_lt_connected(a: Seq<u8>, b: Seq<u8>)
    requires
        !bytes_lt(a, b),
        !bytes_lt(b, a),
    ensures
        a == b,
    decreases a.len(),
{
    if a.len() == 0 || b.len() == 0 {
        assert(a =~= b);
    } else {
        lemma_bytes_lt_connected(a.skip(1), b.skip(1));
        assert(a =~= seq![a[0]] + a.skip(1));
        assert(b =~= seq![b[0]] + b.skip(1));
    }
}

} // verus!
