//! The string pool: an ordered, deduplicated table of byte strings.
//! Interning an existing string returns its prior index; a new string is
//! appended.  Indices of strings already in the pool never change.

use vstd::prelude::*;
use crate::chunk::Chunk;
use crate::write::ssv;

verus! {

/// `b` holds every entry of `a` at the same index, and possibly more.
pub open spec fn pool_extends(a: StringPool, b: StringPool) -> bool {
    a.strs().len() <= b.strs().len() && forall|i: int|
        0 <= i < a.strs().len() ==> b.strs()[i] == #[trigger] a.strs()[i]
}

/// No two entries hold the same bytes.
pub open spec fn distinct(ss: Seq<Seq<u8>>) -> bool {
    forall|i: int, j: int| 0 <= i < j < ss.len() ==> ss[i] != ss[j]
}

/// An ordered, deduplicated table of byte strings with one encoding,
/// chosen at construction, for all entries.
pub struct StringPool {
    pub utf8: bool,
    pub strings: Vec<Vec<u8>>,
}

/// Compares two byte strings.
#[verifier::loop_isolation(false)]
pub fn bytes_eq(a: &Vec<u8>, b: &Vec<u8>) -> (r: bool)
    ensures
        r == (a@ == b@),
{
    if a.len() != b.len() {
        proof {
            assert(a@ != b@);
        }
        return false;
    }
    let n = a.len();
    let mut i: usize = 0;
    while i < n
        invariant
            i <= n,
            forall|k: int| 0 <= k < i ==> a@[k] == b@[k],
        decreases n - i,
    {
        if a[i] != b[i] {
            return false;
        }
        i = i + 1;
    }
    proof {
        assert(a@ =~= b@);
    }
    true
}

impl StringPool {
    /// The pool's model: the sequence of its entries.
    pub open spec fn strs(&self) -> Seq<Seq<u8>> {
        ssv(self.strings@)
    }

    /// The pool's invariant: entries are deduplicated.
    pub open spec fn inv(&self) -> bool {
        distinct(self.strs())
    }

    /// An empty pool with the given encoding.
    pub fn new(utf8: bool) -> (p: StringPool)
        ensures
            p.inv(),
            p.strs() == Seq::<Seq<u8>>::empty(),
            p.utf8 == utf8,
    {
        let p = StringPool { utf8, strings: Vec::new() };
        proof {
            assert(p.strs() =~= Seq::<Seq<u8>>::empty());
        }
        p
    }

    /// The index of `s` if it is present.
    #[verifier::loop_isolation(false)]
    pub fn find(&self, s: &Vec<u8>) -> (r: Option<usize>)
        ensures
            match r {
                Some(i) => i < self.strs().len() && self.strs()[i as int] == s@,
                None => !self.strs().contains(s@),
            },
    {
        let n = self.strings.len();
        let mut i: usize = 0;
        while i < n
            invariant
                i <= n,
                forall|k: int| 0 <= k < i ==> self.strs()[k] != s@,
            decreases n - i,
        {
            if bytes_eq(&self.strings[i], s) {
                return Some(i);
            }
            i = i + 1;
        }
        proof {
            assert forall|k: int| 0 <= k < self.strs().len() implies self.strs()[k] != s@ by {}
            assert(!self.strs().contains(s@));
        }
        None
    }

    /// Interns `s`: returns the existing index when the pool already holds
    /// these bytes, else appends and returns the new index.  Existing
    /// entries and their indices are never disturbed.
    pub fn intern(&mut self, s: Vec<u8>) -> (idx: usize)
        requires
            old(self).inv(),
        ensures
            final(self).inv(),
            final(self).utf8 == old(self).utf8,
            idx < final(self).strs().len(),
            final(self).strs()[idx as int] == s@,
            old(self).strs().contains(s@) ==> final(self).strs() == old(self).strs() && old(
                self,
            ).strs()[idx as int] == s@,
            !old(self).strs().contains(s@) ==> final(self).strs() == old(self).strs().push(s@)
                && idx == old(self).strs().len(),
            forall|i: int|
                0 <= i < old(self).strs().len() ==> final(self).strs()[i] == old(self).strs()[i],
    {
        match self.find(&s) {
            Some(i) => {
                proof {
                    assert(old(self).strs().contains(s@)) by {
                        assert(old(self).strs()[i as int] == s@);
                    }
                }
                i
            },
            None => {
                let idx = self.strings.len();
                self.strings.push(s);
                proof {
                    assert(self.strs() =~= old(self).strs().push(s@));
                    assert forall|i: int, j: int| 0 <= i < j < self.strs().len() implies self.strs()[i]
                        != self.strs()[j] by {
                        if j == old(self).strs().len() {
                            assert(self.strs()[j] == s@);
                            assert(!old(self).strs().contains(s@));
                            assert(old(self).strs()[i] != s@);
                        }
                    }
                }
                idx
            },
        }
    }

    /// The pool as a chunk, ready for serialization.
    pub fn to_chunk(self) -> (c: Chunk)
        ensures
            c == (Chunk::StringPool { utf8: self.utf8, strings: self.strings }),
    {
        Chunk::StringPool { utf8: self.utf8, strings: self.strings }
    }
}

/// Pool deduplication: a string present in a deduplicated pool has exactly
/// one index, so interning it again returns that index and adds nothing,
/// and a pool's serialized entry count counts each distinct string once.
pub proof fn lemma_dedup_unique_index(ss: Seq<Seq<u8>>, s: Seq<u8>, i: int, j: int)
    requires
        distinct(ss),
        0 <= i < ss.len(),
        0 <= j < ss.len(),
        ss[i] == s,
        ss[j] == s,
    ensures
        i == j,
{
}

} // verus!
