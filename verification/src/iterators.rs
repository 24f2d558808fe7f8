//! The iterator abstraction shared by the table iterators and the merging
//! iterator, and an in-memory iterator over a fixed sorted run.

use crate::keys::lex_lt;
use vstd::prelude::*;

verus! {

/// Errors surfaced while driving an iterator.
#[derive(Clone, Copy, PartialEq, Eq, Structural, Debug)]
pub enum Error {
    /// An underlying source failed while advancing; carries its fault code.
    Source(u64),
}

/// Entries strictly sorted by key.
pub open spec fn entries_sorted(es: Seq<(Seq<u8>, Seq<u8>)>) -> bool {
    forall|i: int, j: int| 0 <= i < j < es.len() ==> lex_lt(es[i].0, es[j].0)
}

/// A sorted stream of key/value entries driven by the caller.
///
/// `rest` models the entries not yet consumed; `key`/`value` read the front
/// one, `next` drops it. When `is_valid` is false the stream is exhausted and
/// `next` is not called. Implementations may fail while advancing; after an
/// error the stream is considered terminated.
pub trait StorageIterator: Sized {
    /// The implementation's invariant.
    spec fn inv(&self) -> bool;

    /// The entries not yet consumed.
    spec fn rest(&self) -> Seq<(Seq<u8>, Seq<u8>)>;

    /// The remaining entries are strictly sorted by key.
    proof fn lemma_rest_sorted(&self)
        requires
            self.inv(),
        ensures
            entries_sorted(self.rest()),
    ;

    /// The current key.
    fn key(&self) -> (r: &[u8])
        requires
            self.inv(),
            self.rest().len() > 0,
        ensures
            r@ == self.rest()[0].0,
    ;

    /// The current value.
    fn value(&self) -> (r: &[u8])
        requires
            self.inv(),
            self.rest().len() > 0,
        ensures
            r@ == self.rest()[0].1,
    ;

    /// Whether an entry is available.
    fn is_valid(&self) -> (r: bool)
        requires
            self.inv(),
        ensures
            r == (self.rest().len() > 0),
    ;

    /// Drops the front entry.
    fn next(&mut self) -> (r: Result<(), Error>)
        requires
            old(self).inv(),
            old(self).rest().len() > 0,
        ensures
            r is Ok ==> final(self).inv() && final(self).rest() == old(self).rest().skip(1),
    ;
}

/// The views of owned entries.
pub open spec fn entry_views(s: Seq<(Vec<u8>, Vec<u8>)>) -> Seq<(Seq<u8>, Seq<u8>)> {
    s.map_values(|e: (Vec<u8>, Vec<u8>)| (e.0@, e.1@))
}

/// An iterator over a fixed, sorted, in-memory run of entries. A fault step
/// can be configured: advancing onto that index fails with the given code,
/// which exercises consumers' error handling.
pub struct VecIterator {
    /// The entries, strictly sorted by key.
    pub entries: Vec<(Vec<u8>, Vec<u8>)>,
    /// The current position.
    pub idx: usize,
    /// Advancing onto this index fails.
    pub fail_at: Option<usize>,
    /// The fault code reported on failure.
    pub fail_code: u64,
}

impl VecIterator {
    /// Well-formed: sorted entries and an in-range cursor.
    pub open spec fn wf(&self) -> bool {
        &&& entries_sorted(entry_views(self.entries@))
        &&& self.idx <= self.entries@.len()
    }

    /// The entries not yet consumed.
    pub open spec fn spec_rest(&self) -> Seq<(Seq<u8>, Seq<u8>)> {
        entry_views(self.entries@).skip(self.idx as int)
    }

    /// Creates an iterator positioned at the first entry.
    pub fn create(entries: Vec<(Vec<u8>, Vec<u8>)>, fail_at: Option<usize>, fail_code: u64) -> (r:
        VecIterator)
        requires
            entries_sorted(entry_views(entries@)),
        ensures
            r.wf(),
            r.spec_rest() == entry_views(entries@),
            r.fail_at == fail_at,
            r.fail_code == fail_code,
    {
        let r = VecIterator { entries, idx: 0, fail_at, fail_code };
        proof {
            assert(r.spec_rest() =~= entry_views(r.entries@));
        }
        r
    }

    /// Advances the cursor; fails exactly when the configured fault step is
    /// reached, dropping all remaining entries.
    pub fn advance(&mut self) -> (r: Result<(), Error>)
        requires
            old(self).wf(),
            old(self).spec_rest().len() > 0,
        ensures
            final(self).wf(),
            r == if old(self).fail_at == Some((old(self).idx + 1) as usize) {
                Result::<(), Error>::Err(Error::Source(old(self).fail_code))
            } else {
                Result::<(), Error>::Ok(())
            },
            r is Ok ==> final(self).spec_rest() == old(self).spec_rest().skip(1),
            r is Err ==> final(self).spec_rest().len() == 0,
    {
        let n = self.entries.len();
        proof {
            assert(self.idx < n);
        }
        let new_idx = self.idx + 1;
        let failed = match self.fail_at {
            Some(f) => f == new_idx,
            None => false,
        };
        if failed {
            self.idx = self.entries.len();
            proof {
                assert(self.spec_rest().len() == 0);
            }
            return Err(Error::Source(self.fail_code));
        }
        self.idx = new_idx;
        proof {
            assert(self.spec_rest() =~= old(self).spec_rest().skip(1));
        }
        Ok(())
    }
}

impl StorageIterator for VecIterator {
    open spec fn inv(&self) -> bool {
        self.wf()
    }

    open spec fn rest(&self) -> Seq<(Seq<u8>, Seq<u8>)> {
        self.spec_rest()
    }

    proof fn lemma_rest_sorted(&self) {
        assert forall|i: int, j: int| 0 <= i < j < self.spec_rest().len() implies lex_lt(
            self.spec_rest()[i].0,
            self.spec_rest()[j].0,
        ) by {
            assert(self.spec_rest()[i] == entry_views(self.entries@)[self.idx + i]);
            assert(self.spec_rest()[j] == entry_views(self.entries@)[self.idx + j]);
        }
    }

    fn key(&self) -> (r: &[u8]) {
        let e: &(Vec<u8>, Vec<u8>) = &self.entries[self.idx];
        proof {
            assert(entry_views(self.entries@)[self.idx as int].0 == self.entries@[self.idx as int].0@);
            assert(self.spec_rest()[0] == entry_views(self.entries@)[self.idx as int]);
        }
        e.0.as_slice()
    }

    fn value(&self) -> (r: &[u8]) {
        let e: &(Vec<u8>, Vec<u8>) = &self.entries[self.idx];
        proof {
            assert(entry_views(self.entries@)[self.idx as int].1 == self.entries@[self.idx as int].1@);
            assert(self.spec_rest()[0] == entry_views(self.entries@)[self.idx as int]);
        }
        e.1.as_slice()
    }

    fn is_valid(&self) -> (r: bool) {
        self.idx < self.entries.len()
    }

    fn next(&mut self) -> (r: Result<(), Error>)
        ensures
            r == if old(self).fail_at == Some((old(self).idx + 1) as usize) {
                Result::<(), Error>::Err(Error::Source(old(self).fail_code))
            } else {
                Result::<(), Error>::Ok(())
            },
            r is Err ==> final(self).spec_rest().len() == 0,
    {
        self.advance()
    }
}

} // verus!
