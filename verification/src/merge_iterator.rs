//! K-way merge of sorted iterators with index tie-breaking: when several
//! children expose the same key, the child with the smallest input index
//! wins, and every other child holding that key is advanced past it before
//! the next entry is served.

use crate::iterators::{Error, StorageIterator};
use crate::keys::{compare_keys, lemma_lex_lt_trans, lemma_lex_total, lex_lt, KeyOrdering};
use vstd::prelude::*;
use vstd::slice::slice_to_vec;

verus! {

/// The modelled children: original input index and remaining entries.
pub open spec fn merge_kids<I: StorageIterator>(iters: Seq<(usize, I)>) -> Seq<
    (int, Seq<(Seq<u8>, Seq<u8>)>),
> {
    iters.map_values(|p: (usize, I)| (p.0 as int, p.1.rest()))
}

/// Every child whose head key is `k` loses it.
pub open spec fn advance_heads(
    cs: Seq<(int, Seq<(Seq<u8>, Seq<u8>)>)>,
    k: Seq<u8>,
) -> Seq<(int, Seq<(Seq<u8>, Seq<u8>)>)> {
    cs.map_values(
        |c: (int, Seq<(Seq<u8>, Seq<u8>)>)|
            if c.1.len() > 0 && c.1[0].0 == k {
                (c.0, c.1.skip(1))
            } else {
                c
            },
    )
}

/// Exhausted children are dropped.
pub open spec fn drop_empties(cs: Seq<(int, Seq<(Seq<u8>, Seq<u8>)>)>) -> Seq<
    (int, Seq<(Seq<u8>, Seq<u8>)>),
> {
    cs.filter(|c: (int, Seq<(Seq<u8>, Seq<u8>)>)| c.1.len() > 0)
}

/// One merge step: consume key `k` from every child holding it at the front
/// and drop the children that ran out.
pub open spec fn merge_step(
    cs: Seq<(int, Seq<(Seq<u8>, Seq<u8>)>)>,
    k: Seq<u8>,
) -> Seq<(int, Seq<(Seq<u8>, Seq<u8>)>)> {
    drop_empties(advance_heads(cs, k))
}

/// What one child looks like after the step that consumes key `k`.
pub open spec fn advanced_kid(
    c: (int, Seq<(Seq<u8>, Seq<u8>)>),
    k: Seq<u8>,
) -> (int, Seq<(Seq<u8>, Seq<u8>)>) {
    if c.1.len() > 0 && c.1[0].0 == k {
        (c.0, c.1.skip(1))
    } else {
        c
    }
}

/// A merge step treats each child independently.
pub proof fn lemma_merge_step_push(
    cs: Seq<(int, Seq<(Seq<u8>, Seq<u8>)>)>,
    c: (int, Seq<(Seq<u8>, Seq<u8>)>),
    k: Seq<u8>,
)
    ensures
        merge_step(cs.push(c), k) == if advanced_kid(c, k).1.len() > 0 {
            merge_step(cs, k).push(advanced_kid(c, k))
        } else {
            merge_step(cs, k)
        },
{
    broadcast use vstd::seq::Seq::lemma_filter_push;

    assert(advance_heads(cs.push(c), k) =~= advance_heads(cs, k).push(advanced_kid(c, k)));
    assert(merge_step(cs.push(c), k) == drop_empties(
        advance_heads(cs, k).push(advanced_kid(c, k)),
    ));
}

/// Merges `N` sorted child iterators into one ascending stream. Children of
/// smaller input index shadow equal keys of larger ones.
pub struct MergeIterator<I: StorageIterator> {
    /// The live children, tagged with their input index, in input order.
    pub iters: Vec<(usize, I)>,
    /// The position of the current child; zero on the empty vector when the
    /// merge is exhausted or terminated by an error.
    pub current: usize,
}

impl<I: StorageIterator> MergeIterator<I> {
    /// The head key of live child `j`.
    pub open spec fn kid_key(&self, j: int) -> Seq<u8> {
        self.iters@[j].1.rest()[0].0
    }

    /// Well-formed merge state: live children are valid and hold their
    /// invariant, input indices are strictly increasing, and the current
    /// child is minimal by key, then by input index.
    pub open spec fn inv(&self) -> bool {
        &&& forall|j: int|
            0 <= j < self.iters@.len() ==> (#[trigger] self.iters@[j]).1.inv()
                && self.iters@[j].1.rest().len() > 0
        &&& forall|j: int, k: int|
            0 <= j < k < self.iters@.len() ==> (#[trigger] self.iters@[j]).0 < (
            #[trigger] self.iters@[k]).0
        &&& if self.iters@.len() == 0 {
            self.current == 0
        } else {
            self.current < self.iters@.len()
        }
        &&& forall|j: int|
            0 <= j < self.iters@.len() && j != self.current ==> lex_lt(
                self.kid_key(self.current as int),
                #[trigger] self.kid_key(j),
            ) || (self.kid_key(self.current as int) == self.kid_key(j) && self.current < j)
    }

    /// The merge holds an entry.
    pub open spec fn spec_valid(&self) -> bool {
        self.iters@.len() > 0
    }

    /// The current key.
    pub open spec fn spec_key(&self) -> Seq<u8> {
        self.kid_key(self.current as int)
    }

    /// The current value.
    pub open spec fn spec_value(&self) -> Seq<u8> {
        self.iters@[self.current as int].1.rest()[0].1
    }

    /// Scans for the position of the smallest `(head key, input index)` pair.
    fn find_min(&self) -> (r: usize)
        requires
            forall|j: int|
                0 <= j < self.iters@.len() ==> (#[trigger] self.iters@[j]).1.inv()
                    && self.iters@[j].1.rest().len() > 0,
            forall|j: int, k: int|
                0 <= j < k < self.iters@.len() ==> (#[trigger] self.iters@[j]).0 < (
                #[trigger] self.iters@[k]).0,
            self.iters@.len() > 0,
        ensures
            r < self.iters@.len(),
            forall|j: int|
                0 <= j < self.iters@.len() && j != r ==> lex_lt(
                    self.kid_key(r as int),
                    #[trigger] self.kid_key(j),
                ) || (self.kid_key(r as int) == self.kid_key(j) && r < j),
    {
        let mut best: usize = 0;
        let mut j: usize = 1;
        let n = self.iters.len();
        while j < n
            invariant
                0 <= best < j <= n,
                n == self.iters@.len(),
                n > 0,
                forall|q: int|
                    0 <= q < self.iters@.len() ==> (#[trigger] self.iters@[q]).1.inv()
                        && self.iters@[q].1.rest().len() > 0,
                forall|q: int|
                    0 <= q < j && q != best ==> lex_lt(
                        self.kid_key(best as int),
                        #[trigger] self.kid_key(q),
                    ) || (self.kid_key(best as int) == self.kid_key(q) && best < q),
            decreases n - j,
        {
            let cand = self.iters[j].1.key();
            let cur = self.iters[best].1.key();
            proof {
                lemma_lex_total(cand@, cur@);
            }
            let ghost old_best = best as int;
            match compare_keys(cand, cur) {
                KeyOrdering::Less => {
                    best = j;
                    proof {
                        assert forall|q: int| 0 <= q < j + 1 && q != best implies lex_lt(
                            self.kid_key(best as int),
                            #[trigger] self.kid_key(q),
                        ) || (self.kid_key(best as int) == self.kid_key(q) && best < q) by {
                            if q == old_best {
                            } else if lex_lt(self.kid_key(old_best), self.kid_key(q)) {
                                lemma_lex_lt_trans(
                                    self.kid_key(best as int),
                                    self.kid_key(old_best),
                                    self.kid_key(q),
                                );
                            }
                        }
                    }
                },
                _ => {},
            }
            j = j + 1;
        }
        best
    }

    /// Builds a merge over the children, keeping the valid ones in input
    /// order and picking the minimal one as current.
    pub fn create(iters: Vec<Box<I>>) -> (r: MergeIterator<I>)
        requires
            forall|j: int| 0 <= j < iters@.len() ==> (*(#[trigger] iters@[j])).inv(),
        ensures
            r.inv(),
            // Each live child is an input child, still at its first entry.
            forall|j: int|
                0 <= j < r.iters@.len() ==> (#[trigger] r.iters@[j]).0 < iters@.len()
                    && r.iters@[j].1 == *iters@[r.iters@[j].0 as int],
            // Every input child with entries left is live.
            forall|m: int|
                0 <= m < iters@.len() && (*(#[trigger] iters@[m])).rest().len() > 0 ==> exists|
                    j: int,
                |
                    0 <= j < r.iters@.len() && (#[trigger] r.iters@[j]).0 == m,
            r.spec_valid() <==> exists|m: int|
                0 <= m < iters@.len() && (*(#[trigger] iters@[m])).rest().len() > 0,
    {
        let n_input_exec: usize = iters.len();
        let ghost input = iters@;
        let mut rem = iters;
        let mut live: Vec<(usize, I)> = Vec::new();
        let mut m: usize = 0;
        while rem.len() > 0
            invariant
                n_input_exec == input.len(),
                m + rem@.len() == input.len(),
                forall|q: int| 0 <= q < rem@.len() ==> rem@[q] == input[m + q],
                forall|j: int| 0 <= j < input.len() ==> (*(#[trigger] input[j])).inv(),
                forall|j: int|
                    0 <= j < live@.len() ==> (#[trigger] live@[j]).0 < m && live@[j].1 == *input[
                        live@[j].0 as int] && live@[j].1.inv() && live@[j].1.rest().len() > 0,
                forall|j: int, k: int|
                    0 <= j < k < live@.len() ==> (#[trigger] live@[j]).0 < (
                    #[trigger] live@[k]).0,
                forall|q: int|
                    0 <= q < m && (*(#[trigger] input[q])).rest().len() > 0 ==> exists|j: int|
                        0 <= j < live@.len() && (#[trigger] live@[j]).0 == q,
            decreases rem@.len(),
        {
            let it = rem.remove(0);
            let valid = it.is_valid();
            if valid {
                let ghost prev = live@;
                live.push((m, *it));
                proof {
                    assert forall|q: int|
                        0 <= q < m + 1 && (*(#[trigger] input[q])).rest().len() > 0 implies exists|
                        j: int,
                    |
                        0 <= j < live@.len() && (#[trigger] live@[j]).0 == q by {
                        if q < m {
                            let w = choose|j: int|
                                0 <= j < prev.len() && (#[trigger] prev[j]).0 == q;
                            assert(live@[w].0 == q);
                        } else {
                            assert(live@[live@.len() - 1].0 == q);
                        }
                    }
                }
            }
            m = m + 1;
        }
        if live.len() == 0 {
            let r = MergeIterator { iters: live, current: 0 };
            proof {
                assert forall|mm: int|
                    0 <= mm < input.len() implies !((*(#[trigger] input[mm])).rest().len()
                    > 0) by {
                    if (*input[mm]).rest().len() > 0 {
                        assert(exists|j: int|
                            0 <= j < live@.len() && (#[trigger] live@[j]).0 == mm);
                    }
                }
            }
            r
        } else {
            let tmp = MergeIterator { iters: live, current: 0 };
            let best = tmp.find_min();
            let r = MergeIterator { iters: tmp.iters, current: best };
            proof {
                assert(r.iters@ == tmp.iters@);
                assert forall|j: int|
                    0 <= j < r.iters@.len() && j != r.current implies lex_lt(
                        r.kid_key(r.current as int),
                        #[trigger] r.kid_key(j),
                    ) || (r.kid_key(r.current as int) == r.kid_key(j) && r.current < j) by {
                    assert(r.kid_key(j) == tmp.kid_key(j));
                    assert(r.kid_key(r.current as int) == tmp.kid_key(best as int));
                }
                assert(r.inv());
                assert(r.iters@[0].0 < input.len());
                assert((*input[r.iters@[0].0 as int]).rest().len() > 0);
            }
            r
        }
    }

    /// The current key.
    pub fn key(&self) -> (r: &[u8])
        requires
            self.inv(),
            self.spec_valid(),
        ensures
            r@ == self.spec_key(),
    {
        self.iters[self.current].1.key()
    }

    /// The current value.
    pub fn value(&self) -> (r: &[u8])
        requires
            self.inv(),
            self.spec_valid(),
        ensures
            r@ == self.spec_value(),
    {
        self.iters[self.current].1.value()
    }

    /// Whether the merge holds an entry.
    pub fn is_valid(&self) -> (r: bool)
        requires
            self.inv(),
        ensures
            r == self.spec_valid(),
    {
        self.current < self.iters.len()
    }

    /// Serves the next entry: every child whose head equals the current key
    /// is advanced past it (equal keys of higher input index are shadowed
    /// duplicates), exhausted children are dropped, and the minimal child
    /// becomes current. A child error terminates the merge and propagates.
    pub fn next(&mut self) -> (r: Result<(), Error>)
        requires
            old(self).inv(),
            old(self).spec_valid(),
        ensures
            final(self).inv(),
            r is Ok ==> merge_kids(final(self).iters@) == merge_step(
                merge_kids(old(self).iters@),
                old(self).spec_key(),
            ),
            r is Ok && final(self).spec_valid() ==> lex_lt(
                old(self).spec_key(),
                final(self).spec_key(),
            ),
            r is Err ==> !final(self).spec_valid(),
    {
        broadcast use vstd::seq_lib::group_seq_properties;

        let old_key = slice_to_vec(self.iters[self.current].1.key());
        let ghost k = old_key@;
        let ghost kids0 = merge_kids(old(self).iters@);
        let mut j: usize = 0;
        let ghost mut g: int = 0;
        proof {
            assert(kids0.take(0) =~= Seq::<(int, Seq<(Seq<u8>, Seq<u8>)>)>::empty());
            assert(merge_step(kids0.take(0), k) =~= Seq::<
                (int, Seq<(Seq<u8>, Seq<u8>)>),
            >::empty());
            assert(merge_kids(self.iters@) =~= merge_step(kids0.take(g), k) + kids0.skip(g));
            assert forall|q: int| 0 <= q < self.iters@.len() implies lex_lt(
                k,
                (#[trigger] self.iters@[q]).1.rest()[0].0,
            ) || (self.iters@[q]).1.rest()[0].0 == k by {
                assert(self.kid_key(q) == self.iters@[q].1.rest()[0].0);
                assert(self.kid_key(self.current as int) == k);
            }
        }
        while j < self.iters.len()
            invariant
                0 <= g <= kids0.len(),
                kids0 == merge_kids(old(self).iters@),
                k == old(self).spec_key(),
                j as int == merge_step(kids0.take(g), k).len(),
                j <= self.iters@.len(),
                old_key@ == k,
                merge_kids(self.iters@) == merge_step(kids0.take(g), k) + kids0.skip(g),
                self.iters@.len() - j == kids0.len() - g,
                forall|q: int|
                    0 <= q < self.iters@.len() ==> (#[trigger] self.iters@[q]).1.inv()
                        && self.iters@[q].1.rest().len() > 0,
                forall|q: int, w: int|
                    0 <= q < w < self.iters@.len() ==> (#[trigger] self.iters@[q]).0 < (
                    #[trigger] self.iters@[w]).0,
                // Processed children sit strictly above the consumed key.
                forall|q: int|
                    0 <= q < j ==> lex_lt(k, (#[trigger] self.iters@[q]).1.rest()[0].0),
                // Unprocessed children sit at or above it.
                forall|q: int|
                    j <= q < self.iters@.len() ==> lex_lt(
                        k,
                        (#[trigger] self.iters@[q]).1.rest()[0].0,
                    ) || (self.iters@[q]).1.rest()[0].0 == k,
            decreases self.iters@.len() - j,
        {
            let ghost pre = self.iters@;
            let cmp = compare_keys(self.iters[j].1.key(), old_key.as_slice());
            proof {
                lemma_lex_total(self.kid_key(j as int), k);
            }
            if matches!(cmp, KeyOrdering::Equal) {
                proof {
                    assert(merge_kids(pre)[j as int] == kids0[g]);
                    assert(pre[j as int].1.rest() == kids0[g].1);
                    assert(kids0[g].1.len() > 0);
                    assert(kids0[g].1[0].0 == k);
                    assert(kids0.take(g + 1) =~= kids0.take(g).push(kids0[g]));
                    lemma_merge_step_push(kids0.take(g), kids0[g], k);
                }
                let mut e = self.iters.remove(j);
                proof {
                    e.1.lemma_rest_sorted();
                }
                let res = e.1.next();
                if res.is_err() {
                    self.iters.clear();
                    self.current = 0;
                    proof {
                        assert(!self.spec_valid());
                    }
                    return res;
                }
                let still = e.1.is_valid();
                if still {
                    self.iters.insert(j, e);
                    proof {
                        assert(e.1.rest() == kids0[g].1.skip(1));
                        assert(advanced_kid(kids0[g], k) == (kids0[g].0, kids0[g].1.skip(1)));
                        assert(advanced_kid(kids0[g], k).1.len() > 0);
                        assert(merge_step(kids0.take(g + 1), k) == merge_step(
                            kids0.take(g),
                            k,
                        ).push(advanced_kid(kids0[g], k)));
                        assert(self.iters@ =~= pre.update(j as int, (pre[j as int].0, e.1)));
                        assert(merge_kids(self.iters@) =~= merge_kids(pre).update(
                            j as int,
                            advanced_kid(kids0[g], k),
                        ));
                        assert(merge_kids(self.iters@) =~= merge_step(kids0.take(g + 1), k)
                            + kids0.skip(g + 1));
                        assert forall|q: int| 0 <= q < j implies #[trigger] self.iters@[q]
                            == pre[q] by {}
                        assert forall|q: int|
                            j < q < self.iters@.len() implies #[trigger] self.iters@[q] == pre[
                            q] by {}
                        assert(kids0[g].1.skip(1).len() > 0);
                        assert(lex_lt(kids0[g].1[0].0, kids0[g].1[1].0)) by {
                            assert(crate::iterators::entries_sorted(kids0[g].1));
                        }
                        assert(self.kid_key(j as int) == kids0[g].1.skip(1)[0].0);
                        assert(kids0[g].1.skip(1)[0] == kids0[g].1[1]);
                        assert(lex_lt(k, self.kid_key(j as int)));
                    }
                    j = j + 1;
                } else {
                    proof {
                        assert(e.1.rest() == kids0[g].1.skip(1));
                        assert(advanced_kid(kids0[g], k).1.len() == 0);
                        assert(merge_step(kids0.take(g + 1), k) == merge_step(kids0.take(g), k));
                        assert(self.iters@ =~= pre.remove(j as int));
                        assert(merge_kids(self.iters@) =~= merge_kids(pre).remove(j as int));
                        assert(merge_kids(self.iters@) =~= merge_step(kids0.take(g + 1), k)
                            + kids0.skip(g + 1));
                        assert forall|q: int| 0 <= q < j implies #[trigger] self.iters@[q]
                            == pre[q] by {}
                        assert forall|q: int|
                            j <= q < self.iters@.len() implies #[trigger] self.iters@[q] == pre[
                            q + 1] by {}
                    }
                }
                proof {
                    g = g + 1;
                }
            } else {
                proof {
                    assert(merge_kids(pre)[j as int] == kids0[g]);
                    assert(self.kid_key(j as int) == kids0[g].1[0].0);
                    assert(self.kid_key(j as int) != k);
                    assert(lex_lt(k, self.kid_key(j as int)));
                    assert(kids0.take(g + 1) =~= kids0.take(g).push(kids0[g]));
                    lemma_merge_step_push(kids0.take(g), kids0[g], k);
                    assert(advanced_kid(kids0[g], k) == kids0[g]);
                    assert(kids0[g].1.len() > 0);
                    assert(merge_step(kids0.take(g + 1), k) == merge_step(kids0.take(g), k).push(
                        kids0[g],
                    ));
                    assert(merge_kids(self.iters@) =~= merge_step(kids0.take(g + 1), k)
                        + kids0.skip(g + 1));
                    g = g + 1;
                }
                j = j + 1;
            }
        }
        proof {
            assert(kids0.take(kids0.len() as int) =~= kids0);
            assert(kids0.skip(kids0.len() as int) =~= Seq::<
                (int, Seq<(Seq<u8>, Seq<u8>)>),
            >::empty());
            assert(merge_kids(self.iters@) =~= merge_step(kids0, k));
        }
        if self.iters.len() == 0 {
            self.current = 0;
            return Ok(());
        }
        let best = self.find_min();
        let ghost its = self.iters@;
        proof {
            assert forall|q: int| 0 <= q < its.len() && q != best implies lex_lt(
                its[best as int].1.rest()[0].0,
                (#[trigger] its[q]).1.rest()[0].0,
            ) || (its[best as int].1.rest()[0].0 == its[q].1.rest()[0].0 && best < q) by {
                assert(self.kid_key(q) == its[q].1.rest()[0].0);
                assert(self.kid_key(best as int) == its[best as int].1.rest()[0].0);
            }
        }
        self.current = best;
        proof {
            assert(self.iters@ == its);
            assert forall|q: int|
                0 <= q < self.iters@.len() && q != self.current implies lex_lt(
                self.kid_key(self.current as int),
                #[trigger] self.kid_key(q),
            ) || (self.kid_key(self.current as int) == self.kid_key(q)
                && self.current < q) by {
                assert(self.kid_key(q) == its[q].1.rest()[0].0);
                assert(self.kid_key(self.current as int) == its[best as int].1.rest()[0].0);
            }
            assert(self.inv());
            assert(lex_lt(k, its[best as int].1.rest()[0].0));
            assert(self.spec_key() == its[best as int].1.rest()[0].0);
        }
        Ok(())
    }
}

/// Once the merge has moved past a key, no child still holds it anywhere in
/// its remaining entries. Together with the strictly ascending output of
/// `next`, every key the children hold is served exactly once.
pub proof fn lemma_passed_key_gone<I: StorageIterator>(m: &MergeIterator<I>, k: Seq<u8>)
    requires
        m.inv(),
        m.spec_valid() ==> lex_lt(k, m.spec_key()),
    ensures
        forall|j: int, e: int|
            0 <= j < m.iters@.len() && 0 <= e < m.iters@[j].1.rest().len() ==> lex_lt(
                k,
                (#[trigger] m.iters@[j].1.rest()[e]).0,
            ),
{
    assert forall|j: int, e: int|
        0 <= j < m.iters@.len() && 0 <= e < m.iters@[j].1.rest().len() implies lex_lt(
        k,
        (#[trigger] m.iters@[j].1.rest()[e]).0,
    ) by {
        let head = m.kid_key(j);
        assert(lex_lt(k, head)) by {
            if j != m.current {
                if lex_lt(m.spec_key(), head) {
                    lemma_lex_lt_trans(k, m.spec_key(), head);
                }
            }
        }
        if e > 0 {
            m.iters@[j].1.lemma_rest_sorted();
            assert(lex_lt(head, m.iters@[j].1.rest()[e].0));
            lemma_lex_lt_trans(k, head, m.iters@[j].1.rest()[e].0);
        }
    }
}

/// The entry served is the one of the lowest input index among the children
/// holding the minimal key: equal keys of higher-indexed children are
/// shadowed.
pub proof fn lemma_lowest_index_wins<I: StorageIterator>(m: &MergeIterator<I>)
    requires
        m.inv(),
        m.spec_valid(),
    ensures
        m.spec_value() == m.iters@[m.current as int].1.rest()[0].1,
        forall|j: int|
            0 <= j < m.iters@.len() && #[trigger] m.kid_key(j) == m.spec_key()
                ==> m.iters@[m.current as int].0 <= m.iters@[j].0,
{
    assert forall|j: int|
        0 <= j < m.iters@.len() && #[trigger] m.kid_key(j) == m.spec_key() implies m.iters@[
        m.current as int].0 <= m.iters@[j].0 by {
        if j != m.current {
            lemma_lex_total(m.spec_key(), m.kid_key(j));
            assert(m.current < j);
        }
    }
}

} // verus!
