use vstd::prelude::*;

use crate::error::{conflict, TCError};
use crate::transaction::TransactionId;

verus! {

/// A per-value transactional lock: committed versions ordered by
/// transaction id, pending writes visible only to their own transaction,
/// and a floor below which versions have been finalized.
pub struct TxnLock<T> {
    versions: Vec<(TransactionId, T)>,
    pending: Vec<(TransactionId, T)>,
    floor: TransactionId,
}

/// The value of the largest committed version at or before `a`, or the
/// oldest kept version where none is.
pub open spec fn read_committed<T>(vs: Seq<(TransactionId, T)>, a: TransactionId) -> T
    decreases vs.len(),
{
    if vs.len() == 0 {
        arbitrary()
    } else if vs.last().0.le_spec(a) || vs.len() == 1 {
        vs.last().1
    } else {
        read_committed(vs.drop_last(), a)
    }
}

/// The position of the pending write of `a`, if it has one.
pub open spec fn pending_at<T>(ps: Seq<(TransactionId, T)>, a: TransactionId) -> Option<int> {
    if exists|i: int| 0 <= i < ps.len() && ps[i].0 == a {
        Some(choose|i: int| 0 <= i < ps.len() && ps[i].0 == a)
    } else {
        None
    }
}

/// The pending value of `a`, if it has one.
pub open spec fn pending_value<T>(ps: Seq<(TransactionId, T)>, a: TransactionId) -> Option<T> {
    match pending_at(ps, a) {
        Some(i) => Some(ps[i].1),
        None => None,
    }
}

/// Whether the entries of `ps` carry pairwise distinct transaction ids.
pub open spec fn distinct_ids<T>(ps: Seq<(TransactionId, T)>) -> bool {
    forall|i: int, j: int| 0 <= i < j < ps.len() ==> (#[trigger] ps[i].0) != (#[trigger] ps[j].0)
}

impl<T> TxnLock<T> {
    /// The committed versions, ascending by transaction id.
    pub closed spec fn spec_versions(&self) -> Seq<(TransactionId, T)> {
        self.versions@
    }

    /// The pending writes, one per writing transaction.
    pub closed spec fn spec_pending(&self) -> Seq<(TransactionId, T)> {
        self.pending@
    }

    /// The finalize horizon: a transaction before it can no longer read.
    pub closed spec fn spec_floor(&self) -> TransactionId {
        self.floor
    }

    /// The id of the newest committed version.
    pub open spec fn last_committed(&self) -> TransactionId {
        self.spec_versions().last().0
    }

    /// The value transaction `a` observes: its own pending write if it has
    /// one, else the newest committed version at or before `a`.
    pub open spec fn spec_read(&self, a: TransactionId) -> T {
        match pending_value(self.spec_pending(), a) {
            Some(v) => v,
            None => read_committed(self.spec_versions(), a),
        }
    }

    /// At least one committed version, strictly ascending ids, pending ids
    /// distinct.
    pub closed spec fn wf(&self) -> bool {
        &&& self.versions@.len() >= 1
        &&& forall|i: int, j: int| 0 <= i < j < self.versions@.len() ==> (
        #[trigger] self.versions@[i].0).lt_spec(#[trigger] self.versions@[j].0)
        &&& distinct_ids(self.pending@)
    }

    /// A lock born with `initial` committed at the zero transaction id:
    /// every transaction may read and write it from the start.
    pub fn new(initial: T) -> (r: TxnLock<T>)
        ensures
            r.wf(),
            r.spec_versions().len() == 1,
            r.spec_versions()[0].1 == initial,
            r.spec_pending().len() == 0,
            forall|a: TransactionId| r.spec_read(a) == initial,
            forall|a: TransactionId| r.spec_floor().le_spec(a) && r.last_committed().le_spec(a),
    {
        let zero = TransactionId::new(0, 0);
        let mut versions: Vec<(TransactionId, T)> = Vec::new();
        versions.push((zero, initial));
        let r = TxnLock { versions, pending: Vec::new(), floor: zero };
        proof {
            assert forall|a: TransactionId| r.spec_read(a) == initial by {
                assert(pending_at(r.spec_pending(), a) is None);
            }
        }
        r
    }

    /// The value as transaction `a` sees it. A transaction below the
    /// finalize floor can no longer read and is refused with `Conflict`.
    pub fn read(&self, a: &TransactionId) -> (r: Result<&T, TCError>)
        requires
            self.wf(),
        ensures
            r.is_ok() <==> self.spec_floor().le_spec(*a),
            r.is_ok() ==> *r->Ok_0 == self.spec_read(*a),
            r.is_err() ==> r->Err_0.spec_kind() == crate::error::ErrorKind::Conflict,
    {
        if !self.floor.le(a) {
            return Err(conflict("the transaction is older than the finalize horizon".to_owned()));
        }
        let np = self.pending.len();
        for i in 0..np
            invariant
                np == self.spec_pending().len(),
                self.wf(),
                self.spec_floor().le_spec(*a),
                forall|j: int| 0 <= j < i ==> (#[trigger] self.spec_pending()[j].0) != *a,
        {
            if self.pending[i].0 == *a {
                proof {
                    let w = pending_at(self.spec_pending(), *a);
                    assert(w is Some);
                    let k = w->0;
                    assert(self.spec_pending()[k].0 == *a);
                    assert(k == i as int);
                }
                return Ok(&self.pending[i].1);
            }
        }
        proof {
            assert(pending_at(self.spec_pending(), *a) is None);
        }
        let ghost whole = self.spec_versions();
        let mut k: usize = self.versions.len();
        proof {
            assert(whole.subrange(0, k as int) =~= whole);
        }
        while k > 1
            invariant
                1 <= k <= self.spec_versions().len(),
                self.wf(),
                self.spec_floor().le_spec(*a),
                pending_at(self.spec_pending(), *a) is None,
                whole == self.spec_versions(),
                read_committed(whole, *a) == read_committed(whole.subrange(0, k as int), *a),
            decreases k,
        {
            proof {
                assert(whole.subrange(0, k as int).last() == whole[k - 1]);
                assert(whole.subrange(0, k as int).drop_last() =~= whole.subrange(0, k as int - 1));
            }
            if self.versions[k - 1].0.le(a) {
                proof {
                    assert(read_committed(whole.subrange(0, k as int), *a) == whole[k - 1].1);
                }
                return Ok(&self.versions[k - 1].1);
            }
            k = k - 1;
        }
        proof {
            assert(whole.subrange(0, 1).last() == whole[0]);
            assert(whole.subrange(0, 1).len() == 1);
            assert(read_committed(whole.subrange(0, 1), *a) == whole[0].1);
        }
        Ok(&self.versions[0].1)
    }

    /// Record transaction `a`'s write. A transaction older than the newest
    /// committed version, or below the finalize floor, is refused with
    /// `Conflict`. No other transaction's view changes: an uncommitted
    /// write stays invisible to every reader but its own.
    pub fn write(&mut self, a: &TransactionId, value: T) -> (r: Result<(), TCError>)
        requires
            old(self).wf(),
        ensures
            final(self).wf(),
            r.is_ok() <==> (old(self).last_committed().le_spec(*a) && old(self).spec_floor()
                .le_spec(*a)),
            r.is_err() ==> *final(self) == *old(self) && r->Err_0.spec_kind()
                == crate::error::ErrorKind::Conflict,
            r.is_ok() ==> {
                &&& final(self).spec_versions() == old(self).spec_versions()
                &&& final(self).spec_floor() == old(self).spec_floor()
                &&& final(self).spec_read(*a) == value
                &&& forall|b: TransactionId| b != *a ==> final(self).spec_read(b) == old(
                    self,
                ).spec_read(b)
            },
    {
        let last = self.versions.len() - 1;
        if !self.versions[last].0.le(a) || !self.floor.le(a) {
            return Err(conflict("a newer transaction has already committed".to_owned()));
        }
        let np = self.pending.len();
        let ghost oldpending = self.pending@;
        for i in 0..np
            invariant
                np == self.pending@.len(),
                self.wf(),
                *self == *old(self),
                oldpending == self.pending@,
                old(self).last_committed().le_spec(*a),
                old(self).spec_floor().le_spec(*a),
                forall|j: int| 0 <= j < i ==> (#[trigger] self.pending@[j].0) != *a,
        {
            if self.pending[i].0 == *a {
                self.pending[i] = (*a, value);
                proof {
                    lemma_pending_update(oldpending, self.pending@, *a, i as int);
                }
                return Ok(());
            }
        }
        self.pending.push((*a, value));
        proof {
            assert(pending_at(oldpending, *a) is None);
            lemma_pending_push(oldpending, self.pending@, *a);
        }
        Ok(())
    }

    /// Promote `a`'s pending write, if any, to the newest committed
    /// version; a pending write of a transaction no newer than the newest
    /// committed version is discarded. Idempotent: with no pending write
    /// the lock is unchanged.
    pub fn commit(&mut self, a: &TransactionId)
        requires
            old(self).wf(),
        ensures
            final(self).wf(),
            final(self).spec_floor() == old(self).spec_floor(),
            pending_at(final(self).spec_pending(), *a) is None,
            forall|b: TransactionId| b != *a ==> pending_value(final(self).spec_pending(), b)
                == pending_value(old(self).spec_pending(), b),
            match pending_value(old(self).spec_pending(), *a) {
                Some(v) => {
                    if old(self).last_committed().lt_spec(*a) {
                        final(self).spec_versions() == old(self).spec_versions().push((*a, v))
                    } else {
                        final(self).spec_versions() == old(self).spec_versions()
                    }
                },
                None => final(self).spec_versions() == old(self).spec_versions(),
            },
    {
        let np = self.pending.len();
        let ghost oldpending = self.pending@;
        let mut found: Option<usize> = None;
        for i in 0..np
            invariant
                np == self.pending@.len(),
                self.wf(),
                *self == *old(self),
                oldpending == self.pending@,
                found is None ==> forall|j: int| 0 <= j < i ==> (#[trigger] self.pending@[j].0)
                    != *a,
                found matches Some(f) ==> 0 <= f < np && self.pending@[f as int].0 == *a,
        {
            if self.pending[i].0 == *a {
                found = Some(i);
            }
        }
        match found {
            None => {
                proof {
                    assert(pending_at(self.pending@, *a) is None);
                }
            },
            Some(i) => {
                let pair = self.pending.remove(i);
                proof {
                    let w = pending_at(oldpending, *a);
                    assert(w is Some);
                    assert(oldpending[w->0].0 == *a);
                    assert(w->0 == i as int);
                    assert(pending_value(oldpending, *a) == Some(pair.1));
                    lemma_pending_remove(oldpending, self.pending@, *a, i as int);
                }
                let last = self.versions.len() - 1;
                if self.versions[last].0.lt(&pair.0) {
                    self.versions.push(pair);
                }
            },
        }
    }

    /// Forget versions older than the newest one at or before `a`, drop
    /// `a`'s pending write, and raise the finalize floor to `a`.
    /// Idempotent; every transaction from `a` on still reads the committed
    /// value it read before.
    #[verifier::rlimit(40)]
    pub fn finalize(&mut self, a: &TransactionId)
        requires
            old(self).wf(),
        ensures
            final(self).wf(),
            pending_at(final(self).spec_pending(), *a) is None,
            forall|b: TransactionId| b != *a ==> pending_value(final(self).spec_pending(), b)
                == pending_value(old(self).spec_pending(), b),
            forall|b: TransactionId| a.le_spec(b) ==> read_committed(
                final(self).spec_versions(),
                b,
            ) == read_committed(old(self).spec_versions(), b),
            final(self).spec_floor() == (if old(self).spec_floor().le_spec(*a) {
                *a
            } else {
                old(self).spec_floor()
            }),
    {
        let np = self.pending.len();
        let ghost oldpending = self.pending@;
        let mut found: Option<usize> = None;
        for i in 0..np
            invariant
                np == self.pending@.len(),
                self.wf(),
                *self == *old(self),
                oldpending == self.pending@,
                found is None ==> forall|j: int| 0 <= j < i ==> (#[trigger] self.pending@[j].0)
                    != *a,
                found matches Some(f) ==> 0 <= f < np && self.pending@[f as int].0 == *a,
        {
            if self.pending[i].0 == *a {
                found = Some(i);
            }
        }
        match found {
            None => {
                proof {
                    assert(pending_at(self.pending@, *a) is None);
                }
            },
            Some(i) => {
                self.pending.remove(i);
                proof {
                    let w = pending_at(oldpending, *a);
                    assert(w is Some);
                    assert(oldpending[w->0].0 == *a);
                    assert(w->0 == i as int);
                    lemma_pending_remove(oldpending, self.pending@, *a, i as int);
                }
            },
        }

        // Find the newest version at or before `a`; everything older is
        // forgotten.
        let ghost oldversions = self.versions@;
        let ghost pend2 = self.pending@;
        let ghost floor0 = self.spec_floor();
        let nv = self.versions.len();
        let mut base: usize = 0;
        for i in 0..nv
            invariant
                nv == self.versions@.len(),
                self.versions@ == oldversions,
                self.pending@ == pend2,
                self.spec_floor() == floor0,
                self.wf(),
                base <= i,
                base < nv,
                base > 0 ==> self.versions@[base as int].0.le_spec(*a),
                forall|j: int| base < j < i ==> !(#[trigger] self.versions@[j].0).le_spec(*a),
        {
            if self.versions[i].0.le(a) {
                base = i;
            }
        }
        let mut dropped: usize = 0;
        proof {
            assert(oldversions.skip(0) =~= oldversions);
        }
        while dropped < base
            invariant
                dropped <= base < nv,
                nv == oldversions.len(),
                self.versions@ == oldversions.skip(dropped as int),
                self.pending@ == pend2,
                self.spec_floor() == floor0,
            decreases base - dropped,
        {
            proof {
                assert(oldversions.skip(dropped as int).remove(0) =~= oldversions.skip(
                    dropped as int + 1,
                ));
            }
            self.versions.remove(0);
            dropped = dropped + 1;
        }
        proof {
            let kept = oldversions.skip(base as int);
            assert(self.versions@ == kept);
            assert forall|i: int, j: int| 0 <= i < j < kept.len() implies (
            #[trigger] kept[i].0).lt_spec(#[trigger] kept[j].0) by {
                assert(kept[i] == oldversions[base + i]);
                assert(kept[j] == oldversions[base + j]);
            }
            assert forall|b: TransactionId| a.le_spec(b) implies read_committed(kept, b)
                == read_committed(oldversions, b) by {
                lemma_read_skip(oldversions, b, base as int, *a);
            }
        }
        if self.floor.le(a) {
            self.floor = *a;
        }
    }
}

/// Replacing the entry that already carries `a` keeps every other
/// transaction's pending lookup unchanged.
proof fn lemma_pending_update<T>(
    oldp: Seq<(TransactionId, T)>,
    newp: Seq<(TransactionId, T)>,
    a: TransactionId,
    i: int,
)
    requires
        0 <= i < oldp.len(),
        oldp[i].0 == a,
        newp.len() == oldp.len(),
        newp[i].0 == a,
        forall|j: int| 0 <= j < oldp.len() && j != i ==> newp[j] == oldp[j],
        distinct_ids(oldp),
    ensures
        distinct_ids(newp),
        pending_at(newp, a) == Some(i),
        forall|b: TransactionId| b != a ==> pending_value(newp, b) == pending_value(oldp, b),
{
    assert forall|j: int, k: int| 0 <= j < k < newp.len() implies (#[trigger] newp[j].0) != (
    #[trigger] newp[k].0) by {
        if j != i && k != i {
            assert(newp[j] == oldp[j] && newp[k] == oldp[k]);
        } else if j == i {
            assert(newp[k] == oldp[k]);
            assert(oldp[i].0 != oldp[k].0);
        } else {
            assert(newp[j] == oldp[j]);
            assert(oldp[j].0 != oldp[i].0);
        }
    }
    assert(pending_at(newp, a) is Some);
    let w = pending_at(newp, a)->0;
    assert(newp[w].0 == a);
    if w != i {
        assert(newp[w].0 != newp[i].0 || w == i);
    }
    assert forall|b: TransactionId| b != a implies pending_value(newp, b) == pending_value(
        oldp,
        b,
    ) by {
        match pending_at(oldp, b) {
            Some(k) => {
                assert(oldp[k].0 == b);
                assert(k != i);
                assert(newp[k].0 == b);
                assert(pending_at(newp, b) is Some);
                let w2 = pending_at(newp, b)->0;
                assert(newp[w2].0 == b);
                assert(w2 != i);
                assert(w2 == k || newp[w2].0 != newp[k].0);
                assert(newp[w2] == oldp[k]);
            },
            None => {
                if pending_at(newp, b) is Some {
                    let w2 = pending_at(newp, b)->0;
                    assert(newp[w2].0 == b);
                    assert(w2 != i);
                    assert(oldp[w2].0 == b);
                }
            },
        }
    }
}

/// Appending a write for a transaction that had none keeps every other
/// transaction's pending lookup unchanged, and `a`'s lookup now finds it.
proof fn lemma_pending_push<T>(
    oldp: Seq<(TransactionId, T)>,
    newp: Seq<(TransactionId, T)>,
    a: TransactionId,
)
    requires
        pending_at(oldp, a) is None,
        newp.len() == oldp.len() + 1,
        forall|j: int| 0 <= j < oldp.len() ==> newp[j] == oldp[j],
        newp.last().0 == a,
        distinct_ids(oldp),
    ensures
        distinct_ids(newp),
        pending_at(newp, a) == Some(oldp.len() as int),
        newp[oldp.len() as int] == newp.last(),
        forall|b: TransactionId| b != a ==> pending_value(newp, b) == pending_value(oldp, b),
{
    assert forall|j: int| 0 <= j < oldp.len() implies (#[trigger] oldp[j].0) != a by {
        if oldp[j].0 == a {
            assert(pending_at(oldp, a) is Some);
        }
    }
    assert forall|j: int, k: int| 0 <= j < k < newp.len() implies (#[trigger] newp[j].0) != (
    #[trigger] newp[k].0) by {
        if k < oldp.len() {
            assert(newp[j] == oldp[j] && newp[k] == oldp[k]);
        } else {
            assert(newp[j] == oldp[j]);
            assert(newp[k].0 == a);
        }
    }
    assert(pending_at(newp, a) is Some);
    let w = pending_at(newp, a)->0;
    assert(newp[w].0 == a);
    if w < oldp.len() {
        assert(oldp[w].0 == a);
    }
    assert forall|b: TransactionId| b != a implies pending_value(newp, b) == pending_value(
        oldp,
        b,
    ) by {
        match pending_at(oldp, b) {
            Some(k) => {
                assert(oldp[k].0 == b);
                assert(newp[k].0 == b);
                assert(pending_at(newp, b) is Some);
                let w2 = pending_at(newp, b)->0;
                assert(newp[w2].0 == b);
                assert(newp[newp.len() - 1] == newp.last());
                assert(w2 < oldp.len());
                assert(w2 == k || newp[w2].0 != newp[k].0);
                assert(newp[w2] == oldp[k]);
            },
            None => {
                if pending_at(newp, b) is Some {
                    let w2 = pending_at(newp, b)->0;
                    assert(newp[w2].0 == b);
                    assert(newp[newp.len() - 1] == newp.last());
                    assert(w2 < oldp.len());
                    assert(oldp[w2].0 == b);
                }
            },
        }
    }
}

/// Removing the entry that carried `a` keeps every other transaction's
/// pending lookup unchanged, and `a`'s lookup now finds nothing.
pub proof fn lemma_pending_remove<T>(
    oldp: Seq<(TransactionId, T)>,
    newp: Seq<(TransactionId, T)>,
    a: TransactionId,
    i: int,
)
    requires
        0 <= i < oldp.len(),
        oldp[i].0 == a,
        newp == oldp.remove(i),
        distinct_ids(oldp),
    ensures
        distinct_ids(newp),
        pending_at(newp, a) is None,
        forall|b: TransactionId| b != a ==> pending_value(newp, b) == pending_value(oldp, b),
{
    assert forall|j: int| 0 <= j < newp.len() implies (#[trigger] newp[j].0) != a by {
        if j < i {
            assert(newp[j] == oldp[j]);
            assert(oldp[j].0 != oldp[i].0);
        } else {
            assert(newp[j] == oldp[j + 1]);
            assert(oldp[j + 1].0 != oldp[i].0);
        }
    }
    if pending_at(newp, a) is Some {
        let w = pending_at(newp, a)->0;
        assert(newp[w].0 == a);
    }
    assert forall|j: int, k: int| 0 <= j < k < newp.len() implies (#[trigger] newp[j].0) != (
    #[trigger] newp[k].0) by {
        let j2: int = if j < i {
            j
        } else {
            j + 1
        };
        let k2: int = if k < i {
            k
        } else {
            k + 1
        };
        assert(newp[j] == oldp[j2]);
        assert(newp[k] == oldp[k2]);
    }
    assert forall|b: TransactionId| b != a implies pending_value(newp, b) == pending_value(
        oldp,
        b,
    ) by {
        match pending_at(oldp, b) {
            Some(k) => {
                assert(oldp[k].0 == b);
                assert(k != i);
                let k2: int = if k < i {
                    k
                } else {
                    k - 1
                };
                assert(newp[k2] == oldp[k]);
                assert(pending_at(newp, b) is Some);
                let w = pending_at(newp, b)->0;
                assert(newp[w].0 == b);
                let w2: int = if w < i {
                    w
                } else {
                    w + 1
                };
                assert(newp[w] == oldp[w2]);
                assert(oldp[w2].0 == b && oldp[k].0 == b);
                assert(w2 == k || oldp[w2].0 != oldp[k].0);
                assert(w == k2);
                assert(newp[w] == oldp[k]);
            },
            None => {
                if pending_at(newp, b) is Some {
                    let w = pending_at(newp, b)->0;
                    assert(newp[w].0 == b);
                    let w2: int = if w < i {
                        w
                    } else {
                        w + 1
                    };
                    assert(newp[w] == oldp[w2]);
                    assert(oldp[w2].0 == b);
                }
            },
        }
    }
}

/// Reading at `b >= a` only looks at versions from the newest one at or
/// before `a` on, so dropping the older versions keeps every such read.
proof fn lemma_read_skip<T>(
    vs: Seq<(TransactionId, T)>,
    b: TransactionId,
    base: int,
    a: TransactionId,
)
    requires
        0 <= base < vs.len(),
        a.le_spec(b),
        base > 0 ==> vs[base].0.le_spec(a),
        forall|j: int| base < j < vs.len() ==> !(#[trigger] vs[j].0).le_spec(a),
    ensures
        read_committed(vs.skip(base), b) == read_committed(vs, b),
    decreases vs.len(),
{
    if vs.len() - 1 > base {
        let shorter = vs.drop_last();
        assert(vs.skip(base).last() == vs.last());
        if vs.last().0.le_spec(b) {
            assert(read_committed(vs.skip(base), b) == vs.last().1);
            assert(read_committed(vs, b) == vs.last().1);
        } else {
            assert(shorter.skip(base) =~= vs.skip(base).drop_last());
            assert(forall|j: int| base < j < shorter.len() ==> !(
            #[trigger] shorter[j].0).le_spec(a));
            lemma_read_skip(shorter, b, base, a);
            assert(vs.skip(base).len() > 1);
            assert(read_committed(vs.skip(base), b) == read_committed(
                vs.skip(base).drop_last(),
                b,
            ));
            assert(read_committed(vs, b) == read_committed(shorter, b));
        }
    } else {
        assert(vs.skip(base) =~= seq![vs[base]]);
        if base == 0 {
            assert(vs =~= vs.skip(0));
        } else {
            // every version after `base` is newer than `a <= b`... and there
            // are none; the one kept version is the last, so both reads see it
            assert(vs.last() == vs[base]);
        }
    }
}


/// Serializability across transactions. A transaction `b` at or after the
/// newest committed transaction `a`, with no write of its own, observes
/// exactly `a`'s committed value; together with `write`'s guarantee that an
/// uncommitted write changes no other transaction's view, reads follow the
/// total order of transaction ids.
pub proof fn lemma_txn_lock_serializable<T>(
    lock: TxnLock<T>,
    a: TransactionId,
    b: TransactionId,
    v: T,
)
    requires
        lock.wf(),
        lock.last_committed() == a,
        lock.spec_versions().last().1 == v,
        a.le_spec(b),
        pending_at(lock.spec_pending(), b) is None,
    ensures
        lock.spec_read(b) == v,
{
    assert(lock.spec_versions().len() >= 1);
    assert(read_committed(lock.spec_versions(), b) == v);
}

} // verus!
