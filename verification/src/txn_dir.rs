use vstd::prelude::*;

use crate::cache::Cache;
use crate::error::{conflict, TCError};
use crate::fs::{path_prefix, Disk, FsPath, PathSegment, SegView};
use crate::transaction::TransactionId;
use crate::txn_file::{
    canonical_of, commit_touches, listing_contains, version_dir_of, version_of, TxnFile,
};
use crate::txn_lock::TxnLock;

verus! {

/// A transactional directory: transactional files under one directory,
/// with a per-transaction view of which children exist. A child created
/// inside a transaction is visible to that transaction alone until the
/// directory commits.
pub struct TxnDir {
    path: FsPath,
    children: TxnLock<Vec<String>>,
    files: Vec<(String, TxnFile)>,
}

impl TxnDir {
    /// The directory's own location.
    pub closed spec fn spec_path(&self) -> Seq<SegView> {
        self.path@
    }

    pub closed spec fn spec_children(&self) -> TxnLock<Vec<String>> {
        self.children
    }

    pub closed spec fn spec_files(&self) -> Seq<(String, TxnFile)> {
        self.files@
    }

    /// The children transaction `txn` observes.
    pub open spec fn children_of(&self, txn: TransactionId) -> Seq<String> {
        self.spec_children().spec_read(txn)@
    }

    pub closed spec fn wf(&self) -> bool {
        &&& self.children.wf()
        &&& forall|i: int| 0 <= i < self.files@.len() ==> (#[trigger] self.files@[i]).1.wf()
        &&& forall|i: int| 0 <= i < self.files@.len() ==> (#[trigger] self.files@[i]).1
            .spec_path() == self.spec_path().push(SegView::Name(self.files@[i].0@))
        &&& forall|i: int, j: int| 0 <= i < j < self.files@.len() ==> (
        #[trigger] self.files@[i]).0@ != (#[trigger] self.files@[j]).0@
    }

    /// An empty directory at `path`: every transaction may use it from the
    /// start.
    pub fn new(path: FsPath) -> (r: TxnDir)
        ensures
            r.wf(),
            r.spec_path() == path@,
            forall|txn: TransactionId| r.children_of(txn).len() == 0,
            forall|txn: TransactionId| r.spec_children().spec_floor().le_spec(txn)
                && r.spec_children().last_committed().le_spec(txn),
    {
        TxnDir { path, children: TxnLock::new(Vec::new()), files: Vec::new() }
    }

    /// Whether the directory as of `txn` holds a child named `name`.
    pub fn child_exists(&self, txn: &TransactionId, name: &String) -> (r: Result<bool, TCError>)
        requires
            self.wf(),
        ensures
            r.is_ok() <==> self.spec_children().spec_floor().le_spec(*txn),
            r.is_ok() ==> r->Ok_0 == listing_contains(self.children_of(*txn), name@),
            r.is_err() ==> r->Err_0.spec_kind() == crate::error::ErrorKind::Conflict,
    {
        match self.children.read(txn) {
            Ok(names) => Ok(contains_name(names, name)),
            Err(e) => Err(e),
        }
    }

    /// Create the transactional file `name` under this directory, visible
    /// to `txn` alone until commit. A name the directory as of `txn`
    /// already holds is refused with `Conflict`, and a refusal changes
    /// nothing.
    pub fn create_file(&mut self, txn: &TransactionId, name: String) -> (r: Result<(), TCError>)
        requires
            old(self).wf(),
        ensures
            final(self).wf(),
            final(self).spec_path() == old(self).spec_path(),
            r.is_ok() <==> (old(self).spec_children().spec_floor().le_spec(*txn) && old(
                self,
            ).spec_children().last_committed().le_spec(*txn) && !listing_contains(
                old(self).children_of(*txn),
                name@,
            ) && (forall|i: int| 0 <= i < old(self).spec_files().len() ==> (
            #[trigger] old(self).spec_files()[i]).0@ != name@)),
            r.is_err() ==> r->Err_0.spec_kind() == crate::error::ErrorKind::Conflict
                && *final(self) == *old(self),
            r.is_ok() ==> {
                &&& listing_contains(final(self).children_of(*txn), name@)
                &&& final(self).spec_files().len() == old(self).spec_files().len() + 1
                &&& final(self).spec_files().last().0@ == name@
            },
    {
        let names = match self.children.read(txn) {
            Ok(names) => names,
            Err(e) => {
                return Err(e);
            },
        };
        if contains_name(names, &name) {
            return Err(conflict("the directory already has a child with this name".to_owned()));
        }
        if self.find_file(&name).is_some() {
            return Err(conflict(
                "another transaction already created a child with this name".to_owned(),
            ));
        }
        let mut new_names = clone_names(names);
        new_names.push(name.clone());
        match self.children.write(txn, new_names) {
            Ok(()) => {},
            Err(e) => {
                return Err(e);
            },
        }
        let child_path = self.path.join(PathSegment::Name(name.clone()));
        let file = TxnFile::new(child_path);
        let ghost oldfiles = self.files@;
        self.files.push((name, file));
        proof {
            let names2 = self.children_of(*txn);
            assert(names2[names2.len() - 1]@ == name@);
            assert forall|i: int, j: int| 0 <= i < j < self.files@.len() implies (
            #[trigger] self.files@[i]).0@ != (#[trigger] self.files@[j]).0@ by {
                if j < oldfiles.len() {
                    assert(self.files@[i] == oldfiles[i] && self.files@[j] == oldfiles[j]);
                } else {
                    assert(self.files@[i] == oldfiles[i]);
                    assert(self.files@[j].0@ == name@);
                }
            }
        }
        Ok(())
    }

    /// The position of the child file `name`, if the directory holds one.
    pub fn find_file(&self, name: &String) -> (r: Option<usize>)
        ensures
            r matches Some(i) ==> i < self.spec_files().len() && self.spec_files()[i as int].0@
                == name@,
            r is None ==> forall|i: int| 0 <= i < self.spec_files().len() ==> (
            #[trigger] self.spec_files()[i]).0@ != name@,
    {
        let n = self.files.len();
        for i in 0..n
            invariant
                n == self.spec_files().len(),
                forall|j: int| 0 <= j < i ==> (#[trigger] self.spec_files()[j]).0@ != name@,
        {
            if self.files[i].0 == *name {
                return Some(i);
            }
        }
        None
    }

    /// Commit `txn` on every child file and then on the directory's own
    /// listing: the children `txn` created become visible to later
    /// transactions, and for each child, each block it dirtied whose
    /// version is cached has its canonical file set to that version; no
    /// path outside the children's canonical and version files changes.
    pub fn commit(&mut self, txn: &TransactionId, cache: &Cache, disk: &mut Disk)
        requires
            old(self).wf(),
        ensures
            final(self).wf(),
            final(self).spec_path() == old(self).spec_path(),
            final(self).spec_files().len() == old(self).spec_files().len(),
            crate::txn_lock::pending_at(final(self).spec_children().spec_pending(), *txn)
                is None,
            forall|ci: int| 0 <= ci < final(self).spec_files().len() ==> (
            #[trigger] final(self).spec_files()[ci]).1.mutated_of(*txn).len() == 0,
            ({
                let base = old(self).spec_path();
                let fs0 = old(self).spec_files();
                &&& forall|ci: int, i: int|
                    0 <= ci < fs0.len() && 0 <= i < (#[trigger] fs0[ci]).1.mutated_of(
                        *txn,
                    ).len() && cache.spec_at(
                        version_of(
                            base.push(SegView::Name(fs0[ci].0@)),
                            *txn,
                            (#[trigger] fs0[ci].1.mutated_of(*txn)[i])@,
                        ),
                    ) is Some ==> final(disk).spec_at(
                        canonical_of(
                            base.push(SegView::Name(fs0[ci].0@)),
                            fs0[ci].1.mutated_of(*txn)[i]@,
                        ),
                    ) == cache.spec_at(
                        version_of(
                            base.push(SegView::Name(fs0[ci].0@)),
                            *txn,
                            fs0[ci].1.mutated_of(*txn)[i]@,
                        ),
                    )
                &&& forall|k: Seq<SegView>|
                    (forall|ci: int| 0 <= ci < fs0.len() ==> !commit_touches(
                        base.push(SegView::Name((#[trigger] fs0[ci]).0@)),
                        *txn,
                        fs0[ci].1.mutated_of(*txn),
                        fs0[ci].1.mutated_of(*txn).len() as int,
                        k,
                    )) ==> #[trigger] final(disk).spec_at(k) == old(disk).spec_at(k)
            }),
    {
        let n = self.files.len();
        let ghost path0 = self.spec_path();
        let ghost fs0 = self.spec_files();
        for i in 0..n
            invariant
                n == self.files@.len() == fs0.len(),
                fs0 == old(self).spec_files(),
                old(self).wf(),
                self.wf(),
                self.spec_path() == path0,
                // untouched children keep their whole state; processed ones
                // keep their name, path and an emptied dirtied set
                forall|ci: int| i <= ci < n ==> #[trigger] self.files@[ci] == fs0[ci],
                forall|ci: int| 0 <= ci < i ==> (#[trigger] self.files@[ci]).0 == fs0[ci].0
                    && self.files@[ci].1.mutated_of(*txn).len() == 0,
                forall|ci: int, j: int|
                    0 <= ci < i && 0 <= j < (#[trigger] fs0[ci]).1.mutated_of(*txn).len()
                        && cache.spec_at(
                        version_of(
                            path0.push(SegView::Name(fs0[ci].0@)),
                            *txn,
                            (#[trigger] fs0[ci].1.mutated_of(*txn)[j])@,
                        ),
                    ) is Some ==> disk.spec_at(
                        canonical_of(
                            path0.push(SegView::Name(fs0[ci].0@)),
                            fs0[ci].1.mutated_of(*txn)[j]@,
                        ),
                    ) == cache.spec_at(
                        version_of(
                            path0.push(SegView::Name(fs0[ci].0@)),
                            *txn,
                            fs0[ci].1.mutated_of(*txn)[j]@,
                        ),
                    ),
                forall|k: Seq<SegView>|
                    (forall|ci: int| 0 <= ci < i ==> !commit_touches(
                        path0.push(SegView::Name((#[trigger] fs0[ci]).0@)),
                        *txn,
                        fs0[ci].1.mutated_of(*txn),
                        fs0[ci].1.mutated_of(*txn).len() as int,
                        k,
                    )) ==> #[trigger] disk.spec_at(k) == old(disk).spec_at(k),
            decreases n - i,
        {
            let ghost orig = self.files@;
            let ghost diskpre = *disk;
            let mut entry = self.files.remove(i);
            entry.1.commit(txn, cache, disk);
            proof {
                assert(entry.1.spec_path() == orig[i as int].1.spec_path());
            }
            self.files.insert(i, entry);
            proof {
                let childpath = path0.push(SegView::Name(fs0[i as int].0@));
                let cids = fs0[i as int].1.mutated_of(*txn);
                assert forall|j: int| 0 <= j < self.files@.len() implies (
                #[trigger] self.files@[j]).1.wf() && self.files@[j].1.spec_path()
                    == self.spec_path().push(SegView::Name(self.files@[j].0@)) by {
                    if j != i {
                        assert(self.files@[j] == orig[j]);
                    }
                }
                // the child just committed delivers its own promise
                assert(orig[i as int] == fs0[i as int]);
                assert(fs0[i as int].1.spec_path() == childpath);
                // a path another child's promise speaks of starts with that
                // child's name, so this child's commit leaves it alone
                assert forall|ci: int, j: int|
                    0 <= ci < i + 1 && 0 <= j < (#[trigger] fs0[ci]).1.mutated_of(*txn).len()
                        && cache.spec_at(
                        version_of(
                            path0.push(SegView::Name(fs0[ci].0@)),
                            *txn,
                            (#[trigger] fs0[ci].1.mutated_of(*txn)[j])@,
                        ),
                    ) is Some implies disk.spec_at(
                    canonical_of(
                        path0.push(SegView::Name(fs0[ci].0@)),
                        fs0[ci].1.mutated_of(*txn)[j]@,
                    ),
                ) == cache.spec_at(
                    version_of(
                        path0.push(SegView::Name(fs0[ci].0@)),
                        *txn,
                        fs0[ci].1.mutated_of(*txn)[j]@,
                    ),
                ) by {
                    if ci < i {
                        let c = canonical_of(
                            path0.push(SegView::Name(fs0[ci].0@)),
                            fs0[ci].1.mutated_of(*txn)[j]@,
                        );
                        assert(old(self).spec_files()[ci].0@ != old(self).spec_files()[
                            i as int].0@);
                        lemma_other_child_untouched(path0, fs0[ci].0@, fs0[i as int].0@, *txn,
                            cids, c);
                        assert(disk.spec_at(c) == diskpre.spec_at(c));
                    }
                }
                // the global frame grows by exactly this child's files
                assert forall|k: Seq<SegView>|
                    (forall|ci: int| 0 <= ci < i + 1 ==> !commit_touches(
                        path0.push(SegView::Name((#[trigger] fs0[ci]).0@)),
                        *txn,
                        fs0[ci].1.mutated_of(*txn),
                        fs0[ci].1.mutated_of(*txn).len() as int,
                        k,
                    )) implies #[trigger] disk.spec_at(k) == old(disk).spec_at(k) by {
                    assert(!commit_touches(childpath, *txn, cids, cids.len() as int, k));
                    assert(disk.spec_at(k) == diskpre.spec_at(k));
                }
            }
        }
        self.children.commit(txn);
    }

    /// Finalize `txn` on every child file and the directory's own listing:
    /// every version directory of `txn` under this directory is removed
    /// from the disk and the cache.
    pub fn finalize(&mut self, txn: &TransactionId, cache: &mut Cache, disk: &mut Disk)
        requires
            old(self).wf(),
            old(cache).wf(),
        ensures
            final(self).wf(),
            final(cache).wf(),
            final(self).spec_path() == old(self).spec_path(),
            final(self).spec_files().len() == old(self).spec_files().len(),
            forall|i: int, k: Seq<SegView>| 0 <= i < old(self).spec_files().len()
                && #[trigger] path_prefix(
                version_dir_of(
                    old(self).spec_path().push(SegView::Name(old(self).spec_files()[i].0@)),
                    *txn,
                ),
                k,
            ) ==> final(disk).spec_at(k) is None && final(cache).spec_at(k) is None,
    {
        let n = self.files.len();
        let ghost path0 = self.spec_path();
        let ghost names0 = Seq::new(self.files@.len(), |i: int| self.files@[i].0@);
        for i in 0..n
            invariant
                n == self.files@.len(),
                old(cache).wf(),
                cache.wf(),
                self.wf(),
                self.spec_path() == path0,
                names0 == Seq::new(self.files@.len(), |j: int| self.files@[j].0@),
                forall|j: int, k: Seq<SegView>| 0 <= j < i && #[trigger] path_prefix(
                    version_dir_of(path0.push(SegView::Name(names0[j])), *txn),
                    k,
                ) ==> disk.spec_at(k) is None && cache.spec_at(k) is None,
            decreases n - i,
        {
            let ghost orig = self.files@;
            let ghost diskpre = *disk;
            let ghost cachepre = *cache;
            let mut entry = self.files.remove(i);
            entry.1.finalize(txn, cache, disk);
            proof {
                assert(entry.1.spec_path() == orig[i as int].1.spec_path());
            }
            self.files.insert(i, entry);
            proof {
                assert forall|j: int| 0 <= j < self.files@.len() implies (
                #[trigger] self.files@[j]).1.wf() && self.files@[j].1.spec_path()
                    == self.spec_path().push(SegView::Name(self.files@[j].0@)) by {
                    if j != i {
                        assert(self.files@[j] == orig[j]);
                    }
                }
                assert(Seq::new(self.files@.len(), |j: int| self.files@[j].0@) =~= names0);
                // earlier children's version directories stay gone: the
                // finalize of child `i` only removes files, never restores
                assert forall|j: int, k: Seq<SegView>| 0 <= j < i + 1 && path_prefix(
                    version_dir_of(path0.push(SegView::Name(names0[j])), *txn),
                    k,
                ) implies disk.spec_at(k) is None && cache.spec_at(k) is None by {
                    let vdir = version_dir_of(path0.push(SegView::Name(names0[j as int])), *txn);
                    let mine = version_dir_of(
                        path0.push(SegView::Name(names0[i as int])),
                        *txn,
                    );
                    if j < i {
                        if path_prefix(mine, k) {
                        } else {
                            assert(diskpre.spec_at(k) is None && cachepre.spec_at(k) is None);
                        }
                    }
                }
            }
        }
        self.children.finalize(txn);
        proof {
            assert forall|i: int, k: Seq<SegView>| 0 <= i < old(self).spec_files().len()
                && #[trigger] path_prefix(
                version_dir_of(
                    old(self).spec_path().push(SegView::Name(old(self).spec_files()[i].0@)),
                    *txn,
                ),
                k,
            ) implies disk.spec_at(k) is None && cache.spec_at(k) is None by {
                assert(names0[i] == old(self).spec_files()[i].0@);
                assert(path_prefix(
                    version_dir_of(path0.push(SegView::Name(names0[i])), *txn),
                    k,
                ));
            }
        }
    }
}

/// A canonical path under one child starts with that child's name, so a
/// commit of a differently named child never touches it.
proof fn lemma_other_child_untouched(
    base: Seq<SegView>,
    other: Seq<char>,
    mine: Seq<char>,
    txn: TransactionId,
    ids: Seq<String>,
    c: Seq<SegView>,
)
    requires
        other != mine,
        c.len() == base.len() + 2,
        c[base.len() as int] == SegView::Name(other),
        forall|t: int| 0 <= t < base.len() ==> c[t] == base[t],
    ensures
        !commit_touches(base.push(SegView::Name(mine)), txn, ids, ids.len() as int, c),
{
    let childpath = base.push(SegView::Name(mine));
    if commit_touches(childpath, txn, ids, ids.len() as int, c) {
        let j = choose|j: int|
            0 <= j < ids.len() && (c == canonical_of(childpath, (#[trigger] ids[j])@) || c
                == version_of(childpath, txn, ids[j]@));
        if c == canonical_of(childpath, ids[j]@) {
            assert(c[base.len() as int] == SegView::Name(mine));
        } else {
            assert(c == version_of(childpath, txn, ids[j]@));
            assert(c[base.len() as int] == SegView::Name(mine));
        }
    }
}

/// Whether `names` holds `name`.
fn contains_name(names: &Vec<String>, name: &String) -> (r: bool)
    ensures
        r == listing_contains(names@, name@),
{
    let n = names.len();
    for i in 0..n
        invariant
            n == names@.len(),
            forall|j: int| 0 <= j < i ==> (#[trigger] names@[j])@ != name@,
    {
        if names[i] == *name {
            return true;
        }
    }
    false
}

/// A copy of a list of child names.
fn clone_names(names: &Vec<String>) -> (r: Vec<String>)
    ensures
        r@ == names@,
{
    let n = names.len();
    let mut out: Vec<String> = Vec::new();
    for i in 0..n
        invariant
            n == names@.len(),
            out@.len() == i,
            forall|j: int| 0 <= j < i ==> out@[j] == names@[j],
    {
        out.push(names[i].clone());
    }
    proof {
        assert(out@ =~= names@);
    }
    out
}

} // verus!
