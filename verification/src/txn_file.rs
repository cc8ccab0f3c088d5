use vstd::prelude::*;

use crate::cache::{held_len, rc_at, Block, Cache};
use crate::error::{conflict, internal, not_found, TCError};
use crate::fs::{path_prefix, Disk, FsPath, PathSegment, SegView};
use crate::transaction::TransactionId;
use crate::txn_lock::{distinct_ids, pending_at, pending_value, TxnLock};

verus! {

/// The name of a block within a transactional file.
pub type BlockId = String;

/// The directory that holds per-transaction pending copies: `.versions`
/// under the file's own directory.
pub open spec fn versions_dir_of(path: Seq<SegView>) -> Seq<SegView> {
    path.push(SegView::Name(".versions"@))
}

/// The version directory of one transaction.
pub open spec fn version_dir_of(path: Seq<SegView>, txn: TransactionId) -> Seq<SegView> {
    versions_dir_of(path).push(SegView::Version(txn))
}

/// The canonical location of a block.
pub open spec fn canonical_of(path: Seq<SegView>, id: Seq<char>) -> Seq<SegView> {
    path.push(SegView::Name(id))
}

/// The per-transaction pending location of a block.
pub open spec fn version_of(path: Seq<SegView>, txn: TransactionId, id: Seq<char>) -> Seq<
    SegView,
> {
    version_dir_of(path, txn).push(SegView::Name(id))
}

/// Whether the listing `ids` contains the block id `id`.
pub open spec fn listing_contains(ids: Seq<String>, id: Seq<char>) -> bool {
    exists|i: int| 0 <= i < ids.len() && ids[i]@ == id
}

/// Whether committing the first `upto` dirtied blocks may touch path `k`:
/// only their canonical and version files are written.
pub open spec fn commit_touches(
    path: Seq<SegView>,
    txn: TransactionId,
    ids: Seq<String>,
    upto: int,
    k: Seq<SegView>,
) -> bool {
    exists|j: int| 0 <= j < upto && (k == canonical_of(path, (#[trigger] ids[j])@) || k
        == version_of(path, txn, ids[j]@))
}

/// A transactional file: a collection of uniquely named blocks with a
/// canonical on-disk state and per-transaction version directories.
pub struct TxnFile {
    path: FsPath,
    listing: TxnLock<Vec<BlockId>>,
    mutated: Vec<(TransactionId, Vec<BlockId>)>,
}

impl TxnFile {
    /// The directory that holds the canonical blocks.
    pub closed spec fn spec_path(&self) -> Seq<SegView> {
        self.path@
    }

    pub closed spec fn spec_listing(&self) -> TxnLock<Vec<BlockId>> {
        self.listing
    }

    pub closed spec fn spec_mutated(&self) -> Seq<(TransactionId, Vec<BlockId>)> {
        self.mutated@
    }

    /// The ids transaction `txn` has dirtied.
    pub open spec fn mutated_of(&self, txn: TransactionId) -> Seq<String> {
        match pending_at(self.spec_mutated(), txn) {
            Some(i) => self.spec_mutated()[i].1@,
            None => Seq::empty(),
        }
    }

    /// The listing transaction `txn` observes.
    pub open spec fn listing_of(&self, txn: TransactionId) -> Seq<String> {
        self.spec_listing().spec_read(txn)@
    }

    pub closed spec fn wf(&self) -> bool {
        &&& self.listing.wf()
        &&& distinct_ids(self.mutated@)
        &&& forall|i: int| 0 <= i < self.mutated@.len() ==> distinct_names(
            (#[trigger] self.mutated@[i]).1@,
        )
    }

    /// A new, empty transactional file rooted at `path`: every transaction
    /// may use it from the start.
    pub fn new(path: FsPath) -> (r: TxnFile)
        ensures
            r.wf(),
            r.spec_path() == path@,
            forall|txn: TransactionId| r.listing_of(txn).len() == 0,
            forall|txn: TransactionId| r.mutated_of(txn).len() == 0,
            forall|txn: TransactionId| r.spec_listing().spec_floor().le_spec(txn)
                && r.spec_listing().last_committed().le_spec(txn),
    {
        let listing: TxnLock<Vec<BlockId>> = TxnLock::new(Vec::new());
        let r = TxnFile { path, listing, mutated: Vec::new() };
        proof {
            assert(forall|txn: TransactionId| pending_at(r.spec_mutated(), txn) is None);
        }
        r
    }

    /// Load a saved file from the entries of its directory, each named and
    /// marked as a file or a directory: a directory holding both block
    /// files and subdirectories is corrupt and refused. The listing is the
    /// file names found.
    pub fn load(path: FsPath, contents: Vec<(BlockId, bool)>) -> (r: Result<TxnFile, TCError>)
        ensures
            r.is_ok() <==> (forall|i: int| 0 <= i < contents@.len() ==> (
            #[trigger] contents@[i]).1),
            r.is_err() ==> r->Err_0.spec_kind() == crate::error::ErrorKind::Internal,
            r matches Ok(f) ==> {
                &&& f.wf()
                &&& f.spec_path() == path@
                &&& forall|txn: TransactionId| f.listing_of(txn).len() == contents@.len()
                &&& forall|txn: TransactionId, i: int| 0 <= i < contents@.len()
                    ==> (#[trigger] f.listing_of(txn)[i])@ == (#[trigger] contents@[i]).0@
                &&& forall|txn: TransactionId| f.spec_listing().spec_floor().le_spec(txn)
                    && f.spec_listing().last_committed().le_spec(txn)
            },
    {
        let n = contents.len();
        let mut names: Vec<BlockId> = Vec::new();
        for i in 0..n
            invariant
                n == contents@.len(),
                names@.len() == i,
                forall|j: int| 0 <= j < i ==> (#[trigger] contents@[j]).1,
                forall|j: int| 0 <= j < i ==> (#[trigger] names@[j])@ == contents@[j].0@,
        {
            if !contents[i].1 {
                return Err(internal(
                    "the directory holds both blocks and subdirectories".to_owned(),
                ));
            }
            names.push(contents[i].0.clone());
        }
        let listing: TxnLock<Vec<BlockId>> = TxnLock::new(names);
        let r = TxnFile { path, listing, mutated: Vec::new() };
        proof {
            assert(forall|txn: TransactionId| pending_at(r.spec_mutated(), txn) is None);
        }
        Ok(r)
    }

    /// Whether the listing as of `txn` holds a block named `name`. A
    /// transaction below the finalize horizon is refused.
    pub fn block_exists(&self, txn: &TransactionId, name: &BlockId) -> (r: Result<bool, TCError>)
        requires
            self.wf(),
        ensures
            r.is_ok() <==> self.spec_listing().spec_floor().le_spec(*txn),
            r.is_ok() ==> r->Ok_0 == listing_contains(self.listing_of(*txn), name@),
            r.is_err() ==> r->Err_0.spec_kind() == crate::error::ErrorKind::Conflict,
    {
        match self.listing.read(txn) {
            Ok(ids) => Ok(contains_id(ids, name)),
            Err(e) => Err(e),
        }
    }

    /// Create the block `name` with `initial_value` in `txn`'s version
    /// directory. A name the listing as of `txn` already holds is refused
    /// with `Conflict`, and a refusal changes nothing. The write goes
    /// through the cache only, so the canonical directory is untouched
    /// until commit; the fresh version is always retained, and pinned so
    /// later evictions pass it by.
    pub fn create_block(
        &mut self,
        txn: &TransactionId,
        name: BlockId,
        initial_value: Block,
        cache: &mut Cache,
    ) -> (r: Result<(), TCError>)
        requires
            old(self).wf(),
            old(cache).wf(),
        ensures
            final(self).wf(),
            final(cache).wf(),
            final(self).spec_path() == old(self).spec_path(),
            r.is_ok() <==> (old(self).spec_listing().spec_floor().le_spec(*txn) && old(
                self,
            ).spec_listing().last_committed().le_spec(*txn) && !listing_contains(
                old(self).listing_of(*txn),
                name@,
            )),
            r.is_err() ==> r->Err_0.spec_kind() == crate::error::ErrorKind::Conflict
                && *final(self) == *old(self) && *final(cache) == *old(cache),
            r.is_ok() ==> {
                let vpath = version_of(old(self).spec_path(), *txn, name@);
                &&& final(self).listing_of(*txn) == old(self).listing_of(*txn).push(name)
                &&& forall|b: TransactionId| b != *txn ==> final(self).listing_of(b) == old(
                    self,
                ).listing_of(b)
                &&& final(self).spec_listing().spec_versions() == old(
                    self,
                ).spec_listing().spec_versions()
                &&& final(self).spec_listing().spec_floor() == old(
                    self,
                ).spec_listing().spec_floor()
                &&& listing_contains(final(self).listing_of(*txn), name@)
                &&& listing_contains(final(self).mutated_of(*txn), name@)
                &&& final(cache).spec_at(vpath) == Some(initial_value@)
                &&& rc_at(final(cache).spec_entries(), vpath) == Some(1u64)
                &&& forall|k: Seq<SegView>| k != vpath && final(cache).spec_at(k) is Some
                    ==> final(cache).spec_at(k) == old(cache).spec_at(k)
                &&& forall|k: Seq<SegView>| k != vpath && (match rc_at(
                    old(cache).spec_entries(),
                    k,
                ) {
                    Some(rc) => rc > 0,
                    None => false,
                }) ==> final(cache).spec_at(k) == old(cache).spec_at(k) && rc_at(
                    final(cache).spec_entries(),
                    k,
                ) == rc_at(old(cache).spec_entries(), k)
            },
    {
        let ids = match self.listing.read(txn) {
            Ok(ids) => ids,
            Err(e) => {
                return Err(e);
            },
        };
        if contains_id(ids, &name) {
            return Err(conflict("the file already has a block with this name".to_owned()));
        }
        let mut new_ids = clone_ids(ids);
        new_ids.push(name.clone());
        match self.listing.write(txn, new_ids) {
            Ok(()) => {},
            Err(e) => {
                return Err(e);
            },
        }

        let vpath = self.version_block_path(txn, &name);
        cache.write(&vpath, initial_value);
        cache.pin(&vpath);
        self.mark_mutated(txn, &name);
        proof {
            let ids2 = self.listing_of(*txn);
            assert(ids2[ids2.len() - 1]@ == name@);
        }
        Ok(())
    }

    /// The block `name` as of `txn`: the cached version if there is one,
    /// else the version file on disk, else the canonical file, copied to
    /// the version path first. A name missing from the listing is
    /// `NotFound`; a listed block with no bytes anywhere is `Internal`.
    pub fn get_block(
        &self,
        txn: &TransactionId,
        name: &BlockId,
        cache: &mut Cache,
        disk: &mut Disk,
    ) -> (r: Result<Block, TCError>)
        requires
            self.wf(),
            old(cache).wf(),
        ensures
            final(cache).wf(),
            ({
                let vpath = version_of(self.spec_path(), *txn, name@);
                let cpath = canonical_of(self.spec_path(), name@);
                &&& (r.is_ok() <==> (self.spec_listing().spec_floor().le_spec(*txn)
                    && listing_contains(self.listing_of(*txn), name@) && (old(cache).spec_at(
                    vpath,
                ) is Some || old(disk).spec_at(vpath) is Some || old(disk).spec_at(
                    cpath,
                ) is Some)))
                &&& (r matches Ok(b) ==> b@ == (if old(cache).spec_at(vpath) is Some {
                    old(cache).spec_at(vpath)->0
                } else if old(disk).spec_at(vpath) is Some {
                    old(disk).spec_at(vpath)->0
                } else {
                    old(disk).spec_at(cpath)->0
                }))
                &&& (!self.spec_listing().spec_floor().le_spec(*txn) ==> (r matches Err(e)
                    && e.spec_kind() == crate::error::ErrorKind::Conflict))
                &&& (self.spec_listing().spec_floor().le_spec(*txn) && !listing_contains(
                    self.listing_of(*txn),
                    name@,
                ) ==> (r matches Err(e) && e.spec_kind() == crate::error::ErrorKind::NotFound))
                &&& (self.spec_listing().spec_floor().le_spec(*txn) && listing_contains(
                    self.listing_of(*txn),
                    name@,
                ) && old(cache).spec_at(vpath) is None && old(disk).spec_at(vpath) is None
                    && old(disk).spec_at(cpath) is None ==> (r matches Err(e) && e.spec_kind()
                    == crate::error::ErrorKind::Internal))
                &&& forall|k: Seq<SegView>| k != vpath ==> final(disk).spec_at(k) == old(
                    disk,
                ).spec_at(k)
                &&& forall|k: Seq<SegView>| k != vpath && final(cache).spec_at(k) is Some
                    ==> final(cache).spec_at(k) == old(cache).spec_at(k)
                &&& forall|k: Seq<SegView>| k != vpath && (match rc_at(
                    old(cache).spec_entries(),
                    k,
                ) {
                    Some(rc) => rc > 0,
                    None => false,
                }) ==> final(cache).spec_at(k) == old(cache).spec_at(k) && rc_at(
                    final(cache).spec_entries(),
                    k,
                ) == rc_at(old(cache).spec_entries(), k)
            }),
    {
        let in_listing = match self.block_exists(txn, name) {
            Ok(b) => b,
            Err(e) => {
                return Err(e);
            },
        };
        if !in_listing {
            return Err(not_found("the file has no block with this name".to_owned()));
        }

        let vpath = self.version_block_path(txn, name);
        match cache.read(&vpath, disk) {
            Some(b) => Ok(b),
            None => {
                let cpath = self.canonical_block_path(name);
                if disk.copy_file(&cpath, &vpath) {
                    match cache.read(&vpath, disk) {
                        Some(b) => Ok(b),
                        None => Err(internal("a listed block has no bytes".to_owned())),
                    }
                } else {
                    Err(internal("a listed block has no bytes".to_owned()))
                }
            },
        }
    }

    /// Write `value` as `txn`'s version of the block `name` and mark the
    /// block dirty. A name missing from the listing as of `txn` is
    /// `NotFound`, and a refusal changes nothing. The fresh version is
    /// always retained, and pinned so later evictions pass it by.
    pub fn write_block(
        &mut self,
        txn: &TransactionId,
        name: &BlockId,
        value: Block,
        cache: &mut Cache,
    ) -> (r: Result<(), TCError>)
        requires
            old(self).wf(),
            old(cache).wf(),
        ensures
            final(self).wf(),
            final(cache).wf(),
            final(self).spec_path() == old(self).spec_path(),
            r.is_ok() <==> (old(self).spec_listing().spec_floor().le_spec(*txn)
                && listing_contains(old(self).listing_of(*txn), name@)),
            final(self).spec_listing() == old(self).spec_listing(),
            r.is_err() ==> *final(self) == *old(self) && *final(cache) == *old(cache)
                && (r->Err_0.spec_kind() == crate::error::ErrorKind::Conflict
                || r->Err_0.spec_kind() == crate::error::ErrorKind::NotFound),
            !old(self).spec_listing().spec_floor().le_spec(*txn) ==> (r matches Err(e)
                && e.spec_kind() == crate::error::ErrorKind::Conflict),
            old(self).spec_listing().spec_floor().le_spec(*txn) && !listing_contains(
                old(self).listing_of(*txn),
                name@,
            ) ==> (r matches Err(e) && e.spec_kind() == crate::error::ErrorKind::NotFound),
            r.is_ok() ==> {
                let vpath = version_of(old(self).spec_path(), *txn, name@);
                &&& listing_contains(final(self).mutated_of(*txn), name@)
                &&& final(cache).spec_at(vpath) == Some(value@)
                &&& rc_at(final(cache).spec_entries(), vpath) == Some(1u64)
                &&& forall|k: Seq<SegView>| k != vpath && final(cache).spec_at(k) is Some
                    ==> final(cache).spec_at(k) == old(cache).spec_at(k)
                &&& forall|k: Seq<SegView>| k != vpath && (match rc_at(
                    old(cache).spec_entries(),
                    k,
                ) {
                    Some(rc) => rc > 0,
                    None => false,
                }) ==> final(cache).spec_at(k) == old(cache).spec_at(k) && rc_at(
                    final(cache).spec_entries(),
                    k,
                ) == rc_at(old(cache).spec_entries(), k)
            },
    {
        let in_listing = match self.block_exists(txn, name) {
            Ok(b) => b,
            Err(e) => {
                return Err(e);
            },
        };
        if !in_listing {
            return Err(not_found("the file has no block with this name".to_owned()));
        }
        let vpath = self.version_block_path(txn, name);
        cache.write(&vpath, value);
        cache.pin(&vpath);
        self.mark_mutated(txn, name);
        Ok(())
    }

    /// Commit `txn`: flush each dirtied version block from the cache to
    /// its version file, copy it over the canonical file, and commit the
    /// listing. Afterwards the canonical file of every dirtied block whose
    /// version is cached equals that cached version, and every path no
    /// dirtied block names — every block not dirtied in `txn` among them —
    /// is unchanged.
    pub fn commit(&mut self, txn: &TransactionId, cache: &Cache, disk: &mut Disk)
        requires
            old(self).wf(),
        ensures
            final(self).wf(),
            final(self).spec_path() == old(self).spec_path(),
            ({
                let path = old(self).spec_path();
                let ids = old(self).mutated_of(*txn);
                &&& forall|i: int| 0 <= i < ids.len() && cache.spec_at(
                    version_of(path, *txn, (#[trigger] ids[i])@),
                ) is Some ==> final(disk).spec_at(canonical_of(path, ids[i]@)) == cache.spec_at(
                    version_of(path, *txn, ids[i]@),
                )
                &&& forall|i: int| 0 <= i < ids.len() && cache.spec_at(
                    version_of(path, *txn, (#[trigger] ids[i])@),
                ) is None && old(disk).spec_at(version_of(path, *txn, ids[i]@)) is Some
                    ==> final(disk).spec_at(canonical_of(path, ids[i]@)) == old(disk).spec_at(
                    version_of(path, *txn, ids[i]@),
                )
                &&& forall|i: int| 0 <= i < ids.len() && cache.spec_at(
                    version_of(path, *txn, (#[trigger] ids[i])@),
                ) is None && old(disk).spec_at(version_of(path, *txn, ids[i]@)) is None
                    ==> final(disk).spec_at(canonical_of(path, ids[i]@)) == old(disk).spec_at(
                    canonical_of(path, ids[i]@),
                )
                &&& forall|k: Seq<SegView>| !commit_touches(path, *txn, ids, ids.len() as int, k)
                    ==> final(disk).spec_at(k) == old(disk).spec_at(k)
            }),
            final(self).mutated_of(*txn).len() == 0,
            // the listing lock is committed at `txn`: its pending write, if
            // any, becomes the newest committed listing, which every later
            // transaction observes
            final(self).spec_listing().wf(),
            final(self).spec_listing().spec_floor() == old(self).spec_listing().spec_floor(),
            pending_at(final(self).spec_listing().spec_pending(), *txn) is None,
            forall|b: TransactionId| b != *txn ==> pending_value(
                final(self).spec_listing().spec_pending(),
                b,
            ) == pending_value(old(self).spec_listing().spec_pending(), b),
            (match pending_value(old(self).spec_listing().spec_pending(), *txn) {
                Some(v) => {
                    if old(self).spec_listing().last_committed().lt_spec(*txn) {
                        final(self).spec_listing().spec_versions() == old(
                            self,
                        ).spec_listing().spec_versions().push((*txn, v))
                    } else {
                        final(self).spec_listing().spec_versions() == old(
                            self,
                        ).spec_listing().spec_versions()
                    }
                },
                None => final(self).spec_listing().spec_versions() == old(
                    self,
                ).spec_listing().spec_versions(),
            }),
    {
        let ids = self.take_mutated(txn);
        let ghost idsv = ids@;
        let ghost path = self.spec_path();
        let ghost lock0 = self.spec_listing();
        let ghost mut0 = self.spec_mutated();
        let n = ids.len();
        for i in 0..n
            invariant
                n == idsv.len(),
                ids@ == idsv,
                distinct_names(idsv),
                self.wf(),
                self.spec_path() == path,
                self.spec_listing() == lock0,
                self.spec_mutated() == mut0,
                pending_at(mut0, *txn) is None,
                forall|j: int| 0 <= j < i && cache.spec_at(
                    version_of(path, *txn, (#[trigger] idsv[j])@),
                ) is Some ==> disk.spec_at(canonical_of(path, idsv[j]@)) == cache.spec_at(
                    version_of(path, *txn, idsv[j]@),
                ),
                forall|j: int| 0 <= j < i && cache.spec_at(
                    version_of(path, *txn, (#[trigger] idsv[j])@),
                ) is None && old(disk).spec_at(version_of(path, *txn, idsv[j]@)) is Some
                    ==> disk.spec_at(canonical_of(path, idsv[j]@)) == old(disk).spec_at(
                    version_of(path, *txn, idsv[j]@),
                ),
                forall|j: int| 0 <= j < i && cache.spec_at(
                    version_of(path, *txn, (#[trigger] idsv[j])@),
                ) is None && old(disk).spec_at(version_of(path, *txn, idsv[j]@)) is None
                    ==> disk.spec_at(canonical_of(path, idsv[j]@)) == old(disk).spec_at(
                    canonical_of(path, idsv[j]@),
                ),
                forall|k: Seq<SegView>| !commit_touches(path, *txn, idsv, i as int, k)
                    ==> disk.spec_at(k) == old(disk).spec_at(k),
        {
            let name = &ids[i];
            let vpath = self.version_block_path(txn, name);
            let cpath = self.canonical_block_path(name);
            let ghost disk0 = *disk;
            cache.sync(&vpath, disk);
            let ghost disk1 = *disk;
            disk.copy_file(&vpath, &cpath);
            proof {
                let id = idsv[i as int]@;
                assert(vpath@ == version_of(path, *txn, id));
                assert(cpath@ == canonical_of(path, id));
                // what this iteration establishes for its own block: the
                // cached version wins; else the version file on disk; else
                // the canonical file is untouched
                assert(!commit_touches(path, *txn, idsv, i as int, vpath@)) by {
                    assert forall|j: int| 0 <= j < i implies !(vpath@ == canonical_of(
                        path,
                        (#[trigger] idsv[j])@,
                    ) || vpath@ == version_of(path, *txn, idsv[j]@)) by {
                        lemma_block_paths_distinct(path, *txn, idsv[j]@, id);
                        assert(canonical_of(path, idsv[j]@).len() != vpath@.len());
                    }
                }
                assert(!commit_touches(path, *txn, idsv, i as int, cpath@)) by {
                    assert forall|j: int| 0 <= j < i implies !(cpath@ == canonical_of(
                        path,
                        (#[trigger] idsv[j])@,
                    ) || cpath@ == version_of(path, *txn, idsv[j]@)) by {
                        lemma_block_paths_distinct(path, *txn, idsv[j]@, id);
                        assert(version_of(path, *txn, idsv[j]@).len() != cpath@.len());
                    }
                }
                assert(disk0.spec_at(vpath@) == old(disk).spec_at(vpath@));
                assert(disk0.spec_at(cpath@) == old(disk).spec_at(cpath@));
                if cache.spec_at(vpath@) is Some {
                    assert(disk1.spec_at(vpath@) == cache.spec_at(vpath@));
                    assert(disk.spec_at(cpath@) == cache.spec_at(vpath@));
                } else {
                    assert(disk1 == disk0);
                    if old(disk).spec_at(vpath@) is Some {
                        assert(disk.spec_at(cpath@) == old(disk).spec_at(vpath@));
                    } else {
                        assert(*disk == disk1);
                        assert(disk.spec_at(cpath@) == old(disk).spec_at(cpath@));
                    }
                }
                // earlier blocks keep their canonical contents: their paths
                // differ from both files written here
                assert forall|j: int| 0 <= j < i + 1 && cache.spec_at(
                    version_of(path, *txn, (#[trigger] idsv[j])@),
                ) is Some implies disk.spec_at(canonical_of(path, idsv[j]@)) == cache.spec_at(
                    version_of(path, *txn, idsv[j]@),
                ) by {
                    if j < i {
                        assert(idsv[j]@ != id);
                        lemma_block_paths_distinct(path, *txn, idsv[j]@, id);
                    }
                }
                assert forall|j: int| 0 <= j < i + 1 && cache.spec_at(
                    version_of(path, *txn, (#[trigger] idsv[j])@),
                ) is None && old(disk).spec_at(version_of(path, *txn, idsv[j]@))
                    is Some implies disk.spec_at(canonical_of(path, idsv[j]@)) == old(
                    disk,
                ).spec_at(version_of(path, *txn, idsv[j]@)) by {
                    if j < i {
                        assert(idsv[j]@ != id);
                        lemma_block_paths_distinct(path, *txn, idsv[j]@, id);
                    }
                }
                assert forall|j: int| 0 <= j < i + 1 && cache.spec_at(
                    version_of(path, *txn, (#[trigger] idsv[j])@),
                ) is None && old(disk).spec_at(version_of(path, *txn, idsv[j]@))
                    is None implies disk.spec_at(canonical_of(path, idsv[j]@)) == old(
                    disk,
                ).spec_at(canonical_of(path, idsv[j]@)) by {
                    if j < i {
                        assert(idsv[j]@ != id);
                        lemma_block_paths_distinct(path, *txn, idsv[j]@, id);
                    }
                }
                // the frame grows by exactly the two files of this block
                assert forall|k: Seq<SegView>| !commit_touches(path, *txn, idsv, i as int + 1, k)
                    implies disk.spec_at(k) == old(disk).spec_at(k) by {
                    assert(!(k == canonical_of(path, idsv[i as int]@) || k == version_of(
                        path,
                        *txn,
                        idsv[i as int]@,
                    )));
                    assert(!commit_touches(path, *txn, idsv, i as int, k));
                }
            }
        }
        self.listing.commit(txn);
    }

    /// Finalize `txn`: drop every cached block under `txn`'s version
    /// directory, remove that directory from disk, and finalize the
    /// listing. Afterwards no file remains under the version directory and
    /// no block with a path under it is in the cache.
    pub fn finalize(&mut self, txn: &TransactionId, cache: &mut Cache, disk: &mut Disk)
        requires
            old(self).wf(),
            old(cache).wf(),
        ensures
            final(self).wf(),
            final(cache).wf(),
            final(self).spec_path() == old(self).spec_path(),
            ({
                let vdir = version_dir_of(old(self).spec_path(), *txn);
                &&& forall|k: Seq<SegView>| path_prefix(vdir, k) ==> final(disk).spec_at(k)
                    is None
                &&& forall|k: Seq<SegView>| path_prefix(vdir, k) ==> final(cache).spec_at(k)
                    is None
                &&& forall|k: Seq<SegView>| !path_prefix(vdir, k) ==> final(disk).spec_at(k)
                    == old(disk).spec_at(k)
                &&& forall|k: Seq<SegView>| !path_prefix(vdir, k) ==> final(cache).spec_at(k)
                    == old(cache).spec_at(k)
            }),
            final(self).mutated_of(*txn).len() == 0,
    {
        let vdir = self.version_dir_path(txn);
        cache.remove_tree(&vdir);
        disk.remove_tree(&vdir);
        self.listing.finalize(txn);
        self.take_mutated(txn);
    }

    /// Whether the listing as of `txn` is empty.
    pub fn is_empty(&self, txn: &TransactionId) -> (r: Result<bool, TCError>)
        requires
            self.wf(),
        ensures
            r.is_ok() <==> self.spec_listing().spec_floor().le_spec(*txn),
            r.is_ok() ==> r->Ok_0 == (self.listing_of(*txn).len() == 0),
    {
        match self.listing.read(txn) {
            Ok(ids) => Ok(ids.len() == 0),
            Err(e) => Err(e),
        }
    }

    /// The canonical path of the block `name`.
    fn canonical_block_path(&self, name: &BlockId) -> (r: FsPath)
        ensures
            r@ == canonical_of(self.spec_path(), name@),
    {
        self.path.join(PathSegment::Name(name.clone()))
    }

    /// The version-directory path of `txn`.
    fn version_dir_path(&self, txn: &TransactionId) -> (r: FsPath)
        ensures
            r@ == version_dir_of(self.spec_path(), *txn),
    {
        let versions = ".versions".to_owned();
        self.path.join(PathSegment::Name(versions)).join(PathSegment::Version(*txn))
    }

    /// The per-transaction version path of the block `name`.
    fn version_block_path(&self, txn: &TransactionId, name: &BlockId) -> (r: FsPath)
        ensures
            r@ == version_of(self.spec_path(), *txn, name@),
    {
        self.version_dir_path(txn).join(PathSegment::Name(name.clone()))
    }

    /// Add `name` to `txn`'s dirtied set, once.
    fn mark_mutated(&mut self, txn: &TransactionId, name: &BlockId)
        requires
            old(self).wf(),
        ensures
            final(self).wf(),
            final(self).spec_path() == old(self).spec_path(),
            final(self).spec_listing() == old(self).spec_listing(),
            listing_contains(final(self).mutated_of(*txn), name@),
    {
        let np = self.mutated.len();
        let ghost oldm = self.mutated@;
        for i in 0..np
            invariant
                np == self.mutated@.len(),
                self.wf(),
                *self == *old(self),
                oldm == self.mutated@,
                forall|j: int| 0 <= j < i ==> (#[trigger] self.mutated@[j].0) != *txn,
        {
            if self.mutated[i].0 == *txn {
                let mut entry = self.mutated.remove(i);
                if !contains_id(&entry.1, name) {
                    entry.1.push(name.clone());
                }
                self.mutated.insert(i, entry);
                proof {
                    let w = pending_at(oldm, *txn);
                    assert(w is Some && oldm[w->0].0 == *txn);
                    assert(w->0 == i as int);
                    assert(forall|j: int| 0 <= j < oldm.len() && j != i ==> self.mutated@[j]
                        == oldm[j]);
                    assert(self.mutated@[i as int].0 == *txn);
                    assert forall|a: int, b: int| 0 <= a < b < self.mutated@.len() implies (
                    #[trigger] self.mutated@[a].0) != (#[trigger] self.mutated@[b].0) by {
                        if a != i && b != i {
                            assert(self.mutated@[a] == oldm[a] && self.mutated@[b] == oldm[b]);
                        } else if a == i as int {
                            assert(self.mutated@[b] == oldm[b]);
                        } else {
                            assert(self.mutated@[a] == oldm[a]);
                        }
                    }
                    let w2 = pending_at(self.mutated@, *txn);
                    assert(w2 is Some && self.mutated@[w2->0].0 == *txn);
                    if w2->0 != i as int {
                        assert(self.mutated@[w2->0] == oldm[w2->0]);
                    }
                    assert(w2->0 == i as int);
                    let ids = self.mutated@[i as int].1@;
                    if listing_contains(oldm[i as int].1@, name@) {
                        assert(ids == oldm[i as int].1@);
                    } else {
                        assert(ids[ids.len() - 1]@ == name@);
                        assert forall|a: int, b: int| 0 <= a < b < ids.len() implies (
                        #[trigger] ids[a])@ != (#[trigger] ids[b])@ by {
                            if b < ids.len() - 1 {
                                assert(ids[a] == oldm[i as int].1@[a]);
                                assert(ids[b] == oldm[i as int].1@[b]);
                            } else {
                                assert(ids[a] == oldm[i as int].1@[a]);
                            }
                        }
                    }
                    assert forall|j: int| 0 <= j < self.mutated@.len() implies distinct_names(
                        (#[trigger] self.mutated@[j]).1@,
                    ) by {
                        if j != i {
                            assert(self.mutated@[j] == oldm[j]);
                        }
                    }
                }
                return;
            }
        }
        let mut ids: Vec<BlockId> = Vec::new();
        ids.push(name.clone());
        self.mutated.push((*txn, ids));
        proof {
            assert(pending_at(oldm, *txn) is None);
            let last = self.mutated@.len() - 1;
            assert(self.mutated@[last].0 == *txn);
            let w2 = pending_at(self.mutated@, *txn);
            assert(w2 is Some && self.mutated@[w2->0].0 == *txn);
            assert forall|a: int, b: int| 0 <= a < b < self.mutated@.len() implies (
            #[trigger] self.mutated@[a].0) != (#[trigger] self.mutated@[b].0) by {
                if b < last {
                    assert(self.mutated@[a] == oldm[a] && self.mutated@[b] == oldm[b]);
                } else {
                    assert(self.mutated@[a] == oldm[a]);
                    if oldm[a].0 == *txn {
                        assert(pending_at(oldm, *txn) is Some);
                    }
                }
            }
            if w2->0 != last {
                assert(self.mutated@[w2->0] == oldm[w2->0]);
                assert(pending_at(oldm, *txn) is Some);
            }
            let ids2 = final(self).mutated_of(*txn);
            assert(ids2[0]@ == name@);
            assert forall|j: int| 0 <= j < self.mutated@.len() implies distinct_names(
                (#[trigger] self.mutated@[j]).1@,
            ) by {
                if j < last {
                    assert(self.mutated@[j] == oldm[j]);
                }
            }
        }
    }

    /// Remove and return `txn`'s dirtied set.
    fn take_mutated(&mut self, txn: &TransactionId) -> (r: Vec<BlockId>)
        requires
            old(self).wf(),
        ensures
            final(self).wf(),
            final(self).spec_path() == old(self).spec_path(),
            final(self).spec_listing() == old(self).spec_listing(),
            r@ == old(self).mutated_of(*txn),
            distinct_names(r@),
            final(self).mutated_of(*txn).len() == 0,
            pending_at(final(self).spec_mutated(), *txn) is None,
    {
        let np = self.mutated.len();
        let ghost oldm = self.mutated@;
        for i in 0..np
            invariant
                np == self.mutated@.len(),
                self.wf(),
                *self == *old(self),
                oldm == self.mutated@,
                forall|j: int| 0 <= j < i ==> (#[trigger] self.mutated@[j].0) != *txn,
        {
            if self.mutated[i].0 == *txn {
                let entry = self.mutated.remove(i);
                proof {
                    let w = pending_at(oldm, *txn);
                    assert(w is Some && oldm[w->0].0 == *txn);
                    assert(w->0 == i as int);
                    crate::txn_lock::lemma_pending_remove(oldm, self.mutated@, *txn, i as int);
                    assert forall|j: int| 0 <= j < self.mutated@.len() implies distinct_names(
                        (#[trigger] self.mutated@[j]).1@,
                    ) by {
                        if j < i {
                            assert(self.mutated@[j] == oldm[j]);
                        } else {
                            assert(self.mutated@[j] == oldm[j + 1]);
                        }
                    }
                }
                return entry.1;
            }
        }
        proof {
            assert(pending_at(self.mutated@, *txn) is None);
        }
        Vec::new()
    }
}


/// Two block names address different canonical files, and a canonical file
/// never coincides with any version file.
proof fn lemma_block_paths_distinct(
    path: Seq<SegView>,
    txn: TransactionId,
    a: Seq<char>,
    b: Seq<char>,
)
    requires
        a != b,
    ensures
        canonical_of(path, a) != canonical_of(path, b),
        canonical_of(path, a) != version_of(path, txn, b),
        version_of(path, txn, a) != version_of(path, txn, b),
{
    let n = path.len() as int;
    assert(canonical_of(path, a).len() == n + 1);
    assert(version_of(path, txn, b).len() == n + 3);
    if canonical_of(path, a) == canonical_of(path, b) {
        assert(canonical_of(path, a)[n] == SegView::Name(a));
        assert(canonical_of(path, b)[n] == SegView::Name(b));
    }
    if version_of(path, txn, a) == version_of(path, txn, b) {
        assert(version_of(path, txn, a)[n + 2] == SegView::Name(a));
        assert(version_of(path, txn, b)[n + 2] == SegView::Name(b));
    }
}

/// Whether the names in `ids` are pairwise distinct.
pub open spec fn distinct_names(ids: Seq<String>) -> bool {
    forall|a: int, b: int| 0 <= a < b < ids.len() ==> (#[trigger] ids[a])@ != (
    #[trigger] ids[b])@
}

/// Whether `ids` holds the name `name`.
fn contains_id(ids: &Vec<BlockId>, name: &BlockId) -> (r: bool)
    ensures
        r == listing_contains(ids@, name@),
{
    let n = ids.len();
    for i in 0..n
        invariant
            n == ids@.len(),
            forall|j: int| 0 <= j < i ==> (#[trigger] ids@[j])@ != name@,
    {
        if ids[i] == *name {
            return true;
        }
    }
    false
}

/// A copy of a list of block ids.
fn clone_ids(ids: &Vec<BlockId>) -> (r: Vec<BlockId>)
    ensures
        r@ == ids@,
{
    let n = ids.len();
    let mut out: Vec<BlockId> = Vec::new();
    for i in 0..n
        invariant
            n == ids@.len(),
            out@.len() == i,
            forall|j: int| 0 <= j < i ==> out@[j] == ids@[j],
    {
        out.push(ids[i].clone());
    }
    proof {
        assert(out@ =~= ids@);
    }
    out
}

} // verus!
