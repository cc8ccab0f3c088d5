use vstd::prelude::*;

use crate::error::TCError;
use crate::fs::{clone_bytes, Disk, FsPath, SegView};

verus! {

/// A decoded file block: the raw bytes of its on-disk form. The format
/// promises nothing beyond the round trip between a block and its bytes.
#[derive(Debug)]
pub struct Block {
    data: Vec<u8>,
}

impl View for Block {
    type V = Seq<u8>;

    closed spec fn view(&self) -> Seq<u8> {
        self.data@
    }
}

impl Clone for Block {
    fn clone(&self) -> (r: Block)
        ensures
            r@ == self@,
    {
        Block { data: clone_bytes(&self.data) }
    }
}

impl Block {
    pub fn new(data: Vec<u8>) -> (r: Block)
        ensures
            r@ == data@,
    {
        Block { data }
    }

    /// The canonical byte form of this block.
    pub fn into_bytes(self) -> (r: Vec<u8>)
        ensures
            r@ == self@,
    {
        self.data
    }

    /// The same, without consuming the block.
    pub fn to_bytes(&self) -> (r: Vec<u8>)
        ensures
            r@ == self@,
    {
        clone_bytes(&self.data)
    }

    /// Decode a block from its byte form. Every byte sequence decodes, and
    /// decoding the bytes of a block gives the block back.
    pub fn try_from_bytes(data: Vec<u8>) -> (r: Result<Block, TCError>)
        ensures
            r.is_ok(),
            r->Ok_0@ == data@,
    {
        Ok(Block { data })
    }

    /// The number of bytes the block occupies.
    pub fn size(&self) -> (r: usize)
        ensures
            r == self@.len(),
    {
        self.data.len()
    }
}

/// A block held in the cache, with the number of outstanding handles.
pub struct CacheEntry {
    pub block: Block,
    pub ref_count: u64,
}

/// A bounded mapping from filesystem path to decoded block. Entries are
/// kept in frequency order, hottest first; eviction walks the tail.
pub struct Cache {
    entries: Vec<(FsPath, CacheEntry)>,
    size: u128,
    max_size: u64,
}

/// The first entry at path `k`, if one is cached.
pub open spec fn cache_at(entries: Seq<(FsPath, CacheEntry)>, k: Seq<SegView>) -> Option<Seq<u8>>
    decreases entries.len(),
{
    if entries.len() == 0 {
        None
    } else if entries[0].0@ == k {
        Some(entries[0].1.block@)
    } else {
        cache_at(entries.skip(1), k)
    }
}

/// The bytes all cached blocks hold together.
pub open spec fn total_size(entries: Seq<(FsPath, CacheEntry)>) -> int
    decreases entries.len(),
{
    if entries.len() == 0 {
        0
    } else {
        entries[0].1.block@.len() + total_size(entries.skip(1))
    }
}

/// Whether the cached paths are pairwise distinct.
pub open spec fn unique_paths(entries: Seq<(FsPath, CacheEntry)>) -> bool {
    forall|i: int, j: int| 0 <= i < j < entries.len() ==> (#[trigger] entries[i].0@) != (
    #[trigger] entries[j].0@)
}

/// Whether no cached block is pinned by an outstanding handle.
pub open spec fn none_pinned(entries: Seq<(FsPath, CacheEntry)>) -> bool {
    forall|i: int| 0 <= i < entries.len() ==> (#[trigger] entries[i].1).ref_count == 0
}

/// The handle count of the first entry at path `k`, if one is cached.
pub open spec fn rc_at(entries: Seq<(FsPath, CacheEntry)>, k: Seq<SegView>) -> Option<u64>
    decreases entries.len(),
{
    if entries.len() == 0 {
        None
    } else if entries[0].0@ == k {
        Some(entries[0].1.ref_count)
    } else {
        rc_at(entries.skip(1), k)
    }
}

/// The mathematical content of one cache entry: its path, its block's
/// bytes, and its handle count.
pub struct EntryView {
    pub path: Seq<SegView>,
    pub bytes: Seq<u8>,
    pub rc: u64,
}

/// The frequency-ordered entry list as contracts see it, hottest first.
pub open spec fn entries_view(es: Seq<(FsPath, CacheEntry)>) -> Seq<EntryView> {
    Seq::new(es.len(), |i: int| EntryView {
        path: es[i].0@,
        bytes: es[i].1.block@,
        rc: es[i].1.ref_count,
    })
}

/// The bytes the listed entries hold together.
pub open spec fn view_total(vs: Seq<EntryView>) -> int
    decreases vs.len(),
{
    if vs.len() == 0 {
        0
    } else {
        vs[0].bytes.len() + view_total(vs.skip(1))
    }
}

/// The rank of the first entry at path `k`, if one is listed.
pub open spec fn view_index(vs: Seq<EntryView>, k: Seq<SegView>) -> Option<int>
    decreases vs.len(),
{
    if vs.len() == 0 {
        None
    } else if vs[0].path == k {
        Some(0)
    } else {
        match view_index(vs.skip(1), k) {
            Some(i) => Some(i + 1),
            None => None,
        }
    }
}

/// One use of an entry: it swaps places with its immediate predecessor in
/// the frequency order; the front entry stays in place.
pub open spec fn swap_up(vs: Seq<EntryView>, i: int) -> Seq<EntryView> {
    if 0 < i < vs.len() {
        vs.update(i - 1, vs[i]).update(i, vs[i - 1])
    } else {
        vs
    }
}

/// The rank of the coldest unpinned entry, if any.
pub open spec fn last_unpinned(vs: Seq<EntryView>) -> Option<int>
    decreases vs.len(),
{
    if vs.len() == 0 {
        None
    } else if vs.last().rc == 0 {
        Some(vs.len() - 1)
    } else {
        last_unpinned(vs.drop_last())
    }
}

/// Eviction: while the held bytes pass the budget, the coldest unpinned
/// entry leaves; only as many entries leave as that takes.
pub open spec fn evict_view(vs: Seq<EntryView>, max: int) -> Seq<EntryView>
    decreases vs.len(),
{
    if view_total(vs) <= max {
        vs
    } else {
        match last_unpinned(vs) {
            Some(i) => if 0 <= i < vs.len() {
                evict_view(vs.remove(i), max)
            } else {
                vs
            },
            None => vs,
        }
    }
}

/// The list with the entry at path `k` dropped, if one is listed.
pub open spec fn remove_path(vs: Seq<EntryView>, k: Seq<SegView>) -> Seq<EntryView> {
    match view_index(vs, k) {
        Some(i) => if 0 <= i < vs.len() {
            vs.remove(i)
        } else {
            vs
        },
        None => vs,
    }
}

/// What a write leaves behind: the old entry at the path is dropped, the
/// tail is evicted until the new block has room (or nothing unpinned is
/// left — the write proceeds regardless), and the new entry enters at the
/// back and moves one rank up. The entry just written is never evicted by
/// its own write.
pub open spec fn write_view(
    vs: Seq<EntryView>,
    k: Seq<SegView>,
    bytes: Seq<u8>,
    max: int,
) -> Seq<EntryView> {
    let pruned = remove_path(vs, k);
    let room = if max >= bytes.len() {
        max - bytes.len()
    } else {
        0
    };
    let entered = evict_view(pruned, room).push(EntryView { path: k, bytes, rc: 0u64 });
    swap_up(entered, entered.len() - 1)
}

/// The bytes held at path `k`, or zero bytes' worth when nothing is.
pub open spec fn held_len(entries: Seq<(FsPath, CacheEntry)>, k: Seq<SegView>) -> int {
    match cache_at(entries, k) {
        Some(b) => b.len() as int,
        None => 0,
    }
}

impl Cache {
    pub closed spec fn spec_entries(&self) -> Seq<(FsPath, CacheEntry)> {
        self.entries@
    }

    /// The cached bytes at path `k`.
    pub open spec fn spec_at(&self, k: Seq<SegView>) -> Option<Seq<u8>> {
        cache_at(self.spec_entries(), k)
    }

    pub closed spec fn spec_size(&self) -> int {
        self.size as int
    }

    pub closed spec fn spec_max_size(&self) -> int {
        self.max_size as int
    }

    /// The accounted size equals the bytes actually held, and each path is
    /// cached at most once.
    pub closed spec fn wf(&self) -> bool {
        &&& self.size as int == total_size(self.entries@)
        &&& unique_paths(self.entries@)
    }

    pub fn new(max_size: u64) -> (r: Cache)
        ensures
            r.wf(),
            r.spec_entries().len() == 0,
            r.spec_max_size() == max_size,
            r.spec_size() == 0,
    {
        Cache { entries: Vec::new(), size: 0, max_size }
    }

    /// The accounted number of cached bytes.
    pub fn size(&self) -> (r: u128)
        ensures
            r == self.spec_size(),
    {
        self.size
    }

    pub fn max_size(&self) -> (r: u64)
        ensures
            r == self.spec_max_size(),
    {
        self.max_size
    }

    /// The position of the entry at `p`, if one is cached.
    fn position(&self, p: &FsPath) -> (r: Option<usize>)
        ensures
            r is Some <==> self.spec_at(p@) is Some,
            r matches Some(i) ==> {
                &&& i < self.spec_entries().len()
                &&& self.spec_entries()[i as int].0@ == p@
                &&& Some(self.spec_entries()[i as int].1.block@) == self.spec_at(p@)
                &&& Some(self.spec_entries()[i as int].1.ref_count) == rc_at(
                    self.spec_entries(),
                    p@,
                )
                &&& view_index(entries_view(self.spec_entries()), p@) == Some(i as int)
                &&& forall|j: int| 0 <= j < i ==> (#[trigger] self.spec_entries()[j].0@) != p@
            },
            r is None ==> rc_at(self.spec_entries(), p@) is None && view_index(
                entries_view(self.spec_entries()),
                p@,
            ) is None,
    {
        let n = self.entries.len();
        proof {
            assert(self.spec_entries().skip(0) =~= self.spec_entries());
        }
        for i in 0..n
            invariant
                n == self.spec_entries().len(),
                cache_at(self.spec_entries(), p@) == cache_at(
                    self.spec_entries().skip(i as int),
                    p@,
                ),
                forall|j: int| 0 <= j < i ==> (#[trigger] self.spec_entries()[j].0@) != p@,
        {
            proof {
                assert(self.spec_entries().skip(i as int)[0] == self.spec_entries()[i as int]);
                assert(self.spec_entries().skip(i as int).skip(1) =~= self.spec_entries().skip(
                    i as int + 1,
                ));
            }
            if self.entries[i].0.eq_path(p) {
                proof {
                    lemma_view_index_at(self.spec_entries(), i as int, p@);
                    lemma_rc_prefix(self.spec_entries(), i as int, p@);
                }
                return Some(i);
            }
        }
        proof {
            assert(self.spec_entries().skip(n as int) =~= Seq::<(FsPath, CacheEntry)>::empty());
            lemma_lookup_none(self.spec_entries(), p@);
            lemma_view_index_absent(self.spec_entries(), p@);
        }
        None
    }

    /// Read the block at `p`: a cached block moves one rank toward the
    /// front and is returned; otherwise the bytes on disk are decoded,
    /// cached, and returned, and the tail is evicted while the cache is
    /// over budget; with no file on disk there is no block. What comes
    /// back is exactly the cached bytes, or the decoded disk bytes on a
    /// miss.
    pub fn read(&mut self, p: &FsPath, disk: &Disk) -> (r: Option<Block>)
        requires
            old(self).wf(),
        ensures
            final(self).wf(),
            final(self).spec_max_size() == old(self).spec_max_size(),
            none_pinned(old(self).spec_entries()) ==> none_pinned(final(self).spec_entries()),
            match old(self).spec_at(p@) {
                Some(bytes) => {
                    &&& r matches Some(b) && b@ == bytes
                    &&& final(self).spec_at(p@) == Some(bytes)
                    &&& final(self).spec_size() == old(self).spec_size()
                    // the hit moves the entry one rank toward the front
                    &&& (match view_index(entries_view(old(self).spec_entries()), p@) {
                        Some(i) => entries_view(final(self).spec_entries()) == swap_up(
                            entries_view(old(self).spec_entries()),
                            i,
                        ),
                        None => false,
                    })
                    &&& forall|k: Seq<SegView>| k != p@ ==> final(self).spec_at(k) == old(
                        self,
                    ).spec_at(k)
                    &&& forall|k: Seq<SegView>| rc_at(final(self).spec_entries(), k) == rc_at(
                        old(self).spec_entries(),
                        k,
                    )
                },
                None => match disk.spec_at(p@) {
                    Some(bytes) => {
                        &&& r matches Some(b) && b@ == bytes
                        // the miss enters the decoded bytes like a write,
                        // and the fresh entry is always kept
                        &&& entries_view(final(self).spec_entries()) == write_view(
                            entries_view(old(self).spec_entries()),
                            p@,
                            bytes,
                            old(self).spec_max_size(),
                        )
                        &&& final(self).spec_at(p@) == Some(bytes)
                        &&& (old(self).spec_size() + bytes.len() <= old(self).spec_max_size()
                            ==> {
                            &&& final(self).spec_size() == old(self).spec_size() + bytes.len()
                            &&& forall|k: Seq<SegView>| k != p@ ==> final(self).spec_at(k)
                                == old(self).spec_at(k)
                        })
                        &&& forall|k: Seq<SegView>| k != p@ && final(self).spec_at(k) is Some
                            ==> final(self).spec_at(k) == old(self).spec_at(k)
                        &&& forall|k: Seq<SegView>| k != p@ && (match rc_at(
                            old(self).spec_entries(),
                            k,
                        ) {
                            Some(rc) => rc > 0,
                            None => false,
                        }) ==> final(self).spec_at(k) == old(self).spec_at(k) && rc_at(
                            final(self).spec_entries(),
                            k,
                        ) == rc_at(old(self).spec_entries(), k)
                    },
                    None => r is None && *final(self) == *old(self),
                },
            },
    {
        match self.position(p) {
            Some(i) => {
                let block = self.entries[i].1.block.clone();
                self.bump(i);
                Some(block)
            },
            None => {
                let bytes = match disk.read_file(p) {
                    Some(b) => clone_bytes(b),
                    None => {
                        return None;
                    },
                };
                let block = match Block::try_from_bytes(bytes) {
                    Ok(b) => b,
                    Err(_) => {
                        return None;
                    },
                };
                let result = block.clone();
                let ghost v0 = entries_view(old(self).spec_entries());
                let len = block.size();
                let room: u128 = if (self.max_size as u128) >= (len as u128) {
                    (self.max_size as u128) - (len as u128)
                } else {
                    0
                };
                self.evict_to(room);
                self.insert_entry(p, block);
                proof {
                    assert(entries_view(final(self).spec_entries()) == write_view(
                        v0,
                        p@,
                        result@,
                        old(self).spec_max_size(),
                    ));
                }
                Some(result)
            },
        }
    }

    /// Cache `block` at `p`, replacing any block already there: the tail's
    /// coldest unpinned entries are evicted first until the new block has
    /// room, and only as many as that takes; then the entry enters, and it
    /// is always kept — a block wider than the whole budget leaves the
    /// cache over budget rather than lose the write (degraded mode). A
    /// pinned entry at another path is never touched.
    pub fn write(&mut self, p: &FsPath, block: Block)
        requires
            old(self).wf(),
        ensures
            final(self).wf(),
            final(self).spec_max_size() == old(self).spec_max_size(),
            entries_view(final(self).spec_entries()) == write_view(
                entries_view(old(self).spec_entries()),
                p@,
                block@,
                old(self).spec_max_size(),
            ),
            final(self).spec_at(p@) == Some(block@),
            rc_at(final(self).spec_entries(), p@) == Some(0u64),
            none_pinned(old(self).spec_entries()) ==> none_pinned(final(self).spec_entries())
                && final(self).spec_size() <= final(self).spec_max_size() + block@.len(),
            none_pinned(old(self).spec_entries()) && block@.len() <= old(self).spec_max_size()
                ==> final(self).spec_size() <= final(self).spec_max_size(),
            old(self).spec_size() - held_len(old(self).spec_entries(), p@) + block@.len()
                <= old(self).spec_max_size() ==> {
                &&& final(self).spec_size() == old(self).spec_size() - held_len(
                    old(self).spec_entries(),
                    p@,
                ) + block@.len()
                &&& forall|k: Seq<SegView>| k != p@ ==> final(self).spec_at(k) == old(
                    self,
                ).spec_at(k)
            },
            forall|k: Seq<SegView>| k != p@ && final(self).spec_at(k) is Some
                ==> final(self).spec_at(k) == old(self).spec_at(k),
            forall|k: Seq<SegView>| k != p@ && (match rc_at(old(self).spec_entries(), k) {
                Some(rc) => rc > 0,
                None => false,
            }) ==> final(self).spec_at(k) == old(self).spec_at(k) && rc_at(
                final(self).spec_entries(),
                k,
            ) == rc_at(old(self).spec_entries(), k),
    {
        let ghost v0 = entries_view(old(self).spec_entries());
        let len = block.size();
        self.remove(p);
        let room: u128 = if (self.max_size as u128) >= (len as u128) {
            (self.max_size as u128) - (len as u128)
        } else {
            0
        };
        self.evict_to(room);
        self.insert_entry(p, block);
        proof {
            assert(entries_view(final(self).spec_entries()) == write_view(
                v0,
                p@,
                block@,
                old(self).spec_max_size(),
            ));
        }
    }

    /// Drop the entry at `p` and its accounting.
    pub fn remove(&mut self, p: &FsPath)
        requires
            old(self).wf(),
        ensures
            final(self).wf(),
            final(self).spec_max_size() == old(self).spec_max_size(),
            final(self).spec_at(p@) is None,
            final(self).spec_size() == old(self).spec_size() - held_len(
                old(self).spec_entries(),
                p@,
            ),
            entries_view(final(self).spec_entries()) == remove_path(
                entries_view(old(self).spec_entries()),
                p@,
            ),
            forall|k: Seq<SegView>| k != p@ ==> final(self).spec_at(k) == old(self).spec_at(k),
            forall|k: Seq<SegView>| k != p@ ==> rc_at(final(self).spec_entries(), k) == rc_at(
                old(self).spec_entries(),
                k,
            ),
            none_pinned(old(self).spec_entries()) ==> none_pinned(final(self).spec_entries()),
    {
        match self.position(p) {
            None => {},
            Some(i) => {
                let ghost orig = self.entries@;
                let entry = self.entries.remove(i);
                proof {
                    lemma_cache_remove(orig, self.entries@, i as int, p@);
                    lemma_total_size_remove(orig, i as int);
                    lemma_total_size_nonneg(self.entries@);
                    lemma_lookup_at(orig, i as int, p@);
                    assert(entries_view(self.entries@) =~= entries_view(orig).remove(i as int));
                    assert forall|k: Seq<SegView>| k != p@ implies rc_at(self.entries@, k)
                        == rc_at(orig, k) by {
                        lemma_rc_remove_keeps(orig, self.entries@, i as int, p@, k);
                    }
                    assert forall|j: int| 0 <= j < self.entries@.len()
                        && none_pinned(orig) implies (#[trigger] self.entries@[j].1).ref_count
                        == 0 by {
                        if j < i {
                            assert(self.entries@[j] == orig[j]);
                        } else {
                            assert(self.entries@[j] == orig[j + 1]);
                        }
                    }
                }
                self.size = self.size - (entry.1.block.size() as u128);
            },
        }
    }

    /// The position of some entry under the directory `dir`, if any.
    fn position_under(&self, dir: &FsPath) -> (r: Option<usize>)
        ensures
            r matches Some(i) ==> {
                &&& i < self.spec_entries().len()
                &&& crate::fs::path_prefix(dir@, self.spec_entries()[i as int].0@)
            },
            r is None ==> forall|j: int| 0 <= j < self.spec_entries().len()
                ==> !crate::fs::path_prefix(dir@, (#[trigger] self.spec_entries()[j]).0@),
    {
        let n = self.entries.len();
        for i in 0..n
            invariant
                n == self.spec_entries().len(),
                forall|j: int| 0 <= j < i ==> !crate::fs::path_prefix(
                    dir@,
                    (#[trigger] self.spec_entries()[j]).0@,
                ),
        {
            if dir.is_prefix_of(&self.entries[i].0) {
                return Some(i);
            }
        }
        None
    }

    /// Drop every entry at or under the directory `dir`, with its
    /// accounting, as finalizing a version directory does.
    pub fn remove_tree(&mut self, dir: &FsPath)
        requires
            old(self).wf(),
        ensures
            final(self).wf(),
            final(self).spec_max_size() == old(self).spec_max_size(),
            final(self).spec_size() <= old(self).spec_size(),
            forall|k: Seq<SegView>| crate::fs::path_prefix(dir@, k) ==> final(self).spec_at(k)
                is None,
            forall|k: Seq<SegView>| !crate::fs::path_prefix(dir@, k) ==> final(self).spec_at(k)
                == old(self).spec_at(k),
    {
        loop
            invariant
                self.wf(),
                self.spec_max_size() == old(self).spec_max_size(),
                self.spec_size() <= old(self).spec_size(),
                forall|k: Seq<SegView>| !crate::fs::path_prefix(dir@, k) ==> self.spec_at(k)
                    == old(self).spec_at(k),
            ensures
                self.wf(),
                self.spec_max_size() == old(self).spec_max_size(),
                self.spec_size() <= old(self).spec_size(),
                forall|k: Seq<SegView>| crate::fs::path_prefix(dir@, k) ==> self.spec_at(k)
                    is None,
                forall|k: Seq<SegView>| !crate::fs::path_prefix(dir@, k) ==> self.spec_at(k)
                    == old(self).spec_at(k),
            decreases self.spec_entries().len(),
        {
            match self.position_under(dir) {
                None => {
                    proof {
                        assert forall|k: Seq<SegView>| crate::fs::path_prefix(dir@, k) implies
                            self.spec_at(k) is None by {
                            lemma_cache_none_iff(self.spec_entries(), k);
                            assert forall|j: int| 0 <= j < self.spec_entries().len() implies (
                            #[trigger] self.spec_entries()[j].0@) != k by {
                                assert(!crate::fs::path_prefix(
                                    dir@,
                                    (self.spec_entries()[j]).0@,
                                ));
                            }
                        }
                    }
                    break;
                },
                Some(i) => {
                    let ghost orig = self.entries@;
                    let entry = self.entries.remove(i);
                    proof {
                        lemma_cache_remove(orig, self.entries@, i as int, orig[i as int].0@);
                        lemma_total_size_remove(orig, i as int);
                        lemma_total_size_nonneg(self.entries@);
                    }
                    self.size = self.size - (entry.1.block.size() as u128);
                },
            }
        }
    }

    /// Write the cached block at `p` to the filesystem; a path not in the
    /// cache writes nothing.
    pub fn sync(&self, p: &FsPath, disk: &mut Disk)
        ensures
            match self.spec_at(p@) {
                Some(bytes) => {
                    &&& final(disk).spec_at(p@) == Some(bytes)
                    &&& forall|k: Seq<SegView>| k != p@ ==> final(disk).spec_at(k) == old(
                        disk,
                    ).spec_at(k)
                },
                None => *final(disk) == *old(disk),
            },
    {
        match self.position(p) {
            None => {},
            Some(i) => {
                let bytes = self.entries[i].1.block.to_bytes();
                disk.write_file(p, bytes);
            },
        }
    }

    /// Raise the handle count of the block at `p`: a pinned block is never
    /// evicted.
    pub fn pin(&mut self, p: &FsPath)
        requires
            old(self).wf(),
        ensures
            final(self).wf(),
            final(self).spec_max_size() == old(self).spec_max_size(),
            final(self).spec_size() == old(self).spec_size(),
            forall|k: Seq<SegView>| final(self).spec_at(k) == old(self).spec_at(k),
            rc_at(final(self).spec_entries(), p@) == (match rc_at(old(self).spec_entries(), p@) {
                Some(rc) => if rc < u64::MAX {
                    Some((rc + 1) as u64)
                } else {
                    Some(rc)
                },
                None => None,
            }),
            forall|k: Seq<SegView>| k != p@ ==> rc_at(final(self).spec_entries(), k) == rc_at(
                old(self).spec_entries(),
                k,
            ),
            rc_at(old(self).spec_entries(), p@) is None ==> *final(self) == *old(self),
    {
        match self.position(p) {
            None => {},
            Some(i) => {
                let ghost orig = self.entries@;
                let rc = self.entries[i].1.ref_count;
                if rc < u64::MAX {
                    let block = self.entries[i].1.block.clone();
                    let path = self.entries[i].0.clone();
                    self.entries[i] = (path, CacheEntry { block, ref_count: rc + 1 });
                    proof {
                        lemma_cache_update_same(orig, self.entries@, i as int);
                        lemma_rc_update(orig, self.entries@, i as int, p@);
                    }
                }
            },
        }
    }

    /// Release one handle on the block at `p`.
    pub fn unpin(&mut self, p: &FsPath)
        requires
            old(self).wf(),
        ensures
            final(self).wf(),
            final(self).spec_max_size() == old(self).spec_max_size(),
            final(self).spec_size() == old(self).spec_size(),
            forall|k: Seq<SegView>| final(self).spec_at(k) == old(self).spec_at(k),
            rc_at(final(self).spec_entries(), p@) == (match rc_at(old(self).spec_entries(), p@) {
                Some(rc) => if rc > 0 {
                    Some((rc - 1) as u64)
                } else {
                    Some(rc)
                },
                None => None,
            }),
            forall|k: Seq<SegView>| k != p@ ==> rc_at(final(self).spec_entries(), k) == rc_at(
                old(self).spec_entries(),
                k,
            ),
            rc_at(old(self).spec_entries(), p@) is None ==> *final(self) == *old(self),
    {
        match self.position(p) {
            None => {},
            Some(i) => {
                let ghost orig = self.entries@;
                let rc = self.entries[i].1.ref_count;
                if rc > 0 {
                    let block = self.entries[i].1.block.clone();
                    let path = self.entries[i].0.clone();
                    self.entries[i] = (path, CacheEntry { block, ref_count: rc - 1 });
                    proof {
                        lemma_cache_update_same(orig, self.entries@, i as int);
                        lemma_rc_update(orig, self.entries@, i as int, p@);
                    }
                }
            },
        }
    }

    /// Swap the entry at `i` one rank toward the front.
    fn bump(&mut self, i: usize)
        requires
            old(self).wf(),
            i < old(self).spec_entries().len(),
        ensures
            final(self).wf(),
            final(self).spec_max_size() == old(self).spec_max_size(),
            final(self).spec_size() == old(self).spec_size(),
            entries_view(final(self).spec_entries()) == swap_up(
                entries_view(old(self).spec_entries()),
                i as int,
            ),
            forall|k: Seq<SegView>| final(self).spec_at(k) == old(self).spec_at(k),
            forall|k: Seq<SegView>| rc_at(final(self).spec_entries(), k) == rc_at(
                old(self).spec_entries(),
                k,
            ),
            none_pinned(old(self).spec_entries()) ==> none_pinned(final(self).spec_entries()),
    {
        if i > 0 {
            let ghost orig = self.entries@;
            let entry = self.entries.remove(i);
            self.entries.insert(i - 1, entry);
            proof {
                assert(self.entries@.len() == orig.len());
                assert(self.entries@[i - 1] == orig[i as int]);
                assert forall|j: int| 0 <= j < orig.len() && j != i && j != i - 1 implies
                    self.entries@[j] == orig[j] by {
                    if j < i - 1 {
                        assert(self.entries@[j] == orig.remove(i as int)[j]);
                    } else {
                        assert(self.entries@[j] == orig.remove(i as int)[j - 1]);
                    }
                }
                assert(self.entries@[i as int] == orig.remove(i as int)[i - 1]);
                assert(orig.remove(i as int)[i - 1] == orig[i - 1]);
                lemma_cache_swap(orig, self.entries@, i as int);
                lemma_total_swap(orig, self.entries@, i as int);
                assert(entries_view(self.entries@) =~= swap_up(entries_view(orig), i as int));
                assert forall|k: Seq<SegView>| rc_at(self.entries@, k) == rc_at(orig, k) by {
                    lemma_rc_swap(orig, self.entries@, i as int, k);
                }
                assert forall|j: int| 0 <= j < self.entries@.len()
                    && none_pinned(orig) implies (#[trigger] self.entries@[j].1).ref_count
                    == 0 by {
                    if j != i && j != i - 1 {
                        assert(self.entries@[j] == orig[j]);
                    }
                }
            }
        } else {
            proof {
                assert(entries_view(self.entries@) == swap_up(
                    entries_view(self.entries@),
                    i as int,
                ));
            }
        }
    }

    /// Put a new entry for `p` at the back of the frequency order, then
    /// move it one rank up, as a fresh insertion is also a use.
    fn insert_entry(&mut self, p: &FsPath, block: Block)
        requires
            old(self).wf(),
            old(self).spec_at(p@) is None,
        ensures
            final(self).wf(),
            final(self).spec_max_size() == old(self).spec_max_size(),
            final(self).spec_size() == old(self).spec_size() + block@.len(),
            final(self).spec_at(p@) == Some(block@),
            entries_view(final(self).spec_entries()) == swap_up(
                entries_view(old(self).spec_entries()).push(EntryView {
                    path: p@,
                    bytes: block@,
                    rc: 0u64,
                }),
                old(self).spec_entries().len() as int,
            ),
            rc_at(final(self).spec_entries(), p@) == Some(0u64),
            forall|k: Seq<SegView>| k != p@ ==> final(self).spec_at(k) == old(self).spec_at(k),
            forall|k: Seq<SegView>| k != p@ ==> rc_at(final(self).spec_entries(), k) == rc_at(
                old(self).spec_entries(),
                k,
            ),
            none_pinned(old(self).spec_entries()) ==> none_pinned(final(self).spec_entries()),
    {
        let len = block.size();
        let ghost orig = self.entries@;
        proof {
            lemma_total_size_nonneg(orig);
            lemma_total_size_bound(orig);
            assert(orig.len() <= usize::MAX) by {
                assert(vstd::std_specs::vec::spec_vec_len(&self.entries) == self.entries@.len());
            }
            assert(orig.len() * (usize::MAX as int) <= (usize::MAX as int) * (usize::MAX as int))
                by (nonlinear_arith)
                requires orig.len() <= usize::MAX as int;
            assert((usize::MAX as int) * (usize::MAX as int) + (usize::MAX as int)
                < u128::MAX as int) by (nonlinear_arith)
                requires usize::MAX as int <= u64::MAX as int;
        }
        self.entries.push((p.clone(), CacheEntry { block, ref_count: 0 }));
        proof {
            lemma_cache_push(orig, self.entries@, p@);
            lemma_total_size_push(orig, self.entries@);
            lemma_total_size_nonneg(orig);
            lemma_cache_none_iff(orig, p@);
            assert forall|a: int, b: int| 0 <= a < b < self.entries@.len() implies (
            #[trigger] self.entries@[a].0@) != (#[trigger] self.entries@[b].0@) by {
                if b < orig.len() {
                    assert(self.entries@[a] == orig[a] && self.entries@[b] == orig[b]);
                } else {
                    assert(self.entries@[a] == orig[a]);
                    assert(self.entries@[b].0@ == p@);
                }
            }
        }
        self.size = self.size + (len as u128);
        let last = self.entries.len() - 1;
        proof {
            assert forall|j: int| 0 <= j < last implies (#[trigger] self.entries@[j].0@)
                != self.entries@[last as int].0@ by {
                if self.entries@[j].0@ == self.entries@[last as int].0@ {
                    lemma_cache_found(orig, j, self.entries@[last as int].0@);
                }
            }
            assert(entries_view(self.entries@) =~= entries_view(orig).push(EntryView {
                path: p@,
                bytes: self.entries@[last as int].1.block@,
                rc: 0u64,
            }));
            lemma_lookup_at(self.entries@, last as int, p@);
            assert forall|k: Seq<SegView>| k != p@ implies rc_at(self.entries@, k) == rc_at(
                orig,
                k,
            ) by {
                lemma_rc_push_keeps(orig, self.entries@, p@, k);
            }
            assert forall|j: int| 0 <= j < self.entries@.len()
                && none_pinned(orig) implies (#[trigger] self.entries@[j].1).ref_count == 0 by {
                if j < orig.len() {
                    assert(self.entries@[j] == orig[j]);
                }
            }
        }
        self.bump(last);
    }

    /// Walk the tail of the frequency order, evicting unpinned entries,
    /// until the cache fits its budget or only pinned entries remain.
    fn evict_to(&mut self, budget: u128)
        requires
            old(self).wf(),
        ensures
            final(self).wf(),
            final(self).spec_max_size() == old(self).spec_max_size(),
            final(self).spec_size() <= old(self).spec_size(),
            entries_view(final(self).spec_entries()) == evict_view(
                entries_view(old(self).spec_entries()),
                budget as int,
            ),
            old(self).spec_size() <= budget ==> *final(self) == *old(self),
            none_pinned(old(self).spec_entries()) ==> none_pinned(final(self).spec_entries())
                && final(self).spec_size() <= budget,
            forall|k: Seq<SegView>| final(self).spec_at(k) is Some ==> final(self).spec_at(k)
                == old(self).spec_at(k) && rc_at(final(self).spec_entries(), k) == rc_at(
                old(self).spec_entries(),
                k,
            ),
            forall|k: Seq<SegView>| (match rc_at(old(self).spec_entries(), k) {
                Some(rc) => rc > 0,
                None => false,
            }) ==> final(self).spec_at(k) == old(self).spec_at(k) && rc_at(
                final(self).spec_entries(),
                k,
            ) == rc_at(old(self).spec_entries(), k),
    {
        let mut from_back: usize = 0;
        while self.size > budget && from_back < self.entries.len()
            invariant
                self.wf(),
                self.spec_max_size() == old(self).spec_max_size(),
                self.spec_size() <= old(self).spec_size(),
                old(self).spec_size() <= budget ==> *self == *old(self),
                from_back <= self.spec_entries().len(),
                evict_view(entries_view(self.spec_entries()), budget as int) == evict_view(
                    entries_view(old(self).spec_entries()),
                    budget as int,
                ),
                forall|k: Seq<SegView>| self.spec_at(k) is Some ==> self.spec_at(k) == old(
                    self,
                ).spec_at(k) && rc_at(self.spec_entries(), k) == rc_at(
                    old(self).spec_entries(),
                    k,
                ),
                none_pinned(old(self).spec_entries()) ==> none_pinned(self.spec_entries()),
                forall|k: Seq<SegView>| (match rc_at(old(self).spec_entries(), k) {
                    Some(rc) => rc > 0,
                    None => false,
                }) ==> self.spec_at(k) == old(self).spec_at(k) && rc_at(
                    self.spec_entries(),
                    k,
                ) == rc_at(old(self).spec_entries(), k),
                forall|j: int| self.spec_entries().len() - from_back <= j
                    < self.spec_entries().len() ==> (#[trigger] self.spec_entries()[j].1)
                    .ref_count > 0,
            decreases self.spec_entries().len() - from_back,
        {
            let i = self.entries.len() - 1 - from_back;
            if self.entries[i].1.ref_count == 0 {
                let ghost orig = self.entries@;
                let entry = self.entries.remove(i);
                proof {
                    lemma_cache_remove(orig, self.entries@, i as int, orig[i as int].0@);
                    lemma_total_size_remove(orig, i as int);
                    lemma_total_size_nonneg(self.entries@);
                    assert forall|j: int| self.spec_entries().len() - from_back <= j
                        < self.spec_entries().len() implies (
                    #[trigger] self.spec_entries()[j].1).ref_count > 0 by {
                        assert(self.spec_entries()[j] == orig[j + 1]);
                    }
                    // the entry removed is the coldest unpinned one, so the
                    // eviction recursion takes exactly this step
                    assert forall|j: int| i < j < entries_view(orig).len() implies (
                    #[trigger] entries_view(orig)[j]).rc != 0 by {
                        assert(entries_view(orig)[j].rc == orig[j].1.ref_count);
                    }
                    lemma_last_unpinned_at(entries_view(orig), i as int);
                    lemma_view_total_eq(orig);
                    assert(entries_view(self.entries@) =~= entries_view(orig).remove(i as int));
                    // the pinned lookups survive: the removed path held no pins
                    lemma_lookup_at(orig, i as int, orig[i as int].0@);
                    assert forall|k: Seq<SegView>| (match rc_at(orig, k) {
                        Some(rc) => rc > 0,
                        None => false,
                    }) implies rc_at(self.entries@, k) == rc_at(orig, k) by {
                        assert(k != orig[i as int].0@);
                        lemma_rc_remove_keeps(orig, self.entries@, i as int, orig[i as int].0@, k);
                    }
                    assert forall|k: Seq<SegView>| cache_at(self.entries@, k) is Some implies
                        rc_at(self.entries@, k) == rc_at(orig, k) by {
                        assert(k != orig[i as int].0@);
                        lemma_rc_remove_keeps(orig, self.entries@, i as int, orig[i as int].0@, k);
                    }
                    assert forall|j: int| 0 <= j < self.entries@.len()
                        && none_pinned(orig) implies (#[trigger] self.entries@[j].1).ref_count
                        == 0 by {
                        if j < i {
                            assert(self.entries@[j] == orig[j]);
                        } else {
                            assert(self.entries@[j] == orig[j + 1]);
                        }
                    }
                }
                self.size = self.size - (entry.1.block.size() as u128);
            } else {
                from_back = from_back + 1;
            }
        }
        proof {
            lemma_view_total_eq(self.spec_entries());
            if self.spec_size() > budget {
                assert(from_back == self.spec_entries().len());
                if self.spec_entries().len() == 0 {
                    lemma_total_size_nonneg(self.spec_entries());
                }
                assert forall|j: int| 0 <= j < entries_view(self.spec_entries()).len() implies (
                #[trigger] entries_view(self.spec_entries())[j]).rc != 0 by {
                    assert(entries_view(self.spec_entries())[j].rc == self.spec_entries()[j].1
                        .ref_count);
                }
                lemma_last_unpinned_none(entries_view(self.spec_entries()));
                if none_pinned(old(self).spec_entries()) && self.spec_entries().len() > 0 {
                    assert(self.spec_entries()[0].1.ref_count > 0);
                    assert(false);
                }
            }
            assert(evict_view(entries_view(self.spec_entries()), budget as int) == entries_view(
                self.spec_entries(),
            ));
        }
    }
}


/// The round trip through the cache and the filesystem: after a write and
/// a sync, a read returns the written block, whether it hits the cache or
/// decodes the bytes the sync wrote. `write` keeps its entry
/// unconditionally, so its ensures discharges the first premise for every
/// block, budget or no budget.
pub proof fn lemma_cache_round_trip(
    c1: Cache,
    d1: Disk,
    p: Seq<SegView>,
    block: Seq<u8>,
    r: Option<Seq<u8>>,
)
    requires
        // what `write(p, block)` ensures when the new entry survives eviction
        c1.spec_at(p) == Some(block),
        // what `sync(p)` ensures of the disk afterwards
        d1.spec_at(p) == c1.spec_at(p),
        // what `read(p)` ensures of its result: the cached bytes on a hit,
        // the decoded disk bytes on a miss
        r == (match c1.spec_at(p) {
            Some(bytes) => Some(bytes),
            None => d1.spec_at(p),
        }),
    ensures
        r == Some(block),
{
}

/// The cache after any sequence of reads, writes and removals accounts
/// exactly the bytes it holds, and when no block is pinned it is bounded
/// by its budget: `wf` carries the accounting, and `write` bounds the
/// total.
pub proof fn lemma_cache_accounting(c: Cache)
    requires
        c.wf(),
    ensures
        c.spec_size() == total_size(c.spec_entries()),
        total_size(c.spec_entries()) >= 0,
{
    lemma_total_size_nonneg(c.spec_entries());
}

/// The bytes held are bounded by the number of entries times the largest
/// possible block, so the accounting cannot pass its counter's range.
proof fn lemma_total_size_bound(entries: Seq<(FsPath, CacheEntry)>)
    ensures
        total_size(entries) <= entries.len() * (usize::MAX as int),
    decreases entries.len(),
{
    if entries.len() > 0 {
        lemma_total_size_bound(entries.skip(1));
        assert(entries[0].1.block@.len() <= usize::MAX as int) by {
            assert(vstd::std_specs::vec::spec_vec_len(&entries[0].1.block.data)
                == entries[0].1.block.data@.len());
        }
        assert((entries.len() - 1) * (usize::MAX as int) + (usize::MAX as int) == entries.len()
            * (usize::MAX as int)) by (nonlinear_arith);
    } else {
        assert(entries.len() * (usize::MAX as int) == 0) by (nonlinear_arith)
            requires entries.len() == 0;
    }
}

/// A lookup misses exactly when no entry carries the path.
proof fn lemma_cache_none_iff(entries: Seq<(FsPath, CacheEntry)>, k: Seq<SegView>)
    ensures
        (cache_at(entries, k) is None) <==> (forall|j: int| 0 <= j < entries.len() ==> (
        #[trigger] entries[j].0@) != k),
    decreases entries.len(),
{
    if entries.len() > 0 {
        lemma_cache_none_iff(entries.skip(1), k);
        assert(forall|j: int| 0 <= j < entries.skip(1).len() ==> #[trigger] entries.skip(1)[j]
            == entries[j + 1]);
        if entries[0].0@ == k {
        } else {
            assert(cache_at(entries, k) == cache_at(entries.skip(1), k));
            if cache_at(entries, k) is None {
                assert forall|j: int| 0 <= j < entries.len() implies (#[trigger] entries[j].0@)
                    != k by {
                    if j > 0 {
                        assert(entries.skip(1)[j - 1] == entries[j]);
                    }
                }
            } else {
                assert(!(forall|j: int| 0 <= j < entries.skip(1).len() ==> (
                #[trigger] entries.skip(1)[j].0@) != k));
                let w = choose|j: int| 0 <= j < entries.skip(1).len() && entries.skip(1)[j].0@
                    == k;
                assert(entries[w + 1].0@ == k);
            }
        }
    }
}

proof fn lemma_total_size_nonneg(entries: Seq<(FsPath, CacheEntry)>)
    ensures
        total_size(entries) >= 0,
    decreases entries.len(),
{
    if entries.len() > 0 {
        lemma_total_size_nonneg(entries.skip(1));
    }
}

proof fn lemma_total_size_push(orig: Seq<(FsPath, CacheEntry)>, cur: Seq<(FsPath, CacheEntry)>)
    requires
        cur == orig.push(cur.last()),
    ensures
        total_size(cur) == total_size(orig) + cur.last().1.block@.len(),
    decreases orig.len(),
{
    if orig.len() == 0 {
        assert(cur.skip(1) =~= Seq::<(FsPath, CacheEntry)>::empty());
        assert(cur[0] == cur.last());
        assert(total_size(cur) == cur[0].1.block@.len() + total_size(cur.skip(1)));
    } else {
        assert(cur[0] == orig[0]);
        assert(cur.skip(1) =~= orig.skip(1).push(cur.last()));
        lemma_total_size_push(orig.skip(1), cur.skip(1));
        assert(total_size(cur) == cur[0].1.block@.len() + total_size(cur.skip(1)));
        assert(total_size(orig) == orig[0].1.block@.len() + total_size(orig.skip(1)));
    }
}

proof fn lemma_total_size_remove(orig: Seq<(FsPath, CacheEntry)>, i: int)
    requires
        0 <= i < orig.len(),
    ensures
        total_size(orig.remove(i)) == total_size(orig) - orig[i].1.block@.len(),
    decreases orig.len(),
{
    if i == 0 {
        assert(orig.remove(0) =~= orig.skip(1));
    } else {
        assert(orig.remove(i)[0] == orig[0]);
        assert(orig.remove(i).skip(1) =~= orig.skip(1).remove(i - 1));
        lemma_total_size_remove(orig.skip(1), i - 1);
    }
}

/// A first match (nothing matching before it) fixes both lookups, with no
/// uniqueness needed past the match.
proof fn lemma_rc_prefix(es: Seq<(FsPath, CacheEntry)>, i: int, k: Seq<SegView>)
    requires
        0 <= i < es.len(),
        es[i].0@ == k,
        forall|j: int| 0 <= j < i ==> (#[trigger] es[j].0@) != k,
    ensures
        rc_at(es, k) == Some(es[i].1.ref_count),
        cache_at(es, k) == Some(es[i].1.block@),
    decreases es.len(),
{
    if i > 0 {
        assert(es.skip(1)[i - 1] == es[i]);
        assert(forall|j: int| 0 <= j < i - 1 ==> #[trigger] es.skip(1)[j] == es[j + 1]);
        lemma_rc_prefix(es.skip(1), i - 1, k);
    }
}

/// Removing the entry at one path keeps the handle count seen at every
/// other path.
proof fn lemma_rc_remove_keeps(
    orig: Seq<(FsPath, CacheEntry)>,
    cur: Seq<(FsPath, CacheEntry)>,
    i: int,
    p: Seq<SegView>,
    k: Seq<SegView>,
)
    requires
        0 <= i < orig.len(),
        cur == orig.remove(i),
        orig[i].0@ == p,
        unique_paths(orig),
        k != p,
    ensures
        rc_at(cur, k) == rc_at(orig, k),
    decreases orig.len(),
{
    assert forall|a: int, b: int| 0 <= a < b < cur.len() implies (#[trigger] cur[a].0@) != (
    #[trigger] cur[b].0@) by {
        let a2: int = if a < i { a } else { a + 1 };
        let b2: int = if b < i { b } else { b + 1 };
        assert(cur[a] == orig[a2]);
        assert(cur[b] == orig[b2]);
    }
    if exists|j: int| 0 <= j < orig.len() && (#[trigger] orig[j].0@) == k {
        let j = choose|j: int| 0 <= j < orig.len() && (#[trigger] orig[j].0@) == k;
        assert(j != i);
        let j2: int = if j < i { j } else { j - 1 };
        assert(cur[j2] == orig[j]);
        lemma_lookup_at(orig, j, k);
        lemma_lookup_at(cur, j2, k);
    } else {
        assert forall|j: int| 0 <= j < cur.len() implies (#[trigger] cur[j].0@) != k by {
            if j < i {
                assert(cur[j] == orig[j]);
            } else {
                assert(cur[j] == orig[j + 1]);
            }
        }
        lemma_lookup_none(orig, k);
        lemma_lookup_none(cur, k);
    }
}

/// Swapping two adjacent entries keeps the handle count seen at every path.
proof fn lemma_rc_swap(
    orig: Seq<(FsPath, CacheEntry)>,
    cur: Seq<(FsPath, CacheEntry)>,
    i: int,
    k: Seq<SegView>,
)
    requires
        1 <= i < orig.len(),
        cur.len() == orig.len(),
        cur[i - 1] == orig[i],
        cur[i] == orig[i - 1],
        forall|j: int| 0 <= j < orig.len() && j != i && j != i - 1 ==> cur[j] == orig[j],
        unique_paths(orig),
        unique_paths(cur),
    ensures
        rc_at(cur, k) == rc_at(orig, k),
{
    if exists|j: int| 0 <= j < orig.len() && (#[trigger] orig[j].0@) == k {
        let j = choose|j: int| 0 <= j < orig.len() && (#[trigger] orig[j].0@) == k;
        let j2: int = if j == i {
            i - 1
        } else if j == i - 1 {
            i
        } else {
            j
        };
        assert(cur[j2] == orig[j]);
        lemma_lookup_at(orig, j, k);
        lemma_lookup_at(cur, j2, k);
    } else {
        assert forall|j: int| 0 <= j < cur.len() implies (#[trigger] cur[j].0@) != k by {
            if j == i {
                assert(cur[j] == orig[i - 1]);
            } else if j == i - 1 {
                assert(cur[j] == orig[i]);
            } else {
                assert(cur[j] == orig[j]);
            }
        }
        lemma_lookup_none(orig, k);
        lemma_lookup_none(cur, k);
    }
}

/// Appending an entry for a fresh path keeps the handle count seen at
/// every other path.
proof fn lemma_rc_push_keeps(
    orig: Seq<(FsPath, CacheEntry)>,
    cur: Seq<(FsPath, CacheEntry)>,
    p: Seq<SegView>,
    k: Seq<SegView>,
)
    requires
        cur.len() == orig.len() + 1,
        forall|j: int| 0 <= j < orig.len() ==> cur[j] == orig[j],
        cur.last().0@ == p,
        unique_paths(orig),
        unique_paths(cur),
        k != p,
    ensures
        rc_at(cur, k) == rc_at(orig, k),
{
    if exists|j: int| 0 <= j < orig.len() && (#[trigger] orig[j].0@) == k {
        let j = choose|j: int| 0 <= j < orig.len() && (#[trigger] orig[j].0@) == k;
        assert(cur[j] == orig[j]);
        lemma_lookup_at(orig, j, k);
        lemma_lookup_at(cur, j, k);
    } else {
        assert forall|j: int| 0 <= j < cur.len() implies (#[trigger] cur[j].0@) != k by {
            if j < orig.len() {
                assert(cur[j] == orig[j]);
            } else {
                assert(cur[j] == cur.last());
            }
        }
        lemma_lookup_none(orig, k);
        lemma_lookup_none(cur, k);
    }
}

/// An unpinned entry with only pinned entries after it is the coldest
/// unpinned one.
proof fn lemma_last_unpinned_at(vs: Seq<EntryView>, i: int)
    requires
        0 <= i < vs.len(),
        vs[i].rc == 0,
        forall|j: int| i < j < vs.len() ==> (#[trigger] vs[j]).rc != 0,
    ensures
        last_unpinned(vs) == Some(i),
    decreases vs.len(),
{
    if i < vs.len() - 1 {
        assert(vs.last().rc != 0);
        assert(forall|j: int| 0 <= j < vs.drop_last().len() ==> #[trigger] vs.drop_last()[j]
            == vs[j]);
        lemma_last_unpinned_at(vs.drop_last(), i);
    }
}

/// With every entry pinned, there is no coldest unpinned one.
proof fn lemma_last_unpinned_none(vs: Seq<EntryView>)
    requires
        forall|j: int| 0 <= j < vs.len() ==> (#[trigger] vs[j]).rc != 0,
    ensures
        last_unpinned(vs) is None,
    decreases vs.len(),
{
    if vs.len() > 0 {
        assert(forall|j: int| 0 <= j < vs.drop_last().len() ==> #[trigger] vs.drop_last()[j]
            == vs[j]);
        lemma_last_unpinned_none(vs.drop_last());
    }
}

/// Replacing one entry in place with the same path fixes the handle count
/// at its path and keeps it at every other.
proof fn lemma_rc_update(
    orig: Seq<(FsPath, CacheEntry)>,
    cur: Seq<(FsPath, CacheEntry)>,
    i: int,
    p: Seq<SegView>,
)
    requires
        0 <= i < orig.len(),
        cur.len() == orig.len(),
        cur[i].0@ == orig[i].0@,
        orig[i].0@ == p,
        forall|j: int| 0 <= j < orig.len() && j != i ==> cur[j] == orig[j],
        unique_paths(orig),
    ensures
        rc_at(cur, p) == Some(cur[i].1.ref_count),
        forall|k: Seq<SegView>| k != p ==> rc_at(cur, k) == rc_at(orig, k),
{
    assert forall|a: int, b: int| 0 <= a < b < cur.len() implies (#[trigger] cur[a].0@) != (
    #[trigger] cur[b].0@) by {
        if a != i && b != i {
            assert(cur[a] == orig[a] && cur[b] == orig[b]);
        } else if a == i {
            assert(cur[b] == orig[b]);
        } else {
            assert(cur[a] == orig[a]);
        }
    }
    lemma_lookup_at(cur, i, p);
    assert forall|k: Seq<SegView>| k != p implies rc_at(cur, k) == rc_at(orig, k) by {
        if exists|j: int| 0 <= j < orig.len() && (#[trigger] orig[j].0@) == k {
            let j = choose|j: int| 0 <= j < orig.len() && (#[trigger] orig[j].0@) == k;
            assert(j != i);
            assert(cur[j] == orig[j]);
            lemma_lookup_at(orig, j, k);
            lemma_lookup_at(cur, j, k);
        } else {
            assert forall|j: int| 0 <= j < cur.len() implies (#[trigger] cur[j].0@) != k by {
                if j != i {
                    assert(cur[j] == orig[j]);
                }
            }
            lemma_lookup_none(orig, k);
            lemma_lookup_none(cur, k);
        }
    }
}

/// With the paths unique, a match anywhere fixes both lookups.
proof fn lemma_lookup_at(es: Seq<(FsPath, CacheEntry)>, j: int, k: Seq<SegView>)
    requires
        unique_paths(es),
        0 <= j < es.len(),
        es[j].0@ == k,
    ensures
        cache_at(es, k) == Some(es[j].1.block@),
        rc_at(es, k) == Some(es[j].1.ref_count),
    decreases es.len(),
{
    if j > 0 {
        assert(es[0].0@ != k);
        assert(es.skip(1)[j - 1] == es[j]);
        assert(forall|a: int, b: int| 0 <= a < b < es.skip(1).len() ==> (
        #[trigger] es.skip(1)[a].0@) != (#[trigger] es.skip(1)[b].0@));
        lemma_lookup_at(es.skip(1), j - 1, k);
    }
}

/// No match anywhere leaves both lookups empty.
proof fn lemma_lookup_none(es: Seq<(FsPath, CacheEntry)>, k: Seq<SegView>)
    requires
        forall|j: int| 0 <= j < es.len() ==> (#[trigger] es[j].0@) != k,
    ensures
        cache_at(es, k) is None,
        rc_at(es, k) is None,
    decreases es.len(),
{
    if es.len() > 0 {
        assert(forall|j: int| 0 <= j < es.skip(1).len() ==> #[trigger] es.skip(1)[j]
            == es[j + 1]);
        lemma_lookup_none(es.skip(1), k);
    }
}

/// A first match at `i` (nothing matching before it) is the rank the view
/// lookup names.
proof fn lemma_view_index_at(es: Seq<(FsPath, CacheEntry)>, i: int, k: Seq<SegView>)
    requires
        0 <= i < es.len(),
        es[i].0@ == k,
        forall|j: int| 0 <= j < i ==> (#[trigger] es[j].0@) != k,
    ensures
        view_index(entries_view(es), k) == Some(i),
    decreases es.len(),
{
    if i > 0 {
        assert(entries_view(es).skip(1) =~= entries_view(es.skip(1)));
        assert(es.skip(1)[i - 1] == es[i]);
        assert(forall|j: int| 0 <= j < i - 1 ==> #[trigger] es.skip(1)[j] == es[j + 1]);
        lemma_view_index_at(es.skip(1), i - 1, k);
    }
}

/// No match anywhere leaves the view lookup empty.
proof fn lemma_view_index_absent(es: Seq<(FsPath, CacheEntry)>, k: Seq<SegView>)
    requires
        forall|j: int| 0 <= j < es.len() ==> (#[trigger] es[j].0@) != k,
    ensures
        view_index(entries_view(es), k) is None,
    decreases es.len(),
{
    if es.len() > 0 {
        assert(entries_view(es).skip(1) =~= entries_view(es.skip(1)));
        assert(forall|j: int| 0 <= j < es.skip(1).len() ==> #[trigger] es.skip(1)[j]
            == es[j + 1]);
        lemma_view_index_absent(es.skip(1), k);
    }
}

/// The view and the entry list account the same bytes.
proof fn lemma_view_total_eq(es: Seq<(FsPath, CacheEntry)>)
    ensures
        view_total(entries_view(es)) == total_size(es),
    decreases es.len(),
{
    if es.len() > 0 {
        assert(entries_view(es).skip(1) =~= entries_view(es.skip(1)));
        lemma_view_total_eq(es.skip(1));
    }
}

/// An entry whose path repeats earlier in the list is shadowed; the first
/// match wins, so a match at `j` means the lookup is `Some`.
proof fn lemma_cache_found(entries: Seq<(FsPath, CacheEntry)>, j: int, k: Seq<SegView>)
    requires
        0 <= j < entries.len(),
        entries[j].0@ == k,
    ensures
        cache_at(entries, k) is Some,
    decreases entries.len(),
{
    if entries[0].0@ != k {
        assert(entries.skip(1)[j - 1] == entries[j]);
        lemma_cache_found(entries.skip(1), j - 1, k);
    }
}

proof fn lemma_cache_push(
    orig: Seq<(FsPath, CacheEntry)>,
    cur: Seq<(FsPath, CacheEntry)>,
    p: Seq<SegView>,
)
    requires
        cur == orig.push(cur.last()),
        cur.last().0@ == p,
        cache_at(orig, p) is None,
    ensures
        cache_at(cur, p) == Some(cur.last().1.block@),
        forall|k: Seq<SegView>| k != p ==> cache_at(cur, k) == cache_at(orig, k),
    decreases orig.len(),
{
    if orig.len() == 0 {
        assert(cur[0] == cur.last());
        assert(cur.skip(1) =~= Seq::<(FsPath, CacheEntry)>::empty());
        assert forall|k: Seq<SegView>| k != p implies cache_at(cur, k) == cache_at(orig, k) by {
            assert(cache_at(cur, k) == cache_at(cur.skip(1), k));
        }
    } else {
        assert(cur[0] == orig[0]);
        assert(cur.skip(1) =~= orig.skip(1).push(cur.last()));
        lemma_cache_push(orig.skip(1), cur.skip(1), p);
        assert forall|k: Seq<SegView>| k != p implies cache_at(cur, k) == cache_at(orig, k) by {
            if cur[0].0@ != k {
                assert(cache_at(cur, k) == cache_at(cur.skip(1), k));
                assert(cache_at(orig, k) == cache_at(orig.skip(1), k));
            }
        }
    }
}

proof fn lemma_cache_remove(
    orig: Seq<(FsPath, CacheEntry)>,
    cur: Seq<(FsPath, CacheEntry)>,
    i: int,
    p: Seq<SegView>,
)
    requires
        0 <= i < orig.len(),
        cur == orig.remove(i),
        orig[i].0@ == p,
        unique_paths(orig),
    ensures
        cache_at(cur, p) is None,
        forall|k: Seq<SegView>| k != p ==> cache_at(cur, k) == cache_at(orig, k),
        cache_at(orig, p) == Some(orig[i].1.block@),
        unique_paths(cur),
    decreases orig.len(),
{
    assert forall|j: int| 0 <= j < cur.len() implies (#[trigger] cur[j].0@) != p by {
        if j < i {
            assert(cur[j] == orig[j]);
        } else {
            assert(cur[j] == orig[j + 1]);
        }
    }
    lemma_cache_none_iff(cur, p);
    assert forall|j: int, j2: int| 0 <= j < j2 < cur.len() implies (#[trigger] cur[j].0@) != (
    #[trigger] cur[j2].0@) by {
        let a: int = if j < i { j } else { j + 1 };
        let b: int = if j2 < i { j2 } else { j2 + 1 };
        assert(cur[j] == orig[a]);
        assert(cur[j2] == orig[b]);
    }
    lemma_cache_remove_keeps(orig, cur, i, p);
    lemma_cache_remove_found(orig, i, p);
}

/// The first match of a removed unique path is the removed entry.
proof fn lemma_cache_remove_found(orig: Seq<(FsPath, CacheEntry)>, i: int, p: Seq<SegView>)
    requires
        0 <= i < orig.len(),
        orig[i].0@ == p,
        unique_paths(orig),
    ensures
        cache_at(orig, p) == Some(orig[i].1.block@),
    decreases orig.len(),
{
    if i > 0 {
        assert(orig[0].0@ != p);
        assert(orig.skip(1)[i - 1] == orig[i]);
        assert(forall|a: int, b: int| 0 <= a < b < orig.skip(1).len() ==> (
        #[trigger] orig.skip(1)[a].0@) != (#[trigger] orig.skip(1)[b].0@));
        lemma_cache_remove_found(orig.skip(1), i - 1, p);
    }
}

/// Removing one entry keeps the lookup of every other path.
proof fn lemma_cache_remove_keeps(
    orig: Seq<(FsPath, CacheEntry)>,
    cur: Seq<(FsPath, CacheEntry)>,
    i: int,
    p: Seq<SegView>,
)
    requires
        0 <= i < orig.len(),
        cur == orig.remove(i),
        orig[i].0@ == p,
    ensures
        forall|k: Seq<SegView>| k != p ==> cache_at(cur, k) == cache_at(orig, k),
    decreases orig.len(),
{
    if i == 0 {
        assert(cur =~= orig.skip(1));
        assert forall|k: Seq<SegView>| k != p implies cache_at(cur, k) == cache_at(orig, k) by {
            assert(cache_at(orig, k) == cache_at(orig.skip(1), k));
        }
    } else {
        assert(cur[0] == orig[0]);
        assert(cur.skip(1) =~= orig.skip(1).remove(i - 1));
        assert(orig.skip(1)[i - 1] == orig[i]);
        lemma_cache_remove_keeps(orig.skip(1), cur.skip(1), i - 1, p);
        assert forall|k: Seq<SegView>| k != p implies cache_at(cur, k) == cache_at(orig, k) by {
            if cur[0].0@ != k {
                assert(cache_at(cur, k) == cache_at(cur.skip(1), k));
                assert(cache_at(orig, k) == cache_at(orig.skip(1), k));
            }
        }
    }
}

/// Swapping two adjacent entries keeps every lookup, provided no earlier
/// entry shadows either of them.
proof fn lemma_cache_swap(
    orig: Seq<(FsPath, CacheEntry)>,
    cur: Seq<(FsPath, CacheEntry)>,
    i: int,
)
    requires
        1 <= i < orig.len(),
        cur.len() == orig.len(),
        cur[i - 1] == orig[i],
        cur[i] == orig[i - 1],
        forall|j: int| 0 <= j < orig.len() && j != i && j != i - 1 ==> cur[j] == orig[j],
        forall|j: int| 0 <= j < i ==> (#[trigger] orig[j].0@) != orig[i].0@,
        unique_paths(orig),
    ensures
        forall|k: Seq<SegView>| cache_at(cur, k) == cache_at(orig, k),
        unique_paths(cur),
    decreases orig.len(),
{
    assert forall|a: int, b: int| 0 <= a < b < cur.len() implies (#[trigger] cur[a].0@) != (
    #[trigger] cur[b].0@) by {
        let a2: int = if a == i { i - 1 } else if a == i - 1 { i } else { a };
        let b2: int = if b == i { i - 1 } else if b == i - 1 { i } else { b };
        assert(cur[a] == orig[a2]);
        assert(cur[b] == orig[b2]);
    }
    if i == 1 {
        assert forall|k: Seq<SegView>| cache_at(cur, k) == cache_at(orig, k) by {
            lemma_cache_head2(orig, cur, k);
        }
    } else {
        assert(cur[0] == orig[0]);
        assert(cur.skip(1) =~= cur.skip(1));
        assert forall|k: Seq<SegView>| cache_at(cur, k) == cache_at(orig, k) by {
            assert(forall|j: int| 0 <= j < orig.skip(1).len() && j != i - 1 && j != i - 2
                ==> #[trigger] cur.skip(1)[j] == orig.skip(1)[j]);
            assert(cur.skip(1)[i - 2] == orig.skip(1)[i - 1]);
            assert(cur.skip(1)[i - 1] == orig.skip(1)[i - 2]);
            assert(forall|j: int| 0 <= j < i - 1 ==> (#[trigger] orig.skip(1)[j].0@) != orig.skip(
                1,
            )[i - 1].0@);
            lemma_cache_swap(orig.skip(1), cur.skip(1), i - 1);
            if cur[0].0@ != k {
                assert(cache_at(cur, k) == cache_at(cur.skip(1), k));
                assert(cache_at(orig, k) == cache_at(orig.skip(1), k));
            }
        }
    }
}

/// Swapping the first two entries keeps every lookup when their paths
/// differ.
proof fn lemma_cache_head2(
    orig: Seq<(FsPath, CacheEntry)>,
    cur: Seq<(FsPath, CacheEntry)>,
    k: Seq<SegView>,
)
    requires
        2 <= orig.len(),
        cur.len() == orig.len(),
        cur[0] == orig[1],
        cur[1] == orig[0],
        orig[0].0@ != orig[1].0@,
        forall|j: int| 2 <= j < orig.len() ==> cur[j] == orig[j],
    ensures
        cache_at(cur, k) == cache_at(orig, k),
{
    assert(cur.skip(1)[0] == cur[1]);
    assert(orig.skip(1)[0] == orig[1]);
    assert(cur.skip(1).skip(1) =~= cur.skip(2));
    assert(orig.skip(1).skip(1) =~= orig.skip(2));
    assert(cur.skip(2) =~= orig.skip(2));
    if orig[0].0@ == k {
        assert(cache_at(orig, k) == Some(orig[0].1.block@));
        assert(cache_at(cur, k) == cache_at(cur.skip(1), k));
        assert(cache_at(cur.skip(1), k) == Some(cur[1].1.block@));
    } else if orig[1].0@ == k {
        assert(cache_at(orig, k) == cache_at(orig.skip(1), k));
        assert(cache_at(orig.skip(1), k) == Some(orig[1].1.block@));
        assert(cache_at(cur, k) == Some(cur[0].1.block@));
    } else {
        assert(cache_at(orig, k) == cache_at(orig.skip(1), k));
        assert(cache_at(orig.skip(1), k) == cache_at(orig.skip(2), k));
        assert(cache_at(cur, k) == cache_at(cur.skip(1), k));
        assert(cache_at(cur.skip(1), k) == cache_at(cur.skip(2), k));
    }
}

/// Swapping two adjacent entries keeps the total size.
proof fn lemma_total_swap(
    orig: Seq<(FsPath, CacheEntry)>,
    cur: Seq<(FsPath, CacheEntry)>,
    i: int,
)
    requires
        1 <= i < orig.len(),
        cur.len() == orig.len(),
        cur[i - 1] == orig[i],
        cur[i] == orig[i - 1],
        forall|j: int| 0 <= j < orig.len() && j != i && j != i - 1 ==> cur[j] == orig[j],
    ensures
        total_size(cur) == total_size(orig),
    decreases i,
{
    if i == 1 {
        assert(cur.skip(1)[0] == cur[1]);
        assert(orig.skip(1)[0] == orig[1]);
        assert(cur.skip(1).skip(1) =~= cur.skip(2));
        assert(orig.skip(1).skip(1) =~= orig.skip(2));
        assert(cur.skip(2) =~= orig.skip(2));
        assert(total_size(cur) == cur[0].1.block@.len() + total_size(cur.skip(1)));
        assert(total_size(cur.skip(1)) == cur[1].1.block@.len() + total_size(cur.skip(2)));
        assert(total_size(orig) == orig[0].1.block@.len() + total_size(orig.skip(1)));
        assert(total_size(orig.skip(1)) == orig[1].1.block@.len() + total_size(orig.skip(2)));
    } else {
        assert(cur[0] == orig[0]);
        assert(forall|j: int| 0 <= j < orig.skip(1).len() && j != i - 1 && j != i - 2
            ==> #[trigger] cur.skip(1)[j] == orig.skip(1)[j]);
        assert(cur.skip(1)[i - 2] == orig.skip(1)[i - 1]);
        assert(cur.skip(1)[i - 1] == orig.skip(1)[i - 2]);
        lemma_total_swap(orig.skip(1), cur.skip(1), i - 1);
        assert(total_size(cur) == cur[0].1.block@.len() + total_size(cur.skip(1)));
        assert(total_size(orig) == orig[0].1.block@.len() + total_size(orig.skip(1)));
    }
}

/// Replacing an entry with one holding the same path and block keeps every
/// lookup and the accounted size.
proof fn lemma_cache_update_same(
    orig: Seq<(FsPath, CacheEntry)>,
    cur: Seq<(FsPath, CacheEntry)>,
    i: int,
)
    requires
        0 <= i < orig.len(),
        cur.len() == orig.len(),
        cur[i].0@ == orig[i].0@,
        cur[i].1.block@ == orig[i].1.block@,
        forall|j: int| 0 <= j < orig.len() && j != i ==> cur[j] == orig[j],
    ensures
        forall|k: Seq<SegView>| cache_at(cur, k) == cache_at(orig, k),
        total_size(cur) == total_size(orig),
    decreases orig.len(),
{
    if i == 0 {
        assert(cur.skip(1) =~= orig.skip(1));
    } else {
        assert(cur[0] == orig[0]);
        assert(forall|j: int| 0 <= j < orig.skip(1).len() && j != i - 1 ==> #[trigger] cur.skip(
            1,
        )[j] == orig.skip(1)[j]);
        assert(cur.skip(1)[i - 1].0@ == orig.skip(1)[i - 1].0@);
        assert(cur.skip(1)[i - 1].1.block@ == orig.skip(1)[i - 1].1.block@);
        lemma_cache_update_same(orig.skip(1), cur.skip(1), i - 1);
        assert forall|k: Seq<SegView>| cache_at(cur, k) == cache_at(orig, k) by {
            if cur[0].0@ != k {
                assert(cache_at(cur, k) == cache_at(cur.skip(1), k));
                assert(cache_at(orig, k) == cache_at(orig.skip(1), k));
            }
        }
    }
}

} // verus!
