use vstd::prelude::*;

use crate::transaction::TransactionId;

verus! {

/// One component of a filesystem path: a plain name, or the version
/// directory of a transaction, whose on-disk name is the id's lexical form.
#[derive(Debug)]
pub enum PathSegment {
    Name(String),
    Version(TransactionId),
}

/// The mathematical value of a path segment.
pub enum SegView {
    Name(Seq<char>),
    Version(TransactionId),
}

impl View for PathSegment {
    type V = SegView;

    open spec fn view(&self) -> SegView {
        match *self {
            PathSegment::Name(s) => SegView::Name(s@),
            PathSegment::Version(t) => SegView::Version(t),
        }
    }
}

impl Clone for PathSegment {
    fn clone(&self) -> (r: PathSegment)
        ensures
            r@ == self@,
    {
        match self {
            PathSegment::Name(s) => PathSegment::Name(s.clone()),
            PathSegment::Version(t) => PathSegment::Version(*t),
        }
    }
}

/// Whether two segments name the same filesystem entry.
pub fn seg_eq(a: &PathSegment, b: &PathSegment) -> (r: bool)
    ensures
        r == (a@ == b@),
{
    match (a, b) {
        (PathSegment::Name(x), PathSegment::Name(y)) => *x == *y,
        (PathSegment::Version(x), PathSegment::Version(y)) => *x == *y,
        _ => false,
    }
}

/// A filesystem location: a sequence of segments from the store root.
#[derive(Debug)]
pub struct FsPath {
    segments: Vec<PathSegment>,
}

impl View for FsPath {
    type V = Seq<SegView>;

    closed spec fn view(&self) -> Seq<SegView> {
        Seq::new(self.segments@.len(), |i: int| self.segments@[i]@)
    }
}

impl Clone for FsPath {
    fn clone(&self) -> (r: FsPath)
        ensures
            r@ == self@,
    {
        let n = self.segments.len();
        let mut segments: Vec<PathSegment> = Vec::new();
        for i in 0..n
            invariant
                n == self@.len(),
                segments@.len() == i,
                forall|j: int| 0 <= j < i ==> #[trigger] segments@[j]@ == self@[j],
        {
            segments.push(self.segments[i].clone());
        }
        let r = FsPath { segments };
        proof {
            assert(r@ =~= self@);
        }
        r
    }
}

impl FsPath {
    pub fn new(segments: Vec<PathSegment>) -> (r: FsPath)
        ensures
            r@.len() == segments@.len(),
            forall|i: int| 0 <= i < segments@.len() ==> r@[i] == #[trigger] segments@[i]@,
    {
        FsPath { segments }
    }

    pub fn root() -> (r: FsPath)
        ensures
            r@ == Seq::<SegView>::empty(),
    {
        let r = FsPath { segments: Vec::new() };
        proof {
            assert(r@ =~= Seq::<SegView>::empty());
        }
        r
    }

    pub fn len(&self) -> (r: usize)
        ensures
            r == self@.len(),
    {
        self.segments.len()
    }

    /// This path extended by one segment.
    pub fn join(&self, seg: PathSegment) -> (r: FsPath)
        ensures
            r@ == self@.push(seg@),
    {
        let mut segments = self.clone().segments;
        segments.push(seg);
        let r = FsPath { segments };
        proof {
            assert(r@ =~= self@.push(seg@));
        }
        r
    }

    /// Whether two paths name the same filesystem entry.
    pub fn eq_path(&self, other: &FsPath) -> (r: bool)
        ensures
            r == (self@ == other@),
    {
        if self.segments.len() != other.segments.len() {
            proof {
                assert(self@.len() != other@.len());
            }
            return false;
        }
        let n = self.segments.len();
        for i in 0..n
            invariant
                n == self@.len() == other@.len(),
                forall|j: int| 0 <= j < i ==> self@[j] == other@[j],
        {
            if !seg_eq(&self.segments[i], &other.segments[i]) {
                proof {
                    assert(self@[i as int] != other@[i as int]);
                }
                return false;
            }
        }
        proof {
            assert(self@ =~= other@);
        }
        true
    }

    /// Whether `self` is a proper or improper prefix of `other`.
    pub fn is_prefix_of(&self, other: &FsPath) -> (r: bool)
        ensures
            r == path_prefix(self@, other@),
    {
        if self.segments.len() > other.segments.len() {
            return false;
        }
        let n = self.segments.len();
        for i in 0..n
            invariant
                n == self@.len() <= other@.len(),
                forall|j: int| 0 <= j < i ==> self@[j] == other@[j],
        {
            if !seg_eq(&self.segments[i], &other.segments[i]) {
                proof {
                    assert(self@[i as int] != other@[i as int]);
                    assert(other@.subrange(0, self@.len() as int)[i as int] == other@[i as int]);
                }
                return false;
            }
        }
        proof {
            assert(self@ =~= other@.subrange(0, self@.len() as int));
        }
        true
    }
}

/// Whether `p` is a prefix of `q`.
pub open spec fn path_prefix(p: Seq<SegView>, q: Seq<SegView>) -> bool {
    p.len() <= q.len() && p == q.subrange(0, p.len() as int)
}

/// The canonical location of the block `name` inside the directory `dir`.
pub fn fs_path(dir: &FsPath, name: &String) -> (r: FsPath)
    ensures
        r@ == dir@.push(SegView::Name(name@)),
{
    dir.join(PathSegment::Name(name.clone()))
}

/// The contents a file holds at each path of an in-memory filesystem
/// state: the canonical and version blocks the store has written.
pub struct Disk {
    files: Vec<(FsPath, Vec<u8>)>,
}

/// The first file at path `k`, if one exists.
pub open spec fn disk_at(files: Seq<(FsPath, Vec<u8>)>, k: Seq<SegView>) -> Option<Seq<u8>>
    decreases files.len(),
{
    if files.len() == 0 {
        None
    } else if files[0].0@ == k {
        Some(files[0].1@)
    } else {
        disk_at(files.skip(1), k)
    }
}

impl Disk {
    /// The association of paths to file contents.
    pub closed spec fn spec_files(&self) -> Seq<(FsPath, Vec<u8>)> {
        self.files@
    }

    /// The contents at path `k`, if a file exists there.
    pub open spec fn spec_at(&self, k: Seq<SegView>) -> Option<Seq<u8>> {
        disk_at(self.spec_files(), k)
    }

    pub fn new() -> (r: Disk)
        ensures
            forall|k: Seq<SegView>| r.spec_at(k) is None,
    {
        Disk { files: Vec::new() }
    }

    /// The contents of the file at `p`, or nothing when no file is there.
    pub fn read_file(&self, p: &FsPath) -> (r: Option<&Vec<u8>>)
        ensures
            r is Some <==> self.spec_at(p@) is Some,
            r matches Some(v) ==> Some(v@) == self.spec_at(p@),
    {
        let n = self.files.len();
        proof {
            assert(self.spec_files().skip(0) =~= self.spec_files());
        }
        for i in 0..n
            invariant
                n == self.spec_files().len(),
                disk_at(self.spec_files(), p@) == disk_at(self.spec_files().skip(i as int), p@),
        {
            proof {
                lemma_disk_at_step(self.spec_files(), p@, i as int);
            }
            if self.files[i].0.eq_path(p) {
                return Some(&self.files[i].1);
            }
        }
        proof {
            lemma_disk_at_end(self.spec_files(), p@);
        }
        None
    }

    /// Whether a file exists at `p`.
    pub fn has_file(&self, p: &FsPath) -> (r: bool)
        ensures
            r == (self.spec_at(p@) is Some),
    {
        self.read_file(p).is_some()
    }

    /// Create or replace the file at `p`.
    pub fn write_file(&mut self, p: &FsPath, contents: Vec<u8>)
        ensures
            final(self).spec_at(p@) == Some(contents@),
            forall|k: Seq<SegView>| k != p@ ==> final(self).spec_at(k) == old(self).spec_at(k),
    {
        self.remove_file(p);
        let ghost pruned = self.files@;
        self.files.insert(0, (p.clone(), contents));
        proof {
            assert(self.files@.skip(1) =~= pruned);
            assert(self.files@[0].0@ == p@);
            assert(forall|k: Seq<SegView>| k != p@ ==> disk_at(self.files@, k) == disk_at(
                pruned,
                k,
            ));
        }
    }

    /// Remove the file at `p`, if any.
    pub fn remove_file(&mut self, p: &FsPath)
        ensures
            final(self).spec_at(p@) is None,
            forall|k: Seq<SegView>| k != p@ ==> final(self).spec_at(k) == old(self).spec_at(k),
    {
        let mut kept: Vec<(FsPath, Vec<u8>)> = Vec::new();
        let n = self.files.len();
        let ghost orig = self.files@;
        let mut i: usize = 0;
        while i < n
            invariant
                i <= n == orig.len(),
                self.files@ == orig,
                disk_at(kept@, p@) is None,
                forall|k: Seq<SegView>| k != p@ ==> disk_at(kept@, k) == disk_at(
                    orig.subrange(0, i as int),
                    k,
                ),
            decreases n - i,
        {
            let ghost prevkept = kept@;
            let keep = !self.files[i].0.eq_path(p);
            if keep {
                let path = self.files[i].0.clone();
                let data = clone_bytes(&self.files[i].1);
                kept.push((path, data));
            }
            proof {
                lemma_disk_at_snoc(prevkept, kept@, orig, i as int, p@, keep);
            }
            i = i + 1;
        }
        proof {
            assert(orig.subrange(0, n as int) =~= orig);
        }
        self.files = kept;
    }

    /// Remove every file at or under the directory `dir`, as removing a
    /// directory tree does.
    pub fn remove_tree(&mut self, dir: &FsPath)
        ensures
            forall|k: Seq<SegView>| path_prefix(dir@, k) ==> final(self).spec_at(k) is None,
            forall|k: Seq<SegView>| !path_prefix(dir@, k) ==> final(self).spec_at(k) == old(
                self,
            ).spec_at(k),
    {
        let mut kept: Vec<(FsPath, Vec<u8>)> = Vec::new();
        let n = self.files.len();
        let ghost orig = self.files@;
        let mut i: usize = 0;
        while i < n
            invariant
                i <= n == orig.len(),
                self.files@ == orig,
                forall|k: Seq<SegView>| path_prefix(dir@, k) ==> disk_at(kept@, k) is None,
                forall|k: Seq<SegView>| !path_prefix(dir@, k) ==> disk_at(kept@, k) == disk_at(
                    orig.subrange(0, i as int),
                    k,
                ),
            decreases n - i,
        {
            let ghost prevkept = kept@;
            let keep = !dir.is_prefix_of(&self.files[i].0);
            if keep {
                let path = self.files[i].0.clone();
                let data = clone_bytes(&self.files[i].1);
                kept.push((path, data));
            }
            proof {
                lemma_disk_tree_snoc(prevkept, kept@, orig, i as int, dir@, keep);
            }
            i = i + 1;
        }
        proof {
            assert(orig.subrange(0, n as int) =~= orig);
        }
        self.files = kept;
    }

    /// Copy the file at `src` over `dst`; nothing changes when `src` does
    /// not exist.
    pub fn copy_file(&mut self, src: &FsPath, dst: &FsPath) -> (r: bool)
        ensures
            r == (old(self).spec_at(src@) is Some),
            r ==> {
                &&& final(self).spec_at(dst@) == old(self).spec_at(src@)
                &&& forall|k: Seq<SegView>| k != dst@ ==> final(self).spec_at(k) == old(
                    self,
                ).spec_at(k)
            },
            !r ==> *final(self) == *old(self),
    {
        let data = match self.read_file(src) {
            Some(d) => clone_bytes(d),
            None => {
                return false;
            },
        };
        self.write_file(dst, data);
        true
    }
}

/// A copy of a byte vector.
pub fn clone_bytes(v: &Vec<u8>) -> (r: Vec<u8>)
    ensures
        r@ == v@,
{
    let n = v.len();
    let mut out: Vec<u8> = Vec::new();
    for i in 0..n
        invariant
            n == v@.len(),
            out@.len() == i,
            forall|j: int| 0 <= j < i ==> out@[j] == v@[j],
    {
        out.push(v[i]);
    }
    proof {
        assert(out@ =~= v@);
    }
    out
}

/// One step of the first-match lookup.
proof fn lemma_disk_at_step(files: Seq<(FsPath, Vec<u8>)>, k: Seq<SegView>, i: int)
    requires
        0 <= i < files.len(),
    ensures
        files[i].0@ == k ==> disk_at(files.skip(i), k) == Some(files[i].1@),
        files[i].0@ != k ==> disk_at(files.skip(i), k) == disk_at(files.skip(i + 1), k),
{
    assert(files.skip(i)[0] == files[i]);
    assert(files.skip(i).skip(1) =~= files.skip(i + 1));
}

proof fn lemma_disk_at_end(files: Seq<(FsPath, Vec<u8>)>, k: Seq<SegView>)
    ensures
        disk_at(files.skip(files.len() as int), k) is None,
{
    assert(files.skip(files.len() as int) =~= Seq::<(FsPath, Vec<u8>)>::empty());
}

/// Appending a kept or dropped entry extends the filtered lookup by one
/// source entry.
proof fn lemma_disk_at_snoc(
    prev: Seq<(FsPath, Vec<u8>)>,
    cur: Seq<(FsPath, Vec<u8>)>,
    orig: Seq<(FsPath, Vec<u8>)>,
    i: int,
    p: Seq<SegView>,
    keep: bool,
)
    requires
        0 <= i < orig.len(),
        keep == (orig[i].0@ != p),
        keep ==> cur.len() == prev.len() + 1 && cur[prev.len() as int].0@ == orig[i].0@
            && cur[prev.len() as int].1@ == orig[i].1@ && (forall|j: int| 0 <= j < prev.len()
            ==> cur[j] == prev[j]),
        !keep ==> cur == prev,
        disk_at(prev, p) is None,
        forall|k: Seq<SegView>| k != p ==> disk_at(prev, k) == disk_at(orig.subrange(0, i), k),
    ensures
        disk_at(cur, p) is None,
        forall|k: Seq<SegView>| k != p ==> disk_at(cur, k) == disk_at(orig.subrange(0, i + 1), k),
{
    assert forall|k: Seq<SegView>| k != p implies disk_at(cur, k) == disk_at(
        orig.subrange(0, i + 1),
        k,
    ) by {
        lemma_disk_at_append(orig.subrange(0, i), orig[i], k);
        assert(orig.subrange(0, i + 1) =~= orig.subrange(0, i).push(orig[i]));
        if keep {
            lemma_disk_at_append_entry(prev, cur, k);
        }
    }
    if keep {
        lemma_disk_at_append_entry(prev, cur, p);
    }
}

/// Looking up in `s.push(e)`: found in `s` first, else matched against `e`.
proof fn lemma_disk_at_append(s: Seq<(FsPath, Vec<u8>)>, e: (FsPath, Vec<u8>), k: Seq<SegView>)
    ensures
        disk_at(s.push(e), k) == (if disk_at(s, k) is Some {
            disk_at(s, k)
        } else if e.0@ == k {
            Some(e.1@)
        } else {
            None
        }),
    decreases s.len(),
{
    if s.len() == 0 {
        assert(s.push(e)[0] == e);
        assert(s.push(e).skip(1) =~= Seq::<(FsPath, Vec<u8>)>::empty());
        assert(disk_at(s, k) is None);
        assert(disk_at(s.push(e).skip(1), k) is None);
    } else {
        assert(s.push(e)[0] == s[0]);
        assert(s.push(e).skip(1) =~= s.skip(1).push(e));
        lemma_disk_at_append(s.skip(1), e, k);
        if s[0].0@ == k {
            assert(disk_at(s.push(e), k) == Some(s[0].1@));
            assert(disk_at(s, k) == Some(s[0].1@));
        } else {
            assert(disk_at(s.push(e), k) == disk_at(s.skip(1).push(e), k));
            assert(disk_at(s, k) == disk_at(s.skip(1), k));
        }
    }
}

/// The same, phrased over the concrete extended sequence.
proof fn lemma_disk_at_append_entry(
    prev: Seq<(FsPath, Vec<u8>)>,
    cur: Seq<(FsPath, Vec<u8>)>,
    k: Seq<SegView>,
)
    requires
        cur.len() == prev.len() + 1,
        forall|j: int| 0 <= j < prev.len() ==> cur[j] == prev[j],
    ensures
        disk_at(cur, k) == (if disk_at(prev, k) is Some {
            disk_at(prev, k)
        } else if cur[prev.len() as int].0@ == k {
            Some(cur[prev.len() as int].1@)
        } else {
            None
        }),
{
    assert(cur =~= prev.push(cur[prev.len() as int]));
    lemma_disk_at_append(prev, cur[prev.len() as int], k);
}

/// The tree-removal analogue of the per-file filtering step.
proof fn lemma_disk_tree_snoc(
    prev: Seq<(FsPath, Vec<u8>)>,
    cur: Seq<(FsPath, Vec<u8>)>,
    orig: Seq<(FsPath, Vec<u8>)>,
    i: int,
    dir: Seq<SegView>,
    keep: bool,
)
    requires
        0 <= i < orig.len(),
        keep == !path_prefix(dir, orig[i].0@),
        keep ==> cur.len() == prev.len() + 1 && cur[prev.len() as int].0@ == orig[i].0@
            && cur[prev.len() as int].1@ == orig[i].1@ && (forall|j: int| 0 <= j < prev.len()
            ==> cur[j] == prev[j]),
        !keep ==> cur == prev,
        forall|k: Seq<SegView>| path_prefix(dir, k) ==> disk_at(prev, k) is None,
        forall|k: Seq<SegView>| !path_prefix(dir, k) ==> disk_at(prev, k) == disk_at(
            orig.subrange(0, i),
            k,
        ),
    ensures
        forall|k: Seq<SegView>| path_prefix(dir, k) ==> disk_at(cur, k) is None,
        forall|k: Seq<SegView>| !path_prefix(dir, k) ==> disk_at(cur, k) == disk_at(
            orig.subrange(0, i + 1),
            k,
        ),
{
    assert forall|k: Seq<SegView>| path_prefix(dir, k) implies disk_at(cur, k) is None by {
        if keep {
            lemma_disk_at_append_entry(prev, cur, k);
        }
    }
    assert forall|k: Seq<SegView>| !path_prefix(dir, k) implies disk_at(cur, k) == disk_at(
        orig.subrange(0, i + 1),
        k,
    ) by {
        lemma_disk_at_append(orig.subrange(0, i), orig[i], k);
        assert(orig.subrange(0, i + 1) =~= orig.subrange(0, i).push(orig[i]));
        if keep {
            lemma_disk_at_append_entry(prev, cur, k);
        }
    }
}

} // verus!
