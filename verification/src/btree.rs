use vstd::prelude::*;

use core::cmp::Ordering;

use crate::collator::{
    count_equal_keys, key_typed, keys_sorted, lemma_cmp_key_trans, lemma_count_equal_window,
    spec_cmp_key, views_of, Collator,
};
use crate::error::{bad_request, TCError};
use crate::value::Value;

verus! {

/// A range of keys: from `start` (inclusive) to `end` (exclusive), either
/// side open when empty.
pub struct BTreeRange {
    pub start: Option<Vec<Value>>,
    pub end: Option<Vec<Value>>,
}

impl BTreeRange {
    /// The unbounded range.
    pub fn all() -> (r: BTreeRange)
        ensures
            r.start is None,
            r.end is None,
    {
        BTreeRange { start: None, end: None }
    }
}

/// A selection over an ordered index: a range, walked forward or in
/// reverse.
pub struct Selector {
    pub range: BTreeRange,
    pub reverse: bool,
}

impl Selector {
    pub fn all() -> (r: Selector)
        ensures
            r.range.start is None,
            r.range.end is None,
            r.reverse == false,
    {
        Selector { range: BTreeRange::all(), reverse: false }
    }

    pub fn range(&self) -> (r: &BTreeRange)
    {
        &self.range
    }

    pub fn reverse(&self) -> (r: bool)
        ensures
            r == self.reverse,
    {
        self.reverse
    }
}

/// An ordered, persistent index of multi-column keys, kept sorted under
/// its collation. Duplicate keys are allowed and kept adjacent.
pub struct BTreeFile {
    collator: Collator,
    keys: Vec<Vec<Value>>,
}

impl BTreeFile {
    pub closed spec fn spec_collator(&self) -> Seq<crate::value::TCType> {
        self.collator@
    }

    pub closed spec fn spec_keys(&self) -> Seq<Seq<crate::value::ValueView>> {
        Seq::new(self.keys@.len(), |i: int| views_of(self.keys@[i]@))
    }

    pub closed spec fn wf(&self) -> bool {
        &&& keys_sorted(self.spec_collator(), self.spec_keys())
        &&& forall|i: int| 0 <= i < self.spec_keys().len() ==> key_typed(
            self.spec_collator(),
            #[trigger] self.spec_keys()[i],
        )
    }

    /// An empty index under the given collation.
    pub fn new(collator: Collator) -> (r: BTreeFile)
        ensures
            r.wf(),
            r.spec_collator() == collator@,
            r.spec_keys().len() == 0,
    {
        BTreeFile { collator, keys: Vec::new() }
    }

    /// The number of keys held.
    pub fn len(&self) -> (r: usize)
        ensures
            r == self.spec_keys().len(),
    {
        self.keys.len()
    }

    /// The key at one position of the sorted order.
    pub fn key_at(&self, i: usize) -> (r: &Vec<Value>)
        requires
            i < self.spec_keys().len(),
        ensures
            views_of(r@) == self.spec_keys()[i as int],
    {
        &self.keys[i]
    }

    /// Insert `key` at its sorted position, after any equal keys; the
    /// index stays sorted and grows by one. A key that does not fit the
    /// collation schema is rejected.
    pub fn insert(&mut self, key: Vec<Value>) -> (r: Result<(), TCError>)
        requires
            old(self).wf(),
        ensures
            final(self).wf(),
            final(self).spec_collator() == old(self).spec_collator(),
            r.is_ok() <==> key_typed(old(self).spec_collator(), views_of(key@)),
            r.is_err() ==> *final(self) == *old(self) && r->Err_0.spec_kind()
                == crate::error::ErrorKind::BadRequest,
            r.is_ok() ==> {
                &&& final(self).spec_keys().len() == old(self).spec_keys().len() + 1
                &&& exists|i: int| 0 <= i < final(self).spec_keys().len()
                    && final(self).spec_keys() == old(self).spec_keys().insert(
                    i,
                    #[trigger] views_of(key@),
                )
            },
    {
        if !self.key_fits(&key) {
            return Err(bad_request("the key does not fit the index schema".to_owned()));
        }
        let ghost oldkeys = self.spec_keys();
        proof {
            assert forall|j: int| 0 <= j < self.keys@.len() implies key_typed(
                self.collator@,
                views_of((#[trigger] self.keys@[j])@),
            ) by {
                assert(self.spec_keys()[j] == views_of(self.keys@[j]@));
            }
        }
        let i = self.collator.bisect(&self.keys, &key);
        let ghost kv = views_of(key@);
        self.keys.insert(i, key);
        proof {
            let cur = self.spec_keys();
            assert(cur.len() == oldkeys.len() + 1);
            assert forall|a: int| 0 <= a < cur.len() implies #[trigger] cur[a] == (if a < i {
                oldkeys[a]
            } else if a == i {
                kv
            } else {
                oldkeys[a - 1]
            }) by {
                if a < i {
                    assert(self.keys@[a] == old(self).keys@[a]);
                } else if a > i {
                    assert(self.keys@[a] == old(self).keys@[a - 1]);
                }
            }
            assert(cur =~= oldkeys.insert(i as int, kv));
            assert forall|a: int, b: int| 0 <= a < b < cur.len() implies spec_cmp_key(
                self.spec_collator(),
                #[trigger] cur[a],
                #[trigger] cur[b],
            ) <= 0 by {
                let col = self.spec_collator();
                if a < i && b < i {
                    assert(cur[a] == oldkeys[a] && cur[b] == oldkeys[b]);
                } else if a < i && b == i {
                    assert(cur[a] == oldkeys[a] && cur[b] == kv);
                    assert(spec_cmp_key(col, oldkeys[a], kv) <= 0);
                } else if a < i && b > i {
                    assert(cur[a] == oldkeys[a] && cur[b] == oldkeys[b - 1]);
                } else if a == i {
                    assert(cur[a] == kv && cur[b] == oldkeys[b - 1]);
                    assert(spec_cmp_key(col, oldkeys[b - 1], kv) > 0);
                    lemma_cmp_total(col, kv, oldkeys[b - 1]);
                } else {
                    assert(cur[a] == oldkeys[a - 1] && cur[b] == oldkeys[b - 1]);
                }
            }
            assert forall|a: int| 0 <= a < cur.len() implies key_typed(
                self.spec_collator(),
                #[trigger] cur[a],
            ) by {
                if a < i {
                    assert(cur[a] == oldkeys[a]);
                } else if a > i {
                    assert(cur[a] == oldkeys[a - 1]);
                }
            }
        }
        Ok(())
    }

    /// The number of keys of the index that compare equal to `key`.
    pub fn count_equal(&self, key: &Vec<Value>) -> (r: Result<usize, TCError>)
        requires
            self.wf(),
        ensures
            r.is_ok() <==> key_typed(self.spec_collator(), views_of(key@)),
            r matches Ok(n) ==> n == count_equal_keys(
                self.spec_collator(),
                self.spec_keys(),
                views_of(key@),
            ),
            r.is_err() ==> r->Err_0.spec_kind() == crate::error::ErrorKind::BadRequest,
    {
        if !self.key_fits(key) {
            return Err(bad_request("the key does not fit the index schema".to_owned()));
        }
        proof {
            assert forall|j: int| 0 <= j < self.keys@.len() implies key_typed(
                self.collator@,
                views_of((#[trigger] self.keys@[j])@),
            ) by {
                assert(self.spec_keys()[j] == views_of(self.keys@[j]@));
            }
        }
        let hi = self.collator.bisect(&self.keys, key);
        let lo = self.collator.bisect_left(&self.keys, key);
        proof {
            if hi < lo {
                assert(spec_cmp_key(
                    self.collator@,
                    views_of(self.keys@[hi as int]@),
                    views_of(key@),
                ) > 0);
                assert(spec_cmp_key(
                    self.collator@,
                    views_of(self.keys@[hi as int]@),
                    views_of(key@),
                ) < 0);
            }
            assert forall|i: int| lo <= i < hi implies spec_cmp_key(
                self.spec_collator(),
                #[trigger] self.spec_keys()[i],
                views_of(key@),
            ) == 0 by {
                assert(self.spec_keys()[i] == views_of(self.keys@[i]@));
            }
            assert forall|i: int| 0 <= i < lo implies spec_cmp_key(
                self.spec_collator(),
                #[trigger] self.spec_keys()[i],
                views_of(key@),
            ) < 0 by {
                assert(self.spec_keys()[i] == views_of(self.keys@[i]@));
            }
            assert forall|i: int| hi <= i < self.spec_keys().len() implies spec_cmp_key(
                self.spec_collator(),
                #[trigger] self.spec_keys()[i],
                views_of(key@),
            ) > 0 by {
                assert(self.spec_keys()[i] == views_of(self.keys@[i]@));
            }
            lemma_count_equal_window(
                self.spec_collator(),
                self.spec_keys(),
                views_of(key@),
                lo as int,
                hi as int,
            );
        }
        Ok(hi - lo)
    }

    /// The number of keys the range selects. A bound that does not fit
    /// the collation schema is rejected.
    pub fn range_len(&self, range: &BTreeRange) -> (r: Result<usize, TCError>)
        requires
            self.wf(),
        ensures
            r.is_ok() <==> range_typed(self.spec_collator(), *range),
            r matches Ok(n) ==> n == count_in_range(
                self.spec_collator(),
                self.spec_keys(),
                start_view(*range),
                end_view(*range),
            ),
            r.is_err() ==> r->Err_0.spec_kind() == crate::error::ErrorKind::BadRequest,
    {
        let (lo, hi) = match self.range_window(range) {
            Ok(w) => w,
            Err(e) => {
                return Err(e);
            },
        };
        if hi < lo {
            Ok(0)
        } else {
            Ok(hi - lo)
        }
    }

    /// Remove every key the range selects; the other keys keep their
    /// order. A bound that does not fit the collation schema is rejected,
    /// and a refusal changes nothing.
    pub fn delete_range(&mut self, range: &BTreeRange) -> (r: Result<usize, TCError>)
        requires
            old(self).wf(),
        ensures
            final(self).wf(),
            final(self).spec_collator() == old(self).spec_collator(),
            r.is_ok() <==> range_typed(old(self).spec_collator(), *range),
            r.is_err() ==> *final(self) == *old(self) && r->Err_0.spec_kind()
                == crate::error::ErrorKind::BadRequest,
            r matches Ok(n) ==> {
                let cb = count_below_start(
                    old(self).spec_collator(),
                    old(self).spec_keys(),
                    start_view(*range),
                );
                let cir = count_in_range(
                    old(self).spec_collator(),
                    old(self).spec_keys(),
                    start_view(*range),
                    end_view(*range),
                );
                &&& n == cir
                &&& final(self).spec_keys() == old(self).spec_keys().take(cb) + old(
                    self,
                ).spec_keys().skip(cb + cir)
            },
    {
        let (lo, hi) = match self.range_window(range) {
            Ok(w) => w,
            Err(e) => {
                return Err(e);
            },
        };
        if hi <= lo {
            proof {
                assert(self.spec_keys().take(lo as int) + self.spec_keys().skip(lo as int)
                    =~= self.spec_keys());
            }
            return Ok(0);
        }
        let ghost orig = self.spec_keys();
        let ghost origkeys = self.keys@;
        let count = hi - lo;
        let mut removed: usize = 0;
        while removed < count
            invariant
                lo + count == hi <= origkeys.len(),
                removed <= count,
                self.keys@ == origkeys.take(lo as int) + origkeys.skip(lo + removed),
                self.collator@ == old(self).spec_collator(),
                origkeys == old(self).keys@,
            decreases count - removed,
        {
            proof {
                assert(self.keys@.len() == origkeys.len() - removed);
                assert((origkeys.take(lo as int) + origkeys.skip(lo + removed)).remove(lo as int)
                    =~= origkeys.take(lo as int) + origkeys.skip(lo + removed + 1));
            }
            self.keys.remove(lo);
            removed = removed + 1;
        }
        proof {
            lemma_keys_view_split(origkeys, self.keys@, lo as int, hi as int);
            assert forall|a: int, b: int| 0 <= a < b < self.spec_keys().len() implies
                spec_cmp_key(
                self.spec_collator(),
                #[trigger] self.spec_keys()[a],
                #[trigger] self.spec_keys()[b],
            ) <= 0 by {
                let a2: int = if a < lo { a } else { a + count };
                let b2: int = if b < lo { b } else { b + count };
                assert(self.spec_keys()[a] == orig[a2]);
                assert(self.spec_keys()[b] == orig[b2]);
            }
            assert forall|a: int| 0 <= a < self.spec_keys().len() implies key_typed(
                self.spec_collator(),
                #[trigger] self.spec_keys()[a],
            ) by {
                let a2: int = if a < lo { a } else { a + count };
                assert(self.spec_keys()[a] == orig[a2]);
            }
        }
        Ok(count)
    }

    /// The keys the selection's range selects, in collation order, or in
    /// reverse when the selection walks backwards. A bound that does not
    /// fit the collation schema is rejected.
    pub fn slice_range(&self, selector: &Selector) -> (r: Result<Vec<Vec<Value>>, TCError>)
        requires
            self.wf(),
        ensures
            r.is_ok() <==> range_typed(self.spec_collator(), selector.range),
            r.is_err() ==> r->Err_0.spec_kind() == crate::error::ErrorKind::BadRequest,
            r matches Ok(out) ==> {
                let cb = count_below_start(
                    self.spec_collator(),
                    self.spec_keys(),
                    start_view(selector.range),
                );
                let cir = count_in_range(
                    self.spec_collator(),
                    self.spec_keys(),
                    start_view(selector.range),
                    end_view(selector.range),
                );
                &&& out@.len() == cir
                &&& forall|i: int| 0 <= i < out@.len() ==> views_of((#[trigger] out@[i])@)
                    == self.spec_keys()[cb + (if selector.reverse {
                    cir - 1 - i
                } else {
                    i
                })]
            },
    {
        let (lo, hi) = match self.range_window(&selector.range) {
            Ok(w) => w,
            Err(e) => {
                return Err(e);
            },
        };
        let mut out: Vec<Vec<Value>> = Vec::new();
        if hi <= lo {
            return Ok(out);
        }
        let count = hi - lo;
        for i in 0..count
            invariant
                lo + count == hi <= self.keys@.len(),
                self.wf(),
                out@.len() == i,
                forall|j: int| 0 <= j < i ==> views_of((#[trigger] out@[j])@)
                    == self.spec_keys()[lo + (if selector.reverse {
                    count - 1 - j
                } else {
                    j
                })],
        {
            let at = if selector.reverse {
                hi - 1 - i
            } else {
                lo + i
            };
            let key = clone_key(&self.keys[at]);
            proof {
                assert(views_of(key@) =~= self.spec_keys()[at as int]);
            }
            out.push(key);
        }
        Ok(out)
    }

    /// The window of the sorted order the range delimits: its partition
    /// points against the start and end bounds.
    fn range_window(&self, range: &BTreeRange) -> (r: Result<(usize, usize), TCError>)
        requires
            self.wf(),
        ensures
            r.is_ok() <==> range_typed(self.spec_collator(), *range),
            r.is_err() ==> r->Err_0.spec_kind() == crate::error::ErrorKind::BadRequest,
            r matches Ok(w) ==> {
                let cb = count_below_start(
                    self.spec_collator(),
                    self.spec_keys(),
                    start_view(*range),
                );
                let cir = count_in_range(
                    self.spec_collator(),
                    self.spec_keys(),
                    start_view(*range),
                    end_view(*range),
                );
                &&& w.0 == cb
                &&& w.0 <= self.spec_keys().len()
                &&& w.1 <= self.spec_keys().len()
                &&& (w.0 <= w.1 ==> w.1 == cb + cir)
                &&& (w.1 < w.0 ==> cir == 0)
                &&& forall|i: int| 0 <= i < self.spec_keys().len() ==> (range_selects(
                    self.spec_collator(),
                    start_view(*range),
                    end_view(*range),
                    #[trigger] self.spec_keys()[i],
                ) <==> (w.0 <= i < w.1))
            },
    {
        proof {
            assert forall|j: int| 0 <= j < self.keys@.len() implies key_typed(
                self.collator@,
                views_of((#[trigger] self.keys@[j])@),
            ) by {
                assert(self.spec_keys()[j] == views_of(self.keys@[j]@));
            }
        }
        let lo = match &range.start {
            Some(start) => {
                if !self.key_fits(start) {
                    return Err(bad_request(
                        "the range start does not fit the index schema".to_owned(),
                    ));
                }
                self.collator.bisect_left(&self.keys, start)
            },
            None => 0,
        };
        let hi = match &range.end {
            Some(end) => {
                if !self.key_fits(end) {
                    return Err(bad_request(
                        "the range end does not fit the index schema".to_owned(),
                    ));
                }
                self.collator.bisect_left(&self.keys, end)
            },
            None => self.keys.len(),
        };
        proof {
            let sv = start_view(*range);
            let ev = end_view(*range);
            assert forall|i: int| 0 <= i < self.spec_keys().len() implies (range_selects(
                self.spec_collator(),
                sv,
                ev,
                #[trigger] self.spec_keys()[i],
            ) <==> (lo <= i < hi)) by {
                assert(self.spec_keys()[i] == views_of(self.keys@[i]@));
            }
            match sv {
                Some(st) => {
                    assert forall|i: int| 0 <= i < self.spec_keys().len() implies (spec_cmp_key(
                        self.spec_collator(),
                        #[trigger] self.spec_keys()[i],
                        st,
                    ) < 0 <==> i < lo) by {
                        assert(self.spec_keys()[i] == views_of(self.keys@[i]@));
                    }
                    lemma_count_below_some(self.spec_collator(), self.spec_keys(), st, lo as int);
                },
                None => {
                    lemma_count_below_none(self.spec_collator(), self.spec_keys());
                },
            }
            lemma_count_range_window(
                self.spec_collator(),
                self.spec_keys(),
                sv,
                ev,
                lo as int,
                hi as int,
            );
        }
        Ok((lo, hi))
    }

    /// Whether every given bound of `range` fits the collation schema.
    fn range_fits(&self, range: &BTreeRange) -> (r: bool)
        ensures
            r == range_typed(self.spec_collator(), *range),
    {
        let start_ok = match &range.start {
            Some(s) => self.key_fits(s),
            None => true,
        };
        if !start_ok {
            return false;
        }
        match &range.end {
            Some(e) => self.key_fits(e),
            None => true,
        }
    }

    /// Whether `outer` contains `inner`, bound against bound.
    fn range_within(&self, outer: &BTreeRange, inner: &BTreeRange) -> (r: bool)
        requires
            range_typed(self.spec_collator(), *outer),
            range_typed(self.spec_collator(), *inner),
        ensures
            r == range_contains(self.spec_collator(), *outer, *inner),
    {
        let start_ok = match (&outer.start, &inner.start) {
            (None, _) => true,
            (Some(_), None) => false,
            (Some(o), Some(i)) => match self.collator.compare(i, o) {
                core::cmp::Ordering::Less => false,
                _ => true,
            },
        };
        if !start_ok {
            return false;
        }
        match (&outer.end, &inner.end) {
            (None, _) => true,
            (Some(_), None) => false,
            (Some(o), Some(i)) => match self.collator.compare(i, o) {
                core::cmp::Ordering::Greater => false,
                _ => true,
            },
        }
    }

    /// Whether `key` fits the collation schema.
    fn key_fits(&self, key: &Vec<Value>) -> (r: bool)
        ensures
            r == key_typed(self.spec_collator(), views_of(key@)),
    {
        let n = key.len();
        if n > self.collator.schema_len() {
            proof {
                assert(views_of(key@).len() == key@.len());
            }
            return false;
        }
        for i in 0..n
            invariant
                n == key@.len() <= self.spec_collator().len(),
                forall|j: int| 0 <= j < i ==> crate::collator::value_has_type(
                    #[trigger] views_of(key@)[j],
                    self.spec_collator()[j],
                ),
        {
            if !self.collator.column_accepts(i, &key[i]) {
                proof {
                    assert(views_of(key@)[i as int] == key@[i as int]@);
                    assert(!crate::collator::value_has_type(
                        views_of(key@)[i as int],
                        self.spec_collator()[i as int],
                    ));
                }
                return false;
            }
            proof {
                assert(views_of(key@)[i as int] == key@[i as int]@);
            }
        }
        proof {
            assert(views_of(key@).len() == key@.len());
        }
        true
    }
}

/// Whether the outer range contains the inner one: the inner start is at
/// or after the outer start, and the inner end at or before the outer
/// end; an unbounded inner side fits only an unbounded outer side.
pub open spec fn range_contains(
    schema: Seq<crate::value::TCType>,
    outer: BTreeRange,
    inner: BTreeRange,
) -> bool {
    &&& (match (start_view(outer), start_view(inner)) {
        (None, _) => true,
        (Some(_), None) => false,
        (Some(o), Some(i)) => spec_cmp_key(schema, i, o) >= 0,
    })
    &&& (match (end_view(outer), end_view(inner)) {
        (None, _) => true,
        (Some(_), None) => false,
        (Some(o), Some(i)) => spec_cmp_key(schema, i, o) <= 0,
    })
}

/// A copy of a range, bound for bound.
fn clone_range(r: &BTreeRange) -> (o: BTreeRange)
    ensures
        start_view(o) == start_view(*r),
        end_view(o) == end_view(*r),
        forall|schema: Seq<crate::value::TCType>| range_typed(schema, o) == range_typed(
            schema,
            *r,
        ),
{
    let start = match &r.start {
        Some(s) => Some(clone_key(s)),
        None => None,
    };
    let end = match &r.end {
        Some(e) => Some(clone_key(e)),
        None => None,
    };
    let o = BTreeRange { start, end };
    proof {
        match (&o.start, &r.start) {
            (Some(a), Some(b)) => {
                assert(views_of(a@) =~= views_of(b@));
            },
            _ => {},
        }
        match (&o.end, &r.end) {
            (Some(a), Some(b)) => {
                assert(views_of(a@) =~= views_of(b@));
            },
            _ => {},
        }
        assert forall|schema: Seq<crate::value::TCType>| range_typed(schema, o) == range_typed(
            schema,
            *r,
        ) by {}
    }
    o
}

/// Whether every given bound of the range fits the collation schema.
pub open spec fn range_typed(schema: Seq<crate::value::TCType>, range: BTreeRange) -> bool {
    &&& (match range.start {
        Some(s) => key_typed(schema, views_of(s@)),
        None => true,
    })
    &&& (match range.end {
        Some(e) => key_typed(schema, views_of(e@)),
        None => true,
    })
}

/// Splicing a window out of the key list splices the same window out of
/// its view.
proof fn lemma_keys_view_split(
    origkeys: Seq<Vec<Value>>,
    curkeys: Seq<Vec<Value>>,
    lo: int,
    hi: int,
)
    requires
        0 <= lo <= hi <= origkeys.len(),
        curkeys == origkeys.take(lo) + origkeys.skip(hi),
    ensures
        Seq::new(curkeys.len(), |i: int| views_of(curkeys[i]@)) == Seq::new(
            origkeys.len(),
            |i: int| views_of(origkeys[i]@),
        ).take(lo) + Seq::new(origkeys.len(), |i: int| views_of(origkeys[i]@)).skip(hi),
{
    let curv = Seq::new(curkeys.len(), |i: int| views_of(curkeys[i]@));
    let origv = Seq::new(origkeys.len(), |i: int| views_of(origkeys[i]@));
    assert forall|i: int| 0 <= i < curv.len() implies curv[i] == (origv.take(lo) + origv.skip(
        hi,
    ))[i] by {
        if i < lo {
            assert(curkeys[i] == origkeys[i]);
        } else {
            assert(curkeys[i] == origkeys[i + (hi - lo)]);
        }
    }
    assert(curv =~= origv.take(lo) + origv.skip(hi));
}

/// A copy of one key.
fn clone_key(key: &Vec<Value>) -> (r: Vec<Value>)
    ensures
        r@.len() == key@.len(),
        forall|i: int| 0 <= i < key@.len() ==> (#[trigger] r@[i])@ == key@[i]@,
{
    let n = key.len();
    let mut out: Vec<Value> = Vec::new();
    for i in 0..n
        invariant
            n == key@.len(),
            out@.len() == i,
            forall|j: int| 0 <= j < i ==> (#[trigger] out@[j])@ == key@[j]@,
    {
        out.push(key[i].clone());
    }
    out
}

/// With both orders known, an inverted comparison flips its sign.
proof fn lemma_cmp_total(
    schema: Seq<crate::value::TCType>,
    a: Seq<crate::value::ValueView>,
    b: Seq<crate::value::ValueView>,
)
    requires
        key_typed(schema, a),
        key_typed(schema, b),
        spec_cmp_key(schema, b, a) > 0,
    ensures
        spec_cmp_key(schema, a, b) <= 0,
{
    crate::collator::lemma_cmp_antisym(schema, a, b);
}

/// Whether `key` lies inside the range: at or after `start` and strictly
/// before `end`, either side unbounded when absent.
pub open spec fn range_selects(
    schema: Seq<crate::value::TCType>,
    start: Option<Seq<crate::value::ValueView>>,
    end: Option<Seq<crate::value::ValueView>>,
    key: Seq<crate::value::ValueView>,
) -> bool {
    &&& (match start {
        Some(s) => spec_cmp_key(schema, key, s) >= 0,
        None => true,
    })
    &&& (match end {
        Some(e) => spec_cmp_key(schema, key, e) < 0,
        None => true,
    })
}

/// The number of keys of `keys` the range selects.
pub open spec fn count_in_range(
    schema: Seq<crate::value::TCType>,
    keys: Seq<Seq<crate::value::ValueView>>,
    start: Option<Seq<crate::value::ValueView>>,
    end: Option<Seq<crate::value::ValueView>>,
) -> int
    decreases keys.len(),
{
    if keys.len() == 0 {
        0
    } else {
        count_in_range(schema, keys.drop_last(), start, end) + (if range_selects(
            schema,
            start,
            end,
            keys.last(),
        ) {
            1int
        } else {
            0int
        })
    }
}

/// The range's bounds as views, where they are given.
pub open spec fn start_view(r: BTreeRange) -> Option<Seq<crate::value::ValueView>> {
    match r.start {
        Some(s) => Some(views_of(s@)),
        None => None,
    }
}

pub open spec fn end_view(r: BTreeRange) -> Option<Seq<crate::value::ValueView>> {
    match r.end {
        Some(e) => Some(views_of(e@)),
        None => None,
    }
}

/// The number of keys ordered strictly before the range's start; with no
/// start bound, none are.
pub open spec fn count_below_start(
    schema: Seq<crate::value::TCType>,
    keys: Seq<Seq<crate::value::ValueView>>,
    start: Option<Seq<crate::value::ValueView>>,
) -> int
    decreases keys.len(),
{
    if keys.len() == 0 {
        0
    } else {
        count_below_start(schema, keys.drop_last(), start) + (match start {
            Some(st) => if spec_cmp_key(schema, keys.last(), st) < 0 {
                1int
            } else {
                0int
            },
            None => 0int,
        })
    }
}

/// With no start bound, no key is below it.
proof fn lemma_count_below_none(
    schema: Seq<crate::value::TCType>,
    keys: Seq<Seq<crate::value::ValueView>>,
)
    ensures
        count_below_start(schema, keys, None) == 0,
    decreases keys.len(),
{
    if keys.len() > 0 {
        lemma_count_below_none(schema, keys.drop_last());
    }
}

/// The keys before the start bound are exactly the prefix the partition
/// point delimits, so their count is that point.
proof fn lemma_count_below_some(
    schema: Seq<crate::value::TCType>,
    keys: Seq<Seq<crate::value::ValueView>>,
    st: Seq<crate::value::ValueView>,
    lo: int,
)
    requires
        0 <= lo <= keys.len(),
        forall|i: int| 0 <= i < keys.len() ==> (spec_cmp_key(schema, #[trigger] keys[i], st)
            < 0 <==> i < lo),
    ensures
        count_below_start(schema, keys, Some(st)) == lo,
    decreases keys.len(),
{
    if keys.len() > 0 {
        let last = keys.len() - 1;
        assert(forall|i: int| 0 <= i < keys.drop_last().len() ==> #[trigger] keys.drop_last()[i]
            == keys[i]);
        if last >= lo {
            lemma_count_below_some(schema, keys.drop_last(), st, lo);
        } else {
            lemma_count_below_some(schema, keys.drop_last(), st, lo - 1);
        }
    }
}

/// The keys the range selects sit in one window of the sorted order: the
/// count of selected keys is that window's width.
proof fn lemma_count_range_window(
    schema: Seq<crate::value::TCType>,
    keys: Seq<Seq<crate::value::ValueView>>,
    start: Option<Seq<crate::value::ValueView>>,
    end: Option<Seq<crate::value::ValueView>>,
    lo: int,
    hi: int,
)
    requires
        0 <= lo <= keys.len(),
        0 <= hi <= keys.len(),
        forall|i: int| 0 <= i < keys.len() ==> (range_selects(
            schema,
            start,
            end,
            #[trigger] keys[i],
        ) <==> (lo <= i < hi)),
    ensures
        count_in_range(schema, keys, start, end) == (if lo <= hi {
            hi - lo
        } else {
            0int
        }),
    decreases keys.len(),
{
    if keys.len() > 0 {
        let last = keys.len() - 1;
        assert(forall|i: int| 0 <= i < keys.drop_last().len() ==> #[trigger] keys.drop_last()[i]
            == keys[i]);
        if lo <= hi {
            if last >= hi {
                lemma_count_range_window(schema, keys.drop_last(), start, end, lo, hi);
            } else if last >= lo {
                lemma_count_range_window(schema, keys.drop_last(), start, end, lo, hi - 1);
            } else {
                lemma_count_range_window(schema, keys.drop_last(), start, end, lo - 1, hi - 1);
            }
        } else {
            let lo2: int = if lo > last {
                last
            } else {
                lo
            };
            let hi2: int = if hi > last {
                last
            } else {
                hi
            };
            lemma_count_range_window(schema, keys.drop_last(), start, end, lo2, hi2);
        }
    }
}

/// A read-only view of a bounded region of an index. Writes go to the
/// parent index, never to a slice.
pub struct BTreeSlice {
    source: BTreeFile,
    bounds: Selector,
}

impl BTreeSlice {
    /// The slice of `source` that `bounds` selects.
    pub fn new(source: BTreeFile, bounds: Selector) -> (r: BTreeSlice)
        ensures
            r.source_keys() == source.spec_keys(),
            r.spec_selector() == bounds,
    {
        BTreeSlice { source, bounds }
    }

    pub closed spec fn source_keys(&self) -> Seq<Seq<crate::value::ValueView>> {
        self.source.spec_keys()
    }

    pub closed spec fn spec_selector(&self) -> Selector {
        self.bounds
    }

    pub open spec fn spec_reverse(&self) -> bool {
        self.spec_selector().reverse
    }

    /// The selection this slice was made with: its range and direction.
    pub fn selector(&self) -> (r: &Selector)
        ensures
            *r == self.spec_selector(),
    {
        &self.bounds
    }

    /// The index this slice reads.
    pub fn source(&self) -> (r: &BTreeFile)
        ensures
            r.spec_keys() == self.source_keys(),
    {
        &self.source
    }

    /// The number of keys inside the slice's own range.
    pub fn len(&self) -> (r: Result<usize, TCError>)
        requires
            self.source_wf(),
        ensures
            r.is_ok() <==> range_typed(self.source_schema(), self.spec_selector().range),
            r matches Ok(n) ==> n == count_in_range(
                self.source_schema(),
                self.source_keys(),
                start_view(self.spec_selector().range),
                end_view(self.spec_selector().range),
            ),
            r.is_err() ==> r->Err_0.spec_kind() == crate::error::ErrorKind::BadRequest,
    {
        self.source.range_len(&self.bounds.range)
    }

    /// Whether the slice holds no keys.
    pub fn is_empty(&self) -> (r: Result<bool, TCError>)
        requires
            self.source_wf(),
        ensures
            r.is_ok() <==> range_typed(self.source_schema(), self.spec_selector().range),
            r matches Ok(b) ==> b == (count_in_range(
                self.source_schema(),
                self.source_keys(),
                start_view(self.spec_selector().range),
                end_view(self.spec_selector().range),
            ) == 0),
    {
        match self.source.range_len(&self.bounds.range) {
            Ok(n) => Ok(n == 0),
            Err(e) => Err(e),
        }
    }

    /// The keys of the slice, walked in its own direction.
    pub fn keys(&self) -> (r: Result<Vec<Vec<Value>>, TCError>)
        requires
            self.source_wf(),
        ensures
            r.is_ok() <==> range_typed(self.source_schema(), self.spec_selector().range),
            r matches Ok(out) ==> {
                let cb = count_below_start(
                    self.source_schema(),
                    self.source_keys(),
                    start_view(self.spec_selector().range),
                );
                let cir = count_in_range(
                    self.source_schema(),
                    self.source_keys(),
                    start_view(self.spec_selector().range),
                    end_view(self.spec_selector().range),
                );
                &&& out@.len() == cir
                &&& forall|i: int| 0 <= i < out@.len() ==> views_of((#[trigger] out@[i])@)
                    == self.source_keys()[cb + (if self.spec_selector().reverse {
                    cir - 1 - i
                } else {
                    i
                })]
            },
    {
        self.source.slice_range(&self.bounds)
    }

    /// The keys an inner selection names, as the original nesting rule
    /// demands: an unbounded inner range walks this slice's own range,
    /// with the walk direction flipped when both selections reverse; a
    /// bounded inner range must lie inside this slice's range, else it is
    /// refused.
    pub fn slice(&self, inner: &Selector) -> (r: Result<Vec<Vec<Value>>, TCError>)
        requires
            self.source_wf(),
        ensures
            r.is_err() ==> r->Err_0.spec_kind() == crate::error::ErrorKind::BadRequest,
            (inner.range.start is None && inner.range.end is None) ==> {
                &&& (r.is_ok() <==> range_typed(self.source_schema(), self.spec_selector().range))
                &&& (r matches Ok(out) ==> {
                    let cb = count_below_start(
                        self.source_schema(),
                        self.source_keys(),
                        start_view(self.spec_selector().range),
                    );
                    let cir = count_in_range(
                        self.source_schema(),
                        self.source_keys(),
                        start_view(self.spec_selector().range),
                        end_view(self.spec_selector().range),
                    );
                    &&& out@.len() == cir
                    &&& forall|i: int| 0 <= i < out@.len() ==> views_of((#[trigger] out@[i])@)
                        == self.source_keys()[cb + (if self.spec_selector().reverse
                        != inner.reverse {
                        cir - 1 - i
                    } else {
                        i
                    })]
                })
            },
            !(inner.range.start is None && inner.range.end is None) ==> {
                &&& (r.is_ok() <==> (range_typed(self.source_schema(), self.spec_selector().range)
                    && range_typed(self.source_schema(), inner.range) && range_contains(
                    self.source_schema(),
                    self.spec_selector().range,
                    inner.range,
                )))
                &&& (r matches Ok(out) ==> {
                    let cb = count_below_start(
                        self.source_schema(),
                        self.source_keys(),
                        start_view(inner.range),
                    );
                    let cir = count_in_range(
                        self.source_schema(),
                        self.source_keys(),
                        start_view(inner.range),
                        end_view(inner.range),
                    );
                    &&& out@.len() == cir
                    &&& forall|i: int| 0 <= i < out@.len() ==> views_of((#[trigger] out@[i])@)
                        == self.source_keys()[cb + (if inner.reverse {
                        cir - 1 - i
                    } else {
                        i
                    })]
                })
            },
    {
        let inner_unbounded = inner.range.start.is_none() && inner.range.end.is_none();
        if inner_unbounded {
            let sel = Selector {
                range: clone_range(&self.bounds.range),
                reverse: self.bounds.reverse != inner.reverse,
            };
            return self.source.slice_range(&sel);
        }
        if !self.source.range_fits(&self.bounds.range) || !self.source.range_fits(&inner.range) {
            return Err(bad_request("a range bound does not fit the index schema".to_owned()));
        }
        if !self.source.range_within(&self.bounds.range, &inner.range) {
            return Err(bad_request(
                "the requested range lies outside this slice's own range".to_owned(),
            ));
        }
        self.source.slice_range(inner)
    }

    /// The schema the source index collates under.
    pub closed spec fn source_schema(&self) -> Seq<crate::value::TCType> {
        self.source.spec_collator()
    }

    pub closed spec fn source_wf(&self) -> bool {
        self.source.wf()
    }
}

} // verus!
