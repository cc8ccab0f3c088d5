use vstd::prelude::*;

use crate::error::{internal, TCError};
use crate::fs::{FsPath, PathSegment, SegView};

verus! {

/// A totally ordered transaction identifier: a timestamp in nanoseconds
/// since the Unix epoch, with a nonce to break ties.
#[derive(Clone, Copy, Debug, PartialEq, Eq, Hash, PartialOrd, Ord, Structural)]
pub struct TransactionId {
    pub timestamp: u128,
    pub nonce: u16,
}

impl TransactionId {
    /// The order of identifiers: by timestamp, then by nonce.
    pub open spec fn le_spec(self, other: TransactionId) -> bool {
        self.timestamp < other.timestamp || (self.timestamp == other.timestamp && self.nonce
            <= other.nonce)
    }

    pub open spec fn lt_spec(self, other: TransactionId) -> bool {
        self.le_spec(other) && self != other
    }

    pub fn new(timestamp: u128, nonce: u16) -> (r: TransactionId)
        ensures
            r.timestamp == timestamp,
            r.nonce == nonce,
    {
        TransactionId { timestamp, nonce }
    }

    /// Whether this identifier orders at or before `other`.
    pub fn le(&self, other: &TransactionId) -> (r: bool)
        ensures
            r == self.le_spec(*other),
    {
        self.timestamp < other.timestamp || (self.timestamp == other.timestamp && self.nonce
            <= other.nonce)
    }

    /// Whether this identifier orders strictly before `other`.
    pub fn lt(&self, other: &TransactionId) -> (r: bool)
        ensures
            r == self.lt_spec(*other),
    {
        self.timestamp < other.timestamp || (self.timestamp == other.timestamp && self.nonce
            < other.nonce)
    }

    /// A fresh identifier for the given clock reading, with a random nonce
    /// to break ties between coordinators.
    pub fn fresh(timestamp: u128) -> (r: TransactionId)
        ensures
            r.timestamp == timestamp,
    {
        let nonce: u16 = rand::random();
        TransactionId { timestamp, nonce }
    }

    /// The eighteen-byte big-endian form: sixteen bytes of timestamp, two of
    /// nonce.
    pub fn to_bytes(&self) -> (r: Vec<u8>)
        ensures
            r@ == be_bytes(self.timestamp as int, 16).add(be_bytes(self.nonce as int, 2)),
    {
        let mut out = u128_to_be_bytes(self.timestamp);
        let hi = (self.nonce / 256) as u8;
        let lo = (self.nonce % 256) as u8;
        out.push(hi);
        out.push(lo);
        proof {
            assert(be_bytes(self.nonce as int, 2) =~= seq![hi, lo]) by {
                assert(be_bytes(self.nonce as int, 2) == be_bytes(self.nonce as int / 256, 1)
                    .push((self.nonce as int % 256) as u8));
                assert(be_bytes(self.nonce as int / 256, 1) == be_bytes(
                    self.nonce as int / 256 / 256,
                    0,
                ).push((self.nonce as int / 256 % 256) as u8));
                assert(self.nonce as int / 256 % 256 == self.nonce as int / 256);
            }
            assert(out@ =~= be_bytes(self.timestamp as int, 16).add(
                be_bytes(self.nonce as int, 2),
            ));
        }
        out
    }

    /// The identifier encoded in an eighteen-byte big-endian form.
    pub fn from_bytes(b: &Vec<u8>) -> (r: Option<TransactionId>)
        ensures
            r.is_some() <==> b@.len() == 18,
            b@.len() == 18 ==> {
                &&& r->0.timestamp == from_be(b@.subrange(0, 16))
                &&& r->0.nonce == from_be(b@.subrange(16, 18))
            },
    {
        if b.len() != 18 {
            return None;
        }
        let mut ts: u128 = 0;
        for i in 0..16
            invariant
                b@.len() == 18,
                ts == from_be(b@.subrange(0, i as int)),
                ts < pow256(i as nat),
            decreases 16 - i,
        {
            proof {
                lemma_pow256_bound(i as nat + 1);
                assert(pow256(i as nat + 1) == 256 * pow256(i as nat));
                assert(b@.subrange(0, i as int + 1).drop_last() =~= b@.subrange(0, i as int));
                assert(b@.subrange(0, i as int + 1).last() == b@[i as int]);
            }
            ts = ts * 256 + (b[i] as u128);
        }
        let nonce: u16 = (b[16] as u16) * 256 + (b[17] as u16);
        proof {
            assert(b@.subrange(0, 16) =~= b@.subrange(0, 16));
            assert(b@.subrange(16, 18).drop_last() =~= b@.subrange(16, 17));
            assert(b@.subrange(16, 17).drop_last() =~= b@.subrange(16, 16));
            assert(b@.subrange(16, 16) =~= Seq::<u8>::empty());
            assert(b@.subrange(16, 17).last() == b@[16]);
            assert(b@.subrange(16, 18).last() == b@[17]);
            assert(from_be(b@.subrange(16, 16)) == 0);
            assert(from_be(b@.subrange(16, 17)) == b@[16]);
            assert(from_be(b@.subrange(16, 18)) == b@[16] * 256 + b@[17]);
        }
        Some(TransactionId { timestamp: ts, nonce })
    }
}


/// The coordinator's record of one transaction: its id, its context
/// directory under the working store, the resources it has dirtied in
/// acquisition order, and whether a failed commit has poisoned it.
pub struct Transaction {
    id: TransactionId,
    context: FsPath,
    mutated: Vec<String>,
    failed: bool,
}

impl Transaction {
    pub closed spec fn spec_id(&self) -> TransactionId {
        self.id
    }

    pub closed spec fn spec_context(&self) -> Seq<SegView> {
        self.context@
    }

    /// The dirtied resources, in the order they were first touched.
    pub closed spec fn spec_mutated(&self) -> Seq<String> {
        self.mutated@
    }

    pub closed spec fn spec_failed(&self) -> bool {
        self.failed
    }

    /// A transaction with the given id, whose context directory is the
    /// id's own directory under `root`.
    pub fn new(id: TransactionId, root: &FsPath) -> (r: Transaction)
        ensures
            r.spec_id() == id,
            r.spec_context() == root@.push(SegView::Version(id)),
            r.spec_mutated().len() == 0,
            !r.spec_failed(),
    {
        let context = root.join(PathSegment::Version(id));
        Transaction { id, context, mutated: Vec::new(), failed: false }
    }

    pub fn id(&self) -> (r: &TransactionId)
        ensures
            *r == self.spec_id(),
    {
        &self.id
    }

    pub fn context(&self) -> (r: &FsPath)
        ensures
            r@ == self.spec_context(),
    {
        &self.context
    }

    /// Record that the resource `name` was dirtied; a resource is tracked
    /// once, at the position of its first write. A failed transaction
    /// refuses every further call with `Internal` until finalize.
    pub fn mutate(&mut self, name: String) -> (r: Result<(), TCError>)
        ensures
            final(self).spec_id() == old(self).spec_id(),
            final(self).spec_context() == old(self).spec_context(),
            final(self).spec_failed() == old(self).spec_failed(),
            r.is_ok() <==> !old(self).spec_failed(),
            r.is_err() ==> final(self).spec_mutated() == old(self).spec_mutated()
                && r->Err_0.spec_kind() == crate::error::ErrorKind::Internal,
            r.is_ok() && (exists|i: int| 0 <= i < old(self).spec_mutated().len() && (
            #[trigger] old(self).spec_mutated()[i])@ == name@) ==> final(self).spec_mutated()
                == old(self).spec_mutated(),
            r.is_ok() && !(exists|i: int| 0 <= i < old(self).spec_mutated().len() && (
            #[trigger] old(self).spec_mutated()[i])@ == name@) ==> final(self).spec_mutated()
                == old(self).spec_mutated().push(name),
    {
        if self.failed {
            return Err(internal("the transaction failed to commit and awaits finalize".to_owned(),
            ));
        }
        let n = self.mutated.len();
        for i in 0..n
            invariant
                n == self.mutated@.len(),
                *self == *old(self),
                !old(self).spec_failed(),
                forall|j: int| 0 <= j < i ==> (#[trigger] self.mutated@[j])@ != name@,
        {
            if self.mutated[i] == name {
                return Ok(());
            }
        }
        self.mutated.push(name);
        Ok(())
    }

    /// The resources to commit, in deterministic order: the order they
    /// were first dirtied, which is the order their locks were taken.
    pub fn commit_order(&self) -> (r: &Vec<String>)
        ensures
            r@ == self.spec_mutated(),
    {
        &self.mutated
    }

    /// Record that a commit step failed: every further call on this
    /// transaction is refused until finalize.
    pub fn mark_failed(&mut self)
        ensures
            final(self).spec_id() == old(self).spec_id(),
            final(self).spec_context() == old(self).spec_context(),
            final(self).spec_mutated() == old(self).spec_mutated(),
            final(self).spec_failed(),
    {
        self.failed = true;
    }

    /// The error every call after a failed commit returns.
    pub fn check_failed(&self) -> (r: Result<(), TCError>)
        ensures
            r.is_ok() <==> !self.spec_failed(),
            r.is_err() ==> r->Err_0.spec_kind() == crate::error::ErrorKind::Internal,
    {
        if self.failed {
            Err(internal("the transaction failed to commit and awaits finalize".to_owned()))
        } else {
            Ok(())
        }
    }

    /// Forget the mutated set once finalize has run; idempotent.
    pub fn finalized(&mut self)
        ensures
            final(self).spec_id() == old(self).spec_id(),
            final(self).spec_context() == old(self).spec_context(),
            final(self).spec_mutated().len() == 0,
            !final(self).spec_failed(),
    {
        self.mutated = Vec::new();
        self.failed = false;
    }
}

/// Relies on `rand::random`: draws the nonce of a fresh transaction id;
/// nothing is promised of the value drawn.
pub assume_specification<T>[ rand::random::<T> ]() -> (r: T)
    where
        rand::distributions::Standard: rand::distributions::Distribution<T>,
;

/// `n` big-endian base-256 digits of `x`, most significant first.
pub open spec fn be_bytes(x: int, n: nat) -> Seq<u8>
    decreases n,
{
    if n == 0 {
        Seq::empty()
    } else {
        be_bytes(x / 256, (n - 1) as nat).push((x % 256) as u8)
    }
}

/// The value big-endian base-256 digits denote.
pub open spec fn from_be(s: Seq<u8>) -> int
    decreases s.len(),
{
    if s.len() == 0 {
        0
    } else {
        from_be(s.drop_last()) * 256 + s.last()
    }
}

/// 256 to the power `n`.
pub open spec fn pow256(n: nat) -> int
    decreases n,
{
    if n == 0 {
        1
    } else {
        256 * pow256((n - 1) as nat)
    }
}

proof fn lemma_pow256_bound(n: nat)
    requires
        n <= 16,
    ensures
        pow256(n) <= pow256(16),
        pow256(16) == 0x100000000000000000000000000000000,
    decreases 16 - n,
{
    assert(pow256(0) == 1);
    assert(pow256(1) == 0x100);
    assert(pow256(2) == 0x10000);
    assert(pow256(3) == 0x1000000);
    assert(pow256(4) == 0x100000000);
    assert(pow256(5) == 0x10000000000);
    assert(pow256(6) == 0x1000000000000);
    assert(pow256(7) == 0x100000000000000);
    assert(pow256(8) == 0x10000000000000000);
    assert(pow256(9) == 0x1000000000000000000);
    assert(pow256(10) == 0x100000000000000000000);
    assert(pow256(11) == 0x10000000000000000000000);
    assert(pow256(12) == 0x1000000000000000000000000);
    assert(pow256(13) == 0x100000000000000000000000000);
    assert(pow256(14) == 0x10000000000000000000000000000);
    assert(pow256(15) == 0x1000000000000000000000000000000);
    assert(pow256(16) == 0x100000000000000000000000000000000);
    if n < 16 {
        lemma_pow256_bound(n + 1);
        lemma_pow256_pos(n);
        assert(pow256(n + 1) == 256 * pow256(n));
    }
}

proof fn lemma_pow256_pos(n: nat)
    ensures
        pow256(n) >= 1,
    decreases n,
{
    if n > 0 {
        lemma_pow256_pos((n - 1) as nat);
    }
}

/// Decoding the big-endian digits of `x` gives back `x` modulo the digit
/// range: the eighteen-byte form of a transaction id decodes to the id.
pub proof fn lemma_be_roundtrip(x: int, n: nat)
    requires
        0 <= x < pow256(n),
    ensures
        from_be(be_bytes(x, n)) == x,
    decreases n,
{
    if n == 0 {
    } else {
        lemma_pow256_pos((n - 1) as nat);
        assert(x / 256 < pow256((n - 1) as nat)) by {
            assert(x < 256 * pow256((n - 1) as nat));
            assert(x / 256 < pow256((n - 1) as nat)) by (nonlinear_arith)
                requires
                    x >= 0,
                    pow256((n - 1) as nat) >= 1,
                    x < 256 * pow256((n - 1) as nat),
            ;
        }
        lemma_be_roundtrip(x / 256, (n - 1) as nat);
        let s = be_bytes(x, n);
        assert(s.drop_last() =~= be_bytes(x / 256, (n - 1) as nat));
        assert(s.last() == (x % 256) as u8);
        assert(from_be(s) == (x / 256) * 256 + x % 256);
    }
}

/// Sixteen big-endian bytes of a `u128`.
fn u128_to_be_bytes(x: u128) -> (r: Vec<u8>)
    ensures
        r@ == be_bytes(x as int, 16),
{
    let mut digits: Vec<u8> = Vec::new();
    let mut v: u128 = x;
    let ghost mut divs: int = 1;
    for k in 0..16
        invariant
            digits@.len() == k,
            divs == pow256(k as nat),
            divs >= 1,
            v == x as int / divs,
            forall|i: int| 0 <= i < k ==> digits@[i] == (x as int / pow256(i as nat) % 256) as u8,
        decreases 16 - k,
    {
        digits.push((v % 256) as u8);
        proof {
            lemma_pow256_pos(k as nat);
            vstd::arithmetic::div_mod::lemma_div_denominator(x as int, divs, 256);
            divs = divs * 256;
        }
        v = v / 256;
    }
    let mut out: Vec<u8> = Vec::new();
    let mut k: usize = 16;
    while k > 0
        invariant
            k <= 16,
            digits@.len() == 16,
            out@.len() == 16 - k,
            forall|i: int| 0 <= i < k ==> digits@[i] == (x as int / pow256(i as nat) % 256) as u8,
            forall|i: int| 0 <= i < out@.len() ==> out@[i] == (x as int / pow256(
                (15 - i) as nat,
            ) % 256) as u8,
        decreases k,
    {
        k = k - 1;
        out.push(digits[k]);
    }
    proof {
        lemma_be_bytes_digits(x as int, 16);
        assert(out@ =~= be_bytes(x as int, 16));
    }
    out
}

/// The digit at position `i` of the big-endian form of `x`.
proof fn lemma_be_bytes_digits(x: int, n: nat)
    requires
        x >= 0,
    ensures
        be_bytes(x, n).len() == n,
        forall|i: int| 0 <= i < n ==> be_bytes(x, n)[i] == (x / pow256(
            (n - 1 - i) as nat,
        ) % 256) as u8,
    decreases n,
{
    if n > 0 {
        lemma_be_bytes_digits(x / 256, (n - 1) as nat);
        let s = be_bytes(x, n);
        assert forall|i: int| 0 <= i < n implies s[i] == (x / pow256((n - 1 - i) as nat)
            % 256) as u8 by {
            if i < n - 1 {
                assert(s[i] == be_bytes(x / 256, (n - 1) as nat)[i]);
                lemma_pow256_pos((n - 2 - i) as nat);
                vstd::arithmetic::div_mod::lemma_div_denominator(
                    x,
                    256,
                    pow256((n - 2 - i) as nat),
                );
                assert(x / 256 / pow256((n - 2 - i) as nat) == x / (256 * pow256(
                    (n - 2 - i) as nat,
                )));
                assert(256 * pow256((n - 2 - i) as nat) == pow256((n - 1 - i) as nat));
            } else {
                assert(s[i] == (x % 256) as u8);
                assert(pow256(0) == 1);
                assert(x / 1 == x);
            }
        }
    }
}

} // verus!
