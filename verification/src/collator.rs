use vstd::prelude::*;

use core::cmp::Ordering;

use crate::error::{bad_request, TCError};
use crate::number::{Int, Number, UInt};
use crate::value::{TCType, Value, ValueView};

verus! {

/// Whether a column of type `t` can be collated: ordered integers and
/// strings.
pub open spec fn spec_supports(t: TCType) -> bool {
    match t {
        TCType::Number(crate::number::NumberType::Int(crate::number::IntType::I32)) => true,
        TCType::Number(crate::number::NumberType::UInt(crate::number::UIntType::U64)) => true,
        TCType::TCString => true,
        _ => false,
    }
}

/// Whether `v` is a value of the collatable column type `t`.
pub open spec fn value_has_type(v: ValueView, t: TCType) -> bool {
    match t {
        TCType::Number(crate::number::NumberType::Int(crate::number::IntType::I32)) =>
            v matches ValueView::Number(Number::Int(Int::I32(_))),
        TCType::Number(crate::number::NumberType::UInt(crate::number::UIntType::U64)) =>
            v matches ValueView::Number(Number::UInt(UInt::U64(_))),
        TCType::TCString => v matches ValueView::TCString(_),
        _ => false,
    }
}

/// The views of a sequence of values.
pub open spec fn views_of(s: Seq<Value>) -> Seq<ValueView> {
    Seq::new(s.len(), |i: int| s[i]@)
}

/// Whether every entry of `key` has the type its column prescribes.
pub open spec fn key_typed(schema: Seq<TCType>, key: Seq<ValueView>) -> bool {
    &&& key.len() <= schema.len()
    &&& forall|i: int| 0 <= i < key.len() ==> value_has_type(#[trigger] key[i], schema[i])
}

/// Lexicographic order on byte sequences: negative, zero or positive as the
/// first differs, with a proper prefix ordered first.
pub open spec fn lex_cmp_bytes(a: Seq<u8>, b: Seq<u8>) -> int
    decreases a.len(),
{
    if a.len() == 0 && b.len() == 0 {
        0
    } else if a.len() == 0 {
        -1
    } else if b.len() == 0 {
        1
    } else if a[0] < b[0] {
        -1
    } else if a[0] > b[0] {
        1
    } else {
        lex_cmp_bytes(a.skip(1), b.skip(1))
    }
}

/// The typed order of two values of column type `t`: negative, zero or
/// positive. Strings order by their UTF-8 bytes.
pub open spec fn spec_cmp_value(t: TCType, a: ValueView, b: ValueView) -> int {
    match (a, b) {
        (
            ValueView::Number(Number::Int(Int::I32(x))),
            ValueView::Number(Number::Int(Int::I32(y))),
        ) => if x < y {
            -1
        } else if x > y {
            1
        } else {
            0
        },
        (
            ValueView::Number(Number::UInt(UInt::U64(x))),
            ValueView::Number(Number::UInt(UInt::U64(y))),
        ) => if x < y {
            -1
        } else if x > y {
            1
        } else {
            0
        },
        (ValueView::TCString(x), ValueView::TCString(y)) => lex_cmp_bytes(
            vstd::utf8::encode_utf8(x),
            vstd::utf8::encode_utf8(y),
        ),
        _ => 0,
    }
}

/// The order of two multi-column keys: column by column, with a tie on one
/// column settled by the next, and a shorter key that is a prefix of a
/// longer one ordered first.
pub open spec fn spec_cmp_key(schema: Seq<TCType>, k1: Seq<ValueView>, k2: Seq<ValueView>) -> int
    decreases k1.len() + k2.len(),
{
    if k1.len() == 0 && k2.len() == 0 {
        0
    } else if k1.len() == 0 {
        -1
    } else if k2.len() == 0 {
        1
    } else {
        let c = spec_cmp_value(schema[0], k1[0], k2[0]);
        if c != 0 {
            c
        } else {
            spec_cmp_key(schema.skip(1), k1.skip(1), k2.skip(1))
        }
    }
}

/// The integer sign a comparison result stands for.
pub open spec fn ord_sign(o: Ordering) -> int {
    match o {
        Ordering::Less => -1,
        Ordering::Equal => 0,
        Ordering::Greater => 1,
    }
}

/// The number of keys in `keys` that compare equal to `key`.
pub open spec fn count_equal_keys(
    schema: Seq<TCType>,
    keys: Seq<Seq<ValueView>>,
    key: Seq<ValueView>,
) -> int
    decreases keys.len(),
{
    if keys.len() == 0 {
        0
    } else {
        count_equal_keys(schema, keys.drop_last(), key) + (if spec_cmp_key(
            schema,
            keys.last(),
            key,
        ) == 0 {
            1int
        } else {
            0int
        })
    }
}

/// In a sorted list, the keys equal to a probe are exactly the window the
/// two partition points delimit, so the equal count is the window's width.
pub proof fn lemma_count_equal_window(
    schema: Seq<TCType>,
    keys: Seq<Seq<ValueView>>,
    key: Seq<ValueView>,
    lo: int,
    hi: int,
)
    requires
        0 <= lo <= hi <= keys.len(),
        forall|i: int| 0 <= i < lo ==> spec_cmp_key(schema, #[trigger] keys[i], key) < 0,
        forall|i: int| lo <= i < hi ==> spec_cmp_key(schema, #[trigger] keys[i], key) == 0,
        forall|i: int| hi <= i < keys.len() ==> spec_cmp_key(schema, #[trigger] keys[i], key)
            > 0,
    ensures
        count_equal_keys(schema, keys, key) == hi - lo,
    decreases keys.len(),
{
    if keys.len() > 0 {
        let last = keys.len() - 1;
        assert(forall|i: int| 0 <= i < keys.drop_last().len() ==> #[trigger] keys.drop_last()[i]
            == keys[i]);
        if last >= hi {
            lemma_count_equal_window(schema, keys.drop_last(), key, lo, hi);
        } else if last >= lo {
            lemma_count_equal_window(schema, keys.drop_last(), key, lo, hi - 1);
        } else {
            lemma_count_equal_window(schema, keys.drop_last(), key, lo - 1, hi - 1);
        }
    }
}

/// Whether `keys` is sorted under the collation of `schema`.
pub open spec fn keys_sorted(schema: Seq<TCType>, keys: Seq<Seq<ValueView>>) -> bool {
    forall|i: int, j: int| 0 <= i < j < keys.len() ==>
        spec_cmp_key(schema, #[trigger] keys[i], #[trigger] keys[j]) <= 0
}

/// A typed, multi-column key comparator for ordered indices.
pub struct Collator {
    schema: Vec<TCType>,
}

impl View for Collator {
    type V = Seq<TCType>;

    closed spec fn view(&self) -> Seq<TCType> {
        self.schema@
    }
}

impl Collator {
    /// Keep a schema whose every column can be collated; rejected otherwise.
    pub fn new(schema: Vec<TCType>) -> (r: Result<Collator, TCError>)
        ensures
            r.is_ok() <==> (forall|i: int| 0 <= i < schema@.len() ==> spec_supports(
                #[trigger] schema@[i],
            )),
            r.is_ok() ==> r->Ok_0@ == schema@,
            r.is_err() ==> r->Err_0.spec_kind() == crate::error::ErrorKind::BadRequest,
    {
        let n = schema.len();
        for i in 0..n
            invariant
                n == schema@.len(),
                forall|j: int| 0 <= j < i ==> spec_supports(#[trigger] schema@[j]),
        {
            if !Collator::supports(&schema[i]) {
                return Err(bad_request("collation is not supported for this type".to_owned()));
            }
        }
        Ok(Collator { schema })
    }

    /// The number of columns of the schema.
    pub fn schema_len(&self) -> (r: usize)
        ensures
            r == self@.len(),
    {
        self.schema.len()
    }

    /// Whether `v` is a value of column `i` of the schema.
    pub fn column_accepts(&self, i: usize, v: &Value) -> (r: bool)
        requires
            i < self@.len(),
        ensures
            r == value_has_type(v@, self@[i as int]),
    {
        match (&self.schema[i], v) {
            (
                TCType::Number(crate::number::NumberType::Int(crate::number::IntType::I32)),
                Value::Number(Number::Int(Int::I32(_))),
            ) => true,
            (
                TCType::Number(crate::number::NumberType::UInt(crate::number::UIntType::U64)),
                Value::Number(Number::UInt(UInt::U64(_))),
            ) => true,
            (TCType::TCString, Value::TCString(_)) => true,
            _ => false,
        }
    }

    /// Whether one column type can be collated.
    pub fn supports(dtype: &TCType) -> (r: bool)
        ensures
            r == spec_supports(*dtype),
    {
        match dtype {
            TCType::Number(crate::number::NumberType::Int(crate::number::IntType::I32)) => true,
            TCType::Number(crate::number::NumberType::UInt(crate::number::UIntType::U64)) => true,
            TCType::TCString => true,
            _ => false,
        }
    }

    /// Compare two keys column by column under the schema's typed order.
    pub fn compare(&self, key1: &Vec<Value>, key2: &Vec<Value>) -> (r: Ordering)
        requires
            key_typed(self@, views_of(key1@)),
            key_typed(self@, views_of(key2@)),
        ensures
            ord_sign(r) == spec_cmp_key(self@, views_of(key1@), views_of(key2@)),
    {
        let n1 = key1.len();
        let n2 = key2.len();
        let min = if n1 < n2 {
            n1
        } else {
            n2
        };
        proof {
            assert(self@.skip(0) =~= self@);
            assert(views_of(key1@).skip(0) =~= views_of(key1@));
            assert(views_of(key2@).skip(0) =~= views_of(key2@));
        }
        for i in 0..min
            invariant
                n1 == key1@.len(),
                n2 == key2@.len(),
                min == (if n1 < n2 { n1 as int } else { n2 as int }),
                key_typed(self@, views_of(key1@)),
                key_typed(self@, views_of(key2@)),
                forall|j: int| 0 <= j < i ==> spec_cmp_value(
                    self@[j],
                    #[trigger] views_of(key1@)[j],
                    views_of(key2@)[j],
                ) == 0,
                spec_cmp_key(self@, views_of(key1@), views_of(key2@)) == spec_cmp_key(
                    self@.skip(i as int),
                    views_of(key1@).skip(i as int),
                    views_of(key2@).skip(i as int),
                ),
        {
            let c = compare_column(&self.schema[i], &key1[i], &key2[i]);
            proof {
                lemma_cmp_key_unfold(
                    self@.skip(i as int),
                    views_of(key1@).skip(i as int),
                    views_of(key2@).skip(i as int),
                );
                assert(self@.skip(i as int).skip(1) =~= self@.skip(i as int + 1));
                assert(views_of(key1@).skip(i as int).skip(1) =~= views_of(key1@).skip(
                    i as int + 1,
                ));
                assert(views_of(key2@).skip(i as int).skip(1) =~= views_of(key2@).skip(
                    i as int + 1,
                ));
            }
            match c {
                Ordering::Equal => {},
                other => {
                    return other;
                },
            }
        }
        proof {
            lemma_cmp_key_unfold(
                self@.skip(min as int),
                views_of(key1@).skip(min as int),
                views_of(key2@).skip(min as int),
            );
        }
        if n1 < n2 {
            Ordering::Less
        } else if n1 > n2 {
            Ordering::Greater
        } else {
            Ordering::Equal
        }
    }

    /// The first position after every key less than or equal to `key`:
    /// keys before it compare at most equal, keys from it on compare
    /// greater.
    pub fn bisect(&self, keys: &Vec<Vec<Value>>, key: &Vec<Value>) -> (r: usize)
        requires
            forall|i: int| 0 <= i < keys@.len() ==> key_typed(
                self@,
                views_of(#[trigger] keys@[i]@),
            ),
            key_typed(self@, views_of(key@)),
            keys_sorted(self@, Seq::new(keys@.len(), |i: int| views_of(keys@[i]@))),
        ensures
            r <= keys@.len(),
            forall|i: int| 0 <= i < r ==> spec_cmp_key(
                self@,
                views_of(#[trigger] keys@[i]@),
                views_of(key@),
            ) <= 0,
            forall|i: int| r <= i < keys@.len() ==> spec_cmp_key(
                self@,
                views_of(#[trigger] keys@[i]@),
                views_of(key@),
            ) > 0,
    {
        let mut lo: usize = 0;
        let mut hi: usize = keys.len();
        while lo < hi
            invariant
                lo <= hi <= keys@.len(),
                forall|i: int| 0 <= i < keys@.len() ==> key_typed(
                    self@,
                    views_of(#[trigger] keys@[i]@),
                ),
                key_typed(self@, views_of(key@)),
                keys_sorted(self@, Seq::new(keys@.len(), |i: int| views_of(keys@[i]@))),
                forall|i: int| 0 <= i < lo ==> spec_cmp_key(
                    self@,
                    views_of(#[trigger] keys@[i]@),
                    views_of(key@),
                ) <= 0,
                forall|i: int| hi <= i < keys@.len() ==> spec_cmp_key(
                    self@,
                    views_of(#[trigger] keys@[i]@),
                    views_of(key@),
                ) > 0,
            decreases hi - lo,
        {
            let mid = lo + (hi - lo) / 2;
            let c = self.compare(&keys[mid], key);
            match c {
                Ordering::Greater => {
                    proof {
                        assert forall|i: int| mid <= i < keys@.len() implies spec_cmp_key(
                            self@,
                            views_of(#[trigger] keys@[i]@),
                            views_of(key@),
                        ) > 0 by {
                            if i > mid {
                                let sk = Seq::new(keys@.len(), |j: int| views_of(keys@[j]@));
                                assert(spec_cmp_key(self@, sk[mid as int], sk[i]) <= 0);
                                lemma_cmp_key_trans(
                                    self@,
                                    views_of(keys@[mid as int]@),
                                    views_of(keys@[i]@),
                                    views_of(key@),
                                );
                            }
                        }
                    }
                    hi = mid;
                },
                _ => {
                    proof {
                        assert forall|i: int| 0 <= i < mid + 1 implies spec_cmp_key(
                            self@,
                            views_of(#[trigger] keys@[i]@),
                            views_of(key@),
                        ) <= 0 by {
                            if i < mid {
                                let sk = Seq::new(keys@.len(), |j: int| views_of(keys@[j]@));
                                assert(spec_cmp_key(self@, sk[i], sk[mid as int]) <= 0);
                                lemma_cmp_key_trans(
                                    self@,
                                    views_of(keys@[i]@),
                                    views_of(keys@[mid as int]@),
                                    views_of(key@),
                                );
                            }
                        }
                    }
                    lo = mid + 1;
                },
            }
        }
        lo
    }

    /// The first position of a key at least `key`: keys before it compare
    /// less, keys from it on compare at least equal.
    pub fn bisect_left(&self, keys: &Vec<Vec<Value>>, key: &Vec<Value>) -> (r: usize)
        requires
            forall|i: int| 0 <= i < keys@.len() ==> key_typed(
                self@,
                views_of(#[trigger] keys@[i]@),
            ),
            key_typed(self@, views_of(key@)),
            keys_sorted(self@, Seq::new(keys@.len(), |i: int| views_of(keys@[i]@))),
        ensures
            r <= keys@.len(),
            forall|i: int| 0 <= i < r ==> spec_cmp_key(
                self@,
                views_of(#[trigger] keys@[i]@),
                views_of(key@),
            ) < 0,
            forall|i: int| r <= i < keys@.len() ==> spec_cmp_key(
                self@,
                views_of(#[trigger] keys@[i]@),
                views_of(key@),
            ) >= 0,
    {
        let mut lo: usize = 0;
        let mut hi: usize = keys.len();
        while lo < hi
            invariant
                lo <= hi <= keys@.len(),
                forall|i: int| 0 <= i < keys@.len() ==> key_typed(
                    self@,
                    views_of(#[trigger] keys@[i]@),
                ),
                key_typed(self@, views_of(key@)),
                keys_sorted(self@, Seq::new(keys@.len(), |i: int| views_of(keys@[i]@))),
                forall|i: int| 0 <= i < lo ==> spec_cmp_key(
                    self@,
                    views_of(#[trigger] keys@[i]@),
                    views_of(key@),
                ) < 0,
                forall|i: int| hi <= i < keys@.len() ==> spec_cmp_key(
                    self@,
                    views_of(#[trigger] keys@[i]@),
                    views_of(key@),
                ) >= 0,
            decreases hi - lo,
        {
            let mid = lo + (hi - lo) / 2;
            let c = self.compare(&keys[mid], key);
            match c {
                Ordering::Less => {
                    proof {
                        assert forall|i: int| 0 <= i < mid + 1 implies spec_cmp_key(
                            self@,
                            views_of(#[trigger] keys@[i]@),
                            views_of(key@),
                        ) < 0 by {
                            if i < mid {
                                let sk = Seq::new(keys@.len(), |j: int| views_of(keys@[j]@));
                                assert(spec_cmp_key(self@, sk[i], sk[mid as int]) <= 0);
                                lemma_cmp_key_trans(
                                    self@,
                                    views_of(keys@[i]@),
                                    views_of(keys@[mid as int]@),
                                    views_of(key@),
                                );
                            }
                        }
                    }
                    lo = mid + 1;
                },
                _ => {
                    proof {
                        assert forall|i: int| mid <= i < keys@.len() implies spec_cmp_key(
                            self@,
                            views_of(#[trigger] keys@[i]@),
                            views_of(key@),
                        ) >= 0 by {
                            if i > mid {
                                let sk = Seq::new(keys@.len(), |j: int| views_of(keys@[j]@));
                                assert(spec_cmp_key(self@, sk[mid as int], sk[i]) <= 0);
                                lemma_cmp_key_trans(
                                    self@,
                                    views_of(keys@[mid as int]@),
                                    views_of(keys@[i]@),
                                    views_of(key@),
                                );
                            }
                        }
                    }
                    hi = mid;
                },
            }
        }
        lo
    }
}

/// Compare two values of one collatable column type.
fn compare_column(t: &TCType, a: &Value, b: &Value) -> (r: Ordering)
    requires
        value_has_type(a@, *t),
        value_has_type(b@, *t),
    ensures
        ord_sign(r) == spec_cmp_value(*t, a@, b@),
{
    match (a, b) {
        (Value::Number(Number::Int(Int::I32(x))), Value::Number(Number::Int(Int::I32(y)))) => {
            if *x < *y {
                Ordering::Less
            } else if *x > *y {
                Ordering::Greater
            } else {
                Ordering::Equal
            }
        },
        (Value::Number(Number::UInt(UInt::U64(x))), Value::Number(Number::UInt(UInt::U64(y)))) => {
            if *x < *y {
                Ordering::Less
            } else if *x > *y {
                Ordering::Greater
            } else {
                Ordering::Equal
            }
        },
        (Value::TCString(x), Value::TCString(y)) => compare_str(x, y),
        _ => Ordering::Equal,
    }
}

/// Compare two strings by their UTF-8 bytes.
fn compare_str(a: &String, b: &String) -> (r: Ordering)
    ensures
        ord_sign(r) == lex_cmp_bytes(
            vstd::utf8::encode_utf8(a@),
            vstd::utf8::encode_utf8(b@),
        ),
{
    let ab = a.as_str().as_bytes();
    let bb = b.as_str().as_bytes();
    let na = ab.len();
    let nb = bb.len();
    let min = if na < nb {
        na
    } else {
        nb
    };
    proof {
        assert(ab@.skip(0) =~= ab@);
        assert(bb@.skip(0) =~= bb@);
    }
    for i in 0..min
        invariant
            na == ab@.len(),
            nb == bb@.len(),
            min == (if na < nb { na as int } else { nb as int }),
            ab@ == vstd::utf8::encode_utf8(a@),
            bb@ == vstd::utf8::encode_utf8(b@),
            lex_cmp_bytes(ab@, bb@) == lex_cmp_bytes(ab@.skip(i as int), bb@.skip(i as int)),
            forall|j: int| 0 <= j < i ==> ab@[j] == bb@[j],
    {
        proof {
            lemma_lex_unfold(ab@.skip(i as int), bb@.skip(i as int));
            assert(ab@.skip(i as int).skip(1) =~= ab@.skip(i as int + 1));
            assert(bb@.skip(i as int).skip(1) =~= bb@.skip(i as int + 1));
        }
        if ab[i] < bb[i] {
            return Ordering::Less;
        } else if ab[i] > bb[i] {
            return Ordering::Greater;
        }
    }
    proof {
        lemma_lex_unfold(ab@.skip(min as int), bb@.skip(min as int));
    }
    if na < nb {
        Ordering::Less
    } else if na > nb {
        Ordering::Greater
    } else {
        Ordering::Equal
    }
}

/// One step of the lexicographic order: the head decides, a tie passes to
/// the tails.
proof fn lemma_lex_unfold(a: Seq<u8>, b: Seq<u8>)
    ensures
        a.len() == 0 && b.len() == 0 ==> lex_cmp_bytes(a, b) == 0,
        a.len() == 0 && b.len() > 0 ==> lex_cmp_bytes(a, b) == -1,
        a.len() > 0 && b.len() == 0 ==> lex_cmp_bytes(a, b) == 1,
        a.len() > 0 && b.len() > 0 ==> lex_cmp_bytes(a, b) == (if a[0] < b[0] {
            -1int
        } else if a[0] > b[0] {
            1int
        } else {
            lex_cmp_bytes(a.skip(1), b.skip(1))
        }),
{
}

/// One step of the key order: the first column decides, a tie passes to the
/// remaining columns.
proof fn lemma_cmp_key_unfold(schema: Seq<TCType>, k1: Seq<ValueView>, k2: Seq<ValueView>)
    ensures
        k1.len() == 0 && k2.len() == 0 ==> spec_cmp_key(schema, k1, k2) == 0,
        k1.len() == 0 && k2.len() > 0 ==> spec_cmp_key(schema, k1, k2) == -1,
        k1.len() > 0 && k2.len() == 0 ==> spec_cmp_key(schema, k1, k2) == 1,
        k1.len() > 0 && k2.len() > 0 ==> spec_cmp_key(schema, k1, k2) == (if spec_cmp_value(
            schema[0],
            k1[0],
            k2[0],
        ) != 0 {
            spec_cmp_value(schema[0], k1[0], k2[0])
        } else {
            spec_cmp_key(schema.skip(1), k1.skip(1), k2.skip(1))
        }),
{
}


/// A sequence compares equal to itself.
proof fn lemma_lex_refl(a: Seq<u8>)
    ensures
        lex_cmp_bytes(a, a) == 0,
    decreases a.len(),
{
    if a.len() > 0 {
        lemma_lex_refl(a.skip(1));
    }
}

/// Byte sequences that compare equal are equal.
proof fn lemma_lex_eq(a: Seq<u8>, b: Seq<u8>)
    ensures
        lex_cmp_bytes(a, b) == 0 ==> a == b,
    decreases a.len(),
{
    if a.len() > 0 && b.len() > 0 && a[0] == b[0] {
        lemma_lex_eq(a.skip(1), b.skip(1));
        if lex_cmp_bytes(a, b) == 0 {
            assert(a.skip(1) == b.skip(1));
            assert(a.len() == b.len());
            assert forall|i: int| 0 <= i < a.len() implies a[i] == b[i] by {
                if i >= 1 {
                    assert(a.skip(1)[i - 1] == b.skip(1)[i - 1]);
                }
            }
            assert(a =~= b);
        }
    }
}

/// The byte-lexicographic order is transitive, with strictness preserved on
/// either side of a tie.
proof fn lemma_lex_trans(a: Seq<u8>, b: Seq<u8>, c: Seq<u8>)
    ensures
        lex_cmp_bytes(a, b) < 0 && lex_cmp_bytes(b, c) <= 0 ==> lex_cmp_bytes(a, c) < 0,
        lex_cmp_bytes(a, b) <= 0 && lex_cmp_bytes(b, c) < 0 ==> lex_cmp_bytes(a, c) < 0,
        lex_cmp_bytes(a, b) <= 0 && lex_cmp_bytes(b, c) <= 0 ==> lex_cmp_bytes(a, c) <= 0,
    decreases a.len() + b.len() + c.len(),
{
    if a.len() > 0 && b.len() > 0 && c.len() > 0 {
        lemma_lex_trans(a.skip(1), b.skip(1), c.skip(1));
    }
}

/// The typed value order is transitive, with strictness preserved on either
/// side of a tie.
proof fn lemma_cmp_value_trans(t: TCType, a: ValueView, b: ValueView, c: ValueView)
    requires
        value_has_type(a, t),
        value_has_type(b, t),
        value_has_type(c, t),
    ensures
        spec_cmp_value(t, a, b) < 0 && spec_cmp_value(t, b, c) <= 0 ==> spec_cmp_value(t, a, c)
            < 0,
        spec_cmp_value(t, a, b) <= 0 && spec_cmp_value(t, b, c) < 0 ==> spec_cmp_value(t, a, c)
            < 0,
        spec_cmp_value(t, a, b) <= 0 && spec_cmp_value(t, b, c) <= 0 ==> spec_cmp_value(t, a, c)
            <= 0,
        spec_cmp_value(t, a, b) == 0 && spec_cmp_value(t, b, c) == 0 ==> spec_cmp_value(t, a, c)
            == 0,
{
    match (a, b, c) {
        (ValueView::TCString(x), ValueView::TCString(y), ValueView::TCString(z)) => {
            lemma_lex_trans(
                vstd::utf8::encode_utf8(x),
                vstd::utf8::encode_utf8(y),
                vstd::utf8::encode_utf8(z),
            );
            lemma_lex_eq(vstd::utf8::encode_utf8(x), vstd::utf8::encode_utf8(y));
            lemma_lex_eq(vstd::utf8::encode_utf8(y), vstd::utf8::encode_utf8(z));
            lemma_lex_refl(vstd::utf8::encode_utf8(x));
        },
        _ => {},
    }
}

/// The multi-column key order is transitive, with strictness preserved on
/// either side of a tie.
pub proof fn lemma_cmp_key_trans(
    schema: Seq<TCType>,
    a: Seq<ValueView>,
    b: Seq<ValueView>,
    c: Seq<ValueView>,
)
    requires
        key_typed(schema, a),
        key_typed(schema, b),
        key_typed(schema, c),
    ensures
        spec_cmp_key(schema, a, b) < 0 && spec_cmp_key(schema, b, c) <= 0 ==> spec_cmp_key(
            schema, a, c,
        ) < 0,
        spec_cmp_key(schema, a, b) <= 0 && spec_cmp_key(schema, b, c) < 0 ==> spec_cmp_key(
            schema, a, c,
        ) < 0,
        spec_cmp_key(schema, a, b) <= 0 && spec_cmp_key(schema, b, c) <= 0 ==> spec_cmp_key(
            schema, a, c,
        ) <= 0,
    decreases a.len() + b.len() + c.len(),
{
    if a.len() > 0 && b.len() > 0 && c.len() > 0 {
        lemma_cmp_value_trans(schema[0], a[0], b[0], c[0]);
        assert(key_typed(schema.skip(1), a.skip(1))) by {
            assert(forall|i: int| 0 <= i < a.skip(1).len() ==> a.skip(1)[i] == #[trigger] a[
                i + 1]);
        }
        assert(key_typed(schema.skip(1), b.skip(1))) by {
            assert(forall|i: int| 0 <= i < b.skip(1).len() ==> b.skip(1)[i] == #[trigger] b[
                i + 1]);
        }
        assert(key_typed(schema.skip(1), c.skip(1))) by {
            assert(forall|i: int| 0 <= i < c.skip(1).len() ==> c.skip(1)[i] == #[trigger] c[
                i + 1]);
        }
        lemma_cmp_key_trans(schema.skip(1), a.skip(1), b.skip(1), c.skip(1));
    }
}


/// Reversing the operands of the byte order flips its sign.
proof fn lemma_lex_antisym(a: Seq<u8>, b: Seq<u8>)
    ensures
        lex_cmp_bytes(a, b) == -lex_cmp_bytes(b, a),
    decreases a.len() + b.len(),
{
    if a.len() > 0 && b.len() > 0 && a[0] == b[0] {
        lemma_lex_antisym(a.skip(1), b.skip(1));
    }
}

/// Reversing the operands of the key order flips its sign.
pub proof fn lemma_cmp_antisym(schema: Seq<TCType>, a: Seq<ValueView>, b: Seq<ValueView>)
    requires
        key_typed(schema, a),
        key_typed(schema, b),
    ensures
        spec_cmp_key(schema, a, b) == -spec_cmp_key(schema, b, a),
    decreases a.len() + b.len(),
{
    if a.len() > 0 && b.len() > 0 {
        match (a[0], b[0]) {
            (ValueView::TCString(x), ValueView::TCString(y)) => {
                lemma_lex_antisym(vstd::utf8::encode_utf8(x), vstd::utf8::encode_utf8(y));
            },
            _ => {},
        }
        if spec_cmp_value(schema[0], a[0], b[0]) == 0 {
            assert(key_typed(schema.skip(1), a.skip(1))) by {
                assert(forall|i: int| 0 <= i < a.skip(1).len() ==> a.skip(1)[i] == #[trigger] a[
                    i + 1]);
            }
            assert(key_typed(schema.skip(1), b.skip(1))) by {
                assert(forall|i: int| 0 <= i < b.skip(1).len() ==> b.skip(1)[i] == #[trigger] b[
                    i + 1]);
            }
            lemma_cmp_antisym(schema.skip(1), a.skip(1), b.skip(1));
        }
    }
}

} // verus!
