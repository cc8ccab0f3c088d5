use vstd::prelude::*;

use crate::error::{bad_request, TCError};

verus! {

/// A logical N-dimensional index into a tensor, one entry per axis.
pub type Coord = Vec<u64>;

/// The dimensions of a tensor, outermost axis first.
#[derive(Debug)]
pub struct Shape {
    dims: Vec<u64>,
}

/// The selection a tensor slice makes along one axis: a single index,
/// a contiguous range, or an explicit list of indices.
#[derive(Debug)]
pub enum AxisBounds {
    At(u64),
    In { start: u64, end: u64 },
    Of(Vec<u64>),
}

/// A per-axis selection over a tensor, outermost axis first.
#[derive(Debug)]
pub struct Bounds {
    axes: Vec<AxisBounds>,
}

/// The mathematical value of one axis selection, with the enumerated
/// indices as a sequence.
pub enum AxisBoundsView {
    At(u64),
    In { start: u64, end: u64 },
    Of(Seq<u64>),
}

impl View for AxisBounds {
    type V = AxisBoundsView;

    open spec fn view(&self) -> AxisBoundsView {
        match *self {
            AxisBounds::At(c) => AxisBoundsView::At(c),
            AxisBounds::In { start, end } => AxisBoundsView::In { start, end },
            AxisBounds::Of(ids) => AxisBoundsView::Of(ids@),
        }
    }
}

/// Whether `coord` is a valid index into a tensor of shape `shape`.
pub open spec fn valid_coord(coord: Seq<u64>, shape: Seq<u64>) -> bool {
    &&& coord.len() == shape.len()
    &&& forall|k: int| 0 <= k < coord.len() ==> coord[k] < shape[k]
}

/// The number of cells a tensor of shape `shape` holds.
pub open spec fn size_of(shape: Seq<u64>) -> int
    decreases shape.len(),
{
    if shape.len() == 0 {
        1
    } else {
        shape[0] * size_of(shape.skip(1))
    }
}

/// Whether one axis selection stays inside a dimension of extent `dim`.
pub open spec fn axis_in_dim(b: AxisBoundsView, dim: u64) -> bool {
    match b {
        AxisBoundsView::At(c) => c < dim,
        AxisBoundsView::In { start, end } => start <= end && end <= dim,
        AxisBoundsView::Of(ids) => forall|j: int| 0 <= j < ids.len() ==> ids[j] < dim,
    }
}

/// Whether `bounds` selects a region inside a tensor of shape `shape`.
pub open spec fn bounds_in_shape(bounds: Seq<AxisBoundsView>, shape: Seq<u64>) -> bool {
    &&& bounds.len() <= shape.len()
    &&& forall|a: int| 0 <= a < bounds.len() ==> axis_in_dim(#[trigger] bounds[a], shape[a])
}

/// Whether index `v` falls inside the selection `b` along one axis.
pub open spec fn axis_selects(b: AxisBoundsView, v: u64) -> bool {
    match b {
        AxisBoundsView::At(c) => v == c,
        AxisBoundsView::In { start, end } => start <= v < end,
        AxisBoundsView::Of(ids) => exists|j: int| 0 <= j < ids.len() && ids[j] == v,
    }
}

/// Whether `coord` falls inside the region `bounds` selects.
pub open spec fn bounds_select(bounds: Seq<AxisBoundsView>, coord: Seq<u64>) -> bool {
    &&& coord.len() == bounds.len()
    &&& forall|a: int| 0 <= a < bounds.len() ==> axis_selects(#[trigger] bounds[a], coord[a])
}

impl Clone for Shape {
    fn clone(&self) -> (r: Shape)
        ensures
            r@ == self@,
    {
        Shape { dims: self.dims.clone() }
    }
}

impl Clone for AxisBounds {
    fn clone(&self) -> (r: AxisBounds)
        ensures
            r@ == self@,
    {
        match self {
            AxisBounds::At(c) => AxisBounds::At(*c),
            AxisBounds::In { start, end } => AxisBounds::In { start: *start, end: *end },
            AxisBounds::Of(ids) => {
                let ids2 = ids.clone();
                proof {
                    assert(forall|i: int| 0 <= i < ids@.len()
                        ==> cloned::<u64>(ids@[i], #[trigger] ids2@[i]));
                    assert(ids2@ =~= ids@);
                }
                AxisBounds::Of(ids2)
            },
        }
    }
}

impl Clone for Bounds {
    fn clone(&self) -> (r: Bounds)
        ensures
            r@ == self@,
    {
        let n = self.axes.len();
        let mut axes: Vec<AxisBounds> = Vec::new();
        for a in 0..n
            invariant
                n == self@.len(),
                axes@.len() == a,
                forall|i: int| 0 <= i < a ==> axes@[i]@ == self@[i],
        {
            axes.push(self.axes[a].clone());
        }
        let r = Bounds { axes };
        proof {
            assert(r@ =~= self@);
        }
        r
    }
}

impl View for Shape {
    type V = Seq<u64>;

    closed spec fn view(&self) -> Seq<u64> {
        self.dims@
    }
}

impl Shape {
    pub fn new(dims: Vec<u64>) -> (r: Shape)
        ensures
            r@ == dims@,
    {
        Shape { dims }
    }

    pub fn len(&self) -> (r: usize)
        ensures
            r == self@.len(),
    {
        self.dims.len()
    }

    pub fn dim(&self, axis: usize) -> (r: u64)
        requires
            axis < self@.len(),
        ensures
            r == self@[axis as int],
    {
        self.dims[axis]
    }

    pub fn to_vec(&self) -> (r: Vec<u64>)
        ensures
            r@ == self@,
    {
        self.dims.clone()
    }

    /// The number of cells a tensor of this shape holds.
    pub fn size(&self) -> (r: u64)
        requires
            size_bounded(self@),
        ensures
            r == size_of(self@),
    {
        let ghost dims = self@;
        let mut size: u64 = 1;
        let mut k: usize = self.dims.len();
        proof {
            assert(self@.skip(k as int) =~= Seq::<u64>::empty());
        }
        while k > 0
            invariant
                k <= self@.len(),
                self@ == dims,
                size == size_of(self@.skip(k as int)),
                size_bounded(self@),
            decreases k,
        {
            k = k - 1;
            proof {
                assert(self@.skip(k as int).skip(1) =~= self@.skip(k as int + 1));
                lemma_size_of_nonneg(self@.skip(k as int + 1));
                assert(size_of(self@.skip(k as int)) <= u64::MAX);
            }
            size = self.dims[k] * size;
        }
        proof {
            assert(self@.skip(0) =~= self@);
        }
        size
    }

    /// Whether `bounds` selects a region inside this shape.
    pub fn contains_bounds(&self, bounds: &Bounds) -> (r: bool)
        ensures
            r == bounds_in_shape(bounds@, self@),
    {
        if bounds.len() > self.dims.len() {
            return false;
        }
        let n = bounds.len();
        for a in 0..n
            invariant
                n == bounds@.len() <= self@.len(),
                forall|i: int| 0 <= i < a ==> axis_in_dim(#[trigger] bounds@[i], self@[i]),
        {
            let dim = self.dims[a];
            let ok = match bounds.axis(a) {
                AxisBounds::At(c) => *c < dim,
                AxisBounds::In { start, end } => *start <= *end && *end <= dim,
                AxisBounds::Of(ids) => {
                    let mut all_in = true;
                    let m = ids.len();
                    for j in 0..m
                        invariant
                            m == ids@.len(),
                            all_in == (forall|i: int| 0 <= i < j ==> ids@[i] < dim),
                    {
                        if ids[j] >= dim {
                            all_in = false;
                        }
                    }
                    all_in
                },
            };
            if !ok {
                return false;
            }
            proof {
                assert(axis_in_dim(bounds@[a as int], self@[a as int]));
            }
        }
        true
    }
}

/// Whether the cell count of `shape` and of each of its suffixes fits in a `u64`.
/// A partial product can pass the machine bound even when a zero dimension
/// makes the full product small, so each suffix is bounded on its own.
pub open spec fn size_bounded(shape: Seq<u64>) -> bool {
    forall|k: int| 0 <= k <= shape.len() ==> size_of(#[trigger] shape.skip(k)) <= u64::MAX
}

/// `size_of` of any suffix of a shape is non-negative, and a factor of the whole.
pub proof fn lemma_size_of_nonneg(shape: Seq<u64>)
    ensures
        size_of(shape) >= 0,
    decreases shape.len(),
{
    if shape.len() > 0 {
        lemma_size_of_nonneg(shape.skip(1));
    }
}

impl View for Bounds {
    type V = Seq<AxisBoundsView>;

    closed spec fn view(&self) -> Seq<AxisBoundsView> {
        Seq::new(self.axes@.len(), |i: int| self.axes@[i]@)
    }
}

impl Bounds {
    pub fn new(axes: Vec<AxisBounds>) -> (r: Bounds)
        ensures
            r@.len() == axes@.len(),
            forall|i: int| 0 <= i < axes@.len() ==> r@[i] == #[trigger] axes@[i]@,
    {
        Bounds { axes }
    }

    /// The bounds that select every cell of a tensor of shape `shape`.
    pub fn all(shape: &Shape) -> (r: Bounds)
        ensures
            r@.len() == shape@.len(),
            forall|a: int| 0 <= a < shape@.len() ==>
                #[trigger] r@[a] == (AxisBoundsView::In { start: 0u64, end: shape@[a] }),
    {
        let n = shape.len();
        let mut axes: Vec<AxisBounds> = Vec::new();
        for a in 0..n
            invariant
                n == shape@.len(),
                axes@.len() == a,
                forall|i: int| 0 <= i < a ==>
                    #[trigger] axes@[i]@ == (AxisBoundsView::In { start: 0u64, end: shape@[i] }),
        {
            axes.push(AxisBounds::In { start: 0, end: shape.dim(a) });
        }
        Bounds { axes }
    }

    /// The bounds that select exactly the cell at `coord`.
    pub fn from_coord(coord: &Coord) -> (r: Bounds)
        ensures
            r@.len() == coord@.len(),
            forall|a: int| 0 <= a < coord@.len() ==>
                #[trigger] r@[a] == AxisBoundsView::At(coord@[a]),
    {
        let n = coord.len();
        let mut axes: Vec<AxisBounds> = Vec::new();
        for a in 0..n
            invariant
                n == coord@.len(),
                axes@.len() == a,
                forall|i: int| 0 <= i < a ==> #[trigger] axes@[i]@ == AxisBoundsView::At(coord@[i]),
        {
            axes.push(AxisBounds::At(coord[a]));
        }
        Bounds { axes }
    }

    pub fn len(&self) -> (r: usize)
        ensures
            r == self@.len(),
    {
        self.axes.len()
    }

    pub fn is_empty(&self) -> (r: bool)
        ensures
            r == (self@.len() == 0),
    {
        self.axes.len() == 0
    }

    pub fn axis(&self, a: usize) -> (r: &AxisBounds)
        requires
            a < self@.len(),
        ensures
            r@ == self@[a as int],
    {
        &self.axes[a]
    }

    /// Drop the selection at axis `a`.
    pub fn remove_axis(&mut self, a: usize)
        requires
            a < old(self)@.len(),
        ensures
            final(self)@ == old(self)@.remove(a as int),
    {
        self.axes.remove(a);
        proof {
            assert(self@ =~= old(self)@.remove(a as int));
        }
    }

    /// Replace the selection at axis `a`.
    pub fn set_axis(&mut self, a: usize, b: AxisBounds)
        requires
            a < old(self)@.len(),
        ensures
            final(self)@ == old(self)@.update(a as int, b@),
    {
        self.axes[a] = b;
        proof {
            assert(self@ =~= old(self)@.update(a as int, b@));
        }
    }

    /// Pad this selection with full ranges so it names every axis of `shape`.
    pub fn normalize(&mut self, shape: &Shape)
        requires
            old(self)@.len() <= shape@.len(),
        ensures
            final(self)@.len() == shape@.len(),
            forall|a: int| 0 <= a < old(self)@.len() ==> final(self)@[a] == old(self)@[a],
            forall|a: int| old(self)@.len() <= a < shape@.len() ==>
                #[trigger] final(self)@[a] == (AxisBoundsView::In { start: 0u64, end: shape@[a] }),
    {
        let n = shape.len();
        let ghost orig = self@;
        let mut a: usize = self.axes.len();
        while a < n
            invariant
                orig.len() <= a <= n,
                n == shape@.len(),
                self@.len() == a,
                forall|i: int| 0 <= i < orig.len() ==> self@[i] == orig[i],
                forall|i: int| orig.len() <= i < a ==>
                    #[trigger] self@[i] == (AxisBoundsView::In { start: 0u64, end: shape@[i] }),
            decreases n - a,
        {
            let ghost prev = self@;
            self.axes.push(AxisBounds::In { start: 0, end: shape.dim(a) });
            proof {
                assert(forall|i: int| 0 <= i < prev.len() ==> #[trigger] self@[i] == prev[i]);
                assert(self@[a as int] == (AxisBoundsView::In { start: 0u64, end: shape@[a as int] }));
            }
            a = a + 1;
        }
    }
}


/// The number of leading axes a broadcast into `shape` prepends to `source`.
pub open spec fn bcast_offset(source: Seq<u64>, shape: Seq<u64>) -> int {
    shape.len() - source.len()
}

/// Whether `source` can broadcast into `shape`: no axis is lost, and every
/// shared axis agrees or has extent one on either side.
pub open spec fn can_broadcast(source: Seq<u64>, shape: Seq<u64>) -> bool {
    &&& source.len() <= shape.len()
    &&& forall|a: int| bcast_offset(source, shape) <= a < shape.len() ==>
            shape[a] == source[a - bcast_offset(source, shape)]
            || shape[a] == 1
            || #[trigger] source[a - bcast_offset(source, shape)] == 1
}

/// The source coordinate a broadcast output coordinate reads from:
/// a shared axis of equal extent keeps its index, every other axis reads zero.
pub open spec fn bcast_invert(source: Seq<u64>, shape: Seq<u64>, coord: Seq<u64>) -> Seq<u64> {
    Seq::new(source.len(), |i: int|
        if shape[i + bcast_offset(source, shape)] == source[i] {
            coord[i + bcast_offset(source, shape)]
        } else {
            0u64
        })
}

/// A lazy broadcast view: maps coordinates of the target `shape` back to
/// coordinates of `source_shape`.
pub struct Broadcast {
    source_shape: Shape,
    shape: Shape,
    broadcast: Vec<bool>,
    offset: usize,
}

impl Broadcast {
    /// The shapes this view was made with, as contracts see them.
    pub closed spec fn spec_source_shape(&self) -> Seq<u64> {
        self.source_shape@
    }

    pub closed spec fn spec_shape(&self) -> Seq<u64> {
        self.shape@
    }

    /// The internal marks agree with the two shapes.
    pub closed spec fn wf(&self) -> bool {
        &&& can_broadcast(self.source_shape@, self.shape@)
        &&& self.offset == bcast_offset(self.source_shape@, self.shape@)
        &&& self.broadcast@.len() == self.shape@.len()
        &&& forall|a: int| 0 <= a < self.offset ==> self.broadcast@[a]
        &&& forall|a: int| self.offset <= a < self.shape@.len() ==>
                self.broadcast@[a] == (self.shape@[a] != self.source_shape@[a - self.offset])
    }

    /// Set up a broadcast of `source_shape` into `shape`; rejected unless
    /// every shared axis agrees or has extent one on either side.
    pub fn new(source_shape: Shape, shape: Shape) -> (r: Result<Broadcast, TCError>)
        ensures
            r.is_ok() <==> can_broadcast(source_shape@, shape@),
            r.is_ok() ==> {
                &&& r->Ok_0.wf()
                &&& r->Ok_0.spec_source_shape() == source_shape@
                &&& r->Ok_0.spec_shape() == shape@
            },
            r.is_err() ==> r->Err_0.spec_kind() == crate::error::ErrorKind::BadRequest,
    {
        let ndim = shape.len();
        if source_shape.len() > shape.len() {
            return Err(bad_request("cannot broadcast into the given shape".to_owned()));
        }

        let offset = ndim - source_shape.len();
        let mut broadcast: Vec<bool> = Vec::new();
        let mut axis: usize = 0;
        while axis < offset
            invariant
                axis <= offset <= ndim,
                ndim == shape@.len(),
                broadcast@.len() == axis,
                forall|a: int| 0 <= a < axis ==> broadcast@[a],
            decreases offset - axis,
        {
            broadcast.push(true);
            axis = axis + 1;
        }
        while axis < ndim
            invariant
                offset <= axis <= ndim,
                ndim == shape@.len(),
                offset == ndim - source_shape@.len(),
                broadcast@.len() == axis,
                forall|a: int| 0 <= a < offset ==> broadcast@[a],
                forall|a: int| offset <= a < axis ==> {
                    &&& broadcast@[a] == (shape@[a] != source_shape@[a - offset])
                    &&& (shape@[a] == source_shape@[a - offset]
                        || shape@[a] == 1
                        || source_shape@[a - offset] == 1)
                },
            decreases ndim - axis,
        {
            if shape.dim(axis) == source_shape.dim(axis - offset) {
                broadcast.push(false);
            } else if shape.dim(axis) == 1 || source_shape.dim(axis - offset) == 1 {
                broadcast.push(true);
            } else {
                proof {
                    let off = bcast_offset(source_shape@, shape@);
                    assert(!(shape@[axis as int] == source_shape@[axis - off]
                        || shape@[axis as int] == 1
                        || source_shape@[axis - off] == 1));
                }
                return Err(bad_request("cannot broadcast into the given shape".to_owned()));
            }
            axis = axis + 1;
        }

        Ok(Broadcast { source_shape, shape, broadcast, offset })
    }

    pub fn shape(&self) -> (r: &Shape)
        ensures
            r@ == self.spec_shape(),
    {
        &self.shape
    }

    /// The source coordinate that the output cell at `coord` reads.
    pub fn invert_coord(&self, coord: &Coord) -> (r: Coord)
        requires
            self.wf(),
            coord@.len() == self.spec_shape().len(),
        ensures
            r@ == bcast_invert(self.spec_source_shape(), self.spec_shape(), coord@),
    {
        let source_ndim = self.source_shape.len();
        let ndim = self.shape.len();
        let mut source_coord: Vec<u64> = Vec::new();
        for axis in 0..source_ndim
            invariant
                self.wf(),
                source_ndim == self.spec_source_shape().len(),
                ndim == self.spec_shape().len(),
                coord@.len() == self.spec_shape().len(),
                source_coord@.len() == axis,
                forall|i: int| 0 <= i < axis ==> source_coord@[i]
                    == bcast_invert(self.spec_source_shape(), self.spec_shape(), coord@)[i],
        {
            proof {
                assert(axis + self.offset < ndim);
            }
            if self.broadcast[axis + self.offset] {
                source_coord.push(0);
            } else {
                source_coord.push(coord[axis + self.offset]);
            }
        }
        proof {
            assert(source_coord@ =~= bcast_invert(self.spec_source_shape(), self.spec_shape(), coord@));
        }
        source_coord
    }

    /// The source region behind a selection over the broadcast view: a
    /// shared axis of equal extent keeps its selection, every broadcast
    /// axis reads the single source index zero.
    pub fn invert_bounds(&self, bounds: &Bounds) -> (r: Bounds)
        requires
            self.wf(),
            bounds@.len() == self.spec_shape().len(),
        ensures
            r@.len() == self.spec_source_shape().len(),
            forall|a: int| 0 <= a < r@.len() ==> #[trigger] r@[a] == {
                let off = bcast_offset(self.spec_source_shape(), self.spec_shape());
                if self.spec_shape()[a + off] == self.spec_source_shape()[a] {
                    bounds@[a + off]
                } else {
                    AxisBoundsView::At(0u64)
                }
            },
    {
        let source_ndim = self.source_shape.len();
        let ndim = self.shape.len();
        let mut source_bounds: Vec<AxisBounds> = Vec::new();
        for axis in 0..source_ndim
            invariant
                self.wf(),
                source_ndim == self.spec_source_shape().len(),
                ndim == self.spec_shape().len(),
                bounds@.len() == self.spec_shape().len(),
                source_bounds@.len() == axis,
                forall|i: int| 0 <= i < axis ==> #[trigger] source_bounds@[i]@ == {
                    let off = bcast_offset(self.spec_source_shape(), self.spec_shape());
                    if self.spec_shape()[i + off] == self.spec_source_shape()[i] {
                        bounds@[i + off]
                    } else {
                        AxisBoundsView::At(0u64)
                    }
                },
        {
            proof {
                assert(axis + self.offset < ndim);
            }
            if self.broadcast[axis + self.offset] {
                source_bounds.push(AxisBounds::At(0));
            } else {
                source_bounds.push(bounds.axis(axis + self.offset).clone());
            }
        }
        let r = Bounds::new(source_bounds);
        proof {
            assert forall|a: int| 0 <= a < r@.len() implies #[trigger] r@[a] == {
                let off = bcast_offset(self.spec_source_shape(), self.spec_shape());
                if self.spec_shape()[a + off] == self.spec_source_shape()[a] {
                    bounds@[a + off]
                } else {
                    AxisBoundsView::At(0u64)
                }
            } by {
                assert(r@[a] == source_bounds@[a]@);
            }
        }
        r
    }

    /// The region of the broadcast view that reads from `source_bounds`:
    /// shared axes of equal extent keep the selection, every other axis is full.
    pub fn map_bounds(&self, source_bounds: Bounds) -> (r: Bounds)
        requires
            self.wf(),
            source_bounds@.len() == self.spec_source_shape().len(),
        ensures
            r@.len() == self.spec_shape().len(),
            forall|a: int| 0 <= a < self.spec_shape().len() ==> #[trigger] r@[a] == {
                let off = bcast_offset(self.spec_source_shape(), self.spec_shape());
                if a >= off && self.spec_shape()[a] == self.spec_source_shape()[a - off] {
                    source_bounds@[a - off]
                } else {
                    AxisBoundsView::In { start: 0u64, end: self.spec_shape()[a] }
                }
            },
    {
        let ndim = self.shape.len();
        let mut axes: Vec<AxisBounds> = Vec::new();
        for a in 0..ndim
            invariant
                self.wf(),
                ndim == self.spec_shape().len(),
                source_bounds@.len() == self.spec_source_shape().len(),
                axes@.len() == a,
                forall|i: int| 0 <= i < a ==> #[trigger] axes@[i]@ == {
                    let off = bcast_offset(self.spec_source_shape(), self.spec_shape());
                    if i >= off && self.spec_shape()[i] == self.spec_source_shape()[i - off] {
                        source_bounds@[i - off]
                    } else {
                        AxisBoundsView::In { start: 0u64, end: self.spec_shape()[i] }
                    }
                },
        {
            if a >= self.offset && !self.broadcast[a] {
                axes.push(source_bounds.axis(a - self.offset).clone());
            } else {
                axes.push(AxisBounds::In { start: 0, end: self.shape.dim(a) });
            }
            proof {
                let off = bcast_offset(self.spec_source_shape(), self.spec_shape());
                assert(axes@[a as int]@ == (if a >= off
                    && self.spec_shape()[a as int] == self.spec_source_shape()[a - off] {
                    source_bounds@[a - off]
                } else {
                    AxisBoundsView::In { start: 0u64, end: self.spec_shape()[a as int] }
                }));
            }
        }
        let r = Bounds::new(axes);
        proof {
            assert forall|a: int| 0 <= a < self.spec_shape().len() implies #[trigger] r@[a] == {
                let off = bcast_offset(self.spec_source_shape(), self.spec_shape());
                if a >= off && self.spec_shape()[a] == self.spec_source_shape()[a - off] {
                    source_bounds@[a - off]
                } else {
                    AxisBoundsView::In { start: 0u64, end: self.spec_shape()[a] }
                }
            } by {
                assert(r@[a] == axes@[a]@);
            }
        }
        r
    }

    /// The region of the broadcast view that reads the single source cell at
    /// `source_coord`.
    pub fn map_coord(&self, source_coord: &Coord) -> (r: Bounds)
        requires
            self.wf(),
            source_coord@.len() == self.spec_source_shape().len(),
        ensures
            r@.len() == self.spec_shape().len(),
            forall|a: int| 0 <= a < self.spec_shape().len() ==> #[trigger] r@[a] == {
                let off = bcast_offset(self.spec_source_shape(), self.spec_shape());
                if a >= off && self.spec_shape()[a] == self.spec_source_shape()[a - off] {
                    AxisBoundsView::At(source_coord@[a - off])
                } else {
                    AxisBoundsView::In { start: 0u64, end: self.spec_shape()[a] }
                }
            },
    {
        let r = self.map_bounds(Bounds::from_coord(source_coord));
        r
    }
}

/// Whether no axis broadcasts "down": every source dimension either matches
/// its target dimension or is one. The constructor also admits a target
/// dimension of one over a wider source, and such an axis loses information.
pub open spec fn proper_broadcast(source: Seq<u64>, shape: Seq<u64>) -> bool {
    &&& can_broadcast(source, shape)
    &&& forall|i: int| 0 <= i < source.len() ==>
            shape[i + bcast_offset(source, shape)] == source[i] || #[trigger] source[i] == 1
}

/// Every output coordinate inside the region that `map_coord(x)` names reads
/// back exactly `x`: a broadcast inverts its own image, though it is not a
/// bijection.
pub proof fn lemma_broadcast_invert_map(b: Broadcast, x: Seq<u64>, y: Seq<u64>, r: Seq<AxisBoundsView>)
    requires
        b.wf(),
        proper_broadcast(b.spec_source_shape(), b.spec_shape()),
        valid_coord(x, b.spec_source_shape()),
        valid_coord(y, b.spec_shape()),
        r.len() == b.spec_shape().len(),
        forall|a: int| 0 <= a < b.spec_shape().len() ==> #[trigger] r[a] == {
            let off = bcast_offset(b.spec_source_shape(), b.spec_shape());
            if a >= off && b.spec_shape()[a] == b.spec_source_shape()[a - off] {
                AxisBoundsView::At(x[a - off])
            } else {
                AxisBoundsView::In { start: 0u64, end: b.spec_shape()[a] }
            }
        },
        bounds_select(r, y),
    ensures
        bcast_invert(b.spec_source_shape(), b.spec_shape(), y) == x,
{
    let src = b.spec_source_shape();
    let dst = b.spec_shape();
    let off = bcast_offset(src, dst);
    let inv = bcast_invert(src, dst, y);
    assert forall|i: int| 0 <= i < src.len() implies inv[i] == x[i] by {
        assert(axis_selects(r[i + off], y[i + off]));
        if dst[i + off] == src[i] {
            assert(r[i + off] == AxisBoundsView::At(x[i]));
        } else {
            assert(src[i] == 1);
            assert(x[i] < 1);
        }
    }
    assert(inv =~= x);
}

/// A view of `source_shape` with one extra axis of extent one inserted.
pub struct Expand {
    source_shape: Shape,
    shape: Shape,
    expand: usize,
}

impl Expand {
    pub closed spec fn spec_source_shape(&self) -> Seq<u64> {
        self.source_shape@
    }

    pub closed spec fn spec_shape(&self) -> Seq<u64> {
        self.shape@
    }

    pub closed spec fn spec_expand(&self) -> int {
        self.expand as int
    }

    pub closed spec fn wf(&self) -> bool {
        &&& 0 <= self.expand <= self.source_shape@.len()
        &&& self.shape@ == self.source_shape@.insert(self.expand as int, 1u64)
    }

    /// Insert an axis of extent one at `expand`; rejected when `expand`
    /// lies past the end of the source shape.
    pub fn new(source_shape: Shape, expand: usize) -> (r: Result<Expand, TCError>)
        ensures
            r.is_ok() <==> expand <= source_shape@.len(),
            r.is_ok() ==> {
                &&& r->Ok_0.wf()
                &&& r->Ok_0.spec_source_shape() == source_shape@
                &&& r->Ok_0.spec_expand() == expand
                &&& r->Ok_0.spec_shape() == source_shape@.insert(expand as int, 1u64)
            },
            r.is_err() ==> r->Err_0.spec_kind() == crate::error::ErrorKind::BadRequest,
    {
        if expand > source_shape.len() {
            return Err(bad_request("expansion axis out of bounds".to_owned()));
        }

        let mut dims = source_shape.to_vec();
        dims.insert(expand, 1);
        let shape = Shape::new(dims);
        Ok(Expand { source_shape, shape, expand })
    }

    pub fn shape(&self) -> (r: &Shape)
        ensures
            r@ == self.spec_shape(),
    {
        &self.shape
    }

    /// Strip the inserted axis from a selection over the expanded view.
    pub fn invert_bounds(&self, bounds: Bounds) -> (r: Bounds)
        requires
            self.wf(),
        ensures
            self.spec_expand() < bounds@.len() ==> r@ == bounds@.remove(self.spec_expand()),
            self.spec_expand() >= bounds@.len() ==> r@ == bounds@,
    {
        let mut bounds = bounds;
        if self.expand < bounds.len() {
            bounds.remove_axis(self.expand);
        }
        bounds
    }

    /// The source coordinate behind an output coordinate: the inserted
    /// axis is deleted.
    pub fn invert_coord(&self, coord: &Coord) -> (r: Coord)
        requires
            self.wf(),
            coord@.len() == self.spec_shape().len(),
        ensures
            r@ == coord@.remove(self.spec_expand()),
    {
        let mut inverted: Vec<u64> = Vec::new();
        let n = coord.len();
        for axis in 0..n
            invariant
                self.wf(),
                n == coord@.len() == self.spec_shape().len(),
                inverted@.len() == (if axis <= self.spec_expand() { axis as int } else { axis - 1 }),
                forall|i: int| 0 <= i < inverted@.len() ==>
                    inverted@[i] == coord@.remove(self.spec_expand())[i],
        {
            if axis != self.expand {
                inverted.push(coord[axis]);
            }
        }
        proof {
            assert(inverted@ =~= coord@.remove(self.spec_expand()));
        }
        inverted
    }

    /// The output coordinate of a source coordinate: zero is inserted for
    /// the new axis.
    pub fn map_coord(&self, coord: Coord) -> (r: Coord)
        requires
            self.wf(),
            coord@.len() == self.spec_source_shape().len(),
        ensures
            r@ == coord@.insert(self.spec_expand(), 0u64),
    {
        let mut coord = coord;
        coord.insert(self.expand, 0);
        coord
    }
}

/// Inserting the expanded axis and deleting it again returns any source
/// coordinate unchanged, and conversely for any output coordinate of the
/// expanded view.
pub proof fn lemma_expand_roundtrip(e: Expand, x: Seq<u64>, y: Seq<u64>)
    requires
        e.wf(),
        valid_coord(x, e.spec_source_shape()),
        valid_coord(y, e.spec_shape()),
    ensures
        x.insert(e.spec_expand(), 0u64).remove(e.spec_expand()) == x,
        y.remove(e.spec_expand()).insert(e.spec_expand(), 0u64) == y,
{
    assert(x.insert(e.spec_expand(), 0u64).remove(e.spec_expand()) =~= x);
    assert(y[e.spec_expand()] < e.spec_shape()[e.spec_expand()]);
    assert(e.spec_shape()[e.spec_expand()] == 1);
    assert(y.remove(e.spec_expand()).insert(e.spec_expand(), 0u64) =~= y);
}


/// Whether `perm` names each axis of an `ndim`-dimensional tensor exactly once.
pub open spec fn is_permutation(perm: Seq<usize>, ndim: int) -> bool {
    &&& perm.len() == ndim
    &&& forall|k: int| 0 <= k < perm.len() ==> perm[k] < ndim
    &&& forall|j: int, k: int| 0 <= j < k < perm.len() ==> perm[j] != perm[k]
}

/// The output coordinate of a transpose: axis `k` of the output reads source
/// axis `perm[k]`.
pub open spec fn transpose_map(perm: Seq<usize>, source_coord: Seq<u64>) -> Seq<u64> {
    Seq::new(perm.len(), |k: int| source_coord[perm[k] as int])
}

/// A view of `source_shape` with its axes reordered by a permutation.
pub struct Transpose {
    source_shape: Shape,
    shape: Shape,
    permutation: Vec<usize>,
}

impl Transpose {
    pub closed spec fn spec_source_shape(&self) -> Seq<u64> {
        self.source_shape@
    }

    pub closed spec fn spec_shape(&self) -> Seq<u64> {
        self.shape@
    }

    pub closed spec fn spec_permutation(&self) -> Seq<usize> {
        self.permutation@
    }

    pub closed spec fn wf(&self) -> bool {
        &&& is_permutation(self.permutation@, self.source_shape@.len() as int)
        &&& self.shape@ == transpose_map(self.permutation@, self.source_shape@)
    }

    /// Reorder the axes of `source_shape` by `permutation`, or reverse them
    /// when no permutation is given; rejected unless the permutation names
    /// each axis exactly once.
    pub fn new(source_shape: Shape, permutation: Option<Vec<usize>>) -> (r: Result<
        Transpose,
        TCError,
    >)
        ensures
            match permutation {
                Some(perm) => {
                    &&& (r.is_ok() <==> is_permutation(perm@, source_shape@.len() as int))
                    &&& r.is_ok() ==> r->Ok_0.spec_permutation() == perm@
                },
                None => {
                    &&& r.is_ok()
                    &&& r->Ok_0.spec_permutation() == Seq::new(
                        source_shape@.len(),
                        |k: int| (source_shape@.len() - 1 - k) as usize,
                    )
                },
            },
            r.is_ok() ==> {
                &&& r->Ok_0.wf()
                &&& r->Ok_0.spec_source_shape() == source_shape@
                &&& r->Ok_0.spec_shape() == transpose_map(
                    r->Ok_0.spec_permutation(),
                    source_shape@,
                )
            },
            r.is_err() ==> r->Err_0.spec_kind() == crate::error::ErrorKind::BadRequest,
    {
        let ndim = source_shape.len();
        let permutation: Vec<usize> = match permutation {
            Some(perm) => {
                if !permutation_check(&perm, ndim) {
                    return Err(bad_request("invalid permutation for transpose".to_owned()));
                }
                perm
            },
            None => {
                let mut axes: Vec<usize> = Vec::new();
                let mut k: usize = ndim;
                while k > 0
                    invariant
                        k <= ndim,
                        axes@.len() == ndim - k,
                        forall|i: int| 0 <= i < axes@.len() ==> axes@[i] == (ndim - 1 - i) as usize,
                    decreases k,
                {
                    k = k - 1;
                    axes.push(k);
                }
                proof {
                    assert(axes@ =~= Seq::new(
                        source_shape@.len(),
                        |i: int| (source_shape@.len() - 1 - i) as usize,
                    ));
                    assert forall|j: int, i: int| 0 <= j < i < axes@.len() implies axes@[j]
                        != axes@[i] by {}
                }
                axes
            },
        };

        let mut dims: Vec<u64> = Vec::new();
        for k in 0..ndim
            invariant
                ndim == source_shape@.len(),
                is_permutation(permutation@, ndim as int),
                dims@.len() == k,
                forall|i: int| 0 <= i < k ==> dims@[i] == source_shape@[permutation@[i] as int],
        {
            dims.push(source_shape.dim(permutation[k]));
        }
        let shape = Shape::new(dims);
        proof {
            assert(shape@ =~= transpose_map(permutation@, source_shape@));
        }
        Ok(Transpose { source_shape, shape, permutation })
    }

    pub fn shape(&self) -> (r: &Shape)
        ensures
            r@ == self.spec_shape(),
    {
        &self.shape
    }

    /// The source axes behind the given output axes.
    pub fn invert_axes(&self, axes: &Vec<usize>) -> (r: Vec<usize>)
        requires
            self.wf(),
            forall|i: int| 0 <= i < axes@.len() ==> axes@[i] < self.spec_permutation().len(),
        ensures
            r@.len() == axes@.len(),
            forall|i: int| 0 <= i < axes@.len() ==>
                r@[i] == self.spec_permutation()[#[trigger] axes@[i] as int],
    {
        let n = axes.len();
        let mut inverted: Vec<usize> = Vec::new();
        for i in 0..n
            invariant
                self.wf(),
                n == axes@.len(),
                forall|j: int| 0 <= j < n ==> axes@[j] < self.spec_permutation().len(),
                inverted@.len() == i,
                forall|j: int| 0 <= j < i ==>
                    inverted@[j] == self.spec_permutation()[#[trigger] axes@[j] as int],
        {
            inverted.push(self.permutation[axes[i]]);
        }
        inverted
    }

    /// The source region behind a selection over the transposed view: the
    /// selection on output axis `k` lands on source axis `perm[k]`, and every
    /// source axis no output axis names keeps its full range.
    pub fn invert_bounds(&self, bounds: &Bounds) -> (r: Bounds)
        requires
            self.wf(),
            bounds@.len() <= self.spec_shape().len(),
        ensures
            r@.len() == self.spec_source_shape().len(),
            forall|k: int| 0 <= k < bounds@.len() ==>
                r@[#[trigger] self.spec_permutation()[k] as int] == bounds@[k],
            forall|a: int| 0 <= a < self.spec_source_shape().len()
                && !(exists|k: int| 0 <= k < bounds@.len()
                    && a == #[trigger] self.spec_permutation()[k] as int) ==>
                #[trigger] r@[a] == (AxisBoundsView::In {
                    start: 0u64,
                    end: self.spec_source_shape()[a],
                }),
    {
        let mut source_bounds = Bounds::all(&self.source_shape);
        let n = bounds.len();
        for k in 0..n
            invariant
                self.wf(),
                n == bounds@.len() <= self.spec_shape().len(),
                source_bounds@.len() == self.spec_source_shape().len(),
                forall|j: int| 0 <= j < k ==>
                    source_bounds@[#[trigger] self.spec_permutation()[j] as int] == bounds@[j],
                forall|a: int| 0 <= a < self.spec_source_shape().len()
                    && !(exists|j: int| 0 <= j < k
                        && a == #[trigger] self.spec_permutation()[j] as int) ==>
                    #[trigger] source_bounds@[a] == (AxisBoundsView::In {
                        start: 0u64,
                        end: self.spec_source_shape()[a],
                    }),
        {
            source_bounds.set_axis(self.permutation[k], bounds.axis(k).clone());
        }
        source_bounds
    }

    /// The source coordinate behind an output coordinate.
    pub fn invert_coord(&self, coord: &Coord) -> (r: Coord)
        requires
            self.wf(),
            coord@.len() == self.spec_shape().len(),
        ensures
            r@.len() == self.spec_source_shape().len(),
            forall|k: int| 0 <= k < coord@.len() ==>
                r@[#[trigger] self.spec_permutation()[k] as int] == coord@[k],
            transpose_map(self.spec_permutation(), r@) == coord@,
    {
        let ndim = coord.len();
        let mut source_coord: Vec<u64> = Vec::new();
        let mut i: usize = 0;
        while i < ndim
            invariant
                i <= ndim,
                source_coord@.len() == i,
            decreases ndim - i,
        {
            source_coord.push(0);
            i = i + 1;
        }
        for k in 0..ndim
            invariant
                self.wf(),
                ndim == coord@.len() == self.spec_shape().len(),
                source_coord@.len() == ndim,
                forall|j: int| 0 <= j < k ==>
                    source_coord@[#[trigger] self.spec_permutation()[j] as int] == coord@[j],
        {
            let idx = self.permutation[k];
            source_coord[idx] = coord[k];
            proof {
                assert forall|j: int| 0 <= j < k implies source_coord@[
                    #[trigger] self.spec_permutation()[j] as int] == coord@[j] by {
                    assert(self.spec_permutation()[j] != self.spec_permutation()[k as int]);
                }
            }
        }
        proof {
            assert(transpose_map(self.spec_permutation(), source_coord@) =~= coord@);
        }
        source_coord
    }

    /// The output coordinate of a source coordinate: output axis `k` reads
    /// source axis `perm[k]`.
    pub fn map_coord(&self, source_coord: &Coord) -> (r: Coord)
        requires
            self.wf(),
            source_coord@.len() == self.spec_source_shape().len(),
        ensures
            r@ == transpose_map(self.spec_permutation(), source_coord@),
    {
        let ndim = source_coord.len();
        let mut coord: Vec<u64> = Vec::new();
        for k in 0..ndim
            invariant
                self.wf(),
                ndim == source_coord@.len() == self.spec_source_shape().len(),
                coord@.len() == k,
                forall|j: int| 0 <= j < k ==>
                    coord@[j] == source_coord@[#[trigger] self.spec_permutation()[j] as int],
        {
            coord.push(source_coord[self.permutation[k]]);
        }
        proof {
            assert(coord@ =~= transpose_map(self.spec_permutation(), source_coord@));
        }
        coord
    }
}

/// Whether `perm` names each index below `ndim` exactly once.
fn permutation_check(perm: &Vec<usize>, ndim: usize) -> (r: bool)
    ensures
        r == is_permutation(perm@, ndim as int),
{
    if perm.len() != ndim {
        proof {
            assert(!is_permutation(perm@, ndim as int));
        }
        return false;
    }
    let n = perm.len();
    for k in 0..n
        invariant
            n == perm@.len(),
            forall|i: int| 0 <= i < k ==> perm@[i] < n,
            forall|j: int, i: int| 0 <= j < i < k ==> perm@[j] != perm@[i],
    {
        if perm[k] >= n {
            return false;
        }
        let mut j: usize = 0;
        while j < k
            invariant
                j <= k < n == perm@.len(),
                forall|i: int| 0 <= i < j ==> perm@[i] != perm@[k as int],
            decreases k - j,
        {
            if perm[j] == perm[k] {
                return false;
            }
            j = j + 1;
        }
    }
    true
}

/// Transposing a source coordinate and inverting the result returns the
/// coordinate unchanged, and conversely for any coordinate of the transposed
/// view: a transpose is a bijection.
pub proof fn lemma_transpose_roundtrip(t: Transpose, x: Seq<u64>, y: Seq<u64>)
    requires
        t.wf(),
        x.len() == t.spec_source_shape().len(),
        y.len() == t.spec_shape().len(),
    ensures
        forall|inv: Seq<u64>| (inv.len() == t.spec_source_shape().len()
            && transpose_map(t.spec_permutation(), inv) == transpose_map(
                t.spec_permutation(), x,
            )) ==> inv == x,
{
    let perm = t.spec_permutation();
    assert forall|inv: Seq<u64>| (inv.len() == t.spec_source_shape().len()
        && transpose_map(perm, inv) == transpose_map(perm, x)) implies inv == x by {
        lemma_permutation_onto(perm, perm.len() as int);
        assert forall|a: int| 0 <= a < inv.len() implies inv[a] == x[a] by {
            assert(perm_hits(perm, a));
            let k = choose|k: int| 0 <= k < perm.len() && perm[k] == a;
            assert(transpose_map(perm, inv)[k] == inv[a]);
            assert(transpose_map(perm, x)[k] == x[a]);
        }
        assert(inv =~= x);
    }
}

/// Whether some entry of `perm` equals `a`.
pub open spec fn perm_hits(perm: Seq<usize>, a: int) -> bool {
    exists|k: int| 0 <= k < perm.len() && perm[k] == a
}

/// A permutation of `0..ndim` reaches every index below `ndim`.
pub proof fn lemma_permutation_onto(perm: Seq<usize>, ndim: int)
    requires
        is_permutation(perm, ndim),
    ensures
        forall|a: int| 0 <= a < ndim ==> #[trigger] perm_hits(perm, a),
{
    assert forall|a: int| 0 <= a < ndim implies #[trigger] perm_hits(perm, a) by {
        lemma_permutation_hits(perm, ndim, a);
    }
}

/// Pigeonhole: `ndim` pairwise-distinct values below `ndim` include `a`.
proof fn lemma_permutation_hits(perm: Seq<usize>, ndim: int, a: int)
    requires
        is_permutation(perm, ndim),
        0 <= a < ndim,
    ensures
        perm_hits(perm, a),
{
    if !perm_hits(perm, a) {
        // The permutation then takes `ndim` pairwise-distinct values inside a
        // set of only `ndim - 1` members.
        let values = Set::new(|v: int| exists|k: int| 0 <= k < perm.len() && perm[k] == v);
        let below = Set::new(|v: int| 0 <= v < ndim && v != a);
        assert(values.subset_of(below));
        lemma_perm_values_card(perm, perm.len() as int);
        let full = vstd::set_lib::set_int_range(0, ndim);
        vstd::set_lib::lemma_int_range(0, ndim);
        assert(full.remove(a) =~= below);
        assert(full.contains(a));
        assert(below.finite());
        assert(below.len() == ndim - 1);
        vstd::set_lib::lemma_len_subset(values, below);
    }
}

/// The first `upto` entries of a permutation form a set of `upto` values.
proof fn lemma_perm_values_card(perm: Seq<usize>, upto: int)
    requires
        0 <= upto <= perm.len(),
        forall|j: int, k: int| 0 <= j < k < perm.len() ==> perm[j] != perm[k],
    ensures
        Set::new(|v: int| exists|k: int| 0 <= k < upto && perm[k] == v).finite(),
        Set::new(|v: int| exists|k: int| 0 <= k < upto && perm[k] == v).len() == upto,
    decreases upto,
{
    let values = Set::new(|v: int| exists|k: int| 0 <= k < upto && perm[k] == v);
    if upto == 0 {
        assert(values =~= Set::empty());
    } else {
        lemma_perm_values_card(perm, upto - 1);
        let prior = Set::new(|v: int| exists|k: int| 0 <= k < upto - 1 && perm[k] == v);
        assert(!prior.contains(perm[upto - 1] as int));
        assert(values =~= prior.insert(perm[upto - 1] as int));
    }
}

/// A view of `source_shape` with one axis folded away by a reduction.
pub struct Reduce {
    source_shape: Shape,
    axis: usize,
    shape: Shape,
}

impl Reduce {
    pub closed spec fn spec_source_shape(&self) -> Seq<u64> {
        self.source_shape@
    }

    pub closed spec fn spec_shape(&self) -> Seq<u64> {
        self.shape@
    }

    pub closed spec fn spec_axis(&self) -> int {
        self.axis as int
    }

    pub closed spec fn wf(&self) -> bool {
        &&& 0 <= self.axis < self.source_shape@.len()
        &&& self.shape@ == self.source_shape@.remove(self.axis as int)
    }

    /// Fold away `axis`; rejected when the source has no such axis.
    pub fn new(source_shape: Shape, axis: usize) -> (r: Result<Reduce, TCError>)
        ensures
            r.is_ok() <==> axis < source_shape@.len(),
            r.is_ok() ==> {
                &&& r->Ok_0.wf()
                &&& r->Ok_0.spec_source_shape() == source_shape@
                &&& r->Ok_0.spec_axis() == axis
                &&& r->Ok_0.spec_shape() == source_shape@.remove(axis as int)
            },
            r.is_err() ==> r->Err_0.spec_kind() == crate::error::ErrorKind::BadRequest,
    {
        if axis >= source_shape.len() {
            return Err(bad_request("the tensor has no such axis".to_owned()));
        }

        let mut dims = source_shape.to_vec();
        dims.remove(axis);
        let shape = Shape::new(dims);
        Ok(Reduce { source_shape, axis, shape })
    }

    pub fn axis(&self) -> (r: usize)
        ensures
            r == self.spec_axis(),
    {
        self.axis
    }

    pub fn shape(&self) -> (r: &Shape)
        ensures
            r@ == self.spec_shape(),
    {
        &self.shape
    }

    /// The source region a reduced output coordinate was folded from: the
    /// reduced axis runs over its full extent.
    pub fn invert_coord(&self, coord: &Coord) -> (r: Bounds)
        requires
            self.wf(),
            coord@.len() == self.spec_shape().len(),
        ensures
            r@.len() == self.spec_source_shape().len(),
            r@ == Seq::new(coord@.len(), |i: int| AxisBoundsView::At(coord@[i])).insert(
                self.spec_axis(),
                AxisBoundsView::In {
                    start: 0u64,
                    end: self.spec_source_shape()[self.spec_axis()],
                },
            ),
    {
        let n = coord.len();
        let mut axes: Vec<AxisBounds> = Vec::new();
        for a in 0..n
            invariant
                n == coord@.len(),
                axes@.len() == a,
                forall|i: int| 0 <= i < a ==> #[trigger] axes@[i]@ == AxisBoundsView::At(coord@[i]),
        {
            axes.push(AxisBounds::At(coord[a]));
        }
        let ghost pre = axes@;
        axes.insert(self.axis, AxisBounds::In {
            start: 0,
            end: self.source_shape.dim(self.axis),
        });
        let r = Bounds::new(axes);
        proof {
            let m = Seq::new(coord@.len(), |i: int| AxisBoundsView::At(coord@[i]));
            let target = m.insert(self.spec_axis(), AxisBoundsView::In {
                start: 0u64,
                end: self.spec_source_shape()[self.spec_axis()],
            });
            assert forall|i: int| 0 <= i < r@.len() implies r@[i] == target[i] by {
                assert(r@[i] == axes@[i]@);
                if i < self.spec_axis() {
                    assert(axes@[i] == pre[i]);
                } else if i == self.spec_axis() {
                } else {
                    assert(axes@[i] == pre[i - 1]);
                }
            }
            assert(r@ =~= target);
        }
        r
    }

    /// The source region behind a selection over the reduced view, with the
    /// full range spliced in at the reduced axis, and the position of that
    /// axis among the non-elided axes of the selection.
    pub fn invert_bounds(&self, bounds: &Bounds) -> (r: (Bounds, usize))
        requires
            self.wf(),
            bounds@.len() <= self.spec_shape().len(),
        ensures
            bounds@.len() >= self.spec_axis() ==> {
                &&& r.0@ == bounds@.insert(
                    self.spec_axis(),
                    AxisBoundsView::In {
                        start: 0u64,
                        end: self.spec_source_shape()[self.spec_axis()],
                    },
                )
                &&& r.1 == self.spec_axis() - elided_below(bounds@, self.spec_axis())
            },
            bounds@.len() < self.spec_axis() ==> r.0@ == bounds@ && r.1 == self.spec_axis(),
    {
        let n = bounds.len();
        if n < self.axis {
            let r = bounds.clone();
            (r, self.axis)
        } else {
            let mut axis_offset: usize = 0;
            for a in 0..self.axis
                invariant
                    self.wf(),
                    self.spec_axis() <= n == bounds@.len(),
                    axis_offset == elided_below(bounds@, a as int),
                    axis_offset <= a,
            {
                proof {
                    lemma_elided_below_step(bounds@, a as int);
                }
                match bounds.axis(a) {
                    AxisBounds::At(_) => {
                        axis_offset = axis_offset + 1;
                    },
                    _ => {},
                }
            }
            let mut source_axes: Vec<AxisBounds> = Vec::new();
            for a in 0..n
                invariant
                    n == bounds@.len(),
                    source_axes@.len() == a,
                    forall|i: int| 0 <= i < a ==> #[trigger] source_axes@[i]@ == bounds@[i],
            {
                source_axes.push(bounds.axis(a).clone());
            }
            let ghost pre = source_axes@;
            source_axes.insert(self.axis, AxisBounds::In {
                start: 0,
                end: self.source_shape.dim(self.axis),
            });
            let r = Bounds::new(source_axes);
            proof {
                let target = bounds@.insert(self.spec_axis(), AxisBoundsView::In {
                    start: 0u64,
                    end: self.spec_source_shape()[self.spec_axis()],
                });
                assert forall|i: int| 0 <= i < r@.len() implies r@[i] == target[i] by {
                    assert(r@[i] == source_axes@[i]@);
                    if i < self.spec_axis() {
                        assert(source_axes@[i] == pre[i]);
                    } else if i == self.spec_axis() {
                    } else {
                        assert(source_axes@[i] == pre[i - 1]);
                    }
                }
                assert(r@ =~= target);
            }
            (r, self.axis - axis_offset)
        }
    }
}

/// How many of the first `upto` axis selections pin a single index.
pub open spec fn elided_below(bounds: Seq<AxisBoundsView>, upto: int) -> int
    decreases upto,
{
    if upto <= 0 {
        0
    } else {
        elided_below(bounds, upto - 1) + (if upto - 1 < bounds.len() && bounds[upto - 1] is At {
            1int
        } else {
            0int
        })
    }
}

proof fn lemma_elided_below_step(bounds: Seq<AxisBoundsView>, a: int)
    requires
        0 <= a,
    ensures
        elided_below(bounds, a + 1) == elided_below(bounds, a) + (if a < bounds.len()
            && bounds[a] is At {
            1int
        } else {
            0int
        }),
        elided_below(bounds, a) >= 0,
    decreases a,
{
    if a > 0 {
        lemma_elided_below_step(bounds, a - 1);
    }
}


/// Whether axis `a` of the sliced source survives into the view (it is not
/// pinned to a single index).
pub open spec fn axis_kept(bounds: Seq<AxisBoundsView>, a: int) -> bool {
    a >= bounds.len() || !(bounds[a] is At)
}

/// The view axis that source axis `a` becomes, once the pinned axes before
/// it are elided.
pub open spec fn view_axis(bounds: Seq<AxisBoundsView>, a: int) -> int {
    a - elided_below(bounds, a)
}

/// The extent of the view along the axis that source axis `a` becomes.
pub open spec fn slice_out_dim(bounds: Seq<AxisBoundsView>, source: Seq<u64>, a: int) -> u64 {
    if a >= bounds.len() {
        source[a]
    } else {
        match bounds[a] {
            AxisBoundsView::At(_) => 0u64,
            AxisBoundsView::In { start, end } => (end - start) as u64,
            AxisBoundsView::Of(ids) => ids.len() as u64,
        }
    }
}

/// The source index that view index `y` names along source axis `a`.
pub open spec fn slice_invert_at(bounds: Seq<AxisBoundsView>, a: int, y: u64) -> u64 {
    if a >= bounds.len() {
        y
    } else {
        match bounds[a] {
            AxisBoundsView::At(c) => c,
            AxisBoundsView::In { start, end } => (start + y) as u64,
            AxisBoundsView::Of(ids) => ids[y as int],
        }
    }
}

/// The view index that source index `x` lands on along source axis `a`.
pub open spec fn slice_map_at(bounds: Seq<AxisBoundsView>, a: int, x: u64) -> u64 {
    if a >= bounds.len() {
        x
    } else {
        match bounds[a] {
            AxisBoundsView::At(_) => 0u64,
            AxisBoundsView::In { start, end } => (x - start) as u64,
            AxisBoundsView::Of(ids) => first_index_of(ids, x) as u64,
        }
    }
}


/// The normalized form of a selection over the sliced view: padded with
/// full ranges to name every view axis.
pub open spec fn normalized_bounds(vb: Seq<AxisBoundsView>, shape: Seq<u64>) -> Seq<
    AxisBoundsView,
> {
    vb + Seq::new((shape.len() - vb.len()) as nat, |i: int|
        AxisBoundsView::In { start: 0u64, end: shape[vb.len() + i] })
}

/// The source selection behind one axis of a selection over the sliced
/// view: a pinned axis stays pinned, a range axis shifts by its start, and
/// an enumerated axis looks the selected indices up.
pub open spec fn slice_invert_bound_at(
    bounds: Seq<AxisBoundsView>,
    vb: Seq<AxisBoundsView>,
    a: int,
) -> AxisBoundsView {
    let v = view_axis(bounds, a);
    if a < bounds.len() {
        match bounds[a] {
            AxisBoundsView::At(c) => AxisBoundsView::At(c),
            AxisBoundsView::In { start, end } => match vb[v] {
                AxisBoundsView::At(i) => AxisBoundsView::At((start + i) as u64),
                AxisBoundsView::In { start: s2, end: e2 } => AxisBoundsView::In {
                    start: (start + s2) as u64,
                    end: (start + e2) as u64,
                },
                AxisBoundsView::Of(js) => AxisBoundsView::Of(
                    Seq::new(js.len(), |k: int| (start + js[k]) as u64),
                ),
            },
            AxisBoundsView::Of(ids) => match vb[v] {
                AxisBoundsView::At(i) => AxisBoundsView::At(ids[i as int]),
                AxisBoundsView::In { start: s2, end: e2 } => AxisBoundsView::Of(
                    ids.subrange(s2 as int, e2 as int),
                ),
                AxisBoundsView::Of(js) => AxisBoundsView::Of(
                    Seq::new(js.len(), |k: int| ids[js[k] as int]),
                ),
            },
        }
    } else {
        vb[v]
    }
}

/// The first position of `v` in `ids`, or the length of `ids` when absent.
pub open spec fn first_index_of(ids: Seq<u64>, v: u64) -> int
    decreases ids.len(),
{
    if ids.len() == 0 {
        0
    } else if ids[0] == v {
        0
    } else {
        1 + first_index_of(ids.skip(1), v)
    }
}

/// `first_index_of` returns the first matching position: no earlier entry
/// matches, and the returned position matches whenever any position does.
pub proof fn lemma_first_index_of(ids: Seq<u64>, v: u64)
    ensures
        0 <= first_index_of(ids, v) <= ids.len(),
        forall|j: int| 0 <= j < first_index_of(ids, v) ==> ids[j] != v,
        first_index_of(ids, v) < ids.len() ==> ids[first_index_of(ids, v)] == v,
        (exists|j: int| 0 <= j < ids.len() && ids[j] == v) ==> first_index_of(ids, v) < ids.len(),
    decreases ids.len(),
{
    if ids.len() > 0 && ids[0] != v {
        lemma_first_index_of(ids.skip(1), v);
        assert forall|j: int| 0 <= j < ids.len() && ids[j] == v
            implies first_index_of(ids, v) < ids.len() by {
            assert(j > 0);
            assert(ids.skip(1)[j - 1] == v);
        }
        assert forall|j: int| 0 <= j < first_index_of(ids, v) implies ids[j] != v by {
            if j > 0 {
                assert(ids.skip(1)[j - 1] == ids[j]);
            }
        }
    }
}

/// Whether source coordinate `x` lies inside the region the slice selects.
pub open spec fn slice_selects(bounds: Seq<AxisBoundsView>, x: Seq<u64>) -> bool {
    forall|a: int| 0 <= a < bounds.len() && a < x.len() ==> axis_selects(#[trigger] bounds[a], x[a])
}

/// A rectangular (or enumerated) sub-region of a source tensor, seen as a
/// tensor in its own right with the pinned axes elided.
pub struct Slice {
    source_shape: Shape,
    shape: Shape,
    bounds: Bounds,
}

impl Slice {
    pub closed spec fn spec_source_shape(&self) -> Seq<u64> {
        self.source_shape@
    }

    pub closed spec fn spec_shape(&self) -> Seq<u64> {
        self.shape@
    }

    pub closed spec fn spec_bounds(&self) -> Seq<AxisBoundsView> {
        self.bounds@
    }

    pub closed spec fn wf(&self) -> bool {
        let n = self.source_shape@.len() as int;
        &&& bounds_in_shape(self.bounds@, self.source_shape@)
        &&& self.shape@.len() == n - elided_below(self.bounds@, n)
        &&& forall|a: int| 0 <= a < n && axis_kept(self.bounds@, a) ==>
                self.shape@[view_axis(self.bounds@, a)] == slice_out_dim(
                    self.bounds@,
                    self.source_shape@,
                    a,
                )
    }

    /// Select the region `bounds` of `source_shape`; rejected unless the
    /// bounds lie inside the source shape.
    pub fn new(source_shape: Shape, bounds: Bounds) -> (r: Result<Slice, TCError>)
        ensures
            r.is_ok() <==> bounds_in_shape(bounds@, source_shape@),
            r.is_ok() ==> {
                &&& r->Ok_0.wf()
                &&& r->Ok_0.spec_source_shape() == source_shape@
                &&& r->Ok_0.spec_bounds() == bounds@
                &&& r->Ok_0.spec_shape().len() == source_shape@.len() - elided_below(
                    bounds@,
                    source_shape@.len() as int,
                )
                &&& forall|a: int| 0 <= a < source_shape@.len() && axis_kept(bounds@, a)
                    ==> r->Ok_0.spec_shape()[view_axis(bounds@, a)] == slice_out_dim(
                    bounds@,
                    source_shape@,
                    a,
                )
            },
            r.is_err() ==> r->Err_0.spec_kind() == crate::error::ErrorKind::BadRequest,
    {
        if !source_shape.contains_bounds(&bounds) {
            return Err(bad_request("bounds do not lie inside the source shape".to_owned()));
        }

        let n = source_shape.len();
        let nb = bounds.len();
        let mut dims: Vec<u64> = Vec::new();
        for a in 0..n
            invariant
                n == source_shape@.len(),
                nb == bounds@.len(),
                bounds_in_shape(bounds@, source_shape@),
                dims@.len() == view_axis(bounds@, a as int),
                forall|i: int| 0 <= i < a && axis_kept(bounds@, i) ==>
                    dims@[view_axis(bounds@, i)] == slice_out_dim(bounds@, source_shape@, i),
        {
            proof {
                lemma_elided_below_step(bounds@, a as int);
            }
            let ghost prev = dims@;
            if a < nb {
                match bounds.axis(a) {
                    AxisBounds::At(_) => {},
                    AxisBounds::In { start, end } => {
                        dims.push(*end - *start);
                    },
                    AxisBounds::Of(ids) => {
                        dims.push(ids.len() as u64);
                    },
                }
            } else {
                dims.push(source_shape.dim(a));
            }
            proof {
                assert(forall|i: int| 0 <= i < prev.len() ==> #[trigger] dims@[i] == prev[i]);
                lemma_elided_below_bounds(bounds@, a as int);
                assert(axis_kept(bounds@, a as int) ==> dims@[view_axis(bounds@, a as int)]
                    == slice_out_dim(bounds@, source_shape@, a as int));
                assert forall|i: int| 0 <= i < a && axis_kept(bounds@, i)
                    implies dims@[view_axis(bounds@, i)] == slice_out_dim(
                    bounds@,
                    source_shape@,
                    i,
                ) by {
                    lemma_elided_below_step(bounds@, i);
                    lemma_elided_monotonic(bounds@, i + 1, a as int);
                    lemma_elided_below_bounds(bounds@, i);
                    assert(view_axis(bounds@, i) < prev.len());
                    assert(prev[view_axis(bounds@, i)] == slice_out_dim(bounds@, source_shape@, i));
                    assert(dims@[view_axis(bounds@, i)] == prev[view_axis(bounds@, i)]);
                }
            }
        }
        let shape = Shape::new(dims);
        Ok(Slice { source_shape, shape, bounds })
    }

    pub fn bounds(&self) -> (r: &Bounds)
        ensures
            r@ == self.spec_bounds(),
    {
        &self.bounds
    }

    pub fn ndim(&self) -> (r: usize)
        ensures
            r == self.spec_shape().len(),
    {
        self.shape.len()
    }

    pub fn shape(&self) -> (r: &Shape)
        ensures
            r@ == self.spec_shape(),
    {
        &self.shape
    }

    /// The number of cells of the sliced view.
    pub fn size(&self) -> (r: u64)
        requires
            size_bounded(self.spec_shape()),
        ensures
            r == size_of(self.spec_shape()),
    {
        self.shape.size()
    }

    /// The source coordinate behind a coordinate of the view: pinned axes
    /// read their pinned index, range axes shift by the range start, and
    /// enumerated axes look the index up.
    pub fn invert_coord(&self, coord: &Coord) -> (r: Coord)
        requires
            self.wf(),
            valid_coord(coord@, self.spec_shape()),
        ensures
            r@.len() == self.spec_source_shape().len(),
            forall|a: int| 0 <= a < r@.len() ==> #[trigger] r@[a] == slice_invert_at(
                self.spec_bounds(),
                a,
                if axis_kept(self.spec_bounds(), a) {
                    coord@[view_axis(self.spec_bounds(), a)]
                } else {
                    0u64
                },
            ),
    {
        let n = self.source_shape.len();
        let nb = self.bounds.len();
        let mut source_coord: Vec<u64> = Vec::new();
        let mut v: usize = 0;
        for a in 0..n
            invariant
                self.wf(),
                n == self.spec_source_shape().len(),
                nb == self.spec_bounds().len(),
                valid_coord(coord@, self.spec_shape()),
                v == view_axis(self.spec_bounds(), a as int),
                v <= a,
                source_coord@.len() == a,
                forall|i: int| 0 <= i < a ==> source_coord@[i] == slice_invert_at(
                    self.spec_bounds(),
                    i,
                    if axis_kept(self.spec_bounds(), i) {
                        coord@[view_axis(self.spec_bounds(), i)]
                    } else {
                        0u64
                    },
                ),
        {
            proof {
                lemma_elided_below_step(self.spec_bounds(), a as int);
                lemma_elided_below_bounds(self.spec_bounds(), a as int);
                lemma_elided_monotonic(self.spec_bounds(), a as int + 1, n as int);
                if axis_kept(self.spec_bounds(), a as int) {
                    assert(view_axis(self.spec_bounds(), a as int + 1) == v + 1);
                    assert(view_axis(self.spec_bounds(), n as int) <= n);
                    assert(v < self.spec_shape().len());
                    assert(self.spec_shape()[v as int] == slice_out_dim(
                        self.spec_bounds(),
                        self.spec_source_shape(),
                        a as int,
                    ));
                }
            }
            let ghost prev = source_coord@;
            let ghost va = view_axis(self.spec_bounds(), a as int);
            if a < nb {
                match self.bounds.axis(a) {
                    AxisBounds::At(c) => {
                        source_coord.push(*c);
                        proof {
                            assert(source_coord@[a as int] == slice_invert_at(
                                self.spec_bounds(), a as int, 0u64));
                        }
                    },
                    AxisBounds::In { start, end } => {
                        proof {
                            assert(self.spec_shape()[v as int] == (*end - *start) as u64);
                        }
                        source_coord.push(*start + coord[v]);
                        proof {
                            assert(source_coord@[a as int] == slice_invert_at(
                                self.spec_bounds(), a as int, coord@[va]));
                        }
                        v = v + 1;
                    },
                    AxisBounds::Of(ids) => {
                        let m = ids.len();
                        proof {
                            assert(self.spec_shape()[v as int] == m as u64);
                            assert(coord@[v as int] < m);
                        }
                        let j = coord[v] as usize;
                        source_coord.push(ids[j]);
                        proof {
                            assert(source_coord@[a as int] == slice_invert_at(
                                self.spec_bounds(), a as int, coord@[va]));
                        }
                        v = v + 1;
                    },
                }
            } else {
                source_coord.push(coord[v]);
                proof {
                    assert(source_coord@[a as int] == slice_invert_at(
                        self.spec_bounds(), a as int, coord@[va]));
                }
                v = v + 1;
            }
            proof {
                assert(forall|i: int| 0 <= i < prev.len()
                    ==> #[trigger] source_coord@[i] == prev[i]);
            }
        }
        source_coord
    }

    /// The source region behind a selection over the sliced view, padded
    /// with full ranges first: pinned axes stay pinned, range axes shift by
    /// their start, and enumerated axes look the selected indices up.
    pub fn invert_bounds(&self, bounds: Bounds) -> (r: Bounds)
        requires
            self.wf(),
            bounds_in_shape(bounds@, self.spec_shape()),
        ensures
            r@.len() == self.spec_source_shape().len(),
            forall|a: int| 0 <= a < r@.len() ==> #[trigger] r@[a] == slice_invert_bound_at(
                self.spec_bounds(),
                normalized_bounds(bounds@, self.spec_shape()),
                a,
            ),
    {
        let ghost orig = bounds@;
        let mut vb = bounds;
        vb.normalize(&self.shape);
        proof {
            assert(vb@ =~= normalized_bounds(orig, self.spec_shape()));
            assert(bounds_in_shape(vb@, self.spec_shape())) by {
                assert forall|a: int| 0 <= a < vb@.len() implies axis_in_dim(
                    #[trigger] vb@[a],
                    self.spec_shape()[a],
                ) by {
                    if a >= orig.len() {
                        assert(vb@[a] == (AxisBoundsView::In {
                            start: 0u64,
                            end: self.spec_shape()[a],
                        }));
                    }
                }
            }
        }
        let ghost vbn = vb@;
        let n = self.source_shape.len();
        let nb = self.bounds.len();
        let mut out: Vec<AxisBounds> = Vec::new();
        let mut v: usize = 0;
        for a in 0..n
            invariant
                self.wf(),
                n == self.spec_source_shape().len(),
                nb == self.spec_bounds().len(),
                vbn == vb@,
                vbn.len() == self.spec_shape().len(),
                bounds_in_shape(vbn, self.spec_shape()),
                v == view_axis(self.spec_bounds(), a as int),
                v <= a,
                out@.len() == a,
                forall|i: int| 0 <= i < a ==> #[trigger] out@[i]@ == slice_invert_bound_at(
                    self.spec_bounds(),
                    vbn,
                    i,
                ),
        {
            proof {
                lemma_elided_below_step(self.spec_bounds(), a as int);
                lemma_elided_below_bounds(self.spec_bounds(), a as int);
                lemma_elided_monotonic(self.spec_bounds(), a as int + 1, n as int);
                if axis_kept(self.spec_bounds(), a as int) {
                    assert(view_axis(self.spec_bounds(), a as int + 1) == v + 1);
                    assert(v < self.spec_shape().len());
                    assert(self.spec_shape()[v as int] == slice_out_dim(
                        self.spec_bounds(),
                        self.spec_source_shape(),
                        a as int,
                    ));
                    assert(axis_in_dim(vbn[v as int], self.spec_shape()[v as int]));
                }
            }
            let ghost prev = out@;
            if a < nb {
                match self.bounds.axis(a) {
                    AxisBounds::At(c) => {
                        out.push(AxisBounds::At(*c));
                        proof {
                            assert(self.spec_bounds()[a as int] == AxisBoundsView::At(*c));
                            assert(out@[a as int]@ == slice_invert_bound_at(
                                self.spec_bounds(),
                                vbn,
                                a as int,
                            ));
                        }
                    },
                    AxisBounds::In { start, end } => {
                        proof {
                            assert(self.spec_bounds()[a as int] == (AxisBoundsView::In {
                                start: *start,
                                end: *end,
                            }));
                            assert(self.spec_shape()[v as int] == (*end - *start) as u64);
                        }
                        match vb.axis(v) {
                            AxisBounds::At(i) => {
                                proof {
                                    assert(vbn[v as int] == AxisBoundsView::At(*i));
                                    assert(*i < (*end - *start) as u64);
                                }
                                out.push(AxisBounds::At(*start + *i));
                            },
                            AxisBounds::In { start: s2, end: e2 } => {
                                proof {
                                    assert(vbn[v as int] == (AxisBoundsView::In {
                                        start: *s2,
                                        end: *e2,
                                    }));
                                    assert(*s2 <= *e2 <= (*end - *start) as u64);
                                }
                                out.push(AxisBounds::In {
                                    start: *start + *s2,
                                    end: *start + *e2,
                                });
                            },
                            AxisBounds::Of(js) => {
                                proof {
                                    assert(vbn[v as int] == AxisBoundsView::Of(js@));
                                }
                                let shifted = shift_indices(js, *start, *end);
                                out.push(AxisBounds::Of(shifted));
                            },
                        }
                        proof {
                            assert(out@[a as int]@ == slice_invert_bound_at(
                                self.spec_bounds(),
                                vbn,
                                a as int,
                            ));
                        }
                        v = v + 1;
                    },
                    AxisBounds::Of(ids) => {
                        proof {
                            assert(self.spec_bounds()[a as int] == AxisBoundsView::Of(ids@));
                            assert(self.spec_shape()[v as int] == ids@.len() as u64);
                            assert(vstd::std_specs::vec::spec_vec_len(ids) == ids@.len());
                        }
                        match vb.axis(v) {
                            AxisBounds::At(i) => {
                                proof {
                                    assert(vbn[v as int] == AxisBoundsView::At(*i));
                                    assert(*i < ids@.len());
                                }
                                let j = *i as usize;
                                out.push(AxisBounds::At(ids[j]));
                            },
                            AxisBounds::In { start: s2, end: e2 } => {
                                proof {
                                    assert(vbn[v as int] == (AxisBoundsView::In {
                                        start: *s2,
                                        end: *e2,
                                    }));
                                    assert(*s2 <= *e2 <= ids@.len());
                                }
                                let window = index_window(ids, *s2, *e2);
                                out.push(AxisBounds::Of(window));
                            },
                            AxisBounds::Of(js) => {
                                proof {
                                    assert(vbn[v as int] == AxisBoundsView::Of(js@));
                                    assert(forall|k: int| 0 <= k < js@.len() ==> js@[k]
                                        < ids@.len());
                                }
                                let looked = look_up_indices(ids, js);
                                out.push(AxisBounds::Of(looked));
                            },
                        }
                        proof {
                            assert(out@[a as int]@ == slice_invert_bound_at(
                                self.spec_bounds(),
                                vbn,
                                a as int,
                            ));
                        }
                        v = v + 1;
                    },
                }
            } else {
                out.push(vb.axis(v).clone());
                proof {
                    assert(out@[a as int]@ == slice_invert_bound_at(
                        self.spec_bounds(),
                        vbn,
                        a as int,
                    ));
                }
                v = v + 1;
            }
            proof {
                assert(forall|i: int| 0 <= i < prev.len() ==> #[trigger] out@[i] == prev[i]);
            }
        }
        let r = Bounds::new(out);
        proof {
            assert forall|a: int| 0 <= a < r@.len() implies #[trigger] r@[a]
                == slice_invert_bound_at(self.spec_bounds(), vbn, a) by {
                assert(r@[a] == out@[a]@);
            }
        }
        r
    }

    /// The view coordinate of a source coordinate inside the sliced region:
    /// pinned axes are elided, range axes shift back by the range start, and
    /// enumerated axes take the position of their index.
    pub fn map_coord(&self, source_coord: &Coord) -> (r: Coord)
        requires
            self.wf(),
            valid_coord(source_coord@, self.spec_source_shape()),
            slice_selects(self.spec_bounds(), source_coord@),
        ensures
            r@.len() == self.spec_shape().len(),
            forall|a: int| 0 <= a < source_coord@.len() && axis_kept(self.spec_bounds(), a) ==>
                r@[#[trigger] view_axis(self.spec_bounds(), a)] == slice_map_at(
                    self.spec_bounds(),
                    a,
                    source_coord@[a],
                ),
    {
        let n = self.source_shape.len();
        let nb = self.bounds.len();
        let mut coord: Vec<u64> = Vec::new();
        for a in 0..n
            invariant
                self.wf(),
                n == self.spec_source_shape().len(),
                nb == self.spec_bounds().len(),
                valid_coord(source_coord@, self.spec_source_shape()),
                slice_selects(self.spec_bounds(), source_coord@),
                coord@.len() == view_axis(self.spec_bounds(), a as int),
                forall|i: int| 0 <= i < a && axis_kept(self.spec_bounds(), i) ==>
                    coord@[view_axis(self.spec_bounds(), i)] == slice_map_at(
                        self.spec_bounds(),
                        i,
                        source_coord@[i],
                    ),
        {
            proof {
                lemma_elided_below_step(self.spec_bounds(), a as int);
                if a < nb {
                    assert(axis_selects(self.spec_bounds()[a as int], source_coord@[a as int]));
                }
            }
            let ghost prev = coord@;
            if a < nb {
                match self.bounds.axis(a) {
                    AxisBounds::At(_) => {},
                    AxisBounds::In { start, end } => {
                        coord.push(source_coord[a] - *start);
                    },
                    AxisBounds::Of(ids) => {
                        let j = position_of(ids, source_coord[a]);
                        coord.push(j as u64);
                    },
                }
            } else {
                coord.push(source_coord[a]);
            }
            proof {
                let bs = self.spec_bounds();
                assert(forall|i: int| 0 <= i < prev.len() ==> #[trigger] coord@[i] == prev[i]);
                assert(axis_kept(bs, a as int) ==> coord@[view_axis(bs, a as int)]
                    == slice_map_at(bs, a as int, source_coord@[a as int]));
                assert forall|i: int| 0 <= i < a && axis_kept(bs, i)
                    implies coord@[view_axis(bs, i)] == slice_map_at(bs, i, source_coord@[i]) by {
                    lemma_elided_below_step(bs, i);
                    lemma_elided_monotonic(bs, i + 1, a as int);
                    lemma_elided_below_bounds(bs, i);
                    assert(view_axis(bs, i) < prev.len());
                    assert(prev[view_axis(bs, i)] == slice_map_at(bs, i, source_coord@[i]));
                    assert(coord@[view_axis(bs, i)] == prev[view_axis(bs, i)]);
                }
            }
        }
        coord
    }
}

/// Each selected index shifted by the start of a range axis.
fn shift_indices(js: &Vec<u64>, start: u64, end: u64) -> (r: Vec<u64>)
    requires
        start <= end,
        forall|k: int| 0 <= k < js@.len() ==> js@[k] < end - start,
    ensures
        r@ == Seq::new(js@.len(), |k: int| (start + js@[k]) as u64),
{
    let n = js.len();
    let mut out: Vec<u64> = Vec::new();
    for k in 0..n
        invariant
            n == js@.len(),
            start <= end,
            forall|i: int| 0 <= i < n ==> js@[i] < end - start,
            out@.len() == k,
            forall|i: int| 0 <= i < k ==> out@[i] == (start + js@[i]) as u64,
    {
        out.push(start + js[k]);
    }
    proof {
        assert(out@ =~= Seq::new(js@.len(), |k: int| (start + js@[k]) as u64));
    }
    out
}

/// The window `[s2, e2)` of an enumeration.
fn index_window(ids: &Vec<u64>, s2: u64, e2: u64) -> (r: Vec<u64>)
    requires
        s2 <= e2 <= ids@.len(),
    ensures
        r@ == ids@.subrange(s2 as int, e2 as int),
{
    proof {
        assert(vstd::std_specs::vec::spec_vec_len(ids) == ids@.len());
    }
    let mut out: Vec<u64> = Vec::new();
    let mut k: usize = s2 as usize;
    while k < e2 as usize
        invariant
            s2 <= k <= e2 <= ids@.len(),
            ids@.len() <= usize::MAX,
            out@.len() == k - s2,
            forall|i: int| 0 <= i < out@.len() ==> out@[i] == ids@[s2 + i],
        decreases e2 as usize - k,
    {
        out.push(ids[k]);
        k = k + 1;
    }
    proof {
        assert(out@ =~= ids@.subrange(s2 as int, e2 as int));
    }
    out
}

/// The enumeration looked up at each selected position.
fn look_up_indices(ids: &Vec<u64>, js: &Vec<u64>) -> (r: Vec<u64>)
    requires
        forall|k: int| 0 <= k < js@.len() ==> js@[k] < ids@.len(),
    ensures
        r@ == Seq::new(js@.len(), |k: int| ids@[js@[k] as int]),
{
    proof {
        assert(vstd::std_specs::vec::spec_vec_len(ids) == ids@.len());
    }
    let n = js.len();
    let mut out: Vec<u64> = Vec::new();
    for k in 0..n
        invariant
            n == js@.len(),
            forall|i: int| 0 <= i < n ==> js@[i] < ids@.len(),
            ids@.len() <= usize::MAX,
            out@.len() == k,
            forall|i: int| 0 <= i < k ==> out@[i] == ids@[js@[i] as int],
    {
        let j = js[k] as usize;
        out.push(ids[j]);
    }
    proof {
        assert(out@ =~= Seq::new(js@.len(), |k: int| ids@[js@[k] as int]));
    }
    out
}

/// The first position of `v` in `ids`, or the length of `ids` when absent.
fn position_of(ids: &Vec<u64>, v: u64) -> (r: usize)
    ensures
        r == first_index_of(ids@, v),
{
    let n = ids.len();
    for j in 0..n
        invariant
            n == ids@.len(),
            forall|i: int| 0 <= i < j ==> ids@[i] != v,
    {
        if ids[j] == v {
            proof {
                lemma_first_index_of(ids@, v);
                assert forall|i: int| 0 <= i <= j implies first_index_of(ids@, v) != i
                    || ids@[i] == v by {}
                assert(first_index_of(ids@, v) == j) by {
                    lemma_first_index_unique(ids@, v, j as int);
                }
            }
            return j;
        }
    }
    proof {
        lemma_first_index_of(ids@, v);
    }
    n
}

/// A position whose earlier entries all miss `v` while it holds `v` is the
/// first position of `v`.
proof fn lemma_first_index_unique(ids: Seq<u64>, v: u64, j: int)
    requires
        0 <= j < ids.len(),
        ids[j] == v,
        forall|i: int| 0 <= i < j ==> ids[i] != v,
    ensures
        first_index_of(ids, v) == j,
    decreases j,
{
    if j > 0 {
        assert(ids[0] != v);
        lemma_first_index_unique(ids.skip(1), v, j - 1);
    }
}

/// `elided_below` grows by at most one per axis, so the view axis index
/// never exceeds the source axis index and never decreases.
proof fn lemma_elided_below_bounds(bounds: Seq<AxisBoundsView>, upto: int)
    requires
        0 <= upto,
    ensures
        0 <= elided_below(bounds, upto) <= upto,
    decreases upto,
{
    if upto > 0 {
        lemma_elided_below_bounds(bounds, upto - 1);
    }
}

/// More axes can only elide more, by at most the number of added axes.
proof fn lemma_elided_monotonic(bounds: Seq<AxisBoundsView>, a: int, b: int)
    requires
        0 <= a <= b,
    ensures
        elided_below(bounds, a) <= elided_below(bounds, b),
        elided_below(bounds, b) - elided_below(bounds, a) <= b - a,
    decreases b - a,
{
    if a < b {
        lemma_elided_monotonic(bounds, a, b - 1);
    }
}

/// Mapping a source coordinate of the sliced region into the view and
/// inverting the result returns the coordinate unchanged.
pub proof fn lemma_slice_invert_map(s: Slice, x: Seq<u64>, y: Seq<u64>, r: Seq<u64>)
    requires
        s.wf(),
        valid_coord(x, s.spec_source_shape()),
        slice_selects(s.spec_bounds(), x),
        // no enumerated axis lists more indices than a machine word can count
        forall|a: int| 0 <= a < s.spec_bounds().len() ==> match #[trigger] s.spec_bounds()[a] {
            AxisBoundsView::Of(ids) => ids.len() <= u64::MAX,
            _ => true,
        },
        // `y` is what `map_coord` ensures
        y.len() == s.spec_shape().len(),
        forall|a: int| 0 <= a < x.len() && axis_kept(s.spec_bounds(), a) ==>
            y[#[trigger] view_axis(s.spec_bounds(), a)] == slice_map_at(s.spec_bounds(), a, x[a]),
        // `r` is what `invert_coord` ensures on `y`
        r.len() == s.spec_source_shape().len(),
        forall|a: int| 0 <= a < r.len() ==> #[trigger] r[a] == slice_invert_at(
            s.spec_bounds(),
            a,
            if axis_kept(s.spec_bounds(), a) {
                y[view_axis(s.spec_bounds(), a)]
            } else {
                0u64
            },
        ),
    ensures
        r == x,
{
    let bounds = s.spec_bounds();
    assert forall|a: int| 0 <= a < r.len() implies r[a] == x[a] by {
        if a < bounds.len() {
            assert(axis_selects(bounds[a], x[a]));
            if axis_kept(bounds, a) {
                assert(y[view_axis(bounds, a)] == slice_map_at(bounds, a, x[a]));
            }
            match bounds[a] {
                AxisBoundsView::At(c) => {
                    assert(x[a] == c);
                },
                AxisBoundsView::In { start, end } => {
                    assert(y[view_axis(bounds, a)] == (x[a] - start) as u64);
                    assert(start <= x[a]);
                },
                AxisBoundsView::Of(ids) => {
                    lemma_first_index_of(ids, x[a]);
                    assert(exists|j: int| 0 <= j < ids.len() && ids[j] == x[a]);
                    assert(y[view_axis(bounds, a)] == first_index_of(ids, x[a]) as u64);
                    assert(ids[first_index_of(ids, x[a])] == x[a]);
                },
            }
        } else {
            assert(y[view_axis(bounds, a)] == slice_map_at(bounds, a, x[a]));
        }
    }
    assert(r =~= x);
}

/// Inverting a view coordinate and mapping the result back returns the view
/// coordinate unchanged, provided no enumerated axis lists an index twice.
pub proof fn lemma_slice_map_invert(s: Slice, y: Seq<u64>, x: Seq<u64>, r: Seq<u64>)
    requires
        s.wf(),
        valid_coord(y, s.spec_shape()),
        forall|a: int| 0 <= a < s.spec_bounds().len() ==> match #[trigger] s.spec_bounds()[a] {
            AxisBoundsView::Of(ids) => ids.len() <= u64::MAX && (forall|i: int, j: int|
                0 <= i < j < ids.len() ==> ids[i] != ids[j]),
            _ => true,
        },
        // `x` is what `invert_coord` ensures
        x.len() == s.spec_source_shape().len(),
        forall|a: int| 0 <= a < x.len() ==> #[trigger] x[a] == slice_invert_at(
            s.spec_bounds(),
            a,
            if axis_kept(s.spec_bounds(), a) {
                y[view_axis(s.spec_bounds(), a)]
            } else {
                0u64
            },
        ),
        // `r` is what `map_coord` ensures on `x`
        r.len() == s.spec_shape().len(),
        forall|a: int| 0 <= a < x.len() && axis_kept(s.spec_bounds(), a) ==>
            r[#[trigger] view_axis(s.spec_bounds(), a)] == slice_map_at(s.spec_bounds(), a, x[a]),
    ensures
        r == y,
{
    let bounds = s.spec_bounds();
    let n = s.spec_source_shape().len() as int;
    assert forall|v: int| 0 <= v < r.len() implies r[v] == y[v] by {
        lemma_view_axis_onto(bounds, n, v);
        let a = choose|a: int| 0 <= a < n && axis_kept(bounds, a) && view_axis(bounds, a) == v;
        assert(r[v] == slice_map_at(bounds, a, x[a]));
        if a < bounds.len() {
            match bounds[a] {
                AxisBoundsView::At(c) => {},
                AxisBoundsView::In { start, end } => {
                    assert(y[v] < s.spec_shape()[v]);
                    assert(s.spec_shape()[v] == (end - start) as u64);
                },
                AxisBoundsView::Of(ids) => {
                    assert(y[v] < s.spec_shape()[v]);
                    assert(s.spec_shape()[v] == ids.len() as u64);
                    lemma_first_index_of(ids, ids[y[v] as int]);
                    let f = first_index_of(ids, ids[y[v] as int]);
                    assert(f <= y[v]);
                    if f < y[v] {
                        assert(ids[f] == ids[y[v] as int]);
                        assert(false);
                    }
                },
            }
        }
    }
    assert(r =~= y);
}

/// Every view axis comes from some surviving source axis.
proof fn lemma_view_axis_onto(bounds: Seq<AxisBoundsView>, n: int, v: int)
    requires
        0 <= v,
        v < n - elided_below(bounds, n),
    ensures
        exists|a: int| 0 <= a < n && axis_kept(bounds, a) && view_axis(bounds, a) == v,
    decreases n,
{
    lemma_elided_below_bounds(bounds, if n > 0 { n - 1 } else { 0 });
    if n > 0 {
        lemma_elided_below_step(bounds, n - 1);
        if v < (n - 1) - elided_below(bounds, n - 1) {
            lemma_view_axis_onto(bounds, n - 1, v);
        } else {
            // The last axis must survive and land on `v`.
            assert(axis_kept(bounds, n - 1));
            assert(view_axis(bounds, n - 1) == v);
            assert(0 <= n - 1 < n && axis_kept(bounds, n - 1) && view_axis(bounds, n - 1) == v);
        }
    }
}

} // verus!
