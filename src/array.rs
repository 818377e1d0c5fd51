//! Grids of magnitude levels, orientation angles and edge flags, each kept in
//! an `ndarray::Array3` indexed by (row, column, channel).
use ndarray::Array3;
use vstd::prelude::*;

verus! {

/// Whether `ndarray` can allocate a grid of this shape: the product of the
/// non-zero extents must fit in `isize`.
pub open spec fn shape_fits(rows: usize, cols: usize, channels: usize) -> bool {
    (if rows == 0 { 1int } else { rows as int }) * (if cols == 0 { 1int } else { cols as int })
        * (if channels == 0 { 1int } else { channels as int }) <= isize::MAX as int
}

pub open spec fn in_shape(s: (usize, usize, usize), i: int, j: int, k: int) -> bool {
    0 <= i < s.0 && 0 <= j < s.1 && 0 <= k < s.2
}

/// A grid of non-negative magnitude levels. Levels are compared only by
/// order, so any order-preserving encoding of a magnitude can be used.
#[verifier::external_body]
pub struct LevelGrid {
    a: Array3<u64>,
}

/// A grid of orientation angles, in thousandths of a degree.
#[verifier::external_body]
pub struct AngleGrid {
    a: Array3<i64>,
}

/// A grid of edge flags.
#[verifier::external_body]
pub struct EdgeMask {
    a: Array3<bool>,
}

/// The cells of a level grid, by (row, column, channel).
pub uninterp spec fn level_cells(g: LevelGrid) -> Map<(int, int, int), u64>;

/// The extents of a level grid.
pub uninterp spec fn level_shape(g: LevelGrid) -> (usize, usize, usize);

/// The cells of an angle grid, by (row, column, channel).
pub uninterp spec fn angle_cells(g: AngleGrid) -> Map<(int, int, int), i64>;

/// The extents of an angle grid.
pub uninterp spec fn angle_shape(g: AngleGrid) -> (usize, usize, usize);

/// The cells of an edge mask, by (row, column, channel).
pub uninterp spec fn flag_cells(g: EdgeMask) -> Map<(int, int, int), bool>;

/// The extents of an edge mask.
pub uninterp spec fn flag_shape(g: EdgeMask) -> (usize, usize, usize);

impl LevelGrid {
    pub open spec fn shape(&self) -> (usize, usize, usize) {
        level_shape(*self)
    }

    pub open spec fn cell(&self, i: int, j: int, k: int) -> u64 {
        level_cells(*self)[(i, j, k)]
    }

    /// Relies on `Array3::from_elem`: every cell of the given shape holds `v`.
    #[verifier::external_body]
    pub(crate) fn from_elem(rows: usize, cols: usize, channels: usize, v: u64) -> (r: LevelGrid)
        requires
            shape_fits(rows, cols, channels),
        ensures
            level_shape(r) == (rows, cols, channels),
            forall|i: int, j: int, k: int|
                in_shape((rows, cols, channels), i, j, k) ==> level_cells(r)[(i, j, k)] == v,
    {
        LevelGrid { a: Array3::from_elem((rows, cols, channels), v) }
    }

    /// Relies on `ArrayBase::dim`: the extent of each axis. That the extents
    /// fit is an invariant of every `ArrayBase`.
    #[verifier::external_body]
    pub(crate) fn dims(&self) -> (r: (usize, usize, usize))
        ensures
            r == level_shape(*self),
            shape_fits(r.0, r.1, r.2),
    {
        self.a.dim()
    }

    /// Relies on indexing an `ArrayBase` by `[row, column, channel]`.
    #[verifier::external_body]
    pub(crate) fn at(&self, i: usize, j: usize, k: usize) -> (r: u64)
        requires
            in_shape(level_shape(*self), i as int, j as int, k as int),
        ensures
            r == level_cells(*self)[(i as int, j as int, k as int)],
    {
        self.a[[i, j, k]]
    }

    /// Relies on `IndexMut` of an `ArrayBase` by `[row, column, channel]`.
    #[verifier::external_body]
    pub(crate) fn put(&mut self, i: usize, j: usize, k: usize, v: u64)
        requires
            in_shape(level_shape(*old(self)), i as int, j as int, k as int),
        ensures
            level_shape(*final(self)) == level_shape(*old(self)),
            level_cells(*final(self)) == level_cells(*old(self)).insert(
                (i as int, j as int, k as int),
                v,
            ),
    {
        self.a[[i, j, k]] = v;
    }

    /// A grid of the given shape with every cell set to `v`; `None` where
    /// the shape is too large to allocate.
    pub fn new(rows: usize, cols: usize, channels: usize, v: u64) -> (r: Option<LevelGrid>)
        ensures
            r is Some <==> shape_fits(rows, cols, channels),
            r matches Some(g) ==> g.shape() == (rows, cols, channels) && forall|i: int, j: int, k: int|
                in_shape((rows, cols, channels), i, j, k) ==> #[trigger] g.cell(i, j, k) == v,
    {
        if fits(rows, cols, channels) {
            Some(LevelGrid::from_elem(rows, cols, channels, v))
        } else {
            None
        }
    }

    /// The extents (rows, columns, channels).
    pub fn extent(&self) -> (r: (usize, usize, usize))
        ensures
            r == self.shape(),
    {
        self.dims()
    }

    /// The cell at (row, column, channel), or `None` outside the grid.
    pub fn get(&self, i: usize, j: usize, k: usize) -> (r: Option<u64>)
        ensures
            r is Some <==> in_shape(self.shape(), i as int, j as int, k as int),
            r matches Some(v) ==> v == self.cell(i as int, j as int, k as int),
    {
        let s = self.dims();
        if i < s.0 && j < s.1 && k < s.2 {
            Some(self.at(i, j, k))
        } else {
            None
        }
    }

    /// Sets the cell at (row, column, channel); returns whether it lies in
    /// the grid. Outside the grid nothing changes.
    pub fn set(&mut self, i: usize, j: usize, k: usize, v: u64) -> (r: bool)
        ensures
            r == in_shape(old(self).shape(), i as int, j as int, k as int),
            final(self).shape() == old(self).shape(),
            r ==> level_cells(*final(self)) == level_cells(*old(self)).insert((i as int, j as int, k as int), v),
            !r ==> *final(self) == *old(self),
    {
        let s = self.dims();
        if i < s.0 && j < s.1 && k < s.2 {
            self.put(i, j, k, v);
            true
        } else {
            false
        }
    }
}


impl AngleGrid {
    pub open spec fn shape(&self) -> (usize, usize, usize) {
        angle_shape(*self)
    }

    pub open spec fn cell(&self, i: int, j: int, k: int) -> i64 {
        angle_cells(*self)[(i, j, k)]
    }

    /// Relies on `Array3::from_elem`: every cell of the given shape holds `v`.
    #[verifier::external_body]
    pub(crate) fn from_elem(rows: usize, cols: usize, channels: usize, v: i64) -> (r: AngleGrid)
        requires
            shape_fits(rows, cols, channels),
        ensures
            angle_shape(r) == (rows, cols, channels),
            forall|i: int, j: int, k: int|
                in_shape((rows, cols, channels), i, j, k) ==> angle_cells(r)[(i, j, k)] == v,
    {
        AngleGrid { a: Array3::from_elem((rows, cols, channels), v) }
    }

    /// Relies on `ArrayBase::dim`: the extent of each axis. That the extents
    /// fit is an invariant of every `ArrayBase`.
    #[verifier::external_body]
    pub(crate) fn dims(&self) -> (r: (usize, usize, usize))
        ensures
            r == angle_shape(*self),
            shape_fits(r.0, r.1, r.2),
    {
        self.a.dim()
    }

    /// Relies on indexing an `ArrayBase` by `[row, column, channel]`.
    #[verifier::external_body]
    pub(crate) fn at(&self, i: usize, j: usize, k: usize) -> (r: i64)
        requires
            in_shape(angle_shape(*self), i as int, j as int, k as int),
        ensures
            r == angle_cells(*self)[(i as int, j as int, k as int)],
    {
        self.a[[i, j, k]]
    }

    /// Relies on `IndexMut` of an `ArrayBase` by `[row, column, channel]`.
    #[verifier::external_body]
    pub(crate) fn put(&mut self, i: usize, j: usize, k: usize, v: i64)
        requires
            in_shape(angle_shape(*old(self)), i as int, j as int, k as int),
        ensures
            angle_shape(*final(self)) == angle_shape(*old(self)),
            angle_cells(*final(self)) == angle_cells(*old(self)).insert(
                (i as int, j as int, k as int),
                v,
            ),
    {
        self.a[[i, j, k]] = v;
    }

    /// A grid of the given shape with every cell set to `v`; `None` where
    /// the shape is too large to allocate.
    pub fn new(rows: usize, cols: usize, channels: usize, v: i64) -> (r: Option<AngleGrid>)
        ensures
            r is Some <==> shape_fits(rows, cols, channels),
            r matches Some(g) ==> g.shape() == (rows, cols, channels) && forall|i: int, j: int, k: int|
                in_shape((rows, cols, channels), i, j, k) ==> #[trigger] g.cell(i, j, k) == v,
    {
        if fits(rows, cols, channels) {
            Some(AngleGrid::from_elem(rows, cols, channels, v))
        } else {
            None
        }
    }

    /// The extents (rows, columns, channels).
    pub fn extent(&self) -> (r: (usize, usize, usize))
        ensures
            r == self.shape(),
    {
        self.dims()
    }

    /// The cell at (row, column, channel), or `None` outside the grid.
    pub fn get(&self, i: usize, j: usize, k: usize) -> (r: Option<i64>)
        ensures
            r is Some <==> in_shape(self.shape(), i as int, j as int, k as int),
            r matches Some(v) ==> v == self.cell(i as int, j as int, k as int),
    {
        let s = self.dims();
        if i < s.0 && j < s.1 && k < s.2 {
            Some(self.at(i, j, k))
        } else {
            None
        }
    }

    /// Sets the cell at (row, column, channel); returns whether it lies in
    /// the grid. Outside the grid nothing changes.
    pub fn set(&mut self, i: usize, j: usize, k: usize, v: i64) -> (r: bool)
        ensures
            r == in_shape(old(self).shape(), i as int, j as int, k as int),
            final(self).shape() == old(self).shape(),
            r ==> angle_cells(*final(self)) == angle_cells(*old(self)).insert((i as int, j as int, k as int), v),
            !r ==> *final(self) == *old(self),
    {
        let s = self.dims();
        if i < s.0 && j < s.1 && k < s.2 {
            self.put(i, j, k, v);
            true
        } else {
            false
        }
    }
}


impl EdgeMask {
    pub open spec fn shape(&self) -> (usize, usize, usize) {
        flag_shape(*self)
    }

    pub open spec fn cell(&self, i: int, j: int, k: int) -> bool {
        flag_cells(*self)[(i, j, k)]
    }

    /// Relies on `Array3::from_elem`: every cell of the given shape holds `v`.
    #[verifier::external_body]
    pub(crate) fn from_elem(rows: usize, cols: usize, channels: usize, v: bool) -> (r: EdgeMask)
        requires
            shape_fits(rows, cols, channels),
        ensures
            flag_shape(r) == (rows, cols, channels),
            forall|i: int, j: int, k: int|
                in_shape((rows, cols, channels), i, j, k) ==> flag_cells(r)[(i, j, k)] == v,
    {
        EdgeMask { a: Array3::from_elem((rows, cols, channels), v) }
    }

    /// Relies on `ArrayBase::dim`: the extent of each axis. That the extents
    /// fit is an invariant of every `ArrayBase`.
    #[verifier::external_body]
    pub(crate) fn dims(&self) -> (r: (usize, usize, usize))
        ensures
            r == flag_shape(*self),
            shape_fits(r.0, r.1, r.2),
    {
        self.a.dim()
    }

    /// Relies on indexing an `ArrayBase` by `[row, column, channel]`.
    #[verifier::external_body]
    pub(crate) fn at(&self, i: usize, j: usize, k: usize) -> (r: bool)
        requires
            in_shape(flag_shape(*self), i as int, j as int, k as int),
        ensures
            r == flag_cells(*self)[(i as int, j as int, k as int)],
    {
        self.a[[i, j, k]]
    }

    /// Relies on `IndexMut` of an `ArrayBase` by `[row, column, channel]`.
    #[verifier::external_body]
    pub(crate) fn put(&mut self, i: usize, j: usize, k: usize, v: bool)
        requires
            in_shape(flag_shape(*old(self)), i as int, j as int, k as int),
        ensures
            flag_shape(*final(self)) == flag_shape(*old(self)),
            flag_cells(*final(self)) == flag_cells(*old(self)).insert(
                (i as int, j as int, k as int),
                v,
            ),
    {
        self.a[[i, j, k]] = v;
    }

    /// A grid of the given shape with every cell set to `v`; `None` where
    /// the shape is too large to allocate.
    pub fn new(rows: usize, cols: usize, channels: usize, v: bool) -> (r: Option<EdgeMask>)
        ensures
            r is Some <==> shape_fits(rows, cols, channels),
            r matches Some(g) ==> g.shape() == (rows, cols, channels) && forall|i: int, j: int, k: int|
                in_shape((rows, cols, channels), i, j, k) ==> #[trigger] g.cell(i, j, k) == v,
    {
        if fits(rows, cols, channels) {
            Some(EdgeMask::from_elem(rows, cols, channels, v))
        } else {
            None
        }
    }

    /// The extents (rows, columns, channels).
    pub fn extent(&self) -> (r: (usize, usize, usize))
        ensures
            r == self.shape(),
    {
        self.dims()
    }

    /// The cell at (row, column, channel), or `None` outside the grid.
    pub fn get(&self, i: usize, j: usize, k: usize) -> (r: Option<bool>)
        ensures
            r is Some <==> in_shape(self.shape(), i as int, j as int, k as int),
            r matches Some(v) ==> v == self.cell(i as int, j as int, k as int),
    {
        let s = self.dims();
        if i < s.0 && j < s.1 && k < s.2 {
            Some(self.at(i, j, k))
        } else {
            None
        }
    }

    /// Sets the cell at (row, column, channel); returns whether it lies in
    /// the grid. Outside the grid nothing changes.
    pub fn set(&mut self, i: usize, j: usize, k: usize, v: bool) -> (r: bool)
        ensures
            r == in_shape(old(self).shape(), i as int, j as int, k as int),
            final(self).shape() == old(self).shape(),
            r ==> flag_cells(*final(self)) == flag_cells(*old(self)).insert((i as int, j as int, k as int), v),
            !r ==> *final(self) == *old(self),
    {
        let s = self.dims();
        if i < s.0 && j < s.1 && k < s.2 {
            self.put(i, j, k, v);
            true
        } else {
            false
        }
    }
}


/// Decides `shape_fits`.
fn fits(rows: usize, cols: usize, channels: usize) -> (r: bool)
    ensures
        r == shape_fits(rows, cols, channels),
{
    let a: usize = if rows == 0 { 1 } else { rows };
    let b: usize = if cols == 0 { 1 } else { cols };
    let c: usize = if channels == 0 { 1 } else { channels };
    let m: usize = isize::MAX as usize;
    if b > m / a {
        proof {
            assert(a * b > m) by (nonlinear_arith) requires b > m / a, a > 0;
            assert(a * b * c >= a * b) by (nonlinear_arith) requires c >= 1, a * b >= 0;
        }
        return false;
    }
    proof {
        assert(a * b <= m) by (nonlinear_arith) requires b <= m / a, a > 0;
        assert(a * b > 0) by (nonlinear_arith) requires a > 0, b > 0;
    }
    let ab = a * b;
    if c > m / ab {
        proof {
            assert(ab * c > m) by (nonlinear_arith) requires c > m / ab, ab > 0;
        }
        false
    } else {
        proof {
            assert(ab * c <= m) by (nonlinear_arith) requires c <= m / ab, ab > 0;
        }
        true
    }
}

} // verus!
