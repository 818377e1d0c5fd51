//! Directional non-maximum suppression of a magnitude grid.
use crate::array::{in_shape, AngleGrid, LevelGrid};
use vstd::prelude::*;

verus! {

/// Half a turn in thousandths of a degree: a direction and its opposite
/// describe the same edge.
pub const HALF_TURN: i64 = 180000;

/// A quarter of a half turn in thousandths of a degree: the width of each
/// direction bucket.
pub const BUCKET: i64 = 45000;

/// An angle in thousandths of a degree brought into `[0, HALF_TURN)`.
pub open spec fn normalized(a: int) -> int {
    a % (HALF_TURN as int)
}

/// The two offsets (row, column) that an angle in `[0, HALF_TURN)` compares
/// a cell against: horizontal, diagonal, vertical or anti-diagonal.
pub open spec fn offsets_of(d: int) -> (int, int, int, int) {
    if d < BUCKET {
        (0, -1, 0, 1)
    } else if d < 2 * BUCKET {
        (-1, -1, 1, 1)
    } else if d < 3 * BUCKET {
        (-1, 0, 1, 0)
    } else {
        (-1, 1, 1, -1)
    }
}

/// The magnitude at `(i + di, j + dj)`, or zero where that lies off the grid.
pub open spec fn sampled(m: LevelGrid, i: int, j: int, di: int, dj: int) -> u64 {
    if (i == 0 && di < 0) || (i == m.shape().0 - 1 && di > 0) || (j == 0 && dj < 0) || (j
        == m.shape().1 - 1 && dj > 0) {
        0
    } else {
        m.cell(i + di, j + dj, 0)
    }
}

/// What suppression leaves at `(i, j)`: the magnitude, or zero where one of
/// the two neighbours that the orientation selects is strictly larger.
pub open spec fn suppressed_at(m: LevelGrid, o: AngleGrid, i: int, j: int) -> u64 {
    let (dr1, dc1, dr2, dc2) = offsets_of(normalized(o.cell(i, j, 0) as int));
    let c = m.cell(i, j, 0);
    if sampled(m, i, j, dr1, dc1) > c || sampled(m, i, j, dr2, dc2) > c {
        0
    } else {
        c
    }
}

/// Brings an angle in thousandths of a degree into `[0, HALF_TURN)`.
pub fn normalize_angle(a: i64) -> (r: i64)
    ensures
        r == normalized(a as int),
        0 <= r < HALF_TURN,
{
    if a >= 0 {
        let r = ((a as u64) % (HALF_TURN as u64)) as i64;
        r
    } else {
        let n: u64 = (-(a + 1)) as u64;
        let m: u64 = n % (HALF_TURN as u64);
        proof {
            let h = HALF_TURN as int;
            let q = n as int / h;
            assert(n as int == q * h + m as int) by (nonlinear_arith) requires
                h > 0, q == n as int / h, m as int == n as int % h;
            assert(a as int == (-q - 1) * h + (h - 1 - m as int)) by (nonlinear_arith) requires
                n as int == q * h + m as int, a as int == -(n as int) - 1;
            vstd::arithmetic::div_mod::lemma_fundamental_div_mod_converse(
                a as int, h, -q - 1, h - 1 - m as int);
        }
        (HALF_TURN - 1) - (m as i64)
    }
}

/// The magnitude at `(i + di, j + dj)` for offsets in `-1..=1`, or zero
/// where that lies off the grid.
pub fn sample(m: &LevelGrid, i: usize, j: usize, di: i64, dj: i64) -> (r: u64)
    requires
        in_shape(m.shape(), i as int, j as int, 0),
        -1 <= di <= 1,
        -1 <= dj <= 1,
    ensures
        r == sampled(*m, i as int, j as int, di as int, dj as int),
{
    let s = m.dims();
    if (i == 0 && di < 0) || (i == s.0 - 1 && di > 0) || (j == 0 && dj < 0) || (j == s.1 - 1
        && dj > 0) {
        0
    } else {
        let ni = if di < 0 { i - 1 } else if di > 0 { i + 1 } else { i };
        let nj = if dj < 0 { j - 1 } else if dj > 0 { j + 1 } else { j };
        m.at(ni, nj, 0)
    }
}

/// Zeroes every cell whose magnitude is strictly below one of the two
/// neighbours that its orientation selects. Every decision reads the
/// magnitudes as given, never an already suppressed cell.
pub fn non_maxima_supression(magnitudes: &LevelGrid, rotations: &AngleGrid) -> (r: LevelGrid)
    requires
        magnitudes.shape() == rotations.shape(),
        magnitudes.shape().2 == 1,
    ensures
        r.shape() == magnitudes.shape(),
        forall|i: int, j: int|
            in_shape(r.shape(), i, j, 0) ==> #[trigger] r.cell(i, j, 0) == suppressed_at(
                *magnitudes,
                *rotations,
                i,
                j,
            ),
{
    let s = magnitudes.dims();
    let (rows, cols) = (s.0, s.1);
    let mut result = LevelGrid::from_elem(rows, cols, 1, 0);
    let mut i: usize = 0;
    while i < rows
        invariant
            s == magnitudes.shape(),
            s == rotations.shape(),
            rows == s.0,
            cols == s.1,
            s.2 == 1,
            i <= rows,
            result.shape() == s,
            forall|a: int, b: int|
                0 <= a < i && 0 <= b < cols ==> #[trigger] result.cell(a, b, 0) == suppressed_at(
                    *magnitudes,
                    *rotations,
                    a,
                    b,
                ),
        decreases rows - i,
    {
        let mut j: usize = 0;
        while j < cols
            invariant
                s == magnitudes.shape(),
                s == rotations.shape(),
                rows == s.0,
                cols == s.1,
                s.2 == 1,
                i < rows,
                j <= cols,
                result.shape() == s,
                forall|a: int, b: int|
                    (0 <= a < i && 0 <= b < cols) || (a == i && 0 <= b < j)
                        ==> #[trigger] result.cell(a, b, 0) == suppressed_at(
                        *magnitudes,
                        *rotations,
                        a,
                        b,
                    ),
            decreases cols - j,
        {
            let dir = normalize_angle(rotations.at(i, j, 0));
            let (a, b) = if dir < BUCKET {
                (sample(magnitudes, i, j, 0, -1), sample(magnitudes, i, j, 0, 1))
            } else if dir < 2 * BUCKET {
                (sample(magnitudes, i, j, -1, -1), sample(magnitudes, i, j, 1, 1))
            } else if dir < 3 * BUCKET {
                (sample(magnitudes, i, j, -1, 0), sample(magnitudes, i, j, 1, 0))
            } else {
                (sample(magnitudes, i, j, -1, 1), sample(magnitudes, i, j, 1, -1))
            };
            let c = magnitudes.at(i, j, 0);
            let v = if a > c || b > c { 0 } else { c };
            assert(v == suppressed_at(*magnitudes, *rotations, i as int, j as int));
            let ghost prev = result;
            result.put(i, j, 0, v);
            assert forall|a: int, b: int|
                (0 <= a < i && 0 <= b < cols) || (a == i && 0 <= b < j + 1)
                    implies #[trigger] result.cell(a, b, 0) == suppressed_at(
                    *magnitudes,
                    *rotations,
                    a,
                    b,
                ) by {
                if a != i || b != j {
                    assert(result.cell(a, b, 0) == prev.cell(a, b, 0));
                }
            }
            j += 1;
        }
        i += 1;
    }
    result
}


/// On a flat field, where every magnitude equals `v`, no neighbour is
/// strictly larger than its centre, so suppression leaves every cell as it
/// is, whatever the orientations.
pub proof fn lemma_flat_field_unchanged(m: LevelGrid, o: AngleGrid, v: u64)
    requires
        m.shape().2 == 1,
        forall|i: int, j: int| in_shape(m.shape(), i, j, 0) ==> #[trigger] m.cell(i, j, 0) == v,
    ensures
        forall|i: int, j: int|
            in_shape(m.shape(), i, j, 0) ==> #[trigger] suppressed_at(m, o, i, j) == v,
{
    assert forall|i: int, j: int| in_shape(m.shape(), i, j, 0) implies #[trigger] suppressed_at(
        m,
        o,
        i,
        j,
    ) == v by {
        let (dr1, dc1, dr2, dc2) = offsets_of(normalized(o.cell(i, j, 0) as int));
        if sampled(m, i, j, dr1, dc1) != 0 {
            assert(m.cell(i + dr1, j + dc1, 0) == v);
        }
        if sampled(m, i, j, dr2, dc2) != 0 {
            assert(m.cell(i + dr2, j + dc2, 0) == v);
        }
    }
}

} // verus!
