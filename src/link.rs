//! Double thresholding and hysteresis linking of suppressed magnitudes.
use crate::array::{in_shape, EdgeMask, LevelGrid};
use vstd::prelude::*;
use vstd::set_lib::{lemma_int_range, lemma_len_subset, lemma_map_size_bound, set_int_range};

verus! {

/// Whether `p` lies inside a grid of `rows` by `cols` cells.
pub open spec fn in_grid(rows: usize, cols: usize, p: (usize, usize)) -> bool {
    p.0 < rows && p.1 < cols
}

/// Whether the linking search steps from `p` to `q`: `q` lies in the row
/// just above or just below `p`, at most one column away.
pub open spec fn steps(p: (usize, usize), q: (usize, usize)) -> bool {
    (q.0 + 1 == p.0 || q.0 == p.0 + 1) && q.1 + 1 >= p.1 && q.1 <= p.1 + 1
}

/// The flag of a mask at `p`, in channel zero.
pub open spec fn flag(e: EdgeMask, p: (usize, usize)) -> bool {
    e.cell(p.0 as int, p.1 as int, 0)
}

/// The coordinates that the search can step to from `coord` and that are not
/// yet in `closed_set`: at most three in the row above and three in the row
/// below.
pub fn get_candidates(coord: (usize, usize), bounds: (usize, usize), closed_set: &EdgeMask) -> (r:
    Vec<(usize, usize)>)
    requires
        in_grid(bounds.0, bounds.1, coord),
        closed_set.shape() == (bounds.0, bounds.1, 1usize),
    ensures
        r@.len() <= 6,
        forall|k: int|
            0 <= k < r@.len() ==> in_grid(bounds.0, bounds.1, #[trigger] r@[k]) && steps(
                coord,
                r@[k],
            ) && !flag(*closed_set, r@[k]),
        forall|q: (usize, usize)|
            in_grid(bounds.0, bounds.1, q) && #[trigger] steps(coord, q) && !flag(*closed_set, q)
                ==> r@.contains(q),
{
    let mut result: Vec<(usize, usize)> = Vec::new();
    let (r, c) = coord;
    let (rows, cols) = bounds;
    let ghost mut mid_above: int = 0;
    let ghost mut mid_below: int = 0;
    if r > 0 {
        if c > 0 && !closed_set.at(r - 1, c - 1, 0) {
            result.push((r - 1, c - 1));
        }
        if c < cols - 1 && !closed_set.at(r - 1, c + 1, 0) {
            result.push((r - 1, c + 1));
        }
        if !closed_set.at(r - 1, c, 0) {
            proof { mid_above = result@.len() as int; }
            result.push((r - 1, c));
        }
    }
    let ghost above = result@;
    assert forall|q: (usize, usize)|
        q.0 + 1 == r && in_grid(rows, cols, q) && #[trigger] steps(coord, q) && !flag(
            *closed_set,
            q,
        ) implies above.contains(q) by {
        if q.1 + 1 == c {
            assert(above[0] == q);
        } else if q.1 == c + 1 {
            if c > 0 && !flag(*closed_set, ((r - 1) as usize, (c - 1) as usize)) {
                assert(above[1] == q);
            } else {
                assert(above[0] == q);
            }
        } else {
            assert(above[mid_above] == q);
        }
    }
    if r < rows - 1 {
        if c > 0 && !closed_set.at(r + 1, c - 1, 0) {
            result.push((r + 1, c - 1));
        }
        if c < cols - 1 && !closed_set.at(r + 1, c + 1, 0) {
            result.push((r + 1, c + 1));
        }
        if !closed_set.at(r + 1, c, 0) {
            proof { mid_below = result@.len() as int; }
            result.push((r + 1, c));
        }
    }
    assert forall|q: (usize, usize)|
        in_grid(rows, cols, q) && #[trigger] steps(coord, q) && !flag(*closed_set, q) implies result@.contains(q) by {
        if q.0 + 1 == r {
            let k = choose|k: int| 0 <= k < above.len() && above[k] == q;
            assert(result@[k] == q);
        } else if q.1 + 1 == c {
            assert(result@[above.len() as int] == q);
        } else if q.1 == c + 1 {
            if c > 0 && !flag(*closed_set, ((r + 1) as usize, (c - 1) as usize)) {
                assert(result@[above.len() as int + 1] == q);
            } else {
                assert(result@[above.len() as int] == q);
            }
        } else {
            assert(result@[mid_below] == q);
        }
    }
    result
}


/// The magnitude at `p` after double thresholding: magnitudes below `lower`
/// become zero.
pub open spec fn clamped(m: LevelGrid, lower: u64, p: (usize, usize)) -> u64 {
    if m.cell(p.0 as int, p.1 as int, 0) >= lower {
        m.cell(p.0 as int, p.1 as int, 0)
    } else {
        0
    }
}

/// A strong cell: its thresholded magnitude reaches `upper`.
pub open spec fn strong(m: LevelGrid, lower: u64, upper: u64, p: (usize, usize)) -> bool {
    clamped(m, lower, p) >= upper
}

/// A cell that the search may promote: its thresholded magnitude is
/// strictly above `lower`.
pub open spec fn admissible(m: LevelGrid, lower: u64, p: (usize, usize)) -> bool {
    clamped(m, lower, p) > lower
}

/// The cells of a grid of `rows` by `cols`.
pub open spec fn rect(rows: usize, cols: usize) -> Set<(usize, usize)> {
    Set::new(|p: (usize, usize)| in_grid(rows, cols, p))
}

/// The cells of a mask whose flag is set.
pub open spec fn edge_set(e: EdgeMask) -> Set<(usize, usize)> {
    Set::new(|p: (usize, usize)| in_grid(e.shape().0, e.shape().1, p) && flag(e, p))
}

/// `s` holds every strong cell, and every admissible cell that the search
/// can step to from a cell of `s`.
pub open spec fn is_linked_closure(m: LevelGrid, lower: u64, upper: u64, s: Set<(usize, usize)>) -> bool {
    &&& forall|p: (usize, usize)|
        in_grid(m.shape().0, m.shape().1, p) && strong(m, lower, upper, p) ==> #[trigger] s.contains(p)
    &&& forall|p: (usize, usize), q: (usize, usize)|
        #[trigger] s.contains(p) && in_grid(m.shape().0, m.shape().1, q) && #[trigger] steps(p, q)
            && admissible(m, lower, q) ==> s.contains(q)
}

/// The edges that linking yields: the cells that every linked closure holds,
/// which is the least linked closure.
pub open spec fn linked_edges(m: LevelGrid, lower: u64, upper: u64) -> Set<(usize, usize)> {
    Set::new(
        |p: (usize, usize)|
            in_grid(m.shape().0, m.shape().1, p) && forall|s: Set<(usize, usize)>|
                #[trigger] is_linked_closure(m, lower, upper, s) ==> s.contains(p),
    )
}

/// Every flagged cell that is not strong was reached by one step from a
/// flagged cell of smaller rank.
spec fn ranked(
    m: LevelGrid,
    lower: u64,
    upper: u64,
    e: EdgeMask,
    rank: spec_fn((usize, usize)) -> nat,
    parent: spec_fn((usize, usize)) -> (usize, usize),
) -> bool {
    forall|p: (usize, usize)|
        in_grid(m.shape().0, m.shape().1, p) && #[trigger] flag(e, p) && !strong(m, lower, upper, p)
            ==> {
            &&& in_grid(m.shape().0, m.shape().1, parent(p))
            &&& flag(e, parent(p))
            &&& steps(parent(p), p)
            &&& admissible(m, lower, p)
            &&& rank(parent(p)) < rank(p)
        }
}

spec fn linking_state(
    m: LevelGrid,
    lower: u64,
    upper: u64,
    e: EdgeMask,
    visited: EdgeMask,
    vs: Set<(usize, usize)>,
    rank: spec_fn((usize, usize)) -> nat,
    parent: spec_fn((usize, usize)) -> (usize, usize),
) -> bool {
    let rows = m.shape().0;
    let cols = m.shape().1;
    &&& m.shape().2 == 1
    &&& e.shape() == m.shape()
    &&& visited.shape() == m.shape()
    &&& vs.subset_of(rect(rows, cols))
    &&& forall|p: (usize, usize)|
        in_grid(rows, cols, p) ==> (#[trigger] flag(visited, p) <==> vs.contains(p))
    &&& forall|p: (usize, usize)| #[trigger] vs.contains(p) ==> flag(e, p)
    &&& forall|p: (usize, usize)|
        in_grid(rows, cols, p) && #[trigger] flag(e, p) && !vs.contains(p) ==> strong(m, lower, upper, p)
    &&& forall|p: (usize, usize)|
        in_grid(rows, cols, p) && #[trigger] strong(m, lower, upper, p) ==> flag(e, p)
    &&& ranked(m, lower, upper, e, rank, parent)
}

/// Every admissible cell one step from a visited cell is visited or waits in
/// the work list.
spec fn frontier(m: LevelGrid, lower: u64, vs: Set<(usize, usize)>, buffer: Seq<(usize, usize)>) -> bool {
    forall|p: (usize, usize), q: (usize, usize)|
        #[trigger] vs.contains(p) && #[trigger] steps(p, q) && in_grid(m.shape().0, m.shape().1, q)
            && admissible(m, lower, q) ==> vs.contains(q) || buffer.contains(q)
}

/// Each waiting cell is one step from a flagged cell.
spec fn pending(m: LevelGrid, e: EdgeMask, buffer: Seq<(usize, usize)>, from: Seq<(usize, usize)>) -> bool {
    &&& from.len() == buffer.len()
    &&& forall|k: int|
        0 <= k < buffer.len() ==> {
            &&& in_grid(m.shape().0, m.shape().1, #[trigger] buffer[k])
            &&& in_grid(m.shape().0, m.shape().1, from[k])
            &&& flag(e, from[k])
            &&& steps(from[k], buffer[k])
        }
}

/// Every flagged cell before `(r, c)` in raster order is visited.
spec fn scanned(m: LevelGrid, e: EdgeMask, vs: Set<(usize, usize)>, r: int, c: int) -> bool {
    forall|p: (usize, usize)|
        in_grid(m.shape().0, m.shape().1, p) && (p.0 < r || (p.0 == r && p.1 < c)) && #[trigger] flag(e, p)
            ==> vs.contains(p)
}

proof fn lemma_rect_len(rows: usize, cols: usize)
    ensures
        rect(rows, cols).finite(),
        rect(rows, cols).len() <= rows * cols,
{
    let n = rows as int * cols as int;
    assert(n >= 0) by (nonlinear_arith) requires n == rows as int * cols as int, rows >= 0, cols >= 0;
    lemma_int_range(0, n);
    let range = set_int_range(0, n);
    let f = |k: int| ((k / cols as int) as usize, (k % cols as int) as usize);
    let img = range.map(f);
    lemma_map_size_bound(range, img, f);
    assert forall|p: (usize, usize)| rect(rows, cols).contains(p) implies img.contains(p) by {
        let k = p.0 as int * cols as int + p.1 as int;
        vstd::arithmetic::div_mod::lemma_fundamental_div_mod_converse(k, cols as int, p.0 as int, p.1 as int);
        assert(0 <= k < n) by (nonlinear_arith) requires
            k == p.0 as int * cols as int + p.1 as int, p.0 < rows, p.1 < cols, n == rows as int * cols as int;
        assert(range.contains(k));
        assert(f(k) == p);
    }
    lemma_len_subset(rect(rows, cols), img);
}

proof fn lemma_ranked_in_closure(
    m: LevelGrid,
    lower: u64,
    upper: u64,
    e: EdgeMask,
    rank: spec_fn((usize, usize)) -> nat,
    parent: spec_fn((usize, usize)) -> (usize, usize),
    s: Set<(usize, usize)>,
    p: (usize, usize),
)
    requires
        ranked(m, lower, upper, e, rank, parent),
        is_linked_closure(m, lower, upper, s),
        in_grid(m.shape().0, m.shape().1, p),
        flag(e, p),
    ensures
        s.contains(p),
    decreases rank(p),
{
    if !strong(m, lower, upper, p) {
        let q = parent(p);
        lemma_ranked_in_closure(m, lower, upper, e, rank, parent, s, q);
        assert(steps(q, p));
    }
}

fn clamp_at(m: &LevelGrid, lower: u64, i: usize, j: usize) -> (r: u64)
    requires
        in_shape(m.shape(), i as int, j as int, 0),
    ensures
        r == clamped(*m, lower, (i, j)),
{
    let x = m.at(i, j, 0);
    if x >= lower {
        x
    } else {
        0
    }
}


/// Marks the strong cells, then grows the edge set from each of them, in
/// raster order, through the cells that the search can step to and whose
/// thresholded magnitude is strictly above `lower`. The result is the least
/// set that holds every strong cell and is closed under such steps.
pub fn link_edges(magnitudes: &LevelGrid, lower: u64, upper: u64) -> (r: EdgeMask)
    requires
        magnitudes.shape().2 == 1,
    ensures
        r.shape() == magnitudes.shape(),
        is_linked_closure(*magnitudes, lower, upper, edge_set(r)),
        forall|s: Set<(usize, usize)>|
            #[trigger] is_linked_closure(*magnitudes, lower, upper, s) ==> edge_set(r).subset_of(s),
        edge_set(r) == linked_edges(*magnitudes, lower, upper),
{
    let dims = magnitudes.dims();
    let rows = dims.0;
    let cols = dims.1;
    let mut result = EdgeMask::from_elem(rows, cols, 1, false);
    assert forall|p: (usize, usize)| in_grid(rows, cols, p) implies !#[trigger] flag(result, p) by {
        assert(in_shape((rows, cols, 1usize), p.0 as int, p.1 as int, 0));
    }
    let mut i: usize = 0;
    while i < rows
        invariant
            dims == magnitudes.shape(),
            rows == dims.0,
            cols == dims.1,
            dims.2 == 1,
            i <= rows,
            result.shape() == dims,
            forall|p: (usize, usize)|
                in_grid(rows, cols, p) ==> (#[trigger] flag(result, p) <==> (p.0 < i && strong(
                    *magnitudes,
                    lower,
                    upper,
                    p,
                ))),
        decreases rows - i,
    {
        let mut j: usize = 0;
        while j < cols
            invariant
                dims == magnitudes.shape(),
                rows == dims.0,
                cols == dims.1,
                dims.2 == 1,
                i < rows,
                j <= cols,
                result.shape() == dims,
                forall|p: (usize, usize)|
                    in_grid(rows, cols, p) ==> (#[trigger] flag(result, p) <==> ((p.0 < i || (p.0
                        == i && p.1 < j)) && strong(*magnitudes, lower, upper, p))),
            decreases cols - j,
        {
            let v = clamp_at(magnitudes, lower, i, j) >= upper;
            let ghost prev = result;
            result.put(i, j, 0, v);
            assert forall|p: (usize, usize)| in_grid(rows, cols, p) implies (#[trigger] flag(
                result,
                p,
            ) <==> ((p.0 < i || (p.0 == i && p.1 < j + 1)) && strong(
                *magnitudes,
                lower,
                upper,
                p,
            ))) by {
                if p != (i, j) {
                    assert(flag(result, p) == flag(prev, p));
                }
            }
            j += 1;
        }
        i += 1;
    }
    let mut visited = EdgeMask::from_elem(rows, cols, 1, false);
    let ghost mut vs: Set<(usize, usize)> = Set::empty();
    let ghost mut rank: spec_fn((usize, usize)) -> nat = |p: (usize, usize)| 0nat;
    let ghost mut parent: spec_fn((usize, usize)) -> (usize, usize) = |p: (usize, usize)| p;
    proof {
        lemma_rect_len(rows, cols);
        assert forall|p: (usize, usize)| in_grid(rows, cols, p) implies !#[trigger] flag(visited, p) by {
            assert(in_shape((rows, cols, 1usize), p.0 as int, p.1 as int, 0));
        }
        assert(vs.subset_of(rect(rows, cols)));
    }
    let mut r: usize = 0;
    while r < rows
        invariant
            dims == magnitudes.shape(),
            rows == dims.0,
            cols == dims.1,
            r <= rows,
            rect(rows, cols).finite(),
            rect(rows, cols).len() <= rows * cols,
            linking_state(*magnitudes, lower, upper, result, visited, vs, rank, parent),
            frontier(*magnitudes, lower, vs, Seq::empty()),
            scanned(*magnitudes, result, vs, r as int, 0),
        decreases rows - r,
    {
        let mut c: usize = 0;
        while c < cols
            invariant
                dims == magnitudes.shape(),
                rows == dims.0,
                cols == dims.1,
                r < rows,
                c <= cols,
                rect(rows, cols).finite(),
                rect(rows, cols).len() <= rows * cols,
                linking_state(*magnitudes, lower, upper, result, visited, vs, rank, parent),
                frontier(*magnitudes, lower, vs, Seq::empty()),
                scanned(*magnitudes, result, vs, r as int, c as int),
            decreases cols - c,
        {
            if result.at(r, c, 0) && !visited.at(r, c, 0) {
                let ghost prev_visited = visited;
                visited.put(r, c, 0, true);
                proof {
                    vs = vs.insert((r, c));
                    assert forall|p: (usize, usize)| in_grid(rows, cols, p) implies (#[trigger] flag(
                        visited,
                        p,
                    ) <==> vs.contains(p)) by {
                        if p != (r, c) {
                            assert(flag(visited, p) == flag(prev_visited, p));
                        }
                    }
                }
                let mut buffer = get_candidates((r, c), (rows, cols), &visited);
                let ghost mut from: Seq<(usize, usize)> = Seq::new(
                    buffer@.len(),
                    |k: int| (r, c),
                );
                while buffer.len() > 0
                    invariant
                        dims == magnitudes.shape(),
                        rows == dims.0,
                        cols == dims.1,
                        r < rows,
                        c < cols,
                        rect(rows, cols).finite(),
                        rect(rows, cols).len() <= rows * cols,
                        linking_state(*magnitudes, lower, upper, result, visited, vs, rank, parent),
                        frontier(*magnitudes, lower, vs, buffer@),
                        pending(*magnitudes, result, buffer@, from),
                        scanned(*magnitudes, result, vs, r as int, c as int + 1),
                    decreases buffer@.len() + 7 * (rows * cols - vs.len()),
                {
                    proof {
                        lemma_len_subset(vs, rect(rows, cols));
                    }
                    let ghost prev_buffer = buffer@;
                    let ghost prev_vs = vs;
                    let ghost bp = from.last();
                    let cand = buffer.pop().unwrap();
                    proof {
                        from = from.drop_last();
                        assert(prev_buffer[prev_buffer.len() - 1] == cand);
                        assert(in_grid(rows, cols, cand));
                        assert(flag(visited, cand) == vs.contains(cand));
                    }
                    if clamp_at(magnitudes, lower, cand.0, cand.1) > lower && !visited.at(
                        cand.0,
                        cand.1,
                        0,
                    ) {
                        let ghost prev_result = result;
                        let ghost prev_visited = visited;
                        proof {
                            if !strong(*magnitudes, lower, upper, cand) {
                                let old_rank = rank;
                                let old_parent = parent;
                                rank = |p: (usize, usize)| if p == cand { old_rank(bp) + 1 } else { old_rank(p) };
                                parent = |p: (usize, usize)| if p == cand { bp } else { old_parent(p) };
                            }
                        }
                        visited.put(cand.0, cand.1, 0, true);
                        result.put(cand.0, cand.1, 0, true);
                        proof {
                            vs = vs.insert(cand);
                            assert forall|p: (usize, usize)| in_grid(rows, cols, p) && p != cand implies (#[trigger] flag(visited, p) == flag(prev_visited, p) && flag(result, p) == flag(prev_result, p)) by {
                            }
                            assert(flag(visited, cand) && flag(result, cand));
                        }
                        let mut temp = get_candidates(cand, (rows, cols), &visited);
                        proof {
                            from = from + Seq::new(temp@.len(), |k: int| cand);
                        }
                        let ghost added = temp@;
                        buffer.append(&mut temp);
                        proof {
                            assert(buffer@ == prev_buffer.drop_last() + added);
                            assert forall|p: (usize, usize)| in_grid(rows, cols, p) implies (#[trigger] flag(visited, p) <==> vs.contains(p)) by {
                                if p != cand {
                                    assert(flag(visited, p) == flag(prev_visited, p));
                                }
                            }
                            assert forall|p: (usize, usize)| #[trigger] vs.contains(p) implies flag(result, p) by {
                                if p != cand {
                                    assert(prev_vs.contains(p));
                                    assert(flag(result, p) == flag(prev_result, p));
                                }
                            }
                            assert forall|p: (usize, usize)| in_grid(rows, cols, p) && #[trigger] flag(result, p) && !vs.contains(p) implies strong(*magnitudes, lower, upper, p) by {
                                assert(flag(result, p) == flag(prev_result, p));
                            }
                            assert forall|p: (usize, usize)| in_grid(rows, cols, p) && #[trigger] strong(*magnitudes, lower, upper, p) implies flag(result, p) by {
                                if p != cand {
                                    assert(flag(prev_result, p));
                                    assert(flag(result, p) == flag(prev_result, p));
                                }
                            }
                            assert forall|p: (usize, usize)| in_grid(rows, cols, p) && #[trigger] flag(result, p) && !strong(*magnitudes, lower, upper, p) implies {
                                &&& in_grid(rows, cols, parent(p))
                                &&& flag(result, parent(p))
                                &&& steps(parent(p), p)
                                &&& admissible(*magnitudes, lower, p)
                                &&& rank(parent(p)) < rank(p)
                            } by {
                                if p == cand {
                                    let k = prev_buffer.len() - 1;
                                    assert(flag(prev_result, bp));
                                    assert(flag(result, bp) == flag(prev_result, bp));
                                } else {
                                    assert(flag(result, p) == flag(prev_result, p));
                                    assert(flag(prev_result, p));
                                    assert(flag(prev_result, parent(p)));
                                    assert(!strong(*magnitudes, lower, upper, cand) ==> !flag(prev_result, cand));
                                    assert(flag(result, parent(p)) == flag(prev_result, parent(p)));
                                }
                            }
                            assert forall|k: int| 0 <= k < buffer@.len() implies {
                                &&& in_grid(rows, cols, #[trigger] buffer@[k])
                                &&& in_grid(rows, cols, from[k])
                                &&& flag(result, from[k])
                                &&& steps(from[k], buffer@[k])
                            } by {
                                if k < prev_buffer.len() - 1 {
                                    assert(buffer@[k] == prev_buffer[k]);
                                    assert(flag(prev_result, from[k]));
                                    assert(flag(result, from[k]) == flag(prev_result, from[k]));
                                } else {
                                    assert(buffer@[k] == added[k - (prev_buffer.len() - 1)]);
                                }
                            }
                            assert forall|p: (usize, usize)| in_grid(rows, cols, p) && (p.0 < r || (p.0 == r && p.1 < c + 1)) && #[trigger] flag(result, p) implies vs.contains(p) by {
                                if p != cand {
                                    assert(flag(result, p) == flag(prev_result, p));
                                }
                            }
                            assert(!prev_vs.contains(cand));
                            lemma_len_subset(vs, rect(rows, cols));
                            assert forall|p: (usize, usize), q: (usize, usize)|
                                #[trigger] vs.contains(p) && #[trigger] steps(p, q) && in_grid(rows, cols, q)
                                    && admissible(*magnitudes, lower, q) implies vs.contains(q) || buffer@.contains(q) by {
                                if !vs.contains(q) {
                                    if p == cand {
                                        assert(!flag(visited, q));
                                        assert(added.contains(q));
                                        let k = choose|k: int| 0 <= k < added.len() && added[k] == q;
                                        assert(buffer@[prev_buffer.len() - 1 + k] == q);
                                    } else {
                                        assert(prev_vs.contains(p));
                                        assert(prev_buffer.contains(q));
                                        let k = choose|k: int| 0 <= k < prev_buffer.len() && prev_buffer[k] == q;
                                        assert(k != prev_buffer.len() - 1);
                                        assert(buffer@[k] == q);
                                    }
                                }
                            }
                        }
                    } else {
                        proof {
                            assert(buffer@ == prev_buffer.drop_last());
                            assert forall|p: (usize, usize), q: (usize, usize)|
                                #[trigger] vs.contains(p) && #[trigger] steps(p, q) && in_grid(rows, cols, q)
                                    && admissible(*magnitudes, lower, q) implies vs.contains(q) || buffer@.contains(q) by {
                                if !vs.contains(q) {
                                    assert(prev_buffer.contains(q));
                                    let k = choose|k: int| 0 <= k < prev_buffer.len() && prev_buffer[k] == q;
                                    assert(flag(visited, q) == vs.contains(q));
                                    assert(k != prev_buffer.len() - 1);
                                    assert(buffer@[k] == q);
                                }
                            }
                        }
                    }
                }
            }
            proof {
                assert forall|p: (usize, usize)| in_grid(rows, cols, p) && (p.0 < r || (p.0 == r && p.1 < c + 1)) && #[trigger] flag(result, p) implies vs.contains(p) by {
                    if p == (r, c) {
                        assert(flag(visited, p) == vs.contains(p));
                    }
                }
            }
            c += 1;
        }
        r += 1;
    }
    proof {
        assert(is_linked_closure(*magnitudes, lower, upper, edge_set(result)));
        assert forall|s: Set<(usize, usize)>|
            #[trigger] is_linked_closure(*magnitudes, lower, upper, s) implies edge_set(
                result,
            ).subset_of(s) by {
            assert forall|p: (usize, usize)| edge_set(result).contains(p) implies s.contains(p) by {
                lemma_ranked_in_closure(*magnitudes, lower, upper, result, rank, parent, s, p);
            }
        }
        assert(edge_set(result) =~= linked_edges(*magnitudes, lower, upper));
    }
    result
}


/// The least linked closure is itself a linked closure.
pub proof fn lemma_linked_edges_closed(m: LevelGrid, lower: u64, upper: u64)
    ensures
        is_linked_closure(m, lower, upper, linked_edges(m, lower, upper)),
        linked_edges(m, lower, upper).subset_of(rect(m.shape().0, m.shape().1)),
{
}

/// A weak cell, whose magnitude lies strictly between the thresholds, and
/// whose neighbours all lie at or below `lower`, is never an edge.
pub proof fn lemma_isolated_weak_cell_dropped(m: LevelGrid, lower: u64, upper: u64, p: (usize, usize))
    requires
        in_grid(m.shape().0, m.shape().1, p),
        lower < m.cell(p.0 as int, p.1 as int, 0) < upper,
        forall|q: (usize, usize)|
            in_grid(m.shape().0, m.shape().1, q) && q != p && q.0 + 1 >= p.0 && q.0 <= p.0 + 1 && q.1 + 1
                >= p.1 && q.1 <= p.1 + 1 ==> #[trigger] m.cell(q.0 as int, q.1 as int, 0) <= lower,
    ensures
        !linked_edges(m, lower, upper).contains(p),
{
    let rows = m.shape().0;
    let cols = m.shape().1;
    let s = Set::new(
        |q: (usize, usize)|
            in_grid(rows, cols, q) && q != p && (strong(m, lower, upper, q) || admissible(m, lower, q)),
    );
    assert forall|a: (usize, usize), q: (usize, usize)|
        #[trigger] s.contains(a) && in_grid(rows, cols, q) && #[trigger] steps(a, q) && admissible(
            m,
            lower,
            q,
        ) implies s.contains(q) by {
        if q == p {
            assert(m.cell(a.0 as int, a.1 as int, 0) <= lower);
        }
    }
    assert(is_linked_closure(m, lower, upper, s));
}

/// Raising `lower` below a fixed `upper` never adds an edge, so the number of
/// edges never grows.
pub proof fn lemma_raising_lower_keeps_fewer_edges(m: LevelGrid, lower1: u64, lower2: u64, upper: u64)
    requires
        lower1 < lower2,
        lower2 < upper,
    ensures
        linked_edges(m, lower2, upper).subset_of(linked_edges(m, lower1, upper)),
        linked_edges(m, lower2, upper).finite(),
        linked_edges(m, lower1, upper).finite(),
        linked_edges(m, lower2, upper).len() <= linked_edges(m, lower1, upper).len(),
{
    let e1 = linked_edges(m, lower1, upper);
    lemma_linked_edges_closed(m, lower1, upper);
    lemma_linked_edges_closed(m, lower2, upper);
    assert forall|q: (usize, usize)|
        in_grid(m.shape().0, m.shape().1, q) && strong(m, lower2, upper, q) implies #[trigger] e1.contains(q) by {
        assert(strong(m, lower1, upper, q));
    }
    assert forall|a: (usize, usize), q: (usize, usize)|
        #[trigger] e1.contains(a) && in_grid(m.shape().0, m.shape().1, q) && #[trigger] steps(a, q)
            && admissible(m, lower2, q) implies e1.contains(q) by {
        assert(admissible(m, lower1, q));
    }
    assert(is_linked_closure(m, lower2, upper, e1));
    lemma_rect_len(m.shape().0, m.shape().1);
    lemma_len_subset(e1, rect(m.shape().0, m.shape().1));
    lemma_len_subset(linked_edges(m, lower2, upper), e1);
}

} // verus!
