use vstd::prelude::*;

verus! {

/// Why a neighbour query was refused.
#[derive(Clone, Copy, Debug, PartialEq, Eq, Structural)]
pub enum GridError {
    /// The grid is empty or the coordinate lies outside it.
    InvalidCoordinate,
}

/// The 4-connected neighbours of `(x, y)` in a `w` by `h` grid, in the order
/// left, right, up, down, each present only where it lies inside the grid.
pub open spec fn neighbor_cells(x: int, y: int, w: int, h: int) -> Seq<(int, int)> {
    let s1 = if x > 0 { seq![(x - 1, y)] } else { Seq::empty() };
    let s2 = if x < w - 1 { s1.push((x + 1, y)) } else { s1 };
    let s3 = if y > 0 { s2.push((x, y - 1)) } else { s2 };
    if y < h - 1 { s3.push((x, y + 1)) } else { s3 }
}

/// Number of neighbours along one axis: 1 for each side of `i` that lies
/// inside `0..n`.
pub open spec fn axis_neighbors(i: int, n: int) -> int {
    (if i > 0 { 1int } else { 0int }) + (if i < n - 1 { 1int } else { 0int })
}

/// Coordinates as mathematical integers.
pub open spec fn coords_view(v: Seq<(u32, u32)>) -> Seq<(int, int)> {
    v.map_values(|p: (u32, u32)| (p.0 as int, p.1 as int))
}

/// The neighbours of `(x, y)` in a `width` by `height` grid, as
/// [`neighbor_cells`] orders them; an error for an empty grid or a coordinate
/// outside it.
pub fn get_neighbor_coordinates(x: u32, y: u32, width: u32, height: u32) -> (r: Result<
    Vec<(u32, u32)>,
    GridError,
>)
    ensures
        r is Err <==> (width == 0 || height == 0 || x >= width || y >= height),
        r matches Ok(v) ==> coords_view(v@) == neighbor_cells(
            x as int,
            y as int,
            width as int,
            height as int,
        ),
{
    if width == 0 || height == 0 || x >= width || y >= height {
        return Err(GridError::InvalidCoordinate);
    }
    let ghost (xi, yi, w, h) = (x as int, y as int, width as int, height as int);
    let mut neighbors: Vec<(u32, u32)> = Vec::new();
    if x > 0 {
        neighbors.push((x - 1, y));
    }
    assert(coords_view(neighbors@) =~= (if xi > 0 { seq![(xi - 1, yi)] } else { Seq::empty() }));
    let ghost s1 = coords_view(neighbors@);
    if x < width - 1 {
        neighbors.push((x + 1, y));
    }
    assert(coords_view(neighbors@) =~= (if xi < w - 1 { s1.push((xi + 1, yi)) } else { s1 }));
    let ghost s2 = coords_view(neighbors@);
    if y > 0 {
        neighbors.push((x, y - 1));
    }
    assert(coords_view(neighbors@) =~= (if yi > 0 { s2.push((xi, yi - 1)) } else { s2 }));
    let ghost s3 = coords_view(neighbors@);
    if y < height - 1 {
        neighbors.push((x, y + 1));
    }
    assert(coords_view(neighbors@) =~= (if yi < h - 1 { s3.push((xi, yi + 1)) } else { s3 }));
    Ok(neighbors)
}

/// A pixel has one neighbour for each side on which the grid goes on, and
/// each neighbour lies inside the grid, one step away along one axis.
pub proof fn lemma_neighbor_cells(x: int, y: int, w: int, h: int)
    requires
        0 <= x < w,
        0 <= y < h,
    ensures
        neighbor_cells(x, y, w, h).len() == axis_neighbors(x, w) + axis_neighbors(y, h),
        forall|i: int|
            0 <= i < neighbor_cells(x, y, w, h).len() ==> {
                let c = #[trigger] neighbor_cells(x, y, w, h)[i];
                &&& 0 <= c.0 < w
                &&& 0 <= c.1 < h
                &&& (c.0 == x || c.1 == y)
                &&& c != (x, y)
            },
{
}

/// In a grid of at least 2 by 2, a corner pixel has 2 neighbours, another
/// pixel of the border 3, and an interior pixel 4.
pub proof fn lemma_neighbor_count_by_position(x: int, y: int, w: int, h: int)
    requires
        w >= 2,
        h >= 2,
        0 <= x < w,
        0 <= y < h,
    ensures
        ({
            let n = neighbor_cells(x, y, w, h).len();
            let x_edge = x == 0 || x == w - 1;
            let y_edge = y == 0 || y == h - 1;
            &&& (x_edge && y_edge) ==> n == 2
            &&& (x_edge != y_edge) ==> n == 3
            &&& (!x_edge && !y_edge) ==> n == 4
        }),
{
    lemma_neighbor_cells(x, y, w, h);
}

/// Sum of [`axis_neighbors`] over `0..k`.
pub open spec fn axis_total(k: int, n: int) -> int
    decreases k,
{
    if k <= 0 {
        0
    } else {
        axis_total(k - 1, n) + axis_neighbors(k - 1, n)
    }
}

/// Sum of the neighbour counts of the first `k` pixels of row `y`.
pub open spec fn row_total(y: int, k: int, w: int, h: int) -> int
    decreases k,
{
    if k <= 0 {
        0
    } else {
        row_total(y, k - 1, w, h) + neighbor_cells(k - 1, y, w, h).len()
    }
}

/// Sum of the neighbour counts of all pixels of the first `m` rows.
pub open spec fn grid_total(m: int, w: int, h: int) -> int
    decreases m,
{
    if m <= 0 {
        0
    } else {
        grid_total(m - 1, w, h) + row_total(m - 1, w, w, h)
    }
}

/// Number of unordered pairs of 4-adjacent pixels in a `w` by `h` grid.
pub open spec fn adjacent_pairs(w: int, h: int) -> int {
    (w - 1) * h + w * (h - 1)
}

proof fn lemma_axis_total(k: int, n: int)
    requires
        0 <= k <= n,
        n >= 1,
    ensures
        axis_total(k, n) == (if k > 0 { k - 1 } else { 0 }) + (if k <= n - 1 { k } else { n - 1 }),
    decreases k,
{
    if k > 0 {
        lemma_axis_total(k - 1, n);
        assert(axis_total(k, n) == axis_total(k - 1, n) + axis_neighbors(k - 1, n));
    }
}

proof fn lemma_row_total(y: int, k: int, w: int, h: int)
    requires
        0 <= k <= w,
        0 <= y < h,
    ensures
        row_total(y, k, w, h) == axis_total(k, w) + k * axis_neighbors(y, h),
    decreases k,
{
    if k > 0 {
        lemma_row_total(y, k - 1, w, h);
        lemma_neighbor_cells(k - 1, y, w, h);
        let a = axis_neighbors(y, h);
        assert((k - 1) * a + a == k * a) by (nonlinear_arith);
        assert(axis_total(k, w) == axis_total(k - 1, w) + axis_neighbors(k - 1, w));
    } else {
        assert(k * axis_neighbors(y, h) == 0) by (nonlinear_arith)
            requires
                k == 0,
        ;
    }
}

proof fn lemma_grid_total(m: int, w: int, h: int)
    requires
        0 <= m <= h,
        w >= 1,
    ensures
        grid_total(m, w, h) == m * (2 * (w - 1)) + w * axis_total(m, h),
    decreases m,
{
    if m > 0 {
        lemma_grid_total(m - 1, w, h);
        lemma_row_total(m - 1, w, w, h);
        lemma_axis_total(w, w);
        let c = 2 * (w - 1);
        let a = axis_neighbors(m - 1, h);
        assert((m - 1) * c + c == m * c) by (nonlinear_arith);
        assert(w * axis_total(m - 1, h) + w * a == w * (axis_total(m - 1, h) + a))
            by (nonlinear_arith);
        assert(axis_total(m, h) == axis_total(m - 1, h) + a);
    } else {
        assert(m * (2 * (w - 1)) + w * axis_total(m, h) == 0) by (nonlinear_arith)
            requires
                m == 0,
                axis_total(m, h) == 0,
        ;
    }
}

/// Over a grid of at least 2 by 2, the neighbour counts of all pixels add up
/// to twice the number of pairs of adjacent pixels.
pub proof fn lemma_neighbor_total(w: int, h: int)
    requires
        w >= 2,
        h >= 2,
    ensures
        grid_total(h, w, h) == 2 * adjacent_pairs(w, h),
{
    lemma_grid_total(h, w, h);
    lemma_axis_total(h, h);
    assert(h * (2 * (w - 1)) + w * (2 * (h - 1)) == 2 * ((w - 1) * h + w * (h - 1)))
        by (nonlinear_arith);
}

} // verus!
