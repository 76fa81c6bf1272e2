use vstd::prelude::*;

use crate::grid::{channel, lemma_index_in_range, lemma_index_split, Grid, Image, Pixel};
use crate::neighbors::{
    coords_view, get_neighbor_coordinates, lemma_neighbor_cells, neighbor_cells,
};

verus! {

/// Per-channel sums over the neighbours of one pixel, and how many there are.
#[derive(Clone, Copy, Debug, PartialEq, Eq, Structural)]
pub struct NeighborSummary {
    pub r_sum: u32,
    pub g_sum: u32,
    pub b_sum: u32,
    pub count: u32,
}

/// What the colour-space comparison decided for one pixel: keep it, or take
/// the colour that the mean of its neighbours converts back to.
#[derive(Clone, Copy, Debug, PartialEq, Eq, Structural)]
pub enum Verdict {
    Keep,
    Replace(Pixel),
}

/// The neighbours of `(x, y)` in `g`.
pub open spec fn cells_of(g: Grid, x: int, y: int) -> Seq<(int, int)> {
    neighbor_cells(x, y, g.width as int, g.height as int)
}

/// Sum of channel `c` over the pixels of `g` at `cells`.
pub open spec fn channel_sum(g: Grid, cells: Seq<(int, int)>, c: int) -> int
    decreases cells.len(),
{
    if cells.len() == 0 {
        0
    } else {
        channel_sum(g, cells.drop_last(), c) + channel(g.at(cells.last().0, cells.last().1), c)
    }
}

/// `s` holds the neighbour sums and count of `(x, y)` in `g`.
pub open spec fn summarizes(s: NeighborSummary, g: Grid, x: int, y: int) -> bool {
    let cells = cells_of(g, x, y);
    &&& s.count == cells.len()
    &&& s.r_sum == channel_sum(g, cells, 0)
    &&& s.g_sum == channel_sum(g, cells, 1)
    &&& s.b_sum == channel_sum(g, cells, 2)
}

/// A pixel is settled without any colour-space comparison when it has no
/// neighbours, or when the mean of its neighbours is exactly its own colour
/// (every difference is then zero and no threshold is exceeded).
pub open spec fn mean_settles(own: Pixel, count: int, r_sum: int, g_sum: int, b_sum: int) -> bool {
    count == 0 || (r_sum == count * own.r && g_sum == count * own.g && b_sum == count * own.b)
}

/// Whether pixel `(x, y)` of `g` is settled.
pub open spec fn settled_at(g: Grid, x: int, y: int) -> bool {
    let cells = cells_of(g, x, y);
    mean_settles(
        g.at(x, y),
        cells.len() as int,
        channel_sum(g, cells, 0),
        channel_sum(g, cells, 1),
        channel_sum(g, cells, 2),
    )
}

/// The colour a pixel takes: its own when settled or kept, else the one the
/// verdict gives.
pub open spec fn next_pixel(own: Pixel, settled: bool, v: Verdict) -> Pixel {
    if settled {
        own
    } else {
        match v {
            Verdict::Keep => own,
            Verdict::Replace(p) => p,
        }
    }
}

/// The colour of pixel `i` (row-major) after one pass over `g`.
pub open spec fn pass_pixel(g: Grid, v: Seq<Verdict>, i: int) -> Pixel {
    next_pixel(g.pixels[i], settled_at(g, i % (g.width as int), i / (g.width as int)), v[i])
}

/// The image after one pass over the snapshot `g`, with `v[i]` the verdict
/// for pixel `i`. Every pixel reads `g` alone.
pub open spec fn pass_grid(g: Grid, v: Seq<Verdict>) -> Grid {
    Grid {
        width: g.width,
        height: g.height,
        pixels: Seq::new(g.pixels.len(), |i: int| pass_pixel(g, v, i)),
    }
}

proof fn lemma_channel_sum_bound(g: Grid, cells: Seq<(int, int)>, c: int)
    ensures
        0 <= channel_sum(g, cells, c) <= 255 * cells.len(),
    decreases cells.len(),
{
    if cells.len() > 0 {
        lemma_channel_sum_bound(g, cells.drop_last(), c);
    }
}

/// The sums and count over the neighbours of `(x, y)`, all read from `img`.
pub fn neighbor_summary(img: &Image, x: u32, y: u32) -> (s: NeighborSummary)
    requires
        img.wf(),
        x < img.width,
        y < img.height,
    ensures
        summarizes(s, img@, x as int, y as int),
{
    let cells = match get_neighbor_coordinates(x, y, img.width, img.height) {
        Ok(v) => v,
        Err(_) => {
            proof {
                assert(false);
            }
            return NeighborSummary { r_sum: 0, g_sum: 0, b_sum: 0, count: 0 };
        },
    };
    let ghost g = img@;
    let ghost cs = cells_of(g, x as int, y as int);
    proof {
        lemma_neighbor_cells(x as int, y as int, img.width as int, img.height as int);
    }
    let mut r_sum: u32 = 0;
    let mut g_sum: u32 = 0;
    let mut b_sum: u32 = 0;
    let mut i: usize = 0;
    while i < cells.len()
        invariant
            img.wf(),
            g == img@,
            coords_view(cells@) == cs,
            cells.len() <= 4,
            i <= cells.len(),
            forall|j: int|
                0 <= j < cs.len() ==> {
                    let c = #[trigger] cs[j];
                    0 <= c.0 < img.width && 0 <= c.1 < img.height
                },
            r_sum == channel_sum(g, cs.take(i as int), 0),
            g_sum == channel_sum(g, cs.take(i as int), 1),
            b_sum == channel_sum(g, cs.take(i as int), 2),
            r_sum <= 255 * i,
            g_sum <= 255 * i,
            b_sum <= 255 * i,
        decreases cells.len() - i,
    {
        let (cx, cy) = cells[i];
        assert(cs[i as int] == (cx as int, cy as int));
        let p = img.get_pixel(cx, cy);
        assert(cs.take(i as int + 1).drop_last() =~= cs.take(i as int));
        assert(cs.take(i as int + 1).last() == cs[i as int]);
        r_sum = r_sum + p.r as u32;
        g_sum = g_sum + p.g as u32;
        b_sum = b_sum + p.b as u32;
        i = i + 1;
    }
    assert(cs.take(i as int) =~= cs);
    NeighborSummary { r_sum, g_sum, b_sum, count: cells.len() as u32 }
}

proof fn lemma_scaled_fits(n: u64, c: u64)
    requires
        n <= 0xffff_ffff,
        c <= 255,
    ensures
        n * c <= 255 * 0xffff_ffff,
{
    assert(n * c <= 255 * 0xffff_ffff) by (nonlinear_arith)
        requires
            n <= 0xffff_ffff,
            c <= 255,
    ;
}

/// Whether `own` is settled by the sums in `s` alone.
pub fn is_settled(own: Pixel, s: NeighborSummary) -> (r: bool)
    ensures
        r == mean_settles(own, s.count as int, s.r_sum as int, s.g_sum as int, s.b_sum as int),
{
    let n = s.count as u64;
    proof {
        lemma_scaled_fits(n, own.r as u64);
        lemma_scaled_fits(n, own.g as u64);
        lemma_scaled_fits(n, own.b as u64);
    }
    s.count == 0 || (s.r_sum as u64 == n * own.r as u64 && s.g_sum as u64 == n * own.g as u64
        && s.b_sum as u64 == n * own.b as u64)
}

/// The colour that `own`, with neighbour sums `s`, takes under verdict `v`.
pub fn resolve_pixel(own: Pixel, s: NeighborSummary, v: Verdict) -> (p: Pixel)
    ensures
        p == next_pixel(
            own,
            mean_settles(own, s.count as int, s.r_sum as int, s.g_sum as int, s.b_sum as int),
            v,
        ),
{
    if is_settled(own, s) {
        own
    } else {
        match v {
            Verdict::Keep => own,
            Verdict::Replace(p) => p,
        }
    }
}

/// The neighbour summary of every pixel of `snapshot`, in row-major order:
/// what the colour-space comparison of each pixel needs.
pub fn pass_summaries(snapshot: &Image) -> (r: Vec<NeighborSummary>)
    requires
        snapshot.wf(),
    ensures
        r.len() == snapshot.pixels.len(),
        forall|i: int|
            0 <= i < r.len() ==> summarizes(
                #[trigger] r@[i],
                snapshot@,
                i % (snapshot.width as int),
                i / (snapshot.width as int),
            ),
{
    let n = snapshot.pixels.len();
    let w = snapshot.width as usize;
    let mut r: Vec<NeighborSummary> = Vec::new();
    let mut i: usize = 0;
    while i < n
        invariant
            snapshot.wf(),
            n == snapshot.pixels.len(),
            w == snapshot.width,
            i <= n,
            r.len() == i,
            forall|j: int|
                0 <= j < i ==> summarizes(
                    #[trigger] r@[j],
                    snapshot@,
                    j % (snapshot.width as int),
                    j / (snapshot.width as int),
                ),
        decreases n - i,
    {
        proof {
            lemma_index_split(i as int, w as int, snapshot.height as int);
        }
        let x = (i % w) as u32;
        let y = (i / w) as u32;
        r.push(neighbor_summary(snapshot, x, y));
        i = i + 1;
    }
    r
}

/// One smoothing pass: a new image in which pixel `i` is
/// [`next_pixel`] of the snapshot's pixel `i`, whether it is settled, and
/// `verdicts[i]`. The snapshot is read, never written.
pub fn smoothing_pass(snapshot: &Image, verdicts: &Vec<Verdict>) -> (out: Image)
    requires
        snapshot.wf(),
        verdicts.len() == snapshot.pixels.len(),
    ensures
        out.wf(),
        out@ == pass_grid(snapshot@, verdicts@),
{
    let n = snapshot.pixels.len();
    let w = snapshot.width as usize;
    let ghost g = snapshot@;
    let mut pixels: Vec<Pixel> = Vec::new();
    let mut i: usize = 0;
    while i < n
        invariant
            snapshot.wf(),
            g == snapshot@,
            n == snapshot.pixels.len(),
            n == verdicts.len(),
            w == snapshot.width,
            i <= n,
            pixels.len() == i,
            forall|j: int| 0 <= j < i ==> #[trigger] pixels@[j] == pass_pixel(g, verdicts@, j),
        decreases n - i,
    {
        proof {
            lemma_index_split(i as int, w as int, snapshot.height as int);
        }
        let x = (i % w) as u32;
        let y = (i / w) as u32;
        let s = neighbor_summary(snapshot, x, y);
        let own = snapshot.pixels[i];
        assert(own == g.at(x as int, y as int));
        pixels.push(resolve_pixel(own, s, verdicts[i]));
        i = i + 1;
    }
    let out = Image { width: snapshot.width, height: snapshot.height, pixels };
    assert(out@.pixels =~= pass_grid(g, verdicts@).pixels);
    out
}

/// `buf` after writing, one position at a time in the order of `order`, the
/// colour that the pass over `g` gives that position.
pub open spec fn write_in_order(g: Grid, v: Seq<Verdict>, buf: Seq<Pixel>, order: Seq<int>) -> Seq<
    Pixel,
>
    decreases order.len(),
{
    if order.len() == 0 {
        buf
    } else {
        write_in_order(g, v, buf.update(order[0], pass_pixel(g, v, order[0])), order.drop_first())
    }
}

proof fn lemma_write_in_order_at(
    g: Grid,
    v: Seq<Verdict>,
    buf: Seq<Pixel>,
    order: Seq<int>,
    j: int,
)
    requires
        forall|k: int| 0 <= k < order.len() ==> 0 <= #[trigger] order[k] < buf.len(),
        0 <= j < buf.len(),
    ensures
        write_in_order(g, v, buf, order).len() == buf.len(),
        write_in_order(g, v, buf, order)[j] == if order.contains(j) {
            pass_pixel(g, v, j)
        } else {
            buf[j]
        },
    decreases order.len(),
{
    if order.len() > 0 {
        let k = order[0];
        let next = buf.update(k, pass_pixel(g, v, k));
        let rest = order.drop_first();
        assert forall|m: int| 0 <= m < rest.len() implies 0 <= #[trigger] rest[m] < next.len() by {
            assert(rest[m] == order[m + 1]);
        }
        lemma_write_in_order_at(g, v, next, rest, j);
        if rest.contains(j) {
            let m = choose|m: int| 0 <= m < rest.len() && rest[m] == j;
            assert(order[m + 1] == j);
        }
        if order.contains(j) && j != k {
            let m = choose|m: int| 0 <= m < order.len() && order[m] == j;
            assert(m > 0);
            assert(rest[m - 1] == j);
        }
    }
}

/// Pixel order does not matter within a pass: writing the pass's colours into
/// any buffer of the image's size, in any order that visits every position,
/// gives the image of [`pass_grid`], since every colour is read from the
/// unchanged snapshot.
pub proof fn lemma_pass_order_independent(
    g: Grid,
    v: Seq<Verdict>,
    buf: Seq<Pixel>,
    order: Seq<int>,
)
    requires
        g.wf(),
        v.len() == g.pixels.len(),
        buf.len() == g.pixels.len(),
        forall|k: int| 0 <= k < order.len() ==> 0 <= #[trigger] order[k] < buf.len(),
        forall|j: int| 0 <= j < buf.len() ==> order.contains(j),
    ensures
        write_in_order(g, v, buf, order) == pass_grid(g, v).pixels,
{
    let out = write_in_order(g, v, buf, order);
    assert(g.width * g.height >= 1) by (nonlinear_arith)
        requires
            g.width >= 1,
            g.height >= 1,
    ;
    lemma_write_in_order_at(g, v, buf, order, 0);
    assert forall|j: int| 0 <= j < buf.len() implies out[j] == pass_grid(g, v).pixels[j] by {
        lemma_write_in_order_at(g, v, buf, order, j);
    }
    assert(out =~= pass_grid(g, v).pixels);
}

proof fn lemma_uniform_channel_sum(g: Grid, cells: Seq<(int, int)>, color: Pixel, c: int)
    requires
        g.wf(),
        forall|i: int| 0 <= i < g.pixels.len() ==> g.pixels[i] == color,
        forall|k: int| 0 <= k < cells.len() ==> g.in_bounds(#[trigger] cells[k].0, cells[k].1),
    ensures
        channel_sum(g, cells, c) == cells.len() * channel(color, c),
    decreases cells.len(),
{
    if cells.len() > 0 {
        let last = cells.last();
        assert(g.in_bounds(cells[cells.len() - 1].0, cells[cells.len() - 1].1));
        lemma_index_in_range(last.0, last.1, g.width as int, g.height as int);
        lemma_uniform_channel_sum(g, cells.drop_last(), color, c);
        let a = channel(color, c);
        let n = cells.len() as int;
        assert((n - 1) * a + a == n * a) by (nonlinear_arith);
    }
}

/// A pass over an image whose pixels all have one colour gives that image
/// back, whatever the verdicts: every neighbour mean is that colour.
pub proof fn lemma_uniform_pass_is_identity(g: Grid, v: Seq<Verdict>, color: Pixel)
    requires
        g.wf(),
        v.len() == g.pixels.len(),
        forall|i: int| 0 <= i < g.pixels.len() ==> g.pixels[i] == color,
    ensures
        pass_grid(g, v) == g,
{
    let w = g.width as int;
    let h = g.height as int;
    assert forall|i: int| 0 <= i < g.pixels.len() implies #[trigger] pass_pixel(g, v, i)
        == g.pixels[i] by {
        lemma_index_split(i, w, h);
        let x = i % w;
        let y = i / w;
        lemma_neighbor_cells(x, y, w, h);
        let cells = cells_of(g, x, y);
        assert forall|k: int| 0 <= k < cells.len() implies g.in_bounds(
            #[trigger] cells[k].0,
            cells[k].1,
        ) by {
            let ck = cells[k];
        }
        lemma_uniform_channel_sum(g, cells, color, 0);
        lemma_uniform_channel_sum(g, cells, color, 1);
        lemma_uniform_channel_sum(g, cells, color, 2);
        assert(g.at(x, y) == g.pixels[i]);
        assert(settled_at(g, x, y));
    }
    assert(pass_grid(g, v).pixels =~= g.pixels);
}

} // verus!
