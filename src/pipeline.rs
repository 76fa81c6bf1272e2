use vstd::prelude::*;

use crate::grid::{opaque, Grid, Image, Rgba, RgbaImage};
use crate::pass::{pass_grid, pass_summaries, smoothing_pass, NeighborSummary, Verdict};

verus! {

/// Fewest passes a run may ask for.
pub const MIN_PASSES: i16 = 1;

/// Most passes a run may ask for.
pub const MAX_PASSES: i16 = 32;

/// Why a pipeline could not be started.
#[derive(Clone, Copy, Debug, PartialEq, Eq, Structural)]
pub enum PipelineError {
    /// The pass count lies outside `MIN_PASSES..=MAX_PASSES`.
    InvalidPassCount,
}

/// `g` after the first `k` passes, pass `i` taking the verdicts `vs[i]`.
pub open spec fn run_passes(g: Grid, vs: Seq<Seq<Verdict>>, k: nat) -> Grid
    decreases k,
{
    if k == 0 {
        g
    } else {
        pass_grid(run_passes(g, vs, (k - 1) as nat), vs[k - 1])
    }
}

/// A pass keeps the size and the well-formedness of an image.
pub proof fn lemma_pass_keeps_shape(g: Grid, v: Seq<Verdict>)
    requires
        g.wf(),
    ensures
        pass_grid(g, v).wf(),
        pass_grid(g, v).width == g.width,
        pass_grid(g, v).height == g.height,
{
}

/// Any number of passes keeps the size and the well-formedness of an image.
pub proof fn lemma_run_keeps_shape(g: Grid, vs: Seq<Seq<Verdict>>, k: nat)
    requires
        g.wf(),
    ensures
        run_passes(g, vs, k).wf(),
        run_passes(g, vs, k).width == g.width,
        run_passes(g, vs, k).height == g.height,
    decreases k,
{
    if k > 0 {
        lemma_run_keeps_shape(g, vs, (k - 1) as nat);
        lemma_pass_keeps_shape(run_passes(g, vs, (k - 1) as nat), vs[k - 1]);
    }
}

/// Running `k` passes and then feeding the result through one more pass
/// gives the image that running `k + 1` passes on the input gives.
pub proof fn lemma_one_more_pass(g: Grid, vs: Seq<Seq<Verdict>>, k: nat)
    requires
        k < vs.len(),
    ensures
        run_passes(run_passes(g, vs, k), vs.subrange(k as int, k + 1int), 1) == run_passes(
            g,
            vs,
            k + 1,
        ),
{
    let rest = vs.subrange(k as int, k + 1int);
    assert(rest[0] == vs[k as int]);
    assert(run_passes(run_passes(g, vs, k), rest, 0) == run_passes(g, vs, k));
}

/// The state of a run: the input, the image after the passes made so far,
/// how many passes were asked for and made, and the verdicts of each.
pub struct PipelineState {
    pub original: Grid,
    pub current: Grid,
    pub total: nat,
    pub done: nat,
    pub history: Seq<Seq<Verdict>>,
}

impl PipelineState {
    pub open spec fn wf(self) -> bool {
        &&& self.original.wf()
        &&& MIN_PASSES <= self.total <= MAX_PASSES
        &&& self.done <= self.total
        &&& self.history.len() == self.done
        &&& self.current == run_passes(self.original, self.history, self.done)
    }
}

/// A run of smoothing passes over one input image. Each pass reads the image
/// that the previous one produced, whole, and produces a new one.
pub struct Pipeline {
    original: Image,
    current: Image,
    total: u32,
    done: u32,
    history: Ghost<Seq<Seq<Verdict>>>,
}

impl View for Pipeline {
    type V = PipelineState;

    closed spec fn view(&self) -> PipelineState {
        PipelineState {
            original: self.original@,
            current: self.current@,
            total: self.total as nat,
            done: self.done as nat,
            history: self.history@,
        }
    }
}

/// A copy of `img`.
fn copy_image(img: &Image) -> (r: Image)
    ensures
        r@ == img@,
{
    let pixels = img.pixels.clone();
    assert(pixels@ =~= img.pixels@);
    Image { width: img.width, height: img.height, pixels }
}

impl Pipeline {
    pub open spec fn wf(&self) -> bool {
        self@.wf()
    }

    /// Starts a run of `passes` passes over `input`; an error when `passes`
    /// lies outside `MIN_PASSES..=MAX_PASSES`.
    pub fn new(input: Image, passes: i16) -> (r: Result<Pipeline, PipelineError>)
        requires
            input.wf(),
        ensures
            r is Err <==> (passes < MIN_PASSES || passes > MAX_PASSES),
            r matches Ok(p) ==> {
                &&& p.wf()
                &&& p@.original == input@
                &&& p@.current == input@
                &&& p@.total == passes
                &&& p@.done == 0
            },
    {
        if passes < MIN_PASSES || passes > MAX_PASSES {
            return Err(PipelineError::InvalidPassCount);
        }
        let current = copy_image(&input);
        Ok(Pipeline {
            original: input,
            current,
            total: passes as u32,
            done: 0,
            history: Ghost(Seq::empty()),
        })
    }

    /// How many passes the run makes in all.
    pub fn passes_total(&self) -> (r: u32)
        ensures
            r == self@.total,
    {
        self.total
    }

    /// How many passes have been made.
    pub fn passes_done(&self) -> (r: u32)
        ensures
            r == self@.done,
    {
        self.done
    }

    /// Whether every pass has been made.
    pub fn is_done(&self) -> (r: bool)
        ensures
            r == (self@.done == self@.total),
    {
        self.done == self.total
    }

    /// The input image, unchanged.
    pub fn original(&self) -> (r: &Image)
        ensures
            r@ == self@.original,
    {
        &self.original
    }

    /// The image after the passes made so far.
    pub fn current(&self) -> (r: &Image)
        ensures
            r@ == self@.current,
    {
        &self.current
    }

    /// The neighbour summary of each pixel of the current image, which the
    /// colour-space comparison of the next pass needs.
    pub fn pending_summaries(&self) -> (r: Vec<NeighborSummary>)
        requires
            self.wf(),
        ensures
            r.len() == self@.current.pixels.len(),
            forall|i: int|
                0 <= i < r.len() ==> crate::pass::summarizes(
                    #[trigger] r@[i],
                    self@.current,
                    i % (self@.current.width as int),
                    i / (self@.current.width as int),
                ),
    {
        proof {
            lemma_run_keeps_shape(self.original@, self.history@, self.done as nat);
        }
        pass_summaries(&self.current)
    }

    /// Makes the next pass over the current image with the given verdicts.
    pub fn advance(&mut self, verdicts: &Vec<Verdict>)
        requires
            old(self).wf(),
            old(self)@.done < old(self)@.total,
            verdicts.len() == old(self)@.current.pixels.len(),
        ensures
            final(self).wf(),
            final(self)@.current == pass_grid(old(self)@.current, verdicts@),
            final(self)@.original == old(self)@.original,
            final(self)@.total == old(self)@.total,
            final(self)@.done == old(self)@.done + 1,
            final(self)@.history == old(self)@.history.push(verdicts@),
    {
        proof {
            lemma_run_keeps_shape(self.original@, self.history@, self.done as nat);
        }
        let next = smoothing_pass(&self.current, verdicts);
        let ghost before = self.history@;
        self.current = next;
        self.done = self.done + 1;
        self.history = Ghost(before.push(verdicts@));
        proof {
            let h = self.history@;
            let k = self.done as nat;
            assert(h.subrange(0, k - 1) == before) by {
                assert(h.subrange(0, k - 1) =~= before);
            }
            lemma_run_prefix(self.original@, before, h, (k - 1) as nat);
        }
    }
}

/// Pixel `(x, y)` of the side-by-side image of `original` (left) and `last`
/// (right), both made opaque; the halves are `last.width` wide.
pub open spec fn composite_at(original: Grid, last: Grid, x: int, y: int) -> Rgba {
    if x < last.width {
        opaque(original.at(x, y))
    } else {
        opaque(last.at(x - last.width, y))
    }
}

impl Pipeline {
    /// The input on the left and the current image on the right, both fully
    /// opaque, in an image twice as wide.
    pub fn compose(&self) -> (out: RgbaImage)
        requires
            self.wf(),
            2 * self@.current.width <= u32::MAX,
        ensures
            out.wf(),
            out.width == 2 * self@.current.width,
            out.height == self@.current.height,
            forall|x: int, y: int|
                0 <= x < out.width && 0 <= y < out.height ==> #[trigger] out.at(x, y)
                    == composite_at(self@.original, self@.current, x, y),
    {
        proof {
            lemma_run_keeps_shape(self.original@, self.history@, self.done as nat);
        }
        let w = self.current.width;
        let h = self.current.height;
        let ww = 2 * w;
        let ghost (o, c) = (self.original@, self.current@);
        let mut pixels: Vec<Rgba> = Vec::new();
        let mut y: u32 = 0;
        while y < h
            invariant
                self.wf(),
                o == self.original@,
                c == self.current@,
                o.width == w && o.height == h && c.width == w && c.height == h,
                self.original.wf() && self.current.wf(),
                ww == 2 * w,
                y <= h,
                pixels.len() == y * ww,
                forall|j: int|
                    0 <= j < pixels.len() ==> #[trigger] pixels@[j] == composite_at(
                        o,
                        c,
                        j % (ww as int),
                        j / (ww as int),
                    ),
            decreases h - y,
        {
            let mut x: u32 = 0;
            while x < ww
                invariant
                    self.wf(),
                    o == self.original@,
                    c == self.current@,
                    o.width == w && o.height == h && c.width == w && c.height == h,
                    self.original.wf() && self.current.wf(),
                    ww == 2 * w,
                    y < h,
                    x <= ww,
                    pixels.len() == y * ww + x,
                    forall|j: int|
                        0 <= j < pixels.len() ==> #[trigger] pixels@[j] == composite_at(
                            o,
                            c,
                            j % (ww as int),
                            j / (ww as int),
                        ),
                decreases ww - x,
            {
                let p = if x < w {
                    self.original.get_pixel(x, y)
                } else {
                    self.current.get_pixel(x - w, y)
                };
                proof {
                    let j = y * ww + x;
                    vstd::arithmetic::div_mod::lemma_fundamental_div_mod_converse(
                        j,
                        ww as int,
                        y as int,
                        x as int,
                    );
                }
                pixels.push(Rgba { r: p.r, g: p.g, b: p.b, a: 255 });
                x = x + 1;
            }
            assert((y + 1) * ww == y * ww + ww) by (nonlinear_arith);
            y = y + 1;
        }
        let out = RgbaImage { width: ww, height: h, pixels };
        assert forall|x: int, y: int|
            0 <= x < out.width && 0 <= y < out.height implies #[trigger] out.at(x, y)
                == composite_at(o, c, x, y) by {
            crate::grid::lemma_index_in_range(x, y, ww as int, h as int);
            vstd::arithmetic::div_mod::lemma_fundamental_div_mod_converse(
                y * ww + x,
                ww as int,
                y,
                x,
            );
        }
        assert(out.pixels.len() == ww * h) by (nonlinear_arith)
            requires
                out.pixels.len() == y * ww,
                y == h,
        ;
        out
    }
}

/// Passes depend only on the verdicts of the passes made so far.
proof fn lemma_run_prefix(g: Grid, a: Seq<Seq<Verdict>>, b: Seq<Seq<Verdict>>, k: nat)
    requires
        k <= a.len(),
        k <= b.len(),
        forall|i: int| 0 <= i < k ==> a[i] == b[i],
    ensures
        run_passes(g, a, k) == run_passes(g, b, k),
    decreases k,
{
    if k > 0 {
        lemma_run_prefix(g, a, b, (k - 1) as nat);
    }
}

} // verus!
