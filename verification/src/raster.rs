//! The depth-tested raster: projected samples go in, the nearest lit sample
//! of every pixel stays.
//!
//! A frame has two buffers of one cell per pixel, both row-major: the depth
//! buffer, which holds the largest inverse depth drawn so far, and the pixel
//! buffer, which holds the colour that came with it. The depth buffer lives
//! for one frame and starts at zero, "nothing drawn, infinitely far"; the pixel
//! buffer belongs to the caller, and whatever no sample reaches is left as it was.

use vstd::prelude::*;
use crate::binary32::Binary32;
use crate::grid::{xy, xy_spec};
use crate::palette::{shade, shade_spec};

verus! {

/// Width of the standard screen, in pixels.
pub const SCREEN_WIDTH: usize = 100;

/// Height of the standard screen, in pixels.
pub const SCREEN_HEIGHT: usize = 100;

/// One point of the surface after projection.
#[derive(Clone, Copy, Debug, PartialEq, Eq)]
pub struct Sample {
    /// Horizontal screen coordinate, growing to the right.
    pub screen_x: Binary32,
    /// Vertical screen coordinate, growing downwards.
    pub screen_y: Binary32,
    /// One over the distance from the viewer: larger is nearer.
    pub inv_depth: Binary32,
    /// Cosine-like measure of how directly the surface faces the light.
    pub luminance: Binary32,
}

impl Sample {
    /// The cell of the pixel that the sample falls on: its coordinates cut to
    /// integers, where both lie on the screen.
    pub open spec fn cell(self, width: int, height: int) -> Option<int> {
        match (self.screen_x.index_below(width), self.screen_y.index_below(height)) {
            (Some(x), Some(y)) => Some(xy_spec(width, x, y)),
            _ => None,
        }
    }

    /// Whether the sample faces the light: its luminance is above zero.
    pub open spec fn visible(self) -> bool {
        self.luminance.positive()
    }

    /// Whether the sample is a candidate for cell `c`: visible, and on it.
    pub open spec fn lands_on(self, width: int, height: int, c: int) -> bool {
        self.visible() && self.cell(width, height) == Some(c)
    }
}

/// The two buffers of a frame.
pub struct Raster {
    /// Largest inverse depth drawn so far, per cell.
    pub depth: Seq<Binary32>,
    /// Colour, per cell.
    pub pixels: Seq<u32>,
}

impl Raster {
    /// Both buffers have one cell per pixel, and no stored depth is a NaN.
    pub open spec fn wf(self, width: int, height: int) -> bool {
        &&& 0 <= width
        &&& 0 <= height
        &&& self.depth.len() == width * height
        &&& self.pixels.len() == width * height
        &&& forall|c: int| 0 <= c < self.depth.len() ==> !(#[trigger] self.depth[c]).nan()
    }
}

/// The depth buffer at the start of a frame: zero in every cell.
pub open spec fn cleared(width: int, height: int) -> Seq<Binary32> {
    Seq::new((width * height) as nat, |c: int| Binary32::zero())
}

/// The raster after one sample.
///
/// A sample that is not visible, or that misses the screen, changes nothing.
/// Otherwise it is drawn where it is strictly nearer than what its cell holds.
pub open spec fn plot_spec(width: int, height: int, r: Raster, s: Sample) -> Raster {
    match s.cell(width, height) {
        Some(c) => if s.visible() && s.inv_depth.greater(r.depth[c]) {
            Raster {
                depth: r.depth.update(c, s.inv_depth),
                pixels: r.pixels.update(c, shade_spec(s.luminance)),
            }
        } else {
            r
        },
        None => r,
    }
}

/// The raster after a run of samples, plotted in order.
pub open spec fn plot_all_spec(width: int, height: int, r: Raster, samples: Seq<Sample>) -> Raster
    decreases samples.len(),
{
    if samples.len() == 0 {
        r
    } else {
        plot_spec(
            width,
            height,
            plot_all_spec(width, height, r, samples.drop_last()),
            samples.last(),
        )
    }
}

/// What a frame leaves in the pixel buffer: the samples plotted in order over
/// the pixels found there, against a depth buffer that starts cleared.
pub open spec fn render_spec(width: int, height: int, samples: Seq<Sample>, pixels: Seq<u32>) -> Seq<
    u32,
> {
    plot_all_spec(
        width,
        height,
        Raster { depth: cleared(width, height), pixels },
        samples,
    ).pixels
}

/// Row-major cells of a screen stay inside the screen.
pub proof fn lemma_cell_in_range(width: int, height: int, x: int, y: int)
    requires
        0 <= x < width,
        0 <= y < height,
    ensures
        0 <= xy_spec(width, x, y) < width * height,
{
    assert(0 <= y * width && y * width + width <= height * width) by (nonlinear_arith)
        requires
            0 <= y < height,
            0 < width,
    ;
    assert(height * width == width * height) by (nonlinear_arith);
}

/// Plotting keeps a well-formed raster well-formed.
pub proof fn lemma_plot_keeps_wf(width: int, height: int, r: Raster, s: Sample)
    requires
        r.wf(width, height),
    ensures
        plot_spec(width, height, r, s).wf(width, height),
{
    let after = plot_spec(width, height, r, s);
    lemma_sample_cell_in_range(width, height, s);
    assert forall|c: int| 0 <= c < after.depth.len() implies !(#[trigger] after.depth[c]).nan() by {
        if after.depth[c] != r.depth[c] {
            assert(after.depth[c] == s.inv_depth);
        }
    }
}

/// A sample's cell lies on the screen.
pub proof fn lemma_sample_cell_in_range(width: int, height: int, s: Sample)
    ensures
        match s.cell(width, height) {
            Some(c) => 0 <= c < width * height,
            None => true,
        },
{
    match (s.screen_x.index_below(width), s.screen_y.index_below(height)) {
        (Some(x), Some(y)) => {
            lemma_cell_in_range(width, height, x, y);
        },
        _ => {},
    }
}

/// The depth buffer of one frame.
pub struct DepthBuffer {
    width: usize,
    height: usize,
    cells: Vec<Binary32>,
}

impl View for DepthBuffer {
    type V = Seq<Binary32>;

    closed spec fn view(&self) -> Seq<Binary32> {
        self.cells@
    }
}

impl DepthBuffer {
    /// Width of the screen that the buffer covers.
    pub closed spec fn spec_width(&self) -> usize {
        self.width
    }

    /// Height of the screen that the buffer covers.
    pub closed spec fn spec_height(&self) -> usize {
        self.height
    }

    /// One cell per pixel, none of them a NaN.
    pub open spec fn wf(&self) -> bool {
        &&& self.width() * self.height() <= usize::MAX
        &&& self@.len() == self.width() * self.height()
        &&& forall|c: int| 0 <= c < self@.len() ==> !(#[trigger] self@[c]).nan()
    }

    /// The buffer beside a pixel buffer, as the raster that the two make up.
    pub open spec fn with(&self, pixels: Seq<u32>) -> Raster {
        Raster { depth: self@, pixels }
    }

    /// A cleared depth buffer for a screen of `width` by `height` pixels.
    pub fn new(width: usize, height: usize) -> (buffer: DepthBuffer)
        requires
            width * height <= usize::MAX,
        ensures
            buffer.wf(),
            buffer.width() == width,
            buffer.height() == height,
            buffer@ == cleared(width as int, height as int),
    {
        assert(0 <= width * height) by (nonlinear_arith)
            requires
                0 <= width,
                0 <= height,
        ;
        let cells = vec![Binary32 { bits: 0 }; width * height];
        assert(cells@ =~= cleared(width as int, height as int));
        DepthBuffer { width, height, cells }
    }

    /// Width of the screen that the buffer covers.
    #[verifier::when_used_as_spec(spec_width)]
    pub fn width(&self) -> (width: usize)
        ensures
            width == self.width(),
    {
        self.width
    }

    /// Height of the screen that the buffer covers.
    #[verifier::when_used_as_spec(spec_height)]
    pub fn height(&self) -> (height: usize)
        ensures
            height == self.height(),
    {
        self.height
    }

    /// The stored inverse depth of every cell, row by row.
    pub fn cells(&self) -> (cells: &Vec<Binary32>)
        ensures
            cells@ == self@,
    {
        &self.cells
    }

    /// Plots one sample: where it is visible, falls on the screen and is
    /// strictly nearer than what its pixel holds, its inverse depth and its
    /// colour are stored; otherwise both buffers stay as they are.
    pub fn plot(&mut self, output: &mut [u32], sample: Sample)
        requires
            old(self).wf(),
            old(output)@.len() == old(self)@.len(),
        ensures
            final(self).wf(),
            final(self).width() == old(self).width(),
            final(self).height() == old(self).height(),
            final(output)@.len() == old(output)@.len(),
            final(self).with(final(output)@) == plot_spec(
                old(self).width() as int,
                old(self).height() as int,
                old(self).with(old(output)@),
                sample,
            ),
    {
        if !sample.luminance.is_positive() {
            return ;
        }
        let x = match sample.screen_x.to_index(self.width) {
            Some(x) => x,
            None => {
                return ;
            },
        };
        let y = match sample.screen_y.to_index(self.height) {
            Some(y) => y,
            None => {
                return ;
            },
        };
        proof {
            lemma_cell_in_range(self.width as int, self.height as int, x as int, y as int);
        }
        let c = xy(self.width, x, y);
        if sample.inv_depth.exceeds(self.cells[c]) {
            self.cells[c] = sample.inv_depth;
            output[c] = shade(sample.luminance);
        }
    }

    /// Plots a run of samples in order.
    pub fn plot_all(&mut self, output: &mut [u32], samples: &[Sample])
        requires
            old(self).wf(),
            old(output)@.len() == old(self)@.len(),
        ensures
            final(self).wf(),
            final(self).width() == old(self).width(),
            final(self).height() == old(self).height(),
            final(output)@.len() == old(output)@.len(),
            final(self).with(final(output)@) == plot_all_spec(
                old(self).width() as int,
                old(self).height() as int,
                old(self).with(old(output)@),
                samples@,
            ),
    {
        let ghost width = self.width() as int;
        let ghost height = self.height() as int;
        let ghost before = self.with(output@);
        let n = samples.len();
        let mut i: usize = 0;
        while i < n
            invariant
                n == samples@.len(),
                i <= n,
                self.wf(),
                self.width() == width,
                self.height() == height,
                output@.len() == self@.len(),
                self.with(output@) == plot_all_spec(width, height, before, samples@.take(i as int)),
            decreases n - i,
        {
            proof {
                let done = samples@.take(i as int + 1);
                assert(done.drop_last() =~= samples@.take(i as int));
                assert(done.last() == samples@[i as int]);
            }
            self.plot(output, samples[i]);
            i += 1;
        }
        assert(samples@.take(n as int) =~= samples@);
    }
}

/// Renders one frame: clears a depth buffer for a screen of `width` by
/// `height` pixels and plots the samples, in order, into `output`.
pub fn render_frame(width: usize, height: usize, samples: &[Sample], output: &mut [u32])
    requires
        old(output)@.len() == width * height,
    ensures
        final(output)@.len() == old(output)@.len(),
        final(output)@ == render_spec(width as int, height as int, samples@, old(output)@),
{
    // The pixel buffer exists, so the number of its cells fits the machine.
    let _ = output.len();
    let mut depth = DepthBuffer::new(width, height);
    depth.plot_all(output, samples);
}

} // verus!
