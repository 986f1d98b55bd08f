//! What holds of every frame, whatever the samples.
//!
//! The raster is defined sample by sample. The theorems here say what that
//! comes to for a whole run: which sample a cell ends up showing, that the
//! stored depth is the largest among the candidates, that samples facing away
//! leave no trace, and that nothing but palette colours is ever written.

use vstd::prelude::*;
use crate::binary32::{lemma_word_of_a_number, Binary32};
use crate::palette::{bucket, shade_spec, GRADIENT, PALETTE_LEN};
use crate::raster::{
    cleared,
    lemma_plot_keeps_wf,
    lemma_sample_cell_in_range,
    plot_all_spec,
    plot_spec,
    render_spec,
    Raster,
    Sample,
};

verus! {

/// Sample `i` wins cell `c`: it is visible and falls on `c`, it is nearer than
/// what the cell held before the run, no candidate before it is as near, and no
/// candidate after it is nearer.
pub open spec fn wins(
    width: int,
    height: int,
    before: Raster,
    samples: Seq<Sample>,
    c: int,
    i: int,
) -> bool {
    &&& 0 <= i < samples.len()
    &&& samples[i].lands_on(width, height, c)
    &&& samples[i].inv_depth.greater(before.depth[c])
    &&& forall|j: int|
        0 <= j < i && (#[trigger] samples[j]).lands_on(width, height, c)
            ==> !samples[j].inv_depth.at_least(samples[i].inv_depth)
    &&& forall|j: int|
        i < j < samples.len() && (#[trigger] samples[j]).lands_on(width, height, c)
            ==> !samples[j].inv_depth.greater(samples[i].inv_depth)
}

/// No sample of the run beats what cell `c` held before it.
pub open spec fn unbeaten(
    width: int,
    height: int,
    before: Raster,
    samples: Seq<Sample>,
    c: int,
) -> bool {
    forall|j: int|
        0 <= j < samples.len() && (#[trigger] samples[j]).lands_on(width, height, c)
            ==> !samples[j].inv_depth.greater(before.depth[c])
}

/// The sample that cell `c` shows after the run, found by going through the
/// samples in order; `None` where the cell shows what it held before.
pub open spec fn winner(
    width: int,
    height: int,
    before: Raster,
    samples: Seq<Sample>,
    c: int,
) -> Option<int>
    decreases samples.len(),
{
    if samples.len() == 0 {
        None
    } else {
        let earlier = winner(width, height, before, samples.drop_last(), c);
        let held = match earlier {
            Some(i) => samples[i].inv_depth,
            None => before.depth[c],
        };
        let s = samples.last();
        if s.lands_on(width, height, c) && s.inv_depth.greater(held) {
            Some(samples.len() - 1)
        } else {
            earlier
        }
    }
}

/// Plotting a run keeps a well-formed raster well-formed.
pub proof fn lemma_plot_all_keeps_wf(width: int, height: int, before: Raster, samples: Seq<Sample>)
    requires
        before.wf(width, height),
    ensures
        plot_all_spec(width, height, before, samples).wf(width, height),
    decreases samples.len(),
{
    if samples.len() > 0 {
        lemma_plot_all_keeps_wf(width, height, before, samples.drop_last());
        lemma_plot_keeps_wf(
            width,
            height,
            plot_all_spec(width, height, before, samples.drop_last()),
            samples.last(),
        );
    }
}

/// Plotting one more sample after a run is plotting the run with the sample at its end.
pub proof fn lemma_plot_all_push(
    width: int,
    height: int,
    before: Raster,
    samples: Seq<Sample>,
    s: Sample,
)
    ensures
        plot_all_spec(width, height, before, samples.push(s)) == plot_spec(
            width,
            height,
            plot_all_spec(width, height, before, samples),
            s,
        ),
{
    assert(samples.push(s).drop_last() =~= samples);
}

/// Plotting in batches is plotting at once: a run followed by a second run,
/// each plotted in order, leaves what the two runs joined leave.
pub proof fn lemma_plot_all_concat(
    width: int,
    height: int,
    before: Raster,
    first: Seq<Sample>,
    second: Seq<Sample>,
)
    ensures
        plot_all_spec(width, height, before, first + second) == plot_all_spec(
            width,
            height,
            plot_all_spec(width, height, before, first),
            second,
        ),
    decreases second.len(),
{
    if second.len() == 0 {
        assert(first + second =~= first);
    } else {
        lemma_plot_all_concat(width, height, before, first, second.drop_last());
        assert((first + second).drop_last() =~= first + second.drop_last());
        assert((first + second).last() == second.last());
    }
}

/// Every cell shows the first among the nearest: after a run of samples a
/// cell holds the inverse depth and the colour of the sample that wins it, and
/// where no sample beat what the cell held, depth and colour are what they were.
pub proof fn lemma_cell_shows_winner(
    width: int,
    height: int,
    before: Raster,
    samples: Seq<Sample>,
    c: int,
)
    requires
        before.wf(width, height),
        0 <= c < width * height,
    ensures
        match winner(width, height, before, samples, c) {
            Some(i) => {
                &&& wins(width, height, before, samples, c, i)
                &&& plot_all_spec(width, height, before, samples).depth[c] == samples[i].inv_depth
                &&& plot_all_spec(width, height, before, samples).pixels[c] == shade_spec(
                    samples[i].luminance,
                )
            },
            None => {
                &&& unbeaten(width, height, before, samples, c)
                &&& plot_all_spec(width, height, before, samples).depth[c] == before.depth[c]
                &&& plot_all_spec(width, height, before, samples).pixels[c] == before.pixels[c]
            },
        },
    decreases samples.len(),
{
    if samples.len() > 0 {
        let init = samples.drop_last();
        let s = samples.last();
        let n = samples.len() - 1;
        let mid = plot_all_spec(width, height, before, init);
        lemma_cell_shows_winner(width, height, before, init, c);
        lemma_plot_all_keeps_wf(width, height, before, init);
        lemma_sample_cell_in_range(width, height, s);
        assert(forall|j: int| 0 <= j < n ==> init[j] == samples[j]);
        assert(!before.depth[c].nan());
        let earlier = winner(width, height, before, init, c);
        let held = match earlier {
            Some(i) => samples[i].inv_depth,
            None => before.depth[c],
        };
        assert(mid.depth[c] == held);
        if s.lands_on(width, height, c) && s.inv_depth.greater(held) {
            assert(wins(width, height, before, samples, c, n)) by {
                assert forall|j: int|
                    0 <= j < n && (#[trigger] samples[j]).lands_on(width, height, c) implies
                    !samples[j].inv_depth.at_least(s.inv_depth) by {
                    assert(init[j].lands_on(width, height, c));
                }
            }
        } else {
            match earlier {
                Some(i) => {
                    assert(wins(width, height, before, init, c, i));
                    assert forall|j: int|
                        i < j < samples.len() && (#[trigger] samples[j]).lands_on(
                            width,
                            height,
                            c,
                        ) implies !samples[j].inv_depth.greater(samples[i].inv_depth) by {
                        if j < n {
                            assert(init[j].lands_on(width, height, c));
                        }
                    }
                    assert forall|j: int|
                        0 <= j < i && (#[trigger] samples[j]).lands_on(width, height, c) implies
                        !samples[j].inv_depth.at_least(samples[i].inv_depth) by {
                        assert(init[j].lands_on(width, height, c));
                    }
                },
                None => {
                    assert forall|j: int|
                        0 <= j < samples.len() && (#[trigger] samples[j]).lands_on(
                            width,
                            height,
                            c,
                        ) implies !samples[j].inv_depth.greater(before.depth[c]) by {
                        if j < n {
                            assert(init[j].lands_on(width, height, c));
                        }
                    }
                },
            }
        }
    }
}

/// A cell shows the sample that wins it: whichever sample of a run is a
/// candidate nearer than what the cell held, with no earlier candidate as near
/// and no later one nearer, its inverse depth and its colour are what the cell
/// holds after the run.
pub proof fn lemma_winner_is_shown(
    width: int,
    height: int,
    before: Raster,
    samples: Seq<Sample>,
    c: int,
    i: int,
)
    requires
        before.wf(width, height),
        0 <= c < width * height,
        wins(width, height, before, samples, c, i),
    ensures
        plot_all_spec(width, height, before, samples).depth[c] == samples[i].inv_depth,
        plot_all_spec(width, height, before, samples).pixels[c] == shade_spec(
            samples[i].luminance,
        ),
{
    lemma_cell_shows_winner(width, height, before, samples, c);
    match winner(width, height, before, samples, c) {
        Some(k) => {
            assert(wins(width, height, before, samples, c, k));
            if k < i {
                assert(samples[k].lands_on(width, height, c));
                assert(!samples[k].inv_depth.at_least(samples[i].inv_depth));
                assert(samples[i].lands_on(width, height, c));
                assert(!samples[i].inv_depth.greater(samples[k].inv_depth));
            }
            if i < k {
                assert(samples[i].lands_on(width, height, c));
                assert(!samples[i].inv_depth.at_least(samples[k].inv_depth));
                assert(samples[k].lands_on(width, height, c));
                assert(!samples[k].inv_depth.greater(samples[i].inv_depth));
            }
            assert(k == i);
        },
        None => {
            assert(samples[i].lands_on(width, height, c));
        },
    }
}

/// A cell that no sample beats is kept: where no candidate of a run is nearer
/// than what the cell held, the cell holds after the run what it held before.
pub proof fn lemma_unbeaten_cell_is_kept(
    width: int,
    height: int,
    before: Raster,
    samples: Seq<Sample>,
    c: int,
)
    requires
        before.wf(width, height),
        0 <= c < width * height,
        unbeaten(width, height, before, samples, c),
    ensures
        plot_all_spec(width, height, before, samples).depth[c] == before.depth[c],
        plot_all_spec(width, height, before, samples).pixels[c] == before.pixels[c],
{
    lemma_cell_shows_winner(width, height, before, samples, c);
    match winner(width, height, before, samples, c) {
        Some(k) => {
            assert(samples[k].lands_on(width, height, c));
        },
        None => {},
    }
}

/// The stored depth is the largest there was: after a run no candidate of a
/// cell is nearer than the depth the cell holds, and that depth is either what
/// the cell held before or the inverse depth of one of its candidates.
pub proof fn lemma_depth_is_maximum(
    width: int,
    height: int,
    before: Raster,
    samples: Seq<Sample>,
    c: int,
)
    requires
        before.wf(width, height),
        0 <= c < width * height,
    ensures
        forall|j: int|
            0 <= j < samples.len() && (#[trigger] samples[j]).lands_on(width, height, c)
                ==> !samples[j].inv_depth.greater(
                plot_all_spec(width, height, before, samples).depth[c],
            ),
        !before.depth[c].greater(plot_all_spec(width, height, before, samples).depth[c]),
        plot_all_spec(width, height, before, samples).depth[c] != before.depth[c]
            ==> plot_all_spec(width, height, before, samples).depth[c].greater(before.depth[c]),
        plot_all_spec(width, height, before, samples).depth[c] == before.depth[c] || exists|i: int|
            0 <= i < samples.len() && (#[trigger] samples[i]).lands_on(width, height, c)
                && samples[i].inv_depth == plot_all_spec(width, height, before, samples).depth[c],
{
    lemma_cell_shows_winner(width, height, before, samples, c);
    assert(!before.depth[c].nan());
    match winner(width, height, before, samples, c) {
        Some(i) => {
            assert(samples[i].lands_on(width, height, c));
        },
        None => {},
    }
}

/// A run leaves no cell farther than a run does whose samples it all holds.
pub proof fn lemma_more_samples_are_no_farther(
    width: int,
    height: int,
    before: Raster,
    fewer: Seq<Sample>,
    more: Seq<Sample>,
    c: int,
)
    requires
        before.wf(width, height),
        0 <= c < width * height,
        forall|i: int| 0 <= i < fewer.len() ==> more.contains(#[trigger] fewer[i]),
    ensures
        plot_all_spec(width, height, before, fewer).depth[c].ulps() <= plot_all_spec(
            width,
            height,
            before,
            more,
        ).depth[c].ulps(),
{
    let low = plot_all_spec(width, height, before, fewer).depth[c];
    let high = plot_all_spec(width, height, before, more).depth[c];
    lemma_depth_is_maximum(width, height, before, fewer, c);
    lemma_depth_is_maximum(width, height, before, more, c);
    lemma_plot_all_keeps_wf(width, height, before, fewer);
    lemma_plot_all_keeps_wf(width, height, before, more);
    assert(!low.nan() && !high.nan() && !before.depth[c].nan());
    if low != before.depth[c] {
        let i = choose|i: int|
            0 <= i < fewer.len() && (#[trigger] fewer[i]).lands_on(width, height, c)
                && fewer[i].inv_depth == low;
        assert(more.contains(fewer[i]));
        let j = choose|j: int| 0 <= j < more.len() && more[j] == fewer[i];
        assert(more[j].lands_on(width, height, c));
        assert(!more[j].inv_depth.greater(high));
    }
}

/// The depth buffer does not depend on the order of the samples: two runs
/// that hold the same samples, in any order and any number of times, leave
/// the same depth in every cell.
///
/// The depths are equal as numbers; they are the same word wherever the cell
/// held nothing below zero before, as in every frame.
pub proof fn lemma_depth_does_not_depend_on_order(
    width: int,
    height: int,
    before: Raster,
    first: Seq<Sample>,
    second: Seq<Sample>,
    c: int,
)
    requires
        before.wf(width, height),
        0 <= c < width * height,
        forall|i: int| 0 <= i < first.len() ==> second.contains(#[trigger] first[i]),
        forall|i: int| 0 <= i < second.len() ==> first.contains(#[trigger] second[i]),
    ensures
        plot_all_spec(width, height, before, first).depth[c].ulps() == plot_all_spec(
            width,
            height,
            before,
            second,
        ).depth[c].ulps(),
        before.depth[c].ulps() >= 0 ==> plot_all_spec(width, height, before, first).depth[c]
            == plot_all_spec(width, height, before, second).depth[c],
{
    let one = plot_all_spec(width, height, before, first).depth[c];
    let two = plot_all_spec(width, height, before, second).depth[c];
    lemma_more_samples_are_no_farther(width, height, before, first, second, c);
    lemma_more_samples_are_no_farther(width, height, before, second, first, c);
    if before.depth[c].ulps() >= 0 && one != two {
        // One of the two was drawn, so their common value is above zero.
        lemma_depth_is_maximum(width, height, before, first, c);
        lemma_depth_is_maximum(width, height, before, second, c);
        lemma_plot_all_keeps_wf(width, height, before, first);
        lemma_plot_all_keeps_wf(width, height, before, second);
        assert(!one.nan() && !two.nan());
        assert(one.ulps() > 0);
        lemma_word_of_a_number(one, two);
    }
}

/// No sample overwrites a nearer one: one more sample changes the depth of a
/// cell only to its own inverse depth, and only where that is strictly larger
/// than what the cell held.
pub proof fn lemma_plot_only_raises_depth(width: int, height: int, r: Raster, s: Sample, c: int)
    requires
        r.wf(width, height),
        0 <= c < width * height,
    ensures
        plot_spec(width, height, r, s).depth[c] != r.depth[c] ==> {
            &&& plot_spec(width, height, r, s).depth[c] == s.inv_depth
            &&& s.lands_on(width, height, c)
            &&& s.inv_depth.greater(r.depth[c])
        },
        plot_spec(width, height, r, s).pixels[c] != r.pixels[c] ==> {
            &&& plot_spec(width, height, r, s).pixels[c] == shade_spec(s.luminance)
            &&& s.lands_on(width, height, c)
            &&& s.inv_depth.greater(r.depth[c])
        },
{
    lemma_sample_cell_in_range(width, height, s);
}

/// A sample that faces away is never drawn: where the luminance is zero,
/// below zero or a NaN, plotting leaves both buffers as they are.
pub proof fn lemma_culled_sample_changes_nothing(width: int, height: int, r: Raster, s: Sample)
    requires
        !s.luminance.positive(),
    ensures
        plot_spec(width, height, r, s) == r,
{
}

/// Samples that face away leave no trace in a frame: a run of samples leaves
/// what the visible ones among them leave.
pub proof fn lemma_culled_samples_change_nothing(
    width: int,
    height: int,
    before: Raster,
    samples: Seq<Sample>,
)
    ensures
        plot_all_spec(width, height, before, samples) == plot_all_spec(
            width,
            height,
            before,
            samples.filter(|s: Sample| s.visible()),
        ),
    decreases samples.len(),
{
    let visible = |s: Sample| s.visible();
    reveal(Seq::filter);
    if samples.len() > 0 {
        lemma_culled_samples_change_nothing(width, height, before, samples.drop_last());
        if samples.last().visible() {
            lemma_plot_all_push(
                width,
                height,
                before,
                samples.drop_last().filter(visible),
                samples.last(),
            );
        }
    }
}

/// Nothing but the palette is ever written: after a run a pixel holds either
/// what it held before or one of the colours of the ramp.
pub proof fn lemma_pixels_are_palette_colours(
    width: int,
    height: int,
    before: Raster,
    samples: Seq<Sample>,
    c: int,
)
    requires
        before.wf(width, height),
        0 <= c < width * height,
    ensures
        plot_all_spec(width, height, before, samples).pixels[c] == before.pixels[c] || exists|
            k: int,
        |
            0 <= k < PALETTE_LEN && plot_all_spec(width, height, before, samples).pixels[c]
                == #[trigger] GRADIENT[k],
{
    lemma_cell_shows_winner(width, height, before, samples, c);
    match winner(width, height, before, samples, c) {
        Some(i) => {
            let k = bucket(samples[i].luminance);
            assert(0 <= k < PALETTE_LEN);
            assert(shade_spec(samples[i].luminance) == GRADIENT[k]);
        },
        None => {},
    }
}

/// A frame is a function of its samples and of the pixels it starts from: two
/// pixel buffers that were both rendered from the same samples over the same
/// pixels are equal, cell by cell.
pub proof fn lemma_render_is_deterministic(
    width: int,
    height: int,
    samples: Seq<Sample>,
    pixels: Seq<u32>,
    first: Seq<u32>,
    second: Seq<u32>,
)
    requires
        first == render_spec(width, height, samples, pixels),
        second == render_spec(width, height, samples, pixels),
    ensures
        first == second,
{
}

/// In a frame, a pixel that no visible sample falls on keeps its colour, and
/// one that some visible sample with an inverse depth above zero falls on
/// takes a colour of the ramp from such a sample.
pub proof fn lemma_frame_cell(
    width: int,
    height: int,
    samples: Seq<Sample>,
    pixels: Seq<u32>,
    c: int,
)
    requires
        0 <= width,
        0 <= height,
        pixels.len() == width * height,
        0 <= c < width * height,
    ensures
        (forall|j: int|
            0 <= j < samples.len() && (#[trigger] samples[j]).lands_on(width, height, c)
                ==> !samples[j].inv_depth.positive()) ==> render_spec(
            width,
            height,
            samples,
            pixels,
        )[c] == pixels[c],
        (exists|j: int|
            0 <= j < samples.len() && (#[trigger] samples[j]).lands_on(width, height, c)
                && samples[j].inv_depth.positive()) ==> exists|i: int|
            0 <= i < samples.len() && (#[trigger] samples[i]).lands_on(width, height, c)
                && samples[i].inv_depth.positive() && render_spec(
                width,
                height,
                samples,
                pixels,
            )[c] == shade_spec(samples[i].luminance),
{
    let before = Raster { depth: cleared(width, height), pixels };
    assert(before.wf(width, height)) by {
        assert(0 <= width * height) by (nonlinear_arith)
            requires
                0 <= width,
                0 <= height,
        ;
        lemma_zero_is_zero();
    }
    lemma_zero_is_zero();
    lemma_cell_shows_winner(width, height, before, samples, c);
    assert(before.depth[c] == Binary32::zero());
    match winner(width, height, before, samples, c) {
        Some(i) => {
            assert(samples[i].lands_on(width, height, c));
        },
        None => {
            assert(unbeaten(width, height, before, samples, c));
        },
    }
}

/// The word of all zero bits is the number zero: not a NaN, and of value zero.
pub proof fn lemma_zero_is_zero()
    ensures
        !Binary32::zero().nan(),
        Binary32::zero().ulps() == 0,
        forall|a: Binary32| a.greater(Binary32::zero()) <==> a.positive(),
{
}

} // verus!
