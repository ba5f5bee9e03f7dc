//! Rendering a picture: every pixel is handed out with a random stream of
//! its own, shaded on whatever worker thread is free, and put in its place
//! when all are done.
//!
//! Shading a pixel is the caller's: it takes the samples, follows their
//! paths, averages the colours and corrects them for gamma. What is proved
//! here is that the picture holds, in every slot, the level of the colour
//! that was shaded for the pixel of that slot, whatever order the workers
//! finished in.

use crate::ppm::Rgb;
use crate::raster::{
    complete,
    lemma_assembly_ignores_order,
    lemma_completeness_ignores_order,
    lemma_scan_is_row_major,
    pixel_seed,
    places,
    position,
    position_of,
    scan_order,
    scan_pixel,
    seed_for,
    slot,
    Image,
    Position,
};
use crate::settings::RenderSettings;
use crate::tone::{develop, level_of};
use crate::vec3::Vec3;
use rayon::iter::{ParallelBridge, ParallelIterator};
use vstd::prelude::*;

verus! {

/// One pixel to be shaded.
#[derive(Clone, Copy, Debug)]
pub struct PixelTask {
    /// The column of the pixel, counted from the left.
    pub col: u32,
    /// The row of the pixel, counted from the bottom.
    pub row: u32,
    /// Where the pixel belongs in the picture.
    pub at: Position,
    /// The seed of the random stream from which the pixel is sampled.
    pub stream: u64,
}

/// The `k`-th task of a render: the `k`-th pixel in scanning order, with the
/// stream that belongs to its slot.
pub open spec fn task_at(width: nat, height: nat, seed: u64, k: int) -> PixelTask {
    let pixel = scan_pixel(width, height, k);
    PixelTask {
        col: pixel.0,
        row: pixel.1,
        at: position_of(height, pixel.0, pixel.1),
        stream: seed_for(seed, k as u64),
    }
}

/// The colours are what `shade` gave for the tasks, one for each in turn.
pub open spec fn shades<F: Fn(&PixelTask) -> Vec3>(
    shade: F,
    tasks: Seq<PixelTask>,
    colors: Seq<Vec3>,
) -> bool {
    &&& colors.len() == tasks.len()
    &&& forall|k: int| 0 <= k < tasks.len() ==> shade.ensures((&#[trigger] tasks[k],), colors[k])
}

/// Each task's position with the colour shaded for it, in the order of the
/// tasks.
pub open spec fn placed(tasks: Seq<PixelTask>, colors: Seq<Vec3>) -> Seq<(Position, Vec3)> {
    Seq::new(tasks.len(), |k: int| (tasks[k].at, colors[k]))
}

/// The parts are what shading the tasks gave, in some order: for every task
/// its position with a colour that `shade` gave for it.
pub open spec fn finished<F: Fn(&PixelTask) -> Vec3>(
    shade: F,
    tasks: Seq<PixelTask>,
    parts: Seq<(Position, Vec3)>,
) -> bool {
    exists|colors: Seq<Vec3>|
        #[trigger] shades(shade, tasks, colors) && parts.to_multiset() == placed(
            tasks,
            colors,
        ).to_multiset()
}

/// Shades the tasks on the worker threads of `rayon`: the tasks are bridged
/// to a parallel iterator with `ParallelBridge::par_bridge`, mapped with
/// `ParallelIterator::map` and gathered with `ParallelIterator::collect`.
///
/// Believed of `rayon`, not proved: every task is shaded once, and the
/// result holds for every task its position with the colour that `shade`
/// gave for it. The order of the result is whatever the scheduling made it.
#[verifier::external_body]
fn shade_in_parallel<F: Fn(&PixelTask) -> Vec3 + Sync>(
    tasks: Vec<PixelTask>,
    shade: &F,
) -> (parts: Vec<(Position, Vec3)>)
    requires
        forall|task: PixelTask| shade.requires((&task,)),
    ensures
        finished(*shade, tasks@, parts@),
{
    tasks.into_iter().par_bridge().map(|task| (task.at, shade(&task))).collect()
}

/// The tasks of a render in the order in which they are handed out: the top
/// row first, each row from left to right.
pub fn tasks(settings: &RenderSettings, seed: u64) -> (tasks: Vec<PixelTask>)
    ensures
        tasks@.len() == settings@.width * settings@.height,
        forall|k: int|
            0 <= k < tasks@.len() ==> tasks@[k] == task_at(
                settings@.width,
                settings@.height,
                seed,
                k,
            ),
{
    let width = settings.width();
    let height = settings.height();
    let pixels = scan_order(width, height);
    let mut tasks: Vec<PixelTask> = Vec::new();
    let mut k: usize = 0;
    while k < pixels.len()
        invariant
            width == settings@.width,
            height == settings@.height,
            pixels@.len() == width * height,
            forall|i: int|
                0 <= i < pixels@.len() ==> pixels@[i] == scan_pixel(width as nat, height as nat, i),
            k <= pixels@.len(),
            tasks@.len() == k,
            forall|i: int|
                0 <= i < k ==> tasks@[i] == task_at(width as nat, height as nat, seed, i),
        decreases pixels@.len() - k,
    {
        let pixel = pixels[k];
        proof {
            lemma_scan_is_row_major(width as nat, height as nat, k as int);
        }
        let at = position(height, pixel.0, pixel.1);
        tasks.push(PixelTask { col: pixel.0, row: pixel.1, at, stream: pixel_seed(seed, k as u64) });
        k = k + 1;
    }
    tasks
}

/// The pixels are the levels of the colours that `shade` gave for the tasks
/// of the render, slot by slot.
pub open spec fn rendered<F: Fn(&PixelTask) -> Vec3>(
    shade: F,
    width: nat,
    height: nat,
    seed: u64,
    colors: Seq<Vec3>,
    pixels: Seq<Rgb>,
) -> bool {
    &&& colors.len() == width * height
    &&& pixels.len() == width * height
    &&& forall|k: int|
        0 <= k < colors.len() ==> {
            &&& shade.ensures((&task_at(width, height, seed, k),), #[trigger] colors[k])
            &&& pixels[k].r == level_of(colors[k].x)
            &&& pixels[k].g == level_of(colors[k].y)
            &&& pixels[k].b == level_of(colors[k].z)
        }
}

/// Renders a picture. `shade` gives the gamma-corrected colour of a pixel;
/// it is called once for every pixel, on any thread and in any order, and
/// told which random stream is the pixel's own. The picture holds in every
/// slot the level of the colour shaded for the pixel that belongs there.
pub fn render<F: Fn(&PixelTask) -> Vec3 + Sync>(
    settings: &RenderSettings,
    seed: u64,
    shade: &F,
) -> (picture: Image<Rgb>)
    requires
        forall|task: PixelTask| shade.requires((&task,)),
    ensures
        picture@.width == settings@.width,
        picture@.height == settings@.height,
        exists|colors: Seq<Vec3>| #[trigger]
            rendered(*shade, settings@.width, settings@.height, seed, colors, picture@.pixels),
{
    let width = settings.width();
    let height = settings.height();
    let ghost w = width as nat;
    let ghost h = height as nat;
    let tasks = tasks(settings, seed);
    let ghost given = tasks@;
    let parts = shade_in_parallel(tasks, shade);
    let ghost colors = choose|colors: Seq<Vec3>|
        #[trigger] shades(*shade, given, colors) && parts@.to_multiset() == placed(
            given,
            colors,
        ).to_multiset();
    let ghost in_order = placed(given, colors);
    proof {
        assert forall|k: int| 0 <= k < in_order.len() implies {
            &&& crate::raster::in_grid(w, h, (#[trigger] in_order[k]).0)
            &&& slot(w, in_order[k].0) == k
        } by {
            lemma_scan_is_row_major(w, h, k);
            assert(given[k] == task_at(w, h, seed, k));
        }
        assert forall|i: int, j: int| 0 <= i < j < in_order.len() implies (
        #[trigger] in_order[i]).0 != (#[trigger] in_order[j]).0 by {
            assert(slot(w, in_order[i].0) == i);
            assert(slot(w, in_order[j].0) == j);
        }
        assert(complete(w, h, in_order));
        assert(places(w, in_order, colors)) by {
            assert forall|k: int| 0 <= k < in_order.len() implies colors[slot(
                w,
                (#[trigger] in_order[k]).0,
            )] == in_order[k].1 by {
                assert(slot(w, in_order[k].0) == k);
            }
        }
    }
    let ghost arrived = parts@;
    match Image::assemble(width, height, parts) {
        Some(image) => {
            proof {
                lemma_assembly_ignores_order(w, h, in_order, arrived, colors, image@.pixels);
            }
            let picture = develop(&image);
            proof {
                assert(rendered(*shade, w, h, seed, colors, picture@.pixels)) by {
                    assert forall|k: int| 0 <= k < colors.len() implies shade.ensures(
                        (&task_at(w, h, seed, k),),
                        #[trigger] colors[k],
                    ) by {
                        assert(given[k] == task_at(w, h, seed, k));
                    }
                }
            }
            picture
        },
        None => {
            proof {
                lemma_completeness_ignores_order(w, h, in_order, arrived);
            }
            unreached()
        },
    }
}

} // verus!
