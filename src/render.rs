use vstd::prelude::*;

use crate::image::divides_evenly;
use crate::image::is_grid_tile;
use crate::image::lemma_grid_tile_ids_distinct;
use crate::image::ImageView;
use crate::image::Tile;

verus! {

/// What tracing one segment of a light path met.
#[derive(Clone, Copy, Debug, PartialEq, Eq, Structural)]
pub enum Interaction {
    /// The ray left the scene without hitting anything.
    Miss,
    /// The ray hit a surface whose material sent it on in a new direction.
    Scattered,
    /// The ray hit a surface whose material took it in.
    Absorbed,
    /// The ray hit a surface whose material gives off a color of its own.
    Emitted,
}

/// How a light path ends; this decides the radiance that it carries back.
#[derive(Clone, Copy, Debug, PartialEq, Eq, Structural)]
pub enum PathEnd {
    /// The bounce budget ran out: black.
    DepthExhausted,
    /// The ray left the scene: the sky gradient in its direction.
    Background,
    /// A material took the ray in: black.
    Absorbed,
    /// A material gave off its own color.
    Emitted,
}

/// The next thing to do on a light path.
#[derive(Clone, Copy, Debug, PartialEq, Eq, Structural)]
pub enum PathStep {
    /// Trace the current ray; the number is how many segments, this one
    /// included, the path may still trace.
    Trace(u32),
    /// The path is done.
    End(PathEnd),
}

impl PathEnd {
    /// Whether the path carries back no light at all.
    pub open spec fn spec_is_black(self) -> bool {
        self == PathEnd::DepthExhausted || self == PathEnd::Absorbed
    }

    pub fn is_black(&self) -> (r: bool)
        ensures
            r == self.spec_is_black(),
    {
        match self {
            PathEnd::DepthExhausted => true,
            PathEnd::Absorbed => true,
            _ => false,
        }
    }
}

/// The first step of a path that may trace `depth` segments.
pub open spec fn first_step(depth: u32) -> PathStep {
    if depth == 0 {
        PathStep::End(PathEnd::DepthExhausted)
    } else {
        PathStep::Trace(depth)
    }
}

/// The step after tracing a segment, with `remaining` segments allowed, that
/// met `event`.
pub open spec fn next_step(remaining: u32, event: Interaction) -> PathStep {
    match event {
        Interaction::Miss => PathStep::End(PathEnd::Background),
        Interaction::Absorbed => PathStep::End(PathEnd::Absorbed),
        Interaction::Emitted => PathStep::End(PathEnd::Emitted),
        Interaction::Scattered => first_step((remaining - 1) as u32),
    }
}

/// The step reached from `step` when the segments traced meet `events` in
/// order; events past the end of the path are not looked at.
pub open spec fn run_path(step: PathStep, events: Seq<Interaction>) -> PathStep
    decreases events.len(),
{
    match step {
        PathStep::End(_) => step,
        PathStep::Trace(remaining) => if events.len() == 0 {
            step
        } else {
            run_path(next_step(remaining, events[0]), events.drop_first())
        },
    }
}

/// The number of segments traced from `step` when they meet `events` in order.
pub open spec fn segments_traced(step: PathStep, events: Seq<Interaction>) -> nat
    decreases events.len(),
{
    match step {
        PathStep::End(_) => 0,
        PathStep::Trace(remaining) => if events.len() == 0 {
            0
        } else {
            1 + segments_traced(next_step(remaining, events[0]), events.drop_first())
        },
    }
}

/// Starts a light path that may trace at most `depth` segments.
pub fn start_path(depth: u32) -> (r: PathStep)
    ensures
        r == first_step(depth),
{
    if depth == 0 {
        PathStep::End(PathEnd::DepthExhausted)
    } else {
        PathStep::Trace(depth)
    }
}

/// Decides what follows a traced segment that met `event`, when `remaining`
/// segments, that one included, were allowed.
pub fn advance_path(remaining: u32, event: Interaction) -> (r: PathStep)
    requires
        remaining > 0,
    ensures
        r == next_step(remaining, event),
{
    match event {
        Interaction::Miss => PathStep::End(PathEnd::Background),
        Interaction::Absorbed => PathStep::End(PathEnd::Absorbed),
        Interaction::Emitted => PathStep::End(PathEnd::Emitted),
        Interaction::Scattered => start_path(remaining - 1),
    }
}

/// A path with no bounce budget ends black at once, whatever the scene holds:
/// no segment is traced.
pub proof fn lemma_zero_depth_is_black(events: Seq<Interaction>)
    ensures
        run_path(first_step(0), events) == PathStep::End(PathEnd::DepthExhausted),
        segments_traced(first_step(0), events) == 0,
        PathEnd::DepthExhausted.spec_is_black(),
{
}

/// A path that may trace `depth` segments ends after at most `depth` of them,
/// whatever they meet.
pub proof fn lemma_path_ends_within_depth(depth: u32, events: Seq<Interaction>)
    requires
        events.len() >= depth,
    ensures
        run_path(first_step(depth), events) is End,
        segments_traced(first_step(depth), events) <= depth,
    decreases depth,
{
    if depth > 0 {
        let rest = events.drop_first();
        assert(run_path(first_step(depth), events) == run_path(next_step(depth, events[0]), rest));
        assert(segments_traced(first_step(depth), events) == 1 + segments_traced(next_step(depth, events[0]), rest));
        if events[0] == Interaction::Scattered {
            lemma_path_ends_within_depth((depth - 1) as u32, rest);
        }
    }
}

/// The seed of the random generator that renders tile `tile_id` in a render
/// seeded with `seed`: the two added, wrapping around at 2^64.
pub open spec fn spec_tile_seed(seed: u64, tile_id: u32) -> int {
    (seed + tile_id) % 0x1_0000_0000_0000_0000
}

/// The seed of the random generator that renders tile `tile_id` in a render
/// seeded with `seed`. Each tile gets a generator of its own, so a render
/// comes out the same whichever worker takes which tile.
pub fn tile_seed(seed: u64, tile_id: u32) -> (r: u64)
    ensures
        r == spec_tile_seed(seed, tile_id),
{
    seed.wrapping_add(tile_id as u64)
}

/// Within one render, tiles with different ids draw from differently seeded
/// generators.
pub proof fn lemma_tile_seeds_distinct(seed: u64, a: u32, b: u32)
    requires
        a != b,
    ensures
        spec_tile_seed(seed, a) != spec_tile_seed(seed, b),
{
}

/// No two tiles of an even grid over an image draw from generators with the
/// same seed.
pub proof fn lemma_grid_tile_seeds_distinct<P>(
    seed: u64,
    img: ImageView<P>,
    tiles_w: nat,
    tiles_h: nat,
    tiles: Seq<Tile<P>>,
)
    requires
        divides_evenly(img.width, img.height, tiles_w, tiles_h),
        tiles.len() == tiles_w * tiles_h,
        forall|k: int| 0 <= k < tiles.len() ==> is_grid_tile(img, tiles_w, tiles_h, k, #[trigger] tiles[k]),
    ensures
        forall|a: int, b: int| 0 <= a < tiles.len() && 0 <= b < tiles.len() && a != b
            ==> spec_tile_seed(seed, (#[trigger] tiles[a]).id) != spec_tile_seed(seed, (#[trigger] tiles[b]).id),
{
    lemma_grid_tile_ids_distinct(img, tiles_w, tiles_h, tiles);
    assert forall|a: int, b: int| 0 <= a < tiles.len() && 0 <= b < tiles.len() && a != b
        implies spec_tile_seed(seed, (#[trigger] tiles[a]).id) != spec_tile_seed(seed, (#[trigger] tiles[b]).id) by {
        lemma_tile_seeds_distinct(seed, tiles[a].id, tiles[b].id);
    }
}

} // verus!
