//! Renderer decisions that are plain integers: the transparency modes, the tiled depth
//! histogram's grid (whose tile size and bin count the user cycles through under the
//! device's storage-buffer limit), the render cap, which mesh objects a frame draws, and
//! the surface format and alpha mode picked at start-up.
use vstd::prelude::*;

verus! {

/// The three transparency techniques the renderer can switch between.
#[derive(Clone, Copy, PartialEq, Eq, Structural, Debug)]
pub enum RenderMode {
    AlphaBlend,
    NaiveWboit,
    HistogramWboit,
}

impl RenderMode {
    /// Number the user types to select this mode.
    pub open spec fn spec_number(self) -> u32 {
        match self {
            RenderMode::AlphaBlend => 1,
            RenderMode::NaiveWboit => 2,
            RenderMode::HistogramWboit => 3,
        }
    }

    /// Number the user types to select this mode (`1`, `2` or `3`).
    pub fn number(&self) -> (n: u32)
        ensures
            n == self.spec_number(),
    {
        match self {
            RenderMode::AlphaBlend => 1,
            RenderMode::NaiveWboit => 2,
            RenderMode::HistogramWboit => 3,
        }
    }

    /// The mode selected by number `n`, if any.
    pub fn from_number(n: u32) -> (r: Option<RenderMode>)
        ensures
            r matches Some(m) ==> m.spec_number() == n,
            r is None <==> !(1 <= n <= 3),
    {
        if n == 1 {
            Some(RenderMode::AlphaBlend)
        } else if n == 2 {
            Some(RenderMode::NaiveWboit)
        } else if n == 3 {
            Some(RenderMode::HistogramWboit)
        } else {
            None
        }
    }

    /// Every mode, in number order.
    pub fn all() -> (r: Vec<RenderMode>)
        ensures
            r@ == seq![RenderMode::AlphaBlend, RenderMode::NaiveWboit, RenderMode::HistogramWboit],
    {
        let r = vec![RenderMode::AlphaBlend, RenderMode::NaiveWboit, RenderMode::HistogramWboit];
        assert(r@ =~= seq![
            RenderMode::AlphaBlend,
            RenderMode::NaiveWboit,
            RenderMode::HistogramWboit,
        ]);
        r
    }

    /// Human-readable name, as printed when the mode changes.
    pub fn name(&self) -> (r: &'static str)
        ensures
            *self == RenderMode::AlphaBlend ==> r@ == "Alpha Blend"@,
            *self == RenderMode::NaiveWboit ==> r@ == "Naive WBOIT"@,
            *self == RenderMode::HistogramWboit ==> r@ == "Histogram-Equalized WBOIT (tiled)"@,
    {
        match self {
            RenderMode::AlphaBlend => "Alpha Blend",
            RenderMode::NaiveWboit => "Naive WBOIT",
            RenderMode::HistogramWboit => "Histogram-Equalized WBOIT (tiled)",
        }
    }
}

/// Parameters the histogram shaders read: the tile grid and the number of depth bins.
#[derive(Clone, Copy, PartialEq, Eq, Structural, Debug)]
pub struct HistogramParams {
    pub tile_count_x: u32,
    pub tile_count_y: u32,
    pub num_bins: u32,
    pub tile_size: u32,
}

/// `a / b` rounded up.
pub open spec fn ceil_div(a: int, b: int) -> int {
    a / b + if a % b != 0 {
        1int
    } else {
        0int
    }
}

fn div_ceil_u32(a: u32, b: u32) -> (r: u32)
    requires
        b > 0,
    ensures
        r == ceil_div(a as int, b as int),
{
    proof {
        assert(a / b < a || b == 1 || a == 0 || a / b < u32::MAX) by (nonlinear_arith)
            requires
                b > 0,
        ;
        if b == 1 {
            assert(a % b == 0);
        } else {
            assert(a / b <= a / 2) by (nonlinear_arith)
                requires
                    b >= 2,
            ;
        }
    }
    a / b + if a % b != 0 {
        1
    } else {
        0
    }
}

/// Depth-bin counts the histogram cycles through; the largest must match the shaders'
/// maximum.
pub open spec fn bin_count_steps() -> Seq<u32> {
    seq![32u32, 64, 128, 256]
}

/// Screen-space tile edges, in pixels, the histogram cycles through.
pub open spec fn tile_size_steps() -> Seq<u32> {
    seq![32u32, 16, 8, 4]
}

pub const DEFAULT_NUM_BINS: u32 = 64;

pub const DEFAULT_TILE_SIZE: u32 = 8;

pub const STEP_COUNT: usize = 4;

/// Entry `i` of the bin counts cycled with `B`.
pub fn bin_count_step(i: usize) -> (r: u32)
    requires
        i < STEP_COUNT,
    ensures
        r == bin_count_steps()[i as int],
{
    if i == 0 {
        32
    } else if i == 1 {
        64
    } else if i == 2 {
        128
    } else {
        256
    }
}

/// Entry `i` of the tile sizes cycled with `T`.
pub fn tile_size_step(i: usize) -> (r: u32)
    requires
        i < STEP_COUNT,
    ensures
        r == tile_size_steps()[i as int],
{
    if i == 0 {
        32
    } else if i == 1 {
        16
    } else if i == 2 {
        8
    } else {
        4
    }
}

/// Position of `v` in `steps`, or 0 when it is not one of them.
pub open spec fn step_position(steps: Seq<u32>, v: u32) -> int {
    if steps[0] == v {
        0
    } else if steps[1] == v {
        1
    } else if steps[2] == v {
        2
    } else if steps[3] == v {
        3
    } else {
        0
    }
}

/// The tile grid of the depth histogram over a `width` x `height` target.
#[derive(Debug)]
pub struct TileGrid {
    pub width: u32,
    pub height: u32,
    pub tile_size: u32,
    pub num_bins: u32,
}

/// Number of tiles covering a `width` x `height` target with square tiles of edge `t`.
pub open spec fn tile_count(width: int, height: int, t: int) -> int {
    ceil_div(width, t) * ceil_div(height, t)
}

/// Bytes of the histogram buffer (one `u32` per bin per tile) and of the CDF volume
/// (eight bytes per bin per tile).
pub open spec fn footprint(width: int, height: int, t: int, bins: int) -> (int, int) {
    (tile_count(width, height, t) * bins * 4, tile_count(width, height, t) * bins * 8)
}

/// Every combination of tile size and bin count has a footprint that fits in `u64`.
pub open spec fn footprints_fit(width: int, height: int) -> bool {
    forall|i: int, j: int|
        0 <= i < STEP_COUNT && 0 <= j < STEP_COUNT ==> #[trigger] footprint(
            width,
            height,
            tile_size_steps()[i] as int,
            bin_count_steps()[j] as int,
        ).1 <= u64::MAX
}

/// The first tile size after position `cur`, cycling, whose histogram fits in `limit`
/// bytes at `bins` bins; `current` when none does.
pub open spec fn next_fitting_tile(
    width: int,
    height: int,
    bins: int,
    limit: int,
    cur: int,
    step: int,
    current: u32,
) -> u32
    decreases STEP_COUNT + 1 - step,
{
    if step < 1 || step > STEP_COUNT {
        current
    } else {
        let candidate = tile_size_steps()[(cur + step) % (STEP_COUNT as int)];
        if footprint(width, height, candidate as int, bins).0 <= limit {
            candidate
        } else {
            next_fitting_tile(width, height, bins, limit, cur, step + 1, current)
        }
    }
}

/// The first bin count after position `cur`, cycling, whose histogram fits in `limit`
/// bytes at tile size `t`; `current` when none does.
pub open spec fn next_fitting_bins(
    width: int,
    height: int,
    t: int,
    limit: int,
    cur: int,
    step: int,
    current: u32,
) -> u32
    decreases STEP_COUNT + 1 - step,
{
    if step < 1 || step > STEP_COUNT {
        current
    } else {
        let candidate = bin_count_steps()[(cur + step) % (STEP_COUNT as int)];
        if footprint(width, height, t, candidate as int).0 <= limit {
            candidate
        } else {
            next_fitting_bins(width, height, t, limit, cur, step + 1, current)
        }
    }
}

/// Cycling lands on a tile size whose histogram fits the limit, or keeps the current one
/// when no tile size does.
pub proof fn lemma_next_tile_fits(
    width: int,
    height: int,
    bins: int,
    limit: int,
    cur: int,
    step: int,
    current: u32,
)
    requires
        0 <= cur,
    ensures
        next_fitting_tile(width, height, bins, limit, cur, step, current) == current || (
        tile_size_steps().contains(next_fitting_tile(width, height, bins, limit, cur, step, current))
            && footprint(
            width,
            height,
            next_fitting_tile(width, height, bins, limit, cur, step, current) as int,
            bins,
        ).0 <= limit),
    decreases STEP_COUNT + 1 - step,
{
    if 1 <= step <= STEP_COUNT {
        let k = (cur + step) % (STEP_COUNT as int);
        assert(0 <= k < 4);
        assert(tile_size_steps()[k] == tile_size_steps()[k]);
        lemma_next_tile_fits(width, height, bins, limit, cur, step + 1, current);
    }
}

/// Cycling lands on a bin count whose histogram fits the limit, or keeps the current one
/// when no bin count does.
pub proof fn lemma_next_bins_fit(
    width: int,
    height: int,
    t: int,
    limit: int,
    cur: int,
    step: int,
    current: u32,
)
    requires
        0 <= cur,
    ensures
        next_fitting_bins(width, height, t, limit, cur, step, current) == current || (
        bin_count_steps().contains(next_fitting_bins(width, height, t, limit, cur, step, current))
            && footprint(
            width,
            height,
            t,
            next_fitting_bins(width, height, t, limit, cur, step, current) as int,
        ).0 <= limit),
    decreases STEP_COUNT + 1 - step,
{
    if 1 <= step <= STEP_COUNT {
        let k = (cur + step) % (STEP_COUNT as int);
        assert(0 <= k < 4);
        assert(bin_count_steps()[k] == bin_count_steps()[k]);
        lemma_next_bins_fit(width, height, t, limit, cur, step + 1, current);
    }
}

/// The tile grid covers the target: the tiles reach past its last pixel, and none lies
/// wholly outside it.
pub proof fn lemma_tiles_cover(extent: int, t: int)
    requires
        extent >= 0,
        t > 0,
    ensures
        ceil_div(extent, t) * t >= extent,
        extent > 0 ==> (ceil_div(extent, t) - 1) * t < extent,
{
    let q = extent / t;
    let r = extent % t;
    assert(extent == q * t + r && 0 <= r < t) by (nonlinear_arith)
        requires
            t > 0,
            q == extent / t,
            r == extent % t,
    ;
    if r != 0 {
        assert((q + 1) * t == q * t + t) by (nonlinear_arith);
    } else {
        assert((q - 1) * t == q * t - t) by (nonlinear_arith);
    }
}

/// Mode numbers name the modes one to one.
pub proof fn lemma_mode_number_roundtrip(m: RenderMode, n: RenderMode)
    ensures
        1 <= m.spec_number() <= 3,
        m.spec_number() == n.spec_number() ==> m == n,
{
}

impl TileGrid {
    /// The grid is on one of the step values, and no footprint overflows.
    pub open spec fn wf(&self) -> bool {
        &&& tile_size_steps().contains(self.tile_size)
        &&& bin_count_steps().contains(self.num_bins)
        &&& footprints_fit(self.width as int, self.height as int)
    }

    /// The default grid over a `width` x `height` target.
    pub fn new(width: u32, height: u32) -> (g: TileGrid)
        requires
            footprints_fit(width as int, height as int),
        ensures
            g.wf(),
            g.width == width,
            g.height == height,
            g.tile_size == DEFAULT_TILE_SIZE,
            g.num_bins == DEFAULT_NUM_BINS,
    {
        let g = TileGrid {
            width,
            height,
            tile_size: DEFAULT_TILE_SIZE,
            num_bins: DEFAULT_NUM_BINS,
        };
        assert(tile_size_steps()[2] == DEFAULT_TILE_SIZE);
        assert(bin_count_steps()[1] == DEFAULT_NUM_BINS);
        g
    }

    /// Shader parameters for the current grid.
    pub fn params(&self) -> (p: HistogramParams)
        requires
            self.tile_size > 0,
        ensures
            p.tile_count_x == ceil_div(self.width as int, self.tile_size as int),
            p.tile_count_y == ceil_div(self.height as int, self.tile_size as int),
            p.num_bins == self.num_bins,
            p.tile_size == self.tile_size,
    {
        HistogramParams {
            tile_count_x: div_ceil_u32(self.width, self.tile_size),
            tile_count_y: div_ceil_u32(self.height, self.tile_size),
            num_bins: self.num_bins,
            tile_size: self.tile_size,
        }
    }

    /// Bytes used by the histogram buffer and the CDF volume at the given tile size and
    /// bin count.
    pub fn tiled_bytes_with(&self, tile_size: u32, num_bins: u32) -> (r: (u64, u64))
        requires
            tile_size > 0,
            footprint(self.width as int, self.height as int, tile_size as int, num_bins as int).1
                <= u64::MAX,
        ensures
            r.0 == footprint(self.width as int, self.height as int, tile_size as int, num_bins as int).0,
            r.1 == footprint(self.width as int, self.height as int, tile_size as int, num_bins as int).1,
    {
        let tx = div_ceil_u32(self.width, tile_size) as u64;
        let ty = div_ceil_u32(self.height, tile_size) as u64;
        proof {
            let tiles = tx * ty;
            assert(tiles * num_bins * 4 <= tiles * num_bins * 8) by (nonlinear_arith)
                requires
                    tiles >= 0,
                    num_bins >= 0,
            ;
            assert(tiles <= tiles * num_bins * 8 || num_bins == 0) by (nonlinear_arith)
                requires
                    tiles >= 0,
                    num_bins >= 0,
            ;
            assert(tiles * num_bins <= tiles * num_bins * 8) by (nonlinear_arith)
                requires
                    tiles >= 0,
                    num_bins >= 0,
            ;
        }
        if num_bins == 0 {
            proof {
                assert(tx * ty * 0 == 0) by (nonlinear_arith);
            }
            return (0, 0);
        }
        let tiles = tx * ty;
        let bins = num_bins as u64;
        (tiles * bins * 4, tiles * bins * 8)
    }

    /// Bytes used by the histogram buffer and the CDF volume of the current grid.
    pub fn footprint_bytes(&self) -> (r: (u64, u64))
        requires
            self.wf(),
        ensures
            r == (
                footprint(self.width as int, self.height as int, self.tile_size as int, self.num_bins as int).0 as u64,
                footprint(self.width as int, self.height as int, self.tile_size as int, self.num_bins as int).1 as u64,
            ),
    {
        proof {
            self.lemma_current_fits();
        }
        self.tiled_bytes_with(self.tile_size, self.num_bins)
    }

    proof fn lemma_current_fits(&self)
        requires
            self.wf(),
        ensures
            self.tile_size > 0,
            footprint(self.width as int, self.height as int, self.tile_size as int, self.num_bins as int).1
                <= u64::MAX,
    {
        let i = choose|i: int| 0 <= i < tile_size_steps().len() && tile_size_steps()[i] == self.tile_size;
        let j = choose|j: int| 0 <= j < bin_count_steps().len() && bin_count_steps()[j] == self.num_bins;
        assert(footprint(
            self.width as int,
            self.height as int,
            tile_size_steps()[i] as int,
            bin_count_steps()[j] as int,
        ).1 <= u64::MAX);
    }

    /// Step to the next tile size whose histogram fits in `limit` bytes; keep the current
    /// one when none does. Returns the new footprint in bytes.
    pub fn cycle_tile_size(&mut self, limit: u64) -> (r: (u64, u64))
        requires
            old(self).wf(),
        ensures
            final(self).wf(),
            final(self).width == old(self).width,
            final(self).height == old(self).height,
            final(self).num_bins == old(self).num_bins,
            final(self).tile_size == next_fitting_tile(
                old(self).width as int,
                old(self).height as int,
                old(self).num_bins as int,
                limit as int,
                step_position(tile_size_steps(), old(self).tile_size),
                1,
                old(self).tile_size,
            ),
            r == (
                footprint(final(self).width as int, final(self).height as int, final(self).tile_size as int, final(self).num_bins as int).0 as u64,
                footprint(final(self).width as int, final(self).height as int, final(self).tile_size as int, final(self).num_bins as int).1 as u64,
            ),
    {
        let cur: usize = if tile_size_step(0) == self.tile_size {
            0
        } else if tile_size_step(1) == self.tile_size {
            1
        } else if tile_size_step(2) == self.tile_size {
            2
        } else if tile_size_step(3) == self.tile_size {
            3
        } else {
            0
        };
        let ghost w = self.width as int;
        let ghost h = self.height as int;
        let ghost bins = self.num_bins as int;
        let ghost start = self.tile_size;
        proof {
            self.lemma_current_fits();
        }
        let bi: usize = if bin_count_step(0) == self.num_bins {
            0
        } else if bin_count_step(1) == self.num_bins {
            1
        } else if bin_count_step(2) == self.num_bins {
            2
        } else {
            3
        };
        proof {
            assert(bin_count_steps()[bi as int] == self.num_bins);
        }
        let mut step: usize = 1;
        while step <= STEP_COUNT
            invariant
                1 <= step <= STEP_COUNT + 1,
                cur < STEP_COUNT,
                bi < STEP_COUNT,
                bin_count_steps()[bi as int] == bins,
                self.width == w,
                self.height == h,
                self.num_bins == bins,
                self.tile_size == start,
                w == old(self).width,
                h == old(self).height,
                bins == old(self).num_bins,
                start == old(self).tile_size,
                cur == step_position(tile_size_steps(), start),
                self.wf(),
                next_fitting_tile(w, h, bins, limit as int, cur as int, 1, start) == next_fitting_tile(
                    w,
                    h,
                    bins,
                    limit as int,
                    cur as int,
                    step as int,
                    start,
                ),
            decreases STEP_COUNT + 1 - step,
        {
            let ci = (cur + step) % STEP_COUNT;
            let candidate = tile_size_step(ci);
            proof {
                assert(footprint(w, h, tile_size_steps()[ci as int] as int, bin_count_steps()[bi as int] as int).1 <= u64::MAX);
            }
            let (hist, _cdf) = self.tiled_bytes_with(candidate, self.num_bins);
            if hist <= limit {
                self.tile_size = candidate;
                proof {
                    assert(tile_size_steps()[ci as int] == candidate);
                }
                let r = self.footprint_bytes();
                return r;
            }
            step += 1;
        }
        self.footprint_bytes()
    }

    /// Step to the next bin count whose histogram fits in `limit` bytes; keep the current
    /// one when none does. Returns the new footprint in bytes.
    pub fn cycle_bin_count(&mut self, limit: u64) -> (r: (u64, u64))
        requires
            old(self).wf(),
        ensures
            final(self).wf(),
            final(self).width == old(self).width,
            final(self).height == old(self).height,
            final(self).tile_size == old(self).tile_size,
            final(self).num_bins == next_fitting_bins(
                old(self).width as int,
                old(self).height as int,
                old(self).tile_size as int,
                limit as int,
                step_position(bin_count_steps(), old(self).num_bins),
                1,
                old(self).num_bins,
            ),
            r == (
                footprint(final(self).width as int, final(self).height as int, final(self).tile_size as int, final(self).num_bins as int).0 as u64,
                footprint(final(self).width as int, final(self).height as int, final(self).tile_size as int, final(self).num_bins as int).1 as u64,
            ),
    {
        let cur: usize = if bin_count_step(0) == self.num_bins {
            0
        } else if bin_count_step(1) == self.num_bins {
            1
        } else if bin_count_step(2) == self.num_bins {
            2
        } else if bin_count_step(3) == self.num_bins {
            3
        } else {
            0
        };
        let ghost w = self.width as int;
        let ghost h = self.height as int;
        let ghost t = self.tile_size as int;
        let ghost start = self.num_bins;
        proof {
            self.lemma_current_fits();
        }
        let ti: usize = if tile_size_step(0) == self.tile_size {
            0
        } else if tile_size_step(1) == self.tile_size {
            1
        } else if tile_size_step(2) == self.tile_size {
            2
        } else {
            3
        };
        proof {
            assert(tile_size_steps()[ti as int] == self.tile_size);
        }
        let mut step: usize = 1;
        while step <= STEP_COUNT
            invariant
                1 <= step <= STEP_COUNT + 1,
                cur < STEP_COUNT,
                ti < STEP_COUNT,
                tile_size_steps()[ti as int] == t,
                self.width == w,
                self.height == h,
                self.tile_size == t,
                self.num_bins == start,
                w == old(self).width,
                h == old(self).height,
                t == old(self).tile_size,
                start == old(self).num_bins,
                cur == step_position(bin_count_steps(), start),
                self.wf(),
                next_fitting_bins(w, h, t, limit as int, cur as int, 1, start) == next_fitting_bins(
                    w,
                    h,
                    t,
                    limit as int,
                    cur as int,
                    step as int,
                    start,
                ),
            decreases STEP_COUNT + 1 - step,
        {
            let ci = (cur + step) % STEP_COUNT;
            let candidate = bin_count_step(ci);
            proof {
                assert(footprint(w, h, tile_size_steps()[ti as int] as int, bin_count_steps()[ci as int] as int).1 <= u64::MAX);
            }
            let (hist, _cdf) = self.tiled_bytes_with(self.tile_size, candidate);
            if hist <= limit {
                self.num_bins = candidate;
                proof {
                    assert(bin_count_steps()[ci as int] == candidate);
                }
                let r = self.footprint_bytes();
                return r;
            }
            step += 1;
        }
        self.footprint_bytes()
    }

    /// Follow the target to a new size; zero extents count as one pixel.
    pub fn resize(&mut self, width: u32, height: u32)
        requires
            old(self).wf(),
            footprints_fit(
                if width > 0 {
                    width as int
                } else {
                    1
                },
                if height > 0 {
                    height as int
                } else {
                    1
                },
            ),
        ensures
            final(self).wf(),
            final(self).width == if width > 0 {
                width
            } else {
                1
            },
            final(self).height == if height > 0 {
                height
            } else {
                1
            },
            final(self).tile_size == old(self).tile_size,
            final(self).num_bins == old(self).num_bins,
    {
        self.width = if width > 0 {
            width
        } else {
            1
        };
        self.height = if height > 0 {
            height
        } else {
            1
        };
    }
}

/// The render cap after scaling: at least one splat and at most all of them.
pub fn clamp_draw_count(scaled: u32, total: u32) -> (r: u32)
    requires
        total >= 1,
    ensures
        r == if scaled < 1 {
            1
        } else if scaled > total {
            total
        } else {
            scaled
        },
{
    if scaled < 1 {
        1
    } else if scaled > total {
        total
    } else {
        scaled
    }
}

/// Object `o` is drawn: it is not one of the extra meshes, or those are shown.
pub open spec fn is_drawn(extra: Seq<bool>, o: int, show_meshes: bool) -> bool {
    !extra[o] || show_meshes
}

/// `r` lists, in increasing order, exactly the objects below `n` that are drawn.
pub open spec fn lists_visible(r: Seq<usize>, extra: Seq<bool>, n: int, show_meshes: bool) -> bool {
    &&& forall|j: int, k: int| 0 <= j < k < r.len() ==> r[j] < r[k]
    &&& forall|k: int| 0 <= k < r.len() ==> r[k] < n && is_drawn(extra, r[k] as int, show_meshes)
    &&& forall|o: int|
        0 <= o < n && #[trigger] is_drawn(extra, o, show_meshes) ==> r.contains(o as usize)
}

/// Extending the scan by object `i` keeps the listing exact: append `i` when it is drawn.
proof fn lemma_visible_step(before: Seq<usize>, extra: Seq<bool>, i: int, show_meshes: bool)
    requires
        0 <= i < extra.len(),
        i < usize::MAX,
        lists_visible(before, extra, i, show_meshes),
    ensures
        lists_visible(
            if !extra[i] || show_meshes {
                before.push(i as usize)
            } else {
                before
            },
            extra,
            i + 1,
            show_meshes,
        ),
{
    let after = if !extra[i] || show_meshes {
        before.push(i as usize)
    } else {
        before
    };
    assert forall|j: int, k: int| 0 <= j < k < after.len() implies after[j] < after[k] by {
        if k < before.len() {
            assert(after[j] == before[j] && after[k] == before[k]);
        } else {
            assert(after[j] == before[j]);
            assert(before[j] < i);
        }
    }
    assert forall|k: int| 0 <= k < after.len() implies after[k] < i + 1 && is_drawn(
        extra,
        after[k] as int,
        show_meshes,
    ) by {
        if k < before.len() {
            assert(after[k] == before[k]);
        }
    }
    assert forall|q: int| 0 <= q < i + 1 && #[trigger] is_drawn(extra, q, show_meshes) implies after.contains(
        q as usize,
    ) by {
        if q < i {
            let k = choose|k: int| 0 <= k < before.len() && before[k] == q as usize;
            assert(after[k] == q);
        } else {
            assert(after[before.len() as int] == q);
        }
    }
    assert(lists_visible(after, extra, i + 1, show_meshes));
}

/// The mesh-scene objects to draw, in scene order: `extra[i]` says whether object `i` is
/// one of the optional meshes. While a splat scene is loaded it replaces the meshes.
pub fn visible_objects(extra: &[bool], show_meshes: bool, splats_loaded: bool) -> (r: Vec<usize>)
    ensures
        splats_loaded ==> r@.len() == 0,
        !splats_loaded ==> lists_visible(r@, extra@, extra@.len() as int, show_meshes),
{
    let mut r: Vec<usize> = Vec::new();
    if splats_loaded {
        return r;
    }
    let mut i: usize = 0;
    while i < extra.len()
        invariant
            i <= extra.len(),
            lists_visible(r@, extra@, i as int, show_meshes),
        decreases extra.len() - i,
    {
        proof {
            lemma_visible_step(r@, extra@, i as int, show_meshes);
        }
        if !extra[i] || show_meshes {
            r.push(i);
        }
        i += 1;
    }
    r
}

/// How the window's alpha is handed to the compositor.
#[derive(Clone, Copy, PartialEq, Eq, Structural, Debug)]
pub enum AlphaModeChoice {
    PreMultiplied,
    PostMultiplied,
    /// Neither is offered: take the first mode the surface lists.
    FirstSupported,
}

/// The alpha mode for the surface: premultiplied when offered, else postmultiplied, else
/// whatever the surface lists first.
pub fn choose_alpha_mode(premultiplied: bool, postmultiplied: bool) -> (r: AlphaModeChoice)
    ensures
        r == if premultiplied {
            AlphaModeChoice::PreMultiplied
        } else if postmultiplied {
            AlphaModeChoice::PostMultiplied
        } else {
            AlphaModeChoice::FirstSupported
        },
{
    if premultiplied {
        AlphaModeChoice::PreMultiplied
    } else if postmultiplied {
        AlphaModeChoice::PostMultiplied
    } else {
        AlphaModeChoice::FirstSupported
    }
}

/// The surface format to render to, as an index into the formats the surface offers:
/// the first sRGB one (`srgb[i]`), or the first of all when none is sRGB.
pub fn choose_surface_format(srgb: &[bool]) -> (r: usize)
    requires
        srgb@.len() > 0,
    ensures
        r < srgb@.len(),
        srgb@[r as int] || r == 0,
        forall|j: int| 0 <= j < srgb@.len() && srgb@[j] ==> srgb@[r as int] && r <= j,
{
    let mut i: usize = 0;
    while i < srgb.len()
        invariant
            i <= srgb@.len(),
            forall|j: int| 0 <= j < i ==> !srgb@[j],
        decreases srgb.len() - i,
    {
        if srgb[i] {
            return i;
        }
        i += 1;
    }
    0
}

} // verus!
