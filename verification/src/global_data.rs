//! Read-only shared context for a run: the source image, the precomputed
//! neighbor color-distance table, and optional edge-biased sampling weights.
//!
//! The distance table is flat: entry `i * 49 + (dy + 3) * 7 + (dx + 3)`
//! holds the fixed-point color distance from pixel `i` to its neighbor at
//! relative offset `(dx, dy)`, or 0 when that neighbor lies outside the
//! image.

use vstd::prelude::*;
use crate::distance::{Pixel, dist_fp, euclidean_distance, MAX_DIST_FP};
use crate::genome::MAX_AREA;
use crate::rng::rand_u64_below;

verus! {

/// The largest per-pixel sampling weight [`generate_pixel_edge_weights`]
/// produces.
pub const MAX_PIXEL_WEIGHT: u64 = 65536;

/// The distance-table entry for pixel `i` and relative offset `(dx, dy)`:
/// the fixed-point color distance to that neighbor, 0 outside the image.
pub open spec fn dmap_entry(pixels: Seq<Pixel>, w: int, h: int, i: int, dy: int, dx: int) -> int {
    let row = i / w;
    let col = i % w;
    if 0 <= row + dy < h && 0 <= col + dx < w {
        dist_fp(pixels[i], pixels[(row + dy) * w + (col + dx)])
    } else {
        0
    }
}

/// The stored table value for pixel `i` and relative offset `(dx, dy)`.
pub open spec fn dmap_at(dmap: Seq<u64>, i: int, dy: int, dx: int) -> int {
    dmap[i * 49 + (dy + 3) * 7 + (dx + 3)] as int
}

/// Read-only shared context: image pixels, precomputed neighbor distances,
/// and edge-biased pixel sampling weights, all row-major.
pub struct GlobalData {
    pub width: usize,
    pub height: usize,
    pub pixels: Vec<Pixel>,
    pub distance_map: Vec<u64>,
    pub pixel_weights: Vec<u64>,
}

impl GlobalData {
    /// The pixel count of the image.
    pub open spec fn area(&self) -> int {
        self.width * self.height
    }

    /// Well-formedness: consistent dimensions, a distance table that holds
    /// exactly the fixed-point neighbor distances of the image, and bounded
    /// sampling weights.
    pub open spec fn wf(&self) -> bool {
        &&& self.width >= 1
        &&& self.height >= 1
        &&& self.area() <= MAX_AREA
        &&& self.pixels@.len() == self.area()
        &&& self.distance_map@.len() == self.area() * 49
        &&& forall|i: int, dy: int, dx: int|
            0 <= i < self.area() && -3 <= dy <= 3 && -3 <= dx <= 3 ==> #[trigger] dmap_at(
                self.distance_map@,
                i,
                dy,
                dx,
            ) == dmap_entry(self.pixels@, self.width as int, self.height as int, i, dy, dx)
        &&& forall|k: int|
            0 <= k < self.distance_map@.len() ==> #[trigger] self.distance_map@[k] <= MAX_DIST_FP
        &&& self.pixel_weights@.len() == self.area()
        &&& forall|k: int|
            0 <= k < self.pixel_weights@.len() ==> #[trigger] self.pixel_weights@[k]
                <= MAX_PIXEL_WEIGHT
    }
}

/// Compute the flat neighbor color-distance table for an image: for every
/// pixel, the fixed-point Euclidean color distance to each neighbor in the
/// 7 by 7 window, 0 where the neighbor leaves the image.
pub fn calculate_euclidean_distance_map_for_neighbors(
    pixels: &Vec<Pixel>,
    width: usize,
    height: usize,
) -> (dmap: Vec<u64>)
    requires
        width >= 1,
        height >= 1,
        width * height <= MAX_AREA,
        pixels@.len() == width * height,
    ensures
        dmap@.len() == width * height * 49,
        forall|i: int, dy: int, dx: int|
            0 <= i < width * height && -3 <= dy <= 3 && -3 <= dx <= 3 ==> #[trigger] dmap_at(
                dmap@,
                i,
                dy,
                dx,
            ) == dmap_entry(pixels@, width as int, height as int, i, dy, dx),
        forall|k: int| 0 <= k < dmap@.len() ==> #[trigger] dmap@[k] <= MAX_DIST_FP,
{
    let area: usize = width * height;
    let ghost w = width as int;
    let ghost h = height as int;
    proof {
        assert(width <= area && height <= area) by (nonlinear_arith)
            requires
                area == width * height,
                width >= 1,
                height >= 1,
        ;
    }
    let mut dmap: Vec<u64> = Vec::new();
    let mut i: usize = 0;
    while i < area
        invariant
            pixels@.len() == area == width * height,
            area <= MAX_AREA,
            width >= 1,
            height >= 1,
            width <= area,
            height <= area,
            w == width as int,
            h == height as int,
            i <= area,
            dmap@.len() == i * 49,
            forall|p: int, dy: int, dx: int|
                0 <= p < i && -3 <= dy <= 3 && -3 <= dx <= 3 ==> #[trigger] dmap_at(
                    dmap@,
                    p,
                    dy,
                    dx,
                ) == dmap_entry(pixels@, w, h, p, dy, dx),
            forall|k: int| 0 <= k < dmap@.len() ==> #[trigger] dmap@[k] <= MAX_DIST_FP,
        decreases area - i,
    {
        let row: usize = i / width;
        let col: usize = i % width;
        proof {
            vstd::arithmetic::div_mod::lemma_fundamental_div_mod(i as int, w);
            vstd::arithmetic::div_mod::lemma_mod_bound(i as int, w);
            assert(row < height) by (nonlinear_arith)
                requires
                    i as int == w * (row as int) + (col as int),
                    0 <= col < width,
                    0 <= i < width * height,
                    w == width as int,
                    width >= 1,
                    height >= 1,
            ;
        }
        let mut oy: usize = 0;
        while oy < 7
            invariant
                pixels@.len() == area == width * height,
                area <= MAX_AREA,
                width >= 1,
                height >= 1,
                width <= area,
                height <= area,
                w == width as int,
                h == height as int,
                i < area,
                row == i as int / w,
                col == i as int % w,
                row < height,
                col < width,
                oy <= 7,
                dmap@.len() == i * 49 + oy * 7,
                forall|p: int, dy: int, dx: int|
                    0 <= p < i && -3 <= dy <= 3 && -3 <= dx <= 3 ==> #[trigger] dmap_at(
                        dmap@,
                        p,
                        dy,
                        dx,
                    ) == dmap_entry(pixels@, w, h, p, dy, dx),
                forall|dy: int, dx: int|
                    -3 <= dy < oy - 3 && -3 <= dx <= 3 ==> #[trigger] dmap_at(dmap@, i as int, dy, dx)
                        == dmap_entry(pixels@, w, h, i as int, dy, dx),
                forall|k: int| 0 <= k < dmap@.len() ==> #[trigger] dmap@[k] <= MAX_DIST_FP,
            decreases 7 - oy,
        {
            let mut ox: usize = 0;
            while ox < 7
                invariant
                    pixels@.len() == area == width * height,
                    area <= MAX_AREA,
                    width >= 1,
                    height >= 1,
                    width <= area,
                    height <= area,
                    w == width as int,
                    h == height as int,
                    i < area,
                    row == i as int / w,
                    col == i as int % w,
                    row < height,
                    col < width,
                    oy < 7,
                    ox <= 7,
                    dmap@.len() == i * 49 + oy * 7 + ox,
                    forall|p: int, dy: int, dx: int|
                        0 <= p < i && -3 <= dy <= 3 && -3 <= dx <= 3 ==> #[trigger] dmap_at(
                            dmap@,
                            p,
                            dy,
                            dx,
                        ) == dmap_entry(pixels@, w, h, p, dy, dx),
                    forall|dy: int, dx: int|
                        -3 <= dy < oy - 3 && -3 <= dx <= 3 ==> #[trigger] dmap_at(
                            dmap@,
                            i as int,
                            dy,
                            dx,
                        ) == dmap_entry(pixels@, w, h, i as int, dy, dx),
                    forall|dx: int|
                        -3 <= dx < ox - 3 ==> #[trigger] dmap_at(dmap@, i as int, oy - 3, dx)
                            == dmap_entry(pixels@, w, h, i as int, oy - 3, dx),
                    forall|k: int| 0 <= k < dmap@.len() ==> #[trigger] dmap@[k] <= MAX_DIST_FP,
                decreases 7 - ox,
            {
                let ghost dy = oy as int - 3;
                let ghost dx = ox as int - 3;
                let ghost old_dmap = dmap@;
                let in_y: bool = row + oy >= 3 && row + oy <= height + 2;
                let in_x: bool = col + ox >= 3 && col + ox <= width + 2;
                let entry: u64;
                if in_y && in_x {
                    let nrow: usize = row + oy - 3;
                    let ncol: usize = col + ox - 3;
                    proof {
                        assert((nrow as int) * w + (ncol as int) < w * h) by (nonlinear_arith)
                            requires
                                0 <= nrow < h,
                                0 <= ncol < w,
                                w >= 1,
                        ;
                    }
                    let nb: usize = nrow * width + ncol;
                    entry = euclidean_distance(&pixels[i], &pixels[nb]);
                } else {
                    entry = 0;
                }
                dmap.push(entry);
                proof {
                    assert(dmap@.len() == i * 49 + oy * 7 + ox + 1);
                    assert(forall|k: int| 0 <= k < old_dmap.len() ==> #[trigger] dmap@[k] == old_dmap[k]);
                    assert(dmap_at(dmap@, i as int, dy, dx) == entry) by {
                        assert(i * 49 + dy * 7 + dx + 24 == i * 49 + oy * 7 + ox);
                    }
                    assert(dmap_at(dmap@, i as int, dy, dx) == dmap_entry(
                        pixels@,
                        w,
                        h,
                        i as int,
                        dy,
                        dx,
                    ));
                    assert forall|p: int, py: int, px: int|
                        0 <= p < i && -3 <= py <= 3 && -3 <= px <= 3 implies #[trigger] dmap_at(
                        dmap@,
                        p,
                        py,
                        px,
                    ) == dmap_entry(pixels@, w, h, p, py, px) by {
                        let ix = p * 49 + (py + 3) * 7 + (px + 3);
                        assert(p * 49 + 48 < i * 49) by (nonlinear_arith)
                            requires
                                0 <= p < i,
                        ;
                        assert(0 <= ix < old_dmap.len());
                        assert(dmap@[ix] == old_dmap[ix]);
                        assert(dmap_at(old_dmap, p, py, px) == dmap_entry(pixels@, w, h, p, py, px));
                    }
                    assert forall|py: int, px: int|
                        -3 <= py <= 3 && -3 <= px <= 3 && (py < dy || (py == dy && px < dx))
                            implies #[trigger] dmap_at(dmap@, i as int, py, px) == dmap_entry(
                        pixels@,
                        w,
                        h,
                        i as int,
                        py,
                        px,
                    ) by {
                        let ix = i * 49 + (py + 3) * 7 + (px + 3);
                        assert((py + 3) * 7 + (px + 3) < oy * 7 + ox);
                        assert(0 <= ix < old_dmap.len());
                        assert(dmap@[ix] == old_dmap[ix]);
                        assert(dmap_at(old_dmap, i as int, py, px) == dmap_entry(
                            pixels@,
                            w,
                            h,
                            i as int,
                            py,
                            px,
                        ));
                    }
                }
                ox += 1;
            }
            oy += 1;
        }
        i += 1;
    }
    dmap
}

/// Per-pixel sampling weights from a grayscale edge map: each pixel weighs
/// exactly its luminance, so the weights are proportional to the map and a
/// dark pixel is never drawn.  A caller that wants every pixel reachable
/// brightens the map before handing it over.
pub fn generate_pixel_edge_weights(edge_map: &Vec<u8>) -> (weights: Vec<u64>)
    ensures
        weights@.len() == edge_map@.len(),
        forall|k: int| 0 <= k < weights@.len() ==> #[trigger] weights@[k] == edge_map@[k],
        forall|k: int| 0 <= k < weights@.len() ==> #[trigger] weights@[k] <= MAX_PIXEL_WEIGHT,
{
    let mut weights: Vec<u64> = Vec::new();
    let mut k: usize = 0;
    while k < edge_map.len()
        invariant
            k <= edge_map@.len(),
            weights@.len() == k,
            forall|m: int| 0 <= m < k ==> #[trigger] weights@[m] == edge_map@[m],
            forall|m: int| 0 <= m < k ==> #[trigger] weights@[m] <= MAX_PIXEL_WEIGHT,
        decreases edge_map@.len() - k,
    {
        weights.push(edge_map[k] as u64);
        k += 1;
    }
    weights
}

/// The sum of the first `k` sampling weights.
pub open spec fn weight_prefix_sum(weights: Seq<u64>, k: int) -> int
    decreases k,
{
    if k <= 0 {
        0
    } else {
        weight_prefix_sum(weights, k - 1) + weights[k - 1]
    }
}

/// Prefix sums of bounded weights stay linear in their length.
proof fn lemma_weight_prefix_sum_bound(weights: Seq<u64>, k: int)
    requires
        0 <= k <= weights.len(),
        forall|m: int| 0 <= m < weights.len() ==> #[trigger] weights[m] <= MAX_PIXEL_WEIGHT,
    ensures
        0 <= weight_prefix_sum(weights, k) <= k * MAX_PIXEL_WEIGHT,
    decreases k,
{
    if k > 0 {
        lemma_weight_prefix_sum_bound(weights, k - 1);
    }
}

/// The total sampling weight of the image.
fn total_pixel_weight(global_data: &GlobalData) -> (total: u64)
    requires
        global_data.wf(),
    ensures
        total as int == weight_prefix_sum(global_data.pixel_weights@, global_data.area()),
{
    let area: usize = global_data.width * global_data.height;
    let mut total: u64 = 0;
    let mut k: usize = 0;
    while k < area
        invariant
            global_data.wf(),
            area == global_data.area(),
            k <= area,
            total as int == weight_prefix_sum(global_data.pixel_weights@, k as int),
            total <= k * MAX_PIXEL_WEIGHT,
        decreases area - k,
    {
        total = total + global_data.pixel_weights[k];
        k += 1;
    }
    total
}

/// Cumulative-sum sampling against a given draw: the smallest index whose
/// cumulative weight exceeds the draw.  Such an index always carries a
/// positive weight.
pub fn cumulative_weight_pick(weights: &Vec<u64>, draw: u64) -> (r: usize)
    requires
        1 <= weights@.len() <= MAX_AREA,
        forall|m: int| 0 <= m < weights@.len() ==> #[trigger] weights@[m] <= MAX_PIXEL_WEIGHT,
        draw < weight_prefix_sum(weights@, weights@.len() as int),
    ensures
        r < weights@.len(),
        weight_prefix_sum(weights@, r as int) <= draw,
        draw < weight_prefix_sum(weights@, r + 1),
        weights@[r as int] > 0,
{
    let n = weights.len();
    proof {
        lemma_weight_prefix_sum_bound(weights@, n as int);
    }
    let mut cum: u64 = 0;
    let mut j: usize = 0;
    while j < n
        invariant
            1 <= n == weights@.len() <= MAX_AREA,
            forall|m: int| 0 <= m < weights@.len() ==> #[trigger] weights@[m] <= MAX_PIXEL_WEIGHT,
            (draw as int) < weight_prefix_sum(weights@, n as int),
            j <= n,
            cum as int == weight_prefix_sum(weights@, j as int),
            cum <= j * MAX_PIXEL_WEIGHT,
            cum <= draw,
        decreases n - j,
    {
        proof {
            lemma_weight_prefix_sum_bound(weights@, n as int);
            assert((j as int) * MAX_PIXEL_WEIGHT <= (n as int) * MAX_PIXEL_WEIGHT)
                by (nonlinear_arith)
                requires
                    0 <= j as int <= n as int,
                    MAX_PIXEL_WEIGHT >= 0,
            ;
        }
        let cum2 = cum + weights[j];
        if cum2 > draw {
            proof {
                assert(weights@[j as int] > 0);
            }
            return j;
        }
        cum = cum2;
        j += 1;
    }
    proof {
        // the whole sum exceeds the draw, so the scan cannot run out
        assert(false);
    }
    0
}

/// Draw a random pixel index, biased by the per-pixel sampling weights:
/// cumulative-sum sampling against a uniform draw below the total weight.
/// Whenever any weight is positive, the drawn pixel's weight is positive;
/// only a weightless image falls back to the last pixel.
pub fn get_edge_weighted_random_pixel_index(global_data: &GlobalData) -> (r: usize)
    requires
        global_data.wf(),
    ensures
        r < global_data.area(),
        weight_prefix_sum(global_data.pixel_weights@, global_data.area()) > 0
            ==> global_data.pixel_weights@[r as int] > 0,
        weight_prefix_sum(global_data.pixel_weights@, global_data.area()) == 0 ==> r
            == global_data.area() - 1,
{
    let area: usize = global_data.width * global_data.height;
    proof {
        assert(area >= 1) by (nonlinear_arith)
            requires
                area == global_data.width * global_data.height,
                global_data.width >= 1,
                global_data.height >= 1,
        ;
        lemma_weight_prefix_sum_bound(global_data.pixel_weights@, area as int);
    }
    let total = total_pixel_weight(global_data);
    if total == 0 {
        return area - 1;
    }
    let draw = rand_u64_below(total);
    cumulative_weight_pick(&global_data.pixel_weights, draw)
}

} // verus!
