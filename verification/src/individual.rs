//! A candidate segmentation: a genome, its three objective scores and the
//! scalarized fitness, guarded by a dirty flag.
//!
//! Objectives must not be read while the candidate is dirty; every accessor
//! requires an evaluated candidate, and [`Individual::update_objectives`]
//! recomputes the scores and clears the flag.

use vstd::prelude::*;
use crate::config::Config;
use crate::decoder::{decode_genome, decoded_ok};
use crate::distance::{sqrt_floor, is_sqrt_floor, isqrt_wide, neighbor_weight,
    get_nearest_neighbor_value, Pixel, MAX_DIST_FP, CONN_SCALE};
use crate::genome::{Connection, Genome, MAX_AREA, neighbor_of, neighbor_index};
use crate::global_data::{GlobalData, dmap_at};
use crate::rng::rand_index;

verus! {

/// The mathematical content of a candidate: its genome and, when it has
/// been evaluated, its objective scores.
pub ghost struct CandView {
    pub genome: Seq<Connection>,
    pub evaluated: bool,
    pub edge: u64,
    pub conn: u64,
    pub dev: u64,
    pub fitness: i128,
}

impl CandView {
    /// Candidate `a` Pareto-dominates `b`: not worse on any objective
    /// (edge value is maximized, connectivity and deviation minimized) and
    /// strictly better on at least one.
    pub open spec fn dominates(self, other: CandView) -> bool {
        let better = self.edge > other.edge || self.conn < other.conn || self.dev < other.dev;
        let worse = self.edge < other.edge || self.conn > other.conn || self.dev > other.dev;
        better && !worse
    }
}

/// Dominance is asymmetric: two candidates never dominate each other.
pub proof fn lemma_dominates_asymmetric(a: CandView, b: CandView)
    ensures
        !(a.dominates(b) && b.dominates(a)),
{
}

/// Dominance is a strict order: irreflexive and transitive.
pub proof fn lemma_dominates_strict(a: CandView, b: CandView, c: CandView)
    ensures
        !a.dominates(a),
        a.dominates(b) && b.dominates(c) ==> a.dominates(c),
{
}

/// One candidate of the population.
pub struct Individual {
    pub genome: Genome,
    needs_update: bool,
    edge_value_fitness: u64,
    connectivity_fitness: u64,
    overall_deviation_fitness: u64,
    fitness: i128,
}

impl View for Individual {
    type V = CandView;

    closed spec fn view(&self) -> CandView {
        CandView {
            genome: self.genome@,
            evaluated: !self.needs_update,
            edge: self.edge_value_fitness,
            conn: self.connectivity_fitness,
            dev: self.overall_deviation_fitness,
            fitness: self.fitness,
        }
    }
}


/// The column offset of the `j`-th entry of the 8-neighbor scan.
pub open spec fn offset_dx(j: int) -> int {
    if j < 3 {
        -1
    } else if j < 5 {
        0
    } else {
        1
    }
}

/// The row offset of the `j`-th entry of the 8-neighbor scan.
pub open spec fn offset_dy(j: int) -> int {
    if j == 0 || j == 3 || j == 5 {
        -1
    } else if j == 1 || j == 6 {
        0
    } else {
        1
    }
}

/// Pixel `k` and its neighbor at `(dx, dy)` lie in different regions.
pub open spec fn pair_crosses(cmap: Seq<usize>, w: int, h: int, k: int, dx: int, dy: int) -> bool {
    match neighbor_of(w, h, k, dx, dy) {
        Option::Some(nb) => cmap[k] != cmap[nb],
        Option::None => false,
    }
}

/// The edge-value share of pixel `k` over its first `j` neighbors: the
/// fixed-point color distance to each neighbor in a different region.
pub open spec fn edge_contrib_upto(
    dmap: Seq<u64>,
    cmap: Seq<usize>,
    w: int,
    h: int,
    k: int,
    j: int,
) -> int
    decreases j,
{
    if j <= 0 {
        0
    } else {
        edge_contrib_upto(dmap, cmap, w, h, k, j - 1) + if pair_crosses(
            cmap,
            w,
            h,
            k,
            offset_dx(j - 1),
            offset_dy(j - 1),
        ) {
            dmap_at(dmap, k, offset_dy(j - 1), offset_dx(j - 1))
        } else {
            0
        }
    }
}

/// The edge value of the first `k` pixels: summed fixed-point color
/// distances over all neighbor pairs that cross a region boundary.
pub open spec fn edge_sum(dmap: Seq<u64>, cmap: Seq<usize>, w: int, h: int, k: int) -> int
    decreases k,
{
    if k <= 0 {
        0
    } else {
        edge_sum(dmap, cmap, w, h, k - 1) + edge_contrib_upto(dmap, cmap, w, h, k - 1, 8)
    }
}

/// The connectivity share of pixel `k` over its first `j` neighbors:
/// `840 / weight` for each neighbor in a different region.
pub open spec fn conn_contrib_upto(cmap: Seq<usize>, w: int, h: int, k: int, j: int) -> int
    decreases j,
{
    if j <= 0 {
        0
    } else {
        conn_contrib_upto(cmap, w, h, k, j - 1) + if pair_crosses(
            cmap,
            w,
            h,
            k,
            offset_dx(j - 1),
            offset_dy(j - 1),
        ) {
            CONN_SCALE as int / neighbor_weight(offset_dx(j - 1), offset_dy(j - 1))
        } else {
            0
        }
    }
}

/// The connectivity penalty of the first `k` pixels, in units of 1/840.
pub open spec fn conn_sum(cmap: Seq<usize>, w: int, h: int, k: int) -> int
    decreases k,
{
    if k <= 0 {
        0
    } else {
        conn_sum(cmap, w, h, k - 1) + conn_contrib_upto(cmap, w, h, k - 1, 8)
    }
}

/// How many of the first `k` pixels carry label `id`.
pub open spec fn cluster_count(cmap: Seq<usize>, id: int, k: int) -> int
    decreases k,
{
    if k <= 0 {
        0
    } else {
        cluster_count(cmap, id, k - 1) + if cmap[k - 1] == id {
            1int
        } else {
            0int
        }
    }
}

/// The summed red channel of the first `k` pixels with label `id`.
pub open spec fn cluster_sum_red(cmap: Seq<usize>, pixels: Seq<Pixel>, id: int, k: int) -> int
    decreases k,
{
    if k <= 0 {
        0
    } else {
        cluster_sum_red(cmap, pixels, id, k - 1) + if cmap[k - 1] == id {
            pixels[k - 1].red as int
        } else {
            0int
        }
    }
}

/// The summed green channel of the first `k` pixels with label `id`.
pub open spec fn cluster_sum_green(cmap: Seq<usize>, pixels: Seq<Pixel>, id: int, k: int) -> int
    decreases k,
{
    if k <= 0 {
        0
    } else {
        cluster_sum_green(cmap, pixels, id, k - 1) + if cmap[k - 1] == id {
            pixels[k - 1].green as int
        } else {
            0int
        }
    }
}

/// The summed blue channel of the first `k` pixels with label `id`.
pub open spec fn cluster_sum_blue(cmap: Seq<usize>, pixels: Seq<Pixel>, id: int, k: int) -> int
    decreases k,
{
    if k <= 0 {
        0
    } else {
        cluster_sum_blue(cmap, pixels, id, k - 1) + if cmap[k - 1] == id {
            pixels[k - 1].blue as int
        } else {
            0int
        }
    }
}

/// Pixel `k`'s deviation from its region's centroid color, in thousandths:
/// with `n` the region size, `floor(1000 * sqrt(sum of squared channel
/// gaps to the mean))`, the mean carried exactly as a fraction over `n`.
pub open spec fn dev_term(cmap: Seq<usize>, pixels: Seq<Pixel>, k: int) -> int {
    let id = cmap[k] as int;
    let len = cmap.len() as int;
    let n = cluster_count(cmap, id, len);
    let dr = n * pixels[k].red - cluster_sum_red(cmap, pixels, id, len);
    let dg = n * pixels[k].green - cluster_sum_green(cmap, pixels, id, len);
    let db = n * pixels[k].blue - cluster_sum_blue(cmap, pixels, id, len);
    sqrt_floor(1000000 * (dr * dr + dg * dg + db * db)) / n
}

/// The overall deviation of the first `k` pixels, in thousandths.
pub open spec fn dev_sum(cmap: Seq<usize>, pixels: Seq<Pixel>, k: int) -> int
    decreases k,
{
    if k <= 0 {
        0
    } else {
        dev_sum(cmap, pixels, k - 1) + dev_term(cmap, pixels, k - 1)
    }
}

/// A pixel's region size is positive: the pixel itself is a member.
pub proof fn lemma_region_size_positive(cmap: Seq<usize>, j: int)
    requires
        0 <= j < cmap.len(),
    ensures
        cluster_count(cmap, cmap[j] as int, cmap.len() as int) >= 1,
{
    lemma_cluster_count_positive(cmap, j, cmap.len() as int);
}

/// A label occurring in the map occurs among its first `m` entries once
/// `m` passes the witness.
proof fn lemma_cluster_count_positive(cmap: Seq<usize>, k: int, m: int)
    requires
        0 <= k < m <= cmap.len(),
    ensures
        cluster_count(cmap, cmap[k] as int, m) >= 1,
    decreases m,
{
    if m - 1 == k {
        assert(cluster_count(cmap, cmap[k] as int, m - 1) >= 0) by {
            lemma_cluster_count_nonneg(cmap, cmap[k] as int, m - 1);
        }
    } else {
        lemma_cluster_count_positive(cmap, k, m - 1);
    }
}

/// Label counts are never negative.
proof fn lemma_cluster_count_nonneg(cmap: Seq<usize>, id: int, m: int)
    ensures
        cluster_count(cmap, id, m) >= 0,
    decreases m,
{
    if m > 0 {
        lemma_cluster_count_nonneg(cmap, id, m - 1);
    }
}

/// Compute edge value and connectivity in one sweep over all pixels and
/// their up-to-8 neighbors that lie in a different region.
fn compute_edge_conn(cmap: &Vec<usize>, global_data: &GlobalData) -> (r: (u64, u64))
    requires
        global_data.wf(),
        cmap@.len() == global_data.area(),
    ensures
        r.0 == edge_sum(
            global_data.distance_map@,
            cmap@,
            global_data.width as int,
            global_data.height as int,
            global_data.area(),
        ),
        r.1 == conn_sum(
            cmap@,
            global_data.width as int,
            global_data.height as int,
            global_data.area(),
        ),
        r.0 <= 3533376 * global_data.area(),
        r.1 <= 6720 * global_data.area(),
{
    let ghost dmap = global_data.distance_map@;
    let ghost w = global_data.width as int;
    let ghost h = global_data.height as int;
    let width = global_data.width;
    let height = global_data.height;
    let area: usize = width * height;
    let mut edge: u64 = 0;
    let mut conn: u64 = 0;
    let mut k: usize = 0;
    while k < area
        invariant
            global_data.wf(),
            dmap == global_data.distance_map@,
            w == global_data.width as int,
            h == global_data.height as int,
            width == global_data.width,
            height == global_data.height,
            cmap@.len() == area == global_data.area(),
            k <= area,
            edge == edge_sum(dmap, cmap@, w, h, k as int),
            conn == conn_sum(cmap@, w, h, k as int),
            edge <= 3533376 * k,
            conn <= 6720 * k,
        decreases area - k,
    {
        let mut j: usize = 0;
        while j < 8
            invariant
                global_data.wf(),
                dmap == global_data.distance_map@,
                w == global_data.width as int,
                h == global_data.height as int,
                width == global_data.width,
                height == global_data.height,
                cmap@.len() == area == global_data.area(),
                k < area,
                j <= 8,
                edge == edge_sum(dmap, cmap@, w, h, k as int) + edge_contrib_upto(
                    dmap,
                    cmap@,
                    w,
                    h,
                    k as int,
                    j as int,
                ),
                conn == conn_sum(cmap@, w, h, k as int) + conn_contrib_upto(
                    cmap@,
                    w,
                    h,
                    k as int,
                    j as int,
                ),
                edge <= 3533376 * k + 441672 * j,
                conn <= 6720 * k + 840 * j,
            decreases 8 - j,
        {
            let (dx, dy): (i32, i32) = match j {
                0 => (-1, -1),
                1 => (-1, 0),
                2 => (-1, 1),
                3 => (0, -1),
                4 => (0, 1),
                5 => (1, -1),
                6 => (1, 0),
                _ => (1, 1),
            };
            proof {
                assert(dx as int == offset_dx(j as int) && dy as int == offset_dy(j as int));
            }
            match neighbor_index(width, height, k, dx, dy) {
                Option::Some(nb) => {
                    if cmap[k] != cmap[nb] {
                        proof {
                            assert(pair_crosses(cmap@, w, h, k as int, dx as int, dy as int));
                            assert((k as int) * 49 + (dy as int + 3) * 7 + (dx as int + 3)
                                < (area as int) * 49) by (nonlinear_arith)
                                requires
                                    0 <= (k as int) < area as int,
                                    -3 <= dx as int <= 3,
                                    -3 <= dy as int <= 3,
                            ;
                        }
                        let ix: usize = k * 49 + ((dy + 3) as usize) * 7 + ((dx + 3) as usize);
                        let d: u64 = global_data.distance_map[ix];
                        proof {
                            assert(dmap_at(dmap, k as int, dy as int, dx as int) == d);
                            assert(d <= MAX_DIST_FP);
                        }
                        edge = edge + d;
                        let wgt = get_nearest_neighbor_value(dx, dy);
                        proof {
                            assert(1 <= neighbor_weight(dx as int, dy as int) <= 8);
                        }
                        conn = conn + 840 / (wgt as u64);
                    } else {
                        proof {
                            assert(!pair_crosses(cmap@, w, h, k as int, dx as int, dy as int));
                        }
                    }
                },
                Option::None => {
                    proof {
                        assert(!pair_crosses(cmap@, w, h, k as int, dx as int, dy as int));
                    }
                },
            }
            j += 1;
        }
        proof {
            assert(edge_sum(dmap, cmap@, w, h, k + 1) == edge_sum(dmap, cmap@, w, h, k as int)
                + edge_contrib_upto(dmap, cmap@, w, h, k as int, 8));
            assert(conn_sum(cmap@, w, h, k + 1) == conn_sum(cmap@, w, h, k as int)
                + conn_contrib_upto(cmap@, w, h, k as int, 8));
        }
        k += 1;
    }
    (edge, conn)
}

/// Aggregate, for every region label, its pixel count and summed channel
/// colors.
fn compute_cluster_stats(cmap: &Vec<usize>, nclusters: usize, global_data: &GlobalData) -> (r: (
    Vec<u64>,
    Vec<u64>,
    Vec<u64>,
    Vec<u64>,
))
    requires
        global_data.wf(),
        cmap@.len() == global_data.area(),
        nclusters <= cmap@.len(),
        forall|i: int| 0 <= i < cmap@.len() ==> 1 <= #[trigger] cmap@[i] <= nclusters,
    ensures
        r.0@.len() == nclusters + 1,
        r.1@.len() == nclusters + 1,
        r.2@.len() == nclusters + 1,
        r.3@.len() == nclusters + 1,
        forall|id: int|
            0 <= id <= nclusters ==> #[trigger] r.0@[id] == cluster_count(
                cmap@,
                id,
                cmap@.len() as int,
            ),
        forall|id: int|
            0 <= id <= nclusters ==> #[trigger] r.1@[id] == cluster_sum_red(
                cmap@,
                global_data.pixels@,
                id,
                cmap@.len() as int,
            ),
        forall|id: int|
            0 <= id <= nclusters ==> #[trigger] r.2@[id] == cluster_sum_green(
                cmap@,
                global_data.pixels@,
                id,
                cmap@.len() as int,
            ),
        forall|id: int|
            0 <= id <= nclusters ==> #[trigger] r.3@[id] == cluster_sum_blue(
                cmap@,
                global_data.pixels@,
                id,
                cmap@.len() as int,
            ),
{
    let ghost pixels = global_data.pixels@;
    let area: usize = cmap.len();
    let mut sizes: Vec<u64> = Vec::new();
    let mut sum_r: Vec<u64> = Vec::new();
    let mut sum_g: Vec<u64> = Vec::new();
    let mut sum_b: Vec<u64> = Vec::new();
    let mut id: usize = 0;
    while id < nclusters + 1
        invariant
            nclusters <= cmap@.len() <= MAX_AREA,
            id <= nclusters + 1,
            sizes@.len() == id,
            sum_r@.len() == id,
            sum_g@.len() == id,
            sum_b@.len() == id,
            forall|m: int| 0 <= m < id ==> #[trigger] sizes@[m] == 0,
            forall|m: int| 0 <= m < id ==> #[trigger] sum_r@[m] == 0,
            forall|m: int| 0 <= m < id ==> #[trigger] sum_g@[m] == 0,
            forall|m: int| 0 <= m < id ==> #[trigger] sum_b@[m] == 0,
        decreases nclusters + 1 - id,
    {
        sizes.push(0);
        sum_r.push(0);
        sum_g.push(0);
        sum_b.push(0);
        id += 1;
    }
    let mut k: usize = 0;
    while k < area
        invariant
            global_data.wf(),
            pixels == global_data.pixels@,
            cmap@.len() == area == global_data.area(),
            forall|i: int| 0 <= i < cmap@.len() ==> 1 <= #[trigger] cmap@[i] <= nclusters,
            nclusters <= area,
            k <= area,
            sizes@.len() == nclusters + 1,
            sum_r@.len() == nclusters + 1,
            sum_g@.len() == nclusters + 1,
            sum_b@.len() == nclusters + 1,
            forall|m: int|
                0 <= m <= nclusters ==> #[trigger] sizes@[m] == cluster_count(cmap@, m, k as int),
            forall|m: int|
                0 <= m <= nclusters ==> #[trigger] sum_r@[m] == cluster_sum_red(
                    cmap@,
                    pixels,
                    m,
                    k as int,
                ),
            forall|m: int|
                0 <= m <= nclusters ==> #[trigger] sum_g@[m] == cluster_sum_green(
                    cmap@,
                    pixels,
                    m,
                    k as int,
                ),
            forall|m: int|
                0 <= m <= nclusters ==> #[trigger] sum_b@[m] == cluster_sum_blue(
                    cmap@,
                    pixels,
                    m,
                    k as int,
                ),
            forall|m: int| 0 <= m <= nclusters ==> #[trigger] sizes@[m] <= k,
            forall|m: int| 0 <= m <= nclusters ==> #[trigger] sum_r@[m] <= 255 * k,
            forall|m: int| 0 <= m <= nclusters ==> #[trigger] sum_g@[m] <= 255 * k,
            forall|m: int| 0 <= m <= nclusters ==> #[trigger] sum_b@[m] <= 255 * k,
        decreases area - k,
    {
        let label: usize = cmap[k];
        let px = global_data.pixels[k];
        let s0 = sizes[label];
        sizes.set(label, s0 + 1);
        let r0 = sum_r[label];
        sum_r.set(label, r0 + px.red as u64);
        let g0 = sum_g[label];
        sum_g.set(label, g0 + px.green as u64);
        let b0 = sum_b[label];
        sum_b.set(label, b0 + px.blue as u64);
        k += 1;
    }
    (sizes, sum_r, sum_g, sum_b)
}

/// Sum every pixel's fixed-point distance to its region's centroid color.
fn compute_deviation(
    cmap: &Vec<usize>,
    nclusters: usize,
    sizes: &Vec<u64>,
    sum_r: &Vec<u64>,
    sum_g: &Vec<u64>,
    sum_b: &Vec<u64>,
    global_data: &GlobalData,
) -> (r: u64)
    requires
        global_data.wf(),
        cmap@.len() == global_data.area(),
        nclusters <= cmap@.len(),
        forall|i: int| 0 <= i < cmap@.len() ==> 1 <= #[trigger] cmap@[i] <= nclusters,
        sizes@.len() == nclusters + 1,
        sum_r@.len() == nclusters + 1,
        sum_g@.len() == nclusters + 1,
        sum_b@.len() == nclusters + 1,
        forall|id: int|
            0 <= id <= nclusters ==> #[trigger] sizes@[id] == cluster_count(
                cmap@,
                id,
                cmap@.len() as int,
            ),
        forall|id: int|
            0 <= id <= nclusters ==> #[trigger] sum_r@[id] == cluster_sum_red(
                cmap@,
                global_data.pixels@,
                id,
                cmap@.len() as int,
            ),
        forall|id: int|
            0 <= id <= nclusters ==> #[trigger] sum_g@[id] == cluster_sum_green(
                cmap@,
                global_data.pixels@,
                id,
                cmap@.len() as int,
            ),
        forall|id: int|
            0 <= id <= nclusters ==> #[trigger] sum_b@[id] == cluster_sum_blue(
                cmap@,
                global_data.pixels@,
                id,
                cmap@.len() as int,
            ),
    ensures
        r == dev_sum(cmap@, global_data.pixels@, global_data.area()),
        r <= 441673 * global_data.area(),
{
    let ghost pixels = global_data.pixels@;
    let area: usize = cmap.len();
    let mut dev: u64 = 0;
    let mut k: usize = 0;
    while k < area
        invariant
            global_data.wf(),
            pixels == global_data.pixels@,
            cmap@.len() == area == global_data.area(),
            forall|i: int| 0 <= i < cmap@.len() ==> 1 <= #[trigger] cmap@[i] <= nclusters,
            nclusters <= area,
            sizes@.len() == nclusters + 1,
            sum_r@.len() == nclusters + 1,
            sum_g@.len() == nclusters + 1,
            sum_b@.len() == nclusters + 1,
            forall|id: int|
                0 <= id <= nclusters ==> #[trigger] sizes@[id] == cluster_count(
                    cmap@,
                    id,
                    cmap@.len() as int,
                ),
            forall|id: int|
                0 <= id <= nclusters ==> #[trigger] sum_r@[id] == cluster_sum_red(
                    cmap@,
                    pixels,
                    id,
                    cmap@.len() as int,
                ),
            forall|id: int|
                0 <= id <= nclusters ==> #[trigger] sum_g@[id] == cluster_sum_green(
                    cmap@,
                    pixels,
                    id,
                    cmap@.len() as int,
                ),
            forall|id: int|
                0 <= id <= nclusters ==> #[trigger] sum_b@[id] == cluster_sum_blue(
                    cmap@,
                    pixels,
                    id,
                    cmap@.len() as int,
                ),
            k <= area,
            dev == dev_sum(cmap@, pixels, k as int),
            dev <= 441673 * k,
        decreases area - k,
    {
        let label: usize = cmap[k];
        let n: u64 = sizes[label];
        let px = global_data.pixels[k];
        proof {
            lemma_cluster_count_positive(cmap@, k as int, area as int);
            lemma_count_and_sum_bounds(cmap@, pixels, label as int, area as int);
            assert(n as int == cluster_count(cmap@, label as int, cmap@.len() as int));
            assert(1 <= n <= area);
            assert((n as int) * (px.red as int) <= 4000000 * 255 && (n as int) * (px.green as int)
                <= 4000000 * 255 && (n as int) * (px.blue as int) <= 4000000 * 255)
                by (nonlinear_arith)
                requires
                    0 <= n <= 4000000,
                    px.red <= 255,
                    px.green <= 255,
                    px.blue <= 255,
            ;
        }
        let nr: u64 = n * px.red as u64;
        let ng: u64 = n * px.green as u64;
        let nb: u64 = n * px.blue as u64;
        let dr: u64 = if nr >= sum_r[label] {
            nr - sum_r[label]
        } else {
            sum_r[label] - nr
        };
        let dg: u64 = if ng >= sum_g[label] {
            ng - sum_g[label]
        } else {
            sum_g[label] - ng
        };
        let db: u64 = if nb >= sum_b[label] {
            nb - sum_b[label]
        } else {
            sum_b[label] - nb
        };
        proof {
            assert(dr as int <= 255 * (n as int) && dg as int <= 255 * (n as int) && db as int
                <= 255 * (n as int)) by (nonlinear_arith)
                requires
                    nr as int == (n as int) * (px.red as int),
                    ng as int == (n as int) * (px.green as int),
                    nb as int == (n as int) * (px.blue as int),
                    px.red <= 255,
                    px.green <= 255,
                    px.blue <= 255,
                    n >= 0,
                    0 <= sum_r@[label as int] <= 255 * (n as int),
                    0 <= sum_g@[label as int] <= 255 * (n as int),
                    0 <= sum_b@[label as int] <= 255 * (n as int),
                    dr as int == if nr as int >= sum_r@[label as int] {
                        (nr as int) - sum_r@[label as int]
                    } else {
                        sum_r@[label as int] - (nr as int)
                    },
                    dg as int == if ng as int >= sum_g@[label as int] {
                        (ng as int) - sum_g@[label as int]
                    } else {
                        sum_g@[label as int] - (ng as int)
                    },
                    db as int == if nb as int >= sum_b@[label as int] {
                        (nb as int) - sum_b@[label as int]
                    } else {
                        sum_b@[label as int] - (nb as int)
                    },
            ;
            assert(dr * dr <= (255 * n) * (255 * n) && dg * dg <= (255 * n) * (255 * n) && db * db
                <= (255 * n) * (255 * n)) by (nonlinear_arith)
                requires
                    0 <= dr <= 255 * n,
                    0 <= dg <= 255 * n,
                    0 <= db <= 255 * n,
            ;
            assert((255 * (n as int)) * (255 * (n as int)) <= 65025 * 16000000000000)
                by (nonlinear_arith)
                requires
                    0 <= n <= 4000000,
            ;
        }
        let sq: u64 = dr * dr + dg * dg + db * db;
        let x: u128 = (sq as u128) * 1000000;
        let rt: u64 = isqrt_wide(x);
        let term: u64 = rt / n;
        proof {
            let id = label as int;
            let len = cmap@.len() as int;
            let cn = cluster_count(cmap@, id, len);
            let sdr = cn * pixels[k as int].red - cluster_sum_red(cmap@, pixels, id, len);
            let sdg = cn * pixels[k as int].green - cluster_sum_green(cmap@, pixels, id, len);
            let sdb = cn * pixels[k as int].blue - cluster_sum_blue(cmap@, pixels, id, len);
            assert(sdr * sdr == (dr as int) * (dr as int) && sdg * sdg == (dg as int) * (dg as int)
                && sdb * sdb == (db as int) * (db as int)) by (nonlinear_arith)
                requires
                    sdr == (nr as int) - sum_r@[label as int],
                    sdg == (ng as int) - sum_g@[label as int],
                    sdb == (nb as int) - sum_b@[label as int],
                    dr as int == if (nr as int) >= sum_r@[label as int] {
                        (nr as int) - sum_r@[label as int]
                    } else {
                        sum_r@[label as int] - (nr as int)
                    },
                    dg as int == if (ng as int) >= sum_g@[label as int] {
                        (ng as int) - sum_g@[label as int]
                    } else {
                        sum_g@[label as int] - (ng as int)
                    },
                    db as int == if (nb as int) >= sum_b@[label as int] {
                        (nb as int) - sum_b@[label as int]
                    } else {
                        sum_b@[label as int] - (nb as int)
                    },
            ;
            assert(dev_term(cmap@, pixels, k as int) == term) by {
                assert(x as int == 1000000 * (sdr * sdr + sdg * sdg + sdb * sdb));
                assert(rt == sqrt_floor(x as int));
                assert(term as int == (rt as int) / (n as int));
            }
            assert(term <= 441673) by {
                assert((rt as int) * (rt as int) <= x as int);
                assert(x as int <= 195075000000 * (n as int) * (n as int)) by (nonlinear_arith)
                    requires
                        x as int == 1000000 * ((dr as int) * (dr as int) + (dg as int) * (dg as int)
                            + (db as int) * (db as int)),
                        (dr as int) * (dr as int) <= (255 * (n as int)) * (255 * (n as int)),
                        (dg as int) * (dg as int) <= (255 * (n as int)) * (255 * (n as int)),
                        (db as int) * (db as int) <= (255 * (n as int)) * (255 * (n as int)),
                ;
                assert(rt as int <= 441673 * (n as int)) by (nonlinear_arith)
                    requires
                        (rt as int) * (rt as int) <= 195075000000 * (n as int) * (n as int),
                        rt >= 0,
                        n >= 1,
                ;
                assert((rt as int) / (n as int) <= 441673) by (nonlinear_arith)
                    requires
                        rt as int <= 441673 * (n as int),
                        rt >= 0,
                        n >= 1,
                ;
            }
        }
        dev = dev + term;
        k += 1;
    }
    dev
}

/// Counts and channel sums of one label are bounded by the pixel count.
proof fn lemma_count_and_sum_bounds(cmap: Seq<usize>, pixels: Seq<Pixel>, id: int, m: int)
    requires
        0 <= m,
        m <= cmap.len(),
        m <= pixels.len(),
    ensures
        0 <= cluster_count(cmap, id, m) <= m,
        0 <= cluster_sum_red(cmap, pixels, id, m) <= 255 * cluster_count(cmap, id, m),
        0 <= cluster_sum_green(cmap, pixels, id, m) <= 255 * cluster_count(cmap, id, m),
        0 <= cluster_sum_blue(cmap, pixels, id, m) <= 255 * cluster_count(cmap, id, m),
    decreases m,
{
    if m > 0 {
        lemma_count_and_sum_bounds(cmap, pixels, id, m - 1);
    }
}



/// Whether the pixel at `(row, col)` has an orthogonal neighbor carrying
/// a different segment id.
pub fn is_border_pixel(
    segmentation_map: &Vec<Vec<usize>>,
    row: usize,
    col: usize,
    rows: usize,
    cols: usize,
    current_segment: usize,
) -> (r: bool)
    requires
        rows == segmentation_map@.len(),
        forall|m: int|
            0 <= m < segmentation_map@.len() ==> (#[trigger] segmentation_map@[m])@.len() == cols,
        row < rows,
        col < cols,
    ensures
        r == {
            ||| (row > 0 && segmentation_map@[row - 1]@[col as int] != current_segment)
            ||| (row < rows - 1 && segmentation_map@[row + 1]@[col as int] != current_segment)
            ||| (col > 0 && segmentation_map@[row as int]@[col - 1] != current_segment)
            ||| (col < cols - 1 && segmentation_map@[row as int]@[col + 1] != current_segment)
        },
{
    if row > 0 && segmentation_map[row - 1][col] != current_segment {
        return true;
    }
    if row < rows - 1 && segmentation_map[row + 1][col] != current_segment {
        return true;
    }
    if col > 0 && segmentation_map[row][col - 1] != current_segment {
        return true;
    }
    if col < cols - 1 && segmentation_map[row][col + 1] != current_segment {
        return true;
    }
    false
}

/// The candidate's stored scores are the evaluator's result for its own
/// genome: some decoded label map of that genome yields exactly these
/// edge, connectivity and deviation sums, and the fitness combines them
/// with the configured multipliers.
pub open spec fn scored_for(v: CandView, global_data: &GlobalData, config: &Config) -> bool {
    &&& exists|cm: Seq<usize>, ncl: usize|
        {
            &&& #[trigger] decoded_ok(
                v.genome,
                global_data.width as int,
                global_data.height as int,
                cm,
                ncl,
            )
            &&& v.edge == edge_sum(
                global_data.distance_map@,
                cm,
                global_data.width as int,
                global_data.height as int,
                global_data.area(),
            )
            &&& v.conn == conn_sum(
                cm,
                global_data.width as int,
                global_data.height as int,
                global_data.area(),
            )
            &&& v.dev == dev_sum(cm, global_data.pixels@, global_data.area())
        }
    &&& v.fitness == v.edge as i128 * config.edge_value_multiplier as i128 - v.conn as i128
        * config.connectivity_multiplier as i128 - v.dev as i128
        * config.overall_deviation_multiplier as i128
}

/// Pixel `i` borders another region: one of its four orthogonal neighbors
/// carries a different label.
pub open spec fn is_border_flat(cmap: Seq<usize>, w: int, h: int, i: int) -> bool {
    ||| pair_crosses(cmap, w, h, i, 0, -1)
    ||| pair_crosses(cmap, w, h, i, 0, 1)
    ||| pair_crosses(cmap, w, h, i, -1, 0)
    ||| pair_crosses(cmap, w, h, i, 1, 0)
}

/// Pixel `i` lies on the outer frame of the image.
pub open spec fn on_frame(w: int, h: int, i: int) -> bool {
    i / w == 0 || i / w == h - 1 || i % w == 0 || i % w == w - 1
}

/// The black-and-white value the border map holds for pixel `i`: 0 on
/// region borders and on the image frame, 255 inside a region.
pub open spec fn border_value(cmap: Seq<usize>, w: int, h: int, i: int) -> u8 {
    if on_frame(w, h, i) || is_border_flat(cmap, w, h, i) {
        0u8
    } else {
        255u8
    }
}

/// The ten-color palette used to paint region labels.
pub open spec fn palette(j: int) -> Pixel {
    if j == 0 {
        Pixel { red: 25, green: 200, blue: 56 }
    } else if j == 1 {
        Pixel { red: 25, green: 200, blue: 56 }
    } else if j == 2 {
        Pixel { red: 138, green: 42, blue: 226 }
    } else if j == 3 {
        Pixel { red: 158, green: 72, blue: 0 }
    } else if j == 4 {
        Pixel { red: 241, green: 76, blue: 192 }
    } else if j == 5 {
        Pixel { red: 163, green: 163, blue: 163 }
    } else if j == 6 {
        Pixel { red: 255, green: 195, blue: 0 }
    } else if j == 7 {
        Pixel { red: 0, green: 214, blue: 255 }
    } else if j == 8 {
        Pixel { red: 1, green: 62, blue: 255 }
    } else {
        Pixel { red: 255, green: 123, blue: 0 }
    }
}

/// The palette color for label `j`, as executable code.
fn palette_color(j: usize) -> (r: Pixel)
    requires
        j < 10,
    ensures
        r == palette(j as int),
{
    match j {
        0 => Pixel { red: 25, green: 200, blue: 56 },
        1 => Pixel { red: 25, green: 200, blue: 56 },
        2 => Pixel { red: 138, green: 42, blue: 226 },
        3 => Pixel { red: 158, green: 72, blue: 0 },
        4 => Pixel { red: 241, green: 76, blue: 192 },
        5 => Pixel { red: 163, green: 163, blue: 163 },
        6 => Pixel { red: 255, green: 195, blue: 0 },
        7 => Pixel { red: 0, green: 214, blue: 255 },
        8 => Pixel { red: 1, green: 62, blue: 255 },
        _ => Pixel { red: 255, green: 123, blue: 0 },
    }
}

/// Compute the flat border map of a label map: 0 on region borders and the
/// image frame, 255 inside regions.
fn border_map_flat(cmap: &Vec<usize>, width: usize, height: usize) -> (r: Vec<u8>)
    requires
        width >= 1,
        height >= 1,
        width * height <= MAX_AREA,
        cmap@.len() == width * height,
    ensures
        r@.len() == cmap@.len(),
        forall|i: int|
            0 <= i < r@.len() ==> #[trigger] r@[i] == border_value(
                cmap@,
                width as int,
                height as int,
                i,
            ),
{
    let ghost w = width as int;
    let ghost h = height as int;
    let area: usize = width * height;
    let mut out: Vec<u8> = Vec::new();
    let mut i: usize = 0;
    while i < area
        invariant
            width >= 1,
            height >= 1,
            area == width * height <= MAX_AREA,
            w == width as int,
            h == height as int,
            cmap@.len() == area,
            i <= area,
            out@.len() == i,
            forall|m: int| 0 <= m < i ==> #[trigger] out@[m] == border_value(cmap@, w, h, m),
        decreases area - i,
    {
        let row: usize = i / width;
        let col: usize = i % width;
        let mut border: bool = row == 0 || row == height - 1 || col == 0 || col == width - 1;
        proof {
            assert(border == on_frame(w, h, i as int));
        }
        let ghost frame_or_border = border;
        if !border {
            let mut j: usize = 0;
            while j < 4
                invariant
                    width >= 1,
                    height >= 1,
                    area == width * height <= MAX_AREA,
                    w == width as int,
                    h == height as int,
                    cmap@.len() == area,
                    i < area,
                    j <= 4,
                    border == {
                        ||| (j > 0 && pair_crosses(cmap@, w, h, i as int, 0, -1))
                        ||| (j > 1 && pair_crosses(cmap@, w, h, i as int, 0, 1))
                        ||| (j > 2 && pair_crosses(cmap@, w, h, i as int, -1, 0))
                        ||| (j > 3 && pair_crosses(cmap@, w, h, i as int, 1, 0))
                    },
                decreases 4 - j,
            {
                let (dx, dy): (i32, i32) = match j {
                    0 => (0, -1),
                    1 => (0, 1),
                    2 => (-1, 0),
                    _ => (1, 0),
                };
                match neighbor_index(width, height, i, dx, dy) {
                    Option::Some(nb) => {
                        if cmap[i] != cmap[nb] {
                            border = true;
                        }
                    },
                    Option::None => {},
                }
                j += 1;
            }
        }
        out.push(if border { 0 } else { 255 });
        i += 1;
    }
    out
}

/// Copy a genome element by element.
pub fn clone_genome(genome: &Genome) -> (r: Genome)
    ensures
        r@ == genome@,
{
    let mut out: Genome = Vec::new();
    let mut k: usize = 0;
    while k < genome.len()
        invariant
            k <= genome@.len(),
            out@ == genome@.take(k as int),
        decreases genome@.len() - k,
    {
        out.push(genome[k]);
        proof {
            assert(out@ =~= genome@.take(k + 1));
        }
        k += 1;
    }
    proof {
        assert(genome@.take(genome@.len() as int) =~= genome@);
    }
    out
}

impl Clone for Individual {
    /// A clone carries the same view: same genome, flag and scores.
    fn clone(&self) -> (r: Self)
        ensures
            r@ == self@,
    {
        Individual {
            genome: clone_genome(&self.genome),
            needs_update: self.needs_update,
            edge_value_fitness: self.edge_value_fitness,
            connectivity_fitness: self.connectivity_fitness,
            overall_deviation_fitness: self.overall_deviation_fitness,
            fitness: self.fitness,
        }
    }
}

impl Individual {
    /// A fresh candidate with a uniformly random genome, one direction per
    /// pixel of the image; it still needs evaluation.
    pub fn new_random(global_data: &GlobalData) -> (r: Individual)
        requires
            global_data.wf(),
        ensures
            r@.genome.len() == global_data.area(),
            !r@.evaluated,
    {
        let genome = Individual::init_random_genome(global_data);
        Individual {
            genome,
            needs_update: true,
            edge_value_fitness: 0,
            connectivity_fitness: 0,
            overall_deviation_fitness: 0,
            fitness: 0,
        }
    }

    /// A candidate with known objective scores, already evaluated: for
    /// callers that carry scores computed elsewhere.
    pub fn new_evaluated(
        genome: Genome,
        edge_value: u64,
        connectivity: u64,
        overall_deviation: u64,
        fitness: i128,
    ) -> (r: Individual)
        ensures
            r@ == (CandView {
                genome: genome@,
                evaluated: true,
                edge: edge_value,
                conn: connectivity,
                dev: overall_deviation,
                fitness: fitness,
            }),
    {
        Individual {
            genome,
            needs_update: false,
            edge_value_fitness: edge_value,
            connectivity_fitness: connectivity,
            overall_deviation_fitness: overall_deviation,
            fitness,
        }
    }

    /// A candidate owning a copy of the given genome; it still needs
    /// evaluation.
    pub fn new_with_genome(genome: &Genome) -> (r: Individual)
        ensures
            r@.genome == genome@,
            !r@.evaluated,
    {
        Individual {
            genome: clone_genome(genome),
            needs_update: true,
            edge_value_fitness: 0,
            connectivity_fitness: 0,
            overall_deviation_fitness: 0,
            fitness: 0,
        }
    }

    /// Whether the candidate's objectives are stale.
    pub fn needs_update(&self) -> (r: bool)
        ensures
            r == !self@.evaluated,
    {
        self.needs_update
    }

    /// Borrow the genome.
    pub fn genome_ref(&self) -> (r: &Genome)
        ensures
            r@ == self@.genome,
    {
        &self.genome
    }

    /// Replace the genome, marking the candidate dirty.
    pub fn set_genome(&mut self, genome: Genome)
        ensures
            final(self)@ == (CandView { genome: genome@, evaluated: false, ..old(self)@ }),
    {
        self.genome = genome;
        self.needs_update = true;
    }

    /// Mark the candidate dirty after its genome changed.
    pub fn set_needs_update(&mut self)
        ensures
            final(self)@ == (CandView { evaluated: false, ..old(self)@ }),
    {
        self.needs_update = true;
    }

    /// A uniformly random genome for the image.
    fn init_random_genome(global_data: &GlobalData) -> (r: Genome)
        requires
            global_data.wf(),
        ensures
            r@.len() == global_data.area(),
    {
        let area: usize = global_data.width * global_data.height;
        let mut genome: Genome = Vec::new();
        let mut k: usize = 0;
        while k < area
            invariant
                genome@.len() == k <= area,
            decreases area - k,
        {
            let value = rand_index(5);
            let gene = match value {
                0 => Connection::Nowhere,
                1 => Connection::Up,
                2 => Connection::Down,
                3 => Connection::Left,
                _ => Connection::Right,
            };
            genome.push(gene);
            k += 1;
        }
        genome
    }

    /// The raw objective scores `(edge value, connectivity, deviation)`.
    /// Reading them from a dirty candidate is a contract violation.
    pub fn get_objectives(&self) -> (r: (u64, u64, u64))
        requires
            self@.evaluated,
        ensures
            r.0 == self@.edge,
            r.1 == self@.conn,
            r.2 == self@.dev,
    {
        (self.edge_value_fitness, self.connectivity_fitness, self.overall_deviation_fitness)
    }

    /// The scalarized fitness.  Reading it from a dirty candidate is a
    /// contract violation.
    pub fn get_fitness(&self) -> (r: i128)
        requires
            self@.evaluated,
        ensures
            r == self@.fitness,
    {
        self.fitness
    }


    /// Decode this candidate's genome into a label map of the given
    /// dimensions, rows of region ids.
    pub fn get_cluster_map(&self, width: i64, height: i64) -> (r: Vec<Vec<usize>>)
        requires
            width >= 1,
            height >= 1,
            width * height == self@.genome.len(),
            width * height <= MAX_AREA,
        ensures
            r@.len() == height,
            forall|row: int| 0 <= row < height ==> #[trigger] r@[row]@.len() == width,
            exists|cm: Seq<usize>, ncl: usize|
                {
                    &&& decoded_ok(self@.genome, width as int, height as int, cm, ncl)
                    &&& ncl <= width * height
                    &&& forall|row: int, col: int|
                        0 <= row < height && 0 <= col < width ==> #[trigger] r@[row]@[col] == cm[
                            row * width + col]
                },
    {
        proof {
            assert(width <= MAX_AREA && height <= MAX_AREA) by (nonlinear_arith)
                requires
                    width * height <= MAX_AREA,
                    width >= 1,
                    height >= 1,
            ;
        }
        let w: usize = width as usize;
        let h: usize = height as usize;
        proof {
            assert(w * h == self@.genome.len());
        }
        let (cmap, ncl) = decode_genome(&self.genome, w, h);
        let ghost cm = cmap@;
        let mut out: Vec<Vec<usize>> = Vec::new();
        let mut row: usize = 0;
        while row < h
            invariant
                w >= 1,
                h >= 1,
                cm == cmap@,
                cmap@.len() == w * h <= MAX_AREA,
                row <= h,
                out@.len() == row,
                forall|m: int| 0 <= m < row ==> #[trigger] out@[m]@.len() == w,
                forall|m: int, c: int|
                    0 <= m < row && 0 <= c < w ==> #[trigger] out@[m]@[c] == cm[m * w + c],
            decreases h - row,
        {
            let mut line: Vec<usize> = Vec::new();
            let mut col: usize = 0;
            proof {
                assert((row as int) * (w as int) + (w as int) <= (w as int) * (h as int))
                    by (nonlinear_arith)
                    requires
                        0 <= (row as int) < h as int,
                        w >= 1,
                ;
            }
            while col < w
                invariant
                    w >= 1,
                    cm == cmap@,
                    cmap@.len() == w * h <= MAX_AREA,
                    row < h,
                    (row as int) * (w as int) + (w as int) <= (w as int) * (h as int),
                    col <= w,
                    line@.len() == col,
                    forall|c: int| 0 <= c < col ==> #[trigger] line@[c] == cm[row * w + c],
                decreases w - col,
            {
                line.push(cmap[row * w + col]);
                col += 1;
            }
            out.push(line);
            row += 1;
        }
        proof {
            assert(forall|m: int, c: int|
                0 <= m < height && 0 <= c < width ==> #[trigger] out@[m]@[c] == cm[m * width + c]);
        }
        out
    }

    /// Recompute the three objectives and the scalarized fitness from the
    /// decoded label map, clearing the dirty flag.
    ///
    /// Edge value sums fixed-point color distances over region-crossing
    /// neighbor pairs; connectivity sums the reciprocal neighbor weights in
    /// units of 1/840; overall deviation sums each pixel's fixed-point
    /// distance to its region's mean color.  The fitness combines them with
    /// the configured multipliers.
    pub fn update_objectives(&mut self, config: &Config, global_data: &GlobalData)
        requires
            global_data.wf(),
            old(self)@.genome.len() == global_data.area(),
        ensures
            final(self)@.genome == old(self)@.genome,
            final(self)@.evaluated,
            exists|cm: Seq<usize>, ncl: usize|
                {
                    &&& decoded_ok(
                        old(self)@.genome,
                        global_data.width as int,
                        global_data.height as int,
                        cm,
                        ncl,
                    )
                    &&& final(self)@.edge == edge_sum(
                        global_data.distance_map@,
                        cm,
                        global_data.width as int,
                        global_data.height as int,
                        global_data.area(),
                    )
                    &&& final(self)@.conn == conn_sum(
                        cm,
                        global_data.width as int,
                        global_data.height as int,
                        global_data.area(),
                    )
                    &&& final(self)@.dev == dev_sum(cm, global_data.pixels@, global_data.area())
                },
            final(self)@.fitness == final(self)@.edge as i128
                * config.edge_value_multiplier as i128 - final(self)@.conn as i128
                * config.connectivity_multiplier as i128 - final(self)@.dev as i128
                * config.overall_deviation_multiplier as i128,
            scored_for(final(self)@, global_data, config),
    {
        let width = global_data.width;
        let height = global_data.height;
        let (cmap, ncl) = decode_genome(&self.genome, width, height);
        let (edge, conn) = compute_edge_conn(&cmap, global_data);
        let (sizes, sum_r, sum_g, sum_b) = compute_cluster_stats(&cmap, ncl, global_data);
        let dev = compute_deviation(&cmap, ncl, &sizes, &sum_r, &sum_g, &sum_b, global_data);
        proof {
            assert(edge as int * (config.edge_value_multiplier as int)
                <= 3533376 * 4000000 * 18446744073709551615) by (nonlinear_arith)
                requires
                    0 <= edge as int <= 3533376 * 4000000,
                    0 <= config.edge_value_multiplier as int <= 18446744073709551615,
            ;
            assert(conn as int * (config.connectivity_multiplier as int)
                <= 6720 * 4000000 * 18446744073709551615) by (nonlinear_arith)
                requires
                    0 <= conn as int <= 6720 * 4000000,
                    0 <= config.connectivity_multiplier as int <= 18446744073709551615,
            ;
            assert(dev as int * (config.overall_deviation_multiplier as int)
                <= 441673 * 4000000 * 18446744073709551615) by (nonlinear_arith)
                requires
                    0 <= dev as int <= 441673 * 4000000,
                    0 <= config.overall_deviation_multiplier as int <= 18446744073709551615,
            ;
            assert(edge <= 3533376 * 4000000 && conn <= 6720 * 4000000 && dev <= 441673 * 4000000)
                by (nonlinear_arith)
                requires
                    edge as int <= 3533376 * global_data.area(),
                    conn as int <= 6720 * global_data.area(),
                    dev as int <= 441673 * global_data.area(),
                    global_data.area() <= 4000000,
            ;
        }
        let fitness: i128 = edge as i128 * config.edge_value_multiplier as i128
            - conn as i128 * config.connectivity_multiplier as i128
            - dev as i128 * config.overall_deviation_multiplier as i128;
        self.edge_value_fitness = edge;
        self.connectivity_fitness = conn;
        self.overall_deviation_fitness = dev;
        self.fitness = fitness;
        self.needs_update = false;
        proof {
            assert(decoded_ok(
                self.genome@,
                global_data.width as int,
                global_data.height as int,
                cmap@,
                ncl,
            ));
            assert(decoded_ok(
                self@.genome,
                global_data.width as int,
                global_data.height as int,
                cmap@,
                ncl,
            ));
            assert(self@.edge == edge_sum(
                global_data.distance_map@,
                cmap@,
                global_data.width as int,
                global_data.height as int,
                global_data.area(),
            ));
            assert(self@.conn == conn_sum(
                cmap@,
                global_data.width as int,
                global_data.height as int,
                global_data.area(),
            ));
            assert(self@.dev == dev_sum(cmap@, global_data.pixels@, global_data.area()));
            assert(scored_for(self@, global_data, config));
        }
    }

    /// The black-and-white border map of this candidate's segmentation:
    /// rows of 0 (border or frame) and 255 (region interior).
    pub fn get_border_map(&self, global_data: &GlobalData) -> (r: Vec<Vec<u8>>)
        requires
            global_data.wf(),
            self@.genome.len() == global_data.area(),
        ensures
            r@.len() == global_data.height,
            forall|row: int|
                0 <= row < global_data.height ==> #[trigger] r@[row]@.len() == global_data.width,
            exists|cm: Seq<usize>, ncl: usize|
                {
                    &&& decoded_ok(
                        self@.genome,
                        global_data.width as int,
                        global_data.height as int,
                        cm,
                        ncl,
                    )
                    &&& forall|row: int, col: int|
                        0 <= row < global_data.height && 0 <= col < global_data.width
                            ==> #[trigger] r@[row]@[col] == border_value(
                            cm,
                            global_data.width as int,
                            global_data.height as int,
                            row * global_data.width + col,
                        )
                },
    {
        let width = global_data.width;
        let height = global_data.height;
        let ghost w = width as int;
        let ghost h = height as int;
        let (cmap, ncl) = decode_genome(&self.genome, width, height);
        let ghost cm = cmap@;
        let flat = border_map_flat(&cmap, width, height);
        let mut out: Vec<Vec<u8>> = Vec::new();
        let mut row: usize = 0;
        while row < height
            invariant
                width >= 1,
                height >= 1,
                flat@.len() == width * height <= MAX_AREA,
                forall|i: int| 0 <= i < flat@.len() ==> #[trigger] flat@[i] == border_value(cm, w, h, i),
                w == width as int,
                h == height as int,
                row <= height,
                out@.len() == row,
                forall|m: int| 0 <= m < row ==> #[trigger] out@[m]@.len() == width,
                forall|m: int, c: int|
                    0 <= m < row && 0 <= c < width ==> #[trigger] out@[m]@[c] == border_value(
                        cm,
                        w,
                        h,
                        m * width + c,
                    ),
            decreases height - row,
        {
            let mut line: Vec<u8> = Vec::new();
            let mut col: usize = 0;
            proof {
                assert((row as int) * (w as int) + (w as int) <= (w as int) * (h as int))
                    by (nonlinear_arith)
                    requires
                        0 <= (row as int) < h as int,
                        w >= 1,
                ;
            }
            while col < width
                invariant
                    width >= 1,
                    flat@.len() == width * height <= MAX_AREA,
                    forall|i: int|
                        0 <= i < flat@.len() ==> #[trigger] flat@[i] == border_value(cm, w, h, i),
                    w == width as int,
                    h == height as int,
                    row < height,
                    (row as int) * (w as int) + (w as int) <= (w as int) * (h as int),
                    col <= width,
                    line@.len() == col,
                    forall|c: int|
                        0 <= c < col ==> #[trigger] line@[c] == border_value(cm, w, h, row * width + c),
                decreases width - col,
            {
                line.push(flat[row * width + col]);
                col += 1;
            }
            out.push(line);
            row += 1;
        }
        out
    }

    /// Paint every pixel with its region's palette color.
    pub fn get_segments_image(&self, global_data: &GlobalData) -> (r: Vec<Pixel>)
        requires
            global_data.wf(),
            self@.genome.len() == global_data.area(),
        ensures
            r@.len() == global_data.area(),
            exists|cm: Seq<usize>, ncl: usize|
                {
                    &&& decoded_ok(
                        self@.genome,
                        global_data.width as int,
                        global_data.height as int,
                        cm,
                        ncl,
                    )
                    &&& forall|i: int|
                        0 <= i < r@.len() ==> #[trigger] r@[i] == palette(cm[i] as int % 10)
                },
    {
        let width = global_data.width;
        let height = global_data.height;
        let (cmap, ncl) = decode_genome(&self.genome, width, height);
        let ghost cm = cmap@;
        let area: usize = width * height;
        let mut out: Vec<Pixel> = Vec::new();
        let mut i: usize = 0;
        while i < area
            invariant
                cm == cmap@,
                cmap@.len() == area,
                i <= area,
                out@.len() == i,
                forall|m: int| 0 <= m < i ==> #[trigger] out@[m] == palette(cm[m] as int % 10),
            decreases area - i,
        {
            out.push(palette_color(cmap[i] % 10));
            i += 1;
        }
        out
    }

    /// The border map as a black-and-white image: each border-map value
    /// repeated over all three channels.
    pub fn get_segment_border_image(&self, global_data: &GlobalData) -> (r: Vec<Pixel>)
        requires
            global_data.wf(),
            self@.genome.len() == global_data.area(),
        ensures
            r@.len() == global_data.area(),
            exists|cm: Seq<usize>, ncl: usize|
                {
                    &&& decoded_ok(
                        self@.genome,
                        global_data.width as int,
                        global_data.height as int,
                        cm,
                        ncl,
                    )
                    &&& forall|i: int|
                        0 <= i < r@.len() ==> {
                            let v = border_value(
                                cm,
                                global_data.width as int,
                                global_data.height as int,
                                i,
                            );
                            #[trigger] r@[i] == (Pixel { red: v, green: v, blue: v })
                        }
                },
    {
        let width = global_data.width;
        let height = global_data.height;
        let ghost w = width as int;
        let ghost h = height as int;
        let (cmap, ncl) = decode_genome(&self.genome, width, height);
        let ghost cm = cmap@;
        let flat = border_map_flat(&cmap, width, height);
        let area: usize = width * height;
        let mut out: Vec<Pixel> = Vec::new();
        let mut i: usize = 0;
        while i < area
            invariant
                flat@.len() == area,
                forall|m: int| 0 <= m < flat@.len() ==> #[trigger] flat@[m] == border_value(cm, w, h, m),
                w == width as int,
                h == height as int,
                i <= area,
                out@.len() == i,
                forall|m: int|
                    0 <= m < i ==> {
                        let v = border_value(cm, w, h, m);
                        #[trigger] out@[m] == (Pixel { red: v, green: v, blue: v })
                    },
            decreases area - i,
        {
            let v = flat[i];
            out.push(Pixel { red: v, green: v, blue: v });
            i += 1;
        }
        out
    }

    /// The source image with every border pixel of this segmentation
    /// painted green.
    pub fn get_segment_border_image_inline(&self, global_data: &GlobalData) -> (r: Vec<Pixel>)
        requires
            global_data.wf(),
            self@.genome.len() == global_data.area(),
        ensures
            r@.len() == global_data.area(),
            exists|cm: Seq<usize>, ncl: usize|
                {
                    &&& decoded_ok(
                        self@.genome,
                        global_data.width as int,
                        global_data.height as int,
                        cm,
                        ncl,
                    )
                    &&& forall|i: int|
                        0 <= i < r@.len() ==> #[trigger] r@[i] == if border_value(
                            cm,
                            global_data.width as int,
                            global_data.height as int,
                            i,
                        ) == 0 {
                            Pixel { red: 0, green: 255, blue: 0 }
                        } else {
                            global_data.pixels@[i]
                        }
                },
    {
        let width = global_data.width;
        let height = global_data.height;
        let ghost w = width as int;
        let ghost h = height as int;
        let (cmap, ncl) = decode_genome(&self.genome, width, height);
        let ghost cm = cmap@;
        let flat = border_map_flat(&cmap, width, height);
        let area: usize = width * height;
        let mut out: Vec<Pixel> = Vec::new();
        let mut i: usize = 0;
        while i < area
            invariant
                global_data.wf(),
                area == global_data.area(),
                flat@.len() == area,
                forall|m: int| 0 <= m < flat@.len() ==> #[trigger] flat@[m] == border_value(cm, w, h, m),
                w == width as int,
                h == height as int,
                width == global_data.width,
                height == global_data.height,
                i <= area,
                out@.len() == i,
                forall|m: int|
                    0 <= m < i ==> #[trigger] out@[m] == if border_value(cm, w, h, m) == 0 {
                        Pixel { red: 0, green: 255, blue: 0 }
                    } else {
                        global_data.pixels@[m]
                    },
            decreases area - i,
        {
            if flat[i] == 0 {
                out.push(Pixel { red: 0, green: 255, blue: 0 });
            } else {
                out.push(global_data.pixels[i]);
            }
            i += 1;
        }
        out
    }

    /// Whether this candidate Pareto-dominates the other: not worse on any
    /// objective and strictly better on at least one.  Both candidates must
    /// be evaluated.
    pub fn dominates(&self, other: &Individual) -> (r: bool)
        requires
            self@.evaluated,
            other@.evaluated,
        ensures
            r == self@.dominates(other@),
    {
        let better = self.edge_value_fitness > other.edge_value_fitness
            || self.connectivity_fitness < other.connectivity_fitness
            || self.overall_deviation_fitness < other.overall_deviation_fitness;
        let worse = self.edge_value_fitness < other.edge_value_fitness
            || self.connectivity_fitness > other.connectivity_fitness
            || self.overall_deviation_fitness > other.overall_deviation_fitness;
        better && !worse
    }
}

} // verus!
