//! Mutation operators: gene flips, segment-guided redirections, a
//! region-growing flood fill and the destruction of undersized segments.
//!
//! Every operator rewrites single genes of one candidate and marks it
//! dirty; genome length is always preserved.

use vstd::prelude::*;
use crate::config::{Config, config_valid, mutation_valid};
use crate::decoder::{decode_genome, vec_contains, lemma_distinct_bounded_len};
use crate::fifo::{fifo_new, fifo_add, fifo_remove, fifo_size, fifo_contents};
use crate::genome::{Connection, MAX_AREA, direction_target, iter_step, neighbor_index,
    points_inside, reaches, step_of};
use crate::global_data::{GlobalData, dmap_at, get_edge_weighted_random_pixel_index};
use crate::distance::Pixel;
use crate::individual::{CandView, Individual, clone_genome};
use crate::population::Population;
use crate::rng::{rand_index, rand_u64_below};

verus! {

/// Overwrite the gene at `index` with the given direction.
pub fn flip_one_bit_at(child: &mut Individual, index: usize, new_connection: Connection)
    requires
        index < old(child)@.genome.len(),
    ensures
        final(child)@ == (CandView {
            genome: old(child)@.genome.update(index as int, new_connection),
            evaluated: false,
            ..old(child)@
        }),
{
    let mut genome = clone_genome(child.genome_ref());
    genome.set(index, new_connection);
    child.set_genome(genome);
}

/// Overwrite one randomly chosen gene (edge-bias weighted pixel choice)
/// with a uniformly random direction symbol: exactly one gene position is
/// written, and no other changes (the redraw may write the old symbol
/// back).
pub fn flip_one_bit(child: &mut Individual, global_data: &GlobalData)
    requires
        global_data.wf(),
        old(child)@.genome.len() == global_data.area(),
    ensures
        final(child)@.genome.len() == old(child)@.genome.len(),
        !final(child)@.evaluated,
        exists|i: int, c: Connection|
            0 <= i < old(child)@.genome.len() && final(child)@.genome == old(
                child,
            )@.genome.update(i, c),
{
    let index = get_edge_weighted_random_pixel_index(global_data);
    let new_connection = match rand_index(5) {
        0 => Connection::Nowhere,
        1 => Connection::Up,
        2 => Connection::Down,
        3 => Connection::Left,
        _ => Connection::Right,
    };
    flip_one_bit_at(child, index, new_connection);
    proof {
        assert(final(child)@.genome == old(child)@.genome.update(
            index as int,
            new_connection,
        ));
    }
}

/// The size of the region that pixel `j` belongs to under label map `cm`.
pub open spec fn region_size_of(cm: Seq<usize>, j: int) -> int {
    crate::individual::cluster_count(cm, cm[j] as int, cm.len() as int)
}

/// The direction from `index` to the orthogonal neighbor lying in the
/// biggest (or, inverted, the smallest) segment of the decoded candidate.
/// The result never points outside the image; whenever any orthogonal
/// neighbor exists, it points at one whose region size is extremal, and
/// ties go to the first direction in scan order `Up, Left, Right, Down`.
fn get_biggest_segment_direction(
    index: usize,
    child: &mut Individual,
    global_data: &GlobalData,
    inverse: bool,
) -> (r: Connection)
    requires
        global_data.wf(),
        old(child)@.genome.len() == global_data.area(),
        index < global_data.area(),
    ensures
        final(child)@ == old(child)@,
        points_inside(global_data.width as int, global_data.height as int, index as int, r),
        exists|cm: Seq<usize>, ncl: usize|
            {
                &&& #[trigger] crate::decoder::decoded_ok(
                    old(child)@.genome,
                    global_data.width as int,
                    global_data.height as int,
                    cm,
                    ncl,
                )
                &&& match direction_target(
                    global_data.width as int,
                    global_data.height as int,
                    index as int,
                    r,
                ) {
                    Option::Some(nb) => forall|d2: Connection|
                        match #[trigger] direction_target(
                            global_data.width as int,
                            global_data.height as int,
                            index as int,
                            d2,
                        ) {
                            Option::Some(nb2) => (if inverse {
                                region_size_of(cm, nb) <= region_size_of(cm, nb2)
                            } else {
                                region_size_of(cm, nb) >= region_size_of(cm, nb2)
                            }) && (scan_pos(d2) >= scan_pos(r) || (if inverse {
                                region_size_of(cm, nb) < region_size_of(cm, nb2)
                            } else {
                                region_size_of(cm, nb) > region_size_of(cm, nb2)
                            })),
                            Option::None => true,
                        },
                    Option::None => forall|d2: Connection|
                        #[trigger] direction_target(
                            global_data.width as int,
                            global_data.height as int,
                            index as int,
                            d2,
                        ) is None,
                }
            },
{
    let width = global_data.width;
    let height = global_data.height;
    let ghost w = width as int;
    let ghost h = height as int;
    let (cmap, ncl) = decode_genome(child.genome_ref(), width, height);
    let ghost cm = cmap@;
    let area: usize = cmap.len();
    proof {
        assert(ncl <= area <= MAX_AREA);
    }
    // pixel count of every segment
    let mut sizes: Vec<u64> = Vec::new();
    let mut id: usize = 0;
    while id < ncl + 1
        invariant
            ncl <= MAX_AREA,
            id <= ncl + 1,
            sizes@.len() == id,
            forall|m: int| 0 <= m < id ==> #[trigger] sizes@[m] == 0,
        decreases ncl + 1 - id,
    {
        sizes.push(0);
        id += 1;
    }
    let mut k: usize = 0;
    while k < area
        invariant
            cm == cmap@,
            cmap@.len() == area,
            ncl <= area <= MAX_AREA,
            forall|i: int| 0 <= i < cmap@.len() ==> 1 <= #[trigger] cmap@[i] <= ncl,
            k <= area,
            sizes@.len() == ncl + 1,
            forall|m: int| 0 <= m < sizes@.len() ==> #[trigger] sizes@[m] <= k,
            forall|m: int|
                0 <= m <= ncl ==> #[trigger] sizes@[m] as int == crate::individual::cluster_count(
                    cm,
                    m,
                    k as int,
                ),
        decreases area - k,
    {
        let label = cmap[k];
        let s0 = sizes[label];
        sizes.set(label, s0 + 1);
        k += 1;
    }
    let mut highest: u64 = 0;
    let mut highest_direction = Connection::Nowhere;
    let mut lowest: u64 = 0xffffffff;
    let mut lowest_direction = Connection::Nowhere;
    let mut d: usize = 0;
    while d < 4
        invariant
            global_data.wf(),
            cm == cmap@,
            w == width as int,
            h == height as int,
            width == global_data.width,
            height == global_data.height,
            index < area == global_data.area(),
            cmap@.len() == area,
            ncl <= area,
            forall|i: int| 0 <= i < cmap@.len() ==> 1 <= #[trigger] cmap@[i] <= ncl,
            sizes@.len() == ncl + 1,
            forall|m: int|
                0 <= m <= ncl ==> #[trigger] sizes@[m] as int == crate::individual::cluster_count(
                    cm,
                    m,
                    area as int,
                ),
            forall|m: int| 0 <= m <= ncl ==> #[trigger] sizes@[m] <= area,
            d <= 4,
            points_inside(w, h, index as int, highest_direction),
            points_inside(w, h, index as int, lowest_direction),
            highest_direction is Nowhere ==> highest == 0,
            lowest_direction is Nowhere ==> lowest == 0xffffffff,
            match direction_target(w, h, index as int, highest_direction) {
                Option::Some(nb) => 0 <= nb < area && highest as int == region_size_of(cm, nb),
                Option::None => highest_direction is Nowhere,
            },
            match direction_target(w, h, index as int, lowest_direction) {
                Option::Some(nb) => 0 <= nb < area && lowest as int == region_size_of(cm, nb),
                Option::None => lowest_direction is Nowhere,
            },
            d > 0 ==> match direction_target(w, h, index as int, Connection::Up) {
                Option::Some(nb) => 0 <= nb < area && region_size_of(cm, nb) <= highest as int
                    && lowest as int <= region_size_of(cm, nb) && !(highest_direction is Nowhere)
                    && (highest_direction == Connection::Up || region_size_of(cm, nb) < (
                    highest as int) || scan_pos(Connection::Up) > scan_pos(highest_direction))
                    && (lowest_direction == Connection::Up || (lowest as int) < region_size_of(
                    cm,
                    nb,
                ) || scan_pos(Connection::Up) > scan_pos(lowest_direction)),
                Option::None => true,
            },
            d > 1 ==> match direction_target(w, h, index as int, Connection::Left) {
                Option::Some(nb) => 0 <= nb < area && region_size_of(cm, nb) <= highest as int
                    && lowest as int <= region_size_of(cm, nb) && !(highest_direction is Nowhere)
                    && (highest_direction == Connection::Left || region_size_of(cm, nb) < (
                    highest as int) || scan_pos(Connection::Left) > scan_pos(highest_direction))
                    && (lowest_direction == Connection::Left || (lowest as int) < region_size_of(
                    cm,
                    nb,
                ) || scan_pos(Connection::Left) > scan_pos(lowest_direction)),
                Option::None => true,
            },
            d > 2 ==> match direction_target(w, h, index as int, Connection::Right) {
                Option::Some(nb) => 0 <= nb < area && region_size_of(cm, nb) <= highest as int
                    && lowest as int <= region_size_of(cm, nb) && !(highest_direction is Nowhere)
                    && (highest_direction == Connection::Right || region_size_of(cm, nb) < (
                    highest as int) || scan_pos(Connection::Right) > scan_pos(highest_direction))
                    && (lowest_direction == Connection::Right || (lowest as int) < region_size_of(
                    cm,
                    nb,
                ) || scan_pos(Connection::Right) > scan_pos(lowest_direction)),
                Option::None => true,
            },
            d > 3 ==> match direction_target(w, h, index as int, Connection::Down) {
                Option::Some(nb) => 0 <= nb < area && region_size_of(cm, nb) <= highest as int
                    && lowest as int <= region_size_of(cm, nb) && !(highest_direction is Nowhere)
                    && (highest_direction == Connection::Down || region_size_of(cm, nb) < (
                    highest as int) || scan_pos(Connection::Down) > scan_pos(highest_direction))
                    && (lowest_direction == Connection::Down || (lowest as int) < region_size_of(
                    cm,
                    nb,
                ) || scan_pos(Connection::Down) > scan_pos(lowest_direction)),
                Option::None => true,
            },
            (highest_direction is Nowhere) <==> (lowest_direction is Nowhere),
            !(highest_direction is Nowhere) ==> scan_pos(highest_direction) < d,
            !(lowest_direction is Nowhere) ==> scan_pos(lowest_direction) < d,
        decreases 4 - d,
    {
        let (dx, dy, dir): (i32, i32, Connection) = match d {
            0 => (0, -1, Connection::Up),
            1 => (-1, 0, Connection::Left),
            2 => (1, 0, Connection::Right),
            _ => (0, 1, Connection::Down),
        };
        match neighbor_index(width, height, index, dx, dy) {
            Option::Some(nb) => {
                proof {
                    lemma_unit_offset_points_inside(w, h, index as int, dx as int, dy as int);
                    crate::individual::lemma_region_size_positive(cm, nb as int);
                }
                let segment_id = cmap[nb];
                let count = sizes[segment_id];
                if count > highest {
                    highest = count;
                    highest_direction = dir;
                }
                if count < lowest {
                    lowest = count;
                    lowest_direction = dir;
                }
            },
            Option::None => {},
        }
        d += 1;
    }
    proof {
        assert(crate::decoder::decoded_ok(old(child)@.genome, w, h, cm, ncl));
        assert forall|d2: Connection| match #[trigger] direction_target(w, h, index as int, d2) {
            Option::Some(_) => !(highest_direction is Nowhere),
            Option::None => true,
        } by {
            match d2 {
                Connection::Nowhere => {},
                Connection::Up => {},
                Connection::Down => {},
                Connection::Left => {},
                Connection::Right => {},
            }
        }
    }
    if inverse {
        lowest_direction
    } else {
        highest_direction
    }
}

/// The scan position of a direction in the orthogonal-neighbor order
/// `Up, Left, Right, Down`.
pub open spec fn scan_pos(c: Connection) -> int {
    match c {
        Connection::Up => 0,
        Connection::Left => 1,
        Connection::Right => 2,
        Connection::Down => 3,
        Connection::Nowhere => 4,
    }
}

/// A unit offset with an in-bounds neighbor gives an in-bounds direction.
proof fn lemma_unit_offset_points_inside(w: int, h: int, i: int, dx: int, dy: int)
    requires
        w >= 1,
        h >= 1,
        0 <= i < w * h,
        (dx == 0 && (dy == -1 || dy == 1)) || (dy == 0 && (dx == -1 || dx == 1)),
        crate::genome::neighbor_of(w, h, i, dx, dy) is Some,
    ensures
        dy == -1 ==> points_inside(w, h, i, Connection::Up),
        dy == 1 ==> points_inside(w, h, i, Connection::Down),
        dx == -1 ==> points_inside(w, h, i, Connection::Left),
        dx == 1 ==> points_inside(w, h, i, Connection::Right),
{
}

/// Redirect one weighted-random pixel toward its neighbor in the biggest
/// segment: the chosen direction points at an orthogonal neighbor whose
/// region is at least as large as any other orthogonal neighbor's.
pub fn flip_to_biggest_segment(child: &mut Individual, global_data: &GlobalData)
    requires
        global_data.wf(),
        old(child)@.genome.len() == global_data.area(),
    ensures
        final(child)@.genome.len() == old(child)@.genome.len(),
        !final(child)@.evaluated,
        exists|i: int, c: Connection, cm: Seq<usize>, ncl: usize|
            #![trigger old(child)@.genome.update(i, c), crate::decoder::decoded_ok(
                old(child)@.genome,
                global_data.width as int,
                global_data.height as int,
                cm,
                ncl,
            )]
            {
                &&& 0 <= i < old(child)@.genome.len()
                &&& final(child)@.genome == old(child)@.genome.update(i, c)
                &&& points_inside(global_data.width as int, global_data.height as int, i, c)
                &&& crate::decoder::decoded_ok(
                    old(child)@.genome,
                    global_data.width as int,
                    global_data.height as int,
                    cm,
                    ncl,
                )
                &&& match direction_target(
                    global_data.width as int,
                    global_data.height as int,
                    i,
                    c,
                ) {
                    Option::Some(nb) => forall|d2: Connection|
                        match #[trigger] direction_target(
                            global_data.width as int,
                            global_data.height as int,
                            i,
                            d2,
                        ) {
                            Option::Some(nb2) => region_size_of(cm, nb) >= region_size_of(cm, nb2),
                            Option::None => true,
                        },
                    Option::None => forall|d2: Connection|
                        #[trigger] direction_target(
                            global_data.width as int,
                            global_data.height as int,
                            i,
                            d2,
                        ) is None,
                }
            },
{
    let index = get_edge_weighted_random_pixel_index(global_data);
    let highest_direction = get_biggest_segment_direction(index, child, global_data, false);
    flip_one_bit_at(child, index, highest_direction);
}

/// Redirect one weighted-random pixel toward its neighbor in the smallest
/// segment: the chosen direction points at an orthogonal neighbor whose
/// region is at most as large as any other orthogonal neighbor's.
pub fn flip_to_smallest_segment(child: &mut Individual, global_data: &GlobalData)
    requires
        global_data.wf(),
        old(child)@.genome.len() == global_data.area(),
    ensures
        final(child)@.genome.len() == old(child)@.genome.len(),
        !final(child)@.evaluated,
        exists|i: int, c: Connection, cm: Seq<usize>, ncl: usize|
            #![trigger old(child)@.genome.update(i, c), crate::decoder::decoded_ok(
                old(child)@.genome,
                global_data.width as int,
                global_data.height as int,
                cm,
                ncl,
            )]
            {
                &&& 0 <= i < old(child)@.genome.len()
                &&& final(child)@.genome == old(child)@.genome.update(i, c)
                &&& points_inside(global_data.width as int, global_data.height as int, i, c)
                &&& crate::decoder::decoded_ok(
                    old(child)@.genome,
                    global_data.width as int,
                    global_data.height as int,
                    cm,
                    ncl,
                )
                &&& match direction_target(
                    global_data.width as int,
                    global_data.height as int,
                    i,
                    c,
                ) {
                    Option::Some(nb) => forall|d2: Connection|
                        match #[trigger] direction_target(
                            global_data.width as int,
                            global_data.height as int,
                            i,
                            d2,
                        ) {
                            Option::Some(nb2) => region_size_of(cm, nb) <= region_size_of(cm, nb2),
                            Option::None => true,
                        },
                    Option::None => forall|d2: Connection|
                        #[trigger] direction_target(
                            global_data.width as int,
                            global_data.height as int,
                            i,
                            d2,
                        ) is None,
                }
            },
{
    let index = get_edge_weighted_random_pixel_index(global_data);
    let lowest_direction = get_biggest_segment_direction(index, child, global_data, true);
    flip_one_bit_at(child, index, lowest_direction);
}

/// The summed table distance from pixel `i` along direction offset
/// `(dx, dy)` over steps `1..=s`, skipping steps that leave the image.
pub open spec fn radius_dist_sum(
    dmap: Seq<u64>,
    w: int,
    h: int,
    i: int,
    dx: int,
    dy: int,
    s: int,
) -> int
    decreases s,
{
    if s <= 0 {
        0
    } else {
        radius_dist_sum(dmap, w, h, i, dx, dy, s - 1) + match crate::genome::neighbor_of(
            w,
            h,
            i,
            dx * s,
            dy * s,
        ) {
            Option::Some(_) => dmap_at(dmap, i, dy * s, dx * s),
            Option::None => 0,
        }
    }
}

/// The averaged table distance from pixel `i` in the given direction over
/// a search radius, rounded down.
pub open spec fn dir_avg_of(
    dmap: Seq<u64>,
    w: int,
    h: int,
    i: int,
    c: Connection,
    rad: int,
) -> int {
    match c {
        Connection::Up => radius_dist_sum(dmap, w, h, i, 0, -1, rad) / rad,
        Connection::Down => radius_dist_sum(dmap, w, h, i, 0, 1, rad) / rad,
        Connection::Left => radius_dist_sum(dmap, w, h, i, -1, 0, rad) / rad,
        Connection::Right => radius_dist_sum(dmap, w, h, i, 1, 0, rad) / rad,
        Connection::Nowhere => 0,
    }
}

/// Redirect one weighted-random pixel toward the direction with the
/// smallest color distance, averaged over the given search radius
/// (capped at the distance table's window radius of 3): the written
/// direction's average is no larger than any other direction's.
pub fn flip_to_smallest_deviation(child: &mut Individual, global_data: &GlobalData, radius: usize)
    requires
        global_data.wf(),
        old(child)@.genome.len() == global_data.area(),
        radius >= 1,
    ensures
        final(child)@.genome.len() == old(child)@.genome.len(),
        !final(child)@.evaluated,
        exists|i: int, c: Connection|
            #![trigger old(child)@.genome.update(i, c)]
            {
                let rad = if radius > 3 {
                    3int
                } else {
                    radius as int
                };
                let w = global_data.width as int;
                let h = global_data.height as int;
                &&& 0 <= i < old(child)@.genome.len()
                &&& final(child)@.genome == old(child)@.genome.update(i, c)
                &&& !(c is Nowhere)
                &&& dir_avg_of(global_data.distance_map@, w, h, i, c, rad) <= dir_avg_of(
                    global_data.distance_map@,
                    w,
                    h,
                    i,
                    Connection::Up,
                    rad,
                )
                &&& dir_avg_of(global_data.distance_map@, w, h, i, c, rad) <= dir_avg_of(
                    global_data.distance_map@,
                    w,
                    h,
                    i,
                    Connection::Left,
                    rad,
                )
                &&& dir_avg_of(global_data.distance_map@, w, h, i, c, rad) <= dir_avg_of(
                    global_data.distance_map@,
                    w,
                    h,
                    i,
                    Connection::Right,
                    rad,
                )
                &&& dir_avg_of(global_data.distance_map@, w, h, i, c, rad) <= dir_avg_of(
                    global_data.distance_map@,
                    w,
                    h,
                    i,
                    Connection::Down,
                    rad,
                )
            },
{
    let width = global_data.width;
    let height = global_data.height;
    let ghost w = width as int;
    let ghost h = height as int;
    let ghost dmap = global_data.distance_map@;
    let index = get_edge_weighted_random_pixel_index(global_data);
    let rad: usize = if radius > 3 {
        3
    } else {
        radius
    };
    let mut smallest_deviation: u64 = 0xffffffffffffffff;
    let mut smallest_direction = Connection::Nowhere;
    let mut d: usize = 0;
    while d < 4
        invariant
            global_data.wf(),
            dmap == global_data.distance_map@,
            w == width as int,
            h == height as int,
            width == global_data.width,
            height == global_data.height,
            index < global_data.area(),
            1 <= rad <= 3,
            d <= 4,
            d == 0 ==> smallest_direction is Nowhere,
            smallest_direction is Nowhere ==> smallest_deviation == 0xffffffffffffffff,
            d > 0 ==> !(smallest_direction is Nowhere),
            !(smallest_direction is Nowhere) ==> smallest_deviation as int == dir_avg_of(
                dmap,
                w,
                h,
                index as int,
                smallest_direction,
                rad as int,
            ),
            d > 0 ==> smallest_deviation as int <= dir_avg_of(
                dmap,
                w,
                h,
                index as int,
                Connection::Up,
                rad as int,
            ),
            d > 1 ==> smallest_deviation as int <= dir_avg_of(
                dmap,
                w,
                h,
                index as int,
                Connection::Left,
                rad as int,
            ),
            d > 2 ==> smallest_deviation as int <= dir_avg_of(
                dmap,
                w,
                h,
                index as int,
                Connection::Right,
                rad as int,
            ),
            d > 3 ==> smallest_deviation as int <= dir_avg_of(
                dmap,
                w,
                h,
                index as int,
                Connection::Down,
                rad as int,
            ),
        decreases 4 - d,
    {
        let (dx, dy, dir): (i32, i32, Connection) = match d {
            0 => (0, -1, Connection::Up),
            1 => (-1, 0, Connection::Left),
            2 => (1, 0, Connection::Right),
            _ => (0, 1, Connection::Down),
        };
        let mut direction_deviation: u64 = 0;
        let mut step: usize = 1;
        while step <= rad
            invariant
                global_data.wf(),
                dmap == global_data.distance_map@,
                w == width as int,
                h == height as int,
                width == global_data.width,
                height == global_data.height,
                index < global_data.area(),
                1 <= rad <= 3,
                -1 <= dx as int <= 1,
                -1 <= dy as int <= 1,
                1 <= step <= rad + 1,
                direction_deviation as int == radius_dist_sum(
                    dmap,
                    w,
                    h,
                    index as int,
                    dx as int,
                    dy as int,
                    step - 1,
                ),
                direction_deviation <= (step - 1) * crate::distance::MAX_DIST_FP,
            decreases rad + 1 - step,
        {
            proof {
                assert(-3 <= (dx as int) * (step as int) <= 3 && -3 <= (dy as int) * (
                step as int) <= 3) by (nonlinear_arith)
                    requires
                        -1 <= dx as int <= 1,
                        -1 <= dy as int <= 1,
                        1 <= step as int <= 3,
                ;
            }
            let ox: i32 = dx * (step as i32);
            let oy: i32 = dy * (step as i32);
            match neighbor_index(width, height, index, ox, oy) {
                Option::Some(_) => {
                    proof {
                        assert((index as int) * 49 + (oy as int + 3) * 7 + (ox as int + 3)
                            < global_data.area() * 49) by (nonlinear_arith)
                            requires
                                0 <= (index as int) < global_data.area(),
                                -3 <= ox as int <= 3,
                                -3 <= oy as int <= 3,
                        ;
                    }
                    let ix: usize = index * 49 + ((oy + 3) as usize) * 7 + ((ox + 3) as usize);
                    direction_deviation = direction_deviation + global_data.distance_map[ix];
                    proof {
                        assert(dmap_at(dmap, index as int, oy as int, ox as int)
                            == global_data.distance_map@[ix as int]);
                    }
                },
                Option::None => {},
            }
            step += 1;
        }
        let avg = direction_deviation / (rad as u64);
        proof {
            assert(avg as int == dir_avg_of(dmap, w, h, index as int, dir, rad as int));
            assert(avg < 0xffffffffffffffff) by {
                assert(direction_deviation <= 3 * crate::distance::MAX_DIST_FP);
                assert(avg <= direction_deviation) by {
                    vstd::arithmetic::div_mod::lemma_div_is_ordered_by_denominator(
                        direction_deviation as int,
                        1,
                        rad as int,
                    );
                }
            }
        }
        if avg < smallest_deviation {
            smallest_deviation = avg;
            smallest_direction = dir;
        }
        d += 1;
    }
    flip_one_bit_at(child, index, smallest_direction);
}

/// The color statistics of a region: per-channel sums over `count`
/// members, so the mean of a channel is its sum divided by `count`.
struct RegionStats {
    sum_red: u64,
    sum_green: u64,
    sum_blue: u64,
    count: u64,
}

/// Whether a pixel's color lies within the clamped variance band around
/// the region mean, all carried as exact fractions over the region size.
/// The band for each channel is `clamp(variance, 1, ceiling)`.
fn is_pixel_within_variance(
    pixel: &crate::distance::Pixel,
    stats: &RegionStats,
    var_num_red: u64,
    var_num_green: u64,
    var_num_blue: u64,
    ceiling: u64,
) -> (r: bool)
    requires
        1 <= stats.count <= MAX_AREA,
        stats.sum_red <= 255 * stats.count,
        stats.sum_green <= 255 * stats.count,
        stats.sum_blue <= 255 * stats.count,
        var_num_red <= 65025 * stats.count * stats.count,
        var_num_green <= 65025 * stats.count * stats.count,
        var_num_blue <= 65025 * stats.count * stats.count,
        1 <= ceiling <= 255,
    ensures
        r == within_variance_band(
            *pixel,
            stats.sum_red,
            stats.sum_green,
            stats.sum_blue,
            stats.count,
            var_num_red,
            var_num_green,
            var_num_blue,
            ceiling,
        ),
{
    let n: u64 = stats.count;
    proof {
        assert(n * n <= 16000000000000 && 255 * n <= 1020000000 && (1020000000int) * (n as int)
            <= 4080000000000000 && 65025 * (n as int) * (n as int) <= 1040400000000000000 && (
        255int) * ((16000000000000) as int) <= 4080000000000000) by (nonlinear_arith)
            requires
                1 <= n <= 4000000,
        ;
    }
    let nn: u64 = n * n;
    let band_red: u64 = clamp_band(var_num_red, nn, ceiling);
    let band_green: u64 = clamp_band(var_num_green, nn, ceiling);
    let band_blue: u64 = clamp_band(var_num_blue, nn, ceiling);
    proof {
        assert((n as int) * (pixel.red as int) <= 255 * (n as int) && (n as int) * (
        pixel.green as int) <= 255 * (n as int) && (n as int) * (pixel.blue as int) <= 255 * (
        n as int)) by (nonlinear_arith)
            requires
                pixel.red <= 255,
                pixel.green <= 255,
                pixel.blue <= 255,
                n >= 0,
        ;
    }
    let dr: u64 = abs_diff_u64(n * (pixel.red as u64), stats.sum_red);
    let dg: u64 = abs_diff_u64(n * (pixel.green as u64), stats.sum_green);
    let db: u64 = abs_diff_u64(n * (pixel.blue as u64), stats.sum_blue);
    proof {
        assert(dr <= 1020000000 && dg <= 1020000000 && db <= 1020000000);
        assert((dr as int) * (n as int) <= 4080000000000000 && (dg as int) * (n as int)
            <= 4080000000000000 && (db as int) * (n as int) <= 4080000000000000)
            by (nonlinear_arith)
            requires
                0 <= dr <= 1020000000,
                0 <= dg <= 1020000000,
                0 <= db <= 1020000000,
                1 <= n <= 4000000,
        ;
    }
    dr * n <= band_red && dg * n <= band_green && db * n <= band_blue
}

/// The variance band scaled by the squared region size, clamped between
/// one (scaled: `nn`) and the ceiling (scaled: `hi`).
pub open spec fn clamp_band_spec(var_num: int, nn: int, hi: int) -> int {
    if var_num < nn {
        if nn < hi {
            nn
        } else {
            hi
        }
    } else if var_num > hi {
        hi
    } else {
        var_num
    }
}

/// A pixel's color lies within the clamped variance band around the
/// region mean, every quantity carried exactly as a fraction over the
/// region size `count`.
pub open spec fn within_variance_band(
    px: Pixel,
    sum_red: u64,
    sum_green: u64,
    sum_blue: u64,
    count: u64,
    vr: u64,
    vg: u64,
    vb: u64,
    ceiling: u64,
) -> bool {
    let n = count as int;
    let nn = n * n;
    let hi = (ceiling as int) * nn;
    let dr = if n * px.red >= sum_red {
        n * px.red - sum_red
    } else {
        sum_red - n * px.red
    };
    let dg = if n * px.green >= sum_green {
        n * px.green - sum_green
    } else {
        sum_green - n * px.green
    };
    let db = if n * px.blue >= sum_blue {
        n * px.blue - sum_blue
    } else {
        sum_blue - n * px.blue
    };
    &&& dr * n <= clamp_band_spec(vr as int, nn, hi)
    &&& dg * n <= clamp_band_spec(vg as int, nn, hi)
    &&& db * n <= clamp_band_spec(vb as int, nn, hi)
}

/// The variance band scaled by the squared region size, clamped between 1
/// and the ceiling.
fn clamp_band(var_num: u64, nn: u64, ceiling: u64) -> (r: u64)
    requires
        nn <= 16000000000000,
        ceiling <= 255,
    ensures
        r <= 255 * 16000000000000,
        r == clamp_band_spec(var_num as int, nn as int, (ceiling as int) * (nn as int)),
{
    proof {
        assert((ceiling as int) * (nn as int) <= 255 * 16000000000000) by (nonlinear_arith)
            requires
                0 <= ceiling <= 255,
                0 <= nn <= 16000000000000,
        ;
    }
    let hi: u64 = ceiling * nn;
    if var_num < nn {
        if nn < hi {
            nn
        } else {
            hi
        }
    } else if var_num > hi {
        hi
    } else {
        var_num
    }
}

/// The absolute difference of two values.
fn abs_diff_u64(a: u64, b: u64) -> (r: u64)
    ensures
        r == if a >= b {
            a - b
        } else {
            b - a
        },
{
    if a >= b {
        a - b
    } else {
        b - a
    }
}

/// The region-growing mutation's footprint: at most `max_depth` pixels
/// were visited, at most eight genes changed per visited pixel, and every
/// changed gene points at a pixel that the growth visited or rewired.
pub open spec fn grown_within_cap(
    g0: Seq<Connection>,
    g1: Seq<Connection>,
    w: int,
    h: int,
    touched: Seq<usize>,
    modified: Seq<usize>,
    max_depth: int,
) -> bool {
    &&& touched.len() <= max_depth
    &&& modified.len() <= 8 * max_depth
    &&& g1.len() == g0.len()
    &&& forall|i: int|
        0 <= i < g1.len() ==> #[trigger] g1[i] == g0[i] || (modified.contains(i as usize)
            && (match direction_target(w, h, i, g1[i]) {
            Option::Some(t) => touched.contains(t as usize) || modified.contains(t as usize),
            Option::None => false,
        }))
}

/// Breadth-first region growing: redirect every unvisited neighbor whose
/// color lies within the variance band toward the pixel it was reached
/// from, up to `max_depth` visited pixels; afterwards, re-point rejected
/// neighbors at any accepted pixel so no single pixel is stranded.
/// Every changed gene points at a pixel inside the image that the growth
/// visited or rewired; the visit cap bounds the number of changes.
fn connect_similar_pixels(
    start_index: usize,
    child: &mut Individual,
    stats: &RegionStats,
    var_num_red: u64,
    var_num_green: u64,
    var_num_blue: u64,
    ceiling: u64,
    global_data: &GlobalData,
    max_depth: usize,
)
    requires
        global_data.wf(),
        old(child)@.genome.len() == global_data.area(),
        start_index < global_data.area(),
        1 <= stats.count <= MAX_AREA,
        stats.sum_red <= 255 * stats.count,
        stats.sum_green <= 255 * stats.count,
        stats.sum_blue <= 255 * stats.count,
        var_num_red <= 65025 * stats.count * stats.count,
        var_num_green <= 65025 * stats.count * stats.count,
        var_num_blue <= 65025 * stats.count * stats.count,
        1 <= ceiling <= 255,
    ensures
        final(child)@.genome.len() == old(child)@.genome.len(),
        !final(child)@.evaluated,
        forall|i: int|
            0 <= i < final(child)@.genome.len() ==> #[trigger] final(child)@.genome[i] == old(
                child,
            )@.genome[i] || points_inside(
                global_data.width as int,
                global_data.height as int,
                i,
                final(child)@.genome[i],
            ),
        exists|touched: Seq<usize>, modified: Seq<usize>|
            #[trigger] grown_within_cap(
                old(child)@.genome,
                final(child)@.genome,
                global_data.width as int,
                global_data.height as int,
                touched,
                modified,
                max_depth as int,
            ),
        forall|i: int|
            0 <= i < final(child)@.genome.len() ==> #[trigger] final(child)@.genome[i] == old(
                child,
            )@.genome[i] || within_variance_band(
                global_data.pixels@[i],
                stats.sum_red,
                stats.sum_green,
                stats.sum_blue,
                stats.count,
                var_num_red,
                var_num_green,
                var_num_blue,
                ceiling,
            ) || (match direction_target(
                global_data.width as int,
                global_data.height as int,
                i,
                final(child)@.genome[i],
            ) {
                Option::Some(t) => 0 <= t < global_data.area() && within_variance_band(
                    global_data.pixels@[t],
                    stats.sum_red,
                    stats.sum_green,
                    stats.sum_blue,
                    stats.count,
                    var_num_red,
                    var_num_green,
                    var_num_blue,
                    ceiling,
                ),
                Option::None => false,
            }),
{
    let width = global_data.width;
    let height = global_data.height;
    let ghost w = width as int;
    let ghost h = height as int;
    let area: usize = width * height;
    let ghost g0 = old(child)@.genome;
    let mut genome = clone_genome(child.genome_ref());
    let mut seen: Vec<usize> = Vec::new();
    let mut skipped: Vec<usize> = Vec::new();
    let mut changed: Vec<usize> = Vec::new();
    let mut queue = fifo_new();
    fifo_add(&mut queue, start_index);
    while seen.len() < max_depth && fifo_size(&queue) > 0
        invariant
            global_data.wf(),
            w == width as int,
            h == height as int,
            width == global_data.width,
            height == global_data.height,
            area == global_data.area(),
            genome@.len() == area,
            g0.len() == area,
            1 <= stats.count <= MAX_AREA,
            stats.sum_red <= 255 * stats.count,
            stats.sum_green <= 255 * stats.count,
            stats.sum_blue <= 255 * stats.count,
            var_num_red <= 65025 * stats.count * stats.count,
            var_num_green <= 65025 * stats.count * stats.count,
            var_num_blue <= 65025 * stats.count * stats.count,
            1 <= ceiling <= 255,
            seen@.no_duplicates(),
            seen@.len() <= max_depth,
            changed@.len() <= 4 * seen@.len(),
            skipped@.len() <= 4 * seen@.len(),
            forall|m: int| 0 <= m < seen@.len() ==> #[trigger] seen@[m] < area,
            forall|m: int| 0 <= m < fifo_contents(&queue).len() ==> #[trigger] fifo_contents(
                &queue,
            )[m] < area,
            forall|m: int| 0 <= m < changed@.len() ==> #[trigger] changed@[m] < area,
            forall|m: int| 0 <= m < skipped@.len() ==> #[trigger] skipped@[m] < area,
            forall|i: int|
                0 <= i < area ==> #[trigger] genome@[i] == g0[i] || points_inside(
                    w,
                    h,
                    i,
                    genome@[i],
                ),
            forall|m: int|
                0 <= m < changed@.len() ==> within_variance_band(
                    global_data.pixels@[(#[trigger] changed@[m]) as int],
                    stats.sum_red,
                    stats.sum_green,
                    stats.sum_blue,
                    stats.count,
                    var_num_red,
                    var_num_green,
                    var_num_blue,
                    ceiling,
                ),
            forall|i: int|
                0 <= i < area ==> #[trigger] genome@[i] == g0[i] || (changed@.contains(i as usize)
                    && (match direction_target(w, h, i, genome@[i]) {
                    Option::Some(t) => seen@.contains(t as usize),
                    Option::None => false,
                })),
        decreases 5 * (area + 1 - seen@.len()) + fifo_contents(&queue).len(),
    {
        proof {
            lemma_distinct_bounded_len(seen@, area as int);
        }
        let current = fifo_remove(&mut queue);
        if vec_contains(&seen, current) {
            continue;
        }
        let ghost seen_pre = seen@;
        seen.push(current);
        proof {
            assert(seen@[seen@.len() - 1] == current);
            assert forall|i: int|
                0 <= i < area && #[trigger] genome@[i] != g0[i] implies (changed@.contains(
                i as usize,
            ) && (match direction_target(w, h, i, genome@[i]) {
                Option::Some(t) => seen@.contains(t as usize),
                Option::None => false,
            })) by {
                match direction_target(w, h, i, genome@[i]) {
                    Option::Some(t) => {
                        assert(seen_pre.contains(t as usize));
                        let m = choose|m: int|
                            0 <= m < seen_pre.len() && seen_pre[m] == t as usize;
                        assert(seen@[m] == t as usize);
                    },
                    Option::None => {},
                }
            }
        }
        let mut d: usize = 0;
        let ghost q0 = fifo_contents(&queue).len();
        while d < 4
            invariant
                global_data.wf(),
                w == width as int,
                h == height as int,
                width == global_data.width,
                height == global_data.height,
                area == global_data.area(),
                genome@.len() == area,
                g0.len() == area,
                1 <= stats.count <= MAX_AREA,
                stats.sum_red <= 255 * stats.count,
                stats.sum_green <= 255 * stats.count,
                stats.sum_blue <= 255 * stats.count,
                var_num_red <= 65025 * stats.count * stats.count,
                var_num_green <= 65025 * stats.count * stats.count,
                var_num_blue <= 65025 * stats.count * stats.count,
                1 <= ceiling <= 255,
                current < area,
                d <= 4,
                seen@.no_duplicates(),
                seen@.len() >= 1,
                seen@.len() <= max_depth,
                seen@.contains(current),
                changed@.len() <= 4 * (seen@.len() - 1) + d,
                skipped@.len() <= 4 * (seen@.len() - 1) + d,
                forall|m: int| 0 <= m < seen@.len() ==> #[trigger] seen@[m] < area,
                forall|m: int| 0 <= m < fifo_contents(&queue).len() ==> #[trigger] fifo_contents(
                    &queue,
                )[m] < area,
                forall|m: int| 0 <= m < changed@.len() ==> #[trigger] changed@[m] < area,
                forall|m: int| 0 <= m < skipped@.len() ==> #[trigger] skipped@[m] < area,
                fifo_contents(&queue).len() <= q0 + d,
                forall|i: int|
                    0 <= i < area ==> #[trigger] genome@[i] == g0[i] || points_inside(
                        w,
                        h,
                        i,
                        genome@[i],
                    ),
                forall|m: int|
                    0 <= m < changed@.len() ==> within_variance_band(
                    global_data.pixels@[(#[trigger] changed@[m]) as int],
                    stats.sum_red,
                    stats.sum_green,
                    stats.sum_blue,
                    stats.count,
                    var_num_red,
                    var_num_green,
                    var_num_blue,
                    ceiling,
                ),
                forall|i: int|
                    0 <= i < area ==> #[trigger] genome@[i] == g0[i] || (changed@.contains(
                        i as usize,
                    ) && (match direction_target(w, h, i, genome@[i]) {
                        Option::Some(t) => seen@.contains(t as usize),
                        Option::None => false,
                    })),
            decreases 4 - d,
        {
            // direction that redirects the discovered neighbor back toward
            // the current pixel
            let (dx, dy, back): (i32, i32, Connection) = match d {
                0 => (0, -1, Connection::Down),
                1 => (-1, 0, Connection::Right),
                2 => (1, 0, Connection::Left),
                _ => (0, 1, Connection::Up),
            };
            match neighbor_index(width, height, current, dx, dy) {
                Option::Some(nb) => {
                    if !vec_contains(&seen, nb) {
                        let px = global_data.pixels[nb];
                        if is_pixel_within_variance(
                            &px,
                            stats,
                            var_num_red,
                            var_num_green,
                            var_num_blue,
                            ceiling,
                        ) {
                            proof {
                                lemma_back_direction_points_inside(
                                    w,
                                    h,
                                    current as int,
                                    nb as int,
                                    dx as int,
                                    dy as int,
                                );
                            }
                            let ghost changed0 = changed@;
                            genome.set(nb, back);
                            fifo_add(&mut queue, nb);
                            changed.push(nb);
                            proof {
                                assert(changed@[changed@.len() - 1] == nb);
                                assert(direction_target(w, h, nb as int, back) == Option::Some(
                                    current as int,
                                ));
                                assert forall|i: int|
                                    0 <= i < area && #[trigger] genome@[i] != g0[i] implies (
                                changed@.contains(i as usize) && (match direction_target(
                                    w,
                                    h,
                                    i,
                                    genome@[i],
                                ) {
                                    Option::Some(t) => seen@.contains(t as usize),
                                    Option::None => false,
                                })) by {
                                    if i == nb as int {
                                        assert(changed@.contains(nb));
                                        assert(seen@.contains(current));
                                    } else {
                                        assert(changed0.contains(i as usize));
                                        let m = choose|m: int|
                                            0 <= m < changed0.len() && changed0[m] == i as usize;
                                        assert(changed@[m] == i as usize);
                                    }
                                }
                            }
                        } else {
                            skipped.push(nb);
                        }
                    }
                },
                Option::None => {},
            }
            d += 1;
        }
    }
    // Second pass: attach rejected pixels to any accepted neighbor.
    let ghost seen1 = seen@;
    let ghost changed1 = changed@;
    let ghost skipped1 = skipped@;
    let mut s: usize = 0;
    while s < skipped.len()
        invariant
            global_data.wf(),
            w == width as int,
            h == height as int,
            width == global_data.width,
            height == global_data.height,
            area == global_data.area(),
            genome@.len() == area,
            g0.len() == area,
            seen@ == seen1,
            changed@ == changed1,
            skipped@ == skipped1,
            s <= skipped@.len(),
            forall|m: int| 0 <= m < skipped@.len() ==> #[trigger] skipped@[m] < area,
            forall|m: int| 0 <= m < changed@.len() ==> #[trigger] changed@[m] < area,
            forall|m: int|
                0 <= m < changed@.len() ==> within_variance_band(
                    global_data.pixels@[(#[trigger] changed@[m]) as int],
                    stats.sum_red,
                    stats.sum_green,
                    stats.sum_blue,
                    stats.count,
                    var_num_red,
                    var_num_green,
                    var_num_blue,
                    ceiling,
                ),
            forall|i: int|
                0 <= i < area ==> #[trigger] genome@[i] == g0[i] || points_inside(
                    w,
                    h,
                    i,
                    genome@[i],
                ),
            forall|i: int|
                0 <= i < area ==> #[trigger] genome@[i] == g0[i] || ((changed@.contains(
                    i as usize,
                ) || skipped@.contains(i as usize)) && (match direction_target(
                    w,
                    h,
                    i,
                    genome@[i],
                ) {
                    Option::Some(t) => seen@.contains(t as usize) || changed@.contains(
                        t as usize,
                    ),
                    Option::None => false,
                })),
            forall|i: int|
                0 <= i < area ==> #[trigger] genome@[i] == g0[i] || (changed@.contains(
                    i as usize,
                ) && within_variance_band(
                        global_data.pixels@[i],
                        stats.sum_red,
                        stats.sum_green,
                        stats.sum_blue,
                        stats.count,
                        var_num_red,
                        var_num_green,
                        var_num_blue,
                        ceiling,
                    )) || (match direction_target(w, h, i, genome@[i]) {
                    Option::Some(t) => changed@.contains(t as usize),
                    Option::None => false,
                }),
        decreases skipped@.len() - s,
    {
        let pixel = skipped[s];
        proof {
            assert(skipped@.contains(pixel));
        }
        let mut d: usize = 0;
        while d < 4
            invariant
                global_data.wf(),
                w == width as int,
                h == height as int,
                width == global_data.width,
                height == global_data.height,
                area == global_data.area(),
                genome@.len() == area,
                g0.len() == area,
                pixel < area,
                skipped@.contains(pixel),
                d <= 4,
                forall|m: int| 0 <= m < changed@.len() ==> #[trigger] changed@[m] < area,
                forall|m: int|
                    0 <= m < changed@.len() ==> within_variance_band(
                    global_data.pixels@[(#[trigger] changed@[m]) as int],
                    stats.sum_red,
                    stats.sum_green,
                    stats.sum_blue,
                    stats.count,
                    var_num_red,
                    var_num_green,
                    var_num_blue,
                    ceiling,
                ),
                forall|i: int|
                    0 <= i < area ==> #[trigger] genome@[i] == g0[i] || points_inside(
                        w,
                        h,
                        i,
                        genome@[i],
                    ),
                forall|i: int|
                    0 <= i < area ==> #[trigger] genome@[i] == g0[i] || ((changed@.contains(
                        i as usize,
                    ) || skipped@.contains(i as usize)) && (match direction_target(
                        w,
                        h,
                        i,
                        genome@[i],
                    ) {
                        Option::Some(t) => seen@.contains(t as usize) || changed@.contains(
                            t as usize,
                        ),
                        Option::None => false,
                    })),
                forall|i: int|
                    0 <= i < area ==> #[trigger] genome@[i] == g0[i] || (changed@.contains(
                        i as usize,
                    ) && within_variance_band(
                        global_data.pixels@[i],
                        stats.sum_red,
                        stats.sum_green,
                        stats.sum_blue,
                        stats.count,
                        var_num_red,
                        var_num_green,
                        var_num_blue,
                        ceiling,
                    )) || (match direction_target(w, h, i, genome@[i]) {
                        Option::Some(t) => changed@.contains(t as usize),
                        Option::None => false,
                    }),
            decreases 4 - d,
        {
            // direction from the rejected pixel toward the neighbor
            let (dx, dy, toward): (i32, i32, Connection) = match d {
                0 => (0, -1, Connection::Up),
                1 => (-1, 0, Connection::Left),
                2 => (1, 0, Connection::Right),
                _ => (0, 1, Connection::Down),
            };
            match neighbor_index(width, height, pixel, dx, dy) {
                Option::Some(nb) => {
                    if vec_contains(&changed, nb) {
                        proof {
                            lemma_unit_offset_points_inside(
                                w,
                                h,
                                pixel as int,
                                dx as int,
                                dy as int,
                            );
                        }
                        genome.set(pixel, toward);
                        proof {
                            assert(direction_target(w, h, pixel as int, toward) == Option::Some(
                                nb as int,
                            ));
                        }
                    }
                },
                Option::None => {},
            }
            d += 1;
        }
        s += 1;
    }
    let ghost final_genome = genome@;
    proof {
        // acceptance: every changed gene belongs to an in-band pixel or
        // points at one
        assert forall|i: int|
            0 <= i < genome@.len() implies #[trigger] genome@[i] == g0[i]
            || within_variance_band(
            global_data.pixels@[i],
            stats.sum_red,
            stats.sum_green,
            stats.sum_blue,
            stats.count,
            var_num_red,
            var_num_green,
            var_num_blue,
            ceiling,
        ) || (match direction_target(w, h, i, genome@[i]) {
            Option::Some(t) => 0 <= t < global_data.area() && within_variance_band(
                global_data.pixels@[t],
                stats.sum_red,
                stats.sum_green,
                stats.sum_blue,
                stats.count,
                var_num_red,
                var_num_green,
                var_num_blue,
                ceiling,
            ),
            Option::None => false,
        }) by {
            if genome@[i] != g0[i] {
                if changed1.contains(i as usize) && within_variance_band(
                    global_data.pixels@[i],
                    stats.sum_red,
                    stats.sum_green,
                    stats.sum_blue,
                    stats.count,
                    var_num_red,
                    var_num_green,
                    var_num_blue,
                    ceiling,
                ) {
                } else {
                    crate::genome::lemma_direction_target_in_bounds(w, h, i, genome@[i]);
                    match direction_target(w, h, i, genome@[i]) {
                        Option::Some(t) => {
                            assert(0 <= t < area);
                            assert(changed1.contains(t as usize));
                            let mm = choose|mm: int|
                                0 <= mm < changed1.len() && changed1[mm] == t as usize;
                            assert(within_variance_band(
                                global_data.pixels@[changed1[mm] as int],
                                stats.sum_red,
                                stats.sum_green,
                                stats.sum_blue,
                                stats.count,
                                var_num_red,
                                var_num_green,
                                var_num_blue,
                                ceiling,
                            ));
                            assert(changed1[mm] < area);
                        },
                        Option::None => {
                            assert(false);
                        },
                    }
                }
            }
        }
    }
    child.set_genome(genome);
    proof {
        // the visited list and the rewired lists witness the growth cap
        let touched = seen1;
        let modified = changed1 + skipped1;
        assert(modified.len() <= 8 * max_depth);
        assert forall|i: int|
            0 <= i < final_genome.len() implies #[trigger] final_genome[i] == g0[i] || (
        modified.contains(i as usize) && (match direction_target(w, h, i, final_genome[i]) {
            Option::Some(t) => touched.contains(t as usize) || modified.contains(t as usize),
            Option::None => false,
        })) by {
            if final_genome[i] != g0[i] {
                if changed1.contains(i as usize) {
                    let m = choose|m: int| 0 <= m < changed1.len() && changed1[m] == i as usize;
                    assert(modified[m] == i as usize);
                } else {
                    assert(skipped1.contains(i as usize));
                    let m = choose|m: int| 0 <= m < skipped1.len() && skipped1[m] == i as usize;
                    assert(modified[changed1.len() + m] == i as usize);
                }
                match direction_target(w, h, i, final_genome[i]) {
                    Option::Some(t) => {
                        if changed1.contains(t as usize) {
                            let m = choose|m: int|
                                0 <= m < changed1.len() && changed1[m] == t as usize;
                            assert(modified[m] == t as usize);
                        }
                    },
                    Option::None => {},
                }
            }
        }
        assert(grown_within_cap(g0, final_genome, w, h, touched, modified, max_depth as int));
    }
}

/// A direction that points back along a unit offset stays inside the
/// image when taken from the discovered neighbor, and targets the pixel
/// the neighbor was discovered from.
proof fn lemma_back_direction_points_inside(w: int, h: int, from: int, nb: int, dx: int, dy: int)
    requires
        w >= 1,
        h >= 1,
        0 <= from < w * h,
        crate::genome::neighbor_of(w, h, from, dx, dy) == Option::Some(nb),
        (dx == 0 && (dy == -1 || dy == 1)) || (dy == 0 && (dx == -1 || dx == 1)),
    ensures
        dy == -1 ==> points_inside(w, h, nb, Connection::Down) && direction_target(
            w,
            h,
            nb,
            Connection::Down,
        ) == Option::Some(from),
        dy == 1 ==> points_inside(w, h, nb, Connection::Up) && direction_target(
            w,
            h,
            nb,
            Connection::Up,
        ) == Option::Some(from),
        dx == -1 ==> points_inside(w, h, nb, Connection::Right) && direction_target(
            w,
            h,
            nb,
            Connection::Right,
        ) == Option::Some(from),
        dx == 1 ==> points_inside(w, h, nb, Connection::Left) && direction_target(
            w,
            h,
            nb,
            Connection::Left,
        ) == Option::Some(from),
{
    let row = from / w;
    let col = from % w;
    vstd::arithmetic::div_mod::lemma_fundamental_div_mod(from, w);
    vstd::arithmetic::div_mod::lemma_mod_bound(from, w);
    assert(nb == (row + dy) * w + (col + dx));
    assert(nb / w == row + dy && nb % w == col + dx) by (nonlinear_arith)
        requires
            nb == (row + dy) * w + (col + dx),
            0 <= col + dx < w,
            0 <= row + dy,
            w >= 1,
    ;
    assert((nb / w - dy) * w + (nb % w - dx) == from) by (nonlinear_arith)
        requires
            nb / w == row + dy,
            nb % w == col + dx,
            from == w * row + col,
            w >= 1,
    ;
}

/// Region-growing mutation: from a weighted-random pixel, compute its
/// region's mean and variance color and flood-fill similar neighbors into
/// the region, visiting at most `percent_of_picture` (in thousandths) of
/// the image.  Every changed gene points at a pixel inside the image that
/// the growth visited or rewired, and the visit cap bounds the number of
/// changed genes.
pub fn eat_similar(child: &mut Individual, percent_of_picture: u32, global_data: &GlobalData)
    requires
        global_data.wf(),
        old(child)@.genome.len() == global_data.area(),
        percent_of_picture <= 1000,
    ensures
        final(child)@.genome.len() == old(child)@.genome.len(),
        !final(child)@.evaluated,
        forall|i: int|
            0 <= i < final(child)@.genome.len() ==> #[trigger] final(child)@.genome[i] == old(
                child,
            )@.genome[i] || points_inside(
                global_data.width as int,
                global_data.height as int,
                i,
                final(child)@.genome[i],
            ),
        exists|touched: Seq<usize>, modified: Seq<usize>|
            #[trigger] grown_within_cap(
                old(child)@.genome,
                final(child)@.genome,
                global_data.width as int,
                global_data.height as int,
                touched,
                modified,
                global_data.area() * percent_of_picture / 1000,
            ),
{
    let width = global_data.width;
    let height = global_data.height;
    let area: usize = width * height;
    let random_index = get_edge_weighted_random_pixel_index(global_data);
    proof {
        assert((area as int) * (percent_of_picture as int) <= (area as int) * 1000
            && (area as int) * 1000 / 1000 == area as int) by (nonlinear_arith)
            requires
                0 <= percent_of_picture <= 1000,
                area >= 0,
        ;
        assert((area as int) * (percent_of_picture as int) / 1000 <= area as int) by {
            vstd::arithmetic::div_mod::lemma_div_is_ordered(
                (area as int) * (percent_of_picture as int),
                (area as int) * 1000,
                1000,
            );
        }
    }
    let max_depth: usize = ((area as u64) * (percent_of_picture as u64) / 1000) as usize;
    let (cmap, ncl) = decode_genome(child.genome_ref(), width, height);
    let segment = cmap[random_index];
    // First sweep: the region's pixel count and channel sums.
    let mut count: u64 = 0;
    let mut sum_red: u64 = 0;
    let mut sum_green: u64 = 0;
    let mut sum_blue: u64 = 0;
    let mut k: usize = 0;
    while k < area
        invariant
            global_data.wf(),
            area == global_data.area(),
            cmap@.len() == area,
            k <= area,
            count <= k,
            count as int == crate::individual::cluster_count(cmap@, segment as int, k as int),
            sum_red <= 255 * count,
            sum_green <= 255 * count,
            sum_blue <= 255 * count,
        decreases area - k,
    {
        if cmap[k] == segment {
            let px = global_data.pixels[k];
            count = count + 1;
            sum_red = sum_red + px.red as u64;
            sum_green = sum_green + px.green as u64;
            sum_blue = sum_blue + px.blue as u64;
        }
        k += 1;
    }
    if count == 0 {
        // The chosen pixel always counts itself; defensively keep the
        // genome unchanged if no region member was found.
        let genome = clone_genome(child.genome_ref());
        child.set_genome(genome);
        proof {
            assert(grown_within_cap(
                old(child)@.genome,
                final(child)@.genome,
                global_data.width as int,
                global_data.height as int,
                Seq::<usize>::empty(),
                Seq::<usize>::empty(),
                global_data.area() * percent_of_picture / 1000,
            ));
        }
        return ;
    }
    // Second sweep: per-channel variance numerators
    // `n * sum(x^2) - sum(x)^2`, the variance scaled by `n^2`.
    let mut sq_red: u64 = 0;
    let mut sq_green: u64 = 0;
    let mut sq_blue: u64 = 0;
    let mut k2: usize = 0;
    while k2 < area
        invariant
            global_data.wf(),
            area == global_data.area(),
            cmap@.len() == area,
            k2 <= area,
            count as int == crate::individual::cluster_count(cmap@, segment as int, area as int),
            sq_red as int <= 65025 * crate::individual::cluster_count(
                cmap@,
                segment as int,
                k2 as int,
            ),
            sq_green as int <= 65025 * crate::individual::cluster_count(
                cmap@,
                segment as int,
                k2 as int,
            ),
            sq_blue as int <= 65025 * crate::individual::cluster_count(
                cmap@,
                segment as int,
                k2 as int,
            ),
            sq_red <= 65025 * k2,
            sq_green <= 65025 * k2,
            sq_blue <= 65025 * k2,
        decreases area - k2,
    {
        if cmap[k2] == segment {
            let px = global_data.pixels[k2];
            proof {
                assert((px.red as int) * (px.red as int) <= 65025 && (px.green as int) * (
                px.green as int) <= 65025 && (px.blue as int) * (px.blue as int) <= 65025)
                    by (nonlinear_arith)
                    requires
                        px.red <= 255,
                        px.green <= 255,
                        px.blue <= 255,
                ;
            }
            sq_red = sq_red + (px.red as u64) * (px.red as u64);
            sq_green = sq_green + (px.green as u64) * (px.green as u64);
            sq_blue = sq_blue + (px.blue as u64) * (px.blue as u64);
        }
        k2 += 1;
    }
    proof {
        assert(count <= area <= MAX_AREA);
        assert(sq_red <= 65025 * count && sq_green <= 65025 * count && sq_blue <= 65025 * count);
        assert((count as int) * (65025 * (count as int)) <= 65025 * (count as int) * (
        count as int) && (255 * (count as int)) * (255 * (count as int)) <= 65025 * (
        count as int) * (count as int) && 65025 * (count as int) * (count as int)
            <= 1040400000000000000) by (nonlinear_arith)
            requires
                1 <= count <= 4000000,
        ;
        assert(sq_red <= 65025 * area && sq_green <= 65025 * area && sq_blue <= 65025 * area);
        assert((count as int) * (sq_red as int) <= 65025 * (count as int) * (count as int))
            by (nonlinear_arith)
            requires
                0 <= sq_red <= 65025 * count,
                count >= 0,
        ;
        assert((count as int) * (sq_green as int) <= 65025 * (count as int) * (count as int))
            by (nonlinear_arith)
            requires
                0 <= sq_green <= 65025 * count,
                count >= 0,
        ;
        assert((count as int) * (sq_blue as int) <= 65025 * (count as int) * (count as int))
            by (nonlinear_arith)
            requires
                0 <= sq_blue <= 65025 * count,
                count >= 0,
        ;
    }
    let var_num_red: u64 = var_numerator(count, sq_red, sum_red);
    let var_num_green: u64 = var_numerator(count, sq_green, sum_green);
    let var_num_blue: u64 = var_numerator(count, sq_blue, sum_blue);
    // Randomized variance ceiling, mirroring a draw from 35 to 79.
    let ceiling: u64 = 35 + rand_u64_below(45);
    // If the chosen pixel's color is far from the region mean on every
    // channel, the region is probably too big already: grow around the
    // pixel's own color instead.
    let px = global_data.pixels[random_index];
    proof {
        assert((count as int) * (px.red as int) <= 255 * 4000000 && (count as int) * (
        px.green as int) <= 255 * 4000000 && (count as int) * (px.blue as int) <= 255 * 4000000
            && 30 * (count as int) <= 120000000) by (nonlinear_arith)
            requires
                px.red <= 255,
                px.green <= 255,
                px.blue <= 255,
                0 <= count <= 4000000,
        ;
    }
    let dr = abs_diff_u64(count * (px.red as u64), sum_red);
    let dg = abs_diff_u64(count * (px.green as u64), sum_green);
    let db = abs_diff_u64(count * (px.blue as u64), sum_blue);
    let stats = if dr >= 30 * count && dg >= 30 * count && db >= 30 * count {
        RegionStats {
            sum_red: count * (px.red as u64),
            sum_green: count * (px.green as u64),
            sum_blue: count * (px.blue as u64),
            count,
        }
    } else {
        RegionStats { sum_red, sum_green, sum_blue, count }
    };
    proof {
        assert((count as int) * (px.red as int) <= 255 * (count as int) && (count as int) * (
        px.green as int) <= 255 * (count as int) && (count as int) * (px.blue as int) <= 255 * (
        count as int)) by (nonlinear_arith)
            requires
                px.red <= 255,
                px.green <= 255,
                px.blue <= 255,
                count >= 0,
        ;
    }
    connect_similar_pixels(
        random_index,
        child,
        &stats,
        var_num_red,
        var_num_green,
        var_num_blue,
        ceiling,
        global_data,
        max_depth,
    );
    proof {
        assert(max_depth as int == global_data.area() * percent_of_picture / 1000);
    }
}

/// The per-channel variance numerator `n * sum(x^2) - sum(x)^2`, clamped
/// at zero against rounding of the inputs.
fn var_numerator(count: u64, sum_sq: u64, sum: u64) -> (r: u64)
    requires
        1 <= count <= MAX_AREA,
        sum <= 255 * count,
        count * sum_sq <= 65025 * count * count,
    ensures
        r <= 65025 * count * count,
{
    proof {
        assert((sum as int) * (sum as int) <= 65025 * (count as int) * (count as int) && (
        sum as int) * (sum as int) <= 1040400000000000000 && (count as int) * (sum_sq as int)
            <= 1040400000000000000) by (nonlinear_arith)
            requires
                0 <= sum <= 255 * count,
                1 <= count <= 4000000,
                count * sum_sq <= 65025 * count * count,
        ;
    }
    let a: u64 = count * sum_sq;
    let b: u64 = sum * sum;
    if a >= b {
        a - b
    } else {
        0
    }
}

/// The region of pixel `i` under label map `cm` covers less of the image
/// than the minimum fraction (in thousandths).
pub open spec fn region_undersized(cm: Seq<usize>, i: int, minimum_coverage: u32, area: int) -> bool {
    crate::individual::cluster_count(cm, cm[i] as int, cm.len() as int) * 1000 < (
    minimum_coverage as int) * area
}

/// Destroy every region whose pixel share of the image falls below the
/// minimum coverage (in thousandths): walk from a member pixel along the
/// region's direction chain to its root, then re-point the chain from the
/// root onward in one freshly drawn random direction, merging the region
/// into whatever lies that way.  Only genes of undersized regions change,
/// and the root gene of every undersized region that had one (a gene that
/// is `Nowhere` or points outside the image) is rewritten to a real
/// direction.
pub fn destroy_small_segments(
    individual: &mut Individual,
    global_data: &GlobalData,
    minimum_coverage_percentage: u32,
)
    requires
        global_data.wf(),
        old(individual)@.genome.len() == global_data.area(),
        minimum_coverage_percentage <= 1000,
    ensures
        final(individual)@.genome.len() == old(individual)@.genome.len(),
        !final(individual)@.evaluated,
        exists|cm: Seq<usize>, ncl: usize|
            {
                &&& crate::decoder::decoded_ok(
                    old(individual)@.genome,
                    global_data.width as int,
                    global_data.height as int,
                    cm,
                    ncl,
                )
                &&& forall|i: int|
                    0 <= i < final(individual)@.genome.len() ==> #[trigger] final(individual)@.genome[i]
                        == old(individual)@.genome[i] || region_undersized(
                        cm,
                        i,
                        minimum_coverage_percentage,
                        global_data.area(),
                    )
                &&& forall|i: int|
                    0 <= i < final(individual)@.genome.len() && crate::genome::step_of(
                        old(individual)@.genome,
                        global_data.width as int,
                        global_data.height as int,
                        i,
                    ) is None && region_undersized(
                        cm,
                        i,
                        minimum_coverage_percentage,
                        global_data.area(),
                    ) ==> #[trigger] final(individual)@.genome[i] != Connection::Nowhere
            },
{
    let width = global_data.width;
    let height = global_data.height;
    let ghost w = width as int;
    let ghost h = height as int;
    let area: usize = width * height;
    let ghost g0 = old(individual)@.genome;
    let (cmap, ncl) = decode_genome(individual.genome_ref(), width, height);
    proof {
        assert(ncl <= area <= MAX_AREA);
    }
    let mut genome = clone_genome(individual.genome_ref());
    // Region sizes and one representative member per region.
    let mut sizes: Vec<u64> = Vec::new();
    let mut reps: Vec<usize> = Vec::new();
    let mut id: usize = 0;
    while id < ncl + 1
        invariant
            ncl <= MAX_AREA,
            id <= ncl + 1,
            sizes@.len() == id,
            reps@.len() == id,
            forall|m: int| 0 <= m < id ==> #[trigger] sizes@[m] == 0,
            forall|m: int| 0 <= m < id ==> #[trigger] reps@[m] == 0,
        decreases ncl + 1 - id,
    {
        sizes.push(0);
        reps.push(0);
        id += 1;
    }
    let mut k: usize = 0;
    while k < area
        invariant
            cmap@.len() == area <= MAX_AREA,
            ncl <= area,
            forall|i: int| 0 <= i < cmap@.len() ==> 1 <= #[trigger] cmap@[i] <= ncl,
            k <= area,
            sizes@.len() == ncl + 1,
            reps@.len() == ncl + 1,
            forall|m: int| 0 <= m < sizes@.len() ==> #[trigger] sizes@[m] <= k,
            forall|m: int|
                0 <= m <= ncl ==> #[trigger] sizes@[m] as int == crate::individual::cluster_count(
                    cmap@,
                    m,
                    k as int,
                ),
            forall|m: int|
                0 <= m <= ncl && #[trigger] sizes@[m] >= 1 ==> reps@[m] < area
                    && cmap@[reps@[m] as int] == m,
        decreases area - k,
    {
        let label = cmap[k];
        let s0 = sizes[label];
        if s0 == 0 {
            reps.set(label, k);
        }
        sizes.set(label, s0 + 1);
        k += 1;
    }
    let mut seg: usize = 1;
    while seg < ncl + 1
        invariant
            global_data.wf(),
            w == width as int,
            h == height as int,
            width == global_data.width,
            height == global_data.height,
            area == global_data.area() <= MAX_AREA,
            cmap@.len() == area,
            ncl <= area,
            crate::decoder::decoded_ok(g0, w, h, cmap@, ncl),
            forall|i: int| 0 <= i < cmap@.len() ==> 1 <= #[trigger] cmap@[i] <= ncl,
            sizes@.len() == ncl + 1,
            reps@.len() == ncl + 1,
            forall|m: int|
                0 <= m <= ncl && #[trigger] sizes@[m] >= 1 ==> reps@[m] < area
                    && cmap@[reps@[m] as int] == m,
            forall|m: int| 0 <= m < sizes@.len() ==> #[trigger] sizes@[m] <= area,
            forall|m: int|
                0 <= m <= ncl ==> #[trigger] sizes@[m] as int == crate::individual::cluster_count(
                    cmap@,
                    m,
                    area as int,
                ),
            genome@.len() == area,
            g0.len() == area,
            minimum_coverage_percentage <= 1000,
            1 <= seg <= ncl + 1,
            forall|i: int|
                0 <= i < area ==> #[trigger] genome@[i] == g0[i] || ((cmap@[i] as int) < seg
                    && region_undersized(cmap@, i, minimum_coverage_percentage, area as int)),
            forall|i: int|
                0 <= i < area && crate::genome::step_of(g0, w, h, i) is None && (
                cmap@[i] as int) < seg && region_undersized(
                    cmap@,
                    i,
                    minimum_coverage_percentage,
                    area as int,
                ) ==> #[trigger] genome@[i] != Connection::Nowhere,
        decreases ncl + 1 - seg,
    {
        let ghost giter = genome@;
        let covered: u64 = sizes[seg] * 1000;
        proof {
            assert((minimum_coverage_percentage as int) * (area as int) <= 1000 * 4000000)
                by (nonlinear_arith)
                requires
                    0 <= minimum_coverage_percentage <= 1000,
                    0 <= area <= 4000000,
            ;
        }
        let threshold: u64 = (minimum_coverage_percentage as u64) * (area as u64);
        if covered < threshold && area >= 1 {
            proof {
                assert(sizes@[seg as int] as int == crate::individual::cluster_count(
                    cmap@,
                    seg as int,
                    area as int,
                ));
                // the label occurs, so the region is nonempty and the
                // representative is a genuine member
                assert(crate::decoder::label_used(cmap@, seg as int));
                let jw = choose|j: int| 0 <= j < cmap@.len() && #[trigger] cmap@[j] == seg;
                crate::individual::lemma_region_size_positive(cmap@, jw);
            }
            let rep: usize = reps[seg];
            let ghost rep0 = rep as int;
            let mut cur: usize = rep;
            // Walk the direction chain to the region's root, tracking the
            // orbit of the representative.
            let mut visited: Vec<usize> = Vec::new();
            loop
                invariant
                    global_data.wf(),
                    w == width as int,
                    h == height as int,
                    width == global_data.width,
                    height == global_data.height,
                    area == global_data.area() <= MAX_AREA,
                    cmap@.len() == area,
                    ncl <= area,
                    crate::decoder::decoded_ok(g0, w, h, cmap@, ncl),
                    1 <= seg <= ncl,
                    genome@.len() == area,
                    g0.len() == area,
                    minimum_coverage_percentage <= 1000,
                    cur < area,
                    cmap@[cur as int] == seg,
                    0 <= rep0 < area,
                    cmap@[rep0] == seg,
                    visited@.no_duplicates(),
                    forall|m: int| 0 <= m < visited@.len() ==> #[trigger] visited@[m] < area,
                    forall|j: int|
                        0 <= j < visited@.len() ==> iter_step(g0, w, h, rep0, j as nat)
                            == Option::Some((#[trigger] visited@[j]) as int),
                    iter_step(g0, w, h, rep0, visited@.len() as nat) == Option::Some(cur as int),
                    genome@ == giter,
                    forall|i: int|
                        0 <= i < area ==> #[trigger] genome@[i] == g0[i] || ((cmap@[i] as int)
                            < seg && region_undersized(
                            cmap@,
                            i,
                            minimum_coverage_percentage,
                            area as int,
                        )),
                ensures
                    cur < area,
                    cmap@[cur as int] == seg,
                    ({
                        ||| crate::genome::step_of(g0, w, h, cur as int) is None
                        ||| (exists|a: nat, b: nat|
                            #![trigger iter_step(g0, w, h, rep0, a), iter_step(g0, w, h, rep0, b)]
                            a < b && iter_step(g0, w, h, rep0, a) == iter_step(g0, w, h, rep0, b)
                                && iter_step(g0, w, h, rep0, a) is Some)
                    }),
                decreases area + 1 - visited@.len(),
            {
                proof {
                    lemma_distinct_bounded_len(visited@, area as int);
                }
                if vec_contains(&visited, cur) {
                    proof {
                        let j = choose|j: int|
                            0 <= j < visited@.len() && visited@[j] == cur;
                        assert(iter_step(g0, w, h, rep0, j as nat) == Option::Some(cur as int));
                        assert((j as nat) < (visited@.len() as nat));
                    }
                    break;
                }
                proof {
                    // the gene of a pixel of this region is still the
                    // decoded one: only lower labels changed so far
                    assert(genome@[cur as int] == g0[cur as int]);
                    crate::genome::lemma_step_in_bounds(g0, w, h, cur as int);
                }
                match crate::decoder::step_exec(&genome, width, height, cur) {
                    Option::Some(next) => {
                        proof {
                            assert(step_of(g0, w, h, cur as int) == Option::Some(next as int))
                                by {
                                assert(step_of(genome@, w, h, cur as int) == Option::Some(
                                    next as int,
                                ));
                                assert(genome@[cur as int] == g0[cur as int]);
                            }
                            // a step stays inside the region
                            assert(cmap@[next as int] == seg) by {
                                assert(iter_step(g0, w, h, cur as int, 1) == Option::Some(
                                    next as int,
                                )) by {
                                    assert(iter_step(g0, w, h, cur as int, 0) == Option::Some(
                                        cur as int,
                                    ));
                                }
                                assert(reaches(g0, w, h, cur as int, next as int));
                                assert(iter_step(g0, w, h, next as int, 0) == Option::Some(
                                    next as int,
                                ));
                                assert(reaches(g0, w, h, next as int, next as int));
                                assert(crate::genome::same_region(
                                    g0,
                                    w,
                                    h,
                                    cur as int,
                                    next as int,
                                ));
                            }
                        }
                        let ghost len0 = visited@.len();
                        visited.push(cur);
                        proof {
                            assert(iter_step(g0, w, h, rep0, (len0 + 1) as nat) == Option::Some(
                                next as int,
                            )) by {
                                assert(iter_step(g0, w, h, rep0, len0 as nat) == Option::Some(
                                    cur as int,
                                ));
                                assert(step_of(g0, w, h, cur as int) == Option::Some(
                                    next as int,
                                ));
                            }
                        }
                        cur = next;
                    },
                    Option::None => {
                        proof {
                            assert(step_of(g0, w, h, cur as int) is None) by {
                                assert(genome@[cur as int] == g0[cur as int]);
                            }
                        }
                        break;
                    },
                }
            }
            // `cur` is now the region's root (or a cycle member when the
            // region has no root).  Re-point the chain from here onward in
            // one random direction until it leaves the region or the image.
            let ghost root0 = cur as int;
            let new_direction = match rand_index(4) {
                0 => Connection::Up,
                1 => Connection::Down,
                2 => Connection::Left,
                _ => (Connection::Right),
            };
            let ghost genome_before = genome@;
            genome.set(cur, new_direction);
            let advanced: Option<usize> = {
                let (dx, dy): (i32, i32) = match new_direction {
                    Connection::Up => (0, -1),
                    Connection::Down => (0, 1),
                    Connection::Left => (-1, 0),
                    _ => (1, 0),
                };
                neighbor_index(width, height, cur, dx, dy)
            };
            match advanced {
                Option::Some(first_next) => {
                    let mut cur2: usize = first_next;
                    let mut fuel: usize = area + 1;
                    while fuel > 0
                        invariant
                            global_data.wf(),
                            w == width as int,
                            h == height as int,
                            width == global_data.width,
                            height == global_data.height,
                            area == global_data.area() <= MAX_AREA,
                            cmap@.len() == area,
                            ncl <= area,
                            1 <= seg <= ncl,
                            forall|i: int|
                                0 <= i < cmap@.len() ==> 1 <= #[trigger] cmap@[i] <= ncl,
                            genome@.len() == area,
                            g0.len() == area,
                            minimum_coverage_percentage <= 1000,
                            cur2 < area,
                            0 <= root0 < area,
                            genome@[root0] == new_direction,
                            !(new_direction is Nowhere),
                            cmap@[root0] == seg,
                            forall|i: int|
                                0 <= i < area && (cmap@[i] as int) != seg ==> #[trigger] genome@[i]
                                    == giter[i],
                            crate::individual::cluster_count(cmap@, seg as int, area as int)
                                * 1000 < (minimum_coverage_percentage as int) * (area as int),
                            forall|i: int|
                                0 <= i < area ==> #[trigger] genome@[i] == g0[i] || ((
                                cmap@[i] as int) <= seg && region_undersized(
                                    cmap@,
                                    i,
                                    minimum_coverage_percentage,
                                    area as int,
                                )),
                        decreases fuel,
                    {
                        if cmap[cur2] != seg {
                            break;
                        }
                        genome.set(cur2, new_direction);
                        let (dx, dy): (i32, i32) = match new_direction {
                            Connection::Up => (0, -1),
                            Connection::Down => (0, 1),
                            Connection::Left => (-1, 0),
                            _ => (1, 0),
                        };
                        match neighbor_index(width, height, cur2, dx, dy) {
                            Option::Some(next) => {
                                cur2 = next;
                            },
                            Option::None => {
                                break;
                            },
                        }
                        fuel -= 1;
                    }
                },
                Option::None => {},
            }
            proof {
                assert(forall|i: int|
                    0 <= i < area && (cmap@[i] as int) != seg ==> #[trigger] genome@[i]
                        == giter[i]);
                assert(genome@[root0] == new_direction);
                // the root gene of this region, if it was terminal, is now
                // a real direction: the walk above ends exactly at the
                // terminal, since a repeating orbit excludes one and a
                // region holds at most one
                assert forall|t: int|
                    0 <= t < area && crate::genome::step_of(g0, w, h, t) is None && (
                    cmap@[t] as int) == seg implies #[trigger] genome@[t]
                    != Connection::Nowhere by {
                    assert(crate::genome::same_region(g0, w, h, root0, t)) by {
                        assert(cmap@[root0] == cmap@[t]);
                    }
                    if crate::genome::step_of(g0, w, h, root0) is None {
                        crate::genome::lemma_terminal_unique(g0, w, h, root0, t);
                        assert(genome@[t] == new_direction);
                    } else {
                        // the walk stopped on a repeat, so the orbit of the
                        // representative is periodic and cannot reach the
                        // terminal this region would need
                        let (a, b) = choose|a: nat, b: nat|
                            #![trigger iter_step(g0, w, h, rep0, a), iter_step(g0, w, h, rep0, b)]
                            a < b && iter_step(g0, w, h, rep0, a) == iter_step(g0, w, h, rep0, b)
                                && iter_step(g0, w, h, rep0, a) is Some;
                        assert(crate::genome::same_region(g0, w, h, rep0, t)) by {
                            assert(cmap@[rep0] == cmap@[t]);
                        }
                        let u = choose|u: int|
                            reaches(g0, w, h, rep0, u) && reaches(g0, w, h, t, u);
                        let nu = choose|n: nat|
                            iter_step(g0, w, h, t, n) == Option::Some(u);
                        crate::genome::lemma_terminal_orbit(g0, w, h, t, nu);
                        assert(u == t);
                        let nt = choose|n: nat|
                            iter_step(g0, w, h, rep0, n) == Option::Some(t);
                        crate::genome::lemma_orbit_repeat_excludes_terminal(
                            g0,
                            w,
                            h,
                            rep0,
                            a,
                            b,
                            nt,
                            t,
                        );
                    }
                }
            }
        }
        proof {
            if !(covered < threshold && area >= 1) {
                assert(genome@ == giter);
                assert(sizes@[seg as int] as int == crate::individual::cluster_count(
                    cmap@,
                    seg as int,
                    area as int,
                ));
            }
            assert forall|i: int|
                0 <= i < area && #[trigger] genome@[i] != g0[i] implies ((cmap@[i] as int) < seg
                + 1 && region_undersized(cmap@, i, minimum_coverage_percentage, area as int)) by {
                if (cmap@[i] as int) != seg {
                    assert(genome@[i] == giter[i]);
                }
            }
            assert forall|i: int|
                0 <= i < area && crate::genome::step_of(g0, w, h, i) is None && (
                cmap@[i] as int) < seg + 1 && region_undersized(
                    cmap@,
                    i,
                    minimum_coverage_percentage,
                    area as int,
                ) implies #[trigger] genome@[i] != Connection::Nowhere by {
                if (cmap@[i] as int) < seg {
                    assert(genome@[i] == giter[i]);
                } else {
                    assert((cmap@[i] as int) == seg);
                    if !(covered < threshold && area >= 1) {
                        assert(!region_undersized(
                            cmap@,
                            i,
                            minimum_coverage_percentage,
                            area as int,
                        ));
                    }
                }
            }
        }
        seg += 1;
    }
    individual.set_genome(genome);
    proof {
        assert(crate::decoder::decoded_ok(
            g0,
            global_data.width as int,
            global_data.height as int,
            cmap@,
            ncl,
        ));
        assert forall|i: int|
            0 <= i < genome@.len() && crate::genome::step_of(g0, w, h, i) is None
                && region_undersized(
                cmap@,
                i,
                minimum_coverage_percentage,
                global_data.area(),
            ) implies #[trigger] genome@[i] != Connection::Nowhere by {
            assert((cmap@[i] as int) < ncl + 1);
        }
    }
}

/// One mutation entry applies: its rate is positive, so at least one
/// candidate is drawn and mutated.
pub open spec fn mutation_applies(fc: crate::config::FunctionConfig) -> bool {
    fc.probability matches Some(p) && p >= 1
}

/// Apply every configured mutation entry `ceil(population_size * rate)`
/// times to a randomly chosen individual, marking it dirty.  Population
/// size and genome lengths are preserved; a candidate is only ever
/// replaced by a dirty mutant of itself, and any entry with a positive
/// rate leaves at least one candidate dirty.
pub fn mutate(population: &mut Population, config: &Config, global_data: &GlobalData)
    requires
        global_data.wf(),
        config_valid(config),
        old(population)@.len() == config.population_size,
        forall|i: int|
            0 <= i < old(population)@.len() ==> (#[trigger] old(population)@[i]@).genome.len()
                == global_data.area(),
    ensures
        final(population)@.len() == old(population)@.len(),
        forall|i: int|
            0 <= i < final(population)@.len() ==> (#[trigger] final(population)@[i]@).genome.len()
                == global_data.area(),
        forall|i: int|
            0 <= i < final(population)@.len() ==> #[trigger] final(population)@[i]@ == old(
                population,
            )@[i]@ || !final(population)@[i]@.evaluated,
        config.population_size >= 1 && (exists|e: int|
            0 <= e < config.mutations@.len() && mutation_applies(
                #[trigger] config.mutations@[e],
            )) ==> exists|i: int|
            0 <= i < final(population)@.len() && !(#[trigger] final(population)@[i]@).evaluated,
{
    let ghost pop0 = old(population)@;
    let pop_size = config.population_size;
    let mut e: usize = 0;
    while e < config.mutations.len()
        invariant
            global_data.wf(),
            config_valid(config),
            pop_size == config.population_size,
            population@.len() == pop_size == pop0.len(),
            forall|i: int|
                0 <= i < population@.len() ==> (#[trigger] population@[i]@).genome.len()
                    == global_data.area(),
            forall|i: int|
                0 <= i < population@.len() ==> #[trigger] population@[i]@ == pop0[i]@
                    || !population@[i]@.evaluated,
            forall|e2: int|
                0 <= e2 < e && pop_size >= 1 && mutation_applies(#[trigger] config.mutations@[e2])
                    ==> exists|i: int|
                    0 <= i < population@.len() && !(#[trigger] population@[i]@).evaluated,
        decreases config.mutations@.len() - e,
    {
        let entry = &config.mutations[e];
        proof {
            assert(mutation_valid(config.mutations@[e as int]));
        }
        let rate: u32 = match entry.probability {
            Some(p) => p,
            None => 0,
        };
        // ceil(population_size * rate), rates in thousandths
        proof {
            assert((pop_size as int) * (rate as int) <= 18446744073709551615 * 1000)
                by (nonlinear_arith)
                requires
                    0 <= pop_size as int <= 18446744073709551615,
                    0 <= rate as int <= 1000,
            ;
        }
        proof {
            assert(((pop_size as int) * (rate as int) + 999) / 1000 <= pop_size as int)
                by (nonlinear_arith)
                requires
                    0 <= rate as int <= 1000,
                    pop_size as int >= 0,
            ;
        }
        let count: usize = (((pop_size as u128) * (rate as u128) + 999) / 1000) as usize;
        proof {
            if rate >= 1 && pop_size >= 1 {
                assert((pop_size as int) * (rate as int) >= 1) by (nonlinear_arith)
                    requires
                        pop_size as int >= 1,
                        rate as int >= 1,
                ;
                assert(count >= 1);
            }
        }
        let mut c: usize = 0;
        while c < count
            invariant
                global_data.wf(),
                config_valid(config),
                e < config.mutations@.len(),
                entry == &config.mutations@[e as int],
                pop_size == config.population_size,
                population@.len() == pop_size == pop0.len(),
                forall|i: int|
                    0 <= i < population@.len() ==> (#[trigger] population@[i]@).genome.len()
                        == global_data.area(),
                forall|i: int|
                    0 <= i < population@.len() ==> #[trigger] population@[i]@ == pop0[i]@
                        || !population@[i]@.evaluated,
                forall|e2: int|
                    0 <= e2 < e && pop_size >= 1 && mutation_applies(
                        #[trigger] config.mutations@[e2],
                    ) ==> exists|i: int|
                        0 <= i < population@.len() && !(#[trigger] population@[i]@).evaluated,
                c >= 1 && pop_size >= 1 ==> exists|i: int|
                    0 <= i < population@.len() && !(#[trigger] population@[i]@).evaluated,
            decreases count - c,
        {
            if pop_size >= 1 {
                let idx = rand_index(pop_size);
                let mut child = population[idx].clone();
                proof {
                    crate::config::lemma_mutation_names_distinct();
                }
                if mutation_name_is(&entry.name, "flip_one_bit") {
                    flip_one_bit(&mut child, global_data);
                } else if mutation_name_is(&entry.name, "flip_to_smallest_segment") {
                    flip_to_smallest_segment(&mut child, global_data);
                } else if mutation_name_is(&entry.name, "flip_to_biggest_segment") {
                    flip_to_biggest_segment(&mut child, global_data);
                } else if mutation_name_is(&entry.name, "eat_similar") {
                    let depth: u32 = match entry.max_depth_percent_of_picture {
                        Some(d) => d,
                        None => 0,
                    };
                    eat_similar(&mut child, depth, global_data);
                } else if mutation_name_is(&entry.name, "flip_to_smallest_deviation") {
                    let radius: usize = match entry.radius {
                        Some(r) => r,
                        None => 1,
                    };
                    flip_to_smallest_deviation(&mut child, global_data, radius);
                } else if mutation_name_is(&entry.name, "destroy_small_segments") {
                    let cov: u32 = match entry.minimum_coverage_percentage {
                        Some(cv) => cv,
                        None => 0,
                    };
                    destroy_small_segments(&mut child, global_data, cov);
                }
                child.set_needs_update();
                population.set(idx, child);
                proof {
                    assert(!population@[idx as int]@.evaluated);
                }
            }
            c += 1;
        }
        e += 1;
    }
}

/// Whether a name equals a literal key.
fn mutation_name_is(name: &String, key: &str) -> (r: bool)
    ensures
        r == (name@ == key@),
{
    let owned: String = key.to_owned();
    *name == owned
}

} // verus!
