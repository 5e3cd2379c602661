//! Minimum-spanning-tree genome initialization.
//!
//! The image is a grid graph weighted by the precomputed color-distance
//! table.  A Prim-style construction grows a spanning tree from a random
//! seed pixel, always taking the cheapest frontier edge; each tree edge
//! becomes a direction gene pointing from child to parent, so the whole
//! genome decodes into one region rooted at the seed.

use vstd::prelude::*;
use crate::genome::{
    Connection, Genome, MAX_AREA, direction_target, iter_step, neighbor_index, neighbor_of,
    points_inside, reaches, step_of, lemma_reaches_trans, lemma_iter_step_add,
};
use crate::global_data::GlobalData;
use crate::rng::rand_index;

verus! {

/// How many entries of a flag sequence are set.
spec fn count_true(s: Seq<bool>) -> int
    decreases s.len(),
{
    if s.len() == 0 {
        0
    } else {
        count_true(s.drop_last()) + if s.last() {
            1int
        } else {
            0int
        }
    }
}

/// At most every entry is set.
proof fn lemma_count_true_le_len(s: Seq<bool>)
    ensures
        0 <= count_true(s) <= s.len(),
    decreases s.len(),
{
    if s.len() > 0 {
        lemma_count_true_le_len(s.drop_last());
    }
}

/// Setting a cleared flag raises the count by one.
proof fn lemma_count_true_update(s: Seq<bool>, i: int)
    requires
        0 <= i < s.len(),
        !s[i],
    ensures
        count_true(s.update(i, true)) == count_true(s) + 1,
    decreases s.len(),
{
    let t = s.update(i, true);
    if i == s.len() - 1 {
        assert(t.drop_last() =~= s.drop_last());
    } else {
        assert(t.drop_last() =~= s.drop_last().update(i, true));
        lemma_count_true_update(s.drop_last(), i);
    }
}

/// An all-false flag sequence counts zero.
proof fn lemma_count_all_false(s: Seq<bool>)
    requires
        forall|i: int| 0 <= i < s.len() ==> !(#[trigger] s[i]),
    ensures
        count_true(s) == 0,
    decreases s.len(),
{
    if s.len() > 0 {
        lemma_count_all_false(s.drop_last());
    }
}

/// Setting a cleared flag raises the count by one, phrased on the
/// original sequence.
proof fn lemma_count_true_update_of(s: Seq<bool>, i: int)
    requires
        0 <= i < s.len(),
        !s[i],
    ensures
        count_true(s.update(i, true)) == count_true(s) + 1,
{
    lemma_count_true_update(s, i);
}

/// The opposite of a unit offset: the direction a neighbor must take to
/// point back at the pixel it was discovered from.
fn back_direction(dx: i32, dy: i32) -> (r: Connection)
    requires
        (dx == 0 && (dy == -1 || dy == 1)) || (dy == 0 && (dx == -1 || dx == 1)),
    ensures
        r == (if dy == -1 {
            Connection::Down
        } else if dy == 1 {
            Connection::Up
        } else if dx == -1 {
            Connection::Right
        } else {
            Connection::Left
        }),
{
    if dy == -1 {
        Connection::Down
    } else if dy == 1 {
        Connection::Up
    } else if dx == -1 {
        Connection::Right
    } else {
        Connection::Left
    }
}

/// A unit-offset neighbor relation is symmetric, and the direction back
/// along the offset stays inside the image and targets the source pixel.
proof fn lemma_unit_neighbor_symmetric(w: int, h: int, from: int, nb: int, dx: int, dy: int)
    requires
        w >= 1,
        h >= 1,
        0 <= from < w * h,
        neighbor_of(w, h, from, dx, dy) == Option::Some(nb),
        (dx == 0 && (dy == -1 || dy == 1)) || (dy == 0 && (dx == -1 || dx == 1)),
    ensures
        0 <= nb < w * h,
        neighbor_of(w, h, nb, -dx, -dy) == Option::Some(from),
        ({
            let back = if dy == -1 {
                Connection::Down
            } else if dy == 1 {
                Connection::Up
            } else if dx == -1 {
                Connection::Right
            } else {
                Connection::Left
            };
            points_inside(w, h, nb, back) && direction_target(w, h, nb, back) == Option::Some(
                from,
            )
        }),
{
    let row = from / w;
    let col = from % w;
    vstd::arithmetic::div_mod::lemma_fundamental_div_mod(from, w);
    vstd::arithmetic::div_mod::lemma_mod_bound(from, w);
    assert(nb == (row + dy) * w + (col + dx));
    assert(nb / w == row + dy && nb % w == col + dx && 0 <= nb && nb < w * h)
        by (nonlinear_arith)
        requires
            nb == (row + dy) * w + (col + dx),
            0 <= col + dx < w,
            0 <= row + dy < h,
            w >= 1,
            h >= 1,
    ;
    assert((nb / w - dy) * w + (nb % w - dx) == from) by (nonlinear_arith)
        requires
            nb / w == row + dy,
            nb % w == col + dx,
            from == w * row + col,
            w >= 1,
    ;
}

/// Pixel `p` has an orthogonal neighbor that is already connected.
spec fn has_seen_neighbor(seen: Seq<bool>, w: int, h: int, p: int) -> bool {
    ||| (neighbor_of(w, h, p, 0, -1) matches Option::Some(q) && seen[q])
    ||| (neighbor_of(w, h, p, 0, 1) matches Option::Some(q) && seen[q])
    ||| (neighbor_of(w, h, p, -1, 0) matches Option::Some(q) && seen[q])
    ||| (neighbor_of(w, h, p, 1, 0) matches Option::Some(q) && seen[q])
}

/// The grid distance between two pixels: their row gap plus column gap.
spec fn grid_gap(w: int, p: int, q: int) -> int {
    let d1 = if p / w >= q / w {
        p / w - q / w
    } else {
        q / w - p / w
    };
    let d2 = if p % w >= q % w {
        p % w - q % w
    } else {
        q % w - p % w
    };
    d1 + d2
}

/// A connected set of pixels that contains the seed and all orthogonal
/// neighbors of its members covers the whole grid.
proof fn lemma_seen_covers_grid(seen: Seq<bool>, w: int, h: int, start: int, p: int)
    requires
        w >= 1,
        h >= 1,
        seen.len() == w * h,
        0 <= start < w * h,
        seen[start],
        forall|q: int, t: int|
            #![trigger seen[q], seen[t]]
            0 <= q < w * h && seen[q] && ((neighbor_of(w, h, q, 0, -1)
                == Option::Some(t)) || (neighbor_of(w, h, q, 0, 1) == Option::Some(t)) || (
            neighbor_of(w, h, q, -1, 0) == Option::Some(t)) || (neighbor_of(w, h, q, 1, 0)
                == Option::Some(t))) ==> seen[t],
        0 <= p < w * h,
    ensures
        seen[p],
    decreases grid_gap(w, p, start),
{
    let pr = p / w;
    let pc = p % w;
    let sr = start / w;
    let sc = start % w;
    vstd::arithmetic::div_mod::lemma_fundamental_div_mod(p, w);
    vstd::arithmetic::div_mod::lemma_mod_bound(p, w);
    vstd::arithmetic::div_mod::lemma_fundamental_div_mod(start, w);
    vstd::arithmetic::div_mod::lemma_mod_bound(start, w);
    assert(0 <= pr < h && 0 <= sr < h) by (nonlinear_arith)
        requires
            p == w * pr + pc,
            start == w * sr + sc,
            0 <= pc < w,
            0 <= sc < w,
            0 <= p < w * h,
            0 <= start < w * h,
            w >= 1,
            h >= 1,
    ;
    if p == start {
    } else {
        // one step from `p` toward the seed
        let (dx, dy): (int, int) = if pr > sr {
            (0, -1)
        } else if pr < sr {
            (0, 1)
        } else if pc > sc {
            (-1, 0)
        } else {
            (1, 0)
        };
        assert(p != start ==> pr != sr || pc != sc) by (nonlinear_arith)
            requires
                p == w * pr + pc,
                start == w * sr + sc,
        ;
        let q = (pr + dy) * w + (pc + dx);
        assert(neighbor_of(w, h, p, dx, dy) == Option::Some(q));
        lemma_unit_neighbor_symmetric(w, h, p, q, dx, dy);
        assert(q / w == pr + dy && q % w == pc + dx) by (nonlinear_arith)
            requires
                q == (pr + dy) * w + (pc + dx),
                0 <= pc + dx < w,
                0 <= pr + dy,
                w >= 1,
        ;
        assert(grid_gap(w, q, start) < grid_gap(w, p, start));
        lemma_seen_covers_grid(seen, w, h, start, q);
        assert(neighbor_of(w, h, q, -dx, -dy) == Option::Some(p));
        assert(seen[p]);
    }
}

/// Under a ranked parent relation, every connected pixel's chain reaches
/// the seed: parents always carry a strictly smaller rank.
proof fn lemma_rank_reaches(
    g: Seq<Connection>,
    seen: Seq<bool>,
    rank: Seq<int>,
    w: int,
    h: int,
    start: int,
    p: int,
)
    requires
        g.len() == w * h,
        seen.len() == w * h,
        rank.len() == w * h,
        0 <= start < w * h,
        0 <= p < w * h,
        seen[p],
        forall|q: int| 0 <= q < w * h ==> (#[trigger] seen[q] <==> rank[q] >= 0),
        forall|q: int|
            0 <= q < w * h && #[trigger] seen[q] && q != start ==> match step_of(g, w, h, q) {
                Option::Some(t) => 0 <= t < w * h && seen[t] && rank[t] < rank[q],
                Option::None => false,
            },
    ensures
        reaches(g, w, h, p, start),
    decreases rank[p],
{
    if p == start {
        assert(iter_step(g, w, h, p, 0) == Option::Some(p));
        assert(reaches(g, w, h, p, start));
    } else {
        match step_of(g, w, h, p) {
            Option::Some(t) => {
                lemma_rank_reaches(g, seen, rank, w, h, start, t);
                assert(iter_step(g, w, h, p, 1) == Option::Some(t)) by {
                    assert(iter_step(g, w, h, p, 0) == Option::Some(p));
                }
                assert(reaches(g, w, h, p, t));
                lemma_reaches_trans(g, w, h, p, t, start);
            },
            Option::None => {
                assert(false);
            },
        }
    }
}

/// Build a genome from a Prim-style minimum spanning tree of the image
/// grid, edge weights taken from the color-distance table.  The random
/// seed pixel is the one terminal gene; every other gene points at an
/// in-bounds parent, and every pixel's direction chain reaches the seed,
/// so the genome decodes into a single region.
pub fn get_mst_genome(global_data: &GlobalData) -> (r: Genome)
    requires
        global_data.wf(),
    ensures
        r@.len() == global_data.area(),
        forall|i: int|
            0 <= i < r@.len() ==> points_inside(
                global_data.width as int,
                global_data.height as int,
                i,
                #[trigger] r@[i],
            ),
        exists|s: int|
            {
                &&& 0 <= s < global_data.area()
                &&& #[trigger] r@[s] == Connection::Nowhere
                &&& forall|p: int|
                    0 <= p < global_data.area() && p != s ==> #[trigger] r@[p]
                        != Connection::Nowhere
                &&& forall|p: int|
                    0 <= p < global_data.area() ==> reaches(
                        r@,
                        global_data.width as int,
                        global_data.height as int,
                        p,
                        s,
                    )
            },
{
    let width = global_data.width;
    let height = global_data.height;
    let ghost w = width as int;
    let ghost h = height as int;
    let area: usize = width * height;
    proof {
        assert(area >= 1) by (nonlinear_arith)
            requires
                area == width * height,
                width >= 1,
                height >= 1,
        ;
    }
    let mut genome: Genome = Vec::new();
    let mut seen: Vec<bool> = Vec::new();
    let mut k: usize = 0;
    while k < area
        invariant
            k <= area,
            genome@.len() == k,
            seen@.len() == k,
            forall|i: int| 0 <= i < k ==> #[trigger] genome@[i] == Connection::Nowhere,
            forall|i: int| 0 <= i < k ==> !(#[trigger] seen@[i]),
        decreases area - k,
    {
        genome.push(Connection::Nowhere);
        seen.push(false);
        k += 1;
    }
    proof {
        assert(count_true(seen@) == 0) by {
            lemma_count_all_false(seen@);
        }
    }
    let start = rand_index(area);
    let ghost seen0 = seen@;
    seen.set(start, true);
    let mut seen_count: usize = 1;
    let ghost mut rank: Seq<int> = Seq::new(area as nat, |i: int| -1);
    proof {
        rank = rank.update(start as int, 0);
        lemma_count_true_update_of(seen0, start as int);
        assert(count_true(seen@) == 1);
    }
    // frontier edges: (weight, pixel, direction from that pixel to its
    // already-connected parent)
    let mut frontier: Vec<(u64, usize, Connection)> = Vec::new();
    proof {
        // before any frontier entry exists, the only connected pixel is the
        // seed, so a pixel bordering the connected set borders the seed
        assert forall|p: int|
            0 <= p < area && !seen@[p] && has_seen_neighbor(seen@, w, h, p) implies {
            ||| (exists|f: int| 0 <= f < frontier@.len() && (#[trigger] frontier@[f]).1 == p)
            ||| (neighbor_of(w, h, start as int, 0, -1) == Option::Some(p))
            ||| (neighbor_of(w, h, start as int, 0, 1) == Option::Some(p))
            ||| (neighbor_of(w, h, start as int, -1, 0) == Option::Some(p))
            ||| (neighbor_of(w, h, start as int, 1, 0) == Option::Some(p))
        } by {
            if neighbor_of(w, h, p, 0, -1) matches Option::Some(q) && seen@[q] {
                let q = neighbor_of(w, h, p, 0, -1)->Some_0;
                lemma_unit_neighbor_symmetric(w, h, p, q, 0, -1);
                assert(q == start as int);
            } else if neighbor_of(w, h, p, 0, 1) matches Option::Some(q) && seen@[q] {
                let q = neighbor_of(w, h, p, 0, 1)->Some_0;
                lemma_unit_neighbor_symmetric(w, h, p, q, 0, 1);
                assert(q == start as int);
            } else if neighbor_of(w, h, p, -1, 0) matches Option::Some(q) && seen@[q] {
                let q = neighbor_of(w, h, p, -1, 0)->Some_0;
                lemma_unit_neighbor_symmetric(w, h, p, q, -1, 0);
                assert(q == start as int);
            } else {
                let q = neighbor_of(w, h, p, 1, 0)->Some_0;
                lemma_unit_neighbor_symmetric(w, h, p, q, 1, 0);
                assert(q == start as int);
            }
        }
    }
    let mut d: usize = 0;
    while d < 4
        invariant
            global_data.wf(),
            w == width as int,
            h == height as int,
            width == global_data.width,
            height == global_data.height,
            area == global_data.area(),
            seen@.len() == area,
            start < area,
            seen@[start as int],
            d <= 4,
            forall|f: int|
                0 <= f < frontier@.len() ==> {
                    let entry = #[trigger] frontier@[f];
                    &&& entry.1 < area
                    &&& points_inside(w, h, entry.1 as int, entry.2)
                    &&& match direction_target(w, h, entry.1 as int, entry.2) {
                        Option::Some(par) => 0 <= par < area && seen@[par],
                        Option::None => false,
                    }
                },
            forall|p: int|
                0 <= p < area && !seen@[p] && has_seen_neighbor(seen@, w, h, p) ==> {
                    ||| (exists|f: int|
                        0 <= f < frontier@.len() && (#[trigger] frontier@[f]).1 == p)
                    ||| (d <= 0 && neighbor_of(w, h, start as int, 0, -1) == Option::Some(p))
                    ||| (d <= 1 && neighbor_of(w, h, start as int, 0, 1) == Option::Some(p))
                    ||| (d <= 2 && neighbor_of(w, h, start as int, -1, 0) == Option::Some(p))
                    ||| (d <= 3 && neighbor_of(w, h, start as int, 1, 0) == Option::Some(p))
                },
        decreases 4 - d,
    {
        let (dx, dy): (i32, i32) = match d {
            0 => (0, -1),
            1 => (0, 1),
            2 => (-1, 0),
            _ => (1, 0),
        };
        let ghost fr0 = frontier@;
        match neighbor_index(width, height, start, dx, dy) {
            Option::Some(nb) => {
                let dir = back_direction(dx, dy);
                proof {
                    lemma_unit_neighbor_symmetric(
                        w,
                        h,
                        start as int,
                        nb as int,
                        dx as int,
                        dy as int,
                    );
                }
                let ix: usize = pair_distance_index(start, dx, dy, area);
                frontier.push((global_data.distance_map[ix], nb, dir));
            },
            Option::None => {},
        }
        proof {
            assert forall|p: int|
                0 <= p < area && !seen@[p] && has_seen_neighbor(seen@, w, h, p) implies {
                ||| (exists|f: int| 0 <= f < frontier@.len() && (#[trigger] frontier@[f]).1 == p)
                ||| (d + 1 <= 0 && neighbor_of(w, h, start as int, 0, -1) == Option::Some(p))
                ||| (d + 1 <= 1 && neighbor_of(w, h, start as int, 0, 1) == Option::Some(p))
                ||| (d + 1 <= 2 && neighbor_of(w, h, start as int, -1, 0) == Option::Some(p))
                ||| (d + 1 <= 3 && neighbor_of(w, h, start as int, 1, 0) == Option::Some(p))
            } by {
                if exists|f: int| 0 <= f < fr0.len() && (#[trigger] fr0[f]).1 == p {
                    let f1 = choose|f: int| 0 <= f < fr0.len() && (#[trigger] fr0[f]).1 == p;
                    assert(frontier@[f1].1 == p);
                } else if neighbor_of(w, h, start as int, dx as int, dy as int)
                    == Option::Some(p) {
                    assert(frontier@[frontier@.len() - 1].1 == p);
                }
            }
        }
        d += 1;
    }
    while frontier.len() > 0
        invariant
            global_data.wf(),
            w == width as int,
            h == height as int,
            width == global_data.width,
            height == global_data.height,
            area == global_data.area(),
            genome@.len() == area,
            seen@.len() == area,
            rank.len() == area,
            start < area,
            seen@[start as int],
            rank[start as int] == 0,
            genome@[start as int] == Connection::Nowhere,
            seen_count as int == count_true(seen@),
            seen_count <= area,
            forall|p: int| 0 <= p < area ==> ((#[trigger] seen@[p]) <==> rank[p] >= 0),
            forall|p: int| 0 <= p < area && #[trigger] seen@[p] ==> rank[p] < seen_count,
            forall|p: int| 0 <= p < area && !(#[trigger] seen@[p]) ==> genome@[p]
                == Connection::Nowhere,
            forall|p: int|
                0 <= p < area && #[trigger] seen@[p] && p != start as int ==> match step_of(
                    genome@,
                    w,
                    h,
                    p,
                ) {
                    Option::Some(t) => 0 <= t < area && seen@[t] && rank[t] < rank[p],
                    Option::None => false,
                },
            forall|i: int| 0 <= i < area ==> points_inside(w, h, i, #[trigger] genome@[i]),
            forall|f: int|
                0 <= f < frontier@.len() ==> {
                    let entry = #[trigger] frontier@[f];
                    &&& entry.1 < area
                    &&& points_inside(w, h, entry.1 as int, entry.2)
                    &&& match direction_target(w, h, entry.1 as int, entry.2) {
                        Option::Some(par) => 0 <= par < area && seen@[par],
                        Option::None => false,
                    }
                },
            forall|p: int|
                0 <= p < area && !seen@[p] && has_seen_neighbor(seen@, w, h, p) ==> exists|f: int|
                    0 <= f < frontier@.len() && (#[trigger] frontier@[f]).1 == p,
        decreases 5 * (area - seen_count) + frontier@.len(),
    {
        // Take the cheapest frontier edge.
        let mut best: usize = 0;
        let mut j: usize = 1;
        while j < frontier.len()
            invariant
                frontier@.len() > 0,
                best < frontier@.len(),
                j <= frontier@.len(),
            decreases frontier@.len() - j,
        {
            if frontier[j].0 < frontier[best].0 {
                best = j;
            }
            j += 1;
        }
        let ghost frontier0 = frontier@;
        let (_, pixel, dir) = frontier.remove(best);
        proof {
            // entries for other pixels survive the removal
            assert forall|p: int|
                0 <= p < area && !seen@[p] && has_seen_neighbor(seen@, w, h, p) && p
                    != pixel as int implies exists|f: int|
                0 <= f < frontier@.len() && (#[trigger] frontier@[f]).1 == p by {
                let f0 = choose|f: int| 0 <= f < frontier0.len() && frontier0[f].1 == p;
                if f0 < best {
                    assert(frontier@[f0].1 == p);
                } else {
                    assert(frontier@[f0 - 1].1 == p);
                }
            }
        }
        if !seen[pixel] {
            let ghost seen_before = seen@;
            seen.set(pixel, true);
            proof {
                lemma_count_true_update_of(seen_before, pixel as int);
                lemma_count_true_le_len(seen@);
                rank = rank.update(pixel as int, seen_count as int);
            }
            seen_count = seen_count + 1;
            genome.set(pixel, dir);
            let ghost f0 = frontier@.len();
            proof {
                // a pixel bordering the grown set either bordered it
                // before the pop (its entry survives) or borders the
                // freshly connected pixel
                assert forall|p: int|
                    0 <= p < area && !seen@[p] && has_seen_neighbor(seen@, w, h, p) implies {
                    ||| (exists|f: int|
                        0 <= f < frontier@.len() && (#[trigger] frontier@[f]).1 == p)
                    ||| (neighbor_of(w, h, pixel as int, 0, -1) == Option::Some(p))
                    ||| (neighbor_of(w, h, pixel as int, 0, 1) == Option::Some(p))
                    ||| (neighbor_of(w, h, pixel as int, -1, 0) == Option::Some(p))
                    ||| (neighbor_of(w, h, pixel as int, 1, 0) == Option::Some(p))
                } by {
                    if has_seen_neighbor(seen_before, w, h, p) {
                    } else {
                        // the seen neighbor must be the fresh pixel
                        if neighbor_of(w, h, p, 0, -1) matches Option::Some(q) && seen@[q]
                            && !seen_before[q] {
                            let q = neighbor_of(w, h, p, 0, -1)->Some_0;
                            lemma_unit_neighbor_symmetric(w, h, p, q, 0, -1);
                            assert(q == pixel as int);
                        } else if neighbor_of(w, h, p, 0, 1) matches Option::Some(q) && seen@[q]
                            && !seen_before[q] {
                            let q = neighbor_of(w, h, p, 0, 1)->Some_0;
                            lemma_unit_neighbor_symmetric(w, h, p, q, 0, 1);
                            assert(q == pixel as int);
                        } else if neighbor_of(w, h, p, -1, 0) matches Option::Some(q)
                            && seen@[q] && !seen_before[q] {
                            let q = neighbor_of(w, h, p, -1, 0)->Some_0;
                            lemma_unit_neighbor_symmetric(w, h, p, q, -1, 0);
                            assert(q == pixel as int);
                        } else {
                            let q = neighbor_of(w, h, p, 1, 0)->Some_0;
                            lemma_unit_neighbor_symmetric(w, h, p, q, 1, 0);
                            assert(q == pixel as int);
                        }
                    }
                }
            }
            let mut d2: usize = 0;
            while d2 < 4
                invariant
                    global_data.wf(),
                    w == width as int,
                    h == height as int,
                    width == global_data.width,
                    height == global_data.height,
                    area == global_data.area(),
                    pixel < area,
                    d2 <= 4,
                    seen@.len() == area,
                    seen@[pixel as int],
                    frontier@.len() <= f0 + d2,
                    forall|f: int|
                        0 <= f < frontier@.len() ==> {
                            let entry = #[trigger] frontier@[f];
                            &&& entry.1 < area
                            &&& points_inside(w, h, entry.1 as int, entry.2)
                            &&& match direction_target(w, h, entry.1 as int, entry.2) {
                                Option::Some(par) => 0 <= par < area && seen@[par],
                                Option::None => false,
                            }
                        },
                    forall|p: int|
                        0 <= p < area && !seen@[p] && has_seen_neighbor(seen@, w, h, p) ==> {
                            ||| (exists|f: int|
                                0 <= f < frontier@.len() && (#[trigger] frontier@[f]).1 == p)
                            ||| (d2 <= 0 && neighbor_of(w, h, pixel as int, 0, -1)
                                == Option::Some(p))
                            ||| (d2 <= 1 && neighbor_of(w, h, pixel as int, 0, 1)
                                == Option::Some(p))
                            ||| (d2 <= 2 && neighbor_of(w, h, pixel as int, -1, 0)
                                == Option::Some(p))
                            ||| (d2 <= 3 && neighbor_of(w, h, pixel as int, 1, 0)
                                == Option::Some(p))
                        },
                decreases 4 - d2,
            {
                let (dx, dy): (i32, i32) = match d2 {
                    0 => (0, -1),
                    1 => (0, 1),
                    2 => (-1, 0),
                    _ => (1, 0),
                };
                let ghost fr1 = frontier@;
                match neighbor_index(width, height, pixel, dx, dy) {
                    Option::Some(nb) => {
                        if !seen[nb] {
                            let dir2 = back_direction(dx, dy);
                            proof {
                                lemma_unit_neighbor_symmetric(
                                    w,
                                    h,
                                    pixel as int,
                                    nb as int,
                                    dx as int,
                                    dy as int,
                                );
                            }
                            let ix: usize = pair_distance_index(pixel, dx, dy, area);
                            frontier.push((global_data.distance_map[ix], nb, dir2));
                        }
                    },
                    Option::None => {},
                }
                proof {
                    assert forall|p: int|
                        0 <= p < area && !seen@[p] && has_seen_neighbor(seen@, w, h, p) implies {
                        ||| (exists|f: int|
                            0 <= f < frontier@.len() && (#[trigger] frontier@[f]).1 == p)
                        ||| (d2 + 1 <= 0 && neighbor_of(w, h, pixel as int, 0, -1)
                            == Option::Some(p))
                        ||| (d2 + 1 <= 1 && neighbor_of(w, h, pixel as int, 0, 1)
                            == Option::Some(p))
                        ||| (d2 + 1 <= 2 && neighbor_of(w, h, pixel as int, -1, 0)
                            == Option::Some(p))
                        ||| (d2 + 1 <= 3 && neighbor_of(w, h, pixel as int, 1, 0)
                            == Option::Some(p))
                    } by {
                        if exists|f: int| 0 <= f < fr1.len() && (#[trigger] fr1[f]).1 == p {
                            let f1 = choose|f: int|
                                0 <= f < fr1.len() && (#[trigger] fr1[f]).1 == p;
                            assert(frontier@[f1].1 == p);
                        } else if neighbor_of(w, h, pixel as int, dx as int, dy as int)
                            == Option::Some(p) {
                            assert(frontier@[frontier@.len() - 1].1 == p);
                        }
                    }
                }
                d2 += 1;
            }
            proof {
                // the freshly connected pixel's gene points at its parent
                assert(match step_of(genome@, w, h, pixel as int) {
                    Option::Some(t) => 0 <= t < area && seen@[t] && rank[t] < rank[pixel as int],
                    Option::None => false,
                }) by {
                    crate::genome::lemma_step_is_direction_target(genome@, w, h, pixel as int);
                    assert(step_of(genome@, w, h, pixel as int) == direction_target(
                        w,
                        h,
                        pixel as int,
                        dir,
                    ));
                }
            }
        }
    }
    proof {
        // an empty frontier means the connected set is closed under
        // adjacency, so it covers the whole grid
        assert forall|q: int, t: int|
            #![trigger seen@[q], seen@[t]]
            0 <= q < area && seen@[q] && ((neighbor_of(w, h, q, 0, -1)
                == Option::Some(t)) || (neighbor_of(w, h, q, 0, 1) == Option::Some(t)) || (
            neighbor_of(w, h, q, -1, 0) == Option::Some(t)) || (neighbor_of(w, h, q, 1, 0)
                == Option::Some(t))) implies seen@[t] by {
            if !seen@[t] {
                if neighbor_of(w, h, q, 0, -1) == Option::Some(t) {
                    lemma_unit_neighbor_symmetric(w, h, q, t, 0, -1);
                } else if neighbor_of(w, h, q, 0, 1) == Option::Some(t) {
                    lemma_unit_neighbor_symmetric(w, h, q, t, 0, 1);
                } else if neighbor_of(w, h, q, -1, 0) == Option::Some(t) {
                    lemma_unit_neighbor_symmetric(w, h, q, t, -1, 0);
                } else {
                    lemma_unit_neighbor_symmetric(w, h, q, t, 1, 0);
                }
                assert(has_seen_neighbor(seen@, w, h, t));
                assert(false);
            }
        }
        assert forall|p: int| 0 <= p < area implies #[trigger] seen@[p] by {
            lemma_seen_covers_grid(seen@, w, h, start as int, p);
        }
        assert forall|p: int| 0 <= p < area implies reaches(
            genome@,
            w,
            h,
            p,
            start as int,
        ) by {
            lemma_rank_reaches(genome@, seen@, rank, w, h, start as int, p);
        }
        assert(genome@[start as int] == Connection::Nowhere);
        assert forall|p: int|
            0 <= p < area && p != start as int implies #[trigger] genome@[p]
                != Connection::Nowhere by {
            assert(seen@[p]);
            assert(match step_of(genome@, w, h, p) {
                Option::Some(t) => 0 <= t < area && seen@[t] && rank[t] < rank[p],
                Option::None => false,
            });
        }
    }
    genome
}

/// The flat distance-table index of the pair `(pixel, pixel + offset)`.
fn pair_distance_index(pixel: usize, dx: i32, dy: i32, area: usize) -> (r: usize)
    requires
        pixel < area,
        area <= MAX_AREA,
        -3 <= dx <= 3,
        -3 <= dy <= 3,
    ensures
        r < area * 49,
        r == pixel * 49 + (dy + 3) * 7 + (dx + 3),
{
    proof {
        assert((pixel as int) * 49 + (dy as int + 3) * 7 + (dx as int + 3) < (area as int) * 49)
            by (nonlinear_arith)
            requires
                0 <= (pixel as int) < area as int,
                -3 <= dx as int <= 3,
                -3 <= dy as int <= 3,
        ;
    }
    pixel * 49 + ((dy + 3) as usize) * 7 + ((dx + 3) as usize)
}

} // verus!
