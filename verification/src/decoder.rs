//! Decoding a genome into a label map of connected regions.
//!
//! Every pixel follows its direction chain until a terminal, an already
//! labeled pixel, or a pixel already on the current path (the cycle guard);
//! the whole path then takes the terminal's label, fresh labels counting up
//! from 1 in scan order.  The resulting map labels two pixels alike exactly
//! when their forward orbits in the direction graph meet.

use vstd::prelude::*;
use crate::genome::{
    Connection, Genome, step_of, iter_step, reaches, same_region, lemma_step_in_bounds,
    lemma_iter_step_add, lemma_reaches_trans, lemma_same_region_trans,
};

verus! {

/// Labels propagate along the step function: each labeled pixel's successor
/// carries the same label.
pub open spec fn labels_step_closed(g: Seq<Connection>, w: int, h: int, cmap: Seq<usize>) -> bool {
    forall|p: int| 0 <= p < cmap.len() && cmap[p] != 0 ==> match #[trigger] step_of(g, w, h, p) {
        Option::Some(q) => 0 <= q < cmap.len() && cmap[q] == cmap[p],
        Option::None => true,
    }
}

/// Equal nonzero labels only join pixels of one region.
pub open spec fn labels_sound(g: Seq<Connection>, w: int, h: int, cmap: Seq<usize>) -> bool {
    forall|p: int, q: int|
        0 <= p < cmap.len() && 0 <= q < cmap.len() && #[trigger] cmap[p] == #[trigger] cmap[q]
            && cmap[p] != 0 ==> same_region(g, w, h, p, q)
}

/// Some pixel carries label `id`.
pub open spec fn label_used(cmap: Seq<usize>, id: int) -> bool {
    exists|i: int| 0 <= i < cmap.len() && #[trigger] cmap[i] == id
}

/// The full correctness statement of a decoded label map: labels cover every
/// pixel with values `1..=nclusters`, every such value occurs, and two
/// pixels share a label exactly when they share a region.
pub open spec fn decoded_ok(
    g: Seq<Connection>,
    w: int,
    h: int,
    cmap: Seq<usize>,
    nclusters: usize,
) -> bool {
    &&& cmap.len() == g.len()
    &&& forall|i: int| 0 <= i < cmap.len() ==> 1 <= #[trigger] cmap[i] <= nclusters
    &&& forall|id: int| 1 <= id <= nclusters ==> #[trigger] label_used(cmap, id)
    &&& forall|i: int, j: int|
        0 <= i < cmap.len() && 0 <= j < cmap.len() ==> ((#[trigger] cmap[i] == #[trigger] cmap[j])
            <==> same_region(g, w, h, i, j))
}

/// Decoding is idempotent up to relabeling: any two label maps that satisfy
/// [`decoded_ok`] for one genome induce the same partition of pixels into
/// regions, since each equates labels exactly with shared regions.
pub proof fn lemma_decode_partition_stable(
    g: Seq<Connection>,
    w: int,
    h: int,
    c1: Seq<usize>,
    n1: usize,
    c2: Seq<usize>,
    n2: usize,
)
    requires
        decoded_ok(g, w, h, c1, n1),
        decoded_ok(g, w, h, c2, n2),
    ensures
        forall|i: int, j: int|
            0 <= i < g.len() && 0 <= j < g.len() ==> ((#[trigger] c1[i] == #[trigger] c1[j]) <==> (
            c2[i] == c2[j])),
{
    assert forall|i: int, j: int| 0 <= i < g.len() && 0 <= j < g.len() implies ((#[trigger] c1[i]
        == #[trigger] c1[j]) <==> (c2[i] == c2[j])) by {
        assert((c1[i] == c1[j]) <==> same_region(g, w, h, i, j));
        assert((c2[i] == c2[j]) <==> same_region(g, w, h, i, j));
    }
}

/// A duplicate-free sequence of indices below `bound` has at most `bound`
/// entries.
pub(crate) proof fn lemma_distinct_bounded_len(s: Seq<usize>, bound: int)
    requires
        s.no_duplicates(),
        forall|k: int| 0 <= k < s.len() ==> s[k] < bound,
        bound >= 0,
    ensures
        s.len() <= bound,
{
    let t = s.map_values(|v: usize| v as int);
    assert(t.no_duplicates()) by {
        assert(forall|i: int, j: int| 0 <= i < j < t.len() ==> t[i] != t[j]);
    }
    t.unique_seq_to_set();
    let range = vstd::set_lib::set_int_range(0, bound);
    assert(t.to_set().subset_of(range)) by {
        assert(forall|x: int| t.to_set().contains(x) ==> #[trigger] range.contains(x)) by {
            assert(forall|x: int| t.to_set().contains(x) ==> exists|k: int|
                0 <= k < t.len() && t[k] == x);
        }
    }
    vstd::set_lib::lemma_int_range(0, bound);
    vstd::set_lib::lemma_len_subset(t.to_set(), range);
}

/// Under a step-closed labeling, a label is constant along a forward orbit.
proof fn lemma_label_along_orbit(
    g: Seq<Connection>,
    w: int,
    h: int,
    cmap: Seq<usize>,
    i: int,
    t: int,
    n: nat,
)
    requires
        labels_step_closed(g, w, h, cmap),
        0 <= i < cmap.len(),
        cmap[i] != 0,
        iter_step(g, w, h, i, n) == Option::Some(t),
    ensures
        0 <= t < cmap.len(),
        cmap[t] == cmap[i],
    decreases n,
{
    if n == 0 {
    } else {
        let prev = iter_step(g, w, h, i, (n - 1) as nat);
        match prev {
            Option::Some(j) => {
                lemma_label_along_orbit(g, w, h, cmap, i, j, (n - 1) as nat);
                assert(step_of(g, w, h, j) == Option::Some(t));
            },
            Option::None => {
                assert(false);
            },
        }
    }
}

/// The step a pixel takes, as executable code.
pub fn step_exec(genome: &Genome, width: usize, height: usize, i: usize) -> (r: Option<usize>)
    requires
        width >= 1,
        height >= 1,
        genome@.len() == width * height,
        width * height <= crate::genome::MAX_AREA,
        i < width * height,
    ensures
        match r {
            Option::Some(j) => j < width * height && step_of(
                genome@,
                width as int,
                height as int,
                i as int,
            ) == Option::Some(j as int),
            Option::None => step_of(genome@, width as int, height as int, i as int)
                == Option::None::<int>,
        },
{
    proof {
        lemma_step_in_bounds(genome@, width as int, height as int, i as int);
    }
    let row = i / width;
    let col = i % width;
    match genome[i] {
        Connection::Nowhere => Option::None,
        Connection::Up => if row > 0 {
            Option::Some(i - width)
        } else {
            Option::None
        },
        Connection::Down => if row < height - 1 {
            proof {
                assert(step_of(genome@, width as int, height as int, i as int) == Option::Some(
                    i as int + width as int,
                ));
            }
            Option::Some(i + width)
        } else {
            Option::None
        },
        Connection::Left => if col > 0 {
            Option::Some(i - 1)
        } else {
            Option::None
        },
        Connection::Right => if col < width - 1 {
            proof {
                assert(step_of(genome@, width as int, height as int, i as int) == Option::Some(
                    i as int + 1,
                ));
            }
            Option::Some(i + 1)
        } else {
            Option::None
        },
    }
}

/// Whether `x` occurs in `v`.
pub(crate) fn vec_contains(v: &Vec<usize>, x: usize) -> (r: bool)
    ensures
        r == v@.contains(x),
{
    let mut k: usize = 0;
    while k < v.len()
        invariant
            k <= v@.len(),
            forall|m: int| 0 <= m < k ==> v@[m] != x,
        decreases v@.len() - k,
    {
        if v[k] == x {
            assert(v@.contains(x));
            return true;
        }
        k += 1;
    }
    assert(!v@.contains(x));
    false
}


/// A duplicate-free sequence of nonnegative pixel indices below `bound`
/// has at most `bound` entries.
proof fn lemma_distinct_bounded_len_i64(s: Seq<i64>, bound: int)
    requires
        s.no_duplicates(),
        forall|k: int| 0 <= k < s.len() ==> 0 <= #[trigger] s[k] < bound,
        bound >= 0,
    ensures
        s.len() <= bound,
{
    let t = s.map_values(|v: i64| v as int);
    assert(t.no_duplicates()) by {
        assert(forall|i: int, j: int| 0 <= i < j < t.len() ==> t[i] != t[j]);
    }
    t.unique_seq_to_set();
    let range = vstd::set_lib::set_int_range(0, bound);
    assert(t.to_set().subset_of(range)) by {
        assert(forall|x: int| t.to_set().contains(x) ==> #[trigger] range.contains(x)) by {
            assert(forall|x: int| t.to_set().contains(x) ==> exists|k: int|
                0 <= k < t.len() && t[k] == x);
        }
    }
    vstd::set_lib::lemma_int_range(0, bound);
    vstd::set_lib::lemma_len_subset(t.to_set(), range);
}

/// Whether `x` occurs in `v`.
fn vec_contains_i64(v: &Vec<i64>, x: i64) -> (r: bool)
    ensures
        r == v@.contains(x),
{
    let mut k: usize = 0;
    while k < v.len()
        invariant
            k <= v@.len(),
            forall|m: int| 0 <= m < k ==> v@[m] != x,
        decreases v@.len() - k,
    {
        if v[k] == x {
            assert(v@.contains(x));
            return true;
        }
        k += 1;
    }
    assert(!v@.contains(x));
    false
}

/// Follow the direction chain from one pixel, collecting the pixels
/// visited, until a terminal, an already labeled pixel, or a pixel
/// already seen.  The visited pixels are appended to `seen_pixels`; a
/// start pixel that was already seen yields an empty chain.
pub fn get_connected_pixels_for_pixel(
    genome: &Genome,
    index: i64,
    width: i64,
    seen_pixels: &mut Vec<i64>,
    cluster_map: &Vec<Vec<usize>>,
) -> (r: Vec<i64>)
    requires
        width >= 1,
        genome@.len() >= width,
        genome@.len() <= crate::genome::MAX_AREA,
        genome@.len() == width * (genome@.len() as int / (width as int)),
        0 <= index < genome@.len(),
        cluster_map@.len() == genome@.len() as int / (width as int),
        forall|row: int|
            0 <= row < cluster_map@.len() ==> (#[trigger] cluster_map@[row])@.len() == width,
    ensures
        old(seen_pixels)@.contains(index) ==> {
            &&& r@ == Seq::<i64>::empty()
            &&& final(seen_pixels)@ == old(seen_pixels)@
        },
        !old(seen_pixels)@.contains(index) ==> {
            &&& r@.len() >= 1
            &&& r@[0] == index
            &&& r@.no_duplicates()
            &&& forall|m: int| 0 <= m < r@.len() ==> 0 <= #[trigger] r@[m] < genome@.len()
            &&& forall|m: int|
                0 <= m < r@.len() - 1 ==> step_of(
                    genome@,
                    width as int,
                    genome@.len() as int / (width as int),
                    #[trigger] r@[m] as int,
                ) == Option::Some(r@[m + 1] as int)
            &&& forall|m: int|
                0 <= m < r@.len() - 1 ==> cluster_map@[(#[trigger] r@[m]) as int / (width as int)]@[
                    r@[m] as int % (width as int)] == 0
            &&& ({
                let last = r@[r@.len() - 1] as int;
                ||| cluster_map@[last / (width as int)]@[last % (width as int)] != 0
                ||| step_of(
                    genome@,
                    width as int,
                    genome@.len() as int / (width as int),
                    last,
                ) is None
                ||| (step_of(
                    genome@,
                    width as int,
                    genome@.len() as int / (width as int),
                    last,
                ) matches Option::Some(q) && final(seen_pixels)@.contains(q as i64))
            })
            &&& final(seen_pixels)@ == old(seen_pixels)@ + r@
        },
{
    let ghost g = genome@;
    let ghost w = width as int;
    let ghost h = genome@.len() as int / (width as int);
    proof {
        assert(1 <= width <= genome@.len());
    }
    let height: usize = genome.len() / (width as usize);
    let wu: usize = width as usize;
    proof {
        assert(wu == width as int);
        assert(height as int == genome@.len() as int / (width as int));
        assert(wu * height == genome@.len());
        assert(height >= 1) by (nonlinear_arith)
            requires
                (wu as int) * (height as int) == genome@.len(),
                genome@.len() >= wu >= 1,
        ;
    }
    if vec_contains_i64(seen_pixels, index) {
        return Vec::new();
    }
    let ghost seen0 = seen_pixels@;
    let mut chain: Vec<i64> = Vec::new();
    chain.push(index);
    seen_pixels.push(index);
    loop
        invariant
            g == genome@,
            w == width as int,
            1 <= w <= g.len(),
            h == g.len() as int / w,
            wu == width as usize,
            wu * height == g.len(),
            height >= 1,
            h == height as int,
            g.len() <= crate::genome::MAX_AREA,
            cluster_map@.len() == h,
            forall|row: int|
                0 <= row < cluster_map@.len() ==> (#[trigger] cluster_map@[row])@.len() == w,
            chain@.len() >= 1,
            chain@[0] == index,
            chain@.no_duplicates(),
            forall|m: int| 0 <= m < chain@.len() ==> 0 <= #[trigger] chain@[m] < g.len(),
            forall|m: int|
                0 <= m < chain@.len() - 1 ==> step_of(g, w, h, #[trigger] chain@[m] as int)
                    == Option::Some(chain@[m + 1] as int),
            forall|m: int|
                0 <= m < chain@.len() - 1 ==> cluster_map@[(#[trigger] chain@[m]) as int / (width as int)]@[
                    chain@[m] as int % (width as int)] == 0,
            seen_pixels@ == seen0 + chain@,
        ensures
            chain@.len() >= 1,
            chain@[0] == index,
            chain@.no_duplicates(),
            forall|m: int| 0 <= m < chain@.len() ==> 0 <= #[trigger] chain@[m] < g.len(),
            forall|m: int|
                0 <= m < chain@.len() - 1 ==> step_of(g, w, h, #[trigger] chain@[m] as int)
                    == Option::Some(chain@[m + 1] as int),
            forall|m: int|
                0 <= m < chain@.len() - 1 ==> cluster_map@[(#[trigger] chain@[m]) as int / (width as int)]@[
                    chain@[m] as int % (width as int)] == 0,
            ({
                let last = chain@[chain@.len() - 1] as int;
                ||| cluster_map@[last / w]@[last % w] != 0
                ||| step_of(g, w, h, last) is None
                ||| (step_of(g, w, h, last) matches Option::Some(q) && seen_pixels@.contains(
                    q as i64,
                ))
            }),
            seen_pixels@ == seen0 + chain@,
        decreases g.len() + 1 - chain@.len(),
    {
        proof {
            lemma_distinct_bounded_len_i64(chain@, g.len() as int);
        }
        let cur: i64 = chain[chain.len() - 1];
        let row: usize = (cur as usize) / wu;
        let col: usize = (cur as usize) % wu;
        proof {
            vstd::arithmetic::div_mod::lemma_fundamental_div_mod(cur as int, w);
            vstd::arithmetic::div_mod::lemma_mod_bound(cur as int, w);
            assert(row < height) by (nonlinear_arith)
                requires
                    cur as int == w * (row as int) + (col as int),
                    0 <= (col as int) < w,
                    0 <= cur as int,
                    (cur as int) < (w as int) * (height as int),
                    w >= 1,
                    height >= 1,
            ;
        }
        if cluster_map[row][col] != 0 {
            break;
        }
        match step_exec(genome, wu, height, cur as usize) {
            Option::None => {
                break;
            },
            Option::Some(nx) => {
                if vec_contains_i64(seen_pixels, nx as i64) {
                    break;
                }
                let ghost chain0 = chain@;
                let ghost seen1 = seen_pixels@;
                chain.push(nx as i64);
                seen_pixels.push(nx as i64);
                proof {
                    assert(seen_pixels@ =~= seen0 + chain@);
                    assert(!chain0.contains(nx as i64)) by {
                        assert(forall|m: int|
                            0 <= m < chain0.len() ==> seen1[seen0.len() + m] == #[trigger] chain0[m]);
                        if chain0.contains(nx as i64) {
                            let m = choose|m: int|
                                0 <= m < chain0.len() && chain0[m] == nx as i64;
                            assert(seen1[seen0.len() + m] == nx as i64);
                            assert(seen1.contains(nx as i64));
                        }
                    }
                }
            },
        }
    }
    proof {
        assert(!seen0.contains(index));
    }
    chain
}

/// Labeling one decoded path keeps every decoding invariant: labels still
/// propagate along the step function, equal labels still mean one region,
/// and every label below `next_id` is in use.
#[verifier::rlimit(100)]
proof fn lemma_label_path_ok(
    g: Seq<Connection>,
    w: int,
    h: int,
    area: int,
    old_cmap: Seq<usize>,
    cmap: Seq<usize>,
    pv: Seq<usize>,
    label: usize,
    hit_label: usize,
    old_next_id: usize,
    next_id: usize,
)
    requires
        w >= 1,
        h >= 1,
        g.len() == area == w * h,
        area <= usize::MAX,
        old_cmap.len() == area,
        cmap.len() == area,
        pv.len() >= 1,
        forall|m: int| 0 <= m < pv.len() ==> #[trigger] pv[m] < area,
        forall|m: int| 0 <= m < pv.len() ==> old_cmap[#[trigger] pv[m] as int] == 0,
        forall|m: int|
            0 <= m < pv.len() - 1 ==> step_of(g, w, h, #[trigger] pv[m] as int) == Option::Some(
                pv[m + 1] as int,
            ),
        pv.no_duplicates(),
        ({
            let last = pv[pv.len() - 1] as int;
            match step_of(g, w, h, last) {
                Option::None => hit_label == 0,
                Option::Some(q) => {
                    &&& 0 <= q < area
                    &&& if old_cmap[q] != 0 {
                        hit_label == old_cmap[q]
                    } else {
                        hit_label == 0 && pv.contains(q as usize)
                    }
                },
            }
        }),
        old_next_id >= 1,
        label == if hit_label != 0 { hit_label } else { old_next_id },
        next_id == if hit_label != 0 { old_next_id as int } else { old_next_id + 1 },
        forall|p: int| 0 <= p < area ==> #[trigger] old_cmap[p] < old_next_id,
        forall|id: int| 1 <= id < old_next_id ==> #[trigger] label_used(old_cmap, id),
        labels_step_closed(g, w, h, old_cmap),
        labels_sound(g, w, h, old_cmap),
        forall|p: int| 0 <= p < area && !pv.contains(p as usize) ==> #[trigger] cmap[p] == old_cmap[p],
        forall|t: int| 0 <= t < pv.len() ==> cmap[#[trigger] pv[t] as int] == label,
    ensures
        labels_step_closed(g, w, h, cmap),
        labels_sound(g, w, h, cmap),
        forall|p: int| 0 <= p < area ==> #[trigger] cmap[p] < next_id,
        forall|id: int| 1 <= id < next_id ==> #[trigger] label_used(cmap, id),
        forall|p: int| 0 <= p < area && old_cmap[p] != 0 ==> #[trigger] cmap[p] == old_cmap[p],
        cmap[pv[0] as int] == label,
        label != 0,
{
    let n = pv.len() as int;
    assert(forall|p: int|
        0 <= p < area && old_cmap[p] != 0 ==> #[trigger] cmap[p] == old_cmap[p]) by {
        assert(forall|p: int|
            0 <= p < area && pv.contains(p as usize) ==> #[trigger] old_cmap[p] == 0) by {
            assert(forall|p: int| pv.contains(#[trigger] (p as usize)) ==> exists|t: int|
                0 <= t < n && pv[t] == p as usize);
        }
    }
    // Path pixels reach every later path pixel.
    assert(forall|a: int, b: int|
        0 <= a <= b < n ==> reaches(g, w, h, pv[a] as int, pv[b] as int)) by {
        assert forall|a: int, b: int| 0 <= a <= b < n implies reaches(
            g,
            w,
            h,
            pv[a] as int,
            pv[b] as int,
        ) by {
            lemma_path_reaches(g, w, h, pv, a, b);
        }
    }
    let last = pv[n - 1] as int;
    // Labels still propagate one step.
    assert forall|p: int|
        0 <= p < area && cmap[p] != 0 implies match #[trigger] step_of(g, w, h, p) {
        Option::Some(q) => 0 <= q < cmap.len() && cmap[q] == cmap[p],
        Option::None => true,
    } by {
        if pv.contains(p as usize) {
            let t = choose|t: int| 0 <= t < n && pv[t] == p as usize;
            assert(pv[t] as int == p);
            if t < n - 1 {
                assert(step_of(g, w, h, pv[t] as int) == Option::Some(pv[t + 1] as int));
                assert(step_of(g, w, h, p) == Option::Some(pv[t + 1] as int));
                assert(cmap[pv[t + 1] as int] == label);
            } else {
                match step_of(g, w, h, last) {
                    Option::None => {},
                    Option::Some(q) => {
                        if old_cmap[q] != 0 {
                            assert(cmap[q] == old_cmap[q]);
                        } else {
                            assert(pv.contains(q as usize));
                            let u = choose|u: int| 0 <= u < n && pv[u] == q as usize;
                            assert(cmap[pv[u] as int] == label);
                        }
                    },
                }
            }
        } else {
            assert(cmap[p] == old_cmap[p]);
            match step_of(g, w, h, p) {
                Option::None => {},
                Option::Some(q) => {
                    assert(old_cmap[q] == old_cmap[p] && 0 <= q < area);
                    assert(old_cmap[q] != 0);
                    assert(cmap[q] == old_cmap[q]);
                },
            }
        }
    }
    // Equal labels still mean one region.
    assert forall|p: int, q: int|
        0 <= p < area && 0 <= q < area && #[trigger] cmap[p] == #[trigger] cmap[q]
            && cmap[p] != 0 implies same_region(g, w, h, p, q) by {
        let p_on = pv.contains(p as usize);
        let q_on = pv.contains(q as usize);
        if p_on {
            let t = choose|t: int| 0 <= t < n && pv[t] == p as usize;
            assert(cmap[p] == label);
        } else {
            assert(cmap[p] == old_cmap[p]);
        }
        if q_on {
            let u = choose|u: int| 0 <= u < n && pv[u] == q as usize;
            assert(cmap[q] == label);
        } else {
            assert(cmap[q] == old_cmap[q]);
        }
        if p_on && q_on {
            let t = choose|t: int| 0 <= t < n && pv[t] == p as usize;
            let u = choose|u: int| 0 <= u < n && pv[u] == q as usize;
            if t <= u {
                assert(reaches(g, w, h, p, q));
                assert(iter_step(g, w, h, q, 0) == Option::Some(q));
                assert(reaches(g, w, h, q, q));
                assert(same_region(g, w, h, p, q));
            } else {
                assert(reaches(g, w, h, q, p));
                assert(iter_step(g, w, h, p, 0) == Option::Some(p));
                assert(reaches(g, w, h, p, p));
                assert(same_region(g, w, h, p, q));
            }
        } else if !p_on && !q_on {
            assert(same_region(g, w, h, p, q));
        } else {
            // One pixel lies on the freshly labeled path, the other carried
            // `label` before: only possible when the chain ran into an
            // already labeled pixel.
            let on_ix = if p_on { p } else { q };
            let off_ix = if p_on { q } else { p };
            assert(pv.contains(on_ix as usize));
            assert(old_cmap[off_ix] == label && label != 0);
            assert(hit_label != 0) by {
                if hit_label == 0 {
                    assert(label == old_next_id);
                    assert(old_cmap[off_ix] < old_next_id);
                }
            }
            let hq = step_of(g, w, h, last);
            match hq {
                Option::None => {
                    assert(false);
                },
                Option::Some(hqi) => {
                    assert(old_cmap[hqi] == label);
                    let t = choose|t: int| 0 <= t < n && pv[t] == on_ix as usize;
                    assert(reaches(g, w, h, on_ix, last));
                    assert(iter_step(g, w, h, last, 1) == Option::Some(hqi)) by {
                        assert(iter_step(g, w, h, last, 0) == Option::Some(last));
                    }
                    assert(reaches(g, w, h, last, hqi));
                    lemma_reaches_trans(g, w, h, on_ix, last, hqi);
                    assert(iter_step(g, w, h, hqi, 0) == Option::Some(hqi));
                    assert(reaches(g, w, h, hqi, hqi));
                    assert(same_region(g, w, h, on_ix, hqi));
                    assert(same_region(g, w, h, hqi, off_ix));
                    lemma_same_region_trans(g, w, h, on_ix, hqi, off_ix);
                    if p_on {
                        assert(same_region(g, w, h, p, q));
                    } else {
                        crate::genome::lemma_same_region_sym(g, w, h, on_ix, off_ix);
                        assert(same_region(g, w, h, p, q));
                    }
                },
            }
        }
    }
    assert(cmap[pv[0] as int] == label && label != 0);
    assert forall|id: int| 1 <= id < next_id implies label_used(cmap, id) by {
        if id < old_next_id {
            assert(label_used(old_cmap, id));
            let p = choose|p: int| 0 <= p < old_cmap.len() && old_cmap[p] == id;
            assert(cmap[p] == old_cmap[p]);
            assert(label_used(cmap, id));
        } else {
            assert(id == label);
            assert(cmap[pv[0] as int] == id);
            assert(label_used(cmap, id));
        }
    }
}

/// Decode a genome into a label map.
///
/// Returns the flat row-major label map together with the number of regions.
/// The map satisfies [`decoded_ok`]: in particular two pixels receive equal
/// labels exactly when their direction chains meet, so decoding the same
/// genome again yields the same partition of pixels into regions.
#[verifier::rlimit(100)]
pub fn decode_genome(genome: &Genome, width: usize, height: usize) -> (res: (Vec<usize>, usize))
    requires
        width >= 1,
        height >= 1,
        genome@.len() == width * height,
        width * height <= crate::genome::MAX_AREA,
    ensures
        decoded_ok(genome@, width as int, height as int, res.0@, res.1),
        res.1 <= res.0@.len(),
{
    let ghost g = genome@;
    let ghost w = width as int;
    let ghost h = height as int;
    let area: usize = genome.len();
    let mut cmap: Vec<usize> = Vec::new();
    let mut k: usize = 0;
    while k < area
        invariant
            cmap@.len() == k <= area,
            forall|m: int| 0 <= m < k ==> cmap@[m] == 0,
        decreases area - k,
    {
        cmap.push(0);
        k += 1;
    }
    let mut next_id: usize = 1;
    let mut s: usize = 0;
    while s < area
        invariant
            genome@ == g,
            g.len() == area == width * height,
            w == width as int,
            h == height as int,
            width >= 1,
            height >= 1,
            s <= area,
            area <= crate::genome::MAX_AREA,
            cmap@.len() == area,
            1 <= next_id <= s + 1,
            forall|p: int| 0 <= p < s ==> #[trigger] cmap@[p] != 0,
            forall|p: int| 0 <= p < area ==> #[trigger] cmap@[p] < next_id,
            forall|id: int| 1 <= id < next_id ==> #[trigger] label_used(cmap@, id),
            labels_step_closed(g, w, h, cmap@),
            labels_sound(g, w, h, cmap@),
        decreases area - s,
    {
        if cmap[s] != 0 {
            s += 1;
            continue;
        }
        // Follow the direction chain, collecting the unlabeled path.
        let mut path: Vec<usize> = Vec::new();
        path.push(s);
        // 0 = terminal or cycle guard hit (fresh label); otherwise the label
        // of the already labeled pixel the chain ran into.
        let mut hit_label: usize = 0;
        loop
            invariant_except_break
                hit_label == 0,
            invariant
                genome@ == g,
                g.len() == area == width * height,
                area <= crate::genome::MAX_AREA,
                w == width as int,
                h == height as int,
                width >= 1,
                height >= 1,
                cmap@.len() == area,
                path@.len() >= 1,
                path@[0] == s,
                forall|m: int| 0 <= m < path@.len() ==> #[trigger] path@[m] < area,
                forall|m: int| 0 <= m < path@.len() ==> cmap@[#[trigger] path@[m] as int] == 0,
                forall|m: int|
                    0 <= m < path@.len() - 1 ==> step_of(g, w, h, #[trigger] path@[m] as int)
                        == Option::Some(path@[m + 1] as int),
                path@.no_duplicates(),
            ensures
                path@.len() >= 1,
                path@[0] == s,
                forall|m: int| 0 <= m < path@.len() ==> #[trigger] path@[m] < area,
                forall|m: int| 0 <= m < path@.len() ==> cmap@[#[trigger] path@[m] as int] == 0,
                forall|m: int|
                    0 <= m < path@.len() - 1 ==> step_of(g, w, h, #[trigger] path@[m] as int)
                        == Option::Some(path@[m + 1] as int),
                path@.no_duplicates(),
                ({
                    let last = path@[path@.len() - 1] as int;
                    match step_of(g, w, h, last) {
                        Option::None => hit_label == 0,
                        Option::Some(q) => {
                            &&& 0 <= q < area
                            &&& if cmap@[q] != 0 {
                                hit_label == cmap@[q]
                            } else {
                                hit_label == 0 && path@.contains(q as usize)
                            }
                        },
                    }
                }),
            decreases area + 1 - path@.len(),
        {
            proof {
                lemma_distinct_bounded_len(path@, area as int);
            }
            let cur = path[path.len() - 1];
            match step_exec(genome, width, height, cur) {
                Option::None => {
                    break;
                },
                Option::Some(nx) => {
                    if cmap[nx] != 0 {
                        hit_label = cmap[nx];
                        break;
                    }
                    if vec_contains(&path, nx) {
                        break;
                    }
                    path.push(nx);
                },
            }
        }
        // Pick the label for the whole path.
        let label: usize;
        let ghost old_cmap = cmap@;
        let ghost old_next_id = next_id;
        if hit_label != 0 {
            label = hit_label;
        } else {
            label = next_id;
            next_id += 1;
        }
        proof {
            lemma_distinct_bounded_len(path@, area as int);
        }
        // Write it to every pixel on the path.
        let mut m: usize = 0;
        while m < path.len()
            invariant
                cmap@.len() == area,
                m <= path@.len(),
                forall|t: int| 0 <= t < path@.len() ==> #[trigger] path@[t] < area,
                forall|p: int|
                    0 <= p < area && !path@.take(m as int).contains(p as usize)
                        ==> #[trigger] cmap@[p] == old_cmap[p],
                forall|t: int| 0 <= t < m ==> cmap@[#[trigger] path@[t] as int] == label,
            decreases path@.len() - m,
        {
            let p = path[m];
            cmap.set(p, label);
            proof {
                assert(path@.take(m + 1)[m as int] == path@[m as int]);
                assert(path@.take(m + 1).contains(path@[m as int]));
                assert(forall|p2: int|
                    0 <= p2 < area && !path@.take(m + 1).contains(#[trigger] (p2 as usize)) ==> {
                        &&& !path@.take(m as int).contains(p2 as usize)
                        &&& p2 != path@[m as int] as int
                    }) by {
                    assert(forall|p2: usize, t: int|
                        0 <= t <= m && #[trigger] path@.take(t).contains(p2) ==> path@.take(
                            m + 1,
                        ).contains(p2)) by {
                        assert(forall|p2: usize, t: int|
                            0 <= t <= m && #[trigger] path@.take(t).contains(p2)
                                ==> exists|u: int| 0 <= u < t && path@.take(t)[u] == p2);
                        assert(forall|u: int, t: int|
                            0 <= u < t <= m + 1 ==> #[trigger] path@.take(t)[u] == path@.take(
                                m + 1,
                            )[u]);
                    }
                }
            }
            m += 1;
        }
        proof {
            let pv = path@;
            let n = pv.len() as int;
            assert(pv.take(n) =~= pv);
            assert(forall|p: int|
                0 <= p < area && !pv.contains(p as usize) ==> #[trigger] cmap@[p] == old_cmap[p]);
            assert(forall|t: int| 0 <= t < n ==> cmap@[#[trigger] pv[t] as int] == label);
            lemma_label_path_ok(
                g,
                w,
                h,
                area as int,
                old_cmap,
                cmap@,
                pv,
                label,
                hit_label,
                old_next_id,
                next_id,
            );
        }
        s += 1;
    }
    let nclusters: usize = next_id - 1;
    proof {
        // All pixels labeled, labels in 1..=nclusters, every label occurs.
        assert(forall|i: int| 0 <= i < area ==> 1 <= #[trigger] cmap@[i] <= nclusters);
        // Equal labels already imply one region; the converse follows from
        // label propagation along both orbits.
        assert forall|i: int, j: int|
            0 <= i < area && 0 <= j < area && same_region(g, w, h, i, j) implies #[trigger] cmap@[i]
            == #[trigger] cmap@[j] by {
            let t = choose|t: int| reaches(g, w, h, i, t) && reaches(g, w, h, j, t);
            let nitrip = choose|m: nat| iter_step(g, w, h, i, m) == Option::Some(t);
            let njtrip = choose|m: nat| iter_step(g, w, h, j, m) == Option::Some(t);
            lemma_label_along_orbit(g, w, h, cmap@, i, t, nitrip);
            lemma_label_along_orbit(g, w, h, cmap@, j, t, njtrip);
        }
    }
    (cmap, nclusters)
}

/// Consecutive path entries are joined by the step function, so earlier
/// entries reach later ones.
proof fn lemma_path_reaches(g: Seq<Connection>, w: int, h: int, pv: Seq<usize>, a: int, b: int)
    requires
        0 <= a <= b < pv.len(),
        forall|m: int|
            0 <= m < pv.len() - 1 ==> step_of(g, w, h, #[trigger] pv[m] as int) == Option::Some(
                pv[m + 1] as int,
            ),
    ensures
        reaches(g, w, h, pv[a] as int, pv[b] as int),
    decreases b - a,
{
    if a == b {
        assert(iter_step(g, w, h, pv[a] as int, 0) == Option::Some(pv[a] as int));
    } else {
        lemma_path_reaches(g, w, h, pv, a, b - 1);
        let m = choose|m: nat| iter_step(g, w, h, pv[a] as int, m) == Option::Some(pv[b - 1] as int);
        lemma_iter_step_add(g, w, h, pv[a] as int, m, 1);
        assert(iter_step(g, w, h, pv[b - 1] as int, 1) == Option::Some(pv[b] as int)) by {
            assert(iter_step(g, w, h, pv[b - 1] as int, 0) == Option::Some(pv[b - 1] as int));
            assert(step_of(g, w, h, pv[b - 1] as int) == Option::Some(pv[b] as int));
        }
        assert(iter_step(g, w, h, pv[a] as int, m + 1) == Option::Some(pv[b] as int));
    }
}

} // verus!
