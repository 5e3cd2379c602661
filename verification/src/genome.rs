//! The per-pixel direction genome and its grid geometry.
//!
//! A genome holds one direction symbol per pixel, indexed row-major by
//! `row * width + column`.  A pixel pointing at an in-bounds neighbor joins
//! that neighbor's region; a pixel whose direction is `Nowhere` or points
//! outside the image is a region terminal.

use vstd::prelude::*;

verus! {

/// The direction a pixel points to, joining that neighbor's region.
#[derive(Clone, Copy, Debug, PartialEq, Eq, Structural)]
pub enum Connection {
    Nowhere,
    Up,
    Down,
    Left,
    Right,
}

/// A genome: one direction per pixel, row-major.
pub type Genome = Vec<Connection>;

/// The largest pixel count a `GlobalData` image may have.  Keeps every
/// fixed-point objective accumulation inside `u64`.
pub const MAX_AREA: usize = 4000000;

/// The pixel that `i` points to under `g`, or `None` when the gene is
/// `Connection::Nowhere` or points outside the `w` by `h` image.
pub open spec fn step_of(g: Seq<Connection>, w: int, h: int, i: int) -> Option<int> {
    match g[i] {
        Connection::Nowhere => Option::None,
        Connection::Up => if i / w > 0 { Option::Some(i - w) } else { Option::None },
        Connection::Down => if i / w < h - 1 { Option::Some(i + w) } else { Option::None },
        Connection::Left => if i % w > 0 { Option::Some(i - 1) } else { Option::None },
        Connection::Right => if i % w < w - 1 { Option::Some(i + 1) } else { Option::None },
    }
}

/// The pixel reached from `i` after `n` steps of the direction graph, or
/// `None` when a terminal is met earlier.
pub open spec fn iter_step(g: Seq<Connection>, w: int, h: int, i: int, n: nat) -> Option<int>
    decreases n,
{
    if n == 0 {
        Option::Some(i)
    } else {
        match iter_step(g, w, h, i, (n - 1) as nat) {
            Option::None => Option::None,
            Option::Some(j) => step_of(g, w, h, j),
        }
    }
}

/// Pixel `j` lies on the forward orbit of pixel `i`.
pub open spec fn reaches(g: Seq<Connection>, w: int, h: int, i: int, j: int) -> bool {
    exists|n: nat| iter_step(g, w, h, i, n) == Option::Some(j)
}

/// Pixels `i` and `j` belong to one region: their forward orbits meet.
pub open spec fn same_region(g: Seq<Connection>, w: int, h: int, i: int, j: int) -> bool {
    exists|t: int| reaches(g, w, h, i, t) && reaches(g, w, h, j, t)
}

/// Direction `d` does not point outside the `w` by `h` image when taken
/// from pixel `i`.
pub open spec fn points_inside(w: int, h: int, i: int, d: Connection) -> bool {
    match d {
        Connection::Nowhere => true,
        Connection::Up => i / w > 0,
        Connection::Down => i / w < h - 1,
        Connection::Left => i % w > 0,
        Connection::Right => i % w < w - 1,
    }
}

/// The in-bounds pixel a direction points at from `i`, if any.
pub open spec fn direction_target(w: int, h: int, i: int, d: Connection) -> Option<int> {
    match d {
        Connection::Nowhere => Option::None,
        Connection::Up => neighbor_of(w, h, i, 0, -1),
        Connection::Down => neighbor_of(w, h, i, 0, 1),
        Connection::Left => neighbor_of(w, h, i, -1, 0),
        Connection::Right => neighbor_of(w, h, i, 1, 0),
    }
}

/// A direction's target, when it exists, lies inside the image.
pub proof fn lemma_direction_target_in_bounds(w: int, h: int, i: int, d: Connection)
    requires
        w >= 1,
        h >= 1,
        0 <= i < w * h,
    ensures
        match direction_target(w, h, i, d) {
            Option::Some(t) => 0 <= t < w * h,
            Option::None => true,
        },
{
    let row = i / w;
    let col = i % w;
    vstd::arithmetic::div_mod::lemma_fundamental_div_mod(i, w);
    vstd::arithmetic::div_mod::lemma_mod_bound(i, w);
    assert(0 <= row < h) by (nonlinear_arith)
        requires
            i == w * row + col,
            0 <= col < w,
            0 <= i < w * h,
            w >= 1,
            h >= 1,
    ;
    match direction_target(w, h, i, d) {
        Option::Some(t) => {
            match d {
                Connection::Nowhere => {},
                Connection::Up => {
                    assert(0 <= t < w * h) by (nonlinear_arith)
                        requires
                            t == (row - 1) * w + col,
                            0 <= row - 1 < h,
                            0 <= col < w,
                            w >= 1,
                    ;
                },
                Connection::Down => {
                    assert(0 <= t < w * h) by (nonlinear_arith)
                        requires
                            t == (row + 1) * w + col,
                            0 <= row + 1 < h,
                            0 <= col < w,
                            w >= 1,
                    ;
                },
                Connection::Left => {
                    assert(0 <= t < w * h) by (nonlinear_arith)
                        requires
                            t == row * w + (col - 1),
                            0 <= row < h,
                            0 <= col - 1 < w,
                            w >= 1,
                    ;
                },
                Connection::Right => {
                    assert(0 <= t < w * h) by (nonlinear_arith)
                        requires
                            t == row * w + (col + 1),
                            0 <= row < h,
                            0 <= col + 1 < w,
                            w >= 1,
                    ;
                },
            }
        },
        Option::None => {},
    }
}

/// The neighbor of pixel `i` at relative offset `(dx, dy)`, or `None` when
/// it lies outside the `w` by `h` image.
pub open spec fn neighbor_of(w: int, h: int, i: int, dx: int, dy: int) -> Option<int> {
    let row = i / w;
    let col = i % w;
    if 0 <= row + dy < h && 0 <= col + dx < w {
        Option::Some((row + dy) * w + (col + dx))
    } else {
        Option::None
    }
}

/// The neighbor of pixel `i` at relative offset `(dx, dy)`, as executable
/// code.
pub fn neighbor_index(width: usize, height: usize, i: usize, dx: i32, dy: i32) -> (r: Option<
    usize,
>)
    requires
        width >= 1,
        height >= 1,
        width * height <= MAX_AREA,
        i < width * height,
        -3 <= dx <= 3,
        -3 <= dy <= 3,
    ensures
        match r {
            Option::Some(nb) => nb < width * height && neighbor_of(
                width as int,
                height as int,
                i as int,
                dx as int,
                dy as int,
            ) == Option::Some(nb as int),
            Option::None => neighbor_of(width as int, height as int, i as int, dx as int, dy as int)
                == Option::None::<int>,
        },
{
    proof {
        assert(width <= MAX_AREA && height <= MAX_AREA) by (nonlinear_arith)
            requires
                width * height <= MAX_AREA,
                width >= 1,
                height >= 1,
        ;
    }
    let w = width as i64;
    let h = height as i64;
    let row: i64 = (i as i64) / w;
    let col: i64 = (i as i64) % w;
    proof {
        vstd::arithmetic::div_mod::lemma_fundamental_div_mod(i as int, w as int);
        vstd::arithmetic::div_mod::lemma_mod_bound(i as int, w as int);
        assert(0 <= row < h) by (nonlinear_arith)
            requires
                i as int == (w as int) * (row as int) + (col as int),
                0 <= (col as int) < w as int,
                0 <= (i as int) < (w as int) * (h as int),
                w >= 1,
                h >= 1,
        ;
    }
    let nrow: i64 = row + dy as i64;
    let ncol: i64 = col + dx as i64;
    if 0 <= nrow && nrow < h && 0 <= ncol && ncol < w {
        proof {
            assert((nrow as int) * (w as int) + (ncol as int) < (w as int) * (h as int))
                by (nonlinear_arith)
                requires
                    0 <= (nrow as int) < h as int,
                    0 <= (ncol as int) < w as int,
                    w >= 1,
            ;
        }
        Option::Some((nrow * w + ncol) as usize)
    } else {
        Option::None
    }
}

/// The step a pixel takes is the in-bounds target of its own gene.
pub proof fn lemma_step_is_direction_target(g: Seq<Connection>, w: int, h: int, i: int)
    requires
        w >= 1,
        h >= 1,
        0 <= i < w * h,
        g.len() == w * h,
    ensures
        step_of(g, w, h, i) == direction_target(w, h, i, g[i]),
{
    let row = i / w;
    let col = i % w;
    vstd::arithmetic::div_mod::lemma_fundamental_div_mod(i, w);
    vstd::arithmetic::div_mod::lemma_mod_bound(i, w);
    assert(0 <= row < h) by (nonlinear_arith)
        requires
            i == w * row + col,
            0 <= col < w,
            0 <= i < w * h,
            w >= 1,
            h >= 1,
    ;
    assert((row - 1) * w + col == i - w && (row + 1) * w + col == i + w) by (nonlinear_arith)
        requires
            i == w * row + col,
    ;
    assert(row * w + (col - 1) == i - 1 && row * w + (col + 1) == i + 1) by (nonlinear_arith)
        requires
            i == w * row + col,
    ;
}

/// Splitting an orbit walk: `m + n` steps from `i` reach what `n` steps
/// reach from the pixel `m` steps away.
pub proof fn lemma_iter_step_add(g: Seq<Connection>, w: int, h: int, i: int, m: nat, n: nat)
    ensures
        iter_step(g, w, h, i, m + n) == match iter_step(g, w, h, i, m) {
            Option::None => Option::None::<int>,
            Option::Some(j) => iter_step(g, w, h, j, n),
        },
    decreases n,
{
    if n == 0 {
    } else {
        lemma_iter_step_add(g, w, h, i, m, (n - 1) as nat);
        assert(m + n == (m + n - 1) + 1);
        assert(iter_step(g, w, h, i, m + n) == match iter_step(g, w, h, i, (m + n - 1) as nat) {
            Option::None => Option::None::<int>,
            Option::Some(j) => step_of(g, w, h, j),
        });
    }
}

/// Reachability along the direction graph is transitive.
pub proof fn lemma_reaches_trans(g: Seq<Connection>, w: int, h: int, a: int, b: int, c: int)
    requires
        reaches(g, w, h, a, b),
        reaches(g, w, h, b, c),
    ensures
        reaches(g, w, h, a, c),
{
    let m = choose|m: nat| iter_step(g, w, h, a, m) == Option::Some(b);
    let n = choose|n: nat| iter_step(g, w, h, b, n) == Option::Some(c);
    lemma_iter_step_add(g, w, h, a, m, n);
    assert(iter_step(g, w, h, a, m + n) == Option::Some(c));
}

/// Two orbit points of one pixel lie on one line: one reaches the other.
pub proof fn lemma_orbit_linear(g: Seq<Connection>, w: int, h: int, b: int, t1: int, t2: int)
    requires
        reaches(g, w, h, b, t1),
        reaches(g, w, h, b, t2),
    ensures
        reaches(g, w, h, t1, t2) || reaches(g, w, h, t2, t1),
{
    let n1 = choose|n: nat| iter_step(g, w, h, b, n) == Option::Some(t1);
    let n2 = choose|n: nat| iter_step(g, w, h, b, n) == Option::Some(t2);
    if n1 <= n2 {
        lemma_iter_step_add(g, w, h, b, n1, (n2 - n1) as nat);
        assert(iter_step(g, w, h, t1, (n2 - n1) as nat) == Option::Some(t2));
    } else {
        lemma_iter_step_add(g, w, h, b, n2, (n1 - n2) as nat);
        assert(iter_step(g, w, h, t2, (n1 - n2) as nat) == Option::Some(t1));
    }
}

/// A terminal pixel's orbit is itself alone: after any positive number of
/// steps there is nothing.
pub proof fn lemma_terminal_orbit(g: Seq<Connection>, w: int, h: int, t: int, n: nat)
    requires
        step_of(g, w, h, t) is None,
    ensures
        n == 0 ==> iter_step(g, w, h, t, n) == Option::Some(t),
        n >= 1 ==> iter_step(g, w, h, t, n) is None,
    decreases n,
{
    if n >= 1 {
        lemma_terminal_orbit(g, w, h, t, (n - 1) as nat);
    }
}

/// A region holds at most one terminal pixel.
pub proof fn lemma_terminal_unique(g: Seq<Connection>, w: int, h: int, t1: int, t2: int)
    requires
        step_of(g, w, h, t1) is None,
        step_of(g, w, h, t2) is None,
        same_region(g, w, h, t1, t2),
    ensures
        t1 == t2,
{
    let u = choose|u: int| reaches(g, w, h, t1, u) && reaches(g, w, h, t2, u);
    let n1 = choose|n: nat| iter_step(g, w, h, t1, n) == Option::Some(u);
    let n2 = choose|n: nat| iter_step(g, w, h, t2, n) == Option::Some(u);
    lemma_terminal_orbit(g, w, h, t1, n1);
    lemma_terminal_orbit(g, w, h, t2, n2);
}

/// An orbit that repeats a pixel is periodic and never dies, so nothing
/// on it is a terminal pixel.
pub proof fn lemma_orbit_repeat_excludes_terminal(
    g: Seq<Connection>,
    w: int,
    h: int,
    x: int,
    a: nat,
    b: nat,
    nt: nat,
    t: int,
)
    requires
        a < b,
        iter_step(g, w, h, x, a) == iter_step(g, w, h, x, b),
        iter_step(g, w, h, x, a) is Some,
        iter_step(g, w, h, x, nt) == Option::Some(t),
    ensures
        !(step_of(g, w, h, t) is None),
{
    if step_of(g, w, h, t) is None {
        let v = iter_step(g, w, h, x, a)->Some_0;
        if nt <= a {
            // the orbit passes the terminal and then must be dead at `b`
            lemma_iter_step_add(g, w, h, x, nt, (b - nt) as nat);
            lemma_terminal_orbit(g, w, h, t, (b - nt) as nat);
            assert(b - nt >= 1);
            assert(iter_step(g, w, h, x, b) is None);
        } else {
            // shift the repeat one period toward the terminal
            lemma_iter_step_add(g, w, h, x, a, (nt - a) as nat);
            lemma_iter_step_add(g, w, h, x, b, (nt - a) as nat);
            assert(iter_step(g, w, h, v, (nt - a) as nat) == Option::Some(t));
            assert(iter_step(g, w, h, x, (b + nt - a) as nat) == Option::Some(t));
            lemma_iter_step_add(g, w, h, x, nt, (b - a) as nat);
            lemma_terminal_orbit(g, w, h, t, (b - a) as nat);
            assert(b - a >= 1);
            assert(iter_step(g, w, h, x, (nt + b - a) as nat) is None);
            assert((nt + b - a) as nat == (b + nt - a) as nat);
        }
    }
}

/// Region membership is symmetric.
pub proof fn lemma_same_region_sym(g: Seq<Connection>, w: int, h: int, i: int, j: int)
    requires
        same_region(g, w, h, i, j),
    ensures
        same_region(g, w, h, j, i),
{
    let t = choose|t: int| reaches(g, w, h, i, t) && reaches(g, w, h, j, t);
    assert(reaches(g, w, h, j, t) && reaches(g, w, h, i, t));
}

/// Region membership is transitive: orbits that meet pairwise all meet.
pub proof fn lemma_same_region_trans(g: Seq<Connection>, w: int, h: int, a: int, b: int, c: int)
    requires
        same_region(g, w, h, a, b),
        same_region(g, w, h, b, c),
    ensures
        same_region(g, w, h, a, c),
{
    let t1 = choose|t: int| reaches(g, w, h, a, t) && reaches(g, w, h, b, t);
    let t2 = choose|t: int| reaches(g, w, h, b, t) && reaches(g, w, h, c, t);
    lemma_orbit_linear(g, w, h, b, t1, t2);
    if reaches(g, w, h, t1, t2) {
        lemma_reaches_trans(g, w, h, a, t1, t2);
        assert(reaches(g, w, h, a, t2) && reaches(g, w, h, c, t2));
    } else {
        lemma_reaches_trans(g, w, h, c, t2, t1);
        assert(reaches(g, w, h, a, t1) && reaches(g, w, h, c, t1));
    }
}

/// Every index the step function can produce stays inside the image.
pub proof fn lemma_step_in_bounds(g: Seq<Connection>, w: int, h: int, i: int)
    requires
        w >= 1,
        h >= 1,
        g.len() == w * h,
        0 <= i < w * h,
    ensures
        match step_of(g, w, h, i) {
            Option::Some(j) => 0 <= j < w * h,
            Option::None => true,
        },
{
    let r = i / w;
    let c = i % w;
    vstd::arithmetic::div_mod::lemma_fundamental_div_mod(i, w);
    vstd::arithmetic::div_mod::lemma_mod_bound(i, w);
    assert(0 <= r && r < h) by (nonlinear_arith)
        requires
            i == w * r + c,
            0 <= c < w,
            0 <= i < w * h,
            w >= 1,
            h >= 1,
    ;
    assert(r >= 1 ==> i - w >= 0) by (nonlinear_arith)
        requires
            i == w * r + c,
            0 <= c,
            w >= 1,
    ;
    assert(r < h - 1 ==> i + w < w * h) by (nonlinear_arith)
        requires
            i == w * r + c,
            c < w,
            w >= 1,
    ;
    assert(c >= 1 ==> i - 1 >= 0) by (nonlinear_arith)
        requires
            i == w * r + c,
            r >= 0,
            w >= 1,
    ;
    assert(c < w - 1 ==> i + 1 < w * h) by (nonlinear_arith)
        requires
            i == w * r + c,
            0 <= r < h,
            c < w,
            w >= 1,
    ;
}

} // verus!
