use vstd::prelude::*;
use vstd::arithmetic::div_mod::lemma_fundamental_div_mod_converse;
use vstd::set_lib::{lemma_int_range, lemma_len_subset, set_int_range};
use crate::field::{BorderPixels, Cell};
use crate::house::{House, colour_of, pick_colour};

verus! {

/// The two cells hold the same seed pair, in either order, or are both empty.
pub open spec fn same_pair(a: Cell, b: Cell) -> bool {
    match (a, b) {
        (Some(p), Some(q)) => p == q || (p.0 == q.1 && p.1 == q.0),
        _ => a == b,
    }
}

/// What the store of width `w` holds at `(x, y)`.
pub open spec fn cell_at(s: Seq<Cell>, w: int, x: int, y: int) -> Cell {
    s[y * w + x]
}

/// The neighbour of `(x, y)` in direction `d`: left, right, up, down.
pub open spec fn step(x: int, y: int, d: int) -> (int, int) {
    if d == 0 {
        (x - 1, y)
    } else if d == 1 {
        (x + 1, y)
    } else if d == 2 {
        (x, y - 1)
    } else {
        (x, y + 1)
    }
}

pub open spec fn in_grid(x: int, y: int, w: int, h: int) -> bool {
    0 <= x < w && 0 <= y < h
}

/// `(x, y)` is a cell with a pair, and every cell before it in the scan order
/// (column by column, each column from the top) is empty.
pub open spec fn is_first(s: Seq<Cell>, w: int, h: int, x: int, y: int) -> bool {
    &&& in_grid(x, y, w, h)
    &&& cell_at(s, w, x, y).is_some()
    &&& forall|a: int, b: int| in_grid(a, b, w, h) && (a < x || (a == x && b < y))
            ==> (#[trigger] cell_at(s, w, a, b)).is_none()
}

/// No cell of the store holds a pair.
pub open spec fn all_empty(s: Seq<Cell>, w: int, h: int) -> bool {
    forall|a: int, b: int| in_grid(a, b, w, h) ==> (#[trigger] cell_at(s, w, a, b)).is_none()
}

proof fn lemma_index(w: int, h: int, x: int, y: int)
    requires
        in_grid(x, y, w, h),
    ensures
        0 <= y * w + x < w * h,
        (y * w + x) % w == x,
        (y * w + x) / w == y,
{
    assert(0 <= y * w + x < w * h) by (nonlinear_arith)
        requires
            0 <= x < w,
            0 <= y < h,
    ;
    lemma_fundamental_div_mod_converse(y * w + x, w, y, x);
}

proof fn lemma_index_inj(w: int, h: int, x: int, y: int, x2: int, y2: int)
    requires
        in_grid(x, y, w, h),
        in_grid(x2, y2, w, h),
        y * w + x == y2 * w + x2,
    ensures
        x == x2,
        y == y2,
{
    lemma_index(w, h, x, y);
    lemma_index(w, h, x2, y2);
}

/// Finds the first cell with a pair, column by column.
pub fn find_start(store: &BorderPixels) -> (r: Option<(usize, usize)>)
    requires
        store.wf(),
    ensures
        r is None <==> all_empty(store@, store.width(), store.height()),
        r matches Some(p) ==> is_first(store@, store.width(), store.height(), p.0 as int, p.1 as int),
{
    let w = store.width_of();
    let h = store.height_of();
    let ghost s = store@;
    let mut x: u16 = 0;
    while x < w
        invariant
            w == store.width(),
            h == store.height(),
            s == store@,
            store.wf(),
            0 <= x <= w,
            forall|a: int, b: int| in_grid(a, b, w as int, h as int) && a < x
                ==> (#[trigger] cell_at(s, w as int, a, b)).is_none(),
        decreases w - x,
    {
        let mut y: u16 = 0;
        while y < h
            invariant
                w == store.width(),
                h == store.height(),
                s == store@,
                store.wf(),
                0 <= x < w,
                0 <= y <= h,
                forall|a: int, b: int| in_grid(a, b, w as int, h as int) && (a < x || (a == x && b < y))
                    ==> (#[trigger] cell_at(s, w as int, a, b)).is_none(),
            decreases h - y,
        {
            if store.get(x, y).is_some() {
                assert(cell_at(s, w as int, x as int, y as int).is_some());
                return Some((x as usize, y as usize));
            }
            y = y + 1;
        }
        x = x + 1;
    }
    None
}

/// A sequence of distinct indices below `total` has at most `total` entries.
proof fn lemma_queue_bound(q: Seq<(usize, usize, usize)>, total: int)
    requires
        0 <= total,
        forall|i: int, j: int| 0 <= i < q.len() && 0 <= j < q.len() && i != j ==> q[i].2 != q[j].2,
        forall|i: int| 0 <= i < q.len() ==> (#[trigger] q[i]).2 < total,
    ensures
        q.len() <= total,
{
    let qi = Seq::new(q.len(), |i: int| q[i].2 as int);
    assert(qi.no_duplicates());
    qi.unique_seq_to_set();
    assert(qi.len() == q.len());
    if q.len() > 0 {
        assert(q[0].2 < total);
        lemma_int_range(0, total);
        assert forall|v: int| qi.to_set().contains(v) implies set_int_range(0, total).contains(v) by {
            let i = choose|i: int| 0 <= i < qi.len() && qi[i] == v;
            assert(q[i].2 < total);
        }
        lemma_len_subset(qi.to_set(), set_int_range(0, total));
    }
}

/// The neighbour of `(x, y)` in direction `d`, if it lies in the grid.
fn neighbour(x: usize, y: usize, d: usize, w: usize, h: usize) -> (r: Option<(usize, usize)>)
    requires
        x < w,
        y < h,
        d < 4,
    ensures
        r matches Some(p) ==> (p.0 as int, p.1 as int) == step(x as int, y as int, d as int),
        r is None <==> !in_grid(step(x as int, y as int, d as int).0, step(x as int, y as int, d as int).1, w as int, h as int),
{
    if d == 0 {
        if x > 0 { Some((x - 1, y)) } else { None }
    } else if d == 1 {
        if x + 1 < w { Some((x + 1, y)) } else { None }
    } else if d == 2 {
        if y > 0 { Some((x, y - 1)) } else { None }
    } else {
        if y + 1 < h { Some((x, y + 1)) } else { None }
    }
}

fn pairs_match(a: Cell, b: Cell) -> (r: bool)
    ensures
        r == same_pair(a, b),
{
    match (a, b) {
        (Some(p), Some(q)) => (p.0 == q.0 && p.1 == q.1) || (p.0 == q.1 && p.1 == q.0),
        (None, None) => true,
        _ => false,
    }
}

/// Whether the walk marked `(x, y)` as visited.
pub open spec fn visited_at(v: Seq<bool>, w: int, x: int, y: int) -> bool {
    v[y * w + x]
}

/// `(x, y)` is a cell of the grid whose pair differs from that of a visited
/// 4-neighbour.
pub open spec fn is_junction(s: Seq<Cell>, v: Seq<bool>, w: int, h: int, x: int, y: int) -> bool {
    &&& in_grid(x, y, w, h)
    &&& visited_at(v, w, x, y)
    &&& exists|a: int, b: int, d: int|
        0 <= d < 4 && in_grid(a, b, w, h) && visited_at(v, w, a, b) && #[trigger] step(a, b, d) == (x, y)
            && !same_pair(cell_at(s, w, a, b), cell_at(s, w, x, y))
}

/// Every neighbour with a pair of a visited cell is visited.
pub open spec fn closed_under_steps(s: Seq<Cell>, v: Seq<bool>, w: int, h: int) -> bool {
    forall|a: int, b: int, d: int| 0 <= d < 4 && in_grid(a, b, w, h)
        && visited_at(v, w, a, b)
        && in_grid(#[trigger] step(a, b, d).0, step(a, b, d).1, w, h)
        && cell_at(s, w, step(a, b, d).0, step(a, b, d).1).is_some()
        ==> visited_at(v, w, step(a, b, d).0, step(a, b, d).1)
}

/// `p` is a 4-connected path of cells that hold a pair.
pub open spec fn is_path(s: Seq<Cell>, w: int, h: int, p: Seq<(int, int)>) -> bool {
    &&& p.len() > 0
    &&& forall|i: int| 0 <= i < p.len() ==> in_grid((#[trigger] p[i]).0, p[i].1, w, h)
            && cell_at(s, w, p[i].0, p[i].1).is_some()
    &&& forall|i: int| 0 <= i < p.len() - 1 ==> #[trigger] steps_to(p[i], p[i + 1])
}

/// `b` is one of the four neighbours of `a`.
pub open spec fn steps_to(a: (int, int), b: (int, int)) -> bool {
    exists|d: int| 0 <= d < 4 && #[trigger] step(a.0, a.1, d) == b
}

/// A visited set closed under steps holds every cell of a path of cells with
/// a pair that starts in it: the walk from the first cell with a pair visits
/// every cell reachable from it.
pub proof fn lemma_walk_reaches(s: Seq<Cell>, v: Seq<bool>, w: int, h: int, p: Seq<(int, int)>)
    requires
        is_path(s, w, h, p),
        visited_at(v, w, p[0].0, p[0].1),
        closed_under_steps(s, v, w, h),
    ensures
        forall|i: int| 0 <= i < p.len() ==> visited_at(v, w, (#[trigger] p[i]).0, p[i].1),
    decreases p.len(),
{
    if p.len() > 1 {
        let q = p.drop_last();
        assert(is_path(s, w, h, q)) by {
            assert forall|i: int| 0 <= i < q.len() - 1 implies #[trigger] steps_to(q[i], q[i + 1]) by {
                assert(q[i] == p[i] && q[i + 1] == p[i + 1]);
                assert(steps_to(p[i], p[i + 1]));
            }
        }
        lemma_walk_reaches(s, v, w, h, q);
        let n = p.len() - 1;
        let m = n - 1;
        assert(steps_to(p[m], p[m + 1]));
        assert(m + 1 == n);
        let d = choose|d: int| 0 <= d < 4 && #[trigger] step(p[n - 1].0, p[n - 1].1, d) == p[n];
        assert(q[n - 1] == p[n - 1]);
        assert(visited_at(v, w, p[n - 1].0, p[n - 1].1));
        assert forall|i: int| 0 <= i < p.len() implies visited_at(v, w, (#[trigger] p[i]).0, p[i].1) by {
            if i < n {
                assert(q[i] == p[i]);
            }
        }
    }
}

/// `(a, b)` is reached from `(x0, y0)` by a 4-connected path of cells that
/// hold a pair.
pub open spec fn reachable(s: Seq<Cell>, w: int, h: int, x0: int, y0: int, a: int, b: int) -> bool {
    exists|p: Seq<(int, int)>| #[trigger] is_path(s, w, h, p) && p[0] == (x0, y0) && p.last() == (a, b)
}

/// The cell that `(a, b)` was reached from, as the walk recorded it.
pub open spec fn parent_at(par: Seq<(usize, usize)>, w: int, a: int, b: int) -> (int, int) {
    (par[b * w + a].0 as int, par[b * w + a].1 as int)
}

/// The recorded parent of `(a, b)` is a visited 4-neighbour of it.
pub open spec fn parent_ok(v: Seq<bool>, par: Seq<(usize, usize)>, w: int, h: int, a: int, b: int) -> bool {
    &&& in_grid(parent_at(par, w, a, b).0, parent_at(par, w, a, b).1, w, h)
    &&& visited_at(v, w, parent_at(par, w, a, b).0, parent_at(par, w, a, b).1)
    &&& steps_to(parent_at(par, w, a, b), (a, b))
}

/// `(a, b)` is a junction vertex of the walk from `(x0, y0)`: it was visited,
/// it is not the start, and its pair differs (in either order) from that of
/// the cell it was reached from.
pub open spec fn is_vertex(s: Seq<Cell>, v: Seq<bool>, par: Seq<(usize, usize)>, w: int, x0: int, y0: int, a: int, b: int) -> bool {
    &&& visited_at(v, w, a, b)
    &&& (a, b) != (x0, y0)
    &&& !same_pair(cell_at(s, w, a, b), cell_at(s, w, parent_at(par, w, a, b).0, parent_at(par, w, a, b).1))
}

/// What a walk from the first cell with a pair yields: `vs` the vertices,
/// `v` the visited flags and `par` the cell each visited cell was reached from.
pub open spec fn walk_spec(s: Seq<Cell>, w: int, h: int, vs: Seq<(usize, usize)>, v: Seq<bool>, par: Seq<(usize, usize)>) -> bool {
    &&& v.len() == s.len()
    &&& par.len() == s.len()
    &&& all_empty(s, w, h) ==> vs.len() == 0
        && forall|a: int, b: int| in_grid(a, b, w, h) ==> !(#[trigger] visited_at(v, w, a, b))
    &&& forall|a: int, b: int| in_grid(a, b, w, h) && #[trigger] visited_at(v, w, a, b)
        ==> cell_at(s, w, a, b).is_some()
    &&& closed_under_steps(s, v, w, h)
    &&& vs.no_duplicates()
    &&& forall|i: int| 0 <= i < vs.len() ==> is_junction(s, v, w, h, (#[trigger] vs[i]).0 as int, vs[i].1 as int)
    &&& forall|x0: int, y0: int| #[trigger] is_first(s, w, h, x0, y0) ==> {
        &&& visited_at(v, w, x0, y0)
        &&& forall|a: int, b: int| in_grid(a, b, w, h) && #[trigger] visited_at(v, w, a, b)
            ==> reachable(s, w, h, x0, y0, a, b)
        &&& forall|a: int, b: int| in_grid(a, b, w, h) && #[trigger] visited_at(v, w, a, b) && (a, b) != (x0, y0)
            ==> parent_ok(v, par, w, h, a, b)
        &&& forall|a: int, b: int| in_grid(a, b, w, h)
            ==> (vs.contains((a as usize, b as usize)) <==> #[trigger] is_vertex(s, v, par, w, x0, y0, a, b))
        &&& (vs.len() == 0 <==> forall|a: int, b: int| in_grid(a, b, w, h) && #[trigger] visited_at(v, w, a, b)
            ==> same_pair(cell_at(s, w, a, b), cell_at(s, w, x0, y0)))
    }
}

proof fn lemma_path_extend(s: Seq<Cell>, w: int, h: int, p: Seq<(int, int)>, d: int)
    requires
        is_path(s, w, h, p),
        0 <= d < 4,
        in_grid(step(p.last().0, p.last().1, d).0, step(p.last().0, p.last().1, d).1, w, h),
        cell_at(s, w, step(p.last().0, p.last().1, d).0, step(p.last().0, p.last().1, d).1).is_some(),
    ensures
        is_path(s, w, h, p.push(step(p.last().0, p.last().1, d))),
        p.push(step(p.last().0, p.last().1, d))[0] == p[0],
{
    let q = p.push(step(p.last().0, p.last().1, d));
    assert forall|i: int| 0 <= i < q.len() implies in_grid((#[trigger] q[i]).0, q[i].1, w, h)
        && cell_at(s, w, q[i].0, q[i].1).is_some() by {
        if i < p.len() {
            assert(q[i] == p[i]);
        }
    }
    assert forall|i: int| 0 <= i < q.len() - 1 implies #[trigger] steps_to(q[i], q[i + 1]) by {
        if i < p.len() - 1 {
            assert(q[i] == p[i] && q[i + 1] == p[i + 1]);
            assert(steps_to(p[i], p[i + 1]));
        } else {
            assert(q[i] == p.last());
            assert(step(q[i].0, q[i].1, d) == q[i + 1]);
        }
    }
}

proof fn lemma_same_pair_equiv(a: Cell, b: Cell, c: Cell)
    ensures
        same_pair(a, b) ==> same_pair(b, a),
        same_pair(a, b) && same_pair(b, c) ==> same_pair(a, c),
{
}

proof fn lemma_first_unique(s: Seq<Cell>, w: int, h: int, x0: int, y0: int, x1: int, y1: int)
    requires
        is_first(s, w, h, x0, y0),
        is_first(s, w, h, x1, y1),
    ensures
        x0 == x1 && y0 == y1,
{
    if x0 < x1 || (x0 == x1 && y0 < y1) {
        assert(cell_at(s, w, x0, y0).is_none());
    } else if x1 < x0 || (x0 == x1 && y1 < y0) {
        assert(cell_at(s, w, x1, y1).is_none());
    }
}

/// Breadth-first walk over the cells with a pair, 4-connected, from the first
/// such cell. Each cell is visited once; a cell whose pair differs (in either
/// order) from that of the cell it was reached from is a junction vertex.
/// Returns the vertices, as `(x, y)`, the visited flag of every cell, and for
/// every visited cell but the start the cell it was reached from.
#[verifier::rlimit(100)]
#[verifier::spinoff_prover]
pub fn walk_border(store: &BorderPixels) -> (r: (Vec<(usize, usize)>, Vec<bool>, Vec<(usize, usize)>))
    requires
        store.wf(),
    ensures
        walk_spec(store@, store.width(), store.height(), r.0@, r.1@, r.2@),
{
    let ghost s = store@;
    let w16 = store.width_of();
    let h16 = store.height_of();
    let w = w16 as usize;
    let h = h16 as usize;
    let ghost wi = w as int;
    let ghost hi = h as int;
    let total = store.pixels_len();
    let mut visited: Vec<bool> = Vec::new();
    let mut t: usize = 0;
    while t < total
        invariant
            0 <= t <= total,
            visited@.len() == t,
            forall|k: int| 0 <= k < t ==> !visited@[k],
        decreases total - t,
    {
        visited.push(false);
        t = t + 1;
    }
    let mut parents: Vec<(usize, usize)> = Vec::new();
    let mut t: usize = 0;
    while t < total
        invariant
            0 <= t <= total,
            parents@.len() == t,
        decreases total - t,
    {
        parents.push((0, 0));
        t = t + 1;
    }
    let mut vertices: Vec<(usize, usize)> = Vec::new();
    let start = find_start(store);
    let (x0, y0) = match start {
        None => {
            proof {
                assert forall|a: int, b: int| in_grid(a, b, wi, hi) implies !(#[trigger] visited_at(visited@, wi, a, b)) by {
                    lemma_index(wi, hi, a, b);
                }
            }
            return (vertices, visited, parents);
        },
        Some(p) => p,
    };
    proof {
        lemma_index(wi, hi, x0 as int, y0 as int);
    }
    let k0: usize = y0 * w + x0;
    let start_cell = store.get(x0 as u16, y0 as u16);
    visited.set(k0, true);
    let mut queue: Vec<(usize, usize, usize)> = Vec::new();
    queue.push((x0, y0, k0));
    proof {
        assert forall|k: int| 0 <= k < total && #[trigger] visited@[k]
            implies exists|i: int| 0 <= i < queue@.len() && queue@[i].2 == k by {
            assert(k == k0);
            assert(queue@[0].2 == k0);
        }
        let p0 = seq![(x0 as int, y0 as int)];
        assert(is_path(s, wi, hi, p0));
        assert(reachable(s, wi, hi, x0 as int, y0 as int, queue@[0].0 as int, queue@[0].1 as int));
    }
    let mut head: usize = 0;
    while head < queue.len()
        invariant
            s == store@,
            store.wf(),
            wi == store.width(),
            hi == store.height(),
            w == wi,
            h == hi,
            total == s.len(),
            total == wi * hi,
            wi < 65536 && hi < 65536,
            is_first(s, wi, hi, x0 as int, y0 as int),
            k0 == y0 * wi + x0,
            start_cell == s[k0 as int],
            visited@.len() == total,
            1 <= queue@.len() <= total,
            queue@[0] == (x0, y0, k0),
            0 <= head <= queue@.len(),
            forall|i: int| 0 <= i < queue@.len() ==> in_grid((#[trigger] queue@[i]).0 as int, queue@[i].1 as int, wi, hi)
                && queue@[i].2 == queue@[i].1 * wi + queue@[i].0 && queue@[i].2 < total,
            forall|i: int, j: int| 0 <= i < queue@.len() && 0 <= j < queue@.len() && i != j
                ==> queue@[i].2 != queue@[j].2,
            forall|i: int| 0 <= i < queue@.len() ==> visited@[(#[trigger] queue@[i]).2 as int],
            forall|k: int| 0 <= k < total && #[trigger] visited@[k] ==> exists|i: int| 0 <= i < queue@.len() && queue@[i].2 == k,
            forall|i: int| 0 <= i < queue@.len() ==> s[(#[trigger] queue@[i]).2 as int].is_some(),
            forall|i: int, d: int| 0 <= i < head && 0 <= d < 4
                && in_grid(#[trigger] step(queue@[i].0 as int, queue@[i].1 as int, d).0, step(queue@[i].0 as int, queue@[i].1 as int, d).1, wi, hi)
                && cell_at(s, wi, step(queue@[i].0 as int, queue@[i].1 as int, d).0, step(queue@[i].0 as int, queue@[i].1 as int, d).1).is_some()
                ==> visited_at(visited@, wi, step(queue@[i].0 as int, queue@[i].1 as int, d).0, step(queue@[i].0 as int, queue@[i].1 as int, d).1),
            forall|j: int| 0 <= j < vertices@.len() ==> in_grid((#[trigger] vertices@[j]).0 as int, vertices@[j].1 as int, wi, hi)
                && visited_at(visited@, wi, vertices@[j].0 as int, vertices@[j].1 as int)
                && exists|i: int, d: int| 0 <= i < queue@.len() && 0 <= d < 4
                    && #[trigger] step(queue@[i].0 as int, queue@[i].1 as int, d) == (vertices@[j].0 as int, vertices@[j].1 as int)
                    && !same_pair(s[queue@[i].2 as int], cell_at(s, wi, vertices@[j].0 as int, vertices@[j].1 as int)),
            vertices@.len() == 0 ==> forall|i: int| 0 <= i < queue@.len() ==> same_pair(s[(#[trigger] queue@[i]).2 as int], start_cell),
            vertices@.no_duplicates(),
            parents@.len() == total,
            forall|i: int| 0 <= i < queue@.len()
                ==> reachable(s, wi, hi, x0 as int, y0 as int, (#[trigger] queue@[i]).0 as int, queue@[i].1 as int),
            forall|i: int| 0 < i < queue@.len()
                ==> parent_ok(visited@, parents@, wi, hi, (#[trigger] queue@[i]).0 as int, queue@[i].1 as int),
            forall|i: int| 0 <= i < queue@.len()
                ==> (vertices@.contains(((#[trigger] queue@[i]).0, queue@[i].1)) <==> (i > 0
                    && !same_pair(cell_at(s, wi, queue@[i].0 as int, queue@[i].1 as int),
                        cell_at(s, wi, parent_at(parents@, wi, queue@[i].0 as int, queue@[i].1 as int).0,
                            parent_at(parents@, wi, queue@[i].0 as int, queue@[i].1 as int).1)))),
        decreases (total - queue@.len()) * 5 + (queue@.len() - head),
    {
        let (cx, cy, ck) = queue[head];
        proof {
            assert(in_grid(queue@[head as int].0 as int, queue@[head as int].1 as int, wi, hi));
        }
        let cur = store.get(cx as u16, cy as u16);
        let ghost qlen0 = queue@.len();
        let mut d: usize = 0;
        while d < 4
            invariant
                s == store@,
                store.wf(),
                wi == store.width(),
                hi == store.height(),
                w == wi,
                h == hi,
                total == s.len(),
                total == wi * hi,
                wi < 65536 && hi < 65536,
                is_first(s, wi, hi, x0 as int, y0 as int),
                k0 == y0 * wi + x0,
                start_cell == s[k0 as int],
                visited@.len() == total,
                qlen0 <= queue@.len() <= qlen0 + d,
                queue@.len() <= total,
                queue@[0] == (x0, y0, k0),
                0 <= head < qlen0,
                queue@[head as int] == (cx, cy, ck),
                cur == s[ck as int],
                0 <= d <= 4,
                forall|i: int| 0 <= i < queue@.len() ==> in_grid((#[trigger] queue@[i]).0 as int, queue@[i].1 as int, wi, hi)
                    && queue@[i].2 == queue@[i].1 * wi + queue@[i].0 && queue@[i].2 < total,
                forall|i: int, j: int| 0 <= i < queue@.len() && 0 <= j < queue@.len() && i != j
                    ==> queue@[i].2 != queue@[j].2,
                forall|i: int| 0 <= i < queue@.len() ==> visited@[(#[trigger] queue@[i]).2 as int],
                forall|k: int| 0 <= k < total && #[trigger] visited@[k] ==> exists|i: int| 0 <= i < queue@.len() && queue@[i].2 == k,
                forall|i: int| 0 <= i < queue@.len() ==> s[(#[trigger] queue@[i]).2 as int].is_some(),
                forall|i: int, e: int| 0 <= i < head && 0 <= e < 4
                    && in_grid(#[trigger] step(queue@[i].0 as int, queue@[i].1 as int, e).0, step(queue@[i].0 as int, queue@[i].1 as int, e).1, wi, hi)
                    && cell_at(s, wi, step(queue@[i].0 as int, queue@[i].1 as int, e).0, step(queue@[i].0 as int, queue@[i].1 as int, e).1).is_some()
                    ==> visited_at(visited@, wi, step(queue@[i].0 as int, queue@[i].1 as int, e).0, step(queue@[i].0 as int, queue@[i].1 as int, e).1),
                forall|e: int| 0 <= e < d
                    && in_grid(#[trigger] step(cx as int, cy as int, e).0, step(cx as int, cy as int, e).1, wi, hi)
                    && cell_at(s, wi, step(cx as int, cy as int, e).0, step(cx as int, cy as int, e).1).is_some()
                    ==> visited_at(visited@, wi, step(cx as int, cy as int, e).0, step(cx as int, cy as int, e).1),
                forall|j: int| 0 <= j < vertices@.len() ==> in_grid((#[trigger] vertices@[j]).0 as int, vertices@[j].1 as int, wi, hi)
                    && visited_at(visited@, wi, vertices@[j].0 as int, vertices@[j].1 as int)
                    && exists|i: int, e: int| 0 <= i < queue@.len() && 0 <= e < 4
                        && #[trigger] step(queue@[i].0 as int, queue@[i].1 as int, e) == (vertices@[j].0 as int, vertices@[j].1 as int)
                        && !same_pair(s[queue@[i].2 as int], cell_at(s, wi, vertices@[j].0 as int, vertices@[j].1 as int)),
                vertices@.len() == 0 ==> forall|i: int| 0 <= i < queue@.len() ==> same_pair(s[(#[trigger] queue@[i]).2 as int], start_cell),
            vertices@.no_duplicates(),
            parents@.len() == total,
            forall|i: int| 0 <= i < queue@.len()
                ==> reachable(s, wi, hi, x0 as int, y0 as int, (#[trigger] queue@[i]).0 as int, queue@[i].1 as int),
            forall|i: int| 0 < i < queue@.len()
                ==> parent_ok(visited@, parents@, wi, hi, (#[trigger] queue@[i]).0 as int, queue@[i].1 as int),
            forall|i: int| 0 <= i < queue@.len()
                ==> (vertices@.contains(((#[trigger] queue@[i]).0, queue@[i].1)) <==> (i > 0
                    && !same_pair(cell_at(s, wi, queue@[i].0 as int, queue@[i].1 as int),
                        cell_at(s, wi, parent_at(parents@, wi, queue@[i].0 as int, queue@[i].1 as int).0,
                            parent_at(parents@, wi, queue@[i].0 as int, queue@[i].1 as int).1)))),
            decreases 4 - d,
        {
            match neighbour(cx, cy, d, w, h) {
                None => {},
                Some((nx, ny)) => {
                    proof {
                        lemma_index(wi, hi, nx as int, ny as int);
                    }
                    let nk: usize = ny * w + nx;
                    let next = store.get(nx as u16, ny as u16);
                    if !visited[nk] && next.is_some() {
                        let ghost q_before = queue@;
                        let ghost v_before = visited@;
                        let ghost vx_before = vertices@;
                        let ghost p_before = parents@;
                        proof {
                            assert forall|j: int| 0 <= j < vx_before.len() implies vx_before[j] != (nx, ny) by {
                                if vx_before[j] == (nx, ny) {
                                    assert(visited_at(v_before, wi, nx as int, ny as int));
                                }
                            }
                            assert(!vx_before.contains((nx, ny)));
                        }
                        visited.set(nk, true);
                        parents.set(nk, (cx, cy));
                        if !pairs_match(next, cur) {
                            vertices.push((nx, ny));
                        }
                        queue.push((nx, ny, nk));
                        proof {
                            assert forall|i: int, e: int| 0 <= i < head && 0 <= e < 4
                                && in_grid(#[trigger] step(queue@[i].0 as int, queue@[i].1 as int, e).0, step(queue@[i].0 as int, queue@[i].1 as int, e).1, wi, hi)
                                && cell_at(s, wi, step(queue@[i].0 as int, queue@[i].1 as int, e).0, step(queue@[i].0 as int, queue@[i].1 as int, e).1).is_some()
                                implies visited_at(visited@, wi, step(queue@[i].0 as int, queue@[i].1 as int, e).0, step(queue@[i].0 as int, queue@[i].1 as int, e).1) by {
                                assert(queue@[i] == q_before[i]);
                                let st = step(q_before[i].0 as int, q_before[i].1 as int, e);
                                lemma_index(wi, hi, st.0, st.1);
                                assert(visited_at(v_before, wi, st.0, st.1));
                            }
                            assert forall|e: int| 0 <= e < d
                                && in_grid(#[trigger] step(cx as int, cy as int, e).0, step(cx as int, cy as int, e).1, wi, hi)
                                && cell_at(s, wi, step(cx as int, cy as int, e).0, step(cx as int, cy as int, e).1).is_some()
                                implies visited_at(visited@, wi, step(cx as int, cy as int, e).0, step(cx as int, cy as int, e).1) by {
                                let st = step(cx as int, cy as int, e);
                                lemma_index(wi, hi, st.0, st.1);
                                assert(visited_at(v_before, wi, st.0, st.1));
                            }
                            assert(queue@[head as int] == (cx, cy, ck));
                            assert forall|i: int| 0 <= i < q_before.len() implies (#[trigger] q_before[i]).2 != nk by {
                                assert(v_before[q_before[i].2 as int]);
                            }
                            lemma_queue_bound(queue@, total as int);
                            let n = q_before.len() as int;
                            assert(queue@[n] == (nx, ny, nk));
                            assert(cell_at(s, wi, cx as int, cy as int) == cur);
                            assert(parent_at(parents@, wi, nx as int, ny as int) == (cx as int, cy as int));
                            assert(ck != nk);
                            assert(visited_at(visited@, wi, cx as int, cy as int));
                            assert(step(cx as int, cy as int, d as int) == (nx as int, ny as int));
                            assert(steps_to((cx as int, cy as int), (nx as int, ny as int)));
                            assert forall|i: int| 0 < i < queue@.len()
                                implies parent_ok(visited@, parents@, wi, hi, (#[trigger] queue@[i]).0 as int, queue@[i].1 as int) by {
                                if i < n {
                                    assert(queue@[i] == q_before[i]);
                                    assert(parent_ok(v_before, p_before, wi, hi, q_before[i].0 as int, q_before[i].1 as int));
                                    assert(q_before[i].2 != nk);
                                    let pa = parent_at(p_before, wi, q_before[i].0 as int, q_before[i].1 as int);
                                    lemma_index(wi, hi, pa.0, pa.1);
                                    assert(parent_at(parents@, wi, queue@[i].0 as int, queue@[i].1 as int) == pa);
                                }
                            }
                            assert forall|i: int| 0 <= i < queue@.len()
                                implies (vertices@.contains(((#[trigger] queue@[i]).0, queue@[i].1)) <==> (i > 0
                                    && !same_pair(cell_at(s, wi, queue@[i].0 as int, queue@[i].1 as int),
                                        cell_at(s, wi, parent_at(parents@, wi, queue@[i].0 as int, queue@[i].1 as int).0,
                                            parent_at(parents@, wi, queue@[i].0 as int, queue@[i].1 as int).1)))) by {
                                if i < n {
                                    assert(queue@[i] == q_before[i]);
                                    assert(q_before[i].2 != nk);
                                    assert((q_before[i].0, q_before[i].1) != (nx, ny));
                                    assert(parent_at(parents@, wi, queue@[i].0 as int, queue@[i].1 as int)
                                        == parent_at(p_before, wi, q_before[i].0 as int, q_before[i].1 as int));
                                    assert(vx_before.contains((q_before[i].0, q_before[i].1)) == vertices@.contains((q_before[i].0, q_before[i].1))) by {
                                        if vertices@.contains((q_before[i].0, q_before[i].1)) {
                                            let j = choose|j: int| 0 <= j < vertices@.len() && vertices@[j] == (q_before[i].0, q_before[i].1);
                                            if j < vx_before.len() {
                                                assert(vx_before[j] == vertices@[j]);
                                            }
                                        }
                                        if vx_before.contains((q_before[i].0, q_before[i].1)) {
                                            let j = choose|j: int| 0 <= j < vx_before.len() && vx_before[j] == (q_before[i].0, q_before[i].1);
                                            assert(vertices@[j] == vx_before[j]);
                                        }
                                    }
                                } else {
                                    assert(i == n);
                                    assert(cell_at(s, wi, nx as int, ny as int) == next);
                                    if vertices@.len() > vx_before.len() {
                                        assert(vertices@[vx_before.len() as int] == (nx, ny));
                                    } else {
                                        assert(vertices@ == vx_before);
                                    }
                                }
                            }
                            let hp = choose|p: Seq<(int, int)>| #[trigger] is_path(s, wi, hi, p) && p[0] == (x0 as int, y0 as int)
                                && p.last() == (cx as int, cy as int);
                            lemma_path_extend(s, wi, hi, hp, d as int);
                            assert(is_path(s, wi, hi, hp.push((nx as int, ny as int))));
                            assert(hp.push((nx as int, ny as int)).last() == (nx as int, ny as int));
                            assert forall|i: int| 0 <= i < queue@.len()
                                implies reachable(s, wi, hi, x0 as int, y0 as int, (#[trigger] queue@[i]).0 as int, queue@[i].1 as int) by {
                                if i < n {
                                    assert(queue@[i] == q_before[i]);
                                } else {
                                    assert(queue@[i] == (nx, ny, nk));
                                }
                            }
                            assert forall|k: int| 0 <= k < total && #[trigger] visited@[k]
                                implies exists|i: int| 0 <= i < queue@.len() && queue@[i].2 == k by {
                                if k == nk {
                                    assert(queue@[q_before.len() as int].2 == k);
                                } else {
                                    assert(v_before[k]);
                                    let i = choose|i: int| 0 <= i < q_before.len() && q_before[i].2 == k;
                                    assert(queue@[i] == q_before[i]);
                                }
                            }
                            assert forall|j: int| 0 <= j < vertices@.len() implies
                                in_grid((#[trigger] vertices@[j]).0 as int, vertices@[j].1 as int, wi, hi)
                                && visited_at(visited@, wi, vertices@[j].0 as int, vertices@[j].1 as int)
                                && exists|i: int, e: int| 0 <= i < queue@.len() && 0 <= e < 4
                                    && #[trigger] step(queue@[i].0 as int, queue@[i].1 as int, e) == (vertices@[j].0 as int, vertices@[j].1 as int)
                                    && !same_pair(s[queue@[i].2 as int], cell_at(s, wi, vertices@[j].0 as int, vertices@[j].1 as int)) by {
                                if j < vx_before.len() {
                                    assert(vertices@[j] == vx_before[j]);
                                    assert(visited_at(v_before, wi, vx_before[j].0 as int, vx_before[j].1 as int));
                                    lemma_index(wi, hi, vx_before[j].0 as int, vx_before[j].1 as int);
                                    let (i, e) = choose|i: int, e: int| 0 <= i < q_before.len() && 0 <= e < 4
                                        && #[trigger] step(q_before[i].0 as int, q_before[i].1 as int, e) == (vx_before[j].0 as int, vx_before[j].1 as int)
                                        && !same_pair(s[q_before[i].2 as int], cell_at(s, wi, vx_before[j].0 as int, vx_before[j].1 as int));
                                    assert(queue@[i] == q_before[i]);
                                    assert(step(queue@[i].0 as int, queue@[i].1 as int, e) == (vertices@[j].0 as int, vertices@[j].1 as int));
                                } else {
                                    assert(vertices@[j] == (nx, ny));
                                    assert(visited_at(visited@, wi, nx as int, ny as int));
                                    assert(step(queue@[head as int].0 as int, queue@[head as int].1 as int, d as int) == (nx as int, ny as int));
                                    assert(cell_at(s, wi, nx as int, ny as int) == next);
                                    assert(!same_pair(s[queue@[head as int].2 as int], cell_at(s, wi, nx as int, ny as int)));
                                }
                            }
                            if vertices@.len() == 0 {
                                assert(same_pair(next, cur));
                                assert(same_pair(cur, start_cell));
                                assert forall|i: int| 0 <= i < queue@.len() implies same_pair(s[(#[trigger] queue@[i]).2 as int], start_cell) by {
                                    if i < q_before.len() {
                                        assert(queue@[i] == q_before[i]);
                                    }
                                }
                            }
                        }
                    }
                },
            }
            d = d + 1;
        }
        head = head + 1;
    }
    proof {
        let q = queue@;
        let v = visited@;
        assert forall|x1: int, y1: int| #[trigger] is_first(s, wi, hi, x1, y1) implies x1 == x0 && y1 == y0 by {
            lemma_first_unique(s, wi, hi, x0 as int, y0 as int, x1, y1);
        }
        assert forall|a: int, b: int| in_grid(a, b, wi, hi) && #[trigger] visited_at(v, wi, a, b)
            implies exists|i: int| 0 <= i < q.len() && q[i].0 == a && q[i].1 == b by {
            lemma_index(wi, hi, a, b);
            let i = choose|i: int| 0 <= i < q.len() && q[i].2 == b * wi + a;
            lemma_index_inj(wi, hi, a, b, q[i].0 as int, q[i].1 as int);
        }
        assert forall|a: int, b: int, d: int| 0 <= d < 4 && in_grid(a, b, wi, hi)
            && visited_at(v, wi, a, b)
            && in_grid(#[trigger] step(a, b, d).0, step(a, b, d).1, wi, hi)
            && cell_at(s, wi, step(a, b, d).0, step(a, b, d).1).is_some()
            implies visited_at(v, wi, step(a, b, d).0, step(a, b, d).1) by {
            let i = choose|i: int| 0 <= i < q.len() && q[i].0 == a && q[i].1 == b;
            assert(step(q[i].0 as int, q[i].1 as int, d) == step(a, b, d));
        }
        assert forall|a: int, b: int| in_grid(a, b, wi, hi) && #[trigger] visited_at(v, wi, a, b)
            implies cell_at(s, wi, a, b).is_some() by {
            let i = choose|i: int| 0 <= i < q.len() && q[i].0 == a && q[i].1 == b;
        }
        assert(visited_at(v, wi, x0 as int, y0 as int));
        if vertices@.len() == 0 {
            assert forall|a: int, b: int| in_grid(a, b, wi, hi) && #[trigger] visited_at(v, wi, a, b)
                implies same_pair(cell_at(s, wi, a, b), cell_at(s, wi, x0 as int, y0 as int)) by {
                let i = choose|i: int| 0 <= i < q.len() && q[i].0 == a && q[i].1 == b;
            }
        } else {
            let vx = vertices@[0];
            let (i, e) = choose|i: int, e: int| 0 <= i < q.len() && 0 <= e < 4
                && #[trigger] step(q[i].0 as int, q[i].1 as int, e) == (vx.0 as int, vx.1 as int)
                && !same_pair(s[q[i].2 as int], cell_at(s, wi, vx.0 as int, vx.1 as int));
            assert(visited_at(v, wi, q[i].0 as int, q[i].1 as int));
            assert(visited_at(v, wi, vx.0 as int, vx.1 as int));
            let cp = cell_at(s, wi, q[i].0 as int, q[i].1 as int);
            let cv = cell_at(s, wi, vx.0 as int, vx.1 as int);
            let st = cell_at(s, wi, x0 as int, y0 as int);
            lemma_same_pair_equiv(cp, st, cv);
            lemma_same_pair_equiv(cv, st, cp);
            assert(!(same_pair(cp, st) && same_pair(cv, st)));
        }
        let par = parents@;
        assert forall|a: int, b: int| in_grid(a, b, wi, hi) && #[trigger] visited_at(v, wi, a, b)
            implies reachable(s, wi, hi, x0 as int, y0 as int, a, b) by {
            let i = choose|i: int| 0 <= i < q.len() && q[i].0 == a && q[i].1 == b;
            assert(reachable(s, wi, hi, x0 as int, y0 as int, q[i].0 as int, q[i].1 as int));
        }
        assert forall|a: int, b: int| in_grid(a, b, wi, hi) && #[trigger] visited_at(v, wi, a, b) && (a, b) != (x0 as int, y0 as int)
            implies parent_ok(v, par, wi, hi, a, b) by {
            let i = choose|i: int| 0 <= i < q.len() && q[i].0 == a && q[i].1 == b;
            assert(i != 0);
            assert(parent_ok(v, par, wi, hi, q[i].0 as int, q[i].1 as int));
        }
        assert forall|a: int, b: int| in_grid(a, b, wi, hi)
            implies (vertices@.contains((a as usize, b as usize)) <==> #[trigger] is_vertex(s, v, par, wi, x0 as int, y0 as int, a, b)) by {
            lemma_index(wi, hi, a, b);
            if visited_at(v, wi, a, b) {
                let i = choose|i: int| 0 <= i < q.len() && q[i].0 == a && q[i].1 == b;
                assert((q[i].0, q[i].1) == (a as usize, b as usize));
                if i == 0 {
                    assert((a, b) == (x0 as int, y0 as int));
                } else {
                    assert(q[i].2 != q[0].2);
                    assert((a, b) != (x0 as int, y0 as int));
                }
                assert(vertices@.contains((q[i].0, q[i].1)) <==> (i > 0
                    && !same_pair(cell_at(s, wi, q[i].0 as int, q[i].1 as int),
                        cell_at(s, wi, parent_at(par, wi, q[i].0 as int, q[i].1 as int).0,
                            parent_at(par, wi, q[i].0 as int, q[i].1 as int).1))));
            } else {
                if vertices@.contains((a as usize, b as usize)) {
                    let j = choose|j: int| 0 <= j < vertices@.len() && vertices@[j] == (a as usize, b as usize);
                    assert(visited_at(v, wi, vertices@[j].0 as int, vertices@[j].1 as int));
                }
            }
        }
        assert forall|j: int| 0 <= j < vertices@.len()
            implies is_junction(s, v, wi, hi, (#[trigger] vertices@[j]).0 as int, vertices@[j].1 as int) by {
            let vx = vertices@[j];
            let (i, e) = choose|i: int, e: int| 0 <= i < q.len() && 0 <= e < 4
                && #[trigger] step(q[i].0 as int, q[i].1 as int, e) == (vx.0 as int, vx.1 as int)
                && !same_pair(s[q[i].2 as int], cell_at(s, wi, vx.0 as int, vx.1 as int));
            assert(visited_at(v, wi, q[i].0 as int, q[i].1 as int));
            assert(step(q[i].0 as int, q[i].1 as int, e) == (vx.0 as int, vx.1 as int));
        }
    }
    (vertices, visited, parents)
}

/// Index of channel `c` of pixel `(x, y)` in an RGBA buffer of width `w`.
pub open spec fn pix(w: int, x: int, y: int, c: int) -> int {
    (x + y * w) * 4 + c
}

/// The colour of a vertex marker.
pub open spec fn marker_colour() -> Seq<u8> {
    seq![255u8, 0, 0, 255]
}

/// The 5 by 5 marker of vertex `v` covers `(x, y)`.
pub open spec fn covers(v: (usize, usize), x: int, y: int) -> bool {
    v.0 <= x < v.0 + 5 && v.1 <= y < v.1 + 5
}

/// Some marker of `vs` covers `(x, y)`.
pub open spec fn marked(vs: Seq<(usize, usize)>, x: int, y: int) -> bool {
    exists|j: int| 0 <= j < vs.len() && #[trigger] covers(vs[j], x, y)
}

/// The buffer after painting the markers of `vs`: covered pixels of the grid
/// take the marker colour, every other byte keeps its value.
pub open spec fn painted(old: Seq<u8>, new: Seq<u8>, vs: Seq<(usize, usize)>, w: int, h: int) -> bool {
    &&& new.len() == old.len()
    &&& forall|x: int, y: int, c: int| in_grid(x, y, w, h) && 0 <= c < 4 ==>
        new[#[trigger] pix(w, x, y, c)] == if marked(vs, x, y) { marker_colour()[c] } else { old[pix(w, x, y, c)] }
}

proof fn lemma_pix(w: int, h: int, x: int, y: int, c: int)
    requires
        in_grid(x, y, w, h),
        0 <= c < 4,
    ensures
        0 <= pix(w, x, y, c) < 4 * (w * h),
        pix(w, x, y, c) / 4 == y * w + x,
        pix(w, x, y, c) % 4 == c,
{
    lemma_index(w, h, x, y);
    lemma_fundamental_div_mod_converse(pix(w, x, y, c), 4, y * w + x, c);
}

proof fn lemma_pix_inj(w: int, h: int, x: int, y: int, c: int, x2: int, y2: int, c2: int)
    requires
        in_grid(x, y, w, h),
        in_grid(x2, y2, w, h),
        0 <= c < 4,
        0 <= c2 < 4,
        pix(w, x, y, c) == pix(w, x2, y2, c2),
    ensures
        x == x2 && y == y2 && c == c2,
{
    lemma_pix(w, h, x, y, c);
    lemma_pix(w, h, x2, y2, c2);
    lemma_index_inj(w, h, x, y, x2, y2);
}

/// Paints the 5 by 5 marker of each vertex into the RGBA buffer `image` of a
/// `width` by `height` grid, clipped to the grid.
pub fn paint_markers(vertices: &Vec<(usize, usize)>, width: u16, height: u16, image: &mut Vec<u8>)
    requires
        old(image)@.len() == 4 * (width * height),
    ensures
        painted(old(image)@, final(image)@, vertices@, width as int, height as int),
{
    let ghost old_img = image@;
    let ghost w = width as int;
    let ghost h = height as int;
    let wu = width as usize;
    let hu = height as usize;
    let n = vertices.len();
    let ilen = image.len();
    let mut j: usize = 0;
    while j < n
        invariant
            n == vertices@.len(),
            0 <= j <= n,
            w == wu,
            h == hu,
            w < 65536 && h < 65536,
            image@.len() == old_img.len(),
            old_img.len() == 4 * (w * h),
            ilen == old_img.len(),
            forall|x: int, y: int, c: int| in_grid(x, y, w, h) && 0 <= c < 4 ==>
                image@[#[trigger] pix(w, x, y, c)] == if marked(vertices@.take(j as int), x, y) {
                    marker_colour()[c]
                } else {
                    old_img[pix(w, x, y, c)]
                },
        decreases n - j,
    {
        let (vx, vy) = vertices[j];
        let ghost before = vertices@.take(j as int);
        let ghost v = vertices@[j as int];
        let mut dx: usize = 0;
        while dx < 5
            invariant
                n == vertices@.len(),
                0 <= j < n,
                (vx, vy) == v,
                v == vertices@[j as int],
                before == vertices@.take(j as int),
                w == wu,
                h == hu,
                w < 65536 && h < 65536,
                image@.len() == old_img.len(),
                old_img.len() == 4 * (w * h),
                ilen == old_img.len(),
            ilen == old_img.len(),
                0 <= dx <= 5,
                forall|x: int, y: int, c: int| in_grid(x, y, w, h) && 0 <= c < 4 ==>
                    image@[#[trigger] pix(w, x, y, c)] == if marked(before, x, y)
                        || (vx <= x < vx + dx && vy <= y < vy + 5) {
                        marker_colour()[c]
                    } else {
                        old_img[pix(w, x, y, c)]
                    },
            decreases 5 - dx,
        {
            let mut dy: usize = 0;
            while dy < 5
                invariant
                    0 <= dx < 5,
                    0 <= dy <= 5,
                    w == wu,
                    h == hu,
                    w < 65536 && h < 65536,
                    image@.len() == old_img.len(),
                    old_img.len() == 4 * (w * h),
                    ilen == old_img.len(),
                ilen == old_img.len(),
            ilen == old_img.len(),
                    forall|x: int, y: int, c: int| in_grid(x, y, w, h) && 0 <= c < 4 ==>
                        image@[#[trigger] pix(w, x, y, c)] == if marked(before, x, y)
                            || (vx <= x < vx + dx && vy <= y < vy + 5)
                            || (x == vx + dx && vy <= y < vy + dy) {
                            marker_colour()[c]
                        } else {
                            old_img[pix(w, x, y, c)]
                        },
                decreases 5 - dy,
            {
                if vx < wu && vy < hu && dx < wu - vx && dy < hu - vy {
                    let nx: usize = vx + dx;
                    let ny: usize = vy + dy;
                    proof {
                        lemma_pix(w, h, nx as int, ny as int, 0);
                        lemma_pix(w, h, nx as int, ny as int, 3);
                    }
                    let start: usize = (nx + ny * wu) * 4;
                    let ghost img0 = image@;
                    image.set(start, 255);
                    image.set(start + 1, 0);
                    image.set(start + 2, 0);
                    image.set(start + 3, 255);
                    proof {
                        assert forall|x: int, y: int, c: int| in_grid(x, y, w, h) && 0 <= c < 4 implies
                            image@[#[trigger] pix(w, x, y, c)] == if marked(before, x, y)
                                || (vx <= x < vx + dx && vy <= y < vy + 5)
                                || (x == vx + dx && vy <= y < vy + dy + 1) {
                                marker_colour()[c]
                            } else {
                                old_img[pix(w, x, y, c)]
                            } by {
                            lemma_pix(w, h, x, y, c);
                            if x == nx && y == ny {
                            } else {
                                assert forall|c2: int| 0 <= c2 < 4 implies pix(w, x, y, c) != pix(w, nx as int, ny as int, c2) by {
                                    if pix(w, x, y, c) == pix(w, nx as int, ny as int, c2) {
                                        lemma_pix_inj(w, h, x, y, c, nx as int, ny as int, c2);
                                    }
                                }
                                assert(pix(w, nx as int, ny as int, 1) == start + 1);
                                assert(pix(w, nx as int, ny as int, 2) == start + 2);
                                assert(pix(w, nx as int, ny as int, 3) == start + 3);
                                assert(pix(w, x, y, c) != start + 0);
                                assert(pix(w, x, y, c) != start + 1);
                                assert(pix(w, x, y, c) != start + 2);
                                assert(pix(w, x, y, c) != start + 3);
                                assert(image@[pix(w, x, y, c)] == img0[pix(w, x, y, c)]);
                            }
                        }
                    }
                }
                dy = dy + 1;
            }
            dx = dx + 1;
        }
        proof {
            assert forall|x: int, y: int| #![auto] marked(vertices@.take(j + 1), x, y)
                == (marked(before, x, y) || covers(v, x, y)) by {
                let after = vertices@.take(j + 1);
                if marked(after, x, y) {
                    let q = choose|q: int| 0 <= q < after.len() && #[trigger] covers(after[q], x, y);
                    if q < j {
                        assert(before[q] == after[q]);
                    }
                }
                if marked(before, x, y) {
                    let q = choose|q: int| 0 <= q < before.len() && #[trigger] covers(before[q], x, y);
                    assert(after[q] == before[q]);
                }
                if covers(v, x, y) {
                    assert(after[j as int] == v);
                }
            }
        }
        j = j + 1;
    }
    assert(vertices@.take(n as int) =~= vertices@);
}

/// The 10 by 10 square of seed `h` covers `(x, y)`.
pub open spec fn seed_covers(h: House, x: int, y: int) -> bool {
    h.x <= x < h.x + 10 && h.y <= y < h.y + 10
}

/// The last of the first `n` seeds whose square covers `(x, y)`, or -1.
pub open spec fn last_cover(seeds: Seq<House>, n: int, x: int, y: int) -> int
    decreases n,
{
    if n <= 0 {
        -1
    } else if seed_covers(seeds[n - 1], x, y) {
        n - 1
    } else {
        last_cover(seeds, n - 1, x, y)
    }
}

/// The buffer after painting the squares of the first `n` seeds in order:
/// a covered pixel of the grid takes the colour of the group of the last seed
/// covering it, every other byte keeps its value.
pub open spec fn seeds_painted(old: Seq<u8>, new: Seq<u8>, seeds: Seq<House>, n: int, w: int, h: int) -> bool {
    &&& new.len() == old.len()
    &&& forall|x: int, y: int, c: int| in_grid(x, y, w, h) && 0 <= c < 4 ==>
        new[#[trigger] pix(w, x, y, c)] == if last_cover(seeds, n, x, y) >= 0 {
            colour_of(seeds[last_cover(seeds, n, x, y)].group)[c]
        } else {
            old[pix(w, x, y, c)]
        }
}

/// Paints each seed as a 10 by 10 square of its group's colour, clipped to
/// the `width` by `height` grid, later seeds over earlier ones.
pub fn paint_seeds(seeds: &Vec<House>, width: u16, height: u16, image: &mut Vec<u8>)
    requires
        old(image)@.len() == 4 * (width * height),
    ensures
        seeds_painted(old(image)@, final(image)@, seeds@, seeds@.len() as int, width as int, height as int),
{
    let ghost old_img = image@;
    let ghost w = width as int;
    let ghost h = height as int;
    let wu = width as usize;
    let hu = height as usize;
    let n = seeds.len();
    let ilen = image.len();
    let mut j: usize = 0;
    while j < n
        invariant
            n == seeds@.len(),
            0 <= j <= n,
            w == wu,
            h == hu,
            w < 65536 && h < 65536,
            image@.len() == old_img.len(),
            old_img.len() == 4 * (w * h),
            ilen == old_img.len(),
            seeds_painted(old_img, image@, seeds@, j as int, w, h),
        decreases n - j,
    {
        let sx = seeds[j].x as usize;
        let sy = seeds[j].y as usize;
        let col = pick_colour(seeds[j].group);
        let ghost g = seeds@[j as int].group;
        let mut dx: usize = 0;
        while dx < 10
            invariant
                n == seeds@.len(),
                0 <= j < n,
                sx == seeds@[j as int].x,
                sy == seeds@[j as int].y,
                g == seeds@[j as int].group,
                col@ == colour_of(g),
                w == wu,
                h == hu,
                w < 65536 && h < 65536,
                image@.len() == old_img.len(),
                old_img.len() == 4 * (w * h),
                ilen == old_img.len(),
                0 <= dx <= 10,
                forall|x: int, y: int, c: int| in_grid(x, y, w, h) && 0 <= c < 4 ==>
                    image@[#[trigger] pix(w, x, y, c)] == if sx <= x < sx + dx && sy <= y < sy + 10 {
                        colour_of(g)[c]
                    } else if last_cover(seeds@, j as int, x, y) >= 0 {
                        colour_of(seeds@[last_cover(seeds@, j as int, x, y)].group)[c]
                    } else {
                        old_img[pix(w, x, y, c)]
                    },
            decreases 10 - dx,
        {
            let mut dy: usize = 0;
            while dy < 10
                invariant
                    0 <= dx < 10,
                    0 <= dy <= 10,
                    w == wu,
                    h == hu,
                    w < 65536 && h < 65536,
                    col@ == colour_of(g),
                    image@.len() == old_img.len(),
                    old_img.len() == 4 * (w * h),
                    ilen == old_img.len(),
                    forall|x: int, y: int, c: int| in_grid(x, y, w, h) && 0 <= c < 4 ==>
                        image@[#[trigger] pix(w, x, y, c)] == if (sx <= x < sx + dx && sy <= y < sy + 10)
                            || (x == sx + dx && sy <= y < sy + dy) {
                            colour_of(g)[c]
                        } else if last_cover(seeds@, j as int, x, y) >= 0 {
                            colour_of(seeds@[last_cover(seeds@, j as int, x, y)].group)[c]
                        } else {
                            old_img[pix(w, x, y, c)]
                        },
                decreases 10 - dy,
            {
                if sx < wu && sy < hu && dx < wu - sx && dy < hu - sy {
                    let nx: usize = sx + dx;
                    let ny: usize = sy + dy;
                    proof {
                        lemma_pix(w, h, nx as int, ny as int, 0);
                        lemma_pix(w, h, nx as int, ny as int, 3);
                    }
                    let start: usize = (nx + ny * wu) * 4;
                    let ghost img0 = image@;
                    image.set(start, col[0]);
                    image.set(start + 1, col[1]);
                    image.set(start + 2, col[2]);
                    image.set(start + 3, col[3]);
                    proof {
                        assert forall|x: int, y: int, c: int| in_grid(x, y, w, h) && 0 <= c < 4 implies
                            image@[#[trigger] pix(w, x, y, c)] == if (sx <= x < sx + dx && sy <= y < sy + 10)
                                || (x == sx + dx && sy <= y < sy + dy + 1) {
                                colour_of(g)[c]
                            } else if last_cover(seeds@, j as int, x, y) >= 0 {
                                colour_of(seeds@[last_cover(seeds@, j as int, x, y)].group)[c]
                            } else {
                                old_img[pix(w, x, y, c)]
                            } by {
                            lemma_pix(w, h, x, y, c);
                            if x == nx && y == ny {
                            } else {
                                assert forall|c2: int| 0 <= c2 < 4 implies pix(w, x, y, c) != pix(w, nx as int, ny as int, c2) by {
                                    if pix(w, x, y, c) == pix(w, nx as int, ny as int, c2) {
                                        lemma_pix_inj(w, h, x, y, c, nx as int, ny as int, c2);
                                    }
                                }
                                assert(pix(w, nx as int, ny as int, 1) == start + 1);
                                assert(pix(w, nx as int, ny as int, 2) == start + 2);
                                assert(pix(w, nx as int, ny as int, 3) == start + 3);
                                assert(image@[pix(w, x, y, c)] == img0[pix(w, x, y, c)]);
                            }
                        }
                    }
                }
                dy = dy + 1;
            }
            dx = dx + 1;
        }
        j = j + 1;
    }
}

/// Walks the border, then paints a marker at each junction vertex found.
/// Returns what `walk_border` returns.
pub fn get_border_points(store: &BorderPixels, image: &mut Vec<u8>) -> (r: (Vec<(usize, usize)>, Vec<bool>, Vec<(usize, usize)>))
    requires
        store.wf(),
        old(image)@.len() == 4 * store@.len(),
    ensures
        painted(old(image)@, final(image)@, r.0@, store.width(), store.height()),
        walk_spec(store@, store.width(), store.height(), r.0@, r.1@, r.2@),
        all_empty(store@, store.width(), store.height()) ==> final(image)@ == old(image)@,
{
    let (vertices, visited, parents) = walk_border(store);
    let ghost old_img = image@;
    if vertices.len() == 0 {
        proof {
            assert forall|x: int, y: int, c: int| in_grid(x, y, store.width(), store.height()) && 0 <= c < 4
                implies image@[#[trigger] pix(store.width(), x, y, c)]
                    == if marked(vertices@, x, y) { marker_colour()[c] } else { old_img[pix(store.width(), x, y, c)] } by {
            }
        }
        return (vertices, visited, parents);
    }
    paint_markers(&vertices, store.width_of(), store.height_of(), image);
    (vertices, visited, parents)
}

} // verus!
