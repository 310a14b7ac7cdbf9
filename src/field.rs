use vstd::prelude::*;
use vstd::arithmetic::div_mod::lemma_fundamental_div_mod_converse;
use rayon::prelude::{IndexedParallelIterator, IntoParallelIterator, ParallelIterator};
use crate::house::{House, MAX_DIST_SQ, colour_of, dist_sq, distance_sq, in_band, pick_colour};
use crate::nearest::{NearestHouses, add_spec, band_inv, first_above, first_out, group_at, indices_in, is_border_spec, lemma_add_spec_inv, lemma_border_iff_pair, pair_spec};

verus! {

/// What the border store holds at one cell: the contending seed pair, or
/// nothing.
pub type Cell = Option<(usize, usize)>;

/// The contending set at cell `(x, y)` after the first `n` seeds were added.
pub open spec fn set_after(seeds: Seq<House>, x: int, y: int, r: int, n: int) -> Seq<(usize, u64)>
    decreases n,
{
    if n <= 0 {
        Seq::empty()
    } else {
        add_spec(
            set_after(seeds, x, y, r, n - 1),
            ((n - 1) as usize, dist_sq(seeds[n - 1], x, y) as u64),
            r,
        )
    }
}

/// The contending set at `(x, y)` once every seed was added.
pub open spec fn contending(seeds: Seq<House>, x: int, y: int, r: int) -> Seq<(usize, u64)> {
    set_after(seeds, x, y, r, seeds.len() as int)
}

/// The pair of seed indices that contend at `(x, y)`, or `None` where the
/// cell lies inside one group's region.
pub open spec fn cell_spec(seeds: Seq<House>, x: int, y: int, r: int) -> Cell {
    match pair_spec(contending(seeds, x, y, r), seeds) {
        Some(p) => Some((p.0.0, p.1.0)),
        None => None,
    }
}

/// One row of cells.
pub open spec fn row_spec(seeds: Seq<House>, y: int, width: int, r: int) -> Seq<Cell> {
    Seq::new(width as nat, |x: int| cell_spec(seeds, x, y, r))
}

/// The colour of a border cell between groups `g1` and `g2`: the average of
/// their colours, rounded down, fully opaque.
pub open spec fn blend_spec(g1: u8, g2: u8) -> Seq<u8> {
    Seq::new(4, |c: int| if c == 3 { 255u8 } else { ((colour_of(g1)[c] + colour_of(g2)[c]) / 2) as u8 })
}

/// The store after one pass: each border cell holds its pair, every other
/// cell keeps what it held.
pub open spec fn pass_store(old: Seq<Cell>, seeds: Seq<House>, width: int, r: int) -> Seq<Cell> {
    Seq::new(old.len(), |k: int|
        match cell_spec(seeds, k % width, k / width, r) {
            Some(p) => Some(p),
            None => old[k],
        })
}

/// The RGBA buffer after one pass: the four bytes of each border cell hold the
/// blend of its pair's colours, every other byte keeps its value.
pub open spec fn pass_image(old: Seq<u8>, seeds: Seq<House>, width: int, r: int) -> Seq<u8> {
    Seq::new(old.len(), |i: int|
        match cell_spec(seeds, (i / 4) % width, (i / 4) / width, r) {
            Some(p) => blend_spec(seeds[p.0 as int].group, seeds[p.1 as int].group)[i % 4],
            None => old[i],
        })
}

/// The store of contending pairs, one cell per raster coordinate; cell
/// `(x, y)` sits at `y * width + x`.
pub struct BorderPixels {
    width: u16,
    height: u16,
    pixels: Vec<Cell>,
}

impl View for BorderPixels {
    type V = Seq<Cell>;

    closed spec fn view(&self) -> Seq<Cell> {
        self.pixels@
    }
}

impl BorderPixels {
    pub closed spec fn width(&self) -> int {
        self.width as int
    }

    pub closed spec fn height(&self) -> int {
        self.height as int
    }

    pub open spec fn wf(&self) -> bool {
        self@.len() == self.width() * self.height()
    }

    /// A store with every cell empty.
    pub fn new(width: u16, height: u16) -> (r: BorderPixels)
        ensures
            r.wf(),
            r.width() == width,
            r.height() == height,
            forall|k: int| 0 <= k < r@.len() ==> r@[k].is_none(),
    {
        let mut pixels: Vec<Cell> = Vec::new();
        let mut y: u16 = 0;
        while y < height
            invariant
                0 <= y <= height,
                pixels@.len() == y * width,
                forall|i: int| 0 <= i < pixels@.len() ==> pixels@[i].is_none(),
            decreases height - y,
        {
            let mut x: u16 = 0;
            while x < width
                invariant
                    0 <= x <= width,
                    0 <= y < height,
                    pixels@.len() == y * width + x,
                    forall|i: int| 0 <= i < pixels@.len() ==> pixels@[i].is_none(),
                decreases width - x,
            {
                pixels.push(None);
                x = x + 1;
            }
            assert(y * width + width == (y + 1) * width) by (nonlinear_arith);
            y = y + 1;
        }
        assert(height * width == width * height) by (nonlinear_arith);
        BorderPixels { width, height, pixels }
    }

    pub fn width_of(&self) -> (r: u16)
        ensures
            r == self.width(),
    {
        self.width
    }

    pub fn height_of(&self) -> (r: u16)
        ensures
            r == self.height(),
    {
        self.height
    }

    /// Empties every cell, so that a following pass leaves no pair from an
    /// earlier one behind.
    pub fn clear(&mut self)
        requires
            old(self).wf(),
        ensures
            final(self).wf(),
            final(self).width() == old(self).width(),
            final(self).height() == old(self).height(),
            forall|k: int| 0 <= k < final(self)@.len() ==> final(self)@[k].is_none(),
    {
        let n = self.pixels.len();
        let ghost w0 = self.width;
        let ghost h0 = self.height;
        let mut k: usize = 0;
        while k < n
            invariant
                self.width == w0,
                self.height == h0,
                w0 == old(self).width,
                h0 == old(self).height,
                n == self.pixels@.len(),
                n == self.width * self.height,
                0 <= k <= n,
                forall|i: int| 0 <= i < k ==> self.pixels@[i].is_none(),
            decreases n - k,
        {
            self.pixels.set(k, None);
            k = k + 1;
        }
    }

    /// Writes `cell` at `(x, y)`.
    pub fn set(&mut self, x: u16, y: u16, cell: Cell)
        requires
            old(self).wf(),
            x < old(self).width(),
            y < old(self).height(),
        ensures
            final(self).wf(),
            final(self).width() == old(self).width(),
            final(self).height() == old(self).height(),
            final(self)@ == old(self)@.update(y * old(self).width() + x, cell),
    {
        let len = self.pixels.len();
        proof {
            assert(y * self.width() + x < self.width() * self.height()) by (nonlinear_arith)
                requires
                    x < self.width(),
                    y < self.height(),
            ;
            assert(y * self.width() <= y * self.width() + x);
        }
        self.pixels.set(y as usize * self.width as usize + x as usize, cell);
    }

    /// The number of cells.
    pub fn pixels_len(&self) -> (r: usize)
        ensures
            r == self@.len(),
    {
        self.pixels.len()
    }

    /// What the store holds at `(x, y)`.
    pub fn get(&self, x: u16, y: u16) -> (r: Cell)
        requires
            self.wf(),
            x < self.width(),
            y < self.height(),
        ensures
            r == self@[y * self.width() + x],
    {
        let len = self.pixels.len();
        proof {
            assert(y * self.width() + x < self.width() * self.height()) by (nonlinear_arith)
                requires
                    x < self.width(),
                    y < self.height(),
            ;
            assert(y * self.width() <= y * self.width() + x);
        }
        self.pixels[y as usize * self.width as usize + x as usize]
    }
}

proof fn lemma_first_above_bounds(s: Seq<(usize, u64)>, d: u64, i: int)
    requires
        0 <= i <= s.len(),
    ensures
        i <= first_above(s, d, i) <= s.len(),
    decreases s.len() - i,
{
    if i < s.len() {
        lemma_first_above_bounds(s, d, i + 1);
    }
}

proof fn lemma_first_out_bounds(s: Seq<(usize, u64)>, r: int, i: int)
    requires
        0 <= i <= s.len(),
    ensures
        i <= first_out(s, r, i) <= s.len(),
    decreases s.len() - i,
{
    if i < s.len() {
        lemma_first_out_bounds(s, r, i + 1);
    }
}

/// Every member after an insertion is the new point or was a member before.
proof fn lemma_add_members(s: Seq<(usize, u64)>, p: (usize, u64), r: int)
    ensures
        forall|m: int| 0 <= m < add_spec(s, p, r).len() ==>
            #[trigger] add_spec(s, p, r)[m] == p || s.contains(add_spec(s, p, r)[m]),
{
    if s.len() > 0 {
        let k = first_above(s, p.1, 0);
        lemma_first_above_bounds(s, p.1, 0);
        let ins = s.insert(k, p);
        lemma_first_out_bounds(ins, r, 1);
        assert forall|m: int| 0 <= m < add_spec(s, p, r).len() implies
            #[trigger] add_spec(s, p, r)[m] == p || s.contains(add_spec(s, p, r)[m]) by {
            if m < k {
                assert(ins[m] == s[m]);
            } else if m > k {
                assert(ins[m] == s[m - 1]);
            }
        }
    }
}

/// Every member of the set after `n` seeds names one of the first `n` seeds.
proof fn lemma_set_after_indices(seeds: Seq<House>, x: int, y: int, r: int, n: int)
    requires
        0 <= n,
    ensures
        forall|m: int| 0 <= m < set_after(seeds, x, y, r, n).len() ==>
            (#[trigger] set_after(seeds, x, y, r, n)[m]).0 < n,
    decreases n,
{
    if n > 0 {
        let prev = set_after(seeds, x, y, r, n - 1);
        let p = ((n - 1) as usize, dist_sq(seeds[n - 1], x, y) as u64);
        lemma_set_after_indices(seeds, x, y, r, n - 1);
        lemma_add_members(prev, p, r);
        assert forall|m: int| 0 <= m < set_after(seeds, x, y, r, n).len() implies
            (#[trigger] set_after(seeds, x, y, r, n)[m]).0 < n by {
            let v = add_spec(prev, p, r)[m];
            if v != p {
                let q = choose|q: int| 0 <= q < prev.len() && prev[q] == v;
            }
        }
    }
}

/// A contending pair names two seeds of the set.
pub proof fn lemma_cell_indices(seeds: Seq<House>, x: int, y: int, r: int)
    ensures
        cell_spec(seeds, x, y, r) matches Some(p) ==> p.0 < seeds.len() && p.1 < seeds.len(),
{
    let e = contending(seeds, x, y, r);
    lemma_set_after_indices(seeds, x, y, r, seeds.len() as int);
    if pair_spec(e, seeds).is_some() {
        let j = crate::nearest::first_other(e, seeds, 1);
        crate::nearest::lemma_first_other(e, seeds, 1);
        assert(e[0].0 < seeds.len());
        assert(e[j].0 < seeds.len());
    }
}

/// Classifies the cell `(x, y)`: runs every seed through a fresh contending
/// set and returns the contending pair where two groups meet.
pub fn classify_cell(seeds: &Vec<House>, x: u16, y: u16, radius: u16) -> (r: Cell)
    ensures
        r == cell_spec(seeds@, x as int, y as int, radius as int),
{
    let mut nearest = NearestHouses::with_radius(radius);
    let n = seeds.len();
    let mut i: usize = 0;
    while i < n
        invariant
            n == seeds@.len(),
            0 <= i <= n,
            nearest.wf(),
            nearest.radius() == radius,
            nearest@ == set_after(seeds@, x as int, y as int, radius as int, i as int),
            forall|q: int| 0 <= q < nearest.added().len() ==> (#[trigger] nearest.added()[q]).0 < i,
        decreases n - i,
    {
        let d = distance_sq(&seeds[i], x, y);
        nearest.add((i, d));
        i = i + 1;
    }
    let ghost e = nearest@;
    proof {
        assert forall|m: int| 0 <= m < e.len() implies (#[trigger] e[m]).0 < seeds@.len() by {
            assert(nearest.added().contains(e[m]));
        }
        assert(indices_in(e, seeds@));
        lemma_border_iff_pair(e, seeds@);
    }
    if nearest.is_border(seeds) {
        match nearest.get_houses(seeds) {
            Some(pair) => Some((pair[0].0, pair[1].0)),
            None => None,
        }
    } else {
        None
    }
}

/// Classifies every cell of row `y`.
pub fn classify_row(seeds: &Vec<House>, y: u16, width: u16, radius: u16) -> (r: Vec<Cell>)
    ensures
        r@ == row_spec(seeds@, y as int, width as int, radius as int),
{
    let mut row: Vec<Cell> = Vec::new();
    let mut x: u16 = 0;
    while x < width
        invariant
            0 <= x <= width,
            row@.len() == x,
            forall|i: int| 0 <= i < x ==> row@[i] == cell_spec(seeds@, i, y as int, radius as int),
        decreases width - x,
    {
        let c = classify_cell(seeds, x, y, radius);
        row.push(c);
        x = x + 1;
    }
    assert(row@ =~= row_spec(seeds@, y as int, width as int, radius as int));
    row
}

/// Relies on rayon's indexed parallel iterator over `0..height`, mapped and
/// gathered with `collect_into_vec`: entry `y` of the result is the row
/// classified for `y`, in index order.
#[verifier::external_body]
fn rows_in_parallel(seeds: &Vec<House>, width: u16, height: u16, radius: u16) -> (rows: Vec<Vec<Cell>>)
    ensures
        rows@.len() == height,
        forall|y: int| 0 <= y < height ==> (#[trigger] rows@[y])@ == row_spec(seeds@, y, width as int, radius as int),
{
    let mut rows: Vec<Vec<Cell>> = Vec::new();
    (0..height).into_par_iter().map(|y| classify_row(seeds, y, width, radius)).collect_into_vec(&mut rows);
    rows
}

/// The blended colour of a border cell between groups `g1` and `g2`.
pub fn blend(g1: u8, g2: u8) -> (r: [u8; 4])
    ensures
        r@ == blend_spec(g1, g2),
{
    let c1 = pick_colour(g1);
    let c2 = pick_colour(g2);
    let r = [
        ((c1[0] as u16 + c2[0] as u16) / 2) as u8,
        ((c1[1] as u16 + c2[1] as u16) / 2) as u8,
        ((c1[2] as u16 + c2[2] as u16) / 2) as u8,
        255,
    ];
    assert(r@ =~= blend_spec(g1, g2));
    r
}

/// One Border Field pass: classifies every cell, rows in parallel, writes the
/// pair of each border cell into `store` and its blended colour into the RGBA
/// buffer `image` (4 bytes per cell, at `(x + y * width) * 4`). Cells that are
/// no border are left as they were.
pub fn draw_borders(seeds: &Vec<House>, radius: u16, store: &mut BorderPixels, image: &mut Vec<u8>)
    requires
        old(store).wf(),
        old(image)@.len() == 4 * old(store)@.len(),
    ensures
        final(store).wf(),
        final(store).width() == old(store).width(),
        final(store).height() == old(store).height(),
        final(store)@ == pass_store(old(store)@, seeds@, old(store).width(), radius as int),
        final(image)@ == pass_image(old(image)@, seeds@, old(store).width(), radius as int),
{
    let width = store.width;
    let height = store.height;
    let ghost old_store = store.pixels@;
    let ghost old_image = image@;
    let ghost w = width as int;
    if width == 0 || height == 0 {
        assert(w * height == 0) by (nonlinear_arith)
            requires
                w == 0 || height == 0,
        ;
        assert(store.pixels@ =~= pass_store(old_store, seeds@, w, radius as int));
        assert(image@ =~= pass_image(old_image, seeds@, w, radius as int));
        return;
    }
    let rows = rows_in_parallel(seeds, width, height, radius);
    let total: usize = store.pixels.len();
    let image_len: usize = image.len();
    let mut k: usize = 0;
    while k < total
        invariant
            image_len == image@.len(),
            total == store.pixels@.len(),
            total == w * height,
            w == width,
            width > 0,
            height > 0,
            store.width == width,
            store.height == height,
            image@.len() == 4 * total,
            rows@.len() == height,
            forall|y: int| 0 <= y < height ==> (#[trigger] rows@[y])@ == row_spec(seeds@, y, w, radius as int),
            0 <= k <= total,
            forall|i: int| 0 <= i < k ==> store.pixels@[i] == pass_store(old_store, seeds@, w, radius as int)[i],
            forall|i: int| k <= i < total ==> store.pixels@[i] == old_store[i],
            old_store.len() == total,
            old_image.len() == 4 * total,
            forall|i: int| 0 <= i < 4 * k ==> image@[i] == pass_image(old_image, seeds@, w, radius as int)[i],
            forall|i: int| 4 * k <= i < 4 * total ==> image@[i] == old_image[i],
        decreases total - k,
    {
        let x: usize = k % (width as usize);
        let y: usize = k / (width as usize);
        proof {
            assert(y < height) by (nonlinear_arith)
                requires
                    y == (k as int) / (width as int),
                    k < width * height,
                    width > 0,
            ;
        }
        let cell = rows[y][x];
        match cell {
            Some(pair) => {
                store.pixels.set(k, Some(pair));
                proof {
                    lemma_cell_indices(seeds@, x as int, y as int, radius as int);
                }
                let colour = blend(seeds[pair.0].group, seeds[pair.1].group);
                image.set(4 * k, colour[0]);
                image.set(4 * k + 1, colour[1]);
                image.set(4 * k + 2, colour[2]);
                image.set(4 * k + 3, colour[3]);
            },
            None => {},
        }
        proof {
            assert forall|c: int| 0 <= c < 4 implies #[trigger] ((4 * k + c) / 4) == k && (4 * k + c) % 4 == c by {
                lemma_fundamental_div_mod_converse(4 * k + c, 4, k as int, c);
            }
        }
        k = k + 1;
    }
    assert(store.pixels@ =~= pass_store(old_store, seeds@, w, radius as int));
    assert(image@ =~= pass_image(old_image, seeds@, w, radius as int));
}

/// The `(seed index, squared distance)` pairs of the first `n` seeds at `(x, y)`.
pub open spec fn candidates(seeds: Seq<House>, x: int, y: int, n: int) -> Seq<(usize, u64)> {
    Seq::new(n as nat, |i: int| (i as usize, dist_sq(seeds[i], x, y) as u64))
}

pub open spec fn coord_ok(x: int, y: int) -> bool {
    0 <= x <= 65535 && 0 <= y <= 65535
}

proof fn lemma_dist_bound(h: House, x: int, y: int)
    requires
        coord_ok(x, y),
    ensures
        0 <= dist_sq(h, x, y) <= MAX_DIST_SQ,
{
    let dx = h.x - x;
    let dy = h.y - y;
    assert(0 <= dx * dx <= 65535 * 65535) by (nonlinear_arith)
        requires
            -65535 <= dx <= 65535,
    ;
    assert(0 <= dy * dy <= 65535 * 65535) by (nonlinear_arith)
        requires
            -65535 <= dy <= 65535,
    ;
}

/// The contending set after the first `n` seeds holds the invariant of the
/// set, over those seeds' pairs.
pub proof fn lemma_set_after_inv(seeds: Seq<House>, x: int, y: int, r: int, n: int)
    requires
        coord_ok(x, y),
        0 <= n <= seeds.len(),
    ensures
        band_inv(set_after(seeds, x, y, r, n), candidates(seeds, x, y, n), r),
    decreases n,
{
    if n > 0 {
        lemma_set_after_inv(seeds, x, y, r, n - 1);
        lemma_dist_bound(seeds[n - 1], x, y);
        let p = ((n - 1) as usize, dist_sq(seeds[n - 1], x, y) as u64);
        lemma_add_spec_inv(set_after(seeds, x, y, r, n - 1), candidates(seeds, x, y, n - 1), p, r);
        assert(candidates(seeds, x, y, n - 1).push(p) =~= candidates(seeds, x, y, n));
    } else {
        assert(set_after(seeds, x, y, r, 0).len() == 0);
        assert(candidates(seeds, x, y, 0).len() == 0);
    }
}

/// Seed `m` is a nearest seed to `(x, y)`.
pub open spec fn is_nearest(seeds: Seq<House>, x: int, y: int, m: int) -> bool {
    &&& 0 <= m < seeds.len()
    &&& forall|k: int| 0 <= k < seeds.len() ==> dist_sq(seeds[m], x, y) <= #[trigger] dist_sq(seeds[k], x, y)
}

/// Seed `i` lies in the smoothing band of radius `r` around the nearest
/// distance to `(x, y)`, that of seed `m`.
pub open spec fn in_smoothing_band(seeds: Seq<House>, x: int, y: int, r: int, m: int, i: int) -> bool {
    0 <= i < seeds.len() && in_band(dist_sq(seeds[m], x, y), dist_sq(seeds[i], x, y), r)
}

/// A cell is a border cell exactly when the smoothing band around the nearest
/// seed's distance holds two seeds of different groups.
pub proof fn lemma_border_cell_iff(seeds: Seq<House>, x: int, y: int, r: int, m: int)
    requires
        coord_ok(x, y),
        seeds.len() <= usize::MAX,
        is_nearest(seeds, x, y, m),
    ensures
        cell_spec(seeds, x, y, r).is_some() <==> exists|i: int, j: int|
            in_smoothing_band(seeds, x, y, r, m, i) && in_smoothing_band(seeds, x, y, r, m, j)
                && #[trigger] seeds[i].group != #[trigger] seeds[j].group,
{
    let n = seeds.len() as int;
    let e = contending(seeds, x, y, r);
    let a = candidates(seeds, x, y, n);
    lemma_set_after_inv(seeds, x, y, r, n);
    lemma_border_iff_pair(e, seeds);
    lemma_dist_bound(seeds[m], x, y);
    assert forall|k: int| 0 <= k < n implies #[trigger] a[k].1 == dist_sq(seeds[k], x, y) && a[k].0 == k by {
        lemma_dist_bound(seeds[k], x, y);
    }
    assert(a[m].1 == dist_sq(seeds[m], x, y));
    assert(e.len() > 0);
    assert(a.contains(e[0]));
    let q0 = choose|q: int| 0 <= q < a.len() && a[q] == e[0];
    assert(e[0].1 == dist_sq(seeds[m], x, y));
    if cell_spec(seeds, x, y, r).is_some() {
        let t = choose|t: int| 1 <= t < e.len() && #[trigger] group_at(e, seeds, t) != group_at(e, seeds, 0);
        assert(a.contains(e[t]));
        let qt = choose|q: int| 0 <= q < a.len() && a[q] == e[t];
        assert(in_band(e[0].1 as int, e[t].1 as int, r));
        crate::house::lemma_band_refl(e[0].1 as int, r);
        assert(in_smoothing_band(seeds, x, y, r, m, q0));
        assert(in_smoothing_band(seeds, x, y, r, m, qt));
        assert(seeds[q0].group != seeds[qt].group);
    }
    if exists|i: int, j: int|
        in_smoothing_band(seeds, x, y, r, m, i) && in_smoothing_band(seeds, x, y, r, m, j)
            && #[trigger] seeds[i].group != #[trigger] seeds[j].group {
        let (i, j) = choose|i: int, j: int|
            in_smoothing_band(seeds, x, y, r, m, i) && in_smoothing_band(seeds, x, y, r, m, j)
                && #[trigger] seeds[i].group != #[trigger] seeds[j].group;
        assert(e.contains(a[i]));
        assert(e.contains(a[j]));
        let ti = choose|t: int| 0 <= t < e.len() && e[t] == a[i];
        let tj = choose|t: int| 0 <= t < e.len() && e[t] == a[j];
        let t = if group_at(e, seeds, ti) != group_at(e, seeds, 0) { ti } else { tj };
        assert(group_at(e, seeds, t) != group_at(e, seeds, 0));
        assert(t != 0);
        assert(is_border_spec(e, seeds));
    }
}

/// Where every seed has the same group, no cell is a border cell.
pub proof fn lemma_one_group_no_border(seeds: Seq<House>, x: int, y: int, r: int)
    requires
        forall|i: int, j: int| 0 <= i < seeds.len() && 0 <= j < seeds.len() ==> seeds[i].group == seeds[j].group,
    ensures
        cell_spec(seeds, x, y, r) is None,
{
    let e = contending(seeds, x, y, r);
    lemma_set_after_indices(seeds, x, y, r, seeds.len() as int);
    lemma_border_iff_pair(e, seeds);
    if is_border_spec(e, seeds) {
        let t = choose|t: int| 1 <= t < e.len() && #[trigger] group_at(e, seeds, t) != group_at(e, seeds, 0);
        assert(e[t].0 < seeds.len() && e[0].0 < seeds.len());
    }
}

/// Where every seed has the same group, a pass changes neither the store nor
/// the RGBA buffer.
pub proof fn lemma_one_group_pass_unchanged(store: Seq<Cell>, image: Seq<u8>, seeds: Seq<House>, width: int, r: int)
    requires
        forall|i: int, j: int| 0 <= i < seeds.len() && 0 <= j < seeds.len() ==> seeds[i].group == seeds[j].group,
    ensures
        pass_store(store, seeds, width, r) == store,
        pass_image(image, seeds, width, r) == image,
{
    assert forall|x: int, y: int| #[trigger] cell_spec(seeds, x, y, r) is None by {
        lemma_one_group_no_border(seeds, x, y, r);
    }
    assert(pass_store(store, seeds, width, r) =~= store);
    assert(pass_image(image, seeds, width, r) =~= image);
}

/// Running the pass a second time on the same seeds changes neither the
/// store nor the RGBA buffer.
pub proof fn lemma_pass_idempotent(store: Seq<Cell>, image: Seq<u8>, seeds: Seq<House>, width: int, r: int)
    ensures
        pass_store(pass_store(store, seeds, width, r), seeds, width, r) == pass_store(store, seeds, width, r),
        pass_image(pass_image(image, seeds, width, r), seeds, width, r) == pass_image(image, seeds, width, r),
{
    assert(pass_store(pass_store(store, seeds, width, r), seeds, width, r) =~= pass_store(store, seeds, width, r));
    assert(pass_image(pass_image(image, seeds, width, r), seeds, width, r) =~= pass_image(image, seeds, width, r));
}

} // verus!
