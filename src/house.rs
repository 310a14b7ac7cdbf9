use vstd::prelude::*;

verus! {

/// The largest squared distance between two points whose coordinates are `u16`.
pub const MAX_DIST_SQ: u64 = 8589672450;

/// A labelled seed point of the plane, in raster units.
#[derive(Clone, Copy, Debug)]
pub struct House {
    pub x: u16,
    pub y: u16,
    pub group: u8,
    /// Carried with the seed; no computation reads it.
    pub friends: u8,
    /// Carried with the seed; no computation reads it.
    pub enemies: u8,
}

/// The seed set as a whole, once it has been generated.
pub struct HouseVec(pub Option<Vec<House>>);

impl House {
    pub fn new(x: u16, y: u16, group: u8) -> (r: House)
        ensures
            r.x == x,
            r.y == y,
            r.group == group,
            r.friends == 0,
            r.enemies == 0,
    {
        House { x, y, group, friends: 0, enemies: 0 }
    }
}

/// Squared Euclidean distance from a seed to the cell `(x, y)`.
pub open spec fn dist_sq(h: House, x: int, y: int) -> int {
    (h.x - x) * (h.x - x) + (h.y - y) * (h.y - y)
}

/// `sqrt(d) <= sqrt(d0) + r`, written over the squared distances `d0` and `d`
/// without a square root: with `t = d - d0 - r*r`, either `t <= 0` or
/// `t*t <= 4*r*r*d0`.
pub open spec fn in_band(d0: int, d: int, r: int) -> bool {
    let t = d - d0 - r * r;
    t <= 0 || t * t <= 4 * r * r * d0
}

pub proof fn lemma_band_refl(d0: int, r: int)
    ensures
        in_band(d0, d0, r),
{
    assert(r * r >= 0) by (nonlinear_arith);
}

/// A distance in the band stays in it when it gets smaller.
pub proof fn lemma_band_mono_d(d0: int, d: int, d2: int, r: int)
    requires
        0 <= d0,
        d <= d2,
        in_band(d0, d2, r),
    ensures
        in_band(d0, d, r),
{
    let t = d - d0 - r * r;
    let t2 = d2 - d0 - r * r;
    if t > 0 {
        assert(t * t <= t2 * t2) by (nonlinear_arith)
            requires
                0 < t <= t2,
        ;
    }
}

/// A distance in the band of `d0b` is in the band of any larger `d0`.
pub proof fn lemma_band_mono_d0(d0: int, d0b: int, d: int, r: int)
    requires
        0 <= d0b <= d0,
        in_band(d0b, d, r),
    ensures
        in_band(d0, d, r),
{
    let t = d - d0 - r * r;
    let tb = d - d0b - r * r;
    if t > 0 {
        assert(t * t <= tb * tb) by (nonlinear_arith)
            requires
                0 < t <= tb,
        ;
        assert(4 * r * r * d0b <= 4 * r * r * d0) by (nonlinear_arith)
            requires
                0 <= d0b <= d0,
        ;
    }
}

/// Squared distance from seed `h` to the cell `(x, y)`.
pub fn distance_sq(h: &House, x: u16, y: u16) -> (r: u64)
    ensures
        r == dist_sq(*h, x as int, y as int),
        r <= MAX_DIST_SQ,
{
    let dx: u64 = if h.x >= x { (h.x - x) as u64 } else { (x - h.x) as u64 };
    let dy: u64 = if h.y >= y { (h.y - y) as u64 } else { (y - h.y) as u64 };
    assert(dx * dx <= 65535 * 65535) by (nonlinear_arith)
        requires
            dx <= 65535,
    ;
    assert(dy * dy <= 65535 * 65535) by (nonlinear_arith)
        requires
            dy <= 65535,
    ;
    assert(dx * dx == (h.x - x) * (h.x - x)) by (nonlinear_arith)
        requires
            dx == h.x - x || dx == x - h.x,
    ;
    assert(dy * dy == (h.y - y) * (h.y - y)) by (nonlinear_arith)
        requires
            dy == h.y - y || dy == y - h.y,
    ;
    dx * dx + dy * dy
}

/// Whether the squared distance `d` lies in the smoothing band of radius `r`
/// around the squared distance `d0`.
pub fn within_band(d0: u64, d: u64, r: u16) -> (b: bool)
    requires
        d0 <= MAX_DIST_SQ,
        d <= MAX_DIST_SQ,
    ensures
        b == in_band(d0 as int, d as int, r as int),
{
    assert((r as u128) * (r as u128) <= 65535u128 * 65535u128) by (nonlinear_arith)
        requires
            r <= 65535,
    ;
    let rr: u128 = (r as u128) * (r as u128);
    let lim: u128 = d0 as u128 + rr;
    if d as u128 <= lim {
        true
    } else {
        let t: u128 = d as u128 - lim;
        assert(t * t <= 8589672450u128 * 8589672450u128) by (nonlinear_arith)
            requires
                t <= 8589672450u128,
        ;
        assert(4 * rr * (d0 as u128) <= 4 * (65535u128 * 65535u128) * 8589672450u128)
            by (nonlinear_arith)
            requires
                rr <= 65535u128 * 65535u128,
                d0 <= 8589672450u128,
        ;
        let b = t * t <= 4 * rr * (d0 as u128);
        assert(t as int == d as int - d0 as int - (r as int) * (r as int));
        assert(4 * rr * (d0 as u128) == 4 * (r as int) * (r as int) * (d0 as int)) by (nonlinear_arith)
            requires
                rr == (r as int) * (r as int),
        ;
        b
    }
}

/// The colour of a group: a fixed table, white for any group not in it.
pub open spec fn colour_of(group: u8) -> Seq<u8> {
    if group == 1 {
        seq![255u8, 0, 0, 255]
    } else if group == 2 {
        seq![0u8, 255, 0, 255]
    } else if group == 3 {
        seq![0u8, 0, 255, 255]
    } else if group == 4 {
        seq![175u8, 75, 25, 255]
    } else {
        seq![255u8, 255, 255, 255]
    }
}

pub fn pick_colour(group: u8) -> (r: [u8; 4])
    ensures
        r@ == colour_of(group),
{
    let r = if group == 1 {
        [255, 0, 0, 255]
    } else if group == 2 {
        [0, 255, 0, 255]
    } else if group == 3 {
        [0, 0, 255, 255]
    } else if group == 4 {
        [175, 75, 25, 255]
    } else {
        [255, 255, 255, 255]
    };
    assert(r@ =~= colour_of(group));
    r
}

pub open spec fn sq(v: int) -> int {
    v * v
}

/// The group the sample scenario gives a seed at `(x, y)`: regions bounded by
/// circles (and one ellipse twice as wide as high), later rules taking
/// precedence over earlier ones.
pub open spec fn scenario_group_spec(x: int, y: int) -> u8 {
    if sq(x - 750) + 4 * sq(y - 300) < 4 * sq(200) {
        4
    } else if sq(x - 750) + sq(y) < sq(200) {
        3
    } else if sq(x - 400) + sq(y - 400) < sq(350) {
        2
    } else if sq(x - 50) + sq(y - 50) > sq(200) {
        1
    } else {
        0
    }
}

fn sq_i64(v: i64) -> (r: i64)
    requires
        -70000 <= v <= 70000,
    ensures
        r == sq(v as int),
        0 <= r <= 4900000000,
{
    assert(0 <= v * v <= 4900000000) by (nonlinear_arith)
        requires
            -70000 <= v <= 70000,
    ;
    v * v
}

/// The group of a seed at `(x, y)` in the sample scenario.
pub fn scenario_group(x: u16, y: u16) -> (r: u8)
    ensures
        r == scenario_group_spec(x as int, y as int),
{
    let xi = x as i64;
    let yi = y as i64;
    let mut group: u8 = 0;
    if sq_i64(xi - 50) + sq_i64(yi - 50) > sq_i64(200) {
        group = 1;
    }
    if sq_i64(xi - 400) + sq_i64(yi - 400) < sq_i64(350) {
        group = 2;
    }
    if sq_i64(xi - 750) + sq_i64(yi) < sq_i64(200) {
        group = 3;
    }
    if sq_i64(xi - 750) + 4 * sq_i64(yi - 300) < 4 * sq_i64(200) {
        group = 4;
    }
    group
}

} // verus!
