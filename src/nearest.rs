use vstd::prelude::*;
use crate::house::{House, MAX_DIST_SQ, in_band, lemma_band_mono_d, lemma_band_mono_d0, lemma_band_refl, within_band};

verus! {

/// The smoothing radius used when none is given, in raster units.
pub const SMOOTHING_RAD: u16 = 2;

/// First index from `i` on whose squared distance exceeds `d`, or the length.
pub open spec fn first_above(s: Seq<(usize, u64)>, d: u64, i: int) -> int
    decreases s.len() - i,
{
    if i >= s.len() {
        s.len() as int
    } else if s[i].1 > d {
        i
    } else {
        first_above(s, d, i + 1)
    }
}

/// First index from `i` on that lies outside the band around `s[0]`, or the length.
pub open spec fn first_out(s: Seq<(usize, u64)>, r: int, i: int) -> int
    decreases s.len() - i,
{
    if i >= s.len() {
        s.len() as int
    } else if !in_band(s[0].1 as int, s[i].1 as int, r) {
        i
    } else {
        first_out(s, r, i + 1)
    }
}

/// The set after one insertion: the new point goes after every member at the
/// same or a smaller distance, then the set is cut at the first member outside
/// the band around the closest one.
pub open spec fn add_spec(s: Seq<(usize, u64)>, p: (usize, u64), r: int) -> Seq<(usize, u64)> {
    if s.len() == 0 {
        seq![p]
    } else {
        let ins = s.insert(first_above(s, p.1, 0), p);
        ins.take(first_out(ins, r, 1))
    }
}

pub open spec fn sorted_by_dist(s: Seq<(usize, u64)>) -> bool {
    forall|i: int, j: int| 0 <= i <= j < s.len() ==> s[i].1 <= s[j].1
}

/// The group of the seed that member `i` of `e` names.
pub open spec fn group_at(e: Seq<(usize, u64)>, pts: Seq<House>, i: int) -> u8 {
    pts[e[i].0 as int].group
}

/// First index from `i` on whose seed's group differs from that of the closest member.
pub open spec fn first_other(e: Seq<(usize, u64)>, pts: Seq<House>, i: int) -> int
    decreases e.len() - i,
{
    if i >= e.len() {
        e.len() as int
    } else if group_at(e, pts, i) != group_at(e, pts, 0) {
        i
    } else {
        first_other(e, pts, i + 1)
    }
}

/// Two or more members, and one whose group differs from the closest one's.
pub open spec fn is_border_spec(e: Seq<(usize, u64)>, pts: Seq<House>) -> bool {
    e.len() >= 2 && exists|i: int| 1 <= i < e.len() && #[trigger] group_at(e, pts, i) != group_at(e, pts, 0)
}

/// The closest member, with the first later member of another group.
pub open spec fn pair_spec(e: Seq<(usize, u64)>, pts: Seq<House>) -> Option<((usize, u64), (usize, u64))> {
    if e.len() >= 2 && first_other(e, pts, 1) < e.len() {
        Some((e[0], e[first_other(e, pts, 1)]))
    } else {
        None
    }
}

/// Every member names a seed of `pts`.
pub open spec fn indices_in(e: Seq<(usize, u64)>, pts: Seq<House>) -> bool {
    forall|i: int| 0 <= i < e.len() ==> (#[trigger] e[i]).0 < pts.len()
}

pub proof fn lemma_first_other(e: Seq<(usize, u64)>, pts: Seq<House>, i: int)
    requires
        0 <= i,
    ensures
        i <= first_other(e, pts, i) <= e.len() || (i > e.len() && first_other(e, pts, i) == e.len()),
        first_other(e, pts, i) < e.len() ==> group_at(e, pts, first_other(e, pts, i)) != group_at(e, pts, 0),
        first_other(e, pts, i) < e.len() <==> exists|m: int| i <= m < e.len() && #[trigger] group_at(e, pts, m) != group_at(e, pts, 0),
    decreases e.len() - i,
{
    if i < e.len() {
        lemma_first_other(e, pts, i + 1);
        if group_at(e, pts, i) == group_at(e, pts, 0) {
            assert forall|m: int| i <= m < e.len() && #[trigger] group_at(e, pts, m) != group_at(e, pts, 0)
                implies i + 1 <= m by {}
        }
    }
}

/// A set of contending seeds is a border exactly when it yields a pair.
pub proof fn lemma_border_iff_pair(e: Seq<(usize, u64)>, pts: Seq<House>)
    ensures
        is_border_spec(e, pts) == pair_spec(e, pts).is_some(),
{
    lemma_first_other(e, pts, 1);
}

/// The invariant of a contending set `e` to which the pairs `a` were added,
/// with radius `r`: the members are sorted by distance and lie in the band
/// around the closest one, the closest is no farther than anything added, and
/// everything added that lies in that band is a member.
pub open spec fn band_inv(e: Seq<(usize, u64)>, a: Seq<(usize, u64)>, r: int) -> bool {
    &&& sorted_by_dist(e)
    &&& (e.len() == 0 <==> a.len() == 0)
    &&& forall|i: int| 0 <= i < e.len() ==> in_band(e[0].1 as int, #[trigger] e[i].1 as int, r)
    &&& forall|i: int| 0 <= i < a.len() ==> e[0].1 <= (#[trigger] a[i]).1
    &&& forall|i: int| 0 <= i < a.len() ==> (#[trigger] a[i]).1 <= MAX_DIST_SQ
    &&& forall|i: int| 0 <= i < a.len() && in_band(e[0].1 as int, (#[trigger] a[i]).1 as int, r)
            ==> e.contains(a[i])
    &&& forall|i: int| 0 <= i < e.len() ==> a.contains(#[trigger] e[i])
}

pub proof fn lemma_first_above_props(s: Seq<(usize, u64)>, d: u64, i: int)
    requires
        0 <= i <= s.len(),
        sorted_by_dist(s),
    ensures
        i <= first_above(s, d, i) <= s.len(),
        forall|m: int| i <= m < first_above(s, d, i) ==> s[m].1 <= d,
        forall|m: int| first_above(s, d, i) <= m < s.len() ==> s[m].1 > d,
    decreases s.len() - i,
{
    if i < s.len() {
        lemma_first_above_props(s, d, i + 1);
    }
}

pub proof fn lemma_first_out_props(s: Seq<(usize, u64)>, r: int, i: int)
    requires
        1 <= i <= s.len(),
    ensures
        i <= first_out(s, r, i) <= s.len(),
        forall|m: int| i <= m < first_out(s, r, i) ==> in_band(s[0].1 as int, #[trigger] s[m].1 as int, r),
        first_out(s, r, i) == s.len() || !in_band(s[0].1 as int, s[first_out(s, r, i)].1 as int, r),
    decreases s.len() - i,
{
    if i < s.len() {
        lemma_first_out_props(s, r, i + 1);
    }
}

/// One insertion keeps the invariant of a contending set.
pub proof fn lemma_add_spec_inv(e: Seq<(usize, u64)>, a: Seq<(usize, u64)>, p: (usize, u64), r: int)
    requires
        band_inv(e, a, r),
        p.1 <= MAX_DIST_SQ,
    ensures
        band_inv(add_spec(e, p, r), a.push(p), r),
{
    if e.len() == 0 {
        lemma_band_refl(p.1 as int, r);
        let f = add_spec(e, p, r);
        let a2 = a.push(p);
        assert(f[0] == p);
        assert(a2[0] == p);
    } else {
        let k = first_above(e, p.1, 0);
        lemma_first_above_props(e, p.1, 0);
        lemma_insert_sorted(e, p, k);
        let ins = e.insert(k, p);
        lemma_first_out_props(ins, r, 1);
        lemma_add_keeps_inv(e, a, p, r, k, first_out(ins, r, 1));
    }
}

/// Inserting at the first position past every distance no larger keeps the order.
pub proof fn lemma_insert_sorted(e: Seq<(usize, u64)>, p: (usize, u64), k: int)
    requires
        sorted_by_dist(e),
        0 <= k <= e.len(),
        first_above(e, p.1, 0) == first_above(e, p.1, k),
        forall|i: int| 0 <= i < k ==> e[i].1 <= p.1,
        k == e.len() || e[k].1 > p.1,
    ensures
        k == first_above(e, p.1, 0),
        sorted_by_dist(e.insert(k, p)),
        forall|i: int| k <= i < e.len() ==> e[i].1 > p.1,
{
    lemma_first_above_props(e, p.1, k);
    let ins = e.insert(k, p);
    assert forall|i: int| k <= i < e.len() implies e[i].1 > p.1 by {
        assert(e[k].1 <= e[i].1);
    }
    assert forall|i: int, j: int| 0 <= i <= j < ins.len() implies ins[i].1 <= ins[j].1 by {
        if i < k && j < k {
            assert(ins[i] == e[i] && ins[j] == e[j]);
        } else if i < k && j == k {
            assert(ins[i] == e[i]);
        } else if i < k {
            assert(ins[i] == e[i] && ins[j] == e[j - 1]);
        } else if i == k && j > k {
            assert(ins[j] == e[j - 1]);
        } else if i > k {
            assert(ins[i] == e[i - 1] && ins[j] == e[j - 1]);
        }
    }
}

/// Inserting and then cutting at the band keeps the invariant.
#[verifier::rlimit(50)]
pub proof fn lemma_add_keeps_inv(e: Seq<(usize, u64)>, a: Seq<(usize, u64)>, p: (usize, u64), r: int, k: int, j: int)
    requires
        band_inv(e, a, r),
        e.len() > 0,
        p.1 <= MAX_DIST_SQ,
        0 <= k <= e.len(),
        sorted_by_dist(e.insert(k, p)),
        forall|i: int| 0 <= i < k ==> e[i].1 <= p.1,
        forall|i: int| k <= i < e.len() ==> e[i].1 > p.1,
        1 <= j <= e.len() + 1,
        forall|i: int| 1 <= i < j ==> in_band(e.insert(k, p)[0].1 as int, #[trigger] e.insert(k, p)[i].1 as int, r),
        j == e.len() + 1 || !in_band(e.insert(k, p)[0].1 as int, e.insert(k, p)[j].1 as int, r),
    ensures
        band_inv(e.insert(k, p).take(j), a.push(p), r),
{
    let ins = e.insert(k, p);
    let f = ins.take(j);
    let a2 = a.push(p);
    let d0 = ins[0].1;
    assert(ins[k] == p);
    assert(forall|i: int| 0 <= i < k ==> ins[i] == e[i]);
    assert(forall|i: int| k < i < ins.len() ==> ins[i] == e[i - 1]);
    if k == 0 {
        assert(d0 == p.1);
        assert(e[0].1 > p.1);
    } else {
        assert(ins[0] == e[0]);
    }
    assert(d0 <= e[0].1);
    lemma_band_refl(d0 as int, r);
    assert forall|i: int| j <= i < ins.len() implies !in_band(d0 as int, #[trigger] ins[i].1 as int, r) by {
        if in_band(d0 as int, ins[i].1 as int, r) {
            lemma_band_mono_d(d0 as int, ins[j].1 as int, ins[i].1 as int, r);
        }
    }
    assert forall|i: int| 0 <= i < a2.len() implies d0 <= (#[trigger] a2[i]).1 by {
        if i < a.len() {
            assert(a2[i] == a[i]);
        }
    }
    assert forall|i: int| 0 <= i < a2.len() implies (#[trigger] a2[i]).1 <= MAX_DIST_SQ by {
        if i < a.len() {
            assert(a2[i] == a[i]);
        }
    }
    assert forall|i: int| 0 <= i < f.len() implies in_band(f[0].1 as int, #[trigger] f[i].1 as int, r) by {
        if i > 0 {
            assert(in_band(d0 as int, ins[i].1 as int, r));
        }
    }
    assert forall|i: int| 0 <= i < a2.len() && in_band(f[0].1 as int, (#[trigger] a2[i]).1 as int, r)
        implies f.contains(a2[i]) by {
        let x = a2[i];
        let idx: int = if i == a.len() {
            k
        } else {
            assert(a2[i] == a[i]);
            lemma_band_mono_d0(e[0].1 as int, d0 as int, x.1 as int, r);
            assert(e.contains(x));
            let m = choose|m: int| 0 <= m < e.len() && e[m] == x;
            if m < k { m } else { m + 1 }
        };
        assert(ins[idx] == x);
        if idx >= j {
            assert(!in_band(d0 as int, ins[idx].1 as int, r));
        }
        assert(f[idx] == x);
    }
    assert forall|i: int| 0 <= i < f.len() implies a2.contains(#[trigger] f[i]) by {
        if i == k {
            assert(a2[a.len() as int] == f[i]);
        } else {
            let m = if i < k { i } else { i - 1 };
            assert(f[i] == e[m]);
            assert(a.contains(e[m]));
            let q = choose|q: int| 0 <= q < a.len() && a[q] == e[m];
            assert(a2[q] == f[i]);
        }
    }
    assert(sorted_by_dist(f));
}

/// The seeds that contend for nearest at one cell: `(seed index, squared
/// distance)` pairs, ascending by distance, all within the smoothing band of
/// the closest one.
pub struct NearestHouses {
    nearest: Vec<(usize, u64)>,
    radius: u16,
    added: Ghost<Seq<(usize, u64)>>,
}

impl View for NearestHouses {
    type V = Seq<(usize, u64)>;

    closed spec fn view(&self) -> Seq<(usize, u64)> {
        self.nearest@
    }
}

impl NearestHouses {
    /// Every pair handed to `add` so far, in order.
    pub closed spec fn added(&self) -> Seq<(usize, u64)> {
        self.added@
    }

    pub closed spec fn radius(&self) -> int {
        self.radius as int
    }

    /// The invariant of the set: see `band_inv`.
    pub open spec fn wf(&self) -> bool {
        band_inv(self@, self.added(), self.radius())
    }

    pub fn new() -> (r: NearestHouses)
        ensures
            r.wf(),
            r@.len() == 0,
            r.added().len() == 0,
            r.radius() == SMOOTHING_RAD,
    {
        NearestHouses { nearest: Vec::new(), radius: SMOOTHING_RAD, added: Ghost(Seq::empty()) }
    }

    pub fn with_radius(radius: u16) -> (r: NearestHouses)
        ensures
            r.wf(),
            r@.len() == 0,
            r.added().len() == 0,
            r.radius() == radius,
    {
        NearestHouses { nearest: Vec::new(), radius, added: Ghost(Seq::empty()) }
    }

    /// Adds a `(seed index, squared distance)` pair.
    pub fn add(&mut self, point: (usize, u64))
        requires
            old(self).wf(),
            point.1 <= MAX_DIST_SQ,
        ensures
            final(self).wf(),
            final(self)@ == add_spec(old(self)@, point, old(self).radius()),
            final(self).added() == old(self).added().push(point),
            final(self).radius() == old(self).radius(),
    {
        let ghost e = self.nearest@;
        let ghost a = self.added@;
        let ghost r = self.radius as int;
        proof {
            self.added = Ghost(a.push(point));
        }
        if self.nearest.len() == 0 {
            self.nearest.push(point);
            proof {
                lemma_band_refl(point.1 as int, r);
                assert(self.added@[0] == point);
                assert(self.nearest@[0] == point);
                assert(self.nearest@ =~= add_spec(e, point, r));
            }
            return;
        }
        let n = self.nearest.len();
        let mut k: usize = 0;
        while k < n && self.nearest[k].1 <= point.1
            invariant
                n == self.nearest@.len(),
                self.nearest@ == e,
                0 <= k <= n,
                forall|i: int| 0 <= i < k ==> e[i].1 <= point.1,
                first_above(e, point.1, 0) == first_above(e, point.1, k as int),
            decreases n - k,
        {
            k = k + 1;
        }
        proof {
            lemma_insert_sorted(e, point, k as int);
        }
        self.nearest.insert(k, point);
        let ghost ins = self.nearest@;
        let len = self.nearest.len();
        let d0 = self.nearest[0].1;
        proof {
            assert(ins[0] == e[0] || ins[0] == point);
            assert forall|i: int| 0 <= i < e.len() implies (#[trigger] e[i]).1 <= MAX_DIST_SQ by {
                assert(a.contains(e[i]));
                let q = choose|q: int| 0 <= q < a.len() && a[q] == e[i];
                assert(a[q].1 <= MAX_DIST_SQ);
            }
            assert forall|i: int| 0 <= i < ins.len() implies (#[trigger] ins[i]).1 <= MAX_DIST_SQ by {
                if i < k {
                    assert(ins[i] == e[i]);
                } else if i > k {
                    assert(ins[i] == e[i - 1]);
                }
            }
        }
        let mut j: usize = 1;
        while j < len && within_band(d0, self.nearest[j].1, self.radius)
            invariant
                len == self.nearest@.len(),
                self.nearest@ == ins,
                ins == e.insert(k as int, point),
                ins.len() == n + 1,
                d0 == ins[0].1,
                d0 <= MAX_DIST_SQ,
                forall|i: int| 0 <= i < ins.len() ==> (#[trigger] ins[i]).1 <= MAX_DIST_SQ,
                band_inv(e, a, r),
                point.1 <= MAX_DIST_SQ,
                0 <= k <= n,
                1 <= j <= len,
                forall|i: int| 1 <= i < j ==> in_band(d0 as int, #[trigger] ins[i].1 as int, r),
                first_out(ins, r, 1) == first_out(ins, r, j as int),
                r == self.radius,
            decreases len - j,
        {
            j = j + 1;
        }
        self.nearest.truncate(j);
        proof {
            assert(self.nearest@ =~= add_spec(e, point, r));
            lemma_add_keeps_inv(e, a, point, r, k as int, j as int);
        }
    }

    /// The members, closest first.
    pub fn members(&self) -> (r: Vec<(usize, u64)>)
        ensures
            r@ == self@,
    {
        let mut r: Vec<(usize, u64)> = Vec::new();
        let mut i: usize = 0;
        while i < self.nearest.len()
            invariant
                0 <= i <= self@.len(),
                r@ == self@.take(i as int),
            decreases self@.len() - i,
        {
            r.push(self.nearest[i]);
            i = i + 1;
            assert(r@ =~= self@.take(i as int));
        }
        assert(self@.take(self@.len() as int) =~= self@);
        r
    }

    /// Whether the members hold two seeds of different groups.
    pub fn is_border(&self, points: &Vec<House>) -> (r: bool)
        requires
            indices_in(self@, points@),
        ensures
            r == is_border_spec(self@, points@),
    {
        if self.nearest.len() <= 1 {
            return false;
        }
        let last_group = points[self.nearest[0].0].group;
        let mut i: usize = 1;
        while i < self.nearest.len()
            invariant
                indices_in(self@, points@),
                1 <= i <= self@.len(),
                self@.len() >= 2,
                last_group == group_at(self@, points@, 0),
                forall|m: int| 1 <= m < i ==> group_at(self@, points@, m) == last_group,
            decreases self@.len() - i,
        {
            if points[self.nearest[i].0].group != last_group {
                assert(group_at(self@, points@, i as int) != group_at(self@, points@, 0));
                return true;
            }
            i = i + 1;
        }
        false
    }

    /// The closest member and the first later member of another group, if any.
    pub fn get_houses(&self, points: &Vec<House>) -> (r: Option<[(usize, u64); 2]>)
        requires
            indices_in(self@, points@),
        ensures
            r.is_some() == pair_spec(self@, points@).is_some(),
            r.is_some() ==> r.unwrap()[0] == pair_spec(self@, points@).unwrap().0
                && r.unwrap()[1] == pair_spec(self@, points@).unwrap().1,
    {
        if self.nearest.len() <= 1 {
            return None;
        }
        let last = self.nearest[0];
        let last_group = points[last.0].group;
        let mut i: usize = 1;
        while i < self.nearest.len()
            invariant
                indices_in(self@, points@),
                1 <= i <= self@.len(),
                self@.len() >= 2,
                last == self@[0],
                last_group == group_at(self@, points@, 0),
                first_other(self@, points@, 1) == first_other(self@, points@, i as int),
            decreases self@.len() - i,
        {
            if points[self.nearest[i].0].group != last_group {
                return Some([last, self.nearest[i]]);
            }
            i = i + 1;
        }
        None
    }
}

} // verus!
