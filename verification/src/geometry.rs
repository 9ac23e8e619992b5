//! Planes and convex polygons over exact rational coordinates.
//!
//! A `Plane` is a directed line: the set of points whose signed distance
//! is zero, where the signed distance of `p` is `dot(p, normal) -
//! distance`.  A `Polygon` is a clockwise ring of vertices, implicitly
//! closed.  Clipping a polygon against one side of a plane follows the
//! single-plane Sutherland-Hodgman walk over the vertex ring.

use vstd::prelude::*;

use crate::frac::{Frac, Rat, lemma_mul_pos, lemma_rat_norm, rat_fits, rat_nadd, rat_ndiv, rat_nmul, rat_nsub, rat_sub, rat_wf};

verus! {

/// A point or direction in the mathematical model.
pub struct Rat2 {
    pub x: Rat,
    pub y: Rat,
}

pub open spec fn rat2_wf(v: Rat2) -> bool {
    rat_wf(v.x) && rat_wf(v.y)
}

/// A plane in the mathematical model.
pub struct PlaneV {
    pub normal: Rat2,
    pub distance: Rat,
}

pub open spec fn planev_wf(pl: PlaneV) -> bool {
    rat2_wf(pl.normal) && rat_wf(pl.distance)
}

/// A point or direction with exact rational coordinates.
#[derive(Clone, Copy, Debug, PartialEq, Eq, Structural)]
pub struct Vec2 {
    pub x: Frac,
    pub y: Frac,
}

impl View for Vec2 {
    type V = Rat2;

    open spec fn view(&self) -> Rat2 {
        Rat2 { x: self.x@, y: self.y@ }
    }
}

/// The exact dot product of two points or directions.
pub open spec fn rat_dot(a: Rat2, b: Rat2) -> Rat {
    rat_nadd(rat_nmul(a.x, b.x), rat_nmul(a.y, b.y))
}

/// The dot-product computation stays within the machine bounds for
/// these operands: each intermediate value fits.
pub open spec fn dot_fits(a: Rat2, b: Rat2) -> bool {
    &&& rat_fits(rat_nmul(a.x, b.x))
    &&& rat_fits(rat_nmul(a.y, b.y))
    &&& rat_fits(rat_dot(a, b))
}

impl Vec2 {
    pub open spec fn wf(self) -> bool {
        self.x.wf() && self.y.wf()
    }

    pub fn new(x: Frac, y: Frac) -> (r: Vec2)
        ensures
            r == (Vec2 { x, y }),
    {
        Vec2 { x, y }
    }

    /// The exact dot product, when its computation stays within the
    /// machine bounds.
    pub fn dot(&self, other: &Vec2) -> (r: Option<Frac>)
        requires
            self.wf(),
            other.wf(),
        ensures
            r matches Some(d) ==> d.wf() && d@ == rat_dot(self@, other@),
            r is Some <==> dot_fits(self@, other@),
    {
        let m1 = match self.x.checked_mul(&other.x) {
            Some(v) => v,
            None => {
                return None;
            },
        };
        let m2 = match self.y.checked_mul(&other.y) {
            Some(v) => v,
            None => {
                return None;
            },
        };
        m1.checked_add(&m2)
    }
}

/// A directed line: `normal` points toward the greater side, `distance`
/// is the signed offset of the line from the origin along `normal`.
#[derive(Clone, Debug)]
pub struct Plane {
    pub normal: Vec2,
    pub distance: Frac,
}

impl View for Plane {
    type V = PlaneV;

    open spec fn view(&self) -> PlaneV {
        PlaneV { normal: self.normal@, distance: self.distance@ }
    }
}

/// The exact signed distance of `p` from the plane:
/// `dot(p, normal) - distance`.
pub open spec fn rat_dist(p: Rat2, pl: PlaneV) -> Rat {
    rat_nsub(rat_dot(p, pl.normal), pl.distance)
}

/// The signed-distance computation stays within the machine bounds for
/// this point and plane: each intermediate value fits.
pub open spec fn dist_fits(p: Rat2, pl: PlaneV) -> bool {
    &&& dot_fits(p, pl.normal)
    &&& rat_fits(rat_dist(p, pl))
}

/// Which side of `pl` the point `p` lies on: `true` for the `<= 0`
/// side, `false` for the `> 0` side.  Points exactly on the plane count
/// as the `<= 0` side.
pub open spec fn le_side(p: Rat2, pl: PlaneV) -> bool {
    rat_dist(p, pl).n <= 0
}

/// Whether a vertex is kept by a clip that discards the `> 0` side
/// (`clipside_is_greater == true`) or the `<= 0` side
/// (`clipside_is_greater == false`).
pub open spec fn keep_side(p: Rat2, pl: PlaneV, clipside_is_greater: bool) -> bool {
    le_side(p, pl) == clipside_is_greater
}

/// The exact crossing point of segment `(s, e)` with `pl`, at parameter
/// `t = d0 / (d0 - d1)` along the segment, when the endpoints straddle
/// the plane and every intermediate value fits; `None` otherwise.
pub open spec fn spec_line_intersection(pl: PlaneV, s: Rat2, e: Rat2) -> Option<Rat2> {
    if !dist_fits(s, pl) || !dist_fits(e, pl) {
        None
    } else {
        let d0 = rat_dist(s, pl);
        let d1 = rat_dist(e, pl);
        if (d0.n > 0) == (d1.n > 0) {
            None
        } else {
            let den = rat_nsub(d0, d1);
            if !rat_fits(den) {
                None
            } else {
                let t = rat_ndiv(d0, den);
                if !rat_fits(t) {
                    None
                } else {
                    let dx = rat_nsub(e.x, s.x);
                    let dy = rat_nsub(e.y, s.y);
                    let mx = rat_nmul(dx, t);
                    let my = rat_nmul(dy, t);
                    let x = rat_nadd(s.x, mx);
                    let y = rat_nadd(s.y, my);
                    if rat_fits(dx) && rat_fits(mx) && rat_fits(x) && rat_fits(dy) && rat_fits(my)
                        && rat_fits(y) {
                        Some(Rat2 { x, y })
                    } else {
                        None
                    }
                }
            }
        }
    }
}

impl Plane {
    pub open spec fn wf(self) -> bool {
        self.normal.wf() && self.distance.wf()
    }

    /// The exact signed distance of `point`, when its computation stays
    /// within the machine bounds.
    pub fn distance_to_point(&self, point: &Vec2) -> (r: Option<Frac>)
        requires
            self.wf(),
            point.wf(),
        ensures
            r matches Some(d) ==> d.wf() && d@ == rat_dist(point@, self@),
            r is Some <==> dist_fits(point@, self@),
    {
        let d = match point.dot(&self.normal) {
            Some(v) => v,
            None => {
                return None;
            },
        };
        d.checked_sub(&self.distance)
    }

    /// The crossing point of the segment with the plane.  Returns
    /// `None` when both endpoints classify on the same side under the
    /// tie rule (a distance of exactly zero counts as the `<= 0` side),
    /// and also when the exact computation leaves the machine bounds.
    pub fn line_intersection(&self, seg: (Vec2, Vec2)) -> (r: Option<Vec2>)
        requires
            self.wf(),
            seg.0.wf(),
            seg.1.wf(),
        ensures
            r matches Some(p) ==> p.wf() && spec_line_intersection(self@, seg.0@, seg.1@)
                == Some(p@),
            r is Some <==> spec_line_intersection(self@, seg.0@, seg.1@) is Some,
    {
        let (start, end) = seg;
        let d0 = match self.distance_to_point(&start) {
            Some(v) => v,
            None => {
                return None;
            },
        };
        let d1 = match self.distance_to_point(&end) {
            Some(v) => v,
            None => {
                return None;
            },
        };
        if (d0.num > 0) == (d1.num > 0) {
            // both endpoints on the same side: no crossing
            return None;
        }
        let den = match d0.checked_sub(&d1) {
            Some(v) => v,
            None => {
                return None;
            },
        };
        proof {
            lemma_straddle_sub_nonzero(d0@, d1@);
            lemma_mul_pos(d0@.d, d1@.d);
            lemma_rat_norm(rat_sub(d0@, d1@));
        }
        let t = match d0.checked_div(&den) {
            Some(v) => v,
            None => {
                return None;
            },
        };
        let dx = match end.x.checked_sub(&start.x) {
            Some(v) => v,
            None => {
                return None;
            },
        };
        let mx = match dx.checked_mul(&t) {
            Some(v) => v,
            None => {
                return None;
            },
        };
        let x = match start.x.checked_add(&mx) {
            Some(v) => v,
            None => {
                return None;
            },
        };
        let dy = match end.y.checked_sub(&start.y) {
            Some(v) => v,
            None => {
                return None;
            },
        };
        let my = match dy.checked_mul(&t) {
            Some(v) => v,
            None => {
                return None;
            },
        };
        let y = match start.y.checked_add(&my) {
            Some(v) => v,
            None => {
                return None;
            },
        };
        Some(Vec2 { x, y })
    }
}

/// An ordered ring of vertices, wound clockwise and implicitly closed
/// (the last vertex connects back to the first).  The empty polygon
/// stands for "no region" and is a valid value.
#[derive(Clone, Debug)]
pub struct Polygon {
    pub vertices: Vec<Vec2>,
}

impl View for Polygon {
    type V = Seq<Rat2>;

    open spec fn view(&self) -> Seq<Rat2> {
        self.vertices@.map_values(|v: Vec2| v@)
    }
}

/// The index of the vertex that precedes vertex `i` on the ring.
pub open spec fn clip_prev_idx(len: int, i: int) -> int {
    if i == 0 {
        len - 1
    } else {
        i - 1
    }
}

/// What the clipping walk emits for the ring edge from `prev` to
/// `cur`: the kept vertex, the crossing point at a transition, or
/// nothing.  `None` when the exact arithmetic for this edge leaves the
/// machine bounds.
pub open spec fn clip_emit(prev: Rat2, cur: Rat2, pl: PlaneV, clipside_is_greater: bool) -> Option<
    Seq<Rat2>,
> {
    if !dist_fits(prev, pl) || !dist_fits(cur, pl) {
        None
    } else {
        let pk = keep_side(prev, pl, clipside_is_greater);
        let ck = keep_side(cur, pl, clipside_is_greater);
        if pk && ck {
            Some(seq![cur])
        } else if pk && !ck {
            match spec_line_intersection(pl, prev, cur) {
                Some(p) => Some(seq![p]),
                None => None,
            }
        } else if !pk && ck {
            match spec_line_intersection(pl, prev, cur) {
                Some(p) => Some(seq![p, cur]),
                None => None,
            }
        } else {
            Some(Seq::empty())
        }
    }
}

/// The concatenated emissions of the first `i` ring edges (edge `j`
/// runs from the vertex before `j` to vertex `j`).
pub open spec fn clip_upto(verts: Seq<Rat2>, pl: PlaneV, clipside_is_greater: bool, i: int) -> Option<
    Seq<Rat2>,
>
    decreases i,
{
    if i <= 0 {
        Some(Seq::empty())
    } else {
        match clip_upto(verts, pl, clipside_is_greater, i - 1) {
            None => None,
            Some(acc) => match clip_emit(
                verts[clip_prev_idx(verts.len() as int, i - 1)],
                verts[i - 1],
                pl,
                clipside_is_greater,
            ) {
                None => None,
                Some(e) => Some(acc + e),
            },
        }
    }
}

/// The exact result of clipping the ring `verts` against one side of
/// `pl`: the emissions of all ring edges in order.  An empty ring is
/// returned unchanged; `None` when the exact arithmetic of some edge
/// leaves the machine bounds.
pub open spec fn spec_clip(verts: Seq<Rat2>, pl: PlaneV, clipside_is_greater: bool) -> Option<
    Seq<Rat2>,
> {
    if verts.len() == 0 {
        Some(verts)
    } else {
        clip_upto(verts, pl, clipside_is_greater, verts.len() as int)
    }
}

/// Once some prefix of the walk has failed, the whole walk fails.
proof fn lemma_clip_upto_none(verts: Seq<Rat2>, pl: PlaneV, clipside_is_greater: bool, j: int, k: int)
    requires
        0 <= j <= k,
        clip_upto(verts, pl, clipside_is_greater, j) is None,
    ensures
        clip_upto(verts, pl, clipside_is_greater, k) is None,
    decreases k - j,
{
    if k > j {
        lemma_clip_upto_none(verts, pl, clipside_is_greater, j, k - 1);
    }
}

proof fn lemma_clip_upto_all_kept(verts: Seq<Rat2>, pl: PlaneV, clipside_is_greater: bool, i: int)
    requires
        0 <= i <= verts.len(),
        forall|j: int| 0 <= j < verts.len() ==> dist_fits(#[trigger] verts[j], pl),
        forall|j: int| 0 <= j < verts.len() ==> keep_side(#[trigger] verts[j], pl, clipside_is_greater),
    ensures
        clip_upto(verts, pl, clipside_is_greater, i) == Some(verts.take(i)),
    decreases i,
{
    if i == 0 {
        assert(verts.take(0) =~= Seq::<Rat2>::empty());
    } else {
        lemma_clip_upto_all_kept(verts, pl, clipside_is_greater, i - 1);
        let prev = verts[clip_prev_idx(verts.len() as int, i - 1)];
        let cur = verts[i - 1];
        assert(clip_emit(prev, cur, pl, clipside_is_greater) == Some(seq![cur]));
        assert(verts.take(i - 1) + seq![cur] =~= verts.take(i));
    }
}

/// Clip idempotence on the keep side: clipping a ring every vertex of
/// which lies on the keep side returns the ring unchanged, vertex for
/// vertex and in order.
pub proof fn lemma_clip_keeps_all(verts: Seq<Rat2>, pl: PlaneV, clipside_is_greater: bool)
    requires
        forall|j: int| 0 <= j < verts.len() ==> dist_fits(#[trigger] verts[j], pl),
        forall|j: int| 0 <= j < verts.len() ==> keep_side(#[trigger] verts[j], pl, clipside_is_greater),
    ensures
        spec_clip(verts, pl, clipside_is_greater) == Some(verts),
{
    if verts.len() > 0 {
        lemma_clip_upto_all_kept(verts, pl, clipside_is_greater, verts.len() as int);
        assert(verts.take(verts.len() as int) =~= verts);
    }
}

proof fn lemma_clip_upto_all_dropped(
    verts: Seq<Rat2>,
    pl: PlaneV,
    clipside_is_greater: bool,
    i: int,
)
    requires
        0 <= i <= verts.len(),
        forall|j: int| 0 <= j < verts.len() ==> dist_fits(#[trigger] verts[j], pl),
        forall|j: int|
            0 <= j < verts.len() ==> !keep_side(#[trigger] verts[j], pl, clipside_is_greater),
    ensures
        clip_upto(verts, pl, clipside_is_greater, i) == Some(Seq::<Rat2>::empty()),
    decreases i,
{
    if i > 0 {
        lemma_clip_upto_all_dropped(verts, pl, clipside_is_greater, i - 1);
        let prev = verts[clip_prev_idx(verts.len() as int, i - 1)];
        let cur = verts[i - 1];
        assert(clip_emit(prev, cur, pl, clipside_is_greater) == Some(Seq::<Rat2>::empty()));
        assert(Seq::<Rat2>::empty() + Seq::<Rat2>::empty() =~= Seq::<Rat2>::empty());
    }
}

/// Clip annihilation on the clip side: clipping a ring every vertex of
/// which lies strictly inside the clipped side returns the empty ring.
pub proof fn lemma_clip_drops_all(verts: Seq<Rat2>, pl: PlaneV, clipside_is_greater: bool)
    requires
        forall|j: int| 0 <= j < verts.len() ==> dist_fits(#[trigger] verts[j], pl),
        forall|j: int|
            0 <= j < verts.len() ==> !keep_side(#[trigger] verts[j], pl, clipside_is_greater),
    ensures
        spec_clip(verts, pl, clipside_is_greater) == Some(Seq::<Rat2>::empty()),
{
    if verts.len() == 0 {
        assert(verts =~= Seq::<Rat2>::empty());
    } else {
        lemma_clip_upto_all_dropped(verts, pl, clipside_is_greater, verts.len() as int);
    }
}

proof fn lemma_concat_contains<A>(a: Seq<A>, b: Seq<A>, x: A)
    requires
        a.contains(x) || b.contains(x),
    ensures
        (a + b).contains(x),
{
    if a.contains(x) {
        let i = choose|i: int| 0 <= i < a.len() && a[i] == x;
        assert((a + b)[i] == x);
    } else {
        let i = choose|i: int| 0 <= i < b.len() && b[i] == x;
        assert((a + b)[a.len() + i] == x);
    }
}

proof fn lemma_clip_upto_contains_kept(
    verts: Seq<Rat2>,
    pl: PlaneV,
    clipside_is_greater: bool,
    i: int,
    out: Seq<Rat2>,
)
    requires
        0 <= i <= verts.len(),
        clip_upto(verts, pl, clipside_is_greater, i) == Some(out),
    ensures
        forall|j: int|
            0 <= j < i && keep_side(#[trigger] verts[j], pl, clipside_is_greater) ==> out.contains(
                verts[j],
            ),
    decreases i,
{
    if i > 0 {
        let acc = clip_upto(verts, pl, clipside_is_greater, i - 1)->Some_0;
        let e = clip_emit(
            verts[clip_prev_idx(verts.len() as int, i - 1)],
            verts[i - 1],
            pl,
            clipside_is_greater,
        )->Some_0;
        lemma_clip_upto_contains_kept(verts, pl, clipside_is_greater, i - 1, acc);
        assert forall|j: int|
            0 <= j < i && keep_side(#[trigger] verts[j], pl, clipside_is_greater) implies out
            .contains(verts[j]) by {
            if j < i - 1 {
                lemma_concat_contains(acc, e, verts[j]);
            } else {
                if keep_side(
                    verts[clip_prev_idx(verts.len() as int, i - 1)],
                    pl,
                    clipside_is_greater,
                ) {
                    assert(e[0] == verts[j]);
                } else {
                    assert(e[1] == verts[j]);
                }
                assert(e.contains(verts[j]));
                lemma_concat_contains(acc, e, verts[j]);
            }
        }
    }
}

/// Clip complementarity at the vertices: when the two complementary
/// clips of one ring against one plane both succeed, every vertex of
/// the ring survives into the output of the side that keeps it — the
/// `<= 0`-side output when its signed distance is `<= 0` (boundary
/// vertices included), the `> 0`-side output otherwise.
pub proof fn lemma_clip_complementary_vertices(verts: Seq<Rat2>, pl: PlaneV, a: Seq<Rat2>, b: Seq<
    Rat2,
>)
    requires
        spec_clip(verts, pl, true) == Some(a),
        spec_clip(verts, pl, false) == Some(b),
    ensures
        forall|j: int| 0 <= j < verts.len() && le_side(#[trigger] verts[j], pl) ==> a.contains(
            verts[j],
        ),
        forall|j: int| 0 <= j < verts.len() && !le_side(#[trigger] verts[j], pl) ==> b.contains(
            verts[j],
        ),
{
    if verts.len() > 0 {
        lemma_clip_upto_contains_kept(verts, pl, true, verts.len() as int, a);
        lemma_clip_upto_contains_kept(verts, pl, false, verts.len() as int, b);
    }
}

impl Polygon {
    pub open spec fn wf(self) -> bool {
        forall|i: int| 0 <= i < self.vertices@.len() ==> (#[trigger] self.vertices@[i]).wf()
    }

    /// The four corners of the axis-aligned rectangle spanned by `min`
    /// and `max`, in clockwise order.
    pub fn new_rect(min: Vec2, max: Vec2) -> (r: Polygon)
        requires
            min.wf(),
            max.wf(),
        ensures
            r.wf(),
            r@ =~= seq![
                min@,
                (Rat2 { x: min@.x, y: max@.y }),
                max@,
                (Rat2 { x: max@.x, y: min@.y }),
            ],
    {
        let vertices = vec![
            min,
            Vec2 { x: min.x, y: max.y },
            max,
            Vec2 { x: max.x, y: min.y },
        ];
        Polygon { vertices }
    }

    /// Remove the part of the polygon on one side of `plane` and
    /// return the remaining ring: the `> 0` side is discarded when
    /// `clipside_is_greater` is true, the `<= 0` side otherwise.
    /// Points exactly on the plane always count as the `<= 0` side, so
    /// the two complementary calls both keep the shared boundary.
    ///
    /// A non-empty input ring must have at least three vertices.
    /// `None` only when the exact arithmetic of some edge leaves the
    /// machine bounds.
    pub fn clip_against_plane(&self, plane: &Plane, clipside_is_greater: bool) -> (r: Option<
        Polygon,
    >)
        requires
            self.wf(),
            plane.wf(),
            self@.len() == 0 || self@.len() >= 3,
        ensures
            r matches Some(q) ==> q.wf() && spec_clip(self@, plane@, clipside_is_greater) == Some(
                q@,
            ),
            r is Some <==> spec_clip(self@, plane@, clipside_is_greater) is Some,
    {
        self.clip_walk(plane, clipside_is_greater)
    }

    /// The clipping walk itself, total in the ring length: the tree
    /// traversal also applies it to intermediate rings that may be
    /// degenerate.
    pub(crate) fn clip_walk(&self, plane: &Plane, clipside_is_greater: bool) -> (r: Option<Polygon>)
        requires
            self.wf(),
            plane.wf(),
        ensures
            r matches Some(q) ==> q.wf() && spec_clip(self@, plane@, clipside_is_greater) == Some(
                q@,
            ),
            r is Some <==> spec_clip(self@, plane@, clipside_is_greater) is Some,
    {
        let n = self.vertices.len();
        if n == 0 {
            let empty = Polygon { vertices: Vec::new() };
            proof {
                assert(empty@ =~= self@);
            }
            return Some(empty);
        }
        let mut out: Vec<Vec2> = Vec::new();
        let mut prev: Vec2 = self.vertices[n - 1];
        let mut prev_keep: bool = match plane.distance_to_point(&prev) {
            Some(d) => d.le_zero() == clipside_is_greater,
            None => {
                proof {
                    lemma_clip_upto_none(self@, plane@, clipside_is_greater, 1, n as int);
                }
                return None;
            },
        };
        let mut i: usize = 0;
        while i < n
            invariant
                self.wf(),
                plane.wf(),
                n == self.vertices@.len(),
                0 < n,
                0 <= i <= n,
                prev == self.vertices@[clip_prev_idx(n as int, i as int)],
                dist_fits(prev@, plane@),
                prev_keep == keep_side(prev@, plane@, clipside_is_greater),
                forall|j: int| 0 <= j < out@.len() ==> (#[trigger] out@[j]).wf(),
                clip_upto(self@, plane@, clipside_is_greater, i as int) == Some(
                    out@.map_values(|v: Vec2| v@),
                ),
            decreases n - i,
        {
            let ghost acc = out@.map_values(|v: Vec2| v@);
            let current = self.vertices[i];
            proof {
                assert(self@[i as int] == current@);
                assert(self@[clip_prev_idx(n as int, i as int)] == prev@);
            }
            let cur_keep: bool = match plane.distance_to_point(&current) {
                Some(d) => d.le_zero() == clipside_is_greater,
                None => {
                    proof {
                        lemma_clip_upto_none(
                            self@,
                            plane@,
                            clipside_is_greater,
                            i as int + 1,
                            n as int,
                        );
                    }
                    return None;
                },
            };
            if prev_keep && cur_keep {
                out.push(current);
                proof {
                    assert(out@.map_values(|v: Vec2| v@) =~= acc + seq![current@]);
                }
            } else if prev_keep && !cur_keep {
                let clipvert = match plane.line_intersection((prev, current)) {
                    Some(v) => v,
                    None => {
                        proof {
                            lemma_clip_upto_none(
                                self@,
                                plane@,
                                clipside_is_greater,
                                i as int + 1,
                                n as int,
                            );
                        }
                        return None;
                    },
                };
                out.push(clipvert);
                proof {
                    assert(out@.map_values(|v: Vec2| v@) =~= acc + seq![clipvert@]);
                }
            } else if !prev_keep && cur_keep {
                let clipvert = match plane.line_intersection((prev, current)) {
                    Some(v) => v,
                    None => {
                        proof {
                            lemma_clip_upto_none(
                                self@,
                                plane@,
                                clipside_is_greater,
                                i as int + 1,
                                n as int,
                            );
                        }
                        return None;
                    },
                };
                out.push(clipvert);
                out.push(current);
                proof {
                    assert(out@.map_values(|v: Vec2| v@) =~= acc + seq![clipvert@, current@]);
                }
            } else {
                proof {
                    assert(out@.map_values(|v: Vec2| v@) =~= acc + Seq::<Rat2>::empty());
                }
            }
            prev = current;
            prev_keep = cur_keep;
            i = i + 1;
        }
        let result = Polygon { vertices: out };
        Some(result)
    }
}

/// When two signed distances straddle zero under the tie rule, their
/// difference is a nonzero rational.
pub proof fn lemma_straddle_sub_nonzero(d0: Rat, d1: Rat)
    requires
        rat_wf(d0),
        rat_wf(d1),
        (d0.n > 0) != (d1.n > 0),
    ensures
        rat_sub(d0, d1).n != 0,
{
    if d0.n > 0 {
        assert(d0.n * d1.d - d1.n * d0.d > 0) by (nonlinear_arith)
            requires
                d0.n > 0,
                d1.n <= 0,
                d0.d > 0,
                d1.d > 0,
        ;
    } else {
        assert(d0.n * d1.d - d1.n * d0.d < 0) by (nonlinear_arith)
            requires
                d0.n <= 0,
                d1.n > 0,
                d0.d > 0,
                d1.d > 0,
        ;
    }
}

} // verus!
