//! Planar geometry on fixed-point coordinates.

use vstd::prelude::*;

use crate::decimal::value_bound;

verus! {

/// A point; `x` is the longitude and `y` the latitude, in ten-millionths of a degree.
#[derive(Clone, Copy, Debug, PartialEq, Eq, Structural)]
pub struct Coord {
    pub x: i64,
    pub y: i64,
}

/// A polygon: an outer ring and zero or more holes.
#[derive(Clone, Debug)]
pub struct Polygon {
    pub exterior: Vec<Coord>,
    pub interiors: Vec<Vec<Coord>>,
}

/// An axis-aligned bounding box.
#[derive(Clone, Copy, Debug, PartialEq, Eq, Structural)]
pub struct BBox {
    pub min_x: i64,
    pub min_y: i64,
    pub max_x: i64,
    pub max_y: i64,
}

/// Why a ring or a polygon could not be built.
#[derive(Clone, Copy, Debug, PartialEq, Eq, Structural)]
pub enum PolygonError {
    /// A coordinate pair or a number in it is malformed, or out of range.
    Malformed,
    /// A ring's first and last coordinates differ.
    NotClosed,
}

pub open spec fn coord_in_range(p: Coord) -> bool {
    -value_bound() < p.x < value_bound() && -value_bound() < p.y < value_bound()
}

pub open spec fn ring_in_range(r: Seq<Coord>) -> bool {
    forall|i: int| 0 <= i < r.len() ==> coord_in_range(#[trigger] r[i])
}

/// A ring is closed when its first and last coordinates are equal.
pub open spec fn is_closed(r: Seq<Coord>) -> bool {
    r.len() == 0 || r[0] == r[r.len() - 1]
}

impl View for Polygon {
    type V = (Seq<Coord>, Seq<Seq<Coord>>);

    open spec fn view(&self) -> Self::V {
        (self.exterior@, self.interiors@.map_values(|r: Vec<Coord>| r@))
    }
}

impl Polygon {
    /// Every ring is closed and every coordinate is in range.
    pub open spec fn wf(&self) -> bool {
        &&& is_closed(self.exterior@)
        &&& ring_in_range(self.exterior@)
        &&& forall|i: int|
            0 <= i < self.interiors@.len() ==> is_closed(#[trigger] self.interiors@[i]@)
                && ring_in_range(self.interiors@[i]@)
    }

    /// Builds a polygon from its rings, refusing a ring that is not closed.
    pub fn from_rings(exterior: Vec<Coord>, interiors: Vec<Vec<Coord>>) -> (r: Result<
        Polygon,
        PolygonError,
    >)
        ensures
            match r {
                Ok(p) => p.exterior@ == exterior@ && p@.1 == interiors@.map_values(
                    |q: Vec<Coord>| q@,
                ) && p.wf(),
                Err(PolygonError::NotClosed) => {
                    &&& rings_in_range(exterior@, interiors@)
                    &&& !rings_closed(exterior@, interiors@)
                },
                Err(PolygonError::Malformed) => !rings_in_range(exterior@, interiors@),
            },
    {
        if !check_ring_range(&exterior) {
            return Err(PolygonError::Malformed);
        }
        let mut i: usize = 0;
        while i < interiors.len()
            invariant
                i <= interiors@.len(),
                forall|j: int| 0 <= j < i ==> ring_in_range(#[trigger] interiors@[j]@),
            decreases interiors@.len() - i,
        {
            if !check_ring_range(&interiors[i]) {
                return Err(PolygonError::Malformed);
            }
            i += 1;
        }
        assert(rings_in_range(exterior@, interiors@));
        if !ring_closed(&exterior) {
            return Err(PolygonError::NotClosed);
        }
        let mut i: usize = 0;
        while i < interiors.len()
            invariant
                i <= interiors@.len(),
                forall|j: int| 0 <= j < i ==> is_closed(#[trigger] interiors@[j]@),
                rings_in_range(exterior@, interiors@),
                is_closed(exterior@),
            decreases interiors@.len() - i,
        {
            if !ring_closed(&interiors[i]) {
                return Err(PolygonError::NotClosed);
            }
            i += 1;
        }
        let p = Polygon { exterior, interiors };
        assert(p.wf());
        Ok(p)
    }
}

pub open spec fn rings_in_range(exterior: Seq<Coord>, interiors: Seq<Vec<Coord>>) -> bool {
    ring_in_range(exterior) && forall|i: int|
        0 <= i < interiors.len() ==> ring_in_range(#[trigger] interiors[i]@)
}

pub open spec fn rings_closed(exterior: Seq<Coord>, interiors: Seq<Vec<Coord>>) -> bool {
    is_closed(exterior) && forall|i: int|
        0 <= i < interiors.len() ==> is_closed(#[trigger] interiors[i]@)
}

/// Whether a ring is closed.
pub fn ring_closed(r: &Vec<Coord>) -> (b: bool)
    ensures
        b == is_closed(r@),
{
    r.len() == 0 || r[0] == r[r.len() - 1]
}

fn in_bound(v: i64) -> (b: bool)
    ensures
        b == (-value_bound() < v < value_bound()),
{
    -1000000000000000000 < v && v < 1000000000000000000
}

pub fn check_ring_range(r: &Vec<Coord>) -> (b: bool)
    ensures
        b == ring_in_range(r@),
{
    let mut i: usize = 0;
    while i < r.len()
        invariant
            i <= r@.len(),
            forall|j: int| 0 <= j < i ==> coord_in_range(#[trigger] r@[j]),
        decreases r@.len() - i,
    {
        if !(in_bound(r[i].x) && in_bound(r[i].y)) {
            return false;
        }
        i += 1;
    }
    true
}

/// All exterior coordinates of a sequence of polygons, polygon after polygon.
pub open spec fn exterior_points(ps: Seq<Polygon>) -> Seq<Coord>
    decreases ps.len(),
{
    if ps.len() == 0 {
        seq![]
    } else {
        exterior_points(ps.drop_last()) + ps.last().exterior@
    }
}

/// `b` is the smallest box that holds every point of `pts`.
pub open spec fn is_bbox_of(b: BBox, pts: Seq<Coord>) -> bool {
    &&& forall|i: int|
        0 <= i < pts.len() ==> b.min_x <= (#[trigger] pts[i]).x <= b.max_x && b.min_y <= pts[i].y
            <= b.max_y
    &&& exists|i: int| 0 <= i < pts.len() && pts[i].x == b.min_x
    &&& exists|i: int| 0 <= i < pts.len() && pts[i].y == b.min_y
    &&& exists|i: int| 0 <= i < pts.len() && pts[i].x == b.max_x
    &&& exists|i: int| 0 <= i < pts.len() && pts[i].y == b.max_y
}

fn extend_bbox(b: Option<BBox>, p: Coord) -> (r: BBox)
    ensures
        match b {
            None => r == BBox { min_x: p.x, min_y: p.y, max_x: p.x, max_y: p.y },
            Some(b) => r == BBox {
                min_x: if p.x < b.min_x { p.x } else { b.min_x },
                min_y: if p.y < b.min_y { p.y } else { b.min_y },
                max_x: if p.x > b.max_x { p.x } else { b.max_x },
                max_y: if p.y > b.max_y { p.y } else { b.max_y },
            },
        },
{
    match b {
        None => BBox { min_x: p.x, min_y: p.y, max_x: p.x, max_y: p.y },
        Some(b) => BBox {
            min_x: if p.x < b.min_x { p.x } else { b.min_x },
            min_y: if p.y < b.min_y { p.y } else { b.min_y },
            max_x: if p.x > b.max_x { p.x } else { b.max_x },
            max_y: if p.y > b.max_y { p.y } else { b.max_y },
        },
    }
}

/// The bounding box of the polygons' outer rings; `None` when they hold no point.
pub fn bounding_box(ps: &Vec<Polygon>) -> (r: Option<BBox>)
    ensures
        match r {
            None => exterior_points(ps@).len() == 0,
            Some(b) => is_bbox_of(b, exterior_points(ps@)),
        },
{
    let mut acc: Option<BBox> = None;
    let mut i: usize = 0;
    while i < ps.len()
        invariant
            i <= ps@.len(),
            match acc {
                None => exterior_points(ps@.take(i as int)).len() == 0,
                Some(b) => is_bbox_of(b, exterior_points(ps@.take(i as int))),
            },
        decreases ps@.len() - i,
    {
        let ring = &ps[i].exterior;
        let ghost before = exterior_points(ps@.take(i as int));
        let mut j: usize = 0;
        while j < ring.len()
            invariant
                i < ps@.len(),
                ring == &ps@[i as int].exterior,
                j <= ring@.len(),
                match acc {
                    None => before + ring@.take(j as int) =~= Seq::<Coord>::empty(),
                    Some(b) => is_bbox_of(b, before + ring@.take(j as int)),
                },
            decreases ring@.len() - j,
        {
            let ghost pts = before + ring@.take(j as int);
            let ghost pts2 = before + ring@.take(j + 1);
            assert(pts2 =~= pts.push(ring@[j as int]));
            let nb = extend_bbox(acc, ring[j]);
            proof {
                let p = ring@[j as int];
                assert(pts2[pts.len() as int] == p);
                match acc {
                    None => {
                        assert(pts2.len() == 1);
                    },
                    Some(b) => {
                        assert forall|k: int| 0 <= k < pts2.len() implies nb.min_x <= (
                        #[trigger] pts2[k]).x <= nb.max_x && nb.min_y <= pts2[k].y <= nb.max_y by {
                            if k < pts.len() {
                                assert(pts2[k] == pts[k]);
                            }
                        }
                        if p.x < b.min_x {
                            assert(pts2[pts.len() as int].x == nb.min_x);
                        } else {
                            let k = choose|k: int| 0 <= k < pts.len() && pts[k].x == b.min_x;
                            assert(pts2[k] == pts[k]);
                        }
                        if p.y < b.min_y {
                            assert(pts2[pts.len() as int].y == nb.min_y);
                        } else {
                            let k = choose|k: int| 0 <= k < pts.len() && pts[k].y == b.min_y;
                            assert(pts2[k] == pts[k]);
                        }
                        if p.x > b.max_x {
                            assert(pts2[pts.len() as int].x == nb.max_x);
                        } else {
                            let k = choose|k: int| 0 <= k < pts.len() && pts[k].x == b.max_x;
                            assert(pts2[k] == pts[k]);
                        }
                        if p.y > b.max_y {
                            assert(pts2[pts.len() as int].y == nb.max_y);
                        } else {
                            let k = choose|k: int| 0 <= k < pts.len() && pts[k].y == b.max_y;
                            assert(pts2[k] == pts[k]);
                        }
                    },
                }
            }
            acc = Some(nb);
            j += 1;
        }
        proof {
            assert(ring@.take(ring@.len() as int) =~= ring@);
            assert(ps@.take(i + 1).drop_last() =~= ps@.take(i as int));
            assert(exterior_points(ps@.take(i + 1)) == before + ring@);
        }
        i += 1;
    }
    assert(ps@.take(ps@.len() as int) =~= ps@);
    acc
}

/// The coordinates of a list of rings, ring after ring.
pub open spec fn rings_points(rs: Seq<Seq<Coord>>) -> Seq<Coord>
    decreases rs.len(),
{
    if rs.len() == 0 {
        seq![]
    } else {
        rings_points(rs.drop_last()) + rs.last()
    }
}

/// Every coordinate of a polygon: its outer ring, then its holes.
pub open spec fn polygon_points(p: Polygon) -> Seq<Coord> {
    p.exterior@ + rings_points(p@.1)
}

/// Every coordinate of a polygon, outer ring first.
pub fn points_of(p: &Polygon) -> (r: Vec<Coord>)
    ensures
        r@ == polygon_points(*p),
{
    let mut out: Vec<Coord> = Vec::new();
    let mut i: usize = 0;
    while i < p.exterior.len()
        invariant
            i <= p.exterior@.len(),
            out@ == p.exterior@.take(i as int),
        decreases p.exterior@.len() - i,
    {
        out.push(p.exterior[i]);
        i += 1;
        assert(out@ =~= p.exterior@.take(i as int));
    }
    assert(p.exterior@.take(p.exterior@.len() as int) =~= p.exterior@);
    let ghost rs = p@.1;
    let mut k: usize = 0;
    assert(rs.take(0) =~= Seq::<Seq<Coord>>::empty());
    assert(out@ =~= p.exterior@ + rings_points(rs.take(0)));
    while k < p.interiors.len()
        invariant
            rs == p@.1,
            k <= p.interiors@.len(),
            out@ == p.exterior@ + rings_points(rs.take(k as int)),
        decreases p.interiors@.len() - k,
    {
        let ring = &p.interiors[k];
        let ghost base = out@;
        let mut j: usize = 0;
        while j < ring.len()
            invariant
                ring == &p.interiors@[k as int],
                j <= ring@.len(),
                out@ == base + ring@.take(j as int),
            decreases ring@.len() - j,
        {
            out.push(ring[j]);
            j += 1;
            assert(out@ =~= base + ring@.take(j as int));
        }
        assert(ring@.take(ring@.len() as int) =~= ring@);
        assert(rs.take(k + 1).drop_last() =~= rs.take(k as int));
        assert(rs.take(k + 1).last() == ring@);
        assert(out@ =~= p.exterior@ + rings_points(rs.take(k + 1)));
        k += 1;
    }
    assert(rs.take(rs.len() as int) =~= rs);
    out
}

/// The bounding box of a list of points; `None` when it is empty.
pub fn points_bbox(pts: &Vec<Coord>) -> (r: Option<BBox>)
    ensures
        match r {
            None => pts@.len() == 0,
            Some(b) => is_bbox_of(b, pts@),
        },
{
    let mut acc: Option<BBox> = None;
    let mut j: usize = 0;
    while j < pts.len()
        invariant
            j <= pts@.len(),
            match acc {
                None => j == 0,
                Some(b) => is_bbox_of(b, pts@.take(j as int)),
            },
        decreases pts@.len() - j,
    {
        let ghost prev = pts@.take(j as int);
        let ghost next = pts@.take(j + 1);
        assert(next =~= prev.push(pts@[j as int]));
        let nb = extend_bbox(acc, pts[j]);
        proof {
            let p = pts@[j as int];
            assert(next[prev.len() as int] == p);
            match acc {
                None => {
                    assert(next.len() == 1);
                },
                Some(b) => {
                    assert forall|k: int| 0 <= k < next.len() implies nb.min_x <= (
                    #[trigger] next[k]).x <= nb.max_x && nb.min_y <= next[k].y <= nb.max_y by {
                        if k < prev.len() {
                            assert(next[k] == prev[k]);
                        }
                    }
                    if p.x >= b.min_x {
                        let k = choose|k: int| 0 <= k < prev.len() && prev[k].x == b.min_x;
                        assert(next[k] == prev[k]);
                    }
                    if p.y >= b.min_y {
                        let k = choose|k: int| 0 <= k < prev.len() && prev[k].y == b.min_y;
                        assert(next[k] == prev[k]);
                    }
                    if p.x <= b.max_x {
                        let k = choose|k: int| 0 <= k < prev.len() && prev[k].x == b.max_x;
                        assert(next[k] == prev[k]);
                    }
                    if p.y <= b.max_y {
                        let k = choose|k: int| 0 <= k < prev.len() && prev[k].y == b.max_y;
                        assert(next[k] == prev[k]);
                    }
                },
            }
        }
        acc = Some(nb);
        j += 1;
    }
    assert(pts@.take(pts@.len() as int) =~= pts@);
    acc
}

} // verus!
