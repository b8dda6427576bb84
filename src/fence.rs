//! Filtering alerts by where they are and by how severe they are.

use vstd::prelude::*;

use crate::cap::{rank, Area, Cap, Severity};
use crate::geometry::{points_bbox, points_of, polygon_points, Coord, Polygon};
use crate::text::same_text;

verus! {

/// Names what geo's `Intersects` answers for two polygons, `a.intersects(b)`.
pub uninterp spec fn intersects_of(
    a: (Seq<Coord>, Seq<Seq<Coord>>),
    b: (Seq<Coord>, Seq<Seq<Coord>>),
) -> bool;

/// The spread of coordinates, in each axis, below which geo's integer
/// orientation test cannot overflow: `2 * (2^31 - 1)^2 < 2^63`.
pub const KERNEL_SPREAD: i128 = 2147483648;

/// Any two of the points differ by less than `KERNEL_SPREAD` in each axis.
pub open spec fn spread_ok(s: Seq<Coord>) -> bool {
    forall|i: int, j: int|
        0 <= i < s.len() && 0 <= j < s.len() ==> -KERNEL_SPREAD < (#[trigger] s[i]).x - (
        #[trigger] s[j]).x < KERNEL_SPREAD && -KERNEL_SPREAD < s[i].y - s[j].y < KERNEL_SPREAD
}

/// A line parallel to an axis has every point of `a` on one side and every
/// point of `b` on the other.
pub open spec fn separated(a: Seq<Coord>, b: Seq<Coord>) -> bool {
    ||| forall|i: int, j: int| 0 <= i < a.len() && 0 <= j < b.len() ==> (#[trigger] a[i]).x < (#[trigger] b[j]).x
    ||| forall|i: int, j: int| 0 <= i < a.len() && 0 <= j < b.len() ==> (#[trigger] b[j]).x < (#[trigger] a[i]).x
    ||| forall|i: int, j: int| 0 <= i < a.len() && 0 <= j < b.len() ==> (#[trigger] a[i]).y < (#[trigger] b[j]).y
    ||| forall|i: int, j: int| 0 <= i < a.len() && 0 <= j < b.len() ==> (#[trigger] b[j]).y < (#[trigger] a[i]).y
}

/// Relies on geo's `Intersects` between two polygons, which is also true when
/// one of them contains the other; the answer depends on the rings alone.
/// On `i64` geo's orientation test multiplies coordinate differences, which
/// stays in range while the points spread less than `KERNEL_SPREAD`.
#[verifier::external_body]
fn polygons_intersect(a: &Polygon, b: &Polygon) -> (r: bool)
    requires
        spread_ok(polygon_points(*a) + polygon_points(*b)),
    ensures
        r == intersects_of(a@, b@),
{
    let ring = |r: &Vec<Coord>| {
        geo::LineString(r.iter().map(|c| geo::Coordinate { x: c.x, y: c.y }).collect())
    };
    let poly = |p: &Polygon| geo::Polygon::new(ring(&p.exterior), p.interiors.iter().map(ring).collect());
    geo::algorithm::intersects::Intersects::intersects(&poly(a), &poly(b))
}

/// Whether boundary polygon `b` meets polygon `p`: never when either has no
/// point or an axis-parallel line separates them; else geo's answer, when the
/// two spread little enough for it; `None` when they spread too far.
pub open spec fn pair_hit(b: Polygon, p: Polygon) -> Option<bool> {
    let sb = polygon_points(b);
    let sp = polygon_points(p);
    if sb.len() == 0 || sp.len() == 0 || separated(sb, sp) {
        Some(false)
    } else if spread_ok(sb + sp) {
        Some(intersects_of(b@, p@))
    } else {
        None
    }
}

/// Decides `pair_hit`.
pub fn pair_hit_exec(b: &Polygon, p: &Polygon) -> (r: Option<bool>)
    ensures
        r == pair_hit(*b, *p),
{
    let pb = points_of(b);
    let pp = points_of(p);
    let ghost sb = pb@;
    let ghost sp = pp@;
    let (bb, bp) = match (points_bbox(&pb), points_bbox(&pp)) {
        (Some(x), Some(y)) => (x, y),
        _ => return Some(false),
    };
    if bb.max_x < bp.min_x || bp.max_x < bb.min_x || bb.max_y < bp.min_y || bp.max_y < bb.min_y {
        assert(separated(sb, sp));
        return Some(false);
    }
    proof {
        let i1 = choose|i: int| 0 <= i < sb.len() && sb[i].x == bb.max_x;
        let j1 = choose|i: int| 0 <= i < sp.len() && sp[i].x == bp.min_x;
        let i2 = choose|i: int| 0 <= i < sb.len() && sb[i].x == bb.min_x;
        let j2 = choose|i: int| 0 <= i < sp.len() && sp[i].x == bp.max_x;
        let i3 = choose|i: int| 0 <= i < sb.len() && sb[i].y == bb.max_y;
        let j3 = choose|i: int| 0 <= i < sp.len() && sp[i].y == bp.min_y;
        let i4 = choose|i: int| 0 <= i < sb.len() && sb[i].y == bb.min_y;
        let j4 = choose|i: int| 0 <= i < sp.len() && sp[i].y == bp.max_y;
        assert(!(sb[i1].x < sp[j1].x));
        assert(!(sp[j2].x < sb[i2].x));
        assert(!(sb[i3].y < sp[j3].y));
        assert(!(sp[j4].y < sb[i4].y));
    }
    let min_x: i128 = if bb.min_x < bp.min_x { bb.min_x as i128 } else { bp.min_x as i128 };
    let max_x: i128 = if bb.max_x > bp.max_x { bb.max_x as i128 } else { bp.max_x as i128 };
    let min_y: i128 = if bb.min_y < bp.min_y { bb.min_y as i128 } else { bp.min_y as i128 };
    let max_y: i128 = if bb.max_y > bp.max_y { bb.max_y as i128 } else { bp.max_y as i128 };
    let ghost all = sb + sp;
    proof {
        assert forall|i: int| 0 <= i < all.len() implies min_x <= (#[trigger] all[i]).x <= max_x
            && min_y <= all[i].y <= max_y by {
            if i < sb.len() {
                assert(all[i] == sb[i]);
            } else {
                assert(all[i] == sp[i - sb.len()]);
            }
        }
    }
    if max_x - min_x < KERNEL_SPREAD && max_y - min_y < KERNEL_SPREAD {
        Some(polygons_intersect(b, p))
    } else {
        proof {
            let wx = if bb.min_x < bp.min_x {
                choose|i: int| 0 <= i < sb.len() && sb[i].x == bb.min_x
            } else {
                sb.len() + choose|i: int| 0 <= i < sp.len() && sp[i].x == bp.min_x
            };
            let vx = if bb.max_x > bp.max_x {
                choose|i: int| 0 <= i < sb.len() && sb[i].x == bb.max_x
            } else {
                sb.len() + choose|i: int| 0 <= i < sp.len() && sp[i].x == bp.max_x
            };
            let wy = if bb.min_y < bp.min_y {
                choose|i: int| 0 <= i < sb.len() && sb[i].y == bb.min_y
            } else {
                sb.len() + choose|i: int| 0 <= i < sp.len() && sp[i].y == bp.min_y
            };
            let vy = if bb.max_y > bp.max_y {
                choose|i: int| 0 <= i < sb.len() && sb[i].y == bb.max_y
            } else {
                sb.len() + choose|i: int| 0 <= i < sp.len() && sp[i].y == bp.max_y
            };
            assert(all[wx].x == min_x && all[vx].x == max_x);
            assert(all[wy].y == min_y && all[vy].y == max_y);
            assert(!spread_ok(all));
        }
        None
    }
}

/// Every boundary polygon can be tested against `p`.
pub open spec fn polygon_ok(bounds: Seq<Polygon>, p: Polygon) -> bool {
    forall|k: int| 0 <= k < bounds.len() ==> (#[trigger] pair_hit(bounds[k], p)) is Some
}

/// Some boundary polygon meets `p`.
pub open spec fn polygon_hits(bounds: Seq<Polygon>, p: Polygon) -> bool {
    exists|k: int| 0 <= k < bounds.len() && #[trigger] pair_hit(bounds[k], p) == Some(true)
}

pub open spec fn area_ok(bounds: Seq<Polygon>, a: Area) -> bool {
    forall|j: int| 0 <= j < a.polygons@.len() ==> polygon_ok(bounds, #[trigger] a.polygons@[j])
}

/// Some polygon of the area meets some boundary polygon.
pub open spec fn area_hits(bounds: Seq<Polygon>, a: Area) -> bool {
    exists|j: int| 0 <= j < a.polygons@.len() && polygon_hits(bounds, #[trigger] a.polygons@[j])
}

/// Every polygon of the alert can be tested against every boundary polygon.
pub open spec fn cap_ok(bounds: Seq<Polygon>, c: Cap) -> bool {
    forall|i: int| 0 <= i < c.info.areas@.len() ==> area_ok(bounds, #[trigger] c.info.areas@[i])
}

/// Some area of the alert meets some boundary polygon.
pub open spec fn cap_hits(bounds: Seq<Polygon>, c: Cap) -> bool {
    exists|i: int| 0 <= i < c.info.areas@.len() && area_hits(bounds, #[trigger] c.info.areas@[i])
}

fn polygon_check(bounds: &Vec<Polygon>, p: &Polygon) -> (r: Option<bool>)
    ensures
        r is Some <==> polygon_ok(bounds@, *p),
        r matches Some(h) ==> h == polygon_hits(bounds@, *p),
{
    let mut hit = false;
    let mut k: usize = 0;
    while k < bounds.len()
        invariant
            k <= bounds@.len(),
            forall|m: int| 0 <= m < k ==> (#[trigger] pair_hit(bounds@[m], *p)) is Some,
            hit == exists|m: int| 0 <= m < k && #[trigger] pair_hit(bounds@[m], *p) == Some(true),
        decreases bounds@.len() - k,
    {
        match pair_hit_exec(&bounds[k], p) {
            None => return None,
            Some(h) => {
                hit = hit || h;
            },
        }
        k += 1;
    }
    Some(hit)
}

fn area_check(bounds: &Vec<Polygon>, a: &Area) -> (r: Option<bool>)
    ensures
        r is Some <==> area_ok(bounds@, *a),
        r matches Some(h) ==> h == area_hits(bounds@, *a),
{
    let mut hit = false;
    let mut j: usize = 0;
    while j < a.polygons.len()
        invariant
            j <= a.polygons@.len(),
            forall|m: int| 0 <= m < j ==> polygon_ok(bounds@, #[trigger] a.polygons@[m]),
            hit == exists|m: int| 0 <= m < j && polygon_hits(bounds@, #[trigger] a.polygons@[m]),
        decreases a.polygons@.len() - j,
    {
        match polygon_check(bounds, &a.polygons[j]) {
            None => return None,
            Some(h) => {
                hit = hit || h;
            },
        }
        j += 1;
    }
    Some(hit)
}

/// Tests the alert against the boundaries: `None` when some pair of polygons
/// spreads too far to be tested, else whether some pair meets.
pub fn cap_check(bounds: &Vec<Polygon>, c: &Cap) -> (r: Option<bool>)
    ensures
        r is Some <==> cap_ok(bounds@, *c),
        r matches Some(h) ==> h == cap_hits(bounds@, *c),
{
    let mut hit = false;
    let mut i: usize = 0;
    while i < c.info.areas.len()
        invariant
            i <= c.info.areas@.len(),
            forall|m: int| 0 <= m < i ==> area_ok(bounds@, #[trigger] c.info.areas@[m]),
            hit == exists|m: int| 0 <= m < i && area_hits(bounds@, #[trigger] c.info.areas@[m]),
        decreases c.info.areas@.len() - i,
    {
        match area_check(bounds, &c.info.areas[i]) {
            None => return None,
            Some(h) => {
                hit = hit || h;
            },
        }
        i += 1;
    }
    Some(hit)
}

/// The items whose mark is set, in order.
pub open spec fn kept<T>(s: Seq<T>, marks: Seq<bool>) -> Seq<T>
    decreases s.len(),
{
    if s.len() == 0 {
        seq![]
    } else {
        let init = kept(s.drop_last(), marks.take(s.len() - 1));
        if marks[s.len() - 1] {
            init.push(s.last())
        } else {
            init
        }
    }
}

/// Keeps the items whose mark is set, in their order.
pub fn retain_marked<T>(items: Vec<T>, marks: &Vec<bool>) -> (r: Vec<T>)
    requires
        marks@.len() == items@.len(),
    ensures
        r@ == kept(items@, marks@),
{
    let ghost all = items@;
    let mut items = items;
    let mut out: Vec<T> = Vec::new();
    assert(marks@.take(all.len() as int) =~= marks@);
    assert(kept(all, marks@) =~= kept(all, marks@) + out@);
    while items.len() > 0
        invariant
            items@.len() <= all.len() == marks@.len(),
            items@ == all.take(items@.len() as int),
            kept(all, marks@) == kept(items@, marks@.take(items@.len() as int)) + out@,
        decreases items@.len(),
    {
        let ghost before = items@;
        let n = items.len();
        let x = items.pop().unwrap();
        assert(before.drop_last() =~= items@);
        assert(marks@.take(n as int).take(n - 1) =~= marks@.take(n - 1));
        assert(marks@.take(n as int)[n - 1] == marks@[n - 1]);
        if marks[n - 1] {
            out.insert(0, x);
            assert(kept(items@, marks@.take(n - 1)).push(x) + out@.drop_first() =~= kept(
                items@,
                marks@.take(n - 1),
            ) + out@);
        }
    }
    assert(kept(items@, marks@.take(0)) =~= Seq::<T>::empty());
    assert(Seq::<T>::empty() + out@ =~= out@);
    out
}

/// `kept` with marks drawn from a predicate is that predicate's filter.
pub proof fn lemma_kept_filter<T>(s: Seq<T>, marks: Seq<bool>, p: spec_fn(T) -> bool)
    requires
        marks.len() == s.len(),
        forall|i: int| 0 <= i < s.len() ==> marks[i] == p(#[trigger] s[i]),
    ensures
        kept(s, marks) == s.filter(p),
    decreases s.len(),
{
    reveal(Seq::filter);
    if s.len() > 0 {
        let init = s.drop_last();
        let m = marks.take(s.len() - 1);
        assert forall|i: int| 0 <= i < init.len() implies m[i] == p(#[trigger] init[i]) by {
            assert(init[i] == s[i]);
        }
        lemma_kept_filter(init, m, p);
    }
}

/// Why alerts could not be tested against the boundaries.
#[derive(Clone, Copy, Debug, PartialEq, Eq, Structural)]
pub enum FenceError {
    /// An alert polygon and a boundary polygon that are not apart spread too
    /// far for an exact integer test.
    TooWide,
}

/// Keeps the alerts that have an area polygon meeting the boundaries; with no
/// boundaries every alert is kept.
pub fn filter_by_boundaries(caps: Vec<Cap>, bounds: &Vec<Polygon>) -> (r: Result<Vec<Cap>, FenceError>)
    ensures
        bounds@.len() == 0 ==> (r matches Ok(v) && v@ == caps@),
        bounds@.len() > 0 ==> match r {
            Ok(v) => (forall|i: int| 0 <= i < caps@.len() ==> cap_ok(bounds@, #[trigger] caps@[i]))
                && v@ == caps@.filter(|c: Cap| cap_hits(bounds@, c)),
            Err(e) => e == FenceError::TooWide && exists|i: int|
                0 <= i < caps@.len() && !cap_ok(bounds@, #[trigger] caps@[i]),
        },
{
    if bounds.len() == 0 {
        return Ok(caps);
    }
    let mut marks: Vec<bool> = Vec::new();
    let mut i: usize = 0;
    while i < caps.len()
        invariant
            i <= caps@.len(),
            marks@.len() == i,
            forall|j: int| 0 <= j < i ==> cap_ok(bounds@, #[trigger] caps@[j]),
            forall|j: int| 0 <= j < i ==> marks@[j] == cap_hits(bounds@, #[trigger] caps@[j]),
        decreases caps@.len() - i,
    {
        match cap_check(bounds, &caps[i]) {
            Some(h) => marks.push(h),
            None => return Err(FenceError::TooWide),
        }
        i += 1;
    }
    proof {
        lemma_kept_filter(caps@, marks@, |c: Cap| cap_hits(bounds@, c));
    }
    Ok(retain_marked(caps, &marks))
}

/// Keeps the alerts whose severity reaches `min`.
pub fn filter_by_severity(caps: Vec<Cap>, min: Severity) -> (r: Vec<Cap>)
    ensures
        r@ == caps@.filter(|c: Cap| rank(c.info.severity) >= rank(min)),
{
    let mut marks: Vec<bool> = Vec::new();
    let mut i: usize = 0;
    while i < caps.len()
        invariant
            i <= caps@.len(),
            marks@.len() == i,
            forall|j: int|
                0 <= j < i ==> marks@[j] == (rank((#[trigger] caps@[j]).info.severity) >= rank(min)),
        decreases caps@.len() - i,
    {
        marks.push(caps[i].info.severity.at_least(min));
        i += 1;
    }
    proof {
        lemma_kept_filter(caps@, marks@, |c: Cap| rank(c.info.severity) >= rank(min));
    }
    retain_marked(caps, &marks)
}

/// The alert at `i` is the first with its guid.
pub open spec fn first_of_guid(caps: Seq<Cap>, i: int) -> bool {
    forall|j: int| 0 <= j < i ==> (#[trigger] caps[j]).guid@ != caps[i].guid@
}

/// Merges alerts into a set by guid: the first alert of each guid stays, in order.
pub fn unique_by_guid(caps: Vec<Cap>) -> (r: Vec<Cap>)
    ensures
        r@ == kept(caps@, Seq::new(caps@.len(), |i: int| first_of_guid(caps@, i))),
{
    let mut marks: Vec<bool> = Vec::new();
    let mut i: usize = 0;
    while i < caps.len()
        invariant
            i <= caps@.len(),
            marks@.len() == i,
            forall|j: int| 0 <= j < i ==> marks@[j] == first_of_guid(caps@, j),
        decreases caps@.len() - i,
    {
        let mut first = true;
        let mut j: usize = 0;
        while j < i
            invariant
                i < caps@.len(),
                j <= i,
                first == forall|m: int| 0 <= m < j ==> (#[trigger] caps@[m]).guid@ != caps@[i as int].guid@,
            decreases i - j,
        {
            if same_text(caps[j].guid.as_str(), caps[i].guid.as_str()) {
                first = false;
            }
            j += 1;
        }
        marks.push(first);
        i += 1;
    }
    assert(marks@ =~= Seq::new(caps@.len(), |i: int| first_of_guid(caps@, i)));
    retain_marked(caps, &marks)
}

} // verus!
