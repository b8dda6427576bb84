//! Planning the map: which region it shows, which layers it draws and crops.
//!
//! Unions, hulls, containment between regions and rasterising work on floating
//! point and are done by the caller; the decisions are made here.

use vstd::prelude::*;

use crate::cap::Cap;
use crate::geometry::{bounding_box, exterior_points, is_bbox_of, BBox, Coord, Polygon};

verus! {

/// Copies a ring.
pub fn copy_ring(r: &Vec<Coord>) -> (c: Vec<Coord>)
    ensures
        c@ == r@,
{
    let mut c: Vec<Coord> = Vec::new();
    let mut i: usize = 0;
    while i < r.len()
        invariant
            i <= r@.len(),
            c@ == r@.take(i as int),
        decreases r@.len() - i,
    {
        c.push(r[i]);
        i += 1;
        assert(c@ =~= r@.take(i as int));
    }
    assert(r@.take(r@.len() as int) =~= r@);
    c
}

impl Polygon {
    /// A copy of this polygon.
    pub fn duplicate(&self) -> (r: Polygon)
        ensures
            r.exterior@ == self.exterior@,
            r@ == self@,
            r.interiors@.len() == self.interiors@.len(),
            forall|i: int| 0 <= i < r.interiors@.len() ==> (#[trigger] r.interiors@[i])@ == self.interiors@[i]@,
    {
        let mut holes: Vec<Vec<Coord>> = Vec::new();
        let mut i: usize = 0;
        while i < self.interiors.len()
            invariant
                i <= self.interiors@.len(),
                holes@.len() == i,
                forall|j: int| 0 <= j < i ==> (#[trigger] holes@[j])@ == self.interiors@[j]@,
            decreases self.interiors@.len() - i,
        {
            holes.push(copy_ring(&self.interiors[i]));
            i += 1;
        }
        let r = Polygon { exterior: copy_ring(&self.exterior), interiors: holes };
        assert(r@.1 =~= self@.1);
        r
    }
}

/// The polygons of every area of every alert, alert after alert.
pub open spec fn area_polygons(caps: Seq<Cap>) -> Seq<(Seq<Coord>, Seq<Seq<Coord>>)>
    decreases caps.len(),
{
    if caps.len() == 0 {
        seq![]
    } else {
        area_polygons(caps.drop_last()) + cap_polygons(caps.last().info.areas@.map_values(
            |a: crate::cap::Area| a.polygons@,
        ))
    }
}

/// The views of a sequence of polygon lists, flattened.
pub open spec fn cap_polygons(areas: Seq<Seq<Polygon>>) -> Seq<(Seq<Coord>, Seq<Seq<Coord>>)>
    decreases areas.len(),
{
    if areas.len() == 0 {
        seq![]
    } else {
        cap_polygons(areas.drop_last()) + areas.last().map_values(|p: Polygon| p@)
    }
}

/// Collects the polygons of every area of every alert into one layer.
pub fn collect_area_polygons(caps: &Vec<Cap>) -> (r: Vec<Polygon>)
    ensures
        r@.map_values(|p: Polygon| p@) == area_polygons(caps@),
{
    let mut out: Vec<Polygon> = Vec::new();
    let mut i: usize = 0;
    assert(caps@.take(0) =~= Seq::<Cap>::empty());
    assert(out@.map_values(|p: Polygon| p@) =~= Seq::<(Seq<Coord>, Seq<Seq<Coord>>)>::empty());
    while i < caps.len()
        invariant
            i <= caps@.len(),
            out@.map_values(|p: Polygon| p@) == area_polygons(caps@.take(i as int)),
        decreases caps@.len() - i,
    {
        let areas = &caps[i].info.areas;
        let ghost lists = areas@.map_values(|a: crate::cap::Area| a.polygons@);
        let ghost base = out@.map_values(|p: Polygon| p@);
        let mut j: usize = 0;
        assert(lists.take(0) =~= Seq::<Seq<Polygon>>::empty());
        assert(base + cap_polygons(lists.take(0)) =~= base);
        while j < areas.len()
            invariant
                i < caps@.len(),
                areas == &caps@[i as int].info.areas,
                lists == areas@.map_values(|a: crate::cap::Area| a.polygons@),
                j <= areas@.len(),
                out@.map_values(|p: Polygon| p@) == base + cap_polygons(lists.take(j as int)),
            decreases areas@.len() - j,
        {
            let ps = &areas[j].polygons;
            let ghost mid = out@.map_values(|p: Polygon| p@);
            let mut k: usize = 0;
            assert(ps@.take(0).map_values(|p: Polygon| p@) =~= Seq::<(Seq<Coord>, Seq<Seq<Coord>>)>::empty());
            assert(mid + Seq::<(Seq<Coord>, Seq<Seq<Coord>>)>::empty() =~= mid);
            while k < ps.len()
                invariant
                    ps == &areas@[j as int].polygons,
                    j < areas@.len(),
                    k <= ps@.len(),
                    out@.map_values(|p: Polygon| p@) == mid + ps@.take(k as int).map_values(
                        |p: Polygon| p@,
                    ),
                decreases ps@.len() - k,
            {
                let ghost prev = out@;
                out.push(ps[k].duplicate());
                assert(out@.map_values(|p: Polygon| p@) =~= prev.map_values(|p: Polygon| p@).push(ps@[k as int]@));
                assert(ps@.take(k + 1).map_values(|p: Polygon| p@) =~= ps@.take(k as int).map_values(|p: Polygon| p@).push(ps@[k as int]@));
                k += 1;
            }
            assert(ps@.take(ps@.len() as int) =~= ps@);
            assert(lists.take(j + 1).drop_last() =~= lists.take(j as int));
            assert(lists.take(j + 1).last() == ps@);
            assert(base + cap_polygons(lists.take(j + 1)) =~= mid + ps@.map_values(|p: Polygon| p@));
            j += 1;
        }
        assert(lists.take(lists.len() as int) =~= lists);
        assert(caps@.take(i + 1).drop_last() =~= caps@.take(i as int));
        assert(caps@.take(i + 1).last() == caps@[i as int]);
        i += 1;
    }
    assert(caps@.take(caps@.len() as int) =~= caps@);
    out
}

/// What the map shows and how its layers are prepared.
#[derive(Clone, Copy, Debug, PartialEq, Eq, Structural)]
pub struct MapPlan {
    /// The region the map shows.
    pub bbox: BBox,
    /// Whether the areas layer is cut to the boundary region.
    pub crop_areas: bool,
    /// Whether an outline basemap is drawn under the areas.
    pub draw_outlines: bool,
    /// Whether the outlines are cut to the boundary region.
    pub crop_outlines: bool,
}

/// Why a map cannot be drawn.
#[derive(Clone, Copy, Debug, PartialEq, Eq, Structural)]
pub enum MapError {
    /// Neither the boundaries nor the areas hold a point.
    NoBoundingBox,
    /// The region to show has no width or no height.
    ZeroSizedMap,
    /// The requested image has no width or no height.
    ZeroSizedImage,
}

/// The region the map shows: the boundary region's box, or else the areas' box.
pub open spec fn map_region(mask: Seq<Polygon>, areas: Seq<Polygon>, b: BBox) -> bool {
    if exterior_points(mask).len() > 0 {
        is_bbox_of(b, exterior_points(mask))
    } else {
        is_bbox_of(b, exterior_points(areas))
    }
}

/// Plans the map from the boundary region `mask` (already merged into one
/// region by the caller), the areas layer, and the outlines. The caller says
/// whether the mask contains the areas and the outlines.
pub fn plan_map(
    mask: &Vec<Polygon>,
    areas: &Vec<Polygon>,
    outlines: &Vec<Polygon>,
    mask_contains_areas: bool,
    mask_contains_outlines: bool,
    image_width: u32,
    image_height: u32,
) -> (r: Result<MapPlan, MapError>)
    ensures
        exterior_points(mask@).len() == 0 && exterior_points(areas@).len() == 0 ==> r
            == Err::<MapPlan, MapError>(MapError::NoBoundingBox),
        (exterior_points(mask@).len() > 0 || exterior_points(areas@).len() > 0) ==> match r {
            Ok(p) => {
                &&& map_region(mask@, areas@, p.bbox)
                &&& p.bbox.min_x < p.bbox.max_x && p.bbox.min_y < p.bbox.max_y
                &&& image_width > 0 && image_height > 0
                &&& p.crop_areas == (mask@.len() > 0 && !mask_contains_areas)
                &&& p.draw_outlines == (outlines@.len() > 0)
                &&& p.crop_outlines == (outlines@.len() > 0 && mask@.len() > 0
                    && !mask_contains_outlines)
            },
            Err(MapError::ZeroSizedMap) => exists|b: BBox|
                map_region(mask@, areas@, b) && (b.min_x == b.max_x || b.min_y == b.max_y),
            Err(MapError::ZeroSizedImage) => (forall|b: BBox|
                map_region(mask@, areas@, b) ==> b.min_x < b.max_x && b.min_y < b.max_y) && (
            image_width == 0 || image_height == 0),
            Err(MapError::NoBoundingBox) => false,
        },
{
    let bbox = match bounding_box(mask) {
        Some(b) => b,
        None => match bounding_box(areas) {
            Some(b) => b,
            None => return Err(MapError::NoBoundingBox),
        },
    };
    assert(map_region(mask@, areas@, bbox));
    proof {
        lemma_bbox_unique(mask@, areas@, bbox);
    }
    if bbox.min_x == bbox.max_x || bbox.min_y == bbox.max_y {
        return Err(MapError::ZeroSizedMap);
    }
    if image_width == 0 || image_height == 0 {
        return Err(MapError::ZeroSizedImage);
    }
    Ok(MapPlan {
        bbox,
        crop_areas: mask.len() > 0 && !mask_contains_areas,
        draw_outlines: outlines.len() > 0,
        crop_outlines: outlines.len() > 0 && mask.len() > 0 && !mask_contains_outlines,
    })
}

/// A point set has one bounding box.
proof fn lemma_bbox_unique(mask: Seq<Polygon>, areas: Seq<Polygon>, b: BBox)
    requires
        map_region(mask, areas, b),
    ensures
        forall|c: BBox| map_region(mask, areas, c) ==> c == b,
{
    assert forall|c: BBox| map_region(mask, areas, c) implies c == b by {
        let pts = if exterior_points(mask).len() > 0 {
            exterior_points(mask)
        } else {
            exterior_points(areas)
        };
        let i = choose|i: int| 0 <= i < pts.len() && pts[i].x == c.min_x;
        let j = choose|i: int| 0 <= i < pts.len() && pts[i].x == b.min_x;
        assert(pts[i].x >= b.min_x && pts[j].x >= c.min_x);
        let i = choose|i: int| 0 <= i < pts.len() && pts[i].y == c.min_y;
        let j = choose|i: int| 0 <= i < pts.len() && pts[i].y == b.min_y;
        assert(pts[i].y >= b.min_y && pts[j].y >= c.min_y);
        let i = choose|i: int| 0 <= i < pts.len() && pts[i].x == c.max_x;
        let j = choose|i: int| 0 <= i < pts.len() && pts[i].x == b.max_x;
        assert(pts[i].x <= b.max_x && pts[j].x <= c.max_x);
        let i = choose|i: int| 0 <= i < pts.len() && pts[i].y == c.max_y;
        let j = choose|i: int| 0 <= i < pts.len() && pts[i].y == b.max_y;
        assert(pts[i].y <= b.max_y && pts[j].y <= c.max_y);
    }
}

/// With no boundary region, the map shows exactly the areas' own box and
/// nothing is cropped.
pub proof fn lemma_no_boundaries_no_crop(
    mask: Seq<Polygon>,
    areas: Seq<Polygon>,
    p: MapPlan,
    outlines_len: nat,
    mask_contains_areas: bool,
    mask_contains_outlines: bool,
)
    requires
        mask.len() == 0,
        exterior_points(areas).len() > 0,
        map_region(mask, areas, p.bbox),
        p.crop_areas == (mask.len() > 0 && !mask_contains_areas),
        p.crop_outlines == (outlines_len > 0 && mask.len() > 0 && !mask_contains_outlines),
    ensures
        is_bbox_of(p.bbox, exterior_points(areas)),
        !p.crop_areas,
        !p.crop_outlines,
{
    assert(exterior_points(mask) =~= Seq::<Coord>::empty());
}

/// The placement of the map's layers in its picture: the region's size, and
/// the shifts that move the region's corner to the origin with `y` growing downwards.
#[derive(Clone, Copy, Debug, PartialEq, Eq, Structural)]
pub struct SvgFrame {
    pub width: i64,
    pub height: i64,
    pub shift_x: i64,
    pub shift_y: i64,
    /// The shift applied after the flip: `-2 * min_y - height`.
    pub lift: i64,
}

/// The frame that shows the region `b`, whose coordinates are in range.
pub fn svg_frame(b: BBox) -> (r: SvgFrame)
    requires
        -1000000000000000000 < b.min_x <= b.max_x < 1000000000000000000,
        -1000000000000000000 < b.min_y <= b.max_y < 1000000000000000000,
    ensures
        r.width == b.max_x - b.min_x,
        r.height == b.max_y - b.min_y,
        r.shift_x == -b.min_x,
        r.shift_y == -b.min_y,
        r.lift == -2 * b.min_y - (b.max_y - b.min_y),
{
    SvgFrame {
        width: b.max_x - b.min_x,
        height: b.max_y - b.min_y,
        shift_x: -b.min_x,
        shift_y: -b.min_y,
        lift: -b.min_y - b.max_y,
    }
}

} // verus!
