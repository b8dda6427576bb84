//! Geometries read from boundary files, and the polygons among them.

use vstd::prelude::*;

use crate::geometry::Polygon;

verus! {

/// A geometry of a boundary file. Kinds that hold no area are `Other`.
#[derive(Debug)]
pub enum Shape {
    Polygon(Polygon),
    MultiPolygon(Vec<Polygon>),
    Collection(Vec<Shape>),
    Other,
}

/// The polygons a geometry holds, in order.
pub open spec fn shape_polygons(s: Shape) -> Seq<Polygon>
    decreases s, 0int,
{
    match s {
        Shape::Polygon(p) => seq![p],
        Shape::MultiPolygon(ps) => ps@,
        Shape::Collection(gs) => list_polygons(gs@, gs@.len() as int),
        Shape::Other => seq![],
    }
}

/// The polygons the first `n` geometries of `gs` hold, in order.
pub open spec fn list_polygons(gs: Seq<Shape>, n: int) -> Seq<Polygon>
    decreases gs, n,
{
    if n <= 0 || n > gs.len() {
        seq![]
    } else {
        list_polygons(gs, n - 1) + shape_polygons(gs[n - 1])
    }
}

/// The polygons held by the geometries, flattening multi-polygons and
/// collections and dropping kinds that hold no area.
pub fn only_polys(geometries: Vec<Shape>) -> (r: Vec<Polygon>)
    ensures
        r@ == list_polygons(geometries@, geometries@.len() as int),
    decreases geometries,
{
    let ghost gs = geometries@;
    let mut rest = geometries;
    let mut tail: Vec<Polygon> = Vec::new();
    while rest.len() > 0
        invariant
            rest@.len() <= gs.len(),
            rest@ == gs.take(rest@.len() as int),
            list_polygons(gs, gs.len() as int) == list_polygons(rest@, rest@.len() as int) + tail@,
            decreases_to!(geometries => gs),
        decreases rest@.len(),
    {
        let ghost before = rest@;
        let n = rest.len();
        let g = rest.pop().unwrap();
        proof {
            assert(before[n - 1] == g);
            lemma_list_prefix(before, (n - 1) as int);
            assert(rest@ =~= before.take(n - 1));
            assert(decreases_to!(gs => g));
        }
        let mut found = shape_polys(g);
        found.append(&mut tail);
        tail = found;
    }
    proof {
        assert(list_polygons(rest@, 0) =~= Seq::<Polygon>::empty());
    }
    assert(Seq::<Polygon>::empty() + tail@ =~= tail@);
    tail
}

fn shape_polys(g: Shape) -> (r: Vec<Polygon>)
    ensures
        r@ == shape_polygons(g),
    decreases g,
{
    match g {
        Shape::Polygon(p) => vec![p],
        Shape::MultiPolygon(ps) => ps,
        Shape::Collection(gs) => only_polys(gs),
        Shape::Other => Vec::new(),
    }
}

/// `list_polygons` of a prefix is that of the prefix taken as a whole.
proof fn lemma_list_prefix(gs: Seq<Shape>, n: int)
    requires
        0 <= n < gs.len(),
    ensures
        list_polygons(gs, n) == list_polygons(gs.take(n), n),
        list_polygons(gs, n + 1) == list_polygons(gs, n) + shape_polygons(gs[n]),
    decreases n,
{
    if n > 0 {
        lemma_list_prefix(gs, n - 1);
        lemma_list_prefix(gs.take(n), n - 1);
        assert(gs.take(n).take(n - 1) =~= gs.take(n - 1));
        assert(gs.take(n)[n - 1] == gs[n - 1]);
    }
}

} // verus!
