//! The structured alert record and the parts of it that the pipeline reads.

use vstd::prelude::*;

use crate::decimal::{decimal_value, index_of, parse_decimal, find_char};
use crate::geometry::{coord_in_range, is_closed, ring_in_range, Coord, Polygon, PolygonError};
use crate::ring::{coord_of_token};
use crate::text::{chars_of, lower_of, lowercase, same_text};

verus! {

/// How severe an alert is, from least to most.
#[derive(Clone, Copy, Debug, PartialEq, Eq, Structural, PartialOrd, Ord, Hash)]
pub enum Severity {
    Minor,
    Moderate,
    Severe,
    Extreme,
}

/// The position of a severity in the order `Minor < Moderate < Severe < Extreme`.
pub open spec fn rank(s: Severity) -> nat {
    match s {
        Severity::Minor => 0,
        Severity::Moderate => 1,
        Severity::Severe => 2,
        Severity::Extreme => 3,
    }
}

/// The severity a lower-case word names.
pub open spec fn severity_of_lower(l: Seq<char>) -> Option<Severity> {
    if l == "minor"@ {
        Some(Severity::Minor)
    } else if l == "moderate"@ {
        Some(Severity::Moderate)
    } else if l == "severe"@ {
        Some(Severity::Severe)
    } else if l == "extreme"@ {
        Some(Severity::Extreme)
    } else {
        None
    }
}

impl Severity {
    pub fn rank(&self) -> (r: u8)
        ensures
            r == rank(*self),
    {
        match self {
            Severity::Minor => 0,
            Severity::Moderate => 1,
            Severity::Severe => 2,
            Severity::Extreme => 3,
        }
    }

    /// Whether this severity reaches the threshold `min`.
    pub fn at_least(&self, min: Severity) -> (r: bool)
        ensures
            r == (rank(*self) >= rank(min)),
    {
        self.rank() >= min.rank()
    }

    /// The severity that an already lower-cased word names.
    pub fn from_lower(l: &str) -> (r: Option<Severity>)
        ensures
            r == severity_of_lower(l@),
    {
        if same_text(l, "minor") {
            Some(Severity::Minor)
        } else if same_text(l, "moderate") {
            Some(Severity::Moderate)
        } else if same_text(l, "severe") {
            Some(Severity::Severe)
        } else if same_text(l, "extreme") {
            Some(Severity::Extreme)
        } else {
            None
        }
    }

    /// Reads a severity name, ignoring case.
    pub fn from_text(s: &str) -> (r: Result<Severity, String>)
        ensures
            match r {
                Ok(v) => severity_of_lower(lower_of(s@)) == Some(v),
                Err(m) => severity_of_lower(lower_of(s@)) is None && m@ == "invalid severity: "@
                    + s@,
            },
    {
        let l = lowercase(s);
        match Severity::from_lower(l.as_str()) {
            Some(v) => Ok(v),
            None => Err(String::from_str("invalid severity: ").concat(s)),
        }
    }
}

impl std::str::FromStr for Severity {
    type Err = String;

    fn from_str(s: &str) -> Result<Severity, String> {
        Severity::from_text(s)
    }
}

/// One area of an alert: a description and the polygons that outline it.
/// Circles are kept as their text until they are turned into polygons.
#[derive(Clone, Debug)]
pub struct Area {
    pub desc: String,
    pub polygons: Vec<Polygon>,
    pub circles: Vec<String>,
}

/// The body of an alert. Timestamps are seconds since the Unix epoch.
#[derive(Clone, Debug)]
pub struct Info {
    pub category: String,
    pub event: String,
    pub urgency: String,
    pub severity: Severity,
    pub certainty: String,
    pub onset: i64,
    pub expires: i64,
    pub headline: String,
    pub description: String,
    pub instruction: String,
    pub response_type: String,
    pub sender_name: String,
    /// Named values; each name occurs once (see `wf`).
    pub parameters: Vec<(String, String)>,
    pub areas: Vec<Area>,
}

/// One alert. Two alerts are the same alert when their guids are equal.
#[derive(Clone, Debug)]
pub struct Cap {
    pub guid: String,
    pub date_sent: i64,
    pub status: String,
    pub scope: String,
    pub msg_type: String,
    pub info: Info,
}

impl PartialEq for Cap {
    fn eq(&self, o: &Cap) -> bool {
        same_text(self.guid.as_str(), o.guid.as_str())
    }
}

impl vstd::std_specs::cmp::PartialEqSpecImpl for Cap {
    open spec fn obeys_eq_spec() -> bool {
        true
    }

    open spec fn eq_spec(&self, o: &Cap) -> bool {
        self.guid@ == o.guid@
    }
}

impl Eq for Cap {}

/// A circular hazard zone: a centre and a radius in kilometres, the radius
/// in the same fixed-point units as coordinates.
#[derive(Clone, Copy, Debug, PartialEq, Eq, Structural)]
pub struct Circle {
    pub center: Coord,
    pub radius: i64,
}

/// The circle a `lat,lon radius` text denotes: split at the first space, the
/// centre then split at its first comma.
pub open spec fn circle_of_text(t: Seq<char>) -> Option<Circle> {
    let k = index_of(t, ' ');
    if k >= t.len() {
        None
    } else {
        match (coord_of_token(t.take(k)), decimal_value(t.skip(k + 1))) {
            (Some(c), Some(r)) => Some(Circle { center: c, radius: r as i64 }),
            _ => None,
        }
    }
}

/// Number of vertices of the polygon that stands for a circle.
pub const CIRCLE_EDGES: u32 = 32;

/// Reads a circle descriptor `lat,lon radius`.
pub fn parse_circle(text: &str) -> (r: Option<Circle>)
    ensures
        r == circle_of_text(text@),
{
    let cs = chars_of(text);
    let n = cs.len();
    let k = find_char(&cs, 0, n, ' ');
    assert(cs@.subrange(0, n as int) =~= cs@);
    if k == n {
        return None;
    }
    let ghost t = cs@;
    let j = find_char(&cs, 0, k, ',');
    assert(t.take(k as int) =~= cs@.subrange(0, k as int));
    assert(t.skip(k + 1) =~= cs@.subrange(k + 1, n as int));
    let ghost p = t.take(k as int);
    assert(p.take(j as int) =~= cs@.subrange(0, j as int));
    if j == k {
        return None;
    }
    assert(p.skip(j + 1) =~= cs@.subrange(j + 1, k as int));
    let y = parse_decimal(&cs, 0, j);
    let x = parse_decimal(&cs, j + 1, k);
    let r = parse_decimal(&cs, k + 1, n);
    match (y, x, r) {
        (Some(y), Some(x), Some(r)) => Some(Circle { center: Coord { x, y }, radius: r }),
        _ => None,
    }
}

/// The bearing of vertex `i` of a circle's polygon, in thousandths of a degree.
pub open spec fn bearing_of(i: int) -> int {
    i * 360000 / (CIRCLE_EDGES as int)
}

/// The bearings, in thousandths of a degree, of the vertices of a circle's
/// polygon: evenly spaced, starting due north.
pub fn circle_bearings() -> (r: Vec<u32>)
    ensures
        r@.len() == CIRCLE_EDGES,
        forall|i: int| 0 <= i < r@.len() ==> (#[trigger] r@[i]) as int == bearing_of(i),
        forall|i: int| 0 <= i < r@.len() ==> (#[trigger] r@[i]) as int == 11250 * i,
{
    let mut r: Vec<u32> = Vec::new();
    let mut i: u32 = 0;
    while i < CIRCLE_EDGES
        invariant
            i <= CIRCLE_EDGES,
            r@.len() == i,
            forall|j: int| 0 <= j < i ==> (#[trigger] r@[j]) as int == 11250 * j,
        decreases CIRCLE_EDGES - i,
    {
        r.push(11250 * i);
        i += 1;
    }
    assert forall|i: int| 0 <= i < r@.len() implies (#[trigger] r@[i]) as int == bearing_of(i) by {
        assert(i * 360000 / 32 == 11250 * i);
    }
    r
}

/// The polygon of a circle from its vertices, in bearing order: the ring is
/// closed by repeating the first vertex.
pub fn circle_polygon(vertices: Vec<Coord>) -> (r: Result<Polygon, PolygonError>)
    requires
        vertices@.len() > 0,
    ensures
        match r {
            Ok(p) => {
                &&& p.exterior@ == vertices@.push(vertices@[0])
                &&& p.interiors@.len() == 0
                &&& p.wf()
            },
            Err(e) => e == PolygonError::Malformed && !ring_in_range(vertices@),
        },
{
    let mut ring = vertices;
    let first = ring[0];
    ring.push(first);
    let p = Polygon { exterior: ring, interiors: Vec::new() };
    let ghost v = p.exterior@.drop_last();
    if !crate::geometry::check_ring_range(&p.exterior) {
        proof {
            assert(!ring_in_range(p.exterior@));
            let i = choose|i: int| 0 <= i < p.exterior@.len() && !coord_in_range(p.exterior@[i]);
            if i == p.exterior@.len() - 1 {
                assert(!coord_in_range(v[0]));
            } else {
                assert(!coord_in_range(v[i]));
            }
        }
        return Err(PolygonError::Malformed);
    }
    assert(is_closed(p.exterior@));
    Ok(p)
}

/// The polygons among `converted` that a conversion gave, in order.
pub open spec fn converted_polygons(converted: Seq<Option<Polygon>>) -> Seq<Polygon>
    decreases converted.len(),
{
    if converted.len() == 0 {
        seq![]
    } else {
        let init = converted_polygons(converted.drop_last());
        match converted.last() {
            Some(p) => init.push(p),
            None => init,
        }
    }
}

impl Area {
    /// Adds the polygons that its circles were turned into, skipping the circles
    /// that could not be converted, and drops the circle texts.
    pub fn absorb_circles(&mut self, converted: Vec<Option<Polygon>>)
        ensures
            final(self).desc == old(self).desc,
            final(self).polygons@ == old(self).polygons@ + converted_polygons(converted@),
            final(self).circles@.len() == 0,
    {
        let mut converted = converted;
        let ghost all = converted@;
        let mut found: Vec<Polygon> = Vec::new();
        while converted.len() > 0
            invariant
                converted@.len() <= all.len(),
                converted@ == all.take(converted@.len() as int),
                converted_polygons(all) == converted_polygons(converted@) + found@,
            decreases converted@.len(),
        {
            let ghost before = converted@;
            let c = converted.pop();
            assert(before.drop_last() =~= all.take(converted@.len() as int));
            match c {
                Some(Some(p)) => {
                    found.insert(0, p);
                    assert(converted_polygons(before) == converted_polygons(converted@).push(p));
                    assert(converted_polygons(converted@).push(p) + found@.drop_first() =~=
                        converted_polygons(converted@) + found@);
                },
                _ => {},
            }
        }
        assert(converted@ =~= Seq::<Option<Polygon>>::empty());
        assert(Seq::<Polygon>::empty() + found@ =~= found@);
        self.polygons.append(&mut found);
        self.circles = Vec::new();
    }
}

/// The parameters that a list of name-value pairs sets: a later value for a
/// name replaces an earlier one.
pub open spec fn params_map(ps: Seq<(String, String)>) -> Map<Seq<char>, Seq<char>>
    decreases ps.len(),
{
    if ps.len() == 0 {
        Map::empty()
    } else {
        params_map(ps.drop_last()).insert(ps.last().0@, ps.last().1@)
    }
}

/// Each name occurs once in `v`.
pub open spec fn names_unique(v: Seq<(String, String)>) -> bool {
    forall|i: int, j: int| 0 <= i < j < v.len() ==> (#[trigger] v[i]).0@ != (#[trigger] v[j]).0@
}

impl Info {
    /// Each parameter name occurs once.
    pub open spec fn wf(&self) -> bool {
        names_unique(self.parameters@)
    }
}

/// Each name occurs once in `v`, and `v` holds exactly the pairs of `m`.
pub open spec fn pairs_represent(v: Seq<(String, String)>, m: Map<Seq<char>, Seq<char>>) -> bool {
    &&& names_unique(v)
    &&& forall|i: int| 0 <= i < v.len() ==> m.contains_key((#[trigger] v[i]).0@) && m[v[i].0@] == v[i].1@
    &&& forall|k: Seq<char>| #[trigger] m.contains_key(k) ==> exists|i: int| 0 <= i < v.len() && (#[trigger] v[i]).0@ == k
}

fn find_name(v: &Vec<(String, String)>, name: &str) -> (r: Option<usize>)
    ensures
        match r {
            Some(j) => j < v@.len() && v@[j as int].0@ == name@,
            None => forall|q: int| 0 <= q < v@.len() ==> (#[trigger] v@[q]).0@ != name@,
        },
{
    let mut j: usize = 0;
    while j < v.len()
        invariant
            j <= v@.len(),
            forall|q: int| 0 <= q < j ==> (#[trigger] v@[q]).0@ != name@,
        decreases v@.len() - j,
    {
        if same_text(v[j].0.as_str(), name) {
            return Some(j);
        }
        j += 1;
    }
    None
}

/// Collects name-value pairs into parameters, each name once, keeping the
/// first position of a name and the last value given for it.
pub fn collect_parameters(ps: &Vec<(String, String)>) -> (r: Vec<(String, String)>)
    ensures
        pairs_represent(r@, params_map(ps@)),
{
    let mut out: Vec<(String, String)> = Vec::new();
    let mut i: usize = 0;
    assert(ps@.take(0) =~= Seq::<(String, String)>::empty());
    while i < ps.len()
        invariant
            i <= ps@.len(),
            pairs_represent(out@, params_map(ps@.take(i as int))),
        decreases ps@.len() - i,
    {
        let ghost m = params_map(ps@.take(i as int));
        let name = &ps[i].0;
        let value = &ps[i].1;
        assert(ps@.take(i + 1).drop_last() =~= ps@.take(i as int));
        assert(ps@.take(i + 1).last() == ps@[i as int]);
        let ghost m2 = m.insert(name@, value@);
        assert(params_map(ps@.take(i + 1)) == m2);
        let found_at = find_name(&out, name.as_str());
        let ghost before = out@;
        let pair = (name.clone(), value.clone());
        if let Some(j) = found_at {
            out.set(j, pair);
            assert forall|q: int| 0 <= q < out@.len() implies m2.contains_key((#[trigger] out@[q]).0@)
                && m2[out@[q].0@] == out@[q].1@ by {
                if q != j {
                    assert(out@[q] == before[q]);
                    assert(before[q].0@ != before[j as int].0@);
                }
            }
            assert forall|k: Seq<char>| #[trigger] m2.contains_key(k) implies exists|q: int|
                0 <= q < out@.len() && (#[trigger] out@[q]).0@ == k by {
                if k != name@ {
                    let q = choose|q: int| 0 <= q < before.len() && (#[trigger] before[q]).0@ == k;
                    assert(out@[q] == before[q]);
                } else {
                    assert(out@[j as int].0@ == k);
                }
            }
            assert forall|a: int, b: int| 0 <= a < b < out@.len() implies (#[trigger] out@[a]).0@
                != (#[trigger] out@[b]).0@ by {
                assert(before[a].0@ != before[b].0@);
            }
        } else {
            out.push(pair);
            assert forall|q: int| 0 <= q < out@.len() implies m2.contains_key((#[trigger] out@[q]).0@)
                && m2[out@[q].0@] == out@[q].1@ by {
                if q < before.len() {
                    assert(out@[q] == before[q]);
                }
            }
            assert forall|k: Seq<char>| #[trigger] m2.contains_key(k) implies exists|q: int|
                0 <= q < out@.len() && (#[trigger] out@[q]).0@ == k by {
                if k != name@ {
                    let q = choose|q: int| 0 <= q < before.len() && (#[trigger] before[q]).0@ == k;
                    assert(out@[q] == before[q]);
                } else {
                    assert(out@[before.len() as int].0@ == k);
                }
            }
            assert forall|a: int, b: int| 0 <= a < b < out@.len() implies (#[trigger] out@[a]).0@
                != (#[trigger] out@[b]).0@ by {
                if b < before.len() {
                    assert(before[a].0@ != before[b].0@);
                } else {
                    assert(out@[a] == before[a]);
                    assert(before[a].0@ != name@);
                }
            }
        }
        i += 1;
    }
    assert(ps@.take(ps@.len() as int) =~= ps@);
    out
}

} // verus!
