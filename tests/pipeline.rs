use capchat::shapes::{only_polys, Shape};
use capchat::cap::collect_parameters;
use capchat::cap::{circle_bearings, circle_polygon, parse_circle, Area, Cap, Circle, Info, Severity};
use capchat::compose::{collect_area_polygons, plan_map, svg_frame, MapError};
use capchat::dedup::DedupCache;
use capchat::feed::{
    choose_link, feed_dialect, items_from_entries, next_attempt, select_new, FeedDialect,
    FeedEntry, FeedError, FeedLink, Item, Syntax,
};
use capchat::fence::{FenceError, filter_by_boundaries, filter_by_severity, unique_by_guid};
use capchat::geometry::{bounding_box, BBox, Coord, Polygon, PolygonError};
use capchat::ring::{polygon_from_text, polygon_to_text};

const DEG: i64 = 10_000_000;

fn c(x: i64, y: i64) -> Coord {
    Coord { x: x * DEG, y: y * DEG }
}

fn poly(points: &[(i64, i64)]) -> Polygon {
    Polygon { exterior: points.iter().map(|&(x, y)| c(x, y)).collect(), interiors: Vec::new() }
}

fn square_boundary() -> Vec<Polygon> {
    vec![poly(&[(0, 0), (0, 10), (10, 10), (10, 0), (0, 0)])]
}

fn alert(guid: &str, severity: Severity, polygons: Vec<Polygon>) -> Cap {
    Cap {
        guid: guid.to_string(),
        date_sent: 0,
        status: "Actual".to_string(),
        scope: "Public".to_string(),
        msg_type: "Alert".to_string(),
        info: Info {
            category: String::new(),
            event: String::new(),
            urgency: String::new(),
            severity,
            certainty: String::new(),
            onset: 0,
            expires: 3600,
            headline: "Heavy rain".to_string(),
            description: String::new(),
            instruction: String::new(),
            response_type: String::new(),
            sender_name: String::new(),
            parameters: Vec::new(),
            areas: vec![Area { desc: "Somewhere".to_string(), polygons, circles: Vec::new() }],
        },
    }
}

fn guids(caps: &[Cap]) -> Vec<String> {
    caps.iter().map(|c| c.guid.clone()).collect()
}

fn temp_cache() -> DedupCache {
    let db = sled::Config::new().temporary(true).open().unwrap();
    DedupCache::new(db.open_tree("cache").unwrap())
}

fn item(guid: &str) -> Item {
    Item { title: format!("title {}", guid), guid: guid.to_string(), link: format!("https://example.org/{}", guid) }
}

#[test]
fn polygon_text_parses_lat_lon_pairs() {
    let p = polygon_from_text("-41.5,174.25 -41.0,175 -42,175.5 -41.5,174.25").unwrap();
    assert_eq!(p.exterior.len(), 4);
    assert_eq!(p.exterior[0], Coord { x: 1_742_500_000, y: -415_000_000 });
    assert_eq!(p.exterior[1], Coord { x: 1_750_000_000, y: -410_000_000 });
    assert!(p.interiors.is_empty());
}

#[test]
fn polygon_text_round_trip() {
    let text = "-41.5,174.25\t-41.0,175\n-42,+175.5   -41.5,174.25";
    let p = polygon_from_text(text).unwrap();
    let written = polygon_to_text(&p);
    assert_eq!(written, "-41.5000000,174.2500000 -41.0000000,175.0000000 -42.0000000,175.5000000 -41.5000000,174.2500000");
    let again = polygon_from_text(&written).unwrap();
    assert_eq!(again.exterior, p.exterior);
}

#[test]
fn open_ring_is_rejected() {
    assert_eq!(polygon_from_text("0,0 0,10 10,10 10,0").unwrap_err(), PolygonError::NotClosed);
    let r = Polygon::from_rings(vec![c(0, 0), c(0, 10), c(10, 10)], Vec::new());
    assert_eq!(r.unwrap_err(), PolygonError::NotClosed);
    let hole_open = Polygon::from_rings(
        vec![c(0, 0), c(0, 10), c(10, 10), c(0, 0)],
        vec![vec![c(1, 1), c(1, 2), c(2, 2)]],
    );
    assert_eq!(hole_open.unwrap_err(), PolygonError::NotClosed);
    assert!(Polygon::from_rings(vec![c(0, 0), c(0, 10), c(10, 10), c(0, 0)], Vec::new()).is_ok());
}

#[test]
fn malformed_polygon_text_is_rejected() {
    assert_eq!(polygon_from_text("0,0 0;10 0,0").unwrap_err(), PolygonError::Malformed);
    assert_eq!(polygon_from_text("0,0 0,1x 0,0").unwrap_err(), PolygonError::Malformed);
    assert_eq!(polygon_from_text("0,0 0,1e5 0,0").unwrap_err(), PolygonError::Malformed);
    assert_eq!(polygon_from_text("0,0 0,. 0,0").unwrap_err(), PolygonError::Malformed);
    assert_eq!(polygon_from_text("0,0 ,1 0,0").unwrap_err(), PolygonError::Malformed);
}

#[test]
fn empty_polygon_text_is_an_empty_ring() {
    let p = polygon_from_text("  ").unwrap();
    assert!(p.exterior.is_empty());
}

#[test]
fn geofence_without_boundaries_is_identity() {
    let caps = vec![
        alert("a", Severity::Minor, vec![poly(&[(50, 50), (50, 51), (51, 51), (50, 50)])]),
        alert("b", Severity::Extreme, Vec::new()),
    ];
    let kept = filter_by_boundaries(caps, &Vec::new()).unwrap();
    assert_eq!(guids(&kept), vec!["a", "b"]);
}

#[test]
fn geofence_drops_alert_outside_square() {
    let caps = vec![alert("out", Severity::Severe, vec![poly(&[(20, 20), (20, 30), (30, 30), (30, 20), (20, 20)])])];
    let kept = filter_by_boundaries(caps, &square_boundary()).unwrap();
    assert!(kept.is_empty());
}

#[test]
fn geofence_keeps_alert_over_corner() {
    let caps = vec![alert("corner", Severity::Severe, vec![poly(&[(8, 8), (8, 12), (12, 12), (12, 8), (8, 8)])])];
    let kept = filter_by_boundaries(caps, &square_boundary()).unwrap();
    assert_eq!(guids(&kept), vec!["corner"]);
}

#[test]
fn geofence_keeps_alert_inside_square() {
    let caps = vec![
        alert("inside", Severity::Minor, vec![poly(&[(2, 2), (2, 3), (3, 3), (3, 2), (2, 2)])]),
        alert("none", Severity::Minor, Vec::new()),
    ];
    let kept = filter_by_boundaries(caps, &square_boundary()).unwrap();
    assert_eq!(guids(&kept), vec!["inside"]);
}

#[test]
fn severity_threshold_moderate() {
    let make = || vec![alert("m", Severity::Moderate, Vec::new())];
    assert_eq!(filter_by_severity(make(), Severity::Minor).len(), 1);
    assert_eq!(filter_by_severity(make(), Severity::Moderate).len(), 1);
    assert_eq!(filter_by_severity(make(), Severity::Severe).len(), 0);
    assert_eq!(filter_by_severity(make(), Severity::Extreme).len(), 0);
}

#[test]
fn severity_names_ignore_case() {
    assert_eq!(Severity::from_text("MODERATE"), Ok(Severity::Moderate));
    assert_eq!(Severity::from_text("extreme"), Ok(Severity::Extreme));
    assert_eq!("Minor".parse::<Severity>(), Ok(Severity::Minor));
    assert_eq!(Severity::from_text("bad"), Err("invalid severity: bad".to_string()));
    assert!(Severity::Minor < Severity::Moderate && Severity::Severe < Severity::Extreme);
}

#[test]
fn alerts_merge_by_guid() {
    let caps = vec![
        alert("x", Severity::Minor, Vec::new()),
        alert("y", Severity::Minor, Vec::new()),
        alert("x", Severity::Extreme, Vec::new()),
    ];
    let merged = unique_by_guid(caps);
    assert_eq!(guids(&merged), vec!["x", "y"]);
    assert_eq!(merged[0].info.severity, Severity::Minor);
}

#[test]
fn circle_descriptor_parses() {
    assert_eq!(
        parse_circle("-41.25,174.5 20"),
        Some(Circle { center: Coord { x: 1_745_000_000, y: -412_500_000 }, radius: 200_000_000 })
    );
    assert_eq!(parse_circle("-41.25,174.5"), None);
    assert_eq!(parse_circle("-41.25;174.5 20"), None);
    assert_eq!(parse_circle("-41.25,174.5 x"), None);
}

#[test]
fn circle_polygon_has_thirty_two_vertices() {
    let bearings = circle_bearings();
    assert_eq!(bearings.len(), 32);
    assert_eq!(bearings[0], 0);
    assert_eq!(bearings[8], 90_000);
    assert_eq!(bearings[31], 348_750);
    let center = (174.5f64, -41.25f64);
    let ruler = cheap_ruler::CheapRuler::new(center.0, cheap_ruler::DistanceUnit::Kilometers);
    let origin = geo::Point::new(center.0, center.1);
    let vertices: Vec<Coord> = bearings
        .iter()
        .map(|&b| {
            let p = ruler.destination(&origin, 20.0, b as f64 / 1000.0);
            Coord { x: (p.x() * 1e7).round() as i64, y: (p.y() * 1e7).round() as i64 }
        })
        .collect();
    let p = circle_polygon(vertices).unwrap();
    assert_eq!(p.exterior.len(), 33);
    assert_eq!(p.exterior[0], p.exterior[32]);
    let n = 32.0;
    let cx: f64 = p.exterior[..32].iter().map(|c| c.x as f64 / 1e7).sum::<f64>() / n;
    let cy: f64 = p.exterior[..32].iter().map(|c| c.y as f64 / 1e7).sum::<f64>() / n;
    assert!((cx - center.0).abs() < 0.01, "{}", cx);
    assert!((cy - center.1).abs() < 0.01, "{}", cy);
}

#[test]
fn circles_become_polygons_and_failures_are_skipped() {
    let mut area = Area { desc: "d".to_string(), polygons: vec![poly(&[(0, 0), (0, 1), (1, 1), (0, 0)])], circles: vec!["bad".to_string(), "1,1 2".to_string()] };
    area.absorb_circles(vec![None, Some(poly(&[(1, 1), (1, 2), (2, 2), (1, 1)]))]);
    assert_eq!(area.polygons.len(), 2);
    assert_eq!(area.polygons[1].exterior[0], c(1, 1));
    assert!(area.circles.is_empty());
}

#[test]
fn map_without_boundaries_uses_area_box() {
    let caps = vec![alert("a", Severity::Minor, vec![poly(&[(2, 3), (2, 7), (5, 7), (5, 3), (2, 3)])])];
    let areas = collect_area_polygons(&caps);
    assert_eq!(areas.len(), 1);
    let plan = plan_map(&Vec::new(), &areas, &Vec::new(), false, false, 512, 512).unwrap();
    assert_eq!(plan.bbox, BBox { min_x: 2 * DEG, min_y: 3 * DEG, max_x: 5 * DEG, max_y: 7 * DEG });
    assert!(!plan.crop_areas);
    assert!(!plan.draw_outlines);
}

#[test]
fn map_with_boundaries_uses_their_box_and_crops() {
    let areas = vec![poly(&[(8, 8), (8, 12), (12, 12), (12, 8), (8, 8)])];
    let outlines = vec![poly(&[(-5, -5), (-5, 20), (20, 20), (-5, -5)])];
    let plan = plan_map(&square_boundary(), &areas, &outlines, false, false, 100, 50).unwrap();
    assert_eq!(plan.bbox, BBox { min_x: 0, min_y: 0, max_x: 10 * DEG, max_y: 10 * DEG });
    assert!(plan.crop_areas && plan.draw_outlines && plan.crop_outlines);
    let plan = plan_map(&square_boundary(), &areas, &outlines, true, true, 100, 50).unwrap();
    assert!(!plan.crop_areas && !plan.crop_outlines);
}

#[test]
fn map_errors() {
    assert_eq!(plan_map(&Vec::new(), &Vec::new(), &Vec::new(), false, false, 1, 1).unwrap_err(), MapError::NoBoundingBox);
    let flat = vec![poly(&[(1, 1), (1, 5), (1, 1)])];
    assert_eq!(plan_map(&Vec::new(), &flat, &Vec::new(), false, false, 1, 1).unwrap_err(), MapError::ZeroSizedMap);
    assert_eq!(plan_map(&square_boundary(), &Vec::new(), &Vec::new(), false, false, 0, 10).unwrap_err(), MapError::ZeroSizedImage);
}

#[test]
fn svg_frame_flips_and_shifts() {
    let f = svg_frame(BBox { min_x: 2, min_y: 3, max_x: 5, max_y: 7 });
    assert_eq!((f.width, f.height, f.shift_x, f.shift_y, f.lift), (3, 4, -2, -3, -10));
}

#[test]
fn bounding_box_of_nothing() {
    assert_eq!(bounding_box(&Vec::new()), None);
    assert_eq!(bounding_box(&vec![Polygon { exterior: Vec::new(), interiors: Vec::new() }]), None);
}

#[test]
fn dedup_claims_once() {
    let mut cache = temp_cache();
    assert_eq!(cache.try_claim("g1", "l1"), Ok(true));
    assert_eq!(cache.try_claim("g1", "l1"), Ok(false));
    assert_eq!(cache.try_claim("g1", "other"), Ok(false));
    assert_eq!(cache.try_claim("g2", "l1"), Ok(true));
}

#[test]
fn ingestion_skips_seen_alerts_and_second_run_finds_none() {
    let mut cache = temp_cache();
    assert_eq!(cache.try_claim("seen", "https://example.org/seen"), Ok(true));
    let feed = vec![item("seen"), item("fresh")];
    let first = select_new(&mut cache, feed.clone()).unwrap();
    assert_eq!(first, vec![item("fresh")]);
    let second = select_new(&mut cache, feed).unwrap();
    assert!(second.is_empty());
}

#[test]
fn duplicate_guid_within_a_feed_is_new_once() {
    let mut cache = temp_cache();
    let new = select_new(&mut cache, vec![item("a"), item("a"), item("b")]).unwrap();
    assert_eq!(new, vec![item("a"), item("b")]);
}

#[test]
fn media_types_select_dialects() {
    assert_eq!(feed_dialect("application/atom+xml"), Ok(FeedDialect::Atom));
    assert_eq!(feed_dialect("application/rss+xml; charset=utf-8"), Ok(FeedDialect::Rss));
    assert_eq!(feed_dialect("application/xml"), Ok(FeedDialect::RssOrAtom));
    assert_eq!(feed_dialect("text/html"), Err(FeedError::UnsupportedMediaType));
    assert_eq!(feed_dialect("not a media type"), Err(FeedError::InvalidMediaType));
}

#[test]
fn ambiguous_feed_tries_rss_then_atom() {
    assert_eq!(next_attempt(FeedDialect::RssOrAtom, 0), Some(Syntax::Rss));
    assert_eq!(next_attempt(FeedDialect::RssOrAtom, 1), Some(Syntax::Atom));
    assert_eq!(next_attempt(FeedDialect::RssOrAtom, 2), None);
    assert_eq!(next_attempt(FeedDialect::Atom, 0), Some(Syntax::Atom));
    assert_eq!(next_attempt(FeedDialect::Atom, 1), None);
    assert_eq!(next_attempt(FeedDialect::Rss, 1), None);
}

fn link(href: &str, t: Option<&str>) -> FeedLink {
    FeedLink { href: href.to_string(), media_type: t.map(|s| s.to_string()) }
}

#[test]
fn entries_pick_their_alert_link() {
    assert_eq!(choose_link(&vec![link("only", None)]), Some(0));
    assert_eq!(
        choose_link(&vec![link("page", Some("text/html")), link("cap", Some("application/cap+xml")), link("cap2", Some("application/cap+xml"))]),
        Some(1)
    );
    assert_eq!(choose_link(&vec![link("a", None), link("b", Some("text/html"))]), None);
    assert_eq!(choose_link(&Vec::new()), None);
    let entries = vec![
        FeedEntry { title: "t1".to_string(), guid: "g1".to_string(), links: vec![link("l1", None)] },
        FeedEntry { title: "t2".to_string(), guid: "g2".to_string(), links: Vec::new() },
    ];
    assert_eq!(
        items_from_entries(&entries),
        vec![Item { title: "t1".to_string(), guid: "g1".to_string(), link: "l1".to_string() }]
    );
}

#[test]
fn only_polygons_are_kept_from_boundary_geometries() {
    let a = poly(&[(0, 0), (0, 1), (1, 1), (0, 0)]);
    let b = poly(&[(2, 2), (2, 3), (3, 3), (2, 2)]);
    let d = poly(&[(4, 4), (4, 5), (5, 5), (4, 4)]);
    let shapes = vec![
        Shape::Other,
        Shape::Polygon(a),
        Shape::Collection(vec![Shape::MultiPolygon(vec![b]), Shape::Other]),
        Shape::Polygon(d),
    ];
    let polys = only_polys(shapes);
    let firsts: Vec<Coord> = polys.iter().map(|p| p.exterior[0]).collect();
    assert_eq!(firsts, vec![c(0, 0), c(2, 2), c(4, 4)]);
    assert!(only_polys(Vec::new()).is_empty());
}

#[test]
fn parameters_keep_last_value_per_name() {
    let pairs = vec![
        ("ColourCode".to_string(), "Yellow".to_string()),
        ("Other".to_string(), "x".to_string()),
        ("ColourCode".to_string(), "Orange".to_string()),
    ];
    let params = collect_parameters(&pairs);
    assert_eq!(
        params,
        vec![("ColourCode".to_string(), "Orange".to_string()), ("Other".to_string(), "x".to_string())]
    );
}

#[test]
fn alerts_are_equal_by_guid() {
    assert!(alert("same", Severity::Minor, Vec::new()) == alert("same", Severity::Extreme, Vec::new()));
    assert!(alert("one", Severity::Minor, Vec::new()) != alert("two", Severity::Minor, Vec::new()));
}

#[test]
fn long_fractions_are_truncated_and_short_forms_read() {
    let p = polygon_from_text("1,0.12345678 .5,5. -0.00000019,-.25 1,0.12345678").unwrap();
    assert_eq!(p.exterior[0], Coord { x: 1_234_567, y: 10_000_000 });
    assert_eq!(p.exterior[1], Coord { x: 50_000_000, y: 5_000_000 });
    assert_eq!(p.exterior[2], Coord { x: -2_500_000, y: -1 });
    assert_eq!(
        parse_circle("-41.123456789,174.5 .5"),
        Some(Circle { center: Coord { x: 1_745_000_000, y: -411_234_567 }, radius: 5_000_000 })
    );
}

#[test]
fn geofence_refuses_pairs_too_wide_to_test() {
    let wide = vec![poly(&[(-170, 0), (-170, 10), (170, 10), (170, 0), (-170, 0)])];
    let caps = vec![alert("a", Severity::Minor, vec![poly(&[(0, 2), (0, 3), (1, 3), (0, 2)])])];
    assert_eq!(filter_by_boundaries(caps, &wide).unwrap_err(), FenceError::TooWide);
    let far = vec![alert("far", Severity::Minor, vec![poly(&[(175, 50), (175, 51), (176, 51), (175, 50)])])];
    assert!(filter_by_boundaries(far, &wide).unwrap().is_empty());
}

#[test]
fn geofence_works_across_the_date_line_region() {
    let bounds = vec![poly(&[(170, -45), (170, -35), (179, -35), (179, -45), (170, -45)])];
    let caps = vec![alert("nz", Severity::Minor, vec![poly(&[(174, -41), (174, -40), (175, -40), (174, -41)])])];
    assert_eq!(guids(&filter_by_boundaries(caps, &bounds).unwrap()), vec!["nz"]);
}

#[test]
fn ring_open_past_seventh_digit_is_rejected() {
    assert_eq!(polygon_from_text("0.00000001,0 1,1 0.00000002,0").unwrap_err(), PolygonError::NotClosed);
    assert_eq!(polygon_from_text("-0.00000001,0 1,1 0.00000001,0").unwrap_err(), PolygonError::NotClosed);
    assert_eq!(polygon_from_text("0,0 1,1 0,0.000000001").unwrap_err(), PolygonError::NotClosed);
}

#[test]
fn ring_closed_when_written_differently_is_accepted() {
    let p = polygon_from_text("1.0,2 3,4 5,6 1,2.000000000").unwrap();
    assert_eq!(p.exterior.len(), 4);
    assert!(polygon_from_text("-0,0.123456789 1,1 0,.1234567890 ").is_ok());
}

#[test]
fn no_items_claims_nothing() {
    let mut cache = temp_cache();
    assert_eq!(select_new(&mut cache, Vec::new()), Ok(Vec::new()));
    assert_eq!(cache.try_claim("g", "l"), Ok(true));
}

#[test]
fn alert_link_media_type_ignores_case() {
    assert_eq!(
        choose_link(&vec![link("page", Some("text/html")), link("cap", Some("Application/CAP+XML"))]),
        Some(1)
    );
}
