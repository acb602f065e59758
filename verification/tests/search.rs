use earthstream_geo::geo_index::{
    add_references, candidates, find, get_distance, get_distance_from_geohash, in_radius, index,
    GeoIndex,
};
use earthstream_geo::{Coordinate, IndexError, Km};

const ORIGIN: &str = "s00000000";
const NEARBY: &str = "s000000tz";
const FAR: &str = "s1z0gs3y0";

fn text(s: &str) -> String {
    s.to_string()
}

fn km(value: f64) -> Km {
    Km { bits: value.to_bits() }
}

fn haversine(lat1: f64, lon1: f64, lat2: f64, lon2: f64) -> f64 {
    let dlat = (lat2 - lat1).to_radians();
    let dlon = (lon2 - lon1).to_radians();
    let a = (dlat / 2.0).sin().powi(2)
        + lat1.to_radians().cos() * lat2.to_radians().cos() * (dlon / 2.0).sin().powi(2);
    let c = 2.0 * a.sqrt().atan2((1.0 - a).sqrt());
    6_371_000.0 * c
}

fn great_circle(a: Coordinate, b: Coordinate) -> Km {
    let metres = haversine(
        f64::from_bits(a.lat_bits),
        f64::from_bits(a.lon_bits),
        f64::from_bits(b.lat_bits),
        f64::from_bits(b.lon_bits),
    );
    km(metres / 1000.0)
}

fn three_entities() -> GeoIndex {
    let mut store = GeoIndex::new();
    assert_eq!(index(&mut store, text(ORIGIN), text("a")), Ok(()));
    assert_eq!(index(&mut store, text(NEARBY), text("b")), Ok(()));
    assert_eq!(index(&mut store, text(FAR), text("c")), Ok(()));
    store
}

#[test]
fn the_test_geohashes_are_those_of_the_three_points() {
    let at = |lat: f64, lon: f64| geohash::encode(geohash::Coord { x: lon, y: lat }, 9).unwrap();
    assert_eq!(at(0.0, 0.0), ORIGIN);
    assert_eq!(at(0.001, 0.001), NEARBY);
    assert_eq!(at(10.0, 10.0), FAR);
}

#[test]
fn find_returns_the_two_near_entities_and_not_the_far_one() {
    let store = three_entities();
    assert_eq!(find(&store, text(ORIGIN), km(1.0), great_circle), Ok(vec![text("a"), text("b")]));
}

#[test]
fn find_filters_by_distance_inside_the_cells() {
    let store = three_entities();
    assert_eq!(find(&store, text(ORIGIN), km(0.1), great_circle), Ok(vec![text("a")]));
    assert_eq!(find(&store, text(ORIGIN), km(0.155), great_circle), Ok(vec![text("a")]));
    assert_eq!(find(&store, text(ORIGIN), km(0.156), great_circle), Ok(vec![text("a"), text("b")]));
    assert_eq!(find(&store, text(NEARBY), km(0.1), great_circle), Ok(vec![text("b")]));
}

#[test]
fn a_large_radius_reaches_the_far_entity() {
    let store = three_entities();
    assert_eq!(
        find(&store, text(ORIGIN), km(1600.0), great_circle),
        Ok(vec![text("a"), text("b"), text("c")])
    );
    assert_eq!(
        find(&store, text(ORIGIN), km(1500.0), great_circle),
        Ok(vec![text("a"), text("b")])
    );
}

#[test]
fn find_includes_an_entity_at_its_own_geohash_for_any_radius() {
    let store = three_entities();
    for radius in [0.0, 0.5, 1.2, 3.0, 4.9, 20.0, 39.0, 100.0, 156.0, 1000.0, 1252.0, 5000.0] {
        for (hash, id) in [(ORIGIN, "a"), (NEARBY, "b"), (FAR, "c")] {
            let found = find(&store, text(hash), km(radius), great_circle).unwrap();
            assert!(found.contains(&text(id)), "radius {} around {}", radius, hash);
        }
    }
}

#[test]
fn a_negative_radius_or_one_that_is_no_number_finds_nothing() {
    let store = three_entities();
    assert_eq!(find(&store, text(ORIGIN), km(-1.0), great_circle), Ok(vec![]));
    assert_eq!(find(&store, text(ORIGIN), km(f64::NAN), great_circle), Ok(vec![]));
}

#[test]
fn a_larger_radius_of_the_same_precision_finds_no_less() {
    let store = three_entities();
    let radii = [0.0, 0.05, 0.1, 0.2, 0.5, 1.0, 1.19];
    for i in 0..radii.len() {
        for j in i + 1..radii.len() {
            let small = find(&store, text(ORIGIN), km(radii[i]), great_circle).unwrap();
            let large = find(&store, text(ORIGIN), km(radii[j]), great_circle).unwrap();
            for id in &small {
                assert!(large.contains(id), "{} < {}", radii[i], radii[j]);
            }
        }
    }
}

#[test]
fn find_looks_at_the_cells_around_the_centre() {
    let mut store = GeoIndex::new();
    assert_eq!(index(&mut store, text("9q60y60rht"), text("north")), Ok(()));
    assert_eq!(index(&mut store, text("9q60y60rh7"), text("southwest")), Ok(()));
    let found = find(&store, text("9q60y60rhs"), km(1.0), great_circle).unwrap();
    assert_eq!(found, vec![text("north"), text("southwest")]);
    let mut edge = GeoIndex::new();
    assert_eq!(index(&mut edge, text("9q60y7"), text("next")), Ok(()));
    assert_eq!(candidates(&edge, &text("9q60y6"), &km(1.0)), Ok(vec![text("next")]));
    assert_eq!(candidates(&edge, &text("9q60yd"), &km(1.0)), Ok(vec![text("next")]));
    assert_eq!(candidates(&edge, &text("9q60y1"), &km(1.0)), Ok(vec![]));
}

#[test]
fn an_entity_filed_under_two_candidate_cells_is_returned_once() {
    let mut store = GeoIndex::new();
    assert_eq!(index(&mut store, text("9q60y6"), text("a")), Ok(()));
    assert_eq!(index(&mut store, text("9q60y6"), text("b")), Ok(()));
    add_references(&mut store, &vec![text("9q60y7"), text("9q60yd"), text("9q60y3")], &text("a"));
    assert_eq!(candidates(&store, &text("9q60y6"), &km(1.0)), Ok(vec![text("a"), text("b")]));
    assert_eq!(find(&store, text("9q60y6"), km(1.0), great_circle), Ok(vec![text("a"), text("b")]));
    assert_eq!(candidates(&store, &text("9q60y7"), &km(1.0)), Ok(vec![text("a"), text("b")]));
}

#[test]
fn candidates_come_before_any_distance_is_taken() {
    let store = three_entities();
    assert_eq!(candidates(&store, &text(ORIGIN), &km(1.0)), Ok(vec![text("a"), text("b")]));
    assert_eq!(
        candidates(&store, &text(ORIGIN), &km(2000.0)),
        Ok(vec![text("a"), text("b"), text("c")])
    );
    assert_eq!(candidates(&store, &text(FAR), &km(1.0)), Ok(vec![text("c")]));
    assert_eq!(candidates(&store, &text("9q60y60rhs"), &km(1.0)), Ok(vec![]));
}

#[test]
fn a_search_around_a_malformed_geohash_is_refused() {
    let store = three_entities();
    for bad in ["", "a", "0.0,0.0", "9q60y60rhs9q6"] {
        assert_eq!(find(&store, text(bad), km(1.0), great_circle), Err(IndexError::DecodeError));
        assert_eq!(candidates(&store, &text(bad), &km(1.0)), Err(IndexError::DecodeError));
    }
}

#[test]
fn a_bucket_entry_without_a_location_is_an_integrity_fault() {
    let mut store = three_entities();
    add_references(&mut store, &vec![text("s00000")], &text("ghost"));
    assert_eq!(find(&store, text(ORIGIN), km(1.0), great_circle), Err(IndexError::IntegrityError));
    assert_eq!(
        find(&store, text(FAR), km(1.0), great_circle),
        Ok(vec![text("c")])
    );
    let center = earthstream_geo::codec::decode(ORIGIN).unwrap();
    assert_eq!(
        in_radius(&store, center, &km(1.0), &text("ghost"), &great_circle),
        Err(IndexError::IntegrityError)
    );
    assert_eq!(in_radius(&store, center, &km(1.0), &text("b"), &great_circle), Ok(true));
    assert_eq!(in_radius(&store, center, &km(1.0), &text("c"), &great_circle), Ok(false));
}

#[test]
fn distance_between_two_geohashes() {
    let d = get_distance_from_geohash(text(ORIGIN), text(NEARBY), great_circle).unwrap();
    assert!((f64::from_bits(d.bits) - 0.15521740092277186).abs() < 1e-9);
    let far = get_distance_from_geohash(text(ORIGIN), text(FAR), great_circle).unwrap();
    assert!((f64::from_bits(far.bits) - 1568.5145783217695).abs() < 1e-6);
    let none = get_distance_from_geohash(text(FAR), text(FAR), great_circle).unwrap();
    assert_eq!(f64::from_bits(none.bits), 0.0);
}

#[test]
fn distance_is_symmetric() {
    for (a, b) in [(ORIGIN, NEARBY), (ORIGIN, FAR), (NEARBY, FAR), ("9q60y60rhs", "zzzzzzzzz")] {
        let there = get_distance_from_geohash(text(a), text(b), great_circle).unwrap();
        let back = get_distance_from_geohash(text(b), text(a), great_circle).unwrap();
        assert!((f64::from_bits(there.bits) - f64::from_bits(back.bits)).abs() < 1e-9);
    }
}

#[test]
fn distance_of_a_malformed_geohash_is_refused() {
    assert_eq!(
        get_distance_from_geohash(text("nope"), text(FAR), great_circle),
        Err(IndexError::DecodeError)
    );
    assert_eq!(
        get_distance_from_geohash(text(FAR), text(""), great_circle),
        Err(IndexError::DecodeError)
    );
    let center = earthstream_geo::codec::decode(FAR).unwrap();
    assert_eq!(get_distance(center, &text("a"), &great_circle), Err(IndexError::DecodeError));
}

#[test]
fn the_distance_is_the_one_that_the_caller_supplies() {
    let store = three_entities();
    let none = |_: Coordinate, _: Coordinate| Km { bits: 0 };
    let endless = |_: Coordinate, _: Coordinate| km(f64::INFINITY);
    assert_eq!(find(&store, text(ORIGIN), km(0.0), none), Ok(vec![text("a"), text("b")]));
    assert_eq!(find(&store, text(ORIGIN), km(1.0), endless), Ok(vec![]));
    assert_eq!(get_distance_from_geohash(text(ORIGIN), text(FAR), none), Ok(Km { bits: 0 }));
}
