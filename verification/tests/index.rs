use earthstream_geo::geo_index::{
    add_references, cells_for, get, index, lookup, stats, view_index, GeoIndex,
};
use earthstream_geo::IndexError;

const ORIGIN: &str = "s00000000";
const NEARBY: &str = "s000000tz";
const FAR: &str = "s1z0gs3y0";

fn text(s: &str) -> String {
    s.to_string()
}

fn three_entities() -> GeoIndex {
    let mut store = GeoIndex::new();
    assert_eq!(index(&mut store, text(ORIGIN), text("a")), Ok(()));
    assert_eq!(index(&mut store, text(NEARBY), text("b")), Ok(()));
    assert_eq!(index(&mut store, text(FAR), text("c")), Ok(()));
    store
}

#[test]
fn a_new_index_holds_nothing() {
    let store = GeoIndex::new();
    assert!(view_index(&store).is_empty());
    let s = stats(&store);
    assert_eq!(s.indexed_references, 0);
    assert_eq!(s.indexed_entities, 0);
    assert_eq!(lookup(&store, &text("a")), Err(IndexError::NotFound));
    assert!(get(&store, &text("s")).is_empty());
}

#[test]
fn the_six_cells_of_a_geohash() {
    assert_eq!(cells_for(ORIGIN), vec!["s", "s0", "s00", "s000", "s0000", "s00000"]);
    assert_eq!(cells_for(FAR), vec!["s", "s1", "s1z", "s1z0", "s1z0g", "s1z0gs"]);
    assert_eq!(cells_for("9q"), vec!["9", "9q", "9qs", "9qs0", "9qs00", "9qs000"]);
}

#[test]
fn indexing_files_the_entity_under_six_cells_and_records_it() {
    let mut store = GeoIndex::new();
    assert_eq!(index(&mut store, text(ORIGIN), text("a")), Ok(()));
    for cell in ["s", "s0", "s00", "s000", "s0000", "s00000"] {
        assert_eq!(get(&store, &text(cell)), vec!["a"], "cell {}", cell);
    }
    assert!(get(&store, &text("s000000")).is_empty());
    assert!(get(&store, &text("s1")).is_empty());
    assert_eq!(lookup(&store, &text("a")), Ok(text(ORIGIN)));
    assert_eq!(view_index(&store), vec!["a"; 6]);
    let s = stats(&store);
    assert_eq!(s.indexed_references, 6);
    assert_eq!(s.indexed_entities, 1);
}

#[test]
fn the_recorded_location_is_the_geohash_given_not_a_cell() {
    let mut store = GeoIndex::new();
    assert_eq!(index(&mut store, text("9q60y60rhs"), text("x")), Ok(()));
    assert_eq!(lookup(&store, &text("x")), Ok(text("9q60y60rhs")));
    assert_eq!(index(&mut store, text("9q"), text("y")), Ok(()));
    assert_eq!(lookup(&store, &text("y")), Ok(text("9q")));
    assert_eq!(get(&store, &text("9q")), vec!["x", "y"]);
    assert_eq!(get(&store, &text("9qs000")), vec!["y"]);
}

#[test]
fn a_malformed_geohash_is_refused_and_changes_nothing() {
    let mut store = three_entities();
    let before = view_index(&store);
    for bad in ["", "a", "s0 0", "9q60y60rhs9q6", "0.0,0.0"] {
        assert_eq!(index(&mut store, text(bad), text("a")), Err(IndexError::DecodeError));
        assert_eq!(index(&mut store, text(bad), text("new")), Err(IndexError::DecodeError));
    }
    assert_eq!(view_index(&store), before);
    assert_eq!(lookup(&store, &text("a")), Ok(text(ORIGIN)));
    assert_eq!(lookup(&store, &text("new")), Err(IndexError::NotFound));
    assert_eq!(stats(&store).indexed_entities, 3);
}

#[test]
fn buckets_are_listed_in_ascending_order_of_fingerprint() {
    let store = three_entities();
    assert_eq!(
        view_index(&store),
        vec![
            "a", "b", "c", "a", "b", "a", "b", "c", "a", "b", "a", "b", "c", "c", "c", "a", "b",
            "c",
        ]
    );
    let s = stats(&store);
    assert_eq!(s.indexed_references, 18);
    assert_eq!(s.indexed_entities, 3);
}

#[test]
fn a_bucket_keeps_the_order_of_filing() {
    let store = three_entities();
    assert_eq!(get(&store, &text("s")), vec!["a", "b", "c"]);
    assert_eq!(get(&store, &text("s00000")), vec!["a", "b"]);
    assert_eq!(get(&store, &text("s1z0gs")), vec!["c"]);
}

#[test]
fn indexing_twice_changes_nothing() {
    let mut store = three_entities();
    let once = view_index(&store);
    assert_eq!(index(&mut store, text(FAR), text("c")), Ok(()));
    assert_eq!(view_index(&store), once);
    assert_eq!(stats(&store).indexed_references, 18);
    assert_eq!(stats(&store).indexed_entities, 3);
    assert_eq!(lookup(&store, &text("c")), Ok(text(FAR)));
}

#[test]
fn indexing_twice_names_the_entity_once_in_each_bucket() {
    let mut store = GeoIndex::new();
    assert_eq!(index(&mut store, text(ORIGIN), text("a")), Ok(()));
    assert_eq!(index(&mut store, text(ORIGIN), text("a")), Ok(()));
    assert_eq!(index(&mut store, text(ORIGIN), text("a")), Ok(()));
    for cell in ["s", "s0", "s00", "s000", "s0000", "s00000"] {
        assert_eq!(get(&store, &text(cell)), vec!["a"]);
    }
    assert_eq!(stats(&store).indexed_references, 6);
}

#[test]
fn moving_an_entity_takes_it_out_of_its_former_buckets() {
    let mut store = three_entities();
    assert_eq!(index(&mut store, text(FAR), text("a")), Ok(()));
    assert_eq!(lookup(&store, &text("a")), Ok(text(FAR)));
    assert_eq!(get(&store, &text("s")), vec!["b", "c", "a"]);
    assert_eq!(get(&store, &text("s0")), vec!["b"]);
    assert_eq!(get(&store, &text("s00000")), vec!["b"]);
    assert_eq!(get(&store, &text("s1z0gs")), vec!["c", "a"]);
    assert_eq!(stats(&store).indexed_references, 18);
    assert_eq!(stats(&store).indexed_entities, 3);
}

#[test]
fn a_bucket_left_empty_goes() {
    let mut store = GeoIndex::new();
    assert_eq!(index(&mut store, text(ORIGIN), text("a")), Ok(()));
    assert_eq!(index(&mut store, text("9q60y60rhs"), text("a")), Ok(()));
    assert!(get(&store, &text("s")).is_empty());
    assert!(get(&store, &text("s00000")).is_empty());
    assert_eq!(get(&store, &text("9q60y6")), vec!["a"]);
    assert_eq!(view_index(&store), vec!["a"; 6]);
}

#[test]
fn add_references_files_without_recording() {
    let mut store = GeoIndex::new();
    add_references(&mut store, &vec![text("s"), text("s0"), text("s")], &text("ghost"));
    assert_eq!(get(&store, &text("s")), vec!["ghost"]);
    assert_eq!(get(&store, &text("s0")), vec!["ghost"]);
    assert_eq!(lookup(&store, &text("ghost")), Err(IndexError::NotFound));
    let s = stats(&store);
    assert_eq!(s.indexed_references, 2);
    assert_eq!(s.indexed_entities, 0);
}

#[test]
fn lookup_of_an_unknown_entity_is_not_found() {
    let store = three_entities();
    assert_eq!(lookup(&store, &text("d")), Err(IndexError::NotFound));
    assert_eq!(lookup(&store, &text("")), Err(IndexError::NotFound));
    assert_eq!(lookup(&store, &text("b")), Ok(text(NEARBY)));
}

#[test]
fn entities_are_found_whatever_the_order_in_which_they_were_indexed() {
    let ids = ["m", "b", "zz", "", "a", "ab", "z", "aa", "\u{00e9}", "B", "b0", "m"];
    let hashes = [ORIGIN, NEARBY, FAR, "9q60y60rhs"];
    let mut store = GeoIndex::new();
    for (n, id) in ids.iter().enumerate() {
        assert_eq!(index(&mut store, text(hashes[n % hashes.len()]), text(id)), Ok(()));
    }
    for (n, id) in ids.iter().enumerate() {
        let last = ids.iter().rposition(|other| other == id).unwrap();
        assert_eq!(lookup(&store, &text(id)), Ok(text(hashes[last % hashes.len()])), "id {}", n);
    }
    assert_eq!(lookup(&store, &text("c")), Err(IndexError::NotFound));
    assert_eq!(lookup(&store, &text("a0")), Err(IndexError::NotFound));
    assert_eq!(stats(&store).indexed_entities, 11);
    assert_eq!(stats(&store).indexed_references, 66);
}
