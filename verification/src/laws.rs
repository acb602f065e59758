//! What holds of the index across calls.
//!
//! Each law is stated over the mathematical view of the index and the
//! functions that the contracts of its operations use.

use crate::buckets::{
    bucket, joined, lemma_joined_members, lemma_parted_members, neat, parted, Table,
};
use crate::codec::{cell_or_empty, fingerprint, valid_geohash};
use crate::model::{
    candidate_cells, cells_of, covers, file_all, kept, lemma_file_all_bucket,
    lemma_gathered_members, lemma_gathered_once, lemma_indexed_member, lemma_kept_members,
    lemma_kept_once, lemma_unfile_all_bucket,
    listing, precision_for, rising, unfile_all, IndexView, MAX_PRECISION, MIN_PRECISION,
};
use crate::keys::key_value;
use crate::measure::Km;
use vstd::prelude::*;

verus! {

/// Filing an entity under some cells leaves no bucket empty and makes no duplicate.
pub proof fn lemma_file_all_neat(t: Table, cells: Seq<Seq<char>>, id: Seq<char>)
    requires
        neat(t),
    ensures
        neat(file_all(t, cells, id)),
    decreases cells.len(),
{
    if cells.len() > 0 {
        let before = file_all(t, cells.drop_last(), id);
        lemma_file_all_neat(t, cells.drop_last(), id);
        lemma_joined_members(bucket(before, fingerprint(cells.last())), id, id);
    }
}

/// Taking an entity out of the buckets of some cells leaves no bucket empty
/// and makes no duplicate.
pub proof fn lemma_unfile_all_neat(t: Table, cells: Seq<Seq<char>>, id: Seq<char>)
    requires
        neat(t),
    ensures
        neat(unfile_all(t, cells, id)),
    decreases cells.len(),
{
    if cells.len() > 0 {
        let before = unfile_all(t, cells.drop_last(), id);
        lemma_unfile_all_neat(t, cells.drop_last(), id);
        lemma_parted_members(bucket(before, fingerprint(cells.last())), id, id);
    }
}

/// Indexing leaves no bucket empty and makes no duplicate.
pub proof fn lemma_indexed_neat(v: IndexView, geohash: Seq<char>, id: Seq<char>)
    requires
        neat(v.buckets),
    ensures
        neat(v.indexed(geohash, id).buckets),
{
    if v.locations.contains_key(id) {
        lemma_unfile_all_neat(v.buckets, cells_of(v.locations[id]), id);
    }
    lemma_file_all_neat(v.vacated(id).buckets, cells_of(geohash), id);
}

/// Indexing keeps the index well formed: after it no bucket is empty, none
/// names an entity twice, and every recorded geohash decodes.
pub proof fn lemma_indexed_well_formed(v: IndexView, geohash: Seq<char>, id: Seq<char>)
    requires
        v.well_formed(),
        valid_geohash(geohash),
    ensures
        v.indexed(geohash, id).well_formed(),
{
    lemma_indexed_neat(v, geohash, id);
}

/// Indexing one entity leaves the others where they are: each bucket names
/// the same other entities as before, and their recorded locations stay.
pub proof fn lemma_indexed_leaves_others(
    v: IndexView,
    geohash: Seq<char>,
    id: Seq<char>,
    key: Seq<u8>,
    other: Seq<char>,
)
    requires
        v.well_formed(),
        other != id,
    ensures
        v.indexed(geohash, id).bucket(key).contains(other) <==> v.bucket(key).contains(other),
        v.indexed(geohash, id).locations.contains_key(other) <==> v.locations.contains_key(other),
        v.locations.contains_key(other) ==> v.indexed(geohash, id).locations[other]
            == v.locations[other],
{
    let u = v.vacated(id);
    lemma_file_all_bucket(u.buckets, cells_of(geohash), id, key);
    lemma_joined_members(bucket(u.buckets, key), id, other);
    assert(bucket(v.buckets, key).no_duplicates());
    if v.locations.contains_key(id) {
        lemma_unfile_all_bucket(v.buckets, cells_of(v.locations[id]), id, key);
        lemma_parted_members(bucket(v.buckets, key), id, other);
    }
}

/// Indexing an entity writes what the index is meant to hold of it: its
/// recorded location is the geohash given, and at each precision from 1 to 6
/// it is in the bucket of the cell that holds the centre of that geohash.
pub proof fn lemma_indexed_holds_entity(v: IndexView, geohash: Seq<char>, id: Seq<char>)
    ensures
        v.indexed(geohash, id).locations.contains_key(id),
        v.indexed(geohash, id).locations[id] == geohash,
        forall|precision: int|
            MIN_PRECISION <= precision <= MAX_PRECISION ==> #[trigger] v.indexed(
                geohash,
                id,
            ).bucket(fingerprint(cell_or_empty(geohash, precision))).contains(id),
{
    assert forall|precision: int| MIN_PRECISION <= precision <= MAX_PRECISION implies (
    #[trigger] v.indexed(geohash, id).bucket(
        fingerprint(cell_or_empty(geohash, precision)),
    )).contains(id) by {
        lemma_indexed_member(v, geohash, id, precision);
    }
}

/// Indexing an entity a second time at the same geohash changes nothing:
/// every bucket names the same entities as after the first time, none of
/// them twice, and the recorded locations are the same.
pub proof fn lemma_index_twice(v: IndexView, geohash: Seq<char>, id: Seq<char>)
    requires
        v.well_formed(),
    ensures
        v.indexed(geohash, id).indexed(geohash, id).locations == v.indexed(geohash, id).locations,
        forall|key: Seq<u8>| #[trigger]
            v.indexed(geohash, id).indexed(geohash, id).bucket(key).to_set() == v.indexed(
                geohash,
                id,
            ).bucket(key).to_set(),
        forall|key: Seq<u8>| #[trigger]
            v.indexed(geohash, id).indexed(geohash, id).bucket(key).no_duplicates(),
{
    let once = v.indexed(geohash, id);
    let twice = once.indexed(geohash, id);
    let cells = cells_of(geohash);
    lemma_indexed_neat(v, geohash, id);
    lemma_indexed_neat(once, geohash, id);
    assert(once.locations.insert(id, geohash) =~= once.locations);
    assert forall|key: Seq<u8>| #[trigger]
        twice.bucket(key).to_set() == once.bucket(key).to_set() by {
        let first = once.bucket(key);
        let vacated = once.vacated(id);
        assert(first.no_duplicates());
        lemma_file_all_bucket(v.vacated(id).buckets, cells, id, key);
        lemma_unfile_all_bucket(once.buckets, cells, id, key);
        lemma_file_all_bucket(vacated.buckets, cells, id, key);
        if covers(cells, key) {
            lemma_joined_members(bucket(v.vacated(id).buckets, key), id, id);
            assert(first.contains(id));
            assert(twice.bucket(key) == joined(parted(first, id), id));
            assert forall|x: Seq<char>| twice.bucket(key).contains(x) == first.contains(x) by {
                lemma_joined_members(parted(first, id), id, x);
                lemma_parted_members(first, id, x);
            }
        }
        assert(twice.bucket(key).to_set() =~= first.to_set());
    }
    assert forall|key: Seq<u8>| #[trigger] twice.bucket(key).no_duplicates() by {
        assert(neat(twice.buckets));
    }
}

/// Two tables without empty buckets that hold the same under every
/// fingerprint are the same table.
pub proof fn lemma_tables_equal(s: Table, t: Table)
    requires
        neat(s),
        neat(t),
        forall|key: Seq<u8>| #[trigger] bucket(s, key) == bucket(t, key),
    ensures
        s == t,
{
    assert forall|key: Seq<u8>| s.contains_key(key) == t.contains_key(key) by {
        assert(bucket(s, key) == bucket(t, key));
    }
    assert forall|key: Seq<u8>| s.contains_key(key) implies s[key] == t[key] by {
        assert(bucket(s, key) == bucket(t, key));
    }
    assert(s =~= t);
}

/// In an index without entries left behind, indexing an entity a second
/// time at the same geohash gives the very index that the first time gave.
pub proof fn lemma_index_twice_is_once(v: IndexView, geohash: Seq<char>, id: Seq<char>)
    requires
        v.well_formed(),
        v.exact(),
    ensures
        v.indexed(geohash, id).indexed(geohash, id) == v.indexed(geohash, id),
{
    let once = v.indexed(geohash, id);
    let twice = once.indexed(geohash, id);
    let cells = cells_of(geohash);
    let u = v.vacated(id);
    lemma_indexed_neat(v, geohash, id);
    lemma_indexed_neat(once, geohash, id);
    assert(once.locations.insert(id, geohash) =~= once.locations);
    assert forall|key: Seq<u8>| #[trigger] bucket(twice.buckets, key) == bucket(
        once.buckets,
        key,
    ) by {
        let first = bucket(once.buckets, key);
        let held = bucket(u.buckets, key);
        assert(first.no_duplicates());
        assert(bucket(v.buckets, key).no_duplicates());
        lemma_file_all_bucket(u.buckets, cells, id, key);
        lemma_unfile_all_bucket(once.buckets, cells, id, key);
        lemma_file_all_bucket(once.vacated(id).buckets, cells, id, key);
        if covers(cells, key) {
            if v.locations.contains_key(id) {
                lemma_unfile_all_bucket(v.buckets, cells_of(v.locations[id]), id, key);
                lemma_parted_members(bucket(v.buckets, key), id, id);
            }
            if held.contains(id) {
                assert(bucket(v.buckets, key).contains(id));
                assert(v.buckets.contains_key(key) && v.buckets[key].contains(id));
            }
            assert(!held.contains(id));
            assert(first == held.push(id));
            let last = held.len() as int;
            assert(first[last] == id);
            assert(first.contains(id));
            assert(first.index_of(id) == last);
            assert(first.remove(last) =~= held);
            assert(parted(first, id) == held);
        }
    }
    lemma_tables_equal(twice.buckets, once.buckets);
}

/// An entity is a candidate of every search around the geohash at which it
/// was indexed, whatever the radius, and such a search keeps it exactly when
/// the distance taken for it is at most the radius.
pub proof fn lemma_search_considers_indexed(
    v: IndexView,
    geohash: Seq<char>,
    id: Seq<char>,
    radius: Km,
    distances: Seq<Km>,
)
    requires
        distances.len() == v.indexed(geohash, id).candidates(
            geohash,
            precision_for(radius),
        ).len(),
    ensures
        v.indexed(geohash, id).candidates(geohash, precision_for(radius)).contains(id),
        v.indexed(geohash, id).locations[id] == geohash,
        kept(
            v.indexed(geohash, id).candidates(geohash, precision_for(radius)),
            distances,
            radius,
        ).contains(id) <==> exists|i: int|
            0 <= i < distances.len() && #[trigger] v.indexed(geohash, id).candidates(
                geohash,
                precision_for(radius),
            )[i] == id && distances[i].is_at_most(radius),
{
    let w = v.indexed(geohash, id);
    let precision = precision_for(radius);
    let cells = candidate_cells(geohash, precision);
    lemma_indexed_member(v, geohash, id, precision);
    assert(cells[0] == cell_or_empty(geohash, precision));
    assert(bucket(w.buckets, fingerprint(cells[0])).contains(id));
    lemma_gathered_members(w.buckets, cells, id);
    lemma_kept_members(w.candidates(geohash, precision), distances, radius, id);
}

/// With the candidates and their distances fixed, a larger radius keeps
/// every entity that a smaller one keeps.
pub proof fn lemma_kept_grows_with_radius(
    candidates: Seq<Seq<char>>,
    distances: Seq<Km>,
    smaller: Km,
    larger: Km,
)
    requires
        candidates.len() == distances.len(),
        smaller.is_at_most(larger),
    ensures
        forall|x: Seq<char>|
            kept(candidates, distances, smaller).contains(x) ==> #[trigger] kept(
                candidates,
                distances,
                larger,
            ).contains(x),
{
    assert forall|x: Seq<char>| kept(candidates, distances, smaller).contains(x) implies (
    #[trigger] kept(candidates, distances, larger)).contains(x) by {
        lemma_kept_members(candidates, distances, smaller, x);
        lemma_kept_members(candidates, distances, larger, x);
        let i = choose|i: int|
            0 <= i < candidates.len() && #[trigger] candidates[i] == x && distances[i].is_at_most(
                smaller,
            );
        assert(candidates[i] == x && distances[i].is_at_most(larger));
    }
}

/// Two searches around one geohash whose radii fall to the same precision
/// consider the same entities, and the one with the larger radius keeps every
/// entity that the other keeps.
pub proof fn lemma_find_grows_with_radius(
    v: IndexView,
    geohash: Seq<char>,
    smaller: Km,
    larger: Km,
    distances: Seq<Km>,
)
    requires
        smaller.is_less(larger),
        precision_for(smaller) == precision_for(larger),
        distances.len() == v.candidates(geohash, precision_for(smaller)).len(),
    ensures
        forall|x: Seq<char>|
            kept(v.candidates(geohash, precision_for(smaller)), distances, smaller).contains(x)
                ==> #[trigger] kept(
                v.candidates(geohash, precision_for(larger)),
                distances,
                larger,
            ).contains(x),
{
    lemma_kept_grows_with_radius(
        v.candidates(geohash, precision_for(smaller)),
        distances,
        smaller,
        larger,
    );
}

/// A search names no entity twice, however many of its cells hold the entity.
pub proof fn lemma_search_names_once(
    v: IndexView,
    geohash: Seq<char>,
    precision: int,
    distances: Seq<Km>,
    radius: Km,
)
    requires
        distances.len() == v.candidates(geohash, precision).len(),
    ensures
        v.candidates(geohash, precision).no_duplicates(),
        kept(v.candidates(geohash, precision), distances, radius).no_duplicates(),
{
    lemma_gathered_once(v.buckets, candidate_cells(geohash, precision));
    lemma_kept_once(v.candidates(geohash, precision), distances, radius);
}

/// In an index in which every entity that a bucket names has a recorded
/// location, every candidate of a search has one: the search finds no
/// integrity fault.
pub proof fn lemma_consistent_locates(v: IndexView, geohash: Seq<char>, precision: int)
    requires
        v.consistent(),
    ensures
        v.locates(v.candidates(geohash, precision)),
{
    let found = v.candidates(geohash, precision);
    let cells = candidate_cells(geohash, precision);
    assert forall|i: int| 0 <= i < found.len() implies v.locations.contains_key(
        #[trigger] found[i],
    ) by {
        let x = found[i];
        assert(found.contains(x));
        lemma_gathered_members(v.buckets, cells, x);
        let c = choose|c: int|
            0 <= c < cells.len() && bucket(v.buckets, fingerprint(#[trigger] cells[c])).contains(x);
        let key = fingerprint(cells[c]);
        assert(v.buckets.contains_key(key) && v.buckets[key].contains(x));
    }
}

/// Two strictly rising sequences of fingerprints that hold the same
/// fingerprints are the same sequence.
pub proof fn lemma_rising_unique(a: Seq<Seq<u8>>, b: Seq<Seq<u8>>)
    requires
        rising(a),
        rising(b),
        a.to_set() == b.to_set(),
    ensures
        a == b,
    decreases a.len(),
{
    if a.len() == 0 {
        if b.len() > 0 {
            assert(b.contains(b[0]));
            assert(b.to_set().contains(b[0]));
            assert(a.contains(b[0]));
        }
        assert(a =~= b);
    } else if b.len() == 0 {
        assert(a.contains(a[0]));
        assert(a.to_set().contains(a[0]));
        assert(b.contains(a[0]));
    } else {
        let n = a.len() - 1;
        let m = b.len() - 1;
        assert(a.contains(a[n]));
        assert(a.to_set().contains(a[n]));
        assert(b.contains(a[n]));
        let j = choose|j: int| 0 <= j < b.len() && b[j] == a[n];
        assert(b.contains(b[m]));
        assert(b.to_set().contains(b[m]));
        assert(a.contains(b[m]));
        let i = choose|i: int| 0 <= i < a.len() && a[i] == b[m];
        if i < n {
            assert(key_value(a[i]) < key_value(a[n]));
        }
        if j < m {
            assert(key_value(b[j]) < key_value(b[m]));
        }
        assert(a[n] == b[m]);
        let a0 = a.drop_last();
        let b0 = b.drop_last();
        assert forall|x: Seq<u8>| a0.to_set().contains(x) == b0.to_set().contains(x) by {
            if a0.contains(x) {
                let p = choose|p: int| 0 <= p < a0.len() && a0[p] == x;
                assert(a[p] == x);
                assert(a.contains(x));
                assert(a.to_set().contains(x));
                assert(b.contains(x));
                let q = choose|q: int| 0 <= q < b.len() && b[q] == x;
                assert(key_value(a[p]) < key_value(a[n]));
                assert(q < m);
                assert(b0[q] == x);
            }
            if b0.contains(x) {
                let q = choose|q: int| 0 <= q < b0.len() && b0[q] == x;
                assert(b[q] == x);
                assert(b.contains(x));
                assert(b.to_set().contains(x));
                assert(a.contains(x));
                let p = choose|p: int| 0 <= p < a.len() && a[p] == x;
                assert(key_value(b[q]) < key_value(b[m]));
                assert(p < n);
                assert(a0[p] == x);
            }
        }
        assert(a0.to_set() =~= b0.to_set());
        lemma_rising_unique(a0, b0);
        assert(a =~= a0.push(a[n]));
        assert(b =~= b0.push(b[m]));
    }
}

/// The index has one listing of its bucket references only.
pub proof fn lemma_listing_unique(v: IndexView, first: Seq<Seq<char>>, second: Seq<Seq<char>>)
    requires
        v.lists(first),
        v.lists(second),
    ensures
        first == second,
{
    let a = choose|keys: Seq<Seq<u8>>|
        rising(keys) && keys.to_set() == v.buckets.dom() && first == #[trigger] listing(
            v.buckets,
            keys,
        );
    let b = choose|keys: Seq<Seq<u8>>|
        rising(keys) && keys.to_set() == v.buckets.dom() && second == #[trigger] listing(
            v.buckets,
            keys,
        );
    lemma_rising_unique(a, b);
}

} // verus!
