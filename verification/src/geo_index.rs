//! The index and its operations.

use crate::buckets::{
    ascending, file_under, has_key, lemma_table_at, locate, position, slot, table, take_from,
    texts, tidy, Bucket,
};
use crate::codec::{
    cell_or_empty, decode, encode_coords, fingerprint, geohash_center, get_id, neighbors,
    valid_geohash,
};
use crate::directory::{
    directory, find_entry, lemma_directory_at, lemma_directory_len, ordered, record, Location,
};
use crate::error::IndexError;
use crate::measure::{Coordinate, Km};
use crate::model::{
    candidate_cells, cells_of, file_all, gathered, kept, lemma_gathered_once,
    lemma_indexed_consistent, lemma_indexed_exact, lemma_indexed_member, lemma_kept_once,
    lemma_merged_into_nothing, listing, merged, precision_for, rising, unfile_all, IndexView,
    KM_1252, KM_156, KM_1_2, KM_39, KM_4_9, MAX_PRECISION, MIN_PRECISION,
};
use vstd::prelude::*;

verus! {

/// The index: buckets in ascending order of fingerprint, and one entry for
/// each entity that was indexed.
pub struct GeoIndex {
    buckets: Vec<Bucket>,
    locations: Vec<Location>,
}

impl View for GeoIndex {
    type V = IndexView;

    closed spec fn view(&self) -> IndexView {
        IndexView { buckets: table(self.buckets@), locations: directory(self.locations@) }
    }
}

/// Every recorded geohash decodes.
pub open spec fn decodable(l: Seq<Location>) -> bool {
    forall|id: Seq<char>| #[trigger]
        directory(l).contains_key(id) ==> valid_geohash(directory(l)[id])
}

/// What holds of the two vectors of an index carries over to the maps they stand for.
proof fn lemma_view_well_formed(b: Seq<Bucket>, l: Seq<Location>)
    requires
        ascending(b),
        tidy(b),
        decodable(l),
    ensures
        (IndexView { buckets: table(b), locations: directory(l) }).well_formed(),
{
    let v = IndexView { buckets: table(b), locations: directory(l) };
    assert forall|key: Seq<u8>| #[trigger] v.buckets.contains_key(key) implies v.buckets[key].len()
        > 0 && v.buckets[key].no_duplicates() by {
        let i = slot(b, key);
        assert(b[i].ids.len() > 0);
        assert(texts(b[i].ids@).len() == b[i].ids.len());
    }
}

impl GeoIndex {
    #[verifier::type_invariant]
    spec fn sound(self) -> bool {
        &&& ascending(self.buckets@)
        &&& tidy(self.buckets@)
        &&& ordered(self.locations@)
        &&& decodable(self.locations@)
    }

    /// An index that holds nothing.
    pub fn new() -> (store: GeoIndex)
        ensures
            store@.buckets == Map::<Seq<u8>, Seq<Seq<char>>>::empty(),
            store@.locations == Map::<Seq<char>, Seq<char>>::empty(),
            store@.well_formed(),
            store@.consistent(),
            store@.exact(),
    {
        let store = GeoIndex { buckets: Vec::new(), locations: Vec::new() };
        proof {
            assert(store@.buckets =~= Map::<Seq<u8>, Seq<Seq<char>>>::empty());
            assert(store@.locations =~= Map::<Seq<char>, Seq<char>>::empty());
        }
        store
    }
}

/// Files `id` under each of the cells, in turn.
fn file_cells(b: &mut Vec<Bucket>, cells: &Vec<String>, id: &String)
    requires
        ascending(old(b)@),
        tidy(old(b)@),
    ensures
        ascending(final(b)@),
        tidy(final(b)@),
        table(final(b)@) == file_all(table(old(b)@), texts(cells@), id@),
{
    let ghost start = table(b@);
    let mut i: usize = 0;
    while i < cells.len()
        invariant
            i <= cells.len(),
            ascending(b@),
            tidy(b@),
            table(b@) == file_all(start, texts(cells@).take(i as int), id@),
        decreases cells.len() - i,
    {
        let key = get_id(&cells[i]);
        proof {
            let next = texts(cells@).take(i + 1);
            assert(next.drop_last() =~= texts(cells@).take(i as int));
            assert(next.last() == cells[i as int]@);
        }
        file_under(b, key, id);
        i = i + 1;
    }
    proof {
        assert(texts(cells@).take(cells.len() as int) =~= texts(cells@));
    }
}

/// Takes `id` out of the bucket of each of the cells, in turn.
fn unfile_cells(b: &mut Vec<Bucket>, cells: &Vec<String>, id: &String)
    requires
        ascending(old(b)@),
        tidy(old(b)@),
    ensures
        ascending(final(b)@),
        tidy(final(b)@),
        table(final(b)@) == unfile_all(table(old(b)@), texts(cells@), id@),
{
    let ghost start = table(b@);
    let mut i: usize = 0;
    while i < cells.len()
        invariant
            i <= cells.len(),
            ascending(b@),
            tidy(b@),
            table(b@) == unfile_all(start, texts(cells@).take(i as int), id@),
        decreases cells.len() - i,
    {
        let key = get_id(&cells[i]);
        proof {
            let next = texts(cells@).take(i + 1);
            assert(next.drop_last() =~= texts(cells@).take(i as int));
            assert(next.last() == cells[i as int]@);
        }
        take_from(b, &key, id);
        i = i + 1;
    }
    proof {
        assert(texts(cells@).take(cells.len() as int) =~= texts(cells@));
    }
}

/// Files `id` under each of the cells, in turn: at the end of the bucket of
/// the cell, unless the bucket names it already.
///
/// This is the write to the buckets alone. It records no location: a search
/// that meets an entity filed this way and never indexed reports an
/// integrity fault.
pub fn add_references(store: &mut GeoIndex, cells: &Vec<String>, id: &String)
    ensures
        final(store)@ == old(store)@.with_references(texts(cells@), id@),
        final(store)@.well_formed(),
{
    proof {
        use_type_invariant(&*store);
    }
    let mut buckets: Vec<Bucket> = Vec::new();
    std::mem::swap(&mut store.buckets, &mut buckets);
    file_cells(&mut buckets, cells, id);
    store.buckets = buckets;
    proof {
        lemma_view_well_formed(store.buckets@, store.locations@);
    }
}

/// The six cells under which an entity at `geohash` is filed.
pub fn cells_for(geohash: &str) -> (cells: Vec<String>)
    ensures
        texts(cells@) == cells_of(geohash@),
{
    let mut cells: Vec<String> = Vec::new();
    let mut size: usize = MIN_PRECISION;
    while size <= MAX_PRECISION
        invariant
            MIN_PRECISION <= size <= MAX_PRECISION + 1,
            cells.len() == size - 1,
            forall|p: int| 0 <= p < cells.len() ==> cells[p]@ == cell_or_empty(geohash@, p + 1),
        decreases MAX_PRECISION + 1 - size,
    {
        cells.push(encode_coords(geohash, size));
        size = size + 1;
    }
    proof {
        assert(texts(cells@) =~= cells_of(geohash@));
    }
    cells
}

/// Indexes the entity `id` at `geohash`.
///
/// A geohash that does not decode is refused with `DecodeError`, and the
/// index stays as it was. Otherwise the entity is taken out of the buckets
/// of the location recorded for it, if there is one, filed under the cell
/// that holds the centre of `geohash` at each precision from 1 to 6, and
/// recorded at `geohash`.
pub fn index(store: &mut GeoIndex, geohash: String, id: String) -> (r: Result<(), IndexError>)
    ensures
        r is Ok <==> valid_geohash(geohash@),
        r matches Err(e) ==> e == IndexError::DecodeError && final(store)@ == old(store)@,
        r is Ok ==> final(store)@ == old(store)@.indexed(geohash@, id@),
        r is Ok ==> final(store)@.locations.contains_key(id@) && final(store)@.locations[id@]
            == geohash@,
        r is Ok ==> forall|precision: int|
            MIN_PRECISION <= precision <= MAX_PRECISION ==> #[trigger] final(store)@.bucket(
                fingerprint(cell_or_empty(geohash@, precision)),
            ).contains(id@),
        final(store)@.well_formed(),
        old(store)@.consistent() ==> final(store)@.consistent(),
        old(store)@.exact() ==> final(store)@.exact(),
{
    proof {
        use_type_invariant(&*store);
        lemma_view_well_formed(store.buckets@, store.locations@);
    }
    if decode(geohash.as_str()).is_err() {
        return Err(IndexError::DecodeError);
    }
    let ghost before = store@;
    let mut buckets: Vec<Bucket> = Vec::new();
    std::mem::swap(&mut store.buckets, &mut buckets);
    match find_entry(&store.locations, &id) {
        Some(at) => {
            proof {
                lemma_directory_at(store.locations@, at as int);
            }
            let former = cells_for(store.locations[at].geohash.as_str());
            unfile_cells(&mut buckets, &former, &id);
        },
        None => {},
    }
    let cells = cells_for(geohash.as_str());
    file_cells(&mut buckets, &cells, &id);
    store.buckets = buckets;
    let mut locations: Vec<Location> = Vec::new();
    std::mem::swap(&mut store.locations, &mut locations);
    record(&mut locations, &id, &geohash);
    store.locations = locations;
    proof {
        lemma_view_well_formed(store.buckets@, store.locations@);
        assert(store@ == before.indexed(geohash@, id@));
        if before.consistent() {
            lemma_indexed_consistent(before, geohash@, id@);
        }
        if before.exact() {
            lemma_indexed_exact(before, geohash@, id@);
        }
        assert forall|precision: int| MIN_PRECISION <= precision <= MAX_PRECISION implies (
        #[trigger] store@.bucket(fingerprint(cell_or_empty(geohash@, precision)))).contains(id@) by {
            lemma_indexed_member(before, geohash@, id@, precision);
        }
    }
    Ok(())
}

/// The geohash recorded for an entity; `NotFound` for one that was never indexed.
pub fn lookup(store: &GeoIndex, id: &String) -> (r: Result<String, IndexError>)
    ensures
        match r {
            Ok(geohash) => store@.locations.contains_key(id@) && store@.locations[id@]
                == geohash@,
            Err(e) => e == IndexError::NotFound && !store@.locations.contains_key(id@),
        },
{
    proof {
        use_type_invariant(store);
    }
    match find_entry(&store.locations, id) {
        Some(at) => {
            proof {
                lemma_directory_at(store.locations@, at as int);
            }
            Ok(store.locations[at].geohash.clone())
        },
        None => Err(IndexError::NotFound),
    }
}

/// A copy of a vector of strings.
fn copy_of(ids: &Vec<String>) -> (r: Vec<String>)
    ensures
        texts(r@) == texts(ids@),
{
    let mut r: Vec<String> = Vec::new();
    let mut i: usize = 0;
    while i < ids.len()
        invariant
            i <= ids.len(),
            r.len() == i,
            forall|j: int| 0 <= j < i ==> r[j]@ == ids[j]@,
        decreases ids.len() - i,
    {
        r.push(ids[i].clone());
        i = i + 1;
    }
    proof {
        assert(texts(r@) =~= texts(ids@));
    }
    r
}

/// The entities filed under a cell, in the order in which they were filed;
/// none where the cell has no bucket.
pub fn get(store: &GeoIndex, cell: &String) -> (ids: Vec<String>)
    ensures
        texts(ids@) == store@.bucket(fingerprint(cell@)),
{
    proof {
        use_type_invariant(store);
    }
    let key = get_id(cell);
    let (pos, found) = locate(&store.buckets, &key);
    if found {
        proof {
            lemma_table_at(store.buckets@, pos as int);
        }
        copy_of(&store.buckets[pos].ids)
    } else {
        let none: Vec<String> = Vec::new();
        proof {
            assert(texts(none@) =~= Seq::<Seq<char>>::empty());
        }
        none
    }
}

/// The precision at which a search of radius `distance` looks up its cells.
pub fn get_precision(distance: &Km) -> (precision: usize)
    ensures
        precision == precision_for(*distance),
        MIN_PRECISION <= precision <= MAX_PRECISION,
{
    let km_1252 = Km { bits: KM_1252 };
    let km_156 = Km { bits: KM_156 };
    let km_39 = Km { bits: KM_39 };
    let km_4_9 = Km { bits: KM_4_9 };
    let km_1_2 = Km { bits: KM_1_2 };
    if km_156.less_than(distance) && distance.less_than(&km_1252) {
        2
    } else if km_39.less_than(distance) && distance.less_than(&km_156) {
        3
    } else if km_4_9.less_than(distance) && distance.less_than(&km_39) {
        4
    } else if km_1_2.less_than(distance) && distance.less_than(&km_4_9) {
        5
    } else if distance.less_than(&km_1_2) {
        6
    } else {
        1
    }
}

/// Adds to `found` each identifier of `more` that is not there yet.
fn merge_into(found: &mut Vec<String>, more: &Vec<String>)
    ensures
        texts(final(found)@) == merged(texts(old(found)@), texts(more@)),
{
    let ghost start = texts(found@);
    let ghost all = texts(more@);
    let mut i: usize = 0;
    while i < more.len()
        invariant
            i <= more.len(),
            texts(more@) == all,
            texts(found@) == merged(start, all.take(i as int)),
        decreases more.len() - i,
    {
        proof {
            assert(all.take(i + 1).drop_last() =~= all.take(i as int));
            assert(all.take(i + 1).last() == more[i as int]@);
        }
        let ghost before = texts(found@);
        match position(found, &more[i]) {
            Some(at) => {
                proof {
                    assert(before[at as int] == more[i as int]@);
                }
            },
            None => {
                found.push(more[i].clone());
                proof {
                    assert(texts(found@) =~= before.push(more[i as int]@));
                }
            },
        }
        i = i + 1;
    }
    proof {
        assert(all.take(more.len() as int) =~= all);
    }
}

/// The entities that a search around `geohash` at a precision considers:
/// those filed under the cell that holds its centre, then those filed under
/// each cell around it, each entity once.
fn candidates_at(store: &GeoIndex, geohash: &String, precision: usize) -> (found: Vec<String>)
    ensures
        texts(found@) == store@.candidates(geohash@, precision as int),
{
    let cell = encode_coords(geohash.as_str(), precision);
    let around = neighbors(&cell);
    let ghost cells = candidate_cells(geohash@, precision as int);
    let mut found: Vec<String> = get(store, &cell);
    proof {
        assert(cells.take(1) =~= seq![cell@]);
        assert(cells.take(1).drop_last() =~= Seq::<Seq<char>>::empty());
        assert(gathered(store@.buckets, cells.take(1).drop_last()) =~= Seq::<Seq<char>>::empty());
        use_type_invariant(store);
        lemma_view_well_formed(store.buckets@, store.locations@);
        assert(store@.bucket(fingerprint(cell@)).no_duplicates());
        lemma_merged_into_nothing(store@.bucket(fingerprint(cell@)));
    }
    let mut i: usize = 0;
    while i < around.len()
        invariant
            i <= around.len(),
            cells == seq![cell@] + texts(around@),
            texts(found@) == gathered(store@.buckets, cells.take(i + 1)),
        decreases around.len() - i,
    {
        proof {
            assert(cells.take(i + 2).drop_last() =~= cells.take(i + 1));
            assert(cells.take(i + 2).last() == around[i as int]@);
        }
        let more = get(store, &around[i]);
        merge_into(&mut found, &more);
        i = i + 1;
    }
    proof {
        assert(cells.take(around.len() + 1) =~= cells);
    }
    found
}

/// The entities that a search of radius `distance` around `geohash`
/// considers, before any distance is taken: those filed under the cell that
/// holds the centre of `geohash` at the precision for that radius, and under
/// each cell around it, each entity once.
///
/// Fails with `DecodeError` exactly where `geohash` does not decode.
pub fn candidates(store: &GeoIndex, geohash: &String, distance: &Km) -> (r: Result<
    Vec<String>,
    IndexError,
>)
    ensures
        r is Ok <==> valid_geohash(geohash@),
        r matches Err(e) ==> e == IndexError::DecodeError,
        r matches Ok(found) ==> texts(found@) == store@.candidates(
            geohash@,
            precision_for(*distance),
        ) && texts(found@).no_duplicates(),
{
    if decode(geohash.as_str()).is_err() {
        return Err(IndexError::DecodeError);
    }
    let found = candidates_at(store, geohash, get_precision(distance));
    proof {
        lemma_gathered_once(store@.buckets, candidate_cells(geohash@, precision_for(*distance)));
    }
    Ok(found)
}

/// The distance from `center` to the centre of the cell that `geohash`
/// denotes, as `haversine` gives it.
///
/// Fails with `DecodeError` exactly where `geohash` does not decode.
pub fn get_distance<F: Fn(Coordinate, Coordinate) -> Km>(
    center: Coordinate,
    geohash: &String,
    haversine: &F,
) -> (r: Result<Km, IndexError>)
    requires
        forall|a: Coordinate, b: Coordinate| call_requires(*haversine, (a, b)),
    ensures
        r is Ok <==> valid_geohash(geohash@),
        r matches Err(e) ==> e == IndexError::DecodeError,
        r matches Ok(d) ==> call_ensures(
            *haversine,
            (center, geohash_center(geohash@)->Some_0),
            d,
        ),
{
    match decode(geohash.as_str()) {
        Ok(other) => Ok(haversine(center, other)),
        Err(e) => Err(e),
    }
}

/// The distance between the centres of the cells that two geohashes denote,
/// as `haversine` gives it.
///
/// Fails with `DecodeError` exactly where one of the two does not decode.
pub fn get_distance_from_geohash<F: Fn(Coordinate, Coordinate) -> Km>(
    geohash1: String,
    geohash2: String,
    haversine: F,
) -> (r: Result<Km, IndexError>)
    requires
        forall|a: Coordinate, b: Coordinate| call_requires(haversine, (a, b)),
    ensures
        r is Ok <==> valid_geohash(geohash1@) && valid_geohash(geohash2@),
        r matches Err(e) ==> e == IndexError::DecodeError,
        r matches Ok(d) ==> call_ensures(
            haversine,
            (geohash_center(geohash1@)->Some_0, geohash_center(geohash2@)->Some_0),
            d,
        ),
{
    match decode(geohash1.as_str()) {
        Ok(center) => get_distance(center, &geohash2, &haversine),
        Err(e) => Err(e),
    }
}

/// Whether the entity `id` lies within `radius` of `center`, by the distance
/// that `haversine` gives to the centre of its recorded location.
///
/// Fails with `IntegrityError` exactly where no location is recorded for `id`.
pub fn in_radius<F: Fn(Coordinate, Coordinate) -> Km>(
    store: &GeoIndex,
    center: Coordinate,
    radius: &Km,
    id: &String,
    haversine: &F,
) -> (r: Result<bool, IndexError>)
    requires
        forall|a: Coordinate, b: Coordinate| call_requires(*haversine, (a, b)),
    ensures
        r is Ok <==> store@.locations.contains_key(id@),
        r matches Err(e) ==> e == IndexError::IntegrityError,
        r matches Ok(within) ==> exists|d: Km|
            call_ensures(*haversine, (center, store@.center_of(id@)), d) && within
                == d.is_at_most(*radius),
{
    proof {
        use_type_invariant(store);
    }
    match find_entry(&store.locations, id) {
        Some(at) => {
            proof {
                lemma_directory_at(store.locations@, at as int);
            }
            match get_distance(center, &store.locations[at].geohash, haversine) {
                Ok(d) => {
                    let within = d.at_most(radius);
                    proof {
                        assert(call_ensures(*haversine, (center, store@.center_of(id@)), d)
                            && within == d.is_at_most(*radius));
                    }
                    Ok(within)
                },
                Err(_) => {
                    proof {
                        assert(false);
                    }
                    Err(IndexError::IntegrityError)
                },
            }
        },
        None => Err(IndexError::IntegrityError),
    }
}

/// The entities within `distance` of the centre of `geohash`.
///
/// The search looks at the cell that holds the centre at the precision for
/// that radius and at the cells around it, takes for each entity filed there
/// the distance that `haversine` gives from the centre to the centre of its
/// recorded location, and keeps the entity where that distance is at most
/// `distance`. Each entity is returned once, in the order in which the
/// cells and buckets hold them.
///
/// Fails with `DecodeError` exactly where `geohash` does not decode, and
/// otherwise with `IntegrityError` exactly where one of the entities filed
/// there has no recorded location.
pub fn find<F: Fn(Coordinate, Coordinate) -> Km>(
    store: &GeoIndex,
    geohash: String,
    distance: Km,
    haversine: F,
) -> (r: Result<Vec<String>, IndexError>)
    requires
        forall|a: Coordinate, b: Coordinate| call_requires(haversine, (a, b)),
    ensures
        r is Ok <==> valid_geohash(geohash@) && store@.locates(
            store@.candidates(geohash@, precision_for(distance)),
        ),
        r matches Err(e) ==> (e == IndexError::DecodeError <==> !valid_geohash(geohash@)) && (e
            == IndexError::IntegrityError <==> valid_geohash(geohash@)),
        r matches Ok(ids) ==> texts(ids@).no_duplicates() && exists|distances: Seq<Km>|
            store@.measured(
                haversine,
                geohash_center(geohash@)->Some_0,
                store@.candidates(geohash@, precision_for(distance)),
                distances,
            ) && texts(ids@) == kept(
                store@.candidates(geohash@, precision_for(distance)),
                distances,
                distance,
            ),
{
    let center = match decode(geohash.as_str()) {
        Ok(center) => center,
        Err(e) => {
            return Err(e);
        },
    };
    let found = candidates_at(store, &geohash, get_precision(&distance));
    let ghost all = texts(found@);
    let ghost mut distances: Seq<Km> = Seq::empty();
    let mut ids: Vec<String> = Vec::new();
    proof {
        assert(texts(ids@) =~= Seq::<Seq<char>>::empty());
    }
    let mut i: usize = 0;
    while i < found.len()
        invariant
            i <= found.len(),
            all == texts(found@),
            all == store@.candidates(geohash@, precision_for(distance)),
            valid_geohash(geohash@),
            forall|a: Coordinate, b: Coordinate| call_requires(haversine, (a, b)),
            store@.measured(haversine, center, all.take(i as int), distances),
            store@.locates(all.take(i as int)),
            texts(ids@) == kept(all.take(i as int), distances, distance),
        decreases found.len() - i,
    {
        let ghost before = texts(ids@);
        let ghost seen = all.take(i as int);
        let ghost next = all.take(i + 1);
        proof {
            assert(next.drop_last() =~= seen);
            assert(next.last() == found[i as int]@);
        }
        match in_radius(store, center, &distance, &found[i], &haversine) {
            Ok(within) => {
                let ghost d = choose|d: Km|
                    call_ensures(haversine, (center, store@.center_of(found[i as int]@)), d)
                        && within == d.is_at_most(distance);
                proof {
                    let longer = distances.push(d);
                    assert(longer.drop_last() =~= distances);
                    assert forall|j: int| 0 <= j < next.len() implies call_ensures(
                        haversine,
                        (center, store@.center_of(#[trigger] next[j])),
                        longer[j],
                    ) by {
                        if j < i {
                            assert(next[j] == seen[j]);
                        }
                    }
                    assert forall|j: int| 0 <= j < next.len() implies store@.locations.contains_key(
                        #[trigger] next[j],
                    ) by {
                        if j < i {
                            assert(next[j] == seen[j]);
                        }
                    }
                    distances = longer;
                }
                if within {
                    ids.push(found[i].clone());
                    proof {
                        assert(texts(ids@) =~= before.push(found[i as int]@));
                    }
                }
            },
            Err(e) => {
                proof {
                    assert(all[i as int] == found[i as int]@);
                    assert(!store@.locates(all));
                }
                return Err(e);
            },
        }
        i = i + 1;
    }
    proof {
        assert(all.take(found.len() as int) =~= all);
        lemma_gathered_once(store@.buckets, candidate_cells(geohash@, precision_for(distance)));
        lemma_kept_once(all, distances, distance);
    }
    Ok(ids)
}

/// The fingerprints of a vector of buckets, in its order.
pub open spec fn keys_of(b: Seq<Bucket>) -> Seq<Seq<u8>> {
    Seq::new(b.len(), |i: int| b[i].key@)
}

/// Every bucket reference that the index holds: the entities of each
/// bucket, bucket after bucket in ascending order of fingerprint. An entity
/// occurs once for each bucket that names it.
pub fn view_index(store: &GeoIndex) -> (all: Vec<String>)
    ensures
        store@.lists(texts(all@)),
{
    proof {
        use_type_invariant(store);
    }
    let ghost keys = keys_of(store.buckets@);
    let ghost t = store@.buckets;
    let mut all: Vec<String> = Vec::new();
    proof {
        assert(texts(all@) =~= Seq::<Seq<char>>::empty());
    }
    let mut i: usize = 0;
    while i < store.buckets.len()
        invariant
            i <= store.buckets.len(),
            ascending(store.buckets@),
            keys == keys_of(store.buckets@),
            t == table(store.buckets@),
            texts(all@) == listing(t, keys.take(i as int)),
        decreases store.buckets.len() - i,
    {
        let ghost so_far = texts(all@);
        let ids = &store.buckets[i].ids;
        proof {
            assert(keys.take(i + 1).drop_last() =~= keys.take(i as int));
            assert(keys.take(i + 1).last() == store.buckets[i as int].key@);
            lemma_table_at(store.buckets@, i as int);
        }
        let mut j: usize = 0;
        while j < ids.len()
            invariant
                j <= ids.len(),
                texts(all@) == so_far + texts(ids@).take(j as int),
            decreases ids.len() - j,
        {
            let ghost before = texts(all@);
            all.push(ids[j].clone());
            proof {
                assert(texts(all@) =~= before.push(ids[j as int]@));
                assert(texts(ids@).take(j + 1) =~= texts(ids@).take(j as int).push(ids[j as int]@));
            }
            j = j + 1;
        }
        proof {
            assert(texts(ids@).take(ids.len() as int) =~= texts(ids@));
        }
        i = i + 1;
    }
    proof {
        assert(keys.take(store.buckets.len() as int) =~= keys);
        assert(rising(keys));
        assert forall|k: Seq<u8>| keys.to_set().contains(k) == t.dom().contains(k) by {
            if keys.contains(k) {
                let at = choose|at: int| 0 <= at < keys.len() && keys[at] == k;
                assert(store.buckets[at].key@ == k);
            }
            if has_key(store.buckets@, k) {
                let at = slot(store.buckets@, k);
                assert(keys[at] == k);
            }
        }
        assert(keys.to_set() =~= t.dom());
    }
    all
}

/// How much the index holds.
#[derive(Clone, Copy, PartialEq, Eq, Structural, Debug)]
pub struct Stats {
    /// The bucket references: an entity counts once for each bucket that names it.
    pub indexed_references: usize,
    /// The entities that have a recorded location.
    pub indexed_entities: usize,
}

/// The number of bucket references and the number of indexed entities.
pub fn stats(store: &GeoIndex) -> (s: Stats)
    ensures
        exists|all: Seq<Seq<char>>| #[trigger]
            store@.lists(all) && s.indexed_references == all.len(),
        s.indexed_entities == store@.locations.dom().len(),
{
    proof {
        use_type_invariant(store);
        lemma_directory_len(store.locations@);
    }
    let all = view_index(store);
    Stats { indexed_references: all.len(), indexed_entities: store.locations.len() }
}

} // verus!
