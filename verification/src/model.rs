//! The index as mathematics: what it holds, what indexing makes of it, and
//! what a search considers and keeps.

use crate::buckets::{
    bucket, filed, joined, lemma_joined_members, lemma_parted_members, neat, parted, unfiled,
    Table,
};
use crate::codec::{cell_or_empty, fingerprint, geohash_center, neighbor_cells, valid_geohash};
use crate::directory::Directory;
use crate::keys::key_value;
use crate::measure::{Coordinate, Km};
use vstd::prelude::*;

verus! {

/// The coarsest precision at which an entity is filed.
pub const MIN_PRECISION: usize = 1;

/// The finest precision at which an entity is filed.
pub const MAX_PRECISION: usize = 6;

/// The bit pattern of 1252.0, the radius in kilometres from which on a search
/// uses precision 1.
pub const KM_1252: u64 = 0x4093_9000_0000_0000;

/// The bit pattern of 156.0.
pub const KM_156: u64 = 0x4063_8000_0000_0000;

/// The bit pattern of 39.0.
pub const KM_39: u64 = 0x4043_8000_0000_0000;

/// The bit pattern of 4.9.
pub const KM_4_9: u64 = 0x4013_9999_9999_999a;

/// The bit pattern of 1.2.
pub const KM_1_2: u64 = 0x3ff3_3333_3333_3333;

/// `low < x < high`, with the two bounds given as bit patterns.
pub open spec fn strictly_between(low: u64, x: Km, high: u64) -> bool {
    (Km { bits: low }).is_less(x) && x.is_less(Km { bits: high })
}

/// The precision at which a search of a given radius looks up its cells.
///
/// | radius, km | precision |
/// |---|---|
/// | 156 < r < 1252 | 2 |
/// | 39 < r < 156 | 3 |
/// | 4.9 < r < 39 | 4 |
/// | 1.2 < r < 4.9 | 5 |
/// | r < 1.2 | 6 |
/// | any other | 1 |
///
/// A radius that is exactly 156, 39, 4.9 or 1.2 km, one of 1252 km or more,
/// and one that is not a number, fall to precision 1.
pub open spec fn precision_for(radius: Km) -> int {
    if strictly_between(KM_156, radius, KM_1252) {
        2
    } else if strictly_between(KM_39, radius, KM_156) {
        3
    } else if strictly_between(KM_4_9, radius, KM_39) {
        4
    } else if strictly_between(KM_1_2, radius, KM_4_9) {
        5
    } else if radius.is_less(Km { bits: KM_1_2 }) {
        6
    } else {
        1
    }
}

/// The six cells under which an entity at `geohash` is filed: the cell that
/// holds its centre at each precision from 1 to 6.
pub open spec fn cells_of(geohash: Seq<char>) -> Seq<Seq<char>> {
    Seq::new(MAX_PRECISION as nat, |p: int| cell_or_empty(geohash, p + 1))
}

/// Some cell of the sequence has this fingerprint.
pub open spec fn covers(cells: Seq<Seq<char>>, key: Seq<u8>) -> bool {
    exists|i: int| 0 <= i < cells.len() && fingerprint(#[trigger] cells[i]) == key
}

/// The table after `id` was filed under each of the cells, in turn.
pub open spec fn file_all(t: Table, cells: Seq<Seq<char>>, id: Seq<char>) -> Table
    decreases cells.len(),
{
    if cells.len() == 0 {
        t
    } else {
        filed(file_all(t, cells.drop_last(), id), fingerprint(cells.last()), id)
    }
}

/// The table after `id` was taken out of the bucket of each of the cells, in turn.
pub open spec fn unfile_all(t: Table, cells: Seq<Seq<char>>, id: Seq<char>) -> Table
    decreases cells.len(),
{
    if cells.len() == 0 {
        t
    } else {
        unfiled(unfile_all(t, cells.drop_last(), id), fingerprint(cells.last()), id)
    }
}

/// The identifiers of `more` added to those of `found`, each one that is not
/// there yet, in their order.
pub open spec fn merged(found: Seq<Seq<char>>, more: Seq<Seq<char>>) -> Seq<Seq<char>>
    decreases more.len(),
{
    if more.len() == 0 {
        found
    } else {
        let so_far = merged(found, more.drop_last());
        if so_far.contains(more.last()) {
            so_far
        } else {
            so_far.push(more.last())
        }
    }
}

/// The entities filed under the cells, cell after cell, each entity once: at
/// the place where it is met first.
pub open spec fn gathered(t: Table, cells: Seq<Seq<char>>) -> Seq<Seq<char>>
    decreases cells.len(),
{
    if cells.len() == 0 {
        Seq::empty()
    } else {
        merged(gathered(t, cells.drop_last()), bucket(t, fingerprint(cells.last())))
    }
}

/// The cells that a search looks at: the cell that holds the centre of
/// `geohash` at the precision, then the cells around it.
pub open spec fn candidate_cells(geohash: Seq<char>, precision: int) -> Seq<Seq<char>> {
    seq![cell_or_empty(geohash, precision)] + neighbor_cells(cell_or_empty(geohash, precision))
}

/// Of the candidates, those whose distance is at most the radius, in their order.
pub open spec fn kept(candidates: Seq<Seq<char>>, distances: Seq<Km>, radius: Km) -> Seq<Seq<char>>
    decreases candidates.len(),
{
    if candidates.len() == 0 || distances.len() == 0 {
        Seq::empty()
    } else {
        let before = kept(candidates.drop_last(), distances.drop_last(), radius);
        if distances.last().is_at_most(radius) {
            before.push(candidates.last())
        } else {
            before
        }
    }
}

/// The fingerprints increase strictly along the sequence.
pub open spec fn rising(keys: Seq<Seq<u8>>) -> bool {
    forall|i: int, j: int| 0 <= i < j < keys.len() ==> key_value(keys[i]) < key_value(keys[j])
}

/// The buckets of the given fingerprints, one after the other.
pub open spec fn listing(t: Table, keys: Seq<Seq<u8>>) -> Seq<Seq<char>>
    decreases keys.len(),
{
    if keys.len() == 0 {
        Seq::empty()
    } else {
        listing(t, keys.drop_last()) + bucket(t, keys.last())
    }
}

/// What an index holds, mathematically: the buckets, and where each entity is.
pub struct IndexView {
    pub buckets: Table,
    pub locations: Directory,
}

impl IndexView {
    /// The entities filed under a fingerprint.
    pub open spec fn bucket(self, key: Seq<u8>) -> Seq<Seq<char>> {
        bucket(self.buckets, key)
    }

    /// No bucket is empty, none names an entity twice, and every recorded
    /// geohash decodes.
    pub open spec fn well_formed(self) -> bool {
        &&& neat(self.buckets)
        &&& forall|id: Seq<char>| #[trigger]
            self.locations.contains_key(id) ==> valid_geohash(self.locations[id])
    }

    /// Every entity that a bucket names has a recorded location.
    pub open spec fn consistent(self) -> bool {
        forall|key: Seq<u8>, id: Seq<char>|
            self.buckets.contains_key(key) && #[trigger] self.buckets[key].contains(id)
                ==> self.locations.contains_key(id)
    }

    /// Every entity that a bucket names is recorded at a location, and the
    /// bucket is that of one of the six cells of that location: no bucket
    /// holds an entry that a former location left behind.
    pub open spec fn exact(self) -> bool {
        forall|key: Seq<u8>, id: Seq<char>|
            self.buckets.contains_key(key) && #[trigger] self.buckets[key].contains(id)
                ==> self.locations.contains_key(id) && covers(cells_of(self.locations[id]), key)
    }

    /// The index after `id` was filed under each of the cells.
    pub open spec fn with_references(self, cells: Seq<Seq<char>>, id: Seq<char>) -> IndexView {
        IndexView { buckets: file_all(self.buckets, cells, id), locations: self.locations }
    }

    /// The index after `id` was taken out of the bucket of each of the cells.
    pub open spec fn without_references(self, cells: Seq<Seq<char>>, id: Seq<char>) -> IndexView {
        IndexView { buckets: unfile_all(self.buckets, cells, id), locations: self.locations }
    }

    /// The index without the bucket entries that the recorded location of
    /// `id` accounts for.
    pub open spec fn vacated(self, id: Seq<char>) -> IndexView {
        if self.locations.contains_key(id) {
            self.without_references(cells_of(self.locations[id]), id)
        } else {
            self
        }
    }

    /// The index after `id` was indexed at `geohash`: taken out of the six
    /// buckets of its former location, filed under the six cells of the new
    /// one, and recorded there.
    pub open spec fn indexed(self, geohash: Seq<char>, id: Seq<char>) -> IndexView {
        IndexView {
            buckets: file_all(self.vacated(id).buckets, cells_of(geohash), id),
            locations: self.locations.insert(id, geohash),
        }
    }

    /// The entities that a search around `geohash` at a precision considers.
    pub open spec fn candidates(self, geohash: Seq<char>, precision: int) -> Seq<Seq<char>> {
        gathered(self.buckets, candidate_cells(geohash, precision))
    }

    /// Each of the entities has a recorded location.
    pub open spec fn locates(self, ids: Seq<Seq<char>>) -> bool {
        forall|i: int| 0 <= i < ids.len() ==> self.locations.contains_key(#[trigger] ids[i])
    }

    /// The centre of the recorded location of an entity.
    pub open spec fn center_of(self, id: Seq<char>) -> Coordinate {
        geohash_center(self.locations[id])->Some_0
    }

    /// `distances` holds, for each of the entities in turn, a distance that
    /// `haversine` gave from `center` to the centre of its recorded location.
    pub open spec fn measured<F: Fn(Coordinate, Coordinate) -> Km>(
        self,
        haversine: F,
        center: Coordinate,
        ids: Seq<Seq<char>>,
        distances: Seq<Km>,
    ) -> bool {
        &&& distances.len() == ids.len()
        &&& forall|i: int|
            0 <= i < ids.len() ==> call_ensures(
                haversine,
                (center, self.center_of(#[trigger] ids[i])),
                distances[i],
            )
    }

    /// `all` is what the buckets hold, bucket after bucket in ascending
    /// order of fingerprint.
    pub open spec fn lists(self, all: Seq<Seq<char>>) -> bool {
        exists|keys: Seq<Seq<u8>>|
            rising(keys) && keys.to_set() == self.buckets.dom() && all == #[trigger] listing(
                self.buckets,
                keys,
            )
    }
}

/// What filing under a sequence of cells does to each bucket: the entity
/// joins the buckets of those cells, and the others stay as they are.
pub proof fn lemma_file_all_bucket(t: Table, cells: Seq<Seq<char>>, id: Seq<char>, key: Seq<u8>)
    ensures
        bucket(file_all(t, cells, id), key) == (if covers(cells, key) {
            joined(bucket(t, key), id)
        } else {
            bucket(t, key)
        }),
    decreases cells.len(),
{
    if cells.len() > 0 {
        let init = cells.drop_last();
        lemma_file_all_bucket(t, init, id, key);
        lemma_joined_members(bucket(t, key), id, id);
        if covers(init, key) {
            let i = choose|i: int| 0 <= i < init.len() && fingerprint(#[trigger] init[i]) == key;
            assert(fingerprint(cells[i]) == key);
        }
        if fingerprint(cells.last()) == key {
            assert(fingerprint(cells[cells.len() - 1]) == key);
        }
        if covers(cells, key) {
            let i = choose|i: int| 0 <= i < cells.len() && fingerprint(#[trigger] cells[i]) == key;
            if i < init.len() {
                assert(fingerprint(init[i]) == key);
            }
        }
    }
}

/// What taking out of the buckets of a sequence of cells does to each bucket:
/// the entity leaves the buckets of those cells, and the others stay as they are.
pub proof fn lemma_unfile_all_bucket(t: Table, cells: Seq<Seq<char>>, id: Seq<char>, key: Seq<u8>)
    requires
        bucket(t, key).no_duplicates(),
    ensures
        bucket(unfile_all(t, cells, id), key) == (if covers(cells, key) {
            parted(bucket(t, key), id)
        } else {
            bucket(t, key)
        }),
    decreases cells.len(),
{
    if cells.len() > 0 {
        let init = cells.drop_last();
        lemma_unfile_all_bucket(t, init, id, key);
        lemma_parted_members(bucket(t, key), id, id);
        if covers(init, key) {
            let i = choose|i: int| 0 <= i < init.len() && fingerprint(#[trigger] init[i]) == key;
            assert(fingerprint(cells[i]) == key);
        }
        if fingerprint(cells.last()) == key {
            assert(fingerprint(cells[cells.len() - 1]) == key);
        }
        if covers(cells, key) {
            let i = choose|i: int| 0 <= i < cells.len() && fingerprint(#[trigger] cells[i]) == key;
            if i < init.len() {
                assert(fingerprint(init[i]) == key);
            }
        }
    }
}

/// Indexing keeps every entity that a bucket names among the recorded ones.
pub proof fn lemma_indexed_consistent(v: IndexView, geohash: Seq<char>, id: Seq<char>)
    requires
        v.well_formed(),
        v.consistent(),
    ensures
        v.indexed(geohash, id).consistent(),
{
    let w = v.indexed(geohash, id);
    let u = v.vacated(id);
    assert forall|key: Seq<u8>, x: Seq<char>|
        w.buckets.contains_key(key) && #[trigger] w.buckets[key].contains(
            x,
        ) implies w.locations.contains_key(x) by {
        lemma_file_all_bucket(u.buckets, cells_of(geohash), id, key);
        lemma_joined_members(bucket(u.buckets, key), id, x);
        if x != id {
            assert(bucket(u.buckets, key).contains(x));
            if v.locations.contains_key(id) {
                lemma_unfile_all_bucket(v.buckets, cells_of(v.locations[id]), id, key);
                lemma_parted_members(bucket(v.buckets, key), id, x);
            }
            assert(bucket(v.buckets, key).contains(x));
            assert(v.buckets.contains_key(key) && v.buckets[key].contains(x));
        }
    }
}

/// Indexing leaves no entry behind: where every bucket entry was accounted
/// for by the recorded location of its entity, it is so afterwards.
pub proof fn lemma_indexed_exact(v: IndexView, geohash: Seq<char>, id: Seq<char>)
    requires
        v.well_formed(),
        v.exact(),
    ensures
        v.indexed(geohash, id).exact(),
{
    let w = v.indexed(geohash, id);
    let u = v.vacated(id);
    assert forall|key: Seq<u8>, x: Seq<char>|
        w.buckets.contains_key(key) && #[trigger] w.buckets[key].contains(
            x,
        ) implies w.locations.contains_key(x) && covers(cells_of(w.locations[x]), key) by {
        lemma_file_all_bucket(u.buckets, cells_of(geohash), id, key);
        lemma_joined_members(bucket(u.buckets, key), id, x);
        assert(bucket(v.buckets, key).no_duplicates());
        if v.locations.contains_key(id) {
            lemma_unfile_all_bucket(v.buckets, cells_of(v.locations[id]), id, key);
            lemma_parted_members(bucket(v.buckets, key), id, x);
        }
        if !covers(cells_of(geohash), key) || x != id {
            assert(bucket(u.buckets, key).contains(x));
            assert(bucket(v.buckets, key).contains(x));
            assert(v.buckets.contains_key(key) && v.buckets[key].contains(x));
        }
    }
}

/// After indexing, the entity is in the bucket of each of its six cells.
pub proof fn lemma_indexed_member(v: IndexView, geohash: Seq<char>, id: Seq<char>, precision: int)
    requires
        MIN_PRECISION <= precision <= MAX_PRECISION,
    ensures
        v.indexed(geohash, id).bucket(fingerprint(cell_or_empty(geohash, precision))).contains(id),
{
    let key = fingerprint(cell_or_empty(geohash, precision));
    let u = v.vacated(id);
    lemma_file_all_bucket(u.buckets, cells_of(geohash), id, key);
    assert(cells_of(geohash)[precision - 1] == cell_or_empty(geohash, precision));
    assert(covers(cells_of(geohash), key));
    lemma_joined_members(bucket(u.buckets, key), id, id);
}

/// Merging a bucket without duplicates into nothing gives the bucket.
pub proof fn lemma_merged_into_nothing(more: Seq<Seq<char>>)
    requires
        more.no_duplicates(),
    ensures
        merged(Seq::empty(), more) == more,
    decreases more.len(),
{
    if more.len() > 0 {
        let init = more.drop_last();
        lemma_merged_into_nothing(init);
        if init.contains(more.last()) {
            let i = choose|i: int| 0 <= i < init.len() && init[i] == more.last();
            assert(more[i] == more[more.len() - 1]);
        }
        assert(init.push(more.last()) =~= more);
    } else {
        assert(more =~= Seq::<Seq<char>>::empty());
    }
}

/// Merging adds what was missing and nothing else, and makes no duplicate.
pub proof fn lemma_merged_members(found: Seq<Seq<char>>, more: Seq<Seq<char>>, x: Seq<char>)
    ensures
        merged(found, more).contains(x) <==> found.contains(x) || more.contains(x),
        found.no_duplicates() ==> merged(found, more).no_duplicates(),
    decreases more.len(),
{
    if more.len() > 0 {
        let init = more.drop_last();
        let so_far = merged(found, init);
        lemma_merged_members(found, init, x);
        lemma_merged_members(found, init, more.last());
        assert(more[more.len() - 1] == more.last());
        if init.contains(x) {
            let i = choose|i: int| 0 <= i < init.len() && init[i] == x;
            assert(more[i] == x);
        }
        if more.contains(x) {
            let i = choose|i: int| 0 <= i < more.len() && more[i] == x;
            if i < init.len() {
                assert(init[i] == x);
            }
        }
        if !so_far.contains(more.last()) {
            let after = so_far.push(more.last());
            assert(after[so_far.len() as int] == more.last());
            if so_far.contains(x) {
                let i = choose|i: int| 0 <= i < so_far.len() && so_far[i] == x;
                assert(after[i] == x);
            }
            if after.contains(x) {
                let i = choose|i: int| 0 <= i < after.len() && after[i] == x;
                if i < so_far.len() {
                    assert(so_far[i] == x);
                }
            }
        }
    }
}

/// The entities gathered from some cells are those of their buckets, each once.
pub proof fn lemma_gathered_members(t: Table, cells: Seq<Seq<char>>, x: Seq<char>)
    ensures
        gathered(t, cells).contains(x) <==> exists|i: int|
            0 <= i < cells.len() && bucket(t, fingerprint(#[trigger] cells[i])).contains(x),
        gathered(t, cells).no_duplicates(),
    decreases cells.len(),
{
    if cells.len() > 0 {
        let init = cells.drop_last();
        let last = bucket(t, fingerprint(cells.last()));
        lemma_gathered_members(t, init, x);
        lemma_merged_members(gathered(t, init), last, x);
        if gathered(t, init).contains(x) {
            let i = choose|i: int|
                0 <= i < init.len() && bucket(t, fingerprint(#[trigger] init[i])).contains(x);
            assert(bucket(t, fingerprint(cells[i])).contains(x));
        }
        if last.contains(x) {
            assert(bucket(t, fingerprint(cells[cells.len() - 1])).contains(x));
        }
        if exists|i: int|
            0 <= i < cells.len() && bucket(t, fingerprint(#[trigger] cells[i])).contains(x) {
            let i = choose|i: int|
                0 <= i < cells.len() && bucket(t, fingerprint(#[trigger] cells[i])).contains(x);
            if i < init.len() {
                assert(bucket(t, fingerprint(init[i])).contains(x));
            }
        }
    } else {
        assert(!Seq::<Seq<char>>::empty().contains(x));
    }
}

/// An entity is kept exactly when it is a candidate whose distance is at
/// most the radius; where no candidate occurs twice, none is kept twice.
pub proof fn lemma_kept_members(
    candidates: Seq<Seq<char>>,
    distances: Seq<Km>,
    radius: Km,
    x: Seq<char>,
)
    requires
        candidates.len() == distances.len(),
    ensures
        kept(candidates, distances, radius).contains(x) <==> exists|i: int|
            0 <= i < candidates.len() && #[trigger] candidates[i] == x && distances[i].is_at_most(
                radius,
            ),
        candidates.no_duplicates() ==> kept(candidates, distances, radius).no_duplicates(),
    decreases candidates.len(),
{
    if candidates.len() > 0 {
        let c = candidates.drop_last();
        let d = distances.drop_last();
        let before = kept(c, d, radius);
        let n = candidates.len() - 1;
        lemma_kept_members(c, d, radius, x);
        lemma_kept_members(c, d, radius, candidates.last());
        if before.contains(x) {
            let i = choose|i: int|
                0 <= i < c.len() && #[trigger] c[i] == x && d[i].is_at_most(radius);
            assert(candidates[i] == x && distances[i].is_at_most(radius));
        }
        if exists|i: int|
            0 <= i < candidates.len() && #[trigger] candidates[i] == x && distances[i].is_at_most(
                radius,
            ) {
            let i = choose|i: int|
                0 <= i < candidates.len() && #[trigger] candidates[i] == x
                    && distances[i].is_at_most(radius);
            if i < n {
                assert(c[i] == x && d[i].is_at_most(radius));
            }
        }
        if before.contains(candidates.last()) {
            let i = choose|i: int|
                0 <= i < c.len() && #[trigger] c[i] == candidates.last() && d[i].is_at_most(
                    radius,
                );
            assert(candidates[i] == candidates[n]);
        }
        if distances.last().is_at_most(radius) {
            let after = before.push(candidates.last());
            assert(after[before.len() as int] == candidates.last());
            assert(candidates[n] == candidates.last());
            if before.contains(x) {
                let i = choose|i: int| 0 <= i < before.len() && before[i] == x;
                assert(after[i] == x);
            }
            if after.contains(x) {
                let i = choose|i: int| 0 <= i < after.len() && after[i] == x;
                if i < before.len() {
                    assert(before[i] == x);
                }
            }
        }
    } else {
        assert(!Seq::<Seq<char>>::empty().contains(x));
    }
}

/// No entity is gathered twice.
pub proof fn lemma_gathered_once(t: Table, cells: Seq<Seq<char>>)
    ensures
        gathered(t, cells).no_duplicates(),
{
    lemma_gathered_members(t, cells, Seq::empty());
}

/// Of candidates of which none occurs twice, none is kept twice.
pub proof fn lemma_kept_once(candidates: Seq<Seq<char>>, distances: Seq<Km>, radius: Km)
    requires
        candidates.len() == distances.len(),
        candidates.no_duplicates(),
    ensures
        kept(candidates, distances, radius).no_duplicates(),
{
    lemma_kept_members(candidates, distances, radius, Seq::empty());
}

} // verus!
