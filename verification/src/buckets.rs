//! The forward index: from the fingerprint of a cell to the entities filed
//! under it.
//!
//! The buckets are kept in a vector in ascending order of fingerprint. No
//! bucket is empty and no entity occurs twice in a bucket. Mathematically the
//! table is a map from fingerprints to sequences of identifiers.

use crate::keys::{key_order, key_value, lemma_key_value_injective};
use vstd::prelude::*;

verus! {

/// The entities filed under one cell.
pub struct Bucket {
    pub key: [u8; 32],
    pub ids: Vec<String>,
}

/// The forward index as a map: fingerprint to identifiers, in the order in
/// which they were filed.
pub type Table = Map<Seq<u8>, Seq<Seq<char>>>;

/// The strings of a sequence, each by its characters.
pub open spec fn texts(v: Seq<String>) -> Seq<Seq<char>> {
    Seq::new(v.len(), |i: int| v[i]@)
}

/// The fingerprints increase strictly from one bucket to the next.
pub open spec fn ascending(b: Seq<Bucket>) -> bool {
    forall|i: int, j: int| 0 <= i < j < b.len() ==> key_value(b[i].key@) < key_value(b[j].key@)
}

/// No bucket is empty, and none names an entity twice.
pub open spec fn tidy(b: Seq<Bucket>) -> bool {
    forall|i: int|
        0 <= i < b.len() ==> (#[trigger] b[i]).ids.len() > 0 && texts(b[i].ids@).no_duplicates()
}

/// Some bucket has this fingerprint.
pub open spec fn has_key(b: Seq<Bucket>, key: Seq<u8>) -> bool {
    exists|i: int| 0 <= i < b.len() && (#[trigger] b[i]).key@ == key
}

/// The place of the bucket with this fingerprint.
pub open spec fn slot(b: Seq<Bucket>, key: Seq<u8>) -> int {
    choose|i: int| 0 <= i < b.len() && (#[trigger] b[i]).key@ == key
}

/// The map that a vector of buckets stands for.
pub open spec fn table(b: Seq<Bucket>) -> Table {
    Map::new(|key: Seq<u8>| has_key(b, key), |key: Seq<u8>| texts(b[slot(b, key)].ids@))
}

/// The entities filed under a fingerprint: none where there is no bucket.
pub open spec fn bucket(t: Table, key: Seq<u8>) -> Seq<Seq<char>> {
    if t.contains_key(key) {
        t[key]
    } else {
        Seq::empty()
    }
}

/// A bucket after an entity was filed in it: appended, unless it was there.
pub open spec fn joined(ids: Seq<Seq<char>>, id: Seq<char>) -> Seq<Seq<char>> {
    if ids.contains(id) {
        ids
    } else {
        ids.push(id)
    }
}

/// A bucket after an entity was taken out of it.
pub open spec fn parted(ids: Seq<Seq<char>>, id: Seq<char>) -> Seq<Seq<char>> {
    if ids.contains(id) {
        ids.remove(ids.index_of(id))
    } else {
        ids
    }
}

/// No bucket of the table is empty, and none names an entity twice.
pub open spec fn neat(t: Table) -> bool {
    forall|key: Seq<u8>| #[trigger]
        t.contains_key(key) ==> t[key].len() > 0 && t[key].no_duplicates()
}

/// The table after `id` was filed under `key`.
pub open spec fn filed(t: Table, key: Seq<u8>, id: Seq<char>) -> Table {
    t.insert(key, joined(bucket(t, key), id))
}

/// The table after `id` was taken out of the bucket of `key`; a bucket left
/// empty goes.
pub open spec fn unfiled(t: Table, key: Seq<u8>, id: Seq<char>) -> Table {
    if !t.contains_key(key) {
        t
    } else if parted(t[key], id).len() == 0 {
        t.remove(key)
    } else {
        t.insert(key, parted(t[key], id))
    }
}

/// In an ascending vector each bucket is found under its own fingerprint.
pub proof fn lemma_table_at(b: Seq<Bucket>, i: int)
    requires
        ascending(b),
        0 <= i < b.len(),
    ensures
        has_key(b, b[i].key@),
        slot(b, b[i].key@) == i,
        table(b).contains_key(b[i].key@),
        table(b)[b[i].key@] == texts(b[i].ids@),
{
    let key = b[i].key@;
    let j = slot(b, key);
    assert(0 <= j < b.len() && b[j].key@ == key);
    if j < i {
        assert(key_value(b[j].key@) < key_value(b[i].key@));
    }
    if i < j {
        assert(key_value(b[i].key@) < key_value(b[j].key@));
    }
}

/// The place of a fingerprint among the buckets: where its bucket is, or
/// where it would have to be put.
pub(crate) fn locate(b: &Vec<Bucket>, key: &[u8; 32]) -> (r: (usize, bool))
    requires
        ascending(b@),
    ensures
        r.0 <= b.len(),
        forall|i: int| 0 <= i < r.0 ==> key_value(#[trigger] b[i].key@) < key_value(key@),
        forall|i: int| r.0 <= i < b.len() ==> key_value(#[trigger] b[i].key@) >= key_value(key@),
        r.1 == (r.0 < b.len() && b[r.0 as int].key@ == key@),
        r.1 == has_key(b@, key@),
{
    let mut low: usize = 0;
    let mut high: usize = b.len();
    while low < high
        invariant
            low <= high <= b.len(),
            ascending(b@),
            forall|i: int| 0 <= i < low ==> key_value(#[trigger] b[i].key@) < key_value(key@),
            forall|i: int| high <= i < b.len() ==> key_value(#[trigger] b[i].key@) >= key_value(key@),
        decreases high - low,
    {
        let mid: usize = low + (high - low) / 2;
        let (less, _) = key_order(&b[mid].key, key);
        if less {
            assert forall|i: int| 0 <= i < mid + 1 implies key_value(#[trigger] b[i].key@)
                < key_value(key@) by {
                if i < mid {
                    assert(key_value(b[i].key@) < key_value(b[mid as int].key@));
                }
            }
            low = mid + 1;
        } else {
            assert forall|i: int| mid <= i < b.len() implies key_value(#[trigger] b[i].key@)
                >= key_value(key@) by {
                if mid < i {
                    assert(key_value(b[mid as int].key@) < key_value(b[i].key@));
                }
            }
            high = mid;
        }
    }
    let found: bool = if low < b.len() {
        let (less, greater) = key_order(&b[low].key, key);
        !less && !greater
    } else {
        false
    };
    proof {
        if !found && has_key(b@, key@) {
            let j = slot(b@, key@);
            assert(b[j].key@ == key@);
            assert(false);
        }
    }
    (low, found)
}

/// The place of an identifier in a bucket.
pub fn position(ids: &Vec<String>, id: &String) -> (r: Option<usize>)
    ensures
        match r {
            Some(i) => i < ids.len() && ids[i as int]@ == id@ && forall|j: int|
                0 <= j < i ==> ids[j]@ != id@,
            None => !texts(ids@).contains(id@),
        },
{
    let mut i: usize = 0;
    while i < ids.len()
        invariant
            i <= ids.len(),
            forall|j: int| 0 <= j < i ==> ids[j]@ != id@,
        decreases ids.len() - i,
    {
        if ids[i] == *id {
            return Some(i);
        }
        i = i + 1;
    }
    proof {
        if texts(ids@).contains(id@) {
            let j = choose|j: int| 0 <= j < texts(ids@).len() && texts(ids@)[j] == id@;
            assert(ids[j]@ == id@);
        }
    }
    None
}

/// Changing what one bucket holds changes the map at its fingerprint only.
pub proof fn lemma_table_update(b: Seq<Bucket>, c: Seq<Bucket>, pos: int)
    requires
        ascending(b),
        0 <= pos < b.len(),
        c.len() == b.len(),
        forall|i: int| 0 <= i < b.len() ==> (#[trigger] c[i]).key == b[i].key,
        forall|i: int| 0 <= i < b.len() && i != pos ==> (#[trigger] c[i]).ids == b[i].ids,
    ensures
        ascending(c),
        table(c) == table(b).insert(b[pos].key@, texts(c[pos].ids@)),
{
    assert(ascending(c)) by {
        assert forall|i: int, j: int| 0 <= i < j < c.len() implies key_value(c[i].key@)
            < key_value(c[j].key@) by {
            assert(c[i].key == b[i].key && c[j].key == b[j].key);
        }
    }
    let t = table(b).insert(b[pos].key@, texts(c[pos].ids@));
    assert forall|k: Seq<u8>| table(c).contains_key(k) == t.contains_key(k) by {
        if has_key(c, k) {
            let i = slot(c, k);
            assert(c[i].key == b[i].key);
            assert(b[i].key@ == k);
        }
        if has_key(b, k) {
            let i = slot(b, k);
            assert(c[i].key == b[i].key);
            assert(c[i].key@ == k);
        }
        lemma_table_at(b, pos);
    }
    assert forall|k: Seq<u8>| table(c).contains_key(k) implies table(c)[k] == t[k] by {
        let i = slot(c, k);
        assert(c[i].key == b[i].key);
        lemma_table_at(c, i);
        lemma_table_at(b, i);
        if i != pos {
            assert(c[i].ids == b[i].ids);
            if b[pos].key@ == k {
                lemma_table_at(b, pos);
            }
        }
    }
    assert(table(c) =~= t);
}

/// A bucket put in at its place adds its fingerprint to the map.
pub proof fn lemma_table_insert(b: Seq<Bucket>, pos: int, fresh: Bucket)
    requires
        ascending(b),
        0 <= pos <= b.len(),
        forall|i: int| 0 <= i < pos ==> key_value(#[trigger] b[i].key@) < key_value(fresh.key@),
        forall|i: int| pos <= i < b.len() ==> key_value(#[trigger] b[i].key@) > key_value(fresh.key@),
    ensures
        ascending(b.insert(pos, fresh)),
        table(b.insert(pos, fresh)) == table(b).insert(fresh.key@, texts(fresh.ids@)),
{
    let c = b.insert(pos, fresh);
    assert(ascending(c)) by {
        assert forall|i: int, j: int| 0 <= i < j < c.len() implies key_value(c[i].key@)
            < key_value(c[j].key@) by {
            if i < pos {
                assert(c[i] == b[i]);
            } else if i > pos {
                assert(c[i] == b[i - 1]);
            }
            if j < pos {
                assert(c[j] == b[j]);
            } else if j > pos {
                assert(c[j] == b[j - 1]);
            }
        }
    }
    let t = table(b).insert(fresh.key@, texts(fresh.ids@));
    assert(c[pos] == fresh);
    assert forall|k: Seq<u8>| table(c).contains_key(k) == t.contains_key(k) by {
        if has_key(c, k) {
            let i = slot(c, k);
            if i < pos {
                assert(c[i] == b[i]);
                assert(b[i].key@ == k);
            } else if i > pos {
                assert(c[i] == b[i - 1]);
                assert(b[i - 1].key@ == k);
            }
        }
        if has_key(b, k) {
            let i = slot(b, k);
            if i < pos {
                assert(c[i] == b[i]);
                assert(c[i].key@ == k);
            } else {
                assert(c[i + 1] == b[i]);
                assert(c[i + 1].key@ == k);
            }
        }
        if k == fresh.key@ {
            assert(c[pos].key@ == k);
        }
    }
    assert forall|k: Seq<u8>| table(c).contains_key(k) implies table(c)[k] == t[k] by {
        let i = slot(c, k);
        lemma_table_at(c, i);
        if i < pos {
            assert(c[i] == b[i]);
            lemma_table_at(b, i);
        } else if i > pos {
            assert(c[i] == b[i - 1]);
            lemma_table_at(b, i - 1);
        }
    }
    assert(table(c) =~= t);
}

/// A bucket taken out takes its fingerprint out of the map.
pub proof fn lemma_table_remove(b: Seq<Bucket>, pos: int)
    requires
        ascending(b),
        0 <= pos < b.len(),
    ensures
        ascending(b.remove(pos)),
        table(b.remove(pos)) == table(b).remove(b[pos].key@),
{
    let c = b.remove(pos);
    assert forall|i: int| 0 <= i < c.len() implies #[trigger] c[i] == (if i < pos {
        b[i]
    } else {
        b[i + 1]
    }) by {}
    assert(ascending(c)) by {
        assert forall|i: int, j: int| 0 <= i < j < c.len() implies key_value(c[i].key@)
            < key_value(c[j].key@) by {
            let i2 = if i < pos { i } else { i + 1 };
            let j2 = if j < pos { j } else { j + 1 };
            assert(c[i] == b[i2] && c[j] == b[j2]);
        }
    }
    let t = table(b).remove(b[pos].key@);
    assert forall|k: Seq<u8>| table(c).contains_key(k) == t.contains_key(k) by {
        if has_key(c, k) {
            let i = slot(c, k);
            let i2 = if i < pos { i } else { i + 1 };
            assert(c[i] == b[i2]);
            assert(b[i2].key@ == k);
            if k == b[pos].key@ {
                lemma_table_at(b, i2);
                lemma_table_at(b, pos);
            }
        }
        if has_key(b, k) && k != b[pos].key@ {
            let i = slot(b, k);
            let i2 = if i < pos { i } else { i - 1 };
            assert(c[i2] == b[i]);
            assert(c[i2].key@ == k);
        }
    }
    assert forall|k: Seq<u8>| table(c).contains_key(k) implies table(c)[k] == t[k] by {
        let i = slot(c, k);
        let i2 = if i < pos { i } else { i + 1 };
        assert(c[i] == b[i2]);
        lemma_table_at(c, i);
        lemma_table_at(b, i2);
    }
    assert(table(c) =~= t);
}

/// Files `id` under `key`: at the end of its bucket, unless it is there already.
pub(crate) fn file_under(b: &mut Vec<Bucket>, key: [u8; 32], id: &String)
    requires
        ascending(old(b)@),
        tidy(old(b)@),
    ensures
        ascending(final(b)@),
        tidy(final(b)@),
        table(final(b)@) == filed(table(old(b)@), key@, id@),
{
    let (pos, found) = locate(b, &key);
    if found {
        proof {
            lemma_table_at(b@, pos as int);
        }
        match position(&b[pos].ids, id) {
            None => {
                let ghost before = b@;
                b[pos].ids.push(id.clone());
                proof {
                    assert(texts(b[pos as int].ids@) =~= texts(before[pos as int].ids@).push(id@));
                    lemma_table_update(before, b@, pos as int);
                    assert forall|i: int| 0 <= i < b.len() implies (#[trigger] b[i]).ids.len() > 0
                        && texts(b[i].ids@).no_duplicates() by {
                        if i != pos {
                            assert(b[i].ids == before[i].ids);
                        }
                    }
                }
            },
            Some(at) => {
                proof {
                    assert(texts(b[pos as int].ids@)[at as int] == id@);
                    assert(table(b@) =~= filed(table(b@), key@, id@));
                }
            },
        }
    } else {
        let mut ids: Vec<String> = Vec::new();
        ids.push(id.clone());
        let fresh = Bucket { key, ids };
        let ghost before = b@;
        proof {
            assert(texts(fresh.ids@) =~= Seq::<Seq<char>>::empty().push(id@));
            assert forall|i: int| pos <= i < before.len() implies key_value(
                #[trigger] before[i].key@,
            ) > key_value(key@) by {
                if key_value(before[i].key@) == key_value(key@) {
                    lemma_key_value_injective(before[i].key@, key@);
                }
            }
            lemma_table_insert(before, pos as int, fresh);
        }
        b.insert(pos, fresh);
        proof {
            assert forall|i: int| 0 <= i < b.len() implies (#[trigger] b[i]).ids.len() > 0
                && texts(b[i].ids@).no_duplicates() by {
                if i < pos {
                    assert(b[i] == before[i]);
                } else if i > pos {
                    assert(b[i] == before[i - 1]);
                }
            }
        }
    }
}

/// Takes `id` out of the bucket of `key`; a bucket left empty goes.
pub(crate) fn take_from(b: &mut Vec<Bucket>, key: &[u8; 32], id: &String)
    requires
        ascending(old(b)@),
        tidy(old(b)@),
    ensures
        ascending(final(b)@),
        tidy(final(b)@),
        table(final(b)@) == unfiled(table(old(b)@), key@, id@),
{
    let (pos, found) = locate(b, key);
    if found {
        let ghost before = b@;
        let ghost held = texts(before[pos as int].ids@);
        proof {
            lemma_table_at(before, pos as int);
        }
        match position(&b[pos].ids, id) {
            Some(at) => {
                proof {
                    assert(held[at as int] == id@);
                    assert(held.contains(id@));
                    assert(held.index_of(id@) == at as int);
                }
                if b[pos].ids.len() == 1 {
                    b.remove(pos);
                    proof {
                        assert(parted(held, id@).len() == 0);
                        lemma_table_remove(before, pos as int);
                        assert forall|i: int| 0 <= i < b.len() implies (#[trigger] b[i]).ids.len()
                            > 0 && texts(b[i].ids@).no_duplicates() by {
                            if i < pos {
                                assert(b[i] == before[i]);
                            } else {
                                assert(b[i] == before[i + 1]);
                            }
                        }
                    }
                } else {
                    b[pos].ids.remove(at);
                    proof {
                        assert(texts(b[pos as int].ids@) =~= held.remove(at as int));
                        lemma_table_update(before, b@, pos as int);
                        assert forall|i: int| 0 <= i < b.len() implies (#[trigger] b[i]).ids.len()
                            > 0 && texts(b[i].ids@).no_duplicates() by {
                            if i != pos {
                                assert(b[i].ids == before[i].ids);
                            }
                        }
                    }
                }
            },
            None => {},
        }
    }
}

/// Who is in a bucket after an entity was filed in it.
pub proof fn lemma_joined_members(ids: Seq<Seq<char>>, id: Seq<char>, x: Seq<char>)
    ensures
        joined(ids, id).contains(x) <==> ids.contains(x) || x == id,
        ids.no_duplicates() ==> joined(ids, id).no_duplicates(),
        joined(ids, id).len() > 0,
{
    if !ids.contains(id) {
        let after = ids.push(id);
        assert(after[ids.len() as int] == id);
        if ids.contains(x) {
            let i = choose|i: int| 0 <= i < ids.len() && ids[i] == x;
            assert(after[i] == x);
        }
        if after.contains(x) {
            let i = choose|i: int| 0 <= i < after.len() && after[i] == x;
            if i < ids.len() {
                assert(ids[i] == x);
            }
        }
    } else {
        let i = choose|i: int| 0 <= i < ids.len() && ids[i] == id;
    }
}

/// Who is in a bucket after an entity was taken out of it.
pub proof fn lemma_parted_members(ids: Seq<Seq<char>>, id: Seq<char>, x: Seq<char>)
    ensures
        parted(ids, id).contains(x) ==> ids.contains(x),
        ids.contains(x) && x != id ==> parted(ids, id).contains(x),
        ids.no_duplicates() ==> parted(ids, id).no_duplicates() && !parted(ids, id).contains(id),
{
    if ids.contains(id) {
        let at = ids.index_of(id);
        let after = ids.remove(at);
        assert(0 <= at < ids.len() && ids[at] == id);
        assert forall|i: int| 0 <= i < after.len() implies #[trigger] after[i] == (if i < at {
            ids[i]
        } else {
            ids[i + 1]
        }) by {}
        if after.contains(x) {
            let i = choose|i: int| 0 <= i < after.len() && after[i] == x;
            let from = if i < at { i } else { i + 1 };
            assert(ids[from] == x);
        }
        if ids.contains(x) && x != id {
            let i = choose|i: int| 0 <= i < ids.len() && ids[i] == x;
            let to = if i < at { i } else { i - 1 };
            assert(after[to] == x);
        }
        if ids.no_duplicates() {
            assert forall|i: int, j: int| 0 <= i < after.len() && 0 <= j < after.len() && i
                != j implies after[i] != after[j] by {
                let i2 = if i < at { i } else { i + 1 };
                let j2 = if j < at { j } else { j + 1 };
                assert(after[i] == ids[i2] && after[j] == ids[j2]);
            }
            if after.contains(id) {
                let i = choose|i: int| 0 <= i < after.len() && after[i] == id;
                let from = if i < at { i } else { i + 1 };
                assert(ids[from] == id);
            }
        }
    }
}

} // verus!
