//! The reverse lookup: from an entity to the geohash it was last indexed under.
//!
//! The entries are kept in a vector in ascending order of identifier, so
//! that no entity occurs twice and an entry is found by bisection.
//! Mathematically the directory is a map from identifiers to geohashes.

use crate::ids::{id_less, id_order, lemma_lex_irreflexive, lemma_lex_total, lemma_lex_transitive};
use crate::ids::lemma_same_bytes_same_id;
use vstd::prelude::*;
use vstd::utf8::encode_utf8;

verus! {

/// Where one entity is.
pub struct Location {
    pub id: String,
    pub geohash: String,
}

/// The reverse lookup as a map: identifier to geohash.
pub type Directory = Map<Seq<char>, Seq<char>>;

/// The identifiers increase strictly from one entry to the next.
pub open spec fn ordered(l: Seq<Location>) -> bool {
    forall|i: int, j: int|
        0 <= i < j < l.len() ==> id_less((#[trigger] l[i]).id@, (#[trigger] l[j]).id@)
}

/// No entity has two entries.
pub open spec fn distinct(l: Seq<Location>) -> bool {
    forall|i: int, j: int| 0 <= i < j < l.len() ==> (#[trigger] l[i]).id@ != (#[trigger] l[j]).id@
}

/// The entity has an entry.
pub open spec fn listed(l: Seq<Location>, id: Seq<char>) -> bool {
    exists|i: int| 0 <= i < l.len() && (#[trigger] l[i]).id@ == id
}

/// The place of the entry of an entity.
pub open spec fn entry_of(l: Seq<Location>, id: Seq<char>) -> int {
    choose|i: int| 0 <= i < l.len() && (#[trigger] l[i]).id@ == id
}

/// The map that a vector of entries stands for.
pub open spec fn directory(l: Seq<Location>) -> Directory {
    Map::new(|id: Seq<char>| listed(l, id), |id: Seq<char>| l[entry_of(l, id)].geohash@)
}

/// In ascending order no entity occurs twice.
pub proof fn lemma_ordered_distinct(l: Seq<Location>)
    requires
        ordered(l),
    ensures
        distinct(l),
{
    assert forall|i: int, j: int| 0 <= i < j < l.len() implies (#[trigger] l[i]).id@ != (
    #[trigger] l[j]).id@ by {
        lemma_lex_irreflexive(encode_utf8(l[i].id@));
    }
}

/// Where no entity occurs twice, each entry is found under its own identifier.
proof fn lemma_distinct_at(l: Seq<Location>, i: int)
    requires
        distinct(l),
        0 <= i < l.len(),
    ensures
        listed(l, l[i].id@),
        entry_of(l, l[i].id@) == i,
        directory(l).contains_key(l[i].id@),
        directory(l)[l[i].id@] == l[i].geohash@,
{
    let j = entry_of(l, l[i].id@);
    assert(0 <= j < l.len() && l[j].id@ == l[i].id@);
}

/// Changing the geohash of one entry changes the map at its identifier only.
pub proof fn lemma_directory_update(l: Seq<Location>, c: Seq<Location>, pos: int)
    requires
        ordered(l),
        0 <= pos < l.len(),
        c.len() == l.len(),
        forall|i: int| 0 <= i < l.len() ==> (#[trigger] c[i]).id == l[i].id,
        forall|i: int| 0 <= i < l.len() && i != pos ==> (#[trigger] c[i]).geohash == l[i].geohash,
    ensures
        ordered(c),
        directory(c) == directory(l).insert(l[pos].id@, c[pos].geohash@),
{
    assert(ordered(c)) by {
        assert forall|i: int, j: int| 0 <= i < j < c.len() implies id_less(
            (#[trigger] c[i]).id@,
            (#[trigger] c[j]).id@,
        ) by {
            assert(c[i].id == l[i].id && c[j].id == l[j].id);
        }
    }
    lemma_ordered_distinct(l);
    lemma_ordered_distinct(c);
    let target = directory(l).insert(l[pos].id@, c[pos].geohash@);
    assert forall|k: Seq<char>| directory(c).contains_key(k) == target.contains_key(k) by {
        if listed(c, k) {
            let i = entry_of(c, k);
            assert(c[i].id == l[i].id);
            assert(l[i].id@ == k);
        }
        if listed(l, k) {
            let i = entry_of(l, k);
            assert(c[i].id == l[i].id);
            assert(c[i].id@ == k);
        }
        lemma_distinct_at(l, pos);
    }
    assert forall|k: Seq<char>| directory(c).contains_key(k) implies directory(c)[k]
        == target[k] by {
        let i = entry_of(c, k);
        assert(c[i].id == l[i].id);
        lemma_distinct_at(c, i);
        lemma_distinct_at(l, i);
        if i != pos {
            assert(c[i].geohash == l[i].geohash);
            lemma_distinct_at(l, pos);
        }
    }
    assert(directory(c) =~= target);
}

/// An entry put in at its place adds its identifier to the map.
pub proof fn lemma_directory_insert(l: Seq<Location>, pos: int, fresh: Location)
    requires
        ordered(l),
        0 <= pos <= l.len(),
        forall|i: int| 0 <= i < pos ==> id_less((#[trigger] l[i]).id@, fresh.id@),
        forall|i: int| pos <= i < l.len() ==> id_less(fresh.id@, (#[trigger] l[i]).id@),
    ensures
        ordered(l.insert(pos, fresh)),
        directory(l.insert(pos, fresh)) == directory(l).insert(fresh.id@, fresh.geohash@),
{
    let c = l.insert(pos, fresh);
    assert(c[pos] == fresh);
    assert(ordered(c)) by {
        assert forall|i: int, j: int| 0 <= i < j < c.len() implies id_less(
            (#[trigger] c[i]).id@,
            (#[trigger] c[j]).id@,
        ) by {
            if i < pos {
                assert(c[i] == l[i]);
            } else if i > pos {
                assert(c[i] == l[i - 1]);
            }
            if j < pos {
                assert(c[j] == l[j]);
            } else if j > pos {
                assert(c[j] == l[j - 1]);
            }
        }
    }
    lemma_ordered_distinct(l);
    lemma_ordered_distinct(c);
    let target = directory(l).insert(fresh.id@, fresh.geohash@);
    assert forall|k: Seq<char>| directory(c).contains_key(k) == target.contains_key(k) by {
        if listed(c, k) {
            let i = entry_of(c, k);
            if i < pos {
                assert(c[i] == l[i]);
                assert(l[i].id@ == k);
            } else if i > pos {
                assert(c[i] == l[i - 1]);
                assert(l[i - 1].id@ == k);
            }
        }
        if listed(l, k) {
            let i = entry_of(l, k);
            if i < pos {
                assert(c[i] == l[i]);
                assert(c[i].id@ == k);
            } else {
                assert(c[i + 1] == l[i]);
                assert(c[i + 1].id@ == k);
            }
        }
        if k == fresh.id@ {
            assert(c[pos].id@ == k);
        }
    }
    assert forall|k: Seq<char>| directory(c).contains_key(k) implies directory(c)[k]
        == target[k] by {
        let i = entry_of(c, k);
        lemma_distinct_at(c, i);
        if i < pos {
            assert(c[i] == l[i]);
            lemma_distinct_at(l, i);
        } else if i > pos {
            assert(c[i] == l[i - 1]);
            lemma_distinct_at(l, i - 1);
        }
    }
    assert(directory(c) =~= target);
}

/// Where no entity occurs twice, the directory has as many entries as the vector.
proof fn lemma_distinct_len(l: Seq<Location>)
    requires
        distinct(l),
    ensures
        directory(l).dom().finite(),
        directory(l).dom().len() == l.len(),
    decreases l.len(),
{
    if l.len() == 0 {
        assert(directory(l).dom() =~= Set::<Seq<char>>::empty());
    } else {
        let init = l.drop_last();
        let last = l.last();
        assert forall|i: int| 0 <= i < init.len() implies #[trigger] init[i] == l[i] by {}
        assert(distinct(init)) by {
            assert forall|i: int, j: int| 0 <= i < j < init.len() implies (#[trigger] init[i]).id@
                != (#[trigger] init[j]).id@ by {
                assert(init[i] == l[i] && init[j] == l[j]);
            }
        }
        lemma_distinct_len(init);
        assert(!listed(init, last.id@)) by {
            if listed(init, last.id@) {
                let i = entry_of(init, last.id@);
                assert(init[i] == l[i]);
                assert(l[i].id@ != l[l.len() - 1].id@);
            }
        }
        assert forall|k: Seq<char>| directory(l).dom().contains(k) == directory(
            init,
        ).dom().insert(last.id@).contains(k) by {
            if listed(l, k) {
                let i = entry_of(l, k);
                if i < init.len() {
                    assert(init[i] == l[i]);
                    assert(init[i].id@ == k);
                }
            }
            if listed(init, k) {
                let i = entry_of(init, k);
                assert(init[i] == l[i]);
                assert(l[i].id@ == k);
            }
            if k == last.id@ {
                assert(l[l.len() - 1].id@ == k);
            }
        }
        assert(directory(l).dom() =~= directory(init).dom().insert(last.id@));
    }
}

/// Each entry is found under its own identifier.
pub proof fn lemma_directory_at(l: Seq<Location>, i: int)
    requires
        ordered(l),
        0 <= i < l.len(),
    ensures
        listed(l, l[i].id@),
        entry_of(l, l[i].id@) == i,
        directory(l).contains_key(l[i].id@),
        directory(l)[l[i].id@] == l[i].geohash@,
{
    lemma_ordered_distinct(l);
    lemma_distinct_at(l, i);
}

/// The directory has as many entries as the vector.
pub proof fn lemma_directory_len(l: Seq<Location>)
    requires
        ordered(l),
    ensures
        directory(l).dom().finite(),
        directory(l).dom().len() == l.len(),
{
    lemma_ordered_distinct(l);
    lemma_distinct_len(l);
}

/// The place of an identifier among the entries: where its entry is, or
/// where it would have to be put.
pub(crate) fn seek(l: &Vec<Location>, id: &String) -> (r: (usize, bool))
    requires
        ordered(l@),
    ensures
        r.0 <= l.len(),
        forall|i: int| 0 <= i < r.0 ==> id_less((#[trigger] l[i]).id@, id@),
        forall|i: int| r.0 <= i < l.len() ==> id_less(id@, (#[trigger] l[i]).id@) || (i == r.0
            && r.1),
        r.1 == (r.0 < l.len() && l[r.0 as int].id@ == id@),
        r.1 == listed(l@, id@),
{
    let mut low: usize = 0;
    let mut high: usize = l.len();
    while low < high
        invariant
            low <= high <= l.len(),
            ordered(l@),
            forall|i: int| 0 <= i < low ==> id_less((#[trigger] l[i]).id@, id@),
            forall|i: int| high <= i < l.len() ==> !id_less((#[trigger] l[i]).id@, id@),
        decreases high - low,
    {
        let mid: usize = low + (high - low) / 2;
        let (less, _) = id_order(&l[mid].id, id);
        if less {
            assert forall|i: int| 0 <= i < mid + 1 implies id_less((#[trigger] l[i]).id@, id@) by {
                if i < mid {
                    lemma_lex_transitive(
                        encode_utf8(l[i].id@),
                        encode_utf8(l[mid as int].id@),
                        encode_utf8(id@),
                    );
                }
            }
            low = mid + 1;
        } else {
            assert forall|i: int| mid <= i < l.len() implies !id_less(
                (#[trigger] l[i]).id@,
                id@,
            ) by {
                if mid < i && id_less(l[i].id@, id@) {
                    lemma_lex_transitive(
                        encode_utf8(l[mid as int].id@),
                        encode_utf8(l[i].id@),
                        encode_utf8(id@),
                    );
                }
            }
            high = mid;
        }
    }
    let found: bool = if low < l.len() {
        let (less, greater) = id_order(&l[low].id, id);
        !less && !greater
    } else {
        false
    };
    proof {
        assert forall|i: int| low <= i < l.len() implies id_less(id@, (#[trigger] l[i]).id@) || (i
            == low && found) by {
            lemma_lex_total(encode_utf8(l[i].id@), encode_utf8(id@));
            if encode_utf8(l[i].id@) == encode_utf8(id@) {
                lemma_same_bytes_same_id(l[i].id@, id@);
                if i > low {
                    lemma_lex_irreflexive(encode_utf8(id@));
                    assert(id_less(l[low as int].id@, l[i].id@));
                }
            }
        }
        if !found && listed(l@, id@) {
            let j = entry_of(l@, id@);
            assert(l[j].id@ == id@);
            lemma_lex_irreflexive(encode_utf8(id@));
            assert(false);
        }
    }
    (low, found)
}

/// The place of the entry of `id`.
pub(crate) fn find_entry(l: &Vec<Location>, id: &String) -> (r: Option<usize>)
    requires
        ordered(l@),
    ensures
        match r {
            Some(i) => i < l.len() && l[i as int].id@ == id@,
            None => !listed(l@, id@),
        },
{
    let (pos, found) = seek(l, id);
    if found {
        Some(pos)
    } else {
        None
    }
}

/// Records that `id` is at `geohash`, in place of what was recorded for it.
pub(crate) fn record(l: &mut Vec<Location>, id: &String, geohash: &String)
    requires
        ordered(old(l)@),
    ensures
        ordered(final(l)@),
        directory(final(l)@) == directory(old(l)@).insert(id@, geohash@),
{
    let ghost before = l@;
    let (pos, found) = seek(l, id);
    if found {
        l[pos].geohash = geohash.clone();
        proof {
            assert forall|i: int| 0 <= i < l.len() implies (#[trigger] l[i]).id == before[i].id by {}
            assert forall|i: int| 0 <= i < l.len() && i != pos implies (#[trigger] l[i]).geohash
                == before[i].geohash by {}
            lemma_directory_update(before, l@, pos as int);
        }
    } else {
        let fresh = Location { id: id.clone(), geohash: geohash.clone() };
        proof {
            lemma_directory_insert(before, pos as int, fresh);
        }
        l.insert(pos, fresh);
    }
}

} // verus!
