//! The geohash codec and the fingerprint of a cell.
//!
//! Encoding, decoding and the step to a neighbouring cell are the work of the
//! `geohash` crate, and the fingerprint is SHA-256 from the `sha2` crate.
//! Neither is re-implemented here: each result has a name, and the contracts
//! of the index speak of those names.

use crate::buckets::texts;
use crate::error::IndexError;
use crate::measure::Coordinate;
use digest::Digest;
use sha2::Sha256;
use vstd::prelude::*;
use vstd::utf8::encode_utf8;

verus! {

/// The longest geohash that the codec decodes, in bytes.
pub const MAX_GEOHASH_LEN: usize = 12;

/// The eight compass directions in which a cell has a neighbour.
#[derive(Clone, Copy, PartialEq, Eq, Structural, Debug)]
pub enum Direction {
    N,
    NE,
    E,
    SE,
    S,
    SW,
    W,
    NW,
}

/// The error type of the `geohash` crate. Opaque here: the library only
/// tells that a call failed, and answers with an error of its own.
#[verifier::external_type_specification]
#[verifier::external_body]
pub struct ExGeohashError(geohash::GeohashError);

/// The SHA-256 digest of a sequence of bytes.
pub uninterp spec fn sha256_digest(data: Seq<u8>) -> Seq<u8>;

/// The centre of the cell that a geohash denotes, as `geohash::decode` gives
/// it; `None` where it rejects the string.
pub uninterp spec fn geohash_center(hash: Seq<char>) -> Option<Coordinate>;

/// The geohash of `len` characters of the cell that holds the centre of
/// `hash`: what `geohash::encode` makes of the centre that `geohash::decode`
/// gives. `None` where either rejects its input.
pub uninterp spec fn geohash_cell(hash: Seq<char>, len: int) -> Option<Seq<char>>;

/// The cell next to `hash` in one direction, as `geohash::neighbor` gives it;
/// `None` where it fails.
pub uninterp spec fn geohash_neighbor(hash: Seq<char>, direction: Direction) -> Option<Seq<char>>;

/// The length of a string in bytes.
pub open spec fn byte_len(s: Seq<char>) -> nat {
    encode_utf8(s).len()
}

/// The codec is only asked about strings of 1 to 12 bytes: it rejects longer
/// ones, and is not defined on the empty one.
pub open spec fn well_sized(s: Seq<char>) -> bool {
    1 <= byte_len(s) <= MAX_GEOHASH_LEN
}

/// A geohash that decodes.
pub open spec fn valid_geohash(hash: Seq<char>) -> bool {
    well_sized(hash) && geohash_center(hash) is Some
}

/// The key under which a cell is filed: the SHA-256 digest of its UTF-8 bytes.
pub open spec fn fingerprint(cell: Seq<char>) -> Seq<u8> {
    sha256_digest(encode_utf8(cell))
}

/// The cell of `len` characters around the centre of `hash`, or the empty
/// string where the codec gives none or cannot be asked.
pub open spec fn cell_or_empty(hash: Seq<char>, len: int) -> Seq<char> {
    if well_sized(hash) {
        match geohash_cell(hash, len) {
            Some(cell) => cell,
            None => Seq::empty(),
        }
    } else {
        Seq::empty()
    }
}

/// Calls `Sha256::new`, `update` and `finalize` of the `sha2` crate on the
/// bytes. Trusted: the 32 bytes returned are the SHA-256 digest of `data`,
/// a function of `data` alone.
#[verifier::external_body]
fn sha256(data: &[u8]) -> (digest: [u8; 32])
    ensures
        digest@ == sha256_digest(data@),
{
    let mut hasher = Sha256::new();
    hasher.update(data);
    let result = hasher.finalize();
    let mut hash: [u8; 32] = [0; 32];
    hash.copy_from_slice(&result);
    hash
}

/// Calls `geohash::decode` and keeps the centre of the cell, each of its two
/// doubles as its bit pattern. Trusted: the centre is a function of the
/// string alone, and the call fails exactly where there is none. The empty
/// string is left out, on which the crate shifts a word by its whole width,
/// and so are strings of more than 12 bytes, which it rejects.
#[verifier::external_body]
fn decode_center(hash: &str) -> (r: Result<Coordinate, geohash::GeohashError>)
    requires
        well_sized(hash@),
    ensures
        match r {
            Ok(center) => geohash_center(hash@) == Some(center),
            Err(_) => geohash_center(hash@) is None,
        },
{
    let (center, _, _) = geohash::decode(hash)?;
    Ok(Coordinate { lon_bits: center.x.to_bits(), lat_bits: center.y.to_bits() })
}

/// Calls `geohash::decode` and hands the centre to `geohash::encode` with the
/// length asked for. Trusted: the string returned is a function of `hash` and
/// `len` alone, and the call fails exactly where there is none.
#[verifier::external_body]
fn encode_center(hash: &str, len: usize) -> (r: Result<String, geohash::GeohashError>)
    requires
        well_sized(hash@),
    ensures
        match r {
            Ok(cell) => geohash_cell(hash@, len as int) == Some(cell@),
            Err(_) => geohash_cell(hash@, len as int) is None,
        },
{
    let (center, _, _) = geohash::decode(hash)?;
    geohash::encode(center, len)
}

/// Calls `geohash::neighbor`. Trusted: the neighbour is a function of the
/// cell and the direction alone, and the call fails exactly where there is
/// none.
#[verifier::external_body]
fn neighbor_of(cell: &str, direction: Direction) -> (r: Result<String, geohash::GeohashError>)
    requires
        well_sized(cell@),
    ensures
        match r {
            Ok(next) => geohash_neighbor(cell@, direction) == Some(next@),
            Err(_) => geohash_neighbor(cell@, direction) is None,
        },
{
    let towards = match direction {
        Direction::N => geohash::Direction::N,
        Direction::NE => geohash::Direction::NE,
        Direction::E => geohash::Direction::E,
        Direction::SE => geohash::Direction::SE,
        Direction::S => geohash::Direction::S,
        Direction::SW => geohash::Direction::SW,
        Direction::W => geohash::Direction::W,
        Direction::NW => geohash::Direction::NW,
    };
    geohash::neighbor(cell, towards)
}

/// Whether the codec can be asked about `s`.
pub fn is_well_sized(s: &str) -> (r: bool)
    ensures
        r == well_sized(s@),
{
    let n: usize = s.as_bytes().len();
    1 <= n && n <= MAX_GEOHASH_LEN
}

/// The fingerprint of a cell.
pub fn get_id(cell: &String) -> (key: [u8; 32])
    ensures
        key@ == fingerprint(cell@),
{
    sha256(cell.as_str().as_bytes())
}

/// The centre of the cell that `geohash` denotes.
///
/// Fails with `DecodeError` exactly on a string that is empty, longer than
/// 12 bytes, or rejected by the codec.
pub fn decode(geohash: &str) -> (r: Result<Coordinate, IndexError>)
    ensures
        r is Ok <==> valid_geohash(geohash@),
        r matches Ok(center) ==> geohash_center(geohash@) == Some(center),
        r matches Err(e) ==> e == IndexError::DecodeError,
{
    if !is_well_sized(geohash) {
        return Err(IndexError::DecodeError);
    }
    match decode_center(geohash) {
        Ok(center) => Ok(center),
        Err(_) => Err(IndexError::DecodeError),
    }
}

/// The cell of `size` characters that holds the centre of `geohash`, or the
/// empty string where the codec gives none.
pub fn encode_coords(geohash: &str, size: usize) -> (cell: String)
    ensures
        cell@ == cell_or_empty(geohash@, size as int),
{
    if !is_well_sized(geohash) {
        return String::new();
    }
    match encode_center(geohash, size) {
        Ok(cell) => cell,
        Err(_) => String::new(),
    }
}

/// The eight directions, in the order in which the neighbours are visited.
pub open spec fn compass() -> Seq<Direction> {
    seq![
        Direction::N,
        Direction::NE,
        Direction::E,
        Direction::SE,
        Direction::S,
        Direction::SW,
        Direction::W,
        Direction::NW,
    ]
}

/// The neighbours of a cell in the given directions, in that order; a
/// direction in which the codec gives none is passed over.
pub open spec fn neighbors_towards(cell: Seq<char>, directions: Seq<Direction>) -> Seq<Seq<char>>
    decreases directions.len(),
{
    if directions.len() == 0 {
        Seq::empty()
    } else {
        let found = neighbors_towards(cell, directions.drop_last());
        match geohash_neighbor(cell, directions.last()) {
            Some(next) => found.push(next),
            None => found,
        }
    }
}

/// The cells around a cell. A string that the codec cannot be asked about
/// has none.
pub open spec fn neighbor_cells(cell: Seq<char>) -> Seq<Seq<char>> {
    if well_sized(cell) {
        neighbors_towards(cell, compass())
    } else {
        Seq::empty()
    }
}

/// The cells around `cell`: its neighbours to the N, NE, E, SE, S, SW, W and
/// NW, without those that the codec does not give.
pub fn neighbors(cell: &String) -> (around: Vec<String>)
    ensures
        texts(around@) == neighbor_cells(cell@),
{
    let mut around: Vec<String> = Vec::new();
    if !is_well_sized(cell.as_str()) {
        proof {
            assert(texts(around@) =~= Seq::<Seq<char>>::empty());
        }
        return around;
    }
    let directions: [Direction; 8] = [
        Direction::N,
        Direction::NE,
        Direction::E,
        Direction::SE,
        Direction::S,
        Direction::SW,
        Direction::W,
        Direction::NW,
    ];
    proof {
        assert(directions@ =~= compass());
        assert(texts(around@) =~= Seq::<Seq<char>>::empty());
    }
    let mut i: usize = 0;
    while i < 8
        invariant
            i <= 8,
            well_sized(cell@),
            directions@ == compass(),
            texts(around@) == neighbors_towards(cell@, compass().take(i as int)),
        decreases 8 - i,
    {
        proof {
            assert(compass().take(i + 1).drop_last() =~= compass().take(i as int));
            assert(compass().take(i + 1).last() == directions[i as int]);
        }
        let ghost before = texts(around@);
        match neighbor_of(cell.as_str(), directions[i]) {
            Ok(next) => {
                around.push(next);
                proof {
                    assert(texts(around@) =~= before.push(next@));
                }
            },
            Err(_) => {},
        }
        i = i + 1;
    }
    proof {
        assert(compass().take(8) =~= compass());
    }
    around
}

} // verus!
