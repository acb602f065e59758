use earthstream_geo::codec::{decode, encode_coords, get_id, is_well_sized, neighbors};
use earthstream_geo::ids::{bytes_order, id_order};
use earthstream_geo::keys::key_order;
use earthstream_geo::IndexError;

fn hex(bytes: &[u8]) -> String {
    let mut out = String::new();
    for b in bytes {
        out.push_str(&format!("{:02x}", b));
    }
    out
}

#[test]
fn fingerprint_is_sha256_of_the_cell() {
    assert_eq!(
        hex(&get_id(&"abc".to_string())),
        "ba7816bf8f01cfea414140de5dae2223b00361a396177a9cb410ff61f20015ad"
    );
    assert_eq!(
        hex(&get_id(&String::new())),
        "e3b0c44298fc1c149afbf4c8996fb92427ae41e4649b934ca495991b7852b855"
    );
    assert_eq!(
        hex(&get_id(&"s".to_string())),
        "043a718774c572bd8a25adbeb1bfcd5c0256ae11cecf9f9c3f925d0e52beaf89"
    );
}

#[test]
fn decode_gives_the_centre_of_the_cell() {
    let center = decode("9q60y").unwrap();
    assert_eq!(f64::from_bits(center.lon_bits), -120.65185546875);
    assert_eq!(f64::from_bits(center.lat_bits), 35.31005859375);
}

#[test]
fn decode_refuses_malformed_geohashes() {
    assert_eq!(decode(""), Err(IndexError::DecodeError));
    assert_eq!(decode("a"), Err(IndexError::DecodeError));
    assert_eq!(decode("s0 0"), Err(IndexError::DecodeError));
    assert_eq!(decode("9q60y60rhs9q6"), Err(IndexError::DecodeError));
    assert_eq!(decode("0.0,0.0"), Err(IndexError::DecodeError));
    assert_eq!(decode("\u{00e9}"), Err(IndexError::DecodeError));
    assert!(decode("9q60y60rhs9q").is_ok());
    assert!(decode("0").is_ok());
}

#[test]
fn well_sized_counts_bytes() {
    assert!(!is_well_sized(""));
    assert!(is_well_sized("s"));
    assert!(is_well_sized("123456789012"));
    assert!(!is_well_sized("1234567890123"));
    assert!(!is_well_sized("\u{00e9}\u{00e9}\u{00e9}\u{00e9}\u{00e9}\u{00e9}\u{00e9}"));
}

#[test]
fn encode_coords_gives_the_cell_around_the_centre() {
    assert_eq!(encode_coords("9q60y60rhs", 5), "9q60y");
    assert_eq!(encode_coords("9q60y60rhs", 1), "9");
    assert_eq!(encode_coords("s00000000", 6), "s00000");
    assert_eq!(encode_coords("s1z0gs3y0", 3), "s1z");
    assert_eq!(encode_coords("9q60y", 5), "9q60y");
}

#[test]
fn encode_coords_is_empty_where_the_codec_gives_no_cell() {
    assert_eq!(encode_coords("9q60y", 0), "");
    assert_eq!(encode_coords("9q60y", 13), "");
    assert_eq!(encode_coords("not a hash", 3), "");
}

#[test]
fn round_trip_stays_inside_the_cell() {
    let hashes = ["s00000000", "s000000tz", "s1z0gs3y0", "9q60y60rhs", "zzzzzzzzz", "000000000"];
    for hash in hashes {
        let center = decode(hash).unwrap();
        let lon = f64::from_bits(center.lon_bits);
        let lat = f64::from_bits(center.lat_bits);
        for size in 1..=6usize {
            let cell = encode_coords(hash, size);
            assert_eq!(cell.len(), size);
            let bounds = geohash::decode_bbox(&cell).unwrap();
            assert!(bounds.min().x <= lon && lon <= bounds.max().x);
            assert!(bounds.min().y <= lat && lat <= bounds.max().y);
            let again = decode(&cell).unwrap();
            let x = f64::from_bits(again.lon_bits);
            let y = f64::from_bits(again.lat_bits);
            assert!(bounds.min().x <= x && x <= bounds.max().x);
            assert!(bounds.min().y <= y && y <= bounds.max().y);
        }
    }
}

#[test]
fn neighbors_come_in_compass_order() {
    let around = neighbors(&"9q60y60rhs".to_string());
    assert_eq!(
        around,
        vec![
            "9q60y60rht",
            "9q60y60rhv",
            "9q60y60rhu",
            "9q60y60rhg",
            "9q60y60rhe",
            "9q60y60rh7",
            "9q60y60rhk",
            "9q60y60rhm",
        ]
    );
}

#[test]
fn a_string_that_is_no_cell_has_no_neighbors() {
    assert!(neighbors(&String::new()).is_empty());
    assert!(neighbors(&"not a hash".to_string()).is_empty());
    assert!(neighbors(&"9q60y60rhs9q6".to_string()).is_empty());
}

#[test]
fn fingerprints_are_ordered_as_numbers() {
    let mut low = [0u8; 32];
    let mut high = [0u8; 32];
    assert_eq!(key_order(&low, &high), (false, false));
    high[31] = 1;
    assert_eq!(key_order(&low, &high), (true, false));
    assert_eq!(key_order(&high, &low), (false, true));
    low[0] = 1;
    assert_eq!(key_order(&low, &high), (false, true));
    high[0] = 2;
    low[31] = 255;
    assert_eq!(key_order(&low, &high), (true, false));
}

#[test]
fn identifiers_are_ordered_by_their_bytes() {
    assert_eq!(bytes_order(b"", b""), (false, false));
    assert_eq!(bytes_order(b"", b"a"), (true, false));
    assert_eq!(bytes_order(b"a", b""), (false, true));
    assert_eq!(bytes_order(b"abc", b"abd"), (true, false));
    assert_eq!(bytes_order(b"abd", b"abc"), (false, true));
    assert_eq!(bytes_order(b"ab", b"abc"), (true, false));
    assert_eq!(bytes_order(b"b", b"abc"), (false, true));
    assert_eq!(bytes_order(b"abc", b"abc"), (false, false));
    for a in ["", "a", "ab", "b", "B", "\u{00e9}", "zz"] {
        for b in ["", "a", "ab", "b", "B", "\u{00e9}", "zz"] {
            let expected = (a.as_bytes() < b.as_bytes(), b.as_bytes() < a.as_bytes());
            assert_eq!(id_order(&a.to_string(), &b.to_string()), expected, "{:?} {:?}", a, b);
        }
    }
}
