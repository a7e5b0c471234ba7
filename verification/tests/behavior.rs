use fixed::types::I64F64;
use geohash::{Direction, Fix, GeoHash, GeohashError};

fn fx(x: I64F64) -> Fix {
    Fix::from_bits(x.to_bits())
}

fn to_i64f64(x: Fix) -> I64F64 {
    I64F64::from_bits(x.to_bits())
}

const ALPHABET: &[u8] = b"0123456789bcdefghjkmnpqrstuvwxyz";

#[test]
fn encode_output_stays_in_alphabet() {
    let lat = fx(I64F64::from_num(48.858222));
    let lon = fx(I64F64::from_num(2.2945));
    let hash = GeoHash::<12>::try_from_params(lat, lon).unwrap();
    for b in hash.as_bytes().iter() {
        assert!(ALPHABET.contains(b));
    }
}

#[test]
fn alphabet_hashes_always_decode() {
    // A hash holding every alphabet symbol once decodes without error.
    let hash = GeoHash::<32>::try_from_str("0123456789bcdefghjkmnpqrstuvwxyz").unwrap();
    assert!(hash.try_as_coordinates().is_ok());
}

#[test]
fn char_values_match_alphabet_positions() {
    for (i, b) in ALPHABET.iter().enumerate() {
        assert_eq!(geohash::hash_value_of_char(*b as char).unwrap(), i);
    }
    for c in ['a', 'i', 'l', 'o', 'A', 'Z', ' ', '/', '{'] {
        assert!(matches!(
            geohash::hash_value_of_char(c),
            Err(GeohashError::InvalidHashCharacter(d)) if d == c
        ));
    }
}

#[test]
fn out_of_range_coordinates_are_rejected() {
    let lon = I64F64::from_num(190);
    let lat = I64F64::from_num(-100);
    assert_eq!(
        GeoHash::<3>::try_from_params(fx(lat), fx(lon)).unwrap_err(),
        GeohashError::InvalidCoordinateRange(fx(lon), fx(lat))
    );

    // Each axis alone is enough to fail.
    let ok = I64F64::from_num(10);
    assert!(GeoHash::<3>::try_from_params(fx(I64F64::from_num(91)), fx(ok)).is_err());
    assert!(GeoHash::<3>::try_from_params(fx(I64F64::from_num(-91)), fx(ok)).is_err());
    assert!(GeoHash::<3>::try_from_params(fx(ok), fx(I64F64::from_num(181))).is_err());
    assert!(GeoHash::<3>::try_from_params(fx(ok), fx(I64F64::from_num(-181))).is_err());

    // The boundary itself is legal.
    assert!(GeoHash::<3>::try_from_params(fx(I64F64::from_num(90)), fx(I64F64::from_num(180)))
        .is_ok());
    assert!(GeoHash::<3>::try_from_params(fx(I64F64::from_num(-90)), fx(I64F64::from_num(-180)))
        .is_ok());
}

#[test]
fn wrong_length_is_rejected() {
    assert_eq!(
        GeoHash::<4>::try_from_str("9g3").unwrap_err(),
        GeohashError::InvalidLen
    );
    assert_eq!(
        GeoHash::<2>::try_from_str("9g3").unwrap_err(),
        GeohashError::InvalidLen
    );
    assert_eq!(
        GeoHash::<4>::try_from_bytes(b"9g3q0").unwrap_err(),
        GeohashError::InvalidLen
    );
}

#[test]
fn non_alphabet_symbol_is_reported() {
    assert_eq!(
        GeoHash::<4>::try_from_str("abcd").unwrap_err(),
        GeohashError::InvalidHashCharacter('a')
    );
    assert_eq!(
        GeoHash::<4>::try_from_str("9g!q").unwrap_err(),
        GeohashError::InvalidHashCharacter('!')
    );
}

#[test]
fn known_vector_exact_decode() {
    // The cell of "9q60y" has exactly representable bounds.
    let (lon, lat, lon_err, lat_err) = GeoHash::<5>::try_from_str("9q60y")
        .unwrap()
        .try_as_coordinates()
        .unwrap();
    assert_eq!(to_i64f64(lon), I64F64::from_num(-120.65185546875));
    assert_eq!(to_i64f64(lat), I64F64::from_num(35.31005859375));
    assert_eq!(to_i64f64(lon_err), I64F64::from_num(0.02197265625));
    assert_eq!(to_i64f64(lat_err), I64F64::from_num(0.02197265625));
}

#[test]
fn round_trip_stays_within_margins() {
    let lat = I64F64::from_num(37.8324);
    let lon = I64F64::from_num(112.5584);
    let mut previous_errs: Option<(I64F64, I64F64)> = None;
    for hash in [
        GeoHash::<3>::try_from_params(fx(lat), fx(lon))
            .unwrap()
            .try_as_coordinates()
            .unwrap(),
        GeoHash::<6>::try_from_params(fx(lat), fx(lon))
            .unwrap()
            .try_as_coordinates()
            .unwrap(),
        GeoHash::<9>::try_from_params(fx(lat), fx(lon))
            .unwrap()
            .try_as_coordinates()
            .unwrap(),
    ] {
        let (clon, clat, lon_err, lat_err) = hash;
        let clon = to_i64f64(clon);
        let clat = to_i64f64(clat);
        let lon_err = to_i64f64(lon_err);
        let lat_err = to_i64f64(lat_err);
        assert!((lon - clon).abs() <= lon_err);
        assert!((lat - clat).abs() <= lat_err);
        if let Some((plon, plat)) = previous_errs {
            assert!(lon_err <= plon);
            assert!(lat_err <= plat);
        }
        previous_errs = Some((lon_err, lat_err));
    }
}

#[test]
fn operations_are_deterministic() {
    let lat = fx(I64F64::from_num(-33.8688));
    let lon = fx(I64F64::from_num(151.2093));
    let h1 = GeoHash::<8>::try_from_params(lat, lon).unwrap();
    let h2 = GeoHash::<8>::try_from_params(lat, lon).unwrap();
    assert_eq!(h1, h2);
    assert_eq!(
        h1.try_as_coordinates().unwrap(),
        h2.try_as_coordinates().unwrap()
    );
    assert_eq!(
        h1.neighbor(Direction::NE).unwrap(),
        h2.neighbor(Direction::NE).unwrap()
    );
}

#[test]
fn neighbor_north_then_south_returns() {
    let h = GeoHash::<9>::try_from_str("ww8p1r4t8").unwrap();
    let north = h.neighbor(Direction::N).unwrap();
    let back = north.neighbor(Direction::S).unwrap();
    assert_eq!(back, h);
}

#[test]
fn neighbors_preserve_length() {
    let ns = GeoHash::<4>::try_from_str("9g3m").unwrap().neighbors().unwrap();
    for h in [ns.sw, ns.s, ns.se, ns.w, ns.e, ns.nw, ns.n, ns.ne] {
        assert_eq!(h.as_bytes().len(), 4);
    }
}

#[test]
fn no_wrapping_at_the_poles_or_meridian() {
    // "zzzz" is the cell at the north-east corner of the grid.
    let corner = GeoHash::<4>::try_from_str("zzzz").unwrap();
    assert!(matches!(
        corner.neighbor(Direction::N),
        Err(GeohashError::InvalidCoordinateRange(_, _))
    ));
    assert!(corner.neighbor(Direction::E).is_err());
    assert!(corner.neighbor(Direction::NE).is_err());
    assert!(corner.neighbor(Direction::S).is_ok());
    assert!(corner.neighbor(Direction::W).is_ok());
    assert!(corner.neighbor(Direction::SW).is_ok());
    assert!(corner.neighbors().is_err());

    // "0000" is the cell at the south-west corner.
    let corner = GeoHash::<4>::try_from_str("0000").unwrap();
    assert!(corner.neighbor(Direction::S).is_err());
    assert!(corner.neighbor(Direction::W).is_err());
    assert!(corner.neighbor(Direction::N).is_ok());
    assert!(corner.neighbor(Direction::E).is_ok());
}

#[test]
fn zero_length_hash_decodes_to_whole_world() {
    let empty = GeoHash::<0>::try_from_str("").unwrap();
    let (lon, lat, lon_err, lat_err) = empty.try_as_coordinates().unwrap();
    assert_eq!(to_i64f64(lon), I64F64::from_num(0));
    assert_eq!(to_i64f64(lat), I64F64::from_num(0));
    assert_eq!(to_i64f64(lon_err), I64F64::from_num(180));
    assert_eq!(to_i64f64(lat_err), I64F64::from_num(90));
    // Every direction steps a whole world away, so no neighbor exists.
    assert!(empty.neighbors().is_err());
}

#[test]
fn bytes_round_trip() {
    let h = GeoHash::<4>::try_from_str("9g3m").unwrap();
    assert_eq!(h.as_bytes().as_slice(), b"9g3m");
    let again = GeoHash::<4>::try_from_bytes(h.clone().into_bytes().as_slice()).unwrap();
    assert_eq!(again, h);
}
