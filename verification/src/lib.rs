//! Geohash encoding and decoding.
//!
//! A geohash is a short base-32 string that names a rectangular cell of the
//! earth's surface: each successive symbol bisects the current cell, so a
//! longer hash names a smaller cell, and a common prefix implies spatial
//! proximity. This crate encodes a (latitude, longitude) pair into a hash of
//! a fixed length, decodes a hash back to a center coordinate with exact
//! error margins, and derives the eight adjacent hashes of a cell.
//!
//! Coordinates are signed fixed-point numbers with 64 fractional bits, held
//! in [`Fix`]. The contracts speak of the model in [`model`]: what a hash's
//! bytes are as a sequence, and which cell a sequence of bisection bits
//! names.

use vstd::prelude::*;

mod error;
mod fix;
pub mod model;
mod neighbors;
pub mod properties;

pub use error::GeohashError;
pub use fix::Fix;
pub use neighbors::{Direction, Neighbors};

use vstd::string::StringSliceAdditionalSpecFns;

use crate::fix::{half_bits, UNIT_BITS};
use crate::model::{
    all_neighbors_ok, alphabet_byte, bit_val, byte_value, center_lat, center_lon, code_value,
    coords_in_range, decode_bounds, decoded_box, encode_bit, encode_bounds, encoded_seq, err_lat,
    err_lon, hash_bit, is_alphabet_byte, is_alphabet_code, lemma_alphabet_byte_valid,
    lemma_decode_bounds_ordered, lemma_encode_bounds_ordered, lemma_half_between,
    lemma_neighbor_shift, lemma_symbol_prefix_bound, neighbor_ok, neighbor_seq, range_error,
    shrink, symbol_prefix, symbol_value, target_bit, valid_hash, Bounds, LAT_LIMIT_BITS,
    LON_LIMIT_BITS,
};
use crate::properties::lemma_alphabet_closure;

verus! {

/// A geohash: exactly `LEN` symbols of the base-32 alphabet
/// `0123456789bcdefghjkmnpqrstuvwxyz`.
#[derive(Debug, PartialEq, Eq, PartialOrd, Ord, Hash)]
pub struct GeoHash<const LEN: usize> {
    bytes: Vec<u8>,
}

impl<const LEN: usize> Clone for GeoHash<LEN> {
    /// A clone holds the same symbols.
    fn clone(&self) -> (r: Self)
        ensures
            r@ == self@,
    {
        proof {
            use_type_invariant(self);
        }
        let bytes = self.bytes.clone();
        proof {
            assert(bytes@ =~= self.bytes@);
        }
        GeoHash { bytes }
    }
}

/// A coordinate: a longitude and a latitude.
#[derive(Clone, Copy, Debug)]
struct Coordinate {
    lon: Fix,
    lat: Fix,
}

/// A bounding box: the south-west and north-east corners of a cell.
#[derive(Clone, Copy, Debug)]
struct Rectangle {
    min: Coordinate,
    max: Coordinate,
}

impl<const LEN: usize> View for GeoHash<LEN> {
    type V = Seq<u8>;

    closed spec fn view(&self) -> Seq<u8> {
        self.bytes@
    }
}

impl<const LEN: usize> GeoHash<LEN> {
    /// Every geohash holds exactly `LEN` symbols, all in the alphabet.
    #[verifier::type_invariant]
    closed spec fn well_formed(self) -> bool {
        self.bytes@.len() == LEN && valid_hash(self.bytes@)
    }

    /// The hash's symbols. Always `LEN` bytes, all in the alphabet.
    pub fn as_bytes(&self) -> (r: &Vec<u8>)
        ensures
            r@ == self@,
            r@.len() == LEN,
            valid_hash(r@),
    {
        proof {
            use_type_invariant(self);
        }
        &self.bytes
    }

    /// The hash's symbols, by value.
    pub fn into_bytes(self) -> (r: Vec<u8>)
        ensures
            r@ == self@,
            r@.len() == LEN,
            valid_hash(r@),
    {
        proof {
            use_type_invariant(&self);
        }
        self.bytes
    }

    /// Encodes a coordinate as a geohash of `LEN` symbols, by `5 * LEN`
    /// bisection steps that alternate between the longitude and latitude
    /// axes. Fails exactly when the latitude lies outside [-90, 90] degrees
    /// or the longitude outside [-180, 180] degrees, reporting the offending
    /// (longitude, latitude) pair.
    #[verifier::rlimit(60)]
    pub fn try_from_params(lat: Fix, lon: Fix) -> (r: Result<GeoHash<LEN>, GeohashError>)
        ensures
            coords_in_range(lat@, lon@) ==> (r matches Ok(h) && h@ == encoded_seq(
                lat@,
                lon@,
                LEN as nat,
            )),
            !coords_in_range(lat@, lon@) ==> r == Err::<GeoHash<LEN>, GeohashError>(
                GeohashError::InvalidCoordinateRange(lon, lat),
            ),
    {
        let lat_bits = lat.to_bits();
        let lon_bits = lon.to_bits();

        let mut max_lat: i128 = LAT_LIMIT_BITS;
        let mut min_lat: i128 = -LAT_LIMIT_BITS;
        let mut max_lon: i128 = LON_LIMIT_BITS;
        let mut min_lon: i128 = -LON_LIMIT_BITS;

        if lon_bits < min_lon || lon_bits > max_lon || lat_bits < min_lat || lat_bits > max_lat {
            return Err(GeohashError::InvalidCoordinateRange(lon, lat));
        }

        let mut out: Vec<u8> = Vec::new();
        let mut even_bit: bool = true;

        for i in 0..LEN
            invariant
                coords_in_range(lat@, lon@),
                lat_bits as int == lat@,
                lon_bits as int == lon@,
                out@ == encoded_seq(lat@, lon@, i as nat),
                even_bit == ((5 * i) % 2 == 0),
                (Bounds {
                    min_lat: min_lat as int,
                    max_lat: max_lat as int,
                    min_lon: min_lon as int,
                    max_lon: max_lon as int,
                }) == encode_bounds(lat@, lon@, (5 * i) as nat),
        {
            let mut hash_value: u8 = 0;
            for k in 0..5usize
                invariant
                    coords_in_range(lat@, lon@),
                    lat_bits as int == lat@,
                    lon_bits as int == lon@,
                    i < LEN,
                    hash_value as int == symbol_prefix(lat@, lon@, i as nat, k as nat),
                    even_bit == ((5 * i + k) % 2 == 0),
                    (Bounds {
                        min_lat: min_lat as int,
                        max_lat: max_lat as int,
                        min_lon: min_lon as int,
                        max_lon: max_lon as int,
                    }) == encode_bounds(lat@, lon@, (5 * i + k) as nat),
            {
                let ghost n = (5 * i + k) as nat;
                proof {
                    lemma_encode_bounds_ordered(lat@, lon@, n);
                    lemma_symbol_prefix_bound(lat@, lon@, i as nat, k as nat);
                }
                if even_bit {
                    let mid = half_bits(min_lon + max_lon);
                    if lon_bits > mid {
                        hash_value = 2 * hash_value + 1;
                        min_lon = mid;
                    } else {
                        hash_value = 2 * hash_value;
                        max_lon = mid;
                    }
                } else {
                    let mid = half_bits(min_lat + max_lat);
                    if lat_bits > mid {
                        hash_value = 2 * hash_value + 1;
                        min_lat = mid;
                    } else {
                        hash_value = 2 * hash_value;
                        max_lat = mid;
                    }
                }
                even_bit = !even_bit;
                proof {
                    let b = encode_bounds(lat@, lon@, n);
                    let bit = target_bit(b, lat@, lon@, n as int);
                    assert(encode_bounds(lat@, lon@, (n + 1) as nat) == shrink(b, n as int, bit));
                    assert(symbol_prefix(lat@, lon@, i as nat, (k + 1) as nat) == 2
                        * symbol_prefix(lat@, lon@, i as nat, k as nat) + bit_val(
                        encode_bit(lat@, lon@, n),
                    ));
                }
            }
            proof {
                lemma_symbol_prefix_bound(lat@, lon@, i as nat, 5);
                lemma_alphabet_byte_valid(symbol_value(lat@, lon@, i as nat));
            }
            let code = symbol_byte(hash_value);
            out.push(code);
            proof {
                assert(out@ =~= encoded_seq(lat@, lon@, (i + 1) as nat));
            }
        }

        proof {
            lemma_alphabet_closure(lat@, lon@, LEN as nat);
        }
        Ok(GeoHash { bytes: out })
    }

    /// Builds a hash from raw bytes. Succeeds exactly when the input holds
    /// `LEN` bytes and every one of them is an alphabet symbol; otherwise
    /// reports the length mismatch, or the first byte outside the alphabet.
    pub fn try_from_bytes(value: &[u8]) -> (r: Result<GeoHash<LEN>, GeohashError>)
        ensures
            value@.len() == LEN && valid_hash(value@) ==> (r matches Ok(h) && h@ == value@),
            value@.len() != LEN ==> r == Err::<GeoHash<LEN>, GeohashError>(
                GeohashError::InvalidLen,
            ),
            value@.len() == LEN && !valid_hash(value@) ==> (r matches Err(e) && exists|i: int|
                {
                    &&& 0 <= i < value@.len()
                    &&& !is_alphabet_byte(value@[i])
                    &&& forall|j: int| 0 <= j < i ==> is_alphabet_byte(value@[j])
                    &&& e == GeohashError::InvalidHashCharacter(value@[i] as char)
                }),
    {
        if value.len() != LEN {
            return Err(GeohashError::InvalidLen);
        }

        let mut bytes: Vec<u8> = Vec::new();
        for i in 0..value.len()
            invariant
                value@.len() == LEN,
                bytes@ == value@.take(i as int),
                forall|j: int| 0 <= j < i ==> is_alphabet_byte(#[trigger] value@[j]),
        {
            let b = value[i];
            match hash_value_of_char(b as char) {
                Ok(_) => {}
                Err(e) => {
                    return Err(e);
                }
            }
            bytes.push(b);
        }

        proof {
            assert(bytes@ =~= value@);
        }
        Ok(GeoHash { bytes })
    }

    /// Decodes the hash into the bounding box of the cell it names, by
    /// replaying its `5 * LEN` bisection bits. The symbols are looked up in
    /// the alphabet again here; since a hash only ever holds alphabet
    /// symbols, the lookup, and so the decoding, always succeeds.
    fn decode_bbox(&self) -> (r: Result<Rectangle, GeohashError>)
        ensures
            r matches Ok(rect) && {
                &&& rect.min.lon@ == decoded_box(self@).min_lon
                &&& rect.min.lat@ == decoded_box(self@).min_lat
                &&& rect.max.lon@ == decoded_box(self@).max_lon
                &&& rect.max.lat@ == decoded_box(self@).max_lat
            },
    {
        proof {
            use_type_invariant(self);
        }

        let mut is_lon: bool = true;
        let mut max_lat: i128 = LAT_LIMIT_BITS;
        let mut min_lat: i128 = -LAT_LIMIT_BITS;
        let mut max_lon: i128 = LON_LIMIT_BITS;
        let mut min_lon: i128 = -LON_LIMIT_BITS;

        for i in 0..self.bytes.len()
            invariant
                self.bytes@.len() == LEN,
                valid_hash(self.bytes@),
                self@ == self.bytes@,
                is_lon == ((5 * i) % 2 == 0),
                (Bounds {
                    min_lat: min_lat as int,
                    max_lat: max_lat as int,
                    min_lon: min_lon as int,
                    max_lon: max_lon as int,
                }) == decode_bounds(self@, (5 * i) as nat),
        {
            let b = self.bytes[i];
            let hash_value = match hash_value_of_char(b as char) {
                Ok(v) => v,
                Err(e) => {
                    return Err(e);
                }
            };
            assert(hash_value == byte_value(self@[i as int]));
            assert(hash_value < 32);

            for bs in 0..5usize
                invariant
                    self.bytes@.len() == LEN,
                    i < LEN,
                    hash_value == byte_value(self@[i as int]),
                    hash_value < 32,
                    is_lon == ((5 * i + bs) % 2 == 0),
                    (Bounds {
                        min_lat: min_lat as int,
                        max_lat: max_lat as int,
                        min_lon: min_lon as int,
                        max_lon: max_lon as int,
                    }) == decode_bounds(self@, (5 * i + bs) as nat),
            {
                let ghost n = (5 * i + bs) as nat;
                proof {
                    lemma_decode_bounds_ordered(self@, n);
                    assert(n as int / 5 == i as int && n as int % 5 == bs as int);
                }
                let divisor: usize = if bs == 0 {
                    16
                } else if bs == 1 {
                    8
                } else if bs == 2 {
                    4
                } else if bs == 3 {
                    2
                } else {
                    1
                };
                let bit = hash_value / divisor % 2 == 1;
                assert(bit == hash_bit(self@, n as int));
                if is_lon {
                    let mid = half_bits(min_lon + max_lon);
                    if bit {
                        min_lon = mid;
                    } else {
                        max_lon = mid;
                    }
                } else {
                    let mid = half_bits(min_lat + max_lat);
                    if bit {
                        min_lat = mid;
                    } else {
                        max_lat = mid;
                    }
                }
                is_lon = !is_lon;
                proof {
                    assert(decode_bounds(self@, (n + 1) as nat) == shrink(
                        decode_bounds(self@, n),
                        n as int,
                        hash_bit(self@, n as int),
                    ));
                }
            }
        }

        Ok(
            Rectangle {
                min: Coordinate { lon: Fix::from_bits(min_lon), lat: Fix::from_bits(min_lat) },
                max: Coordinate { lon: Fix::from_bits(max_lon), lat: Fix::from_bits(max_lat) },
            },
        )
    }

    /// Decodes the hash into the center of its cell and the cell's exact
    /// half-widths, `(longitude, latitude, longitude error, latitude
    /// error)`: the true coordinate of anything in the cell lies within the
    /// error margins of the center. Never fails on a constructed hash.
    pub fn try_as_coordinates(&self) -> (r: Result<(Fix, Fix, Fix, Fix), GeohashError>)
        ensures
            r matches Ok(c) && {
                &&& c.0@ == center_lon(self@)
                &&& c.1@ == center_lat(self@)
                &&& c.2@ == err_lon(self@)
                &&& c.3@ == err_lat(self@)
            },
    {
        let rect = self.decode_bbox()?;
        let c0 = rect.min;
        let c1 = rect.max;
        proof {
            use_type_invariant(self);
            lemma_decode_bounds_ordered(self@, (5 * self@.len()) as nat);
        }
        let lon = half_bits(c0.lon.to_bits() + c1.lon.to_bits());
        let lat = half_bits(c0.lat.to_bits() + c1.lat.to_bits());
        let lon_err = half_bits(c1.lon.to_bits() - c0.lon.to_bits());
        let lat_err = half_bits(c1.lat.to_bits() - c0.lat.to_bits());
        Ok(
            (
                Fix::from_bits(lon),
                Fix::from_bits(lat),
                Fix::from_bits(lon_err),
                Fix::from_bits(lat_err),
            ),
        )
    }

    /// The neighboring geohash one cell away in the given direction, at the
    /// same length: the cell's center, shifted by twice the error margin on
    /// each moved axis, re-encoded. Fails exactly when the shifted
    /// coordinate leaves the legal ranges — a cell touching the 180th
    /// meridian or a pole has no neighbor beyond the boundary, and no
    /// wrapping is attempted.
    pub fn neighbor(&self, direction: Direction) -> (r: Result<GeoHash<LEN>, GeohashError>)
        ensures
            neighbor_ok(self@, direction) ==> (r matches Ok(h) && h@ == neighbor_seq(
                self@,
                direction,
                LEN as nat,
            )),
            !neighbor_ok(self@, direction) ==> r == Err::<GeoHash<LEN>, GeohashError>(
                range_error(self@, direction),
            ),
    {
        let (lon, lat, lon_err, lat_err) = self.try_as_coordinates()?;
        let (dlat, dlng) = direction.to_tuple();
        proof {
            use_type_invariant(self);
            lemma_decode_bounds_ordered(self@, (5 * self@.len()) as nat);
            lemma_half_between(decoded_box(self@).min_lon, decoded_box(self@).max_lon);
            lemma_half_between(decoded_box(self@).min_lat, decoded_box(self@).max_lat);
        }
        let neighbor_lon_bits = offset_by_error(
            lon.to_bits(),
            lon_err.abs().to_bits(),
            dlng.to_bits(),
        );
        let neighbor_lat_bits = offset_by_error(
            lat.to_bits(),
            lat_err.abs().to_bits(),
            dlat.to_bits(),
        );
        proof {
            lemma_neighbor_shift(self@, direction);
        }
        GeoHash::try_from_params(Fix::from_bits(neighbor_lat_bits), Fix::from_bits(neighbor_lon_bits))
    }

    /// All eight neighboring geohashes, one per compass direction, each of
    /// length `LEN`. Fails atomically if any neighbor coordinate leaves the
    /// legal ranges, with that direction's error; no partial set is
    /// returned.
    pub fn neighbors(&self) -> (r: Result<Neighbors<LEN>, GeohashError>)
        ensures
            all_neighbors_ok(self@) ==> (r matches Ok(ns) && {
                &&& ns.sw@ == neighbor_seq(self@, Direction::SW, LEN as nat)
                &&& ns.s@ == neighbor_seq(self@, Direction::S, LEN as nat)
                &&& ns.se@ == neighbor_seq(self@, Direction::SE, LEN as nat)
                &&& ns.w@ == neighbor_seq(self@, Direction::W, LEN as nat)
                &&& ns.e@ == neighbor_seq(self@, Direction::E, LEN as nat)
                &&& ns.nw@ == neighbor_seq(self@, Direction::NW, LEN as nat)
                &&& ns.n@ == neighbor_seq(self@, Direction::N, LEN as nat)
                &&& ns.ne@ == neighbor_seq(self@, Direction::NE, LEN as nat)
            }),
            !all_neighbors_ok(self@) ==> (r matches Err(e) && exists|d: Direction|
                !neighbor_ok(self@, d) && e == range_error(self@, d)),
    {
        let sw = self.neighbor(Direction::SW)?;
        let s = self.neighbor(Direction::S)?;
        let se = self.neighbor(Direction::SE)?;
        let w = self.neighbor(Direction::W)?;
        let e = self.neighbor(Direction::E)?;
        let nw = self.neighbor(Direction::NW)?;
        let n = self.neighbor(Direction::N)?;
        let ne = self.neighbor(Direction::NE)?;
        proof {
            assert forall|d: Direction| #[trigger] neighbor_ok(self@, d) by {
                match d {
                    Direction::N => assert(neighbor_ok(self@, Direction::N)),
                    Direction::NE => assert(neighbor_ok(self@, Direction::NE)),
                    Direction::E => assert(neighbor_ok(self@, Direction::E)),
                    Direction::SE => assert(neighbor_ok(self@, Direction::SE)),
                    Direction::S => assert(neighbor_ok(self@, Direction::S)),
                    Direction::SW => assert(neighbor_ok(self@, Direction::SW)),
                    Direction::W => assert(neighbor_ok(self@, Direction::W)),
                    Direction::NW => assert(neighbor_ok(self@, Direction::NW)),
                }
            }
        }
        Ok(Neighbors { sw, s, se, w, e, nw, n, ne })
    }

    /// Builds a hash from a string's bytes, as [`Self::try_from_bytes`]
    /// does from the bytes themselves.
    pub fn try_from_str(value: &str) -> (r: Result<GeoHash<LEN>, GeohashError>)
        ensures
            value.spec_bytes().len() == LEN && valid_hash(value.spec_bytes()) ==> (
            r matches Ok(h) && h@ == value.spec_bytes()),
            value.spec_bytes().len() != LEN ==> r == Err::<GeoHash<LEN>, GeohashError>(
                GeohashError::InvalidLen,
            ),
            value.spec_bytes().len() == LEN && !valid_hash(value.spec_bytes()) ==> (
            r matches Err(e) && exists|i: int|
                {
                    &&& 0 <= i < value.spec_bytes().len()
                    &&& !is_alphabet_byte(value.spec_bytes()[i])
                    &&& forall|j: int| 0 <= j < i ==> is_alphabet_byte(value.spec_bytes()[j])
                    &&& e == GeohashError::InvalidHashCharacter(value.spec_bytes()[i] as char)
                }),
    {
        Self::try_from_bytes(value.as_bytes())
    }
}

/// Shifts a coordinate by twice an error margin, in the direction given by
/// a fixed-point sign of value -1, 0 or 1.
fn offset_by_error(base: i128, err: i128, sign_bits: i128) -> (r: i128)
    requires
        -(LON_LIMIT_BITS as int) <= base <= LON_LIMIT_BITS as int,
        0 <= err <= LON_LIMIT_BITS as int,
        sign_bits as int == -(UNIT_BITS as int) || sign_bits == 0 || sign_bits as int
            == UNIT_BITS as int,
    ensures
        sign_bits > 0 ==> r as int == base + 2 * err,
        sign_bits < 0 ==> r as int == base - 2 * err,
        sign_bits == 0 ==> r as int == base,
{
    let step = 2 * err;
    if sign_bits > 0 {
        base + step
    } else if sign_bits < 0 {
        base - step
    } else {
        base
    }
}

/// The alphabet character of a symbol value in 0..31.
fn symbol_byte(v: u8) -> (r: u8)
    requires
        v < 32,
    ensures
        r == alphabet_byte(v as int),
{
    if v < 10 {
        48 + v
    } else if v < 17 {
        88 + v
    } else if v < 19 {
        89 + v
    } else if v < 21 {
        90 + v
    } else {
        91 + v
    }
}

/// The value (0..31) of an alphabet character; any character outside the
/// alphabet's five code point ranges is rejected.
pub fn hash_value_of_char(c: char) -> (r: Result<usize, GeohashError>)
    ensures
        is_alphabet_code(c as int) ==> r == Ok::<usize, GeohashError>(
            code_value(c as int) as usize,
        ),
        !is_alphabet_code(c as int) ==> r == Err::<usize, GeohashError>(
            GeohashError::InvalidHashCharacter(c),
        ),
{
    let ord = c as u32;
    if 48 <= ord && ord <= 57 {
        Ok((ord - 48) as usize)
    } else if 98 <= ord && ord <= 104 {
        Ok((ord - 88) as usize)
    } else if 106 <= ord && ord <= 107 {
        Ok((ord - 89) as usize)
    } else if 109 <= ord && ord <= 110 {
        Ok((ord - 90) as usize)
    } else if 112 <= ord && ord <= 122 {
        Ok((ord - 91) as usize)
    } else {
        Err(GeohashError::InvalidHashCharacter(c))
    }
}

} // verus!
