//! The laws of the encoding, stated and proved over the model.
//!
//! Each public proof function here records a property that holds of the
//! library as a whole, phrased over the spec functions that the executable
//! functions' contracts use: what [`crate::GeoHash::try_from_params`]
//! returns is `encoded_seq`, what [`crate::GeoHash::try_as_coordinates`]
//! returns is `center_lon` / `center_lat` / `err_lon` / `err_lat`, and what
//! [`crate::GeoHash::neighbor`] returns is `neighbor_seq`.

use vstd::prelude::*;

use crate::fix::abs_value;
use crate::model::{
    center_lat, center_lon, coords_in_range, decode_bounds, decoded_box, encoded_seq, err_lat,
    err_lon, is_alphabet_byte, lat_steps, lemma_alphabet_byte_valid, lemma_cell_widths,
    lemma_decode_bounds_ordered, lemma_decode_of_encoded, lemma_encode_bounds_contain,
    lemma_exact_half, lemma_neighbor_shift, lemma_symbol_value_bound, lemma_width_nonincreasing,
    lon_steps, neighbor_ok, neighbor_seq, symbol_value, valid_hash,
};
use crate::neighbors::Direction;

use vstd::arithmetic::power2::lemma_pow2_unfold;

verus! {

/// Alphabet closure: every symbol of every encoded hash is one of the 32
/// alphabet characters, whatever the target coordinate and length.
pub proof fn lemma_alphabet_closure(lat: int, lon: int, len: nat)
    ensures
        encoded_seq(lat, lon, len).len() == len,
        valid_hash(encoded_seq(lat, lon, len)),
{
    let s = encoded_seq(lat, lon, len);
    assert forall|i: int| 0 <= i < s.len() implies is_alphabet_byte(#[trigger] s[i]) by {
        lemma_symbol_value_bound(lat, lon, i as nat);
        lemma_alphabet_byte_valid(symbol_value(lat, lon, i as nat));
    }
}

/// Round trip, first half: decoding the encoding of a legal coordinate
/// yields a center within the reported error margins of the target, on
/// both axes, for hashes of up to 26 symbols. (Up to that length every
/// bisection halves the cell exactly; deeper cells have odd raw widths
/// and the midpoint rounding can put the target one raw unit — `2^-64`
/// degrees — outside the margin.)
pub proof fn lemma_round_trip_within_error(lat: int, lon: int, len: nat)
    requires
        coords_in_range(lat, lon),
        len <= 26,
    ensures
        abs_value(lat - center_lat(encoded_seq(lat, lon, len))) <= err_lat(
            encoded_seq(lat, lon, len),
        ),
        abs_value(lon - center_lon(encoded_seq(lat, lon, len))) <= err_lon(
            encoded_seq(lat, lon, len),
        ),
{
    let s = encoded_seq(lat, lon, len);
    let n = (5 * len) as nat;
    lemma_decode_of_encoded(lat, lon, len, n);
    lemma_encode_bounds_contain(lat, lon, n);
    lemma_cell_widths(s, n);
    lemma_decode_bounds_ordered(s, n);
    let b = decoded_box(s);
    assert(b == decode_bounds(s, n));
    assert(lon_steps(n) <= 65 && lat_steps(n) <= 65);
    lemma_pow2_unfold((67 - lon_steps(n)) as nat);
    lemma_pow2_unfold((66 - lat_steps(n)) as nat);
    assert((b.max_lon - b.min_lon) % 2 == 0);
    assert((b.max_lat - b.min_lat) % 2 == 0);
    lemma_exact_half(b.min_lon + b.max_lon);
    lemma_exact_half(b.max_lon - b.min_lon);
    lemma_exact_half(b.min_lat + b.max_lat);
    lemma_exact_half(b.max_lat - b.min_lat);
    assert(center_lon(s) - err_lon(s) == b.min_lon && center_lon(s) + err_lon(s) == b.max_lon);
    assert(center_lat(s) - err_lat(s) == b.min_lat && center_lat(s) + err_lat(s) == b.max_lat);
    assert(b.min_lat <= lat <= b.max_lat);
    assert(b.min_lon <= lon <= b.max_lon);
}

/// Round trip, second half: the error margins never grow as the requested
/// hash length grows — a longer hash names a cell at most as wide, on both
/// axes, at any length.
pub proof fn lemma_error_margins_shrink(lat: int, lon: int, len1: nat, len2: nat)
    requires
        len1 <= len2,
    ensures
        err_lon(encoded_seq(lat, lon, len2)) <= err_lon(encoded_seq(lat, lon, len1)),
        err_lat(encoded_seq(lat, lon, len2)) <= err_lat(encoded_seq(lat, lon, len1)),
{
    let s1 = encoded_seq(lat, lon, len1);
    let s2 = encoded_seq(lat, lon, len2);
    let n1 = (5 * len1) as nat;
    let n2 = (5 * len2) as nat;
    lemma_decode_of_encoded(lat, lon, len1, n1);
    lemma_decode_of_encoded(lat, lon, len2, n1);
    lemma_decode_of_encoded(lat, lon, len2, n2);
    lemma_width_nonincreasing(s2, n1, n2);
    lemma_decode_bounds_ordered(s2, n2);
    assert(decode_bounds(s1, n1) == decode_bounds(s2, n1));
    assert(decoded_box(s1) == decode_bounds(s1, n1));
    assert(decoded_box(s2) == decode_bounds(s2, n2));
}

/// Determinism of encoding: the encoder's contract equates its output with
/// `encoded_seq`, a function of the coordinate and length alone, so two
/// results for the same inputs are the same hash. Decoding and neighbor
/// derivation are pinned to spec functions of their inputs in the same
/// way by their own contracts.
pub proof fn lemma_encode_deterministic(lat: int, lon: int, len: nat, s1: Seq<u8>, s2: Seq<u8>)
    requires
        s1 == encoded_seq(lat, lon, len),
        s2 == encoded_seq(lat, lon, len),
    ensures
        s1 == s2,
{
}

/// Neighbor symmetry: step north, then south from the result, and the
/// final cell's center lies within one cell-width (twice the error margin)
/// of the original center on both axes, whenever both steps stay inside
/// the legal ranges. Exact return is not guaranteed: each re-encoding may
/// quantize to a neighboring cell at the edges.
pub proof fn lemma_neighbor_symmetry(s: Seq<u8>, len: nat)
    requires
        s.len() == len,
        len <= 26,
        neighbor_ok(s, Direction::N),
        neighbor_ok(neighbor_seq(s, Direction::N, len), Direction::S),
    ensures
        ({
            let s1 = neighbor_seq(s, Direction::N, len);
            let s2 = neighbor_seq(s1, Direction::S, len);
            &&& abs_value(center_lat(s2) - center_lat(s)) <= 2 * err_lat(s)
            &&& abs_value(center_lon(s2) - center_lon(s)) <= 2 * err_lon(s)
        }),
{
    let n = (5 * len) as nat;
    let s1 = neighbor_seq(s, Direction::N, len);
    let s2 = neighbor_seq(s1, Direction::S, len);

    lemma_decode_bounds_ordered(s, n);
    lemma_neighbor_shift(s, Direction::N);
    let nlat = center_lat(s) + 2 * err_lat(s);
    let nlon = center_lon(s);
    assert(s1 == encoded_seq(nlat, nlon, len));

    // The target of the first step lies within the margins of s1's cell.
    lemma_round_trip_within_error(nlat, nlon, len);
    assert(s1.len() == len) by {
        lemma_alphabet_closure(nlat, nlon, len);
    }

    // All cells of the same depth have the same widths, hence equal
    // margins.
    lemma_cell_widths(s, n);
    lemma_cell_widths(s1, n);
    assert(err_lat(s1) == err_lat(s) && err_lon(s1) == err_lon(s));

    lemma_decode_bounds_ordered(s1, n);
    lemma_neighbor_shift(s1, Direction::S);
    let plat = center_lat(s1) - 2 * err_lat(s1);
    let plon = center_lon(s1);
    assert(s2 == encoded_seq(plat, plon, len));

    // The target of the second step lies within the margins of s2's cell.
    lemma_round_trip_within_error(plat, plon, len);
    assert(s2.len() == len) by {
        lemma_alphabet_closure(plat, plon, len);
    }
    lemma_cell_widths(s2, n);
    assert(err_lat(s2) == err_lat(s) && err_lon(s2) == err_lon(s));
}

} // verus!
