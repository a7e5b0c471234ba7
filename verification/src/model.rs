//! The mathematical model of geohash encoding.
//!
//! All quantities are raw fixed-point values: a coordinate of `q` degrees is
//! the integer `q * 2^64` (see [`crate::fix`]). A hash of `L` symbols stands
//! for `5 * L` bisection steps: step `i` splits the longitude range when `i`
//! is even and the latitude range when `i` is odd, keeping the upper half
//! when the step's bit is set. Encoding chooses each bit so that the target
//! coordinate stays inside the kept half; decoding replays the bits stored
//! in the hash. Five consecutive bits, most significant first, form one
//! base-32 symbol.

use vstd::prelude::*;

use vstd::arithmetic::power2::{lemma2_to64, lemma_pow2_adds, lemma_pow2_unfold, pow2};

use crate::error::GeohashError;
use crate::fix::{abs_value, half_toward_zero, Fix, UNIT_BITS};
use crate::neighbors::{dlat_sign, dlon_sign, Direction};

verus! {

/// The raw value of 90 degrees, the largest legal latitude.
pub const LAT_LIMIT_BITS: i128 = 90 * UNIT_BITS;

/// The raw value of 180 degrees, the largest legal longitude.
pub const LON_LIMIT_BITS: i128 = 180 * UNIT_BITS;

/// A latitude is legal when it lies in [-90, 90] degrees.
pub open spec fn lat_in_range(lat: int) -> bool {
    -(LAT_LIMIT_BITS as int) <= lat <= LAT_LIMIT_BITS as int
}

/// A longitude is legal when it lies in [-180, 180] degrees.
pub open spec fn lon_in_range(lon: int) -> bool {
    -(LON_LIMIT_BITS as int) <= lon <= LON_LIMIT_BITS as int
}

/// Both halves of a coordinate pair are legal.
pub open spec fn coords_in_range(lat: int, lon: int) -> bool {
    lat_in_range(lat) && lon_in_range(lon)
}

/// The four bounds of a rectangular cell, as raw fixed-point values.
pub struct Bounds {
    pub min_lat: int,
    pub max_lat: int,
    pub min_lon: int,
    pub max_lon: int,
}

/// The whole surface: longitude [-180, 180], latitude [-90, 90].
pub open spec fn full_bounds() -> Bounds {
    Bounds {
        min_lat: -(LAT_LIMIT_BITS as int),
        max_lat: LAT_LIMIT_BITS as int,
        min_lon: -(LON_LIMIT_BITS as int),
        max_lon: LON_LIMIT_BITS as int,
    }
}

/// One bisection step: bit index `i` (0-based, global across the whole hash)
/// selects the axis — longitude when `i` is even — and `bit` selects the
/// half that is kept.
pub open spec fn shrink(b: Bounds, i: int, bit: bool) -> Bounds {
    if i % 2 == 0 {
        let mid = half_toward_zero(b.min_lon + b.max_lon);
        if bit {
            Bounds { min_lon: mid, ..b }
        } else {
            Bounds { max_lon: mid, ..b }
        }
    } else {
        let mid = half_toward_zero(b.min_lat + b.max_lat);
        if bit {
            Bounds { min_lat: mid, ..b }
        } else {
            Bounds { max_lat: mid, ..b }
        }
    }
}

/// The bit the encoder emits at step `i` from cell `b`: set exactly when the
/// target coordinate on the step's axis exceeds the midpoint.
pub open spec fn target_bit(b: Bounds, lat: int, lon: int, i: int) -> bool {
    if i % 2 == 0 {
        lon > half_toward_zero(b.min_lon + b.max_lon)
    } else {
        lat > half_toward_zero(b.min_lat + b.max_lat)
    }
}

/// The cell the encoder reaches after `n` bisection steps toward
/// `(lat, lon)`.
pub open spec fn encode_bounds(lat: int, lon: int, n: nat) -> Bounds
    decreases n,
{
    if n == 0 {
        full_bounds()
    } else {
        let b = encode_bounds(lat, lon, (n - 1) as nat);
        shrink(b, n - 1, target_bit(b, lat, lon, n - 1))
    }
}

/// The `i`-th bit of the encoding of `(lat, lon)`.
pub open spec fn encode_bit(lat: int, lon: int, i: nat) -> bool {
    target_bit(encode_bounds(lat, lon, i), lat, lon, i as int)
}

/// The value of a bit.
pub open spec fn bit_val(b: bool) -> int {
    if b {
        1
    } else {
        0
    }
}

/// The first `k` bits (of five) of symbol `j` of the encoding, packed most
/// significant first — what the encoder's accumulator holds after `k` bits.
pub open spec fn symbol_prefix(lat: int, lon: int, j: nat, k: nat) -> int
    decreases k,
{
    if k == 0 {
        0
    } else {
        2 * symbol_prefix(lat, lon, j, (k - 1) as nat) + bit_val(
            encode_bit(lat, lon, (5 * j + k - 1) as nat),
        )
    }
}

/// The value (0..31) of symbol `j` of the encoding of `(lat, lon)`.
pub open spec fn symbol_value(lat: int, lon: int, j: nat) -> int {
    symbol_prefix(lat, lon, j, 5)
}

/// A code point is in the base-32 alphabet `0-9 b-h j-k m-n p-z`
/// (`a`, `i`, `l` and `o` are excluded).
pub open spec fn is_alphabet_code(x: int) -> bool {
    ||| 48 <= x <= 57
    ||| 98 <= x <= 104
    ||| 106 <= x <= 107
    ||| 109 <= x <= 110
    ||| 112 <= x <= 122
}

/// The value (0..31) of an alphabet code point.
pub open spec fn code_value(x: int) -> int {
    if 48 <= x <= 57 {
        x - 48
    } else if 98 <= x <= 104 {
        x - 88
    } else if 106 <= x <= 107 {
        x - 89
    } else if 109 <= x <= 110 {
        x - 90
    } else {
        x - 91
    }
}

/// Whether a byte is an alphabet symbol.
pub open spec fn is_alphabet_byte(b: u8) -> bool {
    is_alphabet_code(b as int)
}

/// The value (0..31) of an alphabet byte.
pub open spec fn byte_value(b: u8) -> int {
    code_value(b as int)
}

/// The alphabet byte of a value in 0..31.
pub open spec fn alphabet_byte(v: int) -> u8 {
    if v < 10 {
        (48 + v) as u8
    } else if v < 17 {
        (88 + v) as u8
    } else if v < 19 {
        (89 + v) as u8
    } else if v < 21 {
        (90 + v) as u8
    } else {
        (91 + v) as u8
    }
}

/// Every byte of the sequence is an alphabet symbol.
pub open spec fn valid_hash(s: Seq<u8>) -> bool {
    forall|i: int| 0 <= i < s.len() ==> is_alphabet_byte(#[trigger] s[i])
}

/// The hash of `len` symbols that encodes `(lat, lon)`.
pub open spec fn encoded_seq(lat: int, lon: int, len: nat) -> Seq<u8> {
    Seq::new(len, |j: int| alphabet_byte(symbol_value(lat, lon, j as nat)))
}

/// Bit `k` (0..4, most significant first) of a symbol value `v` in 0..31.
pub open spec fn sym_bit(v: int, k: int) -> bool {
    if k == 0 {
        v / 16 % 2 == 1
    } else if k == 1 {
        v / 8 % 2 == 1
    } else if k == 2 {
        v / 4 % 2 == 1
    } else if k == 3 {
        v / 2 % 2 == 1
    } else {
        v % 2 == 1
    }
}

/// The `i`-th bisection bit stored in a hash.
pub open spec fn hash_bit(s: Seq<u8>, i: int) -> bool {
    sym_bit(byte_value(s[i / 5]), i % 5)
}

/// The cell reached after replaying the first `n` bits stored in a hash.
pub open spec fn decode_bounds(s: Seq<u8>, n: nat) -> Bounds
    decreases n,
{
    if n == 0 {
        full_bounds()
    } else {
        shrink(decode_bounds(s, (n - 1) as nat), n - 1, hash_bit(s, n - 1))
    }
}

/// The cell a whole hash stands for.
pub open spec fn decoded_box(s: Seq<u8>) -> Bounds {
    decode_bounds(s, (5 * s.len()) as nat)
}

/// The longitude of the center of the cell a hash stands for.
pub open spec fn center_lon(s: Seq<u8>) -> int {
    half_toward_zero(decoded_box(s).min_lon + decoded_box(s).max_lon)
}

/// The latitude of the center of the cell a hash stands for.
pub open spec fn center_lat(s: Seq<u8>) -> int {
    half_toward_zero(decoded_box(s).min_lat + decoded_box(s).max_lat)
}

/// The longitude half-width of the cell a hash stands for.
pub open spec fn err_lon(s: Seq<u8>) -> int {
    half_toward_zero(decoded_box(s).max_lon - decoded_box(s).min_lon)
}

/// The latitude half-width of the cell a hash stands for.
pub open spec fn err_lat(s: Seq<u8>) -> int {
    half_toward_zero(decoded_box(s).max_lat - decoded_box(s).min_lat)
}

/// The latitude one cell-width from a hash's center, in direction `d`:
/// the error margin is the half-width, so twice it steps one whole cell.
pub open spec fn neighbor_lat(s: Seq<u8>, d: Direction) -> int {
    center_lat(s) + 2 * abs_value(err_lat(s)) * dlat_sign(d)
}

/// The longitude one cell-width from a hash's center, in direction `d`.
pub open spec fn neighbor_lon(s: Seq<u8>, d: Direction) -> int {
    center_lon(s) + 2 * abs_value(err_lon(s)) * dlon_sign(d)
}

/// The neighbor coordinate in direction `d` is still a legal coordinate —
/// deriving the neighbor does not wrap at the 180th meridian or the poles.
pub open spec fn neighbor_ok(s: Seq<u8>, d: Direction) -> bool {
    coords_in_range(neighbor_lat(s, d), neighbor_lon(s, d))
}

/// The hash of the cell one step in direction `d`, at the same length.
pub open spec fn neighbor_seq(s: Seq<u8>, d: Direction, len: nat) -> Seq<u8> {
    encoded_seq(neighbor_lat(s, d), neighbor_lon(s, d), len)
}

/// All eight neighbor coordinates of a hash are legal.
pub open spec fn all_neighbors_ok(s: Seq<u8>) -> bool {
    forall|d: Direction| #[trigger] neighbor_ok(s, d)
}

/// The error reported when the neighbor coordinate in direction `d` leaves
/// the legal ranges.
pub open spec fn range_error(s: Seq<u8>, d: Direction) -> GeohashError {
    GeohashError::InvalidCoordinateRange(
        Fix { bits: neighbor_lon(s, d) as i128 },
        Fix { bits: neighbor_lat(s, d) as i128 },
    )
}

/// The neighbor coordinates written without the sign product: one whole
/// cell-width is added, subtracted or left off per axis, as the direction's
/// unit step says; and the raw step value of each axis has the sign of the
/// axis' unit step.
pub proof fn lemma_neighbor_shift(s: Seq<u8>, d: Direction)
    ensures
        neighbor_lat(s, d) == (if dlat_sign(d) == 1 {
            center_lat(s) + 2 * abs_value(err_lat(s))
        } else if dlat_sign(d) == -1 {
            center_lat(s) - 2 * abs_value(err_lat(s))
        } else {
            center_lat(s)
        }),
        neighbor_lon(s, d) == (if dlon_sign(d) == 1 {
            center_lon(s) + 2 * abs_value(err_lon(s))
        } else if dlon_sign(d) == -1 {
            center_lon(s) - 2 * abs_value(err_lon(s))
        } else {
            center_lon(s)
        }),
        dlat_sign(d) * (UNIT_BITS as int) > 0 <==> dlat_sign(d) == 1,
        dlat_sign(d) * (UNIT_BITS as int) < 0 <==> dlat_sign(d) == -1,
        dlon_sign(d) * (UNIT_BITS as int) > 0 <==> dlon_sign(d) == 1,
        dlon_sign(d) * (UNIT_BITS as int) < 0 <==> dlon_sign(d) == -1,
{
    let ea = 2 * abs_value(err_lat(s));
    let eo = 2 * abs_value(err_lon(s));
    let sa = dlat_sign(d);
    let so = dlon_sign(d);
    assert(-1 <= sa <= 1 && -1 <= so <= 1);
    assert(ea * sa == (if sa == 1 {
        ea
    } else if sa == -1 {
        -ea
    } else {
        0int
    })) by (nonlinear_arith)
        requires
            -1 <= sa <= 1,
    ;
    assert(eo * so == (if so == 1 {
        eo
    } else if so == -1 {
        -eo
    } else {
        0int
    })) by (nonlinear_arith)
        requires
            -1 <= so <= 1,
    ;
    assert(sa * (UNIT_BITS as int) == (if sa == 1 {
        UNIT_BITS as int
    } else if sa == -1 {
        -(UNIT_BITS as int)
    } else {
        0int
    })) by (nonlinear_arith)
        requires
            -1 <= sa <= 1,
    ;
    assert(so * (UNIT_BITS as int) == (if so == 1 {
        UNIT_BITS as int
    } else if so == -1 {
        -(UNIT_BITS as int)
    } else {
        0int
    })) by (nonlinear_arith)
        requires
            -1 <= so <= 1,
    ;
}

/// A cell whose bounds are ordered and inside the legal ranges.
pub open spec fn bounds_ordered(b: Bounds) -> bool {
    &&& -(LAT_LIMIT_BITS as int) <= b.min_lat <= b.max_lat <= LAT_LIMIT_BITS as int
    &&& -(LON_LIMIT_BITS as int) <= b.min_lon <= b.max_lon <= LON_LIMIT_BITS as int
}

/// The midpoint of an ordered pair lies between the two ends.
pub proof fn lemma_half_between(lo: int, hi: int)
    requires
        lo <= hi,
    ensures
        lo <= half_toward_zero(lo + hi) <= hi,
{
    let m = lo + hi;
    if m >= 0 {
        assert(lo <= m / 2 <= hi);
    } else {
        assert(lo <= -((-m) / 2) <= hi);
    }
}

/// A bisection step keeps the bounds ordered and inside the legal ranges.
pub proof fn lemma_shrink_ordered(b: Bounds, i: int, bit: bool)
    requires
        bounds_ordered(b),
    ensures
        bounds_ordered(shrink(b, i, bit)),
{
    if i % 2 == 0 {
        lemma_half_between(b.min_lon, b.max_lon);
    } else {
        lemma_half_between(b.min_lat, b.max_lat);
    }
}

/// The encoder's cell stays ordered and inside the legal ranges.
pub proof fn lemma_encode_bounds_ordered(lat: int, lon: int, n: nat)
    ensures
        bounds_ordered(encode_bounds(lat, lon, n)),
    decreases n,
{
    if n > 0 {
        let b = encode_bounds(lat, lon, (n - 1) as nat);
        lemma_encode_bounds_ordered(lat, lon, (n - 1) as nat);
        lemma_shrink_ordered(b, n - 1, target_bit(b, lat, lon, n - 1));
    }
}

/// The decoder's cell stays ordered and inside the legal ranges.
pub proof fn lemma_decode_bounds_ordered(s: Seq<u8>, n: nat)
    ensures
        bounds_ordered(decode_bounds(s, n)),
    decreases n,
{
    if n > 0 {
        lemma_decode_bounds_ordered(s, (n - 1) as nat);
        lemma_shrink_ordered(decode_bounds(s, (n - 1) as nat), n - 1, hash_bit(s, n - 1));
    }
}

/// The encoder's accumulator after `k` of five bits is below `2^k`.
pub proof fn lemma_symbol_prefix_bound(lat: int, lon: int, j: nat, k: nat)
    requires
        k <= 5,
    ensures
        0 <= symbol_prefix(lat, lon, j, k) < (if k == 0 {
            1int
        } else if k == 1 {
            2int
        } else if k == 2 {
            4int
        } else if k == 3 {
            8int
        } else if k == 4 {
            16int
        } else {
            32int
        }),
    decreases k,
{
    if k > 0 {
        lemma_symbol_prefix_bound(lat, lon, j, (k - 1) as nat);
    }
}

/// Every symbol value is in 0..31.
pub proof fn lemma_symbol_value_bound(lat: int, lon: int, j: nat)
    ensures
        0 <= symbol_value(lat, lon, j) < 32,
{
    lemma_symbol_prefix_bound(lat, lon, j, 5);
}

/// The alphabet byte of a value in 0..31 is an alphabet symbol, and maps
/// back to the same value.
pub proof fn lemma_alphabet_byte_valid(v: int)
    requires
        0 <= v < 32,
    ensures
        is_alphabet_byte(alphabet_byte(v)),
        byte_value(alphabet_byte(v)) == v,
{
}

/// How many of the first `n` bisection steps split the longitude axis
/// (steps 0, 2, 4, ...).
pub open spec fn lon_steps(n: nat) -> nat {
    ((n + 1) / 2) as nat
}

/// How many of the first `n` bisection steps split the latitude axis
/// (steps 1, 3, 5, ...).
pub open spec fn lat_steps(n: nat) -> nat {
    (n / 2) as nat
}

/// Halving an even number is exact, whatever its sign.
pub proof fn lemma_exact_half(m: int)
    requires
        m % 2 == 0,
    ensures
        half_toward_zero(m) == m / 2,
{
    if m < 0 {
        assert((-m) % 2 == 0);
        assert(-((-m) / 2) == m / 2);
    }
}

/// For the first 133 steps every bisection halves the active width
/// exactly, so the cell's widths depend on the step count alone, not on
/// which bits were taken: after `n` steps the cell is `45 * 2^(67 - l)`
/// raw units wide in longitude and `45 * 2^(66 - t)` in latitude, where
/// `l` and `t` count the steps each axis received. (Beyond that depth the
/// widths become odd and rounding enters; a hash of up to 26 symbols stays
/// within the exact regime.)
pub proof fn lemma_cell_widths(s: Seq<u8>, n: nat)
    requires
        n <= 133,
    ensures
        decode_bounds(s, n).max_lon - decode_bounds(s, n).min_lon == 45 * pow2(
            (67 - lon_steps(n)) as nat,
        ),
        decode_bounds(s, n).max_lat - decode_bounds(s, n).min_lat == 45 * pow2(
            (66 - lat_steps(n)) as nat,
        ),
    decreases n,
{
    if n == 0 {
        lemma2_to64();
        lemma_pow2_adds(64, 3);
        lemma_pow2_adds(64, 2);
        assert(45 * pow2(67) == 2 * LON_LIMIT_BITS);
        assert(45 * pow2(66) == 2 * LAT_LIMIT_BITS);
    } else {
        lemma_cell_widths(s, (n - 1) as nat);
        lemma_decode_bounds_ordered(s, (n - 1) as nat);
        let b = decode_bounds(s, (n - 1) as nat);
        let i = n - 1;
        if i % 2 == 0 {
            let e = (67 - lon_steps((n - 1) as nat)) as nat;
            assert(lon_steps(n) == lon_steps((n - 1) as nat) + 1);
            assert(lat_steps(n) == lat_steps((n - 1) as nat));
            assert(e >= 1);
            lemma_pow2_unfold(e);
            let w = b.max_lon - b.min_lon;
            assert(w == 2 * (45 * pow2((e - 1) as nat)));
            let m = b.min_lon + b.max_lon;
            assert(m % 2 == 0);
            lemma_exact_half(m);
            let mid = half_toward_zero(m);
            assert(b.max_lon - mid == w / 2);
            assert(mid - b.min_lon == w / 2);
            assert(w / 2 == 45 * pow2((e - 1) as nat));
        } else {
            let e = (66 - lat_steps((n - 1) as nat)) as nat;
            assert(lon_steps(n) == lon_steps((n - 1) as nat));
            assert(lat_steps(n) == lat_steps((n - 1) as nat) + 1);
            assert(e >= 1);
            lemma_pow2_unfold(e);
            let w = b.max_lat - b.min_lat;
            assert(w == 2 * (45 * pow2((e - 1) as nat)));
            let m = b.min_lat + b.max_lat;
            assert(m % 2 == 0);
            lemma_exact_half(m);
            let mid = half_toward_zero(m);
            assert(b.max_lat - mid == w / 2);
            assert(mid - b.min_lat == w / 2);
            assert(w / 2 == 45 * pow2((e - 1) as nat));
        }
    }
}

/// Cells only ever shrink: at any depth, each width is at most what it was
/// at any earlier depth. This holds at every depth, with or without exact
/// halving.
pub proof fn lemma_width_nonincreasing(s: Seq<u8>, n1: nat, n2: nat)
    requires
        n1 <= n2,
    ensures
        decode_bounds(s, n2).max_lon - decode_bounds(s, n2).min_lon <= decode_bounds(
            s,
            n1,
        ).max_lon - decode_bounds(s, n1).min_lon,
        decode_bounds(s, n2).max_lat - decode_bounds(s, n2).min_lat <= decode_bounds(
            s,
            n1,
        ).max_lat - decode_bounds(s, n1).min_lat,
    decreases n2,
{
    if n1 < n2 {
        lemma_width_nonincreasing(s, n1, (n2 - 1) as nat);
        lemma_decode_bounds_ordered(s, (n2 - 1) as nat);
        let b = decode_bounds(s, (n2 - 1) as nat);
        if (n2 - 1) % 2 == 0 {
            lemma_half_between(b.min_lon, b.max_lon);
        } else {
            lemma_half_between(b.min_lat, b.max_lat);
        }
    }
}

/// The five bits packed into a symbol are recovered by [`sym_bit`]: the
/// symbol of five bisection bits hands each one back, most significant
/// first.
pub proof fn lemma_symbol_bits(lat: int, lon: int, j: nat)
    ensures
        forall|k: int|
            0 <= k < 5 ==> #[trigger] sym_bit(symbol_value(lat, lon, j), k) == encode_bit(
                lat,
                lon,
                (5 * j + k) as nat,
            ),
{
    let b0 = bit_val(encode_bit(lat, lon, (5 * j) as nat));
    let b1 = bit_val(encode_bit(lat, lon, (5 * j + 1) as nat));
    let b2 = bit_val(encode_bit(lat, lon, (5 * j + 2) as nat));
    let b3 = bit_val(encode_bit(lat, lon, (5 * j + 3) as nat));
    let b4 = bit_val(encode_bit(lat, lon, (5 * j + 4) as nat));
    let v = symbol_value(lat, lon, j);
    assert(symbol_prefix(lat, lon, j, 0) == 0);
    assert(symbol_prefix(lat, lon, j, 1) == b0);
    assert(symbol_prefix(lat, lon, j, 2) == 2 * b0 + b1);
    assert(symbol_prefix(lat, lon, j, 3) == 4 * b0 + 2 * b1 + b2);
    assert(symbol_prefix(lat, lon, j, 4) == 8 * b0 + 4 * b1 + 2 * b2 + b3);
    assert(v == 16 * b0 + 8 * b1 + 4 * b2 + 2 * b3 + b4);
    assert(v / 16 % 2 == b0);
    assert(v / 8 % 2 == b1);
    assert(v / 4 % 2 == b2);
    assert(v / 2 % 2 == b3);
    assert(v % 2 == b4);
}

/// Replaying the bits of an encoded hash rebuilds the encoder's cells: the
/// decoder walks through exactly the bounds the encoder walked through.
pub proof fn lemma_decode_of_encoded(lat: int, lon: int, len: nat, n: nat)
    requires
        n <= 5 * len,
    ensures
        decode_bounds(encoded_seq(lat, lon, len), n) == encode_bounds(lat, lon, n),
    decreases n,
{
    let s = encoded_seq(lat, lon, len);
    if n > 0 {
        lemma_decode_of_encoded(lat, lon, len, (n - 1) as nat);
        let i = n - 1;
        let j = i / 5;
        let k = i % 5;
        assert(0 <= j < len && 0 <= k < 5 && i == 5 * j + k);
        lemma_symbol_value_bound(lat, lon, j as nat);
        lemma_alphabet_byte_valid(symbol_value(lat, lon, j as nat));
        assert(s[j] == alphabet_byte(symbol_value(lat, lon, j as nat)));
        lemma_symbol_bits(lat, lon, j as nat);
        assert(hash_bit(s, i) == encode_bit(lat, lon, i as nat));
    }
}

/// A legal target coordinate stays inside the encoder's cell.
pub proof fn lemma_encode_bounds_contain(lat: int, lon: int, n: nat)
    requires
        coords_in_range(lat, lon),
    ensures
        encode_bounds(lat, lon, n).min_lat <= lat <= encode_bounds(lat, lon, n).max_lat,
        encode_bounds(lat, lon, n).min_lon <= lon <= encode_bounds(lat, lon, n).max_lon,
    decreases n,
{
    if n > 0 {
        lemma_encode_bounds_contain(lat, lon, (n - 1) as nat);
    }
}

} // verus!
