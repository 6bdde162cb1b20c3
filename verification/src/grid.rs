//! The grid decoder: turns a 4, 6, 8, or 10 character hierarchical grid
//! locator into the exact center of the cell it names.
//!
//! Each position pair refines the cell: 20°x10° fields, 2°x1° squares,
//! then 1/12°x1/24°, 1/120°x1/240° and 1/2880°x1/5760° refinements.  All of
//! these are multiples of 1/11520 degree, so a coordinate is held exactly as
//! a pair of integers in those units and no rounding ever happens.  Callers
//! that need floating-point degrees divide by `UNITS_PER_DEGREE` themselves.

use vstd::prelude::*;
use vstd::string::*;
use crate::text::{is_digit_char, digit_val, str_chars, upper_seq, upper_str};

verus! {

/// How many coordinate units make one degree.
pub const UNITS_PER_DEGREE: i64 = 11520;

/// An exact coordinate: degrees latitude and longitude, each scaled by
/// `UNITS_PER_DEGREE`.
#[derive(PartialEq, Eq, Structural, Clone, Copy, Debug)]
pub struct GridCoordinate {
    pub lat_units: i64,
    pub lon_units: i64,
}

/// Why a grid string is rejected: a length other than 4, 6, 8 or 10, or a
/// character that is not a digit where the format demands one.
#[derive(PartialEq, Eq, Structural, Clone, Copy, Debug)]
pub enum GridError {
    InvalidGridLength,
    InvalidGridDigit,
}

pub open spec fn grid_len_ok(n: int) -> bool {
    n == 4 || n == 6 || n == 8 || n == 10
}

/// The digit positions of an uppercased grid string hold decimal digits.
pub open spec fn grid_digits_ok(u: Seq<char>) -> bool {
    is_digit_char(u[2]) && is_digit_char(u[3])
        && (u.len() >= 8 ==> is_digit_char(u[6]) && is_digit_char(u[7]))
}

/// A letter position's contribution, counted from 'A'.
pub open spec fn letter_val(c: char) -> int {
    c as u32 - 65
}

/// The latitude of the cell center in coordinate units, for an uppercased
/// grid string of accepted length: offsets from the south pole plus half of
/// the finest resolution present.
pub open spec fn spec_grid_lat_units(u: Seq<char>) -> int {
    -1036800 + letter_val(u[1]) * 115200 + digit_val(u[3]) * 11520
        + (if u.len() >= 6 { letter_val(u[5]) * 480 } else { 0 })
        + (if u.len() >= 8 { digit_val(u[7]) * 48 } else { 0 })
        + (if u.len() >= 10 { letter_val(u[9]) * 2 } else { 0 })
        + (if u.len() == 4 { 5760int } else if u.len() == 6 { 240int }
           else if u.len() == 8 { 24int } else { 1int })
}

/// The longitude of the cell center in coordinate units, for an uppercased
/// grid string of accepted length.
pub open spec fn spec_grid_lon_units(u: Seq<char>) -> int {
    -2073600 + letter_val(u[0]) * 230400 + digit_val(u[2]) * 23040
        + (if u.len() >= 6 { letter_val(u[4]) * 960 } else { 0 })
        + (if u.len() >= 8 { digit_val(u[6]) * 96 } else { 0 })
        + (if u.len() >= 10 { letter_val(u[8]) * 4 } else { 0 })
        + (if u.len() == 4 { 11520int } else if u.len() == 6 { 480int }
           else if u.len() == 8 { 48int } else { 2int })
}

/// Decodes a grid locator into the exact center of its cell.
///
/// The string is folded to uppercase first.  A length outside {4, 6, 8, 10}
/// is `InvalidGridLength`; a non-digit in a digit position is
/// `InvalidGridDigit`; nothing else is checked, exactly one of the errors or
/// the coordinate comes back, and the result is a pure function of the
/// input.
pub fn grid_to_latlon(grid: &str) -> (r: Result<GridCoordinate, GridError>)
    ensures
        match r {
            Ok(c) => grid_len_ok(grid@.len() as int) && grid_digits_ok(upper_seq(grid@))
                && c.lat_units == spec_grid_lat_units(upper_seq(grid@))
                && c.lon_units == spec_grid_lon_units(upper_seq(grid@)),
            Err(GridError::InvalidGridLength) => !grid_len_ok(grid@.len() as int),
            Err(GridError::InvalidGridDigit) => grid_len_ok(grid@.len() as int)
                && !grid_digits_ok(upper_seq(grid@)),
        },
{
    let up = upper_str(grid);
    let u = str_chars(up.as_str());
    let ghost us = upper_seq(grid@);
    let n = u.len();
    if !(n == 4 || n == 6 || n == 8 || n == 10) {
        return Err(GridError::InvalidGridLength);
    }
    let d2 = match char_digit(u[2]) {
        Some(d) => d,
        None => { return Err(GridError::InvalidGridDigit); },
    };
    let d3 = match char_digit(u[3]) {
        Some(d) => d,
        None => { return Err(GridError::InvalidGridDigit); },
    };
    let mut lat: i64 = -1036800 + (u[1] as u32 as i64 - 65) * 115200 + (d3 as i64) * 11520;
    let mut lon: i64 = -2073600 + (u[0] as u32 as i64 - 65) * 230400 + (d2 as i64) * 23040;
    if n >= 6 {
        lat = lat + (u[5] as u32 as i64 - 65) * 480;
        lon = lon + (u[4] as u32 as i64 - 65) * 960;
    }
    if n >= 8 {
        let d6 = match char_digit(u[6]) {
            Some(d) => d,
            None => { return Err(GridError::InvalidGridDigit); },
        };
        let d7 = match char_digit(u[7]) {
            Some(d) => d,
            None => { return Err(GridError::InvalidGridDigit); },
        };
        lat = lat + (d7 as i64) * 48;
        lon = lon + (d6 as i64) * 96;
    }
    if n >= 10 {
        lat = lat + (u[9] as u32 as i64 - 65) * 2;
        lon = lon + (u[8] as u32 as i64 - 65) * 4;
    }
    if n == 4 {
        lat = lat + 5760;
        lon = lon + 11520;
    } else if n == 6 {
        lat = lat + 240;
        lon = lon + 480;
    } else if n == 8 {
        lat = lat + 24;
        lon = lon + 48;
    } else {
        lat = lat + 1;
        lon = lon + 2;
    }
    Ok(GridCoordinate { lat_units: lat, lon_units: lon })
}

fn char_digit(c: char) -> (r: Option<u32>)
    ensures
        match r {
            Some(d) => is_digit_char(c) && d == digit_val(c),
            None => !is_digit_char(c),
        },
{
    let u = c as u32;
    if 48 <= u && u <= 57 {
        Some(u - 48)
    } else {
        None
    }
}

/// Decoding is a pure function of the grid string: equal inputs decode to
/// equal coordinates, so repeating a decode can never change the answer.
pub proof fn lemma_decode_deterministic(a: Seq<char>, b: Seq<char>)
    requires
        a == b,
    ensures
        spec_grid_lat_units(upper_seq(a)) == spec_grid_lat_units(upper_seq(b)),
        spec_grid_lon_units(upper_seq(a)) == spec_grid_lon_units(upper_seq(b)),
{
}

/// The letter positions lie in the ranges the grid system assigns them:
/// A-R for the first pair, A-X for the later letter pairs.
pub open spec fn grid_letters_in_range(u: Seq<char>) -> bool {
    &&& 0 <= letter_val(u[0]) <= 17
    &&& 0 <= letter_val(u[1]) <= 17
    &&& (u.len() >= 6 ==> 0 <= letter_val(u[4]) <= 23 && 0 <= letter_val(u[5]) <= 23)
    &&& (u.len() >= 10 ==> 0 <= letter_val(u[8]) <= 23 && 0 <= letter_val(u[9]) <= 23)
}

/// A grid string within the system's letter and digit ranges decodes to a
/// coordinate on the globe: latitude within +/-90 degrees, longitude within
/// +/-180 degrees, in coordinate units.
pub proof fn lemma_grid_coordinate_in_range(u: Seq<char>)
    requires
        grid_len_ok(u.len() as int),
        grid_digits_ok(u),
        grid_letters_in_range(u),
    ensures
        -1036800 <= spec_grid_lat_units(u) <= 1036800,
        -2073600 <= spec_grid_lon_units(u) <= 2073600,
{
}

} // verus!
