use rust_grid_calc::grid::{grid_to_latlon, GridError, UNITS_PER_DEGREE};

fn degrees(units: i64) -> f64 {
    units as f64 / UNITS_PER_DEGREE as f64
}

#[test]
fn test_grid_to_latlon() {
    // FM06ew: field F/M, square 0/6, subsquare e/w, plus half of the
    // subsquare cell: 36 + 22/24 + 1/48 north, -(80 - 4/12 - 1/24) east
    let c = grid_to_latlon("FM06ew").unwrap();
    assert!((degrees(c.lat_units) - 36.9375).abs() < 1e-9);
    assert!((degrees(c.lon_units) - (-79.625)).abs() < 1e-9);
    assert_eq!(c.lat_units, 425520);
    assert_eq!(c.lon_units, -917280);
}

#[test]
fn decode_is_case_insensitive() {
    assert_eq!(grid_to_latlon("fm06ew").unwrap(), grid_to_latlon("FM06EW").unwrap());
}

#[test]
fn decode_is_idempotent() {
    // the same grid string always yields the same coordinate
    let a = grid_to_latlon("EM29nf").unwrap();
    let b = grid_to_latlon("EM29nf").unwrap();
    assert_eq!(a, b);
}

#[test]
fn decode_four_characters_centers_the_square() {
    let c = grid_to_latlon("FM06").unwrap();
    assert!((degrees(c.lat_units) - 36.5).abs() < 1e-9);
    assert!((degrees(c.lon_units) - (-79.0)).abs() < 1e-9);
}

#[test]
fn decode_eight_and_ten_characters() {
    let c8 = grid_to_latlon("FM06ew12").unwrap();
    // one more pair refines by 2/240 and 1/240 degrees, center shifts to
    // half of that cell
    assert!((degrees(c8.lat_units) - (36.0 + 22.0 / 24.0 + 2.0 / 240.0 + 1.0 / 480.0)).abs()
        < 1e-9);
    assert!((degrees(c8.lon_units) - (-80.0 + 4.0 / 12.0 + 1.0 / 120.0 + 1.0 / 240.0)).abs()
        < 1e-9);
    let c10 = grid_to_latlon("FM06ew12ax").unwrap();
    assert!((degrees(c10.lat_units)
        - (36.0 + 22.0 / 24.0 + 2.0 / 240.0 + 23.0 / 5760.0 + 0.5 / 5760.0)).abs() < 1e-9);
    assert!((degrees(c10.lon_units)
        - (-80.0 + 4.0 / 12.0 + 1.0 / 120.0 + 0.0 / 2880.0 + 1.0 / 5760.0)).abs() < 1e-9);
}

#[test]
fn decode_em29nf() {
    let c = grid_to_latlon("EM29nf").unwrap();
    assert!((degrees(c.lat_units) - (39.0 + 5.0 / 24.0 + 1.0 / 48.0)).abs() < 1e-9);
    assert!((degrees(c.lon_units) - (-96.0 + 13.0 / 12.0 + 1.0 / 24.0)).abs() < 1e-9);
}

#[test]
fn decode_rejects_bad_lengths() {
    assert_eq!(grid_to_latlon("FM0").unwrap_err(), GridError::InvalidGridLength);
    assert_eq!(grid_to_latlon("FM06e").unwrap_err(), GridError::InvalidGridLength);
    assert_eq!(grid_to_latlon("FM06ew12345").unwrap_err(), GridError::InvalidGridLength);
    assert_eq!(grid_to_latlon("").unwrap_err(), GridError::InvalidGridLength);
}

#[test]
fn decode_rejects_non_digits_in_digit_positions() {
    assert_eq!(grid_to_latlon("FMxy").unwrap_err(), GridError::InvalidGridDigit);
    assert_eq!(grid_to_latlon("FM06ewab").unwrap_err(), GridError::InvalidGridDigit);
}
