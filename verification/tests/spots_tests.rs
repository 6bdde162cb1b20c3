use rust_grid_calc::spots::{batch_filter_spots, create_spot_matcher, determine_mode,
    frequency_to_band, parse_rbn_spot, SpotMatcher};

fn mhz(f: f64) -> u64 {
    (f * 1_000_000.0).round() as u64
}

#[test]
fn test_parse_rbn_spot() {
    let line = "DX de K3LR-#:     14025.0  W4GNS         CW    24 dB  33 WPM  CQ      1234Z";
    let result = parse_rbn_spot(line);
    assert!(result.is_ok());
    let spot = result.unwrap();
    assert_eq!(spot.callsign, "W4GNS");
    assert!((spot.frequency as f64 / 1000.0 - 14025.0).abs() < 0.1);
    assert_eq!(spot.snr, 24);
    assert_eq!(spot.timestamp, "1234Z");
}

#[test]
fn parse_rbn_spot_rejects_short_and_misframed_lines() {
    assert!(parse_rbn_spot("").is_err());
    assert!(parse_rbn_spot("DX de K3LR-#: 14025.0 W4GNS CW").is_err());
    assert!(parse_rbn_spot(
        "QX de K3LR-#:     14025.0  W4GNS  CW  24 dB  33 WPM  CQ  1234Z").is_err());
    assert!(parse_rbn_spot(
        "DX de K3LR-#:     abcdef  W4GNS  CW  24 dB  33 WPM  CQ  1234Z").is_err());
}

#[test]
fn parse_rbn_spot_defaults_snr_and_timestamp() {
    let line = "DX de K3LR-#: 7025.5 W4GNS CW 33 WPM CQ";
    let spot = parse_rbn_spot(line).unwrap();
    assert_eq!(spot.frequency, 7_025_500);
    assert_eq!(spot.snr, 0);
    assert_eq!(spot.timestamp, "");
}

#[test]
fn test_frequency_to_band() {
    assert_eq!(frequency_to_band(mhz(14.025)), "20M");
    assert_eq!(frequency_to_band(mhz(7.025)), "40M");
    assert_eq!(frequency_to_band(mhz(28.025)), "10M");
}

#[test]
fn frequency_to_band_unknown_outside_bands() {
    assert_eq!(frequency_to_band(mhz(2.5)), "UNK");
    assert_eq!(frequency_to_band(0), "UNK");
}

#[test]
fn test_determine_mode() {
    assert_eq!(determine_mode(mhz(14.025), None), "CW");
    assert_eq!(determine_mode(mhz(14.250), None), "USB");
    assert_eq!(determine_mode(mhz(7.025), None), "CW");
}

#[test]
fn determine_mode_honors_known_hints() {
    assert_eq!(determine_mode(mhz(14.250), Some("cw")), "CW");
    assert_eq!(determine_mode(mhz(14.250), Some("Rtty")), "RTTY");
    // an unknown hint falls back to the frequency
    assert_eq!(determine_mode(mhz(14.250), Some("???")), "USB");
}

fn spot(
    call: &str,
    f: u64,
    band: &str,
    mode: &str,
    snr: i32,
) -> (String, u64, String, String, i32, String, String) {
    (call.to_string(), f, band.to_string(), mode.to_string(), snr, "SPOTTER".to_string(),
        "0000Z".to_string())
}

#[test]
fn new_matcher_knows_nothing() {
    let m = SpotMatcher::new();
    assert!(!m.is_worked("W4GNS"));
    assert!(!m.is_worked_on_band("W4GNS", "40M"));
    assert!(!m.is_skcc("W4GNS"));
    assert!(!m.is_tribune("W4GNS"));
    let m2 = create_spot_matcher();
    assert!(!m2.is_worked("W4GNS"));
}

#[test]
fn filter_spots_applies_snr_and_band_filters() {
    let m = SpotMatcher::new();
    let spots = vec![
        spot("W4GNS", 14_025_000, "20M", "CW", 24),
        spot("K1SP", 7_025_000, "40M", "CW", 3),
        spot("G4AFU", 7_026_000, "40M", "CW", 15),
    ];
    let all = m.filter_spots(&spots, 0, &Vec::new(), false, false);
    assert_eq!(all, vec![0, 1, 2]);
    let strong = m.filter_spots(&spots, 10, &Vec::new(), false, false);
    assert_eq!(strong, vec![0, 2]);
    let forty = m.filter_spots(&spots, 0, &vec!["40M".to_string()], false, false);
    assert_eq!(forty, vec![1, 2]);
    // with no members known, the members-only filter passes nothing
    let members = m.filter_spots(&spots, 0, &Vec::new(), true, false);
    assert!(members.is_empty());
}

#[test]
fn batch_filter_spots_uses_worked_band_keys() {
    let spots = vec![
        ("W4GNS".to_string(), "40M".to_string(), 20),
        ("W4GNS".to_string(), "20M".to_string(), 20),
        ("K1SP".to_string(), "40M".to_string(), 20),
    ];
    let idx = batch_filter_spots(
        &spots,
        vec!["W4GNS".to_string()],
        vec!["W4GNS:40M".to_string()],
        vec!["W4GNS".to_string(), "K1SP".to_string()],
        Vec::new(),
        0,
        Vec::new(),
        false,
        true,
    );
    // the worked 40M slot for W4GNS is dropped, everything else passes
    assert_eq!(idx, vec![1, 2]);
}
