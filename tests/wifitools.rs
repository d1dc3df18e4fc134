use signal_locate::field::Sample;
use signal_locate::wifitools::{
    level_strength, parse_signal_level, select_samples, strength_by_ssid, Measurement, Network, STRENGTH_ONE,
};

fn network(ssid: &str, level: &str) -> Network {
    Network { ssid: ssid.to_string(), signal_level: level.to_string() }
}

#[test]
fn signal_levels_parse() {
    assert_eq!(parse_signal_level("-67.00"), Some(-6700));
    assert_eq!(parse_signal_level("-67"), Some(-6700));
    assert_eq!(parse_signal_level("-67.5"), Some(-6750));
    assert_eq!(parse_signal_level("+3.141"), Some(314));
    assert_eq!(parse_signal_level("42."), Some(4200));
    assert_eq!(parse_signal_level("-0.07"), Some(-7));
}

#[test]
fn malformed_levels_are_refused() {
    assert_eq!(parse_signal_level(""), None);
    assert_eq!(parse_signal_level("-"), None);
    assert_eq!(parse_signal_level("abc"), None);
    assert_eq!(parse_signal_level(".5"), None);
    assert_eq!(parse_signal_level("12.3x"), None);
    assert_eq!(parse_signal_level("12 dBm"), None);
    assert_eq!(parse_signal_level("99999999999999999999"), None);
}

#[test]
fn levels_map_to_strength() {
    assert_eq!(level_strength(-6700), 507);
    assert_eq!(level_strength(-10000), 0);
    assert_eq!(level_strength(-12000), 0);
    assert_eq!(level_strength(-3500), STRENGTH_ONE);
    assert_eq!(level_strength(-2000), STRENGTH_ONE);
    assert_eq!(level_strength(-9999), 0);
    assert_eq!(level_strength(-9935), 10);
}

#[test]
fn strength_comes_from_the_named_network() {
    let scan = vec![
        network("office", "-80.00"),
        network("home", "weak"),
        network("home", "-67.00"),
        network("home", "-40.00"),
    ];
    assert_eq!(strength_by_ssid(&scan, &"home".to_string()), 507);
    assert_eq!(strength_by_ssid(&scan, &"office".to_string()), 307);
    assert_eq!(strength_by_ssid(&scan, &"cafe".to_string()), 0);
    assert_eq!(strength_by_ssid(&Vec::new(), &"home".to_string()), 0);
}

#[test]
fn samples_are_selected_by_network() {
    let m = |ssid: &str, x: i32| Measurement { ssid: ssid.to_string(), sample: Sample { x, y: 1, strength: 5 } };
    let all = vec![m("home", 1), m("office", 2), m("home", 3)];
    let home: Vec<i32> = select_samples(&all, &"home".to_string()).iter().map(|s| s.x).collect();
    assert_eq!(home, vec![1, 3]);
    let every: Vec<i32> = select_samples(&all, &String::new()).iter().map(|s| s.x).collect();
    assert_eq!(every, vec![1, 2, 3]);
    assert!(select_samples(&all, &"cafe".to_string()).is_empty());
}
