use rusty_rail::configuration::{parse_ipv4, Config};

fn pairs(vars: &[(&str, &str)]) -> Vec<(String, String)> {
    vars.iter().map(|(k, v)| (k.to_string(), v.to_string())).collect()
}

#[test]
fn set_variables() {
    let vars = pairs(&[("RR_DEVICE", "wlan0"), ("RR_TARGET_IPS", "192.0.2.1")]);
    let config = Config::new(&vars).unwrap();
    assert_eq!(config.device, "wlan0");
    assert_eq!(config.target_ips[0], 0xC000_0201u32);
}

#[test]
fn multiple_ips() {
    let vars = pairs(&[("RR_DEVICE", "wlan0"), ("RR_TARGET_IPS", "192.0.2.1;192.0.2.2")]);
    let config = Config::new(&vars).unwrap();
    assert_eq!(config.device, "wlan0");
    assert_eq!(config.target_ips, vec![0xC000_0201u32, 0xC000_0202u32]);
}

#[test]
#[should_panic]
fn no_device_error() {
    let vars = pairs(&[("RR_TARGET_IPS", "192.0.2.1")]);
    Config::new(&vars).unwrap();
}

#[test]
#[should_panic]
fn no_ip_error() {
    let vars = pairs(&[("RR_DEVICE", "wlan0")]);
    Config::new(&vars).unwrap();
}

#[test]
#[should_panic]
fn zero_length_ips_error() {
    let vars = pairs(&[("RR_DEVICE", "wlan0"), ("RR_TARGET_IPS", "")]);
    Config::new(&vars).unwrap();
}

#[test]
fn config_builds_the_table() {
    let vars = pairs(&[("RR_DEVICE", "eth1"), ("RR_TARGET_IPS", "10.0.0.1;10.0.0.2;10.0.0.3")]);
    let config = Config::new(&vars).unwrap();
    assert_eq!(config.routes.backends.len(), 3);
    assert_eq!(config.routes.backends[0].name, "10.0.0.1");
    assert!(config.routes.backends.iter().all(|b| b.live));
    // three live backends: the largest prime at or below 300
    assert_eq!(config.routes.lookup.len(), 293);
    assert!(config.routes.lookup.iter().all(|&s| (s as usize) < 3));
}

#[test]
fn parse_ipv4_examples() {
    assert_eq!(parse_ipv4("192.0.2.1"), Some(0xC000_0201));
    assert_eq!(parse_ipv4("0.0.0.0"), Some(0));
    assert_eq!(parse_ipv4("255.255.255.255"), Some(0xFFFF_FFFF));
    assert_eq!(parse_ipv4(""), None);
    assert_eq!(parse_ipv4("1.2.3"), None);
    assert_eq!(parse_ipv4("1.2.3.4.5"), None);
    assert_eq!(parse_ipv4("1.2.3.256"), None);
    assert_eq!(parse_ipv4("01.2.3.4"), None);
    assert_eq!(parse_ipv4("1.2.3.x"), None);
}

#[test]
fn missing_configuration_is_reported() {
    let vars = pairs(&[("RR_DEVICE", "wlan0"), ("RR_TARGET_IPS", "not-an-ip")]);
    match Config::new(&vars) {
        Err(rusty_rail::error::BrokenRail::MissingConfiguration) => {},
        _ => panic!("expected the configuration error"),
    }
}

#[test]
fn later_variable_wins() {
    let vars = pairs(&[
        ("RR_DEVICE", "eth0"),
        ("RR_TARGET_IPS", "192.0.2.1"),
        ("RR_DEVICE", "eth1"),
    ]);
    let config = Config::new(&vars).unwrap();
    assert_eq!(config.device, "eth1");
}
