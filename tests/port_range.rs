use port_scanner::port_range::{extract_ports, parse, parse_range_bytes, ConfigError, PortRange};

#[test]
fn test_extract_ports() {
    assert_eq!(extract_ports(&Some("1-100".to_string())), (1, 100));
    assert_eq!(extract_ports(&Some("2000-3000".to_string())), (2000, 3000));
    assert_eq!(extract_ports(&Some("invalid".to_string())), (1, 1024));
    assert_eq!(extract_ports(&None), (1, 1024));
}

#[test]
fn extract_ports_falls_back_on_reversed_bounds() {
    assert_eq!(extract_ports(&Some("90-80".to_string())), (1, 1024));
}

#[test]
fn parse_reads_both_bounds() {
    assert_eq!(parse("80-85"), Ok(PortRange { start: 80, end: 85 }));
    assert_eq!(parse("0-65535"), Ok(PortRange { start: 0, end: 65535 }));
    assert_eq!(parse("7-7"), Ok(PortRange { start: 7, end: 7 }));
    assert_eq!(parse("+1-+5"), Ok(PortRange { start: 1, end: 5 }));
    assert_eq!(parse("007-010"), Ok(PortRange { start: 7, end: 10 }));
}

#[test]
fn parse_refuses_malformed_text() {
    for text in ["", "-", "80", "80-", "-85", "a-85", "80-b", "80-85-90", "8 0-85", "80-65536",
        "99999-1", "+-5", "-5-6", "80–85", "１-2"]
    {
        assert_eq!(parse(text), Err(ConfigError::InvalidRange), "{}", text);
    }
}

#[test]
fn parse_refuses_reversed_bounds_without_swapping() {
    assert_eq!(parse("85-80"), Err(ConfigError::InvalidRange));
    assert_eq!(parse_range_bytes(b"85-80"), None);
    assert_eq!(PortRange::new(85, 80), Err(ConfigError::InvalidRange));
    assert_eq!(PortRange::new(80, 85), Ok(PortRange { start: 80, end: 85 }));
}

#[test]
fn expand_lists_each_port_ascending() {
    let r = parse("2000-3000").unwrap();
    let ports = r.expand();
    assert_eq!(ports.len(), 1001);
    assert_eq!(r.len(), 1001);
    assert_eq!(ports[0], 2000);
    assert_eq!(ports[1000], 3000);
    assert!(ports.windows(2).all(|w| w[0] + 1 == w[1]));
    let one = PortRange { start: 65535, end: 65535 };
    assert_eq!(one.expand(), vec![65535]);
    let full = PortRange { start: 0, end: 65535 };
    assert_eq!(full.expand().len(), 65536);
    assert_eq!(full.len(), 65536);
}

#[test]
fn default_range_is_first_1024_ports() {
    let r = PortRange::default_range();
    assert_eq!((r.start, r.end), (1, 1024));
    assert_eq!(r.len(), 1024);
}
