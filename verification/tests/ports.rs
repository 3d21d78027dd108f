use offgrid_primitives::ports::{get_metrics_port, get_ports, parse_port};

#[test]
fn parse_port_reads_decimal_ports() {
    assert_eq!(parse_port("8080"), Some(8080));
    assert_eq!(parse_port("+80"), Some(80));
    assert_eq!(parse_port("0"), Some(0));
    assert_eq!(parse_port("65535"), Some(65535));
    assert_eq!(parse_port("007"), Some(7));
}

#[test]
fn parse_port_refuses_what_is_no_port() {
    assert_eq!(parse_port(""), None);
    assert_eq!(parse_port("+"), None);
    assert_eq!(parse_port("65536"), None);
    assert_eq!(parse_port("99999x"), None);
    assert_eq!(parse_port("-1"), None);
    assert_eq!(parse_port("12a"), None);
    assert_eq!(parse_port(" 80"), None);
    assert_eq!(parse_port("++1"), None);
    assert_eq!(parse_port("８０"), None);
}

#[test]
fn parse_port_agrees_with_std() {
    let cases = [
        "", "+", "-", "0", "1", "+1", "-0", "09", "65535", "65536", "70000", "123456", "1 ", "a", "+a", "4_0", "８",
    ];
    for c in cases {
        assert_eq!(parse_port(c), c.parse::<u16>().ok(), "{c}");
    }
}

#[test]
fn get_ports_uses_settings_and_defaults() {
    assert_eq!(get_ports(None, None), Some((5555, 5556)));
    assert_eq!(get_ports(Some("7000".to_string()), None), Some((7000, 5556)));
    assert_eq!(get_ports(None, Some("7001".to_string())), Some((5555, 7001)));
    assert_eq!(get_ports(Some("x".to_string()), None), None);
    assert_eq!(get_ports(None, Some("70000".to_string())), None);
}

#[test]
fn get_metrics_port_falls_back_to_default() {
    assert_eq!(get_metrics_port(None), 9090);
    assert_eq!(get_metrics_port(Some("9100".to_string())), 9100);
    assert_eq!(get_metrics_port(Some("abc".to_string())), 9090);
    assert_eq!(get_metrics_port(Some("".to_string())), 9090);
}
