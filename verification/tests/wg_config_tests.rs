use netmon::wg_config::routes_from_config;

#[test]
fn reads_routes_from_the_allowed_ips_line() {
    let config = "[Interface]\nPrivateKey = abc=\nAddress = 10.13.13.2/32\n\n[Peer]\nPublicKey = def=\nAllowedIPs = 13.124.0.0/16, 52.78.0.0/15\nEndpoint = 1.2.3.4:51820\n";
    let routes = routes_from_config(config);
    assert_eq!(routes.len(), 2);
    assert_eq!(routes[0], ("13.124.0.0".to_string(), 16));
    assert_eq!(routes[1], ("52.78.0.0".to_string(), 15));
}

#[test]
fn missing_allowed_ips_line_yields_no_routes() {
    let config = "[Interface]\nAddress = 10.13.13.2/32\n";
    assert_eq!(routes_from_config(config).len(), 0);
}

#[test]
fn malformed_entries_are_skipped() {
    let config = "AllowedIPs = 1.2.3.0/24, no-slash, 4.5.6.0/8/9, 7.8.9.0/abc, , 10.11.0.0/16";
    let routes = routes_from_config(config);
    assert_eq!(routes.len(), 2);
    assert_eq!(routes[0], ("1.2.3.0".to_string(), 24));
    assert_eq!(routes[1], ("10.11.0.0".to_string(), 16));
}

#[test]
fn indented_line_and_crlf_are_accepted() {
    let config = "[Peer]\r\n  AllowedIPs=9.9.9.0/24\r\n";
    let routes = routes_from_config(config);
    assert_eq!(routes.len(), 1);
    assert_eq!(routes[0], ("9.9.9.0".to_string(), 24));
}

#[test]
fn only_the_first_allowed_ips_line_counts() {
    let config = "AllowedIPs = 1.1.1.0/24\nAllowedIPs = 2.2.2.0/24\n";
    let routes = routes_from_config(config);
    assert_eq!(routes.len(), 1);
    assert_eq!(routes[0], ("1.1.1.0".to_string(), 24));
}

#[test]
fn line_without_equals_has_no_value() {
    let config = "AllowedIPs 1.2.3.0/24\n";
    assert_eq!(routes_from_config(config).len(), 0);
}
