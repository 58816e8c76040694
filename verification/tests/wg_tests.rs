use aether::wg::{
    apply_show_line, classify_line, is_blank, parse_wg_show, ShowLine, ShowPatterns, WgStatus,
};

const SHOW: &str = "interface: smart2-wifi\n  public key: AAAA=\n  private key: (hidden)\n  listening port: 51820\n\npeer: BBBB=\n  endpoint: 1.2.3.4:51820  \n  allowed ips: 0.0.0.0/0\n  latest handshake: 1 minute, 2 seconds ago\n  transfer: 1.23 MiB received, 456.78 KiB sent\n";

#[test]
fn reads_a_connected_tunnel() {
    let s = parse_wg_show(SHOW);
    assert!(s.connected);
    assert_eq!(s.interface.as_deref(), Some("smart2-wifi"));
    assert_eq!(s.server_index, Some(2));
    assert_eq!(s.endpoint.as_deref(), Some("1.2.3.4:51820"));
    assert_eq!(s.latest_handshake.as_deref(), Some("1 minute, 2 seconds ago"));
    assert_eq!(s.transfer.rx, "1.23 MiB");
    assert_eq!(s.transfer.tx, "456.78 KiB");
}

#[test]
fn blank_output_is_idle() {
    for out in ["", "   \n\t\n"] {
        assert!(is_blank(out));
        let s = parse_wg_show(out);
        assert!(!s.connected);
        assert!(s.interface.is_none());
        assert!(s.server_index.is_none());
        assert!(s.endpoint.is_none());
        assert!(s.latest_handshake.is_none());
        assert_eq!(s.transfer.rx, "");
        assert_eq!(s.transfer.tx, "");
    }
    assert!(!is_blank(" x "));
}

#[test]
fn interface_without_server_number() {
    let s = parse_wg_show("interface: wg0\n");
    assert!(s.connected);
    assert_eq!(s.interface.as_deref(), Some("wg0"));
    assert_eq!(s.server_index, None);
}

#[test]
fn server_number_out_of_range() {
    let s = parse_wg_show("interface: smart300-eth\n");
    assert!(s.connected);
    assert_eq!(s.server_index, None);
}

#[test]
fn unrelated_output_is_not_connected() {
    let s = parse_wg_show("peer: x\nsomething else\n");
    assert!(!s.connected);
    assert!(s.interface.is_none());
}

#[test]
fn lines_are_classified() {
    let p = ShowPatterns::new();
    assert!(matches!(classify_line(&p, "interface: smart1-eth"), ShowLine::Interface { .. }));
    assert!(matches!(classify_line(&p, "  endpoint: 1.1.1.1:1"), ShowLine::Endpoint(_)));
    assert!(matches!(classify_line(&p, "  latest handshake: now"), ShowLine::Handshake(_)));
    assert!(matches!(
        classify_line(&p, "  transfer: 1 B received, 2 B sent"),
        ShowLine::Transfer(_)
    ));
    assert!(matches!(classify_line(&p, "endpoint: not indented"), ShowLine::Other));
}

#[test]
fn a_step_applies_captured_groups() {
    let mut s = WgStatus::default();
    apply_show_line(
        &mut s,
        ShowLine::Interface {
            groups: vec![Some("interface: smart7-wifi".to_string()), Some("smart7-wifi".to_string())],
            server: Some(vec![Some("smart7-".to_string()), Some("7".to_string())]),
        },
    );
    assert!(s.connected);
    assert_eq!(s.server_index, Some(7));
    apply_show_line(
        &mut s,
        ShowLine::Interface {
            groups: vec![Some("interface: wg1".to_string()), Some("wg1".to_string())],
            server: None,
        },
    );
    assert_eq!(s.interface.as_deref(), Some("wg1"));
    assert_eq!(s.server_index, Some(7));
    apply_show_line(
        &mut s,
        ShowLine::Transfer(vec![None, Some(" 5 KiB ".to_string()), Some("6 KiB".to_string())]),
    );
    assert_eq!(s.transfer.rx, "5 KiB");
    assert_eq!(s.transfer.tx, "6 KiB");
    apply_show_line(&mut s, ShowLine::Endpoint(vec![None]));
    assert_eq!(s.endpoint.as_deref(), Some(""));
    apply_show_line(&mut s, ShowLine::Other);
    assert_eq!(s.endpoint.as_deref(), Some(""));
}
