use aether::generator::{
    build_config, generated_conf_name, no_sources_error, render_server_configs, require_sources,
    select_ipv4, source_config, GeneratedFile, ParsedConfig,
};
use aether::workspace::{
    is_generated_conf_name, parse_wg_conf, select_source_confs, server_info, DirEntryInfo,
    NetworkInfo, WorkspaceError,
};

fn message_of(e: WorkspaceError) -> String {
    match e {
        WorkspaceError::Message(m) => m,
        other => panic!("not a message error: {:?}", other),
    }
}

const PROVIDER: &str = "[Interface]\nPrivateKey = priv=\nAddress = 10.2.0.2/32\n\n[Peer]\nPublicKey = pub=\nAllowedIPs = 0.0.0.0/0\nEndpoint = vpn.example.com:51820\n";

#[test]
fn source_config_fills_defaults() {
    let c = source_config(PROVIDER, "/ws/p.conf").unwrap();
    assert_eq!(c.private_key, "priv=");
    assert_eq!(c.address, "10.2.0.2/32");
    assert_eq!(c.dns, "8.8.8.8, 8.8.4.4");
    assert_eq!(c.mtu, "1300");
    assert_eq!(c.public_key, "pub=");
    assert_eq!(c.allowed_ips, "0.0.0.0/0");
    assert_eq!(c.persistent_keepalive, "11");
    assert_eq!(c.host, "vpn.example.com");
    assert_eq!(c.port, "51820");
}

#[test]
fn source_config_keeps_given_values() {
    let c = source_config("Endpoint=h:1\nDNS = 1.1.1.1\nMTU=1420\nPersistentKeepalive = 25\n", "x")
        .unwrap();
    assert_eq!(c.dns, "1.1.1.1");
    assert_eq!(c.mtu, "1420");
    assert_eq!(c.persistent_keepalive, "25");
    assert_eq!(c.private_key, "");
}

#[test]
fn source_config_errors() {
    let e = source_config("Address = 1.2.3.4\n", "/ws/p.conf").unwrap_err();
    assert_eq!(message_of(e), "Missing Endpoint in /ws/p.conf");
    let e = source_config("Endpoint = host\n", "/ws/p.conf").unwrap_err();
    assert_eq!(message_of(e), "Invalid endpoint: host");
    assert_eq!(message_of(no_sources_error("/ws")), "No .conf files found in /ws");
}

fn sample() -> ParsedConfig {
    source_config(PROVIDER, "/ws/p.conf").unwrap()
}

#[test]
fn config_text_is_exact() {
    let ips = vec!["1.2.3.4".to_string(), "5.6.7.8".to_string()];
    let text = build_config(&ips, &sample(), "wlp2s0", "192.168.1.1");
    let expected = "[Interface]\n\
PrivateKey = priv=\n\
Address = 10.2.0.2/32\n\
DNS = 8.8.8.8, 8.8.4.4\n\
MTU = 1300\n\
\n\
# Linux Customization \n\
PostUp = ip route replace 1.2.3.4 via 192.168.1.1 dev wlp2s0\n\
PostUp = ip route replace 5.6.7.8 via 192.168.1.1 dev wlp2s0\n\
PostDown = ip route del 1.2.3.4 via 192.168.1.1 dev wlp2s0\n\
PostDown = ip route del 5.6.7.8 via 192.168.1.1 dev wlp2s0\n\
\n\
[Peer]\n\
PublicKey = pub=\n\
Endpoint = vpn.example.com:51820\n\
AllowedIPs = 0.0.0.0/0\n\
PersistentKeepalive = 11\n";
    assert_eq!(text, expected);
}

#[test]
fn config_without_addresses_has_no_routes() {
    let text = build_config(&Vec::new(), &sample(), "eth0", "10.0.0.1");
    assert!(text.contains("# Linux Customization \n\n[Peer]\n"));
    assert!(!text.contains("PostUp"));
}

#[test]
fn generated_names() {
    assert_eq!(generated_conf_name(1, true), "smart1-wifi.conf");
    assert_eq!(generated_conf_name(12, false), "smart12-eth.conf");
    assert_eq!(generated_conf_name(0, true), "smart0-wifi.conf");
    for n in [1usize, 7, 10, 99, 100, 123456] {
        assert!(is_generated_conf_name(&generated_conf_name(n, true)));
        assert!(is_generated_conf_name(&generated_conf_name(n, false)));
    }
}

#[test]
fn rendered_pair_is_wifi_then_eth() {
    let net = NetworkInfo {
        gateway: "192.168.0.1".to_string(),
        interface_wifi: "wlan0".to_string(),
        interface_eth: "eth0".to_string(),
    };
    let ips = vec!["9.9.9.9".to_string()];
    let files = render_server_configs(1, &ips, &sample(), &net);
    assert_eq!(files.len(), 2);
    assert_eq!(files[0].name, "smart2-wifi.conf");
    assert_eq!(files[1].name, "smart2-eth.conf");
    assert_eq!(files[0].content, build_config(&ips, &sample(), "wlan0", "192.168.0.1"));
    assert_eq!(files[1].content, build_config(&ips, &sample(), "eth0", "192.168.0.1"));
    assert!(files[0].content.contains("PostUp = ip route replace 9.9.9.9 via 192.168.0.1 dev wlan0\n"));
}

#[test]
fn ipv4_selection() {
    let got = select_ipv4(
        "h",
        vec![Some("1.2.3.4".to_string()), None, Some("5.6.7.8".to_string())],
    )
    .unwrap();
    assert_eq!(got, vec!["1.2.3.4".to_string(), "5.6.7.8".to_string()]);
    let e = select_ipv4("vpn.example.com", vec![None, None]).unwrap_err();
    assert_eq!(message_of(e), "No IPv4 addresses for vpn.example.com");
    let e = select_ipv4("h", vec![]).unwrap_err();
    assert_eq!(message_of(e), "No IPv4 addresses for h");
}

#[test]
fn regeneration_needs_a_provider() {
    assert!(require_sources(1, "/ws").is_ok());
    assert!(require_sources(3, "/ws").is_ok());
    let e = require_sources(0, "/ws").unwrap_err();
    assert_eq!(message_of(e), "No .conf files found in /ws");
}

#[test]
fn generated_config_reads_back_its_fields() {
    let cfg = sample();
    let ips = vec!["1.2.3.4".to_string(), "5.6.7.8".to_string()];
    let text = build_config(&ips, &cfg, "wlp2s0", "192.168.1.1");
    let m = parse_wg_conf(&text);
    assert_eq!(m.get("PrivateKey").as_deref(), Some("priv="));
    assert_eq!(m.get("Address").as_deref(), Some("10.2.0.2/32"));
    assert_eq!(m.get("DNS").as_deref(), Some("8.8.8.8, 8.8.4.4"));
    assert_eq!(m.get("MTU").as_deref(), Some("1300"));
    assert_eq!(m.get("PublicKey").as_deref(), Some("pub="));
    assert_eq!(m.get("Endpoint").as_deref(), Some("vpn.example.com:51820"));
    assert_eq!(m.get("AllowedIPs").as_deref(), Some("0.0.0.0/0"));
    assert_eq!(m.get("PersistentKeepalive").as_deref(), Some("11"));
    assert_eq!(
        m.get("PostDown").as_deref(),
        Some("ip route del 5.6.7.8 via 192.168.1.1 dev wlp2s0")
    );
}

#[test]
fn generated_config_round_trips() {
    let cfg = sample();
    let text = build_config(&vec!["9.9.9.9".to_string()], &cfg, "eth0", "10.0.0.1");
    let back = source_config(&text, "/ws/smart1-eth.conf").unwrap();
    assert_eq!(back.private_key, cfg.private_key);
    assert_eq!(back.address, cfg.address);
    assert_eq!(back.dns, cfg.dns);
    assert_eq!(back.mtu, cfg.mtu);
    assert_eq!(back.public_key, cfg.public_key);
    assert_eq!(back.allowed_ips, cfg.allowed_ips);
    assert_eq!(back.persistent_keepalive, cfg.persistent_keepalive);
    assert_eq!(back.host, cfg.host);
    assert_eq!(back.port, cfg.port);
}

#[test]
fn listed_index_matches_generated_names() {
    let net = NetworkInfo {
        gateway: "192.168.0.1".to_string(),
        interface_wifi: "wlan0".to_string(),
        interface_eth: "eth0".to_string(),
    };
    for position in [0usize, 1, 4, 254] {
        let server = server_info(position, "p.conf", "/ws/p.conf", PROVIDER).unwrap();
        let cfg = source_config(PROVIDER, "/ws/p.conf").unwrap();
        assert_eq!(server.host, cfg.host);
        assert_eq!(server.port, cfg.port);
        let files: Vec<GeneratedFile> = render_server_configs(position, &vec![], &cfg, &net);
        assert_eq!(files[0].name, format!("smart{}-wifi.conf", server.index));
        assert_eq!(files[1].name, format!("smart{}-eth.conf", server.index));
    }
}

fn entry(name: &str, is_file: bool) -> DirEntryInfo {
    DirEntryInfo { name: name.to_string(), is_file }
}

fn source_names(listing: &Vec<DirEntryInfo>) -> Vec<String> {
    select_source_confs(listing).into_iter().map(|i| listing[i].name.clone()).collect()
}

#[test]
fn regeneration_keeps_the_providers() {
    let before = vec![
        entry("b.conf", true),
        entry("smart1-wifi.conf", true),
        entry("a.conf", true),
        entry("smart1-eth.conf", true),
        entry("notes.txt", true),
    ];
    let after = vec![
        entry("smart2-eth.conf", true),
        entry("a.conf", true),
        entry("notes.txt", true),
        entry("smart1-wifi.conf", true),
        entry("b.conf", true),
        entry("smart1-eth.conf", true),
        entry("smart2-wifi.conf", true),
    ];
    assert_eq!(source_names(&before), vec!["a.conf".to_string(), "b.conf".to_string()]);
    assert_eq!(source_names(&after), source_names(&before));
}

#[test]
fn routes_are_replaced_not_added() {
    let ips = vec!["1.2.3.4".to_string()];
    let text = build_config(&ips, &sample(), "wlan0", "10.0.0.1");
    assert!(text.contains("\nPostUp = ip route replace 1.2.3.4 via 10.0.0.1 dev wlan0\n"));
    assert!(text.contains("\nPostDown = ip route del 1.2.3.4 via 10.0.0.1 dev wlan0\n"));
    assert!(!text.contains("ip route add"));
}

#[test]
fn harmless_line_break_in_interface_reads_back() {
    let cfg = sample();
    let ips = vec!["1.2.3.4".to_string()];
    let text = build_config(&ips, &cfg, "wlan0\nno setting here", "10.0.0.1");
    let m = parse_wg_conf(&text);
    assert_eq!(m.get("PrivateKey").as_deref(), Some("priv="));
    assert_eq!(m.get("Address").as_deref(), Some("10.2.0.2/32"));
    assert_eq!(m.get("Endpoint").as_deref(), Some("vpn.example.com:51820"));
    assert_eq!(m.get("PersistentKeepalive").as_deref(), Some("11"));
}
