use aether::conf_map::ConfMap;
use aether::workspace::{
    is_generated_conf_name, is_source_conf, message_error, parse_endpoint, parse_route,
    parse_wg_conf, pick_interfaces, require_workspace, select_source_confs, server_info,
    set_workspace, workspace_path, DirEntryInfo, Settings, WorkspaceError,
};

fn message_of(e: WorkspaceError) -> String {
    match e {
        WorkspaceError::Message(m) => m,
        other => panic!("not a message error: {:?}", other),
    }
}

#[test]
fn generated_names_are_recognised() {
    assert!(is_generated_conf_name("smart1-wifi.conf"));
    assert!(is_generated_conf_name("smart12-eth.conf"));
    assert!(is_generated_conf_name("smart0-wifi.conf"));
}

#[test]
fn other_names_are_not_generated() {
    assert!(!is_generated_conf_name("smart-wifi.conf"));
    assert!(!is_generated_conf_name("smartx-wifi.conf"));
    assert!(!is_generated_conf_name("smart1-wifi.confx"));
    assert!(!is_generated_conf_name("smart1-lan.conf"));
    assert!(!is_generated_conf_name("smart1-2-wifi.conf"));
    assert!(!is_generated_conf_name("provider.conf"));
    assert!(!is_generated_conf_name("Smart1-wifi.conf"));
    assert!(!is_generated_conf_name(""));
}

#[test]
fn endpoint_splits_at_last_colon() {
    let (h, p) = parse_endpoint("vpn.example.com:51820").unwrap();
    assert_eq!(h, "vpn.example.com");
    assert_eq!(p, "51820");
    let (h, p) = parse_endpoint("[::1]:51820").unwrap();
    assert_eq!(h, "[::1]");
    assert_eq!(p, "51820");
    let (h, p) = parse_endpoint("host:").unwrap();
    assert_eq!(h, "host");
    assert_eq!(p, "");
}

#[test]
fn endpoint_without_colon_is_refused() {
    let e = parse_endpoint("nohost").unwrap_err();
    assert_eq!(message_of(e), "Invalid endpoint: nohost");
}

const PROVIDER: &str = "[Interface]\n\
PrivateKey = abc=\n\
Address = 10.0.0.2/32\n\
# DNS = 9.9.9.9\n\
\n\
[Peer]\n\
PublicKey = xyz=\n\
AllowedIPs = 0.0.0.0/0\n\
Endpoint = vpn.example.com:51820\r\n";

#[test]
fn conf_keeps_keys_and_values_trimmed() {
    let m = parse_wg_conf(PROVIDER);
    assert_eq!(m.get("PrivateKey").as_deref(), Some("abc="));
    assert_eq!(m.get("Address").as_deref(), Some("10.0.0.2/32"));
    assert_eq!(m.get("PublicKey").as_deref(), Some("xyz="));
    assert_eq!(m.get("Endpoint").as_deref(), Some("vpn.example.com:51820"));
    assert_eq!(m.get("DNS"), None);
    assert_eq!(m.get("[Peer]"), None);
    assert_eq!(m.len(), 5);
}

#[test]
fn conf_later_line_overrides() {
    let m = parse_wg_conf("A = 1\n  A=2  \nB = x = y\nnot a setting\n");
    assert_eq!(m.get("A").as_deref(), Some("2"));
    assert_eq!(m.get("B").as_deref(), Some("x = y"));
    assert_eq!(m.len(), 2);
}

#[test]
fn conf_map_insert_and_get() {
    let mut m = ConfMap::new();
    assert_eq!(m.len(), 0);
    m.insert("k".to_string(), "v".to_string());
    m.insert("k".to_string(), "w".to_string());
    m.insert("j".to_string(), "u".to_string());
    assert_eq!(m.get("k").as_deref(), Some("w"));
    assert_eq!(m.get("j").as_deref(), Some("u"));
    assert_eq!(m.get("x"), None);
    assert_eq!(m.len(), 2);
}

#[test]
fn server_from_provider_config() {
    let s = server_info(0, "a.conf", "/ws/a.conf", PROVIDER).unwrap();
    assert_eq!(s.index, 1);
    assert_eq!(s.file, "a.conf");
    assert_eq!(s.host, "vpn.example.com");
    assert_eq!(s.port, "51820");
    assert_eq!(s.address, "10.0.0.2/32");
}

#[test]
fn server_index_wraps_like_a_byte() {
    let s = server_info(255, "z.conf", "/ws/z.conf", "Endpoint = h:1").unwrap();
    assert_eq!(s.index, 0);
    assert_eq!(s.address, "");
}

#[test]
fn server_without_endpoint_is_refused() {
    let e = server_info(0, "a.conf", "/ws/a.conf", "Address = 1.2.3.4").unwrap_err();
    assert_eq!(message_of(e), "Missing Endpoint in /ws/a.conf");
    let e = server_info(0, "a.conf", "/ws/a.conf", "Endpoint = nohost").unwrap_err();
    assert_eq!(message_of(e), "Invalid endpoint: nohost");
}

fn entry(name: &str, is_file: bool) -> DirEntryInfo {
    DirEntryInfo { name: name.to_string(), is_file }
}

#[test]
fn sources_are_sorted_provider_configs() {
    let entries = vec![
        entry("zeta.conf", true),
        entry("smart1-wifi.conf", true),
        entry("alpha.conf", true),
        entry("notes.txt", true),
        entry("folder.conf", false),
        entry(".conf", true),
        entry("smart1-eth.conf", true),
        entry("Beta.conf", true),
    ];
    assert!(is_source_conf(&entries[0]));
    assert!(!is_source_conf(&entries[1]));
    assert!(!is_source_conf(&entries[5]));
    let picked = select_source_confs(&entries);
    assert_eq!(picked, vec![7, 2, 0]);
}

#[test]
fn no_sources_in_empty_folder() {
    assert!(select_source_confs(&Vec::new()).is_empty());
}

#[test]
fn route_gives_gateway_and_device() {
    let (g, d) =
        parse_route("default via 192.168.1.1 dev wlp2s0 proto dhcp metric 600\nother via 1.1.1.1\n")
            .unwrap();
    assert_eq!(g, "192.168.1.1");
    assert_eq!(d, "wlp2s0");
    let (g, d) = parse_route("default via 10.0.0.1").unwrap();
    assert_eq!(g, "10.0.0.1");
    assert_eq!(d, "eth0");
}

#[test]
fn route_without_gateway_is_refused() {
    let e = parse_route("").unwrap_err();
    assert_eq!(message_of(e), "Could not detect gateway");
    let e = parse_route("default dev eth0\nx via 1.2.3.4\n").unwrap_err();
    assert_eq!(message_of(e), "Could not detect gateway");
    let e = parse_route("default via").unwrap_err();
    assert_eq!(message_of(e), "Could not detect gateway");
}

const LINKS: &str = "1: lo: <LOOPBACK,UP,LOWER_UP> mtu 65536\n\
2: enp3s0: <BROADCAST,MULTICAST,UP> mtu 1500\n\
3: wlp2s0: <BROADCAST,MULTICAST,UP> mtu 1500\n\
4: eth1: <BROADCAST> mtu 1500\n\
5: wlan1: <BROADCAST> mtu 1500\n";

#[test]
fn interfaces_are_the_first_of_each_kind() {
    let (eth, wifi) = pick_interfaces(LINKS, "eth0");
    assert_eq!(eth, "enp3s0");
    assert_eq!(wifi, "wlp2s0");
}

#[test]
fn missing_interfaces_fall_back_to_default_device() {
    let (eth, wifi) = pick_interfaces("1: lo: <LOOPBACK>\n2: docker0: <X>\n", "wlp1");
    assert_eq!(eth, "wlp1");
    assert_eq!(wifi, "wlp1");
    let (eth, wifi) = pick_interfaces("no colon here\n", "dflt");
    assert_eq!(eth, "dflt");
    assert_eq!(wifi, "dflt");
}

#[test]
fn settings_read_back() {
    let mut s = Settings::default();
    assert!(workspace_path(&s).is_none());
    assert_eq!(s.selected_server(), None);
    s.select_server(3);
    assert_eq!(s.selected_server(), Some(3));
    let p = set_workspace(&mut s, "/home/u/vpn", true).unwrap();
    assert_eq!(p, "/home/u/vpn");
    assert_eq!(workspace_path(&s).as_deref(), Some("/home/u/vpn"));
    assert_eq!(s.selected_server(), Some(3));
}

#[test]
fn workspace_must_be_a_directory() {
    let mut s = Settings::default();
    let e = set_workspace(&mut s, "/etc/passwd", false).unwrap_err();
    assert_eq!(message_of(e), "Path is not a directory");
    assert!(s.workspace.is_none());
}

#[test]
fn commands_need_a_workspace() {
    assert_eq!(require_workspace(Some("/ws".to_string())).unwrap(), "/ws");
    assert_eq!(require_workspace(None).unwrap_err(), "No workspace configured");
}

#[test]
fn errors_describe_themselves() {
    assert_eq!(message_error("boom").describe(), "boom");
    let io = WorkspaceError::Io(std::io::Error::new(std::io::ErrorKind::Other, "disk"));
    assert_eq!(io.describe(), "IO error: disk");
    let json = WorkspaceError::Json(serde_json::from_str::<u8>("x").unwrap_err());
    assert!(json.describe().starts_with("JSON error: "));
}
