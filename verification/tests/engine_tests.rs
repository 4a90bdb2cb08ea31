//! Tests of the profile store, the priority resolver, the auto-connect
//! engine's decisions, backend fallback and the WireGuard configuration
//! round trip.

use lantern::autoconnect::{
    auto_connect_plan, has_connected_wifi, is_likely_wifi_interface, next_visible_candidate,
    parse_security_type,
};
use lantern::backend::{BackendKind, BackendSelector};
use lantern::config::{Config, WifiProfile};
use lantern::network::{
    Interface, InterfaceStats, NetworkManager, WifiInfo, WifiNetwork, WifiSecurity,
    WireGuardConfig, WireGuardPeer,
};
use lantern::systemd::SystemdNetworkConfig;

fn profile(ssid: &str, interface: &str, auto: bool, prio: i32, last: Option<u64>) -> WifiProfile {
    WifiProfile {
        ssid: ssid.to_string(),
        security_type: "WPA2".to_string(),
        password: Some("secret".to_string()),
        interface: interface.to_string(),
        dhcp: true,
        ip: None,
        gateway: None,
        dns: None,
        last_connected: last,
        auto_connect: auto,
        priority: prio,
        enterprise: None,
    }
}

fn network(ssid: &str, signal: i32) -> WifiNetwork {
    WifiNetwork {
        ssid: ssid.to_string(),
        bssid: "aa:bb:cc:dd:ee:ff".to_string(),
        signal_strength: signal,
        frequency: 2437,
        channel: 6,
        security: WifiSecurity::WPA2,
        encryption: vec!["WPA2".to_string()],
        connected: false,
        in_history: false,
    }
}

fn interface(name: &str, state: &str, wifi: Option<WifiInfo>) -> Interface {
    Interface {
        name: name.to_string(),
        mac_address: "aa:bb:cc:dd:ee:ff".to_string(),
        state: state.to_string(),
        mtu: 1500,
        ipv4_addresses: vec![],
        ipv6_addresses: vec![],
        ipv6_info: None,
        gateway: None,
        ipv6_gateway: None,
        dns_servers: vec![],
        stats: InterfaceStats::default(),
        wifi_info: wifi,
    }
}

fn empty_config() -> Config {
    Config { profiles: vec![], wifi_profiles: vec![] }
}

#[test]
fn test_add_wifi_profile_replaces_once() {
    let mut config = empty_config();
    let mut first = profile("HomeNet", "wlan0", false, 1, None);
    first.password = Some("old".to_string());
    config.add_wifi_profile(first);
    config.add_wifi_profile(profile("Guest", "wlan0", false, 0, None));
    // same (SSID, interface) key: the old entry is evicted, not merged
    let mut replacement = profile("HomeNet", "wlan0", true, 7, Some(100));
    replacement.password = Some("new".to_string());
    config.add_wifi_profile(replacement);
    assert_eq!(config.wifi_profiles.len(), 2);
    let matches: Vec<&WifiProfile> = config
        .wifi_profiles
        .iter()
        .filter(|p| p.ssid == "HomeNet" && p.interface == "wlan0")
        .collect();
    assert_eq!(matches.len(), 1);
    assert_eq!(matches[0].password.as_deref(), Some("new"));
    assert!(matches[0].auto_connect);
    // the same SSID on another adapter is a different key
    config.add_wifi_profile(profile("HomeNet", "wlan1", false, 0, None));
    assert_eq!(config.wifi_profiles.len(), 3);
}

#[test]
fn test_get_wifi_profile() {
    let mut config = empty_config();
    config.add_wifi_profile(profile("HomeNet", "wlan0", false, 1, None));
    assert!(config.get_wifi_profile("HomeNet", "wlan0").is_some());
    assert!(config.get_wifi_profile("HomeNet", "wlan1").is_none());
    assert!(config.get_wifi_profile("Other", "wlan0").is_none());
}

#[test]
fn test_ranking_auto_connect_dominates_priority() {
    // A(auto=true, prio=1), B(auto=false, prio=10), C(auto=true, prio=5)
    // must rank [C, A, B]
    let mut config = empty_config();
    config.add_wifi_profile(profile("A", "wlan0", true, 1, None));
    config.add_wifi_profile(profile("B", "wlan0", false, 10, None));
    config.add_wifi_profile(profile("C", "wlan0", true, 5, None));
    let ranked = config.get_wifi_profiles_by_priority();
    let names: Vec<&str> = ranked.iter().map(|p| p.ssid.as_str()).collect();
    assert_eq!(names, vec!["C", "A", "B"]);
}

#[test]
fn test_ranking_recency_breaks_ties() {
    let mut config = empty_config();
    config.add_wifi_profile(profile("Never", "wlan0", true, 3, None));
    config.add_wifi_profile(profile("Old", "wlan0", true, 3, Some(100)));
    config.add_wifi_profile(profile("Recent", "wlan0", true, 3, Some(900)));
    let ranked = config.get_wifi_profiles_by_priority();
    let names: Vec<&str> = ranked.iter().map(|p| p.ssid.as_str()).collect();
    assert_eq!(names, vec!["Recent", "Old", "Never"]);
}

#[test]
fn test_ranking_is_stable_across_calls() {
    let mut config = empty_config();
    config.add_wifi_profile(profile("First", "wlan0", true, 3, None));
    config.add_wifi_profile(profile("Second", "wlan0", true, 3, None));
    let once: Vec<String> =
        config.get_wifi_profiles_by_priority().iter().map(|p| p.ssid.clone()).collect();
    let twice: Vec<String> =
        config.get_wifi_profiles_by_priority().iter().map(|p| p.ssid.clone()).collect();
    assert_eq!(once, vec!["First".to_string(), "Second".to_string()]);
    assert_eq!(once, twice);
}

#[test]
fn test_update_wifi_connection_stamps_timestamp() {
    let mut config = empty_config();
    config.add_wifi_profile(profile("HomeNet", "wlan0", true, 1, None));
    config.update_wifi_connection("HomeNet", "wlan0", 1700000123);
    assert_eq!(config.wifi_profiles[0].last_connected, Some(1700000123));
    // no matching profile: nothing changes
    config.update_wifi_connection("Unknown", "wlan0", 42);
    assert_eq!(config.wifi_profiles.len(), 1);
    assert_eq!(config.wifi_profiles[0].last_connected, Some(1700000123));
}

#[test]
fn test_auto_connect_skips_when_connected() {
    let connected = WifiInfo {
        current_network: Some(network("HomeNet", -50)),
        signal_strength: Some(-50),
        frequency: Some(2437),
        channel: Some(6),
    };
    let interfaces = vec![
        interface("eth0", "UP", None),
        interface("wlan0", "UP", Some(connected.clone())),
    ];
    assert!(has_connected_wifi(&interfaces));
    let mut config = empty_config();
    config.add_wifi_profile(profile("HomeNet", "wlan0", true, 1, None));
    assert!(auto_connect_plan(&interfaces, &config).is_none());
    // any reported current network suffices, whatever the state says
    let interfaces = vec![interface("wlan0", "DOWN", Some(connected))];
    assert!(has_connected_wifi(&interfaces));
    assert!(auto_connect_plan(&interfaces, &config).is_none());
}

#[test]
fn test_auto_connect_plans_on_first_wifi_interface() {
    let idle = WifiInfo {
        current_network: None,
        signal_strength: None,
        frequency: None,
        channel: None,
    };
    let interfaces = vec![
        interface("eth0", "UP", None),
        interface("wlan0", "DOWN", Some(idle)),
    ];
    let mut config = empty_config();
    config.add_wifi_profile(profile("HomeNet", "wlan0", true, 1, None));
    config.add_wifi_profile(profile("OtherAdapter", "wlan1", true, 9, None));
    config.add_wifi_profile(profile("Manual", "wlan0", false, 9, None));
    let (name, candidates) = auto_connect_plan(&interfaces, &config).unwrap();
    assert_eq!(name, "wlan0");
    // only auto-connect profiles bound to the chosen interface remain
    let names: Vec<&str> = candidates.iter().map(|p| p.ssid.as_str()).collect();
    assert_eq!(names, vec!["HomeNet"]);
}

#[test]
fn test_update_interface_stats_touches_stats_only() {
    let mgr = NetworkManager::new();
    let mut interfaces = vec![interface("eth0", "UP", None), interface("wlan0", "DOWN", None)];
    let fresh = vec![InterfaceStats {
        rx_bytes: 111,
        tx_bytes: 222,
        rx_packets: 3,
        tx_packets: 4,
        rx_errors: 0,
        tx_errors: 1,
    }];
    mgr.update_interface_stats(&mut interfaces, &fresh);
    assert_eq!(interfaces[0].stats.rx_bytes, 111);
    assert_eq!(interfaces[0].stats.tx_bytes, 222);
    assert_eq!(interfaces[0].name, "eth0");
    assert_eq!(interfaces[0].state, "UP");
    // the interface beyond the fresh readings is untouched
    assert_eq!(interfaces[1].stats.rx_bytes, 0);
    assert_eq!(interfaces[1].name, "wlan0");
}

#[test]
fn test_mark_in_history() {
    let mut config = empty_config();
    config.add_wifi_profile(profile("HomeNet", "wlan0", false, 0, None));
    let mut networks = vec![network("HomeNet", -45), network("Stranger", -60)];
    lantern::autoconnect::mark_in_history(&mut networks, &config, "wlan0");
    assert!(networks[0].in_history);
    assert!(!networks[1].in_history);
    // the profile is bound per interface: another adapter has no history
    lantern::autoconnect::mark_in_history(&mut networks, &config, "wlan1");
    assert!(!networks[0].in_history);
}

#[test]
fn test_next_visible_candidate_walks_on() {
    let mut config = empty_config();
    config.add_wifi_profile(profile("Hidden", "wlan0", true, 9, None));
    config.add_wifi_profile(profile("Seen", "wlan0", true, 1, None));
    let candidates = config.get_wifi_profiles_by_priority();
    let networks = vec![network("Seen", -40), network("Unrelated", -60)];
    // the first candidate is not visible; the walk continues to the next
    let first = next_visible_candidate(&candidates, &networks, 0).unwrap();
    assert_eq!(candidates[first].ssid, "Seen");
    assert!(next_visible_candidate(&candidates, &networks, first + 1).is_none());
}

#[test]
fn test_backend_fallback_serves_scan_via_legacy() {
    // the modern backend's list-devices call fails: the same request is
    // served by the legacy backend, with no error surfaced in between
    let mut selector = BackendSelector::new();
    assert_eq!(selector.first_choice(), BackendKind::Modern);
    let after_failure = selector.fallback_of(BackendKind::Modern);
    assert_eq!(after_failure, Some(BackendKind::Legacy));
    selector.note_success(BackendKind::Legacy);
    assert_eq!(selector.first_choice(), BackendKind::Legacy);
    // only when the legacy backend fails too is the chain exhausted
    assert_eq!(selector.fallback_of(BackendKind::Legacy), None);
    let err = selector.exhausted_error();
    assert!(matches!(err, lantern::errors::NetworkError::ResourceUnavailable { .. }));
    // a failure of the cached backend forces a re-probe from the start
    selector.note_failure(BackendKind::Legacy);
    assert_eq!(selector.first_choice(), BackendKind::Modern);
}

#[test]
fn test_wireguard_config_round_trip() {
    let systemd = SystemdNetworkConfig::new();
    let config = WireGuardConfig {
        interface_name: "wg0".to_string(),
        private_key: "PRIVKEYAAAAAAAAAAAAAAAAAAAAAAAAAAAAAAAAAAA=".to_string(),
        public_key: String::new(),
        listen_port: Some(51820),
        addresses: vec!["10.0.0.1/24".to_string()],
        dns: vec!["1.1.1.1".to_string(), "8.8.8.8".to_string()],
        mtu: Some(1420),
        peers: vec![WireGuardPeer {
            public_key: "PEERKEYAAAAAAAAAAAAAAAAAAAAAAAAAAAAAAAAAAA=".to_string(),
            preshared_key: Some("PSKAAAAAAAAAAAAAAAAAAAAAAAAAAAAAAAAAAAAAAA=".to_string()),
            endpoint: Some("203.0.113.5:51820".to_string()),
            allowed_ips: vec!["10.0.0.2/32".to_string(), "10.0.1.0/24".to_string()],
            persistent_keepalive: Some(25),
            name: None,
        }],
        auto_connect: false,
    };
    let rendered = systemd.render_wireguard_config(&config);
    let parsed = systemd.parse_wireguard_config(&rendered, "wg0").unwrap();
    assert_eq!(parsed.interface_name, "wg0");
    assert_eq!(parsed.private_key, config.private_key);
    assert_eq!(parsed.listen_port, config.listen_port);
    assert_eq!(parsed.addresses, config.addresses);
    assert_eq!(parsed.dns, config.dns);
    assert_eq!(parsed.mtu, config.mtu);
    assert_eq!(parsed.peers.len(), 1);
    let peer = &parsed.peers[0];
    assert_eq!(peer.public_key, config.peers[0].public_key);
    assert_eq!(peer.preshared_key, config.peers[0].preshared_key);
    assert_eq!(peer.endpoint, config.peers[0].endpoint);
    assert_eq!(peer.allowed_ips, config.peers[0].allowed_ips);
    assert_eq!(peer.persistent_keepalive, config.peers[0].persistent_keepalive);
}

#[test]
fn test_parse_wireguard_config_skips_comments() {
    let systemd = SystemdNetworkConfig::new();
    let text = [
        "# tunnel to the office",
        "[Interface]",
        "PrivateKey = PRIVKEYAAA=",
        "Address = 10.0.0.1/24",
        "ListenPort = junk",
        "",
        "[Peer]",
        "PublicKey = PEERKEYAAA=",
        "AllowedIPs = 10.0.0.2/32, 10.0.1.0/24",
    ]
    .join("\n");
    let parsed = systemd.parse_wireguard_config(&text, "wg0").unwrap();
    assert_eq!(parsed.private_key, "PRIVKEYAAA=");
    assert_eq!(parsed.addresses, vec!["10.0.0.1/24".to_string()]);
    // a malformed port leaves the field unset instead of failing the file
    assert_eq!(parsed.listen_port, None);
    assert_eq!(parsed.peers.len(), 1);
    assert_eq!(parsed.peers[0].public_key, "PEERKEYAAA=");
    assert_eq!(
        parsed.peers[0].allowed_ips,
        vec!["10.0.0.2/32".to_string(), "10.0.1.0/24".to_string()]
    );
}

#[test]
fn test_render_network_config() {
    let systemd = SystemdNetworkConfig::new();
    let dhcp = systemd.render_network_config("eth0", true, None, None, None);
    assert_eq!(
        dhcp,
        "[Match]\nName=eth0\n\n[Network]\nDHCP=yes\n\n[Link]\nRequiredForOnline=yes\n"
    );
    let fixed = systemd.render_network_config(
        "eth0",
        false,
        Some("192.168.1.10/24".to_string()),
        Some("192.168.1.1".to_string()),
        Some(vec!["9.9.9.9".to_string()]),
    );
    assert_eq!(
        fixed,
        "[Match]\nName=eth0\n\n[Network]\nAddress=192.168.1.10/24\nGateway=192.168.1.1\nDNS=9.9.9.9\n\n[Link]\nRequiredForOnline=yes\n"
    );
}

#[test]
fn test_render_wpa_supplicant_config() {
    let systemd = SystemdNetworkConfig::new();
    let creds = lantern::network::WifiCredentials {
        ssid: "HomeNet".to_string(),
        password: Some("hunter2x".to_string()),
        security: WifiSecurity::WPA2,
        hidden: false,
        enterprise: None,
    };
    let rendered = systemd.render_wpa_supplicant_config(&creds).unwrap();
    assert!(rendered.contains("ssid=\"HomeNet\""));
    assert!(rendered.contains("psk=\"hunter2x\""));
    assert!(rendered.contains("key_mgmt=WPA-PSK"));
    let mut enterprise = creds.clone();
    enterprise.security = WifiSecurity::Enterprise;
    assert!(systemd.render_wpa_supplicant_config(&enterprise).is_err());
}

#[test]
fn test_render_wireguard_netdev_and_network() {
    let systemd = SystemdNetworkConfig::new();
    let config = WireGuardConfig {
        interface_name: "wg0".to_string(),
        private_key: "PRIVKEYAAA=".to_string(),
        public_key: String::new(),
        listen_port: None,
        addresses: vec!["10.0.0.1/24".to_string()],
        dns: vec![],
        mtu: None,
        peers: vec![WireGuardPeer {
            public_key: "PEERKEYAAA=".to_string(),
            preshared_key: None,
            endpoint: None,
            allowed_ips: vec!["0.0.0.0/0".to_string(), "10.0.1.0/24".to_string()],
            persistent_keepalive: None,
            name: None,
        }],
        auto_connect: false,
    };
    let netdev = systemd.render_wireguard_netdev(&config);
    assert!(netdev.starts_with("[NetDev]\nName=wg0\nKind=wireguard\n"));
    assert!(netdev.contains("[WireGuardPeer]\nPublicKey=PEERKEYAAA=\n"));
    assert!(netdev.contains("AllowedIPs=0.0.0.0/0\n"));
    let network_unit = systemd.render_wireguard_network(&config);
    // the catch-all network becomes no explicit route
    assert!(network_unit.contains("Route=10.0.1.0/24\n"));
    assert!(!network_unit.contains("Route=0.0.0.0/0"));
    assert!(network_unit.contains("RequiredForOnline=no\n"));
}

#[test]
fn test_parse_security_type() {
    assert_eq!(parse_security_type("Open"), WifiSecurity::Open);
    assert_eq!(parse_security_type("WPA3"), WifiSecurity::WPA3);
    assert_eq!(parse_security_type("Enterprise"), WifiSecurity::Enterprise);
    assert_eq!(parse_security_type("mystery"), WifiSecurity::WPA2);
}

#[test]
fn test_is_likely_wifi_interface() {
    assert!(is_likely_wifi_interface("wlan0"));
    assert!(is_likely_wifi_interface("wlp3s0"));
    assert!(is_likely_wifi_interface("wlx00aabbccddee"));
    assert!(!is_likely_wifi_interface("eth0"));
    assert!(!is_likely_wifi_interface("enp4s0"));
}

#[test]
fn test_iwd_networks_to_wifi() {
    let mgr = NetworkManager::new();
    let nets = vec![lantern::iwd::IwdNetwork {
        name: "HomeNet".to_string(),
        signal_strength: -45,
        security_type: "psk".to_string(),
        path: "/net/connman/iwd/network/HomeNet".to_string(),
        connected: true,
    }];
    let wifi = mgr.iwd_networks_to_wifi(nets);
    assert_eq!(wifi.len(), 1);
    assert_eq!(wifi[0].ssid, "HomeNet");
    assert_eq!(wifi[0].bssid, "Unknown");
    assert_eq!(wifi[0].signal_strength, -45);
    assert_eq!(wifi[0].security, WifiSecurity::WPA2);
    assert_eq!(wifi[0].encryption, vec!["psk".to_string()]);
    assert!(wifi[0].connected);
}

#[test]
fn test_add_profile_by_name() {
    let mut config = empty_config();
    config.add_profile(lantern::config::Profile {
        name: "office".to_string(),
        interface: "eth0".to_string(),
        dhcp: true,
        ip: None,
        gateway: None,
        dns: None,
    });
    config.add_profile(lantern::config::Profile {
        name: "office".to_string(),
        interface: "eth1".to_string(),
        dhcp: false,
        ip: Some("10.0.0.2/24".to_string()),
        gateway: None,
        dns: None,
    });
    assert_eq!(config.profiles.len(), 1);
    assert_eq!(config.profiles[0].interface, "eth1");
    assert!(config.get_profile("office").is_some());
    assert!(config.get_profile("home").is_none());
}

#[test]
fn test_required_files_exist() {
    assert!(
        std::path::Path::new("src/lib.rs").exists(),
        "lib.rs should exist"
    );
    assert!(
        std::path::Path::new("src/network.rs").exists(),
        "network.rs should exist"
    );
    assert!(
        std::path::Path::new("src/config.rs").exists(),
        "config.rs should exist"
    );
    assert!(
        std::path::Path::new("src/iwd.rs").exists(),
        "iwd.rs should exist"
    );
    assert!(
        std::path::Path::new("src/systemd.rs").exists(),
        "systemd.rs should exist"
    );
    assert!(
        std::path::Path::new("src/text.rs").exists(),
        "text.rs should exist"
    );
}
