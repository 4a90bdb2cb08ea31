//! Tests of the output parsers: scan blocks, link reports, device lists
//! and WireGuard dumps.

use lantern::iwd::IwdManager;
use lantern::network::{AddrEntry, Ipv6Scope, NetworkManager, WifiSecurity};

fn scan_block() -> String {
    [
        "BSS 38:43:7d:11:22:33(on wlan0)",
        "\tfreq: 2437",
        "\tsignal: -45.00 dBm",
        "\tSSID: HomeNet",
        "\tRSN:\t * Version: 1",
        "\t * Authentication suites: PSK",
        "\tWPA2 marker",
        "BSS 38:43:7d:44:55:66(on wlan0)",
        "\tfreq: 5180",
        "\tsignal: -60.00 dBm",
        "\tSSID: CoffeeShop",
        "\tcapability: ESS Privacy",
        "BSS 38:43:7d:77:88:99(on wlan0)",
        "\tfreq: 2412",
        "\tsignal: -80.00 dBm",
    ]
    .join("\n")
}

#[test]
fn test_scan_complete_sections_only() {
    // two complete sections and one without an SSID: two records
    let mgr = NetworkManager::new();
    let nets = mgr.parse_wifi_scan_results(&scan_block()).unwrap();
    assert_eq!(nets.len(), 2);
    assert_eq!(nets[0].ssid, "HomeNet");
    assert_eq!(nets[0].bssid, "38:43:7d:11:22:33(on");
    assert_eq!(nets[0].signal_strength, -45);
    assert_eq!(nets[0].frequency, 2437);
    assert_eq!(nets[0].channel, 6);
    assert_eq!(nets[0].security, WifiSecurity::WPA2);
    assert_eq!(nets[1].ssid, "CoffeeShop");
    assert_eq!(nets[1].signal_strength, -60);
    assert_eq!(nets[1].security, WifiSecurity::WEP);
    assert_eq!(nets[1].channel, 36);
}

#[test]
fn test_scan_missing_signal_discarded() {
    let mgr = NetworkManager::new();
    let block = ["BSS aa:bb:cc:dd:ee:ff(on wlan0)", "\tSSID: NoSignalNet"].join("\n");
    let nets = mgr.parse_wifi_scan_results(&block).unwrap();
    assert!(nets.is_empty());
}

#[test]
fn test_scan_dedup_keeps_strongest() {
    // the same SSID from two access points: the stronger one survives,
    // and the output is sorted by descending signal strength
    let mgr = NetworkManager::new();
    let block = [
        "BSS 00:00:00:00:00:01(on wlan0)",
        "\tsignal: -70.00 dBm",
        "\tSSID: Mesh",
        "BSS 00:00:00:00:00:02(on wlan0)",
        "\tsignal: -40.00 dBm",
        "\tSSID: Other",
        "BSS 00:00:00:00:00:03(on wlan0)",
        "\tsignal: -50.00 dBm",
        "\tSSID: Mesh",
    ]
    .join("\n");
    let nets = mgr.parse_wifi_scan_results(&block).unwrap();
    assert_eq!(nets.len(), 2);
    assert_eq!(nets[0].ssid, "Other");
    assert_eq!(nets[0].signal_strength, -40);
    assert_eq!(nets[1].ssid, "Mesh");
    assert_eq!(nets[1].signal_strength, -50);
}

#[test]
fn test_security_precedence_wpa3_over_wpa() {
    let mgr = NetworkManager::new();
    let block = [
        "BSS 00:00:00:00:00:01(on wlan0)",
        "\tsignal: -50.00 dBm",
        "\tSSID: Mixed",
        "\tWPA: version 1",
        "\tWPA3 transition mode",
    ]
    .join("\n");
    let nets = mgr.parse_wifi_scan_results(&block).unwrap();
    assert_eq!(nets.len(), 1);
    assert_eq!(nets[0].security, WifiSecurity::WPA3);
}

#[test]
fn test_security_precedence_enterprise_over_wpa2() {
    let mgr = NetworkManager::new();
    let block = [
        "BSS 00:00:00:00:00:01(on wlan0)",
        "\tsignal: -50.00 dBm",
        "\tSSID: Corp",
        "\tWPA2 with PSK",
        "\tIEEE 802.1X suite",
    ]
    .join("\n");
    let nets = mgr.parse_wifi_scan_results(&block).unwrap();
    assert_eq!(nets.len(), 1);
    assert_eq!(nets[0].security, WifiSecurity::Enterprise);
    assert_eq!(nets[0].encryption, vec!["WPA2".to_string(), "Enterprise".to_string()]);
}

#[test]
fn test_iwd_scan_output() {
    let mgr = IwdManager::new();
    let block = [
        "BSS 38:43:7d:11:22:33(on wlan0)",
        "\tsignal: -45.00 dBm",
        "\tSSID: HomeNet",
        "\tRSN: Version 1",
        "BSS 38:43:7d:44:55:66(on wlan0)",
        "\tsignal: -38.50 dBm",
        "\tSSID: OpenSpot",
        "BSS 38:43:7d:77:88:99(on wlan0)",
        "\tsignal: -52.00 dBm",
        "\tcapability: ESS Privacy",
    ]
    .join("\n");
    let nets = mgr.parse_iw_scan_output(&block).unwrap();
    // the third section has no SSID and is discarded; sorting is by
    // descending signal strength
    assert_eq!(nets.len(), 2);
    assert_eq!(nets[0].name, "OpenSpot");
    assert_eq!(nets[0].signal_strength, -38);
    assert_eq!(nets[0].security_type, "open");
    assert_eq!(nets[1].name, "HomeNet");
    assert_eq!(nets[1].signal_strength, -45);
    assert_eq!(nets[1].security_type, "psk");
    assert_eq!(nets[1].path, "/net/connman/iwd/network/HomeNet");
    assert!(!nets[1].connected);
}

#[test]
fn test_iwd_device_list() {
    let mgr = IwdManager::new();
    let listing = [
        "                                 Devices                              ",
        "--------------------------------------------------------------------",
        "  Name    Address            Powered   Adapter   Mode",
        "--------------------------------------------------------------------",
        "  wlan0   aa:bb:cc:dd:ee:ff  station   on",
        "  wlan1   11:22:33:44:55:66  station   off",
    ]
    .join("\n");
    let devices = mgr.parse_device_list(&listing);
    assert_eq!(devices.len(), 2);
    assert_eq!(devices[0].name, "wlan0");
    assert!(devices[0].powered);
    assert_eq!(devices[0].path, "/net/connman/iwd/wlan0");
    assert_eq!(devices[1].name, "wlan1");
    assert!(!devices[1].powered);
}

#[test]
fn test_iwd_station_rssi() {
    let mgr = IwdManager::new();
    let report = [
        "                      Station: wlan0",
        "--------------------------------------------------",
        "  Scanning            no",
        "  State               connected",
        "  Connected network   HomeNet",
        "  RSSI                -54dBm",
    ]
    .join("\n");
    assert_eq!(mgr.parse_station_rssi(&report), Some(-54));
    assert_eq!(mgr.parse_station_rssi("State connected\n"), None);
}

#[test]
fn test_parse_iw_link_info() {
    let mgr = NetworkManager::new();
    let report = [
        "Connected to 38:43:7d:11:22:33 (on wlan0)",
        "\tSSID: HomeNet",
        "\tfreq: 5180",
        "\tsignal: -47 dBm",
        "\ttx bitrate: 866.7 MBit/s",
    ]
    .join("\n");
    let net = mgr.parse_iw_link_info(&report).unwrap().unwrap();
    assert_eq!(net.ssid, "HomeNet");
    assert_eq!(net.bssid, "38:43:7d:11:22:33");
    assert_eq!(net.frequency, 5180);
    assert_eq!(net.channel, 36);
    assert_eq!(net.signal_strength, -47);
    assert_eq!(net.security, WifiSecurity::WPA2);
    assert!(mgr.parse_iw_link_info("Not connected.").unwrap().is_none());
}

#[test]
fn test_parse_wireguard_dump() {
    let mgr = NetworkManager::new();
    let dump = [
        "wg0\tPUBKEYAAA=\t51820\toff",
        "wg0\tPEERKEY1=\t(none)\t203.0.113.5:51820\t10.0.0.2/32,10.0.1.0/24\t1700000000\t1234\t5678\t25",
        "wg0\tPEERKEY2=\t(none)\t\t10.0.0.3/32\t\t0\t0\t",
    ]
    .join("\n");
    let status = mgr.parse_wireguard_dump(&dump, "wg0").unwrap().unwrap();
    assert_eq!(status.interface, "wg0");
    assert_eq!(status.public_key, "PUBKEYAAA=");
    assert_eq!(status.listen_port, Some(51820));
    assert_eq!(status.peers.len(), 2);
    assert_eq!(status.peers[0].public_key, "PEERKEY1=");
    assert_eq!(status.peers[0].endpoint.as_deref(), Some("203.0.113.5:51820"));
    assert_eq!(
        status.peers[0].allowed_ips,
        vec!["10.0.0.2/32".to_string(), "10.0.1.0/24".to_string()]
    );
    assert_eq!(status.peers[0].latest_handshake, Some(1700000000));
    assert_eq!(status.peers[0].transfer_rx, 1234);
    assert_eq!(status.peers[0].transfer_tx, 5678);
    assert_eq!(status.peers[0].persistent_keepalive, Some(25));
    assert_eq!(status.peers[1].latest_handshake, None);
    assert!(status.connected);
    assert_eq!(status.last_handshake, Some(1700000000));
    assert!(mgr.parse_wireguard_dump("", "wg0").unwrap().is_none());
}

#[test]
fn test_frequency_to_channel() {
    let mgr = NetworkManager::new();
    assert_eq!(mgr.frequency_to_channel(2412), 1);
    assert_eq!(mgr.frequency_to_channel(2437), 6);
    assert_eq!(mgr.frequency_to_channel(2462), 11);
    assert_eq!(mgr.frequency_to_channel(5180), 36);
    assert_eq!(mgr.frequency_to_channel(5500), 100);
    assert_eq!(mgr.frequency_to_channel(100), 0);
    assert_eq!(mgr.frequency_to_channel(0), 0);
}

#[test]
fn test_parse_iwd_security_type() {
    let mgr = NetworkManager::new();
    assert_eq!(mgr.parse_iwd_security_type("open"), WifiSecurity::Open);
    assert_eq!(mgr.parse_iwd_security_type("WEP"), WifiSecurity::WEP);
    assert_eq!(mgr.parse_iwd_security_type("psk"), WifiSecurity::WPA2);
    assert_eq!(mgr.parse_iwd_security_type("8021x"), WifiSecurity::Enterprise);
    assert_eq!(mgr.parse_iwd_security_type("SAE"), WifiSecurity::WPA3);
    assert_eq!(mgr.parse_iwd_security_type("anything"), WifiSecurity::WPA2);
}

#[test]
fn test_parse_link_signal_and_frequency() {
    let mgr = NetworkManager::new();
    let report = ["SSID: HomeNet", "\tfreq: 2437", "\tsignal: -47 dBm"].join("\n");
    assert_eq!(mgr.parse_link_signal(&report), Some(-47));
    assert_eq!(mgr.parse_link_frequency(&report), (Some(2437), Some(6)));
    assert_eq!(mgr.parse_link_signal("no such line"), None);
    assert_eq!(mgr.parse_link_frequency("freq: junk here"), (None, None));
}

#[test]
fn test_parse_default_route_device() {
    let mgr = NetworkManager::new();
    let out = "default via 192.168.1.1 dev wlan0 proto dhcp src 192.168.1.100 metric 600\n";
    assert_eq!(mgr.parse_default_route_device(out).as_deref(), Some("wlan0"));
    assert_eq!(mgr.parse_default_route_device("10.0.0.0/8 dev eth0\n"), None);
}

#[test]
fn test_parse_ipv6_gateway() {
    let mgr = NetworkManager::new();
    let out = "default via fe80::1 dev wlan0 proto ra metric 600\n";
    assert_eq!(mgr.parse_ipv6_gateway(out).as_deref(), Some("fe80::1"));
    assert_eq!(mgr.parse_ipv6_gateway("fe80::/64 dev wlan0\n"), None);
}

#[test]
fn test_parse_iw_link_details() {
    let mgr = NetworkManager::new();
    let report = ["signal: -60 dBm", "tx bitrate: 144.4 MBit/s"].join("\n");
    let (speed, power, quality) = mgr.parse_iw_link_details(&report);
    assert_eq!(speed, Some(144));
    assert_eq!(power, None);
    // -60 dBm maps to (30 * 100) / 60 = 50 percent
    assert_eq!(quality, Some(50));
}

#[test]
fn test_parse_iwconfig_details() {
    let mgr = NetworkManager::new();
    let report = [
        "wlan0     IEEE 802.11  ESSID:\"HomeNet\"",
        "          Bit Rate=54 Mb/s   Tx-Power=20 dBm",
        "          Link Quality=60/70  Signal level=-47 dBm",
    ]
    .join("\n");
    let (speed, power, quality) = mgr.parse_iwconfig_details(&report);
    assert_eq!(speed, Some(54));
    assert_eq!(power, Some(20));
    assert_eq!(quality, Some(85));
}

#[test]
fn test_split_addresses() {
    let mgr = NetworkManager::new();
    let entries = vec![
        AddrEntry {
            family: "inet".to_string(),
            local: "192.168.1.10".to_string(),
            prefixlen: 24,
        },
        AddrEntry {
            family: "inet6".to_string(),
            local: "fe80::1234".to_string(),
            prefixlen: 64,
        },
        AddrEntry {
            family: "inet6".to_string(),
            local: "2001:db8::5".to_string(),
            prefixlen: 64,
        },
    ];
    let (v4, v6) = mgr.split_addresses(&entries);
    assert_eq!(v4, vec!["192.168.1.10/24".to_string()]);
    // the link-local address is left out
    assert_eq!(v6, vec!["2001:db8::5/64".to_string()]);
}

#[test]
fn test_classify_ipv6_scope() {
    let mgr = NetworkManager::new();
    assert_eq!(mgr.classify_ipv6_scope("global", "2001:db8::5"), Ipv6Scope::Global);
    assert_eq!(mgr.classify_ipv6_scope("link", "fe80::1"), Ipv6Scope::LinkLocal);
    assert_eq!(mgr.classify_ipv6_scope("site", "fec0::1"), Ipv6Scope::SiteLocal);
    assert_eq!(mgr.classify_ipv6_scope("host", "::1"), Ipv6Scope::Loopback);
    assert_eq!(mgr.classify_ipv6_scope("odd", "fd00::1"), Ipv6Scope::UniqueLocal);
    assert_eq!(mgr.classify_ipv6_scope("odd", "2001:db8::5"), Ipv6Scope::Unknown);
}

#[test]
fn test_parse_dns_candidates() {
    let mgr = NetworkManager::new();
    let report = [
        "Global",
        "       Protocols: +LLMNR +mDNS",
        "     DNS Servers: 1.1.1.1",
        "                  9.9.9.9",
        "                  not-an-address",
        "Link 2 (eth0)",
        "     DNS Servers: 10.0.0.53",
    ]
    .join("\n");
    let candidates = mgr.parse_dns_candidates(&report);
    // the named server needs no check; bare in-section lines do; the
    // link section contributes nothing to the global list
    let values: Vec<(&str, bool)> =
        candidates.iter().map(|c| (c.value.as_str(), c.needs_check)).collect();
    assert_eq!(
        values,
        vec![("1.1.1.1", false), ("9.9.9.9", true), ("not-an-address", true)]
    );
}

#[test]
fn test_malformed_numbers_default_to_zero() {
    let mgr = NetworkManager::new();
    let block = [
        "BSS 00:00:00:00:00:01(on wlan0)",
        "\tfreq: not-a-number",
        "\tsignal: junk dBm",
        "\tSSID: Odd",
    ]
    .join("\n");
    let nets = mgr.parse_wifi_scan_results(&block).unwrap();
    assert_eq!(nets.len(), 1);
    assert_eq!(nets[0].frequency, 0);
    assert_eq!(nets[0].signal_strength, 0);
    assert_eq!(nets[0].channel, 0);
}
