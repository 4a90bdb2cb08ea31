//! Core network domain types and the parsers that build them from the
//! textual output of the system tools.

use vstd::prelude::*;

use crate::errors::NetworkError;
use crate::scan;
use crate::text;

verus! {

/// Security classification of a wireless network.  Unknown or ambiguous
/// markers never fail a record; they fall back to `WPA2`.
#[derive(Clone, Copy, Debug, PartialEq, Eq, Structural)]
pub enum WifiSecurity {
    Open,
    WEP,
    WPA,
    WPA2,
    WPA3,
    Enterprise,
}

/// A wireless network seen in a scan.  The SSID is not a unique key across
/// scans; duplicates are deduplicated by policy, not rejected.
#[derive(Clone, Debug)]
pub struct WifiNetwork {
    pub ssid: String,
    pub bssid: String,
    pub signal_strength: i32,
    pub frequency: u32,
    pub channel: u32,
    pub security: WifiSecurity,
    pub encryption: Vec<String>,
    pub connected: bool,
    pub in_history: bool,
}

pub ghost struct WifiNetworkV {
    pub ssid: Seq<char>,
    pub bssid: Seq<char>,
    pub signal_strength: int,
    pub frequency: int,
    pub channel: int,
    pub security: WifiSecurity,
    pub encryption: Seq<Seq<char>>,
    pub connected: bool,
    pub in_history: bool,
}

impl View for WifiNetwork {
    type V = WifiNetworkV;

    open spec fn view(&self) -> WifiNetworkV {
        WifiNetworkV {
            ssid: self.ssid@,
            bssid: self.bssid@,
            signal_strength: self.signal_strength as int,
            frequency: self.frequency as int,
            channel: self.channel as int,
            security: self.security,
            encryption: text::seq_views(self.encryption@),
            connected: self.connected,
            in_history: self.in_history,
        }
    }
}

/// Live connection information of a wireless interface; derived on demand
/// and never persisted.
#[derive(Clone, Debug)]
pub struct WifiInfo {
    pub current_network: Option<WifiNetwork>,
    pub signal_strength: Option<i32>,
    pub frequency: Option<u32>,
    pub channel: Option<u32>,
}

/// Traffic counters of one interface; refreshed independently of the rest
/// of the interface record.
#[derive(Clone, Copy, Debug)]
pub struct InterfaceStats {
    pub rx_bytes: u64,
    pub tx_bytes: u64,
    pub rx_packets: u64,
    pub tx_packets: u64,
    pub rx_errors: u64,
    pub tx_errors: u64,
}

impl Default for InterfaceStats {
    fn default() -> (r: Self)
        ensures
            r.rx_bytes == 0 && r.tx_bytes == 0,
            r.rx_packets == 0 && r.tx_packets == 0,
            r.rx_errors == 0 && r.tx_errors == 0,
    {
        InterfaceStats {
            rx_bytes: 0,
            tx_bytes: 0,
            rx_packets: 0,
            tx_packets: 0,
            rx_errors: 0,
            tx_errors: 0,
        }
    }
}

/// IPv6 address scope classification.
#[derive(Clone, Copy, Debug, PartialEq, Eq, Structural)]
pub enum Ipv6Scope {
    Global,
    LinkLocal,
    SiteLocal,
    UniqueLocal,
    Loopback,
    Unknown,
}

#[derive(Clone, Debug)]
pub struct Ipv6Address {
    pub address: String,
    pub prefix_length: u8,
    pub scope: Ipv6Scope,
    pub flags: Vec<String>,
    pub preferred_lifetime: Option<u32>,
    pub valid_lifetime: Option<u32>,
}

#[derive(Clone, Debug)]
pub struct Ipv6Info {
    pub addresses: Vec<Ipv6Address>,
    pub default_route: Option<String>,
    pub dns_servers: Vec<String>,
    pub accept_ra: bool,
    pub privacy_extensions: bool,
    pub dhcpv6_enabled: bool,
}

#[derive(Clone, Debug)]
pub struct Ipv6Config {
    pub enable_ipv6: bool,
    pub addresses: Vec<String>,
    pub gateway: Option<String>,
    pub dns_servers: Vec<String>,
    pub accept_ra: bool,
    pub privacy_extensions: bool,
    pub dhcpv6: bool,
}

/// The canonical aggregate for one network interface, rebuilt wholesale on
/// each discovery pass.
#[derive(Clone, Debug)]
pub struct Interface {
    pub name: String,
    pub mac_address: String,
    pub state: String,
    pub mtu: u32,
    pub ipv4_addresses: Vec<String>,
    pub ipv6_addresses: Vec<String>,
    pub ipv6_info: Option<Ipv6Info>,
    pub gateway: Option<String>,
    pub ipv6_gateway: Option<String>,
    pub dns_servers: Vec<String>,
    pub stats: InterfaceStats,
    pub wifi_info: Option<WifiInfo>,
}

/// Detailed per-connection WiFi information, fetched lazily on explicit
/// request only.
#[derive(Clone, Debug)]
pub struct DetailedWifiInfo {
    pub ssid: String,
    pub bssid: String,
    pub signal_strength: i32,
    pub signal_quality: Option<u32>,
    pub frequency: u32,
    pub channel: u32,
    pub tx_power: Option<i32>,
    pub link_speed: Option<u32>,
    pub security: WifiSecurity,
    pub encryption: Vec<String>,
    pub connected_time_secs: Option<u64>,
    pub tx_packets: u64,
    pub rx_packets: u64,
    pub tx_bytes: u64,
    pub rx_bytes: u64,
    pub tx_errors: u64,
    pub rx_errors: u64,
    pub tx_dropped: u64,
    pub rx_dropped: u64,
    pub tx_retries: u64,
}

#[derive(Clone, Copy, Debug, PartialEq, Eq, Structural)]
pub enum EnterpriseAuthMethod {
    PEAP,
    TTLS,
    TLS,
    PWD,
    LEAP,
}

#[derive(Clone, Copy, Debug, PartialEq, Eq, Structural)]
pub enum Phase2AuthMethod {
    MSCHAPV2,
    PAP,
    CHAP,
    GTC,
    MD5,
}

/// Credentials for 802.1X enterprise networks.  The phase-2 method is
/// meaningful only for PEAP and TTLS.
#[derive(Clone, Debug)]
pub struct EnterpriseCredentials {
    pub auth_method: EnterpriseAuthMethod,
    pub username: String,
    pub password: String,
    pub identity: Option<String>,
    pub ca_cert: Option<String>,
    pub client_cert: Option<String>,
    pub private_key: Option<String>,
    pub private_key_password: Option<String>,
    pub phase2_auth: Option<Phase2AuthMethod>,
}

#[derive(Clone, Debug)]
pub struct WifiCredentials {
    pub ssid: String,
    pub password: Option<String>,
    pub security: WifiSecurity,
    pub hidden: bool,
    pub enterprise: Option<EnterpriseCredentials>,
}

#[derive(Clone, Debug)]
pub struct WireGuardPeer {
    pub public_key: String,
    pub preshared_key: Option<String>,
    pub endpoint: Option<String>,
    pub allowed_ips: Vec<String>,
    pub persistent_keepalive: Option<u16>,
    pub name: Option<String>,
}

#[derive(Clone, Debug)]
pub struct WireGuardConfig {
    pub interface_name: String,
    pub private_key: String,
    pub public_key: String,
    pub listen_port: Option<u16>,
    pub addresses: Vec<String>,
    pub dns: Vec<String>,
    pub mtu: Option<u16>,
    pub peers: Vec<WireGuardPeer>,
    pub auto_connect: bool,
}

pub ghost struct WireGuardPeerV {
    pub public_key: Seq<char>,
    pub preshared_key: Option<Seq<char>>,
    pub endpoint: Option<Seq<char>>,
    pub allowed_ips: Seq<Seq<char>>,
    pub persistent_keepalive: Option<int>,
    pub name: Option<Seq<char>>,
}

/// The view of an optional owned string.
pub open spec fn opt_str_v(o: &Option<String>) -> Option<Seq<char>> {
    match o {
        Some(s) => Some(s@),
        None => None,
    }
}

/// The view of an optional port-sized number.
pub open spec fn opt_u16_v(o: Option<u16>) -> Option<int> {
    match o {
        Some(v) => Some(v as int),
        None => None,
    }
}

impl View for WireGuardPeer {
    type V = WireGuardPeerV;

    open spec fn view(&self) -> WireGuardPeerV {
        WireGuardPeerV {
            public_key: self.public_key@,
            preshared_key: opt_str_v(&self.preshared_key),
            endpoint: opt_str_v(&self.endpoint),
            allowed_ips: text::seq_views(self.allowed_ips@),
            persistent_keepalive: opt_u16_v(self.persistent_keepalive),
            name: opt_str_v(&self.name),
        }
    }
}

pub ghost struct WireGuardConfigV {
    pub interface_name: Seq<char>,
    pub private_key: Seq<char>,
    pub public_key: Seq<char>,
    pub listen_port: Option<int>,
    pub addresses: Seq<Seq<char>>,
    pub dns: Seq<Seq<char>>,
    pub mtu: Option<int>,
    pub peers: Seq<WireGuardPeerV>,
    pub auto_connect: bool,
}

impl View for WireGuardConfig {
    type V = WireGuardConfigV;

    open spec fn view(&self) -> WireGuardConfigV {
        WireGuardConfigV {
            interface_name: self.interface_name@,
            private_key: self.private_key@,
            public_key: self.public_key@,
            listen_port: opt_u16_v(self.listen_port),
            addresses: text::seq_views(self.addresses@),
            dns: text::seq_views(self.dns@),
            mtu: opt_u16_v(self.mtu),
            peers: crate::views(self.peers@),
            auto_connect: self.auto_connect,
        }
    }
}

/// Live status of one WireGuard peer; handshake times are seconds since the
/// Unix epoch.
#[derive(Clone, Debug)]
pub struct WireGuardPeerStatus {
    pub public_key: String,
    pub endpoint: Option<String>,
    pub allowed_ips: Vec<String>,
    pub latest_handshake: Option<u64>,
    pub transfer_rx: u64,
    pub transfer_tx: u64,
    pub persistent_keepalive: Option<u16>,
}

pub ghost struct WireGuardPeerStatusV {
    pub public_key: Seq<char>,
    pub endpoint: Option<Seq<char>>,
    pub allowed_ips: Seq<Seq<char>>,
    pub latest_handshake: Option<int>,
    pub transfer_rx: int,
    pub transfer_tx: int,
    pub persistent_keepalive: Option<int>,
}

/// The view of an optional seconds count.
pub open spec fn opt_u64_v(o: Option<u64>) -> Option<int> {
    match o {
        Some(v) => Some(v as int),
        None => None,
    }
}

impl View for WireGuardPeerStatus {
    type V = WireGuardPeerStatusV;

    open spec fn view(&self) -> WireGuardPeerStatusV {
        WireGuardPeerStatusV {
            public_key: self.public_key@,
            endpoint: opt_str_v(&self.endpoint),
            allowed_ips: text::seq_views(self.allowed_ips@),
            latest_handshake: opt_u64_v(self.latest_handshake),
            transfer_rx: self.transfer_rx as int,
            transfer_tx: self.transfer_tx as int,
            persistent_keepalive: opt_u16_v(self.persistent_keepalive),
        }
    }
}

#[derive(Clone, Debug)]
pub struct WireGuardStatus {
    pub interface: String,
    pub public_key: String,
    pub listen_port: Option<u16>,
    pub peers: Vec<WireGuardPeerStatus>,
    pub connected: bool,
    pub last_handshake: Option<u64>,
}

pub ghost struct WireGuardStatusV {
    pub interface: Seq<char>,
    pub public_key: Seq<char>,
    pub listen_port: Option<int>,
    pub peers: Seq<WireGuardPeerStatusV>,
    pub connected: bool,
    pub last_handshake: Option<int>,
}

impl View for WireGuardStatus {
    type V = WireGuardStatusV;

    open spec fn view(&self) -> WireGuardStatusV {
        WireGuardStatusV {
            interface: self.interface@,
            public_key: self.public_key@,
            listen_port: opt_u16_v(self.listen_port),
            peers: crate::views(self.peers@),
            connected: self.connected,
            last_handshake: opt_u64_v(self.last_handshake),
        }
    }
}

#[derive(Clone, Debug)]
pub struct WireGuardKeyPair {
    pub private_key: String,
    pub public_key: String,
}

#[derive(Clone, Debug)]
pub struct HotspotConfig {
    pub ssid: String,
    pub password: String,
    pub interface: String,
    pub channel: u32,
    pub ip_range: String,
    pub gateway: String,
}

/// The view of an optional exec signal value.
pub open spec fn opt_int(o: Option<i32>) -> Option<int> {
    match o {
        Some(v) => Some(v as int),
        None => None,
    }
}

/// The scan accumulator assembled from the parser's working variables.
pub open spec fn acc_of(
    ssid: Seq<char>,
    bssid: Seq<char>,
    signal: Option<int>,
    frequency: int,
    sec_level: int,
    encryption: Seq<Seq<char>>,
) -> scan::ScanAcc {
    scan::ScanAcc { bssid, ssid, signal, frequency, sec_level, encryption }
}

/// Exec counterpart of `scan::level_security`.
fn level_security_exec(lv: u8) -> (s: WifiSecurity)
    ensures
        s == scan::level_security(lv as int),
{
    if lv >= 5 {
        WifiSecurity::Enterprise
    } else if lv == 4 {
        WifiSecurity::WPA3
    } else if lv == 3 {
        WifiSecurity::WPA2
    } else if lv == 2 {
        WifiSecurity::WPA
    } else if lv == 1 {
        WifiSecurity::WEP
    } else {
        WifiSecurity::Open
    }
}

/// Flushes the current accumulator: appends one record if it is complete
/// (non-empty name and a signal value), nothing otherwise.
fn flush_record(
    out: &mut Vec<WifiNetwork>,
    ssid: String,
    bssid: String,
    signal: Option<i32>,
    frequency: u32,
    lvl: u8,
    encryption: Vec<String>,
)
    ensures
        crate::views(final(out)@) == crate::views(old(out)@) + scan::flush_acc(
            acc_of(
                ssid@,
                bssid@,
                opt_int(signal),
                frequency as int,
                lvl as int,
                text::seq_views(encryption@),
            ),
        ),
{
    let ghost a = acc_of(
        ssid@,
        bssid@,
        opt_int(signal),
        frequency as int,
        lvl as int,
        text::seq_views(encryption@),
    );
    let complete = !ssid.as_str().is_empty() && signal.is_some();
    if complete {
        let sig: i32 = match signal {
            Some(v) => v,
            None => 0,
        };
        let channel: u32 = if 2412 <= frequency && frequency <= 2484 {
            (frequency - 2412) / 5 + 1
        } else if 5000 <= frequency && frequency <= 6000 {
            (frequency - 5000) / 5
        } else {
            0
        };
        let rec = WifiNetwork {
            ssid,
            bssid,
            signal_strength: sig,
            frequency,
            channel,
            security: level_security_exec(lvl),
            encryption,
            connected: false,
            in_history: false,
        };
        proof {
            assert(rec@ == scan::acc_record(a));
        }
        out.push(rec);
        proof {
            assert(crate::views(out@) =~= crate::views(old(out)@) + scan::flush_acc(a));
        }
    } else {
        proof {
            assert(crate::views(out@) =~= crate::views(old(out)@) + scan::flush_acc(a));
        }
    }
}

/// Inserts `x` behind every already stored network with at least its
/// signal strength: one step of the stable descending sort.
fn insert_net_desc(out: &mut Vec<WifiNetwork>, x: WifiNetwork)
    ensures
        crate::views(final(out)@) == scan::insert_stable(
            crate::views(old(out)@),
            x@,
            scan::net_geq(),
        ),
{
    let mut k: usize = 0;
    while k < out.len() && out[k].signal_strength >= x.signal_strength
        invariant
            0 <= k <= out.len(),
            out == old(out),
            forall|j: int| 0 <= j < k ==> crate::views(out@)[j].signal_strength
                >= x@.signal_strength,
        decreases out.len() - k,
    {
        proof {
            assert(crate::views(out@)[k as int] == out@[k as int]@);
        }
        k += 1;
    }
    let ghost v = crate::views(out@);
    proof {
        assert forall|j: int| 0 <= j < k implies scan::net_geq()(v[j], x@) by {
            assert(scan::net_geq()(v[j], x@) == scan::signal_geq(v[j], x@));
        }
        if (k as int) < v.len() {
            assert(crate::views(out@)[k as int] == out@[k as int]@);
            assert(!scan::net_geq()(v[k as int], x@)) by {
                assert(scan::net_geq()(v[k as int], x@) == scan::signal_geq(v[k as int], x@));
            }
        }
        scan::lemma_insert_stable_at(v, x@, scan::net_geq(), k as int);
    }
    out.insert(k, x);
    proof {
        assert(crate::views(out@) =~= v.take(k as int) + seq![x@] + v.skip(k as int));
    }
}

/// Sorts the scanned networks by signal strength descending; the sort is
/// stable, so records with equal strength keep their scan order.
fn sort_networks_desc(v: Vec<WifiNetwork>) -> (r: Vec<WifiNetwork>)
    ensures
        crate::views(r@) == scan::sort_nets(crate::views(v@)),
{
    let ghost orig = crate::views(v@);
    let mut v = v;
    let mut out: Vec<WifiNetwork> = Vec::new();
    let n = v.len();
    proof {
        assert(orig.len() == n);
    }
    proof {
        assert(crate::views(v@) =~= orig.skip(0));
        assert(crate::views(out@) =~= scan::sort_stable(orig.take(0), scan::net_geq()));
    }
    let mut i: usize = 0;
    while v.len() > 0
        invariant
            0 <= i <= n,
            crate::views(v@) =~= orig.skip(i as int),
            n == orig.len(),
            crate::views(out@) == scan::sort_stable(orig.take(i as int), scan::net_geq()),
        decreases v.len(),
    {
        let ghost vb = v@;
        let x = v.remove(0);
        proof {
            assert(crate::views(vb).len() == vb.len());
            assert(i < n);
            assert(crate::views(vb)[0] == vb[0]@);
            assert(x@ == orig[i as int]);
            assert(crate::views(v@) =~= orig.skip(i + 1)) by {
                assert forall|w: int| 0 <= w < v@.len() implies crate::views(v@)[w] == orig.skip(
                    i + 1,
                )[w] by {
                    assert(v@[w] == vb[w + 1]);
                    assert(crate::views(vb)[w + 1] == vb[w + 1]@);
                }
            }
            assert(orig.take(i + 1).drop_last() =~= orig.take(i as int));
            assert(orig.take(i + 1).last() == orig[i as int]);
        }
        insert_net_desc(&mut out, x);
        i += 1;
    }
    proof {
        assert(orig.take(n as int) =~= orig);
    }
    out
}

/// The set of SSIDs already represented in `v`.
pub open spec fn ssids_of(v: Seq<WifiNetworkV>) -> Set<Seq<char>> {
    Set::new(|s: Seq<char>| exists|j: int| 0 <= j < v.len() && (#[trigger] v[j]).ssid == s)
}

/// Whether some stored network already carries this SSID.
fn contains_ssid(v: &Vec<WifiNetwork>, ssid: &String) -> (r: bool)
    ensures
        r == ssids_of(crate::views(v@)).contains(ssid@),
{
    let mut j: usize = 0;
    while j < v.len()
        invariant
            0 <= j <= v.len(),
            forall|w: int| 0 <= w < j ==> (#[trigger] crate::views(v@)[w]).ssid != ssid@,
        decreases v.len() - j,
    {
        if v[j].ssid == *ssid {
            proof {
                assert(crate::views(v@)[j as int].ssid == ssid@);
            }
            return true;
        }
        proof {
            assert(crate::views(v@)[j as int] == v@[j as int]@);
        }
        j += 1;
    }
    false
}

/// Keeps the first record of each SSID, in order: on a list sorted by
/// descending signal strength this keeps the strongest occurrence.
fn dedup_networks_by_ssid(v: Vec<WifiNetwork>) -> (r: Vec<WifiNetwork>)
    ensures
        crate::views(r@) == scan::dedup_nets(crate::views(v@)),
{
    let ghost orig = crate::views(v@);
    let mut v = v;
    let mut out: Vec<WifiNetwork> = Vec::new();
    let n = v.len();
    proof {
        assert(orig.len() == n);
    }
    proof {
        assert(crate::views(v@) =~= orig.skip(0));
        assert(ssids_of(crate::views(out@)) =~= Set::<Seq<char>>::empty());
    }
    let mut i: usize = 0;
    while v.len() > 0
        invariant
            0 <= i <= n,
            n == orig.len(),
            crate::views(v@) =~= orig.skip(i as int),
            scan::dedup_nets(orig) == crate::views(out@) + scan::dedup_rec(
                orig.skip(i as int),
                scan::net_key(),
                ssids_of(crate::views(out@)),
            ),
        decreases v.len(),
    {
        let ghost vb = v@;
        let x = v.remove(0);
        proof {
            assert(crate::views(vb).len() == vb.len());
            assert(i < n);
            assert(crate::views(vb)[0] == vb[0]@);
            assert(x@ == orig[i as int]);
            assert(crate::views(v@) =~= orig.skip(i + 1)) by {
                assert forall|w: int| 0 <= w < v@.len() implies crate::views(v@)[w] == orig.skip(
                    i + 1,
                )[w] by {
                    assert(v@[w] == vb[w + 1]);
                    assert(crate::views(vb)[w + 1] == vb[w + 1]@);
                }
            }
            assert(orig.skip(i as int)[0] == orig[i as int]);
            assert(orig.skip(i as int).skip(1) =~= orig.skip(i + 1));
            assert(scan::net_key()(orig[i as int]) == scan::ssid_key(orig[i as int]));
        }
        let ghost seen = ssids_of(crate::views(out@));
        if contains_ssid(&out, &x.ssid) {
            proof {
                assert(scan::dedup_rec(orig.skip(i as int), scan::net_key(), seen)
                    == scan::dedup_rec(orig.skip(i + 1), scan::net_key(), seen));
            }
        } else {
            let ghost out_before = crate::views(out@);
            out.push(x);
            proof {
                let nv = crate::views(out@);
                assert(nv =~= out_before + seq![x@]);
                assert(ssids_of(nv) =~= seen.insert(x@.ssid)) by {
                    assert forall|s: Seq<char>| ssids_of(nv).contains(s) implies seen.insert(
                        x@.ssid,
                    ).contains(s) by {
                        let j = choose|j: int| 0 <= j < nv.len() && (#[trigger] nv[j]).ssid == s;
                        if j < nv.len() - 1 {
                            assert(out_before[j].ssid == s);
                        }
                    }
                    assert forall|s: Seq<char>| seen.insert(x@.ssid).contains(s) implies ssids_of(
                        nv,
                    ).contains(s) by {
                        if s == x@.ssid {
                            assert(nv[nv.len() - 1].ssid == s);
                        } else {
                            let j = choose|j: int|
                                0 <= j < out_before.len() && (#[trigger] out_before[j]).ssid == s;
                            assert(nv[j].ssid == s);
                        }
                    }
                }
            }
        }
        i += 1;
    }
    proof {
        assert(crate::views(out@) + scan::dedup_rec(
            orig.skip(n as int),
            scan::net_key(),
            ssids_of(crate::views(out@)),
        ) =~= crate::views(out@));
    }
    out
}

pub struct NetworkManager {
}

impl NetworkManager {
    pub fn new() -> Self {
        NetworkManager {}
    }

    /// Converts a WiFi radio frequency in MHz to its channel number;
    /// frequencies outside the 2.4 GHz and 5 GHz bands map to channel 0.
    pub fn frequency_to_channel(&self, frequency: u32) -> (channel: u32)
        ensures
            channel == spec_frequency_to_channel(frequency as int),
    {
        if 2412 <= frequency && frequency <= 2484 {
            (frequency - 2412) / 5 + 1
        } else if 5000 <= frequency && frequency <= 6000 {
            (frequency - 5000) / 5
        } else {
            0
        }
    }

    /// Maps the modern backend's security tag to the classification;
    /// unknown tags fall back to WPA2 rather than failing the record.
    pub fn parse_iwd_security_type(&self, security_type: &str) -> (r: WifiSecurity)
        ensures
            r == spec_iwd_security(security_type@),
    {
        if text::eq_ignore_ascii_case_str(security_type, "open") {
            WifiSecurity::Open
        } else if text::eq_ignore_ascii_case_str(security_type, "wep") {
            WifiSecurity::WEP
        } else if text::eq_ignore_ascii_case_str(security_type, "psk") {
            WifiSecurity::WPA2
        } else if text::eq_ignore_ascii_case_str(security_type, "8021x") {
            WifiSecurity::Enterprise
        } else if text::eq_ignore_ascii_case_str(security_type, "sae") {
            WifiSecurity::WPA3
        } else {
            WifiSecurity::WPA2
        }
    }

    /// Lifts the modern backend's scan records into the canonical network
    /// shape.  The backend does not expose BSSID or frequency, so those
    /// fields carry their documented placeholders.
    pub fn iwd_networks_to_wifi(&self, nets: Vec<crate::iwd::IwdNetwork>) -> (r: Vec<WifiNetwork>)
        ensures
            crate::views(r@) == wifi_of_iwd_seq(crate::views(nets@)),
    {
        let ghost orig = crate::views(nets@);
        let mut nets = nets;
        let mut out: Vec<WifiNetwork> = Vec::new();
        let n = nets.len();
        proof {
            assert(orig.len() == n);
            assert(crate::views(nets@) =~= orig.skip(0));
        }
        let mut i: usize = 0;
        while nets.len() > 0
            invariant
                0 <= i <= n,
                n == orig.len(),
                crate::views(nets@) =~= orig.skip(i as int),
                crate::views(out@) =~= wifi_of_iwd_seq(orig.take(i as int)),
            decreases nets.len(),
        {
            let ghost vb = nets@;
            let x = nets.remove(0);
            proof {
                assert(crate::views(vb).len() == vb.len());
                assert(i < n);
                assert(crate::views(vb)[0] == vb[0]@);
                assert(x@ == orig[i as int]);
                assert(crate::views(nets@) =~= orig.skip(i + 1)) by {
                    assert forall|w: int| 0 <= w < nets@.len() implies crate::views(nets@)[w]
                        == orig.skip(i + 1)[w] by {
                        assert(nets@[w] == vb[w + 1]);
                        assert(crate::views(vb)[w + 1] == vb[w + 1]@);
                    }
                }
            }
            let security = self.parse_iwd_security_type(x.security_type.as_str());
            let mut encryption: Vec<String> = Vec::new();
            let connected = x.connected;
            let signal: i32 = x.signal_strength as i32;
            encryption.push(x.security_type);
            let rec = WifiNetwork {
                ssid: x.name,
                bssid: String::from_str("Unknown"),
                signal_strength: signal,
                frequency: 0,
                channel: 0,
                security,
                encryption,
                connected,
                in_history: false,
            };
            proof {
                assert(text::seq_views(encryption@) =~= seq![orig[i as int].security_type]);
                assert(rec@ == wifi_of_iwd(orig[i as int]));
            }
            let ghost out_before = crate::views(out@);
            out.push(rec);
            proof {
                assert(crate::views(out@) =~= wifi_of_iwd_seq(orig.take(i + 1))) by {
                    let nv = crate::views(out@);
                    let tgt = wifi_of_iwd_seq(orig.take(i + 1));
                    assert(nv =~= out_before + seq![rec@]);
                    assert(nv.len() == tgt.len());
                    assert forall|w: int| 0 <= w < nv.len() implies nv[w] == tgt[w] by {
                        assert(tgt[w] == wifi_of_iwd(orig.take(i + 1)[w]));
                        if w < i {
                            assert(out_before[w] == wifi_of_iwd_seq(orig.take(i as int))[w]);
                            assert(wifi_of_iwd_seq(orig.take(i as int))[w] == wifi_of_iwd(
                                orig.take(i as int)[w],
                            ));
                        }
                    }
                }
            }
            i += 1;
        }
        proof {
            assert(orig.take(n as int) =~= orig);
        }
        out
    }

    /// Parses the link report of the legacy tool into the currently
    /// connected network, if the report names an SSID.  Security details
    /// are not part of the link report, so the record carries the WPA2
    /// default pending proper detection.
    #[verifier::rlimit(50)]
    pub fn parse_iw_link_info(&self, link_info: &str) -> (r: Result<
        Option<WifiNetwork>,
        NetworkError,
    >)
        ensures
            r is Ok,
            ({
                let o = spec_link_info(link_info@);
                match r {
                    Ok(Some(v)) => o is Some && v@ == o->Some_0,
                    Ok(None) => o is None,
                    Err(_) => false,
                }
            }),
    {
        let lines = text::lines_vec(link_info);
        let ghost lv = text::seq_views(lines@);
        let mut ssid = String::new();
        let mut bssid = String::new();
        let mut frequency: u32 = 0;
        let mut signal: i32 = 0;
        let n = lines.len();
        let mut i: usize = 0;
        proof {
            assert(lv.take(0) =~= Seq::<Seq<char>>::empty());
        }
        while i < n
            invariant
                0 <= i <= n,
                n == lines@.len(),
                lv == text::seq_views(lines@),
                ({
                    let a = link_fold(link_empty_acc(), lv.take(i as int));
                    &&& ssid@ == a.ssid
                    &&& bssid@ == a.bssid
                    &&& frequency as int == a.frequency
                    &&& signal as int == a.signal
                }),
            decreases n - i,
        {
            let ghost a = link_fold(link_empty_acc(), lv.take(i as int));
            let ghost a2 = link_step(a, lv[i as int]);
            proof {
                assert(lv.take(i + 1).drop_last() =~= lv.take(i as int));
                assert(lv.take(i + 1).last() == lv[i as int]);
                assert(link_fold(link_empty_acc(), lv.take(i + 1)) == a2);
            }
            let line: &String = &lines[i];
            let l: &str = text::trim_str(line.as_str());
            proof {
                assert(text::seq_views(lines@)[i as int] == lines@[i as int]@);
                assert(l@ == text::spec_trim(lv[i as int]));
            }
            if text::starts_with_str(l, "SSID:") {
                proof {
                    reveal_strlit("SSID:");
                }
                let ln = l.unicode_len();
                let rest = l.substring_char(5, ln);
                proof {
                    assert(rest@ =~= l@.skip(5));
                }
                ssid = text::trim_str(rest).to_owned();
            } else if text::starts_with_str(l, "Connected to") {
                let toks = text::split_ws_vec(l);
                if toks.len() >= 3 {
                    proof {
                        assert(text::seq_views(toks@)[2] == toks@[2]@);
                    }
                    bssid = toks[2].clone();
                } else {
                    bssid = String::new();
                }
            } else if text::contains_str(l, "freq:") {
                match text::after_first_str(l, "freq:") {
                    Some(rest) => {
                        let toks = text::split_ws_vec(rest);
                        if toks.len() >= 1 {
                            proof {
                                assert(text::seq_views(toks@)[0] == toks@[0]@);
                            }
                            frequency = text::parse_u32_or_zero(toks[0].as_str());
                        }
                    }
                    None => {},
                }
            } else if text::contains_str(l, "signal:") {
                match text::after_first_str(l, "signal:") {
                    Some(rest) => {
                        let toks = text::split_ws_vec(rest);
                        if toks.len() >= 1 {
                            proof {
                                assert(text::seq_views(toks@)[0] == toks@[0]@);
                            }
                            signal = text::parse_i32_or_zero(toks[0].as_str());
                        }
                    }
                    None => {},
                }
            }
            proof {
                assert(ssid@ == a2.ssid);
                assert(bssid@ == a2.bssid);
                assert(frequency as int == a2.frequency);
                assert(signal as int == a2.signal);
            }
            i += 1;
        }
        proof {
            assert(lv.take(n as int) =~= lv);
        }
        if !ssid.as_str().is_empty() {
            let channel = self.frequency_to_channel(frequency);
            let mut encryption: Vec<String> = Vec::new();
            encryption.push(String::from_str("WPA2"));
            proof {
                assert(text::seq_views(encryption@) =~= seq!["WPA2"@]);
            }
            let rec = WifiNetwork {
                ssid,
                bssid,
                signal_strength: signal,
                frequency,
                channel,
                security: WifiSecurity::WPA2,
                encryption,
                connected: false,
                in_history: false,
            };
            proof {
                assert(rec@ == spec_link_info(link_info@)->Some_0);
            }
            Ok(Some(rec))
        } else {
            Ok(None)
        }
    }

    /// Reads the first signal report from the link output; a malformed
    /// reading counts as zero.
    pub fn parse_link_signal(&self, link_info: &str) -> (r: Option<i32>)
        ensures
            r == spec_link_signal(link_info@),
    {
        let lines = text::lines_vec(link_info);
        let ghost lv = text::seq_views(lines@);
        let n = lines.len();
        let mut i: usize = 0;
        proof {
            assert(lv.skip(0) =~= lv);
        }
        while i < n
            invariant
                0 <= i <= n,
                n == lines@.len(),
                lv == text::seq_views(lines@),
                spec_link_signal(link_info@) == link_signal_rec(lv.skip(i as int)),
            decreases n - i,
        {
            proof {
                assert(lv.skip(i as int)[0] == lv[i as int]);
                assert(lv.skip(i as int).skip(1) =~= lv.skip(i + 1));
                assert(text::seq_views(lines@)[i as int] == lines@[i as int]@);
            }
            let r = link_signal_line(lines[i].as_str());
            if r.is_some() {
                return r;
            }
            i += 1;
        }
        proof {
            assert(lv.skip(n as int) =~= Seq::<Seq<char>>::empty());
        }
        None
    }

    /// Reads the first well-formed frequency from the link output,
    /// together with its channel.
    pub fn parse_link_frequency(&self, link_info: &str) -> (r: (Option<u32>, Option<u32>))
        ensures
            ({
                match spec_link_frequency(link_info@) {
                    Some(f) => r.0 == Some(f) && r.1 == Some(
                        spec_frequency_to_channel(f as int) as u32,
                    ),
                    None => r == (None::<u32>, None::<u32>),
                }
            }),
    {
        let lines = text::lines_vec(link_info);
        let ghost lv = text::seq_views(lines@);
        let n = lines.len();
        let mut i: usize = 0;
        proof {
            assert(lv.skip(0) =~= lv);
        }
        while i < n
            invariant
                0 <= i <= n,
                n == lines@.len(),
                lv == text::seq_views(lines@),
                spec_link_frequency(link_info@) == link_freq_rec(lv.skip(i as int)),
            decreases n - i,
        {
            proof {
                assert(lv.skip(i as int)[0] == lv[i as int]);
                assert(lv.skip(i as int).skip(1) =~= lv.skip(i + 1));
                assert(text::seq_views(lines@)[i as int] == lines@[i as int]@);
            }
            match link_freq_line(lines[i].as_str()) {
                Some(f) => {
                    let channel = self.frequency_to_channel(f);
                    return (Some(f), Some(channel));
                }
                None => {},
            }
            i += 1;
        }
        proof {
            assert(lv.skip(n as int) =~= Seq::<Seq<char>>::empty());
        }
        (None, None)
    }

    /// Reads the device that carries the default route from the route
    /// listing.
    pub fn parse_default_route_device(&self, route_output: &str) -> (r: Option<String>)
        ensures
            ({
                match (r, spec_internet_interface(route_output@)) {
                    (Some(d), Some(m)) => d@ == m,
                    (None, None) => true,
                    _ => false,
                }
            }),
    {
        let lines = text::lines_vec(route_output);
        let ghost lv = text::seq_views(lines@);
        let n = lines.len();
        let mut i: usize = 0;
        proof {
            assert(lv.skip(0) =~= lv);
        }
        while i < n
            invariant
                0 <= i <= n,
                n == lines@.len(),
                lv == text::seq_views(lines@),
                spec_internet_interface(route_output@) == route_dev_rec(lv.skip(i as int)),
            decreases n - i,
        {
            proof {
                assert(lv.skip(i as int)[0] == lv[i as int]);
                assert(lv.skip(i as int).skip(1) =~= lv.skip(i + 1));
                assert(text::seq_views(lines@)[i as int] == lines@[i as int]@);
            }
            let l = lines[i].as_str();
            if text::contains_str(l, "default") {
                match text::after_first_str(l, " dev ") {
                    Some(rest) => {
                        let ln = rest.unicode_len();
                        let dev = match text::find_char_str(rest, ' ') {
                            Some(sp) => rest.substring_char(0, sp),
                            None => rest,
                        };
                        proof {
                            assert(dev@ =~= text::spec_after_first(lv[i as int], " dev "@).take(
                                text::spec_find_char(
                                    text::spec_after_first(lv[i as int], " dev "@),
                                    ' ',
                                ),
                            ));
                        }
                        return Some(dev.to_owned());
                    }
                    None => {},
                }
            }
            proof {
                assert(route_dev_of_line(lv[i as int]) is None);
            }
            i += 1;
        }
        proof {
            assert(lv.skip(n as int) =~= Seq::<Seq<char>>::empty());
        }
        None
    }

    /// Reads the IPv6 default gateway from the route listing: the token
    /// after `via` on the first default-route line.
    pub fn parse_ipv6_gateway(&self, route_output: &str) -> (r: Option<String>)
        ensures
            ({
                match (r, spec_ipv6_gateway(route_output@)) {
                    (Some(d), Some(m)) => d@ == m,
                    (None, None) => true,
                    _ => false,
                }
            }),
    {
        let lines = text::lines_vec(route_output);
        let ghost lv = text::seq_views(lines@);
        let n = lines.len();
        let mut i: usize = 0;
        proof {
            assert(lv.skip(0) =~= lv);
        }
        while i < n
            invariant
                0 <= i <= n,
                n == lines@.len(),
                lv == text::seq_views(lines@),
                spec_ipv6_gateway(route_output@) == ipv6_gw_rec(lv.skip(i as int)),
            decreases n - i,
        {
            proof {
                assert(lv.skip(i as int)[0] == lv[i as int]);
                assert(lv.skip(i as int).skip(1) =~= lv.skip(i + 1));
                assert(text::seq_views(lines@)[i as int] == lines@[i as int]@);
            }
            let l = lines[i].as_str();
            if text::contains_str(l, "default via") {
                let toks = text::split_ws_vec(l);
                let ghost tv = text::spec_tokens(lv[i as int]);
                let mut v: usize = 0;
                proof {
                    lemma_first_via_bound(tv);
                }
                while v < toks.len() && !text::str_eq_str(toks[v].as_str(), "via")
                    invariant
                        0 <= v <= toks@.len(),
                        tv == text::seq_views(toks@),
                        first_via_idx(tv) >= v,
                    decreases toks@.len() - v,
                {
                    proof {
                        assert(text::seq_views(toks@)[v as int] == toks@[v as int]@);
                        lemma_first_via_past(tv, v as int);
                    }
                    v += 1;
                }
                proof {
                    if v < toks@.len() {
                        assert(text::seq_views(toks@)[v as int] == toks@[v as int]@);
                        lemma_first_via_at(tv, v as int);
                    }
                }
                if v < toks.len() && v + 1 < toks.len() {
                    proof {
                        assert(text::seq_views(toks@)[v + 1] == toks@[v as int + 1]@);
                    }
                    return Some(toks[v + 1].clone());
                }
                proof {
                    assert(ipv6_gw_of_line(lv[i as int]) is None);
                }
            } else {
                proof {
                    assert(ipv6_gw_of_line(lv[i as int]) is None);
                }
            }
            i += 1;
        }
        proof {
            assert(lv.skip(n as int) =~= Seq::<Seq<char>>::empty());
        }
        None
    }

    /// Installs freshly read traffic counters into already-known
    /// interfaces, by position: only the `stats` field of each interface
    /// changes, and interfaces beyond the fresh readings stay untouched.
    /// The statistics refresh runs more often than discovery and must
    /// never re-run it.
    pub fn update_interface_stats(
        &self,
        interfaces: &mut Vec<Interface>,
        fresh: &Vec<InterfaceStats>,
    )
        ensures
            final(interfaces)@.len() == old(interfaces)@.len(),
            forall|k: int|
                0 <= k < old(interfaces)@.len() ==> #[trigger] final(interfaces)@[k] == (if k
                    < fresh@.len() {
                    Interface { stats: fresh@[k], ..old(interfaces)@[k] }
                } else {
                    old(interfaces)@[k]
                }),
    {
        let ghost orig = interfaces@;
        let mut k: usize = 0;
        while k < interfaces.len() && k < fresh.len()
            invariant
                0 <= k <= orig.len(),
                k <= fresh@.len(),
                interfaces@.len() == orig.len(),
                forall|w: int| k <= w < orig.len() ==> #[trigger] interfaces@[w] == orig[w],
                forall|w: int|
                    0 <= w < k && w < fresh@.len() ==> #[trigger] interfaces@[w] == (Interface {
                        stats: fresh@[w],
                        ..orig[w]
                    }),
            decreases orig.len() - k,
        {
            let ghost before = interfaces@;
            let mut iface = interfaces.remove(k);
            proof {
                assert(iface == orig[k as int]);
            }
            iface.stats = fresh[k];
            interfaces.insert(k, iface);
            proof {
                assert(interfaces@.len() == orig.len());
                assert forall|w: int| 0 <= w < orig.len() && w != k implies #[trigger] interfaces@[w]
                    == before[w] by {
                    if w < k {
                        assert(interfaces@[w] == before.remove(k as int)[w]);
                        assert(before.remove(k as int)[w] == before[w]);
                    } else {
                        assert(interfaces@[w] == before.remove(k as int)[w - 1]);
                        assert(before.remove(k as int)[w - 1] == before[w]);
                    }
                }
                assert(interfaces@[k as int] == iface);
            }
            k += 1;
        }
    }

    /// Parses the resolver's status report into candidate global DNS
    /// servers: servers named on `DNS Servers:` lines inside the global
    /// section, plus bare in-section lines, the latter marked as still
    /// needing the caller's address-validity check.
    #[verifier::rlimit(50)]
    pub fn parse_dns_candidates(&self, output: &str) -> (r: Vec<DnsCandidate>)
        ensures
            crate::views(r@) == spec_dns_candidates(output@),
    {
        let lines = text::lines_vec(output);
        let ghost lv = text::seq_views(lines@);
        let mut in_global = false;
        let mut out: Vec<DnsCandidate> = Vec::new();
        let n = lines.len();
        let mut i: usize = 0;
        proof {
            assert(lv.take(0) =~= Seq::<Seq<char>>::empty());
            assert(crate::views(out@) =~= Seq::<DnsCandidateV>::empty());
        }
        while i < n
            invariant
                0 <= i <= n,
                n == lines@.len(),
                lv == text::seq_views(lines@),
                ({
                    let st = dns_fold(false, lv.take(i as int));
                    in_global == st.0 && crate::views(out@) == st.1
                }),
            decreases n - i,
        {
            let ghost st = dns_fold(false, lv.take(i as int));
            let ghost stp = dns_step(st.0, lv[i as int]);
            proof {
                assert(lv.take(i + 1).drop_last() =~= lv.take(i as int));
                assert(lv.take(i + 1).last() == lv[i as int]);
                assert(dns_fold(false, lv.take(i + 1)) == (stp.0, st.1 + stp.1));
            }
            let line: &String = &lines[i];
            let l = line.as_str();
            proof {
                assert(text::seq_views(lines@)[i as int] == lines@[i as int]@);
            }
            if text::contains_str(l, "Global") {
                in_global = true;
                proof {
                    assert(crate::views(out@) =~= st.1 + stp.1);
                }
            } else if text::contains_str(l, "Link") && text::contains_str(l, "(") {
                in_global = false;
                proof {
                    assert(crate::views(out@) =~= st.1 + stp.1);
                }
            } else if in_global && text::contains_str(l, "DNS Servers:") {
                let parts = text::split_char_vec(l, ':');
                if parts.len() >= 2 {
                    proof {
                        assert(text::seq_views(parts@)[1] == parts@[1]@);
                    }
                    let cand = DnsCandidate {
                        value: text::trim_str(parts[1].as_str()).to_owned(),
                        needs_check: false,
                    };
                    let ghost before = crate::views(out@);
                    out.push(cand);
                    proof {
                        assert(crate::views(out@) =~= before + stp.1);
                    }
                } else {
                    proof {
                        assert(crate::views(out@) =~= st.1 + stp.1);
                    }
                }
            } else if in_global && !text::contains_str(l, ":") && !text::trim_str(l).is_empty() {
                let cand = DnsCandidate {
                    value: text::trim_str(l).to_owned(),
                    needs_check: true,
                };
                let ghost before = crate::views(out@);
                out.push(cand);
                proof {
                    assert(crate::views(out@) =~= before + stp.1);
                }
            } else {
                proof {
                    assert(crate::views(out@) =~= st.1 + stp.1);
                }
            }
            i += 1;
        }
        proof {
            assert(lv.take(n as int) =~= lv);
        }
        out
    }

    /// Classifies an IPv6 address scope from the scope word the address
    /// listing gives, falling back to the unique-local prefix heuristic.
    pub fn classify_ipv6_scope(&self, scope_str: &str, address: &str) -> (r: Ipv6Scope)
        ensures
            r == spec_ipv6_scope(scope_str@, address@),
    {
        if text::str_eq_str(scope_str, "global") {
            Ipv6Scope::Global
        } else if text::str_eq_str(scope_str, "link") {
            Ipv6Scope::LinkLocal
        } else if text::str_eq_str(scope_str, "site") {
            Ipv6Scope::SiteLocal
        } else if text::str_eq_str(scope_str, "host") {
            Ipv6Scope::Loopback
        } else if text::starts_with_str(address, "fc") || text::starts_with_str(address, "fd") {
            Ipv6Scope::UniqueLocal
        } else {
            Ipv6Scope::Unknown
        }
    }

    /// Splits the address entries of one interface into the CIDR strings
    /// of its IPv4 and its non-link-local IPv6 addresses, in order.
    pub fn split_addresses(&self, entries: &Vec<AddrEntry>) -> (r: (Vec<String>, Vec<String>))
        ensures
            text::seq_views(r.0@) == spec_ipv4_of(crate::views(entries@)),
            text::seq_views(r.1@) == spec_ipv6_of(crate::views(entries@)),
    {
        let ghost ev = crate::views(entries@);
        let mut v4: Vec<String> = Vec::new();
        let mut v6: Vec<String> = Vec::new();
        let mut i: usize = 0;
        proof {
            assert(ev.take(0) =~= Seq::<AddrEntryV>::empty());
            assert(text::seq_views(v4@) =~= spec_ipv4_of(ev.take(0)));
            assert(text::seq_views(v6@) =~= spec_ipv6_of(ev.take(0)));
        }
        while i < entries.len()
            invariant
                0 <= i <= entries@.len(),
                ev == crate::views(entries@),
                text::seq_views(v4@) == spec_ipv4_of(ev.take(i as int)),
                text::seq_views(v6@) == spec_ipv6_of(ev.take(i as int)),
            decreases entries@.len() - i,
        {
            proof {
                reveal_strlit("inet");
                reveal_strlit("inet6");
                assert(crate::views(entries@)[i as int] == entries@[i as int]@);
                assert(ev.take(i + 1).drop_last() =~= ev.take(i as int));
                assert(ev.take(i + 1).last() == ev[i as int]);
                assert("inet"@.len() != "inet6"@.len());
            }
            let e = &entries[i];
            let addr = e.local.as_str().to_owned().concat("/").concat(
                text::u64_to_dec(e.prefixlen).as_str(),
            );
            proof {
                reveal_strlit("/");
                assert(addr@ =~= cidr_of(ev[i as int]));
            }
            if text::str_eq_str(e.family.as_str(), "inet") {
                let ghost b4 = text::seq_views(v4@);
                v4.push(addr);
                proof {
                    assert(text::seq_views(v4@) =~= b4.push(cidr_of(ev[i as int])));
                    assert(text::seq_views(v4@) =~= spec_ipv4_of(ev.take(i + 1)));
                    assert(text::seq_views(v6@) =~= spec_ipv6_of(ev.take(i + 1)));
                }
            } else if text::str_eq_str(e.family.as_str(), "inet6") && !text::starts_with_str(
                e.local.as_str(),
                "fe80",
            ) {
                let ghost b6 = text::seq_views(v6@);
                v6.push(addr);
                proof {
                    assert(text::seq_views(v6@) =~= b6.push(cidr_of(ev[i as int])));
                    assert(text::seq_views(v4@) =~= spec_ipv4_of(ev.take(i + 1)));
                    assert(text::seq_views(v6@) =~= spec_ipv6_of(ev.take(i + 1)));
                }
            } else {
                proof {
                    assert(text::seq_views(v4@) =~= spec_ipv4_of(ev.take(i + 1)));
                    assert(text::seq_views(v6@) =~= spec_ipv6_of(ev.take(i + 1)));
                }
            }
            i += 1;
        }
        proof {
            assert(ev.take(entries@.len() as int) =~= ev);
        }
        (v4, v6)
    }

    /// Reads link speed and signal quality from the primary tool's link
    /// report; the transmit power is not part of that report.
    #[verifier::rlimit(50)]
    pub fn parse_iw_link_details(&self, output: &str) -> (r: (
        Option<u32>,
        Option<i32>,
        Option<u32>,
    ))
        ensures
            ({
                let a = spec_iw_link_details(output@);
                &&& opt_u32_v(r.0) == a.link_speed
                &&& r.1 is None
                &&& opt_u32_v(r.2) == a.signal_quality
            }),
    {
        let lines = text::lines_vec(output);
        let ghost lv = text::seq_views(lines@);
        let mut link_speed: Option<u32> = None;
        let mut signal_quality: Option<u32> = None;
        let n = lines.len();
        let mut i: usize = 0;
        proof {
            assert(lv.take(0) =~= Seq::<Seq<char>>::empty());
        }
        while i < n
            invariant
                0 <= i <= n,
                n == lines@.len(),
                lv == text::seq_views(lines@),
                ({
                    let a = iw_details_fold(
                        IwDetailsAcc { link_speed: None, signal_quality: None },
                        lv.take(i as int),
                    );
                    opt_u32_v(link_speed) == a.link_speed && opt_u32_v(signal_quality)
                        == a.signal_quality
                }),
            decreases n - i,
        {
            proof {
                assert(lv.take(i + 1).drop_last() =~= lv.take(i as int));
                assert(lv.take(i + 1).last() == lv[i as int]);
                assert(text::seq_views(lines@)[i as int] == lines@[i as int]@);
            }
            let l: &str = text::trim_str(lines[i].as_str());
            if text::starts_with_str(l, "tx bitrate:") {
                let toks = text::split_ws_vec(l);
                if toks.len() >= 3 {
                    proof {
                        assert(text::seq_views(toks@)[2] == toks@[2]@);
                    }
                    let parts = text::split_char_vec(toks[2].as_str(), '.');
                    proof {
                        text::lemma_split_len(toks@[2]@, '.');
                        assert(text::seq_views(parts@)[0] == parts@[0]@);
                    }
                    match text::parse_u32_opt(parts[0].as_str()) {
                        Some(v) => {
                            link_speed = Some(v);
                        }
                        None => {},
                    }
                }
            }
            if text::starts_with_str(l, "signal:") {
                let toks = text::split_ws_vec(l);
                if toks.len() >= 2 {
                    proof {
                        assert(text::seq_views(toks@)[1] == toks@[1]@);
                    }
                    match text::parse_i32_opt(toks[1].as_str()) {
                        Some(v) => {
                            signal_quality = Some(signal_quality_exec(v));
                        }
                        None => {},
                    }
                }
            }
            i += 1;
        }
        proof {
            assert(lv.take(n as int) =~= lv);
        }
        (link_speed, None, signal_quality)
    }

    /// Reads link speed, transmit power and quality from the fallback
    /// tool's report; the quality fraction becomes a percentage.
    #[verifier::rlimit(50)]
    pub fn parse_iwconfig_details(&self, output: &str) -> (r: (
        Option<u32>,
        Option<i32>,
        Option<u32>,
    ))
        ensures
            ({
                let a = spec_iwconfig_details(output@);
                &&& opt_u32_v(r.0) == a.link_speed
                &&& opt_i32_v(r.1) == a.tx_power
                &&& opt_u32_v(r.2) == a.signal_quality
            }),
    {
        let lines = text::lines_vec(output);
        let ghost lv = text::seq_views(lines@);
        let mut link_speed: Option<u32> = None;
        let mut tx_power: Option<i32> = None;
        let mut signal_quality: Option<u32> = None;
        let n = lines.len();
        let mut i: usize = 0;
        proof {
            assert(lv.take(0) =~= Seq::<Seq<char>>::empty());
        }
        while i < n
            invariant
                0 <= i <= n,
                n == lines@.len(),
                lv == text::seq_views(lines@),
                ({
                    let a = iwconfig_fold(
                        IwconfigAcc { link_speed: None, tx_power: None, signal_quality: None },
                        lv.take(i as int),
                    );
                    &&& opt_u32_v(link_speed) == a.link_speed
                    &&& opt_i32_v(tx_power) == a.tx_power
                    &&& opt_u32_v(signal_quality) == a.signal_quality
                }),
            decreases n - i,
        {
            proof {
                assert(lv.take(i + 1).drop_last() =~= lv.take(i as int));
                assert(lv.take(i + 1).last() == lv[i as int]);
                assert(text::seq_views(lines@)[i as int] == lines@[i as int]@);
            }
            let l: &str = text::trim_str(lines[i].as_str());
            if text::contains_str(l, "Bit Rate=") {
                match text::after_first_str(l, "Bit Rate=") {
                    Some(rest) => {
                        let toks = text::split_ws_vec(rest);
                        if toks.len() >= 1 {
                            proof {
                                assert(text::seq_views(toks@)[0] == toks@[0]@);
                            }
                            match text::parse_u32_opt(toks[0].as_str()) {
                                Some(v) => {
                                    link_speed = Some(v);
                                }
                                None => {},
                            }
                        }
                    }
                    None => {
                        // unreachable: the line contains the marker
                        proof {
                            assert(false);
                        }
                    },
                }
            }
            if text::contains_str(l, "Tx-Power=") {
                match text::after_first_str(l, "Tx-Power=") {
                    Some(rest) => {
                        let toks = text::split_ws_vec(rest);
                        if toks.len() >= 1 {
                            proof {
                                assert(text::seq_views(toks@)[0] == toks@[0]@);
                            }
                            match text::parse_i32_opt(toks[0].as_str()) {
                                Some(v) => {
                                    tx_power = Some(v);
                                }
                                None => {},
                            }
                        }
                    }
                    None => {
                        // unreachable: the line contains the marker
                        proof {
                            assert(false);
                        }
                    },
                }
            }
            if text::contains_str(l, "Link Quality=") {
                match text::after_first_str(l, "Link Quality=") {
                    Some(rest) => {
                        let toks = text::split_ws_vec(rest);
                        if toks.len() >= 1 {
                            proof {
                                assert(text::seq_views(toks@)[0] == toks@[0]@);
                            }
                            let parts = text::split_char_vec(toks[0].as_str(), '/');
                            if parts.len() >= 2 {
                                proof {
                                    assert(text::seq_views(parts@)[0] == parts@[0]@);
                                    assert(text::seq_views(parts@)[1] == parts@[1]@);
                                }
                                match (
                                    text::parse_u32_opt(parts[0].as_str()),
                                    text::parse_u32_opt(parts[1].as_str()),
                                ) {
                                    (Some(num), Some(den)) => {
                                        if den > 0 {
                                            let q: u64 = (num as u64) * 100 / (den as u64);
                                            if q <= u32::MAX as u64 {
                                                signal_quality = Some(q as u32);
                                            }
                                        }
                                    }
                                    _ => {},
                                }
                            }
                        }
                    }
                    None => {
                        // unreachable: the line contains the marker
                        proof {
                            assert(false);
                        }
                    },
                }
            }
            i += 1;
        }
        proof {
            assert(lv.take(n as int) =~= lv);
        }
        (link_speed, tx_power, signal_quality)
    }

    /// Parses the tab-separated dump of the WireGuard tool: the interface
    /// line first, then one peer per line.  The status counts as connected
    /// when any peer has completed a handshake, and carries the most
    /// recent handshake time.
    #[verifier::rlimit(50)]
    pub fn parse_wireguard_dump(&self, dump_output: &str, interface_name: &str) -> (r: Result<
        Option<WireGuardStatus>,
        NetworkError,
    >)
        ensures
            r is Ok,
            ({
                let o = spec_wg_dump(dump_output@, interface_name@);
                match r {
                    Ok(Some(v)) => o is Some && v@ == o->Some_0,
                    Ok(None) => o is None,
                    Err(_) => false,
                }
            }),
    {
        let lines = text::lines_vec(dump_output);
        let ghost lv = text::seq_views(lines@);
        if lines.len() == 0 {
            return Ok(None);
        }
        proof {
            assert(text::seq_views(lines@)[0] == lines@[0]@);
        }
        let head = text::split_char_vec(lines[0].as_str(), '\t');
        let ghost hv = text::spec_split(lv[0], '\t');
        if head.len() < 3 {
            return Ok(None);
        }
        proof {
            assert(text::seq_views(head@)[1] == head@[1]@);
            assert(text::seq_views(head@)[2] == head@[2]@);
        }
        let public_key = head[1].clone();
        let listen_port: Option<u16> = if !head[2].as_str().is_empty() {
            Some(text::parse_u16_or_zero(head[2].as_str()))
        } else {
            None
        };
        let mut peers: Vec<WireGuardPeerStatus> = Vec::new();
        let ghost pl = lv.skip(1);
        let n = lines.len();
        let mut i: usize = 1;
        proof {
            assert(pl.take(0) =~= Seq::<Seq<char>>::empty());
            assert(crate::views(peers@) =~= peer_statuses_rec(pl.take(0)));
        }
        while i < n
            invariant
                1 <= i <= n,
                n == lines@.len(),
                lv == text::seq_views(lines@),
                pl == lv.skip(1),
                crate::views(peers@) == peer_statuses_rec(pl.take(i - 1)),
            decreases n - i,
        {
            proof {
                assert(pl.take(i as int).drop_last() =~= pl.take(i - 1));
                assert(pl.take(i as int).last() == pl[i - 1]);
                assert(pl[i - 1] == lv[i as int]);
                assert(text::seq_views(lines@)[i as int] == lines@[i as int]@);
            }
            let parts = text::split_char_vec(lines[i].as_str(), '\t');
            let ghost sv = text::spec_split(lv[i as int], '\t');
            if parts.len() >= 4 {
                proof {
                    assert(text::seq_views(parts@)[1] == parts@[1]@);
                    assert(text::seq_views(parts@)[3] == parts@[3]@);
                }
                let peer_public_key = parts[1].clone();
                let endpoint: Option<String> = if !parts[3].as_str().is_empty() {
                    Some(parts[3].clone())
                } else {
                    None
                };
                proof {
                    assert(sv.len() == parts@.len());
                    if parts@.len() > 4 {
                        assert(text::seq_views(parts@)[4] == parts@[4]@);
                    }
                    if parts@.len() > 5 {
                        assert(text::seq_views(parts@)[5] == parts@[5]@);
                    }
                    if parts@.len() > 6 {
                        assert(text::seq_views(parts@)[6] == parts@[6]@);
                    }
                    if parts@.len() > 7 {
                        assert(text::seq_views(parts@)[7] == parts@[7]@);
                    }
                    if parts@.len() > 8 {
                        assert(text::seq_views(parts@)[8] == parts@[8]@);
                    }
                }
                let mut allowed_ips: Vec<String> = Vec::new();
                if parts.len() > 4 && !parts[4].as_str().is_empty() {
                    allowed_ips = text::split_commas_vec(parts[4].as_str());
                } else {
                    proof {
                        assert(text::seq_views(allowed_ips@) =~= Seq::<Seq<char>>::empty());
                    }
                }
                let latest_handshake: Option<u64> = if parts.len() > 5 && !parts[5].as_str().is_empty() {
                    text::parse_u64_opt(parts[5].as_str())
                } else {
                    None
                };
                let transfer_rx: u64 = if parts.len() > 6 {
                    text::parse_u64_or_zero(parts[6].as_str())
                } else {
                    0
                };
                let transfer_tx: u64 = if parts.len() > 7 {
                    text::parse_u64_or_zero(parts[7].as_str())
                } else {
                    0
                };
                let persistent_keepalive: Option<u16> = if parts.len() > 8 && !parts[8].as_str().is_empty() {
                    Some(text::parse_u16_or_zero(parts[8].as_str()))
                } else {
                    None
                };
                let peer = WireGuardPeerStatus {
                    public_key: peer_public_key,
                    endpoint,
                    allowed_ips,
                    latest_handshake,
                    transfer_rx,
                    transfer_tx,
                    persistent_keepalive,
                };
                proof {
                    assert(peer@ == peer_status_of_line(lv[i as int])->Some_0);
                }
                let ghost pb = crate::views(peers@);
                peers.push(peer);
                proof {
                    assert(crate::views(peers@) =~= pb.push(
                        peer_status_of_line(lv[i as int])->Some_0,
                    ));
                    assert(crate::views(peers@) =~= peer_statuses_rec(pl.take(i as int)));
                }
            } else {
                proof {
                    assert(peer_status_of_line(lv[i as int]) is None);
                    assert(crate::views(peers@) =~= peer_statuses_rec(pl.take(i as int)));
                }
            }
            i += 1;
        }
        proof {
            assert(pl.take(n - 1) =~= pl);
        }
        let ghost psv = crate::views(peers@);
        let mut connected = false;
        let mut last_handshake: Option<u64> = None;
        let mut k: usize = 0;
        proof {
            assert(psv.take(0) =~= Seq::<WireGuardPeerStatusV>::empty());
        }
        while k < peers.len()
            invariant
                0 <= k <= peers@.len(),
                psv == crate::views(peers@),
                connected == any_handshake(psv.take(k as int)),
                opt_u64_v(last_handshake) == max_handshake(psv.take(k as int)),
            decreases peers@.len() - k,
        {
            proof {
                assert(crate::views(peers@)[k as int] == peers@[k as int]@);
                assert(psv.take(k + 1).drop_last() =~= psv.take(k as int));
                assert(psv.take(k + 1).last() == psv[k as int]);
            }
            match peers[k].latest_handshake {
                Some(ts) => {
                    connected = true;
                    proof {
                        assert(psv.take(k + 1)[k as int].latest_handshake is Some);
                        assert(any_handshake(psv.take(k + 1)));
                    }
                    last_handshake = match last_handshake {
                        Some(prev) => if ts > prev {
                            Some(ts)
                        } else {
                            Some(prev)
                        },
                        None => Some(ts),
                    };
                }
                None => {
                    proof {
                        if any_handshake(psv.take(k + 1)) {
                            let w = choose|w: int|
                                0 <= w < psv.take(k + 1).len() && (#[trigger] psv.take(k + 1)[w]).latest_handshake is Some;
                            if w < k {
                                assert(psv.take(k as int)[w].latest_handshake is Some);
                            }
                        }
                    }
                },
            }
            k += 1;
        }
        proof {
            assert(psv.take(peers@.len() as int) =~= psv);
        }
        let status = WireGuardStatus {
            interface: interface_name.to_owned(),
            public_key,
            listen_port,
            peers,
            connected,
            last_handshake,
        };
        proof {
            assert(status@ == spec_wg_dump(dump_output@, interface_name@)->Some_0);
        }
        Ok(Some(status))
    }

    /// Parses the legacy scan tool's multi-line output into networks,
    /// sorted by descending signal strength and deduplicated by SSID.
    ///
    /// One record is produced per section that carries both a non-empty
    /// SSID and a signal value; incomplete fragments are discarded, and
    /// malformed numeric fields default to zero instead of failing the
    /// record.
    #[verifier::rlimit(50)]
    pub fn parse_wifi_scan_results(&self, scan_output: &str) -> (r: Result<
        Vec<WifiNetwork>,
        NetworkError,
    >)
        ensures
            r matches Ok(v) && crate::views(v@) == scan::spec_scan_pipeline(scan_output@),
    {
        let lines = text::lines_vec(scan_output);
        let ghost lv = text::seq_views(lines@);
        let mut bssid = String::new();
        let mut ssid = String::new();
        let mut signal: Option<i32> = None;
        let mut frequency: u32 = 0;
        let mut lvl: u8 = 0;
        let mut encryption: Vec<String> = Vec::new();
        let mut out: Vec<WifiNetwork> = Vec::new();
        let n = lines.len();
        let mut i: usize = 0;
        proof {
            assert(lv.take(0) =~= Seq::<Seq<char>>::empty());
            assert(text::seq_views(encryption@) =~= Seq::<Seq<char>>::empty());
            assert(crate::views(out@) =~= Seq::<WifiNetworkV>::empty());
        }
        while i < n
            invariant
                0 <= i <= n,
                n == lines@.len(),
                lv == text::seq_views(lines@),
                ({
                    let st = scan::scan_fold_from(scan::empty_acc(), lv.take(i as int));
                    &&& ssid@ == st.0.ssid
                    &&& bssid@ == st.0.bssid
                    &&& opt_int(signal) == st.0.signal
                    &&& frequency as int == st.0.frequency
                    &&& lvl as int == st.0.sec_level
                    &&& text::seq_views(encryption@) == st.0.encryption
                    &&& crate::views(out@) == st.1
                }),
            decreases n - i,
        {
            let ghost st = scan::scan_fold_from(scan::empty_acc(), lv.take(i as int));
            let ghost stp = scan::scan_step(st.0, lv[i as int]);
            proof {
                assert(lv.take(i + 1).drop_last() =~= lv.take(i as int));
                assert(lv.take(i + 1).last() == lv[i as int]);
                assert(scan::scan_fold_from(scan::empty_acc(), lv.take(i + 1)) == (
                    stp.0,
                    st.1 + stp.1,
                ));
            }
            let line: &String = &lines[i];
            let l: &str = text::trim_str(line.as_str());
            proof {
                assert(text::seq_views(lines@)[i as int] == lines@[i as int]@);
                assert(l@ == text::spec_trim(lv[i as int]));
            }
            if text::starts_with_str(l, "BSS ") {
                proof {
                    assert(acc_of(
                        ssid@,
                        bssid@,
                        opt_int(signal),
                        frequency as int,
                        lvl as int,
                        text::seq_views(encryption@),
                    ) == st.0);
                }
                flush_record(&mut out, ssid, bssid, signal, frequency, lvl, encryption);
                proof {
                    assert(crate::views(out@) == st.1 + stp.1);
                }
                let mut toks = text::split_ws_vec(l);
                let b0: String = if toks.len() >= 2 {
                    let t1 = toks.remove(1);
                    proof {
                        assert(text::seq_views(toks@.insert(1, t1))[1] == t1@);
                    }
                    t1
                } else {
                    String::new()
                };
                proof {
                    let toks_spec = text::spec_tokens(l@);
                    assert(b0@ == if toks_spec.len() >= 2 {
                        toks_spec[1]
                    } else {
                        Seq::<char>::empty()
                    });
                }
                let bn = b0.as_str().unicode_len();
                let nb: String = if bn > 0 && b0.as_str().get_char(bn - 1) == '(' {
                    let stripped = b0.as_str().substring_char(0, bn - 1).to_owned();
                    proof {
                        assert(stripped@ =~= b0@.drop_last());
                    }
                    stripped
                } else {
                    b0
                };
                proof {
                    assert(nb@ == scan::marker_bssid(l@));
                }
                bssid = nb;
                ssid = String::new();
                signal = None;
                frequency = 0;
                lvl = 0;
                encryption = Vec::new();
                proof {
                    assert(text::seq_views(encryption@) =~= Seq::<Seq<char>>::empty());
                    assert(ssid@ == stp.0.ssid && bssid@ == stp.0.bssid);
                }
            } else if text::starts_with_str(l, "freq:") {
                proof {
                    reveal_strlit("freq:");
                }
                let ln = l.unicode_len();
                let rest = l.substring_char(5, ln);
                proof {
                    assert(rest@ =~= l@.skip(5));
                }
                frequency = text::parse_u32_or_zero(text::trim_str(rest));
            } else if text::starts_with_str(l, "signal:") {
                proof {
                    reveal_strlit("signal:");
                }
                let ln = l.unicode_len();
                let rest = l.substring_char(7, ln);
                proof {
                    assert(rest@ =~= l@.skip(7));
                }
                let val = text::trim_str(rest);
                let parts = text::split_char_vec(val, '.');
                proof {
                    text::lemma_split_len(val@, '.');
                    assert(text::seq_views(parts@)[0] == parts@[0]@);
                }
                signal = Some(text::parse_i32_or_zero(parts[0].as_str()));
            } else if text::starts_with_str(l, "SSID:") {
                proof {
                    reveal_strlit("SSID:");
                }
                let ln = l.unicode_len();
                let rest = l.substring_char(5, ln);
                proof {
                    assert(rest@ =~= l@.skip(5));
                }
                ssid = text::trim_str(rest).to_owned();
            } else {
                let line_lv: u8 = if text::contains_str(l, "IEEE 802.1X") || text::contains_str(
                    l,
                    "EAP",
                ) || text::contains_str(l, "Enterprise") {
                    5
                } else if text::contains_str(l, "WPA3") {
                    4
                } else if text::contains_str(l, "WPA2") {
                    3
                } else if text::contains_str(l, "WPA:") {
                    2
                } else if text::contains_str(l, "Privacy") {
                    1
                } else {
                    0
                };
                proof {
                    assert(line_lv as int == scan::line_sec_level(l@));
                }
                if line_lv > 0 {
                    if line_lv > lvl {
                        lvl = line_lv;
                    }
                    let tag: String = if line_lv == 5 {
                        String::from_str("Enterprise")
                    } else if line_lv == 4 {
                        String::from_str("WPA3")
                    } else if line_lv == 3 {
                        String::from_str("WPA2")
                    } else if line_lv == 2 {
                        String::from_str("WPA")
                    } else {
                        String::from_str("WEP")
                    };
                    proof {
                        assert(tag@ == scan::level_tag(line_lv as int));
                    }
                    let ghost enc_before = text::seq_views(encryption@);
                    encryption.push(tag);
                    proof {
                        assert(text::seq_views(encryption@) =~= enc_before.push(tag@));
                    }
                }
            }
            proof {
                let st2 = scan::scan_fold_from(scan::empty_acc(), lv.take(i + 1));
                assert(ssid@ == st2.0.ssid);
                assert(bssid@ == st2.0.bssid);
                assert(opt_int(signal) == st2.0.signal);
                assert(frequency as int == st2.0.frequency);
                assert(lvl as int == st2.0.sec_level);
                assert(text::seq_views(encryption@) == st2.0.encryption);
                assert(crate::views(out@) == st2.1);
            }
            i += 1;
        }
        proof {
            assert(lv.take(n as int) =~= lv);
            assert(acc_of(
                ssid@,
                bssid@,
                opt_int(signal),
                frequency as int,
                lvl as int,
                text::seq_views(encryption@),
            ) == scan::scan_fold_from(scan::empty_acc(), lv).0);
        }
        flush_record(&mut out, ssid, bssid, signal, frequency, lvl, encryption);
        proof {
            assert(crate::views(out@) == scan::spec_scan_records(scan_output@));
        }
        let sorted = sort_networks_desc(out);
        let deduped = dedup_networks_by_ssid(sorted);
        Ok(deduped)
    }
}

/// The accumulator of the link report parser.
pub ghost struct LinkAcc {
    pub ssid: Seq<char>,
    pub bssid: Seq<char>,
    pub frequency: int,
    pub signal: int,
}

pub open spec fn link_empty_acc() -> LinkAcc {
    LinkAcc { ssid: Seq::empty(), bssid: Seq::empty(), frequency: 0, signal: 0 }
}

/// One line of the link report applied to the accumulator: the SSID and
/// BSSID lines carry the identifiers; frequency and signal are read from
/// the first token after their markers, zero when malformed.
pub open spec fn link_step(a: LinkAcc, raw: Seq<char>) -> LinkAcc {
    let l = text::spec_trim(raw);
    if text::is_prefix_of("SSID:"@, l) {
        LinkAcc { ssid: text::spec_trim(l.skip(5)), ..a }
    } else if text::is_prefix_of("Connected to"@, l) {
        let toks = text::spec_tokens(l);
        LinkAcc {
            bssid: if toks.len() >= 3 {
                toks[2]
            } else {
                Seq::empty()
            },
            ..a
        }
    } else if text::spec_contains(l, "freq:"@) {
        let toks = text::spec_tokens(text::spec_after_first(l, "freq:"@));
        if toks.len() >= 1 {
            LinkAcc { frequency: text::spec_u32_or_zero(toks[0]) as int, ..a }
        } else {
            a
        }
    } else if text::spec_contains(l, "signal:"@) {
        let toks = text::spec_tokens(text::spec_after_first(l, "signal:"@));
        if toks.len() >= 1 {
            LinkAcc { signal: text::spec_i32_or_zero(toks[0]) as int, ..a }
        } else {
            a
        }
    } else {
        a
    }
}

pub open spec fn link_fold(a: LinkAcc, lines: Seq<Seq<char>>) -> LinkAcc
    decreases lines.len(),
{
    if lines.len() == 0 {
        a
    } else {
        link_step(link_fold(a, lines.drop_last()), lines.last())
    }
}

/// The connected network a link report shows, or nothing when the report
/// names no SSID.
pub open spec fn spec_link_info(s: Seq<char>) -> Option<WifiNetworkV> {
    let a = link_fold(link_empty_acc(), text::spec_lines(s));
    if a.ssid.len() > 0 {
        Some(
            WifiNetworkV {
                ssid: a.ssid,
                bssid: a.bssid,
                signal_strength: a.signal,
                frequency: a.frequency,
                channel: spec_frequency_to_channel(a.frequency),
                security: WifiSecurity::WPA2,
                encryption: seq!["WPA2"@],
                connected: false,
                in_history: false,
            },
        )
    } else {
        None
    }
}

/// The peer a dump line describes, if it has enough tab-separated fields.
/// Missing or malformed counters default to zero; a missing handshake or
/// keepalive stays absent.
pub open spec fn peer_status_of_line(l: Seq<char>) -> Option<WireGuardPeerStatusV> {
    let parts = text::spec_split(l, '\t');
    if parts.len() >= 4 {
        Some(
            WireGuardPeerStatusV {
                public_key: parts[1],
                endpoint: if parts[3].len() > 0 {
                    Some(parts[3])
                } else {
                    None
                },
                allowed_ips: if parts.len() > 4 && parts[4].len() > 0 {
                    text::split_commas(parts[4])
                } else {
                    Seq::empty()
                },
                latest_handshake: if parts.len() > 5 && parts[5].len() > 0 {
                    match text::spec_parse_u64(parts[5]) {
                        Some(v) => Some(v as int),
                        None => None,
                    }
                } else {
                    None
                },
                transfer_rx: if parts.len() > 6 {
                    text::spec_u64_or_zero(parts[6]) as int
                } else {
                    0
                },
                transfer_tx: if parts.len() > 7 {
                    text::spec_u64_or_zero(parts[7]) as int
                } else {
                    0
                },
                persistent_keepalive: if parts.len() > 8 && parts[8].len() > 0 {
                    Some(text::spec_u16_or_zero(parts[8]) as int)
                } else {
                    None
                },
            },
        )
    } else {
        None
    }
}

pub open spec fn peer_statuses_rec(lines: Seq<Seq<char>>) -> Seq<WireGuardPeerStatusV>
    decreases lines.len(),
{
    if lines.len() == 0 {
        Seq::empty()
    } else {
        peer_statuses_rec(lines.drop_last()) + match peer_status_of_line(lines.last()) {
            Some(p) => seq![p],
            None => Seq::empty(),
        }
    }
}

/// The most recent handshake among the peers, if any shook hands at all.
pub open spec fn max_handshake(peers: Seq<WireGuardPeerStatusV>) -> Option<int>
    decreases peers.len(),
{
    if peers.len() == 0 {
        None
    } else {
        let rest = max_handshake(peers.drop_last());
        match (rest, peers.last().latest_handshake) {
            (None, x) => x,
            (Some(r), None) => Some(r),
            (Some(r), Some(x)) => Some(
                if x > r {
                    x
                } else {
                    r
                },
            ),
        }
    }
}

pub open spec fn any_handshake(peers: Seq<WireGuardPeerStatusV>) -> bool {
    exists|k: int| 0 <= k < peers.len() && (#[trigger] peers[k]).latest_handshake is Some
}

/// The status a whole dump denotes: the interface line first, then one
/// peer per line; too short a dump means no status at all.
pub open spec fn spec_wg_dump(s: Seq<char>, ifname: Seq<char>) -> Option<WireGuardStatusV> {
    let ls = text::spec_lines(s);
    if ls.len() == 0 {
        None
    } else {
        let parts = text::spec_split(ls[0], '\t');
        if parts.len() < 3 {
            None
        } else {
            let peers = peer_statuses_rec(ls.skip(1));
            Some(
                WireGuardStatusV {
                    interface: ifname,
                    public_key: parts[1],
                    listen_port: if parts[2].len() > 0 {
                        Some(text::spec_u16_or_zero(parts[2]) as int)
                    } else {
                        None
                    },
                    peers,
                    connected: any_handshake(peers),
                    last_handshake: max_handshake(peers),
                },
            )
        }
    }
}

/// The signal reading of one link-report line, if it carries one.
pub open spec fn link_signal_of_line(l: Seq<char>) -> Option<i32> {
    if text::spec_contains(l, "signal:"@) {
        let toks = text::spec_tokens(text::spec_after_first(l, "signal:"@));
        if toks.len() >= 1 {
            Some(text::spec_i32_or_zero(toks[0]))
        } else {
            None
        }
    } else {
        None
    }
}

pub open spec fn link_signal_rec(lines: Seq<Seq<char>>) -> Option<i32>
    decreases lines.len(),
{
    if lines.len() == 0 {
        None
    } else {
        match link_signal_of_line(lines[0]) {
            Some(v) => Some(v),
            None => link_signal_rec(lines.skip(1)),
        }
    }
}

/// The first signal reading of a link report, zero when the field after
/// the marker is malformed.
pub open spec fn spec_link_signal(s: Seq<char>) -> Option<i32> {
    link_signal_rec(text::spec_lines(s))
}

/// The frequency of one link-report line, if it parses.
pub open spec fn link_freq_of_line(l: Seq<char>) -> Option<u32> {
    if text::spec_contains(l, "freq:"@) {
        let toks = text::spec_tokens(text::spec_after_first(l, "freq:"@));
        if toks.len() >= 1 {
            text::spec_parse_u32(toks[0])
        } else {
            None
        }
    } else {
        None
    }
}

pub open spec fn link_freq_rec(lines: Seq<Seq<char>>) -> Option<u32>
    decreases lines.len(),
{
    if lines.len() == 0 {
        None
    } else {
        match link_freq_of_line(lines[0]) {
            Some(v) => Some(v),
            None => link_freq_rec(lines.skip(1)),
        }
    }
}

/// The first well-formed frequency of a link report.
pub open spec fn spec_link_frequency(s: Seq<char>) -> Option<u32> {
    link_freq_rec(text::spec_lines(s))
}

/// The outgoing device named by one default-route line.
pub open spec fn route_dev_of_line(l: Seq<char>) -> Option<Seq<char>> {
    if text::spec_contains(l, "default"@) && text::spec_contains(l, " dev "@) {
        let after = text::spec_after_first(l, " dev "@);
        let e = text::spec_find_char(after, ' ');
        Some(after.take(e))
    } else {
        None
    }
}

pub open spec fn route_dev_rec(lines: Seq<Seq<char>>) -> Option<Seq<char>>
    decreases lines.len(),
{
    if lines.len() == 0 {
        None
    } else {
        match route_dev_of_line(lines[0]) {
            Some(v) => Some(v),
            None => route_dev_rec(lines.skip(1)),
        }
    }
}

/// The device that carries the default route, read from the route listing.
pub open spec fn spec_internet_interface(s: Seq<char>) -> Option<Seq<char>> {
    route_dev_rec(text::spec_lines(s))
}

/// The gateway named by one IPv6 default-route line: the token after the
/// `via` token.
pub open spec fn ipv6_gw_of_line(l: Seq<char>) -> Option<Seq<char>> {
    if text::spec_contains(l, "default via"@) {
        let toks = text::spec_tokens(l);
        let v = first_via_idx(toks);
        if v + 1 < toks.len() {
            Some(toks[v + 1])
        } else {
            None
        }
    } else {
        None
    }
}

/// Index of the first `via` token, or `toks.len()`.
pub open spec fn first_via_idx(toks: Seq<Seq<char>>) -> int
    decreases toks.len(),
{
    if toks.len() == 0 {
        0
    } else if toks[0] == "via"@ {
        0
    } else {
        1 + first_via_idx(toks.skip(1))
    }
}

pub open spec fn ipv6_gw_rec(lines: Seq<Seq<char>>) -> Option<Seq<char>>
    decreases lines.len(),
{
    if lines.len() == 0 {
        None
    } else {
        match ipv6_gw_of_line(lines[0]) {
            Some(v) => Some(v),
            None => ipv6_gw_rec(lines.skip(1)),
        }
    }
}

/// The IPv6 default gateway read from the route listing.
pub open spec fn spec_ipv6_gateway(s: Seq<char>) -> Option<Seq<char>> {
    ipv6_gw_rec(text::spec_lines(s))
}

/// Exec counterpart of `link_signal_of_line`.
fn link_signal_line(l: &str) -> (r: Option<i32>)
    ensures
        r == link_signal_of_line(l@),
{
    if text::contains_str(l, "signal:") {
        match text::after_first_str(l, "signal:") {
            Some(rest) => {
                let toks = text::split_ws_vec(rest);
                if toks.len() >= 1 {
                    proof {
                        assert(text::seq_views(toks@)[0] == toks@[0]@);
                    }
                    Some(text::parse_i32_or_zero(toks[0].as_str()))
                } else {
                    None
                }
            }
            None => {
                // unreachable: the line was just seen to contain the marker
                proof {
                    assert(false);
                }
                None
            }
        }
    } else {
        None
    }
}

/// Exec counterpart of `link_freq_of_line`.
fn link_freq_line(l: &str) -> (r: Option<u32>)
    ensures
        r == link_freq_of_line(l@),
{
    if text::contains_str(l, "freq:") {
        match text::after_first_str(l, "freq:") {
            Some(rest) => {
                let toks = text::split_ws_vec(rest);
                if toks.len() >= 1 {
                    proof {
                        assert(text::seq_views(toks@)[0] == toks@[0]@);
                    }
                    text::parse_u32_opt(toks[0].as_str())
                } else {
                    None
                }
            }
            None => {
                // unreachable: the line was just seen to contain the marker
                proof {
                    assert(false);
                }
                None
            }
        }
    } else {
        None
    }
}

proof fn lemma_first_via_bound(toks: Seq<Seq<char>>)
    ensures
        0 <= first_via_idx(toks) <= toks.len(),
    decreases toks.len(),
{
    if toks.len() > 0 && toks[0] != "via"@ {
        lemma_first_via_bound(toks.skip(1));
    }
}

proof fn lemma_first_via_at(toks: Seq<Seq<char>>, i: int)
    requires
        0 <= i < toks.len(),
        toks[i] == "via"@,
        first_via_idx(toks) >= i,
    ensures
        first_via_idx(toks) == i,
    decreases i,
{
    if i > 0 {
        assert(toks[0] != "via"@);
        assert(toks.skip(1)[i - 1] == toks[i]);
        lemma_first_via_at(toks.skip(1), i - 1);
    }
}

proof fn lemma_first_via_past(toks: Seq<Seq<char>>, i: int)
    requires
        0 <= i < toks.len(),
        toks[i] != "via"@,
        first_via_idx(toks) >= i,
    ensures
        first_via_idx(toks) >= i + 1,
    decreases i,
{
    if i == 0 {
        lemma_first_via_bound(toks.skip(1));
    } else {
        assert(toks[0] != "via"@);
        assert(toks.skip(1)[i - 1] == toks[i]);
        lemma_first_via_past(toks.skip(1), i - 1);
    }
}

/// One address entry of the interface listing, reduced to plain values:
/// the address family, the bare address, and the prefix length.
#[derive(Clone, Debug)]
pub struct AddrEntry {
    pub family: String,
    pub local: String,
    pub prefixlen: u64,
}

pub ghost struct AddrEntryV {
    pub family: Seq<char>,
    pub local: Seq<char>,
    pub prefixlen: int,
}

impl View for AddrEntry {
    type V = AddrEntryV;

    open spec fn view(&self) -> AddrEntryV {
        AddrEntryV { family: self.family@, local: self.local@, prefixlen: self.prefixlen as int }
    }
}

/// The CIDR rendering of one address entry.
pub open spec fn cidr_of(e: AddrEntryV) -> Seq<char> {
    e.local + "/"@ + text::spec_u64_dec(e.prefixlen)
}

/// The IPv4 addresses of an entry list, as CIDR strings.
pub open spec fn spec_ipv4_of(es: Seq<AddrEntryV>) -> Seq<Seq<char>>
    decreases es.len(),
{
    if es.len() == 0 {
        Seq::empty()
    } else {
        spec_ipv4_of(es.drop_last()) + if es.last().family == "inet"@ {
            seq![cidr_of(es.last())]
        } else {
            Seq::empty()
        }
    }
}

/// The non-link-local IPv6 addresses of an entry list, as CIDR strings.
pub open spec fn spec_ipv6_of(es: Seq<AddrEntryV>) -> Seq<Seq<char>>
    decreases es.len(),
{
    if es.len() == 0 {
        Seq::empty()
    } else {
        spec_ipv6_of(es.drop_last()) + if es.last().family == "inet6"@ && !text::is_prefix_of(
            "fe80"@,
            es.last().local,
        ) {
            seq![cidr_of(es.last())]
        } else {
            Seq::empty()
        }
    }
}

/// The IPv6 scope denoted by a scope word, with the unique-local prefix
/// heuristic for unknown words.
pub open spec fn spec_ipv6_scope(scope_str: Seq<char>, address: Seq<char>) -> Ipv6Scope {
    if scope_str == "global"@ {
        Ipv6Scope::Global
    } else if scope_str == "link"@ {
        Ipv6Scope::LinkLocal
    } else if scope_str == "site"@ {
        Ipv6Scope::SiteLocal
    } else if scope_str == "host"@ {
        Ipv6Scope::Loopback
    } else if text::is_prefix_of("fc"@, address) || text::is_prefix_of("fd"@, address) {
        Ipv6Scope::UniqueLocal
    } else {
        Ipv6Scope::Unknown
    }
}

/// One candidate DNS server from the resolver's status report.  Servers
/// named on a `DNS Servers:` line are taken as given; bare lines inside
/// the global section still need an address-validity check, which is the
/// caller's to make.
#[derive(Clone, Debug)]
pub struct DnsCandidate {
    pub value: String,
    pub needs_check: bool,
}

pub ghost struct DnsCandidateV {
    pub value: Seq<char>,
    pub needs_check: bool,
}

impl View for DnsCandidate {
    type V = DnsCandidateV;

    open spec fn view(&self) -> DnsCandidateV {
        DnsCandidateV { value: self.value@, needs_check: self.needs_check }
    }
}

/// One line of the resolver report: entering or leaving the global
/// section, or contributing a candidate while inside it.
pub open spec fn dns_step(in_global: bool, raw: Seq<char>) -> (bool, Seq<DnsCandidateV>) {
    if text::spec_contains(raw, "Global"@) {
        (true, Seq::empty())
    } else if text::spec_contains(raw, "Link"@) && text::spec_contains(raw, "("@) {
        (false, Seq::empty())
    } else if in_global && text::spec_contains(raw, "DNS Servers:"@) {
        let parts = text::spec_split(raw, ':');
        if parts.len() >= 2 {
            (
                in_global,
                seq![DnsCandidateV { value: text::spec_trim(parts[1]), needs_check: false }],
            )
        } else {
            (in_global, Seq::empty())
        }
    } else if in_global && !text::spec_contains(raw, ":"@) && text::spec_trim(raw).len() > 0 {
        (in_global, seq![DnsCandidateV { value: text::spec_trim(raw), needs_check: true }])
    } else {
        (in_global, Seq::empty())
    }
}

pub open spec fn dns_fold(g: bool, lines: Seq<Seq<char>>) -> (bool, Seq<DnsCandidateV>)
    decreases lines.len(),
{
    if lines.len() == 0 {
        (g, Seq::empty())
    } else {
        let prev = dns_fold(g, lines.drop_last());
        let step = dns_step(prev.0, lines.last());
        (step.0, prev.1 + step.1)
    }
}

/// The candidate global DNS servers of a whole resolver report.
pub open spec fn spec_dns_candidates(s: Seq<char>) -> Seq<DnsCandidateV> {
    dns_fold(false, text::spec_lines(s)).1
}

/// The view of an optional 32-bit count.
pub open spec fn opt_u32_v(o: Option<u32>) -> Option<int> {
    match o {
        Some(v) => Some(v as int),
        None => None,
    }
}

/// The view of an optional signed 32-bit value.
pub open spec fn opt_i32_v(o: Option<i32>) -> Option<int> {
    match o {
        Some(v) => Some(v as int),
        None => None,
    }
}

/// Exec counterpart of `spec_signal_quality`.
fn signal_quality_exec(s: i32) -> (r: u32)
    ensures
        r as int == spec_signal_quality(s as int),
{
    if s < -90 {
        0
    } else {
        let base: i64 = (s as i64) + 90;
        let q: i64 = base * 100 / 60;
        if q > 100 {
            100
        } else {
            q as u32
        }
    }
}

/// Signal quality as a percentage: -30 dBm or better is 100, -90 dBm or
/// worse is 0, linear in between.
pub open spec fn spec_signal_quality(s: int) -> int {
    if s < -90 {
        0
    } else if (s + 90) * 100 / 60 > 100 {
        100
    } else {
        (s + 90) * 100 / 60
    }
}

/// The link-details accumulator for the primary tool's report.
pub ghost struct IwDetailsAcc {
    pub link_speed: Option<int>,
    pub signal_quality: Option<int>,
}

/// One (trimmed) line of the primary link report: the bitrate line's third
/// token gives the speed in whole megabits, the signal line's second token
/// the quality percentage.
pub open spec fn iw_details_step(a: IwDetailsAcc, raw: Seq<char>) -> IwDetailsAcc {
    let l = text::spec_trim(raw);
    let a1 = if text::is_prefix_of("tx bitrate:"@, l) {
        let toks = text::spec_tokens(l);
        if toks.len() >= 3 {
            match text::spec_parse_u32(text::spec_split(toks[2], '.')[0]) {
                Some(v) => IwDetailsAcc { link_speed: Some(v as int), ..a },
                None => a,
            }
        } else {
            a
        }
    } else {
        a
    };
    if text::is_prefix_of("signal:"@, l) {
        let toks = text::spec_tokens(l);
        if toks.len() >= 2 {
            match text::spec_parse_i32(toks[1]) {
                Some(v) => IwDetailsAcc { signal_quality: Some(spec_signal_quality(v as int)), ..a1 },
                None => a1,
            }
        } else {
            a1
        }
    } else {
        a1
    }
}

pub open spec fn iw_details_fold(a: IwDetailsAcc, lines: Seq<Seq<char>>) -> IwDetailsAcc
    decreases lines.len(),
{
    if lines.len() == 0 {
        a
    } else {
        iw_details_step(iw_details_fold(a, lines.drop_last()), lines.last())
    }
}

pub open spec fn spec_iw_link_details(s: Seq<char>) -> IwDetailsAcc {
    iw_details_fold(
        IwDetailsAcc { link_speed: None, signal_quality: None },
        text::spec_lines(s),
    )
}

/// The link-details accumulator for the fallback tool's report.
pub ghost struct IwconfigAcc {
    pub link_speed: Option<int>,
    pub tx_power: Option<int>,
    pub signal_quality: Option<int>,
}

/// One (trimmed) line of the fallback report: bit rate, transmit power,
/// and a quality fraction turned into a percentage.
pub open spec fn iwconfig_step(a: IwconfigAcc, raw: Seq<char>) -> IwconfigAcc {
    let l = text::spec_trim(raw);
    let a1 = if text::spec_contains(l, "Bit Rate="@) {
        let toks = text::spec_tokens(text::spec_after_first(l, "Bit Rate="@));
        if toks.len() >= 1 {
            match text::spec_parse_u32(toks[0]) {
                Some(v) => IwconfigAcc { link_speed: Some(v as int), ..a },
                None => a,
            }
        } else {
            a
        }
    } else {
        a
    };
    let a2 = if text::spec_contains(l, "Tx-Power="@) {
        let toks = text::spec_tokens(text::spec_after_first(l, "Tx-Power="@));
        if toks.len() >= 1 {
            match text::spec_parse_i32(toks[0]) {
                Some(v) => IwconfigAcc { tx_power: Some(v as int), ..a1 },
                None => a1,
            }
        } else {
            a1
        }
    } else {
        a1
    };
    if text::spec_contains(l, "Link Quality="@) {
        let toks = text::spec_tokens(text::spec_after_first(l, "Link Quality="@));
        if toks.len() >= 1 {
            let parts = text::spec_split(toks[0], '/');
            if parts.len() >= 2 {
                match (text::spec_parse_u32(parts[0]), text::spec_parse_u32(parts[1])) {
                    (Some(num), Some(den)) => if den > 0 && (num as int) * 100 / (den as int)
                        <= u32::MAX {
                        IwconfigAcc {
                            signal_quality: Some((num as int) * 100 / (den as int)),
                            ..a2
                        }
                    } else {
                        a2
                    },
                    _ => a2,
                }
            } else {
                a2
            }
        } else {
            a2
        }
    } else {
        a2
    }
}

pub open spec fn iwconfig_fold(a: IwconfigAcc, lines: Seq<Seq<char>>) -> IwconfigAcc
    decreases lines.len(),
{
    if lines.len() == 0 {
        a
    } else {
        iwconfig_step(iwconfig_fold(a, lines.drop_last()), lines.last())
    }
}

pub open spec fn spec_iwconfig_details(s: Seq<char>) -> IwconfigAcc {
    iwconfig_fold(
        IwconfigAcc { link_speed: None, tx_power: None, signal_quality: None },
        text::spec_lines(s),
    )
}

/// The classification for a modern-backend security tag, compared up to
/// ASCII case; anything unknown counts as WPA2.
pub open spec fn spec_iwd_security(s: Seq<char>) -> WifiSecurity {
    if text::ascii_eq_ci(s, "open"@) {
        WifiSecurity::Open
    } else if text::ascii_eq_ci(s, "wep"@) {
        WifiSecurity::WEP
    } else if text::ascii_eq_ci(s, "psk"@) {
        WifiSecurity::WPA2
    } else if text::ascii_eq_ci(s, "8021x"@) {
        WifiSecurity::Enterprise
    } else if text::ascii_eq_ci(s, "sae"@) {
        WifiSecurity::WPA3
    } else {
        WifiSecurity::WPA2
    }
}

/// A sequence of modern-backend records, each lifted.
pub open spec fn wifi_of_iwd_seq(v: Seq<crate::iwd::IwdNetworkV>) -> Seq<WifiNetworkV> {
    Seq::new(v.len(), |i: int| wifi_of_iwd(v[i]))
}

/// A modern-backend scan record lifted into the canonical network shape.
pub open spec fn wifi_of_iwd(n: crate::iwd::IwdNetworkV) -> WifiNetworkV {
    WifiNetworkV {
        ssid: n.name,
        bssid: "Unknown"@,
        signal_strength: n.signal_strength,
        frequency: 0,
        channel: 0,
        security: spec_iwd_security(n.security_type),
        encryption: seq![n.security_type],
        connected: n.connected,
        in_history: false,
    }
}

pub open spec fn spec_frequency_to_channel(frequency: int) -> int {
    if 2412 <= frequency <= 2484 {
        (frequency - 2412) / 5 + 1
    } else if 5000 <= frequency <= 6000 {
        (frequency - 5000) / 5
    } else {
        0
    }
}

} // verus!
