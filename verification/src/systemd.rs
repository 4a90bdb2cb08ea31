//! Declarative network-configuration texts: the renderers that produce
//! them and the parser that reads WireGuard configuration files.
//!
//! Writing the rendered texts to disk and reloading the network daemon
//! happen outside the library; the texts themselves are built and checked
//! here.

use vstd::prelude::*;

use crate::errors::NetworkError;
use crate::network::{
    WifiSecurity, WireGuardConfig, WireGuardConfigV, WireGuardPeer, WireGuardPeerV,
};
use crate::text;
use crate::text::{
    seq_views, spec_find_char, spec_lines, spec_parse_u16, spec_trim, split_commas,
};

verus! {

pub struct SystemdNetworkConfig;

/// A fresh peer accumulator: all fields empty.
pub open spec fn wg_empty_peer() -> WireGuardPeerV {
    WireGuardPeerV {
        public_key: Seq::empty(),
        preshared_key: None,
        endpoint: None,
        allowed_ips: Seq::empty(),
        persistent_keepalive: None,
        name: None,
    }
}

/// The parser's accumulator: the section being read, the peer being
/// assembled, and the interface fields gathered so far.
pub ghost struct WgAcc {
    pub section: Seq<char>,
    pub peer: Option<WireGuardPeerV>,
    pub private_key: Seq<char>,
    pub listen_port: Option<int>,
    pub addresses: Seq<Seq<char>>,
    pub dns: Seq<Seq<char>>,
    pub mtu: Option<int>,
    pub peers: Seq<WireGuardPeerV>,
}

pub open spec fn wg_empty_acc() -> WgAcc {
    WgAcc {
        section: Seq::empty(),
        peer: None,
        private_key: Seq::empty(),
        listen_port: None,
        addresses: Seq::empty(),
        dns: Seq::empty(),
        mtu: None,
        peers: Seq::empty(),
    }
}

/// The pending peer flushed into the peer list.
pub open spec fn wg_flush_peer(a: WgAcc) -> Seq<WireGuardPeerV> {
    match a.peer {
        Some(p) => a.peers.push(p),
        None => a.peers,
    }
}

/// One configuration line applied to the accumulator: comments and blank
/// lines are skipped, a section header flushes the pending peer, and a
/// `key = value` line updates the current section's record.
pub open spec fn wg_step(a: WgAcc, raw: Seq<char>) -> WgAcc {
    let l = spec_trim(raw);
    if l.len() == 0 || l[0] == '#' {
        a
    } else if l[0] == '[' && l.last() == ']' {
        let section = l.subrange(1, l.len() - 1);
        WgAcc {
            section,
            peer: if section == "Peer"@ {
                Some(wg_empty_peer())
            } else {
                None
            },
            peers: wg_flush_peer(a),
            ..a
        }
    } else if spec_find_char(l, '=') < l.len() {
        let eq = spec_find_char(l, '=');
        let key = spec_trim(l.take(eq));
        let value = spec_trim(l.skip(eq + 1));
        wg_step_kv(a, key, value)
    } else {
        a
    }
}

/// A `key = value` line applied to the accumulator's current section.
pub open spec fn wg_step_kv(a: WgAcc, key: Seq<char>, value: Seq<char>) -> WgAcc {
    if a.section == "Interface"@ {
        if key == "PrivateKey"@ {
            WgAcc { private_key: value, ..a }
        } else if key == "ListenPort"@ {
            WgAcc {
                listen_port: match spec_parse_u16(value) {
                    Some(v) => Some(v as int),
                    None => None,
                },
                ..a
            }
        } else if key == "Address"@ {
            WgAcc { addresses: a.addresses.push(value), ..a }
        } else if key == "DNS"@ {
            WgAcc { dns: a.dns + split_commas(value), ..a }
        } else if key == "MTU"@ {
            WgAcc {
                mtu: match spec_parse_u16(value) {
                    Some(v) => Some(v as int),
                    None => None,
                },
                ..a
            }
        } else {
            a
        }
    } else if a.section == "Peer"@ {
        match a.peer {
            Some(p) => WgAcc { peer: Some(wg_peer_key(p, key, value)), ..a },
            None => a,
        }
    } else {
        a
    }
}

/// One `key = value` line applied to the peer being assembled.
pub open spec fn wg_peer_key(p: WireGuardPeerV, key: Seq<char>, value: Seq<char>) -> WireGuardPeerV {
    if key == "PublicKey"@ {
        WireGuardPeerV { public_key: value, ..p }
    } else if key == "PresharedKey"@ {
        WireGuardPeerV { preshared_key: Some(value), ..p }
    } else if key == "Endpoint"@ {
        WireGuardPeerV { endpoint: Some(value), ..p }
    } else if key == "AllowedIPs"@ {
        WireGuardPeerV { allowed_ips: p.allowed_ips + split_commas(value), ..p }
    } else if key == "PersistentKeepalive"@ {
        WireGuardPeerV {
            persistent_keepalive: match spec_parse_u16(value) {
                Some(v) => Some(v as int),
                None => None,
            },
            ..p
        }
    } else {
        p
    }
}

pub open spec fn wg_fold(a: WgAcc, lines: Seq<Seq<char>>) -> WgAcc
    decreases lines.len(),
{
    if lines.len() == 0 {
        a
    } else {
        wg_step(wg_fold(a, lines.drop_last()), lines.last())
    }
}

/// The configuration value a parsed file denotes: the fold over its lines
/// with the trailing peer flushed.  The public key is left empty; deriving
/// it from the private key is the caller's concern.
pub open spec fn spec_parse_wg_lines(lines: Seq<Seq<char>>, interface_name: Seq<char>)
    -> WireGuardConfigV {
    let a = wg_fold(wg_empty_acc(), lines);
    WireGuardConfigV {
        interface_name,
        private_key: a.private_key,
        public_key: Seq::empty(),
        listen_port: a.listen_port,
        addresses: a.addresses,
        dns: a.dns,
        mtu: a.mtu,
        peers: wg_flush_peer(a),
        auto_connect: false,
    }
}

pub open spec fn spec_parse_wg(s: Seq<char>, interface_name: Seq<char>) -> WireGuardConfigV {
    spec_parse_wg_lines(spec_lines(s), interface_name)
}

impl SystemdNetworkConfig {
    pub fn new() -> Self {
        SystemdNetworkConfig
    }

    /// Parses a WireGuard configuration file: `[Interface]` settings and
    /// one peer record per `[Peer]` section.  Malformed numeric values
    /// leave their field unset; unknown keys are ignored; the public key
    /// is not derived here.
    #[verifier::rlimit(50)]
    pub fn parse_wireguard_config(&self, content: &str, interface_name: &str) -> (r: Result<
        WireGuardConfig,
        NetworkError,
    >)
        ensures
            r matches Ok(c) && c@ == spec_parse_wg(content@, interface_name@),
    {
        let lines = text::lines_vec(content);
        let ghost lv = seq_views(lines@);
        let mut section: String = String::new();
        let mut peer: Option<WireGuardPeer> = None;
        let mut private_key: String = String::new();
        let mut listen_port: Option<u16> = None;
        let mut addresses: Vec<String> = Vec::new();
        let mut dns: Vec<String> = Vec::new();
        let mut mtu: Option<u16> = None;
        let mut peers: Vec<WireGuardPeer> = Vec::new();
        let n = lines.len();
        let mut i: usize = 0;
        proof {
            assert(lv.take(0) =~= Seq::<Seq<char>>::empty());
            assert(seq_views(addresses@) =~= Seq::<Seq<char>>::empty());
            assert(seq_views(dns@) =~= Seq::<Seq<char>>::empty());
            assert(crate::views(peers@) =~= Seq::<WireGuardPeerV>::empty());
        }
        while i < n
            invariant
                0 <= i <= n,
                n == lines@.len(),
                lv == seq_views(lines@),
                ({
                    let a = wg_fold(wg_empty_acc(), lv.take(i as int));
                    &&& section@ == a.section
                    &&& wg_peer_view(&peer) == a.peer
                    &&& private_key@ == a.private_key
                    &&& crate::network::opt_u16_v(listen_port) == a.listen_port
                    &&& seq_views(addresses@) == a.addresses
                    &&& seq_views(dns@) == a.dns
                    &&& crate::network::opt_u16_v(mtu) == a.mtu
                    &&& crate::views(peers@) == a.peers
                }),
            decreases n - i,
        {
            let ghost a = wg_fold(wg_empty_acc(), lv.take(i as int));
            let ghost a2 = wg_step(a, lv[i as int]);
            proof {
                assert(lv.take(i + 1).drop_last() =~= lv.take(i as int));
                assert(lv.take(i + 1).last() == lv[i as int]);
                assert(wg_fold(wg_empty_acc(), lv.take(i + 1)) == a2);
            }
            let line: &String = &lines[i];
            let l: &str = text::trim_str(line.as_str());
            proof {
                assert(seq_views(lines@)[i as int] == lines@[i as int]@);
                assert(l@ == spec_trim(lv[i as int]));
            }
            let ln = l.unicode_len();
            if ln == 0 || l.get_char(0) == '#' {
                // comment or blank line
            } else if l.get_char(0) == '[' && l.get_char(ln - 1) == ']' {
                let prev = peer;
                match prev {
                    Some(p) => {
                        let ghost pb = crate::views(peers@);
                        peers.push(p);
                        proof {
                            assert(crate::views(peers@) =~= pb.push(p@));
                        }
                    }
                    None => {},
                }
                section = l.substring_char(1, ln - 1).to_owned();
                proof {
                    assert(section@ =~= l@.subrange(1, l@.len() - 1));
                }
                if text::str_eq_str(section.as_str(), "Peer") {
                    let fresh = WireGuardPeer {
                        public_key: String::new(),
                        preshared_key: None,
                        endpoint: None,
                        allowed_ips: Vec::new(),
                        persistent_keepalive: None,
                        name: None,
                    };
                    proof {
                        assert(seq_views(fresh.allowed_ips@) =~= Seq::<Seq<char>>::empty());
                        assert(fresh@ == wg_empty_peer());
                    }
                    peer = Some(fresh);
                } else {
                    peer = None;
                }
            } else {
                match text::find_char_str(l, '=') {
                    Some(eq) => {
                        let key_part = l.substring_char(0, eq);
                        let value_part = l.substring_char(eq + 1, ln);
                        proof {
                            assert(key_part@ =~= l@.take(eq as int));
                            assert(value_part@ =~= l@.skip(eq as int + 1));
                        }
                        let key = text::trim_str(key_part);
                        let value = text::trim_str(value_part);
                        if text::str_eq_str(section.as_str(), "Interface") {
                            if text::str_eq_str(key, "PrivateKey") {
                                private_key = value.to_owned();
                            } else if text::str_eq_str(key, "ListenPort") {
                                listen_port = text::parse_u16_opt(value);
                            } else if text::str_eq_str(key, "Address") {
                                let ghost ab = seq_views(addresses@);
                                addresses.push(value.to_owned());
                                proof {
                                    assert(seq_views(addresses@) =~= ab.push(value@));
                                }
                            } else if text::str_eq_str(key, "DNS") {
                                let ghost db = seq_views(dns@);
                                let mut extra = text::split_commas_vec(value);
                                let ghost ev = seq_views(extra@);
                                dns.append(&mut extra);
                                proof {
                                    assert(seq_views(dns@) =~= db + ev);
                                }
                            } else if text::str_eq_str(key, "MTU") {
                                mtu = text::parse_u16_opt(value);
                            }
                        } else if text::str_eq_str(section.as_str(), "Peer") {
                            match &mut peer {
                                Some(p) => {
                                    if text::str_eq_str(key, "PublicKey") {
                                        p.public_key = value.to_owned();
                                    } else if text::str_eq_str(key, "PresharedKey") {
                                        p.preshared_key = Some(value.to_owned());
                                    } else if text::str_eq_str(key, "Endpoint") {
                                        p.endpoint = Some(value.to_owned());
                                    } else if text::str_eq_str(key, "AllowedIPs") {
                                        let ghost ib = seq_views(p.allowed_ips@);
                                        let mut extra = text::split_commas_vec(value);
                                        let ghost ev = seq_views(extra@);
                                        p.allowed_ips.append(&mut extra);
                                        proof {
                                            assert(seq_views(p.allowed_ips@) =~= ib + ev);
                                        }
                                    } else if text::str_eq_str(key, "PersistentKeepalive") {
                                        p.persistent_keepalive = text::parse_u16_opt(value);
                                    }
                                }
                                None => {},
                            }
                        }
                    }
                    None => {},
                }
            }
            proof {
                assert(section@ == a2.section);
                assert(wg_peer_view(&peer) == a2.peer);
                assert(private_key@ == a2.private_key);
                assert(crate::network::opt_u16_v(listen_port) == a2.listen_port);
                assert(seq_views(addresses@) == a2.addresses);
                assert(seq_views(dns@) == a2.dns);
                assert(crate::network::opt_u16_v(mtu) == a2.mtu);
                assert(crate::views(peers@) == a2.peers);
            }
            i += 1;
        }
        proof {
            assert(lv.take(n as int) =~= lv);
        }
        let prev = peer;
        match prev {
            Some(p) => {
                let ghost pb = crate::views(peers@);
                peers.push(p);
                proof {
                    assert(crate::views(peers@) =~= pb.push(p@));
                }
            }
            None => {},
        }
        let config = WireGuardConfig {
            interface_name: interface_name.to_owned(),
            private_key,
            public_key: String::new(),
            listen_port,
            addresses,
            dns,
            mtu,
            peers,
            auto_connect: false,
        };
        proof {
            assert(config@ == spec_parse_wg(content@, interface_name@));
        }
        Ok(config)
    }
}

/// The view of the peer being assembled.
pub open spec fn wg_peer_view(o: &Option<WireGuardPeer>) -> Option<WireGuardPeerV> {
    match o {
        Some(p) => Some(p@),
        None => None,
    }
}

// ---------------------------------------------------------------------------
// Rendering.
// ---------------------------------------------------------------------------

/// One `key=value` line for each value.
pub open spec fn kv_each(key: Seq<char>, vs: Seq<Seq<char>>) -> Seq<Seq<char>> {
    Seq::new(vs.len(), |i: int| key + vs[i])
}

/// One `key=value` line if the value is present.
pub open spec fn opt_kv(key: Seq<char>, v: Option<Seq<char>>) -> Seq<Seq<char>> {
    match v {
        Some(x) => seq![key + x],
        None => Seq::empty(),
    }
}

/// One `key=number` line if the number is present.
pub open spec fn num_kv(key: Seq<char>, v: Option<int>) -> Seq<Seq<char>> {
    match v {
        Some(x) => seq![key + text::spec_u64_dec(x)],
        None => Seq::empty(),
    }
}

/// The lines of one `[Peer]` block.
pub open spec fn peer_quick_lines(p: WireGuardPeerV) -> Seq<Seq<char>> {
    seq!["[Peer]"@, "PublicKey="@ + p.public_key] + opt_kv("PresharedKey="@, p.preshared_key)
        + opt_kv("Endpoint="@, p.endpoint) + kv_each("AllowedIPs="@, p.allowed_ips) + num_kv(
        "PersistentKeepalive="@,
        p.persistent_keepalive,
    )
}

pub open spec fn peers_quick_lines(ps: Seq<WireGuardPeerV>) -> Seq<Seq<char>>
    decreases ps.len(),
{
    if ps.len() == 0 {
        Seq::empty()
    } else {
        peers_quick_lines(ps.drop_last()) + peer_quick_lines(ps.last())
    }
}

/// The lines of the `[Interface]` block.
pub open spec fn wg_head_lines(c: WireGuardConfigV) -> Seq<Seq<char>> {
    seq!["[Interface]"@, "PrivateKey="@ + c.private_key] + num_kv("ListenPort="@, c.listen_port)
        + kv_each("Address="@, c.addresses) + kv_each("DNS="@, c.dns) + num_kv("MTU="@, c.mtu)
}

/// The lines of a rendered WireGuard configuration: the `[Interface]`
/// block followed by one `[Peer]` block per peer.
pub open spec fn wg_quick_lines(c: WireGuardConfigV) -> Seq<Seq<char>> {
    wg_head_lines(c) + peers_quick_lines(c.peers)
}

/// Appends one literal line.
fn push_line(out: &mut Vec<String>, line: &str)
    ensures
        seq_views(final(out)@) == seq_views(old(out)@).push(line@),
{
    let ghost before = seq_views(out@);
    out.push(line.to_owned());
    proof {
        assert(seq_views(out@) =~= before.push(line@));
    }
}

/// Appends one `key=value` line.
fn push_kv(out: &mut Vec<String>, key: &str, val: &str)
    ensures
        seq_views(final(out)@) == seq_views(old(out)@).push(key@ + val@),
{
    let ghost before = seq_views(out@);
    let line = String::from_str(key).concat(val);
    out.push(line);
    proof {
        assert(seq_views(out@) =~= before.push(key@ + val@));
    }
}

/// Appends one `key=number` line.
fn push_num_kv(out: &mut Vec<String>, key: &str, val: u64)
    ensures
        seq_views(final(out)@) == seq_views(old(out)@).push(key@ + text::spec_u64_dec(val as int)),
{
    let ghost before = seq_views(out@);
    let line = String::from_str(key).concat(text::u64_to_dec(val).as_str());
    out.push(line);
    proof {
        assert(seq_views(out@) =~= before.push(key@ + text::spec_u64_dec(val as int)));
    }
}

/// Appends one `key=value` line per value.
fn push_kv_each(out: &mut Vec<String>, key: &str, vals: &Vec<String>)
    ensures
        seq_views(final(out)@) == seq_views(old(out)@) + kv_each(key@, seq_views(vals@)),
{
    let ghost base = seq_views(out@);
    let ghost vv = seq_views(vals@);
    let mut j: usize = 0;
    proof {
        assert(seq_views(out@) =~= base + kv_each(key@, vv.take(0)));
    }
    while j < vals.len()
        invariant
            0 <= j <= vals@.len(),
            vv == seq_views(vals@),
            seq_views(out@) == base + kv_each(key@, vv.take(j as int)),
        decreases vals@.len() - j,
    {
        proof {
            assert(seq_views(vals@)[j as int] == vals@[j as int]@);
        }
        let ghost before = seq_views(out@);
        push_kv(out, key, vals[j].as_str());
        proof {
            assert(seq_views(out@) =~= base + kv_each(key@, vv.take(j + 1))) by {
                assert(seq_views(out@) == before.push(key@ + vv[j as int]));
                assert(kv_each(key@, vv.take(j + 1)).len() == j + 1);
                assert forall|w: int| 0 <= w < j + 1 implies kv_each(key@, vv.take(j + 1))[w]
                    == kv_each(key@, vv.take(j as int)).push(key@ + vv[j as int])[w] by {
                    assert(kv_each(key@, vv.take(j + 1))[w] == key@ + vv.take(j + 1)[w]);
                    if w < j {
                        assert(kv_each(key@, vv.take(j as int))[w] == key@ + vv.take(j as int)[w]);
                    }
                }
                assert(kv_each(key@, vv.take(j + 1)) =~= kv_each(key@, vv.take(j as int)).push(
                    key@ + vv[j as int],
                ));
            }
        }
        j += 1;
    }
    proof {
        assert(vv.take(vals@.len() as int) =~= vv);
    }
}

impl SystemdNetworkConfig {
    /// Renders a WireGuard configuration file that `parse_wireguard_config`
    /// reads back: the `[Interface]` settings followed by one `[Peer]`
    /// block per peer.
    pub fn render_wireguard_config(&self, config: &WireGuardConfig) -> (r: String)
        ensures
            r@ == text::join_nl(wg_quick_lines(config@)),
    {
        let mut out: Vec<String> = Vec::new();
        push_line(&mut out, "[Interface]");
        push_kv(&mut out, "PrivateKey=", config.private_key.as_str());
        match config.listen_port {
            Some(p) => push_num_kv(&mut out, "ListenPort=", p as u64),
            None => {},
        }
        push_kv_each(&mut out, "Address=", &config.addresses);
        push_kv_each(&mut out, "DNS=", &config.dns);
        match config.mtu {
            Some(m) => push_num_kv(&mut out, "MTU=", m as u64),
            None => {},
        }
        let ghost head = seq_views(out@);
        proof {
            assert(head =~= seq!["[Interface]"@, "PrivateKey="@ + config.private_key@] + num_kv(
                "ListenPort="@,
                crate::network::opt_u16_v(config.listen_port),
            ) + kv_each("Address="@, seq_views(config.addresses@)) + kv_each(
                "DNS="@,
                seq_views(config.dns@),
            ) + num_kv("MTU="@, crate::network::opt_u16_v(config.mtu)));
        }
        let ghost pv = crate::views(config.peers@);
        let mut k: usize = 0;
        proof {
            assert(seq_views(out@) =~= head + peers_quick_lines(pv.take(0)));
        }
        while k < config.peers.len()
            invariant
                0 <= k <= config.peers@.len(),
                pv == crate::views(config.peers@),
                seq_views(out@) == head + peers_quick_lines(pv.take(k as int)),
            decreases config.peers@.len() - k,
        {
            let p: &WireGuardPeer = &config.peers[k];
            proof {
                assert(crate::views(config.peers@)[k as int] == config.peers@[k as int]@);
                assert(pv.take(k + 1).drop_last() =~= pv.take(k as int));
                assert(pv.take(k + 1).last() == pv[k as int]);
            }
            let ghost block_base = seq_views(out@);
            push_line(&mut out, "[Peer]");
            push_kv(&mut out, "PublicKey=", p.public_key.as_str());
            match &p.preshared_key {
                Some(psk) => push_kv(&mut out, "PresharedKey=", psk.as_str()),
                None => {},
            }
            match &p.endpoint {
                Some(e) => push_kv(&mut out, "Endpoint=", e.as_str()),
                None => {},
            }
            push_kv_each(&mut out, "AllowedIPs=", &p.allowed_ips);
            match p.persistent_keepalive {
                Some(ka) => push_num_kv(&mut out, "PersistentKeepalive=", ka as u64),
                None => {},
            }
            proof {
                assert(seq_views(out@) =~= block_base + peer_quick_lines(pv[k as int]));
                assert(seq_views(out@) =~= head + peers_quick_lines(pv.take(k + 1)));
            }
            k += 1;
        }
        proof {
            assert(pv.take(config.peers@.len() as int) =~= pv);
            assert(seq_views(out@) =~= wg_quick_lines(config@));
        }
        text::join_lines(&out)
    }
}

/// The `[Network]` body for one addressing mode: DHCP, or the static
/// address, gateway and DNS servers.
pub open spec fn addressing_lines(
    dhcp: bool,
    ip: Option<Seq<char>>,
    gateway: Option<Seq<char>>,
    dns: Option<Seq<Seq<char>>>,
) -> Seq<Seq<char>> {
    if dhcp {
        seq!["DHCP=yes"@]
    } else {
        opt_kv("Address="@, ip) + opt_kv("Gateway="@, gateway) + match dns {
            Some(servers) => kv_each("DNS="@, servers),
            None => Seq::empty(),
        }
    }
}

/// The lines of a plain network configuration for one interface.
pub open spec fn network_config_lines(
    interface: Seq<char>,
    dhcp: bool,
    ip: Option<Seq<char>>,
    gateway: Option<Seq<char>>,
    dns: Option<Seq<Seq<char>>>,
) -> Seq<Seq<char>> {
    seq!["[Match]"@, "Name="@ + interface, ""@, "[Network]"@] + addressing_lines(
        dhcp,
        ip,
        gateway,
        dns,
    ) + seq![""@, "[Link]"@, "RequiredForOnline=yes"@]
}

/// The lines of one supplicant network block's security settings, for the
/// non-enterprise classifications.
pub open spec fn wpa_security_lines(security: WifiSecurity, password: Option<Seq<char>>) -> Seq<
    Seq<char>,
> {
    match security {
        WifiSecurity::Open => seq!["    key_mgmt=NONE"@],
        WifiSecurity::WEP => match password {
            Some(pw) => seq![
                "    wep_key0=\""@ + pw + "\""@,
                "    key_mgmt=NONE"@,
                "    wep_tx_keyidx=0"@,
            ],
            None => Seq::empty(),
        },
        WifiSecurity::WPA | WifiSecurity::WPA2 => (match password {
            Some(pw) => seq!["    psk=\""@ + pw + "\""@],
            None => Seq::empty(),
        }) + seq!["    key_mgmt=WPA-PSK"@],
        WifiSecurity::WPA3 => (match password {
            Some(pw) => seq!["    psk=\""@ + pw + "\""@],
            None => Seq::empty(),
        }) + seq!["    key_mgmt=SAE"@, "    ieee80211w=2"@],
        WifiSecurity::Enterprise => Seq::empty(),
    }
}

/// The lines of a supplicant configuration for one remembered network.
pub open spec fn wpa_config_lines(
    ssid: Seq<char>,
    password: Option<Seq<char>>,
    security: WifiSecurity,
    hidden: bool,
) -> Seq<Seq<char>> {
    seq![
        "ctrl_interface=/run/wpa_supplicant"@,
        "update_config=1"@,
        "country=US"@,
        ""@,
        "network={"@,
        "    ssid=\""@ + ssid + "\""@,
    ] + (if hidden {
        seq!["    scan_ssid=1"@]
    } else {
        Seq::empty()
    }) + wpa_security_lines(security, password) + seq!["}"@]
}

/// The lines of the WireGuard device unit.
pub open spec fn netdev_peer_lines(p: WireGuardPeerV) -> Seq<Seq<char>> {
    seq![""@, "[WireGuardPeer]"@, "PublicKey="@ + p.public_key] + opt_kv(
        "PresharedKey="@,
        p.preshared_key,
    ) + opt_kv("Endpoint="@, p.endpoint) + kv_each("AllowedIPs="@, p.allowed_ips) + num_kv(
        "PersistentKeepalive="@,
        p.persistent_keepalive,
    )
}

pub open spec fn netdev_peers_lines(ps: Seq<WireGuardPeerV>) -> Seq<Seq<char>>
    decreases ps.len(),
{
    if ps.len() == 0 {
        Seq::empty()
    } else {
        netdev_peers_lines(ps.drop_last()) + netdev_peer_lines(ps.last())
    }
}

pub open spec fn netdev_lines(c: WireGuardConfigV) -> Seq<Seq<char>> {
    seq![
        "[NetDev]"@,
        "Name="@ + c.interface_name,
        "Kind=wireguard"@,
        "Description=WireGuard tunnel"@,
        ""@,
        "[WireGuard]"@,
        "PrivateKey="@ + c.private_key,
    ] + num_kv("ListenPort="@, c.listen_port) + netdev_peers_lines(c.peers)
}

/// Allowed networks that become explicit routes: everything but the two
/// catch-all networks.
pub open spec fn route_pred() -> spec_fn(Seq<char>) -> bool {
    |ip: Seq<char>| ip != "0.0.0.0/0"@ && ip != "::/0"@
}

pub open spec fn peer_route_lines(p: WireGuardPeerV) -> Seq<Seq<char>> {
    kv_each("Route="@, p.allowed_ips.filter(route_pred()))
}

pub open spec fn route_lines(ps: Seq<WireGuardPeerV>) -> Seq<Seq<char>>
    decreases ps.len(),
{
    if ps.len() == 0 {
        Seq::empty()
    } else {
        route_lines(ps.drop_last()) + peer_route_lines(ps.last())
    }
}

/// The lines of the WireGuard interface's network unit.
pub open spec fn wg_network_lines(c: WireGuardConfigV) -> Seq<Seq<char>> {
    seq!["[Match]"@, "Name="@ + c.interface_name, ""@, "[Network]"@] + kv_each(
        "Address="@,
        c.addresses,
    ) + kv_each("DNS="@, c.dns) + route_lines(c.peers) + seq![""@, "[Link]"@, "RequiredForOnline=no"@]
        + num_kv("MTUBytes="@, c.mtu)
}

impl SystemdNetworkConfig {
    /// Renders the declarative network configuration for one interface:
    /// DHCP, or the given static addressing.
    pub fn render_network_config(
        &self,
        interface: &str,
        dhcp: bool,
        ip: Option<String>,
        gateway: Option<String>,
        dns: Option<Vec<String>>,
    ) -> (r: String)
        ensures
            r@ == text::join_nl(
                network_config_lines(
                    interface@,
                    dhcp,
                    opt_str_ref(&ip),
                    opt_str_ref(&gateway),
                    opt_seq_ref(&dns),
                ),
            ),
    {
        let mut out: Vec<String> = Vec::new();
        push_line(&mut out, "[Match]");
        push_kv(&mut out, "Name=", interface);
        push_line(&mut out, "");
        push_line(&mut out, "[Network]");
        if dhcp {
            push_line(&mut out, "DHCP=yes");
        } else {
            match &ip {
                Some(addr) => push_kv(&mut out, "Address=", addr.as_str()),
                None => {},
            }
            match &gateway {
                Some(gw) => push_kv(&mut out, "Gateway=", gw.as_str()),
                None => {},
            }
            match &dns {
                Some(servers) => push_kv_each(&mut out, "DNS=", servers),
                None => {},
            }
        }
        push_line(&mut out, "");
        push_line(&mut out, "[Link]");
        push_line(&mut out, "RequiredForOnline=yes");
        proof {
            assert(seq_views(out@) =~= network_config_lines(
                interface@,
                dhcp,
                opt_str_ref(&ip),
                opt_str_ref(&gateway),
                opt_seq_ref(&dns),
            ));
        }
        text::join_lines(&out)
    }

    /// Renders the supplicant configuration for one network.  Enterprise
    /// networks need a separate configuration method, so they are refused,
    /// and only they are.
    pub fn render_wpa_supplicant_config(&self, credentials: &crate::network::WifiCredentials) -> (r:
        Result<String, NetworkError>)
        ensures
            credentials.security is Enterprise <==> r is Err,
            r matches Err(e) ==> e is EnterpriseWiFiError,
            r matches Ok(s) ==> s@ == text::join_nl(
                wpa_config_lines(
                    credentials.ssid@,
                    crate::network::opt_str_v(&credentials.password),
                    credentials.security,
                    credentials.hidden,
                ),
            ),
    {
        let mut out: Vec<String> = Vec::new();
        push_line(&mut out, "ctrl_interface=/run/wpa_supplicant");
        push_line(&mut out, "update_config=1");
        push_line(&mut out, "country=US");
        push_line(&mut out, "");
        push_line(&mut out, "network={");
        let ssid_line = String::from_str("    ssid=\"").concat(credentials.ssid.as_str()).concat(
            "\"",
        );
        let ghost before_ssid = seq_views(out@);
        out.push(ssid_line);
        proof {
            assert(seq_views(out@) =~= before_ssid.push(
                "    ssid=\""@ + credentials.ssid@ + "\""@,
            ));
        }
        if credentials.hidden {
            push_line(&mut out, "    scan_ssid=1");
        }
        match credentials.security {
            WifiSecurity::Open => {
                push_line(&mut out, "    key_mgmt=NONE");
            }
            WifiSecurity::WEP => {
                match &credentials.password {
                    Some(pw) => {
                        let line = String::from_str("    wep_key0=\"").concat(pw.as_str()).concat(
                            "\"",
                        );
                        let ghost before = seq_views(out@);
                        out.push(line);
                        proof {
                            assert(seq_views(out@) =~= before.push(
                                "    wep_key0=\""@ + pw@ + "\""@,
                            ));
                        }
                        push_line(&mut out, "    key_mgmt=NONE");
                        push_line(&mut out, "    wep_tx_keyidx=0");
                    }
                    None => {},
                }
            }
            WifiSecurity::WPA | WifiSecurity::WPA2 => {
                match &credentials.password {
                    Some(pw) => {
                        let line = String::from_str("    psk=\"").concat(pw.as_str()).concat("\"");
                        let ghost before = seq_views(out@);
                        out.push(line);
                        proof {
                            assert(seq_views(out@) =~= before.push("    psk=\""@ + pw@ + "\""@));
                        }
                    }
                    None => {},
                }
                push_line(&mut out, "    key_mgmt=WPA-PSK");
            }
            WifiSecurity::WPA3 => {
                match &credentials.password {
                    Some(pw) => {
                        let line = String::from_str("    psk=\"").concat(pw.as_str()).concat("\"");
                        let ghost before = seq_views(out@);
                        out.push(line);
                        proof {
                            assert(seq_views(out@) =~= before.push("    psk=\""@ + pw@ + "\""@));
                        }
                    }
                    None => {},
                }
                push_line(&mut out, "    key_mgmt=SAE");
                push_line(&mut out, "    ieee80211w=2");
            }
            WifiSecurity::Enterprise => {
                return Err(
                    NetworkError::EnterpriseWiFiError {
                        details: String::from_str(
                            "Enterprise WiFi requires separate configuration method",
                        ),
                    },
                );
            }
        }
        push_line(&mut out, "}");
        proof {
            assert(seq_views(out@) =~= wpa_config_lines(
                credentials.ssid@,
                crate::network::opt_str_v(&credentials.password),
                credentials.security,
                credentials.hidden,
            ));
        }
        Ok(text::join_lines(&out))
    }

    /// Renders the WireGuard device unit: the tunnel device itself and one
    /// peer section per peer.
    pub fn render_wireguard_netdev(&self, config: &WireGuardConfig) -> (r: String)
        ensures
            r@ == text::join_nl(netdev_lines(config@)),
    {
        let mut out: Vec<String> = Vec::new();
        push_line(&mut out, "[NetDev]");
        push_kv(&mut out, "Name=", config.interface_name.as_str());
        push_line(&mut out, "Kind=wireguard");
        push_line(&mut out, "Description=WireGuard tunnel");
        push_line(&mut out, "");
        push_line(&mut out, "[WireGuard]");
        push_kv(&mut out, "PrivateKey=", config.private_key.as_str());
        match config.listen_port {
            Some(p) => push_num_kv(&mut out, "ListenPort=", p as u64),
            None => {},
        }
        let ghost head = seq_views(out@);
        proof {
            assert(head =~= seq![
                "[NetDev]"@,
                "Name="@ + config.interface_name@,
                "Kind=wireguard"@,
                "Description=WireGuard tunnel"@,
                ""@,
                "[WireGuard]"@,
                "PrivateKey="@ + config.private_key@,
            ] + num_kv("ListenPort="@, crate::network::opt_u16_v(config.listen_port)));
        }
        let ghost pv = crate::views(config.peers@);
        let mut k: usize = 0;
        proof {
            assert(seq_views(out@) =~= head + netdev_peers_lines(pv.take(0)));
        }
        while k < config.peers.len()
            invariant
                0 <= k <= config.peers@.len(),
                pv == crate::views(config.peers@),
                seq_views(out@) == head + netdev_peers_lines(pv.take(k as int)),
            decreases config.peers@.len() - k,
        {
            let p: &WireGuardPeer = &config.peers[k];
            proof {
                assert(crate::views(config.peers@)[k as int] == config.peers@[k as int]@);
                assert(pv.take(k + 1).drop_last() =~= pv.take(k as int));
                assert(pv.take(k + 1).last() == pv[k as int]);
            }
            let ghost block_base = seq_views(out@);
            push_line(&mut out, "");
            push_line(&mut out, "[WireGuardPeer]");
            push_kv(&mut out, "PublicKey=", p.public_key.as_str());
            match &p.preshared_key {
                Some(psk) => push_kv(&mut out, "PresharedKey=", psk.as_str()),
                None => {},
            }
            match &p.endpoint {
                Some(e) => push_kv(&mut out, "Endpoint=", e.as_str()),
                None => {},
            }
            push_kv_each(&mut out, "AllowedIPs=", &p.allowed_ips);
            match p.persistent_keepalive {
                Some(ka) => push_num_kv(&mut out, "PersistentKeepalive=", ka as u64),
                None => {},
            }
            proof {
                assert(seq_views(out@) =~= block_base + netdev_peer_lines(pv[k as int]));
                assert(seq_views(out@) =~= head + netdev_peers_lines(pv.take(k + 1)));
            }
            k += 1;
        }
        proof {
            assert(pv.take(config.peers@.len() as int) =~= pv);
            assert(seq_views(out@) =~= netdev_lines(config@));
        }
        text::join_lines(&out)
    }

    /// Renders the WireGuard interface's network unit: addresses, DNS and
    /// one route per allowed network, the catch-all networks excepted.
    pub fn render_wireguard_network(&self, config: &WireGuardConfig) -> (r: String)
        ensures
            r@ == text::join_nl(wg_network_lines(config@)),
    {
        broadcast use vstd::seq_lib::group_filter_ensures;

        let mut out: Vec<String> = Vec::new();
        push_line(&mut out, "[Match]");
        push_kv(&mut out, "Name=", config.interface_name.as_str());
        push_line(&mut out, "");
        push_line(&mut out, "[Network]");
        push_kv_each(&mut out, "Address=", &config.addresses);
        push_kv_each(&mut out, "DNS=", &config.dns);
        let ghost head = seq_views(out@);
        proof {
            assert(head =~= seq!["[Match]"@, "Name="@ + config.interface_name@, ""@, "[Network]"@]
                + kv_each("Address="@, seq_views(config.addresses@)) + kv_each(
                "DNS="@,
                seq_views(config.dns@),
            ));
        }
        let ghost pv = crate::views(config.peers@);
        let mut k: usize = 0;
        proof {
            assert(seq_views(out@) =~= head + route_lines(pv.take(0)));
        }
        while k < config.peers.len()
            invariant
                0 <= k <= config.peers@.len(),
                pv == crate::views(config.peers@),
                seq_views(out@) == head + route_lines(pv.take(k as int)),
            decreases config.peers@.len() - k,
        {
            let p: &WireGuardPeer = &config.peers[k];
            proof {
                assert(crate::views(config.peers@)[k as int] == config.peers@[k as int]@);
                assert(pv.take(k + 1).drop_last() =~= pv.take(k as int));
                assert(pv.take(k + 1).last() == pv[k as int]);
            }
            let ghost block_base = seq_views(out@);
            let ghost ips = pv[k as int].allowed_ips;
            let mut j: usize = 0;
            proof {
                reveal(Seq::filter);
                assert(ips.take(0) =~= Seq::<Seq<char>>::empty());
                assert(seq_views(out@) =~= block_base + kv_each(
                    "Route="@,
                    ips.take(0).filter(route_pred()),
                ));
            }
            while j < p.allowed_ips.len()
                invariant
                    0 <= j <= p.allowed_ips@.len(),
                    p == config.peers@[k as int],
                    0 <= k < config.peers@.len(),
                    pv == crate::views(config.peers@),
                    ips == pv[k as int].allowed_ips,
                    ips == seq_views(p.allowed_ips@),
                    seq_views(out@) == block_base + kv_each(
                        "Route="@,
                        ips.take(j as int).filter(route_pred()),
                    ),
                decreases p.allowed_ips@.len() - j,
            {
                broadcast use vstd::seq_lib::group_filter_ensures;

                proof {
                    assert(seq_views(p.allowed_ips@)[j as int] == p.allowed_ips@[j as int]@);
                    assert(ips.take(j + 1) =~= ips.take(j as int).push(ips[j as int]));
                    ips.take(j as int).lemma_filter_push(ips[j as int], route_pred());
                }
                let ip = &p.allowed_ips[j];
                if !text::str_eq_str(ip.as_str(), "0.0.0.0/0") && !text::str_eq_str(
                    ip.as_str(),
                    "::/0",
                ) {
                    proof {
                        assert(route_pred()(ips[j as int]));
                    }
                    let ghost before = seq_views(out@);
                    push_kv(&mut out, "Route=", ip.as_str());
                    proof {
                        let f1 = ips.take(j as int).filter(route_pred());
                        let f2 = ips.take(j + 1).filter(route_pred());
                        assert(f2 == f1.push(ips[j as int]));
                        assert(seq_views(out@) =~= block_base + kv_each("Route="@, f2)) by {
                            assert(kv_each("Route="@, f2) =~= kv_each("Route="@, f1).push(
                                "Route="@ + ips[j as int],
                            ));
                        }
                    }
                } else {
                    proof {
                        assert(!route_pred()(ips[j as int]));
                        assert(seq_views(out@) =~= block_base + kv_each(
                            "Route="@,
                            ips.take(j + 1).filter(route_pred()),
                        ));
                    }
                }
                j += 1;
            }
            proof {
                assert(ips.take(p.allowed_ips@.len() as int) =~= ips);
                assert(seq_views(out@) =~= block_base + peer_route_lines(pv[k as int]));
                assert(seq_views(out@) =~= head + route_lines(pv.take(k + 1)));
            }
            k += 1;
        }
        push_line(&mut out, "");
        push_line(&mut out, "[Link]");
        push_line(&mut out, "RequiredForOnline=no");
        match config.mtu {
            Some(m) => push_num_kv(&mut out, "MTUBytes=", m as u64),
            None => {},
        }
        proof {
            assert(pv.take(config.peers@.len() as int) =~= pv);
            assert(seq_views(out@) =~= wg_network_lines(config@));
        }
        text::join_lines(&out)
    }
}

/// The view of an optional owned string, borrowed.
pub open spec fn opt_str_ref(o: &Option<String>) -> Option<Seq<char>> {
    match o {
        Some(s) => Some(s@),
        None => None,
    }
}

/// The view of an optional list of owned strings.
pub open spec fn opt_seq_ref(o: &Option<Vec<String>>) -> Option<Seq<Seq<char>>> {
    match o {
        Some(v) => Some(seq_views(v@)),
        None => None,
    }
}

// ---------------------------------------------------------------------------
// Round trip: a rendered configuration parses back to the same value.
// ---------------------------------------------------------------------------

/// A value fit for a configuration line: no embedded newline and no
/// leading or trailing whitespace, so that trimming gives it back.
pub open spec fn clean_val(s: Seq<char>) -> bool {
    &&& spec_trim(s) == s
    &&& forall|j: int| 0 <= j < s.len() ==> s[j] != '\n'
}

/// A list item additionally free of the list separator.
pub open spec fn clean_item(s: Seq<char>) -> bool {
    clean_val(s) && forall|j: int| 0 <= j < s.len() ==> s[j] != ','
}

pub open spec fn wf_peer(p: WireGuardPeerV) -> bool {
    &&& clean_val(p.public_key)
    &&& match p.preshared_key {
        Some(x) => clean_val(x),
        None => true,
    }
    &&& match p.endpoint {
        Some(x) => clean_val(x),
        None => true,
    }
    &&& forall|j: int| 0 <= j < p.allowed_ips.len() ==> clean_item(#[trigger] p.allowed_ips[j])
    &&& match p.persistent_keepalive {
        Some(v) => 0 <= v <= u16::MAX,
        None => true,
    }
    &&& p.name is None
}

pub open spec fn wf_wg_config(c: WireGuardConfigV) -> bool {
    &&& clean_val(c.private_key)
    &&& match c.listen_port {
        Some(v) => 0 <= v <= u16::MAX,
        None => true,
    }
    &&& forall|j: int| 0 <= j < c.addresses.len() ==> clean_val(#[trigger] c.addresses[j])
    &&& forall|j: int| 0 <= j < c.dns.len() ==> clean_item(#[trigger] c.dns[j])
    &&& match c.mtu {
        Some(v) => 0 <= v <= u16::MAX,
        None => true,
    }
    &&& forall|k: int| 0 <= k < c.peers.len() ==> wf_peer(#[trigger] c.peers[k])
}

/// Trimming fixes a non-empty text with non-blank ends.
proof fn lemma_trim_stable(s: Seq<char>)
    requires
        s.len() > 0,
        !text::is_space(s[0]),
        !text::is_space(s.last()),
    ensures
        spec_trim(s) == s,
{
    text::lemma_trim_start_skip(s, 0);
    assert(s.skip(0) =~= s);
    text::lemma_trim_end_take(s, s.len() as int);
    assert(s.take(s.len() as int) =~= s);
}

proof fn lemma_trim_start_len(s: Seq<char>)
    ensures
        text::spec_trim_start(s).len() <= s.len(),
    decreases s.len(),
{
    if s.len() > 0 && text::is_space(s[0]) {
        lemma_trim_start_len(s.skip(1));
    }
}

proof fn lemma_trim_end_len(s: Seq<char>)
    ensures
        text::spec_trim_end(s).len() <= s.len(),
    decreases s.len(),
{
    if s.len() > 0 && text::is_space(s.last()) {
        lemma_trim_end_len(s.drop_last());
    }
}

/// A trim-stable non-empty value has non-blank ends.
proof fn lemma_clean_ends(s: Seq<char>)
    requires
        spec_trim(s) == s,
        s.len() > 0,
    ensures
        !text::is_space(s[0]),
        !text::is_space(s.last()),
{
    if text::is_space(s[0]) {
        lemma_trim_start_len(s.skip(1));
        lemma_trim_end_len(text::spec_trim_start(s.skip(1)));
    }
    assert(!text::is_space(s[0]));
    assert(text::spec_trim_start(s) == s);
    if text::is_space(s.last()) {
        lemma_trim_end_len(s.drop_last());
    }
}

/// What one rendered `key=value` line looks like to the parser.
proof fn lemma_kv_line(key: Seq<char>, v: Seq<char>)
    requires
        key.len() >= 2,
        key.last() == '=',
        forall|j: int| 0 <= j < key.len() - 1 ==> key[j] != '=',
        forall|j: int|
            0 <= j < key.len() ==> !text::is_space(#[trigger] key[j]) && key[j] != '\n' && key[j]
                != '#' && key[j] != '[',
        clean_val(v),
    ensures
        ({
            let l = key + v;
            &&& spec_trim(l) == l
            &&& l.len() > 0
            &&& l[0] != '#'
            &&& l[0] != '['
            &&& spec_find_char(l, '=') == key.len() - 1
            &&& spec_trim(l.take(key.len() - 1)) == key.drop_last()
            &&& spec_trim(l.skip(key.len() as int)) == v
            &&& text::joinable_line(l)
        }),
{
    let l = key + v;
    assert(l[0] == key[0]);
    if v.len() > 0 {
        lemma_clean_ends(v);
        assert(l.last() == v.last());
    } else {
        assert(l.last() == key.last());
    }
    lemma_trim_stable(l);
    text::lemma_find_char_at(l, '=', key.len() - 1);
    assert(l.take(key.len() - 1) =~= key.drop_last());
    lemma_trim_stable(key.drop_last());
    assert(l.skip(key.len() as int) =~= v);
    assert(text::joinable_line(l)) by {
        assert forall|j: int| 0 <= j < l.len() implies l[j] != '\n' by {
            if j >= key.len() {
                assert(l[j] == v[j - key.len()]);
            }
        }
    }
}

/// What a rendered section header looks like to the parser.
proof fn lemma_header_line(h: Seq<char>)
    requires
        h.len() >= 2,
        h[0] == '[',
        h.last() == ']',
        forall|j: int| 0 <= j < h.len() ==> !text::is_space(#[trigger] h[j]) && h[j] != '\n',
    ensures
        spec_trim(h) == h,
        text::joinable_line(h),
{
    lemma_trim_stable(h);
}

/// A separator-free item splits into just itself.
proof fn lemma_split_single(v: Seq<char>)
    requires
        clean_item(v),
    ensures
        text::split_commas(v) == seq![v],
{
    text::lemma_find_char_at(v, ',', v.len() as int);
    assert(text::spec_split(v, ',') == seq![v]);
    assert(text::split_commas(v) =~= seq![v]) by {
        assert(text::split_commas(v)[0] == spec_trim(text::spec_split(v, ',')[0]));
    }
}

/// A decimal rendering is a clean value.
proof fn lemma_dec_clean(x: int)
    requires
        x >= 0,
    ensures
        clean_val(text::spec_u64_dec(x)),
        text::spec_u64_dec(x).len() > 0,
{
    text::lemma_u64_dec_val(x);
    let s = text::spec_u64_dec(x);
    assert forall|j: int| 0 <= j < s.len() implies !text::is_space(#[trigger] s[j]) && s[j]
        != '\n' by {
        assert(text::is_digit_char(s[j]));
    }
    lemma_trim_stable(s);
}

/// Folding configuration lines composes over concatenation.
proof fn lemma_wg_fold_append(a: WgAcc, x: Seq<Seq<char>>, y: Seq<Seq<char>>)
    ensures
        wg_fold(a, x + y) == wg_fold(wg_fold(a, x), y),
    decreases y.len(),
{
    if y.len() == 0 {
        assert(x + y =~= x);
    } else {
        lemma_wg_fold_append(a, x, y.drop_last());
        assert((x + y).drop_last() =~= x + y.drop_last());
        assert((x + y).last() == y.last());
    }
}

/// All lines of a block are joinable.
pub open spec fn all_joinable(ls: Seq<Seq<char>>) -> bool {
    forall|k: int| 0 <= k < ls.len() ==> text::joinable_line(#[trigger] ls[k])
}

proof fn lemma_all_joinable_concat(a: Seq<Seq<char>>, b: Seq<Seq<char>>)
    requires
        all_joinable(a),
        all_joinable(b),
    ensures
        all_joinable(a + b),
{
    assert forall|k: int| 0 <= k < (a + b).len() implies text::joinable_line(
        #[trigger] (a + b)[k],
    ) by {
        if k < a.len() {
            assert((a + b)[k] == a[k]);
        } else {
            assert((a + b)[k] == b[k - a.len()]);
        }
    }
}

/// The character facts of every key literal the renderer uses.
proof fn lemma_key_literals()
    ensures
        kv_key_ok("PrivateKey="@),
        kv_key_ok("ListenPort="@),
        kv_key_ok("Address="@),
        kv_key_ok("DNS="@),
        kv_key_ok("MTU="@),
        kv_key_ok("PublicKey="@),
        kv_key_ok("PresharedKey="@),
        kv_key_ok("Endpoint="@),
        kv_key_ok("AllowedIPs="@),
        kv_key_ok("PersistentKeepalive="@),
        "PrivateKey="@.drop_last() == "PrivateKey"@,
        "ListenPort="@.drop_last() == "ListenPort"@,
        "Address="@.drop_last() == "Address"@,
        "DNS="@.drop_last() == "DNS"@,
        "MTU="@.drop_last() == "MTU"@,
        "PublicKey="@.drop_last() == "PublicKey"@,
        "PresharedKey="@.drop_last() == "PresharedKey"@,
        "Endpoint="@.drop_last() == "Endpoint"@,
        "AllowedIPs="@.drop_last() == "AllowedIPs"@,
        "PersistentKeepalive="@.drop_last() == "PersistentKeepalive"@,
        "ListenPort"@ != "PrivateKey"@,
        "Address"@ != "PrivateKey"@ && "Address"@ != "ListenPort"@,
        "DNS"@ != "PrivateKey"@ && "DNS"@ != "ListenPort"@ && "DNS"@ != "Address"@,
        "MTU"@ != "PrivateKey"@ && "MTU"@ != "ListenPort"@ && "MTU"@ != "Address"@ && "MTU"@
            != "DNS"@,
        "PresharedKey"@ != "PublicKey"@,
        "Endpoint"@ != "PublicKey"@ && "Endpoint"@ != "PresharedKey"@,
        "AllowedIPs"@ != "PublicKey"@ && "AllowedIPs"@ != "PresharedKey"@ && "AllowedIPs"@
            != "Endpoint"@,
        "PersistentKeepalive"@ != "PublicKey"@ && "PersistentKeepalive"@ != "PresharedKey"@
            && "PersistentKeepalive"@ != "Endpoint"@ && "PersistentKeepalive"@ != "AllowedIPs"@,
{
    reveal_strlit("PrivateKey=");
    reveal_strlit("PrivateKey");
    reveal_strlit("ListenPort=");
    reveal_strlit("ListenPort");
    reveal_strlit("Address=");
    reveal_strlit("Address");
    reveal_strlit("DNS=");
    reveal_strlit("DNS");
    reveal_strlit("MTU=");
    reveal_strlit("MTU");
    reveal_strlit("PublicKey=");
    reveal_strlit("PublicKey");
    reveal_strlit("PresharedKey=");
    reveal_strlit("PresharedKey");
    reveal_strlit("Endpoint=");
    reveal_strlit("Endpoint");
    reveal_strlit("AllowedIPs=");
    reveal_strlit("AllowedIPs");
    reveal_strlit("PersistentKeepalive=");
    reveal_strlit("PersistentKeepalive");
    assert("PrivateKey="@.drop_last() =~= "PrivateKey"@);
    assert("ListenPort="@.drop_last() =~= "ListenPort"@);
    assert("Address="@.drop_last() =~= "Address"@);
    assert("DNS="@.drop_last() =~= "DNS"@);
    assert("MTU="@.drop_last() =~= "MTU"@);
    assert("PublicKey="@.drop_last() =~= "PublicKey"@);
    assert("PresharedKey="@.drop_last() =~= "PresharedKey"@);
    assert("Endpoint="@.drop_last() =~= "Endpoint"@);
    assert("AllowedIPs="@.drop_last() =~= "AllowedIPs"@);
    assert("PersistentKeepalive="@.drop_last() =~= "PersistentKeepalive"@);
    assert("ListenPort"@[0] != "PrivateKey"@[0]);
    assert("Address"@[0] != "PrivateKey"@[0] && "Address"@[0] != "ListenPort"@[0]);
    assert("DNS"@[0] != "PrivateKey"@[0] && "DNS"@[0] != "ListenPort"@[0] && "DNS"@[0]
        != "Address"@[0]);
    assert("MTU"@[0] != "PrivateKey"@[0] && "MTU"@[0] != "ListenPort"@[0] && "MTU"@[0]
        != "Address"@[0] && "MTU"@[0] != "DNS"@[0]);
    assert("PresharedKey"@[1] != "PublicKey"@[1]);
    assert("Endpoint"@[0] != "PublicKey"@[0] && "Endpoint"@[0] != "PresharedKey"@[0]);
    assert("AllowedIPs"@[0] != "PublicKey"@[0] && "AllowedIPs"@[0] != "PresharedKey"@[0]
        && "AllowedIPs"@[0] != "Endpoint"@[0]);
    assert("PersistentKeepalive"@[1] != "PublicKey"@[1] && "PersistentKeepalive"@[1]
        != "PresharedKey"@[1] && "PersistentKeepalive"@[0] != "Endpoint"@[0]
        && "PersistentKeepalive"@[0] != "AllowedIPs"@[0]);
}

/// A renderer key literal: ends in `=`, contains no other `=`, and no
/// character that could change how the parser classifies the line.
pub open spec fn kv_key_ok(key: Seq<char>) -> bool {
    &&& key.len() >= 2
    &&& key.last() == '='
    &&& forall|j: int| 0 <= j < key.len() - 1 ==> key[j] != '='
    &&& forall|j: int|
        0 <= j < key.len() ==> !text::is_space(#[trigger] key[j]) && key[j] != '\n' && key[j] != '#'
            && key[j] != '['
}

/// What one rendered key line does to the fold.
proof fn lemma_step_kv(a: WgAcc, key: Seq<char>, v: Seq<char>)
    requires
        kv_key_ok(key),
        clean_val(v),
    ensures
        wg_step(a, key + v) == wg_step_kv(a, key.drop_last(), v),
        text::joinable_line(key + v),
{
    lemma_kv_line(key, v);
    let l = key + v;
    assert(spec_find_char(l, '=') == key.len() - 1);
    assert(spec_find_char(l, '=') < l.len());
}

/// The character facts of the two section header literals.
proof fn lemma_header_literals()
    ensures
        spec_trim("[Interface]"@) == "[Interface]"@,
        text::joinable_line("[Interface]"@),
        "[Interface]"@.len() > 0,
        "[Interface]"@[0] == '[',
        "[Interface]"@.last() == ']',
        "[Interface]"@.subrange(1, "[Interface]"@.len() - 1) == "Interface"@,
        spec_trim("[Peer]"@) == "[Peer]"@,
        text::joinable_line("[Peer]"@),
        "[Peer]"@.len() > 0,
        "[Peer]"@[0] == '[',
        "[Peer]"@.last() == ']',
        "[Peer]"@.subrange(1, "[Peer]"@.len() - 1) == "Peer"@,
        "Interface"@ != "Peer"@,
{
    reveal_strlit("[Interface]");
    reveal_strlit("Interface");
    reveal_strlit("[Peer]");
    reveal_strlit("Peer");
    lemma_header_line("[Interface]"@);
    lemma_header_line("[Peer]"@);
    assert("[Interface]"@.subrange(1, "[Interface]"@.len() - 1) =~= "Interface"@);
    assert("[Peer]"@.subrange(1, "[Peer]"@.len() - 1) =~= "Peer"@);
}

/// A block of `Address=` lines appends the addresses.
proof fn lemma_fold_addresses(a: WgAcc, vs: Seq<Seq<char>>)
    requires
        a.section == "Interface"@,
        forall|j: int| 0 <= j < vs.len() ==> clean_val(#[trigger] vs[j]),
    ensures
        wg_fold(a, kv_each("Address="@, vs)) == (WgAcc { addresses: a.addresses + vs, ..a }),
        all_joinable(kv_each("Address="@, vs)),
    decreases vs.len(),
{
    lemma_key_literals();
    let ls = kv_each("Address="@, vs);
    if vs.len() == 0 {
        assert(ls =~= Seq::<Seq<char>>::empty());
        assert(a.addresses + vs =~= a.addresses);
        assert(WgAcc { addresses: a.addresses + vs, ..a } == a);
    } else {
        lemma_fold_addresses(a, vs.drop_last());
        assert(ls.drop_last() =~= kv_each("Address="@, vs.drop_last()));
        assert(ls.last() == "Address="@ + vs.last());
        lemma_step_kv(
            WgAcc { addresses: a.addresses + vs.drop_last(), ..a },
            "Address="@,
            vs.last(),
        );
        assert((a.addresses + vs.drop_last()).push(vs.last()) =~= a.addresses + vs);
        assert forall|k: int| 0 <= k < ls.len() implies text::joinable_line(#[trigger] ls[k]) by {
            lemma_step_kv(a, "Address="@, vs[k]);
        }
    }
}

/// A block of `DNS=` lines appends the separator-free servers.
proof fn lemma_fold_dns(a: WgAcc, vs: Seq<Seq<char>>)
    requires
        a.section == "Interface"@,
        forall|j: int| 0 <= j < vs.len() ==> clean_item(#[trigger] vs[j]),
    ensures
        wg_fold(a, kv_each("DNS="@, vs)) == (WgAcc { dns: a.dns + vs, ..a }),
        all_joinable(kv_each("DNS="@, vs)),
    decreases vs.len(),
{
    lemma_key_literals();
    let ls = kv_each("DNS="@, vs);
    if vs.len() == 0 {
        assert(ls =~= Seq::<Seq<char>>::empty());
        assert(a.dns + vs =~= a.dns);
        assert(WgAcc { dns: a.dns + vs, ..a } == a);
    } else {
        lemma_fold_dns(a, vs.drop_last());
        assert(ls.drop_last() =~= kv_each("DNS="@, vs.drop_last()));
        assert(ls.last() == "DNS="@ + vs.last());
        lemma_step_kv(WgAcc { dns: a.dns + vs.drop_last(), ..a }, "DNS="@, vs.last());
        lemma_split_single(vs.last());
        assert((a.dns + vs.drop_last()) + seq![vs.last()] =~= a.dns + vs);
        assert forall|k: int| 0 <= k < ls.len() implies text::joinable_line(#[trigger] ls[k]) by {
            lemma_step_kv(a, "DNS="@, vs[k]);
        }
    }
}

/// A block of `AllowedIPs=` lines appends the peer's networks.
proof fn lemma_fold_ips(a: WgAcc, p: WireGuardPeerV, vs: Seq<Seq<char>>)
    requires
        a.section == "Peer"@,
        a.peer == Some(p),
        forall|j: int| 0 <= j < vs.len() ==> clean_item(#[trigger] vs[j]),
    ensures
        wg_fold(a, kv_each("AllowedIPs="@, vs)) == (WgAcc {
            peer: Some(WireGuardPeerV { allowed_ips: p.allowed_ips + vs, ..p }),
            ..a
        }),
        all_joinable(kv_each("AllowedIPs="@, vs)),
    decreases vs.len(),
{
    lemma_key_literals();
    lemma_header_literals();
    let ls = kv_each("AllowedIPs="@, vs);
    if vs.len() == 0 {
        assert(ls =~= Seq::<Seq<char>>::empty());
        assert(wg_fold(a, Seq::<Seq<char>>::empty()) == a);
        assert(p.allowed_ips + vs =~= p.allowed_ips);
        assert(WireGuardPeerV { allowed_ips: p.allowed_ips + vs, ..p } == p);
        assert(WgAcc { peer: Some(p), ..a } == a);
    } else {
        lemma_fold_ips(a, p, vs.drop_last());
        assert(ls.drop_last() =~= kv_each("AllowedIPs="@, vs.drop_last()));
        assert(ls.last() == "AllowedIPs="@ + vs.last());
        let mid = WgAcc {
            peer: Some(WireGuardPeerV { allowed_ips: p.allowed_ips + vs.drop_last(), ..p }),
            ..a
        };
        assert(wg_fold(a, ls.drop_last()) == mid);
        lemma_step_kv(mid, "AllowedIPs="@, vs.last());
        lemma_split_single(vs.last());
        assert(wg_fold(a, ls) == wg_step(mid, "AllowedIPs="@ + vs.last()));
        assert((p.allowed_ips + vs.drop_last()) + seq![vs.last()] =~= p.allowed_ips + vs);
        assert forall|k: int| 0 <= k < ls.len() implies text::joinable_line(#[trigger] ls[k]) by {
            lemma_step_kv(a, "AllowedIPs="@, vs[k]);
        }
    }
}

/// The `[Interface]` block parses back to its settings.
proof fn lemma_fold_head(c: WireGuardConfigV)
    requires
        wf_wg_config(c),
    ensures
        wg_fold(wg_empty_acc(), wg_head_lines(c)) == (WgAcc {
            section: "Interface"@,
            peer: None,
            private_key: c.private_key,
            listen_port: c.listen_port,
            addresses: c.addresses,
            dns: c.dns,
            mtu: c.mtu,
            peers: Seq::empty(),
        }),
        all_joinable(wg_head_lines(c)),
{
    lemma_key_literals();
    lemma_header_literals();
    let x1 = seq!["[Interface]"@, "PrivateKey="@ + c.private_key];
    let x2 = num_kv("ListenPort="@, c.listen_port);
    let x3 = kv_each("Address="@, c.addresses);
    let x4 = kv_each("DNS="@, c.dns);
    let x5 = num_kv("MTU="@, c.mtu);
    assert(wg_head_lines(c) == x1 + x2 + x3 + x4 + x5);
    // the header and the private key line
    let a0 = wg_empty_acc();
    assert(x1.drop_last() =~= seq!["[Interface]"@]);
    assert(seq!["[Interface]"@].drop_last() =~= Seq::<Seq<char>>::empty());
    let a_hdr = wg_step(a0, "[Interface]"@);
    assert(a_hdr == WgAcc { section: "Interface"@, peer: None, ..a0 }) by {
        assert(wg_flush_peer(a0) == a0.peers);
    }
    assert(wg_fold(a0, Seq::<Seq<char>>::empty()) == a0);
    assert(seq!["[Interface]"@].last() == "[Interface]"@);
    assert(wg_fold(a0, seq!["[Interface]"@]) == a_hdr);
    assert(wg_fold(a0, x1.drop_last()) == a_hdr);
    assert(x1.last() == "PrivateKey="@ + c.private_key);
    lemma_step_kv(a_hdr, "PrivateKey="@, c.private_key);
    let a1 = wg_fold(a0, x1);
    assert(a1 == wg_step(a_hdr, "PrivateKey="@ + c.private_key));
    assert(a1 == WgAcc { private_key: c.private_key, ..a_hdr });
    // the optional listen port
    lemma_wg_fold_append(a0, x1, x2);
    let a2 = wg_fold(a1, x2);
    assert(a2 == WgAcc { listen_port: c.listen_port, ..a1 } && all_joinable(x2)) by {
        match c.listen_port {
            Some(v) => {
                lemma_dec_clean(v);
                assert(x2 == seq!["ListenPort="@ + text::spec_u64_dec(v)]);
                assert(x2.drop_last() =~= Seq::<Seq<char>>::empty());
                assert(wg_fold(a1, Seq::<Seq<char>>::empty()) == a1);
                assert(x2.last() == "ListenPort="@ + text::spec_u64_dec(v));
                assert(wg_fold(a1, x2) == wg_step(a1, "ListenPort="@ + text::spec_u64_dec(v)));
                lemma_step_kv(a1, "ListenPort="@, text::spec_u64_dec(v));
                text::lemma_u64_dec_round_trip(v);
            }
            None => {
                assert(x2 =~= Seq::<Seq<char>>::empty());
                assert(wg_fold(a1, Seq::<Seq<char>>::empty()) == a1);
                assert(WgAcc { listen_port: c.listen_port, ..a1 } == a1);
            }
        }
    }
    // addresses, dns, mtu
    lemma_wg_fold_append(a0, x1 + x2, x3);
    assert(x1 + x2 + x3 =~= (x1 + x2) + x3);
    lemma_fold_addresses(a2, c.addresses);
    let a3 = wg_fold(a2, x3);
    assert(a3 == WgAcc { addresses: a2.addresses + c.addresses, ..a2 });
    assert(a2.addresses + c.addresses =~= c.addresses);
    lemma_wg_fold_append(a0, x1 + x2 + x3, x4);
    assert(x1 + x2 + x3 + x4 =~= (x1 + x2 + x3) + x4);
    lemma_fold_dns(a3, c.dns);
    let a4 = wg_fold(a3, x4);
    assert(a4 == WgAcc { dns: a3.dns + c.dns, ..a3 });
    assert(a3.dns + c.dns =~= c.dns);
    lemma_wg_fold_append(a0, x1 + x2 + x3 + x4, x5);
    assert(x1 + x2 + x3 + x4 + x5 =~= (x1 + x2 + x3 + x4) + x5);
    let a5 = wg_fold(a4, x5);
    assert(a5 == WgAcc { mtu: c.mtu, ..a4 } && all_joinable(x5)) by {
        match c.mtu {
            Some(v) => {
                lemma_dec_clean(v);
                assert(x5 == seq!["MTU="@ + text::spec_u64_dec(v)]);
                assert(x5.drop_last() =~= Seq::<Seq<char>>::empty());
                assert(wg_fold(a4, Seq::<Seq<char>>::empty()) == a4);
                assert(x5.last() == "MTU="@ + text::spec_u64_dec(v));
                assert(wg_fold(a4, x5) == wg_step(a4, "MTU="@ + text::spec_u64_dec(v)));
                lemma_step_kv(a4, "MTU="@, text::spec_u64_dec(v));
                text::lemma_u64_dec_round_trip(v);
            }
            None => {
                assert(x5 =~= Seq::<Seq<char>>::empty());
                assert(wg_fold(a4, Seq::<Seq<char>>::empty()) == a4);
                assert(WgAcc { mtu: c.mtu, ..a4 } == a4);
            }
        }
    }
    assert(wg_fold(a0, wg_head_lines(c)) == a5);
    // every head line is joinable
    assert(all_joinable(x1)) by {
        lemma_step_kv(a0, "PrivateKey="@, c.private_key);
        assert forall|k: int| 0 <= k < x1.len() implies text::joinable_line(
            #[trigger] x1[k],
        ) by {
            if k == 0 {
                assert(x1[0] == "[Interface]"@);
            } else {
                assert(x1[1] == "PrivateKey="@ + c.private_key);
            }
        }
    }
    lemma_all_joinable_concat(x1, x2);
    lemma_all_joinable_concat(x1 + x2, x3);
    lemma_all_joinable_concat(x1 + x2 + x3, x4);
    lemma_all_joinable_concat(x1 + x2 + x3 + x4, x5);
}

/// One `[Peer]` block parses back to its peer, flushing the pending one.
proof fn lemma_fold_peer_block(a: WgAcc, p: WireGuardPeerV)
    requires
        wf_peer(p),
    ensures
        wg_fold(a, peer_quick_lines(p)) == (WgAcc {
            section: "Peer"@,
            peer: Some(p),
            peers: wg_flush_peer(a),
            ..a
        }),
        all_joinable(peer_quick_lines(p)),
{
    lemma_key_literals();
    lemma_header_literals();
    let x1 = seq!["[Peer]"@, "PublicKey="@ + p.public_key];
    let x2 = opt_kv("PresharedKey="@, p.preshared_key);
    let x3 = opt_kv("Endpoint="@, p.endpoint);
    let x4 = kv_each("AllowedIPs="@, p.allowed_ips);
    let x5 = num_kv("PersistentKeepalive="@, p.persistent_keepalive);
    assert(peer_quick_lines(p) == x1 + x2 + x3 + x4 + x5);
    assert(x1.drop_last() =~= seq!["[Peer]"@]);
    assert(seq!["[Peer]"@].drop_last() =~= Seq::<Seq<char>>::empty());
    let a_hdr = wg_step(a, "[Peer]"@);
    assert(a_hdr == WgAcc {
        section: "Peer"@,
        peer: Some(wg_empty_peer()),
        peers: wg_flush_peer(a),
        ..a
    });
    assert(wg_fold(a, Seq::<Seq<char>>::empty()) == a);
    assert(seq!["[Peer]"@].last() == "[Peer]"@);
    assert(wg_fold(a, seq!["[Peer]"@]) == a_hdr);
    assert(wg_fold(a, x1.drop_last()) == a_hdr);
    assert(x1.last() == "PublicKey="@ + p.public_key);
    lemma_step_kv(a_hdr, "PublicKey="@, p.public_key);
    let p1 = WireGuardPeerV { public_key: p.public_key, ..wg_empty_peer() };
    let a1 = wg_fold(a, x1);
    assert(a1 == wg_step(a_hdr, "PublicKey="@ + p.public_key));
    assert(a1 == WgAcc { peer: Some(p1), ..a_hdr });
    lemma_wg_fold_append(a, x1, x2);
    let a2 = wg_fold(a1, x2);
    let p2 = WireGuardPeerV { preshared_key: p.preshared_key, ..p1 };
    assert(a2 == WgAcc { peer: Some(p2), ..a1 } && all_joinable(x2)) by {
        match p.preshared_key {
            Some(v) => {
                assert(x2 == seq!["PresharedKey="@ + v]);
                assert(x2.drop_last() =~= Seq::<Seq<char>>::empty());
                assert(wg_fold(a1, Seq::<Seq<char>>::empty()) == a1);
                assert(x2.last() == "PresharedKey="@ + v);
                assert(wg_fold(a1, x2) == wg_step(a1, "PresharedKey="@ + v));
                lemma_step_kv(a1, "PresharedKey="@, v);
            }
            None => {
                assert(x2 =~= Seq::<Seq<char>>::empty());
                assert(wg_fold(a1, Seq::<Seq<char>>::empty()) == a1);
                assert(p2 == p1);
            }
        }
    }
    lemma_wg_fold_append(a, x1 + x2, x3);
    assert(x1 + x2 + x3 =~= (x1 + x2) + x3);
    let a3 = wg_fold(a2, x3);
    let p3 = WireGuardPeerV { endpoint: p.endpoint, ..p2 };
    assert(a3 == WgAcc { peer: Some(p3), ..a2 } && all_joinable(x3)) by {
        match p.endpoint {
            Some(v) => {
                assert(x3 == seq!["Endpoint="@ + v]);
                assert(x3.drop_last() =~= Seq::<Seq<char>>::empty());
                assert(wg_fold(a2, Seq::<Seq<char>>::empty()) == a2);
                assert(x3.last() == "Endpoint="@ + v);
                assert(wg_fold(a2, x3) == wg_step(a2, "Endpoint="@ + v));
                lemma_step_kv(a2, "Endpoint="@, v);
            }
            None => {
                assert(x3 =~= Seq::<Seq<char>>::empty());
                assert(wg_fold(a2, Seq::<Seq<char>>::empty()) == a2);
                assert(p3 == p2);
            }
        }
    }
    lemma_wg_fold_append(a, x1 + x2 + x3, x4);
    assert(x1 + x2 + x3 + x4 =~= (x1 + x2 + x3) + x4);
    lemma_fold_ips(a3, p3, p.allowed_ips);
    let a4 = wg_fold(a3, x4);
    let p4 = WireGuardPeerV { allowed_ips: p3.allowed_ips + p.allowed_ips, ..p3 };
    assert(a4 == WgAcc { peer: Some(p4), ..a3 });
    assert(p3.allowed_ips + p.allowed_ips =~= p.allowed_ips);
    lemma_wg_fold_append(a, x1 + x2 + x3 + x4, x5);
    assert(x1 + x2 + x3 + x4 + x5 =~= (x1 + x2 + x3 + x4) + x5);
    let a5 = wg_fold(a4, x5);
    let p5 = WireGuardPeerV { persistent_keepalive: p.persistent_keepalive, ..p4 };
    assert(a5 == WgAcc { peer: Some(p5), ..a4 } && all_joinable(x5)) by {
        match p.persistent_keepalive {
            Some(v) => {
                lemma_dec_clean(v);
                assert(x5 == seq!["PersistentKeepalive="@ + text::spec_u64_dec(v)]);
                assert(x5.drop_last() =~= Seq::<Seq<char>>::empty());
                assert(wg_fold(a4, Seq::<Seq<char>>::empty()) == a4);
                assert(x5.last() == "PersistentKeepalive="@ + text::spec_u64_dec(v));
                assert(wg_fold(a4, x5) == wg_step(a4, "PersistentKeepalive="@ + text::spec_u64_dec(v)));
                lemma_step_kv(a4, "PersistentKeepalive="@, text::spec_u64_dec(v));
                text::lemma_u64_dec_round_trip(v);
            }
            None => {
                assert(x5 =~= Seq::<Seq<char>>::empty());
                assert(wg_fold(a4, Seq::<Seq<char>>::empty()) == a4);
                assert(p5 == p4);
            }
        }
    }
    assert(p5 == p);
    assert(wg_fold(a, peer_quick_lines(p)) == a5);
    assert(all_joinable(x1)) by {
        lemma_step_kv(a, "PublicKey="@, p.public_key);
        assert forall|k: int| 0 <= k < x1.len() implies text::joinable_line(
            #[trigger] x1[k],
        ) by {
            if k == 0 {
                assert(x1[0] == "[Peer]"@);
            } else {
                assert(x1[1] == "PublicKey="@ + p.public_key);
            }
        }
    }
    lemma_all_joinable_concat(x1, x2);
    lemma_all_joinable_concat(x1 + x2, x3);
    lemma_all_joinable_concat(x1 + x2 + x3, x4);
    lemma_all_joinable_concat(x1 + x2 + x3 + x4, x5);
}

/// A run of `[Peer]` blocks parses back to the peers, the last still
/// pending.
proof fn lemma_fold_peers(a: WgAcc, ps: Seq<WireGuardPeerV>)
    requires
        forall|k: int| 0 <= k < ps.len() ==> wf_peer(#[trigger] ps[k]),
    ensures
        ps.len() == 0 ==> wg_fold(a, peers_quick_lines(ps)) == a,
        ps.len() > 0 ==> wg_fold(a, peers_quick_lines(ps)) == (WgAcc {
            section: "Peer"@,
            peer: Some(ps.last()),
            peers: wg_flush_peer(a) + ps.drop_last(),
            ..a
        }),
        all_joinable(peers_quick_lines(ps)),
    decreases ps.len(),
{
    if ps.len() == 0 {
    } else {
        let dl = ps.drop_last();
        lemma_fold_peers(a, dl);
        lemma_wg_fold_append(a, peers_quick_lines(dl), peer_quick_lines(ps.last()));
        let mid = wg_fold(a, peers_quick_lines(dl));
        lemma_fold_peer_block(mid, ps.last());
        if dl.len() == 0 {
            assert(wg_flush_peer(mid) == wg_flush_peer(a));
            assert(wg_flush_peer(a) + dl =~= wg_flush_peer(a));
        } else {
            assert(mid.peer == Some(dl.last()));
            assert(wg_flush_peer(mid) == mid.peers.push(dl.last()));
            assert((wg_flush_peer(a) + dl.drop_last()).push(dl.last()) =~= wg_flush_peer(a) + dl);
        }
        assert(wg_flush_peer(a) + dl =~= wg_flush_peer(a) + ps.drop_last());
        lemma_all_joinable_concat(peers_quick_lines(dl), peer_quick_lines(ps.last()));
    }
}

/// Round-trip law: a WireGuard configuration written by the renderer and
/// read back by the parser yields an equivalent record — the same private
/// key, port, addresses, DNS servers and MTU, and for every peer the same
/// public key, preshared key, endpoint, allowed-IP list and keepalive.
/// The derived public key and the auto-connect flag are not part of the
/// file and come back at their defaults.
pub proof fn lemma_wireguard_round_trip(c: WireGuardConfigV, name: Seq<char>)
    requires
        wf_wg_config(c),
    ensures
        spec_parse_wg(text::join_nl(wg_quick_lines(c)), name) == (WireGuardConfigV {
            interface_name: name,
            public_key: Seq::empty(),
            auto_connect: false,
            ..c
        }),
{
    lemma_fold_head(c);
    lemma_fold_peers(wg_fold(wg_empty_acc(), wg_head_lines(c)), c.peers);
    lemma_all_joinable_concat(wg_head_lines(c), peers_quick_lines(c.peers));
    text::lemma_lines_join(wg_quick_lines(c));
    lemma_wg_fold_append(wg_empty_acc(), wg_head_lines(c), peers_quick_lines(c.peers));
    let a_head = wg_fold(wg_empty_acc(), wg_head_lines(c));
    let a_end = wg_fold(wg_empty_acc(), wg_quick_lines(c));
    if c.peers.len() == 0 {
        assert(a_end == a_head);
        assert(wg_flush_peer(a_end) =~= c.peers);
    } else {
        assert(a_end.peer == Some(c.peers.last()));
        assert(a_end.peers == wg_flush_peer(a_head) + c.peers.drop_last());
        assert(wg_flush_peer(a_head) + c.peers.drop_last() =~= c.peers.drop_last());
        assert(wg_flush_peer(a_end) =~= c.peers);
    }
    assert(spec_parse_wg(text::join_nl(wg_quick_lines(c)), name) == WireGuardConfigV {
        interface_name: name,
        public_key: Seq::empty(),
        auto_connect: false,
        ..c
    });
}

} // verus!
