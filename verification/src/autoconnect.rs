//! The auto-connect engine's decisions.
//!
//! On a fixed interval the engine looks at the current interface
//! snapshots and the profile store and decides whether to attempt a
//! connection, on which interface, and in what order to try the
//! remembered candidates.  The scan and connect commands themselves run
//! outside the library; their results feed the next decision.  A cycle
//! that finds nothing to do or exhausts its candidates ends silently:
//! auto-connect failure is best-effort by design.

use vstd::prelude::*;

use crate::config::{Config, WifiProfile, profile_derefs, rank_sorted};
use crate::network::{Interface, WifiNetwork, WifiSecurity};
use crate::text;
use crate::text::is_prefix_of;

verus! {

/// Maps a profile's stored security tag back to the classification; an
/// unknown tag falls back to WPA2.
pub fn parse_security_type(security_str: &str) -> (r: WifiSecurity)
    ensures
        r == spec_security_type(security_str@),
{
    if text::str_eq_str(security_str, "Open") {
        WifiSecurity::Open
    } else if text::str_eq_str(security_str, "WEP") {
        WifiSecurity::WEP
    } else if text::str_eq_str(security_str, "WPA") {
        WifiSecurity::WPA
    } else if text::str_eq_str(security_str, "WPA2") {
        WifiSecurity::WPA2
    } else if text::str_eq_str(security_str, "WPA3") {
        WifiSecurity::WPA3
    } else if text::str_eq_str(security_str, "Enterprise") {
        WifiSecurity::Enterprise
    } else {
        WifiSecurity::WPA2
    }
}

pub open spec fn spec_security_type(s: Seq<char>) -> WifiSecurity {
    if s == "Open"@ {
        WifiSecurity::Open
    } else if s == "WEP"@ {
        WifiSecurity::WEP
    } else if s == "WPA"@ {
        WifiSecurity::WPA
    } else if s == "WPA2"@ {
        WifiSecurity::WPA2
    } else if s == "WPA3"@ {
        WifiSecurity::WPA3
    } else if s == "Enterprise"@ {
        WifiSecurity::Enterprise
    } else {
        WifiSecurity::WPA2
    }
}

/// The name-prefix heuristic for wireless interfaces: a fast path used
/// only by interactive WiFi-action dispatch, never by discovery, which
/// goes by the filesystem capability marker.
pub open spec fn spec_is_likely_wifi(name: Seq<char>) -> bool {
    ||| is_prefix_of("wlan"@, name)
    ||| is_prefix_of("wlp"@, name)
    ||| is_prefix_of("wifi"@, name)
    ||| is_prefix_of("wlx"@, name)
    ||| is_prefix_of("wlo"@, name)
}

pub fn is_likely_wifi_interface(interface_name: &str) -> (r: bool)
    ensures
        r == spec_is_likely_wifi(interface_name@),
{
    text::starts_with_str(interface_name, "wlan") || text::starts_with_str(interface_name, "wlp")
        || text::starts_with_str(interface_name, "wifi") || text::starts_with_str(
        interface_name,
        "wlx",
    ) || text::starts_with_str(interface_name, "wlo")
}

/// An interface that already reports a current network; any such report
/// suffices, whatever the interface's operational state.
pub open spec fn iface_connected_wifi(i: Interface) -> bool {
    &&& i.wifi_info is Some
    &&& i.wifi_info->Some_0.current_network is Some
}

/// Some wireless interface already reports a current network.
pub open spec fn spec_has_connected_wifi(s: Seq<Interface>) -> bool {
    exists|k: int| 0 <= k < s.len() && iface_connected_wifi(#[trigger] s[k])
}

/// Whether an auto-connect cycle must skip entirely: the engine never
/// pre-empts an existing connection.
pub fn has_connected_wifi(interfaces: &Vec<Interface>) -> (r: bool)
    ensures
        r == spec_has_connected_wifi(interfaces@),
{
    let mut k: usize = 0;
    while k < interfaces.len()
        invariant
            0 <= k <= interfaces@.len(),
            forall|j: int| 0 <= j < k ==> !iface_connected_wifi(#[trigger] interfaces@[j]),
        decreases interfaces@.len() - k,
    {
        let iface = &interfaces[k];
        let connected = match &iface.wifi_info {
            Some(info) => info.current_network.is_some(),
            None => false,
        };
        if connected {
            proof {
                assert(iface_connected_wifi(interfaces@[k as int]));
            }
            return true;
        }
        proof {
            assert(!iface_connected_wifi(interfaces@[k as int]));
        }
        k += 1;
    }
    false
}

/// Index of the first wireless-capable interface, or `s.len()`.
pub open spec fn first_wifi_idx(s: Seq<Interface>) -> int
    decreases s.len(),
{
    if s.len() == 0 {
        0
    } else if s[0].wifi_info is Some {
        0
    } else {
        1 + first_wifi_idx(s.skip(1))
    }
}

/// The first wireless-capable interface in inventory order, if any.
pub fn find_wifi_interface(interfaces: &Vec<Interface>) -> (r: Option<&String>)
    ensures
        match r {
            Some(name) => first_wifi_idx(interfaces@) < interfaces@.len() && name@
                == interfaces@[first_wifi_idx(interfaces@)].name@,
            None => first_wifi_idx(interfaces@) >= interfaces@.len(),
        },
{
    let mut k: usize = 0;
    proof {
        lemma_first_wifi_idx_nonneg(interfaces@);
    }
    while k < interfaces.len()
        invariant
            0 <= k <= interfaces@.len(),
            first_wifi_idx(interfaces@) >= k,
        decreases interfaces@.len() - k,
    {
        if interfaces[k].wifi_info.is_some() {
            proof {
                lemma_first_wifi_idx_at(interfaces@, k as int);
            }
            return Some(&interfaces[k].name);
        }
        proof {
            lemma_first_wifi_idx_past(interfaces@, k as int);
        }
        k += 1;
    }
    None
}

proof fn lemma_first_wifi_idx_at(s: Seq<Interface>, i: int)
    requires
        0 <= i < s.len(),
        s[i].wifi_info is Some,
        first_wifi_idx(s) >= i,
    ensures
        first_wifi_idx(s) == i,
    decreases i,
{
    if i > 0 {
        assert(!(s[0].wifi_info is Some));
        assert(s.skip(1)[i - 1] == s[i]);
        lemma_first_wifi_idx_at(s.skip(1), i - 1);
    }
}

proof fn lemma_first_wifi_idx_past(s: Seq<Interface>, i: int)
    requires
        0 <= i < s.len(),
        !(s[i].wifi_info is Some),
        first_wifi_idx(s) >= i,
    ensures
        first_wifi_idx(s) >= i + 1,
    decreases i,
{
    if i == 0 {
        lemma_first_wifi_idx_nonneg(s.skip(1));
    } else {
        assert(!(s[0].wifi_info is Some));
        assert(s.skip(1)[i - 1] == s[i]);
        lemma_first_wifi_idx_past(s.skip(1), i - 1);
    }
}

proof fn lemma_first_wifi_idx_nonneg(s: Seq<Interface>)
    ensures
        first_wifi_idx(s) >= 0,
    decreases s.len(),
{
    if s.len() > 0 && !(s[0].wifi_info is Some) {
        lemma_first_wifi_idx_nonneg(s.skip(1));
    }
}

/// The candidate filter of one cycle: auto-connect profiles bound to the
/// chosen interface.
pub open spec fn auto_for(iface: Seq<char>) -> spec_fn(WifiProfile) -> bool {
    |p: WifiProfile| p.auto_connect && p.interface@ == iface
}

/// The ranked auto-connect candidates for one interface: the profile
/// store in ranking order, restricted to auto-connect profiles bound to
/// that interface.
pub fn auto_connect_candidates<'a>(config: &'a Config, interface_name: &str) -> (r: Vec<
    &'a WifiProfile,
>)
    ensures
        profile_derefs(r@) == rank_sorted(config.wifi_profiles@).filter(auto_for(interface_name@)),
{
    broadcast use vstd::seq_lib::group_filter_ensures;

    let ranked = config.get_wifi_profiles_by_priority();
    let ghost rv = profile_derefs(ranked@);
    let ghost pred = auto_for(interface_name@);
    let mut out: Vec<&'a WifiProfile> = Vec::new();
    proof {
        reveal(Seq::filter);
        assert(rv.take(0) =~= Seq::<WifiProfile>::empty());
        assert(profile_derefs(out@) =~= rv.take(0).filter(pred));
    }
    let mut i: usize = 0;
    while i < ranked.len()
        invariant
            0 <= i <= ranked@.len(),
            rv == profile_derefs(ranked@),
            rv.len() == ranked@.len(),
            pred == auto_for(interface_name@),
            profile_derefs(out@) == rv.take(i as int).filter(pred),
        decreases ranked@.len() - i,
    {
        broadcast use vstd::seq_lib::group_filter_ensures;

        let p: &WifiProfile = ranked[i];
        proof {
            assert(profile_derefs(ranked@)[i as int] == *ranked@[i as int]);
            assert(rv.take(i + 1) =~= rv.take(i as int).push(rv[i as int]));
            rv.take(i as int).lemma_filter_push(rv[i as int], pred);
        }
        if p.auto_connect && text::str_eq_str(p.interface.as_str(), interface_name) {
            proof {
                assert(pred(rv[i as int]));
            }
            let ghost out_before = profile_derefs(out@);
            out.push(p);
            proof {
                assert(profile_derefs(out@) =~= out_before.push(*p));
                assert(profile_derefs(out@) == rv.take(i + 1).filter(pred));
            }
        } else {
            proof {
                assert(!pred(rv[i as int]));
                assert(profile_derefs(out@) == rv.take(i + 1).filter(pred));
            }
        }
        i += 1;
    }
    proof {
        assert(rv.take(ranked@.len() as int) =~= rv);
    }
    out
}

/// Marks each scanned network that has a remembered profile on this
/// interface.  The flag comes from cross-referencing the profile store,
/// never from the parser; every other field stays untouched.
pub fn mark_in_history(networks: &mut Vec<WifiNetwork>, config: &Config, interface_name: &str)
    ensures
        final(networks)@.len() == old(networks)@.len(),
        forall|k: int|
            0 <= k < old(networks)@.len() ==> #[trigger] final(networks)@[k]@ == (
            crate::network::WifiNetworkV {
                in_history: crate::config::find_wifi_key(
                    config.wifi_profiles@,
                    old(networks)@[k].ssid@,
                    interface_name@,
                ) < config.wifi_profiles@.len(),
                ..old(networks)@[k]@
            }),
{
    let ghost orig = networks@;
    let mut k: usize = 0;
    while k < networks.len()
        invariant
            0 <= k <= orig.len(),
            networks@.len() == orig.len(),
            forall|w: int| k <= w < orig.len() ==> #[trigger] networks@[w] == orig[w],
            forall|w: int|
                0 <= w < k ==> #[trigger] networks@[w]@ == (crate::network::WifiNetworkV {
                    in_history: crate::config::find_wifi_key(
                        config.wifi_profiles@,
                        orig[w].ssid@,
                        interface_name@,
                    ) < config.wifi_profiles@.len(),
                    ..orig[w]@
                }),
        decreases orig.len() - k,
    {
        let remembered = config.get_wifi_profile(networks[k].ssid.as_str(), interface_name)
            .is_some();
        let ghost before = networks@;
        let mut net = networks.remove(k);
        proof {
            assert(net == orig[k as int]);
        }
        net.in_history = remembered;
        networks.insert(k, net);
        proof {
            assert(networks@.len() == orig.len());
            assert forall|w: int| 0 <= w < orig.len() && w != k implies #[trigger] networks@[w]
                == before[w] by {
                if w < k {
                    assert(networks@[w] == before.remove(k as int)[w]);
                    assert(before.remove(k as int)[w] == before[w]);
                } else {
                    assert(networks@[w] == before.remove(k as int)[w - 1]);
                    assert(before.remove(k as int)[w - 1] == before[w]);
                }
            }
            assert(networks@[k as int] == net);
        }
        k += 1;
    }
}

/// A remembered network is visible in the scan results.
pub open spec fn ssid_visible(p: WifiProfile, nets: Seq<WifiNetwork>) -> bool {
    exists|w: int| 0 <= w < nets.len() && (#[trigger] nets[w]).ssid@ == p.ssid@
}

/// The next candidate worth attempting: the first profile at or after
/// `start` whose SSID is visible in the scan.  The walk continues here
/// after a failed attempt instead of aborting the cycle.
pub fn next_visible_candidate(
    candidates: &Vec<&WifiProfile>,
    networks: &Vec<WifiNetwork>,
    start: usize,
) -> (r: Option<usize>)
    ensures
        match r {
            Some(k) => start <= k < candidates@.len() && ssid_visible(
                profile_derefs(candidates@)[k as int],
                networks@,
            ) && forall|j: int|
                start <= j < k ==> !ssid_visible(
                    #[trigger] profile_derefs(candidates@)[j],
                    networks@,
                ),
            None => forall|j: int|
                start <= j < candidates@.len() ==> !ssid_visible(
                    #[trigger] profile_derefs(candidates@)[j],
                    networks@,
                ),
        },
{
    let mut k: usize = start;
    if start > candidates.len() {
        return None;
    }
    while k < candidates.len()
        invariant
            start <= k <= candidates@.len(),
            forall|j: int|
                start <= j < k ==> !ssid_visible(
                    #[trigger] profile_derefs(candidates@)[j],
                    networks@,
                ),
        decreases candidates@.len() - k,
    {
        let p: &WifiProfile = candidates[k];
        proof {
            assert(profile_derefs(candidates@)[k as int] == *candidates@[k as int]);
        }
        let mut w: usize = 0;
        let mut found = false;
        while w < networks.len()
            invariant
                0 <= w <= networks@.len(),
                found ==> ssid_visible(*p, networks@),
                !found ==> forall|v: int| 0 <= v < w ==> (#[trigger] networks@[v]).ssid@ != p.ssid@,
            decreases networks@.len() - w,
        {
            if text::str_eq_str(networks[w].ssid.as_str(), p.ssid.as_str()) {
                proof {
                    assert(networks@[w as int].ssid@ == p.ssid@);
                }
                found = true;
            }
            w += 1;
        }
        if found {
            return Some(k);
        }
        proof {
            assert(!ssid_visible(profile_derefs(candidates@)[k as int], networks@));
        }
        k += 1;
    }
    None
}

/// One auto-connect decision: nothing to do when some wireless interface
/// is already connected — the engine never pre-empts — or when no
/// wireless-capable interface exists; otherwise the first wireless
/// interface is chosen together with its ranked auto-connect candidates.
pub fn auto_connect_plan<'a>(interfaces: &Vec<Interface>, config: &'a Config) -> (r: Option<
    (String, Vec<&'a WifiProfile>),
>)
    ensures
        spec_has_connected_wifi(interfaces@) ==> r is None,
        r matches Some(plan) ==> {
            &&& !spec_has_connected_wifi(interfaces@)
            &&& first_wifi_idx(interfaces@) < interfaces@.len()
            &&& plan.0@ == interfaces@[first_wifi_idx(interfaces@)].name@
            &&& profile_derefs(plan.1@) == rank_sorted(config.wifi_profiles@).filter(
                auto_for(plan.0@),
            )
        },
        (!spec_has_connected_wifi(interfaces@) && first_wifi_idx(interfaces@)
            < interfaces@.len()) ==> r is Some,
{
    if has_connected_wifi(interfaces) {
        return None;
    }
    match find_wifi_interface(interfaces) {
        Some(name) => {
            let owned = name.clone();
            let candidates = auto_connect_candidates(config, owned.as_str());
            Some((owned, candidates))
        }
        None => None,
    }
}

} // verus!
