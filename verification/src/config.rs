//! The profile store: remembered network profiles keyed by name, WiFi
//! profiles keyed by (SSID, interface), and the priority resolver that
//! ranks candidates for auto-connect.
//!
//! Loading and saving the store as one on-disk document belongs to the
//! persistence layer outside the library; it hands completed `Config`
//! values in and out.

use vstd::prelude::*;

use crate::network::EnterpriseCredentials;
use crate::scan::{insert_stable, sort_stable, sorted_by, total_preorder};

verus! {

/// A remembered wired-configuration profile, keyed by name.
#[derive(Clone, Debug)]
pub struct Profile {
    pub name: String,
    pub interface: String,
    pub dhcp: bool,
    pub ip: Option<String>,
    pub gateway: Option<String>,
    pub dns: Option<Vec<String>>,
}

/// A remembered WiFi profile.  The composite key is (SSID, interface): the
/// same SSID may carry different settings per adapter.  `last_connected`
/// is seconds since the Unix epoch.
#[derive(Clone, Debug)]
pub struct WifiProfile {
    pub ssid: String,
    pub security_type: String,
    pub password: Option<String>,
    pub interface: String,
    pub dhcp: bool,
    pub ip: Option<String>,
    pub gateway: Option<String>,
    pub dns: Option<Vec<String>>,
    pub last_connected: Option<u64>,
    pub auto_connect: bool,
    pub priority: i32,
    pub enterprise: Option<EnterpriseCredentials>,
}

/// The in-memory profile store.
#[derive(Clone, Debug)]
pub struct Config {
    pub profiles: Vec<Profile>,
    pub wifi_profiles: Vec<WifiProfile>,
}

/// `p` carries the given (SSID, interface) key.
pub open spec fn wifi_key_eq(p: WifiProfile, ssid: Seq<char>, interface: Seq<char>) -> bool {
    p.ssid@ == ssid && p.interface@ == interface
}

/// `s` with every profile of the given key removed, order kept.
pub open spec fn remove_wifi_key(s: Seq<WifiProfile>, ssid: Seq<char>, interface: Seq<char>) -> Seq<
    WifiProfile,
>
    decreases s.len(),
{
    if s.len() == 0 {
        Seq::empty()
    } else {
        let rest = remove_wifi_key(s.drop_last(), ssid, interface);
        if wifi_key_eq(s.last(), ssid, interface) {
            rest
        } else {
            rest.push(s.last())
        }
    }
}

/// Index of the first profile with the given key, or `s.len()`.
pub open spec fn find_wifi_key(s: Seq<WifiProfile>, ssid: Seq<char>, interface: Seq<char>) -> int
    decreases s.len(),
{
    if s.len() == 0 {
        0
    } else if wifi_key_eq(s[0], ssid, interface) {
        0
    } else {
        1 + find_wifi_key(s.skip(1), ssid, interface)
    }
}

/// The store invariant: at most one profile per (SSID, interface) pair.
pub open spec fn wifi_keys_unique(s: Seq<WifiProfile>) -> bool {
    forall|i: int, j: int| 0 <= i < j < s.len() ==> !wifi_key_eq(
        #[trigger] s[i],
        (#[trigger] s[j]).ssid@,
        s[j].interface@,
    )
}

/// `p` with its connection timestamp stamped to `now`.
pub open spec fn stamped(p: WifiProfile, now: u64) -> WifiProfile {
    WifiProfile { last_connected: Some(now), ..p }
}

/// `p` carries the given name key.
pub open spec fn profile_key_eq(p: Profile, name: Seq<char>) -> bool {
    p.name@ == name
}

pub open spec fn remove_profile_key(s: Seq<Profile>, name: Seq<char>) -> Seq<Profile>
    decreases s.len(),
{
    if s.len() == 0 {
        Seq::empty()
    } else {
        let rest = remove_profile_key(s.drop_last(), name);
        if profile_key_eq(s.last(), name) {
            rest
        } else {
            rest.push(s.last())
        }
    }
}

pub open spec fn find_profile_key(s: Seq<Profile>, name: Seq<char>) -> int
    decreases s.len(),
{
    if s.len() == 0 {
        0
    } else if profile_key_eq(s[0], name) {
        0
    } else {
        1 + find_profile_key(s.skip(1), name)
    }
}

// ---------------------------------------------------------------------------
// The auto-connect ranking order.
// ---------------------------------------------------------------------------

/// The three-level ranking comparator: `a` ranks no worse than `b` when
/// (1) auto-connect wins over not, then (2) higher priority wins, then
/// (3) more recently connected wins, profiles never connected last.
pub open spec fn rank_geq(a: WifiProfile, b: WifiProfile) -> bool {
    if a.auto_connect != b.auto_connect {
        a.auto_connect
    } else if a.priority != b.priority {
        a.priority > b.priority
    } else {
        match (a.last_connected, b.last_connected) {
            (Some(x), Some(y)) => x >= y,
            (Some(x), None) => true,
            (None, Some(y)) => false,
            (None, None) => true,
        }
    }
}

/// The ranking order as a single closure value.
pub open spec fn rank_fn() -> spec_fn(WifiProfile, WifiProfile) -> bool {
    |a: WifiProfile, b: WifiProfile| rank_geq(a, b)
}

/// Profiles in ranking order, stably sorted.
pub open spec fn rank_sorted(s: Seq<WifiProfile>) -> Seq<WifiProfile> {
    sort_stable(s, rank_fn())
}

/// The values behind a sequence of profile references.
pub open spec fn profile_derefs(v: Seq<&WifiProfile>) -> Seq<WifiProfile> {
    Seq::new(v.len(), |i: int| *v[i])
}

/// Law: the ranking comparator is a total preorder, so the ranking is a
/// total order on profiles up to ties, and ties are resolved stably.
pub proof fn lemma_rank_total_preorder()
    ensures
        total_preorder(rank_fn()),
{
    let geq = rank_fn();
    assert forall|a: WifiProfile, b: WifiProfile| #[trigger]
        geq(a, b) || #[trigger] geq(b, a) by {
        assert(geq(a, b) == rank_geq(a, b));
        assert(geq(b, a) == rank_geq(b, a));
    }
    assert forall|a: WifiProfile, b: WifiProfile, c: WifiProfile|
        #[trigger] geq(a, b) && #[trigger] geq(b, c) implies geq(a, c) by {
        assert(geq(a, b) == rank_geq(a, b));
        assert(geq(b, c) == rank_geq(b, c));
        assert(geq(a, c) == rank_geq(a, c));
    }
}

/// Law: ranking returns the same profiles, in an order sorted by the
/// three-level comparator.
pub proof fn lemma_rank_sorted(s: Seq<WifiProfile>)
    ensures
        sorted_by(rank_sorted(s), rank_fn()),
        rank_sorted(s).to_multiset() == s.to_multiset(),
        rank_sorted(s).len() == s.len(),
{
    lemma_rank_total_preorder();
    crate::scan::lemma_sort_stable(s, rank_fn());
}

impl Config {
    /// Remembers a wired profile; any existing profile of the same name is
    /// replaced (last write wins, no merge).
    pub fn add_profile(&mut self, profile: Profile)
        ensures
            final(self).wifi_profiles == old(self).wifi_profiles,
            final(self).profiles@ == remove_profile_key(old(self).profiles@, profile.name@).push(
                profile,
            ),
    {
        let ghost orig = self.profiles@;
        let ghost name = profile.name@;
        let mut i: usize = 0;
        let ghost j: int = 0;
        proof {
            assert(orig.take(0) =~= Seq::<Profile>::empty());
            assert(orig.skip(0) =~= orig);
        }
        while i < self.profiles.len()
            invariant
                0 <= i <= self.profiles@.len(),
                0 <= j <= orig.len(),
                name == profile.name@,
                self.profiles@ =~= remove_profile_key(orig.take(j), name) + orig.skip(j),
                i == remove_profile_key(orig.take(j), name).len(),
                self.wifi_profiles == old(self).wifi_profiles,
            decreases orig.len() - j,
        {
            proof {
                assert(self.profiles@[i as int] == orig.skip(j)[0]);
                assert(orig.skip(j)[0] == orig[j]);
                assert(orig.take(j + 1).drop_last() =~= orig.take(j));
                assert(orig.take(j + 1).last() == orig[j]);
            }
            if self.profiles[i].name == profile.name {
                self.profiles.remove(i);
                proof {
                    assert(self.profiles@ =~= remove_profile_key(orig.take(j + 1), name)
                        + orig.skip(j + 1));
                }
            } else {
                i += 1;
                proof {
                    assert(self.profiles@ =~= remove_profile_key(orig.take(j + 1), name)
                        + orig.skip(j + 1));
                }
            }
            proof {
                j = j + 1;
            }
        }
        proof {
            assert(orig.take(j) =~= orig);
            assert(orig.skip(j) =~= Seq::<Profile>::empty());
            assert(self.profiles@ =~= remove_profile_key(orig, name));
        }
        self.profiles.push(profile);
    }

    /// Looks up a wired profile by name; the first (and, under the store
    /// invariant, only) match is returned.
    pub fn get_profile(&self, name: &str) -> (r: Option<&Profile>)
        ensures
            match r {
                Some(p) => find_profile_key(self.profiles@, name@) < self.profiles@.len() && *p
                    == self.profiles@[find_profile_key(self.profiles@, name@)],
                None => find_profile_key(self.profiles@, name@) == self.profiles@.len(),
            },
    {
        let ghost s = self.profiles@;
        proof {
            lemma_find_profile_key_bound(s, name@);
        }
        let mut i: usize = 0;
        while i < self.profiles.len()
            invariant
                0 <= i <= s.len(),
                s == self.profiles@,
                find_profile_key(s, name@) >= i,
            decreases s.len() - i,
        {
            if crate::text::str_eq_str(self.profiles[i].name.as_str(), name) {
                proof {
                    lemma_find_profile_key_at(s, name@, i as int);
                }
                return Some(&self.profiles[i]);
            }
            proof {
                lemma_find_profile_key_past(s, name@, i as int);
            }
            i += 1;
        }
        proof {
            lemma_find_profile_key_bound(s, name@);
        }
        None
    }
    /// Remembers a WiFi profile; any existing profile with the same
    /// (SSID, interface) key is evicted before the new one is appended
    /// (last write wins, no merge).
    pub fn add_wifi_profile(&mut self, profile: WifiProfile)
        ensures
            final(self).profiles == old(self).profiles,
            final(self).wifi_profiles@ == remove_wifi_key(
                old(self).wifi_profiles@,
                profile.ssid@,
                profile.interface@,
            ).push(profile),
    {
        let ghost orig = self.wifi_profiles@;
        let ghost ssid = profile.ssid@;
        let ghost iface = profile.interface@;
        let mut i: usize = 0;
        let ghost j: int = 0;
        proof {
            assert(orig.take(0) =~= Seq::<WifiProfile>::empty());
            assert(orig.skip(0) =~= orig);
        }
        while i < self.wifi_profiles.len()
            invariant
                0 <= i <= self.wifi_profiles@.len(),
                0 <= j <= orig.len(),
                ssid == profile.ssid@,
                iface == profile.interface@,
                self.wifi_profiles@ =~= remove_wifi_key(orig.take(j), ssid, iface) + orig.skip(j),
                i == remove_wifi_key(orig.take(j), ssid, iface).len(),
                self.profiles == old(self).profiles,
            decreases orig.len() - j,
        {
            proof {
                assert(self.wifi_profiles@[i as int] == orig.skip(j)[0]);
                assert(orig.skip(j)[0] == orig[j]);
                assert(orig.take(j + 1).drop_last() =~= orig.take(j));
                assert(orig.take(j + 1).last() == orig[j]);
            }
            if self.wifi_profiles[i].ssid == profile.ssid && self.wifi_profiles[i].interface
                == profile.interface {
                self.wifi_profiles.remove(i);
                proof {
                    assert(self.wifi_profiles@ =~= remove_wifi_key(orig.take(j + 1), ssid, iface)
                        + orig.skip(j + 1));
                }
            } else {
                i += 1;
                proof {
                    assert(self.wifi_profiles@ =~= remove_wifi_key(orig.take(j + 1), ssid, iface)
                        + orig.skip(j + 1));
                }
            }
            proof {
                j = j + 1;
            }
        }
        proof {
            assert(orig.take(j) =~= orig);
            assert(orig.skip(j) =~= Seq::<WifiProfile>::empty());
            assert(self.wifi_profiles@ =~= remove_wifi_key(orig, ssid, iface));
        }
        self.wifi_profiles.push(profile);
    }

    /// Looks up the remembered profile for a network on one interface.
    pub fn get_wifi_profile(&self, ssid: &str, interface: &str) -> (r: Option<&WifiProfile>)
        ensures
            match r {
                Some(p) => find_wifi_key(self.wifi_profiles@, ssid@, interface@)
                    < self.wifi_profiles@.len() && *p == self.wifi_profiles@[find_wifi_key(
                    self.wifi_profiles@,
                    ssid@,
                    interface@,
                )],
                None => find_wifi_key(self.wifi_profiles@, ssid@, interface@)
                    == self.wifi_profiles@.len(),
            },
    {
        let ghost s = self.wifi_profiles@;
        proof {
            lemma_find_wifi_key_bound(s, ssid@, interface@);
        }
        let mut i: usize = 0;
        while i < self.wifi_profiles.len()
            invariant
                0 <= i <= s.len(),
                s == self.wifi_profiles@,
                find_wifi_key(s, ssid@, interface@) >= i,
            decreases s.len() - i,
        {
            if crate::text::str_eq_str(self.wifi_profiles[i].ssid.as_str(), ssid)
                && crate::text::str_eq_str(self.wifi_profiles[i].interface.as_str(), interface) {
                proof {
                    lemma_find_wifi_key_at(s, ssid@, interface@, i as int);
                }
                return Some(&self.wifi_profiles[i]);
            }
            proof {
                lemma_find_wifi_key_past(s, ssid@, interface@, i as int);
            }
            i += 1;
        }
        None
    }

    /// All profiles ordered for auto-connect: auto-connect profiles first,
    /// then by priority, higher first, then most recently connected first
    /// with never-connected profiles after any with a timestamp.  The sort
    /// is stable, so ties keep their stored order on every call.
    pub fn get_wifi_profiles_by_priority(&self) -> (r: Vec<&WifiProfile>)
        ensures
            profile_derefs(r@) == rank_sorted(self.wifi_profiles@),
    {
        let ghost orig = self.wifi_profiles@;
        let mut out: Vec<&WifiProfile> = Vec::new();
        proof {
            assert(orig.take(0) =~= Seq::<WifiProfile>::empty());
            assert(profile_derefs(out@) =~= rank_sorted(orig.take(0)));
        }
        let mut i: usize = 0;
        while i < self.wifi_profiles.len()
            invariant
                0 <= i <= orig.len(),
                orig == self.wifi_profiles@,
                profile_derefs(out@) == sort_stable(orig.take(i as int), rank_fn()),
            decreases orig.len() - i,
        {
            let p: &WifiProfile = &self.wifi_profiles[i];
            proof {
                assert(orig.take(i + 1).drop_last() =~= orig.take(i as int));
                assert(orig.take(i + 1).last() == orig[i as int]);
            }
            insert_profile_ranked(&mut out, p);
            i += 1;
        }
        proof {
            assert(orig.take(orig.len() as int) =~= orig);
        }
        out
    }

    /// Stamps the remembered profile of a just-established connection with
    /// the given time; without a matching profile nothing changes.
    pub fn update_wifi_connection(&mut self, ssid: &str, interface: &str, now: u64)
        ensures
            final(self).profiles == old(self).profiles,
            ({
                let s = old(self).wifi_profiles@;
                let f = find_wifi_key(s, ssid@, interface@);
                final(self).wifi_profiles@ == if f < s.len() {
                    s.update(f, stamped(s[f], now))
                } else {
                    s
                }
            }),
    {
        let ghost s = self.wifi_profiles@;
        proof {
            lemma_find_wifi_key_bound(s, ssid@, interface@);
        }
        let mut i: usize = 0;
        while i < self.wifi_profiles.len()
            invariant
                0 <= i <= s.len(),
                s == self.wifi_profiles@,
                s == old(self).wifi_profiles@,
                find_wifi_key(s, ssid@, interface@) >= i,
                self.profiles == old(self).profiles,
            decreases s.len() - i,
        {
            if crate::text::str_eq_str(self.wifi_profiles[i].ssid.as_str(), ssid)
                && crate::text::str_eq_str(self.wifi_profiles[i].interface.as_str(), interface) {
                proof {
                    lemma_find_wifi_key_at(s, ssid@, interface@, i as int);
                }
                let mut p = self.wifi_profiles.remove(i);
                proof {
                    assert(p == s[i as int]);
                    assert(self.wifi_profiles@ == s.remove(i as int));
                }
                p.last_connected = Some(now);
                proof {
                    assert(p == stamped(s[i as int], now));
                }
                self.wifi_profiles.insert(i, p);
                proof {
                    let t = s.update(i as int, stamped(s[i as int], now));
                    assert(self.wifi_profiles@ == s.remove(i as int).insert(i as int, p));
                    assert(self.wifi_profiles@ =~= t) by {
                        assert(self.wifi_profiles@.len() == t.len());
                        assert forall|w: int| 0 <= w < t.len() implies self.wifi_profiles@[w]
                            == t[w] by {
                            if w < i {
                                assert(s.remove(i as int).insert(i as int, p)[w] == s.remove(
                                    i as int,
                                )[w]);
                                assert(s.remove(i as int)[w] == s[w]);
                            } else if w > i {
                                assert(s.remove(i as int).insert(i as int, p)[w] == s.remove(
                                    i as int,
                                )[w - 1]);
                                assert(s.remove(i as int)[w - 1] == s[w]);
                            }
                        }
                    }
                }
                return ;
            }
            proof {
                lemma_find_wifi_key_past(s, ssid@, interface@, i as int);
            }
            i += 1;
        }
    }
}

/// Inserts a profile reference behind every stored profile that ranks at
/// least as high: one step of the stable ranking sort.
fn insert_profile_ranked<'a>(out: &mut Vec<&'a WifiProfile>, x: &'a WifiProfile)
    ensures
        profile_derefs(final(out)@) == insert_stable(
            profile_derefs(old(out)@),
            *x,
            rank_fn(),
        ),
{
    let mut k: usize = 0;
    while k < out.len() && rank_geq_exec(out[k], x)
        invariant
            0 <= k <= out.len(),
            out == old(out),
            forall|j: int| 0 <= j < k ==> rank_geq(#[trigger] profile_derefs(out@)[j], *x),
        decreases out.len() - k,
    {
        proof {
            assert(profile_derefs(out@)[k as int] == *out@[k as int]);
        }
        k += 1;
    }
    let ghost v = profile_derefs(out@);
    proof {
        assert forall|j: int| 0 <= j < k implies rank_fn()(v[j], *x) by {
            assert(rank_fn()(v[j], *x) == rank_geq(v[j], *x));
        }
        if (k as int) < v.len() {
            assert(profile_derefs(out@)[k as int] == *out@[k as int]);
            assert(!rank_fn()(v[k as int], *x)) by {
                assert(rank_fn()(v[k as int], *x) == rank_geq(v[k as int], *x));
            }
        }
        crate::scan::lemma_insert_stable_at(v, *x, rank_fn(), k as int);
    }
    out.insert(k, x);
    proof {
        assert(profile_derefs(out@) =~= v.take(k as int) + seq![*x] + v.skip(k as int));
    }
}

/// Exec counterpart of `rank_geq`.
fn rank_geq_exec(a: &WifiProfile, b: &WifiProfile) -> (r: bool)
    ensures
        r == rank_geq(*a, *b),
{
    if a.auto_connect != b.auto_connect {
        a.auto_connect
    } else if a.priority != b.priority {
        a.priority > b.priority
    } else {
        match (a.last_connected, b.last_connected) {
            (Some(x), Some(y)) => x >= y,
            (Some(_), None) => true,
            (None, Some(_)) => false,
            (None, None) => true,
        }
    }
}

/// `find_wifi_key` is at most `s.len()`.
proof fn lemma_find_wifi_key_bound(s: Seq<WifiProfile>, ssid: Seq<char>, iface: Seq<char>)
    ensures
        0 <= find_wifi_key(s, ssid, iface) <= s.len(),
    decreases s.len(),
{
    if s.len() > 0 && !wifi_key_eq(s[0], ssid, iface) {
        lemma_find_wifi_key_bound(s.skip(1), ssid, iface);
    }
}

/// A key match at `i` with no earlier match pins `find_wifi_key`.
proof fn lemma_find_wifi_key_at(s: Seq<WifiProfile>, ssid: Seq<char>, iface: Seq<char>, i: int)
    requires
        0 <= i < s.len(),
        wifi_key_eq(s[i], ssid, iface),
        find_wifi_key(s, ssid, iface) >= i,
    ensures
        find_wifi_key(s, ssid, iface) == i,
    decreases i,
{
    if i > 0 {
        assert(!wifi_key_eq(s[0], ssid, iface));
        assert(s.skip(1)[i - 1] == s[i]);
        lemma_find_wifi_key_at(s.skip(1), ssid, iface, i - 1);
    }
}

/// A failed match at `i` pushes `find_wifi_key` past it.
proof fn lemma_find_wifi_key_past(s: Seq<WifiProfile>, ssid: Seq<char>, iface: Seq<char>, i: int)
    requires
        0 <= i < s.len(),
        !wifi_key_eq(s[i], ssid, iface),
        find_wifi_key(s, ssid, iface) >= i,
    ensures
        find_wifi_key(s, ssid, iface) >= i + 1,
    decreases i,
{
    if i == 0 {
        assert(!wifi_key_eq(s[0], ssid, iface));
        lemma_find_wifi_key_bound(s.skip(1), ssid, iface);
    } else {
        assert(!wifi_key_eq(s[0], ssid, iface));
        assert(s.skip(1)[i - 1] == s[i]);
        lemma_find_wifi_key_past(s.skip(1), ssid, iface, i - 1);
    }
}

/// Every element kept by `remove_wifi_key` comes from `s` and does not
/// carry the removed key.
pub proof fn lemma_remove_wifi_key_props(s: Seq<WifiProfile>, ssid: Seq<char>, iface: Seq<char>)
    ensures
        ({
            let r = remove_wifi_key(s, ssid, iface);
            &&& forall|k: int| 0 <= k < r.len() ==> !wifi_key_eq(#[trigger] r[k], ssid, iface)
            &&& forall|k: int| 0 <= k < r.len() ==> s.contains(#[trigger] r[k])
        }),
    decreases s.len(),
{
    if s.len() > 0 {
        lemma_remove_wifi_key_props(s.drop_last(), ssid, iface);
        let r = remove_wifi_key(s, ssid, iface);
        let rd = remove_wifi_key(s.drop_last(), ssid, iface);
        assert forall|k: int| 0 <= k < r.len() implies s.contains(#[trigger] r[k]) by {
            if k < rd.len() {
                assert(s.drop_last().contains(rd[k]));
                let w = choose|w: int| 0 <= w < s.drop_last().len() && s.drop_last()[w] == rd[k];
                assert(s[w] == r[k]);
            } else {
                assert(r[k] == s.last());
                assert(s[s.len() - 1] == s.last());
            }
        }
    }
}

/// Law: inserting a profile with a key already present replaces it exactly
/// once — the store keeps at most one profile per (SSID, interface) pair,
/// the inserted profile is the only one with its key, and every other
/// profile is untouched.
pub proof fn lemma_store_key_unique(s: Seq<WifiProfile>, p: WifiProfile)
    requires
        wifi_keys_unique(s),
    ensures
        ({
            let r = remove_wifi_key(s, p.ssid@, p.interface@).push(p);
            &&& wifi_keys_unique(r)
            &&& forall|k: int| 0 <= k < r.len() ==> (wifi_key_eq(#[trigger] r[k], p.ssid@, p.interface@)
                <==> k == r.len() - 1)
        }),
{
    lemma_remove_wifi_key_props(s, p.ssid@, p.interface@);
    let rk = remove_wifi_key(s, p.ssid@, p.interface@);
    let r = rk.push(p);
    assert(wifi_key_eq(p, p.ssid@, p.interface@));
    assert forall|i: int, j: int| 0 <= i < j < r.len() implies !wifi_key_eq(
        #[trigger] r[i],
        (#[trigger] r[j]).ssid@,
        r[j].interface@,
    ) by {
        if j < r.len() - 1 {
            // both come from the store: distinct indices in `s`
            assert(s.contains(rk[i]));
            assert(s.contains(rk[j]));
            if wifi_key_eq(r[i], r[j].ssid@, r[j].interface@) {
                let wi = choose|w: int| 0 <= w < s.len() && s[w] == rk[i];
                let wj = choose|w: int| 0 <= w < s.len() && s[w] == rk[j];
                lemma_remove_wifi_key_distinct(s, p.ssid@, p.interface@, i, j);
            }
        } else {
            // `r[j]` is the inserted profile; the kept prefix avoids its key
            assert(!wifi_key_eq(rk[i], p.ssid@, p.interface@));
        }
    }
}

/// Two distinct kept positions never share a key when the store was
/// well-formed.
proof fn lemma_remove_wifi_key_distinct(
    s: Seq<WifiProfile>,
    ssid: Seq<char>,
    iface: Seq<char>,
    i: int,
    j: int,
)
    requires
        wifi_keys_unique(s),
        0 <= i < j < remove_wifi_key(s, ssid, iface).len(),
    ensures
        !wifi_key_eq(
            remove_wifi_key(s, ssid, iface)[i],
            remove_wifi_key(s, ssid, iface)[j].ssid@,
            remove_wifi_key(s, ssid, iface)[j].interface@,
        ),
    decreases s.len(),
{
    let r = remove_wifi_key(s, ssid, iface);
    let rd = remove_wifi_key(s.drop_last(), ssid, iface);
    assert(s.len() > 0);
    assert(wifi_keys_unique(s.drop_last())) by {
        assert forall|a: int, b: int| 0 <= a < b < s.drop_last().len() implies !wifi_key_eq(
            #[trigger] s.drop_last()[a],
            (#[trigger] s.drop_last()[b]).ssid@,
            s.drop_last()[b].interface@,
        ) by {
            assert(s.drop_last()[a] == s[a]);
            assert(s.drop_last()[b] == s[b]);
        }
    }
    if j < rd.len() {
        lemma_remove_wifi_key_distinct(s.drop_last(), ssid, iface, i, j);
    } else {
        // r[j] is s.last(); r[i] is kept from the front of the store
        assert(r[j] == s.last());
        lemma_remove_wifi_key_props(s.drop_last(), ssid, iface);
        assert(s.drop_last().contains(rd[i]));
        let w = choose|w: int| 0 <= w < s.drop_last().len() && s.drop_last()[w] == rd[i];
        assert(s[w] == r[i]);
        assert(!wifi_key_eq(s[w], s[s.len() - 1].ssid@, s[s.len() - 1].interface@));
    }
}

/// `find_profile_key` is at most `s.len()`.
proof fn lemma_find_profile_key_bound(s: Seq<Profile>, name: Seq<char>)
    ensures
        0 <= find_profile_key(s, name) <= s.len(),
    decreases s.len(),
{
    if s.len() > 0 && !profile_key_eq(s[0], name) {
        lemma_find_profile_key_bound(s.skip(1), name);
    }
}

/// A key match at `i` with no earlier match pins `find_profile_key`.
proof fn lemma_find_profile_key_at(s: Seq<Profile>, name: Seq<char>, i: int)
    requires
        0 <= i < s.len(),
        profile_key_eq(s[i], name),
        find_profile_key(s, name) >= i,
    ensures
        find_profile_key(s, name) == i,
    decreases i,
{
    if i > 0 {
        assert(!profile_key_eq(s[0], name));
        assert(s.skip(1)[i - 1] == s[i]);
        lemma_find_profile_key_at(s.skip(1), name, i - 1);
    }
}

/// A failed match at `i` pushes `find_profile_key` past it.
proof fn lemma_find_profile_key_past(s: Seq<Profile>, name: Seq<char>, i: int)
    requires
        0 <= i < s.len(),
        !profile_key_eq(s[i], name),
        find_profile_key(s, name) >= i,
    ensures
        find_profile_key(s, name) >= i + 1,
    decreases i,
{
    if i == 0 {
        assert(!profile_key_eq(s[0], name));
        lemma_find_profile_key_bound(s.skip(1), name);
    } else {
        assert(!profile_key_eq(s[0], name));
        assert(s.skip(1)[i - 1] == s[i]);
        lemma_find_profile_key_past(s.skip(1), name, i - 1);
    }
}

} // verus!
