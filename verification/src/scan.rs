//! Spec-level model of the scan output parsers: the single-pass accumulator
//! fold over the lines of a scan block, the cumulative security
//! classification, and the sort-then-deduplicate post-processing shared by
//! the parsers.

use vstd::prelude::*;
use vstd::multiset::Multiset;

use crate::network::{WifiNetworkV, WifiSecurity, spec_frequency_to_channel};
use crate::text::{
    is_prefix_of, spec_contains, spec_i32_or_zero, spec_lines, spec_split, spec_tokens, spec_trim,
    spec_u32_or_zero,
};

verus! {

// ---------------------------------------------------------------------------
// Stable insertion sort and first-occurrence deduplication, generically over
// a "greater or equal" relation.
// ---------------------------------------------------------------------------

/// `v` with `x` inserted after every leading element `e` with `geq(e, x)`:
/// one step of a stable insertion sort.
pub open spec fn insert_stable<T>(v: Seq<T>, x: T, geq: spec_fn(T, T) -> bool) -> Seq<T>
    decreases v.len(),
{
    if v.len() == 0 {
        seq![x]
    } else if geq(v[0], x) {
        seq![v[0]] + insert_stable(v.skip(1), x, geq)
    } else {
        seq![x] + v
    }
}

/// Stable insertion sort: elements are taken in order and each is inserted
/// after its equals, so equal elements keep their relative order.
pub open spec fn sort_stable<T>(v: Seq<T>, geq: spec_fn(T, T) -> bool) -> Seq<T>
    decreases v.len(),
{
    if v.len() == 0 {
        Seq::empty()
    } else {
        insert_stable(sort_stable(v.drop_last(), geq), v.last(), geq)
    }
}

/// `v` is sorted with respect to `geq`.
pub open spec fn sorted_by<T>(v: Seq<T>, geq: spec_fn(T, T) -> bool) -> bool {
    forall|i: int, j: int| 0 <= i < j < v.len() ==> geq(#[trigger] v[i], #[trigger] v[j])
}

/// `geq` is a total preorder.
pub open spec fn total_preorder<T>(geq: spec_fn(T, T) -> bool) -> bool {
    &&& forall|a: T, b: T| #[trigger] geq(a, b) || #[trigger] geq(b, a)
    &&& forall|a: T, b: T, c: T| #[trigger] geq(a, b) && #[trigger] geq(b, c) ==> geq(a, c)
}

/// `insert_stable` written with the insertion position made explicit.
pub proof fn lemma_insert_stable_at<T>(v: Seq<T>, x: T, geq: spec_fn(T, T) -> bool, k: int)
    requires
        0 <= k <= v.len(),
        forall|j: int| 0 <= j < k ==> geq(#[trigger] v[j], x),
        k < v.len() ==> !geq(v[k], x),
    ensures
        insert_stable(v, x, geq) == v.take(k) + seq![x] + v.skip(k),
    decreases k,
{
    if v.len() == 0 {
        assert(v.take(0) + seq![x] + v.skip(0) =~= seq![x]);
    } else if k == 0 {
        assert(v.take(0) + seq![x] + v.skip(0) =~= seq![x] + v);
    } else {
        assert(geq(v[0], x));
        lemma_insert_stable_at(v.skip(1), x, geq, k - 1);
        assert(v.skip(1).take(k - 1) =~= v.subrange(1, k));
        assert(v.skip(1).skip(k - 1) =~= v.skip(k));
        assert(seq![v[0]] + (v.subrange(1, k) + seq![x] + v.skip(k)) =~= v.take(k) + seq![x]
            + v.skip(k));
    }
}

pub proof fn lemma_insert_stable_sorted<T>(v: Seq<T>, x: T, geq: spec_fn(T, T) -> bool)
    requires
        total_preorder(geq),
        sorted_by(v, geq),
    ensures
        sorted_by(insert_stable(v, x, geq), geq),
        insert_stable(v, x, geq).to_multiset() == v.to_multiset().insert(x),
        insert_stable(v, x, geq).len() == v.len() + 1,
    decreases v.len(),
{
    broadcast use vstd::seq_lib::group_to_multiset_ensures;

    if v.len() == 0 {
        assert(seq![x] =~= Seq::<T>::empty().push(x));
        assert(Seq::<T>::empty().push(x).to_multiset() == Seq::<T>::empty().to_multiset().insert(
            x,
        ));
    } else if geq(v[0], x) {
        assert(sorted_by(v.skip(1), geq)) by {
            assert forall|i: int, j: int| 0 <= i < j < v.skip(1).len() implies geq(
                #[trigger] v.skip(1)[i],
                #[trigger] v.skip(1)[j],
            ) by {
                assert(v[i + 1] == v.skip(1)[i]);
                assert(v[j + 1] == v.skip(1)[j]);
            }
        }
        lemma_insert_stable_sorted(v.skip(1), x, geq);
        let r = seq![v[0]] + insert_stable(v.skip(1), x, geq);
        assert(sorted_by(r, geq)) by {
            assert forall|i: int, j: int| 0 <= i < j < r.len() implies geq(
                #[trigger] r[i],
                #[trigger] r[j],
            ) by {
                if i == 0 {
                    // v[0] dominates x and every element of v.skip(1)
                    let t = insert_stable(v.skip(1), x, geq);
                    assert(r[j] == t[j - 1]);
                    lemma_insert_stable_mem(v.skip(1), x, geq, j - 1);
                    if t[j - 1] == x {
                        assert(geq(v[0], x));
                    } else {
                        let w = choose|w: int| 0 <= w < v.skip(1).len() && v.skip(1)[w] == t[j - 1];
                        assert(v[w + 1] == v.skip(1)[w]);
                        assert(geq(v[0], v[w + 1]));
                    }
                } else {
                    assert(r[i] == insert_stable(v.skip(1), x, geq)[i - 1]);
                    assert(r[j] == insert_stable(v.skip(1), x, geq)[j - 1]);
                }
            }
        }
        assert(r.to_multiset() == v.to_multiset().insert(x)) by {
            vstd::seq_lib::lemma_multiset_commutative(seq![v[0]], insert_stable(v.skip(1), x, geq));
            vstd::seq_lib::lemma_multiset_commutative(seq![v[0]], v.skip(1));
            assert(seq![v[0]] + v.skip(1) =~= v);
            assert(insert_stable(v.skip(1), x, geq).to_multiset() == v.skip(
                1,
            ).to_multiset().insert(x));
            assert(seq![v[0]].to_multiset().add(v.skip(1).to_multiset().insert(x)) =~= seq![
                v[0],
            ].to_multiset().add(v.skip(1).to_multiset()).insert(x));
        }
    } else {
        let r = seq![x] + v;
        assert(sorted_by(r, geq)) by {
            assert(geq(x, v[0]));
            assert forall|i: int, j: int| 0 <= i < j < r.len() implies geq(
                #[trigger] r[i],
                #[trigger] r[j],
            ) by {
                if i == 0 {
                    if j > 1 {
                        assert(geq(v[0], v[j - 1]));
                    }
                } else {
                    assert(r[i] == v[i - 1] && r[j] == v[j - 1]);
                }
            }
        }
        assert(r.to_multiset() == v.to_multiset().insert(x)) by {
            vstd::seq_lib::lemma_multiset_commutative(seq![x], v);
            assert(seq![x] =~= Seq::<T>::empty().push(x));
            assert(seq![x].to_multiset() =~= Multiset::<T>::empty().insert(x));
            assert(Multiset::<T>::empty().insert(x).add(v.to_multiset()) =~= v.to_multiset().insert(
                x,
            ));
        }
    }
}

/// Every element of an `insert_stable` result is `x` or an element of `v`.
pub proof fn lemma_insert_stable_mem<T>(v: Seq<T>, x: T, geq: spec_fn(T, T) -> bool, i: int)
    requires
        0 <= i < insert_stable(v, x, geq).len(),
    ensures
        insert_stable(v, x, geq)[i] == x || exists|w: int|
            0 <= w < v.len() && v[w] == insert_stable(v, x, geq)[i],
    decreases v.len(),
{
    if v.len() == 0 {
    } else if geq(v[0], x) {
        if i == 0 {
            assert(v[0] == insert_stable(v, x, geq)[0]);
        } else {
            lemma_insert_stable_mem(v.skip(1), x, geq, i - 1);
            let t = insert_stable(v.skip(1), x, geq);
            if t[i - 1] != x {
                let w = choose|w: int| 0 <= w < v.skip(1).len() && v.skip(1)[w] == t[i - 1];
                assert(v[w + 1] == v.skip(1)[w]);
            }
        }
    } else {
        if i > 0 {
            assert(insert_stable(v, x, geq)[i] == v[i - 1]);
        }
    }
}

/// The sort is a permutation and sorts.
pub proof fn lemma_sort_stable<T>(v: Seq<T>, geq: spec_fn(T, T) -> bool)
    requires
        total_preorder(geq),
    ensures
        sorted_by(sort_stable(v, geq), geq),
        sort_stable(v, geq).to_multiset() == v.to_multiset(),
        sort_stable(v, geq).len() == v.len(),
    decreases v.len(),
{
    broadcast use vstd::seq_lib::group_to_multiset_ensures;

    if v.len() > 0 {
        lemma_sort_stable(v.drop_last(), geq);
        lemma_insert_stable_sorted(sort_stable(v.drop_last(), geq), v.last(), geq);
        assert(v.drop_last().push(v.last()) =~= v);
    }
}

/// Inserting into a sorted list leaves every tie class in order: the
/// newcomer lands behind all elements it ties with.
proof fn lemma_insert_stable_filter<T>(
    v: Seq<T>,
    x: T,
    geq: spec_fn(T, T) -> bool,
    pred: spec_fn(T) -> bool,
)
    requires
        total_preorder(geq),
        sorted_by(v, geq),
        forall|a: T, b: T| pred(a) && pred(b) ==> #[trigger] geq(a, b),
    ensures
        insert_stable(v, x, geq).filter(pred) == if pred(x) {
            v.filter(pred).push(x)
        } else {
            v.filter(pred)
        },
    decreases v.len(),
{
    broadcast use vstd::seq_lib::group_filter_ensures;

    reveal(Seq::filter);
    if v.len() == 0 {
        lemma_filter_cons(x, Seq::<T>::empty(), pred);
        assert(seq![x] + Seq::<T>::empty() =~= seq![x]);
        assert(Seq::<T>::empty().filter(pred) == Seq::<T>::empty());
        assert(v.filter(pred) == Seq::<T>::empty());
        if pred(x) {
            assert(seq![x] + Seq::<T>::empty() =~= Seq::<T>::empty().push(x));
        }
    } else if geq(v[0], x) {
        assert(sorted_by(v.skip(1), geq)) by {
            assert forall|i: int, j: int| 0 <= i < j < v.skip(1).len() implies geq(
                #[trigger] v.skip(1)[i],
                #[trigger] v.skip(1)[j],
            ) by {
                assert(v[i + 1] == v.skip(1)[i]);
                assert(v[j + 1] == v.skip(1)[j]);
            }
        }
        lemma_insert_stable_filter(v.skip(1), x, geq, pred);
        let r = seq![v[0]] + insert_stable(v.skip(1), x, geq);
        lemma_filter_cons(v[0], insert_stable(v.skip(1), x, geq), pred);
        lemma_filter_cons(v[0], v.skip(1), pred);
        assert(seq![v[0]] + v.skip(1) =~= v);
        if pred(x) {
            if pred(v[0]) {
                assert((seq![v[0]] + v.skip(1).filter(pred)).push(x) =~= seq![v[0]] + v.skip(
                    1,
                ).filter(pred).push(x));
            }
        }
    } else {
        // the newcomer goes in front: nothing it ties with stands before it
        let r = seq![x] + v;
        lemma_filter_cons(x, v, pred);
        if pred(x) {
            // no earlier element of the class exists, else it would be
            // `geq` the newcomer
            assert(v.filter(pred) =~= Seq::<T>::empty()) by {
                if v.filter(pred).len() > 0 {
                    let e = v.filter(pred)[0];
                    v.lemma_filter_pred(pred, 0);
                    lemma_filter_elem_of(v, pred, 0);
                    let w = choose|w: int| 0 <= w < v.len() && v[w] == e;
                    assert(pred(e));
                    assert(geq(e, x) && geq(x, e));
                    assert(geq(v[0], x)) by {
                        if w > 0 {
                            assert(geq(v[0], v[w]));
                        }
                    }
                    assert(false);
                }
            }
            assert(seq![x] + Seq::<T>::empty() =~= Seq::<T>::empty().push(x));
        }
    }
}

/// Helper: filtering a list with an element in front.
proof fn lemma_filter_cons<T>(h: T, t: Seq<T>, pred: spec_fn(T) -> bool)
    ensures
        (seq![h] + t).filter(pred) == if pred(h) {
            seq![h] + t.filter(pred)
        } else {
            t.filter(pred)
        },
{
    reveal(Seq::filter);
    Seq::filter_distributes_over_add(seq![h], t, pred);
    assert(seq![h].drop_last() =~= Seq::<T>::empty());
    assert(Seq::<T>::empty().filter(pred) == Seq::<T>::empty());
    assert(seq![h].last() == h);
    assert(seq![h].filter(pred) == if pred(h) {
        seq![h]
    } else {
        Seq::<T>::empty()
    }) by {
        if pred(h) {
            assert(Seq::<T>::empty().push(h) =~= seq![h]);
        }
    }
    if pred(h) {
        assert(seq![h] + t.filter(pred) =~= seq![h].filter(pred) + t.filter(pred));
    } else {
        assert(t.filter(pred) =~= seq![h].filter(pred) + t.filter(pred));
    }
}

/// Helper: every element of a filtered list comes from the list.
proof fn lemma_filter_elem_of<T>(v: Seq<T>, pred: spec_fn(T) -> bool, i: int)
    requires
        0 <= i < v.filter(pred).len(),
    ensures
        exists|w: int| 0 <= w < v.len() && v[w] == v.filter(pred)[i],
    decreases v.len(),
{
    reveal(Seq::filter);
    if v.len() > 0 {
        let fd = v.drop_last().filter(pred);
        if pred(v.last()) && i == v.filter(pred).len() - 1 {
            assert(v[v.len() - 1] == v.filter(pred)[i]);
        } else {
            lemma_filter_elem_of(v.drop_last(), pred, i);
            let w = choose|w: int| 0 <= w < v.drop_last().len() && v.drop_last()[w] == fd[i];
            assert(v[w] == v.filter(pred)[i]);
        }
    }
}

/// Stability law: the sort never reorders elements that tie under the
/// order — restricted to any class of mutually tying elements, the sorted
/// list reads exactly like the input.
pub proof fn lemma_sort_stable_ties<T>(v: Seq<T>, geq: spec_fn(T, T) -> bool, pred: spec_fn(T) -> bool)
    requires
        total_preorder(geq),
        forall|a: T, b: T| pred(a) && pred(b) ==> #[trigger] geq(a, b),
    ensures
        sort_stable(v, geq).filter(pred) == v.filter(pred),
    decreases v.len(),
{
    broadcast use vstd::seq_lib::group_filter_ensures;

    reveal(Seq::filter);
    if v.len() == 0 {
    } else {
        lemma_sort_stable_ties(v.drop_last(), geq, pred);
        lemma_sort_stable(v.drop_last(), geq);
        lemma_insert_stable_filter(sort_stable(v.drop_last(), geq), v.last(), geq, pred);
        v.drop_last().lemma_filter_push(v.last(), pred);
        assert(v.drop_last().push(v.last()) =~= v);
    }
}

/// First-occurrence deduplication: keeps each element whose key has not
/// been seen yet, in order.
pub open spec fn dedup_rec<T>(
    v: Seq<T>,
    key: spec_fn(T) -> Seq<char>,
    seen: Set<Seq<char>>,
) -> Seq<T>
    decreases v.len(),
{
    if v.len() == 0 {
        Seq::empty()
    } else if seen.contains(key(v[0])) {
        dedup_rec(v.skip(1), key, seen)
    } else {
        seq![v[0]] + dedup_rec(v.skip(1), key, seen.insert(key(v[0])))
    }
}

pub open spec fn dedup_by_key<T>(v: Seq<T>, key: spec_fn(T) -> Seq<char>) -> Seq<T> {
    dedup_rec(v, key, Set::empty())
}

// ---------------------------------------------------------------------------
// The line-by-line scan fold.
// ---------------------------------------------------------------------------

/// The classification at one precedence level:
/// Enterprise > WPA3 > WPA2 > WPA > WEP > Open.
pub open spec fn level_security(lv: int) -> WifiSecurity {
    if lv >= 5 {
        WifiSecurity::Enterprise
    } else if lv == 4 {
        WifiSecurity::WPA3
    } else if lv == 3 {
        WifiSecurity::WPA2
    } else if lv == 2 {
        WifiSecurity::WPA
    } else if lv == 1 {
        WifiSecurity::WEP
    } else {
        WifiSecurity::Open
    }
}

/// The strongest security marker present on one (trimmed) attribute line,
/// or 0 when the line carries no marker.
pub open spec fn line_sec_level(l: Seq<char>) -> int {
    if spec_contains(l, "IEEE 802.1X"@) || spec_contains(l, "EAP"@) || spec_contains(
        l,
        "Enterprise"@,
    ) {
        5
    } else if spec_contains(l, "WPA3"@) {
        4
    } else if spec_contains(l, "WPA2"@) {
        3
    } else if spec_contains(l, "WPA:"@) {
        2
    } else if spec_contains(l, "Privacy"@) {
        1
    } else {
        0
    }
}

/// The raw encryption tag recorded for a marker of level `lv`.
pub open spec fn level_tag(lv: int) -> Seq<char> {
    if lv >= 5 {
        "Enterprise"@
    } else if lv == 4 {
        "WPA3"@
    } else if lv == 3 {
        "WPA2"@
    } else if lv == 2 {
        "WPA"@
    } else {
        "WEP"@
    }
}

/// The accumulator of the single-pass scan: the record currently being
/// assembled.
pub ghost struct ScanAcc {
    pub bssid: Seq<char>,
    pub ssid: Seq<char>,
    pub signal: Option<int>,
    pub frequency: int,
    pub sec_level: int,
    pub encryption: Seq<Seq<char>>,
}

impl ScanAcc {
    /// The security classification this accumulator has reached.
    pub open spec fn security_of(self) -> WifiSecurity {
        level_security(self.sec_level)
    }
}

pub open spec fn empty_acc() -> ScanAcc {
    ScanAcc {
        bssid: Seq::empty(),
        ssid: Seq::empty(),
        signal: None,
        frequency: 0,
        sec_level: 0,
        encryption: Seq::empty(),
    }
}

/// An accumulator is complete when it has both a non-empty name and a
/// signal value; incomplete fragments are discarded, not reported.
pub open spec fn acc_complete(a: ScanAcc) -> bool {
    a.ssid.len() > 0 && a.signal is Some
}

pub open spec fn acc_record(a: ScanAcc) -> WifiNetworkV {
    WifiNetworkV {
        ssid: a.ssid,
        bssid: a.bssid,
        signal_strength: match a.signal {
            Some(v) => v,
            None => 0,
        },
        frequency: a.frequency,
        channel: spec_frequency_to_channel(a.frequency),
        security: level_security(a.sec_level),
        encryption: a.encryption,
        connected: false,
        in_history: false,
    }
}

pub open spec fn flush_acc(a: ScanAcc) -> Seq<WifiNetworkV> {
    if acc_complete(a) {
        seq![acc_record(a)]
    } else {
        Seq::empty()
    }
}

/// The BSSID carried by a section marker line: the second whitespace token,
/// with a trailing `'('` removed.
pub open spec fn marker_bssid(l: Seq<char>) -> Seq<char> {
    let toks = spec_tokens(l);
    let b = if toks.len() >= 2 {
        toks[1]
    } else {
        Seq::empty()
    };
    if b.len() > 0 && b.last() == '(' {
        b.drop_last()
    } else {
        b
    }
}

/// One step of the scan fold: how a single raw line changes the accumulator
/// and which records it flushes.
pub open spec fn scan_step(a: ScanAcc, raw: Seq<char>) -> (ScanAcc, Seq<WifiNetworkV>) {
    let l = spec_trim(raw);
    if is_prefix_of("BSS "@, l) {
        (
            ScanAcc {
                bssid: marker_bssid(l),
                ..empty_acc()
            },
            flush_acc(a),
        )
    } else if is_prefix_of("freq:"@, l) {
        (
            ScanAcc {
                frequency: spec_u32_or_zero(spec_trim(l.skip(5))) as int,
                ..a
            },
            Seq::empty(),
        )
    } else if is_prefix_of("signal:"@, l) {
        (
            ScanAcc {
                signal: Some(spec_i32_or_zero(spec_split(spec_trim(l.skip(7)), '.')[0]) as int),
                ..a
            },
            Seq::empty(),
        )
    } else if is_prefix_of("SSID:"@, l) {
        (
            ScanAcc {
                ssid: spec_trim(l.skip(5)),
                ..a
            },
            Seq::empty(),
        )
    } else {
        let lv = line_sec_level(l);
        if lv > 0 {
            (
                ScanAcc {
                    sec_level: if lv > a.sec_level {
                        lv
                    } else {
                        a.sec_level
                    },
                    encryption: a.encryption.push(level_tag(lv)),
                    ..a
                },
                Seq::empty(),
            )
        } else {
            (a, Seq::empty())
        }
    }
}

/// The fold of the scan over a sequence of raw lines, from a given
/// accumulator.
pub open spec fn scan_fold_from(a: ScanAcc, lines: Seq<Seq<char>>) -> (ScanAcc, Seq<WifiNetworkV>)
    decreases lines.len(),
{
    if lines.len() == 0 {
        (a, Seq::empty())
    } else {
        let prev = scan_fold_from(a, lines.drop_last());
        let step = scan_step(prev.0, lines.last());
        (step.0, prev.1 + step.1)
    }
}

/// The records parsed from a whole scan block, in the order the sections
/// appear: the fold over its lines plus the flush of the final accumulator.
pub open spec fn spec_scan_records(s: Seq<char>) -> Seq<WifiNetworkV> {
    let end = scan_fold_from(empty_acc(), spec_lines(s));
    end.1 + flush_acc(end.0)
}

pub open spec fn signal_geq(a: WifiNetworkV, b: WifiNetworkV) -> bool {
    a.signal_strength >= b.signal_strength
}

pub open spec fn ssid_key(n: WifiNetworkV) -> Seq<char> {
    n.ssid
}

/// The descending-signal order, as a single closure value shared by every
/// contract that speaks of it.
pub open spec fn net_geq() -> spec_fn(WifiNetworkV, WifiNetworkV) -> bool {
    |a: WifiNetworkV, b: WifiNetworkV| signal_geq(a, b)
}

/// The SSID deduplication key, as a single closure value.
pub open spec fn net_key() -> spec_fn(WifiNetworkV) -> Seq<char> {
    |n: WifiNetworkV| ssid_key(n)
}

/// Scan records sorted by signal strength descending, stably.
pub open spec fn sort_nets(v: Seq<WifiNetworkV>) -> Seq<WifiNetworkV> {
    sort_stable(v, net_geq())
}

/// The first record of each SSID, in order.
pub open spec fn dedup_nets(v: Seq<WifiNetworkV>) -> Seq<WifiNetworkV> {
    dedup_by_key(v, net_key())
}

/// The full parse pipeline of a scan block: parse, sort by signal strength
/// descending (stable), then keep the first record of each SSID, so that
/// the strongest access point wins when several share one network name.
pub open spec fn spec_scan_pipeline(s: Seq<char>) -> Seq<WifiNetworkV> {
    dedup_nets(sort_nets(spec_scan_records(s)))
}

/// What first-occurrence deduplication guarantees on a sorted list: the
/// output is a subsequence with pairwise distinct keys, still sorted, whose
/// kept element for each key dominates every input element of that key.
pub proof fn lemma_dedup_rec_props<T>(
    v: Seq<T>,
    key: spec_fn(T) -> Seq<char>,
    seen: Set<Seq<char>>,
    geq: spec_fn(T, T) -> bool,
)
    requires
        total_preorder(geq),
        sorted_by(v, geq),
    ensures
        ({
            let o = dedup_rec(v, key, seen);
            &&& forall|k: int| 0 <= k < o.len() ==> v.contains(#[trigger] o[k])
            &&& forall|k: int| 0 <= k < o.len() ==> !seen.contains(key(#[trigger] o[k]))
            &&& forall|k: int, w: int| 0 <= k < w < o.len() ==> key(#[trigger] o[k]) != key(
                #[trigger] o[w],
            )
            &&& sorted_by(o, geq)
            &&& forall|k: int|
                0 <= k < v.len() ==> seen.contains(key(#[trigger] v[k])) || exists|w: int|
                    0 <= w < o.len() && key(#[trigger] o[w]) == key(v[k]) && geq(o[w], v[k])
        }),
    decreases v.len(),
{
    let o = dedup_rec(v, key, seen);
    if v.len() == 0 {
    } else {
        let tail = v.skip(1);
        assert(sorted_by(tail, geq)) by {
            assert forall|i: int, j: int| 0 <= i < j < tail.len() implies geq(
                #[trigger] tail[i],
                #[trigger] tail[j],
            ) by {
                assert(tail[i] == v[i + 1] && tail[j] == v[j + 1]);
            }
        }
        if seen.contains(key(v[0])) {
            lemma_dedup_rec_props(tail, key, seen, geq);
            let ot = dedup_rec(tail, key, seen);
            assert forall|k: int| 0 <= k < o.len() implies v.contains(#[trigger] o[k]) by {
                assert(tail.contains(o[k]));
                let w = choose|w: int| 0 <= w < tail.len() && tail[w] == o[k];
                assert(v[w + 1] == o[k]);
            }
            assert forall|k: int| 0 <= k < v.len() implies seen.contains(key(#[trigger] v[k]))
                || exists|w: int|
                0 <= w < o.len() && key(#[trigger] o[w]) == key(v[k]) && geq(o[w], v[k]) by {
                if k > 0 {
                    assert(tail[k - 1] == v[k]);
                }
            }
        } else {
            let seen2 = seen.insert(key(v[0]));
            lemma_dedup_rec_props(tail, key, seen2, geq);
            let ot = dedup_rec(tail, key, seen2);
            assert(o == seq![v[0]] + ot);
            assert forall|k: int| 0 <= k < o.len() implies v.contains(#[trigger] o[k]) by {
                if k == 0 {
                    assert(o[0] == v[0]);
                } else {
                    assert(o[k] == ot[k - 1]);
                    assert(tail.contains(ot[k - 1]));
                    let w = choose|w: int| 0 <= w < tail.len() && tail[w] == ot[k - 1];
                    assert(v[w + 1] == o[k]);
                }
            }
            assert forall|k: int| 0 <= k < o.len() implies !seen.contains(
                key(#[trigger] o[k]),
            ) by {
                if k > 0 {
                    assert(o[k] == ot[k - 1]);
                    assert(!seen2.contains(key(ot[k - 1])));
                }
            }
            assert forall|k: int, w: int| 0 <= k < w < o.len() implies key(#[trigger] o[k]) != key(
                #[trigger] o[w],
            ) by {
                assert(o[w] == ot[w - 1]);
                assert(!seen2.contains(key(ot[w - 1])));
                if k > 0 {
                    assert(o[k] == ot[k - 1]);
                }
            }
            assert(sorted_by(o, geq)) by {
                assert forall|i: int, j: int| 0 <= i < j < o.len() implies geq(
                    #[trigger] o[i],
                    #[trigger] o[j],
                ) by {
                    if i == 0 {
                        assert(o[j] == ot[j - 1]);
                        assert(tail.contains(ot[j - 1]));
                        let w = choose|w: int| 0 <= w < tail.len() && tail[w] == ot[j - 1];
                        assert(v[w + 1] == ot[j - 1]);
                        assert(geq(v[0], v[w + 1]));
                    } else {
                        assert(o[i] == ot[i - 1] && o[j] == ot[j - 1]);
                    }
                }
            }
            assert forall|k: int| 0 <= k < v.len() implies seen.contains(key(#[trigger] v[k]))
                || exists|w: int|
                0 <= w < o.len() && key(#[trigger] o[w]) == key(v[k]) && geq(o[w], v[k]) by {
                if k == 0 {
                    assert(key(o[0]) == key(v[0]) && geq(o[0], v[0]));
                } else {
                    assert(tail[k - 1] == v[k]);
                    if key(v[k]) == key(v[0]) {
                        assert(key(o[0]) == key(v[k]) && geq(o[0], v[k]));
                    } else if !seen.contains(key(v[k])) {
                        assert(!seen2.contains(key(tail[k - 1])));
                        let w = choose|w: int|
                            0 <= w < ot.len() && key(#[trigger] ot[w]) == key(tail[k - 1]) && geq(
                                ot[w],
                                tail[k - 1],
                            );
                        assert(key(o[w + 1]) == key(v[k]) && geq(o[w + 1], v[k]));
                    }
                }
            }
        }
    }
}

// ---------------------------------------------------------------------------
// Section structure of a scan block.
// ---------------------------------------------------------------------------

/// A section marker line: after trimming it announces a new access point.
pub open spec fn is_marker(raw: Seq<char>) -> bool {
    is_prefix_of("BSS "@, spec_trim(raw))
}

/// A well-formed section: a marker line followed by attribute lines.
pub open spec fn section_ok(sec: Seq<Seq<char>>) -> bool {
    &&& sec.len() >= 1
    &&& is_marker(sec[0])
    &&& forall|k: int| 1 <= k < sec.len() ==> !is_marker(#[trigger] sec[k])
}

pub open spec fn concat_all(sections: Seq<Seq<Seq<char>>>) -> Seq<Seq<char>>
    decreases sections.len(),
{
    if sections.len() == 0 {
        Seq::empty()
    } else {
        concat_all(sections.drop_last()) + sections.last()
    }
}

/// The accumulator right after a section's marker line.
pub open spec fn section_start(sec: Seq<Seq<char>>) -> ScanAcc {
    scan_step(empty_acc(), sec[0]).0
}

/// The accumulator after all attribute lines of a section.
pub open spec fn section_final_acc(sec: Seq<Seq<char>>) -> ScanAcc {
    scan_fold_from(section_start(sec), sec.skip(1)).0
}

/// The records a section contributes: one if it is complete (non-empty
/// name and a signal value), none otherwise.
pub open spec fn section_records(sec: Seq<Seq<char>>) -> Seq<WifiNetworkV> {
    flush_acc(section_final_acc(sec))
}

pub open spec fn records_of_sections(sections: Seq<Seq<Seq<char>>>) -> Seq<WifiNetworkV>
    decreases sections.len(),
{
    if sections.len() == 0 {
        Seq::empty()
    } else {
        records_of_sections(sections.drop_last()) + section_records(sections.last())
    }
}

/// Folding over concatenated line blocks composes.
pub proof fn lemma_scan_fold_append(a: ScanAcc, x: Seq<Seq<char>>, y: Seq<Seq<char>>)
    ensures
        scan_fold_from(a, x + y) == (
            scan_fold_from(scan_fold_from(a, x).0, y).0,
            scan_fold_from(a, x).1 + scan_fold_from(scan_fold_from(a, x).0, y).1,
        ),
    decreases y.len(),
{
    if y.len() == 0 {
        assert(x + y =~= x);
        assert(scan_fold_from(a, x).1 + Seq::<WifiNetworkV>::empty() =~= scan_fold_from(a, x).1);
    } else {
        lemma_scan_fold_append(a, x, y.drop_last());
        assert((x + y).drop_last() =~= x + y.drop_last());
        assert((x + y).last() == y.last());
        let m = scan_fold_from(a, x);
        let pm = scan_fold_from(m.0, y.drop_last());
        let step = scan_step(pm.0, y.last());
        assert(m.1 + (pm.1 + step.1) =~= (m.1 + pm.1) + step.1);
    }
}

/// Attribute lines never emit records.
pub proof fn lemma_fold_attrs_silent(a: ScanAcc, lines: Seq<Seq<char>>)
    requires
        forall|k: int| 0 <= k < lines.len() ==> !is_marker(#[trigger] lines[k]),
    ensures
        scan_fold_from(a, lines).1 == Seq::<WifiNetworkV>::empty(),
    decreases lines.len(),
{
    if lines.len() > 0 {
        lemma_fold_attrs_silent(a, lines.drop_last());
        let prev = scan_fold_from(a, lines.drop_last());
        assert(!is_marker(lines.last()));
        assert(scan_step(prev.0, lines.last()).1 =~= Seq::<WifiNetworkV>::empty());
        assert(prev.1 + Seq::<WifiNetworkV>::empty() =~= prev.1);
    }
}

/// Law: on a well-formed scan block the parser produces exactly one record
/// per complete section — one with a non-empty name and a signal value —
/// and no record at all for an incomplete section.
pub proof fn lemma_one_record_per_section(sections: Seq<Seq<Seq<char>>>)
    requires
        forall|k: int| 0 <= k < sections.len() ==> section_ok(#[trigger] sections[k]),
    ensures
        ({
            let end = scan_fold_from(empty_acc(), concat_all(sections));
            end.1 + flush_acc(end.0) == records_of_sections(sections)
        }),
    decreases sections.len(),
{
    if sections.len() == 0 {
        assert(scan_fold_from(empty_acc(), concat_all(sections)).1 + flush_acc(empty_acc()) =~= Seq::<
            WifiNetworkV,
        >::empty());
    } else {
        let dl = sections.drop_last();
        let sec = sections.last();
        assert(section_ok(sec));
        lemma_one_record_per_section(dl);
        let m = scan_fold_from(empty_acc(), concat_all(dl));
        lemma_scan_fold_append(empty_acc(), concat_all(dl), sec);
        // the marker line flushes the previous section and resets
        assert(seq![sec[0]] + sec.skip(1) =~= sec);
        lemma_scan_fold_append(m.0, seq![sec[0]], sec.skip(1));
        let after_marker = scan_fold_from(m.0, seq![sec[0]]);
        assert(seq![sec[0]].drop_last() =~= Seq::<Seq<char>>::empty());
        assert(scan_fold_from(m.0, seq![sec[0]].drop_last()) == (m.0, Seq::<
            WifiNetworkV,
        >::empty()));
        assert(seq![sec[0]].last() == sec[0]);
        assert(after_marker.0 == scan_step(m.0, sec[0]).0);
        assert(scan_step(m.0, sec[0]).1 == flush_acc(m.0));
        assert(after_marker.1 =~= Seq::<WifiNetworkV>::empty() + flush_acc(m.0));
        assert(scan_step(m.0, sec[0]).0 == section_start(sec));
        assert forall|k: int| 0 <= k < sec.skip(1).len() implies !is_marker(
            #[trigger] sec.skip(1)[k],
        ) by {
            assert(sec.skip(1)[k] == sec[k + 1]);
        }
        lemma_fold_attrs_silent(section_start(sec), sec.skip(1));
        let end = scan_fold_from(empty_acc(), concat_all(sections));
        assert(end.0 == section_final_acc(sec));
        assert(end.1 =~= m.1 + flush_acc(m.0));
        assert(end.1 + flush_acc(end.0) =~= (m.1 + flush_acc(m.0)) + section_records(sec));
    }
}

// ---------------------------------------------------------------------------
// Cumulative security classification.
// ---------------------------------------------------------------------------

/// The security level a raw line contributes: its strongest marker, unless
/// the line is claimed by one of the attribute prefixes.
pub open spec fn eff_level(raw: Seq<char>) -> int {
    let l = spec_trim(raw);
    if is_prefix_of("BSS "@, l) || is_prefix_of("freq:"@, l) || is_prefix_of("signal:"@, l)
        || is_prefix_of("SSID:"@, l) {
        0
    } else {
        line_sec_level(l)
    }
}

/// The strongest marker over a block of lines.
pub open spec fn max_level(lines: Seq<Seq<char>>) -> int
    decreases lines.len(),
{
    if lines.len() == 0 {
        0
    } else {
        let rest = max_level(lines.drop_last());
        if eff_level(lines.last()) > rest {
            eff_level(lines.last())
        } else {
            rest
        }
    }
}

/// Over attribute lines the accumulated classification is exactly the
/// maximum of the starting level and every line's marker level: a stronger
/// marker upgrades it, a weaker one never downgrades it.
pub proof fn lemma_fold_sec_level(a: ScanAcc, lines: Seq<Seq<char>>)
    requires
        a.sec_level >= 0,
        forall|k: int| 0 <= k < lines.len() ==> !is_marker(#[trigger] lines[k]),
    ensures
        scan_fold_from(a, lines).0.sec_level == if a.sec_level > max_level(lines) {
            a.sec_level
        } else {
            max_level(lines)
        },
    decreases lines.len(),
{
    if lines.len() > 0 {
        lemma_fold_sec_level(a, lines.drop_last());
        assert(!is_marker(lines.last()));
        lemma_max_level_nonneg(lines.drop_last());
        let prev = scan_fold_from(a, lines.drop_last());
        assert(scan_fold_from(a, lines).0 == scan_step(prev.0, lines.last()).0);
    }
}

proof fn lemma_max_level_nonneg(lines: Seq<Seq<char>>)
    ensures
        max_level(lines) >= 0,
    decreases lines.len(),
{
    if lines.len() > 0 {
        lemma_max_level_nonneg(lines.drop_last());
    }
}

/// Security precedence law, first half: a section whose lines carry a WPA3
/// marker and no enterprise marker classifies as WPA3, whatever weaker
/// markers (WPA, WPA2, WEP) its other lines carry.
pub proof fn lemma_security_precedence_wpa3(sec: Seq<Seq<char>>)
    requires
        section_ok(sec),
        exists|k: int| 1 <= k < sec.len() && eff_level(#[trigger] sec[k]) == 4,
        forall|k: int| 1 <= k < sec.len() ==> eff_level(#[trigger] sec[k]) <= 4,
    ensures
        section_final_acc(sec).security_of() == WifiSecurity::WPA3,
{
    lemma_section_level(sec, 4);
}

/// Security precedence law, second half: a section with an enterprise
/// marker classifies as Enterprise, whatever other markers it carries.
pub proof fn lemma_security_precedence_enterprise(sec: Seq<Seq<char>>)
    requires
        section_ok(sec),
        exists|k: int| 1 <= k < sec.len() && eff_level(#[trigger] sec[k]) == 5,
    ensures
        section_final_acc(sec).security_of() == WifiSecurity::Enterprise,
{
    lemma_section_level(sec, 5);
}

/// A section whose strongest marker level is `lv` classifies as the
/// security of that level.
pub proof fn lemma_section_level(sec: Seq<Seq<char>>, lv: int)
    requires
        section_ok(sec),
        1 <= lv <= 5,
        exists|k: int| 1 <= k < sec.len() && eff_level(#[trigger] sec[k]) == lv,
        forall|k: int| 1 <= k < sec.len() ==> eff_level(#[trigger] sec[k]) <= lv,
    ensures
        section_final_acc(sec).security_of() == level_security(lv),
{
    assert forall|k: int| 0 <= k < sec.skip(1).len() implies !is_marker(
        #[trigger] sec.skip(1)[k],
    ) by {
        assert(sec.skip(1)[k] == sec[k + 1]);
    }
    lemma_fold_sec_level(section_start(sec), sec.skip(1));
    assert(section_start(sec).sec_level == 0);
    let k = choose|k: int| 1 <= k < sec.len() && eff_level(#[trigger] sec[k]) == lv;
    assert(eff_level(sec.skip(1)[k - 1]) == lv);
    assert forall|w: int| 0 <= w < sec.skip(1).len() implies eff_level(
        #[trigger] sec.skip(1)[w],
    ) <= lv by {
        assert(sec.skip(1)[w] == sec[w + 1]);
    }
    lemma_max_level_is(sec.skip(1), lv);
}

/// `max_level` from a witness and a bound.
proof fn lemma_max_level_is(lines: Seq<Seq<char>>, lv: int)
    requires
        exists|k: int| 0 <= k < lines.len() && eff_level(#[trigger] lines[k]) == lv,
        forall|k: int| 0 <= k < lines.len() ==> eff_level(#[trigger] lines[k]) <= lv,
    ensures
        max_level(lines) == lv,
    decreases lines.len(),
{
    let k = choose|k: int| 0 <= k < lines.len() && eff_level(#[trigger] lines[k]) == lv;
    lemma_max_level_bound(lines);
    if k == lines.len() - 1 {
        lemma_max_level_bound(lines.drop_last());
        assert forall|w: int| 0 <= w < lines.drop_last().len() implies eff_level(
            #[trigger] lines.drop_last()[w],
        ) <= lv by {
            assert(lines.drop_last()[w] == lines[w]);
        }
    } else {
        assert(lines.drop_last()[k] == lines[k]);
        lemma_max_level_is(lines.drop_last(), lv);
    }
}

/// `max_level` never exceeds the largest line level.
proof fn lemma_max_level_bound(lines: Seq<Seq<char>>)
    ensures
        max_level(lines) == 0 || exists|k: int|
            0 <= k < lines.len() && eff_level(#[trigger] lines[k]) == max_level(lines),
    decreases lines.len(),
{
    if lines.len() > 0 {
        lemma_max_level_bound(lines.drop_last());
        if eff_level(lines.last()) > max_level(lines.drop_last()) {
            assert(eff_level(lines[lines.len() - 1]) == max_level(lines));
        } else {
            if max_level(lines) != 0 {
                let k = choose|k: int|
                    0 <= k < lines.drop_last().len() && eff_level(#[trigger] lines.drop_last()[k])
                        == max_level(lines.drop_last());
                assert(eff_level(lines[k]) == max_level(lines));
            }
        }
    }
}

/// Deduplication law for the scan pipeline: after sorting by descending
/// signal strength and keeping the first record per SSID, the output is
/// sorted, carries each SSID at most once, consists of scanned records
/// only, and for every scanned record holds one with the same SSID and at
/// least its signal strength.
pub proof fn lemma_scan_dedup_strongest(recs: Seq<WifiNetworkV>)
    ensures
        ({
            let o = dedup_nets(sort_nets(recs));
            &&& forall|i: int, j: int| 0 <= i < j < o.len() ==> (#[trigger] o[i]).signal_strength
                >= (#[trigger] o[j]).signal_strength
            &&& forall|i: int, j: int| 0 <= i < j < o.len() ==> (#[trigger] o[i]).ssid != (
            #[trigger] o[j]).ssid
            &&& forall|k: int| 0 <= k < o.len() ==> recs.contains(#[trigger] o[k])
            &&& forall|k: int| 0 <= k < recs.len() ==> exists|w: int|
                0 <= w < o.len() && (#[trigger] o[w]).ssid == (#[trigger] recs[k]).ssid
                    && o[w].signal_strength >= recs[k].signal_strength
        }),
{
    broadcast use vstd::seq_lib::group_to_multiset_ensures;

    let geq = net_geq();
    let key = net_key();
    assert(total_preorder(geq)) by {
        assert forall|a: WifiNetworkV, b: WifiNetworkV| #[trigger]
            geq(a, b) || #[trigger] geq(b, a) by {
            assert(geq(a, b) == signal_geq(a, b));
            assert(geq(b, a) == signal_geq(b, a));
        }
        assert forall|a: WifiNetworkV, b: WifiNetworkV, c: WifiNetworkV|
            #[trigger] geq(a, b) && #[trigger] geq(b, c) implies geq(a, c) by {
            assert(geq(a, c) == signal_geq(a, c));
        }
    }
    lemma_sort_stable(recs, geq);
    let s = sort_stable(recs, geq);
    lemma_dedup_rec_props(s, key, Set::empty(), geq);
    let o = dedup_rec(s, key, Set::empty());
    assert forall|i: int, j: int| 0 <= i < j < o.len() implies (#[trigger] o[i]).signal_strength
        >= (#[trigger] o[j]).signal_strength by {
        assert(geq(o[i], o[j]) == signal_geq(o[i], o[j]));
    }
    assert forall|i: int, j: int| 0 <= i < j < o.len() implies (#[trigger] o[i]).ssid != (
    #[trigger] o[j]).ssid by {
        assert(key(o[i]) == ssid_key(o[i]));
        assert(key(o[j]) == ssid_key(o[j]));
    }
    assert forall|k: int| 0 <= k < o.len() implies recs.contains(#[trigger] o[k]) by {
        assert(s.contains(o[k]));
        assert(s.to_multiset().count(o[k]) > 0);
        assert(recs.to_multiset().count(o[k]) > 0);
    }
    assert forall|k: int| 0 <= k < recs.len() implies exists|w: int|
        0 <= w < o.len() && (#[trigger] o[w]).ssid == (#[trigger] recs[k]).ssid
            && o[w].signal_strength >= recs[k].signal_strength by {
        assert(recs.contains(recs[k]));
        assert(recs.to_multiset().count(recs[k]) > 0);
        assert(s.to_multiset().count(recs[k]) > 0);
        assert(s.contains(recs[k]));
        let m = choose|m: int| 0 <= m < s.len() && s[m] == recs[k];
        assert(!Set::<Seq<char>>::empty().contains(key(s[m])));
        let w = choose|w: int|
            0 <= w < o.len() && key(#[trigger] o[w]) == key(s[m]) && geq(o[w], s[m]);
        assert(key(o[w]) == ssid_key(o[w]) && key(s[m]) == ssid_key(s[m]));
        assert(geq(o[w], s[m]) == signal_geq(o[w], s[m]));
        assert(o[w].ssid == recs[k].ssid && o[w].signal_strength >= recs[k].signal_strength);
    }
}

} // verus!
