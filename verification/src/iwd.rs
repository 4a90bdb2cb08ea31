//! The modern wireless backend's data model and parsers: networks from a
//! triggered scan, the device list, and the connection's RSSI reading.
//! Running the backend's commands happens outside the library; their
//! captured output is parsed here.

use vstd::prelude::*;

use crate::errors::NetworkError;
use crate::scan::{dedup_by_key, insert_stable, sort_stable};
use crate::text;
use crate::text::{
    is_prefix_of, seq_views, spec_contains, spec_lines, spec_parse_i16, spec_split, spec_tokens,
    spec_trim,
};

verus! {

/// A network as the modern backend reports it.
#[derive(Clone, Debug)]
pub struct IwdNetwork {
    pub name: String,
    pub signal_strength: i16,
    pub security_type: String,
    pub path: String,
    pub connected: bool,
}

pub ghost struct IwdNetworkV {
    pub name: Seq<char>,
    pub signal_strength: int,
    pub security_type: Seq<char>,
    pub path: Seq<char>,
    pub connected: bool,
}

impl View for IwdNetwork {
    type V = IwdNetworkV;

    open spec fn view(&self) -> IwdNetworkV {
        IwdNetworkV {
            name: self.name@,
            signal_strength: self.signal_strength as int,
            security_type: self.security_type@,
            path: self.path@,
            connected: self.connected,
        }
    }
}

/// A wireless device as the modern backend lists it.
#[derive(Clone, Debug)]
pub struct IwdDevice {
    pub name: String,
    pub powered: bool,
    pub adapter: String,
    pub mode: String,
    pub scanning: bool,
    pub path: String,
}

pub ghost struct IwdDeviceV {
    pub name: Seq<char>,
    pub powered: bool,
    pub adapter: Seq<char>,
    pub mode: Seq<char>,
    pub scanning: bool,
    pub path: Seq<char>,
}

impl View for IwdDevice {
    type V = IwdDeviceV;

    open spec fn view(&self) -> IwdDeviceV {
        IwdDeviceV {
            name: self.name@,
            powered: self.powered,
            adapter: self.adapter@,
            mode: self.mode@,
            scanning: self.scanning,
            path: self.path@,
        }
    }
}

// ---------------------------------------------------------------------------
// The scan fold.
// ---------------------------------------------------------------------------

/// The accumulator of the modern scan parser.
pub ghost struct IwdAcc {
    pub ssid: Option<Seq<char>>,
    pub signal: Option<int>,
    pub security: Seq<char>,
}

pub open spec fn iwd_empty_acc() -> IwdAcc {
    IwdAcc { ssid: None, signal: None, security: "open"@ }
}

/// Complete means a non-empty name and a signal value.
pub open spec fn iwd_acc_complete(a: IwdAcc) -> bool {
    &&& a.ssid is Some
    &&& a.ssid->Some_0.len() > 0
    &&& a.signal is Some
}

pub open spec fn iwd_acc_record(a: IwdAcc) -> IwdNetworkV {
    IwdNetworkV {
        name: a.ssid->Some_0,
        signal_strength: a.signal->Some_0,
        security_type: a.security,
        path: "/net/connman/iwd/network/"@ + a.ssid->Some_0,
        connected: false,
    }
}

pub open spec fn iwd_flush_acc(a: IwdAcc) -> Seq<IwdNetworkV> {
    if iwd_acc_complete(a) {
        seq![iwd_acc_record(a)]
    } else {
        Seq::empty()
    }
}

/// A signal token such as `-45.00`: the integer part before the first dot.
pub open spec fn spec_signal_of_token(t: Seq<char>) -> Option<i16> {
    spec_parse_i16(spec_split(t, '.')[0])
}

/// One line of scan output applied to the accumulator.  The checks mirror
/// the tool's output shape: a section marker flushes and resets, then the
/// signal, SSID and security checks apply to the (possibly fresh) record.
pub open spec fn iwd_step(a: IwdAcc, raw: Seq<char>) -> (IwdAcc, Seq<IwdNetworkV>) {
    let l = spec_trim(raw);
    let marker = is_prefix_of("BSS "@, l);
    let emitted = if marker {
        iwd_flush_acc(a)
    } else {
        Seq::empty()
    };
    let a1 = if marker {
        iwd_empty_acc()
    } else {
        a
    };
    let a2 = if is_prefix_of("signal: "@, l) && spec_contains(l, "dBm"@) {
        let toks = spec_tokens(l);
        if toks.len() >= 2 {
            match spec_signal_of_token(toks[1]) {
                Some(v) => IwdAcc { signal: Some(v as int), ..a1 },
                None => a1,
            }
        } else {
            a1
        }
    } else {
        a1
    };
    let a3 = if is_prefix_of("SSID: "@, l) {
        let t = spec_trim(l.skip(6));
        if t.len() > 0 {
            IwdAcc { ssid: Some(t), ..a2 }
        } else {
            a2
        }
    } else {
        a2
    };
    let a4 = if spec_contains(l, "RSN:"@) || spec_contains(l, "WPA:"@) {
        IwdAcc { security: "psk"@, ..a3 }
    } else {
        a3
    };
    let a5 = if spec_contains(l, "Privacy"@) && a4.security == "open"@ {
        IwdAcc { security: "wep"@, ..a4 }
    } else {
        a4
    };
    (a5, emitted)
}

pub open spec fn iwd_fold_from(a: IwdAcc, lines: Seq<Seq<char>>) -> (IwdAcc, Seq<IwdNetworkV>)
    decreases lines.len(),
{
    if lines.len() == 0 {
        (a, Seq::empty())
    } else {
        let prev = iwd_fold_from(a, lines.drop_last());
        let step = iwd_step(prev.0, lines.last());
        (step.0, prev.1 + step.1)
    }
}

/// The records of a whole scan, in order of appearance.
pub open spec fn spec_iwd_records(s: Seq<char>) -> Seq<IwdNetworkV> {
    let end = iwd_fold_from(iwd_empty_acc(), spec_lines(s));
    end.1 + iwd_flush_acc(end.0)
}

/// The accumulator right after a section's marker line; the marker resets
/// the record, so the incoming accumulator does not matter.
pub open spec fn iwd_section_start(sec: Seq<Seq<char>>) -> IwdAcc {
    iwd_step(iwd_empty_acc(), sec[0]).0
}

pub open spec fn iwd_section_final(sec: Seq<Seq<char>>) -> IwdAcc {
    iwd_fold_from(iwd_section_start(sec), sec.skip(1)).0
}

/// The records a section contributes: one if it carries both a non-empty
/// name and a signal value, none otherwise.
pub open spec fn iwd_section_records(sec: Seq<Seq<char>>) -> Seq<IwdNetworkV> {
    iwd_flush_acc(iwd_section_final(sec))
}

pub open spec fn iwd_records_of_sections(sections: Seq<Seq<Seq<char>>>) -> Seq<IwdNetworkV>
    decreases sections.len(),
{
    if sections.len() == 0 {
        Seq::empty()
    } else {
        iwd_records_of_sections(sections.drop_last()) + iwd_section_records(sections.last())
    }
}

proof fn lemma_iwd_fold_append(a: IwdAcc, x: Seq<Seq<char>>, y: Seq<Seq<char>>)
    ensures
        iwd_fold_from(a, x + y) == (
            iwd_fold_from(iwd_fold_from(a, x).0, y).0,
            iwd_fold_from(a, x).1 + iwd_fold_from(iwd_fold_from(a, x).0, y).1,
        ),
    decreases y.len(),
{
    if y.len() == 0 {
        assert(x + y =~= x);
        assert(iwd_fold_from(a, x).1 + Seq::<IwdNetworkV>::empty() =~= iwd_fold_from(a, x).1);
    } else {
        lemma_iwd_fold_append(a, x, y.drop_last());
        assert((x + y).drop_last() =~= x + y.drop_last());
        assert((x + y).last() == y.last());
        let m = iwd_fold_from(a, x);
        let pm = iwd_fold_from(m.0, y.drop_last());
        let step = iwd_step(pm.0, y.last());
        assert(m.1 + (pm.1 + step.1) =~= (m.1 + pm.1) + step.1);
    }
}

/// Attribute lines never emit records.
proof fn lemma_iwd_attrs_silent(a: IwdAcc, lines: Seq<Seq<char>>)
    requires
        forall|k: int| 0 <= k < lines.len() ==> !crate::scan::is_marker(#[trigger] lines[k]),
    ensures
        iwd_fold_from(a, lines).1 == Seq::<IwdNetworkV>::empty(),
    decreases lines.len(),
{
    if lines.len() > 0 {
        lemma_iwd_attrs_silent(a, lines.drop_last());
        let prev = iwd_fold_from(a, lines.drop_last());
        assert(!crate::scan::is_marker(lines.last()));
        assert(iwd_step(prev.0, lines.last()).1 =~= Seq::<IwdNetworkV>::empty());
        assert(prev.1 + Seq::<IwdNetworkV>::empty() =~= prev.1);
    }
}

/// Law: on a well-formed scan block the modern parser too produces
/// exactly one record per complete section — non-empty name and a signal
/// value — and none for an incomplete one.
pub proof fn lemma_iwd_one_record_per_section(sections: Seq<Seq<Seq<char>>>)
    requires
        forall|k: int| 0 <= k < sections.len() ==> crate::scan::section_ok(#[trigger] sections[k]),
    ensures
        ({
            let end = iwd_fold_from(iwd_empty_acc(), crate::scan::concat_all(sections));
            end.1 + iwd_flush_acc(end.0) == iwd_records_of_sections(sections)
        }),
    decreases sections.len(),
{
    if sections.len() == 0 {
        assert(iwd_fold_from(iwd_empty_acc(), crate::scan::concat_all(sections)).1 + iwd_flush_acc(
            iwd_empty_acc(),
        ) =~= Seq::<IwdNetworkV>::empty());
    } else {
        let dl = sections.drop_last();
        let sec = sections.last();
        assert(crate::scan::section_ok(sec));
        lemma_iwd_one_record_per_section(dl);
        let m = iwd_fold_from(iwd_empty_acc(), crate::scan::concat_all(dl));
        lemma_iwd_fold_append(iwd_empty_acc(), crate::scan::concat_all(dl), sec);
        assert(seq![sec[0]] + sec.skip(1) =~= sec);
        lemma_iwd_fold_append(m.0, seq![sec[0]], sec.skip(1));
        let after_marker = iwd_fold_from(m.0, seq![sec[0]]);
        assert(seq![sec[0]].drop_last() =~= Seq::<Seq<char>>::empty());
        assert(iwd_fold_from(m.0, seq![sec[0]].drop_last()) == (m.0, Seq::<
            IwdNetworkV,
        >::empty()));
        assert(seq![sec[0]].last() == sec[0]);
        assert(after_marker.0 == iwd_step(m.0, sec[0]).0);
        assert(iwd_step(m.0, sec[0]).1 == iwd_flush_acc(m.0));
        assert(after_marker.1 =~= Seq::<IwdNetworkV>::empty() + iwd_flush_acc(m.0));
        assert(iwd_step(m.0, sec[0]).0 == iwd_section_start(sec));
        assert forall|k: int| 0 <= k < sec.skip(1).len() implies !crate::scan::is_marker(
            #[trigger] sec.skip(1)[k],
        ) by {
            assert(sec.skip(1)[k] == sec[k + 1]);
        }
        lemma_iwd_attrs_silent(iwd_section_start(sec), sec.skip(1));
        let end = iwd_fold_from(iwd_empty_acc(), crate::scan::concat_all(sections));
        assert(end.0 == iwd_section_final(sec));
        assert(end.1 =~= m.1 + iwd_flush_acc(m.0));
        assert(end.1 + iwd_flush_acc(end.0) =~= (m.1 + iwd_flush_acc(m.0)) + iwd_section_records(
            sec,
        ));
    }
}

pub open spec fn iwd_geq() -> spec_fn(IwdNetworkV, IwdNetworkV) -> bool {
    |a: IwdNetworkV, b: IwdNetworkV| a.signal_strength >= b.signal_strength
}

pub open spec fn iwd_key() -> spec_fn(IwdNetworkV) -> Seq<char> {
    |n: IwdNetworkV| n.name
}

/// The parse pipeline: records sorted by signal strength descending,
/// stably, then the first record per name kept.
pub open spec fn spec_iwd_pipeline(s: Seq<char>) -> Seq<IwdNetworkV> {
    dedup_by_key(sort_stable(spec_iwd_records(s), iwd_geq()), iwd_key())
}

// ---------------------------------------------------------------------------
// Exec parser.
// ---------------------------------------------------------------------------

/// Inserts behind every stored network with at least this signal strength.
fn insert_iwd_desc(out: &mut Vec<IwdNetwork>, x: IwdNetwork)
    ensures
        crate::views(final(out)@) == insert_stable(crate::views(old(out)@), x@, iwd_geq()),
{
    let mut k: usize = 0;
    while k < out.len() && out[k].signal_strength >= x.signal_strength
        invariant
            0 <= k <= out.len(),
            out == old(out),
            forall|j: int| 0 <= j < k ==> crate::views(out@)[j].signal_strength
                >= x@.signal_strength,
        decreases out.len() - k,
    {
        proof {
            assert(crate::views(out@)[k as int] == out@[k as int]@);
        }
        k += 1;
    }
    let ghost v = crate::views(out@);
    proof {
        assert forall|j: int| 0 <= j < k implies iwd_geq()(v[j], x@) by {
            assert(iwd_geq()(v[j], x@) == (v[j].signal_strength >= x@.signal_strength));
        }
        if (k as int) < v.len() {
            assert(crate::views(out@)[k as int] == out@[k as int]@);
            assert(!iwd_geq()(v[k as int], x@)) by {
                assert(iwd_geq()(v[k as int], x@) == (v[k as int].signal_strength
                    >= x@.signal_strength));
            }
        }
        crate::scan::lemma_insert_stable_at(v, x@, iwd_geq(), k as int);
    }
    out.insert(k, x);
    proof {
        assert(crate::views(out@) =~= v.take(k as int) + seq![x@] + v.skip(k as int));
    }
}

fn sort_iwd_desc(v: Vec<IwdNetwork>) -> (r: Vec<IwdNetwork>)
    ensures
        crate::views(r@) == sort_stable(crate::views(v@), iwd_geq()),
{
    let ghost orig = crate::views(v@);
    let mut v = v;
    let mut out: Vec<IwdNetwork> = Vec::new();
    let n = v.len();
    proof {
        assert(orig.len() == n);
        assert(crate::views(v@) =~= orig.skip(0));
        assert(crate::views(out@) =~= sort_stable(orig.take(0), iwd_geq()));
    }
    let mut i: usize = 0;
    while v.len() > 0
        invariant
            0 <= i <= n,
            crate::views(v@) =~= orig.skip(i as int),
            n == orig.len(),
            crate::views(out@) == sort_stable(orig.take(i as int), iwd_geq()),
        decreases v.len(),
    {
        let ghost vb = v@;
        let x = v.remove(0);
        proof {
            assert(crate::views(vb).len() == vb.len());
            assert(i < n);
            assert(crate::views(vb)[0] == vb[0]@);
            assert(x@ == orig[i as int]);
            assert(crate::views(v@) =~= orig.skip(i + 1)) by {
                assert forall|w: int| 0 <= w < v@.len() implies crate::views(v@)[w] == orig.skip(
                    i + 1,
                )[w] by {
                    assert(v@[w] == vb[w + 1]);
                    assert(crate::views(vb)[w + 1] == vb[w + 1]@);
                }
            }
            assert(orig.take(i + 1).drop_last() =~= orig.take(i as int));
            assert(orig.take(i + 1).last() == orig[i as int]);
        }
        insert_iwd_desc(&mut out, x);
        i += 1;
    }
    proof {
        assert(orig.take(n as int) =~= orig);
    }
    out
}

/// The set of names already represented in `v`.
pub open spec fn iwd_names_of(v: Seq<IwdNetworkV>) -> Set<Seq<char>> {
    Set::new(|s: Seq<char>| exists|j: int| 0 <= j < v.len() && (#[trigger] v[j]).name == s)
}

fn contains_iwd_name(v: &Vec<IwdNetwork>, name: &String) -> (r: bool)
    ensures
        r == iwd_names_of(crate::views(v@)).contains(name@),
{
    let mut j: usize = 0;
    while j < v.len()
        invariant
            0 <= j <= v.len(),
            forall|w: int| 0 <= w < j ==> (#[trigger] crate::views(v@)[w]).name != name@,
        decreases v.len() - j,
    {
        if v[j].name == *name {
            proof {
                assert(crate::views(v@)[j as int].name == name@);
            }
            return true;
        }
        proof {
            assert(crate::views(v@)[j as int] == v@[j as int]@);
        }
        j += 1;
    }
    false
}

fn dedup_iwd_by_name(v: Vec<IwdNetwork>) -> (r: Vec<IwdNetwork>)
    ensures
        crate::views(r@) == dedup_by_key(crate::views(v@), iwd_key()),
{
    let ghost orig = crate::views(v@);
    let mut v = v;
    let mut out: Vec<IwdNetwork> = Vec::new();
    let n = v.len();
    proof {
        assert(orig.len() == n);
        assert(crate::views(v@) =~= orig.skip(0));
        assert(iwd_names_of(crate::views(out@)) =~= Set::<Seq<char>>::empty());
    }
    let mut i: usize = 0;
    while v.len() > 0
        invariant
            0 <= i <= n,
            n == orig.len(),
            crate::views(v@) =~= orig.skip(i as int),
            dedup_by_key(orig, iwd_key()) == crate::views(out@) + crate::scan::dedup_rec(
                orig.skip(i as int),
                iwd_key(),
                iwd_names_of(crate::views(out@)),
            ),
        decreases v.len(),
    {
        let ghost vb = v@;
        let x = v.remove(0);
        proof {
            assert(crate::views(vb).len() == vb.len());
            assert(i < n);
            assert(crate::views(vb)[0] == vb[0]@);
            assert(x@ == orig[i as int]);
            assert(crate::views(v@) =~= orig.skip(i + 1)) by {
                assert forall|w: int| 0 <= w < v@.len() implies crate::views(v@)[w] == orig.skip(
                    i + 1,
                )[w] by {
                    assert(v@[w] == vb[w + 1]);
                    assert(crate::views(vb)[w + 1] == vb[w + 1]@);
                }
            }
            assert(orig.skip(i as int)[0] == orig[i as int]);
            assert(orig.skip(i as int).skip(1) =~= orig.skip(i + 1));
            assert(iwd_key()(orig[i as int]) == orig[i as int].name);
        }
        let ghost seen = iwd_names_of(crate::views(out@));
        if contains_iwd_name(&out, &x.name) {
            proof {
                assert(crate::scan::dedup_rec(orig.skip(i as int), iwd_key(), seen)
                    == crate::scan::dedup_rec(orig.skip(i + 1), iwd_key(), seen));
            }
        } else {
            let ghost out_before = crate::views(out@);
            out.push(x);
            proof {
                let nv = crate::views(out@);
                assert(nv =~= out_before + seq![x@]);
                assert(iwd_names_of(nv) =~= seen.insert(x@.name)) by {
                    assert forall|s: Seq<char>| iwd_names_of(nv).contains(s) implies seen.insert(
                        x@.name,
                    ).contains(s) by {
                        let j = choose|j: int| 0 <= j < nv.len() && (#[trigger] nv[j]).name == s;
                        if j < nv.len() - 1 {
                            assert(out_before[j].name == s);
                        }
                    }
                    assert forall|s: Seq<char>|
                        seen.insert(x@.name).contains(s) implies iwd_names_of(nv).contains(s) by {
                        if s == x@.name {
                            assert(nv[nv.len() - 1].name == s);
                        } else {
                            let j = choose|j: int|
                                0 <= j < out_before.len() && (#[trigger] out_before[j]).name == s;
                            assert(nv[j].name == s);
                        }
                    }
                }
            }
        }
        i += 1;
    }
    proof {
        assert(crate::views(out@) + crate::scan::dedup_rec(
            orig.skip(n as int),
            iwd_key(),
            iwd_names_of(crate::views(out@)),
        ) =~= crate::views(out@));
    }
    out
}

pub struct IwdManager;

impl IwdManager {
    pub fn new() -> Self {
        IwdManager
    }

    /// Parses the scan tool's output into networks, sorted by descending
    /// signal strength and deduplicated by name.  A record needs both a
    /// non-empty SSID and a signal value; fractional dBm readings are
    /// truncated toward zero, and malformed ones leave the record's signal
    /// unset.
    #[verifier::rlimit(50)]
    pub fn parse_iw_scan_output(&self, output: &str) -> (r: Result<Vec<IwdNetwork>, NetworkError>)
        ensures
            r matches Ok(v) && crate::views(v@) == spec_iwd_pipeline(output@),
    {
        let lines = text::lines_vec(output);
        let ghost lv = seq_views(lines@);
        let mut ssid: Option<String> = None;
        let mut signal: Option<i16> = None;
        let mut security: String = String::from_str("open");
        let mut out: Vec<IwdNetwork> = Vec::new();
        let n = lines.len();
        let mut i: usize = 0;
        proof {
            assert(lv.take(0) =~= Seq::<Seq<char>>::empty());
            assert(crate::views(out@) =~= Seq::<IwdNetworkV>::empty());
        }
        while i < n
            invariant
                0 <= i <= n,
                n == lines@.len(),
                lv == seq_views(lines@),
                ({
                    let st = iwd_fold_from(iwd_empty_acc(), lv.take(i as int));
                    &&& opt_str_view(&ssid) == st.0.ssid
                    &&& opt_i16_view(signal) == st.0.signal
                    &&& security@ == st.0.security
                    &&& crate::views(out@) == st.1
                }),
            decreases n - i,
        {
            let ghost st = iwd_fold_from(iwd_empty_acc(), lv.take(i as int));
            let ghost stp = iwd_step(st.0, lv[i as int]);
            proof {
                assert(lv.take(i + 1).drop_last() =~= lv.take(i as int));
                assert(lv.take(i + 1).last() == lv[i as int]);
                assert(iwd_fold_from(iwd_empty_acc(), lv.take(i + 1)) == (stp.0, st.1 + stp.1));
            }
            let line: &String = &lines[i];
            let l: &str = text::trim_str(line.as_str());
            proof {
                assert(seq_views(lines@)[i as int] == lines@[i as int]@);
                assert(l@ == spec_trim(lv[i as int]));
            }
            if text::starts_with_str(l, "BSS ") {
                let fssid = ssid;
                let fsignal = signal;
                flush_iwd_record(&mut out, fssid, fsignal, &security);
                proof {
                    assert(crate::views(out@) == st.1 + stp.1);
                }
                ssid = None;
                signal = None;
                security = String::from_str("open");
            }
            if text::starts_with_str(l, "signal: ") && text::contains_str(l, "dBm") {
                let toks = text::split_ws_vec(l);
                if toks.len() >= 2 {
                    proof {
                        assert(seq_views(toks@)[1] == toks@[1]@);
                    }
                    let parts = text::split_char_vec(toks[1].as_str(), '.');
                    proof {
                        text::lemma_split_len(toks@[1]@, '.');
                        assert(seq_views(parts@)[0] == parts@[0]@);
                    }
                    match text::parse_i16_opt(parts[0].as_str()) {
                        Some(v) => {
                            signal = Some(v);
                        }
                        None => {},
                    }
                }
            }
            if text::starts_with_str(l, "SSID: ") {
                proof {
                    reveal_strlit("SSID: ");
                }
                let ln = l.unicode_len();
                let rest = l.substring_char(6, ln);
                proof {
                    assert(rest@ =~= l@.skip(6));
                }
                let t = text::trim_str(rest);
                if !t.is_empty() {
                    ssid = Some(t.to_owned());
                }
            }
            if text::contains_str(l, "RSN:") || text::contains_str(l, "WPA:") {
                security = String::from_str("psk");
            }
            if text::contains_str(l, "Privacy") {
                if text::str_eq_str(security.as_str(), "open") {
                    security = String::from_str("wep");
                }
            }
            proof {
                let st2 = iwd_fold_from(iwd_empty_acc(), lv.take(i + 1));
                assert(opt_str_view(&ssid) == st2.0.ssid);
                assert(opt_i16_view(signal) == st2.0.signal);
                assert(security@ == st2.0.security);
                assert(crate::views(out@) == st2.1);
            }
            i += 1;
        }
        proof {
            assert(lv.take(n as int) =~= lv);
        }
        flush_iwd_record(&mut out, ssid, signal, &security);
        proof {
            assert(crate::views(out@) == spec_iwd_records(output@));
        }
        let sorted = sort_iwd_desc(out);
        let deduped = dedup_iwd_by_name(sorted);
        Ok(deduped)
    }
}

/// The device a line of the device listing describes, if it has enough
/// columns: name, then the power state in the fourth column.
pub open spec fn device_of_line(l: Seq<char>) -> Option<IwdDeviceV> {
    let toks = spec_tokens(l);
    if toks.len() >= 4 {
        Some(
            IwdDeviceV {
                name: toks[0],
                powered: toks[3] == "on"@,
                adapter: "unknown"@,
                mode: "station"@,
                scanning: false,
                path: "/net/connman/iwd/"@ + toks[0],
            },
        )
    } else {
        None
    }
}

pub open spec fn devices_rec(lines: Seq<Seq<char>>) -> Seq<IwdDeviceV>
    decreases lines.len(),
{
    if lines.len() == 0 {
        Seq::empty()
    } else {
        devices_rec(lines.drop_last()) + match device_of_line(lines.last()) {
            Some(d) => seq![d],
            None => Seq::empty(),
        }
    }
}

/// The devices listed in the tool's output: everything after the four
/// header lines, one device per line with at least four columns.
pub open spec fn spec_device_list(s: Seq<char>) -> Seq<IwdDeviceV> {
    let ls = spec_lines(s);
    if ls.len() <= 4 {
        Seq::empty()
    } else {
        devices_rec(ls.skip(4))
    }
}

/// The RSSI reading a single line carries: on a line mentioning RSSI and
/// dBm, the first token ending in `dBm` is read as a whole number of dBm.
pub open spec fn line_rssi(l: Seq<char>) -> Option<i16> {
    if spec_contains(l, "RSSI"@) && spec_contains(l, "dBm"@) {
        rssi_of_tokens(spec_tokens(l))
    } else {
        None
    }
}

pub open spec fn rssi_of_tokens(toks: Seq<Seq<char>>) -> Option<i16>
    decreases toks.len(),
{
    if toks.len() == 0 {
        None
    } else if text::is_suffix_of("dBm"@, toks[0]) {
        spec_parse_i16(text::strip_suffix_all(toks[0], "dBm"@))
    } else {
        rssi_of_tokens(toks.skip(1))
    }
}

/// The first line that yields an RSSI reading decides.
pub open spec fn rssi_rec(lines: Seq<Seq<char>>) -> Option<i16>
    decreases lines.len(),
{
    if lines.len() == 0 {
        None
    } else {
        match line_rssi(lines[0]) {
            Some(v) => Some(v),
            None => rssi_rec(lines.skip(1)),
        }
    }
}

/// The connection's signal strength as the station report shows it.
pub open spec fn spec_station_rssi(s: Seq<char>) -> Option<i16> {
    rssi_rec(spec_lines(s))
}

impl IwdManager {
    /// Parses the device listing into wireless devices: the four header
    /// lines are skipped, and each remaining line with at least four
    /// columns yields a device whose power state is the fourth column.
    pub fn parse_device_list(&self, output: &str) -> (r: Vec<IwdDevice>)
        ensures
            crate::views(r@) == spec_device_list(output@),
    {
        let lines = text::lines_vec(output);
        let ghost lv = seq_views(lines@);
        let ghost dv = lv.skip(4);
        let mut out: Vec<IwdDevice> = Vec::new();
        let n = lines.len();
        if n <= 4 {
            proof {
                assert(crate::views(out@) =~= spec_device_list(output@));
            }
            return out;
        }
        let mut i: usize = 4;
        proof {
            assert(dv.take(0) =~= Seq::<Seq<char>>::empty());
            assert(crate::views(out@) =~= devices_rec(dv.take(0)));
        }
        while i < n
            invariant
                4 <= i <= n,
                n == lines@.len(),
                lv == seq_views(lines@),
                dv == lv.skip(4),
                crate::views(out@) == devices_rec(dv.take(i - 4)),
            decreases n - i,
        {
            proof {
                assert(dv.take(i - 4 + 1).drop_last() =~= dv.take(i - 4));
                assert(dv.take(i - 4 + 1).last() == dv[i - 4]);
                assert(dv[i - 4] == lv[i as int]);
                assert(seq_views(lines@)[i as int] == lines@[i as int]@);
            }
            let line: &String = &lines[i];
            let mut toks = text::split_ws_vec(line.as_str());
            if toks.len() >= 4 {
                proof {
                    assert(seq_views(toks@)[0] == toks@[0]@);
                    assert(seq_views(toks@)[3] == toks@[3]@);
                }
                let powered = text::str_eq_str(toks[3].as_str(), "on");
                let name = toks.remove(0);
                let path = String::from_str("/net/connman/iwd/").concat(name.as_str());
                let dev = IwdDevice {
                    name,
                    powered,
                    adapter: String::from_str("unknown"),
                    mode: String::from_str("station"),
                    scanning: false,
                    path,
                };
                proof {
                    assert(device_of_line(lv[i as int]) == Some(dev@));
                }
                out.push(dev);
                proof {
                    assert(crate::views(out@) =~= devices_rec(dv.take(i - 4 + 1)));
                }
            } else {
                proof {
                    assert(crate::views(out@) =~= devices_rec(dv.take(i - 4 + 1)));
                }
            }
            i += 1;
        }
        proof {
            assert(dv.take(n - 4) =~= dv);
        }
        out
    }

    /// Reads the connection's signal strength from the station report: the
    /// first line mentioning RSSI in dBm decides, by its first token ending
    /// in `dBm`.
    pub fn parse_station_rssi(&self, output: &str) -> (r: Option<i16>)
        ensures
            r == spec_station_rssi(output@),
    {
        let lines = text::lines_vec(output);
        let ghost lv = seq_views(lines@);
        let n = lines.len();
        let mut i: usize = 0;
        proof {
            assert(lv.skip(0) =~= lv);
        }
        while i < n
            invariant
                0 <= i <= n,
                n == lines@.len(),
                lv == seq_views(lines@),
                spec_station_rssi(output@) == rssi_rec(lv.skip(i as int)),
            decreases n - i,
        {
            proof {
                assert(lv.skip(i as int)[0] == lv[i as int]);
                assert(lv.skip(i as int).skip(1) =~= lv.skip(i + 1));
                assert(seq_views(lines@)[i as int] == lines@[i as int]@);
            }
            let line: &String = &lines[i];
            if text::contains_str(line.as_str(), "RSSI") && text::contains_str(
                line.as_str(),
                "dBm",
            ) {
                let toks = text::split_ws_vec(line.as_str());
                let r = rssi_from_tokens(&toks);
                match r {
                    Some(v) => {
                        proof {
                            assert(line_rssi(lv[i as int]) == Some(v));
                        }
                        return Some(v);
                    }
                    None => {
                        proof {
                            assert(line_rssi(lv[i as int]) is None);
                            assert(rssi_rec(lv.skip(i as int)) == rssi_rec(lv.skip(i + 1)));
                        }
                    }
                }
            } else {
                proof {
                    assert(line_rssi(lv[i as int]) is None);
                    assert(rssi_rec(lv.skip(i as int)) == rssi_rec(lv.skip(i + 1)));
                }
            }
            i += 1;
        }
        proof {
            assert(lv.skip(n as int) =~= Seq::<Seq<char>>::empty());
        }
        None
    }
}

/// The first token ending in `dBm` decides the reading, whole dBm only.
fn rssi_from_tokens(toks: &Vec<String>) -> (r: Option<i16>)
    ensures
        r == rssi_of_tokens(seq_views(toks@)),
{
    let ghost tv = seq_views(toks@);
    let mut j: usize = 0;
    proof {
        assert(tv.skip(0) =~= tv);
    }
    while j < toks.len()
        invariant
            0 <= j <= toks@.len(),
            tv == seq_views(toks@),
            rssi_of_tokens(tv) == rssi_of_tokens(tv.skip(j as int)),
        decreases toks@.len() - j,
    {
        proof {
            assert(tv.skip(j as int)[0] == tv[j as int]);
            assert(tv.skip(j as int).skip(1) =~= tv.skip(j + 1));
            assert(seq_views(toks@)[j as int] == toks@[j as int]@);
        }
        if text::ends_with_str(toks[j].as_str(), "dBm") {
            return text::parse_i16_opt(text::strip_suffix_all_str(toks[j].as_str(), "dBm"));
        }
        j += 1;
    }
    proof {
        assert(tv.skip(j as int) =~= Seq::<Seq<char>>::empty());
    }
    None
}

/// The view of the optional SSID accumulator.
pub open spec fn opt_str_view(o: &Option<String>) -> Option<Seq<char>> {
    match o {
        Some(s) => Some(s@),
        None => None,
    }
}

/// The view of the optional signal accumulator.
pub open spec fn opt_i16_view(o: Option<i16>) -> Option<int> {
    match o {
        Some(v) => Some(v as int),
        None => None,
    }
}

/// Flushes the modern parser's accumulator: appends one record if it has
/// a non-empty name and a signal value, nothing otherwise.
fn flush_iwd_record(
    out: &mut Vec<IwdNetwork>,
    ssid: Option<String>,
    signal: Option<i16>,
    security: &String,
)
    ensures
        crate::views(final(out)@) == crate::views(old(out)@) + iwd_flush_acc(
            IwdAcc { ssid: opt_str_view(&ssid), signal: opt_i16_view(signal), security: security@ },
        ),
{
    let ghost a = IwdAcc {
        ssid: opt_str_view(&ssid),
        signal: opt_i16_view(signal),
        security: security@,
    };
    match (ssid, signal) {
        (Some(name), Some(sig)) => {
            if !name.as_str().is_empty() {
                let path = String::from_str("/net/connman/iwd/network/").concat(name.as_str());
                let rec = IwdNetwork {
                    name,
                    signal_strength: sig,
                    security_type: security.clone(),
                    path,
                    connected: false,
                };
                proof {
                    assert(rec@ == iwd_acc_record(a));
                }
                out.push(rec);
                proof {
                    assert(crate::views(out@) =~= crate::views(old(out)@) + iwd_flush_acc(a));
                }
            } else {
                proof {
                    assert(crate::views(out@) =~= crate::views(old(out)@) + iwd_flush_acc(a));
                }
            }
        }
        _ => {
            proof {
                assert(crate::views(out@) =~= crate::views(old(out)@) + iwd_flush_acc(a));
            }
        }
    }
}

} // verus!
