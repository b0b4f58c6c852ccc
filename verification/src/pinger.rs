//! Identity resolution, geolocation gating, and report assembly.
//!
//! The probes themselves (ICMP echo, geolocation HTTP lookups) are I/O
//! and run outside the library; the caller hands in the discovered
//! peers and, later, one `ProbeOutcome` per candidate, and the library
//! decides everything else: which candidates exist, when a geolocation
//! lookup is allowed, what each report line holds, and the final order.

use vstd::prelude::*;
use vstd::string::StringExecFns;

use crate::parser::{AddrBook, AddrBookView, AddressInfoView};
use crate::reporter::{Report, ReportLine, ReportLineView};

verus! {

/// One discovered peer identity: who it is, what it calls itself, and
/// where it was seen.
pub struct MonikerData {
    pub id: String,
    pub moniker: String,
    pub remote_ip: String,
    pub port: Option<u64>,
}

/// Ghost model of a `MonikerData`.
pub struct MonikerDataView {
    pub id: Seq<char>,
    pub moniker: Seq<char>,
    pub remote_ip: Seq<char>,
    pub port: Option<u64>,
}

impl View for MonikerData {
    type V = MonikerDataView;

    open spec fn view(&self) -> MonikerDataView {
        MonikerDataView {
            id: self.id@,
            moniker: self.moniker@,
            remote_ip: self.remote_ip@,
            port: self.port,
        }
    }
}

impl DeepView for MonikerData {
    type V = MonikerDataView;

    open spec fn deep_view(&self) -> MonikerDataView {
        self.view()
    }
}

impl Clone for MonikerData {
    fn clone(&self) -> (r: Self)
        ensures
            r@ == self@,
    {
        MonikerData {
            id: self.id.clone(),
            moniker: self.moniker.clone(),
            remote_ip: self.remote_ip.clone(),
            port: self.port,
        }
    }
}

/// A geolocation response: optional city/country, plus fields the
/// pipeline discards.
pub struct GeoInfo {
    pub ip: Option<String>,
    pub city: Option<String>,
    pub region: Option<String>,
    pub country: Option<String>,
    pub loc: Option<String>,
    pub org: Option<String>,
    pub postal: Option<String>,
    pub timezone: Option<String>,
    pub readme: Option<String>,
}

/// Ghost model of a `GeoInfo`; only city and country matter downstream.
pub struct GeoInfoView {
    pub city: Option<Seq<char>>,
    pub country: Option<Seq<char>>,
}

impl View for GeoInfo {
    type V = GeoInfoView;

    open spec fn view(&self) -> GeoInfoView {
        GeoInfoView { city: self.city.deep_view(), country: self.country.deep_view() }
    }
}

impl DeepView for GeoInfo {
    type V = GeoInfoView;

    open spec fn deep_view(&self) -> GeoInfoView {
        self.view()
    }
}

/// What the caller observed for one candidate: a round-trip time if the
/// probe succeeded, and a geolocation response if one was fetched.
pub struct ProbeOutcome {
    pub latency_in_milliseconds: Option<u64>,
    pub geo: Option<GeoInfo>,
}

/// Ghost model of a `ProbeOutcome`.
pub struct ProbeOutcomeView {
    pub latency_in_milliseconds: Option<u64>,
    pub geo: Option<GeoInfoView>,
}

impl View for ProbeOutcome {
    type V = ProbeOutcomeView;

    open spec fn view(&self) -> ProbeOutcomeView {
        ProbeOutcomeView {
            latency_in_milliseconds: self.latency_in_milliseconds,
            geo: self.geo.deep_view(),
        }
    }
}

impl DeepView for ProbeOutcome {
    type V = ProbeOutcomeView;

    open spec fn deep_view(&self) -> ProbeOutcomeView {
        self.view()
    }
}

/// The probing step's handle: it carries the optional geolocation
/// credential, whose presence gates every location lookup.
pub struct AddrBookPinger {
    location_api_key: Option<String>,
}

impl View for AddrBookPinger {
    type V = Option<Seq<char>>;

    closed spec fn view(&self) -> Option<Seq<char>> {
        self.location_api_key.deep_view()
    }
}

impl AddrBookPinger {
    pub fn new(location_api_key: Option<String>) -> (r: Self)
        ensures
            r@ == location_api_key.deep_view(),
    {
        Self { location_api_key }
    }

    /// A copy of the configured geolocation credential, for the
    /// caller's probe tasks.
    pub fn api_key(&self) -> (r: Option<String>)
        ensures
            r.deep_view() == self@,
    {
        clone_opt_string(&self.location_api_key)
    }
}

/// Whether some candidate in `s` carries the identity `id`.
pub open spec fn contains_id(s: Seq<MonikerDataView>, id: Seq<char>) -> bool {
    exists|i: int| 0 <= i < s.len() && s[i].id == id
}

/// No identity occurs twice in `s`.
pub open spec fn unique_ids(s: Seq<MonikerDataView>) -> bool {
    forall|i: int, j: int| 0 <= i < j < s.len() ==> s[i].id != s[j].id
}

/// First-write-wins deduplication: keeps, in order, each discovered
/// peer whose identity has not been seen before it.
pub open spec fn dedup_first(disc: Seq<MonikerDataView>) -> Seq<MonikerDataView>
    decreases disc.len(),
{
    if disc.len() == 0 {
        Seq::empty()
    } else {
        let init = dedup_first(disc.drop_last());
        if contains_id(init, disc.last().id) {
            init
        } else {
            init.push(disc.last())
        }
    }
}

/// The candidate synthesized for an address book entry that discovery
/// never named: its own id, ip and port, under the display name
/// "Unknown".
pub open spec fn fallback_candidate(e: AddressInfoView) -> MonikerDataView {
    MonikerDataView {
        id: e.addr.id,
        moniker: "Unknown"@,
        remote_ip: e.addr.ip,
        port: Some(e.addr.port as u64),
    }
}

/// Walks the address book in order and appends a fallback candidate for
/// every entry whose identity is still absent.
pub open spec fn add_fallbacks(acc: Seq<MonikerDataView>, book: Seq<AddressInfoView>) -> Seq<
    MonikerDataView,
>
    decreases book.len(),
{
    if book.len() == 0 {
        acc
    } else {
        let prev = add_fallbacks(acc, book.drop_last());
        if contains_id(prev, book.last().addr.id) {
            prev
        } else {
            prev.push(fallback_candidate(book.last()))
        }
    }
}

/// The resolved candidate set: discovered peers deduplicated
/// first-write-wins, then one fallback per uncovered address book
/// entry, in book order.
pub open spec fn spec_resolve(book: AddrBookView, disc: Seq<MonikerDataView>) -> Seq<
    MonikerDataView,
> {
    add_fallbacks(dedup_first(disc), book.addrs)
}

/// Whether any candidate in `v` carries the identity `id`.
fn contains_candidate_id(v: &Vec<MonikerData>, id: &String) -> (r: bool)
    ensures
        r == contains_id(v.deep_view(), id@),
{
    let ghost dv = v.deep_view();
    let mut i: usize = 0;
    while i < v.len()
        invariant
            dv == v.deep_view(),
            i <= dv.len(),
            dv.len() == v@.len(),
            forall|k: int| 0 <= k < i ==> #[trigger] dv[k].id != id@,
        decreases v@.len() - i,
    {
        if v[i].id == *id {
            proof {
                assert(dv[i as int].id == id@);
            }
            return true;
        }
        i += 1;
    }
    false
}

/// Merges the discovered peers with the address book into the
/// deduplicated candidate set: the first discovery of each identity
/// wins, and every address book entry not named by discovery appears as
/// a fallback candidate with display name "Unknown".
pub fn resolve_candidates(addr_book: &AddrBook, discovered: Vec<MonikerData>) -> (r: Vec<
    MonikerData,
>)
    ensures
        r.deep_view() == spec_resolve(addr_book.deep_view(), discovered.deep_view()),
{
    let ghost dv = discovered.deep_view();
    let ghost bv = addr_book.deep_view();
    let mut res: Vec<MonikerData> = Vec::new();

    let mut i: usize = 0;
    while i < discovered.len()
        invariant
            dv == discovered.deep_view(),
            dv.len() == discovered@.len(),
            i <= dv.len(),
            res.deep_view() == dedup_first(dv.subrange(0, i as int)),
        decreases dv.len() - i,
    {
        let md = &discovered[i];
        proof {
            assert(dv.subrange(0, i + 1).drop_last() =~= dv.subrange(0, i as int));
            assert(dv.subrange(0, i + 1).last() == dv[i as int]);
            assert(dv[i as int] == md@);
        }
        let present = contains_candidate_id(&res, &md.id);
        if !present {
            res.push(md.clone());
        }
        i += 1;
    }
    proof {
        assert(dv.subrange(0, discovered@.len() as int) =~= dv);
    }

    let mut b: usize = 0;
    while b < addr_book.addrs.len()
        invariant
            bv == addr_book.deep_view(),
            bv.addrs.len() == addr_book.addrs@.len(),
            b <= bv.addrs.len(),
            res.deep_view() == add_fallbacks(dedup_first(dv), bv.addrs.subrange(0, b as int)),
        decreases bv.addrs.len() - b,
    {
        let e = &addr_book.addrs[b];
        proof {
            assert(bv.addrs.subrange(0, b + 1).drop_last() =~= bv.addrs.subrange(0, b as int));
            assert(bv.addrs.subrange(0, b + 1).last() == bv.addrs[b as int]);
            assert(bv.addrs[b as int] == e.deep_view());
        }
        let present = contains_candidate_id(&res, &e.addr.id);
        if !present {
            let cand = MonikerData {
                id: e.addr.id.clone(),
                moniker: String::from_str("Unknown"),
                remote_ip: e.addr.ip.clone(),
                port: Some(e.addr.port as u64),
            };
            proof {
                assert(cand@ == fallback_candidate(bv.addrs[b as int]));
            }
            res.push(cand);
        }
        b += 1;
    }
    proof {
        assert(bv.addrs.subrange(0, addr_book.addrs@.len() as int) =~= bv.addrs);
    }
    res
}

/// The geolocation lookup address for one host under a credential.
pub open spec fn spec_geo_url(host: Seq<char>, token: Seq<char>) -> Seq<char> {
    "https://ipinfo.io/"@ + host + "?token="@ + token
}

/// The report line for one candidate and its probe outcome. City and
/// country are taken from the geolocation response only when a
/// credential is configured and the probe succeeded; otherwise they are
/// empty no matter what the caller fetched.
pub open spec fn spec_report_line(
    key: Option<Seq<char>>,
    cand: MonikerDataView,
    out: ProbeOutcomeView,
) -> ReportLineView {
    ReportLineView {
        id: cand.id,
        host: cand.remote_ip,
        moniker: cand.moniker,
        port: cand.port,
        latency_in_milliseconds: out.latency_in_milliseconds,
        city: match (key, out.latency_in_milliseconds, out.geo) {
            (Some(_), Some(_), Some(g)) => g.city,
            _ => None,
        },
        country: match (key, out.latency_in_milliseconds, out.geo) {
            (Some(_), Some(_), Some(g)) => g.country,
            _ => None,
        },
    }
}

/// The unsorted report lines: one per candidate, in candidate order.
pub open spec fn spec_lines(
    key: Option<Seq<char>>,
    cands: Seq<MonikerDataView>,
    outs: Seq<ProbeOutcomeView>,
) -> Seq<ReportLineView>
    decreases cands.len(),
{
    if cands.len() == 0 || outs.len() == 0 {
        Seq::empty()
    } else {
        spec_lines(key, cands.drop_last(), outs.drop_last()).push(
            spec_report_line(key, cands.last(), outs.last()),
        )
    }
}

/// The report's order: reachable lines come before unreachable ones,
/// and among reachable lines the larger (worse) latency comes first.
pub open spec fn line_le(a: ReportLineView, b: ReportLineView) -> bool {
    match (a.latency_in_milliseconds, b.latency_in_milliseconds) {
        (Some(x), Some(y)) => x >= y,
        (Some(_), None) => true,
        (None, Some(_)) => false,
        (None, None) => true,
    }
}

/// `s` is ordered by `line_le`.
pub open spec fn sorted_lines(s: Seq<ReportLineView>) -> bool {
    forall|i: int, j: int| 0 <= i < j < s.len() ==> line_le(#[trigger] s[i], #[trigger] s[j])
}

/// Stable insertion into a run ordered by `line_le`: the new line goes
/// after every line that may stay before it, so equal latencies keep
/// their input order.
pub open spec fn spec_insert_line(sorted: Seq<ReportLineView>, x: ReportLineView) -> Seq<
    ReportLineView,
>
    decreases sorted.len(),
{
    if sorted.len() == 0 {
        seq![x]
    } else if line_le(sorted[0], x) {
        seq![sorted[0]] + spec_insert_line(sorted.drop_first(), x)
    } else {
        seq![x] + sorted
    }
}

/// Stable insertion sort of report lines by `line_le`.
pub open spec fn spec_sort_lines(lines: Seq<ReportLineView>) -> Seq<ReportLineView>
    decreases lines.len(),
{
    if lines.len() == 0 {
        Seq::empty()
    } else {
        spec_insert_line(spec_sort_lines(lines.drop_last()), lines.last())
    }
}

/// `line_le` decided at run time.
fn line_le_exec(a: &ReportLine, b: &ReportLine) -> (r: bool)
    ensures
        r == line_le(a@, b@),
{
    match (&a.latency_in_milliseconds, &b.latency_in_milliseconds) {
        (Some(x), Some(y)) => *x >= *y,
        (Some(_), None) => true,
        (None, Some(_)) => false,
        (None, None) => true,
    }
}

/// Inserting at the first position whose line must come after `x` is
/// exactly `spec_insert_line`.
proof fn lemma_insert_line_at(l: Seq<ReportLineView>, x: ReportLineView, p: int)
    requires
        0 <= p <= l.len(),
        forall|k: int| 0 <= k < p ==> line_le(#[trigger] l[k], x),
        p < l.len() ==> !line_le(l[p], x),
    ensures
        spec_insert_line(l, x) == l.insert(p, x),
    decreases l.len(),
{
    if l.len() == 0 {
        assert(spec_insert_line(l, x) =~= l.insert(0, x));
    } else if p == 0 {
        assert(!line_le(l[0], x));
        assert(seq![x] + l =~= l.insert(0, x));
    } else {
        assert(line_le(l[0], x));
        lemma_insert_line_at(l.drop_first(), x, p - 1);
        assert(seq![l[0]] + l.drop_first().insert(p - 1, x) =~= l.insert(p, x));
    }
}

/// Inserts `x` into a vector whose lines are already in report order,
/// after every line that may stay before it.
fn insert_line_sorted(v: &mut Vec<ReportLine>, x: ReportLine)
    ensures
        final (v).deep_view() == spec_insert_line(old(v).deep_view(), x@),
{
    let ghost dv0 = v.deep_view();
    let mut p: usize = 0;
    loop
        invariant_except_break
            v.deep_view() == dv0,
            dv0.len() == v@.len(),
            p <= dv0.len(),
            forall|k: int| 0 <= k < p ==> line_le(#[trigger] dv0[k], x@),
        ensures
            v.deep_view() == dv0,
            dv0.len() == v@.len(),
            p <= dv0.len(),
            forall|k: int| 0 <= k < p ==> line_le(#[trigger] dv0[k], x@),
            p < dv0.len() ==> !line_le(dv0[p as int], x@),
        decreases dv0.len() - p,
    {
        if p == v.len() {
            break ;
        }
        if !line_le_exec(&v[p], &x) {
            proof {
                assert(dv0[p as int] == v@[p as int]@);
            }
            break ;
        }
        p += 1;
    }
    proof {
        lemma_insert_line_at(dv0, x@, p as int);
    }
    let ghost xv = x@;
    v.insert(p, x);
    proof {
        assert(v.deep_view() =~= dv0.insert(p as int, xv));
    }
}

/// Sorts report lines into the report order: a stable insertion sort,
/// so lines with equal latencies, and unreachable lines among
/// themselves, keep their input order.
pub fn sort_report_lines(lines: Vec<ReportLine>) -> (r: Vec<ReportLine>)
    ensures
        r.deep_view() == spec_sort_lines(lines.deep_view()),
{
    let ghost lv = lines.deep_view();
    let mut res: Vec<ReportLine> = Vec::new();
    let mut i: usize = 0;
    while i < lines.len()
        invariant
            lv == lines.deep_view(),
            lv.len() == lines@.len(),
            i <= lv.len(),
            res.deep_view() == spec_sort_lines(lv.subrange(0, i as int)),
        decreases lv.len() - i,
    {
        proof {
            assert(lv.subrange(0, i + 1).drop_last() =~= lv.subrange(0, i as int));
            assert(lv.subrange(0, i + 1).last() == lv[i as int]);
        }
        let x = lines[i].clone();
        insert_line_sorted(&mut res, x);
        i += 1;
    }
    proof {
        assert(lv.subrange(0, lines@.len() as int) =~= lv);
    }
    res
}

impl AddrBookPinger {
    /// The geolocation request for one candidate, or nothing when the
    /// lookup must not run: it runs only for a reachable candidate
    /// (latency present) and only when a credential is configured.
    pub fn geo_request(&self, host: &String, latency_in_milliseconds: &Option<u64>) -> (r: Option<
        String,
    >)
        ensures
            r is Some <==> (self@ is Some && latency_in_milliseconds is Some),
            r is Some ==> r.unwrap()@ == spec_geo_url(host@, self@.unwrap()),
    {
        match (&self.location_api_key, latency_in_milliseconds) {
            (Some(token), Some(_)) => {
                let mut url = String::from_str("https://ipinfo.io/");
                url.append(host.as_str());
                url.append("?token=");
                url.append(token.as_str());
                Some(url)
            },
            _ => None,
        }
    }

    /// Builds the report line for one candidate from what the caller
    /// observed. Geolocation data is copied in only when a credential
    /// is configured and the probe succeeded; otherwise city and
    /// country stay empty whatever `outcome.geo` holds.
    pub fn build_report_line(&self, candidate: MonikerData, outcome: ProbeOutcome) -> (r:
        ReportLine)
        ensures
            r@ == spec_report_line(self@, candidate@, outcome@),
    {
        let eligible = self.location_api_key.is_some()
            && outcome.latency_in_milliseconds.is_some();
        let mut city: Option<String> = None;
        let mut country: Option<String> = None;
        if eligible {
            if let Some(g) = outcome.geo {
                city = g.city;
                country = g.country;
            }
        }
        ReportLine {
            id: candidate.id,
            host: candidate.remote_ip,
            moniker: candidate.moniker,
            port: candidate.port,
            latency_in_milliseconds: outcome.latency_in_milliseconds,
            city,
            country,
        }
    }

    /// Turns the candidate set and its probe outcomes (one per
    /// candidate, in candidate order) into the final report: lines are
    /// built under the geolocation gate and ranked with the worst
    /// reachable latency first and unreachable candidates last.
    pub fn assemble_report(&self, candidates: Vec<MonikerData>, outcomes: Vec<ProbeOutcome>) -> (r:
        Report)
        requires
            candidates@.len() == outcomes@.len(),
        ensures
            r@ == spec_sort_lines(
                spec_lines(self@, candidates.deep_view(), outcomes.deep_view()),
            ),
            sorted_lines(r@),
            self@ is None ==> forall|k: int|
                0 <= k < r@.len() ==> (#[trigger] r@[k].city is None && r@[k].country is None),
            forall|k: int|
                0 <= k < r@.len() && #[trigger] r@[k].latency_in_milliseconds is None ==> (
                r@[k].city is None && r@[k].country is None),
    {
        proof {
            lemma_sort_lines_sorted(
                spec_lines(self@, candidates.deep_view(), outcomes.deep_view()),
            );
            if self@ is None {
                lemma_no_credential_no_location(
                    self@,
                    candidates.deep_view(),
                    outcomes.deep_view(),
                );
            }
            lemma_unreachable_no_location(self@, candidates.deep_view(), outcomes.deep_view());
        }
        let ghost cv = candidates.deep_view();
        let ghost ov = outcomes.deep_view();
        let mut lines: Vec<ReportLine> = Vec::new();
        let mut i: usize = 0;
        while i < candidates.len()
            invariant
                cv == candidates.deep_view(),
                ov == outcomes.deep_view(),
                cv.len() == candidates@.len(),
                ov.len() == outcomes@.len(),
                cv.len() == ov.len(),
                i <= cv.len(),
                lines.deep_view() == spec_lines(
                    self@,
                    cv.subrange(0, i as int),
                    ov.subrange(0, i as int),
                ),
            decreases cv.len() - i,
        {
            proof {
                assert(cv.subrange(0, i + 1).drop_last() =~= cv.subrange(0, i as int));
                assert(ov.subrange(0, i + 1).drop_last() =~= ov.subrange(0, i as int));
                assert(cv.subrange(0, i + 1).last() == cv[i as int]);
                assert(ov.subrange(0, i + 1).last() == ov[i as int]);
            }
            let cand = candidates[i].clone();
            let out = ProbeOutcome {
                latency_in_milliseconds: outcomes[i].latency_in_milliseconds,
                geo: match &outcomes[i].geo {
                    Some(g) => Some(
                        GeoInfo {
                            ip: clone_opt_string(&g.ip),
                            city: clone_opt_string(&g.city),
                            region: clone_opt_string(&g.region),
                            country: clone_opt_string(&g.country),
                            loc: clone_opt_string(&g.loc),
                            org: clone_opt_string(&g.org),
                            postal: clone_opt_string(&g.postal),
                            timezone: clone_opt_string(&g.timezone),
                            readme: clone_opt_string(&g.readme),
                        },
                    ),
                    None => None,
                },
            };
            proof {
                assert(out@ == ov[i as int]);
            }
            let line = self.build_report_line(cand, out);
            lines.push(line);
            i += 1;
        }
        proof {
            assert(cv.subrange(0, candidates@.len() as int) =~= cv);
            assert(ov.subrange(0, outcomes@.len() as int) =~= ov);
        }
        let sorted = sort_report_lines(lines);
        Report { report_lines: sorted }
    }
}

/// A copy of an optional string, equal to the one given.
fn clone_opt_string(s: &Option<String>) -> (r: Option<String>)
    ensures
        r.deep_view() == s.deep_view(),
{
    match s {
        Some(x) => Some(x.clone()),
        None => None,
    }
}

/// Whether some address book entry carries the identity `id`.
pub open spec fn book_has_id(book: Seq<AddressInfoView>, id: Seq<char>) -> bool {
    exists|i: int| 0 <= i < book.len() && book[i].addr.id == id
}

/// How many report lines carry the identity `id`.
pub open spec fn count_lines_with_id(s: Seq<ReportLineView>, id: Seq<char>) -> nat
    decreases s.len(),
{
    if s.len() == 0 {
        0
    } else {
        (if s[0].id == id {
            1nat
        } else {
            0nat
        }) + count_lines_with_id(s.drop_first(), id)
    }
}

/// How many candidates carry the identity `id`.
pub open spec fn count_candidates_with_id(s: Seq<MonikerDataView>, id: Seq<char>) -> nat
    decreases s.len(),
{
    if s.len() == 0 {
        0
    } else {
        (if s[0].id == id {
            1nat
        } else {
            0nat
        }) + count_candidates_with_id(s.drop_first(), id)
    }
}

proof fn lemma_contains_id_push(s: Seq<MonikerDataView>, x: MonikerDataView, id: Seq<char>)
    ensures
        contains_id(s.push(x), id) == (contains_id(s, id) || x.id == id),
{
    let t = s.push(x);
    if contains_id(t, id) {
        let i = choose|i: int| 0 <= i < t.len() && t[i].id == id;
        if i < s.len() {
            assert(s[i].id == id);
        } else {
            assert(t[i] == x);
        }
    }
    if contains_id(s, id) {
        let i = choose|i: int| 0 <= i < s.len() && s[i].id == id;
        assert(t[i].id == id);
    }
    if x.id == id {
        assert(t[s.len() as int].id == id);
    }
}

proof fn lemma_contains_id_unlast(s: Seq<MonikerDataView>, id: Seq<char>)
    requires
        s.len() > 0,
    ensures
        contains_id(s, id) == (contains_id(s.drop_last(), id) || s.last().id == id),
{
    assert(s =~= s.drop_last().push(s.last()));
    lemma_contains_id_push(s.drop_last(), s.last(), id);
}

proof fn lemma_book_has_id_unlast(book: Seq<AddressInfoView>, id: Seq<char>)
    requires
        book.len() > 0,
    ensures
        book_has_id(book, id) == (book_has_id(book.drop_last(), id) || book.last().addr.id == id),
{
    if book_has_id(book, id) {
        let i = choose|i: int| 0 <= i < book.len() && book[i].addr.id == id;
        if i < book.len() - 1 {
            assert(book.drop_last()[i].addr.id == id);
        }
    }
    if book_has_id(book.drop_last(), id) {
        let i = choose|i: int| 0 <= i < book.len() - 1 && book.drop_last()[i].addr.id == id;
        assert(book[i].addr.id == id);
    }
}

/// Deduplication keeps each identity at most once, changes no
/// identity's presence, and invents no candidate.
proof fn lemma_dedup_first_props(disc: Seq<MonikerDataView>)
    ensures
        unique_ids(dedup_first(disc)),
        forall|id: Seq<char>| #[trigger] contains_id(dedup_first(disc), id) == contains_id(
            disc,
            id,
        ),
        forall|c: MonikerDataView| #[trigger] dedup_first(disc).contains(c) ==> disc.contains(c),
    decreases disc.len(),
{
    broadcast use vstd::seq_lib::lemma_seq_contains_after_push;

    if disc.len() > 0 {
        lemma_dedup_first_props(disc.drop_last());
        let prev = disc.drop_last();
        let init = dedup_first(prev);
        let x = disc.last();
        let d = dedup_first(disc);
        assert forall|id: Seq<char>| #[trigger] contains_id(d, id) == contains_id(disc, id) by {
            lemma_contains_id_unlast(disc, id);
            if !contains_id(init, x.id) {
                lemma_contains_id_push(init, x, id);
            }
        }
        if !contains_id(init, x.id) {
            assert forall|i: int, j: int| 0 <= i < j < d.len() implies d[i].id != d[j].id by {
                if j == d.len() - 1 {
                    assert(d[i] == init[i]);
                    assert(d[j] == x);
                    assert(!contains_id(init, x.id));
                }
            }
        }
        assert forall|c: MonikerDataView| #[trigger] d.contains(c) implies disc.contains(c) by {
            if init.contains(c) {
                let i = choose|i: int| 0 <= i < init.len() && init[i] == c;
                assert(prev.contains(c));
                let k = choose|k: int| 0 <= k < prev.len() && prev[k] == c;
                assert(disc[k] == c);
            } else {
                assert(c == x);
                assert(disc[disc.len() - 1] == c);
            }
        }
    }
}

/// The first discovered peer of an identity survives deduplication
/// unchanged.
proof fn lemma_dedup_first_keeps_first(disc: Seq<MonikerDataView>, j: int)
    requires
        0 <= j < disc.len(),
        forall|k: int| 0 <= k < j ==> #[trigger] disc[k].id != disc[j].id,
    ensures
        dedup_first(disc).contains(disc[j]),
    decreases disc.len(),
{
    broadcast use vstd::seq_lib::lemma_seq_contains_after_push;

    let prev = disc.drop_last();
    let init = dedup_first(prev);
    let x = disc.last();
    if j == disc.len() - 1 {
        lemma_dedup_first_props(prev);
        assert(!contains_id(prev, x.id)) by {
            if contains_id(prev, x.id) {
                let k = choose|k: int| 0 <= k < prev.len() && prev[k].id == x.id;
                assert(disc[k].id == disc[j].id);
            }
        }
        assert(dedup_first(disc)[init.len() as int] == x);
        assert(dedup_first(disc).contains(x));
    } else {
        assert forall|k: int| 0 <= k < j implies #[trigger] prev[k].id != prev[j].id by {
            assert(prev[k] == disc[k]);
            assert(prev[j] == disc[j]);
        }
        lemma_dedup_first_keeps_first(prev, j);
        assert(prev[j] == disc[j]);
    }
}

/// Walking the address book adds exactly the missing identities, each
/// as a fallback candidate, and moves or drops nothing already there.
proof fn lemma_add_fallbacks_props(acc: Seq<MonikerDataView>, book: Seq<AddressInfoView>)
    ensures
        forall|id: Seq<char>| #[trigger] contains_id(add_fallbacks(acc, book), id) == (contains_id(
            acc,
            id,
        ) || book_has_id(book, id)),
        unique_ids(acc) ==> unique_ids(add_fallbacks(acc, book)),
        forall|c: MonikerDataView| #[trigger] add_fallbacks(acc, book).contains(c) ==> acc.contains(
            c,
        ) || (exists|i: int| 0 <= i < book.len() && c == fallback_candidate(#[trigger] book[i])),
        forall|c: MonikerDataView| acc.contains(c) ==> #[trigger] add_fallbacks(
            acc,
            book,
        ).contains(c),
    decreases book.len(),
{
    broadcast use vstd::seq_lib::lemma_seq_contains_after_push;

    if book.len() > 0 {
        lemma_add_fallbacks_props(acc, book.drop_last());
        let prevb = book.drop_last();
        let prev = add_fallbacks(acc, prevb);
        let e = book.last();
        let r = add_fallbacks(acc, book);
        assert forall|id: Seq<char>| #[trigger] contains_id(r, id) == (contains_id(acc, id)
            || book_has_id(book, id)) by {
            lemma_book_has_id_unlast(book, id);
            if !contains_id(prev, e.addr.id) {
                lemma_contains_id_push(prev, fallback_candidate(e), id);
            }
        }
        if unique_ids(acc) && !contains_id(prev, e.addr.id) {
            assert forall|i: int, j: int| 0 <= i < j < r.len() implies r[i].id != r[j].id by {
                if j == r.len() - 1 {
                    assert(r[i] == prev[i]);
                    assert(r[j] == fallback_candidate(e));
                }
            }
        }
        assert forall|c: MonikerDataView| #[trigger] r.contains(c) implies acc.contains(c) || (
        exists|i: int| 0 <= i < book.len() && c == fallback_candidate(#[trigger] book[i])) by {
            if prev.contains(c) {
                if !acc.contains(c) {
                    let i = choose|i: int|
                        0 <= i < prevb.len() && c == fallback_candidate(#[trigger] prevb[i]);
                    assert(book[i] == prevb[i]);
                    assert(c == fallback_candidate(book[i]));
                }
            } else {
                assert(c == fallback_candidate(e));
                assert(book[book.len() - 1] == e);
            }
        }
    }
}

/// Identity resolution yields exactly one candidate per distinct
/// identity: no identity twice, every address book entry covered, and
/// no identity out of nowhere.
pub proof fn lemma_resolve_candidate_ids(book: AddrBookView, disc: Seq<MonikerDataView>)
    ensures
        unique_ids(spec_resolve(book, disc)),
        forall|i: int| 0 <= i < book.addrs.len() ==> contains_id(
            spec_resolve(book, disc),
            #[trigger] book.addrs[i].addr.id,
        ),
        forall|id: Seq<char>| #[trigger] contains_id(spec_resolve(book, disc), id) == (contains_id(
            disc,
            id,
        ) || book_has_id(book.addrs, id)),
{
    lemma_dedup_first_props(disc);
    lemma_add_fallbacks_props(dedup_first(disc), book.addrs);
    assert forall|i: int| 0 <= i < book.addrs.len() implies contains_id(
        spec_resolve(book, disc),
        #[trigger] book.addrs[i].addr.id,
    ) by {
        assert(book_has_id(book.addrs, book.addrs[i].addr.id));
    }
}

/// Law: the first discovery of an identity wins. When index `j` holds
/// the first discovered peer with its identity, the resolved candidate
/// set keeps that peer as is — a later discovery or an address book
/// fallback never replaces its moniker, host or port.
pub proof fn lemma_first_discovery_wins(book: AddrBookView, disc: Seq<MonikerDataView>, j: int)
    requires
        0 <= j < disc.len(),
        forall|k: int| 0 <= k < j ==> #[trigger] disc[k].id != disc[j].id,
    ensures
        spec_resolve(book, disc).contains(disc[j]),
        forall|c: MonikerDataView|
            #[trigger] spec_resolve(book, disc).contains(c) && c.id == disc[j].id ==> c == disc[j],
{
    broadcast use vstd::seq_lib::lemma_seq_contains;

    lemma_dedup_first_keeps_first(disc, j);
    lemma_dedup_first_props(disc);
    lemma_add_fallbacks_props(dedup_first(disc), book.addrs);
    let r = spec_resolve(book, disc);
    assert(r.contains(disc[j]));
    assert forall|c: MonikerDataView|
        #[trigger] r.contains(c) && c.id == disc[j].id implies c == disc[j] by {
        let a = choose|a: int| 0 <= a < r.len() && r[a] == c;
        let b = choose|b: int| 0 <= b < r.len() && r[b] == disc[j];
        if a != b {
            assert(r[a].id != r[b].id);
        }
    }
}

/// Law: an identity that discovery never reported resolves only to
/// fallback candidates, so it carries the display name "Unknown".
pub proof fn lemma_resolve_fallback_unknown(book: AddrBookView, disc: Seq<MonikerDataView>, id: Seq<
    char,
>)
    requires
        !contains_id(disc, id),
    ensures
        forall|c: MonikerDataView|
            #[trigger] spec_resolve(book, disc).contains(c) && c.id == id ==> c.moniker
                == "Unknown"@,
{
    broadcast use vstd::seq_lib::lemma_seq_contains;

    lemma_dedup_first_props(disc);
    lemma_add_fallbacks_props(dedup_first(disc), book.addrs);
    let r = spec_resolve(book, disc);
    assert forall|c: MonikerDataView| #[trigger] r.contains(c) && c.id == id implies c.moniker
        == "Unknown"@ by {
        if dedup_first(disc).contains(c) {
            let i = choose|i: int| 0 <= i < dedup_first(disc).len() && dedup_first(disc)[i] == c;
            assert(contains_id(dedup_first(disc), id));
        }
    }
}

proof fn lemma_count_lines_concat(a: Seq<ReportLineView>, b: Seq<ReportLineView>, id: Seq<char>)
    ensures
        count_lines_with_id(a + b, id) == count_lines_with_id(a, id) + count_lines_with_id(b, id),
    decreases a.len(),
{
    if a.len() == 0 {
        assert(a + b =~= b);
    } else {
        assert((a + b).drop_first() =~= a.drop_first() + b);
        assert((a + b)[0] == a[0]);
        lemma_count_lines_concat(a.drop_first(), b, id);
    }
}

proof fn lemma_count_lines_unlast(s: Seq<ReportLineView>, id: Seq<char>)
    requires
        s.len() > 0,
    ensures
        count_lines_with_id(s, id) == count_lines_with_id(s.drop_last(), id) + (if s.last().id
            == id {
            1nat
        } else {
            0nat
        }),
{
    assert(s =~= s.drop_last() + seq![s.last()]);
    lemma_count_lines_concat(s.drop_last(), seq![s.last()], id);
    lemma_count_lines_single(s.last(), id);
}

proof fn lemma_count_lines_single(x: ReportLineView, id: Seq<char>)
    ensures
        count_lines_with_id(seq![x], id) == (if x.id == id {
            1nat
        } else {
            0nat
        }),
{
    let single = seq![x];
    assert(single.drop_first() =~= Seq::<ReportLineView>::empty());
    assert(count_lines_with_id(single.drop_first(), id) == 0);
    assert(single[0] == x);
}

proof fn lemma_count_candidates_unlast(s: Seq<MonikerDataView>, id: Seq<char>)
    requires
        s.len() > 0,
    ensures
        count_candidates_with_id(s, id) == count_candidates_with_id(s.drop_last(), id) + (
        if s.last().id == id {
            1nat
        } else {
            0nat
        }),
    decreases s.len(),
{
    if s.len() == 1 {
        assert(s.drop_first() =~= Seq::<MonikerDataView>::empty());
        assert(s.drop_last() =~= Seq::<MonikerDataView>::empty());
        assert(s.last() == s[0]);
    } else {
        lemma_count_candidates_unlast(s.drop_first(), id);
        assert(s.drop_first().drop_last() =~= s.drop_last().drop_first());
        assert(s.drop_first().last() == s.last());
        assert(s.drop_last()[0] == s[0]);
    }
}

/// A candidate set without repeated identities holds an identity's
/// candidate exactly once, or not at all.
proof fn lemma_unique_ids_count(s: Seq<MonikerDataView>, id: Seq<char>)
    requires
        unique_ids(s),
    ensures
        count_candidates_with_id(s, id) == (if contains_id(s, id) {
            1nat
        } else {
            0nat
        }),
    decreases s.len(),
{
    if s.len() > 0 {
        let prev = s.drop_last();
        assert forall|i: int, j: int| 0 <= i < j < prev.len() implies prev[i].id != prev[j].id by {
            assert(prev[i] == s[i]);
            assert(prev[j] == s[j]);
        }
        lemma_unique_ids_count(prev, id);
        lemma_count_candidates_unlast(s, id);
        lemma_contains_id_unlast(s, id);
        if s.last().id == id {
            if contains_id(prev, id) {
                let k = choose|k: int| 0 <= k < prev.len() && prev[k].id == id;
                assert(s[k].id != s[s.len() - 1].id);
            }
        }
    }
}

/// The unsorted report lines mirror the candidates one to one, in
/// order.
proof fn lemma_spec_lines_index(
    key: Option<Seq<char>>,
    cands: Seq<MonikerDataView>,
    outs: Seq<ProbeOutcomeView>,
)
    requires
        cands.len() == outs.len(),
    ensures
        spec_lines(key, cands, outs).len() == cands.len(),
        forall|k: int| 0 <= k < cands.len() ==> #[trigger] spec_lines(key, cands, outs)[k]
            == spec_report_line(key, cands[k], outs[k]),
    decreases cands.len(),
{
    if cands.len() > 0 {
        lemma_spec_lines_index(key, cands.drop_last(), outs.drop_last());
        assert forall|k: int| 0 <= k < cands.len() implies #[trigger] spec_lines(key, cands, outs)[k]
            == spec_report_line(key, cands[k], outs[k]) by {
            if k < cands.len() - 1 {
                assert(cands.drop_last()[k] == cands[k]);
                assert(outs.drop_last()[k] == outs[k]);
            }
        }
    }
}

/// Line building neither adds nor drops an identity.
proof fn lemma_spec_lines_count(
    key: Option<Seq<char>>,
    cands: Seq<MonikerDataView>,
    outs: Seq<ProbeOutcomeView>,
    id: Seq<char>,
)
    requires
        cands.len() == outs.len(),
    ensures
        count_lines_with_id(spec_lines(key, cands, outs), id) == count_candidates_with_id(
            cands,
            id,
        ),
    decreases cands.len(),
{
    if cands.len() > 0 {
        lemma_spec_lines_count(key, cands.drop_last(), outs.drop_last(), id);
        lemma_count_candidates_unlast(cands, id);
        let lines = spec_lines(key, cands, outs);
        lemma_count_lines_unlast(lines, id);
        assert(lines.drop_last() =~= spec_lines(key, cands.drop_last(), outs.drop_last()));
    }
}

proof fn lemma_insert_line_count(l: Seq<ReportLineView>, x: ReportLineView, id: Seq<char>)
    ensures
        count_lines_with_id(spec_insert_line(l, x), id) == count_lines_with_id(l, id) + (if x.id
            == id {
            1nat
        } else {
            0nat
        }),
    decreases l.len(),
{
    if l.len() == 0 {
        lemma_count_lines_single(x, id);
        assert(count_lines_with_id(l, id) == 0);
    } else if line_le(l[0], x) {
        lemma_insert_line_count(l.drop_first(), x, id);
        lemma_count_lines_concat(seq![l[0]], spec_insert_line(l.drop_first(), x), id);
        lemma_count_lines_single(l[0], id);
        assert(l =~= seq![l[0]] + l.drop_first());
        lemma_count_lines_concat(seq![l[0]], l.drop_first(), id);
    } else {
        lemma_count_lines_concat(seq![x], l, id);
        lemma_count_lines_single(x, id);
    }
}

/// Ranking neither adds nor drops an identity.
proof fn lemma_sort_lines_count(lines: Seq<ReportLineView>, id: Seq<char>)
    ensures
        count_lines_with_id(spec_sort_lines(lines), id) == count_lines_with_id(lines, id),
    decreases lines.len(),
{
    if lines.len() > 0 {
        lemma_sort_lines_count(lines.drop_last(), id);
        lemma_insert_line_count(spec_sort_lines(lines.drop_last()), lines.last(), id);
        lemma_count_lines_unlast(lines, id);
    }
}

proof fn lemma_insert_line_membership(l: Seq<ReportLineView>, x: ReportLineView)
    ensures
        forall|c: ReportLineView| #[trigger] spec_insert_line(l, x).contains(c) <==> (l.contains(c)
            || c == x),
    decreases l.len(),
{
    broadcast use vstd::seq_lib::lemma_seq_concat_contains_all_elements;
    broadcast use vstd::seq_lib::lemma_seq_contains;

    if l.len() == 0 {
        assert forall|c: ReportLineView| #[trigger] spec_insert_line(l, x).contains(c) <==> (
        l.contains(c) || c == x) by {
            lemma_line_singleton_contains(x, c);
        }
    } else if line_le(l[0], x) {
        lemma_insert_line_membership(l.drop_first(), x);
        assert(l =~= seq![l[0]] + l.drop_first());
        assert forall|c: ReportLineView| #[trigger] spec_insert_line(l, x).contains(c) <==> (
        l.contains(c) || c == x) by {
            lemma_line_singleton_contains(l[0], c);
            let inner = spec_insert_line(l.drop_first(), x);
            assert(spec_insert_line(l, x) == seq![l[0]] + inner);
            assert((seq![l[0]] + inner).contains(c) <==> (seq![l[0]].contains(c) || inner.contains(
                c,
            )));
            assert((seq![l[0]] + l.drop_first()).contains(c) <==> (seq![l[0]].contains(c)
                || l.drop_first().contains(c)));
            assert(inner.contains(c) <==> (l.drop_first().contains(c) || c == x));
        }
    } else {
        assert forall|c: ReportLineView| #[trigger] spec_insert_line(l, x).contains(c) <==> (
        l.contains(c) || c == x) by {
            lemma_line_singleton_contains(x, c);
        }
    }
}

proof fn lemma_line_singleton_contains(x: ReportLineView, c: ReportLineView)
    ensures
        seq![x].contains(c) <==> c == x,
{
    if seq![x].contains(c) {
        let i = choose|i: int| 0 <= i < 1 && seq![x][i] == c;
        assert(seq![x][0] == x);
    }
    if c == x {
        assert(seq![x][0] == c);
    }
}

/// Ranking keeps exactly the lines it was given.
proof fn lemma_sort_lines_membership(lines: Seq<ReportLineView>)
    ensures
        forall|c: ReportLineView| #[trigger] spec_sort_lines(lines).contains(c) <==> lines.contains(
            c,
        ),
    decreases lines.len(),
{
    broadcast use vstd::seq_lib::lemma_seq_concat_contains_all_elements;
    broadcast use vstd::seq_lib::lemma_seq_contains;

    if lines.len() > 0 {
        lemma_sort_lines_membership(lines.drop_last());
        lemma_insert_line_membership(spec_sort_lines(lines.drop_last()), lines.last());
        assert(lines =~= lines.drop_last() + seq![lines.last()]);
    }
}

proof fn lemma_insert_line_sorted(l: Seq<ReportLineView>, x: ReportLineView)
    requires
        sorted_lines(l),
    ensures
        sorted_lines(spec_insert_line(l, x)),
    decreases l.len(),
{
    broadcast use vstd::seq_lib::lemma_seq_contains;

    if l.len() > 0 {
        let rest = l.drop_first();
        assert forall|i: int, j: int| 0 <= i < j < rest.len() implies line_le(
            #[trigger] rest[i],
            #[trigger] rest[j],
        ) by {
            assert(rest[i] == l[i + 1]);
            assert(rest[j] == l[j + 1]);
        }
        if line_le(l[0], x) {
            lemma_insert_line_sorted(rest, x);
            lemma_insert_line_membership(rest, x);
            let r = spec_insert_line(l, x);
            let inner = spec_insert_line(rest, x);
            assert forall|i: int, j: int| 0 <= i < j < r.len() implies line_le(
                #[trigger] r[i],
                #[trigger] r[j],
            ) by {
                if i == 0 {
                    assert(r[j] == inner[j - 1]);
                    assert(inner.contains(inner[j - 1]));
                    if inner[j - 1] == x {
                        assert(line_le(l[0], x));
                    } else {
                        let k = choose|k: int| 0 <= k < rest.len() && rest[k] == inner[j - 1];
                        assert(line_le(l[0], l[k + 1]));
                    }
                } else {
                    assert(r[i] == inner[i - 1]);
                    assert(r[j] == inner[j - 1]);
                }
            }
        } else {
            let r = seq![x] + l;
            assert forall|i: int, j: int| 0 <= i < j < r.len() implies line_le(
                #[trigger] r[i],
                #[trigger] r[j],
            ) by {
                if i == 0 {
                    assert(r[j] == l[j - 1]);
                    if j - 1 > 0 {
                        assert(line_le(l[0], l[j - 1]));
                    }
                } else {
                    assert(r[i] == l[i - 1]);
                    assert(r[j] == l[j - 1]);
                }
            }
        }
    }
}

/// Law: the report is totally ordered — a reachable line never stands
/// after an unreachable one, and among reachable lines the larger
/// latency stands first.
pub proof fn lemma_sort_lines_sorted(lines: Seq<ReportLineView>)
    ensures
        sorted_lines(spec_sort_lines(lines)),
    decreases lines.len(),
{
    if lines.len() > 0 {
        lemma_sort_lines_sorted(lines.drop_last());
        lemma_insert_line_sorted(spec_sort_lines(lines.drop_last()), lines.last());
    }
}

/// Law: full coverage. Every address book entry's identity appears in
/// the assembled report exactly once, whatever discovery returned and
/// whatever the probes observed.
pub proof fn lemma_report_coverage(
    key: Option<Seq<char>>,
    book: AddrBookView,
    disc: Seq<MonikerDataView>,
    outs: Seq<ProbeOutcomeView>,
    i: int,
)
    requires
        0 <= i < book.addrs.len(),
        outs.len() == spec_resolve(book, disc).len(),
    ensures
        count_lines_with_id(
            spec_sort_lines(spec_lines(key, spec_resolve(book, disc), outs)),
            book.addrs[i].addr.id,
        ) == 1,
{
    let id = book.addrs[i].addr.id;
    let cands = spec_resolve(book, disc);
    lemma_resolve_candidate_ids(book, disc);
    lemma_unique_ids_count(cands, id);
    lemma_spec_lines_count(key, cands, outs, id);
    lemma_sort_lines_count(spec_lines(key, cands, outs), id);
}

/// Law: fallback naming. An address book entry whose identity was never
/// discovered appears in the report exactly once, under the display
/// name "Unknown".
pub proof fn lemma_report_fallback_unknown(
    key: Option<Seq<char>>,
    book: AddrBookView,
    disc: Seq<MonikerDataView>,
    outs: Seq<ProbeOutcomeView>,
    i: int,
)
    requires
        0 <= i < book.addrs.len(),
        !contains_id(disc, book.addrs[i].addr.id),
        outs.len() == spec_resolve(book, disc).len(),
    ensures
        count_lines_with_id(
            spec_sort_lines(spec_lines(key, spec_resolve(book, disc), outs)),
            book.addrs[i].addr.id,
        ) == 1,
        forall|k: int|
            0 <= k < spec_sort_lines(spec_lines(key, spec_resolve(book, disc), outs)).len()
                && #[trigger] spec_sort_lines(spec_lines(key, spec_resolve(book, disc), outs))[k].id
                == book.addrs[i].addr.id ==> spec_sort_lines(
                spec_lines(key, spec_resolve(book, disc), outs),
            )[k].moniker == "Unknown"@,
{
    broadcast use vstd::seq_lib::lemma_seq_contains;

    let id = book.addrs[i].addr.id;
    let cands = spec_resolve(book, disc);
    let lines = spec_lines(key, cands, outs);
    let report = spec_sort_lines(lines);
    lemma_report_coverage(key, book, disc, outs, i);
    lemma_resolve_fallback_unknown(book, disc, id);
    lemma_sort_lines_membership(lines);
    lemma_spec_lines_index(key, cands, outs);
    assert forall|k: int| 0 <= k < report.len() && #[trigger] report[k].id == id implies report[k].moniker
        == "Unknown"@ by {
        assert(report.contains(report[k]));
        assert(lines.contains(report[k]));
        let m = choose|m: int| 0 <= m < lines.len() && lines[m] == report[k];
        assert(lines[m] == spec_report_line(key, cands[m], outs[m]));
        assert(cands.contains(cands[m]));
    }
}

/// Law: geolocation gating. With no credential configured, no line of
/// the assembled report carries a city or a country, reachable or not.
pub proof fn lemma_no_credential_no_location(
    key: Option<Seq<char>>,
    cands: Seq<MonikerDataView>,
    outs: Seq<ProbeOutcomeView>,
)
    requires
        key is None,
        cands.len() == outs.len(),
    ensures
        forall|k: int|
            0 <= k < spec_sort_lines(spec_lines(key, cands, outs)).len() ==> (#[trigger] spec_sort_lines(
                spec_lines(key, cands, outs),
            )[k].city is None && spec_sort_lines(spec_lines(key, cands, outs))[k].country is None),
{
    broadcast use vstd::seq_lib::lemma_seq_contains;

    let lines = spec_lines(key, cands, outs);
    let report = spec_sort_lines(lines);
    lemma_sort_lines_membership(lines);
    lemma_spec_lines_index(key, cands, outs);
    assert forall|k: int| 0 <= k < report.len() implies (#[trigger] report[k].city is None
        && report[k].country is None) by {
        assert(report.contains(report[k]));
        assert(lines.contains(report[k]));
        let m = choose|m: int| 0 <= m < lines.len() && lines[m] == report[k];
        assert(lines[m] == spec_report_line(key, cands[m], outs[m]));
    }
}

/// Law: unreachable candidates are never enriched. A line without a
/// latency carries no city and no country, credential or not.
pub proof fn lemma_unreachable_no_location(
    key: Option<Seq<char>>,
    cands: Seq<MonikerDataView>,
    outs: Seq<ProbeOutcomeView>,
)
    requires
        cands.len() == outs.len(),
    ensures
        forall|k: int|
            0 <= k < spec_sort_lines(spec_lines(key, cands, outs)).len()
                && #[trigger] spec_sort_lines(
                spec_lines(key, cands, outs),
            )[k].latency_in_milliseconds is None ==> (spec_sort_lines(
                spec_lines(key, cands, outs),
            )[k].city is None && spec_sort_lines(spec_lines(key, cands, outs))[k].country is None),
{
    broadcast use vstd::seq_lib::lemma_seq_contains;

    let lines = spec_lines(key, cands, outs);
    let report = spec_sort_lines(lines);
    lemma_sort_lines_membership(lines);
    lemma_spec_lines_index(key, cands, outs);
    assert forall|k: int|
        0 <= k < report.len()
            && #[trigger] report[k].latency_in_milliseconds is None implies (report[k].city is None
        && report[k].country is None) by {
        assert(report.contains(report[k]));
        assert(lines.contains(report[k]));
        let m = choose|m: int| 0 <= m < lines.len() && lines[m] == report[k];
        assert(lines[m] == spec_report_line(key, cands[m], outs[m]));
    }
}

} // verus!
