//! Reading the CVE feeds (NVD, CIRCL, OSV) into raw records, once their
//! replies are parsed.

use vstd::prelude::*;

use crate::sources::{
    child_ranges, collect_cpe_ranges, cpe_stem, raw_range_views, CveSource, NvdConfig, RawCveEntry,
    RawRangeView, RawVersionRange,
};
use crate::text::{
    chars_of, has_prefix, lemma_lex_irreflexive, lemma_lex_total, lemma_lex_transitive, lex_lt, opt_eq,
    opt_view, starts_with, text_eq, text_less,
};

verus! {

// ---------------------------------------------------------------------------
// Shared pieces
// ---------------------------------------------------------------------------

/// A text in some language.
#[derive(Debug, Clone, PartialEq)]
pub struct LangText {
    pub lang: String,
    pub value: String,
}

/// The first English text, or the empty text.
pub open spec fn english_of(ds: Seq<LangText>) -> Seq<char>
    decreases ds.len(),
{
    if ds.len() == 0 {
        Seq::empty()
    } else if ds[0].lang@ == "en"@ {
        ds[0].value@
    } else {
        english_of(ds.drop_first())
    }
}

/// The first English text (see [`english_of`]).
pub fn english_text(ds: &Vec<LangText>) -> (r: String)
    ensures
        r@ == english_of(ds@),
{
    let en = vec!['e', 'n'];
    proof {
        reveal_strlit("en");
        assert(en@ =~= "en"@);
    }
    let mut i: usize = 0;
    assert(ds@.skip(0) =~= ds@);
    while i < ds.len()
        invariant
            i <= ds.len(),
            en@ == "en"@,
            english_of(ds@) == english_of(ds@.skip(i as int)),
        decreases ds.len() - i,
    {
        assert(ds@.skip(i as int).drop_first() =~= ds@.skip(i + 1));
        assert(ds@.skip(i as int)[0] == ds@[i as int]);
        if text_eq(&chars_of(ds[i].lang.as_str()), &en) {
            return ds[i].value.clone();
        }
        i = i + 1;
    }
    String::new()
}

/// The first of a list of texts.
pub open spec fn first_text(v: Seq<String>) -> Option<Seq<char>> {
    if v.len() > 0 {
        Some(v[0]@)
    } else {
        None
    }
}

fn first_string(v: &Vec<String>) -> (r: Option<String>)
    ensures
        opt_view(r) == first_text(v@),
{
    if v.len() > 0 {
        Some(v[0].clone())
    } else {
        None
    }
}

// ---------------------------------------------------------------------------
// NVD
// ---------------------------------------------------------------------------

/// A vulnerability of an NVD reply; scores are in tenths, one list for each
/// CVSS version.
#[derive(Debug)]
pub struct NvdVuln {
    pub id: String,
    pub vuln_status: Option<String>,
    pub descriptions: Vec<LangText>,
    pub cvss_v31: Vec<u32>,
    pub cvss_v30: Vec<u32>,
    pub cvss_v2: Vec<u32>,
    pub configurations: Vec<NvdConfig>,
    pub references: Vec<String>,
}

/// The score of a vulnerability: the first CVSS 3.1 score, else 3.0, else
/// 2, else zero.
pub open spec fn nvd_score(v31: Seq<u32>, v30: Seq<u32>, v2: Seq<u32>) -> u32 {
    if v31.len() > 0 {
        v31[0]
    } else if v30.len() > 0 {
        v30[0]
    } else if v2.len() > 0 {
        v2[0]
    } else {
        0
    }
}

/// Whether the NVD marks a vulnerability rejected.
pub open spec fn nvd_rejected(v: NvdVuln) -> bool {
    v.vuln_status matches Some(s) && s@ == "Rejected"@
}

/// The vulnerabilities that are not rejected, in order.
pub open spec fn nvd_kept(vs: Seq<NvdVuln>) -> Seq<NvdVuln>
    decreases vs.len(),
{
    if vs.len() == 0 {
        Seq::empty()
    } else if nvd_rejected(vs.last()) {
        nvd_kept(vs.drop_last())
    } else {
        nvd_kept(vs.drop_last()).push(vs.last())
    }
}

/// `e` is the record made of NVD vulnerability `v` for `service`, its
/// ranges read for `cpe` (see [`collect_cpe_ranges`]).
pub open spec fn nvd_record(service: Seq<char>, cpe: Seq<char>, v: NvdVuln, e: RawCveEntry) -> bool {
    &&& e.source == CveSource::Nvd
    &&& e.cve_id@ == v.id@
    &&& e.package_name@ == service
    &&& e.description@ == english_of(v.descriptions@)
    &&& e.cvss_score == nvd_score(v.cvss_v31@, v.cvss_v30@, v.cvss_v2@)
    &&& raw_range_views(e.affected_versions@) == child_ranges(
        v.configurations@,
        cpe_stem(cpe),
        v.configurations@.len() as int,
    )
    &&& e.fixed_version is None
    &&& opt_view(e.advisory_url) == first_text(v.references@)
}

fn nvd_score_of(v: &NvdVuln) -> (r: u32)
    ensures
        r == nvd_score(v.cvss_v31@, v.cvss_v30@, v.cvss_v2@),
{
    if v.cvss_v31.len() > 0 {
        v.cvss_v31[0]
    } else if v.cvss_v30.len() > 0 {
        v.cvss_v30[0]
    } else if v.cvss_v2.len() > 0 {
        v.cvss_v2[0]
    } else {
        0
    }
}

fn is_rejected(v: &NvdVuln) -> (r: bool)
    ensures
        r == nvd_rejected(*v),
{
    match &v.vuln_status {
        Some(s) => {
            let rej = vec!['R', 'e', 'j', 'e', 'c', 't', 'e', 'd'];
            proof {
                reveal_strlit("Rejected");
                assert(rej@ =~= "Rejected"@);
            }
            text_eq(&chars_of(s.as_str()), &rej)
        },
        None => false,
    }
}

/// The raw records of an NVD reply for `service`, queried by `cpe`: the
/// vulnerabilities that are not rejected, in order (see [`nvd_record`]).
pub fn nvd_entries(service: &str, cpe: &str, vulns: &Vec<NvdVuln>) -> (r: Vec<RawCveEntry>)
    ensures
        r@.len() == nvd_kept(vulns@).len(),
        forall|i: int| 0 <= i < r@.len() ==> nvd_record(service@, cpe@, nvd_kept(vulns@)[i], #[trigger] r@[i]),
{
    let mut out: Vec<RawCveEntry> = Vec::new();
    let mut i: usize = 0;
    while i < vulns.len()
        invariant
            i <= vulns.len(),
            out@.len() == nvd_kept(vulns@.take(i as int)).len(),
            forall|k: int|
                0 <= k < out@.len() ==> nvd_record(service@, cpe@, nvd_kept(vulns@.take(i as int))[k], #[trigger] out@[k]),
        decreases vulns.len() - i,
    {
        let v = &vulns[i];
        let ghost before = nvd_kept(vulns@.take(i as int));
        assert(vulns@.take(i + 1).drop_last() =~= vulns@.take(i as int));
        assert(vulns@.take(i + 1).last() == vulns@[i as int]);
        if !is_rejected(v) {
            let mut ranges: Vec<RawVersionRange> = Vec::new();
            let mut j: usize = 0;
            assert(raw_range_views(ranges@) =~= Seq::<RawRangeView>::empty());
            while j < v.configurations.len()
                invariant
                    j <= v.configurations.len(),
                    raw_range_views(ranges@) == child_ranges(v.configurations@, cpe_stem(cpe@), j as int),
                decreases v.configurations.len() - j,
            {
                collect_cpe_ranges(&v.configurations[j], cpe, &mut ranges);
                j = j + 1;
            }
            let e = RawCveEntry {
                source: CveSource::Nvd,
                cve_id: v.id.clone(),
                package_name: service.to_owned(),
                description: english_text(&v.descriptions),
                cvss_score: nvd_score_of(v),
                affected_versions: ranges,
                fixed_version: None,
                advisory_url: first_string(&v.references),
            };
            out.push(e);
            proof {
                assert(nvd_kept(vulns@.take(i + 1)) == before.push(vulns@[i as int]));
                assert forall|k: int| 0 <= k < out@.len() implies nvd_record(
                    service@,
                    cpe@,
                    nvd_kept(vulns@.take(i + 1))[k],
                    #[trigger] out@[k],
                ) by {
                    if k < before.len() {
                        assert(nvd_kept(vulns@.take(i + 1))[k] == before[k]);
                    }
                }
            }
        }
        i = i + 1;
    }
    assert(vulns@.take(i as int) =~= vulns@);
    out
}


// ---------------------------------------------------------------------------
// CIRCL
// ---------------------------------------------------------------------------

/// The scores one metric entry gives, in tenths, by CVSS version.
#[derive(Debug, Clone, Copy, PartialEq, Eq)]
pub struct CvssScores {
    pub v31: Option<u32>,
    pub v30: Option<u32>,
    pub v2: Option<u32>,
}

/// An affected-version entry of a CIRCL record.
#[derive(Debug, Clone, PartialEq)]
pub struct CirclVersion {
    pub version: String,
    pub less_than: String,
    pub less_than_or_equal: String,
}

/// A CVE record of a CIRCL reply.
#[derive(Debug, Clone, PartialEq)]
pub struct CirclRecord {
    pub cve_id: String,
    pub descriptions: Vec<LangText>,
    /// The metrics of each additional-data container, in order.
    pub adp_metrics: Vec<Vec<CvssScores>>,
    /// The metrics of the numbering authority's container.
    pub cna_metrics: Vec<CvssScores>,
    pub references: Vec<String>,
    /// The versions of each affected product, in order.
    pub affected: Vec<Vec<CirclVersion>>,
}

/// The score of one metric entry: CVSS 3.1, else 3.0, else 2.
pub open spec fn metric_score(m: CvssScores) -> Option<u32> {
    if m.v31 is Some {
        m.v31
    } else if m.v30 is Some {
        m.v30
    } else {
        m.v2
    }
}

/// The score of the first metric entry that has one.
pub open spec fn any_score(ms: Seq<CvssScores>) -> Option<u32>
    decreases ms.len(),
{
    if ms.len() == 0 {
        None
    } else if metric_score(ms[0]) is Some {
        metric_score(ms[0])
    } else {
        any_score(ms.drop_first())
    }
}

/// The score of a record: from the first additional container that has
/// one, else from the authority's metrics, else zero.
pub open spec fn circl_score(adp: Seq<Vec<CvssScores>>, cna: Seq<CvssScores>) -> u32
    decreases adp.len(),
{
    if adp.len() == 0 {
        match any_score(cna) {
            Some(s) => s,
            None => 0,
        }
    } else if any_score(adp[0]@) is Some {
        any_score(adp[0]@)->0
    } else {
        circl_score(adp.drop_first(), cna)
    }
}

fn any_score_of(ms: &Vec<CvssScores>) -> (r: Option<u32>)
    ensures
        r == any_score(ms@),
{
    let mut i: usize = 0;
    assert(ms@.skip(0) =~= ms@);
    while i < ms.len()
        invariant
            i <= ms.len(),
            any_score(ms@) == any_score(ms@.skip(i as int)),
        decreases ms.len() - i,
    {
        assert(ms@.skip(i as int).drop_first() =~= ms@.skip(i + 1));
        assert(ms@.skip(i as int)[0] == ms@[i as int]);
        let m = ms[i];
        if m.v31.is_some() {
            return m.v31;
        }
        if m.v30.is_some() {
            return m.v30;
        }
        if m.v2.is_some() {
            return m.v2;
        }
        i = i + 1;
    }
    None
}

fn circl_score_of(adp: &Vec<Vec<CvssScores>>, cna: &Vec<CvssScores>) -> (r: u32)
    ensures
        r == circl_score(adp@, cna@),
{
    let mut i: usize = 0;
    assert(adp@.skip(0) =~= adp@);
    while i < adp.len()
        invariant
            i <= adp.len(),
            circl_score(adp@, cna@) == circl_score(adp@.skip(i as int), cna@),
        decreases adp.len() - i,
    {
        assert(adp@.skip(i as int).drop_first() =~= adp@.skip(i + 1));
        assert(adp@.skip(i as int)[0] == adp@[i as int]);
        match any_score_of(&adp[i]) {
            Some(s) => {
                return s;
            },
            None => {},
        }
        i = i + 1;
    }
    match any_score_of(cna) {
        Some(s) => s,
        None => 0,
    }
}

/// A bound that says nothing: empty or "*".
pub open spec fn open_bound(s: Seq<char>) -> bool {
    s.len() == 0 || s == "*"@
}

/// The range an affected-version entry gives: from its version (open when
/// it says nothing), up to "less than or equal" if given, else "less than"
/// (exclusive), else open.
pub open spec fn circl_range(v: CirclVersion) -> RawRangeView {
    RawRangeView {
        start: if open_bound(v.version@) {
            None
        } else {
            Some(v.version@)
        },
        start_including: true,
        end: if !open_bound(v.less_than_or_equal@) {
            Some(v.less_than_or_equal@)
        } else if !open_bound(v.less_than@) {
            Some(v.less_than@)
        } else {
            None
        },
        end_including: !open_bound(v.less_than_or_equal@) || open_bound(v.less_than@),
    }
}

/// The ranges of all affected entries, product by product.
pub open spec fn circl_ranges_of(aff: Seq<Vec<CirclVersion>>) -> Seq<RawRangeView>
    decreases aff.len(),
{
    if aff.len() == 0 {
        Seq::empty()
    } else {
        circl_ranges_of(aff.drop_last()) + aff.last()@.map_values(|v: CirclVersion| circl_range(v))
    }
}

/// The ranges of a record: those of its affected entries, or one open
/// range when there is none.
pub open spec fn circl_ranges(aff: Seq<Vec<CirclVersion>>) -> Seq<RawRangeView> {
    if circl_ranges_of(aff).len() == 0 {
        seq![RawRangeView { start: None, end: None, start_including: true, end_including: true }]
    } else {
        circl_ranges_of(aff)
    }
}

/// `e` is the record made of CIRCL record `c` for `service`.
pub open spec fn circl_record(service: Seq<char>, c: CirclRecord, e: RawCveEntry) -> bool {
    &&& e.source == CveSource::Circl
    &&& e.cve_id@ == c.cve_id@
    &&& e.package_name@ == service
    &&& e.description@ == english_of(c.descriptions@)
    &&& e.cvss_score == circl_score(c.adp_metrics@, c.cna_metrics@)
    &&& raw_range_views(e.affected_versions@) == circl_ranges(c.affected@)
    &&& e.fixed_version is None
    &&& opt_view(e.advisory_url) == first_text(c.references@)
}

fn is_open_bound(s: &String) -> (r: bool)
    ensures
        r == open_bound(s@),
{
    let cs = chars_of(s.as_str());
    let star = vec!['*'];
    proof {
        reveal_strlit("*");
        assert(star@ =~= "*"@);
    }
    cs.len() == 0 || text_eq(&cs, &star)
}

fn circl_range_of(v: &CirclVersion) -> (r: RawVersionRange)
    ensures
        r@ == circl_range(*v),
{
    let start = if is_open_bound(&v.version) {
        None
    } else {
        Some(v.version.clone())
    };
    let (end, end_including) = if !is_open_bound(&v.less_than_or_equal) {
        (Some(v.less_than_or_equal.clone()), true)
    } else if !is_open_bound(&v.less_than) {
        (Some(v.less_than.clone()), false)
    } else {
        (None, true)
    };
    RawVersionRange { start, end, start_including: true, end_including }
}

fn circl_ranges_vec(aff: &Vec<Vec<CirclVersion>>) -> (r: Vec<RawVersionRange>)
    ensures
        raw_range_views(r@) == circl_ranges(aff@),
{
    let mut out: Vec<RawVersionRange> = Vec::new();
    let mut i: usize = 0;
    assert(raw_range_views(out@) =~= circl_ranges_of(aff@.take(0)));
    while i < aff.len()
        invariant
            i <= aff.len(),
            raw_range_views(out@) == circl_ranges_of(aff@.take(i as int)),
        decreases aff.len() - i,
    {
        assert(aff@.take(i + 1).drop_last() =~= aff@.take(i as int));
        assert(aff@.take(i + 1).last() == aff@[i as int]);
        let vs = &aff[i];
        let ghost before = raw_range_views(out@);
        let mut j: usize = 0;
        while j < vs.len()
            invariant
                j <= vs.len(),
                raw_range_views(out@) == before + vs@.take(j as int).map_values(|v: CirclVersion| circl_range(v)),
            decreases vs.len() - j,
        {
            let r = circl_range_of(&vs[j]);
            let ghost o = out@;
            out.push(r);
            assert(raw_range_views(out@) =~= raw_range_views(o).push(r@));
            assert(vs@.take(j + 1).map_values(|v: CirclVersion| circl_range(v)) =~= vs@.take(j as int).map_values(
                |v: CirclVersion| circl_range(v),
            ).push(circl_range(vs@[j as int])));
            j = j + 1;
        }
        assert(vs@.take(j as int) =~= vs@);
        i = i + 1;
    }
    assert(aff@.take(i as int) =~= aff@);
    if out.len() == 0 {
        let open = RawVersionRange { start: None, end: None, start_including: true, end_including: true };
        out.push(open);
        assert(raw_range_views(out@) =~= circl_ranges(aff@));
    }
    out
}

/// The raw records of a CIRCL reply for `service` (see [`circl_record`]).
pub fn circl_entries(service: &str, records: &Vec<CirclRecord>) -> (r: Vec<RawCveEntry>)
    ensures
        r@.len() == records@.len(),
        forall|i: int| 0 <= i < r@.len() ==> circl_record(service@, records@[i], #[trigger] r@[i]),
{
    let mut out: Vec<RawCveEntry> = Vec::new();
    let mut i: usize = 0;
    while i < records.len()
        invariant
            i <= records.len(),
            out@.len() == i,
            forall|k: int| 0 <= k < i ==> circl_record(service@, records@[k], #[trigger] out@[k]),
        decreases records.len() - i,
    {
        let c = &records[i];
        out.push(RawCveEntry {
            source: CveSource::Circl,
            cve_id: c.cve_id.clone(),
            package_name: service.to_owned(),
            description: english_text(&c.descriptions),
            cvss_score: circl_score_of(&c.adp_metrics, &c.cna_metrics),
            affected_versions: circl_ranges_vec(&c.affected),
            fixed_version: None,
            advisory_url: first_string(&c.references),
        });
        i = i + 1;
    }
    out
}


// ---------------------------------------------------------------------------
// OSV
// ---------------------------------------------------------------------------

/// An event of an OSV range.
#[derive(Debug, Clone, PartialEq)]
pub struct OsvEvent {
    pub introduced: Option<String>,
    pub fixed: Option<String>,
}

/// A range of an OSV affected entry.
#[derive(Debug, Clone, PartialEq)]
pub struct OsvRange {
    pub kind: String,
    pub events: Vec<OsvEvent>,
}

/// A severity entry of an OSV vulnerability; `score` is in tenths, when the
/// entry's score reads as a number.
#[derive(Debug, Clone, PartialEq)]
pub struct OsvSeverity {
    pub kind: String,
    pub score: Option<u32>,
}

/// A vulnerability of an OSV reply.
#[derive(Debug, Clone, PartialEq)]
pub struct OsvVuln {
    pub id: String,
    pub aliases: Vec<String>,
    pub summary: Option<String>,
    pub severity: Vec<OsvSeverity>,
    pub references: Vec<String>,
    /// The ranges of each affected entry, in order.
    pub affected: Vec<Vec<OsvRange>>,
}

/// The CVE identifier of a vulnerability: its first alias that starts with
/// "CVE-", else its own identifier.
pub open spec fn osv_cve_id(id: Seq<char>, aliases: Seq<String>) -> Seq<char>
    decreases aliases.len(),
{
    if aliases.len() == 0 {
        id
    } else if has_prefix(aliases[0]@, "CVE-"@) {
        aliases[0]@
    } else {
        osv_cve_id(id, aliases.drop_first())
    }
}

/// The first score of severity kind `kind` that reads as a number.
pub open spec fn osv_kind_score(sev: Seq<OsvSeverity>, kind: Seq<char>) -> Option<u32>
    decreases sev.len(),
{
    if sev.len() == 0 {
        None
    } else if sev[0].kind@ == kind && sev[0].score is Some {
        sev[0].score
    } else {
        osv_kind_score(sev.drop_first(), kind)
    }
}

/// The score of a vulnerability: CVSS 3, else CVSS 2, else zero.
pub open spec fn osv_score(sev: Seq<OsvSeverity>) -> u32 {
    match osv_kind_score(sev, "CVSS_V3"@) {
        Some(s) => s,
        None => match osv_kind_score(sev, "CVSS_V2"@) {
            Some(s) => s,
            None => 0,
        },
    }
}

/// The last value given in a list of optional values.
pub open spec fn last_given(vs: Seq<Option<Seq<char>>>) -> Option<Seq<char>>
    decreases vs.len(),
{
    if vs.len() == 0 {
        None
    } else if vs.last() is Some {
        vs.last()
    } else {
        last_given(vs.drop_last())
    }
}

/// The range of a list of events: from the last introduced version to the
/// last fixed one (exclusive).
pub open spec fn events_range(es: Seq<OsvEvent>) -> RawRangeView {
    RawRangeView {
        start: last_given(es.map_values(|e: OsvEvent| opt_view(e.introduced))),
        end: last_given(es.map_values(|e: OsvEvent| opt_view(e.fixed))),
        start_including: true,
        end_including: false,
    }
}

/// Whether a range kind is read: "SEMVER" or "ECOSYSTEM".
pub open spec fn osv_kind_kept(k: Seq<char>) -> bool {
    k == "SEMVER"@ || k == "ECOSYSTEM"@
}

/// The ranges of one affected entry's read ranges, in order.
pub open spec fn osv_entry_ranges(rs: Seq<OsvRange>) -> Seq<RawRangeView>
    decreases rs.len(),
{
    if rs.len() == 0 {
        Seq::empty()
    } else if osv_kind_kept(rs.last().kind@) {
        osv_entry_ranges(rs.drop_last()).push(events_range(rs.last().events@))
    } else {
        osv_entry_ranges(rs.drop_last())
    }
}

/// The ranges of all affected entries, in order.
pub open spec fn osv_raw_ranges(aff: Seq<Vec<OsvRange>>) -> Seq<RawRangeView>
    decreases aff.len(),
{
    if aff.len() == 0 {
        Seq::empty()
    } else {
        osv_raw_ranges(aff.drop_last()) + osv_entry_ranges(aff.last()@)
    }
}

/// The fixed versions given by the events of the read ranges, in order.
pub open spec fn osv_entry_fixes(rs: Seq<OsvRange>) -> Seq<Option<Seq<char>>>
    decreases rs.len(),
{
    if rs.len() == 0 {
        Seq::empty()
    } else if osv_kind_kept(rs.last().kind@) {
        osv_entry_fixes(rs.drop_last()) + rs.last().events@.map_values(|e: OsvEvent| opt_view(e.fixed))
    } else {
        osv_entry_fixes(rs.drop_last())
    }
}

pub open spec fn osv_fixes(aff: Seq<Vec<OsvRange>>) -> Seq<Option<Seq<char>>>
    decreases aff.len(),
{
    if aff.len() == 0 {
        Seq::empty()
    } else {
        osv_fixes(aff.drop_last()) + osv_entry_fixes(aff.last()@)
    }
}

/// The first value given in a list of optional values.
pub open spec fn first_given(vs: Seq<Option<Seq<char>>>) -> Option<Seq<char>>
    decreases vs.len(),
{
    if vs.len() == 0 {
        None
    } else if vs[0] is Some {
        vs[0]
    } else {
        first_given(vs.drop_first())
    }
}

/// Order of optional texts: nothing first, then texts in order.
pub open spec fn opt_lt(a: Option<Seq<char>>, b: Option<Seq<char>>) -> bool {
    match (a, b) {
        (None, Some(_)) => true,
        (Some(x), Some(y)) => lex_lt(x, y),
        _ => false,
    }
}

/// Order of ranges: by start, then by end.
pub open spec fn range_lt(x: RawRangeView, y: RawRangeView) -> bool {
    opt_lt(x.start, y.start) || (x.start == y.start && opt_lt(x.end, y.end))
}

/// `v` is strictly increasing in range order.
pub open spec fn ranges_sorted(v: Seq<RawRangeView>) -> bool {
    forall|i: int, j: int| 0 <= i < j < v.len() ==> range_lt(v[i], v[j])
}

proof fn lemma_opt_lt(a: Option<Seq<char>>, b: Option<Seq<char>>, c: Option<Seq<char>>)
    ensures
        !opt_lt(a, a),
        opt_lt(a, b) && opt_lt(b, c) ==> opt_lt(a, c),
        a == b || opt_lt(a, b) || opt_lt(b, a),
{
    if let Some(x) = a {
        lemma_lex_irreflexive(x);
        if let Some(y) = b {
            lemma_lex_total(x, y);
            if let Some(z) = c {
                if lex_lt(x, y) && lex_lt(y, z) {
                    lemma_lex_transitive(x, y, z);
                }
            }
        }
    }
}

/// A range with the given bounds (start inclusive, end exclusive) is the
/// only kind OSV reading produces; the order and equality of such ranges
/// go by their bounds.
pub open spec fn osv_shaped(x: RawRangeView) -> bool {
    x.start_including && !x.end_including
}

proof fn lemma_range_lt(x: RawRangeView, y: RawRangeView, z: RawRangeView)
    requires
        osv_shaped(x),
        osv_shaped(y),
    ensures
        !range_lt(x, x),
        range_lt(x, y) && range_lt(y, z) ==> range_lt(x, z),
        x == y || range_lt(x, y) || range_lt(y, x),
{
    lemma_opt_lt(x.start, y.start, z.start);
    lemma_opt_lt(x.end, y.end, z.end);
    lemma_opt_lt(y.start, x.start, z.start);
    lemma_opt_lt(y.end, x.end, z.end);
}

fn opt_less(a: &Option<String>, b: &Option<String>) -> (r: bool)
    ensures
        r == opt_lt(opt_view(*a), opt_view(*b)),
{
    match (a, b) {
        (None, Some(_)) => true,
        (Some(x), Some(y)) => text_less(&chars_of(x.as_str()), &chars_of(y.as_str())),
        _ => false,
    }
}

fn range_less(x: &RawVersionRange, y: &RawVersionRange) -> (r: bool)
    ensures
        r == range_lt(x@, y@),
{
    opt_less(&x.start, &y.start) || (opt_eq(&x.start, &y.start) && opt_less(&x.end, &y.end))
}

/// Puts `r` at its place in the sorted ranges `v`, unless it is there.
fn insert_range(v: &mut Vec<RawVersionRange>, r: RawVersionRange)
    requires
        osv_shaped(r@),
        ranges_sorted(raw_range_views(old(v)@)),
        forall|i: int| 0 <= i < old(v)@.len() ==> osv_shaped(#[trigger] old(v)@[i]@),
    ensures
        ranges_sorted(raw_range_views(final(v)@)),
        forall|i: int| 0 <= i < final(v)@.len() ==> osv_shaped(#[trigger] final(v)@[i]@),
        forall|x: RawRangeView|
            raw_range_views(final(v)@).contains(x) <==> raw_range_views(old(v)@).contains(x) || x == r@,
{
    let ghost s = raw_range_views(v@);
    let mut k: usize = 0;
    while k < v.len() && range_less(&v[k], &r)
        invariant
            k <= v.len(),
            s == raw_range_views(v@),
            forall|j: int| 0 <= j < k ==> range_lt(#[trigger] s[j], r@),
        decreases v.len() - k,
    {
        k = k + 1;
    }
    if k < v.len() && opt_eq(&v[k].start, &r.start) && opt_eq(&v[k].end, &r.end) {
        assert(s[k as int] == r@);
        return;
    }
    proof {
        if k < s.len() {
            assert(s[k as int] == v@[k as int]@);
            lemma_range_lt(s[k as int], r@, r@);
            assert(range_lt(r@, s[k as int]));
        }
        assert forall|j: int| k <= j < s.len() implies range_lt(r@, #[trigger] s[j]) by {
            if j > k {
                assert(osv_shaped(s[k as int]));
                lemma_range_lt(r@, s[k as int], s[j]);
            }
        }
    }
    v.insert(k, r);
    proof {
        let t = raw_range_views(v@);
        assert(t =~= s.insert(k as int, r@));
        assert forall|a: int, b: int| 0 <= a < b < t.len() implies range_lt(t[a], t[b]) by {
            if a < k && b < k {
            } else if a < k && b == k {
            } else if a < k && b > k {
                assert(t[b] == s[b - 1]);
                assert(osv_shaped(s[a]));
                lemma_range_lt(s[a], r@, s[b - 1]);
            } else if a == k {
                assert(t[b] == s[b - 1]);
            } else {
                assert(t[a] == s[a - 1]);
                assert(t[b] == s[b - 1]);
            }
        }
        assert forall|i: int| 0 <= i < v@.len() implies osv_shaped(#[trigger] v@[i]@) by {
            if i > k {
                assert(v@[i] == old(v)@[i - 1]);
            } else if i < k {
                assert(v@[i] == old(v)@[i]);
            }
        }
        assert forall|x: RawRangeView| t.contains(x) <==> s.contains(x) || x == r@ by {
            if t.contains(x) {
                let j = choose|j: int| 0 <= j < t.len() && t[j] == x;
                if j < k {
                    assert(s[j] == x);
                } else if j > k {
                    assert(s[j - 1] == x);
                }
            }
            if s.contains(x) {
                let j = choose|j: int| 0 <= j < s.len() && s[j] == x;
                if j < k {
                    assert(t[j] == x);
                } else {
                    assert(t[j + 1] == x);
                }
            }
            if x == r@ {
                assert(t[k as int] == x);
            }
        }
    }
}

pub open spec fn opt_views(v: Seq<Option<String>>) -> Seq<Option<Seq<char>>> {
    v.map_values(|o: Option<String>| opt_view(o))
}

fn osv_cve_id_of(id: &String, aliases: &Vec<String>) -> (r: String)
    ensures
        r@ == osv_cve_id(id@, aliases@),
{
    let tag = vec!['C', 'V', 'E', '-'];
    proof {
        reveal_strlit("CVE-");
        assert(tag@ =~= "CVE-"@);
    }
    let mut i: usize = 0;
    assert(aliases@.skip(0) =~= aliases@);
    while i < aliases.len()
        invariant
            i <= aliases.len(),
            tag@ == "CVE-"@,
            osv_cve_id(id@, aliases@) == osv_cve_id(id@, aliases@.skip(i as int)),
        decreases aliases.len() - i,
    {
        assert(aliases@.skip(i as int).drop_first() =~= aliases@.skip(i + 1));
        assert(aliases@.skip(i as int)[0] == aliases@[i as int]);
        if starts_with(&chars_of(aliases[i].as_str()), &tag) {
            return aliases[i].clone();
        }
        i = i + 1;
    }
    id.clone()
}

fn osv_kind_score_of(sev: &Vec<OsvSeverity>, kind: &Vec<char>) -> (r: Option<u32>)
    ensures
        r == osv_kind_score(sev@, kind@),
{
    let mut i: usize = 0;
    assert(sev@.skip(0) =~= sev@);
    while i < sev.len()
        invariant
            i <= sev.len(),
            osv_kind_score(sev@, kind@) == osv_kind_score(sev@.skip(i as int), kind@),
        decreases sev.len() - i,
    {
        assert(sev@.skip(i as int).drop_first() =~= sev@.skip(i + 1));
        assert(sev@.skip(i as int)[0] == sev@[i as int]);
        if text_eq(&chars_of(sev[i].kind.as_str()), kind) && sev[i].score.is_some() {
            return sev[i].score;
        }
        i = i + 1;
    }
    None
}

fn osv_score_of(sev: &Vec<OsvSeverity>) -> (r: u32)
    ensures
        r == osv_score(sev@),
{
    let v3 = vec!['C', 'V', 'S', 'S', '_', 'V', '3'];
    let v2 = vec!['C', 'V', 'S', 'S', '_', 'V', '2'];
    proof {
        reveal_strlit("CVSS_V3");
        reveal_strlit("CVSS_V2");
        assert(v3@ =~= "CVSS_V3"@);
        assert(v2@ =~= "CVSS_V2"@);
    }
    match osv_kind_score_of(sev, &v3) {
        Some(x) => x,
        None => match osv_kind_score_of(sev, &v2) {
            Some(x) => x,
            None => 0,
        },
    }
}

fn events_range_of(es: &Vec<OsvEvent>) -> (r: RawVersionRange)
    ensures
        r@ == events_range(es@),
{
    let mut intro: Option<String> = None;
    let mut fixed: Option<String> = None;
    let mut k: usize = 0;
    while k < es.len()
        invariant
            k <= es.len(),
            opt_view(intro) == last_given(es@.take(k as int).map_values(|e: OsvEvent| opt_view(e.introduced))),
            opt_view(fixed) == last_given(es@.take(k as int).map_values(|e: OsvEvent| opt_view(e.fixed))),
        decreases es.len() - k,
    {
        let e = &es[k];
        assert(es@.take(k + 1).map_values(|e: OsvEvent| opt_view(e.introduced)).drop_last() =~= es@.take(
            k as int,
        ).map_values(|e: OsvEvent| opt_view(e.introduced)));
        assert(es@.take(k + 1).map_values(|e: OsvEvent| opt_view(e.fixed)).drop_last() =~= es@.take(
            k as int,
        ).map_values(|e: OsvEvent| opt_view(e.fixed)));
        match &e.introduced {
            Some(v) => {
                intro = Some(v.clone());
            },
            None => {},
        }
        match &e.fixed {
            Some(v) => {
                fixed = Some(v.clone());
            },
            None => {},
        }
        k = k + 1;
    }
    assert(es@.take(k as int) =~= es@);
    RawVersionRange { start: intro, end: fixed, start_including: true, end_including: false }
}

fn is_kept_kind(k: &String) -> (r: bool)
    ensures
        r == osv_kind_kept(k@),
{
    let semver = vec!['S', 'E', 'M', 'V', 'E', 'R'];
    let eco = vec!['E', 'C', 'O', 'S', 'Y', 'S', 'T', 'E', 'M'];
    proof {
        reveal_strlit("SEMVER");
        reveal_strlit("ECOSYSTEM");
        assert(semver@ =~= "SEMVER"@);
        assert(eco@ =~= "ECOSYSTEM"@);
    }
    let c = chars_of(k.as_str());
    text_eq(&c, &semver) || text_eq(&c, &eco)
}

fn clone_opt_string(o: &Option<String>) -> (r: Option<String>)
    ensures
        opt_view(r) == opt_view(*o),
{
    match o {
        Some(s) => Some(s.clone()),
        None => None,
    }
}

fn first_given_of(vs: &Vec<Option<String>>) -> (r: Option<String>)
    ensures
        opt_view(r) == first_given(opt_views(vs@)),
{
    let mut i: usize = 0;
    assert(opt_views(vs@).skip(0) =~= opt_views(vs@));
    while i < vs.len()
        invariant
            i <= vs.len(),
            first_given(opt_views(vs@)) == first_given(opt_views(vs@).skip(i as int)),
        decreases vs.len() - i,
    {
        assert(opt_views(vs@).skip(i as int).drop_first() =~= opt_views(vs@).skip(i + 1));
        assert(opt_views(vs@).skip(i as int)[0] == opt_view(vs@[i as int]));
        if vs[i].is_some() {
            return clone_opt_string(&vs[i]);
        }
        i = i + 1;
    }
    None
}

/// The ranges and fixed versions of all affected entries, in order.
fn osv_flat(aff: &Vec<Vec<OsvRange>>) -> (r: (Vec<RawVersionRange>, Vec<Option<String>>))
    ensures
        raw_range_views(r.0@) == osv_raw_ranges(aff@),
        opt_views(r.1@) == osv_fixes(aff@),
{
    let mut raws: Vec<RawVersionRange> = Vec::new();
    let mut fixes: Vec<Option<String>> = Vec::new();
    let mut i: usize = 0;
    assert(raw_range_views(raws@) =~= osv_raw_ranges(aff@.take(0)));
    assert(opt_views(fixes@) =~= osv_fixes(aff@.take(0)));
    while i < aff.len()
        invariant
            i <= aff.len(),
            raw_range_views(raws@) == osv_raw_ranges(aff@.take(i as int)),
            opt_views(fixes@) == osv_fixes(aff@.take(i as int)),
        decreases aff.len() - i,
    {
        assert(aff@.take(i + 1).drop_last() =~= aff@.take(i as int));
        assert(aff@.take(i + 1).last() == aff@[i as int]);
        let rs = &aff[i];
        let ghost r0 = raw_range_views(raws@);
        let ghost f0 = opt_views(fixes@);
        let mut j: usize = 0;
        assert(r0 + osv_entry_ranges(rs@.take(0)) =~= r0);
        assert(f0 + osv_entry_fixes(rs@.take(0)) =~= f0);
        while j < rs.len()
            invariant
                j <= rs.len(),
                raw_range_views(raws@) == r0 + osv_entry_ranges(rs@.take(j as int)),
                opt_views(fixes@) == f0 + osv_entry_fixes(rs@.take(j as int)),
            decreases rs.len() - j,
        {
            assert(rs@.take(j + 1).drop_last() =~= rs@.take(j as int));
            assert(rs@.take(j + 1).last() == rs@[j as int]);
            let g = &rs[j];
            if is_kept_kind(&g.kind) {
                let r = events_range_of(&g.events);
                let ghost o = raws@;
                raws.push(r);
                assert(raw_range_views(raws@) =~= raw_range_views(o).push(r@));
                assert(raw_range_views(raws@) =~= r0 + osv_entry_ranges(rs@.take(j + 1)));
                let ghost fo = opt_views(fixes@);
                let mut k: usize = 0;
                while k < g.events.len()
                    invariant
                        k <= g.events.len(),
                        opt_views(fixes@) == fo + g.events@.take(k as int).map_values(|e: OsvEvent| opt_view(e.fixed)),
                    decreases g.events.len() - k,
                {
                    let ghost before = fixes@;
                    fixes.push(clone_opt_string(&g.events[k].fixed));
                    assert(opt_views(fixes@) =~= opt_views(before).push(opt_view(g.events@[k as int].fixed)));
                    assert(g.events@.take(k + 1).map_values(|e: OsvEvent| opt_view(e.fixed)) =~= g.events@.take(
                        k as int,
                    ).map_values(|e: OsvEvent| opt_view(e.fixed)).push(opt_view(g.events@[k as int].fixed)));
                    k = k + 1;
                }
                assert(g.events@.take(k as int) =~= g.events@);
                assert(opt_views(fixes@) =~= f0 + osv_entry_fixes(rs@.take(j + 1)));
            } else {
                assert(raw_range_views(raws@) =~= r0 + osv_entry_ranges(rs@.take(j + 1)));
                assert(opt_views(fixes@) =~= f0 + osv_entry_fixes(rs@.take(j + 1)));
            }
            j = j + 1;
        }
        assert(rs@.take(j as int) =~= rs@);
        assert(raw_range_views(raws@) =~= osv_raw_ranges(aff@.take(i + 1)));
        assert(opt_views(fixes@) =~= osv_fixes(aff@.take(i + 1)));
        i = i + 1;
    }
    assert(aff@.take(i as int) =~= aff@);
    (raws, fixes)
}

proof fn lemma_osv_shaped(aff: Seq<Vec<OsvRange>>)
    ensures
        forall|i: int| 0 <= i < osv_raw_ranges(aff).len() ==> osv_shaped(#[trigger] osv_raw_ranges(aff)[i]),
    decreases aff.len(),
{
    if aff.len() > 0 {
        lemma_osv_shaped(aff.drop_last());
        lemma_entry_shaped(aff.last()@);
        let a = osv_raw_ranges(aff.drop_last());
        let b = osv_entry_ranges(aff.last()@);
        assert forall|i: int| 0 <= i < (a + b).len() implies osv_shaped(#[trigger] (a + b)[i]) by {
            if i < a.len() {
                assert((a + b)[i] == a[i]);
            } else {
                assert((a + b)[i] == b[i - a.len()]);
            }
        }
    }
}

proof fn lemma_entry_shaped(rs: Seq<OsvRange>)
    ensures
        forall|i: int| 0 <= i < osv_entry_ranges(rs).len() ==> osv_shaped(#[trigger] osv_entry_ranges(rs)[i]),
    decreases rs.len(),
{
    if rs.len() > 0 {
        lemma_entry_shaped(rs.drop_last());
        let a = osv_entry_ranges(rs.drop_last());
        if osv_kind_kept(rs.last().kind@) {
            let x = events_range(rs.last().events@);
            assert forall|i: int| 0 <= i < a.push(x).len() implies osv_shaped(#[trigger] a.push(x)[i]) by {
                if i < a.len() {
                    assert(a.push(x)[i] == a[i]);
                }
            }
        }
    }
}

/// The ranges of a vulnerability: those of its read ranges (see
/// [`osv_raw_ranges`]), each once, sorted by start and then end.
pub open spec fn osv_ranges_ok(aff: Seq<Vec<OsvRange>>, v: Seq<RawRangeView>) -> bool {
    &&& ranges_sorted(v)
    &&& forall|x: RawRangeView| v.contains(x) <==> osv_raw_ranges(aff).contains(x)
}

fn osv_ranges_of(aff: &Vec<Vec<OsvRange>>) -> (r: (Vec<RawVersionRange>, Option<String>))
    ensures
        osv_ranges_ok(aff@, raw_range_views(r.0@)),
        opt_view(r.1) == first_given(osv_fixes(aff@)),
{
    let (raws, fixes) = osv_flat(aff);
    let ghost rv = raw_range_views(raws@);
    proof {
        lemma_osv_shaped(aff@);
    }
    let mut out: Vec<RawVersionRange> = Vec::new();
    let mut rest = raws;
    assert(raw_range_views(rest@) =~= rv.subrange(0, rv.len() as int));
    while rest.len() > 0
        invariant
            rv == osv_raw_ranges(aff@),
            forall|i: int| 0 <= i < rv.len() ==> osv_shaped(#[trigger] rv[i]),
            rest@.len() <= rv.len(),
            raw_range_views(rest@) =~= rv.subrange(rv.len() - rest@.len(), rv.len() as int),
            ranges_sorted(raw_range_views(out@)),
            forall|i: int| 0 <= i < out@.len() ==> osv_shaped(#[trigger] out@[i]@),
            forall|x: RawRangeView|
                raw_range_views(out@).contains(x) <==> rv.subrange(0, rv.len() - rest@.len()).contains(x),
        decreases rest@.len(),
    {
        let ghost done = rv.len() - rest@.len();
        let ghost rs = rest@;
        let r = rest.remove(0);
        assert(r@ == raw_range_views(rs)[0]);
        assert(r@ == rv[done]);
        let ghost before = raw_range_views(out@);
        insert_range(&mut out, r);
        assert(rest@ =~= rs.subrange(1, rs.len() as int));
        assert(raw_range_views(rest@) =~= raw_range_views(rs).subrange(1, rs.len() as int));
        assert(raw_range_views(rest@) =~= rv.subrange(rv.len() - rest@.len(), rv.len() as int));
        assert forall|x: RawRangeView|
            raw_range_views(out@).contains(x) <==> rv.subrange(0, rv.len() - rest@.len()).contains(x) by {
            let p = rv.subrange(0, done);
            let q = rv.subrange(0, done + 1);
            assert(q =~= p.push(rv[done]));
            if q.contains(x) {
                let j = choose|j: int| 0 <= j < q.len() && q[j] == x;
                if j < done {
                    assert(p[j] == x);
                }
            }
            if p.contains(x) {
                let j = choose|j: int| 0 <= j < p.len() && p[j] == x;
                assert(q[j] == x);
            }
            if x == rv[done] {
                assert(q[done] == x);
            }
        }
    }
    assert(rv.subrange(0, rv.len() as int) =~= rv);
    let fixed = first_given_of(&fixes);
    (out, fixed)
}

/// `e` is the record made of OSV vulnerability `v` for `service`.
pub open spec fn osv_record(service: Seq<char>, v: OsvVuln, e: RawCveEntry) -> bool {
    &&& e.source == CveSource::Osv
    &&& e.cve_id@ == osv_cve_id(v.id@, v.aliases@)
    &&& e.package_name@ == service
    &&& e.description@ == (match v.summary {
        Some(s) => s@,
        None => Seq::empty(),
    })
    &&& e.cvss_score == osv_score(v.severity@)
    &&& osv_ranges_ok(v.affected@, raw_range_views(e.affected_versions@))
    &&& opt_view(e.fixed_version) == first_given(osv_fixes(v.affected@))
    &&& opt_view(e.advisory_url) == first_text(v.references@)
}

/// The raw records of an OSV reply for `service` (see [`osv_record`]).
pub fn osv_entries(service: &str, vulns: &Vec<OsvVuln>) -> (r: Vec<RawCveEntry>)
    ensures
        r@.len() == vulns@.len(),
        forall|i: int| 0 <= i < r@.len() ==> osv_record(service@, vulns@[i], #[trigger] r@[i]),
{
    let mut out: Vec<RawCveEntry> = Vec::new();
    let mut i: usize = 0;
    while i < vulns.len()
        invariant
            i <= vulns.len(),
            out@.len() == i,
            forall|k: int| 0 <= k < i ==> osv_record(service@, vulns@[k], #[trigger] out@[k]),
        decreases vulns.len() - i,
    {
        let v = &vulns[i];
        let (ranges, fixed) = osv_ranges_of(&v.affected);
        let description = match &v.summary {
            Some(s) => s.clone(),
            None => String::new(),
        };
        out.push(RawCveEntry {
            source: CveSource::Osv,
            cve_id: osv_cve_id_of(&v.id, &v.aliases),
            package_name: service.to_owned(),
            description,
            cvss_score: osv_score_of(&v.severity),
            affected_versions: ranges,
            fixed_version: fixed,
            advisory_url: first_string(&v.references),
        });
        i = i + 1;
    }
    out
}

} // verus!
