//! CVE data from several sources: CPE names for the NVD and OSV queries,
//! version ranges from NVD configurations, and the merge of all sources
//! into one database.

use vstd::prelude::*;
use vstd::string::StrSliceExecFns;

use crate::cve::{
    cpes_for_lower, get_cpe_for_service, severity_name, severity_of, str_views, CveDatabase, CveEntry,
    CveSeverity, VersionRange, VulnerabilityFix,
};
use crate::text::{chars_of, clone_opt, has_prefix, lowercase_of, opt_view, push_char, starts_with, string_of};

verus! {

// ---------------------------------------------------------------------------
// Sources
// ---------------------------------------------------------------------------

/// Where a CVE record came from, in decreasing order of priority.
#[derive(Debug, Clone, Copy, PartialEq, Eq, PartialOrd, Ord, Hash)]
pub enum CveSource {
    Osv,
    Nvd,
    Circl,
}

/// Priority of a source: lower is preferred.
pub open spec fn rank(s: CveSource) -> int {
    match s {
        CveSource::Osv => 0,
        CveSource::Nvd => 1,
        CveSource::Circl => 2,
    }
}

fn source_rank(s: CveSource) -> (r: u8)
    ensures
        r == rank(s),
{
    match s {
        CveSource::Osv => 0,
        CveSource::Nvd => 1,
        CveSource::Circl => 2,
    }
}

impl CveSource {
    /// How much a record of this source is trusted.
    pub fn confidence_str(&self) -> (r: &'static str)
        ensures
            r@ == match self {
                CveSource::Osv => "high"@,
                CveSource::Nvd => "medium"@,
                CveSource::Circl => "medium"@,
            },
    {
        match self {
            CveSource::Osv => "high",
            CveSource::Nvd => "medium",
            CveSource::Circl => "medium",
        }
    }
}

// ---------------------------------------------------------------------------
// CPE names
// ---------------------------------------------------------------------------

/// The number of ':' in `s`.
pub open spec fn colons(s: Seq<char>) -> nat
    decreases s.len(),
{
    if s.len() == 0 {
        0
    } else {
        colons(s.drop_last()) + if s.last() == ':' { 1nat } else { 0nat }
    }
}

/// ":-" followed by ":*" repeated, `n` fields in all.
pub open spec fn cpe_padding(n: nat) -> Seq<char>
    decreases n,
{
    if n == 0 {
        Seq::empty()
    } else if n == 1 {
        seq![':', '-']
    } else {
        cpe_padding((n - 1) as nat) + seq![':', '*']
    }
}

/// The CPE name completed for the NVD interface: one with fewer than six
/// fields gets a version of "-" and "*" for the rest, up to thirteen
/// fields; others are unchanged.
pub open spec fn nvd_cpe(cpe: Seq<char>) -> Seq<char> {
    let fields = colons(cpe) + 1;
    if fields < 6 {
        cpe + cpe_padding((13 - fields) as nat)
    } else {
        cpe
    }
}

/// Completes a CPE name for the NVD interface (see [`nvd_cpe`]).
pub fn normalize_cpe_for_nvd(cpe: &str) -> (r: String)
    ensures
        r@ == nvd_cpe(cpe@),
{
    let cs = chars_of(cpe);
    let mut n: usize = 0;
    let mut i: usize = 0;
    while i < cs.len()
        invariant
            i <= cs.len(),
            n == colons(cs@.take(i as int)),
            n <= i,
        decreases cs.len() - i,
    {
        assert(cs@.take(i + 1).drop_last() =~= cs@.take(i as int));
        if cs[i] == ':' {
            n = n + 1;
        }
        i = i + 1;
    }
    assert(cs@.take(i as int) =~= cs@);
    let mut result = string_of(&cs);
    if n < 5 {
        let count = 12 - n;
        let mut k: usize = 0;
        while k < count
            invariant
                k <= count,
                count == 12 - n,
                result@ == cs@ + cpe_padding(k as nat),
            decreases count - k,
        {
            push_char(&mut result, ':');
            if k == 0 {
                push_char(&mut result, '-');
                assert(cpe_padding(1) == seq![':', '-']);
            } else {
                push_char(&mut result, '*');
            }
            k = k + 1;
            assert(result@ =~= cs@ + cpe_padding(k as nat));
        }
    }
    result
}

/// The fields of `s` between ':' (`split(':')`), after the partial field
/// `cur`.
pub open spec fn colon_fields_from(s: Seq<char>, cur: Seq<char>) -> Seq<Seq<char>>
    decreases s.len(),
{
    if s.len() == 0 {
        seq![cur]
    } else if s[0] == ':' {
        seq![cur] + colon_fields_from(s.drop_first(), Seq::empty())
    } else {
        colon_fields_from(s.drop_first(), cur.push(s[0]))
    }
}

/// The package name OSV knows a CPE product by: its fifth field, or empty.
pub open spec fn osv_name(cpe: Seq<char>) -> Seq<char> {
    let fs = colon_fields_from(cpe, Seq::empty());
    if fs.len() > 4 {
        fs[4]
    } else {
        Seq::empty()
    }
}

/// The fifth ':'-separated field of a CPE name (the product), or "".
pub fn cpe_to_osv_name(cpe: &str) -> (r: &str)
    ensures
        r@ == osv_name(cpe@),
{
    let cs = chars_of(cpe);
    let ghost all = colon_fields_from(cs@, Seq::empty());
    let mut field: usize = 0;
    let mut start: usize = 0;
    let mut i: usize = 0;
    assert(cs@.skip(0) =~= cs@);
    assert(cs@.subrange(0, 0) =~= Seq::<char>::empty());
    while i < cs.len() && !(field == 4 && cs[i] == ':')
        invariant
            start <= i <= cs.len(),
            cs@ == cpe@,
            field <= 4,
            all == colon_fields_from(cs@, Seq::empty()),
            all.len() == field + colon_fields_from(cs@.skip(i as int), cs@.subrange(start as int, i as int)).len(),
            forall|k: int| 0 <= k < colon_fields_from(cs@.skip(i as int), cs@.subrange(start as int, i as int)).len()
                ==> all[field + k] == #[trigger] colon_fields_from(cs@.skip(i as int), cs@.subrange(start as int, i as int))[k],
        decreases cs.len() - i,
    {
        let ghost rest = cs@.skip(i as int);
        let ghost cur = cs@.subrange(start as int, i as int);
        assert(rest.drop_first() =~= cs@.skip(i + 1));
        assert(rest[0] == cs@[i as int]);
        if cs[i] == ':' {
            let ghost tail = colon_fields_from(cs@.skip(i + 1), Seq::empty());
            assert(colon_fields_from(rest, cur) == seq![cur] + tail);
            assert(cs@.subrange(i + 1, i + 1) =~= Seq::<char>::empty());
            field = field + 1;
            start = i + 1;
            i = i + 1;
            assert forall|k: int| 0 <= k < tail.len() implies all[field + k] == #[trigger] tail[k] by {
                assert((seq![cur] + tail)[k + 1] == tail[k]);
            }
        } else {
            assert(cur.push(cs@[i as int]) =~= cs@.subrange(start as int, i + 1));
            i = i + 1;
        }
    }
    proof {
        let cur = cs@.subrange(start as int, i as int);
        if i == cs.len() {
            assert(cs@.skip(i as int) =~= Seq::<char>::empty());
            assert(colon_fields_from(cs@.skip(i as int), cur) == seq![cur]);
        } else {
            let rest = cs@.skip(i as int);
            assert(rest[0] == ':');
            assert(colon_fields_from(rest, cur) == seq![cur] + colon_fields_from(rest.drop_first(), Seq::empty()));
            assert((seq![cur] + colon_fields_from(rest.drop_first(), Seq::empty()))[0] == cur);
        }
        assert(colon_fields_from(cs@.skip(i as int), cur)[0] == cur);
    }
    if field == 4 {
        cpe.substring_char(start, i)
    } else {
        proof {
            reveal_strlit("");
        }
        ""
    }
}

// ---------------------------------------------------------------------------
// Raw records
// ---------------------------------------------------------------------------

/// A version range as a source gives it; a missing bound is open.
#[derive(Debug, Clone, PartialEq)]
pub struct RawVersionRange {
    pub start: Option<String>,
    pub end: Option<String>,
    pub start_including: bool,
    pub end_including: bool,
}

/// Mathematical form of a [`RawVersionRange`].
pub struct RawRangeView {
    pub start: Option<Seq<char>>,
    pub end: Option<Seq<char>>,
    pub start_including: bool,
    pub end_including: bool,
}

impl View for RawVersionRange {
    type V = RawRangeView;

    open spec fn view(&self) -> RawRangeView {
        RawRangeView {
            start: opt_view(self.start),
            end: opt_view(self.end),
            start_including: self.start_including,
            end_including: self.end_including,
        }
    }
}

/// A CVE record as a source gives it; `cvss_score` is in tenths.
#[derive(Debug, Clone, PartialEq)]
pub struct RawCveEntry {
    pub source: CveSource,
    pub cve_id: String,
    pub package_name: String,
    pub description: String,
    pub cvss_score: u32,
    pub affected_versions: Vec<RawVersionRange>,
    pub fixed_version: Option<String>,
    pub advisory_url: Option<String>,
}

pub open spec fn raw_range_views(v: Seq<RawVersionRange>) -> Seq<RawRangeView> {
    v.map_values(|r: RawVersionRange| r@)
}

fn clone_raw_range(r: &RawVersionRange) -> (c: RawVersionRange)
    ensures
        c@ == r@,
{
    RawVersionRange {
        start: clone_opt(&r.start),
        end: clone_opt(&r.end),
        start_including: r.start_including,
        end_including: r.end_including,
    }
}

/// Copies of `a` followed by the ranges of `b`.
fn concat_ranges(a: &Vec<RawVersionRange>, b: Vec<RawVersionRange>) -> (c: Vec<RawVersionRange>)
    ensures
        raw_range_views(c@) == raw_range_views(a@) + raw_range_views(b@),
{
    let mut c: Vec<RawVersionRange> = Vec::new();
    let mut i: usize = 0;
    while i < a.len()
        invariant
            i <= a.len(),
            c@.len() == i,
            forall|k: int| 0 <= k < i ==> (#[trigger] c@[k])@ == a@[k]@,
        decreases a.len() - i,
    {
        c.push(clone_raw_range(&a[i]));
        i = i + 1;
    }
    let mut j: usize = 0;
    while j < b.len()
        invariant
            j <= b.len(),
            c@.len() == a@.len() + j,
            forall|k: int| 0 <= k < a@.len() ==> (#[trigger] c@[k])@ == a@[k]@,
            forall|k: int| 0 <= k < j ==> (#[trigger] c@[a@.len() + k])@ == b@[k]@,
        decreases b.len() - j,
    {
        c.push(clone_raw_range(&b[j]));
        j = j + 1;
    }
    assert forall|k: int| 0 <= k < c@.len() implies raw_range_views(c@)[k] == (raw_range_views(a@) + raw_range_views(b@))[k] by {
        if k >= a@.len() {
            assert(c@[a@.len() + (k - a@.len())]@ == b@[k - a@.len()]@);
        }
    }
    assert(raw_range_views(c@) =~= raw_range_views(a@) + raw_range_views(b@));
    c
}

// ---------------------------------------------------------------------------
// Merging the sources
// ---------------------------------------------------------------------------

/// The record kept for key (`id`, `pkg`) after the first `n` records, as
/// the position of the record whose fields are used and the ranges
/// gathered: a record of a strictly preferred source replaces the kept one
/// and adds its ranges before the kept ranges; others are ignored.
pub open spec fn kept(es: Seq<RawCveEntry>, id: Seq<char>, pkg: Seq<char>, n: int) -> Option<
    (int, Seq<RawRangeView>),
>
    decreases n,
{
    if n <= 0 || n > es.len() {
        None
    } else {
        let prev = kept(es, id, pkg, n - 1);
        let e = es[n - 1];
        if e.cve_id@ == id && e.package_name@ == pkg {
            match prev {
                None => Some((n - 1, raw_range_views(e.affected_versions@))),
                Some(p) => if rank(e.source) < rank(es[p.0].source) {
                    Some((n - 1, raw_range_views(e.affected_versions@) + p.1))
                } else {
                    prev
                },
            }
        } else {
            prev
        }
    }
}

/// The distinct keys among the first `n` records, in order of first
/// appearance.
pub open spec fn first_keys(es: Seq<RawCveEntry>, n: int) -> Seq<(Seq<char>, Seq<char>)>
    decreases n,
{
    if n <= 0 || n > es.len() {
        Seq::empty()
    } else {
        let prev = first_keys(es, n - 1);
        let k = (es[n - 1].cve_id@, es[n - 1].package_name@);
        if prev.contains(k) {
            prev
        } else {
            prev.push(k)
        }
    }
}

/// Mathematical form of a version range of the database.
pub struct RangeView {
    pub start: Seq<char>,
    pub end: Seq<char>,
    pub start_including: bool,
    pub end_including: bool,
}

/// Mathematical form of a database record.
pub struct EntryView {
    pub id: Seq<char>,
    pub package_name: Seq<char>,
    pub description: Seq<char>,
    pub cvss_score: u32,
    pub severity: CveSeverity,
    pub cpe_match: Seq<Seq<char>>,
    pub affected_versions: Seq<RangeView>,
    pub fixed_version: Option<Seq<char>>,
    pub advisory_url: Option<Seq<char>>,
}

pub open spec fn or_empty(o: Option<Seq<char>>) -> Seq<char> {
    match o {
        Some(s) => s,
        None => Seq::empty(),
    }
}

/// The database range of a raw range: a missing bound becomes empty.
pub open spec fn db_range(r: RawRangeView) -> RangeView {
    RangeView {
        start: or_empty(r.start),
        end: or_empty(r.end),
        start_including: r.start_including,
        end_including: r.end_including,
    }
}

pub open spec fn entry_view(e: CveEntry) -> EntryView {
    EntryView {
        id: e.id@,
        package_name: e.package_name@,
        description: e.description@,
        cvss_score: e.cvss_score,
        severity: e.severity,
        cpe_match: e.cpe_match@.map_values(|s: String| s@),
        affected_versions: e.affected_versions@.map_values(
            |r: VersionRange| RangeView {
                start: r.start@,
                end: r.end@,
                start_including: r.start_including,
                end_including: r.end_including,
            },
        ),
        fixed_version: opt_view(e.fixed_version),
        advisory_url: opt_view(e.advisory_url),
    }
}

/// The database record made of raw record `e` with ranges `rs`: its
/// severity follows from its score and its CPE names from its package.
pub open spec fn merged_entry(e: RawCveEntry, rs: Seq<RawRangeView>) -> EntryView {
    EntryView {
        id: e.cve_id@,
        package_name: e.package_name@,
        description: e.description@,
        cvss_score: e.cvss_score,
        severity: severity_of(e.cvss_score),
        cpe_match: cpes_for_lower(lowercase_of(e.package_name@)),
        affected_versions: rs.map_values(|r: RawRangeView| db_range(r)),
        fixed_version: opt_view(e.fixed_version),
        advisory_url: opt_view(e.advisory_url),
    }
}

/// One record being gathered.
struct Gathered {
    id: String,
    pkg: String,
    best: usize,
    ranges: Vec<RawVersionRange>,
}

spec fn gathered_ok(es: Seq<RawCveEntry>, gs: Seq<Gathered>, n: int) -> bool {
    let keys = first_keys(es, n);
    &&& gs.len() == keys.len()
    &&& forall|k: int|
        0 <= k < gs.len() ==> (#[trigger] gs[k]).id@ == keys[k].0 && gs[k].pkg@ == keys[k].1
            && kept(es, keys[k].0, keys[k].1, n) == Some((gs[k].best as int, raw_range_views(gs[k].ranges@)))
            && gs[k].best < n
}

proof fn lemma_kept_none(es: Seq<RawCveEntry>, id: Seq<char>, pkg: Seq<char>, n: int)
    requires
        0 <= n <= es.len(),
    ensures
        kept(es, id, pkg, n) is None <==> !first_keys(es, n).contains((id, pkg)),
        kept(es, id, pkg, n) matches Some(p) ==> 0 <= p.0 < n,
    decreases n,
{
    if n > 0 {
        lemma_kept_none(es, id, pkg, n - 1);
        let prev = first_keys(es, n - 1);
        let k = (es[n - 1].cve_id@, es[n - 1].package_name@);
        if !prev.contains(k) {
            assert(prev.push(k)[prev.len() as int] == k);
            if prev.push(k).contains((id, pkg)) && (id, pkg) != k {
                let i = choose|i: int| 0 <= i < prev.push(k).len() && prev.push(k)[i] == (id, pkg);
                assert(prev[i] == (id, pkg));
            }
            if prev.contains((id, pkg)) {
                let i = choose|i: int| 0 <= i < prev.len() && prev[i] == (id, pkg);
                assert(prev.push(k)[i] == (id, pkg));
            }
        }
    }
}

proof fn lemma_first_keys_distinct(es: Seq<RawCveEntry>, n: int)
    requires
        0 <= n <= es.len(),
    ensures
        first_keys(es, n).no_duplicates(),
        forall|k: int| 0 <= k < first_keys(es, n - 1).len() ==> first_keys(es, n)[k] == first_keys(es, n - 1)[k],
        n > 0 ==> first_keys(es, n - 1).len() <= first_keys(es, n).len(),
    decreases n,
{
    if n > 0 {
        lemma_first_keys_distinct(es, n - 1);
    }
}

fn find_gathered(gs: &Vec<Gathered>, id: &String, pkg: &String) -> (r: Option<usize>)
    ensures
        match r {
            Some(k) => k < gs.len() && gs@[k as int].id@ == id@ && gs@[k as int].pkg@ == pkg@,
            None => forall|k: int| 0 <= k < gs.len() ==> !(gs@[k].id@ == id@ && gs@[k].pkg@ == pkg@),
        },
{
    let mut k: usize = 0;
    while k < gs.len()
        invariant
            k <= gs.len(),
            forall|j: int| 0 <= j < k ==> !(gs@[j].id@ == id@ && gs@[j].pkg@ == pkg@),
        decreases gs.len() - k,
    {
        if gs[k].id == *id && gs[k].pkg == *pkg {
            return Some(k);
        }
        k = k + 1;
    }
    None
}

/// Gathers the records by (CVE id, package), keeping for each the record of
/// the most preferred source (see [`kept`]).
fn gather(es: &Vec<RawCveEntry>) -> (gs: Vec<Gathered>)
    ensures
        gathered_ok(es@, gs@, es@.len() as int),
{
    let mut gs: Vec<Gathered> = Vec::new();
    let mut n: usize = 0;
    while n < es.len()
        invariant
            n <= es.len(),
            gathered_ok(es@, gs@, n as int),
        decreases es.len() - n,
    {
        let e = &es[n];
        let ghost keys = first_keys(es@, n as int);
        let ghost key = (e.cve_id@, e.package_name@);
        let ghost old_gs = gs@;
        proof {
            lemma_first_keys_distinct(es@, n + 1);
        }
        match find_gathered(&gs, &e.cve_id, &e.package_name) {
            None => {
                proof {
                    assert(!keys.contains(key)) by {
                        if keys.contains(key) {
                            let k = choose|k: int| 0 <= k < keys.len() && keys[k] == key;
                            assert(gs@[k].id@ == keys[k].0);
                        }
                    }
                    lemma_kept_none(es@, key.0, key.1, n as int);
                }
                let none: Vec<RawVersionRange> = Vec::new();
                assert(raw_range_views(none@) =~= Seq::<RawRangeView>::empty());
                let ranges = concat_ranges(&e.affected_versions, none);
                assert(raw_range_views(ranges@) =~= raw_range_views(e.affected_versions@));
                gs.push(Gathered { id: e.cve_id.clone(), pkg: e.package_name.clone(), best: n, ranges });
            },
            Some(k) => {
                proof {
                    assert(gs@[k as int].id@ == keys[k as int].0);
                }
                let best = gs[k].best;
                if source_rank(e.source) < source_rank(es[best].source) {
                    let mut taken = Vec::new();
                    std::mem::swap(&mut taken, &mut gs[k].ranges);
                    let ranges = concat_ranges(&e.affected_versions, taken);
                    let id = e.cve_id.clone();
                    let pkg = e.package_name.clone();
                    gs.set(k, Gathered { id, pkg, best: n, ranges });
                }
            },
        }
        n = n + 1;
        proof {
            let keys2 = first_keys(es@, n as int);
            assert forall|k: int|
                0 <= k < gs@.len() implies (#[trigger] gs@[k]).id@ == keys2[k].0 && gs@[k].pkg@ == keys2[k].1
                    && kept(es@, keys2[k].0, keys2[k].1, n as int) == Some((gs@[k].best as int, raw_range_views(gs@[k].ranges@)))
                    && gs@[k].best < n by {
                if k < old_gs.len() {
                    assert(keys2[k] == keys[k]);
                    if keys[k] != key {
                        assert(gs@[k] == old_gs[k]);
                    }
                } else {
                    assert(keys2[k] == key);
                }
            }
        }
    }
    gs
}

/// The database records made of the raw records, one per (CVE id,
/// package) in order of first appearance (see [`kept`] and
/// [`merged_entry`]).
pub open spec fn merged_ok(es: Seq<RawCveEntry>, out: Seq<CveEntry>) -> bool {
    let keys = first_keys(es, es.len() as int);
    &&& out.len() == keys.len()
    &&& forall|k: int|
        0 <= k < out.len() ==> {
            let p = kept(es, keys[k].0, keys[k].1, es.len() as int)->0;
            entry_view(#[trigger] out[k]) == merged_entry(es[p.0], p.1)
        }
}

proof fn lemma_kept_best(es: Seq<RawCveEntry>, id: Seq<char>, pkg: Seq<char>, n: int)
    requires
        0 <= n <= es.len(),
    ensures
        kept(es, id, pkg, n) is None ==> forall|m: int|
            0 <= m < n ==> !((#[trigger] es[m]).cve_id@ == id && es[m].package_name@ == pkg),
        kept(es, id, pkg, n) matches Some(p) ==> {
            &&& 0 <= p.0 < n
            &&& es[p.0].cve_id@ == id
            &&& es[p.0].package_name@ == pkg
            &&& forall|m: int|
                0 <= m < n && (#[trigger] es[m]).cve_id@ == id && es[m].package_name@ == pkg ==> rank(
                    es[p.0].source,
                ) <= rank(es[m].source)
        },
    decreases n,
{
    if n > 0 {
        lemma_kept_best(es, id, pkg, n - 1);
        let prev = kept(es, id, pkg, n - 1);
        let e = es[n - 1];
        if e.cve_id@ == id && e.package_name@ == pkg {
            match prev {
                None => {},
                Some(q) => {
                    if rank(e.source) < rank(es[q.0].source) {
                        assert forall|m: int|
                            0 <= m < n && (#[trigger] es[m]).cve_id@ == id && es[m].package_name@ == pkg implies rank(
                                e.source,
                            ) <= rank(es[m].source) by {
                            if m < n - 1 {
                                assert(rank(es[q.0].source) <= rank(es[m].source));
                            }
                        }
                    }
                },
            }
        }
    }
}

proof fn lemma_first_keys_cover(es: Seq<RawCveEntry>, n: int, m: int)
    requires
        0 <= m < n <= es.len(),
    ensures
        first_keys(es, n).contains((es[m].cve_id@, es[m].package_name@)),
    decreases n,
{
    let prev = first_keys(es, n - 1);
    let k = (es[n - 1].cve_id@, es[n - 1].package_name@);
    if m < n - 1 {
        lemma_first_keys_cover(es, n - 1, m);
        if !prev.contains(k) {
            let i = choose|i: int| 0 <= i < prev.len() && prev[i] == (es[m].cve_id@, es[m].package_name@);
            assert(prev.push(k)[i] == prev[i]);
        }
    } else if !prev.contains(k) {
        assert(prev.push(k)[prev.len() as int] == k);
    }
}

/// What a record of the merged database stands for: its key is the `k`-th
/// distinct key of the input, and it was taken from the record at `p`.
proof fn lemma_merged_record(es: Seq<RawCveEntry>, out: Seq<CveEntry>, k: int) -> (p: int)
    requires
        merged_ok(es, out),
        0 <= k < out.len(),
    ensures
        out[k].id@ == first_keys(es, es.len() as int)[k].0,
        out[k].package_name@ == first_keys(es, es.len() as int)[k].1,
        0 <= p < es.len(),
        es[p].cve_id@ == out[k].id@,
        es[p].package_name@ == out[k].package_name@,
        forall|m: int|
            0 <= m < es.len() && (#[trigger] es[m]).cve_id@ == out[k].id@ && es[m].package_name@
                == out[k].package_name@ ==> rank(es[p].source) <= rank(es[m].source),
{
    let n = es.len() as int;
    let keys = first_keys(es, n);
    assert(keys.contains(keys[k]));
    lemma_kept_none(es, keys[k].0, keys[k].1, n);
    lemma_kept_best(es, keys[k].0, keys[k].1, n);
    let q = kept(es, keys[k].0, keys[k].1, n)->0;
    assert(entry_view(out[k]) == merged_entry(es[q.0], q.1));
    q.0
}

/// The merged database holds at most one record for each (CVE id, package)
/// pair.
pub proof fn law_merge_keys_distinct(es: Seq<RawCveEntry>, out: Seq<CveEntry>)
    requires
        merged_ok(es, out),
    ensures
        forall|i: int, j: int|
            0 <= i < out.len() && 0 <= j < out.len() && i != j ==> !((#[trigger] out[i]).id@ == (#[trigger] out[j]).id@
                && out[i].package_name@ == out[j].package_name@),
{
    lemma_first_keys_distinct(es, es.len() as int);
    assert forall|i: int, j: int|
        0 <= i < out.len() && 0 <= j < out.len() && i != j implies !((#[trigger] out[i]).id@ == (#[trigger] out[j]).id@
            && out[i].package_name@ == out[j].package_name@) by {
        lemma_merged_record(es, out, i);
        lemma_merged_record(es, out, j);
    }
}

/// Every (CVE id, package) pair of the input has a record in the merged
/// database.
pub proof fn law_merge_covers_keys(es: Seq<RawCveEntry>, out: Seq<CveEntry>)
    requires
        merged_ok(es, out),
    ensures
        forall|m: int|
            0 <= m < es.len() ==> exists|k: int|
                0 <= k < out.len() && out[k].id@ == (#[trigger] es[m]).cve_id@ && out[k].package_name@
                    == es[m].package_name@,
{
    let keys = first_keys(es, es.len() as int);
    assert forall|m: int| 0 <= m < es.len() implies exists|k: int|
        0 <= k < out.len() && out[k].id@ == (#[trigger] es[m]).cve_id@ && out[k].package_name@
            == es[m].package_name@ by {
        lemma_first_keys_cover(es, es.len() as int, m);
        let k = choose|k: int| 0 <= k < keys.len() && keys[k] == (es[m].cve_id@, es[m].package_name@);
        lemma_merged_record(es, out, k);
    }
}

/// Each record of the merged database comes from an input record of its
/// (CVE id, package) pair whose source is preferred at least as much as that
/// of every other input record of the pair.
pub proof fn law_merge_prefers_best_source(es: Seq<RawCveEntry>, out: Seq<CveEntry>, k: int)
    requires
        merged_ok(es, out),
        0 <= k < out.len(),
    ensures
        exists|p: int|
            0 <= p < es.len() && (#[trigger] es[p]).cve_id@ == out[k].id@ && es[p].package_name@
                == out[k].package_name@ && forall|m: int|
                0 <= m < es.len() && (#[trigger] es[m]).cve_id@ == out[k].id@ && es[m].package_name@
                    == out[k].package_name@ ==> rank(es[p].source) <= rank(es[m].source),
{
    let p = lemma_merged_record(es, out, k);
    assert(es[p].cve_id@ == out[k].id@);
}

fn to_db_range(r: &RawVersionRange) -> (v: VersionRange)
    ensures
        v.start@ == db_range(r@).start,
        v.end@ == db_range(r@).end,
        v.start_including == r.start_including,
        v.end_including == r.end_including,
{
    VersionRange {
        start: match &r.start {
            Some(s) => s.clone(),
            None => String::new(),
        },
        end: match &r.end {
            Some(s) => s.clone(),
            None => String::new(),
        },
        start_including: r.start_including,
        end_including: r.end_including,
    }
}

/// The database record made of raw record `e` with ranges `rs`.
fn make_entry(e: &RawCveEntry, rs: &Vec<RawVersionRange>) -> (r: CveEntry)
    ensures
        entry_view(r) == merged_entry(*e, raw_range_views(rs@)),
{
    let cpes = get_cpe_for_service(e.package_name.as_str());
    let mut cpe_match: Vec<String> = Vec::new();
    let mut i: usize = 0;
    while i < cpes.len()
        invariant
            i <= cpes.len(),
            cpe_match@.len() == i,
            forall|k: int| 0 <= k < i ==> (#[trigger] cpe_match@[k])@ == cpes@[k]@,
        decreases cpes.len() - i,
    {
        cpe_match.push(cpes[i].to_owned());
        i = i + 1;
    }
    assert(cpe_match@.map_values(|s: String| s@) =~= str_views(cpes@));
    let mut ranges: Vec<VersionRange> = Vec::new();
    let mut j: usize = 0;
    while j < rs.len()
        invariant
            j <= rs.len(),
            ranges@.len() == j,
            forall|k: int|
                0 <= k < j ==> (#[trigger] ranges@[k]).start@ == db_range(rs@[k]@).start
                    && ranges@[k].end@ == db_range(rs@[k]@).end && ranges@[k].start_including
                    == rs@[k].start_including && ranges@[k].end_including == rs@[k].end_including,
        decreases rs.len() - j,
    {
        ranges.push(to_db_range(&rs[j]));
        j = j + 1;
    }
    let r = CveEntry {
        id: e.cve_id.clone(),
        package_name: e.package_name.clone(),
        description: e.description.clone(),
        cvss_score: e.cvss_score,
        severity: CveSeverity::from_cvss_tenths(e.cvss_score),
        cpe_match,
        affected_versions: ranges,
        fixed_version: clone_opt(&e.fixed_version),
        advisory_url: clone_opt(&e.advisory_url),
    };
    assert(entry_view(r).affected_versions =~= raw_range_views(rs@).map_values(
        |x: RawRangeView| db_range(x),
    ));
    r
}

/// Merges the records of all sources into one database: one record per
/// (CVE id, package), in order of first appearance, taken from the most
/// preferred source that gave it and holding the ranges of every source
/// that was preferred in turn (see [`kept`]).
pub fn merge_all_sources(entries: Vec<RawCveEntry>) -> (db: CveDatabase)
    ensures
        merged_ok(entries@, db.entries@),
        db.total_count == db.entries@.len() as u32,
        db.updated@.len() == 0,
{
    let gs = gather(&entries);
    let ghost keys = first_keys(entries@, entries@.len() as int);
    let mut out: Vec<CveEntry> = Vec::new();
    let mut k: usize = 0;
    while k < gs.len()
        invariant
            k <= gs.len(),
            gathered_ok(entries@, gs@, entries@.len() as int),
            keys == first_keys(entries@, entries@.len() as int),
            out@.len() == k,
            forall|m: int|
                0 <= m < k ==> {
                    let p = kept(entries@, keys[m].0, keys[m].1, entries@.len() as int)->0;
                    entry_view(#[trigger] out@[m]) == merged_entry(entries@[p.0], p.1)
                },
        decreases gs.len() - k,
    {
        let g = &gs[k];
        proof {
            assert(gs@[k as int].best < entries@.len());
        }
        out.push(make_entry(&entries[g.best], &g.ranges));
        k = k + 1;
    }
    let total = out.len() as u32;
    CveDatabase { entries: out, updated: String::new(), total_count: total }
}


// ---------------------------------------------------------------------------
// NVD configurations
// ---------------------------------------------------------------------------

/// One `cpeMatch` entry of an NVD configuration node.
#[derive(Debug, Clone, PartialEq)]
pub struct NvdCpeMatch {
    pub vulnerable: bool,
    pub criteria: String,
    pub version_start_including: Option<String>,
    pub version_start_excluding: Option<String>,
    pub version_end_including: Option<String>,
    pub version_end_excluding: Option<String>,
}

/// A node of an NVD configuration.
#[derive(Debug, Clone, PartialEq)]
pub struct NvdNode {
    pub cpe_match: Vec<NvdCpeMatch>,
}

/// An NVD configuration: its nodes and its nested configurations.
#[derive(Debug)]
pub struct NvdConfig {
    pub nodes: Vec<NvdNode>,
    pub configurations: Vec<NvdConfig>,
}

/// Position of the last ':' in `s`.
pub open spec fn last_colon(s: Seq<char>) -> Option<int>
    decreases s.len(),
{
    if s.len() == 0 {
        None
    } else if s.last() == ':' {
        Some(s.len() - 1)
    } else {
        last_colon(s.drop_last())
    }
}

/// What a criterion must start with to match `cpe`: `cpe` up to and
/// including its last ':', or all of it when it has none.
pub open spec fn cpe_stem(cpe: Seq<char>) -> Seq<char> {
    match last_colon(cpe) {
        Some(i) => cpe.take(i + 1),
        None => cpe,
    }
}

/// A bound from its inclusive and exclusive forms: the inclusive one wins.
pub open spec fn bound_of(inc: Option<String>, exc: Option<String>) -> (Option<Seq<char>>, bool) {
    match inc {
        Some(s) => (Some(s@), true),
        None => match exc {
            Some(s) => (Some(s@), false),
            None => (None, true),
        },
    }
}

/// Whether a match gives a range for `stem`: it is vulnerable, its criterion
/// starts with `stem`, and it has at least one bound.
pub open spec fn gives_range(m: NvdCpeMatch, stem: Seq<char>) -> bool {
    &&& m.vulnerable
    &&& has_prefix(m.criteria@, stem)
    &&& (m.version_start_including is Some || m.version_start_excluding is Some
        || m.version_end_including is Some || m.version_end_excluding is Some)
}

/// The range a match gives.
pub open spec fn range_of_match(m: NvdCpeMatch) -> RawRangeView {
    let s = bound_of(m.version_start_including, m.version_start_excluding);
    let e = bound_of(m.version_end_including, m.version_end_excluding);
    RawRangeView { start: s.0, end: e.0, start_including: s.1, end_including: e.1 }
}

/// The ranges that the matches give, in order.
pub open spec fn match_ranges(ms: Seq<NvdCpeMatch>, stem: Seq<char>) -> Seq<RawRangeView>
    decreases ms.len(),
{
    if ms.len() == 0 {
        Seq::empty()
    } else if gives_range(ms.last(), stem) {
        match_ranges(ms.drop_last(), stem).push(range_of_match(ms.last()))
    } else {
        match_ranges(ms.drop_last(), stem)
    }
}

/// The ranges that the nodes give, node by node.
pub open spec fn node_ranges(ns: Seq<NvdNode>, stem: Seq<char>) -> Seq<RawRangeView>
    decreases ns.len(),
{
    if ns.len() == 0 {
        Seq::empty()
    } else {
        node_ranges(ns.drop_last(), stem) + match_ranges(ns.last().cpe_match@, stem)
    }
}

/// The ranges of a configuration: those of its nodes, then those of each
/// nested configuration in turn.
pub open spec fn config_ranges(c: NvdConfig, stem: Seq<char>) -> Seq<RawRangeView>
    decreases c, 1int,
{
    node_ranges(c.nodes@, stem) + child_ranges(c.configurations@, stem, c.configurations@.len() as int)
}

/// The ranges of the first `n` configurations of `cs`.
pub open spec fn child_ranges(cs: Seq<NvdConfig>, stem: Seq<char>, n: int) -> Seq<RawRangeView>
    decreases cs, 0int, n,
{
    if n <= 0 || n > cs.len() {
        Seq::empty()
    } else {
        child_ranges(cs, stem, n - 1) + config_ranges(cs[n - 1], stem)
    }
}

/// The stem of `cpe` (see [`cpe_stem`]).
fn stem_of(cpe: &Vec<char>) -> (r: Vec<char>)
    ensures
        r@ == cpe_stem(cpe@),
{
    let mut i: usize = cpe.len();
    assert(cpe@.take(i as int) =~= cpe@);
    while i > 0
        invariant
            i <= cpe.len(),
            last_colon(cpe@) == last_colon(cpe@.take(i as int)),
        decreases i,
    {
        assert(cpe@.take(i as int).drop_last() =~= cpe@.take(i - 1));
        if cpe[i - 1] == ':' {
            let mut r: Vec<char> = Vec::new();
            let mut k: usize = 0;
            while k < i
                invariant
                    k <= i <= cpe.len(),
                    r@ == cpe@.take(k as int),
                decreases i - k,
            {
                assert(cpe@.take(k + 1) =~= cpe@.take(k as int).push(cpe@[k as int]));
                r.push(cpe[k]);
                k = k + 1;
            }
            return r;
        }
        i = i - 1;
    }
    assert(cpe@.take(0) =~= Seq::<char>::empty());
    let mut r: Vec<char> = Vec::new();
    let mut k: usize = 0;
    while k < cpe.len()
        invariant
            k <= cpe.len(),
            r@ == cpe@.take(k as int),
        decreases cpe.len() - k,
    {
        assert(cpe@.take(k + 1) =~= cpe@.take(k as int).push(cpe@[k as int]));
        r.push(cpe[k]);
        k = k + 1;
    }
    assert(cpe@.take(cpe@.len() as int) =~= cpe@);
    r
}

/// The bound given by an inclusive and an exclusive form.
fn bound_from(inc: &Option<String>, exc: &Option<String>) -> (r: (Option<String>, bool))
    ensures
        (opt_view(r.0), r.1) == bound_of(*inc, *exc),
{
    match inc {
        Some(s) => (Some(s.clone()), true),
        None => match exc {
            Some(s) => (Some(s.clone()), false),
            None => (None, true),
        },
    }
}

proof fn lemma_views_push(a: Seq<RawVersionRange>, x: RawVersionRange)
    ensures
        raw_range_views(a.push(x)) == raw_range_views(a).push(x@),
{
    assert(raw_range_views(a.push(x)) =~= raw_range_views(a).push(x@));
}

/// Appends the ranges that the matches give for `stem`.
fn push_match_ranges(ms: &Vec<NvdCpeMatch>, stem: &Vec<char>, ranges: &mut Vec<RawVersionRange>)
    ensures
        raw_range_views(final(ranges)@) == raw_range_views(old(ranges)@) + match_ranges(ms@, stem@),
{
    let ghost start = raw_range_views(ranges@);
    let mut i: usize = 0;
    while i < ms.len()
        invariant
            i <= ms.len(),
            raw_range_views(ranges@) == start + match_ranges(ms@.take(i as int), stem@),
        decreases ms.len() - i,
    {
        let m = &ms[i];
        assert(ms@.take(i + 1).drop_last() =~= ms@.take(i as int));
        assert(ms@.take(i + 1).last() == ms@[i as int]);
        let crit = chars_of(m.criteria.as_str());
        let bounded = m.version_start_including.is_some() || m.version_start_excluding.is_some()
            || m.version_end_including.is_some() || m.version_end_excluding.is_some();
        if m.vulnerable && starts_with(&crit, stem) && bounded {
            let (start_b, start_inc) = bound_from(&m.version_start_including, &m.version_start_excluding);
            let (end_b, end_inc) = bound_from(&m.version_end_including, &m.version_end_excluding);
            let r = RawVersionRange {
                start: start_b,
                end: end_b,
                start_including: start_inc,
                end_including: end_inc,
            };
            proof {
                lemma_views_push(ranges@, r);
            }
            ranges.push(r);
            assert(r@ == range_of_match(ms@[i as int]));
        }
        i = i + 1;
    }
    assert(ms@.take(ms@.len() as int) =~= ms@);
}

/// Appends the ranges that the nodes give for `stem`.
fn push_node_ranges(ns: &Vec<NvdNode>, stem: &Vec<char>, ranges: &mut Vec<RawVersionRange>)
    ensures
        raw_range_views(final(ranges)@) == raw_range_views(old(ranges)@) + node_ranges(ns@, stem@),
{
    let ghost start = raw_range_views(ranges@);
    let mut i: usize = 0;
    while i < ns.len()
        invariant
            i <= ns.len(),
            raw_range_views(ranges@) == start + node_ranges(ns@.take(i as int), stem@),
        decreases ns.len() - i,
    {
        assert(ns@.take(i + 1).drop_last() =~= ns@.take(i as int));
        assert(ns@.take(i + 1).last() == ns@[i as int]);
        push_match_ranges(&ns[i].cpe_match, stem, ranges);
        assert(start + node_ranges(ns@.take(i + 1), stem@) =~= start + node_ranges(ns@.take(i as int), stem@)
            + match_ranges(ns@[i as int].cpe_match@, stem@));
        i = i + 1;
    }
    assert(ns@.take(ns@.len() as int) =~= ns@);
}

/// Appends to `ranges` the version ranges of `config` and of its nested
/// configurations whose criteria match `target_cpe` (see [`config_ranges`]).
pub fn collect_cpe_ranges(config: &NvdConfig, target_cpe: &str, ranges: &mut Vec<RawVersionRange>)
    ensures
        raw_range_views(final(ranges)@) == raw_range_views(old(ranges)@)
            + config_ranges(*config, cpe_stem(target_cpe@)),
    decreases config,
{
    let ghost stem_v = cpe_stem(target_cpe@);
    let cpe = chars_of(target_cpe);
    let stem = stem_of(&cpe);
    let ghost start = raw_range_views(ranges@);
    push_node_ranges(&config.nodes, &stem, ranges);
    let ghost mid = raw_range_views(ranges@);
    let mut i: usize = 0;
    while i < config.configurations.len()
        invariant
            i <= config.configurations.len(),
            stem@ == stem_v,
            stem_v == cpe_stem(target_cpe@),
            raw_range_views(ranges@) == mid + child_ranges(config.configurations@, stem_v, i as int),
        decreases config.configurations.len() - i,
    {
        let ghost before = raw_range_views(ranges@);
        collect_cpe_ranges(&config.configurations[i], target_cpe, ranges);
        assert(mid + child_ranges(config.configurations@, stem_v, i + 1) =~= before
            + config_ranges(config.configurations@[i as int], stem_v));
        i = i + 1;
    }
    assert(raw_range_views(ranges@) =~= start + config_ranges(*config, stem_v));
}


// ---------------------------------------------------------------------------
// Stored vulnerability rows
// ---------------------------------------------------------------------------

/// Mathematical form of a [`VulnerabilityFix`].
pub struct FixView {
    pub cve_id: Seq<char>,
    pub package_name: Seq<char>,
    pub affected_version_start: Option<Seq<char>>,
    pub affected_version_end: Option<Seq<char>>,
    pub fixed_version: Option<Seq<char>>,
    pub advisory_url: Option<Seq<char>>,
    pub severity: Seq<char>,
    pub cvss_score: u32,
    pub description: Seq<char>,
}

pub open spec fn fix_view(f: VulnerabilityFix) -> FixView {
    FixView {
        cve_id: f.cve_id@,
        package_name: f.package_name@,
        affected_version_start: opt_view(f.affected_version_start),
        affected_version_end: opt_view(f.affected_version_end),
        fixed_version: opt_view(f.fixed_version),
        advisory_url: opt_view(f.advisory_url),
        severity: f.severity@,
        cvss_score: f.cvss_score,
        description: f.description@,
    }
}

/// The database record of a stored row: one inclusive range from its bounds
/// (a missing bound is empty), the severity of its score and the CPE names
/// of its package.
pub open spec fn fix_entry(f: VulnerabilityFix) -> EntryView {
    EntryView {
        id: f.cve_id@,
        package_name: f.package_name@,
        description: f.description@,
        cvss_score: f.cvss_score,
        severity: severity_of(f.cvss_score),
        cpe_match: cpes_for_lower(lowercase_of(f.package_name@)),
        affected_versions: seq![
            RangeView {
                start: or_empty(opt_view(f.affected_version_start)),
                end: or_empty(opt_view(f.affected_version_end)),
                start_including: true,
                end_including: true,
            },
        ],
        fixed_version: opt_view(f.fixed_version),
        advisory_url: opt_view(f.advisory_url),
    }
}

/// `s`, or nothing when it is empty.
pub open spec fn non_empty(s: Seq<char>) -> Option<Seq<char>> {
    if s.len() == 0 {
        None
    } else {
        Some(s)
    }
}

/// The stored row of a database record: the bounds of its first range (an
/// empty bound, or no range, is missing) and the name of its severity.
pub open spec fn entry_fix(e: EntryView) -> FixView {
    FixView {
        cve_id: e.id,
        package_name: e.package_name,
        affected_version_start: if e.affected_versions.len() > 0 {
            non_empty(e.affected_versions[0].start)
        } else {
            None
        },
        affected_version_end: if e.affected_versions.len() > 0 {
            non_empty(e.affected_versions[0].end)
        } else {
            None
        },
        fixed_version: e.fixed_version,
        advisory_url: e.advisory_url,
        severity: severity_name(e.severity),
        cvss_score: e.cvss_score,
        description: e.description,
    }
}

/// The current time in RFC 3339 form (`chrono::Utc::now().to_rfc3339()`).
/// Nothing is claimed of the text: it depends on the clock.
#[verifier::external_body]
fn now_rfc3339() -> (r: String) {
    chrono::Utc::now().to_rfc3339()
}

fn cpe_strings(package: &str) -> (r: Vec<String>)
    ensures
        r@.map_values(|s: String| s@) == cpes_for_lower(lowercase_of(package@)),
{
    let cpes = get_cpe_for_service(package);
    let mut out: Vec<String> = Vec::new();
    let mut i: usize = 0;
    while i < cpes.len()
        invariant
            i <= cpes.len(),
            out@.len() == i,
            forall|k: int| 0 <= k < i ==> (#[trigger] out@[k])@ == cpes@[k]@,
        decreases cpes.len() - i,
    {
        out.push(cpes[i].to_owned());
        i = i + 1;
    }
    assert(out@.map_values(|s: String| s@) =~= str_views(cpes@));
    out
}

fn or_empty_string(o: &Option<String>) -> (r: String)
    ensures
        r@ == or_empty(opt_view(*o)),
{
    match o {
        Some(s) => s.clone(),
        None => String::new(),
    }
}

/// The database made of stored rows, stamped `updated` (see [`fix_entry`]).
pub fn fixes_to_database_at(fixes: &[VulnerabilityFix], updated: String) -> (db: CveDatabase)
    ensures
        db.entries@.len() == fixes@.len(),
        forall|i: int| 0 <= i < fixes@.len() ==> entry_view(#[trigger] db.entries@[i]) == fix_entry(fixes@[i]),
        db.updated@ == updated@,
        db.total_count == db.entries@.len() as u32,
{
    let mut entries: Vec<CveEntry> = Vec::new();
    let mut i: usize = 0;
    while i < fixes.len()
        invariant
            i <= fixes.len(),
            entries@.len() == i,
            forall|k: int| 0 <= k < i ==> entry_view(#[trigger] entries@[k]) == fix_entry(fixes@[k]),
        decreases fixes.len() - i,
    {
        let f = &fixes[i];
        let range = VersionRange {
            start: or_empty_string(&f.affected_version_start),
            end: or_empty_string(&f.affected_version_end),
            start_including: true,
            end_including: true,
        };
        let e = CveEntry {
            id: f.cve_id.clone(),
            package_name: f.package_name.clone(),
            description: f.description.clone(),
            cvss_score: f.cvss_score,
            severity: CveSeverity::from_cvss_tenths(f.cvss_score),
            cpe_match: cpe_strings(f.package_name.as_str()),
            affected_versions: vec![range],
            fixed_version: clone_opt(&f.fixed_version),
            advisory_url: clone_opt(&f.advisory_url),
        };
        assert(entry_view(e).affected_versions =~= fix_entry(*f).affected_versions);
        entries.push(e);
        i = i + 1;
    }
    let total = entries.len() as u32;
    CveDatabase { entries, updated, total_count: total }
}

/// The database made of stored rows, stamped with the current time (see
/// [`fixes_to_database_at`]).
pub fn fixes_to_database(fixes: &[VulnerabilityFix]) -> (db: CveDatabase)
    ensures
        db.entries@.len() == fixes@.len(),
        forall|i: int| 0 <= i < fixes@.len() ==> entry_view(#[trigger] db.entries@[i]) == fix_entry(fixes@[i]),
        db.total_count == db.entries@.len() as u32,
{
    fixes_to_database_at(fixes, now_rfc3339())
}

fn non_empty_string(s: &String) -> (r: Option<String>)
    ensures
        opt_view(r) == non_empty(s@),
{
    if s.as_str().unicode_len() == 0 {
        None
    } else {
        Some(s.clone())
    }
}

/// The stored rows of a database (see [`entry_fix`]).
pub fn database_to_fixes(db: &CveDatabase) -> (r: Vec<VulnerabilityFix>)
    ensures
        r@.len() == db.entries@.len(),
        forall|i: int| 0 <= i < r@.len() ==> fix_view(#[trigger] r@[i]) == entry_fix(entry_view(db.entries@[i])),
{
    let mut out: Vec<VulnerabilityFix> = Vec::new();
    let mut i: usize = 0;
    while i < db.entries.len()
        invariant
            i <= db.entries.len(),
            out@.len() == i,
            forall|k: int| 0 <= k < i ==> fix_view(#[trigger] out@[k]) == entry_fix(entry_view(db.entries@[k])),
        decreases db.entries.len() - i,
    {
        let e = &db.entries[i];
        let (start, end) = if e.affected_versions.len() > 0 {
            (non_empty_string(&e.affected_versions[0].start), non_empty_string(&e.affected_versions[0].end))
        } else {
            (None, None)
        };
        let f = VulnerabilityFix {
            cve_id: e.id.clone(),
            package_name: e.package_name.clone(),
            affected_version_start: start,
            affected_version_end: end,
            fixed_version: clone_opt(&e.fixed_version),
            advisory_url: clone_opt(&e.advisory_url),
            severity: e.severity.as_str().to_owned(),
            cvss_score: e.cvss_score,
            description: e.description.clone(),
        };
        out.push(f);
        i = i + 1;
    }
    out
}

/// Storing the record made of a stored row gives the row back, when its
/// bounds are not empty texts and its severity is the name of the severity
/// of its score.
pub proof fn law_fix_roundtrip(f: VulnerabilityFix)
    requires
        opt_view(f.affected_version_start) != Some(Seq::<char>::empty()),
        opt_view(f.affected_version_end) != Some(Seq::<char>::empty()),
        f.severity@ == severity_name(severity_of(f.cvss_score)),
    ensures
        entry_fix(fix_entry(f)) == fix_view(f),
{
    let e = fix_entry(f);
    assert(e.affected_versions.len() == 1);
    if let Some(x) = opt_view(f.affected_version_start) {
        if x.len() == 0 {
            assert(x =~= Seq::<char>::empty());
        }
    }
    if let Some(x) = opt_view(f.affected_version_end) {
        if x.len() == 0 {
            assert(x =~= Seq::<char>::empty());
        }
    }
    assert(non_empty(e.affected_versions[0].start) == opt_view(f.affected_version_start));
    assert(non_empty(e.affected_versions[0].end) == opt_view(f.affected_version_end));
}

} // verus!
