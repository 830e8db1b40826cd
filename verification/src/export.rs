//! Scan reports: HTML, plain text and CSV renderings of scan records.

use vstd::prelude::*;

use crate::history::{ScanRecord, StoredHostInfo, StoredPortInfo};
use crate::text::{
    chars_of, decimal, has_char, lowercase_of, opt_view, push_char, push_chars, push_decimal, push_str,
    string_of, text_eq, to_lowercase,
};

verus! {

// ---------------------------------------------------------------------------
// Escaping
// ---------------------------------------------------------------------------

/// The HTML form of one character.
pub open spec fn html_char(c: char) -> Seq<char> {
    if c == '&' {
        "&amp;"@
    } else if c == '<' {
        "&lt;"@
    } else if c == '>' {
        "&gt;"@
    } else if c == '"' {
        "&quot;"@
    } else if c == '\'' {
        "&#x27;"@
    } else {
        seq![c]
    }
}

/// `s` with the HTML special characters replaced by entities.
pub open spec fn html_escaped(s: Seq<char>) -> Seq<char>
    decreases s.len(),
{
    if s.len() == 0 {
        Seq::empty()
    } else {
        html_escaped(s.drop_last()) + html_char(s.last())
    }
}

/// Escapes the HTML special characters (&, <, >, ", ').
pub fn html_escape(s: &str) -> (r: String)
    ensures
        r@ == html_escaped(s@),
{
    let cs = chars_of(s);
    let mut r = String::new();
    let mut i: usize = 0;
    while i < cs.len()
        invariant
            i <= cs.len(),
            cs@ == s@,
            r@ == html_escaped(cs@.take(i as int)),
        decreases cs.len() - i,
    {
        assert(cs@.take(i + 1).drop_last() =~= cs@.take(i as int));
        let c = cs[i];
        if c == '&' {
            push_str(&mut r, "&amp;");
        } else if c == '<' {
            push_str(&mut r, "&lt;");
        } else if c == '>' {
            push_str(&mut r, "&gt;");
        } else if c == '"' {
            push_str(&mut r, "&quot;");
        } else if c == '\'' {
            push_str(&mut r, "&#x27;");
        } else {
            push_char(&mut r, c);
        }
        i = i + 1;
    }
    assert(cs@.take(i as int) =~= cs@);
    r
}

/// No angle bracket or quote survives HTML escaping: the escaped text can
/// open no tag and close no attribute.
pub proof fn law_html_escape_is_inert(s: Seq<char>)
    ensures
        forall|i: int|
            0 <= i < html_escaped(s).len() ==> #[trigger] html_escaped(s)[i] != '<' && html_escaped(s)[i]
                != '>' && html_escaped(s)[i] != '"' && html_escaped(s)[i] != '\'',
    decreases s.len(),
{
    reveal_strlit("&amp;");
    reveal_strlit("&lt;");
    reveal_strlit("&gt;");
    reveal_strlit("&quot;");
    reveal_strlit("&#x27;");
    if s.len() > 0 {
        law_html_escape_is_inert(s.drop_last());
        let a = html_escaped(s.drop_last());
        let b = html_char(s.last());
        assert forall|i: int| 0 <= i < (a + b).len() implies #[trigger] (a + b)[i] != '<' && (a + b)[i] != '>'
            && (a + b)[i] != '"' && (a + b)[i] != '\'' by {
            if i >= a.len() {
                assert((a + b)[i] == b[i - a.len()]);
            } else {
                assert((a + b)[i] == a[i]);
            }
        }
        assert(html_escaped(s) == a + b);
    }
}

/// `s` with each double quote doubled.
pub open spec fn quotes_doubled(s: Seq<char>) -> Seq<char>
    decreases s.len(),
{
    if s.len() == 0 {
        Seq::empty()
    } else {
        quotes_doubled(s.drop_last()) + if s.last() == '"' {
            seq!['"', '"']
        } else {
            seq![s.last()]
        }
    }
}

/// A CSV field: quoted, with its quotes doubled, when it holds a comma, a
/// double quote or a line feed; unchanged otherwise.
pub open spec fn csv_field(s: Seq<char>) -> Seq<char> {
    if has_char(s, ',') || has_char(s, '"') || has_char(s, '\n') {
        seq!['"'] + quotes_doubled(s) + seq!['"']
    } else {
        s
    }
}

/// `s` with each pair of double quotes read as one, from the front.
pub open spec fn quotes_undoubled(s: Seq<char>) -> Seq<char>
    decreases s.len(),
{
    if s.len() == 0 {
        Seq::empty()
    } else if s.len() >= 2 && s[0] == '"' && s[1] == '"' {
        seq!['"'] + quotes_undoubled(s.skip(2))
    } else {
        seq![s[0]] + quotes_undoubled(s.skip(1))
    }
}

/// How a CSV reader takes one field: a quoted field loses its quotes and has
/// its doubled quotes read as one; any other field is taken as it stands.
pub open spec fn csv_read(f: Seq<char>) -> Seq<char> {
    if f.len() >= 2 && f[0] == '"' && f.last() == '"' {
        quotes_undoubled(f.subrange(1, f.len() - 1))
    } else {
        f
    }
}

proof fn lemma_quotes_doubled_concat(a: Seq<char>, b: Seq<char>)
    ensures
        quotes_doubled(a + b) == quotes_doubled(a) + quotes_doubled(b),
    decreases b.len(),
{
    if b.len() == 0 {
        assert(a + b =~= a);
    } else {
        lemma_quotes_doubled_concat(a, b.drop_last());
        assert((a + b).drop_last() =~= a + b.drop_last());
        assert((a + b).last() == b.last());
    }
}

proof fn lemma_undouble_doubled(s: Seq<char>)
    ensures
        quotes_undoubled(quotes_doubled(s)) == s,
    decreases s.len(),
{
    if s.len() > 0 {
        let c = s[0];
        let t = s.skip(1);
        assert(s =~= seq![c] + t);
        lemma_quotes_doubled_concat(seq![c], t);
        assert(seq![c].drop_last() =~= Seq::<char>::empty());
        assert(seq![c].last() == c);
        assert(quotes_doubled(Seq::<char>::empty()) =~= Seq::<char>::empty());
        lemma_undouble_doubled(t);
        let d = quotes_doubled(s);
        if c == '"' {
            assert(quotes_doubled(seq![c]) =~= seq!['"', '"']);
            assert(d =~= seq!['"', '"'] + quotes_doubled(t));
            assert(d.skip(2) =~= quotes_doubled(t));
        } else {
            assert(quotes_doubled(seq![c]) =~= seq![c]);
            assert(d =~= seq![c] + quotes_doubled(t));
            assert(d.skip(1) =~= quotes_doubled(t));
        }
    }
}

/// A CSV reader takes back from an escaped field exactly the text that was
/// escaped.
pub proof fn law_csv_field_reads_back(s: Seq<char>)
    ensures
        csv_read(csv_field(s)) == s,
{
    let f = csv_field(s);
    if has_char(s, ',') || has_char(s, '"') || has_char(s, '\n') {
        lemma_undouble_doubled(s);
        assert(f.subrange(1, f.len() - 1) =~= quotes_doubled(s));
    } else if s.len() >= 2 && s[0] == '"' {
        assert(has_char(s, '"'));
    }
}

/// Escapes a CSV field (see [`csv_field`]).
pub fn csv_escape(value: &str) -> (r: String)
    ensures
        r@ == csv_field(value@),
{
    let cs = chars_of(value);
    if !(crate::text::contains_char(&cs, ',') || crate::text::contains_char(&cs, '"')
        || crate::text::contains_char(&cs, '\n')) {
        return string_of(&cs);
    }
    let mut r = String::new();
    push_char(&mut r, '"');
    let ghost start = r@;
    let mut i: usize = 0;
    while i < cs.len()
        invariant
            i <= cs.len(),
            start == seq!['"'],
            r@ == start + quotes_doubled(cs@.take(i as int)),
        decreases cs.len() - i,
    {
        assert(cs@.take(i + 1).drop_last() =~= cs@.take(i as int));
        if cs[i] == '"' {
            push_char(&mut r, '"');
            push_char(&mut r, '"');
        } else {
            push_char(&mut r, cs[i]);
        }
        i = i + 1;
        assert(r@ =~= start + quotes_doubled(cs@.take(i as int)));
    }
    assert(cs@.take(i as int) =~= cs@);
    push_char(&mut r, '"');
    assert(r@ =~= seq!['"'] + quotes_doubled(value@) + seq!['"']);
    r
}

/// The texts joined with `sep` between them.
pub open spec fn joined(xs: Seq<Seq<char>>, sep: Seq<char>) -> Seq<char>
    decreases xs.len(),
{
    if xs.len() == 0 {
        Seq::empty()
    } else if xs.len() == 1 {
        xs[0]
    } else {
        joined(xs.drop_last(), sep) + sep + xs.last()
    }
}

/// Appends the strings of `xs` joined with `sep`.
pub(crate) fn push_joined(s: &mut String, xs: &Vec<String>, sep: &str)
    ensures
        final(s)@ == old(s)@ + joined(xs@.map_values(|x: String| x@), sep@),
{
    let ghost start = s@;
    let ghost xv = xs@.map_values(|x: String| x@);
    let mut i: usize = 0;
    while i < xs.len()
        invariant
            i <= xs.len(),
            xv == xs@.map_values(|x: String| x@),
            s@ == start + joined(xv.take(i as int), sep@),
        decreases xs.len() - i,
    {
        assert(xv.take(i + 1).drop_last() =~= xv.take(i as int));
        if i > 0 {
            push_str(s, sep);
        }
        push_str(s, xs[i].as_str());
        i = i + 1;
        proof {
            if i == 1 {
                assert(xv.take(1) =~= seq![xv[0]]);
                assert(joined(Seq::<Seq<char>>::empty(), sep@) =~= Seq::<char>::empty());
            }
        }
        assert(s@ =~= start + joined(xv.take(i as int), sep@));
    }
    assert(xv.take(i as int) =~= xv);
}

// ---------------------------------------------------------------------------
// Formats
// ---------------------------------------------------------------------------

/// Report formats.
#[derive(Debug, Clone, Copy, PartialEq, Eq, Structural)]
pub enum ExportFormat {
    Html,
    Json,
    Txt,
    Csv,
    Zip,
}

/// The format named by a lower-case text.
pub open spec fn format_of_lower(l: Seq<char>) -> Option<ExportFormat> {
    if l == seq!['h', 't', 'm', 'l'] {
        Some(ExportFormat::Html)
    } else if l == seq!['j', 's', 'o', 'n'] {
        Some(ExportFormat::Json)
    } else if l == seq!['t', 'x', 't'] || l == seq!['t', 'e', 'x', 't'] {
        Some(ExportFormat::Txt)
    } else if l == seq!['c', 's', 'v'] {
        Some(ExportFormat::Csv)
    } else if l == seq!['z', 'i', 'p'] {
        Some(ExportFormat::Zip)
    } else {
        None
    }
}

impl ExportFormat {
    /// The format named by a lower-case text (see [`format_of_lower`]).
    pub fn from_lowercase(l: &str) -> (r: Option<Self>)
        ensures
            r == format_of_lower(l@),
    {
        let c = chars_of(l);
        if text_eq(&c, &vec!['h', 't', 'm', 'l']) {
            Some(ExportFormat::Html)
        } else if text_eq(&c, &vec!['j', 's', 'o', 'n']) {
            Some(ExportFormat::Json)
        } else if text_eq(&c, &vec!['t', 'x', 't']) || text_eq(&c, &vec!['t', 'e', 'x', 't']) {
            Some(ExportFormat::Txt)
        } else if text_eq(&c, &vec!['c', 's', 'v']) {
            Some(ExportFormat::Csv)
        } else if text_eq(&c, &vec!['z', 'i', 'p']) {
            Some(ExportFormat::Zip)
        } else {
            None
        }
    }

    /// The format named by `s`, in any case.
    pub fn from_str(s: &str) -> (r: Option<Self>)
        ensures
            r == format_of_lower(lowercase_of(s@)),
    {
        let l = to_lowercase(s);
        Self::from_lowercase(l.as_str())
    }

    /// The file extension of the format (without dot).
    pub fn extension(&self) -> (r: &'static str)
        ensures
            r@ == match self {
                ExportFormat::Html => "html"@,
                ExportFormat::Json => "json"@,
                ExportFormat::Txt => "txt"@,
                ExportFormat::Csv => "csv"@,
                ExportFormat::Zip => "zip"@,
            },
    {
        match self {
            ExportFormat::Html => "html",
            ExportFormat::Json => "json",
            ExportFormat::Txt => "txt",
            ExportFormat::Csv => "csv",
            ExportFormat::Zip => "zip",
        }
    }
}

// ---------------------------------------------------------------------------
// File names
// ---------------------------------------------------------------------------

/// What `char::is_alphanumeric` says of a character (Unicode alphabetic or
/// numeric).
pub uninterp spec fn alphanumeric(c: char) -> bool;

/// `char::is_alphanumeric`. Its result is named: the Unicode tables are
/// not restated here.
#[verifier::external_body]
fn is_alphanumeric(c: char) -> (r: bool)
    ensures
        r == alphanumeric(c),
{
    c.is_alphanumeric()
}

/// A file name made of `s`: characters other than alphanumerics, '-', '_'
/// and '.' become '_'.
pub open spec fn safe_file_name(s: Seq<char>) -> Seq<char> {
    s.map_values(|c: char| if alphanumeric(c) || c == '-' || c == '_' || c == '.' { c } else { '_' })
}

/// Makes a string safe as a file name (see [`safe_file_name`]).
pub fn sanitize_filename(s: &str) -> (r: String)
    ensures
        r@ == safe_file_name(s@),
{
    let cs = chars_of(s);
    let mut out: Vec<char> = Vec::new();
    let mut i: usize = 0;
    while i < cs.len()
        invariant
            i <= cs.len(),
            cs@ == s@,
            out@ == safe_file_name(cs@.take(i as int)),
        decreases cs.len() - i,
    {
        let c = cs[i];
        if is_alphanumeric(c) || c == '-' || c == '_' || c == '.' {
            out.push(c);
        } else {
            out.push('_');
        }
        i = i + 1;
        assert(out@ =~= safe_file_name(cs@.take(i as int)));
    }
    assert(cs@.take(i as int) =~= cs@);
    string_of(&out)
}

// ---------------------------------------------------------------------------
// Pieces of the reports
// ---------------------------------------------------------------------------

pub const HTML_REPORT_HEAD: &'static str = "<!DOCTYPE html>\n<html lang=\"ru\">\n<head><meta charset=\"UTF-8\"><title>APLOMADO Scan Report</title>\n<style>\nbody { font-family: 'Segoe UI', sans-serif; background: #0d1117; color: #c9d1d9; margin: 0; padding: 20px; }\nh1 { color: #58a6ff; }\ntable { border-collapse: collapse; width: 100%; }\nth, td { text-align: left; padding: 8px; border-bottom: 1px solid #30363d; }\nth { color: #8b949e; }\n.alive { color: #3fb950; }\n.dead { color: #f85149; }\n</style></head><body>\n<h1>APLOMADO Scan Report</h1>\n<p>Date: ";

pub const HTML_REPORT_TABLE: &'static str = "s</p>\n<table>\n<thead><tr><th>IP</th><th>Hostname</th><th>OS</th><th>Status</th><th>Ports</th></tr></thead>\n<tbody>";

pub const HTML_MULTI_EMPTY: &'static str = "<!DOCTYPE html>\n<html lang=\"en\">\n<head><meta charset=\"UTF-8\"><title>APLOMADO Scan Reports</title>\n<style>\nbody { font-family: 'Segoe UI', sans-serif; background: #0d1117; color: #c9d1d9; margin: 0; padding: 20px; }\nh1 { color: #58a6ff; }\n</style></head><body>\n<h1>APLOMADO Scan Reports</h1>\n<p>No records found.</p>\n</body></html>";

pub const HTML_MULTI_HEAD: &'static str = "<!DOCTYPE html>\n<html lang=\"en\">\n<head><meta charset=\"UTF-8\"><title>APLOMADO Scan Reports</title>\n<style>\nbody { font-family: 'Segoe UI', sans-serif; background: #0d1117; color: #c9d1d9; margin: 0; padding: 20px; }\nh1 { color: #58a6ff; }\ndetails { background: #161b22; border: 1px solid #30363d; border-radius: 6px; padding: 12px; margin-bottom: 12px; }\nsummary { cursor: pointer; font-weight: bold; color: #58a6ff; }\ntable { border-collapse: collapse; width: 100%; margin-top: 8px; }\nth, td { text-align: left; padding: 6px 8px; border-bottom: 1px solid #30363d; }\nth { color: #8b949e; }\n.alive { color: #3fb950; }\n.dead { color: #f85149; }\n</style></head><body>\n<h1>APLOMADO Scan Reports (";

pub const HTML_MULTI_HEAD_END: &'static str = " records)</h1>\n";

pub const HTML_MULTI_TABLE: &'static str = "</p>\n<table>\n<thead><tr><th>IP</th><th>Hostname</th><th>OS</th><th>Status</th><th>Ports</th></tr></thead>\n<tbody>";

/// A text, or the dash the reports show for a missing one.
pub open spec fn or_dash(o: Option<String>) -> Seq<char> {
    match o {
        Some(s) => s@,
        None => "\u{2014}"@,
    }
}

pub open spec fn or_text(o: Option<String>, d: Seq<char>) -> Seq<char> {
    match o {
        Some(s) => s@,
        None => d,
    }
}

/// "port:service" for each port, joined with ", ".
pub open spec fn port_list(ps: Seq<StoredPortInfo>) -> Seq<char>
    decreases ps.len(),
{
    if ps.len() == 0 {
        Seq::empty()
    } else if ps.len() == 1 {
        decimal(ps[0].port as nat) + seq![':'] + ps[0].service@
    } else {
        port_list(ps.drop_last()) + seq![',', ' '] + decimal(ps.last().port as nat) + seq![':']
            + ps.last().service@
    }
}

/// The entry of one port in a host's port column: "port:service".
pub open spec fn port_entry(p: StoredPortInfo) -> Seq<char> {
    decimal(p.port as nat) + seq![':'] + p.service@
}

proof fn lemma_joined_holds(xs: Seq<Seq<char>>, sep: Seq<char>, k: int)
    requires
        0 <= k < xs.len(),
    ensures
        crate::text::contains_seq(joined(xs, sep), xs[k]),
    decreases xs.len(),
{
    let j = joined(xs, sep);
    if xs.len() == 1 {
        assert(j.subrange(0, xs[0].len() as int) =~= xs[0]);
        assert(crate::text::occurs_at(j, xs[k], 0));
    } else {
        let p = joined(xs.drop_last(), sep);
        assert(j == p + sep + xs.last());
        if k == xs.len() - 1 {
            let i: int = (p.len() + sep.len()) as int;
            assert(j.subrange(i, i + xs[k].len()) =~= xs[k]);
            assert(crate::text::occurs_at(j, xs[k], i));
        } else {
            lemma_joined_holds(xs.drop_last(), sep, k);
            let i = choose|i: int| crate::text::occurs_at(p, xs.drop_last()[k], i);
            assert(j.subrange(i, i + xs[k].len()) =~= p.subrange(i, i + xs[k].len()));
            assert(crate::text::occurs_at(j, xs[k], i));
        }
    }
}

/// The port column of a host lists every port of the host, in order, as
/// "port:service", separated by ", ": it is the entries of all the ports
/// joined, and the entry of each port occurs in it.
pub proof fn law_port_column_lists_every_port(ps: Seq<StoredPortInfo>)
    ensures
        port_list(ps) == joined(ps.map_values(|p: StoredPortInfo| port_entry(p)), seq![',', ' ']),
        forall|k: int| 0 <= k < ps.len() ==> crate::text::contains_seq(port_list(ps), #[trigger] port_entry(ps[k])),
    decreases ps.len(),
{
    let es = ps.map_values(|p: StoredPortInfo| port_entry(p));
    if ps.len() > 1 {
        law_port_column_lists_every_port(ps.drop_last());
        assert(es.drop_last() =~= ps.drop_last().map_values(|p: StoredPortInfo| port_entry(p)));
    }
    if ps.len() == 0 {
        assert(es.len() == 0);
    }
    assert(port_list(ps) == joined(es, seq![',', ' ']));
    assert forall|k: int| 0 <= k < ps.len() implies crate::text::contains_seq(port_list(ps), #[trigger] port_entry(ps[k])) by {
        lemma_joined_holds(es, seq![',', ' '], k);
    }
}

fn port_list_text(ps: &Vec<StoredPortInfo>) -> (r: String)
    ensures
        r@ == port_list(ps@),
{
    let mut s = String::new();
    let mut i: usize = 0;
    while i < ps.len()
        invariant
            i <= ps.len(),
            s@ == port_list(ps@.take(i as int)),
        decreases ps.len() - i,
    {
        assert(ps@.take(i + 1).drop_last() =~= ps@.take(i as int));
        let ghost before = s@;
        if i > 0 {
            push_char(&mut s, ',');
            push_char(&mut s, ' ');
        }
        push_decimal(&mut s, ps[i].port as u64);
        push_char(&mut s, ':');
        push_str(&mut s, ps[i].service.as_str());
        i = i + 1;
        proof {
            if i == 1 {
                assert(ps@.take(1)[0] == ps@[0]);
                assert(s@ =~= port_list(ps@.take(1)));
            } else {
                assert(s@ =~= port_list(ps@.take(i as int)));
            }
        }
    }
    assert(ps@.take(i as int) =~= ps@);
    s
}

fn dash_or(o: &Option<String>) -> (r: String)
    ensures
        r@ == or_dash(*o),
{
    match o {
        Some(s) => s.clone(),
        None => "\u{2014}".to_owned(),
    }
}

/// `pre` followed by the table row of host `h` of an HTML report (the
/// multi-record form marks the status cell with a class).
pub open spec fn html_row_after(pre: Seq<char>, h: StoredHostInfo, multi: bool) -> Seq<char> {
    let cells = pre + "<tr><td>"@ + html_escaped(h.ip@) + "</td><td>"@ + html_escaped(
        or_dash(h.hostname),
    ) + "</td><td>"@ + html_escaped(or_dash(h.os_guess));
    let status = if multi {
        cells + "</td><td class=\""@ + (if h.alive {
            "alive"@
        } else {
            "dead"@
        }) + "\">"@
    } else {
        cells + "</td><td "@ + (if h.alive {
            "class=\"alive\""@
        } else {
            "class=\"dead\""@
        }) + ">"@
    };
    status + (if h.alive {
        "Alive"@
    } else {
        "Down"@
    }) + "</td><td>"@ + html_escaped(port_list(h.ports@)) + "</td></tr>"@
}

fn push_html_row(s: &mut String, h: &StoredHostInfo, multi: bool)
    ensures
        final(s)@ == html_row_after(old(s)@, *h, multi),
{
    push_str(s, "<tr><td>");
    push_str(s, html_escape(h.ip.as_str()).as_str());
    push_str(s, "</td><td>");
    push_str(s, html_escape(dash_or(&h.hostname).as_str()).as_str());
    push_str(s, "</td><td>");
    push_str(s, html_escape(dash_or(&h.os_guess).as_str()).as_str());
    if multi {
        push_str(s, "</td><td class=\"");
        push_str(s, if h.alive { "alive" } else { "dead" });
        push_str(s, "\">");
    } else {
        push_str(s, "</td><td ");
        push_str(s, if h.alive { "class=\"alive\"" } else { "class=\"dead\"" });
        push_str(s, ">");
    }
    push_str(s, if h.alive { "Alive" } else { "Down" });
    push_str(s, "</td><td>");
    push_str(s, html_escape(port_list_text(&h.ports).as_str()).as_str());
    push_str(s, "</td></tr>");
}

/// `pre` followed by the rows of the hosts.
pub open spec fn html_rows_after(pre: Seq<char>, hs: Seq<StoredHostInfo>, multi: bool) -> Seq<char>
    decreases hs.len(),
{
    if hs.len() == 0 {
        pre
    } else {
        html_row_after(html_rows_after(pre, hs.drop_last(), multi), hs.last(), multi)
    }
}

fn push_html_rows(s: &mut String, hs: &Vec<StoredHostInfo>, multi: bool)
    ensures
        final(s)@ == html_rows_after(old(s)@, hs@, multi),
{
    let ghost start = s@;
    let mut i: usize = 0;
    while i < hs.len()
        invariant
            i <= hs.len(),
            s@ == html_rows_after(start, hs@.take(i as int), multi),
        decreases hs.len() - i,
    {
        assert(hs@.take(i + 1).drop_last() =~= hs@.take(i as int));
        push_html_row(s, &hs[i], multi);
        i = i + 1;
    }
    assert(hs@.take(i as int) =~= hs@);
}

pub open spec fn text_views(v: Seq<String>) -> Seq<Seq<char>> {
    v.map_values(|x: String| x@)
}

// ---------------------------------------------------------------------------
// HTML
// ---------------------------------------------------------------------------

/// `pre` followed by the HTML report of one record.
pub open spec fn html_report_after(pre: Seq<char>, r: ScanRecord) -> Seq<char> {
    let head = pre + HTML_REPORT_HEAD@ + r.timestamp@ + " | Targets: "@ + joined(
        text_views(r.targets@),
        ", "@,
    ) + " | Hosts: "@ + decimal(r.hosts_total as nat) + " | Alive: "@ + decimal(
        r.hosts_alive as nat,
    ) + " | Duration: "@ + decimal(r.duration_secs as nat) + HTML_REPORT_TABLE@;
    html_rows_after(head, r.hosts@, false) + "</tbody></table></body></html>"@
}

/// The HTML report of one record.
pub open spec fn html_report(r: ScanRecord) -> Seq<char> {
    html_report_after(Seq::empty(), r)
}

/// Renders the HTML report of one record.
pub fn export_html(record: &ScanRecord) -> (r: String)
    ensures
        r@ == html_report(*record),
{
    let mut s = String::new();
    push_str(&mut s, HTML_REPORT_HEAD);
    push_str(&mut s, record.timestamp.as_str());
    push_str(&mut s, " | Targets: ");
    push_joined(&mut s, &record.targets, ", ");
    push_str(&mut s, " | Hosts: ");
    push_decimal(&mut s, record.hosts_total as u64);
    push_str(&mut s, " | Alive: ");
    push_decimal(&mut s, record.hosts_alive as u64);
    push_str(&mut s, " | Duration: ");
    push_decimal(&mut s, record.duration_secs);
    push_str(&mut s, HTML_REPORT_TABLE);
    push_html_rows(&mut s, &record.hosts, false);
    push_str(&mut s, "</tbody></table></body></html>");
    s
}

/// `pre` followed by the collapsible section of record number `i` (from
/// zero) of a multi-record HTML report.
pub open spec fn html_section_after(pre: Seq<char>, r: ScanRecord, i: nat) -> Seq<char> {
    let open = pre + "<details"@ + (if i == 0 {
        " open"@
    } else {
        ""@
    });
    let head = open + "><summary>Scan #"@ + decimal(i + 1) + ": "@ + r.label@ + " \u{2014} "@
        + decimal(r.targets@.len()) + " targets, "@ + decimal(r.hosts_total as nat) + " hosts, "@
        + decimal(r.hosts_alive as nat) + " alive, "@ + decimal(r.duration_secs as nat)
        + "s</summary>\n<p><strong>ID:</strong> "@ + r.id@ + " | <strong>Date:</strong> "@
        + r.timestamp@ + HTML_MULTI_TABLE@;
    html_rows_after(head, r.hosts@, true) + "</tbody></table></details>\n"@
}

/// `pre` followed by the sections of the records.
pub open spec fn html_sections_after(pre: Seq<char>, rs: Seq<ScanRecord>) -> Seq<char>
    decreases rs.len(),
{
    if rs.len() == 0 {
        pre
    } else {
        html_section_after(html_sections_after(pre, rs.drop_last()), rs.last(), (rs.len() - 1) as nat)
    }
}

/// The HTML report of several records: a note when there are none, else
/// one collapsible section per record, the first one open.
pub open spec fn html_multi_report(rs: Seq<ScanRecord>) -> Seq<char> {
    if rs.len() == 0 {
        HTML_MULTI_EMPTY@
    } else {
        html_sections_after(
            Seq::empty() + HTML_MULTI_HEAD@ + decimal(rs.len()) + HTML_MULTI_HEAD_END@,
            rs,
        ) + "</body></html>"@
    }
}

/// Renders the HTML report of several records.
pub fn export_html_multi(records: &[ScanRecord]) -> (r: String)
    requires
        records@.len() < u64::MAX,
    ensures
        r@ == html_multi_report(records@),
{
    if records.len() == 0 {
        return HTML_MULTI_EMPTY.to_owned();
    }
    let mut s = String::new();
    push_str(&mut s, HTML_MULTI_HEAD);
    push_decimal(&mut s, records.len() as u64);
    push_str(&mut s, HTML_MULTI_HEAD_END);
    let ghost start = s@;
    let mut i: usize = 0;
    while i < records.len()
        invariant
            i <= records.len() < u64::MAX,
            s@ == html_sections_after(start, records@.take(i as int)),
        decreases records.len() - i,
    {
        assert(records@.take(i + 1).drop_last() =~= records@.take(i as int));
        let rec = &records[i];
        push_str(&mut s, "<details");
        if i == 0 {
            push_str(&mut s, " open");
        } else {
            push_str(&mut s, "");
        }
        push_str(&mut s, "><summary>Scan #");
        push_decimal(&mut s, (i as u64) + 1);
        push_str(&mut s, ": ");
        push_str(&mut s, rec.label.as_str());
        push_str(&mut s, " \u{2014} ");
        push_decimal(&mut s, rec.targets.len() as u64);
        push_str(&mut s, " targets, ");
        push_decimal(&mut s, rec.hosts_total as u64);
        push_str(&mut s, " hosts, ");
        push_decimal(&mut s, rec.hosts_alive as u64);
        push_str(&mut s, " alive, ");
        push_decimal(&mut s, rec.duration_secs);
        push_str(&mut s, "s</summary>\n<p><strong>ID:</strong> ");
        push_str(&mut s, rec.id.as_str());
        push_str(&mut s, " | <strong>Date:</strong> ");
        push_str(&mut s, rec.timestamp.as_str());
        push_str(&mut s, HTML_MULTI_TABLE);
        push_html_rows(&mut s, &rec.hosts, true);
        push_str(&mut s, "</tbody></table></details>\n");
        i = i + 1;
    }
    assert(records@.take(i as int) =~= records@);
    push_str(&mut s, "</body></html>");
    s
}

// ---------------------------------------------------------------------------
// Plain text
// ---------------------------------------------------------------------------

fn text_or<'a>(o: &'a Option<String>, d: &'static str) -> (r: &'a str)
    ensures
        r@ == or_text(*o, d@),
{
    match o {
        Some(s) => s.as_str(),
        None => d,
    }
}

/// `pre` followed by the line of a port in a text report.
pub open spec fn txt_port_after(pre: Seq<char>, p: StoredPortInfo) -> Seq<char> {
    pre + "    "@ + decimal(p.port as nat) + "/tcp   "@ + p.service@ + "  "@ + or_text(p.version, ""@)
        + "\n"@
}

/// `pre` followed by the lines of the ports.
pub open spec fn txt_ports_after(pre: Seq<char>, ps: Seq<StoredPortInfo>) -> Seq<char>
    decreases ps.len(),
{
    if ps.len() == 0 {
        pre
    } else {
        txt_port_after(txt_ports_after(pre, ps.drop_last()), ps.last())
    }
}

/// `pre` followed by the lines of a host in a text report.
pub open spec fn txt_host_after(pre: Seq<char>, h: StoredHostInfo) -> Seq<char> {
    let head = pre + "  "@ + h.ip@ + " ("@ + or_text(h.os_guess, "?"@) + ")"@ + (if h.alive {
        ""@
    } else {
        " \u{2014} DOWN"@
    }) + "\n"@;
    txt_ports_after(head, h.ports@) + "\n"@
}

/// `pre` followed by the lines of the hosts.
pub open spec fn txt_hosts_after(pre: Seq<char>, hs: Seq<StoredHostInfo>) -> Seq<char>
    decreases hs.len(),
{
    if hs.len() == 0 {
        pre
    } else {
        txt_host_after(txt_hosts_after(pre, hs.drop_last()), hs.last())
    }
}

/// `pre` followed by the text report of a record.
pub open spec fn txt_report_after(pre: Seq<char>, r: ScanRecord) -> Seq<char> {
    let head = pre + "APLOMADO Scan Report\n"@ + "Date: "@ + r.timestamp@ + "\n"@ + "Targets: "@
        + joined(text_views(r.targets@), ", "@) + "\n"@ + "Hosts found: "@ + decimal(
        r.hosts_found as nat,
    ) + "\n"@ + "Duration: "@ + decimal(r.duration_secs as nat) + "s\n\n"@;
    txt_hosts_after(head, r.hosts@)
}

/// The text report of one record.
pub open spec fn txt_report(r: ScanRecord) -> Seq<char> {
    txt_report_after(Seq::empty(), r)
}

fn push_txt_report(s: &mut String, record: &ScanRecord)
    ensures
        final(s)@ == txt_report_after(old(s)@, *record),
{
    push_str(s, "APLOMADO Scan Report\n");
    push_str(s, "Date: ");
    push_str(s, record.timestamp.as_str());
    push_str(s, "\n");
    push_str(s, "Targets: ");
    push_joined(s, &record.targets, ", ");
    push_str(s, "\n");
    push_str(s, "Hosts found: ");
    push_decimal(s, record.hosts_found as u64);
    push_str(s, "\n");
    push_str(s, "Duration: ");
    push_decimal(s, record.duration_secs);
    push_str(s, "s\n\n");
    let ghost head = s@;
    let mut i: usize = 0;
    while i < record.hosts.len()
        invariant
            i <= record.hosts.len(),
            s@ == txt_hosts_after(head, record.hosts@.take(i as int)),
        decreases record.hosts.len() - i,
    {
        assert(record.hosts@.take(i + 1).drop_last() =~= record.hosts@.take(i as int));
        let h = &record.hosts[i];
        push_str(s, "  ");
        push_str(s, h.ip.as_str());
        push_str(s, " (");
        push_str(s, text_or(&h.os_guess, "?"));
        push_str(s, ")");
        push_str(s, if h.alive { "" } else { " \u{2014} DOWN" });
        push_str(s, "\n");
        let ghost host_head = s@;
        let mut j: usize = 0;
        while j < h.ports.len()
            invariant
                j <= h.ports.len(),
                s@ == txt_ports_after(host_head, h.ports@.take(j as int)),
            decreases h.ports.len() - j,
        {
            assert(h.ports@.take(j + 1).drop_last() =~= h.ports@.take(j as int));
            let p = &h.ports[j];
            push_str(s, "    ");
            push_decimal(s, p.port as u64);
            push_str(s, "/tcp   ");
            push_str(s, p.service.as_str());
            push_str(s, "  ");
            push_str(s, text_or(&p.version, ""));
            push_str(s, "\n");
            j = j + 1;
        }
        assert(h.ports@.take(j as int) =~= h.ports@);
        push_str(s, "\n");
        i = i + 1;
    }
    assert(record.hosts@.take(i as int) =~= record.hosts@);
}

/// Renders the text report of one record.
pub fn export_txt(record: &ScanRecord) -> (r: String)
    ensures
        r@ == txt_report(*record),
{
    let mut s = String::new();
    push_txt_report(&mut s, record);
    s
}

/// `pre` followed by the text reports of the records, separated by a line
/// of dashes between blank lines.
pub open spec fn txt_reports_after(pre: Seq<char>, rs: Seq<ScanRecord>) -> Seq<char>
    decreases rs.len(),
{
    if rs.len() == 0 {
        pre
    } else {
        let p = txt_reports_after(pre, rs.drop_last());
        txt_report_after(
            if rs.len() > 1 {
                p + "\n\n---\n\n"@
            } else {
                p + ""@
            },
            rs.last(),
        )
    }
}

/// The text report of several records.
pub open spec fn txt_multi_report(rs: Seq<ScanRecord>) -> Seq<char> {
    if rs.len() == 0 {
        "APLOMADO Scan Reports\nNo records found.\n"@
    } else {
        txt_reports_after(Seq::empty(), rs)
    }
}

/// Renders the text report of several records.
pub fn export_txt_multi(records: &[ScanRecord]) -> (r: String)
    ensures
        r@ == txt_multi_report(records@),
{
    if records.len() == 0 {
        return "APLOMADO Scan Reports\nNo records found.\n".to_owned();
    }
    let mut s = String::new();
    let ghost start = s@;
    let mut i: usize = 0;
    while i < records.len()
        invariant
            i <= records.len(),
            s@ == txt_reports_after(start, records@.take(i as int)),
        decreases records.len() - i,
    {
        assert(records@.take(i + 1).drop_last() =~= records@.take(i as int));
        if i > 0 {
            push_str(&mut s, "\n\n---\n\n");
        } else {
            push_str(&mut s, "");
        }
        push_txt_report(&mut s, &records[i]);
        i = i + 1;
    }
    assert(records@.take(i as int) =~= records@);
    s
}

// ---------------------------------------------------------------------------
// CSV
// ---------------------------------------------------------------------------

pub const CSV_HEADER: &'static str = "scan_id,timestamp,target,ip,hostname,os,alive,port,protocol,state,service,version,cve_id,cve_severity,cve_cvss\n";

/// The fields shared by the rows of a host: scan id, timestamp, target,
/// address, host name, system and liveness.
pub open spec fn csv_host_fields(pre: Seq<char>, r: ScanRecord, t: Seq<char>, h: StoredHostInfo) -> Seq<char> {
    pre + r.id@ + ","@ + csv_field(r.timestamp@) + ","@ + csv_field(t) + ","@ + h.ip@ + ","@
        + csv_field(or_text(h.hostname, ""@)) + ","@ + csv_field(or_text(h.os_guess, ""@)) + ","@
        + (if h.alive {
        "true"@
    } else {
        "false"@
    })
}

/// `pre` followed by the rows of the ports of a host.
pub open spec fn csv_ports_after(
    pre: Seq<char>,
    r: ScanRecord,
    t: Seq<char>,
    h: StoredHostInfo,
    ps: Seq<StoredPortInfo>,
) -> Seq<char>
    decreases ps.len(),
{
    if ps.len() == 0 {
        pre
    } else {
        let p = ps.last();
        csv_host_fields(csv_ports_after(pre, r, t, h, ps.drop_last()), r, t, h) + ","@ + decimal(
            p.port as nat,
        ) + ","@ + "tcp"@ + ","@ + "open"@ + ","@ + csv_field(p.service@) + ","@ + csv_field(
            or_text(p.version, ""@),
        ) + ",,,\n"@
    }
}

/// `pre` followed by the rows of a host: one per port, or one with empty
/// port fields.
pub open spec fn csv_host_after(pre: Seq<char>, r: ScanRecord, t: Seq<char>, h: StoredHostInfo) -> Seq<char> {
    if h.ports@.len() == 0 {
        csv_host_fields(pre, r, t, h) + ",,,,,,,,\n"@
    } else {
        csv_ports_after(pre, r, t, h, h.ports@)
    }
}

pub open spec fn csv_hosts_after(pre: Seq<char>, r: ScanRecord, t: Seq<char>, hs: Seq<StoredHostInfo>) -> Seq<char>
    decreases hs.len(),
{
    if hs.len() == 0 {
        pre
    } else {
        csv_host_after(csv_hosts_after(pre, r, t, hs.drop_last()), r, t, hs.last())
    }
}

/// `pre` followed, for each target of `ts` in turn, by the rows of every
/// host of `r` with that target in the target column.
pub open spec fn csv_targets_after(pre: Seq<char>, r: ScanRecord, ts: Seq<String>) -> Seq<char>
    decreases ts.len(),
{
    if ts.len() == 0 {
        pre
    } else {
        csv_hosts_after(csv_targets_after(pre, r, ts.drop_last()), r, ts.last()@, r.hosts@)
    }
}

/// `pre` followed by the rows of record `r`: one set per target, or, for a
/// record without targets, one set with an empty target column.
pub open spec fn csv_record_after(pre: Seq<char>, r: ScanRecord) -> Seq<char> {
    if r.targets@.len() == 0 {
        csv_hosts_after(pre, r, Seq::empty(), r.hosts@)
    } else {
        csv_targets_after(pre, r, r.targets@)
    }
}

pub open spec fn csv_records_after(pre: Seq<char>, rs: Seq<ScanRecord>) -> Seq<char>
    decreases rs.len(),
{
    if rs.len() == 0 {
        pre
    } else {
        csv_record_after(csv_records_after(pre, rs.drop_last()), rs.last())
    }
}

/// The CSV report of several records: the header, then for each record,
/// each of its targets and each of its hosts, one row per port (or one row
/// with empty port fields for a host without ports). A record without
/// targets still gives the rows of its hosts, once, with an empty target
/// column.
pub open spec fn csv_report(rs: Seq<ScanRecord>) -> Seq<char> {
    csv_records_after(Seq::empty() + CSV_HEADER@, rs)
}

/// Appends the rows of every host of `rec` with target `t`.
fn push_csv_hosts(s: &mut String, rec: &ScanRecord, ts: &String, t: &String)
    requires
        ts@ == csv_field(rec.timestamp@),
    ensures
        final(s)@ == csv_hosts_after(old(s)@, *rec, t@, rec.hosts@),
{
    let ghost t_start = s@;
    let mut m: usize = 0;
    while m < rec.hosts.len()
        invariant
            m <= rec.hosts.len(),
            ts@ == csv_field(rec.timestamp@),
            s@ == csv_hosts_after(t_start, *rec, t@, rec.hosts@.take(m as int)),
        decreases rec.hosts.len() - m,
    {
        assert(rec.hosts@.take(m + 1).drop_last() =~= rec.hosts@.take(m as int));
        push_csv_host(s, rec, ts, t, &rec.hosts[m]);
        m = m + 1;
    }
    assert(rec.hosts@.take(m as int) =~= rec.hosts@);
}

fn push_csv_host_fields(s: &mut String, r: &ScanRecord, ts: &String, t: &String, h: &StoredHostInfo)
    requires
        ts@ == csv_field(r.timestamp@),
    ensures
        final(s)@ == csv_host_fields(old(s)@, *r, t@, *h),
{
    push_str(s, r.id.as_str());
    push_str(s, ",");
    push_str(s, ts.as_str());
    push_str(s, ",");
    push_str(s, csv_escape(t.as_str()).as_str());
    push_str(s, ",");
    push_str(s, h.ip.as_str());
    push_str(s, ",");
    push_str(s, csv_escape(text_or(&h.hostname, "")).as_str());
    push_str(s, ",");
    push_str(s, csv_escape(text_or(&h.os_guess, "")).as_str());
    push_str(s, ",");
    push_str(s, if h.alive { "true" } else { "false" });
}

fn push_csv_host(s: &mut String, r: &ScanRecord, ts: &String, t: &String, h: &StoredHostInfo)
    requires
        ts@ == csv_field(r.timestamp@),
    ensures
        final(s)@ == csv_host_after(old(s)@, *r, t@, *h),
{
    if h.ports.len() == 0 {
        push_csv_host_fields(s, r, ts, t, h);
        push_str(s, ",,,,,,,,\n");
        return;
    }
    let ghost start = s@;
    let mut j: usize = 0;
    while j < h.ports.len()
        invariant
            j <= h.ports.len(),
            ts@ == csv_field(r.timestamp@),
            s@ == csv_ports_after(start, *r, t@, *h, h.ports@.take(j as int)),
        decreases h.ports.len() - j,
    {
        assert(h.ports@.take(j + 1).drop_last() =~= h.ports@.take(j as int));
        let p = &h.ports[j];
        push_csv_host_fields(s, r, ts, t, h);
        push_str(s, ",");
        push_decimal(s, p.port as u64);
        push_str(s, ",");
        push_str(s, "tcp");
        push_str(s, ",");
        push_str(s, "open");
        push_str(s, ",");
        push_str(s, csv_escape(p.service.as_str()).as_str());
        push_str(s, ",");
        push_str(s, csv_escape(text_or(&p.version, "")).as_str());
        push_str(s, ",,,\n");
        j = j + 1;
    }
    assert(h.ports@.take(j as int) =~= h.ports@);
}

/// Renders the CSV report of several records (see [`csv_report`]).
pub fn export_csv(records: &[ScanRecord]) -> (r: String)
    ensures
        r@ == csv_report(records@),
{
    let mut s = String::new();
    push_str(&mut s, CSV_HEADER);
    let ghost start = s@;
    let mut i: usize = 0;
    while i < records.len()
        invariant
            i <= records.len(),
            s@ == csv_records_after(start, records@.take(i as int)),
        decreases records.len() - i,
    {
        assert(records@.take(i + 1).drop_last() =~= records@.take(i as int));
        let rec = &records[i];
        let ts = csv_escape(rec.timestamp.as_str());
        if rec.targets.len() == 0 {
            let t = String::new();
            push_csv_hosts(&mut s, rec, &ts, &t);
        } else {
            let ghost rec_start = s@;
            let mut k: usize = 0;
            while k < rec.targets.len()
                invariant
                    k <= rec.targets.len(),
                    ts@ == csv_field(rec.timestamp@),
                    s@ == csv_targets_after(rec_start, *rec, rec.targets@.take(k as int)),
                decreases rec.targets.len() - k,
            {
                assert(rec.targets@.take(k + 1).drop_last() =~= rec.targets@.take(k as int));
                push_csv_hosts(&mut s, rec, &ts, &rec.targets[k]);
                k = k + 1;
            }
            assert(rec.targets@.take(k as int) =~= rec.targets@);
        }
        i = i + 1;
    }
    assert(records@.take(i as int) =~= records@);
    s
}


// ---------------------------------------------------------------------------
// Single-record rendering
// ---------------------------------------------------------------------------

/// Renders one record in `format`: the HTML or text report; nothing for
/// JSON, which the caller serialises itself; an error for the formats that
/// need several records.
pub fn export_rendered(record: &ScanRecord, format: ExportFormat) -> (r: Result<Option<String>, &'static str>)
    ensures
        match format {
            ExportFormat::Html => r matches Ok(Some(t)) && t@ == html_report(*record),
            ExportFormat::Txt => r matches Ok(Some(t)) && t@ == txt_report(*record),
            ExportFormat::Json => r matches Ok(None),
            ExportFormat::Csv => r matches Err(m) && m@ == "CSV export requires multiple records; use save_reports instead"@,
            ExportFormat::Zip => r matches Err(m) && m@ == "ZIP export requires multiple records; use save_reports instead"@,
        },
{
    match format {
        ExportFormat::Html => Ok(Some(export_html(record))),
        ExportFormat::Txt => Ok(Some(export_txt(record))),
        ExportFormat::Json => Ok(None),
        ExportFormat::Csv => Err("CSV export requires multiple records; use save_reports instead"),
        ExportFormat::Zip => Err("ZIP export requires multiple records; use save_reports instead"),
    }
}

} // verus!
