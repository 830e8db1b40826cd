//! Protocol probes: the requests they send and how their replies are read.
//!
//! Connecting, sending and receiving are left to the caller; these
//! functions build the request bytes and decide what a reply reveals.

use vstd::prelude::*;

use crate::sanitize::{banner_result, sanitize_banner, sanitize_error_context, error_context_result};
use crate::sanitize::{lines, split_lines};
use crate::scanner::Duration;
use crate::text::{
    chars_from, chars_of, decimal, has_prefix, lossy_string, lowercase_of, opt_view, push_char, push_chars,
    push_decimal, push_str, starts_with, string_of, text_eq, to_lowercase, trim, trim_chars, utf8_lossy,
    utf8_string,
};
use crate::types::{ip_text, push_ip, IpAddress, IpValue};

verus! {

// ---------------------------------------------------------------------------
// Results
// ---------------------------------------------------------------------------

/// How a version was obtained.
#[derive(Debug, Clone, Copy, PartialEq, Eq)]
pub enum VersionConfidence {
    Exact,
    BannerExact,
    BannerRegex,
}

/// What a probe recognised.
#[derive(Debug, Clone, PartialEq)]
pub struct ProbeMatch {
    pub service: &'static str,
    pub version: Option<String>,
    pub confidence: VersionConfidence,
}

/// Why a probe chain recognised nothing.
#[derive(Debug, Clone, PartialEq)]
pub enum ProbeError {
    AllTimedOut,
    NoMatch,
    Failed { context: String },
}

/// The message of an error.
pub open spec fn probe_error_text(e: ProbeError) -> Seq<char> {
    match e {
        ProbeError::AllTimedOut => "all probes timed out"@,
        ProbeError::NoMatch => "no matching protocol found"@,
        ProbeError::Failed { context } => "probe failed: "@ + context@,
    }
}

impl ProbeError {
    /// The message of the error.
    pub fn message(&self) -> (r: String)
        ensures
            r@ == probe_error_text(*self),
    {
        match self {
            ProbeError::AllTimedOut => "all probes timed out".to_owned(),
            ProbeError::NoMatch => "no matching protocol found".to_owned(),
            ProbeError::Failed { context } => {
                let mut s = "probe failed: ".to_owned();
                push_str(&mut s, context.as_str());
                s
            },
        }
    }
}

/// A failure whose context is the sanitized form of `msg` (see
/// [`sanitize_error_context`]).
pub fn sanitized_error(msg: &str) -> (e: ProbeError)
    ensures
        e matches ProbeError::Failed { context } && context@ == error_context_result(
            vstd::utf8::encode_utf8(msg@),
        ),
{
    let clean = sanitize_error_context(msg.as_bytes());
    ProbeError::Failed { context: clean }
}

// ---------------------------------------------------------------------------
// DNS: version.bind CHAOS TXT
// ---------------------------------------------------------------------------

/// The query for `version.bind` in class CHAOS, type TXT (transaction
/// 0xAAAA, recursion desired).
pub open spec fn dns_query_bytes() -> Seq<u8> {
    seq![
        0xAAu8, 0xAA, 0x01, 0x00, 0x00, 0x01, 0x00, 0x00, 0x00, 0x00, 0x00, 0x00, 7, 0x76, 0x65,
        0x72, 0x73, 0x69, 0x6F, 0x6E, 4, 0x62, 0x69, 0x6E, 0x64, 0, 0x00, 0x10, 0x00, 0x03,
    ]
}

/// Builds the DNS query for `version.bind` CHAOS TXT.
pub fn build_dns_query() -> (r: Vec<u8>)
    ensures
        r@ == dns_query_bytes(),
{
    let r: Vec<u8> = vec![
        0xAA, 0xAA, 0x01, 0x00, 0x00, 0x01, 0x00, 0x00, 0x00, 0x00, 0x00, 0x00, 7, 0x76, 0x65,
        0x72, 0x73, 0x69, 0x6F, 0x6E, 4, 0x62, 0x69, 0x6E, 0x64, 0, 0x00, 0x10, 0x00, 0x03,
    ];
    assert(r@ =~= dns_query_bytes());
    r
}

/// Where the name starting at `off` ends: after its zero label, or after a
/// compression pointer (two top bits set); `None` when it runs past the
/// message.
pub open spec fn skip_name(msg: Seq<u8>, off: int) -> Option<int>
    decreases msg.len() - off,
{
    if off < 0 || off >= msg.len() {
        None
    } else if msg[off] == 0 {
        Some(off + 1)
    } else if msg[off] >= 0xC0 {
        Some(off + 2)
    } else if off + 1 + msg[off] > msg.len() {
        None
    } else {
        skip_name(msg, off + 1 + msg[off])
    }
}

/// Skips a DNS name (labels, or a compression pointer).
pub fn skip_dns_name(msg: &[u8], offset: usize) -> (r: Option<usize>)
    requires
        msg@.len() < usize::MAX,
    ensures
        match r {
            Some(e) => skip_name(msg@, offset as int) == Some(e as int) && e > offset,
            None => skip_name(msg@, offset as int) is None,
        },
{
    let mut off = offset;
    loop
        invariant
            msg@.len() < usize::MAX,
            offset <= off,
            skip_name(msg@, offset as int) == skip_name(msg@, off as int),
        decreases msg.len() - off,
    {
        if off >= msg.len() {
            return None;
        }
        let b = msg[off];
        if b == 0 {
            return Some(off + 1);
        }
        if b & 0xC0 == 0xC0 {
            assert(b & 0xC0 == 0xC0 ==> b >= 0xC0) by (bit_vector);
            return Some(off + 2);
        }
        assert(b & 0xC0 != 0xC0 ==> b < 0xC0) by (bit_vector);
        let len = b as usize;
        if len + 1 > msg.len() - off {
            return None;
        }
        off = off + 1 + len;
    }
}

pub open spec fn be16(a: u8, b: u8) -> int {
    a * 256 + b
}

/// The offset after `q` questions from `off`.
pub open spec fn skip_questions(msg: Seq<u8>, off: int, q: int) -> Option<int>
    decreases q,
{
    if q <= 0 {
        Some(off)
    } else {
        match skip_name(msg, off) {
            None => None,
            Some(e) => if e + 4 > msg.len() {
                None
            } else {
                skip_questions(msg, e + 4, q - 1)
            },
        }
    }
}

/// The text bytes of the first answer, among `a` answers from `off`, whose
/// record data starts with a non-empty string that fits.
pub open spec fn answer_text(msg: Seq<u8>, off: int, a: int) -> Option<Seq<u8>>
    decreases a,
{
    if a <= 0 {
        None
    } else {
        match skip_name(msg, off) {
            None => None,
            Some(e) => if e + 10 > msg.len() {
                None
            } else {
                let rdlen = be16(msg[e + 8], msg[e + 9]);
                let d = e + 10;
                if d + rdlen > msg.len() {
                    None
                } else if rdlen > 0 && msg[d] > 0 && 1 + msg[d] <= rdlen {
                    Some(msg.subrange(d + 1, d + 1 + msg[d]))
                } else {
                    answer_text(msg, d + rdlen, a - 1)
                }
            },
        }
    }
}

/// The bytes of the TXT text a DNS response carries.
pub open spec fn dns_txt(msg: Seq<u8>) -> Option<Seq<u8>> {
    if msg.len() < 12 {
        None
    } else {
        let qd = be16(msg[4], msg[5]);
        let an = be16(msg[6], msg[7]);
        if qd == 0 || an == 0 {
            None
        } else {
            match skip_questions(msg, 12, qd) {
                None => None,
                Some(off) => answer_text(msg, off, an),
            }
        }
    }
}

/// A reply to the `version.bind` query: its header with one question and one
/// answer, the question echoed, and one TXT answer whose name points back to
/// the question and whose data is the one string `txt`.
pub open spec fn version_reply(txt: Seq<u8>) -> Seq<u8> {
    seq![0xAAu8, 0xAA, 0x81, 0x80, 0x00, 0x01, 0x00, 0x01, 0x00, 0x00, 0x00, 0x00] + dns_query_bytes().subrange(
        12,
        30,
    ) + seq![0xC0u8, 0x0C, 0x00, 0x10, 0x00, 0x03, 0x00, 0x00, 0x00, 0x00, 0x00, (txt.len() + 1) as u8, txt.len() as u8]
        + txt
}

/// The text of a reply to the `version.bind` query is read back as it was
/// written.
pub proof fn law_version_reply_reads_back(txt: Seq<u8>)
    requires
        1 <= txt.len() <= 254,
    ensures
        dns_txt(version_reply(txt)) == Some(txt),
{
    let m = version_reply(txt);
    let q = dns_query_bytes();
    assert(m.len() == 43 + txt.len());
    assert forall|k: int| 12 <= k < 30 implies m[k] == q[k] by {}
    assert(m[12] == 7u8 && m[20] == 4u8 && m[25] == 0u8);
    assert(skip_name(m, 25) == Some(26int));
    assert(skip_name(m, 20) == Some(26int));
    assert(skip_name(m, 12) == Some(26int));
    assert(skip_questions(m, 30, 0) == Some(30int));
    assert(skip_questions(m, 12, 1) == Some(30int));
    assert(m[30] == 0xC0u8);
    assert(skip_name(m, 30) == Some(32int));
    assert(m[40] == 0u8 && m[41] == (txt.len() + 1) as u8 && m[42] == txt.len() as u8);
    assert(m.subrange(43, 43 + txt.len() as int) =~= txt);
    assert(answer_text(m, 30, 1) == Some(txt));
}

/// The TXT text bytes of a DNS response (see [`dns_txt`]).
pub fn dns_txt_bytes(msg: &[u8]) -> (r: Option<Vec<u8>>)
    requires
        msg@.len() < usize::MAX,
    ensures
        match r {
            Some(v) => dns_txt(msg@) == Some(v@),
            None => dns_txt(msg@) is None,
        },
{
    if msg.len() < 12 {
        return None;
    }
    let qd: u32 = (msg[4] as u32) * 256 + (msg[5] as u32);
    let an: u32 = (msg[6] as u32) * 256 + (msg[7] as u32);
    if qd == 0 || an == 0 {
        return None;
    }
    let mut off: usize = 12;
    let mut q: u32 = 0;
    while q < qd
        invariant
            q <= qd,
            12 <= off <= msg.len(),
            msg@.len() < usize::MAX,
            dns_txt(msg@) == match skip_questions(msg@, off as int, (qd - q) as int) {
                None => None,
                Some(o) => answer_text(msg@, o, an as int),
            },
        decreases qd - q,
    {
        let e = match skip_dns_name(msg, off) {
            Some(e) => e,
            None => return None,
        };
        if e > msg.len() || msg.len() - e < 4 {
            return None;
        }
        off = e + 4;
        q = q + 1;
    }
    let mut a: u32 = 0;
    while a < an
        invariant
            a <= an,
            off <= msg.len(),
            msg@.len() < usize::MAX,
            dns_txt(msg@) == answer_text(msg@, off as int, (an - a) as int),
        decreases an - a,
    {
        let e = match skip_dns_name(msg, off) {
            Some(e) => e,
            None => return None,
        };
        if e > msg.len() || msg.len() - e < 10 {
            return None;
        }
        let rdlen = (msg[e + 8] as usize) * 256 + (msg[e + 9] as usize);
        let d = e + 10;
        if rdlen > msg.len() - d {
            return None;
        }
        if rdlen > 0 {
            let t = msg[d] as usize;
            if t > 0 && 1 + t <= rdlen {
                let mut v: Vec<u8> = Vec::new();
                let mut k = d + 1;
                while k < d + 1 + t
                    invariant
                        d + 1 <= k <= d + 1 + t,
                        d + 1 + t <= msg.len(),
                        v@ == msg@.subrange(d + 1, k as int),
                    decreases d + 1 + t - k,
                {
                    v.push(msg[k]);
                    k = k + 1;
                    assert(v@ =~= msg@.subrange(d + 1, k as int));
                }
                return Some(v);
            }
        }
        off = d + rdlen;
        a = a + 1;
    }
    None
}

/// Whether a DNS reply announced over TCP with length `n` is read: from 12
/// bytes (a header) to 4096.
pub fn dns_length_ok(n: usize) -> (r: bool)
    ensures
        r == (12 <= n <= 4096),
{
    12 <= n && n <= 4096
}

/// Parses a DNS response and decodes the first TXT text it carries.
pub fn parse_dns_response(msg: &[u8]) -> (r: Option<String>)
    requires
        msg@.len() < usize::MAX,
    ensures
        match dns_txt(msg@) {
            Some(t) => opt_view(r) == Some(utf8_lossy(t)),
            None => r is None,
        },
{
    match dns_txt_bytes(msg) {
        Some(t) => Some(lossy_string(t.as_slice())),
        None => None,
    }
}

/// What a DNS probe concludes from the TXT text of the reply: the server
/// version, once sanitized (at most 256 bytes), else no match.
pub fn dns_probe_result(txt: Option<String>) -> (r: Result<ProbeMatch, ProbeError>)
    ensures
        match txt {
            Some(t) => match banner_result(vstd::utf8::encode_utf8(t@), 256) {
                Some(v) => r matches Ok(m) && m.service@ == "dns"@ && opt_view(m.version) == Some(v)
                    && m.confidence == VersionConfidence::BannerExact,
                None => r == Err::<ProbeMatch, ProbeError>(ProbeError::NoMatch),
            },
            None => r == Err::<ProbeMatch, ProbeError>(ProbeError::NoMatch),
        },
{
    match txt {
        Some(t) => match sanitize_banner(t.as_str().as_bytes(), 256) {
            Some(clean) => Ok(
                ProbeMatch {
                    service: "dns",
                    version: Some(clean),
                    confidence: VersionConfidence::BannerExact,
                },
            ),
            None => Err(ProbeError::NoMatch),
        },
        None => Err(ProbeError::NoMatch),
    }
}

// ---------------------------------------------------------------------------
// MongoDB: BSON documents
// ---------------------------------------------------------------------------

/// The little-endian value of four bytes.
pub open spec fn le32(b: Seq<u8>) -> int {
    b[0] + b[1] * 256 + b[2] * 65536 + b[3] * 16777216
}

/// The four little-endian bytes of `x` (below 2^32).
pub open spec fn le_bytes(x: int) -> Seq<u8> {
    seq![(x % 256) as u8, ((x / 256) % 256) as u8, ((x / 65536) % 256) as u8, ((x / 16777216) % 256) as u8]
}

/// The two's-complement form of `v` as an unsigned 32-bit number.
pub open spec fn unsigned(v: i32) -> int {
    if v < 0 {
        v + 4294967296
    } else {
        v as int
    }
}

/// Reading four little-endian bytes gives back the number they were written
/// from: the BSON int32 encoding loses nothing.
pub proof fn law_le32_roundtrip(x: int)
    requires
        0 <= x < 4294967296,
    ensures
        le32(le_bytes(x)) == x,
{
    let b0 = x % 256;
    let b1 = (x / 256) % 256;
    let b2 = (x / 65536) % 256;
    let b3 = (x / 16777216) % 256;
    assert(0 <= b0 < 256 && 0 <= b1 < 256 && 0 <= b2 < 256 && 0 <= b3 < 256) by (nonlinear_arith)
        requires
            0 <= x < 4294967296,
            b0 == x % 256,
            b1 == (x / 256) % 256,
            b2 == (x / 65536) % 256,
            b3 == (x / 16777216) % 256,
    ;
    assert(b0 + b1 * 256 + b2 * 65536 + b3 * 16777216 == x) by (nonlinear_arith)
        requires
            0 <= x < 4294967296,
            b0 == x % 256,
            b1 == (x / 256) % 256,
            b2 == (x / 65536) % 256,
            b3 == (x / 16777216) % 256,
    ;
    let s = le_bytes(x);
    assert(s[0] == b0 && s[1] == b1 && s[2] == b2 && s[3] == b3);
}

/// The little-endian value of the first four bytes.
pub fn u32_from_le_bytes(bytes: &[u8]) -> (r: u32)
    requires
        bytes@.len() >= 4,
    ensures
        r == le32(bytes@),
{
    (bytes[0] as u32) + (bytes[1] as u32) * 256 + (bytes[2] as u32) * 65536 + (bytes[3] as u32)
        * 16777216
}

fn le_bytes_of(x: u32) -> (r: Vec<u8>)
    ensures
        r@ == le_bytes(x as int),
{
    let r = vec![(x % 256) as u8, ((x / 256) % 256) as u8, ((x / 65536) % 256) as u8, ((x / 16777216) % 256) as u8];
    assert(r@ =~= le_bytes(x as int));
    r
}

fn unsigned_of(v: i32) -> (r: u32)
    ensures
        r == unsigned(v),
{
    if v < 0 {
        let w: i64 = (v as i64) + 4294967296;
        w as u32
    } else {
        v as u32
    }
}

/// The little-endian bytes of a BSON int32.
pub fn bson_int32(v: i32) -> (r: Vec<u8>)
    ensures
        r@ == le_bytes(unsigned(v)),
{
    le_bytes_of(unsigned_of(v))
}

/// The elements of a document of int32 fields: type 0x10, the name, a zero
/// byte, the value.
pub open spec fn bson_elements(fields: Seq<(&str, Vec<u8>)>) -> Seq<u8>
    decreases fields.len(),
{
    if fields.len() == 0 {
        Seq::empty()
    } else {
        bson_elements(fields.drop_last()) + seq![0x10u8] + vstd::utf8::encode_utf8(fields.last().0@)
            + seq![0u8] + fields.last().1@
    }
}

/// A document: its length (as an int32, little-endian), its elements, a
/// zero byte.
pub open spec fn bson_document(fields: Seq<(&str, Vec<u8>)>) -> Seq<u8> {
    let body = bson_elements(fields);
    let len = 4 + body.len() + 1;
    le_bytes((len % 4294967296) as int) + body + seq![0u8]
}

fn push_all(buf: &mut Vec<u8>, b: &[u8])
    ensures
        final(buf)@ == old(buf)@ + b@,
{
    let mut i: usize = 0;
    let ghost start = buf@;
    while i < b.len()
        invariant
            i <= b.len(),
            buf@ == start + b@.take(i as int),
        decreases b.len() - i,
    {
        buf.push(b[i]);
        i = i + 1;
        assert(buf@ =~= start + b@.take(i as int));
    }
    assert(b@.take(i as int) =~= b@);
}

/// Builds a BSON document of int32 fields.
pub fn bson_build_document(fields: &[(&str, Vec<u8>)]) -> (r: Vec<u8>)
    ensures
        r@ == bson_document(fields@),
{
    let mut body: Vec<u8> = Vec::new();
    let mut i: usize = 0;
    while i < fields.len()
        invariant
            i <= fields.len(),
            body@ == bson_elements(fields@.take(i as int)),
        decreases fields.len() - i,
    {
        assert(fields@.take(i + 1).drop_last() =~= fields@.take(i as int));
        let (name, value) = &fields[i];
        body.push(0x10);
        push_all(&mut body, name.as_bytes());
        body.push(0);
        push_all(&mut body, value.as_slice());
        i = i + 1;
    }
    assert(fields@.take(i as int) =~= fields@);
    let total: u128 = 4 + (body.len() as u128) + 1;
    let mut r = le_bytes_of((total % 4294967296) as u32);
    push_all(&mut r, body.as_slice());
    r.push(0);
    r
}

/// Where the name starting at `o` ends: the first zero byte before `dl`,
/// or `dl`.
pub open spec fn cstr_end(doc: Seq<u8>, o: int, dl: int) -> int
    decreases dl - o,
{
    if o >= dl || doc[o] == 0 {
        o
    } else {
        cstr_end(doc, o + 1, dl)
    }
}

/// How far the value of a non-matching element of type `t` starting at
/// `o` extends, or `None` when the type is unknown or undefined or a
/// length is cut off.
pub open spec fn value_end(doc: Seq<u8>, t: u8, o: int, dl: int) -> Option<int> {
    if t == 0x01 || t == 0x09 || t == 0x11 || t == 0x12 || t == 0x13 {
        Some(o + 8)
    } else if t == 0x02 || t == 0x0E {
        if o + 4 > dl {
            None
        } else {
            Some(o + 4 + le32(doc.subrange(o, o + 4)))
        }
    } else if t == 0x03 || t == 0x04 || t == 0x0F {
        if o + 4 > dl {
            None
        } else {
            Some(o + le32(doc.subrange(o, o + 4)))
        }
    } else if t == 0x05 {
        Some(o + 5)
    } else if t == 0x07 {
        Some(o + 12)
    } else if t == 0x08 {
        Some(o + 1)
    } else if t == 0x0A {
        Some(o)
    } else if t == 0x0B {
        Some(o + 2)
    } else if t == 0x0C || t == 0x0D || t == 0x10 {
        Some(o + 4)
    } else {
        None
    }
}

/// The bytes of the string value of the element named `name`, scanning the
/// elements of a document of length `dl` from offset `off`.
pub open spec fn bson_string_from(doc: Seq<u8>, dl: int, off: int, name: Seq<u8>) -> Option<Seq<u8>>
    decreases dl - off,
{
    if !(0 <= off < dl - 1) || dl > doc.len() {
        None
    } else if doc[off] == 0 {
        None
    } else {
        let t = doc[off];
        let ne = cstr_end(doc, off + 1, dl);
        if ne >= dl {
            None
        } else {
            let o = ne + 1;
            if doc.subrange(off + 1, ne) == name {
                if t != 0x02 || o + 4 > dl {
                    None
                } else {
                    let sl = le32(doc.subrange(o, o + 4));
                    if sl == 0 || o + 4 + sl > dl {
                        None
                    } else {
                        Some(doc.subrange(o + 4, o + 4 + sl - 1))
                    }
                }
            } else {
                match value_end(doc, t, o, dl) {
                    None => None,
                    Some(e) => if e > dl {
                        None
                    } else {
                        proof {
                            lemma_cstr_end(doc, off + 1, dl);
                        }
                        bson_string_from(doc, dl, e, name)
                    },
                }
            }
        }
    }
}

/// The bytes of the string field `name` of a BSON document.
pub open spec fn bson_string(doc: Seq<u8>, name: Seq<u8>) -> Option<Seq<u8>> {
    if doc.len() < 5 {
        None
    } else {
        let dl = le32(doc);
        if dl > doc.len() || dl < 5 {
            None
        } else {
            bson_string_from(doc, dl, 4, name)
        }
    }
}

pub proof fn lemma_cstr_end(doc: Seq<u8>, o: int, dl: int)
    requires
        0 <= o,
        dl <= doc.len(),
    ensures
        o <= dl ==> o <= cstr_end(doc, o, dl) <= dl,
        o > dl ==> cstr_end(doc, o, dl) == o,
        forall|k: int| o <= k < cstr_end(doc, o, dl) ==> doc[k] != 0,
        cstr_end(doc, o, dl) < dl ==> doc[cstr_end(doc, o, dl)] == 0,
    decreases dl - o,
{
    if o < dl && doc[o] != 0 {
        lemma_cstr_end(doc, o + 1, dl);
    }
}

/// A document holding one string element: type 0x02, the name, a zero byte,
/// the length of the value with its closing zero byte, the value, a zero
/// byte.
pub open spec fn bson_string_doc(name: Seq<u8>, value: Seq<u8>) -> Seq<u8> {
    let body = seq![0x02u8] + name + seq![0u8] + le_bytes(value.len() + 1int) + value + seq![0u8];
    le_bytes(body.len() + 5int) + body + seq![0u8]
}

proof fn lemma_cstr_end_at(doc: Seq<u8>, o: int, n: int, dl: int)
    requires
        0 <= o,
        o + n < dl <= doc.len(),
        0 <= n,
        forall|k: int| o <= k < o + n ==> doc[k] != 0,
        doc[o + n] == 0,
    ensures
        cstr_end(doc, o, dl) == o + n,
    decreases n,
{
    if n > 0 {
        lemma_cstr_end_at(doc, o + 1, n - 1, dl);
    }
}

/// Reading the string field of a document that holds it gives back the
/// bytes written: a name without zero bytes, and a document short enough for
/// its length to be written.
pub proof fn law_bson_string_reads_back(name: Seq<u8>, value: Seq<u8>)
    requires
        forall|i: int| 0 <= i < name.len() ==> name[i] != 0,
        name.len() + value.len() + 12 < 4294967296,
    ensures
        bson_string(bson_string_doc(name, value), name) == Some(value),
{
    let body = seq![0x02u8] + name + seq![0u8] + le_bytes(value.len() + 1int) + value + seq![0u8];
    let len: int = body.len() + 5int;
    let doc = bson_string_doc(name, value);
    assert(body.len() == name.len() + value.len() + 7);
    law_le32_roundtrip(len);
    law_le32_roundtrip(value.len() + 1int);
    assert(doc.len() == len);
    assert(le32(doc) == le32(le_bytes(len))) by {
        assert(doc[0] == le_bytes(len)[0] && doc[1] == le_bytes(len)[1]);
        assert(doc[2] == le_bytes(len)[2] && doc[3] == le_bytes(len)[3]);
    }
    let dl = len;
    let ne: int = name.len() + 5int;
    assert(doc[4] == 0x02u8);
    assert forall|k: int| 5 <= k < ne implies doc[k] != 0 by {
        assert(doc[k] == name[k - 5]);
    }
    assert(doc[ne] == 0);
    lemma_cstr_end_at(doc, 5, name.len() as int, dl);
    assert(doc.subrange(5, ne) =~= name);
    let o: int = ne + 1;
    assert(doc.subrange(o, o + 4) =~= le_bytes(value.len() + 1int));
    assert(doc.subrange(o + 4, o + 4 + value.len() as int) =~= value);
}

/// What reading one element gives.
enum BsonStep {
    Found(Vec<u8>),
    Stop,
    Next(usize),
}

fn le32_at(doc: &[u8], o: usize) -> (r: u64)
    requires
        o + 4 <= doc@.len(),
    ensures
        r == le32(doc@.subrange(o as int, o + 4)),
{
    (doc[o] as u64) + (doc[o + 1] as u64) * 256 + (doc[o + 2] as u64) * 65536 + (doc[o + 3] as u64)
        * 16777216
}

fn bytes_match(doc: &[u8], start: usize, end: usize, name: &[u8]) -> (r: bool)
    requires
        start <= end <= doc@.len(),
    ensures
        r == (doc@.subrange(start as int, end as int) == name@),
{
    if end - start != name.len() {
        return false;
    }
    let mut k: usize = 0;
    while k < name.len()
        invariant
            k <= name.len(),
            start + name.len() == end,
            end <= doc.len(),
            forall|j: int| 0 <= j < k ==> doc@[start + j] == name@[j],
        decreases name.len() - k,
    {
        if doc[start + k] != name[k] {
            assert(doc@.subrange(start as int, end as int)[k as int] != name@[k as int]);
            return false;
        }
        k = k + 1;
    }
    assert(doc@.subrange(start as int, end as int) =~= name@);
    true
}

/// Reads the element at `off`.
#[verifier::rlimit(40)]
fn bson_step(doc: &[u8], dl: usize, off: usize, name: &[u8]) -> (r: BsonStep)
    requires
        5 <= dl <= doc@.len(),
        off < dl - 1,
    ensures
        match r {
            BsonStep::Found(v) => bson_string_from(doc@, dl as int, off as int, name@) == Some(v@),
            BsonStep::Stop => bson_string_from(doc@, dl as int, off as int, name@) is None,
            BsonStep::Next(e) => off < e <= dl && bson_string_from(doc@, dl as int, off as int, name@)
                == bson_string_from(doc@, dl as int, e as int, name@),
        },
{
    let t = doc[off];
    if t == 0 {
        return BsonStep::Stop;
    }
    let start = off + 1;
    let mut ne = start;
    proof {
        lemma_cstr_end(doc@, start as int, dl as int);
    }
    while ne < dl && doc[ne] != 0
        invariant
            start <= ne <= dl <= doc.len(),
            cstr_end(doc@, start as int, dl as int) == cstr_end(doc@, ne as int, dl as int),
        decreases dl - ne,
    {
        ne = ne + 1;
    }
    if ne >= dl {
        return BsonStep::Stop;
    }
    let o = ne + 1;
    let same = bytes_match(doc, start, ne, name);
    let room = dl - o;
    if same {
        if t != 0x02 || room < 4 {
            return BsonStep::Stop;
        }
        let sl = le32_at(doc, o);
        if sl == 0 || 4 + sl > room as u64 {
            return BsonStep::Stop;
        }
        let end = o + 4 + (sl as usize) - 1;
        let mut v: Vec<u8> = Vec::new();
        let mut k = o + 4;
        while k < end
            invariant
                o + 4 <= k <= end,
                end < dl <= doc.len(),
                v@ == doc@.subrange(o + 4, k as int),
            decreases end - k,
        {
            v.push(doc[k]);
            k = k + 1;
            assert(v@ =~= doc@.subrange(o + 4, k as int));
        }
        return BsonStep::Found(v);
    }
    let skip: u64 = if t == 0x01 || t == 0x09 || t == 0x11 || t == 0x12 || t == 0x13 {
        8
    } else if t == 0x02 || t == 0x0E {
        if room < 4 {
            return BsonStep::Stop;
        }
        4 + le32_at(doc, o)
    } else if t == 0x03 || t == 0x04 || t == 0x0F {
        if room < 4 {
            return BsonStep::Stop;
        }
        le32_at(doc, o)
    } else if t == 0x05 {
        5
    } else if t == 0x07 {
        12
    } else if t == 0x08 {
        1
    } else if t == 0x0A {
        0
    } else if t == 0x0B {
        2
    } else if t == 0x0C || t == 0x0D || t == 0x10 {
        4
    } else {
        return BsonStep::Stop;
    };
    if skip > room as u64 {
        return BsonStep::Stop;
    }
    assert(value_end(doc@, t, o as int, dl as int) == Some((o + skip) as int));
    assert(cstr_end(doc@, start as int, dl as int) == ne);
    BsonStep::Next(o + skip as usize)
}

/// The bytes of the string field `field_name` of a BSON document (see
/// [`bson_string`]).
pub fn bson_string_bytes(doc: &[u8], field_name: &str) -> (r: Option<Vec<u8>>)
    ensures
        match r {
            Some(v) => bson_string(doc@, vstd::utf8::encode_utf8(field_name@)) == Some(v@),
            None => bson_string(doc@, vstd::utf8::encode_utf8(field_name@)) is None,
        },
{
    let name = field_name.as_bytes();
    let ghost nm = name@;
    assert(nm == vstd::utf8::encode_utf8(field_name@));
    if doc.len() < 5 {
        return None;
    }
    let dl = u32_from_le_bytes(doc) as usize;
    if dl > doc.len() || dl < 5 {
        return None;
    }
    let mut off: usize = 4;
    while off < dl - 1
        invariant
            5 <= dl <= doc.len(),
            dl == le32(doc@),
            off <= dl,
            name@ == nm,
            nm == vstd::utf8::encode_utf8(field_name@),
            bson_string(doc@, nm) == bson_string_from(doc@, dl as int, off as int, nm),
        decreases dl - off,
    {
        match bson_step(doc, dl, off, name) {
            BsonStep::Found(v) => return Some(v),
            BsonStep::Stop => return None,
            BsonStep::Next(e) => {
                off = e;
            },
        }
    }
    None
}

/// Reads the string field `field_name` of a BSON document, if its bytes are
/// valid UTF-8.
pub fn bson_extract_string(doc: &[u8], field_name: &str) -> (r: Option<String>)
    ensures
        match bson_string(doc@, vstd::utf8::encode_utf8(field_name@)) {
            Some(b) => match r {
                Some(s) => vstd::utf8::valid_utf8(b) && s@ == vstd::utf8::decode_utf8(b),
                None => !vstd::utf8::valid_utf8(b),
            },
            None => r is None,
        },
{
    match bson_string_bytes(doc, field_name) {
        Some(b) => utf8_string(b.as_slice()),
        None => None,
    }
}

// ---------------------------------------------------------------------------
// MongoDB: the isMaster query and its reply
// ---------------------------------------------------------------------------

/// The OP_QUERY message that runs `{ isMaster: 1 }` on `admin.$cmd`.
pub open spec fn mongo_query_bytes() -> Seq<u8> {
    seq![0x3a, 0x00, 0x00, 0x00, 0x01, 0x00, 0x00, 0x00, 0x00, 0x00, 0x00, 0x00, 0xd4, 0x07, 0x00, 0x00, 0x00, 0x00, 0x00, 0x00, 0x61, 0x64, 0x6d, 0x69, 0x6e, 0x2e, 0x24, 0x63, 0x6d, 0x64, 0x00, 0x00, 0x00, 0x00, 0x00, 0xff, 0xff, 0xff, 0xff, 0x13, 0x00, 0x00, 0x00, 0x10, 0x69, 0x73, 0x4d, 0x61, 0x73, 0x74, 0x65, 0x72, 0x00, 0x01, 0x00, 0x00, 0x00, 0x00]
}

/// Builds the OP_QUERY message that runs `{ isMaster: 1 }` on `admin.$cmd`:
/// header (length, request 1, response-to 0, opcode 2004), flags 0, the
/// collection name, skip 0, return -1, and the query document.
pub fn build_mongo_query() -> (r: Vec<u8>)
    ensures
        r@ == mongo_query_bytes(),
{
    let r: Vec<u8> = vec![0x3a, 0x00, 0x00, 0x00, 0x01, 0x00, 0x00, 0x00, 0x00, 0x00, 0x00, 0x00, 0xd4, 0x07, 0x00, 0x00, 0x00, 0x00, 0x00, 0x00, 0x61, 0x64, 0x6d, 0x69, 0x6e, 0x2e, 0x24, 0x63, 0x6d, 0x64, 0x00, 0x00, 0x00, 0x00, 0x00, 0xff, 0xff, 0xff, 0xff, 0x13, 0x00, 0x00, 0x00, 0x10, 0x69, 0x73, 0x4d, 0x61, 0x73, 0x74, 0x65, 0x72, 0x00, 0x01, 0x00, 0x00, 0x00, 0x00];
    assert(r@ =~= mongo_query_bytes());
    r
}

/// Whether a MongoDB reply announced with length `n` is read: from the
/// 36 bytes of an OP_REPLY prefix to 65536.
pub fn mongo_length_ok(n: usize) -> (r: bool)
    ensures
        r == (36 <= n <= 65536),
{
    36 <= n && n <= 65536
}

/// What a MongoDB probe concludes from a reply of `resp_len` bytes held in
/// `buf`: a reply length outside 36..=65536 is no match; otherwise the
/// "version" string of the document after the 36-byte OP_REPLY prefix,
/// sanitized (at most 128 bytes), or no match.
pub fn mongo_reply_result(buf: &[u8], resp_len: usize) -> (r: Result<ProbeMatch, ProbeError>)
    requires
        resp_len <= buf@.len(),
    ensures
        ({
            let found = if 36 <= resp_len <= 65536 {
                match bson_string(buf@.subrange(36, resp_len as int), vstd::utf8::encode_utf8("version"@)) {
                    Some(b) => if vstd::utf8::valid_utf8(b) {
                        banner_result(vstd::utf8::encode_utf8(vstd::utf8::decode_utf8(b)), 128)
                    } else {
                        None
                    },
                    None => None,
                }
            } else {
                None
            };
            match found {
                Some(v) => r matches Ok(m) && m.service@ == "mongodb"@ && opt_view(m.version) == Some(v)
                    && m.confidence == VersionConfidence::BannerExact,
                None => r == Err::<ProbeMatch, ProbeError>(ProbeError::NoMatch),
            }
        }),
{
    if resp_len < 36 || resp_len > 65536 {
        return Err(ProbeError::NoMatch);
    }
    let mut doc: Vec<u8> = Vec::new();
    let mut k: usize = 36;
    while k < resp_len
        invariant
            36 <= k <= resp_len <= buf@.len(),
            doc@ == buf@.subrange(36, k as int),
        decreases resp_len - k,
    {
        doc.push(buf[k]);
        k = k + 1;
        assert(doc@ =~= buf@.subrange(36, k as int));
    }
    match bson_extract_string(doc.as_slice(), "version") {
        Some(version) => match sanitize_banner(version.as_str().as_bytes(), 128) {
            Some(clean) => Ok(
                ProbeMatch {
                    service: "mongodb",
                    version: Some(clean),
                    confidence: VersionConfidence::BannerExact,
                },
            ),
            None => Err(ProbeError::NoMatch),
        },
        None => Err(ProbeError::NoMatch),
    }
}

// ---------------------------------------------------------------------------
// PostgreSQL: startup message and server messages
// ---------------------------------------------------------------------------

/// The startup message of protocol 3.0 for user "aplomado_probe" and
/// database "aplomado".
pub open spec fn pg_startup_bytes() -> Seq<u8> {
    seq![0x00, 0x00, 0x00, 0x2f, 0x00, 0x03, 0x00, 0x00, 0x75, 0x73, 0x65, 0x72, 0x00, 0x61, 0x70, 0x6c, 0x6f, 0x6d, 0x61, 0x64, 0x6f, 0x5f, 0x70, 0x72, 0x6f, 0x62, 0x65, 0x00, 0x64, 0x61, 0x74, 0x61, 0x62, 0x61, 0x73, 0x65, 0x00, 0x61, 0x70, 0x6c, 0x6f, 0x6d, 0x61, 0x64, 0x6f, 0x00, 0x00]
}

/// Builds the startup message (protocol 3.0, user "aplomado_probe",
/// database "aplomado").
pub fn build_pg_startup() -> (r: Vec<u8>)
    ensures
        r@ == pg_startup_bytes(),
{
    let r: Vec<u8> = vec![0x00, 0x00, 0x00, 0x2f, 0x00, 0x03, 0x00, 0x00, 0x75, 0x73, 0x65, 0x72, 0x00, 0x61, 0x70, 0x6c, 0x6f, 0x6d, 0x61, 0x64, 0x6f, 0x5f, 0x70, 0x72, 0x6f, 0x62, 0x65, 0x00, 0x64, 0x61, 0x74, 0x61, 0x62, 0x61, 0x73, 0x65, 0x00, 0x61, 0x70, 0x6c, 0x6f, 0x6d, 0x61, 0x64, 0x6f, 0x00, 0x00];
    assert(r@ =~= pg_startup_bytes());
    r
}

/// The position of the first zero byte at or after `i`, or the length.
pub open spec fn zero_from(p: Seq<u8>, i: int) -> int
    decreases p.len() - i,
{
    if i >= p.len() || p[i] == 0 {
        i
    } else {
        zero_from(p, i + 1)
    }
}

/// The bytes of the 'M' (message) field of an error or notice payload,
/// scanning its fields (type byte, zero-terminated value) from `i`.
pub open spec fn pg_message_from(p: Seq<u8>, i: int) -> Option<Seq<u8>>
    decreases p.len() - i,
{
    if i < 0 || i >= p.len() || p[i] == 0 {
        None
    } else {
        let j = zero_from(p, i + 1);
        if p[i] == 0x4D {
            Some(p.subrange(i + 1, j))
        } else if j < p.len() {
            proof {
                lemma_zero_from(p, i + 1);
            }
            pg_message_from(p, j + 1)
        } else {
            None
        }
    }
}

pub proof fn lemma_zero_from(p: Seq<u8>, i: int)
    requires
        0 <= i,
    ensures
        i <= p.len() ==> i <= zero_from(p, i) <= p.len(),
        i > p.len() ==> zero_from(p, i) == i,
        forall|k: int| i <= k < zero_from(p, i) ==> p[k] != 0,
        zero_from(p, i) < p.len() ==> p[zero_from(p, i)] == 0,
    decreases p.len() - i,
{
    if i < p.len() && p[i] != 0 {
        lemma_zero_from(p, i + 1);
    }
}

/// The bytes of the message field of an error or notice payload.
fn pg_message_bytes(payload: &[u8]) -> (r: Option<Vec<u8>>)
    ensures
        match r {
            Some(v) => pg_message_from(payload@, 0) == Some(v@),
            None => pg_message_from(payload@, 0) is None,
        },
{
    let mut i: usize = 0;
    while i < payload.len()
        invariant
            i <= payload.len(),
            pg_message_from(payload@, 0) == pg_message_from(payload@, i as int),
        decreases payload.len() - i,
    {
        let t = payload[i];
        if t == 0 {
            return None;
        }
        let start = i + 1;
        let mut j = start;
        proof {
            lemma_zero_from(payload@, start as int);
        }
        while j < payload.len() && payload[j] != 0
            invariant
                start <= j <= payload.len(),
                zero_from(payload@, start as int) == zero_from(payload@, j as int),
            decreases payload.len() - j,
        {
            j = j + 1;
        }
        if t == 0x4D {
            let mut v: Vec<u8> = Vec::new();
            let mut k = start;
            while k < j
                invariant
                    start <= k <= j <= payload.len(),
                    v@ == payload@.subrange(start as int, k as int),
                decreases j - k,
            {
                v.push(payload[k]);
                k = k + 1;
                assert(v@ =~= payload@.subrange(start as int, k as int));
            }
            return Some(v);
        }
        if j >= payload.len() {
            return None;
        }
        i = j + 1;
    }
    None
}

/// Reads the message field of a PostgreSQL error or notice payload.
pub fn extract_pg_error(payload: &[u8]) -> (r: Option<String>)
    ensures
        match pg_message_from(payload@, 0) {
            Some(m) => opt_view(r) == Some(utf8_lossy(m)),
            None => r is None,
        },
{
    match pg_message_bytes(payload) {
        Some(m) => Some(lossy_string(m.as_slice())),
        None => None,
    }
}

/// What a PostgreSQL probe does after a server message.
#[derive(Debug)]
pub enum PgAction {
    /// Send the terminate message and report no match.
    Terminate,
    /// Report this outcome.
    Finish(Result<ProbeMatch, ProbeError>),
    /// Read the next message.
    Continue,
}

/// The payload length announced by a message header: its length field
/// less the four bytes of the field itself, at most 4096.
pub fn pg_payload_len(header: &[u8]) -> (r: usize)
    requires
        header@.len() >= 5,
    ensures
        r == (if be16(header@[1], header@[2]) * 65536 + be16(header@[3], header@[4]) < 4 {
            0
        } else if be16(header@[1], header@[2]) * 65536 + be16(header@[3], header@[4]) - 4 > 4096 {
            4096
        } else {
            be16(header@[1], header@[2]) * 65536 + be16(header@[3], header@[4]) - 4
        }),
{
    let n: u64 = (header[1] as u64) * 16777216 + (header[2] as u64) * 65536 + (header[3] as u64) * 256
        + (header[4] as u64);
    let m = if n < 4 {
        0
    } else {
        n - 4
    };
    if m > 4096 {
        4096
    } else {
        m as usize
    }
}

/// The message text of an error or notice, sanitized (at most 512 bytes).
pub open spec fn pg_version(payload: Seq<u8>) -> Option<Seq<char>> {
    match pg_message_from(payload, 0) {
        Some(m) => banner_result(vstd::utf8::encode_utf8(utf8_lossy(m)), 512),
        None => None,
    }
}

/// What a PostgreSQL probe does after a message of type `msg_type` with
/// `payload`: an authentication request ends it without a match (after the
/// terminate message); an error reports its message, or no match; a notice
/// reports its message, or waits for the next; anything else ends it
/// without a match.
pub fn pg_message_action(msg_type: u8, payload: &[u8]) -> (r: PgAction)
    ensures
        msg_type == 0x52 ==> r == PgAction::Terminate,
        msg_type == 0x45 ==> match pg_version(payload@) {
            Some(v) => r matches PgAction::Finish(Ok(m)) && m.service@ == "postgresql"@ && opt_view(m.version)
                == Some(v) && m.confidence == VersionConfidence::BannerRegex,
            None => r == PgAction::Finish(Err(ProbeError::NoMatch)),
        },
        msg_type == 0x4E ==> match pg_version(payload@) {
            Some(v) => r matches PgAction::Finish(Ok(m)) && m.service@ == "postgresql"@ && opt_view(m.version)
                == Some(v) && m.confidence == VersionConfidence::BannerRegex,
            None => r == PgAction::Continue,
        },
        msg_type != 0x52 && msg_type != 0x45 && msg_type != 0x4E ==> r == PgAction::Finish(
            Err(ProbeError::NoMatch),
        ),
{
    if msg_type == 0x52 {
        return PgAction::Terminate;
    }
    if msg_type != 0x45 && msg_type != 0x4E {
        return PgAction::Finish(Err(ProbeError::NoMatch));
    }
    let found = match extract_pg_error(payload) {
        Some(m) => sanitize_banner(m.as_str().as_bytes(), 512),
        None => None,
    };
    match found {
        Some(clean) => PgAction::Finish(
            Ok(
                ProbeMatch {
                    service: "postgresql",
                    version: Some(clean),
                    confidence: VersionConfidence::BannerRegex,
                },
            ),
        ),
        None => if msg_type == 0x45 {
            PgAction::Finish(Err(ProbeError::NoMatch))
        } else {
            PgAction::Continue
        },
    }
}

// ---------------------------------------------------------------------------
// SMB2: negotiate request and dialect
// ---------------------------------------------------------------------------

/// The SMB2 NEGOTIATE request offering dialects 2.0.2, 2.1, 3.0 and 3.1.1
/// (without its NetBIOS header).
pub open spec fn smb2_negotiate_bytes() -> Seq<u8> {
    seq![0xfe, 0x53, 0x4d, 0x42, 0x40, 0x00, 0x00, 0x00, 0x00, 0x00, 0x00, 0x00, 0x00, 0x00, 0x01, 0x00, 0x00, 0x00, 0x00, 0x00, 0x00, 0x00, 0x00, 0x00, 0x00, 0x00, 0x00, 0x00, 0x00, 0x00, 0x00, 0x00, 0x00, 0x00, 0x00, 0x00, 0x00, 0x00, 0x00, 0x00, 0x00, 0x00, 0x00, 0x00, 0x00, 0x00, 0x00, 0x00, 0x00, 0x00, 0x00, 0x00, 0x00, 0x00, 0x00, 0x00, 0x00, 0x00, 0x00, 0x00, 0x00, 0x00, 0x00, 0x00, 0x24, 0x00, 0x04, 0x00, 0x01, 0x00, 0x00, 0x00, 0x00, 0x00, 0x00, 0x00, 0x00, 0x00, 0x00, 0x00, 0x00, 0x00, 0x00, 0x00, 0x00, 0x00, 0x00, 0x00, 0x00, 0x00, 0x00, 0x00, 0x00, 0x00, 0x00, 0x00, 0x00, 0x00, 0x00, 0x00, 0x00, 0x00, 0x00, 0x00, 0x00, 0x00, 0x00, 0x00, 0x00, 0x00, 0x02, 0x02, 0x10, 0x02, 0x00, 0x03, 0x11, 0x03]
}

/// Builds the SMB2 NEGOTIATE request (without its NetBIOS header).
pub fn build_smb2_negotiate() -> (r: Vec<u8>)
    ensures
        r@ == smb2_negotiate_bytes(),
{
    let r: Vec<u8> = vec![0xfe, 0x53, 0x4d, 0x42, 0x40, 0x00, 0x00, 0x00, 0x00, 0x00, 0x00, 0x00, 0x00, 0x00, 0x01, 0x00, 0x00, 0x00, 0x00, 0x00, 0x00, 0x00, 0x00, 0x00, 0x00, 0x00, 0x00, 0x00, 0x00, 0x00, 0x00, 0x00, 0x00, 0x00, 0x00, 0x00, 0x00, 0x00, 0x00, 0x00, 0x00, 0x00, 0x00, 0x00, 0x00, 0x00, 0x00, 0x00, 0x00, 0x00, 0x00, 0x00, 0x00, 0x00, 0x00, 0x00, 0x00, 0x00, 0x00, 0x00, 0x00, 0x00, 0x00, 0x00, 0x24, 0x00, 0x04, 0x00, 0x01, 0x00, 0x00, 0x00, 0x00, 0x00, 0x00, 0x00, 0x00, 0x00, 0x00, 0x00, 0x00, 0x00, 0x00, 0x00, 0x00, 0x00, 0x00, 0x00, 0x00, 0x00, 0x00, 0x00, 0x00, 0x00, 0x00, 0x00, 0x00, 0x00, 0x00, 0x00, 0x00, 0x00, 0x00, 0x00, 0x00, 0x00, 0x00, 0x00, 0x00, 0x00, 0x02, 0x02, 0x10, 0x02, 0x00, 0x03, 0x11, 0x03];
    assert(r@ =~= smb2_negotiate_bytes());
    r
}

/// The version a negotiated SMB2 dialect stands for.
pub open spec fn smb_dialect_name(d: int) -> Option<Seq<char>> {
    if d == 0x0202 {
        Some("SMB 2.0.2"@)
    } else if d == 0x0210 {
        Some("SMB 2.1"@)
    } else if d == 0x0300 {
        Some("SMB 3.0"@)
    } else if d == 0x0302 {
        Some("SMB 3.0.2"@)
    } else if d == 0x0311 {
        Some("SMB 3.1.1"@)
    } else {
        None
    }
}

/// The dialect of an SMB2 NEGOTIATE response read into `resp` (NetBIOS
/// header included): no match when it is shorter than 70 bytes or lacks the
/// SMB2 protocol identifier.
pub open spec fn smb_response_version(resp: Seq<u8>) -> Option<Seq<char>> {
    if resp.len() < 70 || resp[4] != 0xFE || resp[5] != 0x53 || resp[6] != 0x4D || resp[7] != 0x42 {
        None
    } else {
        smb_dialect_name(resp[68] + resp[69] * 256)
    }
}

/// What an SMB probe concludes from the bytes it read.
pub fn smb_probe_result(resp: &[u8]) -> (r: Result<ProbeMatch, ProbeError>)
    ensures
        match smb_response_version(resp@) {
            Some(v) => r matches Ok(m) && m.service@ == "smb"@ && opt_view(m.version) == Some(v)
                && m.confidence == VersionConfidence::BannerExact,
            None => r == Err::<ProbeMatch, ProbeError>(ProbeError::NoMatch),
        },
{
    if resp.len() < 70 || resp[4] != 0xFE || resp[5] != 0x53 || resp[6] != 0x4D || resp[7] != 0x42 {
        return Err(ProbeError::NoMatch);
    }
    let d: u32 = (resp[68] as u32) + (resp[69] as u32) * 256;
    let name = if d == 0x0202 {
        "SMB 2.0.2"
    } else if d == 0x0210 {
        "SMB 2.1"
    } else if d == 0x0300 {
        "SMB 3.0"
    } else if d == 0x0302 {
        "SMB 3.0.2"
    } else if d == 0x0311 {
        "SMB 3.1.1"
    } else {
        return Err(ProbeError::NoMatch);
    };
    Ok(ProbeMatch { service: "smb", version: Some(name.to_owned()), confidence: VersionConfidence::BannerExact })
}

// ---------------------------------------------------------------------------
// SIP: OPTIONS request and Server header
// ---------------------------------------------------------------------------

/// The OPTIONS request sent to `ip`, with call id "aplomado-<pid>".
pub open spec fn sip_options_text(ip: IpValue, pid: u32) -> Seq<char> {
    seq!['O', 'P', 'T', 'I', 'O', 'N', 'S', ' ', 's', 'i', 'p', ':', 'p', 'i', 'n', 'g', '@'] + ip_text(ip) + seq![' ', 'S', 'I', 'P', '/', '2', '.', '0'] + crlf() + seq!['V', 'i', 'a', ':', ' ', 'S', 'I', 'P', '/', '2', '.', '0', '/', 'T', 'C', 'P', ' ', '1', '2', '7', '.', '0', '.', '0', '.', '1', ':', '5', '0', '6', '0']
        + crlf() + seq!['F', 'r', 'o', 'm', ':', ' ', '<', 's', 'i', 'p', ':', 'p', 'r', 'o', 'b', 'e', '@', 'a', 'p', 'l', 'o', 'm', 'a', 'd', 'o', '>'] + crlf() + seq!['T', 'o', ':', ' ', '<', 's', 'i', 'p', ':', 'p', 'i', 'n', 'g', '@'] + ip_text(ip) + seq!['>']
        + crlf() + seq!['C', 'a', 'l', 'l', '-', 'I', 'D', ':', ' ', 'a', 'p', 'l', 'o', 'm', 'a', 'd', 'o', '-'] + decimal(pid as nat) + crlf() + seq!['C', 'S', 'e', 'q', ':', ' ', '1', ' ', 'O', 'P', 'T', 'I', 'O', 'N', 'S'] + crlf()
        + seq!['C', 'o', 'n', 't', 'e', 'n', 't', '-', 'L', 'e', 'n', 'g', 't', 'h', ':', ' ', '0'] + crlf() + crlf()
}

pub open spec fn crlf() -> Seq<char> {
    seq!['\r', '\n']
}

fn push_crlf(s: &mut String)
    ensures
        final(s)@ == old(s)@ + crlf(),
{
    push_char(s, '\r');
    push_char(s, '\n');
    assert(final(s)@ =~= old(s)@ + crlf());
}

/// Builds the OPTIONS request sent to `ip` (see [`sip_options_text`]).
pub fn sip_options_request(ip: &IpAddress, pid: u32) -> (r: String)
    ensures
        r@ == sip_options_text(ip@, pid),
{
    let mut s = String::new();
    push_chars(&mut s, &vec!['O', 'P', 'T', 'I', 'O', 'N', 'S', ' ', 's', 'i', 'p', ':', 'p', 'i', 'n', 'g', '@']);
    push_ip(&mut s, ip);
    push_chars(&mut s, &vec![' ', 'S', 'I', 'P', '/', '2', '.', '0']);
    push_crlf(&mut s);
    push_chars(&mut s, &vec!['V', 'i', 'a', ':', ' ', 'S', 'I', 'P', '/', '2', '.', '0', '/', 'T', 'C', 'P', ' ', '1', '2', '7', '.', '0', '.', '0', '.', '1', ':', '5', '0', '6', '0']);
    push_crlf(&mut s);
    push_chars(&mut s, &vec!['F', 'r', 'o', 'm', ':', ' ', '<', 's', 'i', 'p', ':', 'p', 'r', 'o', 'b', 'e', '@', 'a', 'p', 'l', 'o', 'm', 'a', 'd', 'o', '>']);
    push_crlf(&mut s);
    push_chars(&mut s, &vec!['T', 'o', ':', ' ', '<', 's', 'i', 'p', ':', 'p', 'i', 'n', 'g', '@']);
    push_ip(&mut s, ip);
    push_chars(&mut s, &vec!['>']);
    push_crlf(&mut s);
    push_chars(&mut s, &vec!['C', 'a', 'l', 'l', '-', 'I', 'D', ':', ' ', 'a', 'p', 'l', 'o', 'm', 'a', 'd', 'o', '-']);
    push_decimal(&mut s, pid as u64);
    push_crlf(&mut s);
    push_chars(&mut s, &vec!['C', 'S', 'e', 'q', ':', ' ', '1', ' ', 'O', 'P', 'T', 'I', 'O', 'N', 'S']);
    push_crlf(&mut s);
    push_chars(&mut s, &vec!['C', 'o', 'n', 't', 'e', 'n', 't', '-', 'L', 'e', 'n', 'g', 't', 'h', ':', ' ', '0']);
    push_crlf(&mut s);
    push_crlf(&mut s);
    assert(s@ =~= sip_options_text(ip@, pid));
    s
}

/// The first line whose lower-case form starts with "server:", from line
/// `i` on.
pub open spec fn server_line_from(ls: Seq<Seq<char>>, i: int) -> Option<Seq<char>>
    decreases ls.len() - i,
{
    if i < 0 || i >= ls.len() {
        None
    } else if has_prefix(lowercase_of(ls[i]), seq!['s', 'e', 'r', 'v', 'e', 'r', ':']) {
        Some(ls[i])
    } else {
        server_line_from(ls, i + 1)
    }
}

/// The server version a SIP reply reveals: the value of its first "Server:"
/// line (any case), trimmed and sanitized (at most 256 bytes).
pub open spec fn sip_version(resp: Seq<u8>) -> Option<Seq<char>> {
    if resp.len() == 0 {
        None
    } else {
        match server_line_from(lines(utf8_lossy(resp)), 0) {
            None => None,
            Some(l) => banner_result(
                vstd::utf8::encode_utf8(trim(if l.len() >= 7 { l.skip(7) } else { Seq::empty() })),
                256,
            ),
        }
    }
}

/// What a SIP probe concludes from the bytes of the reply.
pub fn sip_probe_result(resp: &[u8]) -> (r: Result<ProbeMatch, ProbeError>)
    ensures
        match sip_version(resp@) {
            Some(v) => r matches Ok(m) && m.service@ == "sip"@ && opt_view(m.version) == Some(v)
                && m.confidence == VersionConfidence::BannerExact,
            None => r == Err::<ProbeMatch, ProbeError>(ProbeError::NoMatch),
        },
{
    if resp.len() == 0 {
        return Err(ProbeError::NoMatch);
    }
    let text = lossy_string(resp);
    let cs = chars_of(text.as_str());
    let ls = split_lines(&cs);
    let ghost all = ls@.map_values(|l: Vec<char>| l@);
    let tag = vec!['s', 'e', 'r', 'v', 'e', 'r', ':'];
    let mut i: usize = 0;
    while i < ls.len()
        invariant
            i <= ls.len(),
            all == ls@.map_values(|l: Vec<char>| l@),
            all == lines(utf8_lossy(resp@)),
            resp@.len() > 0,
            tag@ == seq!['s', 'e', 'r', 'v', 'e', 'r', ':'],
            server_line_from(all, 0) == server_line_from(all, i as int),
        decreases ls.len() - i,
    {
        let line = string_of(&ls[i]);
        let low = to_lowercase(line.as_str());
        let lc = chars_of(low.as_str());
        if starts_with(&lc, &tag) {
            let rest = if ls[i].len() >= 7 {
                chars_from(&ls[i], 7)
            } else {
                Vec::new()
            };
            let val = string_of(&trim_chars(&rest));
            return match sanitize_banner(val.as_str().as_bytes(), 256) {
                Some(clean) => Ok(
                    ProbeMatch {
                        service: "sip",
                        version: Some(clean),
                        confidence: VersionConfidence::BannerExact,
                    },
                ),
                None => Err(ProbeError::NoMatch),
            };
        }
        i = i + 1;
    }
    Err(ProbeError::NoMatch)
}

// ---------------------------------------------------------------------------
// The probe chain
// ---------------------------------------------------------------------------

/// The protocol probes, in the order the chain tries them.
#[derive(Debug, Clone, Copy, PartialEq, Eq, Structural)]
pub enum ProbeKind {
    Tls,
    Sip,
    Dns,
    Smb,
    Postgresql,
    Mongodb,
}

/// The probe tried first for a well-known service.
pub open spec fn known_probe_of(svc: Seq<char>) -> Option<ProbeKind> {
    if svc == seq!['p', 'o', 's', 't', 'g', 'r', 'e', 's', 'q', 'l'] {
        Some(ProbeKind::Postgresql)
    } else if svc == seq!['m', 'o', 'n', 'g', 'o', 'd', 'b'] {
        Some(ProbeKind::Mongodb)
    } else if svc == seq!['h', 't', 't', 'p', 's'] || svc == seq!['h', 't', 't', 'p', 's', '-', 'a', 'l', 't'] {
        Some(ProbeKind::Tls)
    } else if svc == seq!['s', 'm', 'b'] {
        Some(ProbeKind::Smb)
    } else if svc == seq!['d', 'n', 's'] {
        Some(ProbeKind::Dns)
    } else {
        None
    }
}

/// The probe tried first for service `svc` (see [`known_probe_of`]).
pub fn known_probe(svc: &str) -> (r: Option<ProbeKind>)
    ensures
        r == known_probe_of(svc@),
{
    let s = chars_of(svc);
    if text_eq(&s, &vec!['p', 'o', 's', 't', 'g', 'r', 'e', 's', 'q', 'l']) {
        Some(ProbeKind::Postgresql)
    } else if text_eq(&s, &vec!['m', 'o', 'n', 'g', 'o', 'd', 'b']) {
        Some(ProbeKind::Mongodb)
    } else if text_eq(&s, &vec!['h', 't', 't', 'p', 's']) || text_eq(&s, &vec!['h', 't', 't', 'p', 's', '-', 'a', 'l', 't']) {
        Some(ProbeKind::Tls)
    } else if text_eq(&s, &vec!['s', 'm', 'b']) {
        Some(ProbeKind::Smb)
    } else if text_eq(&s, &vec!['d', 'n', 's']) {
        Some(ProbeKind::Dns)
    } else {
        None
    }
}

/// The probes of the chain, in order.
pub fn chain_probes() -> (r: Vec<ProbeKind>)
    ensures
        r@ == seq![ProbeKind::Tls, ProbeKind::Sip, ProbeKind::Dns, ProbeKind::Smb, ProbeKind::Postgresql, ProbeKind::Mongodb],
{
    vec![ProbeKind::Tls, ProbeKind::Sip, ProbeKind::Dns, ProbeKind::Smb, ProbeKind::Postgresql, ProbeKind::Mongodb]
}

/// The time a chain probe may take, `elapsed` into a chain with budget
/// `deadline` and a per-probe limit `per_probe`: what is left of the budget
/// (none when under 100 ms, and the chain stops) but at most the limit.
pub fn chain_probe_timeout(elapsed: Duration, deadline: Duration, per_probe: Duration) -> (r: Option<Duration>)
    ensures
        ({
            let remaining = if deadline.nanos > elapsed.nanos { deadline.nanos - elapsed.nanos } else { 0 };
            if remaining < 100_000_000 {
                r is None
            } else {
                r == Some(Duration { nanos: if remaining < per_probe.nanos { remaining as u128 } else { per_probe.nanos } })
            }
        }),
{
    let remaining: u128 = if deadline.nanos > elapsed.nanos {
        deadline.nanos - elapsed.nanos
    } else {
        0
    };
    if remaining < 100_000_000 {
        None
    } else if remaining < per_probe.nanos {
        Some(Duration { nanos: remaining })
    } else {
        Some(per_probe)
    }
}

// ---------------------------------------------------------------------------
// TLS: names of the server certificate
// ---------------------------------------------------------------------------

/// What `x509_parser::parse_x509_certificate` gives for DER bytes, read for
/// the subject's first common name: `None` when the certificate does not
/// parse, else that name as a string (`None` when there is none, or it is
/// not of a string type).
pub uninterp spec fn x509_common_name(der: Seq<u8>) -> Option<Option<Seq<char>>>;

/// What `x509_parser::parse_x509_certificate` gives for DER bytes, read for
/// the DNS names of its subject-alternative-name extensions, in order:
/// `None` when the certificate does not parse.
pub uninterp spec fn x509_dns_names(der: Seq<u8>) -> Option<Seq<Seq<char>>>;

pub open spec fn opt_opt_view(o: Option<Option<String>>) -> Option<Option<Seq<char>>> {
    match o {
        Some(x) => Some(opt_view(x)),
        None => None,
    }
}

/// The first common name of the subject of a certificate
/// (`parse_x509_certificate`, `iter_common_name`, `as_str`). The result is
/// named: how DER is decoded is not restated here.
#[verifier::external_body]
fn cert_common_name(der: &[u8]) -> (r: Option<Option<String>>)
    ensures
        opt_opt_view(r) == x509_common_name(der@),
{
    match x509_parser::parse_x509_certificate(der) {
        Ok((_, cert)) => Some(
            cert.tbs_certificate.subject.iter_common_name().next().and_then(|a| a.as_str().ok()).map(
                |s| s.to_string(),
            ),
        ),
        Err(_) => None,
    }
}

/// The DNS names of the subject-alternative-name extensions of a
/// certificate (`parse_x509_certificate`, `extensions`,
/// `parsed_extension`). The result is named: how DER is decoded is not
/// restated here.
#[verifier::external_body]
fn cert_dns_names(der: &[u8]) -> (r: Option<Vec<String>>)
    ensures
        match r {
            Some(v) => x509_dns_names(der@) == Some(v@.map_values(|s: String| s@)),
            None => x509_dns_names(der@) is None,
        },
{
    match x509_parser::parse_x509_certificate(der) {
        Ok((_, cert)) => Some(
            cert.tbs_certificate.extensions().iter().filter_map(|ext| match ext.parsed_extension() {
                x509_parser::extensions::ParsedExtension::SubjectAlternativeName(san) => Some(
                    san.general_names.iter().filter_map(|gn| match gn {
                        x509_parser::extensions::GeneralName::DNSName(name) => Some(name.to_string()),
                        _ => None,
                    }).collect::<Vec<String>>(),
                ),
                _ => None,
            }).flatten().collect(),
        ),
        Err(_) => None,
    }
}

/// Names joined with ", ".
pub open spec fn join_names(ns: Seq<Seq<char>>) -> Seq<char>
    decreases ns.len(),
{
    if ns.len() == 0 {
        Seq::empty()
    } else if ns.len() == 1 {
        ns[0]
    } else {
        join_names(ns.drop_last()) + seq![',', ' '] + ns.last()
    }
}

/// The version text of a certificate: its common name (sanitized, empty
/// when there is none), then, when there are DNS names, "; " (if the name
/// was not empty) and the DNS names joined with ", ".
pub open spec fn tls_text(cn: Option<Seq<char>>, sans: Seq<Seq<char>>) -> Seq<char> {
    let name = match cn {
        Some(c) => match banner_result(vstd::utf8::encode_utf8(c), 255) {
            Some(x) => x,
            None => Seq::empty(),
        },
        None => Seq::empty(),
    };
    if sans.len() == 0 {
        name
    } else if name.len() == 0 {
        join_names(sans)
    } else {
        name + seq![';', ' '] + join_names(sans)
    }
}

/// What a TLS probe concludes from the common name and DNS names of the
/// server certificate: the version text (see [`tls_text`]), or no match
/// when it is empty.
pub fn tls_names_result(cn: Option<String>, sans: &Vec<String>) -> (r: Result<ProbeMatch, ProbeError>)
    ensures
        ({
            let t = tls_text(opt_view(cn), sans@.map_values(|s: String| s@));
            if t.len() == 0 {
                r == Err::<ProbeMatch, ProbeError>(ProbeError::NoMatch)
            } else {
                r matches Ok(m) && m.service@ == "tls"@ && opt_view(m.version) == Some(t)
                    && m.confidence == VersionConfidence::BannerExact
            }
        }),
{
    let ghost sv = sans@.map_values(|s: String| s@);
    let mut version = match &cn {
        Some(c) => match crate::sanitize::sanitize_cert_field(c.as_str().as_bytes()) {
            Some(x) => x,
            None => String::new(),
        },
        None => String::new(),
    };
    let name_len = chars_of(version.as_str()).len();
    if sans.len() > 0 {
        if name_len > 0 {
            push_str(&mut version, "; ");
            proof {
                reveal_strlit("; ");
            }
        }
        let ghost before = version@;
        let mut i: usize = 0;
        while i < sans.len()
            invariant
                1 <= sans@.len(),
                i <= sans.len(),
                sv == sans@.map_values(|s: String| s@),
                i == 0 ==> version@ == before,
                i > 0 ==> version@ == before + join_names(sv.take(i as int)),
            decreases sans.len() - i,
        {
            if i > 0 {
                push_str(&mut version, ", ");
                proof {
                    reveal_strlit(", ");
                }
            }
            push_str(&mut version, sans[i].as_str());
            i = i + 1;
            proof {
                assert(sv.take(i as int).drop_last() =~= sv.take(i - 1));
                if i == 1 {
                    assert(sv.take(1) =~= seq![sv[0]]);
                }
            }
        }
        assert(sv.take(sans.len() as int) =~= sv);
    }
    let total = chars_of(version.as_str()).len();
    if total == 0 {
        Err(ProbeError::NoMatch)
    } else {
        Ok(ProbeMatch { service: "tls", version: Some(version), confidence: VersionConfidence::BannerExact })
    }
}

/// What a TLS probe concludes from the server's leaf certificate in DER:
/// a failure when it does not parse, else the result of
/// [`tls_names_result`] on its names.
pub fn tls_probe_result(der: &[u8]) -> (r: Result<ProbeMatch, ProbeError>)
    ensures
        match (x509_common_name(der@), x509_dns_names(der@)) {
            (Some(cn), Some(sans)) => {
                let t = tls_text(cn, sans);
                if t.len() == 0 {
                    r == Err::<ProbeMatch, ProbeError>(ProbeError::NoMatch)
                } else {
                    r matches Ok(m) && m.service@ == "tls"@ && opt_view(m.version) == Some(t)
                        && m.confidence == VersionConfidence::BannerExact
                }
            },
            _ => r matches Err(ProbeError::Failed { context }) && context@ == error_context_result(
                vstd::utf8::encode_utf8("cert parse failed"@),
            ),
        },
{
    let cn = match cert_common_name(der) {
        Some(cn) => cn,
        None => return Err(sanitized_error("cert parse failed")),
    };
    let sans = match cert_dns_names(der) {
        Some(s) => s,
        None => return Err(sanitized_error("cert parse failed")),
    };
    tls_names_result(cn, &sans)
}

} // verus!
