//! Version strings read out of service banners.

use vstd::prelude::*;

use crate::sanitize::{lines, lines_from, split_lines, strip_cr};
use crate::text::{
    chars_from, chars_of, contains_char, has_char, has_prefix, is_whitespace, is_ws,
    lowercase_of, opt_view, push_chars, second_field, second_field_of, starts_with, string_of,
    strip_prefix, text_eq, to_lowercase, trim, trim_chars, trim_start_matches,
    trim_start_matching,
};

verus! {

// ---------------------------------------------------------------------------
// Runs of characters
// ---------------------------------------------------------------------------

/// Characters that end a run of a version number: anything but an ASCII
/// digit or a dot.
pub open spec fn not_version_char(c: char) -> bool {
    !(('0' <= c && c <= '9') || c == '.')
}

/// The maximal non-empty runs of `s` between whitespace characters
/// (`split_whitespace`), after the partial run `cur`.
pub open spec fn words_from(s: Seq<char>, cur: Seq<char>) -> Seq<Seq<char>>
    decreases s.len(),
{
    if s.len() == 0 {
        if cur.len() == 0 {
            Seq::empty()
        } else {
            seq![cur]
        }
    } else if is_ws(s[0]) {
        (if cur.len() == 0 {
            Seq::empty()
        } else {
            seq![cur]
        }) + words_from(s.drop_first(), Seq::empty())
    } else {
        words_from(s.drop_first(), cur.push(s[0]))
    }
}

/// The maximal non-empty runs of digits and dots of `s`, after the partial
/// run `cur`.
pub open spec fn numbers_from(s: Seq<char>, cur: Seq<char>) -> Seq<Seq<char>>
    decreases s.len(),
{
    if s.len() == 0 {
        if cur.len() == 0 {
            Seq::empty()
        } else {
            seq![cur]
        }
    } else if not_version_char(s[0]) {
        (if cur.len() == 0 {
            Seq::empty()
        } else {
            seq![cur]
        }) + numbers_from(s.drop_first(), Seq::empty())
    } else {
        numbers_from(s.drop_first(), cur.push(s[0]))
    }
}

pub open spec fn has_ascii_digit(w: Seq<char>) -> bool {
    exists|i: int| 0 <= i < w.len() && '0' <= #[trigger] w[i] && w[i] <= '9'
}

/// An FTP banner word that looks like a version: a digit and a dot.
pub open spec fn ftp_version_word(w: Seq<char>) -> bool {
    has_ascii_digit(w) && has_char(w, '.')
}

/// The first word satisfying `ftp_version_word`.
pub open spec fn first_ftp_word(ws: Seq<Seq<char>>) -> Option<Seq<char>>
    decreases ws.len(),
{
    if ws.len() == 0 {
        None
    } else if ftp_version_word(ws[0]) {
        Some(ws[0])
    } else {
        first_ftp_word(ws.drop_first())
    }
}

/// The first run holding a dot.
pub open spec fn first_dotted(ws: Seq<Seq<char>>) -> Option<Seq<char>>
    decreases ws.len(),
{
    if ws.len() == 0 {
        None
    } else if has_char(ws[0], '.') {
        Some(ws[0])
    } else {
        first_dotted(ws.drop_first())
    }
}

fn has_digit(w: &Vec<char>) -> (r: bool)
    ensures
        r == has_ascii_digit(w@),
{
    let mut i: usize = 0;
    while i < w.len()
        invariant
            i <= w.len(),
            forall|k: int| 0 <= k < i ==> !('0' <= w@[k] && w@[k] <= '9'),
        decreases w.len() - i,
    {
        if '0' <= w[i] && w[i] <= '9' {
            return true;
        }
        i = i + 1;
    }
    false
}

/// The first whitespace-separated word of `s` that holds a digit and a dot.
fn ftp_word(s: &Vec<char>) -> (r: Option<Vec<char>>)
    ensures
        match r {
            Some(v) => first_ftp_word(words_from(s@, Seq::empty())) == Some(v@),
            None => first_ftp_word(words_from(s@, Seq::empty())) is None,
        },
{
    let mut cur: Vec<char> = Vec::new();
    let mut i: usize = 0;
    assert(s@.skip(0) =~= s@);
    while i < s.len()
        invariant
            i <= s.len(),
            first_ftp_word(words_from(s@, Seq::empty())) == first_ftp_word(
                words_from(s@.skip(i as int), cur@),
            ),
        decreases s.len() - i,
    {
        let ghost rest = s@.skip(i as int);
        assert(rest.drop_first() =~= s@.skip(i + 1));
        assert(rest[0] == s@[i as int]);
        if is_whitespace(s[i]) {
            if cur.len() > 0 {
                let ghost tail = words_from(s@.skip(i + 1), Seq::empty());
                assert((seq![cur@] + tail).drop_first() =~= tail);
                assert((seq![cur@] + tail)[0] == cur@);
                if has_digit(&cur) && contains_char(&cur, '.') {
                    return Some(cur);
                }
            } else {
                assert(Seq::<Seq<char>>::empty() + words_from(s@.skip(i + 1), Seq::empty())
                    =~= words_from(s@.skip(i + 1), Seq::empty()));
            }
            cur = Vec::new();
            assert(cur@ =~= Seq::<char>::empty());
        } else {
            cur.push(s[i]);
        }
        i = i + 1;
    }
    assert(s@.skip(i as int) =~= Seq::<char>::empty());
    if cur.len() > 0 {
        assert(seq![cur@].drop_first() =~= Seq::<Seq<char>>::empty());
        assert(first_ftp_word(Seq::<Seq<char>>::empty()) is None);
        assert(words_from(s@.skip(i as int), cur@) == seq![cur@]);
        if has_digit(&cur) && contains_char(&cur, '.') {
            return Some(cur);
        }
    } else {
        assert(words_from(s@.skip(i as int), cur@) == Seq::<Seq<char>>::empty());
    }
    None
}

/// The first maximal run of digits and dots of `s` that holds a dot.
fn dotted_number(s: &Vec<char>) -> (r: Option<Vec<char>>)
    ensures
        match r {
            Some(v) => first_dotted(numbers_from(s@, Seq::empty())) == Some(v@),
            None => first_dotted(numbers_from(s@, Seq::empty())) is None,
        },
{
    let mut cur: Vec<char> = Vec::new();
    let mut i: usize = 0;
    assert(s@.skip(0) =~= s@);
    while i < s.len()
        invariant
            i <= s.len(),
            first_dotted(numbers_from(s@, Seq::empty())) == first_dotted(
                numbers_from(s@.skip(i as int), cur@),
            ),
        decreases s.len() - i,
    {
        let ghost rest = s@.skip(i as int);
        assert(rest.drop_first() =~= s@.skip(i + 1));
        assert(rest[0] == s@[i as int]);
        let c = s[i];
        if !(('0' <= c && c <= '9') || c == '.') {
            if cur.len() > 0 {
                let ghost tail = numbers_from(s@.skip(i + 1), Seq::empty());
                assert((seq![cur@] + tail).drop_first() =~= tail);
                assert((seq![cur@] + tail)[0] == cur@);
                if contains_char(&cur, '.') {
                    return Some(cur);
                }
            } else {
                assert(Seq::<Seq<char>>::empty() + numbers_from(s@.skip(i + 1), Seq::empty())
                    =~= numbers_from(s@.skip(i + 1), Seq::empty()));
            }
            cur = Vec::new();
            assert(cur@ =~= Seq::<char>::empty());
        } else {
            cur.push(c);
        }
        i = i + 1;
    }
    assert(s@.skip(i as int) =~= Seq::<char>::empty());
    if cur.len() > 0 {
        assert(seq![cur@].drop_first() =~= Seq::<Seq<char>>::empty());
        assert(first_dotted(Seq::<Seq<char>>::empty()) is None);
        assert(numbers_from(s@.skip(i as int), cur@) == seq![cur@]);
        if contains_char(&cur, '.') {
            return Some(cur);
        }
    } else {
        assert(numbers_from(s@.skip(i as int), cur@) == Seq::<Seq<char>>::empty());
    }
    None
}

// ---------------------------------------------------------------------------
// Version numbers for CVE matching
// ---------------------------------------------------------------------------

pub open spec fn http_family(service: Seq<char>) -> bool {
    service == seq!['h', 't', 't', 'p'] || service == seq!['h', 't', 't', 'p', 's'] || service == seq!['h', 't', 't', 'p', '-', 'p', 'r', 'o', 'x', 'y']
        || service == seq!['h', 't', 't', 'p', 's', '-', 'a', 'l', 't'] || service == seq!['h', 't', 't', 'p', '-', 'a', 'l', 't']
}

/// The version number read from `banner` of `service`, where `lowered` is
/// the lower-case form of the banner:
/// - ssh: the field after the first '_';
/// - the http family: the field after the first '/', once a leading
///   "Server:" (any case) is removed with the spaces around the rest;
/// - ftp: the first word holding a digit and a dot;
/// - mysql: what follows "MySQL ";
/// - others: the first run of digits and dots that holds a dot.
pub open spec fn version_num_with(service: Seq<char>, banner: Seq<char>, lowered: Seq<char>) -> Option<
    Seq<char>,
> {
    if service == seq!['s', 's', 'h'] {
        second_field(banner, '_')
    } else if http_family(service) {
        let s = if has_prefix(lowered, seq!['s', 'e', 'r', 'v', 'e', 'r', ':']) {
            trim(trim_start_matches(banner, seq!['S', 'e', 'r', 'v', 'e', 'r', ':']))
        } else {
            banner
        };
        second_field(s, '/')
    } else if service == seq!['f', 't', 'p'] {
        first_ftp_word(words_from(banner, Seq::empty()))
    } else if service == seq!['m', 'y', 's', 'q', 'l'] {
        strip_prefix(banner, seq!['M', 'y', 'S', 'Q', 'L', ' '])
    } else {
        first_dotted(numbers_from(banner, Seq::empty()))
    }
}

/// The version number read from `banner` of `service` (see
/// [`version_num_with`]).
pub open spec fn version_num(service: Seq<char>, banner: Seq<char>) -> Option<Seq<char>> {
    version_num_with(service, banner, lowercase_of(banner))
}

fn opt_string(r: Option<Vec<char>>) -> (s: Option<String>)
    ensures
        match r {
            Some(v) => opt_view(s) == Some(v@),
            None => s is None,
        },
{
    match r {
        Some(v) => Some(string_of(&v)),
        None => None,
    }
}

/// The version number of `banner` given its lower-case form `lowered`.
pub fn version_num_given(service: &str, banner: &str, lowered: &str) -> (r: Option<String>)
    ensures
        opt_view(r) == version_num_with(service@, banner@, lowered@),
{
    let sv = chars_of(service);
    let b = chars_of(banner);
    let ssh = vec!['s', 's', 'h'];
    let http = vec!['h', 't', 't', 'p'];
    let https = vec!['h', 't', 't', 'p', 's'];
    let proxy = vec!['h', 't', 't', 'p', '-', 'p', 'r', 'o', 'x', 'y'];
    let https_alt = vec!['h', 't', 't', 'p', 's', '-', 'a', 'l', 't'];
    let http_alt = vec!['h', 't', 't', 'p', '-', 'a', 'l', 't'];
    let ftp = vec!['f', 't', 'p'];
    let mysql = vec!['m', 'y', 's', 'q', 'l'];
    assert(ssh@ =~= seq!['s', 's', 'h']);
    assert(http@ =~= seq!['h', 't', 't', 'p']);
    assert(https@ =~= seq!['h', 't', 't', 'p', 's']);
    assert(proxy@ =~= seq!['h', 't', 't', 'p', '-', 'p', 'r', 'o', 'x', 'y']);
    assert(https_alt@ =~= seq!['h', 't', 't', 'p', 's', '-', 'a', 'l', 't']);
    assert(http_alt@ =~= seq!['h', 't', 't', 'p', '-', 'a', 'l', 't']);
    assert(ftp@ =~= seq!['f', 't', 'p']);
    assert(mysql@ =~= seq!['m', 'y', 's', 'q', 'l']);
    if text_eq(&sv, &ssh) {
        opt_string(second_field_of(&b, '_'))
    } else if text_eq(&sv, &http) || text_eq(&sv, &https) || text_eq(&sv, &proxy) || text_eq(
        &sv,
        &https_alt,
    ) || text_eq(&sv, &http_alt) {
        let low = chars_of(lowered);
        let tag = vec!['s', 'e', 'r', 'v', 'e', 'r', ':'];
        assert(tag@ =~= seq!['s', 'e', 'r', 'v', 'e', 'r', ':']);
        let s = if starts_with(&low, &tag) {
            let p = vec!['S', 'e', 'r', 'v', 'e', 'r', ':'];
            assert(p@ =~= seq!['S', 'e', 'r', 'v', 'e', 'r', ':']);
            let rest = trim_start_matching(&b, &p);
            trim_chars(&rest)
        } else {
            b
        };
        opt_string(second_field_of(&s, '/'))
    } else if text_eq(&sv, &ftp) {
        opt_string(ftp_word(&b))
    } else if text_eq(&sv, &mysql) {
        let p = vec!['M', 'y', 'S', 'Q', 'L', ' '];
        assert(p@ =~= seq!['M', 'y', 'S', 'Q', 'L', ' ']);
        if starts_with(&b, &p) {
            Some(string_of(&chars_from(&b, p.len())))
        } else {
            None
        }
    } else {
        opt_string(dotted_number(&b))
    }
}

/// Extracts a clean version number from a banner, for CVE matching (see
/// [`version_num_with`]).
pub fn extract_version_num(service: &str, banner: &str) -> (r: Option<String>)
    ensures
        opt_view(r) == version_num(service@, banner@),
{
    let lowered = to_lowercase(banner);
    version_num_given(service, banner, lowered.as_str())
}

// ---------------------------------------------------------------------------
// Human-readable versions
// ---------------------------------------------------------------------------

/// Bytes taken by `c` in UTF-8 (`char::len_utf8`).
pub open spec fn utf8_len(c: char) -> nat {
    if (c as u32) < 0x80 {
        1
    } else if (c as u32) < 0x800 {
        2
    } else if (c as u32) < 0x10000 {
        3
    } else {
        4
    }
}

/// Bytes taken by `s` in UTF-8.
pub open spec fn bytes_len(s: Seq<char>) -> nat
    decreases s.len(),
{
    if s.len() == 0 {
        0
    } else {
        bytes_len(s.drop_last()) + utf8_len(s.last())
    }
}

/// The first line whose lower-case form starts with "server:".
pub open spec fn first_server_line(ls: Seq<Seq<char>>) -> Option<Seq<char>>
    decreases ls.len(),
{
    if ls.len() == 0 {
        None
    } else if has_prefix(lowercase_of(ls[0]), seq!['s', 'e', 'r', 'v', 'e', 'r', ':']) {
        Some(ls[0])
    } else {
        first_server_line(ls.drop_first())
    }
}

/// The value of a header line: the field after its first ':', trimmed.
pub open spec fn header_value(line: Seq<char>) -> Option<Seq<char>> {
    match second_field(line, ':') {
        Some(f) => Some(trim(f)),
        None => None,
    }
}

/// `banner` trimmed, cut after its first 60 bytes with "..." appended when
/// it is 60 bytes or longer (`k` is the number of characters in those 60
/// bytes).
pub open spec fn shortened(t: Seq<char>, k: int) -> Seq<char> {
    if bytes_len(t) < 60 {
        t
    } else {
        t.take(k) + seq!['.', '.', '.']
    }
}

/// The human-readable version of `banner` of `service`:
/// - ssh: what follows "SSH-2.0-";
/// - http, https: the value of the first "Server:" line (any case);
/// - ftp: the second word;
/// - others: the trimmed banner, shortened (see [`shortened`]).
pub open spec fn version_text(service: Seq<char>, banner: Seq<char>) -> Option<Seq<char>> {
    if service == seq!['s', 's', 'h'] {
        strip_prefix(banner, seq!['S', 'S', 'H', '-', '2', '.', '0', '-'])
    } else if service == seq!['h', 't', 't', 'p'] || service == seq!['h', 't', 't', 'p', 's'] {
        match first_server_line(lines(banner)) {
            Some(l) => header_value(l),
            None => None,
        }
    } else if service == seq!['f', 't', 'p'] {
        let ws = words_from(banner, Seq::empty());
        if ws.len() > 1 {
            Some(ws[1])
        } else {
            None
        }
    } else {
        let t = trim(banner);
        Some(shortened(t, choose|k: int| 0 <= k <= t.len() && bytes_len(#[trigger] t.take(k)) == 60))
    }
}

/// The value of a header line: the field after its first ':', trimmed.
pub fn header_line_value(line: &str) -> (r: Option<String>)
    ensures
        opt_view(r) == header_value(line@),
{
    let cs = chars_of(line);
    match second_field_of(&cs, ':') {
        Some(f) => Some(string_of(&trim_chars(&f))),
        None => None,
    }
}

fn char_utf8_len(c: char) -> (r: usize)
    ensures
        r == utf8_len(c),
{
    let v = c as u32;
    if v < 0x80 {
        1
    } else if v < 0x800 {
        2
    } else if v < 0x10000 {
        3
    } else {
        4
    }
}

/// The words of `s` split at whitespace (`split_whitespace`).
fn words(s: &Vec<char>) -> (ws: Vec<Vec<char>>)
    ensures
        ws@.map_values(|w: Vec<char>| w@) == words_from(s@, Seq::empty()),
{
    let mut ws: Vec<Vec<char>> = Vec::new();
    let mut cur: Vec<char> = Vec::new();
    let mut i: usize = 0;
    assert(s@.skip(0) =~= s@);
    assert(ws@.map_values(|w: Vec<char>| w@) + words_from(s@, Seq::empty()) =~= words_from(
        s@,
        Seq::empty(),
    ));
    while i < s.len()
        invariant
            i <= s.len(),
            ws@.map_values(|w: Vec<char>| w@) + words_from(s@.skip(i as int), cur@) == words_from(
                s@,
                Seq::empty(),
            ),
        decreases s.len() - i,
    {
        let ghost rest = s@.skip(i as int);
        assert(rest.drop_first() =~= s@.skip(i + 1));
        assert(rest[0] == s@[i as int]);
        let ghost before = ws@.map_values(|w: Vec<char>| w@);
        let ghost tail = words_from(s@.skip(i + 1), Seq::empty());
        if is_whitespace(s[i]) {
            if cur.len() > 0 {
                let ghost cv = cur@;
                ws.push(cur);
                assert(ws@.map_values(|w: Vec<char>| w@) =~= before.push(cv));
                assert(before.push(cv) + tail =~= before + (seq![cv] + tail));
            } else {
                assert(before + (Seq::<Seq<char>>::empty() + tail) =~= before + tail);
            }
            cur = Vec::new();
            assert(cur@ =~= Seq::<char>::empty());
        } else {
            cur.push(s[i]);
        }
        i = i + 1;
    }
    assert(s@.skip(i as int) =~= Seq::<char>::empty());
    if cur.len() > 0 {
        let ghost before = ws@.map_values(|w: Vec<char>| w@);
        let ghost cv = cur@;
        ws.push(cur);
        assert(ws@.map_values(|w: Vec<char>| w@) =~= before + seq![cv]);
    } else {
        assert(ws@.map_values(|w: Vec<char>| w@) =~= ws@.map_values(|w: Vec<char>| w@) + Seq::<
            Seq<char>,
        >::empty());
    }
    ws
}

/// Extracts a human-readable version from a service banner (see
/// [`version_text`]). A banner of 60 bytes or more must not have a
/// character across its 60th byte.
pub fn extract_version(service: &str, banner: &str) -> (r: Option<String>)
    requires
        service@ != seq!['s', 's', 'h'] && service@ != seq!['h', 't', 't', 'p'] && service@ != seq!['h', 't', 't', 'p', 's']
            && service@ != seq!['f', 't', 'p'] && bytes_len(trim(banner@)) >= 60 ==> exists|k: int|
            0 <= k <= trim(banner@).len() && bytes_len(#[trigger] trim(banner@).take(k)) == 60,
    ensures
        opt_view(r) == version_text(service@, banner@),
{
    let sv = chars_of(service);
    let b = chars_of(banner);
    let ssh = vec!['s', 's', 'h'];
    let http = vec!['h', 't', 't', 'p'];
    let https = vec!['h', 't', 't', 'p', 's'];
    let ftp = vec!['f', 't', 'p'];
    assert(ssh@ =~= seq!['s', 's', 'h']);
    assert(http@ =~= seq!['h', 't', 't', 'p']);
    assert(https@ =~= seq!['h', 't', 't', 'p', 's']);
    assert(ftp@ =~= seq!['f', 't', 'p']);
    if text_eq(&sv, &ssh) {
        let p = vec!['S', 'S', 'H', '-', '2', '.', '0', '-'];
        assert(p@ =~= seq!['S', 'S', 'H', '-', '2', '.', '0', '-']);
        if starts_with(&b, &p) {
            Some(string_of(&chars_from(&b, p.len())))
        } else {
            None
        }
    } else if text_eq(&sv, &http) || text_eq(&sv, &https) {
        let ls = split_lines(&b);
        let ghost all = ls@.map_values(|l: Vec<char>| l@);
        let tag = vec!['s', 'e', 'r', 'v', 'e', 'r', ':'];
        assert(tag@ =~= seq!['s', 'e', 'r', 'v', 'e', 'r', ':']);
        let mut i: usize = 0;
        assert(all.skip(0) =~= all);
        while i < ls.len()
            invariant
                i <= ls.len(),
                all == ls@.map_values(|l: Vec<char>| l@),
                all == lines(b@),
                b@ == banner@,
                service@ != seq!['s', 's', 'h'],
                service@ == seq!['h', 't', 't', 'p'] || service@ == seq!['h', 't', 't', 'p', 's'],
                tag@ == seq!['s', 'e', 'r', 'v', 'e', 'r', ':'],
                first_server_line(all) == first_server_line(all.skip(i as int)),
            decreases ls.len() - i,
        {
            assert(all.skip(i as int).drop_first() =~= all.skip(i + 1));
            assert(all.skip(i as int)[0] == ls@[i as int]@);
            let line = string_of(&ls[i]);
            let low = to_lowercase(line.as_str());
            let lc = chars_of(low.as_str());
            if starts_with(&lc, &tag) {
                assert(first_server_line(all.skip(i as int)) == Some(ls@[i as int]@));
                assert(first_server_line(lines(banner@)) == Some(line@));
                return header_line_value(line.as_str());
            }
            i = i + 1;
        }
        assert(all.skip(i as int) =~= Seq::<Seq<char>>::empty());
        None
    } else if text_eq(&sv, &ftp) {
        let ws = words(&b);
        if ws.len() > 1 {
            Some(string_of(&ws[1]))
        } else {
            None
        }
    } else {
        let t = trim_chars(&b);
        let mut n: usize = 0;
        let mut k: usize = 0;
        while k < t.len() && n < 60
            invariant
                k <= t.len(),
                n == bytes_len(t@.take(k as int)),
                n < 64,
                k > 0 ==> bytes_len(t@.take(k - 1)) < 60,
            decreases t.len() - k,
        {
            assert(t@.take(k + 1).drop_last() =~= t@.take(k as int));
            n = n + char_utf8_len(t[k]);
            k = k + 1;
        }
        let ghost kk = choose|j: int| 0 <= j <= t@.len() && bytes_len(#[trigger] t@.take(j)) == 60;
        proof {
            lemma_bytes_len_monotone(t@);
        }
        if n < 60 {
            assert(t@.take(k as int) =~= t@);
            Some(string_of(&t))
        } else {
            proof {
                lemma_bytes_len_monotone(t@);
                assert(t@.take(t@.len() as int) =~= t@);
                if k < t@.len() {
                    assert(bytes_len(t@.take(k as int)) < bytes_len(t@.take(t@.len() as int)));
                }
                assert(bytes_len(t@) >= 60);
                assert(k > 0);
                if kk < k - 1 {
                    assert(bytes_len(t@.take(kk)) < bytes_len(t@.take(k - 1)));
                } else if kk > k {
                    assert(bytes_len(t@.take(k as int)) < bytes_len(t@.take(kk)));
                }
                assert(kk == k);
            }
            let mut out: Vec<char> = Vec::new();
            let mut j: usize = 0;
            while j < k
                invariant
                    j <= k <= t.len(),
                    out@ == t@.take(j as int),
                decreases k - j,
            {
                out.push(t[j]);
                j = j + 1;
                assert(out@ =~= t@.take(j as int));
            }
            out.push('.');
            out.push('.');
            out.push('.');
            assert(out@ =~= t@.take(k as int) + seq!['.', '.', '.']);
            Some(string_of(&out))
        }
    }
}

/// Byte lengths of prefixes grow strictly with the prefix.
proof fn lemma_bytes_len_monotone(t: Seq<char>)
    ensures
        forall|a: int, b: int|
            0 <= a < b <= t.len() ==> bytes_len(#[trigger] t.take(a)) < bytes_len(#[trigger] t.take(b)),
    decreases t.len(),
{
    if t.len() > 0 {
        lemma_bytes_len_monotone(t.drop_last());
        assert forall|a: int, b: int|
            0 <= a < b <= t.len() implies bytes_len(#[trigger] t.take(a)) < bytes_len(#[trigger] t.take(b)) by {
            if b < t.len() {
                assert(t.take(a) =~= t.drop_last().take(a));
                assert(t.take(b) =~= t.drop_last().take(b));
            } else {
                assert(t.take(b).drop_last() =~= t.drop_last());
                if a < b - 1 {
                    assert(t.take(a) =~= t.drop_last().take(a));
                    assert(t.drop_last().take(b - 1) =~= t.drop_last());
                } else {
                    assert(t.take(a) =~= t.drop_last());
                }
            }
        }
    }
}

} // verus!
