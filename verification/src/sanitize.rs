//! Cleaning of untrusted data received from remote hosts: banners,
//! certificate fields and error contexts.

use vstd::prelude::*;

use crate::text::{
    matches_at,
    chars_of, contains, contains_char, contains_seq, has_char, occurs_at, push_char,
    push_chars, string_of,
};

verus! {

// ---------------------------------------------------------------------------
// Specifications
// ---------------------------------------------------------------------------

/// Bytes kept by the sanitizers: printable ASCII, tab, line feed and
/// carriage return.
pub open spec fn kept_byte(b: u8) -> bool {
    (0x20 <= b && b <= 0x7E) || b == 9 || b == 10 || b == 13
}

/// The kept bytes of `s`, in order, as characters.
pub open spec fn printable(s: Seq<u8>) -> Seq<char>
    decreases s.len(),
{
    if s.len() == 0 {
        Seq::empty()
    } else {
        let rest = printable(s.drop_last());
        if kept_byte(s.last()) {
            rest.push(s.last() as char)
        } else {
            rest
        }
    }
}

/// What [`sanitize_banner`] returns for `raw` and `max_bytes`.
pub open spec fn banner_result(raw: Seq<u8>, max_bytes: nat) -> Option<Seq<char>> {
    let p = raw.take(if raw.len() < max_bytes { raw.len() as int } else { max_bytes as int });
    if raw.len() == 0 || max_bytes == 0 {
        None
    } else if p.contains(0u8) {
        None
    } else if printable(p).len() == 0 {
        None
    } else {
        Some(printable(p))
    }
}

/// `line` with one trailing carriage return removed.
pub open spec fn strip_cr(line: Seq<char>) -> Seq<char> {
    if line.len() > 0 && line.last() == '\r' {
        line.drop_last()
    } else {
        line
    }
}

/// The lines of `s` after the partial line `cur`, as `str::lines` splits
/// them: at each line feed, with a carriage return before it removed, and
/// no empty line after a final line feed.
pub open spec fn lines_from(s: Seq<char>, cur: Seq<char>) -> Seq<Seq<char>>
    decreases s.len(),
{
    if s.len() == 0 {
        if cur.len() == 0 {
            Seq::empty()
        } else {
            seq![cur]
        }
    } else if s[0] == '\n' {
        seq![strip_cr(cur)] + lines_from(s.drop_first(), Seq::empty())
    } else {
        lines_from(s.drop_first(), cur.push(s[0]))
    }
}

pub open spec fn lines(s: Seq<char>) -> Seq<Seq<char>> {
    lines_from(s, Seq::empty())
}

/// The lines joined with line feeds between them.
pub open spec fn join_lines(ls: Seq<Seq<char>>) -> Seq<char>
    decreases ls.len(),
{
    if ls.len() == 0 {
        Seq::empty()
    } else if ls.len() == 1 {
        ls[0]
    } else {
        join_lines(ls.drop_last()) + seq!['\n'] + ls.last()
    }
}

pub open spec fn is_digit(c: char) -> bool {
    '0' <= c && c <= '9'
}

pub open spec fn digit_value(c: char) -> int {
    (c as int) - ('0' as int)
}

pub open spec fn tag_172() -> Seq<char> {
    seq!['1', '7', '2', '.']
}

/// At position `i` of `s` stands "172." followed by two digits forming a
/// number from 16 to 31: an address of 172.16.0.0/12.
pub open spec fn private_172_at(s: Seq<char>, i: int) -> bool {
    &&& crate::text::occurs_at(s, tag_172(), i)
    &&& i + 6 <= s.len()
    &&& is_digit(s[i + 4])
    &&& is_digit(s[i + 5])
    &&& 16 <= 10 * digit_value(s[i + 4]) + digit_value(s[i + 5]) <= 31
}

/// Some "172." of `s` is followed by two digits forming a number from 16 to
/// 31.
pub open spec fn has_172_private(s: Seq<char>) -> bool {
    exists|i: int| #[trigger] private_172_at(s, i)
}

pub open spec fn needle_10() -> Seq<char> {
    seq!['1', '0', '.']
}

pub open spec fn needle_192() -> Seq<char> {
    seq!['1', '9', '2', '.', '1', '6', '8', '.']
}

pub open spec fn needle_at() -> Seq<char> {
    seq!['a', 't', ' ']
}

pub open spec fn needle_in() -> Seq<char> {
    seq![' ', 'i', 'n', ' ']
}

/// A line that [`sanitize_error_context`] keeps: no internal address, no
/// stack-trace marker, no path separator.
pub open spec fn safe_line(line: Seq<char>) -> bool {
    &&& !contains_seq(line, needle_10())
    &&& !contains_seq(line, needle_192())
    &&& !has_172_private(line)
    &&& !contains_seq(line, needle_at())
    &&& !contains_seq(line, needle_in())
    &&& !has_char(line, '/')
    &&& !has_char(line, '\\')
}

/// The safe lines of `ls`, in order.
pub open spec fn safe_lines(ls: Seq<Seq<char>>) -> Seq<Seq<char>>
    decreases ls.len(),
{
    if ls.len() == 0 {
        Seq::empty()
    } else if safe_line(ls.last()) {
        safe_lines(ls.drop_last()).push(ls.last())
    } else {
        safe_lines(ls.drop_last())
    }
}

/// What [`sanitize_error_context`] returns for `raw`.
pub open spec fn error_context_result(raw: Seq<u8>) -> Seq<char> {
    let p = raw.take(if raw.len() < 512 { raw.len() as int } else { 512 });
    join_lines(safe_lines(lines(printable(p))))
}

// ---------------------------------------------------------------------------
// Banners and certificate fields
// ---------------------------------------------------------------------------

/// The kept bytes of `raw`, as characters.
fn printable_chars(raw: &[u8], len: usize) -> (r: Vec<char>)
    requires
        len <= raw.len(),
    ensures
        r@ == printable(raw@.take(len as int)),
{
    let mut r: Vec<char> = Vec::new();
    let mut i: usize = 0;
    while i < len
        invariant
            i <= len <= raw.len(),
            r@ == printable(raw@.take(i as int)),
        decreases len - i,
    {
        let b = raw[i];
        assert(raw@.take(i + 1).drop_last() =~= raw@.take(i as int));
        if (0x20 <= b && b <= 0x7E) || b == 9 || b == 10 || b == 13 {
            r.push(b as char);
        }
        i = i + 1;
    }
    r
}

/// Whether a zero byte occurs among the first `len` bytes.
fn has_zero(raw: &[u8], len: usize) -> (r: bool)
    requires
        len <= raw.len(),
    ensures
        r == raw@.take(len as int).contains(0u8),
{
    let mut i: usize = 0;
    while i < len
        invariant
            i <= len <= raw.len(),
            forall|k: int| 0 <= k < i ==> raw@[k] != 0,
        decreases len - i,
    {
        if raw[i] == 0 {
            assert(raw@.take(len as int)[i as int] == 0);
            return true;
        }
        i = i + 1;
    }
    assert forall|k: int| 0 <= k < len implies raw@.take(len as int)[k] != 0u8 by {}
    false
}

/// Sanitizes banner bytes from a remote service: at most `max_bytes` bytes
/// are read; a zero byte among them rejects the whole input; of the rest
/// only printable ASCII, tab, line feed and carriage return are kept; an
/// empty input or an empty result gives `None`.
pub fn sanitize_banner(raw: &[u8], max_bytes: usize) -> (r: Option<String>)
    ensures
        crate::text::opt_view(r) == banner_result(raw@, max_bytes as nat),
{
    if raw.len() == 0 || max_bytes == 0 {
        return None;
    }
    let len = if raw.len() < max_bytes {
        raw.len()
    } else {
        max_bytes
    };
    if has_zero(raw, len) {
        return None;
    }
    let cs = printable_chars(raw, len);
    if cs.len() == 0 {
        None
    } else {
        Some(string_of(&cs))
    }
}

/// Sanitizes a certificate field: [`sanitize_banner`] with a limit of 255
/// bytes.
pub fn sanitize_cert_field(raw: &[u8]) -> (r: Option<String>)
    ensures
        crate::text::opt_view(r) == banner_result(raw@, 255),
{
    sanitize_banner(raw, 255)
}

// ---------------------------------------------------------------------------
// Error contexts
// ---------------------------------------------------------------------------

/// Splits `s` into lines as `str::lines` does.
pub fn split_lines(s: &Vec<char>) -> (ls: Vec<Vec<char>>)
    ensures
        ls@.map_values(|l: Vec<char>| l@) == lines(s@),
{
    let mut ls: Vec<Vec<char>> = Vec::new();
    let mut cur: Vec<char> = Vec::new();
    let mut i: usize = 0;
    assert(s@.skip(0) =~= s@);
    while i < s.len()
        invariant
            i <= s.len(),
            ls@.map_values(|l: Vec<char>| l@) + lines_from(s@.skip(i as int), cur@) == lines(s@),
        decreases s.len() - i,
    {
        let ghost rest = s@.skip(i as int);
        assert(rest.drop_first() =~= s@.skip(i + 1));
        let c = s[i];
        if c == '\n' {
            let line = if cur.len() > 0 && cur[cur.len() - 1] == '\r' {
                let mut t: Vec<char> = Vec::new();
                let mut k: usize = 0;
                while k + 1 < cur.len()
                    invariant
                        k < cur.len(),
                        t@ == cur@.take(k as int),
                    decreases cur.len() - k,
                {
                    t.push(cur[k]);
                    k = k + 1;
                    assert(t@ =~= cur@.take(k as int));
                }
                assert(t@ =~= cur@.drop_last());
                t
            } else {
                cur
            };
            let ghost old_ls = ls@.map_values(|l: Vec<char>| l@);
            assert(line@ == strip_cr(cur@));
            ls.push(line);
            assert(ls@.map_values(|l: Vec<char>| l@) =~= old_ls.push(strip_cr(cur@)));
            assert(old_ls.push(strip_cr(cur@)) + lines_from(s@.skip(i + 1), Seq::empty()) =~= old_ls + (
            seq![strip_cr(cur@)] + lines_from(s@.skip(i + 1), Seq::empty())));
            cur = Vec::new();
            assert(cur@ =~= Seq::<char>::empty());
        } else {
            cur.push(c);
        }
        i = i + 1;
    }
    if cur.len() > 0 {
        let ghost old_ls = ls@.map_values(|l: Vec<char>| l@);
        let ghost cv = cur@;
        ls.push(cur);
        assert(ls@.map_values(|l: Vec<char>| l@) =~= old_ls + seq![cv]);
    } else {
        assert(ls@.map_values(|l: Vec<char>| l@) =~= ls@.map_values(|l: Vec<char>| l@) + Seq::<Seq<char>>::empty());
    }
    ls
}

/// Whether some "172." of `s` is followed by a number from 16 to 31.
fn contains_172_private(s: &[char]) -> (r: bool)
    ensures
        r == has_172_private(s@),
{
    let tag = vec!['1', '7', '2', '.'];
    assert(tag@ =~= tag_172());
    let mut i: usize = 0;
    while i < s.len()
        invariant
            i <= s.len(),
            tag@ == tag_172(),
            forall|k: int| 0 <= k < i ==> !private_172_at(s@, k),
        decreases s.len() - i,
    {
        if matches_at(s, &tag, i) && s.len() - i >= 6 {
            let a = s[i + 4];
            let b = s[i + 5];
            if '0' <= a && a <= '9' && '0' <= b && b <= '9' {
                let n: u32 = 10 * ((a as u32) - ('0' as u32)) + ((b as u32) - ('0' as u32));
                if 16 <= n && n <= 31 {
                    assert(private_172_at(s@, i as int));
                    return true;
                }
            }
        }
        i = i + 1;
    }
    proof {
        if has_172_private(s@) {
            let k = choose|k: int| #[trigger] private_172_at(s@, k);
            assert(0 <= k < s@.len());
        }
    }
    false
}

/// Whether a line may be kept in an error context.
fn is_safe_line(line: &Vec<char>) -> (r: bool)
    ensures
        r == safe_line(line@),
{
    let n10 = vec!['1', '0', '.'];
    let n192 = vec!['1', '9', '2', '.', '1', '6', '8', '.'];
    let nat_ = vec!['a', 't', ' '];
    let nin = vec![' ', 'i', 'n', ' '];
    assert(n10@ =~= needle_10());
    assert(n192@ =~= needle_192());
    assert(nat_@ =~= needle_at());
    assert(nin@ =~= needle_in());
    !contains(line, &n10) && !contains(line, &n192) && !contains_172_private(line) && !contains(
        line,
        &nat_,
    ) && !contains(line, &nin) && !contains_char(line, '/') && !contains_char(line, '\\')
}

/// Sanitizes an error context: at most 512 bytes are read and only
/// printable ASCII, tab, line feed and carriage return kept; of its lines,
/// those that mention an internal address ("10.", "192.168.", or any
/// "172." followed by a number from 16 to 31), a
/// stack-trace marker ("at ", " in ") or a path separator are dropped; the
/// rest are joined with line feeds (possibly into an empty string).
pub fn sanitize_error_context(raw: &[u8]) -> (r: String)
    ensures
        r@ == error_context_result(raw@),
{
    let len = if raw.len() < 512 {
        raw.len()
    } else {
        512
    };
    let cleaned = printable_chars(raw, len);
    let ls = split_lines(&cleaned);
    let ghost all = ls@.map_values(|l: Vec<char>| l@);
    let mut out = String::new();
    let mut any = false;
    let mut i: usize = 0;
    while i < ls.len()
        invariant
            i <= ls.len(),
            all == ls@.map_values(|l: Vec<char>| l@),
            out@ == join_lines(safe_lines(all.take(i as int))),
            any == (safe_lines(all.take(i as int)).len() > 0),
        decreases ls.len() - i,
    {
        let ghost before = safe_lines(all.take(i as int));
        assert(all.take(i + 1).drop_last() =~= all.take(i as int));
        assert(all.take(i + 1).last() == ls@[i as int]@);
        if is_safe_line(&ls[i]) {
            if any {
                push_char(&mut out, '\n');
            }
            push_chars(&mut out, &ls[i]);
            proof {
                let after = before.push(ls@[i as int]@);
                assert(after.drop_last() =~= before);
                if before.len() == 0 {
                    assert(out@ =~= join_lines(after));
                }
            }
            any = true;
        }
        i = i + 1;
    }
    assert(all.take(ls.len() as int) =~= all);
    out
}


// ---------------------------------------------------------------------------
// Laws
// ---------------------------------------------------------------------------

/// Characters the sanitizers let through: printable ASCII, tab, line feed
/// and carriage return.
pub open spec fn kept_char(c: char) -> bool {
    (' ' <= c && c <= '~') || c == '\t' || c == '\n' || c == '\r'
}

/// Every character of `t` satisfies `ok`.
pub open spec fn all_chars(t: Seq<char>, ok: spec_fn(char) -> bool) -> bool {
    forall|i: int| 0 <= i < t.len() ==> ok(#[trigger] t[i])
}

proof fn lemma_printable_kept(s: Seq<u8>)
    ensures
        printable(s).len() <= s.len(),
        all_chars(printable(s), |c: char| kept_char(c)),
    decreases s.len(),
{
    if s.len() > 0 {
        lemma_printable_kept(s.drop_last());
        let b = s.last();
        if kept_byte(b) {
            assert(kept_char(b as char));
        }
    }
}

proof fn lemma_lines_from_chars(s: Seq<char>, cur: Seq<char>, ok: spec_fn(char) -> bool)
    requires
        all_chars(s, ok),
        all_chars(cur, ok),
    ensures
        forall|j: int| 0 <= j < lines_from(s, cur).len() ==> all_chars(#[trigger] lines_from(s, cur)[j], ok),
    decreases s.len(),
{
    if s.len() == 0 {
        if cur.len() > 0 {
            assert(lines_from(s, cur) =~= seq![cur]);
        }
    } else {
        assert(all_chars(s.drop_first(), ok)) by {
            assert forall|i: int| 0 <= i < s.drop_first().len() implies ok(#[trigger] s.drop_first()[i]) by {
                assert(s.drop_first()[i] == s[i + 1]);
            }
        }
        if s[0] == '\n' {
            lemma_lines_from_chars(s.drop_first(), Seq::empty(), ok);
            assert(all_chars(strip_cr(cur), ok)) by {
                assert forall|i: int| 0 <= i < strip_cr(cur).len() implies ok(#[trigger] strip_cr(cur)[i]) by {
                    assert(strip_cr(cur)[i] == cur[i]);
                }
            }
            let rest = lines_from(s.drop_first(), Seq::empty());
            assert forall|j: int| 0 <= j < lines_from(s, cur).len() implies all_chars(
                #[trigger] lines_from(s, cur)[j],
                ok,
            ) by {
                if j > 0 {
                    assert(lines_from(s, cur)[j] == rest[j - 1]);
                }
            }
        } else {
            assert(ok(s[0]));
            assert(all_chars(cur.push(s[0]), ok)) by {
                assert forall|i: int| 0 <= i < cur.push(s[0]).len() implies ok(#[trigger] cur.push(s[0])[i]) by {
                    if i < cur.len() {
                        assert(cur.push(s[0])[i] == cur[i]);
                    }
                }
            }
            lemma_lines_from_chars(s.drop_first(), cur.push(s[0]), ok);
            assert(lines_from(s, cur) == lines_from(s.drop_first(), cur.push(s[0])));
        }
    }
}

proof fn lemma_safe_lines_chars(ls: Seq<Seq<char>>)
    requires
        forall|j: int| 0 <= j < ls.len() ==> all_chars(#[trigger] ls[j], |c: char| kept_char(c)),
    ensures
        forall|j: int|
            0 <= j < safe_lines(ls).len() ==> all_chars(
                #[trigger] safe_lines(ls)[j],
                |c: char| kept_char(c) && c != '/' && c != '\\',
            ),
    decreases ls.len(),
{
    if ls.len() > 0 {
        lemma_safe_lines_chars(ls.drop_last());
        let rest = safe_lines(ls.drop_last());
        if safe_line(ls.last()) {
            let l = ls.last();
            assert(all_chars(l, |c: char| kept_char(c)) ) by {
                assert(l == ls[ls.len() - 1]);
            }
            assert forall|j: int| 0 <= j < safe_lines(ls).len() implies all_chars(
                #[trigger] safe_lines(ls)[j],
                |c: char| kept_char(c) && c != '/' && c != '\\',
            ) by {
                if j == rest.len() {
                    assert forall|i: int| 0 <= i < l.len() implies kept_char(#[trigger] l[i]) && l[i] != '/'
                        && l[i] != '\\' by {
                        assert(kept_char(l[i]));
                    }
                }
            }
        }
    }
}

proof fn lemma_join_chars(ls: Seq<Seq<char>>, ok: spec_fn(char) -> bool)
    requires
        ok('\n'),
        forall|j: int| 0 <= j < ls.len() ==> all_chars(#[trigger] ls[j], ok),
    ensures
        all_chars(join_lines(ls), ok),
    decreases ls.len(),
{
    if ls.len() == 1 {
        assert(all_chars(ls[0], ok));
    } else if ls.len() > 1 {
        lemma_join_chars(ls.drop_last(), ok);
        let a = join_lines(ls.drop_last());
        let l = ls.last();
        assert(all_chars(l, ok)) by {
            assert(l == ls[ls.len() - 1]);
        }
        let t = a + seq!['\n'] + l;
        assert forall|i: int| 0 <= i < t.len() implies ok(#[trigger] t[i]) by {
            if i < a.len() {
                assert(t[i] == a[i]);
            } else if i == a.len() {
                assert(t[i] == '\n');
            } else {
                assert(t[i] == l[i - a.len() - 1]);
            }
        }
    }
}

/// A sanitized banner is never longer than `max_bytes` and holds only
/// printable ASCII, tab, line feed and carriage return (so no zero byte and
/// no other control character).
pub proof fn law_banner_is_clean(raw: Seq<u8>, max_bytes: nat)
    ensures
        banner_result(raw, max_bytes) matches Some(b) ==> b.len() <= max_bytes && all_chars(
            b,
            |c: char| kept_char(c),
        ),
{
    let p = raw.take(if raw.len() < max_bytes { raw.len() as int } else { max_bytes as int });
    lemma_printable_kept(p);
}

/// The bytes of ASCII text.
pub open spec fn ascii_bytes(t: Seq<char>) -> Seq<u8> {
    t.map_values(|c: char| c as u8)
}

proof fn lemma_printable_of_kept(t: Seq<char>)
    requires
        all_chars(t, |c: char| kept_char(c)),
    ensures
        printable(ascii_bytes(t)) == t,
        forall|i: int| 0 <= i < t.len() ==> #[trigger] ascii_bytes(t)[i] != 0,
    decreases t.len(),
{
    if t.len() > 0 {
        let u = t.drop_last();
        assert(all_chars(u, |c: char| kept_char(c))) by {
            assert forall|i: int| 0 <= i < u.len() implies kept_char(#[trigger] u[i]) by {
                assert(u[i] == t[i]);
                assert(kept_char(t[i]));
            }
        }
        lemma_printable_of_kept(u);
        assert(ascii_bytes(t).drop_last() =~= ascii_bytes(u));
        let c = t.last();
        assert(kept_char(t[t.len() - 1]));
        assert(ascii_bytes(t).last() == c as u8);
        assert(kept_byte(c as u8));
        assert((c as u8) as char == c);
        assert(printable(ascii_bytes(t)) =~= t);
    }
}

/// Sanitizing a sanitized banner, under the same limit, leaves it as it is.
pub proof fn law_banner_sanitizing_is_idempotent(raw: Seq<u8>, max_bytes: nat)
    requires
        banner_result(raw, max_bytes) is Some,
    ensures
        banner_result(ascii_bytes(banner_result(raw, max_bytes)->0), max_bytes) == banner_result(raw, max_bytes),
{
    let b = banner_result(raw, max_bytes)->0;
    law_banner_is_clean(raw, max_bytes);
    lemma_printable_of_kept(b);
    let q = ascii_bytes(b);
    assert(q.take(if q.len() < max_bytes { q.len() as int } else { max_bytes as int }) =~= q);
    if q.contains(0u8) {
        let i = choose|i: int| 0 <= i < q.len() && q[i] == 0u8;
        assert(q[i] != 0);
    }
}

/// A sanitized error context holds only printable ASCII, tab, line feed and
/// carriage return, and never a path separator ('/' or '\\').
pub proof fn law_error_context_is_clean(raw: Seq<u8>)
    ensures
        all_chars(error_context_result(raw), |c: char| kept_char(c) && c != '/' && c != '\\'),
{
    let p = raw.take(if raw.len() < 512 { raw.len() as int } else { 512 });
    lemma_printable_kept(p);
    lemma_lines_from_chars(printable(p), Seq::empty(), |c: char| kept_char(c));
    lemma_safe_lines_chars(lines(printable(p)));
    lemma_join_chars(safe_lines(lines(printable(p))), |c: char| kept_char(c) && c != '/' && c != '\\');
}

} // verus!
