//! Character-level helpers shared by the parsers and report renderers.

use vstd::prelude::*;
use vstd::string::StringExecFns;

verus! {

// ---------------------------------------------------------------------------
// Specifications
// ---------------------------------------------------------------------------

/// `p` is a prefix of `s`.
pub open spec fn has_prefix(s: Seq<char>, p: Seq<char>) -> bool {
    p.len() <= s.len() && s.take(p.len() as int) == p
}

/// `t` occurs in `s` starting at position `i`.
pub open spec fn occurs_at(s: Seq<char>, t: Seq<char>, i: int) -> bool {
    0 <= i && i + t.len() <= s.len() && s.subrange(i, i + t.len()) == t
}

/// `t` occurs somewhere in `s`.
pub open spec fn contains_seq(s: Seq<char>, t: Seq<char>) -> bool {
    exists|i: int| occurs_at(s, t, i)
}

/// `c` occurs in `s`.
pub open spec fn has_char(s: Seq<char>, c: char) -> bool {
    exists|i: int| 0 <= i < s.len() && s[i] == c
}

/// Decimal digit character for `d < 10`.
pub open spec fn digit_char(d: nat) -> char {
    if d == 0 { '0' } else if d == 1 { '1' } else if d == 2 { '2' } else if d == 3 { '3' }
    else if d == 4 { '4' } else if d == 5 { '5' } else if d == 6 { '6' } else if d == 7 { '7' }
    else if d == 8 { '8' } else { '9' }
}

/// Decimal rendering of a natural number, without leading zeros.
pub open spec fn decimal(n: nat) -> Seq<char>
    decreases n,
{
    if n < 10 {
        seq![digit_char(n)]
    } else {
        decimal(n / 10).push(digit_char(n % 10))
    }
}

// ---------------------------------------------------------------------------
// Conversions between strings and character vectors
// ---------------------------------------------------------------------------

/// The characters of a string slice, in order.
pub fn chars_of(s: &str) -> (v: Vec<char>)
    ensures
        v@ == s@,
{
    let mut v: Vec<char> = Vec::new();
    for c in iter: s.chars()
        invariant
            iter.seq() == s@,
            v@ == iter.seq().take(iter.index()),
    {
        v.push(c);
    }
    v
}

/// Appends one character to a string (`String::push`).
#[verifier::external_body]
pub(crate) fn push_char(s: &mut String, c: char)
    ensures
        final(s)@ == old(s)@.push(c),
{
    s.push(c);
}

/// Appends a string slice to a string.
pub fn push_str(s: &mut String, t: &str)
    ensures
        final(s)@ == old(s)@ + t@,
{
    s.append(t);
}

/// Appends a sequence of characters to a string.
pub fn push_chars(s: &mut String, cs: &[char])
    ensures
        final(s)@ == old(s)@ + cs@,
{
    let ghost start = s@;
    let mut i: usize = 0;
    while i < cs.len()
        invariant
            i <= cs.len(),
            s@ == start + cs@.take(i as int),
        decreases cs.len() - i,
    {
        push_char(s, cs[i]);
        i = i + 1;
        assert(cs@.take(i as int) == cs@.take(i - 1).push(cs@[i - 1]));
    }
    assert(cs@.take(cs.len() as int) == cs@);
}

/// A new string holding the given characters.
pub fn string_of(cs: &[char]) -> (s: String)
    ensures
        s@ == cs@,
{
    let mut s = String::new();
    push_chars(&mut s, cs);
    s
}

/// Appends the decimal rendering of `n`.
pub fn push_decimal(s: &mut String, n: u64)
    ensures
        final(s)@ == old(s)@ + decimal(n as nat),
    decreases n,
{
    if n < 10 {
        push_char(s, digit_of(n));
        assert(decimal(n as nat) == seq![digit_char(n as nat)]);
    } else {
        push_decimal(s, n / 10);
        push_char(s, digit_of(n % 10));
    }
}

fn digit_of(d: u64) -> (c: char)
    requires
        d < 10,
    ensures
        c == digit_char(d as nat),
{
    if d == 0 { '0' } else if d == 1 { '1' } else if d == 2 { '2' } else if d == 3 { '3' }
    else if d == 4 { '4' } else if d == 5 { '5' } else if d == 6 { '6' } else if d == 7 { '7' }
    else if d == 8 { '8' } else { '9' }
}

// ---------------------------------------------------------------------------
// Searching
// ---------------------------------------------------------------------------

/// Whether `t` occurs in `s` at position `i`.
pub fn matches_at(s: &[char], t: &[char], i: usize) -> (r: bool)
    ensures
        r == occurs_at(s@, t@, i as int),
{
    if i > s.len() || t.len() > s.len() - i {
        return false;
    }
    let mut j: usize = 0;
    while j < t.len()
        invariant
            i + t.len() <= s.len(),
            j <= t.len(),
            forall|k: int| 0 <= k < j ==> s@[i + k] == t@[k],
        decreases t.len() - j,
    {
        if s[i + j] != t[j] {
            assert(s@.subrange(i as int, i + t.len())[j as int] != t@[j as int]);
            return false;
        }
        j = j + 1;
    }
    assert(s@.subrange(i as int, i + t.len()) =~= t@);
    true
}

/// Whether `p` is a prefix of `s`.
pub fn starts_with(s: &[char], p: &[char]) -> (r: bool)
    ensures
        r == has_prefix(s@, p@),
{
    let r = matches_at(s, p, 0);
    proof {
        if p@.len() <= s@.len() {
            assert(s@.subrange(0, p@.len() as int) == s@.take(p@.len() as int));
        }
    }
    r
}

/// The first position at or after `from` where `t` occurs in `s`.
pub fn find_from(s: &[char], t: &[char], from: usize) -> (r: Option<usize>)
    ensures
        match r {
            Some(i) => from <= i && occurs_at(s@, t@, i as int)
                && forall|k: int| from <= k < i ==> !occurs_at(s@, t@, k),
            None => forall|k: int| from <= k ==> !occurs_at(s@, t@, k),
        },
{
    if from > s.len() {
        return None;
    }
    let mut i: usize = from;
    loop
        invariant
            from <= i <= s.len(),
            forall|k: int| from <= k < i ==> !occurs_at(s@, t@, k),
        decreases s.len() - i,
    {
        if matches_at(s, t, i) {
            return Some(i);
        }
        if i == s.len() {
            assert forall|k: int| from <= k implies !occurs_at(s@, t@, k) by {
                if k > s.len() {
                }
            }
            return None;
        }
        i = i + 1;
    }
}

/// Whether `t` occurs anywhere in `s`.
pub fn contains(s: &[char], t: &[char]) -> (r: bool)
    ensures
        r == contains_seq(s@, t@),
{
    match find_from(s, t, 0) {
        Some(i) => true,
        None => false,
    }
}

/// Whether the character `c` occurs in `s`.
pub fn contains_char(s: &[char], c: char) -> (r: bool)
    ensures
        r == has_char(s@, c),
{
    let mut i: usize = 0;
    while i < s.len()
        invariant
            i <= s.len(),
            forall|k: int| 0 <= k < i ==> s@[k] != c,
        decreases s.len() - i,
    {
        if s[i] == c {
            return true;
        }
        i = i + 1;
    }
    false
}

} // verus!

verus! {

// ---------------------------------------------------------------------------
// Lists of strings
// ---------------------------------------------------------------------------

/// The views of a sequence of strings.
pub open spec fn views(v: Seq<String>) -> Seq<Seq<char>> {
    v.map_values(|s: String| s@)
}

/// The view of an optional string.
pub open spec fn opt_view(o: Option<String>) -> Option<Seq<char>> {
    match o {
        Some(s) => Some(s@),
        None => None,
    }
}

/// Copy of an optional string.
pub fn clone_opt(o: &Option<String>) -> (r: Option<String>)
    ensures
        opt_view(r) == opt_view(*o),
{
    match o {
        Some(s) => Some(s.clone()),
        None => None,
    }
}

/// Whether two optional strings hold the same text.
pub fn opt_eq(a: &Option<String>, b: &Option<String>) -> (r: bool)
    ensures
        r == (opt_view(*a) == opt_view(*b)),
{
    match a {
        Some(x) => match b {
            Some(y) => {
                let e = x.eq(y);
                e
            },
            None => false,
        },
        None => b.is_none(),
    }
}

/// Whether `s` holds a string whose text is `t`.
pub fn contains_string(v: &Vec<String>, t: &String) -> (r: bool)
    ensures
        r == views(v@).contains(t@),
{
    let mut i: usize = 0;
    while i < v.len()
        invariant
            i <= v.len(),
            forall|k: int| 0 <= k < i ==> v@[k]@ != t@,
        decreases v.len() - i,
    {
        if v[i] == *t {
            assert(views(v@)[i as int] == t@);
            return true;
        }
        i = i + 1;
    }
    assert forall|k: int| 0 <= k < views(v@).len() implies views(v@)[k] != t@ by {
        assert(views(v@)[k] == v@[k]@);
    }
    false
}

/// Whether `x` occurs in `v`.
pub fn contains_u16(v: &Vec<u16>, x: u16) -> (r: bool)
    ensures
        r == v@.contains(x),
{
    let mut i: usize = 0;
    while i < v.len()
        invariant
            i <= v.len(),
            forall|k: int| 0 <= k < i ==> v@[k] != x,
        decreases v.len() - i,
    {
        if v[i] == x {
            return true;
        }
        i = i + 1;
    }
    false
}

} // verus!

verus! {

/// Appends a copy of `s` unless a string with the same text is present.
pub fn push_unique_string(v: &mut Vec<String>, s: &String)
    requires
        views(old(v)@).no_duplicates(),
    ensures
        views(final(v)@).no_duplicates(),
        forall|x: Seq<char>| #[trigger]
            views(final(v)@).contains(x) <==> (views(old(v)@).contains(x) || x == s@),
        views(old(v)@).contains(s@) ==> final(v)@ == old(v)@,
        !views(old(v)@).contains(s@) ==> views(final(v)@) == views(old(v)@).push(s@),
{
    if !contains_string(v, s) {
        let ghost old_v = v@;
        v.push(s.clone());
        assert(views(v@) =~= views(old_v).push(s@));
        assert(views(v@)[views(old_v).len() as int] == s@);
        assert forall|x: Seq<char>|
            views(v@).contains(x) <==> (views(old_v).contains(x) || x == s@) by {
            if views(old_v).contains(x) {
                let k = choose|k: int| 0 <= k < views(old_v).len() && views(old_v)[k] == x;
                assert(views(v@)[k] == x);
            }
            if views(v@).contains(x) {
                let k = choose|k: int| 0 <= k < views(v@).len() && views(v@)[k] == x;
                if k < views(old_v).len() {
                    assert(views(old_v)[k] == x);
                }
            }
        }
    }
}

/// Appends `x` unless it is present.
pub fn push_unique_u16(v: &mut Vec<u16>, x: u16)
    requires
        old(v)@.no_duplicates(),
    ensures
        final(v)@.no_duplicates(),
        forall|y: u16| #[trigger] final(v)@.contains(y) <==> (old(v)@.contains(y) || y == x),
{
    if !contains_u16(v, x) {
        let ghost old_v = v@;
        v.push(x);
        assert(v@[old_v.len() as int] == x);
        assert forall|y: u16| v@.contains(y) <==> (old_v.contains(y) || y == x) by {
            if old_v.contains(y) {
                let k = choose|k: int| 0 <= k < old_v.len() && old_v[k] == y;
                assert(v@[k] == y);
            }
            if v@.contains(y) {
                let k = choose|k: int| 0 <= k < v@.len() && v@[k] == y;
                if k < old_v.len() {
                    assert(old_v[k] == y);
                }
            }
        }
    }
}

} // verus!

verus! {

// ---------------------------------------------------------------------------
// Lexicographic order of texts
// ---------------------------------------------------------------------------

/// `a` sorts strictly before `b`, character by character (by code point, the
/// order of their UTF-8 bytes).
pub open spec fn lex_lt(a: Seq<char>, b: Seq<char>) -> bool
    decreases a.len(),
{
    if a.len() == 0 {
        b.len() > 0
    } else if b.len() == 0 {
        false
    } else if a[0] != b[0] {
        (a[0] as u32) < (b[0] as u32)
    } else {
        lex_lt(a.drop_first(), b.drop_first())
    }
}

pub proof fn lemma_lex_irreflexive(a: Seq<char>)
    ensures
        !lex_lt(a, a),
    decreases a.len(),
{
    if a.len() > 0 {
        lemma_lex_irreflexive(a.drop_first());
    }
}

pub proof fn lemma_lex_transitive(a: Seq<char>, b: Seq<char>, c: Seq<char>)
    requires
        lex_lt(a, b),
        lex_lt(b, c),
    ensures
        lex_lt(a, c),
    decreases a.len(),
{
    if a.len() > 0 && b.len() > 0 && c.len() > 0 {
        if a[0] == b[0] && b[0] == c[0] {
            lemma_lex_transitive(a.drop_first(), b.drop_first(), c.drop_first());
        }
    }
}

pub proof fn lemma_lex_total(a: Seq<char>, b: Seq<char>)
    ensures
        a == b || lex_lt(a, b) || lex_lt(b, a),
    decreases a.len(),
{
    if a.len() > 0 && b.len() > 0 {
        if a[0] == b[0] {
            lemma_lex_total(a.drop_first(), b.drop_first());
            if a.drop_first() == b.drop_first() {
                assert(a =~= seq![a[0]] + a.drop_first());
                assert(b =~= seq![b[0]] + b.drop_first());
            }
        } else {
            vstd::utf8::char_u32_cast(a[0], a[0] as u32);
            vstd::utf8::char_u32_cast(b[0], b[0] as u32);
            assert((a[0] as u32) != (b[0] as u32));
        }
    } else if a.len() == 0 && b.len() == 0 {
        assert(a =~= b);
    }
}

pub proof fn lemma_lex_asymmetric(a: Seq<char>, b: Seq<char>)
    requires
        lex_lt(a, b),
    ensures
        !lex_lt(b, a),
{
    if lex_lt(b, a) {
        lemma_lex_transitive(a, b, a);
        lemma_lex_irreflexive(a);
    }
}

/// Whether `a` sorts strictly before `b`.
pub fn text_less(a: &[char], b: &[char]) -> (r: bool)
    ensures
        r == lex_lt(a@, b@),
{
    let mut i: usize = 0;
    assert(a@.skip(0) =~= a@);
    assert(b@.skip(0) =~= b@);
    while i < a.len() && i < b.len()
        invariant
            i <= a.len(),
            i <= b.len(),
            a@.take(i as int) == b@.take(i as int),
            lex_lt(a@, b@) == lex_lt(a@.skip(i as int), b@.skip(i as int)),
        decreases a.len() - i,
    {
        let ghost sa = a@.skip(i as int);
        let ghost sb = b@.skip(i as int);
        assert(sa[0] == a@[i as int]);
        assert(sb[0] == b@[i as int]);
        if a[i] != b[i] {
            return (a[i] as u32) < (b[i] as u32);
        }
        assert(sa.drop_first() =~= a@.skip(i + 1));
        assert(sb.drop_first() =~= b@.skip(i + 1));
        assert(a@.take(i + 1) =~= a@.take(i as int).push(a@[i as int]));
        assert(b@.take(i + 1) =~= b@.take(i as int).push(b@[i as int]));
        i = i + 1;
    }
    assert(a@.skip(i as int).len() == 0 || b@.skip(i as int).len() == 0);
    i < b.len()
}

/// Whether two character sequences are equal.
pub fn text_eq(a: &[char], b: &[char]) -> (r: bool)
    ensures
        r == (a@ == b@),
{
    if a.len() != b.len() {
        return false;
    }
    let mut i: usize = 0;
    while i < a.len()
        invariant
            a.len() == b.len(),
            i <= a.len(),
            forall|k: int| 0 <= k < i ==> a@[k] == b@[k],
        decreases a.len() - i,
    {
        if a[i] != b[i] {
            return false;
        }
        i = i + 1;
    }
    assert(a@ =~= b@);
    true
}

} // verus!

verus! {

// ---------------------------------------------------------------------------
// Case, whitespace and fields
// ---------------------------------------------------------------------------

/// What `str::to_lowercase` returns for a text: its lower-case form as
/// Unicode defines it.
pub uninterp spec fn lowercase_of(s: Seq<char>) -> Seq<char>;

/// Every character of `s` is ASCII.
pub open spec fn all_ascii(s: Seq<char>) -> bool {
    forall|i: int| 0 <= i < s.len() ==> (#[trigger] s[i] as int) < 128
}

/// The ASCII lower case of a character: 'A' to 'Z' become 'a' to 'z',
/// every other character stays.
pub open spec fn ascii_lower(c: char) -> char {
    if 'A' <= c && c <= 'Z' {
        ((c as int) + 32) as char
    } else {
        c
    }
}

/// `str::to_lowercase`. Its result is named; of it the contract states only
/// what the Unicode lower-case mapping gives for ASCII text (upper-case
/// letters become lower-case, every other ASCII character stays). For
/// other text the Unicode case tables are not restated here.
#[verifier::external_body]
pub(crate) fn to_lowercase(s: &str) -> (r: String)
    ensures
        r@ == lowercase_of(s@),
        all_ascii(s@) ==> r@ == s@.map_values(|c: char| ascii_lower(c)),
{
    s.to_lowercase()
}

/// The Unicode `White_Space` characters (`char::is_whitespace`).
pub open spec fn is_ws(c: char) -> bool {
    ('\u{9}' <= c && c <= '\u{d}') || c == ' ' || c == '\u{85}' || c == '\u{a0}' || c
        == '\u{1680}' || ('\u{2000}' <= c && c <= '\u{200a}') || c == '\u{2028}' || c
        == '\u{2029}' || c == '\u{202f}' || c == '\u{205f}' || c == '\u{3000}'
}

pub fn is_whitespace(c: char) -> (r: bool)
    ensures
        r == is_ws(c),
{
    ('\u{9}' <= c && c <= '\u{d}') || c == ' ' || c == '\u{85}' || c == '\u{a0}' || c
        == '\u{1680}' || ('\u{2000}' <= c && c <= '\u{200a}') || c == '\u{2028}' || c
        == '\u{2029}' || c == '\u{202f}' || c == '\u{205f}' || c == '\u{3000}'
}

/// `s` without leading whitespace.
pub open spec fn trim_start(s: Seq<char>) -> Seq<char>
    decreases s.len(),
{
    if s.len() > 0 && is_ws(s[0]) {
        trim_start(s.drop_first())
    } else {
        s
    }
}

/// `s` without trailing whitespace.
pub open spec fn trim_end(s: Seq<char>) -> Seq<char>
    decreases s.len(),
{
    if s.len() > 0 && is_ws(s.last()) {
        trim_end(s.drop_last())
    } else {
        s
    }
}

/// `s` without leading and trailing whitespace (`str::trim`).
pub open spec fn trim(s: Seq<char>) -> Seq<char> {
    trim_end(trim_start(s))
}

/// The characters of `s` without leading and trailing whitespace.
pub fn trim_chars(s: &Vec<char>) -> (r: Vec<char>)
    ensures
        r@ == trim(s@),
{
    let mut a: usize = 0;
    assert(s@.skip(0) =~= s@);
    while a < s.len() && is_whitespace(s[a])
        invariant
            a <= s.len(),
            trim_start(s@) == trim_start(s@.skip(a as int)),
        decreases s.len() - a,
    {
        assert(s@.skip(a as int).drop_first() =~= s@.skip(a + 1));
        a = a + 1;
    }
    let mut b: usize = s.len();
    assert(s@.skip(a as int) =~= s@.subrange(a as int, b as int));
    while b > a && is_whitespace(s[b - 1])
        invariant
            a <= b <= s.len(),
            trim(s@) == trim_end(s@.subrange(a as int, b as int)),
        decreases b,
    {
        assert(s@.subrange(a as int, b as int).drop_last() =~= s@.subrange(a as int, b - 1));
        b = b - 1;
    }
    let mut r: Vec<char> = Vec::new();
    let mut i = a;
    while i < b
        invariant
            a <= i <= b <= s.len(),
            r@ == s@.subrange(a as int, i as int),
        decreases b - i,
    {
        r.push(s[i]);
        i = i + 1;
        assert(r@ =~= s@.subrange(a as int, i as int));
    }
    r
}

/// The position of the first `c` in `s`.
pub open spec fn index_of(s: Seq<char>, c: char) -> Option<int>
    decreases s.len(),
{
    if s.len() == 0 {
        None
    } else if s[0] == c {
        Some(0)
    } else {
        match index_of(s.drop_first(), c) {
            Some(i) => Some(i + 1),
            None => None,
        }
    }
}

proof fn lemma_index_of(s: Seq<char>, c: char, i: int)
    requires
        0 <= i <= s.len(),
        forall|k: int| 0 <= k < i ==> s[k] != c,
    ensures
        i < s.len() && s[i] == c ==> index_of(s, c) == Some(i),
        i == s.len() ==> index_of(s, c) is None,
    decreases i,
{
    if i > 0 {
        assert forall|k: int| 0 <= k < i - 1 implies s.drop_first()[k] != c by {
            assert(s.drop_first()[k] == s[k + 1]);
        }
        lemma_index_of(s.drop_first(), c, i - 1);
    }
}

/// The position of the first `c` at or after `from`.
pub fn find_char(s: &Vec<char>, c: char, from: usize) -> (r: Option<usize>)
    requires
        from <= s.len(),
    ensures
        match r {
            Some(k) => from <= k < s.len() && s@[k as int] == c && index_of(s@.skip(from as int), c)
                == Some(k - from),
            None => index_of(s@.skip(from as int), c) is None,
        },
{
    let mut i = from;
    while i < s.len() && s[i] != c
        invariant
            from <= i <= s.len(),
            forall|k: int| from <= k < i ==> s@[k] != c,
        decreases s.len() - i,
    {
        i = i + 1;
    }
    proof {
        let t = s@.skip(from as int);
        assert forall|k: int| 0 <= k < i - from implies t[k] != c by {
            assert(t[k] == s@[from + k]);
        }
        if i < s.len() {
            assert(t[i - from] == s@[i as int]);
        }
        lemma_index_of(t, c, i - from);
    }
    if i < s.len() {
        Some(i)
    } else {
        None
    }
}

/// The field after the first `c` and before the next one (or the end):
/// `split(c).nth(1)`.
pub open spec fn second_field(s: Seq<char>, c: char) -> Option<Seq<char>> {
    match index_of(s, c) {
        None => None,
        Some(i) => {
            let rest = s.skip(i + 1);
            match index_of(rest, c) {
                Some(j) => Some(rest.take(j)),
                None => Some(rest),
            }
        },
    }
}

/// `split(c).nth(1)` on characters.
pub fn second_field_of(s: &Vec<char>, c: char) -> (r: Option<Vec<char>>)
    ensures
        match r {
            Some(v) => second_field(s@, c) == Some(v@),
            None => second_field(s@, c) is None,
        },
{
    assert(s@.skip(0) =~= s@);
    let i = match find_char(s, c, 0) {
        Some(i) => i,
        None => return None,
    };
    let j = match find_char(s, c, i + 1) {
        Some(j) => j,
        None => s.len(),
    };
    let ghost rest = s@.skip(i + 1);
    let ghost expected = match index_of(rest, c) {
        Some(jj) => rest.take(jj),
        None => rest,
    };
    proof {
        assert(index_of(s@, c) == Some(i as int));
        match index_of(rest, c) {
            Some(jj) => {
                assert(j == i + 1 + jj);
                assert(rest.take(jj) =~= s@.subrange(i + 1, j as int));
            },
            None => {
                assert(j == s.len());
                assert(rest =~= s@.subrange(i + 1, j as int));
            },
        }
        assert(second_field(s@, c) == Some(expected));
    }
    let mut v: Vec<char> = Vec::new();
    let mut k = i + 1;
    while k < j
        invariant
            i + 1 <= k <= j <= s.len(),
            v@ == s@.subrange(i + 1, k as int),
        decreases j - k,
    {
        v.push(s[k]);
        k = k + 1;
        assert(v@ =~= s@.subrange(i + 1, k as int));
    }
    Some(v)
}

/// `s` after its prefix `p`, if it has that prefix (`strip_prefix`).
pub open spec fn strip_prefix(s: Seq<char>, p: Seq<char>) -> Option<Seq<char>> {
    if has_prefix(s, p) {
        Some(s.skip(p.len() as int))
    } else {
        None
    }
}

/// `s` after repeatedly removing the prefix `p` (`trim_start_matches`).
pub open spec fn trim_start_matches(s: Seq<char>, p: Seq<char>) -> Seq<char>
    decreases s.len(),
{
    if p.len() > 0 && has_prefix(s, p) {
        trim_start_matches(s.skip(p.len() as int), p)
    } else {
        s
    }
}

/// The characters of `s` from position `from` on.
pub fn chars_from(s: &Vec<char>, from: usize) -> (r: Vec<char>)
    requires
        from <= s.len(),
    ensures
        r@ == s@.skip(from as int),
{
    let mut v: Vec<char> = Vec::new();
    let mut k = from;
    while k < s.len()
        invariant
            from <= k <= s.len(),
            v@ == s@.subrange(from as int, k as int),
        decreases s.len() - k,
    {
        v.push(s[k]);
        k = k + 1;
        assert(v@ =~= s@.subrange(from as int, k as int));
    }
    assert(s@.skip(from as int) =~= s@.subrange(from as int, s@.len() as int));
    v
}

/// `trim_start_matches` on characters.
pub fn trim_start_matching(s: &Vec<char>, p: &Vec<char>) -> (r: Vec<char>)
    ensures
        r@ == trim_start_matches(s@, p@),
{
    if p.len() == 0 {
        return chars_from(s, 0);
    }
    let mut a: usize = 0;
    assert(s@.skip(0) =~= s@);
    while a <= s.len() && matches_at(s, p, a)
        invariant
            a <= s.len(),
            p@.len() > 0,
            trim_start_matches(s@, p@) == trim_start_matches(s@.skip(a as int), p@),
        decreases s.len() - a,
    {
        assert(s@.skip(a as int).take(p@.len() as int) =~= s@.subrange(a as int, a + p@.len()));
        assert(s@.skip(a as int).skip(p@.len() as int) =~= s@.skip(a + p@.len()));
        a = a + p.len();
    }
    proof {
        if has_prefix(s@.skip(a as int), p@) {
            assert(s@.skip(a as int).take(p@.len() as int) =~= s@.subrange(a as int, a + p@.len()));
        }
    }
    chars_from(s, a)
}

} // verus!


verus! {

// ---------------------------------------------------------------------------
// Bytes to text
// ---------------------------------------------------------------------------

/// What `String::from_utf8_lossy` gives for some bytes: their UTF-8
/// decoding with each invalid sequence replaced by U+FFFD.
pub uninterp spec fn utf8_lossy(b: Seq<u8>) -> Seq<char>;

/// `String::from_utf8_lossy`. Its result is named; of it the contract
/// states only that valid UTF-8 is decoded as it stands. How invalid
/// sequences are replaced is not restated here.
#[verifier::external_body]
pub(crate) fn lossy_string(b: &[u8]) -> (r: String)
    ensures
        r@ == utf8_lossy(b@),
        vstd::utf8::valid_utf8(b@) ==> r@ == vstd::utf8::decode_utf8(b@),
{
    String::from_utf8_lossy(b).to_string()
}

/// `String::from_utf8`: the text the bytes encode, when they are valid
/// UTF-8.
#[verifier::external_body]
pub(crate) fn utf8_string(b: &[u8]) -> (r: Option<String>)
    ensures
        match r {
            Some(s) => vstd::utf8::valid_utf8(b@) && s@ == vstd::utf8::decode_utf8(b@),
            None => !vstd::utf8::valid_utf8(b@),
        },
{
    String::from_utf8(b.to_vec()).ok()
}

} // verus!
