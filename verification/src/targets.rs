//! Scan targets: dotted-decimal addresses, CIDR blocks and address ranges.

use vstd::prelude::*;

use crate::text::{chars_of, contains_char, decimal, digit_char, has_char, push_decimal, push_str, string_of, trim, trim_chars};
use crate::types::{ip_text, v4_text, IpAddress, IpValue, ScanTarget};

verus! {

// ---------------------------------------------------------------------------
// Decimal digits
// ---------------------------------------------------------------------------

pub open spec fn is_digit(c: char) -> bool {
    '0' <= c && c <= '9'
}

pub open spec fn all_digits(ds: Seq<char>) -> bool {
    forall|i: int| 0 <= i < ds.len() ==> is_digit(#[trigger] ds[i])
}

/// The number written by the digits `ds`.
pub open spec fn digits_value(ds: Seq<char>) -> int
    decreases ds.len(),
{
    if ds.len() == 0 {
        0
    } else {
        digits_value(ds.drop_last()) * 10 + ((ds.last() as int) - ('0' as int))
    }
}

/// `ds` is how `decimal` writes a number: digits, and no leading zero
/// unless it is the only digit.
pub open spec fn canonical_digits(ds: Seq<char>) -> bool {
    ds.len() >= 1 && all_digits(ds) && (ds.len() > 1 ==> ds[0] != '0')
}

proof fn lemma_digit_char(d: nat)
    requires
        d < 10,
    ensures
        is_digit(digit_char(d)),
        (digit_char(d) as int) - ('0' as int) == d,
{
}

proof fn lemma_char_digit(c: char)
    requires
        is_digit(c),
    ensures
        digit_char(((c as int) - ('0' as int)) as nat) == c,
{
}

proof fn lemma_decimal_len(n: nat)
    ensures
        decimal(n).len() >= 1,
        n >= 10 ==> decimal(n).len() >= 2,
        n < 10 ==> decimal(n).len() == 1,
        n < 100 ==> decimal(n).len() <= 2,
        n < 1000 ==> decimal(n).len() <= 3,
    decreases n,
{
    if n >= 10 {
        lemma_decimal_len((n / 10) as nat);
        assert(decimal(n) == decimal((n / 10) as nat).push(digit_char(n % 10)));
    }
}

proof fn lemma_value_single(c: char)
    requires
        is_digit(c),
    ensures
        digits_value(seq![c]) == (c as int) - ('0' as int),
{
    assert(seq![c].drop_last() =~= Seq::<char>::empty());
    assert(digits_value(Seq::<char>::empty()) == 0);
}

proof fn lemma_decimal_props(n: nat)
    ensures
        canonical_digits(decimal(n)),
        digits_value(decimal(n)) == n,
        n < 10 ==> decimal(n).len() == 1,
        n < 100 ==> decimal(n).len() <= 2,
        n < 1000 ==> decimal(n).len() <= 3,
    decreases n,
{
    lemma_decimal_len(n);
    if n < 10 {
        lemma_digit_char(n);
        assert(decimal(n) =~= seq![digit_char(n)]);
        lemma_value_single(digit_char(n));
    } else {
        lemma_decimal_props((n / 10) as nat);
        lemma_decimal_len((n / 10) as nat);
        lemma_digit_char(n % 10);
        let d = decimal(n);
        let p = decimal((n / 10) as nat);
        assert(d == p.push(digit_char(n % 10)));
        assert(d.drop_last() =~= p);
        assert(d.last() == digit_char(n % 10));
        assert(digits_value(d) == digits_value(p) * 10 + (n % 10));
        assert forall|i: int| 0 <= i < d.len() implies is_digit(#[trigger] d[i]) by {
            if i < d.len() - 1 {
                assert(d[i] == p[i]);
            }
        }
        assert(d[0] == p[0]);
        if p.len() == 1 {
            assert(n / 10 < 10) by {
                if n / 10 >= 10 {
                    lemma_decimal_len((n / 10) as nat);
                }
            }
            assert(n / 10 >= 1);
            assert(p =~= seq![digit_char((n / 10) as nat)]);
            lemma_digit_char((n / 10) as nat);
        }
    }
}

proof fn lemma_value_positive(ds: Seq<char>)
    requires
        ds.len() >= 1,
        all_digits(ds),
        ds[0] != '0',
    ensures
        digits_value(ds) >= 1,
    decreases ds.len(),
{
    lemma_value_nonneg(ds.drop_last());
    assert(is_digit(ds[ds.len() - 1]));
    if ds.len() > 1 {
        assert(ds.drop_last()[0] == ds[0]);
        assert(all_digits(ds.drop_last())) by {
            assert forall|i: int| 0 <= i < ds.drop_last().len() implies is_digit(#[trigger] ds.drop_last()[i]) by {
                assert(ds.drop_last()[i] == ds[i]);
            }
        }
        lemma_value_positive(ds.drop_last());
    } else {
        lemma_value_single(ds[0]);
        assert(ds =~= seq![ds[0]]);
    }
}

proof fn lemma_value_nonneg(ds: Seq<char>)
    requires
        all_digits(ds),
    ensures
        digits_value(ds) >= 0,
    decreases ds.len(),
{
    if ds.len() > 0 {
        assert(all_digits(ds.drop_last())) by {
            assert forall|i: int| 0 <= i < ds.drop_last().len() implies is_digit(#[trigger] ds.drop_last()[i]) by {
                assert(ds.drop_last()[i] == ds[i]);
            }
        }
        assert(is_digit(ds[ds.len() - 1]));
        lemma_value_nonneg(ds.drop_last());
    }
}

proof fn lemma_canonical_decimal(ds: Seq<char>)
    requires
        canonical_digits(ds),
    ensures
        decimal(digits_value(ds) as nat) == ds,
    decreases ds.len(),
{
    let p = ds.drop_last();
    lemma_value_nonneg(ds);
    if ds.len() == 1 {
        assert(is_digit(ds[0]));
        lemma_char_digit(ds[0]);
        assert(ds =~= seq![ds[0]]);
        lemma_value_single(ds[0]);
        assert(decimal(digits_value(ds) as nat) =~= ds);
    } else {
        assert(all_digits(p)) by {
            assert forall|i: int| 0 <= i < p.len() implies is_digit(#[trigger] p[i]) by {
                assert(p[i] == ds[i]);
            }
        }
        assert(is_digit(ds[ds.len() - 1]));
        assert(p[0] == ds[0]);
        lemma_value_positive(p);
        lemma_canonical_decimal(p);
        lemma_value_nonneg(p);
        let v = digits_value(ds);
        let d = (ds.last() as int) - ('0' as int);
        assert(0 <= d < 10);
        assert(v / 10 == digits_value(p));
        assert(v % 10 == d);
        lemma_char_digit(ds.last());
        assert(decimal(v as nat) =~= decimal(digits_value(p) as nat).push(ds.last()));
    }
}

// ---------------------------------------------------------------------------
// Dotted-decimal addresses
// ---------------------------------------------------------------------------

/// `cs` holds `t` from position `pos`, followed by the end or a non-digit.
pub open spec fn token_at(cs: Seq<char>, pos: int, t: Seq<char>) -> bool {
    &&& 0 <= pos
    &&& pos + t.len() <= cs.len()
    &&& cs.subrange(pos, pos + t.len()) == t
    &&& (pos + t.len() == cs.len() || !is_digit(cs[pos + t.len()]))
}

/// Reads one octet written in decimal at `pos`.
fn parse_octet(cs: &Vec<char>, pos: usize) -> (r: Option<(u8, usize)>)
    requires
        pos <= cs.len(),
    ensures
        match r {
            Some((v, end)) => end == pos + decimal(v as nat).len() && token_at(
                cs@,
                pos as int,
                decimal(v as nat),
            ),
            None => forall|v: u8| !token_at(cs@, pos as int, #[trigger] decimal(v as nat)),
        },
{
    let mut j: usize = pos;
    let mut value: u32 = 0;
    while j < cs.len() && j - pos < 4 && '0' <= cs[j] && cs[j] <= '9'
        invariant
            pos <= j <= cs.len(),
            j - pos <= 4,
            all_digits(cs@.subrange(pos as int, j as int)),
            value == digits_value(cs@.subrange(pos as int, j as int)),
            value < 10000,
            j - pos == 0 ==> value == 0,
            j - pos <= 1 ==> value < 10,
            j - pos <= 2 ==> value < 100,
            j - pos <= 3 ==> value < 1000,
        decreases cs.len() - j,
    {
        assert(cs@.subrange(pos as int, j + 1).drop_last() =~= cs@.subrange(pos as int, j as int));
        value = value * 10 + ((cs[j] as u32) - ('0' as u32));
        j = j + 1;
        assert(all_digits(cs@.subrange(pos as int, j as int))) by {
            assert forall|i: int| 0 <= i < j - pos implies is_digit(
                #[trigger] cs@.subrange(pos as int, j as int)[i],
            ) by {
                if i < j - 1 - pos {
                    assert(cs@.subrange(pos as int, j as int)[i] == cs@.subrange(
                        pos as int,
                        j - 1,
                    )[i]);
                }
            }
        }
    }
    let run = j - pos;
    let ghost ds = cs@.subrange(pos as int, j as int);
    // The digits of any octet at `pos` form exactly this run.
    proof {
        assert forall|v: u8| token_at(cs@, pos as int, #[trigger] decimal(v as nat)) implies decimal(
            v as nat,
        ) == ds by {
            let t = decimal(v as nat);
            lemma_decimal_props(v as nat);
            let e = pos + t.len();
            assert forall|i: int| pos <= i < e implies is_digit(cs@[i]) by {
                assert(cs@[i] == t[i - pos]);
            }
            if j < e {
                assert(is_digit(cs@[j as int]));
                assert(j - pos < 4);
            } else if j > e {
                assert(ds[e - pos] == cs@[e]);
                assert(is_digit(ds[e - pos]));
            }
            assert(t =~= ds);
        }
    }
    if run == 0 || run > 3 || (run > 1 && cs[pos] == '0') || value > 255 {
        proof {
            assert forall|v: u8| !token_at(cs@, pos as int, #[trigger] decimal(v as nat)) by {
                if token_at(cs@, pos as int, decimal(v as nat)) {
                    lemma_decimal_props(v as nat);
                    assert(decimal(v as nat) == ds);
                    assert(ds[0] == cs@[pos as int]);
                }
            }
        }
        return None;
    }
    proof {
        assert(ds[0] == cs@[pos as int]);
        assert(canonical_digits(ds));
        lemma_canonical_decimal(ds);
    }
    Some((value as u8, j))
}

proof fn lemma_same_octet(c: Seq<char>, pos: int, a: u8, b: u8)
    requires
        token_at(c, pos, decimal(a as nat)),
        token_at(c, pos, decimal(b as nat)),
    ensures
        a == b,
{
    lemma_decimal_props(a as nat);
    lemma_decimal_props(b as nat);
    let ta = decimal(a as nat);
    let tb = decimal(b as nat);
    if ta.len() < tb.len() {
        assert(c[pos + ta.len()] == tb[ta.len() as int]);
        assert(is_digit(tb[ta.len() as int]));
    } else if tb.len() < ta.len() {
        assert(c[pos + tb.len()] == ta[tb.len() as int]);
        assert(is_digit(ta[tb.len() as int]));
    } else {
        assert(ta =~= tb);
    }
}

/// Where the parts of `v4_text(o)` lie.
proof fn lemma_v4_tokens(o: Seq<u8>, c: Seq<char>)
    requires
        o.len() == 4,
        c == v4_text(o),
    ensures
        ({
            let l0 = decimal(o[0] as nat).len() as int;
            let l1 = decimal(o[1] as nat).len() as int;
            let l2 = decimal(o[2] as nat).len() as int;
            let l3 = decimal(o[3] as nat).len() as int;
            &&& token_at(c, 0, decimal(o[0] as nat))
            &&& c[l0] == '.'
            &&& token_at(c, l0 + 1, decimal(o[1] as nat))
            &&& c[l0 + 1 + l1] == '.'
            &&& token_at(c, l0 + l1 + 2, decimal(o[2] as nat))
            &&& c[l0 + l1 + 2 + l2] == '.'
            &&& token_at(c, l0 + l1 + l2 + 3, decimal(o[3] as nat))
            &&& c.len() == l0 + l1 + l2 + l3 + 3
        }),
{
    let t0 = decimal(o[0] as nat);
    let t1 = decimal(o[1] as nat);
    let t2 = decimal(o[2] as nat);
    let t3 = decimal(o[3] as nat);
    let l0 = t0.len() as int;
    let l1 = t1.len() as int;
    let l2 = t2.len() as int;
    let l3 = t3.len() as int;
    assert(c =~= t0 + seq!['.'] + t1 + seq!['.'] + t2 + seq!['.'] + t3);
    assert(c.subrange(0, l0) =~= t0);
    assert(c.subrange(l0 + 1, l0 + 1 + l1) =~= t1);
    assert(c.subrange(l0 + l1 + 2, l0 + l1 + 2 + l2) =~= t2);
    assert(c.subrange(l0 + l1 + l2 + 3, l0 + l1 + l2 + 3 + l3) =~= t3);
}

/// Reads a dotted-decimal IPv4 address: four octets in canonical decimal
/// (no leading zeros), separated by dots, and nothing else.
#[verifier::spinoff_prover]
#[verifier::rlimit(50)]
pub fn parse_ipv4(s: &str) -> (r: Option<[u8; 4]>)
    ensures
        match r {
            Some(o) => s@ == v4_text(o@),
            None => forall|o: [u8; 4]| s@ != #[trigger] v4_text(o@),
        },
{
    let cs = chars_of(s);
    let ghost c = cs@;
    let (a, e0) = match parse_octet(&cs, 0) {
        Some(x) => x,
        None => {
            proof {
                assert forall|o: [u8; 4]| c != #[trigger] v4_text(o@) by {
                    if c == v4_text(o@) {
                        lemma_v4_tokens(o@, c);
                    }
                }
            }
            return None;
        },
    };
    if !(e0 < cs.len() && cs[e0] == '.') {
        proof {
            assert forall|o: [u8; 4]| c != #[trigger] v4_text(o@) by {
                if c == v4_text(o@) {
                    lemma_v4_tokens(o@, c);
                    lemma_same_octet(c, 0, a, o@[0]);
                }
            }
        }
        return None;
    }
    let (b, e1) = match parse_octet(&cs, e0 + 1) {
        Some(x) => x,
        None => {
            proof {
                assert forall|o: [u8; 4]| c != #[trigger] v4_text(o@) by {
                    if c == v4_text(o@) {
                        lemma_v4_tokens(o@, c);
                        lemma_same_octet(c, 0, a, o@[0]);
                    }
                }
            }
            return None;
        },
    };
    if !(e1 < cs.len() && cs[e1] == '.') {
        proof {
            assert forall|o: [u8; 4]| c != #[trigger] v4_text(o@) by {
                if c == v4_text(o@) {
                    lemma_v4_tokens(o@, c);
                    lemma_same_octet(c, 0, a, o@[0]);
                    lemma_same_octet(c, e0 + 1, b, o@[1]);
                }
            }
        }
        return None;
    }
    let (cc, e2) = match parse_octet(&cs, e1 + 1) {
        Some(x) => x,
        None => {
            proof {
                assert forall|o: [u8; 4]| c != #[trigger] v4_text(o@) by {
                    if c == v4_text(o@) {
                        lemma_v4_tokens(o@, c);
                        lemma_same_octet(c, 0, a, o@[0]);
                        lemma_same_octet(c, e0 + 1, b, o@[1]);
                    }
                }
            }
            return None;
        },
    };
    if !(e2 < cs.len() && cs[e2] == '.') {
        proof {
            assert forall|o: [u8; 4]| c != #[trigger] v4_text(o@) by {
                if c == v4_text(o@) {
                    lemma_v4_tokens(o@, c);
                    lemma_same_octet(c, 0, a, o@[0]);
                    lemma_same_octet(c, e0 + 1, b, o@[1]);
                    lemma_same_octet(c, e1 + 1, cc, o@[2]);
                }
            }
        }
        return None;
    }
    let (d, e3) = match parse_octet(&cs, e2 + 1) {
        Some(x) => x,
        None => {
            proof {
                assert forall|o: [u8; 4]| c != #[trigger] v4_text(o@) by {
                    if c == v4_text(o@) {
                        lemma_v4_tokens(o@, c);
                        lemma_same_octet(c, 0, a, o@[0]);
                        lemma_same_octet(c, e0 + 1, b, o@[1]);
                        lemma_same_octet(c, e1 + 1, cc, o@[2]);
                    }
                }
            }
            return None;
        },
    };
    if e3 != cs.len() {
        proof {
            assert forall|o: [u8; 4]| c != #[trigger] v4_text(o@) by {
                if c == v4_text(o@) {
                    lemma_v4_tokens(o@, c);
                    lemma_same_octet(c, 0, a, o@[0]);
                    lemma_same_octet(c, e0 + 1, b, o@[1]);
                    lemma_same_octet(c, e1 + 1, cc, o@[2]);
                    lemma_same_octet(c, e2 + 1, d, o@[3]);
                }
            }
        }
        return None;
    }
    let o = [a, b, cc, d];
    proof {
        let t0 = decimal(a as nat);
        let t1 = decimal(b as nat);
        let t2 = decimal(cc as nat);
        let t3 = decimal(d as nat);
        assert(c.subrange(0, e0 as int) == t0);
        assert(c.subrange(e0 + 1, e1 as int) == t1);
        assert(c.subrange(e1 + 1, e2 as int) == t2);
        assert(c.subrange(e2 + 1, e3 as int) == t3);
        assert(c =~= t0 + seq!['.'] + t1 + seq!['.'] + t2 + seq!['.'] + t3);
        assert(o@ =~= seq![a, b, cc, d]);
    }
    Some(o)
}

pub(crate) proof fn lemma_v4_text_injective(o: Seq<u8>, q: Seq<u8>)
    requires
        o.len() == 4,
        q.len() == 4,
        v4_text(o) == v4_text(q),
    ensures
        o == q,
{
    let c = v4_text(o);
    lemma_v4_tokens(o, c);
    lemma_v4_tokens(q, c);
    lemma_same_octet(c, 0, o[0], q[0]);
    lemma_same_octet(c, decimal(o[0] as nat).len() as int + 1, o[1], q[1]);
    lemma_same_octet(
        c,
        (decimal(o[0] as nat).len() + decimal(o[1] as nat).len() + 2) as int,
        o[2],
        q[2],
    );
    lemma_same_octet(
        c,
        (decimal(o[0] as nat).len() + decimal(o[1] as nat).len() + decimal(o[2] as nat).len() + 3) as int,
        o[3],
        q[3],
    );
    assert(o =~= q);
}

/// The octets written by `s` in dotted-decimal form, if it is such a text.
pub open spec fn v4_parse(s: Seq<char>) -> Option<Seq<u8>> {
    if exists|o: Seq<u8>| o.len() == 4 && s == #[trigger] v4_text(o) {
        Some(choose|o: Seq<u8>| o.len() == 4 && s == #[trigger] v4_text(o))
    } else {
        None
    }
}

/// The dotted-decimal form of four octets reads back as those octets, and
/// no other octets are written the same way.
pub proof fn law_v4_text_reads_back(o: Seq<u8>)
    requires
        o.len() == 4,
    ensures
        v4_parse(v4_text(o)) == Some(o),
{
    assert(o.len() == 4 && v4_text(o) == v4_text(o));
    let q = choose|q: Seq<u8>| q.len() == 4 && v4_text(o) == #[trigger] v4_text(q);
    lemma_v4_text_injective(o, q);
}

/// Reads a dotted-decimal IPv4 address (see [`v4_parse`]).
fn parse_v4_text(s: &str) -> (r: Option<[u8; 4]>)
    ensures
        match r {
            Some(o) => v4_parse(s@) == Some(o@),
            None => v4_parse(s@) is None,
        },
{
    let r = parse_ipv4(s);
    proof {
        match r {
            Some(o) => {
                assert(o@.len() == 4 && s@ == v4_text(o@));
                let q = choose|q: Seq<u8>| q.len() == 4 && s@ == #[trigger] v4_text(q);
                lemma_v4_text_injective(o@, q);
            },
            None => {
                if exists|o: Seq<u8>| o.len() == 4 && s@ == #[trigger] v4_text(o) {
                    let q = choose|q: Seq<u8>| q.len() == 4 && s@ == #[trigger] v4_text(q);
                    let a: [u8; 4] = [q[0], q[1], q[2], q[3]];
                    assert(a@ =~= q);
                    assert(s@ != v4_text(a@));
                }
            },
        }
    }
    r
}

// ---------------------------------------------------------------------------
// Unsigned decimal numbers
// ---------------------------------------------------------------------------

/// The value of `t` read as a `u8` the way `str::parse` reads it: an
/// optional '+', then one or more digits, worth at most 255.
pub open spec fn u8_parse(t: Seq<char>) -> Option<u8> {
    let ds = if t.len() > 0 && t[0] == '+' {
        t.drop_first()
    } else {
        t
    };
    if ds.len() == 0 || !all_digits(ds) || digits_value(ds) > 255 {
        None
    } else {
        Some(digits_value(ds) as u8)
    }
}

/// Reads a `u8` from `cs[from..]` (see [`u8_parse`]).
fn parse_u8_chars(cs: &Vec<char>, from: usize) -> (r: Option<u8>)
    requires
        from <= cs.len(),
    ensures
        r == u8_parse(cs@.skip(from as int)),
{
    let ghost t = cs@.skip(from as int);
    let mut i = from;
    if i < cs.len() && cs[i] == '+' {
        i = i + 1;
    }
    let ghost ds = cs@.skip(i as int);
    assert(ds =~= (if t.len() > 0 && t[0] == '+' { t.drop_first() } else { t }));
    if i == cs.len() {
        return None;
    }
    let start = i;
    let mut sat: u32 = 0;
    while i < cs.len()
        invariant
            start <= i <= cs.len(),
            ds == cs@.skip(start as int),
            t == cs@.skip(from as int),
            ds == (if t.len() > 0 && t[0] == '+' { t.drop_first() } else { t }),
            all_digits(cs@.subrange(start as int, i as int)),
            sat == (if digits_value(cs@.subrange(start as int, i as int)) > 255 { 256 } else {
                digits_value(cs@.subrange(start as int, i as int))
            }),
        decreases cs.len() - i,
    {
        if !('0' <= cs[i] && cs[i] <= '9') {
            proof {
                assert(ds[i - start] == cs@[i as int]);
                assert(!is_digit(ds[i - start]));
            }
            return None;
        }
        let ghost pre = cs@.subrange(start as int, i as int);
        assert(cs@.subrange(start as int, i + 1).drop_last() =~= pre);
        proof {
            lemma_value_nonneg(pre);
        }
        let d = (cs[i] as u32) - ('0' as u32);
        if sat < 256 {
            let v = sat * 10 + d;
            sat = if v > 255 {
                256
            } else {
                v
            };
        }
        i = i + 1;
        assert(all_digits(cs@.subrange(start as int, i as int))) by {
            assert forall|k: int| 0 <= k < i - start implies is_digit(
                #[trigger] cs@.subrange(start as int, i as int)[k],
            ) by {
                if k < i - 1 - start {
                    assert(cs@.subrange(start as int, i as int)[k] == pre[k]);
                }
            }
        }
    }
    assert(cs@.subrange(start as int, i as int) =~= ds);
    if sat > 255 {
        None
    } else {
        Some(sat as u8)
    }
}

// ---------------------------------------------------------------------------
// Errors
// ---------------------------------------------------------------------------

/// Maximum number of addresses one target may expand to.
pub const MAX_CIDR_TARGETS: u32 = 65536;

/// Why a target could not be turned into addresses.
#[derive(Debug, Clone, PartialEq)]
pub enum TargetResolveError {
    InvalidTarget(String),
    InvalidCidr(String),
    InvalidPrefix(u8),
    UnsupportedAddressFamily,
    RangeTooLarge { max: u32, requested: u32 },
    InvalidRange { start: String, end: String },
    DnsResolutionFailed(String),
    NoAddressesResolved(String),
}

/// Mathematical form of a [`TargetResolveError`].
pub enum TargetErrorView {
    InvalidTarget(Seq<char>),
    InvalidCidr(Seq<char>),
    InvalidPrefix(u8),
    UnsupportedAddressFamily,
    RangeTooLarge { max: u32, requested: u32 },
    InvalidRange { start: Seq<char>, end: Seq<char> },
    DnsResolutionFailed(Seq<char>),
    NoAddressesResolved(Seq<char>),
}

impl View for TargetResolveError {
    type V = TargetErrorView;

    open spec fn view(&self) -> TargetErrorView {
        match self {
            TargetResolveError::InvalidTarget(s) => TargetErrorView::InvalidTarget(s@),
            TargetResolveError::InvalidCidr(s) => TargetErrorView::InvalidCidr(s@),
            TargetResolveError::InvalidPrefix(p) => TargetErrorView::InvalidPrefix(*p),
            TargetResolveError::UnsupportedAddressFamily => TargetErrorView::UnsupportedAddressFamily,
            TargetResolveError::RangeTooLarge { max, requested } => TargetErrorView::RangeTooLarge {
                max: *max,
                requested: *requested,
            },
            TargetResolveError::InvalidRange { start, end } => TargetErrorView::InvalidRange {
                start: start@,
                end: end@,
            },
            TargetResolveError::DnsResolutionFailed(s) => TargetErrorView::DnsResolutionFailed(s@),
            TargetResolveError::NoAddressesResolved(s) => TargetErrorView::NoAddressesResolved(s@),
        }
    }
}

/// The message of an error.
pub open spec fn target_error_text(e: TargetErrorView) -> Seq<char> {
    match e {
        TargetErrorView::InvalidTarget(s) => "Invalid target string: "@ + s,
        TargetErrorView::InvalidCidr(s) => "Invalid CIDR notation: "@ + s,
        TargetErrorView::InvalidPrefix(p) => "Invalid prefix length "@ + decimal(p as nat) + " in CIDR"@,
        TargetErrorView::UnsupportedAddressFamily => "Unsupported address family (IPv6 CIDR not yet supported)"@,
        TargetErrorView::RangeTooLarge { max, requested } => "CIDR range too large (max "@ + decimal(max as nat)
            + " hosts, requested "@ + decimal(requested as nat) + ")"@,
        TargetErrorView::InvalidRange { start, end } => "Invalid IP range: end "@ + end + " < start "@ + start,
        TargetErrorView::DnsResolutionFailed(s) => "DNS resolution failed for "@ + s,
        TargetErrorView::NoAddressesResolved(s) => "No addresses resolved from "@ + s,
    }
}

impl TargetResolveError {
    /// The message of the error (see [`target_error_text`]).
    pub fn message(&self) -> (r: String)
        ensures
            r@ == target_error_text(self@),
    {
        let mut s = String::new();
        match self {
            TargetResolveError::InvalidTarget(t) => {
                push_str(&mut s, "Invalid target string: ");
                push_str(&mut s, t.as_str());
            },
            TargetResolveError::InvalidCidr(t) => {
                push_str(&mut s, "Invalid CIDR notation: ");
                push_str(&mut s, t.as_str());
            },
            TargetResolveError::InvalidPrefix(p) => {
                push_str(&mut s, "Invalid prefix length ");
                push_decimal(&mut s, *p as u64);
                push_str(&mut s, " in CIDR");
            },
            TargetResolveError::UnsupportedAddressFamily => {
                push_str(&mut s, "Unsupported address family (IPv6 CIDR not yet supported)");
            },
            TargetResolveError::RangeTooLarge { max, requested } => {
                push_str(&mut s, "CIDR range too large (max ");
                push_decimal(&mut s, *max as u64);
                push_str(&mut s, " hosts, requested ");
                push_decimal(&mut s, *requested as u64);
                push_str(&mut s, ")");
            },
            TargetResolveError::InvalidRange { start, end } => {
                push_str(&mut s, "Invalid IP range: end ");
                push_str(&mut s, end.as_str());
                push_str(&mut s, " < start ");
                push_str(&mut s, start.as_str());
            },
            TargetResolveError::DnsResolutionFailed(t) => {
                push_str(&mut s, "DNS resolution failed for ");
                push_str(&mut s, t.as_str());
            },
            TargetResolveError::NoAddressesResolved(t) => {
                push_str(&mut s, "No addresses resolved from ");
                push_str(&mut s, t.as_str());
            },
        }
        s
    }
}

/// Mathematical form of a list of addresses or an error.
pub open spec fn ips_result_view(r: Result<Vec<IpAddress>, TargetResolveError>) -> Result<
    Seq<IpValue>,
    TargetErrorView,
> {
    match r {
        Ok(v) => Ok(v@.map_values(|a: IpAddress| a@)),
        Err(e) => Err(e@),
    }
}

// ---------------------------------------------------------------------------
// CIDR blocks and ranges
// ---------------------------------------------------------------------------

/// The 32-bit number of four octets.
pub open spec fn v4_value(o: Seq<u8>) -> int {
    o[0] * 16777216 + o[1] * 65536 + o[2] * 256 + o[3]
}

/// The octets of the 32-bit number `n`.
pub open spec fn v4_of(n: int) -> Seq<u8> {
    seq![((n / 16777216) % 256) as u8, ((n / 65536) % 256) as u8, ((n / 256) % 256) as u8, (n % 256) as u8]
}

/// `i` is the position of the first '/' of `s`.
pub open spec fn first_slash(s: Seq<char>, i: int) -> bool {
    0 <= i < s.len() && s[i] == '/' && forall|j: int| 0 <= j < i ==> s[j] != '/'
}

/// The host addresses of the block of `base` with prefix length `p`
/// (16 <= p <= 31): both addresses of a /31, and for shorter prefixes every
/// address but the network and broadcast ones, counting up from the
/// network address (wrapping at 2^32).
pub open spec fn cidr_hosts(base: int, p: int) -> Seq<IpValue> {
    let block = vstd::arithmetic::power2::pow2((32 - p) as nat) as int;
    let network = base - base % block;
    let start = if p >= 31 { 0int } else { 1int };
    let count = if p >= 31 { block } else { block - 2 };
    Seq::new(count as nat, |i: int| IpValue::V4(v4_of((network + start + i) % 4294967296)))
}

/// What [`expand_cidr`] gives for `s`.
pub open spec fn cidr_result(s: Seq<char>) -> Result<Seq<IpValue>, TargetErrorView> {
    if !(exists|i: int| first_slash(s, i)) {
        Err(TargetErrorView::InvalidCidr(s))
    } else {
        let k = choose|i: int| first_slash(s, i);
        match u8_parse(s.skip(k + 1)) {
            None => Err(TargetErrorView::InvalidCidr(s)),
            Some(p) => if p > 32 {
                Err(TargetErrorView::InvalidPrefix(p))
            } else {
                match v4_parse(s.take(k)) {
                    None => Err(TargetErrorView::InvalidCidr(s)),
                    Some(o) => if p == 32 {
                        Ok(seq![IpValue::V4(o)])
                    } else if p < 16 {
                        Err(TargetErrorView::RangeTooLarge { max: 65536, requested: 65536 })
                    } else {
                        Ok(cidr_hosts(v4_value(o), p as int))
                    },
                }
            },
        }
    }
}

/// The address with 32-bit number `n`.
fn v4_address(n: u64) -> (a: IpAddress)
    requires
        n < 4294967296,
    ensures
        a@ == IpValue::V4(v4_of(n as int)),
{
    let o = [
        ((n / 16777216) % 256) as u8,
        ((n / 65536) % 256) as u8,
        ((n / 256) % 256) as u8,
        (n % 256) as u8,
    ];
    assert(o@ =~= v4_of(n as int));
    IpAddress::V4(o)
}

/// Expands a CIDR block "a.b.c.d/p" into its host addresses.
///
/// A /32 gives the address itself, a /31 both of its addresses, and a /16
/// to /30 every address of the block but its network and broadcast
/// addresses. A text without '/', or whose prefix or address does not
/// parse, is an invalid CIDR; a prefix over 32 is refused, and one under 16
/// is too large a range.
#[verifier::rlimit(30)]
pub fn expand_cidr(cidr: &str) -> (r: Result<Vec<IpAddress>, TargetResolveError>)
    ensures
        ips_result_view(r) == cidr_result(cidr@),
{
    let cs = chars_of(cidr);
    let mut k: usize = 0;
    while k < cs.len() && cs[k] != '/'
        invariant
            k <= cs.len(),
            cs@ == cidr@,
            forall|j: int| 0 <= j < k ==> cs@[j] != '/',
        decreases cs.len() - k,
    {
        k = k + 1;
    }
    if k == cs.len() {
        return Err(TargetResolveError::InvalidCidr(cidr.to_owned()));
    }
    proof {
        assert(first_slash(cs@, k as int));
        let k2 = choose|i: int| first_slash(cs@, i);
        if k2 < k {
        } else if k2 > k {
        }
        assert(k2 == k);
    }
    let prefix = match parse_u8_chars(&cs, k + 1) {
        Some(p) => p,
        None => {
            return Err(TargetResolveError::InvalidCidr(cidr.to_owned()));
        },
    };
    if prefix > 32 {
        return Err(TargetResolveError::InvalidPrefix(prefix));
    }
    let mut base_chars: Vec<char> = Vec::new();
    let mut j: usize = 0;
    while j < k
        invariant
            j <= k < cs.len(),
            base_chars@ == cs@.take(j as int),
        decreases k - j,
    {
        base_chars.push(cs[j]);
        j = j + 1;
        assert(base_chars@ =~= cs@.take(j as int));
    }
    let base_text = string_of(&base_chars);
    let o = match parse_v4_text(base_text.as_str()) {
        Some(o) => o,
        None => {
            return Err(TargetResolveError::InvalidCidr(cidr.to_owned()));
        },
    };
    if prefix == 32 {
        let v = vec![IpAddress::V4(o)];
        assert(v@.map_values(|a: IpAddress| a@) =~= seq![IpValue::V4(o@)]);
        return Ok(v);
    }
    if prefix < 16 {
        return Err(TargetResolveError::RangeTooLarge { max: MAX_CIDR_TARGETS, requested: 65536 });
    }
    let host_bits: u64 = 32 - prefix as u64;
    let mut block: u64 = 1;
    let mut b: u64 = 0;
    proof {
        vstd::arithmetic::power2::lemma2_to64();
    }
    while b < host_bits
        invariant
            b <= host_bits <= 16,
            block == vstd::arithmetic::power2::pow2(b as nat),
            block <= 65536,
        decreases host_bits - b,
    {
        proof {
            vstd::arithmetic::power2::lemma_pow2_unfold((b + 1) as nat);
            vstd::arithmetic::power2::lemma_pow2_strictly_increases(b as nat, 16);
            vstd::arithmetic::power2::lemma2_to64();
        }
        block = block * 2;
        b = b + 1;
    }
    proof {
        vstd::arithmetic::power2::lemma_pow2_pos(host_bits as nat);
    }
    let base: u64 = (o[0] as u64) * 16777216 + (o[1] as u64) * 65536 + (o[2] as u64) * 256 + (o[3] as u64);
    assert(base % block <= base) by (nonlinear_arith)
        requires
            block > 0,
    ;
    let network: u64 = base - base % block;
    proof {
        vstd::arithmetic::power2::lemma2_to64();
        if prefix < 31 {
            assert(host_bits >= 2);
            vstd::arithmetic::power2::lemma_pow2_strictly_increases(1, host_bits as nat);
        }
    }
    let (start, count): (u64, u64) = if prefix >= 31 {
        (0, block)
    } else {
        (1, block - 2)
    };
    let ghost expected = cidr_hosts(v4_value(o@), prefix as int);
    let mut ips: Vec<IpAddress> = Vec::new();
    let mut i: u64 = 0;
    while i < count
        invariant
            i <= count <= 65536,
            start <= 1,
            network <= 4294967295,
            expected.len() == count,
            forall|m: int| 0 <= m < count ==> #[trigger] expected[m] == IpValue::V4(v4_of((network + start + m) % 4294967296)),
            ips@.len() == i,
            forall|m: int| 0 <= m < i ==> (#[trigger] ips@[m])@ == expected[m],
        decreases count - i,
    {
        let n = (network + start + i) % 4294967296;
        ips.push(v4_address(n));
        i = i + 1;
    }
    assert(ips@.map_values(|a: IpAddress| a@) =~= expected);
    Ok(ips)
}

/// What [`expand_range`] gives for the texts `s` and `e`.
pub open spec fn range_result(s: Seq<char>, e: Seq<char>) -> Result<Seq<IpValue>, TargetErrorView> {
    match v4_parse(s) {
        None => Err(TargetErrorView::InvalidTarget("invalid start IP: "@ + s)),
        Some(a) => match v4_parse(e) {
            None => Err(TargetErrorView::InvalidTarget("invalid end IP: "@ + e)),
            Some(b) => {
                let x = v4_value(a);
                let y = v4_value(b);
                let count = if y - x + 1 > 4294967295 { 4294967295 } else { y - x + 1 };
                if y < x {
                    Err(TargetErrorView::InvalidRange { start: s, end: e })
                } else if count > 65536 {
                    Err(TargetErrorView::RangeTooLarge { max: 65536, requested: count as u32 })
                } else {
                    Ok(Seq::new((y - x + 1) as nat, |i: int| IpValue::V4(v4_of(x + i))))
                }
            },
        },
    }
}

/// An expanded range holds consecutive addresses: the i-th is the start
/// address plus i as a 32-bit number, so it runs from the start to the end
/// address, each once, in increasing order.
pub proof fn law_range_is_consecutive(s: Seq<char>, e: Seq<char>)
    requires
        range_result(s, e) is Ok,
    ensures
        v4_parse(s) is Some && v4_parse(e) is Some,
        range_result(s, e)->Ok_0.len() == v4_value(v4_parse(e)->0) - v4_value(v4_parse(s)->0) + 1,
        forall|i: int| 0 <= i < range_result(s, e)->Ok_0.len() ==> (#[trigger] range_result(s, e)->Ok_0[i]) is V4
            && v4_value(range_result(s, e)->Ok_0[i]->V4_0) == v4_value(v4_parse(s)->0) + i,
{
    let a = v4_parse(s)->0;
    let b = v4_parse(e)->0;
    let v = range_result(s, e)->Ok_0;
    let x = v4_value(a);
    let y = v4_value(b);
    if exists|o: Seq<u8>| o.len() == 4 && s == #[trigger] v4_text(o) {
        let o = choose|o: Seq<u8>| o.len() == 4 && s == #[trigger] v4_text(o);
        assert(a.len() == 4);
    }
    if exists|o: Seq<u8>| o.len() == 4 && e == #[trigger] v4_text(o) {
        let o = choose|o: Seq<u8>| o.len() == 4 && e == #[trigger] v4_text(o);
        assert(b.len() == 4);
    }
    assert(0 <= x && y < 4294967296);
    assert forall|i: int| 0 <= i < v.len() implies (#[trigger] v[i]) is V4 && v4_value(v[i]->V4_0) == x + i by {
        assert(v[i] == IpValue::V4(v4_of(x + i)));
        lemma_v4_of_value(x + i);
    }
}

/// Expands an address range "a.b.c.d" to "e.f.g.h", both ends included.
pub fn expand_range(start_str: &str, end_str: &str) -> (r: Result<Vec<IpAddress>, TargetResolveError>)
    ensures
        ips_result_view(r) == range_result(start_str@, end_str@),
{
    let a = match parse_v4_text(start_str) {
        Some(o) => o,
        None => {
            let mut m = "invalid start IP: ".to_owned();
            push_str(&mut m, start_str);
            return Err(TargetResolveError::InvalidTarget(m));
        },
    };
    let b = match parse_v4_text(end_str) {
        Some(o) => o,
        None => {
            let mut m = "invalid end IP: ".to_owned();
            push_str(&mut m, end_str);
            return Err(TargetResolveError::InvalidTarget(m));
        },
    };
    let x: u64 = (a[0] as u64) * 16777216 + (a[1] as u64) * 65536 + (a[2] as u64) * 256 + (a[3] as u64);
    let y: u64 = (b[0] as u64) * 16777216 + (b[1] as u64) * 65536 + (b[2] as u64) * 256 + (b[3] as u64);
    if y < x {
        return Err(TargetResolveError::InvalidRange {
            start: start_str.to_owned(),
            end: end_str.to_owned(),
        });
    }
    let count: u64 = if y - x + 1 > 4294967295 {
        4294967295
    } else {
        y - x + 1
    };
    if count > 65536 {
        return Err(TargetResolveError::RangeTooLarge {
            max: MAX_CIDR_TARGETS,
            requested: count as u32,
        });
    }
    let ghost expected = Seq::new((y - x + 1) as nat, |i: int| IpValue::V4(v4_of(x + i)));
    let mut ips: Vec<IpAddress> = Vec::new();
    let mut i: u64 = 0;
    while i < count
        invariant
            count == y - x + 1,
            count <= 65536,
            y <= 4294967295,
            i <= count,
            expected.len() == count,
            forall|m: int| 0 <= m < count ==> #[trigger] expected[m] == IpValue::V4(v4_of(x + m)),
            ips@.len() == i,
            forall|m: int| 0 <= m < i ==> (#[trigger] ips@[m])@ == expected[m],
        decreases count - i,
    {
        ips.push(v4_address(x + i));
        i = i + 1;
    }
    assert(ips@.map_values(|a: IpAddress| a@) =~= expected);
    Ok(ips)
}


// ---------------------------------------------------------------------------
// Target strings
// ---------------------------------------------------------------------------

/// What a target string asks for once read.
#[derive(Debug, Clone, PartialEq)]
pub enum TargetPlan {
    /// The addresses are known without a name lookup.
    Addresses(Vec<IpAddress>),
    /// The trimmed text still has to be read as an IPv6 address or looked
    /// up as a host name.
    Lookup(String),
}

/// Mathematical form of a [`TargetPlan`].
pub enum PlanView {
    Addresses(Seq<IpValue>),
    Lookup(Seq<char>),
}

pub open spec fn plan_result_view(r: Result<TargetPlan, TargetResolveError>) -> Result<PlanView, TargetErrorView> {
    match r {
        Ok(TargetPlan::Addresses(v)) => Ok(PlanView::Addresses(v@.map_values(|a: IpAddress| a@))),
        Ok(TargetPlan::Lookup(t)) => Ok(PlanView::Lookup(t@)),
        Err(e) => Err(e@),
    }
}

/// The plan for a target string `s`: trimmed, an empty target is refused; a
/// dotted-decimal address is that address; text with a '/' is a CIDR block;
/// anything else is looked up.
pub open spec fn target_plan(s: Seq<char>) -> Result<PlanView, TargetErrorView> {
    let t = trim(s);
    if t.len() == 0 {
        Err(TargetErrorView::InvalidTarget("empty string"@))
    } else if v4_parse(t) is Some {
        Ok(PlanView::Addresses(seq![IpValue::V4(v4_parse(t)->0)]))
    } else if has_char(t, '/') {
        match cidr_result(t) {
            Ok(v) => Ok(PlanView::Addresses(v)),
            Err(e) => Err(e),
        }
    } else {
        Ok(PlanView::Lookup(t))
    }
}

/// Reads a target string (see [`target_plan`]).
pub fn plan_target(s: &str) -> (r: Result<TargetPlan, TargetResolveError>)
    ensures
        plan_result_view(r) == target_plan(s@),
{
    let cs = chars_of(s);
    let tc = trim_chars(&cs);
    if tc.len() == 0 {
        return Err(TargetResolveError::InvalidTarget("empty string".to_owned()));
    }
    let t = string_of(&tc);
    match parse_v4_text(t.as_str()) {
        Some(o) => {
            let ip = IpAddress::V4(o);
            let v = vec![ip];
            proof {
                assert(v@.map_values(|a: IpAddress| a@) =~= seq![IpValue::V4(o@)]);
            }
            return Ok(TargetPlan::Addresses(v));
        },
        None => {},
    }
    if contains_char(&tc, '/') {
        match expand_cidr(t.as_str()) {
            Ok(v) => Ok(TargetPlan::Addresses(v)),
            Err(e) => Err(e),
        }
    } else {
        Ok(TargetPlan::Lookup(t))
    }
}

/// The plan for a scan target: an address is itself, a host name is looked
/// up, a CIDR block and a range are expanded (a range by the text of its
/// two ends).
pub open spec fn scan_target_plan(t: ScanTarget) -> Result<PlanView, TargetErrorView> {
    let lift = |r: Result<Seq<IpValue>, TargetErrorView>|
        match r {
            Ok(v) => Ok(PlanView::Addresses(v)),
            Err(e) => Err(e),
        };
    match t {
        ScanTarget::Ip(ip) => Ok(PlanView::Addresses(seq![ip@])),
        ScanTarget::Hostname(h) => Ok(PlanView::Lookup(h@)),
        ScanTarget::Cidr(c) => lift(cidr_result(c@)),
        ScanTarget::Range(a, b) => lift(range_result(ip_text(a@), ip_text(b@))),
    }
}

/// Reads a scan target (see [`scan_target_plan`]).
pub fn plan_scan_target(target: &ScanTarget) -> (r: Result<TargetPlan, TargetResolveError>)
    ensures
        plan_result_view(r) == scan_target_plan(*target),
{
    let r = match target {
        ScanTarget::Ip(ip) => {
            let v = vec![*ip];
            proof {
                assert(v@.map_values(|a: IpAddress| a@) =~= seq![ip@]);
            }
            return Ok(TargetPlan::Addresses(v));
        },
        ScanTarget::Hostname(h) => {
            return Ok(TargetPlan::Lookup(h.clone()));
        },
        ScanTarget::Cidr(c) => expand_cidr(c.as_str()),
        ScanTarget::Range(a, b) => {
            let sa = a.to_text();
            let sb = b.to_text();
            expand_range(sa.as_str(), sb.as_str())
        },
    };
    match r {
        Ok(v) => Ok(TargetPlan::Addresses(v)),
        Err(e) => Err(e),
    }
}


proof fn lemma_v4_of_value(n: int)
    requires
        0 <= n < 4294967296,
    ensures
        v4_value(v4_of(n)) == n,
{
    let m = n as u32;
    assert((((m / 16777216) % 256) * 16777216 + ((m / 65536) % 256) * 65536 + ((m / 256) % 256) * 256 + m % 256)
        == m) by (bit_vector);
    assert(((m / 16777216) % 256) < 256 && ((m / 65536) % 256) < 256 && ((m / 256) % 256) < 256 && m % 256 < 256)
        by (bit_vector);
}

/// The number of addresses in a block with prefix length `p`.
pub open spec fn block_size(p: int) -> int {
    vstd::arithmetic::power2::pow2((32 - p) as nat) as int
}

/// The addresses of a CIDR block with prefix length `p` from 16 to 31 are
/// at most [`MAX_CIDR_TARGETS`] and at least two, pairwise distinct, and all
/// inside the block of `base`; for prefixes up to 30 neither the network
/// address (the first of the block) nor the broadcast address (the last) is
/// among them.
pub proof fn law_cidr_hosts_in_block(base: int, p: int)
    requires
        0 <= base < 4294967296,
        16 <= p <= 31,
    ensures
        2 <= cidr_hosts(base, p).len() <= MAX_CIDR_TARGETS,
        forall|i: int, j: int|
            0 <= i < j < cidr_hosts(base, p).len() ==> cidr_hosts(base, p)[i] != cidr_hosts(base, p)[j],
        forall|i: int|
            0 <= i < cidr_hosts(base, p).len() ==> (#[trigger] cidr_hosts(base, p)[i]) is V4 && v4_value(
                cidr_hosts(base, p)[i]->V4_0,
            ) / block_size(p) == base / block_size(p),
        p <= 30 ==> forall|i: int|
            0 <= i < cidr_hosts(base, p).len() ==> 0 < v4_value((#[trigger] cidr_hosts(base, p)[i])->V4_0)
                % block_size(p) < block_size(p) - 1,
{
    let h = cidr_hosts(base, p);
    let e = (32 - p) as nat;
    let block = vstd::arithmetic::power2::pow2(e) as int;
    vstd::arithmetic::power2::lemma2_to64();
    vstd::arithmetic::power2::lemma_pow2_pos(e);
    vstd::arithmetic::power2::lemma_pow2_adds(p as nat, e);
    vstd::arithmetic::power2::lemma_pow2_strictly_increases(0, e);
    if p <= 30 {
        vstd::arithmetic::power2::lemma_pow2_strictly_increases(1, e);
    }
    assert(block <= 65536) by {
        if e < 16 {
            vstd::arithmetic::power2::lemma_pow2_strictly_increases(e, 16);
        }
    }
    let q = base / block;
    let top = vstd::arithmetic::power2::pow2(p as nat) as int;
    vstd::arithmetic::power2::lemma_pow2_pos(p as nat);
    vstd::arithmetic::div_mod::lemma_fundamental_div_mod(base, block);
    let network = base - base % block;
    assert(network == q * block) by (nonlinear_arith)
        requires
            base == block * q + base % block,
            network == base - base % block,
    ;
    assert(top * block == 4294967296);
    assert(q < top) by (nonlinear_arith)
        requires
            base == block * q + base % block,
            0 <= base % block,
            base < 4294967296,
            top * block == 4294967296,
            block > 0,
    ;
    assert(network + block <= 4294967296) by (nonlinear_arith)
        requires
            network == q * block,
            q < top,
            top * block == 4294967296,
            block > 0,
    ;
    assert(0 <= q) by (nonlinear_arith)
        requires
            base == block * q + base % block,
            base % block < block,
            0 <= base,
            block > 0,
    ;
    assert(0 <= network) by (nonlinear_arith)
        requires
            network == q * block,
            0 <= q,
            block > 0,
    ;
    let start: int = if p >= 31 { 0 } else { 1 };
    assert forall|i: int| 0 <= i < h.len() implies (#[trigger] h[i]) is V4 && v4_value(h[i]->V4_0) == network + start + i by {
        assert(0 <= network + start + i < 4294967296);
        assert((network + start + i) % 4294967296 == network + start + i);
        lemma_v4_of_value(network + start + i);
    }
    assert forall|i: int| 0 <= i < h.len() implies (#[trigger] h[i]) is V4 && v4_value(h[i]->V4_0) / block == q
        && v4_value(h[i]->V4_0) % block == start + i by {
        assert(v4_value(h[i]->V4_0) == network + start + i);
        vstd::arithmetic::div_mod::lemma_fundamental_div_mod_converse(network + start + i, block, q, start + i);
    }
    assert forall|i: int, j: int| 0 <= i < j < h.len() implies h[i] != h[j] by {
        assert(v4_value(h[i]->V4_0) == network + start + i);
        assert(v4_value(h[j]->V4_0) == network + start + j);
    }
}
} // verus!
