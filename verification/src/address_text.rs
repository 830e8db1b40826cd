//! Facts about the textual forms of addresses: two addresses of one family
//! are written alike only when they are the same address.

use vstd::prelude::*;

use crate::targets::lemma_v4_text_injective;
use crate::types::{
    hex, hex_char, hex_join, ip_text, is_v4_mapped, longest_zero_run, mapped_octets, v4_text, v6_text,
    zero_run_before, IpAddress, IpValue,
};

verus! {

/// A lower-case hexadecimal digit.
pub open spec fn hex_digit_char(c: char) -> bool {
    ('0' <= c && c <= '9') || ('a' <= c && c <= 'f')
}

/// No two consecutive characters of `t` are both ':'.
pub open spec fn no_double_colon(t: Seq<char>) -> bool {
    forall|i: int| 0 <= i < t.len() - 1 ==> !(#[trigger] t[i] == ':' && t[i + 1] == ':')
}

/// Four octets or eight segments, as every address value has.
pub open spec fn well_formed_ip(x: IpValue) -> bool {
    match x {
        IpValue::V4(o) => o.len() == 4,
        IpValue::V6(s) => s.len() == 8,
    }
}

/// The value of every address is well formed.
pub proof fn lemma_view_well_formed(a: IpAddress)
    ensures
        well_formed_ip(a@),
{
    match a {
        IpAddress::V4(o) => assert(o@.len() == 4),
        IpAddress::V6(s) => assert(s@.len() == 8),
    }
}

proof fn lemma_hex_char(d: nat)
    requires
        d < 16,
    ensures
        hex_digit_char(hex_char(d)),
{
}

proof fn lemma_hex_char_injective(a: nat, b: nat)
    requires
        a < 16,
        b < 16,
        hex_char(a) == hex_char(b),
    ensures
        a == b,
{
}

proof fn lemma_hex(n: nat)
    ensures
        hex(n).len() >= 1,
        n >= 16 ==> hex(n).len() >= 2,
        forall|i: int| 0 <= i < hex(n).len() ==> hex_digit_char(#[trigger] hex(n)[i]),
    decreases n,
{
    if n < 16 {
        lemma_hex_char(n);
    } else {
        lemma_hex(n / 16);
        lemma_hex_char(n % 16);
        assert forall|i: int| 0 <= i < hex(n).len() implies hex_digit_char(#[trigger] hex(n)[i]) by {
            if i < hex(n / 16).len() {
                assert(hex(n)[i] == hex(n / 16)[i]);
            }
        }
    }
}

proof fn lemma_hex_injective(a: nat, b: nat)
    requires
        hex(a) == hex(b),
    ensures
        a == b,
    decreases a,
{
    lemma_hex(a);
    lemma_hex(b);
    if a < 16 && b < 16 {
        assert(hex(a) == seq![hex_char(a)]);
        assert(hex(b) == seq![hex_char(b)]);
        assert(hex(a)[0] == hex(b)[0]);
        assert(seq![hex_char(a)][0] == hex_char(a));
        assert(seq![hex_char(b)][0] == hex_char(b));
        lemma_hex_char_injective(a, b);
    } else if a >= 16 && b >= 16 {
        let ha = hex(a);
        assert(ha.last() == hex_char(a % 16));
        assert(hex(b).last() == hex_char(b % 16));
        lemma_hex_char_injective(a % 16, b % 16);
        assert(hex(a / 16) =~= ha.drop_last());
        assert(hex(b / 16) =~= hex(b).drop_last());
        lemma_hex_injective(a / 16, b / 16);
    }
}

proof fn lemma_hex_join(s: Seq<u16>)
    ensures
        s.len() == 0 ==> hex_join(s).len() == 0,
        s.len() >= 1 ==> hex_join(s).len() >= 1 && hex_digit_char(hex_join(s)[0]) && hex_digit_char(
            hex_join(s).last(),
        ),
        forall|i: int|
            0 <= i < hex_join(s).len() ==> hex_digit_char(#[trigger] hex_join(s)[i]) || hex_join(s)[i] == ':',
        no_double_colon(hex_join(s)),
        s.len() <= 1 ==> forall|i: int| 0 <= i < hex_join(s).len() ==> #[trigger] hex_join(s)[i] != ':',
        s.len() >= 2 ==> hex_join(s).contains(':'),
    decreases s.len(),
{
    let t = hex_join(s);
    if s.len() == 1 {
        lemma_hex(s[0] as nat);
    } else if s.len() >= 2 {
        let p = hex_join(s.drop_last());
        let h = hex(s.last() as nat);
        lemma_hex_join(s.drop_last());
        lemma_hex(s.last() as nat);
        assert(t == p + seq![':'] + h);
        assert forall|i: int| 0 <= i < t.len() implies hex_digit_char(#[trigger] t[i]) || t[i] == ':' by {
            if i < p.len() {
                assert(t[i] == p[i]);
            } else if i > p.len() {
                assert(t[i] == h[i - p.len() - 1]);
            }
        }
        assert forall|i: int| 0 <= i < t.len() - 1 implies !(#[trigger] t[i] == ':' && t[i + 1] == ':') by {
            if i < p.len() - 1 {
                assert(t[i] == p[i]);
                assert(t[i + 1] == p[i + 1]);
            } else if i == p.len() - 1 {
                assert(t[i] == p.last());
            } else if i == p.len() {
                assert(t[i + 1] == h[0]);
            } else {
                assert(t[i] == h[i - p.len() - 1]);
            }
        }
        assert(t[0] == p[0]);
        assert(t.last() == h.last());
        assert(t[p.len() as int] == ':');
    }
}

proof fn lemma_hex_join_injective(s: Seq<u16>, r: Seq<u16>)
    requires
        hex_join(s) == hex_join(r),
    ensures
        s == r,
    decreases s.len(),
{
    lemma_hex_join(s);
    lemma_hex_join(r);
    let t = hex_join(s);
    if s.len() == 0 {
        assert(s =~= r);
    } else if s.len() == 1 {
        if r.len() >= 2 {
            let i = choose|i: int| 0 <= i < t.len() && t[i] == ':';
            assert(t[i] != ':');
        }
        lemma_hex_injective(s[0] as nat, r[0] as nat);
        assert(s =~= r);
    } else {
        if r.len() <= 1 {
            let i = choose|i: int| 0 <= i < t.len() && t[i] == ':';
            assert(hex_join(r)[i] != ':');
        }
        let p = hex_join(s.drop_last());
        let h = hex(s.last() as nat);
        let q = hex_join(r.drop_last());
        let g = hex(r.last() as nat);
        lemma_hex(s.last() as nat);
        lemma_hex(r.last() as nat);
        assert(t == p + seq![':'] + h);
        assert(t == q + seq![':'] + g);
        if h.len() < g.len() {
            let pos = p.len() as int;
            assert(t[pos] == ':');
            assert(t[pos] == g[pos - q.len() - 1]);
        } else if g.len() < h.len() {
            let pos = q.len() as int;
            assert(t[pos] == ':');
            assert(t[pos] == h[pos - p.len() - 1]);
        }
        assert(p =~= t.subrange(0, p.len() as int));
        assert(q =~= t.subrange(0, q.len() as int));
        assert(h =~= t.subrange(p.len() as int + 1, t.len() as int));
        assert(g =~= t.subrange(q.len() as int + 1, t.len() as int));
        lemma_hex_join_injective(s.drop_last(), r.drop_last());
        lemma_hex_injective(s.last() as nat, r.last() as nat);
        assert(s =~= s.drop_last().push(s.last()));
        assert(r =~= r.drop_last().push(r.last()));
    }
}

proof fn lemma_zero_run_before(s: Seq<u16>, i: int)
    requires
        0 <= i <= s.len(),
    ensures
        0 <= zero_run_before(s, i) <= i,
        forall|k: int| i - zero_run_before(s, i) <= k < i ==> s[k] == 0,
    decreases i,
{
    if i > 0 && s[i - 1] == 0 {
        lemma_zero_run_before(s, i - 1);
    }
}

proof fn lemma_longest_zero_run(s: Seq<u16>, i: int)
    requires
        0 <= i <= s.len(),
    ensures
        0 <= longest_zero_run(s, i).0,
        0 <= longest_zero_run(s, i).1,
        longest_zero_run(s, i).0 + longest_zero_run(s, i).1 <= i,
        forall|k: int|
            longest_zero_run(s, i).0 <= k < longest_zero_run(s, i).0 + longest_zero_run(s, i).1 ==> s[k] == 0,
    decreases i,
{
    if i > 0 {
        lemma_longest_zero_run(s, i - 1);
        lemma_zero_run_before(s, i);
    }
}

/// Splitting at the first "::": where neither left part holds "::" nor ends
/// with ':', the parts around it are determined by the whole.
proof fn lemma_split_double_colon(l1: Seq<char>, r1: Seq<char>, l2: Seq<char>, r2: Seq<char>)
    requires
        no_double_colon(l1),
        no_double_colon(l2),
        l1.len() > 0 ==> l1.last() != ':',
        l2.len() > 0 ==> l2.last() != ':',
        l1 + seq![':', ':'] + r1 == l2 + seq![':', ':'] + r2,
    ensures
        l1 == l2,
        r1 == r2,
{
    let t = l1 + seq![':', ':'] + r1;
    assert(t == l2 + seq![':', ':'] + r2);
    if l1.len() < l2.len() {
        let i = l1.len() as int;
        assert(t[i] == ':' && t[i + 1] == ':');
        if i + 1 < l2.len() {
            assert(l2[i] == t[i] && l2[i + 1] == t[i + 1]);
        } else {
            assert(l2.last() == t[i]);
        }
    } else if l2.len() < l1.len() {
        let i = l2.len() as int;
        assert(t[i] == ':' && t[i + 1] == ':');
        if i + 1 < l1.len() {
            assert(l1[i] == t[i] && l1[i + 1] == t[i + 1]);
        } else {
            assert(l1.last() == t[i]);
        }
    }
    assert(l1 =~= t.subrange(0, l1.len() as int));
    assert(l2 =~= t.subrange(0, l2.len() as int));
    assert(r1 =~= t.subrange(l1.len() as int + 2, t.len() as int));
    assert(r2 =~= t.subrange(l2.len() as int + 2, t.len() as int));
}

/// The compressed form of eight segments, with its two parts.
proof fn lemma_v6_compressed(s: Seq<u16>)
    requires
        s.len() == 8,
        !is_v4_mapped(s),
        longest_zero_run(s, 8).1 > 1,
    ensures
        ({
            let z = longest_zero_run(s, 8);
            let l = hex_join(s.take(z.0));
            let r = hex_join(s.skip(z.0 + z.1));
            &&& v6_text(s) == l + seq![':', ':'] + r
            &&& no_double_colon(l)
            &&& (l.len() > 0 ==> l.last() != ':')
            &&& forall|i: int| 0 <= i < l.len() ==> hex_digit_char(#[trigger] l[i]) || l[i] == ':'
            &&& forall|i: int| 0 <= i < r.len() ==> hex_digit_char(#[trigger] r[i]) || r[i] == ':'
        }),
{
    let z = longest_zero_run(s, 8);
    lemma_longest_zero_run(s, 8);
    lemma_hex_join(s.take(z.0));
    lemma_hex_join(s.skip(z.0 + z.1));
}

/// Every character of the form of eight segments that are not IPv4-mapped
/// is a hexadecimal digit or ':'.
proof fn lemma_v6_plain_chars(s: Seq<u16>)
    requires
        s.len() == 8,
        !is_v4_mapped(s),
    ensures
        forall|i: int| 0 <= i < v6_text(s).len() ==> hex_digit_char(#[trigger] v6_text(s)[i]) || v6_text(s)[i] == ':',
{
    let z = longest_zero_run(s, 8);
    lemma_longest_zero_run(s, 8);
    if z.1 > 1 {
        lemma_v6_compressed(s);
        let l = hex_join(s.take(z.0));
        let r = hex_join(s.skip(z.0 + z.1));
        let t = v6_text(s);
        assert forall|i: int| 0 <= i < t.len() implies hex_digit_char(#[trigger] t[i]) || t[i] == ':' by {
            if i < l.len() {
                assert(t[i] == l[i]);
            } else if i >= l.len() + 2 {
                assert(t[i] == r[i - l.len() - 2]);
            }
        }
    } else {
        lemma_hex_join(s);
    }
}

/// Eight segments are written alike only when they are equal.
pub proof fn lemma_v6_text_injective(s: Seq<u16>, r: Seq<u16>)
    requires
        s.len() == 8,
        r.len() == 8,
        v6_text(s) == v6_text(r),
    ensures
        s == r,
{
    let t = v6_text(s);
    if is_v4_mapped(s) || is_v4_mapped(r) {
        if !is_v4_mapped(s) || !is_v4_mapped(r) {
            let m = if is_v4_mapped(s) { s } else { r };
            let p = if is_v4_mapped(s) { r } else { s };
            let o = mapped_octets(m);
            let d = crate::text::decimal(o[0] as nat).len() as int;
            assert(v6_text(m)[7 + d] == '.');
            lemma_v6_plain_chars(p);
            assert(hex_digit_char(v6_text(p)[7 + d]) || v6_text(p)[7 + d] == ':');
        }
        assert(v4_text(mapped_octets(s)) =~= t.skip(7));
        assert(v4_text(mapped_octets(r)) =~= t.skip(7));
        lemma_v4_text_injective(mapped_octets(s), mapped_octets(r));
        assert(mapped_octets(s)[0] == mapped_octets(r)[0] && mapped_octets(s)[1] == mapped_octets(r)[1]);
        assert(mapped_octets(s)[2] == mapped_octets(r)[2] && mapped_octets(s)[3] == mapped_octets(r)[3]);
        assert(s[6] == r[6]);
        assert(s[7] == r[7]);
        assert(s =~= r);
    } else {
        let zs = longest_zero_run(s, 8);
        let zr = longest_zero_run(r, 8);
        lemma_longest_zero_run(s, 8);
        lemma_longest_zero_run(r, 8);
        if zs.1 > 1 && zr.1 > 1 {
            lemma_v6_compressed(s);
            lemma_v6_compressed(r);
            lemma_split_double_colon(
                hex_join(s.take(zs.0)),
                hex_join(s.skip(zs.0 + zs.1)),
                hex_join(r.take(zr.0)),
                hex_join(r.skip(zr.0 + zr.1)),
            );
            lemma_hex_join_injective(s.take(zs.0), r.take(zr.0));
            lemma_hex_join_injective(s.skip(zs.0 + zs.1), r.skip(zr.0 + zr.1));
            assert(zs.0 == zr.0);
            assert(zs.1 == zr.1);
            assert forall|k: int| 0 <= k < 8 implies s[k] == r[k] by {
                if k < zs.0 {
                    assert(s.take(zs.0)[k] == r.take(zr.0)[k]);
                } else if k >= zs.0 + zs.1 {
                    assert(s.skip(zs.0 + zs.1)[k - zs.0 - zs.1] == r.skip(zr.0 + zr.1)[k - zs.0 - zs.1]);
                }
            }
            assert(s =~= r);
        } else if zs.1 > 1 || zr.1 > 1 {
            let c = if zs.1 > 1 { s } else { r };
            let u = if zs.1 > 1 { r } else { s };
            let zc = longest_zero_run(c, 8);
            lemma_v6_compressed(c);
            let l = hex_join(c.take(zc.0));
            lemma_hex_join(u);
            assert(v6_text(u) == hex_join(u));
            let i = l.len() as int;
            assert(t[i] == ':' && t[i + 1] == ':');
            assert(no_double_colon(hex_join(u)));
            assert(hex_join(u)[i] == ':' && hex_join(u)[i + 1] == ':');
        } else {
            lemma_hex_join_injective(s, r);
        }
    }
}

/// Two addresses of one family are written alike only when they are the same
/// address.
pub proof fn law_address_text_injective(x: IpValue, y: IpValue)
    requires
        well_formed_ip(x),
        well_formed_ip(y),
        x is V4 <==> y is V4,
        ip_text(x) == ip_text(y),
    ensures
        x == y,
{
    match x {
        IpValue::V4(o) => {
            let q = y->V4_0;
            lemma_v4_text_injective(o, q);
        },
        IpValue::V6(s) => {
            let r = y->V6_0;
            lemma_v6_text_injective(s, r);
        },
    }
}

} // verus!
