//! IP address text: the dotted IPv4 and the colon-separated IPv6 forms,
//! as the standard library's `IpAddr` parser accepts them — four decimal
//! octets without leading zeros; up to eight hex groups of one to four
//! digits, at most one `::`, and an optional trailing dotted IPv4 part
//! that counts as two groups.

use vstd::prelude::*;

use crate::text::{digit_value, is_digit, is_hex};
use crate::valid::{decimal_value, digits_end, lemma_digits_end_bounds};

verus! {

/// An IP address of either family, by its address bits.
#[derive(Debug, Clone, Copy, PartialEq, Eq)]
pub enum Ip {
    V4(u32),
    V6(u128),
}

/// The value of a hex digit.
pub open spec fn hex_digit_value(c: char) -> nat {
    if is_digit(c) {
        digit_value(c)
    } else if 'a' <= c && c <= 'f' {
        ((c as u32) - ('a' as u32) + 10) as nat
    } else {
        ((c as u32) - ('A' as u32) + 10) as nat
    }
}

/// The value of a string of hex digits.
pub open spec fn hex_value(s: Seq<char>) -> nat
    decreases s.len(),
{
    if s.len() == 0 {
        0
    } else {
        hex_value(s.drop_last()) * 16 + hex_digit_value(s.last())
    }
}

/// The index just past the run of hex digits that starts at `j`.
pub open spec fn hex_end(s: Seq<char>, j: int) -> int
    decreases s.len() - j,
{
    if j < 0 || j >= s.len() || !is_hex(s[j]) {
        j
    } else {
        hex_end(s, j + 1)
    }
}

/// A decimal octet at `i`: one to three digits, no leading zero, at most
/// 255; its value and the index after it.
pub open spec fn octet_at(s: Seq<char>, i: int) -> Option<(nat, int)> {
    let e = digits_end(s, i);
    if e == i || e - i > 3 || (s[i] == '0' && e - i > 1) || decimal_value(s.subrange(i, e)) > 255 {
        None
    } else {
        Some((decimal_value(s.subrange(i, e)), e))
    }
}

/// A `.` followed by an octet.
pub open spec fn dot_octet_at(s: Seq<char>, i: int) -> Option<(nat, int)> {
    if 0 <= i < s.len() && s[i] == '.' {
        octet_at(s, i + 1)
    } else {
        None
    }
}

/// A dotted IPv4 address starting at `i`: its 32-bit value and the index
/// after it.
pub open spec fn ipv4_at(s: Seq<char>, i: int) -> Option<(nat, int)> {
    match octet_at(s, i) {
        None => None,
        Some((a, i1)) => match dot_octet_at(s, i1) {
            None => None,
            Some((b, i2)) => match dot_octet_at(s, i2) {
                None => None,
                Some((c, i3)) => match dot_octet_at(s, i3) {
                    None => None,
                    Some((d, i4)) => Some((a * 16777216 + b * 65536 + c * 256 + d, i4)),
                },
            },
        },
    }
}

/// One to four hex digits at `i`.
pub open spec fn hex_group_at(s: Seq<char>, i: int) -> Option<(nat, int)> {
    let e = hex_end(s, i);
    if e == i || e - i > 4 {
        None
    } else {
        Some((hex_value(s.subrange(i, e)), e))
    }
}

/// The `k`-th group of an IPv6 address: after the first, preceded by `:`.
pub open spec fn sep_hex_at(s: Seq<char>, i: int, k: int) -> Option<(nat, int)> {
    if k == 0 {
        hex_group_at(s, i)
    } else if 0 <= i < s.len() && s[i] == ':' {
        hex_group_at(s, i + 1)
    } else {
        None
    }
}

/// An embedded IPv4 part in place of the `k`-th group.
pub open spec fn sep_v4_at(s: Seq<char>, i: int, k: int) -> Option<(nat, int)> {
    if k == 0 {
        ipv4_at(s, i)
    } else if 0 <= i < s.len() && s[i] == ':' {
        ipv4_at(s, i + 1)
    } else {
        None
    }
}

/// Read IPv6 groups `k..limit` starting at `p`: the group values, the
/// index after them, and whether an embedded IPv4 part ended them. An
/// IPv4 part may stand where at least two groups are left.
pub open spec fn groups_from(s: Seq<char>, p: int, k: int, limit: int) -> (Seq<nat>, int, bool)
    decreases limit - k,
{
    if k >= limit {
        (seq![], p, false)
    } else if k < limit - 1 && sep_v4_at(s, p, k) is Some {
        let (v, e) = sep_v4_at(s, p, k)->0;
        (seq![v / 65536, v % 65536], e, true)
    } else {
        match sep_hex_at(s, p, k) {
            None => (seq![], p, false),
            Some((g, e)) => {
                let (rest, e2, v4) = groups_from(s, e, k + 1, limit);
                (seq![g] + rest, e2, v4)
            },
        }
    }
}

/// The value of a sequence of 16-bit groups, most significant first.
pub open spec fn groups_value(g: Seq<nat>) -> nat
    decreases g.len(),
{
    if g.len() == 0 {
        0
    } else {
        groups_value(g.drop_last()) * 65536 + g.last()
    }
}

/// The eight groups of an address with `head` groups before `::` and
/// `tail` groups after it.
pub open spec fn expand(head: Seq<nat>, tail: Seq<nat>) -> Seq<nat> {
    head + Seq::new((8 - head.len() - tail.len()) as nat, |_i: int| 0nat) + tail
}

/// An IPv6 address starting at the beginning of `s`: its value and the
/// index after it.
pub open spec fn ipv6_prefix(s: Seq<char>) -> Option<(nat, int)> {
    let (head, p, v4) = groups_from(s, 0, 0, 8);
    if head.len() == 8 {
        Some((groups_value(head), p))
    } else if v4 {
        None
    } else if 0 <= p && p + 1 < s.len() && s[p] == ':' && s[p + 1] == ':' {
        let (tail, e, _) = groups_from(s, p + 2, 0, 7 - head.len());
        Some((groups_value(expand(head, tail)), e))
    } else {
        None
    }
}

/// The address that the whole of `s` spells: IPv4 is tried first, and
/// a string that starts with an IPv4 address must be exactly that.
pub open spec fn ip_spec(s: Seq<char>) -> Option<Ip> {
    match ipv4_at(s, 0) {
        Some((v, e)) => if e == s.len() { Some(Ip::V4(v as u32)) } else { None },
        None => match ipv6_prefix(s) {
            Some((v, e)) => if e == s.len() { Some(Ip::V6(v as u128)) } else { None },
            None => None,
        },
    }
}

// ---------------------------------------------------------------------
// Executable parser
// ---------------------------------------------------------------------

proof fn lemma_hex_end_bounds(s: Seq<char>, j: int)
    requires
        0 <= j <= s.len(),
    ensures
        j <= hex_end(s, j) <= s.len(),
        forall|k: int| j <= k < hex_end(s, j) ==> is_hex(#[trigger] s[k]),
    decreases s.len() - j,
{
    if j < s.len() && is_hex(s[j]) {
        lemma_hex_end_bounds(s, j + 1);
    }
}

fn octet(b: &[char], i: usize) -> (r: Option<(u32, usize)>)
    requires
        i <= b@.len(),
    ensures
        r is None <==> octet_at(b@, i as int) is None,
        r matches Some((v, e)) ==> octet_at(b@, i as int) == Some((v as nat, e as int)) && v <= 255 && i < e <= b@.len(),
{
    let mut e = i;
    let mut v: u32 = 0;
    proof {
        lemma_digits_end_bounds(b@, i as int);
    }
    while e < b.len() && '0' <= b[e] && b[e] <= '9' && e - i < 4
        invariant
            i <= e <= b@.len(),
            e <= digits_end(b@, i as int),
            digits_end(b@, e as int) == digits_end(b@, i as int),
            e - i <= 4,
            v as nat == decimal_value(b@.subrange(i as int, e as int)),
            e - i == 0 ==> v == 0,
            e - i == 1 ==> v < 10,
            e - i == 2 ==> v < 100,
            e - i == 3 ==> v < 1000,
            e - i == 4 ==> v < 10000,
        decreases b@.len() - e,
    {
        let d = (b[e] as u32) - ('0' as u32);
        assert(b@.subrange(i as int, e + 1).drop_last() =~= b@.subrange(i as int, e as int));
        proof {
            lemma_digits_end_bounds(b@, e + 1);
        }
        v = v * 10 + d;
        e = e + 1;
    }
    if e == i {
        return None;
    }
    if e - i == 4 {
        // a fourth digit: more than three, whatever follows
        return None;
    }
    assert(digits_end(b@, e as int) == e);
    if b[i] == '0' && e - i > 1 {
        return None;
    }
    if v > 255 {
        return None;
    }
    Some((v, e))
}

fn dot_octet(b: &[char], i: usize) -> (r: Option<(u32, usize)>)
    requires
        i <= b@.len(),
    ensures
        r is None <==> dot_octet_at(b@, i as int) is None,
        r matches Some((v, e)) ==> dot_octet_at(b@, i as int) == Some((v as nat, e as int)) && v <= 255 && i < e <= b@.len(),
{
    if i < b.len() && b[i] == '.' {
        octet(b, i + 1)
    } else {
        None
    }
}

fn ipv4(b: &[char], i: usize) -> (r: Option<(u32, usize)>)
    requires
        i <= b@.len(),
    ensures
        r is None <==> ipv4_at(b@, i as int) is None,
        r matches Some((v, e)) ==> ipv4_at(b@, i as int) == Some((v as nat, e as int)) && v <= 0xffff_ffff && i < e <= b@.len(),
{
    let (a, i1) = match octet(b, i) {
        None => return None,
        Some(x) => x,
    };
    let (c1, i2) = match dot_octet(b, i1) {
        None => return None,
        Some(x) => x,
    };
    let (c2, i3) = match dot_octet(b, i2) {
        None => return None,
        Some(x) => x,
    };
    let (c3, i4) = match dot_octet(b, i3) {
        None => return None,
        Some(x) => x,
    };
    Some((a * 16777216 + c1 * 65536 + c2 * 256 + c3, i4))
}

fn hex_char_value(c: char) -> (v: u32)
    requires
        is_hex(c),
    ensures
        v as nat == hex_digit_value(c),
        v < 16,
{
    if '0' <= c && c <= '9' {
        (c as u32) - ('0' as u32)
    } else if 'a' <= c && c <= 'f' {
        (c as u32) - ('a' as u32) + 10
    } else {
        (c as u32) - ('A' as u32) + 10
    }
}

fn is_hex_char(c: char) -> (r: bool)
    ensures
        r == is_hex(c),
{
    ('0' <= c && c <= '9') || ('a' <= c && c <= 'f') || ('A' <= c && c <= 'F')
}

fn hex_group(b: &[char], i: usize) -> (r: Option<(u32, usize)>)
    requires
        i <= b@.len(),
    ensures
        r is None <==> hex_group_at(b@, i as int) is None,
        r matches Some((v, e)) ==> hex_group_at(b@, i as int) == Some((v as nat, e as int)) && v < 65536 && i < e <= b@.len(),
{
    let mut e = i;
    let mut v: u32 = 0;
    proof {
        lemma_hex_end_bounds(b@, i as int);
    }
    while e < b.len() && is_hex_char(b[e]) && e - i < 5
        invariant
            i <= e <= b@.len(),
            e <= hex_end(b@, i as int),
            hex_end(b@, e as int) == hex_end(b@, i as int),
            e - i <= 5,
            v as nat == hex_value(b@.subrange(i as int, e as int)),
            e - i == 0 ==> v == 0,
            e - i == 1 ==> v < 16,
            e - i == 2 ==> v < 256,
            e - i == 3 ==> v < 4096,
            e - i == 4 ==> v < 65536,
            e - i == 5 ==> v < 1048576,
        decreases b@.len() - e,
    {
        let d = hex_char_value(b[e]);
        assert(b@.subrange(i as int, e + 1).drop_last() =~= b@.subrange(i as int, e as int));
        proof {
            lemma_hex_end_bounds(b@, e + 1);
        }
        v = v * 16 + d;
        e = e + 1;
    }
    if e == i || e - i == 5 {
        return None;
    }
    assert(hex_end(b@, e as int) == e);
    Some((v, e))
}

proof fn lemma_hex_value_bound(s: Seq<char>)
    requires
        s.len() <= 4,
        forall|k: int| 0 <= k < s.len() ==> is_hex(#[trigger] s[k]),
    ensures
        hex_value(s) < 65536,
        s.len() <= 3 ==> hex_value(s) < 4096,
        s.len() <= 2 ==> hex_value(s) < 256,
        s.len() <= 1 ==> hex_value(s) < 16,
    decreases s.len(),
{
    if s.len() > 0 {
        lemma_hex_value_bound(s.drop_last());
    }
}

fn sep_hex(b: &[char], i: usize, k: usize) -> (r: Option<(u32, usize)>)
    requires
        i <= b@.len(),
    ensures
        r is None <==> sep_hex_at(b@, i as int, k as int) is None,
        r matches Some((v, e)) ==> sep_hex_at(b@, i as int, k as int) == Some((v as nat, e as int)) && v < 65536 && i < e <= b@.len(),
{
    if k == 0 {
        hex_group(b, i)
    } else if i < b.len() && b[i] == ':' {
        hex_group(b, i + 1)
    } else {
        None
    }
}

fn sep_v4(b: &[char], i: usize, k: usize) -> (r: Option<(u32, usize)>)
    requires
        i <= b@.len(),
    ensures
        r is None <==> sep_v4_at(b@, i as int, k as int) is None,
        r matches Some((v, e)) ==> sep_v4_at(b@, i as int, k as int) == Some((v as nat, e as int)) && v <= 0xffff_ffff && i < e <= b@.len(),
{
    if k == 0 {
        ipv4(b, i)
    } else if i < b.len() && b[i] == ':' {
        ipv4(b, i + 1)
    } else {
        None
    }
}

/// `groups_from` reads at most `limit - k` groups, each below 65536.
#[verifier::rlimit(60)]
proof fn lemma_groups_from(s: Seq<char>, p: int, k: int, limit: int)
    requires
        0 <= p <= s.len(),
        0 <= k,
    ensures
        ({
            let (g, e, _) = groups_from(s, p, k, limit);
            &&& g.len() <= if limit > k { limit - k } else { 0 }
            &&& p <= e <= s.len()
            &&& forall|j: int| 0 <= j < g.len() ==> #[trigger] g[j] < 65536
        }),
    decreases limit - k,
{
    if k >= limit {
    } else if k < limit - 1 && sep_v4_at(s, p, k) is Some {
        let (v, e) = sep_v4_at(s, p, k)->0;
        assert(v < 4294967296) by {
            lemma_ipv4_bound(s, if k == 0 { p } else { p + 1 });
        }
        assert(v / 65536 < 65536) by (nonlinear_arith)
            requires
                v < 4294967296,
        ;
        lemma_ipv4_end(s, if k == 0 { p } else { p + 1 });
    } else {
        match sep_hex_at(s, p, k) {
            None => {},
            Some((g, e)) => {
                lemma_hex_group(s, if k == 0 { p } else { p + 1 });
                lemma_groups_from(s, e, k + 1, limit);
                let (rest, e2, v4) = groups_from(s, e, k + 1, limit);
                assert forall|j: int| 0 <= j < (seq![g] + rest).len() implies #[trigger] (seq![g]
                    + rest)[j] < 65536 by {
                    if j > 0 {
                        assert((seq![g] + rest)[j] == rest[j - 1]);
                    }
                }
            },
        }
    }
}

proof fn lemma_octet(s: Seq<char>, i: int)
    requires
        0 <= i <= s.len(),
    ensures
        octet_at(s, i) matches Some((v, e)) ==> v <= 255 && i < e <= s.len(),
{
    lemma_digits_end_bounds(s, i);
}

proof fn lemma_ipv4_bound(s: Seq<char>, i: int)
    requires
        0 <= i <= s.len(),
    ensures
        ipv4_at(s, i) matches Some((v, e)) ==> v < 4294967296,
{
    lemma_ipv4_end(s, i);
}

proof fn lemma_ipv4_end(s: Seq<char>, i: int)
    requires
        0 <= i <= s.len(),
    ensures
        ipv4_at(s, i) matches Some((v, e)) ==> v < 4294967296 && i < e <= s.len(),
{
    lemma_octet(s, i);
    if let Some((a, i1)) = octet_at(s, i) {
        if i1 < s.len() {
            lemma_octet(s, i1 + 1);
        }
        if let Some((b, i2)) = dot_octet_at(s, i1) {
            if i2 < s.len() {
                lemma_octet(s, i2 + 1);
            }
            if let Some((c, i3)) = dot_octet_at(s, i2) {
                if i3 < s.len() {
                    lemma_octet(s, i3 + 1);
                }
            }
        }
    }
}

proof fn lemma_hex_group(s: Seq<char>, i: int)
    requires
        0 <= i <= s.len(),
    ensures
        hex_group_at(s, i) matches Some((v, e)) ==> v < 65536 && i < e <= s.len(),
{
    lemma_hex_end_bounds(s, i);
    let e = hex_end(s, i);
    if e > i && e - i <= 4 {
        lemma_hex_value_bound(s.subrange(i, e));
    }
}

fn groups(b: &[char], p: usize, k: usize, limit: usize) -> (r: (Vec<u32>, usize, bool))
    requires
        p <= b@.len(),
        limit <= 8,
    ensures
        ({
            let (g, e, v4) = groups_from(b@, p as int, k as int, limit as int);
            &&& r.0@.len() == g.len()
            &&& forall|j: int| 0 <= j < g.len() ==> r.0@[j] as nat == #[trigger] g[j]
            &&& r.1 == e
            &&& r.2 == v4
        }),
    decreases limit - k,
{
    proof {
        lemma_groups_from(b@, p as int, k as int, limit as int);
    }
    if k >= limit {
        return (Vec::new(), p, false);
    }
    if k < limit - 1 {
        if let Some((v, e)) = sep_v4(b, p, k) {
            let mut g: Vec<u32> = Vec::new();
            g.push(v / 65536);
            g.push(v % 65536);
            proof {
                let sv = sep_v4_at(b@, p as int, k as int).unwrap().0;
                assert(sv == v as nat);
                let sg = seq![sv / 65536, sv % 65536];
                assert(g@[0] as nat == sg[0]);
                assert(g@[1] as nat == sg[1]);
            }
            return (g, e, true);
        }
    }
    match sep_hex(b, p, k) {
        None => (Vec::new(), p, false),
        Some((v, e)) => {
            let (rest, e2, v4) = groups(b, e, k + 1, limit);
            let mut g: Vec<u32> = Vec::new();
            g.push(v);
            let mut j: usize = 0;
            while j < rest.len()
                invariant
                    j <= rest@.len(),
                    g@.len() == j + 1,
                    g@[0] == v,
                    forall|m: int| 0 <= m < j ==> g@[m + 1] == rest@[m],
                decreases rest@.len() - j,
            {
                g.push(rest[j]);
                j = j + 1;
            }
            proof {
                let (sg, se, sv) = groups_from(b@, e as int, k as int + 1, limit as int);
                let hv = sep_hex_at(b@, p as int, k as int).unwrap().0;
                assert(hv == v as nat);
                let all = seq![hv] + sg;
                assert(k >= limit - 1 || sep_v4_at(b@, p as int, k as int) is None);
                assert(groups_from(b@, p as int, k as int, limit as int) == (all, se, sv));
                assert forall|m: int| 0 <= m < all.len() implies g@[m] as nat == #[trigger] all[m] by {
                    if m > 0 {
                        assert(all[m] == sg[m - 1]);
                    }
                }
            }
            (g, e2, v4)
        },
    }
}

/// Powers of 65536.
pub open spec fn p16(k: nat) -> nat
    decreases k,
{
    if k == 0 { 1 } else { 65536 * p16((k - 1) as nat) }
}

proof fn lemma_groups_value_bound(g: Seq<nat>)
    requires
        forall|j: int| 0 <= j < g.len() ==> #[trigger] g[j] < 65536,
    ensures
        groups_value(g) < p16(g.len()),
    decreases g.len(),
{
    if g.len() > 0 {
        lemma_groups_value_bound(g.drop_last());
        let a = groups_value(g.drop_last());
        let p = p16((g.len() - 1) as nat);
        let l = g.last();
        assert(a * 65536 + l < 65536 * p) by (nonlinear_arith)
            requires
                a < p,
                l < 65536,
        ;
    }
}

fn value_of_groups(g: &Vec<u32>) -> (v: u128)
    requires
        g@.len() == 8,
        forall|j: int| 0 <= j < 8 ==> #[trigger] g@[j] < 65536,
    ensures
        v as nat == groups_value(g@.map_values(|x: u32| x as nat)),
{
    let ghost gs = g@.map_values(|x: u32| x as nat);
    let mut v: u128 = 0;
    let mut i: usize = 0;
    proof {
        reveal_with_fuel(p16, 9);
        assert(p16(8) == 340282366920938463463374607431768211456nat);
    }
    while i < 8
        invariant
            i <= 8,
            gs == g@.map_values(|x: u32| x as nat),
            gs.len() == 8,
            forall|j: int| 0 <= j < 8 ==> #[trigger] gs[j] < 65536,
            v as nat == groups_value(gs.subrange(0, i as int)),
            p16(8) == 340282366920938463463374607431768211456nat,
        decreases 8 - i,
    {
        proof {
            lemma_groups_value_bound(gs.subrange(0, i as int + 1));
            lemma_p16_mono(i as nat + 1, 8);
            assert(gs.subrange(0, i as int + 1).drop_last() =~= gs.subrange(0, i as int));
        }
        v = v * 65536 + (g[i] as u128);
        i = i + 1;
    }
    assert(gs.subrange(0, 8) =~= gs);
    v
}

proof fn lemma_p16_mono(a: nat, b: nat)
    requires
        a <= b,
    ensures
        p16(a) <= p16(b),
    decreases b - a,
{
    if a < b {
        lemma_p16_mono(a, (b - 1) as nat);
        assert(p16(b) == 65536 * p16((b - 1) as nat));
    }
}

fn ipv6(b: &[char]) -> (r: Option<(u128, usize)>)
    ensures
        r is None <==> ipv6_prefix(b@) is None,
        r matches Some((v, e)) ==> ipv6_prefix(b@) == Some((v as nat, e as int)) && e <= b@.len(),
{
    let (head, p, v4) = groups(b, 0, 0, 8);
    proof {
        lemma_groups_from(b@, 0, 0, 8);
    }
    let ghost sh = groups_from(b@, 0, 0, 8).0;
    assert(head@.map_values(|x: u32| x as nat) =~= sh);
    assert forall|j: int| 0 <= j < head@.len() implies #[trigger] head@[j] < 65536 by {
        assert(head@[j] as nat == sh[j]);
    }
    if head.len() == 8 {
        let v = value_of_groups(&head);
        return Some((v, p));
    }
    if v4 {
        return None;
    }
    if !(b.len() >= 2 && p <= b.len() - 2 && b[p] == ':' && b[p + 1] == ':') {
        return None;
    }
    let limit = 7 - head.len();
    let (tail, e, _) = groups(b, p + 2, 0, limit);
    proof {
        lemma_groups_from(b@, p + 2, 0, limit as int);
    }
    let ghost st = groups_from(b@, p as int + 2, 0, limit as int).0;
    assert(tail@.map_values(|x: u32| x as nat) =~= st);
    // head, then zeros, then tail: eight groups
    let mut all: Vec<u32> = Vec::new();
    let zeros = 8 - head.len() - tail.len();
    let mut i: usize = 0;
    while i < head.len()
        invariant
            i <= head@.len(),
            all@ == head@.subrange(0, i as int),
        decreases head@.len() - i,
    {
        all.push(head[i]);
        i = i + 1;
        assert(all@ =~= head@.subrange(0, i as int));
    }
    let mut z: usize = 0;
    while z < zeros
        invariant
            z <= zeros,
            all@.len() == head@.len() + z,
            forall|m: int| 0 <= m < head@.len() ==> all@[m] == head@[m],
            forall|m: int| head@.len() <= m < all@.len() ==> all@[m] == 0,
        decreases zeros - z,
    {
        all.push(0);
        z = z + 1;
    }
    let mut t: usize = 0;
    while t < tail.len()
        invariant
            t <= tail@.len(),
            all@.len() == head@.len() + zeros + t,
            forall|m: int| 0 <= m < head@.len() ==> all@[m] == head@[m],
            forall|m: int| head@.len() <= m < head@.len() + zeros ==> all@[m] == 0,
            forall|m: int| 0 <= m < t ==> all@[head@.len() + zeros + m] == tail@[m],
        decreases tail@.len() - t,
    {
        all.push(tail[t]);
        t = t + 1;
    }
    let ghost ex = expand(sh, st);
    let ghost allv = all@.map_values(|x: u32| x as nat);
    assert(allv =~= ex) by {
        assert forall|m: int| 0 <= m < 8 implies #[trigger] allv[m] == ex[m] by {
            if m < head@.len() {
            } else if m < head@.len() + zeros {
            } else {
                assert(all@[m] == tail@[m - head@.len() - zeros]);
            }
        }
    }
    assert forall|j: int| 0 <= j < 8 implies #[trigger] all@[j] < 65536 by {
        assert(allv[j] == ex[j]);
        if j < head@.len() {
            assert(ex[j] == sh[j]);
        } else if j >= head@.len() + zeros {
            assert(ex[j] == st[j - head@.len() - zeros]);
        }
    }
    let v = value_of_groups(&all);
    Some((v, e))
}

/// The address that the whole of `s` spells, as `str::parse::<IpAddr>`
/// accepts it.
pub fn parse_ip(b: &[char]) -> (r: Option<Ip>)
    ensures
        r == ip_spec(b@),
{
    match ipv4(b, 0) {
        Some((v, e)) => {
            if e == b.len() {
                Some(Ip::V4(v))
            } else {
                None
            }
        },
        None => match ipv6(b) {
            Some((v, e)) => {
                if e == b.len() {
                    Some(Ip::V6(v))
                } else {
                    None
                }
            },
            None => None,
        },
    }
}

} // verus!
