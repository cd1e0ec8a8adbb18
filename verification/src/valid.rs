//! Shape validators behind the table value types (`dt`, `date`, `time`,
//! `inet`, `cidr`, `macaddr`, `macaddr8`, `uuid`). `inet`, `cidr`,
//! `macaddr` and `macaddr8` follow the PostgreSQL type definitions.
//!
//! Each validator is specified by a spec function over the characters of
//! its input; the executable check is proved to compute exactly that.

use vstd::prelude::*;

use crate::net::{Ip, ip_spec, parse_ip};
use crate::text::{all_digits, all_hex, char_of_digit, chars_of, decimal, digit_value, is_digit, is_hex};

verus! {

// ---------------------------------------------------------------------
// Specifications
// ---------------------------------------------------------------------

/// `YYYY-MM-DD` at the start of `s`.
pub open spec fn date_shape_spec(s: Seq<char>) -> bool {
    &&& s.len() >= 10
    &&& is_digit(s[0]) && is_digit(s[1]) && is_digit(s[2]) && is_digit(s[3])
    &&& s[4] == '-'
    &&& is_digit(s[5]) && is_digit(s[6])
    &&& s[7] == '-'
    &&& is_digit(s[8]) && is_digit(s[9])
}

/// The index just past the run of digits that starts at `j`.
pub open spec fn digits_end(s: Seq<char>, j: int) -> int
    decreases s.len() - j,
{
    if j < 0 || j >= s.len() || !is_digit(s[j]) {
        j
    } else {
        digits_end(s, j + 1)
    }
}

/// `hh:mm:ss` starting at `i`.
pub open spec fn hms_at(s: Seq<char>, i: int) -> bool {
    &&& 0 <= i && i + 8 <= s.len()
    &&& is_digit(s[i]) && is_digit(s[i + 1])
    &&& s[i + 2] == ':'
    &&& is_digit(s[i + 3]) && is_digit(s[i + 4])
    &&& s[i + 5] == ':'
    &&& is_digit(s[i + 6]) && is_digit(s[i + 7])
}

/// `hh:mm:ss[.fraction]` starting at `i` (a fraction has at least one
/// digit); the index just past it, or `None` when the shape is absent.
pub open spec fn time_shape_spec(s: Seq<char>, i: int) -> Option<int> {
    if !hms_at(s, i) {
        None
    } else if i + 8 < s.len() && s[i + 8] == '.' {
        let e = digits_end(s, i + 9);
        if e == i + 9 { None } else { Some(e) }
    } else {
        Some(i + 8)
    }
}

/// What may follow the time of a datetime: nothing, `Z`, or `±hh:mm`.
pub open spec fn offset_ok(t: Seq<char>) -> bool {
    ||| t.len() == 0
    ||| t.len() == 1 && t[0] == 'Z'
    ||| t.len() == 6 && (t[0] == '+' || t[0] == '-') && is_digit(t[1]) && is_digit(t[2])
        && t[3] == ':' && is_digit(t[4]) && is_digit(t[5])
}

/// The table `dt` shape: `YYYY-MM-DD`, optionally `T` or a space and a
/// time with an optional offset.
pub open spec fn datetime_spec(s: Seq<char>) -> bool {
    &&& date_shape_spec(s)
    &&& (s.len() == 10 || {
        &&& s[10] == 'T' || s[10] == ' '
        &&& match time_shape_spec(s, 11) {
            Some(i) => offset_ok(s.subrange(i, s.len() as int)),
            None => false,
        }
    })
}

/// Exactly `YYYY-MM-DD`.
pub open spec fn date_spec(s: Seq<char>) -> bool {
    s.len() == 10 && date_shape_spec(s)
}

/// Exactly `hh:mm:ss[.fraction]`.
pub open spec fn time_spec(s: Seq<char>) -> bool {
    time_shape_spec(s, 0) == Some(s.len() as int)
}

/// A digit character and its value.
proof fn lemma_char_of_digit(d: nat)
    requires
        d < 10,
    ensures
        is_digit(char_of_digit(d)),
        digit_value(char_of_digit(d)) == d,
        d > 0 ==> char_of_digit(d) != '0',
{
}

/// The decimal text of `m`: one or more digits, no leading zero unless
/// it is `0` itself, read back as `m`.
pub proof fn lemma_decimal_text(m: nat)
    ensures
        decimal(m).len() >= 1,
        all_digits(decimal(m)),
        decimal(m).len() > 1 ==> decimal(m)[0] != '0',
        m > 0 ==> decimal(m)[0] != '0',
        decimal_value(decimal(m)) == m,
    decreases m,
{
    if m < 10 {
        lemma_char_of_digit(m);
        let s = decimal(m);
        assert(s.drop_last() =~= Seq::<char>::empty());
        assert(decimal_value(s) == decimal_value(s.drop_last()) * 10 + digit_value(s.last()));
    } else {
        lemma_decimal_text(m / 10);
        lemma_char_of_digit(m % 10);
        let p = decimal(m / 10);
        let s = decimal(m);
        assert(s == p.push(char_of_digit(m % 10)));
        assert(s.drop_last() =~= p);
        assert(s[0] == p[0]);
        assert(decimal_value(s) == decimal_value(p) * 10 + digit_value(s.last()));
        assert((m / 10) * 10 + m % 10 == m);
        assert forall|i: int| 0 <= i < s.len() implies is_digit(#[trigger] s[i]) by {
            if i < p.len() {
                assert(s[i] == p[i]);
            }
        }
    }
}

/// A character that may separate MAC address groups.
pub open spec fn is_mac_sep(c: char) -> bool {
    c == ':' || c == '-' || c == '.'
}

/// Scan a MAC-shaped prefix: `None` when a character other than a hex
/// digit or a separator appears or two different separators appear;
/// otherwise the separator in use (`None` when there is none).
pub open spec fn mac_scan(s: Seq<char>) -> Option<Option<char>>
    decreases s.len(),
{
    if s.len() == 0 {
        Some(None)
    } else {
        match mac_scan(s.drop_last()) {
            None => None,
            Some(sep) => {
                let c = s.last();
                if is_hex(c) {
                    Some(sep)
                } else if !is_mac_sep(c) {
                    None
                } else {
                    match sep {
                        None => Some(Some(c)),
                        Some(e) => if e == c { Some(sep) } else { None },
                    }
                }
            }
        }
    }
}

/// The lengths of the pieces of `s` split at every `c`.
pub open spec fn group_lengths(s: Seq<char>, c: char) -> Seq<nat>
    decreases s.len(),
{
    if s.len() == 0 {
        seq![0nat]
    } else {
        let g = group_lengths(s.drop_last(), c);
        if s.last() == c {
            g.push(0nat)
        } else {
            g.update(g.len() - 1, g.last() + 1)
        }
    }
}

/// A character that is neither a hex digit nor a separator.
pub open spec fn mac_bad(s: Seq<char>) -> bool {
    exists|i: int| 0 <= i < s.len() && !is_hex(#[trigger] s[i]) && !is_mac_sep(s[i])
}

/// Two different separators.
pub open spec fn mac_mixed(s: Seq<char>) -> bool {
    exists|i: int, j: int| 0 <= i < s.len() && 0 <= j < s.len() && is_mac_sep(#[trigger] s[i]) && is_mac_sep(#[trigger] s[j]) && s[i] != s[j]
}

/// The sum of a sequence of lengths.
pub open spec fn len_sum(g: Seq<nat>) -> nat
    decreases g.len(),
{
    if g.len() == 0 {
        0
    } else {
        len_sum(g.drop_last()) + g.last()
    }
}

proof fn lemma_mac_scan(s: Seq<char>)
    ensures
        mac_scan(s) is None <==> mac_bad(s) || mac_mixed(s),
        mac_scan(s) == Some::<Option<char>>(None) ==> forall|i: int| 0 <= i < s.len() ==> is_hex(#[trigger] s[i]),
        mac_scan(s) matches Some(Some(c)) ==> is_mac_sep(c) && (exists|i: int| 0 <= i < s.len() && #[trigger] s[i] == c)
            && forall|i: int| 0 <= i < s.len() && is_mac_sep(#[trigger] s[i]) ==> s[i] == c,
    decreases s.len(),
{
    if s.len() > 0 {
        let p = s.drop_last();
        let n = s.len() - 1;
        let c = s.last();
        lemma_mac_scan(p);
        assert forall|i: int| 0 <= i < n implies #[trigger] s[i] == p[i] by {}
        if mac_bad(p) {
            let i = choose|i: int| 0 <= i < p.len() && !is_hex(#[trigger] p[i]) && !is_mac_sep(p[i]);
            assert(s[i] == p[i]);
        }
        if mac_mixed(p) {
            let (i, j) = choose|i: int, j: int| 0 <= i < p.len() && 0 <= j < p.len() && is_mac_sep(#[trigger] p[i]) && is_mac_sep(#[trigger] p[j]) && p[i] != p[j];
            assert(s[i] == p[i] && s[j] == p[j]);
        }
        if mac_bad(s) && !mac_bad(p) {
            let i = choose|i: int| 0 <= i < s.len() && !is_hex(#[trigger] s[i]) && !is_mac_sep(s[i]);
            if i < n {
                assert(p[i] == s[i]);
            }
        }
        if mac_mixed(s) && !mac_mixed(p) {
            let (i, j) = choose|i: int, j: int| 0 <= i < s.len() && 0 <= j < s.len() && is_mac_sep(#[trigger] s[i]) && is_mac_sep(#[trigger] s[j]) && s[i] != s[j];
            if i < n && j < n {
                assert(p[i] == s[i] && p[j] == s[j]);
            }
            if i < n {
                assert(p[i] == s[i]);
            }
            if j < n {
                assert(p[j] == s[j]);
            }
        }
        match mac_scan(p) {
            None => {},
            Some(None) => {
                if !is_hex(c) && is_mac_sep(c) {
                    assert(s[n] == c);
                }
            },
            Some(Some(e)) => {
                let k = choose|i: int| 0 <= i < p.len() && #[trigger] p[i] == e;
                assert(s[k] == e);
                if !is_hex(c) && is_mac_sep(c) && e != c {
                    assert(s[n] == c);
                }
            },
        }
    }
}

proof fn lemma_group_lengths(s: Seq<char>, c: char)
    ensures
        group_lengths(s, c).len() >= 1,
        len_sum(group_lengths(s, c)) + group_lengths(s, c).len() == s.len() + 1,
    decreases s.len(),
{
    if s.len() == 0 {
        assert(seq![0nat].drop_last() =~= Seq::<nat>::empty());
        assert(len_sum(seq![0nat]) == len_sum(seq![0nat].drop_last()) + 0);
    } else {
        let g = group_lengths(s.drop_last(), c);
        lemma_group_lengths(s.drop_last(), c);
        if s.last() == c {
            assert(g.push(0nat).drop_last() =~= g);
            assert(group_lengths(s, c) == g.push(0nat));
            assert(len_sum(g.push(0nat)) == len_sum(g.push(0nat).drop_last()) + g.push(0nat).last());
        } else {
            let u = g.update(g.len() - 1, g.last() + 1);
            assert(u.drop_last() =~= g.drop_last());
            assert(u.last() == g.last() + 1);
            assert(len_sum(u) == len_sum(u.drop_last()) + u.last());
            assert(len_sum(g) == len_sum(g.drop_last()) + g.last());
            assert(group_lengths(s, c) == u);
        }
    }
}

/// How a string splits into MAC groups: nothing when it is empty, holds
/// a character that is neither a hex digit nor `:`, `-`, `.`, or mixes
/// two separators; an all-hex string is one group as long as itself;
/// otherwise the separator is one that occurs, and the group lengths
/// with one separator between each two add up to the whole length.
pub proof fn lemma_mac_groups(s: Seq<char>)
    ensures
        mac_groups_spec(s) is None <==> s.len() == 0 || mac_bad(s) || mac_mixed(s),
        mac_groups_spec(s) matches Some((None, g)) ==> g == seq![s.len()] && forall|i: int|
            0 <= i < s.len() ==> is_hex(#[trigger] s[i]),
        mac_groups_spec(s) matches Some((Some(c), g)) ==> is_mac_sep(c) && (exists|i: int| 0 <= i < s.len()
            && #[trigger] s[i] == c) && g == group_lengths(s, c) && len_sum(g) + g.len() == s.len() + 1,
{
    lemma_mac_scan(s);
    if let Some(Some(c)) = mac_scan(s) {
        lemma_group_lengths(s, c);
    }
}

/// A MAC-shaped string's uniform separator (`None` = bare) and the
/// lengths of its hex groups; `None` when the string is empty, holds a
/// foreign character, or mixes separators.
pub open spec fn mac_groups_spec(s: Seq<char>) -> Option<(Option<char>, Seq<nat>)> {
    if s.len() == 0 {
        None
    } else {
        match mac_scan(s) {
            None => None,
            Some(None) => Some((None, seq![s.len()])),
            Some(Some(c)) => Some((Some(c), group_lengths(s, c))),
        }
    }
}

/// PostgreSQL `macaddr` input forms.
pub open spec fn macaddr_spec(s: Seq<char>) -> bool {
    match mac_groups_spec(s) {
        None => false,
        Some((None, g)) => g == seq![12nat],
        Some((Some(c), g)) => {
            ||| (c == ':' || c == '-') && (g == seq![2nat, 2, 2, 2, 2, 2] || g == seq![6nat, 6])
            ||| (c == '.' || c == '-') && g == seq![4nat, 4, 4]
        },
    }
}

/// PostgreSQL `macaddr8` input forms.
pub open spec fn macaddr8_spec(s: Seq<char>) -> bool {
    match mac_groups_spec(s) {
        None => false,
        Some((None, g)) => g == seq![16nat],
        Some((Some(c), g)) => {
            ||| (c == ':' || c == '-') && (g == seq![2nat, 2, 2, 2, 2, 2, 2, 2] || g == seq![6nat, 10]
                || g == seq![8nat, 8])
            ||| (c == '.' || c == '-') && g == seq![4nat, 4, 4, 4]
        },
    }
}

/// Six pairs separated by `:` or `-` only.
pub open spec fn macaddr_pairs_spec(s: Seq<char>) -> bool {
    match mac_groups_spec(s) {
        Some((Some(c), g)) => (c == ':' || c == '-') && g == seq![2nat, 2, 2, 2, 2, 2],
        _ => false,
    }
}

/// Eight pairs separated by `:` or `-` only.
pub open spec fn macaddr8_pairs_spec(s: Seq<char>) -> bool {
    match mac_groups_spec(s) {
        Some((Some(c), g)) => (c == ':' || c == '-') && g == seq![2nat, 2, 2, 2, 2, 2, 2, 2],
        _ => false,
    }
}

/// A hyphen position of the `8-4-4-4-12` UUID spelling.
pub open spec fn uuid_hyphen_at(i: int) -> bool {
    i == 8 || i == 13 || i == 18 || i == 23
}

/// Hyphenated `8-4-4-4-12` hex.
pub open spec fn uuid_hyphenated_spec(s: Seq<char>) -> bool {
    &&& s.len() == 36
    &&& forall|i: int|
        0 <= i < 36 ==> if uuid_hyphen_at(i) {
            s[i] == '-'
        } else {
            is_hex(#[trigger] s[i])
        }
}

/// Hyphenated, or the bare 32-hex spelling.
pub open spec fn uuid_spec(s: Seq<char>) -> bool {
    uuid_hyphenated_spec(s) || (s.len() == 32 && all_hex(s))
}

/// The value of a string of decimal digits.
pub open spec fn decimal_value(s: Seq<char>) -> nat
    decreases s.len(),
{
    if s.len() == 0 {
        0
    } else {
        decimal_value(s.drop_last()) * 10 + digit_value(s.last())
    }
}

/// A netmask: one or more decimal digits whose value is at most `bits`.
pub open spec fn prefix_spec(p: Seq<char>, bits: nat) -> Option<nat> {
    if p.len() > 0 && all_digits(p) && decimal_value(p) <= bits {
        Some(decimal_value(p))
    } else {
        None
    }
}

/// The index of the first `c` at or after `j`, if any.
pub open spec fn find_char(s: Seq<char>, c: char, j: int) -> Option<int>
    decreases s.len() - j,
{
    if j < 0 || j >= s.len() {
        None
    } else if s[j] == c {
        Some(j)
    } else {
        find_char(s, c, j + 1)
    }
}

/// `find_char` finds the first occurrence at or after `j`.
pub proof fn lemma_find_char(s: Seq<char>, c: char, j: int)
    ensures
        find_char(s, c, j) matches Some(i) ==> 0 <= j <= i < s.len() && s[i] == c && forall|k: int|
            j <= k < i ==> s[k] != c,
        find_char(s, c, j) is None && 0 <= j ==> forall|k: int| j <= k < s.len() ==> s[k] != c,
    decreases s.len() - j,
{
    if 0 <= j < s.len() && s[j] != c {
        lemma_find_char(s, c, j + 1);
    }
}

/// A string of digits is worth at least any of its prefixes.
pub proof fn lemma_decimal_prefix(s: Seq<char>, n: int)
    requires
        0 <= n <= s.len(),
        all_digits(s),
    ensures
        decimal_value(s.subrange(0, n)) <= decimal_value(s),
    decreases s.len() - n,
{
    if n < s.len() {
        let t = s.subrange(0, n + 1);
        assert(t.drop_last() =~= s.subrange(0, n));
        assert(is_digit(s[n]));
        lemma_decimal_prefix(s, n + 1);
    } else {
        assert(s.subrange(0, n) =~= s);
    }
}

/// The index of the first `/` in `s`, if any.
pub open spec fn first_slash(s: Seq<char>) -> Option<int> {
    find_char(s, '/', 0)
}

/// The address part and the optional netmask part (split at the first `/`).
pub open spec fn split_mask_spec(s: Seq<char>) -> (Seq<char>, Option<Seq<char>>) {
    match first_slash(s) {
        Some(i) => (s.subrange(0, i), Some(s.subrange(i + 1, s.len() as int))),
        None => (s, None),
    }
}

/// The address width of an IP family, in bits.
pub open spec fn family_bits(ip: Ip) -> nat {
    match ip {
        Ip::V4(_) => 32,
        Ip::V6(_) => 128,
    }
}

/// The full width of an address's family: 32 bits for IPv4, 128 for
/// IPv6.
pub open spec fn width_of(ip: Ip) -> nat {
    match ip {
        Ip::V4(_) => 32nat,
        Ip::V6(_) => 128nat,
    }
}

/// `addr/mask` splits at the `/` after an address that holds none.
proof fn lemma_split_at_mask(addr: Seq<char>, d: Seq<char>)
    requires
        find_char(addr, '/', 0) is None,
    ensures
        split_mask_spec(addr + "/"@ + d) == (addr, Some(d)),
{
    reveal_strlit("/");
    let s = addr + "/"@ + d;
    let n = addr.len() as int;
    assert(s[n] == '/');
    lemma_find_char(s, '/', 0);
    lemma_find_char(addr, '/', 0);
    match find_char(s, '/', 0) {
        Some(i) => {
            if i < n {
                assert(s[i] == addr[i]);
            }
            if i > n {
                assert(s[n] != '/');
            }
        },
        None => {
            assert(s[n] != '/');
        },
    }
    assert(s.subrange(0, n) =~= addr);
    assert(s.subrange(n + 1, s.len() as int) =~= d);
}

/// Netmask widths by family: `inet` takes an address of either family
/// with any netmask from 0 up to the family's full width (32 bits for
/// IPv4, 128 for IPv6) and refuses one a bit wider; `cidr` always takes
/// an address with the full-width netmask (a single host).
#[verifier::spinoff_prover]
pub proof fn lemma_netmask_widths(addr: Seq<char>, m: nat)
    requires
        ip_spec(addr) is Some,
        find_char(addr, '/', 0) is None,
        m <= width_of(ip_spec(addr).unwrap()),
    ensures
        inet_spec(addr + "/"@ + decimal(m)),
        !inet_spec(addr + "/"@ + decimal(width_of(ip_spec(addr).unwrap()) + 1)),
        cidr_spec(addr + "/"@ + decimal(width_of(ip_spec(addr).unwrap()))),
{
    let w = width_of(ip_spec(addr).unwrap());
    lemma_decimal_text(m);
    lemma_decimal_text(w);
    lemma_decimal_text(w + 1);
    lemma_split_at_mask(addr, decimal(m));
    lemma_split_at_mask(addr, decimal(w));
    lemma_split_at_mask(addr, decimal(w + 1));
}

/// PostgreSQL `inet`: an address with an optional netmask no wider than
/// the family; host bits may be set.
pub open spec fn inet_spec(s: Seq<char>) -> bool {
    let (addr, mask) = split_mask_spec(s);
    match ip_spec(addr) {
        None => false,
        Some(ip) => match mask {
            None => true,
            Some(m) => prefix_spec(m, family_bits(ip)) is Some,
        },
    }
}

/// The address bits of an IP, as an integer.
pub open spec fn ip_bits(ip: Ip) -> nat {
    match ip {
        Ip::V4(a) => a as nat,
        Ip::V6(a) => a as nat,
    }
}

/// Power of two.
pub open spec fn pow2(n: nat) -> nat
    decreases n,
{
    if n == 0 { 1 } else { 2 * pow2((n - 1) as nat) }
}

/// All bits of `ip` below the first `prefix` bits are zero.
pub open spec fn host_bits_zero_spec(ip: Ip, prefix: nat) -> bool {
    prefix >= family_bits(ip) || ip_bits(ip) % pow2((family_bits(ip) - prefix) as nat) == 0
}

/// PostgreSQL `cidr`: a network with an optional netmask (default: the
/// full width) whose host bits are all zero.
pub open spec fn cidr_spec(s: Seq<char>) -> bool {
    let (addr, mask) = split_mask_spec(s);
    match ip_spec(addr) {
        None => false,
        Some(ip) => match mask {
            None => true,
            Some(m) => match prefix_spec(m, family_bits(ip)) {
                None => false,
                Some(p) => host_bits_zero_spec(ip, p),
            },
        },
    }
}

// ---------------------------------------------------------------------
// Executable checks
// ---------------------------------------------------------------------

/// `digits_end` stays within the string and passes over digits only.
pub proof fn lemma_digits_end_bounds(s: Seq<char>, j: int)
    requires
        0 <= j <= s.len(),
    ensures
        j <= digits_end(s, j) <= s.len(),
        forall|k: int| j <= k < digits_end(s, j) ==> is_digit(#[trigger] s[k]),
    decreases s.len() - j,
{
    if j < s.len() && is_digit(s[j]) {
        lemma_digits_end_bounds(s, j + 1);
    }
}

fn digit_at(b: &[char], i: usize) -> (r: bool)
    ensures
        r == (i < b@.len() && is_digit(b@[i as int])),
{
    i < b.len() && '0' <= b[i] && b[i] <= '9'
}

fn hex_char(c: char) -> (r: bool)
    ensures
        r == is_hex(c),
{
    ('0' <= c && c <= '9') || ('a' <= c && c <= 'f') || ('A' <= c && c <= 'F')
}

fn date_shape(b: &[char]) -> (r: bool)
    ensures
        r == date_shape_spec(b@),
{
    b.len() >= 10 && digit_at(b, 0) && digit_at(b, 1) && digit_at(b, 2) && digit_at(b, 3)
        && b[4] == '-' && digit_at(b, 5) && digit_at(b, 6) && b[7] == '-' && digit_at(b, 8)
        && digit_at(b, 9)
}

/// `hh:mm:ss[.fraction]` starting at `i` (any index; past the end there
/// is none): the index just past it — past the seconds, or past the
/// longest digit run after a `.`, which must hold one digit at least.
pub fn time_shape(b: &[char], i: usize) -> (r: Option<usize>)
    ensures
        r is None <==> time_shape_spec(b@, i as int) is None,
        r matches Some(e) ==> time_shape_spec(b@, i as int) == Some(e as int) && i + 8 <= e <= b@.len(),
{
    if !(b.len() >= 8 && i <= b.len() - 8 && digit_at(b, i) && digit_at(b, i + 1) && b[i + 2] == ':' && digit_at(
        b,
        i + 3,
    ) && digit_at(b, i + 4) && b[i + 5] == ':' && digit_at(b, i + 6) && digit_at(b, i + 7)) {
        return None;
    }
    if i + 8 < b.len() && b[i + 8] == '.' {
        let start = i + 9;
        let mut end = start;
        while end < b.len() && digit_at(b, end)
            invariant
                start <= end <= b@.len(),
                digits_end(b@, end as int) == digits_end(b@, start as int),
            decreases b@.len() - end,
        {
            end = end + 1;
        }
        assert(digits_end(b@, end as int) == end);
        proof {
            lemma_digits_end_bounds(b@, start as int);
        }
        if end == start {
            None
        } else {
            Some(end)
        }
    } else {
        Some(i + 8)
    }
}

fn offset_shape(b: &[char], i: usize) -> (r: bool)
    requires
        i <= b@.len(),
    ensures
        r == offset_ok(b@.subrange(i as int, b@.len() as int)),
{
    let n = b.len() - i;
    if n == 0 {
        true
    } else if n == 1 {
        b[i] == 'Z'
    } else if n == 6 {
        (b[i] == '+' || b[i] == '-') && digit_at(b, i + 1) && digit_at(b, i + 2) && b[i + 3]
            == ':' && digit_at(b, i + 4) && digit_at(b, i + 5)
    } else {
        false
    }
}

/// `YYYY-MM-DD`, optionally followed by `T` (or a space) and
/// `hh:mm:ss[.fraction]` with an optional `Z` / `±hh:mm` offset — the
/// shape of the table `dt` type.
pub fn datetime(s: &str) -> (r: bool)
    ensures
        r == datetime_spec(s@),
{
    let v = chars_of(s);
    let b = v.as_slice();
    if !date_shape(b) {
        return false;
    }
    if b.len() == 10 {
        return true;
    }
    if b[10] != 'T' && b[10] != ' ' {
        return false;
    }
    match time_shape(b, 11) {
        None => false,
        Some(i) => offset_shape(b, i),
    }
}

/// Exactly `YYYY-MM-DD` — the table `date` type.
pub fn date(s: &str) -> (r: bool)
    ensures
        r == date_spec(s@),
{
    let v = chars_of(s);
    v.len() == 10 && date_shape(v.as_slice())
}

/// Exactly `hh:mm:ss[.fraction]` — the table `time` type.
pub fn time(s: &str) -> (r: bool)
    ensures
        r == time_spec(s@),
{
    let v = chars_of(s);
    match time_shape(v.as_slice(), 0) {
        None => false,
        Some(e) => e == v.len(),
    }
}

/// A MAC-shaped string's separator and hex-group lengths (see
/// [`lemma_mac_groups`] for what they add up to).
pub fn mac_groups(b: &[char]) -> (r: Option<(Option<char>, Vec<usize>)>)
    ensures
        match mac_groups_spec(b@) {
            None => r is None,
            Some((sep, g)) => r matches Some(pair) && pair.0 == sep && pair.1@.len() == g.len()
                && forall|k: int| 0 <= k < g.len() ==> pair.1@[k] as nat == #[trigger] g[k],
        },
{
    if b.len() == 0 {
        return None;
    }
    // scan: one uniform separator, otherwise only hex digits
    let mut sep: Option<char> = None;
    let mut i: usize = 0;
    while i < b.len()
        invariant
            i <= b@.len(),
            mac_scan(b@.subrange(0, i as int)) == Some(sep),
        decreases b@.len() - i,
    {
        let c = b[i];
        assert(b@.subrange(0, i + 1).drop_last() =~= b@.subrange(0, i as int));
        if !hex_char(c) {
            if !(c == ':' || c == '-' || c == '.') {
                assert(mac_scan(b@.subrange(0, i + 1)) is None);
                proof {
                    lemma_mac_scan_none_extends(b@, i as int + 1);
                }
                return None;
            }
            match sep {
                None => {
                    sep = Some(c);
                },
                Some(e) => {
                    if e != c {
                        assert(mac_scan(b@.subrange(0, i + 1)) is None);
                        proof {
                            lemma_mac_scan_none_extends(b@, i as int + 1);
                        }
                        return None;
                    }
                },
            }
        }
        i = i + 1;
    }
    assert(b@.subrange(0, b@.len() as int) =~= b@);
    match sep {
        None => {
            let mut g: Vec<usize> = Vec::new();
            g.push(b.len());
            Some((None, g))
        },
        Some(c) => {
            let mut g: Vec<usize> = Vec::new();
            g.push(0);
            let mut j: usize = 0;
            assert(group_lengths(b@.subrange(0, 0), c) == seq![0nat]);
            while j < b.len()
                invariant
                    j <= b@.len(),
                    g@.len() == group_lengths(b@.subrange(0, j as int), c).len(),
                    g@.len() >= 1,
                    forall|k: int|
                        0 <= k < g@.len() ==> g@[k] as nat == #[trigger] group_lengths(
                            b@.subrange(0, j as int),
                            c,
                        )[k],
                    forall|k: int| 0 <= k < g@.len() ==> #[trigger] g@[k] <= j,
                decreases b@.len() - j,
            {
                let ghost prev = group_lengths(b@.subrange(0, j as int), c);
                assert(b@.subrange(0, j + 1).drop_last() =~= b@.subrange(0, j as int));
                if b[j] == c {
                    g.push(0);
                } else {
                    let last = g.len() - 1;
                    let n = g[last];
                    g.set(last, n + 1);
                }
                j = j + 1;
                proof {
                    let now = group_lengths(b@.subrange(0, j as int), c);
                    assert(now.len() == g@.len());
                    assert forall|k: int| 0 <= k < g@.len() implies g@[k] as nat == #[trigger] now[k] by {
                    }
                }
            }
            assert(b@.subrange(0, b@.len() as int) =~= b@);
            Some((Some(c), g))
        },
    }
}

proof fn lemma_mac_scan_none_extends(s: Seq<char>, i: int)
    requires
        0 <= i <= s.len(),
        mac_scan(s.subrange(0, i)) is None,
    ensures
        mac_scan(s) is None,
    decreases s.len() - i,
{
    if i < s.len() {
        assert(s.subrange(0, i + 1).drop_last() =~= s.subrange(0, i));
        lemma_mac_scan_none_extends(s, i + 1);
    } else {
        assert(s.subrange(0, i) =~= s);
    }
}

/// Whether the group lengths are exactly `want`.
fn groups_are(g: &Vec<usize>, want: &[usize]) -> (r: bool)
    ensures
        r == (g@ == want@),
{
    if g.len() != want.len() {
        return false;
    }
    let mut i: usize = 0;
    while i < g.len()
        invariant
            g@.len() == want@.len(),
            i <= g@.len(),
            forall|k: int| 0 <= k < i ==> g@[k] == want@[k],
        decreases g@.len() - i,
    {
        if g[i] != want[i] {
            return false;
        }
        i = i + 1;
    }
    assert(g@ =~= want@);
    true
}

proof fn lemma_groups_match(g: Seq<usize>, spec_g: Seq<nat>, want: Seq<usize>, want_n: Seq<nat>)
    requires
        g.len() == spec_g.len(),
        forall|k: int| 0 <= k < g.len() ==> g[k] as nat == #[trigger] spec_g[k],
        want.len() == want_n.len(),
        forall|k: int| 0 <= k < want.len() ==> want[k] as nat == #[trigger] want_n[k],
    ensures
        (g == want) == (spec_g == want_n),
{
    if g == want {
        assert(spec_g =~= want_n);
    }
    if spec_g == want_n {
        assert forall|k: int| 0 <= k < g.len() implies g[k] == want[k] by {
            assert(g[k] as nat == spec_g[k]);
            assert(want[k] as nat == want_n[k]);
        }
        assert(g =~= want);
    }
}

/// PostgreSQL `macaddr` input formats — six pairs (`:` or `-`), two
/// six-digit halves (`:` or `-`), three four-digit groups (`.` or `-`),
/// or the bare twelve digits; one uniform separator.
pub fn macaddr(s: &str) -> (r: bool)
    ensures
        r == macaddr_spec(s@),
{
    let v = chars_of(s);
    match mac_groups(v.as_slice()) {
        None => false,
        Some((None, g)) => {
            let w = [12usize];
            proof {
                lemma_groups_match(g@, mac_groups_spec(s@).unwrap().1, w@, seq![12nat]);
            }
            groups_are(&g, &w)
        },
        Some((Some(c), g)) => {
            let ghost sg = mac_groups_spec(s@).unwrap().1;
            let w6 = [2usize, 2, 2, 2, 2, 2];
            let w2 = [6usize, 6];
            let w3 = [4usize, 4, 4];
            proof {
                lemma_groups_match(g@, sg, w6@, seq![2nat, 2, 2, 2, 2, 2]);
                lemma_groups_match(g@, sg, w2@, seq![6nat, 6]);
                lemma_groups_match(g@, sg, w3@, seq![4nat, 4, 4]);
            }
            ((c == ':' || c == '-') && (groups_are(&g, &w6) || groups_are(&g, &w2))) || ((c == '.'
                || c == '-') && groups_are(&g, &w3))
        },
    }
}

/// PostgreSQL `macaddr8` (EUI-64) input formats — eight pairs, 3+5 or
/// 4+4 byte halves (`:` or `-`), four four-digit groups (`.` or `-`), or
/// the bare sixteen digits.
pub fn macaddr8(s: &str) -> (r: bool)
    ensures
        r == macaddr8_spec(s@),
{
    let v = chars_of(s);
    match mac_groups(v.as_slice()) {
        None => false,
        Some((None, g)) => {
            let w = [16usize];
            proof {
                lemma_groups_match(g@, mac_groups_spec(s@).unwrap().1, w@, seq![16nat]);
            }
            groups_are(&g, &w)
        },
        Some((Some(c), g)) => {
            let ghost sg = mac_groups_spec(s@).unwrap().1;
            let w8 = [2usize, 2, 2, 2, 2, 2, 2, 2];
            let w35 = [6usize, 10];
            let w44 = [8usize, 8];
            let w4 = [4usize, 4, 4, 4];
            proof {
                lemma_groups_match(g@, sg, w8@, seq![2nat, 2, 2, 2, 2, 2, 2, 2]);
                lemma_groups_match(g@, sg, w35@, seq![6nat, 10]);
                lemma_groups_match(g@, sg, w44@, seq![8nat, 8]);
                lemma_groups_match(g@, sg, w4@, seq![4nat, 4, 4, 4]);
            }
            ((c == ':' || c == '-') && (groups_are(&g, &w8) || groups_are(&g, &w35) || groups_are(
                &g,
                &w44,
            ))) || ((c == '.' || c == '-') && groups_are(&g, &w4))
        },
    }
}

/// The conventional six-pair spelling only (`:` or `-`) — what the
/// `auto` guess accepts.
pub fn macaddr_pairs(s: &str) -> (r: bool)
    ensures
        r == macaddr_pairs_spec(s@),
{
    let v = chars_of(s);
    match mac_groups(v.as_slice()) {
        Some((Some(c), g)) => {
            let w6 = [2usize, 2, 2, 2, 2, 2];
            proof {
                lemma_groups_match(g@, mac_groups_spec(s@).unwrap().1, w6@, seq![2nat, 2, 2, 2, 2, 2]);
            }
            (c == ':' || c == '-') && groups_are(&g, &w6)
        },
        _ => false,
    }
}

/// The conventional eight-pair spelling only (`:` or `-`).
pub fn macaddr8_pairs(s: &str) -> (r: bool)
    ensures
        r == macaddr8_pairs_spec(s@),
{
    let v = chars_of(s);
    match mac_groups(v.as_slice()) {
        Some((Some(c), g)) => {
            let w8 = [2usize, 2, 2, 2, 2, 2, 2, 2];
            proof {
                lemma_groups_match(
                    g@,
                    mac_groups_spec(s@).unwrap().1,
                    w8@,
                    seq![2nat, 2, 2, 2, 2, 2, 2, 2],
                );
            }
            (c == ':' || c == '-') && groups_are(&g, &w8)
        },
        _ => false,
    }
}

fn all_hex_slice(b: &[char]) -> (r: bool)
    ensures
        r == all_hex(b@),
{
    let mut i: usize = 0;
    while i < b.len()
        invariant
            i <= b@.len(),
            forall|k: int| 0 <= k < i ==> is_hex(#[trigger] b@[k]),
        decreases b@.len() - i,
    {
        if !hex_char(b[i]) {
            return false;
        }
        i = i + 1;
    }
    true
}

fn uuid_hyphenated_slice(b: &[char]) -> (r: bool)
    ensures
        r == uuid_hyphenated_spec(b@),
{
    if b.len() != 36 {
        return false;
    }
    let mut i: usize = 0;
    while i < 36
        invariant
            b@.len() == 36,
            i <= 36,
            forall|k: int|
                0 <= k < i ==> if uuid_hyphen_at(k) {
                    b@[k] == '-'
                } else {
                    is_hex(#[trigger] b@[k])
                },
        decreases 36 - i,
    {
        if i == 8 || i == 13 || i == 18 || i == 23 {
            if b[i] != '-' {
                return false;
            }
        } else if !hex_char(b[i]) {
            return false;
        }
        i = i + 1;
    }
    true
}

/// Hyphenated `8-4-4-4-12` hex only — what `auto` accepts as a UUID.
pub fn uuid_hyphenated(s: &str) -> (r: bool)
    ensures
        r == uuid_hyphenated_spec(s@),
{
    let v = chars_of(s);
    uuid_hyphenated_slice(v.as_slice())
}

/// The table `uuid` type: hyphenated `8-4-4-4-12` hex or the bare
/// 32-hex form, case-insensitive.
pub fn uuid(s: &str) -> (r: bool)
    ensures
        r == uuid_spec(s@),
{
    let v = chars_of(s);
    uuid_hyphenated_slice(v.as_slice()) || (v.len() == 32 && all_hex_slice(v.as_slice()))
}


/// The first `c` at or after `j`.
pub fn find(b: &[char], c: char, j: usize) -> (r: Option<usize>)
    requires
        j <= b@.len(),
    ensures
        r is None <==> find_char(b@, c, j as int) is None,
        r matches Some(i) ==> find_char(b@, c, j as int) == Some(i as int) && j <= i < b@.len() && b@[i as int] == c,
{
    let mut i = j;
    while i < b.len()
        invariant
            j <= i <= b@.len(),
            find_char(b@, c, i as int) == find_char(b@, c, j as int),
        decreases b@.len() - i,
    {
        if b[i] == c {
            return Some(i);
        }
        i = i + 1;
    }
    None
}

/// A netmask `m[from..]`: one or more digits with value at most `bits`.
fn prefix(b: &[char], from: usize, bits: u32) -> (r: Option<u32>)
    requires
        from <= b@.len(),
        bits <= 128,
    ensures
        match prefix_spec(b@.subrange(from as int, b@.len() as int), bits as nat) {
            None => r is None,
            Some(p) => r == Some(p as u32),
        },
{
    let ghost m = b@.subrange(from as int, b@.len() as int);
    if from == b.len() {
        return None;
    }
    let mut v: u32 = 0;
    let mut big = false;
    let mut i = from;
    while i < b.len()
        invariant
            from <= i <= b@.len(),
            m == b@.subrange(from as int, b@.len() as int),
            all_digits(b@.subrange(from as int, i as int)),
            !big ==> v as nat == decimal_value(b@.subrange(from as int, i as int)) && v <= 1009,
            big ==> decimal_value(b@.subrange(from as int, i as int)) > 1000,
        decreases b@.len() - i,
    {
        let c = b[i];
        if !('0' <= c && c <= '9') {
            assert(m[(i - from) as int] == b@[i as int]);
            assert(!is_digit(m[(i - from) as int]));
            return None;
        }
        let ghost prev = b@.subrange(from as int, i as int);
        assert(b@.subrange(from as int, i + 1).drop_last() =~= prev);
        let d = (c as u32) - ('0' as u32);
        if !big {
            if v > 100 {
                big = true;
            } else {
                v = v * 10 + d;
            }
        }
        i = i + 1;
        assert(all_digits(b@.subrange(from as int, i as int))) by {
            assert forall|k: int| 0 <= k < i - from implies is_digit(#[trigger] b@.subrange(from as int, i as int)[k]) by {
                if k < i - 1 - from {
                    assert(b@.subrange(from as int, i as int)[k] == prev[k]);
                }
            }
        }
    }
    assert(b@.subrange(from as int, i as int) =~= m);
    if big || v > bits {
        None
    } else {
        Some(v)
    }
}

/// The address part of `s` (before the first `/`) and where the mask
/// starts, if there is one.
fn split_mask(b: &[char]) -> (r: (Vec<char>, Option<usize>))
    ensures
        r.0@ == split_mask_spec(b@).0,
        match split_mask_spec(b@).1 {
            None => r.1 is None,
            Some(m) => r.1 is Some && r.1->0 <= b@.len() && b@.subrange(r.1->0 as int, b@.len() as int) == m,
        },
{
    match find(b, '/', 0) {
        None => (crate::text::to_vec(b), None),
        Some(i) => {
            let mut a: Vec<char> = Vec::new();
            let mut k: usize = 0;
            while k < i
                invariant
                    k <= i < b@.len(),
                    a@ == b@.subrange(0, k as int),
                decreases i - k,
            {
                a.push(b[k]);
                k = k + 1;
                assert(a@ =~= b@.subrange(0, k as int));
            }
            assert(a@ =~= b@.subrange(0, i as int));
            assert(i < b.len());
            (a, Some(i + 1))
        },
    }
}

fn bits_of(ip: Ip) -> (r: u32)
    ensures
        r as nat == family_bits(ip),
{
    match ip {
        Ip::V4(_) => 32,
        Ip::V6(_) => 128,
    }
}

/// PostgreSQL `inet`: a host address of either IP family with an
/// optional `/netmask` no wider than the family; bits to the right of
/// the netmask may be set.
pub fn inet(s: &str) -> (r: bool)
    ensures
        r == inet_spec(s@),
{
    let v = chars_of(s);
    let (addr, mask) = split_mask(v.as_slice());
    match parse_ip(addr.as_slice()) {
        None => false,
        Some(ip) => match mask {
            None => true,
            Some(from) => prefix(v.as_slice(), from, bits_of(ip)).is_some(),
        },
    }
}

proof fn lemma_pow2_add(a: nat, b: nat)
    ensures
        pow2(a + b) == pow2(a) * pow2(b),
    decreases a,
{
    if a > 0 {
        let a1 = (a - 1) as nat;
        lemma_pow2_add(a1, b);
        let x = pow2(a1);
        let y = pow2(b);
        assert(pow2(a) == 2 * x);
        assert((a + b - 1) as nat == a1 + b);
        assert(pow2(a + b) == 2 * pow2(a1 + b));
        assert(pow2(a1 + b) == x * y);
        assert(2 * (x * y) == (2 * x) * y) by (nonlinear_arith);
    } else {
        assert(pow2(0) == 1);
        assert(a + b == b);
    }
}

proof fn lemma_pow2_mono(a: nat, b: nat)
    requires
        a <= b,
    ensures
        1 <= pow2(a) <= pow2(b),
    decreases b,
{
    if b == 0 {
    } else if a == b {
        lemma_pow2_mono((b - 1) as nat, (b - 1) as nat);
    } else {
        lemma_pow2_mono(a, (b - 1) as nat);
    }
}

proof fn lemma_square(a: nat, x: nat, sq: nat)
    requires
        pow2(a) == x,
        x * x == sq,
    ensures
        pow2(a + a) == sq,
{
    lemma_pow2_add(a, a);
}

proof fn lemma_times(a: nat, b: nat, x: nat, y: nat, z: nat)
    requires
        pow2(a) == x,
        pow2(b) == y,
        x * y == z,
    ensures
        pow2(a + b) == z,
{
    lemma_pow2_add(a, b);
}

proof fn lemma_pow2_values()
    ensures
        pow2(127) == 0x8000_0000_0000_0000_0000_0000_0000_0000nat,
        pow2(128) == 0x1_0000_0000_0000_0000_0000_0000_0000_0000nat,
{
    reveal_with_fuel(pow2, 9);
    assert(pow2(8) == 256);
    assert(pow2(7) == 128);
    lemma_square(8, 256, 65536);
    lemma_square(16, 65536, 0x1_0000_0000);
    assert(0x1_0000_0000nat * 0x1_0000_0000nat == 0x1_0000_0000_0000_0000nat) by (nonlinear_arith);
    lemma_square(32, 0x1_0000_0000, 0x1_0000_0000_0000_0000);
    assert(0x1_0000_0000_0000_0000nat * 0x1_0000_0000_0000_0000nat
        == 0x1_0000_0000_0000_0000_0000_0000_0000_0000nat) by (nonlinear_arith);
    lemma_square(64, 0x1_0000_0000_0000_0000, 0x1_0000_0000_0000_0000_0000_0000_0000_0000nat);
    lemma_times(7, 8, 128, 256, 32768);
    assert(32768nat * 65536nat == 0x8000_0000nat) by (nonlinear_arith);
    lemma_times(15, 16, 32768, 65536, 0x8000_0000);
    assert(0x8000_0000nat * 0x1_0000_0000nat == 0x8000_0000_0000_0000nat) by (nonlinear_arith);
    lemma_times(31, 32, 0x8000_0000, 0x1_0000_0000, 0x8000_0000_0000_0000);
    assert(0x8000_0000_0000_0000nat * 0x1_0000_0000_0000_0000nat
        == 0x8000_0000_0000_0000_0000_0000_0000_0000nat) by (nonlinear_arith);
    lemma_times(63, 64, 0x8000_0000_0000_0000, 0x1_0000_0000_0000_0000, 0x8000_0000_0000_0000_0000_0000_0000_0000nat);
}

/// Bits to the right of the netmask are all zero.
fn host_bits_zero(ip: Ip, prefix: u32) -> (r: bool)
    ensures
        r == host_bits_zero_spec(ip, prefix as nat),
{
    let bits = bits_of(ip);
    if prefix >= bits {
        return true;
    }
    let x: u128 = match ip {
        Ip::V4(a) => a as u128,
        Ip::V6(a) => a,
    };
    let n = bits - prefix;
    if n == 128 {
        proof {
            lemma_pow2_values();
            vstd::arithmetic::div_mod::lemma_small_mod(x as nat, pow2(128));
        }
        return x == 0;
    }
    let mut m: u128 = 1;
    let mut i: u32 = 0;
    while i < n
        invariant
            i <= n <= 127,
            m as nat == pow2(i as nat),
            m >= 1,
        decreases n - i,
    {
        proof {
            lemma_pow2_values();
            lemma_pow2_mono(i as nat, 126);
            lemma_pow2_add(126, 1);
            reveal_with_fuel(pow2, 2);
        }
        m = m * 2;
        i = i + 1;
    }
    x % m == 0
}

/// PostgreSQL `cidr`: a network of either IP family; the netmask is
/// optional (default: the full width) and bits to the right of it must
/// be zero.
pub fn cidr(s: &str) -> (r: bool)
    ensures
        r == cidr_spec(s@),
{
    let v = chars_of(s);
    let (addr, mask) = split_mask(v.as_slice());
    match parse_ip(addr.as_slice()) {
        None => false,
        Some(ip) => match mask {
            None => true,
            Some(from) => match prefix(v.as_slice(), from, bits_of(ip)) {
                None => false,
                Some(p) => host_bits_zero(ip, p),
            },
        },
    }
}

} // verus!
