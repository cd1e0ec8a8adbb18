//! Numeric literals of table cells: decimal integers as Rust parses
//! them, plus the extended forms — `0x`/`0o`/`0b` radixes, `_`
//! separators between digits and a BigInt-style trailing `n`.

use vstd::prelude::*;

use crate::text::is_hex;

verus! {

// ---------------------------------------------------------------------
// Specification
// ---------------------------------------------------------------------

/// The value of `c` as a digit of `radix` (`0-9`, then `a-z`/`A-Z` from
/// ten), if it is one.
pub open spec fn radix_digit(c: char, radix: nat) -> Option<nat> {
    let d: int = if '0' <= c && c <= '9' {
        c as int - '0' as int
    } else if 'a' <= c && c <= 'z' {
        c as int - 'a' as int + 10
    } else if 'A' <= c && c <= 'Z' {
        c as int - 'A' as int + 10
    } else {
        radix as int
    };
    if d < radix {
        Some(d as nat)
    } else {
        None
    }
}

/// The value of a string of `radix` digits (zero when empty), if every
/// character is such a digit.
pub open spec fn digits_val(s: Seq<char>, radix: nat) -> Option<nat>
    decreases s.len(),
{
    if s.len() == 0 {
        Some(0)
    } else {
        match (digits_val(s.drop_last(), radix), radix_digit(s.last(), radix)) {
            (Some(a), Some(d)) => Some(a * radix + d),
            _ => None,
        }
    }
}

/// What `from_str_radix` reads from `s`, unbounded: an optional `+`
/// (or, when `signed`, `-`) and at least one digit.
pub open spec fn from_radix(s: Seq<char>, radix: nat, signed: bool) -> Option<int> {
    if s.len() > 0 && (s[0] == '+' || (signed && s[0] == '-')) {
        let body = s.drop_first();
        if body.len() == 0 {
            None
        } else {
            match digits_val(body, radix) {
                Some(v) => Some(if s[0] == '-' { -v } else { v as int }),
                None => None,
            }
        }
    } else if s.len() == 0 {
        None
    } else {
        match digits_val(s, radix) {
            Some(v) => Some(v as int),
            None => None,
        }
    }
}

/// Every `_` sits between two hexadecimal digits.
pub open spec fn underscores_ok(raw: Seq<char>) -> bool {
    forall|i: int|
        0 <= i < raw.len() && #[trigger] raw[i] == '_' ==> 0 < i && i + 1 < raw.len() && is_hex(
            raw[i - 1],
        ) && is_hex(raw[i + 1])
}

/// `raw` without its `_` separators.
pub open spec fn strip_underscores(raw: Seq<char>) -> Seq<char>
    decreases raw.len(),
{
    if raw.len() == 0 {
        raw
    } else if raw.last() == '_' {
        strip_underscores(raw.drop_last())
    } else {
        strip_underscores(raw.drop_last()).push(raw.last())
    }
}

/// A character that may precede a BigInt `n`.
pub open spec fn bigint_char(c: char) -> bool {
    is_hex(c) || c == 'x' || c == 'X' || c == 'o' || c == 'O' || c == '+' || c == '-'
}

/// Looks like an integer literal with a BigInt-style trailing `n`.
pub open spec fn bigint_shape(s: Seq<char>) -> bool {
    s.len() > 1 && s.last() == 'n' && forall|i: int| 0 <= i < s.len() - 1 ==> bigint_char(#[trigger] s[i])
}

/// The literal without separators and without a BigInt `n` (and
/// whether there was one); `None` when a separator is misplaced.
pub open spec fn cleaned(raw: Seq<char>) -> Option<(Seq<char>, bool)> {
    if !underscores_ok(raw) {
        None
    } else {
        let s = strip_underscores(raw);
        if bigint_shape(s) {
            Some((s.drop_last(), true))
        } else {
            Some((s, false))
        }
    }
}

/// A `[sign]0x`/`0o`/`0b` literal as its sign and digits, with its
/// radix.
pub open spec fn radix_split(s: Seq<char>) -> Option<(Seq<char>, nat)> {
    let neg = s.len() > 0 && s[0] == '-';
    let body = if s.len() > 0 && (s[0] == '-' || s[0] == '+') {
        s.drop_first()
    } else {
        s
    };
    let sign = if neg { seq!['-'] } else { Seq::<char>::empty() };
    if body.len() >= 2 && body[0] == '0' {
        let radix: nat = if body[1] == 'x' || body[1] == 'X' {
            16
        } else if body[1] == 'b' || body[1] == 'B' {
            2
        } else if body[1] == 'o' || body[1] == 'O' {
            8
        } else {
            0
        };
        let digits = body.subrange(2, body.len() as int);
        if radix == 0 || digits.len() == 0 {
            None
        } else {
            Some((sign + digits, radix))
        }
    } else {
        None
    }
}

/// The integer a cell literal denotes, unbounded: radix forms through
/// their radix, everything else as a decimal integer (`signed` admits a
/// minus sign).
pub open spec fn int_lit(raw: Seq<char>, signed: bool) -> Option<int> {
    match cleaned(raw) {
        None => None,
        Some((s, _)) => match radix_split(s) {
            Some((d, r)) => from_radix(d, r, signed),
            None => from_radix(s, 10, signed),
        },
    }
}

/// Is `v` a value of the integer type with these bounds?
pub open spec fn in_range(v: Option<int>, lo: int, hi: int) -> bool {
    v matches Some(x) && lo <= x <= hi
}

// ---------------------------------------------------------------------
// Executable
// ---------------------------------------------------------------------

/// A parsed integer literal: not one, a sign and magnitude, or a value
/// whose magnitude exceeds `u128::MAX`.
#[derive(Debug, Clone, Copy, PartialEq, Eq, Structural)]
pub enum IntLit {
    Not,
    Val(bool, u128),
    Huge(bool),
}

/// `r` reports the unbounded integer `v`.
pub open spec fn lit_is(r: IntLit, v: Option<int>) -> bool {
    match r {
        IntLit::Not => v is None,
        IntLit::Val(neg, m) => v == Some(if neg { -(m as int) } else { m as int }),
        IntLit::Huge(neg) => v matches Some(x) && (if neg { x < -(u128::MAX as int) } else { x > u128::MAX }),
    }
}

/// The value of `c` as a digit of `radix`.
fn digit_of(c: char, radix: u32) -> (r: Option<u32>)
    requires
        2 <= radix <= 36,
    ensures
        match radix_digit(c, radix as nat) {
            Some(d) => r == Some(d as u32),
            None => r is None,
        },
{
    let d: u32 = if '0' <= c && c <= '9' {
        (c as u32) - ('0' as u32)
    } else if 'a' <= c && c <= 'z' {
        (c as u32) - ('a' as u32) + 10
    } else if 'A' <= c && c <= 'Z' {
        (c as u32) - ('A' as u32) + 10
    } else {
        radix
    };
    if d < radix {
        Some(d)
    } else {
        None
    }
}

proof fn lemma_digits_val_grows(s: Seq<char>, radix: nat)
    requires
        s.len() > 0,
        radix >= 2,
        digits_val(s, radix) is Some,
    ensures
        digits_val(s.drop_last(), radix) is Some,
        digits_val(s, radix).unwrap() >= digits_val(s.drop_last(), radix).unwrap() * radix,
{
}

proof fn lemma_digits_val_prefix(s: Seq<char>, radix: nat, n: int)
    requires
        0 <= n <= s.len(),
        radix >= 2,
        digits_val(s, radix) is Some,
    ensures
        digits_val(s.subrange(0, n), radix) is Some,
        digits_val(s.subrange(0, n), radix).unwrap() <= digits_val(s, radix).unwrap(),
    decreases s.len() - n,
{
    if n < s.len() {
        let t = s.subrange(0, n + 1);
        lemma_digits_val_prefix(s, radix, n + 1);
        assert(t.drop_last() =~= s.subrange(0, n));
        lemma_digits_val_grows(t, radix);
        assert(digits_val(t, radix).unwrap() >= digits_val(s.subrange(0, n), radix).unwrap())
            by (nonlinear_arith)
            requires
                digits_val(t, radix).unwrap() >= digits_val(s.subrange(0, n), radix).unwrap()
                    * radix,
                radix >= 2,
        ;
    } else {
        assert(s.subrange(0, n) =~= s);
    }
}

/// The magnitude of the digits `b[from..]` in `radix`: `None` when some
/// character is not such a digit; `Some(None)` when it exceeds
/// `u128::MAX`.
fn magnitude(b: &[char], from: usize, radix: u32) -> (r: Option<Option<u128>>)
    requires
        from <= b@.len(),
        2 <= radix <= 36,
    ensures
        match digits_val(b@.subrange(from as int, b@.len() as int), radix as nat) {
            None => r is None,
            Some(v) => r matches Some(m) && (match m {
                Some(x) => x == v,
                None => v > u128::MAX,
            }),
        },
{
    let ghost all = b@.subrange(from as int, b@.len() as int);
    let mut v: u128 = 0;
    let mut big = false;
    let mut i = from;
    while i < b.len()
        invariant
            from <= i <= b@.len(),
            2 <= radix <= 36,
            all == b@.subrange(from as int, b@.len() as int),
            digits_val(b@.subrange(from as int, i as int), radix as nat) is Some,
            !big ==> v as nat == digits_val(b@.subrange(from as int, i as int), radix as nat).unwrap(),
            big ==> digits_val(b@.subrange(from as int, i as int), radix as nat).unwrap() > u128::MAX,
        decreases b@.len() - i,
    {
        let ghost p = b@.subrange(from as int, i as int);
        let ghost q = b@.subrange(from as int, i + 1);
        assert(q.drop_last() =~= p);
        assert(q.last() == b@[i as int]);
        match digit_of(b[i], radix) {
            None => {
                proof {
                    if digits_val(all, radix as nat) is Some {
                        lemma_digits_val_prefix(all, radix as nat, i + 1 - from);
                        assert(all.subrange(0, i + 1 - from) =~= q);
                    }
                }
                return None;
            },
            Some(d) => {
                let ghost pv = digits_val(p, radix as nat).unwrap();
                if !big {
                    if v > (u128::MAX - d as u128) / (radix as u128) {
                        assert(v * radix + d > u128::MAX) by (nonlinear_arith)
                            requires
                                v > (u128::MAX - d) / (radix as int),
                                d < radix,
                                radix >= 2,
                        ;
                        big = true;
                    } else {
                        assert(v * radix + d <= u128::MAX) by (nonlinear_arith)
                            requires
                                v <= (u128::MAX - d) / (radix as int),
                                d < radix,
                                radix >= 2,
                        ;
                        v = v * (radix as u128) + d as u128;
                    }
                } else {
                    assert(pv * radix + d >= pv) by (nonlinear_arith)
                        requires
                            radix >= 2,
                    ;
                }
            },
        }
        i = i + 1;
    }
    assert(b@.subrange(from as int, i as int) =~= all);
    if big {
        Some(None)
    } else {
        Some(Some(v))
    }
}

/// `from_str_radix` on `b[from..]`, unbounded.
pub fn parse_radix(b: &[char], from: usize, radix: u32, signed: bool) -> (r: IntLit)
    requires
        from <= b@.len(),
        2 <= radix <= 36,
    ensures
        lit_is(r, from_radix(b@.subrange(from as int, b@.len() as int), radix as nat, signed)),
{
    let ghost s = b@.subrange(from as int, b@.len() as int);
    if from == b.len() {
        return IntLit::Not;
    }
    assert(s[0] == b@[from as int]);
    let c = b[from];
    if c == '+' || (signed && c == '-') {
        let neg = c == '-';
        assert(s.drop_first() =~= b@.subrange(from + 1, b@.len() as int));
        if from + 1 == b.len() {
            return IntLit::Not;
        }
        match magnitude(b, from + 1, radix) {
            None => IntLit::Not,
            Some(None) => IntLit::Huge(neg),
            Some(Some(m)) => IntLit::Val(neg, m),
        }
    } else {
        match magnitude(b, from, radix) {
            None => IntLit::Not,
            Some(None) => IntLit::Huge(false),
            Some(Some(m)) => IntLit::Val(false, m),
        }
    }
}

/// A character as a hexadecimal digit?
fn hex(c: char) -> (r: bool)
    ensures
        r == is_hex(c),
{
    ('0' <= c && c <= '9') || ('a' <= c && c <= 'f') || ('A' <= c && c <= 'F')
}

/// Validate and strip `_` separators (each between two hex digits) and
/// a BigInt-style trailing `n`.
pub fn clean_literal(raw: &[char]) -> (r: Option<(Vec<char>, bool)>)
    ensures
        match cleaned(raw@) {
            None => r is None,
            Some((s, big)) => r matches Some((t, b)) && t@ == s && b == big,
        },
{
    let n = raw.len();
    let mut i: usize = 0;
    let mut s: Vec<char> = Vec::new();
    while i < n
        invariant
            n == raw@.len(),
            i <= n,
            forall|k: int|
                0 <= k < i && #[trigger] raw@[k] == '_' ==> 0 < k && k + 1 < raw@.len() && is_hex(
                    raw@[k - 1],
                ) && is_hex(raw@[k + 1]),
            s@ == strip_underscores(raw@.subrange(0, i as int)),
        decreases n - i,
    {
        let c = raw[i];
        if c == '_' {
            let ok = i > 0 && i + 1 < n && hex(raw[i - 1]) && hex(raw[i + 1]);
            if !ok {
                assert(!underscores_ok(raw@));
                return None;
            }
        } else {
            s.push(c);
        }
        proof {
            let p = raw@.subrange(0, i as int);
            let q = raw@.subrange(0, i + 1);
            assert(q.drop_last() =~= p);
        }
        i = i + 1;
    }
    assert(raw@.subrange(0, n as int) =~= raw@);
    assert(underscores_ok(raw@));
    assert(s@ == strip_underscores(raw@));
    let m = s.len();
    let mut ok = true;
    let mut k: usize = 0;
    while m > 0 && k < m - 1
        invariant
            m == s@.len(),
            m > 0 ==> k <= m - 1,
            m == 0 ==> k == 0,
            ok <==> forall|j: int| 0 <= j < k ==> bigint_char(#[trigger] s@[j]),
        decreases m - k,
    {
        let c = s[k];
        if !(hex(c) || c == 'x' || c == 'X' || c == 'o' || c == 'O' || c == '+' || c == '-') {
            ok = false;
        }
        k = k + 1;
    }
    let big = ok && m > 1 && s[m - 1] == 'n';
    assert(big == bigint_shape(s@));
    if big {
        s.pop();
        assert(s@ =~= strip_underscores(raw@).drop_last());
    }
    Some((s, big))
}

/// `[sign]0x`/`0o`/`0b` → (sign and digits, radix).
pub fn split_radix(s: &[char]) -> (r: Option<(Vec<char>, u32)>)
    ensures
        match radix_split(s@) {
            None => r is None,
            Some((d, radix)) => r matches Some((t, x)) && t@ == d && x as nat == radix,
        },
{
    let n = s.len();
    let neg = n > 0 && s[0] == '-';
    let start: usize = if n > 0 && (s[0] == '-' || s[0] == '+') { 1 } else { 0 };
    let ghost body = if s@.len() > 0 && (s@[0] == '-' || s@[0] == '+') {
        s@.drop_first()
    } else {
        s@
    };
    assert(body =~= s@.subrange(start as int, n as int));
    if n >= start + 2 && s[start] == '0' {
        let c = s[start + 1];
        let radix: u32 = if c == 'x' || c == 'X' {
            16
        } else if c == 'b' || c == 'B' {
            2
        } else if c == 'o' || c == 'O' {
            8
        } else {
            0
        };
        if radix == 0 || n == start + 2 {
            return None;
        }
        let mut out: Vec<char> = Vec::new();
        if neg {
            out.push('-');
        }
        let mut i = start + 2;
        while i < n
            invariant
                start + 2 <= i <= n,
                n == s@.len(),
                out@ == (if neg { seq!['-'] } else { Seq::<char>::empty() }) + s@.subrange(
                    start + 2,
                    i as int,
                ),
            decreases n - i,
        {
            out.push(s[i]);
            i = i + 1;
            assert(out@ =~= (if neg { seq!['-'] } else { Seq::<char>::empty() }) + s@.subrange(
                start + 2,
                i as int,
            ));
        }
        assert(body.subrange(2, body.len() as int) =~= s@.subrange(start + 2, n as int));
        Some((out, radix))
    } else {
        None
    }
}

/// The integer a cell literal denotes (radix forms through their radix,
/// everything else decimal); `signed` admits a minus sign.
pub fn int_literal(raw: &[char], signed: bool) -> (r: IntLit)
    ensures
        lit_is(r, int_lit(raw@, signed)),
{
    match clean_literal(raw) {
        None => IntLit::Not,
        Some((s, _)) => match split_radix(s.as_slice()) {
            Some((d, radix)) => {
                let r = parse_radix(d.as_slice(), 0, radix, signed);
                assert(d@.subrange(0, d@.len() as int) =~= d@);
                r
            },
            None => {
                let r = parse_radix(s.as_slice(), 0, 10, signed);
                assert(s@.subrange(0, s@.len() as int) =~= s@);
                r
            },
        },
    }
}

/// The literal as a value within `[lo, hi]` (both within ±`u128::MAX`),
/// if it is one.
pub fn lit_within(r: IntLit, lo_neg: bool, lo: u128, hi: u128) -> (ok: bool)
    ensures
        forall|v: Option<int>| lit_is(r, v) ==> (ok == in_range(
            v,
            if lo_neg { -(lo as int) } else { lo as int },
            hi as int,
        )),
{
    match r {
        IntLit::Not => false,
        IntLit::Huge(_) => false,
        IntLit::Val(neg, m) => {
            if neg && m != 0 {
                lo_neg && m <= lo
            } else {
                (lo_neg || m >= lo) && m <= hi
            }
        },
    }
}

// ---------------------------------------------------------------------
// Relaxed human notation (explicit numeric type ids only)
// ---------------------------------------------------------------------

/// A currency sign that may precede a number: `$`, `€`, `£`, `¥`.
pub open spec fn currency(c: char) -> bool {
    c == '$' || c == '\u{20ac}' || c == '\u{a3}' || c == '\u{a5}'
}

/// A fullwidth digit `０`–`９`.
pub open spec fn fullwidth_digit(c: char) -> bool {
    '\u{ff10}' <= c && c <= '\u{ff19}'
}

/// The characters of a number with thousands separators (`,` and
/// spaces) dropped and fullwidth digits read as ASCII digits.
pub open spec fn relax_chars(s: Seq<char>) -> Seq<char>
    decreases s.len(),
{
    if s.len() == 0 {
        s
    } else {
        let c = s.last();
        relax_chars(s.drop_last()) + if c == ',' || c == ' ' {
            Seq::<char>::empty()
        } else if fullwidth_digit(c) {
            seq![((c as int) - 0xff10 + 0x30) as char]
        } else {
            seq![c]
        }
    }
}

/// A number in human notation reduced to a plain literal: an optional
/// sign, then an optional currency sign (dropped), then the digits with
/// separators dropped and fullwidth digits made ASCII.
pub open spec fn relaxed(raw: Seq<char>) -> Seq<char> {
    let signed = raw.len() > 0 && (raw[0] == '-' || raw[0] == '+');
    let sign = if signed { raw.subrange(0, 1) } else { Seq::<char>::empty() };
    let rest = if signed { raw.drop_first() } else { raw };
    let body = if rest.len() > 0 && currency(rest[0]) { rest.drop_first() } else { rest };
    sign + relax_chars(body)
}

/// The integer an explicit numeric cell denotes: the literal forms
/// first, else the relaxed human notation.
pub open spec fn int_lit_relaxed(raw: Seq<char>, signed: bool) -> Option<int> {
    match int_lit(raw, signed) {
        Some(v) => Some(v),
        None => int_lit(relaxed(raw), signed),
    }
}

/// Reduce human notation to a plain literal.
pub fn relax(raw: &[char]) -> (r: Vec<char>)
    ensures
        r@ == relaxed(raw@),
{
    let n = raw.len();
    let signed = n > 0 && (raw[0] == '-' || raw[0] == '+');
    let mut out: Vec<char> = Vec::new();
    let mut i: usize = 0;
    if signed {
        out.push(raw[0]);
        i = 1;
    }
    let c0 = if i < n { raw[i] } else { ' ' };
    if i < n && (c0 == '$' || c0 == '\u{20ac}' || c0 == '\u{a3}' || c0 == '\u{a5}') {
        i = i + 1;
    }
    let ghost start = i;
    let ghost sign = if signed { raw@.subrange(0, 1) } else { Seq::<char>::empty() };
    let ghost rest = if signed { raw@.drop_first() } else { raw@ };
    let ghost body = if rest.len() > 0 && currency(rest[0]) { rest.drop_first() } else { rest };
    assert(body =~= raw@.subrange(start as int, n as int)) by {
        if signed {
            assert(rest =~= raw@.subrange(1, n as int));
        }
    }
    assert(out@ =~= sign + relax_chars(raw@.subrange(start as int, start as int)));
    while i < n
        invariant
            start <= i <= n == raw@.len(),
            out@ == sign + relax_chars(raw@.subrange(start as int, i as int)),
        decreases n - i,
    {
        let c = raw[i];
        let ghost before = raw@.subrange(start as int, i as int);
        let ghost after = raw@.subrange(start as int, i + 1);
        assert(after.drop_last() =~= before);
        assert(after.last() == c);
        if c == ',' || c == ' ' {
            assert(out@ =~= sign + relax_chars(after));
        } else if '\u{ff10}' <= c && c <= '\u{ff19}' {
            let d = ((c as u32) - 0xff10 + 0x30) as u8 as char;
            assert(d == ((c as int) - 0xff10 + 0x30) as char);
            out.push(d);
            assert(out@ =~= sign + relax_chars(after));
        } else {
            out.push(c);
            assert(out@ =~= sign + relax_chars(after));
        }
        i = i + 1;
    }
    out
}

/// The integer an explicit numeric cell denotes (literal forms first,
/// then human notation).
pub fn int_literal_relaxed(raw: &[char], signed: bool) -> (r: IntLit)
    ensures
        lit_is(r, int_lit_relaxed(raw@, signed)),
{
    let l = int_literal(raw, signed);
    match l {
        IntLit::Not => {
            let t = relax(raw);
            int_literal(t.as_slice(), signed)
        },
        _ => l,
    }
}

} // verus!
