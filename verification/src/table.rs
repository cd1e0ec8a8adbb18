//! The table stage: turns a plain row grid into a config value under a
//! layout — `kv` (`key,value[,format]` rows, one entry each) or `db` (a
//! keys row, a type row, then one record per row) — converting each
//! cell by its type id.
//!
//! Floating-point text is read outside this crate and reached through a
//! hook: a function from a kind id (`f64`, `f32`) and a text to the
//! value that parser makes of it, or `None` when the text is not one.
//! `json` and `jsonc` cells are whole documents (see `docs`).

use vstd::prelude::*;

use crate::docs::{document_spec, parse_document};
use crate::error::Error;
use crate::formats::{csv_records, read_csv};
use crate::keys::{insert_key, insert_key_spec, split_chars, split_on, char_seqs};
use crate::literal::{IntLit, currency, int_lit, relax_chars, digits_val, bigint_shape, clean_literal, cleaned, strip_underscores, underscores_ok, from_radix, in_range, int_lit_relaxed, int_literal_relaxed, lit_is, lit_within, parse_radix, radix_split, relax, relaxed, split_radix};
use crate::net::{Ip, dot_octet_at, groups_from, hex_end, ip_spec, ipv4_at, ipv6_prefix, octet_at, parse_ip, sep_hex_at, sep_v4_at};
use crate::options::{Format, TableLayout};
use crate::text::{all_digits, ascii_lower, chars_of, decimal, eq_ignore_case, is_digit, is_hex, push_decimal, push_str, spells, spells_ignore_case, string_of, trim, trimmed, push_char};
use crate::valid::{group_lengths, decimal_value, lemma_decimal_text, lemma_mac_groups, cidr_spec, date_spec, datetime_spec, digits_end, find_char, first_slash, lemma_find_char, mac_scan, inet_spec, macaddr8_pairs_spec, macaddr8_spec, macaddr_pairs_spec, macaddr_spec, time_spec, uuid_hyphenated_spec, uuid_spec, find};
use crate::value::{TextKind, Val, Value, wf, lemma_items_wf, view_items, lemma_view_items};

verus! {

// ---------------------------------------------------------------------
// The outside-parser hook
// ---------------------------------------------------------------------

/// The model of an optional value.
pub open spec fn opt_view(r: Option<Value>) -> Option<Val> {
    match r {
        Some(v) => Some(v@),
        None => None,
    }
}

/// A usable hook: callable on every input, answering by the texts alone
/// (equal texts, equal answers), and answering with well-formed values.
pub open spec fn hook_ok<X: Fn(&str, &str) -> Option<Value>>(x: X) -> bool {
    &&& forall|k: &str, t: &str| #[trigger] x.requires((k, t))
    &&& forall|k1: &str, t1: &str, k2: &str, t2: &str, r1: Option<Value>, r2: Option<Value>|
        #[trigger] x.ensures((k1, t1), r1) && #[trigger] x.ensures((k2, t2), r2) && k1@ == k2@
            && t1@ == t2@ ==> opt_view(r1) == opt_view(r2)
    &&& forall|k: &str, t: &str, v: Value| #[trigger] x.ensures((k, t), Some(v)) ==> wf(v@)
}

/// `r` is an answer the hook gives for some texts spelling `k` and `t`.
pub open spec fn answers<X: Fn(&str, &str) -> Option<Value>>(x: X, k: Seq<char>, t: Seq<char>, r: Option<Value>) -> bool {
    exists|k1: &str, t1: &str| k1@ == k && t1@ == t && #[trigger] x.ensures((k1, t1), r)
}

/// What a hook answers for a kind and a text.
pub open spec fn hook_of<X: Fn(&str, &str) -> Option<Value>>(x: X) -> spec_fn(
    Seq<char>,
    Seq<char>,
) -> Option<Val> {
    |k: Seq<char>, t: Seq<char>|
        opt_view(choose|r: Option<Value>| #[trigger] answers(x, k, t, r))
}

/// Each answer of a usable hook is the one `hook_of` names.
proof fn lemma_hook<X: Fn(&str, &str) -> Option<Value>>(x: X, k: &str, t: &str, r: Option<Value>)
    requires
        hook_ok(x),
        x.ensures((k, t), r),
    ensures
        opt_view(r) == (hook_of(x))(k@, t@),
        r matches Some(v) ==> wf(v@),
{
    assert(answers(x, k@, t@, r));
    let c = choose|r2: Option<Value>| #[trigger] answers(x, k@, t@, r2);
    let (k1, t1) = choose|k1: &str, t1: &str| k1@ == k@ && t1@ == t@ && #[trigger] x.ensures((k1, t1), c);
    assert(x.ensures((k1, t1), c));
}

/// Ask the hook.
pub(crate) fn ask<X: Fn(&str, &str) -> Option<Value>>(x: &X, kind: &str, text: &str) -> (r: Option<Value>)
    requires
        hook_ok(*x),
    ensures
        opt_view(r) == (hook_of(*x))(kind@, text@),
        r matches Some(v) ==> wf(v@),
{
    let r = x(kind, text);
    proof {
        lemma_hook(*x, kind, text, r);
    }
    r
}

// ---------------------------------------------------------------------
// Type ids
// ---------------------------------------------------------------------

/// A type id with its aliases resolved.
pub open spec fn canonical(ty: Seq<char>) -> Seq<char> {
    if ty == "int"@ || ty == "integer"@ {
        "i64"@
    } else if ty == "uint"@ {
        "u64"@
    } else if ty == "float"@ || ty == "double"@ || ty == "number"@ {
        "f64"@
    } else if ty == "string"@ || ty == "text"@ {
        "str"@
    } else if ty == "boolean"@ {
        "bool"@
    } else if ty == "datetime"@ {
        "dt"@
    } else {
        ty
    }
}

/// The single-value type ids.
pub open spec fn scalar_id(t: Seq<char>) -> bool {
    t == "i8"@ || t == "i16"@ || t == "i32"@ || t == "i64"@ || t == "i128"@ || t == "u8"@ || t
        == "u16"@ || t == "u32"@ || t == "u64"@ || t == "u128"@ || t == "f32"@ || t == "f64"@ || t
        == "bool"@ || t == "str"@ || t == "dt"@ || t == "date"@ || t == "time"@ || t == "ipv4"@
        || t == "ipv6"@ || t == "inet"@ || t == "cidr"@ || t == "macaddr"@ || t == "macaddr8"@
        || t == "uuid"@ || t == "null"@ || t == "json"@ || t == "jsonc"@
}

/// An `array<sep><format>` id.
pub open spec fn is_array_id(t: Seq<char>) -> bool {
    t.len() >= 5 && t.subrange(0, 5) == "array"@
}

/// The separator of an `array` id (default `,`).
pub open spec fn array_sep(t: Seq<char>) -> char {
    if t.len() > 5 {
        t[5]
    } else {
        ','
    }
}

/// The element format of an `array` id (empty = `auto`).
pub open spec fn array_elem(t: Seq<char>) -> Seq<char> {
    if t.len() > 6 {
        t.subrange(6, t.len() as int)
    } else {
        Seq::empty()
    }
}

/// An element format an array may name: `auto`, or a single-value id
/// other than a whole document.
pub open spec fn elem_ok(e: Seq<char>) -> bool {
    e.len() == 0 || e == "auto"@ || (scalar_id(canonical(e)) && canonical(e) != "json"@
        && canonical(e) != "jsonc"@)
}

/// A `csv<sep><layout>` id.
pub open spec fn is_csv_id(t: Seq<char>) -> bool {
    t.len() >= 3 && t.subrange(0, 3) == "csv"@
}

/// The delimiter of a `csv` id (default `,`).
pub open spec fn csv_sep(t: Seq<char>) -> char {
    if t.len() > 3 {
        t[3]
    } else {
        ','
    }
}

/// The layout id of a `csv` id (default `kv`).
pub open spec fn csv_layout_id(t: Seq<char>) -> Seq<char> {
    if t.len() > 4 {
        t.subrange(4, t.len() as int)
    } else {
        "kv"@
    }
}

/// A `csv` id names an ASCII delimiter and a built-in layout.
pub open spec fn csv_id_ok(t: Seq<char>) -> bool {
    (csv_sep(t) as u32) < 128 && (csv_layout_id(t) == "kv"@ || csv_layout_id(t) == "db"@)
}

/// The layout a `csv` id names.
pub open spec fn csv_layout(t: Seq<char>) -> TableLayout {
    if csv_layout_id(t) == "db"@ {
        TableLayout::Db
    } else {
        TableLayout::Kv
    }
}

/// How deeply `csv` cells may nest inside one another.
pub const CSV_NESTING: usize = 64;

/// Whether a cell may declare this type id.
pub open spec fn known_type(declared: Seq<char>) -> bool {
    declared.len() == 0 || declared == "auto"@ || scalar_id(canonical(declared)) || (is_array_id(
        canonical(declared),
    ) && elem_ok(array_elem(canonical(declared)))) || (is_csv_id(canonical(declared))
        && csv_id_ok(canonical(declared)))
}

// ---------------------------------------------------------------------
// Cell values (specification)
// ---------------------------------------------------------------------

/// The decimal text of an integer.
pub open spec fn int_text(v: int) -> Seq<char> {
    if v < 0 {
        seq!['-'] + decimal((-v) as nat)
    } else {
        decimal(v as nat)
    }
}

/// The float the hook reads from `s` (`f32` rounds through single
/// precision), by its bit pattern.
pub open spec fn float_text(o: spec_fn(Seq<char>, Seq<char>) -> Option<Val>, s: Seq<char>, single: bool) -> Option<u64> {
    match o(if single { "f32"@ } else { "f64"@ }, s) {
        Some(Val::Float(b)) => Some(b),
        _ => None,
    }
}

/// The float an integer literal denotes, through `i64`, else `u64`.
pub open spec fn int_as_float(o: spec_fn(Seq<char>, Seq<char>) -> Option<Val>, d: Seq<char>, radix: nat, single: bool) -> Option<u64> {
    if in_range(from_radix(d, radix, true), i64::MIN as int, i64::MAX as int) {
        float_text(o, int_text(from_radix(d, radix, true).unwrap()), single)
    } else if in_range(from_radix(d, radix, false), 0, u64::MAX as int) {
        float_text(o, int_text(from_radix(d, radix, false).unwrap()), single)
    } else {
        None
    }
}

/// The float a cell literal denotes: radix and BigInt forms through
/// integers, everything else through the hook.
pub open spec fn float_lit(raw: Seq<char>, o: spec_fn(Seq<char>, Seq<char>) -> Option<Val>, single: bool) -> Option<u64> {
    match cleaned(raw) {
        None => None,
        Some((s, big)) => match radix_split(s) {
            Some((d, r)) => int_as_float(o, d, r, single),
            None => if big {
                int_as_float(o, s, 10, single)
            } else {
                float_text(o, s, single)
            },
        },
    }
}

/// The float an explicit float cell denotes: the literal forms first,
/// else the relaxed human notation.
pub open spec fn float_lit_relaxed(raw: Seq<char>, o: spec_fn(Seq<char>, Seq<char>) -> Option<Val>, single: bool) -> Option<u64> {
    match float_lit(raw, o, single) {
        Some(b) => Some(b),
        None => float_lit(relaxed(raw), o, single),
    }
}

/// The number `auto` makes of a literal: radix forms as integers;
/// otherwise decimals without a leading zero, as `i64`, else `u64`,
/// else (unless a BigInt) a float.
pub open spec fn auto_number(raw: Seq<char>, o: spec_fn(Seq<char>, Seq<char>) -> Option<Val>) -> Option<Val> {
    match cleaned(raw) {
        None => None,
        Some((c, big)) => match radix_split(c) {
            Some((d, r)) => if in_range(from_radix(d, r, true), i64::MIN as int, i64::MAX as int) {
                Some(Val::Int(from_radix(d, r, true).unwrap() as i64))
            } else if in_range(from_radix(d, r, false), 0, u64::MAX as int) {
                Some(Val::Uint(from_radix(d, r, false).unwrap() as u64))
            } else {
                None
            },
            None => {
                if leading_zero(unsigned_part(c)) || !number_shape(unsigned_part(c)) {
                    None
                } else if in_range(from_radix(c, 10, true), i64::MIN as int, i64::MAX as int) {
                    Some(Val::Int(from_radix(c, 10, true).unwrap() as i64))
                } else if in_range(from_radix(c, 10, false), 0, u64::MAX as int) {
                    Some(Val::Uint(from_radix(c, 10, false).unwrap() as u64))
                } else if big {
                    None
                } else {
                    match float_text(o, c, false) {
                        Some(b) => Some(Val::Float(b)),
                        None => None,
                    }
                }
            },
        },
    }
}

/// A literal without its leading minus sign.
pub open spec fn unsigned_part(c: Seq<char>) -> Seq<char> {
    if c.len() > 0 && c[0] == '-' {
        c.drop_first()
    } else {
        c
    }
}

/// Starts with a zero followed by another digit (`007`).
pub open spec fn leading_zero(body: Seq<char>) -> bool {
    body.len() > 1 && body[0] == '0' && is_digit(body[1])
}

/// Looks like a plain number: some digit, and only number characters.
pub open spec fn number_shape(body: Seq<char>) -> bool {
    body.len() > 0 && (exists|i: int| 0 <= i < body.len() && is_digit(#[trigger] body[i]))
        && forall|i: int| 0 <= i < body.len() ==> number_char(#[trigger] body[i])
}

/// A character of a plain number: a digit, `.`, `e`, `E`, `+` or `-`.
pub open spec fn number_char(c: char) -> bool {
    is_digit(c) || c == '.' || c == 'e' || c == 'E' || c == '+' || c == '-'
}

/// What `auto` makes of a cell: `true`/`false` in any case, then date,
/// time, datetime, hyphenated uuid, pair-spelled MACs, IP addresses,
/// masked networks and addresses, numbers, and otherwise the text.
pub open spec fn auto_val(raw: Seq<char>, o: spec_fn(Seq<char>, Seq<char>) -> Option<Val>) -> Val {
    if eq_ignore_case(raw, "true"@) {
        Val::Bool(true)
    } else if eq_ignore_case(raw, "false"@) {
        Val::Bool(false)
    } else if date_spec(raw) {
        Val::Text(TextKind::Date, raw)
    } else if time_spec(raw) {
        Val::Text(TextKind::Time, raw)
    } else if datetime_spec(raw) {
        Val::Text(TextKind::DateTime, raw)
    } else if uuid_hyphenated_spec(raw) {
        Val::Text(TextKind::Uuid, raw)
    } else if macaddr_pairs_spec(raw) {
        Val::Text(TextKind::MacAddr, raw)
    } else if macaddr8_pairs_spec(raw) {
        Val::Text(TextKind::MacAddr8, raw)
    } else {
        match ip_spec(raw) {
            Some(Ip::V4(a)) => Val::Ipv4(a),
            Some(Ip::V6(a)) => Val::Ipv6(a),
            None => if first_slash(raw) is Some && cidr_spec(raw) {
                Val::Text(TextKind::Cidr, raw)
            } else if first_slash(raw) is Some && inet_spec(raw) {
                Val::Text(TextKind::Inet, raw)
            } else {
                match auto_number(raw, o) {
                    Some(v) => v,
                    None => Val::Text(TextKind::Str, raw),
                }
            },
        }
    }
}

/// The explicit `bool` tokens, in any ASCII case.
pub open spec fn bool_token(raw: Seq<char>) -> Option<bool> {
    if eq_ignore_case(raw, "true"@) || eq_ignore_case(raw, "t"@) || eq_ignore_case(raw, "yes"@)
        || eq_ignore_case(raw, "y"@) || eq_ignore_case(raw, "on"@) || raw == "1"@ {
        Some(true)
    } else if eq_ignore_case(raw, "false"@) || eq_ignore_case(raw, "f"@) || eq_ignore_case(
        raw,
        "no"@,
    ) || eq_ignore_case(raw, "n"@) || eq_ignore_case(raw, "off"@) || raw == "0"@ {
        Some(false)
    } else {
        None
    }
}

/// A signed integer cell within `[lo, hi]`.
pub open spec fn int_cell(raw: Seq<char>, lo: int, hi: int) -> Option<Val> {
    if in_range(int_lit_relaxed(raw, true), lo, hi) {
        Some(Val::Int(int_lit_relaxed(raw, true).unwrap() as i64))
    } else {
        None
    }
}

/// An unsigned integer cell up to `hi`.
pub open spec fn uint_cell(raw: Seq<char>, hi: int) -> Option<Val> {
    if in_range(int_lit_relaxed(raw, false), 0, hi) {
        Some(Val::Uint(int_lit_relaxed(raw, false).unwrap() as u64))
    } else {
        None
    }
}

/// A cell under a single-value type id `t`: `None` when `t` is no such
/// id, `Some(None)` when the text is not a valid value of it.
pub open spec fn scalar_val(raw: Seq<char>, t: Seq<char>, o: spec_fn(Seq<char>, Seq<char>) -> Option<Val>) -> Option<Option<Val>> {
    if t == "i8"@ {
        Some(int_cell(raw, -128, 127))
    } else if t == "i16"@ {
        Some(int_cell(raw, -32768, 32767))
    } else if t == "i32"@ {
        Some(int_cell(raw, i32::MIN as int, i32::MAX as int))
    } else if t == "i64"@ {
        Some(int_cell(raw, i64::MIN as int, i64::MAX as int))
    } else if t == "i128"@ {
        Some(
            if in_range(int_lit_relaxed(raw, true), i128::MIN as int, i128::MAX as int) {
                Some(Val::Int128(int_lit_relaxed(raw, true).unwrap() as i128))
            } else {
                None
            },
        )
    } else if t == "u8"@ {
        Some(uint_cell(raw, 255))
    } else if t == "u16"@ {
        Some(uint_cell(raw, 65535))
    } else if t == "u32"@ {
        Some(uint_cell(raw, u32::MAX as int))
    } else if t == "u64"@ {
        Some(uint_cell(raw, u64::MAX as int))
    } else if t == "u128"@ {
        Some(
            if in_range(int_lit_relaxed(raw, false), 0, u128::MAX as int) {
                Some(Val::Uint128(int_lit_relaxed(raw, false).unwrap() as u128))
            } else {
                None
            },
        )
    } else if t == "f32"@ || t == "f64"@ {
        Some(
            match float_lit_relaxed(raw, o, t == "f32"@) {
                Some(b) => Some(Val::Float(b)),
                None => None,
            },
        )
    } else if t == "bool"@ {
        Some(
            match bool_token(raw) {
                Some(b) => Some(Val::Bool(b)),
                None => None,
            },
        )
    } else if t == "str"@ {
        Some(Some(Val::Text(TextKind::Str, raw)))
    } else if t == "dt"@ {
        Some(if datetime_spec(raw) { Some(Val::Text(TextKind::DateTime, raw)) } else { None })
    } else if t == "date"@ {
        Some(if date_spec(raw) { Some(Val::Text(TextKind::Date, raw)) } else { None })
    } else if t == "time"@ {
        Some(if time_spec(raw) { Some(Val::Text(TextKind::Time, raw)) } else { None })
    } else if t == "ipv4"@ {
        Some(
            match ip_spec(raw) {
                Some(Ip::V4(a)) => Some(Val::Ipv4(a)),
                _ => None,
            },
        )
    } else if t == "ipv6"@ {
        Some(
            match ip_spec(raw) {
                Some(Ip::V6(a)) => Some(Val::Ipv6(a)),
                _ => None,
            },
        )
    } else if t == "inet"@ {
        Some(
            match ip_spec(raw) {
                Some(Ip::V4(a)) => Some(Val::Ipv4(a)),
                Some(Ip::V6(a)) => Some(Val::Ipv6(a)),
                None => if inet_spec(raw) {
                    Some(Val::Text(TextKind::Inet, raw))
                } else {
                    None
                },
            },
        )
    } else if t == "cidr"@ {
        Some(if cidr_spec(raw) { Some(Val::Text(TextKind::Cidr, raw)) } else { None })
    } else if t == "macaddr"@ {
        Some(if macaddr_spec(raw) { Some(Val::Text(TextKind::MacAddr, raw)) } else { None })
    } else if t == "macaddr8"@ {
        Some(if macaddr8_spec(raw) { Some(Val::Text(TextKind::MacAddr8, raw)) } else { None })
    } else if t == "uuid"@ {
        Some(if uuid_spec(raw) { Some(Val::Text(TextKind::Uuid, raw)) } else { None })
    } else if t == "null"@ {
        Some(Some(Val::Null))
    } else if t == "json"@ {
        Some(doc_cell(document_spec(Format::Json, raw, o)))
    } else if t == "jsonc"@ {
        Some(doc_cell(document_spec(Format::Jsonc, raw, o)))
    } else {
        None
    }
}

/// A whole-document cell: the document's value, or nothing when it does
/// not parse.
pub open spec fn doc_cell(r: Result<Val, Seq<char>>) -> Option<Val> {
    match r {
        Ok(v) => Some(v),
        Err(_) => None,
    }
}

/// "unknown or disabled type '<declared>'"
pub open spec fn unknown_msg(declared: Seq<char>) -> Seq<char> {
    "unknown or disabled type '"@ + declared + "'"@
}

/// "'<raw>' is not a valid <t>"
pub open spec fn bad_msg(raw: Seq<char>, t: Seq<char>) -> Seq<char> {
    "'"@ + raw + "' is not a valid "@ + t
}

/// A cell under a type id that is `auto` or names a single value.
pub open spec fn plain_cell(raw: Seq<char>, declared: Seq<char>, o: spec_fn(Seq<char>, Seq<char>) -> Option<Val>) -> Result<Val, Seq<char>> {
    if declared.len() == 0 || declared == "auto"@ {
        Ok(auto_val(raw, o))
    } else {
        match scalar_val(raw, canonical(declared), o) {
            None => Err(unknown_msg(declared)),
            Some(None) => Err(bad_msg(raw, canonical(declared))),
            Some(Some(v)) => Ok(v),
        }
    }
}

/// The elements of an array cell from piece `k` on.
pub open spec fn elems(pieces: Seq<Seq<char>>, k: int, elem: Seq<char>, o: spec_fn(Seq<char>, Seq<char>) -> Option<Val>) -> Result<Seq<Val>, Seq<char>>
    decreases pieces.len() - k,
{
    if k < 0 || k >= pieces.len() {
        Ok(Seq::empty())
    } else {
        match plain_cell(pieces[k], elem, o) {
            Err(m) => Err(m),
            Ok(v) => match elems(pieces, k + 1, elem, o) {
                Err(m) => Err(m),
                Ok(rest) => Ok(seq![v] + rest),
            },
        }
    }
}

/// "csv cell row <row>: <m>"
pub open spec fn csv_row_msg(row: int, m: Seq<char>) -> Seq<char> {
    "csv cell row "@ + decimal(row as nat) + ": "@ + m
}

/// A cell under a type id other than a `csv` one: `auto` guesses, an
/// `array` id splits the text and converts each piece, a single-value
/// id converts the text; an unknown id or an invalid value is an error
/// message.
#[verifier::opaque]
pub open spec fn simple_cell(raw: Seq<char>, declared: Seq<char>, o: spec_fn(Seq<char>, Seq<char>) -> Option<Val>) -> Result<Val, Seq<char>> {
    let t = canonical(declared);
    if declared.len() != 0 && declared != "auto"@ && is_array_id(t) {
        if !elem_ok(array_elem(t)) {
            Err(unknown_msg(declared))
        } else if raw.len() == 0 {
            Ok(Val::Arr(Seq::empty()))
        } else {
            match elems(split_on(raw, array_sep(t)), 0, array_elem(t), o) {
                Err(m) => Err(m),
                Ok(items) => Ok(Val::Arr(items)),
            }
        }
    } else {
        plain_cell(raw, declared, o)
    }
}

/// A cell under its declared type id: a `csv` id reads the text as a CSV
/// document under its layout (at most `depth` more levels deep); any
/// other id is a simple cell.
pub open spec fn cell(
    raw: Seq<char>,
    declared: Seq<char>,
    dot_key: bool,
    o: spec_fn(Seq<char>, Seq<char>) -> Option<Val>,
    depth: nat,
) -> Result<Val, Seq<char>>
    decreases depth, 0int, 0int,
{
    let t = canonical(declared);
    if declared.len() != 0 && is_csv_id(t) {
        if !csv_id_ok(t) {
            Err(unknown_msg(declared))
        } else if depth == 0 {
            Err("csv cells nest too deeply"@)
        } else {
            match csv_records(raw, (csv_sep(t) as u32) as u8) {
                Err(m) => Err("csv cell: "@ + m),
                Ok(rows) => match table_in(rows, csv_layout(t), dot_key, o, (depth - 1) as nat) {
                    Ok(v) => Ok(v),
                    Err((row, m)) => Err(csv_row_msg(row, m)),
                },
            }
        }
    } else {
        simple_cell(raw, declared, o)
    }
}


// ---------------------------------------------------------------------
// Laws of the table stage
// ---------------------------------------------------------------------

/// `auto` only guesses single values: never an array or an object, and
/// never an integer wider than 64 bits.
pub proof fn lemma_auto_is_single(raw: Seq<char>, o: spec_fn(Seq<char>, Seq<char>) -> Option<Val>)
    ensures
        !(auto_val(raw, o) is Arr),
        !(auto_val(raw, o) is Obj),
        !(auto_val(raw, o) is Int128),
        !(auto_val(raw, o) is Uint128),
{
}

/// What `auto` gives by the class of its input: never null; every text
/// kind (date, time, datetime, uuid, MACs, networks, plain strings)
/// carries the cell text unchanged; a boolean only for `true`/`false`
/// in any case; an IP address only where the address parser reads one.
pub proof fn lemma_auto_classes(raw: Seq<char>, o: spec_fn(Seq<char>, Seq<char>) -> Option<Val>)
    ensures
        !(auto_val(raw, o) is Null),
        auto_val(raw, o) matches Val::Text(_, t) ==> t == raw,
        auto_val(raw, o) matches Val::Bool(b) ==> eq_ignore_case(raw, if b { "true"@ } else { "false"@ }),
        auto_val(raw, o) matches Val::Ipv4(a) ==> ip_spec(raw) == Some(Ip::V4(a)),
        auto_val(raw, o) matches Val::Ipv6(a) ==> ip_spec(raw) == Some(Ip::V6(a)),
{
}

/// A string of decimal digits reads as its decimal value.
proof fn lemma_digits_val_decimal(s: Seq<char>)
    requires
        all_digits(s),
    ensures
        digits_val(s, 10) == Some(decimal_value(s)),
    decreases s.len(),
{
    if s.len() > 0 {
        let p = s.drop_last();
        assert forall|i: int| 0 <= i < p.len() implies is_digit(#[trigger] p[i]) by {
            assert(p[i] == s[i]);
        }
        lemma_digits_val_decimal(p);
        assert(is_digit(s.last()));
    }
}

/// A string without `_` is its own underscore-free form.
proof fn lemma_strip_none(s: Seq<char>)
    requires
        forall|i: int| 0 <= i < s.len() ==> #[trigger] s[i] != '_',
    ensures
        strip_underscores(s) == s,
    decreases s.len(),
{
    if s.len() > 0 {
        let p = s.drop_last();
        assert forall|i: int| 0 <= i < p.len() implies #[trigger] p[i] != '_' by {
            assert(p[i] == s[i]);
        }
        lemma_strip_none(p);
        assert(p.push(s.last()) =~= s);
    }
}

/// The decimal text of an integer, as Rust prints it: a `-` for a
/// negative one, then the digits without a leading zero.
#[verifier::spinoff_prover]
proof fn lemma_int_text(n: int)
    ensures
        int_text(n).len() >= 1,
        forall|i: int| 1 <= i < int_text(n).len() ==> is_digit(#[trigger] int_text(n)[i]),
        (int_text(n)[0] == '-') == (n < 0),
        n >= 0 ==> is_digit(int_text(n)[0]),
        n < 0 ==> int_text(n).len() >= 2,
        cleaned(int_text(n)) == Some((int_text(n), false)),
        radix_split(int_text(n)) is None,
        from_radix(int_text(n), 10, true) == Some(n),
        n >= 0 ==> from_radix(int_text(n), 10, false) == Some(n),
        unsigned_part(int_text(n)) == decimal((if n < 0 { -n } else { n }) as nat),
        !leading_zero(unsigned_part(int_text(n))),
        number_shape(unsigned_part(int_text(n))),
{
    let m: nat = (if n < 0 { -n } else { n }) as nat;
    let d = decimal(m);
    let s = int_text(n);
    lemma_decimal_text(m);
    lemma_digits_val_decimal(d);
    if n < 0 {
        assert(s == seq!['-'] + d);
        assert(s.drop_first() =~= d);
        assert forall|i: int| 1 <= i < s.len() implies is_digit(#[trigger] s[i]) by {
            assert(s[i] == d[i - 1]);
        }
    } else {
        assert(s == d);
    }
    assert forall|i: int| 0 <= i < s.len() implies #[trigger] s[i] != '_' by {
        if i > 0 {
            assert(is_digit(s[i]));
        }
    }
    assert(underscores_ok(s));
    lemma_strip_none(s);
    assert(is_digit(s[s.len() - 1]));
    assert(!bigint_shape(s));
    assert(unsigned_part(s) =~= d);
    assert(is_digit(d[0]));
    assert(number_shape(d));
}

/// A string of decimal digits keeps its form under the relaxed reading.
proof fn lemma_relax_digits(d: Seq<char>)
    requires
        all_digits(d),
    ensures
        relax_chars(d) == d,
    decreases d.len(),
{
    if d.len() > 0 {
        let p = d.drop_last();
        assert forall|i: int| 0 <= i < p.len() implies is_digit(#[trigger] p[i]) by {
            assert(p[i] == d[i]);
        }
        lemma_relax_digits(p);
        assert(is_digit(d.last()));
        assert(p + seq![d.last()] =~= d);
    }
}

/// A string read as digits holds digits only.
proof fn lemma_digits_val_digits(s: Seq<char>)
    requires
        digits_val(s, 10) is Some,
    ensures
        all_digits(s),
    decreases s.len(),
{
    if s.len() > 0 {
        let p = s.drop_last();
        lemma_digits_val_digits(p);
        assert forall|i: int| 0 <= i < s.len() implies is_digit(#[trigger] s[i]) by {
            if i < p.len() {
                assert(s[i] == p[i]);
            }
        }
    }
}

/// The integer an explicit integer cell reads from the decimal text of
/// `n`: `n` itself when signed; when unsigned, `n` if it is not negative
/// and nothing otherwise.
proof fn lemma_int_text_relaxed(n: int)
    ensures
        int_lit_relaxed(int_text(n), true) == Some(n),
        int_lit_relaxed(int_text(n), false) == (if n >= 0 { Some(n) } else { None::<int> }),
{
    lemma_int_text(n);
    let s = int_text(n);
    let m: nat = (if n < 0 { -n } else { n }) as nat;
    let d = decimal(m);
    lemma_decimal_text(m);
    if n < 0 {
        assert(s == seq!['-'] + d);
        if digits_val(s, 10) is Some {
            lemma_digits_val_digits(s);
            assert(is_digit(s[0]));
        }
        assert(int_lit(s, false) is None);
        lemma_relax_digits(d);
        assert(s.drop_first() =~= d);
        assert(s.subrange(0, 1) =~= seq!['-']);
        assert(!currency(d[0]));
        assert(relaxed(s) =~= s);
    }
}

/// Integer cells by type: every value of an integer type is read, as that
/// type's value, from its decimal text, and the integers just outside the
/// type are refused.
#[verifier::spinoff_prover]
pub proof fn lemma_integer_cells(n: int, o: spec_fn(Seq<char>, Seq<char>) -> Option<Val>)
    ensures
        -128 <= n <= 127 ==> scalar_val(int_text(n), "i8"@, o) == Some(Some(Val::Int(n as i64))),
        (n == -128 - 1 || n == 127 + 1) ==> scalar_val(int_text(n), "i8"@, o) == Some(None::<Val>),
        -32768 <= n <= 32767 ==> scalar_val(int_text(n), "i16"@, o) == Some(Some(Val::Int(n as i64))),
        (n == -32768 - 1 || n == 32767 + 1) ==> scalar_val(int_text(n), "i16"@, o) == Some(None::<Val>),
        i32::MIN as int <= n <= i32::MAX as int ==> scalar_val(int_text(n), "i32"@, o) == Some(Some(Val::Int(n as i64))),
        (n == i32::MIN as int - 1 || n == i32::MAX as int + 1) ==> scalar_val(int_text(n), "i32"@, o) == Some(None::<Val>),
        i64::MIN as int <= n <= i64::MAX as int ==> scalar_val(int_text(n), "i64"@, o) == Some(Some(Val::Int(n as i64))),
        (n == i64::MIN as int - 1 || n == i64::MAX as int + 1) ==> scalar_val(int_text(n), "i64"@, o) == Some(None::<Val>),
        i128::MIN as int <= n <= i128::MAX as int ==> scalar_val(int_text(n), "i128"@, o) == Some(Some(Val::Int128(n as i128))),
        (n == i128::MIN as int - 1 || n == i128::MAX as int + 1) ==> scalar_val(int_text(n), "i128"@, o) == Some(None::<Val>),
        0 <= n <= 255 ==> scalar_val(int_text(n), "u8"@, o) == Some(Some(Val::Uint(n as u64))),
        (n == 0 - 1 || n == 255 + 1) ==> scalar_val(int_text(n), "u8"@, o) == Some(None::<Val>),
        0 <= n <= 65535 ==> scalar_val(int_text(n), "u16"@, o) == Some(Some(Val::Uint(n as u64))),
        (n == 0 - 1 || n == 65535 + 1) ==> scalar_val(int_text(n), "u16"@, o) == Some(None::<Val>),
        0 <= n <= u32::MAX as int ==> scalar_val(int_text(n), "u32"@, o) == Some(Some(Val::Uint(n as u64))),
        (n == 0 - 1 || n == u32::MAX as int + 1) ==> scalar_val(int_text(n), "u32"@, o) == Some(None::<Val>),
        0 <= n <= u64::MAX as int ==> scalar_val(int_text(n), "u64"@, o) == Some(Some(Val::Uint(n as u64))),
        (n == 0 - 1 || n == u64::MAX as int + 1) ==> scalar_val(int_text(n), "u64"@, o) == Some(None::<Val>),
        0 <= n <= u128::MAX as int ==> scalar_val(int_text(n), "u128"@, o) == Some(Some(Val::Uint128(n as u128))),
        (n == 0 - 1 || n == u128::MAX as int + 1) ==> scalar_val(int_text(n), "u128"@, o) == Some(None::<Val>),
{
    reveal_strlit("i8");
    reveal_strlit("i16");
    reveal_strlit("i32");
    reveal_strlit("i64");
    reveal_strlit("i128");
    reveal_strlit("u8");
    reveal_strlit("u16");
    reveal_strlit("u32");
    reveal_strlit("u64");
    reveal_strlit("u128");
    assert("i16"@.len() != "i8"@.len());
    assert("i32"@.len() != "i8"@.len());
    assert("i32"@[1] != "i16"@[1]);
    assert("i64"@.len() != "i8"@.len());
    assert("i64"@[1] != "i16"@[1]);
    assert("i64"@[1] != "i32"@[1]);
    assert("i128"@.len() != "i8"@.len());
    assert("i128"@.len() != "i16"@.len());
    assert("i128"@.len() != "i32"@.len());
    assert("i128"@.len() != "i64"@.len());
    assert("u8"@[0] != "i8"@[0]);
    assert("u8"@.len() != "i16"@.len());
    assert("u8"@.len() != "i32"@.len());
    assert("u8"@.len() != "i64"@.len());
    assert("u8"@.len() != "i128"@.len());
    assert("u16"@.len() != "i8"@.len());
    assert("u16"@[0] != "i16"@[0]);
    assert("u16"@[0] != "i32"@[0]);
    assert("u16"@[0] != "i64"@[0]);
    assert("u16"@.len() != "i128"@.len());
    assert("u16"@.len() != "u8"@.len());
    assert("u32"@.len() != "i8"@.len());
    assert("u32"@[0] != "i16"@[0]);
    assert("u32"@[0] != "i32"@[0]);
    assert("u32"@[0] != "i64"@[0]);
    assert("u32"@.len() != "i128"@.len());
    assert("u32"@.len() != "u8"@.len());
    assert("u32"@[1] != "u16"@[1]);
    assert("u64"@.len() != "i8"@.len());
    assert("u64"@[0] != "i16"@[0]);
    assert("u64"@[0] != "i32"@[0]);
    assert("u64"@[0] != "i64"@[0]);
    assert("u64"@.len() != "i128"@.len());
    assert("u64"@.len() != "u8"@.len());
    assert("u64"@[1] != "u16"@[1]);
    assert("u64"@[1] != "u32"@[1]);
    assert("u128"@.len() != "i8"@.len());
    assert("u128"@.len() != "i16"@.len());
    assert("u128"@.len() != "i32"@.len());
    assert("u128"@.len() != "i64"@.len());
    assert("u128"@[0] != "i128"@[0]);
    assert("u128"@.len() != "u8"@.len());
    assert("u128"@.len() != "u16"@.len());
    assert("u128"@.len() != "u32"@.len());
    assert("u128"@.len() != "u64"@.len());
    lemma_int_text_relaxed(n);
}

/// The first group of a string that starts with its separator is empty.
proof fn lemma_group_first_empty(s: Seq<char>, c: char)
    requires
        s.len() > 0,
        s[0] == c,
    ensures
        group_lengths(s, c).len() >= 2,
        group_lengths(s, c)[0] == 0,
    decreases s.len(),
{
    let p = s.drop_last();
    if s.len() == 1 {
        assert(p =~= Seq::<char>::empty());
        assert(group_lengths(p, c) == seq![0nat]);
    } else {
        assert(p[0] == c);
        lemma_group_first_empty(p, c);
    }
}

/// The decimal text of an integer is none of the text shapes `auto`
/// tries before numbers, so `auto` reads it as a number.
#[verifier::spinoff_prover]
proof fn lemma_auto_number_text(n: int, o: spec_fn(Seq<char>, Seq<char>) -> Option<Val>)
    requires
        i64::MIN <= n <= u64::MAX,
    ensures
        auto_number(int_text(n), o) is Some,
        auto_val(int_text(n), o) == auto_number(int_text(n), o).unwrap(),
{
    let raw = int_text(n);
    lemma_int_text(n);
    reveal_strlit("true");
    reveal_strlit("false");
    assert(ascii_lower(raw[0]) == raw[0]);
    assert(!eq_ignore_case(raw, "true"@)) by {
        if raw.len() == 4 {
            assert(ascii_lower(raw[0]) != "true"@[0]);
        }
    }
    assert(!eq_ignore_case(raw, "false"@)) by {
        if raw.len() == 5 {
            assert(ascii_lower(raw[0]) != "false"@[0]);
        }
    }
    if raw.len() >= 5 {
        assert(is_digit(raw[4]));
    }
    assert(!date_spec(raw));
    assert(!datetime_spec(raw));
    if raw.len() >= 3 {
        assert(is_digit(raw[2]));
    }
    assert(!time_spec(raw));
    if raw.len() == 36 {
        assert(is_digit(raw[8]));
    }
    assert(!uuid_hyphenated_spec(raw));
    lemma_mac_groups(raw);
    if let Some((Some(c), g)) = crate::valid::mac_groups_spec(raw) {
        let i = choose|i: int| 0 <= i < raw.len() && #[trigger] raw[i] == c;
        if i > 0 {
            assert(is_digit(raw[i]));
        }
        assert(c == '-' && raw[0] == '-');
        lemma_group_first_empty(raw, c);
    }
    assert(!macaddr_pairs_spec(raw));
    assert(!macaddr8_pairs_spec(raw));
    lemma_find_char(raw, '/', 0);
    assert(first_slash(raw) is None) by {
        if let Some(i) = find_char(raw, '/', 0) {
            if i > 0 {
                assert(is_digit(raw[i]));
            }
        }
    }
    lemma_find_char(raw, '.', 0);
    lemma_find_char(raw, ':', 0);
    if n < 0 {
        assert(raw[0] == '-');
        assert(digits_end(raw, 0) == 0);
        assert(octet_at(raw, 0) is None);
        assert(hex_end(raw, 0) == 0);
        assert(sep_hex_at(raw, 0, 0) is None);
        assert(groups_from(raw, 0, 0, 8) == (Seq::<nat>::empty(), 0int, false));
    } else {
        assert(all_digits(raw));
        lemma_digits_to_end(raw, 0);
        lemma_hex_to_end(raw, 0);
        let len = raw.len() as int;
        assert(dot_octet_at(raw, len) is None);
        assert(sep_v4_at(raw, len, 1) is None);
        assert(sep_hex_at(raw, len, 1) is None);
        assert(groups_from(raw, len, 1, 8) == (Seq::<nat>::empty(), len, false));
    }
    assert(ipv4_at(raw, 0) is None);
    assert(ipv6_prefix(raw) is None);
    assert(ip_spec(raw) is None);
    assert(auto_number(raw, o) is Some);
}

/// `auto` reads the decimal text of every `i64` as that integer:
/// negative and positive alike, before any wider or float reading.
pub proof fn lemma_auto_int(n: i64, o: spec_fn(Seq<char>, Seq<char>) -> Option<Val>)
    ensures
        auto_val(int_text(n as int), o) == Val::Int(n),
{
    lemma_auto_number_text(n as int, o);
    lemma_int_text(n as int);
}

/// `auto` reads the decimal text of a `u64` beyond `i64` as that
/// unsigned integer, not as a float.
pub proof fn lemma_auto_uint(n: u64, o: spec_fn(Seq<char>, Seq<char>) -> Option<Val>)
    requires
        n > i64::MAX,
    ensures
        auto_val(int_text(n as int), o) == Val::Uint(n),
{
    lemma_auto_number_text(n as int, o);
    lemma_int_text(n as int);
}

/// `auto` never reads a decimal with a leading zero (`007`) as a number.
pub proof fn lemma_auto_leading_zero_not_number(raw: Seq<char>, o: spec_fn(Seq<char>, Seq<char>) -> Option<Val>)
    requires
        cleaned(raw) matches Some((c, _)) && radix_split(c) is None && leading_zero(unsigned_part(c)),
    ensures
        !(auto_val(raw, o) is Int),
        !(auto_val(raw, o) is Uint),
        !(auto_val(raw, o) is Float),
{
    assert(auto_number(raw, o) is None);
}


/// A run of digits reaches the end of an all-digit string.
proof fn lemma_digits_to_end(s: Seq<char>, j: int)
    requires
        0 <= j <= s.len(),
        all_digits(s),
    ensures
        digits_end(s, j) == s.len(),
    decreases s.len() - j,
{
    if j < s.len() {
        lemma_digits_to_end(s, j + 1);
    }
}

/// A run of hex digits reaches the end of an all-digit string.
proof fn lemma_hex_to_end(s: Seq<char>, j: int)
    requires
        0 <= j <= s.len(),
        all_digits(s),
    ensures
        hex_end(s, j) == s.len(),
    decreases s.len() - j,
{
    if j < s.len() {
        assert(is_digit(s[j]));
        lemma_hex_to_end(s, j + 1);
    }
}

/// An all-digit string has no MAC separator.
proof fn lemma_mac_scan_digits(s: Seq<char>)
    requires
        all_digits(s),
    ensures
        mac_scan(s) == Some(Option::<char>::None),
    decreases s.len(),
{
    if s.len() > 0 {
        let p = s.drop_last();
        assert forall|i: int| 0 <= i < p.len() implies is_digit(#[trigger] p[i]) by {
            assert(p[i] == s[i]);
        }
        lemma_mac_scan_digits(p);
        assert(is_digit(s.last()));
    }
}

/// An all-digit string is its own underscore-free form.
proof fn lemma_strip_digits(s: Seq<char>)
    requires
        all_digits(s),
    ensures
        strip_underscores(s) == s,
    decreases s.len(),
{
    if s.len() > 0 {
        let p = s.drop_last();
        assert forall|i: int| 0 <= i < p.len() implies is_digit(#[trigger] p[i]) by {
            assert(p[i] == s[i]);
        }
        lemma_strip_digits(p);
        assert(is_digit(s.last()));
        assert(p.push(s.last()) =~= s);
    }
}

/// A decimal with a leading zero (`007`) stays text under `auto`.
pub proof fn lemma_auto_leading_zero_text(raw: Seq<char>, o: spec_fn(Seq<char>, Seq<char>) -> Option<Val>)
    requires
        raw.len() > 1,
        raw[0] == '0',
        all_digits(raw),
    ensures
        auto_val(raw, o) == Val::Text(TextKind::Str, raw),
{
    reveal_strlit("true");
    reveal_strlit("false");
    assert(is_digit(raw[1]));
    assert(ascii_lower(raw[0]) == '0');
    assert(!eq_ignore_case(raw, "true"@)) by {
        if raw.len() == 4 {
            assert(ascii_lower(raw[0]) != "true"@[0]);
        }
    }
    assert(!eq_ignore_case(raw, "false"@)) by {
        if raw.len() == 5 {
            assert(ascii_lower(raw[0]) != "false"@[0]);
        }
    }
    if raw.len() >= 5 {
        assert(is_digit(raw[4]));
    }
    assert(!date_spec(raw));
    assert(!datetime_spec(raw));
    if raw.len() >= 8 {
        assert(is_digit(raw[2]));
    }
    assert(!time_spec(raw));
    if raw.len() == 36 {
        assert(is_digit(raw[8]));
        assert(is_hex(raw[8]));
    }
    assert(!uuid_hyphenated_spec(raw));
    lemma_mac_scan_digits(raw);
    assert(!macaddr_pairs_spec(raw));
    assert(!macaddr8_pairs_spec(raw));
    lemma_digits_to_end(raw, 0);
    assert(octet_at(raw, 0) is None);
    assert(ipv4_at(raw, 0) is None);
    lemma_hex_to_end(raw, 0);
    if raw.len() <= 4 {
        let len = raw.len() as int;
        assert(sep_v4_at(raw, len, 1) is None);
        assert(sep_hex_at(raw, len, 1) is None);
        assert(groups_from(raw, len, 1, 8) == (Seq::<nat>::empty(), len, false));
    }
    assert(ipv6_prefix(raw) is None);
    assert(ip_spec(raw) is None);
    lemma_find_char(raw, '/', 0);
    assert(first_slash(raw) is None) by {
        if let Some(i) = find_char(raw, '/', 0) {
            assert(is_digit(raw[i]));
        }
    }
    assert(underscores_ok(raw)) by {
        assert forall|i: int| 0 <= i < raw.len() && #[trigger] raw[i] == '_' implies false by {
            assert(is_digit(raw[i]));
        }
    }
    lemma_strip_digits(raw);
    assert(!bigint_shape(raw)) by {
        assert(is_digit(raw[raw.len() - 1]));
    }
    assert(cleaned(raw) == Some((raw, false)));
    assert(radix_split(raw) is None);
    assert(unsigned_part(raw) == raw);
    assert(leading_zero(raw));
    assert(auto_number(raw, o) is None);
}

/// Inserting under a key keeps an object an object.
proof fn lemma_insert_keeps_object(root: Val, key: Seq<char>, v: Val, dot_key: bool)
    requires
        root is Obj,
    ensures
        insert_key_spec(root, key, v, dot_key) is Obj,
{
    if dot_key {
        assert(split_on(key, '.').len() >= 1);
    }
}

/// The `kv` layout makes an object of an object.
proof fn lemma_kv_object(
    rows: Seq<Seq<Seq<char>>>,
    i: int,
    acc: Val,
    dot_key: bool,
    o: spec_fn(Seq<char>, Seq<char>) -> Option<Val>,
    depth: nat,
)
    requires
        acc is Obj,
    ensures
        kv_from(rows, i, acc, dot_key, o, depth) matches Ok(v) ==> v is Obj,
    decreases rows.len() - i,
{
    if 0 <= i < rows.len() && !blank(rows[i]) && rows[i].len() >= 2 {
        let declared = if rows[i].len() > 2 {
            trim(rows[i][2])
        } else {
            Seq::empty()
        };
        if let Ok(v) = cell(rows[i][1], declared, dot_key, o, depth) {
            lemma_insert_keeps_object(acc, trim(rows[i][0]), v, dot_key);
            lemma_kv_object(rows, i + 1, insert_key_spec(acc, trim(rows[i][0]), v, dot_key), dot_key, o, depth);
        }
    } else if 0 <= i < rows.len() && blank(rows[i]) {
        lemma_kv_object(rows, i + 1, acc, dot_key, o, depth);
    }
}

/// A `db` record built on an object is an object.
proof fn lemma_record_object(
    cells: Seq<Seq<char>>,
    c: int,
    acc: Val,
    keys: Seq<Seq<char>>,
    types: Seq<Seq<char>>,
    dot_key: bool,
    o: spec_fn(Seq<char>, Seq<char>) -> Option<Val>,
    depth: nat,
)
    requires
        acc is Obj,
    ensures
        record_from(cells, c, acc, keys, types, dot_key, o, depth) matches Ok(v) ==> v is Obj,
    decreases cells.len() - c,
{
    if 0 <= c < cells.len() {
        let key = if c < keys.len() {
            trim(keys[c])
        } else {
            Seq::empty()
        };
        if key.len() == 0 || cells[c].len() == 0 {
            lemma_record_object(cells, c + 1, acc, keys, types, dot_key, o, depth);
        } else if let Ok(v) = cell(cells[c], col_type(types, c), dot_key, o, depth) {
            lemma_insert_keeps_object(acc, key, v, dot_key);
            lemma_record_object(cells, c + 1, insert_key_spec(acc, key, v, dot_key), keys, types, dot_key, o, depth);
        }
    }
}

/// `db` records are objects.
proof fn lemma_records_objects(
    rows: Seq<Seq<Seq<char>>>,
    i: int,
    keys: Seq<Seq<char>>,
    types: Seq<Seq<char>>,
    dot_key: bool,
    o: spec_fn(Seq<char>, Seq<char>) -> Option<Val>,
    depth: nat,
)
    ensures
        records_from(rows, i, keys, types, dot_key, o, depth) matches Ok(recs) ==> forall|k: int|
            0 <= k < recs.len() ==> (#[trigger] recs[k]) is Obj,
    decreases rows.len() - i,
{
    if 0 <= i < rows.len() {
        lemma_records_objects(rows, i + 1, keys, types, dot_key, o, depth);
        if !blank(rows[i]) {
            lemma_record_object(rows[i], 0, Val::Obj(Seq::empty()), keys, types, dot_key, o, depth);
            if let Ok(r) = record_from(rows[i], 0, Val::Obj(Seq::empty()), keys, types, dot_key, o, depth) {
                if let Ok(rest) = records_from(rows, i + 1, keys, types, dot_key, o, depth) {
                    let all = seq![r] + rest;
                    assert forall|k: int| 0 <= k < all.len() implies (#[trigger] all[k]) is Obj by {
                        if k > 0 {
                            assert(all[k] == rest[k - 1]);
                        }
                    }
                }
            }
        }
    }
}

/// A table read under `kv` is an object; under `db` it is an array with
/// one object per record.
pub proof fn lemma_table_shape(
    rows: Seq<Seq<Seq<char>>>,
    layout: TableLayout,
    dot_key: bool,
    o: spec_fn(Seq<char>, Seq<char>) -> Option<Val>,
    depth: nat,
)
    ensures
        table_in(rows, layout, dot_key, o, depth) matches Ok(v) ==> match layout {
            TableLayout::Kv => v is Obj,
            TableLayout::Db => v is Arr && forall|k: int| 0 <= k < v->Arr_0.len() ==> (#[trigger] v->Arr_0[k]) is Obj,
        },
{
    match layout {
        TableLayout::Kv => lemma_kv_object(rows, 0, Val::Obj(Seq::empty()), dot_key, o, depth),
        TableLayout::Db => {
            let h = first_nonblank(rows, 0);
            if h < rows.len() {
                let types = if h + 1 < rows.len() {
                    rows[h + 1]
                } else {
                    Seq::empty()
                };
                lemma_records_objects(rows, h + 2, rows[h], types, dot_key, o, depth);
            }
        },
    }
}

/// A `csv` cell read under `kv` holds an object, under `db` an array of
/// record objects.
pub proof fn lemma_csv_cell_shape(
    raw: Seq<char>,
    declared: Seq<char>,
    dot_key: bool,
    o: spec_fn(Seq<char>, Seq<char>) -> Option<Val>,
    depth: nat,
)
    requires
        declared.len() != 0,
        is_csv_id(canonical(declared)),
    ensures
        cell(raw, declared, dot_key, o, depth) matches Ok(v) ==> (if csv_layout(canonical(declared)) is Db {
            v is Arr && forall|k: int| 0 <= k < v->Arr_0.len() ==> (#[trigger] v->Arr_0[k]) is Obj
        } else {
            v is Obj
        }),
{
    let t = canonical(declared);
    if csv_id_ok(t) && depth > 0 {
        if let Ok(rows) = csv_records(raw, (csv_sep(t) as u32) as u8) {
            lemma_table_shape(rows, csv_layout(t), dot_key, o, (depth - 1) as nat);
        }
    }
}

// ---------------------------------------------------------------------
// Cell values (executable)
// ---------------------------------------------------------------------

/// The model of a conversion result.
pub open spec fn res_view(r: Result<Value, String>) -> Result<Val, Seq<char>> {
    match r {
        Ok(v) => Ok(v@),
        Err(m) => Err(m@),
    }
}

/// The model of a single-value conversion.
pub open spec fn opt2_view(r: Option<Option<Value>>) -> Option<Option<Val>> {
    match r {
        None => None,
        Some(None) => Some(None),
        Some(Some(v)) => Some(Some(v@)),
    }
}

/// A type id with its aliases resolved.
pub fn canonical_id(d: &[char]) -> (r: Vec<char>)
    ensures
        r@ == canonical(d@),
{
    if spells(d, "int") || spells(d, "integer") {
        chars_of("i64")
    } else if spells(d, "uint") {
        chars_of("u64")
    } else if spells(d, "float") || spells(d, "double") || spells(d, "number") {
        chars_of("f64")
    } else if spells(d, "string") || spells(d, "text") {
        chars_of("str")
    } else if spells(d, "boolean") {
        chars_of("bool")
    } else if spells(d, "datetime") {
        chars_of("dt")
    } else {
        crate::text::to_vec(d)
    }
}

/// Whether `t` is a single-value type id.
fn is_scalar_id(t: &[char]) -> (r: bool)
    ensures
        r == scalar_id(t@),
{
    spells(t, "i8") || spells(t, "i16") || spells(t, "i32") || spells(t, "i64") || spells(t, "i128")
        || spells(t, "u8") || spells(t, "u16") || spells(t, "u32") || spells(t, "u64") || spells(
        t,
        "u128",
    ) || spells(t, "f32") || spells(t, "f64") || spells(t, "bool") || spells(t, "str") || spells(
        t,
        "dt",
    ) || spells(t, "date") || spells(t, "time") || spells(t, "ipv4") || spells(t, "ipv6")
        || spells(t, "inet") || spells(t, "cidr") || spells(t, "macaddr") || spells(t, "macaddr8")
        || spells(t, "uuid") || spells(t, "null") || spells(t, "json") || spells(t, "jsonc")
}

/// Whether `t` is an `array` id.
fn array_id(t: &[char]) -> (r: bool)
    ensures
        r == is_array_id(t@),
{
    if t.len() < 5 {
        return false;
    }
    spells(&t[0..5], "array")
}

/// The element format of an `array` id.
fn array_elem_of(t: &[char]) -> (r: Vec<char>)
    requires
        is_array_id(t@),
    ensures
        r@ == array_elem(t@),
{
    if t.len() > 6 {
        let r = crate::text::to_vec(&t[6..t.len()]);
        assert(r@ =~= t@.subrange(6, t@.len() as int));
        r
    } else {
        Vec::new()
    }
}

/// Whether an array may name this element format.
fn element_ok(e: &[char]) -> (r: bool)
    ensures
        r == elem_ok(e@),
{
    if e.len() == 0 || spells(e, "auto") {
        return true;
    }
    let c = canonical_id(e);
    let c = c.as_slice();
    is_scalar_id(c) && !spells(c, "json") && !spells(c, "jsonc")
}

/// Whether a cell may declare this type id.
pub fn type_known(declared: &[char]) -> (r: bool)
    ensures
        r == known_type(declared@),
{
    if declared.len() == 0 || spells(declared, "auto") {
        return true;
    }
    let t = canonical_id(declared);
    let t = t.as_slice();
    if is_scalar_id(t) {
        return true;
    }
    if csv_id(t) {
        proof {
            lemma_csv_not_array(t@);
        }
        return csv_id_valid(t);
    }
    if !array_id(t) {
        return false;
    }
    let e = array_elem_of(t);
    element_ok(e.as_slice())
}

/// No `csv` id is an `array` id.
proof fn lemma_csv_not_array(t: Seq<char>)
    requires
        is_csv_id(t),
    ensures
        !is_array_id(t),
{
    reveal_strlit("array");
    reveal_strlit("csv");
    assert(t[0] == t.subrange(0, 3)[0]);
    if t.len() >= 5 {
        assert(t.subrange(0, 5)[0] == t[0]);
    }
}

/// Whether `t` is a `csv` id.
fn csv_id(t: &[char]) -> (r: bool)
    ensures
        r == is_csv_id(t@),
{
    if t.len() < 3 {
        return false;
    }
    spells(&t[0..3], "csv")
}

/// Whether a `csv` id names an ASCII delimiter and a built-in layout.
fn csv_id_valid(t: &[char]) -> (r: bool)
    requires
        is_csv_id(t@),
    ensures
        r == csv_id_ok(t@),
{
    if t.len() > 3 && (t[3] as u32) >= 128 {
        return false;
    }
    if t.len() <= 4 {
        return true;
    }
    let layout = &t[4..t.len()];
    assert(layout@ == csv_layout_id(t@));
    spells(layout, "kv") || spells(layout, "db")
}

/// The layout a valid `csv` id names.
fn csv_layout_of(t: &[char]) -> (r: TableLayout)
    requires
        is_csv_id(t@),
        csv_id_ok(t@),
    ensures
        r == csv_layout(t@),
{
    if t.len() <= 4 {
        proof {
            reveal_strlit("kv");
            reveal_strlit("db");
        }
        assert(csv_layout_id(t@)[0] != "db"@[0]);
        return TableLayout::Kv;
    }
    if spells(&t[4..t.len()], "db") {
        TableLayout::Db
    } else {
        TableLayout::Kv
    }
}

/// The decimal text of `±m`.
fn int_text_of(neg: bool, m: u128) -> (r: String)
    requires
        m <= u64::MAX,
    ensures
        r@ == int_text(if neg { -(m as int) } else { m as int }),
{
    let mut out = String::new();
    if neg && m != 0 {
        push_char(&mut out, '-');
    }
    push_decimal(&mut out, m as u64);
    if neg && m != 0 {
        assert(-(-(m as int)) == m as int);
    }
    out
}

/// The float the hook reads from `text`.
fn float_of<X: Fn(&str, &str) -> Option<Value>>(x: &X, text: &str, single: bool) -> (r: Option<u64>)
    requires
        hook_ok(*x),
    ensures
        r == float_text(hook_of(*x), text@, single),
{
    let kind = if single { "f32" } else { "f64" };
    match ask(x, kind, text) {
        Some(Value::Float(b)) => Some(b),
        _ => None,
    }
}

/// The float an integer literal `d` in `radix` denotes.
fn int_float<X: Fn(&str, &str) -> Option<Value>>(x: &X, d: &[char], radix: u32, single: bool) -> (r: Option<u64>)
    requires
        hook_ok(*x),
        2 <= radix <= 36,
    ensures
        r == int_as_float(hook_of(*x), d@, radix as nat, single),
{
    assert(d@.subrange(0, d@.len() as int) =~= d@);
    let r = parse_radix(d, 0, radix, true);
    if lit_within(r, true, 9223372036854775808, 9223372036854775807) {
        if let IntLit::Val(neg, m) = r {
            let t = int_text_of(neg, m);
            return float_of(x, t.as_str(), single);
        }
        return None;
    }
    let u = parse_radix(d, 0, radix, false);
    if lit_within(u, false, 0, 18446744073709551615) {
        if let IntLit::Val(neg, m) = u {
            let t = int_text_of(neg, m);
            return float_of(x, t.as_str(), single);
        }
    }
    None
}

/// The float a cell literal denotes.
fn float_literal<X: Fn(&str, &str) -> Option<Value>>(x: &X, raw: &[char], single: bool) -> (r: Option<u64>)
    requires
        hook_ok(*x),
    ensures
        r == float_lit(raw@, hook_of(*x), single),
{
    match clean_literal(raw) {
        None => None,
        Some((s, big)) => match split_radix(s.as_slice()) {
            Some((d, radix)) => int_float(x, d.as_slice(), radix, single),
            None => if big {
                int_float(x, s.as_slice(), 10, single)
            } else {
                let t = string_of(s.as_slice());
                float_of(x, t.as_str(), single)
            },
        },
    }
}

/// The `i64` an in-range literal denotes.
fn to_i64(r: IntLit) -> (v: i64)
    requires
        exists|x: Option<int>| lit_is(r, x) && in_range(x, i64::MIN as int, i64::MAX as int),
    ensures
        forall|x: Option<int>| lit_is(r, x) ==> x == Some(v as int),
{
    match r {
        IntLit::Val(neg, m) => {
            if neg {
                (0i128 - (m as i128)) as i64
            } else {
                m as i64
            }
        },
        _ => 0,
    }
}

/// The `u64` an in-range literal denotes.
fn to_u64(r: IntLit) -> (v: u64)
    requires
        exists|x: Option<int>| lit_is(r, x) && in_range(x, 0, u64::MAX as int),
    ensures
        forall|x: Option<int>| lit_is(r, x) ==> x == Some(v as int),
{
    match r {
        IntLit::Val(neg, m) => m as u64,
        _ => 0,
    }
}

/// An integer literal `d` in `radix` as `i64`, else `u64`.
pub(crate) fn radix_number(d: &[char], radix: u32) -> (r: Option<Value>)
    requires
        2 <= radix <= 36,
    ensures
        opt_view(r) == (if in_range(from_radix(d@, radix as nat, true), i64::MIN as int, i64::MAX as int) {
            Some(Val::Int(from_radix(d@, radix as nat, true).unwrap() as i64))
        } else if in_range(from_radix(d@, radix as nat, false), 0, u64::MAX as int) {
            Some(Val::Uint(from_radix(d@, radix as nat, false).unwrap() as u64))
        } else {
            None
        }),
{
    assert(d@.subrange(0, d@.len() as int) =~= d@);
    let r = parse_radix(d, 0, radix, true);
    if lit_within(r, true, 9223372036854775808, 9223372036854775807) {
        return Some(Value::Int(to_i64(r)));
    }
    let u = parse_radix(d, 0, radix, false);
    if lit_within(u, false, 0, 18446744073709551615) {
        return Some(Value::Uint(to_u64(u)));
    }
    None
}

/// The number `auto` makes of a literal.
fn auto_num<X: Fn(&str, &str) -> Option<Value>>(x: &X, raw: &[char]) -> (r: Option<Value>)
    requires
        hook_ok(*x),
    ensures
        opt_view(r) == auto_number(raw@, hook_of(*x)),
{
    let (c, big) = match clean_literal(raw) {
        None => return None,
        Some(p) => p,
    };
    if let Some((d, radix)) = split_radix(c.as_slice()) {
        return radix_number(d.as_slice(), radix);
    }
    let n = c.len();
    let from: usize = if n > 0 && c[0] == '-' { 1 } else { 0 };
    let ghost body = unsigned_part(c@);
    assert(body =~= c@.subrange(from as int, n as int));
    let leading_zero = n > from + 1 && c[from] == '0' && '0' <= c[from + 1] && c[from + 1] <= '9';
    let mut any_digit = false;
    let mut all_ok = true;
    let mut i = from;
    while i < n
        invariant
            from <= i <= n == c@.len(),
            body == c@.subrange(from as int, n as int),
            any_digit == exists|j: int| from <= j < i && is_digit(#[trigger] c@[j]),
            all_ok == forall|j: int| from <= j < i ==> number_char(#[trigger] c@[j]),
        decreases n - i,
    {
        let ch = c[i];
        if '0' <= ch && ch <= '9' {
            any_digit = true;
        }
        if !(('0' <= ch && ch <= '9') || ch == '.' || ch == 'e' || ch == 'E' || ch == '+' || ch == '-') {
            all_ok = false;
        }
        i = i + 1;
    }
    proof {
        if any_digit {
            let j = choose|j: int| from <= j < n && is_digit(#[trigger] c@[j]);
            assert(body[j - from] == c@[j]);
        }
        if exists|j: int| 0 <= j < body.len() && is_digit(#[trigger] body[j]) {
            let j = choose|j: int| 0 <= j < body.len() && is_digit(#[trigger] body[j]);
            assert(body[j] == c@[j + from]);
        }
        if all_ok {
            assert forall|j: int| 0 <= j < body.len() implies number_char(#[trigger] body[j]) by {
                assert(body[j] == c@[j + from]);
            }
        } else {
            let j = choose|j: int| from <= j < n && !number_char(#[trigger] c@[j]);
            assert(body[j - from] == c@[j]);
        }
    }
    let shape = n > from && any_digit && all_ok;
    proof {
        if n > from + 1 {
            assert(body[0] == c@[from as int] && body[1] == c@[from + 1]);
        }
        assert(leading_zero == crate::table::leading_zero(body));
        assert(shape == number_shape(body));
    }
    if leading_zero || !shape {
        return None;
    }
    assert(c@.subrange(0, c@.len() as int) =~= c@);
    let r = parse_radix(c.as_slice(), 0, 10, true);
    if lit_within(r, true, 9223372036854775808, 9223372036854775807) {
        return Some(Value::Int(to_i64(r)));
    }
    let u = parse_radix(c.as_slice(), 0, 10, false);
    if lit_within(u, false, 0, 18446744073709551615) {
        return Some(Value::Uint(to_u64(u)));
    }
    if big {
        return None;
    }
    let t = string_of(c.as_slice());
    match float_of(x, t.as_str(), false) {
        Some(b) => Some(Value::Float(b)),
        None => None,
    }
}

/// What `auto` makes of a cell.
pub fn auto<X: Fn(&str, &str) -> Option<Value>>(raw: &str, x: &X) -> (r: Value)
    requires
        hook_ok(*x),
    ensures
        r@ == auto_val(raw@, hook_of(*x)),
        wf(r@),
{
    let rc = chars_of(raw);
    let rc = rc.as_slice();
    if spells_ignore_case(rc, "true") {
        return Value::Bool(true);
    }
    if spells_ignore_case(rc, "false") {
        return Value::Bool(false);
    }
    if crate::valid::date(raw) {
        return Value::Date(raw.to_owned());
    }
    if crate::valid::time(raw) {
        return Value::Time(raw.to_owned());
    }
    if crate::valid::datetime(raw) {
        return Value::DateTime(raw.to_owned());
    }
    if crate::valid::uuid_hyphenated(raw) {
        return Value::Uuid(raw.to_owned());
    }
    if crate::valid::macaddr_pairs(raw) {
        return Value::MacAddr(raw.to_owned());
    }
    if crate::valid::macaddr8_pairs(raw) {
        return Value::MacAddr8(raw.to_owned());
    }
    match parse_ip(rc) {
        Some(Ip::V4(a)) => return Value::Ipv4(a),
        Some(Ip::V6(a)) => return Value::Ipv6(a),
        None => {},
    }
    let slash = find(rc, '/', 0).is_some();
    if slash && crate::valid::cidr(raw) {
        return Value::Cidr(raw.to_owned());
    }
    if slash && crate::valid::inet(raw) {
        return Value::Inet(raw.to_owned());
    }
    match auto_num(x, rc) {
        Some(v) => v,
        None => Value::String(raw.to_owned()),
    }
}

/// The explicit `bool` tokens.
fn bool_of(rc: &[char]) -> (r: Option<bool>)
    ensures
        r == bool_token(rc@),
{
    if spells_ignore_case(rc, "true") || spells_ignore_case(rc, "t") || spells_ignore_case(rc, "yes")
        || spells_ignore_case(rc, "y") || spells_ignore_case(rc, "on") || spells(rc, "1") {
        Some(true)
    } else if spells_ignore_case(rc, "false") || spells_ignore_case(rc, "f") || spells_ignore_case(
        rc,
        "no",
    ) || spells_ignore_case(rc, "n") || spells_ignore_case(rc, "off") || spells(rc, "0") {
        Some(false)
    } else {
        None
    }
}

/// A signed integer cell within `[-lo, hi]`.
fn int_cell_of(rc: &[char], lo: u128, hi: u128) -> (r: Option<Value>)
    requires
        lo <= 9223372036854775808,
        hi <= 9223372036854775807,
    ensures
        opt_view(r) == int_cell(rc@, -(lo as int), hi as int),
{
    let l = int_literal_relaxed(rc, true);
    if lit_within(l, true, lo, hi) {
        Some(Value::Int(to_i64(l)))
    } else {
        None
    }
}

/// An unsigned integer cell up to `hi`.
fn uint_cell_of(rc: &[char], hi: u128) -> (r: Option<Value>)
    requires
        hi <= 18446744073709551615,
    ensures
        opt_view(r) == uint_cell(rc@, hi as int),
{
    let l = int_literal_relaxed(rc, false);
    if lit_within(l, false, 0, hi) {
        Some(Value::Uint(to_u64(l)))
    } else {
        None
    }
}

/// A cell under a single-value type id.
#[verifier::rlimit(60)]
fn scalar<X: Fn(&str, &str) -> Option<Value>>(raw: &str, rc: &[char], t: &[char], x: &X) -> (r: Option<Option<Value>>)
    requires
        hook_ok(*x),
        rc@ == raw@,
    ensures
        opt2_view(r) == scalar_val(raw@, t@, hook_of(*x)),
        r matches Some(Some(v)) ==> wf(v@),
{
    if spells(t, "i8") {
        Some(int_cell_of(rc, 128, 127))
    } else if spells(t, "i16") {
        Some(int_cell_of(rc, 32768, 32767))
    } else if spells(t, "i32") {
        Some(int_cell_of(rc, 2147483648, 2147483647))
    } else if spells(t, "i64") {
        Some(int_cell_of(rc, 9223372036854775808, 9223372036854775807))
    } else if spells(t, "i128") {
        let l = int_literal_relaxed(rc, true);
        if lit_within(l, true, 170141183460469231731687303715884105728, 170141183460469231731687303715884105727) {
            match l {
                IntLit::Val(neg, m) => {
                    let v: i128 = if !neg {
                        m as i128
                    } else if m == 170141183460469231731687303715884105728 {
                        i128::MIN
                    } else {
                        0 - (m as i128)
                    };
                    Some(Some(Value::Int128(v)))
                },
                _ => Some(None),
            }
        } else {
            Some(None)
        }
    } else if spells(t, "u8") {
        Some(uint_cell_of(rc, 255))
    } else if spells(t, "u16") {
        Some(uint_cell_of(rc, 65535))
    } else if spells(t, "u32") {
        Some(uint_cell_of(rc, 4294967295))
    } else if spells(t, "u64") {
        Some(uint_cell_of(rc, 18446744073709551615))
    } else if spells(t, "u128") {
        let l = int_literal_relaxed(rc, false);
        if lit_within(l, false, 0, 340282366920938463463374607431768211455) {
            match l {
                IntLit::Val(_, m) => Some(Some(Value::Uint128(m))),
                _ => Some(None),
            }
        } else {
            Some(None)
        }
    } else if spells(t, "f32") || spells(t, "f64") {
        let single = spells(t, "f32");
        let f = match float_literal(x, rc, single) {
            Some(b) => Some(b),
            None => {
                let relaxed_text = relax(rc);
                float_literal(x, relaxed_text.as_slice(), single)
            },
        };
        match f {
            Some(b) => Some(Some(Value::Float(b))),
            None => Some(None),
        }
    } else if spells(t, "bool") {
        match bool_of(rc) {
            Some(b) => Some(Some(Value::Bool(b))),
            None => Some(None),
        }
    } else if spells(t, "str") {
        Some(Some(Value::String(raw.to_owned())))
    } else if spells(t, "dt") {
        Some(if crate::valid::datetime(raw) { Some(Value::DateTime(raw.to_owned())) } else { None })
    } else if spells(t, "date") {
        Some(if crate::valid::date(raw) { Some(Value::Date(raw.to_owned())) } else { None })
    } else if spells(t, "time") {
        Some(if crate::valid::time(raw) { Some(Value::Time(raw.to_owned())) } else { None })
    } else if spells(t, "ipv4") {
        Some(
            match parse_ip(rc) {
                Some(Ip::V4(a)) => Some(Value::Ipv4(a)),
                _ => None,
            },
        )
    } else if spells(t, "ipv6") {
        Some(
            match parse_ip(rc) {
                Some(Ip::V6(a)) => Some(Value::Ipv6(a)),
                _ => None,
            },
        )
    } else if spells(t, "inet") {
        Some(
            match parse_ip(rc) {
                Some(Ip::V4(a)) => Some(Value::Ipv4(a)),
                Some(Ip::V6(a)) => Some(Value::Ipv6(a)),
                None => if crate::valid::inet(raw) {
                    Some(Value::Inet(raw.to_owned()))
                } else {
                    None
                },
            },
        )
    } else if spells(t, "cidr") {
        Some(if crate::valid::cidr(raw) { Some(Value::Cidr(raw.to_owned())) } else { None })
    } else if spells(t, "macaddr") {
        Some(if crate::valid::macaddr(raw) { Some(Value::MacAddr(raw.to_owned())) } else { None })
    } else if spells(t, "macaddr8") {
        Some(if crate::valid::macaddr8(raw) { Some(Value::MacAddr8(raw.to_owned())) } else { None })
    } else if spells(t, "uuid") {
        Some(if crate::valid::uuid(raw) { Some(Value::Uuid(raw.to_owned())) } else { None })
    } else if spells(t, "null") {
        Some(Some(Value::Null))
    } else if spells(t, "json") {
        Some(parse_document(Format::Json, raw, x).ok())
    } else if spells(t, "jsonc") {
        Some(parse_document(Format::Jsonc, raw, x).ok())
    } else {
        None
    }
}

/// "unknown or disabled type '<declared>'"
fn unknown_message(declared: &[char]) -> (r: String)
    ensures
        r@ == unknown_msg(declared@),
{
    let mut out = String::new();
    push_str(&mut out, "unknown or disabled type '");
    let d = string_of(declared);
    push_str(&mut out, d.as_str());
    push_str(&mut out, "'");
    out
}

/// "'<raw>' is not a valid <t>"
fn bad_message(raw: &str, t: &[char]) -> (r: String)
    ensures
        r@ == bad_msg(raw@, t@),
{
    let mut out = String::new();
    push_str(&mut out, "'");
    push_str(&mut out, raw);
    push_str(&mut out, "' is not a valid ");
    let ts = string_of(t);
    push_str(&mut out, ts.as_str());
    out
}

/// A cell under `auto` or a single-value type id.
fn plain<X: Fn(&str, &str) -> Option<Value>>(raw: &str, declared: &[char], x: &X) -> (r: Result<Value, String>)
    requires
        hook_ok(*x),
    ensures
        res_view(r) == plain_cell(raw@, declared@, hook_of(*x)),
        r matches Ok(v) ==> wf(v@),
{
    if declared.len() == 0 || spells(declared, "auto") {
        return Ok(auto(raw, x));
    }
    let t = canonical_id(declared);
    let rc = chars_of(raw);
    match scalar(raw, rc.as_slice(), t.as_slice(), x) {
        None => Err(unknown_message(declared)),
        Some(None) => Err(bad_message(raw, t.as_slice())),
        Some(Some(v)) => Ok(v),
    }
}

/// Convert each piece of an array cell under the element format.
fn convert_elems<X: Fn(&str, &str) -> Option<Value>>(pieces: &Vec<Vec<char>>, elem: &[char], x: &X) -> (r: Result<Value, String>)
    requires
        hook_ok(*x),
    ensures
        res_view(r) == (match elems(char_seqs(pieces@), 0, elem@, hook_of(*x)) {
            Err(m) => Err(m),
            Ok(items) => Ok(Val::Arr(items)),
        }),
        r matches Ok(v) ==> wf(v@),
{
    let ghost ps = char_seqs(pieces@);
    let ghost o = hook_of(*x);
    let mut items: Vec<Value> = Vec::new();
    let mut k: usize = 0;
    assert(view_items(items@) =~= Seq::<Val>::empty());
    assert(elems(ps, 0, elem@, o) == match elems(ps, 0, elem@, o) {
        Ok(rest) => Ok(Seq::<Val>::empty() + rest),
        Err(m) => Err(m),
    }) by {
        if let Ok(rest) = elems(ps, 0, elem@, o) {
            assert(Seq::<Val>::empty() + rest =~= rest);
        }
    }
    while k < pieces.len()
        invariant
            k <= pieces@.len(),
            ps == char_seqs(pieces@),
            ps.len() == pieces@.len(),
            hook_ok(*x),
            o == hook_of(*x),
            elems(ps, 0, elem@, o) == match elems(ps, k as int, elem@, o) {
                Ok(rest) => Ok(view_items(items@) + rest),
                Err(m) => Err(m),
            },
            forall|i: int| 0 <= i < items@.len() ==> wf(#[trigger] items@[i]@),
        decreases pieces@.len() - k,
    {
        let piece = string_of(pieces[k].as_slice());
        assert(piece@ == ps[k as int]);
        match plain(piece.as_str(), elem, x) {
            Err(m) => {
                return Err(m);
            },
            Ok(v) => {
                proof {
                    lemma_view_items(items@);
                }
                let ghost before = view_items(items@);
                items.push(v);
                proof {
                    lemma_view_items(items@);
                    assert(view_items(items@) =~= before.push(v@));
                    if let Ok(rest) = elems(ps, k + 1, elem@, o) {
                        assert(before + (seq![v@] + rest) =~= before.push(v@) + rest);
                    }
                }
            },
        }
        k = k + 1;
    }
    proof {
        lemma_view_items(items@);
        assert(view_items(items@) + Seq::<Val>::empty() =~= view_items(items@));
        lemma_items_wf(view_items(items@));
    }
    Ok(Value::Array(items))
}

/// Convert one cell under a type id other than a `csv` one.
fn convert_simple<X: Fn(&str, &str) -> Option<Value>>(raw: &str, dc: &[char], x: &X) -> (r: Result<Value, String>)
    requires
        hook_ok(*x),
    ensures
        res_view(r) == simple_cell(raw@, dc@, hook_of(*x)),
        r matches Ok(v) ==> wf(v@),
{
    proof {
        reveal(simple_cell);
    }
    if dc.len() == 0 || spells(dc, "auto") {
        return plain(raw, dc, x);
    }
    let t = canonical_id(dc);
    let t = t.as_slice();
    if !array_id(t) {
        return plain(raw, dc, x);
    }
    let elem = array_elem_of(t);
    if !element_ok(elem.as_slice()) {
        return Err(unknown_message(dc));
    }
    let rc = chars_of(raw);
    if rc.len() == 0 {
        let empty: Vec<Value> = Vec::new();
        proof {
            lemma_view_items(empty@);
            assert(view_items(empty@) =~= Seq::<Val>::empty());
            lemma_items_wf(view_items(empty@));
        }
        return Ok(Value::Array(empty));
    }
    let sep = if t.len() > 5 { t[5] } else { ',' };
    let pieces = split_chars(rc.as_slice(), sep);
    convert_elems(&pieces, elem.as_slice(), x)
}

/// Convert one cell under its declared type id, with `csv` cells at
/// most `depth` levels deep.
fn convert_at<X: Fn(&str, &str) -> Option<Value>>(
    raw: &str,
    declared: &str,
    dot_key: bool,
    depth: usize,
    x: &X,
) -> (r: Result<Value, String>)
    requires
        hook_ok(*x),
    ensures
        res_view(r) == cell(raw@, declared@, dot_key, hook_of(*x), depth as nat),
        r matches Ok(v) ==> wf(v@),
    decreases depth, 1usize, 0usize,
{
    let dc = chars_of(declared);
    let dc = dc.as_slice();
    if dc.len() != 0 {
        let t = canonical_id(dc);
        let t = t.as_slice();
        if csv_id(t) {
            return csv_cell(raw, dc, t, dot_key, depth, x);
        }
    }
    convert_simple(raw, dc, x)
}

/// A `csv` cell: the text read as a CSV document under the id's layout.
fn csv_cell<X: Fn(&str, &str) -> Option<Value>>(
    raw: &str,
    dc: &[char],
    t: &[char],
    dot_key: bool,
    depth: usize,
    x: &X,
) -> (r: Result<Value, String>)
    requires
        hook_ok(*x),
        dc@.len() != 0,
        t@ == canonical(dc@),
        is_csv_id(t@),
    ensures
        res_view(r) == cell(raw@, dc@, dot_key, hook_of(*x), depth as nat),
        r matches Ok(v) ==> wf(v@),
    decreases depth, 0usize, 0usize,
{
    if !csv_id_valid(t) {
        return Err(unknown_message(dc));
    }
    if depth == 0 {
        let mut m = String::new();
        push_str(&mut m, "csv cells nest too deeply");
        return Err(m);
    }
    let sep = if t.len() > 3 { t[3] } else { ',' };
    let byte = (sep as u32) as u8;
    let layout = csv_layout_of(t);
    match read_csv(raw, byte) {
        Err(m) => {
            let mut out = String::new();
            push_str(&mut out, "csv cell: ");
            push_str(&mut out, m.as_str());
            Err(out)
        },
        Ok(rows) => match parse_table_at(&rows, &layout, dot_key, depth - 1, x) {
            Ok(v) => Ok(v),
            Err((row, m)) => {
                let mut out = String::new();
                push_str(&mut out, "csv cell row ");
                push_decimal(&mut out, row as u64);
                push_str(&mut out, ": ");
                push_str(&mut out, m.as_str());
                Err(out)
            },
        },
    }
}

/// Convert one cell under its declared type id (a `csv` cell's inner
/// `kv` keys expand on dots when `dot_key` is set).
pub fn convert<X: Fn(&str, &str) -> Option<Value>>(
    raw: &str,
    declared: &str,
    dot_key: bool,
    x: &X,
) -> (r: Result<Value, String>)
    requires
        hook_ok(*x),
    ensures
        res_view(r) == cell(raw@, declared@, dot_key, hook_of(*x), CSV_NESTING as nat),
        r matches Ok(v) ==> wf(v@),
{
    convert_at(raw, declared, dot_key, CSV_NESTING, x)
}

// ---------------------------------------------------------------------
// Layouts (specification)
// ---------------------------------------------------------------------

/// The character sequences of one row.
pub open spec fn cells_view(r: Vec<String>) -> Seq<Seq<char>> {
    r@.map_values(|c: String| c@)
}

/// The character sequences of a row grid.
pub open spec fn rows_view(rows: Seq<Vec<String>>) -> Seq<Seq<Seq<char>>> {
    rows.map_values(|r: Vec<String>| cells_view(r))
}

/// Every cell of the row is empty.
pub open spec fn blank(cells: Seq<Seq<char>>) -> bool {
    forall|j: int| 0 <= j < cells.len() ==> (#[trigger] cells[j]).len() == 0
}

/// The `kv` layout from row `i` on, into `acc`: blank rows skip; each
/// other row's value cell converts under its format cell (trimmed;
/// missing = `auto`) and goes in under its trimmed key. An error carries
/// its 1-based row.
pub open spec fn kv_from(
    rows: Seq<Seq<Seq<char>>>,
    i: int,
    acc: Val,
    dot_key: bool,
    o: spec_fn(Seq<char>, Seq<char>) -> Option<Val>,
    depth: nat,
) -> Result<Val, (int, Seq<char>)>
    decreases depth, 3int, rows.len() - i,
{
    if i < 0 || i >= rows.len() {
        Ok(acc)
    } else if blank(rows[i]) {
        kv_from(rows, i + 1, acc, dot_key, o, depth)
    } else if rows[i].len() < 2 {
        Err((i + 1, "missing value cell"@))
    } else {
        let declared = if rows[i].len() > 2 {
            trim(rows[i][2])
        } else {
            Seq::empty()
        };
        match cell(rows[i][1], declared, dot_key, o, depth) {
            Err(m) => Err((i + 1, m)),
            Ok(v) => kv_from(rows, i + 1, insert_key_spec(acc, trim(rows[i][0]), v, dot_key), dot_key, o, depth),
        }
    }
}

/// The first row at or after `i` that is not blank.
pub open spec fn first_nonblank(rows: Seq<Seq<Seq<char>>>, i: int) -> int
    decreases rows.len() - i,
{
    if 0 <= i < rows.len() && blank(rows[i]) {
        first_nonblank(rows, i + 1)
    } else {
        i
    }
}

/// The type id of column `c` (empty past the type row's end).
pub open spec fn col_type(types: Seq<Seq<char>>, c: int) -> Seq<char> {
    if 0 <= c < types.len() {
        trim(types[c])
    } else {
        Seq::empty()
    }
}

/// The first column from `c` on whose type id is unknown.
pub open spec fn bad_type_col(types: Seq<Seq<char>>, c: int) -> Option<int>
    decreases types.len() - c,
{
    if c < 0 || c >= types.len() {
        None
    } else if !known_type(trim(types[c])) {
        Some(c)
    } else {
        bad_type_col(types, c + 1)
    }
}

/// The message for an unknown id in a `db` type row.
pub open spec fn type_row_msg(t: Seq<char>) -> Seq<char> {
    "unknown or disabled type '"@ + t + "' in the type row (a kv table? name the kv layout)"@
}

/// One `db` record from column `c` on, into `acc`: each non-empty cell
/// under a non-empty key converts under its column's type.
pub open spec fn record_from(
    cells: Seq<Seq<char>>,
    c: int,
    acc: Val,
    keys: Seq<Seq<char>>,
    types: Seq<Seq<char>>,
    dot_key: bool,
    o: spec_fn(Seq<char>, Seq<char>) -> Option<Val>,
    depth: nat,
) -> Result<Val, Seq<char>>
    decreases depth, 1int, cells.len() - c,
{
    if c < 0 || c >= cells.len() {
        Ok(acc)
    } else {
        let key = if c < keys.len() {
            trim(keys[c])
        } else {
            Seq::empty()
        };
        if key.len() == 0 || cells[c].len() == 0 {
            record_from(cells, c + 1, acc, keys, types, dot_key, o, depth)
        } else {
            match cell(cells[c], col_type(types, c), dot_key, o, depth) {
                Err(m) => Err(m),
                Ok(v) => record_from(cells, c + 1, insert_key_spec(acc, key, v, dot_key), keys, types, dot_key, o, depth),
            }
        }
    }
}

/// The `db` records from row `i` on (blank rows skip).
pub open spec fn records_from(
    rows: Seq<Seq<Seq<char>>>,
    i: int,
    keys: Seq<Seq<char>>,
    types: Seq<Seq<char>>,
    dot_key: bool,
    o: spec_fn(Seq<char>, Seq<char>) -> Option<Val>,
    depth: nat,
) -> Result<Seq<Val>, (int, Seq<char>)>
    decreases depth, 2int, rows.len() - i,
{
    if i < 0 || i >= rows.len() {
        Ok(Seq::empty())
    } else if blank(rows[i]) {
        records_from(rows, i + 1, keys, types, dot_key, o, depth)
    } else {
        match record_from(rows[i], 0, Val::Obj(Seq::empty()), keys, types, dot_key, o, depth) {
            Err(m) => Err((i + 1, m)),
            Ok(r) => match records_from(rows, i + 1, keys, types, dot_key, o, depth) {
                Ok(rest) => Ok(seq![r] + rest),
                Err(e) => Err(e),
            },
        }
    }
}

/// The `db` layout: the first non-blank row holds the keys, the row
/// right after it the type ids (checked up front; an absent row is all
/// `auto`), and every later non-blank row is one record object.
pub open spec fn db_table(
    rows: Seq<Seq<Seq<char>>>,
    dot_key: bool,
    o: spec_fn(Seq<char>, Seq<char>) -> Option<Val>,
    depth: nat,
) -> Result<Val, (int, Seq<char>)>
    decreases depth, 3int, 0int,
{
    let h = first_nonblank(rows, 0);
    if h >= rows.len() {
        Ok(Val::Arr(Seq::empty()))
    } else {
        let keys = rows[h];
        let types = if h + 1 < rows.len() {
            rows[h + 1]
        } else {
            Seq::empty()
        };
        match bad_type_col(types, 0) {
            Some(c) => Err((h + 2, type_row_msg(trim(types[c])))),
            None => match records_from(rows, h + 2, keys, types, dot_key, o, depth) {
                Ok(recs) => Ok(Val::Arr(recs)),
                Err(e) => Err(e),
            },
        }
    }
}

/// A row grid under a layout, with `csv` cells at most `depth` levels deep.
pub open spec fn table_in(
    rows: Seq<Seq<Seq<char>>>,
    layout: TableLayout,
    dot_key: bool,
    o: spec_fn(Seq<char>, Seq<char>) -> Option<Val>,
    depth: nat,
) -> Result<Val, (int, Seq<char>)>
    decreases depth, 4int, 0int,
{
    match layout {
        TableLayout::Kv => kv_from(rows, 0, Val::Obj(Seq::empty()), dot_key, o, depth),
        TableLayout::Db => db_table(rows, dot_key, o, depth),
    }
}

/// A row grid under a layout.
pub open spec fn table_spec(
    rows: Seq<Seq<Seq<char>>>,
    layout: TableLayout,
    dot_key: bool,
    o: spec_fn(Seq<char>, Seq<char>) -> Option<Val>,
) -> Result<Val, (int, Seq<char>)> {
    table_in(rows, layout, dot_key, o, CSV_NESTING as nat)
}

// ---------------------------------------------------------------------
// Layouts (executable)
// ---------------------------------------------------------------------

/// A string without surrounding white space.
pub fn trim_str(s: &str) -> (r: String)
    ensures
        r@ == trim(s@),
{
    let c = chars_of(s);
    let t = trimmed(c.as_slice());
    string_of(t.as_slice())
}

/// Whether every cell of a row is empty.
fn is_blank(cells: &Vec<String>) -> (r: bool)
    ensures
        r == blank(cells_view(*cells)),
{
    let mut j: usize = 0;
    while j < cells.len()
        invariant
            j <= cells@.len(),
            forall|k: int| 0 <= k < j ==> (#[trigger] cells@[k])@.len() == 0,
        decreases cells@.len() - j,
    {
        if cells[j].as_str().is_empty() {
            j = j + 1;
        } else {
            assert(cells_view(*cells)[j as int] == cells@[j as int]@);
            return false;
        }
    }
    assert forall|k: int| 0 <= k < cells_view(*cells).len() implies (#[trigger] cells_view(*cells)[k]).len() == 0 by {
        assert(cells_view(*cells)[k] == cells@[k]@);
    }
    true
}

/// The `kv` layout.
fn parse_kv<X: Fn(&str, &str) -> Option<Value>>(
    rows: &Vec<Vec<String>>,
    dot_key: bool,
    depth: usize,
    x: &X,
) -> (r: Result<Value, (usize, String)>)
    requires
        hook_ok(*x),
    ensures
        match kv_from(rows_view(rows@), 0, Val::Obj(Seq::empty()), dot_key, hook_of(*x), depth as nat) {
            Ok(v) => r matches Ok(w) && w@ == v && wf(w@),
            Err((row, m)) => r matches Err((n, s)) && n == row && s@ == m,
        },
    decreases depth, 4usize, 0usize,
{
    let ghost rv = rows_view(rows@);
    let ghost o = hook_of(*x);
    let mut acc = Value::Object(Vec::new());
    assert(acc@ == Val::Obj(Seq::empty())) by {
        assert(crate::value::view_entries(Seq::<(String, Value)>::empty()) =~= Seq::<(Seq<char>, Val)>::empty());
    }
    let mut i: usize = 0;
    while i < rows.len()
        invariant
            i <= rows@.len(),
            rv == rows_view(rows@),
            rv.len() == rows@.len(),
            o == hook_of(*x),
            hook_ok(*x),
            wf(acc@),
            kv_from(rv, 0, Val::Obj(Seq::empty()), dot_key, o, depth as nat) == kv_from(rv, i as int, acc@, dot_key, o, depth as nat),
        decreases rows@.len() - i,
    {
        let cells = &rows[i];
        assert(rv[i as int] == cells_view(*cells));
        if is_blank(cells) {
            i = i + 1;
        } else if cells.len() < 2 {
            let mut m = String::new();
            push_str(&mut m, "missing value cell");
            return Err((i + 1, m));
        } else {
            let declared = if cells.len() > 2 {
                assert(rv[i as int][2] == cells@[2]@);
                trim_str(cells[2].as_str())
            } else {
                String::new()
            };
            assert(rv[i as int][1] == cells@[1]@);
            assert(rv[i as int][0] == cells@[0]@);
            match convert_at(cells[1].as_str(), declared.as_str(), dot_key, depth, x) {
                Err(m) => {
                    return Err((i + 1, m));
                },
                Ok(v) => {
                    let key = trim_str(cells[0].as_str());
                    insert_key(&mut acc, key.as_str(), v, dot_key);
                    i = i + 1;
                },
            }
        }
    }
    Ok(acc)
}

/// One `db` record.
fn parse_record<X: Fn(&str, &str) -> Option<Value>>(
    cells: &Vec<String>,
    keys: &Vec<String>,
    types: &Vec<String>,
    dot_key: bool,
    depth: usize,
    x: &X,
) -> (r: Result<Value, String>)
    requires
        hook_ok(*x),
    ensures
        match record_from(cells_view(*cells), 0, Val::Obj(Seq::empty()), cells_view(*keys), cells_view(*types), dot_key, hook_of(*x), depth as nat) {
            Ok(v) => r matches Ok(w) && w@ == v && wf(w@),
            Err(m) => r matches Err(s) && s@ == m,
        },
    decreases depth, 2usize, 0usize,
{
    let ghost cv = cells_view(*cells);
    let ghost kv = cells_view(*keys);
    let ghost tv = cells_view(*types);
    let ghost o = hook_of(*x);
    let mut acc = Value::Object(Vec::new());
    assert(acc@ == Val::Obj(Seq::empty())) by {
        assert(crate::value::view_entries(Seq::<(String, Value)>::empty()) =~= Seq::<(Seq<char>, Val)>::empty());
    }
    let mut c: usize = 0;
    while c < cells.len()
        invariant
            c <= cells@.len(),
            cv == cells_view(*cells),
            kv == cells_view(*keys),
            tv == cells_view(*types),
            o == hook_of(*x),
            hook_ok(*x),
            wf(acc@),
            record_from(cv, 0, Val::Obj(Seq::empty()), kv, tv, dot_key, o, depth as nat) == record_from(cv, c as int, acc@, kv, tv, dot_key, o, depth as nat),
        decreases cells@.len() - c,
    {
        let key = if c < keys.len() {
            assert(kv[c as int] == keys@[c as int]@);
            trim_str(keys[c].as_str())
        } else {
            String::new()
        };
        assert(cv[c as int] == cells@[c as int]@);
        if key.as_str().is_empty() || cells[c].as_str().is_empty() {
            c = c + 1;
        } else {
            let ty = if c < types.len() {
                assert(tv[c as int] == types@[c as int]@);
                trim_str(types[c].as_str())
            } else {
                String::new()
            };
            match convert_at(cells[c].as_str(), ty.as_str(), dot_key, depth, x) {
                Err(m) => {
                    return Err(m);
                },
                Ok(v) => {
                    insert_key(&mut acc, key.as_str(), v, dot_key);
                    c = c + 1;
                },
            }
        }
    }
    Ok(acc)
}

/// The first unknown type id of a `db` type row, as its message.
fn check_types(types: &Vec<String>) -> (r: Option<String>)
    ensures
        match bad_type_col(cells_view(*types), 0) {
            None => r is None,
            Some(c) => r matches Some(m) && m@ == type_row_msg(trim(cells_view(*types)[c])),
        },
{
    let ghost tv = cells_view(*types);
    let mut c: usize = 0;
    while c < types.len()
        invariant
            c <= types@.len(),
            tv == cells_view(*types),
            bad_type_col(tv, 0) == bad_type_col(tv, c as int),
        decreases types@.len() - c,
    {
        assert(tv[c as int] == types@[c as int]@);
        let t = trim_str(types[c].as_str());
        let tc = chars_of(t.as_str());
        if !type_known(tc.as_slice()) {
            let mut m = String::new();
            push_str(&mut m, "unknown or disabled type '");
            push_str(&mut m, t.as_str());
            push_str(&mut m, "' in the type row (a kv table? name the kv layout)");
            return Some(m);
        }
        c = c + 1;
    }
    None
}

/// The `db` records from row `start` on.
fn parse_records<X: Fn(&str, &str) -> Option<Value>>(
    rows: &Vec<Vec<String>>,
    start_row: usize,
    keys: &Vec<String>,
    types: &Vec<String>,
    dot_key: bool,
    depth: usize,
    x: &X,
) -> (r: Result<Value, (usize, String)>)
    requires
        hook_ok(*x),
    ensures
        match records_from(rows_view(rows@), start_row as int, cells_view(*keys), cells_view(*types), dot_key, hook_of(*x), depth as nat) {
            Ok(recs) => r matches Ok(w) && w@ == Val::Arr(recs) && wf(w@),
            Err((row, m)) => r matches Err((n, s)) && n == row && s@ == m,
        },
    decreases depth, 3usize, 0usize,
{
    let ghost d = depth as nat;
    let ghost rv = rows_view(rows@);
    let ghost o = hook_of(*x);
    let ghost tv = cells_view(*types);
    let n = rows.len();
    let mut recs: Vec<Value> = Vec::new();
    let mut i: usize = start_row;
    let ghost start = start_row as int;
    let ghost kv = cells_view(*keys);
    assert(view_items(recs@) =~= Seq::<Val>::empty());
    assert(records_from(rv, start, kv, tv, dot_key, o, d) == match records_from(rv, start, kv, tv, dot_key, o, d) {
        Ok(rest) => Ok(Seq::<Val>::empty() + rest),
        Err(e) => Err(e),
    }) by {
        if let Ok(rest) = records_from(rv, start, kv, tv, dot_key, o, d) {
            assert(Seq::<Val>::empty() + rest =~= rest);
        }
    }
    while i < n
        invariant
            start_row <= i,
            start == start_row as int,
            d == depth as nat,
            i <= n || i == start_row,
            n == rows@.len(),
            rv == rows_view(rows@),
            kv == cells_view(*keys),
            tv == cells_view(*types),
            o == hook_of(*x),
            hook_ok(*x),
            records_from(rv, start, kv, tv, dot_key, o, d) == match records_from(rv, i as int, kv, tv, dot_key, o, d) {
                Ok(rest) => Ok(view_items(recs@) + rest),
                Err(e) => Err(e),
            },
            forall|k: int| 0 <= k < recs@.len() ==> wf(#[trigger] recs@[k]@),
        decreases n - i,
    {
        let cells = &rows[i];
        assert(rv[i as int] == cells_view(*cells));
        if is_blank(cells) {
            i = i + 1;
        } else {
            match parse_record(cells, keys, types, dot_key, depth, x) {
                Err(m) => {
                    assert(records_from(rv, i as int, kv, tv, dot_key, o, d) == Err::<Seq<Val>, (int, Seq<char>)>((i + 1, m@)));
                    assert(records_from(rv, start, kv, tv, dot_key, o, d) == Err::<Seq<Val>, (int, Seq<char>)>((i + 1, m@)));
                    return Err((i + 1, m));
                },
                Ok(rec) => {
                    proof {
                        lemma_view_items(recs@);
                    }
                    let ghost before = view_items(recs@);
                    recs.push(rec);
                    proof {
                        lemma_view_items(recs@);
                        assert(view_items(recs@) =~= before.push(rec@));
                        if let Ok(rest) = records_from(rv, i + 1, kv, tv, dot_key, o, d) {
                            assert(before + (seq![rec@] + rest) =~= before.push(rec@) + rest);
                        }
                    }
                    i = i + 1;
                },
            }
        }
    }
    proof {
        assert(records_from(rv, i as int, kv, tv, dot_key, o, d) == Ok::<Seq<Val>, (int, Seq<char>)>(Seq::empty()));
        lemma_view_items(recs@);
        assert(view_items(recs@) + Seq::<Val>::empty() =~= view_items(recs@));
        lemma_items_wf(view_items(recs@));
    }
    Ok(Value::Array(recs))
}

/// The `db` layout.
fn parse_db<X: Fn(&str, &str) -> Option<Value>>(
    rows: &Vec<Vec<String>>,
    dot_key: bool,
    depth: usize,
    x: &X,
) -> (r: Result<Value, (usize, String)>)
    requires
        hook_ok(*x),
    ensures
        match db_table(rows_view(rows@), dot_key, hook_of(*x), depth as nat) {
            Ok(v) => r matches Ok(w) && w@ == v && wf(w@),
            Err((row, m)) => r matches Err((n, s)) && n == row && s@ == m,
        },
    decreases depth, 4usize, 0usize,
{
    let ghost rv = rows_view(rows@);
    let ghost o = hook_of(*x);
    let n = rows.len();
    let mut h: usize = 0;
    while h < n && is_blank(&rows[h])
        invariant
            h <= n == rows@.len(),
            rv == rows_view(rows@),
            first_nonblank(rv, h as int) == first_nonblank(rv, 0),
        decreases n - h,
    {
        assert(rv[h as int] == cells_view(rows@[h as int]));
        h = h + 1;
    }
    if h < n {
        assert(rv[h as int] == cells_view(rows@[h as int]));
    }
    if h >= n {
        let empty: Vec<Value> = Vec::new();
        proof {
            lemma_view_items(empty@);
            assert(view_items(empty@) =~= Seq::<Val>::empty());
            lemma_items_wf(view_items(empty@));
        }
        return Ok(Value::Array(empty));
    }
    let keys = &rows[h];
    let none: Vec<String> = Vec::new();
    let types: &Vec<String> = if h + 1 < n {
        assert(rv[h + 1] == cells_view(rows@[h + 1]));
        &rows[h + 1]
    } else {
        assert(cells_view(none) =~= Seq::<Seq<char>>::empty());
        &none
    };
    let ghost tv = cells_view(*types);
    if let Some(m) = check_types(types) {
        assert(tv.len() > 0);
        return Err((h + 2, m));
    }
    let start = if h + 1 < n { h + 2 } else { n };
    assert(records_from(rv, start as int, cells_view(*keys), tv, dot_key, o, depth as nat) == records_from(rv, h + 2, cells_view(*keys), tv, dot_key, o, depth as nat));
    parse_records(rows, start, keys, types, dot_key, depth, x)
}

/// A row grid under a layout, with `csv` cells at most `depth` levels
/// deep; an error carries its 1-based row.
fn parse_table_at<X: Fn(&str, &str) -> Option<Value>>(
    rows: &Vec<Vec<String>>,
    layout: &TableLayout,
    dot_key: bool,
    depth: usize,
    x: &X,
) -> (r: Result<Value, (usize, String)>)
    requires
        hook_ok(*x),
    ensures
        match table_in(rows_view(rows@), *layout, dot_key, hook_of(*x), depth as nat) {
            Ok(v) => r matches Ok(w) && w@ == v && wf(w@),
            Err((row, m)) => r matches Err((n, s)) && n == row && s@ == m,
        },
    decreases depth, 5usize, 0usize,
{
    match layout {
        TableLayout::Kv => parse_kv(rows, dot_key, depth, x),
        TableLayout::Db => parse_db(rows, dot_key, depth, x),
    }
}

/// The generic table stage: interpret a plain row grid under a layout
/// (`path` labels errors). `x` is the hook to the outside parsers.
pub fn parse_table<X: Fn(&str, &str) -> Option<Value>>(
    rows: Vec<Vec<String>>,
    layout: &TableLayout,
    path: &str,
    dot_key: bool,
    x: &X,
) -> (r: Result<Value, Error>)
    requires
        hook_ok(*x),
    ensures
        match table_spec(rows_view(rows@), *layout, dot_key, hook_of(*x)) {
            Ok(v) => r matches Ok(w) && w@ == v && wf(w@),
            Err((row, m)) => r matches Err(Error::Table { path: p, row: n, message }) && p@ == path@
                && n == row && message@ == m,
        },
{
    match parse_table_at(&rows, layout, dot_key, CSV_NESTING, x) {
        Ok(v) => Ok(v),
        Err((row, message)) => Err(Error::Table { path: path.to_owned(), row, message }),
    }
}

} // verus!
