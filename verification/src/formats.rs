//! The line- and row-based text formats: env files (`KEY=VALUE`), INI
//! (`key = value` with `[section]` headers) and CSV (rows handed to the
//! table stage).

use vstd::prelude::*;

use crate::docs::{document_spec, parse_document};
use crate::error::Error;
use crate::loader::Claim;
use crate::keys::{char_seqs, insert_key, insert_key_spec, lemma_plain_key_either_way, split_chars, split_on};
use crate::merge::{merge_entries, upsert, lemma_index_of, lemma_set_key_sorted, lemma_set_key_wf, locate, set_key, set_entry};
use crate::options::{Format, TableLayout, format_id_spec};
use crate::table::{hook_of, hook_ok, parse_table, rows_view, table_spec};
use crate::text::{chars_of, decimal, is_ws, push_decimal, push_str, string_of, to_vec, trim, trimmed, ws_end, ws_start, ws};
use crate::valid::{find, find_char, lemma_find_char};
use crate::value::{TextKind, Val, Value, entries_wf, keys_sorted, lemma_entries_wf, lemma_view_entries, lemma_view_entries_ext, view_entries, wf};

verus! {

// ---------------------------------------------------------------------
// env
// ---------------------------------------------------------------------

/// `s` starts with `p`.
pub open spec fn starts_with(s: Seq<char>, p: Seq<char>) -> bool {
    s.len() >= p.len() && s.subrange(0, p.len() as int) == p
}

/// `s` without leading white space.
pub open spec fn trim_start(s: Seq<char>) -> Seq<char> {
    s.subrange(ws_end(s, 0), s.len() as int)
}

/// One pair of matching single or double quotes stripped.
pub open spec fn unquote_spec(v: Seq<char>) -> Seq<char> {
    if v.len() >= 2 && (v[0] == '"' || v[0] == '\'') && v.last() == v[0] {
        v.subrange(1, v.len() - 1)
    } else {
        v
    }
}

/// A line with an optional `export ` prefix removed.
pub open spec fn unexported(l: Seq<char>) -> Seq<char> {
    if starts_with(l, "export "@) {
        trim_start(l.subrange(7, l.len() as int))
    } else {
        trim_start(l)
    }
}

/// The env lines from `i` on, merged into `acc`: blank lines and `#`
/// comments skip, an optional `export ` prefix goes, lines without `=`
/// or with an empty key skip, and each value (trimmed, one pair of
/// quotes stripped) goes in as a string under its trimmed key.
pub open spec fn env_from(lines: Seq<Seq<char>>, i: int, acc: Val, dot_key: bool) -> Val
    decreases lines.len() - i,
{
    if i < 0 || i >= lines.len() {
        acc
    } else {
        let l = trim(lines[i]);
        if l.len() == 0 || l[0] == '#' {
            env_from(lines, i + 1, acc, dot_key)
        } else {
            let l2 = unexported(l);
            match find_char(l2, '=', 0) {
                None => env_from(lines, i + 1, acc, dot_key),
                Some(p) => {
                    let key = trim(l2.subrange(0, p));
                    if key.len() == 0 {
                        env_from(lines, i + 1, acc, dot_key)
                    } else {
                        let value = unquote_spec(trim(l2.subrange(p + 1, l2.len() as int)));
                        env_from(
                            lines,
                            i + 1,
                            insert_key_spec(acc, key, Val::Text(TextKind::Str, value), dot_key),
                            dot_key,
                        )
                    }
                },
            }
        }
    }
}

/// The env file `text`: all values strings, no interpolation.
pub open spec fn env_spec(text: Seq<char>, dot_key: bool) -> Val {
    env_from(split_on(text, '\n'), 0, Val::Obj(Seq::empty()), dot_key)
}

/// Strip one pair of matching single or double quotes.
pub fn unquote(v: &[char]) -> (r: Vec<char>)
    ensures
        r@ == unquote_spec(v@),
{
    let n = v.len();
    if n >= 2 && (v[0] == '"' || v[0] == '\'') && v[n - 1] == v[0] {
        let r = to_vec(&v[1..n - 1]);
        r
    } else {
        to_vec(v)
    }
}

/// A line's text past an optional `export ` prefix, leading white space
/// skipped.
fn strip_export(l: &[char]) -> (r: Vec<char>)
    ensures
        r@ == unexported(l@),
{
    proof {
        reveal_strlit("export ");
    }
    let n = l.len();
    let prefixed = n >= 7 && crate::text::spells(&l[0..7], "export ");
    let from: usize = if prefixed { 7 } else { 0 };
    let rest = to_vec(&l[from..n]);
    let mut s: usize = 0;
    while s < rest.len() && ws(rest[s])
        invariant
            s <= rest@.len(),
            ws_end(rest@, s as int) == ws_end(rest@, 0),
        decreases rest@.len() - s,
    {
        s = s + 1;
    }
    let r = to_vec(&rest[s..rest.len()]);
    proof {
        if !prefixed {
            assert(rest@ =~= l@);
        }
    }
    r
}

// ---------------------------------------------------------------------
// Laws of the line formats
// ---------------------------------------------------------------------

/// An ASCII letter, digit or `_`: a plain key character.
pub open spec fn word_char(c: char) -> bool {
    ('a' <= c && c <= 'z') || ('A' <= c && c <= 'Z') || ('0' <= c && c <= '9') || c == '_'
}

/// A text without white space at either end is its own trimmed form.
proof fn lemma_trim_same(s: Seq<char>)
    requires
        s.len() == 0 || (!is_ws(s[0]) && !is_ws(s[s.len() - 1])),
    ensures
        trim(s) == s,
{
    assert(s.subrange(0, s.len() as int) =~= s);
}

/// `k=v` as one line: what precedes the first `=` and what follows it.
#[verifier::spinoff_prover]
proof fn lemma_key_line(k: Seq<char>, v: Seq<char>)
    requires
        k.len() > 0,
        forall|i: int| 0 <= i < k.len() ==> word_char(#[trigger] k[i]),
        forall|i: int| 0 <= i < v.len() ==> #[trigger] v[i] != '\n',
        v.len() == 0 || (!is_ws(v[0]) && !is_ws(v[v.len() - 1])),
    ensures
        split_on(k + "="@ + v, '\n') == seq![k + "="@ + v],
        trim(k + "="@ + v) == k + "="@ + v,
        (k + "="@ + v)[0] == k[0],
        find_char(k + "="@ + v, '=', 0) == Some(k.len() as int),
        (k + "="@ + v).subrange(0, k.len() as int) == k,
        (k + "="@ + v).subrange(k.len() as int + 1, (k + "="@ + v).len() as int) == v,
        trim(k) == k,
        trim(v) == v,
        find_char(k, '.', 0) is None,
        find_char(k, '[', 0) is None,
{
    reveal_strlit("=");
    let t = k + "="@ + v;
    let n = k.len() as int;
    assert(t[n] == '=');
    assert forall|i: int| 0 <= i < n implies #[trigger] t[i] == k[i] by {}
    assert forall|i: int| n < i < t.len() implies #[trigger] t[i] == v[i - n - 1] by {}
    lemma_find_char(t, '\n', 0);
    if let Some(i) = find_char(t, '\n', 0) {
        if i < n {
            assert(word_char(k[i]));
        } else if i > n {
            assert(v[i - n - 1] != '\n');
        }
    }
    lemma_find_char(t, '=', 0);
    if let Some(i) = find_char(t, '=', 0) {
        if i < n {
            assert(word_char(k[i]));
        }
        if i > n {
            assert(t[n] != '=');
        }
    }
    lemma_find_char(k, '.', 0);
    if let Some(i) = find_char(k, '.', 0) {
        assert(word_char(k[i]));
    }
    lemma_find_char(k, '[', 0);
    if let Some(i) = find_char(k, '[', 0) {
        assert(word_char(k[i]));
    }
    assert(word_char(k[0]) && word_char(k[n - 1]));
    lemma_trim_same(k);
    lemma_trim_same(v);
    if v.len() > 0 {
        assert(t[t.len() - 1] == v[v.len() - 1]);
    } else {
        assert(t[t.len() - 1] == '=');
    }
    lemma_trim_same(t);
    assert(t.subrange(0, n) =~= k);
    assert(t.subrange(n + 1, t.len() as int) =~= v);
}

/// An env line `KEY=REST` with a plain key: the value stored under the
/// key is the whole rest of the line after the first `=` — further `=`
/// signs included — as long as it has no surrounding blanks or quotes.
#[verifier::spinoff_prover]
pub proof fn lemma_env_line(k: Seq<char>, v: Seq<char>, dot_key: bool)
    requires
        k.len() > 0,
        forall|i: int| 0 <= i < k.len() ==> word_char(#[trigger] k[i]),
        forall|i: int| 0 <= i < v.len() ==> #[trigger] v[i] != '\n',
        v.len() == 0 || (!is_ws(v[0]) && !is_ws(v[v.len() - 1])),
        !(v.len() >= 2 && (v[0] == '"' || v[0] == '\'') && v[v.len() - 1] == v[0]),
    ensures
        env_spec(k + "="@ + v, dot_key) == Val::Obj(seq![(k, Val::Text(TextKind::Str, v))]),
{
    reveal_strlit("export ");
    reveal_strlit("=");
    let t = k + "="@ + v;
    let n = k.len() as int;
    lemma_key_line(k, v);
    assert(t[n] == '=');
    assert(!starts_with(t, "export "@)) by {
        if starts_with(t, "export "@) {
            let j = if n < 6 { n } else { 6 };
            assert(t.subrange(0, 7)[j] == "export "@[j]);
            if n > 6 {
                assert(word_char(k[6]));
            }
        }
    }
    assert(ws_end(t, 0) == 0) by {
        assert(word_char(k[0]));
    }
    assert(t.subrange(0, t.len() as int) =~= t);
    assert(unexported(t) == t);
    assert(word_char(k[0]));
    let x = Val::Text(TextKind::Str, v);
    let root = Val::Obj(Seq::<(Seq<char>, Val)>::empty());
    assert(merge_entries(Seq::empty(), seq![(k, x)]) == seq![(k, x)]) by {
        let es = Seq::<(Seq<char>, Val)>::empty();
        assert(seq![(k, x)].subrange(1, 1) =~= Seq::<(Seq<char>, Val)>::empty());
        assert(upsert(es, k, x) =~= seq![(k, x)]);
    }
    assert(insert_key_spec(root, k, x, false) == Val::Obj(seq![(k, x)]));
    lemma_plain_key_either_way(root, k, x);
    assert(insert_key_spec(root, k, x, dot_key) == Val::Obj(seq![(k, x)]));
    let lines = seq![t];
    let done = Val::Obj(seq![(k, x)]);
    assert(env_from(lines, 1, done, dot_key) == done);
    assert(trim(lines[0]) == t);
    assert(unquote_spec(trim(t.subrange(n + 1, t.len() as int))) == v);
    assert(env_from(lines, 0, root, dot_key) == env_from(lines, 1, insert_key_spec(root, k, x, dot_key), dot_key));
}

/// Skipping white space from `i` stops at the first non-blank.
proof fn lemma_ws_end_run(s: Seq<char>, i: int, stop: int)
    requires
        0 <= i <= stop < s.len(),
        forall|j: int| i <= j < stop ==> is_ws(#[trigger] s[j]),
        !is_ws(s[stop]),
    ensures
        ws_end(s, i) == stop,
    decreases stop - i,
{
    if i < stop {
        lemma_ws_end_run(s, i + 1, stop);
    }
}

/// Dropping trailing white space from `j` stops after the last
/// non-blank.
proof fn lemma_ws_start_run(s: Seq<char>, lo: int, j: int, stop: int)
    requires
        lo < stop <= j <= s.len(),
        forall|i: int| stop <= i < j ==> is_ws(#[trigger] s[i]),
        !is_ws(s[stop - 1]),
    ensures
        ws_start(s, lo, j) == stop,
    decreases j - stop,
{
    if j > stop {
        lemma_ws_start_run(s, lo, j - 1, stop);
    }
}

/// Spaces around a text without blanks at its ends trim away.
proof fn lemma_trim_spaces(a: Seq<char>, x: Seq<char>, b: Seq<char>)
    requires
        x.len() > 0,
        !is_ws(x[0]),
        !is_ws(x[x.len() - 1]),
        forall|i: int| 0 <= i < a.len() ==> #[trigger] a[i] == ' ',
        forall|i: int| 0 <= i < b.len() ==> #[trigger] b[i] == ' ',
    ensures
        trim(a + x + b) == x,
{
    let s = a + x + b;
    let p = a.len() as int;
    let q = p + x.len();
    assert forall|j: int| 0 <= j < p implies is_ws(#[trigger] s[j]) by {
        assert(s[j] == a[j]);
    }
    assert(s[p] == x[0]);
    lemma_ws_end_run(s, 0, p);
    assert forall|j: int| q <= j < s.len() implies is_ws(#[trigger] s[j]) by {
        assert(s[j] == b[j - q]);
    }
    assert(s[q - 1] == x[x.len() - 1]);
    lemma_ws_start_run(s, p, s.len() as int, q);
    assert(s.subrange(p, q) =~= x);
}

/// `k`, spaces, `=`, spaces, `v` as one line: what precedes the first
/// `=` and what follows it.
#[verifier::spinoff_prover]
#[verifier::rlimit(60)]
proof fn lemma_spaced_line(k: Seq<char>, a: Seq<char>, b: Seq<char>, v: Seq<char>)
    requires
        k.len() > 0,
        forall|i: int| 0 <= i < k.len() ==> word_char(#[trigger] k[i]),
        forall|i: int| 0 <= i < a.len() ==> #[trigger] a[i] == ' ',
        forall|i: int| 0 <= i < b.len() ==> #[trigger] b[i] == ' ',
        v.len() > 0,
        forall|i: int| 0 <= i < v.len() ==> #[trigger] v[i] != '\n',
        !is_ws(v[0]) && !is_ws(v[v.len() - 1]),
    ensures
        split_on(k + a + "="@ + b + v, '\n') == seq![k + a + "="@ + b + v],
        trim(k + a + "="@ + b + v) == k + a + "="@ + b + v,
        (k + a + "="@ + b + v)[0] == k[0],
        ws_end(k + a + "="@ + b + v, 0) == 0,
        find_char(k + a + "="@ + b + v, '=', 0) == Some((k.len() + a.len()) as int),
        trim((k + a + "="@ + b + v).subrange(0, (k.len() + a.len()) as int)) == k,
        trim((k + a + "="@ + b + v).subrange((k.len() + a.len() + 1) as int, (k + a + "="@ + b + v).len() as int)) == v,
        find_char(k, '.', 0) is None,
        find_char(k, '[', 0) is None,
{
    reveal_strlit("=");
    let t = k + a + "="@ + b + v;
    let n = k.len() as int;
    let p = n + a.len();
    assert forall|i: int| 0 <= i < n implies #[trigger] t[i] == k[i] by {}
    assert forall|i: int| n <= i < p implies #[trigger] t[i] == a[i - n] by {}
    assert(t[p] == '=');
    assert forall|i: int| p < i <= p + b.len() implies #[trigger] t[i] == b[i - p - 1] by {}
    assert forall|i: int| p + b.len() < i < t.len() implies #[trigger] t[i] == v[i - p - 1 - b.len()] by {}
    assert(word_char(k[0]) && word_char(k[n - 1]));
    lemma_find_char(t, '\n', 0);
    if let Some(i) = find_char(t, '\n', 0) {
        if i < n {
            assert(word_char(k[i]));
        } else if i < p {
            assert(a[i - n] == ' ');
        } else if i > p && i <= p + b.len() {
            assert(b[i - p - 1] == ' ');
        } else if i > p + b.len() {
            assert(v[i - p - 1 - b.len()] != '\n');
        }
    }
    assert(t[t.len() - 1] == v[v.len() - 1]);
    lemma_trim_spaces(Seq::<char>::empty(), t, Seq::<char>::empty());
    assert(Seq::<char>::empty() + t + Seq::<char>::empty() =~= t);
    lemma_find_char(t, '=', 0);
    if let Some(i) = find_char(t, '=', 0) {
        if i < n {
            assert(word_char(k[i]));
        } else if i < p {
            assert(a[i - n] == ' ');
        }
        if i > p {
            assert(t[p] != '=');
        }
    }
    assert(t.subrange(0, p) =~= Seq::<char>::empty() + k + a);
    lemma_trim_spaces(Seq::<char>::empty(), k, a);
    assert(t.subrange(p + 1, t.len() as int) =~= b + v + Seq::<char>::empty());
    lemma_trim_spaces(b, v, Seq::<char>::empty());
    lemma_find_char(k, '.', 0);
    if let Some(i) = find_char(k, '.', 0) {
        assert(word_char(k[i]));
    }
    lemma_find_char(k, '[', 0);
    if let Some(i) = find_char(k, '[', 0) {
        assert(word_char(k[i]));
    }
}

/// A line starting with a plain key other than `export` has no `export `
/// prefix.
proof fn lemma_not_exported(k: Seq<char>, t: Seq<char>)
    requires
        k.len() > 0,
        forall|i: int| 0 <= i < k.len() ==> word_char(#[trigger] k[i]),
        k != "export"@,
        k.len() < t.len(),
        t.subrange(0, k.len() as int) == k,
        !word_char(t[k.len() as int]),
        t[k.len() as int] == ' ' || t[k.len() as int] == '=',
    ensures
        !starts_with(t, "export "@),
{
    reveal_strlit("export ");
    reveal_strlit("export");
    let n = k.len() as int;
    if starts_with(t, "export "@) {
        let j = if n < 6 { n } else { 6 };
        assert(t.subrange(0, 7)[j] == "export "@[j]);
        if n > 6 {
            assert(t[6] == t.subrange(0, n)[6]);
            assert(word_char(k[6]));
        }
        if n == 6 {
            assert forall|i: int| 0 <= i < 6 implies #[trigger] k[i] == "export"@[i] by {
                assert(t.subrange(0, 7)[i] == "export "@[i]);
                assert(t.subrange(0, n)[i] == t[i]);
            }
            assert(k =~= "export"@);
        }
    }
}

/// An env line `KEY = REST` with spaces around the `=`: the value is the
/// whole rest after the first `=` and its spaces, further `=` signs
/// included (no surrounding blanks or quotes in it). (A key `export`
/// followed by a space reads as the `export` prefix instead.)
#[verifier::spinoff_prover]
pub proof fn lemma_env_spaced(k: Seq<char>, a: Seq<char>, b: Seq<char>, v: Seq<char>, dot_key: bool)
    requires
        k.len() > 0,
        forall|i: int| 0 <= i < k.len() ==> word_char(#[trigger] k[i]),
        forall|i: int| 0 <= i < a.len() ==> #[trigger] a[i] == ' ',
        forall|i: int| 0 <= i < b.len() ==> #[trigger] b[i] == ' ',
        k != "export"@,
        v.len() > 0,
        forall|i: int| 0 <= i < v.len() ==> #[trigger] v[i] != '\n',
        !is_ws(v[0]) && !is_ws(v[v.len() - 1]),
        !(v.len() >= 2 && (v[0] == '"' || v[0] == '\'') && v[v.len() - 1] == v[0]),
    ensures
        env_spec(k + a + "="@ + b + v, dot_key) == Val::Obj(seq![(k, Val::Text(TextKind::Str, v))]),
{
    reveal_strlit("=");
    let t = k + a + "="@ + b + v;
    let n = k.len() as int;
    lemma_spaced_line(k, a, b, v);
    assert(t.subrange(0, n) =~= k);
    if a.len() > 0 {
        assert(t[n] == a[0]);
    } else {
        assert(t[n] == '=');
    }
    lemma_not_exported(k, t);
    assert(word_char(k[0]));
    assert(t.subrange(0, t.len() as int) =~= t);
    assert(unexported(t) == t);
    let x = Val::Text(TextKind::Str, v);
    let root = Val::Obj(Seq::<(Seq<char>, Val)>::empty());
    assert(merge_entries(Seq::empty(), seq![(k, x)]) == seq![(k, x)]) by {
        let es = Seq::<(Seq<char>, Val)>::empty();
        assert(seq![(k, x)].subrange(1, 1) =~= Seq::<(Seq<char>, Val)>::empty());
        assert(upsert(es, k, x) =~= seq![(k, x)]);
    }
    lemma_plain_key_either_way(root, k, x);
    let lines = seq![t];
    let done = Val::Obj(seq![(k, x)]);
    assert(env_from(lines, 1, done, dot_key) == done);
    assert(env_from(lines, 0, root, dot_key) == env_from(lines, 1, insert_key_spec(root, k, x, dot_key), dot_key));
}

/// An ini line `key = REST` outside any section, spaces around the `=`
/// optional: the string stored is the whole rest after the first `=`,
/// trimmed — further `=` signs included.
#[verifier::spinoff_prover]
pub proof fn lemma_ini_spaced(k: Seq<char>, a: Seq<char>, b: Seq<char>, v: Seq<char>)
    requires
        k.len() > 0,
        forall|i: int| 0 <= i < k.len() ==> word_char(#[trigger] k[i]),
        forall|i: int| 0 <= i < a.len() ==> #[trigger] a[i] == ' ',
        forall|i: int| 0 <= i < b.len() ==> #[trigger] b[i] == ' ',
        v.len() > 0,
        forall|i: int| 0 <= i < v.len() ==> #[trigger] v[i] != '\n',
        !is_ws(v[0]) && !is_ws(v[v.len() - 1]),
    ensures
        ini_spec(k + a + "="@ + b + v) == Ok::<Val, Seq<char>>(Val::Obj(seq![(k, Val::Text(TextKind::Str, v))])),
{
    let t = k + a + "="@ + b + v;
    lemma_spaced_line(k, a, b, v);
    assert(word_char(k[0]));
    let x = Val::Text(TextKind::Str, v);
    let es = Seq::<(Seq<char>, Val)>::empty();
    assert(set_key(es, k, x) =~= seq![(k, x)]);
    let lines = seq![t];
    assert(ini_from(lines, 1, seq![(k, x)], None) == Ok::<Seq<(Seq<char>, Val)>, int>(seq![(k, x)]));
    assert(!is_section(t));
    assert(ini_put(es, None, k, x) == seq![(k, x)]);
    assert(ini_from(lines, 0, es, None) == ini_from(lines, 1, ini_put(es, None, k, x), None));
}

/// A `[section]` header line over a `key = REST` line: the string stored
/// under the key inside the section's object is the whole rest after the
/// first `=`, trimmed — further `=` signs included.
#[verifier::spinoff_prover]
#[verifier::rlimit(90)]
pub proof fn lemma_ini_section(sec: Seq<char>, k: Seq<char>, a: Seq<char>, b: Seq<char>, v: Seq<char>)
    requires
        sec.len() > 0,
        forall|i: int| 0 <= i < sec.len() ==> word_char(#[trigger] sec[i]),
        k.len() > 0,
        forall|i: int| 0 <= i < k.len() ==> word_char(#[trigger] k[i]),
        forall|i: int| 0 <= i < a.len() ==> #[trigger] a[i] == ' ',
        forall|i: int| 0 <= i < b.len() ==> #[trigger] b[i] == ' ',
        v.len() > 0,
        forall|i: int| 0 <= i < v.len() ==> #[trigger] v[i] != '\n',
        !is_ws(v[0]) && !is_ws(v[v.len() - 1]),
    ensures
        ini_spec("["@ + sec + "]\n"@ + (k + a + "="@ + b + v)) == Ok::<Val, Seq<char>>(
            Val::Obj(seq![(sec, Val::Obj(seq![(k, Val::Text(TextKind::Str, v))]))]),
        ),
{
    reveal_strlit("[");
    reveal_strlit("]\n");
    let line = k + a + "="@ + b + v;
    let hdr = "["@ + sec + "]"@;
    let t = "["@ + sec + "]\n"@ + line;
    let h = hdr.len() as int;
    reveal_strlit("]");
    assert(hdr.len() == sec.len() + 2);
    assert forall|i: int| 0 <= i < h implies #[trigger] t[i] == hdr[i] by {}
    assert(t[h] == '\n');
    assert forall|i: int| 0 < i < h - 1 implies #[trigger] hdr[i] == sec[i - 1] by {}
    lemma_find_char(t, '\n', 0);
    if let Some(i) = find_char(t, '\n', 0) {
        if i < h {
            if 0 < i < h - 1 {
                assert(word_char(sec[i - 1]));
            }
        }
        if i > h {
            assert(t[h] != '\n');
        }
    }
    assert(t.subrange(0, h) =~= hdr);
    assert(t.subrange(h + 1, t.len() as int) =~= line);
    lemma_spaced_line(k, a, b, v);
    assert(split_on(t, '\n') == seq![hdr] + seq![line]);
    let lines = seq![hdr, line];
    assert(split_on(t, '\n') =~= lines);
    lemma_trim_spaces(Seq::<char>::empty(), hdr, Seq::<char>::empty());
    assert(Seq::<char>::empty() + hdr + Seq::<char>::empty() =~= hdr);
    assert(is_section(hdr));
    assert(hdr.subrange(1, h - 1) =~= sec);
    assert(word_char(sec[0]) && word_char(sec[sec.len() - 1]));
    lemma_trim_spaces(Seq::<char>::empty(), sec, Seq::<char>::empty());
    assert(Seq::<char>::empty() + sec + Seq::<char>::empty() =~= sec);
    assert(word_char(k[0]));
    let x = Val::Text(TextKind::Str, v);
    let es = Seq::<(Seq<char>, Val)>::empty();
    assert(set_key(es, k, x) =~= seq![(k, x)]);
    let inner = Val::Obj(seq![(k, x)]);
    assert(set_key(es, sec, inner) =~= seq![(sec, inner)]);
    assert(crate::value::lookup(es, sec) is None);
    assert(ini_put(es, Some(sec), k, x) == seq![(sec, inner)]);
    assert(!is_section(line));
    assert(ini_from(lines, 2, seq![(sec, inner)], Some(sec)) == Ok::<Seq<(Seq<char>, Val)>, int>(seq![(sec, inner)]));
    assert(lines[1] == line);
    assert(ini_from(lines, 1, es, Some(sec)) == ini_from(lines, 2, ini_put(es, Some(sec), k, x), Some(sec)));
    assert(lines[0] == hdr);
    assert(ini_from(lines, 0, es, None) == ini_from(lines, 1, es, Some(trim(hdr.subrange(1, h - 1)))));
}

/// An env line `KEY="REST"` (or single quotes): the value is the text
/// between the quotes, whatever it holds — `=` signs, blanks, `#`.
#[verifier::spinoff_prover]
pub proof fn lemma_env_quoted(k: Seq<char>, q: char, u: Seq<char>, dot_key: bool)
    requires
        k.len() > 0,
        forall|i: int| 0 <= i < k.len() ==> word_char(#[trigger] k[i]),
        q == '"' || q == '\'',
        forall|i: int| 0 <= i < u.len() ==> #[trigger] u[i] != '\n',
    ensures
        env_spec(k + "="@ + (seq![q] + u + seq![q]), dot_key) == Val::Obj(
            seq![(k, Val::Text(TextKind::Str, u))],
        ),
{
    reveal_strlit("export ");
    reveal_strlit("=");
    let v = seq![q] + u + seq![q];
    assert forall|i: int| 0 <= i < v.len() implies #[trigger] v[i] != '\n' by {
        if 0 < i < v.len() - 1 {
            assert(v[i] == u[i - 1]);
        }
    }
    assert(v[0] == q && v[v.len() - 1] == q);
    let t = k + "="@ + v;
    let n = k.len() as int;
    lemma_key_line(k, v);
    assert(t[n] == '=');
    assert(!starts_with(t, "export "@)) by {
        if starts_with(t, "export "@) {
            let j = if n < 6 { n } else { 6 };
            assert(t.subrange(0, 7)[j] == "export "@[j]);
            if n > 6 {
                assert(word_char(k[6]));
            }
        }
    }
    assert(ws_end(t, 0) == 0) by {
        assert(word_char(k[0]));
    }
    assert(t.subrange(0, t.len() as int) =~= t);
    assert(unexported(t) == t);
    assert(word_char(k[0]));
    assert(v.subrange(1, v.len() - 1) =~= u);
    assert(unquote_spec(v) == u);
    let x = Val::Text(TextKind::Str, u);
    let root = Val::Obj(Seq::<(Seq<char>, Val)>::empty());
    assert(merge_entries(Seq::empty(), seq![(k, x)]) == seq![(k, x)]) by {
        let es = Seq::<(Seq<char>, Val)>::empty();
        assert(seq![(k, x)].subrange(1, 1) =~= Seq::<(Seq<char>, Val)>::empty());
        assert(upsert(es, k, x) =~= seq![(k, x)]);
    }
    lemma_plain_key_either_way(root, k, x);
    let lines = seq![t];
    let done = Val::Obj(seq![(k, x)]);
    assert(env_from(lines, 1, done, dot_key) == done);
    assert(env_from(lines, 0, root, dot_key) == env_from(lines, 1, insert_key_spec(root, k, x, dot_key), dot_key));
}

/// An ini line `key=REST` outside any section: the string stored under
/// the key is the whole rest of the line after the first `=` — further
/// `=` signs included — as long as it has no surrounding blanks.
#[verifier::spinoff_prover]
pub proof fn lemma_ini_line(k: Seq<char>, v: Seq<char>)
    requires
        k.len() > 0,
        forall|i: int| 0 <= i < k.len() ==> word_char(#[trigger] k[i]),
        forall|i: int| 0 <= i < v.len() ==> #[trigger] v[i] != '\n',
        v.len() == 0 || (!is_ws(v[0]) && !is_ws(v[v.len() - 1])),
    ensures
        ini_spec(k + "="@ + v) == Ok::<Val, Seq<char>>(Val::Obj(seq![(k, Val::Text(TextKind::Str, v))])),
{
    let t = k + "="@ + v;
    lemma_key_line(k, v);
    assert(word_char(k[0]));
    let x = Val::Text(TextKind::Str, v);
    let es = Seq::<(Seq<char>, Val)>::empty();
    assert(set_key(es, k, x) =~= seq![(k, x)]);
    let lines = seq![t];
    let n = k.len() as int;
    assert(ini_from(lines, 1, seq![(k, x)], None) == Ok::<Seq<(Seq<char>, Val)>, int>(seq![(k, x)]));
    assert(trim(lines[0]) == t);
    assert(!is_section(t));
    assert(ini_put(es, None, k, x) == seq![(k, x)]);
    assert(ini_from(lines, 0, es, None) == ini_from(lines, 1, ini_put(es, None, k, x), None));
}

/// Parse an env file: `KEY=VALUE` lines, `#` comments, an optional
/// `export` prefix, quotes stripped; all values are strings.
pub fn parse_env(text: &str, dot_key: bool) -> (r: Value)
    ensures
        r@ == env_spec(text@, dot_key),
        wf(r@),
{
    let tc = chars_of(text);
    let lines = split_chars(tc.as_slice(), '\n');
    let ghost ls = char_seqs(lines@);
    let mut acc = Value::Object(Vec::new());
    assert(acc@ == Val::Obj(Seq::empty())) by {
        assert(view_entries(Seq::<(String, Value)>::empty()) =~= Seq::<(Seq<char>, Val)>::empty());
    }
    let mut i: usize = 0;
    while i < lines.len()
        invariant
            i <= lines@.len(),
            ls == char_seqs(lines@),
            ls.len() == lines@.len(),
            wf(acc@),
            env_from(ls, 0, Val::Obj(Seq::empty()), dot_key) == env_from(ls, i as int, acc@, dot_key),
        decreases lines@.len() - i,
    {
        assert(ls[i as int] == lines@[i as int]@);
        let l = trimmed(lines[i].as_slice());
        if l.len() == 0 || l[0] == '#' {
            i = i + 1;
        } else {
            let l2 = strip_export(l.as_slice());
            proof {
                lemma_find_char(l2@, '=', 0);
            }
            match find(l2.as_slice(), '=', 0) {
                None => {
                    i = i + 1;
                },
                Some(p) => {
                    let key = trimmed(&l2[0..p]);
                    if key.len() == 0 {
                        i = i + 1;
                    } else {
                        let n2 = l2.len();
                        assert(p < n2);
                        let v = trimmed(&l2[p + 1..n2]);
                        let v = unquote(v.as_slice());
                        let ks = string_of(key.as_slice());
                        let vs = string_of(v.as_slice());
                        insert_key(&mut acc, ks.as_str(), Value::String(vs), dot_key);
                        i = i + 1;
                    }
                },
            }
        }
    }
    acc
}

// ---------------------------------------------------------------------
// INI
// ---------------------------------------------------------------------

/// A `[section]` header line.
pub open spec fn is_section(l: Seq<char>) -> bool {
    l.len() >= 2 && l[0] == '[' && l.last() == ']'
}

/// `key = value` set into `root`: at the top level, or inside the
/// section's object (made when absent; a string in its place stays).
pub open spec fn ini_put(root: Seq<(Seq<char>, Val)>, section: Option<Seq<char>>, k: Seq<char>, v: Val) -> Seq<(Seq<char>, Val)> {
    match section {
        None => set_key(root, k, v),
        Some(name) => match crate::value::lookup(root, name) {
            None => set_key(root, name, Val::Obj(set_key(Seq::empty(), k, v))),
            Some(Val::Obj(m)) => set_key(root, name, Val::Obj(set_key(m, k, v))),
            Some(_) => root,
        },
    }
}

/// The lines from `i` on, into the top-level entries `root` under the
/// current `section`: blank lines and `;`/`#` comments skip, a header
/// opens a section (sections nest one level), and `key = value` lines
/// set a string; any other line is an error, by its 1-based number.
pub open spec fn ini_from(
    lines: Seq<Seq<char>>,
    i: int,
    root: Seq<(Seq<char>, Val)>,
    section: Option<Seq<char>>,
) -> Result<Seq<(Seq<char>, Val)>, int>
    decreases lines.len() - i,
{
    if i < 0 || i >= lines.len() {
        Ok(root)
    } else {
        let l = trim(lines[i]);
        if l.len() == 0 || l[0] == ';' || l[0] == '#' {
            ini_from(lines, i + 1, root, section)
        } else if is_section(l) {
            ini_from(lines, i + 1, root, Some(trim(l.subrange(1, l.len() - 1))))
        } else {
            match find_char(l, '=', 0) {
                None => Err(i + 1),
                Some(p) => {
                    let k = trim(l.subrange(0, p));
                    let v = Val::Text(TextKind::Str, trim(l.subrange(p + 1, l.len() as int)));
                    ini_from(lines, i + 1, ini_put(root, section, k, v), section)
                },
            }
        }
    }
}

/// The message of a line that is neither `key = value` nor a header.
pub open spec fn ini_msg(n: int) -> Seq<char> {
    "line "@ + decimal(n as nat) + ": expected 'key = value' or '[section]'"@
}

/// An INI document: an object of strings and one level of sections.
pub open spec fn ini_spec(text: Seq<char>) -> Result<Val, Seq<char>> {
    match ini_from(split_on(text, '\n'), 0, Seq::empty(), None) {
        Ok(root) => Ok(Val::Obj(root)),
        Err(n) => Err(ini_msg(n)),
    }
}

/// Set `key = value` into the top-level entries under a section.
fn ini_set(root: &mut Vec<(String, Value)>, section: &Option<Vec<char>>, k: String, v: String)
    requires
        keys_sorted(view_entries(old(root)@)),
        entries_wf(view_entries(old(root)@)),
    ensures
        view_entries(final(root)@) == ini_put(
            view_entries(old(root)@),
            match *section {
                Some(s) => Some(s@),
                None => None,
            },
            k@,
            Val::Text(TextKind::Str, v@),
        ),
        keys_sorted(view_entries(final(root)@)),
        entries_wf(view_entries(final(root)@)),
{
    let ghost er = view_entries(root@);
    let ghost kv = k@;
    let ghost vv = Val::Text(TextKind::Str, v@);
    proof {
        lemma_entries_wf(er);
    }
    match section {
        None => {
            proof {
                lemma_set_key_sorted(er, kv, vv);
                lemma_set_key_wf(er, kv, vv);
            }
            set_entry(root, k, Value::String(v));
        },
        Some(name) => {
            let name_s = string_of(name.as_slice());
            proof {
                lemma_view_entries(root@);
                crate::merge::lemma_lookup_cases(er, name_s@);
                lemma_index_of(er, name_s@);
            }
            let (pos, found) = locate(&*root, name_s.as_str());
            if found {
                let ghost before = root@;
                let (key, slot) = root.remove(pos);
                assert(er[pos as int] == (key@, slot@));
                assert(wf(er[pos as int].1));
                let ghost sv = slot@;
                let newslot = match slot {
                    Value::Object(m) => {
                        let mut m = m;
                        let ghost mv = view_entries(m@);
                        proof {
                            lemma_set_key_sorted(mv, kv, vv);
                            lemma_set_key_wf(mv, kv, vv);
                        }
                        set_entry(&mut m, k, Value::String(v));
                        Value::Object(m)
                    },
                    other => other,
                };
                let ghost nv = newslot@;
                assert(wf(nv));
                root.insert(pos, (key, newslot));
                proof {
                    lemma_view_entries(root@);
                    let want = er.update(pos as int, (name_s@, nv));
                    assert forall|j: int| 0 <= j < root@.len() implies (#[trigger] root@[j]).0@ == want[j].0
                        && root@[j].1@ == want[j].1 by {
                        if j != pos {
                            assert(root@[j] == before[j]);
                        }
                    }
                    lemma_view_entries_ext(root@, want);
                    lemma_set_key_sorted(er, name_s@, nv);
                    lemma_set_key_wf(er, name_s@, nv);
                    if !(sv is Obj) {
                        assert(want =~= er);
                    }
                }
            } else {
                let mut m: Vec<(String, Value)> = Vec::new();
                assert(view_entries(m@) =~= Seq::<(Seq<char>, Val)>::empty());
                proof {
                    lemma_set_key_sorted(Seq::<(Seq<char>, Val)>::empty(), kv, vv);
                    lemma_set_key_wf(Seq::<(Seq<char>, Val)>::empty(), kv, vv);
                }
                set_entry(&mut m, k, Value::String(v));
                let ghost nv = Val::Obj(view_entries(m@));
                proof {
                    lemma_set_key_sorted(er, name_s@, nv);
                    lemma_set_key_wf(er, name_s@, nv);
                }
                set_entry(root, name_s, Value::Object(m));
            }
        },
    }
}

/// Parse an INI document (`path` labels errors).
pub fn parse_ini(text: &str, path: &str) -> (r: Result<Value, Error>)
    ensures
        match ini_spec(text@) {
            Ok(v) => r matches Ok(w) && w@ == v && wf(w@),
            Err(m) => r matches Err(Error::Parse { path: p, message }) && p@ == path@ && message@ == m,
        },
{
    let tc = chars_of(text);
    let lines = split_chars(tc.as_slice(), '\n');
    let ghost ls = char_seqs(lines@);
    let mut root: Vec<(String, Value)> = Vec::new();
    let mut section: Option<Vec<char>> = None;
    assert(view_entries(root@) =~= Seq::<(Seq<char>, Val)>::empty());
    let mut i: usize = 0;
    while i < lines.len()
        invariant
            i <= lines@.len(),
            ls == char_seqs(lines@),
            ls == split_on(text@, '\n'),
            ls.len() == lines@.len(),
            keys_sorted(view_entries(root@)),
            entries_wf(view_entries(root@)),
            ini_from(ls, 0, Seq::empty(), None) == ini_from(
                ls,
                i as int,
                view_entries(root@),
                match section {
                    Some(s) => Some(s@),
                    None => None,
                },
            ),
        decreases lines@.len() - i,
    {
        assert(ls[i as int] == lines@[i as int]@);
        let ghost er = view_entries(root@);
        let l = trimmed(lines[i].as_slice());
        let n = l.len();
        if n == 0 || l[0] == ';' || l[0] == '#' {
            i = i + 1;
        } else if n >= 2 && l[0] == '[' && l[n - 1] == ']' {
            section = Some(trimmed(&l[1..n - 1]));
            i = i + 1;
        } else {
            proof {
                lemma_find_char(l@, '=', 0);
            }
            match find(l.as_slice(), '=', 0) {
                None => {
                    let mut m = String::new();
                    push_str(&mut m, "line ");
                    push_decimal(&mut m, (i + 1) as u64);
                    push_str(&mut m, ": expected 'key = value' or '[section]'");
                    return Err(Error::Parse { path: path.to_owned(), message: m });
                },
                Some(p) => {
                    let k = string_of(trimmed(&l[0..p]).as_slice());
                    let v = string_of(trimmed(&l[p + 1..n]).as_slice());
                    proof {
                        lemma_entries_wf(er);
                    }
                    ini_set(&mut root, &section, k, v);
                    i = i + 1;
                },
            }
        }
    }
    Ok(Value::Object(root))
}

// ---------------------------------------------------------------------
// CSV
// ---------------------------------------------------------------------

/// The records the `csv` crate reads from a text with a delimiter (no
/// header row, rows of any length), as field texts; or the message of
/// the error it stops at.
pub uninterp spec fn csv_records(text: Seq<char>, delimiter: u8) -> Result<Seq<Seq<Seq<char>>>, Seq<char>>;

/// Lower a CSV text to rows.
///
/// Trusted: reads `text` with `csv::ReaderBuilder` (`has_headers(false)`,
/// `flexible(true)`, the given delimiter) and collects each
/// `StringRecord`'s fields; a read error becomes its message. The
/// contract only names the outcome as a function of the text and the
/// delimiter.
#[verifier::external_body]
pub(crate) fn read_csv(text: &str, delimiter: u8) -> (r: Result<Vec<Vec<String>>, String>)
    ensures
        match r {
            Ok(rows) => csv_records(text@, delimiter) == Ok::<Seq<Seq<Seq<char>>>, Seq<char>>(rows_view(rows@)),
            Err(m) => csv_records(text@, delimiter) == Err::<Seq<Seq<Seq<char>>>, Seq<char>>(m@),
        },
{
    let mut reader = csv::ReaderBuilder::new().has_headers(false).flexible(true).delimiter(
        delimiter,
    ).from_reader(text.as_bytes());
    let mut rows: Vec<Vec<String>> = Vec::new();
    for record in reader.records() {
        match record {
            Ok(rec) => rows.push(rec.iter().map(str::to_owned).collect()),
            Err(e) => return Err(e.to_string()),
        }
    }
    Ok(rows)
}

/// The raw rows of a CSV text with a one-byte delimiter (what a custom
/// layout is handed), or the reader's message.
pub fn csv_rows(text: &str, delimiter: u8) -> (r: Result<Vec<Vec<String>>, String>)
    ensures
        match r {
            Ok(rows) => csv_records(text@, delimiter) == Ok::<Seq<Seq<Seq<char>>>, Seq<char>>(rows_view(rows@)),
            Err(m) => csv_records(text@, delimiter) == Err::<Seq<Seq<Seq<char>>>, Seq<char>>(m@),
        },
{
    read_csv(text, delimiter)
}

/// What a CSV text with this delimiter parses to under a layout: a read
/// error is a parse error, a cell error a table error.
pub open spec fn csv_outcome(
    text: Seq<char>,
    delimiter: u8,
    layout: TableLayout,
    dot_key: bool,
    o: spec_fn(Seq<char>, Seq<char>) -> Option<Val>,
) -> Result<Val, (Option<int>, Seq<char>)> {
    match csv_records(text, delimiter) {
        Err(m) => Err((None, m)),
        Ok(rows) => match table_spec(rows, layout, dot_key, o) {
            Ok(v) => Ok(v),
            Err((row, m)) => Err((Some(row), m)),
        },
    }
}

/// Parse a CSV text with an explicit one-byte delimiter under a layout
/// (`path` labels errors).
pub fn parse_csv_with<X: Fn(&str, &str) -> Option<Value>>(
    text: &str,
    delimiter: u8,
    layout: &TableLayout,
    path: &str,
    dot_key: bool,
    x: &X,
) -> (r: Result<Value, Error>)
    requires
        hook_ok(*x),
    ensures
        match csv_outcome(text@, delimiter, *layout, dot_key, hook_of(*x)) {
            Ok(v) => r matches Ok(w) && w@ == v && wf(w@),
            Err((None, m)) => r matches Err(Error::Parse { path: p, message }) && p@ == path@
                && message@ == m,
            Err((Some(row), m)) => r matches Err(Error::Table { path: p, row: n, message })
                && p@ == path@ && n == row && message@ == m,
        },
{
    match read_csv(text, delimiter) {
        Err(m) => Err(Error::Parse { path: path.to_owned(), message: m }),
        Ok(rows) => parse_table(rows, layout, path, dot_key, x),
    }
}

/// Parse a comma-separated text under a layout.
pub fn parse_csv<X: Fn(&str, &str) -> Option<Value>>(
    text: &str,
    layout: &TableLayout,
    path: &str,
    dot_key: bool,
    x: &X,
) -> (r: Result<Value, Error>)
    requires
        hook_ok(*x),
    ensures
        match csv_outcome(text@, 44u8, *layout, dot_key, hook_of(*x)) {
            Ok(v) => r matches Ok(w) && w@ == v && wf(w@),
            Err((None, m)) => r matches Err(Error::Parse { path: p, message }) && p@ == path@
                && message@ == m,
            Err((Some(row), m)) => r matches Err(Error::Table { path: p, row: n, message })
                && p@ == path@ && n == row && message@ == m,
        },
{
    parse_csv_with(text, 44u8, layout, path, dot_key, x)
}

// ---------------------------------------------------------------------
// Dispatch by format
// ---------------------------------------------------------------------

/// What a text parses to under a format: a binary format is refused
/// (file sources only), json, jsonc, yaml and toml are whole documents
/// (see `docs`), ini, env and csv parse here. An error without a row is a
/// parse error; one with a row, a table error.
pub open spec fn text_spec(
    format: Format,
    text: Seq<char>,
    layout: TableLayout,
    dot_key: bool,
    o: spec_fn(Seq<char>, Seq<char>) -> Option<Val>,
) -> Result<Val, (Option<int>, Seq<char>)> {
    match format {
        Format::Excel | Format::Ods => Err(
            (None, "'"@ + format_id_spec(format) + "' is a binary format \u{2014} file sources only"@),
        ),
        Format::Json | Format::Jsonc | Format::Yaml | Format::Toml => match document_spec(format, text, o) {
            Ok(v) => Ok(v),
            Err(m) => Err((None, m)),
        },
        Format::Ini => match ini_spec(text) {
            Ok(v) => Ok(v),
            Err(m) => Err((None, m)),
        },
        Format::Env => Ok(env_spec(text, dot_key)),
        Format::Csv => csv_outcome(text, 44u8, layout, dot_key, o),
    }
}

/// Parse a text under a format (`path` labels errors): the text
/// formats' single entry point.
pub fn parse_text<X: Fn(&str, &str) -> Option<Value>>(
    format: Format,
    text: &str,
    layout: &TableLayout,
    path: &str,
    dot_key: bool,
    x: &X,
) -> (r: Result<Value, Error>)
    requires
        hook_ok(*x),
    ensures
        match text_spec(format, text@, *layout, dot_key, hook_of(*x)) {
            Ok(v) => r matches Ok(w) && w@ == v && wf(w@),
            Err((None, m)) => r matches Err(Error::Parse { path: p, message }) && p@ == path@
                && message@ == m,
            Err((Some(row), m)) => r matches Err(Error::Table { path: p, row: n, message })
                && p@ == path@ && n == row && message@ == m,
        },
{
    match format {
        Format::Excel | Format::Ods => {
            let mut m = String::new();
            push_str(&mut m, "'");
            push_str(&mut m, format.id());
            push_str(&mut m, "' is a binary format \u{2014} file sources only");
            Err(Error::Parse { path: path.to_owned(), message: m })
        },
        Format::Json | Format::Jsonc | Format::Yaml | Format::Toml => match parse_document(format, text, x) {
            Ok(v) => Ok(v),
            Err(m) => Err(Error::Parse { path: path.to_owned(), message: m }),
        },
        Format::Ini => parse_ini(text, path),
        Format::Env => Ok(parse_env(text, dot_key)),
        Format::Csv => parse_csv(text, layout, path, dot_key, x),
    }
}

/// A user parser usable on every input: `(index, text, path)`, the index
/// being its place in the format list.
pub open spec fn custom_ok<C: Fn(usize, &str, &str) -> Result<Value, Error>>(c: C) -> bool {
    forall|i: usize, t: &str, p: &str| #[trigger] c.requires((i, t, p))
}

/// Parse a text under the format that claimed it: a built-in format as
/// [`parse_text`] does, a custom format by the user's parser, whose
/// answer is the result as it stands.
pub fn parse_claimed<X: Fn(&str, &str) -> Option<Value>, C: Fn(usize, &str, &str) -> Result<Value, Error>>(
    claim: Claim,
    text: &str,
    layout: &TableLayout,
    path: &str,
    dot_key: bool,
    x: &X,
    c: &C,
) -> (r: Result<Value, Error>)
    requires
        hook_ok(*x),
        custom_ok(*c),
    ensures
        match claim {
            Claim::Builtin(format) => match text_spec(format, text@, *layout, dot_key, hook_of(*x)) {
                Ok(v) => r matches Ok(w) && w@ == v && wf(w@),
                Err((None, m)) => r matches Err(Error::Parse { path: p, message }) && p@ == path@
                    && message@ == m,
                Err((Some(row), m)) => r matches Err(Error::Table { path: p, row: n, message })
                    && p@ == path@ && n == row && message@ == m,
            },
            Claim::Custom(i) => c.ensures((i, text, path), r),
        },
{
    match claim {
        Claim::Builtin(format) => parse_text(format, text, layout, path, dot_key, x),
        Claim::Custom(i) => c(i, text, path),
    }
}

/// Why a table source cannot be read as given, if it cannot: a csv
/// source naming a sheet (the name is echoed, as it is often a layout
/// typo), or a format that is not a table format.
pub open spec fn table_source_spec(format: Format, sheet: Option<Seq<char>>) -> Option<Seq<char>> {
    match format {
        Format::Csv => match sheet {
            Some(name) => Some(
                "csv sources cannot name a sheet (got '"@ + name
                    + "'; did you mean a layout \u{2014} kv, db?)"@,
            ),
            None => None,
        },
        Format::Excel | Format::Ods => None,
        _ => Some("'"@ + format_id_spec(format) + "' is not a table format (csv, excel, ods)"@),
    }
}

/// Check a table source before reading it; `Some` is the parse error's
/// message.
pub fn table_source_error(format: Format, sheet: Option<&str>) -> (r: Option<String>)
    ensures
        match table_source_spec(format, match sheet {
            Some(s) => Some(s@),
            None => None,
        }) {
            Some(m) => r matches Some(s) && s@ == m,
            None => r is None,
        },
{
    match format {
        Format::Csv => match sheet {
            Some(name) => {
                let mut m = String::new();
                push_str(&mut m, "csv sources cannot name a sheet (got '");
                push_str(&mut m, name);
                push_str(&mut m, "'; did you mean a layout \u{2014} kv, db?)");
                Some(m)
            },
            None => None,
        },
        Format::Excel | Format::Ods => None,
        _ => {
            let mut m = String::new();
            push_str(&mut m, "'");
            push_str(&mut m, format.id());
            push_str(&mut m, "' is not a table format (csv, excel, ods)");
            Some(m)
        },
    }
}

} // verus!
