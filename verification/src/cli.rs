//! The command line's decisions: which output format a run writes, how
//! nested objects flatten into dotted keys for the flat formats, and how
//! env/ini and csv cells are quoted.

use vstd::prelude::*;

use crate::text::{chars_of, is_ws, push_char, push_str, spells, ws};
use crate::trace::{lower_key, lowercase};
use crate::value::{Val, Value, lemma_view_entries, view_entries};

verus! {

/// An output format. Jsonc writes as json; env and ini share the flat
/// `key=value` form; debug is the Rust `{:#?}` form.
#[derive(Debug, Clone, Copy, PartialEq, Eq, Structural)]
pub enum OutFormat {
    Json,
    Yaml,
    Toml,
    Ini,
    Env,
    Csv,
    Debug,
}

/// The output format a `-f` id names.
pub open spec fn out_from_id(id: Seq<char>) -> Option<OutFormat> {
    if id == "json"@ || id == "jsonc"@ {
        Some(OutFormat::Json)
    } else if id == "yaml"@ {
        Some(OutFormat::Yaml)
    } else if id == "toml"@ {
        Some(OutFormat::Toml)
    } else if id == "ini"@ {
        Some(OutFormat::Ini)
    } else if id == "env"@ {
        Some(OutFormat::Env)
    } else if id == "csv"@ {
        Some(OutFormat::Csv)
    } else if id == "debug"@ {
        Some(OutFormat::Debug)
    } else {
        None
    }
}

/// The output format an output file's (lower-cased) extension names.
pub open spec fn out_from_ext(ext: Seq<char>) -> Option<OutFormat> {
    if ext == "yml"@ {
        Some(OutFormat::Yaml)
    } else {
        out_from_id(ext)
    }
}

impl OutFormat {
    /// The output format a `-f` id names.
    pub fn from_id(id: &str) -> (r: Option<OutFormat>)
        ensures
            r == out_from_id(id@),
    {
        let c = chars_of(id);
        let c = c.as_slice();
        if spells(c, "json") || spells(c, "jsonc") {
            Some(OutFormat::Json)
        } else if spells(c, "yaml") {
            Some(OutFormat::Yaml)
        } else if spells(c, "toml") {
            Some(OutFormat::Toml)
        } else if spells(c, "ini") {
            Some(OutFormat::Ini)
        } else if spells(c, "env") {
            Some(OutFormat::Env)
        } else if spells(c, "csv") {
            Some(OutFormat::Csv)
        } else if spells(c, "debug") {
            Some(OutFormat::Debug)
        } else {
            None
        }
    }

    /// The output format an extension names (`yml` and `yaml` alike).
    pub fn from_extension(ext: &str) -> (r: Option<OutFormat>)
        ensures
            r == out_from_ext(ext@),
    {
        if crate::text::same(ext, "yml") {
            Some(OutFormat::Yaml)
        } else {
            OutFormat::from_id(ext)
        }
    }
}

/// What a run writes: `-f` wins (an unknown id is an error), else the
/// output file's extension when it names a format, else debug.
pub open spec fn resolve_spec(flag: Option<Seq<char>>, ext: Option<Seq<char>>) -> Result<OutFormat, Seq<char>> {
    match flag {
        Some(id) => match out_from_id(id) {
            Some(f) => Ok(f),
            None => Err("unknown output format '"@ + id + "'"@),
        },
        None => match ext {
            Some(e) => match out_from_ext(lowercase(e)) {
                Some(f) => Ok(f),
                None => Ok(OutFormat::Debug),
            },
            None => Ok(OutFormat::Debug),
        },
    }
}

/// Pick the output format from the `-f` flag and the output file's
/// extension.
pub fn resolve_format(flag: Option<&str>, ext: Option<&str>) -> (r: Result<OutFormat, String>)
    ensures
        match resolve_spec(
            match flag {
                Some(f) => Some(f@),
                None => None,
            },
            match ext {
                Some(e) => Some(e@),
                None => None,
            },
        ) {
            Ok(f) => r == Ok::<OutFormat, String>(f),
            Err(m) => r matches Err(s) && s@ == m,
        },
{
    if let Some(id) = flag {
        return match OutFormat::from_id(id) {
            Some(f) => Ok(f),
            None => {
                let mut m = String::new();
                push_str(&mut m, "unknown output format '");
                push_str(&mut m, id);
                push_str(&mut m, "'");
                Err(m)
            },
        };
    }
    if let Some(e) = ext {
        let low = lower_key(e);
        if let Some(f) = OutFormat::from_extension(low.as_str()) {
            return Ok(f);
        }
    }
    Ok(OutFormat::Debug)
}

// ---------------------------------------------------------------------
// Quoting
// ---------------------------------------------------------------------

/// Whether an env/ini value needs quotes: empty, or holding white space,
/// `#` or a quote.
pub open spec fn needs_quotes(s: Seq<char>) -> bool {
    s.len() == 0 || exists|i: int| 0 <= i < s.len() && (is_ws(#[trigger] s[i]) || s[i] == '#' || s[i] == '"' || s[i] == '\'')
}

/// Backslashes and double quotes escaped with a backslash.
pub open spec fn escaped(s: Seq<char>) -> Seq<char>
    decreases s.len(),
{
    if s.len() == 0 {
        s
    } else {
        escaped(s.drop_last()) + if s.last() == '\\' {
            seq!['\\', '\\']
        } else if s.last() == '"' {
            seq!['\\', '"']
        } else {
            seq![s.last()]
        }
    }
}

/// An env/ini value as written.
pub open spec fn quoted_spec(s: Seq<char>) -> Seq<char> {
    if needs_quotes(s) {
        seq!['"'] + escaped(s) + seq!['"']
    } else {
        s
    }
}

/// Quote an env/ini value when it needs it, escaping backslashes and
/// double quotes.
pub fn quote_if_needed(s: &str) -> (r: String)
    ensures
        r@ == quoted_spec(s@),
{
    let c = chars_of(s);
    let mut need = c.len() == 0;
    let mut esc = String::new();
    let mut i: usize = 0;
    while i < c.len()
        invariant
            i <= c@.len(),
            c@ == s@,
            need == (c@.len() == 0 || exists|k: int| 0 <= k < i && (is_ws(#[trigger] c@[k]) || c@[k] == '#' || c@[k] == '"' || c@[k] == '\'')),
            esc@ == escaped(c@.subrange(0, i as int)),
        decreases c@.len() - i,
    {
        let ch = c[i];
        if ws(ch) || ch == '#' || ch == '"' || ch == '\'' {
            need = true;
        }
        if ch == '\\' {
            push_char(&mut esc, '\\');
            push_char(&mut esc, '\\');
        } else if ch == '"' {
            push_char(&mut esc, '\\');
            push_char(&mut esc, '"');
        } else {
            push_char(&mut esc, ch);
        }
        proof {
            let p = c@.subrange(0, i + 1);
            assert(p.drop_last() =~= c@.subrange(0, i as int));
            assert(p.last() == ch);
            assert(esc@ =~= escaped(p));
        }
        i = i + 1;
    }
    assert(c@.subrange(0, c@.len() as int) =~= c@);
    if need {
        let mut out = String::new();
        push_char(&mut out, '"');
        push_str(&mut out, esc.as_str());
        push_char(&mut out, '"');
        out
    } else {
        s.to_owned()
    }
}

/// Double quotes doubled.
pub open spec fn quotes_doubled(s: Seq<char>) -> Seq<char>
    decreases s.len(),
{
    if s.len() == 0 {
        s
    } else {
        quotes_doubled(s.drop_last()) + if s.last() == '"' {
            seq!['"', '"']
        } else {
            seq![s.last()]
        }
    }
}

/// A csv cell as written: quoted (inner quotes doubled) when it holds a
/// comma, a quote or a newline.
pub open spec fn csv_escaped(s: Seq<char>) -> Seq<char> {
    if s.contains(',') || s.contains('"') || s.contains('\n') {
        seq!['"'] + quotes_doubled(s) + seq!['"']
    } else {
        s
    }
}

/// Quote a csv cell when it needs it.
pub fn csv_escape(cell: &str) -> (r: String)
    ensures
        r@ == csv_escaped(cell@),
{
    let c = chars_of(cell);
    let mut need = false;
    let mut esc = String::new();
    let mut i: usize = 0;
    while i < c.len()
        invariant
            i <= c@.len(),
            c@ == cell@,
            need == (exists|k: int| 0 <= k < i && (#[trigger] c@[k] == ',' || c@[k] == '"' || c@[k] == '\n')),
            esc@ == quotes_doubled(c@.subrange(0, i as int)),
        decreases c@.len() - i,
    {
        let ch = c[i];
        if ch == ',' || ch == '"' || ch == '\n' {
            need = true;
        }
        if ch == '"' {
            push_char(&mut esc, '"');
            push_char(&mut esc, '"');
        } else {
            push_char(&mut esc, ch);
        }
        proof {
            let p = c@.subrange(0, i + 1);
            assert(p.drop_last() =~= c@.subrange(0, i as int));
            assert(p.last() == ch);
            assert(esc@ =~= quotes_doubled(p));
        }
        i = i + 1;
    }
    assert(c@.subrange(0, c@.len() as int) =~= c@);
    proof {
        if need {
            let k = choose|k: int| 0 <= k < c@.len() && (#[trigger] c@[k] == ',' || c@[k] == '"' || c@[k] == '\n');
            assert(c@[k] == ',' ==> cell@.contains(','));
            assert(c@[k] == '"' ==> cell@.contains('"'));
            assert(c@[k] == '\n' ==> cell@.contains('\n'));
        }
    }
    if need {
        let mut out = String::new();
        push_char(&mut out, '"');
        push_str(&mut out, esc.as_str());
        push_char(&mut out, '"');
        out
    } else {
        cell.to_owned()
    }
}

// ---------------------------------------------------------------------
// Flattening
// ---------------------------------------------------------------------

/// `key` under `prefix`, dotted.
pub open spec fn join_key(prefix: Seq<char>, key: Seq<char>) -> Seq<char> {
    if prefix.len() == 0 {
        key
    } else {
        prefix + seq!['.'] + key
    }
}

/// Depth-first flattening under `prefix`: objects contribute their
/// entries' flattenings in key order, every other value one leaf.
pub open spec fn flat(v: Val, prefix: Seq<char>) -> Seq<(Seq<char>, Val)>
    decreases v, 1nat,
{
    match v {
        Val::Obj(es) => flat_entries(es, prefix),
        _ => seq![(prefix, v)],
    }
}

/// The flattenings of entries, concatenated in order.
pub open spec fn flat_entries(es: Seq<(Seq<char>, Val)>, prefix: Seq<char>) -> Seq<(Seq<char>, Val)>
    decreases es, 0nat,
{
    if es.len() == 0 {
        Seq::empty()
    } else {
        flat(es[0].1, join_key(prefix, es[0].0)) + flat_entries(es.subrange(1, es.len() as int), prefix)
    }
}

/// The model of a flattened list.
pub open spec fn leaves_view(s: Seq<(String, Value)>) -> Seq<(Seq<char>, Val)> {
    s.map_values(|e: (String, Value)| (e.0@, e.1@))
}

/// A key under a prefix, dotted.
fn join(prefix: &str, key: &str) -> (r: String)
    ensures
        r@ == join_key(prefix@, key@),
{
    if prefix.is_empty() {
        key.to_owned()
    } else {
        let mut out = String::new();
        push_str(&mut out, prefix);
        push_char(&mut out, '.');
        push_str(&mut out, key);
        out
    }
}

/// Append the flattening of `v` under `prefix` to `out`.
fn flatten_into(v: &Value, prefix: &str, out: &mut Vec<(String, Value)>)
    ensures
        leaves_view(final(out)@) == leaves_view(old(out)@) + flat(v@, prefix@),
    decreases v,
{
    match v {
        Value::Object(entries) => {
            let ghost start = leaves_view(out@);
            let ghost es = view_entries(entries@);
            proof {
                lemma_view_entries(entries@);
            }
            let mut i: usize = 0;
            assert(es.subrange(0, es.len() as int) =~= es);
            assert(start + Seq::<(Seq<char>, Val)>::empty() =~= start);
            while i < entries.len()
                invariant
                    i <= entries@.len(),
                    *v == Value::Object(*entries),
                    es == view_entries(entries@),
                    es.len() == entries@.len(),
                    forall|k: int| 0 <= k < es.len() ==> #[trigger] es[k] == (entries@[k].0@, entries@[k].1@),
                    flat_entries(es, prefix@) == (leaves_view(out@) + flat_entries(es.subrange(i as int, es.len() as int), prefix@)).subrange(start.len() as int, (leaves_view(out@) + flat_entries(es.subrange(i as int, es.len() as int), prefix@)).len() as int),
                    leaves_view(out@).subrange(0, start.len() as int) == start,
                    leaves_view(out@).len() >= start.len(),
                decreases entries@.len() - i,
            {
                assert(decreases_to!(*v => (*v)->Object_0));
                assert(decreases_to!(*entries => entries@));
                assert(decreases_to!(entries@ => entries@[i as int]));
                assert(decreases_to!(entries@[i as int] => entries@[i as int].1));
                let key = join(prefix, entries[i].0.as_str());
                let ghost before = leaves_view(out@);
                flatten_into(&entries[i].1, key.as_str(), out);
                proof {
                    let rest = es.subrange(i as int, es.len() as int);
                    assert(rest[0] == es[i as int]);
                    assert(rest.subrange(1, rest.len() as int) =~= es.subrange(i + 1, es.len() as int));
                    assert(flat_entries(rest, prefix@) == flat(es[i as int].1, join_key(prefix@, es[i as int].0)) + flat_entries(es.subrange(i + 1, es.len() as int), prefix@));
                    assert(before + flat_entries(rest, prefix@) =~= leaves_view(out@) + flat_entries(es.subrange(i + 1, es.len() as int), prefix@));
                    assert(leaves_view(out@).subrange(0, start.len() as int) =~= before.subrange(0, start.len() as int));
                }
                i = i + 1;
            }
            proof {
                assert(es.subrange(i as int, es.len() as int).len() == 0);
                assert(leaves_view(out@) + Seq::<(Seq<char>, Val)>::empty() =~= leaves_view(out@));
                assert(leaves_view(out@) =~= start + leaves_view(out@).subrange(start.len() as int, leaves_view(out@).len() as int));
            }
        },
        _ => {
            let ghost before = leaves_view(out@);
            out.push((prefix.to_owned(), v.deep_copy()));
            assert(leaves_view(out@) =~= before + seq![(prefix@, v@)]);
        },
    }
}

/// Nested objects flattened into dotted keys, depth first and in key
/// order (the reverse of `dot_key`); a non-object is one leaf under the
/// empty key.
pub fn flatten(v: &Value) -> (r: Vec<(String, Value)>)
    ensures
        leaves_view(r@) == flat(v@, Seq::empty()),
{
    let mut out: Vec<(String, Value)> = Vec::new();
    assert(leaves_view(out@) =~= Seq::<(Seq<char>, Val)>::empty());
    flatten_into(v, "", &mut out);
    assert(Seq::<(Seq<char>, Val)>::empty() + flat(v@, ""@) =~= flat(v@, ""@));
    proof {
        reveal_strlit("");
        assert(""@ =~= Seq::<char>::empty());
    }
    out
}

} // verus!
