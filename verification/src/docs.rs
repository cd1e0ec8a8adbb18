//! Whole json, jsonc, yaml and toml documents. The outside parsers read
//! the text into a [`Doc`] tree (json, jsonc and yaml numbers kept as their
//! text, toml floats as their bits); turning
//! that tree into a [`Value`] — number classes, mapping keys, tags,
//! datetimes, repeated keys — is done and proved here.

use vstd::prelude::*;

use crate::merge::{lemma_set_key_sorted, lemma_set_key_wf, set_entry, set_key};
use crate::options::{Format, format_id_spec};
use crate::table::{ask, hook_of, hook_ok, radix_number, res_view};
use crate::literal::{from_radix, in_range};
use crate::text::{chars_of, push_str, spells};
use crate::parsers::{json_parsed, jsonc_parsed, read_json, read_jsonc, read_toml, read_yaml, toml_parsed, yaml_parsed};
use crate::value::{
    TextKind, Val, Value, entries_wf, items_wf, keys_sorted, lemma_items_wf, lemma_view_items,
    view_entries, view_items, wf,
};

verus! {

/// The bit pattern of the quiet NaN.
pub const NAN_BITS: u64 = 0x7ff8_0000_0000_0000u64;

/// The bit pattern of positive infinity.
pub const INF_BITS: u64 = 0x7ff0_0000_0000_0000u64;

/// The bit pattern of negative infinity.
pub const NEG_INF_BITS: u64 = 0xfff0_0000_0000_0000u64;

/// A mapping key as a parser hands it over.
pub enum DocKey {
    Str(String),
    Bool(bool),
    /// A number key, as the parser prints it.
    Num(String),
    /// Any other key (null, sequence, mapping, tagged), as the parser's
    /// debug form of it.
    Other(String),
}

/// A parsed document node.
pub enum Doc {
    Null,
    Bool(bool),
    /// A toml integer.
    Int(i64),
    /// A json, jsonc or yaml number, as its text.
    Num(String),
    /// A toml float, as its IEEE-754 binary64 bit pattern.
    Float(u64),
    Str(String),
    /// A toml datetime, as its text.
    Date(String),
    List(Vec<Doc>),
    /// Entries in the order the parser yields them.
    Table(Vec<(DocKey, Doc)>),
    /// A yaml tagged value.
    Tagged(Box<Doc>),
}

/// The model of a [`DocKey`].
pub enum KeyM {
    Str(Seq<char>),
    Bool(bool),
    Num(Seq<char>),
    Other(Seq<char>),
}

/// The model of a [`Doc`].
pub enum DocM {
    Null,
    Bool(bool),
    Int(i64),
    Num(Seq<char>),
    Float(u64),
    Str(Seq<char>),
    Date(Seq<char>),
    List(Seq<DocM>),
    Table(Seq<(KeyM, DocM)>),
    Tagged(Box<DocM>),
}

impl DocKey {
    /// The model of this key.
    pub open spec fn view(&self) -> KeyM {
        match self {
            DocKey::Str(s) => KeyM::Str(s@),
            DocKey::Bool(b) => KeyM::Bool(*b),
            DocKey::Num(s) => KeyM::Num(s@),
            DocKey::Other(s) => KeyM::Other(s@),
        }
    }
}

impl Doc {
    /// The model of this node.
    pub open spec fn view(&self) -> DocM
        decreases self,
    {
        match self {
            Doc::Null => DocM::Null,
            Doc::Bool(b) => DocM::Bool(*b),
            Doc::Int(i) => DocM::Int(*i),
            Doc::Num(s) => DocM::Num(s@),
            Doc::Float(b) => DocM::Float(*b),
            Doc::Str(s) => DocM::Str(s@),
            Doc::Date(s) => DocM::Date(s@),
            Doc::List(items) => DocM::List(doc_items(items@)),
            Doc::Table(es) => DocM::Table(doc_entries(es@)),
            Doc::Tagged(b) => DocM::Tagged(Box::new((**b).view())),
        }
    }
}

/// The models of a sequence of nodes.
pub open spec fn doc_items(s: Seq<Doc>) -> Seq<DocM>
    decreases s,
{
    if s.len() == 0 {
        seq![]
    } else {
        doc_items(s.subrange(0, s.len() - 1)).push(s[s.len() - 1].view())
    }
}

/// The models of a sequence of entries.
pub open spec fn doc_entries(s: Seq<(DocKey, Doc)>) -> Seq<(KeyM, DocM)>
    decreases s,
{
    if s.len() == 0 {
        seq![]
    } else {
        doc_entries(s.subrange(0, s.len() - 1)).push(
            (s[s.len() - 1].0.view(), s[s.len() - 1].1.view()),
        )
    }
}

proof fn lemma_doc_items(s: Seq<Doc>)
    ensures
        doc_items(s).len() == s.len(),
        forall|i: int| 0 <= i < s.len() ==> #[trigger] doc_items(s)[i] == s[i].view(),
    decreases s.len(),
{
    if s.len() > 0 {
        lemma_doc_items(s.subrange(0, s.len() - 1));
    }
}

proof fn lemma_doc_entries(s: Seq<(DocKey, Doc)>)
    ensures
        doc_entries(s).len() == s.len(),
        forall|i: int|
            0 <= i < s.len() ==> #[trigger] doc_entries(s)[i] == (s[i].0.view(), s[i].1.view()),
    decreases s.len(),
{
    if s.len() > 0 {
        lemma_doc_entries(s.subrange(0, s.len() - 1));
    }
}

// ---------------------------------------------------------------------
// From a tree to a value
// ---------------------------------------------------------------------

/// A mapping key as an object key: strings as they are, booleans and
/// numbers as their text; any other key is refused.
pub open spec fn key_text(k: KeyM) -> Result<Seq<char>, Seq<char>> {
    match k {
        KeyM::Str(s) => Ok(s),
        KeyM::Bool(b) => Ok(if b { "true"@ } else { "false"@ }),
        KeyM::Num(t) => Ok(t),
        KeyM::Other(d) => Err("unsupported mapping key: "@ + d),
    }
}

/// A float text through the float parser; one it cannot read is NaN.
pub open spec fn float_val(t: Seq<char>, o: spec_fn(Seq<char>, Seq<char>) -> Option<Val>) -> Val {
    match o("f64"@, t) {
        Some(v) => v,
        None => Val::Float(NAN_BITS),
    }
}

/// A number text: an `i64` when it reads as one, else a `u64`, else a
/// float (yaml spells its specials `.nan`, `.inf`, `-.inf`); a jsonc
/// number that is no float either is an error.
pub open spec fn num_val(
    f: Format,
    t: Seq<char>,
    o: spec_fn(Seq<char>, Seq<char>) -> Option<Val>,
) -> Result<Val, Seq<char>> {
    if in_range(from_radix(t, 10, true), i64::MIN as int, i64::MAX as int) {
        Ok(Val::Int(from_radix(t, 10, true).unwrap() as i64))
    } else if in_range(from_radix(t, 10, false), 0, u64::MAX as int) {
        Ok(Val::Uint(from_radix(t, 10, false).unwrap() as u64))
    } else if f == Format::Yaml && t == ".nan"@ {
        Ok(Val::Float(NAN_BITS))
    } else if f == Format::Yaml && t == ".inf"@ {
        Ok(Val::Float(INF_BITS))
    } else if f == Format::Yaml && t == "-.inf"@ {
        Ok(Val::Float(NEG_INF_BITS))
    } else if f == Format::Jsonc {
        match o("f64"@, t) {
            Some(v) => Ok(v),
            None => Err("invalid number literal: "@ + t),
        }
    } else {
        Ok(float_val(t, o))
    }
}

/// The value a node stands for: tags are unwrapped, toml datetimes
/// become datetimes, a table becomes an object in which a repeated key
/// keeps its later value; the first refused key or number is the error.
pub open spec fn doc_val(
    f: Format,
    d: DocM,
    o: spec_fn(Seq<char>, Seq<char>) -> Option<Val>,
) -> Result<Val, Seq<char>>
    decreases d,
{
    match d {
        DocM::Null => Ok(Val::Null),
        DocM::Bool(b) => Ok(Val::Bool(b)),
        DocM::Int(i) => Ok(Val::Int(i)),
        DocM::Num(t) => num_val(f, t, o),
        DocM::Float(b) => Ok(Val::Float(b)),
        DocM::Str(s) => Ok(Val::Text(TextKind::Str, s)),
        DocM::Date(s) => Ok(Val::Text(TextKind::DateTime, s)),
        DocM::List(items) => match items_val(f, items, o) {
            Ok(vs) => Ok(Val::Arr(vs)),
            Err(m) => Err(m),
        },
        DocM::Table(es) => match entries_val(f, es, o) {
            Ok(vs) => Ok(Val::Obj(vs)),
            Err(m) => Err(m),
        },
        DocM::Tagged(b) => doc_val(f, *b, o),
    }
}

/// The values of a sequence of nodes, or the first error.
pub open spec fn items_val(
    f: Format,
    s: Seq<DocM>,
    o: spec_fn(Seq<char>, Seq<char>) -> Option<Val>,
) -> Result<Seq<Val>, Seq<char>>
    decreases s,
{
    if s.len() == 0 {
        Ok(seq![])
    } else {
        match items_val(f, s.subrange(0, s.len() - 1), o) {
            Err(m) => Err(m),
            Ok(vs) => match doc_val(f, s[s.len() - 1], o) {
                Err(m) => Err(m),
                Ok(v) => Ok(vs.push(v)),
            },
        }
    }
}

/// The object of a sequence of entries, each set in turn, or the first
/// error.
pub open spec fn entries_val(
    f: Format,
    s: Seq<(KeyM, DocM)>,
    o: spec_fn(Seq<char>, Seq<char>) -> Option<Val>,
) -> Result<Seq<(Seq<char>, Val)>, Seq<char>>
    decreases s,
{
    if s.len() == 0 {
        Ok(seq![])
    } else {
        match entries_val(f, s.subrange(0, s.len() - 1), o) {
            Err(m) => Err(m),
            Ok(acc) => match key_text(s[s.len() - 1].0) {
                Err(m) => Err(m),
                Ok(k) => match doc_val(f, s[s.len() - 1].1, o) {
                    Err(m) => Err(m),
                    Ok(v) => Ok(set_key(acc, k, v)),
                },
            },
        }
    }
}

/// An error in a prefix is the error of the whole sequence.
proof fn lemma_items_err(f: Format, s: Seq<DocM>, j: int, o: spec_fn(Seq<char>, Seq<char>) -> Option<Val>)
    requires
        0 <= j <= s.len(),
        items_val(f, s.subrange(0, j), o) is Err,
    ensures
        items_val(f, s, o) == items_val(f, s.subrange(0, j), o),
    decreases s.len(),
{
    if j < s.len() {
        let p = s.subrange(0, s.len() - 1);
        assert(p.subrange(0, j) =~= s.subrange(0, j));
        lemma_items_err(f, p, j, o);
    } else {
        assert(s.subrange(0, j) =~= s);
    }
}

/// An error in a prefix is the error of the whole sequence.
proof fn lemma_entries_err(
    f: Format,
    s: Seq<(KeyM, DocM)>,
    j: int,
    o: spec_fn(Seq<char>, Seq<char>) -> Option<Val>,
)
    requires
        0 <= j <= s.len(),
        entries_val(f, s.subrange(0, j), o) is Err,
    ensures
        entries_val(f, s, o) == entries_val(f, s.subrange(0, j), o),
    decreases s.len(),
{
    if j < s.len() {
        let p = s.subrange(0, s.len() - 1);
        assert(p.subrange(0, j) =~= s.subrange(0, j));
        lemma_entries_err(f, p, j, o);
    } else {
        assert(s.subrange(0, j) =~= s);
    }
}

/// An object key from a mapping key.
fn key_string(k: &DocKey) -> (r: Result<String, String>)
    ensures
        match r {
            Ok(s) => key_text(k@) == Ok::<Seq<char>, Seq<char>>(s@),
            Err(m) => key_text(k@) == Err::<Seq<char>, Seq<char>>(m@),
        },
{
    match k {
        DocKey::Str(s) => Ok(s.clone()),
        DocKey::Bool(b) => {
            let mut t = String::new();
            push_str(&mut t, if *b { "true" } else { "false" });
            Ok(t)
        },
        DocKey::Num(s) => Ok(s.clone()),
        DocKey::Other(d) => {
            let mut m = String::new();
            push_str(&mut m, "unsupported mapping key: ");
            push_str(&mut m, d.as_str());
            Err(m)
        },
    }
}

/// A float text through the float parser.
fn float_value<X: Fn(&str, &str) -> Option<Value>>(t: &String, x: &X) -> (r: Value)
    requires
        hook_ok(*x),
    ensures
        r@ == float_val(t@, hook_of(*x)),
        wf(r@),
{
    match ask(x, "f64", t.as_str()) {
        Some(v) => v,
        None => Value::Float(NAN_BITS),
    }
}

/// A number text as a value.
fn num_value<X: Fn(&str, &str) -> Option<Value>>(f: Format, t: &String, x: &X) -> (r: Result<
    Value,
    String,
>)
    requires
        hook_ok(*x),
    ensures
        res_view(r) == num_val(f, t@, hook_of(*x)),
        r matches Ok(v) ==> wf(v@),
{
    let cs = chars_of(t.as_str());
    match radix_number(cs.as_slice(), 10) {
        Some(v) => Ok(v),
        None => {
            let yaml = f == Format::Yaml;
            if yaml && spells(cs.as_slice(), ".nan") {
                Ok(Value::Float(NAN_BITS))
            } else if yaml && spells(cs.as_slice(), ".inf") {
                Ok(Value::Float(INF_BITS))
            } else if yaml && spells(cs.as_slice(), "-.inf") {
                Ok(Value::Float(NEG_INF_BITS))
            } else if f == Format::Jsonc {
                match ask(x, "f64", t.as_str()) {
                    Some(v) => Ok(v),
                    None => {
                        let mut m = String::new();
                        push_str(&mut m, "invalid number literal: ");
                        push_str(&mut m, t.as_str());
                        Err(m)
                    },
                }
            } else {
                Ok(float_value(t, x))
            }
        },
    }
}

/// The value a node stands for.
#[verifier::loop_isolation(false)]
pub fn doc_value<X: Fn(&str, &str) -> Option<Value>>(f: Format, d: &Doc, x: &X) -> (r: Result<
    Value,
    String,
>)
    requires
        hook_ok(*x),
    ensures
        res_view(r) == doc_val(f, d@, hook_of(*x)),
        r matches Ok(v) ==> wf(v@),
    decreases d,
{
    match d {
        Doc::Null => Ok(Value::Null),
        Doc::Bool(b) => Ok(Value::Bool(*b)),
        Doc::Int(i) => Ok(Value::Int(*i)),
        Doc::Num(t) => num_value(f, t, x),
        Doc::Float(b) => Ok(Value::Float(*b)),
        Doc::Str(s) => Ok(Value::String(s.clone())),
        Doc::Date(s) => Ok(Value::DateTime(s.clone())),
        Doc::Tagged(b) => doc_value(f, &**b, x),
        Doc::List(items) => {
            let ghost dm = doc_items(items@);
            proof {
                lemma_doc_items(items@);
            }
            let mut out: Vec<Value> = Vec::new();
            let mut i: usize = 0;
            while i < items.len()
                invariant
                    0 <= i <= items@.len(),
                    dm == doc_items(items@),
                    dm.len() == items@.len(),
                    forall|j: int| 0 <= j < items@.len() ==> #[trigger] dm[j] == items@[j].view(),
                    items_val(f, dm.subrange(0, i as int), hook_of(*x)) == Ok::<Seq<Val>, Seq<char>>(
                        view_items(out@),
                    ),
                    items_wf(view_items(out@)),
                decreases items@.len() - i,
            {
                assert(decreases_to!(d => items));
                let r = doc_value(f, &items[i], x);
                let ghost pre = dm.subrange(0, i as int);
                let ghost nxt = dm.subrange(0, i as int + 1);
                assert(nxt.subrange(0, nxt.len() - 1) =~= pre);
                assert(nxt[nxt.len() - 1] == dm[i as int]);
                match r {
                    Err(m) => {
                        proof {
                            lemma_items_err(f, dm, i as int + 1, hook_of(*x));
                        }
                        return Err(m);
                    },
                    Ok(v) => {
                        let ghost before = out@;
                        out.push(v);
                        proof {
                            lemma_view_items(before);
                            lemma_view_items(out@);
                            assert(view_items(out@) =~= view_items(before).push(v@));
                            lemma_items_wf(view_items(before));
                            lemma_items_wf(view_items(out@));
                        }
                        i = i + 1;
                    },
                }
            }
            assert(dm.subrange(0, dm.len() as int) =~= dm);
            Ok(Value::Array(out))
        },
        Doc::Table(es) => {
            let ghost dm = doc_entries(es@);
            proof {
                lemma_doc_entries(es@);
            }
            let mut out: Vec<(String, Value)> = Vec::new();
            let mut i: usize = 0;
            while i < es.len()
                invariant
                    0 <= i <= es@.len(),
                    dm == doc_entries(es@),
                    dm.len() == es@.len(),
                    forall|j: int|
                        0 <= j < es@.len() ==> #[trigger] dm[j] == (es@[j].0.view(), es@[j].1.view()),
                    entries_val(f, dm.subrange(0, i as int), hook_of(*x)) == Ok::<
                        Seq<(Seq<char>, Val)>,
                        Seq<char>,
                    >(view_entries(out@)),
                    keys_sorted(view_entries(out@)),
                    entries_wf(view_entries(out@)),
                decreases es@.len() - i,
            {
                let ghost pre = dm.subrange(0, i as int);
                let ghost nxt = dm.subrange(0, i as int + 1);
                assert(nxt.subrange(0, nxt.len() - 1) =~= pre);
                assert(nxt[nxt.len() - 1] == dm[i as int]);
                let k = match key_string(&es[i].0) {
                    Err(m) => {
                        proof {
                            lemma_entries_err(f, dm, i as int + 1, hook_of(*x));
                        }
                        return Err(m);
                    },
                    Ok(k) => k,
                };
                assert(decreases_to!(d => es));
                let r = doc_value(f, &es[i].1, x);
                match r {
                    Err(m) => {
                        proof {
                            lemma_entries_err(f, dm, i as int + 1, hook_of(*x));
                        }
                        return Err(m);
                    },
                    Ok(v) => {
                        proof {
                            lemma_set_key_sorted(view_entries(out@), k@, v@);
                            lemma_set_key_wf(view_entries(out@), k@, v@);
                        }
                        set_entry(&mut out, k, v);
                        i = i + 1;
                    },
                }
            }
            assert(dm.subrange(0, dm.len() as int) =~= dm);
            Ok(Value::Object(out))
        },
    }
}

/// What a whole document parses to under a format: the outside
/// parser's tree made a value (an empty jsonc document is null), or the
/// parser's or the conversion's message. Other formats have no document
/// parser.
pub open spec fn document_spec(
    format: Format,
    text: Seq<char>,
    o: spec_fn(Seq<char>, Seq<char>) -> Option<Val>,
) -> Result<Val, Seq<char>> {
    match format {
        Format::Json => match json_parsed(text) {
            Ok(d) => doc_val(format, d, o),
            Err(m) => Err(m),
        },
        Format::Jsonc => match jsonc_parsed(text) {
            Ok(Some(d)) => doc_val(format, d, o),
            Ok(None) => Ok(Val::Null),
            Err(m) => Err(m),
        },
        Format::Yaml => match yaml_parsed(text) {
            Ok(d) => doc_val(format, d, o),
            Err(m) => Err(m),
        },
        Format::Toml => match toml_parsed(text) {
            Ok(d) => doc_val(format, d, o),
            Err(m) => Err(m),
        },
        _ => Err("format '"@ + format_id_spec(format) + "' has no document parser"@),
    }
}

/// Parse a whole json, jsonc, yaml or toml document (floats through the
/// hook's `f64` answers).
pub fn parse_document<X: Fn(&str, &str) -> Option<Value>>(format: Format, text: &str, x: &X) -> (r:
    Result<Value, String>)
    requires
        hook_ok(*x),
    ensures
        res_view(r) == document_spec(format, text@, hook_of(*x)),
        r matches Ok(v) ==> wf(v@),
{
    match format {
        Format::Json => match read_json(text) {
            Ok(d) => doc_value(format, &d, x),
            Err(m) => Err(m),
        },
        Format::Jsonc => match read_jsonc(text) {
            Ok(Some(d)) => doc_value(format, &d, x),
            Ok(None) => Ok(Value::Null),
            Err(m) => Err(m),
        },
        Format::Yaml => match read_yaml(text) {
            Ok(d) => doc_value(format, &d, x),
            Err(m) => Err(m),
        },
        Format::Toml => match read_toml(text) {
            Ok(d) => doc_value(format, &d, x),
            Err(m) => Err(m),
        },
        _ => {
            let mut m = String::new();
            push_str(&mut m, "format '");
            push_str(&mut m, format.id());
            push_str(&mut m, "' has no document parser");
            Err(m)
        },
    }
}

} // verus!
