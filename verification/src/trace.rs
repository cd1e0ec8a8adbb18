//! Provenance: [`SourceRef`] labels and the [`TracedValue`] tree — the
//! merged config with, at every leaf, the source it came from. Loading
//! is tracing minus the labels: [`untrace`] of a traced merge is the
//! plain merge.

use vstd::prelude::*;

use crate::merge::{index_of, lemma_index_of, lemma_lookup_cases, lemma_lookup_set_key, lemma_lookup_tail, lemma_rank, lemma_set_key_sorted, lemma_view_entries_tail, merged, rank, set_key};
use crate::text::{all_ascii, ascii_lowered, decimal, push_decimal, push_str};
use crate::workbook::{fmerge_entries, fmerged, fold_entries, fold_val, fupsert, lemma_unfolded_merge_is_merge};
use crate::value::{Val, Value, entries_wf, key_compare, key_lt, keys_sorted, lemma_entries_wf, lemma_key_order, lemma_lookup_at, lookup, lemma_view_entries, lemma_view_entries_ext, view_entries, wf};

verus! {

/// Where a traced value came from.
#[derive(Debug, PartialEq, Eq)]
pub enum SourceRef {
    /// The file path as the loader saw it.
    File(String),
    /// A string source, by its index in the sources list.
    String(usize),
    /// A value source, by its index in the sources list.
    Value(usize),
}

/// The model of a [`SourceRef`].
pub enum Src {
    File(Seq<char>),
    String(usize),
    Value(usize),
}

impl SourceRef {
    /// The model of this reference.
    pub open spec fn view(&self) -> Src {
        match self {
            SourceRef::File(p) => Src::File(p@),
            SourceRef::String(i) => Src::String(*i),
            SourceRef::Value(i) => Src::Value(*i),
        }
    }

    /// A copy of this reference.
    pub fn copy(&self) -> (r: SourceRef)
        ensures
            r@ == self@,
    {
        match self {
            SourceRef::File(p) => SourceRef::File(p.as_str().to_owned()),
            SourceRef::String(i) => SourceRef::String(*i),
            SourceRef::Value(i) => SourceRef::Value(*i),
        }
    }

    /// The label used in serialized traces: the file path, or
    /// `string:<index>` / `value:<index>` for in-code sources.
    pub fn label(&self) -> (r: String)
        ensures
            r@ == label_spec(self@),
    {
        let mut out = String::new();
        match self {
            SourceRef::File(p) => push_str(&mut out, p.as_str()),
            SourceRef::String(i) => {
                push_str(&mut out, "string:");
                push_decimal(&mut out, *i as u64);
            },
            SourceRef::Value(i) => {
                push_str(&mut out, "value:");
                push_decimal(&mut out, *i as u64);
            },
        }
        out
    }
}

/// The label of a source.
pub open spec fn label_spec(s: Src) -> Seq<char> {
    match s {
        Src::File(p) => p,
        Src::String(i) => "string:"@ + decimal(i as nat),
        Src::Value(i) => "value:"@ + decimal(i as nat),
    }
}

/// The merged tree with per-leaf provenance: objects recurse, every
/// other value (whole arrays included) is a leaf.
#[derive(Debug, PartialEq)]
pub enum TracedValue {
    Leaf { value: Value, source: SourceRef },
    /// Entries in strictly ascending key order.
    Object(Vec<(String, TracedValue)>),
}

/// The model of a [`TracedValue`].
pub enum Tr {
    Leaf(Val, Src),
    Node(Seq<(Seq<char>, Tr)>),
}

impl TracedValue {
    /// The model of this tree.
    pub open spec fn view(&self) -> Tr
        decreases self,
    {
        match self {
            TracedValue::Leaf { value, source } => Tr::Leaf(value@, source@),
            TracedValue::Object(es) => Tr::Node(tr_entries(es@)),
        }
    }
}

/// The models of a sequence of traced entries.
pub open spec fn tr_entries(s: Seq<(String, TracedValue)>) -> Seq<(Seq<char>, Tr)>
    decreases s,
{
    if s.len() == 0 {
        seq![]
    } else {
        tr_entries(s.subrange(0, s.len() - 1)).push((s[s.len() - 1].0@, s[s.len() - 1].1.view()))
    }
}

/// `tr_entries` maps each entry.
proof fn lemma_tr_entries(s: Seq<(String, TracedValue)>)
    ensures
        tr_entries(s).len() == s.len(),
        forall|i: int| 0 <= i < s.len() ==> #[trigger] tr_entries(s)[i] == (s[i].0@, s[i].1.view()),
    decreases s.len(),
{
    if s.len() > 0 {
        lemma_tr_entries(s.subrange(0, s.len() - 1));
    }
}

/// Entry-wise equal models give equal models.
proof fn lemma_tr_entries_ext(a: Seq<(String, TracedValue)>, b: Seq<(Seq<char>, Tr)>)
    requires
        a.len() == b.len(),
        forall|i: int| 0 <= i < a.len() ==> (#[trigger] a[i]).0@ == b[i].0 && a[i].1.view() == b[i].1,
    ensures
        tr_entries(a) == b,
{
    lemma_tr_entries(a);
    assert forall|i: int| 0 <= i < a.len() implies tr_entries(a)[i] == b[i] by {
        assert(a[i].0@ == b[i].0);
    }
    assert(tr_entries(a) =~= b);
}

// ---------------------------------------------------------------------
// Specification
// ---------------------------------------------------------------------

/// The lower-case form of a key (`str::to_lowercase`).
pub uninterp spec fn lowercase(s: Seq<char>) -> Seq<char>;

/// A key as the merge records it: lower-cased when case-insensitive.
pub open spec fn fold_key(k: Seq<char>, lc: bool) -> Seq<char> {
    if lc {
        lowercase(k)
    } else {
        k
    }
}

/// The plain value of a traced tree: labels dropped.
pub open spec fn untr(t: Tr) -> Val
    decreases t,
{
    match t {
        Tr::Leaf(v, _) => v,
        Tr::Node(es) => Val::Obj(untr_entries(es)),
    }
}

/// The plain entries of traced entries.
pub open spec fn untr_entries(es: Seq<(Seq<char>, Tr)>) -> Seq<(Seq<char>, Val)>
    decreases es,
{
    if es.len() == 0 {
        seq![]
    } else {
        untr_entries(es.subrange(0, es.len() - 1)).push((es.last().0, untr(es.last().1)))
    }
}

/// Every node's keys ascend and every leaf holds a well-formed value.
pub open spec fn tr_wf(t: Tr) -> bool
    decreases t,
{
    match t {
        Tr::Leaf(v, _) => wf(v) && !(v is Obj),
        Tr::Node(es) => keys_sorted(es) && tr_entries_wf(es),
    }
}

/// Every entry's tree is well-formed.
pub open spec fn tr_entries_wf(es: Seq<(Seq<char>, Tr)>) -> bool
    decreases es,
{
    if es.len() == 0 {
        true
    } else {
        tr_entries_wf(es.subrange(0, es.len() - 1)) && tr_wf(es.last().1)
    }
}

/// `value`, labeled with `s` at every leaf (keys folded when `lc`).
pub open spec fn traced(v: Val, s: Src, lc: bool) -> Tr
    decreases v, 1nat,
{
    match v {
        Val::Obj(es) => Tr::Node(traced_entries(es, Seq::empty(), s, lc)),
        _ => Tr::Leaf(v, s),
    }
}

/// The entries `es`, traced and set one by one into `acc` (a folded key
/// that occurs twice keeps its later value).
pub open spec fn traced_entries(es: Seq<(Seq<char>, Val)>, acc: Seq<(Seq<char>, Tr)>, s: Src, lc: bool) -> Seq<(Seq<char>, Tr)>
    decreases es, 0nat,
{
    if es.len() == 0 {
        acc
    } else {
        traced_entries(
            es.subrange(1, es.len() as int),
            set_key(acc, fold_key(es[0].0, lc), traced(es[0].1, s, lc)),
            s,
            lc,
        )
    }
}

/// `v` (from source `s`) deep-merged into the traced tree `t`: objects
/// merge key by key, everything else replaces with a leaf labeled `s`.
pub open spec fn tr_merged(t: Tr, v: Val, s: Src, lc: bool) -> Tr
    decreases v, 0nat,
{
    match (t, v) {
        (Tr::Node(tes), Val::Obj(ies)) => Tr::Node(tr_merge_entries(tes, ies, s, lc)),
        _ => traced(v, s, lc),
    }
}

/// Each incoming entry merged into `tes`, in order.
pub open spec fn tr_merge_entries(tes: Seq<(Seq<char>, Tr)>, ies: Seq<(Seq<char>, Val)>, s: Src, lc: bool) -> Seq<(Seq<char>, Tr)>
    decreases ies, 0nat,
{
    if ies.len() == 0 {
        tes
    } else {
        tr_merge_entries(tr_upsert(tes, fold_key(ies[0].0, lc), ies[0].1, s, lc), ies.subrange(1, ies.len() as int), s, lc)
    }
}

/// One incoming entry merged into `tes`.
pub open spec fn tr_upsert(tes: Seq<(Seq<char>, Tr)>, k: Seq<char>, v: Val, s: Src, lc: bool) -> Seq<(Seq<char>, Tr)>
    decreases v, 1nat,
{
    match index_of(tes, k) {
        Some(j) => set_key(tes, k, tr_merged(tes[j].1, v, s, lc)),
        None => set_key(tes, k, traced(v, s, lc)),
    }
}

/// `tr_entries_wf` holds exactly when every entry's tree is well-formed.
pub proof fn lemma_tr_entries_wf(s: Seq<(Seq<char>, Tr)>)
    ensures
        tr_entries_wf(s) == forall|i: int| 0 <= i < s.len() ==> tr_wf(#[trigger] s[i].1),
    decreases s.len(),
{
    if s.len() > 0 {
        let p = s.subrange(0, s.len() - 1);
        lemma_tr_entries_wf(p);
        if tr_entries_wf(s) {
            assert forall|i: int| 0 <= i < s.len() implies tr_wf(#[trigger] s[i].1) by {
                if i < s.len() - 1 {
                    assert(s[i] == p[i]);
                }
            }
        }
        if forall|i: int| 0 <= i < s.len() ==> tr_wf(#[trigger] s[i].1) {
            assert forall|i: int| 0 <= i < p.len() implies tr_wf(#[trigger] p[i].1) by {
                assert(p[i] == s[i]);
            }
        }
    }
}

/// Setting a well-formed tree under a key keeps the entries well-formed.
proof fn lemma_tr_set_key_wf(es: Seq<(Seq<char>, Tr)>, k: Seq<char>, t: Tr)
    requires
        keys_sorted(es),
        tr_entries_wf(es),
        tr_wf(t),
    ensures
        tr_entries_wf(set_key(es, k, t)),
        keys_sorted(set_key(es, k, t)),
{
    lemma_tr_entries_wf(es);
    lemma_set_key_sorted(es, k, t);
    let a = set_key(es, k, t);
    lemma_index_of(es, k);
    lemma_rank(es, k);
    assert forall|i: int| 0 <= i < a.len() implies tr_wf(#[trigger] a[i].1) by {
        match index_of(es, k) {
            Some(j) => {
                if i != j {
                    assert(a[i] == es[i]);
                }
            },
            None => {
                let r = rank(es, k);
                if i < r {
                    assert(a[i] == es[i]);
                } else if i > r {
                    assert(a[i] == es[i - 1]);
                }
            },
        }
    }
    lemma_tr_entries_wf(a);
}

// ---------------------------------------------------------------------
// Loading is tracing minus the labels
// ---------------------------------------------------------------------

/// Dropping labels keeps every key where it was.
proof fn lemma_untr_keys(tes: Seq<(Seq<char>, Tr)>, k: Seq<char>)
    requires
        keys_sorted(tes),
    ensures
        keys_sorted(untr_entries(tes)),
        rank(untr_entries(tes), k) == rank(tes, k),
        index_of(untr_entries(tes), k) == index_of(tes, k),
    decreases tes.len(),
{
    let ue = untr_entries(tes);
    lemma_untr_entries(tes);
    assert forall|i: int, j: int| 0 <= i < j < ue.len() implies key_lt(
        #[trigger] ue[i].0,
        #[trigger] ue[j].0,
    ) by {
        assert(ue[i].0 == tes[i].0 && ue[j].0 == tes[j].0);
    }
    if tes.len() > 0 {
        let p = tes.drop_last();
        assert forall|i: int, j: int| 0 <= i < j < p.len() implies key_lt(
            #[trigger] p[i].0,
            #[trigger] p[j].0,
        ) by {
            assert(p[i] == tes[i] && p[j] == tes[j]);
        }
        lemma_untr_keys(p, k);
        assert(ue.drop_last() =~= untr_entries(p));
    }
    lemma_index_of(ue, k);
    lemma_index_of(tes, k);
    lemma_rank(tes, k);
    let r = rank(tes, k);
    if r < tes.len() {
        assert(ue[r].0 == tes[r].0);
    }
}

/// Dropping labels commutes with setting a key.
proof fn lemma_untr_set_key(tes: Seq<(Seq<char>, Tr)>, k: Seq<char>, x: Tr)
    requires
        keys_sorted(tes),
    ensures
        untr_entries(set_key(tes, k, x)) == set_key(untr_entries(tes), k, untr(x)),
{
    let ue = untr_entries(tes);
    lemma_untr_keys(tes, k);
    lemma_untr_entries(tes);
    lemma_index_of(tes, k);
    lemma_rank(tes, k);
    let a = set_key(tes, k, x);
    lemma_untr_entries(a);
    let b = set_key(ue, k, untr(x));
    assert(untr_entries(a).len() == b.len());
    assert forall|i: int| 0 <= i < b.len() implies untr_entries(a)[i] == b[i] by {
        match index_of(tes, k) {
            Some(j) => {
                if i != j {
                    assert(a[i] == tes[i]);
                }
            },
            None => {
                let r = rank(tes, k);
                if i < r {
                    assert(a[i] == tes[i]);
                } else if i > r {
                    assert(a[i] == tes[i - 1]);
                }
            },
        }
    }
    assert(untr_entries(a) =~= b);
}

/// Setting a key above every present key appends it.
proof fn lemma_set_key_append(acc: Seq<(Seq<char>, Tr)>, k: Seq<char>, x: Tr)
    requires
        keys_sorted(acc),
        forall|i: int| 0 <= i < acc.len() ==> key_lt(#[trigger] acc[i].0, k),
    ensures
        set_key(acc, k, x) == acc.push((k, x)),
{
    lemma_index_of(acc, k);
    lemma_rank(acc, k);
    lemma_key_order(k, k, k);
    if acc.len() > 0 && rank(acc, k) < acc.len() {
        assert(key_lt(acc[rank(acc, k)].0, k));
    }
    assert(index_of(acc, k) is None) by {
        if let Some(j) = index_of(acc, k) {
            assert(key_lt(acc[j].0, k));
        }
    }
    assert(acc.insert(acc.len() as int, (k, x)) =~= acc.push((k, x)));
}

/// A value traced (case-sensitively) and untraced is itself.
pub proof fn lemma_untrace_traced(v: Val, s: Src)
    requires
        wf(v),
    ensures
        untr(traced(v, s, false)) == v,
        tr_wf(traced(v, s, false)),
    decreases v, 1nat,
{
    if let Val::Obj(es) = v {
        assert(untr_entries(Seq::<(Seq<char>, Tr)>::empty()) + es =~= es);
        lemma_untrace_traced_entries(es, Seq::empty(), s);
    }
}

/// Tracing sorted entries after smaller keys appends them.
proof fn lemma_untrace_traced_entries(es: Seq<(Seq<char>, Val)>, acc: Seq<(Seq<char>, Tr)>, s: Src)
    requires
        keys_sorted(es),
        entries_wf(es),
        keys_sorted(acc),
        tr_entries_wf(acc),
        es.len() > 0 ==> forall|i: int| 0 <= i < acc.len() ==> key_lt(#[trigger] acc[i].0, es[0].0),
    ensures
        untr_entries(traced_entries(es, acc, s, false)) == untr_entries(acc) + es,
        keys_sorted(traced_entries(es, acc, s, false)),
        tr_entries_wf(traced_entries(es, acc, s, false)),
    decreases es, 0nat,
{
    if es.len() == 0 {
        assert(untr_entries(acc) + es =~= untr_entries(acc));
    } else {
        let k0 = es[0].0;
        let v0 = es[0].1;
        let rest = es.subrange(1, es.len() as int);
        lemma_entries_wf(es);
        assert(wf(v0));
        lemma_untrace_traced(v0, s);
        let x = traced(v0, s, false);
        lemma_set_key_append(acc, k0, x);
        let acc2 = acc.push((k0, x));
        lemma_tr_set_key_wf(acc, k0, x);
        assert forall|i: int, j: int| 0 <= i < j < rest.len() implies key_lt(
            #[trigger] rest[i].0,
            #[trigger] rest[j].0,
        ) by {
            assert(rest[i] == es[i + 1] && rest[j] == es[j + 1]);
        }
        lemma_entries_wf(rest);
        assert forall|i: int| 0 <= i < rest.len() implies wf(#[trigger] rest[i].1) by {
            assert(rest[i] == es[i + 1]);
        }
        if rest.len() > 0 {
            assert(rest[0] == es[1]);
            assert(key_lt(k0, es[1].0));
            assert forall|i: int| 0 <= i < acc2.len() implies key_lt(#[trigger] acc2[i].0, rest[0].0) by {
                if i < acc.len() {
                    lemma_key_order(acc[i].0, k0, es[1].0);
                }
            }
        }
        lemma_untrace_traced_entries(rest, acc2, s);
        assert(acc2.subrange(0, acc2.len() - 1) =~= acc);
        assert(untr_entries(acc2).drop_last() =~= untr_entries(acc));
        assert(untr_entries(acc2) == untr_entries(acc).push((k0, v0)));
        assert(untr_entries(acc).push((k0, v0)) + rest =~= untr_entries(acc) + es);
    }
}

// ---------------------------------------------------------------------
// Loading is tracing minus the labels, with case folding too
// ---------------------------------------------------------------------

/// A well-formed value traced and untraced is the value with its keys
/// folded (itself, when nothing folds); the traced tree is well-formed.
pub proof fn lemma_untrace_traced_folded(v: Val, s: Src, lc: bool)
    requires
        wf(v),
    ensures
        untr(traced(v, s, lc)) == fold_val(v, lc),
        tr_wf(traced(v, s, lc)),
    decreases v, 1nat,
{
    if !lc {
        lemma_untrace_traced(v, s);
    } else if let Val::Obj(es) = v {
        lemma_entries_wf(es);
        assert(untr_entries(Seq::<(Seq<char>, Tr)>::empty()) =~= Seq::<(Seq<char>, Val)>::empty());
        lemma_traced_entries_folded(es, Seq::empty(), s);
    }
}

/// The entry-level form of [`lemma_untrace_traced_folded`].
proof fn lemma_traced_entries_folded(es: Seq<(Seq<char>, Val)>, acc: Seq<(Seq<char>, Tr)>, s: Src)
    requires
        entries_wf(es),
        keys_sorted(acc),
        tr_entries_wf(acc),
    ensures
        untr_entries(traced_entries(es, acc, s, true)) == fold_entries(es, untr_entries(acc), true),
        keys_sorted(traced_entries(es, acc, s, true)),
        tr_entries_wf(traced_entries(es, acc, s, true)),
    decreases es, 0nat,
{
    if es.len() > 0 {
        let k = fold_key(es[0].0, true);
        let v0 = es[0].1;
        let rest = es.subrange(1, es.len() as int);
        lemma_entries_wf(es);
        assert(wf(v0));
        lemma_untrace_traced_folded(v0, s, true);
        let x = traced(v0, s, true);
        lemma_untr_set_key(acc, k, x);
        lemma_tr_set_key_wf(acc, k, x);
        lemma_entries_wf(rest);
        assert forall|i: int| 0 <= i < rest.len() implies wf(#[trigger] rest[i].1) by {
            assert(rest[i] == es[i + 1]);
        }
        lemma_traced_entries_folded(rest, set_key(acc, k, x), s);
    }
}

/// Loading is tracing minus the labels, whatever the case setting: a
/// traced merge of a value, with its labels dropped, is the plain deep
/// merge of the value into the untraced tree, incoming keys folded to
/// lower case when the merge is case-insensitive.
pub proof fn lemma_untrace_merge_folded(t: Tr, v: Val, s: Src, lc: bool)
    requires
        tr_wf(t),
        wf(v),
    ensures
        untr(tr_merged(t, v, s, lc)) == fmerged(untr(t), v, lc),
        tr_wf(tr_merged(t, v, s, lc)),
    decreases v, 0nat,
{
    match (t, v) {
        (Tr::Node(tes), Val::Obj(ies)) => {
            lemma_entries_wf(ies);
            lemma_untrace_merge_entries_folded(tes, ies, s, lc);
        },
        _ => {
            lemma_untrace_traced_folded(v, s, lc);
        },
    }
}

/// The entry-level form of [`lemma_untrace_merge_folded`].
proof fn lemma_untrace_merge_entries_folded(tes: Seq<(Seq<char>, Tr)>, ies: Seq<(Seq<char>, Val)>, s: Src, lc: bool)
    requires
        keys_sorted(tes),
        tr_entries_wf(tes),
        entries_wf(ies),
    ensures
        untr_entries(tr_merge_entries(tes, ies, s, lc)) == fmerge_entries(untr_entries(tes), ies, lc),
        keys_sorted(tr_merge_entries(tes, ies, s, lc)),
        tr_entries_wf(tr_merge_entries(tes, ies, s, lc)),
    decreases ies, 0nat,
{
    if ies.len() > 0 {
        let k0 = fold_key(ies[0].0, lc);
        let v0 = ies[0].1;
        let rest = ies.subrange(1, ies.len() as int);
        lemma_entries_wf(ies);
        assert(wf(v0));
        lemma_untrace_upsert_folded(tes, k0, v0, s, lc);
        lemma_entries_wf(rest);
        assert forall|i: int| 0 <= i < rest.len() implies wf(#[trigger] rest[i].1) by {
            assert(rest[i] == ies[i + 1]);
        }
        lemma_untrace_merge_entries_folded(tr_upsert(tes, k0, v0, s, lc), rest, s, lc);
    }
}

/// The one-entry form of [`lemma_untrace_merge_folded`].
proof fn lemma_untrace_upsert_folded(tes: Seq<(Seq<char>, Tr)>, k: Seq<char>, v: Val, s: Src, lc: bool)
    requires
        keys_sorted(tes),
        tr_entries_wf(tes),
        wf(v),
    ensures
        untr_entries(tr_upsert(tes, k, v, s, lc)) == fupsert(untr_entries(tes), k, v, lc),
        keys_sorted(tr_upsert(tes, k, v, s, lc)),
        tr_entries_wf(tr_upsert(tes, k, v, s, lc)),
    decreases v, 1nat,
{
    lemma_untr_keys(tes, k);
    lemma_untr_entries(tes);
    lemma_tr_entries_wf(tes);
    lemma_index_of(tes, k);
    match index_of(tes, k) {
        Some(j) => {
            let x = tr_merged(tes[j].1, v, s, lc);
            assert(tr_wf(tes[j].1));
            lemma_untrace_merge_folded(tes[j].1, v, s, lc);
            assert(untr_entries(tes)[j] == (tes[j].0, untr(tes[j].1)));
            lemma_untr_set_key(tes, k, x);
            lemma_tr_set_key_wf(tes, k, x);
        },
        None => {
            let x = traced(v, s, lc);
            lemma_untrace_traced_folded(v, s, lc);
            lemma_untr_set_key(tes, k, x);
            lemma_tr_set_key_wf(tes, k, x);
        },
    }
}

/// Loading is tracing minus the labels: a traced, case-sensitive merge
/// of a value, with its labels dropped, is the plain deep merge into
/// the untraced tree.
pub proof fn lemma_untrace_merge(t: Tr, v: Val, s: Src)
    requires
        tr_wf(t),
        wf(v),
    ensures
        untr(tr_merged(t, v, s, false)) == merged(untr(t), v),
{
    lemma_untrace_merge_folded(t, v, s, false);
    lemma_unfolded_merge_is_merge(untr(t), v);
}

/// What a key holds after a traced merge, from what the tree held and
/// what the incoming object holds.
pub open spec fn tr_combine(t: Option<Tr>, i: Option<Val>, s: Src) -> Option<Tr> {
    match (t, i) {
        (_, None) => t,
        (None, Some(v)) => Some(traced(v, s, false)),
        (Some(a), Some(b)) => Some(tr_merged(a, b, s, false)),
    }
}

/// Provenance through a traced merge of an object into a node: a key
/// the incoming object does not mention keeps its tree as it was, labels
/// included; a key only the incoming object has holds its value traced
/// to `s` (every leaf labeled `s`, see [`lemma_traced_source`]); a key
/// both have holds the traced merge of the two.
pub proof fn lemma_tr_merge_lookup(tes: Seq<(Seq<char>, Tr)>, ies: Seq<(Seq<char>, Val)>, s: Src, k: Seq<char>)
    requires
        keys_sorted(tes),
        keys_sorted(ies),
    ensures
        lookup(tr_merge_entries(tes, ies, s, false), k) == tr_combine(lookup(tes, k), lookup(ies, k), s),
    decreases ies.len(),
{
    if ies.len() == 0 {
        assert(lookup(ies, k) is None);
    } else {
        let k0 = ies[0].0;
        let v0 = ies[0].1;
        assert(fold_key(k0, false) == k0);
        let nv = match index_of(tes, k0) {
            Some(j) => tr_merged(tes[j].1, v0, s, false),
            None => traced(v0, s, false),
        };
        let tes2 = tr_upsert(tes, k0, v0, s, false);
        assert(tes2 == set_key(tes, k0, nv));
        lemma_set_key_sorted(tes, k0, nv);
        let ies2 = ies.subrange(1, ies.len() as int);
        lemma_lookup_tail(ies, k);
        lemma_tr_merge_lookup(tes2, ies2, s, k);
        lemma_lookup_set_key(tes, k0, nv, k);
        lemma_lookup_cases(tes, k0);
        lemma_index_of(tes, k0);
        lemma_lookup_at(ies, 0);
    }
}

/// Every leaf of the tree is labeled `s`.
pub open spec fn all_from(t: Tr, s: Src) -> bool
    decreases t,
{
    match t {
        Tr::Leaf(_, src) => src == s,
        Tr::Node(es) => all_from_entries(es, s),
    }
}

/// Every entry's tree has all its leaves labeled `s`.
pub open spec fn all_from_entries(es: Seq<(Seq<char>, Tr)>, s: Src) -> bool
    decreases es,
{
    if es.len() == 0 {
        true
    } else {
        all_from_entries(es.drop_last(), s) && all_from(es.last().1, s)
    }
}

proof fn lemma_all_from_entries(es: Seq<(Seq<char>, Tr)>, s: Src)
    ensures
        all_from_entries(es, s) == forall|i: int| 0 <= i < es.len() ==> all_from(#[trigger] es[i].1, s),
    decreases es.len(),
{
    if es.len() > 0 {
        let p = es.drop_last();
        lemma_all_from_entries(p, s);
        if all_from_entries(es, s) {
            assert forall|i: int| 0 <= i < es.len() implies all_from(#[trigger] es[i].1, s) by {
                if i < es.len() - 1 {
                    assert(es[i] == p[i]);
                }
            }
        }
        if forall|i: int| 0 <= i < es.len() ==> all_from(#[trigger] es[i].1, s) {
            assert forall|i: int| 0 <= i < p.len() implies all_from(#[trigger] p[i].1, s) by {
                assert(p[i] == es[i]);
            }
        }
    }
}

/// A traced value carries its source at every leaf.
pub proof fn lemma_traced_source(v: Val, s: Src, lc: bool)
    ensures
        all_from(traced(v, s, lc), s),
    decreases v, 1nat,
{
    if let Val::Obj(es) = v {
        lemma_all_from_entries(Seq::<(Seq<char>, Tr)>::empty(), s);
        lemma_traced_entries_source(es, Seq::empty(), s, lc);
    }
}

proof fn lemma_traced_entries_source(es: Seq<(Seq<char>, Val)>, acc: Seq<(Seq<char>, Tr)>, s: Src, lc: bool)
    requires
        keys_sorted(acc),
        all_from_entries(acc, s),
    ensures
        all_from_entries(traced_entries(es, acc, s, lc), s),
    decreases es, 0nat,
{
    if es.len() > 0 {
        let k = fold_key(es[0].0, lc);
        let x = traced(es[0].1, s, lc);
        lemma_traced_source(es[0].1, s, lc);
        let a = set_key(acc, k, x);
        lemma_all_from_entries(acc, s);
        lemma_index_of(acc, k);
        lemma_rank(acc, k);
        lemma_set_key_sorted(acc, k, x);
        assert forall|i: int| 0 <= i < a.len() implies all_from(#[trigger] a[i].1, s) by {
            match index_of(acc, k) {
                Some(j) => {
                    if i != j {
                        assert(a[i] == acc[i]);
                    }
                },
                None => {
                    let r = rank(acc, k);
                    if i < r {
                        assert(a[i] == acc[i]);
                    } else if i > r {
                        assert(a[i] == acc[i - 1]);
                    }
                },
            }
        }
        lemma_all_from_entries(a, s);
        lemma_traced_entries_source(es.subrange(1, es.len() as int), a, s, lc);
    }
}

// ---------------------------------------------------------------------
// Executable
// ---------------------------------------------------------------------

/// A key lower-cased.
///
/// Trusted: wraps `str::to_lowercase` (Unicode lower-casing, no locale);
/// the contract names the result as a function of the key, and states
/// what std documents for ASCII text: each capital `A`–`Z` becomes its
/// small letter, every other character stays.
#[verifier::external_body]
pub(crate) fn lower_key(s: &str) -> (r: String)
    ensures
        r@ == lowercase(s@),
        all_ascii(s@) ==> r@ == ascii_lowered(s@),
{
    s.to_lowercase()
}

/// A key as the merge records it.
fn fold(k: String, lc: bool) -> (r: String)
    ensures
        r@ == fold_key(k@, lc),
{
    if lc {
        lower_key(k.as_str())
    } else {
        k
    }
}

/// Where key `k` belongs in sorted traced entries, and whether it is
/// present.
fn locate_tr(es: &Vec<(String, TracedValue)>, k: &str) -> (r: (usize, bool))
    requires
        keys_sorted(tr_entries(es@)),
    ensures
        r.0 as int == rank(tr_entries(es@), k@),
        r.1 == (index_of(tr_entries(es@), k@) is Some),
        r.0 <= es@.len(),
{
    let ghost te = tr_entries(es@);
    proof {
        lemma_tr_entries(es@);
        lemma_rank(te, k@);
        lemma_index_of(te, k@);
    }
    let mut p: usize = 0;
    while p < es.len() && key_compare(es[p].0.as_str(), k) < 0
        invariant
            p <= es@.len(),
            te == tr_entries(es@),
            te.len() == es@.len(),
            forall|j: int| 0 <= j < es@.len() ==> #[trigger] te[j] == (es@[j].0@, es@[j].1@),
            p <= rank(te, k@),
            0 <= rank(te, k@) <= te.len(),
            forall|j: int| rank(te, k@) <= j < te.len() ==> !key_lt(#[trigger] te[j].0, k@),
        decreases es@.len() - p,
    {
        assert(te[p as int].0 == es@[p as int].0@);
        p = p + 1;
    }
    if p < es.len() {
        assert(te[p as int].0 == es@[p as int].0@);
    }
    let found = p < es.len() && key_compare(es[p].0.as_str(), k) == 0;
    (p, found)
}

/// Map `k` to `t` in sorted traced entries.
fn set_tr(es: &mut Vec<(String, TracedValue)>, k: String, t: TracedValue)
    requires
        keys_sorted(tr_entries(old(es)@)),
    ensures
        tr_entries(final(es)@) == set_key(tr_entries(old(es)@), k@, t@),
        keys_sorted(tr_entries(final(es)@)),
{
    let ghost te = tr_entries(es@);
    proof {
        lemma_tr_entries(es@);
        lemma_index_of(te, k@);
        lemma_set_key_sorted(te, k@, t@);
    }
    let (p, found) = locate_tr(es, k.as_str());
    let ghost kv = k@;
    let ghost tv = t@;
    if found {
        es.set(p, (k, t));
        proof {
            lemma_tr_entries(es@);
            lemma_tr_entries_ext(es@, te.update(p as int, (kv, tv)));
        }
    } else {
        es.insert(p, (k, t));
        proof {
            lemma_tr_entries(es@);
            assert forall|i: int| 0 <= i < es@.len() implies (#[trigger] es@[i]).0@ == te.insert(
                p as int,
                (kv, tv),
            )[i].0 && es@[i].1@ == te.insert(p as int, (kv, tv))[i].1 by {
                if i < p {
                    assert(es@[i] == old(es)@[i]);
                } else if i > p {
                    assert(es@[i] == old(es)@[i - 1]);
                }
            }
            lemma_tr_entries_ext(es@, te.insert(p as int, (kv, tv)));
        }
    }
}

/// `value`, labeled with `source` at every leaf; with `lowercase`,
/// object keys fold to lower case.
#[verifier::loop_isolation(false)]
pub fn to_traced(value: Value, source: &SourceRef, lowercase: bool) -> (r: TracedValue)
    requires
        wf(value@),
    ensures
        r@ == traced(value@, source@, lowercase),
        tr_wf(r@),
    decreases value@, 1nat,
{
    let ghost vv = value@;
    match value {
        Value::Object(entries) => {
            let mut ie = entries;
            let ghost ie0 = view_entries(ie@);
            let mut out: Vec<(String, TracedValue)> = Vec::new();
            assert(tr_entries(out@) =~= Seq::<(Seq<char>, Tr)>::empty());
            proof {
                lemma_view_entries(ie@);
                lemma_entries_wf(ie0);
                lemma_tr_entries_wf(tr_entries(out@));
            }
            while ie.len() > 0
                invariant
                    vv == Val::Obj(ie0),
                    traced_entries(ie0, Seq::empty(), source@, lowercase) == traced_entries(
                        view_entries(ie@),
                        tr_entries(out@),
                        source@,
                        lowercase,
                    ),
                    keys_sorted(tr_entries(out@)),
                    tr_entries_wf(tr_entries(out@)),
                    entries_wf(view_entries(ie@)),
                    decreases_to!(vv => view_entries(ie@)) || view_entries(ie@) == ie0,
                decreases ie@.len(),
            {
                let ghost before = ie@;
                proof {
                    lemma_view_entries(before);
                }
                let (k, v) = ie.remove(0);
                proof {
                    lemma_view_entries_tail(before);
                    assert(ie@ =~= before.subrange(1, before.len() as int));
                    assert(view_entries(before)[0] == (k@, v@));
                    lemma_entries_wf(view_entries(before));
                    lemma_entries_wf(view_entries(ie@));
                    assert forall|i: int| 0 <= i < view_entries(ie@).len() implies wf(#[trigger] view_entries(ie@)[i].1) by {
                        assert(view_entries(ie@)[i] == view_entries(before)[i + 1]);
                    }
                    assert(decreases_to!(vv => v@)) by {
                        if view_entries(before) == ie0 {
                            assert(decreases_to!(vv => vv->Obj_0));
                            assert(decreases_to!(ie0 => ie0[0]));
                            assert(decreases_to!(ie0[0] => ie0[0].1));
                        } else {
                            assert(decreases_to!(view_entries(before) => view_entries(before)[0]));
                            assert(decreases_to!(view_entries(before)[0] => view_entries(before)[0].1));
                        }
                    }
                    assert(decreases_to!(vv => view_entries(ie@))) by {
                        if view_entries(before) == ie0 {
                            assert(decreases_to!(vv => vv->Obj_0));
                        }
                        assert(decreases_to!(view_entries(before) => view_entries(before).subrange(1, before.len() as int)));
                    }
                }
                let key = fold(k, lowercase);
                let t = to_traced(v, source, lowercase);
                proof {
                    lemma_tr_set_key_wf(tr_entries(out@), key@, t@);
                }
                set_tr(&mut out, key, t);
            }
            TracedValue::Object(out)
        },
        other => TracedValue::Leaf { value: other, source: source.copy() },
    }
}

/// `value` (labeled `source`) deep-merged into the traced tree.
#[verifier::loop_isolation(false)]
fn merge_tr(target: TracedValue, value: Value, source: &SourceRef, lc: bool) -> (r: TracedValue)
    requires
        tr_wf(target@),
        wf(value@),
    ensures
        r@ == tr_merged(target@, value@, source@, lc),
        tr_wf(r@),
    decreases value@, 0nat,
{
    let ghost tv = target@;
    let ghost vv = value@;
    match (target, value) {
        (TracedValue::Object(tes), Value::Object(ies)) => {
            let mut tes = tes;
            let mut ie = ies;
            let ghost te0 = tr_entries(tes@);
            let ghost ie0 = view_entries(ie@);
            proof {
                lemma_view_entries(ie@);
                lemma_entries_wf(ie0);
            }
            while ie.len() > 0
                invariant
                    vv == Val::Obj(ie0),
                    tv == Tr::Node(te0),
                    tr_merge_entries(te0, ie0, source@, lc) == tr_merge_entries(
                        tr_entries(tes@),
                        view_entries(ie@),
                        source@,
                        lc,
                    ),
                    keys_sorted(tr_entries(tes@)),
                    tr_entries_wf(tr_entries(tes@)),
                    entries_wf(view_entries(ie@)),
                    decreases_to!(vv => view_entries(ie@)) || view_entries(ie@) == ie0,
                decreases ie@.len(),
            {
                let ghost before = ie@;
                proof {
                    lemma_view_entries(before);
                }
                let (k, v) = ie.remove(0);
                proof {
                    lemma_view_entries_tail(before);
                    assert(ie@ =~= before.subrange(1, before.len() as int));
                    assert(view_entries(before)[0] == (k@, v@));
                    lemma_entries_wf(view_entries(before));
                    lemma_entries_wf(view_entries(ie@));
                    assert forall|i: int| 0 <= i < view_entries(ie@).len() implies wf(#[trigger] view_entries(ie@)[i].1) by {
                        assert(view_entries(ie@)[i] == view_entries(before)[i + 1]);
                    }
                    assert(decreases_to!(vv => v@)) by {
                        if view_entries(before) == ie0 {
                            assert(decreases_to!(vv => vv->Obj_0));
                            assert(decreases_to!(ie0 => ie0[0]));
                            assert(decreases_to!(ie0[0] => ie0[0].1));
                        } else {
                            assert(decreases_to!(view_entries(before) => view_entries(before)[0]));
                            assert(decreases_to!(view_entries(before)[0] => view_entries(before)[0].1));
                        }
                    }
                    assert(decreases_to!(vv => view_entries(ie@))) by {
                        if view_entries(before) == ie0 {
                            assert(decreases_to!(vv => vv->Obj_0));
                        }
                        assert(decreases_to!(view_entries(before) => view_entries(before).subrange(1, before.len() as int)));
                    }
                }
                let key = fold(k, lc);
                tr_upsert_exec(&mut tes, key, v, source, lc);
            }
            TracedValue::Object(tes)
        },
        (_, value) => to_traced(value, source, lc),
    }
}

/// One incoming entry merged into sorted traced entries.
fn tr_upsert_exec(es: &mut Vec<(String, TracedValue)>, k: String, v: Value, source: &SourceRef, lc: bool)
    requires
        keys_sorted(tr_entries(old(es)@)),
        tr_entries_wf(tr_entries(old(es)@)),
        wf(v@),
    ensures
        tr_entries(final(es)@) == tr_upsert(tr_entries(old(es)@), k@, v@, source@, lc),
        keys_sorted(tr_entries(final(es)@)),
        tr_entries_wf(tr_entries(final(es)@)),
    decreases v@, 1nat,
{
    let ghost te = tr_entries(es@);
    proof {
        lemma_tr_entries(es@);
        lemma_index_of(te, k@);
        lemma_tr_entries_wf(te);
    }
    let (p, found) = locate_tr(es, k.as_str());
    if found {
        let (key, old_t) = es.remove(p);
        proof {
            assert(te[p as int] == (key@, old_t@));
            assert(tr_wf(te[p as int].1));
        }
        let m = merge_tr(old_t, v, source, lc);
        let ghost mv = m@;
        es.insert(p, (key, m));
        proof {
            lemma_tr_entries(es@);
            let want = te.update(p as int, (k@, mv));
            assert forall|i: int| 0 <= i < es@.len() implies (#[trigger] es@[i]).0@ == want[i].0
                && es@[i].1@ == want[i].1 by {
                if i != p {
                    assert(es@[i] == old(es)@[i]);
                }
            }
            lemma_tr_entries_ext(es@, want);
            lemma_tr_set_key_wf(te, k@, mv);
            assert(set_key(te, k@, mv) == want);
        }
    } else {
        let t = to_traced(v, source, lc);
        proof {
            lemma_tr_set_key_wf(te, k@, t@);
        }
        set_tr(es, k, t);
    }
}

/// Deep-merge `value` (labeled `source`) into the traced tree: objects
/// merge recursively, everything else replaces with a labeled leaf;
/// with `lowercase`, incoming keys fold to lower case.
pub fn merge_traced(target: &mut TracedValue, value: Value, source: &SourceRef, lowercase: bool)
    requires
        tr_wf(old(target)@),
        wf(value@),
    ensures
        final(target)@ == tr_merged(old(target)@, value@, source@, lowercase),
        tr_wf(final(target)@),
{
    let mut t = TracedValue::Object(Vec::new());
    std::mem::swap(&mut t, target);
    *target = merge_tr(t, value, source, lowercase);
}

/// `untr_entries` maps each entry.
pub proof fn lemma_untr_entries(es: Seq<(Seq<char>, Tr)>)
    ensures
        untr_entries(es).len() == es.len(),
        forall|i: int| 0 <= i < es.len() ==> #[trigger] untr_entries(es)[i] == (es[i].0, untr(es[i].1)),
    decreases es.len(),
{
    if es.len() > 0 {
        lemma_untr_entries(es.subrange(0, es.len() - 1));
    }
}

/// The plain value of a traced tree: every label dropped.
#[verifier::loop_isolation(false)]
pub fn untrace(traced: TracedValue) -> (r: Value)
    ensures
        r@ == untr(traced@),
    decreases traced@,
{
    let ghost tv = traced@;
    match traced {
        TracedValue::Leaf { value, .. } => value,
        TracedValue::Object(entries) => {
            let mut rest = entries;
            let ghost te0 = tr_entries(rest@);
            let mut out: Vec<(String, Value)> = Vec::new();
            let ghost n = rest@.len();
            proof {
                lemma_tr_entries(rest@);
                lemma_untr_entries(te0);
            }
            while rest.len() > 0
                invariant
                    tv == Tr::Node(te0),
                    te0.len() == n,
                    out@.len() + rest@.len() == n,
                    tr_entries(rest@) == te0.subrange(out@.len() as int, n as int),
                    forall|i: int| 0 <= i < out@.len() ==> (#[trigger] out@[i]).0@ == te0[i].0 && out@[i].1@ == untr(te0[i].1),
                decreases rest@.len(),
            {
                let ghost before = rest@;
                proof {
                    lemma_tr_entries(before);
                }
                let (k, t) = rest.remove(0);
                let ghost j = out@.len() as int;
                proof {
                    assert(tr_entries(before)[0] == (k@, t@));
                    assert(te0[j] == (k@, t@));
                    assert(decreases_to!(tv => tv->Node_0));
                    assert(decreases_to!(te0 => te0[j]));
                    assert(decreases_to!(te0[j] => te0[j].1));
                    lemma_tr_entries(rest@);
                    assert(rest@ =~= before.subrange(1, before.len() as int));
                    assert forall|i: int| 0 <= i < rest@.len() implies tr_entries(rest@)[i] == te0.subrange(j + 1, n as int)[i] by {
                        assert(rest@[i] == before[i + 1]);
                        assert(tr_entries(before)[i + 1] == te0.subrange(j, n as int)[i + 1]);
                    }
                    assert(tr_entries(rest@) =~= te0.subrange(j + 1, n as int));
                }
                let u = untrace(t);
                out.push((k, u));
            }
            proof {
                lemma_view_entries(out@);
                lemma_untr_entries(te0);
                lemma_view_entries_ext(out@, untr_entries(te0));
            }
            Value::Object(out)
        },
    }
}

} // verus!
