//! How a workbook's sheets become one value: which sheets are read and
//! in what order, the case-folding merge of sheet values (each sheet is
//! treated like a file), and the sheet-name keys.

use vstd::prelude::*;

use crate::keys::{insert_key, insert_key_spec};
use crate::loader::{commented_spec, keep_sheet};
use crate::merge::{
    merge_entries, merged, upsert, index_of, lemma_index_of, lemma_set_key_sorted, lemma_set_key_wf, lemma_view_entries_tail,
    locate, set_entry, set_key,
};
use crate::options::Order;
use crate::table::cells_view;
use crate::text::push_str;
use crate::trace::{fold_key, lower_key};
use crate::value::{
    Val, Value, entries_wf, key_compare, key_lt, keys_sorted, lemma_entries_wf, lemma_key_order,
    lemma_view_entries, view_entries, wf,
};

verus! {

// ---------------------------------------------------------------------
// The case-folding merge (specification)
// ---------------------------------------------------------------------

/// `v` with every object key folded to lower case when `lc` (a folded
/// key that occurs twice keeps its later value); unchanged otherwise.
pub open spec fn fold_val(v: Val, lc: bool) -> Val
    decreases v, 1nat,
{
    match v {
        Val::Obj(es) => if lc {
            Val::Obj(fold_entries(es, Seq::empty(), lc))
        } else {
            v
        },
        _ => v,
    }
}

/// The entries `es`, folded and set one by one into `acc`.
pub open spec fn fold_entries(es: Seq<(Seq<char>, Val)>, acc: Seq<(Seq<char>, Val)>, lc: bool) -> Seq<(Seq<char>, Val)>
    decreases es, 0nat,
{
    if es.len() == 0 {
        acc
    } else {
        fold_entries(
            es.subrange(1, es.len() as int),
            set_key(acc, fold_key(es[0].0, lc), fold_val(es[0].1, lc)),
            lc,
        )
    }
}

/// `incoming` deep-merged into `target`, incoming keys folded when `lc`:
/// two objects merge key by key; otherwise the (folded) incoming value
/// replaces the target.
pub open spec fn fmerged(target: Val, incoming: Val, lc: bool) -> Val
    decreases incoming, 0nat,
{
    match (target, incoming) {
        (Val::Obj(tes), Val::Obj(ies)) => Val::Obj(fmerge_entries(tes, ies, lc)),
        _ => fold_val(incoming, lc),
    }
}

/// Each incoming entry merged into `tes`, in order.
pub open spec fn fmerge_entries(tes: Seq<(Seq<char>, Val)>, ies: Seq<(Seq<char>, Val)>, lc: bool) -> Seq<(Seq<char>, Val)>
    decreases ies, 0nat,
{
    if ies.len() == 0 {
        tes
    } else {
        fmerge_entries(fupsert(tes, fold_key(ies[0].0, lc), ies[0].1, lc), ies.subrange(1, ies.len() as int), lc)
    }
}

/// One incoming entry merged into `tes`: a present key merges, an absent
/// key takes the folded value.
pub open spec fn fupsert(tes: Seq<(Seq<char>, Val)>, k: Seq<char>, v: Val, lc: bool) -> Seq<(Seq<char>, Val)>
    decreases v, 1nat,
{
    match index_of(tes, k) {
        Some(j) => set_key(tes, k, fmerged(tes[j].1, v, lc)),
        None => set_key(tes, k, fold_val(v, lc)),
    }
}

// ---------------------------------------------------------------------
// The case-folding merge (executable)
// ---------------------------------------------------------------------

/// A key as the merge records it.
fn fold_text(k: String, lc: bool) -> (r: String)
    ensures
        r@ == fold_key(k@, lc),
{
    if lc {
        lower_key(k.as_str())
    } else {
        k
    }
}

/// Setting a well-formed value under a key keeps entries well-formed.
proof fn lemma_set_wf(es: Seq<(Seq<char>, Val)>, k: Seq<char>, v: Val)
    requires
        keys_sorted(es),
        entries_wf(es),
        wf(v),
    ensures
        keys_sorted(set_key(es, k, v)),
        entries_wf(set_key(es, k, v)),
{
    lemma_set_key_sorted(es, k, v);
    lemma_set_key_wf(es, k, v);
}

/// `value` with its object keys folded to lower case when `lc`.
#[verifier::loop_isolation(false)]
pub fn fold_value(value: Value, lc: bool) -> (r: Value)
    requires
        wf(value@),
    ensures
        r@ == fold_val(value@, lc),
        wf(r@),
    decreases value@, 1nat,
{
    if !lc {
        return value;
    }
    let ghost vv = value@;
    match value {
        Value::Object(entries) => {
            let mut ie = entries;
            let ghost ie0 = view_entries(ie@);
            let mut out: Vec<(String, Value)> = Vec::new();
            assert(view_entries(out@) =~= Seq::<(Seq<char>, Val)>::empty());
            proof {
                lemma_view_entries(ie@);
                lemma_entries_wf(ie0);
                lemma_entries_wf(view_entries(out@));
            }
            while ie.len() > 0
                invariant
                    lc,
                    vv == Val::Obj(ie0),
                    fold_entries(ie0, Seq::empty(), lc) == fold_entries(view_entries(ie@), view_entries(out@), lc),
                    keys_sorted(view_entries(out@)),
                    entries_wf(view_entries(out@)),
                    entries_wf(view_entries(ie@)),
                    decreases_to!(vv => view_entries(ie@)) || view_entries(ie@) == ie0,
                decreases ie@.len(),
            {
                let ghost before = ie@;
                proof {
                    lemma_view_entries(before);
                }
                let (k, v) = ie.remove(0);
                proof {
                    lemma_view_entries_tail(before);
                    assert(ie@ =~= before.subrange(1, before.len() as int));
                    assert(view_entries(before)[0] == (k@, v@));
                    lemma_entries_wf(view_entries(before));
                    lemma_entries_wf(view_entries(ie@));
                    assert forall|i: int| 0 <= i < view_entries(ie@).len() implies wf(#[trigger] view_entries(ie@)[i].1) by {
                        assert(view_entries(ie@)[i] == view_entries(before)[i + 1]);
                    }
                    assert(decreases_to!(vv => v@)) by {
                        if view_entries(before) == ie0 {
                            assert(decreases_to!(vv => vv->Obj_0));
                            assert(decreases_to!(ie0 => ie0[0]));
                            assert(decreases_to!(ie0[0] => ie0[0].1));
                        } else {
                            assert(decreases_to!(view_entries(before) => view_entries(before)[0]));
                            assert(decreases_to!(view_entries(before)[0] => view_entries(before)[0].1));
                        }
                    }
                    assert(decreases_to!(vv => view_entries(ie@))) by {
                        if view_entries(before) == ie0 {
                            assert(decreases_to!(vv => vv->Obj_0));
                        }
                        assert(decreases_to!(view_entries(before) => view_entries(before).subrange(1, before.len() as int)));
                    }
                }
                let key = fold_text(k, lc);
                let f = fold_value(v, lc);
                proof {
                    lemma_set_wf(view_entries(out@), key@, f@);
                }
                set_entry(&mut out, key, f);
            }
            Value::Object(out)
        },
        other => other,
    }
}

/// Deep-merge `incoming` into `target`, incoming keys folded to lower
/// case when `lc`: objects merge recursively, everything else replaces.
#[verifier::loop_isolation(false)]
pub fn merge_folded(target: Value, incoming: Value, lc: bool) -> (r: Value)
    requires
        wf(target@),
        wf(incoming@),
    ensures
        r@ == fmerged(target@, incoming@, lc),
        wf(r@),
    decreases incoming@, 0nat,
{
    let ghost tv = target@;
    let ghost vv = incoming@;
    match (target, incoming) {
        (Value::Object(tes), Value::Object(ies)) => {
            let mut tes = tes;
            let mut ie = ies;
            let ghost te0 = view_entries(tes@);
            let ghost ie0 = view_entries(ie@);
            proof {
                lemma_view_entries(ie@);
                lemma_entries_wf(ie0);
            }
            while ie.len() > 0
                invariant
                    vv == Val::Obj(ie0),
                    tv == Val::Obj(te0),
                    fmerge_entries(te0, ie0, lc) == fmerge_entries(view_entries(tes@), view_entries(ie@), lc),
                    keys_sorted(view_entries(tes@)),
                    entries_wf(view_entries(tes@)),
                    entries_wf(view_entries(ie@)),
                    decreases_to!(vv => view_entries(ie@)) || view_entries(ie@) == ie0,
                decreases ie@.len(),
            {
                let ghost before = ie@;
                proof {
                    lemma_view_entries(before);
                }
                let (k, v) = ie.remove(0);
                proof {
                    lemma_view_entries_tail(before);
                    assert(ie@ =~= before.subrange(1, before.len() as int));
                    assert(view_entries(before)[0] == (k@, v@));
                    lemma_entries_wf(view_entries(before));
                    lemma_entries_wf(view_entries(ie@));
                    assert forall|i: int| 0 <= i < view_entries(ie@).len() implies wf(#[trigger] view_entries(ie@)[i].1) by {
                        assert(view_entries(ie@)[i] == view_entries(before)[i + 1]);
                    }
                    assert(decreases_to!(vv => v@)) by {
                        if view_entries(before) == ie0 {
                            assert(decreases_to!(vv => vv->Obj_0));
                            assert(decreases_to!(ie0 => ie0[0]));
                            assert(decreases_to!(ie0[0] => ie0[0].1));
                        } else {
                            assert(decreases_to!(view_entries(before) => view_entries(before)[0]));
                            assert(decreases_to!(view_entries(before)[0] => view_entries(before)[0].1));
                        }
                    }
                    assert(decreases_to!(vv => view_entries(ie@))) by {
                        if view_entries(before) == ie0 {
                            assert(decreases_to!(vv => vv->Obj_0));
                        }
                        assert(decreases_to!(view_entries(before) => view_entries(before).subrange(1, before.len() as int)));
                    }
                }
                let key = fold_text(k, lc);
                fupsert_exec(&mut tes, key, v, lc);
            }
            Value::Object(tes)
        },
        (_, incoming) => fold_value(incoming, lc),
    }
}

/// One incoming entry merged into sorted entries.
fn fupsert_exec(es: &mut Vec<(String, Value)>, k: String, v: Value, lc: bool)
    requires
        keys_sorted(view_entries(old(es)@)),
        entries_wf(view_entries(old(es)@)),
        wf(v@),
    ensures
        view_entries(final(es)@) == fupsert(view_entries(old(es)@), k@, v@, lc),
        keys_sorted(view_entries(final(es)@)),
        entries_wf(view_entries(final(es)@)),
    decreases v@, 1nat,
{
    let ghost ve = view_entries(es@);
    proof {
        lemma_view_entries(es@);
        lemma_index_of(ve, k@);
        lemma_entries_wf(ve);
    }
    let (p, found) = locate(es, k.as_str());
    if found {
        let (key, old_v) = es.remove(p);
        proof {
            assert(ve[p as int] == (key@, old_v@));
            assert(wf(ve[p as int].1));
        }
        let m = merge_folded(old_v, v, lc);
        let ghost mv = m@;
        es.insert(p, (key, m));
        proof {
            lemma_view_entries(es@);
            let want = ve.update(p as int, (k@, mv));
            assert forall|i: int| 0 <= i < es@.len() implies (#[trigger] es@[i]).0@ == want[i].0
                && es@[i].1@ == want[i].1 by {
                if i != p {
                    assert(es@[i] == old(es)@[i]);
                }
            }
            crate::value::lemma_view_entries_ext(es@, want);
            lemma_set_wf(ve, k@, mv);
            assert(set_key(ve, k@, mv) == want);
        }
    } else {
        let f = fold_value(v, lc);
        proof {
            lemma_set_wf(ve, k@, f@);
        }
        set_entry(es, k, f);
    }
}

/// Without case folding, the sheet merge is the plain deep merge.
pub proof fn lemma_unfolded_merge_is_merge(target: Val, incoming: Val)
    ensures
        fmerged(target, incoming, false) == merged(target, incoming),
    decreases incoming, 0nat,
{
    match (target, incoming) {
        (Val::Obj(tes), Val::Obj(ies)) => lemma_fmerge_entries_plain(tes, ies),
        _ => {},
    }
}

/// Without case folding, merging entries is the plain entry merge.
proof fn lemma_fmerge_entries_plain(tes: Seq<(Seq<char>, Val)>, ies: Seq<(Seq<char>, Val)>)
    ensures
        fmerge_entries(tes, ies, false) == merge_entries(tes, ies),
    decreases ies, 0nat,
{
    if ies.len() > 0 {
        lemma_fupsert_plain(tes, ies[0].0, ies[0].1);
        lemma_fmerge_entries_plain(upsert(tes, ies[0].0, ies[0].1), ies.subrange(1, ies.len() as int));
    }
}

/// Without case folding, one entry merges as in the plain merge.
proof fn lemma_fupsert_plain(tes: Seq<(Seq<char>, Val)>, k: Seq<char>, v: Val)
    ensures
        fupsert(tes, k, v, false) == upsert(tes, k, v),
    decreases v, 1nat,
{
    if let Some(j) = index_of(tes, k) {
        lemma_unfolded_merge_is_merge(tes[j].1, v);
    }
}

// ---------------------------------------------------------------------
// Sheets
// ---------------------------------------------------------------------

/// The model of a workbook's sheet list: name, whether it is a
/// worksheet, whether it is visible.
pub open spec fn meta_view(m: Seq<(String, bool, bool)>) -> Seq<(Seq<char>, bool, bool)> {
    m.map_values(|e: (String, bool, bool)| (e.0@, e.1, e.2))
}

/// Whether a sheet is read: only worksheets; hidden ones only when
/// hidden sheets are not ignored; commented names only when such names
/// are not ignored.
pub open spec fn sheet_kept(e: (Seq<char>, bool, bool), ignore_hidden: bool, ignore_prefix: bool) -> bool {
    e.1 && (!ignore_hidden || e.2) && (!ignore_prefix || !commented_spec(e.0))
}

/// The names of the sheets read, in workbook order.
pub open spec fn kept_names(m: Seq<(Seq<char>, bool, bool)>, ignore_hidden: bool, ignore_prefix: bool) -> Seq<Seq<char>>
    decreases m.len(),
{
    if m.len() == 0 {
        Seq::empty()
    } else if sheet_kept(m.last(), ignore_hidden, ignore_prefix) {
        kept_names(m.drop_last(), ignore_hidden, ignore_prefix).push(m.last().0)
    } else {
        kept_names(m.drop_last(), ignore_hidden, ignore_prefix)
    }
}

/// The names of the sheets that are read, in workbook order.
pub fn select_sheets(meta: &Vec<(String, bool, bool)>, ignore_hidden: bool, ignore_prefix: bool) -> (r: Vec<String>)
    ensures
        cells_view(r) == kept_names(meta_view(meta@), ignore_hidden, ignore_prefix),
{
    let ghost mv = meta_view(meta@);
    let mut out: Vec<String> = Vec::new();
    let mut i: usize = 0;
    assert(cells_view(out) =~= kept_names(mv.subrange(0, 0), ignore_hidden, ignore_prefix));
    while i < meta.len()
        invariant
            i <= meta@.len(),
            mv == meta_view(meta@),
            mv.len() == meta@.len(),
            cells_view(out) == kept_names(mv.subrange(0, i as int), ignore_hidden, ignore_prefix),
        decreases meta@.len() - i,
    {
        let ghost sub = mv.subrange(0, i as int + 1);
        assert(sub.drop_last() =~= mv.subrange(0, i as int));
        assert(sub.last() == mv[i as int]);
        assert(mv[i as int] == (meta@[i as int].0@, meta@[i as int].1, meta@[i as int].2));
        let e = &meta[i];
        if keep_sheet(e.1, e.2, e.0.as_str(), ignore_hidden, ignore_prefix) {
            let ghost before = cells_view(out);
            out.push(e.0.as_str().to_owned());
            assert(cells_view(out) =~= before.push(mv[i as int].0));
        }
        i = i + 1;
    }
    assert(mv.subrange(0, mv.len() as int) =~= mv);
    out
}

/// The message for a named sheet a workbook lacks.
pub open spec fn missing_sheet_msg(name: Seq<char>) -> Seq<char> {
    "sheet '"@ + name + "' not found"@
}

/// The sheets a workbook source reads, in reading order: a sheet the
/// source names, alone and never filtered (an error when the workbook
/// lacks it); else the kept sheets, in workbook order when each becomes
/// a key, otherwise in the load order.
pub fn pick_sheets(
    explicit: Option<&str>,
    meta: &Vec<(String, bool, bool)>,
    ignore_hidden: bool,
    ignore_prefix: bool,
    keyed: bool,
    order: Order,
) -> (r: Result<Vec<String>, String>)
    ensures
        match explicit {
            Some(n) => if exists|i: int| 0 <= i < meta@.len() && (#[trigger] meta@[i]).0@ == n@ {
                r matches Ok(v) && cells_view(v) == seq![n@]
            } else {
                r matches Err(m) && m@ == missing_sheet_msg(n@)
            },
            None => r matches Ok(v) && if keyed {
                cells_view(v) == kept_names(meta_view(meta@), ignore_hidden, ignore_prefix)
            } else {
                names_in_order(cells_view(v), order) && cells_view(v).to_multiset() == kept_names(
                    meta_view(meta@),
                    ignore_hidden,
                    ignore_prefix,
                ).to_multiset()
            },
        },
{
    match explicit {
        Some(n) => {
            if has_sheet(meta, n) {
                let mut v: Vec<String> = Vec::new();
                v.push(n.to_string());
                assert(cells_view(v) =~= seq![n@]);
                Ok(v)
            } else {
                let mut m = String::new();
                push_str(&mut m, "sheet '");
                push_str(&mut m, n);
                push_str(&mut m, "' not found");
                Err(m)
            }
        },
        None => {
            let names = select_sheets(meta, ignore_hidden, ignore_prefix);
            if keyed {
                Ok(names)
            } else {
                Ok(order_sheet_names(names, order))
            }
        },
    }
}

/// Whether the workbook has a sheet of this name (read or not).
pub fn has_sheet(meta: &Vec<(String, bool, bool)>, name: &str) -> (r: bool)
    ensures
        r == exists|i: int| 0 <= i < meta@.len() && (#[trigger] meta@[i]).0@ == name@,
{
    let mut i: usize = 0;
    while i < meta.len()
        invariant
            i <= meta@.len(),
            forall|j: int| 0 <= j < i ==> (#[trigger] meta@[j]).0@ != name@,
        decreases meta@.len() - i,
    {
        if key_compare(meta[i].0.as_str(), name) == 0 {
            return true;
        }
        i = i + 1;
    }
    false
}

/// Names in merge order: descending for the reverse order, else
/// ascending (sheets have no folder/file distinction).
pub open spec fn names_in_order(s: Seq<Seq<char>>, order: Order) -> bool {
    forall|i: int, j: int| 0 <= i < j < s.len() ==> if order is ReverseAlphabetic {
        !key_lt(#[trigger] s[i], #[trigger] s[j])
    } else {
        !key_lt(s[j], s[i])
    }
}

/// `a` goes strictly before `b` in the merge order.
pub open spec fn name_before(a: Seq<char>, b: Seq<char>, order: Order) -> bool {
    if order is ReverseAlphabetic {
        key_lt(b, a)
    } else {
        key_lt(a, b)
    }
}

/// Whether `a` goes strictly before `b` in the merge order.
fn goes_before(a: &str, b: &str, order: Order) -> (r: bool)
    ensures
        r == name_before(a@, b@, order),
{
    match order {
        Order::ReverseAlphabetic => key_compare(b, a) < 0,
        _ => key_compare(a, b) < 0,
    }
}

/// Sort sheet names into merge order.
pub fn order_sheet_names(names: Vec<String>, order: Order) -> (r: Vec<String>)
    ensures
        names_in_order(cells_view(r), order),
        cells_view(r).to_multiset() == cells_view(names).to_multiset(),
{
    broadcast use vstd::seq_lib::group_to_multiset_ensures;

    let ghost orig = cells_view(names);
    let mut rest = names;
    let mut out: Vec<String> = Vec::new();
    assert(cells_view(out) =~= Seq::<Seq<char>>::empty());
    assert(cells_view(out).to_multiset().add(cells_view(rest).to_multiset()) =~= orig.to_multiset());
    while rest.len() > 0
        invariant
            names_in_order(cells_view(out), order),
            cells_view(out).to_multiset().add(cells_view(rest).to_multiset()) == orig.to_multiset(),
        decreases rest@.len(),
    {
        let ghost r0 = cells_view(rest);
        let ghost o0 = cells_view(out);
        let item = rest.remove(0);
        let ghost iv = item@;
        assert(cells_view(rest) =~= r0.remove(0));
        assert(r0[0] == iv);
        let mut p: usize = 0;
        while p < out.len() && !goes_before(item.as_str(), out[p].as_str(), order)
            invariant
                p <= out@.len(),
                o0 == cells_view(out),
                iv == item@,
                forall|k: int| 0 <= k < p ==> !name_before(iv, #[trigger] o0[k], order),
            decreases out@.len() - p,
        {
            assert(o0[p as int] == out@[p as int]@);
            p = p + 1;
        }
        if p < out.len() {
            assert(o0[p as int] == out@[p as int]@);
        }
        out.insert(p, item);
        proof {
            let s2 = cells_view(out);
            assert(s2 =~= o0.insert(p as int, iv));
            assert forall|i: int, j: int| 0 <= i < j < s2.len() implies !name_before(#[trigger] s2[j], #[trigger] s2[i], order) by {
                lemma_key_order(s2[i], s2[j], s2[j]);
                if j < p {
                    assert(s2[i] == o0[i] && s2[j] == o0[j]);
                } else if j == p {
                    assert(s2[i] == o0[i]);
                } else if i < p {
                    assert(s2[i] == o0[i] && s2[j] == o0[j - 1]);
                } else if i == p {
                    assert(s2[j] == o0[j - 1]);
                    assert(name_before(iv, o0[p as int], order));
                    lemma_key_order(o0[j - 1], iv, o0[p as int]);
                    lemma_key_order(o0[p as int], iv, o0[j - 1]);
                    if j - 1 > p {
                        assert(!name_before(o0[j - 1], o0[p as int], order));
                    }
                    lemma_key_order(iv, iv, iv);
                } else {
                    assert(s2[i] == o0[i - 1] && s2[j] == o0[j - 1]);
                }
            }
            vstd::seq_lib::to_multiset_insert(o0, p as int, iv);
            vstd::seq_lib::to_multiset_remove(r0, 0);
            assert(r0.contains(iv));
            vstd::seq_lib::to_multiset_contains(r0, iv);
            assert(o0.to_multiset().insert(iv).add(r0.to_multiset().remove(iv)) =~= o0.to_multiset().add(r0.to_multiset()));
        }
    }
    assert(cells_view(rest) =~= Seq::<Seq<char>>::empty());
    assert(cells_view(out).to_multiset().add(vstd::multiset::Multiset::empty()) =~= cells_view(out).to_multiset());
    out
}

// ---------------------------------------------------------------------
// Combining sheet values
// ---------------------------------------------------------------------

/// Sheet values inserted one by one under their names into `acc`.
pub open spec fn keyed_into(acc: Val, s: Seq<(Seq<char>, Val)>, dot_key: bool) -> Val
    decreases s.len(),
{
    if s.len() == 0 {
        acc
    } else {
        keyed_into(insert_key_spec(acc, s[0].0, s[0].1, dot_key), s.subrange(1, s.len() as int), dot_key)
    }
}

/// Sheet values merged one by one into `acc` (`None`: nothing merged
/// yet); a `Null` sheet contributes nothing.
pub open spec fn merged_into(acc: Option<Val>, s: Seq<(Seq<char>, Val)>, lc: bool) -> Option<Val>
    decreases s.len(),
{
    if s.len() == 0 {
        acc
    } else {
        let next = if s[0].1 is Null {
            acc
        } else {
            Some(
                fmerged(
                    match acc {
                        Some(a) => a,
                        None => Val::Obj(Seq::empty()),
                    },
                    s[0].1,
                    lc,
                ),
            )
        };
        merged_into(next, s.subrange(1, s.len() as int), lc)
    }
}

/// A workbook's value from its sheets' values (in read order): keyed by
/// sheet name (no sheets: `Null`), or deep-merged like files (no
/// non-`Null` sheet: `Null`).
pub open spec fn combined(s: Seq<(Seq<char>, Val)>, keyed: bool, dot_key: bool, lc: bool) -> Val {
    if keyed {
        if s.len() == 0 {
            Val::Null
        } else {
            keyed_into(Val::Obj(Seq::empty()), s, dot_key)
        }
    } else {
        match merged_into(None, s, lc) {
            Some(v) => v,
            None => Val::Null,
        }
    }
}

/// An empty object.
fn empty_object() -> (r: Value)
    ensures
        r@ == Val::Obj(Seq::empty()),
        wf(r@),
{
    let es: Vec<(String, Value)> = Vec::new();
    proof {
        lemma_view_entries(es@);
        assert(view_entries(es@) =~= Seq::<(Seq<char>, Val)>::empty());
    }
    Value::Object(es)
}

/// One sheet's value under its sheet name, inserted the way every data
/// key is (so a dotted name expands when `dot_key`).
pub fn sheet_key(name: &str, value: Value, dot_key: bool) -> (r: Value)
    requires
        wf(value@),
    ensures
        r@ == insert_key_spec(Val::Obj(Seq::empty()), name@, value@, dot_key),
        wf(r@),
{
    let mut root = empty_object();
    insert_key(&mut root, name, value, dot_key);
    root
}

/// Combine the values of a workbook's sheets, given in read order with
/// their names: with `keyed`, each goes in under its sheet name; else
/// they deep-merge in order, keys folded to lower case when `lowercase`,
/// `Null` sheets contributing nothing.
pub fn combine_sheets(sheets: Vec<(String, Value)>, keyed: bool, dot_key: bool, lowercase: bool) -> (r: Value)
    requires
        entries_wf(view_entries(sheets@)),
    ensures
        r@ == combined(view_entries(sheets@), keyed, dot_key, lowercase),
        wf(r@),
{
    let ghost s0 = view_entries(sheets@);
    let none = sheets.len() == 0;
    let mut rest = sheets;
    let mut acc = empty_object();
    let mut any = false;
    proof {
        lemma_view_entries(rest@);
        lemma_entries_wf(s0);
    }
    while rest.len() > 0
        invariant
            entries_wf(view_entries(rest@)),
            wf(acc@),
            keyed ==> keyed_into(Val::Obj(Seq::empty()), s0, dot_key) == keyed_into(acc@, view_entries(rest@), dot_key),
            !keyed ==> merged_into(None, s0, lowercase) == merged_into(
                if any { Some(acc@) } else { None },
                view_entries(rest@),
                lowercase,
            ),
            !keyed && !any ==> acc@ == Val::Obj(Seq::empty()),
        decreases rest@.len(),
    {
        let ghost before = rest@;
        proof {
            lemma_view_entries(before);
            lemma_entries_wf(view_entries(before));
        }
        let (name, value) = rest.remove(0);
        proof {
            lemma_view_entries_tail(before);
            assert(rest@ =~= before.subrange(1, before.len() as int));
            assert(view_entries(before)[0] == (name@, value@));
            assert(wf(value@));
            lemma_entries_wf(view_entries(rest@));
            assert forall|i: int| 0 <= i < view_entries(rest@).len() implies wf(#[trigger] view_entries(rest@)[i].1) by {
                assert(view_entries(rest@)[i] == view_entries(before)[i + 1]);
            }
        }
        if keyed {
            insert_key(&mut acc, name.as_str(), value, dot_key);
        } else if let Value::Null = value {
        } else {
            let mut taken = empty_object();
            std::mem::swap(&mut taken, &mut acc);
            acc = merge_folded(taken, value, lowercase);
            any = true;
        }
    }
    if keyed {
        if none {
            return Value::Null;
        }
        acc
    } else if any {
        acc
    } else {
        Value::Null
    }
}

} // verus!
