//! The deep merge: objects merge recursively, everything else (arrays
//! and scalars alike) is replaced by the incoming value.

use vstd::prelude::*;

use crate::value::{
    Val, Value, entries_wf, key_compare, key_lt, keys_sorted, lemma_entries_wf, lemma_key_order,
    lemma_lookup_at, lemma_view_entries, lemma_view_entries_ext, lookup, view_entries, wf,
};

verus! {

// ---------------------------------------------------------------------
// Specification
// ---------------------------------------------------------------------

/// The index of key `k` in an entry sequence, if present.
pub open spec fn index_of<V>(es: Seq<(Seq<char>, V)>, k: Seq<char>) -> Option<int> {
    if exists|j: int| 0 <= j < es.len() && es[j].0 == k {
        Some(choose|j: int| 0 <= j < es.len() && es[j].0 == k)
    } else {
        None
    }
}

/// How many keys sort before `k` — in sorted entries, where `k` goes.
pub open spec fn rank<V>(es: Seq<(Seq<char>, V)>, k: Seq<char>) -> int
    decreases es.len(),
{
    if es.len() == 0 {
        0
    } else {
        rank(es.drop_last(), k) + if key_lt(es.last().0, k) { 1int } else { 0 }
    }
}

/// `es` with `k` mapped to `v`: the existing entry replaced, or a new
/// entry at its sorted position.
pub open spec fn set_key<V>(es: Seq<(Seq<char>, V)>, k: Seq<char>, v: V) -> Seq<(Seq<char>, V)> {
    match index_of(es, k) {
        Some(j) => es.update(j, (k, v)),
        None => es.insert(rank(es, k), (k, v)),
    }
}

/// `target` deep-merged with `incoming`: two objects merge key by key;
/// otherwise the incoming value replaces the target.
pub open spec fn merged(target: Val, incoming: Val) -> Val
    decreases incoming, 0nat,
{
    match (target, incoming) {
        (Val::Obj(te), Val::Obj(ie)) => Val::Obj(merge_entries(te, ie)),
        _ => incoming,
    }
}

/// The entries of `te` with each entry of `ie` merged in, in order.
pub open spec fn merge_entries(te: Seq<(Seq<char>, Val)>, ie: Seq<(Seq<char>, Val)>) -> Seq<
    (Seq<char>, Val),
>
    decreases ie, 0nat,
{
    if ie.len() == 0 {
        te
    } else {
        merge_entries(upsert(te, ie[0].0, ie[0].1), ie.subrange(1, ie.len() as int))
    }
}

/// One incoming entry merged into `te`: a present key merges its value,
/// an absent key is inserted as is.
pub open spec fn upsert(te: Seq<(Seq<char>, Val)>, k: Seq<char>, v: Val) -> Seq<(Seq<char>, Val)>
    decreases v, 1nat,
{
    match index_of(te, k) {
        Some(j) => te.update(j, (k, merged(te[j].1, v))),
        None => te.insert(rank(te, k), (k, v)),
    }
}

// ---------------------------------------------------------------------
// Lemmas about sorted entries
// ---------------------------------------------------------------------

/// In sorted entries, the keys below `k` form the prefix of length
/// `rank`.
pub proof fn lemma_rank<V>(es: Seq<(Seq<char>, V)>, k: Seq<char>)
    requires
        keys_sorted(es),
    ensures
        0 <= rank(es, k) <= es.len(),
        forall|j: int| 0 <= j < rank(es, k) ==> key_lt(#[trigger] es[j].0, k),
        forall|j: int| rank(es, k) <= j < es.len() ==> !key_lt(#[trigger] es[j].0, k),
    decreases es.len(),
{
    if es.len() > 0 {
        let p = es.drop_last();
        assert(keys_sorted(p)) by {
            assert forall|i: int, j: int| 0 <= i < j < p.len() implies key_lt(
                #[trigger] p[i].0,
                #[trigger] p[j].0,
            ) by {
                assert(p[i] == es[i] && p[j] == es[j]);
            }
        }
        lemma_rank(p, k);
        let r = rank(p, k);
        let last = es.last();
        if key_lt(last.0, k) {
            // everything before the last key sorts below it, hence below k
            assert forall|j: int| 0 <= j < rank(es, k) implies key_lt(#[trigger] es[j].0, k) by {
                if j < es.len() - 1 {
                    assert(key_lt(es[j].0, last.0));
                    lemma_key_order(es[j].0, last.0, k);
                }
            }
            assert(r == p.len()) by {
                if r < p.len() {
                    assert(!key_lt(p[r].0, k));
                    assert(key_lt(es[r].0, last.0));
                    lemma_key_order(es[r].0, last.0, k);
                }
            }
        } else {
            assert forall|j: int| 0 <= j < rank(es, k) implies key_lt(#[trigger] es[j].0, k) by {
                assert(es[j] == p[j]);
            }
            assert forall|j: int| rank(es, k) <= j < es.len() implies !key_lt(#[trigger] es[j].0, k) by {
                if j < es.len() - 1 {
                    assert(es[j] == p[j]);
                }
            }
        }
    }
}

/// `index_of` in sorted entries: the key is found at `rank` if it is
/// present at all.
pub proof fn lemma_index_of<V>(es: Seq<(Seq<char>, V)>, k: Seq<char>)
    requires
        keys_sorted(es),
    ensures
        index_of(es, k) matches Some(j) ==> j == rank(es, k) && 0 <= j < es.len() && es[j].0 == k,
        index_of(es, k) is None <==> (rank(es, k) == es.len() || es[rank(es, k)].0 != k),
        index_of(es, k) is None ==> forall|j: int| 0 <= j < es.len() ==> (#[trigger] es[j]).0 != k,
{
    lemma_rank(es, k);
    let r = rank(es, k);
    lemma_key_order(k, k, k);
    if exists|j: int| 0 <= j < es.len() && es[j].0 == k {
        let j = choose|j: int| 0 <= j < es.len() && es[j].0 == k;
        assert(!key_lt(es[j].0, k));
        assert(j >= r);
        if j > r {
            assert(!key_lt(es[r].0, k));
            assert(key_lt(es[r].0, es[j].0));
            lemma_key_order(es[r].0, k, k);
        }
    } else {
        if r < es.len() {
            assert(es[r].0 != k);
        }
    }
}

/// Replacing or inserting keeps the keys sorted.
pub proof fn lemma_set_key_sorted<V>(es: Seq<(Seq<char>, V)>, k: Seq<char>, v: V)
    requires
        keys_sorted(es),
    ensures
        keys_sorted(set_key(es, k, v)),
        set_key(es, k, v).len() == es.len() + (if index_of(es, k) is Some { 0int } else { 1 }),
{
    lemma_index_of(es, k);
    lemma_rank(es, k);
    let r = rank(es, k);
    match index_of(es, k) {
        Some(j) => {
            let a = es.update(j, (k, v));
            assert forall|x: int, y: int| 0 <= x < y < a.len() implies key_lt(
                #[trigger] a[x].0,
                #[trigger] a[y].0,
            ) by {
                assert(a[x].0 == es[x].0 && a[y].0 == es[y].0);
            }
        },
        None => {
            let a = es.insert(r, (k, v));
            assert forall|x: int, y: int| 0 <= x < y < a.len() implies key_lt(
                #[trigger] a[x].0,
                #[trigger] a[y].0,
            ) by {
                if y < r {
                    assert(a[x] == es[x] && a[y] == es[y]);
                } else if y == r {
                    assert(a[x] == es[x]);
                } else if x < r {
                    assert(a[x] == es[x] && a[y] == es[y - 1]);
                    assert(!key_lt(es[y - 1].0, k));
                    assert(es[y - 1].0 != k);
                    lemma_key_order(es[y - 1].0, k, es[y - 1].0);
                    lemma_key_order(es[x].0, k, es[y - 1].0);
                } else if x == r {
                    assert(a[y] == es[y - 1]);
                    assert(!key_lt(es[y - 1].0, k));
                    assert(es[y - 1].0 != k);
                    lemma_key_order(es[y - 1].0, k, es[y - 1].0);
                } else {
                    assert(a[x] == es[x - 1] && a[y] == es[y - 1]);
                }
            }
        },
    }
}

/// An upsert sets the key to the merge of the present value with the
/// new one (or to the new one, when absent).
pub proof fn lemma_upsert_set_key(es: Seq<(Seq<char>, Val)>, k: Seq<char>, v: Val)
    requires
        keys_sorted(es),
    ensures
        upsert(es, k, v) == set_key(
            es,
            k,
            match index_of(es, k) {
                Some(j) => merged(es[j].1, v),
                None => v,
            },
        ),
        keys_sorted(upsert(es, k, v)),
{
    let m = match index_of(es, k) {
        Some(j) => merged(es[j].1, v),
        None => v,
    };
    lemma_set_key_sorted(es, k, m);
}

/// Replacing or inserting keeps every value well-formed, given a
/// well-formed new value.
pub proof fn lemma_set_key_wf(es: Seq<(Seq<char>, Val)>, k: Seq<char>, v: Val)
    requires
        keys_sorted(es),
        entries_wf(es),
        wf(v),
    ensures
        entries_wf(set_key(es, k, v)),
{
    lemma_entries_wf(es);
    let a = set_key(es, k, v);
    lemma_index_of(es, k);
    lemma_rank(es, k);
    assert forall|i: int| 0 <= i < a.len() implies wf(#[trigger] a[i].1) by {
        match index_of(es, k) {
            Some(j) => {
                if i != j {
                    assert(a[i] == es[i]);
                }
            },
            None => {
                let r = rank(es, k);
                if i < r {
                    assert(a[i] == es[i]);
                } else if i > r {
                    assert(a[i] == es[i - 1]);
                }
            },
        }
    }
    lemma_entries_wf(a);
}

// ---------------------------------------------------------------------
// What a merge looks up to
// ---------------------------------------------------------------------

/// What the merged object holds under a key, given what the target and
/// the incoming object hold there: the incoming side wins, and two
/// present values merge.
pub open spec fn combine(t: Option<Val>, i: Option<Val>) -> Option<Val> {
    match (t, i) {
        (_, None) => t,
        (None, Some(v)) => Some(v),
        (Some(a), Some(b)) => Some(merged(a, b)),
    }
}

/// In sorted entries, `lookup` finds a present key at its index and
/// reports an absent key as absent.
pub proof fn lemma_lookup_cases<V>(es: Seq<(Seq<char>, V)>, k: Seq<char>)
    requires
        keys_sorted(es),
    ensures
        index_of(es, k) matches Some(j) ==> lookup(es, k) == Some(es[j].1),
        index_of(es, k) is None ==> lookup(es, k) is None,
{
    lemma_index_of(es, k);
    if let Some(j) = index_of(es, k) {
        lemma_lookup_at(es, j);
    }
}

/// Setting a key changes the lookup of that key only.
pub proof fn lemma_lookup_set_key<V>(es: Seq<(Seq<char>, V)>, k: Seq<char>, v: V, k2: Seq<char>)
    requires
        keys_sorted(es),
    ensures
        lookup(set_key(es, k, v), k2) == if k2 == k {
            Some(v)
        } else {
            lookup(es, k2)
        },
{
    let a = set_key(es, k, v);
    lemma_set_key_sorted(es, k, v);
    lemma_index_of(es, k);
    lemma_rank(es, k);
    let r = rank(es, k);
    // the position of k in the result
    let p = match index_of(es, k) {
        Some(j) => j,
        None => r,
    };
    assert(a[p] == (k, v));
    lemma_lookup_at(a, p);
    if k2 != k {
        lemma_lookup_cases(es, k2);
        lemma_lookup_cases(a, k2);
        lemma_index_of(es, k2);
        lemma_index_of(a, k2);
        match index_of(es, k2) {
            Some(j) => {
                // the entry of k2 is still there, shifted past p if inserted
                let q = if index_of(es, k) is None && j >= r { j + 1 } else { j };
                assert(a[q] == es[j]);
                lemma_lookup_at(a, q);
            },
            None => {
                assert forall|i: int| 0 <= i < a.len() implies (#[trigger] a[i]).0 != k2 by {
                    match index_of(es, k) {
                        Some(j) => {
                            if i != j {
                                assert(a[i] == es[i]);
                            }
                        },
                        None => {
                            if i < r {
                                assert(a[i] == es[i]);
                            } else if i > r {
                                assert(a[i] == es[i - 1]);
                            }
                        },
                    }
                }
            },
        }
    }
}

/// Upserting one entry: the key now holds the merge of what it held
/// with the new value (or the new value, if absent); other keys keep
/// their values.
proof fn lemma_lookup_upsert(es: Seq<(Seq<char>, Val)>, k: Seq<char>, v: Val, k2: Seq<char>)
    requires
        keys_sorted(es),
    ensures
        lookup(upsert(es, k, v), k2) == if k2 == k {
            combine(lookup(es, k), Some(v))
        } else {
            lookup(es, k2)
        },
{
    lemma_lookup_cases(es, k);
    match index_of(es, k) {
        Some(j) => {
            let m = merged(es[j].1, v);
            assert(upsert(es, k, v) == set_key(es, k, m));
            lemma_lookup_set_key(es, k, m, k2);
        },
        None => {
            assert(upsert(es, k, v) == set_key(es, k, v));
            lemma_lookup_set_key(es, k, v, k2);
        },
    }
}

/// Past its first entry, sorted entries no longer hold the first key,
/// and hold every other key as before.
pub proof fn lemma_lookup_tail(es: Seq<(Seq<char>, Val)>, k: Seq<char>)
    requires
        keys_sorted(es),
        es.len() > 0,
    ensures
        keys_sorted(es.subrange(1, es.len() as int)),
        lookup(es.subrange(1, es.len() as int), k) == if k == es[0].0 {
            None
        } else {
            lookup(es, k)
        },
{
    let t = es.subrange(1, es.len() as int);
    assert forall|i: int, j: int| 0 <= i < j < t.len() implies key_lt(
        #[trigger] t[i].0,
        #[trigger] t[j].0,
    ) by {
        assert(t[i] == es[i + 1] && t[j] == es[j + 1]);
    }
    lemma_lookup_cases(es, k);
    lemma_lookup_cases(t, k);
    lemma_index_of(es, k);
    lemma_index_of(t, k);
    lemma_key_order(es[0].0, es[0].0, es[0].0);
    if k == es[0].0 {
        assert forall|i: int| 0 <= i < t.len() implies (#[trigger] t[i]).0 != k by {
            assert(t[i] == es[i + 1]);
            assert(key_lt(es[0].0, es[i + 1].0));
        }
    } else {
        match index_of(es, k) {
            Some(j) => {
                assert(j != 0);
                assert(t[j - 1] == es[j]);
                lemma_lookup_at(t, j - 1);
            },
            None => {
                assert forall|i: int| 0 <= i < t.len() implies (#[trigger] t[i]).0 != k by {
                    assert(t[i] == es[i + 1]);
                }
            },
        }
    }
}

/// The deep merge of two objects holds, under every key, the incoming
/// value where only the incoming object has the key, the target's value
/// where only the target has it, and the merge of both where both have
/// it: later sources override earlier ones key by key, at every depth.
pub proof fn lemma_merge_lookup(te: Seq<(Seq<char>, Val)>, ie: Seq<(Seq<char>, Val)>, k: Seq<char>)
    requires
        keys_sorted(te),
        keys_sorted(ie),
    ensures
        lookup(merge_entries(te, ie), k) == combine(lookup(te, k), lookup(ie, k)),
    decreases ie.len(),
{
    if ie.len() == 0 {
        assert(lookup(ie, k) is None);
    } else {
        let k0 = ie[0].0;
        let v0 = ie[0].1;
        let te2 = upsert(te, k0, v0);
        let ie2 = ie.subrange(1, ie.len() as int);
        lemma_upsert_set_key(te, k0, v0);
        lemma_lookup_tail(ie, k);
        lemma_merge_lookup(te2, ie2, k);
        lemma_lookup_upsert(te, k0, v0, k);
        lemma_lookup_at(ie, 0);
    }
}

/// Arrays and scalars replace: whenever either side is not an object,
/// the merge is the incoming value itself.
pub proof fn lemma_merge_replaces(target: Val, incoming: Val)
    requires
        !(target is Obj) || !(incoming is Obj),
    ensures
        merged(target, incoming) == incoming,
{
}

/// Merging into sorted entries keeps them sorted.
pub proof fn lemma_merge_entries_sorted(te: Seq<(Seq<char>, Val)>, ie: Seq<(Seq<char>, Val)>)
    requires
        keys_sorted(te),
    ensures
        keys_sorted(merge_entries(te, ie)),
    decreases ie.len(),
{
    if ie.len() > 0 {
        lemma_upsert_set_key(te, ie[0].0, ie[0].1);
        lemma_merge_entries_sorted(upsert(te, ie[0].0, ie[0].1), ie.subrange(1, ie.len() as int));
    }
}

/// Two sorted entry sequences that agree on every lookup are equal.
pub proof fn lemma_sorted_lookup_ext(a: Seq<(Seq<char>, Val)>, b: Seq<(Seq<char>, Val)>)
    requires
        keys_sorted(a),
        keys_sorted(b),
        forall|k: Seq<char>| #[trigger] lookup(a, k) == lookup(b, k),
    ensures
        a == b,
    decreases a.len() + b.len(),
{
    if a.len() == 0 || b.len() == 0 {
        if b.len() > 0 {
            lemma_lookup_at(b, 0);
            assert(lookup(a, b[0].0) == lookup(b, b[0].0));
            lemma_lookup_cases(a, b[0].0);
            lemma_index_of(a, b[0].0);
        }
        if a.len() > 0 {
            lemma_lookup_at(a, 0);
            assert(lookup(a, a[0].0) == lookup(b, a[0].0));
            lemma_lookup_cases(b, a[0].0);
            lemma_index_of(b, a[0].0);
        }
        assert(a =~= b);
    } else {
        let ka = a[0].0;
        let kb = b[0].0;
        lemma_lookup_at(a, 0);
        lemma_lookup_at(b, 0);
        assert(lookup(a, ka) == lookup(b, ka));
        assert(lookup(a, kb) == lookup(b, kb));
        lemma_lookup_cases(a, kb);
        lemma_index_of(a, kb);
        lemma_lookup_cases(b, ka);
        lemma_index_of(b, ka);
        assert(ka == kb) by {
            let i = index_of(a, kb).unwrap();
            let j = index_of(b, ka).unwrap();
            if ka != kb {
                assert(i > 0 && j > 0);
                assert(key_lt(ka, a[i].0));
                assert(key_lt(kb, b[j].0));
                lemma_key_order(ka, kb, ka);
            }
        }
        assert(a[0] == b[0]);
        let ta = a.subrange(1, a.len() as int);
        let tb = b.subrange(1, b.len() as int);
        assert forall|k: Seq<char>| #[trigger] lookup(ta, k) == lookup(tb, k) by {
            lemma_lookup_tail(a, k);
            lemma_lookup_tail(b, k);
            assert(lookup(a, k) == lookup(b, k));
        }
        lemma_lookup_tail(a, ka);
        lemma_lookup_tail(b, kb);
        lemma_sorted_lookup_ext(ta, tb);
        assert(a =~= seq![a[0]] + ta);
        assert(b =~= seq![b[0]] + tb);
    }
}

/// A well-formed value merged with itself is itself.
pub proof fn lemma_merge_self(v: Val)
    requires
        wf(v),
    ensures
        merged(v, v) == v,
    decreases v,
{
    if let Val::Obj(es) = v {
        lemma_entries_wf(es);
        let m = merge_entries(es, es);
        lemma_merge_entries_sorted(es, es);
        assert forall|k: Seq<char>| #[trigger] lookup(m, k) == lookup(es, k) by {
            lemma_merge_lookup(es, es, k);
            lemma_lookup_cases(es, k);
            lemma_index_of(es, k);
            if let Some(j) = index_of(es, k) {
                assert(decreases_to!(v => es[j].1));
                lemma_merge_self(es[j].1);
            }
        }
        lemma_sorted_lookup_ext(m, es);
    }
}

/// Merging the same value a second time changes nothing: the merge of
/// `incoming` into `target`, merged with `incoming` again, is the first
/// merge (for well-formed values).
pub proof fn lemma_merge_idempotent(target: Val, incoming: Val)
    requires
        wf(target),
        wf(incoming),
    ensures
        merged(merged(target, incoming), incoming) == merged(target, incoming),
    decreases incoming,
{
    match (target, incoming) {
        (Val::Obj(te), Val::Obj(ie)) => {
            lemma_entries_wf(te);
            lemma_entries_wf(ie);
            let m = merge_entries(te, ie);
            let m2 = merge_entries(m, ie);
            lemma_merge_entries_sorted(te, ie);
            lemma_merge_entries_sorted(m, ie);
            assert forall|k: Seq<char>| #[trigger] lookup(m2, k) == lookup(m, k) by {
                lemma_merge_lookup(te, ie, k);
                lemma_merge_lookup(m, ie, k);
                lemma_lookup_cases(te, k);
                lemma_index_of(te, k);
                lemma_lookup_cases(ie, k);
                lemma_index_of(ie, k);
                if let Some(j) = index_of(ie, k) {
                    assert(decreases_to!(incoming => ie[j].1));
                    match index_of(te, k) {
                        Some(i) => {
                            lemma_merge_idempotent(te[i].1, ie[j].1);
                        },
                        None => {
                            lemma_merge_self(ie[j].1);
                        },
                    }
                }
            }
            lemma_sorted_lookup_ext(m2, m);
        },
        (_, Val::Obj(_)) => {
            lemma_merge_self(incoming);
        },
        _ => {},
    }
}

// ---------------------------------------------------------------------
// Executable merge
// ---------------------------------------------------------------------

/// Dropping the first entry drops the first model.
pub proof fn lemma_view_entries_tail(s: Seq<(String, Value)>)
    requires
        s.len() > 0,
    ensures
        view_entries(s.subrange(1, s.len() as int)) == view_entries(s).subrange(1, s.len() as int),
{
    lemma_view_entries(s);
    let t = s.subrange(1, s.len() as int);
    let w = view_entries(s).subrange(1, s.len() as int);
    assert forall|i: int| 0 <= i < t.len() implies (#[trigger] t[i]).0@ == w[i].0 && t[i].1@ == w[i].1 by {
        assert(t[i] == s[i + 1]);
    }
    lemma_view_entries_ext(t, w);
}

/// Where key `k` belongs in sorted entries, and whether it is present.
pub fn locate(es: &Vec<(String, Value)>, k: &str) -> (r: (usize, bool))
    requires
        keys_sorted(view_entries(es@)),
    ensures
        r.0 as int == rank(view_entries(es@), k@),
        r.1 == (index_of(view_entries(es@), k@) is Some),
        r.0 <= es@.len(),
{
    let ghost ve = view_entries(es@);
    proof {
        lemma_view_entries(es@);
        lemma_rank(ve, k@);
        lemma_index_of(ve, k@);
    }
    let mut p: usize = 0;
    while p < es.len() && key_compare(es[p].0.as_str(), k) < 0
        invariant
            p <= es@.len(),
            ve == view_entries(es@),
            ve.len() == es@.len(),
            forall|j: int| 0 <= j < es@.len() ==> #[trigger] ve[j] == (es@[j].0@, es@[j].1@),
            p <= rank(ve, k@),
            0 <= rank(ve, k@) <= ve.len(),
            forall|j: int| rank(ve, k@) <= j < ve.len() ==> !key_lt(#[trigger] ve[j].0, k@),
        decreases es@.len() - p,
    {
        assert(ve[p as int].0 == es@[p as int].0@);
        p = p + 1;
    }
    if p < es.len() {
        assert(ve[p as int].0 == es@[p as int].0@);
    }
    let found = p < es.len() && key_compare(es[p].0.as_str(), k) == 0;
    (p, found)
}

/// Map `k` to `v` in sorted entries: replace the existing entry or
/// insert a new one at its sorted position.
pub fn set_entry(es: &mut Vec<(String, Value)>, k: String, v: Value)
    requires
        keys_sorted(view_entries(old(es)@)),
    ensures
        view_entries(final(es)@) == set_key(view_entries(old(es)@), k@, v@),
{
    let ghost ve = view_entries(es@);
    proof {
        lemma_view_entries(es@);
        lemma_index_of(ve, k@);
    }
    let (p, found) = locate(es, k.as_str());
    let ghost kv = k@;
    let ghost vv = v@;
    if found {
        es.set(p, (k, v));
        proof {
            lemma_view_entries(es@);
            lemma_view_entries_ext(es@, ve.update(p as int, (kv, vv)));
        }
    } else {
        es.insert(p, (k, v));
        proof {
            lemma_view_entries(es@);
            assert forall|i: int| 0 <= i < es@.len() implies (#[trigger] es@[i]).0@ == ve.insert(
                p as int,
                (kv, vv),
            )[i].0 && es@[i].1@ == ve.insert(p as int, (kv, vv))[i].1 by {
                if i < p {
                    assert(es@[i] == old(es)@[i]);
                } else if i > p {
                    assert(es@[i] == old(es)@[i - 1]);
                }
            }
            lemma_view_entries_ext(es@, ve.insert(p as int, (kv, vv)));
        }
    }
}

/// Deep-merge `incoming` into `target`: objects merge recursively,
/// everything else — arrays and scalars alike — replaces.
#[verifier::loop_isolation(false)]
pub fn deep_merge(target: Value, incoming: Value) -> (r: Value)
    requires
        wf(target@),
        wf(incoming@),
    ensures
        r@ == merged(target@, incoming@),
        wf(r@),
    decreases incoming@, 1nat,
{
    let ghost tv = target@;
    let ghost iv = incoming@;
    match (target, incoming) {
        (Value::Object(te), Value::Object(ie)) => {
            let mut te = te;
            let mut ie = ie;
            let ghost te0 = view_entries(te@);
            let ghost ie0 = view_entries(ie@);
            let n: usize = ie.len();
            proof {
                lemma_view_entries(ie@);
                lemma_entries_wf(ie0);
                assert(ie0.subrange(0, n as int) =~= ie0);
            }
            let mut i: usize = 0;
            while ie.len() > 0
                invariant
                    iv == Val::Obj(ie0),
                    tv == Val::Obj(te0),
                    ie0.len() == n,
                    i <= n,
                    ie@.len() == n - i,
                    view_entries(ie@) == ie0.subrange(i as int, n as int),
                    forall|j: int| 0 <= j < n ==> wf(#[trigger] ie0[j].1),
                    keys_sorted(view_entries(te@)),
                    entries_wf(view_entries(te@)),
                    merge_entries(te0, ie0) == merge_entries(
                        view_entries(te@),
                        ie0.subrange(i as int, n as int),
                    ),
                decreases ie@.len(),
            {
                let ghost before = ie@;
                proof {
                    lemma_view_entries(before);
                    lemma_view_entries(ie@);
                }
                let (k, v) = ie.remove(0);
                proof {
                    lemma_view_entries_tail(before);
                    let rest = ie0.subrange(i as int, n as int);
                    assert(rest[0] == ie0[i as int]);
                    assert(view_entries(before)[0] == (k@, v@));
                    assert(v@ == ie0[i as int].1);
                    assert(k@ == ie0[i as int].0);
                    assert(iv->Obj_0 == ie0);
                    assert(decreases_to!(iv => iv->Obj_0));
                    assert(decreases_to!(ie0 => ie0[i as int]));
                    assert(decreases_to!(ie0[i as int] => ie0[i as int].1));
                    assert(decreases_to!(iv => v@));
                    assert(rest.subrange(1, rest.len() as int) =~= ie0.subrange(i + 1, n as int));
                    assert(ie@ == before.subrange(1, before.len() as int));
                }
                upsert_entry(&mut te, k, v);
                i = i + 1;
            }
            assert(ie0.subrange(i as int, n as int).len() == 0);
            Value::Object(te)
        },
        (_, incoming) => incoming,
    }
}

/// Merge one incoming entry into sorted entries: a present key merges
/// its value, an absent key is inserted as is.
pub fn upsert_entry(es: &mut Vec<(String, Value)>, k: String, v: Value)
    requires
        keys_sorted(view_entries(old(es)@)),
        entries_wf(view_entries(old(es)@)),
        wf(v@),
    ensures
        view_entries(final(es)@) == upsert(view_entries(old(es)@), k@, v@),
        keys_sorted(view_entries(final(es)@)),
        entries_wf(view_entries(final(es)@)),
    decreases v@, 2nat,
{
    let ghost ve = view_entries(es@);
    proof {
        lemma_view_entries(es@);
        lemma_index_of(ve, k@);
        lemma_entries_wf(ve);
        lemma_upsert_set_key(ve, k@, v@);
    }
    let (p, found) = locate(es, k.as_str());
    if found {
        let (key, old_value) = es.remove(p);
        proof {
            assert(ve[p as int] == (key@, old_value@));
        }
        let m = deep_merge(old_value, v);
        es.insert(p, (key, m));
        proof {
            lemma_view_entries(es@);
            let want = ve.update(p as int, (k@, merged(ve[p as int].1, v@)));
            assert forall|i: int| 0 <= i < es@.len() implies (#[trigger] es@[i]).0@ == want[i].0
                && es@[i].1@ == want[i].1 by {
                if i != p {
                    assert(es@[i] == old(es)@[i]);
                }
            }
            lemma_view_entries_ext(es@, want);
            lemma_set_key_wf(ve, k@, merged(ve[p as int].1, v@));
            assert(set_key(ve, k@, merged(ve[p as int].1, v@)) == want);
        }
    } else {
        let ghost vv = v@;
        set_entry(es, k, v);
        proof {
            lemma_set_key_wf(ve, k@, vv);
        }
    }
}

} // verus!
