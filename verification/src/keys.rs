//! Keys that build structure: with `dot_key` on, `a.b.c` nests objects
//! and a segment's array suffixes address arrays — `name[]` appends one
//! element per occurrence, `name[<int>]` addresses that element (growing
//! the array with `Null`s), and chained suffixes nest (`a[1][2]`). With
//! `dot_key` off a key is one literal object key.

use vstd::prelude::*;

use crate::merge::{deep_merge, lemma_lookup_cases, lemma_set_key_sorted, lemma_set_key_wf, locate, merged, set_key, lemma_index_of, lemma_rank};
use crate::text::{all_digits, digit_value, is_digit, string_of, to_vec};
use crate::valid::{decimal_value, find, find_char, lemma_find_char};
use crate::value::{Val, Value, entries_wf, items_wf, keys_sorted, lemma_entries_wf, lemma_items_wf, lemma_view_entries, lemma_view_entries_ext, lemma_view_items, lemma_view_items_ext, lookup, view_entries, view_items, wf};

verus! {

/// One array suffix of a key segment.
#[derive(Debug, Clone, Copy, PartialEq, Eq, Structural)]
pub enum ArrayPart {
    /// `[]`: a new element at the end.
    Append,
    /// `[<int>]`: the element at that index.
    Index(usize),
}

// ---------------------------------------------------------------------
// Specification
// ---------------------------------------------------------------------

/// `s` cut at every `c`: the pieces between the separators, in order
/// (one piece when `c` does not occur).
pub open spec fn split_on(s: Seq<char>, c: char) -> Seq<Seq<char>>
    decreases s.len(),
{
    match find_char(s, c, 0) {
        None => seq![s],
        Some(i) => if 0 <= i < s.len() {
            seq![s.subrange(0, i)] + split_on(s.subrange(i + 1, s.len() as int), c)
        } else {
            seq![s]
        },
    }
}

/// The suffix named by the text between one `[` and its `]`: empty is
/// append, decimal digits are an index (fitting below `usize::MAX`).
pub open spec fn part_of(d: Seq<char>) -> Option<ArrayPart> {
    if d.len() == 0 {
        Some(ArrayPart::Append)
    } else if all_digits(d) && decimal_value(d) < usize::MAX {
        Some(ArrayPart::Index(decimal_value(d) as usize))
    } else {
        None
    }
}

/// The back-to-back `[..]` groups of `s` from `i` to its end, if that is
/// all that follows.
pub open spec fn groups_at(s: Seq<char>, i: int) -> Option<Seq<ArrayPart>>
    decreases s.len() - i,
{
    if i < 0 || i >= s.len() {
        if i == s.len() { Some(seq![]) } else { None }
    } else if s[i] != '[' {
        None
    } else {
        match find_char(s, ']', i + 1) {
            None => None,
            Some(j) => if i < j < s.len() {
                match (part_of(s.subrange(i + 1, j)), groups_at(s, j + 1)) {
                    (Some(p), Some(rest)) => Some(seq![p] + rest),
                    _ => None,
                }
            } else {
                None
            },
        }
    }
}

/// A segment's base name and array suffixes: a non-empty name, then one
/// or more groups running to the end. Anything else is `None` (the
/// segment is a literal key).
pub open spec fn segment_parts(seg: Seq<char>) -> Option<(Seq<char>, Seq<ArrayPart>)> {
    match find_char(seg, '[', 0) {
        None => None,
        Some(open) => if 0 < open {
            match groups_at(seg, open) {
                Some(ps) => Some((seg.subrange(0, open), ps)),
                None => None,
            }
        } else {
            None
        },
    }
}

/// The name and suffixes a segment addresses.
pub open spec fn seg_split(seg: Seq<char>) -> (Seq<char>, Seq<ArrayPart>) {
    match segment_parts(seg) {
        Some(x) => x,
        None => (seg, seq![]),
    }
}

/// `items` grown with `Null`s to length `n` (unchanged if already that
/// long).
pub open spec fn pad(items: Seq<Val>, n: int) -> Seq<Val> {
    if items.len() >= n {
        items
    } else {
        items + Seq::new((n - items.len()) as nat, |i: int| Val::Null)
    }
}

/// `v` inserted into `slot` along the segments `segs`: each segment's
/// name lives in an object (anything else there is replaced by one), its
/// suffixes walk arrays, and at the end `v` deep-merges into what is
/// there.
pub open spec fn ins_segs(slot: Val, segs: Seq<Seq<char>>, v: Val) -> Val
    decreases segs.len(), 0nat,
{
    if segs.len() == 0 {
        merged(slot, v)
    } else {
        let es = match slot {
            Val::Obj(es) => es,
            _ => seq![],
        };
        let name = seg_split(segs[0]).0;
        let cur = match lookup(es, name) {
            Some(c) => c,
            None => Val::Null,
        };
        Val::Obj(set_key(es, name, ins_parts(cur, seg_split(segs[0]).1, segs.drop_first(), v)))
    }
}

/// `v` inserted into `slot` through the array suffixes `parts`, then the
/// remaining segments `rest`.
pub open spec fn ins_parts(slot: Val, parts: Seq<ArrayPart>, rest: Seq<Seq<char>>, v: Val) -> Val
    decreases rest.len(), parts.len() + 1,
{
    if parts.len() == 0 {
        ins_segs(slot, rest, v)
    } else {
        let items = match slot {
            Val::Arr(items) => items,
            _ => seq![],
        };
        let idx: int = match parts[0] {
            ArrayPart::Append => items.len() as int,
            ArrayPart::Index(i) => i as int,
        };
        let padded = pad(items, idx + 1);
        Val::Arr(padded.update(idx, ins_parts(padded[idx], parts.drop_first(), rest, v)))
    }
}

/// What `insert_key` makes of `root`.
pub open spec fn insert_key_spec(root: Val, key: Seq<char>, v: Val, dot_key: bool) -> Val {
    if dot_key {
        ins_segs(root, split_on(key, '.'), v)
    } else {
        merged(root, Val::Obj(seq![(key, v)]))
    }
}

/// A key with no `.` and no `[` is one plain name: inserting it with
/// `dot_key` on gives exactly what the literal insertion gives.
pub proof fn lemma_plain_key_either_way(root: Val, key: Seq<char>, v: Val)
    requires
        wf(root),
        find_char(key, '.', 0) is None,
        find_char(key, '[', 0) is None,
    ensures
        insert_key_spec(root, key, v, true) == insert_key_spec(root, key, v, false),
{
    assert(split_on(key, '.') == seq![key]);
    let segs = seq![key];
    assert(segs.drop_first() =~= Seq::<Seq<char>>::empty());
    assert(seg_split(key) == (key, Seq::<ArrayPart>::empty()));
    let es = match root {
        Val::Obj(es) => es,
        _ => Seq::<(Seq<char>, Val)>::empty(),
    };
    assert(keys_sorted(es));
    lemma_lookup_cases(es, key);
    let single = seq![(key, v)];
    assert(single.subrange(1, 1) =~= Seq::<(Seq<char>, Val)>::empty());
    reveal_with_fuel(crate::merge::merge_entries, 2);
    let cur = match lookup(es, key) {
        Some(c) => c,
        None => Val::Null,
    };
    assert(ins_segs(cur, Seq::<Seq<char>>::empty(), v) == merged(cur, v));
    assert(ins_parts(cur, Seq::<ArrayPart>::empty(), Seq::<Seq<char>>::empty(), v) == ins_segs(
        cur,
        Seq::<Seq<char>>::empty(),
        v,
    ));
    assert(crate::merge::merge_entries(es, single) == crate::merge::upsert(es, key, v));
    lemma_index_of(es, key);
    if !(root is Obj) {
        lemma_index_of(es, key);
        lemma_rank(es, key);
        assert(set_key(es, key, v) =~= single);
    }
}

// ---------------------------------------------------------------------
// Splitting
// ---------------------------------------------------------------------

/// The character sequences of a sequence of character vectors.
pub open spec fn char_seqs(v: Seq<Vec<char>>) -> Seq<Seq<char>> {
    v.map_values(|x: Vec<char>| x@)
}

/// `s` cut at every `c`.
pub fn split_chars(s: &[char], c: char) -> (r: Vec<Vec<char>>)
    ensures
        char_seqs(r@) == split_on(s@, c),
{
    let mut out: Vec<Vec<char>> = Vec::new();
    let mut start: usize = 0;
    assert(char_seqs(out@) =~= Seq::<Seq<char>>::empty());
    assert(s@.subrange(0, s@.len() as int) =~= s@);
    assert(Seq::<Seq<char>>::empty() + split_on(s@, c) =~= split_on(s@, c));
    loop
        invariant
            start <= s@.len(),
            char_seqs(out@) + split_on(s@.subrange(start as int, s@.len() as int), c) == split_on(
                s@,
                c,
            ),
        decreases s@.len() - start,
    {
        let ghost rest = s@.subrange(start as int, s@.len() as int);
        match find(s, c, start) {
            None => {
                proof {
                    lemma_find_char(s@, c, start as int);
                    lemma_find_char(rest, c, 0);
                    if let Some(i) = find_char(rest, c, 0) {
                        assert(rest[i] == s@[start + i]);
                    }
                }
                let piece = to_vec(&s[start..s.len()]);
                let ghost before = char_seqs(out@);
                out.push(piece);
                assert(char_seqs(out@) =~= before.push(rest));
                assert(split_on(rest, c) == seq![rest]);
                assert(before + seq![rest] =~= before.push(rest));
                return out;
            },
            Some(i) => {
                proof {
                    lemma_find_char(s@, c, start as int);
                    lemma_find_char(rest, c, 0);
                    let k = (i - start) as int;
                    assert(rest[k] == c);
                    match find_char(rest, c, 0) {
                        Some(m) => {
                            assert(rest[m] == s@[start + m]);
                            assert(m == k);
                        },
                        None => {
                            assert(rest[k] != c);
                        },
                    }
                    assert(rest.subrange(0, k) =~= s@.subrange(start as int, i as int));
                    assert(rest.subrange(k + 1, rest.len() as int) =~= s@.subrange(
                        i + 1,
                        s@.len() as int,
                    ));
                }
                let piece = to_vec(&s[start..i]);
                let ghost before = char_seqs(out@);
                out.push(piece);
                assert(char_seqs(out@) =~= before.push(s@.subrange(start as int, i as int)));
                proof {
                    let tail = split_on(s@.subrange(i + 1, s@.len() as int), c);
                    assert(before + (seq![s@.subrange(start as int, i as int)] + tail) =~= before.push(
                        s@.subrange(start as int, i as int),
                    ) + tail);
                }
                assert(i < s.len());
                start = i + 1;
            },
        }
    }
}

/// The decimal value of `b[from..to]` if it is all digits and below
/// `usize::MAX`.
fn index_value(b: &[char], from: usize, to: usize) -> (r: Option<usize>)
    requires
        from < to <= b@.len(),
    ensures
        r == (match part_of(b@.subrange(from as int, to as int)) {
            Some(ArrayPart::Index(i)) => Some(i),
            _ => None::<usize>,
        }),
{
    let ghost d = b@.subrange(from as int, to as int);
    let mut v: usize = 0;
    let mut big = false;
    let mut i = from;
    while i < to
        invariant
            from <= i <= to <= b@.len(),
            d == b@.subrange(from as int, to as int),
            all_digits(b@.subrange(from as int, i as int)),
            !big ==> v as nat == decimal_value(b@.subrange(from as int, i as int)),
            big ==> decimal_value(b@.subrange(from as int, i as int)) > usize::MAX,
        decreases to - i,
    {
        let c = b[i];
        if !('0' <= c && c <= '9') {
            assert(d[(i - from) as int] == c);
            assert(!is_digit(d[(i - from) as int]));
            return None;
        }
        let ghost p = b@.subrange(from as int, i as int);
        let ghost q = b@.subrange(from as int, i + 1);
        assert(q.drop_last() =~= p);
        assert(q.last() == c);
        assert(all_digits(q)) by {
            assert forall|k: int| 0 <= k < q.len() implies is_digit(#[trigger] q[k]) by {
                if k < p.len() {
                    assert(q[k] == p[k]);
                }
            }
        }
        let dv: usize = ((c as u32) - ('0' as u32)) as usize;
        assert(dv as nat == digit_value(c));
        if !big {
            if v > (usize::MAX - dv) / 10 {
                assert(v * 10 + dv > usize::MAX) by (nonlinear_arith)
                    requires
                        v > (usize::MAX - dv) / 10,
                        dv <= 9,
                ;
                big = true;
            } else {
                assert(v * 10 + dv <= usize::MAX) by (nonlinear_arith)
                    requires
                        v <= (usize::MAX - dv) / 10,
                        dv <= 9,
                ;
                v = v * 10 + dv;
            }
        } else {
            assert(decimal_value(q) >= decimal_value(p) * 10) by (nonlinear_arith)
                requires
                    decimal_value(q) == decimal_value(p) * 10 + digit_value(c),
            ;
        }
        i = i + 1;
    }
    assert(b@.subrange(from as int, i as int) =~= d);
    if big || v == usize::MAX {
        None
    } else {
        Some(v)
    }
}

/// Split one segment into its base name and array suffixes; `None` when
/// the segment is not exactly a non-empty name followed by back-to-back
/// `[]` / `[<digits>]` groups (the segment is then a literal key).
pub fn split_segment(seg: &[char]) -> (r: Option<(Vec<char>, Vec<ArrayPart>)>)
    ensures
        match segment_parts(seg@) {
            None => r is None,
            Some((name, parts)) => r matches Some((n, ps)) && n@ == name && ps@ == parts,
        },
{
    proof {
        lemma_find_char(seg@, '[', 0);
    }
    let open = match find(seg, '[', 0) {
        None => return None,
        Some(o) => o,
    };
    if open == 0 {
        return None;
    }
    let mut parts: Vec<ArrayPart> = Vec::new();
    let mut i = open;
    while i < seg.len()
        invariant
            open <= i <= seg@.len(),
            0 < open,
            find_char(seg@, '[', 0) == Some(open as int),
            groups_at(seg@, open as int) == match groups_at(seg@, i as int) {
                Some(rest) => Some(parts@ + rest),
                None => None::<Seq<ArrayPart>>,
            },
        decreases seg@.len() - i,
    {
        let ghost g = groups_at(seg@, i as int);
        if seg[i] != '[' {
            assert(g is None);
            return None;
        }
        proof {
            lemma_find_char(seg@, ']', i + 1);
        }
        let j = match find(seg, ']', i + 1) {
            None => {
                assert(g is None);
                return None;
            },
            Some(j) => j,
        };
        let part = if j == i + 1 {
            assert(seg@.subrange(i + 1, j as int).len() == 0);
            ArrayPart::Append
        } else {
            match index_value(seg, i + 1, j) {
                None => {
                    assert(g is None);
                    return None;
                },
                Some(n) => ArrayPart::Index(n),
            }
        };
        assert(part_of(seg@.subrange(i + 1, j as int)) == Some(part));
        proof {
            match groups_at(seg@, j + 1) {
                Some(rest) => {
                    assert(g == Some(seq![part] + rest));
                    assert(parts@ + (seq![part] + rest) =~= parts@.push(part) + rest);
                },
                None => {
                    assert(g is None);
                },
            }
        }
        parts.push(part);
        i = j + 1;
    }
    assert(groups_at(seg@, i as int) == Some(Seq::<ArrayPart>::empty()));
    assert(parts@ + Seq::<ArrayPart>::empty() =~= parts@);
    let name = to_vec(&seg[0..open]);
    assert(name@ =~= seg@.subrange(0, open as int));
    Some((name, parts))
}

// ---------------------------------------------------------------------
// Insertion
// ---------------------------------------------------------------------

/// `pad` keeps every element well-formed.
proof fn lemma_pad_wf(items: Seq<Val>, n: int)
    requires
        items_wf(items),
    ensures
        items_wf(pad(items, n)),
        pad(items, n).len() == if items.len() >= n { items.len() as int } else { n },
        forall|i: int| 0 <= i < items.len() ==> #[trigger] pad(items, n)[i] == items[i],
        forall|i: int| items.len() <= i < pad(items, n).len() ==> #[trigger] pad(items, n)[i] == Val::Null,
{
    lemma_items_wf(items);
    lemma_items_wf(pad(items, n));
}

/// Insert `v` into `slot` along `segs[k..]`.
#[verifier::rlimit(40)]
pub fn insert_segments(slot: Value, segs: &Vec<Vec<char>>, k: usize, v: Value) -> (r: Value)
    requires
        k <= segs@.len(),
        wf(slot@),
        wf(v@),
    ensures
        r@ == ins_segs(slot@, char_seqs(segs@).subrange(k as int, segs@.len() as int), v@),
        wf(r@),
    decreases segs@.len() - k, 0nat,
{
    let ghost rest = char_seqs(segs@).subrange(k as int, segs@.len() as int);
    if k == segs.len() {
        assert(rest.len() == 0);
        return deep_merge(slot, v);
    }
    let ghost sv = slot@;
    let mut entries: Vec<(String, Value)> = match slot {
        Value::Object(es) => es,
        _ => Vec::new(),
    };
    let ghost es = view_entries(entries@);
    assert(es == match sv {
        Val::Obj(x) => x,
        _ => Seq::<(Seq<char>, Val)>::empty(),
    });
    assert(keys_sorted(es) && entries_wf(es));
    let seg = &segs[k];
    assert(seg@ == rest[0]);
    let (name, parts) = match split_segment(seg.as_slice()) {
        Some(x) => x,
        None => (to_vec(seg.as_slice()), Vec::new()),
    };
    assert(name@ == seg_split(rest[0]).0 && parts@ == seg_split(rest[0]).1);
    let key = string_of(name.as_slice());
    proof {
        lemma_view_entries(entries@);
        lemma_lookup_cases(es, key@);
        lemma_index_of(es, key@);
        lemma_entries_wf(es);
        lemma_rank(es, key@);
    }
    let (pos, found) = locate(&entries, key.as_str());
    let cur = if found {
        let (_, c) = entries.remove(pos);
        c
    } else {
        Value::Null
    };
    assert(cur@ == match lookup(es, key@) {
        Some(c) => c,
        None => Val::Null,
    });
    assert(wf(cur@));
    assert(rest.drop_first() =~= char_seqs(segs@).subrange(k + 1, segs@.len() as int));
    let nv = insert_parts(cur, &parts, 0, segs, k + 1, v);
    assert(parts@.subrange(0, parts@.len() as int) =~= parts@);
    let ghost nvv = nv@;
    entries.insert(pos, (key, nv));
    proof {
        lemma_view_entries(entries@);
        let want = set_key(es, key@, nvv);
        lemma_set_key_sorted(es, key@, nvv);
        lemma_set_key_wf(es, key@, nvv);
        assert forall|i: int| 0 <= i < entries@.len() implies (#[trigger] entries@[i]).0@ == want[i].0
            && entries@[i].1@ == want[i].1 by {
            if i < pos {
            } else if i > pos {
            }
        }
        lemma_view_entries_ext(entries@, want);
    }
    Value::Object(entries)
}

/// Insert `v` into `slot` through `parts[p..]`, then `segs[k..]`.
pub fn insert_parts(
    slot: Value,
    parts: &Vec<ArrayPart>,
    p: usize,
    segs: &Vec<Vec<char>>,
    k: usize,
    v: Value,
) -> (r: Value)
    requires
        p <= parts@.len(),
        k <= segs@.len(),
        wf(slot@),
        wf(v@),
    ensures
        r@ == ins_parts(
            slot@,
            parts@.subrange(p as int, parts@.len() as int),
            char_seqs(segs@).subrange(k as int, segs@.len() as int),
            v@,
        ),
        wf(r@),
    decreases segs@.len() - k, parts@.len() - p + 1,
{
    let ghost ps = parts@.subrange(p as int, parts@.len() as int);
    if p == parts.len() {
        assert(ps.len() == 0);
        return insert_segments(slot, segs, k, v);
    }
    let ghost sv = slot@;
    let mut items: Vec<Value> = match slot {
        Value::Array(items) => items,
        _ => Vec::new(),
    };
    let ghost it = view_items(items@);
    assert(it == match sv {
        Val::Arr(x) => x,
        _ => Seq::<Val>::empty(),
    });
    assert(items_wf(it));
    proof {
        lemma_view_items(items@);
    }
    let idx: usize = match parts[p] {
        ArrayPart::Append => items.len(),
        ArrayPart::Index(i) => i,
    };
    assert(ps[0] == parts@[p as int]);
    let ghost padded = pad(it, idx + 1);
    proof {
        lemma_pad_wf(it, idx + 1);
    }
    while items.len() <= idx
        invariant
            it.len() <= items@.len(),
            items@.len() <= if it.len() >= idx + 1 { it.len() as int } else { idx + 1 },
            forall|i: int| 0 <= i < items@.len() ==> (#[trigger] items@[i])@ == padded[i],
            padded == pad(it, idx + 1),
            padded.len() == if it.len() >= idx + 1 { it.len() as int } else { idx + 1 },
            forall|i: int| 0 <= i < it.len() ==> #[trigger] padded[i] == it[i],
            forall|i: int| it.len() <= i < padded.len() ==> #[trigger] padded[i] == Val::Null,
            forall|i: int| 0 <= i < it.len() ==> (#[trigger] items@[i])@ == it[i],
        decreases idx + 1 - items@.len(),
    {
        items.push(Value::Null);
    }
    assert(items@.len() == padded.len());
    proof {
        lemma_items_wf(padded);
    }
    let elem = items.remove(idx);
    assert(elem@ == padded[idx as int]);
    assert(wf(elem@));
    let nv = insert_parts(elem, parts, p + 1, segs, k, v);
    assert(ps.drop_first() =~= parts@.subrange(p + 1, parts@.len() as int));
    let ghost nvv = nv@;
    items.insert(idx, nv);
    proof {
        let want = padded.update(idx as int, nvv);
        assert forall|i: int| 0 <= i < items@.len() implies (#[trigger] items@[i])@ == want[i] by {
            if i < idx {
            } else if i > idx {
            }
        }
        lemma_view_items_ext(items@, want);
        lemma_items_wf(want);
    }
    Value::Array(items)
}

/// Merge `value` into `root` under `key`: with `dot_key`, along the
/// key's dotted segments and array suffixes; without, as one literal
/// object key.
pub fn insert_key(root: &mut Value, key: &str, value: Value, dot_key: bool)
    requires
        wf(old(root)@),
        wf(value@),
    ensures
        final(root)@ == insert_key_spec(old(root)@, key@, value@, dot_key),
        wf(final(root)@),
{
    let mut slot = Value::Null;
    std::mem::swap(&mut slot, root);
    if dot_key {
        let chars = crate::text::chars_of(key);
        let segs = split_chars(chars.as_slice(), '.');
        assert(char_seqs(segs@).subrange(0, segs@.len() as int) =~= char_seqs(segs@));
        *root = insert_segments(slot, &segs, 0, value);
    } else {
        let mut single: Vec<(String, Value)> = Vec::new();
        let ghost vv = value@;
        single.push((key.to_owned(), value));
        proof {
            lemma_view_entries(single@);
            lemma_view_entries_ext(single@, seq![(key@, vv)]);
            assert(keys_sorted(seq![(key@, vv)]));
            lemma_entries_wf(seq![(key@, vv)]);
        }
        *root = deep_merge(slot, Value::Object(single));
    }
}

} // verus!
