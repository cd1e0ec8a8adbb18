//! The loader's decisions: which format claims a file (by extension,
//! last claimer wins), the key a file stands for in tree mode, the load
//! order of a folder's entries, which spreadsheet sheets are read, and
//! how sheets merge into one value.

use vstd::prelude::*;

use crate::error::Error;
use crate::options::{Format, Order};
use crate::table::cells_view;
use crate::text::{chars_of, push_char, push_decimal, push_str, string_of, to_vec, decimal};
use crate::trace::{SourceRef, TracedValue, lowercase, lower_key, merge_traced, tr_merged, tr_wf};
use crate::value::{Val, Value, key_compare, key_lt, lemma_key_order, wf, keys_sorted};

verus! {

// ---------------------------------------------------------------------
// Extension claims
// ---------------------------------------------------------------------

/// What an extension resolves to: a built-in format, or a custom entry
/// of the formats list (by index).
#[derive(Debug, Clone, Copy, PartialEq, Eq, Structural)]
pub enum Claim {
    Builtin(Format),
    Custom(usize),
}

/// `map` without any entry for `ext`.
pub open spec fn without(map: Seq<(Seq<char>, Claim)>, ext: Seq<char>) -> Seq<(Seq<char>, Claim)>
    decreases map.len(),
{
    if map.len() == 0 {
        map
    } else if map.last().0 == ext {
        without(map.drop_last(), ext)
    } else {
        without(map.drop_last(), ext).push(map.last())
    }
}

/// The extensions `exts` (lower-cased) claimed for `c`, one by one: a
/// new claim replaces an earlier one and goes last.
pub open spec fn add_exts(map: Seq<(Seq<char>, Claim)>, exts: Seq<Seq<char>>, c: Claim) -> Seq<(Seq<char>, Claim)>
    decreases exts.len(),
{
    if exts.len() == 0 {
        map
    } else {
        add_exts(without(map, lowercase(exts[0])).push((lowercase(exts[0]), c)), exts.drop_first(), c)
    }
}

/// The extension map of a formats list: each entry's claim with its
/// extensions, in list order.
pub open spec fn ext_map(specs: Seq<(Claim, Seq<Seq<char>>)>) -> Seq<(Seq<char>, Claim)>
    decreases specs.len(),
{
    if specs.len() == 0 {
        Seq::empty()
    } else {
        add_exts(ext_map(specs.drop_last()), specs.last().1, specs.last().0)
    }
}

/// The claim recorded for `ext`, if any.
pub open spec fn claim_of(map: Seq<(Seq<char>, Claim)>, ext: Seq<char>) -> Option<Claim>
    decreases map.len(),
{
    if map.len() == 0 {
        None
    } else if map[0].0 == ext {
        Some(map[0].1)
    } else {
        claim_of(map.drop_first(), ext)
    }
}

/// The claim of the last entry whose extensions include `ext`.
pub open spec fn last_claim(specs: Seq<(Claim, Seq<Seq<char>>)>, ext: Seq<char>) -> Option<Claim>
    decreases specs.len(),
{
    if specs.len() == 0 {
        None
    } else if exists|j: int| 0 <= j < specs.last().1.len() && lowercase(#[trigger] specs.last().1[j]) == ext {
        Some(specs.last().0)
    } else {
        last_claim(specs.drop_last(), ext)
    }
}

proof fn lemma_claim_without(map: Seq<(Seq<char>, Claim)>, x: Seq<char>, e: Seq<char>)
    ensures
        claim_of(without(map, x), e) == if e == x { None } else { claim_of(map, e) },
    decreases map.len(),
{
    if map.len() > 0 {
        let p = map.drop_last();
        lemma_claim_without(p, x, e);
        lemma_claim_push(without(p, x), map.last(), e);
        lemma_claim_push(p, map.last(), e);
        assert(p.push(map.last()) =~= map);
    }
}

proof fn lemma_claim_push(map: Seq<(Seq<char>, Claim)>, entry: (Seq<char>, Claim), e: Seq<char>)
    ensures
        claim_of(map.push(entry), e) == match claim_of(map, e) {
            Some(c) => Some(c),
            None => if entry.0 == e { Some(entry.1) } else { None },
        },
    decreases map.len(),
{
    let m = map.push(entry);
    if map.len() > 0 {
        assert(m[0] == map[0]);
        lemma_claim_push(map.drop_first(), entry, e);
        assert(m.drop_first() =~= map.drop_first().push(entry));
        if map[0].0 == e {
            assert(claim_of(m, e) == Some(map[0].1));
            assert(claim_of(map, e) == Some(map[0].1));
        } else {
            assert(claim_of(m, e) == claim_of(m.drop_first(), e));
            assert(claim_of(map, e) == claim_of(map.drop_first(), e));
        }
    } else {
        assert(m[0] == entry);
        assert(m.drop_first() =~= Seq::<(Seq<char>, Claim)>::empty());
        assert(claim_of(m.drop_first(), e) is None);
    }
}

proof fn lemma_claim_add_exts(map: Seq<(Seq<char>, Claim)>, exts: Seq<Seq<char>>, c: Claim, e: Seq<char>)
    ensures
        claim_of(add_exts(map, exts, c), e) == if exists|j: int| 0 <= j < exts.len() && lowercase(#[trigger] exts[j]) == e {
            Some(c)
        } else {
            claim_of(map, e)
        },
    decreases exts.len(),
{
    if exts.len() > 0 {
        let x = lowercase(exts[0]);
        let m2 = without(map, x).push((x, c));
        lemma_claim_add_exts(m2, exts.drop_first(), c, e);
        lemma_claim_without(map, x, e);
        lemma_claim_push(without(map, x), (x, c), e);
        if exists|j: int| 0 <= j < exts.len() && lowercase(#[trigger] exts[j]) == e {
            let j = choose|j: int| 0 <= j < exts.len() && lowercase(#[trigger] exts[j]) == e;
            if j > 0 {
                assert(exts.drop_first()[j - 1] == exts[j]);
            }
        } else {
            assert forall|j: int| 0 <= j < exts.drop_first().len() implies lowercase(#[trigger] exts.drop_first()[j]) != e by {
                assert(exts.drop_first()[j] == exts[j + 1]);
            }
            assert(lowercase(exts[0]) != e);
        }
        if exists|j: int| 0 <= j < exts.drop_first().len() && lowercase(#[trigger] exts.drop_first()[j]) == e {
            let j = choose|j: int| 0 <= j < exts.drop_first().len() && lowercase(#[trigger] exts.drop_first()[j]) == e;
            assert(exts[j + 1] == exts.drop_first()[j]);
        }
    }
}

/// The last claimer wins: in the extension map, an extension resolves
/// to the claim of the last formats entry that lists it (in any case).
pub proof fn lemma_last_claimer_wins(specs: Seq<(Claim, Seq<Seq<char>>)>, e: Seq<char>)
    ensures
        claim_of(ext_map(specs), e) == last_claim(specs, e),
    decreases specs.len(),
{
    if specs.len() > 0 {
        lemma_last_claimer_wins(specs.drop_last(), e);
        lemma_claim_add_exts(ext_map(specs.drop_last()), specs.last().1, specs.last().0, e);
    }
}

/// No key occurs twice.
pub open spec fn keys_unique(map: Seq<(Seq<char>, Claim)>) -> bool {
    forall|i: int, j: int| 0 <= i < j < map.len() ==> (#[trigger] map[i]).0 != (#[trigger] map[j]).0
}

/// `e` is the lower-cased form of an extension some entry lists.
pub open spec fn listed(specs: Seq<(Claim, Seq<Seq<char>>)>, e: Seq<char>) -> bool {
    exists|s: int, x: int| 0 <= s < specs.len() && 0 <= x < specs[s].1.len() && e == lowercase(#[trigger] specs[s].1[x])
}

proof fn lemma_without_keys(map: Seq<(Seq<char>, Claim)>, x: Seq<char>)
    requires
        keys_unique(map),
    ensures
        keys_unique(without(map, x)),
        forall|i: int| 0 <= i < without(map, x).len() ==> (#[trigger] without(map, x)[i]).0 != x && exists|j: int|
            0 <= j < map.len() && map[j] == without(map, x)[i],
    decreases map.len(),
{
    if map.len() > 0 {
        let p = map.drop_last();
        assert forall|i: int, j: int| 0 <= i < j < p.len() implies (#[trigger] p[i]).0 != (#[trigger] p[j]).0 by {
            assert(p[i] == map[i] && p[j] == map[j]);
        }
        lemma_without_keys(p, x);
        let w = without(p, x);
        let n = map.len() - 1;
        if map.last().0 != x {
            let w2 = w.push(map.last());
            assert forall|i: int| 0 <= i < w.len() implies (#[trigger] w[i]).0 != map.last().0 by {
                let j = choose|j: int| 0 <= j < p.len() && p[j] == w[i];
                assert(map[j] == p[j]);
            }
            assert forall|i: int| 0 <= i < w2.len() implies (#[trigger] w2[i]).0 != x && exists|j: int|
                0 <= j < map.len() && map[j] == w2[i] by {
                if i < w.len() {
                    assert(w2[i] == w[i]);
                    let j = choose|j: int| 0 <= j < p.len() && p[j] == w[i];
                    assert(map[j] == p[j]);
                } else {
                    assert(map[n] == w2[i]);
                }
            }
            assert forall|i: int, j: int| 0 <= i < j < w2.len() implies (#[trigger] w2[i]).0 != (#[trigger] w2[j]).0 by {
                if j < w.len() {
                    assert(w2[i] == w[i] && w2[j] == w[j]);
                } else {
                    assert(w2[i] == w[i]);
                }
            }
        } else {
            assert forall|i: int| 0 <= i < w.len() implies (#[trigger] w[i]).0 != x && exists|j: int|
                0 <= j < map.len() && map[j] == w[i] by {
                let j = choose|j: int| 0 <= j < p.len() && p[j] == w[i];
                assert(map[j] == p[j]);
            }
        }
    }
}

/// `e` is an entry of `map`, or its key is one of `exts` lower-cased.
pub open spec fn from_map_or_exts(map: Seq<(Seq<char>, Claim)>, exts: Seq<Seq<char>>, e: (Seq<char>, Claim)) -> bool {
    (exists|j: int| 0 <= j < map.len() && map[j] == e) || (exists|k: int| 0 <= k < exts.len() && e.0 == lowercase(#[trigger] exts[k]))
}

proof fn lemma_add_exts_keys(map: Seq<(Seq<char>, Claim)>, exts: Seq<Seq<char>>, c: Claim)
    requires
        keys_unique(map),
    ensures
        keys_unique(add_exts(map, exts, c)),
        forall|i: int| 0 <= i < add_exts(map, exts, c).len() ==> #[trigger] from_map_or_exts(map, exts, add_exts(map, exts, c)[i]),
    decreases exts.len(),
{
    let r = add_exts(map, exts, c);
    if exts.len() > 0 {
        let x = lowercase(exts[0]);
        lemma_without_keys(map, x);
        let w = without(map, x);
        let m2 = w.push((x, c));
        assert forall|i: int, j: int| 0 <= i < j < m2.len() implies (#[trigger] m2[i]).0 != (#[trigger] m2[j]).0 by {
            assert(m2[i] == w[i]);
            if j < w.len() {
                assert(m2[j] == w[j]);
            }
        }
        lemma_add_exts_keys(m2, exts.drop_first(), c);
        assert(r == add_exts(m2, exts.drop_first(), c));
        assert forall|i: int| 0 <= i < r.len() implies #[trigger] from_map_or_exts(map, exts, r[i]) by {
            assert(from_map_or_exts(m2, exts.drop_first(), r[i]));
            if exists|j: int| 0 <= j < m2.len() && m2[j] == r[i] {
                let j = choose|j: int| 0 <= j < m2.len() && m2[j] == r[i];
                if j < w.len() {
                    assert(m2[j] == w[j]);
                    let q = choose|q: int| 0 <= q < map.len() && map[q] == w[j];
                    assert(map[q] == r[i]);
                } else {
                    assert(r[i].0 == lowercase(exts[0]));
                }
            } else {
                let k = choose|k: int| 0 <= k < exts.drop_first().len() && r[i].0 == lowercase(#[trigger] exts.drop_first()[k]);
                assert(exts.drop_first()[k] == exts[k + 1]);
            }
        }
    } else {
        assert(r == map);
        assert forall|i: int| 0 <= i < r.len() implies #[trigger] from_map_or_exts(map, exts, r[i]) by {
            assert(map[i] == r[i]);
        }
    }
}

/// The extension map is a map: no extension occurs twice in it, and
/// every extension in it is the lower-cased form of one the formats
/// list names.
pub proof fn lemma_ext_map_keys(specs: Seq<(Claim, Seq<Seq<char>>)>)
    ensures
        keys_unique(ext_map(specs)),
        forall|i: int| 0 <= i < ext_map(specs).len() ==> listed(specs, (#[trigger] ext_map(specs)[i]).0),
    decreases specs.len(),
{
    if specs.len() > 0 {
        let p = specs.drop_last();
        lemma_ext_map_keys(p);
        let m = ext_map(p);
        let last = specs.last();
        lemma_add_exts_keys(m, last.1, last.0);
        let r = ext_map(specs);
        assert forall|i: int| 0 <= i < r.len() implies listed(specs, (#[trigger] r[i]).0) by {
            assert(from_map_or_exts(m, last.1, r[i]));
            if exists|j: int| 0 <= j < m.len() && m[j] == r[i] {
                let j = choose|j: int| 0 <= j < m.len() && m[j] == r[i];
                assert(listed(p, m[j].0));
                let (s0, x0) = choose|s0: int, x0: int| 0 <= s0 < p.len() && 0 <= x0 < p[s0].1.len() && m[j].0
                    == lowercase(#[trigger] p[s0].1[x0]);
                assert(p[s0] == specs[s0]);
                assert(specs[s0].1[x0] == p[s0].1[x0]);
            } else {
                let k = choose|k: int| 0 <= k < last.1.len() && r[i].0 == lowercase(#[trigger] last.1[k]);
                assert(specs[specs.len() - 1].1[k] == last.1[k]);
            }
        }
    }
}

/// Build the extension map: lower-cased extensions, the last claimer of
/// an extension wins.
pub fn extension_map(specs: &Vec<(Claim, Vec<String>)>) -> (r: Vec<(String, Claim)>)
    ensures
        claims_view(r@) == ext_map(specs_view(specs@)),
{
    let mut map: Vec<(String, Claim)> = Vec::new();
    let mut i: usize = 0;
    assert(specs_view(specs@).subrange(0, 0) =~= Seq::<(Claim, Seq<Seq<char>>)>::empty());
    assert(claims_view(map@) =~= Seq::<(Seq<char>, Claim)>::empty());
    while i < specs.len()
        invariant
            i <= specs@.len(),
            claims_view(map@) == ext_map(specs_view(specs@).subrange(0, i as int)),
        decreases specs@.len() - i,
    {
        let (c, exts) = (specs[i].0, &specs[i].1);
        let ghost before = claims_view(map@);
        let mut j: usize = 0;
        assert(exts_view(exts@).subrange(0, exts@.len() as int) =~= exts_view(exts@));
        while j < exts.len()
            invariant
                j <= exts@.len(),
                add_exts(before, exts_view(exts@), c) == add_exts(claims_view(map@), exts_view(exts@).subrange(j as int, exts@.len() as int), c),
            decreases exts@.len() - j,
        {
            let e = lower_key(exts[j].as_str());
            let ghost m0 = claims_view(map@);
            assert(exts_view(exts@)[j as int] == exts@[j as int]@);
            remove_claims(&mut map, e.as_str());
            let ghost m1 = claims_view(map@);
            map.push((e, c));
            proof {
                assert(claims_view(map@) =~= m1.push((e@, c)));
                let rest = exts_view(exts@).subrange(j as int, exts@.len() as int);
                assert(rest[0] == exts_view(exts@)[j as int]);
                assert(rest.drop_first() =~= exts_view(exts@).subrange(j + 1, exts@.len() as int));
            }
            j = j + 1;
        }
        proof {
            assert(exts_view(exts@).subrange(0, exts@.len() as int) =~= exts_view(exts@));
            let sv = specs_view(specs@);
            assert(sv.subrange(0, i + 1).drop_last() =~= sv.subrange(0, i as int));
            assert(sv[i as int] == (c, exts_view(exts@)));
        }
        i = i + 1;
    }
    assert(specs_view(specs@).subrange(0, specs@.len() as int) =~= specs_view(specs@));
    map
}

/// The model of an extension map.
pub open spec fn claims_view(m: Seq<(String, Claim)>) -> Seq<(Seq<char>, Claim)> {
    m.map_values(|e: (String, Claim)| (e.0@, e.1))
}

/// The model of a list of extensions.
pub open spec fn exts_view(e: Seq<String>) -> Seq<Seq<char>> {
    e.map_values(|s: String| s@)
}

/// The model of a formats list.
pub open spec fn specs_view(s: Seq<(Claim, Vec<String>)>) -> Seq<(Claim, Seq<Seq<char>>)> {
    s.map_values(|e: (Claim, Vec<String>)| (e.0, exts_view(e.1@)))
}

/// Drop every entry for `ext`.
fn remove_claims(map: &mut Vec<(String, Claim)>, ext: &str)
    ensures
        claims_view(final(map)@) == without(claims_view(old(map)@), ext@),
{
    let ghost m0 = claims_view(map@);
    let mut out: Vec<(String, Claim)> = Vec::new();
    let mut i: usize = 0;
    assert(claims_view(out@) =~= without(m0.subrange(0, 0), ext@));
    while i < map.len()
        invariant
            i <= map@.len(),
            m0 == claims_view(map@),
            claims_view(out@) == without(m0.subrange(0, i as int), ext@),
        decreases map@.len() - i,
    {
        let ghost before = claims_view(out@);
        assert(m0.subrange(0, i + 1).drop_last() =~= m0.subrange(0, i as int));
        assert(m0[i as int] == (map@[i as int].0@, map@[i as int].1));
        if key_compare(map[i].0.as_str(), ext) != 0 {
            let e = (map[i].0.as_str().to_owned(), map[i].1);
            out.push(e);
            assert(claims_view(out@) =~= before.push(m0[i as int]));
        }
        i = i + 1;
    }
    assert(m0.subrange(0, map@.len() as int) =~= m0);
    *map = out;
}

// ---------------------------------------------------------------------
// File names
// ---------------------------------------------------------------------

/// The index of the last `c` in `s`, if any.
pub open spec fn rfind_char(s: Seq<char>, c: char) -> Option<int>
    decreases s.len(),
{
    if s.len() == 0 {
        None
    } else if s.last() == c {
        Some(s.len() - 1)
    } else {
        rfind_char(s.drop_last(), c)
    }
}

proof fn lemma_rfind(s: Seq<char>, c: char)
    ensures
        rfind_char(s, c) matches Some(i) ==> 0 <= i < s.len() && s[i] == c,
    decreases s.len(),
{
    if s.len() > 0 && s.last() != c {
        lemma_rfind(s.drop_last(), c);
    }
}

/// The last `c` in `b`.
fn rfind(b: &[char], c: char) -> (r: Option<usize>)
    ensures
        match rfind_char(b@, c) {
            Some(i) => r == Some(i as usize),
            None => r is None,
        },
{
    let mut k = b.len();
    assert(b@.subrange(0, k as int) =~= b@);
    while k > 0 && b[k - 1] != c
        invariant
            k <= b@.len(),
            rfind_char(b@, c) == rfind_char(b@.subrange(0, k as int), c),
        decreases k,
    {
        assert(b@.subrange(0, k as int).drop_last() =~= b@.subrange(0, k - 1));
        k = k - 1;
    }
    if k == 0 {
        assert(b@.subrange(0, 0).len() == 0);
        None
    } else {
        Some(k - 1)
    }
}

/// A hidden name (`.X`) and the name past its dot.
pub open spec fn name_body(name: Seq<char>) -> Seq<char> {
    if name.len() > 0 && name[0] == '.' {
        name.drop_first()
    } else {
        name
    }
}

/// The extension of a file name, lower-cased; a hidden file `.X`
/// counts as having extension `X`.
pub open spec fn ext_spec(name: Seq<char>) -> Option<Seq<char>> {
    let hidden = name.len() > 0 && name[0] == '.';
    let stem = name_body(name);
    match rfind_char(stem, '.') {
        Some(i) => Some(lowercase(stem.subrange(i + 1, stem.len() as int))),
        None => if hidden && stem.len() > 0 {
            Some(lowercase(stem))
        } else {
            None
        },
    }
}

/// The extension of a file name, lower-cased (`.env` has extension
/// `env`).
pub fn file_extension(name: &str) -> (r: Option<String>)
    ensures
        match ext_spec(name@) {
            Some(e) => r matches Some(s) && s@ == e,
            None => r is None,
        },
{
    let n = chars_of(name);
    let hidden = n.len() > 0 && n[0] == '.';
    let from: usize = if hidden { 1 } else { 0 };
    let stem = to_vec(&n[from..n.len()]);
    assert(stem@ =~= name_body(name@));
    proof {
        lemma_rfind(stem@, '.');
    }
    match rfind(stem.as_slice(), '.') {
        Some(i) => {
            let e = string_of(&stem[i + 1..stem.len()]);
            Some(lower_key(e.as_str()))
        },
        None => if hidden && stem.len() > 0 {
            let e = string_of(stem.as_slice());
            Some(lower_key(e.as_str()))
        } else {
            None
        },
    }
}

/// The tree-mode key of a file: its name without the extension; a
/// hidden file whose whole name is its extension (`.env`) keeps it.
pub open spec fn stem_key_spec(name: Seq<char>) -> Seq<char> {
    let hidden = name.len() > 0 && name[0] == '.';
    let body = name_body(name);
    match rfind_char(body, '.') {
        Some(i) => (if hidden { seq!['.'] } else { Seq::empty() }) + body.subrange(0, i),
        None => name,
    }
}

/// The tree-mode key of a file name.
pub fn file_stem_key(name: &str) -> (r: String)
    ensures
        r@ == stem_key_spec(name@),
{
    let n = chars_of(name);
    let hidden = n.len() > 0 && n[0] == '.';
    let from: usize = if hidden { 1 } else { 0 };
    let body = to_vec(&n[from..n.len()]);
    assert(body@ =~= name_body(name@));
    proof {
        lemma_rfind(body@, '.');
    }
    match rfind(body.as_slice(), '.') {
        Some(i) => {
            let mut out = String::new();
            if hidden {
                push_char(&mut out, '.');
            }
            let b = string_of(&body[0..i]);
            push_str(&mut out, b.as_str());
            proof {
                if !hidden {
                    assert(Seq::<char>::empty() + body@.subrange(0, i as int) =~= body@.subrange(0, i as int));
                }
            }
            out
        },
        None => name.to_owned(),
    }
}

/// The claim of a file by its name's extension.
pub open spec fn claimed_spec(map: Seq<(Seq<char>, Claim)>, name: Seq<char>) -> Option<Claim> {
    match ext_spec(name) {
        None => None,
        Some(e) => claim_of(map, e),
    }
}

/// Which format claims a file, by its name.
pub fn claimed_format(name: &str, map: &Vec<(String, Claim)>) -> (r: Option<Claim>)
    ensures
        r == claimed_spec(claims_view(map@), name@),
{
    let e = match file_extension(name) {
        None => return None,
        Some(e) => e,
    };
    let ghost cv = claims_view(map@);
    let mut i: usize = 0;
    assert(cv.subrange(0, cv.len() as int) =~= cv);
    while i < map.len()
        invariant
            i <= map@.len(),
            cv == claims_view(map@),
            ext_spec(name@) == Some(e@),
            claim_of(cv, e@) == claim_of(cv.subrange(i as int, cv.len() as int), e@),
        decreases map@.len() - i,
    {
        let ghost rest = cv.subrange(i as int, cv.len() as int);
        assert(rest[0] == cv[i as int]);
        assert(cv[i as int] == (map@[i as int].0@, map@[i as int].1));
        if key_compare(map[i].0.as_str(), e.as_str()) == 0 {
            return Some(map[i].1);
        }
        assert(rest.drop_first() =~= cv.subrange(i + 1, cv.len() as int));
        i = i + 1;
    }
    None
}

// ---------------------------------------------------------------------
// Load order
// ---------------------------------------------------------------------

/// Entry `a` (name, is-folder) loads strictly before entry `b`.
pub open spec fn before(a: (Seq<char>, bool), b: (Seq<char>, bool), order: Order) -> bool {
    match order {
        Order::FoldersFirstAlphabetic => (a.1 && !b.1) || (a.1 == b.1 && key_lt(a.0, b.0)),
        Order::Alphabetic => key_lt(a.0, b.0),
        Order::ReverseAlphabetic => key_lt(b.0, a.0),
    }
}

/// No entry loads strictly before one that precedes it.
pub open spec fn sorted_by(s: Seq<(Seq<char>, bool)>, order: Order) -> bool {
    forall|i: int, j: int| 0 <= i < j < s.len() ==> !before(#[trigger] s[j], #[trigger] s[i], order)
}

/// The model of a list of folder entries.
pub open spec fn entries_v(s: Seq<(String, bool)>) -> Seq<(Seq<char>, bool)> {
    s.map_values(|e: (String, bool)| (e.0@, e.1))
}

/// `before` is transitive and irreflexive.
proof fn lemma_before(a: (Seq<char>, bool), b: (Seq<char>, bool), c: (Seq<char>, bool), order: Order)
    ensures
        before(a, b, order) && before(b, c, order) ==> before(a, c, order),
        !before(a, a, order),
{
    lemma_key_order(a.0, b.0, c.0);
    lemma_key_order(c.0, b.0, a.0);
}

/// Neither entry loads before the other.
pub open spec fn tie(a: (Seq<char>, bool), b: (Seq<char>, bool), order: Order) -> bool {
    !before(a, b, order) && !before(b, a, order)
}

/// Tied entries are interchangeable in the load order.
proof fn lemma_tie(x: (Seq<char>, bool), y: (Seq<char>, bool), z: (Seq<char>, bool), order: Order)
    requires
        tie(y, z, order),
    ensures
        before(x, y, order) == before(x, z, order),
        before(y, x, order) == before(z, x, order),
{
    lemma_key_order(y.0, z.0, y.0);
    lemma_key_order(z.0, y.0, z.0);
    if order is FoldersFirstAlphabetic {
        assert(y.1 == z.1);
    }
    assert(y.0 == z.0);
}

/// Whether `a` loads strictly before `b`.
fn loads_before(a: &(String, bool), b: &(String, bool), order: Order) -> (r: bool)
    ensures
        r == before((a.0@, a.1), (b.0@, b.1), order),
{
    match order {
        Order::FoldersFirstAlphabetic => (a.1 && !b.1) || (a.1 == b.1 && key_compare(a.0.as_str(), b.0.as_str()) < 0),
        Order::Alphabetic => key_compare(a.0.as_str(), b.0.as_str()) < 0,
        Order::ReverseAlphabetic => key_compare(b.0.as_str(), a.0.as_str()) < 0,
    }
}

/// `r` is `s` reordered by `idx` (each position of `s` used once), and
/// tied entries keep their order from `s`.
pub open spec fn stable_order(s: Seq<(Seq<char>, bool)>, r: Seq<(Seq<char>, bool)>, idx: Seq<int>, order: Order) -> bool {
    &&& idx.len() == r.len() == s.len()
    &&& forall|i: int| 0 <= i < idx.len() ==> 0 <= #[trigger] idx[i] < s.len() && r[i] == s[idx[i]]
    &&& forall|i: int, j: int| 0 <= i < j < idx.len() ==> #[trigger] idx[i] != #[trigger] idx[j]
    &&& forall|i: int, j: int|
        0 <= i < j < r.len() && tie(#[trigger] r[i], #[trigger] r[j], order) ==> idx[i] < idx[j]
}

/// A folder's entries (name, is-folder) in load order: folders first
/// then files, each alphabetic (the default); or purely alphabetic; or
/// reverse alphabetic. Entries that tie keep their relative order.
pub fn sort_entries(entries: Vec<(String, bool)>, order: Order) -> (r: Vec<(String, bool)>)
    ensures
        sorted_by(entries_v(r@), order),
        entries_v(r@).to_multiset() == entries_v(entries@).to_multiset(),
        exists|idx: Seq<int>| stable_order(entries_v(entries@), entries_v(r@), idx, order),
{
    broadcast use vstd::seq_lib::group_to_multiset_ensures;

    let ghost orig = entries_v(entries@);
    let ghost n = orig.len();
    let mut rest = entries;
    let mut out: Vec<(String, bool)> = Vec::new();
    let ghost mut idx: Seq<int> = Seq::empty();
    assert(entries_v(out@) =~= Seq::<(Seq<char>, bool)>::empty());
    assert(entries_v(out@).to_multiset().add(entries_v(rest@).to_multiset()) =~= orig.to_multiset());
    assert(entries_v(rest@) =~= orig.subrange(0, n as int));
    while rest.len() > 0
        invariant
            n == orig.len(),
            sorted_by(entries_v(out@), order),
            entries_v(out@).to_multiset().add(entries_v(rest@).to_multiset()) == orig.to_multiset(),
            idx.len() == out@.len(),
            out@.len() + rest@.len() == n,
            entries_v(rest@) == orig.subrange(out@.len() as int, n as int),
            forall|i: int| 0 <= i < idx.len() ==> 0 <= #[trigger] idx[i] < out@.len() && entries_v(out@)[i] == orig[idx[i]],
            forall|i: int, j: int| 0 <= i < j < idx.len() ==> #[trigger] idx[i] != #[trigger] idx[j],
            forall|i: int, j: int|
                0 <= i < j < idx.len() && tie(#[trigger] entries_v(out@)[i], #[trigger] entries_v(out@)[j], order) ==> idx[i] < idx[j],
        decreases rest@.len(),
    {
        let ghost r0 = entries_v(rest@);
        let ghost o0 = entries_v(out@);
        let ghost c = out@.len() as int;
        let item = rest.remove(0);
        let ghost iv = (item.0@, item.1);
        assert(entries_v(rest@) =~= r0.remove(0));
        assert(r0[0] == iv);
        let mut p: usize = 0;
        while p < out.len() && !loads_before(&item, &out[p], order)
            invariant
                p <= out@.len(),
                o0 == entries_v(out@),
                iv == (item.0@, item.1),
                forall|k: int| 0 <= k < p ==> !before(iv, #[trigger] o0[k], order),
            decreases out@.len() - p,
        {
            assert(o0[p as int] == (out@[p as int].0@, out@[p as int].1));
            p = p + 1;
        }
        if p < out.len() {
            assert(o0[p as int] == (out@[p as int].0@, out@[p as int].1));
        }
        out.insert(p, item);
        proof {
            let s2 = entries_v(out@);
            assert(s2 =~= o0.insert(p as int, iv));
            assert forall|i: int, j: int| 0 <= i < j < s2.len() implies !before(#[trigger] s2[j], #[trigger] s2[i], order) by {
                if j < p {
                    assert(s2[i] == o0[i] && s2[j] == o0[j]);
                } else if j == p {
                    assert(s2[i] == o0[i]);
                } else if i < p {
                    assert(s2[i] == o0[i] && s2[j] == o0[j - 1]);
                    if before(o0[j - 1], o0[i], order) {
                    }
                } else if i == p {
                    assert(s2[j] == o0[j - 1]);
                    assert(before(iv, o0[p as int], order));
                    if before(o0[j - 1], iv, order) {
                        lemma_before(o0[j - 1], iv, o0[p as int], order);
                        if j - 1 > p {
                            assert(!before(o0[j - 1], o0[p as int], order));
                        } else {
                            lemma_before(iv, iv, iv, order);
                        }
                    }
                } else {
                    assert(s2[i] == o0[i - 1] && s2[j] == o0[j - 1]);
                }
            }
            vstd::seq_lib::to_multiset_insert(o0, p as int, iv);
            vstd::seq_lib::to_multiset_remove(r0, 0);
            assert(r0.contains(iv));
            vstd::seq_lib::to_multiset_contains(r0, iv);
            assert(r0.to_multiset().count(iv) > 0);
            assert(o0.to_multiset().insert(iv).add(r0.to_multiset().remove(iv)) =~= o0.to_multiset().add(r0.to_multiset()));
            let i0 = idx;
            idx = i0.insert(p as int, c);
            assert(iv == orig[c]) by {
                assert(r0 == orig.subrange(c, n as int));
            }
            assert(entries_v(rest@) =~= orig.subrange(c + 1, n as int)) by {
                assert(r0 == orig.subrange(c, n as int));
            }
            assert forall|i: int| 0 <= i < idx.len() implies 0 <= #[trigger] idx[i] < out@.len() && s2[i] == orig[idx[i]] by {
                if i < p {
                    assert(idx[i] == i0[i]);
                } else if i > p {
                    assert(idx[i] == i0[i - 1]);
                }
            }
            assert forall|i: int, j: int| 0 <= i < j < idx.len() implies #[trigger] idx[i] != #[trigger] idx[j] by {
                if i < p && j < p {
                    assert(idx[i] == i0[i] && idx[j] == i0[j]);
                } else if i < p && j > p {
                    assert(idx[i] == i0[i] && idx[j] == i0[j - 1]);
                } else if i > p {
                    assert(idx[i] == i0[i - 1] && idx[j] == i0[j - 1]);
                } else if i < p {
                    assert(idx[i] == i0[i]);
                } else {
                    assert(idx[j] == i0[j - 1]);
                }
            }
            assert forall|i: int, j: int|
                0 <= i < j < idx.len() && tie(#[trigger] s2[i], #[trigger] s2[j], order) implies idx[i] < idx[j] by {
                if j < p {
                    assert(s2[i] == o0[i] && s2[j] == o0[j]);
                    assert(idx[i] == i0[i] && idx[j] == i0[j]);
                } else if j == p {
                    assert(idx[i] == i0[i]);
                } else if i < p {
                    assert(s2[i] == o0[i] && s2[j] == o0[j - 1]);
                    assert(idx[i] == i0[i] && idx[j] == i0[j - 1]);
                } else if i == p {
                    // the new entry goes before everything it does not tie with
                    assert(s2[j] == o0[j - 1]);
                    assert(before(iv, o0[p as int], order));
                    lemma_tie(o0[p as int], iv, o0[j - 1], order);
                    lemma_before(iv, iv, iv, order);
                    assert(false);
                } else {
                    assert(s2[i] == o0[i - 1] && s2[j] == o0[j - 1]);
                    assert(idx[i] == i0[i - 1] && idx[j] == i0[j - 1]);
                }
            }
        }
    }
    assert(entries_v(rest@) =~= Seq::<(Seq<char>, bool)>::empty());
    assert(entries_v(out@).to_multiset().add(vstd::multiset::Multiset::empty()) =~= entries_v(out@).to_multiset());
    assert(stable_order(orig, entries_v(out@), idx, order));
    out
}

// ---------------------------------------------------------------------
// Merging sources
// ---------------------------------------------------------------------

/// `v` nested under the folder keys leading to it, outermost first.
pub open spec fn nested(prefix: Seq<Seq<char>>, v: Val) -> Val
    decreases prefix.len(),
{
    if prefix.len() == 0 {
        v
    } else {
        Val::Obj(seq![(prefix[0], nested(prefix.drop_first(), v))])
    }
}

/// A one-entry object is well-formed when its value is.
proof fn lemma_single_wf(k: Seq<char>, v: Val)
    requires
        wf(v),
    ensures
        wf(Val::Obj(seq![(k, v)])),
{
    let es = seq![(k, v)];
    assert(es.subrange(0, 0) =~= Seq::<(Seq<char>, Val)>::empty());
    assert(keys_sorted(es));
    crate::value::lemma_entries_wf(es);
    assert(es[0].1 == v);
}

/// `value` as the only entry of an object, under `key`.
fn single(key: String, value: Value) -> (r: Value)
    requires
        wf(value@),
    ensures
        r@ == Val::Obj(seq![(key@, value@)]),
        wf(r@),
{
    let ghost kv = key@;
    let ghost vv = value@;
    let mut es: Vec<(String, Value)> = Vec::new();
    es.push((key, value));
    proof {
        crate::value::lemma_view_entries(es@);
        assert(crate::value::view_entries(es@) =~= seq![(kv, vv)]);
        lemma_single_wf(kv, vv);
    }
    Value::Object(es)
}

/// `value` nested under the folder keys leading to it (the first key
/// outermost).
pub fn nest(prefix: &Vec<String>, value: Value) -> (r: Value)
    requires
        wf(value@),
    ensures
        r@ == nested(cells_view(*prefix), value@),
        wf(r@),
{
    let ghost pv = cells_view(*prefix);
    let mut out = value;
    let mut k = prefix.len();
    assert(pv.subrange(k as int, pv.len() as int) =~= Seq::<Seq<char>>::empty());
    while k > 0
        invariant
            k <= prefix@.len(),
            pv == cells_view(*prefix),
            pv.len() == prefix@.len(),
            out@ == nested(pv.subrange(k as int, pv.len() as int), value@),
            wf(out@),
        decreases k,
    {
        k = k - 1;
        let key = prefix[k].as_str().to_owned();
        assert(pv[k as int] == prefix@[k as int]@);
        let ghost inner = pv.subrange(k as int + 1, pv.len() as int);
        assert(pv.subrange(k as int, pv.len() as int).drop_first() =~= inner);
        out = single(key, out);
    }
    assert(pv.subrange(0, pv.len() as int) =~= pv);
    out
}

/// Merge one parsed source into the traced tree: a `Null` value
/// contributes nothing; any other nests under `prefix` and deep-merges,
/// labeled with `source` (keys folded to lower case when `lowercase`).
pub fn absorb(root: &mut TracedValue, value: Value, prefix: &Vec<String>, source: &SourceRef, lowercase: bool)
    requires
        tr_wf(old(root)@),
        wf(value@),
    ensures
        value@ is Null ==> final(root)@ == old(root)@,
        !(value@ is Null) ==> final(root)@ == tr_merged(
            old(root)@,
            nested(cells_view(*prefix), value@),
            source@,
            lowercase,
        ),
        tr_wf(final(root)@),
{
    if let Value::Null = value {
        return;
    }
    let v = nest(prefix, value);
    merge_traced(root, v, source, lowercase);
}

/// A file's parsed content under its tree-mode key.
pub fn keyed_by_file(name: &str, value: Value) -> (r: Value)
    requires
        wf(value@),
    ensures
        r@ == Val::Obj(seq![(stem_key_spec(name@), value@)]),
        wf(r@),
{
    single(file_stem_key(name), value)
}

/// Whether a folder walk goes into a subfolder met at `depth` (the named
/// folder's own entries are at depth 0): always under a negative limit,
/// otherwise while `depth` is below the limit.
pub fn descends(depth: i64, limit: i64) -> (r: bool)
    ensures
        r == (limit < 0 || depth < limit),
{
    limit < 0 || depth < limit
}

/// The folder keys leading into a subfolder: the subfolder's name is
/// added when folders become keys.
pub fn sub_prefix(prefix: &Vec<String>, name: &str, dirname_as_key: bool) -> (r: Vec<String>)
    ensures
        cells_view(r) == if dirname_as_key {
            cells_view(*prefix).push(name@)
        } else {
            cells_view(*prefix)
        },
{
    let mut out: Vec<String> = Vec::new();
    let mut i: usize = 0;
    while i < prefix.len()
        invariant
            i <= prefix@.len(),
            cells_view(out) == cells_view(*prefix).subrange(0, i as int),
        decreases prefix@.len() - i,
    {
        let ghost before = cells_view(out);
        out.push(prefix[i].clone());
        assert(cells_view(out) =~= before.push(prefix@[i as int]@));
        assert(cells_view(*prefix).subrange(0, i as int + 1) =~= cells_view(*prefix).subrange(0, i as int).push(prefix@[i as int]@));
        i = i + 1;
    }
    assert(cells_view(*prefix).subrange(0, prefix@.len() as int) =~= cells_view(*prefix));
    if dirname_as_key {
        let ghost before = cells_view(out);
        out.push(name.to_string());
        assert(cells_view(out) =~= before.push(name@));
    }
    out
}

/// What a path source is.
#[derive(Debug, Clone, Copy, PartialEq, Eq, Structural)]
pub enum PathKind {
    /// A folder: its files are scanned.
    Folder,
    /// A single file.
    File,
    /// Neither: the source is not found.
    Missing,
}

/// A path source by what is on disk: a folder, else a file, else missing.
pub fn path_kind(is_dir: bool, is_file: bool) -> (r: PathKind)
    ensures
        r == (if is_dir {
            PathKind::Folder
        } else if is_file {
            PathKind::File
        } else {
            PathKind::Missing
        }),
{
    if is_dir {
        PathKind::Folder
    } else if is_file {
        PathKind::File
    } else {
        PathKind::Missing
    }
}

/// The message for a file no active format claims.
pub open spec fn unclaimed_msg() -> Seq<char> {
    "no active format claims this file's extension"@
}

/// The error for a file no active format claims.
pub fn unclaimed(label: &str) -> (r: Error)
    ensures
        r matches Error::Parse { path, message } && path@ == label@ && message@ == unclaimed_msg(),
{
    let mut m = String::new();
    push_str(&mut m, "no active format claims this file's extension");
    Error::Parse { path: label.to_string(), message: m }
}

/// What the loader does with a path source.
pub enum PathStep {
    /// Scan the folder's files.
    Scan,
    /// Parse the file under this claim.
    Parse(Claim),
    /// Stop with this error.
    Fail(Error),
}

/// The loader's step for a path source, from what is on disk and the
/// claim of the file's name: a folder is scanned; a claimed file is
/// parsed; an unclaimed file is refused; a missing path is not found.
pub fn path_step(kind: PathKind, claim: Option<Claim>, label: &str) -> (r: PathStep)
    ensures
        match kind {
            PathKind::Folder => r is Scan,
            PathKind::File => match claim {
                Some(c) => r == PathStep::Parse(c),
                None => r matches PathStep::Fail(Error::Parse { path, message }) && path@ == label@
                    && message@ == unclaimed_msg(),
            },
            PathKind::Missing => r matches PathStep::Fail(Error::NotFound(p)) && p@ == label@,
        },
{
    match kind {
        PathKind::Folder => PathStep::Scan,
        PathKind::File => match claim {
            Some(c) => PathStep::Parse(c),
            None => PathStep::Fail(unclaimed(label)),
        },
        PathKind::Missing => PathStep::Fail(Error::NotFound(label.to_string())),
    }
}

/// The label of the in-code value source at `index`: `value:<index>`.
pub open spec fn value_label(index: usize) -> Seq<char> {
    "value:"@ + decimal(index as nat)
}

/// The message for an in-code object whose keys are out of order.
pub open spec fn unordered_msg() -> Seq<char> {
    "object keys must be unique and ascending"@
}

/// An in-code value source at `index`: the value when it is well formed;
/// the message of the failure that made it, or the key-order message, as
/// a parse error labelled `value:<index>`.
pub fn value_step(result: &Result<Value, String>, index: usize) -> (r: Result<Value, Error>)
    ensures
        match result {
            Ok(v) => if wf(v@) {
                r matches Ok(w) && w@ == v@
            } else {
                r matches Err(Error::Parse { path, message }) && path@ == value_label(index)
                    && message@ == unordered_msg()
            },
            Err(m) => r matches Err(Error::Parse { path, message }) && path@ == value_label(index)
                && message@ == m@,
        },
{
    let mut label = String::new();
    push_str(&mut label, "value:");
    push_decimal(&mut label, index as u64);
    match result {
        Ok(v) => {
            if crate::value::well_formed(v) {
                Ok(v.deep_copy())
            } else {
                let mut m = String::new();
                push_str(&mut m, "object keys must be unique and ascending");
                Err(Error::Parse { path: label, message: m })
            }
        },
        Err(m) => Err(Error::Parse { path: label, message: m.clone() }),
    }
}

/// The formats-list entry whose layout a built-in format's files use: the
/// last entry of that format, if any.
pub fn layout_index(claims: &Vec<Claim>, format: Format) -> (r: Option<usize>)
    ensures
        match r {
            Some(i) => i < claims@.len() && claims@[i as int] == Claim::Builtin(format) && forall|j: int|
                i < j < claims@.len() ==> claims@[j] != Claim::Builtin(format),
            None => forall|j: int| 0 <= j < claims@.len() ==> claims@[j] != Claim::Builtin(format),
        },
{
    let mut i: usize = claims.len();
    while i > 0
        invariant
            i <= claims@.len(),
            forall|j: int| i <= j < claims@.len() ==> claims@[j] != Claim::Builtin(format),
        decreases i,
    {
        i = i - 1;
        if claims[i] == Claim::Builtin(format) {
            return Some(i);
        }
    }
    None
}

/// What tree mode does with a file.
#[derive(Debug, Clone, Copy, PartialEq, Eq, Structural)]
pub enum FileAction {
    /// Parse it with the claiming format.
    Parse(Claim),
    /// Extension-less: guess the type of its trimmed content.
    Auto,
    /// Leave it out.
    Skip,
    /// Fail the load: no format claims its extension.
    Reject,
}

/// The tree-mode action for a file name.
pub open spec fn tree_action_spec(
    map: Seq<(Seq<char>, Claim)>,
    name: Seq<char>,
    auto_files: bool,
    ignore_unknown_ext: bool,
) -> FileAction {
    match claimed_spec(map, name) {
        Some(c) => FileAction::Parse(c),
        None => if ext_spec(name) is None && auto_files {
            FileAction::Auto
        } else if ignore_unknown_ext {
            FileAction::Skip
        } else {
            FileAction::Reject
        },
    }
}

/// Tree mode: a claimed file parses; an extension-less one is guessed
/// when `auto_files`; any other is skipped when `ignore_unknown_ext`,
/// else rejected.
pub fn tree_file_action(name: &str, map: &Vec<(String, Claim)>, auto_files: bool, ignore_unknown_ext: bool) -> (r: FileAction)
    ensures
        r == tree_action_spec(claims_view(map@), name@, auto_files, ignore_unknown_ext),
{
    match claimed_format(name, map) {
        Some(c) => FileAction::Parse(c),
        None => {
            let no_ext = file_extension(name).is_none();
            if no_ext && auto_files {
                FileAction::Auto
            } else if ignore_unknown_ext {
                FileAction::Skip
            } else {
                FileAction::Reject
            }
        },
    }
}

// ---------------------------------------------------------------------
// Spreadsheets
// ---------------------------------------------------------------------

/// A commented-out name: it starts with `#`, `.` or `_`.
pub open spec fn commented_spec(name: Seq<char>) -> bool {
    name.len() > 0 && (name[0] == '#' || name[0] == '.' || name[0] == '_')
}

/// Whether a name is commented out (`#`, `.` or `_` first).
pub fn is_commented(name: &str) -> (r: bool)
    ensures
        r == commented_spec(name@),
{
    let c = chars_of(name);
    c.len() > 0 && (c[0] == '#' || c[0] == '.' || c[0] == '_')
}

/// Whether a sheet is read: only worksheets; hidden ones only when
/// hidden sheets are not ignored; commented names only when such names
/// are not ignored.
pub fn keep_sheet(is_worksheet: bool, visible: bool, name: &str, ignore_hidden: bool, ignore_prefix: bool) -> (r: bool)
    ensures
        r == (is_worksheet && (!ignore_hidden || visible) && (!ignore_prefix || !commented_spec(name@))),
{
    if !is_worksheet {
        return false;
    }
    if ignore_hidden && !visible {
        return false;
    }
    if ignore_prefix && is_commented(name) {
        return false;
    }
    true
}

/// `digits` left-padded with zeros to `width`.
pub open spec fn zero_pad(digits: Seq<char>, width: nat) -> Seq<char> {
    if digits.len() >= width {
        digits
    } else {
        Seq::new((width - digits.len()) as nat, |i: int| '0') + digits
    }
}

/// `hh:mm:ss`, with `.mmm` when the milliseconds are not zero.
pub open spec fn time_text_spec(hour: u64, min: u64, sec: u64, milli: u64) -> Seq<char> {
    let base = zero_pad(decimal(hour as nat), 2) + seq![':'] + zero_pad(decimal(min as nat), 2) + seq![':']
        + zero_pad(decimal(sec as nat), 2);
    if milli == 0 {
        base
    } else {
        base + seq!['.'] + zero_pad(decimal(milli as nat), 3)
    }
}

/// Append `n` zero-padded to `width` digits.
fn push_padded(out: &mut String, n: u64, width: usize)
    requires
        width <= 3,
    ensures
        final(out)@ == old(out)@ + zero_pad(decimal(n as nat), width as nat),
{
    let mut d = String::new();
    push_decimal(&mut d, n);
    let len = chars_of(d.as_str()).len();
    let mut k = len;
    let ghost start = out@;
    while k < width
        invariant
            len == decimal(n as nat).len(),
            len <= k,
            k <= width || (k == len && len >= width),
            out@ == start + Seq::new((k - len) as nat, |i: int| '0'),
        decreases width - k,
    {
        push_char(out, '0');
        k = k + 1;
        assert(out@ =~= start + Seq::new((k - len) as nat, |i: int| '0'));
    }
    push_str(out, d.as_str());
    proof {
        if len >= width {
            assert(Seq::new(0nat, |i: int| '0') + decimal(n as nat) =~= decimal(n as nat));
            assert(out@ =~= start + decimal(n as nat));
        } else {
            assert(out@ =~= start + (Seq::new((width - len) as nat, |i: int| '0') + decimal(n as nat)));
        }
    }
}

/// A time of day (or a duration) as text: `hh:mm:ss[.mmm]`, each part
/// zero-padded, milliseconds only when not zero.
pub fn time_text(hour: u64, min: u64, sec: u64, milli: u64) -> (r: String)
    ensures
        r@ == time_text_spec(hour, min, sec, milli),
{
    let mut out = String::new();
    push_padded(&mut out, hour, 2);
    push_char(&mut out, ':');
    push_padded(&mut out, min, 2);
    push_char(&mut out, ':');
    push_padded(&mut out, sec, 2);
    if milli != 0 {
        push_char(&mut out, '.');
        push_padded(&mut out, milli, 3);
    }
    out
}

} // verus!
