//! The dynamic config value: the [`Value`] enum, its mathematical model
//! [`Val`], the key order of objects, and the accessors.
//!
//! An object is a vector of `(key, value)` entries kept in strictly
//! ascending key order (the order `String` itself sorts in), so each key
//! occurs once and iteration follows the key order.

use vstd::prelude::*;

use crate::text::{chars_of, push_str};

verus! {

/// The kinds of text-carrying values.
#[derive(Debug, Clone, Copy, PartialEq, Eq, Structural)]
pub enum TextKind {
    Str,
    DateTime,
    Date,
    Time,
    Inet,
    Cidr,
    MacAddr,
    MacAddr8,
    Uuid,
}

/// The mathematical model of a [`Value`]: strings as character
/// sequences, arrays and objects as sequences.
pub enum Val {
    Null,
    Bool(bool),
    Int(i64),
    Uint(u64),
    Int128(i128),
    Uint128(u128),
    Float(u64),
    Text(TextKind, Seq<char>),
    Ipv4(u32),
    Ipv6(u128),
    Arr(Seq<Val>),
    Obj(Seq<(Seq<char>, Val)>),
}

/// Dynamic config value.
#[derive(Debug, PartialEq)]
pub enum Value {
    Null,
    Bool(bool),
    Int(i64),
    Uint(u64),
    /// A signed integer beyond `i64` (explicit `i128` cells only).
    Int128(i128),
    /// An unsigned integer beyond `u64` (explicit `u128` cells only).
    Uint128(u128),
    /// A float, held as its IEEE-754 binary64 bit pattern.
    Float(u64),
    String(String),
    /// An RFC 3339-style date or datetime, kept as its text.
    DateTime(String),
    /// `YYYY-MM-DD`, kept as its text.
    Date(String),
    /// `hh:mm:ss[.fraction]`, kept as its text.
    Time(String),
    /// An IPv4 address, by its 32 address bits.
    Ipv4(u32),
    /// An IPv6 address, by its 128 address bits.
    Ipv6(u128),
    /// A host address with a netmask, kept as its validated text.
    Inet(String),
    /// A network (host bits below the mask zero), kept as its text.
    Cidr(String),
    /// A 6-byte MAC address, kept as its validated text.
    MacAddr(String),
    /// An 8-byte MAC address, kept as its validated text.
    MacAddr8(String),
    /// A hyphenated `8-4-4-4-12` UUID, kept as its validated text.
    Uuid(String),
    Array(Vec<Value>),
    /// Entries in strictly ascending key order.
    Object(Vec<(String, Value)>),
}

impl Value {
    /// The model of this value.
    pub open spec fn view(&self) -> Val
        decreases self,
    {
        match self {
            Value::Null => Val::Null,
            Value::Bool(b) => Val::Bool(*b),
            Value::Int(i) => Val::Int(*i),
            Value::Uint(u) => Val::Uint(*u),
            Value::Int128(i) => Val::Int128(*i),
            Value::Uint128(u) => Val::Uint128(*u),
            Value::Float(f) => Val::Float(*f),
            Value::String(s) => Val::Text(TextKind::Str, s@),
            Value::DateTime(s) => Val::Text(TextKind::DateTime, s@),
            Value::Date(s) => Val::Text(TextKind::Date, s@),
            Value::Time(s) => Val::Text(TextKind::Time, s@),
            Value::Ipv4(a) => Val::Ipv4(*a),
            Value::Ipv6(a) => Val::Ipv6(*a),
            Value::Inet(s) => Val::Text(TextKind::Inet, s@),
            Value::Cidr(s) => Val::Text(TextKind::Cidr, s@),
            Value::MacAddr(s) => Val::Text(TextKind::MacAddr, s@),
            Value::MacAddr8(s) => Val::Text(TextKind::MacAddr8, s@),
            Value::Uuid(s) => Val::Text(TextKind::Uuid, s@),
            Value::Array(items) => Val::Arr(view_items(items@)),
            Value::Object(entries) => Val::Obj(view_entries(entries@)),
        }
    }
}

/// The models of a sequence of values.
pub open spec fn view_items(s: Seq<Value>) -> Seq<Val>
    decreases s,
{
    if s.len() == 0 {
        seq![]
    } else {
        view_items(s.subrange(0, s.len() - 1)).push(s[s.len() - 1].view())
    }
}

/// The models of a sequence of object entries.
pub open spec fn view_entries(s: Seq<(String, Value)>) -> Seq<(Seq<char>, Val)>
    decreases s,
{
    if s.len() == 0 {
        seq![]
    } else {
        view_entries(s.subrange(0, s.len() - 1)).push(
            (s[s.len() - 1].0@, s[s.len() - 1].1.view()),
        )
    }
}

/// `view_items` maps each element.
pub proof fn lemma_view_items(s: Seq<Value>)
    ensures
        view_items(s).len() == s.len(),
        forall|i: int| 0 <= i < s.len() ==> #[trigger] view_items(s)[i] == s[i].view(),
    decreases s.len(),
{
    if s.len() > 0 {
        lemma_view_items(s.subrange(0, s.len() - 1));
    }
}

/// `view_entries` maps each entry.
pub proof fn lemma_view_entries(s: Seq<(String, Value)>)
    ensures
        view_entries(s).len() == s.len(),
        forall|i: int|
            0 <= i < s.len() ==> #[trigger] view_entries(s)[i] == (s[i].0@, s[i].1.view()),
    decreases s.len(),
{
    if s.len() > 0 {
        lemma_view_entries(s.subrange(0, s.len() - 1));
    }
}

/// Two sequences of values with element-wise equal models have equal
/// models.
pub proof fn lemma_view_items_ext(a: Seq<Value>, b: Seq<Val>)
    requires
        a.len() == b.len(),
        forall|i: int| 0 <= i < a.len() ==> #[trigger] a[i].view() == b[i],
    ensures
        view_items(a) == b,
{
    lemma_view_items(a);
    assert(view_items(a) =~= b);
}

/// Two sequences of entries with entry-wise equal models have equal
/// models.
pub proof fn lemma_view_entries_ext(a: Seq<(String, Value)>, b: Seq<(Seq<char>, Val)>)
    requires
        a.len() == b.len(),
        forall|i: int| 0 <= i < a.len() ==> (#[trigger] a[i]).0@ == b[i].0 && a[i].1.view() == b[i].1,
    ensures
        view_entries(a) == b,
{
    lemma_view_entries(a);
    assert forall|i: int| 0 <= i < a.len() implies view_entries(a)[i] == b[i] by {
        assert(a[i].0@ == b[i].0);
    }
    assert(view_entries(a) =~= b);
}

// ---------------------------------------------------------------------
// Key order
// ---------------------------------------------------------------------

/// Lexicographic order on keys from position `i`, by character code —
/// the order of `String` (UTF-8 preserves code point order).
pub open spec fn key_lt_from(a: Seq<char>, b: Seq<char>, i: int) -> bool
    decreases a.len() - i,
{
    if i < 0 {
        false
    } else if i >= a.len() {
        i < b.len()
    } else if i >= b.len() {
        false
    } else if a[i] != b[i] {
        a[i] < b[i]
    } else {
        key_lt_from(a, b, i + 1)
    }
}

/// `a` sorts strictly before `b`.
pub open spec fn key_lt(a: Seq<char>, b: Seq<char>) -> bool {
    key_lt_from(a, b, 0)
}

proof fn lemma_key_lt_from_irrefl(a: Seq<char>, i: int)
    ensures
        !key_lt_from(a, a, i),
    decreases a.len() - i,
{
    if 0 <= i < a.len() {
        lemma_key_lt_from_irrefl(a, i + 1);
    }
}

proof fn lemma_key_lt_from_trans(a: Seq<char>, b: Seq<char>, c: Seq<char>, i: int)
    requires
        0 <= i,
        key_lt_from(a, b, i),
        key_lt_from(b, c, i),
        forall|j: int| 0 <= j < i ==> a[j] == b[j] && b[j] == c[j],
    ensures
        key_lt_from(a, c, i),
    decreases a.len() - i,
{
    if i < a.len() && i < b.len() && i < c.len() && a[i] == b[i] && b[i] == c[i] {
        lemma_key_lt_from_trans(a, b, c, i + 1);
    }
}

proof fn lemma_key_lt_from_total(a: Seq<char>, b: Seq<char>, i: int)
    requires
        0 <= i <= a.len(),
        i <= b.len(),
        forall|j: int| 0 <= j < i ==> a[j] == b[j],
        a != b,
    ensures
        key_lt_from(a, b, i) || key_lt_from(b, a, i),
    decreases a.len() - i,
{
    if i < a.len() && i < b.len() && a[i] == b[i] {
        lemma_key_lt_from_total(a, b, i + 1);
    } else if i == a.len() && i == b.len() {
        assert(a =~= b);
    } else if i < a.len() && i < b.len() {
    }
}

/// The key order is a strict total order.
pub proof fn lemma_key_order(a: Seq<char>, b: Seq<char>, c: Seq<char>)
    ensures
        !key_lt(a, a),
        key_lt(a, b) ==> !key_lt(b, a),
        key_lt(a, b) && key_lt(b, c) ==> key_lt(a, c),
        a != b ==> key_lt(a, b) || key_lt(b, a),
{
    lemma_key_lt_from_irrefl(a, 0);
    if key_lt(a, b) && key_lt(b, c) {
        lemma_key_lt_from_trans(a, b, c, 0);
    }
    if key_lt(a, b) && key_lt(b, a) {
        lemma_key_lt_from_trans(a, b, a, 0);
        lemma_key_lt_from_irrefl(a, 0);
    }
    if a != b {
        lemma_key_lt_from_total(a, b, 0);
    }
}

/// Compare two keys: negative, zero or positive as `a` sorts before,
/// equal to, or after `b`.
pub fn key_compare(a: &str, b: &str) -> (r: i8)
    ensures
        (r < 0) == key_lt(a@, b@),
        (r == 0) == (a@ == b@),
        (r > 0) == key_lt(b@, a@),
{
    let x = chars_of(a);
    let y = chars_of(b);
    let mut i: usize = 0;
    proof {
        lemma_key_order(a@, b@, a@);
    }
    while i < x.len() && i < y.len() && x[i] == y[i]
        invariant
            x@ == a@,
            y@ == b@,
            i <= x@.len(),
            i <= y@.len(),
            forall|j: int| 0 <= j < i ==> x@[j] == y@[j],
            key_lt_from(a@, b@, i as int) == key_lt(a@, b@),
            key_lt_from(b@, a@, i as int) == key_lt(b@, a@),
        decreases x@.len() - i,
    {
        i = i + 1;
    }
    if i == x.len() && i == y.len() {
        assert(a@ =~= b@);
        proof {
            lemma_key_lt_from_irrefl(a@, 0);
        }
        0
    } else if i == x.len() {
        -1
    } else if i == y.len() {
        1
    } else if x[i] < y[i] {
        assert(a@ != b@ && a@[i as int] != b@[i as int]);
        -1
    } else {
        assert(a@ != b@ && a@[i as int] != b@[i as int]);
        1
    }
}

// ---------------------------------------------------------------------
// Well-formedness
// ---------------------------------------------------------------------

/// Keys strictly ascending.
pub open spec fn keys_sorted<V>(es: Seq<(Seq<char>, V)>) -> bool {
    forall|i: int, j: int| 0 <= i < j < es.len() ==> key_lt(#[trigger] es[i].0, #[trigger] es[j].0)
}

/// Every object, at every depth, has its keys strictly ascending.
pub open spec fn wf(v: Val) -> bool
    decreases v,
{
    match v {
        Val::Arr(items) => items_wf(items),
        Val::Obj(es) => keys_sorted(es) && entries_wf(es),
        _ => true,
    }
}

/// Every element is well-formed.
pub open spec fn items_wf(s: Seq<Val>) -> bool
    decreases s,
{
    if s.len() == 0 {
        true
    } else {
        items_wf(s.subrange(0, s.len() - 1)) && wf(s[s.len() - 1])
    }
}

/// Every entry's value is well-formed.
pub open spec fn entries_wf(s: Seq<(Seq<char>, Val)>) -> bool
    decreases s,
{
    if s.len() == 0 {
        true
    } else {
        entries_wf(s.subrange(0, s.len() - 1)) && wf(s[s.len() - 1].1)
    }
}

/// `items_wf` holds exactly when every element is well-formed.
pub proof fn lemma_items_wf(s: Seq<Val>)
    ensures
        items_wf(s) == forall|i: int| 0 <= i < s.len() ==> wf(#[trigger] s[i]),
    decreases s.len(),
{
    if s.len() > 0 {
        let p = s.subrange(0, s.len() - 1);
        lemma_items_wf(p);
        if items_wf(s) {
            assert forall|i: int| 0 <= i < s.len() implies wf(#[trigger] s[i]) by {
                if i < s.len() - 1 {
                    assert(s[i] == p[i]);
                }
            }
        }
        if forall|i: int| 0 <= i < s.len() ==> wf(#[trigger] s[i]) {
            assert forall|i: int| 0 <= i < p.len() implies wf(#[trigger] p[i]) by {
                assert(p[i] == s[i]);
            }
        }
    }
}

/// `entries_wf` holds exactly when every entry's value is well-formed.
pub proof fn lemma_entries_wf(s: Seq<(Seq<char>, Val)>)
    ensures
        entries_wf(s) == forall|i: int| 0 <= i < s.len() ==> wf(#[trigger] s[i].1),
    decreases s.len(),
{
    if s.len() > 0 {
        let p = s.subrange(0, s.len() - 1);
        lemma_entries_wf(p);
        if entries_wf(s) {
            assert forall|i: int| 0 <= i < s.len() implies wf(#[trigger] s[i].1) by {
                if i < s.len() - 1 {
                    assert(s[i] == p[i]);
                }
            }
        }
        if forall|i: int| 0 <= i < s.len() ==> wf(#[trigger] s[i].1) {
            assert forall|i: int| 0 <= i < p.len() implies wf(#[trigger] p[i].1) by {
                assert(p[i] == s[i]);
            }
        }
    }
}

/// The value under `k` in an entry sequence, if any.
pub open spec fn lookup<V>(es: Seq<(Seq<char>, V)>, k: Seq<char>) -> Option<V> {
    if exists|j: int| 0 <= j < es.len() && es[j].0 == k {
        Some(es[choose|j: int| 0 <= j < es.len() && es[j].0 == k].1)
    } else {
        None
    }
}

/// In sorted entries, the key at `j` is found exactly there.
pub proof fn lemma_lookup_at<V>(es: Seq<(Seq<char>, V)>, j: int)
    requires
        keys_sorted(es),
        0 <= j < es.len(),
    ensures
        lookup(es, es[j].0) == Some(es[j].1),
{
    let k = es[j].0;
    assert(0 <= j < es.len() && es[j].0 == k);
    assert(exists|i: int| 0 <= i < es.len() && es[i].0 == k);
    let c = choose|i: int| 0 <= i < es.len() && es[i].0 == k;
    assert(0 <= c < es.len() && es[c].0 == k);
    lemma_key_order(k, k, k);
    if c < j {
        assert(key_lt(es[c].0, es[j].0));
    } else if c > j {
        assert(key_lt(es[j].0, es[c].0));
    }
    assert(c == j);
    assert(lookup(es, k) == Some(es[c].1));
}

// ---------------------------------------------------------------------
// Accessors
// ---------------------------------------------------------------------

/// The index of the first entry with key `k`, if any.
pub fn find_key(es: &Vec<(String, Value)>, k: &str) -> (r: Option<usize>)
    ensures
        r matches Some(j) ==> j < es@.len() && es@[j as int].0@ == k@ && forall|i: int|
            0 <= i < j ==> (#[trigger] es@[i]).0@ != k@,
        r is None ==> forall|j: int| 0 <= j < es@.len() ==> (#[trigger] es@[j]).0@ != k@,
{
    let mut i: usize = 0;
    while i < es.len()
        invariant
            i <= es@.len(),
            forall|j: int| 0 <= j < i ==> (#[trigger] es@[j]).0@ != k@,
        decreases es@.len() - i,
    {
        if key_compare(es[i].0.as_str(), k) == 0 {
            return Some(i);
        }
        i = i + 1;
    }
    None
}

impl Value {
    /// Object member by key; `None` when this is not an object or the
    /// key is absent (with a repeated key, the first entry's value).
    pub fn get(&self, key: &str) -> (r: Option<&Value>)
        ensures
            match self@ {
                Val::Obj(es) => {
                    &&& (r is None) == (forall|j: int| 0 <= j < es.len() ==> (#[trigger] es[j]).0 != key@)
                    &&& r matches Some(x) ==> exists|j: int|
                        0 <= j < es.len() && (#[trigger] es[j]).0 == key@ && x@ == es[j].1 && forall|i: int|
                            0 <= i < j ==> (#[trigger] es[i]).0 != key@
                    &&& wf(self@) ==> match lookup(es, key@) {
                        None => r is None,
                        Some(v) => r matches Some(x) && x@ == v,
                    }
                },
                _ => r is None,
            },
    {
        match self {
            Value::Object(entries) => {
                proof {
                    lemma_view_entries(entries@);
                }
                match find_key(entries, key) {
                    None => {
                        assert forall|j: int| 0 <= j < view_entries(entries@).len() implies (#[trigger] view_entries(entries@)[j]).0 != key@ by {
                            assert(view_entries(entries@)[j].0 == entries@[j].0@);
                        }
                        None
                    },
                    Some(j) => {
                        proof {
                            let ve = view_entries(entries@);
                            assert(ve[j as int] == (entries@[j as int].0@, entries@[j as int].1@));
                            assert forall|i: int| 0 <= i < j implies (#[trigger] ve[i]).0 != key@ by {
                                assert(ve[i].0 == entries@[i].0@);
                            }
                            if wf(self@) {
                                lemma_lookup_at(ve, j as int);
                            }
                        }
                        Some(&entries[j].1)
                    },
                }
            },
            _ => None,
        }
    }

    /// Array element by index; `None` when this is not an array or the
    /// index is out of bounds.
    pub fn get_index(&self, index: usize) -> (r: Option<&Value>)
        ensures
            match self@ {
                Val::Arr(items) => if index < items.len() {
                    r matches Some(x) && x@ == items[index as int]
                } else {
                    r is None
                },
                _ => r is None,
            },
    {
        match self {
            Value::Array(items) => {
                proof {
                    lemma_view_items(items@);
                }
                if index < items.len() {
                    Some(&items[index])
                } else {
                    None
                }
            },
            _ => None,
        }
    }

    pub fn is_null(&self) -> (r: bool)
        ensures
            r == (self@ is Null),
    {
        match self {
            Value::Null => true,
            _ => false,
        }
    }

    pub fn as_bool(&self) -> (r: Option<bool>)
        ensures
            r == (match self@ {
                Val::Bool(b) => Some(b),
                _ => None,
            }),
    {
        match self {
            Value::Bool(b) => Some(*b),
            _ => None,
        }
    }

    /// The integer this value holds, if it is an integer.
    pub open spec fn int_of(v: Val) -> Option<int> {
        match v {
            Val::Int(i) => Some(i as int),
            Val::Uint(u) => Some(u as int),
            Val::Int128(i) => Some(i as int),
            Val::Uint128(u) => Some(u as int),
            _ => None,
        }
    }

    /// The value as an `i64`, when it is an integer that fits.
    pub fn as_i64(&self) -> (r: Option<i64>)
        ensures
            r == (match Self::int_of(self@) {
                Some(i) => if i64::MIN <= i <= i64::MAX { Some(i as i64) } else { None },
                None => None,
            }),
    {
        match self {
            Value::Int(i) => Some(*i),
            Value::Uint(u) => if *u <= 0x7fff_ffff_ffff_ffff { Some(*u as i64) } else { None },
            Value::Int128(i) => if -0x8000_0000_0000_0000 <= *i && *i <= 0x7fff_ffff_ffff_ffff {
                Some(*i as i64)
            } else {
                None
            },
            Value::Uint128(u) => if *u <= 0x7fff_ffff_ffff_ffff { Some(*u as i64) } else { None },
            _ => None,
        }
    }

    /// The value as a `u64`, when it is an integer that fits.
    pub fn as_u64(&self) -> (r: Option<u64>)
        ensures
            r == (match Self::int_of(self@) {
                Some(i) => if 0 <= i <= u64::MAX { Some(i as u64) } else { None },
                None => None,
            }),
    {
        match self {
            Value::Uint(u) => Some(*u),
            Value::Int(i) => if *i >= 0 { Some(*i as u64) } else { None },
            Value::Int128(i) => if 0 <= *i && *i <= 0xffff_ffff_ffff_ffff { Some(*i as u64) } else { None },
            Value::Uint128(u) => if *u <= 0xffff_ffff_ffff_ffff { Some(*u as u64) } else { None },
            _ => None,
        }
    }

    /// The value as an `i128`, when it is an integer that fits.
    pub fn as_i128(&self) -> (r: Option<i128>)
        ensures
            r == (match Self::int_of(self@) {
                Some(i) => if i128::MIN <= i <= i128::MAX { Some(i as i128) } else { None },
                None => None,
            }),
    {
        match self {
            Value::Int(i) => Some(*i as i128),
            Value::Uint(u) => Some(*u as i128),
            Value::Int128(i) => Some(*i),
            Value::Uint128(u) => if *u <= 0x7fff_ffff_ffff_ffff_ffff_ffff_ffff_ffff { Some(*u as i128) } else { None },
            _ => None,
        }
    }

    /// The value as a `u128`, when it is an integer that fits.
    pub fn as_u128(&self) -> (r: Option<u128>)
        ensures
            r == (match Self::int_of(self@) {
                Some(i) => if 0 <= i <= u128::MAX { Some(i as u128) } else { None },
                None => None,
            }),
    {
        match self {
            Value::Int(i) => if *i >= 0 { Some(*i as u128) } else { None },
            Value::Uint(u) => Some(*u as u128),
            Value::Int128(i) => if *i >= 0 { Some(*i as u128) } else { None },
            Value::Uint128(u) => Some(*u),
            _ => None,
        }
    }

    /// The text of a string — or of any value kept as its text
    /// (datetime/date/time, inet, cidr, MAC addresses, UUID).
    pub fn as_str(&self) -> (r: Option<&str>)
        ensures
            match self@ {
                Val::Text(_, s) => r matches Some(x) && x@ == s,
                _ => r is None,
            },
    {
        match self {
            Value::String(s) | Value::DateTime(s) | Value::Date(s) | Value::Time(s) | Value::Inet(
                s,
            ) | Value::Cidr(s) | Value::MacAddr(s) | Value::MacAddr8(s) | Value::Uuid(s) => Some(
                s.as_str(),
            ),
            _ => None,
        }
    }

    pub fn as_array(&self) -> (r: Option<&Vec<Value>>)
        ensures
            match self {
                Value::Array(items) => r == Some(items),
                _ => r is None,
            },
    {
        match self {
            Value::Array(items) => Some(items),
            _ => None,
        }
    }

    pub fn as_object(&self) -> (r: Option<&Vec<(String, Value)>>)
        ensures
            match self {
                Value::Object(entries) => r == Some(entries),
                _ => r is None,
            },
    {
        match self {
            Value::Object(entries) => Some(entries),
            _ => None,
        }
    }
}

/// What an absent key or index reads as.
pub const NULL: Value = Value::Null;

/// `value["k"]`: the entry under the key (the first, should a key repeat);
/// `Value::Null` when this is not an object or the key is absent.
impl std::ops::Index<&str> for Value {
    type Output = Value;

    fn index(&self, key: &str) -> (r: &Value)
        ensures
            match self@ {
                Val::Obj(es) => {
                    &&& (forall|j: int| 0 <= j < es.len() ==> (#[trigger] es[j]).0 != key@) ==> r@ == Val::Null
                    &&& (exists|j: int| 0 <= j < es.len() && (#[trigger] es[j]).0 == key@) ==> exists|j: int|
                        0 <= j < es.len() && (#[trigger] es[j]).0 == key@ && r@ == es[j].1 && forall|i: int|
                            0 <= i < j ==> (#[trigger] es[i]).0 != key@
                },
                _ => r@ == Val::Null,
            },
    {
        match self.get(key) {
            Some(v) => v,
            None => &NULL,
        }
    }
}

impl vstd::std_specs::core::IndexSpecImpl<&str> for Value {
    open spec fn index_req(&self, index: &&str) -> bool {
        true
    }
}

/// `value[0]`: the element at the index; `Value::Null` when this is not
/// an array or the index is out of bounds.
impl std::ops::Index<usize> for Value {
    type Output = Value;

    fn index(&self, index: usize) -> (r: &Value)
        ensures
            match self@ {
                Val::Arr(items) => if index < items.len() {
                    r@ == items[index as int]
                } else {
                    r@ == Val::Null
                },
                _ => r@ == Val::Null,
            },
    {
        match self.get_index(index) {
            Some(v) => v,
            None => &NULL,
        }
    }
}

impl vstd::std_specs::core::IndexSpecImpl<usize> for Value {
    open spec fn index_req(&self, index: &usize) -> bool {
        true
    }
}

impl Value {
    /// A copy of this value, at every depth.
    pub fn deep_copy(&self) -> (r: Value)
        ensures
            r@ == self@,
        decreases self,
    {
        match self {
            Value::Null => Value::Null,
            Value::Bool(b) => Value::Bool(*b),
            Value::Int(i) => Value::Int(*i),
            Value::Uint(u) => Value::Uint(*u),
            Value::Int128(i) => Value::Int128(*i),
            Value::Uint128(u) => Value::Uint128(*u),
            Value::Float(f) => Value::Float(*f),
            Value::String(s) => Value::String(s.as_str().to_owned()),
            Value::DateTime(s) => Value::DateTime(s.as_str().to_owned()),
            Value::Date(s) => Value::Date(s.as_str().to_owned()),
            Value::Time(s) => Value::Time(s.as_str().to_owned()),
            Value::Ipv4(a) => Value::Ipv4(*a),
            Value::Ipv6(a) => Value::Ipv6(*a),
            Value::Inet(s) => Value::Inet(s.as_str().to_owned()),
            Value::Cidr(s) => Value::Cidr(s.as_str().to_owned()),
            Value::MacAddr(s) => Value::MacAddr(s.as_str().to_owned()),
            Value::MacAddr8(s) => Value::MacAddr8(s.as_str().to_owned()),
            Value::Uuid(s) => Value::Uuid(s.as_str().to_owned()),
            Value::Array(items) => {
                let mut out: Vec<Value> = Vec::new();
                let mut i: usize = 0;
                while i < items.len()
                    invariant
                        i <= items@.len(),
                        *self == Value::Array(*items),
                        out@.len() == i,
                        forall|k: int| 0 <= k < i ==> (#[trigger] out@[k])@ == items@[k]@,
                    decreases items@.len() - i,
                {
                    assert(decreases_to!(*self => (*self)->Array_0));
                    assert(decreases_to!(*items => items@));
                    assert(decreases_to!(items@ => items@[i as int]));
                    out.push(items[i].deep_copy());
                    i = i + 1;
                }
                proof {
                    lemma_view_items(items@);
                    lemma_view_items_ext(out@, view_items(items@));
                }
                Value::Array(out)
            },
            Value::Object(entries) => {
                let mut out: Vec<(String, Value)> = Vec::new();
                let mut i: usize = 0;
                while i < entries.len()
                    invariant
                        i <= entries@.len(),
                        *self == Value::Object(*entries),
                        out@.len() == i,
                        forall|k: int| 0 <= k < i ==> (#[trigger] out@[k]).0@ == entries@[k].0@ && out@[k].1@ == entries@[k].1@,
                    decreases entries@.len() - i,
                {
                    assert(decreases_to!(*self => (*self)->Object_0));
                    assert(decreases_to!(*entries => entries@));
                    assert(decreases_to!(entries@ => entries@[i as int]));
                    assert(decreases_to!(entries@[i as int] => entries@[i as int].1));
                    let v = entries[i].1.deep_copy();
                    out.push((entries[i].0.as_str().to_owned(), v));
                    i = i + 1;
                }
                proof {
                    lemma_view_entries(entries@);
                    lemma_view_entries_ext(out@, view_entries(entries@));
                }
                Value::Object(out)
            },
        }
    }
}

impl Clone for Value {
    fn clone(&self) -> (r: Self)
        ensures
            r@ == self@,
    {
        self.deep_copy()
    }
}

/// The format id of a value: the parser that produced it. A
/// homogeneous array of scalars is `arr:<id>`, any other array `arr`.
pub open spec fn format_id_spec(v: Val) -> Seq<char>
    decreases v,
{
    match v {
        Val::Null => "null"@,
        Val::Bool(_) => "bool"@,
        Val::Int(_) => "i64"@,
        Val::Uint(_) => "u64"@,
        Val::Int128(_) => "i128"@,
        Val::Uint128(_) => "u128"@,
        Val::Float(_) => "f64"@,
        Val::Text(k, _) => text_id(k),
        Val::Ipv4(_) => "ipv4"@,
        Val::Ipv6(_) => "ipv6"@,
        Val::Obj(_) => "object"@,
        Val::Arr(items) => if items.len() > 0 && same_ids(items, format_id_spec(items[0])) && format_id_spec(items[0]) != "object"@
            && !(format_id_spec(items[0]).len() >= 3 && format_id_spec(items[0]).subrange(0, 3) == "arr"@) {
            "arr:"@ + format_id_spec(items[0])
        } else {
            "arr"@
        },
    }
}

/// Every element has format id `id`.
pub open spec fn same_ids(items: Seq<Val>, id: Seq<char>) -> bool
    decreases items,
{
    if items.len() == 0 {
        true
    } else {
        same_ids(items.subrange(0, items.len() - 1), id) && format_id_spec(items[items.len() - 1]) == id
    }
}

/// The id of a text kind.
pub open spec fn text_id(k: TextKind) -> Seq<char> {
    match k {
        TextKind::Str => "str"@,
        TextKind::DateTime => "dt"@,
        TextKind::Date => "date"@,
        TextKind::Time => "time"@,
        TextKind::Inet => "inet"@,
        TextKind::Cidr => "cidr"@,
        TextKind::MacAddr => "macaddr"@,
        TextKind::MacAddr8 => "macaddr8"@,
        TextKind::Uuid => "uuid"@,
    }
}

impl Value {
    /// The format id of this value (shown by traces): `null`, `bool`,
    /// `i64`, `u64`, `i128`, `u128`, `f64`, `str`, the typed ids, `object`,
    /// `arr:<id>` for a homogeneous array of scalars, else `arr`.
    pub fn format_id(&self) -> (r: String)
        ensures
            r@ == format_id_spec(self@),
        decreases self,
    {
        let s: &str = match self {
            Value::Null => "null",
            Value::Bool(_) => "bool",
            Value::Int(_) => "i64",
            Value::Uint(_) => "u64",
            Value::Int128(_) => "i128",
            Value::Uint128(_) => "u128",
            Value::Float(_) => "f64",
            Value::String(_) => "str",
            Value::DateTime(_) => "dt",
            Value::Date(_) => "date",
            Value::Time(_) => "time",
            Value::Ipv4(_) => "ipv4",
            Value::Ipv6(_) => "ipv6",
            Value::Inet(_) => "inet",
            Value::Cidr(_) => "cidr",
            Value::MacAddr(_) => "macaddr",
            Value::MacAddr8(_) => "macaddr8",
            Value::Uuid(_) => "uuid",
            Value::Object(_) => "object",
            Value::Array(items) => {
                proof {
                    lemma_view_items(items@);
                }
                if items.len() == 0 {
                    return "arr".to_owned();
                }
                assert(decreases_to!(*self => (*self)->Array_0));
                assert(decreases_to!(*items => items@));
                assert(decreases_to!(items@ => items@[0]));
                let first = items[0].format_id();
                let fc = chars_of(first.as_str());
                let ghost its = view_items(items@);
                let mut all = true;
                let mut i: usize = 0;
                assert(its.subrange(0, 0) =~= Seq::<Val>::empty());
                while i < items.len()
                    invariant
                        i <= items@.len(),
                        *self == Value::Array(*items),
                        its == view_items(items@),
                        its.len() == items@.len(),
                        forall|k: int| 0 <= k < items@.len() ==> #[trigger] its[k] == items@[k]@,
                        all == same_ids(its.subrange(0, i as int), first@),
                    decreases items@.len() - i,
                {
                    assert(decreases_to!(*self => (*self)->Array_0));
                    assert(decreases_to!(*items => items@));
                    assert(decreases_to!(items@ => items@[i as int]));
                    let id = items[i].format_id();
                    assert(its.subrange(0, i + 1).subrange(0, i as int) =~= its.subrange(0, i as int));
                    if !crate::text::same(id.as_str(), first.as_str()) {
                        all = false;
                    }
                    i = i + 1;
                }
                assert(its.subrange(0, its.len() as int) =~= its);
                let is_obj = crate::text::same(first.as_str(), "object");
                let is_arr = fc.len() >= 3 && crate::text::spells(&fc[0..3], "arr");
                if all && !is_obj && !is_arr {
                    let mut out = String::new();
                    push_str(&mut out, "arr:");
                    push_str(&mut out, first.as_str());
                    return out;
                }
                return "arr".to_owned();
            },
        };
        s.to_owned()
    }
}


/// Whether a value is well-formed: every object, at every depth, with
/// its keys strictly ascending.
pub fn well_formed(v: &Value) -> (r: bool)
    ensures
        r == wf(v@),
    decreases v@,
{
    let ghost vv = v@;
    match v {
        Value::Array(items) => {
            let ghost iv = view_items(items@);
            proof {
                lemma_view_items(items@);
                lemma_items_wf(iv);
            }
            let mut i: usize = 0;
            while i < items.len()
                invariant
                    i <= items@.len(),
                    vv == v@,
                    vv == Val::Arr(iv),
                    iv == view_items(items@),
                    iv.len() == items@.len(),
                    forall|j: int| 0 <= j < items@.len() ==> #[trigger] iv[j] == items@[j]@,
                    forall|j: int| 0 <= j < i ==> wf(#[trigger] iv[j]),
                decreases items@.len() - i,
            {
                assert(decreases_to!(vv => items@[i as int]@)) by {
                    assert(vv == Val::Arr(iv));
                    assert(decreases_to!(vv => vv->Arr_0));
                    assert(decreases_to!(iv => iv[i as int]));
                }
                if !well_formed(&items[i]) {
                    proof {
                        lemma_items_wf(iv);
                        assert(!wf(iv[i as int]));
                    }
                    return false;
                }
                i = i + 1;
            }
            true
        },
        Value::Object(entries) => {
            let ghost ev = view_entries(entries@);
            proof {
                lemma_view_entries(entries@);
                lemma_entries_wf(ev);
            }
            let mut i: usize = 0;
            while i < entries.len()
                invariant
                    i <= entries@.len(),
                    vv == v@,
                    vv == Val::Obj(ev),
                    ev == view_entries(entries@),
                    ev.len() == entries@.len(),
                    forall|j: int| 0 <= j < entries@.len() ==> #[trigger] ev[j] == (entries@[j].0@, entries@[j].1@),
                    forall|j: int| 0 <= j < i ==> wf(#[trigger] ev[j].1),
                    forall|j: int, k: int| 0 <= j < k < i ==> key_lt(#[trigger] ev[j].0, #[trigger] ev[k].0),
                decreases entries@.len() - i,
            {
                assert(decreases_to!(vv => entries@[i as int].1@)) by {
                    assert(vv == Val::Obj(ev));
                    assert(decreases_to!(vv => vv->Obj_0));
                    assert(decreases_to!(ev => ev[i as int]));
                    assert(decreases_to!(ev[i as int] => ev[i as int].1));
                }
                if i > 0 && key_compare(entries[i - 1].0.as_str(), entries[i].0.as_str()) >= 0 {
                    assert(!key_lt(ev[i - 1].0, ev[i as int].0));
                    return false;
                }
                if !well_formed(&entries[i].1) {
                    proof {
                        lemma_entries_wf(ev);
                        assert(!wf(ev[i as int].1));
                    }
                    return false;
                }
                proof {
                    assert forall|j: int, k: int| 0 <= j < k < i + 1 implies key_lt(#[trigger] ev[j].0, #[trigger] ev[k].0) by {
                        if k == i && j < i - 1 {
                            lemma_key_order(ev[j].0, ev[i - 1].0, ev[k].0);
                        }
                    }
                }
                i = i + 1;
            }
            true
        },
        _ => true,
    }
}

} // verus!
