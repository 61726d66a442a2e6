//! The key model: a user key, a timestamp and a value kind, together with
//! the total ordering every table and merge operation preserves — user key
//! ascending, then timestamp descending (the newest version of a user key
//! sorts first), then value kind as the final tiebreak.

use vstd::prelude::*;

verus! {

pub type Timestamp = u64;

/// Whether an entry stores a value or marks a deletion (a tombstone).
#[derive(Clone, Copy, PartialEq, Eq, Structural, Debug)]
pub enum ValueType {
    Put,
    Delete,
}

/// The tag byte a `ValueType` is encoded as.
pub open spec fn type_tag(t: ValueType) -> u8 {
    match t {
        ValueType::Put => 0,
        ValueType::Delete => 1,
    }
}

/// A full internal key: user key bytes, timestamp, value kind.
#[derive(Clone, Debug)]
pub struct Key {
    pub user_key: Vec<u8>,
    pub timestamp: Timestamp,
    pub value_type: ValueType,
}

/// The mathematical model of a `Key`.
pub struct KeyView {
    pub user_key: Seq<u8>,
    pub timestamp: Timestamp,
    pub value_type: ValueType,
}

impl View for Key {
    type V = KeyView;

    open spec fn view(&self) -> KeyView {
        KeyView { user_key: self.user_key@, timestamp: self.timestamp, value_type: self.value_type }
    }
}

/// One key-value entry of a table. An absent value is a tombstone and is
/// encoded distinctly from a present empty value.
#[derive(Clone, Debug)]
pub struct Entry {
    pub key: Key,
    pub value: Option<Vec<u8>>,
}

/// The mathematical model of an `Entry`.
pub struct EntryView {
    pub key: KeyView,
    pub value: Option<Seq<u8>>,
}

impl View for Entry {
    type V = EntryView;

    open spec fn view(&self) -> EntryView {
        EntryView {
            key: self.key@,
            value: match self.value {
                Some(ref v) => Some(v@),
                None => None,
            },
        }
    }
}

/// Strict lexicographic order on byte sequences.
pub open spec fn bytes_lt(a: Seq<u8>, b: Seq<u8>) -> bool
    decreases a.len(),
{
    if b.len() == 0 {
        false
    } else if a.len() == 0 {
        true
    } else if a[0] != b[0] {
        a[0] < b[0]
    } else {
        bytes_lt(a.drop_first(), b.drop_first())
    }
}

/// Strict order on keys: user key ascending, timestamp descending,
/// value-kind tag ascending as the final tiebreak.
pub open spec fn key_lt(a: KeyView, b: KeyView) -> bool {
    ||| bytes_lt(a.user_key, b.user_key)
    ||| (a.user_key == b.user_key && a.timestamp > b.timestamp)
    ||| (a.user_key == b.user_key && a.timestamp == b.timestamp && type_tag(a.value_type)
        < type_tag(b.value_type))
}

pub open spec fn key_eq(a: KeyView, b: KeyView) -> bool {
    a.user_key == b.user_key && a.timestamp == b.timestamp && a.value_type == b.value_type
}

pub open spec fn key_le(a: KeyView, b: KeyView) -> bool {
    key_lt(a, b) || key_eq(a, b)
}

/// Of any two byte sequences, exactly one of `a < b`, `a == b`, `b < a` holds.
pub proof fn lemma_bytes_trichotomy(a: Seq<u8>, b: Seq<u8>)
    ensures
        bytes_lt(a, b) || a == b || bytes_lt(b, a),
        bytes_lt(a, b) ==> a != b && !bytes_lt(b, a),
        a == b ==> !bytes_lt(a, b) && !bytes_lt(b, a),
    decreases a.len(),
{
    if a.len() == 0 || b.len() == 0 {
        if a.len() == 0 && b.len() == 0 {
            assert(a =~= b);
        }
    } else {
        lemma_bytes_trichotomy(a.drop_first(), b.drop_first());
        if a[0] == b[0] && a.drop_first() == b.drop_first() {
            assert forall|i: int| 0 <= i < a.len() implies a[i] == b[i] by {
                if i > 0 {
                    assert(a[i] == a.drop_first()[i - 1]);
                    assert(b[i] == b.drop_first()[i - 1]);
                }
            }
            assert(a =~= b);
        }
        if a == b {
            assert(a.drop_first() =~= b.drop_first());
        }
    }
}

/// Lexicographic order on byte sequences is transitive.
pub proof fn lemma_bytes_lt_trans(a: Seq<u8>, b: Seq<u8>, c: Seq<u8>)
    requires
        bytes_lt(a, b),
        bytes_lt(b, c),
    ensures
        bytes_lt(a, c),
    decreases a.len(),
{
    if a.len() == 0 || b.len() == 0 || c.len() == 0 {
    } else {
        if a[0] == b[0] && b[0] == c[0] {
            lemma_bytes_lt_trans(a.drop_first(), b.drop_first(), c.drop_first());
        }
    }
}

/// Of any two keys, exactly one of `a < b`, `a == b`, `b < a` holds.
pub proof fn lemma_key_trichotomy(a: KeyView, b: KeyView)
    ensures
        key_lt(a, b) || key_eq(a, b) || key_lt(b, a),
        key_lt(a, b) ==> !key_eq(a, b) && !key_lt(b, a),
        key_eq(a, b) ==> !key_lt(a, b) && !key_lt(b, a),
{
    lemma_bytes_trichotomy(a.user_key, b.user_key);
}

/// The key order is transitive.
pub proof fn lemma_key_lt_trans(a: KeyView, b: KeyView, c: KeyView)
    requires
        key_lt(a, b),
        key_lt(b, c),
    ensures
        key_lt(a, c),
{
    if bytes_lt(a.user_key, b.user_key) && bytes_lt(b.user_key, c.user_key) {
        lemma_bytes_lt_trans(a.user_key, b.user_key, c.user_key);
    }
}

/// `key_le` is transitive.
pub proof fn lemma_key_le_trans(a: KeyView, b: KeyView, c: KeyView)
    requires
        key_le(a, b),
        key_le(b, c),
    ensures
        key_le(a, c),
{
    if key_lt(a, b) && key_lt(b, c) {
        lemma_key_lt_trans(a, b, c);
    }
}

/// Mixed transitivity: `a <= b < c` gives `a < c`.
pub proof fn lemma_key_le_lt_trans(a: KeyView, b: KeyView, c: KeyView)
    requires
        key_le(a, b),
        key_lt(b, c),
    ensures
        key_lt(a, c),
{
    if key_lt(a, b) {
        lemma_key_lt_trans(a, b, c);
    }
}

/// Mixed transitivity: `a < b <= c` gives `a < c`.
pub proof fn lemma_key_lt_le_trans(a: KeyView, b: KeyView, c: KeyView)
    requires
        key_lt(a, b),
        key_le(b, c),
    ensures
        key_lt(a, c),
{
    if key_lt(b, c) {
        lemma_key_lt_trans(a, b, c);
    }
}

/// A key between two keys that share a user key carries that user key.
pub proof fn lemma_user_key_sandwich(a: KeyView, b: KeyView, c: KeyView)
    requires
        key_le(a, b),
        key_le(b, c),
        a.user_key == c.user_key,
    ensures
        b.user_key == a.user_key,
{
    lemma_bytes_trichotomy(a.user_key, b.user_key);
    lemma_bytes_trichotomy(b.user_key, c.user_key);
    if bytes_lt(a.user_key, b.user_key) && bytes_lt(b.user_key, c.user_key) {
        lemma_bytes_lt_trans(a.user_key, b.user_key, c.user_key);
        lemma_bytes_trichotomy(a.user_key, c.user_key);
    }
}

/// An entry visible at `ts` under a user key: same user key, its
/// timestamp at most `ts`.
pub open spec fn entry_matches(e: EntryView, uk: Seq<u8>, ts: Timestamp) -> bool {
    e.key.user_key == uk && e.key.timestamp <= ts
}

/// The key a point lookup searches from: within the requested user key,
/// entries with timestamps at most `ts` sort at or after it.
pub open spec fn lookup_target(uk: Seq<u8>, ts: Timestamp) -> KeyView {
    KeyView { user_key: uk, timestamp: ts, value_type: ValueType::Put }
}

/// Every visible entry sorts at or after the lookup target.
pub proof fn lemma_match_after_target(uk: Seq<u8>, ts: Timestamp, e: EntryView)
    requires
        entry_matches(e, uk, ts),
    ensures
        key_le(lookup_target(uk, ts), e.key),
{
}

/// Among keys of one user key, sorting earlier means a timestamp at
/// least as large.
pub proof fn lemma_le_same_user_key(a: KeyView, b: KeyView)
    requires
        key_le(a, b),
        a.user_key == b.user_key,
    ensures
        b.timestamp <= a.timestamp,
{
    lemma_bytes_trichotomy(a.user_key, b.user_key);
}

/// The result of an executable three-way comparison.
#[derive(Clone, Copy, PartialEq, Eq, Structural, Debug)]
pub enum KeyOrder {
    Less,
    Equal,
    Greater,
}

/// If two byte sequences agree on a prefix and differ at its end, the one
/// with the smaller byte sorts first.
proof fn lemma_bytes_lt_at(a: Seq<u8>, b: Seq<u8>, i: int)
    requires
        0 <= i < a.len(),
        i < b.len(),
        forall|j: int| 0 <= j < i ==> a[j] == b[j],
        a[i] < b[i],
    ensures
        bytes_lt(a, b),
    decreases i,
{
    if i > 0 {
        lemma_bytes_lt_at(a.drop_first(), b.drop_first(), i - 1);
    }
}

/// A strict prefix sorts before the sequence it prefixes.
proof fn lemma_bytes_lt_prefix(a: Seq<u8>, b: Seq<u8>)
    requires
        a.len() < b.len(),
        forall|j: int| 0 <= j < a.len() ==> a[j] == b[j],
    ensures
        bytes_lt(a, b),
    decreases a.len(),
{
    if a.len() > 0 {
        lemma_bytes_lt_prefix(a.drop_first(), b.drop_first());
    }
}

/// Three-way lexicographic comparison of byte strings.
pub fn compare_bytes(a: &Vec<u8>, b: &Vec<u8>) -> (r: KeyOrder)
    ensures
        r == KeyOrder::Less <==> bytes_lt(a@, b@),
        r == KeyOrder::Equal <==> a@ == b@,
        r == KeyOrder::Greater <==> bytes_lt(b@, a@),
{
    proof {
        lemma_bytes_trichotomy(a@, b@);
    }
    let n = if a.len() < b.len() {
        a.len()
    } else {
        b.len()
    };
    let mut i: usize = 0;
    while i < n
        invariant
            0 <= i <= n,
            n <= a@.len(),
            n <= b@.len(),
            n == a@.len() || n == b@.len(),
            forall|j: int| 0 <= j < i ==> a@[j] == b@[j],
        decreases n - i,
    {
        if a[i] < b[i] {
            proof {
                lemma_bytes_lt_at(a@, b@, i as int);
                lemma_bytes_trichotomy(a@, b@);
            }
            return KeyOrder::Less;
        }
        if b[i] < a[i] {
            proof {
                lemma_bytes_lt_at(b@, a@, i as int);
                lemma_bytes_trichotomy(a@, b@);
            }
            return KeyOrder::Greater;
        }
        i = i + 1;
    }
    if a.len() < b.len() {
        proof {
            lemma_bytes_lt_prefix(a@, b@);
        }
        KeyOrder::Less
    } else if b.len() < a.len() {
        proof {
            lemma_bytes_lt_prefix(b@, a@);
        }
        KeyOrder::Greater
    } else {
        proof {
            assert(a@ =~= b@);
        }
        KeyOrder::Equal
    }
}

/// Three-way comparison of full keys in the table order.
pub fn compare_keys(a: &Key, b: &Key) -> (r: KeyOrder)
    ensures
        r == KeyOrder::Less <==> key_lt(a@, b@),
        r == KeyOrder::Equal <==> key_eq(a@, b@),
        r == KeyOrder::Greater <==> key_lt(b@, a@),
{
    proof {
        lemma_key_trichotomy(a@, b@);
    }
    match compare_bytes(&a.user_key, &b.user_key) {
        KeyOrder::Less => KeyOrder::Less,
        KeyOrder::Greater => KeyOrder::Greater,
        KeyOrder::Equal => {
            if a.timestamp > b.timestamp {
                KeyOrder::Less
            } else if a.timestamp < b.timestamp {
                KeyOrder::Greater
            } else {
                let ta = tag_of(a.value_type);
                let tb = tag_of(b.value_type);
                if ta < tb {
                    KeyOrder::Less
                } else if tb < ta {
                    KeyOrder::Greater
                } else {
                    KeyOrder::Equal
                }
            }
        },
    }
}

/// The encoded tag of a value kind.
pub fn tag_of(t: ValueType) -> (r: u8)
    ensures
        r == type_tag(t),
{
    match t {
        ValueType::Put => 0,
        ValueType::Delete => 1,
    }
}

/// The value kind a tag byte decodes to, if any.
pub fn type_of_tag(b: u8) -> (r: Option<ValueType>)
    ensures
        r == spec_type_of_tag(b),
{
    if b == 0 {
        Some(ValueType::Put)
    } else if b == 1 {
        Some(ValueType::Delete)
    } else {
        None
    }
}

pub open spec fn spec_type_of_tag(b: u8) -> Option<ValueType> {
    if b == 0 {
        Some(ValueType::Put)
    } else if b == 1 {
        Some(ValueType::Delete)
    } else {
        None
    }
}

/// A sequence of entries in strictly increasing key order.
pub open spec fn strictly_sorted(s: Seq<EntryView>) -> bool {
    forall|i: int, j: int| 0 <= i < j < s.len() ==> key_lt(#[trigger] s[i].key, #[trigger] s[j].key)
}

/// Strict order implies non-decreasing order.
pub proof fn lemma_strictly_sorted_le(s: Seq<EntryView>)
    requires
        strictly_sorted(s),
    ensures
        sorted_le(s),
{
    assert forall|i: int, j: int| 0 <= i < j < s.len() implies key_le(
        (#[trigger] s[i]).key,
        (#[trigger] s[j]).key,
    ) by {
        assert(key_lt(s[i].key, s[j].key));
    }
}

/// A sequence of entries in non-decreasing key order.
pub open spec fn sorted_le(s: Seq<EntryView>) -> bool {
    forall|i: int, j: int| 0 <= i < j < s.len() ==> key_le(#[trigger] s[i].key, #[trigger] s[j].key)
}

} // verus!
