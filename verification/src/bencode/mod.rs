//! Bencode values, the data model of the BitTorrent protocol: integers, byte
//! strings, lists and dictionaries keyed by byte strings.

pub mod decoder;

use crate::text::{push_decimal, push_str, spec_decimal, string_from_chars, utf8_str};
use vstd::prelude::*;
use vstd::string::StringSliceAdditionalSpecFns;
use vstd::utf8::{decode_utf8, valid_utf8};

verus! {

/// The mathematical meaning of a bencode value.
pub enum ValueModel {
    Int(i64),
    Bytes(Seq<u8>),
    List(Seq<ValueModel>),
    Dict(Map<Seq<u8>, ValueModel>),
}

/// A bencode value.
#[derive(Debug, PartialEq, Eq)]
pub enum Value {
    /// An integer, e.g. `i42e`.
    Integer(i64),
    /// A byte string, e.g. `4:spam`.
    Bytes(Vec<u8>),
    /// An ordered list of values, e.g. `l4:spam4:eggse`.
    List(Vec<Value>),
    /// A dictionary ordered by its keys, e.g. `d3:cow3:moo4:spam4:eggse`.
    Dict(Dictionary),
}

/// A dictionary of bencode values keyed by byte strings, kept in increasing
/// key order with no key twice. The entries are a sorted vector: vstd states
/// what `BTreeMap` does only for keys whose ordering it models (integers and
/// tuples of them); with `Vec<u8>` keys not even the size after one insert
/// can be proved.
#[derive(Debug, PartialEq, Eq)]
pub struct Dictionary {
    entries: Vec<(Vec<u8>, Value)>,
}

/// Lexicographic order on byte strings (a proper prefix comes first).
pub open spec fn bytes_lt(a: Seq<u8>, b: Seq<u8>) -> bool
    decreases a.len(),
{
    if a.len() == 0 {
        b.len() > 0
    } else if b.len() == 0 {
        false
    } else if a[0] < b[0] {
        true
    } else if a[0] > b[0] {
        false
    } else {
        bytes_lt(a.drop_first(), b.drop_first())
    }
}

impl ValueModel {
    pub open spec fn int_of(self) -> Option<i64> {
        match self {
            ValueModel::Int(n) => Some(n),
            _ => None,
        }
    }

    pub open spec fn bytes_of(self) -> Option<Seq<u8>> {
        match self {
            ValueModel::Bytes(b) => Some(b),
            _ => None,
        }
    }

    pub open spec fn list_of(self) -> Option<Seq<ValueModel>> {
        match self {
            ValueModel::List(l) => Some(l),
            _ => None,
        }
    }

    pub open spec fn dict_of(self) -> Option<Map<Seq<u8>, ValueModel>> {
        match self {
            ValueModel::Dict(m) => Some(m),
            _ => None,
        }
    }

    /// The text of a byte string that is valid UTF-8.
    pub open spec fn str_of(self) -> Option<Seq<char>> {
        match self {
            ValueModel::Bytes(b) => if valid_utf8(b) {
                Some(decode_utf8(b))
            } else {
                None
            },
            _ => None,
        }
    }

    /// The value of a key in a dictionary.
    pub open spec fn lookup(self, key: Seq<u8>) -> Option<ValueModel> {
        match self {
            ValueModel::Dict(m) => if m.contains_key(key) {
                Some(m[key])
            } else {
                None
            },
            _ => None,
        }
    }
}

impl Value {
    /// The integer, if this value is one.
    pub fn as_integer(&self) -> (r: Option<i64>)
        ensures
            r == self.model().int_of(),
    {
        match self {
            Value::Integer(n) => Some(*n),
            _ => None,
        }
    }

    /// The bytes, if this value is a byte string.
    pub fn as_bytes(&self) -> (r: Option<&[u8]>)
        ensures
            match r {
                Some(b) => self.model().bytes_of() == Some(b@),
                None => self.model().bytes_of() is None,
            },
    {
        match self {
            Value::Bytes(b) => Some(b.as_slice()),
            _ => None,
        }
    }

    /// The text, if this value is a byte string in valid UTF-8.
    pub fn as_str(&self) -> (r: Option<&str>)
        ensures
            match r {
                Some(s) => self.model().str_of() == Some(s@),
                None => self.model().str_of() is None,
            },
    {
        match self.as_bytes() {
            Some(b) => utf8_str(b),
            None => None,
        }
    }

    /// The items, if this value is a list.
    pub fn as_list(&self) -> (r: Option<&[Value]>)
        ensures
            r is Some <==> self is List,
            r matches Some(l) ==> l@ == self->List_0@ && self.model().list_of() == Some(
                list_model(l@),
            ),
    {
        match self {
            Value::List(l) => Some(l.as_slice()),
            _ => None,
        }
    }

    /// The dictionary, if this value is one.
    pub fn as_dict(&self) -> (r: Option<&Dictionary>)
        ensures
            r is Some <==> self is Dict,
            r matches Some(d) ==> *d == self->Dict_0 && self.model().dict_of() == Some(
                d.model_map(),
            ),
    {
        match self {
            Value::Dict(d) => Some(d),
            _ => None,
        }
    }

    /// The value of a key, if this value is a dictionary that holds it.
    pub fn get(&self, key: &[u8]) -> (r: Option<&Value>)
        ensures
            match r {
                Some(v) => self.model().lookup(key@) == Some(v.model()),
                None => self.model().lookup(key@) is None,
            },
    {
        match self.as_dict() {
            Some(d) => d.get(key),
            None => None,
        }
    }

    /// The value of a key given as text (looked up by its UTF-8 bytes).
    pub fn get_str(&self, key: &str) -> (r: Option<&Value>)
        ensures
            match r {
                Some(v) => self.model().lookup(key.spec_bytes()) == Some(v.model()),
                None => self.model().lookup(key.spec_bytes()) is None,
            },
    {
        self.get(key.as_bytes())
    }

    pub open spec fn model(self) -> ValueModel
        decreases self,
    {
        match self {
            Value::Integer(n) => ValueModel::Int(n),
            Value::Bytes(b) => ValueModel::Bytes(b@),
            Value::List(l) => ValueModel::List(list_model(l@)),
            Value::Dict(d) => ValueModel::Dict(d.model_map()),
        }
    }
}

pub open spec fn list_model(s: Seq<Value>) -> Seq<ValueModel>
    decreases s,
{
    if s.len() == 0 {
        Seq::empty()
    } else {
        list_model(s.drop_last()).push(s.last().model())
    }
}

pub open spec fn entries_model(s: Seq<(Vec<u8>, Value)>) -> Map<Seq<u8>, ValueModel>
    decreases s,
{
    if s.len() == 0 {
        Map::empty()
    } else {
        entries_model(s.drop_last()).insert(s.last().0@, s.last().1.model())
    }
}

impl Dictionary {
    /// The finite map that this dictionary holds.
    pub closed spec fn model_map(self) -> Map<Seq<u8>, ValueModel>
        decreases self,
    {
        entries_model(self.entries@)
    }

    /// The entries in the order they are kept.
    pub closed spec fn entry_seq(self) -> Seq<(Vec<u8>, Value)> {
        self.entries@
    }

    #[verifier::type_invariant]
    spec fn keys_in_order(self) -> bool {
        keys_sorted(self.entries@)
    }

    /// An empty dictionary.
    pub fn new() -> (d: Self)
        ensures
            d.model_map() == Map::<Seq<u8>, ValueModel>::empty(),
    {
        Dictionary { entries: Vec::new() }
    }

    /// The entries in increasing key order.
    pub fn entries(&self) -> (r: &[(Vec<u8>, Value)])
        ensures
            r@ == self.entry_seq(),
            keys_sorted(r@),
            entries_model(r@) == self.model_map(),
    {
        proof {
            use_type_invariant(self);
        }
        self.entries.as_slice()
    }

    /// The number of keys.
    pub fn len(&self) -> (n: usize)
        ensures
            n == self.model_map().len(),
    {
        proof {
            use_type_invariant(self);
            lemma_entries_model(self.entries@);
        }
        self.entries.len()
    }

    /// Insert a key and its value, replacing the value the key had.
    pub fn insert(&mut self, key: Vec<u8>, value: Value)
        ensures
            final(self).model_map() == old(self).model_map().insert(key@, value.model()),
    {
        proof {
            use_type_invariant(&*self);
        }
        let mut entries: Vec<(Vec<u8>, Value)> = Vec::new();
        std::mem::swap(&mut entries, &mut self.entries);
        let ghost s = entries@;
        let i = lower_bound(&entries, key.as_slice());
        if i < entries.len() && compare_bytes(entries[i].0.as_slice(), key.as_slice()).is_equal() {
            let ghost k = key@;
            let ghost m = value.model();
            entries.set(i, (key, value));
            proof {
                lemma_sorted_update(s, i as int, entries@[i as int]);
                lemma_entries_model(s);
                lemma_entries_model(entries@);
                assert forall|j: int| 0 <= j < s.len() && j != i implies s[j].0@ != k by {
                    lemma_bytes_lt_irreflexive(k);
                }
                assert(entries_model(entries@) =~= entries_model(s).insert(k, m)) by {
                    assert forall|x: Seq<u8>| #[trigger] entries_model(entries@).contains_key(x)
                        <==> entries_model(s).insert(k, m).contains_key(x) by {
                        if entries_model(s).contains_key(x) {
                            let j = choose|j: int| 0 <= j < s.len() && s[j].0@ == x;
                            assert(entries@[j].0@ == x);
                        }
                        if entries_model(entries@).contains_key(x) {
                            let j = choose|j: int| 0 <= j < entries@.len() && entries@[j].0@ == x;
                            if j != i {
                                assert(s[j].0@ == x);
                            }
                        }
                    }
                    assert forall|x: Seq<u8>| #[trigger] entries_model(entries@).contains_key(x)
                        implies entries_model(entries@)[x] == entries_model(s).insert(k, m)[x] by {
                        let j = choose|j: int| 0 <= j < entries@.len() && entries@[j].0@ == x;
                        if j != i {
                            assert(s[j].0@ == x);
                        }
                    }
                }
            }
        } else {
            let ghost k = key@;
            let ghost m = value.model();
            entries.insert(i, (key, value));
            proof {
                if i < s.len() {
                    lemma_bytes_lt_total(s[i as int].0@, k);
                }
                lemma_sorted_insert(s, i as int, entries@[i as int]);
                lemma_entries_model(s);
                lemma_entries_model(entries@);
                assert(!entries_model(s).contains_key(k)) by {
                    if entries_model(s).contains_key(k) {
                        let j = choose|j: int| 0 <= j < s.len() && s[j].0@ == k;
                        if j < i {
                            lemma_bytes_lt_irreflexive(k);
                        } else {
                            assert(entries@[j + 1] == s[j]);
                            assert(bytes_lt(entries@[i as int].0@, entries@[j + 1].0@));
                            lemma_bytes_lt_irreflexive(k);
                        }
                    }
                }
                assert(entries_model(entries@) =~= entries_model(s).insert(k, m)) by {
                    assert forall|x: Seq<u8>| #[trigger] entries_model(entries@).contains_key(x)
                        <==> entries_model(s).insert(k, m).contains_key(x) by {
                        if entries_model(s).contains_key(x) {
                            let j = choose|j: int| 0 <= j < s.len() && s[j].0@ == x;
                            if j < i {
                                assert(entries@[j].0@ == x);
                            } else {
                                assert(entries@[j + 1].0@ == x);
                            }
                        }
                        if entries_model(entries@).contains_key(x) {
                            let j = choose|j: int| 0 <= j < entries@.len() && entries@[j].0@ == x;
                            if j < i {
                                assert(s[j].0@ == x);
                            } else if j > i {
                                assert(s[j - 1].0@ == x);
                            }
                        }
                    }
                    assert forall|x: Seq<u8>| #[trigger] entries_model(entries@).contains_key(x)
                        implies entries_model(entries@)[x] == entries_model(s).insert(k, m)[x] by {
                        let j = choose|j: int| 0 <= j < entries@.len() && entries@[j].0@ == x;
                        if j < i {
                            assert(s[j].0@ == x);
                        } else if j > i {
                            assert(s[j - 1].0@ == x);
                        }
                    }
                }
            }
        }
        self.entries = entries;
    }

    /// The value of a key, if the dictionary holds it.
    pub fn get(&self, key: &[u8]) -> (r: Option<&Value>)
        ensures
            match r {
                Some(v) => self.model_map().contains_key(key@) && v.model()
                    == self.model_map()[key@],
                None => !self.model_map().contains_key(key@),
            },
    {
        proof {
            use_type_invariant(self);
            lemma_entries_model(self.entries@);
        }
        let mut i: usize = 0;
        while i < self.entries.len()
            invariant
                keys_sorted(self.entries@),
                i <= self.entries@.len(),
                forall|j: int| 0 <= j < i ==> self.entries@[j].0@ != key@,
            decreases self.entries@.len() - i,
        {
            if compare_bytes(self.entries[i].0.as_slice(), key).is_equal() {
                proof {
                    lemma_entries_model(self.entries@);
                    assert(self.entries@[i as int].0@ == key@);
                }
                return Some(&self.entries[i].1);
            }
            i += 1;
        }
        None
    }
}

/// The result of comparing two byte strings.
pub enum KeyOrder {
    Less,
    Equal,
    Greater,
}

impl KeyOrder {
    pub fn is_equal(&self) -> (b: bool)
        ensures
            b == (*self is Equal),
    {
        match self {
            KeyOrder::Equal => true,
            _ => false,
        }
    }

    pub fn is_less(&self) -> (b: bool)
        ensures
            b == (*self is Less),
    {
        match self {
            KeyOrder::Less => true,
            _ => false,
        }
    }
}

/// Compare two byte strings in lexicographic order.
pub fn compare_bytes(a: &[u8], b: &[u8]) -> (r: KeyOrder)
    ensures
        r is Less <==> bytes_lt(a@, b@),
        r is Equal <==> a@ == b@,
        r is Greater <==> bytes_lt(b@, a@),
{
    let mut i: usize = 0;
    assert(a@.skip(0) =~= a@);
    assert(b@.skip(0) =~= b@);
    while i < a.len() && i < b.len()
        invariant
            i <= a@.len(),
            i <= b@.len(),
            a@.take(i as int) == b@.take(i as int),
            bytes_lt(a@, b@) == bytes_lt(a@.skip(i as int), b@.skip(i as int)),
            bytes_lt(b@, a@) == bytes_lt(b@.skip(i as int), a@.skip(i as int)),
        decreases a@.len() - i,
    {
        if a[i] < b[i] {
            return KeyOrder::Less;
        } else if a[i] > b[i] {
            return KeyOrder::Greater;
        }
        assert(a@.skip(i as int).drop_first() =~= a@.skip(i + 1));
        assert(b@.skip(i as int).drop_first() =~= b@.skip(i + 1));
        assert(a@.take(i + 1) =~= a@.take(i as int).push(a@[i as int]));
        assert(b@.take(i + 1) =~= b@.take(i as int).push(b@[i as int]));
        i += 1;
    }
    if i == a.len() && i == b.len() {
        assert(a@ =~= a@.take(i as int));
        assert(b@ =~= b@.take(i as int));
        proof {
            lemma_bytes_lt_irreflexive(a@);
        }
        KeyOrder::Equal
    } else if i == a.len() {
        assert(a@ =~= a@.take(i as int));
        assert(a@ != b@);
        KeyOrder::Less
    } else {
        assert(b@ =~= b@.take(i as int));
        assert(a@ != b@);
        KeyOrder::Greater
    }
}

/// The first position whose key is not below `key`.
fn lower_bound(entries: &Vec<(Vec<u8>, Value)>, key: &[u8]) -> (i: usize)
    requires
        keys_sorted(entries@),
    ensures
        i <= entries@.len(),
        forall|j: int| 0 <= j < i ==> bytes_lt(#[trigger] entries@[j].0@, key@),
        i < entries@.len() ==> !bytes_lt(entries@[i as int].0@, key@),
{
    let mut i: usize = 0;
    while i < entries.len()
        invariant
            i <= entries@.len(),
            forall|j: int| 0 <= j < i ==> bytes_lt(#[trigger] entries@[j].0@, key@),
        decreases entries@.len() - i,
    {
        if !compare_bytes(entries[i].0.as_slice(), key).is_less() {
            return i;
        }
        i += 1;
    }
    i
}

/// The keys strictly increase along the sequence.
pub open spec fn keys_sorted(s: Seq<(Vec<u8>, Value)>) -> bool {
    forall|i: int, j: int| 0 <= i < j < s.len() ==> bytes_lt(#[trigger] s[i].0@, #[trigger] s[j].0@)
}

pub proof fn lemma_bytes_lt_irreflexive(a: Seq<u8>)
    ensures
        !bytes_lt(a, a),
    decreases a.len(),
{
    if a.len() > 0 {
        lemma_bytes_lt_irreflexive(a.drop_first());
    }
}

pub proof fn lemma_bytes_lt_total(a: Seq<u8>, b: Seq<u8>)
    ensures
        a == b || bytes_lt(a, b) || bytes_lt(b, a),
        !(bytes_lt(a, b) && bytes_lt(b, a)),
    decreases a.len(),
{
    if a.len() > 0 && b.len() > 0 && a[0] == b[0] {
        lemma_bytes_lt_total(a.drop_first(), b.drop_first());
        if a.drop_first() == b.drop_first() {
            assert(a =~= seq![a[0]] + a.drop_first());
            assert(b =~= seq![b[0]] + b.drop_first());
        }
    } else if a.len() == 0 && b.len() == 0 {
        assert(a =~= b);
    }
}

pub proof fn lemma_bytes_lt_transitive(a: Seq<u8>, b: Seq<u8>, c: Seq<u8>)
    requires
        bytes_lt(a, b),
        bytes_lt(b, c),
    ensures
        bytes_lt(a, c),
    decreases a.len(),
{
    if a.len() > 0 && b.len() > 0 && c.len() > 0 && a[0] == b[0] && b[0] == c[0] {
        lemma_bytes_lt_transitive(a.drop_first(), b.drop_first(), c.drop_first());
    }
}

proof fn lemma_sorted_distinct(s: Seq<(Vec<u8>, Value)>)
    requires
        keys_sorted(s),
    ensures
        forall|i: int, j: int| 0 <= i < s.len() && 0 <= j < s.len() && i != j ==> #[trigger] s[i].0@
            != #[trigger] s[j].0@,
{
    assert forall|i: int, j: int| 0 <= i < s.len() && 0 <= j < s.len() && i != j implies #[trigger] s[i].0@
        != #[trigger] s[j].0@ by {
        if i < j {
            lemma_bytes_lt_total(s[i].0@, s[j].0@);
        } else {
            lemma_bytes_lt_total(s[j].0@, s[i].0@);
        }
    }
}

/// What the model of a dictionary holds, entry by entry.
pub proof fn lemma_entries_model(s: Seq<(Vec<u8>, Value)>)
    requires
        keys_sorted(s),
    ensures
        forall|k: Seq<u8>| #[trigger] entries_model(s).contains_key(k) <==> exists|i: int|
            0 <= i < s.len() && (#[trigger] s[i]).0@ == k,
        forall|i: int| 0 <= i < s.len() ==> entries_model(s)[(#[trigger] s[i]).0@] == s[i].1.model(),
        entries_model(s).dom().finite(),
        entries_model(s).len() == s.len(),
    decreases s.len(),
{
    lemma_sorted_distinct(s);
    if s.len() > 0 {
        let t = s.drop_last();
        assert(keys_sorted(t)) by {
            assert forall|i: int, j: int| 0 <= i < j < t.len() implies bytes_lt(#[trigger] t[i].0@, #[trigger] t[j].0@) by {
                assert(t[i] == s[i] && t[j] == s[j]);
            }
        }
        lemma_entries_model(t);
        let last = s.last();
        assert(!entries_model(t).contains_key(last.0@)) by {
            if entries_model(t).contains_key(last.0@) {
                let i = choose|i: int| 0 <= i < t.len() && (#[trigger] t[i]).0@ == last.0@;
                assert(s[i] == t[i]);
                assert(s[s.len() - 1] == last);
            }
        }
        assert forall|k: Seq<u8>| #[trigger] entries_model(s).contains_key(k) <==> exists|i: int|
            0 <= i < s.len() && (#[trigger] s[i]).0@ == k by {
            if entries_model(s).contains_key(k) {
                if k == last.0@ {
                    assert(s[s.len() - 1].0@ == k);
                } else {
                    let i = choose|i: int| 0 <= i < t.len() && (#[trigger] t[i]).0@ == k;
                    assert(s[i] == t[i]);
                }
            }
            if exists|i: int| 0 <= i < s.len() && (#[trigger] s[i]).0@ == k {
                let i = choose|i: int| 0 <= i < s.len() && (#[trigger] s[i]).0@ == k;
                if i < s.len() - 1 {
                    assert(t[i] == s[i]);
                }
            }
        }
        assert forall|i: int| 0 <= i < s.len() implies entries_model(s)[(#[trigger] s[i]).0@] == s[i].1.model() by {
            if i < s.len() - 1 {
                assert(t[i] == s[i]);
                assert(s[i].0@ != s[s.len() - 1].0@);
            }
        }
    }
}

proof fn lemma_sorted_update(s: Seq<(Vec<u8>, Value)>, i: int, e: (Vec<u8>, Value))
    requires
        keys_sorted(s),
        0 <= i < s.len(),
        e.0@ == s[i].0@,
    ensures
        keys_sorted(s.update(i, e)),
{
    let t = s.update(i, e);
    assert forall|a: int, b: int| 0 <= a < b < t.len() implies bytes_lt(#[trigger] t[a].0@, #[trigger] t[b].0@) by {
        assert(t[a].0@ == s[a].0@ && t[b].0@ == s[b].0@);
    }
}

proof fn lemma_sorted_insert(s: Seq<(Vec<u8>, Value)>, i: int, e: (Vec<u8>, Value))
    requires
        keys_sorted(s),
        0 <= i <= s.len(),
        forall|j: int| 0 <= j < i ==> bytes_lt(#[trigger] s[j].0@, e.0@),
        i < s.len() ==> bytes_lt(e.0@, s[i].0@),
    ensures
        keys_sorted(s.insert(i, e)),
{
    let t = s.insert(i, e);
    assert forall|a: int, b: int| 0 <= a < b < t.len() implies bytes_lt(#[trigger] t[a].0@, #[trigger] t[b].0@) by {
        if b < i {
            assert(t[a] == s[a] && t[b] == s[b]);
        } else if b == i {
            assert(t[a] == s[a]);
        } else if a < i {
            assert(t[a] == s[a] && t[b] == s[b - 1]);
            assert(bytes_lt(s[a].0@, e.0@));
            if b - 1 > i {
                lemma_bytes_lt_transitive(e.0@, s[i].0@, s[b - 1].0@);
            }
            lemma_bytes_lt_transitive(s[a].0@, e.0@, s[b - 1].0@);
        } else if a == i {
            assert(t[b] == s[b - 1]);
            if b - 1 > i {
                lemma_bytes_lt_transitive(e.0@, s[i].0@, s[b - 1].0@);
            }
        } else {
            assert(t[a] == s[a - 1] && t[b] == s[b - 1]);
        }
    }
}


/// An integer as `{}` writes it.
pub open spec fn spec_i64_text(n: i64) -> Seq<char> {
    if n < 0 {
        seq!['-'] + spec_decimal((-(n as int)) as nat)
    } else {
        spec_decimal(n as nat)
    }
}

/// A byte string as it is shown: its text in quotes when it is UTF-8,
/// otherwise its length.
pub open spec fn show_bytes(b: Seq<u8>) -> Seq<char> {
    if valid_utf8(b) {
        seq!['"'] + decode_utf8(b) + seq!['"']
    } else {
        seq!['<'] + spec_decimal(b.len()) + " bytes>"@
    }
}

impl Value {
    /// The human-readable text of a value: integers in decimal, byte
    /// strings by `show_bytes`, lists in brackets and dictionaries in
    /// braces, items separated by `, ` and dictionary entries in key order
    /// as `key: value`.
    pub open spec fn display(self) -> Seq<char>
        decreases self,
    {
        match self {
            Value::Integer(n) => spec_i64_text(n),
            Value::Bytes(b) => show_bytes(b@),
            Value::List(l) => seq!['['] + display_items(l@) + seq![']'],
            Value::Dict(d) => seq!['{'] + display_entries(d.entry_seq()) + seq!['}'],
        }
    }
}

pub open spec fn display_items(s: Seq<Value>) -> Seq<char>
    decreases s,
{
    if s.len() == 0 {
        Seq::empty()
    } else {
        display_items(s.drop_last()) + (if s.len() > 1 {
            ", "@
        } else {
            Seq::empty()
        }) + s.last().display()
    }
}

pub open spec fn display_entries(s: Seq<(Vec<u8>, Value)>) -> Seq<char>
    decreases s,
{
    if s.len() == 0 {
        Seq::empty()
    } else {
        display_entries(s.drop_last()) + (if s.len() > 1 {
            ", "@
        } else {
            Seq::empty()
        }) + show_bytes(s.last().0@) + ": "@ + s.last().1.display()
    }
}

fn push_i64(out: &mut Vec<char>, n: i64)
    ensures
        final(out)@ == old(out)@ + spec_i64_text(n),
{
    if n < 0 {
        out.push('-');
        let m: u64 = if n == i64::MIN {
            9223372036854775808
        } else {
            (-n) as u64
        };
        push_decimal(out, m);
        assert(final(out)@ =~= old(out)@ + spec_i64_text(n));
    } else {
        push_decimal(out, n as u64);
    }
}

fn push_bytes_shown(out: &mut Vec<char>, b: &[u8])
    ensures
        final(out)@ == old(out)@ + show_bytes(b@),
{
    let ghost start = out@;
    match utf8_str(b) {
        Some(s) => {
            out.push('"');
            push_str(out, s);
            out.push('"');
            assert(out@ =~= start + show_bytes(b@));
        },
        None => {
            out.push('<');
            push_decimal(out, b.len() as u64);
            push_str(out, " bytes>");
            assert(out@ =~= start + show_bytes(b@));
        },
    }
}

impl Value {
    fn push_display(&self, out: &mut Vec<char>)
        ensures
            final(out)@ == old(out)@ + self.display(),
        decreases self,
    {
        let ghost start = out@;
        match self {
            Value::Integer(n) => push_i64(out, *n),
            Value::Bytes(b) => push_bytes_shown(out, b.as_slice()),
            Value::List(l) => {
                out.push('[');
                let mut i: usize = 0;
                while i < l.len()
                    invariant
                        i <= l@.len(),
                        *self == Value::List(*l),
                        out@ == start + seq!['['] + display_items(l@.take(i as int)),
                    decreases l@.len() - i,
                {
                    assert(l@.take(i + 1).drop_last() =~= l@.take(i as int));
                    if i > 0 {
                        push_str(out, ", ");
                    }
                    proof {
                        assert(decreases_to!(*self => (*self)->List_0));
                        assert(decreases_to!(*l => l@));
                        assert(decreases_to!(l@ => l@[i as int]));
                    }
                    l[i].push_display(out);
                    assert(out@ =~= start + seq!['['] + display_items(l@.take(i + 1)));
                    i += 1;
                }
                out.push(']');
                assert(l@.take(i as int) =~= l@);
                assert(out@ =~= start + self.display());
            },
            Value::Dict(d) => {
                out.push('{');
                let mut i: usize = 0;
                while i < d.entries.len()
                    invariant
                        i <= d.entries@.len(),
                        *self == Value::Dict(*d),
                        out@ == start + seq!['{'] + display_entries(d.entries@.take(i as int)),
                    decreases d.entries@.len() - i,
                {
                    assert(d.entries@.take(i + 1).drop_last() =~= d.entries@.take(i as int));
                    if i > 0 {
                        push_str(out, ", ");
                    }
                    push_bytes_shown(out, d.entries[i].0.as_slice());
                    push_str(out, ": ");
                    proof {
                        assert(decreases_to!(*self => (*self)->Dict_0));
                        assert(decreases_to!(*d => d.entries));
                        assert(decreases_to!(d.entries => d.entries@));
                        assert(decreases_to!(d.entries@ => d.entries@[i as int]));
                        assert(decreases_to!(d.entries@[i as int] => d.entries@[i as int].1));
                    }
                    d.entries[i].1.push_display(out);
                    assert(out@ =~= start + seq!['{'] + display_entries(d.entries@.take(i + 1)));
                    i += 1;
                }
                out.push('}');
                assert(d.entries@.take(i as int) =~= d.entries@);
                assert(out@ =~= start + self.display());
            },
        }
    }

    /// The human-readable text of this value (see `display`).
    pub fn to_display_string(&self) -> (r: String)
        ensures
            r@ == self.display(),
    {
        let mut out: Vec<char> = Vec::new();
        self.push_display(&mut out);
        string_from_chars(out.as_slice())
    }
}

} // verus!
