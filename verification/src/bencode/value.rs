//! Bencode values and the dictionary that keeps its keys in order.

use vstd::prelude::*;
use crate::bytes::{bytes_eq, bytes_lt, lemma_lex_total, lemma_lex_transitive, lex_lt};

verus! {

/// `i`, which starts an integer.
pub const INTEGER_START: u8 = 105;

/// `l`, which starts a list.
pub const LIST_START: u8 = 108;

/// `d`, which starts a dictionary.
pub const DICT_START: u8 = 100;

/// `e`, which ends an integer, a list or a dictionary.
pub const END: u8 = 101;

/// `:`, which stands between the length of a byte string and its bytes.
pub const COLON: u8 = 58;

/// `-`, the sign of a negative integer.
pub const MINUS: u8 = 45;

/// `0`, the digit that no other digit may follow at the start of an
/// integer.
pub const ZERO: u8 = 48;

/// A bencode value as a mathematical object. A dictionary is the sequence
/// of its entries.
pub enum Bencode {
    Integer(int),
    ByteString(Seq<u8>),
    List(Seq<Bencode>),
    Dictionary(Seq<(Seq<u8>, Bencode)>),
}

/// Whether the keys of `entries` are strictly ascending, which also makes
/// them unique.
pub open spec fn keys_ascending(entries: Seq<(Seq<u8>, Bencode)>) -> bool {
    forall|i: int, j: int|
        0 <= i < j < entries.len() ==> lex_lt(#[trigger] entries[i].0, #[trigger] entries[j].0)
}

/// The value of the first entry of `entries` at or after `from` whose key
/// is `key`.
pub open spec fn dict_get_from(entries: Seq<(Seq<u8>, Bencode)>, key: Seq<u8>, from: int) -> Option<
    Bencode,
>
    decreases entries.len() - from,
{
    if from < 0 || from >= entries.len() {
        None
    } else if entries[from].0 == key {
        Some(entries[from].1)
    } else {
        dict_get_from(entries, key, from + 1)
    }
}

/// The value that `entries` holds under `key`.
pub open spec fn dict_get(entries: Seq<(Seq<u8>, Bencode)>, key: Seq<u8>) -> Option<Bencode> {
    dict_get_from(entries, key, 0)
}

/// `entries` with `value` stored under `key`: in place of the entry with
/// that key if there is one, else at the place that keeps the keys
/// ascending.
pub open spec fn dict_insert(entries: Seq<(Seq<u8>, Bencode)>, key: Seq<u8>, value: Bencode) -> Seq<
    (Seq<u8>, Bencode),
>
    decreases entries.len(),
{
    if entries.len() == 0 {
        seq![(key, value)]
    } else if lex_lt(key, entries.last().0) {
        dict_insert(entries.drop_last(), key, value).push(entries.last())
    } else if entries.last().0 == key {
        entries.drop_last().push((key, value))
    } else {
        entries.push((key, value))
    }
}

/// What holds of every entry and of the new one holds of every entry
/// after the new one is stored.
pub proof fn lemma_dict_insert_all(
    entries: Seq<(Seq<u8>, Bencode)>,
    key: Seq<u8>,
    value: Bencode,
    holds: spec_fn((Seq<u8>, Bencode)) -> bool,
)
    requires
        forall|k: int| 0 <= k < entries.len() ==> holds(#[trigger] entries[k]),
        holds((key, value)),
    ensures
        forall|k: int|
            0 <= k < dict_insert(entries, key, value).len() ==> holds(
                #[trigger] dict_insert(entries, key, value)[k],
            ),
    decreases entries.len(),
{
    let r = dict_insert(entries, key, value);
    if entries.len() == 0 {
    } else if lex_lt(key, entries.last().0) {
        let head = entries.drop_last();
        assert forall|k: int| 0 <= k < head.len() implies holds(#[trigger] head[k]) by {
            assert(head[k] == entries[k]);
        }
        lemma_dict_insert_all(head, key, value, holds);
        let inner = dict_insert(head, key, value);
        assert(r == inner.push(entries.last()));
        assert forall|k: int| 0 <= k < r.len() implies holds(#[trigger] r[k]) by {
            if k < inner.len() {
                assert(r[k] == inner[k]);
            } else {
                assert(r[k] == entries[entries.len() - 1]);
            }
        }
    } else {
        assert forall|k: int| 0 <= k < r.len() implies holds(#[trigger] r[k]) by {
            if k < r.len() - 1 {
                assert(r[k] == entries[k]);
            }
        }
    }
}

/// Storing a well-formed value into entries whose values are well-formed
/// leaves every value well-formed.
pub proof fn lemma_dict_insert_wf(entries: Seq<(Seq<u8>, Bencode)>, key: Seq<u8>, value: Bencode)
    requires
        forall|k: int| 0 <= k < entries.len() ==> (#[trigger] entries[k]).1.wf(),
        value.wf(),
    ensures
        forall|k: int|
            0 <= k < dict_insert(entries, key, value).len() ==> (#[trigger] dict_insert(
                entries,
                key,
                value,
            )[k]).1.wf(),
{
    lemma_dict_insert_all(entries, key, value, |e: (Seq<u8>, Bencode)| e.1.wf());
}

/// Storing a value under a key keeps ascending keys ascending.
pub proof fn lemma_dict_insert_ascending(
    entries: Seq<(Seq<u8>, Bencode)>,
    key: Seq<u8>,
    value: Bencode,
)
    requires
        keys_ascending(entries),
    ensures
        keys_ascending(dict_insert(entries, key, value)),
    decreases entries.len(),
{
    let r = dict_insert(entries, key, value);
    if entries.len() == 0 {
    } else {
        let head = entries.drop_last();
        let last = entries.last();
        assert forall|i: int, j: int| 0 <= i < j < head.len() implies lex_lt(
            #[trigger] head[i].0,
            #[trigger] head[j].0,
        ) by {
            assert(head[i] == entries[i]);
            assert(head[j] == entries[j]);
        }
        assert forall|k: int| 0 <= k < head.len() implies lex_lt(
            (#[trigger] head[k]).0,
            last.0,
        ) by {
            assert(head[k] == entries[k]);
            assert(last == entries[entries.len() - 1]);
        }
        if lex_lt(key, last.0) {
            lemma_dict_insert_ascending(head, key, value);
            lemma_dict_insert_all(
                head,
                key,
                value,
                |e: (Seq<u8>, Bencode)| lex_lt(e.0, last.0),
            );
            let inner = dict_insert(head, key, value);
            assert(r == inner.push(last));
            assert forall|i: int, j: int| 0 <= i < j < r.len() implies lex_lt(
                #[trigger] r[i].0,
                #[trigger] r[j].0,
            ) by {
                assert(r[i] == inner[i]);
                if j < inner.len() {
                    assert(r[j] == inner[j]);
                } else {
                    assert(r[j] == last);
                }
            }
        } else if last.0 == key {
            assert(r == head.push((key, value)));
            assert forall|i: int, j: int| 0 <= i < j < r.len() implies lex_lt(
                #[trigger] r[i].0,
                #[trigger] r[j].0,
            ) by {
                assert(r[i] == head[i]);
                if j < head.len() {
                    assert(r[j] == head[j]);
                }
            }
        } else {
            lemma_lex_total(key, last.0);
            assert(r == entries.push((key, value)));
            assert forall|i: int, j: int| 0 <= i < j < r.len() implies lex_lt(
                #[trigger] r[i].0,
                #[trigger] r[j].0,
            ) by {
                assert(r[i] == entries[i]);
                if j < entries.len() {
                    assert(r[j] == entries[j]);
                } else if i < head.len() {
                    assert(lex_lt(head[i].0, last.0));
                    lemma_lex_transitive(entries[i].0, last.0, key);
                }
            }
        }
    }
}

impl Bencode {
    /// Well-formedness: integers fit in 64 bits and every dictionary, at
    /// any depth, has strictly ascending keys.
    pub open spec fn wf(self) -> bool
        decreases self,
    {
        match self {
            Bencode::Integer(i) => i64::MIN <= i <= i64::MAX,
            Bencode::ByteString(_) => true,
            Bencode::List(items) => forall|k: int|
                0 <= k < items.len() ==> (#[trigger] items[k]).wf(),
            Bencode::Dictionary(entries) => keys_ascending(entries) && forall|k: int|
                0 <= k < entries.len() ==> (#[trigger] entries[k]).1.wf(),
        }
    }

    /// Whether lists and dictionaries nest at most `limit` deep.
    pub open spec fn within_depth(self, limit: nat) -> bool
        decreases self,
    {
        match self {
            Bencode::Integer(_) => true,
            Bencode::ByteString(_) => true,
            Bencode::List(items) => limit > 0 && forall|k: int|
                0 <= k < items.len() ==> (#[trigger] items[k]).within_depth((limit - 1) as nat),
            Bencode::Dictionary(entries) => limit > 0 && forall|k: int|
                0 <= k < entries.len() ==> (#[trigger] entries[k]).1.within_depth(
                    (limit - 1) as nat,
                ),
        }
    }
}

/// A bencode value.
#[derive(Debug, PartialEq, Eq)]
pub enum BencodeValue {
    Integer(i64),
    ByteString(Vec<u8>),
    List(Vec<BencodeValue>),
    Dictionary(Dictionary),
}

/// A bencode dictionary. Its entries are kept in ascending key order
/// whatever the order of insertion, so that encoding it is canonical.
#[derive(Debug, PartialEq, Eq)]
pub struct Dictionary {
    entries: Vec<(Vec<u8>, BencodeValue)>,
}

impl View for BencodeValue {
    type V = Bencode;

    open spec fn view(&self) -> Bencode
        decreases self,
    {
        match self {
            BencodeValue::Integer(i) => Bencode::Integer(*i as int),
            BencodeValue::ByteString(b) => Bencode::ByteString(b@),
            BencodeValue::List(items) => Bencode::List(
                Seq::new(
                    items@.len(),
                    |i: int|
                        if 0 <= i < items@.len() {
                            items@[i].view()
                        } else {
                            Bencode::Integer(0)
                        },
                ),
            ),
            BencodeValue::Dictionary(d) => Bencode::Dictionary(d.view()),
        }
    }
}

impl View for Dictionary {
    type V = Seq<(Seq<u8>, Bencode)>;

    closed spec fn view(&self) -> Seq<(Seq<u8>, Bencode)>
        decreases self,
    {
        Seq::new(
            self.entries@.len(),
            |i: int|
                if 0 <= i < self.entries@.len() {
                    (self.entries@[i].0@, self.entries@[i].1.view())
                } else {
                    (Seq::empty(), Bencode::Integer(0))
                },
        )
    }
}

/// The views of a run of entries.
spec fn entry_views(entries: Seq<(Vec<u8>, BencodeValue)>) -> Seq<(Seq<u8>, Bencode)> {
    Seq::new(entries.len(), |i: int| (entries[i].0@, entries[i].1@))
}

impl Dictionary {
    #[verifier::type_invariant]
    spec fn ordered(self) -> bool {
        keys_ascending(self@)
    }

    /// The empty dictionary.
    pub fn new() -> (d: Dictionary)
        ensures
            d@ == Seq::<(Seq<u8>, Bencode)>::empty(),
    {
        let d = Dictionary { entries: Vec::new() };
        assert(d@ =~= Seq::<(Seq<u8>, Bencode)>::empty());
        d
    }

    /// The number of entries. The entries stand in ascending key order.
    pub fn len(&self) -> (n: usize)
        ensures
            n == self@.len(),
            keys_ascending(self@),
    {
        proof {
            use_type_invariant(self);
        }
        self.entries.len()
    }

    /// The entry at position `i` in key order, if there are that many:
    /// its key and its value.
    pub fn entry(&self, i: usize) -> (r: Option<(&Vec<u8>, &BencodeValue)>)
        ensures
            match r {
                Some((k, v)) => i < self@.len() && k@ == self@[i as int].0 && v@
                    == self@[i as int].1 && decreases_to!(self => v),
                None => i >= self@.len(),
            },
    {
        if i < self.entries.len() {
            Some((&self.entries[i].0, &self.entries[i].1))
        } else {
            None
        }
    }

    /// The key of the entry at position `i` in key order.
    pub(crate) fn key(&self, i: usize) -> (k: &Vec<u8>)
        requires
            i < self@.len(),
        ensures
            k@ == self@[i as int].0,
    {
        &self.entries[i].0
    }

    /// The value of the entry at position `i` in key order.
    pub(crate) fn value(&self, i: usize) -> (v: &BencodeValue)
        requires
            i < self@.len(),
        ensures
            v@ == self@[i as int].1,
            decreases_to!(self => v),
    {
        &self.entries[i].1
    }

    /// The value stored under `key`, if any.
    pub fn get(&self, key: &[u8]) -> (r: Option<&BencodeValue>)
        ensures
            match r {
                Some(v) => dict_get(self@, key@) == Some(v@) && decreases_to!(self => v),
                None => dict_get(self@, key@) is None,
            },
    {
        let mut i: usize = 0;
        while i < self.entries.len()
            invariant
                i <= self.entries.len(),
                dict_get(self@, key@) == dict_get_from(self@, key@, i as int),
            decreases self.entries.len() - i,
        {
            if bytes_eq(self.entries[i].0.as_slice(), key) {
                return Some(&self.entries[i].1);
            }
            i += 1;
        }
        None
    }

    /// Stores `value` under `key`, replacing what was stored there. The
    /// entries stay in ascending key order.
    pub fn insert(&mut self, key: Vec<u8>, value: BencodeValue)
        ensures
            final(self)@ == dict_insert(old(self)@, key@, value@),
            keys_ascending(old(self)@),
            keys_ascending(final(self)@),
    {
        proof {
            use_type_invariant(&*self);
        }
        let ghost before = self@;
        let ghost k = key@;
        let ghost v = value@;
        let mut entries: Vec<(Vec<u8>, BencodeValue)> = Vec::new();
        core::mem::swap(&mut self.entries, &mut entries);
        assert(entry_views(entries@) =~= before);
        let mut i: usize = entries.len();
        proof {
            lemma_insert_split(before, i as int, k, v);
        }
        while i > 0 && bytes_lt(key.as_slice(), entries[i - 1].0.as_slice())
            invariant
                i <= entries.len(),
                entry_views(entries@) == before,
                key@ == k,
                dict_insert(before, k, v) == dict_insert(before.subrange(0, i as int), k, v)
                    + before.subrange(i as int, before.len() as int),
                forall|j: int| i <= j < before.len() ==> lex_lt(k, #[trigger] before[j].0),
            decreases i,
        {
            proof {
                lemma_insert_split(before, i - 1, k, v);
            }
            i -= 1;
        }
        if i > 0 && bytes_eq(entries[i - 1].0.as_slice(), key.as_slice()) {
            entries.set(i - 1, (key, value));
            proof {
                assert(entry_views(entries@) =~= before.update(i - 1, (k, v)));
            }
        } else {
            entries.insert(i, (key, value));
            proof {
                assert(entry_views(entries@) =~= before.subrange(0, i as int).push((k, v))
                    + before.subrange(i as int, before.len() as int));
            }
        }
        proof {
            lemma_insert_at(before, i as int, k, v);
            let after = Dictionary { entries };
            assert(after@ =~= entry_views(entries@));
        }
        self.entries = entries;
    }
}

/// When `key` sorts before every key from index `i` on, storing it in
/// `entries` stores it in the first `i` entries and leaves the others
/// behind them.
proof fn lemma_insert_split(entries: Seq<(Seq<u8>, Bencode)>, i: int, key: Seq<u8>, value: Bencode)
    requires
        0 <= i <= entries.len(),
        forall|j: int| i <= j < entries.len() ==> lex_lt(key, #[trigger] entries[j].0),
    ensures
        dict_insert(entries, key, value) == dict_insert(entries.subrange(0, i), key, value)
            + entries.subrange(i, entries.len() as int),
    decreases entries.len() - i,
{
    if i == entries.len() {
        assert(entries.subrange(0, i) == entries);
        assert(dict_insert(entries, key, value) + entries.subrange(i, entries.len() as int)
            =~= dict_insert(entries, key, value));
    } else {
        let head = entries.drop_last();
        assert(lex_lt(key, entries[entries.len() - 1].0));
        assert forall|j: int| i <= j < head.len() implies lex_lt(key, #[trigger] head[j].0) by {
            assert(head[j] == entries[j]);
        }
        lemma_insert_split(head, i, key, value);
        assert(head.subrange(0, i) == entries.subrange(0, i));
        assert(dict_insert(entries.subrange(0, i), key, value) + head.subrange(
            i,
            head.len() as int,
        ).push(entries.last()) =~= dict_insert(entries.subrange(0, i), key, value)
            + entries.subrange(i, entries.len() as int));
        assert((dict_insert(entries.subrange(0, i), key, value) + head.subrange(
            i,
            head.len() as int,
        )).push(entries.last()) =~= dict_insert(entries.subrange(0, i), key, value)
            + head.subrange(i, head.len() as int).push(entries.last()));
    }
}

/// Where `key` goes in ascending entries: `i` is the first index whose
/// key sorts after `key`. The entry before it is replaced if it has that
/// key; else the new entry stands between the two. Either way the keys
/// stay ascending.
proof fn lemma_insert_at(entries: Seq<(Seq<u8>, Bencode)>, i: int, key: Seq<u8>, value: Bencode)
    requires
        keys_ascending(entries),
        0 <= i <= entries.len(),
        forall|j: int| i <= j < entries.len() ==> lex_lt(key, #[trigger] entries[j].0),
        i > 0 ==> !lex_lt(key, entries[i - 1].0),
        dict_insert(entries, key, value) == dict_insert(entries.subrange(0, i), key, value)
            + entries.subrange(i, entries.len() as int),
    ensures
        keys_ascending(dict_insert(entries, key, value)),
        i > 0 && entries[i - 1].0 == key ==> dict_insert(entries, key, value) == entries.update(
            i - 1,
            (key, value),
        ),
        !(i > 0 && entries[i - 1].0 == key) ==> dict_insert(entries, key, value)
            == entries.subrange(0, i).push((key, value)) + entries.subrange(
            i,
            entries.len() as int,
        ),
{
    let head = entries.subrange(0, i);
    let tail = entries.subrange(i, entries.len() as int);
    let r = dict_insert(entries, key, value);
    if i > 0 {
        assert(head.last() == entries[i - 1]);
        lemma_lex_total(key, entries[i - 1].0);
    }
    if i > 0 && entries[i - 1].0 == key {
        assert(dict_insert(head, key, value) == head.drop_last().push((key, value)));
        assert(r =~= entries.update(i - 1, (key, value)));
        assert forall|a: int, b: int| 0 <= a < b < r.len() implies lex_lt(
            #[trigger] r[a].0,
            #[trigger] r[b].0,
        ) by {
            assert(r[a].0 == entries[a].0);
            assert(r[b].0 == entries[b].0);
        }
    } else {
        assert(dict_insert(head, key, value) == head.push((key, value)));
        assert(r =~= head.push((key, value)) + tail);
        assert forall|a: int, b: int| 0 <= a < b < r.len() implies lex_lt(
            #[trigger] r[a].0,
            #[trigger] r[b].0,
        ) by {
            if b < i {
                assert(r[a] == entries[a]);
                assert(r[b] == entries[b]);
            } else if b == i {
                assert(r[a] == entries[a]);
                assert(r[b].0 == key);
                assert(lex_lt(entries[i - 1].0, key));
                if a < i - 1 {
                    assert(lex_lt(entries[a].0, entries[i - 1].0));
                    lemma_lex_transitive(entries[a].0, entries[i - 1].0, key);
                }
            } else if a == i {
                assert(r[a].0 == key);
                assert(r[b] == entries[b - 1]);
            } else if a < i {
                assert(r[a] == entries[a]);
                assert(r[b] == entries[b - 1]);
                assert(lex_lt(entries[a].0, entries[b - 1].0));
            } else {
                assert(r[a] == entries[a - 1]);
                assert(r[b] == entries[b - 1]);
            }
        }
    }
}

} // verus!
