//! The bencode value tree and its mathematical model.

use crate::bencode::order::{
    bytes_eq, bytes_lt, lemma_lex_asymmetric, lemma_lex_irreflexive, lemma_lex_total,
    lemma_lex_transitive, lex_lt,
};
use vstd::prelude::*;

verus! {

/// A bencode value as it is held in memory.
///
/// A dictionary is a vector of `(key, value)` entries. The codec keeps the
/// entries in strictly ascending key order, so that no key occurs twice: see
/// [`Tree::wf`]. [`dict_insert`] adds an entry and keeps that order.
#[derive(Debug)]
pub enum Bencode {
    Byte(Vec<u8>),
    Integer(i64),
    List(Vec<Bencode>),
    Dict(Vec<(Vec<u8>, Bencode)>),
}

/// The mathematical model of a bencode value.
#[verifier::ext_equal]
pub enum Tree {
    Bytes(Seq<u8>),
    Integer(i64),
    List(Seq<Tree>),
    Dict(Seq<(Seq<u8>, Tree)>),
}

/// The model of a vector of values.
pub open spec fn items_view(items: Seq<Bencode>) -> Seq<Tree> {
    Seq::new(items.len(), |i: int| items[i]@)
}

/// The model of a vector of dictionary entries.
pub open spec fn entries_view(entries: Seq<(Vec<u8>, Bencode)>) -> Seq<(Seq<u8>, Tree)> {
    Seq::new(entries.len(), |i: int| (entries[i].0@, entries[i].1@))
}

impl Bencode {
    /// The mathematical value that this tree stands for.
    pub open spec fn model(self) -> Tree
        decreases self,
    {
        match self {
            Bencode::Byte(b) => Tree::Bytes(b@),
            Bencode::Integer(i) => Tree::Integer(i),
            Bencode::List(items) => Tree::List(
                Seq::new(
                    items@.len(),
                    |i: int|
                        if 0 <= i < items@.len() {
                            items@[i].model()
                        } else {
                            Tree::Integer(0)
                        },
                ),
            ),
            Bencode::Dict(entries) => Tree::Dict(
                Seq::new(
                    entries@.len(),
                    |i: int|
                        if 0 <= i < entries@.len() {
                            (entries@[i].0@, entries@[i].1.model())
                        } else {
                            (Seq::empty(), Tree::Integer(0))
                        },
                ),
            ),
        }
    }
}

impl View for Bencode {
    type V = Tree;

    open spec fn view(&self) -> Tree {
        self.model()
    }
}

/// The model of a list is the list of its items' models.
pub proof fn lemma_list_view(items: Vec<Bencode>)
    ensures
        Bencode::List(items)@ == Tree::List(items_view(items@)),
{
    let v = Bencode::List(items)@;
    match v {
        Tree::List(x) => {
            assert(x.len() == items@.len());
            assert forall|i: int| 0 <= i < x.len() implies x[i] == items_view(items@)[i] by {}
            assert(x =~= items_view(items@));
        },
        _ => {
            assert(false);
        },
    }
}

/// The model of a dictionary is the sequence of its entries' models.
pub proof fn lemma_dict_view(entries: Vec<(Vec<u8>, Bencode)>)
    ensures
        Bencode::Dict(entries)@ == Tree::Dict(entries_view(entries@)),
{
    let v = Bencode::Dict(entries)@;
    match v {
        Tree::Dict(x) => {
            assert(x.len() == entries@.len());
            assert forall|i: int| 0 <= i < x.len() implies x[i] == entries_view(entries@)[i] by {}
            assert(x =~= entries_view(entries@));
        },
        _ => {
            assert(false);
        },
    }
}

/// The keys of the entries are in strictly ascending order of raw bytes.
pub open spec fn keys_ascending(entries: Seq<(Seq<u8>, Tree)>) -> bool {
    forall|i: int, j: int|
        0 <= i < j < entries.len() ==> lex_lt(#[trigger] entries[i].0, #[trigger] entries[j].0)
}

/// The entries with `(key, value)` added in key order; an entry that had the key
/// is replaced.
pub open spec fn insert_entry(entries: Seq<(Seq<u8>, Tree)>, key: Seq<u8>, value: Tree) -> Seq<
    (Seq<u8>, Tree),
>
    decreases entries.len(),
{
    if entries.len() == 0 {
        seq![(key, value)]
    } else if lex_lt(key, entries.last().0) {
        insert_entry(entries.drop_last(), key, value).push(entries.last())
    } else if entries.last().0 == key {
        entries.drop_last().push((key, value))
    } else {
        entries.push((key, value))
    }
}

/// The dictionary that results from adding the entries one after the other, so
/// that of two entries with one key the later one stays.
pub open spec fn sorted_entries(raw: Seq<(Seq<u8>, Tree)>) -> Seq<(Seq<u8>, Tree)>
    decreases raw.len(),
{
    if raw.len() == 0 {
        Seq::empty()
    } else {
        insert_entry(sorted_entries(raw.drop_last()), raw.last().0, raw.last().1)
    }
}

impl Tree {
    /// Well-formed: in every dictionary of the tree the keys are in strictly
    /// ascending order.
    pub open spec fn wf(self) -> bool
        decreases self,
    {
        match self {
            Tree::Bytes(_) => true,
            Tree::Integer(_) => true,
            Tree::List(items) => forall|i: int|
                #![trigger items[i]]
                0 <= i < items.len() ==> items[i].wf(),
            Tree::Dict(entries) => keys_ascending(entries) && forall|i: int|
                #![trigger entries[i]]
                0 <= i < entries.len() ==> entries[i].1.wf(),
        }
    }
}

/// Adding an entry keeps the keys ascending, and every key of the result is the
/// new key or one that was there.
pub proof fn lemma_insert_entry(entries: Seq<(Seq<u8>, Tree)>, key: Seq<u8>, value: Tree)
    requires
        keys_ascending(entries),
    ensures
        keys_ascending(insert_entry(entries, key, value)),
        forall|i: int|
            0 <= i < insert_entry(entries, key, value).len() ==> {
                let e = #[trigger] insert_entry(entries, key, value)[i];
                e == (key, value) || exists|j: int| 0 <= j < entries.len() && entries[j] == e
            },
        insert_entry(entries, key, value).len() >= 1,
        exists|i: int|
            0 <= i < insert_entry(entries, key, value).len() && insert_entry(entries, key, value)[i]
                == (key, value),
    decreases entries.len(),
{
    let r = insert_entry(entries, key, value);
    if entries.len() == 0 {
        assert(r[0] == (key, value));
    } else if lex_lt(key, entries.last().0) {
        let head = entries.drop_last();
        let last = entries.last();
        assert(keys_ascending(head)) by {
            assert forall|i: int, j: int| 0 <= i < j < head.len() implies lex_lt(
                #[trigger] head[i].0,
                #[trigger] head[j].0,
            ) by {
                assert(head[i] == entries[i] && head[j] == entries[j]);
            }
        }
        lemma_insert_entry(head, key, value);
        let h = insert_entry(head, key, value);
        assert(r == h.push(last));
        assert forall|i: int, j: int| 0 <= i < j < r.len() implies lex_lt(
            #[trigger] r[i].0,
            #[trigger] r[j].0,
        ) by {
            if j < h.len() {
                assert(r[i] == h[i] && r[j] == h[j]);
            } else {
                assert(r[j] == last);
                assert(r[i] == h[i]);
                if h[i] == (key, value) {
                } else {
                    let k = choose|k: int| 0 <= k < head.len() && head[k] == h[i];
                    assert(head[k] == entries[k]);
                    assert(lex_lt(entries[k].0, entries[entries.len() - 1].0));
                }
            }
        }
        assert forall|i: int| 0 <= i < r.len() implies {
            let e = #[trigger] r[i];
            e == (key, value) || exists|j: int| 0 <= j < entries.len() && entries[j] == e
        } by {
            if i < h.len() {
                assert(r[i] == h[i]);
                if h[i] != (key, value) {
                    let k = choose|k: int| 0 <= k < head.len() && head[k] == h[i];
                    assert(entries[k] == r[i]);
                }
            } else {
                assert(entries[entries.len() - 1] == r[i]);
            }
        }
        let w = choose|i: int| 0 <= i < h.len() && h[i] == (key, value);
        assert(r[w] == (key, value));
    } else if entries.last().0 == key {
        assert forall|i: int, j: int| 0 <= i < j < r.len() implies lex_lt(
            #[trigger] r[i].0,
            #[trigger] r[j].0,
        ) by {
            assert(r[i] == entries[i]);
            assert(r[j].0 == entries[j].0);
        }
        assert forall|i: int| 0 <= i < r.len() implies {
            let e = #[trigger] r[i];
            e == (key, value) || exists|j: int| 0 <= j < entries.len() && entries[j] == e
        } by {
            if i < r.len() - 1 {
                assert(entries[i] == r[i]);
            }
        }
        assert(r[r.len() - 1] == (key, value));
    } else {
        lemma_lex_total(key, entries.last().0);
        assert forall|i: int, j: int| 0 <= i < j < r.len() implies lex_lt(
            #[trigger] r[i].0,
            #[trigger] r[j].0,
        ) by {
            assert(r[i] == entries[i]);
            if j < entries.len() {
                assert(r[j] == entries[j]);
            } else {
                if i < entries.len() - 1 {
                    assert(lex_lt(entries[i].0, entries[entries.len() - 1].0));
                    lemma_lex_transitive(entries[i].0, entries.last().0, key);
                }
            }
        }
        assert forall|i: int| 0 <= i < r.len() implies {
            let e = #[trigger] r[i];
            e == (key, value) || exists|j: int| 0 <= j < entries.len() && entries[j] == e
        } by {
            if i < entries.len() {
                assert(entries[i] == r[i]);
            }
        }
        assert(r[r.len() - 1] == (key, value));
    }
}

/// Adding an entry whose key comes after every key that is there appends it.
pub proof fn lemma_insert_entry_appends(
    entries: Seq<(Seq<u8>, Tree)>,
    key: Seq<u8>,
    value: Tree,
)
    requires
        entries.len() == 0 || lex_lt(entries.last().0, key),
    ensures
        insert_entry(entries, key, value) == entries.push((key, value)),
{
    if entries.len() > 0 {
        lemma_lex_asymmetric(entries.last().0, key);
        lemma_lex_irreflexive(key);
    } else {
        assert(seq![(key, value)] =~= entries.push((key, value)));
    }
}

/// Entries that are in ascending key order already are kept as they are.
pub proof fn lemma_sorted_entries_of_ascending(raw: Seq<(Seq<u8>, Tree)>)
    requires
        keys_ascending(raw),
    ensures
        sorted_entries(raw) == raw,
    decreases raw.len(),
{
    if raw.len() > 0 {
        let head = raw.drop_last();
        assert(keys_ascending(head)) by {
            assert forall|i: int, j: int| 0 <= i < j < head.len() implies lex_lt(
                #[trigger] head[i].0,
                #[trigger] head[j].0,
            ) by {
                assert(head[i] == raw[i] && head[j] == raw[j]);
            }
        }
        lemma_sorted_entries_of_ascending(head);
        if head.len() > 0 {
            assert(head.last() == raw[raw.len() - 2]);
            assert(lex_lt(raw[raw.len() - 2].0, raw[raw.len() - 1].0));
        }
        lemma_insert_entry_appends(head, raw.last().0, raw.last().1);
        assert(head.push(raw.last()) =~= raw);
    } else {
        assert(sorted_entries(raw) =~= raw);
    }
}

/// What `sorted_entries` gives has its keys ascending.
pub proof fn lemma_sorted_entries_ascending(raw: Seq<(Seq<u8>, Tree)>)
    ensures
        keys_ascending(sorted_entries(raw)),
        forall|i: int|
            0 <= i < sorted_entries(raw).len() ==> exists|j: int|
                0 <= j < raw.len() && raw[j] == #[trigger] sorted_entries(raw)[i],
    decreases raw.len(),
{
    if raw.len() > 0 {
        let head = raw.drop_last();
        lemma_sorted_entries_ascending(head);
        let sh = sorted_entries(head);
        lemma_insert_entry(sh, raw.last().0, raw.last().1);
        let r = sorted_entries(raw);
        assert forall|i: int| 0 <= i < r.len() implies exists|j: int|
            0 <= j < raw.len() && raw[j] == #[trigger] r[i] by {
            if r[i] == (raw.last().0, raw.last().1) {
                assert(raw[raw.len() - 1] == r[i]);
            } else {
                let k = choose|k: int| 0 <= k < sh.len() && sh[k] == r[i];
                let j = choose|j: int| 0 <= j < head.len() && head[j] == sh[k];
                assert(raw[j] == r[i]);
            }
        }
    }
}

/// Where `insert_entry` puts an entry: behind the last entry whose key does not
/// come after the new key, in place of it where the keys are equal.
pub proof fn lemma_insert_entry_at(
    entries: Seq<(Seq<u8>, Tree)>,
    key: Seq<u8>,
    value: Tree,
    pos: int,
)
    requires
        0 <= pos <= entries.len(),
        forall|j: int| pos <= j < entries.len() ==> lex_lt(key, #[trigger] entries[j].0),
        pos == 0 || !lex_lt(key, entries[pos - 1].0),
    ensures
        insert_entry(entries, key, value) == if pos > 0 && entries[pos - 1].0 == key {
            entries.update(pos - 1, (key, value))
        } else {
            entries.insert(pos, (key, value))
        },
    decreases entries.len() - pos,
{
    if pos < entries.len() {
        let head = entries.drop_last();
        assert(lex_lt(key, entries[entries.len() - 1].0));
        assert forall|j: int| pos <= j < head.len() implies lex_lt(key, #[trigger] head[j].0) by {
            assert(head[j] == entries[j]);
        }
        if pos > 0 {
            assert(head[pos - 1] == entries[pos - 1]);
        }
        lemma_insert_entry_at(head, key, value, pos);
        if pos > 0 && entries[pos - 1].0 == key {
            assert(head.update(pos - 1, (key, value)).push(entries.last()) =~= entries.update(
                pos - 1,
                (key, value),
            ));
        } else {
            assert(head.insert(pos, (key, value)).push(entries.last()) =~= entries.insert(
                pos,
                (key, value),
            ));
        }
    } else if entries.len() == 0 {
        assert(seq![(key, value)] =~= entries.insert(0, (key, value)));
    } else if entries.last().0 == key {
        assert(entries.drop_last().push((key, value)) =~= entries.update(pos - 1, (key, value)));
    } else {
        assert(entries.push((key, value)) =~= entries.insert(pos, (key, value)));
    }
}

/// Adds an entry to a dictionary in key order. An entry that had the key is
/// replaced.
pub fn dict_insert(entries: &mut Vec<(Vec<u8>, Bencode)>, key: Vec<u8>, value: Bencode)
    ensures
        entries_view(final(entries)@) == insert_entry(entries_view(old(entries)@), key@, value@),
{
    let ghost before = entries_view(entries@);
    let mut pos: usize = entries.len();
    while pos > 0 && bytes_lt(key.as_slice(), entries[pos - 1].0.as_slice())
        invariant
            pos <= entries@.len(),
            before == entries_view(entries@),
            forall|j: int| pos <= j < before.len() ==> lex_lt(key@, #[trigger] before[j].0),
        decreases pos,
    {
        pos -= 1;
    }
    proof {
        lemma_insert_entry_at(before, key@, value@, pos as int);
    }
    if pos > 0 && bytes_eq(entries[pos - 1].0.as_slice(), key.as_slice()) {
        entries.set(pos - 1, (key, value));
        assert(entries_view(entries@) =~= before.update(pos - 1, (key@, value@)));
    } else {
        entries.insert(pos, (key, value));
        assert(entries_view(entries@) =~= before.insert(pos as int, (key@, value@)));
    }
}


} // verus!
