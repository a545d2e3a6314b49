//! What holds of the codec as a whole: decoding undoes encoding, strict
//! decoding accepts exactly what the encoder writes, and decoded values are
//! well-formed.

use crate::bencode::decimal::{
    dec_digits, is_digit, leading_digits, lemma_dec_digits_canonical, lemma_dec_digits_of_value,
    lemma_dec_value_of_digits, lemma_leading_digits, lemma_leading_digits_is,
};
use crate::bencode::grammar::{
    is_canonical, parse_all, parse_bytes, parse_entries, parse_integer, parse_items, parse_value,
    ser_bytes, ser_entries, ser_integer, ser_items, ser_value, BencodeError, COLON, LETTER_D,
    LETTER_E, LETTER_I, LETTER_L, MINUS,
};
use crate::bencode::order::{lemma_lex_asymmetric, lemma_lex_irreflexive, lex_lt};
use crate::bencode::value::{
    keys_ascending, lemma_sorted_entries_ascending, lemma_sorted_entries_of_ascending,
    sorted_entries, Tree,
};
use vstd::prelude::*;

verus! {

// ---------------------------------------------------------------------------
// Decoding what the encoder wrote
// ---------------------------------------------------------------------------

/// An encoded byte string, whatever follows it, decodes to the byte string.
pub proof fn lemma_parse_bytes_of_ser(b: Seq<u8>, rest: Seq<u8>, strict: bool)
    ensures
        parse_bytes(ser_bytes(b) + rest, strict) == Ok::<(Seq<u8>, int), BencodeError>(
            (b, ser_bytes(b).len() as int),
        ),
        ser_bytes(b).len() >= 2,
        is_digit(ser_bytes(b)[0]),
{
    let n = b.len();
    let d = dec_digits(n);
    let k = d.len() as int;
    let s = ser_bytes(b) + rest;
    lemma_dec_digits_canonical(n);
    lemma_dec_value_of_digits(n);
    assert(is_digit(d[0]));
    assert(ser_bytes(b)[0] == d[0]);
    assert forall|i: int| 0 <= i < k implies is_digit(#[trigger] s[i]) by {
        assert(s[i] == d[i]);
    }
    assert(s[k] == COLON);
    lemma_leading_digits_is(s, k);
    assert(s.subrange(0, k) =~= d);
    assert(s[0] == d[0]);
    assert(s.subrange(k + 1, k + 1 + n) =~= b);
}

/// An encoded integer, whatever follows it, decodes to the integer.
pub proof fn lemma_parse_integer_of_ser(i: i64, rest: Seq<u8>)
    ensures
        parse_integer(ser_integer(i) + rest) == Ok::<(i64, int), BencodeError>(
            (i, ser_integer(i).len() as int),
        ),
        ser_integer(i).len() >= 2,
        ser_integer(i)[0] == LETTER_I,
{
    let s = ser_integer(i) + rest;
    let m: nat = if i < 0 { (-i) as nat } else { i as nat };
    let d = dec_digits(m);
    let k = d.len() as int;
    let p: int = if i < 0 { 2 } else { 1 };
    lemma_dec_digits_canonical(m);
    lemma_dec_value_of_digits(m);
    assert(is_digit(d[0]));
    assert(s[0] == LETTER_I);
    assert(s[p] == d[0]);
    if i < 0 {
        assert(s[1] == MINUS);
    }
    let t = s.skip(p);
    assert forall|j: int| 0 <= j < k implies is_digit(#[trigger] t[j]) by {
        assert(t[j] == d[j]);
    }
    assert(t[k] == LETTER_E);
    lemma_leading_digits_is(t, k);
    assert(s.subrange(p, p + k) =~= d);
    assert(s[p + k] == LETTER_E);
}

/// An encoding has at least two bytes and never starts with `e`.
pub proof fn lemma_ser_value_head(v: Tree)
    ensures
        ser_value(v).len() >= 2,
        ser_value(v)[0] != LETTER_E,
        v is Bytes ==> is_digit(ser_value(v)[0]),
        v is Integer ==> ser_value(v)[0] == LETTER_I,
        v is List ==> ser_value(v)[0] == LETTER_L,
        v is Dict ==> ser_value(v)[0] == LETTER_D,
{
    match v {
        Tree::Bytes(b) => {
            lemma_parse_bytes_of_ser(b, Seq::empty(), false);
        },
        Tree::Integer(i) => {
            lemma_parse_integer_of_ser(i, Seq::empty());
        },
        Tree::List(items) => {},
        Tree::Dict(entries) => {},
    }
}

/// The encoding of a well-formed value, whatever follows it, decodes to the
/// value, in strict mode too.
pub proof fn lemma_parse_of_ser(v: Tree, rest: Seq<u8>, strict: bool)
    requires
        v.wf(),
    ensures
        parse_value(ser_value(v) + rest, strict) == Ok::<(Tree, int), BencodeError>(
            (v, ser_value(v).len() as int),
        ),
    decreases v, 0nat,
{
    let s = ser_value(v) + rest;
    lemma_ser_value_head(v);
    assert(s[0] == ser_value(v)[0]);
    match v {
        Tree::Bytes(b) => {
            lemma_parse_bytes_of_ser(b, rest, strict);
        },
        Tree::Integer(i) => {
            lemma_parse_integer_of_ser(i, rest);
        },
        Tree::List(items) => {
            lemma_parse_items_of_ser(items, 0, rest, strict);
            assert(s.skip(1) =~= ser_items(items, 0) + seq![LETTER_E] + rest);
            assert(items.skip(0) =~= items);
        },
        Tree::Dict(entries) => {
            assert(entries_wf(entries)) by {
                reveal(entries_wf);
            }
            lemma_parse_entries_of_ser(entries, 0, rest, strict);
            assert(s.skip(1) =~= ser_entries(entries, 0) + seq![LETTER_E] + rest);
            assert(entries.skip(0) =~= entries);
            lemma_sorted_entries_of_ascending(entries);
        },
    }
}

/// The encodings of the items from `from` on, closed by `e`, decode to those
/// items.
pub proof fn lemma_parse_items_of_ser(items: Seq<Tree>, from: int, rest: Seq<u8>, strict: bool)
    requires
        0 <= from <= items.len(),
        forall|i: int| 0 <= i < items.len() ==> (#[trigger] items[i]).wf(),
    ensures
        parse_items(ser_items(items, from) + seq![LETTER_E] + rest, strict) == Ok::<
            (Seq<Tree>, int),
            BencodeError,
        >((items.skip(from), (ser_items(items, from).len() + 1) as int)),
    decreases items, items.len() - from,
{
    let s = ser_items(items, from) + seq![LETTER_E] + rest;
    if from == items.len() {
        assert(s[0] == LETTER_E);
        assert(items.skip(from) =~= Seq::<Tree>::empty());
    } else {
        let v = items[from];
        let tail = ser_items(items, from + 1) + seq![LETTER_E] + rest;
        lemma_ser_value_head(v);
        lemma_parse_of_ser(v, tail, strict);
        lemma_parse_items_of_ser(items, from + 1, rest, strict);
        lemma_concat_assoc4(ser_value(v), ser_items(items, from + 1), seq![LETTER_E], rest);
        lemma_items_glue(s, ser_value(v), tail, strict, v, items.skip(from + 1), (ser_items(
            items,
            from + 1,
        ).len() + 1) as int);
        lemma_skip_step(items, from);
    }
}

/// `(a + b) + c + d` is `a + (b + c + d)`.
pub proof fn lemma_concat_assoc4<A>(a: Seq<A>, b: Seq<A>, c: Seq<A>, d: Seq<A>)
    ensures
        (a + b) + c + d == a + (b + c + d),
{
    assert((a + b) + c + d =~= a + (b + c + d));
}

/// `(a + b + c) + d + e` is `a + b + (c + d + e)`.
pub proof fn lemma_concat_assoc5<A>(a: Seq<A>, b: Seq<A>, c: Seq<A>, d: Seq<A>, e: Seq<A>)
    ensures
        (a + b + c) + d + e == a + b + (c + d + e),
{
    assert((a + b + c) + d + e =~= a + b + (c + d + e));
}

/// A list item and what follows it: where `a` decodes to `v` whatever follows
/// and `t` to the rest of the list, `a + t` decodes to `v` and the rest.
pub proof fn lemma_items_glue(
    s: Seq<u8>,
    a: Seq<u8>,
    t: Seq<u8>,
    strict: bool,
    v: Tree,
    rest: Seq<Tree>,
    k: int,
)
    requires
        s == a + t,
        a.len() >= 1,
        a[0] != LETTER_E,
        parse_value(a + t, strict) == Ok::<(Tree, int), BencodeError>((v, a.len() as int)),
        parse_items(t, strict) == Ok::<(Seq<Tree>, int), BencodeError>((rest, k)),
    ensures
        parse_items(s, strict) == Ok::<(Seq<Tree>, int), BencodeError>(
            (seq![v] + rest, a.len() + k),
        ),
{
    assert(s[0] == a[0]);
    assert(s.skip(a.len() as int) =~= t);
    lemma_parse_items_step(s, strict, v, a.len() as int, rest, k);
}

/// A dictionary entry and what follows it: where `a` decodes to the key, `b` to
/// its value and `t` to the rest of the dictionary, `a + b + t` decodes to the
/// entry and the rest.
pub proof fn lemma_entries_glue(
    s: Seq<u8>,
    a: Seq<u8>,
    b: Seq<u8>,
    t: Seq<u8>,
    strict: bool,
    last: Option<Seq<u8>>,
    key: Seq<u8>,
    v: Tree,
    rest: Seq<(Seq<u8>, Tree)>,
    k: int,
)
    requires
        s == a + b + t,
        a.len() >= 1,
        is_digit(a[0]),
        parse_bytes(a + (b + t), strict) == Ok::<(Seq<u8>, int), BencodeError>(
            (key, a.len() as int),
        ),
        strict && last is Some ==> lex_lt(last->0, key),
        parse_value(b + t, strict) == Ok::<(Tree, int), BencodeError>((v, b.len() as int)),
        parse_entries(t, strict, Some(key)) == Ok::<(Seq<(Seq<u8>, Tree)>, int), BencodeError>(
            (rest, k),
        ),
    ensures
        parse_entries(s, strict, last) == Ok::<(Seq<(Seq<u8>, Tree)>, int), BencodeError>(
            (seq![(key, v)] + rest, a.len() + b.len() + k),
        ),
{
    assert(s == a + (b + t)) by {
        assert(a + b + t =~= a + (b + t));
    }
    assert(s[0] == a[0]);
    assert(s.skip(a.len() as int) =~= b + t);
    assert(s.skip((a.len() + b.len()) as int) =~= t);
    lemma_parse_entries_step(
        s,
        strict,
        last,
        key,
        a.len() as int,
        v,
        b.len() as int,
        rest,
        k,
    );
}

/// One step of `parse_items`: a value, then the rest of the list.
pub proof fn lemma_parse_items_step(
    s: Seq<u8>,
    strict: bool,
    v: Tree,
    n: int,
    rest: Seq<Tree>,
    k: int,
)
    requires
        s.len() > 0,
        s[0] != LETTER_E,
        parse_value(s, strict) == Ok::<(Tree, int), BencodeError>((v, n)),
        0 < n <= s.len(),
        parse_items(s.skip(n), strict) == Ok::<(Seq<Tree>, int), BencodeError>((rest, k)),
    ensures
        parse_items(s, strict) == Ok::<(Seq<Tree>, int), BencodeError>((seq![v] + rest, n + k)),
{
}

/// One step of `parse_entries`: a key, its value, then the rest of the
/// dictionary.
pub proof fn lemma_parse_entries_step(
    s: Seq<u8>,
    strict: bool,
    last: Option<Seq<u8>>,
    key: Seq<u8>,
    n: int,
    v: Tree,
    m: int,
    rest: Seq<(Seq<u8>, Tree)>,
    k: int,
)
    requires
        s.len() > 0,
        s[0] != LETTER_E,
        parse_bytes(s, strict) == Ok::<(Seq<u8>, int), BencodeError>((key, n)),
        0 < n <= s.len(),
        strict && last is Some ==> lex_lt(last->0, key),
        parse_value(s.skip(n), strict) == Ok::<(Tree, int), BencodeError>((v, m)),
        0 <= m <= s.len() - n,
        parse_entries(s.skip(n + m), strict, Some(key)) == Ok::<
            (Seq<(Seq<u8>, Tree)>, int),
            BencodeError,
        >((rest, k)),
    ensures
        parse_entries(s, strict, last) == Ok::<(Seq<(Seq<u8>, Tree)>, int), BencodeError>(
            (seq![(key, v)] + rest, n + m + k),
        ),
{
}

/// The entries of a well-formed dictionary: keys ascending, values well-formed.
#[verifier::opaque]
pub open spec fn entries_wf(entries: Seq<(Seq<u8>, Tree)>) -> bool {
    Tree::Dict(entries).wf()
}

/// The key that stands before index `from`, if any.
pub open spec fn key_before(entries: Seq<(Seq<u8>, Tree)>, from: int) -> Option<Seq<u8>> {
    if from <= 0 {
        None
    } else {
        Some(entries[from - 1].0)
    }
}

/// The encodings of the entries from `from` on, closed by `e`, decode to those
/// entries.
pub proof fn lemma_parse_entries_of_ser(
    entries: Seq<(Seq<u8>, Tree)>,
    from: int,
    rest: Seq<u8>,
    strict: bool,
)
    requires
        0 <= from <= entries.len(),
        entries_wf(entries),
    ensures
        parse_entries(
            ser_entries(entries, from) + seq![LETTER_E] + rest,
            strict,
            key_before(entries, from),
        ) == Ok::<(Seq<(Seq<u8>, Tree)>, int), BencodeError>(
            (entries.skip(from), (ser_entries(entries, from).len() + 1) as int),
        ),
    decreases entries, entries.len() - from,
{
    let s = ser_entries(entries, from) + seq![LETTER_E] + rest;
    if from == entries.len() {
        assert(s[0] == LETTER_E);
        assert(entries.skip(from) =~= Seq::<(Seq<u8>, Tree)>::empty());
    } else {
        let key = entries[from].0;
        let v = entries[from].1;
        let tail = ser_entries(entries, from + 1) + seq![LETTER_E] + rest;
        let last = key_before(entries, from);
        lemma_parse_entries_of_ser(entries, from + 1, rest, strict);
        lemma_concat_assoc5(
            ser_bytes(key),
            ser_value(v),
            ser_entries(entries, from + 1),
            seq![LETTER_E],
            rest,
        );
        lemma_parse_bytes_of_ser(key, ser_value(v) + tail, strict);
        assert(v.wf() && (last is Some ==> lex_lt(last->0, key))) by {
            reveal(entries_wf);
            if from > 0 {
                assert(lex_lt(entries[from - 1].0, entries[from].0));
            }
            assert(entries[from].1.wf());
        }
        lemma_parse_of_ser(v, tail, strict);
        lemma_entries_glue(
            s,
            ser_bytes(key),
            ser_value(v),
            tail,
            strict,
            last,
            key,
            v,
            entries.skip(from + 1),
            (ser_entries(entries, from + 1).len() + 1) as int,
        );
        lemma_skip_step(entries, from);
    }
}

/// Concatenation is associative.
pub proof fn lemma_concat_assoc<A>(a: Seq<A>, b: Seq<A>, c: Seq<A>)
    ensures
        a + b + c == a + (b + c),
{
    assert(a + b + c =~= a + (b + c));
}

/// What is left of a sequence from `from` on is its item at `from` and what is
/// left from `from + 1` on.
pub proof fn lemma_skip_step<A>(s: Seq<A>, from: int)
    requires
        0 <= from < s.len(),
    ensures
        seq![s[from]] + s.skip(from + 1) == s.skip(from),
{
    assert(seq![s[from]] + s.skip(from + 1) =~= s.skip(from));
}

// ---------------------------------------------------------------------------
// What a successful decoding gives
// ---------------------------------------------------------------------------

/// A decoded byte string took its length digits, the colon and its bytes.
pub proof fn lemma_parse_bytes_bounds(s: Seq<u8>, strict: bool)
    ensures
        parse_bytes(s, strict) matches Ok((b, n)) ==> 2 <= n <= s.len() && b.len() + 2 <= n,
{
    lemma_leading_digits(s);
}

/// A decoded integer took at least `i`, one digit and `e`.
pub proof fn lemma_parse_integer_bounds(s: Seq<u8>)
    ensures
        parse_integer(s) matches Ok((i, n)) ==> 3 <= n <= s.len(),
{
    if s.len() >= 2 {
        let p: int = if s[1] == MINUS { 2 } else { 1 };
        lemma_leading_digits(s.skip(p));
    }
}

/// A decoded value is well-formed and took at least one byte of the input.
pub proof fn lemma_parse_value_wf(s: Seq<u8>, strict: bool)
    ensures
        parse_value(s, strict) matches Ok((v, n)) ==> v.wf() && 0 < n <= s.len(),
    decreases s.len(), 0nat,
{
    if s.len() == 0 {
    } else if is_digit(s[0]) {
        lemma_parse_bytes_bounds(s, strict);
    } else if s[0] == LETTER_I {
        lemma_parse_integer_bounds(s);
    } else if s[0] == LETTER_L {
        lemma_parse_items_wf(s.skip(1), strict);
        if let Ok((items, n)) = parse_items(s.skip(1), strict) {
            assert(Tree::List(items)->List_0 == items);
        }
    } else if s[0] == LETTER_D {
        lemma_parse_entries_wf(s.skip(1), strict, None);
        if let Ok((raw, n)) = parse_entries(s.skip(1), strict, None) {
            let sorted = sorted_entries(raw);
            lemma_sorted_entries_ascending(raw);
            assert forall|i: int| 0 <= i < sorted.len() implies (#[trigger] sorted[i]).1.wf() by {
                let j = choose|j: int| 0 <= j < raw.len() && raw[j] == sorted[i];
                assert(raw[j].1.wf());
            }
            assert(Tree::Dict(sorted)->Dict_0 == sorted);
        }
    }
}

/// Decoded list items are well-formed.
pub proof fn lemma_parse_items_wf(s: Seq<u8>, strict: bool)
    ensures
        parse_items(s, strict) matches Ok((items, n)) ==> 0 < n <= s.len() && forall|i: int|
            0 <= i < items.len() ==> (#[trigger] items[i]).wf(),
    decreases s.len(), 1nat,
{
    if s.len() > 0 && s[0] != LETTER_E {
        lemma_parse_value_wf(s, strict);
        if let Ok((v, n)) = parse_value(s, strict) {
            lemma_parse_items_wf(s.skip(n), strict);
            if let Ok((rest, m)) = parse_items(s.skip(n), strict) {
                let items = seq![v] + rest;
                assert forall|i: int| 0 <= i < items.len() implies (#[trigger] items[i]).wf() by {
                    if i > 0 {
                        assert(items[i] == rest[i - 1]);
                    }
                }
            }
        }
    }
}

/// Decoded dictionary entries hold well-formed values; in strict mode their keys
/// ascend, from the key read before them on.
pub proof fn lemma_parse_entries_wf(s: Seq<u8>, strict: bool, last: Option<Seq<u8>>)
    ensures
        parse_entries(s, strict, last) matches Ok((raw, n)) ==> {
            &&& 0 < n <= s.len()
            &&& forall|i: int| 0 <= i < raw.len() ==> (#[trigger] raw[i]).1.wf()
            &&& strict ==> keys_ascending(raw)
            &&& strict && last is Some && raw.len() > 0 ==> lex_lt(last->0, raw[0].0)
        },
    decreases s.len(), 1nat,
{
    if s.len() > 0 && s[0] != LETTER_E {
        lemma_parse_bytes_bounds(s, strict);
        if let Ok((key, n)) = parse_bytes(s, strict) {
            if !(strict && last is Some && !lex_lt(last->0, key)) {
                lemma_parse_value_wf(s.skip(n), strict);
                if let Ok((v, m)) = parse_value(s.skip(n), strict) {
                    lemma_parse_entries_wf(s.skip(n + m), strict, Some(key));
                    if let Ok((rest, k)) = parse_entries(s.skip(n + m), strict, Some(key)) {
                        let raw = seq![(key, v)] + rest;
                        assert(raw[0] == (key, v));
                        assert forall|i: int|
                            0 <= i < raw.len() implies (#[trigger] raw[i]).1.wf() by {
                            if i > 0 {
                                assert(raw[i] == rest[i - 1]);
                            }
                        }
                        if strict {
                            assert forall|i: int, j: int| 0 <= i < j < raw.len() implies lex_lt(
                                #[trigger] raw[i].0,
                                #[trigger] raw[j].0,
                            ) by {
                                assert(raw[j] == rest[j - 1]);
                                if i > 0 {
                                    assert(raw[i] == rest[i - 1]);
                                } else if j > 1 {
                                    assert(lex_lt(rest[0].0, rest[j - 1].0));
                                    crate::bencode::order::lemma_lex_transitive(
                                        key,
                                        rest[0].0,
                                        rest[j - 1].0,
                                    );
                                }
                            }
                        }
                    }
                }
            }
        }
    }
}

// ---------------------------------------------------------------------------
// Strict mode
// ---------------------------------------------------------------------------

/// What strict mode accepts, lenient mode decodes to the same value.
pub proof fn lemma_strict_is_lenient(s: Seq<u8>)
    ensures
        parse_value(s, true) is Ok ==> parse_value(s, false) == parse_value(s, true),
    decreases s.len(), 0nat,
{
    if s.len() == 0 {
    } else if is_digit(s[0]) {
    } else if s[0] == LETTER_I {
    } else if s[0] == LETTER_L {
        lemma_strict_items_is_lenient(s.skip(1));
    } else if s[0] == LETTER_D {
        lemma_strict_entries_is_lenient(s.skip(1), None, None);
    }
}

/// The same, of the items of a list.
pub proof fn lemma_strict_items_is_lenient(s: Seq<u8>)
    ensures
        parse_items(s, true) is Ok ==> parse_items(s, false) == parse_items(s, true),
    decreases s.len(), 1nat,
{
    if s.len() > 0 && s[0] != LETTER_E {
        lemma_strict_is_lenient(s);
        lemma_parse_value_wf(s, true);
        if let Ok((v, n)) = parse_value(s, true) {
            lemma_strict_items_is_lenient(s.skip(n));
        }
    }
}

/// The same, of the entries of a dictionary. Lenient mode pays no attention to
/// the key read before.
pub proof fn lemma_strict_entries_is_lenient(
    s: Seq<u8>,
    last: Option<Seq<u8>>,
    other: Option<Seq<u8>>,
)
    ensures
        parse_entries(s, true, last) is Ok ==> parse_entries(s, false, other) == parse_entries(
            s,
            true,
            last,
        ),
    decreases s.len(), 1nat,
{
    if s.len() > 0 && s[0] != LETTER_E {
        lemma_parse_bytes_bounds(s, true);
        if let Ok((key, n)) = parse_bytes(s, true) {
            assert(parse_bytes(s, false) == parse_bytes(s, true));
            if last is Some && !lex_lt(last->0, key) {
            } else {
                lemma_strict_is_lenient(s.skip(n));
                lemma_parse_value_wf(s.skip(n), true);
                if let Ok((v, m)) = parse_value(s.skip(n), true) {
                    lemma_strict_entries_is_lenient(s.skip(n + m), Some(key), Some(key));
                }
            }
        }
    }
}

/// The encodings of the items from `from` on are the encodings of what is left
/// of the sequence from `from` on.
pub proof fn lemma_ser_items_skip(items: Seq<Tree>, from: int)
    requires
        0 <= from <= items.len(),
    ensures
        ser_items(items, from) == ser_items(items.skip(from), 0),
    decreases items.len() - from,
{
    let t = items.skip(from);
    if from < items.len() {
        lemma_ser_items_skip(items, from + 1);
        lemma_ser_items_skip(t, 1);
        assert(t.skip(1) =~= items.skip(from + 1));
        assert(t[0] == items[from]);
    }
}

/// The same, of dictionary entries.
pub proof fn lemma_ser_entries_skip(entries: Seq<(Seq<u8>, Tree)>, from: int)
    requires
        0 <= from <= entries.len(),
    ensures
        ser_entries(entries, from) == ser_entries(entries.skip(from), 0),
    decreases entries.len() - from,
{
    let t = entries.skip(from);
    if from < entries.len() {
        lemma_ser_entries_skip(entries, from + 1);
        lemma_ser_entries_skip(t, 1);
        assert(t.skip(1) =~= entries.skip(from + 1));
        assert(t[0] == entries[from]);
    }
}

/// What strict mode accepts as a byte string is the encoding of that byte
/// string.
pub proof fn lemma_ser_of_strict_bytes(s: Seq<u8>)
    ensures
        parse_bytes(s, true) matches Ok((b, n)) ==> ser_bytes(b) == s.subrange(0, n),
{
    if let Ok((b, n)) = parse_bytes(s, true) {
        let k = leading_digits(s) as int;
        let digits = s.subrange(0, k);
        lemma_leading_digits(s);
        assert(digits[0] == s[0]);
        lemma_dec_digits_of_value(digits);
        assert(ser_bytes(b) =~= s.subrange(0, n));
    }
}

/// What is accepted as an integer is the encoding of that integer.
pub proof fn lemma_ser_of_integer(s: Seq<u8>)
    ensures
        parse_integer(s) matches Ok((i, n)) ==> ser_integer(i) == s.subrange(0, n),
{
    if let Ok((i, n)) = parse_integer(s) {
        let p: int = if s[1] == MINUS { 2 } else { 1 };
        let k = leading_digits(s.skip(p)) as int;
        let digits = s.subrange(p, p + k);
        lemma_leading_digits(s.skip(p));
        assert(digits =~= s.skip(p).subrange(0, k));
        assert(digits[0] == s[p]);
        lemma_dec_digits_of_value(digits);
        assert(ser_integer(i) =~= s.subrange(0, n));
    }
}

/// Glues the encoding of a first part to that of the rest: if `a` is the first
/// `n` bytes of `s` and `b` the first `m` bytes behind them, `a + b` is the first
/// `n + m` bytes.
pub proof fn lemma_prefix_glue(s: Seq<u8>, a: Seq<u8>, n: int, b: Seq<u8>, m: int)
    requires
        0 <= n <= s.len(),
        0 <= m <= s.len() - n,
        a == s.subrange(0, n),
        b == s.skip(n).subrange(0, m),
    ensures
        a + b == s.subrange(0, n + m),
{
    assert(a + b =~= s.subrange(0, n + m));
}

/// What strict mode accepts is the encoding of the value it gives.
pub proof fn lemma_ser_of_strict_parse(s: Seq<u8>)
    ensures
        parse_value(s, true) matches Ok((v, n)) ==> ser_value(v) == s.subrange(0, n),
    decreases s.len(), 0nat,
{
    lemma_parse_value_wf(s, true);
    if s.len() == 0 {
    } else if is_digit(s[0]) {
        lemma_ser_of_strict_bytes(s);
    } else if s[0] == LETTER_I {
        lemma_ser_of_integer(s);
    } else if s[0] == LETTER_L {
        lemma_ser_of_strict_items(s.skip(1));
        lemma_parse_items_wf(s.skip(1), true);
        if let Ok((items, n)) = parse_items(s.skip(1), true) {
            let head = seq![LETTER_L];
            assert(head =~= s.subrange(0, 1));
            lemma_prefix_glue(s, head, 1, ser_items(items, 0) + seq![LETTER_E], n);
            lemma_concat_assoc(head, ser_items(items, 0), seq![LETTER_E]);
        }
    } else if s[0] == LETTER_D {
        lemma_ser_of_strict_entries(s.skip(1), None);
        lemma_parse_entries_wf(s.skip(1), true, None);
        if let Ok((raw, n)) = parse_entries(s.skip(1), true, None) {
            lemma_sorted_entries_of_ascending(raw);
            let head = seq![LETTER_D];
            assert(head =~= s.subrange(0, 1));
            lemma_prefix_glue(s, head, 1, ser_entries(raw, 0) + seq![LETTER_E], n);
            lemma_concat_assoc(head, ser_entries(raw, 0), seq![LETTER_E]);
        }
    }
}

/// The same, of the items of a list up to and with the closing `e`.
pub proof fn lemma_ser_of_strict_items(s: Seq<u8>)
    ensures
        parse_items(s, true) matches Ok((items, n)) ==> ser_items(items, 0) + seq![LETTER_E]
            == s.subrange(0, n),
    decreases s.len(), 1nat,
{
    if s.len() == 0 {
    } else if s[0] == LETTER_E {
        assert(ser_items(Seq::<Tree>::empty(), 0) + seq![LETTER_E] =~= s.subrange(0, 1));
    } else {
        lemma_ser_of_strict_parse(s);
        lemma_parse_value_wf(s, true);
        if let Ok((v, n)) = parse_value(s, true) {
            lemma_ser_of_strict_items(s.skip(n));
            lemma_parse_items_wf(s.skip(n), true);
            if let Ok((rest, m)) = parse_items(s.skip(n), true) {
                let items = seq![v] + rest;
                lemma_ser_items_skip(items, 1);
                assert(items.skip(1) =~= rest);
                assert(items[0] == v);
                lemma_prefix_glue(s, ser_value(v), n, ser_items(rest, 0) + seq![LETTER_E], m);
                lemma_concat_assoc(ser_value(v), ser_items(rest, 0), seq![LETTER_E]);
            }
        }
    }
}

/// The same, of the entries of a dictionary up to and with the closing `e`.
pub proof fn lemma_ser_of_strict_entries(s: Seq<u8>, last: Option<Seq<u8>>)
    ensures
        parse_entries(s, true, last) matches Ok((raw, n)) ==> ser_entries(raw, 0) + seq![
            LETTER_E,
        ] == s.subrange(0, n),
    decreases s.len(), 1nat,
{
    if s.len() == 0 {
    } else if s[0] == LETTER_E {
        assert(ser_entries(Seq::<(Seq<u8>, Tree)>::empty(), 0) + seq![LETTER_E] =~= s.subrange(
            0,
            1,
        ));
    } else {
        lemma_parse_bytes_bounds(s, true);
        lemma_ser_of_strict_bytes(s);
        if let Ok((key, n)) = parse_bytes(s, true) {
            if last is Some && !lex_lt(last->0, key) {
            } else {
                lemma_ser_of_strict_parse(s.skip(n));
                lemma_parse_value_wf(s.skip(n), true);
                if let Ok((v, m)) = parse_value(s.skip(n), true) {
                    lemma_ser_of_strict_entries(s.skip(n + m), Some(key));
                    lemma_parse_entries_wf(s.skip(n + m), true, Some(key));
                    if let Ok((rest, k)) = parse_entries(s.skip(n + m), true, Some(key)) {
                        let raw = seq![(key, v)] + rest;
                        lemma_ser_entries_skip(raw, 1);
                        assert(raw.skip(1) =~= rest);
                        assert(raw[0] == (key, v));
                        let tail = ser_entries(rest, 0) + seq![LETTER_E];
                        lemma_prefix_glue(s, ser_bytes(key), n, ser_value(v), m);
                        assert(s.skip(n + m) =~= s.skip(n).skip(m));
                        lemma_prefix_glue(s, ser_bytes(key) + ser_value(v), n + m, tail, k);
                        lemma_concat_assoc(
                            ser_bytes(key) + ser_value(v),
                            ser_entries(rest, 0),
                            seq![LETTER_E],
                        );
                    }
                }
            }
        }
    }
}

// ---------------------------------------------------------------------------
// What follows a value
// ---------------------------------------------------------------------------

/// `s` and `t` start with the same `n` bytes.
pub open spec fn same_start(s: Seq<u8>, t: Seq<u8>, n: int) -> bool {
    0 <= n <= s.len() && n <= t.len() && s.subrange(0, n) == t.subrange(0, n)
}

/// Sequences with the same start hold the same byte at each index within it.
proof fn lemma_same_start_at(s: Seq<u8>, t: Seq<u8>, n: int, i: int)
    requires
        same_start(s, t, n),
        0 <= i < n,
    ensures
        s[i] == t[i],
{
    assert(s.subrange(0, n)[i] == s[i]);
    assert(t.subrange(0, n)[i] == t[i]);
}

/// Sequences with the same start hold the same bytes in every range within it,
/// and what is left of them from an index within it on starts the same.
proof fn lemma_same_start_within(s: Seq<u8>, t: Seq<u8>, n: int, a: int, m: int)
    requires
        same_start(s, t, n),
        0 <= a,
        0 <= m,
        a + m <= n,
    ensures
        s.subrange(a, a + m) == t.subrange(a, a + m),
        same_start(s.skip(a), t.skip(a), m),
        same_start(s, t, a + m),
{
    assert(s.subrange(a, a + m) =~= s.subrange(0, n).subrange(a, a + m));
    assert(t.subrange(a, a + m) =~= t.subrange(0, n).subrange(a, a + m));
    assert(s.skip(a).subrange(0, m) =~= s.subrange(a, a + m));
    assert(t.skip(a).subrange(0, m) =~= t.subrange(a, a + m));
    assert(s.subrange(0, a + m) =~= s.subrange(0, n).subrange(0, a + m));
    assert(t.subrange(0, a + m) =~= t.subrange(0, n).subrange(0, a + m));
}

/// Sequences that start with the same digits and the byte behind them start
/// with the same number of digits.
proof fn lemma_same_leading_digits(s: Seq<u8>, t: Seq<u8>, n: int)
    requires
        same_start(s, t, n),
        leading_digits(s) < n,
    ensures
        leading_digits(t) == leading_digits(s),
        t.subrange(0, leading_digits(s) as int) == s.subrange(0, leading_digits(s) as int),
{
    let k = leading_digits(s) as int;
    lemma_leading_digits(s);
    assert forall|i: int| 0 <= i < k implies is_digit(#[trigger] t[i]) by {
        lemma_same_start_at(s, t, n, i);
        assert(s.subrange(0, k)[i] == s[i]);
    }
    lemma_same_start_at(s, t, n, k);
    lemma_leading_digits_is(t, k);
    lemma_same_start_within(s, t, n, 0, k);
}

/// A byte string decodes the same whatever follows it.
proof fn lemma_bytes_same_start(s: Seq<u8>, t: Seq<u8>, strict: bool)
    ensures
        parse_bytes(s, strict) matches Ok((b, n)) ==> (same_start(s, t, n) ==> parse_bytes(
            t,
            strict,
        ) == parse_bytes(s, strict)),
{
    if let Ok((b, n)) = parse_bytes(s, strict) {
        if same_start(s, t, n) {
            let k = leading_digits(s) as int;
            lemma_parse_bytes_bounds(s, strict);
            lemma_same_leading_digits(s, t, n);
            lemma_same_start_at(s, t, n, 0);
            lemma_same_start_at(s, t, n, k);
            lemma_same_start_within(s, t, n, k + 1, n - (k + 1));
        }
    }
}

/// An integer decodes the same whatever follows it.
proof fn lemma_integer_same_start(s: Seq<u8>, t: Seq<u8>)
    ensures
        parse_integer(s) matches Ok((i, n)) ==> (same_start(s, t, n) ==> parse_integer(t)
            == parse_integer(s)),
{
    if let Ok((i, n)) = parse_integer(s) {
        if same_start(s, t, n) {
            lemma_parse_integer_bounds(s);
            let p: int = if s[1] == MINUS { 2 } else { 1 };
            let k = leading_digits(s.skip(p)) as int;
            lemma_same_start_at(s, t, n, 0);
            lemma_same_start_at(s, t, n, 1);
            lemma_same_start_at(s, t, n, p);
            lemma_same_start_at(s, t, n, p + k);
            lemma_same_start_within(s, t, n, p, n - p);
            lemma_same_leading_digits(s.skip(p), t.skip(p), n - p);
            lemma_same_start_within(s, t, n, p, k);
        }
    }
}

/// A value decodes the same whatever follows it: what starts with the bytes
/// that a value took decodes to that value.
pub proof fn lemma_value_same_start(s: Seq<u8>, t: Seq<u8>, strict: bool)
    ensures
        parse_value(s, strict) matches Ok((v, n)) ==> (same_start(s, t, n) ==> parse_value(
            t,
            strict,
        ) == parse_value(s, strict)),
    decreases s.len(), 0nat,
{
    if let Ok((v, n)) = parse_value(s, strict) {
        if same_start(s, t, n) {
            lemma_parse_value_wf(s, strict);
            lemma_same_start_at(s, t, n, 0);
            if is_digit(s[0]) {
                lemma_bytes_same_start(s, t, strict);
            } else if s[0] == LETTER_I {
                lemma_integer_same_start(s, t);
            } else if s[0] == LETTER_L {
                lemma_parse_items_wf(s.skip(1), strict);
                lemma_same_start_within(s, t, n, 1, n - 1);
                lemma_items_same_start(s.skip(1), t.skip(1), strict);
            } else {
                lemma_parse_entries_wf(s.skip(1), strict, None);
                lemma_same_start_within(s, t, n, 1, n - 1);
                lemma_entries_same_start(s.skip(1), t.skip(1), strict, None);
            }
        }
    }
}

/// The same, of the items of a list up to and with the closing `e`.
pub proof fn lemma_items_same_start(s: Seq<u8>, t: Seq<u8>, strict: bool)
    ensures
        parse_items(s, strict) matches Ok((items, n)) ==> (same_start(s, t, n) ==> parse_items(
            t,
            strict,
        ) == parse_items(s, strict)),
    decreases s.len(), 1nat,
{
    if let Ok((items, n)) = parse_items(s, strict) {
        if same_start(s, t, n) {
            lemma_parse_items_wf(s, strict);
            lemma_same_start_at(s, t, n, 0);
            if s[0] != LETTER_E {
                lemma_parse_value_wf(s, strict);
                if let Ok((v, a)) = parse_value(s, strict) {
                    lemma_parse_items_wf(s.skip(a), strict);
                    if let Ok((rest, m)) = parse_items(s.skip(a), strict) {
                        lemma_same_start_within(s, t, n, 0, a);
                        lemma_value_same_start(s, t, strict);
                        lemma_same_start_within(s, t, n, a, m);
                        lemma_items_same_start(s.skip(a), t.skip(a), strict);
                    }
                }
            }
        }
    }
}

/// The same, of the entries of a dictionary up to and with the closing `e`.
pub proof fn lemma_entries_same_start(
    s: Seq<u8>,
    t: Seq<u8>,
    strict: bool,
    last: Option<Seq<u8>>,
)
    ensures
        parse_entries(s, strict, last) matches Ok((raw, n)) ==> (same_start(s, t, n)
            ==> parse_entries(t, strict, last) == parse_entries(s, strict, last)),
    decreases s.len(), 1nat,
{
    if let Ok((raw, n)) = parse_entries(s, strict, last) {
        if same_start(s, t, n) {
            lemma_parse_entries_wf(s, strict, last);
            lemma_same_start_at(s, t, n, 0);
            if s[0] != LETTER_E {
                lemma_parse_bytes_bounds(s, strict);
                if let Ok((key, a)) = parse_bytes(s, strict) {
                    lemma_parse_value_wf(s.skip(a), strict);
                    if let Ok((v, m)) = parse_value(s.skip(a), strict) {
                        lemma_parse_entries_wf(s.skip(a + m), strict, Some(key));
                        if let Ok((rest, k)) = parse_entries(s.skip(a + m), strict, Some(key)) {
                            lemma_same_start_within(s, t, n, 0, a);
                            lemma_bytes_same_start(s, t, strict);
                            lemma_same_start_within(s, t, n, a, m);
                            lemma_value_same_start(s.skip(a), t.skip(a), strict);
                            lemma_same_start_within(s, t, n, a + m, k);
                            lemma_entries_same_start(
                                s.skip(a + m),
                                t.skip(a + m),
                                strict,
                                Some(key),
                            );
                        }
                    }
                }
            }
        }
    }
}

// ---------------------------------------------------------------------------
// The laws of the codec
// ---------------------------------------------------------------------------

/// Decoding undoes encoding: the encoding of a well-formed value decodes to that
/// value with nothing left, in lenient and in strict mode.
pub proof fn law_decode_of_encode(v: Tree, strict: bool)
    requires
        v.wf(),
    ensures
        parse_all(ser_value(v), strict) == Ok::<Tree, BencodeError>(v),
{
    lemma_parse_of_ser(v, Seq::empty(), strict);
    assert(ser_value(v) + Seq::<u8>::empty() =~= ser_value(v));
}

/// A decoded value is well-formed, and encoding it and decoding the result gives
/// the same value again.
pub proof fn law_decode_is_stable(b: Seq<u8>, strict: bool)
    ensures
        parse_all(b, strict) matches Ok(v) ==> v.wf() && parse_all(ser_value(v), false) == Ok::<
            Tree,
            BencodeError,
        >(v) && parse_all(ser_value(v), true) == Ok::<Tree, BencodeError>(v),
{
    lemma_parse_value_wf(b, strict);
    if let Ok(v) = parse_all(b, strict) {
        law_decode_of_encode(v, false);
        law_decode_of_encode(v, true);
    }
}

/// Encoding what was decoded gives the input back exactly when the input is in
/// canonical form; and what is in canonical form decodes to the same value in
/// both modes.
pub proof fn law_encode_of_decode(b: Seq<u8>)
    ensures
        parse_all(b, false) matches Ok(v) ==> (ser_value(v) == b <==> is_canonical(b)),
        parse_all(b, true) matches Ok(v) ==> parse_all(b, false) == Ok::<Tree, BencodeError>(v)
            && ser_value(v) == b,
{
    lemma_strict_is_lenient(b);
    lemma_ser_of_strict_parse(b);
    lemma_parse_value_wf(b, false);
    lemma_parse_value_wf(b, true);
    if let Ok(v) = parse_all(b, true) {
        assert(b.subrange(0, b.len() as int) =~= b);
    }
    if let Ok(v) = parse_all(b, false) {
        if ser_value(v) == b {
            law_decode_of_encode(v, true);
        }
        if parse_all(b, true) is Ok {
            assert(b.subrange(0, b.len() as int) =~= b);
        }
    }
}

/// Bytes behind a value change nothing: where an input decodes to a value that
/// took `n` bytes, those `n` bytes with anything behind them decode to the same
/// value and take the same `n` bytes; alone they are the whole of the value.
/// This holds of every input that decodes, in lenient and in strict mode.
pub proof fn law_decode_ignores_what_follows(s: Seq<u8>, rest: Seq<u8>, strict: bool)
    ensures
        parse_value(s, strict) matches Ok((v, n)) ==> parse_value(
            s.subrange(0, n) + rest,
            strict,
        ) == Ok::<(Tree, int), BencodeError>((v, n)) && parse_all(s.subrange(0, n), strict)
            == Ok::<Tree, BencodeError>(v),
{
    lemma_parse_value_wf(s, strict);
    if let Ok((v, n)) = parse_value(s, strict) {
        let head = s.subrange(0, n);
        let t = head + rest;
        assert(t.subrange(0, n) =~= head);
        lemma_value_same_start(s, t, strict);
        assert(head.subrange(0, n) =~= head);
        lemma_value_same_start(s, head, strict);
    }
}

/// In the encoding of a well-formed dictionary the keys stand in strictly
/// ascending order of raw bytes: read in the order of the bytes, the entries are
/// those of the dictionary, whose keys ascend.
pub proof fn law_encoded_keys_ascend(entries: Seq<(Seq<u8>, Tree)>)
    requires
        Tree::Dict(entries).wf(),
    ensures
        ser_value(Tree::Dict(entries)) == seq![LETTER_D] + ser_entries(entries, 0) + seq![
            LETTER_E,
        ],
        parse_entries(ser_entries(entries, 0) + seq![LETTER_E], false, None) == Ok::<
            (Seq<(Seq<u8>, Tree)>, int),
            BencodeError,
        >((entries, (ser_entries(entries, 0).len() + 1) as int)),
        keys_ascending(entries),
{
    assert(entries_wf(entries)) by {
        reveal(entries_wf);
    }
    lemma_parse_entries_of_ser(entries, 0, Seq::empty(), false);
    assert(ser_entries(entries, 0) + seq![LETTER_E] + Seq::<u8>::empty() =~= ser_entries(
        entries,
        0,
    ) + seq![LETTER_E]);
    assert(entries.skip(0) =~= entries);
}

/// Every entry of `a` is an entry of `b`.
pub open spec fn entries_within(a: Seq<(Seq<u8>, Tree)>, b: Seq<(Seq<u8>, Tree)>) -> bool {
    forall|x: (Seq<u8>, Tree)| #[trigger] a.contains(x) ==> b.contains(x)
}

/// An entry of a dictionary is its last entry or has a key before the last
/// one.
proof fn lemma_last_is_largest(a: Seq<(Seq<u8>, Tree)>, i: int)
    requires
        keys_ascending(a),
        0 <= i < a.len(),
    ensures
        i == a.len() - 1 || lex_lt(a[i].0, a.last().0),
{
    if i < a.len() - 1 {
        assert(lex_lt(a[i].0, a[a.len() - 1].0));
    }
}

/// Where an entry of one dictionary stands in another that holds it.
proof fn lemma_find_entry(a: Seq<(Seq<u8>, Tree)>, b: Seq<(Seq<u8>, Tree)>, i: int) -> (j: int)
    requires
        entries_within(a, b),
        0 <= i < a.len(),
    ensures
        0 <= j < b.len(),
        b[j] == a[i],
{
    assert(a.contains(a[i]));
    assert(b.contains(a[i]));
    choose|j: int| 0 <= j < b.len() && b[j] == a[i]
}

/// Dictionaries with the same entries have the same last entry.
proof fn lemma_same_last(a: Seq<(Seq<u8>, Tree)>, b: Seq<(Seq<u8>, Tree)>)
    requires
        keys_ascending(a),
        keys_ascending(b),
        entries_within(a, b),
        entries_within(b, a),
        a.len() > 0,
    ensures
        b.len() > 0,
        a.last() == b.last(),
{
    let la = a[a.len() - 1];
    let jb = lemma_find_entry(a, b, a.len() - 1);
    let lb = b[b.len() - 1];
    let ja = lemma_find_entry(b, a, b.len() - 1);
    lemma_last_is_largest(b, jb);
    lemma_last_is_largest(a, ja);
    if jb < b.len() - 1 {
        if ja < a.len() - 1 {
            lemma_lex_asymmetric(la.0, lb.0);
        } else {
            lemma_lex_irreflexive(la.0);
        }
    }
}

/// Without their common last entry, the entries of one dictionary are still
/// among those of the other.
proof fn lemma_drop_last_within(a: Seq<(Seq<u8>, Tree)>, b: Seq<(Seq<u8>, Tree)>)
    requires
        keys_ascending(a),
        keys_ascending(b),
        entries_within(a, b),
        a.len() > 0,
        b.len() > 0,
        a.last() == b.last(),
    ensures
        keys_ascending(a.drop_last()),
        entries_within(a.drop_last(), b.drop_last()),
{
    let a0 = a.drop_last();
    let b0 = b.drop_last();
    assert forall|i: int, j: int| 0 <= i < j < a0.len() implies lex_lt(
        #[trigger] a0[i].0,
        #[trigger] a0[j].0,
    ) by {
        assert(a0[i] == a[i] && a0[j] == a[j]);
    }
    assert forall|x: (Seq<u8>, Tree)| #[trigger] a0.contains(x) implies b0.contains(x) by {
        let i = choose|i: int| 0 <= i < a0.len() && a0[i] == x;
        assert(a0[i] == a[i]);
        let j = lemma_find_entry(a, b, i);
        lemma_last_is_largest(a, i);
        if j == b.len() - 1 {
            lemma_lex_irreflexive(a.last().0);
        }
        assert(b0[j] == x);
    }
}

/// Two dictionaries with the same entries are the same dictionary, so that they
/// encode to the same bytes: with the keys in ascending order there is one way
/// only to hold a set of entries.
pub proof fn law_same_entries_same_encoding(a: Seq<(Seq<u8>, Tree)>, b: Seq<(Seq<u8>, Tree)>)
    requires
        keys_ascending(a),
        keys_ascending(b),
        entries_within(a, b),
        entries_within(b, a),
    ensures
        a == b,
        ser_value(Tree::Dict(a)) == ser_value(Tree::Dict(b)),
    decreases a.len(),
{
    if a.len() == 0 {
        if b.len() > 0 {
            let j = lemma_find_entry(b, a, 0);
        }
        assert(a =~= b);
    } else {
        lemma_same_last(a, b);
        lemma_drop_last_within(a, b);
        lemma_drop_last_within(b, a);
        law_same_entries_same_encoding(a.drop_last(), b.drop_last());
        assert(a =~= a.drop_last().push(a.last()));
        assert(b =~= b.drop_last().push(b.last()));
    }
}

} // verus!
