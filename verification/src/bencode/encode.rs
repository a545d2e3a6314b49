//! The encoder: from a value tree to its canonical bytes.

use crate::bencode::decimal::push_decimal;
use crate::bencode::grammar::{
    ser_bytes, ser_entries, ser_integer, ser_items, ser_value, COLON, LETTER_D, LETTER_E,
    LETTER_I, LETTER_L, MINUS,
};
use crate::bencode::order::{bytes_lt, lemma_lex_transitive, lex_lt};
use crate::bencode::value::{
    entries_view, items_view, keys_ascending, lemma_dict_view, lemma_list_view, Bencode, Tree,
};
use vstd::prelude::*;

verus! {

/// Appends the bytes of `b` to `out`.
pub fn append_bytes(out: &mut Vec<u8>, b: &[u8])
    ensures
        final(out)@ == old(out)@ + b@,
{
    let mut i: usize = 0;
    while i < b.len()
        invariant
            i <= b@.len(),
            out@ == old(out)@ + b@.subrange(0, i as int),
        decreases b@.len() - i,
    {
        out.push(b[i]);
        assert(out@ =~= old(out)@ + b@.subrange(0, i + 1));
        i += 1;
    }
    assert(b@.subrange(0, i as int) =~= b@);
}

/// Appends the encoding of the byte string `b` to `out`.
pub fn encode_bytes_into(b: &[u8], out: &mut Vec<u8>)
    ensures
        final(out)@ == old(out)@ + ser_bytes(b@),
{
    push_decimal(out, b.len() as u64);
    out.push(COLON);
    append_bytes(out, b);
    assert(out@ =~= old(out)@ + ser_bytes(b@));
}

/// Appends the encoding of the integer `i` to `out`.
pub fn encode_integer_into(i: i64, out: &mut Vec<u8>)
    ensures
        final(out)@ == old(out)@ + ser_integer(i),
{
    out.push(LETTER_I);
    if i < 0 {
        out.push(MINUS);
        let magnitude: u64 = if i == i64::MIN {
            0x8000_0000_0000_0000
        } else {
            (-i) as u64
        };
        push_decimal(out, magnitude);
    } else {
        push_decimal(out, i as u64);
    }
    out.push(LETTER_E);
    assert(out@ =~= old(out)@ + ser_integer(i));
}

/// Appends the encoding of `value` to `out`.
#[verifier::loop_isolation(false)]
pub fn encode_into(value: &Bencode, out: &mut Vec<u8>)
    ensures
        final(out)@ == old(out)@ + ser_value(value@),
    decreases value,
{
    match value {
        Bencode::Byte(b) => {
            encode_bytes_into(b.as_slice(), out);
        },
        Bencode::Integer(i) => {
            encode_integer_into(*i, out);
        },
        Bencode::List(items) => {
            proof {
                lemma_list_view(*items);
            }
            let ghost models = items_view(items@);
            out.push(LETTER_L);
            let mut k: usize = 0;
            while k < items.len()
                invariant
                    k <= items@.len(),
                    models == items_view(items@),
                    out@ + ser_items(models, k as int) == old(out)@ + seq![LETTER_L] + ser_items(
                        models,
                        0,
                    ),
                decreases items@.len() - k,
            {
                let ghost before = out@;
                encode_into(&items[k], out);
                assert(models[k as int] == items@[k as int]@);
                assert(out@ + ser_items(models, k + 1) =~= before + ser_items(models, k as int));
                k += 1;
            }
            out.push(LETTER_E);
            assert(ser_items(models, k as int) =~= Seq::<u8>::empty());
            assert(out@ =~= old(out)@ + ser_value(value@));
        },
        Bencode::Dict(entries) => {
            proof {
                lemma_dict_view(*entries);
            }
            let ghost models = entries_view(entries@);
            out.push(LETTER_D);
            let mut k: usize = 0;
            while k < entries.len()
                invariant
                    k <= entries@.len(),
                    models == entries_view(entries@),
                    out@ + ser_entries(models, k as int) == old(out)@ + seq![LETTER_D]
                        + ser_entries(models, 0),
                decreases entries@.len() - k,
            {
                let ghost before = out@;
                encode_bytes_into(entries[k].0.as_slice(), out);
                encode_into(&entries[k].1, out);
                assert(models[k as int] == (entries@[k as int].0@, entries@[k as int].1@));
                assert(out@ + ser_entries(models, k + 1) =~= before + ser_entries(
                    models,
                    k as int,
                ));
                k += 1;
            }
            out.push(LETTER_E);
            assert(ser_entries(models, k as int) =~= Seq::<u8>::empty());
            assert(out@ =~= old(out)@ + ser_value(value@));
        },
    }
}

/// The canonical encoding of a well-formed value.
pub fn encode(value: &Bencode) -> (out: Vec<u8>)
    requires
        value@.wf(),
    ensures
        out@ == ser_value(value@),
{
    let mut out: Vec<u8> = Vec::new();
    encode_into(value, &mut out);
    assert(out@ =~= ser_value(value@));
    out
}

/// Keys of which each comes before the next are in ascending order.
pub proof fn lemma_neighbours_ascending(entries: Seq<(Seq<u8>, Tree)>)
    requires
        forall|i: int|
            0 <= i < entries.len() - 1 ==> lex_lt(#[trigger] entries[i].0, entries[i + 1].0),
    ensures
        keys_ascending(entries),
{
    assert forall|i: int, j: int| 0 <= i < j < entries.len() implies lex_lt(
        #[trigger] entries[i].0,
        #[trigger] entries[j].0,
    ) by {
        lemma_step_ascending(entries, i, j);
    }
}

proof fn lemma_step_ascending(entries: Seq<(Seq<u8>, Tree)>, i: int, j: int)
    requires
        forall|i: int|
            0 <= i < entries.len() - 1 ==> lex_lt(#[trigger] entries[i].0, entries[i + 1].0),
        0 <= i < j < entries.len(),
    ensures
        lex_lt(entries[i].0, entries[j].0),
    decreases j - i,
{
    if j > i + 1 {
        lemma_step_ascending(entries, i, j - 1);
        assert(lex_lt(entries[j - 1].0, entries[j - 1 + 1].0));
        lemma_lex_transitive(entries[i].0, entries[j - 1].0, entries[j].0);
    }
}

/// Whether the value is well-formed, that is, whether `encode` may be called on
/// it.
#[verifier::loop_isolation(false)]
pub fn is_well_formed(value: &Bencode) -> (r: bool)
    ensures
        r == value@.wf(),
    decreases value,
{
    match value {
        Bencode::Byte(_) => true,
        Bencode::Integer(_) => true,
        Bencode::List(items) => {
            proof {
                lemma_list_view(*items);
            }
            let ghost models = items_view(items@);
            let mut k: usize = 0;
            while k < items.len()
                invariant
                    k <= items@.len(),
                    models == items_view(items@),
                    forall|i: int| 0 <= i < k ==> (#[trigger] models[i]).wf(),
                decreases items@.len() - k,
            {
                if !is_well_formed(&items[k]) {
                    assert(models[k as int] == items@[k as int]@);
                    assert(!models[k as int].wf());
                    assert(value@->List_0 == models);
                    return false;
                }
                k += 1;
            }
            assert(value@->List_0 == models);
            true
        },
        Bencode::Dict(entries) => {
            proof {
                lemma_dict_view(*entries);
            }
            let ghost models = entries_view(entries@);
            let mut k: usize = 0;
            while k < entries.len()
                invariant
                    k <= entries@.len(),
                    models == entries_view(entries@),
                    forall|i: int| 0 <= i < k ==> (#[trigger] models[i]).1.wf(),
                    forall|i: int|
                        0 <= i < k - 1 ==> lex_lt(#[trigger] models[i].0, models[i + 1].0),
                decreases entries@.len() - k,
            {
                if k > 0 && !bytes_lt(entries[k - 1].0.as_slice(), entries[k].0.as_slice()) {
                    assert(!lex_lt(models[k - 1].0, models[k as int].0));
                    return false;
                }
                if !is_well_formed(&entries[k].1) {
                    assert(!models[k as int].1.wf());
                    return false;
                }
                k += 1;
            }
            proof {
                lemma_neighbours_ascending(models);
            }
            true
        },
    }
}

} // verus!
