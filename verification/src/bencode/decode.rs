//! The decoder: from bytes to a value tree.

use crate::bencode::decimal::{scan_decimal, DIGIT_ZERO};
use crate::bencode::grammar::{
    parse_all, parse_bytes, parse_entries, parse_integer, parse_items, parse_value, BencodeError,
    COLON, LETTER_D, LETTER_E, LETTER_I, LETTER_L, MINUS,
};
use crate::bencode::laws::lemma_parse_value_wf;
use crate::bencode::order::bytes_lt;
use crate::bencode::value::{
    dict_insert, entries_view, items_view, lemma_dict_view, lemma_insert_entry_appends,
    lemma_list_view, sorted_entries, Bencode, Tree,
};
use vstd::prelude::*;
use vstd::slice::{slice_subrange, slice_to_vec};

verus! {

/// Splits `content` at the first byte equal to `ch`: what stands before it and
/// what stands after it. `None` when no byte is equal to `ch`.
pub fn split_once(content: &[u8], ch: u8) -> (r: Option<(&[u8], &[u8])>)
    ensures
        match r {
            Some((head, tail)) => content@ == head@ + seq![ch] + tail@ && !head@.contains(ch),
            None => !content@.contains(ch),
        },
{
    let mut p: usize = 0;
    while p < content.len()
        invariant
            p <= content@.len(),
            forall|j: int| 0 <= j < p ==> content@[j] != ch,
        decreases content@.len() - p,
    {
        if content[p] == ch {
            let head = slice_subrange(content, 0, p);
            let tail = slice_subrange(content, p + 1, content.len());
            assert(content@ =~= head@ + seq![ch] + tail@);
            return Some((head, tail));
        }
        p += 1;
    }
    None
}

/// A list result with `prefix` put before its values and `used` added to what it
/// took.
spec fn then_items(
    prefix: Seq<Tree>,
    used: int,
    r: Result<(Seq<Tree>, int), BencodeError>,
) -> Result<(Seq<Tree>, int), BencodeError> {
    match r {
        Err(e) => Err(e),
        Ok((rest, m)) => Ok((prefix + rest, used + m)),
    }
}

/// A dictionary result with `prefix` put before its entries and `used` added to
/// what it took.
spec fn then_entries(
    prefix: Seq<(Seq<u8>, Tree)>,
    used: int,
    r: Result<(Seq<(Seq<u8>, Tree)>, int), BencodeError>,
) -> Result<(Seq<(Seq<u8>, Tree)>, int), BencodeError> {
    match r {
        Err(e) => Err(e),
        Ok((rest, m)) => Ok((prefix + rest, used + m)),
    }
}

/// The key of the last entry, if there is one.
spec fn last_key(raw: Seq<(Seq<u8>, Tree)>) -> Option<Seq<u8>> {
    if raw.len() == 0 {
        None
    } else {
        Some(raw.last().0)
    }
}

/// Decodes the byte string that starts at `pos`. Gives the bytes and the index
/// just behind them.
fn decode_bytes(input: &[u8], pos: usize, strict: bool) -> (r: Result<
    (Vec<u8>, usize),
    BencodeError,
>)
    requires
        pos <= input@.len(),
    ensures
        r matches Ok((b, end)) ==> pos < end <= input@.len() && parse_bytes(
            input@.skip(pos as int),
            strict,
        ) == Ok::<(Seq<u8>, int), BencodeError>((b@, end - pos)),
        r matches Err(e) ==> parse_bytes(input@.skip(pos as int), strict) == Err::<
            (Seq<u8>, int),
            BencodeError,
        >(e),
{
    let ghost s = input@.skip(pos as int);
    let len = input.len();
    if pos >= len {
        return Err(BencodeError::UnexpectedEof);
    }
    let num = scan_decimal(input, pos, len as u64);
    if num.end == pos {
        return Err(BencodeError::BadPrefix);
    }
    if num.end >= len {
        return Err(BencodeError::UnexpectedEof);
    }
    let ghost k = num.end - pos;
    assert(s[k] == input@[num.end as int]);
    assert(s[0] == input@[pos as int]);
    assert(s.subrange(0, k) =~= input@.subrange(pos as int, num.end as int));
    if input[num.end] != COLON {
        return Err(BencodeError::BadLength);
    }
    if strict && num.end - pos > 1 && input[pos] == DIGIT_ZERO {
        return Err(BencodeError::BadLength);
    }
    match num.value {
        None => Err(BencodeError::UnexpectedEof),
        Some(n) => {
            let start = num.end + 1;
            if n > (len - start) as u64 {
                return Err(BencodeError::UnexpectedEof);
            }
            let end = start + n as usize;
            let b = slice_to_vec(slice_subrange(input, start, end));
            assert(b@ =~= s.subrange(k + 1, k + 1 + n));
            Ok((b, end))
        },
    }
}

/// Decodes the integer that starts with the `i` at `pos`. Gives the integer and
/// the index just behind its `e`.
fn decode_integer(input: &[u8], pos: usize) -> (r: Result<(i64, usize), BencodeError>)
    requires
        pos < input@.len(),
        input@[pos as int] == LETTER_I,
    ensures
        r matches Ok((i, end)) ==> pos < end <= input@.len() && parse_integer(
            input@.skip(pos as int),
        ) == Ok::<(i64, int), BencodeError>((i, end - pos)),
        r matches Err(e) ==> parse_integer(input@.skip(pos as int)) == Err::<
            (i64, int),
            BencodeError,
        >(e),
{
    let ghost s = input@.skip(pos as int);
    let len = input.len();
    assert(s[0] == input@[pos as int]);
    if len - pos == 1 {
        return Err(BencodeError::UnexpectedEof);
    }
    assert(s[1] == input@[pos + 1]);
    let negative = input[pos + 1] == MINUS;
    let start: usize = if negative { pos + 2 } else { pos + 1 };
    let ghost p = start - pos;
    let num = scan_decimal(input, start, 0x8000_0000_0000_0000);
    let ghost k = num.end - start;
    assert(s.skip(p) =~= input@.skip(start as int));
    assert(s.subrange(p, p + k) =~= input@.subrange(start as int, num.end as int));
    if num.end >= len {
        return Err(BencodeError::UnexpectedEof);
    }
    assert(s[p + k] == input@[num.end as int]);
    if input[num.end] != LETTER_E {
        return Err(BencodeError::BadInteger);
    }
    if num.end == start {
        return Err(BencodeError::BadInteger);
    }
    assert(s[p] == input@[start as int]);
    if num.end - start > 1 && input[start] == DIGIT_ZERO {
        return Err(BencodeError::BadInteger);
    }
    match num.value {
        None => Err(BencodeError::BadInteger),
        Some(m) => {
            if negative {
                if m == 0 {
                    Err(BencodeError::BadInteger)
                } else if m == 0x8000_0000_0000_0000 {
                    Ok((i64::MIN, num.end + 1))
                } else {
                    Ok((-(m as i64), num.end + 1))
                }
            } else if m > 0x7fff_ffff_ffff_ffff {
                Err(BencodeError::BadInteger)
            } else {
                Ok((m as i64, num.end + 1))
            }
        },
    }
}

/// Decodes the value that starts at `pos`. Gives the value and the index just
/// behind it.
pub fn decode_at(input: &[u8], pos: usize, strict: bool) -> (r: Result<
    (Bencode, usize),
    BencodeError,
>)
    requires
        pos <= input@.len(),
    ensures
        r matches Ok((v, end)) ==> pos < end <= input@.len() && v@.wf() && parse_value(
            input@.skip(pos as int),
            strict,
        ) == Ok::<(Tree, int), BencodeError>((v@, end - pos)),
        r matches Err(e) ==> parse_value(input@.skip(pos as int), strict) == Err::<
            (Tree, int),
            BencodeError,
        >(e),
    decreases input@.len() - pos,
{
    let ghost s = input@.skip(pos as int);
    proof {
        lemma_parse_value_wf(s, strict);
    }
    let len = input.len();
    if pos >= len {
        return Err(BencodeError::UnexpectedEof);
    }
    assert(s[0] == input@[pos as int]);
    let first = input[pos];
    if first >= 48 && first <= 57 {
        match decode_bytes(input, pos, strict) {
            Ok((b, end)) => Ok((Bencode::Byte(b), end)),
            Err(e) => Err(e),
        }
    } else if first == LETTER_I {
        match decode_integer(input, pos) {
            Ok((i, end)) => Ok((Bencode::Integer(i), end)),
            Err(e) => Err(e),
        }
    } else if first == LETTER_L {
        let mut items: Vec<Bencode> = Vec::new();
        let mut p: usize = pos + 1;
        assert(s.skip(1) =~= input@.skip(pos + 1));
        assert(items_view(items@) + Seq::<Tree>::empty() =~= Seq::<Tree>::empty());
        loop
            invariant
                pos < p <= input@.len(),
                len == input@.len(),
                input@[pos as int] == LETTER_L,
                parse_items(input@.skip(pos + 1), strict) == then_items(
                    items_view(items@),
                    p - (pos + 1),
                    parse_items(input@.skip(p as int), strict),
                ),
            decreases input@.len() - p,
        {
            let ghost t = input@.skip(p as int);
            assert(input@.skip(pos as int)[0] == input@[pos as int]);
            assert(input@.skip(pos as int).skip(1) =~= input@.skip(pos + 1));
            if p >= len {
                return Err(BencodeError::UnexpectedEof);
            }
            assert(t[0] == input@[p as int]);
            if input[p] == LETTER_E {
                assert(items_view(items@) + Seq::<Tree>::empty() =~= items_view(items@));
                proof {
                    lemma_list_view(items);
                    lemma_parse_value_wf(input@.skip(pos as int), strict);
                }
                return Ok((Bencode::List(items), p + 1));
            }
            match decode_at(input, p, strict) {
                Err(e) => {
                    return Err(e);
                },
                Ok((v, end)) => {
                    assert(t.skip(end - p) =~= input@.skip(end as int));
                    let ghost before = items_view(items@);
                    items.push(v);
                    assert(items_view(items@) =~= before + seq![v@]);
                    proof {
                        let rest = parse_items(input@.skip(end as int), strict);
                        if let Ok((tail, m)) = rest {
                            assert(before + (seq![v@] + tail) =~= (before + seq![v@]) + tail);
                        }
                    }
                    p = end;
                },
            }
        }
    } else if first == LETTER_D {
        let mut entries: Vec<(Vec<u8>, Bencode)> = Vec::new();
        let ghost mut raw: Seq<(Seq<u8>, Tree)> = Seq::empty();
        let mut p: usize = pos + 1;
        assert(s.skip(1) =~= input@.skip(pos + 1));
        assert(entries_view(entries@) =~= sorted_entries(raw));
        loop
            invariant
                pos < p <= input@.len(),
                len == input@.len(),
                input@[pos as int] == LETTER_D,
                entries_view(entries@) == sorted_entries(raw),
                strict ==> entries_view(entries@) == raw,
                parse_entries(input@.skip(pos + 1), strict, None) == then_entries(
                    raw,
                    p - (pos + 1),
                    parse_entries(input@.skip(p as int), strict, last_key(raw)),
                ),
            decreases input@.len() - p,
        {
            let ghost t = input@.skip(p as int);
            assert(input@.skip(pos as int)[0] == input@[pos as int]);
            assert(input@.skip(pos as int).skip(1) =~= input@.skip(pos + 1));
            if p >= len {
                return Err(BencodeError::UnexpectedEof);
            }
            assert(t[0] == input@[p as int]);
            if input[p] == LETTER_E {
                assert(raw + Seq::<(Seq<u8>, Tree)>::empty() =~= raw);
                proof {
                    lemma_dict_view(entries);
                    lemma_parse_value_wf(input@.skip(pos as int), strict);
                }
                return Ok((Bencode::Dict(entries), p + 1));
            }
            let (key, after_key) = match decode_bytes(input, p, strict) {
                Err(e) => {
                    return Err(e);
                },
                Ok(found) => found,
            };
            if strict && entries.len() > 0 {
                assert(entries_view(entries@).last().0 == entries@[entries@.len() - 1].0@);
                if !bytes_lt(entries[entries.len() - 1].0.as_slice(), key.as_slice()) {
                    return Err(BencodeError::NonLexicographicKeys);
                }
            }
            assert(t.skip(after_key - p) =~= input@.skip(after_key as int));
            match decode_at(input, after_key, strict) {
                Err(e) => {
                    return Err(e);
                },
                Ok((v, end)) => {
                    assert(t.skip(end - p) =~= input@.skip(end as int));
                    proof {
                        let rest = parse_entries(input@.skip(end as int), strict, Some(key@));
                        if let Ok((tail, m)) = rest {
                            assert(raw + (seq![(key@, v@)] + tail) =~= raw.push((key@, v@)) + tail);
                        }
                        assert(raw.push((key@, v@)).drop_last() =~= raw);
                        if strict {
                            lemma_insert_entry_appends(raw, key@, v@);
                        }
                        raw = raw.push((key@, v@));
                    }
                    dict_insert(&mut entries, key, v);
                    p = end;
                },
            }
        }
    } else {
        Err(BencodeError::BadPrefix)
    }
}

/// Decodes the value at the start of `encoded_value`, whatever the order of the
/// keys in its dictionaries. Gives the value and the bytes that follow it.
pub fn decode(encoded_value: &[u8]) -> (r: Result<(Bencode, &[u8]), BencodeError>)
    ensures
        match r {
            Ok((v, rest)) => v@.wf() && exists|n: int|
                0 < n <= encoded_value@.len() && parse_value(encoded_value@, false) == Ok::<
                    (Tree, int),
                    BencodeError,
                >((v@, n)) && rest@ == encoded_value@.skip(n),
            Err(e) => parse_value(encoded_value@, false) == Err::<(Tree, int), BencodeError>(e),
        },
{
    decode_with(encoded_value, false)
}

/// Decodes the value at the start of `input`. In strict mode only the canonical
/// encoding is accepted: dictionary keys in strictly ascending order and no
/// leading zero in a length.
pub fn decode_with(input: &[u8], strict: bool) -> (r: Result<(Bencode, &[u8]), BencodeError>)
    ensures
        match r {
            Ok((v, rest)) => v@.wf() && exists|n: int|
                0 < n <= input@.len() && parse_value(input@, strict) == Ok::<
                    (Tree, int),
                    BencodeError,
                >((v@, n)) && rest@ == input@.skip(n),
            Err(e) => parse_value(input@, strict) == Err::<(Tree, int), BencodeError>(e),
        },
{
    assert(input@.skip(0) =~= input@);
    match decode_at(input, 0, strict) {
        Err(e) => Err(e),
        Ok((v, end)) => {
            let rest = slice_subrange(input, end, input.len());
            assert(rest@ =~= input@.skip(end as int));
            Ok((v, rest))
        },
    }
}

/// Decodes `input` as one value; bytes behind the value are an error.
pub fn decode_all(input: &[u8], strict: bool) -> (r: Result<Bencode, BencodeError>)
    ensures
        match r {
            Ok(v) => v@.wf() && parse_all(input@, strict) == Ok::<Tree, BencodeError>(v@),
            Err(e) => parse_all(input@, strict) == Err::<Tree, BencodeError>(e),
        },
{
    assert(input@.skip(0) =~= input@);
    match decode_at(input, 0, strict) {
        Err(e) => Err(e),
        Ok((v, end)) => {
            if end == input.len() {
                Ok(v)
            } else {
                Err(BencodeError::TrailingData)
            }
        },
    }
}

} // verus!
