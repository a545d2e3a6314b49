//! Text made from bytes.
//!
//! Verified code composes text as ASCII bytes; the functions here turn bytes
//! into a `String`. Those that call std or another crate are not proved.

use crate::bencode::decimal::{dec_digits, is_digit, lemma_dec_digits_canonical, push_decimal};
use vstd::prelude::*;
use vstd::string::*;

verus! {

/// The text that a run of bytes decodes to as UTF-8, with the replacement
/// character in place of what is no UTF-8. The function is not defined here: it
/// stands for what `String::from_utf8_lossy` gives.
pub uninterp spec fn utf8_lossy(bytes: Seq<u8>) -> Seq<char>;

/// Every byte is below 128.
pub open spec fn is_ascii_bytes(bytes: Seq<u8>) -> bool {
    forall|i: int| 0 <= i < bytes.len() ==> #[trigger] bytes[i] < 128
}

/// ASCII bytes as characters.
pub open spec fn ascii_chars(bytes: Seq<u8>) -> Seq<char> {
    Seq::new(bytes.len(), |i: int| bytes[i] as char)
}

/// `String::from_utf8_lossy`: the text of `bytes`. Of ASCII bytes it is those
/// bytes as characters, since ASCII is valid UTF-8 of one byte per character.
#[verifier::external_body]
pub(crate) fn lossy_string(bytes: &[u8]) -> (s: String)
    ensures
        s@ == utf8_lossy(bytes@),
        is_ascii_bytes(bytes@) ==> s@ == ascii_chars(bytes@),
{
    String::from_utf8_lossy(bytes).into_owned()
}

/// The text of ASCII bytes.
pub fn ascii_string(bytes: &[u8]) -> (s: String)
    requires
        is_ascii_bytes(bytes@),
    ensures
        s@ == ascii_chars(bytes@),
{
    lossy_string(bytes)
}

/// The parts one after the other with `sep` between each two.
pub open spec fn join_with(parts: Seq<Seq<char>>, sep: Seq<char>) -> Seq<char>
    decreases parts.len(),
{
    if parts.len() == 0 {
        Seq::empty()
    } else if parts.len() == 1 {
        parts[0]
    } else {
        join_with(parts.drop_last(), sep) + sep + parts.last()
    }
}

/// The texts that the strings hold.
pub open spec fn texts(parts: Seq<String>) -> Seq<Seq<char>> {
    Seq::new(parts.len(), |i: int| parts[i]@)
}

/// `itertools::Itertools::join` over the strings of a vector: all of them in
/// order, with `sep` between each two. It sizes its result by the length of
/// `sep` times the number of strings, and a `String` of more than `isize::MAX`
/// bytes cannot be asked for.
#[verifier::external_body]
pub(crate) fn join_strings(parts: &Vec<String>, sep: &str) -> (s: String)
    requires
        is_ascii(sep),
        sep@.len() * parts@.len() <= isize::MAX,
    ensures
        s@ == join_with(texts(parts@), sep@),
{
    itertools::Itertools::join(&mut parts.iter(), sep)
}

/// ASCII bytes put together are ASCII bytes, and their text is the texts put
/// together.
pub proof fn lemma_ascii_concat(a: Seq<u8>, b: Seq<u8>)
    requires
        is_ascii_bytes(a),
        is_ascii_bytes(b),
    ensures
        is_ascii_bytes(a + b),
        ascii_chars(a + b) == ascii_chars(a) + ascii_chars(b),
{
    assert forall|i: int| 0 <= i < (a + b).len() implies #[trigger] (a + b)[i] < 128 by {
        if i < a.len() {
            assert((a + b)[i] == a[i]);
        } else {
            assert((a + b)[i] == b[i - a.len()]);
        }
    }
    assert(ascii_chars(a + b) =~= ascii_chars(a) + ascii_chars(b));
}

/// A decimal numeral is made of ASCII bytes.
pub proof fn lemma_digits_ascii(n: nat)
    ensures
        is_ascii_bytes(dec_digits(n)),
{
    lemma_dec_digits_canonical(n);
    let d = dec_digits(n);
    assert forall|i: int| 0 <= i < d.len() implies #[trigger] d[i] < 128 by {
        assert(is_digit(d[i]));
    }
}

/// The decimal numeral of `n` as text.
pub fn decimal_string(n: u64) -> (s: String)
    ensures
        s@ == ascii_chars(dec_digits(n as nat)),
{
    let mut digits: Vec<u8> = Vec::new();
    push_decimal(&mut digits, n);
    proof {
        lemma_digits_ascii(n as nat);
        assert(digits@ =~= dec_digits(n as nat));
    }
    ascii_string(digits.as_slice())
}

} // verus!
