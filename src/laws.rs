//! What holds of encoding and decoding together.

use crate::decode::{
    candidate_lists, cartesian, decoded, lemma_cartesian_empty, lemma_cartesian_has,
    lemma_texts_has, text_of_tuple, texts_of,
};
use crate::encode::is_encoding;
use crate::numeral::{
    be_value, decimal, digits_value, lemma_be_round, lemma_chunks_rendered, lemma_decimal_digits,
    lemma_decimal_value, lemma_leading_zeros, pad_len, padded, positions, rendered,
};
use crate::table::{
    complete, lemma_matrix_from, lemma_positions_has, matrix_after, positions_after, Tables,
    POSITIONS,
};
use vstd::prelude::*;
use vstd::utf8::{encode_scalar, encode_utf8, encode_utf8_decode_utf8, encode_utf8_valid_utf8};

verus! {

/// Decoding any encoding of a non-empty text yields that text among its
/// candidates, provided the text's bytes do not open with a zero byte
/// followed by more bytes (such a leading zero byte leaves no trace in the
/// number that the bytes are read as).
pub proof fn law_round_trip(tables: Tables, s: Seq<char>, e: Seq<char>)
    requires
        tables.wf(),
        s.len() > 0,
        encode_utf8(s).len() == 1 || encode_utf8(s)[0] != 0,
        is_encoding(tables.scanned(), encode_utf8(s), e),
    ensures
        decoded(tables.scanned(), e).contains(s),
{
    let pairs = tables.scanned();
    tables.lemma_wf();
    let b = encode_utf8(s);
    assert(encode_scalar(s[0] as u32).len() > 0);
    assert(b.len() > 0);
    let d = decimal(be_value(b));
    lemma_decimal_digits(be_value(b));
    let p = padded(d);
    let m = p.len() / 3;
    assert(p.len() == 3 * m);
    assert forall|i: int| 0 <= i < p.len() implies crate::numeral::is_digit(#[trigger] p[i]) by {
        if i >= pad_len(d.len()) {
            assert(p[i] == d[i - pad_len(d.len())]);
        }
    }
    lemma_chunks_rendered(p, m);
    let t = Seq::new(m, |i: int| digits_value(p.subrange(3 * i, 3 * i + 3)) as u16);
    let lists = candidate_lists(pairs, e);
    assert(e.len() == m);
    assert forall|i: int| 0 <= i < t.len() implies #[trigger] lists[i].contains(t[i]) by {
        let q = positions(b)[i];
        assert(q == digits_value(p.subrange(3 * i, 3 * i + 3)));
        assert(matrix_after(pairs)[q as int].contains(e[i]));
        lemma_matrix_from(pairs, q as int, e[i]);
        let j = choose|j: int| 0 <= j < pairs.len() && pairs[j] == (q as u16, e[i]);
        lemma_positions_has(pairs, j);
    }
    lemma_cartesian_has(lists, t);
    let k = choose|k: int| 0 <= k < cartesian(lists).len() && cartesian(lists)[k] == t;
    lemma_leading_zeros(pad_len(d.len()), d);
    lemma_decimal_value(be_value(b));
    lemma_be_round(b);
    encode_utf8_valid_utf8(s);
    encode_utf8_decode_utf8(s);
    assert(t.len() > 0);
    assert(digits_value(rendered(t)) == be_value(b));
    assert(text_of_tuple(t) == Some(s));
    lemma_texts_has(cartesian(lists), k, s);
}

/// The empty text encodes to the empty text and decodes to the empty text
/// alone.
pub proof fn law_empty(tables: Tables, e: Seq<char>)
    ensures
        is_encoding(tables.scanned(), Seq::empty(), e) <==> e.len() == 0,
        decoded(tables.scanned(), Seq::empty()) == seq![Seq::<char>::empty()],
{
    let lists = candidate_lists(tables.scanned(), Seq::empty());
    assert(lists =~= Seq::<Seq<u16>>::empty());
    assert(cartesian(lists) == seq![Seq::<u16>::empty()]);
    assert(cartesian(lists).drop_first() =~= Seq::<Seq<u16>>::empty());
    let ts = cartesian(lists);
    assert(ts[0] == Seq::<u16>::empty());
    assert(text_of_tuple(ts[0]) == Some(Seq::<char>::empty()));
    assert(texts_of(ts.drop_first()) == Seq::<Seq<char>>::empty());
    assert(texts_of(ts) =~= seq![Seq::<char>::empty()]);
}

/// Whole tables have every position, each with at least one character.
pub proof fn law_complete(tables: Tables)
    requires
        tables.wf(),
    ensures
        matrix_after(tables.scanned()).len() == POSITIONS,
        complete(matrix_after(tables.scanned())),
{
    tables.lemma_wf();
}

/// A non-empty text made only of characters that the corpus does not hold
/// decodes to no text at all.
pub proof fn law_absent_characters(tables: Tables, text: Seq<char>)
    requires
        text.len() > 0,
        forall|i: int, j: int|
            0 <= i < text.len() && 0 <= j < tables.scanned().len() ==> #[trigger] tables.scanned()[j].1
                != #[trigger] text[i],
    ensures
        decoded(tables.scanned(), text).len() == 0,
{
    let pairs = tables.scanned();
    let lists = candidate_lists(pairs, text);
    if positions_after(pairs, text[0]).len() > 0 {
        let q = positions_after(pairs, text[0])[0];
        lemma_positions_from(pairs, text[0], q);
        let j = choose|j: int| 0 <= j < pairs.len() && pairs[j] == (q, text[0]);
        assert(pairs[j].1 != text[0]);
    }
    lemma_cartesian_empty(lists, 0);
}

/// A position of a character was scanned with that character.
proof fn lemma_positions_from(pairs: Seq<(u16, char)>, c: char, q: u16)
    requires
        positions_after(pairs, c).contains(q),
    ensures
        exists|j: int| 0 <= j < pairs.len() && pairs[j] == (q, c),
    decreases pairs.len(),
{
    if pairs.len() > 0 {
        let rest = pairs.drop_last();
        if positions_after(rest, c).contains(q) {
            lemma_positions_from(rest, c, q);
            let j = choose|j: int| 0 <= j < rest.len() && rest[j] == (q, c);
            assert(pairs[j] == rest[j]);
        } else {
            let r = positions_after(rest, c);
            let k = choose|k: int| 0 <= k < r.push(q).len() && positions_after(pairs, c)[k] == q;
            assert(pairs[pairs.len() - 1] == (q, c));
        }
    }
}

/// A number whose numeral already has a multiple of three digits gets no
/// leading zeros: its encodings have one character per three digits.
pub proof fn law_aligned_padding(tables: Tables, b: Seq<u8>, e: Seq<char>)
    requires
        b.len() > 0,
        decimal(be_value(b)).len() % 3 == 0,
        is_encoding(tables.scanned(), b, e),
    ensures
        padded(decimal(be_value(b))) == decimal(be_value(b)),
        3 * e.len() == decimal(be_value(b)).len(),
{
    let d = decimal(be_value(b));
    assert(pad_len(d.len()) == 0);
    assert(padded(d) =~= d);
}

} // verus!
