//! Encoding: bytes to characters of the corpus.

use crate::numeral::{chunk_positions, positions};
use crate::table::{complete, matrix_after, Tables, POSITIONS};
use rand::rngs::StdRng;
use rand::{Rng, SeedableRng};
use vstd::prelude::*;
use vstd::utf8::encode_utf8;

verus! {

/// rand's standard generator, carried through as an opaque value.
#[verifier::external_type_specification]
#[verifier::external_body]
pub struct ExStdRng(StdRng);

/// Relies on `Rng::random_range` over `..n`: a number below `n`, drawn
/// uniformly; it panics on an empty range.
#[verifier::external_body]
fn draw_below(rng: &mut StdRng, n: usize) -> (r: usize)
    requires
        n > 0,
    ensures
        r < n,
{
    rng.random_range(..n)
}

/// Relies on `SeedableRng::from_os_rng`: a generator seeded by the
/// operating system (which panics where the system has no randomness to give).
#[verifier::external_body]
fn os_seeded_rng() -> StdRng {
    StdRng::from_os_rng()
}

/// Relies on `String`'s `FromIterator<char>`: the characters, in order.
#[verifier::external_body]
fn text_of(chars: &Vec<char>) -> (r: String)
    ensures
        r@ == chars@,
{
    chars.iter().collect()
}

/// Whether `e` is one of the encodings of the bytes `b` under the matrix
/// of `pairs`: nothing for no bytes, else one character per position that
/// `b` stands for, taken from the characters seen there.
pub open spec fn is_encoding(pairs: Seq<(u16, char)>, b: Seq<u8>, e: Seq<char>) -> bool {
    if b.len() == 0 {
        e.len() == 0
    } else {
        &&& e.len() == positions(b).len()
        &&& forall|i: int|
            0 <= i < e.len() ==> matrix_after(pairs)[positions(b)[i] as int].contains(
                #[trigger] e[i],
            )
    }
}

/// Encodes the bytes of `text`, choosing among the characters of each
/// position with `rng`.
pub fn encode_with_rng(tables: &Tables, text: String, rng: &mut StdRng) -> (r: String)
    requires
        tables.wf(),
    ensures
        is_encoding(tables.scanned(), encode_utf8(text@), r@),
{
    let bytes = text.as_str().as_bytes();
    if bytes.len() == 0 {
        return String::new();
    }
    let matrix = tables.matrix();
    let places = chunk_positions(bytes);
    let mut out: Vec<char> = Vec::new();
    let mut i: usize = 0;
    while i < places.len()
        invariant
            i <= places@.len(),
            places@.len() == positions(bytes@).len(),
            forall|q: int|
                0 <= q < places@.len() ==> places@[q] as nat == #[trigger] positions(bytes@)[q],
            forall|q: int| 0 <= q < places@.len() ==> #[trigger] places@[q] < 1000,
            matrix@.len() == POSITIONS,
            forall|p: int|
                0 <= p < POSITIONS ==> (#[trigger] matrix@[p])@ == matrix_after(
                    tables.scanned(),
                )[p],
            complete(matrix_after(tables.scanned())),
            out@.len() == i,
            forall|q: int|
                0 <= q < i ==> matrix_after(tables.scanned())[positions(bytes@)[q] as int].contains(
                    #[trigger] out@[q],
                ),
        decreases places.len() - i,
    {
        let p = places[i] as usize;
        let row = &matrix[p];
        assert(row@.len() > 0);
        let k = draw_below(rng, row.len());
        out.push(row[k]);
        assert(matrix_after(tables.scanned())[p as int][k as int] == out@[i as int]);
        i = i + 1;
    }
    text_of(&out)
}

/// Encodes the bytes of `text`, choosing among the characters of each
/// position at random.
pub fn encode(tables: &Tables, text: String) -> (r: String)
    requires
        tables.wf(),
    ensures
        is_encoding(tables.scanned(), encode_utf8(text@), r@),
{
    let mut rng = os_seeded_rng();
    encode_with_rng(tables, text, &mut rng)
}

} // verus!
