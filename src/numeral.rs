//! Big-endian byte strings, decimal numerals and three-digit chunks.

use num_bigint::{BigInt, Sign};
use vstd::prelude::*;

verus! {

/// The value of `b` read as an unsigned big-endian base-256 numeral.
pub open spec fn be_value(b: Seq<u8>) -> nat
    decreases b.len(),
{
    if b.len() == 0 {
        0
    } else {
        be_value(b.drop_last()) * 256 + b.last() as nat
    }
}

/// The shortest big-endian byte string of `n` (one zero byte for zero).
pub open spec fn be_bytes(n: nat) -> Seq<u8>
    decreases n,
{
    if n < 256 {
        seq![n as u8]
    } else {
        be_bytes(n / 256).push((n % 256) as u8)
    }
}

/// The ASCII digit of `d`, for `d < 10`.
pub open spec fn digit(d: nat) -> u8 {
    (d + 0x30) as u8
}

pub open spec fn is_digit(b: u8) -> bool {
    0x30 <= b <= 0x39
}

/// The decimal numeral of `n`, without leading zeros ("0" for zero).
pub open spec fn decimal(n: nat) -> Seq<u8>
    decreases n,
{
    if n < 10 {
        seq![digit(n)]
    } else {
        decimal(n / 10).push(digit(n % 10))
    }
}

/// The value of a string of ASCII digits.
pub open spec fn digits_value(d: Seq<u8>) -> nat
    decreases d.len(),
{
    if d.len() == 0 {
        0
    } else {
        digits_value(d.drop_last()) * 10 + (d.last() - 0x30) as nat
    }
}

/// How many zeros bring a numeral of `len` digits to a multiple of three.
pub open spec fn pad_len(len: nat) -> nat {
    ((3 - len % 3) % 3) as nat
}

/// `d` with leading zeros up to a multiple of three digits.
pub open spec fn padded(d: Seq<u8>) -> Seq<u8> {
    Seq::new(pad_len(d.len()), |i: int| 0x30u8) + d
}

/// The three-digit chunks of the padded numeral `d`, each read as a number.
pub open spec fn chunk_values(d: Seq<u8>) -> Seq<nat> {
    let p = padded(d);
    Seq::new(p.len() / 3, |i: int| digits_value(p.subrange(3 * i, 3 * i + 3)))
}

/// The positions that the byte string `b` stands for.
pub open spec fn positions(b: Seq<u8>) -> Seq<nat> {
    chunk_values(decimal(be_value(b)))
}

/// The three ASCII digits of `p`, for `p < 1000`.
pub open spec fn three_digits(p: nat) -> Seq<u8> {
    seq![digit(p / 100), digit((p / 10) % 10), digit(p % 10)]
}

/// The numeral written by the positions `t`, three digits each.
pub open spec fn rendered(t: Seq<u16>) -> Seq<u8>
    decreases t.len(),
{
    if t.len() == 0 {
        Seq::empty()
    } else {
        rendered(t.drop_last()) + three_digits(t.last() as nat)
    }
}

/// Relies on `BigInt::from_bytes_be` with a plus sign and on its decimal
/// `to_string`: the decimal numeral of the bytes' big-endian value.
#[verifier::external_body]
fn decimal_of_bytes(b: &[u8]) -> (r: Vec<u8>)
    ensures
        r@ == decimal(be_value(b@)),
{
    BigInt::from_bytes_be(Sign::Plus, b).to_string().into_bytes()
}

/// Relies on `BigInt::parse_bytes` in radix ten and on `BigInt::to_bytes_be`:
/// a non-empty string of ASCII digits parses to its value, whose magnitude
/// comes back as the shortest big-endian bytes.
#[verifier::external_body]
pub(crate) fn bytes_of_decimal(d: &[u8]) -> (r: Option<Vec<u8>>)
    ensures
        d@.len() > 0 && (forall|i: int| 0 <= i < d@.len() ==> is_digit(#[trigger] d@[i]))
            ==> r is Some && r->0@ == be_bytes(digits_value(d@)),
{
    match BigInt::parse_bytes(d, 10) {
        Some(n) => Some(n.to_bytes_be().1),
        None => None,
    }
}

/// Every byte of a decimal numeral is an ASCII digit.
pub proof fn lemma_decimal_digits(n: nat)
    ensures
        decimal(n).len() > 0,
        forall|i: int| 0 <= i < decimal(n).len() ==> is_digit(#[trigger] decimal(n)[i]),
    decreases n,
{
    if n >= 10 {
        lemma_decimal_digits(n / 10);
    }
}

/// A numeral reads back as the number it was written for.
pub proof fn lemma_decimal_value(n: nat)
    ensures
        digits_value(decimal(n)) == n,
    decreases n,
{
    if n < 10 {
        assert(decimal(n).drop_last().len() == 0);
        assert(digits_value(decimal(n).drop_last()) == 0);
    } else {
        lemma_decimal_value(n / 10);
        assert(decimal(n).drop_last() == decimal(n / 10));
    }
}

/// Leading zeros do not change the value of a numeral.
pub proof fn lemma_leading_zeros(k: nat, d: Seq<u8>)
    ensures
        digits_value(Seq::new(k, |i: int| 0x30u8) + d) == digits_value(d),
    decreases d.len() + k,
{
    let z = Seq::new(k, |i: int| 0x30u8);
    if d.len() == 0 {
        assert(z + d == z);
        if k > 0 {
            assert(z.drop_last() == Seq::new((k - 1) as nat, |i: int| 0x30u8));
            lemma_leading_zeros((k - 1) as nat, d);
            assert(Seq::new((k - 1) as nat, |i: int| 0x30u8) + d == z.drop_last());
        }
    } else {
        assert((z + d).drop_last() == z + d.drop_last());
        lemma_leading_zeros(k, d.drop_last());
    }
}

/// Three digits read as a number and written again are the same digits.
proof fn lemma_three_round(s: Seq<u8>)
    requires
        s.len() == 3,
        forall|i: int| 0 <= i < 3 ==> is_digit(#[trigger] s[i]),
    ensures
        digits_value(s) < 1000,
        three_digits(digits_value(s)) == s,
{
    lemma_three_value(s);
    let a = (s[0] - 0x30) as nat;
    let b = (s[1] - 0x30) as nat;
    let c = (s[2] - 0x30) as nat;
    let v = a * 100 + b * 10 + c;
    assert(a < 10 && b < 10 && c < 10);
    assert(v / 100 == a && (v / 10) % 10 == b && v % 10 == c) by (nonlinear_arith)
        requires
            a < 10 && b < 10 && c < 10,
            v == a * 100 + b * 10 + c,
    ;
    assert(three_digits(v) =~= s);
}

/// Cutting a numeral of whole chunks into three-digit numbers and writing
/// them again gives the numeral back.
pub proof fn lemma_chunks_rendered(p: Seq<u8>, m: nat)
    requires
        p.len() == 3 * m,
        forall|i: int| 0 <= i < p.len() ==> is_digit(#[trigger] p[i]),
    ensures
        rendered(Seq::new(m, |i: int| digits_value(p.subrange(3 * i, 3 * i + 3)) as u16)) == p,
        forall|i: int| 0 <= i < m ==> #[trigger] digits_value(p.subrange(3 * i, 3 * i + 3)) < 1000,
    decreases m,
{
    let t = Seq::new(m, |i: int| digits_value(p.subrange(3 * i, 3 * i + 3)) as u16);
    assert forall|i: int| 0 <= i < m implies #[trigger] digits_value(p.subrange(3 * i, 3 * i + 3))
        < 1000 by {
        lemma_three_round(p.subrange(3 * i, 3 * i + 3));
    }
    if m == 0 {
        assert(p == Seq::<u8>::empty());
    } else {
        let q = p.subrange(0, 3 * (m - 1));
        lemma_chunks_rendered(q, (m - 1) as nat);
        let tq = Seq::new((m - 1) as nat, |i: int| digits_value(q.subrange(3 * i, 3 * i + 3)) as u16);
        assert forall|i: int| 0 <= i < m - 1 implies #[trigger] t.drop_last()[i] == tq[i] by {
            assert(q.subrange(3 * i, 3 * i + 3) =~= p.subrange(3 * i, 3 * i + 3));
        }
        assert(t.drop_last() =~= tq);
        let last = p.subrange(3 * (m - 1), 3 * m as int);
        lemma_three_round(last);
        assert(t.last() as nat == digits_value(last));
        assert(q + last =~= p);
    }
}

/// A byte string that starts with a non-zero byte has a positive value.
proof fn lemma_be_positive(b: Seq<u8>)
    requires
        b.len() > 0,
        b[0] != 0,
    ensures
        be_value(b) > 0,
    decreases b.len(),
{
    if b.len() > 1 {
        assert(b.drop_last()[0] == b[0]);
        lemma_be_positive(b.drop_last());
    } else {
        assert(b.drop_last().len() == 0);
        assert(be_value(b.drop_last()) == 0);
    }
}

/// The shortest bytes of a value are the bytes it was read from, where
/// those have no leading zero byte.
pub proof fn lemma_be_round(b: Seq<u8>)
    requires
        b.len() > 0,
        b.len() == 1 || b[0] != 0,
    ensures
        be_bytes(be_value(b)) == b,
    decreases b.len(),
{
    let r = b.drop_last();
    if b.len() == 1 {
        assert(r.len() == 0);
        assert(be_value(r) == 0);
        assert(be_bytes(be_value(b)) =~= b);
    } else {
        assert(r[0] == b[0]);
        lemma_be_positive(r);
        lemma_be_round(r);
        let v = be_value(b);
        assert(v / 256 == be_value(r) && v % 256 == b.last() as nat);
        assert(r.push(b.last()) =~= b);
    }
}

/// The value of three ASCII digits.
proof fn lemma_three_value(s: Seq<u8>)
    requires
        s.len() == 3,
    ensures
        digits_value(s) == (s[0] - 0x30) as nat * 100 + (s[1] - 0x30) as nat * 10 + (s[2]
            - 0x30) as nat,
{
    let s1 = s.drop_last();
    let s0 = s1.drop_last();
    assert(s0.drop_last().len() == 0);
    assert(digits_value(s0.drop_last()) == 0);
    assert(s0.last() == s[0]);
    assert(digits_value(s0) == (s[0] - 0x30) as nat);
    assert(digits_value(s1) == digits_value(s0) * 10 + (s[1] - 0x30) as nat);
}

/// The positions that the bytes `b` stand for: the decimal numeral of their
/// big-endian value, padded with leading zeros to a multiple of three digits
/// and cut into three-digit numbers.
pub fn chunk_positions(b: &[u8]) -> (r: Vec<u16>)
    ensures
        r@.len() == positions(b@).len(),
        forall|i: int| 0 <= i < r@.len() ==> r@[i] as nat == #[trigger] positions(b@)[i],
        forall|i: int| 0 <= i < r@.len() ==> #[trigger] r@[i] < 1000,
{
    let d = decimal_of_bytes(b);
    proof {
        lemma_decimal_digits(be_value(b@));
    }
    let pad: usize = (3 - d.len() % 3) % 3;
    let mut p: Vec<u8> = Vec::new();
    let mut k: usize = 0;
    while k < pad
        invariant
            k <= pad,
            p@ == Seq::new(k as nat, |i: int| 0x30u8),
        decreases pad - k,
    {
        p.push(0x30u8);
        k = k + 1;
    }
    let mut j: usize = 0;
    while j < d.len()
        invariant
            j <= d.len(),
            p@ == Seq::new(pad as nat, |i: int| 0x30u8) + d@.subrange(0, j as int),
        decreases d.len() - j,
    {
        p.push(d[j]);
        j = j + 1;
        assert(d@.subrange(0, j as int) == d@.subrange(0, j - 1).push(d@[j - 1]));
    }
    let ghost dv = decimal(be_value(b@));
    assert(d@.subrange(0, d@.len() as int) == d@);
    assert(p@ == padded(dv));
    assert(p@.len() % 3 == 0);
    let mut r: Vec<u16> = Vec::new();
    let mut i: usize = 0;
    while i < p.len() / 3
        invariant
            p@ == padded(dv),
            p@.len() % 3 == 0,
            forall|q: int| 0 <= q < p@.len() ==> is_digit(#[trigger] p@[q]),
            i <= p@.len() / 3,
            r@.len() == i,
            forall|q: int| 0 <= q < i ==> r@[q] as nat == #[trigger] chunk_values(dv)[q],
            forall|q: int| 0 <= q < i ==> #[trigger] r@[q] < 1000,
        decreases p.len() / 3 - i,
    {
        let a = p[3 * i] - 0x30;
        let m = p[3 * i + 1] - 0x30;
        let c = p[3 * i + 2] - 0x30;
        let v: u16 = a as u16 * 100 + m as u16 * 10 + c as u16;
        proof {
            let s = p@.subrange(3 * i as int, 3 * i + 3);
            lemma_three_value(s);
            assert(chunk_values(dv)[i as int] == digits_value(s));
        }
        r.push(v);
        i = i + 1;
    }
    r
}

} // verus!
