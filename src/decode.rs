//! Decoding: characters of the corpus back to every text they may stand for.

use crate::numeral::{be_bytes, bytes_of_decimal, digit, digits_value, is_digit, rendered, three_digits};
use crate::table::{positions_after, Tables};
use itertools::structs::MultiProduct;
use itertools::Itertools;
use std::vec::IntoIter;
use vstd::prelude::*;
use vstd::utf8::{decode_utf8, valid_utf8};

verus! {

/// itertools' lazy cartesian product, carried through as an opaque value.
#[verifier::external_type_specification]
#[verifier::external_body]
#[verifier::reject_recursive_types(I)]
pub struct ExMultiProduct<I>(MultiProduct<I>) where I: Iterator + Clone, I::Item: Clone;

/// The tuples that a product of position lists has yet to yield.
pub uninterp spec fn tuples_left(p: MultiProduct<IntoIter<u16>>) -> Seq<Seq<u16>>;

/// Each tuple of `ts` followed by each item of `xs`, tuple after tuple.
pub open spec fn extend_all(ts: Seq<Seq<u16>>, xs: Seq<u16>) -> Seq<Seq<u16>>
    decreases ts.len(),
{
    if ts.len() == 0 {
        Seq::empty()
    } else {
        extend_all(ts.drop_last(), xs) + xs.map_values(|x: u16| ts.last().push(x))
    }
}

/// The cartesian product of `lists` in lexicographic order: one tuple per
/// choice of an item from each list; the empty tuple alone for no lists.
pub open spec fn cartesian(lists: Seq<Seq<u16>>) -> Seq<Seq<u16>>
    decreases lists.len(),
{
    if lists.len() == 0 {
        seq![Seq::empty()]
    } else {
        extend_all(cartesian(lists.drop_last()), lists.last())
    }
}

/// Relies on `Itertools::multi_cartesian_product`: an iterator over the
/// cartesian product of the lists in lexicographic order, which yields one
/// empty tuple for no lists and nothing where a list is empty.
#[verifier::external_body]
fn product_of(lists: Vec<Vec<u16>>) -> (r: MultiProduct<IntoIter<u16>>)
    ensures
        tuples_left(r) == cartesian(lists@.map_values(|l: Vec<u16>| l@)),
{
    lists.into_iter().multi_cartesian_product()
}

/// Relies on `Iterator::next` of `MultiProduct`: the next tuple of the
/// product; `None` once all are out, and from then on.
#[verifier::external_body]
fn next_tuple(p: &mut MultiProduct<IntoIter<u16>>) -> (r: Option<Vec<u16>>)
    ensures
        tuples_left(*old(p)).len() == 0 ==> r is None && tuples_left(*final(p)).len() == 0,
        tuples_left(*old(p)).len() > 0 ==> {
            &&& r is Some
            &&& r->0@ == tuples_left(*old(p))[0]
            &&& tuples_left(*final(p)) == tuples_left(*old(p)).drop_first()
        },
{
    p.next()
}

/// Relies on `String::from_utf8`: the text of the bytes, where they are
/// well-formed UTF-8.
#[verifier::external_body]
fn utf8_text(b: Vec<u8>) -> (r: Option<String>)
    ensures
        r is Some <==> valid_utf8(b@),
        r is Some ==> r->0@ == decode_utf8(b@),
{
    String::from_utf8(b).ok()
}

/// The text that the positions `t` stand for: the empty text for no
/// positions; else the bytes of the number that their three-digit numerals
/// write, where those bytes are well-formed UTF-8.
pub open spec fn text_of_tuple(t: Seq<u16>) -> Option<Seq<char>> {
    if t.len() == 0 {
        Some(Seq::empty())
    } else {
        let b = be_bytes(digits_value(rendered(t)));
        if valid_utf8(b) {
            Some(decode_utf8(b))
        } else {
            None
        }
    }
}

/// The texts of the tuples `ts`, in order, skipping those that stand for none.
pub open spec fn texts_of(ts: Seq<Seq<u16>>) -> Seq<Seq<char>>
    decreases ts.len(),
{
    if ts.len() == 0 {
        Seq::empty()
    } else {
        match text_of_tuple(ts[0]) {
            Some(x) => seq![x] + texts_of(ts.drop_first()),
            None => texts_of(ts.drop_first()),
        }
    }
}

/// The candidate positions of each character of `text`.
pub open spec fn candidate_lists(pairs: Seq<(u16, char)>, text: Seq<char>) -> Seq<Seq<u16>> {
    text.map_values(|c: char| positions_after(pairs, c))
}

/// Every text that `text` may be the encoding of, in the order of the
/// product of its characters' candidate positions.
pub open spec fn decoded(pairs: Seq<(u16, char)>, text: Seq<char>) -> Seq<Seq<char>> {
    texts_of(cartesian(candidate_lists(pairs, text)))
}

pub open spec fn below_positions(t: Seq<u16>) -> bool {
    forall|i: int| 0 <= i < t.len() ==> #[trigger] t[i] < 1000
}

/// A tuple of the extension is a tuple of `ts` followed by an item of `xs`.
proof fn lemma_extend_from(ts: Seq<Seq<u16>>, xs: Seq<u16>, u: Seq<u16>)
    requires
        extend_all(ts, xs).contains(u),
    ensures
        exists|i: int, j: int| 0 <= i < ts.len() && 0 <= j < xs.len() && u == ts[i].push(xs[j]),
    decreases ts.len(),
{
    let front = extend_all(ts.drop_last(), xs);
    let back = xs.map_values(|x: u16| ts.last().push(x));
    let k = choose|k: int| 0 <= k < (front + back).len() && (front + back)[k] == u;
    if k < front.len() {
        assert(front[k] == u);
        lemma_extend_from(ts.drop_last(), xs, u);
        let (i, j) = choose|i: int, j: int|
            0 <= i < ts.drop_last().len() && 0 <= j < xs.len() && u == ts.drop_last()[i].push(
                xs[j],
            );
        assert(ts[i] == ts.drop_last()[i]);
    } else {
        let j = k - front.len();
        assert(back[j] == ts.last().push(xs[j]));
        assert(u == ts[ts.len() - 1].push(xs[j]));
    }
}

/// Each tuple of `ts` followed by each item of `xs` is in the extension.
proof fn lemma_extend_has(ts: Seq<Seq<u16>>, xs: Seq<u16>, i: int, j: int)
    requires
        0 <= i < ts.len(),
        0 <= j < xs.len(),
    ensures
        extend_all(ts, xs).contains(ts[i].push(xs[j])),
    decreases ts.len(),
{
    let front = extend_all(ts.drop_last(), xs);
    let back = xs.map_values(|x: u16| ts.last().push(x));
    assert(extend_all(ts, xs) == front + back);
    if i == ts.len() - 1 {
        assert((front + back)[front.len() + j] == ts[i].push(xs[j]));
    } else {
        lemma_extend_has(ts.drop_last(), xs, i, j);
        assert(ts.drop_last()[i] == ts[i]);
        let k = choose|k: int| 0 <= k < front.len() && front[k] == ts[i].push(xs[j]);
        assert((front + back)[k] == ts[i].push(xs[j]));
    }
}

/// A tuple of the product takes its items from the lists, one each.
pub proof fn lemma_cartesian_from(lists: Seq<Seq<u16>>, t: Seq<u16>)
    requires
        cartesian(lists).contains(t),
    ensures
        t.len() == lists.len(),
        forall|i: int| 0 <= i < t.len() ==> #[trigger] lists[i].contains(t[i]),
    decreases lists.len(),
{
    if lists.len() == 0 {
        assert(seq![Seq::<u16>::empty()][0] == t);
    } else {
        let ts = cartesian(lists.drop_last());
        lemma_extend_from(ts, lists.last(), t);
        let (i, j) = choose|i: int, j: int|
            0 <= i < ts.len() && 0 <= j < lists.last().len() && t == ts[i].push(lists.last()[j]);
        assert(ts.contains(ts[i]));
        lemma_cartesian_from(lists.drop_last(), ts[i]);
        assert forall|k: int| 0 <= k < t.len() implies #[trigger] lists[k].contains(t[k]) by {
            if k < t.len() - 1 {
                assert(t[k] == ts[i][k]);
                assert(lists.drop_last()[k] == lists[k]);
            } else {
                assert(t[k] == lists.last()[j]);
            }
        }
    }
}

/// A tuple that takes its items from the lists, one each, is in the product.
pub proof fn lemma_cartesian_has(lists: Seq<Seq<u16>>, t: Seq<u16>)
    requires
        t.len() == lists.len(),
        forall|i: int| 0 <= i < t.len() ==> #[trigger] lists[i].contains(t[i]),
    ensures
        cartesian(lists).contains(t),
    decreases lists.len(),
{
    if lists.len() == 0 {
        assert(t == Seq::<u16>::empty());
        assert(seq![Seq::<u16>::empty()][0] == t);
    } else {
        let u = t.drop_last();
        assert forall|i: int| 0 <= i < u.len() implies #[trigger] lists.drop_last()[i].contains(
            u[i],
        ) by {
            assert(lists[i].contains(t[i]));
        }
        lemma_cartesian_has(lists.drop_last(), u);
        let ts = cartesian(lists.drop_last());
        let i = choose|i: int| 0 <= i < ts.len() && ts[i] == u;
        assert(lists[t.len() - 1].contains(t[t.len() - 1]));
        let j = choose|j: int| 0 <= j < lists.last().len() && lists.last()[j] == t.last();
        lemma_extend_has(ts, lists.last(), i, j);
        assert(ts[i].push(lists.last()[j]) == t);
    }
}

/// A tuple that stands for a text puts that text among the texts.
pub proof fn lemma_texts_has(ts: Seq<Seq<u16>>, k: int, x: Seq<char>)
    requires
        0 <= k < ts.len(),
        text_of_tuple(ts[k]) == Some(x),
    ensures
        texts_of(ts).contains(x),
    decreases ts.len(),
{
    if k == 0 {
        assert(texts_of(ts)[0] == x);
    } else {
        lemma_texts_has(ts.drop_first(), k - 1, x);
        let rest = texts_of(ts.drop_first());
        let j = choose|j: int| 0 <= j < rest.len() && rest[j] == x;
        match text_of_tuple(ts[0]) {
            Some(y) => {
                assert((seq![y] + rest)[j + 1] == x);
            },
            None => {},
        }
    }
}

/// No tuple is left of a product with an empty list.
pub proof fn lemma_cartesian_empty(lists: Seq<Seq<u16>>, i: int)
    requires
        0 <= i < lists.len(),
        lists[i].len() == 0,
    ensures
        cartesian(lists).len() == 0,
{
    if cartesian(lists).len() > 0 {
        let t = cartesian(lists)[0];
        assert(cartesian(lists).contains(t));
        lemma_cartesian_from(lists, t);
        assert(lists[i].contains(t[i]));
    }
}

/// The numeral that the positions write, three digits each.
fn render(t: &Vec<u16>) -> (r: Vec<u8>)
    requires
        below_positions(t@),
    ensures
        r@ == rendered(t@),
        forall|i: int| 0 <= i < r@.len() ==> is_digit(#[trigger] r@[i]),
        r@.len() == 3 * t@.len(),
{
    let mut r: Vec<u8> = Vec::new();
    let mut i: usize = 0;
    while i < t.len()
        invariant
            below_positions(t@),
            i <= t@.len(),
            r@ == rendered(t@.take(i as int)),
            r@.len() == 3 * i,
            forall|k: int| 0 <= k < r@.len() ==> is_digit(#[trigger] r@[k]),
        decreases t.len() - i,
    {
        let p = t[i];
        assert(t@[i as int] < 1000);
        r.push((p / 100) as u8 + 0x30);
        r.push(((p / 10) % 10) as u8 + 0x30);
        r.push((p % 10) as u8 + 0x30);
        proof {
            let s = t@.take(i + 1);
            assert(s.drop_last() == t@.take(i as int));
            assert(s.last() == p);
            assert(three_digits(p as nat) == seq![digit(p as nat / 100), digit((p as nat / 10) % 10), digit(p as nat % 10)]);
        }
        i = i + 1;
    }
    assert(t@.take(i as int) == t@);
    r
}

/// The text that the positions `t` stand for, if any.
fn text_at(t: &Vec<u16>) -> (r: Option<String>)
    requires
        below_positions(t@),
    ensures
        match text_of_tuple(t@) {
            Some(x) => r is Some && r->0@ == x,
            None => r is None,
        },
{
    if t.len() == 0 {
        return Some(String::new());
    }
    let digits = render(t);
    match bytes_of_decimal(digits.as_slice()) {
        Some(b) => utf8_text(b),
        None => None,
    }
}

/// A decoding in progress: the texts that are still to come, produced one
/// at a time as the product of candidate positions is walked.
pub struct Decoding {
    tuples: MultiProduct<IntoIter<u16>>,
}

impl Decoding {
    /// The texts still to come, in order.
    pub closed spec fn pending(&self) -> Seq<Seq<char>> {
        texts_of(tuples_left(self.tuples))
    }

    pub closed spec fn wf(&self) -> bool {
        forall|k: int|
            0 <= k < tuples_left(self.tuples).len() ==> below_positions(
                #[trigger] tuples_left(self.tuples)[k],
            )
    }

    /// The next text, or `None` when none is left.
    pub fn next(&mut self) -> (r: Option<String>)
        requires
            old(self).wf(),
        ensures
            final(self).wf(),
            old(self).pending().len() == 0 ==> r is None && final(self).pending().len() == 0,
            old(self).pending().len() > 0 ==> {
                &&& r is Some
                &&& r->0@ == old(self).pending()[0]
                &&& final(self).pending() == old(self).pending().drop_first()
            },
    {
        loop
            invariant
                self.wf(),
                self.pending() == old(self).pending(),
            decreases tuples_left(self.tuples).len(),
        {
            let ghost before = tuples_left(self.tuples);
            match next_tuple(&mut self.tuples) {
                None => {
                    return None;
                },
                Some(t) => {
                    assert(below_positions(before[0]));
                    assert forall|k: int| 0 <= k < tuples_left(self.tuples).len() implies below_positions(
                        #[trigger] tuples_left(self.tuples)[k],
                    ) by {
                        assert(tuples_left(self.tuples)[k] == before[k + 1]);
                    }
                    let found = text_at(&t);
                    match found {
                        Some(s) => {
                            let ghost x = text_of_tuple(t@)->0;
                            assert((seq![x] + texts_of(before.drop_first())).drop_first()
                                == texts_of(before.drop_first()));
                            return Some(s);
                        },
                        None => {},
                    }
                },
            }
        }
    }
}

/// Starts decoding `text`: each of its characters stands for any of the
/// positions at which the corpus has it, and each choice of one position per
/// character that writes the bytes of a text gives that text.
pub fn decode(tables: &Tables, text: String) -> (r: Decoding)
    requires
        tables.wf(),
    ensures
        r.wf(),
        r.pending() == decoded(tables.scanned(), text@),
{
    let ghost chars = text@;
    let mut lists: Vec<Vec<u16>> = Vec::new();
    for c in it: text.as_str().chars()
        invariant
            it.seq() == chars,
            tables.wf(),
            lists@.map_values(|l: Vec<u16>| l@) == candidate_lists(
                tables.scanned(),
                chars.take(it.index() as int),
            ),
            forall|j: int, k: int|
                0 <= j < lists@.len() && 0 <= k < lists@[j]@.len() ==> #[trigger] lists@[j]@[k]
                    < 1000,
    {
        let ghost k = it.index();
        let ghost prev = lists@.map_values(|l: Vec<u16>| l@);
        let ps = tables.positions_of(c);
        lists.push(ps);
        proof {
            assert(chars.take(k + 1) == chars.take(k as int).push(c));
            assert(lists@.map_values(|l: Vec<u16>| l@) =~= prev.push(
                positions_after(tables.scanned(), c),
            ));
            assert(candidate_lists(tables.scanned(), chars.take(k + 1)) =~= candidate_lists(
                tables.scanned(),
                chars.take(k as int),
            ).push(positions_after(tables.scanned(), c)));
            assert(lists@.map_values(|l: Vec<u16>| l@) == candidate_lists(
                tables.scanned(),
                chars.take(k + 1),
            ));
        }
    }
    proof {
        assert(chars.take(chars.len() as int) == chars);
    }
    let ghost views = lists@.map_values(|l: Vec<u16>| l@);
    let tuples = product_of(lists);
    let r = Decoding { tuples };
    proof {
        assert forall|k: int| 0 <= k < tuples_left(r.tuples).len() implies below_positions(
            #[trigger] tuples_left(r.tuples)[k],
        ) by {
            let t = tuples_left(r.tuples)[k];
            lemma_cartesian_from(views, t);
            assert forall|i: int| 0 <= i < t.len() implies #[trigger] t[i] < 1000 by {
                assert(views[i].contains(t[i]));
            }
        }
    }
    r
}

/// Every text that `text` may be the encoding of, all at once.
pub fn decode_all(tables: &Tables, text: String) -> (r: Vec<String>)
    requires
        tables.wf(),
    ensures
        r@.map_values(|s: String| s@) == decoded(tables.scanned(), text@),
{
    let ghost all = decoded(tables.scanned(), text@);
    let mut d = decode(tables, text);
    let mut out: Vec<String> = Vec::new();
    loop
        invariant
            d.wf(),
            out@.map_values(|s: String| s@) + d.pending() == all,
        ensures
            out@.map_values(|s: String| s@) == all,
        decreases d.pending().len(),
    {
        let ghost before = d.pending();
        let ghost prev = out@.map_values(|s: String| s@);
        match d.next() {
            None => {
                assert(before.len() == 0);
                assert(prev + before == prev);
                break ;
            },
            Some(s) => {
                out.push(s);
                assert(out@.map_values(|s: String| s@) =~= prev.push(before[0]));
                assert(before == seq![before[0]] + d.pending());
                assert(prev.push(before[0]) + d.pending() == prev + before);
            },
        }
    }
    out
}

} // verus!
