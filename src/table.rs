//! The two lookup tables built from the corpus: the characters found at each
//! position, and the positions at which each character is found.

use std::collections::HashMap;
use vstd::prelude::*;

verus! {

broadcast use vstd::std_specs::hash::group_hash_axioms;

/// The number of positions in a source text.
pub const POSITIONS: usize = 1000;

/// The Unicode `White_Space` property of a character.
pub uninterp spec fn white_space(c: char) -> bool;

/// Relies on `char::is_whitespace`: whether `c` has the `White_Space` property.
#[verifier::external_body]
fn is_white_space(c: char) -> (r: bool)
    ensures
        r == white_space(c),
{
    c.is_whitespace()
}

/// The characters of `s` that are not white space, in order.
pub open spec fn strip(s: Seq<char>) -> Seq<char> {
    s.filter(|c: char| !white_space(c))
}

/// Each character of a source text with its position.
pub open spec fn pairs_of(text: Seq<char>) -> Seq<(u16, char)> {
    Seq::new(text.len(), |i: int| (i as u16, text[i]))
}

/// The views of the source strings.
pub open spec fn texts(sources: Seq<String>) -> Seq<Seq<char>> {
    sources.map_values(|s: String| s@)
}

/// Every (position, character) pair of the sources, source after source.
pub open spec fn scan(sources: Seq<Seq<char>>) -> Seq<(u16, char)>
    decreases sources.len(),
{
    if sources.len() == 0 {
        Seq::empty()
    } else {
        scan(sources.drop_last()) + pairs_of(strip(sources.last()))
    }
}

/// The characters seen at each position, each once, in order of first sight.
pub open spec fn matrix_after(pairs: Seq<(u16, char)>) -> Seq<Seq<char>>
    decreases pairs.len(),
{
    if pairs.len() == 0 {
        Seq::new(POSITIONS as nat, |p: int| Seq::<char>::empty())
    } else {
        let m = matrix_after(pairs.drop_last());
        let (p, c) = pairs.last();
        if m[p as int].contains(c) {
            m
        } else {
            m.update(p as int, m[p as int].push(c))
        }
    }
}

/// The positions at which `c` is seen, each once, in order of first sight.
pub open spec fn positions_after(pairs: Seq<(u16, char)>, c: char) -> Seq<u16>
    decreases pairs.len(),
{
    if pairs.len() == 0 {
        Seq::empty()
    } else {
        let r = positions_after(pairs.drop_last(), c);
        let (p, d) = pairs.last();
        if d == c && !r.contains(p) {
            r.push(p)
        } else {
            r
        }
    }
}

/// What the index holds for `c`: nothing where `c` has no entry.
pub open spec fn lookup(m: Map<u32, Vec<u16>>, c: char) -> Seq<u16> {
    if m.contains_key(c as u32) {
        m[c as u32]@
    } else {
        Seq::empty()
    }
}

/// The characters of `s` that are not white space.
fn stripped(s: &String) -> (r: Vec<char>)
    ensures
        r@ == strip(s@),
{
    let mut r: Vec<char> = Vec::new();
    let ghost text = s@;
    for c in it: s.as_str().chars()
        invariant
            it.seq() == text,
            r@ == strip(text.take(it.index() as int)),
    {
        let ghost k = it.index();
        proof {
            assert(text.take(k + 1) == text.take(k as int).push(c));
            text.take(k as int).lemma_filter_push(c, |c: char| !white_space(c));
        }
        if !is_white_space(c) {
            r.push(c);
        }
    }
    proof {
        assert(text.take(text.len() as int) == text);
    }
    r
}

fn has_char(v: &Vec<char>, c: char) -> (r: bool)
    ensures
        r == v@.contains(c),
{
    let mut i: usize = 0;
    while i < v.len()
        invariant
            i <= v.len(),
            forall|j: int| 0 <= j < i ==> v@[j] != c,
        decreases v.len() - i,
    {
        if v[i] == c {
            return true;
        }
        i = i + 1;
    }
    false
}

fn has_position(v: &Vec<u16>, p: u16) -> (r: bool)
    ensures
        r == v@.contains(p),
{
    let mut i: usize = 0;
    while i < v.len()
        invariant
            i <= v.len(),
            forall|j: int| 0 <= j < i ==> v@[j] != p,
        decreases v.len() - i,
    {
        if v[i] == p {
            return true;
        }
        i = i + 1;
    }
    false
}

/// Why a corpus gives no tables.
#[derive(Debug, Clone, Copy, PartialEq, Eq, Structural)]
pub enum BuildError {
    /// The corpus holds no source text.
    NoSource,
    /// The source text at `source` holds `count` characters that are not
    /// white space, where each must hold exactly one per position.
    WrongLength { source: usize, count: usize },
}

/// The position matrix and the inverse index of a corpus.
pub struct Tables {
    matrix: Vec<Vec<char>>,
    index: HashMap<u32, Vec<u16>>,
    scanned: Ghost<Seq<(u16, char)>>,
}

/// Every position holds at least one character.
pub open spec fn complete(m: Seq<Seq<char>>) -> bool {
    forall|p: int| 0 <= p < POSITIONS ==> (#[trigger] m[p]).len() > 0
}

/// A pair that was scanned has its character at its position in the matrix.
pub proof fn lemma_matrix_has(pairs: Seq<(u16, char)>, i: int)
    requires
        0 <= i < pairs.len(),
        forall|j: int| 0 <= j < pairs.len() ==> (#[trigger] pairs[j]).0 < 1000,
    ensures
        matrix_after(pairs)[pairs[i].0 as int].contains(pairs[i].1),
    decreases pairs.len(),
{
    let rest = pairs.drop_last();
    assert forall|j: int| 0 <= j < rest.len() implies (#[trigger] rest[j]).0 < 1000 by {
        assert(rest[j] == pairs[j]);
    }
    lemma_matrix_len(rest);
    let m = matrix_after(rest);
    let (p, c) = pairs.last();
    assert(p < 1000);
    if i == pairs.len() - 1 {
        if !m[p as int].contains(c) {
            assert(m[p as int].push(c)[m[p as int].len() as int] == c);
        }
    } else {
        lemma_matrix_has(rest, i);
        assert(rest[i] == pairs[i]);
        let (q, d) = pairs[i];
        if !m[p as int].contains(c) && q == p {
            let row = m[p as int];
            let k = choose|k: int| 0 <= k < row.len() && row[k] == d;
            assert(row.push(c)[k] == d);
        }
    }
}

/// A character in the matrix was scanned at that position.
pub proof fn lemma_matrix_from(pairs: Seq<(u16, char)>, q: int, c: char)
    requires
        forall|j: int| 0 <= j < pairs.len() ==> (#[trigger] pairs[j]).0 < 1000,
        0 <= q < POSITIONS,
        matrix_after(pairs)[q].contains(c),
    ensures
        exists|i: int| 0 <= i < pairs.len() && pairs[i] == (q as u16, c),
    decreases pairs.len(),
{
    if pairs.len() == 0 {
        assert(matrix_after(pairs)[q] == Seq::<char>::empty());
    } else {
        let rest = pairs.drop_last();
        assert forall|j: int| 0 <= j < rest.len() implies (#[trigger] rest[j]).0 < 1000 by {
            assert(rest[j] == pairs[j]);
        }
        lemma_matrix_len(rest);
        let m = matrix_after(rest);
        let (p, d) = pairs.last();
        if m[q].contains(c) {
            lemma_matrix_from(rest, q, c);
            let i = choose|i: int| 0 <= i < rest.len() && rest[i] == (q as u16, c);
            assert(pairs[i] == rest[i]);
        } else {
            assert(p as int == q && d == c) by {
                if !(p as int == q) {
                    assert(matrix_after(pairs)[q] == m[q]);
                } else if !m[p as int].contains(d) {
                    let row = m[q];
                    let k = choose|k: int| 0 <= k < row.push(d).len() && row.push(d)[k] == c;
                    if k < row.len() {
                        assert(row[k] == c);
                    }
                }
            }
            assert(pairs[pairs.len() - 1] == (q as u16, c));
        }
    }
}

/// A pair that was scanned has its position among its character's.
pub proof fn lemma_positions_has(pairs: Seq<(u16, char)>, i: int)
    requires
        0 <= i < pairs.len(),
    ensures
        positions_after(pairs, pairs[i].1).contains(pairs[i].0),
    decreases pairs.len(),
{
    let rest = pairs.drop_last();
    let (p, d) = pairs.last();
    let (q, c) = pairs[i];
    let r = positions_after(rest, c);
    if i == pairs.len() - 1 {
        if !r.contains(p) {
            assert(r.push(p)[r.len() as int] == p);
        }
    } else {
        lemma_positions_has(rest, i);
        assert(rest[i] == pairs[i]);
        if d == c && !r.contains(p) {
            let k = choose|k: int| 0 <= k < r.len() && r[k] == q;
            assert(r.push(p)[k] == q);
        }
    }
}

/// The positions of a character are positions of the pairs.
pub proof fn lemma_positions_below(pairs: Seq<(u16, char)>, c: char)
    requires
        forall|j: int| 0 <= j < pairs.len() ==> (#[trigger] pairs[j]).0 < 1000,
    ensures
        forall|k: int|
            0 <= k < positions_after(pairs, c).len() ==> #[trigger] positions_after(pairs, c)[k]
                < 1000,
    decreases pairs.len(),
{
    if pairs.len() > 0 {
        let rest = pairs.drop_last();
        assert forall|j: int| 0 <= j < rest.len() implies (#[trigger] rest[j]).0 < 1000 by {
            assert(rest[j] == pairs[j]);
        }
        lemma_positions_below(rest, c);
        assert(pairs[pairs.len() - 1].0 < 1000);
        let r = positions_after(rest, c);
        assert forall|k: int|
            0 <= k < positions_after(pairs, c).len() implies #[trigger] positions_after(pairs, c)[k]
            < 1000 by {
            if k < r.len() {
                assert(positions_after(pairs, c)[k] == r[k]);
            }
        }
    }
}

/// The matrix has one entry per position, whatever the pairs.
pub proof fn lemma_matrix_len(pairs: Seq<(u16, char)>)
    requires
        forall|i: int| 0 <= i < pairs.len() ==> (#[trigger] pairs[i]).0 < 1000,
    ensures
        matrix_after(pairs).len() == POSITIONS,
    decreases pairs.len(),
{
    if pairs.len() > 0 {
        let rest = pairs.drop_last();
        assert forall|i: int| 0 <= i < rest.len() implies (#[trigger] rest[i]).0 < 1000 by {
            assert(rest[i] == pairs[i]);
        }
        lemma_matrix_len(rest);
        assert(pairs[pairs.len() - 1].0 < 1000);
    }
}

impl Tables {
    /// Tables of no pairs at all.
    fn empty() -> (r: Tables)
        ensures
            r.consistent(),
            r.scanned() == Seq::<(u16, char)>::empty(),
    {
        let mut matrix: Vec<Vec<char>> = Vec::new();
        let mut i: usize = 0;
        while i < POSITIONS
            invariant
                i <= POSITIONS,
                matrix@.len() == i,
                forall|p: int| 0 <= p < i ==> (#[trigger] matrix@[p])@ == Seq::<char>::empty(),
            decreases POSITIONS - i,
        {
            matrix.push(Vec::new());
            i = i + 1;
        }
        let r = Tables { matrix, index: HashMap::new(), scanned: Ghost(Seq::empty()) };
        assert forall|c: char| #[trigger]
            lookup(r.index@, c) == positions_after(r.scanned@, c) by {}
        r
    }

    /// Records that `c` is seen at `p`.
    fn add(&mut self, p: u16, c: char)
        requires
            old(self).consistent(),
            p < 1000,
        ensures
            final(self).consistent(),
            final(self).scanned() == old(self).scanned().push((p, c)),
    {
        let ghost before = self.scanned@;
        let ghost pairs = before.push((p, c));
        let seen = has_char(&self.matrix[p as usize], c);
        if !seen {
            let mut row = self.matrix[p as usize].clone();
            row.push(c);
            self.matrix.set(p as usize, row);
        }
        let key = c as u32;
        let mut list = match self.index.remove(&key) {
            Some(v) => v,
            None => Vec::new(),
        };
        let listed = has_position(&list, p);
        if !listed {
            list.push(p);
        }
        self.index.insert(key, list);
        self.scanned = Ghost(pairs);
        proof {
            assert(pairs.drop_last() == before);
            assert(pairs.last() == (p, c));
            lemma_matrix_len(before);
            assert forall|i: int| 0 <= i < pairs.len() implies (#[trigger] pairs[i]).0 < 1000 by {
                if i < before.len() {
                    assert(pairs[i] == before[i]);
                }
            }
            assert forall|q: int| 0 <= q < POSITIONS implies (#[trigger] self.matrix@[q])@
                == matrix_after(pairs)[q] by {}
            assert forall|d: char| #[trigger]
                lookup(self.index@, d) == positions_after(pairs, d) by {
                if d != c {
                    vstd::utf8::char_u32_cast(d, d as u32);
                    vstd::utf8::char_u32_cast(c, c as u32);
                    assert(d as u32 != key);
                    assert(lookup(old(self).index@, d) == positions_after(before, d));
                } else {
                    assert(lookup(old(self).index@, c) == positions_after(before, c));
                }
            }
        }
    }
    /// The pairs that the tables were built from.
    pub closed spec fn scanned(&self) -> Seq<(u16, char)> {
        self.scanned@
    }

    /// The tables of a whole corpus: consistent, and with at least one
    /// character at every position.
    pub closed spec fn wf(&self) -> bool {
        &&& self.consistent()
        &&& complete(matrix_after(self.scanned@))
    }

    /// The tables hold exactly what the scanned pairs give.
    closed spec fn consistent(&self) -> bool {
        &&& forall|i: int| 0 <= i < self.scanned@.len() ==> (#[trigger] self.scanned@[i]).0 < 1000
        &&& self.matrix@.len() == POSITIONS
        &&& forall|p: int|
            0 <= p < POSITIONS ==> (#[trigger] self.matrix@[p])@ == matrix_after(self.scanned@)[p]
        &&& forall|c: char| #[trigger]
            lookup(self.index@, c) == positions_after(self.scanned@, c)
    }

    /// The pairs of whole tables lie within the positions, and their matrix
    /// is complete.
    pub proof fn lemma_wf(&self)
        requires
            self.wf(),
        ensures
            forall|i: int|
                0 <= i < self.scanned().len() ==> (#[trigger] self.scanned()[i]).0 < 1000,
            matrix_after(self.scanned()).len() == POSITIONS,
            complete(matrix_after(self.scanned())),
    {
        lemma_matrix_len(self.scanned@);
    }

    /// The characters seen at each position.
    pub fn matrix(&self) -> (r: &Vec<Vec<char>>)
        requires
            self.wf(),
        ensures
            r@.len() == POSITIONS,
            forall|p: int| 0 <= p < POSITIONS ==> (#[trigger] r@[p])@ == matrix_after(self.scanned())[p],
            matrix_after(self.scanned()).len() == POSITIONS,
            complete(matrix_after(self.scanned())),
    {
        proof {
            lemma_matrix_len(self.scanned@);
        }
        &self.matrix
    }

    /// The positions at which `c` is seen; none where it is not in the corpus.
    pub fn positions_of(&self, c: char) -> (r: Vec<u16>)
        requires
            self.wf(),
        ensures
            r@ == positions_after(self.scanned(), c),
            forall|k: int| 0 <= k < r@.len() ==> #[trigger] r@[k] < 1000,
    {
        proof {
            lemma_positions_below(self.scanned@, c);
        }
        assert(lookup(self.index@, c) == positions_after(self.scanned@, c));
        match self.index.get(&(c as u32)) {
            Some(v) => v.clone(),
            None => Vec::new(),
        }
    }
}


/// Builds the tables of a corpus: for each source text, position after
/// position, each character that is not white space is recorded at its
/// position. Each source must hold exactly one such character per position.
pub fn build(sources: &Vec<String>) -> (r: Result<Tables, BuildError>)
    ensures
        match r {
            Ok(t) => {
                &&& t.wf()
                &&& t.scanned() == scan(texts(sources@))
                &&& sources@.len() > 0
                &&& forall|k: int|
                    0 <= k < sources@.len() ==> #[trigger] strip(sources@[k]@).len() == POSITIONS
            },
            Err(BuildError::NoSource) => sources@.len() == 0,
            Err(BuildError::WrongLength { source, count }) => {
                &&& source < sources@.len()
                &&& count == strip(sources@[source as int]@).len()
                &&& count != POSITIONS
                &&& forall|k: int|
                    0 <= k < source ==> #[trigger] strip(sources@[k]@).len() == POSITIONS
            },
        },
{
    if sources.len() == 0 {
        return Err(BuildError::NoSource);
    }
    let ghost all = texts(sources@);
    let mut t = Tables::empty();
    let mut k: usize = 0;
    while k < sources.len()
        invariant
            k <= sources@.len(),
            all == texts(sources@),
            t.consistent(),
            t.scanned() == scan(all.take(k as int)),
            forall|j: int| 0 <= j < k ==> #[trigger] strip(sources@[j]@).len() == POSITIONS,
        decreases sources.len() - k,
    {
        let chars = stripped(&sources[k]);
        if chars.len() != POSITIONS {
            return Err(BuildError::WrongLength { source: k, count: chars.len() });
        }
        let ghost start = t.scanned();
        let mut i: usize = 0;
        while i < chars.len()
            invariant
                chars@.len() == POSITIONS,
                i <= chars@.len(),
                t.consistent(),
                t.scanned() == start + pairs_of(chars@).take(i as int),
            decreases chars.len() - i,
        {
            t.add(i as u16, chars[i]);
            proof {
                assert(pairs_of(chars@).take(i + 1) == pairs_of(chars@).take(i as int).push(
                    (i as u16, chars@[i as int]),
                ));
            }
            i = i + 1;
        }
        proof {
            assert(pairs_of(chars@).take(i as int) == pairs_of(chars@));
            assert(all.take(k + 1).drop_last() == all.take(k as int));
            assert(all.take(k + 1).last() == sources@[k as int]@);
        }
        k = k + 1;
    }
    proof {
        assert(all.take(k as int) == all);
        let front = scan(all.drop_last());
        let last = pairs_of(strip(all.last()));
        assert(strip(all.last()).len() == POSITIONS);
        assert forall|p: int| 0 <= p < POSITIONS implies (#[trigger] matrix_after(t.scanned())[p]).len()
            > 0 by {
            let i = front.len() + p;
            assert(t.scanned()[i] == last[p]);
            lemma_matrix_has(t.scanned(), i);
        }
    }
    Ok(t)
}

} // verus!
