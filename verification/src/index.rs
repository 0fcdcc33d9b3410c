//! Per-document term frequencies and the corpus-wide index.
//!
//! A `TermFreq` maps each term of one document to its occurrence count;
//! a `CorpusIndex` maps each document path to its `TermFreq`. Both are
//! association vectors with unique keys, modelled as maps.

use vstd::prelude::*;
use vstd::pervasive::VecAdditionalExecFns;
use crate::chars_eq;
use crate::lexer::{tokens_of, tokenize};

verus! {

// ------------------------------------------------------------------
// Association sequences with unique keys, and their map model.
// ------------------------------------------------------------------

/// No key occurs twice.
pub open spec fn unique_keys<T>(s: Seq<(Seq<char>, T)>) -> bool {
    forall|i: int, j: int| 0 <= i < j < s.len() ==> (#[trigger] s[i]).0 != (#[trigger] s[j]).0
}

/// The map an association sequence stands for (later writes shadow earlier
/// ones; with unique keys there is nothing to shadow).
pub open spec fn map_of<T>(s: Seq<(Seq<char>, T)>) -> Map<Seq<char>, T>
    decreases s.len(),
{
    if s.len() == 0 {
        Map::empty()
    } else {
        map_of(s.drop_last()).insert(s.last().0, s.last().1)
    }
}

/// How `map_of` relates to the entries of the sequence.
pub proof fn lemma_map_of<T>(s: Seq<(Seq<char>, T)>)
    ensures
        map_of(s).dom().finite(),
        forall|k: Seq<char>| #[trigger] map_of(s).contains_key(k) ==> exists|i: int|
            0 <= i < s.len() && (#[trigger] s[i]).0 == k,
        forall|i: int| 0 <= i < s.len() ==> map_of(s).contains_key((#[trigger] s[i]).0),
        unique_keys(s) ==> forall|i: int| 0 <= i < s.len() ==> map_of(s)[(#[trigger] s[i]).0]
            == s[i].1,
        unique_keys(s) ==> map_of(s).dom().len() == s.len(),
    decreases s.len(),
{
    broadcast use vstd::set::group_set_axioms;

    if s.len() > 0 {
        let s0 = s.drop_last();
        lemma_map_of(s0);
        assert forall|k: Seq<char>| #[trigger] map_of(s).contains_key(k) implies exists|i: int|
            0 <= i < s.len() && (#[trigger] s[i]).0 == k by {
            if k == s.last().0 {
                assert((s[s.len() - 1]).0 == k);
            } else {
                let i = choose|i: int| 0 <= i < s0.len() && (#[trigger] s0[i]).0 == k;
                assert((s[i]).0 == k);
            }
        }
        assert forall|i: int| 0 <= i < s.len() implies map_of(s).contains_key(
            (#[trigger] s[i]).0,
        ) by {
            if i < s.len() - 1 {
                assert(s0[i] == s[i]);
            }
        }
        if unique_keys(s) {
            assert(unique_keys(s0)) by {
                assert(forall|i: int| 0 <= i < s0.len() ==> s0[i] == s[i]);
            }
            assert forall|i: int| 0 <= i < s.len() implies map_of(s)[(#[trigger] s[i]).0]
                == s[i].1 by {
                if i < s.len() - 1 {
                    assert(s0[i] == s[i]);
                    assert(s[i].0 != s.last().0);
                }
            }
            assert(!map_of(s0).contains_key(s.last().0)) by {
                if map_of(s0).contains_key(s.last().0) {
                    let i = choose|i: int|
                        0 <= i < s0.len() && (#[trigger] s0[i]).0 == s.last().0;
                    assert(s[i] == s0[i]);
                }
            }
        }
    }
}

/// Appending one entry inserts one binding.
pub proof fn lemma_map_of_push<T>(s: Seq<(Seq<char>, T)>, e: (Seq<char>, T))
    ensures
        map_of(s.push(e)) == map_of(s).insert(e.0, e.1),
{
    assert(s.push(e).drop_last() =~= s);
    assert(s.push(e).last() == e);
}

/// Replacing the value at one entry updates one binding.
pub proof fn lemma_map_of_update<T>(s: Seq<(Seq<char>, T)>, i: int, v: T)
    requires
        unique_keys(s),
        0 <= i < s.len(),
    ensures
        map_of(s.update(i, (s[i].0, v))) == map_of(s).insert(s[i].0, v),
    decreases s.len(),
{
    let t = s.update(i, (s[i].0, v));
    let s0 = s.drop_last();
    assert(unique_keys(s0)) by {
        assert(forall|j: int| 0 <= j < s0.len() ==> s0[j] == s[j]);
    }
    if i == s.len() - 1 {
        assert(t.drop_last() =~= s0);
        assert(map_of(t) == map_of(s0).insert(s[i].0, v));
        assert(map_of(s0).insert(s.last().0, s.last().1).insert(s[i].0, v) =~= map_of(s0).insert(
            s[i].0,
            v,
        ));
    } else {
        assert(t.drop_last() =~= s0.update(i, (s0[i].0, v)));
        lemma_map_of_update(s0, i, v);
        assert(t.last() == s.last());
        assert(s[i].0 != s.last().0);
        assert(map_of(s0).insert(s[i].0, v).insert(s.last().0, s.last().1) =~= map_of(s0).insert(
            s.last().0,
            s.last().1,
        ).insert(s[i].0, v));
    }
}

// ------------------------------------------------------------------
// Occurrence counting.
// ------------------------------------------------------------------

/// How many times `t` occurs in the token sequence.
pub open spec fn count_occ(toks: Seq<Seq<char>>, t: Seq<char>) -> nat
    decreases toks.len(),
{
    if toks.len() == 0 {
        0
    } else {
        (count_occ(toks.drop_last(), t) + if toks.last() == t {
            1int
        } else {
            0int
        }) as nat
    }
}

/// The frequency table of a token sequence: every token that occurs,
/// mapped to the number of times it occurs.
pub open spec fn count_map(toks: Seq<Seq<char>>) -> Map<Seq<char>, nat> {
    Map::new(|t: Seq<char>| toks.contains(t), |t: Seq<char>| count_occ(toks, t))
}

pub proof fn lemma_count_occ_le(toks: Seq<Seq<char>>, t: Seq<char>)
    ensures
        count_occ(toks, t) <= toks.len(),
        !toks.contains(t) ==> count_occ(toks, t) == 0,
        toks.contains(t) ==> count_occ(toks, t) >= 1,
    decreases toks.len(),
{
    if toks.len() > 0 {
        lemma_count_occ_le(toks.drop_last(), t);
        if !toks.contains(t) {
            assert(toks.last() != t);
            assert(!toks.drop_last().contains(t)) by {
                if toks.drop_last().contains(t) {
                    let i = choose|i: int|
                        0 <= i < toks.drop_last().len() && toks.drop_last()[i] == t;
                    assert(toks[i] == t);
                }
            }
        }
        if toks.contains(t) && toks.last() != t {
            let i = choose|i: int| 0 <= i < toks.len() && toks[i] == t;
            assert(toks.drop_last()[i] == t);
        }
    }
}

/// Seeing one more token raises exactly its count by one.
pub proof fn lemma_count_map_push(toks: Seq<Seq<char>>, t: Seq<char>)
    ensures
        count_map(toks.push(t)) == count_map(toks).insert(
            t,
            (count_occ(toks, t) + 1) as nat,
        ),
{
    let u = toks.push(t);
    assert(u.drop_last() =~= toks);
    assert(u.last() == t);
    assert forall|x: Seq<char>| true implies (u.contains(x) <==> toks.contains(x) || x == t) by {
        if u.contains(x) {
            let i = choose|i: int| 0 <= i < u.len() && u[i] == x;
            if i < toks.len() {
                assert(toks[i] == x);
            }
        }
        if toks.contains(x) {
            let i = choose|i: int| 0 <= i < toks.len() && toks[i] == x;
            assert(u[i] == x);
        }
        assert(u[toks.len() as int] == t);
    }
    assert forall|x: Seq<char>| x != t implies count_occ(u, x) == count_occ(toks, x) by {}
    assert(count_map(u) =~= count_map(toks).insert(t, (count_occ(toks, t) + 1) as nat));
}

// ------------------------------------------------------------------
// TermFreq: one document's term -> count table.
// ------------------------------------------------------------------

/// Whether a frequency table's entries are well formed: unique terms,
/// every count at least one.
pub open spec fn tf_wf(s: Seq<(Seq<char>, nat)>) -> bool {
    unique_keys(s) && forall|i: int| 0 <= i < s.len() ==> (#[trigger] s[i]).1 >= 1
}

/// Mapping from term to positive occurrence count, scoped to one document.
#[derive(Debug, PartialEq)]
pub struct TermFreq {
    pub(crate) entries: Vec<(Vec<char>, usize)>,
}

impl View for TermFreq {
    type V = Seq<(Seq<char>, nat)>;

    closed spec fn view(&self) -> Seq<(Seq<char>, nat)> {
        self.entries@.map_values(|e: (Vec<char>, usize)| (e.0@, e.1 as nat))
    }
}

impl TermFreq {
    pub open spec fn wf(&self) -> bool {
        tf_wf(self@)
    }

    /// The mapping this table stands for.
    pub open spec fn to_map(&self) -> Map<Seq<char>, nat> {
        map_of(self@)
    }

    pub fn new() -> (tf: TermFreq)
        ensures
            tf@ == Seq::<(Seq<char>, nat)>::empty(),
            tf.wf(),
    {
        let tf = TermFreq { entries: Vec::new() };
        proof {
            assert(tf@ =~= Seq::<(Seq<char>, nat)>::empty());
        }
        tf
    }

    /// The number of distinct terms recorded.
    pub fn len(&self) -> (n: usize)
        ensures
            n == self@.len(),
    {
        self.entries.len()
    }

    pub(crate) fn find_index(&self, term: &[char]) -> (r: Option<usize>)
        ensures
            match r {
                Some(i) => i < self@.len() && self@[i as int].0 == term@,
                None => forall|i: int| 0 <= i < self@.len() ==> (#[trigger] self@[i]).0 != term@,
            },
    {
        let mut i: usize = 0;
        while i < self.entries.len()
            invariant
                i <= self@.len(),
                self@.len() == self.entries@.len(),
                forall|j: int| 0 <= j < i ==> (#[trigger] self@[j]).0 != term@,
            decreases self@.len() - i,
        {
            if chars_eq(self.entries[i].0.as_slice(), term) {
                return Some(i);
            }
            i += 1;
        }
        None
    }

    /// The count recorded for a term, if the term occurs.
    pub fn get(&self, term: &[char]) -> (r: Option<usize>)
        requires
            self.wf(),
        ensures
            match r {
                Some(c) => self.to_map().contains_key(term@) && self.to_map()[term@] == c as nat
                    && c >= 1,
                None => !self.to_map().contains_key(term@),
            },
    {
        proof {
            lemma_map_of(self@);
        }
        match self.find_index(term) {
            Some(i) => Some(self.entries[i].1),
            None => None,
        }
    }

    /// Record one more occurrence of `term`: a new term starts at one,
    /// a known term's count rises by one.
    fn increment(&mut self, term: &[char])
        requires
            old(self).wf(),
            old(self).to_map().contains_key(term@) ==> old(self).to_map()[term@] < usize::MAX,
        ensures
            final(self).wf(),
            final(self).to_map() == old(self).to_map().insert(
                term@,
                if old(self).to_map().contains_key(term@) {
                    (old(self).to_map()[term@] + 1) as nat
                } else {
                    1 as nat
                },
            ),
    {
        proof {
            lemma_map_of(old(self)@);
        }
        match self.find_index(term) {
            Some(i) => {
                let key = clone_chars(&self.entries[i].0);
                let c = self.entries[i].1;
                proof {
                    assert(self@[i as int].1 == c as nat);
                    assert(self.to_map()[term@] == c as nat);
                }
                self.entries.set(i, (key, c + 1));
                proof {
                    assert(self@ =~= old(self)@.update(i as int, (term@, (c + 1) as nat)));
                    lemma_map_of_update(old(self)@, i as int, (c + 1) as nat);
                    assert(tf_wf(self@)) by {
                        assert(forall|j: int|
                            0 <= j < self@.len() && j != i ==> self@[j] == old(self)@[j]);
                    }
                }
            },
            None => {
                proof {
                    assert(!old(self).to_map().contains_key(term@));
                }
                let key = vstd::slice::slice_to_vec(term);
                self.entries.push((key, 1));
                proof {
                    assert(self@ =~= old(self)@.push((term@, 1 as nat)));
                    lemma_map_of_push(old(self)@, (term@, 1 as nat));
                    assert(tf_wf(self@)) by {
                        assert(forall|j: int|
                            0 <= j < old(self)@.len() ==> self@[j] == old(self)@[j]);
                        assert(self@[self@.len() - 1] == (term@, 1 as nat));
                    }
                }
            },
        }
    }
}

/// An owned copy of a character vector.
fn clone_chars(v: &Vec<char>) -> (r: Vec<char>)
    ensures
        r@ == v@,
{
    let mut r: Vec<char> = Vec::new();
    let mut i: usize = 0;
    while i < v.len()
        invariant
            i <= v@.len(),
            r@ == v@.take(i as int),
        decreases v@.len() - i,
    {
        r.push(v[i]);
        proof {
            assert(r@ =~= v@.take(i + 1 as int));
        }
        i += 1;
    }
    proof {
        assert(v@.take(v@.len() as int) =~= v@);
    }
    r
}

// ------------------------------------------------------------------
// The Document Indexer: pure function from text to TermFreq.
// ------------------------------------------------------------------

/// Count each term of the text: the final count of a term equals the
/// number of times the tokenizer emitted it.
pub fn index_document(text: &[char]) -> (tf: TermFreq)
    ensures
        tf.wf(),
        tf.to_map() == count_map(tokens_of(text@)),
{
    let toks = tokenize(text);
    let ghost all = toks.deep_view();
    let mut tf = TermFreq::new();
    let mut i: usize = 0;
    proof {
        assert(all.take(0) =~= Seq::<Seq<char>>::empty());
        assert(tf.to_map() =~= count_map(all.take(0)));
    }
    while i < toks.len()
        invariant
            i <= toks@.len(),
            all == toks.deep_view(),
            all == tokens_of(text@),
            toks@.len() == all.len(),
            tf.wf(),
            tf.to_map() == count_map(all.take(i as int)),
        decreases toks@.len() - i,
    {
        let ghost pre = all.take(i as int);
        let ghost t = all[i as int];
        proof {
            lemma_count_occ_le(pre, t);
            if tf.to_map().contains_key(t) {
                assert(tf.to_map()[t] == count_occ(pre, t));
                assert(count_occ(pre, t) <= pre.len());
            }
            assert(all[i as int] == toks@[i as int].deep_view());
            assert(toks@[i as int].deep_view() =~= toks@[i as int]@);
        }
        tf.increment(toks[i].as_slice());
        proof {
            lemma_count_occ_le(pre, t);
            lemma_count_map_push(pre, t);
            assert(all.take(i as int + 1) =~= pre.push(t));
            assert(tf.to_map() == count_map(all.take(i as int + 1)));
        }
        i += 1;
    }
    proof {
        assert(all.take(all.len() as int) =~= all);
    }
    tf
}

// ------------------------------------------------------------------
// CorpusIndex: mapping from document path to TermFreq.
// ------------------------------------------------------------------

/// The persisted artifact: one entry per successfully indexed document.
#[derive(Debug, PartialEq)]
pub struct CorpusIndex {
    pub(crate) entries: Vec<(Vec<char>, TermFreq)>,
}

impl View for CorpusIndex {
    type V = Seq<(Seq<char>, Seq<(Seq<char>, nat)>)>;

    closed spec fn view(&self) -> Seq<(Seq<char>, Seq<(Seq<char>, nat)>)> {
        self.entries@.map_values(|e: (Vec<char>, TermFreq)| (e.0@, e.1@))
    }
}

/// Unique paths, each frequency table well formed.
pub open spec fn index_wf(s: Seq<(Seq<char>, Seq<(Seq<char>, nat)>)>) -> bool {
    unique_keys(s) && forall|i: int| 0 <= i < s.len() ==> tf_wf((#[trigger] s[i]).1)
}

impl CorpusIndex {
    pub open spec fn wf(&self) -> bool {
        index_wf(self@)
    }

    /// The mapping this index stands for.
    pub open spec fn to_map(&self) -> Map<Seq<char>, Seq<(Seq<char>, nat)>> {
        map_of(self@)
    }

    pub fn new() -> (ci: CorpusIndex)
        ensures
            ci@ == Seq::<(Seq<char>, Seq<(Seq<char>, nat)>)>::empty(),
            ci.wf(),
    {
        let ci = CorpusIndex { entries: Vec::new() };
        proof {
            assert(ci@ =~= Seq::<(Seq<char>, Seq<(Seq<char>, nat)>)>::empty());
        }
        ci
    }

    /// The number of documents recorded.
    pub fn len(&self) -> (n: usize)
        ensures
            n == self@.len(),
    {
        self.entries.len()
    }

    pub(crate) fn find_index(&self, path: &[char]) -> (r: Option<usize>)
        ensures
            match r {
                Some(i) => i < self@.len() && self@[i as int].0 == path@,
                None => forall|i: int| 0 <= i < self@.len() ==> (#[trigger] self@[i]).0 != path@,
            },
    {
        let mut i: usize = 0;
        while i < self.entries.len()
            invariant
                i <= self@.len(),
                self@.len() == self.entries@.len(),
                forall|j: int| 0 <= j < i ==> (#[trigger] self@[j]).0 != path@,
            decreases self@.len() - i,
        {
            if chars_eq(self.entries[i].0.as_slice(), path) {
                return Some(i);
            }
            i += 1;
        }
        None
    }

    /// The frequency table recorded for a document, if any.
    pub fn get(&self, path: &[char]) -> (r: Option<&TermFreq>)
        requires
            self.wf(),
        ensures
            match r {
                Some(tf) => self.to_map().contains_key(path@) && tf@ == self.to_map()[path@]
                    && tf.wf(),
                None => !self.to_map().contains_key(path@),
            },
    {
        proof {
            lemma_map_of(self@);
        }
        match self.find_index(path) {
            Some(i) => Some(&self.entries[i].1),
            None => None,
        }
    }

    /// Merge one per-document result: first write wins, a duplicate path
    /// leaves the index unchanged and reports `false`.
    pub fn insert_document(&mut self, path: Vec<char>, tf: TermFreq) -> (fresh: bool)
        requires
            old(self).wf(),
            tf.wf(),
        ensures
            final(self).wf(),
            fresh <==> !old(self).to_map().contains_key(path@),
            fresh ==> final(self)@ == old(self)@.push((path@, tf@)),
            !fresh ==> final(self)@ == old(self)@,
    {
        proof {
            lemma_map_of(old(self)@);
        }
        match self.find_index(path.as_slice()) {
            Some(_) => false,
            None => {
                self.entries.push((path, tf));
                proof {
                    assert(self@ =~= old(self)@.push((path@, tf@)));
                    assert(index_wf(self@)) by {
                        assert(forall|j: int|
                            0 <= j < old(self)@.len() ==> self@[j] == old(self)@[j]);
                        assert(self@[self@.len() - 1] == (path@, tf@));
                    }
                }
                true
            },
        }
    }
}

// ------------------------------------------------------------------
// The Coordinator's fan-in: merging per-document results.
// ------------------------------------------------------------------

/// The view of a batch of per-document results.
pub open spec fn results_view(rs: Seq<(Vec<char>, TermFreq)>) -> Seq<
    (Seq<char>, Seq<(Seq<char>, nat)>),
> {
    rs.map_values(|e: (Vec<char>, TermFreq)| (e.0@, e.1@))
}

/// The view of a frequency table's entry vector.
pub open spec fn tf_entries_view(s: Seq<(Vec<char>, usize)>) -> Seq<(Seq<char>, nat)> {
    s.map_values(|e: (Vec<char>, usize)| (e.0@, e.1 as nat))
}

/// A frequency table's view is the view of its entry vector.
pub(crate) proof fn lemma_tf_view(tf: &TermFreq)
    ensures
        tf@ == tf_entries_view(tf.entries@),
{
    assert(tf@ =~= tf_entries_view(tf.entries@));
}

/// A corpus index's view is the view of its entry vector.
pub(crate) proof fn lemma_ci_view(ci: &CorpusIndex)
    ensures
        ci@ == results_view(ci.entries@),
{
    assert(ci@ =~= results_view(ci.entries@));
}

/// Every count in a table's view fits the machine word it is stored in.
pub proof fn lemma_tf_counts_bounded(tf: &TermFreq)
    ensures
        forall|j: int| 0 <= j < tf@.len() ==> (#[trigger] tf@[j]).1 <= usize::MAX,
{
    assert forall|j: int| 0 <= j < tf@.len() implies (#[trigger] tf@[j]).1 <= usize::MAX by {
        assert(tf@[j].1 == tf.entries@[j].1 as nat);
    }
}

/// Every count anywhere in an index's view fits the machine word.
pub proof fn lemma_ci_counts_bounded(ci: &CorpusIndex)
    ensures
        forall|i: int, j: int|
            0 <= i < ci@.len() && 0 <= j < (#[trigger] ci@[i]).1.len() ==> (#[trigger] ci@[i].1[j]).1
                <= usize::MAX,
{
    assert forall|i: int, j: int|
        0 <= i < ci@.len() && 0 <= j < (#[trigger] ci@[i]).1.len() implies (#[trigger] ci@[i].1[j]).1
        <= usize::MAX by {
        assert(ci@[i].1 == ci.entries@[i].1@);
        lemma_tf_counts_bounded(&ci.entries@[i].1);
    }
}

/// First-write-wins accumulation of a result sequence.
pub open spec fn first_write_map<T>(s: Seq<(Seq<char>, T)>) -> Map<Seq<char>, T>
    decreases s.len(),
{
    if s.len() == 0 {
        Map::empty()
    } else {
        let m = first_write_map(s.drop_last());
        if m.contains_key(s.last().0) {
            m
        } else {
            m.insert(s.last().0, s.last().1)
        }
    }
}

/// Every binding of a first-write map comes from an entry of the sequence.
pub proof fn lemma_first_write_map<T>(s: Seq<(Seq<char>, T)>)
    ensures
        forall|i: int| 0 <= i < s.len() ==> first_write_map(s).contains_key((#[trigger] s[i]).0),
        forall|k: Seq<char>| #[trigger] first_write_map(s).contains_key(k) ==> exists|i: int|
            0 <= i < s.len() && #[trigger] s[i] == (k, first_write_map(s)[k]),
    decreases s.len(),
{
    if s.len() > 0 {
        let s0 = s.drop_last();
        let m0 = first_write_map(s0);
        lemma_first_write_map(s0);
        assert forall|i: int| 0 <= i < s.len() implies first_write_map(s).contains_key(
            (#[trigger] s[i]).0,
        ) by {
            if i < s.len() - 1 {
                assert(s0[i] == s[i]);
            }
        }
        assert forall|k: Seq<char>| #[trigger] first_write_map(s).contains_key(k) implies exists|
            i: int,
        | 0 <= i < s.len() && #[trigger] s[i] == (k, first_write_map(s)[k]) by {
            if m0.contains_key(k) {
                let i = choose|i: int| 0 <= i < s0.len() && #[trigger] s0[i] == (k, m0[k]);
                assert(s[i] == (k, first_write_map(s)[k]));
            } else {
                assert(s[s.len() - 1] == (k, first_write_map(s)[k]));
            }
        }
    }
}

/// With unique keys, first-write-wins is plain map construction.
pub proof fn lemma_first_write_map_unique<T>(s: Seq<(Seq<char>, T)>)
    requires
        unique_keys(s),
    ensures
        first_write_map(s) == map_of(s),
    decreases s.len(),
{
    if s.len() > 0 {
        let s0 = s.drop_last();
        assert(unique_keys(s0)) by {
            assert(forall|j: int| 0 <= j < s0.len() ==> s0[j] == s[j]);
        }
        lemma_first_write_map_unique(s0);
        lemma_map_of(s0);
        assert(!map_of(s0).contains_key(s.last().0)) by {
            if map_of(s0).contains_key(s.last().0) {
                let i = choose|i: int| 0 <= i < s0.len() && (#[trigger] s0[i]).0 == s.last().0;
                assert(s[i] == s0[i]);
            }
        }
    }
}

/// Merging independent per-document results is order-independent: any
/// interleaving of the same results yields the same corpus mapping, with
/// exactly one entry per unique path.
pub proof fn lemma_merge_order_independent<T>(r1: Seq<(Seq<char>, T)>, r2: Seq<(Seq<char>, T)>)
    requires
        unique_keys(r1),
        r1.to_multiset() == r2.to_multiset(),
    ensures
        first_write_map(r2) == first_write_map(r1),
        first_write_map(r1).dom().finite(),
        first_write_map(r1).dom().len() == r1.len(),
{
    broadcast use vstd::seq_lib::group_to_multiset_ensures;

    lemma_first_write_map_unique(r1);
    lemma_map_of(r1);
    lemma_first_write_map(r1);
    lemma_first_write_map(r2);
    assert forall|k: Seq<char>| #[trigger] first_write_map(r2).contains_key(k) implies
        first_write_map(r1).contains_key(k) && first_write_map(r2)[k] == first_write_map(
        r1,
    )[k] by {
        let i = choose|i: int| 0 <= i < r2.len() && #[trigger] r2[i] == (k, first_write_map(r2)[k]);
        let pair = r2[i];
        assert(r2.contains(pair));
        assert(r2.to_multiset().count(pair) > 0);
        assert(r1.to_multiset().count(pair) > 0);
        assert(r1.contains(pair));
        let j = choose|j: int| 0 <= j < r1.len() && r1[j] == pair;
        assert(map_of(r1)[r1[j].0] == r1[j].1);
    }
    assert forall|k: Seq<char>| #[trigger] first_write_map(r1).contains_key(k) implies
        first_write_map(r2).contains_key(k) by {
        let i = choose|i: int| 0 <= i < r1.len() && #[trigger] r1[i] == (k, first_write_map(r1)[k]);
        let pair = r1[i];
        assert(r1.contains(pair));
        assert(r1.to_multiset().count(pair) > 0);
        assert(r2.to_multiset().count(pair) > 0);
        assert(r2.contains(pair));
        let j = choose|j: int| 0 <= j < r2.len() && r2[j] == pair;
        assert(first_write_map(r2).contains_key(r2[j].0));
    }
    assert(first_write_map(r2) =~= first_write_map(r1));
}

/// The Coordinator's aggregation: drain all results once, merging each
/// into the index, first write wins.
pub fn merge_results(results: Vec<(Vec<char>, TermFreq)>) -> (ci: CorpusIndex)
    requires
        forall|i: int| 0 <= i < results@.len() ==> tf_wf((#[trigger] results_view(results@)[i]).1),
    ensures
        ci.wf(),
        ci.to_map() == first_write_map(results_view(results@)),
{
    let ghost orig = results@;
    let mut rest = results;
    let mut ci = CorpusIndex::new();
    let ghost mut k: int = 0;
    proof {
        assert(orig.skip(0) =~= orig);
        assert(results_view(orig).take(0) =~= Seq::<(Seq<char>, Seq<(Seq<char>, nat)>)>::empty());
        assert(ci.to_map() =~= first_write_map(results_view(orig).take(0)));
    }
    while rest.len() > 0
        invariant
            0 <= k <= orig.len(),
            rest@ == orig.skip(k),
            forall|i: int| 0 <= i < orig.len() ==> tf_wf((#[trigger] results_view(orig)[i]).1),
            ci.wf(),
            ci.to_map() == first_write_map(results_view(orig).take(k)),
        decreases rest@.len(),
    {
        let ghost rest_pre = rest@;
        let (path, tf) = rest.remove(0);
        proof {
            assert(rest_pre[0] == orig[k]);
            assert(rest@ =~= orig.skip(k + 1));
            assert(results_view(orig)[k] == (path@, tf@));
        }
        let ghost pre = results_view(orig).take(k);
        let ghost ci_pre = ci@;
        let fresh = ci.insert_document(path, tf);
        proof {
            let e = results_view(orig)[k];
            assert(results_view(orig).take(k + 1) =~= pre.push(e));
            assert(pre.push(e).drop_last() =~= pre);
            if fresh {
                lemma_map_of_push(ci_pre, e);
            }
            assert(ci.to_map() == first_write_map(results_view(orig).take(k + 1)));
            k = k + 1;
        }
    }
    proof {
        assert(orig.skip(k).len() == 0);
        assert(k == orig.len());
        assert(results_view(orig).take(k) =~= results_view(orig));
    }
    ci
}

} // verus!
