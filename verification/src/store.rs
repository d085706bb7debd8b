//! The word-indexed sentence store.
//!
//! Three relations: sentences (a surrogate id and the text), words, and the
//! sentence-word membership. A sentence is inserted once per call and is
//! never de-duplicated; a membership pair is unique, and re-adding it is a
//! no-op. A query returns the texts of every sentence containing a word, in
//! ascending length order, ties broken by insertion order, either unbounded
//! or capped at `RESULT_CAP` results.

use crate::text::str_eq;
use vstd::prelude::*;
use vstd::string::StrSliceExecFns;
use vstd::string::StringExecFns;

verus! {

/// The largest number of results a capped query returns.
pub const RESULT_CAP: usize = 200;

/// One membership row: this word occurs in that sentence.
struct Membership {
    word: String,
    sentence_id: u32,
}

/// The in-memory word-indexed sentence store.
pub struct Store {
    sentences: Vec<String>,
    pairs: Vec<Membership>,
}

/// Adding a membership pair: a no-op when the pair is present, an append
/// otherwise.
pub open spec fn add_pair_spec(ms: Seq<(Seq<char>, int)>, w: Seq<char>, id: int) -> Seq<
    (Seq<char>, int),
> {
    if ms.contains((w, id)) {
        ms
    } else {
        ms.push((w, id))
    }
}

/// Adding one membership pair per root, in order, each under `add_pair_spec`.
pub open spec fn add_pairs_spec(
    ms: Seq<(Seq<char>, int)>,
    roots: Seq<Seq<char>>,
    id: int,
) -> Seq<(Seq<char>, int)>
    decreases roots.len(),
{
    if roots.len() == 0 {
        ms
    } else {
        add_pair_spec(add_pairs_spec(ms, roots.drop_last(), id), roots.last(), id)
    }
}

/// How many times the pair `(w, id)` stands in `ms`.
pub open spec fn pair_count(ms: Seq<(Seq<char>, int)>, w: Seq<char>, id: int) -> nat
    decreases ms.len(),
{
    if ms.len() == 0 {
        0
    } else {
        (if ms.last() == (w, id) {
            1nat
        } else {
            0nat
        }) + pair_count(ms.drop_last(), w, id)
    }
}

/// No membership pair occurs twice.
pub open spec fn pairs_distinct(ms: Seq<(Seq<char>, int)>) -> bool {
    forall|i: int, j: int| 0 <= i < j < ms.len() ==> ms[i] != ms[j]
}

/// Every membership pair names an existing sentence.
pub open spec fn pairs_in_range(ms: Seq<(Seq<char>, int)>, n: int) -> bool {
    forall|i: int| 0 <= i < ms.len() ==> 0 <= (#[trigger] ms[i]).1 < n
}

/// The texts of the sentences holding `w`, drawn from the first `n`
/// membership pairs, in membership-insertion order.
pub open spec fn texts_for_prefix(
    ms: Seq<(Seq<char>, int)>,
    texts: Seq<Seq<char>>,
    w: Seq<char>,
    n: int,
) -> Seq<Seq<char>>
    decreases n,
{
    if n <= 0 {
        Seq::empty()
    } else {
        texts_for_prefix(ms, texts, w, n - 1) + (if ms[n - 1].0 == w {
            seq![texts[ms[n - 1].1]]
        } else {
            Seq::empty()
        })
    }
}

/// The texts of the sentences holding `w`, in membership-insertion order.
pub open spec fn word_texts(ms: Seq<(Seq<char>, int)>, texts: Seq<Seq<char>>, w: Seq<char>) -> Seq<
    Seq<char>,
> {
    texts_for_prefix(ms, texts, w, ms.len() as int)
}

/// Insert `x` into the length-sorted `s`: after every element whose length
/// is at most `x`'s, before the first longer one.
pub open spec fn insert_by_len(s: Seq<Seq<char>>, x: Seq<char>) -> Seq<Seq<char>>
    decreases s.len(),
{
    if s.len() == 0 {
        seq![x]
    } else if x.len() < s[0].len() {
        seq![x] + s
    } else {
        seq![s[0]] + insert_by_len(s.drop_first(), x)
    }
}

/// Stable sort by ascending length: elements of equal length keep their
/// order.
pub open spec fn sort_by_len(s: Seq<Seq<char>>) -> Seq<Seq<char>>
    decreases s.len(),
{
    if s.len() == 0 {
        Seq::empty()
    } else {
        insert_by_len(sort_by_len(s.drop_last()), s.last())
    }
}

/// What a query returns: the matching texts sorted by length, the whole of
/// them or the shortest `RESULT_CAP`.
pub open spec fn query_spec(
    ms: Seq<(Seq<char>, int)>,
    texts: Seq<Seq<char>>,
    w: Seq<char>,
    all: bool,
) -> Seq<Seq<char>> {
    let sorted = sort_by_len(word_texts(ms, texts, w));
    if all || sorted.len() <= RESULT_CAP {
        sorted
    } else {
        sorted.take(RESULT_CAP as int)
    }
}

impl Store {
    /// The stored sentence texts; a sentence's id is its position.
    pub closed spec fn texts(self) -> Seq<Seq<char>> {
        self.sentences@.map_values(|t: String| t@)
    }

    /// The stored membership pairs, in insertion order.
    pub closed spec fn pairs_model(self) -> Seq<(Seq<char>, int)> {
        self.pairs@.map_values(|m: Membership| (m.word@, m.sentence_id as int))
    }

    pub open spec fn wf(self) -> bool {
        &&& pairs_in_range(self.pairs_model(), self.texts().len() as int)
        &&& pairs_distinct(self.pairs_model())
    }

    pub open spec fn query_model(self, w: Seq<char>, all: bool) -> Seq<Seq<char>> {
        query_spec(self.pairs_model(), self.texts(), w, all)
    }

    /// An empty store.
    pub fn new() -> (r: Store)
        ensures
            r.wf(),
            r.texts() == Seq::<Seq<char>>::empty(),
            r.pairs_model() == Seq::<(Seq<char>, int)>::empty(),
    {
        let r = Store { sentences: Vec::new(), pairs: Vec::new() };
        proof {
            assert(r.texts() =~= Seq::<Seq<char>>::empty());
            assert(r.pairs_model() =~= Seq::<(Seq<char>, int)>::empty());
        }
        r
    }

    /// How many sentences the store holds.
    pub fn sentence_count(&self) -> (n: usize)
        ensures
            n == self.texts().len(),
    {
        self.sentences.len()
    }

    /// The text of the sentence with id `i`.
    pub fn sentence_at(&self, i: usize) -> (t: &String)
        requires
            i < self.texts().len(),
        ensures
            t@ == self.texts()[i as int],
    {
        &self.sentences[i]
    }

    /// How many membership pairs the store holds.
    pub fn membership_count(&self) -> (n: usize)
        ensures
            n == self.pairs_model().len(),
    {
        self.pairs.len()
    }

    /// The word of membership pair number `i`, in insertion order.
    pub fn membership_word(&self, i: usize) -> (w: &String)
        requires
            i < self.pairs_model().len(),
        ensures
            w@ == self.pairs_model()[i as int].0,
    {
        &self.pairs[i].word
    }

    /// The sentence id of membership pair number `i`, in insertion order.
    pub fn membership_sentence(&self, i: usize) -> (id: u32)
        requires
            i < self.pairs_model().len(),
        ensures
            id as int == self.pairs_model()[i as int].1,
    {
        self.pairs[i].sentence_id
    }

    /// Insert a sentence and return its id. Identical text inserted twice
    /// makes two sentences with two ids.
    pub fn add_sentence(&mut self, sentence: &str) -> (id: u32)
        requires
            old(self).wf(),
            old(self).texts().len() < 0xFFFF_FFFF,
        ensures
            final(self).wf(),
            id == old(self).texts().len(),
            final(self).texts() == old(self).texts().push(sentence@),
            final(self).pairs_model() == old(self).pairs_model(),
    {
        let id = self.sentences.len() as u32;
        let owned = String::from_str(sentence);
        self.sentences.push(owned);
        proof {
            assert(self.texts() =~= old(self).texts().push(sentence@));
            assert(self.pairs_model() =~= old(self).pairs_model());
        }
        id
    }

    /// Whether the membership pair already stands in the store.
    fn has_pair(&self, word: &str, sentence_id: u32) -> (r: bool)
        ensures
            r == self.pairs_model().contains((word@, sentence_id as int)),
    {
        let n = self.pairs.len();
        let mut i: usize = 0;
        while i < n
            invariant
                i <= n,
                n == self.pairs@.len(),
                forall|k: int| 0 <= k < i ==> #[trigger] self.pairs_model()[k] != (
                word@,
                sentence_id as int,
                ),
            decreases n - i,
        {
            let m = &self.pairs[i];
            if str_eq(m.word.as_str(), word) && m.sentence_id == sentence_id {
                proof {
                    assert(self.pairs_model()[i as int] == (word@, sentence_id as int));
                }
                return true;
            }
            i = i + 1;
        }
        proof {
            if self.pairs_model().contains((word@, sentence_id as int)) {
                let k = choose|k: int|
                    0 <= k < self.pairs_model().len() && self.pairs_model()[k] == (
                    word@,
                    sentence_id as int,
                    );
                assert(self.pairs_model()[k] != (word@, sentence_id as int));
            }
        }
        false
    }

    /// Record the membership without the referential check; the caller
    /// guarantees the sentence exists.
    pub(crate) fn insert_pair(&mut self, word: &str, sentence_id: u32)
        requires
            old(self).wf(),
            (sentence_id as int) < old(self).texts().len(),
        ensures
            final(self).wf(),
            final(self).texts() == old(self).texts(),
            final(self).pairs_model() == add_pair_spec(
                old(self).pairs_model(),
                word@,
                sentence_id as int,
            ),
    {
        if !self.has_pair(word, sentence_id) {
            let owned = String::from_str(word);
            self.pairs.push(Membership { word: owned, sentence_id });
            proof {
                assert(self.pairs_model() =~= old(self).pairs_model().push(
                    (word@, sentence_id as int),
                ));
                assert(self.texts() =~= old(self).texts());
                let pm = self.pairs_model();
                let n = pm.len();
                assert(forall|i: int| 0 <= i < n - 1 ==> pm[i] == old(self).pairs_model()[i]);
                assert forall|i: int, j: int| 0 <= i < j < n implies pm[i] != pm[j] by {
                    if j == n - 1 {
                        assert(!old(self).pairs_model().contains((word@, sentence_id as int)));
                        assert(old(self).pairs_model()[i] == pm[i]);
                    }
                }
            }
        }
    }

    /// Record that `word` occurs in the sentence with id `sentence_id`.
    /// Re-adding the same pair neither errors nor duplicates; an id that
    /// names no stored sentence is refused.
    pub fn add_word(&mut self, word: &str, sentence_id: u32) -> (r: Result<(), StoreError>)
        requires
            old(self).wf(),
        ensures
            final(self).wf(),
            final(self).texts() == old(self).texts(),
            if (sentence_id as int) < old(self).texts().len() {
                r is Ok && final(self).pairs_model() == add_pair_spec(
                    old(self).pairs_model(),
                    word@,
                    sentence_id as int,
                )
            } else {
                r == Result::<(), StoreError>::Err(StoreError::MissingSentence)
                    && final(self).pairs_model() == old(self).pairs_model()
            },
    {
        if (sentence_id as usize) < self.sentences.len() {
            self.insert_pair(word, sentence_id);
            Ok(())
        } else {
            Err(StoreError::MissingSentence)
        }
    }

    /// Every sentence text containing `word`, shortest first, ties in
    /// insertion order; with `all` false at most `RESULT_CAP` results.
    pub fn matching_sentences(&self, word: &str, all: bool) -> (r: Vec<String>)
        requires
            self.wf(),
        ensures
            r@.map_values(|t: String| t@) == self.query_model(word@, all),
    {
        let n = self.pairs.len();
        let mut found: Vec<String> = Vec::new();
        proof {
            assert(found@.map_values(|t: String| t@) =~= texts_for_prefix(
                self.pairs_model(),
                self.texts(),
                word@,
                0,
            ));
        }
        let mut i: usize = 0;
        while i < n
            invariant
                i <= n,
                n == self.pairs@.len(),
                self.wf(),
                found@.map_values(|t: String| t@) == texts_for_prefix(
                    self.pairs_model(),
                    self.texts(),
                    word@,
                    i as int,
                ),
            decreases n - i,
        {
            let ghost before = found@.map_values(|t: String| t@);
            let m = &self.pairs[i];
            if str_eq(m.word.as_str(), word) {
                proof {
                    assert(self.pairs_model()[i as int] == (m.word@, m.sentence_id as int));
                    assert(0 <= self.pairs_model()[i as int].1 < self.texts().len());
                }
                let text = &self.sentences[m.sentence_id as usize];
                let copy = text.clone();
                found.push(copy);
                proof {
                    assert(found@.map_values(|t: String| t@) =~= before + seq![
                        self.texts()[self.pairs_model()[i as int].1],
                    ]);
                }
            }
            i = i + 1;
        }
        let sorted = sort_vec_by_len(found);
        let mut r = sorted;
        if !all && r.len() > RESULT_CAP {
            r.truncate(RESULT_CAP);
        }
        r
    }

    /// Every sentence text containing `word`, shortest first, uncapped.
    pub fn matching_word(&self, word: &str) -> (r: Vec<String>)
        requires
            self.wf(),
        ensures
            r@.map_values(|t: String| t@) == self.query_model(word@, true),
    {
        self.matching_sentences(word, true)
    }
}

/// A failure of the store.
#[derive(Debug, Clone, Copy, PartialEq, Eq, Structural)]
pub enum StoreError {
    /// A membership named a sentence id that no stored sentence carries.
    MissingSentence,
}

proof fn lemma_pair_count_contains(ms: Seq<(Seq<char>, int)>, w: Seq<char>, id: int)
    ensures
        ms.contains((w, id)) <==> pair_count(ms, w, id) > 0,
    decreases ms.len(),
{
    if ms.len() > 0 {
        lemma_pair_count_contains(ms.drop_last(), w, id);
        if ms.last() == (w, id) {
            assert(ms[ms.len() - 1] == (w, id));
        } else {
            if ms.contains((w, id)) {
                let k = choose|k: int| 0 <= k < ms.len() && ms[k] == (w, id);
                assert(ms.drop_last()[k] == (w, id));
            }
            if ms.drop_last().contains((w, id)) {
                let k = choose|k: int| 0 <= k < ms.len() - 1 && ms.drop_last()[k] == (w, id);
                assert(ms[k] == (w, id));
            }
        }
    }
}

proof fn lemma_distinct_pair_count(ms: Seq<(Seq<char>, int)>, w: Seq<char>, id: int)
    requires
        pairs_distinct(ms),
    ensures
        pair_count(ms, w, id) <= 1,
    decreases ms.len(),
{
    if ms.len() > 0 {
        let d = ms.drop_last();
        assert(forall|i: int, j: int| 0 <= i < j < d.len() ==> d[i] != d[j]);
        lemma_distinct_pair_count(d, w, id);
        if ms.last() == (w, id) {
            lemma_pair_count_contains(d, w, id);
            if d.contains((w, id)) {
                let k = choose|k: int| 0 <= k < d.len() && d[k] == (w, id);
                assert(ms[k] == ms[ms.len() - 1]);
            }
        }
    }
}

/// Law: membership is idempotent. Adding the pair `(w, id)` to a store
/// without duplicate pairs leaves it standing exactly once, and adding it
/// again changes nothing.
pub proof fn lemma_membership_idempotent(ms: Seq<(Seq<char>, int)>, w: Seq<char>, id: int)
    requires
        pairs_distinct(ms),
    ensures
        add_pair_spec(add_pair_spec(ms, w, id), w, id) == add_pair_spec(ms, w, id),
        pair_count(add_pair_spec(ms, w, id), w, id) == 1,
{
    let once = add_pair_spec(ms, w, id);
    lemma_pair_count_contains(ms, w, id);
    if ms.contains((w, id)) {
        lemma_distinct_pair_count(ms, w, id);
    } else {
        assert(once == ms.push((w, id)));
        assert(once.drop_last() =~= ms);
        assert(once.last() == (w, id));
        assert(pair_count(ms, w, id) == 0);
        assert(once[once.len() - 1] == (w, id));
        assert(once.contains((w, id)));
    }
}

proof fn lemma_texts_for_prefix_unknown(
    ms: Seq<(Seq<char>, int)>,
    texts: Seq<Seq<char>>,
    w: Seq<char>,
    n: int,
)
    requires
        forall|i: int| 0 <= i < ms.len() ==> (#[trigger] ms[i]).0 != w,
        n <= ms.len(),
    ensures
        texts_for_prefix(ms, texts, w, n).len() == 0,
    decreases n,
{
    if n > 0 {
        lemma_texts_for_prefix_unknown(ms, texts, w, n - 1);
    }
}

/// Law: a query for a word that no membership names returns the empty
/// sequence, never an error, in either mode.
pub proof fn lemma_unknown_word_empty(
    ms: Seq<(Seq<char>, int)>,
    texts: Seq<Seq<char>>,
    w: Seq<char>,
    all: bool,
)
    requires
        forall|i: int| 0 <= i < ms.len() ==> (#[trigger] ms[i]).0 != w,
    ensures
        query_spec(ms, texts, w, all) == Seq::<Seq<char>>::empty(),
{
    lemma_texts_for_prefix_unknown(ms, texts, w, ms.len() as int);
    assert(word_texts(ms, texts, w) =~= Seq::<Seq<char>>::empty());
    assert(query_spec(ms, texts, w, all) =~= Seq::<Seq<char>>::empty());
}

proof fn lemma_insert_by_len_len(s: Seq<Seq<char>>, x: Seq<char>)
    ensures
        insert_by_len(s, x).len() == s.len() + 1,
    decreases s.len(),
{
    if s.len() > 0 && !(x.len() < s[0].len()) {
        lemma_insert_by_len_len(s.drop_first(), x);
    }
}

proof fn lemma_sort_by_len_len(s: Seq<Seq<char>>)
    ensures
        sort_by_len(s).len() == s.len(),
    decreases s.len(),
{
    if s.len() > 0 {
        lemma_sort_by_len_len(s.drop_last());
        lemma_insert_by_len_len(sort_by_len(s.drop_last()), s.last());
    }
}

/// Law: a capped query never returns more than `RESULT_CAP` results, and an
/// unrestricted query returns the full matching set.
pub proof fn lemma_query_cap(ms: Seq<(Seq<char>, int)>, texts: Seq<Seq<char>>, w: Seq<char>)
    ensures
        query_spec(ms, texts, w, false).len() <= RESULT_CAP,
        query_spec(ms, texts, w, true).len() == word_texts(ms, texts, w).len(),
{
    lemma_sort_by_len_len(word_texts(ms, texts, w));
}

/// Ascending length order over a whole sequence.
pub open spec fn sorted_by_len(s: Seq<Seq<char>>) -> bool {
    forall|i: int, j: int| 0 <= i < j < s.len() ==> (#[trigger] s[i]).len() <= (#[trigger] s[j]).len()
}

proof fn lemma_insert_by_len_sorted(s: Seq<Seq<char>>, x: Seq<char>)
    requires
        sorted_by_len(s),
    ensures
        sorted_by_len(insert_by_len(s, x)),
    decreases s.len(),
{
    if s.len() == 0 {
    } else if x.len() < s[0].len() {
        let r = seq![x] + s;
        assert forall|i: int, j: int| 0 <= i < j < r.len() implies (#[trigger] r[i]).len() <= (
        #[trigger] r[j]).len() by {
            if i > 0 {
                assert(r[i] == s[i - 1]);
                assert(r[j] == s[j - 1]);
            } else {
                assert(r[j] == s[j - 1]);
                assert(x.len() <= s[j - 1].len());
            }
        }
    } else {
        let d = s.drop_first();
        assert(forall|i: int, j: int| 0 <= i < j < d.len() ==> (#[trigger] d[i]).len() <= (
        #[trigger] d[j]).len()) by {
            assert(forall|i: int| 0 <= i < d.len() ==> d[i] == s[i + 1]);
        }
        lemma_insert_by_len_sorted(d, x);
        let rd = insert_by_len(d, x);
        let r = seq![s[0]] + rd;
        lemma_insert_by_len_len(d, x);
        assert forall|i: int, j: int| 0 <= i < j < r.len() implies (#[trigger] r[i]).len() <= (
        #[trigger] r[j]).len() by {
            if i > 0 {
                assert(r[i] == rd[i - 1]);
                assert(r[j] == rd[j - 1]);
            } else {
                assert(r[j] == rd[j - 1]);
                lemma_insert_by_len_member(d, x, j - 1);
            }
        }
    }
}

proof fn lemma_insert_by_len_member(s: Seq<Seq<char>>, x: Seq<char>, k: int)
    requires
        0 <= k < insert_by_len(s, x).len(),
    ensures
        insert_by_len(s, x)[k] == x || s.contains(insert_by_len(s, x)[k]),
    decreases s.len(),
{
    lemma_insert_by_len_len(s, x);
    if s.len() == 0 {
    } else if x.len() < s[0].len() {
        let r = seq![x] + s;
        if k > 0 {
            assert(r[k] == s[k - 1]);
        }
    } else {
        let rd = insert_by_len(s.drop_first(), x);
        let r = seq![s[0]] + rd;
        if k == 0 {
            assert(s.contains(s[0]));
        } else {
            lemma_insert_by_len_member(s.drop_first(), x, k - 1);
            assert(r[k] == rd[k - 1]);
            if s.drop_first().contains(rd[k - 1]) {
                let m = choose|m: int|
                    0 <= m < s.drop_first().len() && s.drop_first()[m] == rd[k - 1];
                assert(s[m + 1] == rd[k - 1]);
            }
        }
    }
}

/// Law: the sort underlying every query leaves the results in ascending
/// length order.
pub proof fn lemma_sort_by_len_sorted(s: Seq<Seq<char>>)
    ensures
        sorted_by_len(sort_by_len(s)),
    decreases s.len(),
{
    if s.len() > 0 {
        lemma_sort_by_len_sorted(s.drop_last());
        lemma_insert_by_len_sorted(sort_by_len(s.drop_last()), s.last());
    }
}

proof fn lemma_insert_by_len_at(s: Seq<Seq<char>>, x: Seq<char>, k: int)
    requires
        0 <= k <= s.len(),
        forall|i: int| 0 <= i < k ==> (#[trigger] s[i]).len() <= x.len(),
        k < s.len() ==> x.len() < s[k].len(),
    ensures
        insert_by_len(s, x) == s.take(k) + seq![x] + s.skip(k),
    decreases k,
{
    if k == 0 {
        assert(insert_by_len(s, x) =~= s.take(0) + seq![x] + s.skip(0));
    } else {
        let d = s.drop_first();
        assert(s[0].len() <= x.len());
        assert forall|i: int| 0 <= i < k - 1 implies (#[trigger] d[i]).len() <= x.len() by {
            assert(d[i] == s[i + 1]);
        }
        assert(k - 1 < d.len() ==> x.len() < d[k - 1].len());
        lemma_insert_by_len_at(d, x, k - 1);
        assert(insert_by_len(s, x) =~= s.take(k) + seq![x] + s.skip(k));
    }
}

/// Insert one element into a vector already sorted by ascending length,
/// after every element of equal length.
fn insert_sorted(v: &mut Vec<String>, x: String)
    ensures
        final(v)@.map_values(|t: String| t@) == insert_by_len(
            old(v)@.map_values(|t: String| t@),
            x@,
        ),
{
    let ghost s = v@.map_values(|t: String| t@);
    let xlen = x.as_str().unicode_len();
    let n = v.len();
    let mut k: usize = 0;
    while k < n && v[k].as_str().unicode_len() <= xlen
        invariant
            k <= n,
            n == v@.len(),
            v@.map_values(|t: String| t@) == s,
            xlen == x@.len(),
            forall|i: int| 0 <= i < k ==> (#[trigger] s[i]).len() <= x@.len(),
        decreases n - k,
    {
        proof {
            assert(s[k as int] == v@[k as int]@);
        }
        k = k + 1;
    }
    proof {
        assert(k < n ==> x@.len() < s[k as int].len());
        lemma_insert_by_len_at(s, x@, k as int);
    }
    v.insert(k, x);
    proof {
        assert(v@.map_values(|t: String| t@) =~= s.take(k as int) + seq![x@] + s.skip(k as int));
    }
}

/// Sort by ascending length; elements of equal length keep their order.
fn sort_vec_by_len(v: Vec<String>) -> (r: Vec<String>)
    ensures
        r@.map_values(|t: String| t@) == sort_by_len(v@.map_values(|t: String| t@)),
{
    let ghost s = v@.map_values(|t: String| t@);
    let n = v.len();
    let mut out: Vec<String> = Vec::new();
    proof {
        assert(out@.map_values(|t: String| t@) =~= sort_by_len(s.take(0)));
    }
    let mut i: usize = 0;
    while i < n
        invariant
            i <= n,
            n == v@.len(),
            s == v@.map_values(|t: String| t@),
            out@.map_values(|t: String| t@) == sort_by_len(s.take(i as int)),
        decreases n - i,
    {
        let x = v[i].clone();
        proof {
            assert(x@ == s[i as int]);
            assert(s.take(i + 1).drop_last() =~= s.take(i as int));
            assert(s.take(i + 1).last() == s[i as int]);
        }
        insert_sorted(&mut out, x);
        i = i + 1;
    }
    proof {
        assert(s.take(n as int) =~= s);
    }
    out
}

} // verus!
