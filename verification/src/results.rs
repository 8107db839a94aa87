use vstd::prelude::*;

use crate::rng::random_below;
use crate::text::str_eq;
use crate::words::has_verb_form;
use crate::words::has_verb_form_spec;
use crate::words::Database;
use crate::words::PartOfSpeech;
use crate::words::VerbFormExercise;
use crate::words::WordRecord;

verus! {

/// The ways the score store can refuse a request.
#[derive(Debug, Clone, Copy, PartialEq, Eq, Structural)]
pub enum StoreError {
    /// No entries at all: no distribution can be built.
    EmptyStore,
    /// A filtered draw found no eligible entry.
    NoCandidates,
    /// A word id without an entry was to be recorded.
    NotFound,
    /// Persisted bytes that are not a valid encoding.
    Corrupt,
}

/// What one performance record holds: the word id and both counters.
pub struct ExerciseResultsView {
    pub word: Seq<char>,
    pub correct: u32,
    pub wrong: u32,
}

/// The score of a record: each wrong answer cancels two correct ones, so
/// weak words sink below fresh ones.
pub open spec fn score_spec(v: ExerciseResultsView) -> int {
    v.correct - 2 * v.wrong
}

/// One word's performance record.
#[derive(Debug)]
pub struct ExerciseResults {
    word: String,
    correct: u32,
    wrong: u32,
}

impl View for ExerciseResults {
    type V = ExerciseResultsView;

    closed spec fn view(&self) -> ExerciseResultsView {
        ExerciseResultsView { word: self.word@, correct: self.correct, wrong: self.wrong }
    }
}

impl ExerciseResults {
    /// A fresh record for a word: both counters zero.
    pub fn new(s: &str) -> (r: Self)
        ensures
            r@.word == s@,
            r@.correct == 0,
            r@.wrong == 0,
    {
        ExerciseResults { word: s.to_owned(), correct: 0, wrong: 0 }
    }

    /// A record with given counters.
    pub fn with_counts(word: String, correct: u32, wrong: u32) -> (r: Self)
        ensures
            r@.word == word@,
            r@.correct == correct,
            r@.wrong == wrong,
    {
        ExerciseResults { word, correct, wrong }
    }

    /// Count one answer: a correct one raises `correct` by exactly one and
    /// leaves `wrong` alone; a wrong one does the opposite.
    pub fn add(&mut self, correct: bool)
        requires
            old(self)@.correct < u32::MAX,
            old(self)@.wrong < u32::MAX,
        ensures
            final(self)@.word == old(self)@.word,
            correct ==> final(self)@.correct == old(self)@.correct + 1 && final(self)@.wrong
                == old(self)@.wrong,
            !correct ==> final(self)@.wrong == old(self)@.wrong + 1 && final(self)@.correct
                == old(self)@.correct,
    {
        if correct {
            self.correct = self.correct + 1;
        } else {
            self.wrong = self.wrong + 1;
        }
    }

    pub fn score(&self) -> (r: i64)
        ensures
            r == score_spec(self@),
    {
        self.correct as i64 - 2 * (self.wrong as i64)
    }

    pub fn get_word(&self) -> (r: &str)
        ensures
            r@ == self@.word,
    {
        self.word.as_str()
    }

    pub fn correct_count(&self) -> (r: u32)
        ensures
            r == self@.correct,
    {
        self.correct
    }

    pub fn wrong_count(&self) -> (r: u32)
        ensures
            r == self@.wrong,
    {
        self.wrong
    }
}

/// The records of a sequence of entries, as plain values.
pub open spec fn entry_views(s: Seq<ExerciseResults>) -> Seq<ExerciseResultsView> {
    s.map_values(|e: ExerciseResults| e@)
}

/// Whether some entry carries the given word id.
pub open spec fn has_entry(s: Seq<ExerciseResults>, w: Seq<char>) -> bool {
    exists|i: int| 0 <= i < s.len() && (#[trigger] s[i])@.word == w
}

/// Whether `i` is the first entry carrying the word id `w`.
pub open spec fn first_match(s: Seq<ExerciseResults>, w: Seq<char>, i: int) -> bool {
    &&& 0 <= i < s.len()
    &&& s[i]@.word == w
    &&& forall|k: int| 0 <= k < i ==> (#[trigger] s[k])@.word != w
}

/// Whether `new_s` is `old_s` with the answer counted on entry `i`.
pub open spec fn recorded_at(
    old_s: Seq<ExerciseResults>,
    new_s: Seq<ExerciseResults>,
    i: int,
    correct: bool,
) -> bool {
    &&& new_s.len() == old_s.len()
    &&& forall|k: int| 0 <= k < old_s.len() && k != i ==> new_s[k] == old_s[k]
    &&& new_s[i]@.word == old_s[i]@.word
    &&& new_s[i]@.correct == old_s[i]@.correct + (if correct {
        1int
    } else {
        0int
    })
    &&& new_s[i]@.wrong == old_s[i]@.wrong + (if correct {
        0int
    } else {
        1int
    })
}

/// The entry an answer on `w` would be counted on — the first entry with
/// that word id — still has room on both counters.
pub open spec fn room_to_count(s: Seq<ExerciseResults>, w: Seq<char>) -> bool {
    forall|i: int|
        #[trigger] first_match(s, w, i) ==> s[i]@.correct < u32::MAX && s[i]@.wrong < u32::MAX
}

/// Whether entry `a` scores no higher than entry `b`.
pub open spec fn entry_le(a: ExerciseResults, b: ExerciseResults) -> bool {
    score_spec(a@) <= score_spec(b@)
}

/// Whether the entries are in ascending score order.
pub open spec fn sorted_entries(s: Seq<ExerciseResults>) -> bool {
    forall|i: int, j: int| 0 <= i < j < s.len() ==> #[trigger] entry_le(s[i], s[j])
}

/// Insert an entry behind every entry scoring no higher: the position that
/// keeps equal scores in their first-seen order.
pub open spec fn insert_sorted(s: Seq<ExerciseResults>, e: ExerciseResults) -> Seq<
    ExerciseResults,
>
    decreases s.len(),
{
    if s.len() == 0 {
        seq![e]
    } else if entry_le(s.last(), e) {
        s.push(e)
    } else {
        insert_sorted(s.drop_last(), e).push(s.last())
    }
}

/// Sort entries by ascending score, ties keeping their order.
pub open spec fn sort_entries(s: Seq<ExerciseResults>) -> Seq<ExerciseResults>
    decreases s.len(),
{
    if s.len() == 0 {
        s
    } else {
        insert_sorted(sort_entries(s.drop_last()), s.last())
    }
}

proof fn lemma_insert_sorted_at(s: Seq<ExerciseResults>, e: ExerciseResults, idx: int)
    requires
        sorted_entries(s),
        0 <= idx <= s.len(),
        forall|k: int| 0 <= k < idx ==> entry_le(#[trigger] s[k], e),
        forall|k: int| idx <= k < s.len() ==> !entry_le(#[trigger] s[k], e),
    ensures
        insert_sorted(s, e) == s.take(idx) + seq![e] + s.skip(idx),
    decreases s.len(),
{
    if s.len() == 0 {
        assert(insert_sorted(s, e) =~= s.take(idx) + seq![e] + s.skip(idx));
    } else if entry_le(s.last(), e) {
        assert(idx == s.len());
        assert(s.push(e) =~= s.take(idx) + seq![e] + s.skip(idx));
    } else {
        let dl = s.drop_last();
        assert(idx < s.len());
        assert(forall|k: int| 0 <= k < idx ==> entry_le(#[trigger] dl[k], e));
        assert(forall|k: int| idx <= k < dl.len() ==> !entry_le(#[trigger] dl[k], e));
        lemma_insert_sorted_at(dl, e, idx);
        assert((dl.take(idx) + seq![e] + dl.skip(idx)).push(s.last()) =~= s.take(idx) + seq![e]
            + s.skip(idx));
    }
}

proof fn lemma_insert_sorted_props(s: Seq<ExerciseResults>, e: ExerciseResults)
    requires
        sorted_entries(s),
    ensures
        sorted_entries(insert_sorted(s, e)),
        insert_sorted(s, e).len() == s.len() + 1,
        insert_sorted(s, e).to_multiset() == s.to_multiset().insert(e),
        forall|i: int|
            0 <= i < insert_sorted(s, e).len() ==> (#[trigger] insert_sorted(s, e)[i]) == e
                || exists|k: int| 0 <= k < s.len() && insert_sorted(s, e)[i] == s[k],
    decreases s.len(),
{
    broadcast use vstd::seq_lib::group_to_multiset_ensures;

    let r = insert_sorted(s, e);
    if s.len() == 0 {
        assert(seq![e] =~= Seq::<ExerciseResults>::empty().push(e));
        assert(r.to_multiset() =~= s.to_multiset().insert(e));
    } else if entry_le(s.last(), e) {
        assert(r == s.push(e));
        assert forall|i: int, j: int| 0 <= i < j < r.len() implies #[trigger] entry_le(
            r[i],
            r[j],
        ) by {
            if j < s.len() {
            } else {
                if i < s.len() - 1 {
                    assert(entry_le(s[i], s[s.len() - 1]));
                }
            }
        }
    } else {
        let dl = s.drop_last();
        lemma_insert_sorted_props(dl, e);
        let t = insert_sorted(dl, e);
        assert(r == t.push(s.last()));
        assert forall|i: int, j: int| 0 <= i < j < r.len() implies #[trigger] entry_le(
            r[i],
            r[j],
        ) by {
            if j < t.len() {
            } else {
                assert(r[j] == s.last());
                assert(t[i] == e || exists|k: int| 0 <= k < dl.len() && t[i] == dl[k]);
                if t[i] == e {
                    assert(!entry_le(s.last(), e));
                } else {
                    let k = choose|k: int| 0 <= k < dl.len() && t[i] == dl[k];
                    assert(entry_le(s[k], s[s.len() - 1]));
                }
            }
        }
        assert(dl.push(s.last()) =~= s);
        assert(r.to_multiset() =~= s.to_multiset().insert(e));
    }
}

/// Sorting keeps exactly the records: what `save_results` writes is the
/// same collection of entries, in ascending score order.
pub proof fn lemma_sort_entries_props(s: Seq<ExerciseResults>)
    ensures
        sorted_entries(sort_entries(s)),
        sort_entries(s).len() == s.len(),
        sort_entries(s).to_multiset() == s.to_multiset(),
    decreases s.len(),
{
    broadcast use vstd::seq_lib::group_to_multiset_ensures;

    if s.len() > 0 {
        let dl = s.drop_last();
        lemma_sort_entries_props(dl);
        lemma_insert_sorted_props(sort_entries(dl), s.last());
        assert(dl.push(s.last()) =~= s);
        assert(sort_entries(s).to_multiset() =~= s.to_multiset());
    }
}

/// Sorting leaves an already sorted sequence exactly as it is.
proof fn lemma_sort_of_sorted(s: Seq<ExerciseResults>)
    requires
        sorted_entries(s),
    ensures
        sort_entries(s) == s,
    decreases s.len(),
{
    if s.len() > 0 {
        let dl = s.drop_last();
        assert(forall|i: int, j: int| 0 <= i < j < dl.len() ==> #[trigger] entry_le(dl[i], dl[j]));
        lemma_sort_of_sorted(dl);
        if dl.len() == 0 {
            assert(sort_entries(s) =~= s);
        } else {
            assert(entry_le(dl.last(), s.last()));
            assert(dl.push(s.last()) =~= s);
        }
    }
}

/// The index where an entry belongs in a sorted vector: behind every entry
/// scoring no higher.
fn find_insert_idx(out: &Vec<ExerciseResults>, e: &ExerciseResults) -> (idx: usize)
    requires
        sorted_entries(out@),
    ensures
        idx <= out@.len(),
        forall|k: int| 0 <= k < idx ==> entry_le(#[trigger] out@[k], *e),
        forall|k: int| idx <= k < out@.len() ==> !entry_le(#[trigger] out@[k], *e),
{
    let n = out.len();
    let esc = e.score();
    let mut i: usize = 0;
    while i < n
        invariant
            i <= n,
            n == out@.len(),
            sorted_entries(out@),
            esc == score_spec(e@),
            forall|k: int| 0 <= k < i ==> entry_le(#[trigger] out@[k], *e),
        decreases n - i,
    {
        if out[i].score() > esc {
            proof {
                assert forall|k: int| i <= k < out@.len() implies !entry_le(
                    #[trigger] out@[k],
                    *e,
                ) by {
                    if k > i {
                        assert(entry_le(out@[i as int], out@[k]));
                    }
                }
            }
            return i;
        }
        i += 1;
    }
    n
}

/// Sort entries by ascending score with a stable insertion sort.
fn sort_results(v: Vec<ExerciseResults>) -> (r: Vec<ExerciseResults>)
    ensures
        r@ == sort_entries(v@),
        sorted_entries(r@),
{
    let ghost orig = v@;
    let mut v = v;
    let mut out: Vec<ExerciseResults> = Vec::new();
    let ghost mut i: int = 0;
    while v.len() > 0
        invariant
            0 <= i <= orig.len(),
            v@ == orig.skip(i),
            out@ == sort_entries(orig.take(i)),
            sorted_entries(out@),
        decreases v@.len(),
    {
        let ghost out_before = out@;
        let e = v.remove(0);
        proof {
            assert(orig.skip(i)[0] == orig[i]);
            assert(orig.skip(i).remove(0) =~= orig.skip(i + 1));
        }
        let idx = find_insert_idx(&out, &e);
        proof {
            lemma_insert_sorted_at(out_before, e, idx as int);
            lemma_insert_sorted_props(out_before, e);
        }
        out.insert(idx, e);
        proof {
            assert(out@ =~= out_before.take(idx as int) + seq![e] + out_before.skip(idx as int));
            assert(orig.take(i + 1).drop_last() =~= orig.take(i));
            assert(orig.take(i + 1).last() == orig[i]);
            assert(out@ == sort_entries(orig.take(i + 1)));
            i = i + 1;
        }
    }
    proof {
        assert(orig.take(orig.len() as int) =~= orig);
    }
    out
}

/// The weight the recompute formula assigns to a score, given the highest
/// and lowest score in the store.
pub open spec fn weight_formula(max: int, min: int, score: int) -> int {
    2 * max - min - score + 1
}

/// The sum of a sequence of weights.
pub open spec fn sum_weights(w: Seq<u64>) -> int
    decreases w.len(),
{
    if w.len() == 0 {
        0
    } else {
        sum_weights(w.drop_last()) + w.last()
    }
}

proof fn lemma_sum_weights_at_least_len(w: Seq<u64>)
    requires
        forall|i: int| 0 <= i < w.len() ==> #[trigger] w[i] >= 1,
    ensures
        sum_weights(w) >= w.len(),
    decreases w.len(),
{
    if w.len() > 0 {
        lemma_sum_weights_at_least_len(w.drop_last());
    }
}

proof fn lemma_sum_weights_prefix_le(w: Seq<u64>, i: int, j: int)
    requires
        0 <= i <= j <= w.len(),
    ensures
        sum_weights(w.take(i)) <= sum_weights(w.take(j)),
    decreases j - i,
{
    if i < j {
        lemma_sum_weights_prefix_le(w, i, j - 1);
        assert(w.take(j).drop_last() =~= w.take(j - 1));
    }
}

/// The cumulative sums of a weight vector: the distribution a draw
/// searches.
fn build_cum(weights: &Vec<u64>) -> (dist: Vec<u128>)
    ensures
        dist@.len() == weights@.len(),
        forall|i: int| 0 <= i < dist@.len() ==> #[trigger] dist@[i] == sum_weights(
            weights@.take(i + 1),
        ),
    decreases weights@.len(),
{
    let n = weights.len();
    let mut dist: Vec<u128> = Vec::new();
    let mut acc: u128 = 0;
    let mut i: usize = 0;
    while i < n
        invariant
            i <= n,
            n == weights@.len(),
            dist@.len() == i,
            acc == sum_weights(weights@.take(i as int)),
            acc <= i * 0x1_0000_0000_0000_0000,
            forall|k: int| 0 <= k < i ==> #[trigger] dist@[k] == sum_weights(weights@.take(k + 1)),
        decreases n - i,
    {
        proof {
            assert(weights@.take(i + 1).drop_last() =~= weights@.take(i as int));
            assert(weights@.take(i + 1).last() == weights@[i as int]);
        }
        let w = weights[i];
        let acc2 = acc + (w as u128);
        dist.push(acc2);
        acc = acc2;
        i += 1;
    }
    dist
}

/// The entry a draw lands on: the first index whose cumulative weight
/// exceeds the drawn value, found by binary search.
pub fn pick_from_dist(dist: &Vec<u128>, t: u128) -> (r: usize)
    requires
        dist@.len() > 0,
        forall|i: int, j: int| 0 <= i <= j < dist@.len() ==> #[trigger] dist@[i] <= #[trigger] dist@[j],
        t < dist@[dist@.len() - 1],
    ensures
        r < dist@.len(),
        t < dist@[r as int],
        forall|k: int| 0 <= k < r ==> #[trigger] dist@[k] <= t,
{
    let mut lo: usize = 0;
    let mut hi: usize = dist.len();
    while lo < hi
        invariant
            lo <= hi <= dist@.len(),
            forall|i: int, j: int| 0 <= i <= j < dist@.len() ==> #[trigger] dist@[i]
                <= #[trigger] dist@[j],
            t < dist@[dist@.len() - 1],
            forall|k: int| 0 <= k < lo ==> #[trigger] dist@[k] <= t,
            forall|k: int| hi <= k < dist@.len() ==> #[trigger] dist@[k] > t,
        decreases hi - lo,
    {
        let mid = lo + (hi - lo) / 2;
        if dist[mid] <= t {
            proof {
                assert forall|k: int| 0 <= k < mid + 1 implies #[trigger] dist@[k] <= t by {
                    if k <= mid {
                        assert(dist@[k] <= dist@[mid as int]);
                    }
                }
            }
            lo = mid + 1;
        } else {
            proof {
                assert forall|k: int| mid <= k < dist@.len() implies #[trigger] dist@[k] > t by {
                    assert(dist@[mid as int] <= dist@[k]);
                }
            }
            hi = mid;
        }
    }
    proof {
        if lo == dist@.len() {
            assert(dist@[dist@.len() - 1] <= t);
            assert(false);
        }
    }
    lo
}

/// The score store: one record per word, the sampling weights derived from
/// the scores, the cumulative distribution built from the weights, and the
/// words missed in this session.
pub struct GameResults {
    results: Vec<ExerciseResults>,
    weights: Vec<u64>,
    rand_dist: Option<Vec<u128>>,
    training: Vec<String>,
}

impl GameResults {
    pub closed spec fn results_seq(self) -> Seq<ExerciseResults> {
        self.results@
    }

    pub closed spec fn weights_seq(self) -> Seq<u64> {
        self.weights@
    }

    pub closed spec fn training_seq(self) -> Seq<String> {
        self.training@
    }

    /// The cumulative distribution, if one has been built.
    pub closed spec fn dist_spec(self) -> Option<Seq<u128>> {
        match self.rand_dist {
            Some(d) => Some(d@),
            None => None,
        }
    }

    /// An empty store: nothing recorded, no distribution built.
    pub fn new() -> (r: Self)
        ensures
            r.results_seq().len() == 0,
            r.weights_seq().len() == 0,
            r.dist_spec() is None,
            r.training_seq().len() == 0,
    {
        GameResults { results: Vec::new(), weights: Vec::new(), rand_dist: None, training: Vec::new() }
    }

    /// The words missed in this session, in the order they were missed.
    pub fn get_training_words(&self) -> (r: &Vec<String>)
        ensures
            r@ == self.training_seq(),
    {
        &self.training
    }

    /// Remember a word as missed in this session.
    pub fn push_training(&mut self, word: &str)
        ensures
            final(self).training_seq().len() == old(self).training_seq().len() + 1,
            final(self).training_seq().take(old(self).training_seq().len() as int) == old(
                self,
            ).training_seq(),
            final(self).training_seq().last()@ == word@,
            final(self).results_seq() == old(self).results_seq(),
            final(self).weights_seq() == old(self).weights_seq(),
            final(self).dist_spec() == old(self).dist_spec(),
    {
        self.training.push(word.to_owned());
        proof {
            assert(final(self).training_seq().take(old(self).training_seq().len() as int) =~= old(
                self,
            ).training_seq());
        }
    }

    /// The first `n` word ids, which after sorting are the weakest words.
    pub fn get_top_words(&self, n: usize) -> (r: Vec<String>)
        ensures
            r@.len() == (if n <= self.results_seq().len() {
                n as int
            } else {
                self.results_seq().len() as int
            }),
            forall|i: int| 0 <= i < r@.len() ==> (#[trigger] r@[i])@ == self.results_seq()[i]@.word,
    {
        let mut r: Vec<String> = Vec::new();
        let count = if n <= self.results.len() {
            n
        } else {
            self.results.len()
        };
        let mut i: usize = 0;
        while i < count
            invariant
                i <= count <= self.results@.len(),
                r@.len() == i,
                forall|k: int| 0 <= k < i ==> (#[trigger] r@[k])@ == self.results@[k]@.word,
            decreases count - i,
        {
            r.push(self.results[i].word.clone());
            i += 1;
        }
        r
    }

    /// Count an answer on the entry of the given word id; the first entry
    /// with that id is the one counted. Without such an entry the store is
    /// left alone and the request refused.
    pub fn record(&mut self, word: &str, correct: bool) -> (r: Result<usize, StoreError>)
        requires
            room_to_count(old(self).results_seq(), word@),
        ensures
            r is Ok <==> has_entry(old(self).results_seq(), word@),
            r is Err ==> r == Err::<usize, StoreError>(StoreError::NotFound) && *final(self)
                == *old(self),
            r matches Ok(i) ==> first_match(old(self).results_seq(), word@, i as int)
                && recorded_at(
                old(self).results_seq(),
                final(self).results_seq(),
                i as int,
                correct,
            ) && final(self).weights_seq() == old(self).weights_seq() && final(self).dist_spec()
                == old(self).dist_spec() && final(self).training_seq() == old(
                self,
            ).training_seq(),
    {
        let n = self.results.len();
        let mut i: usize = 0;
        while i < n
            invariant
                i <= n,
                n == self.results@.len(),
                *self == *old(self),
                room_to_count(old(self).results@, word@),
                forall|k: int| 0 <= k < i ==> (#[trigger] self.results@[k])@.word != word@,
            decreases n - i,
        {
            if str_eq(self.results[i].get_word(), word) {
                proof {
                    assert(first_match(old(self).results@, word@, i as int));
                }
                let mut e = self.results.remove(i);
                e.add(correct);
                self.results.insert(i, e);
                proof {
                    assert(final(self).results@ =~= old(self).results@.update(i as int, e));
                    assert(recorded_at(
                        old(self).results@,
                        final(self).results@,
                        i as int,
                        correct,
                    ));
                }
                return Ok(i);
            }
            i += 1;
        }
        Err(StoreError::NotFound)
    }
}

/// A restriction on which catalog words a draw may return.
#[derive(Debug, Clone, Copy)]
pub enum WordFilter {
    ByPos(PartOfSpeech),
    ByVerbForm(VerbFormExercise),
}

/// Whether a catalog word passes a filter.
pub open spec fn filter_matches(w: WordRecord, f: WordFilter) -> bool {
    match f {
        WordFilter::ByPos(p) => w.pos_spec() == p,
        WordFilter::ByVerbForm(vf) => has_verb_form_spec(w, vf),
    }
}

/// Decide whether a catalog word passes a filter.
pub fn word_matches(w: &WordRecord, f: &WordFilter) -> (r: bool)
    ensures
        r == filter_matches(*w, *f),
{
    match f {
        WordFilter::ByPos(p) => w.get_pos() == *p,
        WordFilter::ByVerbForm(vf) => has_verb_form(w, vf),
    }
}

/// The view of a fresh zero-count record for a word id.
pub open spec fn fresh_view(w: Seq<char>) -> ExerciseResultsView {
    ExerciseResultsView { word: w, correct: 0, wrong: 0 }
}

/// The ids of the catalog words that have no entry in the store, in
/// catalog order.
pub open spec fn missing_words(s: Seq<ExerciseResults>, ws: Seq<WordRecord>) -> Seq<Seq<char>>
    decreases ws.len(),
{
    if ws.len() == 0 {
        Seq::empty()
    } else {
        let rest = missing_words(s, ws.drop_last());
        if has_entry(s, ws.last().word_spec()) {
            rest
        } else {
            rest.push(ws.last().word_spec())
        }
    }
}

/// Fresh zero-count records for a sequence of word ids.
pub open spec fn fresh_views(ws: Seq<Seq<char>>) -> Seq<ExerciseResultsView> {
    ws.map_values(|w: Seq<char>| fresh_view(w))
}

impl GameResults {
    /// The weights stand in lock-step with the entries and are all
    /// positive.
    pub open spec fn weights_built(self) -> bool {
        &&& self.weights_seq().len() == self.results_seq().len()
        &&& forall|i: int| 0 <= i < self.weights_seq().len() ==> #[trigger] self.weights_seq()[i]
            >= 1
    }

    /// The cumulative distribution stands in lock-step with the weights.
    pub open spec fn dist_built(self) -> bool {
        &&& self.weights_built()
        &&& self.dist_spec() is Some
        &&& self.dist_spec()->0.len() == self.weights_seq().len()
        &&& forall|i: int|
            0 <= i < self.weights_seq().len() ==> #[trigger] self.dist_spec()->0[i]
                == sum_weights(self.weights_seq().take(i + 1))
    }

    /// Recompute the sampling distribution: sort the entries by ascending
    /// score, then weight each entry by `2*max - min - score + 1`, so that
    /// every weight is positive and the weakest word weighs the most. An
    /// empty store has no distribution: that is refused.
    pub fn update_weights(&mut self) -> (r: Result<(), StoreError>)
        ensures
            old(self).results_seq().len() == 0 ==> r == Err::<(), StoreError>(
                StoreError::EmptyStore,
            ) && *final(self) == *old(self),
            old(self).results_seq().len() > 0 ==> r is Ok && ({
                let sorted = sort_entries(old(self).results_seq());
                &&& final(self).results_seq() == sorted
                &&& sorted_entries(sorted)
                &&& final(self).training_seq() == old(self).training_seq()
                &&& final(self).weights_seq().len() == sorted.len()
                &&& (forall|i: int|
                    0 <= i < sorted.len() ==> #[trigger] final(self).weights_seq()[i]
                        == weight_formula(
                        score_spec(sorted.last()@),
                        score_spec(sorted[0]@),
                        score_spec(sorted[i]@),
                    ))
                &&& final(self).dist_built()
            }),
    {
        if self.results.len() == 0 {
            return Err(StoreError::EmptyStore);
        }
        let rs = self.results.split_off(0);
        proof {
            assert(rs@ =~= old(self).results@);
        }
        let sorted_v = sort_results(rs);
        self.results = sorted_v;
        let n = self.results.len();
        proof {
            lemma_sort_entries_props(old(self).results@);
        }
        let max_s = self.results[n - 1].score();
        let min_s = self.results[0].score();
        proof {
            if n > 1 {
                assert(entry_le(self.results@[0], self.results@[n - 1]));
            }
        }
        let mut weights: Vec<u64> = Vec::new();
        let mut i: usize = 0;
        while i < n
            invariant
                i <= n,
                n == self.results@.len(),
                n > 0,
                sorted_entries(self.results@),
                max_s == score_spec(self.results@[n - 1]@),
                min_s == score_spec(self.results@[0]@),
                min_s <= max_s,
                weights@.len() == i,
                forall|k: int|
                    0 <= k < i ==> #[trigger] weights@[k] == weight_formula(
                        max_s as int,
                        min_s as int,
                        score_spec(self.results@[k]@),
                    ),
                forall|k: int| 0 <= k < i ==> #[trigger] weights@[k] >= 1,
            decreases n - i,
        {
            let sc = self.results[i].score();
            proof {
                if i > 0 {
                    assert(entry_le(self.results@[0], self.results@[i as int]));
                }
                if i < n - 1 {
                    assert(entry_le(self.results@[i as int], self.results@[n - 1]));
                }
            }
            let w = 2 * max_s - min_s - sc + 1;
            weights.push(w as u64);
            i += 1;
        }
        let dist = build_cum(&weights);
        self.weights = weights;
        self.rand_dist = Some(dist);
        Ok(())
    }

    /// Draw one entry at random, each entry weighted by the built
    /// distribution; only an index below the store's size can come back.
    pub fn select_word_to_learn(&self) -> (r: usize)
        requires
            self.dist_built(),
            self.results_seq().len() > 0,
        ensures
            r < self.results_seq().len(),
    {
        match &self.rand_dist {
            Some(d) => {
                let n = d.len();
                proof {
                    lemma_sum_weights_at_least_len(self.weights@);
                    assert(self.weights@.take(self.weights@.len() as int) =~= self.weights@);
                    assert forall|a: int, b: int| 0 <= a <= b < d@.len() implies #[trigger] d@[a]
                        <= #[trigger] d@[b] by {
                        lemma_sum_weights_prefix_le(self.weights@, a + 1, b + 1);
                    }
                }
                let total = d[n - 1];
                let t = random_below(total);
                pick_from_dist(d, t)
            },
            None => {
                proof {
                    assert(false);
                }
                0
            },
        }
    }

    /// Whether store entry `i` resolves to a catalog word passing the
    /// filter.
    pub open spec fn entry_matches(self, db: Database, f: WordFilter, i: int) -> bool {
        exists|j: int|
            0 <= j < db.words@.len() && (#[trigger] db.words@[j]).word_spec()
                == self.results_seq()[i]@.word && filter_matches(db.words@[j], f)
    }

    /// Draw one entry at random among those whose catalog word passes the
    /// filter, weighted by the current weights. With no eligible entry the
    /// draw is refused, never a crash.
    pub fn select_word_by_cmp(&self, db: &Database, f: &WordFilter) -> (r: Result<
        usize,
        StoreError,
    >)
        requires
            db.wf(),
            self.weights_built(),
        ensures
            r matches Ok(i) ==> i < self.results_seq().len() && self.entry_matches(
                *db,
                *f,
                i as int,
            ),
            r is Err <==> (forall|j: int|
                0 <= j < self.results_seq().len() ==> !self.entry_matches(*db, *f, j)),
            r is Err ==> r == Err::<usize, StoreError>(StoreError::NoCandidates),
    {
        let n = self.results.len();
        let mut fw: Vec<u64> = Vec::new();
        let mut fidx: Vec<usize> = Vec::new();
        let mut i: usize = 0;
        while i < n
            invariant
                i <= n,
                n == self.results@.len(),
                db.wf(),
                self.weights_built(),
                fw@.len() == fidx@.len(),
                forall|k: int|
                    0 <= k < fidx@.len() ==> (#[trigger] fidx@[k]) < i && self.entry_matches(
                        *db,
                        *f,
                        fidx@[k] as int,
                    ),
                forall|k: int|
                    0 <= k < fidx@.len() ==> #[trigger] fw@[k] == self.weights_seq()[fidx@[k] as int],
                forall|k: int| 0 <= k < fw@.len() ==> #[trigger] fw@[k] >= 1,
                forall|j: int|
                    0 <= j < i && self.entry_matches(*db, *f, j) ==> fidx@.contains(j as usize),
            decreases n - i,
        {
            let ghost fidx_before = fidx@;
            let e_word = self.results[i].get_word();
            match db.find_word(e_word) {
                Some(w) => {
                    if word_matches(w, f) {
                        proof {
                            let jw = choose|jw: int|
                                0 <= jw < db.words@.len() && db.words@[jw] == *w;
                            assert(db.words@[jw].word_spec() == self.results@[i as int]@.word);
                            assert(self.entry_matches(*db, *f, i as int));
                        }
                        fw.push(self.weights[i]);
                        fidx.push(i);
                        proof {
                            assert forall|j: int|
                                0 <= j < i + 1 && self.entry_matches(
                                    *db,
                                    *f,
                                    j,
                                ) implies fidx@.contains(j as usize) by {
                                if j < i {
                                    let k = choose|k: int|
                                        0 <= k < fidx_before.len() && fidx_before[k] == j as usize;
                                    assert(fidx@[k] == j as usize);
                                } else {
                                    assert(fidx@[fidx@.len() - 1] == i);
                                }
                            }
                        }
                    } else {
                        proof {
                            let jw = choose|jw: int|
                                0 <= jw < db.words@.len() && db.words@[jw] == *w;
                            assert forall|j: int|
                                0 <= j < db.words@.len() && (#[trigger] db.words@[j]).word_spec()
                                    == self.results@[i as int]@.word implies !filter_matches(
                                db.words@[j],
                                *f,
                            ) by {
                                if j != jw {
                                    assert(db.words@[j].word_spec() == db.words@[jw].word_spec());
                                }
                            }
                            assert(!self.entry_matches(*db, *f, i as int));
                        }
                    }
                },
                None => {
                    proof {
                        assert(!db.contains_word(self.results@[i as int]@.word));
                        assert(!self.entry_matches(*db, *f, i as int));
                    }
                },
            }
            i += 1;
        }
        if fidx.len() == 0 {
            return Err(StoreError::NoCandidates);
        }
        let dist = build_cum(&fw);
        proof {
            lemma_sum_weights_at_least_len(fw@);
            assert(fw@.take(fw@.len() as int) =~= fw@);
            assert forall|a: int, b: int| 0 <= a <= b < dist@.len() implies #[trigger] dist@[a]
                <= #[trigger] dist@[b] by {
                lemma_sum_weights_prefix_le(fw@, a + 1, b + 1);
            }
        }
        let total = dist[dist.len() - 1];
        let t = random_below(total);
        let k = pick_from_dist(&dist, t);
        let picked = fidx[k];
        proof {
            assert(self.entry_matches(*db, *f, fidx@[k as int] as int));
        }
        Ok(picked)
    }

    /// Draw among entries whose catalog word has the given part of speech.
    pub fn select_word_by_pos(&self, db: &Database, pos: PartOfSpeech) -> (r: Result<
        usize,
        StoreError,
    >)
        requires
            db.wf(),
            self.weights_built(),
        ensures
            r matches Ok(i) ==> i < self.results_seq().len() && self.entry_matches(
                *db,
                WordFilter::ByPos(pos),
                i as int,
            ),
            r is Err <==> (forall|j: int|
                0 <= j < self.results_seq().len() ==> !self.entry_matches(
                    *db,
                    WordFilter::ByPos(pos),
                    j,
                )),
            r is Err ==> r == Err::<usize, StoreError>(StoreError::NoCandidates),
    {
        self.select_word_by_cmp(db, &WordFilter::ByPos(pos))
    }

    /// Draw among entries whose catalog word is a verb carrying the
    /// asked-for form.
    pub fn select_word_with_verb_form(&self, db: &Database, form: &VerbFormExercise) -> (r: Result<
        usize,
        StoreError,
    >)
        requires
            db.wf(),
            self.weights_built(),
        ensures
            r matches Ok(i) ==> i < self.results_seq().len() && self.entry_matches(
                *db,
                WordFilter::ByVerbForm(*form),
                i as int,
            ),
            r is Err <==> (forall|j: int|
                0 <= j < self.results_seq().len() ==> !self.entry_matches(
                    *db,
                    WordFilter::ByVerbForm(*form),
                    j,
                )),
            r is Err ==> r == Err::<usize, StoreError>(StoreError::NoCandidates),
    {
        self.select_word_by_cmp(db, &WordFilter::ByVerbForm(*form))
    }

    /// Count an answer on a word's entry and rebuild the distribution at
    /// once, so the next draw reflects the latest state.
    pub fn record_outcome(&mut self, word: &str, correct: bool) -> (r: Result<(), StoreError>)
        requires
            room_to_count(old(self).results_seq(), word@),
        ensures
            r is Ok <==> has_entry(old(self).results_seq(), word@),
            r is Err ==> r == Err::<(), StoreError>(StoreError::NotFound) && *final(self) == *old(
                self,
            ),
            r is Ok ==> final(self).training_seq() == old(self).training_seq() && final(self).dist_built() && (exists|mid: Seq<ExerciseResults>, i: int|
                first_match(old(self).results_seq(), word@, i) && #[trigger] recorded_at(
                    old(self).results_seq(),
                    mid,
                    i,
                    correct,
                ) && final(self).results_seq() == sort_entries(mid)),
    {
        match self.record(word, correct) {
            Err(e) => Err(e),
            Ok(i) => {
                let ghost mid = self.results@;
                let ghost fmi = i as int;
                match self.update_weights() {
                    Ok(_) => {
                        proof {
                            assert(recorded_at(old(self).results@, mid, fmi, correct));
                        }
                        Ok(())
                    },
                    Err(_) => {
                        proof {
                            assert(false);
                        }
                        Err(StoreError::EmptyStore)
                    },
                }
            },
        }
    }

    pub fn results_len(&self) -> (r: usize)
        ensures
            r == self.results_seq().len(),
    {
        self.results.len()
    }

    pub fn entry_at(&self, i: usize) -> (r: &ExerciseResults)
        requires
            i < self.results_seq().len(),
        ensures
            *r == self.results_seq()[i as int],
    {
        &self.results[i]
    }

    pub fn get_weights(&self) -> (r: &Vec<u64>)
        ensures
            r@ == self.weights_seq(),
    {
        &self.weights
    }

    pub fn has_dist(&self) -> (r: bool)
        ensures
            r == (self.dist_spec() is Some),
    {
        self.rand_dist.is_some()
    }

    /// Sort the entries by ascending score and hand back the bytes that
    /// persist them. Decoding these bytes gives exactly the sorted records
    /// back, so a later load reproduces the saved set of records.
    pub fn save_results(&mut self) -> (out: Vec<u8>)
        ensures
            final(self).results_seq() == sort_entries(old(self).results_seq()),
            final(self).weights_seq() == old(self).weights_seq(),
            final(self).dist_spec() == old(self).dist_spec(),
            final(self).training_seq() == old(self).training_seq(),
            out@ == crate::codec::encode_spec(entry_views(sort_entries(old(self).results_seq()))),
            crate::codec::decode_spec(out@) == Some(
                entry_views(sort_entries(old(self).results_seq())),
            ),
    {
        let rs = self.results.split_off(0);
        proof {
            assert(rs@ =~= old(self).results@);
        }
        let sorted_v = sort_results(rs);
        self.results = sorted_v;
        crate::codec::encode_results(&self.results)
    }

    /// Replace the entries with the ones the bytes persist; bytes that are
    /// not a valid encoding are refused and the store is left alone.
    pub fn load_results(&mut self, data: &Vec<u8>) -> (r: Result<(), StoreError>)
        ensures
            r is Ok <==> crate::codec::decode_spec(data@) is Some,
            r is Err ==> r == Err::<(), StoreError>(StoreError::Corrupt) && *final(self) == *old(
                self,
            ),
            r is Ok ==> Some(entry_views(final(self).results_seq())) == crate::codec::decode_spec(
                data@,
            ) && final(self).weights_seq() == old(self).weights_seq() && final(self).dist_spec()
                == old(self).dist_spec() && final(self).training_seq() == old(self).training_seq(),
    {
        match crate::codec::decode_results(data) {
            Ok(v) => {
                self.results = v;
                Ok(())
            },
            Err(e) => Err(e),
        }
    }

    /// Whether some entry of the store's results carries the word id.
    fn has_entry_exec(&self, word: &str) -> (r: bool)
        ensures
            r == has_entry(self.results@, word@),
    {
        let n = self.results.len();
        let mut i: usize = 0;
        while i < n
            invariant
                i <= n,
                n == self.results@.len(),
                forall|k: int| 0 <= k < i ==> (#[trigger] self.results@[k])@.word != word@,
            decreases n - i,
        {
            if str_eq(self.results[i].get_word(), word) {
                return true;
            }
            i += 1;
        }
        false
    }

    /// Reconcile the store against the catalog: give every catalog word
    /// without an entry a fresh zero-count entry, keep every existing
    /// entry, and sort. Entries for words gone from the catalog stay.
    pub fn update_with_db(&mut self, db: &Database)
        requires
            db.wf(),
        ensures
            final(self).training_seq() == old(self).training_seq(),
            final(self).weights_seq() == old(self).weights_seq(),
            final(self).dist_spec() == old(self).dist_spec(),
            exists|adds: Seq<ExerciseResults>|
                #[trigger] entry_views(adds) == fresh_views(
                    missing_words(old(self).results_seq(), db.words@),
                ) && final(self).results_seq() == sort_entries(old(self).results_seq() + adds),
    {
        let ghost old_s = self.results@;
        let ghost mut adds: Seq<ExerciseResults> = Seq::empty();
        let n = db.words.len();
        let mut j: usize = 0;
        proof {
            assert(old_s + adds =~= old_s);
            assert(missing_words(old_s, db.words@.take(0)) =~= Seq::<Seq<char>>::empty());
            assert(entry_views(adds) =~= fresh_views(missing_words(old_s, db.words@.take(0))));
        }
        while j < n
            invariant
                j <= n,
                n == db.words@.len(),
                db.wf(),
                self.results@ == old_s + adds,
                self.weights@ == old(self).weights@,
                self.rand_dist == old(self).rand_dist,
                self.training@ == old(self).training@,
                entry_views(adds) == fresh_views(missing_words(old_s, db.words@.take(j as int))),
                forall|k: int|
                    0 <= k < adds.len() ==> exists|m: int|
                        0 <= m < j && (#[trigger] adds[k])@.word == db.words@[m].word_spec(),
            decreases n - j,
        {
            let ghost adds_before = adds;
            let w_rec = &db.words[j];
            let wstr = w_rec.get_word();
            let present = self.has_entry_exec(wstr);
            proof {
                // A word never clashes with an entry added for an earlier
                // catalog word: catalog ids are unique.
                if has_entry(adds, wstr@) {
                    let k = choose|k: int| 0 <= k < adds.len() && (#[trigger] adds[k])@.word == wstr@;
                    let m = choose|m: int|
                        0 <= m < j && (#[trigger] adds[k])@.word == db.words@[m].word_spec();
                    assert(db.words@[m].word_spec() == db.words@[j as int].word_spec());
                    assert(false);
                }
                if has_entry(old_s, wstr@) {
                    let k = choose|k: int| 0 <= k < old_s.len() && (#[trigger] old_s[k])@.word == wstr@;
                    assert((old_s + adds)[k] == old_s[k]);
                    assert(has_entry(old_s + adds, wstr@));
                }
                if has_entry(old_s + adds, wstr@) {
                    let k = choose|k: int|
                        0 <= k < (old_s + adds).len() && (#[trigger] (old_s + adds)[k])@.word
                            == wstr@;
                    if k < old_s.len() {
                        assert(old_s[k]@.word == wstr@);
                    } else {
                        assert(adds[k - old_s.len()]@.word == wstr@);
                    }
                }
                assert(present == has_entry(old_s, wstr@));
            }
            if !present {
                let e = ExerciseResults::new(wstr);
                self.results.push(e);
                proof {
                    adds = adds.push(e);
                    assert(self.results@ =~= old_s + adds);
                }
            }
            proof {
                let tj = db.words@.take(j + 1);
                assert(tj.drop_last() =~= db.words@.take(j as int));
                assert(tj.last() == db.words@[j as int]);
                if present {
                    assert(entry_views(adds) == fresh_views(missing_words(old_s, tj)));
                } else {
                    assert(missing_words(old_s, tj) == missing_words(
                        old_s,
                        db.words@.take(j as int),
                    ).push(wstr@));
                    assert(entry_views(adds) =~= entry_views(adds_before).push(
                        adds.last()@,
                    ));
                    assert(fresh_views(missing_words(old_s, tj)) =~= fresh_views(
                        missing_words(old_s, db.words@.take(j as int)),
                    ).push(fresh_view(wstr@)));
                }
            }
            j += 1;
        }
        let rs = self.results.split_off(0);
        proof {
            assert(rs@ =~= old_s + adds);
        }
        let sorted_v = sort_results(rs);
        self.results = sorted_v;
        proof {
            assert(db.words@.take(n as int) =~= db.words@);
            assert(entry_views(adds) == fresh_views(
                missing_words(old(self).results_seq(), db.words@),
            ) && final(self).results_seq() == sort_entries(old(self).results_seq() + adds));
        }
    }
}

/// For every non-empty sorted store, the recompute formula yields weights
/// that are all strictly positive, and an entry with a lower score never
/// weighs less than one with a higher score: the minimum-score entry
/// carries the maximum weight.
pub proof fn lemma_recompute_weights_law(s: Seq<ExerciseResults>)
    requires
        sorted_entries(s),
        s.len() > 0,
    ensures
        forall|i: int| #![trigger s[i]]
            0 <= i < s.len() ==> weight_formula(
                score_spec(s.last()@),
                score_spec(s[0]@),
                score_spec(s[i]@),
            ) > 0,
        forall|i: int| #![trigger s[i]]
            0 <= i < s.len() ==> weight_formula(
                score_spec(s.last()@),
                score_spec(s[0]@),
                score_spec(s[0]@),
            ) >= weight_formula(score_spec(s.last()@), score_spec(s[0]@), score_spec(s[i]@)),
{
    assert forall|i: int| 0 <= i < s.len() implies weight_formula(
        score_spec(s.last()@),
        score_spec(s[0]@),
        score_spec(#[trigger] s[i]@),
    ) > 0 by {
        if i > 0 {
            assert(entry_le(s[0], s[i]));
        }
        if i < s.len() - 1 {
            assert(entry_le(s[i], s[s.len() - 1]));
        }
    }
    assert forall|i: int| 0 <= i < s.len() implies weight_formula(
        score_spec(s.last()@),
        score_spec(s[0]@),
        score_spec(s[0]@),
    ) >= weight_formula(score_spec(s.last()@), score_spec(s[0]@), score_spec(#[trigger] s[i]@)) by {
        if i > 0 {
            assert(entry_le(s[0], s[i]));
        }
    }
}

proof fn lemma_missing_contains(s: Seq<ExerciseResults>, ws: Seq<WordRecord>, m: int)
    requires
        0 <= m < ws.len(),
        !has_entry(s, ws[m].word_spec()),
    ensures
        missing_words(s, ws).contains(ws[m].word_spec()),
    decreases ws.len(),
{
    if m == ws.len() - 1 {
        let r = missing_words(s, ws);
        assert(r[r.len() - 1] == ws[m].word_spec());
    } else {
        lemma_missing_contains(s, ws.drop_last(), m);
        let rest = missing_words(s, ws.drop_last());
        let k = choose|k: int| 0 <= k < rest.len() && rest[k] == ws.drop_last()[m].word_spec();
        if has_entry(s, ws.last().word_spec()) {
            assert(missing_words(s, ws)[k] == ws[m].word_spec());
        } else {
            assert(missing_words(s, ws)[k] == ws[m].word_spec());
        }
    }
}

proof fn lemma_missing_empty(s: Seq<ExerciseResults>, ws: Seq<WordRecord>)
    requires
        forall|m: int| 0 <= m < ws.len() ==> has_entry(s, (#[trigger] ws[m]).word_spec()),
    ensures
        missing_words(s, ws) == Seq::<Seq<char>>::empty(),
    decreases ws.len(),
{
    if ws.len() > 0 {
        lemma_missing_empty(s, ws.drop_last());
    }
}

proof fn lemma_sort_preserves_has_entry(s: Seq<ExerciseResults>, w: Seq<char>)
    ensures
        has_entry(sort_entries(s), w) == has_entry(s, w),
{
    broadcast use vstd::seq_lib::group_to_multiset_ensures;

    lemma_sort_entries_props(s);
    let t = sort_entries(s);
    if has_entry(s, w) {
        let i = choose|i: int| 0 <= i < s.len() && (#[trigger] s[i])@.word == w;
        assert(s.to_multiset().count(s[i]) > 0);
        assert(t.contains(s[i]));
        let k = choose|k: int| 0 <= k < t.len() && t[k] == s[i];
        assert(has_entry(t, w));
    }
    if has_entry(t, w) {
        let i = choose|i: int| 0 <= i < t.len() && (#[trigger] t[i])@.word == w;
        assert(t.to_multiset().count(t[i]) > 0);
        assert(s.contains(t[i]));
        let k = choose|k: int| 0 <= k < s.len() && s[k] == t[i];
        assert(has_entry(s, w));
    }
}

/// Reconciling a store against a catalog twice leaves exactly the store
/// that one reconciliation gives: the second pass adds nothing and leaves
/// the sorted order as it is.
pub proof fn lemma_reconcile_idempotent(
    s: Seq<ExerciseResults>,
    adds: Seq<ExerciseResults>,
    adds2: Seq<ExerciseResults>,
    words: Seq<WordRecord>,
)
    requires
        entry_views(adds) == fresh_views(missing_words(s, words)),
        entry_views(adds2) == fresh_views(missing_words(sort_entries(s + adds), words)),
    ensures
        sort_entries(sort_entries(s + adds) + adds2) == sort_entries(s + adds),
{
    let r1 = sort_entries(s + adds);
    assert forall|m: int| 0 <= m < words.len() implies has_entry(
        s + adds,
        (#[trigger] words[m]).word_spec(),
    ) by {
        let w = words[m].word_spec();
        if has_entry(s, w) {
            let k = choose|k: int| 0 <= k < s.len() && (#[trigger] s[k])@.word == w;
            assert((s + adds)[k] == s[k]);
        } else {
            lemma_missing_contains(s, words, m);
            let miss = missing_words(s, words);
            let k = choose|k: int| 0 <= k < miss.len() && miss[k] == w;
            assert(entry_views(adds).len() == adds.len());
            assert(fresh_views(miss).len() == miss.len());
            assert(entry_views(adds)[k] == adds[k]@);
            assert(fresh_views(miss)[k] == fresh_view(miss[k]));
            assert(adds[k]@.word == w);
            assert((s + adds)[s.len() + k] == adds[k]);
        }
    }
    assert forall|m: int| 0 <= m < words.len() implies has_entry(
        r1,
        (#[trigger] words[m]).word_spec(),
    ) by {
        lemma_sort_preserves_has_entry(s + adds, words[m].word_spec());
    }
    lemma_missing_empty(r1, words);
    assert(entry_views(adds2).len() == 0);
    assert(adds2 =~= Seq::<ExerciseResults>::empty());
    assert(r1 + adds2 =~= r1);
    lemma_sort_entries_props(s + adds);
    lemma_sort_of_sorted(r1);
}

} // verus!
