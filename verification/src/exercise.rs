use vstd::pervasive::VecAdditionalExecFns;
use vstd::prelude::*;

use crate::results::GameResults;
use crate::results::StoreError;
use crate::results::WordFilter;
use crate::rng::random_below;
use crate::text::string_to_chars;
use crate::words::Database;
use crate::words::PartOfSpeech;
use crate::words::VerbFormExercise;
use crate::words::WordRecord;

verus! {

/// How many answer options a multiple-choice question offers.
pub const ANSWER_OPTIONS: usize = 4;

/// The kinds of questions the drill can pose.
#[derive(Debug, Clone, Copy, PartialEq, Eq, Structural)]
pub enum ExerciseType {
    SelectDe,
    TranslateRuDe,
    SelectRu,
    GuessNounArticle,
    VerbFormRandom,
}

/// The menu label of an exercise type.
pub open spec fn exercise_menu_str(t: ExerciseType) -> Seq<char> {
    match t {
        ExerciseType::SelectDe => "1) Select correct word in Deutsch"@,
        ExerciseType::TranslateRuDe => "2) Type in word in Deutsch"@,
        ExerciseType::SelectRu => "3) Select correct translation to Russian"@,
        ExerciseType::GuessNounArticle => "4) Select correct noun atricle"@,
        ExerciseType::VerbFormRandom => "5) Type in correct verb form"@,
    }
}

impl ExerciseType {
    pub fn to_string(&self) -> (r: &'static str)
        ensures
            r@ == exercise_menu_str(*self),
    {
        match self {
            ExerciseType::SelectDe => "1) Select correct word in Deutsch",
            ExerciseType::TranslateRuDe => "2) Type in word in Deutsch",
            ExerciseType::SelectRu => "3) Select correct translation to Russian",
            ExerciseType::GuessNounArticle => "4) Select correct noun atricle",
            ExerciseType::VerbFormRandom => "5) Type in correct verb form",
        }
    }

    /// Every exercise type, in menu order.
    pub fn all() -> (r: Vec<ExerciseType>)
        ensures
            r@ =~= seq![
                ExerciseType::SelectDe,
                ExerciseType::TranslateRuDe,
                ExerciseType::SelectRu,
                ExerciseType::GuessNounArticle,
                ExerciseType::VerbFormRandom,
            ],
    {
        let mut v: Vec<ExerciseType> = Vec::new();
        v.push(ExerciseType::SelectDe);
        v.push(ExerciseType::TranslateRuDe);
        v.push(ExerciseType::SelectRu);
        v.push(ExerciseType::GuessNounArticle);
        v.push(ExerciseType::VerbFormRandom);
        v
    }
}

/// What the user's reply to a numbered option list means.
#[derive(Debug, Clone, Copy, PartialEq, Eq, Structural)]
pub enum UserInput {
    /// A valid selection, as a zero-based index.
    Answer(usize),
    /// Anything that is not a number between 1 and the option count.
    InvalidAnswer,
    /// The request to leave the game.
    Exit,
}

pub open spec fn is_digit(c: char) -> bool {
    48 <= (c as u32) && (c as u32) <= 57
}

pub open spec fn digit_val(c: char) -> int {
    (c as u32) - 48
}

pub open spec fn all_digits(s: Seq<char>) -> bool {
    forall|i: int| 0 <= i < s.len() ==> is_digit(#[trigger] s[i])
}

/// The number a digit string denotes.
pub open spec fn digits_value(s: Seq<char>) -> int
    decreases s.len(),
{
    if s.len() == 0 {
        0
    } else {
        digits_value(s.drop_last()) * 10 + digit_val(s.last())
    }
}

/// What a reply to a list of `count` options means: a decimal number
/// between 1 and `count`, with an optional leading plus sign, selects an
/// option; anything else is invalid.
pub open spec fn parse_selection_spec(s: Seq<char>, count: int) -> UserInput {
    let t = if s.len() > 0 && s[0] == '+' {
        s.skip(1)
    } else {
        s
    };
    if t.len() > 0 && all_digits(t) && 1 <= digits_value(t) && digits_value(t) <= count {
        UserInput::Answer((digits_value(t) - 1) as usize)
    } else {
        UserInput::InvalidAnswer
    }
}

proof fn lemma_digits_nonneg(s: Seq<char>)
    requires
        all_digits(s),
    ensures
        digits_value(s) >= 0,
    decreases s.len(),
{
    if s.len() > 0 {
        assert(all_digits(s.drop_last()));
        lemma_digits_nonneg(s.drop_last());
    }
}

proof fn lemma_digits_prefix_le(s: Seq<char>, i: int)
    requires
        all_digits(s),
        0 <= i <= s.len(),
    ensures
        digits_value(s.take(i)) <= digits_value(s),
    decreases s.len() - i,
{
    if i < s.len() {
        let t = s.take(i + 1);
        assert(t.drop_last() =~= s.take(i));
        assert(t.last() == s[i]);
        assert(all_digits(s.take(i)));
        lemma_digits_nonneg(s.take(i));
        assert(digits_value(s.take(i + 1)) == digits_value(s.take(i)) * 10 + digit_val(s[i]));
        lemma_digits_prefix_le(s, i + 1);
    } else {
        assert(s.take(i) =~= s);
    }
}

/// Read the user's reply to a list of `count` numbered options.
pub fn parse_user_selection(input: &str, count: usize) -> (r: UserInput)
    ensures
        r == parse_selection_spec(input@, count as int),
{
    let cs = string_to_chars(input);
    let n = cs.len();
    if n == 0 {
        return UserInput::InvalidAnswer;
    }
    let start: usize = if cs[0] == '+' {
        1
    } else {
        0
    };
    let ghost t = if input@[0] == '+' {
        input@.skip(1)
    } else {
        input@
    };
    proof {
        assert(t =~= input@.subrange(start as int, n as int));
    }
    if start == n {
        return UserInput::InvalidAnswer;
    }
    let mut acc: u128 = 0;
    let mut i: usize = start;
    proof {
        assert(input@.subrange(start as int, start as int) =~= Seq::<char>::empty());
    }
    while i < n
        invariant
            start <= i <= n,
            n == cs@.len(),
            cs@ == input@,
            t == input@.subrange(start as int, n as int),
            t == (if input@[0] == '+' {
                input@.skip(1)
            } else {
                input@
            }),
            start == (if input@[0] == '+' {
                1int
            } else {
                0int
            }),
            all_digits(input@.subrange(start as int, i as int)),
            acc == digits_value(input@.subrange(start as int, i as int)),
            acc <= count,
        decreases n - i,
    {
        let c = cs[i];
        let cu = c as u32;
        if !(cu >= 48 && cu <= 57) {
            proof {
                assert(t[i - start] == input@[i as int]);
                assert(!is_digit(t[i - start]));
            }
            return UserInput::InvalidAnswer;
        }
        let d = (cu - 48) as u128;
        let next = acc * 10 + d;
        proof {
            let w = input@.subrange(start as int, i + 1);
            assert(w.drop_last() =~= input@.subrange(start as int, i as int));
            assert(w.last() == input@[i as int]);
            assert(next == digits_value(w));
        }
        proof {
            assert(is_digit(c));
            assert forall|j: int| 0 <= j < i + 1 - start implies is_digit(
                #[trigger] input@.subrange(start as int, i + 1)[j],
            ) by {
                if j < i - start {
                    assert(is_digit(input@.subrange(start as int, i as int)[j]));
                }
            }
            assert(all_digits(input@.subrange(start as int, i + 1)));
        }
        if next > count as u128 {
            proof {
                if all_digits(t) {
                    assert(t.take(i + 1 - start) =~= input@.subrange(start as int, i + 1));
                    lemma_digits_prefix_le(t, i + 1 - start);
                }
            }
            return UserInput::InvalidAnswer;
        }
        acc = next;
        i += 1;
    }
    proof {
        assert(input@.subrange(start as int, n as int) =~= t);
    }
    if acc == 0 {
        return UserInput::InvalidAnswer;
    }
    UserInput::Answer((acc as usize) - 1)
}

/// The exercise actually posed when a random preliminary pick does not fit
/// the word: verb-form questions need a verb and article questions a noun;
/// anything else falls back to plain translation.
pub fn resolve_exercise_type(prelim: ExerciseType, pos: PartOfSpeech) -> (r: ExerciseType)
    ensures
        r == match (prelim, pos) {
            (ExerciseType::VerbFormRandom, _) => ExerciseType::TranslateRuDe,
            (ExerciseType::GuessNounArticle, PartOfSpeech::Noun) => ExerciseType::GuessNounArticle,
            (ExerciseType::GuessNounArticle, _) => ExerciseType::TranslateRuDe,
            (t, _) => t,
        },
{
    match (prelim, pos) {
        (ExerciseType::VerbFormRandom, _) => ExerciseType::TranslateRuDe,
        (ExerciseType::GuessNounArticle, PartOfSpeech::Noun) => ExerciseType::GuessNounArticle,
        (ExerciseType::GuessNounArticle, _) => ExerciseType::TranslateRuDe,
        (t, _) => t,
    }
}

/// Pick one of the three verb forms at random.
pub fn choose_verb_form() -> (r: VerbFormExercise)
{
    let forms = VerbFormExercise::all();
    let idx = random_below(3) as usize;
    forms[idx]
}

/// What a well-formed option list for `word` is: as many distinct
/// eligible indices as the catalog allows, up to the option count, the
/// word itself among them.
pub open spec fn options_ok(db: Database, word: WordRecord, v: Seq<usize>) -> bool {
    &&& v.len() == min_spec(ANSWER_OPTIONS as int, eligible_count(db, word, db.words@.len() as int))
    &&& forall|k: int| 0 <= k < v.len() ==> eligible(db, word, #[trigger] v[k] as int)
    &&& forall|k1: int, k2: int| 0 <= k1 < k2 < v.len() ==> v[k1] != v[k2]
    &&& exists|k: int|
        0 <= k < v.len() && db.words@[#[trigger] v[k] as int].word_spec() == word.word_spec()
}

/// Whether no store entry resolves to a verb carrying the given form: a
/// draw for that form can only be refused.
pub open spec fn no_verb_form_candidate(
    results: GameResults,
    db: Database,
    form: VerbFormExercise,
) -> bool {
    forall|j: int|
        0 <= j < results.results_seq().len() ==> !(#[trigger] results.entry_matches(
            db,
            WordFilter::ByVerbForm(form),
            j,
        ))
}

pub open spec fn min_spec(a: int, b: int) -> int {
    if a <= b {
        a
    } else {
        b
    }
}

/// Whether catalog index `j` may serve as an answer option for `word`:
/// same topical group and same part of speech.
pub open spec fn eligible(db: Database, word: WordRecord, j: int) -> bool {
    &&& 0 <= j < db.words@.len()
    &&& db.words@[j].common_of().group_id == word.common_of().group_id
    &&& db.words@[j].pos_spec() == word.pos_spec()
}

/// How many of the first `upto` catalog indices are eligible.
pub open spec fn eligible_count(db: Database, word: WordRecord, upto: int) -> int
    decreases upto,
{
    if upto <= 0 {
        0
    } else {
        eligible_count(db, word, upto - 1) + (if eligible(db, word, upto - 1) {
            1int
        } else {
            0int
        })
    }
}

/// Whether the vector holds the index.
fn contains_idx(v: &Vec<usize>, x: usize) -> (r: bool)
    ensures
        r == v@.contains(x),
{
    let n = v.len();
    let mut i: usize = 0;
    while i < n
        invariant
            i <= n,
            n == v@.len(),
            forall|k: int| 0 <= k < i ==> v@[k] != x,
        decreases n - i,
    {
        if v[i] == x {
            return true;
        }
        i += 1;
    }
    false
}

/// The drill engine: the catalog together with the question logic.
pub struct Exercise {
    db: Database,
}

impl Exercise {
    /// The catalog the engine quizzes from.
    pub closed spec fn db_spec(self) -> Database {
        self.db
    }

    pub fn new(db: Database) -> (r: Self)
        ensures
            r.db_spec() == db,
    {
        Exercise { db }
    }

    /// The engine's catalog, readable.
    pub fn db(&self) -> (r: &Database)
        ensures
            *r == self.db_spec(),
    {
        &self.db
    }

    /// Look a word up that is known to be in the catalog.
    pub fn get_word_from_database(&self, word: &str) -> (r: &WordRecord)
        requires
            self.db_spec().contains_word(word@),
        ensures
            r.word_spec() == word@,
            exists|i: int|
                0 <= i < self.db_spec().words@.len() && self.db_spec().words@[i] == *r,
    {
        match self.db.find_word(word) {
            Some(w) => w,
            None => {
                proof {
                    assert(false);
                }
                &self.db.words[0]
            },
        }
    }

    /// A random exercise type that fits the word: verbs always get a
    /// verb-form question, and only nouns can get an article question.
    pub fn get_random_exercise_type(&self, word: &WordRecord) -> (r: ExerciseType)
        ensures
            word.pos_spec() == PartOfSpeech::Verb ==> r == ExerciseType::VerbFormRandom,
            word.pos_spec() != PartOfSpeech::Verb ==> r != ExerciseType::VerbFormRandom,
            r == ExerciseType::GuessNounArticle ==> word.pos_spec() == PartOfSpeech::Noun,
    {
        let pos = word.get_pos();
        if word.get_verb_praeteritum().is_some() {
            return ExerciseType::VerbFormRandom;
        }
        let types = ExerciseType::all();
        let idx = random_below(5) as usize;
        let prelim = types[idx];
        resolve_exercise_type(prelim, pos)
    }

    /// Build the answer options for a multiple-choice question on `word`:
    /// distinct catalog indices from the word's own topical group and part
    /// of speech, the word itself among them, in random order. Random
    /// draws that keep hitting already chosen words are capped; a spent
    /// cap reports failure rather than looping forever.
    #[verifier::rlimit(30)]
    pub fn fetch_word_options(&self, word: &WordRecord) -> (r: Option<Vec<usize>>)
        requires
            self.db_spec().wf(),
            exists|t: int|
                0 <= t < self.db_spec().words@.len() && self.db_spec().words@[t] == *word,
        ensures
            r matches Some(v) ==> options_ok(self.db_spec(), *word, v@),
            min_spec(
                ANSWER_OPTIONS as int,
                eligible_count(self.db_spec(), *word, self.db_spec().words@.len() as int),
            ) == 1 ==> r is Some,
    {
        let n = self.db.words.len();
        let ghost db = self.db_spec();

        // The word's own index: the unique record carrying its id.
        let mut target_idx: usize = 0;
        let mut ti: usize = 0;
        let mut target_found = false;
        while ti < n
            invariant
                ti <= n,
                n == db.words@.len(),
                db == self.db_spec(),
                db.wf(),
                exists|t: int| 0 <= t < db.words@.len() && db.words@[t] == *word,
                !target_found ==> forall|k: int|
                    0 <= k < ti ==> (#[trigger] db.words@[k]).word_spec() != word.word_spec(),
                target_found ==> target_idx < n && db.words@[target_idx as int] == *word,
            decreases n - ti,
        {
            if !target_found {
                if crate::text::str_eq(self.db.words[ti].get_word(), word.get_word()) {
                    proof {
                        let t = choose|t: int|
                            0 <= t < db.words@.len() && db.words@[t] == *word;
                        if t != ti {
                            assert(db.words@[t].word_spec() == db.words@[ti as int].word_spec());
                        }
                    }
                    target_idx = ti;
                    target_found = true;
                }
            }
            ti += 1;
        }
        proof {
            if !target_found {
                let t = choose|t: int| 0 <= t < db.words@.len() && db.words@[t] == *word;
                assert(db.words@[t].word_spec() == word.word_spec());
                assert(false);
            }
        }

        // Every eligible index: same topical group, same part of speech.
        let mut candidates: Vec<usize> = Vec::new();
        let wgroup = word.get_group_id();
        let wpos = word.get_pos();
        let mut i: usize = 0;
        while i < n
            invariant
                i <= n,
                n == db.words@.len(),
                db == self.db_spec(),
                wgroup == word.common_of().group_id,
                wpos == word.pos_spec(),
                candidates@.len() == eligible_count(db, *word, i as int),
                forall|k: int|
                    0 <= k < candidates@.len() ==> eligible(db, *word, #[trigger] candidates@[k] as int),
                forall|j: int|
                    0 <= j < i && eligible(db, *word, j) ==> candidates@.contains(j as usize),
            decreases n - i,
        {
            let ghost cand_before = candidates@;
            if self.db.words[i].get_group_id() == wgroup && self.db.words[i].get_pos() == wpos {
                candidates.push(i);
            }
            proof {
                assert forall|j: int|
                    0 <= j < i + 1 && eligible(db, *word, j) implies candidates@.contains(
                    j as usize,
                ) by {
                    if j < i {
                        let k = choose|k: int|
                            0 <= k < cand_before.len() && cand_before[k] == j as usize;
                        assert(candidates@[k] == j as usize);
                    } else {
                        assert(candidates@[candidates@.len() - 1] == j as usize);
                    }
                }
            }
            i += 1;
        }
        proof {
            assert(eligible(db, *word, target_idx as int));
            assert(candidates@.contains(target_idx));
        }

        let want = if ANSWER_OPTIONS <= candidates.len() {
            ANSWER_OPTIONS
        } else {
            candidates.len()
        };
        let mut options: Vec<usize> = Vec::new();
        options.push(target_idx);
        proof {
            assert(options@[0] == target_idx);
        }
        let mut attempts: usize = 0;
        while options.len() < want
            invariant
                db == self.db_spec(),
                n == db.words@.len(),
                want == min_spec(ANSWER_OPTIONS as int, eligible_count(db, *word, n as int)),
                candidates@.len() == eligible_count(db, *word, n as int),
                candidates@.contains(target_idx),
                forall|k: int|
                    0 <= k < candidates@.len() ==> eligible(db, *word, #[trigger] candidates@[k] as int),
                1 <= options@.len() <= want,
                forall|k: int| 0 <= k < options@.len() ==> eligible(db, *word, #[trigger] options@[k] as int),
                forall|k1: int, k2: int| 0 <= k1 < k2 < options@.len() ==> options@[k1] != options@[k2],
                options@.contains(target_idx),
                db.words@[target_idx as int] == *word,
                attempts < 1000,
            decreases want - options@.len(), 1000 - attempts,
        {
            let ghost opts_before = options@;
            let ri = random_below(candidates.len() as u128) as usize;
            let cand = candidates[ri];
            if !contains_idx(&options, cand) {
                options.push(cand);
                proof {
                    let k0 = choose|k0: int|
                        0 <= k0 < opts_before.len() && opts_before[k0] == target_idx;
                    assert(options@[k0] == target_idx);
                }
            } else {
                attempts += 1;
                if attempts >= 1000 {
                    return None;
                }
            }
        }

        // Shuffle the options so the right answer has no fixed place.
        let m = options.len();
        let mut s: usize = 0;
        while s < m
            invariant
                s <= m,
                m == options@.len(),
                n == db.words@.len(),
                m == min_spec(ANSWER_OPTIONS as int, eligible_count(db, *word, n as int)),
                db == self.db_spec(),
                forall|k: int| 0 <= k < options@.len() ==> eligible(db, *word, #[trigger] options@[k] as int),
                forall|k1: int, k2: int| 0 <= k1 < k2 < options@.len() ==> options@[k1] != options@[k2],
                options@.contains(target_idx),
                db.words@[target_idx as int] == *word,
            decreases m - s,
        {
            let ghost opts_before = options@;
            let off = random_below((m - s) as u128) as usize;
            let j = s + off;
            let a = options[s];
            let b = options[j];
            options.set(s, b);
            options.set(j, a);
            proof {
                assert forall|k1: int, k2: int|
                    0 <= k1 < k2 < options@.len() implies options@[k1] != options@[k2] by {
                    let v1 = options@[k1];
                    let v2 = options@[k2];
                    let o1: int = if k1 == j {
                        s as int
                    } else if k1 == s {
                        j as int
                    } else {
                        k1
                    };
                    let o2: int = if k2 == j {
                        s as int
                    } else if k2 == s {
                        j as int
                    } else {
                        k2
                    };
                    assert(v1 == opts_before[o1]);
                    assert(v2 == opts_before[o2]);
                    assert(o1 != o2);
                }
                let kt = choose|kt: int|
                    0 <= kt < opts_before.len() && opts_before[kt] == target_idx;
                let kt2: int = if kt == s {
                    j as int
                } else if kt == j {
                    s as int
                } else {
                    kt
                };
                assert(options@[kt2] == target_idx);
            }
            s += 1;
        }
        proof {
            let kt = choose|kt: int| 0 <= kt < options@.len() && options@[kt] == target_idx;
            assert(db.words@[options@[kt] as int].word_spec() == word.word_spec());
            assert(options_ok(db, *word, options@));
        }
        Some(options)
    }

    /// Draw the entry the next question of this type is about: article
    /// questions draw among nouns, verb-form questions among verbs with
    /// the randomly chosen form, anything else among all entries.
    pub fn select_for_exercise(&self, results: &GameResults, ex_type: &ExerciseType) -> (r: Result<
        usize,
        StoreError,
    >)
        requires
            self.db_spec().wf(),
            results.dist_built(),
            results.results_seq().len() > 0,
        ensures
            r matches Ok(i) ==> i < results.results_seq().len(),
            *ex_type == ExerciseType::GuessNounArticle ==> ({
                &&& (r matches Ok(i) ==> results.entry_matches(
                    self.db_spec(),
                    WordFilter::ByPos(PartOfSpeech::Noun),
                    i as int,
                ))
                &&& (r is Err <==> (forall|j: int|
                    0 <= j < results.results_seq().len() ==> !results.entry_matches(
                        self.db_spec(),
                        WordFilter::ByPos(PartOfSpeech::Noun),
                        j,
                    )))
            }),
            *ex_type == ExerciseType::VerbFormRandom ==> (r matches Ok(i) ==> exists|
                form: VerbFormExercise,
            |
                results.entry_matches(self.db_spec(), WordFilter::ByVerbForm(form), i as int)),
            *ex_type == ExerciseType::VerbFormRandom ==> (r is Err ==> exists|
                form: VerbFormExercise,
            | #[trigger] no_verb_form_candidate(*results, self.db_spec(), form)),
            (*ex_type == ExerciseType::VerbFormRandom && (forall|form: VerbFormExercise|
                !(#[trigger] no_verb_form_candidate(*results, self.db_spec(), form)))) ==> r is Ok,
            (*ex_type != ExerciseType::GuessNounArticle && *ex_type != ExerciseType::VerbFormRandom)
                ==> r is Ok,
            r is Err ==> r == Err::<usize, StoreError>(StoreError::NoCandidates),
    {
        match ex_type {
            ExerciseType::VerbFormRandom => {
                let form = choose_verb_form();
                let r = results.select_word_with_verb_form(&self.db, &form);
                proof {
                    if r is Err {
                        assert(no_verb_form_candidate(*results, self.db_spec(), form));
                    }
                }
                r
            },
            ExerciseType::GuessNounArticle => {
                results.select_word_by_pos(&self.db, PartOfSpeech::Noun)
            },
            _ => Ok(results.select_word_to_learn()),
        }
    }
}

} // verus!
