use vstd::prelude::*;

use crate::exercise::ExerciseType;
use crate::rng::random_below;

verus! {

/// How far a missed word has come in the retry phase.
#[derive(Debug, Clone, Copy, PartialEq, Eq, Structural)]
pub enum AttemptState {
    FirstAttempt,
    SecondAttempt,
}

/// One queued missed word: the word id, its attempt state, and the
/// exercise it will be asked with next.
#[derive(Debug)]
pub struct TrainingEntry {
    pub word: String,
    pub state: AttemptState,
    pub exercise: ExerciseType,
}

/// The session's retry queue: words missed in the main round, drilled
/// until each is mastered.
#[derive(Debug)]
pub struct TrainingQueue {
    entries: Vec<TrainingEntry>,
}

impl TrainingQueue {
    pub closed spec fn entries_seq(self) -> Seq<TrainingEntry> {
        self.entries@
    }

    /// An empty retry queue: the phase reports completion at once.
    pub fn new() -> (r: Self)
        ensures
            r.entries_seq().len() == 0,
    {
        TrainingQueue { entries: Vec::new() }
    }

    /// Queue a missed word at its first attempt, to be asked with the
    /// given exercise.
    pub fn enqueue(&mut self, word: &str, exercise: ExerciseType)
        ensures
            final(self).entries_seq().len() == old(self).entries_seq().len() + 1,
            final(self).entries_seq().take(old(self).entries_seq().len() as int) == old(
                self,
            ).entries_seq(),
            final(self).entries_seq().last().word@ == word@,
            final(self).entries_seq().last().state == AttemptState::FirstAttempt,
            final(self).entries_seq().last().exercise == exercise,
    {
        self.entries.push(
            TrainingEntry { word: word.to_owned(), state: AttemptState::FirstAttempt, exercise },
        );
        proof {
            assert(final(self).entries_seq().take(old(self).entries_seq().len() as int) =~= old(
                self,
            ).entries_seq());
        }
    }

    pub fn len(&self) -> (r: usize)
        ensures
            r == self.entries_seq().len(),
    {
        self.entries.len()
    }

    /// Whether the phase is over: nothing left to drill.
    pub fn is_drained(&self) -> (r: bool)
        ensures
            r == (self.entries_seq().len() == 0),
    {
        self.entries.len() == 0
    }

    /// Pick one queued entry uniformly at random; the queue is small and
    /// short-lived, so no weighting.
    pub fn pick(&self) -> (r: usize)
        requires
            self.entries_seq().len() > 0,
        ensures
            r < self.entries_seq().len(),
    {
        random_below(self.entries.len() as u128) as usize
    }

    pub fn entry_at(&self, i: usize) -> (r: &TrainingEntry)
        requires
            i < self.entries_seq().len(),
        ensures
            *r == self.entries_seq()[i as int],
    {
        &self.entries[i]
    }

    /// Apply one observed answer to entry `i`: a correct answer on the
    /// second attempt removes the word; every other outcome re-queues it
    /// at the second attempt, forced to the plain translation exercise.
    pub fn apply_result(&mut self, i: usize, correct: bool)
        requires
            i < old(self).entries_seq().len(),
        ensures
            (correct && old(self).entries_seq()[i as int].state == AttemptState::SecondAttempt)
                ==> final(self).entries_seq() == old(self).entries_seq().remove(i as int),
            !(correct && old(self).entries_seq()[i as int].state == AttemptState::SecondAttempt)
                ==> ({
                &&& final(self).entries_seq().len() == old(self).entries_seq().len()
                &&& final(self).entries_seq().take(old(self).entries_seq().len() - 1) == old(
                    self,
                ).entries_seq().remove(i as int)
                &&& final(self).entries_seq().last().word@ == old(
                    self,
                ).entries_seq()[i as int].word@
                &&& final(self).entries_seq().last().state == AttemptState::SecondAttempt
                &&& final(self).entries_seq().last().exercise == ExerciseType::TranslateRuDe
            }),
    {
        let e = self.entries.remove(i);
        let done = correct && e.state == AttemptState::SecondAttempt;
        if !done {
            self.entries.push(
                TrainingEntry {
                    word: e.word,
                    state: AttemptState::SecondAttempt,
                    exercise: ExerciseType::TranslateRuDe,
                },
            );
            proof {
                assert(final(self).entries_seq().take(old(self).entries_seq().len() - 1) =~= old(
                    self,
                ).entries_seq().remove(i as int));
            }
        }
    }
}

} // verus!
