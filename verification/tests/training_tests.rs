use woerterbuch::exercise::ExerciseType;
use woerterbuch::training::AttemptState;
use woerterbuch::training::TrainingQueue;

fn index_of(q: &TrainingQueue, word: &str) -> usize {
    let mut i = 0;
    while i < q.len() {
        if q.entry_at(i).word == word {
            return i;
        }
        i += 1;
    }
    panic!("word not queued");
}

#[test]
fn fresh_queue_reports_completion_at_once() {
    let q = TrainingQueue::new();
    assert!(q.is_drained());
    assert_eq!(q.len(), 0);
}

#[test]
fn enqueue_starts_at_the_first_attempt() {
    let mut q = TrainingQueue::new();
    q.enqueue("haus", ExerciseType::SelectDe);
    assert_eq!(q.len(), 1);
    let e = q.entry_at(0);
    assert_eq!(e.word, "haus");
    assert_eq!(e.state, AttemptState::FirstAttempt);
    assert_eq!(e.exercise, ExerciseType::SelectDe);
}

#[test]
fn two_missed_words_drain_after_their_answers() {
    let mut q = TrainingQueue::new();
    q.enqueue("Haus", ExerciseType::TranslateRuDe);
    q.enqueue("gehen", ExerciseType::TranslateRuDe);

    // "Haus" answered correctly: moves to the second attempt, forced to
    // plain translation.
    q.apply_result(index_of(&q, "Haus"), true);
    assert_eq!(q.len(), 2);
    let haus = q.entry_at(index_of(&q, "Haus"));
    assert_eq!(haus.state, AttemptState::SecondAttempt);
    assert_eq!(haus.exercise, ExerciseType::TranslateRuDe);

    // "gehen" answered incorrectly: also re-queued at the second attempt.
    q.apply_result(index_of(&q, "gehen"), false);
    assert_eq!(q.len(), 2);
    assert_eq!(
        q.entry_at(index_of(&q, "gehen")).state,
        AttemptState::SecondAttempt
    );

    // "Haus" answered correctly again: mastered, removed.
    q.apply_result(index_of(&q, "Haus"), true);
    assert_eq!(q.len(), 1);

    // "gehen" answered correctly in its second attempt: removed.
    q.apply_result(index_of(&q, "gehen"), true);
    assert!(q.is_drained());
}

#[test]
fn wrong_answers_keep_a_word_cycling() {
    let mut q = TrainingQueue::new();
    q.enqueue("gehen", ExerciseType::SelectRu);
    q.apply_result(0, false);
    q.apply_result(0, false);
    q.apply_result(0, false);
    assert_eq!(q.len(), 1);
    assert_eq!(q.entry_at(0).state, AttemptState::SecondAttempt);
    q.apply_result(0, true);
    assert!(q.is_drained());
}

#[test]
fn pick_stays_in_range() {
    let mut q = TrainingQueue::new();
    q.enqueue("a", ExerciseType::SelectDe);
    q.enqueue("b", ExerciseType::SelectDe);
    q.enqueue("c", ExerciseType::SelectDe);
    for _ in 0..50 {
        assert!(q.pick() < q.len());
    }
}
