use woerterbuch::exercise::Exercise;
use woerterbuch::results::ExerciseResults;
use woerterbuch::results::GameResults;
use woerterbuch::results::StoreError;
use woerterbuch::results::WordFilter;
use woerterbuch::words::Database;
use woerterbuch::words::Noun;
use woerterbuch::words::NounArticle;
use woerterbuch::words::PartOfSpeech;
use woerterbuch::words::PerfectVerb;
use woerterbuch::words::Verb;
use woerterbuch::words::VerbFormExercise;
use woerterbuch::words::WordCommon;
use woerterbuch::words::WordRecord;

fn common(word: &str, group: usize, translation: &str) -> WordCommon {
    WordCommon::new(word.to_string(), group, translation.to_string(), String::new())
}

fn noun(word: &str) -> WordRecord {
    WordRecord::Noun(Noun::new(common(word, 0, "x"), NounArticle::Das))
}

fn verb(word: &str, praet: &str) -> WordRecord {
    WordRecord::Verb(Verb::new(
        common(word, 1, "x"),
        praet.to_string(),
        String::new(),
        None::<PerfectVerb>,
        String::new(),
    ))
}

fn snapshot(store: &GameResults) -> Vec<(String, u32, u32)> {
    let mut v = Vec::new();
    for i in 0..store.results_len() {
        let e = store.entry_at(i);
        v.push((e.get_word().to_string(), e.correct_count(), e.wrong_count()));
    }
    v
}

fn three_word_store() -> (Database, GameResults) {
    let mut db = Database::new();
    db.add_word(noun("haus"));
    db.add_word(noun("maus"));
    db.add_word(verb("gehen", "ging"));
    let mut store = GameResults::new();
    store.update_with_db(&db);
    (db, store)
}

#[test]
fn score_formula_five_correct_one_wrong_is_three() {
    let e = ExerciseResults::with_counts("haus".to_string(), 5, 1);
    assert_eq!(e.score(), 3);
}

#[test]
fn add_counts_one_answer_exactly() {
    let mut e = ExerciseResults::new("haus");
    e.add(true);
    assert_eq!(e.correct_count(), 1);
    assert_eq!(e.wrong_count(), 0);
    e.add(false);
    assert_eq!(e.correct_count(), 1);
    assert_eq!(e.wrong_count(), 1);
    assert_eq!(e.score(), -1);
}

#[test]
fn record_increments_only_the_matching_counter() {
    let (_db, mut store) = three_word_store();
    assert!(store.record("haus", true).is_ok());
    assert!(store.record("haus", true).is_ok());
    assert!(store.record("gehen", false).is_ok());
    let snap = snapshot(&store);
    let haus = snap.iter().find(|t| t.0 == "haus").unwrap();
    assert_eq!((haus.1, haus.2), (2, 0));
    let gehen = snap.iter().find(|t| t.0 == "gehen").unwrap();
    assert_eq!((gehen.1, gehen.2), (0, 1));
    let maus = snap.iter().find(|t| t.0 == "maus").unwrap();
    assert_eq!((maus.1, maus.2), (0, 0));
}

#[test]
fn record_unknown_word_is_refused() {
    let (_db, mut store) = three_word_store();
    assert_eq!(store.record("laus", true), Err(StoreError::NotFound));
}

#[test]
fn reconcile_adds_zero_count_entries_for_every_word() {
    let (_db, store) = three_word_store();
    let snap = snapshot(&store);
    assert_eq!(snap.len(), 3);
    assert!(snap.iter().all(|t| t.1 == 0 && t.2 == 0));
    let mut words: Vec<String> = snap.iter().map(|t| t.0.clone()).collect();
    words.sort();
    assert_eq!(words, vec!["gehen", "haus", "maus"]);
}

#[test]
fn reconcile_twice_is_reconcile_once() {
    let (db, mut store) = three_word_store();
    store.record("haus", false).unwrap();
    store.update_with_db(&db);
    let once = snapshot(&store);
    store.update_with_db(&db);
    let twice = snapshot(&store);
    assert_eq!(once, twice);
}

#[test]
fn reconcile_keeps_entries_gone_from_the_catalog() {
    let (_db, mut store) = three_word_store();
    let mut smaller = Database::new();
    smaller.add_word(noun("haus"));
    store.update_with_db(&smaller);
    assert_eq!(store.results_len(), 3);
}

#[test]
fn recompute_weights_are_positive_and_favor_the_weakest() {
    let (_db, mut store) = three_word_store();
    store.record("haus", true).unwrap();
    store.record("gehen", false).unwrap();
    store.record("gehen", false).unwrap();
    store.update_weights().unwrap();
    // sorted ascending by score: gehen (-4), maus (0), haus (1)
    assert_eq!(store.get_top_words(1), vec!["gehen"]);
    let w = store.get_weights().clone();
    assert_eq!(w.len(), 3);
    assert!(w.iter().all(|&x| x > 0));
    // max=1, min=-4: each weight is 2*1 + 4 - score + 1 = 7 - score
    assert_eq!(w, vec![11, 7, 6]);
    assert!(store.has_dist());
}

#[test]
fn recompute_with_equal_scores_is_uniform() {
    let (_db, mut store) = three_word_store();
    store.update_weights().unwrap();
    assert_eq!(store.get_weights().clone(), vec![1, 1, 1]);
}

#[test]
fn recompute_on_empty_store_is_refused() {
    let mut store = GameResults::new();
    assert_eq!(store.update_weights(), Err(StoreError::EmptyStore));
}

#[test]
fn top_words_come_in_ascending_score_order() {
    let (_db, mut store) = three_word_store();
    store.record("maus", true).unwrap();
    store.record("haus", false).unwrap();
    store.update_weights().unwrap();
    assert_eq!(store.get_top_words(2), vec!["haus", "gehen"]);
    assert_eq!(store.get_top_words(9).len(), 3);
}

#[test]
fn filtered_draw_finds_only_matching_words() {
    let (db, mut store) = three_word_store();
    store.update_weights().unwrap();
    for _ in 0..20 {
        let i = store
            .select_word_by_pos(&db, PartOfSpeech::Noun)
            .unwrap();
        let w = store.entry_at(i).get_word().to_string();
        assert!(w == "haus" || w == "maus");
    }
    for _ in 0..20 {
        let i = store
            .select_word_with_verb_form(&db, &VerbFormExercise::Praeteritum)
            .unwrap();
        assert_eq!(store.entry_at(i).get_word(), "gehen");
    }
}

#[test]
fn filtered_draw_without_candidates_is_refused() {
    let (db, mut store) = three_word_store();
    store.update_weights().unwrap();
    assert_eq!(
        store.select_word_by_pos(&db, PartOfSpeech::Adverb),
        Err(StoreError::NoCandidates)
    );
    // no verb has a perfect form on record
    assert_eq!(
        store.select_word_with_verb_form(&db, &VerbFormExercise::Perfect),
        Err(StoreError::NoCandidates)
    );
    assert_eq!(
        store.select_word_by_cmp(&db, &WordFilter::ByPos(PartOfSpeech::Preposition)),
        Err(StoreError::NoCandidates)
    );
}

#[test]
fn stale_entry_for_removed_word_is_never_drawn_filtered() {
    let (_db, mut store) = three_word_store();
    let mut smaller = Database::new();
    smaller.add_word(noun("haus"));
    store.update_weights().unwrap();
    for _ in 0..10 {
        let i = store.select_word_by_pos(&smaller, PartOfSpeech::Noun).unwrap();
        assert_eq!(store.entry_at(i).get_word(), "haus");
    }
}

#[test]
fn record_outcome_refreshes_the_distribution() {
    let (_db, mut store) = three_word_store();
    store.update_weights().unwrap();
    store.record_outcome("gehen", false).unwrap();
    assert!(store.has_dist());
    assert_eq!(store.get_top_words(1), vec!["gehen"]);
    let w = store.get_weights().clone();
    // scores: gehen -2, others 0: weights 2*0+2-score+1
    assert_eq!(w, vec![5, 3, 3]);
    assert_eq!(
        store.record_outcome("laus", true),
        Err(StoreError::NotFound)
    );
}

#[test]
fn single_candidate_groups_always_yield_options() {
    // with one eligible word no random draw decides, so the option list
    // is owed: the word itself
    let mut db = Database::new();
    db.add_word(noun("haus"));
    db.add_word(verb("gehen", "ging"));
    let ex = Exercise::new(db);
    let w = ex.get_word_from_database("gehen");
    let options = ex.fetch_word_options(w).unwrap();
    assert_eq!(options.len(), 1);
}

#[test]
fn training_words_accumulate_in_order() {
    let mut store = GameResults::new();
    store.push_training("haus");
    store.push_training("gehen");
    assert_eq!(store.get_training_words().clone(), vec!["haus", "gehen"]);
}
