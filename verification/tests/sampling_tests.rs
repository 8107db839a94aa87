use woerterbuch::results::GameResults;
use woerterbuch::results::pick_from_dist;
use woerterbuch::words::Database;
use woerterbuch::words::Noun;
use woerterbuch::words::NounArticle;
use woerterbuch::words::WordCommon;
use woerterbuch::words::WordRecord;

fn noun(word: &str) -> WordRecord {
    WordRecord::Noun(Noun::new(
        WordCommon::new(word.to_string(), 0, "x".to_string(), String::new()),
        NounArticle::Das,
    ))
}

#[test]
fn uniform_cumulative_weights_pick_each_entry_equally() {
    // weights 1,1,1,1 as cumulative sums: sweeping every drawn value hits
    // every entry exactly once.
    let dist: Vec<u128> = vec![1, 2, 3, 4];
    let mut counts = [0usize; 4];
    for t in 0..4u128 {
        counts[pick_from_dist(&dist, t)] += 1;
    }
    assert_eq!(counts, [1, 1, 1, 1]);
}

#[test]
fn skewed_cumulative_weights_pick_in_proportion() {
    // weights 3,1,2 as cumulative sums 3,4,6
    let dist: Vec<u128> = vec![3, 4, 6];
    let mut counts = [0usize; 3];
    for t in 0..6u128 {
        counts[pick_from_dist(&dist, t)] += 1;
    }
    assert_eq!(counts, [3, 1, 2]);
}

#[test]
fn drawn_values_land_on_the_owning_entry() {
    let dist: Vec<u128> = vec![5, 6, 10];
    assert_eq!(pick_from_dist(&dist, 0), 0);
    assert_eq!(pick_from_dist(&dist, 4), 0);
    assert_eq!(pick_from_dist(&dist, 5), 1);
    assert_eq!(pick_from_dist(&dist, 6), 2);
    assert_eq!(pick_from_dist(&dist, 9), 2);
}

#[test]
fn equal_scores_sample_roughly_uniformly() {
    let mut db = Database::new();
    db.add_word(noun("haus"));
    db.add_word(noun("maus"));
    db.add_word(noun("baum"));
    let mut store = GameResults::new();
    store.update_with_db(&db);
    store.update_weights().unwrap();
    let mut counts = [0usize; 3];
    let draws = 3000;
    for _ in 0..draws {
        let i = store.select_word_to_learn();
        counts[i] += 1;
    }
    // every entry expects about a third of the draws; the bounds are loose
    // enough that a fair sampler practically never trips them
    for &c in counts.iter() {
        assert!(c > draws / 6, "entry drawn far too rarely: {:?}", counts);
        assert!(c < draws / 2 + draws / 6, "entry drawn far too often: {:?}", counts);
    }
}

#[test]
fn weak_words_are_drawn_more_often() {
    let mut db = Database::new();
    db.add_word(noun("haus"));
    db.add_word(noun("maus"));
    let mut store = GameResults::new();
    store.update_with_db(&db);
    store.record("haus", false).unwrap();
    store.record("haus", false).unwrap();
    store.update_weights().unwrap();
    // scores: haus -4, maus 0; weights 9 and 5
    let mut weak = 0usize;
    let draws = 3000;
    for _ in 0..draws {
        let i = store.select_word_to_learn();
        if store.entry_at(i).get_word() == "haus" {
            weak += 1;
        }
    }
    // haus carries nine fourteenths of the weight
    assert!(weak > draws / 2, "weak word drawn only {} times", weak);
}
