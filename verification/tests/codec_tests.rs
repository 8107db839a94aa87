use woerterbuch::codec::decode_results;
use woerterbuch::codec::encode_results;
use woerterbuch::results::ExerciseResults;
use woerterbuch::results::GameResults;
use woerterbuch::results::StoreError;
use woerterbuch::words::Database;
use woerterbuch::words::Noun;
use woerterbuch::words::NounArticle;
use woerterbuch::words::WordCommon;
use woerterbuch::words::WordRecord;

fn noun(word: &str) -> WordRecord {
    WordRecord::Noun(Noun::new(
        WordCommon::new(word.to_string(), 0, "x".to_string(), String::new()),
        NounArticle::Das,
    ))
}

fn snapshot(store: &GameResults) -> Vec<(String, u32, u32)> {
    let mut v = Vec::new();
    for i in 0..store.results_len() {
        let e = store.entry_at(i);
        v.push((e.get_word().to_string(), e.correct_count(), e.wrong_count()));
    }
    v
}

#[test]
fn empty_store_encodes_as_a_zero_count() {
    let entries: Vec<ExerciseResults> = Vec::new();
    let bytes = encode_results(&entries);
    assert_eq!(bytes, vec![0u8; 8]);
}

#[test]
fn one_entry_encodes_to_the_exact_bytes() {
    let entries = vec![ExerciseResults::with_counts("ab".to_string(), 5, 1)];
    let bytes = encode_results(&entries);
    let mut expected: Vec<u8> = Vec::new();
    expected.extend_from_slice(&[1, 0, 0, 0, 0, 0, 0, 0]); // one record
    expected.extend_from_slice(&[2, 0, 0, 0, 0, 0, 0, 0]); // two characters
    expected.extend_from_slice(&[97, 0, 0, 0]); // 'a'
    expected.extend_from_slice(&[98, 0, 0, 0]); // 'b'
    expected.extend_from_slice(&[5, 0, 0, 0]); // correct
    expected.extend_from_slice(&[1, 0, 0, 0]); // wrong
    assert_eq!(bytes, expected);
}

#[test]
fn decode_reads_back_what_encode_wrote() {
    let entries = vec![
        ExerciseResults::with_counts("grün".to_string(), 3, 0),
        ExerciseResults::with_counts("haus".to_string(), 0, 2),
    ];
    let bytes = encode_results(&entries);
    let back = decode_results(&bytes).unwrap();
    assert_eq!(back.len(), 2);
    assert_eq!(back[0].get_word(), "grün");
    assert_eq!(back[0].correct_count(), 3);
    assert_eq!(back[0].wrong_count(), 0);
    assert_eq!(back[1].get_word(), "haus");
    assert_eq!(back[1].correct_count(), 0);
    assert_eq!(back[1].wrong_count(), 2);
}

#[test]
fn save_then_load_reproduces_the_triples() {
    let mut db = Database::new();
    db.add_word(noun("haus"));
    db.add_word(noun("maus"));
    db.add_word(noun("grün"));
    let mut store = GameResults::new();
    store.update_with_db(&db);
    store.record("haus", true).unwrap();
    store.record("maus", false).unwrap();
    store.record("maus", false).unwrap();
    let bytes = store.save_results();
    let saved = snapshot(&store);

    let mut loaded = GameResults::new();
    assert!(loaded.load_results(&bytes).is_ok());
    assert_eq!(snapshot(&loaded), saved);

    let mut by_word_saved = saved.clone();
    by_word_saved.sort();
    let mut by_word_loaded = snapshot(&loaded);
    by_word_loaded.sort();
    assert_eq!(by_word_saved, by_word_loaded);
}

#[test]
fn truncated_bytes_are_refused() {
    let entries = vec![ExerciseResults::with_counts("ab".to_string(), 5, 1)];
    let mut bytes = encode_results(&entries);
    bytes.pop();
    let mut store = GameResults::new();
    assert_eq!(store.load_results(&bytes), Err(StoreError::Corrupt));
    assert_eq!(store.results_len(), 0);
}

#[test]
fn trailing_bytes_are_refused() {
    let entries: Vec<ExerciseResults> = Vec::new();
    let mut bytes = encode_results(&entries);
    bytes.push(0);
    assert!(decode_results(&bytes).is_err());
}

#[test]
fn invalid_character_is_refused() {
    let mut bytes: Vec<u8> = Vec::new();
    bytes.extend_from_slice(&[1, 0, 0, 0, 0, 0, 0, 0]);
    bytes.extend_from_slice(&[1, 0, 0, 0, 0, 0, 0, 0]);
    bytes.extend_from_slice(&[0, 0xD8, 0, 0]); // a surrogate code point
    bytes.extend_from_slice(&[0, 0, 0, 0]);
    bytes.extend_from_slice(&[0, 0, 0, 0]);
    assert!(decode_results(&bytes).is_err());
}

#[test]
fn empty_bytes_are_refused() {
    let bytes: Vec<u8> = Vec::new();
    assert!(decode_results(&bytes).is_err());
}
