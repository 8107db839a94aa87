use woerterbuch::exercise::Exercise;
use woerterbuch::exercise::ExerciseType;
use woerterbuch::exercise::UserInput;
use woerterbuch::exercise::parse_user_selection;
use woerterbuch::exercise::resolve_exercise_type;
use woerterbuch::results::GameResults;
use woerterbuch::words::Adjective;
use woerterbuch::words::Database;
use woerterbuch::words::Noun;
use woerterbuch::words::NounArticle;
use woerterbuch::words::PartOfSpeech;
use woerterbuch::words::PerfectVerb;
use woerterbuch::words::Verb;
use woerterbuch::words::WordCommon;
use woerterbuch::words::WordRecord;

fn common(word: &str, group: usize) -> WordCommon {
    WordCommon::new(word.to_string(), group, "x".to_string(), String::new())
}

fn noun(word: &str, group: usize) -> WordRecord {
    WordRecord::Noun(Noun::new(common(word, group), NounArticle::Das))
}

fn verb(word: &str) -> WordRecord {
    WordRecord::Verb(Verb::new(
        common(word, 1),
        "ging".to_string(),
        "gegangen".to_string(),
        Some(PerfectVerb::Sein),
        "geht".to_string(),
    ))
}

fn group_db() -> Database {
    let mut db = Database::new();
    db.add_word(noun("haus", 0));
    db.add_word(noun("maus", 0));
    db.add_word(noun("baum", 0));
    db.add_word(noun("tier", 0));
    db.add_word(noun("laus", 0));
    db.add_word(noun("weit", 3));
    db.add_word(verb("gehen"));
    db
}

#[test]
fn selection_parses_numbers_in_range() {
    assert_eq!(parse_user_selection("1", 4), UserInput::Answer(0));
    assert_eq!(parse_user_selection("4", 4), UserInput::Answer(3));
    assert_eq!(parse_user_selection("007", 8), UserInput::Answer(6));
}

#[test]
fn selection_accepts_a_leading_plus_sign() {
    assert_eq!(parse_user_selection("+2", 4), UserInput::Answer(1));
    assert_eq!(parse_user_selection("+", 4), UserInput::InvalidAnswer);
    assert_eq!(parse_user_selection("++1", 4), UserInput::InvalidAnswer);
    assert_eq!(parse_user_selection("1+", 4), UserInput::InvalidAnswer);
}

#[test]
fn selection_rejects_everything_else() {
    assert_eq!(parse_user_selection("0", 4), UserInput::InvalidAnswer);
    assert_eq!(parse_user_selection("5", 4), UserInput::InvalidAnswer);
    assert_eq!(parse_user_selection("", 4), UserInput::InvalidAnswer);
    assert_eq!(parse_user_selection("abc", 4), UserInput::InvalidAnswer);
    assert_eq!(parse_user_selection("1a", 4), UserInput::InvalidAnswer);
    assert_eq!(parse_user_selection("-1", 4), UserInput::InvalidAnswer);
    assert_eq!(
        parse_user_selection("99999999999999999999999999", 4),
        UserInput::InvalidAnswer
    );
}

#[test]
fn resolve_type_falls_back_to_translation() {
    assert_eq!(
        resolve_exercise_type(ExerciseType::VerbFormRandom, PartOfSpeech::Noun),
        ExerciseType::TranslateRuDe
    );
    assert_eq!(
        resolve_exercise_type(ExerciseType::GuessNounArticle, PartOfSpeech::Noun),
        ExerciseType::GuessNounArticle
    );
    assert_eq!(
        resolve_exercise_type(ExerciseType::GuessNounArticle, PartOfSpeech::Verb),
        ExerciseType::TranslateRuDe
    );
    assert_eq!(
        resolve_exercise_type(ExerciseType::SelectRu, PartOfSpeech::Adverb),
        ExerciseType::SelectRu
    );
}

#[test]
fn menu_labels_match_the_menu() {
    assert_eq!(
        ExerciseType::SelectDe.to_string(),
        "1) Select correct word in Deutsch"
    );
    assert_eq!(
        ExerciseType::VerbFormRandom.to_string(),
        "5) Type in correct verb form"
    );
    assert_eq!(ExerciseType::all().len(), 5);
}

#[test]
fn random_exercise_type_fits_the_word() {
    let db = group_db();
    let ex = Exercise::new(db);
    let v = ex.get_word_from_database("gehen");
    assert_eq!(ex.get_random_exercise_type(v), ExerciseType::VerbFormRandom);
    let n = ex.get_word_from_database("haus");
    for _ in 0..40 {
        let t = ex.get_random_exercise_type(n);
        assert_ne!(t, ExerciseType::VerbFormRandom);
    }
    let a = WordRecord::Adjective(Adjective::new(common("weich", 2)));
    let mut db2 = Database::new();
    db2.add_word(a);
    let ex2 = Exercise::new(db2);
    let aw = ex2.get_word_from_database("weich");
    for _ in 0..40 {
        let t = ex2.get_random_exercise_type(aw);
        assert_ne!(t, ExerciseType::VerbFormRandom);
        assert_ne!(t, ExerciseType::GuessNounArticle);
    }
}

#[test]
fn word_options_are_distinct_same_group_and_contain_the_word() {
    let db = group_db();
    let ex = Exercise::new(db);
    for _ in 0..20 {
        let w = ex.get_word_from_database("haus");
        let options = ex.fetch_word_options(w).unwrap();
        assert_eq!(options.len(), 4);
        let words: Vec<&str> = options
            .iter()
            .map(|&i| ex.db().words[i].get_word())
            .collect();
        assert!(words.contains(&"haus"));
        for i in 0..words.len() {
            for j in 0..i {
                assert_ne!(words[i], words[j]);
            }
            assert_eq!(ex.db().words[options[i]].get_group_id(), 0);
            assert_eq!(ex.db().words[options[i]].get_pos(), PartOfSpeech::Noun);
        }
    }
}

#[test]
fn word_options_shrink_with_a_small_group() {
    let db = group_db();
    let ex = Exercise::new(db);
    let w = ex.get_word_from_database("weit");
    let options = ex.fetch_word_options(w).unwrap();
    assert_eq!(options.len(), 1);
    assert_eq!(ex.db().words[options[0]].get_word(), "weit");
}

#[test]
fn select_for_exercise_respects_the_exercise_type() {
    let db = group_db();
    let mut store = GameResults::new();
    store.update_with_db(&db);
    store.update_weights().unwrap();
    let ex = Exercise::new(db);
    for _ in 0..20 {
        let i = ex
            .select_for_exercise(&store, &ExerciseType::GuessNounArticle)
            .unwrap();
        let word = store.entry_at(i).get_word();
        assert_ne!(word, "gehen");
    }
    for _ in 0..20 {
        let i = ex
            .select_for_exercise(&store, &ExerciseType::VerbFormRandom)
            .unwrap();
        assert_eq!(store.entry_at(i).get_word(), "gehen");
    }
    for _ in 0..20 {
        let i = ex
            .select_for_exercise(&store, &ExerciseType::TranslateRuDe)
            .unwrap();
        assert!(i < store.results_len());
    }
}
