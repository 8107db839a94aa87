use woerterbuch::words::Adjective;
use woerterbuch::words::Database;
use woerterbuch::words::Noun;
use woerterbuch::words::NounArticle;
use woerterbuch::words::PartOfSpeech;
use woerterbuch::words::PerfectVerb;
use woerterbuch::words::Verb;
use woerterbuch::words::VerbFormExercise;
use woerterbuch::words::WordCommon;
use woerterbuch::words::WordRecord;
use woerterbuch::words::capitalize_noun;
use woerterbuch::words::check_spelling_simple;
use woerterbuch::words::get_article;
use woerterbuch::words::has_verb_form;
use woerterbuch::words::umlaut_normalize;

fn common(word: &str, group: usize, translation: &str) -> WordCommon {
    WordCommon::new(word.to_string(), group, translation.to_string(), String::new())
}

fn noun(word: &str, article: NounArticle, group: usize, translation: &str) -> WordRecord {
    WordRecord::Noun(Noun::new(common(word, group, translation), article))
}

fn verb(word: &str, praet: &str, perfect: &str, group: usize) -> WordRecord {
    WordRecord::Verb(Verb::new(
        common(word, group, "go"),
        praet.to_string(),
        perfect.to_string(),
        PerfectVerb::from(perfect_aux(perfect)),
        "geht".to_string(),
    ))
}

fn perfect_aux(perfect: &str) -> &'static str {
    if perfect.is_empty() { "" } else { "ist" }
}

#[test]
fn spelling_exact_match_ignores_case() {
    assert!(check_spelling_simple("haus", "Haus"));
    assert!(check_spelling_simple("HAUS", "haus"));
    assert!(!check_spelling_simple("maus", "Haus"));
}

#[test]
fn spelling_accepts_spelled_out_umlauts() {
    assert!(check_spelling_simple("gruen", "grün"));
    assert!(check_spelling_simple("heiss", "heiß"));
    assert!(check_spelling_simple("schoen", "Schön"));
    assert!(!check_spelling_simple("grun", "grün"));
}

#[test]
fn umlaut_normalize_rewrites_every_umlaut() {
    assert_eq!(umlaut_normalize("schön"), "schoen");
    assert_eq!(umlaut_normalize("über"), "ueber");
    assert_eq!(umlaut_normalize("straße"), "strasse");
    assert_eq!(umlaut_normalize("klar"), "klar");
}

#[test]
fn capitalize_noun_upper_cases_first_letter() {
    assert_eq!(capitalize_noun("haus"), "Haus");
    assert_eq!(capitalize_noun("Haus"), "Haus");
    assert_eq!(capitalize_noun("übung"), "übung");
}

#[test]
fn article_strings() {
    assert_eq!(NounArticle::Der.to_string(), "der");
    assert_eq!(NounArticle::Die.to_string(), "die");
    assert_eq!(NounArticle::Das.to_string(), "das");
    assert_eq!(NounArticle::Plural.to_string(), "die");
}

#[test]
fn article_answer_bullet_marks_plural() {
    assert_eq!(NounArticle::Plural.to_answer_buller(), "die (plural)");
    assert_eq!(NounArticle::Der.to_answer_buller(), "der");
}

#[test]
fn get_article_reads_catalog_cells() {
    assert_eq!(get_article("der"), Some(NounArticle::Der));
    assert_eq!(get_article("das"), Some(NounArticle::Das));
    assert_eq!(get_article("die"), Some(NounArticle::Die));
    assert_eq!(get_article("pl"), Some(NounArticle::Plural));
    assert_eq!(get_article("los"), None);
}

#[test]
fn perfect_verb_trims_unicode_whitespace() {
    assert_eq!(PerfectVerb::from("hat\u{a0}"), Some(PerfectVerb::Haben));
    assert_eq!(PerfectVerb::from("\u{2009}ist\t"), Some(PerfectVerb::Sein));
    assert_eq!(PerfectVerb::from(" \u{3000} "), None);
}

#[test]
fn perfect_verb_from_trimmed_cells() {
    assert_eq!(PerfectVerb::from("hat"), Some(PerfectVerb::Haben));
    assert_eq!(PerfectVerb::from(" ist "), Some(PerfectVerb::Sein));
    assert_eq!(PerfectVerb::from("hat/ist"), Some(PerfectVerb::Both));
    assert_eq!(PerfectVerb::from(""), None);
    assert_eq!(PerfectVerb::from_option(None), None);
    assert_eq!(
        PerfectVerb::from_option(Some("hat".to_string())),
        Some(PerfectVerb::Haben)
    );
}

#[test]
fn noun_spelling_carries_article_and_capital() {
    let w = noun("haus", NounArticle::Das, 0, "house");
    assert_eq!(w.spelling(), "das Haus");
    assert_eq!(w.get_word(), "haus");
    assert_eq!(w.get_pos(), PartOfSpeech::Noun);
    assert_eq!(w.get_article(), Some(NounArticle::Das));
    assert!(w.check_spelling("das haus"));
    assert!(!w.check_spelling("haus"));
}

#[test]
fn verb_record_reports_its_forms() {
    let w = verb("gehen", "ging", "gegangen", 1);
    assert_eq!(w.get_pos(), PartOfSpeech::Verb);
    assert_eq!(w.get_verb_praeteritum(), Some("ging"));
    assert_eq!(w.get_verb_perfect(), Some("gegangen"));
    assert_eq!(w.get_verb_perfect_verb(), Some(PerfectVerb::Sein));
    assert_eq!(w.get_verb_present_third(), Some("geht"));
    assert_eq!(w.spelling(), "gehen");
    assert_eq!(w.get_article(), None);
}

#[test]
fn adjective_has_no_verb_forms() {
    let w = WordRecord::Adjective(Adjective::new(common("schnell", 0, "fast")));
    assert_eq!(w.get_verb_praeteritum(), None);
    assert_eq!(w.pos_str(), "adj");
}

#[test]
fn has_verb_form_needs_a_non_empty_form() {
    let with_forms = verb("gehen", "ging", "gegangen", 0);
    let without = verb("lernen", "", "", 0);
    assert!(has_verb_form(&with_forms, &VerbFormExercise::Praeteritum));
    assert!(has_verb_form(&with_forms, &VerbFormExercise::Perfect));
    assert!(has_verb_form(&with_forms, &VerbFormExercise::PresentThird));
    assert!(!has_verb_form(&without, &VerbFormExercise::Praeteritum));
    assert!(!has_verb_form(&without, &VerbFormExercise::Perfect));
    let w = noun("haus", NounArticle::Das, 0, "house");
    assert!(!has_verb_form(&w, &VerbFormExercise::Praeteritum));
}

#[test]
fn group_ids_are_dense_and_stable() {
    let mut db = Database::new();
    assert_eq!(db.get_group_id("home"), 0);
    assert_eq!(db.get_group_id("travel"), 1);
    assert_eq!(db.get_group_id("home"), 0);
    assert_eq!(db.get_group_id("travel"), 1);
    assert_eq!(db.get_group_id("food"), 2);
    assert_eq!(db.groups.len(), 3);
}

#[test]
fn database_keeps_word_ids_unique() {
    let mut db = Database::new();
    assert!(db.add_word(noun("haus", NounArticle::Das, 0, "house")));
    assert!(db.add_word(verb("gehen", "ging", "gegangen", 1)));
    assert!(!db.add_word(noun("haus", NounArticle::Der, 2, "again")));
    assert_eq!(db.words.len(), 2);
    assert!(db.find_word("haus").is_some());
    assert!(db.find_word("gehen").is_some());
    assert!(db.find_word("maus").is_none());
    assert_eq!(db.find_word("haus").unwrap().get_word(), "haus");
}
