use wurdle::database::{get_words_list, parse_id, Database, Error, RESTRICTED_LENGTH};

fn strings(v: &[&str]) -> Vec<String> {
    v.iter().map(|s| s.to_string()).collect()
}

fn store() -> Database {
    Database::new(strings(&["crane", "allot", "mossy"]), strings(&["lolly", "eerie"]))
}

#[test]
fn answers_are_sorted_and_identified_by_position() {
    let db = store();
    assert_eq!(db.answer_words(false).unwrap(), strings(&["allot", "crane", "mossy"]));
    let w = db.word_for_index(1).unwrap();
    assert_eq!(w.word_id, "1");
    assert_eq!(w.word, "crane");
}

#[test]
fn index_past_the_end_is_out_of_bounds() {
    let db = store();
    assert_eq!(
        db.word_for_index(3).err(),
        Some(Error::OutOfBounds { index: 3, maximum: 3 })
    );
}

#[test]
fn identifiers_parse_as_decimal_indices() {
    let db = store();
    assert_eq!(db.word_for_id("2").unwrap().word, "mossy");
    assert_eq!(db.word_for_id("+0").unwrap().word, "allot");
    assert_eq!(
        db.word_for_id("x1").err(),
        Some(Error::InvalidID { id: "x1".to_string() })
    );
    assert_eq!(
        db.word_for_id("9").err(),
        Some(Error::OutOfBounds { index: 9, maximum: 3 })
    );
}

#[test]
fn parse_id_follows_usize_from_str() {
    assert_eq!(parse_id("0"), Some(0));
    assert_eq!(parse_id("0042"), Some(42));
    assert_eq!(parse_id("+7"), Some(7));
    assert_eq!(parse_id(""), None);
    assert_eq!(parse_id("+"), None);
    assert_eq!(parse_id("-1"), None);
    assert_eq!(parse_id("1 "), None);
    assert_eq!(parse_id(&usize::MAX.to_string()), Some(usize::MAX));
    assert_eq!(parse_id("99999999999999999999999"), None);
}

#[test]
fn word_exists_gives_the_identifier() {
    let db = store();
    let w = db.word_exists("mossy").unwrap();
    assert_eq!(w.word_id, "2");
    assert_eq!(
        db.word_exists("zzzzz").err(),
        Some(Error::MissingWord { word: "zzzzz".to_string() })
    );
}

#[test]
fn guesses_are_allowed_words_or_answers() {
    let db = store();
    assert_eq!(db.guess_exists("lolly"), Ok(true));
    assert_eq!(db.guess_exists("crane"), Ok(true));
    assert_eq!(db.guess_exists("qqqqq"), Ok(false));
    assert_eq!(db.allowed_words().unwrap(), strings(&["lolly", "eerie"]));
}

#[test]
fn restricted_sample_is_a_sorted_subset() {
    let db = store();
    assert_eq!(db.word_length(true), Ok(3));
    assert_eq!(db.word_length(false), Ok(3));
    let answers: Vec<String> = (0..1200).map(|i| format!("w{:05}", i)).rev().collect();
    let big = Database::new(answers, vec![]);
    assert_eq!(big.word_length(true), Ok(RESTRICTED_LENGTH));
    let sample = big.answer_words(true).unwrap();
    let all = big.answer_words(false).unwrap();
    assert!(sample.windows(2).all(|p| p[0] <= p[1]));
    assert!(sample.iter().all(|w| all.contains(w)));
    // a shuffle that left the sorted answers in place would pick the first ones
    assert_ne!(sample, all[..RESTRICTED_LENGTH].to_vec());
    assert!(all.windows(2).all(|p| p[0] <= p[1]));
    let again = Database::new((0..1200).map(|i| format!("w{:05}", i)).collect(), vec![]);
    assert_eq!(again.answer_words(true).unwrap(), sample);
}

#[test]
fn word_lists_split_on_newlines() {
    assert_eq!(get_words_list("aa\nbb\ncc"), strings(&["aa", "bb", "cc"]));
    assert_eq!(get_words_list("aa\n"), strings(&["aa", ""]));
    assert_eq!(get_words_list(""), strings(&[""]));
}

#[test]
fn repeated_answers_are_found_at_their_last_position() {
    let db = Database::new(strings(&["bb", "aa", "bb"]), vec![]);
    assert_eq!(db.word_exists("bb").unwrap().word_id, "2");
    assert_eq!(db.word_exists("aa").unwrap().word_id, "0");
}

#[test]
fn restricted_sample_is_the_same_across_builds_with_repeats() {
    let answers: Vec<String> = (0..900).map(|i| format!("w{:03}", i % 300)).collect();
    let a = Database::new(answers.clone(), vec![]);
    let b = Database::new(answers, vec![]);
    assert_eq!(a.answer_words(true).unwrap(), b.answer_words(true).unwrap());
    assert_eq!(a.word_length(true), Ok(RESTRICTED_LENGTH));
}

#[test]
fn identifiers_are_written_in_decimal() {
    let answers: Vec<String> = (0..1234).map(|i| format!("w{:05}", i)).collect();
    let db = Database::new(answers, vec![]);
    assert_eq!(db.word_for_index(0).unwrap().word_id, "0");
    assert_eq!(db.word_for_index(10).unwrap().word_id, "10");
    assert_eq!(db.word_for_index(1233).unwrap().word_id, "1233");
}
