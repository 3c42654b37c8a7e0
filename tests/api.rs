use wurdle::api::{Api, ApiError};
use wurdle::database::{Database, Error as StoreError};
use wurdle::error::Error;
use wurdle::manager::SessionManager;
use wurdle::scoring::Verdict;
use wurdle::session::{Session, Status};

fn api() -> Api {
    let words = |v: &[&str]| v.iter().map(|s| s.to_string()).collect::<Vec<_>>();
    let db = Database::new(words(&["allot", "crane", "mossy"]), words(&["lolly", "eerie", "geese"]));
    Api::new(db, SessionManager::new("server key").unwrap())
}

#[test]
fn a_round_from_start_to_win() {
    let api = api();
    let start = api.start_with_word("crane").unwrap();
    assert_eq!(start.word_id, "1");
    let info = api.get_session_info(&start.session_id).unwrap();
    assert_eq!(info.status, Status::InProgress { used_guesses: 0 });
    assert_eq!(info.guess_number, 0);

    let first = api.do_guess(&start.session_id, "eerie").unwrap();
    assert_eq!(first.guess_number, 1);
    assert_eq!(first.status, Status::InProgress { used_guesses: 1 });
    assert_eq!(
        first.result,
        vec![Verdict::Absent, Verdict::Absent, Verdict::PresentElsewhere, Verdict::Absent, Verdict::Correct]
    );

    let second = api.do_guess(&first.session_id, "crane").unwrap();
    assert_eq!(second.status, Status::Won { used_guesses: 2 });
    assert_eq!(second.result, vec![Verdict::Correct; 5]);
    let info = api.get_session_info(&second.session_id).unwrap();
    assert_eq!(info.word_id, "1");
    assert_eq!(info.guess_number, 2);

    assert_eq!(api.do_guess(&second.session_id, "crane").err(), Some(ApiError::TerminalSession));
}

#[test]
fn six_wrong_guesses_fail_the_round() {
    let api = api();
    let mut token = api.start_with_id("0").unwrap().session_id;
    for n in 1..=6u8 {
        let reply = api.do_guess(&token, "mossy").unwrap();
        assert_eq!(reply.guess_number, n);
        token = reply.session_id;
    }
    let info = api.get_session_info(&token).unwrap();
    assert_eq!(info.status, Status::Failed);
    assert_eq!(info.guess_number, 6);
    assert_eq!(api.do_guess(&token, "allot").err(), Some(ApiError::TerminalSession));
}

#[test]
fn refusals() {
    let api = api();
    assert_eq!(
        api.do_guess("nonsense", "crane").err(),
        Some(ApiError::Token(Error::InvalidFormat))
    );
    let start = api.start_random(2).unwrap();
    assert_eq!(start.word_id, "2");
    assert_eq!(api.do_guess(&start.session_id, "qqqqq").err(), Some(ApiError::UnknownGuess));
    assert_eq!(
        api.start_with_id("17").err(),
        Some(ApiError::Store(StoreError::OutOfBounds { index: 17, maximum: 3 }))
    );
    assert_eq!(
        api.start_with_word("zebra").err(),
        Some(ApiError::Store(StoreError::MissingWord { word: "zebra".to_string() }))
    );
    assert_eq!(
        api.start_random(3).err(),
        Some(ApiError::Store(StoreError::OutOfBounds { index: 3, maximum: 3 }))
    );
    assert_eq!(
        api.start_with_id("one").err(),
        Some(ApiError::Store(StoreError::InvalidID { id: "one".to_string() }))
    );
}

#[test]
fn token_naming_a_missing_word_is_refused_by_the_store() {
    let api = api();
    let start = api.make_session("99").unwrap();
    assert_eq!(
        api.do_guess(&start.session_id, "crane").err(),
        Some(ApiError::Store(StoreError::OutOfBounds { index: 99, maximum: 3 }))
    );
}

#[test]
fn starting_by_id_gives_the_same_token_as_make_session() {
    let api = api();
    let a = api.start_with_id("1").unwrap();
    let b = api.make_session("1").unwrap();
    assert_eq!(a.session_id, b.session_id);
}

#[test]
fn get_session_decodes_the_record() {
    let api = api();
    let start = api.start_with_id("2").unwrap();
    let s = api.get_session(&start.session_id).unwrap();
    assert!(s == Session::new("2"));
}
