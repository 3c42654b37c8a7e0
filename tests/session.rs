use wurdle::error::Error;
use wurdle::record::{read_record, write_record};
use wurdle::scoring::Verdict;
use wurdle::session::{Session, Status, MAX_GUESSES};

#[test]
fn new_session_starts_in_progress_with_no_guesses() {
    let s = Session::new("42");
    assert_eq!(s.word_id, "42");
    assert_eq!(s.status, Status::InProgress { used_guesses: 0 });
}

#[test]
fn status_names() {
    assert_eq!(Status::InProgress { used_guesses: 2 }.to_string(), "in_progress");
    assert_eq!(Status::Failed.to_string(), "failed");
    assert_eq!(Status::Won { used_guesses: 3 }.to_string(), "guessed");
}

#[test]
fn winning_guess_wins_with_the_count_of_guesses() {
    let mut s = Session::new("7");
    let v = s.apply_guess("crane", "crane").unwrap();
    assert_eq!(v, vec![Verdict::Correct; 5]);
    assert_eq!(s.status, Status::Won { used_guesses: 1 });
    assert_eq!(s.word_id, "7");
}

#[test]
fn wrong_guess_uses_one_guess() {
    let mut s = Session::new("7");
    s.apply_guess("crane", "mossy").unwrap();
    assert_eq!(s.status, Status::InProgress { used_guesses: 1 });
}

#[test]
fn last_wrong_guess_fails_the_round() {
    let mut s = Session { word_id: "7".to_string(), status: Status::InProgress { used_guesses: 5 } };
    s.apply_guess("crane", "mossy").unwrap();
    assert_eq!(s.status, Status::Failed);
    assert_eq!(MAX_GUESSES, 6);
}

#[test]
fn last_guess_can_still_win() {
    let mut s = Session { word_id: "7".to_string(), status: Status::InProgress { used_guesses: 5 } };
    s.apply_guess("crane", "crane").unwrap();
    assert_eq!(s.status, Status::Won { used_guesses: 6 });
}

#[test]
fn finished_rounds_reject_guesses_unchanged() {
    for status in [Status::Failed, Status::Won { used_guesses: 3 }] {
        let mut s = Session { word_id: "9".to_string(), status };
        assert_eq!(s.apply_guess("crane", "crane"), Err(Error::TerminalSession));
        assert_eq!(s.status, status);
        assert_eq!(s.word_id, "9");
    }
}

#[test]
fn guess_of_other_length_is_rejected_unchanged() {
    let mut s = Session::new("7");
    assert_eq!(s.apply_guess("crane", "cranes"), Err(Error::LengthMismatch));
    assert_eq!(s.status, Status::InProgress { used_guesses: 0 });
}

#[test]
fn status_after_guess() {
    assert_eq!(
        Status::InProgress { used_guesses: 5 }.after_guess(false),
        Ok(Status::Failed)
    );
    assert_eq!(
        Status::InProgress { used_guesses: 2 }.after_guess(true),
        Ok(Status::Won { used_guesses: 3 })
    );
    assert_eq!(Status::Failed.after_guess(true), Err(Error::TerminalSession));
}

#[test]
fn record_bytes_are_field_tagged_json() {
    let s = Session::new("12");
    let b = s.serialize().unwrap();
    assert_eq!(
        String::from_utf8(b.clone()).unwrap(),
        r#"{"word_id":"12","status":{"InProgress":{"used_guesses":0}}}"#
    );
    let failed = Session { word_id: "3".to_string(), status: Status::Failed };
    assert_eq!(
        String::from_utf8(failed.serialize().unwrap()).unwrap(),
        r#"{"word_id":"3","status":"Failed"}"#
    );
}

#[test]
fn record_round_trips_with_escaped_identifier() {
    let s = Session {
        word_id: "a \"quoted\" \\ id é".to_string(),
        status: Status::Won { used_guesses: 4 },
    };
    let b = s.serialize().unwrap();
    let back = Session::deserialize(&b).unwrap();
    assert!(back == s);
}

#[test]
fn malformed_records_are_rejected() {
    assert_eq!(Session::deserialize(b"{}").err(), Some(Error::MalformedPayload));
    let bad_count = br#"{"status":{"InProgress":{"used_guesses":7}},"word_id":"1"}"#;
    assert_eq!(Session::deserialize(bad_count).err(), Some(Error::MalformedPayload));
    let bad_word = br#"{"status":"Failed","word_id":12}"#;
    assert!(read_record(bad_word).is_none());
    let unclosed = br#"{"word_id":"1\","status":"Failed"}"#;
    assert!(read_record(unclosed).is_none());
    let leading_zero = br#"{"word_id":"1","status":{"Won":{"used_guesses":01}}}"#;
    assert!(read_record(leading_zero).is_none());
    let missing = br#"{"word_id":"1"}"#;
    assert!(read_record(missing).is_none());
    let twice = br#"{"word_id":"1","status":"Failed","word_id":"2"}"#;
    assert!(read_record(twice).is_none());
    let trailing = br#"{"word_id":"1","status":"Failed"} x"#;
    assert!(read_record(trailing).is_none());
}

#[test]
fn records_skip_members_they_do_not_read() {
    let text = br#"{"version":2,"word_id":"5","hint":{"tries":[1,"}",{"a":null}]},"status":{"InProgress":{"used_guesses":4}},"note":"x\"y","ok":true}"#;
    let s = Session::deserialize(text).unwrap();
    assert!(s == Session { word_id: "5".to_string(), status: Status::InProgress { used_guesses: 4 } });
}

#[test]
fn records_read_in_either_field_order_and_with_whitespace() {
    let expected = Session { word_id: "12".to_string(), status: Status::Won { used_guesses: 3 } };
    let texts: [&[u8]; 3] = [
        br#"{"word_id":"12","status":{"Won":{"used_guesses":3}}}"#,
        br#"{"status":{"Won":{"used_guesses":3}},"word_id":"12"}"#,
        b" {\n  \"status\" : { \"Won\" : { \"used_guesses\" : 3 } } ,\t\"word_id\" : \"12\"\r\n} ",
    ];
    for t in texts {
        let s = Session::deserialize(t).unwrap();
        assert!(s == expected);
    }
    let failed = Session::deserialize(br#"{ "status" : "Failed" , "word_id" : "\u0031" }"#).unwrap();
    assert!(failed == Session { word_id: "1".to_string(), status: Status::Failed });
}

#[test]
fn write_record_frames_a_given_string() {
    let b = write_record(b"\"x\"", Status::Won { used_guesses: 2 });
    assert_eq!(b, br#"{"word_id":"x","status":{"Won":{"used_guesses":2}}}"#.to_vec());
}

#[test]
fn unread_members_must_be_json() {
    let bad_value = br#"{"word_id":"1","status":"Failed","x":@@}"#;
    assert_eq!(Session::deserialize(bad_value).err(), Some(Error::MalformedPayload));
    let bad_number = br#"{"word_id":"1","status":"Failed","x":1.2.3}"#;
    assert_eq!(Session::deserialize(bad_number).err(), Some(Error::MalformedPayload));
    let mut bad_utf8 = br#"{"word_id":"1","status":"Failed","x":"ab"}"#.to_vec();
    let at = bad_utf8.len() - 3;
    bad_utf8[at] = 0xff;
    assert_eq!(Session::deserialize(&bad_utf8).err(), Some(Error::MalformedPayload));
    let escaped_name = br#"{"word_id":"1","status":"Failed","word\u005fid":"2"}"#;
    assert_eq!(Session::deserialize(escaped_name).err(), Some(Error::MalformedPayload));
    let mut bad_word = br#"{"word_id":"ab","status":"Failed"}"#.to_vec();
    bad_word[12] = 0xff;
    assert_eq!(Session::deserialize(&bad_word).err(), Some(Error::MalformedPayload));
}

#[test]
fn identifier_is_written_with_json_escapes() {
    let s = Session { word_id: "a\"\\\n\u{1}é".to_string(), status: Status::Failed };
    let b = s.serialize().unwrap();
    assert_eq!(
        String::from_utf8(b).unwrap(),
        "{\"word_id\":\"a\\\"\\\\\\n\\u0001é\",\"status\":\"Failed\"}"
    );
}
