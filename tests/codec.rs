use wurdle::error::Error;
use wurdle::manager::SessionManager;
use wurdle::session::{Session, Status};

fn records() -> Vec<Session> {
    vec![
        Session::new("0"),
        Session { word_id: "1234".to_string(), status: Status::InProgress { used_guesses: 5 } },
        Session { word_id: "7".to_string(), status: Status::Won { used_guesses: 6 } },
        Session { word_id: "".to_string(), status: Status::Failed },
    ]
}

#[test]
fn decode_of_encode_gives_the_record_back() {
    let m = SessionManager::new("a secret key").unwrap();
    for r in records() {
        let token = m.serialize(&r).unwrap();
        let back = m.deserialize(&token).unwrap();
        assert!(back == r);
    }
}

#[test]
fn token_is_two_segments_joined_by_a_dot() {
    let m = SessionManager::new("k").unwrap();
    let token = m.serialize(&Session::new("5")).unwrap();
    let parts: Vec<&str> = token.split('.').collect();
    assert_eq!(parts.len(), 2);
    assert!(token.chars().all(|c| c.is_ascii_alphanumeric() || "+/=.".contains(c)));
    // a SHA-256 tag is 32 bytes: 44 characters of base64
    assert_eq!(parts[1].len(), 44);
}

#[test]
fn seal_encodes_payload_and_its_hmac() {
    let m = SessionManager::new("key").unwrap();
    let token = m.seal(b"The quick brown fox jumps over the lazy dog");
    assert_eq!(
        token,
        "VGhlIHF1aWNrIGJyb3duIGZveCBqdW1wcyBvdmVyIHRoZSBsYXp5IGRvZw==.97yD9DBThCSxMpjmqm+xQ+9NWaFJRhdZl0edvC0aPNg="
    );
}

#[test]
fn altering_any_character_of_either_segment_is_refused() {
    let m = SessionManager::new("a secret key").unwrap();
    let token = m.serialize(&Session::new("31")).unwrap();
    let sep = token.find('.').unwrap();
    let chars: Vec<char> = token.chars().collect();
    for i in 0..chars.len() {
        if i == sep {
            continue;
        }
        for c in ['A', 'z', '0', '+', '.', '#'] {
            if c == chars[i] {
                continue;
            }
            let mut altered = chars.clone();
            altered[i] = c;
            let altered: String = altered.into_iter().collect();
            let r = m.deserialize(&altered);
            assert!(
                matches!(r, Err(Error::InvalidFormat) | Err(Error::TamperedOrExpiredToken)),
                "altered token {} was not refused",
                altered
            );
        }
    }
}

#[test]
fn token_from_another_key_is_tampered() {
    let m1 = SessionManager::new("first key").unwrap();
    let m2 = SessionManager::new("second key").unwrap();
    let token = m1.serialize(&Session::new("8")).unwrap();
    assert_eq!(m2.deserialize(&token).err(), Some(Error::TamperedOrExpiredToken));
    assert!(m1.deserialize(&token).is_ok());
}

#[test]
fn misshapen_tokens_are_invalid_format() {
    let m = SessionManager::new("k").unwrap();
    assert_eq!(m.deserialize("").err(), Some(Error::InvalidFormat));
    assert_eq!(m.deserialize("no separator").err(), Some(Error::InvalidFormat));
    assert_eq!(m.deserialize("YWJj.!!!").err(), Some(Error::InvalidFormat));
    assert_eq!(m.deserialize("YWJ.YWJj").err(), Some(Error::InvalidFormat));
    assert_eq!(m.deserialize("é.YWJj").err(), Some(Error::InvalidFormat));
}

#[test]
fn well_formed_but_unsigned_token_is_tampered() {
    let m = SessionManager::new("k").unwrap();
    assert_eq!(m.deserialize("YWJj.YWJj").err(), Some(Error::TamperedOrExpiredToken));
}

#[test]
fn authentic_garbage_payload_is_malformed() {
    let m = SessionManager::new("k").unwrap();
    let token = m.seal(b"not a zlib stream");
    assert_eq!(m.deserialize(&token).err(), Some(Error::MalformedPayload));
}

#[test]
fn empty_key_is_refused() {
    assert_eq!(SessionManager::new("").err(), Some(Error::InvalidKey));
    assert!(SessionManager::new("x").is_ok());
}
