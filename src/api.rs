//! The game's operations as a server offers them: start a round, submit a
//! guess, and read a round's status. Transport and routing stay outside;
//! here each operation maps plain inputs to a reply or a rejection.

use vstd::prelude::*;
use vstd::utf8::encode_utf8;
use crate::database::{self, decimal, holds, parse_index, Database};
use crate::error::Error;
use crate::manager::{decode_token, encodable, token_of, SessionManager};
use crate::scoring::{verdicts, Verdict};
use crate::session::{next_status, Session, SessionView, Status, MAX_GUESSES};

verus! {

/// Why an operation was refused.
#[derive(Debug, Clone, PartialEq, Eq)]
pub enum ApiError {
    /// The token did not decode.
    Token(Error),
    /// The word store refused a lookup.
    Store(database::Error),
    /// The round is already won or failed.
    TerminalSession,
    /// The guess is neither an allowed guess nor an answer.
    UnknownGuess,
    /// The guess and the secret differ in length.
    LengthMismatch,
    /// Encoding a new token failed; no input can cause this.
    Internal(Error),
}

/// A new round: its token and the identifier of its word.
#[derive(Debug, Clone)]
pub struct SessionStart {
    pub session_id: String,
    pub word_id: String,
}

/// The reply to an accepted guess.
#[derive(Debug, Clone)]
pub struct GuessReply {
    pub guess_number: u8,
    pub status: Status,
    pub result: Vec<Verdict>,
    pub session_id: String,
}

/// A round's identifier, status and guess count.
#[derive(Debug, Clone)]
pub struct InfoReply {
    pub word_id: String,
    pub status: Status,
    pub guess_number: u8,
}

/// How many guesses a round in `status` has used; a failed round used all.
pub open spec fn guesses_used(status: Status) -> u8 {
    match status {
        Status::InProgress { used_guesses } => used_guesses,
        Status::Won { used_guesses } => used_guesses,
        Status::Failed => MAX_GUESSES,
    }
}

pub fn guess_number(status: &Status) -> (r: u8)
    ensures
        r == guesses_used(*status),
{
    match status {
        Status::InProgress { used_guesses } => *used_guesses,
        Status::Won { used_guesses } => *used_guesses,
        Status::Failed => MAX_GUESSES,
    }
}

/// `r` is a new round for `word_id` under `key`: made whenever its token
/// can be, and refused as an internal failure otherwise.
pub open spec fn started(key: Seq<u8>, r: Result<SessionStart, ApiError>, word_id: Seq<char>) -> bool {
    let v = SessionView { word_id, status: Status::InProgress { used_guesses: 0 } };
    if encodable(v) {
        match r {
            Ok(s) => s.word_id@ == word_id && s.session_id@ == token_of(key, v) && decode_token(
                key,
                s.session_id@,
            ) == Ok::<SessionView, Error>(v),
            Err(_) => false,
        }
    } else {
        r == Err::<SessionStart, ApiError>(ApiError::Internal(Error::InternalCompressionFailure))
    }
}

/// The word store and the token codec, which every operation needs.
pub struct Api {
    db: Database,
    sessions: SessionManager,
}

impl Api {
    pub closed spec fn store(&self) -> Database {
        self.db
    }

    pub closed spec fn key(&self) -> Seq<u8> {
        self.sessions.key()
    }

    pub fn new(db: Database, sessions: SessionManager) -> (r: Api)
        ensures
            r.store() == db,
            r.key() == sessions.key(),
    {
        Api { db, sessions }
    }

    /// How many answers a random round draws from.
    pub fn word_length(&self) -> (r: usize)
        ensures
            r == self.store().answers().len() as usize,
    {
        match self.db.word_length(false) {
            Ok(n) => n,
            Err(_) => 0,
        }
    }

    /// A fresh round for the word `word_id`, without checking the word.
    pub fn make_session(&self, word_id: &str) -> (r: Result<SessionStart, ApiError>)
        ensures
            started(self.key(), r, word_id@),
    {
        let session = Session::new(word_id);
        match self.sessions.serialize(&session) {
            Ok(session_id) => Ok(SessionStart { session_id, word_id: word_id.to_owned() }),
            Err(e) => Err(ApiError::Internal(e)),
        }
    }
}

impl Api {
    /// The record a token carries.
    pub fn get_session(&self, session_id: &str) -> (r: Result<Session, ApiError>)
        ensures
            match decode_token(self.key(), session_id@) {
                Ok(v) => r matches Ok(s) && s@ == v && s.wf(),
                Err(e) => r == Err::<Session, ApiError>(ApiError::Token(e)),
            },
    {
        match self.sessions.deserialize(session_id) {
            Ok(session) => Ok(session),
            Err(e) => Err(ApiError::Token(e)),
        }
    }

    /// A round's identifier, status and guess count.
    pub fn get_session_info(&self, session_id: &str) -> (r: Result<InfoReply, ApiError>)
        ensures
            match decode_token(self.key(), session_id@) {
                Ok(v) => r matches Ok(info) && info.word_id@ == v.word_id && info.status == v.status
                    && info.guess_number == guesses_used(v.status),
                Err(e) => r == Err::<InfoReply, ApiError>(ApiError::Token(e)),
            },
    {
        let session = self.get_session(session_id)?;
        let guess_number = guess_number(&session.status);
        Ok(InfoReply { word_id: session.word_id, status: session.status, guess_number })
    }

    /// A fresh round for the answer that `word_id` names.
    pub fn start_with_id(&self, word_id: &str) -> (r: Result<SessionStart, ApiError>)
        ensures
            match parse_index(word_id@) {
                Some(i) => if i < self.store().answers().len() {
                    started(self.key(), r, word_id@)
                } else {
                    r matches Err(ApiError::Store(database::Error::OutOfBounds { index, maximum }))
                        && index == i && maximum == self.store().answers().len()
                },
                None => r matches Err(ApiError::Store(database::Error::InvalidID { id })) && id@
                    == word_id@,
            },
    {
        match self.db.word_for_id(word_id) {
            Ok(_) => self.make_session(word_id),
            Err(e) => Err(ApiError::Store(e)),
        }
    }

    /// A fresh round for the answer at `index`, which the caller draws at
    /// random below `word_length(false)`.
    pub fn start_random(&self, index: usize) -> (r: Result<SessionStart, ApiError>)
        ensures
            index < self.store().answers().len() ==> started(self.key(), r, decimal(index as nat)),
            index >= self.store().answers().len() ==> (r matches Err(
                ApiError::Store(database::Error::OutOfBounds { index: i, maximum: m }),
            ) && i == index && m == self.store().answers().len()),
    {
        match self.db.word_for_index(index) {
            Ok(word) => self.make_session(word.word_id.as_str()),
            Err(e) => Err(ApiError::Store(e)),
        }
    }

    /// A fresh round whose secret is the answer `word`.
    pub fn start_with_word(&self, word: &str) -> (r: Result<SessionStart, ApiError>)
        ensures
            holds(self.store().answers(), word@) ==> exists|i: int|
                database::is_last_index(self.store().answers(), word@, i) && started(
                    self.key(),
                    r,
                    decimal(i as nat),
                ),
            !holds(self.store().answers(), word@) ==> (r matches Err(
                ApiError::Store(database::Error::MissingWord { word: w }),
            ) && w@ == word@),
    {
        match self.db.word_exists(word) {
            Ok(w) => self.make_session(w.word_id.as_str()),
            Err(e) => Err(ApiError::Store(e)),
        }
    }

    /// Scores `guess` in the round that `session_id` carries and returns the
    /// verdicts with a token for the advanced round. A token that does not
    /// decode, a finished round, a guess that is not a word, a secret that
    /// the store cannot give, and a guess of the wrong length are refused in
    /// that order, with no new token.
    pub fn do_guess(&self, session_id: &str, guess: &str) -> (r: Result<GuessReply, ApiError>)
        ensures
            match decode_token(self.key(), session_id@) {
                Err(e) => r == Err::<GuessReply, ApiError>(ApiError::Token(e)),
                Ok(v) => if v.status.is_terminal() {
                    r == Err::<GuessReply, ApiError>(ApiError::TerminalSession)
                } else if !(holds(self.store().allowed(), guess@) || holds(
                    self.store().answers(),
                    guess@,
                )) {
                    r == Err::<GuessReply, ApiError>(ApiError::UnknownGuess)
                } else {
                    match parse_index(v.word_id) {
                        Some(i) if i < self.store().answers().len() => {
                            let secret = encode_utf8(self.store().answers()[i as int]@);
                            let g = encode_utf8(guess@);
                            let next = next_status(v.status, secret == g);
                            if secret.len() != g.len() {
                                r == Err::<GuessReply, ApiError>(ApiError::LengthMismatch)
                            } else if encodable(SessionView { word_id: v.word_id, status: next }) {
                                match r {
                                    Ok(reply) => {
                                        &&& reply.result@ == verdicts(secret, g)
                                        &&& reply.status == next
                                        &&& reply.guess_number == guesses_used(next)
                                        &&& reply.session_id@ == token_of(
                                            self.key(),
                                            SessionView { word_id: v.word_id, status: next },
                                        )
                                        &&& decode_token(self.key(), reply.session_id@) == Ok::<
                                            SessionView,
                                            Error,
                                        >(SessionView { word_id: v.word_id, status: next })
                                    },
                                    Err(_) => false,
                                }
                            } else {
                                r == Err::<GuessReply, ApiError>(
                                    ApiError::Internal(Error::InternalCompressionFailure),
                                )
                            }
                        },
                        Some(i) => r matches Err(
                            ApiError::Store(database::Error::OutOfBounds { index, maximum }),
                        ) && index == i && maximum == self.store().answers().len(),
                        None => r matches Err(ApiError::Store(database::Error::InvalidID { id }))
                            && id@ == v.word_id,
                    }
                },
            },
    {
        let mut session = self.get_session(session_id)?;
        if !matches!(session.status, Status::InProgress { .. }) {
            return Err(ApiError::TerminalSession);
        }
        match self.db.guess_exists(guess) {
            Ok(true) => {},
            Ok(false) => {
                return Err(ApiError::UnknownGuess);
            },
            Err(e) => {
                return Err(ApiError::Store(e));
            },
        }
        let word = match self.db.word_for_id(session.word_id.as_str()) {
            Ok(word) => word,
            Err(e) => {
                return Err(ApiError::Store(e));
            },
        };
        let result = match session.apply_guess(word.word.as_str(), guess) {
            Ok(result) => result,
            Err(Error::LengthMismatch) => {
                return Err(ApiError::LengthMismatch);
            },
            Err(_) => {
                return Err(ApiError::TerminalSession);
            },
        };
        match self.sessions.serialize(&session) {
            Ok(token) => Ok(
                GuessReply {
                    guess_number: guess_number(&session.status),
                    status: session.status,
                    result,
                    session_id: token,
                },
            ),
            Err(e) => Err(ApiError::Internal(e)),
        }
    }
}

} // verus!
