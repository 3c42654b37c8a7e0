use vstd::prelude::*;
use crate::error::Error;
use vstd::string::StringSliceAdditionalSpecFns;
use crate::scoring::{score, verdicts, Verdict};

verus! {

/// The number of guesses a round allows.
pub const MAX_GUESSES: u8 = 6;

/// Progress of one round.
#[derive(Debug, Clone, Copy, PartialEq, Eq, Structural)]
pub enum Status {
    InProgress { used_guesses: u8 },
    Failed,
    Won { used_guesses: u8 },
}

impl Status {
    /// A status that a round can be in: a round in progress has guesses
    /// left, and a won round took between one and `MAX_GUESSES` guesses.
    pub open spec fn wf(self) -> bool {
        match self {
            Status::InProgress { used_guesses } => used_guesses < MAX_GUESSES,
            Status::Failed => true,
            Status::Won { used_guesses } => 1 <= used_guesses <= MAX_GUESSES,
        }
    }

    /// No further guess is accepted in this status.
    pub open spec fn is_terminal(self) -> bool {
        !(self is InProgress)
    }

    /// The name a client sees for this status.
    pub open spec fn name(self) -> Seq<char> {
        match self {
            Status::InProgress { .. } => "in_progress"@,
            Status::Failed => "failed"@,
            Status::Won { .. } => "guessed"@,
        }
    }

    pub fn to_string(&self) -> (r: String)
        ensures
            r@ == self.name(),
    {
        let s = match self {
            Status::InProgress { .. } => "in_progress",
            Status::Failed => "failed",
            Status::Won { .. } => "guessed",
        };
        s.to_owned()
    }
}

/// The status after one more guess in a round at `status`, where `won`
/// says whether the guess was the secret word.
pub open spec fn next_status(status: Status, won: bool) -> Status {
    let used = match status {
        Status::InProgress { used_guesses } => used_guesses + 1,
        _ => 0,
    };
    if won {
        Status::Won { used_guesses: used as u8 }
    } else if used >= MAX_GUESSES {
        Status::Failed
    } else {
        Status::InProgress { used_guesses: used as u8 }
    }
}

impl Status {
    /// Applies one guess to a round in progress; a finished round rejects it.
    pub fn after_guess(&self, won: bool) -> (r: Result<Status, Error>)
        requires
            self.wf(),
        ensures
            self.is_terminal() ==> r == Err::<Status, Error>(Error::TerminalSession),
            !self.is_terminal() ==> r == Ok::<Status, Error>(next_status(*self, won)),
            r matches Ok(s) ==> s.wf(),
    {
        match self {
            Status::InProgress { used_guesses } => {
                let used = *used_guesses + 1;
                if won {
                    Ok(Status::Won { used_guesses: used })
                } else if used >= MAX_GUESSES {
                    Ok(Status::Failed)
                } else {
                    Ok(Status::InProgress { used_guesses: used })
                }
            },
            _ => Err(Error::TerminalSession),
        }
    }
}

/// One round: the identifier of its secret word in the word store, and its
/// progress. The secret word itself is never part of the record.
#[derive(Debug, Clone)]
pub struct Session {
    pub word_id: String,
    pub status: Status,
}

impl PartialEq for Session {
    fn eq(&self, other: &Session) -> (r: bool) {
        self.status == other.status && self.word_id == other.word_id
    }
}

impl vstd::std_specs::cmp::PartialEqSpecImpl for Session {
    open spec fn obeys_eq_spec() -> bool {
        true
    }

    open spec fn eq_spec(&self, other: &Session) -> bool {
        self.word_id@ == other.word_id@ && self.status == other.status
    }
}

/// What a record holds, as mathematical values.
pub struct SessionView {
    pub word_id: Seq<char>,
    pub status: Status,
}

impl View for Session {
    type V = SessionView;

    open spec fn view(&self) -> SessionView {
        SessionView { word_id: self.word_id@, status: self.status }
    }
}

impl Session {
    pub open spec fn wf(self) -> bool {
        self.status.wf()
    }

    /// A fresh round for the word with identifier `word_id`.
    pub fn new(word_id: &str) -> (r: Session)
        ensures
            r.word_id@ == word_id@,
            r.status == (Status::InProgress { used_guesses: 0 }),
            r.wf(),
    {
        Session { word_id: word_id.to_owned(), status: Status::InProgress { used_guesses: 0 } }
    }

    /// Scores `guess` against `secret`, the word that `word_id` names, and
    /// moves the round on. A finished round, or a guess whose length differs
    /// from the secret's, is rejected and leaves the record as it was.
    pub fn apply_guess(&mut self, secret: &str, guess: &str) -> (r: Result<Vec<Verdict>, Error>)
        requires
            old(self).wf(),
        ensures
            final(self).wf(),
            final(self).word_id@ == old(self).word_id@,
            old(self).status.is_terminal() ==> r == Err::<Vec<Verdict>, Error>(
                Error::TerminalSession,
            ) && final(self).status == old(self).status,
            !old(self).status.is_terminal() && secret.spec_bytes().len()
                != guess.spec_bytes().len() ==> r == Err::<Vec<Verdict>, Error>(
                Error::LengthMismatch,
            ) && final(self).status == old(self).status,
            !old(self).status.is_terminal() && secret.spec_bytes().len()
                == guess.spec_bytes().len() ==> {
                &&& r matches Ok(v) && v@ == verdicts(secret.spec_bytes(), guess.spec_bytes())
                &&& final(self).status == next_status(
                    old(self).status,
                    secret.spec_bytes() == guess.spec_bytes(),
                )
            },
    {
        if !matches!(self.status, Status::InProgress { .. }) {
            return Err(Error::TerminalSession);
        }
        let s = secret.as_bytes();
        let g = guess.as_bytes();
        if s.len() != g.len() {
            return Err(Error::LengthMismatch);
        }
        let v = score(s, g);
        let won = all_correct(&v);
        proof {
            lemma_all_correct_iff_equal(s@, g@);
        }
        let next = self.status.after_guess(won);
        if let Ok(st) = next {
            self.status = st;
        }
        Ok(v)
    }
}

/// Whether every verdict is `Correct`: the guess is the secret.
pub fn all_correct(v: &Vec<Verdict>) -> (r: bool)
    ensures
        r == forall|i: int| 0 <= i < v@.len() ==> v@[i] == Verdict::Correct,
{
    let mut i: usize = 0;
    while i < v.len()
        invariant
            i <= v@.len(),
            forall|t: int| 0 <= t < i ==> v@[t] == Verdict::Correct,
        decreases v@.len() - i,
    {
        if v[i] != Verdict::Correct {
            return false;
        }
        i = i + 1;
    }
    true
}

proof fn lemma_all_correct_iff_equal(secret: Seq<u8>, guess: Seq<u8>)
    requires
        secret.len() == guess.len(),
    ensures
        (forall|i: int| 0 <= i < guess.len() ==> verdicts(secret, guess)[i] == Verdict::Correct)
            <==> secret == guess,
{
    if secret == guess {
        assert forall|i: int| 0 <= i < guess.len() implies verdicts(secret, guess)[i]
            == Verdict::Correct by {}
    }
    if forall|i: int| 0 <= i < guess.len() ==> verdicts(secret, guess)[i] == Verdict::Correct {
        assert forall|i: int| 0 <= i < guess.len() implies secret[i] == guess[i] by {
            assert(verdicts(secret, guess)[i] == Verdict::Correct);
        }
        assert(secret =~= guess);
    }
}

} // verus!
