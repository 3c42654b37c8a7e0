use vstd::prelude::*;

verus! {

/// Feedback for one letter of a guess.
#[derive(Debug, Clone, Copy, PartialEq, Eq, Structural)]
pub enum Verdict {
    Correct,
    PresentElsewhere,
    Absent,
}

impl Verdict {
    /// The name a client sees for this verdict.
    pub open spec fn name(self) -> Seq<char> {
        match self {
            Verdict::Correct => "valid"@,
            Verdict::PresentElsewhere => "wrong_place"@,
            Verdict::Absent => "wrong"@,
        }
    }

    pub fn to_string(&self) -> (r: String)
        ensures
            r@ == self.name(),
    {
        let s = match self {
            Verdict::Correct => "valid",
            Verdict::PresentElsewhere => "wrong_place",
            Verdict::Absent => "wrong",
        };
        s.to_owned()
    }
}

/// How many of the first `k` letters of `s` are `c`.
pub open spec fn occurrences(s: Seq<u8>, c: u8, k: int) -> nat
    decreases k,
{
    if k <= 0 {
        0
    } else {
        occurrences(s, c, k - 1) + if s[k - 1] == c { 1nat } else { 0nat }
    }
}

/// How many of the first `k` positions hold `c` in both `secret` and `guess`.
pub open spec fn exact_matches(secret: Seq<u8>, guess: Seq<u8>, c: u8, k: int) -> nat
    decreases k,
{
    if k <= 0 {
        0
    } else {
        exact_matches(secret, guess, c, k - 1) + if secret[k - 1] == c && guess[k - 1] == c {
            1nat
        } else {
            0nat
        }
    }
}

/// How many of the first `k` positions guess `c` without matching the secret there.
pub open spec fn misplaced_guesses(secret: Seq<u8>, guess: Seq<u8>, c: u8, k: int) -> nat
    decreases k,
{
    if k <= 0 {
        0
    } else {
        misplaced_guesses(secret, guess, c, k - 1) + if guess[k - 1] == c && secret[k - 1]
            != c {
            1nat
        } else {
            0nat
        }
    }
}

/// The copies of `c` in the secret that no exact match uses.
pub open spec fn unmatched(secret: Seq<u8>, guess: Seq<u8>, c: u8) -> int {
    occurrences(secret, c, secret.len() as int) - exact_matches(
        secret,
        guess,
        c,
        secret.len() as int,
    )
}

/// The verdict at position `i`: exact matches are `Correct`; any other
/// guessed letter takes one of the secret's unmatched copies of that letter,
/// left to right, while copies remain.
pub open spec fn verdict_at(secret: Seq<u8>, guess: Seq<u8>, i: int) -> Verdict {
    if guess[i] == secret[i] {
        Verdict::Correct
    } else if misplaced_guesses(secret, guess, guess[i], i) < unmatched(secret, guess, guess[i]) {
        Verdict::PresentElsewhere
    } else {
        Verdict::Absent
    }
}

/// The verdicts for a guess against a secret of the same length.
pub open spec fn verdicts(secret: Seq<u8>, guess: Seq<u8>) -> Seq<Verdict> {
    Seq::new(guess.len(), |i: int| verdict_at(secret, guess, i))
}

proof fn lemma_exact_le_occurrences(secret: Seq<u8>, guess: Seq<u8>, c: u8, k: int)
    requires
        0 <= k <= secret.len(),
        secret.len() == guess.len(),
    ensures
        exact_matches(secret, guess, c, k) <= occurrences(secret, c, k),
    decreases k,
{
    if k > 0 {
        lemma_exact_le_occurrences(secret, guess, c, k - 1);
    }
}

/// Scores `guess` against `secret` in two passes. The first pass takes the
/// exact matches out of a count of the secret's letters; the second hands
/// the remaining counts to the other guessed letters from left to right.
pub fn score(secret: &[u8], guess: &[u8]) -> (r: Vec<Verdict>)
    requires
        secret@.len() == guess@.len(),
    ensures
        r@ == verdicts(secret@, guess@),
{
    let n = secret.len();
    let ghost s = secret@;
    let ghost g = guess@;
    let mut remaining: Vec<usize> = Vec::new();
    let mut b: usize = 0;
    while b < 256
        invariant
            b <= 256,
            remaining@.len() == b,
            forall|c: int| 0 <= c < b ==> remaining@[c] == 0,
        decreases 256 - b,
    {
        remaining.push(0);
        b = b + 1;
    }
    let mut j: usize = 0;
    while j < n
        invariant
            n == s.len(),
            s == secret@,
            j <= n,
            remaining@.len() == 256,
            forall|c: u8| #[trigger] remaining@[c as int] == occurrences(s, c, j as int),
        decreases n - j,
    {
        let c = secret[j];
        assert(occurrences(s, c, j as int) <= j) by {
            lemma_occurrences_le(s, c, j as int);
        }
        let old_count = remaining[c as usize];
        let ghost before = remaining@;
        remaining.set(c as usize, old_count + 1);
        assert forall|d: u8| #[trigger] remaining@[d as int] == occurrences(s, d, j + 1) by {
            assert(before[d as int] == occurrences(s, d, j as int));
        }
        j = j + 1;
    }
    let mut k: usize = 0;
    while k < n
        invariant
            n == s.len(),
            n == g.len(),
            s == secret@,
            g == guess@,
            k <= n,
            remaining@.len() == 256,
            forall|c: u8| #[trigger]
                remaining@[c as int] == occurrences(s, c, n as int) - exact_matches(
                    s,
                    g,
                    c,
                    k as int,
                ),
        decreases n - k,
    {
        if guess[k] == secret[k] {
            let c = secret[k];
            proof {
                lemma_exact_le_occurrences(s, g, c, k + 1);
                lemma_occurrences_split(s, c, k + 1, n as int);
            }
            let old_count = remaining[c as usize];
            remaining.set(c as usize, old_count - 1);
        }
        k = k + 1;
    }
    let mut r: Vec<Verdict> = Vec::new();
    let mut i: usize = 0;
    while i < n
        invariant
            n == s.len(),
            n == g.len(),
            s == secret@,
            g == guess@,
            i <= n,
            r@.len() == i,
            forall|t: int| 0 <= t < i ==> r@[t] == verdict_at(s, g, t),
            remaining@.len() == 256,
            forall|c: u8| #[trigger]
                remaining@[c as int] == if misplaced_guesses(s, g, c, i as int) <= unmatched(
                    s,
                    g,
                    c,
                ) {
                    unmatched(s, g, c) - misplaced_guesses(s, g, c, i as int)
                } else {
                    0
                },
        decreases n - i,
    {
        let c = guess[i];
        if c == secret[i] {
            r.push(Verdict::Correct);
        } else {
            let left = remaining[c as usize];
            if left > 0 {
                remaining.set(c as usize, left - 1);
                r.push(Verdict::PresentElsewhere);
            } else {
                r.push(Verdict::Absent);
            }
        }
        i = i + 1;
    }
    r
}

proof fn lemma_occurrences_le(s: Seq<u8>, c: u8, k: int)
    requires
        0 <= k,
    ensures
        occurrences(s, c, k) <= k,
    decreases k,
{
    if k > 0 {
        lemma_occurrences_le(s, c, k - 1);
    }
}

proof fn lemma_occurrences_split(s: Seq<u8>, c: u8, k: int, n: int)
    requires
        0 <= k <= n,
    ensures
        occurrences(s, c, k) <= occurrences(s, c, n),
    decreases n - k,
{
    if k < n {
        lemma_occurrences_split(s, c, k, n - 1);
    }
}

} // verus!
