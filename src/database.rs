//! The word store: the answer list a round's secret is drawn from, a fixed
//! sample of it for restricted play, and the list of accepted guesses.
//! Words are identified by their position in the sorted answer list.

use vstd::prelude::*;
use vstd::utf8::encode_utf8;
use vstd::string::StringExecFns;
use rand::SeedableRng;
use rand::seq::SliceRandom;
use crate::text::chars_of;

verus! {

/// How many answers the restricted sample holds.
pub const RESTRICTED_LENGTH: usize = 500;

/// Why a lookup in the word store failed.
#[derive(Debug, Clone, PartialEq, Eq)]
pub enum Error {
    OutOfBounds { index: usize, maximum: usize },
    MissingWord { word: String },
    InvalidID { id: String },
}

/// A word and its identifier.
#[derive(Debug, Clone)]
pub struct Word {
    pub word_id: String,
    pub word: String,
}

/// The text of each string in `v`.
pub open spec fn texts(v: Seq<String>) -> Seq<Seq<char>> {
    v.map_values(|s: String| s@)
}

/// `a` orders before or equal to `b`, comparing bytes from the left.
pub open spec fn bytes_le(a: Seq<u8>, b: Seq<u8>) -> bool {
    ||| a.is_prefix_of(b)
    ||| exists|i: int|
        0 <= i < a.len() && i < b.len() && a.take(i) == b.take(i) && a[i] < b[i]
}

/// `v` is in ascending order of its strings' UTF-8 bytes, which is `str`'s order.
pub open spec fn is_sorted(v: Seq<String>) -> bool {
    forall|i: int, j: int|
        0 <= i < j < v.len() ==> bytes_le(encode_utf8(#[trigger] v[i]@), encode_utf8(#[trigger] v[j]@))
}

/// What `rand`'s `shuffle` makes of `v` with a `StdRng` seeded by `seed`.
pub uninterp spec fn shuffled_of(v: Seq<Seq<char>>, seed: Seq<u8>) -> Seq<Seq<char>>;

/// The decimal digits of `n`.
pub open spec fn decimal(n: nat) -> Seq<char>
    decreases n,
{
    if n < 10 {
        seq![digit_char(n)]
    } else {
        decimal(n / 10) + seq![digit_char(n % 10)]
    }
}

pub open spec fn digit_char(d: nat) -> char {
    ((d + 48) as u32) as char
}

/// The value of a string of decimal digits.
pub open spec fn digits_value(d: Seq<char>) -> nat
    decreases d.len(),
{
    if d.len() == 0 {
        0
    } else {
        10 * digits_value(d.drop_last()) + ((d.last() as u32) - 48) as nat
    }
}

pub open spec fn is_digit(c: char) -> bool {
    '0' <= c <= '9'
}

/// The index an identifier names, as `usize`'s `from_str` reads it: digits
/// after an optional `+`, with a value that fits in `usize`.
pub open spec fn parse_index(id: Seq<char>) -> Option<usize> {
    let d = index_digits(id);
    if d.len() > 0 && (forall|i: int| 0 <= i < d.len() ==> is_digit(#[trigger] d[i]))
        && digits_value(d) <= usize::MAX {
        Some(digits_value(d) as usize)
    } else {
        None
    }
}

/// An identifier without its optional leading `+`.
pub open spec fn index_digits(id: Seq<char>) -> Seq<char> {
    if id.len() > 0 && id[0] == '+' {
        id.skip(1)
    } else {
        id
    }
}

/// The seed of the generator that picks the restricted sample: the bytes of
/// a fixed phrase, padded with zeros.
pub open spec fn sampling_seed() -> Seq<u8> {
    seq![115u8, 97, 109, 112, 108, 101, 32, 109, 101, 32, 98, 97, 98, 121] + Seq::new(
        18,
        |i: int| 0u8,
    )
}

/// The one-character string of decimal digit `d`.
fn digit_str(d: usize) -> (r: &'static str)
    requires
        d < 10,
    ensures
        r@ == seq![digit_char(d as nat)],
{
    match d {
        0 => {
            proof {
                reveal_strlit("0");
            }
            "0"
        },
        1 => {
            proof {
                reveal_strlit("1");
            }
            "1"
        },
        2 => {
            proof {
                reveal_strlit("2");
            }
            "2"
        },
        3 => {
            proof {
                reveal_strlit("3");
            }
            "3"
        },
        4 => {
            proof {
                reveal_strlit("4");
            }
            "4"
        },
        5 => {
            proof {
                reveal_strlit("5");
            }
            "5"
        },
        6 => {
            proof {
                reveal_strlit("6");
            }
            "6"
        },
        7 => {
            proof {
                reveal_strlit("7");
            }
            "7"
        },
        8 => {
            proof {
                reveal_strlit("8");
            }
            "8"
        },
        _ => {
            proof {
                reveal_strlit("9");
            }
            "9"
        },
    }
}

/// The decimal digits of `n`.
fn usize_to_string(n: usize) -> (r: String)
    ensures
        r@ == decimal(n as nat),
    decreases n,
{
    let mut s = if n < 10 {
        String::new()
    } else {
        usize_to_string(n / 10)
    };
    s.append(digit_str(n % 10));
    s
}

/// Relies on `slice::sort` for `String`: the same strings, in `str`'s order.
#[verifier::external_body]
fn sort_strings(v: &mut Vec<String>)
    ensures
        final(v)@.to_multiset() == old(v)@.to_multiset(),
        texts(final(v)@).to_multiset() == texts(old(v)@).to_multiset(),
        is_sorted(final(v)@),
{
    v.sort()
}

/// Relies on `rand`'s `SliceRandom::shuffle` with `StdRng::from_seed(seed)`:
/// a permutation of `v` that depends on `v` and the seed alone.
#[verifier::external_body]
fn shuffle_seeded(v: &mut Vec<String>, seed: [u8; 32])
    ensures
        final(v)@.to_multiset() == old(v)@.to_multiset(),
        texts(final(v)@) == shuffled_of(texts(old(v)@), seed@),
{
    let mut rng = rand::rngs::StdRng::from_seed(seed);
    v.shuffle(&mut rng)
}

/// `i` is the last position of a string with text `w` in `v`.
pub open spec fn is_last_index(v: Seq<String>, w: Seq<char>, i: int) -> bool {
    &&& 0 <= i < v.len()
    &&& v[i]@ == w
    &&& forall|k: int| i < k < v.len() ==> v[k]@ != w
}

/// Some string in `v` has text `w`.
pub open spec fn holds(v: Seq<String>, w: Seq<char>) -> bool {
    exists|i: int| 0 <= i < v.len() && v[i]@ == w
}

/// The last position of `target` in `list`.
fn position(list: &Vec<String>, target: &String) -> (r: Option<usize>)
    ensures
        match r {
            Some(i) => is_last_index(list@, target@, i as int),
            None => !holds(list@, target@),
        },
{
    let mut i: usize = list.len();
    while i > 0
        invariant
            i <= list@.len(),
            forall|k: int| i <= k < list@.len() ==> list@[k]@ != target@,
        decreases i,
    {
        i = i - 1;
        if list[i] == *target {
            return Some(i);
        }
    }
    None
}

proof fn lemma_prefix_value_le(d: Seq<char>, k: int)
    requires
        0 <= k <= d.len(),
    ensures
        digits_value(d.take(k)) <= digits_value(d),
    decreases d.len() - k,
{
    if k < d.len() {
        lemma_prefix_value_le(d, k + 1);
        assert(d.take(k + 1).drop_last() =~= d.take(k));
    } else {
        assert(d.take(k) =~= d);
    }
}

/// Reads an identifier as `usize`'s `from_str` does.
pub fn parse_id(id: &str) -> (r: Option<usize>)
    ensures
        r == parse_index(id@),
{
    let c = chars_of(id);
    let n = c.len();
    let start: usize = if n > 0 && c[0] == '+' {
        1
    } else {
        0
    };
    let ghost d = index_digits(id@);
    assert(d =~= c@.subrange(start as int, n as int));
    if start == n {
        assert(d.len() == 0);
        assert(parse_index(id@) is None);
        return None;
    }
    let mut v: usize = 0;
    let mut i: usize = start;
    while i < n
        invariant
            c@ == id@,
            d == index_digits(id@),
            n == c@.len(),
            start <= i <= n,
            d == c@.subrange(start as int, n as int),
            forall|k: int| 0 <= k < i - start ==> is_digit(#[trigger] d[k]),
            v == digits_value(d.take(i - start)),
        decreases n - i,
    {
        let ch = c[i];
        if !('0' <= ch && ch <= '9') {
            assert(!is_digit(d[i - start]));
            assert(!(forall|k: int| 0 <= k < d.len() ==> is_digit(#[trigger] d[k])));
            return None;
        }
        let dv = (ch as u32 - 48) as usize;
        assert(d.take(i - start + 1).drop_last() =~= d.take(i - start));
        if v > (usize::MAX - dv) / 10 {
            proof {
                assert(v * 10 + dv > usize::MAX) by (nonlinear_arith)
                    requires
                        v > (usize::MAX - dv) / 10,
                        dv <= 9,
                ;
                lemma_prefix_value_le(d, i - start + 1);
            }
            return None;
        }
        v = v * 10 + dv;
        i = i + 1;
    }
    assert(d.take(n - start) =~= d);
    Some(v)
}

/// The word store.
pub struct Database {
    words: Vec<String>,
    restricted_words: Vec<String>,
    guesses: Vec<String>,
}

impl Database {
    /// The answers, in order; a word's identifier is its position here.
    pub closed spec fn answers(&self) -> Seq<String> {
        self.words@
    }

    /// The restricted sample of the answers, in order.
    pub closed spec fn restricted(&self) -> Seq<String> {
        self.restricted_words@
    }

    /// The accepted guesses besides the answers.
    pub closed spec fn allowed(&self) -> Seq<String> {
        self.guesses@
    }

    /// A store over the answer list `answers` and the guess list `allowed`.
    /// The answers are sorted; the restricted sample is the first
    /// `RESTRICTED_LENGTH` of them after a shuffle by a fixed seed, sorted.
    pub fn new(answers: Vec<String>, allowed: Vec<String>) -> (r: Database)
        ensures
            r.answers().to_multiset() == answers@.to_multiset(),
            is_sorted(r.answers()),
            r.restricted().len() == if answers@.len() < RESTRICTED_LENGTH {
                answers@.len()
            } else {
                RESTRICTED_LENGTH as nat
            },
            is_sorted(r.restricted()),
            r.restricted().to_multiset().subset_of(r.answers().to_multiset()),
            texts(r.restricted()).to_multiset() == shuffled_of(
                texts(r.answers()),
                sampling_seed(),
            ).take(r.restricted().len() as int).to_multiset(),
            forall|i: int|
                0 <= i < r.restricted().len() ==> shuffled_of(texts(r.answers()), sampling_seed()).take(
                    r.restricted().len() as int,
                ).contains(#[trigger] r.restricted()[i]@),
            r.allowed() == allowed@,
    {
        let mut words = answers;
        sort_strings(&mut words);
        let mut sample: Vec<String> = Vec::new();
        let mut i: usize = 0;
        while i < words.len()
            invariant
                i <= words@.len(),
                sample@ == words@.take(i as int),
            decreases words@.len() - i,
        {
            sample.push(words[i].clone());
            i = i + 1;
            assert(sample@ =~= words@.take(i as int));
        }
        assert(words@.take(words@.len() as int) =~= words@);
        shuffle_seeded(&mut sample, sampling_seed_bytes());
        let ghost shuffled = sample@;
        proof {
            broadcast use vstd::seq_lib::group_to_multiset_ensures;
            assert(shuffled.len() == words@.len()) by {
                shuffled.to_multiset_ensures();
                words@.to_multiset_ensures();
            }
        }
        sample.truncate(RESTRICTED_LENGTH);
        let ghost picked = sample@;
        assert(picked.len() == if words@.len() < RESTRICTED_LENGTH {
            words@.len()
        } else {
            RESTRICTED_LENGTH as nat
        });
        sort_strings(&mut sample);
        proof {
            broadcast use vstd::seq_lib::group_to_multiset_ensures;
            sample@.to_multiset_ensures();
            picked.to_multiset_ensures();
            words@.to_multiset_ensures();
            answers@.to_multiset_ensures();
            assert(sample@.len() == picked.len());
            let k = picked.len() as int;
            assert(shuffled =~= shuffled.take(k) + shuffled.skip(k));
            assert(picked =~= shuffled.take(k));
            vstd::seq_lib::lemma_multiset_commutative(shuffled.take(k), shuffled.skip(k));
            assert(sample@.to_multiset().subset_of(words@.to_multiset()));
            assert(texts(picked) =~= shuffled_of(texts(words@), sampling_seed()).take(k));
            assert forall|i: int| 0 <= i < sample@.len() implies shuffled_of(
                texts(words@),
                sampling_seed(),
            ).take(sample@.len() as int).contains(#[trigger] sample@[i]@) by {
                assert(sample@.to_multiset().count(sample@[i]) > 0);
                assert(picked.to_multiset().count(sample@[i]) > 0);
                assert(picked.contains(sample@[i]));
                let k = choose|k: int| 0 <= k < picked.len() && picked[k] == sample@[i];
                assert(picked[k] == shuffled[k]);
                assert(texts(shuffled)[k] == shuffled[k]@);
                assert(shuffled_of(texts(words@), sampling_seed()).take(sample@.len() as int)[k]
                    == sample@[i]@);
            }
        }
        let r = Database { words, restricted_words: sample, guesses: allowed };
        assert(r.restricted() == sample@);
        assert(r.answers() == words@);
        r
    }
}

impl Database {
    /// How many answers there are, in the restricted sample or in all.
    pub fn word_length(&self, restricted: bool) -> (r: Result<usize, Error>)
        ensures
            r == Ok::<usize, Error>(
                if restricted {
                    self.restricted().len() as usize
                } else {
                    self.answers().len() as usize
                },
            ),
    {
        if restricted {
            Ok(self.restricted_words.len())
        } else {
            Ok(self.words.len())
        }
    }

    /// The answer at `index`, identified by its index in decimal.
    pub fn word_for_index(&self, index: usize) -> (r: Result<Word, Error>)
        ensures
            index < self.answers().len() ==> (r matches Ok(w) && w.word_id@ == decimal(
                index as nat,
            ) && w.word@ == self.answers()[index as int]@),
            index >= self.answers().len() ==> (r matches Err(
                Error::OutOfBounds { index: i, maximum: m },
            ) && i == index && m == self.answers().len()),
    {
        let len = self.words.len();
        if len <= index {
            return Err(Error::OutOfBounds { index, maximum: len });
        }
        Ok(Word { word_id: usize_to_string(index), word: self.words[index].clone() })
    }

    /// The answer that the identifier `id` names.
    pub fn word_for_id(&self, id: &str) -> (r: Result<Word, Error>)
        ensures
            match parse_index(id@) {
                None => r matches Err(Error::InvalidID { id: s }) && s@ == id@,
                Some(index) => {
                    &&& index < self.answers().len() ==> (r matches Ok(w) && w.word_id@
                        == decimal(index as nat) && w.word@ == self.answers()[index as int]@)
                    &&& index >= self.answers().len() ==> (r matches Err(
                        Error::OutOfBounds { index: i, maximum: m },
                    ) && i == index && m == self.answers().len())
                },
            },
    {
        match parse_id(id) {
            Some(index) => self.word_for_index(index),
            None => Err(Error::InvalidID { id: id.to_owned() }),
        }
    }

    /// The answer `word` with its identifier, if it is an answer.
    pub fn word_exists(&self, word: &str) -> (r: Result<Word, Error>)
        ensures
            holds(self.answers(), word@) ==> (r matches Ok(w) && w.word@ == word@ && exists|i: int|
                is_last_index(self.answers(), word@, i) && w.word_id@ == decimal(i as nat)),
            !holds(self.answers(), word@) ==> (r matches Err(Error::MissingWord { word: s }) && s@
                == word@),
    {
        let target = word.to_owned();
        match position(&self.words, &target) {
            Some(index) => Ok(Word { word_id: usize_to_string(index), word: target }),
            None => Err(Error::MissingWord { word: target }),
        }
    }

    /// Whether `word` is accepted as a guess: an allowed guess or an answer.
    pub fn guess_exists(&self, word: &str) -> (r: Result<bool, Error>)
        ensures
            r == Ok::<bool, Error>(holds(self.allowed(), word@) || holds(self.answers(), word@)),
    {
        let target = word.to_owned();
        let in_guesses = position(&self.guesses, &target).is_some();
        let in_answers = position(&self.words, &target).is_some();
        Ok(in_guesses || in_answers)
    }

    /// The accepted guesses besides the answers.
    pub fn allowed_words(&self) -> (r: Result<Vec<String>, Error>)
        ensures
            r matches Ok(v) && v@ == self.allowed(),
    {
        Ok(copy_strings(&self.guesses))
    }

    /// The answers, in the restricted sample or in all.
    pub fn answer_words(&self, restricted: bool) -> (r: Result<Vec<String>, Error>)
        ensures
            r matches Ok(v) && v@ == if restricted {
                self.restricted()
            } else {
                self.answers()
            },
    {
        if restricted {
            Ok(copy_strings(&self.restricted_words))
        } else {
            Ok(copy_strings(&self.words))
        }
    }
}

fn copy_strings(v: &Vec<String>) -> (r: Vec<String>)
    ensures
        r@ == v@,
{
    let mut out: Vec<String> = Vec::new();
    let mut i: usize = 0;
    while i < v.len()
        invariant
            i <= v@.len(),
            out@ == v@.take(i as int),
        decreases v@.len() - i,
    {
        out.push(v[i].clone());
        i = i + 1;
        assert(out@ =~= v@.take(i as int));
    }
    assert(v@.take(v@.len() as int) =~= v@);
    out
}

/// The pieces of `s` between newlines, as `str::split('\n')` gives them.
pub open spec fn lines_of(s: Seq<char>) -> Seq<Seq<char>>
    decreases s.len(),
{
    if s.len() == 0 {
        seq![Seq::empty()]
    } else {
        let rest = lines_of(s.drop_last());
        if s.last() == '\n' {
            rest.push(Seq::empty())
        } else {
            rest.update(rest.len() - 1, rest.last().push(s.last()))
        }
    }
}

proof fn lemma_lines_nonempty(s: Seq<char>)
    ensures
        lines_of(s).len() >= 1,
    decreases s.len(),
{
    if s.len() > 0 {
        lemma_lines_nonempty(s.drop_last());
    }
}

/// Relies on `String`'s `FromIterator<char>`: the characters in order.
#[verifier::external_body]
fn string_from_chars(c: &[char]) -> (r: String)
    ensures
        r@ == c@,
{
    c.iter().collect()
}

/// The words of a list with one word per line.
pub fn get_words_list(body: &str) -> (r: Vec<String>)
    ensures
        texts(r@) == lines_of(body@),
{
    let c = chars_of(body);
    let mut out: Vec<String> = Vec::new();
    let mut cur: Vec<char> = Vec::new();
    let mut i: usize = 0;
    while i < c.len()
        invariant
            c@ == body@,
            i <= c@.len(),
            texts(out@).push(cur@) == lines_of(c@.take(i as int)),
        decreases c@.len() - i,
    {
        let ghost before = c@.take(i as int);
        let ghost prior = texts(out@).push(cur@);
        proof {
            lemma_lines_nonempty(before);
        }
        assert(c@.take(i + 1).drop_last() =~= before);
        if c[i] == '\n' {
            let line = string_from_chars(cur.as_slice());
            out.push(line);
            cur = Vec::new();
            assert(texts(out@).push(cur@) =~= prior.push(Seq::empty()));
        } else {
            cur.push(c[i]);
            assert(texts(out@).push(cur@) =~= prior.update(prior.len() - 1, prior.last().push(c@[i as int])));
        }
        i = i + 1;
    }
    assert(c@.take(c@.len() as int) =~= c@);
    let last = string_from_chars(cur.as_slice());
    let ghost done = texts(out@).push(cur@);
    out.push(last);
    assert(texts(out@) =~= done);
    out
}

/// The seed for the restricted sample.
fn sampling_seed_bytes() -> (r: [u8; 32])
    ensures
        r@ == sampling_seed(),
{
    let r: [u8; 32] = [
        115, 97, 109, 112, 108, 101, 32, 109, 101, 32, 98, 97, 98, 121, 0, 0, 0, 0, 0, 0, 0, 0,
        0, 0, 0, 0, 0, 0, 0, 0, 0, 0,
    ];
    assert(r@ =~= sampling_seed());
    r
}

} // verus!
