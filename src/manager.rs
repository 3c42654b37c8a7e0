//! The token codec: a record becomes `base64(zlib(record))`, a `.`, and
//! `base64(HMAC-SHA256(key, zlib(record)))`; a token is accepted back only
//! where its tag authenticates its payload under the same key.

use vstd::prelude::*;
use vstd::string::StringSliceAdditionalSpecFns;
use crate::error::Error;
use crate::primitives::{
    base64_decode, base64_encode, base64_of, hmac_sha256_of, hmac_sign, hmac_verify,
    is_base64_char, unzlib_of, zlib_compress, zlib_decompress, zlib_of, MAC_INPUT_LIMIT,
};
use crate::record::{encoded_record, parse_record};
use crate::session::{Session, SessionView};
use crate::text::chars_of;

verus! {

/// The compressed record that a token carries.
pub open spec fn payload_of(v: SessionView) -> Seq<u8> {
    zlib_of(encoded_record(v))
}

/// The compressed record fits the MAC's input limit, so a token can be
/// made for it: every record that fits in memory with room to spare.
pub open spec fn encodable(v: SessionView) -> bool {
    payload_of(v).len() < MAC_INPUT_LIMIT
}

/// A token's text: the payload's encoding, the separator, the tag's encoding.
pub open spec fn token_text(payload: Seq<u8>, tag: Seq<u8>) -> Seq<char> {
    base64_of(payload) + seq!['.'] + base64_of(tag)
}

/// The token for record `v` under `key`.
pub open spec fn token_of(key: Seq<u8>, v: SessionView) -> Seq<char> {
    token_text(payload_of(v), hmac_sha256_of(key, payload_of(v)))
}

/// `i` is the position of the first separator in `t`.
pub open spec fn is_first_dot(t: Seq<char>, i: int) -> bool {
    &&& 0 <= i < t.len()
    &&& t[i] == '.'
    &&& forall|k: int| 0 <= k < i ==> t[k] != '.'
}

/// `s` is the base64 encoding of some bytes.
pub open spec fn is_base64_text(s: Seq<char>) -> bool {
    &&& forall|i: int| 0 <= i < s.len() ==> is_base64_char(#[trigger] s[i])
    &&& exists|x: Seq<u8>| #[trigger] base64_of(x) == s
}

/// The bytes whose encoding is `s`.
pub open spec fn base64_bytes(s: Seq<char>) -> Seq<u8> {
    choose|x: Seq<u8>| #[trigger] base64_of(x) == s
}

/// The record an authenticated payload holds.
pub open spec fn read_payload(p: Seq<u8>) -> Result<SessionView, Error> {
    match unzlib_of(p) {
        None => Err(Error::MalformedPayload),
        Some(j) => match parse_record(j) {
            None => Err(Error::MalformedPayload),
            Some(v) => Ok(v),
        },
    }
}

/// What decoding token `t` under `key` gives: the token is split at its
/// first separator, both segments are decoded, the tag is checked against
/// the payload, and only then is the payload decompressed and read.
pub open spec fn decode_token(key: Seq<u8>, t: Seq<char>) -> Result<SessionView, Error> {
    if !exists|i: int| is_first_dot(t, i) {
        Err(Error::InvalidFormat)
    } else {
        let i = choose|i: int| is_first_dot(t, i);
        let a = t.subrange(0, i);
        let c = t.subrange(i + 1, t.len() as int);
        if !is_base64_text(a) || !is_base64_text(c) {
            Err(Error::InvalidFormat)
        } else {
            let p = base64_bytes(a);
            if p.len() >= MAC_INPUT_LIMIT || base64_bytes(c) != hmac_sha256_of(key, p) {
                Err(Error::TamperedOrExpiredToken)
            } else {
                read_payload(p)
            }
        }
    }
}

/// Decoding was refused for the token's shape or for its tag.
pub open spec fn rejected(r: Result<SessionView, Error>) -> bool {
    r matches Err(e) && (e == Error::InvalidFormat || e == Error::TamperedOrExpiredToken)
}

/// Every change of one character in the tag segment of `t`, which starts
/// after position `sep`, is refused.
pub open spec fn refuses_altered_tag(key: Seq<u8>, t: Seq<char>, sep: int) -> bool {
    forall|i: int, c: char|
        sep < i < t.len() && c != t[i] ==> rejected(#[trigger] decode_token(key, t.update(i, c)))
}

/// Every change of one character in the payload segment of `t`, which ends
/// at position `sep`, is refused, unless the altered payload's MAC equals
/// the MAC of the unaltered payload `p`.
pub open spec fn refuses_altered_payload(key: Seq<u8>, t: Seq<char>, sep: int, p: Seq<u8>) -> bool {
    forall|i: int, c: char|
        0 <= i < sep && c != t[i] ==> rejected(#[trigger] decode_token(key, t.update(i, c)))
            || hmac_sha256_of(key, base64_bytes(t.update(i, c).subrange(0, sep)))
            == hmac_sha256_of(key, p)
}

/// Under any other key whose MAC of the payload `p` differs, `t` is refused
/// as tampered.
pub open spec fn refused_under_other_keys(key: Seq<u8>, t: Seq<char>, p: Seq<u8>) -> bool {
    forall|k: Seq<u8>|
        k != key && hmac_sha256_of(k, p) != hmac_sha256_of(key, p) ==> #[trigger] decode_token(
            k,
            t,
        ) == Err::<SessionView, Error>(Error::TamperedOrExpiredToken)
}

/// Encodes and checks tokens under one secret key, fixed for the life of the value.
pub struct SessionManager {
    key: Vec<u8>,
}

impl SessionManager {
    /// The secret key.
    pub closed spec fn key(&self) -> Seq<u8> {
        self.key@
    }

    #[verifier::type_invariant]
    spec fn key_fits(&self) -> bool {
        0 < self.key@.len() < MAC_INPUT_LIMIT
    }
}

impl SessionManager {
    /// A codec keyed by the bytes of `token`, which must be non-empty and
    /// short enough for the MAC.
    pub fn new(token: &str) -> (r: Result<SessionManager, Error>)
        ensures
            match r {
                Ok(m) => m.key() == token.spec_bytes(),
                Err(e) => e == Error::InvalidKey,
            },
            r is Ok <==> 0 < token.spec_bytes().len() < MAC_INPUT_LIMIT,
    {
        let b = token.as_bytes();
        if b.len() == 0 || b.len() as u64 >= MAC_INPUT_LIMIT {
            return Err(Error::InvalidKey);
        }
        Ok(SessionManager { key: vstd::slice::slice_to_vec(b) })
    }

    /// The record that `token` carries, where its tag authenticates its
    /// payload under this codec's key.
    pub fn deserialize(&self, token: &str) -> (r: Result<Session, Error>)
        ensures
            match decode_token(self.key(), token@) {
                Ok(v) => r matches Ok(s) && s@ == v && s.wf(),
                Err(e) => r == Err::<Session, Error>(e),
            },
    {
        proof {
            use_type_invariant(self);
        }
        let t = chars_of(token);
        let ghost tv = t@;
        let n = t.len();
        let mut i: usize = 0;
        while i < n && t[i] != '.'
            invariant
                n == tv.len(),
                t@ == tv,
                i <= n,
                forall|k: int| 0 <= k < i ==> tv[k] != '.',
            decreases n - i,
        {
            i = i + 1;
        }
        if i == n {
            assert(!exists|j: int| is_first_dot(tv, j)) by {
                if exists|j: int| is_first_dot(tv, j) {
                    let j = choose|j: int| is_first_dot(tv, j);
                    assert(tv[j] != '.');
                }
            }
            return Err(Error::InvalidFormat);
        }
        assert(is_first_dot(tv, i as int));
        proof {
            lemma_first_dot_unique(tv, i as int);
        }
        let (a, rest) = t.as_slice().split_at(i);
        let (_, c) = rest.split_at(1);
        assert(a@ =~= tv.subrange(0, i as int));
        assert(c@ =~= tv.subrange(i + 1, n as int));
        let p = match base64_decode(a) {
            Some(p) => p,
            None => {
                return Err(Error::InvalidFormat);
            },
        };
        let tag = match base64_decode(c) {
            Some(tag) => tag,
            None => {
                return Err(Error::InvalidFormat);
            },
        };
        assert(p@ == base64_bytes(a@));
        assert(tag@ == base64_bytes(c@));
        if p.len() as u64 >= MAC_INPUT_LIMIT {
            return Err(Error::TamperedOrExpiredToken);
        }
        if !hmac_verify(self.key.as_slice(), p.as_slice(), tag.as_slice()) {
            return Err(Error::TamperedOrExpiredToken);
        }
        let j = match zlib_decompress(p.as_slice()) {
            Some(j) => j,
            None => {
                return Err(Error::MalformedPayload);
            },
        };
        Session::deserialize(j.as_slice())
    }
}

proof fn lemma_first_dot_unique(t: Seq<char>, i: int)
    requires
        is_first_dot(t, i),
    ensures
        (choose|j: int| is_first_dot(t, j)) == i,
{
    let j = choose|j: int| is_first_dot(t, j);
    assert(is_first_dot(t, j));
    if j < i {
        assert(t[j] != '.');
    } else if i < j {
        assert(t[i] != '.');
    }
}

impl SessionManager {
    /// The token for `payload`: its encoding, the separator, and the
    /// encoding of its tag under this codec's key. Changing one character
    /// of either segment, or decoding under another key, is refused.
    pub fn seal(&self, payload: &[u8]) -> (r: String)
        requires
            payload@.len() < MAC_INPUT_LIMIT,
        ensures
            r@ == token_text(payload@, hmac_sha256_of(self.key(), payload@)),
            hmac_sha256_of(self.key(), payload@).len() == 32,
            decode_token(self.key(), r@) == read_payload(payload@),
            refuses_altered_tag(self.key(), r@, base64_of(payload@).len() as int),
            refuses_altered_payload(
                self.key(),
                r@,
                base64_of(payload@).len() as int,
                payload@,
            ),
            refused_under_other_keys(self.key(), r@, payload@),
    {
        proof {
            use_type_invariant(self);
        }
        let tag = hmac_sign(self.key.as_slice(), payload);
        let mut text = base64_encode(payload);
        let tag_text = base64_encode(tag.as_slice());
        proof {
            reveal_strlit(".");
        }
        text.append(".");
        text.append(tag_text.as_str());
        let ghost key = self.key();
        let ghost p = payload@;
        let ghost h = tag@;
        let ghost a = base64_of(p);
        let ghost c = base64_of(h);
        let ghost t = text@;
        proof {
            assert(t =~= a + seq!['.'] + c);
            lemma_genuine(key, p, h, a, c);
            assert forall|i: int, ch: char| a.len() < i < t.len() && ch != t[i] implies rejected(
                #[trigger] decode_token(key, t.update(i, ch)),
            ) by {
                lemma_tag_altered(key, p, h, a, c, i, ch);
            }
            assert forall|i: int, ch: char| 0 <= i < a.len() && ch != t[i] implies rejected(
                #[trigger] decode_token(key, t.update(i, ch)),
            ) || hmac_sha256_of(key, base64_bytes(t.update(i, ch).subrange(0, a.len() as int)))
                == hmac_sha256_of(key, p) by {
                lemma_payload_altered(key, p, h, a, c, i, ch);
            }
            assert forall|k: Seq<u8>|
                k != key && hmac_sha256_of(k, p) != hmac_sha256_of(key, p) implies #[trigger] decode_token(
                k,
                t,
            ) == Err::<SessionView, Error>(Error::TamperedOrExpiredToken) by {
                lemma_genuine(k, p, h, a, c);
            }
        }
        text
    }
}

impl SessionManager {
    /// The token for `session`, made whenever the compressed record fits
    /// the MAC's input limit. Decoding it under the same key gives the
    /// record back; changing one character of it, or decoding it under
    /// another key, is refused (see `seal`).
    pub fn serialize(&self, session: &Session) -> (r: Result<String, Error>)
        requires
            session.wf(),
        ensures
            if encodable(session@) {
                match r {
                    Ok(t) => {
                        let p = payload_of(session@);
                        let sep = base64_of(p).len() as int;
                        &&& t@ == token_of(self.key(), session@)
                        &&& hmac_sha256_of(self.key(), p).len() == 32
                        &&& decode_token(self.key(), t@) == Ok::<SessionView, Error>(session@)
                        &&& refuses_altered_tag(self.key(), t@, sep)
                        &&& refuses_altered_payload(self.key(), t@, sep, p)
                        &&& refused_under_other_keys(self.key(), t@, p)
                    },
                    Err(_) => false,
                }
            } else {
                r == Err::<String, Error>(Error::InternalCompressionFailure)
            },
    {
        let record = match session.serialize() {
            Ok(record) => record,
            Err(e) => {
                return Err(e);
            },
        };
        let payload = match zlib_compress(record.as_slice()) {
            Some(payload) => payload,
            None => {
                return Err(Error::InternalCompressionFailure);
            },
        };
        if payload.len() as u64 >= MAC_INPUT_LIMIT {
            return Err(Error::InternalCompressionFailure);
        }
        Ok(self.seal(payload.as_slice()))
    }
}

/// What the token's construction knows of its two encoded segments.
pub open spec fn segments_known(p: Seq<u8>, h: Seq<u8>, a: Seq<char>, c: Seq<char>) -> bool {
    &&& base64_of(p) == a
    &&& base64_of(h) == c
    &&& forall|x: Seq<u8>| #[trigger] base64_of(x) == a ==> x == p
    &&& forall|x: Seq<u8>| #[trigger] base64_of(x) == c ==> x == h
    &&& forall|i: int| 0 <= i < a.len() ==> is_base64_char(#[trigger] a[i])
    &&& forall|i: int| 0 <= i < c.len() ==> is_base64_char(#[trigger] c[i])
    &&& p.len() < MAC_INPUT_LIMIT
}

proof fn lemma_split_at_separator(a: Seq<char>, c: Seq<char>)
    requires
        forall|i: int| 0 <= i < a.len() ==> is_base64_char(#[trigger] a[i]),
    ensures
        is_first_dot(a + seq!['.'] + c, a.len() as int),
        (choose|j: int| is_first_dot(a + seq!['.'] + c, j)) == a.len(),
        (a + seq!['.'] + c).subrange(0, a.len() as int) == a,
        (a + seq!['.'] + c).subrange(a.len() + 1int, (a + seq!['.'] + c).len() as int) == c,
{
    let t = a + seq!['.'] + c;
    assert forall|k: int| 0 <= k < a.len() implies t[k] != '.' by {
        assert(is_base64_char(a[k]));
    }
    lemma_first_dot_unique(t, a.len() as int);
    assert(t.subrange(0, a.len() as int) =~= a);
    assert(t.subrange(a.len() + 1int, t.len() as int) =~= c);
}

/// Decoding the genuine token under `key` reaches the payload exactly when
/// `h` is the payload's MAC under `key`.
proof fn lemma_genuine(key: Seq<u8>, p: Seq<u8>, h: Seq<u8>, a: Seq<char>, c: Seq<char>)
    requires
        segments_known(p, h, a, c),
    ensures
        decode_token(key, a + seq!['.'] + c) == if h == hmac_sha256_of(key, p) {
            read_payload(p)
        } else {
            Err(Error::TamperedOrExpiredToken)
        },
{
    lemma_split_at_separator(a, c);
    assert(base64_of(p) == a);
    assert(base64_of(h) == c);
    assert(is_base64_text(a));
    assert(is_base64_text(c));
    assert(base64_bytes(a) == p);
    assert(base64_bytes(c) == h);
}

proof fn lemma_tag_altered(
    key: Seq<u8>,
    p: Seq<u8>,
    h: Seq<u8>,
    a: Seq<char>,
    c: Seq<char>,
    i: int,
    ch: char,
)
    requires
        segments_known(p, h, a, c),
        h == hmac_sha256_of(key, p),
        a.len() < i < (a + seq!['.'] + c).len(),
        ch != (a + seq!['.'] + c)[i],
    ensures
        rejected(decode_token(key, (a + seq!['.'] + c).update(i, ch))),
{
    let t = a + seq!['.'] + c;
    let j = i - a.len() - 1;
    let c2 = c.update(j, ch);
    assert(t.update(i, ch) =~= a + seq!['.'] + c2);
    let t2 = a + seq!['.'] + c2;
    assert forall|k: int| 0 <= k < a.len() implies t2[k] != '.' by {
        assert(is_base64_char(a[k]));
    }
    assert(is_first_dot(t2, a.len() as int));
    lemma_first_dot_unique(t2, a.len() as int);
    assert(t2.subrange(0, a.len() as int) =~= a);
    assert(t2.subrange(a.len() + 1int, t2.len() as int) =~= c2);
    assert(base64_of(p) == a);
    assert(base64_bytes(a) == p);
    if is_base64_text(c2) {
        let h2 = base64_bytes(c2);
        assert(base64_of(h2) == c2);
        assert(c2[j] != c[j]);
        assert(h2 != h);
    }
}

proof fn lemma_payload_altered(
    key: Seq<u8>,
    p: Seq<u8>,
    h: Seq<u8>,
    a: Seq<char>,
    c: Seq<char>,
    i: int,
    ch: char,
)
    requires
        segments_known(p, h, a, c),
        h == hmac_sha256_of(key, p),
        0 <= i < a.len(),
        ch != (a + seq!['.'] + c)[i],
    ensures
        rejected(decode_token(key, (a + seq!['.'] + c).update(i, ch))) || hmac_sha256_of(
            key,
            base64_bytes((a + seq!['.'] + c).update(i, ch).subrange(0, a.len() as int)),
        ) == hmac_sha256_of(key, p),
{
    let t = a + seq!['.'] + c;
    let a2 = a.update(i, ch);
    assert(t.update(i, ch) =~= a2 + seq!['.'] + c);
    let t2 = a2 + seq!['.'] + c;
    assert(t2.subrange(0, a.len() as int) =~= a2);
    if ch == '.' {
        assert forall|k: int| 0 <= k < i implies t2[k] != '.' by {
            assert(is_base64_char(a[k]));
        }
        assert(is_first_dot(t2, i));
        lemma_first_dot_unique(t2, i);
        let rest = t2.subrange(i + 1, t2.len() as int);
        assert(rest[a.len() - i - 1] == '.');
        assert(!is_base64_char(rest[a.len() - i - 1]));
        assert(!is_base64_text(rest));
    } else {
        assert forall|k: int| 0 <= k < a.len() implies t2[k] != '.' by {
            if k != i {
                assert(is_base64_char(a[k]));
            }
        }
        assert(is_first_dot(t2, a.len() as int));
        lemma_first_dot_unique(t2, a.len() as int);
        assert(t2.subrange(a.len() + 1int, t2.len() as int) =~= c);
        assert(base64_of(h) == c);
        assert(base64_bytes(c) == h);
    }
}

} // verus!
