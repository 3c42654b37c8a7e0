//! The byte format of a session record: a JSON object with a `word_id`
//! field holding a string and a `status` field holding the status as an
//! externally tagged variant. Records are written compactly with `word_id`
//! first; either field order, and whitespace between tokens, read back.

use vstd::prelude::*;
use crate::error::Error;
use crate::primitives::{
    is_json_value, json_string, json_string_of, json_string_parse, json_string_parsed,
    json_value_check, utf8_check,
};
use vstd::utf8::{
    is_leading_byte_width_1, partial_valid_utf8, partial_valid_utf8_extend_ascii_block,
    valid_utf8, valid_utf8_concat,
};
use crate::session::{Session, SessionView, Status};

verus! {

/// The bytes of `"word_id"`.
pub open spec fn word_key() -> Seq<u8> {
    seq![34u8, 119, 111, 114, 100, 95, 105, 100, 34]
}

/// The bytes of `"status"`.
pub open spec fn status_key() -> Seq<u8> {
    seq![34u8, 115, 116, 97, 116, 117, 115, 34]
}

/// The bytes of `"Failed"`.
pub open spec fn failed_text() -> Seq<u8> {
    seq![34u8, 70, 97, 105, 108, 101, 100, 34]
}

/// The bytes of `"InProgress"`.
pub open spec fn in_progress_key() -> Seq<u8> {
    seq![34u8, 73, 110, 80, 114, 111, 103, 114, 101, 115, 115, 34]
}

/// The bytes of `"Won"`.
pub open spec fn won_key() -> Seq<u8> {
    seq![34u8, 87, 111, 110, 34]
}

/// The bytes of `"used_guesses"`.
pub open spec fn used_key() -> Seq<u8> {
    seq![34u8, 117, 115, 101, 100, 95, 103, 117, 101, 115, 115, 101, 115, 34]
}

/// JSON whitespace: space, tab, line feed, carriage return.
pub open spec fn is_ws(c: u8) -> bool {
    c == 32 || c == 9 || c == 10 || c == 13
}

/// The first position at or after `p` that holds no whitespace.
pub open spec fn skip_ws(b: Seq<u8>, p: int) -> int
    decreases b.len() - p,
{
    if 0 <= p < b.len() && is_ws(b[p]) {
        skip_ws(b, p + 1)
    } else {
        p
    }
}

/// The position just after the JSON string token whose content starts at
/// `p`: a backslash escapes the byte after it, and the first other quote
/// closes the token.
pub open spec fn string_end(b: Seq<u8>, p: int) -> Option<int>
    decreases b.len() - p,
{
    if p < 0 || p >= b.len() {
        None
    } else if b[p] == 34 {
        Some(p + 1)
    } else if b[p] == 92 {
        if p + 1 >= b.len() {
            None
        } else {
            string_end(b, p + 2)
        }
    } else {
        string_end(b, p + 1)
    }
}

pub open spec fn has_prefix_at(b: Seq<u8>, pos: int, lit: Seq<u8>) -> bool {
    0 <= pos && pos + lit.len() <= b.len() && b.subrange(pos, pos + lit.len()) == lit
}

/// The position after `lit`, where `lit` stands at `p`.
pub open spec fn lit_end(b: Seq<u8>, p: int, lit: Seq<u8>) -> Option<int> {
    if has_prefix_at(b, p, lit) {
        Some(p + lit.len())
    } else {
        None
    }
}

/// The position after the byte `c` and the whitespace around it, where `c`
/// is the first byte at or after `p` that is not whitespace.
pub open spec fn punct_end(b: Seq<u8>, p: int, c: u8) -> Option<int> {
    let q = skip_ws(b, p);
    if 0 <= q < b.len() && b[q] == c {
        Some(skip_ws(b, q + 1))
    } else {
        None
    }
}

pub open spec fn is_digit_byte(c: u8) -> bool {
    48 <= c <= 57
}

/// A guess count at `p`: a JSON integer from 0 to 255, and the position after it.
pub open spec fn count_end(b: Seq<u8>, p: int) -> Option<(u8, int)> {
    if !(0 <= p < b.len() && is_digit_byte(b[p])) {
        None
    } else if b[p] == 48 || !(p + 1 < b.len() && is_digit_byte(b[p + 1])) {
        Some(((b[p] - 48) as u8, p + 1))
    } else if !(p + 2 < b.len() && is_digit_byte(b[p + 2])) {
        Some(((10 * (b[p] - 48) + (b[p + 1] - 48)) as u8, p + 2))
    } else if 100 * (b[p] - 48) + 10 * (b[p + 1] - 48) + (b[p + 2] - 48) <= 255 {
        Some(((100 * (b[p] - 48) + 10 * (b[p + 1] - 48) + (b[p + 2] - 48)) as u8, p + 3))
    } else {
        None
    }
}

/// Which counted variant is named at `p` (`true` for `Won`), and the position after it.
pub open spec fn variant_key(b: Seq<u8>, p: int) -> Option<(bool, int)> {
    match lit_end(b, p, in_progress_key()) {
        Some(q) => Some((false, q)),
        None => match lit_end(b, p, won_key()) {
            Some(q) => Some((true, q)),
            None => None,
        },
    }
}

/// `{"InProgress":{"used_guesses":N}}` or `{"Won":{"used_guesses":N}}` at `p`.
pub open spec fn counted_status(b: Seq<u8>, p: int) -> Option<(Status, int)> {
    match punct_end(b, p, 123) {
        None => None,
        Some(q1) => match variant_key(b, q1) {
            None => None,
            Some((won, q2)) => match punct_end(b, q2, 58) {
                None => None,
                Some(q3) => match punct_end(b, q3, 123) {
                    None => None,
                    Some(q4) => match lit_end(b, q4, used_key()) {
                        None => None,
                        Some(q5) => match punct_end(b, q5, 58) {
                            None => None,
                            Some(q6) => match count_end(b, q6) {
                                None => None,
                                Some((n, q7)) => match punct_end(b, q7, 125) {
                                    None => None,
                                    Some(q8) => match punct_end(b, q8, 125) {
                                        None => None,
                                        Some(q9) => Some(
                                            (
                                                if won {
                                                    Status::Won { used_guesses: n }
                                                } else {
                                                    Status::InProgress { used_guesses: n }
                                                },
                                                q9,
                                            ),
                                        ),
                                    },
                                },
                            },
                        },
                    },
                },
            },
        },
    }
}

/// A status value at `p`, and the position after it and its whitespace.
pub open spec fn status_value(b: Seq<u8>, p: int) -> Option<(Status, int)> {
    match lit_end(b, p, failed_text()) {
        Some(q) => Some((Status::Failed, skip_ws(b, q))),
        None => counted_status(b, p),
    }
}

/// The `status` member at `p`: its status, and the position after it.
pub open spec fn status_field(b: Seq<u8>, p: int) -> Option<(Status, int)> {
    match lit_end(b, p, status_key()) {
        None => None,
        Some(q) => match punct_end(b, q, 58) {
            None => None,
            Some(q2) => status_value(b, q2),
        },
    }
}

/// The `word_id` member at `p`: where its string token starts and ends,
/// and the position after it and its whitespace.
pub open spec fn word_field(b: Seq<u8>, p: int) -> Option<(int, int, int)> {
    match lit_end(b, p, word_key()) {
        None => None,
        Some(q) => match punct_end(b, q, 58) {
            None => None,
            Some(q2) => if 0 <= q2 < b.len() && b[q2] == 34 {
                match string_end(b, q2 + 1) {
                    Some(e) => Some((q2, e, skip_ws(b, e))),
                    None => None,
                }
            } else {
                None
            },
        },
    }
}

/// Whether `c` ends a scalar value: a separator, a closing bracket, or whitespace.
pub open spec fn ends_scalar(c: u8) -> bool {
    c == 44 || c == 125 || c == 93 || is_ws(c)
}

/// The end of a run of scalar bytes from `p` on.
pub open spec fn scalar_end(b: Seq<u8>, p: int) -> int
    decreases b.len() - p,
{
    if 0 <= p < b.len() && !ends_scalar(b[p]) {
        scalar_end(b, p + 1)
    } else {
        p
    }
}

/// The position after the brackets opened before `p` close, `depth` of
/// them still open; strings inside are skipped whole.
pub open spec fn nested_end(b: Seq<u8>, p: int, depth: nat) -> Option<int>
    decreases b.len() - p,
{
    if p < 0 || p >= b.len() || depth == 0 {
        None
    } else if b[p] == 34 {
        match string_end(b, p + 1) {
            Some(e) => if p < e <= b.len() {
                nested_end(b, e, depth)
            } else {
                None
            },
            None => None,
        }
    } else if b[p] == 123 || b[p] == 91 {
        nested_end(b, p + 1, depth + 1)
    } else if b[p] == 125 || b[p] == 93 {
        if depth == 1 {
            Some(p + 1)
        } else {
            nested_end(b, p + 1, (depth - 1) as nat)
        }
    } else {
        nested_end(b, p + 1, depth)
    }
}

/// The end of a value at `p` that the record does not read: a string, a
/// bracketed nest, or a run of scalar bytes.
pub open spec fn value_end(b: Seq<u8>, p: int) -> Option<int> {
    if !(0 <= p < b.len()) {
        None
    } else if b[p] == 34 {
        string_end(b, p + 1)
    } else if b[p] == 123 || b[p] == 91 {
        nested_end(b, p + 1, 1)
    } else if scalar_end(b, p) > p {
        Some(scalar_end(b, p))
    } else {
        None
    }
}

/// A member at `p` with another name than the two the record reads: the
/// position after its value and the whitespace after that. Its name must
/// read as a JSON string other than `word_id` and `status`, even through
/// escapes, and its value as one JSON value.
pub open spec fn other_field(b: Seq<u8>, p: int) -> Option<int> {
    if !(0 <= p < b.len() && b[p] == 34) {
        None
    } else {
        match string_end(b, p + 1) {
            None => None,
            Some(k) => {
                let name = json_string_parsed(b.subrange(p, k));
                if lit_end(b, p, word_key()) == Some(k) || lit_end(b, p, status_key()) == Some(k)
                    || name is None || name == Some("word_id"@) || name == Some("status"@) {
                    None
                } else {
                    match punct_end(b, k, 58) {
                        None => None,
                        Some(q) => match value_end(b, q) {
                            Some(e) => if q <= e && is_json_value(b.subrange(q, e)) {
                                Some(skip_ws(b, e))
                            } else {
                                None
                            },
                            None => None,
                        },
                    }
                }
            },
        }
    }
}

/// The record fields read so far: where the `word_id` token stands, and the status.
pub struct Fields {
    pub word: Option<(int, int)>,
    pub status: Option<Status>,
}

/// The members from `p` on, after those read into `f`, up to the closing
/// brace and the whitespace that ends `b`: each of the two fields exactly
/// once, in any order, among any other members.
pub open spec fn members(b: Seq<u8>, p: int, f: Fields) -> Option<Fields>
    decreases b.len() - p,
{
    let step: Option<(Fields, int)> = match word_field(b, p) {
        Some((s, e, q)) => if f.word is Some {
            None
        } else {
            Some((Fields { word: Some((s, e)), status: f.status }, q))
        },
        None => match status_field(b, p) {
            Some((st, q)) => if f.status is Some {
                None
            } else {
                Some((Fields { word: f.word, status: Some(st) }, q))
            },
            None => match other_field(b, p) {
                Some(q) => Some((f, q)),
                None => None,
            },
        },
    };
    match step {
        None => None,
        Some((g, q)) => match punct_end(b, q, 44) {
            Some(r) => if p < r <= b.len() {
                members(b, r, g)
            } else {
                None
            },
            None => match punct_end(b, q, 125) {
                Some(r) => if r == b.len() {
                    Some(g)
                } else {
                    None
                },
                None => None,
            },
        },
    }
}

/// The record that `b` encodes, or `None` where `b` is not a well-formed
/// record: UTF-8 text of a JSON object whose `word_id` member is a string and whose
/// `status` member is a well-formed status, in either order, with any
/// other members skipped.
pub open spec fn parse_record(b: Seq<u8>) -> Option<SessionView> {
    if !valid_utf8(b) {
        None
    } else {
        parse_object(b)
    }
}

/// The record that the JSON object in `b` holds.
pub open spec fn parse_object(b: Seq<u8>) -> Option<SessionView> {
    match punct_end(b, 0, 123) {
        None => None,
        Some(p1) => match members(b, p1, Fields { word: None, status: None }) {
            Some(Fields { word: Some((s, e)), status: Some(st) }) => if st.wf() {
                match json_string_parsed(b.subrange(s, e)) {
                    Some(word_id) => Some(SessionView { word_id, status: st }),
                    None => None,
                }
            } else {
                None
            },
            _ => None,
        },
    }
}

/// The encoded status. A single digit holds the guess count, which a
/// well-formed status keeps at most `MAX_GUESSES`.
pub open spec fn status_bytes(st: Status) -> Seq<u8> {
    match st {
        Status::InProgress { used_guesses } => seq![123u8] + in_progress_key() + seq![58u8, 123u8]
            + used_key() + seq![58u8, (48 + used_guesses) as u8, 125u8, 125u8],
        Status::Failed => failed_text(),
        Status::Won { used_guesses } => seq![123u8] + won_key() + seq![58u8, 123u8] + used_key()
            + seq![58u8, (48 + used_guesses) as u8, 125u8, 125u8],
    }
}

/// The record with status `st` whose word identifier is the JSON string `word_json`.
pub open spec fn record_bytes(word_json: Seq<u8>, st: Status) -> Seq<u8> {
    seq![123u8] + word_key() + seq![58u8] + word_json + seq![44u8] + status_key() + seq![58u8]
        + status_bytes(st) + seq![125u8]
}

/// The encoding of a record.
pub open spec fn encoded_record(v: SessionView) -> Seq<u8> {
    record_bytes(json_string_of(v.word_id), v.status)
}

/// A string token reads the same inside a longer text.
proof fn lemma_string_end_within(t: Seq<u8>, b: Seq<u8>, o: int, k: int)
    requires
        0 <= o,
        o + t.len() <= b.len(),
        b.subrange(o, o + t.len()) == t,
        0 <= k,
        string_end(t, k) is Some,
    ensures
        string_end(b, o + k) == Some(o + string_end(t, k)->0),
    decreases t.len() - k,
{
    assert(b[o + k] == t[k]);
    if t[k] == 34 {
    } else if t[k] == 92 {
        lemma_string_end_within(t, b, o, k + 2);
    } else {
        lemma_string_end_within(t, b, o, k + 1);
    }
}

/// A part of `t` reads the same where `t` stands in `b` at `o`.
proof fn lemma_slice_of(b: Seq<u8>, o: int, t: Seq<u8>, i: int, j: int)
    requires
        0 <= o,
        o + t.len() <= b.len(),
        b.subrange(o, o + t.len()) == t,
        0 <= i <= j <= t.len(),
    ensures
        b.subrange(o + i, o + j) == t.subrange(i, j),
{
    assert forall|k: int| 0 <= k < j - i implies b.subrange(o + i, o + j)[k] == t.subrange(
        i,
        j,
    )[k] by {
        assert(b.subrange(o, o + t.len())[i + k] == t[i + k]);
    }
    assert(b.subrange(o + i, o + j) =~= t.subrange(i, j));
}

/// A well-formed status reads back where its encoding stands at `p`,
/// followed by a closing brace.
#[verifier::rlimit(50)]
proof fn lemma_status_within(b: Seq<u8>, p: int, st: Status)
    requires
        st.wf(),
        0 <= p,
        p + status_bytes(st).len() < b.len(),
        b.subrange(p, p + status_bytes(st).len()) == status_bytes(st),
        b[p + status_bytes(st).len()] == 125,
    ensures
        status_value(b, p) == Some((st, p + status_bytes(st).len())),
{
    let sb = status_bytes(st);
    assert forall|i: int| 0 <= i < sb.len() implies b[p + i] == sb[i] by {
        assert(b.subrange(p, p + sb.len())[i] == sb[i]);
    }
    match st {
        Status::Failed => {
            assert(b.subrange(p, p + 8) =~= failed_text());
            assert(lit_end(b, p, failed_text()) == Some(p + 8));
        },
        Status::InProgress { used_guesses } => {
            assert(sb[0] == 123 && sb[13] == 58 && sb[14] == 123 && sb[29] == 58);
            assert(sb[30] == 48 + used_guesses && sb[31] == 125 && sb[32] == 125);
            assert(b[p] == sb[0] && b[p + 13] == sb[13] && b[p + 14] == sb[14]);
            assert(b[p + 29] == sb[29] && b[p + 30] == sb[30] && b[p + 31] == sb[31]);
            assert(b[p + 32] == sb[32]);
            assert(sb.subrange(1, 13) =~= in_progress_key());
            assert(sb.subrange(15, 29) =~= used_key());
            lemma_slice_of(b, p, sb, 1, 13);
            lemma_slice_of(b, p, sb, 15, 29);
            assert(lit_end(b, p, failed_text()) is None) by {
                assert(b[p] != failed_text()[0]);
            }
            assert(punct_end(b, p, 123) == Some(p + 1));
            assert(variant_key(b, p + 1) == Some((false, p + 13)));
            assert(punct_end(b, p + 13, 58) == Some(p + 14));
            assert(punct_end(b, p + 14, 123) == Some(p + 15));
            assert(lit_end(b, p + 15, used_key()) == Some(p + 29));
            assert(punct_end(b, p + 29, 58) == Some(p + 30));
            assert(count_end(b, p + 30) == Some((used_guesses, p + 31)));
            assert(punct_end(b, p + 31, 125) == Some(p + 32));
            assert(punct_end(b, p + 32, 125) == Some(p + 33));
        },
        Status::Won { used_guesses } => {
            assert(sb[0] == 123 && sb[6] == 58 && sb[7] == 123 && sb[22] == 58);
            assert(sb[23] == 48 + used_guesses && sb[24] == 125 && sb[25] == 125);
            assert(b[p] == sb[0] && b[p + 6] == sb[6] && b[p + 7] == sb[7]);
            assert(b[p + 22] == sb[22] && b[p + 23] == sb[23] && b[p + 24] == sb[24]);
            assert(b[p + 25] == sb[25]);
            assert(b[p + 2] == sb[2]);
            assert(sb.subrange(1, 6) =~= won_key());
            assert(sb.subrange(8, 22) =~= used_key());
            lemma_slice_of(b, p, sb, 1, 6);
            lemma_slice_of(b, p, sb, 8, 22);
            assert(lit_end(b, p, failed_text()) is None) by {
                assert(b[p] != failed_text()[0]);
            }
            assert(lit_end(b, p + 1, in_progress_key()) is None) by {
                assert(b[p + 2] != in_progress_key()[1]);
            }
            assert(punct_end(b, p, 123) == Some(p + 1));
            assert(variant_key(b, p + 1) == Some((true, p + 6)));
            assert(punct_end(b, p + 6, 58) == Some(p + 7));
            assert(punct_end(b, p + 7, 123) == Some(p + 8));
            assert(lit_end(b, p + 8, used_key()) == Some(p + 22));
            assert(punct_end(b, p + 22, 58) == Some(p + 23));
            assert(count_end(b, p + 23) == Some((used_guesses, p + 24)));
            assert(punct_end(b, p + 24, 125) == Some(p + 25));
            assert(punct_end(b, p + 25, 125) == Some(p + 26));
        },
    }
}

/// Where the pieces of an encoded record stand.
proof fn lemma_record_layout(word_json: Seq<u8>, st: Status)
    ensures
        ({
            let b = record_bytes(word_json, st);
            let q = word_json.len() as int;
            let sb = status_bytes(st);
            &&& b.len() == 22 + q + sb.len()
            &&& b[0] == 123 && b[10] == 58 && b[11 + q] == 44 && b[20 + q] == 58
            &&& b[b.len() - 1] == 125
            &&& b.subrange(1, 10) == word_key()
            &&& b.subrange(11, 11 + q) == word_json
            &&& b.subrange(12 + q, 20 + q) == status_key()
            &&& b.subrange(21 + q, 21 + q + sb.len()) == sb
        }),
{
    let b = record_bytes(word_json, st);
    let q = word_json.len() as int;
    let sb = status_bytes(st);
    let head = seq![123u8] + word_key() + seq![58u8];
    let mid = seq![44u8] + status_key() + seq![58u8];
    let tail = mid + sb + seq![125u8];
    assert(b =~= head + word_json + tail);
    assert(b.subrange(0, 11) =~= head);
    assert(b.subrange(11, 11 + q) =~= word_json);
    assert(b.subrange(11 + q, b.len() as int) =~= tail);
    assert(head.subrange(1, 10) =~= word_key());
    lemma_slice_of(b, 0, head, 1, 10);
    assert(tail.subrange(1, 9) =~= status_key());
    lemma_slice_of(b, 11 + q, tail, 1, 9);
    assert(tail.subrange(10, 10 + sb.len() as int) =~= sb);
    lemma_slice_of(b, 11 + q, tail, 10, 10 + sb.len() as int);
    assert(b[11 + q] == 44);
    assert(b[20 + q] == 58);
    assert(b[b.len() - 1] == 125);
}

/// A text laid out as an encoded record reads back as that record.
proof fn lemma_parse_laid_out(b: Seq<u8>, word_json: Seq<u8>, v: SessionView)
    requires
        v.status.wf(),
        json_string_parsed(word_json) == Some(v.word_id),
        word_json.len() >= 1,
        word_json[0] == 34,
        string_end(word_json, 1) == Some(word_json.len() as int),
        ({
            let q = word_json.len() as int;
            let sb = status_bytes(v.status);
            &&& b.len() == 22 + q + sb.len()
            &&& b[0] == 123 && b[10] == 58 && b[11 + q] == 44 && b[20 + q] == 58
            &&& b[b.len() - 1] == 125
            &&& b.subrange(1, 10) == word_key()
            &&& b.subrange(11, 11 + q) == word_json
            &&& b.subrange(12 + q, 20 + q) == status_key()
            &&& b.subrange(21 + q, 21 + q + sb.len()) == sb
        }),
    ensures
        parse_object(b) == Some(v),
{
    let q = word_json.len() as int;
    let sb = status_bytes(v.status);
    assert(b[11] == word_json[0]) by {
        assert(b.subrange(11, 11 + q)[0] == word_json[0]);
    }
    lemma_string_end_within(word_json, b, 11, 1);
    assert(punct_end(b, 0, 123) == Some(1int));
    assert(lit_end(b, 1, word_key()) == Some(10int));
    assert(punct_end(b, 10, 58) == Some(11int));
    assert(word_field(b, 1) == Some((11int, 11 + q, 11 + q)));
    assert(punct_end(b, 11 + q, 44) == Some(12 + q));
    assert(lit_end(b, 12 + q, status_key()) == Some(20 + q));
    assert(b[21 + q] == sb[0]) by {
        assert(b.subrange(21 + q, 21 + q + sb.len())[0] == sb[0]);
    }
    assert(sb[0] == 123 || sb[0] == 34);
    assert(punct_end(b, 20 + q, 58) == Some(21 + q));
    let p = 21 + q;
    lemma_status_within(b, p, v.status);
    assert(status_field(b, 12 + q) == Some((v.status, p + sb.len())));
    assert(punct_end(b, p + sb.len(), 44) is None);
    assert(punct_end(b, p + sb.len(), 125) == Some(b.len() as int));
    assert(b[13 + q] == status_key()[1]) by {
        assert(b.subrange(12 + q, 20 + q)[1] == status_key()[1]);
    }
    assert(lit_end(b, 12 + q, word_key()) is None) by {
        assert(b.subrange(12 + q, 12 + q + word_key().len())[1] == b[13 + q]);
    }
    let w = Some((11int, 11 + q));
    assert(members(b, 12 + q, Fields { word: w, status: None }) == Some(
        Fields { word: w, status: Some(v.status) },
    ));
    assert(members(b, 1, Fields { word: None, status: None }) == Some(
        Fields { word: w, status: Some(v.status) },
    ));
}

/// The encoded record reads back, given that its word identifier's JSON
/// string is one string token that reads back as the identifier.
pub proof fn lemma_parse_encoded(word_json: Seq<u8>, v: SessionView)
    requires
        v.status.wf(),
        json_string_parsed(word_json) == Some(v.word_id),
        word_json.len() >= 1,
        word_json[0] == 34,
        string_end(word_json, 1) == Some(word_json.len() as int),
        valid_utf8(word_json),
    ensures
        parse_record(record_bytes(word_json, v.status)) == Some(v),
{
    lemma_record_layout(word_json, v.status);
    lemma_parse_laid_out(record_bytes(word_json, v.status), word_json, v);
    lemma_record_utf8(word_json, v.status);
}

/// Bytes below 0x80 are valid UTF-8.
proof fn lemma_ascii_valid(a: Seq<u8>)
    requires
        forall|i: int| 0 <= i < a.len() ==> a[i] <= 0x7f,
    ensures
        valid_utf8(a),
{
    assert(valid_utf8(a.subrange(0, 0))) by {
        assert(a.subrange(0, 0).len() == 0);
    }
    assert(partial_valid_utf8(a, 0));
    assert forall|i: int| 0 <= 0 <= i < a.len() <= a.len() implies #[trigger] is_leading_byte_width_1(
        a[i],
    ) by {}
    partial_valid_utf8_extend_ascii_block(a, 0, a.len() as int);
    assert(a.subrange(0, a.len() as int) =~= a);
}

/// A record is valid UTF-8 where its word identifier's JSON string is.
proof fn lemma_record_utf8(word_json: Seq<u8>, st: Status)
    requires
        valid_utf8(word_json),
        st.wf(),
    ensures
        valid_utf8(record_bytes(word_json, st)),
{
    let head = seq![123u8] + word_key() + seq![58u8];
    let sb = status_bytes(st);
    let tail = seq![44u8] + status_key() + seq![58u8] + sb + seq![125u8];
    assert forall|i: int| 0 <= i < sb.len() implies sb[i] <= 0x7f by {
        match st {
            Status::InProgress { used_guesses } => {
                assert(sb =~= seq![123u8] + in_progress_key() + seq![58u8, 123u8] + used_key()
                    + seq![58u8, (48 + used_guesses) as u8, 125u8, 125u8]);
            },
            Status::Failed => {},
            Status::Won { used_guesses } => {
                assert(sb =~= seq![123u8] + won_key() + seq![58u8, 123u8] + used_key() + seq![
                    58u8,
                    (48 + used_guesses) as u8,
                    125u8,
                    125u8,
                ]);
            },
        }
    }
    lemma_ascii_valid(head);
    lemma_ascii_valid(tail);
    valid_utf8_concat(head, word_json);
    valid_utf8_concat(head + word_json, tail);
    assert(record_bytes(word_json, st) =~= head + word_json + tail);
}

fn word_key_vec() -> (r: Vec<u8>)
    ensures
        r@ == word_key(),
{
    vec![34u8, 119, 111, 114, 100, 95, 105, 100, 34]
}

fn status_key_vec() -> (r: Vec<u8>)
    ensures
        r@ == status_key(),
{
    vec![34u8, 115, 116, 97, 116, 117, 115, 34]
}

fn failed_text_vec() -> (r: Vec<u8>)
    ensures
        r@ == failed_text(),
{
    vec![34u8, 70, 97, 105, 108, 101, 100, 34]
}

fn in_progress_key_vec() -> (r: Vec<u8>)
    ensures
        r@ == in_progress_key(),
{
    vec![34u8, 73, 110, 80, 114, 111, 103, 114, 101, 115, 115, 34]
}

fn won_key_vec() -> (r: Vec<u8>)
    ensures
        r@ == won_key(),
{
    vec![34u8, 87, 111, 110, 34]
}

fn used_key_vec() -> (r: Vec<u8>)
    ensures
        r@ == used_key(),
{
    vec![34u8, 117, 115, 101, 100, 95, 103, 117, 101, 115, 115, 101, 115, 34]
}

/// Appends `lit` to `out`.
fn push_all(out: &mut Vec<u8>, lit: &[u8])
    ensures
        final(out)@ == old(out)@ + lit@,
{
    let mut i: usize = 0;
    while i < lit.len()
        invariant
            i <= lit@.len(),
            out@ == old(out)@ + lit@.subrange(0, i as int),
        decreases lit@.len() - i,
    {
        out.push(lit[i]);
        i = i + 1;
        assert(lit@.subrange(0, i as int) =~= lit@.subrange(0, i - 1) + seq![lit@[i - 1]]);
    }
    assert(lit@.subrange(0, lit@.len() as int) =~= lit@);
}

/// Writes the record with status `status` whose word identifier is the JSON
/// string `word_json`.
pub fn write_record(word_json: &[u8], status: Status) -> (r: Vec<u8>)
    requires
        status.wf(),
    ensures
        r@ == record_bytes(word_json@, status),
{
    let mut out: Vec<u8> = Vec::new();
    push_all(&mut out, &[123u8]);
    push_all(&mut out, word_key_vec().as_slice());
    push_all(&mut out, &[58u8]);
    push_all(&mut out, word_json);
    push_all(&mut out, &[44u8]);
    push_all(&mut out, status_key_vec().as_slice());
    push_all(&mut out, &[58u8]);
    match status {
        Status::InProgress { used_guesses } => {
            push_all(&mut out, &[123u8]);
            push_all(&mut out, in_progress_key_vec().as_slice());
            push_all(&mut out, &[58u8, 123u8]);
            push_all(&mut out, used_key_vec().as_slice());
            push_all(&mut out, &[58u8, 48 + used_guesses, 125u8, 125u8]);
        },
        Status::Failed => {
            push_all(&mut out, failed_text_vec().as_slice());
        },
        Status::Won { used_guesses } => {
            push_all(&mut out, &[123u8]);
            push_all(&mut out, won_key_vec().as_slice());
            push_all(&mut out, &[58u8, 123u8]);
            push_all(&mut out, used_key_vec().as_slice());
            push_all(&mut out, &[58u8, 48 + used_guesses, 125u8, 125u8]);
        },
    }
    push_all(&mut out, &[125u8]);
    assert(out@ =~= record_bytes(word_json@, status));
    out
}

/// `r` is the position `s` gives, or absent where `s` is.
pub open spec fn same_pos(r: Option<usize>, s: Option<int>) -> bool {
    match s {
        Some(q) => r matches Some(x) && x as int == q,
        None => r is None,
    }
}

fn skip_ws_exec(b: &[u8], p: usize) -> (r: usize)
    requires
        p <= b@.len(),
    ensures
        r as int == skip_ws(b@, p as int),
        p <= r <= b@.len(),
{
    let n = b.len();
    let mut i = p;
    while i < n && (b[i] == 32 || b[i] == 9 || b[i] == 10 || b[i] == 13)
        invariant
            n == b@.len(),
            p <= i <= n,
            skip_ws(b@, p as int) == skip_ws(b@, i as int),
        decreases n - i,
    {
        i = i + 1;
    }
    i
}

fn lit_end_exec(b: &[u8], p: usize, lit: &[u8]) -> (r: Option<usize>)
    requires
        p <= b@.len(),
    ensures
        same_pos(r, lit_end(b@, p as int, lit@)),
        r matches Some(x) ==> x <= b@.len(),
{
    let n = b.len();
    if lit.len() > n - p {
        return None;
    }
    let mut i: usize = 0;
    while i < lit.len()
        invariant
            n == b@.len(),
            p + lit@.len() <= n,
            i <= lit@.len(),
            forall|t: int| 0 <= t < i ==> b@[p + t] == lit@[t],
        decreases lit@.len() - i,
    {
        if b[p + i] != lit[i] {
            assert(b@.subrange(p as int, p + lit@.len())[i as int] != lit@[i as int]);
            return None;
        }
        i = i + 1;
    }
    assert(b@.subrange(p as int, p + lit@.len()) =~= lit@);
    Some(p + lit.len())
}

fn punct_end_exec(b: &[u8], p: usize, c: u8) -> (r: Option<usize>)
    requires
        p <= b@.len(),
    ensures
        same_pos(r, punct_end(b@, p as int, c)),
        r matches Some(x) ==> x <= b@.len(),
{
    let q = skip_ws_exec(b, p);
    if q < b.len() && b[q] == c {
        Some(skip_ws_exec(b, q + 1))
    } else {
        None
    }
}

fn string_end_exec(b: &[u8], p: usize) -> (r: Option<usize>)
    requires
        p <= b@.len(),
    ensures
        same_pos(r, string_end(b@, p as int)),
        r matches Some(x) ==> p < x <= b@.len(),
{
    let n = b.len();
    let mut i = p;
    while i < n
        invariant
            n == b@.len(),
            p <= i <= n,
            string_end(b@, p as int) == string_end(b@, i as int),
        decreases n - i,
    {
        if b[i] == 34 {
            return Some(i + 1);
        } else if b[i] == 92 {
            if n - i < 2 {
                assert(string_end(b@, i + 2) is None);
                return None;
            }
            i = i + 2;
        } else {
            i = i + 1;
        }
    }
    None
}

fn is_digit_exec(c: u8) -> (r: bool)
    ensures
        r == is_digit_byte(c),
{
    48 <= c && c <= 57
}

fn count_end_exec(b: &[u8], p: usize) -> (r: Option<(u8, usize)>)
    requires
        p <= b@.len(),
    ensures
        match count_end(b@, p as int) {
            Some((v, q)) => r matches Some((x, y)) && x == v && y as int == q && y <= b@.len(),
            None => r is None,
        },
{
    let n = b.len();
    if !(p < n && is_digit_exec(b[p])) {
        return None;
    }
    let d0 = b[p] - 48;
    if b[p] == 48 || !(p + 1 < n && is_digit_exec(b[p + 1])) {
        return Some((d0, p + 1));
    }
    let d1 = b[p + 1] - 48;
    if !(p + 2 < n && is_digit_exec(b[p + 2])) {
        return Some((10 * d0 + d1, p + 2));
    }
    let d2 = b[p + 2] - 48;
    let v: u32 = 100 * (d0 as u32) + 10 * (d1 as u32) + (d2 as u32);
    if v <= 255 {
        Some((v as u8, p + 3))
    } else {
        None
    }
}

fn variant_key_exec(b: &[u8], p: usize) -> (r: Option<(bool, usize)>)
    requires
        p <= b@.len(),
    ensures
        match variant_key(b@, p as int) {
            Some((w, q)) => r matches Some((x, y)) && x == w && y as int == q && y <= b@.len(),
            None => r is None,
        },
{
    match lit_end_exec(b, p, in_progress_key_vec().as_slice()) {
        Some(q) => Some((false, q)),
        None => match lit_end_exec(b, p, won_key_vec().as_slice()) {
            Some(q) => Some((true, q)),
            None => None,
        },
    }
}

fn counted_status_exec(b: &[u8], p: usize) -> (r: Option<(Status, usize)>)
    requires
        p <= b@.len(),
    ensures
        match counted_status(b@, p as int) {
            Some((st, q)) => r matches Some((x, y)) && x == st && y as int == q && y <= b@.len(),
            None => r is None,
        },
{
    let q1 = match punct_end_exec(b, p, 123) {
        Some(q) => q,
        None => {
            return None;
        },
    };
    let (won, q2) = match variant_key_exec(b, q1) {
        Some(found) => found,
        None => {
            return None;
        },
    };
    let q3 = match punct_end_exec(b, q2, 58) {
        Some(q) => q,
        None => {
            return None;
        },
    };
    let q4 = match punct_end_exec(b, q3, 123) {
        Some(q) => q,
        None => {
            return None;
        },
    };
    let q5 = match lit_end_exec(b, q4, used_key_vec().as_slice()) {
        Some(q) => q,
        None => {
            return None;
        },
    };
    let q6 = match punct_end_exec(b, q5, 58) {
        Some(q) => q,
        None => {
            return None;
        },
    };
    let (n, q7) = match count_end_exec(b, q6) {
        Some(found) => found,
        None => {
            return None;
        },
    };
    let q8 = match punct_end_exec(b, q7, 125) {
        Some(q) => q,
        None => {
            return None;
        },
    };
    let q9 = match punct_end_exec(b, q8, 125) {
        Some(q) => q,
        None => {
            return None;
        },
    };
    if won {
        Some((Status::Won { used_guesses: n }, q9))
    } else {
        Some((Status::InProgress { used_guesses: n }, q9))
    }
}

fn status_field_exec(b: &[u8], p: usize) -> (r: Option<(Status, usize)>)
    requires
        p <= b@.len(),
    ensures
        match status_field(b@, p as int) {
            Some((st, q)) => r matches Some((x, y)) && x == st && y as int == q && y <= b@.len(),
            None => r is None,
        },
{
    let q = match lit_end_exec(b, p, status_key_vec().as_slice()) {
        Some(q) => q,
        None => {
            return None;
        },
    };
    let q2 = match punct_end_exec(b, q, 58) {
        Some(q) => q,
        None => {
            return None;
        },
    };
    match lit_end_exec(b, q2, failed_text_vec().as_slice()) {
        Some(q3) => Some((Status::Failed, skip_ws_exec(b, q3))),
        None => counted_status_exec(b, q2),
    }
}

fn word_field_exec(b: &[u8], p: usize) -> (r: Option<(usize, usize, usize)>)
    requires
        p <= b@.len(),
    ensures
        match word_field(b@, p as int) {
            Some((s, e, q)) => r matches Some((x, y, z)) && x as int == s && y as int == e && z
                as int == q && x < y <= b@.len() && z <= b@.len(),
            None => r is None,
        },
{
    let q = match lit_end_exec(b, p, word_key_vec().as_slice()) {
        Some(q) => q,
        None => {
            return None;
        },
    };
    let q2 = match punct_end_exec(b, q, 58) {
        Some(q) => q,
        None => {
            return None;
        },
    };
    if q2 < b.len() && b[q2] == 34 {
        match string_end_exec(b, q2 + 1) {
            Some(e) => Some((q2, e, skip_ws_exec(b, e))),
            None => None,
        }
    } else {
        None
    }
}

fn status_wf(st: &Status) -> (r: bool)
    ensures
        r == st.wf(),
{
    match st {
        Status::InProgress { used_guesses } => *used_guesses < crate::session::MAX_GUESSES,
        Status::Failed => true,
        Status::Won { used_guesses } => 1 <= *used_guesses && *used_guesses
            <= crate::session::MAX_GUESSES,
    }
}

fn scalar_end_exec(b: &[u8], p: usize) -> (r: usize)
    requires
        p <= b@.len(),
    ensures
        r as int == scalar_end(b@, p as int),
        p <= r <= b@.len(),
{
    let n = b.len();
    let mut i = p;
    while i < n && !(b[i] == 44 || b[i] == 125 || b[i] == 93 || b[i] == 32 || b[i] == 9 || b[i]
        == 10 || b[i] == 13)
        invariant
            n == b@.len(),
            p <= i <= n,
            scalar_end(b@, p as int) == scalar_end(b@, i as int),
        decreases n - i,
    {
        i = i + 1;
    }
    i
}

fn nested_end_exec(b: &[u8], p: usize) -> (r: Option<usize>)
    requires
        1 <= p <= b@.len(),
    ensures
        same_pos(r, nested_end(b@, p as int, 1)),
        r matches Some(x) ==> p < x <= b@.len(),
{
    let n = b.len();
    let mut i = p;
    let mut depth: usize = 1;
    while i < n
        invariant
            n == b@.len(),
            p <= i <= n,
            1 <= depth <= i,
            nested_end(b@, p as int, 1) == nested_end(b@, i as int, depth as nat),
        decreases n - i,
    {
        let c = b[i];
        if c == 34 {
            match string_end_exec(b, i + 1) {
                Some(e) => {
                    i = e;
                },
                None => {
                    return None;
                },
            }
        } else if c == 123 || c == 91 {
            depth = depth + 1;
            i = i + 1;
        } else if c == 125 || c == 93 {
            if depth == 1 {
                return Some(i + 1);
            }
            depth = depth - 1;
            i = i + 1;
        } else {
            i = i + 1;
        }
    }
    None
}

fn value_end_exec(b: &[u8], p: usize) -> (r: Option<usize>)
    requires
        p <= b@.len(),
    ensures
        same_pos(r, value_end(b@, p as int)),
        r matches Some(x) ==> p < x <= b@.len(),
{
    if p >= b.len() {
        return None;
    }
    if b[p] == 34 {
        string_end_exec(b, p + 1)
    } else if b[p] == 123 || b[p] == 91 {
        nested_end_exec(b, p + 1)
    } else {
        let e = scalar_end_exec(b, p);
        if e > p {
            Some(e)
        } else {
            None
        }
    }
}

fn other_field_exec(b: &[u8], p: usize) -> (r: Option<usize>)
    requires
        p <= b@.len(),
    ensures
        same_pos(r, other_field(b@, p as int)),
        r matches Some(x) ==> x <= b@.len(),
{
    if !(p < b.len() && b[p] == 34) {
        return None;
    }
    let k = match string_end_exec(b, p + 1) {
        Some(k) => k,
        None => {
            return None;
        },
    };
    if lit_end_exec(b, p, word_key_vec().as_slice()) == Some(k) || lit_end_exec(
        b,
        p,
        status_key_vec().as_slice(),
    ) == Some(k) {
        return None;
    }
    let (_, rest) = b.split_at(p);
    let (key, _) = rest.split_at(k - p);
    assert(key@ =~= b@.subrange(p as int, k as int));
    let name = match json_string_parse(key) {
        Some(name) => name,
        None => {
            return None;
        },
    };
    let word_name = "word_id".to_owned();
    let status_name = "status".to_owned();
    if name == word_name || name == status_name {
        return None;
    }
    let q = match punct_end_exec(b, k, 58) {
        Some(q) => q,
        None => {
            return None;
        },
    };
    match value_end_exec(b, q) {
        Some(e) => {
            let (_, rest) = b.split_at(q);
            let (value, _) = rest.split_at(e - q);
            assert(value@ =~= b@.subrange(q as int, e as int));
            if json_value_check(value) {
                Some(skip_ws_exec(b, e))
            } else {
                None
            }
        },
        None => None,
    }
}

/// The fields read so far, as positions in the text.
pub open spec fn fields_of(word: Option<(usize, usize)>, status: Option<Status>) -> Fields {
    Fields {
        word: match word {
            Some((s, e)) => Some((s as int, e as int)),
            None => None,
        },
        status,
    }
}

fn read_members(b: &[u8], p: usize) -> (r: Option<(Option<(usize, usize)>, Option<Status>)>)
    requires
        p <= b@.len(),
    ensures
        match members(b@, p as int, Fields { word: None, status: None }) {
            Some(f) => r matches Some((w, st)) && fields_of(w, st) == f && (w matches Some((s, e))
                ==> s <= e <= b@.len()),
            None => r is None,
        },
{
    let n = b.len();
    let mut pos = p;
    let mut word: Option<(usize, usize)> = None;
    let mut status: Option<Status> = None;
    loop
        invariant
            n == b@.len(),
            pos <= n,
            members(b@, p as int, Fields { word: None, status: None }) == members(
                b@,
                pos as int,
                fields_of(word, status),
            ),
            word matches Some((s, e)) ==> s <= e <= n,
        decreases n - pos,
    {
        let ghost f = fields_of(word, status);
        let q = match word_field_exec(b, pos) {
            Some((s, e, q)) => {
                if word.is_some() {
                    return None;
                }
                word = Some((s, e));
                q
            },
            None => match status_field_exec(b, pos) {
                Some((st, q)) => {
                    if status.is_some() {
                        return None;
                    }
                    status = Some(st);
                    q
                },
                None => match other_field_exec(b, pos) {
                    Some(q) => q,
                    None => {
                        return None;
                    },
                },
            },
        };
        match punct_end_exec(b, q, 44) {
            Some(r) => {
                if r <= pos {
                    return None;
                }
                pos = r;
            },
            None => {
                return match punct_end_exec(b, q, 125) {
                    Some(r) => if r == n {
                        Some((word, status))
                    } else {
                        None
                    },
                    None => None,
                };
            },
        }
    }
}

/// Reads the record that `b` encodes.
pub fn read_record(b: &[u8]) -> (r: Option<Session>)
    ensures
        match parse_record(b@) {
            Some(v) => r matches Some(s) && s@ == v,
            None => r is None,
        },
{
    if !utf8_check(b) {
        return None;
    }
    let p1 = match punct_end_exec(b, 0, 123) {
        Some(q) => q,
        None => {
            return None;
        },
    };
    match read_members(b, p1) {
        Some((Some((s, e)), Some(st))) => {
            if !status_wf(&st) {
                return None;
            }
            let (_, rest) = b.split_at(s);
            let (token, _) = rest.split_at(e - s);
            assert(token@ =~= b@.subrange(s as int, e as int));
            match json_string_parse(token) {
                Some(word_id) => Some(Session { word_id, status: st }),
                None => None,
            }
        },
        _ => None,
    }
}

impl Session {
    /// The record's bytes, which read back as the record.
    pub fn serialize(&self) -> (r: Result<Vec<u8>, Error>)
        requires
            self.wf(),
        ensures
            match r {
                Ok(b) => b@ == encoded_record(self@) && parse_record(b@) == Some(self@),
                Err(_) => false,
            },
    {
        match json_string(self.word_id.as_str()) {
            Some(word_json) => {
                let b = write_record(word_json.as_slice(), self.status);
                proof {
                    lemma_parse_encoded(word_json@, self@);
                }
                Ok(b)
            },
            None => Err(Error::InternalSerializationFailure),
        }
    }

    /// The record that `data` encodes; anything else is a malformed payload.
    pub fn deserialize(data: &[u8]) -> (r: Result<Session, Error>)
        ensures
            match parse_record(data@) {
                Some(v) => r matches Ok(s) && s@ == v && s.wf(),
                None => r == Err::<Session, Error>(Error::MalformedPayload),
            },
    {
        match read_record(data) {
            Some(s) => Ok(s),
            None => Err(Error::MalformedPayload),
        }
    }
}

} // verus!
