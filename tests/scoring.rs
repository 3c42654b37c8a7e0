use wurdle::scoring::{score, Verdict};

use Verdict::{Absent, Correct, PresentElsewhere};

#[test]
fn duplicate_letters_take_unmatched_copies_left_to_right() {
    // Only position 2 is an exact match; the single unmatched 'l' of the
    // secret goes to the first misplaced 'l', and the second gets nothing.
    assert_eq!(
        score(b"allot", b"lolly"),
        vec![PresentElsewhere, PresentElsewhere, Correct, Absent, Absent]
    );
}

#[test]
fn exact_match_is_correct_everywhere() {
    assert_eq!(score(b"crane", b"crane"), vec![Correct; 5]);
}

#[test]
fn exact_match_consumes_the_letter_before_misplaced_ones() {
    // The 'e' at the end matches exactly, so the earlier 'e' finds no copy left.
    assert_eq!(
        score(b"crane", b"eerie"),
        vec![Absent, Absent, PresentElsewhere, Absent, Correct]
    );
}

#[test]
fn no_letter_in_common() {
    assert_eq!(score(b"crane", b"mossy"), vec![Absent; 5]);
}

#[test]
fn repeated_secret_letters_serve_repeated_guesses() {
    assert_eq!(
        score(b"geese", b"eeeee"),
        vec![Absent, Correct, Correct, Absent, Correct]
    );
    assert_eq!(
        score(b"abbey", b"babes"),
        vec![PresentElsewhere, PresentElsewhere, Correct, Correct, Absent]
    );
}

#[test]
fn empty_words_score_empty() {
    assert_eq!(score(b"", b""), Vec::<Verdict>::new());
}

#[test]
fn verdict_names() {
    assert_eq!(Correct.to_string(), "valid");
    assert_eq!(PresentElsewhere.to_string(), "wrong_place");
    assert_eq!(Absent.to_string(), "wrong");
}
