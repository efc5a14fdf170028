use ahc_local_tools::CaseError;
use ahc_local_tools::score::extract_score;

#[test]
fn extracts_first_score() {
    let text = b"judge output\nScore = 12345\ndone\n";
    assert_eq!(extract_score(text), Ok(12345));
}

#[test]
fn no_pattern_is_score_not_found() {
    let text = b"no score here, only words\n";
    assert_eq!(extract_score(text), Err(CaseError::ScoreNotFound));
}

#[test]
fn first_match_wins() {
    let text = b"Score = 1\nScore = 2";
    assert_eq!(extract_score(text), Ok(1));
}

#[test]
fn pattern_needs_a_digit() {
    // the first occurrence has no digit after it, so the second one counts
    let text = b"Score = x then Score = 7";
    assert_eq!(extract_score(text), Ok(7));
}

#[test]
fn empty_text_is_score_not_found() {
    assert_eq!(extract_score(b""), Err(CaseError::ScoreNotFound));
}

#[test]
fn score_at_end_of_text() {
    assert_eq!(extract_score(b"Score = 42"), Ok(42));
}

#[test]
fn leading_zeros_parse() {
    assert_eq!(extract_score(b"Score = 007 pts"), Ok(7));
}

#[test]
fn maximal_digit_run_is_taken() {
    assert_eq!(extract_score(b"Score = 1234567890123 end"), Ok(1234567890123));
}

#[test]
fn largest_score_fits() {
    assert_eq!(extract_score(b"Score = 18446744073709551615"), Ok(u64::MAX));
}

#[test]
fn overlong_digit_run_is_overflow() {
    assert_eq!(
        extract_score(b"Score = 18446744073709551616"),
        Err(CaseError::ScoreOverflow)
    );
}

#[test]
fn partial_pattern_is_not_found() {
    assert_eq!(extract_score(b"Score =1"), Err(CaseError::ScoreNotFound));
    assert_eq!(extract_score(b"score = 1"), Err(CaseError::ScoreNotFound));
}
