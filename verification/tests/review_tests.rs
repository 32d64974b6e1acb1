use autofix::review::{parse_command, ReviewDecision, ReviewSession, ReviewStatus};

#[test]
fn skip_accept_quit_accepts_the_second() {
    let mut s = ReviewSession::new(3);
    s.step_input("s");
    s.step_input("r");
    s.step_input("q");
    assert_eq!(s.status, ReviewStatus::Done);
    assert_eq!(s.accepted, vec![1]);
}

#[test]
fn abort_discards_earlier_accepts() {
    let mut s = ReviewSession::new(3);
    s.step_input("r");
    s.step_input("a");
    assert_eq!(s.status, ReviewStatus::Aborted);
    assert!(s.accepted.is_empty());
}

#[test]
fn invalid_input_does_not_advance() {
    let mut s = ReviewSession::new(2);
    s.step_input("x");
    assert_eq!(s.status, ReviewStatus::Running);
    assert_eq!(s.next, 0);
    assert!(s.accepted.is_empty());
    s.step_input("r");
    assert_eq!(s.next, 1);
    assert_eq!(s.accepted, vec![0]);
}

#[test]
fn abort_works_after_invalid_input() {
    let mut s = ReviewSession::new(4);
    s.step_input("r");
    s.step_input("x");
    s.step_input("a");
    assert_eq!(s.status, ReviewStatus::Aborted);
    assert!(s.accepted.is_empty());
}

#[test]
fn automatic_mode_accepts_everything_in_order() {
    let s = ReviewSession::run_automatic(5);
    assert_eq!(s.status, ReviewStatus::Done);
    assert_eq!(s.accepted, vec![0, 1, 2, 3, 4]);
}

#[test]
fn empty_sequence_is_done_at_once() {
    let s = ReviewSession::new(0);
    assert_eq!(s.status, ReviewStatus::Done);
    assert!(s.accepted.is_empty());
}

#[test]
fn quit_preserves_what_was_accepted() {
    let mut s = ReviewSession::new(3);
    s.step(ReviewDecision::Accept);
    s.step(ReviewDecision::Quit);
    assert_eq!(s.status, ReviewStatus::Done);
    assert_eq!(s.accepted, vec![0]);
}

#[test]
fn exhausting_the_sequence_finishes_the_session() {
    let mut s = ReviewSession::new(2);
    s.step(ReviewDecision::Accept);
    assert_eq!(s.status, ReviewStatus::Running);
    s.step(ReviewDecision::Accept);
    assert_eq!(s.status, ReviewStatus::Done);
    assert_eq!(s.accepted, vec![0, 1]);
}

#[test]
fn prompt_commands_parse_exactly() {
    assert_eq!(parse_command("r"), Some(ReviewDecision::Accept));
    assert_eq!(parse_command("s"), Some(ReviewDecision::Skip));
    assert_eq!(parse_command("q"), Some(ReviewDecision::Quit));
    assert_eq!(parse_command("a"), Some(ReviewDecision::Abort));
    assert_eq!(parse_command(""), None);
    assert_eq!(parse_command("rs"), None);
    assert_eq!(parse_command("x"), None);
}
