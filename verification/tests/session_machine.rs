use arith_drill::round::{Op, Problem, Round};
use arith_drill::session::{handle_input, initial_state, produce_incorrect, Notice, State};
use arith_drill::stats::process_results;

const SEC: u64 = 1_000_000_000;

fn round_with(a: i64, b: i64, op: Op, text: &str, elapsed_ns: u64) -> Round {
    Round {
        problem: Problem { a, b, op },
        input: text.as_bytes().to_vec(),
        start: 0,
        end: elapsed_ns,
    }
}

#[test]
fn end_to_end_scenario() {
    // problem 7 + 3, answered "10" after a tenth of a second
    let s0 = initial_state();
    let (s1, n1) = handle_input(round_with(7, 3, Op::Add, "10\n", SEC / 10), s0);
    match n1 {
        Notice::Answered { correct, mult, combo, delta, score, timeout, .. } => {
            assert!(correct);
            assert_eq!(mult, 100);
            assert_eq!(combo, 2);
            assert_eq!(delta, 200);
            assert_eq!(score, 200);
            assert!(!timeout);
        },
        Notice::NotANumber => panic!("the answer was a number"),
    }
    assert_eq!(s1.score, 200);
    assert_eq!(s1.correct, 1);
    assert_eq!(s1.incorrect, 0);
    assert_eq!(s1.attempts, 1);
    assert_eq!(s1.combo, 2);
    assert_eq!(s1.max_combo, 2);
    assert!(!s1.is_finished);
    assert_eq!(s1.times, vec![100]);

    let summary = process_results(s1);
    assert_eq!(summary.score, 200);
    assert_eq!(summary.correct, 1);
    assert_eq!(summary.incorrect, 0);
    assert_eq!(summary.total, 1);
    assert_eq!(summary.median_ms, 100);
    assert_eq!(summary.accuracy_pct, 100);
}

#[test]
fn combo_grows_on_consecutive_correct_answers() {
    // three correct answers from the initial combo of one yield 2, 3, 4
    let mut s = initial_state();
    let mut combos = Vec::new();
    for _ in 0..3 {
        let (next, _) = handle_input(round_with(1, 1, Op::Add, "2\n", SEC), s);
        combos.push(next.combo);
        s = next;
    }
    assert_eq!(combos, vec![2, 3, 4]);
    assert_eq!(s.max_combo, 4);
}

#[test]
fn combo_resets_to_one_on_incorrect() {
    let s0 = initial_state();
    let (s1, _) = handle_input(round_with(1, 1, Op::Add, "2\n", SEC), s0);
    let (s2, _) = handle_input(round_with(1, 1, Op::Add, "2\n", SEC), s1);
    assert_eq!(s2.combo, 3);
    let (s3, _) = handle_input(round_with(1, 1, Op::Add, "5\n", SEC), s2);
    assert_eq!(s3.combo, 1);
    // the maximum combo survives the reset
    assert_eq!(s3.max_combo, 3);
    // and the next correct answer starts counting from one again
    let (s4, _) = handle_input(round_with(1, 1, Op::Add, "2\n", SEC), s3);
    assert_eq!(s4.combo, 2);
}

#[test]
fn score_never_negative() {
    // wrong answers from a zero score leave the score floored at zero
    let mut s = initial_state();
    for _ in 0..5 {
        let (next, _) = handle_input(round_with(2, 2, Op::Mul, "0\n", SEC), s);
        assert!(next.score >= 0);
        assert_eq!(next.score, 0);
        s = next;
    }
}

#[test]
fn score_forfeits_base_points_on_incorrect() {
    let s0 = initial_state();
    let (s1, _) = handle_input(round_with(7, 3, Op::Add, "10\n", SEC / 10), s0);
    assert_eq!(s1.score, 200);
    let (s2, n2) = handle_input(round_with(7, 3, Op::Add, "11\n", SEC / 10), s1);
    assert_eq!(s2.score, 199);
    match n2 {
        Notice::Answered { correct, delta, expected, .. } => {
            assert!(!correct);
            assert_eq!(delta, -1);
            assert_eq!(expected, 10);
        },
        Notice::NotANumber => panic!("the answer was a number"),
    }
}

#[test]
fn attempts_split_into_correct_and_incorrect() {
    // a mix of correct, wrong and unparseable answers
    let mut s = initial_state();
    for text in ["2\n", "9\n", "what\n", "2\n", "\n"] {
        let (next, _) = handle_input(round_with(1, 1, Op::Add, text, SEC), s);
        assert_eq!(next.attempts, next.correct + next.incorrect);
        s = next;
    }
    assert_eq!(s.attempts, 5);
    assert_eq!(s.correct, 2);
    assert_eq!(s.incorrect, 3);
    assert_eq!(s.times.len(), 5);
}

#[test]
fn unparseable_answer_is_an_incorrect_attempt() {
    let s0 = initial_state();
    let (s1, n1) = handle_input(round_with(1, 1, Op::Add, "two\n", SEC), s0);
    assert!(matches!(n1, Notice::NotANumber));
    assert_eq!(s1.incorrect, 1);
    assert_eq!(s1.attempts, 1);
    assert_eq!(s1.combo, 1);
    assert!(!s1.is_finished);
}

#[test]
fn quit_sentinels_finish_the_session() {
    for text in ["q\n", "quit\n", "q\r\n"] {
        let s0 = initial_state();
        let (s1, _) = handle_input(round_with(1, 1, Op::Add, text, SEC), s0);
        assert!(s1.is_finished);
        // a quit line still counts as an (incorrect) attempt
        assert_eq!(s1.attempts, 1);
        assert_eq!(s1.incorrect, 1);
    }
}

#[test]
fn ten_attempts_finish_the_session_without_quit() {
    let mut s = initial_state();
    for i in 0..10 {
        assert!(!s.is_finished);
        let (next, _) = handle_input(round_with(1, 1, Op::Add, "0\n", SEC), s);
        s = next;
        if i < 9 {
            assert!(!s.is_finished, "finished too early at attempt {}", i + 1);
        }
    }
    assert!(s.is_finished);
    assert_eq!(s.attempts, 10);
}

#[test]
fn timeout_is_surfaced_in_the_notice() {
    // a correct answer after 25 seconds scores a zero multiplier
    let s0 = initial_state();
    let (s1, n1) = handle_input(round_with(7, 3, Op::Add, "10\n", 25 * SEC), s0);
    match n1 {
        Notice::Answered { correct, mult, timeout, delta, .. } => {
            assert!(correct);
            assert_eq!(mult, 0);
            assert!(timeout);
            assert_eq!(delta, 0);
        },
        Notice::NotANumber => panic!("the answer was a number"),
    }
    assert_eq!(s1.score, 0);
}

#[test]
fn subtraction_and_division_answers() {
    let s0 = initial_state();
    let (s1, _) = handle_input(round_with(3, 7, Op::Sub, "-4\n", SEC), s0);
    assert_eq!(s1.correct, 1);
    let (s2, _) = handle_input(round_with(9, 2, Op::Div, "4\n", SEC), s1);
    assert_eq!(s2.correct, 2);
}

#[test]
fn produce_incorrect_resets_combo_and_floors_score() {
    let s = State {
        times: vec![50, 60],
        correct: 2,
        incorrect: 0,
        attempts: 2,
        combo: 3,
        max_combo: 3,
        score: 0,
        is_finished: false,
    };
    let ns = produce_incorrect(&s);
    assert_eq!(ns.combo, 1);
    assert_eq!(ns.score, 0);
    assert_eq!(ns.incorrect, 1);
    assert_eq!(ns.attempts, 3);
    assert_eq!(ns.max_combo, 3);
    assert!(!ns.is_finished);
}

#[test]
fn latency_is_recorded_in_milliseconds() {
    let s0 = initial_state();
    let r = Round {
        problem: Problem { a: 1, b: 1, op: Op::Add },
        input: b"2\n".to_vec(),
        start: 5 * SEC,
        end: 5 * SEC + 2_500_000_000,
    };
    let (s1, _) = handle_input(r, s0);
    assert_eq!(s1.times, vec![2500]);
}
