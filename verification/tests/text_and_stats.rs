use arith_drill::generate::{random_problem, setup_game, Game, Level, SetupError};
use arith_drill::round::Op;
use arith_drill::stats::{accuracy_rate, compute_mean, compute_median};
use arith_drill::text::{fmt_u64, is_quit, parse_i64, trim_newlines};

fn trimmed(bytes: &[u8]) -> Vec<u8> {
    let mut v = bytes.to_vec();
    trim_newlines(&mut v);
    v
}

#[test]
fn trim_removes_trailing_line_endings_only() {
    assert_eq!(trimmed(b"12\n"), b"12".to_vec());
    assert_eq!(trimmed(b"12\r\n"), b"12".to_vec());
    assert_eq!(trimmed(b"\n\r\n"), Vec::<u8>::new());
    assert_eq!(trimmed(b"a\nb"), b"a\nb".to_vec());
    assert_eq!(trimmed(b""), Vec::<u8>::new());
    assert_eq!(trimmed(b" 12 \n"), b" 12 ".to_vec());
}

#[test]
fn quit_sentinels() {
    assert!(is_quit(&b"q".to_vec()));
    assert!(is_quit(&b"quit".to_vec()));
    assert!(!is_quit(&b"Q".to_vec()));
    assert!(!is_quit(&b"qq".to_vec()));
    assert!(!is_quit(&b"quit ".to_vec()));
    assert!(!is_quit(&b"".to_vec()));
}

#[test]
fn parse_accepts_signed_decimals() {
    assert_eq!(parse_i64(&b"10".to_vec()), Some(10));
    assert_eq!(parse_i64(&b"+7".to_vec()), Some(7));
    assert_eq!(parse_i64(&b"-4".to_vec()), Some(-4));
    assert_eq!(parse_i64(&b"0".to_vec()), Some(0));
    assert_eq!(parse_i64(&b"007".to_vec()), Some(7));
    assert_eq!(parse_i64(&b"9223372036854775807".to_vec()), Some(i64::MAX));
    assert_eq!(parse_i64(&b"-9223372036854775808".to_vec()), Some(i64::MIN));
}

#[test]
fn parse_rejects_malformed_text_and_overflow() {
    assert_eq!(parse_i64(&b"".to_vec()), None);
    assert_eq!(parse_i64(&b"+".to_vec()), None);
    assert_eq!(parse_i64(&b"-".to_vec()), None);
    assert_eq!(parse_i64(&b"--1".to_vec()), None);
    assert_eq!(parse_i64(&b"1 2".to_vec()), None);
    assert_eq!(parse_i64(&b"ten".to_vec()), None);
    assert_eq!(parse_i64(&b"12a".to_vec()), None);
    assert_eq!(parse_i64(&b"9223372036854775808".to_vec()), None);
    assert_eq!(parse_i64(&b"-9223372036854775809".to_vec()), None);
    assert_eq!(parse_i64(&b"99999999999999999999999999".to_vec()), None);
}

#[test]
fn formatting_round_trips_through_parsing() {
    for n in [0u64, 7, 10, 99, 100, 12345, 1_000_000_000] {
        let digits = fmt_u64(n);
        assert_eq!(parse_i64(&digits), Some(n as i64));
    }
    assert_eq!(fmt_u64(0), b"0".to_vec());
    assert_eq!(fmt_u64(1234), b"1234".to_vec());
}

#[test]
fn median_of_odd_and_even_lengths() {
    assert_eq!(compute_median(vec![100, 200, 300]), 200);
    assert_eq!(compute_median(vec![100, 200]), 150);
    assert_eq!(compute_median(vec![5]), 5);
    // the median sorts its input first
    assert_eq!(compute_median(vec![300, 100, 200]), 200);
    assert_eq!(compute_median(vec![200, 100]), 150);
    assert_eq!(compute_median(vec![4, 1, 3, 2]), 2);
}

#[test]
fn mean_truncates() {
    assert_eq!(compute_mean(&vec![100, 200]), 150);
    assert_eq!(compute_mean(&vec![1, 2]), 1);
    assert_eq!(compute_mean(&vec![7]), 7);
}

#[test]
fn accuracy_handles_zero_attempts() {
    assert_eq!(accuracy_rate(0, 0), 0);
    assert_eq!(accuracy_rate(1, 2), 33);
    assert_eq!(accuracy_rate(3, 0), 100);
    assert_eq!(accuracy_rate(0, 5), 0);
}

#[test]
fn setup_maps_symbols_and_discards_unrecognised() {
    let level = Level {
        functions: b"+x-/?*".to_vec(),
        operands_digits: vec![1, 2],
        timeout: 20,
    };
    let game = setup_game(&level).expect("a usable level");
    assert_eq!(game.ops, vec![Op::Add, Op::Sub, Op::Div, Op::Mul]);
    assert_eq!(game.max_a, 10);
    assert_eq!(game.max_b, 100);
}

#[test]
fn setup_errors() {
    let missing = Level { functions: b"+".to_vec(), operands_digits: vec![2], timeout: 0 };
    assert!(matches!(setup_game(&missing), Err(SetupError::MissingOperandRange)));

    let zero_digits = Level { functions: b"+".to_vec(), operands_digits: vec![0, 3], timeout: 0 };
    assert!(matches!(setup_game(&zero_digits), Err(SetupError::BadDigits)));

    let too_wide = Level { functions: b"+".to_vec(), operands_digits: vec![2, 10], timeout: 0 };
    assert!(matches!(setup_game(&too_wide), Err(SetupError::BadDigits)));

    let no_ops = Level { functions: b"xy".to_vec(), operands_digits: vec![1, 1], timeout: 0 };
    assert!(matches!(setup_game(&no_ops), Err(SetupError::NoOperators)));
}

#[test]
fn random_problems_stay_in_their_ranges() {
    let game = Game { ops: vec![Op::Mul], max_a: 10, max_b: 100 };
    for _ in 0..100 {
        let p = random_problem(&game);
        assert!((1..10).contains(&p.a));
        assert!((1..100).contains(&p.b));
        assert_eq!(p.op, Op::Mul);
    }
}
