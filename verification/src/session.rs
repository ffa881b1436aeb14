//! The round evaluator and session state machine: each round takes the
//! previous session state by value and yields a fresh state snapshot plus a
//! notice for the presentation layer.

use vstd::prelude::*;

use crate::multiplier::{full_multiplier, full_multiplier_spec, lemma_full_multiplier_zero_iff_timeout};
use crate::round::{Round, RoundView};
use crate::text::{is_quit, is_quit_spec, parse_i64, parse_i64_spec, trim_newlines, trim_newlines_spec};

verus! {

/// Points granted per unit of multiplier on a correct answer, and forfeited
/// on an incorrect one.
pub const BASE_POINTS: i64 = 1;

/// No single round can change the score by more than this: the multiplier
/// is at most 4000 and the combo at most 11.
pub const MAX_ROUND_DELTA: i64 = 44_000;

/// A session ends on its tenth attempt.
pub const ATTEMPT_LIMIT: u64 = 10;

/// The mathematical content of a session state.
#[verifier::ext_equal]
pub struct SessionView {
    pub times: Seq<u64>,
    pub correct: nat,
    pub incorrect: nat,
    pub attempts: nat,
    pub combo: nat,
    pub max_combo: nat,
    pub score: int,
    pub is_finished: bool,
}

impl SessionView {
    /// Invariants of every reachable session state: attempts split into
    /// correct and incorrect answers, the combo counts consecutive correct
    /// answers starting from one, the score is non-negative and bounded by
    /// the rounds played, and an unfinished session has attempts to spare.
    pub open spec fn wf(self) -> bool {
        &&& self.attempts == self.correct + self.incorrect
        &&& 1 <= self.combo <= self.correct + 1
        &&& self.max_combo <= self.correct + 1
        &&& self.attempts <= ATTEMPT_LIMIT
        &&& (!self.is_finished ==> self.attempts < ATTEMPT_LIMIT)
        &&& 0 <= self.score <= MAX_ROUND_DELTA * self.attempts
        &&& self.times.len() == self.attempts
    }

    /// The state a session starts in: everything zero, except the combo,
    /// which by convention starts at one.
    pub open spec fn initial() -> SessionView {
        SessionView {
            times: Seq::empty(),
            correct: 0,
            incorrect: 0,
            attempts: 0,
            combo: 1,
            max_combo: 0,
            score: 0,
            is_finished: false,
        }
    }
}

/// The mutable accumulator threaded through rounds. Never mutated in
/// place: each round consumes the previous state and produces a new one.
pub struct State {
    pub times: Vec<u64>,
    pub correct: u64,
    pub incorrect: u64,
    pub attempts: u64,
    pub combo: u64,
    pub max_combo: u64,
    pub score: i64,
    pub is_finished: bool,
}

impl View for State {
    type V = SessionView;

    open spec fn view(&self) -> SessionView {
        SessionView {
            times: self.times@,
            correct: self.correct as nat,
            incorrect: self.incorrect as nat,
            attempts: self.attempts as nat,
            combo: self.combo as nat,
            max_combo: self.max_combo as nat,
            score: self.score as int,
            is_finished: self.is_finished,
        }
    }
}

impl State {
    pub open spec fn wf(self) -> bool {
        self@.wf()
    }
}

/// Builds the state a session starts in.
pub fn initial_state() -> (s: State)
    ensures
        s@ == SessionView::initial(),
        s.wf(),
{
    let s = State {
        times: Vec::new(),
        correct: 0,
        incorrect: 0,
        attempts: 0,
        combo: 1,
        max_combo: 0,
        score: 0,
        is_finished: false,
    };
    proof {
        assert(s@ =~= SessionView::initial());
    }
    s
}

/// The response latency recorded for a round, in milliseconds.
pub open spec fn latency_ms_spec(r: RoundView) -> u64 {
    (r.elapsed_ns() / 1_000_000) as u64
}

/// What the round's trimmed input parses to, if anything.
pub open spec fn round_answer(r: RoundView) -> Option<i64> {
    parse_i64_spec(trim_newlines_spec(r.input))
}

/// The round's answer parsed and matched the problem's true result.
pub open spec fn answered_correctly(r: RoundView) -> bool {
    match round_answer(r) {
        Option::Some(v) => v == r.problem.answer_spec(),
        Option::None => false,
    }
}

/// The round asks the session to terminate: a quit sentinel was typed, or
/// this attempt reaches the limit.
pub open spec fn round_terminates(s: SessionView, r: RoundView) -> bool {
    is_quit_spec(trim_newlines_spec(r.input)) || s.attempts + 1 >= ATTEMPT_LIMIT
}

/// The state after an incorrect answer: one more incorrect attempt, the
/// combo reset to one, the base points forfeited with the score floored
/// at zero. The latency append and the quit check are the caller's.
pub open spec fn produce_incorrect_spec(s: SessionView) -> SessionView {
    SessionView {
        times: s.times,
        correct: s.correct,
        incorrect: s.incorrect + 1,
        attempts: s.attempts + 1,
        combo: 1,
        max_combo: s.max_combo,
        score: if s.score >= BASE_POINTS {
            s.score - BASE_POINTS
        } else {
            0
        },
        is_finished: s.attempts + 1 >= ATTEMPT_LIMIT,
    }
}

/// The state after a correct answer: one more correct attempt, the combo
/// extended, the maximum combo updated, and the round's point value --
/// base points times multiplier times new combo -- added to the score.
pub open spec fn produce_correct_spec(s: SessionView, r: RoundView) -> SessionView {
    let combo2 = s.combo + 1;
    let delta = (BASE_POINTS as int) * (full_multiplier_spec(r) as int) * (combo2 as int);
    SessionView {
        times: s.times,
        correct: s.correct + 1,
        incorrect: s.incorrect,
        attempts: s.attempts + 1,
        combo: combo2,
        max_combo: if combo2 > s.max_combo {
            combo2
        } else {
            s.max_combo
        },
        score: s.score + delta,
        is_finished: s.attempts + 1 >= ATTEMPT_LIMIT,
    }
}

/// One transition of the session state machine: the state after the round,
/// with the latency recorded and the termination decision taken.
pub open spec fn step_spec(s: SessionView, r: RoundView) -> SessionView {
    let core = if answered_correctly(r) {
        produce_correct_spec(s, r)
    } else {
        produce_incorrect_spec(s)
    };
    SessionView {
        times: s.times.push(latency_ms_spec(r)),
        is_finished: round_terminates(s, r),
        ..core
    }
}

/// What the presentation layer is told about a round: either the answer was
/// a number -- with the correctness mark, multiplier, point delta, resulting
/// combo, new score, the true answer, and whether the round timed out -- or
/// it was not.
#[derive(Clone, Copy, PartialEq, Eq, Structural, Debug)]
pub enum Notice {
    Answered {
        correct: bool,
        mult: u64,
        pending: i64,
        delta: i64,
        combo: u64,
        score: i64,
        expected: i64,
        timeout: bool,
    },
    NotANumber,
}

/// The notice produced for a round.
pub open spec fn notice_spec(s: SessionView, r: RoundView) -> Notice {
    match round_answer(r) {
        Option::Some(v) => {
            let next = step_spec(s, r);
            let mult = full_multiplier_spec(r);
            Notice::Answered {
                correct: v == r.problem.answer_spec(),
                mult: mult as u64,
                pending: ((BASE_POINTS as int) * (mult as int)) as i64,
                delta: (next.score - s.score) as i64,
                combo: next.combo as u64,
                score: next.score as i64,
                expected: r.problem.answer_spec() as i64,
                timeout: mult == 0,
            }
        },
        Option::None => Notice::NotANumber,
    }
}

/// A transition preserves the session invariants.
pub proof fn lemma_step_spec_wf(s: SessionView, r: RoundView)
    requires
        s.wf(),
        !s.is_finished,
        r.wf(),
    ensures
        step_spec(s, r).wf(),
        step_spec(s, r).attempts == s.attempts + 1,
        step_spec(s, r).score >= 0,
{
    lemma_full_multiplier_zero_iff_timeout(r);
    let mult = full_multiplier_spec(r) as int;
    let combo2 = (s.combo + 1) as int;
    assert(0 <= mult * combo2 <= 44_000) by (nonlinear_arith)
        requires
            0 <= mult <= 4000,
            0 <= combo2 <= 11,
    ;
}

/// Feeds a sequence of rounds through the state machine, stopping as soon
/// as the state is finished: no transition is defined out of a finished
/// state.
pub open spec fn run_spec(s: SessionView, rounds: Seq<RoundView>) -> SessionView
    decreases rounds.len(),
{
    if rounds.len() == 0 || s.is_finished {
        s
    } else {
        run_spec(step_spec(s, rounds[0]), rounds.drop_first())
    }
}

pub open spec fn all_wf_rounds(rounds: Seq<RoundView>) -> bool {
    forall|i: int| 0 <= i < rounds.len() ==> (#[trigger] rounds[i]).wf()
}

/// Invariants over whole sessions: for every sequence of rounds, the state
/// keeps its invariants; in particular the score is never negative after a
/// round completes, the attempts always split into correct plus incorrect
/// answers, and a session never records more than ten attempts.
pub proof fn lemma_run_spec_wf(s: SessionView, rounds: Seq<RoundView>)
    requires
        s.wf(),
        all_wf_rounds(rounds),
    ensures
        run_spec(s, rounds).wf(),
        run_spec(s, rounds).score >= 0,
        run_spec(s, rounds).attempts == run_spec(s, rounds).correct + run_spec(
            s,
            rounds,
        ).incorrect,
        run_spec(s, rounds).attempts <= ATTEMPT_LIMIT,
    decreases rounds.len(),
{
    if rounds.len() == 0 || s.is_finished {
    } else {
        assert(rounds[0].wf());
        lemma_step_spec_wf(s, rounds[0]);
        assert(all_wf_rounds(rounds.drop_first())) by {
            assert forall|i: int|
                0 <= i < rounds.drop_first().len() implies (#[trigger] rounds.drop_first()[i]).wf()
            by {
                assert(rounds.drop_first()[i] == rounds[i + 1]);
            }
        }
        lemma_run_spec_wf(step_spec(s, rounds[0]), rounds.drop_first());
    }
}

/// The combo law for one round: an incorrect answer resets the combo to
/// exactly one, a correct answer extends it by one.
pub proof fn lemma_step_combo(s: SessionView, r: RoundView)
    ensures
        answered_correctly(r) ==> step_spec(s, r).combo == s.combo + 1,
        !answered_correctly(r) ==> step_spec(s, r).combo == 1,
{
}

/// A quit sentinel is not a numeral, so a quit round is never a correct
/// answer.
pub proof fn lemma_quit_not_numeral(t: Seq<u8>)
    requires
        is_quit_spec(t),
    ensures
        parse_i64_spec(t) == Option::<i64>::None,
{
    assert(t[0] == 113);
    assert(!crate::text::all_digits(t));
}

/// Consecutive correct answers: starting from any live state, a run of N
/// correctly answered rounds that fits within the attempt limit raises
/// the combo by exactly N, and finishes the session exactly when the
/// limit is reached.
pub proof fn lemma_combo_counts(s: SessionView, rounds: Seq<RoundView>)
    requires
        !s.is_finished,
        s.attempts < ATTEMPT_LIMIT,
        forall|i: int| 0 <= i < rounds.len() ==> answered_correctly(#[trigger] rounds[i]),
        s.attempts + rounds.len() <= ATTEMPT_LIMIT,
    ensures
        run_spec(s, rounds).combo == s.combo + rounds.len(),
        run_spec(s, rounds).is_finished <==> s.attempts + rounds.len() >= ATTEMPT_LIMIT,
    decreases rounds.len(),
{
    if rounds.len() == 0 {
    } else {
        let r = rounds[0];
        assert(answered_correctly(r));
        let t = trim_newlines_spec(r.input);
        assert(!is_quit_spec(t)) by {
            if is_quit_spec(t) {
                lemma_quit_not_numeral(t);
            }
        }
        if rounds.len() == 1 {
            assert(rounds.drop_first().len() == 0);
            assert(run_spec(step_spec(s, r), rounds.drop_first()) == step_spec(s, r));
        } else {
            assert(forall|i: int|
                0 <= i < rounds.drop_first().len() ==> answered_correctly(
                    #[trigger] rounds.drop_first()[i],
                )) by {
                assert forall|i: int|
                    0 <= i < rounds.drop_first().len() implies answered_correctly(
                    #[trigger] rounds.drop_first()[i],
                ) by {
                    assert(rounds.drop_first()[i] == rounds[i + 1]);
                }
            }
            lemma_combo_counts(step_spec(s, r), rounds.drop_first());
        }
    }
}

/// Termination on quit: a round carrying a quit sentinel finishes the
/// session, and no later round is evaluated -- the run collapses to that
/// single step.
pub proof fn lemma_quit_terminates(s: SessionView, r: RoundView, rest: Seq<RoundView>)
    requires
        !s.is_finished,
        is_quit_spec(trim_newlines_spec(r.input)),
    ensures
        step_spec(s, r).is_finished,
        run_spec(s, seq![r] + rest) == step_spec(s, r),
{
    let rs = seq![r] + rest;
    assert(rs[0] == r);
    assert(rs.drop_first() =~= rest);
    assert(run_spec(step_spec(s, r), rest) == step_spec(s, r));
}

/// Termination on the attempt limit: the round that brings the attempt
/// count to ten finishes the session even without a quit sentinel.
pub proof fn lemma_attempt_limit(s: SessionView, r: RoundView)
    requires
        s.attempts + 1 >= ATTEMPT_LIMIT,
    ensures
        step_spec(s, r).is_finished,
{
}

/// Scores an incorrect answer: one more incorrect attempt, the combo reset
/// to one, and the base points forfeited with the score floored at zero.
pub fn produce_incorrect(s: &State) -> (ns: State)
    requires
        s.attempts < u64::MAX,
        s.incorrect < u64::MAX,
    ensures
        ns@ == produce_incorrect_spec(s@),
{
    let times = s.times.clone();
    proof {
        assert(times@ =~= s.times@);
    }
    let ns = State {
        times,
        correct: s.correct,
        incorrect: s.incorrect + 1,
        attempts: s.attempts + 1,
        combo: 1,
        max_combo: s.max_combo,
        score: if s.score >= BASE_POINTS {
            s.score - BASE_POINTS
        } else {
            0
        },
        is_finished: s.attempts + 1 >= ATTEMPT_LIMIT,
    };
    proof {
        assert(ns@ =~= produce_incorrect_spec(s@));
    }
    ns
}

/// Evaluates one round against the current session state: trims the typed
/// line, checks the quit sentinel and the attempt limit, parses the answer,
/// scores it, and returns the next state snapshot together with the notice
/// for the presentation layer.
pub fn handle_input(r: Round, s: State) -> (res: (State, Notice))
    requires
        s.wf(),
        !s.is_finished,
        r.wf(),
    ensures
        res.0@ == step_spec(s@, r@),
        res.0.wf(),
        res.1 == notice_spec(s@, r@),
{
    proof {
        lemma_step_spec_wf(s@, r@);
        lemma_full_multiplier_zero_iff_timeout(r@);
    }
    let mult = full_multiplier(&r);
    let lat: u64 = (r.end - r.start) / 1_000_000;
    let expected = r.problem.answer();
    let mut input = r.input;
    trim_newlines(&mut input);
    let quit = is_quit(&input);
    let parsed = parse_i64(&input);
    let attempts2 = s.attempts + 1;
    let terminating = quit || attempts2 >= ATTEMPT_LIMIT;
    match parsed {
        Option::Some(v) => {
            let pending = BASE_POINTS * (mult as i64);
            if v == expected {
                let combo2 = s.combo + 1;
                proof {
                    assert(0 <= pending * (combo2 as i64) <= 44_000) by (nonlinear_arith)
                        requires
                            0 <= pending <= 4000,
                            1 <= combo2 <= 11,
                    ;
                }
                let delta = pending * (combo2 as i64);
                let new_score = s.score + delta;
                let new_max = if combo2 > s.max_combo {
                    combo2
                } else {
                    s.max_combo
                };
                let mut times = s.times;
                times.push(lat);
                let ns = State {
                    times,
                    correct: s.correct + 1,
                    incorrect: s.incorrect,
                    attempts: attempts2,
                    combo: combo2,
                    max_combo: new_max,
                    score: new_score,
                    is_finished: terminating,
                };
                let notice = Notice::Answered {
                    correct: true,
                    mult,
                    pending,
                    delta,
                    combo: combo2,
                    score: new_score,
                    expected,
                    timeout: mult == 0,
                };
                proof {
                    assert(ns@ =~= step_spec(s@, r@));
                }
                (ns, notice)
            } else {
                let mut ns = produce_incorrect(&s);
                ns.times.push(lat);
                if quit {
                    ns.is_finished = true;
                }
                let delta = ns.score - s.score;
                let notice = Notice::Answered {
                    correct: false,
                    mult,
                    pending,
                    delta,
                    combo: ns.combo,
                    score: ns.score,
                    expected,
                    timeout: mult == 0,
                };
                proof {
                    assert(ns@ =~= step_spec(s@, r@));
                }
                (ns, notice)
            }
        },
        Option::None => {
            let mut ns = produce_incorrect(&s);
            ns.times.push(lat);
            if quit {
                ns.is_finished = true;
            }
            proof {
                assert(ns@ =~= step_spec(s@, r@));
            }
            (ns, Notice::NotANumber)
        },
    }
}

} // verus!
