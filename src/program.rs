//! The FRACTRAN engine: a program steps by multiplying its state by the first
//! instruction that keeps it an integer, and halts when none does.

use vstd::prelude::*;
use crate::rational::{Rational, reduce_pair, fits_i64};

verus! {

/// What one step of a program does.
#[derive(Debug, Clone, Copy, PartialEq, Eq, Structural)]
pub enum Step {
    /// An instruction applied; the state becomes this value.
    Next(i64),
    /// No instruction gives an integer: the program has halted.
    Halt,
    /// The product of the state and an instruction's numerator, met before
    /// any instruction applied, does not fit in an `i64`.
    Overflow,
}

/// The step taken from `state` when the scan reaches instruction `i`.
pub open spec fn step_from(fracs: Seq<(int, int)>, state: int, i: nat) -> Step
    decreases fracs.len() - i,
{
    if i >= fracs.len() {
        Step::Halt
    } else {
        let p = fracs[i as int].0 * state;
        let r = reduce_pair((p, fracs[i as int].1));
        if !fits_i64(p) {
            Step::Overflow
        } else if r.1 == 1 {
            Step::Next(r.0 as i64)
        } else {
            step_from(fracs, state, i + 1)
        }
    }
}

/// The step taken from `state`: the first instruction whose product with
/// the state reduces to denominator 1 gives the new state.
pub open spec fn step_of(fracs: Seq<(int, int)>, state: int) -> Step {
    step_from(fracs, state, 0)
}

/// The state after one step from `state`: the new state, or `state` itself
/// when the step does not apply an instruction.
pub open spec fn step_state(fracs: Seq<(int, int)>, state: int) -> int {
    match step_of(fracs, state) {
        Step::Next(v) => v as int,
        _ => state,
    }
}

/// The state after `n` steps from `state`.
pub open spec fn steps_state(fracs: Seq<(int, int)>, state: int, n: nat) -> int
    decreases n,
{
    if n == 0 {
        state
    } else {
        steps_state(fracs, step_state(fracs, state), (n - 1) as nat)
    }
}

/// Once a program has halted it stays halted: every later step halts again
/// and leaves the state as it was.
pub proof fn lemma_halt_is_terminal(fracs: Seq<(int, int)>, state: int, n: nat)
    requires
        step_of(fracs, state) == Step::Halt,
    ensures
        steps_state(fracs, state, n) == state,
        step_of(fracs, steps_state(fracs, state, n)) == Step::Halt,
    decreases n,
{
    if n > 0 {
        lemma_halt_is_terminal(fracs, state, (n - 1) as nat);
    }
}

/// The step from `state` over `fracs`, with no change to anything.
fn step_outcome(fracs: &Vec<Rational>, state: i64) -> (r: Step)
    ensures
        r == step_of(fracs@.map_values(|f: Rational| f@), state as int),
{
    let ghost fs = fracs@.map_values(|f: Rational| f@);
    let mut i: usize = 0;
    while i < fracs.len()
        invariant
            i <= fracs.len(),
            fs == fracs@.map_values(|f: Rational| f@),
            step_of(fs, state as int) == step_from(fs, state as int, i as nat),
        decreases fracs.len() - i,
    {
        match fracs[i].multiply_by_integer(state) {
            None => {
                return Step::Overflow;
            },
            Some(g) => {
                match g.as_integer() {
                    Some(v) => {
                        return Step::Next(v);
                    },
                    None => {},
                }
            },
        }
        i += 1;
    }
    Step::Halt
}

/// A FRACTRAN program: instructions in order of priority, and the state.
#[derive(Debug)]
pub struct Program {
    fracs: Vec<Rational>,
    state: i64,
}

impl View for Program {
    type V = (Seq<(int, int)>, i64);

    /// The instructions, each as (numerator, denominator), and the state.
    closed spec fn view(&self) -> (Seq<(int, int)>, i64) {
        (self.fracs@.map_values(|f: Rational| f@), self.state)
    }
}

impl Program {
    /// A program with these instructions and this initial state.
    pub fn new(instructions: Vec<Rational>, state: i64) -> (r: Program)
        ensures
            r@ == (instructions@.map_values(|f: Rational| f@), state),
    {
        Program { fracs: instructions, state }
    }

    /// The instructions, in order of priority.
    pub fn instructions(&self) -> (r: &Vec<Rational>)
        ensures
            r@.map_values(|f: Rational| f@) == self@.0,
    {
        &self.fracs
    }

    /// The current state.
    pub fn state(&self) -> (r: i64)
        ensures
            r == self@.1,
    {
        self.state
    }

    /// Scans the instructions in order and applies the first whose product
    /// with the state is an integer, which becomes the new state. The state
    /// changes only on `Step::Next`.
    pub fn step(&mut self) -> (r: Step)
        ensures
            r == step_of(old(self)@.0, old(self)@.1 as int),
            final(self)@.0 == old(self)@.0,
            final(self)@.1 as int == step_state(old(self)@.0, old(self)@.1 as int),
    {
        let r = step_outcome(&self.fracs, self.state);
        if let Step::Next(v) = r {
            self.state = v;
        }
        r
    }

    /// The next state, or `None` when the program halts or overflows; then
    /// the state is left as it was.
    pub fn next(&mut self) -> (r: Option<i64>)
        ensures
            r == (match step_of(old(self)@.0, old(self)@.1 as int) {
                Step::Next(v) => Some(v),
                _ => None,
            }),
            final(self)@.0 == old(self)@.0,
            final(self)@.1 as int == step_state(old(self)@.0, old(self)@.1 as int),
    {
        match self.step() {
            Step::Next(v) => Some(v),
            _ => None,
        }
    }
}

/// Where a run stands.
#[derive(Debug, Clone, Copy, PartialEq, Eq, Structural)]
pub enum Phase {
    /// The initial state has not been handed out yet.
    Initial,
    /// The program is stepping.
    Running,
    /// No instruction applied: the run is over.
    Halted,
    /// A step overflowed: the run is over.
    Overflowed,
}

/// The sequence of states of a program, handed out one at a time: the
/// initial state, then the state after each step, until the program halts.
/// It drives the program it holds, so it can be walked only once.
#[derive(Debug)]
pub struct Run {
    program: Program,
    phase: Phase,
}

impl View for Run {
    type V = ((Seq<(int, int)>, i64), Phase);

    closed spec fn view(&self) -> ((Seq<(int, int)>, i64), Phase) {
        (self.program@, self.phase)
    }
}

/// The run of `prog`, from its current state.
pub fn run(prog: Program) -> (r: Run)
    ensures
        r@ == (prog@, Phase::Initial),
{
    Run { program: prog, phase: Phase::Initial }
}

impl Run {
    /// The next element of the sequence. The first call returns the
    /// program's state; each later one steps the program and returns the new
    /// state. Once a step finds no instruction, or overflows, the sequence
    /// has ended and every call returns `None` with nothing changed.
    pub fn next(&mut self) -> (r: Option<i64>)
        ensures
            final(self)@.0.0 == old(self)@.0.0,
            ({
                let (fracs, state) = old(self)@.0;
                match old(self)@.1 {
                    Phase::Initial => r == Some(state) && final(self)@ == (old(self)@.0, Phase::Running),
                    Phase::Running => match step_of(fracs, state as int) {
                        Step::Next(v) => r == Some(v) && final(self)@ == ((fracs, v), Phase::Running),
                        Step::Halt => r is None && final(self)@ == (old(self)@.0, Phase::Halted),
                        Step::Overflow => r is None && final(self)@ == (old(self)@.0, Phase::Overflowed),
                    },
                    _ => r is None && final(self)@ == old(self)@,
                }
            }),
    {
        match self.phase {
            Phase::Initial => {
                self.phase = Phase::Running;
                Some(self.program.state)
            },
            Phase::Running => {
                match self.program.step() {
                    Step::Next(v) => Some(v),
                    Step::Halt => {
                        self.phase = Phase::Halted;
                        None
                    },
                    Step::Overflow => {
                        self.phase = Phase::Overflowed;
                        None
                    },
                }
            },
            _ => None,
        }
    }

    /// Where the run stands.
    pub fn phase(&self) -> (r: Phase)
        ensures
            r == self@.1,
    {
        self.phase
    }

    /// The program, in the state the run has brought it to.
    pub fn into_program(self) -> (r: Program)
        ensures
            r@ == self@.0,
    {
        self.program
    }
}

} // verus!
