//! What a sequence of commands does: a big-step semantics over an unbounded tape.
//!
//! Loops are given fuel: each iteration of a loop costs one unit of the fuel that the loop
//! was started with, so a run that needs more iterations than its fuel ends in `OutOfFuel`.
use vstd::prelude::*;

use crate::optimize1::syntax_tree::{lemma_shift_ops_index, shift_op, shift_ops, Op};

verus! {

/// The state of a running program: an unbounded tape of byte cells, the pointer,
/// the input still to be read and the output written so far.
pub struct Machine {
    pub tape: spec_fn(int) -> u8,
    pub ptr: int,
    pub input: Seq<u8>,
    pub output: Seq<u8>,
}

/// How a run ends.
pub enum Outcome {
    /// The commands ran to their end.
    Done(Machine),
    /// A command read from an exhausted input; the output written before it.
    InputFailed(Seq<u8>),
    /// A loop needed more iterations than its fuel; the output written before it.
    OutOfFuel(Seq<u8>),
}

/// Addition modulo 256.
pub open spec fn wrap(x: int) -> u8 {
    (x % 256) as u8
}

/// The cell at offset `off` from the pointer.
pub open spec fn cell(m: Machine, off: int) -> u8 {
    (m.tape)(m.ptr + off)
}

/// The machine with the cell at offset `off` set to `v`.
pub open spec fn set_cell(m: Machine, off: int, v: u8) -> Machine {
    Machine {
        tape: |i: int|
            if i == m.ptr + off {
                v
            } else {
                (m.tape)(i)
            },
        ..m
    }
}

/// The machine with the pointer moved by `d`.
pub open spec fn move_ptr(m: Machine, d: int) -> Machine {
    Machine { ptr: m.ptr + d, ..m }
}

/// Runs one command.
pub open spec fn run_op(c: Op, m: Machine, fuel: nat) -> Outcome
    decreases fuel, c,
{
    match c {
        Op::Add { ptr, op } => Outcome::Done(set_cell(m, ptr, wrap(cell(m, ptr) + op))),
        Op::Move { diff } => Outcome::Done(move_ptr(m, diff)),
        Op::Output { ptr } => Outcome::Done(Machine { output: m.output.push(cell(m, ptr)), ..m }),
        Op::Input { ptr } => {
            if m.input.len() == 0 {
                Outcome::InputFailed(m.output)
            } else {
                Outcome::Done(set_cell(Machine { input: m.input.drop_first(), ..m }, ptr, m.input[0]))
            }
        },
        Op::Loop { body, ptr } => run_loop(body, ptr, m, fuel),
    }
}

/// Runs a loop: while the cell at offset `ptr` is not zero, runs `body`.
pub open spec fn run_loop(body: Seq<Op>, ptr: int, m: Machine, fuel: nat) -> Outcome
    decreases fuel, body,
{
    if cell(m, ptr) == 0 {
        Outcome::Done(m)
    } else if fuel == 0 {
        Outcome::OutOfFuel(m.output)
    } else {
        match run_ops(body, m, (fuel - 1) as nat) {
            Outcome::Done(m2) => run_loop(body, ptr, m2, (fuel - 1) as nat),
            other => other,
        }
    }
}

/// Runs a sequence of commands, first to last.
pub open spec fn run_ops(s: Seq<Op>, m: Machine, fuel: nat) -> Outcome
    decreases fuel, s,
{
    if s.len() == 0 {
        Outcome::Done(m)
    } else {
        proof {
            assert(decreases_to!(s => s[0]));
        }
        match run_op(s[0], m, fuel) {
            Outcome::Done(m1) => run_ops(s.subrange(1, s.len() as int), m1, fuel),
            other => other,
        }
    }
}

/// Continues a run with `s` when it has not ended yet.
pub open spec fn then_run(o: Outcome, s: Seq<Op>, fuel: nat) -> Outcome {
    match o {
        Outcome::Done(m) => run_ops(s, m, fuel),
        other => other,
    }
}

/// The outcome with the pointer of a finished run moved by `d`.
pub open spec fn move_outcome(o: Outcome, d: int) -> Outcome {
    match o {
        Outcome::Done(m) => Outcome::Done(move_ptr(m, d)),
        other => other,
    }
}

// ---------------------------------------------------------------------------
// Lemmas
// ---------------------------------------------------------------------------

/// Running `a + b` is running `a` and then `b`.
pub proof fn lemma_run_ops_concat(a: Seq<Op>, b: Seq<Op>, m: Machine, fuel: nat)
    ensures
        run_ops(a + b, m, fuel) == then_run(run_ops(a, m, fuel), b, fuel),
    decreases a.len(),
{
    if a.len() == 0 {
        assert(a + b =~= b);
    } else {
        assert((a + b)[0] == a[0]);
        assert((a + b).subrange(1, (a + b).len() as int) =~= a.subrange(1, a.len() as int) + b);
        match run_op(a[0], m, fuel) {
            Outcome::Done(m1) => {
                lemma_run_ops_concat(a.subrange(1, a.len() as int), b, m1, fuel);
            },
            _ => {},
        }
    }
}

/// Running a single command as a sequence.
pub proof fn lemma_run_ops_single(c: Op, m: Machine, fuel: nat)
    ensures
        run_ops(seq![c], m, fuel) == run_op(c, m, fuel),
{
    assert(seq![c].subrange(1, 1) =~= Seq::<Op>::empty());
    match run_op(c, m, fuel) {
        Outcome::Done(m1) => {
            assert(run_ops(Seq::<Op>::empty(), m1, fuel) == Outcome::Done(m1));
        },
        _ => {},
    }
}

/// The head and tail of shifted commands are the shifted head and tail.
pub proof fn lemma_shift_ops_head_tail(s: Seq<Op>, d: int)
    requires
        s.len() > 0,
    ensures
        shift_ops(s, d).len() == s.len(),
        shift_ops(s, d)[0] == shift_op(s[0], d),
        shift_ops(s, d).subrange(1, s.len() as int) == shift_ops(s.subrange(1, s.len() as int), d),
{
    lemma_shift_ops_index(s, d);
    let t = s.subrange(1, s.len() as int);
    lemma_shift_ops_index(t, d);
    assert(shift_ops(s, d).subrange(1, s.len() as int) =~= shift_ops(t, d));
}

/// Running commands shifted by `d` is running the commands with the pointer `d` further
/// to the right, and moving it back at the end.
pub proof fn lemma_run_shifted(s: Seq<Op>, d: int, m: Machine, fuel: nat)
    ensures
        move_outcome(run_ops(shift_ops(s, d), m, fuel), d) == run_ops(s, move_ptr(m, d), fuel),
    decreases fuel, s,
{
    if s.len() == 0 {
        assert(shift_ops(s, d) =~= Seq::<Op>::empty());
    } else {
        lemma_shift_ops_head_tail(s, d);
        let t = s.subrange(1, s.len() as int);
        assert(decreases_to!(s => s[0]));
        lemma_run_shifted_op(s[0], d, m, fuel);
        match run_op(shift_op(s[0], d), m, fuel) {
            Outcome::Done(m1) => {
                lemma_run_shifted(t, d, m1, fuel);
            },
            _ => {},
        }
    }
}

/// One command of [`lemma_run_shifted`].
pub proof fn lemma_run_shifted_op(c: Op, d: int, m: Machine, fuel: nat)
    ensures
        move_outcome(run_op(shift_op(c, d), m, fuel), d) == run_op(c, move_ptr(m, d), fuel),
    decreases fuel, c,
{
    let md = move_ptr(m, d);
    match c {
        Op::Add { ptr, op } => {
            assert(move_ptr(set_cell(m, ptr + d, wrap(cell(m, ptr + d) + op)), d) == set_cell(
                md,
                ptr,
                wrap(cell(md, ptr) + op),
            )) by {
                assert(move_ptr(set_cell(m, ptr + d, wrap(cell(m, ptr + d) + op)), d).tape =~= set_cell(
                    md,
                    ptr,
                    wrap(cell(md, ptr) + op),
                ).tape);
            }
        },
        Op::Move { diff } => {},
        Op::Output { ptr } => {},
        Op::Input { ptr } => {
            if m.input.len() > 0 {
                let mi = Machine { input: m.input.drop_first(), ..m };
                let mdi = Machine { input: md.input.drop_first(), ..md };
                assert(move_ptr(set_cell(mi, ptr + d, m.input[0]), d).tape =~= set_cell(
                    mdi,
                    ptr,
                    m.input[0],
                ).tape);
            }
        },
        Op::Loop { body, ptr } => {
            lemma_run_shifted_loop(body, ptr, d, m, fuel);
        },
    }
}

/// A loop of [`lemma_run_shifted`].
pub proof fn lemma_run_shifted_loop(body: Seq<Op>, ptr: int, d: int, m: Machine, fuel: nat)
    ensures
        move_outcome(run_loop(shift_ops(body, d), ptr + d, m, fuel), d) == run_loop(
            body,
            ptr,
            move_ptr(m, d),
            fuel,
        ),
    decreases fuel, body,
{
    if cell(m, ptr + d) == 0 {
    } else if fuel == 0 {
    } else {
        let f = (fuel - 1) as nat;
        lemma_run_shifted(body, d, m, f);
        match run_ops(shift_ops(body, d), m, f) {
            Outcome::Done(m2) => {
                lemma_run_shifted_loop(body, ptr, d, m2, f);
            },
            _ => {},
        }
    }
}

/// A run that did not run out of fuel ends the same with more fuel.
pub proof fn lemma_run_ops_mono(s: Seq<Op>, m: Machine, f: nat, g: nat)
    requires
        f <= g,
        !(run_ops(s, m, f) is OutOfFuel),
    ensures
        run_ops(s, m, g) == run_ops(s, m, f),
    decreases f, s,
{
    if s.len() > 0 {
        assert(decreases_to!(s => s[0]));
        lemma_run_op_mono(s[0], m, f, g);
        match run_op(s[0], m, f) {
            Outcome::Done(m1) => {
                lemma_run_ops_mono(s.subrange(1, s.len() as int), m1, f, g);
            },
            _ => {},
        }
    }
}

/// One command of [`lemma_run_ops_mono`].
pub proof fn lemma_run_op_mono(c: Op, m: Machine, f: nat, g: nat)
    requires
        f <= g,
        !(run_op(c, m, f) is OutOfFuel),
    ensures
        run_op(c, m, g) == run_op(c, m, f),
    decreases f, c,
{
    match c {
        Op::Loop { body, ptr } => {
            lemma_run_loop_mono(body, ptr, m, f, g);
        },
        _ => {},
    }
}

/// A loop of [`lemma_run_ops_mono`].
pub proof fn lemma_run_loop_mono(body: Seq<Op>, ptr: int, m: Machine, f: nat, g: nat)
    requires
        f <= g,
        !(run_loop(body, ptr, m, f) is OutOfFuel),
    ensures
        run_loop(body, ptr, m, g) == run_loop(body, ptr, m, f),
    decreases f, body,
{
    if cell(m, ptr) != 0 {
        let f1 = (f - 1) as nat;
        let g1 = (g - 1) as nat;
        lemma_run_ops_mono(body, m, f1, g1);
        match run_ops(body, m, f1) {
            Outcome::Done(m2) => {
                lemma_run_loop_mono(body, ptr, m2, f1, g1);
            },
            _ => {},
        }
    }
}

/// Two runs of the same commands from the same machine that both end without running out
/// of fuel end the same, whatever fuel each was given.
pub proof fn lemma_run_ops_deterministic(s: Seq<Op>, m: Machine, f: nat, g: nat)
    requires
        !(run_ops(s, m, f) is OutOfFuel),
        !(run_ops(s, m, g) is OutOfFuel),
    ensures
        run_ops(s, m, f) == run_ops(s, m, g),
{
    if f <= g {
        lemma_run_ops_mono(s, m, f, g);
    } else {
        lemma_run_ops_mono(s, m, g, f);
    }
}

} // verus!
