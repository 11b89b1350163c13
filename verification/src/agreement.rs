//! The step-by-step interpreters do what the program means.
//!
//! A run of an interpreter is its steps, with the input read from a sequence of bytes when
//! a step asks for it and the output collected, until the program halts, the input runs out,
//! a step cannot be taken, or a budget of steps is spent. When such a run halts or runs out
//! of input, the big-step meaning of the program (`run_ops`) ends the same way with enough
//! fuel. From this and the optimizer's law, both interpreters end a program the same way.
use vstd::prelude::*;

use crate::interpreter_with_syntree as plain;
use crate::interpreter_with_syntree::Action;
use crate::optimize1::optimize::{compress, lemma_compress_meaning};
use crate::optimize1::semantics::{
    lemma_run_ops_deterministic,
    lemma_run_ops_mono,
    run_loop,
    run_op,
    run_ops,
    wrap,
    Machine,
    Outcome,
};
use crate::optimize1::syntax_tree::{
    convert,
    convert_all,
    lemma_convert_all_index,
    lemma_view_commands_index,
    view_command,
    view_commands,
    Op,
};
use crate::optimize1::{
    advance,
    body_at,
    enclosing_loop_ptr,
    initial_run_state,
    next,
    steppable,
    valid_loops,
    valid_position,
    RunState,
};
use crate::syntax_tree::{lemma_last_bracket_unique, lemma_render_balanced, render, Command};

verus! {

// ---------------------------------------------------------------------------
// Runs of the interpreters
// ---------------------------------------------------------------------------

/// How a run of an interpreter ends.
pub enum RunEnd<S> {
    /// The program halted in `state`, with `input` left unread and `output` written.
    Halted { state: S, input: Seq<u8>, output: Seq<u8> },
    /// The program asked for input when none was left; the output written before.
    InputFailed(Seq<u8>),
    /// A step could not be taken, or the budget of steps was spent.
    Stopped,
}

/// The cell at offset `off` from the pointer is in the memory.
pub open spec fn in_memory(st: RunState, off: int) -> bool {
    0 <= st.ptr + off < st.memory.len()
}

/// The cells that the next step reads or writes are in the memory.
pub open spec fn touches_memory(s: Seq<Op>, st: RunState, pending: Option<u8>) -> bool {
    let loops = st.position.drop_last();
    let i = st.position.last() as int;
    let body = body_at(s, loops);
    if i < body.len() {
        match body[i] {
            Op::Add { ptr, op } => in_memory(st, ptr),
            Op::Move { diff } => true,
            Op::Output { ptr } => in_memory(st, ptr),
            Op::Input { ptr } => pending is Some ==> in_memory(st, ptr),
            Op::Loop { body, ptr } => in_memory(st, ptr),
        }
    } else if loops.len() == 0 {
        true
    } else {
        in_memory(st, enclosing_loop_ptr(s, st.position))
    }
}

/// A run of the steps of `s` on the model of memory, stopping only where a cell outside
/// the memory would be touched. `pending` is the byte read for the input command at the
/// position.
pub open spec fn drive_ops(
    s: Seq<Op>,
    st: RunState,
    pending: Option<u8>,
    input: Seq<u8>,
    output: Seq<u8>,
    n: nat,
) -> RunEnd<RunState>
    decreases n,
{
    if n == 0 || !touches_memory(s, st, pending) {
        RunEnd::Stopped
    } else {
        let (st2, a) = next(s, st, pending);
        match a {
            Action::Continue => drive_ops(s, st2, None, input, output, (n - 1) as nat),
            Action::Output(b) => drive_ops(s, st2, None, input, output.push(b), (n - 1) as nat),
            Action::NeedInput => {
                if input.len() == 0 {
                    RunEnd::InputFailed(output)
                } else {
                    drive_ops(s, st2, Some(input[0]), input.drop_first(), output, (n - 1) as nat)
                }
            },
            Action::Halt => RunEnd::Halted { state: st2, input, output },
        }
    }
}

/// A run of the optimizing interpreter on the program `s`: its steps, as long as they can
/// be taken.
pub open spec fn drive_optimized(
    s: Seq<Op>,
    st: RunState,
    pending: Option<u8>,
    input: Seq<u8>,
    output: Seq<u8>,
    n: nat,
) -> RunEnd<RunState>
    decreases n,
{
    if n == 0 || !steppable(s, st, pending) {
        RunEnd::Stopped
    } else {
        let (st2, a) = next(s, st, pending);
        match a {
            Action::Continue => drive_optimized(s, st2, None, input, output, (n - 1) as nat),
            Action::Output(b) => drive_optimized(
                s,
                st2,
                None,
                input,
                output.push(b),
                (n - 1) as nat,
            ),
            Action::NeedInput => {
                if input.len() == 0 {
                    RunEnd::InputFailed(output)
                } else {
                    drive_optimized(
                        s,
                        st2,
                        Some(input[0]),
                        input.drop_first(),
                        output,
                        (n - 1) as nat,
                    )
                }
            },
            Action::Halt => RunEnd::Halted { state: st2, input, output },
        }
    }
}

/// A run of the plain interpreter on the commands `cmds`: its steps, as long as they can
/// be taken.
pub open spec fn drive_plain(
    cmds: Seq<Command>,
    st: plain::State,
    pending: Option<u8>,
    input: Seq<u8>,
    output: Seq<u8>,
    n: nat,
) -> RunEnd<plain::State>
    decreases n,
{
    if n == 0 || !plain::steppable(cmds, st, pending) {
        RunEnd::Stopped
    } else {
        let (st2, a) = plain::next(cmds, st, pending);
        match a {
            Action::Continue => drive_plain(cmds, st2, None, input, output, (n - 1) as nat),
            Action::Output(b) => drive_plain(cmds, st2, None, input, output.push(b), (n - 1) as nat),
            Action::NeedInput => {
                if input.len() == 0 {
                    RunEnd::InputFailed(output)
                } else {
                    drive_plain(cmds, st2, Some(input[0]), input.drop_first(), output, (n - 1) as nat)
                }
            },
            Action::Halt => RunEnd::Halted { state: st2, input, output },
        }
    }
}

/// Every body of the command holds at most `usize::MAX` commands.
pub open spec fn op_lengths_fit(c: Op) -> bool
    decreases c, 0nat,
{
    match c {
        Op::Loop { body, ptr } => lengths_fit(body),
        _ => true,
    }
}

/// Every command of `s` has bodies of at most `usize::MAX` commands.
pub open spec fn elems_lengths_fit(s: Seq<Op>) -> bool
    decreases s, 0nat,
{
    if s.len() == 0 {
        true
    } else {
        proof {
            assert(decreases_to!(s => s[s.len() - 1]));
        }
        elems_lengths_fit(s.subrange(0, s.len() - 1)) && op_lengths_fit(s[s.len() - 1])
    }
}

/// `s` and every body in it hold at most `usize::MAX` commands, as every sequence of
/// commands that a `Vec` holds does.
pub open spec fn lengths_fit(s: Seq<Op>) -> bool
    decreases s, 1nat,
{
    &&& s.len() <= usize::MAX
    &&& elems_lengths_fit(s)
}

proof fn lemma_elems_lengths_fit_index(s: Seq<Op>, i: int)
    requires
        elems_lengths_fit(s),
        0 <= i < s.len(),
    ensures
        op_lengths_fit(s[i]),
    decreases s.len(),
{
    if i < s.len() - 1 {
        let p = s.subrange(0, s.len() - 1);
        lemma_elems_lengths_fit_index(p, i);
        assert(p[i] == s[i]);
    }
}

/// Every body that loop indices lead to holds at most `usize::MAX` commands.
pub proof fn lemma_body_at_fits(s: Seq<Op>, loops: Seq<usize>)
    requires
        lengths_fit(s),
    ensures
        lengths_fit(body_at(s, loops)),
    decreases loops.len(),
{
    if loops.len() > 0 {
        lemma_body_at_fits(s, loops.drop_last());
        let outer = body_at(s, loops.drop_last());
        let j = loops.last() as int;
        if 0 <= j < outer.len() {
            lemma_elems_lengths_fit_index(outer, j);
        } else {
            assert(elems_lengths_fit(Seq::<Op>::empty()));
        }
    }
}

// ---------------------------------------------------------------------------
// The meaning of a running state
// ---------------------------------------------------------------------------

/// The tape whose cells are the memory, and zero outside it.
pub open spec fn tape_of(memory: Seq<u8>) -> spec_fn(int) -> u8 {
    |i: int|
        if 0 <= i < memory.len() {
            memory[i]
        } else {
            0u8
        }
}

/// The input still to be read: the pending byte, then the rest.
pub open spec fn with_pending(pending: Option<u8>, input: Seq<u8>) -> Seq<u8> {
    match pending {
        Some(b) => seq![b] + input,
        None => input,
    }
}

/// The machine of a running state.
pub open spec fn machine_of(
    st: RunState,
    pending: Option<u8>,
    input: Seq<u8>,
    output: Seq<u8>,
) -> Machine {
    Machine { tape: tape_of(st.memory), ptr: st.ptr, input: with_pending(pending, input), output }
}

/// The machine at the start of a program: every cell zero, the pointer at zero, nothing
/// written yet.
pub open spec fn start_machine(input: Seq<u8>) -> Machine {
    Machine { tape: |i: int| 0u8, ptr: 0, input, output: seq![] }
}

/// Continues an outcome with what is left at `pos`.
pub open spec fn then_cont(o: Outcome, s: Seq<Op>, pos: Seq<usize>, f: nat) -> Outcome {
    match o {
        Outcome::Done(m) => cont(s, pos, m, f),
        other => other,
    }
}

/// What is left to run at `pos`: the rest of the innermost body; then the loop around it,
/// tested again; then the rest of the body around that loop; and so on outwards.
pub open spec fn cont(s: Seq<Op>, pos: Seq<usize>, m: Machine, f: nat) -> Outcome
    decreases pos.len(),
{
    if pos.len() == 0 {
        Outcome::Done(m)
    } else {
        let loops = pos.drop_last();
        let body = body_at(s, loops);
        let r = run_ops(body.subrange(pos.last() as int, body.len() as int), m, f);
        if loops.len() == 0 {
            r
        } else {
            match r {
                Outcome::Done(m1) => match run_loop(body, enclosing_loop_ptr(s, pos), m1, f) {
                    Outcome::Done(m2) => cont(s, advance(loops), m2, f),
                    other => other,
                },
                other => other,
            }
        }
    }
}

/// What is left at a position ends the same with more fuel, unless it ran out.
proof fn lemma_cont_mono(s: Seq<Op>, pos: Seq<usize>, m: Machine, f: nat, g: nat)
    requires
        f <= g,
        !(cont(s, pos, m, f) is OutOfFuel),
    ensures
        cont(s, pos, m, g) == cont(s, pos, m, f),
    decreases pos.len(),
{
    if pos.len() > 0 {
        let loops = pos.drop_last();
        let body = body_at(s, loops);
        let rest = body.subrange(pos.last() as int, body.len() as int);
        lemma_run_ops_mono(rest, m, f, g);
        if loops.len() > 0 {
            match run_ops(rest, m, f) {
                Outcome::Done(m1) => {
                    let lp = enclosing_loop_ptr(s, pos);
                    crate::optimize1::semantics::lemma_run_loop_mono(body, lp, m1, f, g);
                    match run_loop(body, lp, m1, f) {
                        Outcome::Done(m2) => {
                            lemma_cont_mono(s, advance(loops), m2, f, g);
                        },
                        _ => {},
                    }
                },
                _ => {},
            }
        }
    }
}

/// Continuing with more fuel than a run that did not run out gives the same.
proof fn lemma_then_cont_mono(o: Outcome, s: Seq<Op>, pos: Seq<usize>, f: nat)
    requires
        !(then_cont(o, s, pos, f) is OutOfFuel),
    ensures
        then_cont(o, s, pos, f + 1) == then_cont(o, s, pos, f),
{
    match o {
        Outcome::Done(m) => {
            lemma_cont_mono(s, pos, m, f, f + 1);
        },
        _ => {},
    }
}

/// Before the end of a body, what is left is the command at the position and then what is
/// left after it.
proof fn lemma_cont_unfold(s: Seq<Op>, pos: Seq<usize>, m: Machine, f: nat)
    requires
        valid_position(s, pos),
        pos.last() < body_at(s, pos.drop_last()).len(),
        body_at(s, pos.drop_last()).len() <= usize::MAX,
    ensures
        cont(s, pos, m, f) == then_cont(
            run_op(body_at(s, pos.drop_last())[pos.last() as int], m, f),
            s,
            advance(pos),
            f,
        ),
{
    let loops = pos.drop_last();
    let body = body_at(s, loops);
    let i = pos.last() as int;
    let rest = body.subrange(i, body.len() as int);
    let rest2 = body.subrange(i + 1, body.len() as int);
    let p2 = advance(pos);
    assert(p2.drop_last() =~= loops);
    assert(p2.last() == i + 1);
    assert(rest[0] == body[i]);
    assert(rest.subrange(1, rest.len() as int) =~= rest2);
    assert(enclosing_loop_ptr(s, p2) == enclosing_loop_ptr(s, pos));
    match run_op(body[i], m, f) {
        Outcome::Done(m1) => {
            assert(run_ops(rest, m, f) == run_ops(rest2, m1, f));
        },
        _ => {},
    }
}

/// At the end of an inner body, what is left is the loop, tested again, and then what is
/// left after the loop.
proof fn lemma_cont_end(s: Seq<Op>, pos: Seq<usize>, m: Machine, f: nat)
    requires
        valid_position(s, pos),
        pos.last() == body_at(s, pos.drop_last()).len(),
        pos.len() >= 2,
    ensures
        cont(s, pos, m, f) == then_cont(
            run_loop(body_at(s, pos.drop_last()), enclosing_loop_ptr(s, pos), m, f),
            s,
            advance(pos.drop_last()),
            f,
        ),
{
    let body = body_at(s, pos.drop_last());
    assert(body.subrange(body.len() as int, body.len() as int) =~= Seq::<Op>::empty());
}

/// The body that a loop index leads to is the body of that loop.
proof fn lemma_body_at_push(s: Seq<Op>, pos: Seq<usize>)
    requires
        valid_position(s, pos),
        pos.last() < body_at(s, pos.drop_last()).len(),
        body_at(s, pos.drop_last())[pos.last() as int] is Loop,
    ensures
        body_at(s, pos) == body_at(s, pos.drop_last())[pos.last() as int]->Loop_body,
        enclosing_loop_ptr(s, pos.push(0)) == body_at(s, pos.drop_last())[pos.last() as int]->Loop_ptr,
        valid_position(s, pos.push(0)),
{
    assert(pos.push(0).drop_last() =~= pos);
}

// ---------------------------------------------------------------------------
// Each step keeps the meaning
// ---------------------------------------------------------------------------

/// The state is at an input command.
pub open spec fn at_input(s: Seq<Op>, st: RunState) -> bool {
    let body = body_at(s, st.position.drop_last());
    st.position.last() < body.len() && body[st.position.last() as int] is Input
}

/// The machine after a step that asked for `a`.
pub open spec fn machine_after(
    st2: RunState,
    a: Action,
    input: Seq<u8>,
    output: Seq<u8>,
) -> Machine {
    match a {
        Action::Output(b) => machine_of(st2, None, input, output.push(b)),
        _ => machine_of(st2, None, input, output),
    }
}

/// A step that does not ask for input or halt keeps what is left to run, given one more
/// unit of fuel.
proof fn lemma_step_keeps_meaning(
    s: Seq<Op>,
    st: RunState,
    pending: Option<u8>,
    input: Seq<u8>,
    output: Seq<u8>,
    f: nat,
)
    requires
        valid_position(s, st.position),
        body_at(s, st.position.drop_last()).len() <= usize::MAX,
        touches_memory(s, st, pending),
        pending is Some ==> at_input(s, st),
        next(s, st, pending).1 is Continue || next(s, st, pending).1 is Output,
        !(cont(
            s,
            next(s, st, pending).0.position,
            machine_after(next(s, st, pending).0, next(s, st, pending).1, input, output),
            f,
        ) is OutOfFuel),
    ensures
        valid_position(s, next(s, st, pending).0.position),
        cont(s, st.position, machine_of(st, pending, input, output), f + 1) == cont(
            s,
            next(s, st, pending).0.position,
            machine_after(next(s, st, pending).0, next(s, st, pending).1, input, output),
            f,
        ),
{
    let (st2, a) = next(s, st, pending);
    let m = machine_of(st, pending, input, output);
    let m2 = machine_after(st2, a, input, output);
    let pos = st.position;
    let loops = pos.drop_last();
    let body = body_at(s, loops);
    let i = pos.last() as int;
    let g = f + 1;
    if i < body.len() {
        lemma_cont_unfold(s, pos, m, g);
        assert(advance(pos).drop_last() =~= loops);
        match body[i] {
            Op::Loop { body: lb, ptr } => {
                if st.memory[st.ptr + ptr] != 0 {
                    lemma_body_at_push(s, pos);
                    let p0 = pos.push(0);
                    assert(p0.drop_last() =~= pos);
                    assert(lb.subrange(0, lb.len() as int) =~= lb);
                    assert(m2 == m);
                    lemma_then_cont_mono(
                        match run_ops(lb, m, f) {
                            Outcome::Done(m1) => run_loop(lb, ptr, m1, f),
                            other => other,
                        },
                        s,
                        advance(pos),
                        f,
                    );
                } else {
                    assert(m2 == m);
                    lemma_cont_mono(s, advance(pos), m, f, g);
                }
            },
            Op::Add { ptr, op } => {
                assert(m2.tape =~= crate::optimize1::semantics::set_cell(
                    m,
                    ptr,
                    wrap(crate::optimize1::semantics::cell(m, ptr) + op),
                ).tape);
                lemma_cont_mono(s, advance(pos), m2, f, g);
            },
            Op::Move { diff } => {
                assert(m2 == crate::optimize1::semantics::move_ptr(m, diff));
                lemma_cont_mono(s, advance(pos), m2, f, g);
            },
            Op::Output { ptr } => {
                lemma_cont_mono(s, advance(pos), m2, f, g);
            },
            Op::Input { ptr } => {
                let b = pending->0;
                assert(m.input =~= seq![b] + input);
                assert(m.input.drop_first() =~= input);
                assert(m2.tape =~= crate::optimize1::semantics::set_cell(
                    Machine { input: m.input.drop_first(), ..m },
                    ptr,
                    b,
                ).tape);
                lemma_cont_mono(s, advance(pos), m2, f, g);
            },
        }
        crate::optimize1::lemma_advance_valid(s, pos);
    } else {
        assert(loops.len() > 0);
        lemma_cont_end(s, pos, m, g);
        let lp = enclosing_loop_ptr(s, pos);
        assert(m2 == m);
        if st.memory[st.ptr + lp] != 0 {
            let p0 = pos.update(pos.len() - 1, 0);
            assert(p0.drop_last() =~= loops);
            assert(body.subrange(0, body.len() as int) =~= body);
            assert(enclosing_loop_ptr(s, p0) == lp);
            lemma_then_cont_mono(
                match run_ops(body, m, f) {
                    Outcome::Done(m1) => run_loop(body, lp, m1, f),
                    other => other,
                },
                s,
                advance(loops),
                f,
            );
            crate::optimize1::lemma_restart_valid(s, pos);
        } else {
            lemma_cont_mono(s, advance(loops), m, f, g);
            crate::optimize1::lemma_leave_valid(s, pos);
        }
    }
}

/// A step keeps the position valid.
proof fn lemma_next_valid(s: Seq<Op>, st: RunState, pending: Option<u8>)
    requires
        valid_position(s, st.position),
    ensures
        valid_position(s, next(s, st, pending).0.position),
{
    let pos = st.position;
    let loops = pos.drop_last();
    let body = body_at(s, loops);
    let i = pos.last() as int;
    if i < body.len() {
        crate::optimize1::lemma_advance_valid(s, pos);
        match body[i] {
            Op::Loop { body: lb, ptr } => {
                crate::optimize1::lemma_enter_valid(s, pos);
            },
            _ => {},
        }
    } else if loops.len() > 0 {
        crate::optimize1::lemma_restart_valid(s, pos);
        crate::optimize1::lemma_leave_valid(s, pos);
    }
}

/// A step that touches only cells of the memory keeps its size.
proof fn lemma_next_memory_len(s: Seq<Op>, st: RunState, pending: Option<u8>)
    requires
        touches_memory(s, st, pending),
    ensures
        next(s, st, pending).0.memory.len() == st.memory.len(),
{
}

/// When a run on the model of memory halts or runs out of input, what was left to run at
/// its start ends the same way, with enough fuel.
pub proof fn lemma_drive_ops_sound(
    s: Seq<Op>,
    st: RunState,
    pending: Option<u8>,
    input: Seq<u8>,
    output: Seq<u8>,
    n: nat,
)
    requires
        lengths_fit(s),
        valid_position(s, st.position),
        pending is Some ==> at_input(s, st),
    ensures
        drive_ops(s, st, pending, input, output, n) matches RunEnd::Halted {
            state,
            input: rest,
            output: out,
        } ==> exists|f: nat|
            cont(s, st.position, machine_of(st, pending, input, output), f) == Outcome::Done(
                machine_of(state, None, rest, out),
            ),
        drive_ops(s, st, pending, input, output, n) matches RunEnd::InputFailed(out)
            ==> exists|f: nat|
            cont(s, st.position, machine_of(st, pending, input, output), f)
                == Outcome::InputFailed(out),
        drive_ops(s, st, pending, input, output, n) matches RunEnd::Halted { state, .. }
            ==> state.memory.len() == st.memory.len(),
    decreases n,
{
    let r = drive_ops(s, st, pending, input, output, n);
    if n == 0 || !touches_memory(s, st, pending) {
        return ;
    }
    let (st2, a) = next(s, st, pending);
    let m = machine_of(st, pending, input, output);
    let pos = st.position;
    let body = body_at(s, pos.drop_last());
    lemma_body_at_fits(s, pos.drop_last());
    lemma_next_valid(s, st, pending);
    lemma_next_memory_len(s, st, pending);
    match a {
        Action::Continue => {
            lemma_drive_ops_sound(s, st2, None, input, output, (n - 1) as nat);
            let m2 = machine_of(st2, None, input, output);
            assert(m2 == machine_after(st2, a, input, output));
            match r {
                RunEnd::Halted { state, input: rest, output: out } => {
                    let f = choose|f: nat|
                        cont(s, st2.position, m2, f) == Outcome::Done(
                            machine_of(state, None, rest, out),
                        );
                    lemma_step_keeps_meaning(s, st, pending, input, output, f);
                    assert(cont(s, pos, m, f + 1) == Outcome::Done(
                        machine_of(state, None, rest, out),
                    ));
                },
                RunEnd::InputFailed(out) => {
                    let f = choose|f: nat|
                        cont(s, st2.position, m2, f) == Outcome::InputFailed(out);
                    lemma_step_keeps_meaning(s, st, pending, input, output, f);
                    assert(cont(s, pos, m, f + 1) == Outcome::InputFailed(out));
                },
                _ => {},
            }
        },
        Action::Output(b) => {
            lemma_drive_ops_sound(s, st2, None, input, output.push(b), (n - 1) as nat);
            let m2 = machine_of(st2, None, input, output.push(b));
            assert(m2 == machine_after(st2, a, input, output));
            match r {
                RunEnd::Halted { state, input: rest, output: out } => {
                    let f = choose|f: nat|
                        cont(s, st2.position, m2, f) == Outcome::Done(
                            machine_of(state, None, rest, out),
                        );
                    lemma_step_keeps_meaning(s, st, pending, input, output, f);
                    assert(cont(s, pos, m, f + 1) == Outcome::Done(
                        machine_of(state, None, rest, out),
                    ));
                },
                RunEnd::InputFailed(out) => {
                    let f = choose|f: nat|
                        cont(s, st2.position, m2, f) == Outcome::InputFailed(out);
                    lemma_step_keeps_meaning(s, st, pending, input, output, f);
                    assert(cont(s, pos, m, f + 1) == Outcome::InputFailed(out));
                },
                _ => {},
            }
        },
        Action::NeedInput => {
            assert(st2 == st);
            assert(at_input(s, st));
            if input.len() == 0 {
                lemma_cont_unfold(s, pos, m, 0);
                assert(cont(s, pos, m, 0) == Outcome::InputFailed(output));
            } else {
                lemma_drive_ops_sound(
                    s,
                    st,
                    Some(input[0]),
                    input.drop_first(),
                    output,
                    (n - 1) as nat,
                );
                assert(seq![input[0]] + input.drop_first() =~= input);
                assert(machine_of(st, Some(input[0]), input.drop_first(), output) == m);
            }
        },
        Action::Halt => {
            let rest = body.subrange(pos.last() as int, body.len() as int);
            assert(rest =~= Seq::<Op>::empty());
            assert(cont(s, pos, m, 0) == Outcome::Done(m));
        },
    }
}


// ---------------------------------------------------------------------------
// The optimizing interpreter's runs
// ---------------------------------------------------------------------------

/// A step that the optimizing interpreter can take touches only cells of the memory.
proof fn lemma_steppable_touches(s: Seq<Op>, st: RunState, pending: Option<u8>)
    requires
        steppable(s, st, pending),
    ensures
        touches_memory(s, st, pending),
{
}

/// A run of the optimizing interpreter that does not stop is a run on the model of memory.
proof fn lemma_drive_optimized_ops(
    s: Seq<Op>,
    st: RunState,
    pending: Option<u8>,
    input: Seq<u8>,
    output: Seq<u8>,
    n: nat,
)
    ensures
        drive_optimized(s, st, pending, input, output, n) is Stopped || drive_optimized(
            s,
            st,
            pending,
            input,
            output,
            n,
        ) == drive_ops(s, st, pending, input, output, n),
    decreases n,
{
    if n > 0 && steppable(s, st, pending) {
        lemma_steppable_touches(s, st, pending);
        let (st2, a) = next(s, st, pending);
        match a {
            Action::Continue => lemma_drive_optimized_ops(s, st2, None, input, output, (n - 1) as nat),
            Action::Output(b) => lemma_drive_optimized_ops(
                s,
                st2,
                None,
                input,
                output.push(b),
                (n - 1) as nat,
            ),
            Action::NeedInput => {
                if input.len() > 0 {
                    lemma_drive_optimized_ops(
                        s,
                        st2,
                        Some(input[0]),
                        input.drop_first(),
                        output,
                        (n - 1) as nat,
                    );
                }
            },
            Action::Halt => {},
        }
    }
}

// ---------------------------------------------------------------------------
// The plain interpreter's runs
// ---------------------------------------------------------------------------

/// The state of the optimizing interpreter that a state of the plain interpreter stands for.
pub open spec fn as_run_state(st: plain::State) -> RunState {
    RunState { memory: st.memory, ptr: st.ptr, position: st.position }
}

/// The body that loop indices lead to in the converted commands is the converted body.
proof fn lemma_convert_body_at(cmds: Seq<Command>, loops: Seq<usize>)
    ensures
        body_at(convert_all(cmds), loops) == convert_all(plain::body_at(cmds, loops)),
        valid_loops(convert_all(cmds), loops) == plain::valid_loops(cmds, loops),
    decreases loops.len(),
{
    if loops.len() > 0 {
        lemma_convert_body_at(cmds, loops.drop_last());
        let outer = plain::body_at(cmds, loops.drop_last());
        let j = loops.last() as int;
        lemma_convert_all_index(outer);
        if 0 <= j < outer.len() {
            match outer[j] {
                Command::Loop { inner_commands } => {},
                _ => {
                    assert(convert_all(Seq::<Command>::empty()) =~= Seq::<Op>::empty());
                },
            }
        } else {
            assert(convert_all(Seq::<Command>::empty()) =~= Seq::<Op>::empty());
        }
    }
}

/// A step of the plain interpreter is a step of the optimizing interpreter on the converted
/// commands, which touches only cells of the memory.
proof fn lemma_plain_step(cmds: Seq<Command>, st: plain::State, pending: Option<u8>)
    requires
        plain::valid_position(cmds, st.position),
        plain::steppable(cmds, st, pending),
    ensures
        valid_position(convert_all(cmds), st.position),
        touches_memory(convert_all(cmds), as_run_state(st), pending),
        next(convert_all(cmds), as_run_state(st), pending).0 == as_run_state(
            plain::next(cmds, st, pending).0,
        ),
        next(convert_all(cmds), as_run_state(st), pending).1 == plain::next(cmds, st, pending).1,
        0 <= st.ptr < i32::MAX && st.memory.len() <= i32::MAX ==> steppable(
            convert_all(cmds),
            as_run_state(st),
            pending,
        ),
        0 <= st.ptr ==> 0 <= plain::next(cmds, st, pending).0.ptr,
        plain::next(cmds, st, pending).0.memory.len() == st.memory.len(),
{
    let s = convert_all(cmds);
    let pos = st.position;
    let loops = pos.drop_last();
    let body = plain::body_at(cmds, loops);
    lemma_convert_body_at(cmds, loops);
    lemma_convert_all_index(body);
    let i = pos.last() as int;
    if i >= body.len() && loops.len() > 0 {
        let outer = plain::body_at(cmds, loops.drop_last());
        lemma_convert_body_at(cmds, loops.drop_last());
        lemma_convert_all_index(outer);
        assert(enclosing_loop_ptr(s, pos) == 0);
    }
    let (a1, b1) = next(s, as_run_state(st), pending);
    let (a2, b2) = plain::next(cmds, st, pending);
    if i < body.len() {
        match body[i] {
            Command::ValIncr => {
                assert(a1.memory =~= a2.memory);
            },
            Command::ValDecr => {
                assert(a1.memory =~= a2.memory);
            },
            _ => {},
        }
    }
}

/// A run of the plain interpreter that does not stop is a run on the model of memory of
/// the converted commands.
proof fn lemma_drive_plain_ops(
    cmds: Seq<Command>,
    st: plain::State,
    pending: Option<u8>,
    input: Seq<u8>,
    output: Seq<u8>,
    n: nat,
)
    requires
        plain::valid_position(cmds, st.position),
    ensures
        drive_plain(cmds, st, pending, input, output, n) matches RunEnd::Halted {
            state,
            input: rest,
            output: out,
        } ==> drive_ops(convert_all(cmds), as_run_state(st), pending, input, output, n)
            == (RunEnd::Halted { state: as_run_state(state), input: rest, output: out }),
        drive_plain(cmds, st, pending, input, output, n) matches RunEnd::InputFailed(out)
            ==> drive_ops(convert_all(cmds), as_run_state(st), pending, input, output, n)
            == RunEnd::<RunState>::InputFailed(out),
    decreases n,
{
    if n > 0 && plain::steppable(cmds, st, pending) {
        let s = convert_all(cmds);
        lemma_plain_step(cmds, st, pending);
        lemma_next_valid(s, as_run_state(st), pending);
        let (st2, a) = plain::next(cmds, st, pending);
        lemma_convert_body_at(cmds, st2.position.drop_last());
        lemma_convert_all_index(plain::body_at(cmds, st2.position.drop_last()));
        match a {
            Action::Continue => lemma_drive_plain_ops(cmds, st2, None, input, output, (n - 1) as nat),
            Action::Output(b) => lemma_drive_plain_ops(
                cmds,
                st2,
                None,
                input,
                output.push(b),
                (n - 1) as nat,
            ),
            Action::NeedInput => {
                if input.len() > 0 {
                    lemma_drive_plain_ops(
                        cmds,
                        st2,
                        Some(input[0]),
                        input.drop_first(),
                        output,
                        (n - 1) as nat,
                    );
                }
            },
            Action::Halt => {},
        }
    }
}

/// Every state of the plain run in which a step is taken has its pointer below `i32::MAX`.
pub open spec fn pointer_below_i32(
    cmds: Seq<Command>,
    st: plain::State,
    pending: Option<u8>,
    input: Seq<u8>,
    n: nat,
) -> bool
    decreases n,
{
    if n == 0 || !plain::steppable(cmds, st, pending) {
        true
    } else {
        let (st2, a) = plain::next(cmds, st, pending);
        &&& st.ptr < i32::MAX
        &&& match a {
            Action::NeedInput => input.len() == 0 || pointer_below_i32(
                cmds,
                st2,
                Some(input[0]),
                input.drop_first(),
                (n - 1) as nat,
            ),
            Action::Halt => true,
            _ => pointer_below_i32(cmds, st2, None, input, (n - 1) as nat),
        }
    }
}

/// The converted commands run as the plain commands do, from any memory and pointer: when
/// the plain interpreter's run halts or runs out of input, and its pointer stays below
/// `i32::MAX` in a memory of at most `i32::MAX` cells, the optimizing interpreter's run of
/// the converted commands, with the same budget of steps, ends the same way, with the same
/// memory, pointer, unread input and output.
pub proof fn lemma_converted_runs_alike(
    cmds: Seq<Command>,
    st: plain::State,
    pending: Option<u8>,
    input: Seq<u8>,
    output: Seq<u8>,
    n: nat,
)
    requires
        plain::valid_position(cmds, st.position),
        0 <= st.ptr,
        st.memory.len() <= i32::MAX,
        pointer_below_i32(cmds, st, pending, input, n),
    ensures
        drive_plain(cmds, st, pending, input, output, n) matches RunEnd::Halted {
            state,
            input: rest,
            output: out,
        } ==> drive_optimized(convert_all(cmds), as_run_state(st), pending, input, output, n)
            == (RunEnd::Halted { state: as_run_state(state), input: rest, output: out }),
        drive_plain(cmds, st, pending, input, output, n) matches RunEnd::InputFailed(out)
            ==> drive_optimized(convert_all(cmds), as_run_state(st), pending, input, output, n)
            == RunEnd::<RunState>::InputFailed(out),
    decreases n,
{
    if n > 0 && plain::steppable(cmds, st, pending) {
        let s = convert_all(cmds);
        lemma_plain_step(cmds, st, pending);
        lemma_next_valid(s, as_run_state(st), pending);
        let (st2, a) = plain::next(cmds, st, pending);
        lemma_convert_body_at(cmds, st2.position.drop_last());
        lemma_convert_all_index(plain::body_at(cmds, st2.position.drop_last()));
        match a {
            Action::Continue => lemma_converted_runs_alike(
                cmds,
                st2,
                None,
                input,
                output,
                (n - 1) as nat,
            ),
            Action::Output(b) => lemma_converted_runs_alike(
                cmds,
                st2,
                None,
                input,
                output.push(b),
                (n - 1) as nat,
            ),
            Action::NeedInput => {
                if input.len() > 0 {
                    lemma_converted_runs_alike(
                        cmds,
                        st2,
                        Some(input[0]),
                        input.drop_first(),
                        output,
                        (n - 1) as nat,
                    );
                }
            },
            Action::Halt => {},
        }
    }
}

// ---------------------------------------------------------------------------
// Programs held in vectors
// ---------------------------------------------------------------------------

proof fn lemma_view_command_fits(c: crate::optimize1::syntax_tree::Command)
    ensures
        op_lengths_fit(view_command(c)),
    decreases c,
{
    match c {
        crate::optimize1::syntax_tree::Command::Loop { inner_commands, ptr } => {
            assert(decreases_to!(c => inner_commands.commands@)) by {
                assert(decreases_to!(c => inner_commands));
                assert(decreases_to!(inner_commands => inner_commands.commands));
                assert(decreases_to!(inner_commands.commands => inner_commands.commands@));
            }
            assert(inner_commands.commands@.len() == inner_commands.commands.len());
            lemma_view_commands_fit(inner_commands.commands@);
        },
        _ => {},
    }
}

/// The model of commands that a vector holds has bodies of at most `usize::MAX` commands.
pub proof fn lemma_view_commands_fit(s: Seq<crate::optimize1::syntax_tree::Command>)
    requires
        s.len() <= usize::MAX,
    ensures
        lengths_fit(view_commands(s)),
    decreases s,
{
    lemma_view_commands_index(s);
    if s.len() > 0 {
        let p = s.subrange(0, s.len() - 1);
        assert(decreases_to!(s => s[s.len() - 1]));
        lemma_view_commands_fit(p);
        lemma_view_command_fits(s[s.len() - 1]);
        let v = view_commands(s);
        assert(v.subrange(0, v.len() - 1) =~= view_commands(p));
    }
}

proof fn lemma_convert_fits(c: Command)
    ensures
        op_lengths_fit(convert(c)),
    decreases c,
{
    match c {
        Command::Loop { inner_commands } => {
            assert(decreases_to!(c => inner_commands@)) by {
                assert(decreases_to!(c => inner_commands));
                assert(decreases_to!(inner_commands => inner_commands@));
            }
            assert(inner_commands@.len() == inner_commands.len());
            lemma_convert_all_fits(inner_commands@);
        },
        _ => {},
    }
}

/// The converted commands of a vector have bodies of at most `usize::MAX` commands.
pub proof fn lemma_convert_all_fits(s: Seq<Command>)
    requires
        s.len() <= usize::MAX,
    ensures
        lengths_fit(convert_all(s)),
    decreases s,
{
    lemma_convert_all_index(s);
    if s.len() > 0 {
        let p = s.subrange(0, s.len() - 1);
        assert(decreases_to!(s => s[s.len() - 1]));
        lemma_convert_all_fits(p);
        lemma_convert_fits(s[s.len() - 1]);
        let v = convert_all(s);
        assert(v.subrange(0, v.len() - 1) =~= convert_all(p));
    }
}

// ---------------------------------------------------------------------------
// The text determines the program
// ---------------------------------------------------------------------------

/// The text of a command sequence that is not empty is not empty.
proof fn lemma_render_nonempty(a: Seq<Command>)
    requires
        a.len() > 0,
    ensures
        render(a).len() > 0,
{
    let a1 = a.subrange(0, a.len() - 1);
    assert(render(a).len() >= render(a1).len() + 1);
}

/// Two command sequences with the same text have the same model: the text of a program
/// determines its commands.
pub proof fn lemma_render_determines(a: Seq<Command>, b: Seq<Command>)
    requires
        render(a) == render(b),
    ensures
        convert_all(a) == convert_all(b),
    decreases a,
{
    if a.len() == 0 {
        if b.len() > 0 {
            lemma_render_nonempty(b);
        }
    } else {
        lemma_render_nonempty(a);
        if b.len() == 0 {
            assert(render(b).len() == 0);
        }
        let a1 = a.subrange(0, a.len() - 1);
        let b1 = b.subrange(0, b.len() - 1);
        let ra = render(a);
        let rb = render(b);
        let ra1 = render(a1);
        let rb1 = render(b1);
        assert(decreases_to!(a => a[a.len() - 1]));
        match a.last() {
            Command::Loop { inner_commands: ia } => {
                match b.last() {
                    Command::Loop { inner_commands: ib } => {
                        assert(decreases_to!(a => ia@)) by {
                            assert(decreases_to!(a => a[a.len() - 1]));
                            assert(decreases_to!(a[a.len() - 1] => ia));
                            assert(decreases_to!(ia => ia@));
                        }
                        assert(ra =~= ra1 + seq!['['] + render(ia@) + seq![']']);
                        assert(rb =~= rb1 + seq!['['] + render(ib@) + seq![']']);
                        lemma_render_balanced(ia@);
                        lemma_render_balanced(ib@);
                        lemma_last_bracket_unique(ra1, render(ia@), rb1, render(ib@));
                        lemma_render_determines(ia@, ib@);
                        lemma_render_determines(a1, b1);
                    },
                    _ => {
                        assert(ra.last() == ']');
                    },
                }
            },
            _ => {
                assert(ra.last() != ']');
                assert(ra =~= ra1 + seq![ra.last()]);
                assert(rb =~= rb1 + seq![rb.last()]);
                assert(ra1 =~= ra.drop_last());
                assert(rb1 =~= rb.drop_last());
                lemma_render_determines(a1, b1);
                assert(a.last() == b.last());
            },
        }
        assert(convert_all(a) == convert_all(a1).push(convert(a.last())));
        assert(convert_all(b) == convert_all(b1).push(convert(b.last())));
    }
}

// ---------------------------------------------------------------------------
// The laws
// ---------------------------------------------------------------------------

/// From the start of a program, what is left to run is the whole program, on the start
/// machine.
proof fn lemma_cont_start(s: Seq<Op>, input: Seq<u8>, f: nat)
    ensures
        cont(s, initial_run_state().position, machine_of(initial_run_state(), None, input, seq![]), f)
            == run_ops(s, start_machine(input), f),
{
    let st = initial_run_state();
    assert(st.position.drop_last() =~= Seq::<usize>::empty());
    assert(s.subrange(0, s.len() as int) =~= s);
    assert(tape_of(st.memory) =~= start_machine(input).tape);
    assert(with_pending(None, input) == input);
}

/// The optimizing interpreter runs a program as the program means: when its steps from the
/// start, fed `input`, halt, the program run on the start machine ends with the same
/// memory, pointer, unread input and output; when a step asks for input past its end, the
/// program fails on input with the same output. The memory keeps its size.
pub proof fn lemma_optimized_interpreter_meaning(s: Seq<Op>, input: Seq<u8>, n: nat)
    requires
        lengths_fit(s),
    ensures
        drive_optimized(s, initial_run_state(), None, input, seq![], n) matches RunEnd::Halted {
            state,
            input: rest,
            output: out,
        } ==> {
            &&& state.memory.len() == crate::interpreter_with_syntree::MEMORY_SIZE
            &&& exists|f: nat|
                run_ops(s, start_machine(input), f) == Outcome::Done(
                    machine_of(state, None, rest, out),
                )
        },
        drive_optimized(s, initial_run_state(), None, input, seq![], n) matches RunEnd::InputFailed(
            out,
        ) ==> exists|f: nat| run_ops(s, start_machine(input), f) == Outcome::InputFailed(out),
{
    let st = initial_run_state();
    assert(st.position.drop_last() =~= Seq::<usize>::empty());
    lemma_drive_optimized_ops(s, st, None, input, seq![], n);
    lemma_drive_ops_sound(s, st, None, input, seq![], n);
    match drive_optimized(s, st, None, input, seq![], n) {
        RunEnd::Halted { state, input: rest, output: out } => {
            let f = choose|f: nat|
                cont(s, st.position, machine_of(st, None, input, seq![]), f) == Outcome::Done(
                    machine_of(state, None, rest, out),
                );
            lemma_cont_start(s, input, f);
        },
        RunEnd::InputFailed(out) => {
            let f = choose|f: nat|
                cont(s, st.position, machine_of(st, None, input, seq![]), f)
                    == Outcome::InputFailed(out);
            lemma_cont_start(s, input, f);
        },
        RunEnd::Stopped => {},
    }
}

/// The plain interpreter runs a program as the program means: when its steps from the
/// start, fed `input`, halt, the program's commands run on the start machine end with the
/// same memory, pointer, unread input and output; when a step asks for input past its end,
/// they fail on input with the same output. The memory keeps its size.
pub proof fn lemma_plain_interpreter_meaning(cmds: Seq<Command>, input: Seq<u8>, n: nat)
    requires
        cmds.len() <= usize::MAX,
    ensures
        drive_plain(cmds, plain::initial_state(), None, input, seq![], n) matches RunEnd::Halted {
            state,
            input: rest,
            output: out,
        } ==> {
            &&& state.memory.len() == crate::interpreter_with_syntree::MEMORY_SIZE
            &&& exists|f: nat|
                run_ops(convert_all(cmds), start_machine(input), f) == Outcome::Done(
                    machine_of(as_run_state(state), None, rest, out),
                )
        },
        drive_plain(cmds, plain::initial_state(), None, input, seq![], n) matches RunEnd::InputFailed(
            out,
        ) ==> exists|f: nat|
            run_ops(convert_all(cmds), start_machine(input), f) == Outcome::InputFailed(out),
{
    let s = convert_all(cmds);
    let st = initial_run_state();
    let pst = plain::initial_state();
    assert(as_run_state(pst) =~= st) by {
        assert(pst.memory =~= st.memory);
    }
    assert(pst.position.drop_last() =~= Seq::<usize>::empty());
    lemma_convert_all_fits(cmds);
    lemma_drive_plain_ops(cmds, pst, None, input, seq![], n);
    lemma_drive_ops_sound(s, st, None, input, seq![], n);
    match drive_plain(cmds, pst, None, input, seq![], n) {
        RunEnd::Halted { state, input: rest, output: out } => {
            let f = choose|f: nat|
                cont(s, st.position, machine_of(st, None, input, seq![]), f) == Outcome::Done(
                    machine_of(as_run_state(state), None, rest, out),
                );
            lemma_cont_start(s, input, f);
        },
        RunEnd::InputFailed(out) => {
            let f = choose|f: nat|
                cont(s, st.position, machine_of(st, None, input, seq![]), f)
                    == Outcome::InputFailed(out);
            lemma_cont_start(s, input, f);
        },
        RunEnd::Stopped => {},
    }
}

/// Two runs end the same way: both halt with the same memory, pointer, unread input and
/// output, or both run out of input after the same output; unless one of them stopped.
pub open spec fn ends_agree(a: RunEnd<plain::State>, b: RunEnd<RunState>) -> bool {
    match (a, b) {
        (RunEnd::Stopped, _) => true,
        (_, RunEnd::Stopped) => true,
        (
            RunEnd::Halted { state: s1, input: i1, output: o1 },
            RunEnd::Halted { state: s2, input: i2, output: o2 },
        ) => s1.memory == s2.memory && s1.ptr == s2.ptr && i1 == i2 && o1 == o2,
        (RunEnd::InputFailed(o1), RunEnd::InputFailed(o2)) => o1 == o2,
        _ => false,
    }
}

/// The two interpreters end a program the same way: run from the start on the same input,
/// the plain interpreter on the commands `cmds` and the optimizing one on the optimized
/// commands of a parse of the same text, with any budgets of steps, they do not both halt
/// unless with the same memory, pointer, unread input and output, and do not both run out
/// of input unless after the same output; and one does not halt where the other runs out of
/// input.
pub proof fn lemma_interpreters_agree(
    cmds: Seq<Command>,
    parsed: Seq<Command>,
    s: Seq<Op>,
    input: Seq<u8>,
    n1: nat,
    n2: nat,
)
    requires
        cmds.len() <= usize::MAX,
        lengths_fit(s),
        render(parsed) == render(cmds),
        s == compress(convert_all(parsed)),
    ensures
        ends_agree(
            drive_plain(cmds, plain::initial_state(), None, input, seq![], n1),
            drive_optimized(s, initial_run_state(), None, input, seq![], n2),
        ),
{
    let c = convert_all(cmds);
    let m0 = start_machine(input);
    let a = drive_plain(cmds, plain::initial_state(), None, input, seq![], n1);
    let b = drive_optimized(s, initial_run_state(), None, input, seq![], n2);
    lemma_render_determines(parsed, cmds);
    lemma_plain_interpreter_meaning(cmds, input, n1);
    lemma_optimized_interpreter_meaning(s, input, n2);
    match (a, b) {
        (
            RunEnd::Halted { state: s1, input: i1, output: o1 },
            RunEnd::Halted { state: s2, input: i2, output: o2 },
        ) => {
            let f1 = choose|f: nat|
                run_ops(c, m0, f) == Outcome::Done(machine_of(as_run_state(s1), None, i1, o1));
            let f2 = choose|f: nat|
                run_ops(s, m0, f) == Outcome::Done(machine_of(s2, None, i2, o2));
            lemma_compress_meaning(c, m0, f2);
            lemma_run_ops_deterministic(c, m0, f1, f2);
            let t1 = tape_of(s1.memory);
            let t2 = tape_of(s2.memory);
            assert(t1 == t2);
            assert forall|i: int| 0 <= i < s1.memory.len() implies s1.memory[i]
                == s2.memory[i] by {
                assert(t1(i) == t2(i));
            }
            assert(s1.memory =~= s2.memory);
        },
        (RunEnd::Halted { state: s1, input: i1, output: o1 }, RunEnd::InputFailed(o2)) => {
            let f1 = choose|f: nat|
                run_ops(c, m0, f) == Outcome::Done(machine_of(as_run_state(s1), None, i1, o1));
            let f2 = choose|f: nat| run_ops(s, m0, f) == Outcome::InputFailed(o2);
            lemma_compress_meaning(c, m0, f2);
            lemma_run_ops_deterministic(c, m0, f1, f2);
        },
        (RunEnd::InputFailed(o1), RunEnd::Halted { state: s2, input: i2, output: o2 }) => {
            let f1 = choose|f: nat| run_ops(c, m0, f) == Outcome::InputFailed(o1);
            let f2 = choose|f: nat|
                run_ops(s, m0, f) == Outcome::Done(machine_of(s2, None, i2, o2));
            lemma_compress_meaning(c, m0, f2);
            lemma_run_ops_deterministic(c, m0, f1, f2);
        },
        (RunEnd::InputFailed(o1), RunEnd::InputFailed(o2)) => {
            let f1 = choose|f: nat| run_ops(c, m0, f) == Outcome::InputFailed(o1);
            let f2 = choose|f: nat| run_ops(s, m0, f) == Outcome::InputFailed(o2);
            lemma_compress_meaning(c, m0, f2);
            lemma_run_ops_deterministic(c, m0, f1, f2);
        },
        _ => {},
    }
}

} // verus!
