//! The interpreter that first folds pointer moves and cell additions together, then walks
//! the optimized syntax tree one command per step.
pub mod optimize;
pub mod semantics;
pub mod syntax_tree;

use vstd::prelude::*;

use crate::interpreter_with_syntree::{Action, MEMORY_SIZE};
use crate::optimize1::optimize::{compress, compress_fits};
use crate::optimize1::semantics::{run_ops, wrap, Machine};
use crate::optimize1::syntax_tree::{
    convert_all,
    in_i32,
    lemma_view_commands_index,
    view_command,
    view_commands,
    Command,
    CommandSequence,
    Op,
    SyntaxTree,
};
use crate::syntax_tree as normal;

verus! {

/// A program of the optimizing interpreter.
pub struct Program {
    syntax_tree: SyntaxTree,
}

/// The running state of a program: its memory, the pointer, and where it stands in the
/// syntax tree (the indices of the loops it is inside, outermost first, then the index of
/// the next command in the innermost body).
pub struct RunTime {
    memory: Vec<u8>,
    memory_ptr: i32,
    position: Vec<usize>,
}

/// The model of a running state.
pub struct RunState {
    pub memory: Seq<u8>,
    pub ptr: int,
    pub position: Seq<usize>,
}

/// The body that the loop indices `loops` lead to, starting from the top-level commands.
pub open spec fn body_at(s: Seq<Op>, loops: Seq<usize>) -> Seq<Op>
    decreases loops.len(),
{
    if loops.len() == 0 {
        s
    } else {
        let outer = body_at(s, loops.drop_last());
        let j = loops.last() as int;
        if 0 <= j < outer.len() {
            match outer[j] {
                Op::Loop { body, ptr } => body,
                _ => seq![],
            }
        } else {
            seq![]
        }
    }
}

/// Each index of `loops` names a loop of the body that the indices before it lead to.
pub open spec fn valid_loops(s: Seq<Op>, loops: Seq<usize>) -> bool
    decreases loops.len(),
{
    if loops.len() == 0 {
        true
    } else {
        let outer = body_at(s, loops.drop_last());
        &&& valid_loops(s, loops.drop_last())
        &&& loops.last() < outer.len()
        &&& outer[loops.last() as int] is Loop
    }
}

/// Every index but the last names a loop of its body, and the last is at most the length
/// of the innermost body.
pub open spec fn valid_position(s: Seq<Op>, pos: Seq<usize>) -> bool {
    &&& pos.len() >= 1
    &&& valid_loops(s, pos.drop_last())
    &&& pos.last() <= body_at(s, pos.drop_last()).len()
}

/// The state of a program that has not run yet.
pub open spec fn initial_run_state() -> RunState {
    RunState { memory: Seq::new(MEMORY_SIZE as nat, |i: int| 0u8), ptr: 0, position: seq![0] }
}

/// The position after the current command.
pub open spec fn advance(pos: Seq<usize>) -> Seq<usize> {
    pos.update(pos.len() - 1, (pos.last() + 1) as usize)
}

/// The cell offset that the loop enclosing the position tests.
pub open spec fn enclosing_loop_ptr(s: Seq<Op>, pos: Seq<usize>) -> int {
    let loops = pos.drop_last();
    match body_at(s, loops.drop_last())[loops.last() as int] {
        Op::Loop { body, ptr } => ptr,
        _ => 0,
    }
}

/// One step of the program: the next state and what the step asks of its caller.
/// `input` is the byte handed to the step, which only an input command uses.
pub open spec fn next(s: Seq<Op>, st: RunState, input: Option<u8>) -> (RunState, Action) {
    let loops = st.position.drop_last();
    let i = st.position.last() as int;
    let body = body_at(s, loops);
    let forward = RunState { position: advance(st.position), ..st };
    if i < body.len() {
        match body[i] {
            Op::Add { ptr, op } => (
                RunState {
                    memory: st.memory.update(st.ptr + ptr, wrap(st.memory[st.ptr + ptr] + op)),
                    ..forward
                },
                Action::Continue,
            ),
            Op::Move { diff } => (RunState { ptr: st.ptr + diff, ..forward }, Action::Continue),
            Op::Output { ptr } => (forward, Action::Output(st.memory[st.ptr + ptr])),
            Op::Input { ptr } => match input {
                Some(b) => (
                    RunState { memory: st.memory.update(st.ptr + ptr, b), ..forward },
                    Action::Continue,
                ),
                None => (st, Action::NeedInput),
            },
            Op::Loop { body, ptr } => {
                if st.memory[st.ptr + ptr] != 0 {
                    (RunState { position: st.position.push(0), ..st }, Action::Continue)
                } else {
                    (forward, Action::Continue)
                }
            },
        }
    } else if loops.len() == 0 {
        (st, Action::Halt)
    } else if st.memory[st.ptr + enclosing_loop_ptr(s, st.position)] != 0 {
        (
            RunState { position: st.position.update(st.position.len() - 1, 0), ..st },
            Action::Continue,
        )
    } else {
        (RunState { position: advance(loops), ..st }, Action::Continue)
    }
}

/// The cell at offset `off` can be reached: its index is computed within `i32`, and it is
/// in the memory.
pub open spec fn reachable(st: RunState, off: int) -> bool {
    in_i32(st.ptr + off) && 0 <= st.ptr + off < st.memory.len()
}

/// The step can be taken: the numbers that it computes stay within `i32`, and a cell that
/// the step reads or writes is in the memory.
pub open spec fn steppable(s: Seq<Op>, st: RunState, input: Option<u8>) -> bool {
    let loops = st.position.drop_last();
    let i = st.position.last() as int;
    let body = body_at(s, loops);
    if i < body.len() {
        match body[i] {
            Op::Add { ptr, op } => reachable(st, ptr) && in_i32(st.memory[st.ptr + ptr] + op),
            Op::Move { diff } => in_i32(st.ptr + diff),
            Op::Output { ptr } => reachable(st, ptr),
            Op::Input { ptr } => input is Some ==> reachable(st, ptr),
            Op::Loop { body, ptr } => reachable(st, ptr),
        }
    } else if loops.len() == 0 {
        true
    } else {
        reachable(st, enclosing_loop_ptr(s, st.position))
    }
}

/// The command at the position, or `None` at the end of a body.
pub open spec fn command_at(s: Seq<Op>, pos: Seq<usize>) -> Option<Op> {
    let body = body_at(s, pos.drop_last());
    if pos.last() < body.len() {
        Some(body[pos.last() as int])
    } else {
        None
    }
}

/// The cell at offset `off` from the pointer is one of the memory's cells.
pub open spec fn cell_in_memory(st: RunState, off: int) -> bool {
    0 <= st.ptr + off < st.memory.len()
}

/// The optimizing interpreter takes every step whose cell is in a memory of at most
/// `i32::MAX` cells and whose sums are values of `i32`: an addition whose new value fits,
/// a move whose new pointer fits, an output, an input or a loop test on a cell of the
/// memory, an input that asks for its byte, and the end of the program.
pub proof fn lemma_steps_in_bounds(s: Seq<Op>, st: RunState, input: Option<u8>)
    requires
        st.memory.len() <= i32::MAX,
    ensures
        (command_at(s, st.position) matches Some(Op::Add { ptr, op }) && cell_in_memory(st, ptr)
            && i32::MIN <= st.memory[st.ptr + ptr] + op <= i32::MAX) ==> steppable(s, st, input),
        (command_at(s, st.position) matches Some(Op::Move { diff }) && i32::MIN <= st.ptr + diff
            <= i32::MAX) ==> steppable(s, st, input),
        (command_at(s, st.position) matches Some(Op::Output { ptr }) && cell_in_memory(st, ptr))
            ==> steppable(s, st, input),
        (command_at(s, st.position) matches Some(Op::Input { ptr }) && (input is None
            || cell_in_memory(st, ptr))) ==> steppable(s, st, input),
        (command_at(s, st.position) matches Some(Op::Loop { body, ptr }) && cell_in_memory(st, ptr))
            ==> steppable(s, st, input),
        (command_at(s, st.position) is None && st.position.len() == 1) ==> steppable(s, st, input),
        (command_at(s, st.position) is None && st.position.len() >= 2 && cell_in_memory(
            st,
            enclosing_loop_ptr(s, st.position),
        )) ==> steppable(s, st, input),
{
}

/// Every step that the optimizing interpreter takes reads or writes only cells of the
/// memory, and its sums are values of `i32`.
pub proof fn lemma_steps_stay_in_bounds(s: Seq<Op>, st: RunState, input: Option<u8>)
    requires
        steppable(s, st, input),
    ensures
        command_at(s, st.position) matches Some(Op::Add { ptr, op }) ==> cell_in_memory(st, ptr)
            && i32::MIN <= st.memory[st.ptr + ptr] + op <= i32::MAX,
        command_at(s, st.position) matches Some(Op::Move { diff }) ==> i32::MIN <= st.ptr + diff
            <= i32::MAX,
        command_at(s, st.position) matches Some(Op::Output { ptr }) ==> cell_in_memory(st, ptr),
        command_at(s, st.position) matches Some(Op::Input { ptr }) ==> (input is Some
            ==> cell_in_memory(st, ptr)),
        command_at(s, st.position) matches Some(Op::Loop { body, ptr }) ==> cell_in_memory(st, ptr),
        (command_at(s, st.position) is None && st.position.len() >= 2) ==> cell_in_memory(
            st,
            enclosing_loop_ptr(s, st.position),
        ),
{
}

/// The kind of a command, with its numbers and without its body.
enum Kind {
    Add(i32, i32),
    Move(i32),
    Output(i32),
    Input(i32),
    Loop(i32),
}

spec fn describes(k: Kind, c: Op) -> bool {
    match c {
        Op::Add { ptr, op } => k matches Kind::Add(p, o) && p == ptr && o == op,
        Op::Move { diff } => k matches Kind::Move(d) && d == diff,
        Op::Output { ptr } => k matches Kind::Output(p) && p == ptr,
        Op::Input { ptr } => k matches Kind::Input(p) && p == ptr,
        Op::Loop { body, ptr } => k matches Kind::Loop(p) && p == ptr,
    }
}

fn command_kind(c: &Command) -> (k: Kind)
    ensures
        describes(k, view_command(*c)),
{
    match c {
        Command::Add { ptr, op } => Kind::Add(*ptr, *op),
        Command::Move { ptr_diff } => Kind::Move(*ptr_diff),
        Command::Output { ptr } => Kind::Output(*ptr),
        Command::Input { ptr } => Kind::Input(*ptr),
        Command::Loop { inner_commands, ptr } => Kind::Loop(*ptr),
    }
}

/// The loop indices before any point are valid too.
proof fn lemma_valid_loops_prefix(s: Seq<Op>, loops: Seq<usize>, n: int)
    requires
        valid_loops(s, loops),
        0 <= n <= loops.len(),
    ensures
        valid_loops(s, loops.take(n)),
    decreases loops.len(),
{
    if n == loops.len() {
        assert(loops.take(n) =~= loops);
    } else {
        lemma_valid_loops_prefix(s, loops.drop_last(), n);
        assert(loops.drop_last().take(n) =~= loops.take(n));
    }
}

/// The body that the indices `position[..n]` lead to.
fn body_of<'a>(commands: &'a CommandSequence, position: &Vec<usize>, n: usize) -> (r:
    &'a CommandSequence)
    requires
        valid_position(commands@, position@),
        n < position@.len(),
    ensures
        r@ == body_at(commands@, position@.take(n as int)),
{
    let mut body = commands;
    let mut j: usize = 0;
    assert(position@.take(0) =~= Seq::<usize>::empty());
    while j < n
        invariant
            j <= n,
            n < position@.len(),
            valid_position(commands@, position@),
            body@ == body_at(commands@, position@.take(j as int)),
        decreases n - j,
    {
        let idx = position[j];
        proof {
            let loops = position@.drop_last();
            lemma_valid_loops_prefix(commands@, loops, j + 1);
            assert(loops.take(j + 1).drop_last() =~= loops.take(j as int));
            assert(loops.take(j + 1).last() == idx);
            assert(position@.take(j as int) =~= loops.take(j as int));
            assert(position@.take(j + 1).drop_last() =~= position@.take(j as int));
            assert(position@.take(j + 1).last() == idx);
            lemma_view_commands_index(body.commands@);
        }
        match &body.commands[idx] {
            Command::Loop { inner_commands, ptr } => {
                body = inner_commands;
            },
            _ => {
                proof {
                    assert(false);
                }
            },
        }
        j = j + 1;
    }
    body
}

/// Moving past a command of the body keeps the position valid.
pub proof fn lemma_advance_valid(s: Seq<Op>, pos: Seq<usize>)
    requires
        valid_position(s, pos),
        pos.last() < body_at(s, pos.drop_last()).len(),
    ensures
        valid_position(s, advance(pos)),
{
    assert(advance(pos).drop_last() =~= pos.drop_last());
}

/// Entering the loop at the position keeps it valid.
pub proof fn lemma_enter_valid(s: Seq<Op>, pos: Seq<usize>)
    requires
        valid_position(s, pos),
        pos.last() < body_at(s, pos.drop_last()).len(),
        body_at(s, pos.drop_last())[pos.last() as int] is Loop,
    ensures
        valid_position(s, pos.push(0)),
{
    assert(pos.push(0).drop_last() =~= pos);
}

/// Starting a loop body again keeps the position valid.
pub proof fn lemma_restart_valid(s: Seq<Op>, pos: Seq<usize>)
    requires
        valid_position(s, pos),
    ensures
        valid_position(s, pos.update(pos.len() - 1, 0)),
{
    assert(pos.update(pos.len() - 1, 0).drop_last() =~= pos.drop_last());
}

/// Leaving a loop body and moving past the loop keeps the position valid.
pub proof fn lemma_leave_valid(s: Seq<Op>, pos: Seq<usize>)
    requires
        valid_position(s, pos),
        pos.len() >= 2,
    ensures
        valid_position(s, advance(pos.drop_last())),
        pos[pos.len() - 2] < body_at(s, pos.drop_last().drop_last()).len(),
{
    let loops = pos.drop_last();
    assert(loops.last() == pos[pos.len() - 2]);
    lemma_advance_valid(s, loops);
}

impl View for RunTime {
    type V = RunState;

    closed spec fn view(&self) -> RunState {
        RunState { memory: self.memory@, ptr: self.memory_ptr as int, position: self.position@ }
    }
}

impl RunTime {
    /// The memory has its size.
    pub closed spec fn wf(&self) -> bool {
        self.memory@.len() == MEMORY_SIZE
    }
}

impl Program {
    /// The commands of the program.
    pub closed spec fn tree(&self) -> Seq<Op> {
        self.syntax_tree@
    }

    /// Parses and optimizes `code`.
    pub fn new(code: &str) -> (r: Result<Self, String>)
        requires
            normal::balanced(code@) ==> forall|plain: Seq<normal::Command>|
                #[trigger] normal::render(plain) == normal::program_text(code@)
                    ==> compress_fits(convert_all(plain)),
        ensures
            r is Ok <==> normal::balanced(code@),
            r matches Ok(p) ==> exists|plain: Seq<normal::Command>|
                #![trigger convert_all(plain)]
                {
                    &&& normal::render(plain) == normal::program_text(code@)
                    &&& p.tree() == compress(convert_all(plain))
                    &&& forall|m: Machine, fuel: nat|
                        run_ops(p.tree(), m, fuel) == run_ops(convert_all(plain), m, fuel)
                },
            r matches Err(msg) ==> {
                ||| exists|i: int|
                    normal::unmatched_close_at(code@, i) && msg@
                        == normal::unmatched_close_message(i as nat)
                ||| exists|i: int|
                    normal::unmatched_open_at(code@, i) && msg@
                        == normal::unmatched_open_message(i as nat)
            },
    {
        Ok(Program { syntax_tree: SyntaxTree::new(code)? })
    }

    /// Every body of the program holds at most `usize::MAX` commands.
    pub proof fn lemma_tree_fits(&self)
        ensures
            crate::agreement::lengths_fit(self.tree()),
    {
        assert(self.syntax_tree.commands.commands@.len() == self.syntax_tree.commands.commands.len());
        crate::agreement::lemma_view_commands_fit(self.syntax_tree.commands.commands@);
    }

    /// The optimized syntax tree.
    pub fn syntax_tree(&self) -> (r: &SyntaxTree)
        ensures
            r@ == self.tree(),
    {
        &self.syntax_tree
    }

    /// A running state with all memory cells zero, at the start of the program.
    pub fn start(&self) -> (r: RunTime)
        ensures
            r.wf(),
            r@ == initial_run_state(),
    {
        let mut position: Vec<usize> = Vec::new();
        position.push(0);
        let r = RunTime { memory: vec![0u8; MEMORY_SIZE], memory_ptr: 0, position };
        proof {
            assert(r.memory@ =~= initial_run_state().memory);
            assert(r.position@ =~= seq![0usize]);
        }
        r
    }

    /// Whether the next step of `runtime`, given `input`, can be taken.
    pub fn can_step(&self, runtime: &RunTime, input: Option<u8>) -> (r: bool)
        requires
            runtime.wf(),
            valid_position(self.tree(), runtime@.position),
        ensures
            r == steppable(self.tree(), runtime@, input),
    {
        let k = runtime.position.len() - 1;
        let i = runtime.position[k];
        let body = body_of(&self.syntax_tree.commands, &runtime.position, k);
        proof {
            assert(runtime.position@.take(k as int) =~= runtime.position@.drop_last());
            lemma_view_commands_index(body.commands@);
        }
        if i < body.commands.len() {
            match command_kind(&body.commands[i]) {
                Kind::Add(ptr, op) => {
                    match runtime.cell_index(ptr) {
                        Some(idx) => {
                            let v = runtime.memory[idx] as i32;
                            (op >= 0 && v <= i32::MAX - op) || (op < 0 && v >= i32::MIN - op)
                        },
                        None => false,
                    }
                },
                Kind::Move(diff) => runtime.memory_ptr.checked_add(diff).is_some(),
                Kind::Output(ptr) => runtime.cell_index(ptr).is_some(),
                Kind::Input(ptr) => input.is_none() || runtime.cell_index(ptr).is_some(),
                Kind::Loop(ptr) => runtime.cell_index(ptr).is_some(),
            }
        } else if k == 0 {
            true
        } else {
            let ptr = self.enclosing_ptr(runtime);
            runtime.cell_index(ptr).is_some()
        }
    }

    /// The cell offset that the loop enclosing the position of `runtime` tests.
    fn enclosing_ptr(&self, runtime: &RunTime) -> (ptr: i32)
        requires
            valid_position(self.tree(), runtime@.position),
            runtime@.position.len() >= 2,
        ensures
            ptr as int == enclosing_loop_ptr(self.tree(), runtime@.position),
    {
        let k = runtime.position.len() - 1;
        let j = runtime.position[k - 1];
        let outer = body_of(&self.syntax_tree.commands, &runtime.position, k - 1);
        proof {
            let loops = runtime@.position.drop_last();
            assert(runtime.position@.take(k - 1) =~= loops.drop_last());
            assert(loops.last() == j);
            lemma_view_commands_index(outer.commands@);
        }
        match &outer.commands[j] {
            Command::Loop { inner_commands, ptr } => *ptr,
            _ => {
                proof {
                    assert(false);
                }
                0
            },
        }
    }

    /// Runs one step of `runtime`: the next command, or the test at the end of a loop body.
    pub fn step(&self, runtime: &mut RunTime, input: Option<u8>) -> (a: Action)
        requires
            old(runtime).wf(),
            valid_position(self.tree(), old(runtime)@.position),
            steppable(self.tree(), old(runtime)@, input),
        ensures
            final(runtime).wf(),
            valid_position(self.tree(), final(runtime)@.position),
            final(runtime)@ == next(self.tree(), old(runtime)@, input).0,
            a == next(self.tree(), old(runtime)@, input).1,
    {
        let k = runtime.position.len() - 1;
        let i = runtime.position[k];
        let body = body_of(&self.syntax_tree.commands, &runtime.position, k);
        proof {
            assert(runtime.position@.take(k as int) =~= runtime.position@.drop_last());
            lemma_view_commands_index(body.commands@);
        }
        if i < body.commands.len() {
            let kind = command_kind(&body.commands[i]);
            runtime.step_command(Ghost(self.tree()), kind, input)
        } else if k == 0 {
            Action::Halt
        } else {
            let ptr = self.enclosing_ptr(runtime);
            let j = runtime.position[k - 1];
            let outer = body_of(&self.syntax_tree.commands, &runtime.position, k - 1);
            proof {
                let loops = runtime@.position.drop_last();
                assert(runtime.position@.take(k - 1) =~= loops.drop_last());
                lemma_view_commands_index(outer.commands@);
                lemma_leave_valid(self.tree(), runtime@.position);
                lemma_restart_valid(self.tree(), runtime@.position);
                assert(j < outer@.len());
                assert(j < outer.commands.len());
            }
            let idx = runtime.cell_index(ptr).unwrap();
            if runtime.memory[idx] != 0 {
                runtime.position.set(k, 0);
            } else {
                runtime.position.pop();
                runtime.position.set(k - 1, j + 1);
            }
            Action::Continue
        }
    }
}

impl RunTime {
    /// The index of the cell at offset `ptr` from the pointer, if it can be reached.
    fn cell_index(&self, ptr: i32) -> (r: Option<usize>)
        requires
            self.wf(),
        ensures
            r is Some <==> reachable(self@, ptr as int),
            r matches Some(idx) ==> idx as int == self@.ptr + ptr && idx < self.memory@.len(),
    {
        match self.memory_ptr.checked_add(ptr) {
            Some(p) => {
                if p >= 0 && (p as usize) < self.memory.len() {
                    Some(p as usize)
                } else {
                    None
                }
            },
            None => None,
        }
    }

    /// Moves the position past the current command.
    fn advance_position(&mut self, Ghost(s): Ghost<Seq<Op>>)
        requires
            valid_position(s, old(self).position@),
            old(self).position@.last() < body_at(s, old(self).position@.drop_last()).len(),
            body_at(s, old(self).position@.drop_last()).len() <= usize::MAX,
        ensures
            valid_position(s, final(self).position@),
            final(self).memory@ == old(self).memory@,
            final(self).memory_ptr == old(self).memory_ptr,
            final(self).position@ == advance(old(self).position@),
    {
        let k = self.position.len() - 1;
        let i = self.position[k];
        proof {
            lemma_advance_valid(s, self.position@);
        }
        self.position.set(k, i + 1);
    }

    /// Runs the command at the position.
    #[verifier::rlimit(40)]
    fn step_command(&mut self, Ghost(s): Ghost<Seq<Op>>, kind: Kind, input: Option<u8>) -> (a:
        Action)
        requires
            old(self).wf(),
            valid_position(s, old(self).position@),
            steppable(s, old(self)@, input),
            old(self).position@.last() < body_at(s, old(self).position@.drop_last()).len(),
            body_at(s, old(self).position@.drop_last()).len() <= usize::MAX,
            describes(kind, body_at(s, old(self).position@.drop_last())[old(self).position@.last() as int]),
        ensures
            final(self).wf(),
            valid_position(s, final(self).position@),
            final(self)@ == next(s, old(self)@, input).0,
            a == next(s, old(self)@, input).1,
    {
        match kind {
            Kind::Add(ptr, op) => {
                let idx = self.cell_index(ptr).unwrap();
                let sum = self.memory[idx] as i32 + op;
                let v = match sum.checked_rem_euclid(256) {
                    Some(r) => r as u8,
                    None => 0,
                };
                self.memory.set(idx, v);
                self.advance_position(Ghost(s));
                Action::Continue
            },
            Kind::Move(diff) => {
                self.memory_ptr = self.memory_ptr + diff;
                self.advance_position(Ghost(s));
                Action::Continue
            },
            Kind::Output(ptr) => {
                let idx = self.cell_index(ptr).unwrap();
                let v = self.memory[idx];
                self.advance_position(Ghost(s));
                Action::Output(v)
            },
            Kind::Input(ptr) => {
                match input {
                    Some(b) => {
                        let idx = self.cell_index(ptr).unwrap();
                        self.memory.set(idx, b);
                        self.advance_position(Ghost(s));
                        Action::Continue
                    },
                    None => Action::NeedInput,
                }
            },
            Kind::Loop(ptr) => {
                let idx = self.cell_index(ptr).unwrap();
                if self.memory[idx] != 0 {
                    proof {
                        lemma_enter_valid(s, self.position@);
                    }
                    self.position.push(0);
                } else {
                    self.advance_position(Ghost(s));
                }
                Action::Continue
            },
        }
    }
}

} // verus!
