//! An interpreter that walks the syntax tree, one command per step.
//!
//! The interpreter does no input or output itself: each step says what it needs done
//! (`Action`), and the byte that an input command reads is handed to the next step.
use vstd::prelude::*;

use crate::syntax_tree::{
    balanced,
    program_text,
    render,
    unmatched_close_at,
    unmatched_close_message,
    unmatched_open_at,
    unmatched_open_message,
    Command,
    SyntaxTree,
};

verus! {

/// The number of memory cells of a program.
pub const MEMORY_SIZE: usize = 30000;

/// What a step asks of its caller.
#[derive(Debug, Clone, Copy, PartialEq, Eq, Structural)]
pub enum Action {
    /// Nothing: go on stepping.
    Continue,
    /// Write this byte to the output.
    Output(u8),
    /// Read a byte and hand it to the next step; the step did nothing.
    NeedInput,
    /// The program has ended; the step did nothing.
    Halt,
}

/// The state of a running program: its memory, the pointer, and where it stands in the
/// syntax tree: the indices of the loops it is inside, outermost first, and then the index
/// of the next command in the innermost body.
pub struct State {
    pub memory: Seq<u8>,
    pub ptr: int,
    pub position: Seq<usize>,
}

/// A program and its running state.
pub struct Program {
    syntax_tree: SyntaxTree,
    memory: Vec<u8>,
    memory_ptr: usize,
    position: Vec<usize>,
}

/// The body that the loop indices `loops` lead to, starting from the top-level commands.
pub open spec fn body_at(cmds: Seq<Command>, loops: Seq<usize>) -> Seq<Command>
    decreases loops.len(),
{
    if loops.len() == 0 {
        cmds
    } else {
        let outer = body_at(cmds, loops.drop_last());
        let j = loops.last() as int;
        if 0 <= j < outer.len() {
            match outer[j] {
                Command::Loop { inner_commands } => inner_commands@,
                _ => seq![],
            }
        } else {
            seq![]
        }
    }
}

/// Each index of `loops` names a loop of the body that the indices before it lead to.
pub open spec fn valid_loops(cmds: Seq<Command>, loops: Seq<usize>) -> bool
    decreases loops.len(),
{
    if loops.len() == 0 {
        true
    } else {
        let outer = body_at(cmds, loops.drop_last());
        &&& valid_loops(cmds, loops.drop_last())
        &&& loops.last() < outer.len()
        &&& outer[loops.last() as int] is Loop
    }
}

/// Every index but the last names a loop of its body, and the last is at most the length
/// of the innermost body.
pub open spec fn valid_position(cmds: Seq<Command>, pos: Seq<usize>) -> bool {
    &&& pos.len() >= 1
    &&& valid_loops(cmds, pos.drop_last())
    &&& pos.last() <= body_at(cmds, pos.drop_last()).len()
}

/// The state of a program that has not run yet.
pub open spec fn initial_state() -> State {
    State { memory: Seq::new(MEMORY_SIZE as nat, |i: int| 0u8), ptr: 0, position: seq![0] }
}

/// `x + d` modulo 256.
pub open spec fn wrap_add(x: u8, d: int) -> u8 {
    ((x + d) % 256) as u8
}

/// The position after the current command.
pub open spec fn advance(pos: Seq<usize>) -> Seq<usize> {
    pos.update(pos.len() - 1, (pos.last() + 1) as usize)
}

/// One step of the program: the next state and what the step asks of its caller.
/// `input` is the byte handed to the step, which only an input command uses.
pub open spec fn next(cmds: Seq<Command>, st: State, input: Option<u8>) -> (State, Action) {
    let loops = st.position.drop_last();
    let i = st.position.last() as int;
    let body = body_at(cmds, loops);
    let forward = State { position: advance(st.position), ..st };
    if i < body.len() {
        match body[i] {
            Command::PtrIncr => (State { ptr: st.ptr + 1, ..forward }, Action::Continue),
            Command::PtrDecr => (State { ptr: st.ptr - 1, ..forward }, Action::Continue),
            Command::ValIncr => (
                State {
                    memory: st.memory.update(st.ptr, wrap_add(st.memory[st.ptr], 1)),
                    ..forward
                },
                Action::Continue,
            ),
            Command::ValDecr => (
                State {
                    memory: st.memory.update(st.ptr, wrap_add(st.memory[st.ptr], -1)),
                    ..forward
                },
                Action::Continue,
            ),
            Command::Output => (forward, Action::Output(st.memory[st.ptr])),
            Command::Input => match input {
                Some(b) => (State { memory: st.memory.update(st.ptr, b), ..forward }, Action::Continue),
                None => (st, Action::NeedInput),
            },
            Command::Loop { .. } => {
                if st.memory[st.ptr] != 0 {
                    (State { position: st.position.push(0), ..st }, Action::Continue)
                } else {
                    (forward, Action::Continue)
                }
            },
        }
    } else if loops.len() == 0 {
        (st, Action::Halt)
    } else if st.memory[st.ptr] != 0 {
        (State { position: st.position.update(st.position.len() - 1, 0), ..st }, Action::Continue)
    } else {
        (State { position: advance(loops), ..st }, Action::Continue)
    }
}

/// The step can be taken: the pointer does not leave `usize`, and a cell that the step
/// reads or writes is in the memory.
pub open spec fn steppable(cmds: Seq<Command>, st: State, input: Option<u8>) -> bool {
    let loops = st.position.drop_last();
    let i = st.position.last() as int;
    let body = body_at(cmds, loops);
    let in_memory = 0 <= st.ptr < st.memory.len();
    if i < body.len() {
        match body[i] {
            Command::PtrIncr => st.ptr < usize::MAX,
            Command::PtrDecr => st.ptr > 0,
            Command::Input => input is Some ==> in_memory,
            _ => in_memory,
        }
    } else if loops.len() == 0 {
        true
    } else {
        in_memory
    }
}

/// The command at the position, or `None` at the end of a body.
pub open spec fn command_at(cmds: Seq<Command>, pos: Seq<usize>) -> Option<Command> {
    let body = body_at(cmds, pos.drop_last());
    if pos.last() < body.len() {
        Some(body[pos.last() as int])
    } else {
        None
    }
}

/// With the pointer on a cell of the memory, the plain interpreter takes every step, at any
/// depth of loops, but a `<` with the pointer at zero and a `>` with the pointer at
/// `usize::MAX`.
pub proof fn lemma_steps_in_memory(cmds: Seq<Command>, st: State, input: Option<u8>)
    requires
        0 <= st.ptr < st.memory.len(),
        st.ptr <= usize::MAX,
        st.position.len() >= 1,
    ensures
        steppable(cmds, st, input) <==> !(command_at(cmds, st.position) == Some(Command::PtrDecr)
            && st.ptr == 0) && !(command_at(cmds, st.position) == Some(Command::PtrIncr) && st.ptr
            == usize::MAX),
{
}

/// With the pointer outside the memory, the plain interpreter takes only the steps that
/// touch no cell: a `>` below `usize::MAX`, a `<` above zero, an input that asks for its
/// byte, and the end of the program.
pub proof fn lemma_steps_outside_memory(cmds: Seq<Command>, st: State, input: Option<u8>)
    requires
        !(0 <= st.ptr < st.memory.len()),
        0 <= st.ptr <= usize::MAX,
        st.position.len() >= 1,
    ensures
        steppable(cmds, st, input) <==> {
            ||| command_at(cmds, st.position) == Some(Command::PtrIncr) && st.ptr < usize::MAX
            ||| command_at(cmds, st.position) == Some(Command::PtrDecr) && st.ptr > 0
            ||| command_at(cmds, st.position) == Some(Command::Input) && input is None
            ||| command_at(cmds, st.position) is None && st.position.len() == 1
        },
{
}

/// The kind of a command, without its body.
enum Kind {
    PtrIncr,
    PtrDecr,
    ValIncr,
    ValDecr,
    Output,
    Input,
    Loop,
    End,
}

spec fn kind_of(c: Command) -> Kind {
    match c {
        Command::PtrIncr => Kind::PtrIncr,
        Command::PtrDecr => Kind::PtrDecr,
        Command::ValIncr => Kind::ValIncr,
        Command::ValDecr => Kind::ValDecr,
        Command::Output => Kind::Output,
        Command::Input => Kind::Input,
        Command::Loop { .. } => Kind::Loop,
    }
}

fn command_kind(c: &Command) -> (k: Kind)
    ensures
        k == kind_of(*c),
{
    match c {
        Command::PtrIncr => Kind::PtrIncr,
        Command::PtrDecr => Kind::PtrDecr,
        Command::ValIncr => Kind::ValIncr,
        Command::ValDecr => Kind::ValDecr,
        Command::Output => Kind::Output,
        Command::Input => Kind::Input,
        Command::Loop { .. } => Kind::Loop,
    }
}

/// The body that the position stands in.
fn body_of<'a>(commands: &'a Vec<Command>, position: &Vec<usize>) -> (r: &'a Vec<Command>)
    requires
        valid_position(commands@, position@),
    ensures
        r@ == body_at(commands@, position@.drop_last()),
{
    let mut body = commands;
    let mut j: usize = 0;
    let k = position.len() - 1;
    assert(position@.take(0) =~= Seq::<usize>::empty());
    while j < k
        invariant
            j <= k,
            k == position@.len() - 1,
            valid_position(commands@, position@),
            body@ == body_at(commands@, position@.take(j as int)),
        decreases k - j,
    {
        let idx = position[j];
        proof {
            let loops = position@.drop_last();
            lemma_valid_loops_prefix(commands@, loops, j + 1);
            assert(loops.take(j + 1).drop_last() =~= loops.take(j as int));
            assert(loops.take(j + 1).last() == idx);
            assert(position@.take(j as int) =~= loops.take(j as int));
            assert(position@.take(j + 1).drop_last() =~= position@.take(j as int));
            assert(position@.take(j + 1).last() == idx);
        }
        match &body[idx] {
            Command::Loop { inner_commands } => {
                body = inner_commands;
            },
            _ => {
                proof {
                    assert(false);
                }
            },
        }
        j = j + 1;
    }
    assert(position@.take(k as int) =~= position@.drop_last());
    body
}

/// The loop indices before any point are valid too.
proof fn lemma_valid_loops_prefix(cmds: Seq<Command>, loops: Seq<usize>, n: int)
    requires
        valid_loops(cmds, loops),
        0 <= n <= loops.len(),
    ensures
        valid_loops(cmds, loops.take(n)),
    decreases loops.len(),
{
    if n == loops.len() {
        assert(loops.take(n) =~= loops);
    } else {
        lemma_valid_loops_prefix(cmds, loops.drop_last(), n);
        assert(loops.drop_last().take(n) =~= loops.take(n));
    }
}

/// A body holds at most `usize::MAX` commands.
proof fn lemma_body_len(cmds: Seq<Command>, loops: Seq<usize>)
    requires
        cmds.len() <= usize::MAX,
    ensures
        body_at(cmds, loops).len() <= usize::MAX,
    decreases loops.len(),
{
    if loops.len() > 0 {
        lemma_body_len(cmds, loops.drop_last());
        let outer = body_at(cmds, loops.drop_last());
        let j = loops.last() as int;
        if 0 <= j < outer.len() {
            match outer[j] {
                Command::Loop { inner_commands } => {
                    assert(inner_commands@.len() == inner_commands.len());
                },
                _ => {},
            }
        }
    }
}

impl View for Program {
    type V = State;

    closed spec fn view(&self) -> State {
        State { memory: self.memory@, ptr: self.memory_ptr as int, position: self.position@ }
    }
}

impl Program {
    /// The commands of the program.
    pub closed spec fn commands(&self) -> Seq<Command> {
        self.syntax_tree.commands@
    }

    /// The program holds at most `usize::MAX` top-level commands.
    pub proof fn lemma_commands_fit(&self)
        ensures
            self.commands().len() <= usize::MAX,
    {
        assert(self.syntax_tree.commands@.len() == self.syntax_tree.commands.len());
    }

    /// The position is valid and the memory has its size.
    pub closed spec fn wf(&self) -> bool {
        &&& valid_position(self.commands(), self.position@)
        &&& self.memory@.len() == MEMORY_SIZE
    }

    /// Parses `code` into a program with all memory cells zero, ready to run.
    pub fn new(code: &str) -> (r: Result<Self, String>)
        ensures
            r is Ok <==> balanced(code@),
            r matches Ok(p) ==> {
                &&& render(p.commands()) == program_text(code@)
                &&& p.wf()
                &&& p@ == initial_state()
            },
            r matches Err(msg) ==> {
                ||| exists|i: int|
                    unmatched_close_at(code@, i) && msg@ == unmatched_close_message(i as nat)
                ||| exists|i: int|
                    unmatched_open_at(code@, i) && msg@ == unmatched_open_message(i as nat)
            },
    {
        let syntax_tree = SyntaxTree::new(code)?;
        let memory = vec![0u8; MEMORY_SIZE];
        let mut position: Vec<usize> = Vec::new();
        position.push(0);
        let p = Program { syntax_tree, memory, memory_ptr: 0, position };
        proof {
            assert(p.memory@ =~= initial_state().memory);
            assert(p.position@ =~= seq![0usize]);
            assert(p.position@.drop_last() =~= Seq::<usize>::empty());
        }
        Ok(p)
    }

    /// Whether the next step, given `input`, can be taken.
    pub fn can_step(&self, input: Option<u8>) -> (r: bool)
        requires
            self.wf(),
        ensures
            r == steppable(self.commands(), self@, input),
    {
        let k = self.position.len() - 1;
        let i = self.position[k];
        let body = body_of(&self.syntax_tree.commands, &self.position);
        let in_memory = self.memory_ptr < self.memory.len();
        if i < body.len() {
            match command_kind(&body[i]) {
                Kind::PtrIncr => self.memory_ptr < usize::MAX,
                Kind::PtrDecr => self.memory_ptr > 0,
                Kind::Input => input.is_none() || in_memory,
                _ => in_memory,
            }
        } else if k == 0 {
            true
        } else {
            in_memory
        }
    }

    /// Runs one step: the next command, or the test at the end of a loop body.
    pub fn step(&mut self, input: Option<u8>) -> (a: Action)
        requires
            old(self).wf(),
            steppable(old(self).commands(), old(self)@, input),
        ensures
            final(self).wf(),
            final(self).commands() == old(self).commands(),
            final(self)@ == next(old(self).commands(), old(self)@, input).0,
            a == next(old(self).commands(), old(self)@, input).1,
    {
        let k = self.position.len() - 1;
        let i = self.position[k];
        let kind = {
            let body = body_of(&self.syntax_tree.commands, &self.position);
            if i < body.len() {
                command_kind(&body[i])
            } else {
                Kind::End
            }
        };
        match kind {
            Kind::End => self.step_end(),
            _ => self.step_command(kind, input),
        }
    }

    /// Moves the position past the current command.
    fn advance_position(&mut self)
        requires
            old(self).wf(),
            old(self).position@.last() < body_at(
                old(self).commands(),
                old(self).position@.drop_last(),
            ).len(),
        ensures
            final(self).wf(),
            final(self).commands() == old(self).commands(),
            final(self).memory@ == old(self).memory@,
            final(self).memory_ptr == old(self).memory_ptr,
            final(self).position@ == advance(old(self).position@),
    {
        let k = self.position.len() - 1;
        let i = self.position[k];
        proof {
            lemma_advance_valid(self.commands(), self.position@);
            assert(self.commands().len() == self.syntax_tree.commands.len());
            lemma_body_len(self.commands(), self.position@.drop_last());
        }
        self.position.set(k, i + 1);
    }

    /// Runs the command at the position.
    #[verifier::rlimit(40)]
    fn step_command(&mut self, kind: Kind, input: Option<u8>) -> (a: Action)
        requires
            old(self).wf(),
            steppable(old(self).commands(), old(self)@, input),
            old(self).position@.last() < body_at(
                old(self).commands(),
                old(self).position@.drop_last(),
            ).len(),
            kind == kind_of(
                body_at(old(self).commands(), old(self).position@.drop_last())[old(
                    self,
                ).position@.last() as int],
            ),
        ensures
            final(self).wf(),
            final(self).commands() == old(self).commands(),
            final(self)@ == next(old(self).commands(), old(self)@, input).0,
            a == next(old(self).commands(), old(self)@, input).1,
    {
        match kind {
            Kind::PtrIncr => {
                self.memory_ptr = self.memory_ptr + 1;
                self.advance_position();
                Action::Continue
            },
            Kind::PtrDecr => {
                self.memory_ptr = self.memory_ptr - 1;
                self.advance_position();
                Action::Continue
            },
            Kind::ValIncr => {
                let v = self.memory[self.memory_ptr];
                self.memory.set(self.memory_ptr, v.wrapping_add(1));
                self.advance_position();
                Action::Continue
            },
            Kind::ValDecr => {
                let v = self.memory[self.memory_ptr];
                self.memory.set(self.memory_ptr, v.wrapping_sub(1));
                self.advance_position();
                Action::Continue
            },
            Kind::Output => {
                let v = self.memory[self.memory_ptr];
                self.advance_position();
                Action::Output(v)
            },
            Kind::Input => {
                match input {
                    Some(b) => {
                        self.memory.set(self.memory_ptr, b);
                        self.advance_position();
                        Action::Continue
                    },
                    None => Action::NeedInput,
                }
            },
            _ => {
                if self.memory[self.memory_ptr] != 0 {
                    proof {
                        lemma_enter_valid(self.commands(), self.position@);
                    }
                    self.position.push(0);
                } else {
                    self.advance_position();
                }
                Action::Continue
            },
        }
    }

    /// Runs the end of the body at the position: ends the program, or tests the loop.
    fn step_end(&mut self) -> (a: Action)
        requires
            old(self).wf(),
            steppable(old(self).commands(), old(self)@, None),
            old(self).position@.last() == body_at(
                old(self).commands(),
                old(self).position@.drop_last(),
            ).len(),
        ensures
            final(self).wf(),
            final(self).commands() == old(self).commands(),
            forall|input: Option<u8>|
                #![trigger next(old(self).commands(), old(self)@, input)]
                final(self)@ == next(old(self).commands(), old(self)@, input).0 && a == next(
                    old(self).commands(),
                    old(self)@,
                    input,
                ).1,
    {
        let k = self.position.len() - 1;
        if k == 0 {
            Action::Halt
        } else if self.memory[self.memory_ptr] != 0 {
            proof {
                lemma_restart_valid(self.commands(), self.position@);
            }
            self.position.set(k, 0);
            Action::Continue
        } else {
            proof {
                lemma_leave_valid(self.commands(), self.position@);
                assert(self.commands().len() == self.syntax_tree.commands.len());
                lemma_body_len(self.commands(), self.position@.drop_last().drop_last());
            }
            self.position.pop();
            let j = self.position[k - 1];
            self.position.set(k - 1, j + 1);
            Action::Continue
        }
    }
}

// ---------------------------------------------------------------------------
// Lemmas on positions
// ---------------------------------------------------------------------------

/// Moving past a command of the body keeps the position valid.
proof fn lemma_advance_valid(cmds: Seq<Command>, pos: Seq<usize>)
    requires
        valid_position(cmds, pos),
        pos.last() < body_at(cmds, pos.drop_last()).len(),
    ensures
        valid_position(cmds, advance(pos)),
{
    assert(advance(pos).drop_last() =~= pos.drop_last());
}

/// Entering the loop at the position keeps it valid.
proof fn lemma_enter_valid(cmds: Seq<Command>, pos: Seq<usize>)
    requires
        valid_position(cmds, pos),
        pos.last() < body_at(cmds, pos.drop_last()).len(),
        body_at(cmds, pos.drop_last())[pos.last() as int] is Loop,
    ensures
        valid_position(cmds, pos.push(0)),
{
    assert(pos.push(0).drop_last() =~= pos);
}

/// Starting a loop body again keeps the position valid.
proof fn lemma_restart_valid(cmds: Seq<Command>, pos: Seq<usize>)
    requires
        valid_position(cmds, pos),
    ensures
        valid_position(cmds, pos.update(pos.len() - 1, 0)),
{
    assert(pos.update(pos.len() - 1, 0).drop_last() =~= pos.drop_last());
}

/// Leaving a loop body and moving past the loop keeps the position valid.
proof fn lemma_leave_valid(cmds: Seq<Command>, pos: Seq<usize>)
    requires
        valid_position(cmds, pos),
        pos.len() >= 2,
    ensures
        valid_position(cmds, advance(pos.drop_last())),
        pos[pos.len() - 2] < body_at(cmds, pos.drop_last().drop_last()).len(),
{
    let loops = pos.drop_last();
    assert(loops.last() == pos[pos.len() - 2]);
    lemma_advance_valid(cmds, loops);
}

} // verus!
