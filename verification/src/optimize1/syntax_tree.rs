//! A syntax tree in which `><+-` became `Move` and `Add` commands, and every command
//! names the cell it works on by its offset from the pointer.
use vstd::prelude::*;

use crate::optimize1::optimize;
use crate::optimize1::semantics::{run_ops, Machine};
use crate::syntax_tree as normal;

verus! {

/// The syntax tree with `Add` and `Move` commands in place of `><+-`.
#[derive(Debug)]
pub struct SyntaxTree {
    pub commands: CommandSequence,
}

/// A sequence of commands.
#[derive(Debug)]
pub struct CommandSequence {
    /// The commands, in order.
    pub commands: Vec<Command>,
}

/// A command whose cell is given relative to the pointer.
#[derive(Debug)]
pub enum Command {
    /// Add `op` to the cell at offset `ptr`.
    Add { ptr: i32, op: i32 },
    /// Move the pointer by `ptr_diff`.
    Move { ptr_diff: i32 },
    /// Output the cell at offset `ptr`.
    Output { ptr: i32 },
    /// Read one byte into the cell at offset `ptr`.
    Input { ptr: i32 },
    /// Repeat `inner_commands` while the cell at offset `ptr` is not zero.
    Loop { inner_commands: CommandSequence, ptr: i32 },
}

// ---------------------------------------------------------------------------
// The mathematical model of commands
// ---------------------------------------------------------------------------

/// A command with its numbers as integers.
pub enum Op {
    Add { ptr: int, op: int },
    Move { diff: int },
    Output { ptr: int },
    Input { ptr: int },
    Loop { body: Seq<Op>, ptr: int },
}

/// The model of a command.
pub open spec fn view_command(c: Command) -> Op
    decreases c,
{
    match c {
        Command::Add { ptr, op } => Op::Add { ptr: ptr as int, op: op as int },
        Command::Move { ptr_diff } => Op::Move { diff: ptr_diff as int },
        Command::Output { ptr } => Op::Output { ptr: ptr as int },
        Command::Input { ptr } => Op::Input { ptr: ptr as int },
        Command::Loop { inner_commands, ptr } => {
            proof {
                assert(decreases_to!(c => inner_commands.commands@)) by {
                    assert(decreases_to!(c => inner_commands));
                    assert(decreases_to!(inner_commands => inner_commands.commands));
                    assert(decreases_to!(inner_commands.commands => inner_commands.commands@));
                }
            }
            Op::Loop { body: view_commands(inner_commands.commands@), ptr: ptr as int }
        },
    }
}

/// The model of a sequence of commands.
pub open spec fn view_commands(s: Seq<Command>) -> Seq<Op>
    decreases s,
{
    if s.len() == 0 {
        seq![]
    } else {
        proof {
            assert(decreases_to!(s => s[s.len() - 1]));
        }
        view_commands(s.subrange(0, s.len() - 1)).push(view_command(s[s.len() - 1]))
    }
}

impl View for Command {
    type V = Op;

    open spec fn view(&self) -> Op {
        view_command(*self)
    }
}

impl View for CommandSequence {
    type V = Seq<Op>;

    open spec fn view(&self) -> Seq<Op> {
        view_commands(self.commands@)
    }
}

impl View for SyntaxTree {
    type V = Seq<Op>;

    open spec fn view(&self) -> Seq<Op> {
        self.commands@
    }
}

/// `x` is a value of `i32`.
pub open spec fn in_i32(x: int) -> bool {
    i32::MIN <= x <= i32::MAX
}

/// Every number in the command is a value of `i32`.
pub open spec fn op_fits(c: Op) -> bool
    decreases c,
{
    match c {
        Op::Add { ptr, op } => in_i32(ptr) && in_i32(op),
        Op::Move { diff } => in_i32(diff),
        Op::Output { ptr } => in_i32(ptr),
        Op::Input { ptr } => in_i32(ptr),
        Op::Loop { body, ptr } => in_i32(ptr) && ops_fit(body),
    }
}

/// Every number in the commands is a value of `i32`.
pub open spec fn ops_fit(s: Seq<Op>) -> bool
    decreases s,
{
    if s.len() == 0 {
        true
    } else {
        proof {
            assert(decreases_to!(s => s[s.len() - 1]));
        }
        ops_fit(s.subrange(0, s.len() - 1)) && op_fits(s[s.len() - 1])
    }
}

/// The command with every cell offset moved `d` to the right; moves stay as they are.
pub open spec fn shift_op(c: Op, d: int) -> Op
    decreases c,
{
    match c {
        Op::Add { ptr, op } => Op::Add { ptr: ptr + d, op },
        Op::Move { diff } => Op::Move { diff },
        Op::Output { ptr } => Op::Output { ptr: ptr + d },
        Op::Input { ptr } => Op::Input { ptr: ptr + d },
        Op::Loop { body, ptr } => Op::Loop { body: shift_ops(body, d), ptr: ptr + d },
    }
}

/// The commands with every cell offset moved `d` to the right.
pub open spec fn shift_ops(s: Seq<Op>, d: int) -> Seq<Op>
    decreases s,
{
    if s.len() == 0 {
        seq![]
    } else {
        proof {
            assert(decreases_to!(s => s[s.len() - 1]));
        }
        shift_ops(s.subrange(0, s.len() - 1), d).push(shift_op(s[s.len() - 1], d))
    }
}

/// The model of a command of the plain syntax tree.
pub open spec fn convert(c: normal::Command) -> Op
    decreases c,
{
    match c {
        normal::Command::PtrIncr => Op::Move { diff: 1 },
        normal::Command::PtrDecr => Op::Move { diff: -1 },
        normal::Command::ValIncr => Op::Add { ptr: 0, op: 1 },
        normal::Command::ValDecr => Op::Add { ptr: 0, op: -1 },
        normal::Command::Output => Op::Output { ptr: 0 },
        normal::Command::Input => Op::Input { ptr: 0 },
        normal::Command::Loop { inner_commands } => {
            proof {
                assert(decreases_to!(c => inner_commands@)) by {
                    assert(decreases_to!(c => inner_commands));
                    assert(decreases_to!(inner_commands => inner_commands@));
                }
            }
            Op::Loop { body: convert_all(inner_commands@), ptr: 0 }
        },
    }
}

/// The model of a sequence of commands of the plain syntax tree.
pub open spec fn convert_all(s: Seq<normal::Command>) -> Seq<Op>
    decreases s,
{
    if s.len() == 0 {
        seq![]
    } else {
        proof {
            assert(decreases_to!(s => s[s.len() - 1]));
        }
        convert_all(s.subrange(0, s.len() - 1)).push(convert(s[s.len() - 1]))
    }
}

// ---------------------------------------------------------------------------
// Lemmas on sequences defined by their last element
// ---------------------------------------------------------------------------

pub proof fn lemma_view_commands_index(s: Seq<Command>)
    ensures
        view_commands(s).len() == s.len(),
        forall|i: int| 0 <= i < s.len() ==> #[trigger] view_commands(s)[i] == view_command(s[i]),
    decreases s.len(),
{
    if s.len() > 0 {
        lemma_view_commands_index(s.subrange(0, s.len() - 1));
    }
}

pub proof fn lemma_view_commands_push(x: Seq<Command>, c: Command)
    ensures
        view_commands(x.push(c)) == view_commands(x).push(view_command(c)),
{
    assert(x.push(c).subrange(0, x.len() as int) =~= x);
}

pub proof fn lemma_shift_ops_index(s: Seq<Op>, d: int)
    ensures
        shift_ops(s, d).len() == s.len(),
        forall|i: int| 0 <= i < s.len() ==> #[trigger] shift_ops(s, d)[i] == shift_op(s[i], d),
    decreases s.len(),
{
    if s.len() > 0 {
        lemma_shift_ops_index(s.subrange(0, s.len() - 1), d);
    }
}

pub proof fn lemma_ops_fit_index(s: Seq<Op>)
    ensures
        ops_fit(s) <==> forall|i: int| 0 <= i < s.len() ==> #[trigger] op_fits(s[i]),
    decreases s.len(),
{
    if s.len() > 0 {
        let p = s.subrange(0, s.len() - 1);
        lemma_ops_fit_index(p);
        assert(forall|i: int| 0 <= i < p.len() ==> p[i] == s[i]);
        if ops_fit(s) {
            assert forall|i: int| 0 <= i < s.len() implies #[trigger] op_fits(s[i]) by {
                if i < p.len() {
                    assert(op_fits(p[i]));
                }
            }
        }
        if forall|i: int| 0 <= i < s.len() ==> #[trigger] op_fits(s[i]) {
            assert forall|i: int| 0 <= i < p.len() implies #[trigger] op_fits(p[i]) by {
                assert(op_fits(s[i]));
            }
            assert(ops_fit(p));
            assert(op_fits(s[s.len() - 1]));
            assert(ops_fit(s));
        }
    }
}

pub proof fn lemma_convert_all_index(s: Seq<normal::Command>)
    ensures
        convert_all(s).len() == s.len(),
        forall|i: int| 0 <= i < s.len() ==> #[trigger] convert_all(s)[i] == convert(s[i]),
    decreases s.len(),
{
    if s.len() > 0 {
        lemma_convert_all_index(s.subrange(0, s.len() - 1));
    }
}

/// Two sequences of commands are equal when their elements are.
pub proof fn lemma_ops_ext(a: Seq<Op>, b: Seq<Op>)
    requires
        a.len() == b.len(),
        forall|i: int| 0 <= i < a.len() ==> a[i] == b[i],
    ensures
        a == b,
{
    assert(a =~= b);
}

// ---------------------------------------------------------------------------
// Laws of shifting
// ---------------------------------------------------------------------------

/// Shifting a command by zero leaves it as it is.
pub proof fn lemma_shift_op_zero(c: Op)
    ensures
        shift_op(c, 0) == c,
    decreases c,
{
    match c {
        Op::Loop { body, ptr } => {
            lemma_shift_ops_zero(body);
        },
        _ => {},
    }
}

/// Shifting commands by zero leaves them as they are.
pub proof fn lemma_shift_ops_zero(s: Seq<Op>)
    ensures
        shift_ops(s, 0) == s,
    decreases s,
{
    lemma_shift_ops_index(s, 0);
    assert forall|i: int| 0 <= i < s.len() implies shift_ops(s, 0)[i] == s[i] by {
        assert(decreases_to!(s => s[i]));
        lemma_shift_op_zero(s[i]);
    }
    lemma_ops_ext(shift_ops(s, 0), s);
}

/// Shifting a command by `a` and then by `b` is shifting it by `a + b`.
pub proof fn lemma_shift_op_compose(c: Op, a: int, b: int)
    ensures
        shift_op(shift_op(c, a), b) == shift_op(c, a + b),
    decreases c,
{
    match c {
        Op::Loop { body, ptr } => {
            lemma_shift_ops_compose(body, a, b);
        },
        _ => {},
    }
}

/// Shifting commands by `a` and then by `b` is shifting them by `a + b`.
pub proof fn lemma_shift_ops_compose(s: Seq<Op>, a: int, b: int)
    ensures
        shift_ops(shift_ops(s, a), b) == shift_ops(s, a + b),
    decreases s,
{
    lemma_shift_ops_index(s, a);
    lemma_shift_ops_index(s, a + b);
    lemma_shift_ops_index(shift_ops(s, a), b);
    assert forall|i: int| 0 <= i < s.len() implies shift_ops(shift_ops(s, a), b)[i] == shift_ops(
        s,
        a + b,
    )[i] by {
        assert(decreases_to!(s => s[i]));
        lemma_shift_op_compose(s[i], a, b);
    }
    lemma_ops_ext(shift_ops(shift_ops(s, a), b), shift_ops(s, a + b));
}

// ---------------------------------------------------------------------------
// Executable functions
// ---------------------------------------------------------------------------

impl SyntaxTree {
    /// Parses `code`, turns the plain syntax tree into `Add` and `Move` commands, and
    /// optimizes it.
    pub fn new(code: &str) -> (r: Result<Self, String>)
        requires
            normal::balanced(code@) ==> forall|plain: Seq<normal::Command>|
                #[trigger] normal::render(plain) == normal::program_text(code@)
                    ==> optimize::compress_fits(convert_all(plain)),
        ensures
            r is Ok <==> normal::balanced(code@),
            r matches Ok(t) ==> exists|plain: Seq<normal::Command>|
                #![trigger convert_all(plain)]
                {
                    &&& normal::render(plain) == normal::program_text(code@)
                    &&& t@ == optimize::compress(convert_all(plain))
                    &&& forall|m: Machine, fuel: nat|
                        run_ops(t@, m, fuel) == run_ops(convert_all(plain), m, fuel)
                },
            r matches Err(msg) ==> {
                ||| exists|i: int|
                    normal::unmatched_close_at(code@, i) && msg@
                        == normal::unmatched_close_message(i as nat)
                ||| exists|i: int|
                    normal::unmatched_open_at(code@, i) && msg@
                        == normal::unmatched_open_message(i as nat)
            },
    {
        let normal_syntree = normal::SyntaxTree::new(code)?;
        let syntax_tree = Self::from(&normal_syntree);
        proof {
            assert(normal::render(normal_syntree.commands@) == normal::program_text(code@));
        }
        Ok(optimize::optimize(syntax_tree))
    }

    /// The tree of `Add` and `Move` commands that does what the plain tree does.
    pub fn from(normal_syntaxtree: &normal::SyntaxTree) -> (r: Self)
        ensures
            r@ == convert_all(normal_syntaxtree.commands@),
    {
        SyntaxTree { commands: CommandSequence::from(&normal_syntaxtree.commands) }
    }
}

impl CommandSequence {
    /// Moves the cell of every command `diff` to the right.
    pub fn shift(&self, diff: i32) -> (r: Self)
        requires
            ops_fit(shift_ops(self@, diff as int)),
        ensures
            r@ == shift_ops(self@, diff as int),
        decreases self,
    {
        let ghost s = self.commands@;
        let mut commands: Vec<Command> = Vec::new();
        let mut i: usize = 0;
        proof {
            lemma_view_commands_index(s);
            lemma_shift_ops_index(view_commands(s), diff as int);
            lemma_ops_fit_index(shift_ops(view_commands(s), diff as int));
            assert(commands@ =~= Seq::<Command>::empty());
            assert(s.subrange(0, 0) =~= Seq::<Command>::empty());
        }
        while i < self.commands.len()
            invariant
                i <= s.len(),
                s == self.commands@,
                ops_fit(shift_ops(view_commands(s), diff as int)),
                view_commands(s).len() == s.len(),
                shift_ops(view_commands(s), diff as int).len() == s.len(),
                forall|j: int| 0 <= j < s.len() ==> #[trigger] view_commands(s)[j] == view_command(s[j]),
                forall|j: int|
                    0 <= j < s.len() ==> #[trigger] shift_ops(view_commands(s), diff as int)[j]
                        == shift_op(view_commands(s)[j], diff as int),
                forall|j: int|
                    0 <= j < s.len() ==> #[trigger] op_fits(shift_ops(view_commands(s), diff as int)[j]),
                view_commands(commands@) == shift_ops(view_commands(s.subrange(0, i as int)), diff as int),
            decreases s.len() - i,
        {
            let ghost prev = commands@;
            proof {
                assert(decreases_to!(self => self.commands[i as int])) by {
                    assert(decreases_to!(self => self.commands));
                    assert(decreases_to!(self.commands => self.commands@));
                    assert(decreases_to!(self.commands@ => self.commands@[i as int]));
                }
                assert(op_fits(shift_ops(view_commands(s), diff as int)[i as int]));
                assert(op_fits(shift_op(view_command(s[i as int]), diff as int)));
            }
            let c = self.commands[i].shift(diff);
            commands.push(c);
            proof {
                assert(commands@.subrange(0, commands@.len() - 1) =~= prev);
                assert(s.subrange(0, i + 1).subrange(0, i as int) =~= s.subrange(0, i as int));
                let x = view_commands(s.subrange(0, i + 1));
                assert(x == view_commands(s.subrange(0, i as int)).push(view_command(s[i as int])));
                assert(x.subrange(0, x.len() - 1) =~= view_commands(s.subrange(0, i as int)));
                assert(view_commands(commands@) == view_commands(prev).push(view_command(c)));
            }
            i = i + 1;
        }
        proof {
            assert(s.subrange(0, s.len() as int) =~= s);
        }
        CommandSequence { commands }
    }

    /// The sequence of `Add` and `Move` commands that does what the plain commands do.
    pub fn from(normal_commands: &Vec<normal::Command>) -> (r: Self)
        ensures
            r@ == convert_all(normal_commands@),
        decreases normal_commands,
    {
        let ghost s = normal_commands@;
        let mut commands: Vec<Command> = Vec::new();
        let mut i: usize = 0;
        proof {
            assert(commands@ =~= Seq::<Command>::empty());
            assert(s.subrange(0, 0) =~= Seq::<normal::Command>::empty());
        }
        while i < normal_commands.len()
            invariant
                i <= s.len(),
                s == normal_commands@,
                view_commands(commands@) == convert_all(s.subrange(0, i as int)),
            decreases s.len() - i,
        {
            let ghost prev = commands@;
            proof {
                assert(decreases_to!(normal_commands => normal_commands[i as int])) by {
                    assert(decreases_to!(normal_commands => normal_commands@));
                    assert(decreases_to!(normal_commands@ => normal_commands@[i as int]));
                }
            }
            commands.push(Command::from(&normal_commands[i]));
            proof {
                assert(commands@.subrange(0, commands@.len() - 1) =~= prev);
                assert(s.subrange(0, i + 1).subrange(0, i as int) =~= s.subrange(0, i as int));
            }
            i = i + 1;
        }
        proof {
            assert(s.subrange(0, s.len() as int) =~= s);
        }
        CommandSequence { commands }
    }
}

impl Command {
    /// Moves the cell of the command `diff` to the right.
    pub fn shift(&self, diff: i32) -> (r: Self)
        requires
            op_fits(shift_op(self@, diff as int)),
        ensures
            r@ == shift_op(self@, diff as int),
        decreases self,
    {
        match self {
            Command::Add { ptr, op } => Command::Add { ptr: *ptr + diff, op: *op },
            Command::Move { ptr_diff } => Command::Move { ptr_diff: *ptr_diff },
            Command::Output { ptr } => Command::Output { ptr: *ptr + diff },
            Command::Input { ptr } => Command::Input { ptr: *ptr + diff },
            Command::Loop { inner_commands, ptr } => {
                proof {
                    assert(decreases_to!(self => inner_commands));
                }
                Command::Loop { inner_commands: inner_commands.shift(diff), ptr: *ptr + diff }
            },
        }
    }

    /// The `Add` or `Move` command that does what the plain command does.
    pub fn from(command: &normal::Command) -> (r: Self)
        ensures
            r@ == convert(*command),
        decreases command,
    {
        match command {
            normal::Command::PtrIncr => Command::Move { ptr_diff: 1 },
            normal::Command::PtrDecr => Command::Move { ptr_diff: -1 },
            normal::Command::ValIncr => Command::Add { ptr: 0, op: 1 },
            normal::Command::ValDecr => Command::Add { ptr: 0, op: -1 },
            normal::Command::Output => Command::Output { ptr: 0 },
            normal::Command::Input => Command::Input { ptr: 0 },
            normal::Command::Loop { inner_commands } => {
                proof {
                    assert(decreases_to!(command => inner_commands));
                }
                Command::Loop { inner_commands: CommandSequence::from(inner_commands), ptr: 0 }
            },
        }
    }
}

} // verus!
