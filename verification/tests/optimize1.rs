use brainfuck::interpreter_with_syntree::Action;
use brainfuck::optimize1::optimize::optimize;
use brainfuck::optimize1::syntax_tree::{Command, CommandSequence, SyntaxTree};
use brainfuck::optimize1::Program;
use brainfuck::syntax_tree as normal;

/// A short text form of optimized commands, for comparisons.
fn show(seq: &CommandSequence) -> String {
    let mut parts = Vec::new();
    for c in &seq.commands {
        parts.push(match c {
            Command::Add { ptr, op } => format!("A{}:{}", ptr, op),
            Command::Move { ptr_diff } => format!("M{}", ptr_diff),
            Command::Output { ptr } => format!("O{}", ptr),
            Command::Input { ptr } => format!("I{}", ptr),
            Command::Loop { inner_commands, ptr } => {
                format!("L{}[{}]", ptr, show(inner_commands))
            }
        });
    }
    parts.join(" ")
}

fn run(program: &Program, input: &[u8]) -> Result<Vec<u8>, String> {
    let mut runtime = program.start();
    let mut out = Vec::new();
    let mut rest = input.iter();
    let mut byte = None;
    loop {
        assert!(program.can_step(&runtime, byte));
        match program.step(&mut runtime, byte) {
            Action::Continue => byte = None,
            Action::Output(b) => {
                out.push(b);
                byte = None;
            }
            Action::NeedInput => match rest.next() {
                Some(b) => byte = Some(*b),
                None => return Err("入力を読み込めませんでした\n".to_string()),
            },
            Action::Halt => return Ok(out),
        }
    }
}

#[test]
fn additions_and_moves_are_folded() {
    let tree = SyntaxTree::new("+++>>--<").unwrap();
    assert_eq!(show(&tree.commands), "A0:3 A2:-2 M1");
}

#[test]
fn output_carries_out_only_its_cell() {
    let tree = SyntaxTree::new("+>++.<").unwrap();
    assert_eq!(show(&tree.commands), "A1:2 O1 A0:1");
}

#[test]
fn input_drops_pending_addition() {
    let tree = SyntaxTree::new("++,.").unwrap();
    assert_eq!(show(&tree.commands), "I0 O0");
}

#[test]
fn loop_flushes_and_moves_once_before_it() {
    let tree = SyntaxTree::new(">>+[-<]").unwrap();
    assert_eq!(show(&tree.commands), "A2:1 M2 L0[A0:-1 M-1]");
}

#[test]
fn pending_move_is_made_right_before_the_loop() {
    let tree = SyntaxTree {
        commands: CommandSequence {
            commands: vec![
                Command::Move { ptr_diff: 1 },
                Command::Loop {
                    inner_commands: CommandSequence {
                        commands: vec![Command::Add { ptr: 0, op: -1 }],
                    },
                    ptr: 0,
                },
            ],
        },
    };
    assert!(tree.optimizable());
    assert_eq!(show(&optimize(tree).commands), "M1 L0[A0:-1]");
}

#[test]
fn large_numbers_that_fit_are_optimized() {
    let tree = SyntaxTree {
        commands: CommandSequence {
            commands: vec![
                Command::Add { ptr: 1 << 30, op: 1 << 30 },
                Command::Add { ptr: 1 << 30, op: 1 },
            ],
        },
    };
    assert!(tree.optimizable());
    assert_eq!(show(&optimize(tree).commands), "A1073741824:1073741825");
}

#[test]
fn overflowing_sums_are_not_optimizable() {
    let tree = SyntaxTree {
        commands: CommandSequence {
            commands: vec![
                Command::Add { ptr: 0, op: i32::MAX },
                Command::Add { ptr: 0, op: 1 },
            ],
        },
    };
    assert!(!tree.optimizable());
    let moves = SyntaxTree {
        commands: CommandSequence {
            commands: vec![
                Command::Move { ptr_diff: i32::MIN },
                Command::Move { ptr_diff: -1 },
            ],
        },
    };
    assert!(!moves.optimizable());
}

#[test]
fn cancelling_commands_vanish() {
    let tree = SyntaxTree::new("+-<>").unwrap();
    assert_eq!(show(&tree.commands), "");
}

#[test]
fn from_converts_each_command() {
    let plain = normal::SyntaxTree::new("><+-.,[+]").unwrap();
    let tree = SyntaxTree::from(&plain);
    assert_eq!(show(&tree.commands), "M1 M-1 A0:1 A0:-1 O0 I0 L0[A0:1]");
}

#[test]
fn shift_moves_cells_but_not_moves() {
    let plain = normal::SyntaxTree::new(">+.,[-]").unwrap();
    let seq = SyntaxTree::from(&plain).commands;
    assert_eq!(show(&seq.shift(3)), "M1 A3:1 O3 I3 L3[A3:-1]");
    assert_eq!(show(&seq.shift(-2)), "M1 A-2:1 O-2 I-2 L-2[A-2:-1]");
    // Shifting by zero changes nothing, and shifts compose.
    assert_eq!(show(&seq.shift(0)), show(&seq));
    assert_eq!(show(&seq.shift(3).shift(-2)), show(&seq.shift(1)));
}

#[test]
fn command_shift() {
    let c = Command::Loop {
        inner_commands: CommandSequence {
            commands: vec![Command::Add { ptr: 1, op: 5 }, Command::Move { ptr_diff: 2 }],
        },
        ptr: -1,
    };
    let shifted = c.shift(4);
    match shifted {
        Command::Loop { inner_commands, ptr } => {
            assert_eq!(ptr, 3);
            assert_eq!(show(&inner_commands), "A5:5 M2");
        }
        _ => panic!("expected a loop"),
    }
}

#[test]
fn optimize_direct() {
    let tree = SyntaxTree {
        commands: CommandSequence {
            commands: vec![
                Command::Add { ptr: 5, op: 2 },
                Command::Add { ptr: -1, op: 1 },
                Command::Move { ptr_diff: 3 },
                Command::Add { ptr: 2, op: 4 },
            ],
        },
    };
    let optimized = optimize(tree);
    assert_eq!(show(&optimized.commands), "A-1:1 A5:6 M3");
}

#[test]
fn optimized_hello_world() {
    let code = "+++++++++[>++++++++>+++++++++++>+++>+<<<<-]>.>++.+++++++..+++.>+++++.<<+++++++++++++++.>.+++.------.--------.>+.>+.";
    let program = Program::new(code).unwrap();
    assert_eq!(run(&program, b"").unwrap(), b"Hello World!\n".to_vec());
}

#[test]
fn optimized_prime_number() {
    let code = ">++++[<++++++++>-]>++++++++[<++++++>-]<++.<.>+.<.>++.<.>++.<.>------..<.>.++.<.>--.++++++.<.>------.>+++[<+++>-]<-.<.>-------.+.<.> -.+++++++.<.>------.--.<.>++.++++.<.>---.---.<.> +++.-.<.>+.+++.<.>--.--.<.> ++.++++.<.>---.-----.<.>+++++.+.<.>.------.<.> ++++++.----.<.> ++++.++.<.> -.-----.<.>+++++.+.<.>.--.";
    let program = Program::new(code).unwrap();
    assert_eq!(
        run(&program, b"").unwrap(),
        b"2 3 5 7 11 13 17 19 23 29 31 37 41 43 47 53 59 61 67 71 73 79 83 89 97".to_vec()
    );
}

#[test]
fn optimized_echo_and_wrap() {
    let program = Program::new(",+.-.").unwrap();
    assert_eq!(run(&program, &[255]).unwrap(), vec![0, 255]);
    assert_eq!(run(&program, b"").unwrap_err(), "入力を読み込めませんでした\n");
}

#[test]
fn optimized_temporary_negative_pointer_is_fine() {
    // The plain interpreter cannot take `<` at cell 0, but the folded move never goes below.
    let program = Program::new("<>+.").unwrap();
    assert_eq!(run(&program, b"").unwrap(), vec![1]);
    let plain = brainfuck::interpreter_with_syntree::Program::new("<>+.").unwrap();
    assert!(!plain.can_step(None));
}

#[test]
fn optimized_out_of_memory_cannot_step() {
    let program = Program::new("<+").unwrap();
    let runtime = program.start();
    assert!(!program.can_step(&runtime, None));
}

#[test]
fn optimized_parse_errors() {
    assert_eq!(
        Program::new("+]").err().unwrap(),
        "1文字目の']'に対応する'['がありません。"
    );
    assert_eq!(
        SyntaxTree::new("[").err().unwrap(),
        "0文字目の'['に対応する']'がありません"
    );
}

#[test]
fn optimizing_twice_changes_nothing() {
    for code in [">>+[-<]", "+>++.<,[->+<]>>", "++[>+++[>++<-]<-]>>.", "+-<>"] {
        let once = SyntaxTree::new(code).unwrap();
        let shown = show(&once.commands);
        assert!(once.optimizable());
        let twice = optimize(once);
        assert_eq!(show(&twice.commands), shown);
    }
}
