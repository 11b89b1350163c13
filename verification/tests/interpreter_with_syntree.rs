use brainfuck::interpreter_with_syntree::{Action, Program};

/// Runs a program to its end, reading from `input` and collecting the output.
fn run(mut program: Program, input: &[u8]) -> Result<Vec<u8>, String> {
    let mut out = Vec::new();
    let mut rest = input.iter();
    let mut byte = None;
    loop {
        assert!(program.can_step(byte));
        match program.step(byte) {
            Action::Continue => byte = None,
            Action::Output(b) => {
                out.push(b);
                byte = None;
            }
            Action::NeedInput => match rest.next() {
                Some(b) => byte = Some(*b),
                None => return Err("入力を読み込めませんでした\n".to_string()),
            },
            Action::Halt => return Ok(out),
        }
    }
}

#[test]
fn hello_world() {
    let code = "+++++++++[>++++++++>+++++++++++>+++>+<<<<-]>.>++.+++++++..+++.>+++++.<<+++++++++++++++.>.+++.------.--------.>+.>+.";
    let program = Program::new(code).unwrap();
    let out = run(program, b"").unwrap();
    assert_eq!(out, b"Hello World!\n".to_vec());
}

#[test]
fn prime_number() {
    let code = ">++++[<++++++++>-]>++++++++[<++++++>-]<++.<.>+.<.>++.<.>++.<.>------..<.>.++.<.>--.++++++.<.>------.>+++[<+++>-]<-.<.>-------.+.<.> -.+++++++.<.>------.--.<.>++.++++.<.>---.---.<.> +++.-.<.>+.+++.<.>--.--.<.> ++.++++.<.>---.-----.<.>+++++.+.<.>.------.<.> ++++++.----.<.> ++++.++.<.> -.-----.<.>+++++.+.<.>.--.";
    let program = Program::new(code).unwrap();
    let out = run(program, b"").unwrap();
    assert_eq!(
        out,
        b"2 3 5 7 11 13 17 19 23 29 31 37 41 43 47 53 59 61 67 71 73 79 83 89 97".to_vec()
    );
}

#[test]
fn echo_reads_input() {
    let program = Program::new(",.,.").unwrap();
    assert_eq!(run(program, b"ab").unwrap(), b"ab".to_vec());
}

#[test]
fn input_failure_is_reported() {
    let program = Program::new(",.").unwrap();
    assert_eq!(run(program, b"").unwrap_err(), "入力を読み込めませんでした\n");
}

#[test]
fn values_wrap_around() {
    // 0 - 1 is 255, and 255 + 1 is 0.
    let program = Program::new("-.+.").unwrap();
    assert_eq!(run(program, b"").unwrap(), vec![255, 0]);
}

#[test]
fn need_input_leaves_the_state_unchanged() {
    let mut program = Program::new(",.").unwrap();
    assert_eq!(program.step(None), Action::NeedInput);
    assert_eq!(program.step(None), Action::NeedInput);
    assert_eq!(program.step(Some(7)), Action::Continue);
    assert_eq!(program.step(None), Action::Output(7));
    assert_eq!(program.step(None), Action::Halt);
    assert_eq!(program.step(None), Action::Halt);
}

#[test]
fn pointer_below_zero_cannot_step() {
    let program = Program::new("<").unwrap();
    assert!(!program.can_step(None));
}

#[test]
fn pointer_past_memory_cannot_touch_cell() {
    let mut code = ">".repeat(30000);
    code.push('+');
    let mut program = Program::new(&code).unwrap();
    for _ in 0..30000 {
        assert!(program.can_step(None));
        assert_eq!(program.step(None), Action::Continue);
    }
    assert!(!program.can_step(None));
}

#[test]
fn loop_is_skipped_on_zero() {
    let program = Program::new("[.]+.").unwrap();
    assert_eq!(run(program, b"").unwrap(), vec![1]);
}

#[test]
fn nested_loops() {
    // 2 * 3 = 6 in cell 1, printed as a byte.
    let program = Program::new("++[>+++<-]>.").unwrap();
    assert_eq!(run(program, b"").unwrap(), vec![6]);
}

#[test]
fn parse_errors_are_reported() {
    assert_eq!(
        Program::new("+]").err().unwrap(),
        "1文字目の']'に対応する'['がありません。"
    );
    assert_eq!(
        Program::new("[[]").err().unwrap(),
        "0文字目の'['に対応する']'がありません"
    );
}
