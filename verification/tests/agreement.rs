use brainfuck::interpreter_with_syntree::Action;
use brainfuck::interpreter_with_syntree::Program as PlainProgram;
use brainfuck::optimize1::Program as OptimizedProgram;

/// How a run ended: the output, and whether the input ran out first.
#[derive(Debug, PartialEq)]
enum End {
    Halted(Vec<u8>),
    InputFailed(Vec<u8>),
}

fn run_plain(code: &str, input: &[u8]) -> End {
    let mut program = PlainProgram::new(code).unwrap();
    let mut out = Vec::new();
    let mut rest = input.iter();
    let mut byte = None;
    loop {
        assert!(program.can_step(byte));
        match program.step(byte) {
            Action::Continue => byte = None,
            Action::Output(b) => {
                out.push(b);
                byte = None;
            }
            Action::NeedInput => match rest.next() {
                Some(b) => byte = Some(*b),
                None => return End::InputFailed(out),
            },
            Action::Halt => return End::Halted(out),
        }
    }
}

fn run_optimized(code: &str, input: &[u8]) -> End {
    let program = OptimizedProgram::new(code).unwrap();
    let mut runtime = program.start();
    let mut out = Vec::new();
    let mut rest = input.iter();
    let mut byte = None;
    loop {
        assert!(program.can_step(&runtime, byte));
        match program.step(&mut runtime, byte) {
            Action::Continue => byte = None,
            Action::Output(b) => {
                out.push(b);
                byte = None;
            }
            Action::NeedInput => match rest.next() {
                Some(b) => byte = Some(*b),
                None => return End::InputFailed(out),
            },
            Action::Halt => return End::Halted(out),
        }
    }
}

#[test]
fn interpreters_agree_on_hello_world() {
    let code = "+++++++++[>++++++++>+++++++++++>+++>+<<<<-]>.>++.+++++++..+++.>+++++.<<+++++++++++++++.>.+++.------.--------.>+.>+.";
    let plain = run_plain(code, b"");
    assert_eq!(plain, End::Halted(b"Hello World!\n".to_vec()));
    assert_eq!(run_optimized(code, b""), plain);
}

#[test]
fn interpreters_agree_on_input() {
    // Reads two bytes, adds them and prints the sum, then echoes one more byte.
    let code = ",>,[<+>-]<.,.";
    let plain = run_plain(code, &[3, 4, 9]);
    assert_eq!(plain, End::Halted(vec![7, 9]));
    assert_eq!(run_optimized(code, &[3, 4, 9]), plain);
}

#[test]
fn interpreters_agree_when_input_runs_out() {
    let code = "+.,.";
    let plain = run_plain(code, b"");
    assert_eq!(plain, End::InputFailed(vec![1]));
    assert_eq!(run_optimized(code, b""), plain);
}

#[test]
fn interpreters_agree_on_nested_loops_and_wrapping() {
    // 16 * 16 = 256 wraps to 0; then 3 * 5 = 15 in cell 3, and 255 from 0 - 1.
    let code = "++++++++++++++++[>++++++++++++++++<-]>.>+++[>+++++<-]>.<<<-.";
    let plain = run_plain(code, b"");
    assert_eq!(plain, End::Halted(vec![0, 15, 255]));
    assert_eq!(run_optimized(code, b""), plain);
}
