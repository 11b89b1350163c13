use brainfuck::syntax_tree::{Command, SyntaxTree};

fn render(commands: &[Command]) -> String {
    let mut s = String::new();
    for c in commands {
        match c {
            Command::PtrIncr => s.push('>'),
            Command::PtrDecr => s.push('<'),
            Command::ValIncr => s.push('+'),
            Command::ValDecr => s.push('-'),
            Command::Output => s.push('.'),
            Command::Input => s.push(','),
            Command::Loop { inner_commands } => {
                s.push('[');
                s.push_str(&render(inner_commands));
                s.push(']');
            }
        }
    }
    s
}

#[test]
fn parses_all_commands() {
    let tree = SyntaxTree::new("><+-.,[]").unwrap();
    assert_eq!(tree.commands.len(), 7);
    assert!(matches!(tree.commands[0], Command::PtrIncr));
    assert!(matches!(tree.commands[1], Command::PtrDecr));
    assert!(matches!(tree.commands[2], Command::ValIncr));
    assert!(matches!(tree.commands[3], Command::ValDecr));
    assert!(matches!(tree.commands[4], Command::Output));
    assert!(matches!(tree.commands[5], Command::Input));
    match &tree.commands[6] {
        Command::Loop { inner_commands } => assert!(inner_commands.is_empty()),
        _ => panic!("expected a loop"),
    }
}

#[test]
fn comments_are_skipped() {
    let tree = SyntaxTree::new("a+b [c-d] e").unwrap();
    assert_eq!(render(&tree.commands), "+[-]");
}

#[test]
fn text_round_trips() {
    let code = "++[>+[-<]>>,.]<";
    let tree = SyntaxTree::new(code).unwrap();
    assert_eq!(render(&tree.commands), code);
}

#[test]
fn empty_code_is_empty_tree() {
    assert!(SyntaxTree::new("").unwrap().commands.is_empty());
    assert!(SyntaxTree::new("no commands here").unwrap().commands.is_empty());
}

#[test]
fn unmatched_close_is_reported_with_its_index() {
    assert_eq!(
        SyntaxTree::new("]").err().unwrap(),
        "0文字目の']'に対応する'['がありません。"
    );
    // The first `]` that closes nothing wins, even with an open `[` after it.
    assert_eq!(
        SyntaxTree::new("[]ab]["  ).err().unwrap(),
        "4文字目の']'に対応する'['がありません。"
    );
}

#[test]
fn unmatched_open_reports_the_innermost() {
    assert_eq!(
        SyntaxTree::new("[").err().unwrap(),
        "0文字目の'['に対応する']'がありません"
    );
    assert_eq!(
        SyntaxTree::new("[ [ ] [").err().unwrap(),
        "6文字目の'['に対応する']'がありません"
    );
    assert_eq!(
        SyntaxTree::new("+[[+]+").err().unwrap(),
        "1文字目の'['に対応する']'がありません"
    );
}

#[test]
fn indices_count_characters_not_bytes() {
    // Each of these comment characters takes three bytes in UTF-8.
    assert_eq!(
        SyntaxTree::new("あいうえおかきくけこ]").err().unwrap(),
        "10文字目の']'に対応する'['がありません。"
    );
}
