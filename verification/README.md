# brainfuck

A brainfuck interpreter, verified with Verus.

- `src/syntax_tree.rs`: the parser. A program parses exactly when its brackets are
  balanced; the text of the parsed tree is the program without its comments, and an
  unbalanced program gets the message for its first unmatched `]` or, failing that, its
  innermost unmatched `[`.
- `src/interpreter_with_syntree.rs`: the plain interpreter, a step machine over the syntax
  tree with 30000 memory cells. Each step says what it needs done (write a byte, read a
  byte, nothing, or halt), so the caller does the input and output.
- `src/optimize1/`: the optimizing interpreter. `syntax_tree.rs` holds the tree of `Add` and
  `Move` commands with cell offsets and its mathematical model; `semantics.rs` gives the
  model a big-step meaning over an unbounded tape; `optimize.rs` folds pointer moves and
  additions together (the additions wait for the output, input or loop that needs them,
  the move is made once, right before a loop, or at the end) and proves that the result
  means what the input meant. It works within `i32`, and says exactly when that is
  possible (`compress_fits`, tested by `SyntaxTree::optimizable`). Optimizing twice gives
  what optimizing once gives.
- `src/agreement.rs`: a step machine that halts or runs out of input ends as the big-step
  meaning says; the converted commands run step for step as the plain ones, from any
  memory and pointer; the text of a program determines its commands; and when neither
  interpreter stops early (a step it cannot take, or a budget of steps spent), both
  interpreters end a program alike: halting with the same memory, pointer, unread input
  and output, or running out of input after the same output.
- `app/main.rs`: the command line program, which reads the source file and does the input
  and output that the steps ask for.
