//! A brainfuck interpreter: a parser, a tree-walking interpreter, an optimizer that folds
//! pointer moves and cell additions together, and the laws that tie them to the meaning of
//! a program.
pub mod agreement;
pub mod interpreter_with_syntree;
pub mod optimize1;
pub mod syntax_tree;
