//! A tree-walk interpreter for the Lox language.
pub mod ast_printer;
pub mod environment;
pub mod expr;
pub mod expr_id;
pub mod generate_ast;
pub mod grammar;
pub mod interpreter;
pub mod linked_list;
pub mod lox;
pub mod numbers;
pub mod parser;
pub mod resolver;
pub mod scanner;
pub mod stmt;
pub mod text;
pub mod token;
