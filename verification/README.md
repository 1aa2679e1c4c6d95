# Lox, verified

A tree-walk interpreter for the Lox language, written in Verus. The library
in `src/` states what each stage does as contracts over mathematical models,
and Verus proves the code against them.

## Layout

- `scanner.rs`: source text to tokens. The tokens and the errors are those
  `tokens_from` and `errors_from` describe, character by character, and each
  number token carries the value the host's `parse` gives for its text.
- `grammar.rs`: the grammar as spec functions from tokens to syntax trees;
  `parser.rs` is the recursive-descent parser, proved to build exactly those
  trees and to make exactly the reports the grammar gives, with their texts.
- `resolver/`: static resolution. Each variable reference is placed in the
  innermost enclosing scope that declares it (`law_resolves_to_innermost_declaration`),
  and the static errors are those `list_s` gives.
- `environment.rs`: scopes kept in an arena, with laws for reads after
  writes and definitions; a redefinition overwrites the binding in place.
- `interpreter/`: evaluation and execution with a step budget, so that every
  run ends. The contracts say how each expression evaluates its parts and
  what it gives from their values (arithmetic through the host's number
  operations, strings joined with the shown text of the other operand,
  comparisons, logic, assignment, fields and getters, bound methods and
  `super`, calls of functions and classes with their arity errors), and how
  each statement runs its parts: printing the shown text of a value,
  declaring globals and locals, `if`, `while`, blocks, and class
  declarations, which make one function per member and a class (name,
  superclass, methods, getters) with a metaclass for the static methods.
  A call runs the function's body in a new scope holding the arguments
  (`call_ran`); calling a class makes an instance and runs its `init`.
- `ast_printer.rs`: the printed form of an expression, each number shown as
  the host formats it.
- `lox.rs`: the session that runs source text and collects what the program
  printed and what was reported: the static errors are reported in order
  (scanning, parsing, then resolving), an error is flagged exactly when one
  of these stages finds one, a program with none runs its statements in
  order, and a runtime error is reported and ends the run.
- `generate_ast.rs`: the generator of the expression-tree module.
- `linked_list.rs`: a doubly linked list whose nodes live in an arena and
  link to one another by slot; its view is the values from head to tail.

Lox numbers are IEEE doubles. The library keeps them as bit patterns and asks
the host for arithmetic, comparison and formatting through the `NumberOps`
trait, whose spec functions name each host result as a function of its
operands; `app/` supplies `f64` for it, reads files and the prompt, and prints.
