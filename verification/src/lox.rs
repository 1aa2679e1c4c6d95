//! The driver: reports errors and runs source text through the pipeline.
use vstd::prelude::*;
use crate::expr_id::{ExprId, ExprIdGenerator};
use crate::interpreter::{
    display, evaluated, executed, lemma_follows_keeps_printed, ExecutionResult, Interpreter, LocalResolution, RuntimeError,
};
use crate::numbers::NumberOps;
use crate::parser::{lemma_scanned_tokens_are_parsable, Parser};
use crate::resolver::{list_s, ClassType, FunctionType, ResolutionError, Resolver, ResolverState};
use crate::grammar::{program_end, program_fails, program_rest, stmts_view, PState};
use crate::scanner::{errors_from, line_at, scanned_tokens, token_shapes, tokens_from, ScanError, Scanner};
use crate::stmt::Stmt;
use crate::text::{append_str, concat, owned, usize_to_string, decimal};
use crate::token::{Callable, Token, TokenType, Value};

verus! {

/// `[line N] Error<location>: <message>`.
pub open spec fn report_text(line: nat, location: Seq<char>, message: Seq<char>) -> Seq<char> {
    "[line "@ + decimal(line) + "] Error"@ + location + ": "@ + message
}

/// Where an error at `token` is: ` at end` for the end of input, else ` at '<lexeme>'`.
pub open spec fn token_location(token: Token) -> Seq<char> {
    if token.token_type == TokenType::Eof {
        " at end"@
    } else {
        " at '"@ + token.lexeme@ + "'"@
    }
}

/// `<message>` then `[line N]` on the next line.
pub open spec fn runtime_report_text(line: nat, message: Seq<char>) -> Seq<char> {
    message + "\n[line "@ + decimal(line) + "]"@
}

/// The reports of the errors met scanning `source`, in order.
pub open spec fn scan_reports(source: Seq<char>) -> Seq<Seq<char>> {
    errors_from(source, 0).map_values(|e: (nat, Seq<char>)| report_text(e.0, ""@, e.1))
}

/// `tokens` are what scanning `source` gives (its tokens, then `Eof` on the
/// last line), and if some declaration among them fails to parse, starting
/// from expression identifier `id`, then an error was reported.
pub open spec fn syntax_errors_reported(source: Seq<char>, tokens: Seq<Token>, id: nat, had_error: bool) -> bool {
    &&& token_shapes(tokens) == tokens_from(source, 0).push(
        (TokenType::Eof, Seq::<char>::empty(), line_at(source, source.len())),
    )
    &&& scanned_tokens(tokens)
    &&& program_fails(tokens, PState { pos: 0, depth: 0, id, reports: Seq::empty() }) ==> had_error
}

/// What resolving `statements` at the top level finds, starting from the
/// resolutions `resolutions`.
pub open spec fn top_level_resolution(statements: Seq<Stmt>, resolutions: Map<ExprId, LocalResolution>) -> ResolverState {
    list_s(
        statements,
        ResolverState {
            scopes: Seq::empty(),
            function: FunctionType::TopLevel,
            class: ClassType::Outside,
            resolutions,
            errors: Seq::empty(),
        },
    )
}

/// As `syntax_errors_reported`, and `statements` are what parsing `tokens`
/// gives; if resolving them from `resolutions` finds errors, an error was
/// reported.
pub open spec fn static_errors_reported(
    source: Seq<char>,
    tokens: Seq<Token>,
    statements: Seq<Stmt>,
    id: nat,
    resolutions: Map<ExprId, LocalResolution>,
    had_error: bool,
) -> bool {
    &&& syntax_errors_reported(source, tokens, id, had_error)
    &&& stmts_view(statements) == program_rest(tokens, PState { pos: 0, depth: 0, id, reports: Seq::empty() }, Seq::empty())
    &&& top_level_resolution(statements, resolutions).errors.len() > 0 ==> had_error
}

/// With no error reported before, an error is reported for `source` exactly
/// when scanning it meets an error, parsing its tokens (from expression
/// identifier `id`) reports one (`program_end`), or resolving the parsed
/// statements (from `resolutions`) finds one.
pub open spec fn static_errors_exact(
    source: Seq<char>,
    tokens: Seq<Token>,
    statements: Seq<Stmt>,
    id: nat,
    resolutions: Map<ExprId, LocalResolution>,
    had_error: bool,
) -> bool {
    had_error == (errors_from(source, 0).len() > 0 || program_end(
        tokens,
        PState { pos: 0, depth: 0, id, reports: Seq::empty() },
    ).reports.len() > 0 || top_level_resolution(statements, resolutions).errors.len() > 0)
}

/// The reports of the static errors resolving `statements` (from
/// `resolutions`) finds, in order.
pub open spec fn resolution_reports(statements: Seq<Stmt>, resolutions: Map<ExprId, LocalResolution>) -> Seq<Seq<char>> {
    top_level_resolution(statements, resolutions).errors.map_values(
        |e: (Token, Seq<char>)| report_text(e.0.line as nat, token_location(e.0), e.1),
    )
}

/// The reports of the static errors in `source`, with no error reported
/// before: those of scanning it, then those of parsing its tokens, then,
/// where neither reported anything, those of resolving the parsed
/// statements.
pub open spec fn static_reports(
    source: Seq<char>,
    tokens: Seq<Token>,
    statements: Seq<Stmt>,
    id: nat,
    resolutions: Map<ExprId, LocalResolution>,
) -> Seq<Seq<char>> {
    let parsing = program_end(tokens, PState { pos: 0, depth: 0, id, reports: Seq::empty() }).reports;
    scan_reports(source) + parsing + if errors_from(source, 0).len() == 0 && parsing.len() == 0 {
        resolution_reports(statements, resolutions)
    } else {
        Seq::empty()
    }
}

/// `later` begins with `earlier`.
pub open spec fn extends(later: Seq<Seq<char>>, earlier: Seq<Seq<char>>) -> bool {
    &&& later.len() >= earlier.len()
    &&& forall|k: int| 0 <= k < earlier.len() ==> later[k] == earlier[k]
}

/// How an expression statement run with its value printed ends once its
/// expression gave `c` in `mid`: an error ends it with that error and prints
/// nothing more; a value is printed on a line of its own.
pub open spec fn value_printed<N: NumberOps>(
    numbers: &N,
    mid: Interpreter,
    c: Result<Value, RuntimeError>,
    next: Interpreter,
    res: ExecutionResult,
) -> bool {
    match c {
        Err(e) => res == ExecutionResult::RuntimeError(e) && next == mid,
        Ok(v) => {
            &&& res is Success
            &&& next.printed().len() == mid.printed().len() + 1
            &&& next.printed().drop_last() == mid.printed()
            &&& next.printed().last() == display(numbers, mid, v)
            &&& next.context() == mid.context()
        },
    }
}

/// One top-level statement of a program, run from `st`: with
/// `print_expression`, an expression statement is evaluated and its value
/// printed; any other statement is executed.
pub open spec fn top_level_step<N: NumberOps>(
    numbers: &N,
    st: Interpreter,
    s: Stmt,
    print_expression: bool,
    next: Interpreter,
    res: ExecutionResult,
) -> bool {
    if print_expression && s is Expression {
        exists|mid: Interpreter, c: Result<Value, RuntimeError>|
            #![trigger value_printed(numbers, mid, c, next, res)]
            evaluated(numbers, st, s->Expression_expression, mid, c) && value_printed(numbers, mid, c, next, res)
    } else {
        executed(numbers, st, s, next, res)
    }
}

/// The top-level `statements` of a program ran in order through the states
/// in `trace` (the one before each statement that ran, then `after`), each
/// ending as `results` says: the run stopped early only at a runtime error,
/// and only the last statement that ran can have failed.
pub open spec fn program_ran<N: NumberOps>(
    numbers: &N,
    statements: Seq<Stmt>,
    print_expression: bool,
    trace: Seq<Interpreter>,
    results: Seq<ExecutionResult>,
    after: Interpreter,
) -> bool {
    &&& trace.len() == results.len() + 1
    &&& results.len() <= statements.len()
    &&& trace.last() == after
    &&& forall|k: int|
        0 <= k < results.len() ==> top_level_step(
            numbers,
            trace[k],
            statements[k],
            print_expression,
            trace[k + 1],
            #[trigger] results[k],
        )
    &&& forall|k: int| 0 <= k < results.len() - 1 ==> !(#[trigger] results[k] is RuntimeError)
    &&& results.len() < statements.len() ==> results.len() > 0 && results.last() is RuntimeError
}

/// How a run that ended as `results` left the reports and the runtime-error
/// flag: a runtime error is reported (its message, then its line) after the
/// reports there were before, and sets the flag; otherwise neither changes.
pub open spec fn runtime_errors_reported(
    results: Seq<ExecutionResult>,
    reports: Seq<Seq<char>>,
    reports_before: Seq<Seq<char>>,
    had_runtime_error: bool,
    had_runtime_error_before: bool,
) -> bool {
    match if results.len() > 0 { Some(results.last()) } else { None } {
        Some(ExecutionResult::RuntimeError(e)) => {
            &&& had_runtime_error
            &&& reports == reports_before.push(runtime_report_text(e.token.line as nat, e.message@))
        },
        _ => had_runtime_error == had_runtime_error_before && reports == reports_before,
    }
}

/// The state of one interpreter session: whether an error was reported, the
/// reports themselves (lines for the error stream), and the supply of
/// expression identifiers.
pub struct Lox {
    had_error: bool,
    had_runtime_error: bool,
    reports: Vec<String>,
    interpreter: Interpreter,
    expr_id_generator: ExprIdGenerator,
}

/// What can be observed of a `Lox`.
pub struct LoxView {
    pub had_error: bool,
    pub had_runtime_error: bool,
    pub reports: Seq<Seq<char>>,
    pub next_id: nat,
    /// The lines the programs run so far printed and that are not yet taken.
    pub output: Seq<Seq<char>>,
}

impl View for Lox {
    type V = LoxView;

    closed spec fn view(&self) -> LoxView {
        LoxView {
            had_error: self.had_error,
            had_runtime_error: self.had_runtime_error,
            reports: self.reports@.map_values(|s: String| s@),
            next_id: self.expr_id_generator@,
            output: self.interpreter.printed(),
        }
    }
}

impl Lox {
    /// Where the resolver has placed variable references so far.
    pub closed spec fn resolutions(&self) -> Map<ExprId, LocalResolution> {
        self.interpreter.resolutions()
    }

    /// The global bindings of the interpreter.
    pub closed spec fn globals(&self) -> Map<Seq<char>, Option<Value>> {
        self.interpreter.scopes()[0].values
    }

    /// The interpreter that runs the programs of this session.
    pub closed spec fn session(&self) -> Interpreter {
        self.interpreter
    }

    /// The interpreter is always well formed.
    #[verifier::type_invariant]
    closed spec fn inv(&self) -> bool {
        self.interpreter.wf()
    }

    pub fn new() -> (l: Self)
        ensures
            !l@.had_error,
            !l@.had_runtime_error,
            l@.reports.len() == 0,
            l@.next_id == 0,
            l@.output.len() == 0,
            l.resolutions() == Map::<ExprId, LocalResolution>::empty(),
            l.globals() == Map::<Seq<char>, Option<Value>>::empty().insert(
                "clock"@,
                Some(Value::Callable(Callable::Clock)),
            ),
    {
        let l = Lox {
            had_error: false,
            had_runtime_error: false,
            reports: Vec::new(),
            interpreter: Interpreter::new(),
            expr_id_generator: ExprIdGenerator::new(),
        };
        assert(l@.reports =~= Seq::<Seq<char>>::empty());
        l
    }

    pub fn had_error(&self) -> (r: bool)
        ensures
            r == self@.had_error,
    {
        self.had_error
    }

    pub fn had_runtime_error(&self) -> (r: bool)
        ensures
            r == self@.had_runtime_error,
    {
        self.had_runtime_error
    }

    fn push_report(&mut self, line: String)
        ensures
            final(self)@.reports == old(self)@.reports.push(line@),
            final(self)@.had_error == old(self)@.had_error,
            final(self)@.had_runtime_error == old(self)@.had_runtime_error,
            final(self)@.next_id == old(self)@.next_id,
            final(self)@.output == old(self)@.output,
            final(self).session() == old(self).session(),
    {
        proof {
            use_type_invariant(&*self);
        }
        let mut reports = Vec::new();
        std::mem::swap(&mut reports, &mut self.reports);
        reports.push(line);
        std::mem::swap(&mut reports, &mut self.reports);
        assert(self@.reports =~= old(self)@.reports.push(line@));
    }

    /// Forgets that errors were reported (between prompt lines).
    pub fn clear_errors(&mut self)
        ensures
            !final(self)@.had_error,
            !final(self)@.had_runtime_error,
            final(self)@.reports == old(self)@.reports,
            final(self)@.next_id == old(self)@.next_id,
            final(self)@.output == old(self)@.output,
    {
        proof {
            use_type_invariant(&*self);
        }
        self.had_error = false;
        self.had_runtime_error = false;
    }

    /// Hands over the reports made so far, leaving none.
    pub fn take_reports(&mut self) -> (r: Vec<String>)
        ensures
            r@.map_values(|s: String| s@) == old(self)@.reports,
            final(self)@.reports.len() == 0,
            final(self)@.had_error == old(self)@.had_error,
            final(self)@.had_runtime_error == old(self)@.had_runtime_error,
            final(self)@.next_id == old(self)@.next_id,
            final(self)@.output == old(self)@.output,
    {
        proof {
            use_type_invariant(&*self);
        }
        let mut r = Vec::new();
        std::mem::swap(&mut r, &mut self.reports);
        assert(self@.reports =~= Seq::<Seq<char>>::empty());
        r
    }

    /// Reports a runtime error: its message, then `[line N]`.
    pub fn runtime_error(&mut self, message: &String, line: usize)
        ensures
            final(self)@.reports == old(self)@.reports.push(runtime_report_text(line as nat, message@)),
            final(self)@.had_runtime_error,
            final(self)@.had_error == old(self)@.had_error,
            final(self)@.next_id == old(self)@.next_id,
            final(self)@.output == old(self)@.output,
            final(self).session() == old(self).session(),
    {
        proof {
            use_type_invariant(&*self);
        }
        let mut s = message.clone();
        append_str(&mut s, "\n[line ");
        let n = usize_to_string(line);
        append_str(&mut s, n.as_str());
        append_str(&mut s, "]");
        self.push_report(s);
        proof {
            use_type_invariant(&*self);
        }
        self.had_runtime_error = true;
    }

    /// Reports a static error on a line.
    pub fn error(&mut self, line: usize, message: &str)
        ensures
            final(self)@.reports == old(self)@.reports.push(report_text(line as nat, ""@, message@)),
            final(self)@.had_error,
            final(self)@.had_runtime_error == old(self)@.had_runtime_error,
            final(self)@.next_id == old(self)@.next_id,
            final(self)@.output == old(self)@.output,
            final(self).resolutions() == old(self).resolutions(),
            final(self).globals() == old(self).globals(),
    {
        proof {
            reveal_strlit("");
        }
        self.report(line, &String::new(), message);
        assert(""@ =~= Seq::<char>::empty());
    }

    /// Reports a static error at a token.
    pub fn error_token(&mut self, token: &Token, message: &str)
        ensures
            final(self)@.reports == old(self)@.reports.push(
                report_text(token.line as nat, token_location(*token), message@),
            ),
            final(self)@.had_error,
            final(self)@.had_runtime_error == old(self)@.had_runtime_error,
            final(self)@.next_id == old(self)@.next_id,
            final(self)@.output == old(self)@.output,
            final(self).resolutions() == old(self).resolutions(),
            final(self).globals() == old(self).globals(),
    {
        if token.token_type == TokenType::Eof {
            let location = owned(" at end");
            self.report(token.line, &location, message);
        } else {
            let mut location = owned(" at '");
            append_str(&mut location, token.lexeme.as_str());
            append_str(&mut location, "'");
            self.report(token.line, &location, message);
        }
    }

    fn report(&mut self, line: usize, location: &String, message: &str)
        ensures
            final(self)@.reports == old(self)@.reports.push(report_text(line as nat, location@, message@)),
            final(self)@.had_error,
            final(self)@.had_runtime_error == old(self)@.had_runtime_error,
            final(self)@.next_id == old(self)@.next_id,
            final(self)@.output == old(self)@.output,
            final(self).session() == old(self).session(),
    {
        proof {
            use_type_invariant(&*self);
        }
        let mut s = owned("[line ");
        let n = usize_to_string(line);
        append_str(&mut s, n.as_str());
        append_str(&mut s, "] Error");
        append_str(&mut s, location.as_str());
        append_str(&mut s, ": ");
        append_str(&mut s, message);
        self.push_report(s);
        proof {
            use_type_invariant(&*self);
        }
        self.had_error = true;
    }

    /// Hands over the lines the program printed, leaving none.
    pub fn take_output(&mut self) -> (lines: Vec<String>)
        ensures
            lines@.map_values(|s: String| s@) == old(self)@.output,
            final(self)@ == (LoxView { output: Seq::empty(), ..old(self)@ }),
            final(self).resolutions() == old(self).resolutions(),
            final(self).globals() == old(self).globals(),
    {
        proof {
            use_type_invariant(&*self);
        }
        let mut interpreter = Interpreter::new();
        std::mem::swap(&mut interpreter, &mut self.interpreter);
        let lines = interpreter.take_output();
        std::mem::swap(&mut interpreter, &mut self.interpreter);
        assert(self@.output =~= Seq::<Seq<char>>::empty());
        assert(self@ =~= (LoxView { output: Seq::empty(), ..old(self)@ }));
        lines
    }

    /// Runs source text: scans, parses and resolves it, reporting any static
    /// errors, and runs it if there were none, stopping at the first runtime
    /// error. With `print_expression`, the value of each expression
    /// statement is printed. The scan errors are reported first, in order
    /// (`scan_reports`), then the parser's, then, where neither reported
    /// anything, the resolver's (`static_reports`); with no error reported
    /// before, an error is reported exactly when one of these stages finds
    /// one (`static_errors_exact`), and after any of them nothing is printed.
    /// With none, the session's interpreter takes the resolutions of the
    /// parsed statements and runs them in order (`program_ran`); a runtime
    /// error is reported last, as its message and then its line, sets the
    /// runtime-error flag and ends the run (`runtime_errors_reported`).
    pub fn run<N: NumberOps>(&mut self, source: &str, print_expression: bool, numbers: &N)
        ensures
            extends(final(self)@.reports, old(self)@.reports),
            old(self)@.had_error ==> final(self)@.had_error,
            old(self)@.had_runtime_error ==> final(self)@.had_runtime_error,
            final(self)@.had_error ==> final(self)@.output == old(self)@.output
                && final(self)@.had_runtime_error == old(self)@.had_runtime_error,
            extends(final(self)@.output, old(self)@.output),
            source@.len() < usize::MAX ==> extends(
                final(self)@.reports,
                old(self)@.reports + scan_reports(source@),
            ),
            source@.len() < usize::MAX && errors_from(source@, 0).len() > 0 ==> final(self)@.had_error,
            source@.len() < usize::MAX ==> exists|tokens: Seq<Token>, statements: Seq<Stmt>|
                static_errors_reported(
                    source@,
                    tokens,
                    statements,
                    old(self)@.next_id,
                    old(self).resolutions(),
                    final(self)@.had_error,
                ),
            source@.len() >= usize::MAX ==> final(self)@.reports == old(self)@.reports.push(
                report_text(0, ""@, "Source text too long."@),
            ) && final(self)@.had_error,
            old(self)@.output == old(self).session().printed(),
            final(self)@.output == final(self).session().printed(),
            source@.len() < usize::MAX && !old(self)@.had_error ==> exists|tokens: Seq<Token>, statements: Seq<Stmt>|
                #![trigger static_errors_exact(source@, tokens, statements, old(self)@.next_id, old(self).resolutions(), final(self)@.had_error)]
                static_errors_reported(
                    source@,
                    tokens,
                    statements,
                    old(self)@.next_id,
                    old(self).resolutions(),
                    final(self)@.had_error,
                ) && static_errors_exact(
                    source@,
                    tokens,
                    statements,
                    old(self)@.next_id,
                    old(self).resolutions(),
                    final(self)@.had_error,
                ) && (final(self)@.had_error ==> final(self)@.reports == old(self)@.reports + static_reports(
                    source@,
                    tokens,
                    statements,
                    old(self)@.next_id,
                    old(self).resolutions(),
                )),
            source@.len() < usize::MAX && !final(self)@.had_error ==> exists|
                tokens: Seq<Token>,
                statements: Seq<Stmt>,
                trace: Seq<Interpreter>,
                results: Seq<ExecutionResult>,
            |
                #![trigger static_errors_reported(source@, tokens, statements, old(self)@.next_id, old(self).resolutions(), false), program_ran(numbers, statements, print_expression, trace, results, final(self).session())]
                {
                    &&& static_errors_reported(
                        source@,
                        tokens,
                        statements,
                        old(self)@.next_id,
                        old(self).resolutions(),
                        false,
                    )
                    &&& trace[0].unchanged_but_resolutions(old(self).session())
                    &&& trace[0].resolutions() == top_level_resolution(statements, old(self).resolutions()).resolutions
                    &&& program_ran(numbers, statements, print_expression, trace, results, final(self).session())
                    &&& runtime_errors_reported(
                        results,
                        final(self)@.reports,
                        old(self)@.reports,
                        final(self)@.had_runtime_error,
                        old(self)@.had_runtime_error,
                    )
                },
    {
        proof {
            use_type_invariant(&*self);
        }
        let mut interpreter = Interpreter::new();
        std::mem::swap(&mut interpreter, &mut self.interpreter);
        let ghost session_before = interpreter;
        self.run_with(&mut interpreter, source, print_expression, numbers);
        let ghost had_error = self@.had_error;
        std::mem::swap(&mut interpreter, &mut self.interpreter);
        proof {
            if source@.len() < usize::MAX && !old(self)@.had_error {
                let (tokens, statements) = choose|tokens: Seq<Token>, statements: Seq<Stmt>|
                    static_errors_reported(
                        source@,
                        tokens,
                        statements,
                        old(self)@.next_id,
                        session_before.resolutions(),
                        self@.had_error,
                    ) && static_errors_exact(
                        source@,
                        tokens,
                        statements,
                        old(self)@.next_id,
                        session_before.resolutions(),
                        self@.had_error,
                    );
                assert(static_errors_exact(
                    source@,
                    tokens,
                    statements,
                    old(self)@.next_id,
                    old(self).resolutions(),
                    self@.had_error,
                ));
            }
            if source@.len() < usize::MAX && !self@.had_error {
                let (tokens, statements, trace, results) = choose|
                    tokens: Seq<Token>,
                    statements: Seq<Stmt>,
                    trace: Seq<Interpreter>,
                    results: Seq<ExecutionResult>,
                |
                    {
                        &&& static_errors_reported(
                            source@,
                            tokens,
                            statements,
                            old(self)@.next_id,
                            session_before.resolutions(),
                            false,
                        )
                        &&& trace[0].unchanged_but_resolutions(session_before)
                        &&& trace[0].resolutions() == top_level_resolution(
                            statements,
                            session_before.resolutions(),
                        ).resolutions
                        &&& program_ran(numbers, statements, print_expression, trace, results, self.interpreter)
                        &&& runtime_errors_reported(
                            results,
                            self@.reports,
                            old(self)@.reports,
                            self@.had_runtime_error,
                            old(self)@.had_runtime_error,
                        )
                    };
                assert(static_errors_reported(
                    source@,
                    tokens,
                    statements,
                    old(self)@.next_id,
                    old(self).resolutions(),
                    false,
                ));
                assert(program_ran(numbers, statements, print_expression, trace, results, self.session()));
            }
            if source@.len() < usize::MAX {
                let (tokens, statements) = choose|tokens: Seq<Token>, statements: Seq<Stmt>|
                    static_errors_reported(
                        source@,
                        tokens,
                        statements,
                        old(self)@.next_id,
                        old(self).resolutions(),
                        had_error,
                    );
                assert(static_errors_reported(
                    source@,
                    tokens,
                    statements,
                    old(self)@.next_id,
                    old(self).resolutions(),
                    self@.had_error,
                ));
            }
        }
    }

    fn run_with<N: NumberOps>(&mut self, interpreter: &mut Interpreter, source: &str, print_expression: bool, numbers: &N)
        requires
            old(interpreter).wf(),
        ensures
            final(interpreter).wf(),
            extends(final(self)@.reports, old(self)@.reports),
            old(self)@.had_error ==> final(self)@.had_error,
            old(self)@.had_runtime_error ==> final(self)@.had_runtime_error,
            final(self)@.had_error ==> final(interpreter).printed() == old(interpreter).printed()
                && final(self)@.had_runtime_error == old(self)@.had_runtime_error,
            extends(final(interpreter).printed(), old(interpreter).printed()),
            final(self)@.output == old(self)@.output,
            source@.len() < usize::MAX ==> extends(
                final(self)@.reports,
                old(self)@.reports + scan_reports(source@),
            ),
            source@.len() < usize::MAX && errors_from(source@, 0).len() > 0 ==> final(self)@.had_error,
            source@.len() < usize::MAX ==> exists|tokens: Seq<Token>, statements: Seq<Stmt>|
                static_errors_reported(
                    source@,
                    tokens,
                    statements,
                    old(self)@.next_id,
                    old(interpreter).resolutions(),
                    final(self)@.had_error,
                ),
            source@.len() >= usize::MAX ==> final(self)@.reports == old(self)@.reports.push(
                report_text(0, ""@, "Source text too long."@),
            ) && final(self)@.had_error,
            source@.len() < usize::MAX && !old(self)@.had_error ==> exists|tokens: Seq<Token>, statements: Seq<Stmt>|
                #![trigger static_errors_exact(source@, tokens, statements, old(self)@.next_id, old(interpreter).resolutions(), final(self)@.had_error)]
                static_errors_reported(
                    source@,
                    tokens,
                    statements,
                    old(self)@.next_id,
                    old(interpreter).resolutions(),
                    final(self)@.had_error,
                ) && static_errors_exact(
                    source@,
                    tokens,
                    statements,
                    old(self)@.next_id,
                    old(interpreter).resolutions(),
                    final(self)@.had_error,
                ) && (final(self)@.had_error ==> final(self)@.reports == old(self)@.reports + static_reports(
                    source@,
                    tokens,
                    statements,
                    old(self)@.next_id,
                    old(interpreter).resolutions(),
                )),
            source@.len() < usize::MAX && !final(self)@.had_error ==> exists|
                tokens: Seq<Token>,
                statements: Seq<Stmt>,
                trace: Seq<Interpreter>,
                results: Seq<ExecutionResult>,
            |
                #![trigger static_errors_reported(source@, tokens, statements, old(self)@.next_id, old(interpreter).resolutions(), false), program_ran(numbers, statements, print_expression, trace, results, *final(interpreter))]
                {
                    &&& static_errors_reported(
                        source@,
                        tokens,
                        statements,
                        old(self)@.next_id,
                        old(interpreter).resolutions(),
                        false,
                    )
                    &&& trace[0].unchanged_but_resolutions(*old(interpreter))
                    &&& trace[0].resolutions() == top_level_resolution(
                        statements,
                        old(interpreter).resolutions(),
                    ).resolutions
                    &&& program_ran(numbers, statements, print_expression, trace, results, *final(interpreter))
                    &&& runtime_errors_reported(
                        results,
                        final(self)@.reports,
                        old(self)@.reports,
                        final(self)@.had_runtime_error,
                        old(self)@.had_runtime_error,
                    )
                },
    {
        let mut scanner = Scanner::new(source);
        if !scanner.can_scan() {
            self.error(0, "Source text too long.");
            return;
        }
        let tokens = scanner.scan_tokens(numbers);
        let scan_errors = scanner.errors();
        let ghost expected = old(self)@.reports + scan_reports(source@);
        proof {
            assert(scan_errors@.map_values(|e: ScanError| (e.line as nat, e.message@)) =~= errors_from(source@, 0));
        }
        let mut i: usize = 0;
        while i < scan_errors.len()
            invariant
                i <= scan_errors@.len(),
                scan_errors@.len() == errors_from(source@, 0).len(),
                scan_errors@.map_values(|e: ScanError| (e.line as nat, e.message@)) == errors_from(source@, 0),
                self@.reports == old(self)@.reports + scan_reports(source@).take(i as int),
                old(self)@.had_error ==> self@.had_error,
                i > 0 ==> self@.had_error,
                self@.had_error == (old(self)@.had_error || i > 0),
                self@.had_runtime_error == old(self)@.had_runtime_error,
                self@.output == old(self)@.output,
                self@.next_id == old(self)@.next_id,
            decreases scan_errors@.len() - i,
        {
            proof {
                let e = scan_errors@[i as int];
                assert(scan_errors@.map_values(|e: ScanError| (e.line as nat, e.message@))[i as int] == (e.line as nat, e.message@));
                assert(scan_reports(source@)[i as int] == report_text(e.line as nat, ""@, e.message@));
                assert(scan_reports(source@).take(i + 1) =~= scan_reports(source@).take(i as int).push(
                    report_text(e.line as nat, ""@, e.message@),
                ));
            }
            self.error(scan_errors[i].line, scan_errors[i].message.as_str());
            i = i + 1;
        }
        proof {
            assert(scan_reports(source@).take(i as int) =~= scan_reports(source@));
        }
        proof {
            lemma_scanned_tokens_are_parsable(tokens@);
        }
        let ghost scanned = self@;
        let ghost scanned_tokens_seq = tokens@;
        let statements = {
            let mut parser = Parser::new(tokens, self);
            let statements = parser.parse();
            parser.finish();
            statements
        };
        assert(extends(self@.reports, scanned.reports));
        let ghost syntax_failed = program_fails(scanned_tokens_seq, PState { pos: 0, depth: 0, id: old(self)@.next_id, reports: Seq::empty() });
        let ghost resolved = top_level_resolution(statements@, old(interpreter).resolutions());
        assert(syntax_failed ==> self@.had_error);
        let ghost parse_end = program_end(
            scanned_tokens_seq,
            PState { pos: 0, depth: 0, id: old(self)@.next_id, reports: Seq::empty() },
        );
        assert(self@.had_error == (old(self)@.had_error || errors_from(source@, 0).len() > 0 || parse_end.reports.len() > 0));
        assert(self@.reports == old(self)@.reports + scan_reports(source@) + parse_end.reports);
        assert(syntax_errors_reported(source@, scanned_tokens_seq, old(self)@.next_id, self@.had_error));
        assert(stmts_view(statements@) == program_rest(
            scanned_tokens_seq,
            PState { pos: 0, depth: 0, id: old(self)@.next_id, reports: Seq::empty() },
            Seq::empty(),
        ));
        if self.had_error {
            assert(static_errors_reported(
                source@,
                scanned_tokens_seq,
                statements@,
                old(self)@.next_id,
                old(interpreter).resolutions(),
                self@.had_error,
            ));
            assert(!old(self)@.had_error ==> static_errors_exact(
                source@,
                scanned_tokens_seq,
                statements@,
                old(self)@.next_id,
                old(interpreter).resolutions(),
                self@.had_error,
            ));
            assert(!old(self)@.had_error ==> self@.reports =~= old(self)@.reports + static_reports(
                source@,
                scanned_tokens_seq,
                statements@,
                old(self)@.next_id,
                old(interpreter).resolutions(),
            ));
            return;
        }
        let ghost unresolved = *interpreter;
        let errors = {
            let mut resolver = Resolver::new(interpreter);
            resolver.resolve(statements.as_slice());
            resolver.into_errors()
        };
        assert(interpreter.printed() == unresolved.printed());
        assert(errors@.len() == resolved.errors.len());
        let ghost start = *interpreter;
        assert(unresolved == *old(interpreter));
        assert(start.unchanged_but_resolutions(*old(interpreter)));
        assert(start.resolutions() == resolved.resolutions);
        let mut i: usize = 0;
        while i < errors.len()
            invariant
                *interpreter == start,
                start.unchanged_but_resolutions(*old(interpreter)),
                start.resolutions() == resolved.resolutions,
                interpreter.wf(),
                interpreter.printed() == old(interpreter).printed(),
                extends(self@.reports, old(self)@.reports + scan_reports(source@)),
                source@.len() < usize::MAX,
                !old(self)@.had_error,
                errors_from(source@, 0).len() == 0,
                i > 0 ==> self@.had_error,
                self@.had_error == (i > 0),
                i <= errors@.len(),
                self@.reports == old(self)@.reports + scan_reports(source@) + parse_end.reports
                    + resolution_reports(statements@, old(interpreter).resolutions()).take(i as int),
                errors@.map_values(|e: ResolutionError| (e.token, e.message@)) == resolved.errors,
                parse_end.reports.len() == 0,
                parse_end == program_end(
                    scanned_tokens_seq,
                    PState { pos: 0, depth: 0, id: old(self)@.next_id, reports: Seq::empty() },
                ),
                self@.had_runtime_error == old(self)@.had_runtime_error,
                self@.output == old(self)@.output,
                syntax_errors_reported(source@, scanned_tokens_seq, old(self)@.next_id, false),
                stmts_view(statements@) == program_rest(
                    scanned_tokens_seq,
                    PState { pos: 0, depth: 0, id: old(self)@.next_id, reports: Seq::empty() },
                    Seq::empty(),
                ),
                errors@.len() == resolved.errors.len(),
                resolved == top_level_resolution(statements@, old(interpreter).resolutions()),
            decreases errors@.len() - i,
        {
            proof {
                let e = errors@[i as int];
                assert(errors@.map_values(|e: ResolutionError| (e.token, e.message@))[i as int] == (e.token, e.message@));
                let all = resolution_reports(statements@, old(interpreter).resolutions());
                assert(all[i as int] == report_text(e.token.line as nat, token_location(e.token), e.message@));
                assert(all.take(i + 1) =~= all.take(i as int).push(all[i as int]));
            }
            self.error_token(&errors[i].token, errors[i].message.as_str());
            i = i + 1;
        }
        proof {
            let all = resolution_reports(statements@, old(interpreter).resolutions());
            assert(all.take(i as int) =~= all);
            if errors_from(source@, 0).len() == 0 {
                assert(scan_reports(source@) =~= Seq::<Seq<char>>::empty());
            }
            assert(self@.reports =~= old(self)@.reports + static_reports(
                source@,
                scanned_tokens_seq,
                statements@,
                old(self)@.next_id,
                old(interpreter).resolutions(),
            ));
        }
        assert(static_errors_reported(
            source@,
            scanned_tokens_seq,
            statements@,
            old(self)@.next_id,
            old(interpreter).resolutions(),
            self@.had_error,
        ));
        assert(static_errors_exact(
            source@,
            scanned_tokens_seq,
            statements@,
            old(self)@.next_id,
            old(interpreter).resolutions(),
            self@.had_error,
        ));
        if self.had_error {
            return;
        }
        let ghost mut trace: Seq<Interpreter> = seq![*interpreter];
        let ghost mut results: Seq<ExecutionResult> = Seq::empty();
        let mut i: usize = 0;
        while i < statements.len()
            invariant
                interpreter.wf(),
                interpreter.keeps_printed(*old(interpreter)),
                extends(self@.reports, old(self)@.reports + scan_reports(source@)),
                source@.len() < usize::MAX,
                !old(self)@.had_error,
                !self@.had_error,
                errors_from(source@, 0).len() == 0,
                self@.had_runtime_error == old(self)@.had_runtime_error,
                self@.output == old(self)@.output,
                static_errors_reported(
                    source@,
                    scanned_tokens_seq,
                    statements@,
                    old(self)@.next_id,
                    old(interpreter).resolutions(),
                    false,
                ),
                static_errors_exact(
                    source@,
                    scanned_tokens_seq,
                    statements@,
                    old(self)@.next_id,
                    old(interpreter).resolutions(),
                    false,
                ),
                self@.reports == old(self)@.reports,
                i <= statements@.len(),
                trace.len() == i + 1,
                results.len() == i,
                trace[0] == start,
                trace.last() == *interpreter,
                start.unchanged_but_resolutions(*old(interpreter)),
                start.resolutions() == top_level_resolution(statements@, old(interpreter).resolutions()).resolutions,
                forall|k: int|
                    0 <= k < results.len() ==> top_level_step(
                        numbers,
                        trace[k],
                        statements@[k],
                        print_expression,
                        trace[k + 1],
                        #[trigger] results[k],
                    ),
                forall|k: int| 0 <= k < results.len() ==> !(#[trigger] results[k] is RuntimeError),
            decreases statements@.len() - i,
        {
            let ghost before = *interpreter;
            match &statements[i] {
                Stmt::Expression { expression } if print_expression => {
                    let c = interpreter.evaluate_expression(expression, numbers);
                    let ghost cg = c;
                    let ghost mid = *interpreter;
                    match c {
                        Ok(value) => {
                            proof {
                                lemma_follows_keeps_printed(*interpreter, before);
                            }
                            let text = interpreter.stringify(&value, numbers);
                            interpreter.print_line(text);
                            proof {
                                assert(interpreter.printed().drop_last() =~= mid.printed());
                                assert(value_printed(numbers, mid, cg, *interpreter, ExecutionResult::Success));
                                assert(top_level_step(
                                    numbers,
                                    before,
                                    statements@[i as int],
                                    print_expression,
                                    *interpreter,
                                    ExecutionResult::Success,
                                ));
                                trace = trace.push(*interpreter);
                                results = results.push(ExecutionResult::Success);
                                assert(trace[i as int] == before);
                            }
                        },
                        Err(error) => {
                            proof {
                                lemma_follows_keeps_printed(*interpreter, before);
                            }
                            self.runtime_error(&error.message, error.token.line);
                            proof {
                                let res = ExecutionResult::RuntimeError(error);
                                assert(value_printed(numbers, mid, cg, mid, res));
                                assert(top_level_step(numbers, before, statements@[i as int], print_expression, mid, res));
                                trace = trace.push(*interpreter);
                                results = results.push(res);
                                assert(trace[i as int] == before);
                                assert(program_ran(numbers, statements@, print_expression, trace, results, *interpreter));
                                assert(runtime_errors_reported(
                                    results,
                                    self@.reports,
                                    old(self)@.reports,
                                    self@.had_runtime_error,
                                    old(self)@.had_runtime_error,
                                ));
                            }
                            assert(static_errors_reported(
                                source@,
                                scanned_tokens_seq,
                                statements@,
                                old(self)@.next_id,
                                old(interpreter).resolutions(),
                                self@.had_error,
                            ));
                            return;
                        },
                    }
                },
                statement => {
                    let result = interpreter.execute(statement, numbers);
                    proof {
                        lemma_follows_keeps_printed(*interpreter, before);
                        assert(top_level_step(
                            numbers,
                            before,
                            statements@[i as int],
                            print_expression,
                            *interpreter,
                            result,
                        ));
                        trace = trace.push(*interpreter);
                        results = results.push(result);
                        assert(trace[i as int] == before);
                    }
                    match result {
                        ExecutionResult::RuntimeError(error) => {
                            self.runtime_error(&error.message, error.token.line);
                            proof {
                                assert(program_ran(numbers, statements@, print_expression, trace, results, *interpreter));
                                assert(runtime_errors_reported(
                                    results,
                                    self@.reports,
                                    old(self)@.reports,
                                    self@.had_runtime_error,
                                    old(self)@.had_runtime_error,
                                ));
                            }
                            assert(static_errors_reported(
                                source@,
                                scanned_tokens_seq,
                                statements@,
                                old(self)@.next_id,
                                old(interpreter).resolutions(),
                                self@.had_error,
                            ));
                            return;
                        },
                        // The parser rejects `break` outside a loop and the
                        // resolver rejects `return` at the top level, so the
                        // other outcomes end the statement normally.
                        _ => {},
                    }
                },
            }
            i = i + 1;
        }
        proof {
            assert(program_ran(numbers, statements@, print_expression, trace, results, *interpreter));
            assert(runtime_errors_reported(results, self@.reports, old(self)@.reports, self@.had_runtime_error, old(self)@.had_runtime_error));
        }
        assert(static_errors_reported(
            source@,
            scanned_tokens_seq,
            statements@,
            old(self)@.next_id,
            old(interpreter).resolutions(),
            self@.had_error,
        ));
    }

    /// Whether another expression identifier can be handed out.
    pub fn can_allocate_id(&self) -> (r: bool)
        ensures
            r == (self@.next_id < usize::MAX),
    {
        self.expr_id_generator.can_allocate()
    }

    pub fn next_expr_id(&mut self) -> (id: ExprId)
        requires
            old(self)@.next_id < usize::MAX,
        ensures
            id == old(self)@.next_id,
            final(self)@.next_id == old(self)@.next_id + 1,
            final(self)@.reports == old(self)@.reports,
            final(self)@.had_error == old(self)@.had_error,
            final(self)@.had_runtime_error == old(self)@.had_runtime_error,
            final(self)@.output == old(self)@.output,
    {
        proof {
            use_type_invariant(&*self);
        }
        let mut generator = ExprIdGenerator::new();
        std::mem::swap(&mut generator, &mut self.expr_id_generator);
        let id = generator.next();
        std::mem::swap(&mut generator, &mut self.expr_id_generator);
        id
    }
}

} // verus!
