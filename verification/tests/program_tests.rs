use lib::lox::Lox;
use lib::numbers::{NumberOps, NumberText};

/// IEEE doubles, as the host supplies them to the interpreter.
struct F64;

impl NumberOps for F64 {
    // Read by the verifier only: a literal's characters are not kept at run time.
    fn parse_spec(&self, _literal: NumberText) -> u64 {
        unreachable!()
    }
    fn add_spec(&self, a: u64, b: u64) -> u64 {
        self.add(a, b)
    }
    fn subtract_spec(&self, a: u64, b: u64) -> u64 {
        self.subtract(a, b)
    }
    fn multiply_spec(&self, a: u64, b: u64) -> u64 {
        self.multiply(a, b)
    }
    fn divide_spec(&self, a: u64, b: u64) -> u64 {
        self.divide(a, b)
    }
    fn negate_spec(&self, a: u64) -> u64 {
        self.negate(a)
    }
    fn equal_spec(&self, a: u64, b: u64) -> bool {
        self.equal(a, b)
    }
    fn greater_spec(&self, a: u64, b: u64) -> bool {
        self.greater(a, b)
    }
    fn greater_equal_spec(&self, a: u64, b: u64) -> bool {
        self.greater_equal(a, b)
    }
    fn less_spec(&self, a: u64, b: u64) -> bool {
        self.less(a, b)
    }
    fn less_equal_spec(&self, a: u64, b: u64) -> bool {
        self.less_equal(a, b)
    }
    fn format_spec(&self, a: u64) -> String {
        self.format(a)
    }
    fn parse(&self, literal: &str) -> u64 {
        literal.parse::<f64>().unwrap().to_bits()
    }
    fn add(&self, a: u64, b: u64) -> u64 {
        (f64::from_bits(a) + f64::from_bits(b)).to_bits()
    }
    fn subtract(&self, a: u64, b: u64) -> u64 {
        (f64::from_bits(a) - f64::from_bits(b)).to_bits()
    }
    fn multiply(&self, a: u64, b: u64) -> u64 {
        (f64::from_bits(a) * f64::from_bits(b)).to_bits()
    }
    fn divide(&self, a: u64, b: u64) -> u64 {
        (f64::from_bits(a) / f64::from_bits(b)).to_bits()
    }
    fn negate(&self, a: u64) -> u64 {
        (-f64::from_bits(a)).to_bits()
    }
    fn equal(&self, a: u64, b: u64) -> bool {
        f64::from_bits(a) == f64::from_bits(b)
    }
    fn greater(&self, a: u64, b: u64) -> bool {
        f64::from_bits(a) > f64::from_bits(b)
    }
    fn greater_equal(&self, a: u64, b: u64) -> bool {
        f64::from_bits(a) >= f64::from_bits(b)
    }
    fn less(&self, a: u64, b: u64) -> bool {
        f64::from_bits(a) < f64::from_bits(b)
    }
    fn less_equal(&self, a: u64, b: u64) -> bool {
        f64::from_bits(a) <= f64::from_bits(b)
    }
    fn format(&self, a: u64) -> String {
        let v = f64::from_bits(a);
        if v.fract() == 0.0 {
            format!("{:.0}", v)
        } else {
            v.to_string()
        }
    }
    fn clock(&self) -> u64 {
        0.0f64.to_bits()
    }
}

fn num(v: f64) -> u64 {
    v.to_bits()
}

/// Runs a program; gives back what it printed and what was reported.
fn run(source: &str) -> (Vec<String>, Vec<String>, Lox) {
    let mut lox = Lox::new();
    lox.run(source, false, &F64);
    let output = lox.take_output();
    let reports = lox.take_reports();
    (output, reports, lox)
}

fn lines(items: &[&str]) -> Vec<String> {
    items.iter().map(|s| s.to_string()).collect()
}

#[test]
fn prints_arithmetic_and_strings() {
    let (output, reports, _) = run("print 1 + 2 * 3; print \"a\" + \"b\"; print \"n = \" + 4; print 7 / 2;");
    assert_eq!(output, lines(&["7", "ab", "n = 4", "3.5"]));
    assert!(reports.is_empty());
}

#[test]
fn prints_truthiness_and_equality() {
    let (output, _, _) = run("print !nil; print !0; print nil == nil; print 1 == \"1\"; print \"a\" != \"b\";");
    assert_eq!(output, lines(&["true", "false", "true", "false", "true"]));
}

#[test]
fn logical_operators_return_an_operand() {
    let (output, _, _) = run("print nil or \"yes\"; print 0 and 2; print false and 1;");
    assert_eq!(output, lines(&["yes", "2", "false"]));
}

#[test]
fn runs_loops_with_break() {
    let (output, _, _) = run(
        "for (var i = 0; i < 3; i = i + 1) print i;
         var n = 0;
         while (true) { n = n + 1; if (n == 4) break; }
         print n;",
    );
    assert_eq!(output, lines(&["0", "1", "2", "4"]));
}

#[test]
fn closures_keep_their_environment() {
    let (output, reports, _) = run(
        "fun makeCounter() {
           var i = 0;
           fun count() { i = i + 1; return i; }
           return count;
         }
         var counter = makeCounter();
         print counter();
         print counter();
         print makeCounter;",
    );
    assert!(reports.is_empty(), "{:?}", reports);
    assert_eq!(output, lines(&["1", "2", "<fn makeCounter>"]));
}

#[test]
fn recursion_computes_fibonacci() {
    let (output, _, _) = run(
        "fun fib(n) { if (n < 2) return n; return fib(n - 1) + fib(n - 2); }
         print fib(10);",
    );
    assert_eq!(output, lines(&["55"]));
}

#[test]
fn classes_have_fields_methods_and_initializers() {
    let (output, reports, _) = run(
        "class Point {
           init(x, y) { this.x = x; this.y = y; }
           sum() { return this.x + this.y; }
         }
         var p = Point(1, 2);
         print p.sum();
         p.x = 10;
         print p.sum();
         print p;
         print Point;
         print p.init(3, 4).x;
         print p == p;",
    );
    assert!(reports.is_empty(), "{:?}", reports);
    assert_eq!(output, lines(&["3", "12", "Point instance", "Point", "3", "false"]));
}

#[test]
fn subclasses_inherit_and_call_super() {
    let (output, reports, _) = run(
        "class A { hello() { return \"A\"; } }
         class B < A { hello() { return \"B\" + super.hello(); } }
         class C < B {}
         print C().hello();",
    );
    assert!(reports.is_empty(), "{:?}", reports);
    assert_eq!(output, lines(&["BA"]));
}

#[test]
fn getters_and_static_methods() {
    let (output, reports, _) = run(
        "class Circle {
           init(r) { this.r = r; }
           area { return 3 * this.r * this.r; }
           class unit() { return Circle(1); }
         }
         print Circle(2).area;
         print Circle.unit().area;",
    );
    assert!(reports.is_empty(), "{:?}", reports);
    assert_eq!(output, lines(&["12", "3"]));
}

#[test]
fn division_by_zero_is_reported_with_its_line() {
    let (output, reports, lox) = run("print 1;\nprint 1 / 0;\nprint 2;");
    assert_eq!(output, lines(&["1"]));
    assert_eq!(reports, lines(&["Division by zero.\n[line 2]"]));
    assert!(lox.had_runtime_error());
    assert!(!lox.had_error());
}

#[test]
fn wrong_argument_count_is_a_runtime_error() {
    let (_, reports, _) = run("fun f(a) { return a; }\nf(1, 2);");
    assert_eq!(reports, lines(&["Expected 1 arguments but got 2.\n[line 2]"]));
}

#[test]
fn clock_takes_no_arguments() {
    let (output, reports, _) = run("print clock(1);");
    assert!(output.is_empty());
    assert_eq!(reports, lines(&["Expected 0 arguments but got 1.\n[line 1]"]));
}

#[test]
fn calling_a_non_callable_is_a_runtime_error() {
    let (_, reports, _) = run("\"text\"();");
    assert_eq!(reports, lines(&["Can only call functions and classes.\n[line 1]"]));
}

#[test]
fn reading_a_missing_property_is_a_runtime_error() {
    let (_, reports, _) = run("class A {}\nprint A().missing;");
    assert_eq!(reports, lines(&["Undefined property 'missing'.\n[line 2]"]));
}

#[test]
fn properties_only_exist_on_instances() {
    let (_, reports, _) = run("var x = 1;\nprint x.y;");
    assert_eq!(reports, lines(&["Only instances have properties.\n[line 2]"]));
}

#[test]
fn superclass_must_be_a_class() {
    let (_, reports, _) = run("var A = 1;\nclass B < A {}");
    assert_eq!(reports, lines(&["Superclass must be a class.\n[line 2]"]));
}

#[test]
fn adding_a_number_to_a_boolean_is_a_runtime_error() {
    let (_, reports, _) = run("print 1 + true;");
    assert_eq!(reports, lines(&["Operands must be two numbers or at least one string.\n[line 1]"]));
}

#[test]
fn a_runtime_error_stops_the_program() {
    let (output, reports, lox) = run("print 1;\nprint 2 + nil;\nprint 3;");
    assert_eq!(output, lines(&["1"]));
    assert_eq!(reports, lines(&["Operands must be two numbers or at least one string.\n[line 2]"]));
    assert!(lox.had_runtime_error());
}

#[test]
fn scan_errors_are_reported_and_nothing_runs() {
    let (output, reports, lox) = run("print 1;\n@");
    assert!(output.is_empty());
    assert_eq!(reports, lines(&["[line 2] Error: Unexpected character."]));
    assert!(lox.had_error());
}

#[test]
fn syntax_errors_are_reported_and_nothing_runs() {
    let (output, reports, lox) = run("print 1;\nprint (2;\nprint 3;");
    assert!(output.is_empty());
    assert_eq!(reports, lines(&["[line 2] Error at ';': Expect ')' after expression."]));
    assert!(lox.had_error());
}

#[test]
fn resolver_rejects_return_at_top_level() {
    let (output, reports, _) = run("print 1;\nreturn 2;");
    assert!(output.is_empty());
    assert_eq!(reports, lines(&["[line 2] Error at 'return': Can't return from top level code."]));
}

#[test]
fn resolver_rejects_this_and_super_outside_classes() {
    let (_, reports, _) = run("print this;");
    assert_eq!(reports, lines(&["[line 1] Error at 'this': Can't use 'this' outside of a class."]));
    let (_, reports, _) = run("print super.x;");
    assert_eq!(reports, lines(&["[line 1] Error at 'super': Can't use 'super' outside of a class."]));
    let (_, reports, _) = run("class A { f() { return super.f(); } }");
    assert_eq!(reports, lines(&["[line 1] Error at 'super': Can't use 'super' in a class with no superclass."]));
}

#[test]
fn resolver_rejects_self_inheritance() {
    let (_, reports, _) = run("class A < A {}");
    assert_eq!(reports, lines(&["[line 1] Error at 'A': A class can't inherit from itself."]));
}

#[test]
fn resolver_rejects_redeclaration_and_self_reference() {
    let (_, reports, _) = run("{ var a = 1; var a = 2; print a; }");
    assert_eq!(reports, lines(&["[line 1] Error at 'a': Already a variable with this name in this scope."]));
    let (_, reports, _) = run("var a = 1; { var a = a; print a; }");
    assert_eq!(reports, lines(&["[line 1] Error at 'a': Can't read local variable in its own initializer."]));
}

#[test]
fn resolver_reports_unused_locals() {
    let (_, reports, _) = run("{ var unused = 1; }");
    assert_eq!(reports, lines(&["[line 1] Error at 'unused': Local variable 'unused' is never used."]));
}

#[test]
fn clock_is_a_native_function() {
    let (output, reports, _) = run("print clock; print clock() >= 0;");
    assert!(reports.is_empty(), "{:?}", reports);
    assert_eq!(output, lines(&["<fn clock>", "true"]));
}

#[test]
fn expression_statements_print_their_value_at_the_prompt() {
    let mut lox = Lox::new();
    lox.run("1 + 2;", true, &F64);
    lox.run("var a = \"x\";", true, &F64);
    lox.run("a;", true, &F64);
    assert_eq!(lox.take_output(), lines(&["3", "x"]));
}

#[test]
fn clear_errors_forgets_reported_errors() {
    let mut lox = Lox::new();
    lox.run("@", false, &F64);
    assert!(lox.had_error());
    lox.clear_errors();
    assert!(!lox.had_error());
    lox.run("print 5;", false, &F64);
    assert_eq!(lox.take_output(), lines(&["5"]));
}

#[test]
fn a_deciding_left_operand_skips_the_right_one() {
    let (output, reports, lox) = run("print \"left\" or missing;\nprint nil and missing;\nprint false or \"right\";");
    assert_eq!(output, lines(&["left", "nil", "right"]));
    assert!(reports.is_empty());
    assert!(!lox.had_runtime_error());
}

#[test]
fn an_initializer_error_is_the_call_error() {
    let (output, reports, lox) = run("class A {\n  init(x) {\n    print x;\n    print x - nil;\n  }\n}\nA(7);\nprint \"after\";");
    assert_eq!(output, lines(&["7"]));
    assert_eq!(reports, lines(&["Operands must be numbers.\n[line 4]"]));
    assert!(lox.had_runtime_error());
}

#[test]
fn a_block_local_is_gone_after_the_block() {
    let (output, reports, lox) = run("{\n  var a = 1;\n  print a;\n}\nprint a;");
    assert_eq!(output, lines(&["1"]));
    assert_eq!(reports, lines(&["Undefined variable 'a'.\n[line 5]"]));
    assert!(lox.had_runtime_error());
}

#[test]
fn a_falsy_loop_condition_never_runs_the_body() {
    let (output, reports, _) = run("while (false) print \"body\";\nprint \"done\";");
    assert_eq!(output, lines(&["done"]));
    assert!(reports.is_empty());
}

#[test]
fn an_if_runs_only_the_branch_its_condition_picks() {
    let (output, _, _) = run("if (1) print \"then\"; else print \"else\";\nif (nil) print \"then\"; else print \"else\";");
    assert_eq!(output, lines(&["then", "else"]));
}

#[test]
fn a_string_joined_with_a_number_shows_the_number() {
    let (output, reports, _) = run("print \"value: \" + 42;\nprint 1 + \" apple\";\nprint -(2) * 3;");
    assert_eq!(output, lines(&["value: 42", "1 apple", "-6"]));
    assert!(reports.is_empty());
}

#[test]
fn a_runtime_error_is_not_a_static_error() {
    let (output, reports, lox) = run("print 1;\nprint missing;\nprint 2;");
    assert_eq!(output, lines(&["1"]));
    assert_eq!(reports, lines(&["Undefined variable 'missing'.\n[line 2]"]));
    assert!(!lox.had_error());
    assert!(lox.had_runtime_error());
}

#[test]
fn scan_errors_come_before_parse_errors_and_resolution_is_skipped() {
    let (output, reports, lox) = run("@\nprint (1;\n{ var a = 1; var a = 2; }");
    assert!(output.is_empty());
    assert_eq!(
        reports,
        lines(&["[line 1] Error: Unexpected character.", "[line 2] Error at ';': Expect ')' after expression."])
    );
    assert!(lox.had_error());
}

#[test]
fn a_clean_program_reports_nothing() {
    let (output, reports, lox) = run("var a = 1;\n{ var b = a + 1; print b; }");
    assert_eq!(output, lines(&["2"]));
    assert!(reports.is_empty());
    assert!(!lox.had_error());
    assert!(!lox.had_runtime_error());
}

#[test]
fn assigning_a_global_stores_and_gives_the_value() {
    let (output, reports, _) = run("var a = 1;\nprint a = 2;\nprint a;");
    assert!(reports.is_empty(), "{:?}", reports);
    assert_eq!(output, lines(&["2", "2"]));
}

#[test]
fn redefining_a_global_replaces_its_value() {
    let (output, reports, _) = run("var a = 1;\nvar a = \"two\";\nprint a;");
    assert!(reports.is_empty(), "{:?}", reports);
    assert_eq!(output, lines(&["two"]));
}

#[test]
fn a_call_gives_what_the_function_returns() {
    let (output, reports, _) = run("fun add(a, b) { return a + b; }\nprint add(2, 3);\nfun none() {}\nprint none();");
    assert!(reports.is_empty(), "{:?}", reports);
    assert_eq!(output, lines(&["5", "nil"]));
}

#[test]
fn assigning_a_field_stores_and_gives_the_value() {
    let (output, reports, _) = run("class A {}\nvar a = A();\nprint a.x = 3;\nprint a.x;\na.x = \"y\";\nprint a.x;");
    assert!(reports.is_empty(), "{:?}", reports);
    assert_eq!(output, lines(&["3", "3", "y"]));
}

#[test]
fn only_instances_have_fields() {
    let (output, reports, _) = run("var s = \"text\";\ns.y = 1;\nprint 2;");
    assert!(output.is_empty());
    assert_eq!(reports, lines(&["Only instances have fields.\n[line 2]"]));
}

#[test]
fn a_class_declaration_makes_methods_getters_and_static_methods() {
    let (output, reports, _) = run(
        "class Point {
           init(x, y) { this.x = x; this.y = y; }
           sum() { return this.x + this.y; }
           twice { return 2 * this.sum(); }
           class origin() { return Point(0, 0); }
         }
         var p = Point(1, 2);
         print p.sum();
         print p.twice;
         print Point.origin().sum();
         print Point;",
    );
    assert!(reports.is_empty(), "{:?}", reports);
    assert_eq!(output, lines(&["3", "6", "0", "Point"]));
}

#[test]
fn super_finds_the_method_of_the_superclass() {
    let (output, reports, _) = run(
        "class A { name() { return \"A\"; } }
         class B < A { name() { return \"B\"; } both() { return this.name() + super.name(); } }
         print B().both();",
    );
    assert!(reports.is_empty(), "{:?}", reports);
    assert_eq!(output, lines(&["BA"]));
}

#[test]
fn a_missing_super_method_is_an_undefined_property() {
    let (_, reports, _) = run("class A {}\nclass B < A { m() { return super.nothing(); } }\nB().m();");
    assert_eq!(reports, lines(&["Undefined property 'nothing'.\n[line 2]"]));
}

#[test]
fn dividing_by_negative_zero_is_a_division_by_zero() {
    let (output, reports, _) = run("print 1 / -0;\nprint -0 / 2;");
    assert!(output.is_empty());
    assert_eq!(reports, lines(&["Division by zero.\n[line 1]"]));
}

#[test]
fn a_class_declared_in_a_block_is_bound_there() {
    let (output, reports, _) = run("{\n  class A { m() { return \"local\"; } }\n  print A().m();\n}");
    assert!(reports.is_empty(), "{:?}", reports);
    assert_eq!(output, lines(&["local"]));
}
