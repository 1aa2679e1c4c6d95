//! Prints expressions in a parenthesized, Lisp-like form.
use vstd::prelude::*;
use crate::expr::Expr;
use crate::numbers::NumberOps;
use crate::text::{append_str, push_char};
use crate::token::{Literal, Token};

verus! {

/// The number literals of `e` (their bit patterns), in the order they occur.
pub open spec fn number_literals(e: Expr) -> Seq<u64>
    decreases e,
{
    match e {
        Expr::Binary { left, right, .. } => number_literals(*left) + number_literals(*right),
        Expr::Grouping { expression } => number_literals(*expression),
        Expr::Literal { value } => match value {
            Literal::Number(n) => seq![n],
            _ => seq![],
        },
        Expr::Unary { right, .. } => number_literals(*right),
        Expr::Variable { .. } => seq![],
        Expr::Assign { value, .. } => number_literals(*value),
        Expr::Logical { left, right, .. } => number_literals(*left) + number_literals(*right),
        Expr::Call { callee, arguments, .. } => number_literals(*callee) + args_literals(arguments@),
        Expr::Get { object, .. } => number_literals(*object),
        Expr::SetProperty { object, value, .. } => number_literals(*object) + number_literals(*value),
        Expr::This { .. } => seq![],
        Expr::Super { .. } => seq![],
        Expr::Function { .. } => seq![],
    }
}

/// The number literals of a list of expressions, in order.
pub open spec fn args_literals(args: Seq<Expr>) -> Seq<u64>
    decreases args,
{
    if args.len() == 0 {
        seq![]
    } else {
        args_literals(args.drop_last()) + number_literals(args.last())
    }
}

/// How many number literals `e` holds.
pub open spec fn num_count(e: Expr) -> nat {
    number_literals(e).len()
}

/// How many number literals a list of expressions holds.
pub open spec fn args_count(args: Seq<Expr>) -> nat {
    args_literals(args).len()
}

/// The texts of the numbers `ns`, as the host formats them.
pub open spec fn number_texts<N: NumberOps>(numbers: &N, ns: Seq<u64>) -> Seq<Seq<char>> {
    ns.map_values(|n: u64| numbers.format_spec(n)@)
}

/// Formatting a sequence of numbers formats each part in turn.
pub proof fn lemma_number_texts_add<N: NumberOps>(numbers: &N, a: Seq<u64>, b: Seq<u64>)
    ensures
        number_texts(numbers, a + b) == number_texts(numbers, a) + number_texts(numbers, b),
{
    assert(number_texts(numbers, a + b) =~= number_texts(numbers, a) + number_texts(numbers, b));
}

/// `(name a b)`.
pub open spec fn paren2(name: Seq<char>, a: Seq<char>, b: Seq<char>) -> Seq<char> {
    seq!['('] + name + seq![' '] + a + seq![' '] + b + seq![')']
}

/// `(name a)`.
pub open spec fn paren1(name: Seq<char>, a: Seq<char>) -> Seq<char> {
    seq!['('] + name + seq![' '] + a + seq![')']
}

/// How a literal is shown; `texts[0]` is the text of a number.
pub open spec fn literal_text(value: Literal, texts: Seq<Seq<char>>) -> Seq<char> {
    match value {
        Literal::Number(_) => texts[0],
        Literal::String(s) => s@,
        Literal::Boolean(b) => if b { seq!['t', 'r', 'u', 'e'] } else { seq!['f', 'a', 'l', 's', 'e'] },
        Literal::Nil => seq!['n', 'i', 'l'],
    }
}

/// Parameter names separated by single spaces.
pub open spec fn joined_names(params: Seq<Token>) -> Seq<char>
    decreases params.len(),
{
    if params.len() == 0 {
        seq![]
    } else if params.len() == 1 {
        params[0].lexeme@
    } else {
        joined_names(params.drop_last()) + seq![' '] + params.last().lexeme@
    }
}

/// The printed form of `e`, where `texts` are the texts of its number
/// literals, in the order they occur.
pub open spec fn printed(e: Expr, texts: Seq<Seq<char>>) -> Seq<char>
    decreases e,
{
    match e {
        Expr::Binary { left, operator, right } => {
            let k = num_count(*left);
            paren2(operator.lexeme@, printed(*left, texts.take(k as int)), printed(*right, texts.skip(k as int)))
        },
        Expr::Grouping { expression } => paren1(seq!['g', 'r', 'o', 'u', 'p'], printed(*expression, texts)),
        Expr::Literal { value } => literal_text(value, texts),
        Expr::Unary { operator, right } => paren1(operator.lexeme@, printed(*right, texts)),
        Expr::Variable { name, .. } => name.lexeme@,
        Expr::Assign { name, value, .. } => seq!['(', '=', ' '] + name.lexeme@ + seq![' '] + printed(*value, texts) + seq![')'],
        Expr::Logical { left, operator, right } => {
            let k = num_count(*left);
            paren2(operator.lexeme@, printed(*left, texts.take(k as int)), printed(*right, texts.skip(k as int)))
        },
        Expr::Call { callee, arguments, .. } => {
            let k = num_count(*callee);
            seq!['(', 'c', 'a', 'l', 'l', ' '] + printed(*callee, texts.take(k as int)) + printed_args(arguments@, texts.skip(k as int)) + seq![')']
        },
        Expr::Get { object, name } => seq!['(', '.', ' '] + printed(*object, texts) + seq![' '] + name.lexeme@ + seq![')'],
        Expr::SetProperty { object, name, value } => {
            let k = num_count(*object);
            seq!['(', '=', ' ', '(', '.', ' '] + printed(*object, texts.take(k as int)) + seq![' '] + name.lexeme@ + seq![')', ' ']
                + printed(*value, texts.skip(k as int)) + seq![')']
        },
        Expr::This { .. } => seq!['t', 'h', 'i', 's'],
        Expr::Super { method, .. } => seq!['(', 's', 'u', 'p', 'e', 'r', ' '] + method.lexeme@ + seq![')'],
        Expr::Function { params, .. } => seq!['(', 'f', 'u', 'n', ' ', '('] + joined_names(params@) + seq![')', ' ', '<', 'b', 'o', 'd', 'y', '>', ')'],
    }
}

/// Each argument printed after a space.
pub open spec fn printed_args(args: Seq<Expr>, texts: Seq<Seq<char>>) -> Seq<char>
    decreases args,
{
    if args.len() == 0 {
        seq![]
    } else {
        let k = args_count(args.drop_last());
        printed_args(args.drop_last(), texts.take(k as int)) + seq![' '] + printed(args.last(), texts.skip(k as int))
    }
}

/// What `AstPrinter::print` gives for `e`, each number shown as the host
/// formats it.
pub open spec fn print_text<N: NumberOps>(numbers: &N, e: Expr) -> Seq<char> {
    printed(e, number_texts(numbers, number_literals(e)))
}

/// What printing each of `args` gives, each after a space.
pub open spec fn print_each<N: NumberOps>(numbers: &N, args: Seq<Expr>) -> Seq<char>
    decreases args.len(),
{
    if args.len() == 0 {
        seq![]
    } else {
        print_each(numbers, args.drop_last()) + seq![' '] + print_text(numbers, args.last())
    }
}

/// The texts of `a + b` split, at the length of `a`, into those of `a` and `b`.
proof fn lemma_texts_split<N: NumberOps>(numbers: &N, a: Seq<u64>, b: Seq<u64>)
    ensures
        number_texts(numbers, a + b).take(a.len() as int) == number_texts(numbers, a),
        number_texts(numbers, a + b).skip(a.len() as int) == number_texts(numbers, b),
{
    lemma_number_texts_add(numbers, a, b);
    assert(number_texts(numbers, a + b).take(a.len() as int) =~= number_texts(numbers, a));
    assert(number_texts(numbers, a + b).skip(a.len() as int) =~= number_texts(numbers, b));
}

/// Printing the arguments of a call prints each argument on its own.
proof fn lemma_print_args<N: NumberOps>(numbers: &N, args: Seq<Expr>)
    ensures
        printed_args(args, number_texts(numbers, args_literals(args))) == print_each(numbers, args),
    decreases args.len(),
{
    if args.len() > 0 {
        let front = args.drop_last();
        lemma_print_args(numbers, front);
        lemma_texts_split(numbers, args_literals(front), number_literals(args.last()));
    }
}

/// Printing is compositional: the printed form of an expression is made of
/// the printed forms of its parts, each printed on its own, with the
/// operator, name or keyword of the expression itself. In particular a
/// property write prints the object, the property's name and the value.
pub proof fn law_print_is_compositional<N: NumberOps>(numbers: &N, e: Expr)
    ensures
        match e {
            Expr::Binary { left, operator, right } => print_text(numbers, e) == "("@ + operator.lexeme@ + " "@
                + print_text(numbers, *left) + " "@ + print_text(numbers, *right) + ")"@,
            Expr::Logical { left, operator, right } => print_text(numbers, e) == "("@ + operator.lexeme@ + " "@
                + print_text(numbers, *left) + " "@ + print_text(numbers, *right) + ")"@,
            Expr::Grouping { expression } => print_text(numbers, e) == "(group "@ + print_text(numbers, *expression)
                + ")"@,
            Expr::Unary { operator, right } => print_text(numbers, e) == "("@ + operator.lexeme@ + " "@
                + print_text(numbers, *right) + ")"@,
            Expr::Variable { name, .. } => print_text(numbers, e) == name.lexeme@,
            Expr::Assign { name, value, .. } => print_text(numbers, e) == "(= "@ + name.lexeme@ + " "@
                + print_text(numbers, *value) + ")"@,
            Expr::Get { object, name } => print_text(numbers, e) == "(. "@ + print_text(numbers, *object) + " "@
                + name.lexeme@ + ")"@,
            Expr::SetProperty { object, name, value } => print_text(numbers, e) == "(= (. "@ + print_text(
                numbers,
                *object,
            ) + " "@ + name.lexeme@ + ") "@ + print_text(numbers, *value) + ")"@,
            Expr::Call { callee, arguments, .. } => print_text(numbers, e) == "(call "@ + print_text(numbers, *callee)
                + print_each(numbers, arguments@) + ")"@,
            Expr::Literal { value } => print_text(numbers, e) == match value {
                Literal::Number(n) => numbers.format_spec(n)@,
                Literal::String(s) => s@,
                Literal::Boolean(b) => if b { "true"@ } else { "false"@ },
                Literal::Nil => "nil"@,
            },
            Expr::This { .. } => print_text(numbers, e) == "this"@,
            Expr::Super { method, .. } => print_text(numbers, e) == "(super "@ + method.lexeme@ + ")"@,
            Expr::Function { .. } => true,
        },
{
    reveal_strlit("(");
    reveal_strlit(")");
    reveal_strlit(" ");
    reveal_strlit("(group ");
    reveal_strlit("(= ");
    reveal_strlit("(. ");
    reveal_strlit("(= (. ");
    reveal_strlit(") ");
    reveal_strlit("(call ");
    reveal_strlit("true");
    reveal_strlit("false");
    reveal_strlit("nil");
    reveal_strlit("this");
    reveal_strlit("(super ");
    match e {
        Expr::Binary { left, operator, right } => {
            lemma_texts_split(numbers, number_literals(*left), number_literals(*right));
            assert(print_text(numbers, e) =~= "("@ + operator.lexeme@ + " "@ + print_text(numbers, *left) + " "@
                + print_text(numbers, *right) + ")"@);
        },
        Expr::Logical { left, operator, right } => {
            lemma_texts_split(numbers, number_literals(*left), number_literals(*right));
            assert(print_text(numbers, e) =~= "("@ + operator.lexeme@ + " "@ + print_text(numbers, *left) + " "@
                + print_text(numbers, *right) + ")"@);
        },
        Expr::Grouping { expression } => {
            assert(print_text(numbers, e) =~= "(group "@ + print_text(numbers, *expression) + ")"@);
        },
        Expr::Unary { operator, right } => {
            assert(print_text(numbers, e) =~= "("@ + operator.lexeme@ + " "@ + print_text(numbers, *right) + ")"@);
        },
        Expr::Assign { name, value, .. } => {
            assert(print_text(numbers, e) =~= "(= "@ + name.lexeme@ + " "@ + print_text(numbers, *value) + ")"@);
        },
        Expr::Get { object, name } => {
            assert(print_text(numbers, e) =~= "(. "@ + print_text(numbers, *object) + " "@ + name.lexeme@ + ")"@);
        },
        Expr::SetProperty { object, name, value } => {
            lemma_texts_split(numbers, number_literals(*object), number_literals(*value));
            assert(print_text(numbers, e) =~= "(= (. "@ + print_text(numbers, *object) + " "@ + name.lexeme@ + ") "@
                + print_text(numbers, *value) + ")"@);
        },
        Expr::Call { callee, arguments, .. } => {
            lemma_texts_split(numbers, number_literals(*callee), args_literals(arguments@));
            lemma_print_args(numbers, arguments@);
            assert(print_text(numbers, e) =~= "(call "@ + print_text(numbers, *callee) + print_each(numbers, arguments@)
                + ")"@);
        },
        Expr::Literal { value } => {
            match value {
                Literal::Number(n) => {
                    assert(number_texts(numbers, number_literals(e)) =~= seq![numbers.format_spec(n)@]);
                },
                Literal::Boolean(b) => {
                    if b {
                        assert(print_text(numbers, e) =~= "true"@);
                    } else {
                        assert(print_text(numbers, e) =~= "false"@);
                    }
                },
                Literal::Nil => {
                    assert(print_text(numbers, e) =~= "nil"@);
                },
                _ => {},
            }
        },
        Expr::This { .. } => {
            assert(print_text(numbers, e) =~= "this"@);
        },
        Expr::Super { method, .. } => {
            assert(print_text(numbers, e) =~= "(super "@ + method.lexeme@ + ")"@);
        },
        _ => {},
    }
}

/// Each parameter name after a space, from the first to the last.
pub open spec fn spaced_names(params: Seq<Token>) -> Seq<char>
    decreases params.len(),
{
    if params.len() == 0 {
        seq![]
    } else {
        seq![' '] + params[0].lexeme@ + spaced_names(params.skip(1))
    }
}

proof fn lemma_spaced_names_push(params: Seq<Token>, t: Token)
    ensures
        spaced_names(params.push(t)) == spaced_names(params) + seq![' '] + t.lexeme@,
    decreases params.len(),
{
    if params.len() > 0 {
        assert(params.push(t).skip(1) =~= params.skip(1).push(t));
        lemma_spaced_names_push(params.skip(1), t);
        assert(params.push(t)[0] == params[0]);
        assert(spaced_names(params.push(t)) =~= spaced_names(params) + seq![' '] + t.lexeme@);
    } else {
        assert(params.push(t).skip(1) =~= Seq::<Token>::empty());
        assert(spaced_names(params.push(t).skip(1)) == Seq::<char>::empty());
        assert(spaced_names(params) == Seq::<char>::empty());
        assert(params.push(t)[0] == t);
        assert(spaced_names(params.push(t)) =~= spaced_names(params) + seq![' '] + t.lexeme@);
    }
}

/// A function expression prints its parameter names in order, the first
/// one after `(fun (` and each other one after a single space, then
/// `) <body>)`.
pub proof fn law_print_function<N: NumberOps>(numbers: &N, e: Expr)
    ensures
        e matches Expr::Function { params, .. } ==> print_text(numbers, e) == "(fun ("@ + if (*params)@.len() == 0 {
            Seq::<char>::empty()
        } else {
            (*params)@[0].lexeme@ + spaced_names((*params)@.skip(1))
        } + ") <body>)"@,
{
    reveal_strlit("(fun (");
    reveal_strlit(") <body>)");
    match e {
        Expr::Function { params, .. } => {
            let p = (*params)@;
            lemma_joined_names(p);
            assert(print_text(numbers, e) =~= "(fun ("@ + joined_names(p) + ") <body>)"@);
        },
        _ => {},
    }
}

proof fn lemma_joined_names(p: Seq<Token>)
    ensures
        joined_names(p) == if p.len() == 0 {
            Seq::<char>::empty()
        } else {
            p[0].lexeme@ + spaced_names(p.skip(1))
        },
    decreases p.len(),
{
    if p.len() == 1 {
        assert(p.skip(1) =~= Seq::<Token>::empty());
        assert(p[0].lexeme@ + spaced_names(p.skip(1)) =~= p[0].lexeme@);
    } else if p.len() > 1 {
        let front = p.drop_last();
        lemma_joined_names(front);
        assert(p.skip(1) =~= front.skip(1).push(p.last()));
        lemma_spaced_names_push(front.skip(1), p.last());
        assert(front[0] == p[0]);
        assert(joined_names(p) =~= p[0].lexeme@ + spaced_names(p.skip(1)));
    }
}

/// A property write prints as an assignment to the property read: the
/// printed read `obj.name`, then the printed value.
pub proof fn law_print_set_is_assignment_to_get<N: NumberOps>(numbers: &N, object: Box<Expr>, name: Token, value: Box<Expr>)
    ensures
        print_text(numbers, Expr::SetProperty { object, name, value }) == "(= "@ + print_text(
            numbers,
            Expr::Get { object, name },
        ) + " "@ + print_text(numbers, *value) + ")"@,
{
    law_print_is_compositional(numbers, Expr::SetProperty { object, name, value });
    law_print_is_compositional(numbers, Expr::Get { object, name });
    reveal_strlit("(= ");
    reveal_strlit("(= (. ");
    reveal_strlit("(. ");
    reveal_strlit(") ");
    reveal_strlit(")");
    reveal_strlit(" ");
    assert(print_text(numbers, Expr::SetProperty { object, name, value }) =~= "(= "@ + print_text(
        numbers,
        Expr::Get { object, name },
    ) + " "@ + print_text(numbers, *value) + ")"@);
}

pub struct AstPrinter;

impl AstPrinter {
    pub fn new() -> (p: Self) {
        AstPrinter
    }

    /// The printed form of `expr` ([`printed`]), each number literal shown as
    /// `numbers.format` shows it.
    pub fn print<N: NumberOps>(&self, expr: &Expr, numbers: &N) -> (r: String)
        ensures
            r@ == printed(*expr, number_texts(numbers, number_literals(*expr))),
            r@ == print_text(numbers, *expr),
    {
        let (r, _) = self.print_with(expr, numbers);
        r
    }

    fn parenthesize2(name: &String, a: String, b: String) -> (r: String)
        ensures
            r@ == paren2(name@, a@, b@),
    {
        let mut s = String::new();
        push_char(&mut s, '(');
        append_str(&mut s, name.as_str());
        push_char(&mut s, ' ');
        append_str(&mut s, a.as_str());
        push_char(&mut s, ' ');
        append_str(&mut s, b.as_str());
        push_char(&mut s, ')');
        assert(s@ =~= paren2(name@, a@, b@));
        s
    }

    fn parenthesize1(name: &str, a: String) -> (r: String)
        ensures
            r@ == paren1(name@, a@),
    {
        let mut s = String::new();
        push_char(&mut s, '(');
        append_str(&mut s, name);
        push_char(&mut s, ' ');
        append_str(&mut s, a.as_str());
        push_char(&mut s, ')');
        assert(s@ =~= paren1(name@, a@));
        s
    }

    fn print_with<N: NumberOps>(&self, expr: &Expr, numbers: &N) -> (r: (String, Ghost<Seq<Seq<char>>>))
        ensures
            r.1@ == number_texts(numbers, number_literals(*expr)),
            r.0@ == printed(*expr, r.1@),
        decreases expr,
    {
        proof {
            assert(number_literals(*expr).len() == 0 ==> number_texts(numbers, number_literals(*expr))
                =~= Seq::<Seq<char>>::empty());
        }
        match expr {
            Expr::Binary { left, operator, right } | Expr::Logical { left, operator, right } => {
                let (a, Ghost(ta)) = self.print_with(left, numbers);
                let (b, Ghost(tb)) = self.print_with(right, numbers);
                let s = Self::parenthesize2(&operator.lexeme, a, b);
                let ghost t = ta + tb;
                proof {
                    lemma_number_texts_add(numbers, number_literals(**left), number_literals(**right));
                    assert(number_literals(*expr) == number_literals(**left) + number_literals(**right));
                }
                assert(t.take(ta.len() as int) =~= ta);
                assert(t.skip(ta.len() as int) =~= tb);
                (s, Ghost(t))
            },
            Expr::Grouping { expression } => {
                let (a, Ghost(ta)) = self.print_with(expression, numbers);
                let s = Self::parenthesize1("group", a);
                proof {
                    reveal_strlit("group");
                }
                (s, Ghost(ta))
            },
            Expr::Literal { value } => {
                match value {
                    Literal::Number(n) => {
                        let s = numbers.format(*n);
                        let ghost t = seq![s@];
                        assert(t =~= number_texts(numbers, number_literals(*expr)));
                        (s, Ghost(t))
                    },
                    Literal::String(st) => (st.clone(), Ghost(Seq::empty())),
                    Literal::Boolean(b) => {
                        let mut s = String::new();
                        if *b {
                            append_str(&mut s, "true");
                            proof {
                                reveal_strlit("true");
                            }
                        } else {
                            append_str(&mut s, "false");
                            proof {
                                reveal_strlit("false");
                            }
                        }
                        assert(s@ =~= literal_text(*value, seq![]));
                        (s, Ghost(Seq::empty()))
                    },
                    Literal::Nil => {
                        let mut s = String::new();
                        append_str(&mut s, "nil");
                        proof {
                            reveal_strlit("nil");
                        }
                        assert(s@ =~= literal_text(*value, seq![]));
                        (s, Ghost(Seq::empty()))
                    },
                }
            },
            Expr::Unary { operator, right } => {
                let (a, Ghost(ta)) = self.print_with(right, numbers);
                let s = Self::parenthesize1(operator.lexeme.as_str(), a);
                (s, Ghost(ta))
            },
            Expr::Variable { name, .. } => (name.lexeme.clone(), Ghost(Seq::empty())),
            Expr::Assign { name, value, .. } => {
                let (a, Ghost(ta)) = self.print_with(value, numbers);
                let mut s = String::new();
                append_str(&mut s, "(= ");
                append_str(&mut s, name.lexeme.as_str());
                push_char(&mut s, ' ');
                append_str(&mut s, a.as_str());
                push_char(&mut s, ')');
                proof {
                    reveal_strlit("(= ");
                }
                assert(s@ =~= printed(*expr, ta));
                (s, Ghost(ta))
            },
            Expr::Call { callee, arguments, .. } => {
                let (c, Ghost(tc)) = self.print_with(callee, numbers);
                let mut s = String::new();
                append_str(&mut s, "(call ");
                proof {
                    reveal_strlit("(call ");
                }
                append_str(&mut s, c.as_str());
                let ghost head = s@;
                let ghost mut targs: Seq<Seq<char>> = seq![];
                let mut i: usize = 0;
                assert(targs =~= number_texts(numbers, args_literals(arguments@.take(0))));
                while i < arguments.len()
                    invariant
                        i <= arguments@.len(),
                        targs == number_texts(numbers, args_literals(arguments@.take(i as int))),
                        s@ == head + printed_args(arguments@.take(i as int), targs),
                        forall|j: int| 0 <= j < arguments@.len() ==> decreases_to!(expr => #[trigger] arguments@[j]),
                    decreases arguments@.len() - i,
                {
                    let (a, Ghost(ta)) = self.print_with(&arguments[i], numbers);
                    push_char(&mut s, ' ');
                    append_str(&mut s, a.as_str());
                    proof {
                        let pre = arguments@.take(i as int);
                        let post = arguments@.take(i + 1);
                        assert(post.drop_last() =~= pre);
                        assert(post.last() == arguments@[i as int]);
                        let nt = targs + ta;
                        lemma_number_texts_add(numbers, args_literals(pre), number_literals(post.last()));
                        assert(nt.take(targs.len() as int) =~= targs);
                        assert(nt.skip(targs.len() as int) =~= ta);
                        targs = nt;
                    }
                    i = i + 1;
                }
                push_char(&mut s, ')');
                let ghost t = tc + targs;
                proof {
                    assert(arguments@.take(arguments@.len() as int) =~= arguments@);
                    lemma_number_texts_add(numbers, number_literals(**callee), args_literals(arguments@));
                    assert(t.take(tc.len() as int) =~= tc);
                    assert(t.skip(tc.len() as int) =~= targs);
                }
                assert(s@ =~= printed(*expr, t));
                (s, Ghost(t))
            },
            Expr::Get { object, name } => {
                let (a, Ghost(ta)) = self.print_with(object, numbers);
                let mut s = String::new();
                append_str(&mut s, "(. ");
                append_str(&mut s, a.as_str());
                push_char(&mut s, ' ');
                append_str(&mut s, name.lexeme.as_str());
                push_char(&mut s, ')');
                proof {
                    reveal_strlit("(. ");
                }
                assert(s@ =~= printed(*expr, ta));
                (s, Ghost(ta))
            },
            Expr::SetProperty { object, name, value } => {
                let (a, Ghost(ta)) = self.print_with(object, numbers);
                let (b, Ghost(tb)) = self.print_with(value, numbers);
                let mut s = String::new();
                append_str(&mut s, "(= (. ");
                append_str(&mut s, a.as_str());
                push_char(&mut s, ' ');
                append_str(&mut s, name.lexeme.as_str());
                push_char(&mut s, ')');
                push_char(&mut s, ' ');
                append_str(&mut s, b.as_str());
                push_char(&mut s, ')');
                proof {
                    reveal_strlit("(= (. ");
                }
                let ghost t = ta + tb;
                proof {
                    lemma_number_texts_add(numbers, number_literals(**object), number_literals(**value));
                }
                assert(t.take(ta.len() as int) =~= ta);
                assert(t.skip(ta.len() as int) =~= tb);
                assert(s@ =~= printed(*expr, t));
                (s, Ghost(t))
            },
            Expr::This { .. } => {
                let mut s = String::new();
                append_str(&mut s, "this");
                proof {
                    reveal_strlit("this");
                }
                assert(s@ =~= printed(*expr, seq![]));
                (s, Ghost(Seq::empty()))
            },
            Expr::Super { method, .. } => {
                let mut s = String::new();
                append_str(&mut s, "(super ");
                append_str(&mut s, method.lexeme.as_str());
                push_char(&mut s, ')');
                proof {
                    reveal_strlit("(super ");
                }
                assert(s@ =~= printed(*expr, seq![]));
                (s, Ghost(Seq::empty()))
            },
            Expr::Function { params, .. } => {
                let mut s = String::new();
                append_str(&mut s, "(fun (");
                proof {
                    reveal_strlit("(fun (");
                }
                let ghost head = s@;
                let mut i: usize = 0;
                while i < params.len()
                    invariant
                        i <= params@.len(),
                        s@ == head + joined_names(params@.take(i as int)),
                    decreases params@.len() - i,
                {
                    proof {
                        let post = params@.take(i + 1);
                        assert(post.drop_last() =~= params@.take(i as int));
                    }
                    if i > 0 {
                        push_char(&mut s, ' ');
                    }
                    append_str(&mut s, params[i].lexeme.as_str());
                    i = i + 1;
                    assert(s@ =~= head + joined_names(params@.take(i as int)));
                }
                append_str(&mut s, ") <body>)");
                proof {
                    reveal_strlit(") <body>)");
                    assert(params@.take(params@.len() as int) =~= params@);
                }
                assert(s@ =~= printed(*expr, seq![]));
                (s, Ghost(Seq::empty()))
            },
        }
    }
}

} // verus!
