use cdl::blueprint::Signal;
use cdl::common::{BinOp, UnaryOp};
use cdl::error::CompileError;
use cdl::lexer::tokenize;
use cdl::parser::{parse, parse_expr, Expr, Module, ParseItem, Statement};
use cdl::symbols::{load_symbols, SymbolTable};

fn table() -> SymbolTable {
    let mut entries = Vec::new();
    for c in 'a'..='z' {
        entries.push((c.to_string(), Signal { cat: "virtual".to_string(), name: format!("signal-{}", c) }));
    }
    load_symbols(&entries)
}

fn id(name: &str) -> Expr {
    Expr::Ident(name.to_string())
}

fn num(n: i64) -> Expr {
    Expr::Constant(n)
}

fn bin(l: Expr, op: BinOp, r: Expr) -> Expr {
    Expr::BinOp(Box::new(l), op, Box::new(r))
}

fn expr(source: &str) -> Result<Expr, CompileError> {
    let tokens = tokenize(&format!("{};", source))?;
    let (e, end) = parse_expr(&tokens, 0)?;
    assert_eq!(end, tokens.len() - 1);
    Ok(e)
}

#[test]
fn operators_bind_by_strength() {
    assert_eq!(
        expr("2 * 3 + 4").unwrap(),
        bin(bin(num(2), BinOp::Mul, num(3)), BinOp::Add, num(4))
    );
    assert_eq!(
        expr("2 + 3 * 4").unwrap(),
        bin(num(2), BinOp::Add, bin(num(3), BinOp::Mul, num(4)))
    );
    assert_eq!(
        expr("a | b & c == d << e ** f").unwrap(),
        bin(
            id("a"),
            BinOp::BitOr,
            bin(
                id("b"),
                BinOp::BitAnd,
                bin(
                    id("c"),
                    BinOp::CmpEq,
                    bin(id("d"), BinOp::ShiftLeft, bin(id("e"), BinOp::Power, id("f")))
                )
            )
        )
    );
}

#[test]
fn operators_of_one_strength_apply_from_the_left() {
    assert_eq!(
        expr("a - b - c").unwrap(),
        bin(bin(id("a"), BinOp::Sub, id("b")), BinOp::Sub, id("c"))
    );
    assert_eq!(
        expr("a / b * c % d").unwrap(),
        bin(bin(bin(id("a"), BinOp::Div, id("b")), BinOp::Mul, id("c")), BinOp::Mod, id("d"))
    );
}

#[test]
fn parentheses_group() {
    assert_eq!(
        expr("(2 + 3) * 4").unwrap(),
        bin(bin(num(2), BinOp::Add, num(3)), BinOp::Mul, num(4))
    );
    assert_eq!(expr("((x))").unwrap(), id("x"));
}

#[test]
fn unary_operators_take_the_expression_behind_them() {
    assert_eq!(expr("-x").unwrap(), Expr::UnOp(UnaryOp::Negate, Box::new(id("x"))));
    assert_eq!(expr("+x").unwrap(), Expr::UnOp(UnaryOp::Plus, Box::new(id("x"))));
    assert_eq!(expr("~x").unwrap(), Expr::UnOp(UnaryOp::NotBitwise, Box::new(id("x"))));
    assert_eq!(expr("!x").unwrap(), Expr::UnOp(UnaryOp::NotLogical, Box::new(id("x"))));
    assert_eq!(
        expr("-a + b").unwrap(),
        Expr::UnOp(UnaryOp::Negate, Box::new(bin(id("a"), BinOp::Add, id("b"))))
    );
    assert_eq!(
        expr("a * -b").unwrap(),
        bin(id("a"), BinOp::Mul, Expr::UnOp(UnaryOp::Negate, Box::new(id("b"))))
    );
}

#[test]
fn conditional_has_two_branches() {
    assert_eq!(
        expr("c ? t : f").unwrap(),
        Expr::If(Box::new(id("c")), Box::new(id("t")), Some(Box::new(id("f"))))
    );
    assert_eq!(
        expr("a > 1 ? b + 1 : c ? d : e").unwrap(),
        Expr::If(
            Box::new(bin(id("a"), BinOp::CmpGt, num(1))),
            Box::new(bin(id("b"), BinOp::Add, num(1))),
            Some(Box::new(Expr::If(
                Box::new(id("c")),
                Box::new(id("d")),
                Some(Box::new(id("e")))
            )))
        )
    );
    assert_eq!(expr("c ? t"), Err(CompileError::Syntax));
}

#[test]
fn calls_take_arguments() {
    assert_eq!(expr("f()").unwrap(), Expr::SubModule("f".to_string(), vec![]));
    assert_eq!(
        expr("f(a, 1 + 2)").unwrap(),
        Expr::SubModule("f".to_string(), vec![id("a"), bin(num(1), BinOp::Add, num(2))])
    );
    assert_eq!(expr("f(a,"), Err(CompileError::Syntax));
    assert_eq!(expr("f(a b)"), Err(CompileError::Syntax));
}

#[test]
fn match_has_arms() {
    assert_eq!(
        expr("match(i){ == 1 => 10, < 2 => 20 }").unwrap(),
        Expr::Match(
            Box::new(id("i")),
            vec![(BinOp::CmpEq, num(1), num(10)), (BinOp::CmpLt, num(2), num(20))]
        )
    );
    // An arm without a comparison tests for equality; a comma may close the
    // last arm.
    assert_eq!(
        expr("match(i){ 1 => 10, }").unwrap(),
        Expr::Match(Box::new(id("i")), vec![(BinOp::CmpEq, num(1), num(10))])
    );
    assert_eq!(expr("match(i){}").unwrap(), Expr::Match(Box::new(id("i")), vec![]));
    assert_eq!(expr("match(i){ 1 => 10 2 => 20 }"), Err(CompileError::Syntax));
    assert_eq!(expr("match i { }"), Err(CompileError::Syntax));
}

#[test]
fn expression_needs_a_token_behind_it() {
    let tokens = tokenize("a + b").unwrap();
    assert_eq!(parse_expr(&tokens, 0), Err(CompileError::Syntax));
    assert_eq!(expr("a +"), Err(CompileError::Syntax));
    assert_eq!(expr("a b"), Err(CompileError::Syntax));
    assert_eq!(expr(""), Err(CompileError::Syntax));
    assert_eq!(expr("if"), Err(CompileError::Syntax));
}

#[test]
fn parses_modules_and_constants() {
    let items = parse(
        "const K = 5; const N = -3;\nmod f(a: $a, b) -> ($c, $d) { let t = a + K; let (p, q) = g(t); output(p, q) }\nmod g() { }\nmod h(x) -> $B { ; output(x); ; }",
        &table(),
    )
    .unwrap();
    assert_eq!(items.len(), 5);
    assert_eq!(items[0], ParseItem::Constant("K".to_string(), 5));
    assert_eq!(items[1], ParseItem::Constant("N".to_string(), -3));
    assert_eq!(
        items[2],
        ParseItem::Module(Module {
            name: "f".to_string(),
            arg_names: vec!["a".to_string(), "b".to_string()],
            stmts: vec![
                Statement::VarBinding(vec!["t".to_string()], bin(id("a"), BinOp::Add, id("K"))),
                Statement::VarBinding(
                    vec!["p".to_string(), "q".to_string()],
                    Expr::SubModule("g".to_string(), vec![id("t")])
                ),
                Statement::Output(vec![id("p"), id("q")]),
            ],
            arg_types: vec![Some(0), None],
            ret_types: Some(vec![Some(2), Some(3)]),
        })
    );
    assert_eq!(
        items[3],
        ParseItem::Module(Module {
            name: "g".to_string(),
            arg_names: vec![],
            stmts: vec![],
            arg_types: vec![],
            ret_types: None,
        })
    );
    assert_eq!(
        items[4],
        ParseItem::Module(Module {
            name: "h".to_string(),
            arg_names: vec!["x".to_string()],
            stmts: vec![Statement::Output(vec![id("x")])],
            arg_types: vec![None],
            ret_types: Some(vec![Some(1)]),
        })
    );
}

#[test]
fn returns_may_be_empty() {
    let items = parse("mod f() -> () { }", &table()).unwrap();
    match &items[0] {
        ParseItem::Module(m) => assert_eq!(m.ret_types, Some(vec![])),
        _ => panic!("no module"),
    }
}

#[test]
fn unknown_symbol_is_undefined() {
    assert_eq!(parse("mod f(a: $nosuch) { }", &table()), Err(CompileError::Undefined));
    assert_eq!(parse("mod f() -> $nosuch { }", &table()), Err(CompileError::Undefined));
}

#[test]
fn rejects_what_is_no_program() {
    let t = table();
    assert_eq!(parse("output(x);", &t), Err(CompileError::Syntax));
    assert_eq!(parse("mod f( { }", &t), Err(CompileError::Syntax));
    assert_eq!(parse("mod f() { output(); }", &t), Err(CompileError::Syntax));
    assert_eq!(parse("mod f() { let = 1; }", &t), Err(CompileError::Syntax));
    assert_eq!(parse("mod f() { let (a, b = 1; }", &t), Err(CompileError::Syntax));
    assert_eq!(parse("mod f() { output(1);", &t), Err(CompileError::Syntax));
    assert_eq!(parse("mod f() -> { }", &t), Err(CompileError::Syntax));
    assert_eq!(parse("const K 5;", &t), Err(CompileError::Syntax));
    assert_eq!(parse("const K = 5", &t), Err(CompileError::Syntax));
    assert_eq!(parse("const K = x;", &t), Err(CompileError::Syntax));
    assert_eq!(parse("mod f() { x }", &t), Err(CompileError::Syntax));
    assert_eq!(parse("", &t), Ok(vec![]));
}
