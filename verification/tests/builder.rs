use cdl::blueprint::Signal;
use cdl::common::BinOp;
use cdl::error::CompileError;
use cdl::ir::builder::{build_ir, narrow_constant};
use cdl::ir::{IRArg, IRModule, IRNode, WireColor};
use cdl::parser::{parse, Expr, Module, ParseItem, Statement};
use cdl::settings::CompileSettings;
use cdl::symbols::{load_symbols, SymbolTable};

fn table() -> SymbolTable {
    let mut entries = Vec::new();
    for c in 'a'..='z' {
        entries.push((c.to_string(), Signal { cat: "virtual".to_string(), name: format!("signal-{}", c) }));
    }
    load_symbols(&entries)
}

fn settings(fold: bool, prune: bool) -> CompileSettings {
    CompileSettings { fold_constants: fold, prune, main_mod_name: "main".to_string() }
}

fn build_with(source: &str, fold: bool, prune: bool) -> Result<Vec<IRModule>, CompileError> {
    let items = parse(source, &table())?;
    let mut modules = Vec::new();
    let mut constants = Vec::new();
    build_ir(&items, &settings(fold, prune), &mut modules, &mut constants)?;
    Ok(modules)
}

fn raw(source: &str) -> Vec<IRNode> {
    build_with(source, false, false).unwrap().pop().unwrap().nodes
}

fn link(n: u32) -> IRArg {
    IRArg::Link(n, WireColor::Unknown)
}

#[test]
fn narrows_signed_and_unsigned_numbers() {
    assert_eq!(narrow_constant(0), Some(0));
    assert_eq!(narrow_constant(-1), Some(-1));
    assert_eq!(narrow_constant(0xFFFF_FFFF), Some(-1));
    assert_eq!(narrow_constant(0x8000_0000), Some(i32::MIN));
    assert_eq!(narrow_constant(0x7FFF_FFFF), Some(i32::MAX));
    assert_eq!(narrow_constant(-0x8000_0000), Some(i32::MIN));
    assert_eq!(narrow_constant(0x1_0000_0000), None);
    assert_eq!(narrow_constant(-0x8000_0001), None);
}

#[test]
fn least_number_survives_narrowing_and_negation() {
    let nodes = raw("mod main() { output(-0x80000000); }");
    assert_eq!(
        nodes,
        vec![
            IRNode::Constant(i32::MIN),
            IRNode::BinOp(IRArg::Constant(0), BinOp::Sub, link(0)),
            IRNode::Output(0, link(1)),
        ]
    );
    let folded = build_with("mod main() { output(-0x80000000); }", true, true).unwrap().pop().unwrap();
    assert_eq!(folded.nodes[2], IRNode::Output(0, IRArg::Constant(i32::MIN)));
}

#[test]
fn too_wide_number_is_an_error() {
    assert_eq!(
        build_with("mod main() { output(0x100000000); }", true, true).err(),
        Some(CompileError::NarrowOverflow)
    );
    assert_eq!(
        build_with("const K = 4294967296; mod main() { output(K); }", true, true).err(),
        Some(CompileError::NarrowOverflow)
    );
}

#[test]
fn module_without_statements_is_valid() {
    let m = build_with("mod main(a, b) { }", true, true).unwrap().pop().unwrap();
    assert_eq!(m.nodes, vec![IRNode::Input(0), IRNode::Input(1)]);
    assert_eq!(m.port_count, 2);
    assert!(!m.outputs_set);
    assert_eq!(m.bindings, vec![("a".to_string(), link(0)), ("b".to_string(), link(1))]);
    assert!(m.out_symbols.is_empty());
    assert!(m.links.is_empty());
    assert!(m.grid.node_positions.is_empty());
    assert_eq!(m.settings.fold_constants, true);
    let stated = build_with("mod main(a) { output(a); }", true, true).unwrap().pop().unwrap();
    assert!(stated.outputs_set);
    let empty = build_with("mod main() { }", true, true).unwrap().pop().unwrap();
    assert_eq!(empty.nodes, vec![]);
}

#[test]
fn nothing_may_follow_the_outputs() {
    assert_eq!(
        build_with("mod main(a) { output(a); let b = a; }", true, true).err(),
        Some(CompileError::AfterOutput)
    );
    assert_eq!(
        build_with("mod main(a) { output(a); output(a); }", true, true).err(),
        Some(CompileError::AfterOutput)
    );
}

#[test]
fn match_without_arms_is_zero() {
    let nodes = raw("mod main(i) { output(match(i){}); }");
    assert_eq!(nodes, vec![IRNode::Input(0), IRNode::MultiDriver(vec![]), IRNode::Output(0, link(1))]);
    let folded = build_with("mod main(i) { output(match(i){}); }", true, false).unwrap().pop().unwrap();
    assert_eq!(
        folded.nodes,
        vec![IRNode::Input(0), IRNode::Constant(0), IRNode::Output(0, IRArg::Constant(0))]
    );
}

#[test]
fn call_without_slot_gives_the_rebased_output() {
    let nodes = raw("mod inc(a) { output(a + 1); } mod main(x) { output(inc(x) * 2); }");
    assert_eq!(
        nodes,
        vec![
            IRNode::Input(0),
            // The called module: its input, its nodes, its vacated output.
            IRNode::MultiDriver(vec![link(0)]),
            IRNode::Constant(1),
            IRNode::BinOp(link(1), BinOp::Add, link(2)),
            IRNode::Removed,
            IRNode::Constant(2),
            // The call stands for what the output forwarded.
            IRNode::BinOp(link(3), BinOp::Mul, link(5)),
            IRNode::Output(0, link(6)),
        ]
    );
}

#[test]
fn call_into_a_slot_goes_through_a_multi_driver() {
    let nodes = raw("mod inc(a) { output(a + 1); } mod main(x) { let y = inc(x); output(y); }");
    assert_eq!(
        nodes,
        vec![
            IRNode::Input(0),
            IRNode::MultiDriver(vec![link(4)]),
            IRNode::MultiDriver(vec![link(0)]),
            IRNode::Constant(1),
            IRNode::BinOp(link(2), BinOp::Add, link(3)),
            IRNode::Removed,
            IRNode::Output(0, link(1)),
        ]
    );
}

#[test]
fn call_with_several_outputs_binds_several_names() {
    let source = "mod two(a) { output(a + 1, a - 1); } mod main(x) { let (p, q) = two(x); output(p * q); }";
    let nodes = raw(source);
    assert_eq!(nodes[0], IRNode::Input(0));
    assert_eq!(nodes[1], IRNode::MultiDriver(vec![link(5)]));
    assert_eq!(nodes[2], IRNode::MultiDriver(vec![link(8)]));
    assert_eq!(nodes[3], IRNode::MultiDriver(vec![link(0)]));
    assert_eq!(nodes[5], IRNode::BinOp(link(3), BinOp::Add, link(4)));
    assert_eq!(nodes[6], IRNode::Removed);
    assert_eq!(nodes[8], IRNode::BinOp(link(3), BinOp::Sub, link(7)));
    assert_eq!(nodes[9], IRNode::Removed);
    assert_eq!(nodes[10], IRNode::BinOp(link(1), BinOp::Mul, link(2)));
}

#[test]
fn arity_must_match() {
    assert_eq!(
        build_with("mod main(a) -> ($a, $b) { output(a); }", true, true).err(),
        Some(CompileError::ArityMismatch)
    );
    assert_eq!(
        build_with("mod two(a) { output(a, a); } mod main(x) { output(two(x)); }", true, true).err(),
        Some(CompileError::ArityMismatch)
    );
    assert_eq!(
        build_with("mod one(a) { output(a); } mod main(x) { let (p, q) = one(x); }", true, true).err(),
        Some(CompileError::ArityMismatch)
    );
    assert_eq!(
        build_with("mod one(a, b) { output(a + b); } mod main(x) { output(one(x)); }", true, true).err(),
        Some(CompileError::ArityMismatch)
    );
    assert_eq!(
        build_with("mod main(x) { let (p, q) = x + 1; }", true, true).err(),
        Some(CompileError::ArityMismatch)
    );
}

#[test]
fn names_must_be_defined_once() {
    assert_eq!(build_with("mod main(a) { output(b); }", true, true).err(), Some(CompileError::Undefined));
    assert_eq!(
        build_with("mod main(a) { output(nosuch(a)); }", true, true).err(),
        Some(CompileError::Undefined)
    );
    assert_eq!(build_with("mod main(a, a) { }", true, true).err(), Some(CompileError::Redefinition));
    assert_eq!(
        build_with("mod main(a) { let a = 1; }", true, true).err(),
        Some(CompileError::Redefinition)
    );
    assert_eq!(
        build_with("mod main() { let b = 1; let b = 2; }", true, true).err(),
        Some(CompileError::Redefinition)
    );
    assert_eq!(
        build_with("const K = 1; const K = 2;", true, true).err(),
        Some(CompileError::Redefinition)
    );
    assert_eq!(
        build_with("mod f() { } mod f() { }", true, true).err(),
        Some(CompileError::Redefinition)
    );
}

#[test]
fn bindings_shadow_constants_and_may_look_ahead() {
    let nodes = raw("const K = 7; mod main(a) { let y = z + K; let z = a * 2; output(y); }");
    assert_eq!(
        nodes,
        vec![
            IRNode::Input(0),
            IRNode::BinOp(link(2), BinOp::Add, link(3)),
            IRNode::BinOp(link(0), BinOp::Mul, link(4)),
            IRNode::Constant(7),
            IRNode::Constant(2),
            IRNode::Output(0, link(1)),
        ]
    );
    let alias = raw("mod main(a) { let b = a; output(b); }");
    assert_eq!(
        alias,
        vec![IRNode::Input(0), IRNode::MultiDriver(vec![link(0)]), IRNode::Output(0, link(1))]
    );
}

#[test]
fn unary_operators_become_operators() {
    let nodes = raw("mod main(a) { output(-a, +a, ~a, !a); }");
    assert_eq!(nodes[1], IRNode::BinOp(IRArg::Constant(0), BinOp::Sub, link(0)));
    assert_eq!(nodes[3], IRNode::BinOp(link(0), BinOp::Add, IRArg::Constant(0)));
    assert_eq!(nodes[5], IRNode::BinOp(link(0), BinOp::BitXor, IRArg::Constant(-1)));
    assert_eq!(nodes[7], IRNode::BinOp(link(0), BinOp::CmpEq, IRArg::Constant(0)));
    assert_eq!(nodes[2], IRNode::Output(0, link(1)));
    assert_eq!(nodes[8], IRNode::Output(3, link(7)));
}

#[test]
fn types_must_come_with_the_arguments() {
    let item = ParseItem::Module(Module {
        name: "main".to_string(),
        arg_names: vec!["a".to_string()],
        stmts: vec![],
        arg_types: vec![],
        ret_types: None,
    });
    let mut modules = Vec::new();
    let mut constants = Vec::new();
    assert_eq!(
        build_ir(&vec![item], &settings(true, true), &mut modules, &mut constants),
        Err(CompileError::ArityMismatch)
    );
    let stray = ParseItem::Module(Module {
        name: "main".to_string(),
        arg_names: vec![],
        stmts: vec![Statement::Empty],
        arg_types: vec![],
        ret_types: None,
    });
    assert_eq!(
        build_ir(&vec![stray], &settings(true, true), &mut modules, &mut constants),
        Err(CompileError::Syntax)
    );
    assert!(modules.is_empty());
}

#[test]
fn tables_keep_what_was_built_before_an_error() {
    let items = parse("const K = 1; mod f() { } mod g() { output(nosuch); }", &table()).unwrap();
    let mut modules = Vec::new();
    let mut constants = Vec::new();
    assert_eq!(
        build_ir(&items, &settings(true, true), &mut modules, &mut constants),
        Err(CompileError::Undefined)
    );
    assert_eq!(modules.len(), 1);
    assert_eq!(modules[0].name, "f");
    assert_eq!(constants, vec![("K".to_string(), 1)]);
    // What later items add leaves the modules before them as they were.
    modules[0].out_symbols = vec![7];
    modules[0].outputs_set = true;
    let later = parse("mod h() { output(K); }", &table()).unwrap();
    assert_eq!(build_ir(&later, &settings(false, false), &mut modules, &mut constants), Ok(()));
    assert_eq!(modules.len(), 2);
    assert_eq!(modules[0].name, "f");
    assert_eq!(modules[0].nodes, vec![]);
    assert_eq!(modules[0].out_symbols, vec![7]);
    assert!(modules[0].outputs_set);
    assert_eq!(modules[0].settings.fold_constants, true);
    assert_eq!(modules[1].nodes, vec![IRNode::Constant(1), IRNode::Output(0, link(0))]);
    assert!(modules[1].outputs_set);
    assert_eq!(modules[1].settings.fold_constants, false);
    assert!(modules[1].out_symbols.is_empty());
    assert_eq!(constants, vec![("K".to_string(), 1)]);
    let _ = Expr::Constant(0);
}

#[test]
fn division_by_zero_cannot_be_folded() {
    assert_eq!(
        build_with("mod main() { output(1 / 0); }", true, true).err(),
        Some(CompileError::FoldUndefined)
    );
    assert_eq!(
        build_with("mod main() { output(2 ** (0 - 1)); }", true, true).err(),
        Some(CompileError::FoldUndefined)
    );
    assert!(build_with("mod main() { output(1 / 0); }", false, true).is_ok());
}
