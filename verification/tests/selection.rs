use cdl::common::BinOp;
use cdl::error::CompileError;
use cdl::ir::select_colors::{is_input, select_color_list, update_color_for_arg, ColorCounts};
use cdl::ir::select_symbols::{solve_symbols, symbol_constraints, SymbolConstraint};
use cdl::ir::{IRArg, IRModule, IRNode, WireColor};
use cdl::settings::CompileSettings;

fn link(n: u32) -> IRArg {
    IRArg::Link(n, WireColor::Unknown)
}

fn red(n: u32) -> IRArg {
    IRArg::Link(n, WireColor::Red)
}

fn green(n: u32) -> IRArg {
    IRArg::Link(n, WireColor::Green)
}

fn c(n: i32) -> IRArg {
    IRArg::Constant(n)
}

fn holds(symbols: &[u32], constraints: &[SymbolConstraint]) -> bool {
    constraints.iter().all(|k| match k {
        SymbolConstraint::Equal(a, b) => symbols[*a as usize] == symbols[*b as usize],
        SymbolConstraint::NotEqual(a, b) => symbols[*a as usize] != symbols[*b as usize],
        SymbolConstraint::EqualSymbol(i, s) => symbols[*i as usize] == *s,
    })
}

#[test]
fn symbols_meet_every_constraint() {
    let constraints = vec![
        SymbolConstraint::Equal(0, 1),
        SymbolConstraint::NotEqual(1, 2),
        SymbolConstraint::NotEqual(2, 3),
        SymbolConstraint::NotEqual(3, 0),
        SymbolConstraint::EqualSymbol(3, 1),
        SymbolConstraint::Equal(4, 5),
        SymbolConstraint::Equal(5, 0),
        SymbolConstraint::NotEqual(6, 4),
    ];
    let symbols = solve_symbols(7, &constraints).unwrap();
    assert_eq!(symbols.len(), 7);
    assert!(holds(&symbols, &constraints));
    assert_eq!(symbols, vec![2, 2, 0, 1, 2, 2, 0]);
}

#[test]
fn symbols_without_constraints_are_zero() {
    assert_eq!(solve_symbols(3, &vec![]).unwrap(), vec![0, 0, 0]);
    assert_eq!(solve_symbols(0, &vec![]).unwrap(), vec![]);
}

#[test]
fn repair_moves_the_first_side_that_is_free() {
    let constraints = vec![SymbolConstraint::NotEqual(0, 1)];
    assert_eq!(solve_symbols(2, &constraints).unwrap(), vec![1, 0]);
    let pinned = vec![SymbolConstraint::EqualSymbol(0, 0), SymbolConstraint::NotEqual(0, 1)];
    assert_eq!(solve_symbols(2, &pinned).unwrap(), vec![0, 1]);
    // A chain takes one pass for each link of it.
    let chain = vec![
        SymbolConstraint::NotEqual(0, 1),
        SymbolConstraint::NotEqual(1, 2),
        SymbolConstraint::NotEqual(2, 3),
    ];
    let symbols = solve_symbols(4, &chain).unwrap();
    assert!(holds(&symbols, &chain));
    assert_eq!(symbols, vec![3, 2, 1, 0]);
}

#[test]
fn contradictions_are_type_conflicts() {
    let two_pins = vec![
        SymbolConstraint::Equal(0, 1),
        SymbolConstraint::EqualSymbol(0, 3),
        SymbolConstraint::EqualSymbol(1, 4),
    ];
    assert_eq!(solve_symbols(2, &two_pins), Err(CompileError::TypeConflict));
    let same_set = vec![
        SymbolConstraint::Equal(0, 1),
        SymbolConstraint::Equal(1, 2),
        SymbolConstraint::NotEqual(2, 0),
    ];
    assert_eq!(solve_symbols(3, &same_set), Err(CompileError::TypeConflict));
    let itself = vec![SymbolConstraint::NotEqual(1, 1)];
    assert_eq!(solve_symbols(2, &itself), Err(CompileError::TypeConflict));
    let same_pin = vec![
        SymbolConstraint::EqualSymbol(0, 3),
        SymbolConstraint::EqualSymbol(1, 3),
        SymbolConstraint::NotEqual(0, 1),
    ];
    assert_eq!(solve_symbols(2, &same_pin), Err(CompileError::TypeConflict));
    let agreeing = vec![
        SymbolConstraint::Equal(0, 1),
        SymbolConstraint::EqualSymbol(0, 3),
        SymbolConstraint::EqualSymbol(1, 3),
    ];
    assert_eq!(solve_symbols(2, &agreeing).unwrap(), vec![3, 3]);
}

#[test]
fn symbol_beyond_the_last_is_a_limit() {
    let constraints = vec![SymbolConstraint::EqualSymbol(0, u32::MAX), SymbolConstraint::NotEqual(1, 0)];
    assert_eq!(solve_symbols(2, &constraints).unwrap(), vec![u32::MAX, 0]);
    let stuck = vec![
        SymbolConstraint::EqualSymbol(0, u32::MAX),
        SymbolConstraint::NotEqual(1, 2),
        SymbolConstraint::EqualSymbol(2, u32::MAX - 1),
        SymbolConstraint::NotEqual(3, 0),
        SymbolConstraint::Equal(3, 1),
        SymbolConstraint::EqualSymbol(4, u32::MAX - 1),
        SymbolConstraint::Equal(4, 5),
        SymbolConstraint::Equal(5, 6),
        SymbolConstraint::NotEqual(7, 8),
    ];
    assert!(solve_symbols(9, &stuck).is_ok());
}

#[test]
fn constraints_follow_the_graph() {
    let nodes = vec![
        IRNode::Input(0),
        IRNode::Input(1),
        IRNode::BinOp(link(0), BinOp::Add, link(1)),
        IRNode::BinOp(link(2), BinOp::Add, c(1)),
        IRNode::BinOpCmpGate(link(2), BinOp::CmpEq, 0, link(3)),
        IRNode::MultiDriver(vec![link(4), c(1), link(3)]),
        IRNode::Output(0, link(5)),
        IRNode::Output(1, c(5)),
        IRNode::Output(2, link(0)),
        IRNode::Constant(1),
        IRNode::Removed,
        IRNode::BinOpSame(link(0), BinOp::Mul),
    ];
    let arg_types = vec![Some(7), None];
    let ret_types = Some(vec![Some(8), Some(9), None]);
    assert_eq!(
        symbol_constraints(&nodes, &arg_types, &ret_types).unwrap(),
        vec![
            SymbolConstraint::EqualSymbol(0, 7),
            SymbolConstraint::NotEqual(0, 1),
            SymbolConstraint::NotEqual(2, 3),
            SymbolConstraint::Equal(3, 4),
            SymbolConstraint::Equal(4, 5),
            SymbolConstraint::Equal(3, 5),
            SymbolConstraint::EqualSymbol(5, 8),
            SymbolConstraint::EqualSymbol(7, 9),
        ]
    );
    assert_eq!(symbol_constraints(&nodes, &vec![], &None).unwrap().len(), 5);
    let unlowered = vec![IRNode::Input(0), IRNode::Gate(link(0), true, link(0))];
    assert_eq!(symbol_constraints(&unlowered, &vec![], &None), Err(CompileError::EmitInvalid));
    assert_eq!(symbol_constraints(&vec![IRNode::PlaceHolder], &vec![], &None), Err(CompileError::EmitInvalid));
}

#[test]
fn module_selects_symbols() {
    let mut m = IRModule::new(
        "m".to_string(),
        CompileSettings { fold_constants: true, prune: true, main_mod_name: "main".to_string() },
    );
    m.nodes = vec![
        IRNode::Input(0),
        IRNode::BinOp(link(0), BinOp::Add, c(1)),
        IRNode::BinOp(link(0), BinOp::Mul, link(1)),
        IRNode::Output(0, link(2)),
    ];
    m.arg_types = vec![Some(4)];
    m.ret_types = Some(vec![Some(4)]);
    m.select_symbols().unwrap();
    assert_eq!(m.out_symbols, vec![4, 0, 4, 0]);
    m.ret_types = Some(vec![Some(5)]);
    m.nodes[3] = IRNode::Output(0, link(0));
    assert_eq!(m.select_symbols(), Err(CompileError::TypeConflict));
    assert_eq!(m.out_symbols, vec![4, 0, 4, 0]);
}

#[test]
fn colour_of_one_wire() {
    let mut counts = vec![ColorCounts { red: 0, green: 0 }; 2];
    let mut a = link(1);
    assert_eq!(update_color_for_arg(&mut a, WireColor::Unknown, &mut counts), WireColor::Red);
    assert_eq!(a, red(1));
    let mut b = link(1);
    assert_eq!(update_color_for_arg(&mut b, WireColor::Unknown, &mut counts), WireColor::Green);
    let mut d = link(1);
    assert_eq!(update_color_for_arg(&mut d, WireColor::Unknown, &mut counts), WireColor::Red);
    let mut e = link(1);
    assert_eq!(update_color_for_arg(&mut e, WireColor::Red, &mut counts), WireColor::Green);
    let mut f = link(1);
    assert_eq!(update_color_for_arg(&mut f, WireColor::Green, &mut counts), WireColor::Red);
    assert_eq!(counts, vec![ColorCounts { red: 0, green: 0 }, ColorCounts { red: 3, green: 2 }]);
    let mut n = c(5);
    assert_eq!(update_color_for_arg(&mut n, WireColor::Red, &mut counts), WireColor::Unknown);
    assert_eq!(n, c(5));
}

#[test]
fn inputs_are_traced_through_multi_drivers() {
    let nodes = vec![
        IRNode::Input(0),
        IRNode::Constant(1),
        IRNode::MultiDriver(vec![link(1), link(0)]),
        IRNode::MultiDriver(vec![link(2)]),
        IRNode::MultiDriver(vec![link(1)]),
        IRNode::BinOp(link(0), BinOp::Add, c(1)),
        IRNode::MultiDriver(vec![link(6)]),
    ];
    assert!(is_input(&nodes, &link(0), 7));
    assert!(!is_input(&nodes, &link(1), 7));
    assert!(is_input(&nodes, &link(2), 7));
    assert!(is_input(&nodes, &link(3), 7));
    assert!(!is_input(&nodes, &link(3), 1));
    assert!(!is_input(&nodes, &link(4), 7));
    assert!(!is_input(&nodes, &link(5), 7));
    assert!(!is_input(&nodes, &link(6), 7));
    assert!(!is_input(&nodes, &c(0), 7));
    assert!(!is_input(&nodes, &link(99), 7));
}

#[test]
fn colours_spread_and_keep_operands_apart() {
    let mut nodes = vec![
        IRNode::Input(0),
        IRNode::Constant(3),
        IRNode::BinOp(link(1), BinOp::Add, link(1)),
        IRNode::BinOp(link(1), BinOp::Mul, link(0)),
        IRNode::BinOp(link(0), BinOp::Mul, link(1)),
        IRNode::BinOpSame(link(0), BinOp::Add),
        IRNode::BinOpSame(link(1), BinOp::Add),
        IRNode::BinOpCmpGate(link(2), BinOp::CmpEq, 0, link(3)),
        IRNode::MultiDriver(vec![link(7)]),
        IRNode::Output(0, link(8)),
        IRNode::BinOp(link(2), BinOp::Add, c(1)),
        IRNode::Removed,
    ];
    select_color_list(&mut nodes).unwrap();
    assert_eq!(nodes[2], IRNode::BinOp(red(1), BinOp::Add, green(1)));
    // The operand that comes from an input is red, the other green.
    assert_eq!(nodes[3], IRNode::BinOp(green(1), BinOp::Mul, red(0)));
    assert_eq!(nodes[4], IRNode::BinOp(red(0), BinOp::Mul, green(1)));
    assert_eq!(nodes[5], IRNode::BinOpSame(red(0), BinOp::Add));
    assert_eq!(nodes[6], IRNode::BinOpSame(red(1), BinOp::Add));
    assert_eq!(nodes[7], IRNode::BinOpCmpGate(red(2), BinOp::CmpEq, 0, green(3)));
    assert_eq!(nodes[8], IRNode::MultiDriver(vec![link(7)]));
    assert_eq!(nodes[9], IRNode::Output(0, red(8)));
    assert_eq!(nodes[10], IRNode::BinOp(green(2), BinOp::Add, c(1)));
}

#[test]
fn two_inputs_on_one_combinator_are_ambiguous() {
    let mut nodes = vec![
        IRNode::Input(0),
        IRNode::Input(1),
        IRNode::MultiDriver(vec![link(1)]),
        IRNode::BinOp(link(0), BinOp::Add, link(2)),
    ];
    let before = nodes.clone();
    assert_eq!(select_color_list(&mut nodes), Err(CompileError::InputAmbiguity));
    assert_eq!(nodes, before);
    let mut gated = vec![IRNode::Input(0), IRNode::BinOpCmpGate(link(0), BinOp::CmpEq, 0, link(0))];
    assert_eq!(select_color_list(&mut gated), Err(CompileError::InputAmbiguity));
    let mut unlowered = vec![IRNode::Input(0), IRNode::Gate(link(0), true, link(0))];
    assert_eq!(select_color_list(&mut unlowered), Err(CompileError::EmitInvalid));
    let mut both = vec![
        IRNode::Gate(c(1), true, c(1)),
        IRNode::Input(0),
        IRNode::BinOp(link(1), BinOp::Add, link(1)),
    ];
    assert_eq!(select_color_list(&mut both), Err(CompileError::InputAmbiguity));
}
