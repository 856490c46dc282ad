use cdl::assets::get_asset_string;
use cdl::blueprint::{Blueprint, Connection, Entity, Signal};
use cdl::common::{BinOp, ConnectType};
use cdl::error::CompileError;
use cdl::ir::builder::build_ir;
use cdl::ir::layout::WireLink;
use cdl::ir::{IRArg, IRModule, IRNode, WireColor};
use cdl::parser::parse;
use cdl::settings::CompileSettings;
use cdl::symbols::{load_symbols, SymbolTable};

fn table() -> SymbolTable {
    let mut entries = Vec::new();
    for c in 'a'..='z' {
        let upper = c.to_ascii_uppercase();
        entries.push((
            c.to_string(),
            Signal { cat: "virtual".to_string(), name: format!("signal-{}", upper) },
        ));
    }
    load_symbols(&entries)
}

fn signal(letter: char) -> Signal {
    Signal { cat: "virtual".to_string(), name: format!("signal-{}", letter) }
}

fn settings(optimize: bool) -> CompileSettings {
    CompileSettings { fold_constants: optimize, prune: optimize, main_mod_name: "main".to_string() }
}

fn build(source: &str, optimize: bool) -> Result<Vec<IRModule>, CompileError> {
    let items = parse(source, &table())?;
    let mut modules = Vec::new();
    let mut constants = Vec::new();
    build_ir(&items, &settings(optimize), &mut modules, &mut constants)?;
    Ok(modules)
}

fn main_of(source: &str, optimize: bool) -> IRModule {
    let mut modules = build(source, optimize).unwrap();
    let at = modules.iter().position(|m| m.name == "main").unwrap();
    modules.swap_remove(at)
}

fn finish(mut m: IRModule) -> (IRModule, Blueprint) {
    m.select_symbols().unwrap();
    m.layout_nodes(7).unwrap();
    let bp = m.to_blueprint(&table()).unwrap();
    (m, bp)
}

fn compile(source: &str) -> (IRModule, Blueprint) {
    let mut m = main_of(source, true);
    m.select_colors().unwrap();
    finish(m)
}

fn link(n: u32) -> IRArg {
    IRArg::Link(n, WireColor::Unknown)
}

fn named<'a>(bp: &'a Blueprint, name: &str) -> Vec<&'a Entity> {
    bp.entities.iter().filter(|e| e.name == name).collect()
}

fn wires(e: &Entity, circuit: u32, red: bool) -> Vec<Connection> {
    let side = if circuit == 1 { &e.circuit_one } else { &e.circuit_two };
    let list = if red { &side.red } else { &side.green };
    list.clone().unwrap_or_default()
}

fn check_blueprint(bp: &Blueprint) {
    for (k, e) in bp.entities.iter().enumerate() {
        assert_eq!(e.entity_number as usize, k + 1);
        assert_eq!(e.direction, 4);
        for circuit in [1u32, 2] {
            for red in [true, false] {
                for wire in wires(e, circuit, red) {
                    let other = &bp.entities[wire.entity_id as usize - 1];
                    let back = Connection { entity_id: e.entity_number, circuit_id: Some(circuit) };
                    assert!(wires(other, wire.circuit_id.unwrap(), red).contains(&back));
                }
            }
        }
    }
}

const A: u32 = 0;
const B: u32 = 1;
const C: u32 = 2;
const D: u32 = 3;

#[test]
fn identity_module() {
    let m = main_of("mod main(x:$A) -> $A { output(x); }", true);
    assert_eq!(m.nodes, vec![IRNode::Input(0), IRNode::Output(0, link(0))]);
    assert_eq!(m.port_count, 2);
    assert!(m.outputs_set);
    assert_eq!(m.arg_types, vec![Some(A)]);
    assert_eq!(m.ret_types, Some(vec![Some(A)]));
    let mut m = m;
    m.select_colors().unwrap();
    assert_eq!(m.nodes[1], IRNode::Output(0, IRArg::Link(0, WireColor::Red)));
    let (m, bp) = finish(m);
    assert_eq!(m.out_symbols, vec![A, 0]);
    assert_eq!(
        m.links,
        vec![WireLink { color: WireColor::Red, a: (0, ConnectType::Out), b: (1, ConnectType::In) }]
    );
    assert_eq!(bp.entities.len(), 3);
    assert_eq!(bp.entities[0].name, "constant-combinator");
    assert_eq!((bp.entities[0].position.x, bp.entities[0].position.y), (-2, 4));
    let filters = bp.entities[0].control_behavior.filters.as_ref().unwrap();
    assert_eq!(filters.len(), 1);
    assert_eq!(filters[0].signal, signal('A'));
    assert_eq!(filters[0].count, 0);
    assert_eq!(filters[0].index, 1);
    assert_eq!(bp.entities[1].name, "medium-electric-pole");
    assert_eq!((bp.entities[1].position.x, bp.entities[1].position.y), (2, 4));
    assert_eq!(bp.entities[1].control_behavior.filters, None);
    assert_eq!(wires(&bp.entities[0], 1, true), vec![Connection { entity_id: 2, circuit_id: Some(1) }]);
    assert_eq!(wires(&bp.entities[1], 1, true), vec![Connection { entity_id: 1, circuit_id: Some(1) }]);
    assert_eq!(wires(&bp.entities[0], 1, false), vec![]);
    assert_eq!(bp.entities[2].name, "substation");
    assert_eq!((bp.entities[2].position.x, bp.entities[2].position.y), (1, 1));
    check_blueprint(&bp);
}

#[test]
fn add_two_inputs() {
    let mut m = main_of("mod main(x:$A, y:$B) -> $C { output(x + y); }", true);
    assert_eq!(
        m.nodes,
        vec![
            IRNode::Input(0),
            IRNode::Input(1),
            IRNode::BinOp(link(0), BinOp::Add, link(1)),
            IRNode::Output(0, link(2)),
        ]
    );
    // Both operands come from inputs: the colours cannot be chosen.
    assert_eq!(m.select_colors(), Err(CompileError::InputAmbiguity));
    assert_eq!(m.nodes[2], IRNode::BinOp(link(0), BinOp::Add, link(1)));
    // With the colours given by hand the module can be emitted.
    m.nodes[2] = IRNode::BinOp(
        IRArg::Link(0, WireColor::Red),
        BinOp::Add,
        IRArg::Link(1, WireColor::Green),
    );
    m.nodes[3] = IRNode::Output(0, IRArg::Link(2, WireColor::Red));
    let (m, bp) = finish(m);
    assert_eq!(&m.out_symbols[0..3], &[A, B, C]);
    let adders = named(&bp, "arithmetic-combinator");
    assert_eq!(adders.len(), 1);
    let c = adders[0].control_behavior.arithmetic_conditions.as_ref().unwrap();
    assert_eq!(c.operation, "+");
    assert_eq!(c.first_signal, Some(signal('A')));
    assert_eq!(c.second_signal, Some(signal('B')));
    assert_eq!(c.output_signal, Some(signal('C')));
    assert_eq!(c.first_constant, None);
    assert_eq!(c.second_constant, None);
    assert_eq!(adders[0].position.y % 4, 1);
    check_blueprint(&bp);
}

#[test]
fn constant_folding_scenario() {
    let unfolded = main_of("mod main() -> $A { output(2 * 3 + 4); }", false);
    assert_eq!(
        unfolded.nodes,
        vec![
            IRNode::Constant(2),
            IRNode::Constant(3),
            IRNode::BinOp(link(0), BinOp::Mul, link(1)),
            IRNode::Constant(4),
            IRNode::BinOp(link(2), BinOp::Add, link(3)),
            IRNode::Output(0, link(4)),
        ]
    );
    let (m, bp) = compile("mod main() -> $A { output(2 * 3 + 4); }");
    assert_eq!(m.nodes[5], IRNode::Output(0, IRArg::Constant(10)));
    for k in 0..5 {
        assert_eq!(m.nodes[k], IRNode::Removed);
    }
    let constants = named(&bp, "constant-combinator");
    assert_eq!(constants.len(), 1);
    let filters = constants[0].control_behavior.filters.as_ref().unwrap();
    assert_eq!(filters[0].signal, signal('A'));
    assert_eq!(filters[0].count, 10);
    assert_eq!(bp.entities.len(), 2);
    check_blueprint(&bp);
}

#[test]
fn if_expression_scenario() {
    let source = "mod main(c:$A, t:$B, f:$C) -> $D { output(c ? t : f); }";
    let built = main_of(source, false);
    assert_eq!(built.nodes.len(), 7);
    let mut m = main_of(source, true);
    assert_eq!(
        m.nodes,
        vec![
            IRNode::Input(0),
            IRNode::Input(1),
            IRNode::Input(2),
            IRNode::BinOpCmpGate(link(0), BinOp::CmpNeq, 0, link(1)),
            IRNode::BinOpCmpGate(link(0), BinOp::CmpEq, 0, link(2)),
            IRNode::MultiDriver(vec![link(3), link(4)]),
            IRNode::Output(0, link(5)),
        ]
    );
    assert_eq!(m.select_colors(), Err(CompileError::InputAmbiguity));
    m.nodes[3] = IRNode::BinOpCmpGate(
        IRArg::Link(0, WireColor::Red),
        BinOp::CmpNeq,
        0,
        IRArg::Link(1, WireColor::Green),
    );
    m.nodes[4] = IRNode::BinOpCmpGate(
        IRArg::Link(0, WireColor::Red),
        BinOp::CmpEq,
        0,
        IRArg::Link(2, WireColor::Green),
    );
    m.nodes[6] = IRNode::Output(0, IRArg::Link(5, WireColor::Red));
    // The two gates let through inputs with different symbols, which the
    // multi-driver would have to share.
    assert_eq!(m.select_symbols(), Err(CompileError::TypeConflict));
}

#[test]
fn if_expression_on_computed_values() {
    let source = "mod main(c:$A) -> $D { let t = c + 1; let f = c - 1; output((c * 2) ? t : f); }";
    let (m, bp) = compile(source);
    let deciders = named(&bp, "decider-combinator");
    assert_eq!(deciders.len(), 2);
    for d in &deciders {
        let c = d.control_behavior.decider_conditions.as_ref().unwrap();
        assert!(c.copy_count_from_input);
        assert_eq!(c.constant, Some(0));
        assert_eq!(c.output_signal, Some(signal('D')));
    }
    let first = deciders[0].control_behavior.decider_conditions.as_ref().unwrap();
    let second = deciders[1].control_behavior.decider_conditions.as_ref().unwrap();
    assert_eq!(first.comparator, "!=");
    assert_eq!(second.comparator, "=");
    assert_eq!(first.first_signal, second.first_signal);
    // Both gates and what they let through put out the symbol of the output.
    let gates: Vec<usize> = (0..m.nodes.len())
        .filter(|i| matches!(m.nodes[*i], IRNode::BinOpCmpGate(..)))
        .collect();
    assert_eq!(gates.len(), 2);
    for g in gates {
        assert_eq!(m.out_symbols[g], D);
    }
    check_blueprint(&bp);
}

#[test]
fn submodule_inlining_scenario() {
    let source = "mod add(a:$A, b:$B) -> $C { output(a+b); } mod main(x:$A, y:$B) -> $C { output(add(x, y)); }";
    let m = main_of(source, true);
    let operators: Vec<&IRNode> = m.nodes.iter().filter(|n| matches!(n, IRNode::BinOp(..))).collect();
    assert_eq!(operators.len(), 1);
    // The inputs of the called module stand for the arguments.
    assert_eq!(m.nodes[0], IRNode::Input(0));
    assert_eq!(m.nodes[1], IRNode::Input(1));
    assert_eq!(m.nodes[2], IRNode::MultiDriver(vec![link(0)]));
    assert_eq!(m.nodes[3], IRNode::MultiDriver(vec![link(1)]));
    assert_eq!(m.nodes[4], IRNode::BinOp(link(2), BinOp::Add, link(3)));
    assert_eq!(m.nodes[5], IRNode::Removed);
    assert_eq!(m.nodes[6], IRNode::Output(0, link(4)));
    let mut m = m;
    assert_eq!(m.select_colors(), Err(CompileError::InputAmbiguity));
}

#[test]
fn match_scenario() {
    let source = "mod main(i:$A) -> $B { output(match(i){ == 1 => 10, == 2 => 20 }); }";
    let built = main_of(source, false);
    assert_eq!(built.nodes[0], IRNode::Input(0));
    let folded = main_of(source, true);
    let gates: Vec<&IRNode> =
        folded.nodes.iter().filter(|n| matches!(n, IRNode::BinOpCmpGate(..))).collect();
    assert_eq!(gates.len(), 2);
    for g in &gates {
        if let IRNode::BinOpCmpGate(l, op, _, gated) = g {
            assert_eq!(*l, link(0));
            assert_eq!(*op, BinOp::CmpEq);
            assert!(gated.is_link());
        }
    }
    let drivers = folded.nodes.iter().filter(|n| matches!(n, IRNode::MultiDriver(..))).count();
    assert_eq!(drivers, 1);
    let (m, bp) = compile(source);
    let deciders = named(&bp, "decider-combinator");
    assert_eq!(deciders.len(), 2);
    let mut compared = Vec::new();
    for d in &deciders {
        let c = d.control_behavior.decider_conditions.as_ref().unwrap();
        assert!(c.copy_count_from_input);
        assert_eq!(c.comparator, "=");
        assert_eq!(c.first_signal, signal('A'));
        assert_eq!(c.output_signal, Some(signal('B')));
        compared.push(c.constant.unwrap());
    }
    compared.sort();
    assert_eq!(compared, vec![1, 2]);
    let constants = named(&bp, "constant-combinator");
    let mut counts: Vec<i32> = constants
        .iter()
        .map(|e| e.control_behavior.filters.as_ref().unwrap()[0].count)
        .collect();
    counts.sort();
    assert_eq!(counts, vec![0, 10, 20]);
    for e in &constants {
        let f = &e.control_behavior.filters.as_ref().unwrap()[0];
        if f.count != 0 {
            assert_eq!(f.signal, signal('B'));
        }
    }
    assert!(m.links.len() >= 5);
    check_blueprint(&bp);
}

#[test]
fn prelude_builds() {
    let source = get_asset_string("std/prelude.cdl").unwrap();
    let modules = build(&source, true).unwrap();
    let names: Vec<&str> = modules.iter().map(|m| m.name.as_str()).collect();
    assert_eq!(names, vec!["bool", "abs", "min", "max"]);
}

#[test]
fn program_can_call_the_prelude() {
    let prelude = get_asset_string("std/prelude.cdl").unwrap();
    let source = format!("{} mod main(x:$A) -> $B {{ output(abs(x + 1)); }}", prelude);
    let (_, bp) = compile(&source);
    assert!(named(&bp, "arithmetic-combinator").len() >= 2);
    assert_eq!(named(&bp, "decider-combinator").len(), 2);
    check_blueprint(&bp);
}
