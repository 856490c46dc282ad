use cdl::common::BinOp;
use cdl::error::CompileError;
use cdl::ir::opt::constant_folding::{clone_arg, fix_const, fold_node_list, same_node};
use cdl::ir::opt::fix_nodes::{add_node_at, detect_short_cycles, fix_node_list};
use cdl::ir::opt::tree_pruning::{operands, prune_node_list};
use cdl::ir::{IRArg, IRModule, IRNode, WireColor};
use cdl::settings::CompileSettings;

fn link(n: u32) -> IRArg {
    IRArg::Link(n, WireColor::Unknown)
}

fn c(n: i32) -> IRArg {
    IRArg::Constant(n)
}

fn module(nodes: Vec<IRNode>) -> IRModule {
    let mut m = IRModule::new(
        "m".to_string(),
        CompileSettings { fold_constants: true, prune: true, main_mod_name: "main".to_string() },
    );
    m.nodes = nodes;
    m
}

fn folded(nodes: Vec<IRNode>) -> Vec<IRNode> {
    let mut nodes = nodes;
    fold_node_list(&mut nodes).unwrap();
    nodes
}

fn fixed(nodes: Vec<IRNode>) -> Vec<IRNode> {
    let mut nodes = nodes;
    fix_node_list(&mut nodes).unwrap();
    nodes
}

fn pruned(nodes: Vec<IRNode>) -> Vec<IRNode> {
    let mut nodes = nodes;
    prune_node_list(&mut nodes);
    nodes
}

#[test]
fn fold_replaces_links_to_constants() {
    let nodes = vec![IRNode::Constant(5), IRNode::Input(0), IRNode::BinOp(link(1), BinOp::Add, link(0))];
    assert_eq!(fix_const(&nodes, &link(0)), c(5));
    assert_eq!(fix_const(&nodes, &link(1)), link(1));
    assert_eq!(fix_const(&nodes, &c(3)), c(3));
    assert_eq!(fix_const(&nodes, &link(9)), link(9));
    assert_eq!(clone_arg(&nodes, &link(1)), IRNode::Input(0));
    assert_eq!(clone_arg(&nodes, &c(4)), IRNode::Constant(4));
    assert_eq!(
        folded(nodes),
        vec![IRNode::Constant(5), IRNode::Input(0), IRNode::BinOp(link(1), BinOp::Add, c(5))]
    );
}

#[test]
fn fold_collapses_operators_on_numbers() {
    assert_eq!(
        folded(vec![IRNode::BinOp(c(6), BinOp::Mul, c(7)), IRNode::Output(0, link(0))]),
        vec![IRNode::Constant(42), IRNode::Output(0, c(42))]
    );
    // A constant that is defined behind its use is found by a later pass.
    assert_eq!(
        folded(vec![
            IRNode::Output(0, link(1)),
            IRNode::BinOp(link(2), BinOp::Sub, c(1)),
            IRNode::BinOp(c(2), BinOp::Power, c(5)),
        ]),
        vec![IRNode::Output(0, c(31)), IRNode::Constant(31), IRNode::Constant(32)]
    );
}

#[test]
fn fold_of_a_gate() {
    let base = |gate: IRNode| vec![IRNode::Input(0), IRNode::BinOp(link(0), BinOp::Add, c(1)), gate];
    // What is let through is zero.
    assert_eq!(folded(base(IRNode::Gate(link(0), true, c(0))))[2], IRNode::Constant(0));
    // An open gate: a copy of what is let through.
    assert_eq!(
        folded(base(IRNode::Gate(c(3), true, link(1))))[2],
        IRNode::BinOp(link(0), BinOp::Add, c(1))
    );
    assert_eq!(folded(base(IRNode::Gate(c(0), false, c(9))))[2], IRNode::Constant(9));
    // A shut gate.
    assert_eq!(folded(base(IRNode::Gate(c(0), true, link(1))))[2], IRNode::Constant(0));
    assert_eq!(folded(base(IRNode::Gate(c(3), false, link(1))))[2], IRNode::Constant(0));
    // Nothing is known.
    assert_eq!(folded(base(IRNode::Gate(link(0), true, link(1))))[2], IRNode::Gate(link(0), true, link(1)));
}

#[test]
fn fold_sums_the_numbers_of_a_multi_driver() {
    let nodes = vec![
        IRNode::Input(0),
        IRNode::Constant(4),
        IRNode::MultiDriver(vec![c(1), link(0), link(1), c(2)]),
        IRNode::MultiDriver(vec![c(1), link(1)]),
        IRNode::MultiDriver(vec![link(0), c(0)]),
        IRNode::MultiDriver(vec![c(i32::MAX), c(1), link(0)]),
        IRNode::MultiDriver(vec![c(5), link(0), c(-5)]),
    ];
    let out = folded(nodes);
    assert_eq!(out[2], IRNode::MultiDriver(vec![link(0), c(7)]));
    assert_eq!(out[3], IRNode::Constant(5));
    assert_eq!(out[4], IRNode::MultiDriver(vec![link(0)]));
    assert_eq!(out[5], IRNode::MultiDriver(vec![link(0), c(i32::MIN)]));
    assert_eq!(out[6], IRNode::MultiDriver(vec![link(0)]));
    assert_eq!(folded(vec![IRNode::MultiDriver(vec![])]), vec![IRNode::Constant(0)]);
}

#[test]
fn fold_leaves_legal_nodes_alone() {
    let nodes = vec![
        IRNode::Constant(1),
        IRNode::Input(0),
        IRNode::BinOpCmpGate(link(0), BinOp::CmpEq, 0, link(1)),
        IRNode::BinOpSame(link(0), BinOp::Add),
        IRNode::Removed,
        IRNode::PlaceHolder,
    ];
    assert_eq!(folded(nodes.clone()), nodes);
}

#[test]
fn fold_twice_is_fold_once() {
    let nodes = vec![
        IRNode::Output(0, link(4)),
        IRNode::Input(0),
        IRNode::Gate(link(3), true, link(1)),
        IRNode::BinOp(c(1), BinOp::CmpLt, c(2)),
        IRNode::MultiDriver(vec![link(2), link(5), c(3)]),
        IRNode::BinOp(c(2), BinOp::Add, c(2)),
    ];
    let once = folded(nodes);
    assert_eq!(folded(once.clone()), once);
    assert_eq!(once[0], IRNode::Output(0, link(4)));
    assert_eq!(once[2], IRNode::Input(0));
    assert_eq!(once[4], IRNode::MultiDriver(vec![link(2), c(7)]));
}

#[test]
fn fold_reports_undefined_operations() {
    let mut nodes = vec![IRNode::BinOp(c(1), BinOp::Mod, c(0))];
    assert_eq!(fold_node_list(&mut nodes), Err(CompileError::FoldUndefined));
    let mut m = module(vec![IRNode::BinOp(c(1), BinOp::Power, c(-1))]);
    assert_eq!(m.fold_constants(), Err(CompileError::FoldUndefined));
}

#[test]
fn same_node_compares_values() {
    assert!(same_node(&IRNode::MultiDriver(vec![link(1), c(2)]), &IRNode::MultiDriver(vec![link(1), c(2)])));
    assert!(!same_node(&IRNode::MultiDriver(vec![link(1)]), &IRNode::MultiDriver(vec![link(1), c(2)])));
    assert!(!same_node(&IRNode::Input(0), &IRNode::Constant(0)));
    assert!(!same_node(
        &IRNode::Output(0, IRArg::Link(1, WireColor::Red)),
        &IRNode::Output(0, IRArg::Link(1, WireColor::Green))
    ));
    assert!(same_node(&IRNode::Removed, &IRNode::Removed));
}

#[test]
fn prune_keeps_what_outputs_need() {
    let nodes = vec![
        IRNode::Input(0),
        IRNode::Input(1),
        IRNode::BinOp(link(0), BinOp::Add, c(1)),
        IRNode::BinOp(link(1), BinOp::Mul, c(2)),
        IRNode::Constant(9),
        IRNode::MultiDriver(vec![link(2), link(6)]),
        IRNode::Gate(link(2), true, link(7)),
        IRNode::Constant(3),
        IRNode::Output(0, link(5)),
        IRNode::BinOpSame(link(4), BinOp::Add),
    ];
    let out = pruned(nodes.clone());
    for keep in [0, 1, 2, 5, 6, 7, 8] {
        assert_eq!(out[keep], nodes[keep]);
    }
    for drop in [3, 4, 9] {
        assert_eq!(out[drop], IRNode::Removed);
    }
    assert_eq!(pruned(out.clone()), out);
}

#[test]
fn prune_without_outputs_keeps_inputs_only() {
    assert_eq!(
        pruned(vec![IRNode::Input(0), IRNode::Constant(1), IRNode::BinOp(link(0), BinOp::Add, link(1))]),
        vec![IRNode::Input(0), IRNode::Removed, IRNode::Removed]
    );
    assert_eq!(pruned(vec![]), vec![]);
}

#[test]
fn prune_follows_cycles_once() {
    let nodes = vec![
        IRNode::Output(0, link(1)),
        IRNode::MultiDriver(vec![link(2)]),
        IRNode::MultiDriver(vec![link(1)]),
        IRNode::Constant(0),
    ];
    let out = pruned(nodes.clone());
    assert_eq!(&out[0..3], &nodes[0..3]);
    assert_eq!(out[3], IRNode::Removed);
}

#[test]
fn operands_of_each_kind() {
    assert_eq!(operands(&IRNode::Input(0)), vec![]);
    assert_eq!(operands(&IRNode::Output(0, link(1))), vec![link(1)]);
    assert_eq!(operands(&IRNode::BinOp(link(1), BinOp::Add, c(2))), vec![link(1), c(2)]);
    assert_eq!(operands(&IRNode::Gate(link(1), true, link(2))), vec![link(1), link(2)]);
    assert_eq!(operands(&IRNode::BinOpSame(link(1), BinOp::Add)), vec![link(1)]);
    assert_eq!(operands(&IRNode::BinOpCmpGate(link(1), BinOp::CmpEq, 0, link(2))), vec![link(1), link(2)]);
    assert_eq!(operands(&IRNode::MultiDriver(vec![link(3), c(1)])), vec![link(3), c(1)]);
}

#[test]
fn fix_turns_an_operator_on_one_link_into_a_single_input() {
    assert_eq!(
        fixed(vec![IRNode::Input(0), IRNode::BinOp(link(0), BinOp::Mul, link(0))]),
        vec![IRNode::Input(0), IRNode::BinOpSame(link(0), BinOp::Mul)]
    );
    // Two numbers are no link.
    assert_eq!(
        fixed(vec![IRNode::BinOp(c(1), BinOp::Add, c(1))]),
        vec![IRNode::BinOp(c(1), BinOp::Add, c(1))]
    );
    // Links of different colours differ.
    let two = IRNode::BinOp(IRArg::Link(0, WireColor::Red), BinOp::Add, IRArg::Link(0, WireColor::Green));
    assert_eq!(fixed(vec![IRNode::Input(0), two.clone()])[1], two);
}

#[test]
fn fix_puts_a_link_on_the_left_of_a_comparison() {
    assert_eq!(
        fixed(vec![IRNode::Input(0), IRNode::BinOp(c(3), BinOp::CmpLt, link(0))]),
        vec![IRNode::Input(0), IRNode::BinOp(link(0), BinOp::CmpGt, c(3))]
    );
    assert_eq!(
        fixed(vec![IRNode::BinOp(c(3), BinOp::CmpLeq, c(4))]),
        vec![IRNode::BinOp(link(1), BinOp::CmpLeq, c(4)), IRNode::Constant(3)]
    );
    // An arithmetic operator may keep its number.
    assert_eq!(
        fixed(vec![IRNode::Input(0), IRNode::BinOp(c(3), BinOp::Sub, link(0))]),
        vec![IRNode::Input(0), IRNode::BinOp(c(3), BinOp::Sub, link(0))]
    );
}

#[test]
fn fix_gives_the_numbers_of_a_multi_driver_nodes() {
    assert_eq!(
        fixed(vec![IRNode::Input(0), IRNode::MultiDriver(vec![link(0), c(5), c(6)])]),
        vec![
            IRNode::Input(0),
            IRNode::MultiDriver(vec![link(0), link(2), link(3)]),
            IRNode::Constant(5),
            IRNode::Constant(6),
        ]
    );
}

#[test]
fn fix_fuses_a_gate_with_its_comparison() {
    let nodes = vec![
        IRNode::Input(0),
        IRNode::BinOp(link(0), BinOp::CmpLt, c(5)),
        IRNode::BinOp(link(0), BinOp::Add, c(1)),
        IRNode::Gate(link(1), true, link(2)),
        IRNode::Gate(link(1), false, link(2)),
    ];
    let out = fixed(nodes);
    assert_eq!(out[3], IRNode::BinOpCmpGate(link(0), BinOp::CmpLt, 5, link(2)));
    assert_eq!(out[4], IRNode::BinOpCmpGate(link(0), BinOp::CmpGeq, 5, link(2)));
    assert_eq!(out[1], IRNode::BinOp(link(0), BinOp::CmpLt, c(5)));
}

#[test]
fn fix_tests_other_conditions_against_zero() {
    let nodes = vec![
        IRNode::Input(0),
        IRNode::BinOp(link(0), BinOp::Add, c(1)),
        IRNode::BinOp(link(0), BinOp::CmpLt, link(1)),
        IRNode::Gate(link(1), true, link(0)),
        IRNode::Gate(link(2), false, link(0)),
        IRNode::Gate(c(7), true, c(8)),
    ];
    let out = fixed(nodes);
    assert_eq!(out[3], IRNode::BinOpCmpGate(link(1), BinOp::CmpNeq, 0, link(0)));
    assert_eq!(out[4], IRNode::BinOpCmpGate(link(2), BinOp::CmpEq, 0, link(0)));
    assert_eq!(out[5], IRNode::BinOpCmpGate(link(7), BinOp::CmpNeq, 0, link(6)));
    assert_eq!(out[6], IRNode::Constant(8));
    assert_eq!(out[7], IRNode::Constant(7));
}

#[test]
fn fix_leaves_every_comparison_and_gate_linked() {
    let nodes = vec![
        IRNode::Input(0),
        IRNode::BinOp(c(1), BinOp::CmpEq, c(2)),
        IRNode::BinOp(c(1), BinOp::CmpNeq, link(0)),
        IRNode::Gate(c(1), true, c(2)),
        IRNode::Gate(link(1), false, c(0)),
        IRNode::Gate(link(2), true, link(0)),
        IRNode::MultiDriver(vec![c(1), link(3), link(4), link(5)]),
        IRNode::Removed,
        IRNode::Output(0, link(6)),
    ];
    let out = fixed(nodes);
    for node in &out {
        match node {
            IRNode::BinOp(l, op, _) => assert!(!op.is_compare() || l.is_link()),
            IRNode::BinOpCmpGate(l, _, _, g) => assert!(l.is_link() && g.is_link()),
            IRNode::MultiDriver(args) => assert!(args.iter().all(|a| a.is_link())),
            IRNode::Gate(..) => panic!("a gate is left"),
            _ => {},
        }
    }
    assert_eq!(fixed(out.clone()), out);
}

#[test]
fn new_nodes_go_into_the_nearest_vacated_slot() {
    let mut nodes = vec![IRNode::Removed, IRNode::Input(0), IRNode::Input(1), IRNode::Removed, IRNode::Removed];
    // Above before below at one distance.
    assert_eq!(add_node_at(&mut nodes, 2, IRNode::Constant(1)), Some(link(3)));
    assert_eq!(add_node_at(&mut nodes, 2, IRNode::Constant(2)), Some(link(4)));
    assert_eq!(add_node_at(&mut nodes, 2, IRNode::Constant(3)), Some(link(0)));
    assert_eq!(add_node_at(&mut nodes, 2, IRNode::Constant(4)), Some(link(5)));
    assert_eq!(
        nodes,
        vec![
            IRNode::Constant(3),
            IRNode::Input(0),
            IRNode::Input(1),
            IRNode::Constant(1),
            IRNode::Constant(2),
            IRNode::Constant(4),
        ]
    );
    let mut other = vec![IRNode::Removed, IRNode::Input(0), IRNode::Removed];
    assert_eq!(add_node_at(&mut other, 0, IRNode::Constant(1)), Some(link(0)));
    assert_eq!(add_node_at(&mut other, 1, IRNode::Constant(2)), Some(link(2)));
}

#[test]
fn short_cycles_are_found() {
    let cyclic = vec![IRNode::MultiDriver(vec![link(1)]), IRNode::MultiDriver(vec![link(0)])];
    assert!(detect_short_cycles(&cyclic));
    let mut nodes = cyclic.clone();
    assert_eq!(fix_node_list(&mut nodes), Err(CompileError::ShortCycle));
    let own = vec![IRNode::Input(0), IRNode::MultiDriver(vec![link(0), link(1)])];
    assert!(detect_short_cycles(&own));
    // A cycle through a combinator is no short cycle.
    let through = vec![IRNode::MultiDriver(vec![link(1)]), IRNode::BinOp(link(0), BinOp::Add, c(1))];
    assert!(!detect_short_cycles(&through));
    let shared = vec![
        IRNode::Input(0),
        IRNode::MultiDriver(vec![link(0)]),
        IRNode::MultiDriver(vec![link(1), link(1)]),
        IRNode::MultiDriver(vec![link(2), link(1)]),
    ];
    assert!(!detect_short_cycles(&shared));
    let mut m = module(cyclic);
    assert_eq!(m.fix_nodes(), Err(CompileError::ShortCycle));
}

#[test]
fn passes_on_a_module() {
    let mut m = module(vec![
        IRNode::Input(0),
        IRNode::Constant(2),
        IRNode::BinOp(link(1), BinOp::Mul, c(3)),
        IRNode::Gate(link(0), true, link(2)),
        IRNode::Constant(50),
        IRNode::Output(0, link(3)),
    ]);
    m.fold_constants().unwrap();
    assert_eq!(m.nodes[3], IRNode::Gate(link(0), true, c(6)));
    m.prune();
    assert_eq!(m.nodes[1], IRNode::Removed);
    assert_eq!(m.nodes[2], IRNode::Removed);
    assert_eq!(m.nodes[4], IRNode::Removed);
    m.fix_nodes().unwrap();
    // The number let through gets a node in the nearest vacated slot.
    assert_eq!(m.nodes[4], IRNode::Constant(6));
    assert_eq!(m.nodes[3], IRNode::BinOpCmpGate(link(0), BinOp::CmpNeq, 0, link(4)));
    assert_eq!(m.name, "m");
}
