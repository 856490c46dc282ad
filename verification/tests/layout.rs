use cdl::common::{BinOp, ConnectType};
use cdl::error::CompileError;
use cdl::ir::layout::{
    can_move, check_dist, lerp_pos, nudge, register_nets, span_net, get_true_pos, NetRegistry, WireLink,
    WireNet,
};
use cdl::ir::placement::Grid;
use cdl::ir::{IRArg, IRModule, IRNode, WireColor};
use cdl::settings::CompileSettings;

fn red(n: u32) -> IRArg {
    IRArg::Link(n, WireColor::Red)
}

fn green(n: u32) -> IRArg {
    IRArg::Link(n, WireColor::Green)
}

fn module(nodes: Vec<IRNode>, ports: i32) -> IRModule {
    let mut m = IRModule::new(
        "m".to_string(),
        CompileSettings { fold_constants: true, prune: true, main_mod_name: "main".to_string() },
    );
    m.nodes = nodes;
    m.port_count = ports;
    m
}

fn reserved(p: (i32, i32)) -> bool {
    p.0.rem_euclid(18) <= 1 && p.1.rem_euclid(9) == 0
}

fn grid(size: usize) -> Grid {
    let mut g = Grid::new();
    g.init(size);
    g
}

#[test]
fn width_is_the_root_of_twice_the_size() {
    for (size, w) in [(0, 0), (1, 2), (2, 2), (3, 3), (8, 4), (9, 5), (18, 6), (50, 10), (51, 11)] {
        assert_eq!(grid(size).approx_w, w);
    }
}

#[test]
fn reserved_cells_repeat_on_negative_coordinates() {
    let g = grid(1);
    for p in [(0, 0), (1, 0), (18, 9), (19, -9), (-18, 18), (-17, -18), (36, 0)] {
        assert!(g.is_cell_reserved(p));
    }
    for p in [(2, 0), (-1, 0), (0, 1), (17, 9), (0, -1), (-16, 9), (1, 8)] {
        assert!(!g.is_cell_reserved(p));
    }
}

#[test]
fn set_moves_and_displaces() {
    let mut g = grid(3);
    assert_eq!(g.get_id_at((5, 5)), None);
    assert!(!g.is_cell_filled((5, 5)));
    g.set((5, 5), 0);
    g.set((-3, 7), 1);
    assert_eq!(g.get_pos_for(0), (5, 5));
    assert_eq!(g.get_id_at((5, 5)), Some(0));
    assert_eq!(g.get_id_at((-3, 7)), Some(1));
    // A node that moves leaves its cell.
    g.set((6, 5), 0);
    assert_eq!(g.get_id_at((5, 5)), None);
    assert_eq!(g.get_pos_for(0), (6, 5));
    // A node that takes a cell leaves the node that sat there without one.
    g.set((6, 5), 1);
    assert_eq!(g.get_id_at((6, 5)), Some(1));
    assert_eq!(g.get_id_at((-3, 7)), None);
    assert_eq!(g.node_positions[0], None);
    g.set((6, 5), 1);
    assert_eq!(g.get_pos_for(1), (6, 5));
    g.set((i32::MIN, i32::MAX), 2);
    assert_eq!(g.get_id_at((i32::MIN, i32::MAX)), Some(2));
    assert_eq!(g.get_id_at((i32::MAX, i32::MIN)), None);
}

#[test]
fn first_cells_of_inputs_outputs_and_nodes() {
    let mut g = grid(12);
    assert!(g.add_input(0, 5));
    assert!(g.add_input(1, 5));
    assert!(g.add_output(2, 5));
    assert!(g.add_output(3, 5));
    assert_eq!(g.get_pos_for(0), (-2, 1));
    assert_eq!(g.get_pos_for(1), (-1, 1));
    // One cell stays free between the inputs and the outputs.
    assert_eq!(g.get_pos_for(2), (1, 1));
    assert_eq!(g.get_pos_for(3), (2, 1));
    assert_eq!(g.get_id_at((0, 1)), None);
    assert_eq!(g.approx_w, 5);
    for id in 4..12 {
        assert!(g.add_node(id));
    }
    // Row 2 runs leftwards from 2, row 3 rightwards from -2.
    let cells: Vec<(i32, i32)> = (4..12).map(|id| g.get_pos_for(id)).collect();
    assert_eq!(cells, vec![(2, 2), (1, 2), (0, 2), (-1, 2), (-2, 2), (-2, 3), (-1, 3), (0, 3)]);
}

#[test]
fn nodes_skip_reserved_cells() {
    let mut g = grid(200);
    for id in 0..200 {
        assert!(g.add_node(id));
    }
    let mut seen = std::collections::HashSet::new();
    for id in 0..200 {
        let p = g.get_pos_for(id);
        assert!(!reserved(p));
        assert!(seen.insert(p));
        assert_eq!(g.get_id_at(p), Some(id));
    }
    assert_eq!(g.get_id_at((0, 9)), None);
    assert_eq!(g.get_id_at((1, 9)), None);
    assert!(g.is_cell_filled((2, 9)));
    assert!(g.is_cell_filled((-1, 9)));
}

#[test]
fn module_places_every_entity() {
    let mut m = module(
        vec![
            IRNode::Input(0),
            IRNode::Constant(1),
            IRNode::Removed,
            IRNode::BinOp(red(0), BinOp::Add, green(1)),
            IRNode::MultiDriver(vec![red(3)]),
            IRNode::Output(0, red(4)),
        ],
        2,
    );
    m.place_nodes().unwrap();
    let cells: Vec<Option<(i32, i32)>> = m.grid.node_positions.clone();
    assert_eq!(cells, vec![Some((-1, 1)), Some((2, 2)), None, Some((1, 2)), None, Some((1, 1))]);
    assert_eq!(m.grid.approx_w, 4);
    let mut gate = module(vec![IRNode::Gate(red(0), true, red(0))], 0);
    assert_eq!(gate.place_nodes(), Err(CompileError::EmitInvalid));
    let mut slot = module(vec![IRNode::PlaceHolder], 0);
    assert_eq!(slot.layout_nodes(1), Err(CompileError::EmitInvalid));
}

#[test]
fn reach_is_nine_cells() {
    assert!(check_dist((0, 0), (18, 0)));
    assert!(!check_dist((0, 0), (19, 0)));
    assert!(check_dist((0, 0), (0, -18)));
    assert!(check_dist((-5, 3), (7, 16)));
    assert!(check_dist((0, 0), (12, 13)));
    assert!(!check_dist((0, 0), (13, 13)));
    assert!(!check_dist((i64::MIN, 0), (i64::MAX, 0)));
    assert!(check_dist((i64::MAX, i64::MIN), (i64::MAX, i64::MIN)));
}

#[test]
fn true_position_is_in_half_cells() {
    let nodes = vec![
        IRNode::Input(0),
        IRNode::BinOp(red(0), BinOp::Add, IRArg::Constant(1)),
        IRNode::MultiDriver(vec![]),
        IRNode::Constant(0),
    ];
    let mut g = grid(4);
    g.set((3, -2), 0);
    g.set((3, 5), 1);
    g.set((1, 1), 2);
    assert_eq!(get_true_pos(&nodes, &g, 0), Some((6, -8)));
    assert_eq!(get_true_pos(&nodes, &g, 1), Some((6, 21)));
    assert_eq!(get_true_pos(&nodes, &g, 2), None);
    assert_eq!(get_true_pos(&nodes, &g, 3), None);
    assert!(!can_move(&nodes, 0));
    assert!(can_move(&nodes, 1));
}

#[test]
fn spanning_tree_of_points_in_reach() {
    let points = vec![(0, 0), (30, 0), (15, 0), (45, 0)];
    let edges = span_net(&points).unwrap();
    assert_eq!(edges, vec![(0, 2), (1, 2), (1, 3)]);
    assert_eq!(span_net(&vec![(0, 0), (0, 1)]).unwrap(), vec![(0, 1)]);
    assert_eq!(span_net(&vec![(3, 3)]).unwrap(), vec![]);
    assert_eq!(span_net(&vec![]).unwrap(), vec![]);
    assert_eq!(span_net(&vec![(0, 0), (0, 0), (0, 0)]).unwrap(), vec![(0, 1), (1, 2)]);
}

#[test]
fn points_out_of_reach_cannot_be_wired() {
    assert_eq!(span_net(&vec![(0, 0), (19, 0)]), None);
    assert_eq!(span_net(&vec![(0, 0), (10, 0), (40, 0), (50, 0)]), None);
}

#[test]
fn interpolation_rounds_to_the_nearest_cell() {
    assert_eq!(lerp_pos((0, 0), (10, -10), 500), (5, -5));
    assert_eq!(lerp_pos((0, 0), (10, -10), 100), (1, -1));
    assert_eq!(lerp_pos((0, 0), (10, -10), 0), (0, 0));
    assert_eq!(lerp_pos((0, 0), (10, -10), 1000), (10, -10));
    assert_eq!(lerp_pos((0, 0), (1, -1), 500), (1, -1));
    assert_eq!(lerp_pos((0, 0), (1, -1), 499), (0, 0));
    assert_eq!(lerp_pos((2, 2), (5, 4), 900), (5, 4));
    assert_eq!(lerp_pos((i32::MIN, i32::MAX), (i32::MAX, i32::MIN), 1000), (i32::MAX, i32::MIN));
    assert_eq!(lerp_pos((i32::MIN, i32::MAX), (i32::MAX, i32::MIN), 500), (0, -1));
}

#[test]
fn nudge_moves_swaps_or_stays() {
    let nodes = vec![
        IRNode::Input(0),
        IRNode::Constant(1),
        IRNode::Constant(2),
        IRNode::BinOp(red(1), BinOp::Add, green(2)),
    ];
    let mut g = grid(4);
    g.set((0, 1), 0);
    g.set((10, 2), 1);
    g.set((5, 2), 2);
    g.set((0, 4), 3);
    // Into a free cell.
    nudge(&mut g, &nodes, 1, (0, 2), 200);
    assert_eq!(g.get_pos_for(1), (8, 2));
    // Into the cell of a node that may move: the two swap.
    nudge(&mut g, &nodes, 1, (2, 2), 500);
    assert_eq!(g.get_pos_for(1), (5, 2));
    assert_eq!(g.get_pos_for(2), (8, 2));
    // Not onto the centroid, a reserved cell or an input.
    nudge(&mut g, &nodes, 1, (5, 2), 500);
    assert_eq!(g.get_pos_for(1), (5, 2));
    nudge(&mut g, &nodes, 1, (4, 2), 900);
    assert_eq!(g.get_pos_for(1), (5, 2));
    nudge(&mut g, &nodes, 3, (0, -4), 500);
    assert_eq!(g.get_pos_for(3), (0, 4));
    nudge(&mut g, &nodes, 3, (0, -2), 500);
    assert_eq!(g.get_pos_for(3), (0, 4));
    nudge(&mut g, &nodes, 3, (0, -3), 500);
    assert_eq!(g.get_pos_for(3), (0, 4));
    assert_eq!(g.get_pos_for(0), (0, 1));
}

#[test]
fn nets_hold_an_output_and_the_inputs_it_feeds() {
    let nodes = vec![
        IRNode::Input(0),
        IRNode::Constant(1),
        IRNode::BinOp(red(0), BinOp::Add, green(1)),
        IRNode::BinOp(red(0), BinOp::Mul, green(2)),
        IRNode::MultiDriver(vec![red(2), red(3)]),
        IRNode::Output(0, red(4)),
        IRNode::BinOpSame(green(1), BinOp::Add),
        IRNode::Removed,
    ];
    let reg = register_nets(&nodes).unwrap();
    let nets: Vec<(WireColor, Vec<(u32, ConnectType)>)> =
        reg.list.iter().map(|n| (n.color, n.connections.clone())).collect();
    assert_eq!(
        nets,
        vec![
            (
                WireColor::Red,
                vec![(0, ConnectType::Out), (2, ConnectType::In), (3, ConnectType::In)]
            ),
            (
                WireColor::Green,
                vec![(1, ConnectType::Out), (2, ConnectType::In), (6, ConnectType::In)]
            ),
            (WireColor::Green, vec![(2, ConnectType::Out), (3, ConnectType::In)]),
            // The drivers of the multi-driver share the net of what they feed.
            (
                WireColor::Red,
                vec![(2, ConnectType::Out), (5, ConnectType::In), (3, ConnectType::Out)]
            ),
        ]
    );
}

#[test]
fn nets_that_cannot_be_formed() {
    let conflict = vec![
        IRNode::Constant(1),
        IRNode::Constant(2),
        IRNode::BinOpSame(red(0), BinOp::Add),
        IRNode::BinOpSame(red(1), BinOp::Add),
        IRNode::MultiDriver(vec![red(0), red(1)]),
        IRNode::Output(0, red(4)),
    ];
    assert_eq!(register_nets(&conflict).err(), Some(CompileError::PlacementConflict));
    let removed = vec![IRNode::Removed, IRNode::Output(0, red(0))];
    assert_eq!(register_nets(&removed).err(), Some(CompileError::ParseLink));
    let number = vec![IRNode::MultiDriver(vec![IRArg::Constant(1)]), IRNode::Output(0, red(0))];
    assert_eq!(register_nets(&number).err(), Some(CompileError::EmitInvalid));
    let cycle = vec![
        IRNode::MultiDriver(vec![red(1)]),
        IRNode::MultiDriver(vec![red(0)]),
        IRNode::Output(0, red(0)),
    ];
    assert_eq!(register_nets(&cycle).err(), Some(CompileError::ShortCycle));
    let gate = vec![IRNode::Gate(red(0), true, red(0))];
    assert_eq!(register_nets(&gate).err(), Some(CompileError::EmitInvalid));
    let twice = vec![IRNode::Constant(1), IRNode::BinOp(red(0), BinOp::Add, red(0))];
    assert_eq!(register_nets(&twice).unwrap().list.len(), 1);
    let mut reg = NetRegistry::new();
    assert_eq!(reg.add_link(&IRArg::Constant(1), 0, &twice, 2), Ok(()));
    assert!(reg.list.is_empty());
}

fn check_layout(m: &IRModule) {
    let mut seen = std::collections::HashSet::new();
    for (i, node) in m.nodes.iter().enumerate() {
        let entity = !matches!(node, IRNode::MultiDriver(_) | IRNode::Removed);
        assert_eq!(m.grid.node_positions[i].is_some(), entity);
        if let Some(p) = m.grid.node_positions[i] {
            assert!(!reserved(p));
            assert!(seen.insert(p));
            if matches!(node, IRNode::Input(_) | IRNode::Output(..)) {
                assert_eq!(p.1, 1);
            }
        }
    }
    for link in &m.links {
        let a = get_true_pos(&m.nodes, &m.grid, link.a.0).unwrap();
        let b = get_true_pos(&m.nodes, &m.grid, link.b.0).unwrap();
        let d = (a.0 - b.0) * (a.0 - b.0) + (a.1 - b.1) * (a.1 - b.1);
        assert!(d <= 324);
    }
}

#[test]
fn layout_wires_every_net_within_reach() {
    let mut nodes = vec![IRNode::Input(0)];
    for k in 0..60u32 {
        nodes.push(IRNode::BinOp(red(k), BinOp::Add, IRArg::Constant(1)));
    }
    nodes.push(IRNode::BinOp(red(60), BinOp::Add, green(1)));
    nodes.push(IRNode::Output(0, red(61)));
    let mut m = module(nodes, 2);
    m.layout_nodes(42).unwrap();
    check_layout(&m);
    // One wire for each operand: each net here joins two ends.
    assert_eq!(m.links.len(), 63);
    assert!(m.links.contains(&WireLink {
        color: WireColor::Green,
        a: (1, ConnectType::Out),
        b: (61, ConnectType::In),
    }));
    // The same seed gives the same layout.
    let mut again = module(m.nodes.clone(), 2);
    again.layout_nodes(42).unwrap();
    assert_eq!(again.grid.node_positions, m.grid.node_positions);
    assert_eq!(again.links, m.links);
}

#[test]
fn layout_repairs_nets_that_are_too_wide() {
    // A constant in the first row feeds a node in the last row, far out of
    // reach, with many other constants between them.
    let mut nodes = vec![IRNode::Constant(7)];
    for k in 0..600 {
        nodes.push(IRNode::Constant(k));
    }
    nodes.push(IRNode::BinOpSame(red(0), BinOp::Add));
    let mut first = module(nodes.clone(), 0);
    first.place_nodes().unwrap();
    let from = first.grid.get_pos_for(0);
    let to = first.grid.get_pos_for(601);
    assert!(to.1 - from.1 > 9);
    let mut m = module(nodes.clone(), 0);
    m.layout_nodes(3).unwrap();
    check_layout(&m);
    assert_eq!(
        m.links,
        vec![WireLink { color: WireColor::Red, a: (0, ConnectType::Out), b: (601, ConnectType::In) }]
    );
    assert_ne!(first.grid.node_positions, m.grid.node_positions);
    // Another seed moves the nodes by other steps.
    let mut other = module(nodes, 0);
    other.layout_nodes(4).unwrap();
    check_layout(&other);
    assert_ne!(other.grid.node_positions, m.grid.node_positions);
}

#[test]
fn layout_of_nothing() {
    let mut m = module(vec![], 0);
    m.layout_nodes(0).unwrap();
    assert!(m.links.is_empty());
    let mut unwired = module(vec![IRNode::Input(0), IRNode::Constant(1), IRNode::Removed], 1);
    unwired.layout_nodes(0).unwrap();
    assert!(unwired.links.is_empty());
    check_layout(&unwired);
}

#[test]
fn repair_moves_the_ends_that_may_move_towards_the_centroid() {
    let nodes = vec![
        IRNode::Input(0),
        IRNode::Constant(1),
        IRNode::BinOp(red(0), BinOp::Add, red(1)),
        IRNode::Constant(2),
    ];
    let net = WireNet {
        color: WireColor::Red,
        connections: vec![(0, ConnectType::Out), (1, ConnectType::Out), (2, ConnectType::In)],
    };
    for seed in 0..20 {
        let mut g = grid(4);
        g.set((0, 1), 0);
        g.set((100, 2), 1);
        g.set((47, 3), 2);
        g.set((60, 2), 3);
        // The centroid is (49, 2).
        let mut rng: rand::rngs::StdRng = rand::SeedableRng::seed_from_u64(seed);
        net.correct(&nodes, &mut g, &mut rng);
        assert_eq!(g.get_pos_for(0), (0, 1));
        // The constant goes between a tenth and nine tenths of the 51 cells.
        let (x, y) = g.get_pos_for(1);
        assert!(100 - 46 <= x && x <= 100 - 5);
        assert_eq!(y, 2);
        // The sum, two cells and a row away, goes to the centroid's row or
        // stays in its own, and towards the centroid's column.
        let (x, y) = g.get_pos_for(2);
        assert!(47 <= x && x <= 49);
        assert!(y == 2 || y == 3);
        assert_ne!((x, y), (49, 2));
        // A node that is no end keeps its cell unless an end takes it.
        let p = g.get_pos_for(3);
        assert!(p == (60, 2) || p == (100, 2));
        if p == (100, 2) {
            assert_eq!(g.get_pos_for(1), (60, 2));
        }
    }
    // A net of no ends, and one whose ends sit on the centroid, change nothing.
    let lone = vec![IRNode::Removed, IRNode::Constant(1)];
    let mut g = grid(2);
    g.set((5, 2), 1);
    let mut rng: rand::rngs::StdRng = rand::SeedableRng::seed_from_u64(0);
    let none = WireNet { color: WireColor::Green, connections: vec![] };
    none.correct(&lone, &mut g, &mut rng);
    let one = WireNet { color: WireColor::Green, connections: vec![(1, ConnectType::Out)] };
    one.correct(&lone, &mut g, &mut rng);
    assert_eq!(g.get_pos_for(1), (5, 2));
}

#[test]
fn nets_within_reach_keep_the_first_cells() {
    let nodes = vec![
        IRNode::Input(0),
        IRNode::Input(1),
        IRNode::BinOp(red(0), BinOp::Add, green(1)),
        IRNode::Output(0, red(2)),
    ];
    let mut first = module(nodes.clone(), 3);
    first.place_nodes().unwrap();
    for seed in 0..5 {
        let mut m = module(nodes.clone(), 3);
        assert_eq!(m.layout_nodes(seed), Ok(()));
        assert_eq!(m.grid.node_positions, first.grid.node_positions);
        assert_eq!(m.links.len(), 3);
    }
}
