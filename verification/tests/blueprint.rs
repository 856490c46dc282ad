use cdl::assets::{get_asset_string, PRELUDE_CDL, SYMBOLS_JSON};
use cdl::blueprint::{
    read_blueprint, write_blueprint, Connection, Connections, EnvelopeError, Signal,
};
use cdl::common::{BinOp, ConnectType};
use cdl::error::CompileError;
use cdl::ir::layout::WireLink;
use cdl::ir::to_blueprint::{
    get_arg_symbol_or_const, get_circuit_id, BlueprintBuilder, EntityKind, SymbolOrConstant,
};
use cdl::ir::{IRArg, IRModule, IRNode, WireColor};
use cdl::rom_generator::{make_rom, push_decimal};
use cdl::settings::CompileSettings;
use cdl::symbols::{
    load_symbols, signal_from_symbol_index, symbol_index_from_identifier, SymbolTable,
};

fn signal(name: &str) -> Signal {
    Signal { cat: "virtual".to_string(), name: name.to_string() }
}

fn table() -> SymbolTable {
    load_symbols(&vec![
        ("a".to_string(), signal("signal-A")),
        ("B".to_string(), signal("signal-B")),
        ("Red".to_string(), signal("signal-red")),
    ])
}

fn red(n: u32) -> IRArg {
    IRArg::Link(n, WireColor::Red)
}

fn green(n: u32) -> IRArg {
    IRArg::Link(n, WireColor::Green)
}

fn module(nodes: Vec<IRNode>, cells: Vec<Option<(i32, i32)>>, symbols: Vec<u32>) -> IRModule {
    let mut m = IRModule::new(
        "m".to_string(),
        CompileSettings { fold_constants: true, prune: true, main_mod_name: "main".to_string() },
    );
    m.grid.init(nodes.len());
    for (id, cell) in cells.iter().enumerate() {
        if let Some(p) = cell {
            m.grid.set(*p, id as u32);
        }
    }
    m.nodes = nodes;
    m.out_symbols = symbols;
    m
}

#[test]
fn symbols_are_found_whatever_the_case() {
    let t = table();
    assert_eq!(t.len(), 3);
    assert_eq!(symbol_index_from_identifier(&t, "A"), Some(0));
    assert_eq!(symbol_index_from_identifier(&t, "a"), Some(0));
    assert_eq!(symbol_index_from_identifier(&t, "b"), Some(1));
    assert_eq!(symbol_index_from_identifier(&t, "RED"), Some(2));
    assert_eq!(symbol_index_from_identifier(&t, "rEd"), Some(2));
    assert_eq!(symbol_index_from_identifier(&t, "green"), None);
    assert_eq!(symbol_index_from_identifier(&t, ""), None);
    assert_eq!(signal_from_symbol_index(&t, 2), signal("signal-red"));
    assert_eq!(t.idents, vec!["A".to_string(), "B".to_string(), "RED".to_string()]);
}

#[test]
fn last_symbol_of_a_name_wins() {
    let t = load_symbols(&vec![
        ("x".to_string(), signal("first")),
        ("y".to_string(), signal("other")),
        ("X".to_string(), signal("second")),
    ]);
    assert_eq!(symbol_index_from_identifier(&t, "x"), Some(2));
    assert_eq!(load_symbols(&vec![]).len(), 0);
}

#[test]
fn circuits_of_entities() {
    for kind in [EntityKind::ConstantCombinator, EntityKind::MediumElectricPole, EntityKind::Substation] {
        assert_eq!(get_circuit_id(kind, ConnectType::In), 1);
        assert_eq!(get_circuit_id(kind, ConnectType::Out), 1);
    }
    for kind in [EntityKind::ArithmeticCombinator, EntityKind::DeciderCombinator] {
        assert_eq!(get_circuit_id(kind, ConnectType::In), 1);
        assert_eq!(get_circuit_id(kind, ConnectType::Out), 2);
    }
    assert_eq!(EntityKind::ConstantCombinator.name(), "constant-combinator");
    assert_eq!(EntityKind::ArithmeticCombinator.name(), "arithmetic-combinator");
    assert_eq!(EntityKind::DeciderCombinator.name(), "decider-combinator");
    assert_eq!(EntityKind::MediumElectricPole.name(), "medium-electric-pole");
    assert_eq!(EntityKind::Substation.name(), "substation");
}

#[test]
fn operands_unpack_into_signal_or_number() {
    let t = table();
    assert_eq!(SymbolOrConstant::Symbol(1).unpack(&t), (Some(signal("signal-B")), None));
    assert_eq!(SymbolOrConstant::Constant(-4).unpack(&t), (None, Some(-4)));
    assert_eq!(get_arg_symbol_or_const(&vec![5, 6], &red(1)), SymbolOrConstant::Symbol(6));
    assert_eq!(
        get_arg_symbol_or_const(&vec![5, 6], &IRArg::Constant(9)),
        SymbolOrConstant::Constant(9)
    );
}

#[test]
fn builder_numbers_entities_and_records_wires_twice() {
    let t = table();
    let mut b = BlueprintBuilder::new();
    assert_eq!(b.add_constant((0, 4), signal("signal-A"), 3), 1);
    assert_eq!(
        b.add_arithmetic(
            (2, 9),
            "+".to_string(),
            SymbolOrConstant::Symbol(0),
            SymbolOrConstant::Constant(1),
            1,
            &t
        ),
        2
    );
    assert_eq!(
        b.add_decider((4, 9), "<".to_string(), 1, SymbolOrConstant::Symbol(0), 2, true, &t),
        3
    );
    assert_eq!(b.add_pole((6, 4), false), 4);
    assert_eq!(b.add_pole((1, 1), true), 5);
    b.add_link(true, (1, ConnectType::Out), (2, ConnectType::In));
    b.add_link(false, (2, ConnectType::Out), (3, ConnectType::In));
    b.add_link(true, (3, ConnectType::Out), (4, ConnectType::In));
    b.add_link(true, (2, ConnectType::Out), (2, ConnectType::In));
    assert_eq!(b.get_bounds(), [0, 1, 6, 9]);
    let bp = b.finish();
    let names: Vec<&str> = bp.entities.iter().map(|e| e.name.as_str()).collect();
    assert_eq!(
        names,
        vec![
            "constant-combinator",
            "arithmetic-combinator",
            "decider-combinator",
            "medium-electric-pole",
            "substation"
        ]
    );
    for (k, e) in bp.entities.iter().enumerate() {
        assert_eq!(e.entity_number as usize, k + 1);
        assert_eq!(e.direction, 4);
    }
    let wire = |entity_id, circuit| Connection { entity_id, circuit_id: Some(circuit) };
    assert_eq!(bp.entities[0].circuit_one.red, Some(vec![wire(2, 1)]));
    assert_eq!(bp.entities[1].circuit_one.red, Some(vec![wire(1, 1), wire(2, 2)]));
    assert_eq!(bp.entities[1].circuit_two.green, Some(vec![wire(3, 1)]));
    assert_eq!(bp.entities[1].circuit_two.red, Some(vec![wire(2, 1)]));
    assert_eq!(bp.entities[2].circuit_one.green, Some(vec![wire(2, 2)]));
    assert_eq!(bp.entities[2].circuit_two.red, Some(vec![wire(4, 1)]));
    assert_eq!(bp.entities[3].circuit_one.red, Some(vec![wire(3, 2)]));
    assert_eq!(bp.entities[4].circuit_one, Connections { red: None, green: None });
    let arithmetic = bp.entities[1].control_behavior.arithmetic_conditions.as_ref().unwrap();
    assert_eq!(arithmetic.first_signal, Some(signal("signal-A")));
    assert_eq!(arithmetic.first_constant, None);
    assert_eq!(arithmetic.second_signal, None);
    assert_eq!(arithmetic.second_constant, Some(1));
    assert_eq!(arithmetic.output_signal, Some(signal("signal-B")));
    let decider = bp.entities[2].control_behavior.decider_conditions.as_ref().unwrap();
    assert_eq!(decider.first_signal, signal("signal-B"));
    assert_eq!(decider.second_signal, Some(signal("signal-A")));
    assert_eq!(decider.constant, None);
    assert_eq!(decider.output_signal, Some(signal("signal-red")));
    assert_eq!(decider.comparator, "<");
    assert!(decider.copy_count_from_input);
    assert_eq!(BlueprintBuilder::new().get_bounds(), [i64::MAX, i64::MAX, i64::MIN, i64::MIN]);
}

#[test]
fn emits_each_kind_of_node() {
    let nodes = vec![
        IRNode::Input(0),
        IRNode::Constant(7),
        IRNode::BinOp(red(0), BinOp::Add, IRArg::Constant(2)),
        IRNode::BinOp(red(2), BinOp::CmpLt, green(1)),
        IRNode::BinOpSame(red(2), BinOp::Mul),
        IRNode::BinOpCmpGate(red(3), BinOp::CmpNeq, 5, green(4)),
        IRNode::MultiDriver(vec![red(5)]),
        IRNode::Removed,
        IRNode::Output(0, red(6)),
        IRNode::Output(1, IRArg::Constant(9)),
    ];
    let cells = vec![
        Some((-1, 1)),
        Some((0, 2)),
        Some((1, 2)),
        Some((2, 2)),
        Some((3, 2)),
        Some((4, 2)),
        None,
        None,
        Some((1, 1)),
        Some((2, 1)),
    ];
    let mut m = module(nodes, cells, vec![0, 1, 2, 0, 1, 1, 1, 0, 0, 2]);
    m.links = vec![
        WireLink { color: WireColor::Red, a: (0, ConnectType::Out), b: (2, ConnectType::In) },
        WireLink { color: WireColor::Green, a: (1, ConnectType::Out), b: (3, ConnectType::In) },
        WireLink { color: WireColor::Red, a: (5, ConnectType::Out), b: (8, ConnectType::In) },
    ];
    let bp = m.to_blueprint(&table()).unwrap();
    let names: Vec<&str> = bp.entities.iter().map(|e| e.name.as_str()).collect();
    assert_eq!(
        names,
        vec![
            "constant-combinator",
            "constant-combinator",
            "arithmetic-combinator",
            "decider-combinator",
            "arithmetic-combinator",
            "decider-combinator",
            "medium-electric-pole",
            "constant-combinator",
            "substation",
        ]
    );
    let at: Vec<(i64, i64)> = bp.entities.iter().map(|e| (e.position.x, e.position.y)).collect();
    assert_eq!(
        at,
        vec![(-2, 4), (0, 8), (2, 9), (4, 9), (6, 9), (8, 9), (2, 4), (4, 4), (1, 1)]
    );
    let filter = |k: usize| bp.entities[k].control_behavior.filters.as_ref().unwrap()[0].clone_parts();
    assert_eq!(filter(0), (signal("signal-A"), 0, 1));
    assert_eq!(filter(1), (signal("signal-B"), 7, 1));
    // An output that holds a number puts it out as the first symbol.
    assert_eq!(filter(7), (signal("signal-A"), 9, 1));
    let add = bp.entities[2].control_behavior.arithmetic_conditions.as_ref().unwrap();
    assert_eq!(add.operation, "+");
    assert_eq!(add.first_signal, Some(signal("signal-A")));
    assert_eq!(add.second_constant, Some(2));
    assert_eq!(add.output_signal, Some(signal("signal-red")));
    let less = bp.entities[3].control_behavior.decider_conditions.as_ref().unwrap();
    assert_eq!(less.comparator, "<");
    assert_eq!(less.first_signal, signal("signal-red"));
    assert_eq!(less.second_signal, Some(signal("signal-B")));
    assert_eq!(less.output_signal, Some(signal("signal-A")));
    assert!(!less.copy_count_from_input);
    let square = bp.entities[4].control_behavior.arithmetic_conditions.as_ref().unwrap();
    assert_eq!(square.operation, "*");
    assert_eq!(square.first_signal, Some(signal("signal-red")));
    assert_eq!(square.second_signal, Some(signal("signal-red")));
    let gate = bp.entities[5].control_behavior.decider_conditions.as_ref().unwrap();
    assert_eq!(gate.comparator, "!=");
    assert_eq!(gate.first_signal, signal("signal-A"));
    assert_eq!(gate.constant, Some(5));
    assert_eq!(gate.second_signal, None);
    assert!(gate.copy_count_from_input);
    let wire = |entity_id, circuit| Connection { entity_id, circuit_id: Some(circuit) };
    assert_eq!(bp.entities[0].circuit_one.red, Some(vec![wire(3, 1)]));
    assert_eq!(bp.entities[2].circuit_one.red, Some(vec![wire(1, 1)]));
    assert_eq!(bp.entities[1].circuit_one.green, Some(vec![wire(4, 1)]));
    assert_eq!(bp.entities[5].circuit_two.red, Some(vec![wire(7, 1)]));
    assert_eq!(bp.entities[6].circuit_one.red, Some(vec![wire(6, 2)]));
}

trait Parts {
    fn clone_parts(&self) -> (Signal, i32, u32);
}

impl Parts for cdl::blueprint::Filter {
    fn clone_parts(&self) -> (Signal, i32, u32) {
        (self.signal.duplicate(), self.count, self.index)
    }
}

#[test]
fn substations_cover_the_entities() {
    let m = module(
        vec![IRNode::Constant(1), IRNode::Constant(2), IRNode::Constant(3)],
        vec![Some((-12, 2)), Some((25, 20)), Some((10, 2))],
        vec![0, 0, 0],
    );
    let bp = m.to_blueprint(&table()).unwrap();
    // Columns -1 to 1 and rows 0 to 2.
    assert_eq!(bp.entities.len(), 3 + 9);
    let poles: Vec<(i64, i64)> = bp.entities[3..].iter().map(|e| (e.position.x, e.position.y)).collect();
    assert_eq!(
        poles,
        vec![(-35, 1), (1, 1), (37, 1), (-35, 37), (1, 37), (37, 37), (-35, 73), (1, 73), (37, 73)]
    );
    for e in &bp.entities[3..] {
        assert_eq!(e.name, "substation");
    }
    let nothing = module(vec![], vec![], vec![]);
    let alone = nothing.to_blueprint(&table()).unwrap();
    assert_eq!(alone.entities.len(), 1);
    assert_eq!((alone.entities[0].position.x, alone.entities[0].position.y), (1, 1));
    // A cell at the edge of what one pole covers needs no second pole.
    let edge = module(vec![IRNode::Constant(1)], vec![Some((9, 4))], vec![0]);
    assert_eq!(edge.to_blueprint(&table()).unwrap().entities.len(), 2);
    let beyond = module(vec![IRNode::Constant(1)], vec![Some((10, 4))], vec![0]);
    assert_eq!(beyond.to_blueprint(&table()).unwrap().entities.len(), 3);
    let left = module(vec![IRNode::Constant(1)], vec![Some((-9, 4))], vec![0]);
    assert_eq!(left.to_blueprint(&table()).unwrap().entities.len(), 3);
    let left_edge = module(vec![IRNode::Constant(1)], vec![Some((-8, 4))], vec![0]);
    assert_eq!(left_edge.to_blueprint(&table()).unwrap().entities.len(), 2);
}

#[test]
fn what_cannot_be_emitted() {
    let t = table();
    let cell = |n: usize| (0..n).map(|k| Some((k as i32 + 2, 2))).collect::<Vec<_>>();
    let unknown = module(vec![IRNode::Constant(1)], cell(1), vec![3]);
    assert_eq!(unknown.to_blueprint(&t).err(), Some(CompileError::Limit));
    let compare = module(
        vec![IRNode::Constant(1), IRNode::BinOp(IRArg::Constant(1), BinOp::CmpEq, red(0))],
        cell(2),
        vec![0, 0],
    );
    assert_eq!(compare.to_blueprint(&t).err(), Some(CompileError::EmitInvalid));
    let gate = module(vec![IRNode::Gate(red(0), true, red(0))], vec![None], vec![0]);
    assert_eq!(gate.to_blueprint(&t).err(), Some(CompileError::EmitInvalid));
    let slot = module(vec![IRNode::PlaceHolder], vec![None], vec![0]);
    assert_eq!(slot.to_blueprint(&t).err(), Some(CompileError::EmitInvalid));
    let mut plain = module(vec![IRNode::Constant(1), IRNode::Removed], vec![Some((2, 2)), None], vec![0, 0]);
    plain.links = vec![WireLink {
        color: WireColor::Unknown,
        a: (0, ConnectType::Out),
        b: (0, ConnectType::In),
    }];
    assert_eq!(plain.to_blueprint(&t).err(), Some(CompileError::EmitInvalid));
    plain.links = vec![WireLink {
        color: WireColor::Red,
        a: (0, ConnectType::Out),
        b: (1, ConnectType::In),
    }];
    assert_eq!(plain.to_blueprint(&t).err(), Some(CompileError::ParseLink));
    plain.links = vec![WireLink {
        color: WireColor::Green,
        a: (7, ConnectType::Out),
        b: (0, ConnectType::In),
    }];
    assert_eq!(plain.to_blueprint(&t).err(), Some(CompileError::ParseLink));
    plain.links = vec![];
    assert!(plain.to_blueprint(&t).is_ok());
}

#[test]
fn envelope_wraps_and_unwraps() {
    let json = b"{\"blueprint\":{\"entities\":[]}}".to_vec();
    let text = write_blueprint(&json).unwrap();
    assert!(text.starts_with('0'));
    assert!(text.len() > 8);
    assert_ne!(text.as_bytes()[1..].to_vec(), json);
    assert_eq!(read_blueprint(&text), Ok(json.clone()));
    // A string made elsewhere.
    assert_eq!(
        read_blueprint("0eNqrVkrKKU0tKMrMK1GyqlZKzSvJLMlMLVayio6trQUAow0K3w=="),
        Ok(json)
    );
    let long: Vec<u8> = (0..5000u32).map(|k| (k % 7) as u8 + 48).collect();
    let wrapped = write_blueprint(&long).unwrap();
    assert!(wrapped.len() < long.len());
    assert_eq!(read_blueprint(&wrapped), Ok(long));
    assert_eq!(read_blueprint(&write_blueprint(&vec![]).unwrap()), Ok(vec![]));
}

#[test]
fn envelope_rejects_other_strings() {
    assert_eq!(read_blueprint(""), Err(EnvelopeError::BadVersion));
    assert_eq!(read_blueprint("1eNqrVkrKKU0="), Err(EnvelopeError::BadVersion));
    assert_eq!(read_blueprint("0not base64!"), Err(EnvelopeError::BadBase64));
    assert_eq!(read_blueprint("0aGVsbG8gd29ybGQ="), Err(EnvelopeError::BadZlib));
    assert_eq!(read_blueprint("0"), Err(EnvelopeError::BadZlib));
}

#[test]
fn assets_by_name() {
    assert_eq!(get_asset_string("symbols.json"), Some(SYMBOLS_JSON.to_string()));
    assert_eq!(get_asset_string("std/prelude.cdl"), Some(PRELUDE_CDL.to_string()));
    assert_eq!(get_asset_string("prelude.cdl"), None);
    assert_eq!(get_asset_string(""), None);
    assert!(SYMBOLS_JSON.starts_with("[{\"id\":\"A\",\"signal\":{\"type\":\"virtual\",\"name\":\"signal-A\"}}"));
}

#[test]
fn rom_source() {
    assert_eq!(
        make_rom(&vec![], 0),
        "mod main(addr: $A) -> $X { output(match(addr) {\n})}\n"
    );
    assert_eq!(
        make_rom(&vec![7, 255], 10),
        "mod main(addr: $A) -> $X { output(match(addr) {\n\t == 10 => 7,\t == 11 => 255,})}\n"
    );
    let nine: Vec<u8> = (0..9).collect();
    let text = make_rom(&nine, 0);
    assert!(text.contains("\t == 7 => 7,\n\t == 8 => 8,})}\n"));
    assert!(!text.contains("6,\n"));
    assert!(make_rom(&vec![1], u32::MAX).contains("== 4294967295 => 1,"));
    let mut s = String::new();
    push_decimal(&mut s, 0);
    push_decimal(&mut s, 1234567890);
    assert_eq!(s, "01234567890");
}
