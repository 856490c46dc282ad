use vstd::prelude::*;
use crate::blueprint::{
    ArithmeticConditions, Blueprint, Connection, Connections, ControlBehavior, DeciderConditions,
    Entity, Filter, Position, Signal,
};
use crate::common::ConnectType;
use crate::error::CompileError;
use crate::ir::layout::{true_pos, get_true_pos, WireLink};
use crate::ir::placement::{placed, Grid};
use crate::ir::{graph_of, graph_wf, gates_linked, IRArg, IRModule, IRNode, Node, WireColor};
use crate::symbols::{signal_from_symbol_index, SymbolTable};

verus! {

/// The kinds of entity that a blueprint is made of.
#[derive(Debug, Clone, Copy, PartialEq, Eq, Structural)]
pub enum EntityKind {
    ConstantCombinator,
    ArithmeticCombinator,
    DeciderCombinator,
    MediumElectricPole,
    Substation,
}

impl EntityKind {
    /// The name of the kind in a blueprint.
    pub open spec fn spec_name(&self) -> Seq<char> {
        match *self {
            EntityKind::ConstantCombinator => "constant-combinator"@,
            EntityKind::ArithmeticCombinator => "arithmetic-combinator"@,
            EntityKind::DeciderCombinator => "decider-combinator"@,
            EntityKind::MediumElectricPole => "medium-electric-pole"@,
            EntityKind::Substation => "substation"@,
        }
    }

    /// The name of the kind in a blueprint.
    pub fn name(&self) -> (r: &'static str)
        ensures
            r@ == self.spec_name(),
    {
        match self {
            EntityKind::ConstantCombinator => "constant-combinator",
            EntityKind::ArithmeticCombinator => "arithmetic-combinator",
            EntityKind::DeciderCombinator => "decider-combinator",
            EntityKind::MediumElectricPole => "medium-electric-pole",
            EntityKind::Substation => "substation",
        }
    }
}

/// The circuit of an entity that a wire attaches to: combinators that
/// compute read from circuit 1 and write to circuit 2; all others have
/// circuit 1 only.
pub open spec fn circuit_id(kind: EntityKind, connect_type: ConnectType) -> u32 {
    match kind {
        EntityKind::ArithmeticCombinator | EntityKind::DeciderCombinator => match connect_type {
            ConnectType::In => 1,
            ConnectType::Out => 2,
        },
        _ => 1,
    }
}

/// The circuit of an entity of `kind` that a wire attaches to on the
/// given side.
pub fn get_circuit_id(kind: EntityKind, connect_type: ConnectType) -> (r: u32)
    ensures
        r == circuit_id(kind, connect_type),
        r == 1 || r == 2,
{
    match kind {
        EntityKind::ArithmeticCombinator | EntityKind::DeciderCombinator => match connect_type {
            ConnectType::In => 1,
            ConnectType::Out => 2,
        },
        _ => 1,
    }
}

/// An operand of a combinator: the symbol of a signal, or a number.
#[derive(Debug, Clone, Copy, PartialEq, Eq, Structural)]
pub enum SymbolOrConstant {
    Symbol(u32),
    Constant(i32),
}

impl SymbolOrConstant {
    /// The operand as a combinator stores it: a signal or a number.
    pub fn unpack(&self, table: &SymbolTable) -> (r: (Option<Signal>, Option<i32>))
        requires
            *self is Symbol ==> self->Symbol_0 < table.spec_len(),
        ensures
            match *self {
                SymbolOrConstant::Symbol(x) => r.0 == Some(table.signals@[x as int]) && r.1 is None,
                SymbolOrConstant::Constant(x) => r.0 is None && r.1 == Some(x),
            },
    {
        match self {
            SymbolOrConstant::Symbol(x) => (Some(signal_from_symbol_index(table, *x)), None),
            SymbolOrConstant::Constant(x) => (None, Some(*x)),
        }
    }
}

/// Entity `from` has a wire of the given colour from its circuit `circuit`
/// to circuit `to_circuit` of the entity numbered `to`.
pub open spec fn has_wire(
    entities: Seq<Entity>,
    from: int,
    circuit: u32,
    red: bool,
    to: u32,
    to_circuit: u32,
) -> bool {
    exists|k: int|
        0 <= k < entities[from].wires(circuit, red).len() && #[trigger] entities[from].wires(
            circuit,
            red,
        )[k] == (Connection { entity_id: to, circuit_id: Some(to_circuit) })
}

/// Every wire is recorded at both of its ends: where an entity has a wire to
/// another, that one has the wire back, of the same colour and with the
/// circuits swapped.
#[verifier::opaque]
pub open spec fn wires_symmetric(entities: Seq<Entity>) -> bool {
    forall|from: int, circuit: u32, red: bool, k: int|
        0 <= from < entities.len() && 0 <= k < entities[from].wires(circuit, red).len() ==> {
            let wire = #[trigger] entities[from].wires(circuit, red)[k];
            &&& wire.circuit_id is Some
            &&& 1 <= wire.entity_id <= entities.len()
            &&& has_wire(
                entities,
                wire.entity_id - 1,
                wire.circuit_id->Some_0,
                red,
                (from + 1) as u32,
                circuit,
            )
        }
}

/// Where the wires are symmetric, every wire has its way back: an entity
/// that has a wire to another is named, with its circuit, by a wire of the
/// same colour at that circuit of the other.
pub proof fn lemma_wire_has_way_back(
    entities: Seq<Entity>,
    from: int,
    circuit: u32,
    red: bool,
    k: int,
)
    requires
        wires_symmetric(entities),
        0 <= from < entities.len(),
        0 <= k < entities[from].wires(circuit, red).len(),
    ensures
        ({
            let wire = entities[from].wires(circuit, red)[k];
            &&& wire.circuit_id is Some
            &&& 1 <= wire.entity_id <= entities.len()
            &&& has_wire(
                entities,
                wire.entity_id - 1,
                wire.circuit_id->Some_0,
                red,
                (from + 1) as u32,
                circuit,
            )
        }),
{
    reveal(wires_symmetric);
}

/// Every entity has the number of its place in the list, counted from 1.
pub open spec fn numbered(entities: Seq<Entity>) -> bool {
    forall|k: int| 0 <= k < entities.len() ==> (#[trigger] entities[k]).entity_number == k + 1
}

/// The entities of a blueprint in the making, and the kind of each.
pub struct BlueprintBuilder {
    pub entities: Vec<Entity>,
    pub kinds: Vec<EntityKind>,
}

impl BlueprintBuilder {
    /// The entities are numbered in order, named by their kinds, and wired
    /// symmetrically.
    pub open spec fn wf(&self) -> bool {
        &&& self.entities@.len() == self.kinds@.len()
        &&& self.entities@.len() <= u32::MAX
        &&& numbered(self.entities@)
        &&& wires_symmetric(self.entities@)
        &&& forall|k: int|
            0 <= k < self.entities@.len() ==> (#[trigger] self.entities@[k]).name@
                == self.kinds@[k].spec_name()
    }

    /// A builder that holds no entity.
    pub fn new() -> (r: BlueprintBuilder)
        ensures
            r.wf(),
            r.entities@.len() == 0,
    {
        proof {
            reveal(wires_symmetric);
        }
        BlueprintBuilder { entities: Vec::new(), kinds: Vec::new() }
    }

    /// Appends an entity without wires and returns its number.
    fn add_entity(&mut self, kind: EntityKind, pos: (i64, i64), control_behavior: ControlBehavior) -> (id:
        usize)
        requires
            old(self).wf(),
            old(self).entities@.len() < u32::MAX,
        ensures
            final(self).wf(),
            id == old(self).entities@.len() + 1,
            final(self).entities@.len() == id,
            final(self).kinds@ == old(self).kinds@.push(kind),
            forall|k: int|
                0 <= k < old(self).entities@.len() ==> final(self).entities@[k]
                    == old(self).entities@[k],
            ({
                let e = final(self).entities@[id - 1];
                &&& e.entity_number == id
                &&& e.name@ == kind.spec_name()
                &&& e.position == (Position { x: pos.0, y: pos.1 })
                &&& e.direction == 4
                &&& e.control_behavior == control_behavior
                &&& e.bare()
            }),
    {
        let id = self.entities.len() + 1;
        let ghost before = self.entities@;
        self.entities.push(
            Entity {
                entity_number: id as u32,
                name: kind.name().to_owned(),
                position: Position { x: pos.0, y: pos.1 },
                direction: 4,
                control_behavior,
                circuit_one: Connections::new(),
                circuit_two: Connections::new(),
            },
        );
        self.kinds.push(kind);
        proof {
            reveal(wires_symmetric);
            let after = self.entities@;
            assert forall|from: int, circuit: u32, red: bool, k: int|
                0 <= from < after.len() && 0 <= k < after[from].wires(circuit, red).len() implies {
                let wire = #[trigger] after[from].wires(circuit, red)[k];
                &&& wire.circuit_id is Some
                &&& 1 <= wire.entity_id <= after.len()
                &&& has_wire(
                    after,
                    wire.entity_id - 1,
                    wire.circuit_id->Some_0,
                    red,
                    (from + 1) as u32,
                    circuit,
                )
            } by {
                assert(after[from] == before[from]);
                let wire = before[from].wires(circuit, red)[k];
                let back = choose|q: int|
                    0 <= q < before[wire.entity_id - 1].wires(wire.circuit_id->Some_0, red).len()
                        && #[trigger] before[wire.entity_id - 1].wires(
                        wire.circuit_id->Some_0,
                        red,
                    )[q] == (Connection { entity_id: (from + 1) as u32, circuit_id: Some(circuit) });
                assert(after[wire.entity_id - 1] == before[wire.entity_id - 1]);
                assert(after[wire.entity_id - 1].wires(wire.circuit_id->Some_0, red)[back] == (
                Connection { entity_id: (from + 1) as u32, circuit_id: Some(circuit) }));
            }
        }
        id
    }

    /// A constant combinator that puts out `count` of `signal`.
    pub fn add_constant(&mut self, pos: (i64, i64), signal: Signal, count: i32) -> (id: usize)
        requires
            old(self).wf(),
            old(self).entities@.len() < u32::MAX,
        ensures
            final(self).wf(),
            id == old(self).entities@.len() + 1,
            final(self).entities@.len() == id,
            final(self).kinds@ == old(self).kinds@.push(EntityKind::ConstantCombinator),
            forall|k: int|
                0 <= k < old(self).entities@.len() ==> final(self).entities@[k]
                    == old(self).entities@[k],
            ({
                let e = final(self).entities@[id - 1];
                &&& e.bare()
                &&& e.position == (Position { x: pos.0, y: pos.1 })
                &&& e.direction == 4
                &&& e.control_behavior.arithmetic_conditions is None
                &&& e.control_behavior.decider_conditions is None
                &&& e.control_behavior.filters is Some
                &&& e.control_behavior.filters->Some_0@ == seq![Filter { index: 1, count, signal }]
            }),
    {
        let mut filters: Vec<Filter> = Vec::new();
        filters.push(Filter { index: 1, count, signal });
        assert(filters@ =~= seq![Filter { index: 1, count, signal }]);
        self.add_entity(
            EntityKind::ConstantCombinator,
            pos,
            ControlBehavior {
                arithmetic_conditions: None,
                decider_conditions: None,
                filters: Some(filters),
            },
        )
    }

    /// A pole: a substation, or else a medium electric pole.
    pub fn add_pole(&mut self, pos: (i64, i64), substation: bool) -> (id: usize)
        requires
            old(self).wf(),
            old(self).entities@.len() < u32::MAX,
        ensures
            final(self).wf(),
            id == old(self).entities@.len() + 1,
            final(self).entities@.len() == id,
            final(self).kinds@ == old(self).kinds@.push(
                if substation {
                    EntityKind::Substation
                } else {
                    EntityKind::MediumElectricPole
                },
            ),
            forall|k: int|
                0 <= k < old(self).entities@.len() ==> final(self).entities@[k]
                    == old(self).entities@[k],
            ({
                let e = final(self).entities@[id - 1];
                &&& e.bare()
                &&& e.position == (Position { x: pos.0, y: pos.1 })
                &&& e.direction == 4
                &&& e.control_behavior.arithmetic_conditions is None
                &&& e.control_behavior.decider_conditions is None
                &&& e.control_behavior.filters is None
            }),
    {
        self.add_entity(
            if substation {
                EntityKind::Substation
            } else {
                EntityKind::MediumElectricPole
            },
            pos,
            ControlBehavior { arithmetic_conditions: None, decider_conditions: None, filters: None },
        )
    }

    /// An arithmetic combinator that puts `lhs operation rhs` out as the
    /// signal of `out_symbol`.
    pub fn add_arithmetic(
        &mut self,
        pos: (i64, i64),
        operation: String,
        lhs: SymbolOrConstant,
        rhs: SymbolOrConstant,
        out_symbol: u32,
        table: &SymbolTable,
    ) -> (id: usize)
        requires
            old(self).wf(),
            old(self).entities@.len() < u32::MAX,
            lhs is Symbol ==> lhs->Symbol_0 < table.spec_len(),
            rhs is Symbol ==> rhs->Symbol_0 < table.spec_len(),
            out_symbol < table.spec_len(),
        ensures
            final(self).wf(),
            id == old(self).entities@.len() + 1,
            final(self).entities@.len() == id,
            final(self).kinds@ == old(self).kinds@.push(EntityKind::ArithmeticCombinator),
            forall|k: int|
                0 <= k < old(self).entities@.len() ==> final(self).entities@[k]
                    == old(self).entities@[k],
            ({
                let e = final(self).entities@[id - 1];
                &&& e.bare()
                &&& e.position == (Position { x: pos.0, y: pos.1 })
                &&& e.direction == 4
                &&& e.control_behavior.decider_conditions is None
                &&& e.control_behavior.filters is None
                &&& e.control_behavior.arithmetic_conditions is Some
                &&& arithmetic_is(
                    e.control_behavior.arithmetic_conditions->Some_0,
                    operation@,
                    lhs,
                    rhs,
                    out_symbol,
                    table,
                )
            }),
    {
        let (first_signal, first_constant) = lhs.unpack(table);
        let (second_signal, second_constant) = rhs.unpack(table);
        let output_signal = Some(signal_from_symbol_index(table, out_symbol));
        self.add_entity(
            EntityKind::ArithmeticCombinator,
            pos,
            ControlBehavior {
                arithmetic_conditions: Some(
                    ArithmeticConditions {
                        operation,
                        first_constant,
                        second_constant,
                        first_signal,
                        second_signal,
                        output_signal,
                    },
                ),
                decider_conditions: None,
                filters: None,
            },
        )
    }

    /// A decider combinator that tests `lhs_symbol comparator rhs` and puts
    /// out the signal of `out_symbol`: the count of its input, or 1.
    pub fn add_decider(
        &mut self,
        pos: (i64, i64),
        comparator: String,
        lhs_symbol: u32,
        rhs: SymbolOrConstant,
        out_symbol: u32,
        copy_count_from_input: bool,
        table: &SymbolTable,
    ) -> (id: usize)
        requires
            old(self).wf(),
            old(self).entities@.len() < u32::MAX,
            lhs_symbol < table.spec_len(),
            rhs is Symbol ==> rhs->Symbol_0 < table.spec_len(),
            out_symbol < table.spec_len(),
        ensures
            final(self).wf(),
            id == old(self).entities@.len() + 1,
            final(self).entities@.len() == id,
            final(self).kinds@ == old(self).kinds@.push(EntityKind::DeciderCombinator),
            forall|k: int|
                0 <= k < old(self).entities@.len() ==> final(self).entities@[k]
                    == old(self).entities@[k],
            ({
                let e = final(self).entities@[id - 1];
                &&& e.bare()
                &&& e.position == (Position { x: pos.0, y: pos.1 })
                &&& e.direction == 4
                &&& e.control_behavior.arithmetic_conditions is None
                &&& e.control_behavior.filters is None
                &&& e.control_behavior.decider_conditions is Some
                &&& decider_is(
                    e.control_behavior.decider_conditions->Some_0,
                    comparator@,
                    lhs_symbol,
                    rhs,
                    out_symbol,
                    copy_count_from_input,
                    table,
                )
            }),
    {
        let first_signal = signal_from_symbol_index(table, lhs_symbol);
        let (second_signal, constant) = rhs.unpack(table);
        let output_signal = Some(signal_from_symbol_index(table, out_symbol));
        self.add_entity(
            EntityKind::DeciderCombinator,
            pos,
            ControlBehavior {
                decider_conditions: Some(
                    DeciderConditions {
                        comparator,
                        constant,
                        first_signal,
                        second_signal,
                        output_signal,
                        copy_count_from_input,
                    },
                ),
                arithmetic_conditions: None,
                filters: None,
            },
        )
    }

    /// The blueprint of the entities added so far.
    pub fn finish(self) -> (r: Blueprint)
        ensures
            r.entities == self.entities,
    {
        Blueprint { entities: self.entities }
    }
}

/// The operand as a combinator stores it in a signal field and a number
/// field.
pub open spec fn operand_is(
    signal: Option<Signal>,
    constant: Option<i32>,
    operand: SymbolOrConstant,
    table: &SymbolTable,
) -> bool {
    match operand {
        SymbolOrConstant::Symbol(x) => signal == Some(table.signals@[x as int]) && constant is None,
        SymbolOrConstant::Constant(x) => signal is None && constant == Some(x),
    }
}

/// The settings are those of `lhs operation rhs`, put out as `out_symbol`.
pub open spec fn arithmetic_is(
    c: ArithmeticConditions,
    operation: Seq<char>,
    lhs: SymbolOrConstant,
    rhs: SymbolOrConstant,
    out_symbol: u32,
    table: &SymbolTable,
) -> bool {
    &&& c.operation@ == operation
    &&& operand_is(c.first_signal, c.first_constant, lhs, table)
    &&& operand_is(c.second_signal, c.second_constant, rhs, table)
    &&& c.output_signal == Some(table.signals@[out_symbol as int])
}

/// The settings are those of the test `lhs_symbol comparator rhs`, put out
/// as `out_symbol`.
pub open spec fn decider_is(
    c: DeciderConditions,
    comparator: Seq<char>,
    lhs_symbol: u32,
    rhs: SymbolOrConstant,
    out_symbol: u32,
    copy_count_from_input: bool,
    table: &SymbolTable,
) -> bool {
    &&& c.comparator@ == comparator
    &&& c.first_signal == table.signals@[lhs_symbol as int]
    &&& operand_is(c.second_signal, c.constant, rhs, table)
    &&& c.output_signal == Some(table.signals@[out_symbol as int])
    &&& c.copy_count_from_input == copy_count_from_input
}

/// `after` is `before` but for its wires.
pub open spec fn same_but_wires(before: Entity, after: Entity) -> bool {
    &&& after.entity_number == before.entity_number
    &&& after.name == before.name
    &&& after.position == before.position
    &&& after.direction == before.direction
    &&& after.control_behavior == before.control_behavior
}

/// Adds one wire at one circuit of the entity at index `at`.
fn attach(entities: &mut Vec<Entity>, at: usize, circuit: u32, red: bool, wire: Connection)
    requires
        at < old(entities)@.len(),
        circuit == 1 || circuit == 2,
    ensures
        wire_attached(old(entities)@, final(entities)@, at as int, circuit, red, wire),
{
    if circuit == 1 {
        entities[at].circuit_one.add(red, wire);
    } else {
        entities[at].circuit_two.add(red, wire);
    }
}

/// `after` is `before` with `wire` added at circuit `circuit` of entity
/// `at`, in the list of the given colour.
pub open spec fn wire_attached(
    before: Seq<Entity>,
    after: Seq<Entity>,
    at: int,
    circuit: u32,
    red: bool,
    wire: Connection,
) -> bool {
    &&& after.len() == before.len()
    &&& 0 <= at < before.len()
    &&& forall|k: int| 0 <= k < before.len() && k != at ==> after[k] == before[k]
    &&& same_but_wires(before[at], after[at])
    &&& forall|c: u32, r: bool| #[trigger]
        after[at].wires(c, r) == if c == circuit && r == red {
            before[at].wires(c, r).push(wire)
        } else {
            before[at].wires(c, r)
        }
}

/// A wire added leaves every wire that was there in its place.
proof fn lemma_attach_keeps(
    before: Seq<Entity>,
    after: Seq<Entity>,
    at: int,
    circuit: u32,
    red: bool,
    wire: Connection,
)
    requires
        wire_attached(before, after, at, circuit, red, wire),
    ensures
        forall|k: int| 0 <= k < before.len() ==> same_but_wires(before[k], #[trigger] after[k]),
        forall|k: int, c: u32, r: bool|
            0 <= k < before.len() ==> #[trigger] after[k].wires(c, r) == if k == at && c
                == circuit && r == red {
                before[k].wires(c, r).push(wire)
            } else {
                before[k].wires(c, r)
            },
        forall|from: int, c: u32, r: bool, to: u32, to_circuit: u32|
            0 <= from < before.len() && has_wire(before, from, c, r, to, to_circuit)
                ==> #[trigger] has_wire(after, from, c, r, to, to_circuit),
        has_wire(after, at, circuit, red, wire.entity_id, wire.circuit_id->Some_0)
            || wire.circuit_id is None,
{
    assert forall|k: int, c: u32, r: bool| 0 <= k < before.len() implies #[trigger] after[k].wires(
        c,
        r,
    ) == if k == at && c == circuit && r == red {
        before[k].wires(c, r).push(wire)
    } else {
        before[k].wires(c, r)
    } by {
        if k != at {
            assert(after[k] == before[k]);
        }
    }
    assert forall|from: int, c: u32, r: bool, to: u32, to_circuit: u32|
        0 <= from < before.len() && has_wire(
            before,
            from,
            c,
            r,
            to,
            to_circuit,
        ) implies #[trigger] has_wire(after, from, c, r, to, to_circuit) by {
        let q = choose|q: int|
            0 <= q < before[from].wires(c, r).len() && #[trigger] before[from].wires(c, r)[q] == (
            Connection { entity_id: to, circuit_id: Some(to_circuit) });
        assert(after[from].wires(c, r)[q] == (
        Connection { entity_id: to, circuit_id: Some(to_circuit) }));
    }
    if wire.circuit_id is Some {
        let last = before[at].wires(circuit, red).len() as int;
        assert(after[at].wires(circuit, red)[last] == wire);
    }
}

/// Two wires added, each the other's way back, leave symmetric wires
/// symmetric.
proof fn lemma_link_keeps_symmetry(
    before: Seq<Entity>,
    mid: Seq<Entity>,
    after: Seq<Entity>,
    ia: int,
    ib: int,
    a_circuit: u32,
    b_circuit: u32,
    red: bool,
)
    requires
        wires_symmetric(before),
        before.len() <= u32::MAX,
        wire_attached(
            before,
            mid,
            ia,
            a_circuit,
            red,
            Connection { entity_id: (ib + 1) as u32, circuit_id: Some(b_circuit) },
        ),
        wire_attached(
            mid,
            after,
            ib,
            b_circuit,
            red,
            Connection { entity_id: (ia + 1) as u32, circuit_id: Some(a_circuit) },
        ),
    ensures
        wires_symmetric(after),
{
    reveal(wires_symmetric);
    let to_b = Connection { entity_id: (ib + 1) as u32, circuit_id: Some(b_circuit) };
    let to_a = Connection { entity_id: (ia + 1) as u32, circuit_id: Some(a_circuit) };
    lemma_attach_keeps(before, mid, ia, a_circuit, red, to_b);
    lemma_attach_keeps(mid, after, ib, b_circuit, red, to_a);
    assert(has_wire(after, ia, a_circuit, red, (ib + 1) as u32, b_circuit));
    assert(has_wire(after, ib, b_circuit, red, (ia + 1) as u32, a_circuit));
    assert forall|from: int, circuit: u32, color: bool, k: int|
        0 <= from < after.len() && 0 <= k < after[from].wires(circuit, color).len() implies {
        let wire = #[trigger] after[from].wires(circuit, color)[k];
        &&& wire.circuit_id is Some
        &&& 1 <= wire.entity_id <= after.len()
        &&& has_wire(
            after,
            wire.entity_id - 1,
            wire.circuit_id->Some_0,
            color,
            (from + 1) as u32,
            circuit,
        )
    } by {
        let wire = after[from].wires(circuit, color)[k];
        let old_list = before[from].wires(circuit, color);
        let mid_list = mid[from].wires(circuit, color);
        if k < old_list.len() {
            assert(mid_list[k] == old_list[k]);
            assert(wire == old_list[k]);
            assert(has_wire(
                before,
                wire.entity_id - 1,
                wire.circuit_id->Some_0,
                color,
                (from + 1) as u32,
                circuit,
            ));
            assert(has_wire(
                mid,
                wire.entity_id - 1,
                wire.circuit_id->Some_0,
                color,
                (from + 1) as u32,
                circuit,
            ));
        } else if k < mid_list.len() {
            assert(from == ia && circuit == a_circuit && color == red);
            assert(wire == to_b);
        } else {
            assert(from == ib && circuit == b_circuit && color == red);
            assert(wire == to_a);
        }
    }
}

/// The wires of one colour at circuit `c` of the entity of index `k`, after
/// a wire of colour `red` was recorded between circuit `a_circuit` of
/// entity `a` and circuit `b_circuit` of entity `b`: first at `a`, then at
/// `b`.
pub open spec fn wired(
    list: Seq<Connection>,
    k: int,
    c: u32,
    r: bool,
    a: int,
    a_circuit: u32,
    b: int,
    b_circuit: u32,
    red: bool,
) -> Seq<Connection> {
    let at_a = if k == a && c == a_circuit && r == red {
        list.push(Connection { entity_id: (b + 1) as u32, circuit_id: Some(b_circuit) })
    } else {
        list
    };
    if k == b && c == b_circuit && r == red {
        at_a.push(Connection { entity_id: (a + 1) as u32, circuit_id: Some(a_circuit) })
    } else {
        at_a
    }
}

impl BlueprintBuilder {
    /// Records a wire of the given colour between two entities, at both of
    /// them: at each, under the circuit that the wire attaches to, the
    /// number of the other entity and its circuit.
    pub fn add_link(&mut self, red: bool, a: (usize, ConnectType), b: (usize, ConnectType))
        requires
            old(self).wf(),
            1 <= a.0 <= old(self).entities@.len(),
            1 <= b.0 <= old(self).entities@.len(),
        ensures
            final(self).wf(),
            final(self).kinds == old(self).kinds,
            final(self).entities@.len() == old(self).entities@.len(),
            forall|k: int|
                0 <= k < old(self).entities@.len() ==> same_but_wires(
                    old(self).entities@[k],
                    #[trigger] final(self).entities@[k],
                ),
            has_wire(
                final(self).entities@,
                a.0 - 1,
                circuit_id(old(self).kinds@[a.0 - 1], a.1),
                red,
                b.0 as u32,
                circuit_id(old(self).kinds@[b.0 - 1], b.1),
            ),
            has_wire(
                final(self).entities@,
                b.0 - 1,
                circuit_id(old(self).kinds@[b.0 - 1], b.1),
                red,
                a.0 as u32,
                circuit_id(old(self).kinds@[a.0 - 1], a.1),
            ),
            forall|k: int, c: u32, r: bool|
                0 <= k < old(self).entities@.len() ==> #[trigger] final(self).entities@[k].wires(
                    c,
                    r,
                ) == wired(
                    old(self).entities@[k].wires(c, r),
                    k,
                    c,
                    r,
                    a.0 - 1,
                    circuit_id(old(self).kinds@[a.0 - 1], a.1),
                    b.0 - 1,
                    circuit_id(old(self).kinds@[b.0 - 1], b.1),
                    red,
                ),
    {
        let a_circuit = get_circuit_id(self.kinds[a.0 - 1], a.1);
        let b_circuit = get_circuit_id(self.kinds[b.0 - 1], b.1);
        let ghost before = self.entities@;
        let to_b = Connection { entity_id: b.0 as u32, circuit_id: Some(b_circuit) };
        let to_a = Connection { entity_id: a.0 as u32, circuit_id: Some(a_circuit) };
        attach(&mut self.entities, a.0 - 1, a_circuit, red, to_b);
        let ghost mid = self.entities@;
        attach(&mut self.entities, b.0 - 1, b_circuit, red, to_a);
        proof {
            let after = self.entities@;
            lemma_attach_keeps(before, mid, a.0 - 1, a_circuit, red, to_b);
            lemma_attach_keeps(mid, after, b.0 - 1, b_circuit, red, to_a);
            lemma_link_keeps_symmetry(
                before,
                mid,
                after,
                a.0 - 1,
                b.0 - 1,
                a_circuit,
                b_circuit,
                red,
            );
            assert forall|k: int| 0 <= k < before.len() implies same_but_wires(
                before[k],
                #[trigger] after[k],
            ) by {
                assert(same_but_wires(before[k], mid[k]));
                assert(same_but_wires(mid[k], after[k]));
            }
            assert forall|k: int| 0 <= k < after.len() implies (#[trigger] after[k]).entity_number
                == k + 1 by {
                assert(same_but_wires(before[k], after[k]));
                assert(before[k].entity_number == k + 1);
            }
            assert forall|k: int| 0 <= k < after.len() implies (#[trigger] after[k]).name@
                == self.kinds@[k].spec_name() by {
                assert(same_but_wires(before[k], after[k]));
            }
            assert forall|k: int, c: u32, r: bool| 0 <= k < before.len() implies #[trigger] after[k].wires(
                c,
                r,
            ) == wired(
                before[k].wires(c, r),
                k,
                c,
                r,
                a.0 - 1,
                a_circuit,
                b.0 - 1,
                b_circuit,
                red,
            ) by {
                assert(mid[k].wires(c, r) == if k == a.0 - 1 && c == a_circuit && r == red {
                    before[k].wires(c, r).push(to_b)
                } else {
                    before[k].wires(c, r)
                });
            }
        }
    }
}

/// The number of entities that the first `i` nodes become.
pub open spec fn entity_index(g: Seq<Node>, i: int) -> int
    decreases i,
{
    if i <= 0 {
        0
    } else {
        entity_index(g, i - 1) + if g[i - 1].is_entity() {
            1int
        } else {
            0int
        }
    }
}

/// The operand as a combinator reads it: the symbol of the node that a link
/// points to, or the number.
pub open spec fn operand_of(arg: IRArg, symbols: Seq<u32>) -> SymbolOrConstant {
    match arg {
        IRArg::Link(id, _) => SymbolOrConstant::Symbol(symbols[id as int]),
        IRArg::Constant(n) => SymbolOrConstant::Constant(n),
    }
}

/// The kind of entity that a node becomes.
pub open spec fn kind_of(node: Node) -> EntityKind {
    match node {
        Node::Output(_, IRArg::Link(_, _)) => EntityKind::MediumElectricPole,
        Node::BinOp(_, op, _) => if op.spec_is_compare() {
            EntityKind::DeciderCombinator
        } else {
            EntityKind::ArithmeticCombinator
        },
        Node::BinOpSame(_, _) => EntityKind::ArithmeticCombinator,
        Node::BinOpCmpGate(_, _, _, _) => EntityKind::DeciderCombinator,
        _ => EntityKind::ConstantCombinator,
    }
}

/// A node that cannot be emitted: a gate that was not lowered, a slot that
/// was not filled, or a comparison with a number on its left.
pub open spec fn unemittable(node: Node) -> bool {
    ||| node is Gate
    ||| node is PlaceHolder
    ||| (node is BinOp && node->BinOp_1.spec_is_compare() && !(node->BinOp_0 is Link))
    ||| (node is BinOpCmpGate && !(node->BinOpCmpGate_0 is Link))
}

/// The entity is a constant combinator with the one line `count` of
/// `signal`.
pub open spec fn constant_is(e: Entity, signal: Signal, count: i32) -> bool {
    &&& e.control_behavior.arithmetic_conditions is None
    &&& e.control_behavior.decider_conditions is None
    &&& e.control_behavior.filters is Some
    &&& e.control_behavior.filters->Some_0@ == seq![Filter { index: 1, count, signal }]
}

/// The entity is what node `i` becomes: of the node's kind, drawn where the
/// node sits, facing south, and set as the node asks. An input puts out
/// nothing of its symbol, a constant its number; an output that holds a
/// number puts it out as the first symbol, any other output is a pole; a
/// comparison tests its left symbol and puts out 1, a lowered gate does so
/// and lets the count through; any other operator is arithmetic.
#[verifier::opaque]
pub open spec fn describes(
    e: Entity,
    g: Seq<Node>,
    i: int,
    symbols: Seq<u32>,
    table: &SymbolTable,
    grid: &Grid,
) -> bool {
    let pos = true_pos(g[i], grid.position(i)->Some_0);
    &&& e.name@ == kind_of(g[i]).spec_name()
    &&& e.position.x == pos.0
    &&& e.position.y == pos.1
    &&& e.direction == 4
    &&& match g[i] {
        Node::Input(_) => constant_is(e, table.signals@[symbols[i] as int], 0),
        Node::Constant(n) => constant_is(e, table.signals@[symbols[i] as int], n),
        Node::Output(_, IRArg::Constant(n)) => constant_is(e, table.signals@[0], n),
        Node::Output(_, IRArg::Link(_, _)) => {
            &&& e.control_behavior.arithmetic_conditions is None
            &&& e.control_behavior.decider_conditions is None
            &&& e.control_behavior.filters is None
        },
        Node::BinOp(l, op, r) => if op.spec_is_compare() {
            &&& e.control_behavior.decider_conditions is Some
            &&& e.control_behavior.arithmetic_conditions is None
            &&& e.control_behavior.filters is None
            &&& decider_is(
                e.control_behavior.decider_conditions->Some_0,
                op.token(),
                symbols[l->Link_0 as int],
                operand_of(r, symbols),
                symbols[i],
                false,
                table,
            )
        } else {
            &&& e.control_behavior.arithmetic_conditions is Some
            &&& e.control_behavior.decider_conditions is None
            &&& e.control_behavior.filters is None
            &&& arithmetic_is(
                e.control_behavior.arithmetic_conditions->Some_0,
                op.token(),
                operand_of(l, symbols),
                operand_of(r, symbols),
                symbols[i],
                table,
            )
        },
        Node::BinOpSame(arg, op) => {
            &&& e.control_behavior.arithmetic_conditions is Some
            &&& e.control_behavior.decider_conditions is None
            &&& e.control_behavior.filters is None
            &&& arithmetic_is(
                e.control_behavior.arithmetic_conditions->Some_0,
                op.token(),
                operand_of(arg, symbols),
                operand_of(arg, symbols),
                symbols[i],
                table,
            )
        },
        Node::BinOpCmpGate(l, op, k, _) => {
            &&& e.control_behavior.decider_conditions is Some
            &&& e.control_behavior.arithmetic_conditions is None
            &&& e.control_behavior.filters is None
            &&& decider_is(
                e.control_behavior.decider_conditions->Some_0,
                op.token(),
                symbols[l->Link_0 as int],
                SymbolOrConstant::Constant(k),
                symbols[i],
                true,
                table,
            )
        },
        _ => true,
    }
}

/// The first pole column or row that is needed to cover everything from
/// `min` on, in half cells: poles stand every 36 half cells, the one of
/// index 0 at 1, and each covers 18 half cells to either side.
pub open spec fn pole_start(min: int) -> int {
    if min >= -17 {
        0
    } else {
        (min + 17) / 36
    }
}

/// The last pole column or row that is needed to cover everything up to
/// `max`.
pub open spec fn pole_end(max: int) -> int {
    if max <= 19 {
        0
    } else {
        (max + 16) / 36
    }
}

fn pole_start_of(min: i64) -> (r: i64)
    requires
        -0x1_0000_0000_0000 <= min,
    ensures
        r == pole_start(min as int),
        r <= 0,
        36 * r - 17 <= min,
        r == 0 || 36 * (r + 1) - 17 > min,
        -0x1_0000_0000_0000 <= r,
{
    if min >= -17 {
        0
    } else {
        match (min + 17).checked_div_euclid(36) {
            Some(q) => q,
            None => 0,
        }
    }
}

fn pole_end_of(max: i64) -> (r: i64)
    requires
        max <= 0x1_0000_0000_0000,
    ensures
        r == pole_end(max as int),
        r >= 0,
        36 * r + 19 >= max,
        r == 0 || 36 * (r - 1) + 19 < max,
        r <= 0x1_0000_0000_0000,
{
    if max <= 19 {
        0
    } else {
        (max + 16) / 36
    }
}

/// The number of the entity that node `i` becomes.
pub open spec fn entity_of(g: Seq<Node>, i: int) -> int {
    entity_index(g, i) + 1
}

/// Every symbol is one of the table.
pub open spec fn symbols_known(symbols: Seq<u32>, table: &SymbolTable) -> bool {
    forall|i: int| 0 <= i < symbols.len() ==> #[trigger] symbols[i] < table.spec_len()
}

/// Some node cannot be emitted.
pub open spec fn has_unemittable(g: Seq<Node>) -> bool {
    exists|i: int| 0 <= i < g.len() && unemittable(#[trigger] g[i])
}

/// Why a wire cannot be emitted, if it cannot: its colour is not chosen, or
/// one of its ends is no entity.
pub open spec fn link_error(g: Seq<Node>, link: WireLink) -> Option<CompileError> {
    if link.color is Unknown {
        Some(CompileError::EmitInvalid)
    } else if link.a.0 >= g.len() || link.b.0 >= g.len() || !g[link.a.0 as int].is_entity()
        || !g[link.b.0 as int].is_entity() {
        Some(CompileError::ParseLink)
    } else {
        None
    }
}

/// The first error among the wires `links[..k]`.
pub open spec fn first_link_error(g: Seq<Node>, links: Seq<WireLink>, k: int) -> Option<
    CompileError,
>
    decreases k,
{
    if k <= 0 {
        None
    } else {
        match first_link_error(g, links, k - 1) {
            Some(e) => Some(e),
            None => link_error(g, links[k - 1]),
        }
    }
}

/// The entities from index `base` on are the substations of columns `x0` to
/// `x1` and rows 0 to `y1`, row by row.
pub open spec fn poles_from(entities: Seq<Entity>, base: int, x0: int, x1: int, y1: int) -> bool {
    &&& entities.len() == base + (x1 - x0 + 1) * (y1 + 1)
    &&& forall|x: int, y: int|
        x0 <= x <= x1 && 0 <= y <= y1 ==> {
            let e = #[trigger] entities[base + y * (x1 - x0 + 1) + (x - x0)];
            &&& e.name@ == EntityKind::Substation.spec_name()
            &&& e.position.x == 1 + 36 * x
            &&& e.position.y == 1 + 36 * y
            &&& e.direction == 4
            &&& e.bare()
        }
}

/// The least and the greatest coordinates of the entities, in half cells;
/// the greatest and the least number where there is no entity.
pub open spec fn bounds_of(entities: Seq<Entity>, k: int) -> (int, int, int, int)
    decreases k,
{
    if k <= 0 {
        (i64::MAX as int, i64::MAX as int, i64::MIN as int, i64::MIN as int)
    } else {
        let b = bounds_of(entities, k - 1);
        let p = entities[k - 1].position;
        (
            if p.x < b.0 {
                p.x as int
            } else {
                b.0
            },
            if p.y < b.1 {
                p.y as int
            } else {
                b.1
            },
            if p.x > b.2 {
                p.x as int
            } else {
                b.2
            },
            if p.y > b.3 {
                p.y as int
            } else {
                b.3
            },
        )
    }
}

impl BlueprintBuilder {
    /// The least x, the least y, the greatest x and the greatest y of the
    /// entities.
    pub fn get_bounds(&self) -> (r: [i64; 4])
        ensures
            (r[0] as int, r[1] as int, r[2] as int, r[3] as int) == bounds_of(
                self.entities@,
                self.entities@.len() as int,
            ),
    {
        let mut min_x = i64::MAX;
        let mut min_y = i64::MAX;
        let mut max_x = i64::MIN;
        let mut max_y = i64::MIN;
        let mut k: usize = 0;
        while k < self.entities.len()
            invariant
                k <= self.entities@.len(),
                (min_x as int, min_y as int, max_x as int, max_y as int) == bounds_of(
                    self.entities@,
                    k as int,
                ),
            decreases self.entities@.len() - k,
        {
            let p = self.entities[k].position;
            if p.x < min_x {
                min_x = p.x;
            }
            if p.y < min_y {
                min_y = p.y;
            }
            if p.x > max_x {
                max_x = p.x;
            }
            if p.y > max_y {
                max_y = p.y;
            }
            k = k + 1;
        }
        [min_x, min_y, max_x, max_y]
    }
}

/// The operand as a combinator reads it.
pub fn get_arg_symbol_or_const(symbols: &Vec<u32>, arg: &IRArg) -> (r: SymbolOrConstant)
    requires
        arg.in_range(symbols@.len()),
    ensures
        r == operand_of(*arg, symbols@),
{
    match arg {
        IRArg::Link(id, _) => SymbolOrConstant::Symbol(symbols[*id as usize]),
        IRArg::Constant(n) => SymbolOrConstant::Constant(*n),
    }
}

/// Each of the first `i` nodes that becomes an entity has its entity, in
/// order and as `describes` says.
pub open spec fn entities_described(
    entities: Seq<Entity>,
    kinds: Seq<EntityKind>,
    g: Seq<Node>,
    i: int,
    symbols: Seq<u32>,
    table: &SymbolTable,
    grid: &Grid,
) -> bool {
    forall|q: int|
        0 <= q < i && q < g.len() && (#[trigger] g[q]).is_entity() ==> {
            &&& 0 <= entity_index(g, q) < entities.len()
            &&& entity_index(g, q) < kinds.len()
            &&& describes(entities[entity_index(g, q)], g, q, symbols, table, grid)
            &&& kinds[entity_index(g, q)] == kind_of(g[q])
        }
}

/// No entity has a wire.
pub open spec fn all_bare(entities: Seq<Entity>) -> bool {
    forall|e: int| 0 <= e < entities.len() ==> (#[trigger] entities[e]).bare()
}

/// What the emission of nodes has reached before node `i`: one entity for
/// each node that becomes one, in order and as `describes` says, and none
/// of them wired.
pub open spec fn nodes_emitted(
    builder: &BlueprintBuilder,
    g: Seq<Node>,
    i: int,
    symbols: Seq<u32>,
    table: &SymbolTable,
    grid: &Grid,
) -> bool {
    &&& builder.wf()
    &&& builder.entities@.len() == entity_index(g, i)
    &&& entities_described(builder.entities@, builder.kinds@, g, i, symbols, table, grid)
    &&& forall|q: int| 0 <= q < i && q < g.len() ==> !unemittable(#[trigger] g[q])
    &&& all_bare(builder.entities@)
}

/// The count of entities grows with the nodes, by at most one each.
proof fn lemma_entity_index_bounds(g: Seq<Node>, i: int, j: int)
    requires
        0 <= i <= j,
    ensures
        0 <= entity_index(g, i) <= entity_index(g, j) <= j,
        entity_index(g, i) <= i,
        i < j && g[i].is_entity() ==> entity_index(g, i) < entity_index(g, j),
    decreases j,
{
    if i < j {
        lemma_entity_index_bounds(g, i, j - 1);
    } else if i > 0 {
        lemma_entity_index_bounds(g, i - 1, j - 1);
    }
}

/// One entity more, for node `i`, leaves the entities described.
proof fn lemma_described_grows(
    before: Seq<Entity>,
    kinds_before: Seq<EntityKind>,
    after: Seq<Entity>,
    kinds_after: Seq<EntityKind>,
    g: Seq<Node>,
    i: int,
    symbols: Seq<u32>,
    table: &SymbolTable,
    grid: &Grid,
)
    requires
        0 <= i < g.len(),
        before.len() == entity_index(g, i),
        kinds_before.len() == before.len(),
        entities_described(before, kinds_before, g, i, symbols, table, grid),
        all_bare(before),
        if g[i].is_entity() {
            &&& after.len() == before.len() + 1
            &&& kinds_after == kinds_before.push(kind_of(g[i]))
            &&& forall|k: int| 0 <= k < before.len() ==> after[k] == before[k]
            &&& after[before.len() as int].bare()
            &&& describes(after[before.len() as int], g, i, symbols, table, grid)
        } else {
            after == before && kinds_after == kinds_before
        },
    ensures
        after.len() == entity_index(g, i + 1),
        entities_described(after, kinds_after, g, i + 1, symbols, table, grid),
        all_bare(after),
{
    assert forall|q: int| 0 <= q < i + 1 && q < g.len() && (#[trigger] g[q]).is_entity() implies {
        &&& 0 <= entity_index(g, q) < after.len()
        &&& entity_index(g, q) < kinds_after.len()
        &&& describes(after[entity_index(g, q)], g, q, symbols, table, grid)
        &&& kinds_after[entity_index(g, q)] == kind_of(g[q])
    } by {
        if q < i {
            let at = entity_index(g, q);
            assert(0 <= at < before.len());
            assert(at < kinds_before.len());
            assert(after[at] == before[at]);
            assert(kinds_after[at] == kinds_before[at]);
        }
    }
    assert forall|e: int| 0 <= e < after.len() implies (#[trigger] after[e]).bare() by {
        if e < before.len() {
            assert(before[e].bare());
            assert(after[e] == before[e]);
        }
    }
}

/// One node more is emitted.
proof fn lemma_node_emitted(
    before: &BlueprintBuilder,
    after: &BlueprintBuilder,
    g: Seq<Node>,
    i: int,
    symbols: Seq<u32>,
    table: &SymbolTable,
    grid: &Grid,
)
    requires
        0 <= i < g.len(),
        nodes_emitted(before, g, i, symbols, table, grid),
        node_added(before, after, g, i, symbols, table, grid),
    ensures
        nodes_emitted(after, g, i + 1, symbols, table, grid),
{
    lemma_described_grows(
        before.entities@,
        before.kinds@,
        after.entities@,
        after.kinds@,
        g,
        i,
        symbols,
        table,
        grid,
    );
}

/// `after` is `before` with the entity of node `i` added, if the node
/// becomes one.
pub open spec fn node_added(
    before: &BlueprintBuilder,
    after: &BlueprintBuilder,
    g: Seq<Node>,
    i: int,
    symbols: Seq<u32>,
    table: &SymbolTable,
    grid: &Grid,
) -> bool {
    &&& after.wf()
    &&& !unemittable(g[i])
    &&& if g[i].is_entity() {
        &&& after.entities@.len() == before.entities@.len() + 1
        &&& after.kinds@ == before.kinds@.push(kind_of(g[i]))
        &&& forall|k: int|
            0 <= k < before.entities@.len() ==> after.entities@[k] == before.entities@[k]
        &&& after.entities@[before.entities@.len() as int].bare()
        &&& describes(
            after.entities@[before.entities@.len() as int],
            g,
            i,
            symbols,
            table,
            grid,
        )
    } else {
        after.entities@ == before.entities@ && after.kinds@ == before.kinds@
    }
}

/// Emits node `i`. Returns the number of its entity, or 0 where it becomes
/// none; `EmitInvalid` where it cannot be emitted.
fn emit_node(
    builder: &mut BlueprintBuilder,
    nodes: &Vec<IRNode>,
    grid: &Grid,
    symbols: &Vec<u32>,
    table: &SymbolTable,
    i: usize,
) -> (r: Result<usize, CompileError>)
    requires
        i < nodes@.len(),
        graph_wf(graph_of(nodes@)),
        placed(graph_of(nodes@), grid),
        symbols@.len() == nodes@.len(),
        symbols_known(symbols@, table),
        old(builder).wf(),
        old(builder).entities@.len() <= i,
    ensures
        match r {
            Ok(id) => node_added(old(builder), final(builder), graph_of(nodes@), i as int, symbols@, table, grid)
                && id == if graph_of(nodes@)[i as int].is_entity() {
                final(builder).entities@.len()
            } else {
                0
            },
            Err(e) => e == CompileError::EmitInvalid && unemittable(graph_of(nodes@)[i as int]),
        },
{
    let ghost g = graph_of(nodes@);
    proof {
        reveal(describes);
        assert(g[i as int].links_in_range(g.len()));
        assert(symbols@[i as int] < table.spec_len());
    }
    let own = symbols[i];
    match &nodes[i] {
        IRNode::Input(_) => {
            let pos = get_true_pos(nodes, grid, i as u32).unwrap();
            Ok(builder.add_constant(pos, signal_from_symbol_index(table, own), 0))
        },
        IRNode::Constant(x) => {
            let pos = get_true_pos(nodes, grid, i as u32).unwrap();
            Ok(builder.add_constant(pos, signal_from_symbol_index(table, own), *x))
        },
        IRNode::Output(_, arg) => {
            let pos = get_true_pos(nodes, grid, i as u32).unwrap();
            match arg {
                IRArg::Constant(n) => Ok(
                    builder.add_constant(pos, signal_from_symbol_index(table, 0), *n),
                ),
                IRArg::Link(_, _) => Ok(builder.add_pole(pos, false)),
            }
        },
        IRNode::BinOp(lhs, op, rhs) => emit_operator(
            builder,
            nodes,
            grid,
            symbols,
            table,
            i,
            *lhs,
            *op,
            *rhs,
        ),
        IRNode::BinOpSame(arg, op) => {
            assert(g[i as int].args()[0] == *arg);
            assert(arg is Link ==> symbols@[arg->Link_0 as int] < table.spec_len());
            let pos = get_true_pos(nodes, grid, i as u32).unwrap();
            let value = get_arg_symbol_or_const(symbols, arg);
            Ok(builder.add_arithmetic(pos, op.to_str().to_owned(), value, value, own, table))
        },
        IRNode::BinOpCmpGate(lhs, op, k, _) => {
            assert(g[i as int].args()[0] == *lhs);
            assert(lhs is Link ==> symbols@[lhs->Link_0 as int] < table.spec_len());
            let pos = get_true_pos(nodes, grid, i as u32).unwrap();
            match lhs {
                IRArg::Link(lhs_id, _) => Ok(
                    builder.add_decider(
                        pos,
                        op.to_str().to_owned(),
                        symbols[*lhs_id as usize],
                        SymbolOrConstant::Constant(*k),
                        own,
                        true,
                        table,
                    ),
                ),
                IRArg::Constant(_) => Err(CompileError::EmitInvalid),
            }
        },
        IRNode::Gate(_, _, _) => Err(CompileError::EmitInvalid),
        IRNode::PlaceHolder => Err(CompileError::EmitInvalid),
        _ => Ok(0),
    }
}

/// Emits the operator node `i`: a decider for a comparison, else an
/// arithmetic combinator.
fn emit_operator(
    builder: &mut BlueprintBuilder,
    nodes: &Vec<IRNode>,
    grid: &Grid,
    symbols: &Vec<u32>,
    table: &SymbolTable,
    i: usize,
    lhs: IRArg,
    op: crate::common::BinOp,
    rhs: IRArg,
) -> (r: Result<usize, CompileError>)
    requires
        i < nodes@.len(),
        graph_of(nodes@)[i as int] == Node::BinOp(lhs, op, rhs),
        graph_wf(graph_of(nodes@)),
        placed(graph_of(nodes@), grid),
        symbols@.len() == nodes@.len(),
        symbols_known(symbols@, table),
        old(builder).wf(),
        old(builder).entities@.len() <= i,
    ensures
        match r {
            Ok(id) => node_added(old(builder), final(builder), graph_of(nodes@), i as int, symbols@, table, grid)
                && id == final(builder).entities@.len(),
            Err(e) => e == CompileError::EmitInvalid && unemittable(graph_of(nodes@)[i as int]),
        },
{
    let ghost g = graph_of(nodes@);
    proof {
        reveal(describes);
        assert(g[i as int].links_in_range(g.len()));
        assert(g[i as int].args()[0] == lhs && g[i as int].args()[1] == rhs);
        assert(symbols@[i as int] < table.spec_len());
        assert(rhs is Link ==> symbols@[rhs->Link_0 as int] < table.spec_len());
        assert(lhs is Link ==> symbols@[lhs->Link_0 as int] < table.spec_len());
    }
    let own = symbols[i];
    let pos = get_true_pos(nodes, grid, i as u32).unwrap();
    if !op.is_compare() {
        Ok(
            builder.add_arithmetic(
                pos,
                op.to_str().to_owned(),
                get_arg_symbol_or_const(symbols, &lhs),
                get_arg_symbol_or_const(symbols, &rhs),
                own,
                table,
            ),
        )
    } else {
        match lhs {
            IRArg::Link(lhs_id, _) => Ok(
                builder.add_decider(
                    pos,
                    op.to_str().to_owned(),
                    symbols[lhs_id as usize],
                    get_arg_symbol_or_const(symbols, &rhs),
                    own,
                    false,
                    table,
                ),
            ),
            IRArg::Constant(_) => Err(CompileError::EmitInvalid),
        }
    }
}

/// Whether every symbol is one of the table.
fn check_symbols(symbols: &Vec<u32>, table: &SymbolTable) -> (r: bool)
    ensures
        r == symbols_known(symbols@, table),
{
    let n = table.len();
    let mut i: usize = 0;
    while i < symbols.len()
        invariant
            i <= symbols@.len(),
            n == table.spec_len(),
            forall|q: int| 0 <= q < i ==> #[trigger] symbols@[q] < table.spec_len(),
        decreases symbols@.len() - i,
    {
        if symbols[i] as usize >= n {
            return false;
        }
        i = i + 1;
    }
    true
}

/// The wires of one colour that the first `k` wires of the module leave at
/// circuit `c` of the entity of index `e`, in the order of the wires.
pub open spec fn link_wires(
    g: Seq<Node>,
    links: Seq<WireLink>,
    k: int,
    e: int,
    c: u32,
    r: bool,
) -> Seq<Connection>
    decreases k,
{
    if k <= 0 {
        seq![]
    } else {
        let link = links[k - 1];
        wired(
            link_wires(g, links, k - 1, e, c, r),
            e,
            c,
            r,
            entity_index(g, link.a.0 as int),
            circuit_id(kind_of(g[link.a.0 as int]), link.a.1),
            entity_index(g, link.b.0 as int),
            circuit_id(kind_of(g[link.b.0 as int]), link.b.1),
            link.color is Red,
        )
    }
}

/// What the emission of wires has reached before wire `k`: the entities are
/// those of the nodes but for their wires, and the wires of each are those
/// that the wires so far leave.
pub open spec fn links_emitted(
    builder: &BlueprintBuilder,
    nodes_done: &BlueprintBuilder,
    g: Seq<Node>,
    links: Seq<WireLink>,
    k: int,
) -> bool {
    &&& builder.wf()
    &&& builder.kinds@ == nodes_done.kinds@
    &&& builder.entities@.len() == nodes_done.entities@.len()
    &&& forall|q: int|
        0 <= q < nodes_done.entities@.len() ==> same_but_wires(
            nodes_done.entities@[q],
            #[trigger] builder.entities@[q],
        )
    &&& first_link_error(g, links, k) is None
    &&& forall|e: int, c: u32, r: bool|
        0 <= e < builder.entities@.len() ==> #[trigger] builder.entities@[e].wires(c, r)
            == link_wires(g, links, k, e, c, r)
}

/// Adds the substations of columns `x0` to `x1` and rows 0 to `y1`.
/// `false` where the entities cannot be numbered in 32 bits.
fn add_poles(builder: &mut BlueprintBuilder, x0: i64, x1: i64, y1: i64) -> (r: bool)
    requires
        old(builder).wf(),
        -0x1_0000_0000_0000 <= x0 <= 0 <= x1 <= 0x1_0000_0000_0000,
        0 <= y1 <= 0x1_0000_0000_0000,
    ensures
        r ==> {
            &&& final(builder).wf()
            &&& poles_from(final(builder).entities@, old(builder).entities@.len() as int, x0 as int, x1 as int, y1 as int)
            &&& forall|k: int|
                0 <= k < old(builder).entities@.len() ==> final(builder).entities@[k]
                    == old(builder).entities@[k]
        },
        !r ==> old(builder).entities@.len() + (x1 - x0 + 1) * (y1 + 1) > u32::MAX,
{
    let ghost base = builder.entities@.len() as int;
    let ghost start = builder.entities@;
    let width: i64 = x1 - x0 + 1;
    let mut y: i64 = 0;
    while y <= y1
        invariant
            0 <= y <= y1 + 1,
            width == x1 - x0 + 1,
            width >= 1,
            base == start.len(),
            start == old(builder).entities@,
            -0x1_0000_0000_0000 <= x0 <= 0 <= x1 <= 0x1_0000_0000_0000,
            0 <= y1 <= 0x1_0000_0000_0000,
            builder.wf(),
            builder.entities@.len() == base + y * width,
            forall|k: int| 0 <= k < base ==> builder.entities@[k] == start[k],
            forall|px: int, py: int|
                x0 <= px <= x1 && 0 <= py < y ==> {
                    let e = #[trigger] builder.entities@[base + py * width + (px - x0)];
                    &&& e.name@ == EntityKind::Substation.spec_name()
                    &&& e.position.x == 1 + 36 * px
                    &&& e.position.y == 1 + 36 * py
                    &&& e.direction == 4
                    &&& e.bare()
                },
        decreases y1 + 1 - y,
    {
        let mut x: i64 = x0;
        while x <= x1
            invariant
                x0 <= x <= x1 + 1,
                0 <= y <= y1,
                width == x1 - x0 + 1,
                width >= 1,
                base == start.len(),
                start == old(builder).entities@,
                -0x1_0000_0000_0000 <= x0 <= 0 <= x1 <= 0x1_0000_0000_0000,
                0 <= y1 <= 0x1_0000_0000_0000,
                builder.wf(),
                builder.entities@.len() == base + y * width + (x - x0),
                forall|k: int| 0 <= k < base ==> builder.entities@[k] == start[k],
                forall|px: int, py: int|
                    x0 <= px <= x1 && 0 <= py <= y && (py < y || px < x) ==> {
                        let e = #[trigger] builder.entities@[base + py * width + (px - x0)];
                        &&& e.name@ == EntityKind::Substation.spec_name()
                        &&& e.position.x == 1 + 36 * px
                        &&& e.position.y == 1 + 36 * py
                        &&& e.direction == 4
                        &&& e.bare()
                    },
            decreases x1 + 1 - x,
        {
            if builder.entities.len() >= u32::MAX as usize {
                proof {
                    assert(y * width + (x - x0) < (x1 - x0 + 1) * (y1 + 1)) by (nonlinear_arith)
                        requires
                            0 <= y <= y1,
                            x0 <= x <= x1,
                            width == x1 - x0 + 1,
                    ;
                }
                return false;
            }
            let ghost before = builder.entities@;
            builder.add_pole((1 + 36 * x, 1 + 36 * y), true);
            proof {
                assert forall|px: int, py: int|
                    x0 <= px <= x1 && 0 <= py <= y && (py < y || px < x + 1) implies {
                    let e = #[trigger] builder.entities@[base + py * width + (px - x0)];
                    &&& e.name@ == EntityKind::Substation.spec_name()
                    &&& e.position.x == 1 + 36 * px
                    &&& e.position.y == 1 + 36 * py
                    &&& e.direction == 4
                    &&& e.bare()
                } by {
                    if py == y && px == x {
                    } else {
                        assert(py * width + (px - x0) < y * width + (x - x0)) by (nonlinear_arith)
                            requires
                                0 <= py <= y,
                                x0 <= px <= x1,
                                x0 <= x <= x1,
                                width == x1 - x0 + 1,
                                py < y || px < x,
                        ;
                        assert(py * width + (px - x0) >= 0) by (nonlinear_arith)
                            requires
                                0 <= py,
                                x0 <= px,
                                width >= 1,
                        ;
                        assert(builder.entities@[base + py * width + (px - x0)]
                            == before[base + py * width + (px - x0)]);
                    }
                }
                assert(y * width + (x - x0) >= 0) by (nonlinear_arith)
                    requires
                        0 <= y,
                        x0 <= x,
                        width >= 1,
                ;
            }
            x = x + 1;
        }
        proof {
            assert((y + 1) * width == y * width + width) by (nonlinear_arith);
        }
        y = y + 1;
    }
    proof {
        assert((y1 + 1) * width == (x1 - x0 + 1) * (y1 + 1)) by (nonlinear_arith)
            requires
                width == x1 - x0 + 1,
        ;
    }
    true
}

/// The least and the greatest coordinates at which the first `k` nodes are
/// drawn, in half cells; the greatest and the least number where none of
/// them is drawn.
pub open spec fn node_bounds(g: Seq<Node>, grid: &Grid, k: int) -> (int, int, int, int)
    decreases k,
{
    if k <= 0 {
        (i64::MAX as int, i64::MAX as int, i64::MIN as int, i64::MIN as int)
    } else {
        let b = node_bounds(g, grid, k - 1);
        if g[k - 1].is_entity() {
            let p = true_pos(g[k - 1], grid.position(k - 1)->Some_0);
            (
                if p.0 < b.0 {
                    p.0
                } else {
                    b.0
                },
                if p.1 < b.1 {
                    p.1
                } else {
                    b.1
                },
                if p.0 > b.2 {
                    p.0
                } else {
                    b.2
                },
                if p.1 > b.3 {
                    p.1
                } else {
                    b.3
                },
            )
        } else {
            b
        }
    }
}

/// The number of substations that cover the nodes.
pub open spec fn pole_count(g: Seq<Node>, grid: &Grid) -> int {
    let b = node_bounds(g, grid, g.len() as int);
    (pole_end(b.2) - pole_start(b.0) + 1) * (pole_end(b.3) + 1)
}

/// Why the module cannot be emitted, if it cannot: a symbol that the table
/// lacks is `Limit`; a node that cannot be emitted is `EmitInvalid`; then
/// the first error among the wires; then `Limit` where the entities cannot
/// be numbered in 32 bits.
pub open spec fn emit_error(m: &IRModule, table: &SymbolTable) -> Option<CompileError> {
    let g = m.graph();
    if !symbols_known(m.out_symbols@, table) {
        Some(CompileError::Limit)
    } else if has_unemittable(g) {
        Some(CompileError::EmitInvalid)
    } else if first_link_error(g, m.links@, m.links@.len() as int) is Some {
        first_link_error(g, m.links@, m.links@.len() as int)
    } else if entity_index(g, g.len() as int) + pole_count(g, &m.grid) > u32::MAX {
        Some(CompileError::Limit)
    } else {
        None
    }
}

/// The blueprint of the module: one entity for each node that becomes one,
/// in order and as `describes` says, with the wires that the wires of the
/// module leave at it; then the substations that cover them, without wires;
/// every entity numbered by its place, and the wires symmetric.
pub open spec fn emitted(bp: &Blueprint, m: &IRModule, table: &SymbolTable) -> bool {
    let g = m.graph();
    let count = entity_index(g, g.len() as int);
    let b = node_bounds(g, &m.grid, g.len() as int);
    &&& numbered(bp.entities@)
    &&& wires_symmetric(bp.entities@)
    &&& forall|i: int|
        0 <= i < g.len() && (#[trigger] g[i]).is_entity() ==> 0 <= entity_index(g, i)
            < bp.entities@.len() && describes(
            bp.entities@[entity_index(g, i)],
            g,
            i,
            m.out_symbols@,
            table,
            &m.grid,
        )
    &&& forall|e: int, c: u32, r: bool|
        0 <= e < count && e < bp.entities@.len() ==> #[trigger] bp.entities@[e].wires(c, r)
            == link_wires(g, m.links@, m.links@.len() as int, e, c, r)
    &&& poles_from(bp.entities@, count, pole_start(b.0), pole_end(b.2), pole_end(b.3))
}

/// The bounds depend on the places of the entities alone.
proof fn lemma_bounds_by_position(a: Seq<Entity>, b: Seq<Entity>, k: int)
    requires
        0 <= k <= a.len(),
        k <= b.len(),
        forall|q: int| 0 <= q < k ==> (#[trigger] a[q]).position == b[q].position,
    ensures
        bounds_of(a, k) == bounds_of(b, k),
    decreases k,
{
    if k > 0 {
        lemma_bounds_by_position(a, b, k - 1);
    }
}

/// The nodes are drawn within the range that 32-bit cells allow.
proof fn lemma_node_bounds_range(g: Seq<Node>, grid: &Grid, k: int)
    ensures
        ({
            let b = node_bounds(g, grid, k);
            &&& -0x4_0000_0000 <= b.0
            &&& -0x4_0000_0000 <= b.1
            &&& b.2 <= 0x4_0000_0000
            &&& b.3 <= 0x4_0000_0000
        }),
    decreases k,
{
    if k > 0 {
        lemma_node_bounds_range(g, grid, k - 1);
    }
}

/// For each node the number of its entity, or 0 where it becomes none.
pub open spec fn entity_ids(ids: Seq<usize>, g: Seq<Node>) -> bool {
    &&& ids.len() == g.len()
    &&& forall|q: int|
        0 <= q < g.len() ==> #[trigger] ids[q] == if g[q].is_entity() {
            entity_of(g, q)
        } else {
            0
        }
}

/// Emits the entities of all nodes. Returns them and, for each node, the
/// number of its entity; `EmitInvalid` where a node cannot be emitted.
fn emit_nodes(nodes: &Vec<IRNode>, grid: &Grid, symbols: &Vec<u32>, table: &SymbolTable) -> (r:
    Result<(BlueprintBuilder, Vec<usize>), CompileError>)
    requires
        graph_wf(graph_of(nodes@)),
        placed(graph_of(nodes@), grid),
        symbols@.len() == nodes@.len(),
        symbols_known(symbols@, table),
    ensures
        match r {
            Ok((builder, ids)) => {
                let g = graph_of(nodes@);
                &&& !has_unemittable(g)
                &&& nodes_emitted(&builder, g, g.len() as int, symbols@, table, grid)
                &&& entity_ids(ids@, g)
                &&& bounds_of(builder.entities@, builder.entities@.len() as int) == node_bounds(
                    g,
                    grid,
                    g.len() as int,
                )
            },
            Err(e) => e == CompileError::EmitInvalid && has_unemittable(graph_of(nodes@)),
        },
{
    let ghost g = graph_of(nodes@);
    let n = nodes.len();
    let mut builder = BlueprintBuilder::new();
    let mut ent_ids: Vec<usize> = Vec::with_capacity(n);
    let mut i: usize = 0;
    while i < n
        invariant
            i <= n,
            n == nodes@.len(),
            g == graph_of(nodes@),
            graph_wf(g),
            placed(g, grid),
            symbols@.len() == n,
            symbols_known(symbols@, table),
            nodes_emitted(&builder, g, i as int, symbols@, table, grid),
            ent_ids@.len() == i,
            forall|q: int|
                0 <= q < i ==> #[trigger] ent_ids@[q] == if g[q].is_entity() {
                    entity_of(g, q)
                } else {
                    0
                },
            bounds_of(builder.entities@, builder.entities@.len() as int) == node_bounds(
                g,
                grid,
                i as int,
            ),
        decreases n - i,
    {
        let ghost before = builder;
        proof {
            lemma_entity_index_bounds(g, i as int, i as int);
        }
        match emit_node(&mut builder, nodes, grid, symbols, table, i) {
            Err(e) => {
                assert(unemittable(g[i as int]));
                return Err(e);
            },
            Ok(id) => {
                proof {
                    reveal(describes);
                    lemma_node_emitted(&before, &builder, g, i as int, symbols@, table, grid);
                    if g[i as int].is_entity() {
                        lemma_bounds_by_position(
                            builder.entities@,
                            before.entities@,
                            before.entities@.len() as int,
                        );
                    }
                }
                ent_ids.push(id);
            },
        }
        i = i + 1;
    }
    Ok((builder, ent_ids))
}

/// Once a wire has an error, the first error stays.
proof fn lemma_link_error_stays(g: Seq<Node>, links: Seq<WireLink>, a: int, b: int)
    requires
        first_link_error(g, links, a) is Some,
        a <= b,
    ensures
        first_link_error(g, links, b) == first_link_error(g, links, a),
    decreases b - a,
{
    if a < b {
        lemma_link_error_stays(g, links, a, b - 1);
    }
}

/// Records all wires at their ends. The first error among the wires, if
/// there is one.
fn emit_links(
    builder: &mut BlueprintBuilder,
    ent_ids: &Vec<usize>,
    links: &Vec<WireLink>,
    Ghost(g): Ghost<Seq<Node>>,
) -> (r: Result<(), CompileError>)
    requires
        old(builder).wf(),
        all_bare(old(builder).entities@),
        entity_ids(ent_ids@, g),
        old(builder).entities@.len() == entity_index(g, g.len() as int),
        forall|q: int|
            0 <= q < g.len() && (#[trigger] g[q]).is_entity() ==> old(builder).kinds@[entity_index(
                g,
                q,
            )] == kind_of(g[q]),
    ensures
        match first_link_error(g, links@, links@.len() as int) {
            Some(e) => r == Err::<(), CompileError>(e),
            None => r is Ok && links_emitted(
                final(builder),
                old(builder),
                g,
                links@,
                links@.len() as int,
            ),
        },
{
    let n = ent_ids.len();
    let mut k: usize = 0;
    proof {
        assert forall|e: int, c: u32, r: bool|
            0 <= e < builder.entities@.len() implies #[trigger] builder.entities@[e].wires(c, r)
            == link_wires(g, links@, 0, e, c, r) by {
            assert(builder.entities@[e].bare());
        }
    }
    while k < links.len()
        invariant
            k <= links@.len(),
            n == g.len(),
            entity_ids(ent_ids@, g),
            old(builder).entities@.len() == entity_index(g, g.len() as int),
            forall|q: int|
                0 <= q < g.len() && (#[trigger] g[q]).is_entity() ==> old(
                    builder,
                ).kinds@[entity_index(g, q)] == kind_of(g[q]),
            links_emitted(builder, old(builder), g, links@, k as int),
        decreases links@.len() - k,
    {
        let link = links[k];
        assert(first_link_error(g, links@, k + 1) == link_error(g, link));
        let red = match link.color {
            WireColor::Red => true,
            WireColor::Green => false,
            WireColor::Unknown => {
                proof {
                    lemma_link_error_stays(g, links@, k + 1, links@.len() as int);
                }
                return Err(CompileError::EmitInvalid);
            },
        };
        if link.a.0 as usize >= n || link.b.0 as usize >= n {
            proof {
                lemma_link_error_stays(g, links@, k + 1, links@.len() as int);
            }
            return Err(CompileError::ParseLink);
        }
        let a_id = ent_ids[link.a.0 as usize];
        let b_id = ent_ids[link.b.0 as usize];
        proof {
            lemma_entity_index_bounds(g, link.a.0 as int, n as int);
            lemma_entity_index_bounds(g, link.b.0 as int, n as int);
        }
        if a_id == 0 || b_id == 0 {
            proof {
                lemma_link_error_stays(g, links@, k + 1, links@.len() as int);
            }
            return Err(CompileError::ParseLink);
        }
        let ghost before = builder.entities@;
        builder.add_link(red, (a_id, link.a.1), (b_id, link.b.1));
        proof {
            assert forall|q: int| 0 <= q < old(builder).entities@.len() implies same_but_wires(
                old(builder).entities@[q],
                #[trigger] builder.entities@[q],
            ) by {
                assert(same_but_wires(old(builder).entities@[q], before[q]));
                assert(same_but_wires(before[q], builder.entities@[q]));
            }
            assert forall|e: int, c: u32, r: bool|
                0 <= e < builder.entities@.len() implies #[trigger] builder.entities@[e].wires(
                c,
                r,
            ) == link_wires(g, links@, k + 1, e, c, r) by {
                assert(before[e].wires(c, r) == link_wires(g, links@, k as int, e, c, r));
            }
        }
        k = k + 1;
    }
    Ok(())
}

impl IRModule {
    /// Emits the module as a blueprint.
    ///
    /// Needs the symbols of `select_symbols` and the cells of
    /// `layout_nodes`. The result is the error of `emit_error`, if there is
    /// one; else a blueprint as `emitted` says.
    pub fn to_blueprint(&self, table: &SymbolTable) -> (r: Result<Blueprint, CompileError>)
        requires
            self.wf(),
            self.out_symbols@.len() == self.nodes@.len(),
            placed(self.graph(), &self.grid),
            table.wf(),
        ensures
            match emit_error(self, table) {
                Some(e) => r == Err::<Blueprint, CompileError>(e),
                None => r is Ok && emitted(&r->Ok_0, self, table),
            },
    {
        let ghost g = self.graph();
        if !check_symbols(&self.out_symbols, table) {
            return Err(CompileError::Limit);
        }
        let (mut builder, ent_ids) = match emit_nodes(
            &self.nodes,
            &self.grid,
            &self.out_symbols,
            table,
        ) {
            Err(e) => {
                return Err(e);
            },
            Ok(done) => done,
        };
        let ghost nodes_done = builder;
        match emit_links(&mut builder, &ent_ids, &self.links, Ghost(g)) {
            Err(e) => {
                return Err(e);
            },
            Ok(()) => {},
        }
        let ghost links_done = builder;
        let bounds = builder.get_bounds();
        proof {
            lemma_bounds_by_position(
                builder.entities@,
                nodes_done.entities@,
                builder.entities@.len() as int,
            );
            lemma_node_bounds_range(g, &self.grid, g.len() as int);
        }
        let x0 = pole_start_of(bounds[0]);
        let x1 = pole_end_of(bounds[2]);
        let y1 = pole_end_of(bounds[3]);
        if !add_poles(&mut builder, x0, x1, y1) {
            return Err(CompileError::Limit);
        }
        proof {
            lemma_emitted(&nodes_done, &links_done, &builder, self, table);
        }
        Ok(builder.finish())
    }
}

/// The three stages of the emission give a blueprint as `emitted` says.
proof fn lemma_emitted(
    nodes_done: &BlueprintBuilder,
    links_done: &BlueprintBuilder,
    all_done: &BlueprintBuilder,
    m: &IRModule,
    table: &SymbolTable,
)
    requires
        nodes_emitted(nodes_done, m.graph(), m.graph().len() as int, m.out_symbols@, table, &m.grid),
        links_emitted(links_done, nodes_done, m.graph(), m.links@, m.links@.len() as int),
        all_done.wf(),
        forall|k: int|
            0 <= k < links_done.entities@.len() ==> all_done.entities@[k]
                == links_done.entities@[k],
        ({
            let b = node_bounds(m.graph(), &m.grid, m.graph().len() as int);
            poles_from(
                all_done.entities@,
                links_done.entities@.len() as int,
                pole_start(b.0),
                pole_end(b.2),
                pole_end(b.3),
            )
        }),
        links_done.entities@.len() <= all_done.entities@.len(),
    ensures
        emitted(&(Blueprint { entities: all_done.entities }), m, table),
{
    reveal(describes);
    let g = m.graph();
    let after = all_done.entities@;
    assert forall|i: int| 0 <= i < g.len() && (#[trigger] g[i]).is_entity() implies 0
        <= entity_index(g, i) < after.len() && describes(
        after[entity_index(g, i)],
        g,
        i,
        m.out_symbols@,
        table,
        &m.grid,
    ) by {
        let at = entity_index(g, i);
        assert(after[at] == links_done.entities@[at]);
        assert(same_but_wires(nodes_done.entities@[at], links_done.entities@[at]));
    }
    assert forall|e: int, c: u32, r: bool|
        0 <= e < entity_index(g, g.len() as int) && e < after.len() implies #[trigger] after[e].wires(
        c,
        r,
    ) == link_wires(g, m.links@, m.links@.len() as int, e, c, r) by {
        assert(after[e] == links_done.entities@[e]);
    }
}

} // verus!
