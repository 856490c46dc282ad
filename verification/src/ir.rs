use vstd::prelude::*;
use crate::common::BinOp;
use crate::ir::layout::WireLink;
use crate::ir::placement::Grid;
use crate::settings::CompileSettings;

pub mod builder;
pub mod layout;
pub mod placement;
pub mod select_colors;
pub mod opt;
pub mod select_symbols;
pub mod to_blueprint;

verus! {

/// The colour of a wire. `Unknown` stands for a wire whose colour is not
/// chosen yet.
#[derive(Debug, Clone, Copy, PartialEq, Eq, Hash, Structural)]
pub enum WireColor {
    Red,
    Green,
    Unknown,
}

/// An operand of a node: the output of another node, or a number.
#[derive(Debug, Clone, Copy, PartialEq, Eq, Structural)]
pub enum IRArg {
    Link(u32, WireColor),
    Constant(i32),
}

/// A node of the graph. Its index in the node list is its identity.
#[derive(Debug, Clone, PartialEq, Eq)]
pub enum IRNode {
    Input(u32),
    Output(u32, IRArg),
    Constant(i32),
    BinOp(IRArg, BinOp, IRArg),
    Gate(IRArg, bool, IRArg),
    MultiDriver(Vec<IRArg>),
    BinOpSame(IRArg, BinOp),
    BinOpCmpGate(IRArg, BinOp, i32, IRArg),
    PlaceHolder,
    Removed,
}

/// The mathematical value of an `IRNode`.
pub ghost enum Node {
    Input(u32),
    Output(u32, IRArg),
    Constant(i32),
    BinOp(IRArg, BinOp, IRArg),
    Gate(IRArg, bool, IRArg),
    MultiDriver(Seq<IRArg>),
    BinOpSame(IRArg, BinOp),
    BinOpCmpGate(IRArg, BinOp, i32, IRArg),
    PlaceHolder,
    Removed,
}

impl IRArg {
    /// Whether the argument refers to a node.
    pub open spec fn spec_is_link(&self) -> bool {
        *self is Link
    }

    /// Whether the argument refers to a node.
    #[verifier::when_used_as_spec(spec_is_link)]
    pub fn is_link(&self) -> (r: bool)
        ensures
            r == (*self is Link),
    {
        match self {
            IRArg::Link(_, _) => true,
            IRArg::Constant(_) => false,
        }
    }

    /// The node that a link points to.
    pub open spec fn target(&self) -> int
        recommends
            *self is Link,
    {
        self->Link_0 as int
    }

    /// Whether the operand is a number, or a link into a list of `len` nodes.
    pub open spec fn in_range(&self, len: nat) -> bool {
        *self is Link ==> self.target() < len
    }
}

impl Node {
    /// The operands of the node, in order.
    pub open spec fn args(self) -> Seq<IRArg> {
        match self {
            Node::Output(_, a) => seq![a],
            Node::BinOp(l, _, r) => seq![l, r],
            Node::Gate(c, _, g) => seq![c, g],
            Node::MultiDriver(args) => args,
            Node::BinOpSame(a, _) => seq![a],
            Node::BinOpCmpGate(l, _, _, g) => seq![l, g],
            _ => seq![],
        }
    }

    /// Every link among the operands points into a list of `len` nodes.
    pub open spec fn links_in_range(self, len: nat) -> bool {
        forall|k: int| 0 <= k < self.args().len() ==> (#[trigger] self.args()[k]).in_range(len)
    }

    /// Whether the node becomes an entity of the blueprint, with a cell of
    /// its own.
    pub open spec fn is_entity(self) -> bool {
        self is Input || self is Output || self is Constant || self is BinOp || self is BinOpSame
            || self is BinOpCmpGate
    }

    /// Whether the node becomes a combinator that computes: these sit half a
    /// cell lower than the others.
    pub open spec fn is_combinator(self) -> bool {
        self is BinOp || self is BinOpSame || self is BinOpCmpGate
    }
}

impl View for IRNode {
    type V = Node;

    open spec fn view(&self) -> Node {
        match *self {
            IRNode::Input(n) => Node::Input(n),
            IRNode::Output(n, a) => Node::Output(n, a),
            IRNode::Constant(n) => Node::Constant(n),
            IRNode::BinOp(l, op, r) => Node::BinOp(l, op, r),
            IRNode::Gate(c, p, g) => Node::Gate(c, p, g),
            IRNode::MultiDriver(args) => Node::MultiDriver(args@),
            IRNode::BinOpSame(a, op) => Node::BinOpSame(a, op),
            IRNode::BinOpCmpGate(l, op, k, g) => Node::BinOpCmpGate(l, op, k, g),
            IRNode::PlaceHolder => Node::PlaceHolder,
            IRNode::Removed => Node::Removed,
        }
    }
}

/// The values of a list of nodes.
pub open spec fn graph_of(nodes: Seq<IRNode>) -> Seq<Node> {
    Seq::new(nodes.len(), |i: int| nodes[i]@)
}

/// Every link in the graph points at one of its nodes, and the indices fit
/// in 32 bits.
pub open spec fn graph_wf(g: Seq<Node>) -> bool {
    &&& g.len() <= u32::MAX
    &&& forall|i: int| 0 <= i < g.len() ==> (#[trigger] g[i]).links_in_range(g.len())
}

/// Writes `node` over the node at `i`.
pub fn set_node(nodes: &mut Vec<IRNode>, i: usize, node: IRNode)
    requires
        i < old(nodes).len(),
    ensures
        final(nodes)@ == old(nodes)@.update(i as int, node),
        graph_of(final(nodes)@) == graph_of(old(nodes)@).update(i as int, node@),
{
    nodes[i] = node;
    assert(graph_of(nodes@) =~= graph_of(old(nodes)@).update(i as int, node@));
}

/// Appends `node` to the list.
pub fn push_node(nodes: &mut Vec<IRNode>, node: IRNode)
    ensures
        final(nodes)@ == old(nodes)@.push(node),
        graph_of(final(nodes)@) == graph_of(old(nodes)@).push(node@),
{
    nodes.push(node);
    assert(graph_of(nodes@) =~= graph_of(old(nodes)@).push(node@));
}

impl IRNode {
    /// A copy of the node.
    pub fn duplicate(&self) -> (r: IRNode)
        ensures
            r@ == self@,
    {
        match self {
            IRNode::Input(n) => IRNode::Input(*n),
            IRNode::Output(n, a) => IRNode::Output(*n, *a),
            IRNode::Constant(n) => IRNode::Constant(*n),
            IRNode::BinOp(l, op, r) => IRNode::BinOp(*l, *op, *r),
            IRNode::Gate(c, p, g) => IRNode::Gate(*c, *p, *g),
            IRNode::MultiDriver(args) => {
                let copy = args.clone();
                assert(copy@ =~= args@);
                IRNode::MultiDriver(copy)
            },
            IRNode::BinOpSame(a, op) => IRNode::BinOpSame(*a, *op),
            IRNode::BinOpCmpGate(l, op, k, g) => IRNode::BinOpCmpGate(*l, *op, *k, *g),
            IRNode::PlaceHolder => IRNode::PlaceHolder,
            IRNode::Removed => IRNode::Removed,
        }
    }
}

/// Every decider that copies its input has links both on its left and for
/// the value it lets through.
pub open spec fn gates_linked(g: Seq<Node>) -> bool {
    forall|i: int|
        0 <= i < g.len() && #[trigger] g[i] is BinOpCmpGate ==> g[i]->BinOpCmpGate_0 is Link
            && g[i]->BinOpCmpGate_3 is Link
}

/// One module of a program: its graph, and what the later passes derive
/// from the graph.
pub struct IRModule {
    pub name: String,
    pub settings: CompileSettings,
    /// The number of inputs and outputs.
    pub port_count: i32,
    /// The names in scope and what they stand for.
    pub bindings: Vec<(String, IRArg)>,
    pub nodes: Vec<IRNode>,
    /// Whether the module has stated its outputs.
    pub outputs_set: bool,
    /// For each node the symbol it puts out.
    pub out_symbols: Vec<u32>,
    pub grid: Grid,
    pub links: Vec<WireLink>,
    /// For each argument the symbol it is declared with, if any.
    pub arg_types: Vec<Option<u32>>,
    /// For each return the symbol it is declared with, if the module
    /// declares its returns.
    pub ret_types: Option<Vec<Option<u32>>>,
}

impl IRModule {
    /// The graph of the module.
    pub open spec fn graph(&self) -> Seq<Node> {
        graph_of(self.nodes@)
    }

    /// The graph is well-formed, every decider that copies its input has its
    /// two links, and the ports can be counted.
    pub open spec fn wf(&self) -> bool {
        &&& graph_wf(self.graph())
        &&& gates_linked(self.graph())
        &&& 0 <= self.port_count
    }

    /// `other` is this module but for what the passes after the build derive:
    /// symbols, grid and links.
    pub open spec fn same_program(&self, other: &IRModule) -> bool {
        &&& self.name == other.name
        &&& self.settings == other.settings
        &&& self.port_count == other.port_count
        &&& self.bindings == other.bindings
        &&& self.nodes == other.nodes
        &&& self.outputs_set == other.outputs_set
        &&& self.arg_types == other.arg_types
        &&& self.ret_types == other.ret_types
    }

    /// Nothing was derived from the program yet: the module has no symbols,
    /// no cells and no wires.
    pub open spec fn underived(&self) -> bool {
        &&& self.out_symbols@.len() == 0
        &&& self.links@.len() == 0
        &&& self.grid.wf()
        &&& self.grid.size() == 0
        &&& self.grid.approx_w == 0
    }

    /// An empty module.
    pub fn new(name: String, settings: CompileSettings) -> (r: IRModule)
        ensures
            r.wf(),
            r.underived(),
            r.name == name,
            r.settings == settings,
            r.port_count == 0,
            r.bindings@.len() == 0,
            r.nodes@.len() == 0,
            !r.outputs_set,
            r.out_symbols@.len() == 0,
            r.links@.len() == 0,
            r.arg_types@.len() == 0,
            r.ret_types is None,
    {
        IRModule {
            name,
            settings,
            port_count: 0,
            bindings: Vec::new(),
            nodes: Vec::new(),
            outputs_set: false,
            out_symbols: Vec::new(),
            grid: Grid::new(),
            links: Vec::new(),
            arg_types: Vec::new(),
            ret_types: None,
        }
    }
}

} // verus!
