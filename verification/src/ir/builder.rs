use vstd::prelude::*;
use crate::common::{BinOp, UnaryOp};
use crate::error::CompileError;
use crate::ir::{
    gates_linked, graph_of, graph_wf, push_node, set_node, IRArg, IRModule, IRNode, Node, WireColor,
};
use crate::ir::opt::constant_folding::fold_fix;
use crate::ir::opt::fix_nodes::{has_short_cycle, legalized};
use crate::ir::opt::tree_pruning::pruned;
use crate::parser::{returns_of, Expr, Module, ParseItem, Statement};
use crate::settings::CompileSettings;

verus! {

/// A number of 64 bits as one of 32: itself where it fits a signed one, its
/// bit pattern where it fits an unsigned one, and nothing else.
pub open spec fn narrowed(x: i64) -> Option<i32> {
    if i32::MIN <= x <= i32::MAX {
        Some(x as i32)
    } else if i32::MAX < x <= u32::MAX {
        Some((x - 0x1_0000_0000) as i32)
    } else {
        None
    }
}

/// We narrow from 64-bit constants so that both signed and unsigned 32-bit
/// constants can be written.
pub fn narrow_constant(x: i64) -> (r: Option<i32>)
    ensures
        r == narrowed(x),
{
    if x >= -0x8000_0000 && x <= 0x7fff_ffff {
        Some(x as i32)
    } else if x > 0x7fff_ffff && x <= 0xffff_ffff {
        Some((x - 0x1_0000_0000) as i32)
    } else {
        None
    }
}

/// What the first entry of the first `k` that is named `name` holds.
pub open spec fn lookup_upto<T>(table: Seq<(String, T)>, name: Seq<char>, k: int) -> Option<T>
    decreases k,
{
    if k <= 0 {
        None
    } else {
        match lookup_upto(table, name, k - 1) {
            Some(found) => Some(found),
            None => if table[k - 1].0@ == name {
                Some(table[k - 1].1)
            } else {
                None
            },
        }
    }
}

/// What the table holds under `name`.
pub open spec fn lookup<T>(table: Seq<(String, T)>, name: Seq<char>) -> Option<T> {
    lookup_upto(table, name, table.len() as int)
}

/// The first of the first `k` modules that is named `name`.
pub open spec fn module_upto(modules: Seq<ModuleView>, name: Seq<char>, k: int) -> Option<int>
    decreases k,
{
    if k <= 0 {
        None
    } else {
        match module_upto(modules, name, k - 1) {
            Some(found) => Some(found),
            None => if modules[k - 1].name == name {
                Some(k - 1)
            } else {
                None
            },
        }
    }
}

/// The index of the module named `name`.
pub open spec fn module_named(modules: Seq<ModuleView>, name: Seq<char>) -> Option<int> {
    module_upto(modules, name, modules.len() as int)
}

/// The graph with `node` put into `slot`, or at the end where there is no
/// slot, and the link to it. `Limit` where the node would get an index
/// beyond 32 bits.
pub open spec fn node_added(nodes: Seq<Node>, node: Node, slot: Option<u32>) -> Result<
    (Seq<Node>, IRArg),
    CompileError,
> {
    match slot {
        Some(s) => Ok((nodes.update(s as int, node), IRArg::Link(s, WireColor::Unknown))),
        None => if nodes.len() >= u32::MAX {
            Err(CompileError::Limit)
        } else {
            Ok((nodes.push(node), IRArg::Link(nodes.len() as u32, WireColor::Unknown)))
        },
    }
}

/// What is known while a module is lowered: the names in scope, the
/// modules built so far, and the constants.
pub struct Scope<'a> {
    pub bindings: &'a Vec<(String, IRArg)>,
    pub modules: &'a Vec<IRModule>,
    pub constants: &'a Vec<(String, i64)>,
}

/// What the build makes of a module: all of it but the symbols, cells and
/// wires that the passes after the build derive.
pub ghost struct ModuleView {
    pub name: Seq<char>,
    pub settings: CompileSettings,
    pub graph: Seq<Node>,
    pub port_count: int,
    pub bindings: Seq<(String, IRArg)>,
    pub outputs_set: bool,
    pub arg_types: Seq<Option<u32>>,
    pub ret_types: Option<Seq<Option<u32>>>,
}

impl View for IRModule {
    type V = ModuleView;

    open spec fn view(&self) -> ModuleView {
        ModuleView {
            name: self.name@,
            settings: self.settings,
            graph: self.graph(),
            port_count: self.port_count as int,
            bindings: self.bindings@,
            outputs_set: self.outputs_set,
            arg_types: self.arg_types@,
            ret_types: returns_of(self.ret_types),
        }
    }
}

/// The values of a list of modules.
pub open spec fn views_of(modules: Seq<IRModule>) -> Seq<ModuleView> {
    Seq::new(modules.len(), |i: int| modules[i]@)
}

/// The mathematical value of a scope.
pub ghost struct Env {
    pub bindings: Seq<(String, IRArg)>,
    pub modules: Seq<ModuleView>,
    pub constants: Seq<(String, i64)>,
}

impl<'a> View for Scope<'a> {
    type V = Env;

    open spec fn view(&self) -> Env {
        Env {
            bindings: self.bindings@,
            modules: views_of(self.modules@),
            constants: self.constants@,
        }
    }
}

/// The operand with a link moved up by `offset`; `Limit` where that leaves
/// 32 bits.
pub open spec fn rebased(arg: IRArg, offset: int) -> Result<IRArg, CompileError> {
    match arg {
        IRArg::Link(n, c) => if n + offset > u32::MAX {
            Err(CompileError::Limit)
        } else {
            Ok(IRArg::Link((n + offset) as u32, c))
        },
        IRArg::Constant(_) => Ok(arg),
    }
}

/// The first `k` operands, each rebased.
pub open spec fn rebased_upto(args: Seq<IRArg>, offset: int, k: int) -> Result<
    Seq<IRArg>,
    CompileError,
>
    decreases k,
{
    if k <= 0 {
        Ok(seq![])
    } else {
        match rebased_upto(args, offset, k - 1) {
            Err(e) => Err(e),
            Ok(before) => match rebased(args[k - 1], offset) {
                Err(e) => Err(e),
                Ok(moved) => Ok(before.push(moved)),
            },
        }
    }
}

/// What one node of a module becomes where the module is called: the node
/// that takes its place, and for an output its port and what it forwards.
/// An input becomes a multi-driver of the argument for its port, an output
/// a vacated slot; every other node keeps its kind, its links rebased. A
/// port without an argument is `ArityMismatch`; a gate or an empty slot is
/// `EmitInvalid`.
pub open spec fn inlined_node(node: Node, offset: int, inputs: Seq<IRArg>) -> Result<
    (Node, Option<(u32, IRArg)>),
    CompileError,
> {
    match node {
        Node::Input(n) => if n < inputs.len() {
            Ok((Node::MultiDriver(seq![inputs[n as int]]), None))
        } else {
            Err(CompileError::ArityMismatch)
        },
        Node::Output(n, arg) => match rebased(arg, offset) {
            Err(e) => Err(e),
            Ok(moved) => Ok((Node::Removed, Some((n, moved)))),
        },
        Node::BinOp(l, op, r) => match rebased(l, offset) {
            Err(e) => Err(e),
            Ok(l2) => match rebased(r, offset) {
                Err(e) => Err(e),
                Ok(r2) => Ok((Node::BinOp(l2, op, r2), None)),
            },
        },
        Node::MultiDriver(args) => match rebased_upto(args, offset, args.len() as int) {
            Err(e) => Err(e),
            Ok(moved) => Ok((Node::MultiDriver(moved), None)),
        },
        Node::BinOpSame(arg, op) => match rebased(arg, offset) {
            Err(e) => Err(e),
            Ok(moved) => Ok((Node::BinOpSame(moved, op), None)),
        },
        Node::BinOpCmpGate(l, op, k, gated) => match rebased(l, offset) {
            Err(e) => Err(e),
            Ok(l2) => match rebased(gated, offset) {
                Err(e) => Err(e),
                Ok(g2) => Ok((Node::BinOpCmpGate(l2, op, k, g2), None)),
            },
        },
        Node::Constant(n) => Ok((Node::Constant(n), None)),
        Node::Removed => Ok((Node::Removed, None)),
        Node::Gate(_, _, _) => Err(CompileError::EmitInvalid),
        Node::PlaceHolder => Err(CompileError::EmitInvalid),
    }
}

/// The results with the one of port `port` set, the list made longer where
/// it has to be.
pub open spec fn result_set(results: Seq<Option<IRArg>>, port: u32, arg: IRArg) -> Seq<
    Option<IRArg>,
> {
    if port < results.len() {
        results.update(port as int, Some(arg))
    } else {
        (results + Seq::new((port - results.len()) as nat, |i: int| None)).push(Some(arg))
    }
}

/// The graph and the results after the first `k` nodes of a called module
/// were copied in.
pub open spec fn inlined_upto(
    nodes: Seq<Node>,
    sub: Seq<Node>,
    inputs: Seq<IRArg>,
    k: int,
) -> Result<(Seq<Node>, Seq<Option<IRArg>>), CompileError>
    decreases k,
{
    if k <= 0 {
        Ok((nodes, seq![]))
    } else {
        match inlined_upto(nodes, sub, inputs, k - 1) {
            Err(e) => Err(e),
            Ok((copied, results)) => if copied.len() >= u32::MAX {
                Err(CompileError::Limit)
            } else {
                match inlined_node(sub[k - 1], nodes.len() as int, inputs) {
                    Err(e) => Err(e),
                    Ok((node, out)) => Ok(
                        (
                            copied.push(node),
                            match out {
                                Some((port, arg)) => result_set(results, port, arg),
                                None => results,
                            },
                        ),
                    ),
                }
            },
        }
    }
}

/// The graph after a module was copied in, and what its outputs forward.
pub open spec fn inlined(nodes: Seq<Node>, sub: Seq<Node>, inputs: Seq<IRArg>) -> Result<
    (Seq<Node>, Seq<Option<IRArg>>),
    CompileError,
> {
    inlined_upto(nodes, sub, inputs, sub.len() as int)
}

/// The node that computes a unary operator: `0 - x`, `x + 0`, `x XOR -1`
/// or `x = 0`.
pub open spec fn unary_node(op: UnaryOp, arg: IRArg) -> Node {
    match op {
        UnaryOp::Negate => Node::BinOp(IRArg::Constant(0), BinOp::Sub, arg),
        UnaryOp::Plus => Node::BinOp(arg, BinOp::Add, IRArg::Constant(0)),
        UnaryOp::NotBitwise => Node::BinOp(arg, BinOp::BitXor, IRArg::Constant(-1i32)),
        UnaryOp::NotLogical => Node::BinOp(arg, BinOp::CmpEq, IRArg::Constant(0)),
    }
}

/// What a call leaves: the graph with the called module copied in, and what
/// its outputs forward. The arguments are lowered first; a module that is
/// unknown is `Undefined`.
pub open spec fn called(
    name: Seq<char>,
    args: Vec<Expr>,
    nodes: Seq<Node>,
    scope: Env,
) -> Result<(Seq<Node>, Seq<Option<IRArg>>), CompileError>
    decreases args, args@.len() + 1,
{
    match list_lowered(args, 0, nodes, scope) {
        Err(e) => Err(e),
        Ok((lowered_args, inputs)) => match module_named(scope.modules, name) {
            None => Err(CompileError::Undefined),
            Some(m) => inlined(lowered_args, scope.modules[m].graph, inputs),
        },
    }
}

/// The graph after `expr` was lowered into it, and the operand that stands
/// for its value. With a slot, the value is a node in that slot.
///
/// A name stands for what it is bound to, or else for a constant of that
/// name; a number is narrowed to 32 bits; operators become nodes on their
/// lowered operands; a conditional becomes a gate for each branch, merged
/// by a multi-driver where there are two; a match becomes a comparison and
/// a gate for each arm, merged by a multi-driver; a call copies the called
/// module in and stands for its one output.
pub open spec fn lowered(expr: Expr, nodes: Seq<Node>, scope: Env, slot: Option<u32>) -> Result<
    (Seq<Node>, IRArg),
    CompileError,
>
    decreases expr, 0nat,
{
    match expr {
        Expr::Ident(name) => match lookup(scope.bindings, name@) {
            Some(arg) => if slot is Some {
                node_added(nodes, Node::MultiDriver(seq![arg]), slot)
            } else {
                Ok((nodes, arg))
            },
            None => match lookup(scope.constants, name@) {
                Some(num) => match narrowed(num) {
                    Some(n) => node_added(nodes, Node::Constant(n), slot),
                    None => Err(CompileError::NarrowOverflow),
                },
                None => Err(CompileError::Undefined),
            },
        },
        Expr::Constant(num) => match narrowed(num) {
            Some(n) => node_added(nodes, Node::Constant(n), slot),
            None => Err(CompileError::NarrowOverflow),
        },
        Expr::BinOp(lhs, op, rhs) => match lowered(*lhs, nodes, scope, None) {
            Err(e) => Err(e),
            Ok((n1, lex)) => match lowered(*rhs, n1, scope, None) {
                Err(e) => Err(e),
                Ok((n2, rex)) => node_added(n2, Node::BinOp(lex, op, rex), slot),
            },
        },
        Expr::UnOp(op, arg) => match lowered(*arg, nodes, scope, None) {
            Err(e) => Err(e),
            Ok((n1, value)) => node_added(n1, unary_node(op, value), slot),
        },
        Expr::If(cond, val_true, val_false) => match lowered(*cond, nodes, scope, None) {
            Err(e) => Err(e),
            Ok((n1, arg_cond)) => match lowered(*val_true, n1, scope, None) {
                Err(e) => Err(e),
                Ok((n2, arg_true)) => match val_false {
                    None => node_added(n2, Node::Gate(arg_cond, true, arg_true), slot),
                    Some(other) => match lowered(*other, n2, scope, None) {
                        Err(e) => Err(e),
                        Ok((n3, arg_false)) => match node_added(
                            n3,
                            Node::Gate(arg_cond, true, arg_true),
                            None,
                        ) {
                            Err(e) => Err(e),
                            Ok((n4, true_result)) => match node_added(
                                n4,
                                Node::Gate(arg_cond, false, arg_false),
                                None,
                            ) {
                                Err(e) => Err(e),
                                Ok((n5, false_result)) => node_added(
                                    n5,
                                    Node::MultiDriver(seq![true_result, false_result]),
                                    slot,
                                ),
                            },
                        },
                    },
                },
            },
        },
        Expr::Match(expr_in, arms) => match lowered(*expr_in, nodes, scope, None) {
            Err(e) => Err(e),
            Ok((n1, arg_in)) => match arms_lowered(arms, 0, n1, scope, arg_in) {
                Err(e) => Err(e),
                Ok((n2, results)) => node_added(n2, Node::MultiDriver(results), slot),
            },
        },
        Expr::SubModule(name, args) => match called(name@, args, nodes, scope) {
            Err(e) => Err(e),
            Ok((n1, results)) => if results.len() != 1 || results[0] is None {
                Err(CompileError::ArityMismatch)
            } else if slot is Some {
                node_added(n1, Node::MultiDriver(seq![results[0]->Some_0]), slot)
            } else {
                Ok((n1, results[0]->Some_0))
            },
        },
    }
}

/// The graph after the arms `arms[k..]` of a match on `arg_in` were
/// lowered, and the gates of the arms.
pub open spec fn arms_lowered(
    arms: Vec<(BinOp, Expr, Expr)>,
    k: int,
    nodes: Seq<Node>,
    scope: Env,
    arg_in: IRArg,
) -> Result<(Seq<Node>, Seq<IRArg>), CompileError>
    decreases arms, arms@.len() - k,
{
    if k < 0 || k >= arms@.len() {
        Ok((nodes, seq![]))
    } else {
        match lowered(arms@[k].1, nodes, scope, None) {
            Err(e) => Err(e),
            Ok((n1, arg_test)) => match lowered(arms@[k].2, n1, scope, None) {
                Err(e) => Err(e),
                Ok((n2, arg_res)) => match node_added(
                    n2,
                    Node::BinOp(arg_in, arms@[k].0, arg_test),
                    None,
                ) {
                    Err(e) => Err(e),
                    Ok((n3, compare)) => match node_added(
                        n3,
                        Node::Gate(compare, true, arg_res),
                        None,
                    ) {
                        Err(e) => Err(e),
                        Ok((n4, gate)) => match arms_lowered(arms, k + 1, n4, scope, arg_in) {
                            Err(e) => Err(e),
                            Ok((n5, rest)) => Ok((n5, seq![gate] + rest)),
                        },
                    },
                },
            },
        }
    }
}

/// The graph after the expressions `exprs[k..]` were lowered in turn, and
/// the operands that stand for them.
pub open spec fn list_lowered(exprs: Vec<Expr>, k: int, nodes: Seq<Node>, scope: Env) -> Result<
    (Seq<Node>, Seq<IRArg>),
    CompileError,
>
    decreases exprs, exprs@.len() - k,
{
    if k < 0 || k >= exprs@.len() {
        Ok((nodes, seq![]))
    } else {
        match lowered(exprs@[k], nodes, scope, None) {
            Err(e) => Err(e),
            Ok((n1, first)) => match list_lowered(exprs, k + 1, n1, scope) {
                Err(e) => Err(e),
                Ok((n2, rest)) => Ok((n2, seq![first] + rest)),
            },
        }
    }
}

/// What the table holds under `name`.
pub fn find<T: Copy>(table: &Vec<(String, T)>, name: &String) -> (r: Option<T>)
    ensures
        r == lookup(table@, name@),
{
    let mut k: usize = 0;
    while k < table.len()
        invariant
            k <= table@.len(),
            lookup_upto(table@, name@, k as int) is None,
        decreases table@.len() - k,
    {
        if table[k].0 == *name {
            proof {
                lemma_lookup_found(table@, name@, k as int, table@.len() as int);
            }
            return Some(table[k].1);
        }
        k = k + 1;
    }
    None
}

/// What is found among the first entries is what is found among all.
proof fn lemma_lookup_found<T>(table: Seq<(String, T)>, name: Seq<char>, at: int, k: int)
    requires
        0 <= at < k <= table.len(),
        lookup_upto(table, name, at) is None,
        table[at].0@ == name,
    ensures
        lookup_upto(table, name, k) == Some(table[at].1),
    decreases k,
{
    if at < k - 1 {
        lemma_lookup_found(table, name, at, k - 1);
    }
}

proof fn lemma_module_found(modules: Seq<ModuleView>, name: Seq<char>, at: int, k: int)
    requires
        0 <= at < k <= modules.len(),
        module_upto(modules, name, at) is None,
        modules[at].name == name,
    ensures
        module_upto(modules, name, k) == Some(at),
    decreases k,
{
    if at < k - 1 {
        lemma_module_found(modules, name, at, k - 1);
    }
}

/// The index of the module named `name`.
pub fn find_module(modules: &Vec<IRModule>, name: &String) -> (r: Option<usize>)
    ensures
        match r {
            Some(m) => module_named(views_of(modules@), name@) == Some(m as int) && m
                < modules@.len(),
            None => module_named(views_of(modules@), name@) is None,
        },
{
    let ghost views = views_of(modules@);
    let mut k: usize = 0;
    while k < modules.len()
        invariant
            k <= modules@.len(),
            views == views_of(modules@),
            module_upto(views, name@, k as int) is None,
        decreases modules@.len() - k,
    {
        if modules[k].name == *name {
            proof {
                lemma_module_found(views, name@, k as int, views.len() as int);
            }
            return Some(k);
        }
        k = k + 1;
    }
    None
}

/// Every link in the graph points below `bound`.
pub open spec fn links_below(g: Seq<Node>, bound: nat) -> bool {
    forall|i: int| 0 <= i < g.len() ==> (#[trigger] g[i]).links_in_range(bound)
}

/// Every name in scope stands for a number or a node of the graph, and
/// every module built so far is well-formed.
pub open spec fn scope_wf(scope: Env, len: nat) -> bool {
    &&& forall|k: int|
        0 <= k < scope.bindings.len() ==> (#[trigger] scope.bindings[k]).1.in_range(len)
    &&& forall|m: int|
        0 <= m < scope.modules.len() ==> graph_wf((#[trigger] scope.modules[m]).graph)
            && gates_linked(scope.modules[m].graph)
}

/// What is looked up in a well-formed scope is in range.
proof fn lemma_lookup_in_range(table: Seq<(String, IRArg)>, name: Seq<char>, k: int, len: nat)
    requires
        0 <= k <= table.len(),
        forall|q: int| 0 <= q < table.len() ==> (#[trigger] table[q]).1.in_range(len),
    ensures
        lookup_upto(table, name, k) is Some ==> lookup_upto(table, name, k)->Some_0.in_range(len),
    decreases k,
{
    if k > 0 {
        lemma_lookup_in_range(table, name, k - 1, len);
    }
}

/// Puts `node` into `slot`, or at the end of the list where there is no
/// slot, and returns the link to it.
pub fn add_node(nodes: &mut Vec<IRNode>, node: IRNode, slot: Option<u32>) -> (r: Result<
    IRArg,
    CompileError,
>)
    requires
        slot is Some ==> slot->Some_0 < old(nodes)@.len(),
    ensures
        match node_added(graph_of(old(nodes)@), node@, slot) {
            Ok((after, arg)) => r == Ok::<IRArg, CompileError>(arg) && graph_of(final(nodes)@)
                == after,
            Err(e) => r == Err::<IRArg, CompileError>(e) && final(nodes)@ == old(nodes)@,
        },
{
    match slot {
        Some(s) => {
            set_node(nodes, s as usize, node);
            Ok(IRArg::Link(s, WireColor::Unknown))
        },
        None => {
            let n = nodes.len();
            if n >= u32::MAX as usize {
                Err(CompileError::Limit)
            } else {
                push_node(nodes, node);
                Ok(IRArg::Link(n as u32, WireColor::Unknown))
            }
        },
    }
}

/// A node added to a well-formed graph, with its links in range, leaves it
/// well-formed.
pub proof fn lemma_node_added(g: Seq<Node>, node: Node, slot: Option<u32>)
    requires
        graph_wf(g),
        node.links_in_range(g.len()),
        slot is Some ==> slot->Some_0 < g.len(),
    ensures
        match node_added(g, node, slot) {
            Ok((after, arg)) => {
                &&& graph_wf(after)
                &&& after.len() >= g.len()
                &&& arg.in_range(after.len())
                &&& (gates_linked(g) && (node is BinOpCmpGate ==> node->BinOpCmpGate_0 is Link
                    && node->BinOpCmpGate_3 is Link) ==> gates_linked(after))
            },
            Err(_) => true,
        },
{
    match node_added(g, node, slot) {
        Ok((after, arg)) => {
            assert forall|i: int| 0 <= i < after.len() implies (#[trigger] after[i]).links_in_range(
                after.len(),
            ) by {
                if i < g.len() && after[i] == g[i] {
                    assert(g[i].links_in_range(g.len()));
                }
            }
            if gates_linked(g) && (node is BinOpCmpGate ==> node->BinOpCmpGate_0 is Link
                && node->BinOpCmpGate_3 is Link) {
                assert forall|i: int| 0 <= i < after.len() && #[trigger] after[i] is BinOpCmpGate implies after[i]->BinOpCmpGate_0 is Link
                    && after[i]->BinOpCmpGate_3 is Link by {
                    if i < g.len() && after[i] == g[i] {
                        assert(g[i] is BinOpCmpGate);
                    }
                }
            }
        },
        Err(_) => {},
    }
}

/// The operand with a link moved up by `offset`.
fn offset_arg(arg: &IRArg, offset: u32) -> (r: Result<IRArg, CompileError>)
    ensures
        r == rebased(*arg, offset as int),
{
    match arg {
        IRArg::Link(n, c) => {
            if *n > u32::MAX - offset {
                Err(CompileError::Limit)
            } else {
                Ok(IRArg::Link(*n + offset, *c))
            }
        },
        IRArg::Constant(_) => Ok(*arg),
    }
}

/// All operands, each with its link moved up by `offset`.
fn offset_args(args: &Vec<IRArg>, offset: u32) -> (r: Result<Vec<IRArg>, CompileError>)
    ensures
        match rebased_upto(args@, offset as int, args@.len() as int) {
            Ok(moved) => r is Ok && r->Ok_0@ == moved,
            Err(e) => r is Err && r->Err_0 == e,
        },
{
    let mut out: Vec<IRArg> = Vec::with_capacity(args.len());
    let mut k: usize = 0;
    while k < args.len()
        invariant
            k <= args@.len(),
            rebased_upto(args@, offset as int, k as int) == Ok::<Seq<IRArg>, CompileError>(out@),
        decreases args@.len() - k,
    {
        match offset_arg(&args[k], offset) {
            Err(e) => {
                proof {
                    lemma_rebased_error_stays(args@, offset as int, k + 1, args@.len() as int);
                }
                return Err(e);
            },
            Ok(moved) => {
                out.push(moved);
            },
        }
        k = k + 1;
    }
    Ok(out)
}

proof fn lemma_rebased_error_stays(args: Seq<IRArg>, offset: int, a: int, b: int)
    requires
        rebased_upto(args, offset, a) is Err,
        a <= b,
    ensures
        rebased_upto(args, offset, b) == rebased_upto(args, offset, a),
    decreases b - a,
{
    if a < b {
        lemma_rebased_error_stays(args, offset, a, b - 1);
    }
}

/// Copies one node of a called module to the end of the list. Returns, for
/// an output, its port and what it forwards.
pub fn add_node_from_submodule(
    nodes: &mut Vec<IRNode>,
    node: &IRNode,
    offset: u32,
    inputs: &Vec<IRArg>,
) -> (r: Result<Option<(u32, IRArg)>, CompileError>)
    ensures
        match inlined_node(node@, offset as int, inputs@) {
            Ok((copy, out)) => r == Ok::<Option<(u32, IRArg)>, CompileError>(out) && graph_of(
                final(nodes)@,
            ) == graph_of(old(nodes)@).push(copy),
            Err(e) => r == Err::<Option<(u32, IRArg)>, CompileError>(e) && final(nodes)@ == old(
                nodes,
            )@,
        },
{
    let adjusted = match node {
        IRNode::Input(n) => {
            if (*n as usize) < inputs.len() {
                let mut proxy: Vec<IRArg> = Vec::new();
                proxy.push(inputs[*n as usize]);
                assert(proxy@ =~= seq![inputs@[*n as int]]);
                IRNode::MultiDriver(proxy)
            } else {
                return Err(CompileError::ArityMismatch);
            }
        },
        IRNode::Output(n, arg) => {
            let moved = offset_arg(arg, offset)?;
            push_node(nodes, IRNode::Removed);
            return Ok(Some((*n, moved)));
        },
        IRNode::BinOp(lhs, op, rhs) => {
            let l = offset_arg(lhs, offset)?;
            let r = offset_arg(rhs, offset)?;
            IRNode::BinOp(l, *op, r)
        },
        IRNode::MultiDriver(args) => {
            let moved = offset_args(args, offset)?;
            IRNode::MultiDriver(moved)
        },
        IRNode::BinOpSame(arg, op) => {
            let moved = offset_arg(arg, offset)?;
            IRNode::BinOpSame(moved, *op)
        },
        IRNode::BinOpCmpGate(lhs, op, rhs, gated) => {
            let l = offset_arg(lhs, offset)?;
            let g = offset_arg(gated, offset)?;
            IRNode::BinOpCmpGate(l, *op, *rhs, g)
        },
        IRNode::Constant(n) => IRNode::Constant(*n),
        IRNode::Removed => IRNode::Removed,
        IRNode::Gate(_, _, _) => {
            return Err(CompileError::EmitInvalid);
        },
        IRNode::PlaceHolder => {
            return Err(CompileError::EmitInvalid);
        },
    };
    push_node(nodes, adjusted);
    Ok(None)
}

/// Rebased operands keep their number and kind, and point below the moved
/// bound.
proof fn lemma_rebased_upto(args: Seq<IRArg>, offset: int, k: int, bound: nat)
    requires
        0 <= k <= args.len(),
        0 <= offset,
        forall|q: int| 0 <= q < args.len() ==> (#[trigger] args[q]).in_range(bound),
    ensures
        match rebased_upto(args, offset, k) {
            Ok(moved) => moved.len() == k && forall|q: int|
                0 <= q < k ==> (#[trigger] moved[q]).in_range((bound + offset) as nat),
            Err(_) => true,
        },
    decreases k,
{
    if k > 0 {
        lemma_rebased_upto(args, offset, k - 1, bound);
        if let Ok(before) = rebased_upto(args, offset, k - 1) {
            if let Ok(moved) = rebased(args[k - 1], offset) {
                assert(args[k - 1].in_range(bound));
                let all = before.push(moved);
                assert forall|q: int| 0 <= q < k implies (#[trigger] all[q]).in_range(
                    (bound + offset) as nat,
                ) by {
                    if q < k - 1 {
                        assert(all[q] == before[q]);
                    }
                }
            }
        }
    }
}

/// A copied node points below the end of the copy, and so does what an
/// output forwards; a decider that copies its input keeps its links.
proof fn lemma_inlined_node(node: Node, offset: int, inputs: Seq<IRArg>, sub_len: nat)
    requires
        0 <= offset,
        node.links_in_range(sub_len),
        forall|q: int| 0 <= q < inputs.len() ==> (#[trigger] inputs[q]).in_range(offset as nat),
    ensures
        match inlined_node(node, offset, inputs) {
            Ok((copy, out)) => {
                &&& copy.links_in_range((offset + sub_len) as nat)
                &&& out is Some ==> out->Some_0.1.in_range((offset + sub_len) as nat)
                &&& copy is BinOpCmpGate ==> node is BinOpCmpGate
                &&& (node is BinOpCmpGate && node->BinOpCmpGate_0 is Link
                    && node->BinOpCmpGate_3 is Link) ==> (copy->BinOpCmpGate_0 is Link
                    && copy->BinOpCmpGate_3 is Link)
            },
            Err(_) => true,
        },
{
    let bound = (offset + sub_len) as nat;
    match node {
        Node::Input(n) => {
            if n < inputs.len() {
                assert(inputs[n as int].in_range(offset as nat));
                let copy = Node::MultiDriver(seq![inputs[n as int]]);
                assert(copy.args() =~= seq![inputs[n as int]]);
            }
        },
        Node::Output(n, arg) => {
            assert(node.args()[0] == arg);
        },
        Node::BinOp(l, op, r) => {
            assert(node.args()[0] == l && node.args()[1] == r);
            if let Ok((copy, _)) = inlined_node(node, offset, inputs) {
                assert(copy.args() =~= seq![copy->BinOp_0, copy->BinOp_2]);
            }
        },
        Node::MultiDriver(args) => {
            assert forall|q: int| 0 <= q < args.len() implies (#[trigger] args[q]).in_range(
                sub_len,
            ) by {
                assert(node.args()[q] == args[q]);
            }
            lemma_rebased_upto(args, offset, args.len() as int, sub_len);
        },
        Node::BinOpSame(arg, op) => {
            assert(node.args()[0] == arg);
            if let Ok((copy, _)) = inlined_node(node, offset, inputs) {
                assert(copy.args() =~= seq![copy->BinOpSame_0]);
            }
        },
        Node::BinOpCmpGate(l, op, k, gated) => {
            assert(node.args()[0] == l && node.args()[1] == gated);
            if let Ok((copy, _)) = inlined_node(node, offset, inputs) {
                assert(copy.args() =~= seq![copy->BinOpCmpGate_0, copy->BinOpCmpGate_3]);
            }
        },
        _ => {},
    }
}

proof fn lemma_inlined_error_stays(
    nodes: Seq<Node>,
    sub: Seq<Node>,
    inputs: Seq<IRArg>,
    a: int,
    b: int,
)
    requires
        inlined_upto(nodes, sub, inputs, a) is Err,
        a <= b,
    ensures
        inlined_upto(nodes, sub, inputs, b) == inlined_upto(nodes, sub, inputs, a),
    decreases b - a,
{
    if a < b {
        lemma_inlined_error_stays(nodes, sub, inputs, a, b - 1);
    }
}

/// Sets the result of port `port`.
fn set_result(results: &mut Vec<Option<IRArg>>, port: u32, arg: IRArg)
    ensures
        final(results)@ == result_set(old(results)@, port, arg),
{
    let at = port as usize;
    if at < results.len() {
        results[at] = Some(arg);
    } else {
        let ghost start = results@;
        while results.len() < at
            invariant
                start.len() <= results@.len() <= at,
                results@ == start + Seq::new((results@.len() - start.len()) as nat, |i: int| None),
            decreases at - results@.len(),
        {
            let ghost before = results@;
            results.push(None);
            assert(results@ =~= start + Seq::new(
                (results@.len() - start.len()) as nat,
                |i: int| None,
            ));
        }
        results.push(Some(arg));
    }
}

/// Copies a called module to the end of the list, its inputs fed by
/// `inputs`. Returns what its outputs forward, by port.
pub fn add_submodule(nodes: &mut Vec<IRNode>, sub: &Vec<IRNode>, inputs: &Vec<IRArg>) -> (r: Result<
    Vec<Option<IRArg>>,
    CompileError,
>)
    requires
        graph_wf(graph_of(old(nodes)@)),
        graph_wf(graph_of(sub@)),
        forall|q: int|
            0 <= q < inputs@.len() ==> (#[trigger] inputs@[q]).in_range(old(nodes)@.len()),
    ensures
        match inlined(graph_of(old(nodes)@), graph_of(sub@), inputs@) {
            Ok((after, results)) => {
                &&& r is Ok
                &&& r->Ok_0@ == results
                &&& graph_of(final(nodes)@) == after
                &&& graph_wf(after)
                &&& after.len() == old(nodes)@.len() + sub@.len()
                &&& forall|q: int|
                    0 <= q < results.len() && (#[trigger] results[q]) is Some
                        ==> results[q]->Some_0.in_range(after.len())
                &&& (gates_linked(graph_of(old(nodes)@)) && gates_linked(graph_of(sub@))
                    ==> gates_linked(after))
            },
            Err(e) => r is Err && r->Err_0 == e,
        },
{
    let ghost g = graph_of(nodes@);
    let ghost sg = graph_of(sub@);
    let offset = nodes.len() as u32;
    let ghost bound = (g.len() + sg.len()) as nat;
    let mut results: Vec<Option<IRArg>> = Vec::new();
    let mut k: usize = 0;
    while k < sub.len()
        invariant
            k <= sub@.len(),
            g == graph_of(old(nodes)@),
            sg == graph_of(sub@),
            graph_wf(g),
            graph_wf(sg),
            offset == g.len(),
            bound == g.len() + sg.len(),
            forall|q: int| 0 <= q < inputs@.len() ==> (#[trigger] inputs@[q]).in_range(g.len()),
            inlined_upto(g, sg, inputs@, k as int) == Ok::<
                (Seq<Node>, Seq<Option<IRArg>>),
                CompileError,
            >((graph_of(nodes@), results@)),
            nodes@.len() == g.len() + k,
            links_below(graph_of(nodes@), bound),
            forall|q: int|
                0 <= q < results@.len() && (#[trigger] results@[q]) is Some
                    ==> results@[q]->Some_0.in_range(bound),
            gates_linked(g) && gates_linked(sg) ==> gates_linked(graph_of(nodes@)),
        decreases sub@.len() - k,
    {
        if nodes.len() >= u32::MAX as usize {
            proof {
                assert(inlined_upto(g, sg, inputs@, k + 1) is Err);
                lemma_inlined_error_stays(g, sg, inputs@, k + 1, sg.len() as int);
            }
            return Err(CompileError::Limit);
        }
        let ghost before = graph_of(nodes@);
        let ghost results_before = results@;
        proof {
            assert(sg[k as int].links_in_range(sg.len()));
            lemma_inlined_node(sg[k as int], offset as int, inputs@, sg.len());
        }
        match add_node_from_submodule(nodes, &sub[k], offset, inputs) {
            Err(e) => {
                proof {
                    assert(inlined_upto(g, sg, inputs@, k + 1) is Err);
                    lemma_inlined_error_stays(g, sg, inputs@, k + 1, sg.len() as int);
                }
                return Err(e);
            },
            Ok(out) => {
                if let Some((port, arg)) = out {
                    set_result(&mut results, port, arg);
                    proof {
                        assert forall|q: int|
                            0 <= q < results@.len() && (#[trigger] results@[q]) is Some implies results@[q]->Some_0.in_range(
                            bound,
                        ) by {
                            if q < results_before.len() && q != port {
                                assert(results@[q] == results_before[q]);
                            }
                        }
                    }
                }
                proof {
                    let after = graph_of(nodes@);
                    assert(after.len() == nodes@.len());
                    assert(before.len() == g.len() + k);
                    assert forall|i: int| 0 <= i < after.len() implies (#[trigger] after[i]).links_in_range(
                        bound,
                    ) by {
                        if i < before.len() {
                            assert(after[i] == before[i]);
                        }
                    }
                    if gates_linked(g) && gates_linked(sg) {
                        assert forall|i: int| 0 <= i < after.len() && #[trigger] after[i] is BinOpCmpGate implies after[i]->BinOpCmpGate_0 is Link
                            && after[i]->BinOpCmpGate_3 is Link by {
                            if i < before.len() {
                                assert(after[i] == before[i]);
                                assert(before[i] is BinOpCmpGate);
                            } else {
                                assert(sg[k as int] is BinOpCmpGate);
                            }
                        }
                    }
                }
            },
        }
        k = k + 1;
    }
    Ok(results)
}

/// `after` is a well-formed graph that `before` grew into, and `arg` one of
/// its operands.
pub open spec fn grown(before: Seq<Node>, after: Seq<Node>, arg: IRArg) -> bool {
    &&& graph_wf(after)
    &&& after.len() >= before.len()
    &&& arg.in_range(after.len())
    &&& (gates_linked(before) ==> gates_linked(after))
}

/// `after` is a well-formed graph that `before` grew into, and `args` are
/// operands of it.
pub open spec fn grown_list(before: Seq<Node>, after: Seq<Node>, args: Seq<IRArg>) -> bool {
    &&& graph_wf(after)
    &&& after.len() >= before.len()
    &&& forall|q: int| 0 <= q < args.len() ==> (#[trigger] args[q]).in_range(after.len())
    &&& (gates_linked(before) ==> gates_linked(after))
}

/// A result with `acc` put before its operands.
pub open spec fn with_prefix(
    acc: Seq<IRArg>,
    r: Result<(Seq<Node>, Seq<IRArg>), CompileError>,
) -> Result<(Seq<Node>, Seq<IRArg>), CompileError> {
    match r {
        Ok((nodes, rest)) => Ok((nodes, acc + rest)),
        Err(e) => Err(e),
    }
}

/// Adds a node whose links are in range, and says what that leaves.
fn add_checked(nodes: &mut Vec<IRNode>, node: IRNode, slot: Option<u32>, Ghost(start): Ghost<
    Seq<Node>,
>) -> (r: Result<IRArg, CompileError>)
    requires
        graph_wf(graph_of(old(nodes)@)),
        node@.links_in_range(old(nodes)@.len()),
        !(node@ is BinOpCmpGate),
        slot is Some ==> slot->Some_0 < old(nodes)@.len(),
        start.len() <= old(nodes)@.len(),
        gates_linked(start) ==> gates_linked(graph_of(old(nodes)@)),
    ensures
        match node_added(graph_of(old(nodes)@), node@, slot) {
            Ok((after, arg)) => r == Ok::<IRArg, CompileError>(arg) && graph_of(final(nodes)@)
                == after && grown(start, after, arg),
            Err(e) => r == Err::<IRArg, CompileError>(e),
        },
{
    proof {
        lemma_node_added(graph_of(nodes@), node@, slot);
    }
    add_node(nodes, node, slot)
}

/// Lowers an expression into the node list and returns the operand that
/// stands for its value. With a slot, the value is a node in that slot.
pub fn add_expr(nodes: &mut Vec<IRNode>, scope: &Scope, expr: &Expr, desired_slot: Option<u32>) -> (r:
    Result<IRArg, CompileError>)
    requires
        graph_wf(graph_of(old(nodes)@)),
        scope_wf(scope@, old(nodes)@.len()),
        desired_slot is Some ==> desired_slot->Some_0 < old(nodes)@.len(),
    ensures
        match lowered(*expr, graph_of(old(nodes)@), scope@, desired_slot) {
            Ok((after, arg)) => r == Ok::<IRArg, CompileError>(arg) && graph_of(final(nodes)@)
                == after && grown(graph_of(old(nodes)@), after, arg),
            Err(e) => r == Err::<IRArg, CompileError>(e),
        },
    decreases expr, 0nat,
{
    let ghost g = graph_of(nodes@);
    match expr {
        Expr::Ident(name) => {
            proof {
                lemma_lookup_in_range(
                    scope.bindings@,
                    name@,
                    scope.bindings@.len() as int,
                    g.len(),
                );
            }
            match find(scope.bindings, name) {
                Some(arg) => {
                    if desired_slot.is_some() {
                        let mut proxy: Vec<IRArg> = Vec::new();
                        proxy.push(arg);
                        assert(proxy@ =~= seq![arg]);
                        let node = IRNode::MultiDriver(proxy);
                        add_checked(nodes, node, desired_slot, Ghost(g))
                    } else {
                        Ok(arg)
                    }
                },
                None => match find(scope.constants, name) {
                    Some(num) => match narrow_constant(num) {
                        Some(n) => add_checked(nodes, IRNode::Constant(n), desired_slot, Ghost(g)),
                        None => Err(CompileError::NarrowOverflow),
                    },
                    None => Err(CompileError::Undefined),
                },
            }
        },
        Expr::Constant(num) => match narrow_constant(*num) {
            Some(n) => add_checked(nodes, IRNode::Constant(n), desired_slot, Ghost(g)),
            None => Err(CompileError::NarrowOverflow),
        },
        Expr::BinOp(lhs, op, rhs) => {
            let lex = add_expr(nodes, scope, lhs, None)?;
            let rex = add_expr(nodes, scope, rhs, None)?;
            let node = IRNode::BinOp(lex, *op, rex);
            assert(node@.args() =~= seq![lex, rex]);
            add_checked(nodes, node, desired_slot, Ghost(g))
        },
        Expr::UnOp(op, arg) => {
            let value = add_expr(nodes, scope, arg, None)?;
            let node = match op {
                UnaryOp::Negate => IRNode::BinOp(IRArg::Constant(0), BinOp::Sub, value),
                UnaryOp::Plus => IRNode::BinOp(value, BinOp::Add, IRArg::Constant(0)),
                UnaryOp::NotBitwise => IRNode::BinOp(value, BinOp::BitXor, IRArg::Constant(-1)),
                UnaryOp::NotLogical => IRNode::BinOp(value, BinOp::CmpEq, IRArg::Constant(0)),
            };
            assert(node@.args() =~= seq![node@->BinOp_0, node@->BinOp_2]);
            add_checked(nodes, node, desired_slot, Ghost(g))
        },
        Expr::If(cond, val_true, val_false) => {
            let arg_cond = add_expr(nodes, scope, cond, None)?;
            let arg_true = add_expr(nodes, scope, val_true, None)?;
            match val_false {
                Some(other) => {
                    let arg_false = add_expr(nodes, scope, other, None)?;
                    let first = IRNode::Gate(arg_cond, true, arg_true);
                    assert(first@.args() =~= seq![arg_cond, arg_true]);
                    let true_result = add_checked(nodes, first, None, Ghost(g))?;
                    let second = IRNode::Gate(arg_cond, false, arg_false);
                    assert(second@.args() =~= seq![arg_cond, arg_false]);
                    let false_result = add_checked(nodes, second, None, Ghost(g))?;
                    let mut both: Vec<IRArg> = Vec::new();
                    both.push(true_result);
                    both.push(false_result);
                    assert(both@ =~= seq![true_result, false_result]);
                    add_checked(nodes, IRNode::MultiDriver(both), desired_slot, Ghost(g))
                },
                None => {
                    let only = IRNode::Gate(arg_cond, true, arg_true);
                    assert(only@.args() =~= seq![arg_cond, arg_true]);
                    add_checked(nodes, only, desired_slot, Ghost(g))
                },
            }
        },
        Expr::Match(expr_in, match_list) => {
            let arg_in = add_expr(nodes, scope, expr_in, None)?;
            let results = add_arms(nodes, scope, match_list, arg_in, Ghost(g))?;
            add_checked(nodes, IRNode::MultiDriver(results), desired_slot, Ghost(g))
        },
        Expr::SubModule(name, args) => {
            let results = call_module(nodes, scope, name, args)?;
            if results.len() != 1 {
                return Err(CompileError::ArityMismatch);
            }
            match results[0] {
                None => Err(CompileError::ArityMismatch),
                Some(result) => {
                    if desired_slot.is_some() {
                        let mut proxy: Vec<IRArg> = Vec::new();
                        proxy.push(result);
                        assert(proxy@ =~= seq![result]);
                        add_checked(nodes, IRNode::MultiDriver(proxy), desired_slot, Ghost(g))
                    } else {
                        Ok(result)
                    }
                },
            }
        },
    }
}

/// Lowers the arms of a match on `arg_in` and returns their gates.
fn add_arms(
    nodes: &mut Vec<IRNode>,
    scope: &Scope,
    arms: &Vec<(BinOp, Expr, Expr)>,
    arg_in: IRArg,
    Ghost(start): Ghost<Seq<Node>>,
) -> (r: Result<Vec<IRArg>, CompileError>)
    requires
        graph_wf(graph_of(old(nodes)@)),
        scope_wf(scope@, old(nodes)@.len()),
        arg_in.in_range(old(nodes)@.len()),
        start.len() <= old(nodes)@.len(),
        gates_linked(start) ==> gates_linked(graph_of(old(nodes)@)),
    ensures
        match arms_lowered(*arms, 0, graph_of(old(nodes)@), scope@, arg_in) {
            Ok((after, gates)) => r is Ok && r->Ok_0@ == gates && graph_of(final(nodes)@) == after
                && grown_list(graph_of(old(nodes)@), after, gates) && (gates_linked(start)
                ==> gates_linked(after)),
            Err(e) => r is Err && r->Err_0 == e,
        },
    decreases arms, 0nat,
{
    let ghost g = graph_of(nodes@);
    let mut results: Vec<IRArg> = Vec::new();
    let mut k: usize = 0;
    while k < arms.len()
        invariant
            k <= arms@.len(),
            g == graph_of(old(nodes)@),
            grown_list(g, graph_of(nodes@), results@),
            gates_linked(start) ==> gates_linked(graph_of(nodes@)),
            scope_wf(scope@, g.len()),
            arg_in.in_range(g.len()),
            arms_lowered(*arms, 0, g, scope@, arg_in) == with_prefix(
                results@,
                arms_lowered(*arms, k as int, graph_of(nodes@), scope@, arg_in),
            ),
        decreases arms@.len() - k,
    {
        let ghost before = graph_of(nodes@);
        let ghost acc = results@;
        let arg_test = add_expr(nodes, scope, &arms[k].1, None)?;
        let arg_res = add_expr(nodes, scope, &arms[k].2, None)?;
        let compare_node = IRNode::BinOp(arg_in, arms[k].0, arg_test);
        assert(compare_node@.args() =~= seq![arg_in, arg_test]);
        let compare = add_checked(nodes, compare_node, None, Ghost(g))?;
        let gate_node = IRNode::Gate(compare, true, arg_res);
        assert(gate_node@.args() =~= seq![compare, arg_res]);
        let gate = add_checked(nodes, gate_node, None, Ghost(g))?;
        results.push(gate);
        proof {
            let rest = arms_lowered(*arms, k + 1, graph_of(nodes@), scope@, arg_in);
            if let Ok((n5, tail)) = rest {
                assert(acc + (seq![gate] + tail) =~= results@ + tail);
            }
            assert forall|q: int| 0 <= q < results@.len() implies (#[trigger] results@[q]).in_range(
                nodes@.len(),
            ) by {
                if q < acc.len() {
                    assert(results@[q] == acc[q]);
                }
            }
        }
        k = k + 1;
    }
    proof {
        assert(results@ + Seq::<IRArg>::empty() =~= results@);
    }
    Ok(results)
}

/// Lowers the arguments of a call, then copies the called module in.
/// Returns what its outputs forward, by port.
fn call_module(nodes: &mut Vec<IRNode>, scope: &Scope, name: &String, args: &Vec<Expr>) -> (r:
    Result<Vec<Option<IRArg>>, CompileError>)
    requires
        graph_wf(graph_of(old(nodes)@)),
        scope_wf(scope@, old(nodes)@.len()),
    ensures
        match called(name@, *args, graph_of(old(nodes)@), scope@) {
            Ok((after, results)) => {
                &&& r is Ok
                &&& r->Ok_0@ == results
                &&& graph_of(final(nodes)@) == after
                &&& graph_wf(after)
                &&& after.len() >= old(nodes)@.len()
                &&& forall|q: int|
                    0 <= q < results.len() && (#[trigger] results[q]) is Some
                        ==> results[q]->Some_0.in_range(after.len())
                &&& (gates_linked(graph_of(old(nodes)@)) ==> gates_linked(after))
            },
            Err(e) => r is Err && r->Err_0 == e,
        },
    decreases args, 1nat,
{
    let ghost g = graph_of(nodes@);
    let mut inputs: Vec<IRArg> = Vec::new();
    let mut k: usize = 0;
    while k < args.len()
        invariant
            k <= args@.len(),
            g == graph_of(old(nodes)@),
            grown_list(g, graph_of(nodes@), inputs@),
            scope_wf(scope@, g.len()),
            list_lowered(*args, 0, g, scope@) == with_prefix(
                inputs@,
                list_lowered(*args, k as int, graph_of(nodes@), scope@),
            ),
        decreases args@.len() - k,
    {
        let ghost acc = inputs@;
        let value = add_expr(nodes, scope, &args[k], None)?;
        inputs.push(value);
        proof {
            let rest = list_lowered(*args, k + 1, graph_of(nodes@), scope@);
            if let Ok((n2, tail)) = rest {
                assert(acc + (seq![value] + tail) =~= inputs@ + tail);
            }
            assert forall|q: int| 0 <= q < inputs@.len() implies (#[trigger] inputs@[q]).in_range(
                nodes@.len(),
            ) by {
                if q < acc.len() {
                    assert(inputs@[q] == acc[q]);
                }
            }
        }
        k = k + 1;
    }
    proof {
        assert(inputs@ + Seq::<IRArg>::empty() =~= inputs@);
    }
    match find_module(scope.modules, name) {
        None => Err(CompileError::Undefined),
        Some(m) => add_submodule(nodes, &scope.modules[m].nodes, &inputs),
    }
}

/// The names in scope with `name` bound to `arg`; `Redefinition` where the
/// name is bound already.
pub open spec fn bound(bindings: Seq<(String, IRArg)>, name: String, arg: IRArg) -> Result<
    Seq<(String, IRArg)>,
    CompileError,
> {
    if lookup(bindings, name@) is Some {
        Err(CompileError::Redefinition)
    } else {
        Ok(bindings.push((name, arg)))
    }
}

/// The graph and the names in scope after a node was added for each of the
/// first `k` names, and the name bound to it.
pub open spec fn named_nodes(
    nodes: Seq<Node>,
    bindings: Seq<(String, IRArg)>,
    names: Seq<String>,
    inputs: bool,
    k: int,
) -> Result<(Seq<Node>, Seq<(String, IRArg)>), CompileError>
    decreases k,
{
    if k <= 0 {
        Ok((nodes, bindings))
    } else {
        match named_nodes(nodes, bindings, names, inputs, k - 1) {
            Err(e) => Err(e),
            Ok((n1, b1)) => match node_added(
                n1,
                if inputs {
                    Node::Input((k - 1) as u32)
                } else {
                    Node::PlaceHolder
                },
                None,
            ) {
                Err(e) => Err(e),
                Ok((n2, arg)) => match bound(b1, names[k - 1], arg) {
                    Err(e) => Err(e),
                    Ok(b2) => Ok((n2, b2)),
                },
            },
        }
    }
}

proof fn lemma_named_error_stays(
    nodes: Seq<Node>,
    bindings: Seq<(String, IRArg)>,
    names: Seq<String>,
    inputs: bool,
    a: int,
    b: int,
)
    requires
        named_nodes(nodes, bindings, names, inputs, a) is Err,
        a <= b,
    ensures
        named_nodes(nodes, bindings, names, inputs, b) == named_nodes(
            nodes,
            bindings,
            names,
            inputs,
            a,
        ),
    decreases b - a,
{
    if a < b {
        lemma_named_error_stays(nodes, bindings, names, inputs, a, b - 1);
    }
}

/// Every binding is a number or a node of a graph of `len` nodes.
pub open spec fn bindings_in_range(bindings: Seq<(String, IRArg)>, len: nat) -> bool {
    forall|k: int| 0 <= k < bindings.len() ==> (#[trigger] bindings[k]).1.in_range(len)
}

/// Adds a node for each name, an input or else an empty slot, and binds the
/// name to it.
fn add_named_nodes(
    nodes: &mut Vec<IRNode>,
    bindings: &mut Vec<(String, IRArg)>,
    names: &Vec<String>,
    inputs: bool,
) -> (r: Result<(), CompileError>)
    requires
        graph_wf(graph_of(old(nodes)@)),
        bindings_in_range(old(bindings)@, old(nodes)@.len()),
        names@.len() <= u32::MAX,
    ensures
        match named_nodes(graph_of(old(nodes)@), old(bindings)@, names@, inputs, names@.len() as int) {
            Ok((after, scope)) => {
                &&& r is Ok
                &&& graph_of(final(nodes)@) == after
                &&& final(bindings)@ == scope
                &&& graph_wf(after)
                &&& after.len() == old(nodes)@.len() + names@.len()
                &&& bindings_in_range(scope, after.len())
                &&& (gates_linked(graph_of(old(nodes)@)) ==> gates_linked(after))
            },
            Err(e) => r == Err::<(), CompileError>(e),
        },
{
    let ghost g = graph_of(nodes@);
    let ghost b0 = bindings@;
    let mut k: usize = 0;
    while k < names.len()
        invariant
            k <= names@.len(),
            names@.len() <= u32::MAX,
            g == graph_of(old(nodes)@),
            b0 == old(bindings)@,
            named_nodes(g, b0, names@, inputs, k as int) == Ok::<
                (Seq<Node>, Seq<(String, IRArg)>),
                CompileError,
            >((graph_of(nodes@), bindings@)),
            graph_wf(graph_of(nodes@)),
            nodes@.len() == g.len() + k,
            bindings_in_range(bindings@, nodes@.len()),
            gates_linked(g) ==> gates_linked(graph_of(nodes@)),
        decreases names@.len() - k,
    {
        let node = if inputs {
            IRNode::Input(k as u32)
        } else {
            IRNode::PlaceHolder
        };
        let ghost before = graph_of(nodes@);
        let ghost scope_before = bindings@;
        proof {
            lemma_node_added(before, node@, None);
        }
        let arg = match add_node(nodes, node, None) {
            Err(e) => {
                proof {
                    lemma_named_error_stays(g, b0, names@, inputs, k + 1, names@.len() as int);
                }
                return Err(e);
            },
            Ok(arg) => arg,
        };
        if find(bindings, &names[k]).is_some() {
            proof {
                lemma_named_error_stays(g, b0, names@, inputs, k + 1, names@.len() as int);
            }
            return Err(CompileError::Redefinition);
        }
        bindings.push((names[k].clone(), arg));
        proof {
            assert(bindings@ == scope_before.push((names@[k as int], arg)));
            assert(graph_of(nodes@).len() == nodes@.len());
            assert forall|q: int| 0 <= q < bindings@.len() implies (#[trigger] bindings@[q]).1.in_range(
                nodes@.len(),
            ) by {
                if q < scope_before.len() {
                    assert(bindings@[q] == scope_before[q]);
                }
            }
        }
        k = k + 1;
    }
    Ok(())
}

/// The graph after the expressions `exprs[k..]` were lowered, each into an
/// output node of its index.
pub open spec fn outputs_lowered(exprs: Vec<Expr>, k: int, nodes: Seq<Node>, scope: Env) -> Result<
    Seq<Node>,
    CompileError,
>
    decreases exprs@.len() - k,
{
    if k < 0 || k >= exprs@.len() {
        Ok(nodes)
    } else {
        match lowered(exprs@[k], nodes, scope, None) {
            Err(e) => Err(e),
            Ok((n1, arg)) => match node_added(n1, Node::Output(k as u32, arg), None) {
                Err(e) => Err(e),
                Ok((n2, _)) => outputs_lowered(exprs, k + 1, n2, scope),
            },
        }
    }
}

/// The slots that the first `k` names are bound to; `Undefined` where one
/// is bound to no node.
pub open spec fn slots_of(bindings: Seq<(String, IRArg)>, names: Seq<String>, k: int) -> Result<
    Seq<u32>,
    CompileError,
>
    decreases k,
{
    if k <= 0 {
        Ok(seq![])
    } else {
        match slots_of(bindings, names, k - 1) {
            Err(e) => Err(e),
            Ok(slots) => match lookup(bindings, names[k - 1]@) {
                Some(IRArg::Link(slot, _)) => Ok(slots.push(slot)),
                _ => Err(CompileError::Undefined),
            },
        }
    }
}

/// The graph after result `k` and those after it were put into their slots,
/// each as the one driver of a multi-driver.
pub open spec fn results_bound(
    nodes: Seq<Node>,
    results: Seq<Option<IRArg>>,
    slots: Seq<u32>,
    k: int,
) -> Result<Seq<Node>, CompileError>
    decreases results.len() - k,
{
    if k < 0 || k >= results.len() {
        Ok(nodes)
    } else {
        match results[k] {
            None => Err(CompileError::ArityMismatch),
            Some(arg) => results_bound(
                nodes.update(slots[k] as int, Node::MultiDriver(seq![arg])),
                results,
                slots,
                k + 1,
            ),
        }
    }
}

/// The graph after a statement, and whether the statement was the outputs.
///
/// Nothing may follow the outputs. The outputs must be as many as the
/// declared returns, where returns are declared; each is lowered and
/// forwarded by an output node. A binding of one name lowers its
/// expression into the slot of the name; a binding of several names must be
/// a call, whose outputs, as many as the names, go to their slots.
pub open spec fn stmt_lowered(
    stmt: Statement,
    nodes: Seq<Node>,
    scope: Env,
    ret_types: Option<Vec<Option<u32>>>,
    outputs_set: bool,
) -> Result<(Seq<Node>, bool), CompileError> {
    if outputs_set {
        Err(CompileError::AfterOutput)
    } else {
        match stmt {
            Statement::Output(exprs) => if ret_types is Some && ret_types->Some_0@.len()
                != exprs@.len() {
                Err(CompileError::ArityMismatch)
            } else if exprs@.len() > i32::MAX {
                Err(CompileError::Limit)
            } else {
                match outputs_lowered(exprs, 0, nodes, scope) {
                    Err(e) => Err(e),
                    Ok(after) => Ok((after, true)),
                }
            },
            Statement::VarBinding(idents, expr) => match slots_of(
                scope.bindings,
                idents@,
                idents@.len() as int,
            ) {
                Err(e) => Err(e),
                Ok(slots) => if slots.len() == 1 {
                    match lowered(expr, nodes, scope, Some(slots[0])) {
                        Err(e) => Err(e),
                        Ok((after, _)) => Ok((after, false)),
                    }
                } else {
                    match expr {
                        Expr::SubModule(name, args) => match called(name@, args, nodes, scope) {
                            Err(e) => Err(e),
                            Ok((n1, results)) => if results.len() != slots.len() {
                                Err(CompileError::ArityMismatch)
                            } else {
                                match results_bound(n1, results, slots, 0) {
                                    Err(e) => Err(e),
                                    Ok(after) => Ok((after, false)),
                                }
                            },
                        },
                        _ => Err(CompileError::ArityMismatch),
                    }
                },
            },
            _ => Err(CompileError::Syntax),
        }
    }
}

proof fn lemma_slots_error_stays(bindings: Seq<(String, IRArg)>, names: Seq<String>, a: int, b: int)
    requires
        slots_of(bindings, names, a) is Err,
        a <= b,
    ensures
        slots_of(bindings, names, b) == slots_of(bindings, names, a),
    decreases b - a,
{
    if a < b {
        lemma_slots_error_stays(bindings, names, a, b - 1);
    }
}

/// The slots that the names are bound to.
fn find_slots(bindings: &Vec<(String, IRArg)>, names: &Vec<String>, Ghost(len): Ghost<nat>) -> (r:
    Result<Vec<u32>, CompileError>)
    requires
        bindings_in_range(bindings@, len),
    ensures
        match slots_of(bindings@, names@, names@.len() as int) {
            Ok(slots) => r is Ok && r->Ok_0@ == slots && slots.len() == names@.len() && forall|
                q: int,
            |
                0 <= q < slots.len() ==> #[trigger] slots[q] < len,
            Err(e) => r is Err && r->Err_0 == e,
        },
{
    let mut out: Vec<u32> = Vec::with_capacity(names.len());
    let mut k: usize = 0;
    while k < names.len()
        invariant
            k <= names@.len(),
            bindings_in_range(bindings@, len),
            slots_of(bindings@, names@, k as int) == Ok::<Seq<u32>, CompileError>(out@),
            out@.len() == k,
            forall|q: int| 0 <= q < out@.len() ==> #[trigger] out@[q] < len,
        decreases names@.len() - k,
    {
        proof {
            lemma_lookup_in_range(bindings@, names@[k as int]@, bindings@.len() as int, len);
        }
        match find(bindings, &names[k]) {
            Some(IRArg::Link(slot, _)) => {
                out.push(slot);
            },
            _ => {
                proof {
                    lemma_slots_error_stays(bindings@, names@, k + 1, names@.len() as int);
                }
                return Err(CompileError::Undefined);
            },
        }
        k = k + 1;
    }
    Ok(out)
}

/// Lowers the outputs of a module, each into an output node of its index.
fn add_outputs(nodes: &mut Vec<IRNode>, scope: &Scope, exprs: &Vec<Expr>) -> (r: Result<
    (),
    CompileError,
>)
    requires
        graph_wf(graph_of(old(nodes)@)),
        scope_wf(scope@, old(nodes)@.len()),
        exprs@.len() <= u32::MAX,
    ensures
        match outputs_lowered(*exprs, 0, graph_of(old(nodes)@), scope@) {
            Ok(after) => r is Ok && graph_of(final(nodes)@) == after && graph_wf(after)
                && after.len() >= old(nodes)@.len() && (gates_linked(graph_of(old(nodes)@))
                ==> gates_linked(after)),
            Err(e) => r == Err::<(), CompileError>(e),
        },
{
    let ghost g = graph_of(nodes@);
    let mut k: usize = 0;
    while k < exprs.len()
        invariant
            k <= exprs@.len(),
            exprs@.len() <= u32::MAX,
            g == graph_of(old(nodes)@),
            graph_wf(graph_of(nodes@)),
            nodes@.len() >= g.len(),
            scope_wf(scope@, g.len()),
            gates_linked(g) ==> gates_linked(graph_of(nodes@)),
            outputs_lowered(*exprs, 0, g, scope@) == outputs_lowered(
                *exprs,
                k as int,
                graph_of(nodes@),
                scope@,
            ),
        decreases exprs@.len() - k,
    {
        let out_arg = add_expr(nodes, scope, &exprs[k], None)?;
        let node = IRNode::Output(k as u32, out_arg);
        assert(node@.args() =~= seq![out_arg]);
        add_checked(nodes, node, None, Ghost(g))?;
        k = k + 1;
    }
    Ok(())
}

/// Puts each result into its slot, as the one driver of a multi-driver.
fn bind_results(nodes: &mut Vec<IRNode>, results: &Vec<Option<IRArg>>, slots: &Vec<u32>) -> (r:
    Result<(), CompileError>)
    requires
        graph_wf(graph_of(old(nodes)@)),
        results@.len() == slots@.len(),
        forall|q: int| 0 <= q < slots@.len() ==> #[trigger] slots@[q] < old(nodes)@.len(),
        forall|q: int|
            0 <= q < results@.len() && (#[trigger] results@[q]) is Some
                ==> results@[q]->Some_0.in_range(old(nodes)@.len()),
    ensures
        match results_bound(graph_of(old(nodes)@), results@, slots@, 0) {
            Ok(after) => r is Ok && graph_of(final(nodes)@) == after && graph_wf(after)
                && after.len() == old(nodes)@.len() && (gates_linked(graph_of(old(nodes)@))
                ==> gates_linked(after)),
            Err(e) => r == Err::<(), CompileError>(e),
        },
{
    let ghost g = graph_of(nodes@);
    let mut k: usize = 0;
    while k < results.len()
        invariant
            k <= results@.len(),
            results@.len() == slots@.len(),
            g == graph_of(old(nodes)@),
            graph_wf(graph_of(nodes@)),
            nodes@.len() == g.len(),
            forall|q: int| 0 <= q < slots@.len() ==> #[trigger] slots@[q] < g.len(),
            forall|q: int|
                0 <= q < results@.len() && (#[trigger] results@[q]) is Some
                    ==> results@[q]->Some_0.in_range(g.len()),
            gates_linked(g) ==> gates_linked(graph_of(nodes@)),
            results_bound(g, results@, slots@, 0) == results_bound(
                graph_of(nodes@),
                results@,
                slots@,
                k as int,
            ),
        decreases results@.len() - k,
    {
        match results[k] {
            None => {
                return Err(CompileError::ArityMismatch);
            },
            Some(arg) => {
                let mut proxy: Vec<IRArg> = Vec::new();
                proxy.push(arg);
                assert(proxy@ =~= seq![arg]);
                assert(slots@[k as int] < g.len());
                let ghost before = graph_of(nodes@);
                proof {
                    lemma_node_added(before, Node::MultiDriver(seq![arg]), Some(slots@[k as int]));
                    assert(Node::MultiDriver(seq![arg]).args() =~= seq![arg]);
                }
                set_node(nodes, slots[k] as usize, IRNode::MultiDriver(proxy));
                assert(graph_of(nodes@).len() == nodes@.len());
            },
        }
        k = k + 1;
    }
    Ok(())
}

/// Lowers one statement into the node list. Returns whether the statement
/// was the outputs.
pub fn add_stmt(
    nodes: &mut Vec<IRNode>,
    scope: &Scope,
    stmt: &Statement,
    ret_types: &Option<Vec<Option<u32>>>,
    outputs_set: bool,
) -> (r: Result<bool, CompileError>)
    requires
        graph_wf(graph_of(old(nodes)@)),
        scope_wf(scope@, old(nodes)@.len()),
    ensures
        match stmt_lowered(*stmt, graph_of(old(nodes)@), scope@, *ret_types, outputs_set) {
            Ok((after, outputs)) => r == Ok::<bool, CompileError>(outputs) && graph_of(
                final(nodes)@,
            ) == after && graph_wf(after) && after.len() >= old(nodes)@.len() && (gates_linked(
                graph_of(old(nodes)@),
            ) ==> gates_linked(after)),
            Err(e) => r == Err::<bool, CompileError>(e),
        },
{
    if outputs_set {
        return Err(CompileError::AfterOutput);
    }
    match stmt {
        Statement::Output(out_exprs) => {
            if let Some(types) = ret_types {
                if out_exprs.len() != types.len() {
                    return Err(CompileError::ArityMismatch);
                }
            }
            if out_exprs.len() > i32::MAX as usize {
                return Err(CompileError::Limit);
            }
            add_outputs(nodes, scope, out_exprs)?;
            Ok(true)
        },
        Statement::VarBinding(idents, expr) => {
            let out_slots = find_slots(scope.bindings, idents, Ghost(nodes@.len()))?;
            if out_slots.len() == 1 {
                add_expr(nodes, scope, expr, Some(out_slots[0]))?;
                Ok(false)
            } else {
                match expr {
                    Expr::SubModule(name, args) => {
                        let results = call_module(nodes, scope, name, args)?;
                        if results.len() != out_slots.len() {
                            return Err(CompileError::ArityMismatch);
                        }
                        bind_results(nodes, &results, &out_slots)?;
                        Ok(false)
                    },
                    _ => Err(CompileError::ArityMismatch),
                }
            }
        },
        _ => Err(CompileError::Syntax),
    }
}

/// The graph and the names in scope after an empty slot was reserved for
/// every name that the statement binds.
pub open spec fn stmt_reserved(
    stmt: Statement,
    nodes: Seq<Node>,
    bindings: Seq<(String, IRArg)>,
) -> Result<(Seq<Node>, Seq<(String, IRArg)>), CompileError> {
    match stmt {
        Statement::VarBinding(idents, _) => if idents@.len() > u32::MAX {
            Err(CompileError::Limit)
        } else {
            named_nodes(nodes, bindings, idents@, false, idents@.len() as int)
        },
        _ => Ok((nodes, bindings)),
    }
}

/// The graph and the names in scope after an empty slot was reserved for
/// every name that the first `k` statements bind.
pub open spec fn slots_reserved(
    stmts: Seq<Statement>,
    k: int,
    nodes: Seq<Node>,
    bindings: Seq<(String, IRArg)>,
) -> Result<(Seq<Node>, Seq<(String, IRArg)>), CompileError>
    decreases k,
{
    if k <= 0 {
        Ok((nodes, bindings))
    } else {
        match slots_reserved(stmts, k - 1, nodes, bindings) {
            Err(e) => Err(e),
            Ok((n1, b1)) => stmt_reserved(stmts[k - 1], n1, b1),
        }
    }
}

/// The number of outputs that a statement states.
pub open spec fn output_count(stmt: Statement) -> int {
    match stmt {
        Statement::Output(exprs) => exprs@.len() as int,
        _ => 0,
    }
}

/// The graph after the first `k` statements, whether the outputs are
/// stated, and how many there are.
pub open spec fn stmts_lowered(
    stmts: Seq<Statement>,
    k: int,
    nodes: Seq<Node>,
    scope: Env,
    ret_types: Option<Vec<Option<u32>>>,
) -> Result<(Seq<Node>, bool, int), CompileError>
    decreases k,
{
    if k <= 0 {
        Ok((nodes, false, 0))
    } else {
        match stmts_lowered(stmts, k - 1, nodes, scope, ret_types) {
            Err(e) => Err(e),
            Ok((n1, set, ports)) => match stmt_lowered(stmts[k - 1], n1, scope, ret_types, set) {
                Err(e) => Err(e),
                Ok((n2, outputs)) => Ok((n2, outputs, ports + output_count(stmts[k - 1]))),
            },
        }
    }
}

/// The graph after the passes that follow the build: constants folded and
/// unused nodes dropped, each where the settings ask for it; the graph made
/// legal; unused nodes dropped once more, as lowering gates leaves
/// comparisons unused.
pub open spec fn optimized(g: Seq<Node>, settings: CompileSettings) -> Result<
    Seq<Node>,
    CompileError,
> {
    match (if settings.fold_constants {
        fold_fix(g, usize::MAX as nat)
    } else {
        Ok(g)
    }) {
        Err(e) => Err(e),
        Ok(folded) => {
            let kept = if settings.prune {
                pruned(folded)
            } else {
                folded
            };
            match legalized(kept) {
                None => Err(CompileError::Limit),
                Some(legal) => if has_short_cycle(legal) {
                    Err(CompileError::ShortCycle)
                } else if settings.prune {
                    Ok(pruned(legal))
                } else {
                    Ok(legal)
                },
            }
        },
    }
}

/// The module that a parsed module is built into, among the modules and
/// constants before it.
///
/// Each argument gets an input node and its name; each bound name an empty
/// slot; then the statements are lowered in order; then the graph is
/// optimized. The ports are the arguments and the outputs. The module keeps
/// the settings it was built with, the names of its arguments and slots,
/// and whether a statement has stated its outputs.
pub open spec fn module_built(
    m: Module,
    settings: CompileSettings,
    modules: Seq<ModuleView>,
    constants: Seq<(String, i64)>,
) -> Result<ModuleView, CompileError> {
    if m.arg_types@.len() != m.arg_names@.len() {
        Err(CompileError::ArityMismatch)
    } else if m.arg_names@.len() > i32::MAX {
        Err(CompileError::Limit)
    } else {
        match named_nodes(seq![], seq![], m.arg_names@, true, m.arg_names@.len() as int) {
            Err(e) => Err(e),
            Ok((n1, b1)) => match slots_reserved(m.stmts@, m.stmts@.len() as int, n1, b1) {
                Err(e) => Err(e),
                Ok((n2, b2)) => match stmts_lowered(
                    m.stmts@,
                    m.stmts@.len() as int,
                    n2,
                    Env { bindings: b2, modules, constants },
                    m.ret_types,
                ) {
                    Err(e) => Err(e),
                    Ok((n3, outputs, ports)) => if m.arg_names@.len() + ports > i32::MAX {
                        Err(CompileError::Limit)
                    } else {
                        match optimized(n3, settings) {
                            Err(e) => Err(e),
                            Ok(graph) => Ok(
                                ModuleView {
                                    name: m.name@,
                                    settings,
                                    graph,
                                    port_count: m.arg_names@.len() + ports,
                                    bindings: b2,
                                    outputs_set: outputs,
                                    arg_types: m.arg_types@,
                                    ret_types: returns_of(m.ret_types),
                                },
                            ),
                        }
                    },
                },
            },
        }
    }
}

proof fn lemma_reserved_error_stays(
    stmts: Seq<Statement>,
    nodes: Seq<Node>,
    bindings: Seq<(String, IRArg)>,
    a: int,
    b: int,
)
    requires
        slots_reserved(stmts, a, nodes, bindings) is Err,
        a <= b,
    ensures
        slots_reserved(stmts, b, nodes, bindings) == slots_reserved(stmts, a, nodes, bindings),
    decreases b - a,
{
    if a < b {
        lemma_reserved_error_stays(stmts, nodes, bindings, a, b - 1);
    }
}

proof fn lemma_stmts_error_stays(
    stmts: Seq<Statement>,
    nodes: Seq<Node>,
    scope: Env,
    ret_types: Option<Vec<Option<u32>>>,
    a: int,
    b: int,
)
    requires
        stmts_lowered(stmts, a, nodes, scope, ret_types) is Err,
        a <= b,
    ensures
        stmts_lowered(stmts, b, nodes, scope, ret_types) == stmts_lowered(
            stmts,
            a,
            nodes,
            scope,
            ret_types,
        ),
    decreases b - a,
{
    if a < b {
        lemma_stmts_error_stays(stmts, nodes, scope, ret_types, a, b - 1);
    }
}

impl IRModule {
    /// Adds an input node for each argument and binds its name to it.
    pub fn add_args(&mut self, arg_names: &Vec<String>) -> (r: Result<(), CompileError>)
        requires
            old(self).wf(),
            bindings_in_range(old(self).bindings@, old(self).nodes@.len()),
            arg_names@.len() <= i32::MAX,
            old(self).port_count + arg_names@.len() <= i32::MAX,
        ensures
            match named_nodes(
                old(self).graph(),
                old(self).bindings@,
                arg_names@,
                true,
                arg_names@.len() as int,
            ) {
                Ok((after, scope)) => {
                    &&& r is Ok
                    &&& final(self).graph() == after
                    &&& final(self).bindings@ == scope
                    &&& final(self).port_count == old(self).port_count + arg_names@.len()
                    &&& final(self).wf()
                    &&& bindings_in_range(scope, after.len())
                },
                Err(e) => r == Err::<(), CompileError>(e),
            },
            *final(self) == (IRModule {
                nodes: final(self).nodes,
                bindings: final(self).bindings,
                port_count: final(self).port_count,
                ..*old(self)
            }),
    {
        add_named_nodes(&mut self.nodes, &mut self.bindings, arg_names, true)?;
        self.port_count = self.port_count + arg_names.len() as i32;
        Ok(())
    }

    /// Reserves an empty slot for each name that the statement binds, and
    /// binds the name to it. Runs over all statements before any is
    /// lowered, so that a statement may use a name that a later one binds.
    pub fn add_stmt_bindings(&mut self, stmt: &Statement) -> (r: Result<(), CompileError>)
        requires
            old(self).wf(),
            bindings_in_range(old(self).bindings@, old(self).nodes@.len()),
        ensures
            match stmt_reserved(*stmt, old(self).graph(), old(self).bindings@) {
                Ok((after, scope)) => {
                    &&& r is Ok
                    &&& final(self).graph() == after
                    &&& final(self).bindings@ == scope
                    &&& final(self).wf()
                    &&& bindings_in_range(scope, after.len())
                },
                Err(e) => r == Err::<(), CompileError>(e),
            },
            *final(self) == (IRModule {
                nodes: final(self).nodes,
                bindings: final(self).bindings,
                ..*old(self)
            }),
    {
        match stmt {
            Statement::VarBinding(idents, _) => {
                if idents.len() > u32::MAX as usize {
                    return Err(CompileError::Limit);
                }
                add_named_nodes(&mut self.nodes, &mut self.bindings, idents, false)
            },
            _ => Ok(()),
        }
    }
}

/// Runs the passes that follow the build.
fn optimize(ir: &mut IRModule) -> (r: Result<(), CompileError>)
    requires
        old(ir).wf(),
    ensures
        match optimized(old(ir).graph(), old(ir).settings) {
            Ok(graph) => r is Ok && final(ir).graph() == graph && final(ir).wf(),
            Err(e) => r == Err::<(), CompileError>(e),
        },
        *final(ir) == (IRModule { nodes: final(ir).nodes, ..*old(ir) }),
{
    if ir.settings.fold_constants {
        ir.fold_constants()?;
    }
    if ir.settings.prune {
        ir.prune();
    }
    ir.fix_nodes()?;
    if ir.settings.prune {
        ir.prune();
    }
    Ok(())
}

/// A copy of the declared returns.
fn clone_types(types: &Option<Vec<Option<u32>>>) -> (r: Option<Vec<Option<u32>>>)
    ensures
        match *types {
            Some(v) => r is Some && r->Some_0@ == v@,
            None => r is None,
        },
{
    match types {
        Some(v) => {
            let copy = v.clone();
            assert(copy@ =~= v@);
            Some(copy)
        },
        None => None,
    }
}

/// Lowers the statements of a module in order. Returns whether the outputs
/// are stated, and how many there are.
fn add_stmts(
    nodes: &mut Vec<IRNode>,
    scope: &Scope,
    stmts: &Vec<Statement>,
    ret_types: &Option<Vec<Option<u32>>>,
) -> (r: Result<(bool, u32), CompileError>)
    requires
        graph_wf(graph_of(old(nodes)@)),
        scope_wf(scope@, old(nodes)@.len()),
    ensures
        match stmts_lowered(
            stmts@,
            stmts@.len() as int,
            graph_of(old(nodes)@),
            scope@,
            *ret_types,
        ) {
            Ok((after, outputs, ports)) => r == Ok::<(bool, u32), CompileError>(
                (outputs, ports as u32),
            ) && 0 <= ports <= i32::MAX && graph_of(final(nodes)@) == after && graph_wf(after)
                && (gates_linked(graph_of(old(nodes)@)) ==> gates_linked(after)),
            Err(e) => r == Err::<(bool, u32), CompileError>(e),
        },
{
    let ghost g = graph_of(nodes@);
    let mut outputs_set = false;
    let mut ports: u32 = 0;
    let mut k: usize = 0;
    while k < stmts.len()
        invariant
            k <= stmts@.len(),
            g == graph_of(old(nodes)@),
            graph_wf(graph_of(nodes@)),
            nodes@.len() >= g.len(),
            scope_wf(scope@, g.len()),
            gates_linked(g) ==> gates_linked(graph_of(nodes@)),
            ports <= i32::MAX,
            !outputs_set ==> ports == 0,
            stmts_lowered(stmts@, k as int, g, scope@, *ret_types) == Ok::<
                (Seq<Node>, bool, int),
                CompileError,
            >((graph_of(nodes@), outputs_set, ports as int)),
        decreases stmts@.len() - k,
    {
        match add_stmt(nodes, scope, &stmts[k], ret_types, outputs_set) {
            Err(e) => {
                proof {
                    lemma_stmts_error_stays(
                        stmts@,
                        g,
                        scope@,
                        *ret_types,
                        k + 1,
                        stmts@.len() as int,
                    );
                }
                return Err(e);
            },
            Ok(outputs) => {
                if let Statement::Output(exprs) = &stmts[k] {
                    ports = exprs.len() as u32;
                }
                outputs_set = outputs;
            },
        }
        k = k + 1;
    }
    Ok((outputs_set, ports))
}

/// Builds a parsed module into a module of the graph: arguments, bound
/// names and statements are lowered, then the graph is optimized.
pub fn build_module(
    p_mod: &Module,
    settings: &CompileSettings,
    modules: &Vec<IRModule>,
    constants: &Vec<(String, i64)>,
) -> (r: Result<IRModule, CompileError>)
    requires
        forall|m: int| 0 <= m < modules@.len() ==> (#[trigger] modules@[m]).wf(),
    ensures
        match module_built(*p_mod, *settings, views_of(modules@), constants@) {
            Ok(view) => r is Ok && r->Ok_0@ == view && r->Ok_0.wf() && r->Ok_0.underived(),
            Err(e) => r is Err && r->Err_0 == e,
        },
{
    let mut ir = IRModule::new(p_mod.name.clone(), settings.duplicate());
    ir.arg_types = p_mod.arg_types.clone();
    assert(ir.arg_types@ =~= p_mod.arg_types@);
    ir.ret_types = clone_types(&p_mod.ret_types);
    if ir.arg_types.len() != p_mod.arg_names.len() {
        return Err(CompileError::ArityMismatch);
    }
    if p_mod.arg_names.len() > i32::MAX as usize {
        return Err(CompileError::Limit);
    }
    assert(ir.graph() =~= seq![]);
    assert(ir.bindings@ =~= seq![]);
    ir.add_args(&p_mod.arg_names)?;
    let ghost n1 = ir.graph();
    let ghost b1 = ir.bindings@;
    let mut k: usize = 0;
    while k < p_mod.stmts.len()
        invariant
            k <= p_mod.stmts@.len(),
            ir.wf(),
            ir.underived(),
            !ir.outputs_set,
            p_mod.arg_types@.len() == p_mod.arg_names@.len(),
            p_mod.arg_names@.len() <= i32::MAX,
            named_nodes(
                seq![],
                seq![],
                p_mod.arg_names@,
                true,
                p_mod.arg_names@.len() as int,
            ) == Ok::<(Seq<Node>, Seq<(String, IRArg)>), CompileError>((n1, b1)),
            bindings_in_range(ir.bindings@, ir.nodes@.len()),
            slots_reserved(p_mod.stmts@, k as int, n1, b1) == Ok::<
                (Seq<Node>, Seq<(String, IRArg)>),
                CompileError,
            >((ir.graph(), ir.bindings@)),
            ir.name@ == p_mod.name@,
            ir.settings == *settings,
            ir.port_count == p_mod.arg_names@.len(),
            ir.arg_types@ == p_mod.arg_types@,
            returns_of(ir.ret_types) == returns_of(p_mod.ret_types),
        decreases p_mod.stmts@.len() - k,
    {
        match ir.add_stmt_bindings(&p_mod.stmts[k]) {
            Err(e) => {
                proof {
                    lemma_reserved_error_stays(
                        p_mod.stmts@,
                        n1,
                        b1,
                        k + 1,
                        p_mod.stmts@.len() as int,
                    );
                }
                return Err(e);
            },
            Ok(()) => {},
        }
        k = k + 1;
    }
    let scope = Scope { bindings: &ir.bindings, modules, constants };
    let (outputs_set, ports) = add_stmts(&mut ir.nodes, &scope, &p_mod.stmts, &p_mod.ret_types)?;
    if ports > i32::MAX as u32 - p_mod.arg_names.len() as u32 {
        return Err(CompileError::Limit);
    }
    ir.port_count = ir.port_count + ports as i32;
    ir.outputs_set = outputs_set;
    optimize(&mut ir)?;
    Ok(ir)
}

/// The modules and constants after the first `k` items were built. A name
/// that is defined twice is `Redefinition`.
pub open spec fn items_built(
    items: Seq<ParseItem>,
    k: int,
    settings: CompileSettings,
    modules: Seq<ModuleView>,
    constants: Seq<(String, i64)>,
) -> Result<(Seq<ModuleView>, Seq<(String, i64)>), CompileError>
    decreases k,
{
    if k <= 0 {
        Ok((modules, constants))
    } else {
        match items_built(items, k - 1, settings, modules, constants) {
            Err(e) => Err(e),
            Ok((ms, cs)) => match items[k - 1] {
                ParseItem::Constant(name, num) => if lookup(cs, name@) is Some {
                    Err(CompileError::Redefinition)
                } else {
                    Ok((ms, cs.push((name, num))))
                },
                ParseItem::Module(m) => match module_built(m, settings, ms, cs) {
                    Err(e) => Err(e),
                    Ok(view) => if module_named(ms, view.name) is Some {
                        Err(CompileError::Redefinition)
                    } else {
                        Ok((ms.push(view), cs))
                    },
                },
            },
        }
    }
}

proof fn lemma_items_error_stays(
    items: Seq<ParseItem>,
    settings: CompileSettings,
    modules: Seq<ModuleView>,
    constants: Seq<(String, i64)>,
    a: int,
    b: int,
)
    requires
        items_built(items, a, settings, modules, constants) is Err,
        a <= b,
    ensures
        items_built(items, b, settings, modules, constants) == items_built(
            items,
            a,
            settings,
            modules,
            constants,
        ),
    decreases b - a,
{
    if a < b {
        lemma_items_error_stays(items, settings, modules, constants, a, b - 1);
    }
}

/// Builds the items of a program in order, adding to the modules and
/// constants that are there: a constant is recorded under its name, a
/// module is built among the modules and constants before it.
///
/// On success the tables end as `items_built` gives them; else the result
/// is its error, and the tables hold what was built before it. Either way
/// what the tables held before the call stays as it was, and each module
/// that was added has no symbols, cells or wires yet. Every
/// module in the table stays well-formed.
pub fn build_ir(
    parse_mods: &Vec<ParseItem>,
    settings: &CompileSettings,
    modules: &mut Vec<IRModule>,
    constants: &mut Vec<(String, i64)>,
) -> (r: Result<(), CompileError>)
    requires
        forall|m: int| 0 <= m < old(modules)@.len() ==> (#[trigger] old(modules)@[m]).wf(),
    ensures
        match items_built(
            parse_mods@,
            parse_mods@.len() as int,
            *settings,
            views_of(old(modules)@),
            old(constants)@,
        ) {
            Ok((ms, cs)) => r is Ok && views_of(final(modules)@) == ms && final(constants)@ == cs,
            Err(e) => r == Err::<(), CompileError>(e),
        },
        forall|m: int| 0 <= m < final(modules)@.len() ==> (#[trigger] final(modules)@[m]).wf(),
        old(modules)@.len() <= final(modules)@.len(),
        forall|m: int|
            0 <= m < old(modules)@.len() ==> #[trigger] final(modules)@[m] == old(modules)@[m],
        forall|m: int|
            old(modules)@.len() <= m < final(modules)@.len()
                ==> (#[trigger] final(modules)@[m]).underived(),
        old(constants)@.len() <= final(constants)@.len(),
        forall|c: int|
            0 <= c < old(constants)@.len()
                ==> #[trigger] final(constants)@[c] == old(constants)@[c],
{
    let ghost ms0 = views_of(modules@);
    let ghost cs0 = constants@;
    let mut k: usize = 0;
    while k < parse_mods.len()
        invariant
            k <= parse_mods@.len(),
            ms0 == views_of(old(modules)@),
            cs0 == old(constants)@,
            forall|m: int| 0 <= m < modules@.len() ==> (#[trigger] modules@[m]).wf(),
            old(modules)@.len() <= modules@.len(),
            forall|m: int| 0 <= m < old(modules)@.len() ==> #[trigger] modules@[m] == old(modules)@[m],
            forall|m: int|
                old(modules)@.len() <= m < modules@.len() ==> (#[trigger] modules@[m]).underived(),
            old(constants)@.len() <= constants@.len(),
            forall|c: int|
                0 <= c < old(constants)@.len() ==> #[trigger] constants@[c] == old(constants)@[c],
            items_built(parse_mods@, k as int, *settings, ms0, cs0) == Ok::<
                (Seq<ModuleView>, Seq<(String, i64)>),
                CompileError,
            >((views_of(modules@), constants@)),
        decreases parse_mods@.len() - k,
    {
        match &parse_mods[k] {
            ParseItem::Constant(name, num) => {
                if find(constants, name).is_some() {
                    proof {
                        lemma_items_error_stays(
                            parse_mods@,
                            *settings,
                            ms0,
                            cs0,
                            k + 1,
                            parse_mods@.len() as int,
                        );
                    }
                    return Err(CompileError::Redefinition);
                }
                constants.push((name.clone(), *num));
            },
            ParseItem::Module(p_mod) => {
                let ir = match build_module(p_mod, settings, modules, constants) {
                    Err(e) => {
                        proof {
                            lemma_items_error_stays(
                                parse_mods@,
                                *settings,
                                ms0,
                                cs0,
                                k + 1,
                                parse_mods@.len() as int,
                            );
                        }
                        return Err(e);
                    },
                    Ok(ir) => ir,
                };
                if find_module(modules, &ir.name).is_some() {
                    proof {
                        lemma_items_error_stays(
                            parse_mods@,
                            *settings,
                            ms0,
                            cs0,
                            k + 1,
                            parse_mods@.len() as int,
                        );
                    }
                    return Err(CompileError::Redefinition);
                }
                let ghost before = modules@;
                modules.push(ir);
                proof {
                    assert(views_of(modules@) =~= views_of(before).push(ir@));
                    assert forall|m: int| 0 <= m < modules@.len() implies (#[trigger] modules@[m]).wf() by {
                        if m < before.len() {
                            assert(modules@[m] == before[m]);
                        }
                    }
                }
            },
        }
        k = k + 1;
    }
    Ok(())
}

} // verus!
