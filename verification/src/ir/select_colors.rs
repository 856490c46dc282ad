use vstd::prelude::*;
use crate::error::CompileError;
use crate::ir::select_symbols::has_unlowered;
use crate::ir::{
    gates_linked, graph_of, graph_wf, set_node, IRArg, IRModule, IRNode, Node, WireColor,
};

verus! {

/// How many red and how many green wires leave a node.
#[derive(Debug, Clone, Copy, PartialEq, Eq, Structural)]
pub struct ColorCounts {
    pub red: u64,
    pub green: u64,
}

/// Whether the operand comes from a module input: it is a link to an input,
/// or to a multi-driver one of whose drivers does, through at most `fuel`
/// multi-drivers.
pub open spec fn is_input_arg(g: Seq<Node>, arg: IRArg, fuel: nat) -> bool
    decreases fuel, 0nat,
{
    match arg {
        IRArg::Constant(_) => false,
        IRArg::Link(parent, _) => if parent < g.len() {
            match g[parent as int] {
                Node::Input(_) => true,
                Node::MultiDriver(args) => fuel > 0 && any_input_arg(
                    g,
                    args,
                    0,
                    (fuel - 1) as nat,
                ),
                _ => false,
            }
        } else {
            false
        },
    }
}

/// Whether one of the operands `args[k..]` comes from a module input.
pub open spec fn any_input_arg(g: Seq<Node>, args: Seq<IRArg>, k: int, fuel: nat) -> bool
    decreases fuel, 1 + args.len() - k,
{
    if k < 0 || k >= args.len() {
        false
    } else {
        is_input_arg(g, args[k], fuel) || any_input_arg(g, args, k + 1, fuel)
    }
}

/// Both operands of the node come from module inputs: one net cannot tell
/// them apart.
pub open spec fn ambiguous(g: Seq<Node>, i: int) -> bool {
    match g[i] {
        Node::BinOp(l, _, r) => is_input_arg(g, l, g.len()) && is_input_arg(g, r, g.len()),
        Node::BinOpCmpGate(l, _, _, r) => is_input_arg(g, l, g.len()) && is_input_arg(
            g,
            r,
            g.len(),
        ),
        _ => false,
    }
}

/// Some node has both operands from module inputs.
pub open spec fn has_ambiguous(g: Seq<Node>) -> bool {
    exists|i: int| 0 <= i < g.len() && #[trigger] ambiguous(g, i)
}

/// The colour for a wire from a node with the given counts: the one that is
/// not forbidden, or the one with fewer wires, red where they tie.
pub open spec fn pick(forbid: WireColor, counts: ColorCounts) -> WireColor {
    match forbid {
        WireColor::Red => WireColor::Green,
        WireColor::Green => WireColor::Red,
        WireColor::Unknown => if counts.red <= counts.green {
            WireColor::Red
        } else {
            WireColor::Green
        },
    }
}

/// The counts with one wire more of the given colour.
pub open spec fn counted(counts: ColorCounts, color: WireColor) -> ColorCounts {
    match color {
        WireColor::Red => ColorCounts { red: (counts.red + 1) as u64, green: counts.green },
        WireColor::Green => ColorCounts { red: counts.red, green: (counts.green + 1) as u64 },
        WireColor::Unknown => counts,
    }
}

/// The operand with its colour chosen, the colour, and the counts after it.
/// A number has no colour.
pub open spec fn colored_arg(arg: IRArg, forbid: WireColor, counts: Seq<ColorCounts>) -> (
    IRArg,
    WireColor,
    Seq<ColorCounts>,
) {
    match arg {
        IRArg::Link(parent, _) => {
            let color = pick(forbid, counts[parent as int]);
            (
                IRArg::Link(parent, color),
                color,
                counts.update(parent as int, counted(counts[parent as int], color)),
            )
        },
        IRArg::Constant(_) => (arg, WireColor::Unknown, counts),
    }
}

/// The colour that the left operand of a combinator may not have: green
/// where it comes from an input, red where the right one does.
pub open spec fn forbid_for(g: Seq<Node>, l: IRArg, r: IRArg) -> WireColor {
    if is_input_arg(g, l, g.len()) {
        WireColor::Green
    } else if is_input_arg(g, r, g.len()) {
        WireColor::Red
    } else {
        WireColor::Unknown
    }
}

/// Node `i` with the colours of its operands chosen, and the counts after
/// it. The right operand of a combinator may not have the colour of the
/// left one; an output has red; a multi-driver is left to the nodes it
/// feeds.
pub open spec fn colored_node(g: Seq<Node>, node: Node, counts: Seq<ColorCounts>) -> (
    Node,
    Seq<ColorCounts>,
) {
    match node {
        Node::BinOp(l, op, r) => {
            let first = colored_arg(l, forbid_for(g, l, r), counts);
            let second = colored_arg(r, first.1, first.2);
            (Node::BinOp(first.0, op, second.0), second.2)
        },
        Node::BinOpCmpGate(l, op, k, r) => {
            let first = colored_arg(l, forbid_for(g, l, r), counts);
            let second = colored_arg(r, first.1, first.2);
            (Node::BinOpCmpGate(first.0, op, k, second.0), second.2)
        },
        Node::BinOpSame(arg, op) => {
            let only = colored_arg(
                arg,
                if is_input_arg(g, arg, g.len()) {
                    WireColor::Green
                } else {
                    WireColor::Unknown
                },
                counts,
            );
            (Node::BinOpSame(only.0, op), only.2)
        },
        Node::Output(n, arg) => {
            let only = colored_arg(arg, WireColor::Green, counts);
            (Node::Output(n, only.0), only.2)
        },
        _ => (node, counts),
    }
}

/// The graph with the first `k` nodes coloured, and the counts after them.
/// Whether an operand comes from an input is read off the graph as it was.
pub open spec fn colored_upto(g: Seq<Node>, k: int) -> (Seq<Node>, Seq<ColorCounts>)
    decreases k,
{
    if k <= 0 {
        (g, Seq::new(g.len(), |i: int| ColorCounts { red: 0, green: 0 }))
    } else {
        let prev = colored_upto(g, k - 1);
        let next = colored_node(g, prev.0[k - 1], prev.1);
        (prev.0.update(k - 1, next.0), next.1)
    }
}

/// The graph with every operand of a combinator or output coloured.
pub open spec fn colored(g: Seq<Node>) -> Seq<Node> {
    colored_upto(g, g.len() as int).0
}

/// Whether the operand comes from a module input.
pub fn is_input(nodes: &Vec<IRNode>, arg: &IRArg, fuel: usize) -> (r: bool)
    ensures
        r == is_input_arg(graph_of(nodes@), *arg, fuel as nat),
    decreases fuel, 0nat,
{
    match arg {
        IRArg::Constant(_) => false,
        IRArg::Link(parent, _) => {
            let parent = *parent as usize;
            if parent >= nodes.len() {
                return false;
            }
            match &nodes[parent] {
                IRNode::Input(_) => true,
                IRNode::MultiDriver(args) => fuel > 0 && any_is_input(nodes, args, fuel - 1),
                _ => false,
            }
        },
    }
}

fn any_is_input(nodes: &Vec<IRNode>, args: &Vec<IRArg>, fuel: usize) -> (r: bool)
    ensures
        r == any_input_arg(graph_of(nodes@), args@, 0, fuel as nat),
    decreases fuel, 1nat,
{
    let ghost g = graph_of(nodes@);
    let mut k: usize = 0;
    while k < args.len()
        invariant
            k <= args.len(),
            g == graph_of(nodes@),
            any_input_arg(g, args@, 0, fuel as nat) == any_input_arg(
                g,
                args@,
                k as int,
                fuel as nat,
            ),
        decreases args.len() - k,
    {
        if is_input(nodes, &args[k], fuel) {
            return true;
        }
        k = k + 1;
    }
    false
}

/// Chooses the colour of a wire along `arg` and counts it at the node it
/// leaves. Returns the colour; a number has none.
pub fn update_color_for_arg(
    arg: &mut IRArg,
    forbid_color: WireColor,
    out_color_counts: &mut Vec<ColorCounts>,
) -> (r: WireColor)
    requires
        old(arg).in_range(old(out_color_counts)@.len()),
        forall|p: int|
            0 <= p < old(out_color_counts)@.len() ==> (#[trigger] old(out_color_counts)@[p]).red
                < u64::MAX && old(out_color_counts)@[p].green < u64::MAX,
    ensures
        (*final(arg), r, final(out_color_counts)@) == colored_arg(
            *old(arg),
            forbid_color,
            old(out_color_counts)@,
        ),
{
    match *arg {
        IRArg::Link(parent, _) => {
            let counts = out_color_counts[parent as usize];
            let red_picked = match forbid_color {
                WireColor::Red => false,
                WireColor::Green => true,
                WireColor::Unknown => counts.red <= counts.green,
            };
            let color = if red_picked {
                out_color_counts[parent as usize] = ColorCounts {
                    red: counts.red + 1,
                    green: counts.green,
                };
                WireColor::Red
            } else {
                out_color_counts[parent as usize] = ColorCounts {
                    red: counts.red,
                    green: counts.green + 1,
                };
                WireColor::Green
            };
            *arg = IRArg::Link(parent, color);
            color
        },
        IRArg::Constant(_) => WireColor::Unknown,
    }
}

/// The colour that the first operand of node `i` may not have.
pub open spec fn first_forbid(g: Seq<Node>, i: int) -> WireColor {
    match g[i] {
        Node::BinOp(l, _, r) => forbid_for(g, l, r),
        Node::BinOpCmpGate(l, _, _, r) => forbid_for(g, l, r),
        Node::BinOpSame(arg, _) => if is_input_arg(g, arg, g.len()) {
            WireColor::Green
        } else {
            WireColor::Unknown
        },
        _ => WireColor::Green,
    }
}

/// Colouring leaves every node its kind and its links their targets.
proof fn lemma_colored_upto_shape(g: Seq<Node>, k: int)
    requires
        0 <= k <= g.len(),
        graph_wf(g),
    ensures
        ({
            let c = colored_upto(g, k);
            &&& c.0.len() == g.len()
            &&& c.1.len() == g.len()
            &&& graph_wf(c.0)
            &&& forall|q: int| k <= q < g.len() ==> c.0[q] == g[q]
            &&& forall|p: int|
                0 <= p < g.len() ==> (#[trigger] c.1[p]).red + c.1[p].green <= 2 * k
            &&& gates_linked(g) ==> gates_linked(c.0)
        }),
    decreases k,
{
    if k > 0 {
        lemma_colored_upto_shape(g, k - 1);
        let prev = colored_upto(g, k - 1);
        let node = prev.0[k - 1];
        assert(node == g[k - 1]);
        assert(node.links_in_range(g.len()));
        let next = colored_node(g, node, prev.1);
        let c = colored_upto(g, k);
        match node {
            Node::BinOp(l, op, r) => {
                assert(node.args()[0] == l && node.args()[1] == r);
                assert(next.0.args() =~= seq![next.0->BinOp_0, next.0->BinOp_2]);
            },
            Node::BinOpCmpGate(l, op, n, r) => {
                assert(node.args()[0] == l && node.args()[1] == r);
                assert(next.0.args() =~= seq![next.0->BinOpCmpGate_0, next.0->BinOpCmpGate_3]);
            },
            Node::BinOpSame(arg, op) => {
                assert(node.args()[0] == arg);
                assert(next.0.args() =~= seq![next.0->BinOpSame_0]);
            },
            Node::Output(n, arg) => {
                assert(node.args()[0] == arg);
                assert(next.0.args() =~= seq![next.0->Output_1]);
            },
            _ => {},
        }
        assert(next.0.links_in_range(g.len()));
        assert forall|q: int| 0 <= q < c.0.len() implies (#[trigger] c.0[q]).links_in_range(
            c.0.len(),
        ) by {
            if q != k - 1 {
                assert(prev.0[q].links_in_range(g.len()));
            }
        }
        if gates_linked(g) {
            assert forall|q: int| 0 <= q < c.0.len() && #[trigger] c.0[q] is BinOpCmpGate implies c.0[q]->BinOpCmpGate_0 is Link
                && c.0[q]->BinOpCmpGate_3 is Link by {
                if q != k - 1 {
                    assert(prev.0[q] is BinOpCmpGate);
                } else {
                    assert(g[q] is BinOpCmpGate);
                }
            }
        }
    }
}

/// Chooses the colours of all wires in the node list.
///
/// The result is `InputAmbiguity`, with the list as it was, where both
/// operands of a combinator come from module inputs; else `EmitInvalid`,
/// with the list as it was, where a gate or an empty slot is left; else the
/// list ends as `colored` gives it.
pub fn select_color_list(nodes: &mut Vec<IRNode>) -> (r: Result<(), CompileError>)
    requires
        graph_wf(graph_of(old(nodes)@)),
    ensures
        has_ambiguous(graph_of(old(nodes)@)) ==> r == Err::<(), CompileError>(
            CompileError::InputAmbiguity,
        ),
        !has_ambiguous(graph_of(old(nodes)@)) && has_unlowered(graph_of(old(nodes)@)) ==> r
            == Err::<(), CompileError>(CompileError::EmitInvalid),
        !has_ambiguous(graph_of(old(nodes)@)) && !has_unlowered(graph_of(old(nodes)@)) ==> r is Ok,
        r is Err ==> final(nodes)@ == old(nodes)@,
        r is Ok ==> graph_of(final(nodes)@) == colored(graph_of(old(nodes)@)) && graph_wf(
            graph_of(final(nodes)@),
        ) && (gates_linked(graph_of(old(nodes)@)) ==> gates_linked(graph_of(final(nodes)@))),
{
    let ghost g = graph_of(nodes@);
    let n = nodes.len();
    let mut forbids: Vec<WireColor> = Vec::with_capacity(n);
    let mut unlowered = false;
    let mut i: usize = 0;
    while i < n
        invariant
            i <= n,
            n == nodes@.len(),
            nodes@ == old(nodes)@,
            g == graph_of(nodes@),
            forbids@.len() == i,
            forall|q: int| 0 <= q < i ==> #[trigger] forbids@[q] == first_forbid(g, q),
            forall|q: int| 0 <= q < i ==> !#[trigger] ambiguous(g, q),
            unlowered == exists|q: int| 0 <= q < i && (#[trigger] g[q] is Gate || g[q] is PlaceHolder),
        decreases n - i,
    {
        let forbid = match &nodes[i] {
            IRNode::BinOp(l, _, r) => {
                let li = is_input(nodes, l, n);
                let ri = is_input(nodes, r, n);
                if li && ri {
                    assert(ambiguous(g, i as int));
                    return Err(CompileError::InputAmbiguity);
                }
                if li {
                    WireColor::Green
                } else if ri {
                    WireColor::Red
                } else {
                    WireColor::Unknown
                }
            },
            IRNode::BinOpCmpGate(l, _, _, r) => {
                let li = is_input(nodes, l, n);
                let ri = is_input(nodes, r, n);
                if li && ri {
                    assert(ambiguous(g, i as int));
                    return Err(CompileError::InputAmbiguity);
                }
                if li {
                    WireColor::Green
                } else if ri {
                    WireColor::Red
                } else {
                    WireColor::Unknown
                }
            },
            IRNode::BinOpSame(arg, _) => {
                if is_input(nodes, arg, n) {
                    WireColor::Green
                } else {
                    WireColor::Unknown
                }
            },
            IRNode::Gate(_, _, _) => {
                unlowered = true;
                assert(g[i as int] is Gate);
                WireColor::Green
            },
            IRNode::PlaceHolder => {
                unlowered = true;
                assert(g[i as int] is PlaceHolder);
                WireColor::Green
            },
            _ => WireColor::Green,
        };
        forbids.push(forbid);
        i = i + 1;
    }
    if unlowered {
        return Err(CompileError::EmitInvalid);
    }
    let mut counts: Vec<ColorCounts> = Vec::with_capacity(n);
    i = 0;
    while i < n
        invariant
            i <= n,
            counts@.len() == i,
            forall|q: int| 0 <= q < i ==> #[trigger] counts@[q] == (ColorCounts { red: 0, green: 0 }),
        decreases n - i,
    {
        counts.push(ColorCounts { red: 0, green: 0 });
        i = i + 1;
    }
    assert(counts@ =~= colored_upto(g, 0).1);
    i = 0;
    while i < n
        invariant
            i <= n,
            n == g.len(),
            n == nodes@.len(),
            graph_wf(g),
            forbids@.len() == n,
            forall|q: int| 0 <= q < n ==> #[trigger] forbids@[q] == first_forbid(g, q),
            (graph_of(nodes@), counts@) == colored_upto(g, i as int),
        decreases n - i,
    {
        proof {
            lemma_colored_upto_shape(g, i as int);
            lemma_colored_upto_shape(g, i + 1);
        }
        let ghost before = graph_of(nodes@);
        let ghost node = before[i as int];
        assert(node == g[i as int]);
        assert(node.links_in_range(g.len()));
        let forbid = forbids[i];
        match &nodes[i] {
            IRNode::BinOp(l, op, r) => {
                let mut l = *l;
                let mut r = *r;
                let op = *op;
                assert(node.args()[0] == l && node.args()[1] == r);
                let first = update_color_for_arg(&mut l, forbid, &mut counts);
                update_color_for_arg(&mut r, first, &mut counts);
                set_node(nodes, i, IRNode::BinOp(l, op, r));
            },
            IRNode::BinOpCmpGate(l, op, k, r) => {
                let mut l = *l;
                let mut r = *r;
                let op = *op;
                let k = *k;
                assert(node.args()[0] == l && node.args()[1] == r);
                let first = update_color_for_arg(&mut l, forbid, &mut counts);
                update_color_for_arg(&mut r, first, &mut counts);
                set_node(nodes, i, IRNode::BinOpCmpGate(l, op, k, r));
            },
            IRNode::BinOpSame(arg, op) => {
                let mut arg = *arg;
                let op = *op;
                assert(node.args()[0] == arg);
                update_color_for_arg(&mut arg, forbid, &mut counts);
                set_node(nodes, i, IRNode::BinOpSame(arg, op));
            },
            IRNode::Output(port, arg) => {
                let mut arg = *arg;
                let port = *port;
                assert(node.args()[0] == arg);
                update_color_for_arg(&mut arg, WireColor::Green, &mut counts);
                set_node(nodes, i, IRNode::Output(port, arg));
            },
            _ => {
                assert(before.update(i as int, node) =~= before);
            },
        }
        i = i + 1;
    }
    proof {
        lemma_colored_upto_shape(g, n as int);
    }
    Ok(())
}

impl IRModule {
    /// Chooses the colour of every wire into a combinator or an output,
    /// spreading the wires that leave a node over the two colours. An
    /// operand that comes from a module input gets red, and the two operands
    /// of a combinator never get one colour.
    pub fn select_colors(&mut self) -> (r: Result<(), CompileError>)
        requires
            old(self).wf(),
        ensures
            *final(self) == (IRModule { nodes: final(self).nodes, ..*old(self) }),
            has_ambiguous(old(self).graph()) ==> r == Err::<(), CompileError>(
                CompileError::InputAmbiguity,
            ),
            !has_ambiguous(old(self).graph()) && has_unlowered(old(self).graph()) ==> r
                == Err::<(), CompileError>(CompileError::EmitInvalid),
            !has_ambiguous(old(self).graph()) && !has_unlowered(old(self).graph()) ==> r is Ok,
            r is Err ==> final(self).nodes@ == old(self).nodes@,
            r is Ok ==> final(self).graph() == colored(old(self).graph()),
            final(self).wf(),
    {
        select_color_list(&mut self.nodes)
    }
}

} // verus!
