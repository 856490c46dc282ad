use vstd::prelude::*;
use crate::common::BinOp;
use crate::error::CompileError;
use crate::ir::{
    gates_linked, graph_of, graph_wf, push_node, set_node, IRArg, IRModule, IRNode, Node, WireColor,
};

verus! {

/// The vacated slot nearest to `i`, looking `offset`, `offset + 1`, ... steps
/// away, above `i` before below it.
pub open spec fn vacant_near(g: Seq<Node>, i: int, offset: int) -> Option<int>
    decreases g.len() + i + 1 - offset,
{
    if offset < 0 || i < 0 || (offset > i && i + offset >= g.len()) {
        None
    } else if i + offset < g.len() && g[i + offset] is Removed {
        Some(i + offset)
    } else if offset <= i && i - offset < g.len() && g[i - offset] is Removed {
        Some(i - offset)
    } else {
        vacant_near(g, i, offset + 1)
    }
}

/// The graph with `node` put into the vacated slot nearest to `i`, or at the
/// end where no slot is vacated, and the link to it. There is no result
/// where the node would get an index beyond 32 bits.
pub open spec fn place_near(g: Seq<Node>, i: int, node: Node) -> Option<(Seq<Node>, IRArg)> {
    match vacant_near(g, i, 0) {
        Some(s) => Some((g.update(s, node), IRArg::Link(s as u32, WireColor::Unknown))),
        None => if g.len() >= u32::MAX {
            None
        } else {
            Some((g.push(node), IRArg::Link(g.len() as u32, WireColor::Unknown)))
        },
    }
}

/// `arg` as a link: a number gets a constant node of its own near `i`.
pub open spec fn linked_arg(g: Seq<Node>, i: int, arg: IRArg) -> Option<(Seq<Node>, IRArg)> {
    match arg {
        IRArg::Constant(x) => place_near(g, i, Node::Constant(x)),
        IRArg::Link(_, _) => Some((g, arg)),
    }
}

/// The operands of a multi-driver at `i` from index `j` on, each as a link.
pub open spec fn linked_args(g: Seq<Node>, i: int, args: Seq<IRArg>, j: int) -> Option<
    (Seq<Node>, Seq<IRArg>),
>
    decreases args.len() - j,
{
    if j < 0 || j >= args.len() {
        Some((g, args))
    } else {
        match linked_arg(g, i, args[j]) {
            None => None,
            Some((h, a)) => linked_args(h, i, args.update(j, a), j + 1),
        }
    }
}

/// The first rewriting of node `i`: an operator on one link twice becomes a
/// single-input operator, a comparison gets a link on its left, a
/// multi-driver gets links only.
pub open spec fn shape_step(g: Seq<Node>, i: int) -> Option<Seq<Node>> {
    match g[i] {
        Node::BinOp(l, op, r) => if l is Link && l == r {
            Some(g.update(i, Node::BinOpSame(l, op)))
        } else if op.spec_is_compare() && !(l is Link) {
            if r is Link {
                Some(g.update(i, Node::BinOp(r, op.spec_flip(), l)))
            } else {
                match linked_arg(g, i, l) {
                    None => None,
                    Some((h, a)) => Some(h.update(i, Node::BinOp(a, op, r))),
                }
            }
        } else {
            Some(g)
        },
        Node::MultiDriver(args) => match linked_args(g, i, args, 0) {
            None => None,
            Some((h, linked)) => Some(h.update(i, Node::MultiDriver(linked))),
        },
        _ => Some(g),
    }
}

/// Gate `i` as a decider that copies its input: fused with the
/// comparison that feeds its condition where that compares with a number,
/// else testing the condition against zero.
pub open spec fn gate_step(g: Seq<Node>, i: int) -> Option<Seq<Node>> {
    match g[i] {
        Node::Gate(cond, polarity, gated) => match linked_arg(g, i, gated) {
            None => None,
            Some((g1, gated1)) => if fusable(g1, cond) {
                let source = g1[cond.target()];
                let op = source->BinOp_1;
                Some(
                    g1.update(
                        i,
                        Node::BinOpCmpGate(
                            source->BinOp_0,
                            if polarity {
                                op
                            } else {
                                op.spec_invert()
                            },
                            source->BinOp_2->Constant_0,
                            gated1,
                        ),
                    ),
                )
            } else {
                match linked_arg(g1, i, cond) {
                    None => None,
                    Some((g2, cond1)) => Some(
                        g2.update(
                            i,
                            Node::BinOpCmpGate(
                                cond1,
                                if polarity {
                                    BinOp::CmpNeq
                                } else {
                                    BinOp::CmpEq
                                },
                                0,
                                gated1,
                            ),
                        ),
                    ),
                }
            },
        },
        _ => Some(g),
    }
}

/// Whether `cond` is the output of a comparison of a link with a number.
pub open spec fn fusable(g: Seq<Node>, cond: IRArg) -> bool {
    &&& cond is Link
    &&& cond.target() < g.len()
    &&& g[cond.target()] is BinOp
    &&& g[cond.target()]->BinOp_1.spec_is_compare()
    &&& g[cond.target()]->BinOp_2 is Constant
}

/// `shape_step` on the nodes `0..n` in turn.
pub open spec fn shape_steps(g: Seq<Node>, n: int) -> Option<Seq<Node>>
    decreases n,
{
    if n <= 0 {
        Some(g)
    } else {
        match shape_steps(g, n - 1) {
            None => None,
            Some(h) => shape_step(h, n - 1),
        }
    }
}

/// `gate_step` on the nodes `0..n` in turn.
pub open spec fn gate_steps(g: Seq<Node>, n: int) -> Option<Seq<Node>>
    decreases n,
{
    if n <= 0 {
        Some(g)
    } else {
        match gate_steps(g, n - 1) {
            None => None,
            Some(h) => gate_step(h, n - 1),
        }
    }
}

/// The graph made legal for emission: every node reshaped, then every gate
/// lowered. Nodes added on the way are constants and need neither.
pub open spec fn legalized(g: Seq<Node>) -> Option<Seq<Node>> {
    match shape_steps(g, g.len() as int) {
        None => None,
        Some(h) => gate_steps(h, g.len() as int),
    }
}

/// Whether the chain of links from `arg` through multi-drivers comes back to
/// node `base` within `fuel` steps, or is longer than that.
pub open spec fn reenters(g: Seq<Node>, base: int, arg: IRArg, fuel: nat) -> bool
    decreases fuel, 0nat,
{
    match arg {
        IRArg::Constant(_) => false,
        IRArg::Link(t, _) => if t == base || fuel == 0 {
            true
        } else if t < g.len() {
            match g[t as int] {
                Node::MultiDriver(args) => any_reenters(g, base, args, 0, (fuel - 1) as nat),
                _ => false,
            }
        } else {
            false
        },
    }
}

/// Whether the chain from one of the operands `args[k..]` does so.
pub open spec fn any_reenters(g: Seq<Node>, base: int, args: Seq<IRArg>, k: int, fuel: nat) -> bool
    decreases fuel, 1 + args.len() - k,
{
    if k < 0 || k >= args.len() {
        false
    } else {
        reenters(g, base, args[k], fuel) || any_reenters(g, base, args, k + 1, fuel)
    }
}

/// Whether multi-driver `i` reaches itself through one of its operands.
pub open spec fn cycle_at(g: Seq<Node>, i: int) -> bool {
    g[i] is MultiDriver && any_reenters(g, i, g[i]->MultiDriver_0, 0, g.len())
}

/// Whether some multi-driver reaches itself through multi-drivers.
pub open spec fn has_short_cycle(g: Seq<Node>) -> bool {
    exists|i: int| 0 <= i < g.len() && #[trigger] cycle_at(g, i)
}

/// Every comparison among the first `n` nodes has a link on its left, no
/// operator among them has one link twice, and every multi-driver among
/// them has links only.
pub open spec fn shaped_upto(g: Seq<Node>, n: int) -> bool {
    forall|i: int|
        0 <= i < n && i < g.len() ==> {
            &&& (#[trigger] g[i] is BinOp && g[i]->BinOp_1.spec_is_compare() ==> g[i]->BinOp_0 is Link)
            &&& (g[i] is BinOp ==> !(g[i]->BinOp_0 is Link && g[i]->BinOp_0 == g[i]->BinOp_2))
            &&& (g[i] is MultiDriver ==> forall|k: int|
                0 <= k < g[i]->MultiDriver_0.len() ==> g[i]->MultiDriver_0[k] is Link)
        }
}

/// No operator in the graph has one link twice.
pub open spec fn twinless(g: Seq<Node>) -> bool {
    forall|i: int|
        0 <= i < g.len() && #[trigger] g[i] is BinOp ==> !(g[i]->BinOp_0 is Link && g[i]->BinOp_0
            == g[i]->BinOp_2)
}

/// The graph is legal for emission: every comparison has a link on its
/// left, no operator has one link twice, every multi-driver has links only,
/// and no gate is left.
pub open spec fn legal(g: Seq<Node>) -> bool {
    &&& compare_lhs_linked(g)
    &&& twinless(g)
    &&& drivers_linked(g)
    &&& gateless_upto(g, g.len() as int)
}

/// Every comparison in the graph has a link on its left.
pub open spec fn compare_lhs_linked(g: Seq<Node>) -> bool {
    forall|i: int|
        0 <= i < g.len() && #[trigger] g[i] is BinOp && g[i]->BinOp_1.spec_is_compare()
            ==> g[i]->BinOp_0 is Link
}

/// Every multi-driver in the graph has links only.
pub open spec fn drivers_linked(g: Seq<Node>) -> bool {
    forall|i: int|
        0 <= i < g.len() && #[trigger] g[i] is MultiDriver ==> forall|k: int|
            0 <= k < g[i]->MultiDriver_0.len() ==> g[i]->MultiDriver_0[k] is Link
}

/// None of the first `n` nodes is a gate.
pub open spec fn gateless_upto(g: Seq<Node>, n: int) -> bool {
    forall|i: int| 0 <= i < n && i < g.len() ==> !(#[trigger] g[i] is Gate)
}

proof fn lemma_vacant_near(g: Seq<Node>, i: int, offset: int)
    ensures
        match vacant_near(g, i, offset) {
            Some(s) => 0 <= s < g.len() && g[s] is Removed,
            None => true,
        },
    decreases g.len() + i + 1 - offset,
{
    if offset < 0 || i < 0 || (offset > i && i + offset >= g.len()) {
    } else if i + offset < g.len() && g[i + offset] is Removed {
    } else if offset <= i && i - offset < g.len() && g[i - offset] is Removed {
    } else {
        lemma_vacant_near(g, i, offset + 1);
    }
}

/// Placing a node writes one slot that was vacated or new, and leaves a
/// well-formed graph well-formed.
pub proof fn lemma_place_near(g: Seq<Node>, i: int, node: Node)
    requires
        graph_wf(g),
        node.links_in_range(g.len()),
    ensures
        match place_near(g, i, node) {
            Some((h, a)) => {
                &&& graph_wf(h)
                &&& g.len() <= h.len() <= g.len() + 1
                &&& a is Link
                &&& a.target() < h.len()
                &&& h[a.target()] == node
                &&& a.target() < g.len() ==> g[a.target()] is Removed
                &&& forall|k: int| 0 <= k < g.len() && k != a.target() ==> h[k] == g[k]
            },
            None => true,
        },
{
    lemma_vacant_near(g, i, 0);
    match place_near(g, i, node) {
        Some((h, a)) => {
            assert forall|k: int| 0 <= k < h.len() implies (#[trigger] h[k]).links_in_range(
                h.len(),
            ) by {
                if k == a.target() {
                } else {
                    assert(g[k].links_in_range(g.len()));
                }
            }
        },
        None => {},
    }
}

/// Puts `node` into the vacated slot nearest to `i`, or at the end of the
/// list, and returns the link to it; `None`, and the list as it was, where
/// the list is full.
pub fn add_node_at(nodes: &mut Vec<IRNode>, i: usize, node: IRNode) -> (r: Option<IRArg>)
    requires
        i < old(nodes).len(),
    ensures
        match place_near(graph_of(old(nodes)@), i as int, node@) {
            Some((h, a)) => r == Some(a) && graph_of(final(nodes)@) == h,
            None => r is None && final(nodes)@ == old(nodes)@,
        },
{
    let n = nodes.len();
    let ghost g = graph_of(nodes@);
    let mut offset: usize = 0;
    while offset <= i || offset < n - i
        invariant
            i < n,
            n == nodes.len(),
            nodes@ == old(nodes)@,
            g == graph_of(nodes@),
            vacant_near(g, i as int, 0) == vacant_near(g, i as int, offset as int),
        decreases n + i + 1 - offset,
    {
        if offset < n - i {
            if let IRNode::Removed = nodes[i + offset] {
                set_node(nodes, i + offset, node);
                return Some(IRArg::Link((i + offset) as u32, WireColor::Unknown));
            }
        }
        if offset <= i {
            if let IRNode::Removed = nodes[i - offset] {
                set_node(nodes, i - offset, node);
                return Some(IRArg::Link((i - offset) as u32, WireColor::Unknown));
            }
        }
        offset = offset + 1;
    }
    if n >= u32::MAX as usize {
        None
    } else {
        push_node(nodes, node);
        Some(IRArg::Link(n as u32, WireColor::Unknown))
    }
}

/// `h` is `g` with vacated slots filled by constants and constants added at
/// the end.
pub open spec fn extends(g: Seq<Node>, h: Seq<Node>) -> bool {
    &&& g.len() <= h.len()
    &&& forall|k: int|
        0 <= k < g.len() ==> #[trigger] h[k] == g[k] || (g[k] is Removed && h[k] is Constant)
    &&& forall|k: int| g.len() <= k < h.len() ==> #[trigger] h[k] is Constant
}

/// `h` is `g` with node `i` rewritten, vacated slots filled by constants and
/// constants added at the end.
pub open spec fn rewrites_at(g: Seq<Node>, h: Seq<Node>, i: int) -> bool {
    &&& g.len() <= h.len()
    &&& forall|k: int|
        0 <= k < g.len() && k != i ==> #[trigger] h[k] == g[k] || (g[k] is Removed
            && h[k] is Constant)
    &&& forall|k: int| g.len() <= k < h.len() ==> #[trigger] h[k] is Constant
}

proof fn lemma_extends_keeps(g: Seq<Node>, h: Seq<Node>, n: int)
    requires
        extends(g, h),
        graph_wf(g),
        h.len() <= u32::MAX,
    ensures
        graph_wf(h),
        shaped_upto(g, n) ==> shaped_upto(h, n),
        gates_linked(g) ==> gates_linked(h),
        gateless_upto(g, n) ==> gateless_upto(h, n),
        compare_lhs_linked(g) ==> compare_lhs_linked(h),
        drivers_linked(g) ==> drivers_linked(h),
        twinless(g) ==> twinless(h),
{
    if twinless(g) {
        assert forall|i: int| 0 <= i < h.len() && #[trigger] h[i] is BinOp implies !(
        h[i]->BinOp_0 is Link && h[i]->BinOp_0 == h[i]->BinOp_2) by {
            if i < g.len() {
                assert(h[i] == g[i] || h[i] is Constant);
            }
        }
    }
    assert forall|k: int| 0 <= k < h.len() implies (#[trigger] h[k]).links_in_range(h.len()) by {
        if k < g.len() {
            assert(g[k].links_in_range(g.len()));
        }
    }
    if shaped_upto(g, n) {
        assert forall|i: int| 0 <= i < n && i < h.len() implies {
            &&& (#[trigger] h[i] is BinOp && h[i]->BinOp_1.spec_is_compare() ==> h[i]->BinOp_0 is Link)
            &&& (h[i] is BinOp ==> !(h[i]->BinOp_0 is Link && h[i]->BinOp_0 == h[i]->BinOp_2))
            &&& (h[i] is MultiDriver ==> forall|k: int|
                0 <= k < h[i]->MultiDriver_0.len() ==> h[i]->MultiDriver_0[k] is Link)
        } by {
            if i < g.len() {
                assert(h[i] == g[i] || h[i] is Constant);
            }
        }
    }
    if gates_linked(g) {
        assert forall|i: int| 0 <= i < h.len() && #[trigger] h[i] is BinOpCmpGate implies h[i]->BinOpCmpGate_0 is Link
            && h[i]->BinOpCmpGate_3 is Link by {
            if i < g.len() {
                assert(h[i] == g[i] || h[i] is Constant);
            }
        }
    }
    if gateless_upto(g, n) {
        assert forall|i: int| 0 <= i < n && i < h.len() implies !(#[trigger] h[i] is Gate) by {
            if i < g.len() {
                assert(h[i] == g[i] || h[i] is Constant);
            }
        }
    }
    if compare_lhs_linked(g) {
        assert forall|i: int|
            0 <= i < h.len() && #[trigger] h[i] is BinOp && h[i]->BinOp_1.spec_is_compare() implies h[i]->BinOp_0 is Link by {
            if i < g.len() {
                assert(h[i] == g[i] || h[i] is Constant);
            }
        }
    }
    if drivers_linked(g) {
        assert forall|i: int| 0 <= i < h.len() && #[trigger] h[i] is MultiDriver implies forall|
            k: int,
        |
            0 <= k < h[i]->MultiDriver_0.len() ==> h[i]->MultiDriver_0[k] is Link by {
            if i < g.len() {
                assert(h[i] == g[i] || h[i] is Constant);
            }
        }
    }
}

/// An operand made a link leaves the graph extended, and the link in range.
pub proof fn lemma_linked_arg(g: Seq<Node>, i: int, arg: IRArg)
    requires
        graph_wf(g),
        arg.in_range(g.len()),
    ensures
        match linked_arg(g, i, arg) {
            Some((h, a)) => {
                &&& extends(g, h)
                &&& graph_wf(h)
                &&& a is Link
                &&& a.target() < h.len()
                &&& arg is Link ==> h == g && a == arg
            },
            None => true,
        },
{
    if let IRArg::Constant(x) = arg {
        let node = Node::Constant(x);
        lemma_place_near(g, i, node);
        lemma_vacant_near(g, i, 0);
        match vacant_near(g, i, 0) {
            Some(slot) => {
                let h = g.update(slot, node);
                assert(place_near(g, i, node) == Some((h, IRArg::Link(slot as u32, WireColor::Unknown))));
                assert(extends(g, h));
            },
            None => {
                if g.len() < u32::MAX {
                    let h = g.push(node);
                    assert(place_near(g, i, node) == Some(
                        (h, IRArg::Link(g.len() as u32, WireColor::Unknown)),
                    ));
                    assert(extends(g, h));
                }
            },
        }
    }
}

/// Makes `arg` a link, by a constant node near `i` where it is a number.
/// `None`, with the list as it was, where the list is full.
fn link_arg(nodes: &mut Vec<IRNode>, i: usize, arg: IRArg) -> (r: Option<IRArg>)
    requires
        i < old(nodes).len(),
    ensures
        match linked_arg(graph_of(old(nodes)@), i as int, arg) {
            Some((h, a)) => r == Some(a) && graph_of(final(nodes)@) == h,
            None => r is None && final(nodes)@ == old(nodes)@,
        },
{
    match arg {
        IRArg::Constant(x) => add_node_at(nodes, i, IRNode::Constant(x)),
        IRArg::Link(_, _) => Some(arg),
    }
}

/// Reshapes node `i`. `false` where the list is full.
fn shape_node(nodes: &mut Vec<IRNode>, i: usize) -> (r: bool)
    requires
        i < old(nodes).len(),
        graph_wf(graph_of(old(nodes)@)),
        shaped_upto(graph_of(old(nodes)@), i as int),
    ensures
        match shape_step(graph_of(old(nodes)@), i as int) {
            Some(h) => r && graph_of(final(nodes)@) == h,
            None => !r,
        },
        r ==> {
            &&& graph_wf(graph_of(final(nodes)@))
            &&& shaped_upto(graph_of(final(nodes)@), i + 1)
            &&& rewrites_at(graph_of(old(nodes)@), graph_of(final(nodes)@), i as int)
            &&& (gates_linked(graph_of(old(nodes)@)) ==> gates_linked(graph_of(final(nodes)@)))
        },
{
    let ghost g = graph_of(nodes@);
    assert(g[i as int].links_in_range(g.len()));
    match &nodes[i] {
        IRNode::BinOp(lhs, op, rhs) => {
            let lhs = *lhs;
            let op = *op;
            let rhs = *rhs;
            assert(g[i as int].args()[0] == lhs && g[i as int].args()[1] == rhs);
            if lhs.is_link() && lhs == rhs {
                set_node(nodes, i, IRNode::BinOpSame(lhs, op));
                true
            } else if op.is_compare() && !lhs.is_link() {
                if rhs.is_link() {
                    set_node(nodes, i, IRNode::BinOp(rhs, op.flip(), lhs));
                    true
                } else {
                    proof {
                        lemma_linked_arg(g, i as int, lhs);
                    }
                    match link_arg(nodes, i, lhs) {
                        None => false,
                        Some(a) => {
                            proof {
                                lemma_extends_keeps(g, graph_of(nodes@), i as int);
                            }
                            let ghost mid = graph_of(nodes@);
                            set_node(nodes, i, IRNode::BinOp(a, op, rhs));
                            proof {
                                let h = graph_of(nodes@);
                                assert(h[i as int].args() =~= seq![a, rhs]);
                                assert(graph_wf(h)) by {
                                    assert forall|k: int| 0 <= k < h.len() implies (
                                    #[trigger] h[k]).links_in_range(h.len()) by {
                                        if k != i {
                                            assert(mid[k].links_in_range(h.len()));
                                        }
                                    }
                                }
                            }
                            true
                        },
                    }
                }
            } else {
                true
            }
        },
        IRNode::MultiDriver(args) => {
            let mut linked = args.clone();
            assert(linked@ =~= args@);
            let ghost args0 = args@;
            let mut j: usize = 0;
            assert forall|k: int| 0 <= k < args0.len() implies (#[trigger] args0[k]).in_range(
                g.len(),
            ) by {
                assert(g[i as int].args()[k] == args0[k]);
            }
            while j < linked.len()
                invariant
                    i < nodes.len(),
                    i < g.len(),
                    g == graph_of(old(nodes)@),
                    g[i as int] == Node::MultiDriver(args0),
                    j <= linked.len(),
                    linked.len() == args0.len(),
                    graph_wf(graph_of(nodes@)),
                    extends(g, graph_of(nodes@)),
                    linked_args(g, i as int, args0, 0) == linked_args(
                        graph_of(nodes@),
                        i as int,
                        linked@,
                        j as int,
                    ),
                    forall|k: int| 0 <= k < j ==> linked@[k] is Link,
                    forall|k: int|
                        0 <= k < linked.len() ==> (#[trigger] linked@[k]).in_range(nodes@.len()),
                decreases linked.len() - j,
            {
                let ghost before = graph_of(nodes@);
                let arg = linked[j];
                proof {
                    lemma_linked_arg(before, i as int, arg);
                }
                assert(linked_args(before, i as int, linked@, j as int) == match linked_arg(
                    before,
                    i as int,
                    arg,
                ) {
                    None => None,
                    Some((h, a)) => linked_args(h, i as int, linked@.update(j as int, a), j + 1),
                });
                match link_arg(nodes, i, arg) {
                    None => {
                        return false;
                    },
                    Some(a) => {
                        linked[j] = a;
                        proof {
                            let h = graph_of(nodes@);
                            assert(extends(g, h)) by {
                                assert forall|k: int| 0 <= k < g.len() implies #[trigger] h[k]
                                    == g[k] || (g[k] is Removed && h[k] is Constant) by {
                                    assert(before[k] == g[k] || (g[k] is Removed
                                        && before[k] is Constant));
                                    assert(h[k] == before[k] || (before[k] is Removed
                                        && h[k] is Constant));
                                }
                                assert forall|k: int| g.len() <= k < h.len() implies #[trigger] h[k] is Constant by {
                                    if k < before.len() {
                                        assert(before[k] is Constant);
                                        assert(h[k] == before[k] || (before[k] is Removed
                                            && h[k] is Constant));
                                    }
                                }
                            }
                        }
                    },
                }
                j = j + 1;
            }
            proof {
                lemma_extends_keeps(g, graph_of(nodes@), i as int);
            }
            let ghost mid = graph_of(nodes@);
            set_node(nodes, i, IRNode::MultiDriver(linked));
            proof {
                let h = graph_of(nodes@);
                assert(graph_wf(h)) by {
                    assert forall|k: int| 0 <= k < h.len() implies (#[trigger] h[k]).links_in_range(
                        h.len(),
                    ) by {
                        if k != i {
                            assert(mid[k].links_in_range(h.len()));
                        }
                    }
                }
            }
            true
        },
        _ => true,
    }
}

/// Lowers gate `i`. `false` where the list is full.
fn gate_node(nodes: &mut Vec<IRNode>, i: usize) -> (r: bool)
    requires
        i < old(nodes).len(),
        graph_wf(graph_of(old(nodes)@)),
        compare_lhs_linked(graph_of(old(nodes)@)),
        drivers_linked(graph_of(old(nodes)@)),
        gates_linked(graph_of(old(nodes)@)),
        twinless(graph_of(old(nodes)@)),
        gateless_upto(graph_of(old(nodes)@), i as int),
    ensures
        match gate_step(graph_of(old(nodes)@), i as int) {
            Some(h) => r && graph_of(final(nodes)@) == h,
            None => !r,
        },
        r ==> {
            &&& graph_wf(graph_of(final(nodes)@))
            &&& twinless(graph_of(final(nodes)@))
            &&& compare_lhs_linked(graph_of(final(nodes)@))
            &&& drivers_linked(graph_of(final(nodes)@))
            &&& gates_linked(graph_of(final(nodes)@))
            &&& gateless_upto(graph_of(final(nodes)@), i + 1)
            &&& rewrites_at(graph_of(old(nodes)@), graph_of(final(nodes)@), i as int)
        },
{
    let ghost g = graph_of(nodes@);
    assert(g[i as int].links_in_range(g.len()));
    match &nodes[i] {
        IRNode::Gate(cond, polarity, gated) => {
            let cond = *cond;
            let polarity = *polarity;
            let gated = *gated;
            assert(g[i as int].args()[0] == cond && g[i as int].args()[1] == gated);
            proof {
                lemma_linked_arg(g, i as int, gated);
            }
            let gated1 = match link_arg(nodes, i, gated) {
                None => {
                    return false;
                },
                Some(a) => a,
            };
            let ghost g1 = graph_of(nodes@);
            proof {
                lemma_extends_keeps(g, g1, i as int);
                lemma_linked_arg(g1, i as int, cond);
            }
            if let IRArg::Link(cid, _) = cond {
                let cid = cid as usize;
                if let IRNode::BinOp(lhs, op, IRArg::Constant(k)) = &nodes[cid] {
                    if op.is_compare() {
                        let fused = IRNode::BinOpCmpGate(
                            *lhs,
                            if polarity {
                                *op
                            } else {
                                op.invert()
                            },
                            *k,
                            gated1,
                        );
                        assert(g1[cid as int].links_in_range(g1.len()));
                        assert(g1[cid as int].args()[0] == *lhs);
                        set_node(nodes, i, fused);
                        proof {
                            lemma_gate_written(g, g1, graph_of(nodes@), i as int);
                        }
                        return true;
                    }
                }
            }
            let cond1 = match link_arg(nodes, i, cond) {
                None => {
                    return false;
                },
                Some(a) => a,
            };
            let ghost g2 = graph_of(nodes@);
            proof {
                lemma_extends_keeps(g1, g2, i as int);
                lemma_extends_chain(g, g1, g2);
            }
            set_node(
                nodes,
                i,
                IRNode::BinOpCmpGate(
                    cond1,
                    if polarity {
                        BinOp::CmpNeq
                    } else {
                        BinOp::CmpEq
                    },
                    0,
                    gated1,
                ),
            );
            proof {
                lemma_gate_written(g, g2, graph_of(nodes@), i as int);
            }
            true
        },
        _ => true,
    }
}

proof fn lemma_extends_chain(g: Seq<Node>, g1: Seq<Node>, g2: Seq<Node>)
    requires
        extends(g, g1),
        extends(g1, g2),
    ensures
        extends(g, g2),
{
    assert forall|k: int| 0 <= k < g.len() implies #[trigger] g2[k] == g[k] || (g[k] is Removed
        && g2[k] is Constant) by {
        assert(g1[k] == g[k] || (g[k] is Removed && g1[k] is Constant));
        assert(g2[k] == g1[k] || (g1[k] is Removed && g2[k] is Constant));
    }
    assert forall|k: int| g.len() <= k < g2.len() implies #[trigger] g2[k] is Constant by {
        if k < g1.len() {
            assert(g1[k] is Constant);
            assert(g2[k] == g1[k] || (g1[k] is Removed && g2[k] is Constant));
        }
    }
}

/// `h` is `mid` with a decider written at `i`, and `mid` extends `g`, in
/// which `i` held a gate: what held of `g` holds of `h`.
proof fn lemma_gate_written(g: Seq<Node>, mid: Seq<Node>, h: Seq<Node>, i: int)
    requires
        0 <= i < g.len(),
        g[i] is Gate,
        extends(g, mid),
        graph_wf(mid),
        compare_lhs_linked(mid),
        drivers_linked(mid),
        gates_linked(mid),
        twinless(mid),
        gateless_upto(mid, i),
        h.len() == mid.len(),
        h[i] is BinOpCmpGate,
        h[i]->BinOpCmpGate_0 is Link,
        h[i]->BinOpCmpGate_3 is Link,
        h[i]->BinOpCmpGate_0.target() < h.len(),
        h[i]->BinOpCmpGate_3.target() < h.len(),
        h == mid.update(i, h[i]),
    ensures
        graph_wf(h),
        compare_lhs_linked(h),
        drivers_linked(h),
        gates_linked(h),
        twinless(h),
        gateless_upto(h, i + 1),
        rewrites_at(g, h, i),
{
    assert forall|k: int| 0 <= k < h.len() && #[trigger] h[k] is BinOp implies !(
    h[k]->BinOp_0 is Link && h[k]->BinOp_0 == h[k]->BinOp_2) by {
        assert(mid[k] is BinOp);
    }
    assert forall|k: int| 0 <= k < h.len() implies (#[trigger] h[k]).links_in_range(h.len()) by {
        if k != i {
            assert(mid[k].links_in_range(mid.len()));
        } else {
            assert(h[i].args() =~= seq![h[i]->BinOpCmpGate_0, h[i]->BinOpCmpGate_3]);
        }
    }
    assert forall|k: int| 0 <= k < g.len() && k != i implies #[trigger] h[k] == g[k] || (
    g[k] is Removed && h[k] is Constant) by {
        assert(mid[k] == g[k] || (g[k] is Removed && mid[k] is Constant));
    }
    assert forall|k: int| g.len() <= k < h.len() implies #[trigger] h[k] is Constant by {
        assert(mid[k] is Constant);
    }
    assert forall|k: int|
        0 <= k < h.len() && #[trigger] h[k] is BinOp && h[k]->BinOp_1.spec_is_compare() implies h[k]->BinOp_0 is Link by {
        assert(mid[k] is BinOp);
    }
    assert forall|k: int| 0 <= k < h.len() && #[trigger] h[k] is MultiDriver implies forall|
        q: int,
    |
        0 <= q < h[k]->MultiDriver_0.len() ==> h[k]->MultiDriver_0[q] is Link by {
        assert(mid[k] is MultiDriver);
    }
    assert forall|k: int| 0 <= k < h.len() && #[trigger] h[k] is BinOpCmpGate implies h[k]->BinOpCmpGate_0 is Link
        && h[k]->BinOpCmpGate_3 is Link by {
        if k != i {
            assert(mid[k] is BinOpCmpGate);
        }
    }
    assert forall|k: int| 0 <= k < i + 1 && k < h.len() implies !(#[trigger] h[k] is Gate) by {
        if k != i {
            assert(!(mid[k] is Gate));
        }
    }
}

/// Whether the chain of links from `arg` through multi-drivers comes back
/// to node `base` within `fuel` steps, or is longer than that.
fn chain_reenters(nodes: &Vec<IRNode>, base: usize, arg: &IRArg, fuel: usize) -> (r: bool)
    ensures
        r == reenters(graph_of(nodes@), base as int, *arg, fuel as nat),
    decreases fuel, 0nat,
{
    match arg {
        IRArg::Link(t, _) => {
            let t = *t as usize;
            if t == base || fuel == 0 {
                return true;
            }
            if t >= nodes.len() {
                return false;
            }
            if let IRNode::MultiDriver(args) = &nodes[t] {
                any_chain_reenters(nodes, base, args, fuel - 1)
            } else {
                false
            }
        },
        IRArg::Constant(_) => false,
    }
}

/// Whether the chain from one of `args` does so.
fn any_chain_reenters(nodes: &Vec<IRNode>, base: usize, args: &Vec<IRArg>, fuel: usize) -> (r:
    bool)
    ensures
        r == any_reenters(graph_of(nodes@), base as int, args@, 0, fuel as nat),
    decreases fuel, 1nat,
{
    let ghost g = graph_of(nodes@);
    let mut k: usize = 0;
    while k < args.len()
        invariant
            k <= args.len(),
            g == graph_of(nodes@),
            any_reenters(g, base as int, args@, 0, fuel as nat) == any_reenters(
                g,
                base as int,
                args@,
                k as int,
                fuel as nat,
            ),
        decreases args.len() - k,
    {
        if chain_reenters(nodes, base, &args[k], fuel) {
            return true;
        }
        k = k + 1;
    }
    false
}

/// Whether some multi-driver reaches itself through multi-drivers.
pub fn detect_short_cycles(nodes: &Vec<IRNode>) -> (r: bool)
    ensures
        r == has_short_cycle(graph_of(nodes@)),
{
    let ghost g = graph_of(nodes@);
    let mut i: usize = 0;
    while i < nodes.len()
        invariant
            i <= nodes.len(),
            g == graph_of(nodes@),
            forall|q: int| 0 <= q < i ==> !#[trigger] cycle_at(g, q),
        decreases nodes.len() - i,
    {
        if let IRNode::MultiDriver(args) = &nodes[i] {
            if any_chain_reenters(nodes, i, args, nodes.len()) {
                assert(g.len() == nodes.len());
                assert(cycle_at(g, i as int));
                return true;
            }
        }
        i = i + 1;
    }
    false
}

/// Once a step has no result, no later step has one.
proof fn lemma_shape_steps_stay_none(g: Seq<Node>, a: int, b: int)
    requires
        shape_steps(g, a) is None,
        a <= b,
    ensures
        shape_steps(g, b) is None,
    decreases b - a,
{
    if a < b {
        lemma_shape_steps_stay_none(g, a, b - 1);
    }
}

proof fn lemma_gate_steps_stay_none(g: Seq<Node>, a: int, b: int)
    requires
        gate_steps(g, a) is None,
        a <= b,
    ensures
        gate_steps(g, b) is None,
    decreases b - a,
{
    if a < b {
        lemma_gate_steps_stay_none(g, a, b - 1);
    }
}

/// Makes the node list legal for emission, then looks for short cycles.
/// The list ends as `legalized` gives it; the result is `Limit` where that
/// needs a node index beyond 32 bits, and `ShortCycle` where a multi-driver
/// of the legal list reaches itself.
pub fn fix_node_list(nodes: &mut Vec<IRNode>) -> (r: Result<(), CompileError>)
    requires
        graph_wf(graph_of(old(nodes)@)),
        gates_linked(graph_of(old(nodes)@)),
    ensures
        match legalized(graph_of(old(nodes)@)) {
            None => r == Err::<(), CompileError>(CompileError::Limit),
            Some(h) => graph_of(final(nodes)@) == h && r == if has_short_cycle(h) {
                Err::<(), CompileError>(CompileError::ShortCycle)
            } else {
                Ok::<(), CompileError>(())
            },
        },
        !(r == Err::<(), CompileError>(CompileError::Limit)) ==> {
            &&& graph_wf(graph_of(final(nodes)@))
            &&& legal(graph_of(final(nodes)@))
            &&& gates_linked(graph_of(final(nodes)@))
            &&& final(nodes).len() >= old(nodes).len()
        },
{
    let ghost g0 = graph_of(nodes@);
    let n = nodes.len();
    let mut i: usize = 0;
    while i < n
        invariant
            i <= n,
            n == g0.len(),
            n <= nodes.len(),
            g0 == graph_of(old(nodes)@),
            shape_steps(g0, i as int) == Some(graph_of(nodes@)),
            graph_wf(graph_of(nodes@)),
            gates_linked(graph_of(nodes@)),
            shaped_upto(graph_of(nodes@), i as int),
            forall|k: int| n <= k < nodes.len() ==> #[trigger] graph_of(nodes@)[k] is Constant,
        decreases n - i,
    {
        let ghost before = graph_of(nodes@);
        if !shape_node(nodes, i) {
            proof {
                assert(shape_steps(g0, i + 1) is None);
                lemma_shape_steps_stay_none(g0, i + 1, n as int);
            }
            return Err(CompileError::Limit);
        }
        proof {
            let h = graph_of(nodes@);
            assert forall|k: int| n <= k < nodes.len() implies #[trigger] h[k] is Constant by {
                if k < before.len() {
                    assert(before[k] is Constant);
                }
            }
        }
        i = i + 1;
    }
    let ghost g1 = graph_of(nodes@);
    proof {
        assert(compare_lhs_linked(g1)) by {
            assert forall|k: int|
                0 <= k < g1.len() && #[trigger] g1[k] is BinOp && g1[k]->BinOp_1.spec_is_compare() implies g1[k]->BinOp_0 is Link by {
                if k >= n {
                    assert(g1[k] is Constant);
                }
            }
        }
        assert(drivers_linked(g1)) by {
            assert forall|k: int| 0 <= k < g1.len() && #[trigger] g1[k] is MultiDriver implies forall|
                q: int,
            |
                0 <= q < g1[k]->MultiDriver_0.len() ==> g1[k]->MultiDriver_0[q] is Link by {
                if k >= n {
                    assert(g1[k] is Constant);
                }
            }
        }
        assert(twinless(g1)) by {
            assert forall|k: int| 0 <= k < g1.len() && #[trigger] g1[k] is BinOp implies !(
            g1[k]->BinOp_0 is Link && g1[k]->BinOp_0 == g1[k]->BinOp_2) by {
                if k >= n {
                    assert(g1[k] is Constant);
                }
            }
        }
    }
    i = 0;
    while i < n
        invariant
            i <= n,
            n == g0.len(),
            n <= nodes.len(),
            g0 == graph_of(old(nodes)@),
            shape_steps(g0, n as int) == Some(g1),
            gate_steps(g1, i as int) == Some(graph_of(nodes@)),
            graph_wf(graph_of(nodes@)),
            compare_lhs_linked(graph_of(nodes@)),
            drivers_linked(graph_of(nodes@)),
            gates_linked(graph_of(nodes@)),
            twinless(graph_of(nodes@)),
            gateless_upto(graph_of(nodes@), i as int),
            forall|k: int| n <= k < nodes.len() ==> #[trigger] graph_of(nodes@)[k] is Constant,
        decreases n - i,
    {
        let ghost before = graph_of(nodes@);
        if !gate_node(nodes, i) {
            proof {
                assert(gate_steps(g1, i + 1) is None);
                lemma_gate_steps_stay_none(g1, i + 1, n as int);
            }
            return Err(CompileError::Limit);
        }
        proof {
            let h = graph_of(nodes@);
            assert forall|k: int| n <= k < nodes.len() implies #[trigger] h[k] is Constant by {
                if k < before.len() {
                    assert(before[k] is Constant);
                }
            }
        }
        i = i + 1;
    }
    proof {
        let h = graph_of(nodes@);
        assert forall|k: int| 0 <= k < h.len() implies !(#[trigger] h[k] is Gate) by {
            if k >= n {
                assert(h[k] is Constant);
            }
        }
    }
    if detect_short_cycles(nodes) {
        Err(CompileError::ShortCycle)
    } else {
        Ok(())
    }
}

impl IRModule {
    /// Makes the graph legal for emission: an operator on one link twice
    /// becomes a single-input operator, every comparison gets a link on its
    /// left, every multi-driver links only, and every gate becomes a decider
    /// that copies its input. Then looks for short cycles.
    ///
    /// The graph ends as `legalized` gives it. The result is `Limit` where
    /// that needs a node index beyond 32 bits, and `ShortCycle` where a
    /// multi-driver of the legal graph reaches itself.
    pub fn fix_nodes(&mut self) -> (r: Result<(), CompileError>)
        requires
            old(self).wf(),
        ensures
            match legalized(old(self).graph()) {
                None => r == Err::<(), CompileError>(CompileError::Limit),
                Some(h) => final(self).graph() == h && r == if has_short_cycle(h) {
                    Err::<(), CompileError>(CompileError::ShortCycle)
                } else {
                    Ok::<(), CompileError>(())
                },
            },
            !(r == Err::<(), CompileError>(CompileError::Limit)) ==> final(self).wf() && legal(
                final(self).graph(),
            ),
            *final(self) == (IRModule { nodes: final(self).nodes, ..*old(self) }),
    {
        fix_node_list(&mut self.nodes)
    }
}

/// A multi-driver that has links only keeps its operands.
proof fn lemma_linked_args_fixpoint(g: Seq<Node>, i: int, args: Seq<IRArg>, j: int)
    requires
        0 <= j,
        forall|k: int| 0 <= k < args.len() ==> (#[trigger] args[k]) is Link,
    ensures
        linked_args(g, i, args, j) == Some((g, args)),
    decreases args.len() - j,
{
    if j < args.len() {
        assert(args.update(j, args[j]) =~= args);
        lemma_linked_args_fixpoint(g, i, args, j + 1);
    }
}

proof fn lemma_shape_steps_fixpoint(g: Seq<Node>, n: int)
    requires
        legal(g),
        0 <= n <= g.len(),
    ensures
        shape_steps(g, n) == Some(g),
    decreases n,
{
    if n > 0 {
        lemma_shape_steps_fixpoint(g, n - 1);
        let i = n - 1;
        match g[i] {
            Node::MultiDriver(args) => {
                lemma_linked_args_fixpoint(g, i, args, 0);
                assert(g.update(i, Node::MultiDriver(args)) =~= g);
            },
            _ => {},
        }
    }
}

proof fn lemma_gate_steps_fixpoint(g: Seq<Node>, n: int)
    requires
        legal(g),
        0 <= n <= g.len(),
    ensures
        gate_steps(g, n) == Some(g),
    decreases n,
{
    if n > 0 {
        lemma_gate_steps_fixpoint(g, n - 1);
        assert(!(g[n - 1] is Gate));
    }
}

/// Legalization is idempotent: a legal graph is left as it is.
pub proof fn lemma_legalized_fixpoint(g: Seq<Node>)
    requires
        legal(g),
    ensures
        legalized(g) == Some(g),
{
    lemma_shape_steps_fixpoint(g, g.len() as int);
    lemma_gate_steps_fixpoint(g, g.len() as int);
}

} // verus!
