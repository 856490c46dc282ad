use vstd::prelude::*;
use crate::common::BinOp;
use crate::error::CompileError;
use crate::ir::{
    gates_linked, graph_of, graph_wf, set_node, IRArg, IRModule, IRNode, Node, WireColor,
};

verus! {

/// The operand with a link to a constant node replaced by its number.
pub open spec fn fixed_arg(g: Seq<Node>, arg: IRArg) -> IRArg {
    match arg {
        IRArg::Link(id, _) => if id < g.len() && g[id as int] is Constant {
            IRArg::Constant(g[id as int]->Constant_0)
        } else {
            arg
        },
        IRArg::Constant(_) => arg,
    }
}

/// The node that computes what `arg` stands for: the node it links to, or a
/// constant.
pub open spec fn node_of_arg(g: Seq<Node>, arg: IRArg) -> Node {
    match arg {
        IRArg::Link(id, _) => g[id as int],
        IRArg::Constant(n) => Node::Constant(n),
    }
}

/// The sum of the numbers among the first `k` drivers, wrapped to 32 bits.
pub open spec fn driver_sum(g: Seq<Node>, args: Seq<IRArg>, k: int) -> i32
    decreases k,
{
    if k <= 0 {
        0i32
    } else {
        match fixed_arg(g, args[k - 1]) {
            IRArg::Constant(n) => driver_sum(g, args, k - 1).wrapping_add(n),
            IRArg::Link(_, _) => driver_sum(g, args, k - 1),
        }
    }
}

/// Those of the first `k` drivers that are no numbers, in order.
pub open spec fn driver_links(g: Seq<Node>, args: Seq<IRArg>, k: int) -> Seq<IRArg>
    decreases k,
{
    if k <= 0 {
        seq![]
    } else {
        match fixed_arg(g, args[k - 1]) {
            IRArg::Constant(_) => driver_links(g, args, k - 1),
            IRArg::Link(_, _) => driver_links(g, args, k - 1).push(args[k - 1]),
        }
    }
}

/// Node `i` folded once. Operands that link to constants become numbers.
/// An operator on two numbers becomes its value, and has none where the
/// operation has none. A gate that lets through zero, or whose condition is
/// a number that shuts it, becomes zero; one whose condition opens it
/// becomes a copy of what it lets through. The numbers that drive a
/// multi-driver are summed up: into one last driver, left out where it is
/// zero, or into a constant where no other driver is left.
pub open spec fn folded_node(g: Seq<Node>, i: int) -> Option<Node> {
    match g[i] {
        Node::Output(id, arg) => Some(Node::Output(id, fixed_arg(g, arg))),
        Node::BinOp(l, op, r) => {
            let l = fixed_arg(g, l);
            let r = fixed_arg(g, r);
            if l is Constant && r is Constant {
                match op.spec_fold(l->Constant_0, r->Constant_0) {
                    Some(value) => Some(Node::Constant(value)),
                    None => None,
                }
            } else {
                Some(Node::BinOp(l, op, r))
            }
        },
        Node::Gate(cond, polarity, gated) => {
            let cond = fixed_arg(g, cond);
            let gated = fixed_arg(g, gated);
            if gated == IRArg::Constant(0) {
                Some(Node::Constant(0))
            } else if cond is Constant {
                if (cond->Constant_0 != 0) == polarity {
                    Some(node_of_arg(g, gated))
                } else {
                    Some(Node::Constant(0))
                }
            } else {
                Some(Node::Gate(cond, polarity, gated))
            }
        },
        Node::MultiDriver(args) => {
            let sum = driver_sum(g, args, args.len() as int);
            let links = driver_links(g, args, args.len() as int);
            if links.len() == 0 {
                Some(Node::Constant(sum))
            } else if sum != 0 {
                Some(Node::MultiDriver(links.push(IRArg::Constant(sum))))
            } else {
                Some(Node::MultiDriver(links))
            }
        },
        other => Some(other),
    }
}

/// The graph with its first `k` nodes folded in turn, each in the graph
/// that the ones before it left.
pub open spec fn folded_upto(g: Seq<Node>, k: int) -> Option<Seq<Node>>
    decreases k,
{
    if k <= 0 {
        Some(g)
    } else {
        match folded_upto(g, k - 1) {
            None => None,
            Some(h) => match folded_node(h, k - 1) {
                None => None,
                Some(node) => Some(h.update(k - 1, node)),
            },
        }
    }
}

/// One pass over all nodes.
pub open spec fn fold_pass(g: Seq<Node>) -> Option<Seq<Node>> {
    folded_upto(g, g.len() as int)
}

/// Passes until one changes nothing. `FoldUndefined` where an operation on
/// two numbers has no value, `Limit` where more than `passes` passes after
/// the first are needed.
pub open spec fn fold_fix(g: Seq<Node>, passes: nat) -> Result<Seq<Node>, CompileError>
    decreases passes,
{
    match fold_pass(g) {
        None => Err(CompileError::FoldUndefined),
        Some(h) => if h == g {
            Ok(g)
        } else if passes == 0 {
            Err(CompileError::Limit)
        } else {
            fold_fix(h, (passes - 1) as nat)
        },
    }
}

/// Folding is idempotent: a folded graph is its own fold.
pub proof fn lemma_fold_idempotent(g: Seq<Node>, passes: nat, again: nat)
    requires
        fold_fix(g, passes) is Ok,
    ensures
        fold_fix(fold_fix(g, passes)->Ok_0, again) == fold_fix(g, passes),
    decreases passes,
{
    let h = fold_pass(g)->Some_0;
    if h != g && passes > 0 {
        lemma_fold_idempotent(h, (passes - 1) as nat, again);
    }
}

/// Once a pass has no value, it has none.
proof fn lemma_folded_stays_none(g: Seq<Node>, a: int, b: int)
    requires
        folded_upto(g, a) is None,
        a <= b,
    ensures
        folded_upto(g, b) is None,
    decreases b - a,
{
    if a < b {
        lemma_folded_stays_none(g, a, b - 1);
    }
}

/// The operand with a link to a constant node replaced by its number.
pub fn fix_const(nodes: &Vec<IRNode>, arg: &IRArg) -> (r: IRArg)
    ensures
        r == fixed_arg(graph_of(nodes@), *arg),
{
    if let IRArg::Link(id, _) = arg {
        if (*id as usize) < nodes.len() {
            if let IRNode::Constant(n) = &nodes[*id as usize] {
                return IRArg::Constant(*n);
            }
        }
    }
    *arg
}

/// A copy of the node that computes what `arg` stands for.
pub fn clone_arg(nodes: &Vec<IRNode>, arg: &IRArg) -> (r: IRNode)
    requires
        arg.in_range(nodes@.len()),
    ensures
        r@ == node_of_arg(graph_of(nodes@), *arg),
{
    match arg {
        IRArg::Link(id, _) => nodes[*id as usize].duplicate(),
        IRArg::Constant(n) => IRNode::Constant(*n),
    }
}

/// Whether two operand lists are the same.
fn same_args(a: &Vec<IRArg>, b: &Vec<IRArg>) -> (r: bool)
    ensures
        r == (a@ == b@),
{
    if a.len() != b.len() {
        return false;
    }
    let mut k: usize = 0;
    while k < a.len()
        invariant
            k <= a.len(),
            a.len() == b.len(),
            forall|q: int| 0 <= q < k ==> a@[q] == b@[q],
        decreases a.len() - k,
    {
        if a[k] != b[k] {
            return false;
        }
        k = k + 1;
    }
    assert(a@ =~= b@);
    true
}

/// Whether two nodes are the same.
pub fn same_node(a: &IRNode, b: &IRNode) -> (r: bool)
    ensures
        r == (a@ == b@),
{
    match (a, b) {
        (IRNode::Input(x), IRNode::Input(y)) => *x == *y,
        (IRNode::Output(x, p), IRNode::Output(y, q)) => *x == *y && *p == *q,
        (IRNode::Constant(x), IRNode::Constant(y)) => *x == *y,
        (IRNode::BinOp(l, op, r), IRNode::BinOp(l2, op2, r2)) => *l == *l2 && *op == *op2 && *r
            == *r2,
        (IRNode::Gate(c, p, g), IRNode::Gate(d2, q2, h2)) => *c == *d2 && *p == *q2 && *g == *h2,
        (IRNode::MultiDriver(x), IRNode::MultiDriver(y)) => same_args(x, y),
        (IRNode::BinOpSame(x, op), IRNode::BinOpSame(y, op2)) => *x == *y && *op == *op2,
        (IRNode::BinOpCmpGate(l, op, k, g), IRNode::BinOpCmpGate(l2, op2, k2, h2)) => *l == *l2
            && *op == *op2 && *k == *k2 && *g == *h2,
        (IRNode::PlaceHolder, IRNode::PlaceHolder) => true,
        (IRNode::Removed, IRNode::Removed) => true,
        _ => false,
    }
}

/// The drivers of a multi-driver folded: the node that takes its place.
fn fold_drivers(nodes: &Vec<IRNode>, args: &Vec<IRArg>) -> (r: IRNode)
    ensures
        r@ == ({
            let g = graph_of(nodes@);
            let sum = driver_sum(g, args@, args@.len() as int);
            let links = driver_links(g, args@, args@.len() as int);
            if links.len() == 0 {
                Node::Constant(sum)
            } else if sum != 0 {
                Node::MultiDriver(links.push(IRArg::Constant(sum)))
            } else {
                Node::MultiDriver(links)
            }
        }),
        forall|k: int|
            0 <= k < r@.args().len() && (#[trigger] r@.args()[k]) is Link ==> exists|q: int|
                0 <= q < args@.len() && args@[q] == r@.args()[k],
{
    let ghost g = graph_of(nodes@);
    let mut const_sum: i32 = 0;
    let mut filtered: Vec<IRArg> = Vec::new();
    let mut k: usize = 0;
    while k < args.len()
        invariant
            k <= args.len(),
            g == graph_of(nodes@),
            const_sum == driver_sum(g, args@, k as int),
            filtered@ == driver_links(g, args@, k as int),
            forall|j: int|
                0 <= j < filtered@.len() ==> exists|q: int|
                    0 <= q < args@.len() && args@[q] == #[trigger] filtered@[j],
        decreases args.len() - k,
    {
        match fix_const(nodes, &args[k]) {
            IRArg::Constant(n) => {
                const_sum = const_sum.wrapping_add(n);
            },
            IRArg::Link(_, _) => {
                let ghost before = filtered@;
                filtered.push(args[k]);
                assert forall|j: int| 0 <= j < filtered@.len() implies exists|q: int|
                    0 <= q < args@.len() && args@[q] == #[trigger] filtered@[j] by {
                    if j < before.len() {
                        assert(filtered@[j] == before[j]);
                    } else {
                        assert(args@[k as int] == filtered@[j]);
                    }
                }
            },
        }
        k = k + 1;
    }
    if filtered.len() == 0 {
        IRNode::Constant(const_sum)
    } else {
        if const_sum != 0 {
            let ghost before = filtered@;
            filtered.push(IRArg::Constant(const_sum));
            assert forall|j: int|
                0 <= j < filtered@.len() && (#[trigger] filtered@[j]) is Link implies exists|q: int|
                0 <= q < args@.len() && args@[q] == filtered@[j] by {
                assert(filtered@[j] == before[j]);
            }
        }
        IRNode::MultiDriver(filtered)
    }
}

/// Node `i` folded once; `None` where an operation on two numbers has no
/// value.
fn fold_node(nodes: &Vec<IRNode>, i: usize) -> (r: Option<IRNode>)
    requires
        i < nodes@.len(),
        graph_wf(graph_of(nodes@)),
    ensures
        match folded_node(graph_of(nodes@), i as int) {
            Some(node) => r is Some && r->Some_0@ == node,
            None => r is None,
        },
        r is Some ==> r->Some_0@.links_in_range(nodes@.len()),
        r is Some && r->Some_0@ is BinOpCmpGate && gates_linked(graph_of(nodes@))
            ==> r->Some_0@->BinOpCmpGate_0 is Link && r->Some_0@->BinOpCmpGate_3 is Link,
{
    let ghost g = graph_of(nodes@);
    assert(g[i as int].links_in_range(g.len()));
    match &nodes[i] {
        IRNode::Output(id, arg) => {
            assert(g[i as int].args()[0] == *arg);
            let fixed = IRNode::Output(*id, fix_const(nodes, arg));
            assert(fixed@.args() =~= seq![fixed@->Output_1]);
            Some(fixed)
        },
        IRNode::BinOp(lhs, op, rhs) => {
            assert(g[i as int].args()[0] == *lhs && g[i as int].args()[1] == *rhs);
            let lhs = fix_const(nodes, lhs);
            let rhs = fix_const(nodes, rhs);
            if let IRArg::Constant(const_l) = lhs {
                if let IRArg::Constant(const_r) = rhs {
                    return match op.fold(const_l, const_r) {
                        Some(value) => Some(IRNode::Constant(value)),
                        None => None,
                    };
                }
            }
            let fixed = IRNode::BinOp(lhs, *op, rhs);
            assert(fixed@.args() =~= seq![lhs, rhs]);
            Some(fixed)
        },
        IRNode::Gate(cond, check, gated) => {
            assert(g[i as int].args()[0] == *cond && g[i as int].args()[1] == *gated);
            let cond = fix_const(nodes, cond);
            let gated = fix_const(nodes, gated);
            if let IRArg::Constant(const_gated) = gated {
                if const_gated == 0 {
                    return Some(IRNode::Constant(0));
                }
            }
            if let IRArg::Constant(const_cond) = cond {
                let cond_bool = const_cond != 0;
                return if cond_bool == *check {
                    let copy = clone_arg(nodes, &gated);
                    proof {
                        if let IRArg::Link(t, _) = gated {
                            assert(g[t as int].links_in_range(g.len()));
                        }
                    }
                    Some(copy)
                } else {
                    Some(IRNode::Constant(0))
                };
            }
            let fixed = IRNode::Gate(cond, *check, gated);
            assert(fixed@.args() =~= seq![cond, gated]);
            Some(fixed)
        },
        IRNode::MultiDriver(args) => {
            let folded = fold_drivers(nodes, args);
            proof {
                assert forall|k: int| 0 <= k < folded@.args().len() implies (
                #[trigger] folded@.args()[k]).in_range(g.len()) by {
                    if folded@.args()[k] is Link {
                        let q = choose|q: int|
                            0 <= q < args@.len() && args@[q] == folded@.args()[k];
                        assert(g[i as int].args()[q] == args@[q]);
                    }
                }
            }
            Some(folded)
        },
        other => Some(other.duplicate()),
    }
}

/// One pass over all nodes. Returns whether anything changed; `None` where
/// an operation on two numbers has no value.
fn fold_once(nodes: &mut Vec<IRNode>) -> (r: Option<bool>)
    requires
        graph_wf(graph_of(old(nodes)@)),
    ensures
        match fold_pass(graph_of(old(nodes)@)) {
            Some(h) => r == Some(h != graph_of(old(nodes)@)) && graph_of(final(nodes)@) == h,
            None => r is None,
        },
        graph_wf(graph_of(final(nodes)@)),
        gates_linked(graph_of(old(nodes)@)) ==> gates_linked(graph_of(final(nodes)@)),
        final(nodes)@.len() == old(nodes)@.len(),
{
    let ghost g0 = graph_of(nodes@);
    let n = nodes.len();
    let mut changed = false;
    let mut i: usize = 0;
    while i < n
        invariant
            i <= n,
            n == nodes@.len(),
            n == g0.len(),
            g0 == graph_of(old(nodes)@),
            graph_wf(graph_of(nodes@)),
            gates_linked(g0) ==> gates_linked(graph_of(nodes@)),
            folded_upto(g0, i as int) == Some(graph_of(nodes@)),
            forall|q: int| i <= q < n ==> graph_of(nodes@)[q] == g0[q],
            changed == exists|q: int| 0 <= q < i && #[trigger] graph_of(nodes@)[q] != g0[q],
        decreases n - i,
    {
        let ghost before = graph_of(nodes@);
        match fold_node(nodes, i) {
            None => {
                proof {
                    assert(folded_upto(g0, i + 1) is None);
                    lemma_folded_stays_none(g0, i + 1, n as int);
                }
                return None;
            },
            Some(node) => {
                let differs = !same_node(&node, &nodes[i]);
                set_node(nodes, i, node);
                proof {
                    let after = graph_of(nodes@);
                    assert forall|q: int| 0 <= q < after.len() implies (#[trigger] after[q]).links_in_range(
                        after.len(),
                    ) by {
                        if q != i {
                            assert(before[q].links_in_range(before.len()));
                        }
                    }
                    if changed {
                        let w = choose|q: int| 0 <= q < i && #[trigger] before[q] != g0[q];
                        assert(after[w] != g0[w]);
                    }
                    if differs {
                        assert(after[i as int] != g0[i as int]);
                    }
                    if gates_linked(g0) {
                        assert forall|q: int| 0 <= q < after.len() && #[trigger] after[q] is BinOpCmpGate implies after[q]->BinOpCmpGate_0 is Link
                            && after[q]->BinOpCmpGate_3 is Link by {
                            if q != i {
                                assert(before[q] is BinOpCmpGate);
                            }
                        }
                    }
                }
                changed = changed || differs;
            },
        }
        i = i + 1;
    }
    proof {
        let h = graph_of(nodes@);
        if !changed {
            assert(h =~= g0);
        } else {
            let w = choose|q: int| 0 <= q < n && #[trigger] h[q] != g0[q];
            assert(h != g0);
        }
    }
    Some(changed)
}

/// Folds the constants of the node list: passes until one changes nothing.
/// The list ends as `fold_fix` gives it, or with its error.
pub fn fold_node_list(nodes: &mut Vec<IRNode>) -> (r: Result<(), CompileError>)
    requires
        graph_wf(graph_of(old(nodes)@)),
    ensures
        match fold_fix(graph_of(old(nodes)@), usize::MAX as nat) {
            Ok(h) => r is Ok && graph_of(final(nodes)@) == h,
            Err(e) => r == Err::<(), CompileError>(e),
        },
        graph_wf(graph_of(final(nodes)@)),
        gates_linked(graph_of(old(nodes)@)) ==> gates_linked(graph_of(final(nodes)@)),
        final(nodes)@.len() == old(nodes)@.len(),
{
    let ghost g0 = graph_of(nodes@);
    let mut left: usize = usize::MAX;
    loop
        invariant
            g0 == graph_of(old(nodes)@),
            graph_wf(graph_of(nodes@)),
            gates_linked(g0) ==> gates_linked(graph_of(nodes@)),
            nodes@.len() == old(nodes)@.len(),
            fold_fix(g0, usize::MAX as nat) == fold_fix(graph_of(nodes@), left as nat),
        decreases left,
    {
        match fold_once(nodes) {
            None => {
                return Err(CompileError::FoldUndefined);
            },
            Some(changed) => {
                if !changed {
                    return Ok(());
                }
                if left == 0 {
                    return Err(CompileError::Limit);
                }
                left = left - 1;
            },
        }
    }
}

impl IRModule {
    /// Folds the constants of the graph: operands that link to constants
    /// become numbers, and nodes whose value is known become constants,
    /// pass after pass until a pass changes nothing.
    ///
    /// The graph ends as `fold_fix` gives it. The result is `FoldUndefined`
    /// where a division by zero or a negative exponent is met.
    pub fn fold_constants(&mut self) -> (r: Result<(), CompileError>)
        requires
            old(self).wf(),
        ensures
            match fold_fix(old(self).graph(), usize::MAX as nat) {
                Ok(h) => r is Ok && final(self).graph() == h,
                Err(e) => r == Err::<(), CompileError>(e),
            },
            final(self).wf(),
            final(self).nodes@.len() == old(self).nodes@.len(),
            *final(self) == (IRModule { nodes: final(self).nodes, ..*old(self) }),
    {
        fold_node_list(&mut self.nodes)
    }
}

} // verus!
