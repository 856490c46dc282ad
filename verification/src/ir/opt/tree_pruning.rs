use vstd::prelude::*;
use crate::ir::{gates_linked, graph_of, graph_wf, set_node, IRArg, IRModule, IRNode, Node};

verus! {

/// Whether the node reads node `t`: one of its operands is a link to it.
pub open spec fn links_to(node: Node, t: int) -> bool {
    exists|k: int|
        0 <= k < node.args().len() && (#[trigger] node.args()[k]) is Link && node.args()[k].target()
            == t
}

/// A chain of nodes that starts at an output, each node reading the next.
pub open spec fn is_path(g: Seq<Node>, p: Seq<int>) -> bool {
    &&& p.len() >= 1
    &&& forall|k: int| 0 <= k < p.len() ==> 0 <= #[trigger] p[k] < g.len()
    &&& g[p[0]] is Output
    &&& forall|k: int| 0 <= k < p.len() - 1 ==> links_to(g[#[trigger] p[k]], p[k + 1])
}

/// Whether node `i` is kept: it is an input, or an output needs it.
pub open spec fn needed(g: Seq<Node>, i: int) -> bool {
    g[i] is Input || exists|p: Seq<int>| #[trigger] is_path(g, p) && p.last() == i
}

/// The graph with every node that is not needed vacated.
pub open spec fn pruned(g: Seq<Node>) -> Seq<Node> {
    Seq::new(
        g.len(),
        |i: int|
            if needed(g, i) {
                g[i]
            } else {
                Node::Removed
            },
    )
}

/// How many of the first `k` flags are not set.
pub open spec fn count_unset(flags: Seq<bool>, k: int) -> nat
    decreases k,
{
    if k <= 0 {
        0
    } else {
        count_unset(flags, k - 1) + if flags[k - 1] {
            0nat
        } else {
            1nat
        }
    }
}

/// Setting a flag that was not set leaves one less unset.
proof fn lemma_count_unset_update(flags: Seq<bool>, at: int, k: int)
    requires
        0 <= at < flags.len(),
        0 <= k <= flags.len(),
        !flags[at],
    ensures
        count_unset(flags.update(at, true), k) + (if at < k {
            1nat
        } else {
            0nat
        }) == count_unset(flags, k),
    decreases k,
{
    if k > 0 {
        lemma_count_unset_update(flags, at, k - 1);
    }
}

/// The operands of a node.
pub fn operands(node: &IRNode) -> (r: Vec<IRArg>)
    ensures
        r@ == node@.args(),
{
    let mut out: Vec<IRArg> = Vec::new();
    match node {
        IRNode::Output(_, arg) => {
            out.push(*arg);
        },
        IRNode::BinOp(l, _, r) => {
            out.push(*l);
            out.push(*r);
        },
        IRNode::Gate(c, _, g) => {
            out.push(*c);
            out.push(*g);
        },
        IRNode::MultiDriver(args) => {
            out = args.clone();
        },
        IRNode::BinOpSame(arg, _) => {
            out.push(*arg);
        },
        IRNode::BinOpCmpGate(l, _, _, g) => {
            out.push(*l);
            out.push(*g);
        },
        _ => {},
    }
    assert(out@ =~= node@.args());
    out
}

/// Whether `j` waits on the stack.
pub open spec fn on_stack(stack: Seq<usize>, j: int) -> bool {
    exists|q: int| 0 <= q < stack.len() && #[trigger] stack[q] == j
}

/// What the search has found so far: every saved node is needed; every
/// input and output is saved; every node on the stack is saved; and every
/// saved node that is not on the stack has all it reads saved.
pub open spec fn marking(g: Seq<Node>, saved: Seq<bool>, stack: Seq<usize>) -> bool {
    &&& saved.len() == g.len()
    &&& graph_wf(g)
    &&& forall|i: int| 0 <= i < g.len() && #[trigger] saved[i] ==> needed(g, i)
    &&& forall|i: int|
        0 <= i < g.len() && (#[trigger] g[i] is Input || g[i] is Output) ==> saved[i]
    &&& forall|q: int| 0 <= q < stack.len() ==> #[trigger] stack[q] < g.len() && saved[stack[q] as int]
    &&& forall|j: int, t: int|
        0 <= j < g.len() && saved[j] && !on_stack(stack, j) && #[trigger] links_to(g[j], t)
            ==> saved[t]
}

/// Where nothing waits on the stack, every needed node is saved.
proof fn lemma_marking_complete(g: Seq<Node>, saved: Seq<bool>, p: Seq<int>, k: int)
    requires
        marking(g, saved, seq![]),
        is_path(g, p),
        0 <= k < p.len(),
    ensures
        saved[p[k]],
    decreases k,
{
    if k > 0 {
        lemma_marking_complete(g, saved, p, k - 1);
        assert(links_to(g[p[k - 1]], p[k]));
        assert(!on_stack(seq![], p[k - 1]));
    }
}

/// A node that a needed node reads is needed.
proof fn lemma_needed_step(g: Seq<Node>, j: int, t: int)
    requires
        graph_wf(g),
        0 <= j < g.len(),
        needed(g, j),
        links_to(g[j], t),
    ensures
        0 <= t < g.len(),
        needed(g, t),
{
    let k = choose|k: int|
        0 <= k < g[j].args().len() && (#[trigger] g[j].args()[k]) is Link && g[j].args()[k].target()
            == t;
    assert(g[j].links_in_range(g.len()));
    assert(g[j].args()[k].in_range(g.len()));
    let p = if g[j] is Output {
        seq![j]
    } else {
        choose|p: Seq<int>| #[trigger] is_path(g, p) && p.last() == j
    };
    assert(is_path(g, p) && p.last() == j);
    let longer = p.push(t);
    assert forall|q: int| 0 <= q < longer.len() - 1 implies links_to(
        g[#[trigger] longer[q]],
        longer[q + 1],
    ) by {
        if q < p.len() - 1 {
            assert(longer[q] == p[q]);
            assert(longer[q + 1] == p[q + 1]);
        }
    }
    assert(is_path(g, longer));
    assert(longer.last() == t);
}

/// Saves the node that `arg` links to, and puts it on the stack, where it
/// was not saved yet.
pub fn add_arg(arg: &IRArg, saved: &mut Vec<bool>, stack: &mut Vec<usize>)
    requires
        arg.in_range(old(saved)@.len()),
    ensures
        final(saved)@.len() == old(saved)@.len(),
        match *arg {
            IRArg::Link(id, _) => if old(saved)@[id as int] {
                final(saved)@ == old(saved)@ && final(stack)@ == old(stack)@
            } else {
                final(saved)@ == old(saved)@.update(id as int, true) && final(stack)@ == old(
                    stack,
                )@.push(id as usize)
            },
            IRArg::Constant(_) => final(saved)@ == old(saved)@ && final(stack)@ == old(stack)@,
        },
{
    if let IRArg::Link(id, _) = arg {
        if !saved[*id as usize] {
            saved[*id as usize] = true;
            stack.push(*id as usize);
        }
    }
}

/// Drops the nodes that no output needs: every node that is neither an
/// input nor read, directly or through other nodes, by an output is
/// vacated. The other nodes stay as they are, at their indices.
pub fn prune_node_list(nodes: &mut Vec<IRNode>)
    requires
        graph_wf(graph_of(old(nodes)@)),
    ensures
        graph_of(final(nodes)@) == pruned(graph_of(old(nodes)@)),
        graph_wf(graph_of(final(nodes)@)),
        gates_linked(graph_of(old(nodes)@)) ==> gates_linked(graph_of(final(nodes)@)),
{
    let ghost g = graph_of(nodes@);
    let n = nodes.len();
    let mut saved: Vec<bool> = Vec::with_capacity(n);
    let mut stack: Vec<usize> = Vec::new();
    let mut i: usize = 0;
    while i < n
        invariant
            i <= n,
            n == nodes@.len(),
            nodes@ == old(nodes)@,
            g == graph_of(nodes@),
            graph_wf(g),
            saved@.len() == i,
            forall|q: int|
                0 <= q < i ==> #[trigger] saved@[q] == (g[q] is Input || g[q] is Output),
            forall|q: int| 0 <= q < stack@.len() ==> #[trigger] stack@[q] < i && g[stack@[q] as int] is Output,
            stack_holds_outputs(g, stack@, i as int),
        decreases n - i,
    {
        match &nodes[i] {
            IRNode::Input(_) => {
                saved.push(true);
            },
            IRNode::Output(_, _) => {
                saved.push(true);
                let ghost before = stack@;
                stack.push(i);
                proof {
                    assert forall|j: int| 0 <= j < i + 1 && #[trigger] g[j] is Output implies on_stack(
                        stack@,
                        j,
                    ) by {
                        if j < i {
                            let q = choose|q: int| 0 <= q < before.len() && #[trigger] before[q] == j;
                            assert(stack@[q] == j);
                        } else {
                            assert(stack@[before.len() as int] == j);
                        }
                    }
                }
            },
            _ => {
                saved.push(false);
            },
        }
        i = i + 1;
    }
    proof {
        assert forall|q: int| 0 <= q < g.len() && #[trigger] saved@[q] implies needed(g, q) by {
            if g[q] is Output {
                assert(is_path(g, seq![q]));
                assert(seq![q].last() == q);
            }
        }
        assert forall|j: int, t: int|
            0 <= j < g.len() && saved@[j] && !on_stack(stack@, j) && #[trigger] links_to(
                g[j],
                t,
            ) implies saved@[t] by {
            // A saved node that is not on the stack is an input, which
            // reads nothing.
            if g[j] is Output {
                lemma_outputs_stacked(g, stack@, n as int, j);
            }
        }
    }
    while stack.len() > 0
        invariant
            n == nodes@.len(),
            nodes@ == old(nodes)@,
            g == graph_of(nodes@),
            marking(g, saved@, stack@),
        decreases count_unset(saved@, n as int), stack@.len(),
    {
        let ghost stack_before = stack@;
        let ghost saved_before = saved@;
        let j = stack.pop().unwrap();
        assert(stack_before[stack_before.len() - 1] == j);
        let args = operands(&nodes[j]);
        let ghost rest = stack@;
        assert(rest.len() == stack_before.len() - 1);
        assert(forall|q: int| 0 <= q < rest.len() ==> rest[q] == stack_before[q]);
        let mut k: usize = 0;
        while k < args.len()
            invariant
                k <= args.len(),
                n == nodes@.len(),
                g == graph_of(nodes@),
                graph_wf(g),
                j < n,
                args@ == g[j as int].args(),
                saved@.len() == n,
                saved_before.len() == n,
                saved@[j as int],
                forall|i: int| 0 <= i < g.len() && #[trigger] saved@[i] ==> needed(g, i),
                forall|i: int| 0 <= i < g.len() && saved_before[i] ==> #[trigger] saved@[i],
                forall|q: int|
                    0 <= q < stack@.len() ==> #[trigger] stack@[q] < g.len() && saved@[stack@[q] as int],
                rest.len() <= stack@.len(),
                forall|q: int| 0 <= q < rest.len() ==> stack@[q] == rest[q],
                forall|i: int|
                    0 <= i < g.len() && saved@[i] && !saved_before[i] ==> #[trigger] on_stack(
                        stack@,
                        i,
                    ),
                forall|q: int|
                    0 <= q < k && (#[trigger] args@[q]) is Link ==> saved@[args@[q].target()],
                count_unset(saved@, n as int) + (stack@.len() - rest.len()) == count_unset(
                    saved_before,
                    n as int,
                ),
            decreases args.len() - k,
        {
            let arg = args[k];
            let ghost saved_mid = saved@;
            let ghost stack_mid = stack@;
            proof {
                assert(g[j as int].links_in_range(g.len()));
                assert(g[j as int].args()[k as int].in_range(g.len()));
                if let IRArg::Link(t, _) = arg {
                    assert(links_to(g[j as int], t as int));
                    lemma_needed_step(g, j as int, t as int);
                    if !saved_mid[t as int] {
                        lemma_count_unset_update(saved_mid, t as int, n as int);
                    }
                }
            }
            add_arg(&arg, &mut saved, &mut stack);
            proof {
                assert(stack_mid.len() <= stack@.len());
                assert(forall|q: int| 0 <= q < stack_mid.len() ==> stack@[q] == stack_mid[q]);
                assert forall|i: int|
                    0 <= i < g.len() && saved@[i] && !saved_before[i] implies #[trigger] on_stack(
                    stack@,
                    i,
                ) by {
                    if saved_mid[i] {
                        assert(on_stack(stack_mid, i));
                        let q = choose|q: int| 0 <= q < stack_mid.len() && #[trigger] stack_mid[q] == i;
                        assert(stack@[q] == i);
                    } else {
                        assert(arg is Link && arg.target() == i);
                        assert(stack@ == stack_mid.push(i as usize));
                        assert(stack@[stack_mid.len() as int] == i);
                    }
                }
            }
            k = k + 1;
        }
        proof {
            assert forall|x: int, t: int|
                0 <= x < g.len() && saved@[x] && !on_stack(stack@, x) && #[trigger] links_to(
                    g[x],
                    t,
                ) implies saved@[t] by {
                if x == j {
                    let q = choose|q: int|
                        0 <= q < g[x].args().len() && (#[trigger] g[x].args()[q]) is Link
                            && g[x].args()[q].target() == t;
                    assert(args@[q] is Link);
                } else {
                    assert(saved_before[x]);
                    if on_stack(stack_before, x) {
                        let q = choose|q: int|
                            0 <= q < stack_before.len() && #[trigger] stack_before[q] == x;
                        assert(q < rest.len());
                        assert(rest[q] == x);
                        assert(stack@[q] == x);
                    }
                    assert(saved_before[t]);
                }
            }
        }
    }
    i = 0;
    while i < n
        invariant
            i <= n,
            n == nodes@.len(),
            n == g.len(),
            g == graph_of(old(nodes)@),
            marking(g, saved@, seq![]),
            forall|q: int|
                0 <= q < n ==> #[trigger] graph_of(nodes@)[q] == if q < i && !saved@[q] {
                    Node::Removed
                } else {
                    g[q]
                },
        decreases n - i,
    {
        if !saved[i] {
            set_node(nodes, i, IRNode::Removed);
        }
        i = i + 1;
    }
    proof {
        let h = graph_of(nodes@);
        assert forall|q: int| 0 <= q < n implies saved@[q] == needed(g, q) by {
            if needed(g, q) && !(g[q] is Input) {
                let p = choose|p: Seq<int>| #[trigger] is_path(g, p) && p.last() == q;
                lemma_marking_complete(g, saved@, p, p.len() - 1);
            }
        }
        assert(h =~= pruned(g));
        assert forall|q: int| 0 <= q < h.len() implies (#[trigger] h[q]).links_in_range(h.len()) by {
            assert(g[q].links_in_range(g.len()));
        }
        if gates_linked(g) {
            assert forall|q: int| 0 <= q < h.len() && #[trigger] h[q] is BinOpCmpGate implies h[q]->BinOpCmpGate_0 is Link
                && h[q]->BinOpCmpGate_3 is Link by {
                assert(g[q] is BinOpCmpGate);
            }
        }
    }
}

/// Every output among the first `k` nodes waits on the stack that holds
/// them all.
proof fn lemma_outputs_stacked(g: Seq<Node>, stack: Seq<usize>, k: int, j: int)
    requires
        0 <= j < k,
        g[j] is Output,
        stack_holds_outputs(g, stack, k),
    ensures
        on_stack(stack, j),
{
}

/// The stack holds every output among the first `k` nodes.
pub open spec fn stack_holds_outputs(g: Seq<Node>, stack: Seq<usize>, k: int) -> bool {
    forall|j: int| 0 <= j < k && #[trigger] g[j] is Output ==> on_stack(stack, j)
}

impl IRModule {
    /// Drops the nodes that no output needs.
    pub fn prune(&mut self)
        requires
            old(self).wf(),
        ensures
            final(self).graph() == pruned(old(self).graph()),
            final(self).wf(),
            *final(self) == (IRModule { nodes: final(self).nodes, ..*old(self) }),
    {
        prune_node_list(&mut self.nodes)
    }
}

/// Every node on a path is needed.
proof fn lemma_path_needed(g: Seq<Node>, p: Seq<int>, k: int)
    requires
        is_path(g, p),
        0 <= k < p.len(),
    ensures
        needed(g, p[k]),
{
    let head = p.subrange(0, k + 1);
    assert forall|q: int| 0 <= q < head.len() - 1 implies links_to(
        g[#[trigger] head[q]],
        head[q + 1],
    ) by {
        assert(head[q] == p[q]);
        assert(head[q + 1] == p[q + 1]);
    }
    assert(is_path(g, head));
    assert(head.last() == p[k]);
}

/// A path of the graph is a path of the pruned graph, and the other way
/// round.
proof fn lemma_pruned_paths(g: Seq<Node>, p: Seq<int>)
    ensures
        is_path(g, p) <==> is_path(pruned(g), p),
{
    let h = pruned(g);
    if is_path(g, p) {
        assert forall|k: int| 0 <= k < p.len() implies h[#[trigger] p[k]] == g[p[k]] by {
            lemma_path_needed(g, p, k);
        }
        assert forall|k: int| 0 <= k < p.len() - 1 implies links_to(
            h[#[trigger] p[k]],
            p[k + 1],
        ) by {
            assert(links_to(g[p[k]], p[k + 1]));
        }
    }
    if is_path(h, p) {
        // A node of the pruned graph that is an output or reads another is
        // no vacated slot, so it is the node of the graph.
        assert(h[p[0]] == g[p[0]]);
        assert forall|k: int| 0 <= k < p.len() - 1 implies links_to(
            g[#[trigger] p[k]],
            p[k + 1],
        ) by {
            assert(links_to(h[p[k]], p[k + 1]));
            if h[p[k]] != g[p[k]] {
                assert(h[p[k]] == Node::Removed);
                assert(Node::Removed.args().len() == 0);
            }
        }
    }
}

/// Pruning is idempotent: a pruned graph is left as it is.
pub proof fn lemma_pruned_fixpoint(g: Seq<Node>)
    ensures
        pruned(pruned(g)) == pruned(g),
{
    let h = pruned(g);
    assert forall|i: int| 0 <= i < g.len() implies needed(h, i) == needed(g, i) by {
        if needed(g, i) {
            if !(g[i] is Input) {
                let p = choose|p: Seq<int>| #[trigger] is_path(g, p) && p.last() == i;
                lemma_pruned_paths(g, p);
            }
        }
        if needed(h, i) {
            if h[i] is Input {
                assert(h[i] == g[i]);
            } else {
                let p = choose|p: Seq<int>| #[trigger] is_path(h, p) && p.last() == i;
                lemma_pruned_paths(g, p);
            }
        }
    }
    assert(pruned(h) =~= h);
}

} // verus!
