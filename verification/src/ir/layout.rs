use vstd::prelude::*;
use std::collections::HashMap;
use crate::common::ConnectType;
use crate::disjoint_set::DisjointSet;
use crate::error::CompileError;
use crate::ir::placement::{holder, is_reserved, placed, placement, row_width, Grid};
use crate::ir::select_symbols::has_unlowered;
use crate::ir::{graph_of, graph_wf, IRArg, IRModule, IRNode, Node, WireColor};

verus! {

broadcast use vstd::std_specs::hash::group_hash_axioms;

/// The ends that one colour of wire has to connect.
#[derive(Debug)]
pub struct WireNet {
    pub color: WireColor,
    pub connections: Vec<(u32, ConnectType)>,
}

/// One wire between two ends.
#[derive(Debug, Clone, Copy, PartialEq, Eq)]
pub struct WireLink {
    pub color: WireColor,
    pub a: (u32, ConnectType),
    pub b: (u32, ConnectType),
}

/// The nets of a module, and for each end and colour the net it is in.
pub struct NetRegistry {
    pub map: HashMap<u64, usize>,
    pub list: Vec<WireNet>,
}

/// The mathematical value of a net.
pub ghost struct NetView {
    pub color: WireColor,
    pub ends: Seq<(u32, ConnectType)>,
}

impl View for WireNet {
    type V = NetView;

    open spec fn view(&self) -> NetView {
        NetView { color: self.color, ends: self.connections@ }
    }
}

/// The mathematical value of a registry.
pub ghost struct RegView {
    pub map: Map<u64, usize>,
    pub nets: Seq<NetView>,
}

impl View for NetRegistry {
    type V = RegView;

    open spec fn view(&self) -> RegView {
        RegView { map: self.map@, nets: Seq::new(self.list@.len(), |i: int| self.list@[i]@) }
    }
}

/// The number that an end of one colour is filed under.
pub open spec fn end_key(id: u32, dir: ConnectType, color: WireColor) -> u64 {
    (id * 6 + (if dir is Out {
        3int
    } else {
        0int
    }) + (match color {
        WireColor::Red => 0int,
        WireColor::Green => 1int,
        WireColor::Unknown => 2int,
    })) as u64
}

/// The registry after the output of `src` and the input of `dest` were put
/// on one net of the given colour: the net that one of them is in, or a new
/// one. There is none where both are in nets already, and in different
/// ones.
pub open spec fn ends_joined(reg: RegView, src: u32, dest: u32, color: WireColor) -> Option<
    RegView,
> {
    let src_key = end_key(src, ConnectType::Out, color);
    let dest_key = end_key(dest, ConnectType::In, color);
    if reg.map.contains_key(src_key) && reg.map.contains_key(dest_key) {
        if reg.map[src_key] == reg.map[dest_key] {
            Some(reg)
        } else {
            None
        }
    } else if reg.map.contains_key(src_key) {
        let id = reg.map[src_key];
        Some(
            RegView {
                map: reg.map.insert(dest_key, id),
                nets: reg.nets.update(
                    id as int,
                    NetView {
                        color: reg.nets[id as int].color,
                        ends: reg.nets[id as int].ends.push((dest, ConnectType::In)),
                    },
                ),
            },
        )
    } else if reg.map.contains_key(dest_key) {
        let id = reg.map[dest_key];
        Some(
            RegView {
                map: reg.map.insert(src_key, id),
                nets: reg.nets.update(
                    id as int,
                    NetView {
                        color: reg.nets[id as int].color,
                        ends: reg.nets[id as int].ends.push((src, ConnectType::Out)),
                    },
                ),
            },
        )
    } else {
        let id = reg.nets.len() as usize;
        Some(
            RegView {
                map: reg.map.insert(src_key, id).insert(dest_key, id),
                nets: reg.nets.push(
                    NetView {
                        color,
                        ends: seq![(src, ConnectType::Out), (dest, ConnectType::In)],
                    },
                ),
            },
        )
    }
}

/// Every net that an end is filed under exists, and every end is a node of
/// the graph that becomes an entity.
pub open spec fn registry_wf(reg: RegView, g: Seq<Node>) -> bool {
    &&& forall|k: u64| #[trigger] reg.map.contains_key(k) ==> reg.map[k] < reg.nets.len()
    &&& forall|i: int, j: int|
        0 <= i < reg.nets.len() && 0 <= j < reg.nets[i].ends.len() ==> {
            let end = #[trigger] reg.nets[i].ends[j];
            end.0 < g.len() && g[end.0 as int].is_entity()
        }
}

/// The registry after the operand `src` of node `dest` was wired up. A
/// number needs no wire. A link to a multi-driver stands for links to each
/// of its drivers, which takes the colour of `src`; a number among them is
/// `EmitInvalid`, and a chain of more than `fuel` multi-drivers is
/// `ShortCycle`. A link to a node that becomes no entity is `ParseLink`, and
/// two ends that are in different nets already are `PlacementConflict`.
pub open spec fn link_added(reg: RegView, g: Seq<Node>, src: IRArg, dest: u32, fuel: nat) -> Result<
    RegView,
    CompileError,
>
    decreases fuel, 0nat,
{
    match src {
        IRArg::Constant(_) => Ok(reg),
        IRArg::Link(s, color) => if s >= g.len() {
            Err(CompileError::ParseLink)
        } else {
            match g[s as int] {
                Node::MultiDriver(args) => if fuel == 0 {
                    Err(CompileError::ShortCycle)
                } else {
                    drivers_added(reg, g, args, 0, color, dest, (fuel - 1) as nat)
                },
                node => if !node.is_entity() {
                    Err(CompileError::ParseLink)
                } else {
                    match ends_joined(reg, s, dest, color) {
                        Some(joined) => Ok(joined),
                        None => Err(CompileError::PlacementConflict),
                    }
                },
            }
        },
    }
}

/// The registry after the drivers `args[k..]` were wired to `dest`.
pub open spec fn drivers_added(
    reg: RegView,
    g: Seq<Node>,
    args: Seq<IRArg>,
    k: int,
    color: WireColor,
    dest: u32,
    fuel: nat,
) -> Result<RegView, CompileError>
    decreases fuel, 1 + args.len() - k,
{
    if k < 0 || k >= args.len() {
        Ok(reg)
    } else {
        match args[k] {
            IRArg::Constant(_) => Err(CompileError::EmitInvalid),
            IRArg::Link(t, _) => match link_added(reg, g, IRArg::Link(t, color), dest, fuel) {
                Err(e) => Err(e),
                Ok(next) => drivers_added(next, g, args, k + 1, color, dest, fuel),
            },
        }
    }
}

fn end_key_of(id: u32, dir: ConnectType, color: WireColor) -> (k: u64)
    ensures
        k == end_key(id, dir, color),
{
    let d: u64 = match dir {
        ConnectType::Out => 3,
        ConnectType::In => 0,
    };
    let c: u64 = match color {
        WireColor::Red => 0,
        WireColor::Green => 1,
        WireColor::Unknown => 2,
    };
    (id as u64) * 6 + d + c
}

impl NetRegistry {
    /// A registry without nets.
    pub fn new() -> (r: NetRegistry)
        ensures
            r@.nets.len() == 0,
            r@.map == Map::<u64, usize>::empty(),
    {
        NetRegistry { map: HashMap::new(), list: Vec::new() }
    }

    fn join_ends(&mut self, src: u32, dest: u32, color: WireColor, Ghost(g): Ghost<Seq<Node>>) -> (r:
        bool)
        requires
            registry_wf(old(self)@, g),
            src < g.len(),
            dest < g.len(),
            g[src as int].is_entity(),
            g[dest as int].is_entity(),
        ensures
            match ends_joined(old(self)@, src, dest, color) {
                Some(joined) => r && final(self)@ == joined && registry_wf(joined, g),
                None => !r && final(self)@ == old(self)@,
            },
    {
        let src_key = end_key_of(src, ConnectType::Out, color);
        let dest_key = end_key_of(dest, ConnectType::In, color);
        let src_net = match self.map.get(&src_key) {
            Some(id) => Some(*id),
            None => None,
        };
        let dest_net = match self.map.get(&dest_key) {
            Some(id) => Some(*id),
            None => None,
        };
        let ghost before = self@;
        match (src_net, dest_net) {
            (Some(a), Some(b)) => a == b,
            (Some(a), None) => {
                self.list[a].connections.push((dest, ConnectType::In));
                self.map.insert(dest_key, a);
                proof {
                    let joined = ends_joined(before, src, dest, color)->Some_0;
                    assert(self@.nets =~= joined.nets);
                    assert(registry_wf(self@, g)) by {
                        assert forall|i: int, j: int|
                            0 <= i < self@.nets.len() && 0 <= j < self@.nets[i].ends.len() implies {
                            let end = #[trigger] self@.nets[i].ends[j];
                            end.0 < g.len() && g[end.0 as int].is_entity()
                        } by {
                            if i == a && j == before.nets[i].ends.len() {
                            } else {
                                assert(self@.nets[i].ends[j] == before.nets[i].ends[j]);
                            }
                        }
                    }
                }
                true
            },
            (None, Some(b)) => {
                self.list[b].connections.push((src, ConnectType::Out));
                self.map.insert(src_key, b);
                proof {
                    let joined = ends_joined(before, src, dest, color)->Some_0;
                    assert(self@.nets =~= joined.nets);
                    assert(registry_wf(self@, g)) by {
                        assert forall|i: int, j: int|
                            0 <= i < self@.nets.len() && 0 <= j < self@.nets[i].ends.len() implies {
                            let end = #[trigger] self@.nets[i].ends[j];
                            end.0 < g.len() && g[end.0 as int].is_entity()
                        } by {
                            if i == b && j == before.nets[i].ends.len() {
                            } else {
                                assert(self@.nets[i].ends[j] == before.nets[i].ends[j]);
                            }
                        }
                    }
                }
                true
            },
            (None, None) => {
                let id = self.list.len();
                let mut connections: Vec<(u32, ConnectType)> = Vec::new();
                connections.push((src, ConnectType::Out));
                connections.push((dest, ConnectType::In));
                self.list.push(WireNet { color, connections });
                self.map.insert(src_key, id);
                self.map.insert(dest_key, id);
                proof {
                    let joined = ends_joined(before, src, dest, color)->Some_0;
                    assert(connections@ =~= seq![(src, ConnectType::Out), (dest, ConnectType::In)]);
                    assert(self@.nets =~= joined.nets);
                    assert(registry_wf(self@, g)) by {
                        assert forall|i: int, j: int|
                            0 <= i < self@.nets.len() && 0 <= j < self@.nets[i].ends.len() implies {
                            let end = #[trigger] self@.nets[i].ends[j];
                            end.0 < g.len() && g[end.0 as int].is_entity()
                        } by {
                            if i < before.nets.len() {
                                assert(self@.nets[i].ends[j] == before.nets[i].ends[j]);
                            }
                        }
                    }
                }
                true
            },
        }
    }
}

impl NetRegistry {
    /// Wires the operand `src_arg` of node `dest_id` into the nets, following
    /// multi-drivers for at most `fuel` steps.
    pub fn add_link(&mut self, src_arg: &IRArg, dest_id: u32, nodes: &Vec<IRNode>, fuel: usize) -> (r:
        Result<(), CompileError>)
        requires
            registry_wf(old(self)@, graph_of(nodes@)),
            dest_id < nodes@.len(),
            graph_of(nodes@)[dest_id as int].is_entity(),
        ensures
            match link_added(old(self)@, graph_of(nodes@), *src_arg, dest_id, fuel as nat) {
                Ok(reg) => r is Ok && final(self)@ == reg && registry_wf(reg, graph_of(nodes@)),
                Err(e) => r == Err::<(), CompileError>(e),
            },
        decreases fuel, 0nat,
    {
        let ghost g = graph_of(nodes@);
        match src_arg {
            IRArg::Constant(_) => Ok(()),
            IRArg::Link(s, color) => {
                let s = *s;
                let color = *color;
                if s as usize >= nodes.len() {
                    return Err(CompileError::ParseLink);
                }
                match &nodes[s as usize] {
                    IRNode::MultiDriver(args) => {
                        if fuel == 0 {
                            Err(CompileError::ShortCycle)
                        } else {
                            self.add_drivers(args, color, dest_id, nodes, fuel - 1)
                        }
                    },
                    IRNode::Input(_) | IRNode::Output(_, _) | IRNode::Constant(_) | IRNode::BinOp(
                        _,
                        _,
                        _,
                    ) | IRNode::BinOpSame(_, _) | IRNode::BinOpCmpGate(_, _, _, _) => {
                        if self.join_ends(s, dest_id, color, Ghost(g)) {
                            Ok(())
                        } else {
                            Err(CompileError::PlacementConflict)
                        }
                    },
                    _ => Err(CompileError::ParseLink),
                }
            },
        }
    }

    fn add_drivers(
        &mut self,
        args: &Vec<IRArg>,
        color: WireColor,
        dest_id: u32,
        nodes: &Vec<IRNode>,
        fuel: usize,
    ) -> (r: Result<(), CompileError>)
        requires
            registry_wf(old(self)@, graph_of(nodes@)),
            dest_id < nodes@.len(),
            graph_of(nodes@)[dest_id as int].is_entity(),
        ensures
            match drivers_added(
                old(self)@,
                graph_of(nodes@),
                args@,
                0,
                color,
                dest_id,
                fuel as nat,
            ) {
                Ok(reg) => r is Ok && final(self)@ == reg && registry_wf(reg, graph_of(nodes@)),
                Err(e) => r == Err::<(), CompileError>(e),
            },
        decreases fuel, 1nat,
    {
        let ghost g = graph_of(nodes@);
        let mut k: usize = 0;
        while k < args.len()
            invariant
                k <= args.len(),
                g == graph_of(nodes@),
                registry_wf(self@, g),
                dest_id < nodes@.len(),
                g[dest_id as int].is_entity(),
                drivers_added(old(self)@, g, args@, 0, color, dest_id, fuel as nat)
                    == drivers_added(self@, g, args@, k as int, color, dest_id, fuel as nat),
            decreases args.len() - k,
        {
            match args[k] {
                IRArg::Constant(_) => {
                    return Err(CompileError::EmitInvalid);
                },
                IRArg::Link(t, _) => {
                    let fixed = IRArg::Link(t, color);
                    match self.add_link(&fixed, dest_id, nodes, fuel) {
                        Err(e) => {
                            return Err(e);
                        },
                        Ok(()) => {},
                    }
                },
            }
            k = k + 1;
        }
        Ok(())
    }
}

/// The registry after all operands of node `i` were wired up. A gate or an
/// empty slot is `EmitInvalid`.
pub open spec fn node_registered(reg: RegView, g: Seq<Node>, i: int) -> Result<
    RegView,
    CompileError,
> {
    match g[i] {
        Node::Output(_, arg) => link_added(reg, g, arg, i as u32, g.len()),
        Node::BinOp(l, _, r) => match link_added(reg, g, l, i as u32, g.len()) {
            Err(e) => Err(e),
            Ok(next) => link_added(next, g, r, i as u32, g.len()),
        },
        Node::BinOpCmpGate(l, _, _, gated) => match link_added(reg, g, l, i as u32, g.len()) {
            Err(e) => Err(e),
            Ok(next) => link_added(next, g, gated, i as u32, g.len()),
        },
        Node::BinOpSame(arg, _) => link_added(reg, g, arg, i as u32, g.len()),
        Node::Gate(_, _, _) => Err(CompileError::EmitInvalid),
        Node::PlaceHolder => Err(CompileError::EmitInvalid),
        _ => Ok(reg),
    }
}

/// The registry after the first `k` nodes were wired up.
pub open spec fn registered_upto(g: Seq<Node>, k: int) -> Result<RegView, CompileError>
    decreases k,
{
    if k <= 0 {
        Ok(RegView { map: Map::empty(), nets: seq![] })
    } else {
        match registered_upto(g, k - 1) {
            Err(e) => Err(e),
            Ok(reg) => node_registered(reg, g, k - 1),
        }
    }
}

/// The nets of a graph, or the first error that wiring it up meets.
pub open spec fn registered(g: Seq<Node>) -> Result<RegView, CompileError> {
    registered_upto(g, g.len() as int)
}

/// Once the wiring has met an error, that error stays.
proof fn lemma_registered_error_stays(g: Seq<Node>, a: int, b: int)
    requires
        registered_upto(g, a) is Err,
        a <= b,
    ensures
        registered_upto(g, b) == registered_upto(g, a),
    decreases b - a,
{
    if a < b {
        lemma_registered_error_stays(g, a, b - 1);
    }
}

/// Groups the operands of all nodes into nets: one net for each output and
/// colour, which holds that output and every input it feeds.
pub fn register_nets(nodes: &Vec<IRNode>) -> (r: Result<NetRegistry, CompileError>)
    requires
        graph_wf(graph_of(nodes@)),
    ensures
        match registered(graph_of(nodes@)) {
            Ok(reg) => r is Ok && r->Ok_0@ == reg && registry_wf(reg, graph_of(nodes@)),
            Err(e) => r is Err && r->Err_0 == e,
        },
{
    let ghost g = graph_of(nodes@);
    let mut networks = NetRegistry::new();
    let n = nodes.len();
    let mut i: usize = 0;
    assert(networks@.nets =~= seq![]);
    while i < n
        invariant
            i <= n,
            n == nodes@.len(),
            n <= u32::MAX,
            g == graph_of(nodes@),
            registry_wf(networks@, g),
            registered_upto(g, i as int) == Ok::<RegView, CompileError>(networks@),
        decreases n - i,
    {
        let id = i as u32;
        let step = match &nodes[i] {
            IRNode::Output(_, arg) => networks.add_link(arg, id, nodes, n),
            IRNode::BinOp(l, _, r) => match networks.add_link(l, id, nodes, n) {
                Err(e) => Err(e),
                Ok(()) => networks.add_link(r, id, nodes, n),
            },
            IRNode::BinOpCmpGate(l, _, _, gated) => match networks.add_link(l, id, nodes, n) {
                Err(e) => Err(e),
                Ok(()) => networks.add_link(gated, id, nodes, n),
            },
            IRNode::BinOpSame(arg, _) => networks.add_link(arg, id, nodes, n),
            IRNode::Gate(_, _, _) => Err(CompileError::EmitInvalid),
            IRNode::PlaceHolder => Err(CompileError::EmitInvalid),
            _ => Ok(()),
        };
        match step {
            Err(e) => {
                proof {
                    assert(registered_upto(g, i + 1) == Err::<RegView, CompileError>(e));
                    lemma_registered_error_stays(g, i + 1, n as int);
                }
                return Err(e);
            },
            Ok(()) => {},
        }
        i = i + 1;
    }
    Ok(networks)
}

/// Whether two points, in half cells, are close enough for one wire: at most
/// nine cells apart.
pub open spec fn within_reach(a: (int, int), b: (int, int)) -> bool {
    (a.0 - b.0) * (a.0 - b.0) + (a.1 - b.1) * (a.1 - b.1) <= 324
}

/// The points as pairs of mathematical integers.
pub open spec fn points_of(v: Seq<(i64, i64)>) -> Seq<(int, int)> {
    Seq::new(v.len(), |i: int| (v[i].0 as int, v[i].1 as int))
}

/// The component names after the component of `a` has joined that of `b`.
pub open spec fn join(reps: Seq<int>, a: int, b: int) -> Seq<int> {
    Seq::new(
        reps.len(),
        |j: int|
            if reps[j] == reps[a] {
                reps[b]
            } else {
                reps[j]
            },
    )
}

/// For each of `n` points the name of its component under the first `k`
/// edges.
pub open spec fn components(edges: Seq<(usize, usize)>, n: nat, k: int) -> Seq<int>
    decreases k,
{
    if k <= 0 {
        Seq::new(n, |j: int| j)
    } else {
        join(components(edges, n, k - 1), edges[k - 1].0 as int, edges[k - 1].1 as int)
    }
}

/// The edges form a tree that spans the points: each joins two points within
/// reach that no earlier edges connect, and all of them connect every point.
pub open spec fn spanning_tree(points: Seq<(int, int)>, edges: Seq<(usize, usize)>) -> bool {
    &&& forall|k: int|
        0 <= k < edges.len() ==> {
            let e = #[trigger] edges[k];
            &&& e.0 < e.1 < points.len()
            &&& within_reach(points[e.0 as int], points[e.1 as int])
            &&& components(edges, points.len(), k)[e.0 as int] != components(
                edges,
                points.len(),
                k,
            )[e.1 as int]
        }
    &&& forall|i: int, j: int|
        0 <= i < points.len() && 0 <= j < points.len() ==> components(
            edges,
            points.len(),
            edges.len() as int,
        )[i] == components(edges, points.len(), edges.len() as int)[j]
}

/// The points fall into groups, named by `groups`, such that no wire can
/// join two groups, and there is more than one group.
pub open spec fn split_by(points: Seq<(int, int)>, groups: Seq<int>) -> bool {
    &&& groups.len() == points.len()
    &&& forall|i: int, j: int|
        0 <= i < points.len() && 0 <= j < points.len() && within_reach(points[i], points[j])
            ==> groups[i] == groups[j]
    &&& exists|i: int, j: int|
        0 <= i < points.len() && 0 <= j < points.len() && groups[i] != groups[j]
}

/// No set of wires can connect the points.
pub open spec fn unreachable(points: Seq<(int, int)>) -> bool {
    exists|groups: Seq<int>| split_by(points, groups)
}

/// Whether two points are within reach of one wire.
pub fn check_dist(a: (i64, i64), b: (i64, i64)) -> (r: bool)
    ensures
        r == within_reach((a.0 as int, a.1 as int), (b.0 as int, b.1 as int)),
{
    let dx: i128 = a.0 as i128 - b.0 as i128;
    let dy: i128 = a.1 as i128 - b.1 as i128;
    if dx > 18 || dx < -18 || dy > 18 || dy < -18 {
        assert(dx * dx + dy * dy > 324) by (nonlinear_arith)
            requires
                dx > 18 || dx < -18 || dy > 18 || dy < -18,
        ;
        false
    } else {
        assert(dx * dx <= 324 && dy * dy <= 324 && dx * dx >= 0 && dy * dy >= 0)
            by (nonlinear_arith)
            requires
                -18 <= dx <= 18,
                -18 <= dy <= 18,
        ;
        dx * dx + dy * dy <= 324
    }
}

/// Reach does not depend on the order of the two points.
pub proof fn lemma_reach_symmetric(a: (int, int), b: (int, int))
    ensures
        within_reach(a, b) == within_reach(b, a),
{
    assert((a.0 - b.0) * (a.0 - b.0) == (b.0 - a.0) * (b.0 - a.0)) by (nonlinear_arith);
    assert((a.1 - b.1) * (a.1 - b.1) == (b.1 - a.1) * (b.1 - a.1)) by (nonlinear_arith);
}

/// One more edge leaves the components under the edges before it as they
/// were.
proof fn lemma_components_prefix(edges: Seq<(usize, usize)>, e: (usize, usize), n: nat, k: int)
    requires
        0 <= k <= edges.len(),
    ensures
        components(edges.push(e), n, k) == components(edges, n, k),
    decreases k,
{
    if k > 0 {
        lemma_components_prefix(edges, e, n, k - 1);
        assert(edges.push(e)[k - 1] == edges[k - 1]);
    }
}

/// The search so far: the sets are the components under the edges, and each
/// edge joined two points within reach that nothing connected before.
pub open spec fn routed(
    pts: Seq<(int, int)>,
    sets: DisjointSet,
    edges: Seq<(usize, usize)>,
) -> bool {
    let n = pts.len();
    &&& 1 <= n <= u32::MAX
    &&& sets.wf()
    &&& sets.spec_len() == n
    &&& components(edges, n, edges.len() as int).len() == n
    &&& forall|j: int|
        0 <= j < n ==> sets.find(j) == #[trigger] components(edges, n, edges.len() as int)[j]
    &&& forall|k: int|
        0 <= k < edges.len() ==> {
            let e = #[trigger] edges[k];
            &&& e.0 < e.1 < n
            &&& within_reach(pts[e.0 as int], pts[e.1 as int])
            &&& components(edges, n, k)[e.0 as int] != components(edges, n, k)[e.1 as int]
        }
}

/// No point after `a` and before `b` can be wired to `a`: it is connected
/// to `a` or out of reach.
pub open spec fn no_wire_from(pts: Seq<(int, int)>, sets: DisjointSet, a: int, b: int) -> bool {
    forall|other: int|
        a < other < b ==> sets.find(a) == sets.find(other) || !within_reach(
            pts[a],
            #[trigger] pts[other],
        )
}

/// The first point from `b` on that a wire can join to point `a`: it is
/// within reach of `a` and in another component.
pub open spec fn first_target(pts: Seq<(int, int)>, reps: Seq<int>, a: int, b: int) -> Option<int>
    decreases pts.len() - b,
{
    if b >= pts.len() {
        None
    } else if reps[a] != reps[b] && within_reach(pts[a], pts[b]) {
        Some(b)
    } else {
        first_target(pts, reps, a, b + 1)
    }
}

/// The edges after point `a` was wired to the first later point that a wire
/// can join it to, if there is one.
pub open spec fn wire_step(pts: Seq<(int, int)>, edges: Seq<(usize, usize)>, a: int) -> Seq<
    (usize, usize),
> {
    let reps = components(edges, pts.len(), edges.len() as int);
    match first_target(pts, reps, a, a + 1) {
        Some(b) => edges.push((a as usize, b as usize)),
        None => edges,
    }
}

/// The edges after one round has come to point `a`: each point before `a`
/// was wired in turn.
pub open spec fn round_upto(pts: Seq<(int, int)>, edges: Seq<(usize, usize)>, a: int) -> Seq<
    (usize, usize),
>
    decreases a,
{
    if a <= 0 {
        edges
    } else {
        wire_step(pts, round_upto(pts, edges, a - 1), a - 1)
    }
}

/// All points lie in one component.
pub open spec fn connected(reps: Seq<int>) -> bool {
    forall|i: int, j: int| 0 <= i < reps.len() && 0 <= j < reps.len() ==> reps[i] == reps[j]
}

/// The edges after at most `rounds + 1` rounds that start from `edges`: the
/// rounds end when all points are connected. `None` where a round adds no
/// edge, or the rounds run out, before that.
pub open spec fn wired_from(pts: Seq<(int, int)>, edges: Seq<(usize, usize)>, rounds: nat) -> Option<
    Seq<(usize, usize)>,
>
    decreases rounds,
{
    let after = round_upto(pts, edges, pts.len() as int);
    if connected(components(after, pts.len(), after.len() as int)) {
        Some(after)
    } else if after.len() == edges.len() || rounds == 0 {
        None
    } else {
        wired_from(pts, after, (rounds - 1) as nat)
    }
}

/// The edges that wire up the points, in the order in which they are made;
/// `None` where the points cannot be connected. Each round joins at least
/// two components, so there are no more rounds than points.
pub open spec fn wired(pts: Seq<(int, int)>) -> Option<Seq<(usize, usize)>> {
    wired_from(pts, seq![], pts.len())
}

/// Wires point `id_a` to the first later point that is within reach and not
/// connected to it yet, if there is one.
fn wire_from(
    points: &Vec<(i64, i64)>,
    sets: &mut DisjointSet,
    edges: &mut Vec<(usize, usize)>,
    id_a: usize,
) -> (linked: bool)
    requires
        routed(points_of(points@), *old(sets), old(edges)@),
        id_a < points@.len(),
    ensures
        routed(points_of(points@), *final(sets), final(edges)@),
        final(edges)@ == wire_step(points_of(points@), old(edges)@, id_a as int),
        linked ==> final(sets).spec_count_sets() < old(sets).spec_count_sets(),
        linked ==> final(edges)@.len() == old(edges)@.len() + 1,
        !linked ==> {
            &&& final(edges)@ == old(edges)@
            &&& final(sets).spec_count_sets() == old(sets).spec_count_sets()
            &&& forall|j: int|
                0 <= j < points@.len() ==> final(sets).find(j) == old(sets).find(j)
            &&& no_wire_from(points_of(points@), *final(sets), id_a as int, points@.len() as int)
        },
{
    let n = points.len();
    let ghost pts = points_of(points@);
    let ghost reps = components(edges@, n as nat, edges@.len() as int);
    let net_a = sets.get(id_a);
    let mut id_b: usize = id_a + 1;
    while id_b < n
        invariant
            id_a < id_b <= n,
            n == points@.len(),
            pts == points_of(points@),
            routed(pts, *sets, edges@),
            edges@ == old(edges)@,
            reps == components(edges@, n as nat, edges@.len() as int),
            net_a == sets.find(id_a as int),
            sets.spec_count_sets() == old(sets).spec_count_sets(),
            forall|j: int| 0 <= j < n ==> sets.find(j) == old(sets).find(j),
            no_wire_from(pts, *sets, id_a as int, id_b as int),
            first_target(pts, reps, id_a as int, id_a + 1) == first_target(
                pts,
                reps,
                id_a as int,
                id_b as int,
            ),
        decreases n - id_b,
    {
        let net_b = sets.get(id_b);
        assert(net_a == reps[id_a as int] && net_b == reps[id_b as int]);
        if net_a != net_b && check_dist(points[id_a], points[id_b]) {
            let ghost before = *sets;
            let ghost old_edges = edges@;
            proof {
                assert(first_target(pts, reps, id_a as int, id_b as int) == Some(id_b as int));
                before.lemma_find_is_member(id_a as int);
                before.lemma_find_is_member(id_b as int);
            }
            sets.merge(net_a, net_b);
            edges.push((id_a, id_b));
            proof {
                let e = (id_a, id_b);
                lemma_components_prefix(old_edges, e, n as nat, old_edges.len() as int);
                let prev = components(old_edges, n as nat, old_edges.len() as int);
                let next = components(edges@, n as nat, edges@.len() as int);
                assert(edges@[old_edges.len() as int] == e);
                assert(next == join(prev, id_a as int, id_b as int));
                assert forall|j: int| 0 <= j < n implies sets.find(j) == #[trigger] next[j] by {
                    assert(before.find(j) == prev[j]);
                    assert(before.find(id_a as int) == prev[id_a as int]);
                    assert(before.find(id_b as int) == prev[id_b as int]);
                }
                assert forall|k: int| 0 <= k < edges@.len() implies {
                    let e = #[trigger] edges@[k];
                    &&& e.0 < e.1 < n
                    &&& within_reach(pts[e.0 as int], pts[e.1 as int])
                    &&& components(edges@, n as nat, k)[e.0 as int] != components(
                        edges@,
                        n as nat,
                        k,
                    )[e.1 as int]
                } by {
                    lemma_components_prefix(old_edges, (id_a, id_b), n as nat, k);
                    if k < old_edges.len() {
                        assert(edges@[k] == old_edges[k]);
                    } else {
                        assert(prev[id_a as int] == before.find(id_a as int));
                        assert(prev[id_b as int] == before.find(id_b as int));
                    }
                }
            }
            return true;
        }
        id_b = id_b + 1;
    }
    false
}

/// Points of one component under the first `k` edges lie in one group.
proof fn lemma_components_in_groups(
    points: Seq<(int, int)>,
    edges: Seq<(usize, usize)>,
    groups: Seq<int>,
    k: int,
    i: int,
    j: int,
)
    requires
        spanning_tree(points, edges),
        groups.len() == points.len(),
        forall|a: int, b: int|
            0 <= a < points.len() && 0 <= b < points.len() && within_reach(points[a], points[b])
                ==> groups[a] == groups[b],
        0 <= k <= edges.len(),
        0 <= i < points.len(),
        0 <= j < points.len(),
        components(edges, points.len(), k)[i] == components(edges, points.len(), k)[j],
    ensures
        groups[i] == groups[j],
    decreases k,
{
    if k > 0 {
        let before = components(edges, points.len(), k - 1);
        lemma_components_len(edges, points.len(), k - 1);
        let e = edges[k - 1];
        let a = e.0 as int;
        let b = e.1 as int;
        assert(within_reach(points[a], points[b]));
        if before[i] == before[a] {
            lemma_components_in_groups(points, edges, groups, k - 1, i, a);
        }
        if before[j] == before[a] {
            lemma_components_in_groups(points, edges, groups, k - 1, j, a);
        }
        if before[i] == before[b] {
            lemma_components_in_groups(points, edges, groups, k - 1, i, b);
        }
        if before[j] == before[b] {
            lemma_components_in_groups(points, edges, groups, k - 1, j, b);
        }
        if before[i] == before[j] {
            lemma_components_in_groups(points, edges, groups, k - 1, i, j);
        }
    }
}

proof fn lemma_components_len(edges: Seq<(usize, usize)>, n: nat, k: int)
    ensures
        components(edges, n, k).len() == n,
    decreases k,
{
    if k > 0 {
        lemma_components_len(edges, n, k - 1);
    }
}

/// Points that a spanning tree connects do not fall into groups that no
/// wire can join.
pub proof fn lemma_tree_connects(points: Seq<(int, int)>, edges: Seq<(usize, usize)>)
    requires
        spanning_tree(points, edges),
    ensures
        !unreachable(points),
{
    if unreachable(points) {
        let groups = choose|groups: Seq<int>| split_by(points, groups);
        let (i, j) = choose|i: int, j: int|
            0 <= i < points.len() && 0 <= j < points.len() && groups[i] != groups[j];
        lemma_components_in_groups(points, edges, groups, edges.len() as int, i, j);
    }
}

/// Connects the points by wires, each between two points within reach.
///
/// Every pair of points is tried in turn, a pair being wired where nothing
/// connects it yet, until all points are connected or a whole round wires
/// nothing. Returns the wired pairs, which form a spanning tree; `None`
/// where the points fall into groups that no wire can join.
pub fn span_net(points: &Vec<(i64, i64)>) -> (r: Option<Vec<(usize, usize)>>)
    requires
        points@.len() <= u32::MAX,
    ensures
        r is Some ==> wired(points_of(points@)) == Some(r->Some_0@),
        r is None ==> wired(points_of(points@)) is None,
        r is None <==> unreachable(points_of(points@)),
        r is Some ==> spanning_tree(points_of(points@), r->Some_0@),
{
    let n = points.len();
    let ghost pts = points_of(points@);
    let mut edges: Vec<(usize, usize)> = Vec::new();
    if n == 0 {
        proof {
            lemma_tree_connects(pts, edges@);
            assert(components(edges@, 0, 0).len() == 0);
        }
        return Some(edges);
    }
    let mut sets = DisjointSet::new(n);
    assert(components(edges@, n as nat, 0) =~= Seq::new(n as nat, |j: int| j));
    let ghost mut rounds: nat = n as nat;
    proof {
        sets.lemma_count_bound(n as int);
    }
    loop
        invariant
            n == points@.len(),
            pts == points_of(points@),
            routed(pts, sets, edges@),
            wired_from(pts, edges@, rounds) == wired(pts),
            rounds >= sets.spec_count_sets(),
        decreases sets.spec_count_sets(),
    {
        let ghost count_before = sets.spec_count_sets();
        let ghost start = edges@;
        let mut any_linked = false;
        let mut id_a: usize = 0;
        while id_a < n
            invariant
                id_a <= n,
                n == points@.len(),
                pts == points_of(points@),
                routed(pts, sets, edges@),
                edges@ == round_upto(pts, start, id_a as int),
                !any_linked ==> edges@.len() == start.len(),
                any_linked ==> edges@.len() > start.len(),
                !any_linked ==> sets.spec_count_sets() == count_before,
                any_linked ==> sets.spec_count_sets() < count_before,
                !any_linked ==> forall|a: int|
                    0 <= a < id_a ==> #[trigger] no_wire_from(pts, sets, a, n as int),
            decreases n - id_a,
        {
            let ghost before = sets;
            if wire_from(points, &mut sets, &mut edges, id_a) {
                any_linked = true;
            } else {
                proof {
                    assert forall|a: int| 0 <= a < id_a + 1 && !any_linked implies #[trigger] no_wire_from(
                        pts,
                        sets,
                        a,
                        n as int,
                    ) by {
                        if a < id_a {
                            assert(no_wire_from(pts, before, a, n as int));
                        }
                    }
                }
            }
            id_a = id_a + 1;
        }
        let ghost last = components(edges@, n as nat, edges@.len() as int);
        if sets.count_sets() == 1 {
            proof {
                assert forall|i: int, j: int| 0 <= i < n && 0 <= j < n implies last[i]
                    == last[j] by {
                    sets.lemma_one_set(i, j);
                }
                assert(connected(last));
                lemma_tree_connects(pts, edges@);
            }
            return Some(edges);
        }
        proof {
            let (x, y) = sets.lemma_many_sets();
            assert(last[x] != last[y]);
            assert(!connected(last));
            if any_linked {
                rounds = (rounds - 1) as nat;
            }
        }
        if !any_linked {
            proof {
                let groups = Seq::new(n as nat, |j: int| sets.find(j));
                let (x, y) = sets.lemma_many_sets();
                assert(groups[x] != groups[y]);
                assert forall|i: int, j: int|
                    0 <= i < n && 0 <= j < n && within_reach(pts[i], pts[j]) implies groups[i]
                    == groups[j] by {
                    lemma_reach_symmetric(pts[i], pts[j]);
                    if i < j {
                        assert(no_wire_from(pts, sets, i, n as int));
                    } else if j < i {
                        assert(no_wire_from(pts, sets, j, n as int));
                    }
                }
                assert(split_by(pts, groups));
            }
            return None;
        }
    }
}

/// Where an entity is drawn, in half cells: a row of the grid is two cells
/// high, and a combinator that computes sits half a cell below the others.
pub open spec fn true_pos(node: Node, p: (i32, i32)) -> (int, int) {
    (
        2 * p.0,
        4 * p.1 + if node.is_combinator() {
            1int
        } else {
            0int
        },
    )
}

/// Where node `id` is drawn, in half cells; `None` where it has no cell or
/// becomes no entity.
pub fn get_true_pos(nodes: &Vec<IRNode>, grid: &Grid, id: u32) -> (r: Option<(i64, i64)>)
    requires
        id < nodes@.len(),
        grid.size() == nodes@.len(),
    ensures
        r is Some == (grid.position(id as int) is Some && graph_of(nodes@)[id as int].is_entity()),
        r is Some ==> (r->Some_0.0 as int, r->Some_0.1 as int) == true_pos(
            graph_of(nodes@)[id as int],
            grid.position(id as int)->Some_0,
        ),
{
    match grid.node_positions[id as usize] {
        None => None,
        Some(p) => {
            let x: i64 = 2 * (p.0 as i64);
            let y: i64 = 4 * (p.1 as i64);
            match &nodes[id as usize] {
                IRNode::BinOp(_, _, _) | IRNode::BinOpSame(_, _) | IRNode::BinOpCmpGate(
                    _,
                    _,
                    _,
                    _,
                ) => Some((x, y + 1)),
                IRNode::Input(_) | IRNode::Output(_, _) | IRNode::Constant(_) => Some((x, y)),
                _ => None,
            }
        },
    }
}

/// Where the ends of a net are drawn.
pub open spec fn net_points(net: NetView, g: Seq<Node>, grid: &Grid) -> Seq<(int, int)> {
    Seq::new(
        net.ends.len(),
        |j: int|
            true_pos(g[net.ends[j].0 as int], grid.position(net.ends[j].0 as int)->Some_0),
    )
}

/// The wires of a net along the given pairs of its ends.
pub open spec fn net_links(net: NetView, edges: Seq<(usize, usize)>) -> Seq<WireLink> {
    Seq::new(
        edges.len(),
        |k: int|
            WireLink {
                color: net.color,
                a: net.ends[edges[k].0 as int],
                b: net.ends[edges[k].1 as int],
            },
    )
}

/// Every end of the net is a node of the graph that becomes an entity.
pub open spec fn net_wf(net: NetView, g: Seq<Node>) -> bool {
    forall|j: int|
        0 <= j < net.ends.len() ==> (#[trigger] net.ends[j]).0 < g.len() && g[net.ends[j].0 as int].is_entity()
}

/// The wire joins two placed entities that are within reach of each other.
pub open spec fn link_in_reach(link: WireLink, g: Seq<Node>, grid: &Grid) -> bool {
    &&& link.a.0 < g.len()
    &&& link.b.0 < g.len()
    &&& g[link.a.0 as int].is_entity()
    &&& g[link.b.0 as int].is_entity()
    &&& grid.position(link.a.0 as int) is Some
    &&& grid.position(link.b.0 as int) is Some
    &&& within_reach(
        true_pos(g[link.a.0 as int], grid.position(link.a.0 as int)->Some_0),
        true_pos(g[link.b.0 as int], grid.position(link.b.0 as int)->Some_0),
    )
}

/// Every wire joins two placed entities within reach of each other.
pub open spec fn links_in_reach(links: Seq<WireLink>, g: Seq<Node>, grid: &Grid) -> bool {
    forall|k: int| 0 <= k < links.len() ==> link_in_reach(#[trigger] links[k], g, grid)
}

/// The wires of a net: one along each of the edges that wire up the points
/// where its ends are drawn. `None` where those cannot be connected.
pub open spec fn net_wires(net: NetView, g: Seq<Node>, grid: &Grid) -> Option<Seq<WireLink>> {
    match wired(net_points(net, g, grid)) {
        Some(edges) => Some(net_links(net, edges)),
        None => None,
    }
}

impl WireNet {
    /// Wires up the net: appends to `out` the wires of the net, which form a
    /// spanning tree of its ends, each wire within reach. `false`, with
    /// `out` as it was, where the ends fall into groups that no wire can
    /// join.
    pub fn to_links(&self, nodes: &Vec<IRNode>, grid: &Grid, out: &mut Vec<WireLink>) -> (r: bool)
        requires
            placed(graph_of(nodes@), grid),
            net_wf(self@, graph_of(nodes@)),
            self.connections@.len() <= u32::MAX,
        ensures
            r == (net_wires(self@, graph_of(nodes@), grid) is Some),
            r ==> final(out)@ == old(out)@ + net_wires(self@, graph_of(nodes@), grid)->Some_0,
            r ==> spanning_tree(
                net_points(self@, graph_of(nodes@), grid),
                wired(net_points(self@, graph_of(nodes@), grid))->Some_0,
            ),
            r ==> forall|k: int|
                old(out)@.len() <= k < final(out)@.len() ==> link_in_reach(
                    #[trigger] final(out)@[k],
                    graph_of(nodes@),
                    grid,
                ),
            r == !unreachable(net_points(self@, graph_of(nodes@), grid)),
            !r ==> final(out)@ == old(out)@,
    {
        let ghost g = graph_of(nodes@);
        let ghost pts = net_points(self@, g, grid);
        let n = self.connections.len();
        let mut points: Vec<(i64, i64)> = Vec::with_capacity(n);
        let mut j: usize = 0;
        while j < n
            invariant
                j <= n,
                n == self.connections@.len(),
                placed(g, grid),
                g == graph_of(nodes@),
                net_wf(self@, g),
                pts == net_points(self@, g, grid),
                points@.len() == j,
                forall|q: int|
                    0 <= q < j ==> (#[trigger] points@[q].0 as int, points@[q].1 as int) == pts[q],
            decreases n - j,
        {
            let id = self.connections[j].0;
            assert(self@.ends[j as int].0 == id);
            match get_true_pos(nodes, grid, id) {
                Some(p) => points.push(p),
                None => {
                    assert(false);
                },
            }
            j = j + 1;
        }
        assert(points_of(points@) =~= pts);
        match span_net(&points) {
            None => false,
            Some(edges) => {
                let ghost before = out@;
                let mut k: usize = 0;
                while k < edges.len()
                    invariant
                        k <= edges.len(),
                        n == self.connections@.len(),
                        placed(g, grid),
                        net_wf(self@, g),
                        pts == net_points(self@, g, grid),
                        pts.len() == n,
                        spanning_tree(pts, edges@),
                        out@ == before + net_links(self@, edges@.subrange(0, k as int)),
                        forall|q: int|
                            before.len() <= q < out@.len() ==> link_in_reach(
                                #[trigger] out@[q],
                                g,
                                grid,
                            ),
                    decreases edges.len() - k,
                {
                    let e = edges[k];
                    assert(edges@[k as int] == e);
                    let link = WireLink {
                        color: self.color,
                        a: self.connections[e.0],
                        b: self.connections[e.1],
                    };
                    proof {
                        assert(self@.ends[e.0 as int].0 < g.len());
                        assert(self@.ends[e.1 as int].0 < g.len());
                        assert(pts[e.0 as int] == true_pos(
                            g[link.a.0 as int],
                            grid.position(link.a.0 as int)->Some_0,
                        ));
                        assert(pts[e.1 as int] == true_pos(
                            g[link.b.0 as int],
                            grid.position(link.b.0 as int)->Some_0,
                        ));
                        assert(link_in_reach(link, g, grid));
                    }
                    let ghost sofar = out@;
                    out.push(link);
                    proof {
                        assert(edges@.subrange(0, k + 1) =~= edges@.subrange(0, k as int).push(e));
                        assert(out@ =~= before + net_links(self@, edges@.subrange(0, k + 1)));
                        assert forall|q: int| before.len() <= q < out@.len() implies link_in_reach(
                            #[trigger] out@[q],
                            g,
                            grid,
                        ) by {
                            if q < sofar.len() {
                                assert(out@[q] == sofar[q]);
                            }
                        }
                    }
                    k = k + 1;
                }
                assert(edges@.subrange(0, edges@.len() as int) =~= edges@);
                true
            },
        }
    }
}

/// The wires of the first `k` nets, net after net; a net that cannot be
/// wired has none.
pub open spec fn wires_upto(nets: Seq<NetView>, g: Seq<Node>, grid: &Grid, k: int) -> Seq<WireLink>
    decreases k,
{
    if k <= 0 {
        seq![]
    } else {
        match net_wires(nets[k - 1], g, grid) {
            Some(wires) => wires_upto(nets, g, grid, k - 1) + wires,
            None => wires_upto(nets, g, grid, k - 1),
        }
    }
}

/// Those of the first `k` nets named in `list` that cannot be wired, in the
/// order of the list.
pub open spec fn unwired_upto(
    list: Seq<u32>,
    nets: Seq<NetView>,
    g: Seq<Node>,
    grid: &Grid,
    k: int,
) -> Seq<u32>
    decreases k,
{
    if k <= 0 {
        seq![]
    } else {
        let before = unwired_upto(list, nets, g, grid, k - 1);
        if net_wires(nets[list[k - 1] as int], g, grid) is None {
            before.push(list[k - 1])
        } else {
            before
        }
    }
}

/// The numbers of `n` nets in turn.
pub open spec fn all_nets(n: nat) -> Seq<u32> {
    Seq::new(n, |i: int| i as u32)
}

/// What wiring up the nets gives: the nets of `priority` that cannot be
/// wired, where there are any; else all nets that cannot be wired, where
/// there are any; else the wires of all nets.
pub open spec fn routed_links(nets: Seq<NetView>, g: Seq<Node>, grid: &Grid, priority: Seq<u32>) -> Result<
    Seq<WireLink>,
    Seq<u32>,
> {
    let first = unwired_upto(priority, nets, g, grid, priority.len() as int);
    let all = unwired_upto(all_nets(nets.len()), nets, g, grid, nets.len() as int);
    if first.len() > 0 {
        Err(first)
    } else if all.len() > 0 {
        Err(all)
    } else {
        Ok(wires_upto(nets, g, grid, nets.len() as int))
    }
}

/// The wires are those of all nets in turn, and those of each net form a
/// spanning tree of its ends.
pub open spec fn routed_all(nets: Seq<NetView>, g: Seq<Node>, grid: &Grid, links: Seq<WireLink>) -> bool {
    &&& forall|i: int|
        0 <= i < nets.len() ==> {
            let pts = net_points(#[trigger] nets[i], g, grid);
            wired(pts) is Some && spanning_tree(pts, wired(pts)->Some_0)
        }
    &&& links == wires_upto(nets, g, grid, nets.len() as int)
}

/// The ends of every net can be connected by wires.
pub open spec fn all_reachable(nets: Seq<NetView>, g: Seq<Node>, grid: &Grid) -> bool {
    forall|i: int| 0 <= i < nets.len() ==> !unreachable(net_points(#[trigger] nets[i], g, grid))
}

/// The registry is small enough to route: nets and the ends of each net can
/// be counted in 32 bits.
pub open spec fn routable(reg: RegView) -> bool {
    &&& reg.nets.len() <= u32::MAX
    &&& forall|i: int| 0 <= i < reg.nets.len() ==> (#[trigger] reg.nets[i]).ends.len() <= u32::MAX
}

impl NetRegistry {
    /// Wires up all nets. The nets of `priority_check_list` are tried first;
    /// where one of them cannot be wired, those that cannot are returned.
    /// Else all nets are wired; the result is their wires, or the nets that
    /// cannot be wired.
    pub fn to_links(&self, nodes: &Vec<IRNode>, grid: &Grid, priority_check_list: &Vec<u32>) -> (r:
        Result<Vec<WireLink>, Vec<u32>>)
        requires
            placed(graph_of(nodes@), grid),
            registry_wf(self@, graph_of(nodes@)),
            routable(self@),
            forall|k: int|
                0 <= k < priority_check_list@.len() ==> #[trigger] priority_check_list@[k]
                    < self@.nets.len(),
        ensures
            r is Ok ==> routed_links(self@.nets, graph_of(nodes@), grid, priority_check_list@)
                == Ok::<Seq<WireLink>, Seq<u32>>(r->Ok_0@),
            r is Err ==> routed_links(self@.nets, graph_of(nodes@), grid, priority_check_list@)
                == Err::<Seq<WireLink>, Seq<u32>>(r->Err_0@),
            r is Ok <==> all_reachable(self@.nets, graph_of(nodes@), grid),
            r is Ok ==> links_in_reach(r->Ok_0@, graph_of(nodes@), grid),
            r is Ok ==> routed_all(self@.nets, graph_of(nodes@), grid, r->Ok_0@),
            r is Err ==> r->Err_0@.len() > 0,
            r is Err ==> forall|k: int|
                0 <= k < r->Err_0@.len() ==> #[trigger] r->Err_0@[k] < self@.nets.len()
                    && unreachable(
                    net_points(self@.nets[r->Err_0@[k] as int], graph_of(nodes@), grid),
                ),
    {
        let ghost g = graph_of(nodes@);
        let ghost nets = self@.nets;
        let mut failed: Vec<u32> = Vec::new();
        let mut out: Vec<WireLink> = Vec::new();
        let mut p: usize = 0;
        while p < priority_check_list.len()
            invariant
                p <= priority_check_list@.len(),
                g == graph_of(nodes@),
                nets == self@.nets,
                placed(g, grid),
                registry_wf(self@, g),
                routable(self@),
                forall|k: int|
                    0 <= k < priority_check_list@.len() ==> #[trigger] priority_check_list@[k]
                        < self@.nets.len(),
                failed@ == unwired_upto(priority_check_list@, nets, g, grid, p as int),
                forall|k: int|
                    0 <= k < failed@.len() ==> #[trigger] failed@[k] < nets.len() && unreachable(
                        net_points(nets[failed@[k] as int], g, grid),
                    ),
            decreases priority_check_list@.len() - p,
        {
            let i = priority_check_list[p];
            let net = &self.list[i as usize];
            assert(net@ == nets[i as int]);
            assert(net_wf(net@, g)) by {
                assert forall|j: int| 0 <= j < net@.ends.len() implies (#[trigger] net@.ends[j]).0
                    < g.len() && g[net@.ends[j].0 as int].is_entity() by {
                    assert(nets[i as int].ends[j] == net@.ends[j]);
                }
            }
            if !net.to_links(nodes, grid, &mut out) {
                failed.push(i);
            }
            p = p + 1;
        }
        if failed.len() > 0 {
            assert(unreachable(net_points(nets[failed@[0] as int], g, grid)));
            return Err(failed);
        }
        out.clear();
        let ghost all = all_nets(nets.len());
        let mut i: usize = 0;
        while i < self.list.len()
            invariant
                i <= self.list@.len(),
                g == graph_of(nodes@),
                nets == self@.nets,
                nets.len() == self.list@.len(),
                all == all_nets(nets.len()),
                placed(g, grid),
                registry_wf(self@, g),
                routable(self@),
                unwired_upto(
                    priority_check_list@,
                    nets,
                    g,
                    grid,
                    priority_check_list@.len() as int,
                ).len() == 0,
                failed@ == unwired_upto(all, nets, g, grid, i as int),
                forall|k: int|
                    0 <= k < failed@.len() ==> #[trigger] failed@[k] < nets.len() && unreachable(
                        net_points(nets[failed@[k] as int], g, grid),
                    ),
                out@ == wires_upto(nets, g, grid, i as int),
                links_in_reach(out@, g, grid),
                failed@.len() == 0 ==> forall|q: int|
                    0 <= q < i ==> {
                        let pts = net_points(#[trigger] nets[q], g, grid);
                        &&& !unreachable(pts)
                        &&& wired(pts) is Some
                        &&& spanning_tree(pts, wired(pts)->Some_0)
                    },
            decreases self.list@.len() - i,
        {
            let net = &self.list[i];
            assert(net@ == nets[i as int]);
            assert(all[i as int] == i as u32);
            assert(net_wf(net@, g)) by {
                assert forall|j: int| 0 <= j < net@.ends.len() implies (#[trigger] net@.ends[j]).0
                    < g.len() && g[net@.ends[j].0 as int].is_entity() by {
                    assert(nets[i as int].ends[j] == net@.ends[j]);
                }
            }
            let ghost before = out@;
            if !net.to_links(nodes, grid, &mut out) {
                failed.push(i as u32);
            } else {
                proof {
                    assert(links_in_reach(out@, g, grid)) by {
                        assert forall|k: int| 0 <= k < out@.len() implies link_in_reach(
                            #[trigger] out@[k],
                            g,
                            grid,
                        ) by {
                            if k < before.len() {
                                assert(out@[k] == before[k]);
                            }
                        }
                    }
                }
            }
            i = i + 1;
        }
        if failed.len() > 0 {
            assert(unreachable(net_points(nets[failed@[0] as int], g, grid)));
            return Err(failed);
        }
        assert(routed_all(self@.nets, graph_of(nodes@), grid, out@));
        return Ok(out);
    }
}

/// `s / n` rounded to the nearest integer, halves away from zero.
pub open spec fn round_div(s: int, n: int) -> int
    recommends
        n > 0,
{
    if s >= 0 {
        (2 * s + n) / (2 * n)
    } else {
        -((n - 2 * s) / (2 * n))
    }
}

/// The point `permille` thousandths of the way from `start` to `end`, each
/// coordinate rounded to the nearest cell.
pub open spec fn lerp(start: (i32, i32), end: (i32, i32), permille: int) -> (int, int) {
    (
        start.0 + round_div((end.0 - start.0) * permille, 1000),
        start.1 + round_div((end.1 - start.1) * permille, 1000),
    )
}

/// The sum of the first coordinates of the cells of the first `k` ends.
pub open spec fn sum_x(ends: Seq<(u32, ConnectType)>, grid: &Grid, k: int) -> int
    decreases k,
{
    if k <= 0 {
        0
    } else {
        sum_x(ends, grid, k - 1) + grid.position(ends[k - 1].0 as int)->Some_0.0
    }
}

/// The sum of the second coordinates of the cells of the first `k` ends.
pub open spec fn sum_y(ends: Seq<(u32, ConnectType)>, grid: &Grid, k: int) -> int
    decreases k,
{
    if k <= 0 {
        0
    } else {
        sum_y(ends, grid, k - 1) + grid.position(ends[k - 1].0 as int)->Some_0.1
    }
}

/// The cell nearest to the mean of the cells of the net's ends.
pub open spec fn centroid(net: NetView, grid: &Grid) -> (int, int) {
    (
        round_div(sum_x(net.ends, grid, net.ends.len() as int), net.ends.len() as int),
        round_div(sum_y(net.ends, grid, net.ends.len() as int), net.ends.len() as int),
    )
}

/// Whether a node may be moved on the grid: inputs and outputs may not.
pub open spec fn movable(node: Node) -> bool {
    !(node is Input || node is Output)
}

/// A part of a distance is no longer than the distance, and points the same
/// way.
proof fn lemma_round_scaled(d: int, f: int)
    requires
        0 <= f <= 1000,
    ensures
        d >= 0 ==> 0 <= round_div(d * f, 1000) <= d,
        d <= 0 ==> d <= round_div(d * f, 1000) <= 0,
{
    if d >= 0 {
        assert(0 <= d * f <= 1000 * d) by (nonlinear_arith)
            requires
                d >= 0,
                0 <= f <= 1000,
        ;
    } else {
        assert(1000 * d <= d * f <= 0) by (nonlinear_arith)
            requires
                d < 0,
                0 <= f <= 1000,
        ;
        let v = d * f;
        if v < 0 {
            let q = (1000 - 2 * v) / 2000;
            assert(1000 - 2 * v <= 1000 - 2000 * d);
            assert((1000 - 2000 * d) / 2000 == -d);
            assert(0 <= q <= -d);
        }
    }
}

/// A mean of numbers of 32 bits, rounded, is a number of 32 bits.
proof fn lemma_round_mean(s: int, n: int)
    requires
        n > 0,
        n * i32::MIN <= s <= n * i32::MAX,
    ensures
        i32::MIN <= round_div(s, n) <= i32::MAX,
{
    if s >= 0 {
        let q = (2 * s + n) / (2 * n);
        assert(q <= i32::MAX) by (nonlinear_arith)
            requires
                n > 0,
                0 <= s <= n * 0x7fff_ffff,
                q == (2 * s + n) / (2 * n),
        ;
        assert(q >= 0) by (nonlinear_arith)
            requires
                n > 0,
                0 <= s,
                q == (2 * s + n) / (2 * n),
        ;
    } else {
        let q = (n - 2 * s) / (2 * n);
        assert(q <= 0x8000_0000) by (nonlinear_arith)
            requires
                n > 0,
                n * (-0x8000_0000) <= s < 0,
                q == (n - 2 * s) / (2 * n),
        ;
        assert(q >= 0) by (nonlinear_arith)
            requires
                n > 0,
                s < 0,
                q == (n - 2 * s) / (2 * n),
        ;
    }
}

fn round_div_of(s: i128, n: i128) -> (r: i128)
    requires
        n > 0,
        n <= 0x1_0000_0000_0000,
        -0x1_0000_0000_0000_0000_0000 <= s <= 0x1_0000_0000_0000_0000_0000,
    ensures
        r == round_div(s as int, n as int),
{
    if s >= 0 {
        (2 * s + n) / (2 * n)
    } else {
        -((n - 2 * s) / (2 * n))
    }
}

/// The point `permille` thousandths of the way from `start` to `end`.
pub fn lerp_pos(start: (i32, i32), end: (i32, i32), permille: u32) -> (r: (i32, i32))
    requires
        permille <= 1000,
    ensures
        (r.0 as int, r.1 as int) == lerp(start, end, permille as int),
{
    let dx: i128 = end.0 as i128 - start.0 as i128;
    let dy: i128 = end.1 as i128 - start.1 as i128;
    let f: i128 = permille as i128;
    proof {
        lemma_round_scaled(dx as int, f as int);
        lemma_round_scaled(dy as int, f as int);
        assert(-0x1_0000_0000 * 1000 <= dx * f <= 0x1_0000_0000 * 1000) by (nonlinear_arith)
            requires
                -0x1_0000_0000 <= dx <= 0x1_0000_0000,
                0 <= f <= 1000,
        ;
        assert(-0x1_0000_0000 * 1000 <= dy * f <= 0x1_0000_0000 * 1000) by (nonlinear_arith)
            requires
                -0x1_0000_0000 <= dy <= 0x1_0000_0000,
                0 <= f <= 1000,
        ;
    }
    let x = start.0 as i128 + round_div_of(dx * f, 1000);
    let y = start.1 as i128 + round_div_of(dy * f, 1000);
    (x as i32, y as i32)
}

/// The least part of the way to the centroid, in thousandths, that a
/// repair moves a node.
pub const MIN_FRACTION: u32 = 100;

/// The greatest such part.
pub const MAX_FRACTION: u32 = 900;

/// How often a layout is repaired before it is given up.
pub const MAX_PASSES: u32 = 10000;

/// `rand::rngs::StdRng`: the generator that the repair of a layout draws
/// from. Nothing is known of its state.
#[verifier::external_type_specification]
#[verifier::external_body]
pub struct ExStdRng(rand::rngs::StdRng);

/// `SeedableRng::seed_from_u64` of the `rand` crate, for its `StdRng`: a
/// generator made from a seed. Nothing is claimed of it.
#[verifier::external_body]
fn seeded_rng(seed: u64) -> rand::rngs::StdRng {
    rand::SeedableRng::seed_from_u64(seed)
}

/// `Rng::gen_range` of the `rand` crate on the inclusive range from `low` to
/// `high`: the number drawn lies in the range. Which one it is, is not
/// claimed.
#[verifier::external_body]
fn draw_between(rng: &mut rand::rngs::StdRng, low: u32, high: u32) -> (r: u32)
    requires
        low <= high,
    ensures
        low <= r <= high,
{
    rand::Rng::gen_range(rng, low..=high)
}

/// Whether node `id` may be moved on the grid.
pub fn can_move(nodes: &Vec<IRNode>, id: u32) -> (r: bool)
    requires
        id < nodes@.len(),
    ensures
        r == movable(graph_of(nodes@)[id as int]),
{
    match &nodes[id as usize] {
        IRNode::Input(_) | IRNode::Output(_, _) => false,
        _ => true,
    }
}

/// The grids hold the same nodes in place, and `after` differs from `before`
/// at most in where movable nodes sit.
pub open spec fn rearranged(g: Seq<Node>, before: &Grid, after: &Grid) -> bool {
    &&& after.approx_w == before.approx_w
    &&& forall|i: int|
        0 <= i < g.len() && !movable(#[trigger] g[i]) ==> after.position(i) == before.position(i)
}

/// The cells after node `id` was moved `permille` thousandths of the way
/// towards `mid`.
///
/// The cells stay as they are where the node sits on `mid` already, where
/// the cell it would move to is `mid` or reserved, or where that cell holds
/// a node that may not be moved. Else the node takes the cell, and a node
/// that sat there takes the cell that `id` came from.
pub open spec fn nudged(
    g: Seq<Node>,
    cells: Seq<Option<(i32, i32)>>,
    id: int,
    mid: (i32, i32),
    permille: int,
) -> Seq<Option<(i32, i32)>> {
    let base = cells[id]->Some_0;
    let to = lerp(base, mid, permille);
    let target = (to.0 as i32, to.1 as i32);
    let held = holder(cells, target);
    if base == mid || target == mid || is_reserved(target) || (held is Some && !movable(
        g[held->Some_0],
    )) {
        cells
    } else if held is Some {
        cells.update(held->Some_0, Some(base)).update(id, Some(target))
    } else {
        cells.update(id, Some(target))
    }
}

/// Moves node `id` `permille` thousandths of the way towards `mid`.
///
/// The grid stays as it is where the node sits on `mid` already, where the
/// cell it would move to is `mid` or reserved, or where that cell holds a
/// node that may not be moved. Else the node takes the cell, and a node
/// that sat there takes the cell that `id` came from.
pub fn nudge(grid: &mut Grid, nodes: &Vec<IRNode>, id: u32, mid: (i32, i32), permille: u32)
    requires
        placed(graph_of(nodes@), old(grid)),
        id < nodes@.len(),
        graph_of(nodes@)[id as int].is_entity(),
        movable(graph_of(nodes@)[id as int]),
        permille <= 1000,
    ensures
        placed(graph_of(nodes@), final(grid)),
        rearranged(graph_of(nodes@), old(grid), final(grid)),
        final(grid).node_positions@ =~= nudged(
            graph_of(nodes@),
            old(grid).node_positions@,
            id as int,
            mid,
            permille as int,
        ),
        ({
            let g = graph_of(nodes@);
            let base = old(grid).position(id as int)->Some_0;
            let to = lerp(base, mid, permille as int);
            let target = (to.0 as i32, to.1 as i32);
            let held = old(grid).occupant(target);
            let stays = base == mid || target == mid || is_reserved(target) || (held is Some
                && !movable(g[held->Some_0 as int]));
            if stays {
                forall|i: int| 0 <= i < g.len() ==> final(grid).position(i) == old(grid).position(i)
            } else {
                &&& final(grid).position(id as int) == Some(target)
                &&& held is Some && held->Some_0 != id ==> final(grid).position(
                    held->Some_0 as int,
                ) == Some(base)
                &&& forall|i: int|
                    0 <= i < g.len() && i != id && held != Some(i as u32) ==> final(grid).position(
                        i,
                    ) == old(grid).position(i)
            }
        }),
{
    let ghost g = graph_of(nodes@);
    let base = grid.get_pos_for(id);
    proof {
        let to = lerp(base, mid, permille as int);
        grid.lemma_holder((#[verifier::truncate] (to.0 as i32), #[verifier::truncate] (to.1 as i32)));
    }
    if base.0 == mid.0 && base.1 == mid.1 {
        return ;
    }
    let target = lerp_pos(base, mid, permille);
    if target.0 == mid.0 && target.1 == mid.1 {
        return ;
    }
    if grid.is_cell_reserved(target) {
        return ;
    }
    let held = grid.get_id_at(target);
    if let Some(other) = held {
        assert(grid.cell_map@.contains_key(crate::ir::placement::cell_key(target)));
        if !can_move(nodes, other) {
            return ;
        }
        if other == id {
            assert(grid.position(id as int) == Some(target));
            return ;
        }
        assert(g[other as int].is_entity());
        assert(!is_reserved(base));
        grid.set(base, other);
    }
    let ghost between = *grid;
    grid.set(target, id);
    proof {
        let cells = old(grid).node_positions@;
        let after = nudged(g, cells, id as int, mid, permille as int);
        assert forall|i: int| 0 <= i < g.len() implies grid.node_positions@[i] == after[i] by {
            assert(between.position(i) == between.node_positions@[i]);
            assert(grid.position(i) == grid.node_positions@[i]);
            assert(old(grid).position(i) == cells[i]);
            if old(grid).position(i) == Some(target) {
                old(grid).lemma_cells(i, id as int);
            }
            if old(grid).position(i) == Some(base) {
                old(grid).lemma_cells(id as int, i);
            }
        }
    }
}

/// The cell nearest to the mean of the cells of the net's ends.
pub open spec fn mid_cell(net: NetView, grid: &Grid) -> (i32, i32) {
    let c = centroid(net, grid);
    (c.0 as i32, c.1 as i32)
}

/// The cells after the first `k` ends were moved in turn towards `mid`, end
/// `j` by `parts[j]` thousandths of the way. An end that may not be moved
/// stays where it is.
pub open spec fn corrected_upto(
    g: Seq<Node>,
    cells: Seq<Option<(i32, i32)>>,
    ends: Seq<(u32, ConnectType)>,
    mid: (i32, i32),
    parts: Seq<int>,
    k: int,
) -> Seq<Option<(i32, i32)>>
    decreases k,
{
    if k <= 0 {
        cells
    } else {
        let before = corrected_upto(g, cells, ends, mid, parts, k - 1);
        let id = ends[k - 1].0 as int;
        if movable(g[id]) {
            nudged(g, before, id, mid, parts[k - 1])
        } else {
            before
        }
    }
}

/// Each part lies between the least and the greatest part of the way that a
/// repair moves a node.
pub open spec fn parts_in_range(parts: Seq<int>) -> bool {
    forall|j: int| 0 <= j < parts.len() ==> MIN_FRACTION <= #[trigger] parts[j] <= MAX_FRACTION
}

/// One more part leaves the cells after the ends before it as they were.
proof fn lemma_corrected_prefix(
    g: Seq<Node>,
    cells: Seq<Option<(i32, i32)>>,
    ends: Seq<(u32, ConnectType)>,
    mid: (i32, i32),
    parts: Seq<int>,
    part: int,
    k: int,
)
    requires
        0 <= k <= parts.len(),
    ensures
        corrected_upto(g, cells, ends, mid, parts.push(part), k) == corrected_upto(
            g,
            cells,
            ends,
            mid,
            parts,
            k,
        ),
    decreases k,
{
    if k > 0 {
        lemma_corrected_prefix(g, cells, ends, mid, parts, part, k - 1);
        assert(parts.push(part)[k - 1] == parts[k - 1]);
    }
}

impl WireNet {
    /// The cell nearest to the mean of the cells of the net's ends.
    fn mid_pos(&self, nodes: &Vec<IRNode>, grid: &Grid) -> (r: (i32, i32))
        requires
            placed(graph_of(nodes@), grid),
            net_wf(self@, graph_of(nodes@)),
            0 < self.connections@.len() <= u32::MAX,
        ensures
            (r.0 as int, r.1 as int) == centroid(self@, grid),
    {
        let ghost g = graph_of(nodes@);
        let n = self.connections.len();
        let mut x_sum: i128 = 0;
        let mut y_sum: i128 = 0;
        let mut j: usize = 0;
        while j < n
            invariant
                j <= n,
                n == self.connections@.len(),
                n <= u32::MAX,
                g == graph_of(nodes@),
                placed(g, grid),
                net_wf(self@, g),
                x_sum == sum_x(self@.ends, grid, j as int),
                y_sum == sum_y(self@.ends, grid, j as int),
                j * i32::MIN <= x_sum <= j * i32::MAX,
                j * i32::MIN <= y_sum <= j * i32::MAX,
            decreases n - j,
        {
            let id = self.connections[j].0;
            assert(self@.ends[j as int].0 == id);
            let pos = grid.get_pos_for(id);
            x_sum = x_sum + pos.0 as i128;
            y_sum = y_sum + pos.1 as i128;
            j = j + 1;
        }
        proof {
            lemma_round_mean(x_sum as int, n as int);
            lemma_round_mean(y_sum as int, n as int);
        }
        let x = round_div_of(x_sum, n as i128);
        let y = round_div_of(y_sum, n as i128);
        (x as i32, y as i32)
    }

    /// Moves each movable end of the net a random part of the way, between a
    /// tenth and nine tenths, towards the centroid of the net. Every entity
    /// keeps a cell, and inputs and outputs keep theirs.
    ///
    /// The ends are moved in turn, each towards the centroid that the net
    /// had before the first move. Which part of the way an end goes is
    /// drawn from `rng` and not known beforehand; the cells are those that
    /// some parts within the range give. An end that sits on the centroid
    /// when its turn comes stays, and no part is drawn for it.
    pub fn correct(&self, nodes: &Vec<IRNode>, grid: &mut Grid, rng: &mut rand::rngs::StdRng)
        requires
            placed(graph_of(nodes@), old(grid)),
            net_wf(self@, graph_of(nodes@)),
            self.connections@.len() <= u32::MAX,
        ensures
            placed(graph_of(nodes@), final(grid)),
            rearranged(graph_of(nodes@), old(grid), final(grid)),
            exists|parts: Seq<int>|
                {
                    &&& parts.len() == self@.ends.len()
                    &&& parts_in_range(parts)
                    &&& final(grid).node_positions@ == #[trigger] corrected_upto(
                        graph_of(nodes@),
                        old(grid).node_positions@,
                        self@.ends,
                        mid_cell(self@, old(grid)),
                        parts,
                        self@.ends.len() as int,
                    )
                },
    {
        let ghost g = graph_of(nodes@);
        let ghost cells = grid.node_positions@;
        let ghost mut parts: Seq<int> = seq![];
        let n = self.connections.len();
        if n == 0 {
            assert(parts_in_range(parts));
            assert(grid.node_positions@ == corrected_upto(
                g,
                cells,
                self@.ends,
                mid_cell(self@, old(grid)),
                parts,
                0,
            ));
            return ;
        }
        let mid = self.mid_pos(nodes, grid);
        assert(mid == mid_cell(self@, old(grid)));
        let mut j: usize = 0;
        while j < n
            invariant
                j <= n,
                n == self.connections@.len(),
                g == graph_of(nodes@),
                placed(g, grid),
                net_wf(self@, g),
                rearranged(g, old(grid), grid),
                parts.len() == j,
                parts_in_range(parts),
                grid.node_positions@ == corrected_upto(g, cells, self@.ends, mid, parts, j as int),
            decreases n - j,
        {
            let id = self.connections[j].0;
            assert(self@.ends[j as int].0 == id);
            let ghost before = grid.node_positions@;
            let ghost drawn = parts;
            let ghost mut part: int = MIN_FRACTION as int;
            if can_move(nodes, id) {
                let base = grid.get_pos_for(id);
                if !(base.0 == mid.0 && base.1 == mid.1) {
                    let fraction = draw_between(rng, MIN_FRACTION, MAX_FRACTION);
                    nudge(grid, nodes, id, mid, fraction);
                    proof {
                        part = fraction as int;
                    }
                }
            }
            proof {
                parts = drawn.push(part);
                lemma_corrected_prefix(g, cells, self@.ends, mid, drawn, part, j as int);
                assert(parts[j as int] == part);
                assert(grid.node_positions@ == corrected_upto(
                    g,
                    cells,
                    self@.ends,
                    mid,
                    parts,
                    j + 1,
                ));
            }
            j = j + 1;
        }
    }
}

/// Why a module cannot be laid out, whatever the seed: `EmitInvalid` where a
/// gate or an empty slot is left in its graph; else `Limit` where a node
/// finds no first cell; else the error that grouping the operands into nets
/// meets; else `Limit` where the nets are too many or too long to count.
pub open spec fn layout_error(m: &IRModule) -> Option<CompileError> {
    let g = m.graph();
    if has_unlowered(g) {
        Some(CompileError::EmitInvalid)
    } else if placement(g, m.port_count as int, row_width(g)) is None {
        Some(CompileError::Limit)
    } else if registered(g) is Err {
        Some(registered(g)->Err_0)
    } else if !routable(registered(g)->Ok_0) {
        Some(CompileError::Limit)
    } else {
        None
    }
}

/// The nets of the module can be wired with every entity on its first cell,
/// so that nothing has to be repaired.
pub open spec fn wired_at_once(m: &IRModule) -> bool {
    let g = m.graph();
    let cells = placement(g, m.port_count as int, row_width(g))->Some_0;
    forall|first: Grid|
        first.node_positions@ == cells ==> #[trigger] all_reachable(
            registered(g)->Ok_0.nets,
            g,
            &first,
        )
}

/// Whether the registry is small enough to route.
fn check_routable(networks: &NetRegistry) -> (r: bool)
    ensures
        r == routable(networks@),
{
    if networks.list.len() > u32::MAX as usize {
        return false;
    }
    let mut i: usize = 0;
    while i < networks.list.len()
        invariant
            i <= networks.list@.len(),
            networks@.nets.len() <= u32::MAX,
            forall|q: int| 0 <= q < i ==> (#[trigger] networks@.nets[q]).ends.len() <= u32::MAX,
        decreases networks.list@.len() - i,
    {
        if networks.list[i].connections.len() > u32::MAX as usize {
            assert(networks@.nets[i as int].ends.len() > u32::MAX);
            return false;
        }
        i = i + 1;
    }
    true
}

impl IRModule {
    /// Places the entities on the grid and wires them up.
    ///
    /// Every entity gets its first cell, and the operands are grouped into
    /// nets. Then the nets are wired; while some net cannot be wired, the
    /// ends of each such net are moved towards its centroid, by steps drawn
    /// from a generator seeded with `seed`, and the wiring is tried again.
    ///
    /// On success every entity has a cell, inputs and outputs in row 1, and
    /// the wires of each net form a spanning tree of its ends, each wire
    /// within reach. The result is the error of `layout_error`, where there
    /// is one. Else, where the nets can be wired on the first cells, it is
    /// `Ok` and every entity keeps its first cell. Else it depends on the
    /// steps drawn: it is `Ok`, or `Limit` where `MAX_PASSES` repairs do not
    /// suffice.
    pub fn layout_nodes(&mut self, seed: u64) -> (r: Result<(), CompileError>)
        requires
            old(self).wf(),
        ensures
            final(self).same_program(old(self)),
            final(self).out_symbols == old(self).out_symbols,
            layout_error(old(self)) is Some ==> r == Err::<(), CompileError>(
                layout_error(old(self))->Some_0,
            ),
            layout_error(old(self)) is None ==> r is Ok || r == Err::<(), CompileError>(
                CompileError::Limit,
            ),
            layout_error(old(self)) is None && wired_at_once(old(self)) ==> r is Ok && Some(
                final(self).grid.node_positions@,
            ) == placement(
                old(self).graph(),
                old(self).port_count as int,
                row_width(old(self).graph()),
            ),
            r is Ok ==> {
                let g = final(self).graph();
                &&& placed(g, &final(self).grid)
                &&& forall|i: int|
                    0 <= i < g.len() && (#[trigger] g[i] is Input || g[i] is Output)
                        ==> final(self).grid.position(i)->Some_0.1 == 1
                &&& links_in_reach(final(self).links@, g, &final(self).grid)
                &&& routed_all(registered(g)->Ok_0.nets, g, &final(self).grid, final(self).links@)
            },
    {
        let ghost g = self.graph();
        match self.place_nodes() {
            Err(e) => {
                return Err(e);
            },
            Ok(()) => {},
        }
        let networks = match register_nets(&self.nodes) {
            Err(e) => {
                return Err(e);
            },
            Ok(networks) => networks,
        };
        if !check_routable(&networks) {
            return Err(CompileError::Limit);
        }
        let mut rng = seeded_rng(seed);
        let mut priority_list: Vec<u32> = Vec::new();
        let mut passes: u32 = 0;
        let ghost first = self.grid;
        assert(layout_error(old(self)) is None);
        loop
            invariant
                passes == 0 ==> self.grid == first,
                passes > 0 ==> !wired_at_once(old(self)),
                Some(first.node_positions@) == placement(
                    g,
                    old(self).port_count as int,
                    row_width(g),
                ),
                g == old(self).graph(),
                self.same_program(old(self)),
                self.out_symbols == old(self).out_symbols,
                layout_error(old(self)) is None,
                g == self.graph(),
                !has_unlowered(g),
                registered(g) == Ok::<RegView, CompileError>(networks@),
                registry_wf(networks@, g),
                routable(networks@),
                placed(g, &self.grid),
                rearranged(g, &first, &self.grid),
                forall|i: int|
                    0 <= i < g.len() && (#[trigger] g[i] is Input || g[i] is Output)
                        ==> first.position(i)->Some_0.1 == 1,
                forall|k: int|
                    0 <= k < priority_list@.len() ==> #[trigger] priority_list@[k]
                        < networks@.nets.len(),
                passes <= MAX_PASSES,
            decreases MAX_PASSES - passes,
        {
            match networks.to_links(&self.nodes, &self.grid, &priority_list) {
                Ok(links) => {
                    proof {
                        assert forall|i: int|
                            0 <= i < g.len() && (#[trigger] g[i] is Input
                                || g[i] is Output) implies self.grid.position(i)->Some_0.1 == 1 by {
                            assert(!movable(g[i]));
                        }
                    }
                    self.links = links;
                    assert(routed_all(
                        registered(self.graph())->Ok_0.nets,
                        self.graph(),
                        &self.grid,
                        self.links@,
                    ));
                    return Ok(());
                },
                Err(bad_nets) => {
                    proof {
                        if passes == 0 {
                            assert(!all_reachable(networks@.nets, g, &first));
                        }
                    }
                    if passes == MAX_PASSES {
                        return Err(CompileError::Limit);
                    }
                    let mut k: usize = 0;
                    while k < bad_nets.len()
                        invariant
                            k <= bad_nets@.len(),
                            self.same_program(old(self)),
                            self.out_symbols == old(self).out_symbols,
                            g == self.graph(),
                            registry_wf(networks@, g),
                            routable(networks@),
                            placed(g, &self.grid),
                            rearranged(g, &first, &self.grid),
                            forall|q: int|
                                0 <= q < bad_nets@.len() ==> #[trigger] bad_nets@[q]
                                    < networks@.nets.len(),
                        decreases bad_nets@.len() - k,
                    {
                        let net = &networks.list[bad_nets[k] as usize];
                        assert(net@ == networks@.nets[bad_nets@[k as int] as int]);
                        assert(net_wf(net@, g)) by {
                            assert forall|j: int| 0 <= j < net@.ends.len() implies (
                            #[trigger] net@.ends[j]).0 < g.len() && g[net@.ends[j].0 as int].is_entity() by {
                                assert(networks@.nets[bad_nets@[k as int] as int].ends[j]
                                    == net@.ends[j]);
                            }
                        }
                        net.correct(&self.nodes, &mut self.grid, &mut rng);
                        k = k + 1;
                    }
                    priority_list = bad_nets;
                    passes = passes + 1;
                },
            }
        }
    }
}

} // verus!
