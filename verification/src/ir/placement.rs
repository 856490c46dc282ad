use vstd::prelude::*;
use std::collections::HashMap;
use crate::error::CompileError;
use crate::ir::select_symbols::has_unlowered;
use crate::ir::{graph_of, IRModule, IRNode, Node};

verus! {

broadcast use vstd::std_specs::hash::group_hash_axioms;

/// The number that a cell is filed under.
pub open spec fn cell_key(p: (i32, i32)) -> u64 {
    ((p.0 + 0x8000_0000) * 0x1_0000_0000 + (p.1 + 0x8000_0000)) as u64
}

/// Whether a cell is kept free for a power pole: the pattern repeats every
/// 18 cells across and every 9 cells down, on negative coordinates too.
pub open spec fn is_reserved(p: (i32, i32)) -> bool {
    (p.0 as int) % 18 <= 1 && (p.1 as int) % 9 == 0
}

/// `w` is the least number whose square is at least `v`.
pub open spec fn is_ceil_sqrt(w: int, v: int) -> bool {
    &&& 0 <= w
    &&& w * w >= v
    &&& (w == 0 || (w - 1) * (w - 1) < v)
}

/// The least number whose square is at least `v`.
pub open spec fn ceil_sqrt(v: int) -> int {
    choose|w: int| is_ceil_sqrt(w, v)
}

/// There is one least number whose square is at least `v`.
pub proof fn lemma_ceil_sqrt(w: int, v: int)
    requires
        is_ceil_sqrt(w, v),
    ensures
        ceil_sqrt(v) == w,
{
    let other = ceil_sqrt(v);
    assert(is_ceil_sqrt(other, v));
    if other < w {
        assert(other * other <= (w - 1) * (w - 1)) by (nonlinear_arith)
            requires
                0 <= other <= w - 1,
        ;
    } else if w < other {
        assert(w * w <= (other - 1) * (other - 1)) by (nonlinear_arith)
            requires
                0 <= w <= other - 1,
        ;
    }
}

/// Different cells are filed under different numbers.
pub proof fn lemma_cell_key_injective(p: (i32, i32), q: (i32, i32))
    ensures
        cell_key(p) == cell_key(q) ==> p == q,
{
}

fn cell_key_of(key: (i32, i32)) -> (k: u64)
    ensures
        k == cell_key(key),
{
    let hi: u64 = (key.0 as i64 + 0x8000_0000) as u64;
    let lo: u64 = (key.1 as i64 + 0x8000_0000) as u64;
    hi * 0x1_0000_0000 + lo
}

/// Whether some node sits in the cell.
pub open spec fn taken(cells: Seq<Option<(i32, i32)>>, p: (i32, i32)) -> bool {
    exists|id: int| 0 <= id < cells.len() && #[trigger] cells[id] == Some(p)
}

/// The node that sits in the cell, if one does.
pub open spec fn holder(cells: Seq<Option<(i32, i32)>>, p: (i32, i32)) -> Option<int> {
    if taken(cells, p) {
        Some(choose|id: int| 0 <= id < cells.len() && #[trigger] cells[id] == Some(p))
    } else {
        None
    }
}

/// The first cell of row `y`, from `x0` rightwards, in which no node sits.
pub open spec fn free_x(cells: Seq<Option<(i32, i32)>>, x0: int, y: i32) -> Option<i32>
    decreases i32::MAX + 1 - x0,
{
    if x0 < i32::MIN || x0 > i32::MAX {
        None
    } else if !taken(cells, (x0 as i32, y)) {
        Some(x0 as i32)
    } else {
        free_x(cells, x0 + 1, y)
    }
}

/// The cell of the next input: the first free cell of row 1 from
/// `-(port_count / 2)` rightwards.
pub open spec fn input_cell(cells: Seq<Option<(i32, i32)>>, port_count: int) -> Option<(i32, i32)> {
    match free_x(cells, -(port_count / 2), 1) {
        Some(x) => Some((x, 1i32)),
        None => None,
    }
}

/// The cell of the next output: the first free cell of row 1 right of the
/// cell that the next input would take, which stays free as a gap.
pub open spec fn output_cell(cells: Seq<Option<(i32, i32)>>, port_count: int) -> Option<
    (i32, i32),
> {
    match free_x(cells, -(port_count / 2), 1) {
        None => None,
        Some(gap) => match free_x(cells, gap + 1, 1) {
            Some(x) => Some((x, 1i32)),
            None => None,
        },
    }
}

/// The cell at step `off` of row `y`, for rows of `w` cells: odd rows run
/// rightwards from the left edge, even rows leftwards from the right edge.
pub open spec fn row_cell(w: int, y: int, off: int) -> (i32, i32) {
    (
        (if y % 2 == 1 {
            off - w / 2
        } else {
            w / 2 - off
        }) as i32,
        y as i32,
    )
}

/// The first cell, from step `off` of row `y` on, in which no node sits and
/// which is not reserved.
pub open spec fn scan_cell(cells: Seq<Option<(i32, i32)>>, w: int, y: int, off: int) -> Option<
    (i32, i32),
>
    decreases i32::MAX + 1 - y, w - off,
{
    if y < 2 || y > i32::MAX || w > i32::MAX {
        None
    } else if off < 0 || off >= w {
        scan_cell(cells, w, y + 1, 0)
    } else if !taken(cells, row_cell(w, y, off)) && !is_reserved(row_cell(w, y, off)) {
        Some(row_cell(w, y, off))
    } else {
        scan_cell(cells, w, y, off + 1)
    }
}

/// The cell of the next node that is no input or output: the first open
/// cell of rows 2, 3, ... of `w` cells each.
pub open spec fn node_cell(cells: Seq<Option<(i32, i32)>>, w: int) -> Option<(i32, i32)> {
    scan_cell(cells, w, 2, 0)
}

/// Where each node sits on the grid, and which node sits in each cell.
pub struct Grid {
    pub cell_map: HashMap<u64, u32>,
    pub node_positions: Vec<Option<(i32, i32)>>,
    pub approx_w: i32,
}

impl Grid {
    /// The number of nodes that the grid has room for.
    pub open spec fn size(&self) -> nat {
        self.node_positions@.len()
    }

    /// The cell of node `id`, if it is placed.
    pub open spec fn position(&self, id: int) -> Option<(i32, i32)> {
        self.node_positions@[id]
    }

    /// The node in cell `p`, if there is one.
    pub open spec fn occupant(&self, p: (i32, i32)) -> Option<u32> {
        if self.cell_map@.contains_key(cell_key(p)) {
            Some(self.cell_map@[cell_key(p)])
        } else {
            None
        }
    }

    /// The two tables agree, and no node sits in a reserved cell.
    pub open spec fn wf(&self) -> bool {
        &&& self.node_positions@.len() <= u32::MAX
        &&& 0 <= self.approx_w
        &&& forall|id: int|
            0 <= id < self.node_positions@.len() && #[trigger] self.node_positions@[id] is Some
                ==> {
                let p = self.node_positions@[id]->Some_0;
                &&& self.cell_map@.contains_key(cell_key(p))
                &&& self.cell_map@[cell_key(p)] == id
                &&& !is_reserved(p)
            }
        &&& forall|k: u64| #[trigger]
            self.cell_map@.contains_key(k) ==> {
                let id = self.cell_map@[k];
                &&& id < self.node_positions@.len()
                &&& self.node_positions@[id as int] is Some
                &&& cell_key(self.node_positions@[id as int]->Some_0) == k
            }
    }

    /// No node sits in a reserved cell, and no two nodes sit in one cell.
    pub proof fn lemma_cells(&self, id: int, other: int)
        requires
            self.wf(),
            0 <= id < self.size(),
            0 <= other < self.size(),
            self.position(id) is Some,
        ensures
            !is_reserved(self.position(id)->Some_0),
            self.occupant(self.position(id)->Some_0) == Some(id as u32),
            other != id ==> self.position(other) != self.position(id),
    {
        assert(self.node_positions@[id] is Some);
        if other != id && self.position(other) == self.position(id) {
            assert(self.node_positions@[other] is Some);
        }
    }

    /// A reserved cell holds no node.
    pub proof fn lemma_reserved_is_free(&self, p: (i32, i32))
        requires
            self.wf(),
            is_reserved(p),
        ensures
            self.occupant(p) is None,
    {
        if self.cell_map@.contains_key(cell_key(p)) {
            let id = self.cell_map@[cell_key(p)];
            assert(self.node_positions@[id as int] is Some);
            lemma_cell_key_injective(self.node_positions@[id as int]->Some_0, p);
        }
    }

    /// An empty grid.
    pub fn new() -> (r: Grid)
        ensures
            r.wf(),
            r.size() == 0,
            r.approx_w == 0,
    {
        Grid { cell_map: HashMap::new(), node_positions: Vec::new(), approx_w: 0 }
    }

    /// Empties the grid and makes room for `size` nodes. The width of a row
    /// is the least `w` with `w * w >= 2 * size`.
    pub fn init(&mut self, size: usize)
        requires
            size <= u32::MAX,
        ensures
            final(self).wf(),
            final(self).size() == size,
            forall|id: int| 0 <= id < size ==> final(self).position(id) is None,
            forall|p: (i32, i32)| final(self).occupant(p) is None,
            final(self).approx_w == ceil_sqrt(2 * size),
    {
        let target: u64 = 2 * (size as u64);
        let mut w: u64 = 0;
        let mut square: u64 = 0;
        while square < target
            invariant
                target <= 2 * u32::MAX,
                w <= 0x2_0000,
                square == w * w,
                w == 0 || (w - 1) * (w - 1) < target,
            decreases 0x2_0000 - w,
        {
            assert(w < 0x2_0000) by (nonlinear_arith)
                requires
                    w * w < target,
                    target <= 2 * 0xffff_ffff,
                    w <= 0x2_0000,
            ;
            assert((w + 1) * (w + 1) == w * w + 2 * w + 1) by (nonlinear_arith);
            assert(w * w <= 0x2_0000 * 0x2_0000) by (nonlinear_arith)
                requires
                    w <= 0x2_0000,
            ;
            square = square + 2 * w + 1;
            w = w + 1;
        }
        proof {
            lemma_ceil_sqrt(w as int, 2 * size);
        }
        self.approx_w = w as i32;
        self.cell_map = HashMap::new();
        let mut positions: Vec<Option<(i32, i32)>> = Vec::with_capacity(size);
        let mut i: usize = 0;
        while i < size
            invariant
                i <= size,
                positions@.len() == i,
                forall|q: int| 0 <= q < i ==> #[trigger] positions@[q] is None,
            decreases size - i,
        {
            positions.push(None);
            i = i + 1;
        }
        self.node_positions = positions;
    }

    /// The cell of a node that has one.
    pub fn get_pos_for(&self, id: u32) -> (r: (i32, i32))
        requires
            id < self.size(),
            self.position(id as int) is Some,
        ensures
            Some(r) == self.position(id as int),
    {
        match self.node_positions[id as usize] {
            Some(p) => p,
            None => (0, 0),
        }
    }

    /// Whether a node sits on the cell.
    pub fn is_cell_filled(&self, key: (i32, i32)) -> (r: bool)
        ensures
            r == self.occupant(key) is Some,
    {
        let k = cell_key_of(key);
        self.cell_map.contains_key(&k)
    }

    /// Whether the cell is kept free for a pole.
    pub fn is_cell_reserved(&self, key: (i32, i32)) -> (r: bool)
        ensures
            r == is_reserved(key),
    {
        let x = key.0.checked_rem_euclid(18);
        let y = key.1.checked_rem_euclid(9);
        match (x, y) {
            (Some(x), Some(y)) => y == 0 && x <= 1,
            _ => false,
        }
    }

    /// The node that sits on the cell, if one does.
    pub fn get_id_at(&self, key: (i32, i32)) -> (r: Option<u32>)
        ensures
            r == self.occupant(key),
    {
        let k = cell_key_of(key);
        match self.cell_map.get(&k) {
            Some(id) => Some(*id),
            None => None,
        }
    }

    /// Puts node `val` into cell `key`. The node that sat there, if another
    /// did, is left without a cell; so is the cell that `val` came from.
    pub fn set(&mut self, key: (i32, i32), val: u32)
        requires
            old(self).wf(),
            val < old(self).size(),
            !is_reserved(key),
        ensures
            final(self).wf(),
            final(self).size() == old(self).size(),
            final(self).approx_w == old(self).approx_w,
            final(self).position(val as int) == Some(key),
            forall|id: int|
                0 <= id < old(self).size() && id != val ==> #[trigger] final(self).position(id)
                    == if old(self).position(id) == Some(key) {
                    None
                } else {
                    old(self).position(id)
                },
    {
        let k = cell_key_of(key);
        assert forall|p: (i32, i32), q: (i32, i32)| #[trigger]
            cell_key(p) == #[trigger] cell_key(q) implies p == q by {
            lemma_cell_key_injective(p, q);
        }
        if let Some(current_id) = self.cell_map.get(&k) {
            let c = *current_id as usize;
            self.node_positions[c] = None;
        }
        if let Some(current_pos) = self.node_positions[val as usize] {
            let from = cell_key_of(current_pos);
            self.cell_map.remove(&from);
        }
        self.cell_map.insert(k, val);
        self.node_positions[val as usize] = Some(key);
    }

    /// A cell holds a node exactly where some node has it as its position.
    pub proof fn lemma_taken(&self, p: (i32, i32))
        requires
            self.wf(),
        ensures
            self.occupant(p) is Some <==> taken(self.node_positions@, p),
    {
        if self.occupant(p) is Some {
            let id = self.cell_map@[cell_key(p)];
            assert(self.node_positions@[id as int] is Some);
            lemma_cell_key_injective(self.node_positions@[id as int]->Some_0, p);
            assert(self.node_positions@[id as int] == Some(p));
        }
        if taken(self.node_positions@, p) {
            let id = choose|id: int|
                0 <= id < self.node_positions@.len() && #[trigger] self.node_positions@[id]
                    == Some(p);
            assert(self.node_positions@[id] is Some);
        }
    }

    /// The node that the grid finds in a cell is the one that has the cell
    /// as its position.
    pub proof fn lemma_holder(&self, p: (i32, i32))
        requires
            self.wf(),
        ensures
            self.occupant(p) is Some ==> holder(self.node_positions@, p) == Some(
                self.occupant(p)->Some_0 as int,
            ),
            self.occupant(p) is None ==> holder(self.node_positions@, p) is None,
    {
        self.lemma_taken(p);
        if taken(self.node_positions@, p) {
            let id = choose|id: int|
                0 <= id < self.node_positions@.len() && #[trigger] self.node_positions@[id]
                    == Some(p);
            assert(self.node_positions@[id] is Some);
        }
    }

    /// In a cell that holds no node, no node has its position.
    pub proof fn lemma_free_cell_unclaimed(&self, p: (i32, i32))
        requires
            self.wf(),
            self.occupant(p) is None,
        ensures
            forall|id: int| 0 <= id < self.size() ==> #[trigger] self.position(id) != Some(p),
    {
        assert forall|id: int| 0 <= id < self.size() implies #[trigger] self.position(id) != Some(
            p,
        ) by {
            if self.position(id) == Some(p) {
                assert(self.node_positions@[id] is Some);
            }
        }
    }

    fn free_from(&self, x0: i32, y: i32) -> (r: Option<i32>)
        requires
            self.wf(),
        ensures
            r == free_x(self.node_positions@, x0 as int, y),
            r is Some ==> self.occupant((r->Some_0, y)) is None,
    {
        let mut x = x0;
        loop
            invariant
                self.wf(),
                x0 <= x,
                free_x(self.node_positions@, x0 as int, y) == free_x(
                    self.node_positions@,
                    x as int,
                    y,
                ),
            decreases i32::MAX - x,
        {
            proof {
                self.lemma_taken((x, y));
            }
            if !self.is_cell_filled((x, y)) {
                return Some(x);
            }
            if x == i32::MAX {
                return None;
            }
            x = x + 1;
        }
    }

    /// Puts node `id`, which has no cell yet, into a cell that is free and
    /// not reserved.
    fn claim(&mut self, key: (i32, i32), id: u32)
        requires
            old(self).wf(),
            id < old(self).size(),
            !is_reserved(key),
            old(self).occupant(key) is None,
        ensures
            final(self).wf(),
            final(self).approx_w == old(self).approx_w,
            final(self).node_positions@ == old(self).node_positions@.update(id as int, Some(key)),
    {
        proof {
            self.lemma_free_cell_unclaimed(key);
        }
        self.set(key, id);
        proof {
            assert forall|other: int| 0 <= other < self.node_positions@.len() implies self.node_positions@[other]
                == old(self).node_positions@.update(id as int, Some(key))[other] by {
                if other != id {
                    assert(self.position(other) == old(self).position(other));
                } else {
                    assert(self.position(id as int) == Some(key));
                }
            }
            assert(self.node_positions@ =~= old(self).node_positions@.update(id as int, Some(key)));
        }
    }

    /// Puts an input node into the first free cell of row 1, from
    /// `-(port_count / 2)` rightwards. `false`, with the grid as it was,
    /// where the row is full to its end.
    pub fn add_input(&mut self, id: u32, port_count: i32) -> (r: bool)
        requires
            old(self).wf(),
            id < old(self).size(),
            0 <= port_count,
        ensures
            final(self).wf(),
            final(self).approx_w == old(self).approx_w,
            match input_cell(old(self).node_positions@, port_count as int) {
                Some(p) => r && final(self).node_positions@ == old(self).node_positions@.update(
                    id as int,
                    Some(p),
                ),
                None => !r && *final(self) == *old(self),
            },
    {
        match self.free_from(-(port_count / 2), 1) {
            Some(x) => {
                self.claim((x, 1), id);
                true
            },
            None => false,
        }
    }

    /// Puts an output node into row 1: right of the first free cell from
    /// `-(port_count / 2)`, which stays free as a gap, into the first free
    /// cell from there. `false`, with the grid as it was, where the row is
    /// full to its end.
    pub fn add_output(&mut self, id: u32, port_count: i32) -> (r: bool)
        requires
            old(self).wf(),
            id < old(self).size(),
            0 <= port_count,
        ensures
            final(self).wf(),
            final(self).approx_w == old(self).approx_w,
            match output_cell(old(self).node_positions@, port_count as int) {
                Some(p) => r && final(self).node_positions@ == old(self).node_positions@.update(
                    id as int,
                    Some(p),
                ),
                None => !r && *final(self) == *old(self),
            },
    {
        let gap = match self.free_from(-(port_count / 2), 1) {
            Some(x) => x,
            None => {
                return false;
            },
        };
        if gap == i32::MAX {
            return false;
        }
        match self.free_from(gap + 1, 1) {
            Some(x) => {
                self.claim((x, 1), id);
                true
            },
            None => false,
        }
    }

    /// Puts a node into the first open cell that the scan of rows meets:
    /// rows 2, 3, ... of `approx_w` cells each, in alternating direction.
    /// `false`, with the grid as it was, where the scan ends without one.
    pub fn add_node(&mut self, id: u32) -> (r: bool)
        requires
            old(self).wf(),
            id < old(self).size(),
        ensures
            final(self).wf(),
            final(self).approx_w == old(self).approx_w,
            match node_cell(old(self).node_positions@, old(self).approx_w as int) {
                Some(p) => r && final(self).node_positions@ == old(self).node_positions@.update(
                    id as int,
                    Some(p),
                ),
                None => !r && *final(self) == *old(self),
            },
    {
        let w = self.approx_w;
        let half = w / 2;
        let mut y: i32 = 2;
        let ghost cells = self.node_positions@;
        loop
            invariant
                *self == *old(self),
                self.wf(),
                id < self.size(),
                cells == self.node_positions@,
                w == self.approx_w,
                half == w / 2,
                2 <= y,
                node_cell(cells, w as int) == scan_cell(cells, w as int, y as int, 0),
            decreases i32::MAX - y,
        {
            let wind_dir = y % 2 == 1;
            let mut off: i32 = 0;
            while off < w
                invariant
                    *self == *old(self),
                    self.wf(),
                    id < self.size(),
                    cells == self.node_positions@,
                    w == self.approx_w,
                    half == w / 2,
                    2 <= y,
                    0 <= off <= w,
                    wind_dir == (y % 2 == 1),
                    node_cell(cells, w as int) == scan_cell(cells, w as int, y as int, off as int),
                decreases w - off,
            {
                let x = if wind_dir {
                    off - half
                } else {
                    half - off
                };
                proof {
                    self.lemma_taken((x, y));
                }
                if !self.is_cell_filled((x, y)) && !self.is_cell_reserved((x, y)) {
                    self.claim((x, y), id);
                    return true;
                }
                off = off + 1;
            }
            assert(scan_cell(cells, w as int, y as int, w as int) == scan_cell(
                cells,
                w as int,
                y + 1,
                0,
            ));
            if y == i32::MAX {
                assert(scan_cell(cells, w as int, y + 1, 0) is None);
                return false;
            }
            y = y + 1;
        }
    }
}

/// Every node that becomes an entity has a cell on the grid, and no other
/// node has one.
pub open spec fn placed(g: Seq<Node>, grid: &Grid) -> bool {
    &&& grid.wf()
    &&& grid.size() == g.len()
    &&& forall|i: int| 0 <= i < g.len() ==> (#[trigger] g[i]).is_entity() == grid.position(i) is Some
}

/// Inputs and outputs sit in row 1, all other entities below it.
pub open spec fn ports_on_top(g: Seq<Node>, grid: &Grid) -> bool {
    forall|i: int|
        0 <= i < g.len() && (#[trigger] g[i]).is_entity() ==> if g[i] is Input || g[i] is Output {
            grid.position(i)->Some_0.1 == 1
        } else {
            grid.position(i)->Some_0.1 >= 2
        }
}

/// Of `n` nodes, the entities among the first `i` have cells, inputs and
/// outputs in row 1 and the others below, and no other node has one.
pub open spec fn placed_upto(g: Seq<Node>, cells: Seq<Option<(i32, i32)>>, i: int, n: int) -> bool {
    &&& cells.len() == n
    &&& forall|q: int|
        0 <= q < n ==> (((#[trigger] g[q]).is_entity() && q < i) <==> (cells[q] is Some))
    &&& forall|q: int|
        0 <= q < i && q < n && (#[trigger] g[q]).is_entity() ==> if g[q] is Input
            || g[q] is Output {
            cells[q]->Some_0.1 == 1
        } else {
            cells[q]->Some_0.1 >= 2
        }
}

/// What `placed_upto` says of one node.
proof fn lemma_placed_at(g: Seq<Node>, cells: Seq<Option<(i32, i32)>>, i: int, n: int, q: int)
    requires
        placed_upto(g, cells, i, n),
        0 <= q < n,
    ensures
        (g[q].is_entity() && q < i) <==> (cells[q] is Some),
        q < i && g[q].is_entity() ==> if g[q] is Input || g[q] is Output {
            cells[q]->Some_0.1 == 1
        } else {
            cells[q]->Some_0.1 >= 2
        },
{
    let node = g[q];
    assert(forall|k: int|
        0 <= k < n ==> (((#[trigger] g[k]).is_entity() && k < i) <==> (cells[k] is Some)));
}

/// One node more is placed.
proof fn lemma_placed_grows(
    g: Seq<Node>,
    cells: Seq<Option<(i32, i32)>>,
    now: Seq<Option<(i32, i32)>>,
    i: int,
    n: int,
    p: (i32, i32),
)
    requires
        0 <= i < n,
        placed_upto(g, cells, i, n),
        if g[i].is_entity() {
            now == cells.update(i, Some(p)) && if g[i] is Input || g[i] is Output {
                p.1 == 1
            } else {
                p.1 >= 2
            }
        } else {
            now == cells
        },
    ensures
        placed_upto(g, now, i + 1, n),
{
    assert forall|q: int| 0 <= q < n implies (((#[trigger] g[q]).is_entity() && q < i + 1) <==> (
    now[q] is Some)) by {
        lemma_placed_at(g, cells, i, n, q);
    }
    assert forall|q: int| 0 <= q < i + 1 && q < n && (#[trigger] g[q]).is_entity() implies if g[q] is Input
        || g[q] is Output {
        now[q]->Some_0.1 == 1
    } else {
        now[q]->Some_0.1 >= 2
    } by {
        lemma_placed_at(g, cells, i, n, q);
    }
}

/// The first cell of a node among the nodes placed so far: row 1 for an
/// input or output, the rows below for any other entity. `None` where no
/// cell is left in range.
pub open spec fn first_cell(node: Node, cells: Seq<Option<(i32, i32)>>, port_count: int, w: int) -> Option<
    (i32, i32),
> {
    if node is Input {
        input_cell(cells, port_count)
    } else if node is Output {
        output_cell(cells, port_count)
    } else {
        node_cell(cells, w)
    }
}

/// The cells of all nodes after the first `k` were placed in turn, in rows
/// of `w` cells. `None` where one of them finds no cell.
pub open spec fn placement_upto(g: Seq<Node>, port_count: int, w: int, k: int) -> Option<
    Seq<Option<(i32, i32)>>,
>
    decreases k,
{
    if k <= 0 {
        Some(Seq::new(g.len(), |i: int| None))
    } else {
        match placement_upto(g, port_count, w, k - 1) {
            None => None,
            Some(cells) => if g[k - 1].is_entity() {
                match first_cell(g[k - 1], cells, port_count, w) {
                    None => None,
                    Some(p) => Some(cells.update(k - 1, Some(p))),
                }
            } else {
                Some(cells)
            },
        }
    }
}

/// The length of the rows that the nodes of a graph are placed in: the root
/// of twice their number, rounded up.
pub open spec fn row_width(g: Seq<Node>) -> int {
    ceil_sqrt(2 * (g.len() as int))
}

/// The first cells of all nodes of a graph.
pub open spec fn placement(g: Seq<Node>, port_count: int, w: int) -> Option<
    Seq<Option<(i32, i32)>>,
> {
    placement_upto(g, port_count, w, g.len() as int)
}

proof fn lemma_placement_stays_none(g: Seq<Node>, port_count: int, w: int, a: int, b: int)
    requires
        placement_upto(g, port_count, w, a) is None,
        a <= b,
    ensures
        placement_upto(g, port_count, w, b) is None,
    decreases b - a,
{
    if a < b {
        lemma_placement_stays_none(g, port_count, w, a, b - 1);
    }
}

/// The scan of rows finds cells in row 2 or below.
proof fn lemma_scan_cell_row(cells: Seq<Option<(i32, i32)>>, w: int, y: int, off: int)
    requires
        2 <= y,
    ensures
        scan_cell(cells, w, y, off) is Some ==> scan_cell(cells, w, y, off)->Some_0.1 >= 2,
    decreases i32::MAX + 1 - y, w - off,
{
    if y < 2 || y > i32::MAX || w > i32::MAX {
    } else if off < 0 || off >= w {
        lemma_scan_cell_row(cells, w, y + 1, 0);
    } else if !taken(cells, row_cell(w, y, off)) && !is_reserved(row_cell(w, y, off)) {
    } else {
        lemma_scan_cell_row(cells, w, y, off + 1);
    }
}

impl IRModule {
    /// Gives every node that becomes an entity its first cell: inputs and
    /// outputs along row 1, a gap of one cell between them, all others in
    /// the rows below, filled in alternating direction.
    ///
    /// The result is `EmitInvalid` where a gate or an empty slot is left in
    /// the graph; else the cells are those of `placement`, or the result is
    /// `Limit` where it has none.
    pub fn place_nodes(&mut self) -> (r: Result<(), CompileError>)
        requires
            old(self).wf(),
        ensures
            final(self).same_program(old(self)),
            final(self).out_symbols == old(self).out_symbols,
            final(self).links == old(self).links,
            r == Err::<(), CompileError>(CompileError::EmitInvalid) <==> has_unlowered(
                old(self).graph(),
            ),
            !has_unlowered(old(self).graph()) ==> final(self).grid.approx_w == row_width(
                old(self).graph(),
            ) && match placement(
                old(self).graph(),
                old(self).port_count as int,
                row_width(old(self).graph()),
            ) {
                Some(cells) => r is Ok && final(self).grid.node_positions@ == cells,
                None => r == Err::<(), CompileError>(CompileError::Limit),
            },
            r is Ok ==> placed(final(self).graph(), &final(self).grid) && ports_on_top(
                final(self).graph(),
                &final(self).grid,
            ),
    {
        let ghost g = self.graph();
        let n = self.nodes.len();
        let mut i: usize = 0;
        while i < n
            invariant
                i <= n,
                n == self.nodes@.len(),
                *self == *old(self),
                g == self.graph(),
                forall|q: int| 0 <= q < i ==> !(#[trigger] g[q] is Gate || g[q] is PlaceHolder),
            decreases n - i,
        {
            match &self.nodes[i] {
                IRNode::Gate(_, _, _) => {
                    assert(g[i as int] is Gate);
                    return Err(CompileError::EmitInvalid);
                },
                IRNode::PlaceHolder => {
                    assert(g[i as int] is PlaceHolder);
                    return Err(CompileError::EmitInvalid);
                },
                _ => {},
            }
            i = i + 1;
        }
        self.grid.init(n);
        let ghost w = self.grid.approx_w as int;
        let ghost pc = self.port_count as int;
        assert(g.len() == n);
        assert forall|q: int| 0 <= q < n implies self.grid.node_positions@[q] == None::<
            (i32, i32),
        > by {
            assert(self.grid.position(q) is None);
        }
        assert(self.grid.node_positions@ =~= Seq::new(g.len(), |i: int| None));
        i = 0;
        assert(placed_upto(g, self.grid.node_positions@, 0, n as int));
        while i < n
            invariant
                i <= n,
                n == self.nodes@.len(),
                n == g.len(),
                n <= u32::MAX,
                0 <= self.port_count,
                pc == self.port_count,
                w == self.grid.approx_w,
                self.same_program(old(self)),
                self.out_symbols == old(self).out_symbols,
                self.links == old(self).links,
                g == self.graph(),
                g == old(self).graph(),
                !has_unlowered(g),
                self.grid.wf(),
                self.grid.size() == n,
                w == row_width(g),
                placement_upto(g, pc, w, i as int) == Some(self.grid.node_positions@),
                placed_upto(g, self.grid.node_positions@, i as int, n as int),
            decreases n - i,
        {
            let id = i as u32;
            let ghost cells = self.grid.node_positions@;
            proof {
                lemma_scan_cell_row(cells, w, 2, 0);
            }
            let ok = match &self.nodes[i] {
                IRNode::Input(_) => self.grid.add_input(id, self.port_count),
                IRNode::Output(_, _) => self.grid.add_output(id, self.port_count),
                IRNode::Constant(_) | IRNode::BinOp(_, _, _) | IRNode::BinOpSame(_, _)
                | IRNode::BinOpCmpGate(_, _, _, _) => self.grid.add_node(id),
                _ => true,
            };
            if !ok {
                proof {
                    assert(placement_upto(g, pc, w, i + 1) is None);
                    lemma_placement_stays_none(g, pc, w, i + 1, n as int);
                }
                return Err(CompileError::Limit);
            }
            proof {
                let p = first_cell(g[i as int], cells, pc, w)->Some_0;
                lemma_placed_grows(g, cells, self.grid.node_positions@, i as int, n as int, p);
            }
            i = i + 1;
        }
        proof {
            let done = self.grid.node_positions@;
            assert forall|q: int| 0 <= q < g.len() implies (#[trigger] g[q]).is_entity()
                == self.grid.position(q) is Some by {
                lemma_placed_at(g, done, n as int, n as int, q);
            }
            assert forall|q: int| 0 <= q < g.len() && (#[trigger] g[q]).is_entity() implies if g[q] is Input
                || g[q] is Output {
                self.grid.position(q)->Some_0.1 == 1
            } else {
                self.grid.position(q)->Some_0.1 >= 2
            } by {
                lemma_placed_at(g, done, n as int, n as int, q);
            }
        }
        Ok(())
    }
}

} // verus!
