use vstd::prelude::*;
use crate::disjoint_set::DisjointSet;
use crate::error::CompileError;
use crate::ir::{graph_of, graph_wf, IRArg, IRModule, IRNode, Node};
use crate::parser::returns_of;

verus! {

/// A demand on the output symbols of nodes: two nodes share a symbol, two
/// nodes differ, or a node has a given symbol.
#[derive(Debug, Clone, Copy, PartialEq, Eq, Structural)]
pub enum SymbolConstraint {
    Equal(u32, u32),
    NotEqual(u32, u32),
    EqualSymbol(u32, u32),
}

impl SymbolConstraint {
    /// Every node that the constraint names is one of `n` nodes.
    pub open spec fn in_range(self, n: nat) -> bool {
        match self {
            SymbolConstraint::Equal(a, b) => a < n && b < n,
            SymbolConstraint::NotEqual(a, b) => a < n && b < n,
            SymbolConstraint::EqualSymbol(i, _) => i < n,
        }
    }

    /// Whether an assignment of symbols to nodes meets the constraint.
    pub open spec fn holds(self, symbols: Seq<u32>) -> bool {
        match self {
            SymbolConstraint::Equal(a, b) => symbols[a as int] == symbols[b as int],
            SymbolConstraint::NotEqual(a, b) => symbols[a as int] != symbols[b as int],
            SymbolConstraint::EqualSymbol(i, s) => symbols[i as int] == s,
        }
    }
}

/// Every constraint names nodes among `n`.
pub open spec fn constraints_in_range(cs: Seq<SymbolConstraint>, n: nat) -> bool {
    forall|k: int| 0 <= k < cs.len() ==> (#[trigger] cs[k]).in_range(n)
}

/// Every constraint holds of the assignment.
pub open spec fn satisfies(symbols: Seq<u32>, cs: Seq<SymbolConstraint>) -> bool {
    forall|k: int| 0 <= k < cs.len() ==> (#[trigger] cs[k]).holds(symbols)
}

/// The set names after the set of `a` has joined the set of `b`.
pub open spec fn merge_reps(reps: Seq<int>, a: int, b: int) -> Seq<int> {
    Seq::new(
        reps.len(),
        |j: int|
            if reps[j] == reps[a] {
                reps[b]
            } else {
                reps[j]
            },
    )
}

/// For each of `n` nodes the name of its set, after the sets were joined as
/// the first `k` constraints demand.
pub open spec fn reps_upto(cs: Seq<SymbolConstraint>, n: nat, k: int) -> Seq<int>
    decreases k,
{
    if k <= 0 {
        Seq::new(n, |j: int| j)
    } else {
        let prev = reps_upto(cs, n, k - 1);
        match cs[k - 1] {
            SymbolConstraint::Equal(a, b) => merge_reps(prev, a as int, b as int),
            _ => prev,
        }
    }
}

/// For each node the name of its set under all `Equal` constraints.
pub open spec fn classes(cs: Seq<SymbolConstraint>, n: nat) -> Seq<int> {
    reps_upto(cs, n, cs.len() as int)
}

/// Some constraint gives symbol `s` to a node of the set named `r`.
pub open spec fn pinned_to(cs: Seq<SymbolConstraint>, reps: Seq<int>, r: int, s: u32) -> bool {
    exists|k: int|
        0 <= k < cs.len() && #[trigger] cs[k] == SymbolConstraint::EqualSymbol(
            cs[k]->EqualSymbol_0,
            s,
        ) && reps[cs[k]->EqualSymbol_0 as int] == r
}

/// Some set is given two different symbols.
pub open spec fn pin_clash(cs: Seq<SymbolConstraint>, reps: Seq<int>) -> bool {
    exists|r: int, sym_a: u32, sym_b: u32|
        #[trigger] pinned_to(cs, reps, r, sym_a) && #[trigger] pinned_to(cs, reps, r, sym_b) && sym_a
            != sym_b
}

/// The `NotEqual` constraint at `k` cannot be met: its nodes share a set, or
/// their sets are given the same symbol.
pub open spec fn unequal_clash_at(cs: Seq<SymbolConstraint>, reps: Seq<int>, k: int) -> bool {
    cs[k] is NotEqual && {
        let ra = reps[cs[k]->NotEqual_0 as int];
        let rb = reps[cs[k]->NotEqual_1 as int];
        ra == rb || exists|s: u32| #[trigger] pinned_to(cs, reps, ra, s) && pinned_to(cs, reps, rb, s)
    }
}

/// Some `NotEqual` constraint cannot be met.
pub open spec fn unequal_clash(cs: Seq<SymbolConstraint>, reps: Seq<int>) -> bool {
    exists|k: int| 0 <= k < cs.len() && #[trigger] unequal_clash_at(cs, reps, k)
}

/// The constraints contradict each other.
pub open spec fn clash(cs: Seq<SymbolConstraint>, n: nat) -> bool {
    pin_clash(cs, classes(cs, n)) || unequal_clash(cs, classes(cs, n))
}

/// For each set name the symbol that the first `k` constraints give it.
pub open spec fn pins_upto(cs: Seq<SymbolConstraint>, reps: Seq<int>, k: int) -> Seq<Option<u32>>
    decreases k,
{
    if k <= 0 {
        Seq::new(reps.len(), |j: int| None)
    } else {
        let prev = pins_upto(cs, reps, k - 1);
        match cs[k - 1] {
            SymbolConstraint::EqualSymbol(i, s) => prev.update(reps[i as int], Some(s)),
            _ => prev,
        }
    }
}

/// The symbols before repair: the given symbol for a pinned set, zero for
/// the others.
pub open spec fn start_symbols(pins: Seq<Option<u32>>) -> Seq<u32> {
    Seq::new(
        pins.len(),
        |j: int|
            match pins[j] {
                Some(s) => s,
                None => 0u32,
            },
    )
}

/// One `NotEqual` constraint seen by the repair: where its two sets have one
/// symbol, the first of them that is not pinned moves to the next symbol.
/// The flag says whether they had one symbol. There is no result where the
/// next symbol does not exist.
pub open spec fn repair_step(
    symbols: Seq<u32>,
    pins: Seq<Option<u32>>,
    reps: Seq<int>,
    c: SymbolConstraint,
) -> Option<(Seq<u32>, bool)> {
    match c {
        SymbolConstraint::NotEqual(a, b) => {
            let ra = reps[a as int];
            let rb = reps[b as int];
            if symbols[ra] != symbols[rb] {
                Some((symbols, false))
            } else if pins[ra] is None {
                if symbols[ra] == u32::MAX {
                    None
                } else {
                    Some((symbols.update(ra, (symbols[ra] + 1) as u32), true))
                }
            } else if pins[rb] is None {
                if symbols[rb] == u32::MAX {
                    None
                } else {
                    Some((symbols.update(rb, (symbols[rb] + 1) as u32), true))
                }
            } else {
                Some((symbols, true))
            }
        },
        _ => Some((symbols, false)),
    }
}

/// The repair over the first `k` constraints, and whether any two sets had
/// one symbol.
pub open spec fn repair_pass(
    symbols: Seq<u32>,
    pins: Seq<Option<u32>>,
    reps: Seq<int>,
    cs: Seq<SymbolConstraint>,
    k: int,
) -> Option<(Seq<u32>, bool)>
    decreases k,
{
    if k <= 0 {
        Some((symbols, false))
    } else {
        match repair_pass(symbols, pins, reps, cs, k - 1) {
            None => None,
            Some((prev, moved)) => match repair_step(prev, pins, reps, cs[k - 1]) {
                None => None,
                Some((next, hit)) => Some((next, moved || hit)),
            },
        }
    }
}

/// Repair passes until one finds nothing to move. There is no result where
/// a pass has none, or where `passes` passes do not suffice.
pub open spec fn repair(
    symbols: Seq<u32>,
    pins: Seq<Option<u32>>,
    reps: Seq<int>,
    cs: Seq<SymbolConstraint>,
    passes: nat,
) -> Option<Seq<u32>>
    decreases passes,
{
    match repair_pass(symbols, pins, reps, cs, cs.len() as int) {
        None => None,
        Some((next, moved)) => if !moved {
            Some(next)
        } else if passes == 0 {
            None
        } else {
            repair(next, pins, reps, cs, (passes - 1) as nat)
        },
    }
}

/// The symbol of each of `n` nodes: that of its set after repair.
pub open spec fn solution(cs: Seq<SymbolConstraint>, n: nat) -> Option<Seq<u32>> {
    let reps = classes(cs, n);
    let pins = pins_upto(cs, reps, cs.len() as int);
    match repair(start_symbols(pins), pins, reps, cs, usize::MAX as nat) {
        None => None,
        Some(symbols) => Some(Seq::new(n, |i: int| symbols[reps[i]])),
    }
}

/// The set names as mathematical integers.
pub open spec fn as_ints(v: Seq<usize>) -> Seq<int> {
    Seq::new(v.len(), |j: int| v[j] as int)
}

/// Joins the sets as the `Equal` constraints demand and returns, for each
/// node, the name of its set.
fn build_classes(n: usize, cs: &Vec<SymbolConstraint>) -> (reps: Vec<usize>)
    requires
        constraints_in_range(cs@, n as nat),
    ensures
        reps@.len() == n,
        as_ints(reps@) == classes(cs@, n as nat),
        forall|j: int| 0 <= j < n ==> #[trigger] reps@[j] < n,
        forall|k: int|
            0 <= k < cs@.len() && #[trigger] cs@[k] is Equal ==> reps@[cs@[k]->Equal_0 as int]
                == reps@[cs@[k]->Equal_1 as int],
{
    let mut sets = DisjointSet::new(n);
    let mut k: usize = 0;
    assert(Seq::new(n as nat, |j: int| j) =~= reps_upto(cs@, n as nat, 0));
    while k < cs.len()
        invariant
            k <= cs.len(),
            sets.wf(),
            sets.spec_len() == n,
            constraints_in_range(cs@, n as nat),
            reps_upto(cs@, n as nat, k as int).len() == n,
            forall|j: int|
                0 <= j < n ==> sets.find(j) == #[trigger] reps_upto(cs@, n as nat, k as int)[j],
            forall|q: int|
                0 <= q < k && #[trigger] cs@[q] is Equal ==> sets.find(cs@[q]->Equal_0 as int)
                    == sets.find(cs@[q]->Equal_1 as int),
        decreases cs.len() - k,
    {
        assert(cs@[k as int].in_range(n as nat));
        if let SymbolConstraint::Equal(a, b) = cs[k] {
            let ghost before = sets;
            sets.merge(a as usize, b as usize);
            proof {
                let prev = reps_upto(cs@, n as nat, k as int);
                let next = reps_upto(cs@, n as nat, k + 1);
                assert(next == merge_reps(prev, a as int, b as int));
                assert forall|j: int| 0 <= j < n implies sets.find(j) == #[trigger] next[j] by {
                    assert(before.find(j) == prev[j]);
                    assert(before.find(a as int) == prev[a as int]);
                    assert(before.find(b as int) == prev[b as int]);
                }
                assert forall|q: int| 0 <= q < k + 1 && #[trigger] cs@[q] is Equal implies sets.find(
                    cs@[q]->Equal_0 as int,
                ) == sets.find(cs@[q]->Equal_1 as int) by {
                    assert(cs@[q].in_range(n as nat));
                }
            }
        }
        k = k + 1;
    }
    let mut reps: Vec<usize> = Vec::with_capacity(n);
    let mut j: usize = 0;
    let ghost done = sets;
    while j < n
        invariant
            j <= n,
            sets.wf(),
            sets.spec_len() == n,
            reps@.len() == j,
            forall|q: int| 0 <= q < n ==> sets.find(q) == done.find(q),
            forall|q: int| 0 <= q < j ==> #[trigger] reps@[q] == done.find(q) && reps@[q] < n,
        decreases n - j,
    {
        let r = sets.get(j);
        reps.push(r);
        j = j + 1;
    }
    assert(as_ints(reps@) =~= classes(cs@, n as nat));
    assert forall|q: int|
        0 <= q < cs@.len() && #[trigger] cs@[q] is Equal implies reps@[cs@[q]->Equal_0 as int]
        == reps@[cs@[q]->Equal_1 as int] by {
        assert(cs@[q].in_range(n as nat));
    }
    reps
}

/// Gives each set the symbol that a constraint pins it to. `None` where a
/// set is pinned to two symbols.
fn pin_symbols(cs: &Vec<SymbolConstraint>, reps: &Vec<usize>) -> (r: Option<Vec<Option<u32>>>)
    requires
        constraints_in_range(cs@, reps@.len()),
        forall|j: int| 0 <= j < reps@.len() ==> #[trigger] reps@[j] < reps@.len(),
    ensures
        r is None <==> pin_clash(cs@, as_ints(reps@)),
        match r {
            Some(pins) => {
                &&& pins@ == pins_upto(cs@, as_ints(reps@), cs@.len() as int)
                &&& pins@.len() == reps@.len()
                &&& forall|j: int, s: u32|
                    0 <= j < pins@.len() ==> (#[trigger] pinned_to(cs@, as_ints(reps@), j, s)
                        <==> pins@[j] == Some(s))
            },
            None => true,
        },
{
    let n = reps.len();
    let ghost ireps = as_ints(reps@);
    let mut pins: Vec<Option<u32>> = Vec::with_capacity(n);
    let mut j: usize = 0;
    while j < n
        invariant
            j <= n,
            pins@.len() == j,
            forall|q: int| 0 <= q < j ==> #[trigger] pins@[q] is None,
        decreases n - j,
    {
        pins.push(None);
        j = j + 1;
    }
    assert(pins@ =~= pins_upto(cs@, ireps, 0));
    let ghost mut source: Seq<int> = Seq::new(n as nat, |q: int| 0int);
    let mut k: usize = 0;
    while k < cs.len()
        invariant
            k <= cs.len(),
            n == reps@.len(),
            ireps == as_ints(reps@),
            constraints_in_range(cs@, n as nat),
            forall|q: int| 0 <= q < reps@.len() ==> #[trigger] reps@[q] < reps@.len(),
            pins@ == pins_upto(cs@, ireps, k as int),
            pins@.len() == n,
            source.len() == n,
            forall|q: int|
                0 <= q < n && #[trigger] pins@[q] is Some ==> {
                    &&& 0 <= source[q] < k
                    &&& cs@[source[q]] == SymbolConstraint::EqualSymbol(
                        cs@[source[q]]->EqualSymbol_0,
                        pins@[q]->Some_0,
                    )
                    &&& ireps[cs@[source[q]]->EqualSymbol_0 as int] == q
                },
            forall|q: int|
                0 <= q < k && #[trigger] cs@[q] is EqualSymbol ==> pins@[ireps[cs@[q]->EqualSymbol_0 as int]]
                    == Some(cs@[q]->EqualSymbol_1),
        decreases cs.len() - k,
    {
        assert(cs@[k as int].in_range(n as nat));
        if let SymbolConstraint::EqualSymbol(i, s) = cs[k] {
            let r = reps[i as usize];
            assert(ireps[i as int] == r);
            if let Some(other) = pins[r] {
                if other != s {
                    proof {
                        assert(cs@[k as int] == SymbolConstraint::EqualSymbol(i, s));
                        assert(pinned_to(cs@, ireps, r as int, s));
                        assert(pinned_to(cs@, ireps, r as int, other));
                    }
                    return None;
                }
            }
            pins[r] = Some(s);
            proof {
                source = source.update(r as int, k as int);
                assert forall|q: int|
                    0 <= q < k + 1 && #[trigger] cs@[q] is EqualSymbol implies pins@[ireps[cs@[q]->EqualSymbol_0 as int]]
                    == Some(cs@[q]->EqualSymbol_1) by {
                    assert(cs@[q].in_range(n as nat));
                }
            }
        }
        k = k + 1;
    }
    proof {
        assert forall|q: int, s: u32| 0 <= q < pins@.len() implies (#[trigger] pinned_to(
            cs@,
            ireps,
            q,
            s,
        ) <==> pins@[q] == Some(s)) by {
            if pins@[q] == Some(s) {
                assert(cs@[source[q]] == SymbolConstraint::EqualSymbol(
                    cs@[source[q]]->EqualSymbol_0,
                    s,
                ));
            }
            if pinned_to(cs@, ireps, q, s) {
                let w = choose|w: int|
                    0 <= w < cs@.len() && #[trigger] cs@[w] == SymbolConstraint::EqualSymbol(
                        cs@[w]->EqualSymbol_0,
                        s,
                    ) && ireps[cs@[w]->EqualSymbol_0 as int] == q;
                assert(cs@[w] is EqualSymbol);
            }
        }
        assert(!pin_clash(cs@, ireps)) by {
            if pin_clash(cs@, ireps) {
                let (r, sym_a, sym_b) = choose|r: int, sym_a: u32, sym_b: u32|
                    #[trigger] pinned_to(cs@, ireps, r, sym_a) && #[trigger] pinned_to(
                        cs@,
                        ireps,
                        r,
                        sym_b,
                    ) && sym_a != sym_b;
                let w1 = choose|w: int|
                    0 <= w < cs@.len() && #[trigger] cs@[w] == SymbolConstraint::EqualSymbol(
                        cs@[w]->EqualSymbol_0,
                        sym_a,
                    ) && ireps[cs@[w]->EqualSymbol_0 as int] == r;
                let w2 = choose|w: int|
                    0 <= w < cs@.len() && #[trigger] cs@[w] == SymbolConstraint::EqualSymbol(
                        cs@[w]->EqualSymbol_0,
                        sym_b,
                    ) && ireps[cs@[w]->EqualSymbol_0 as int] == r;
                assert(cs@[w1] is EqualSymbol);
                assert(cs@[w2] is EqualSymbol);
            }
        }
    }
    Some(pins)
}

/// Whether some `NotEqual` constraint cannot be met.
fn find_unequal_clash(
    cs: &Vec<SymbolConstraint>,
    reps: &Vec<usize>,
    pins: &Vec<Option<u32>>,
) -> (r: bool)
    requires
        constraints_in_range(cs@, reps@.len()),
        pins@.len() == reps@.len(),
        forall|j: int| 0 <= j < reps@.len() ==> #[trigger] reps@[j] < reps@.len(),
        forall|j: int, s: u32|
            0 <= j < pins@.len() ==> (#[trigger] pinned_to(cs@, as_ints(reps@), j, s) <==> pins@[j]
                == Some(s)),
    ensures
        r == unequal_clash(cs@, as_ints(reps@)),
{
    let ghost ireps = as_ints(reps@);
    let mut k: usize = 0;
    while k < cs.len()
        invariant
            k <= cs.len(),
            ireps == as_ints(reps@),
            constraints_in_range(cs@, reps@.len()),
            pins@.len() == reps@.len(),
            forall|j: int| 0 <= j < reps@.len() ==> #[trigger] reps@[j] < reps@.len(),
            forall|j: int, s: u32|
                0 <= j < pins@.len() ==> (#[trigger] pinned_to(cs@, ireps, j, s) <==> pins@[j]
                    == Some(s)),
            forall|q: int| 0 <= q < k ==> !#[trigger] unequal_clash_at(cs@, ireps, q),
        decreases cs.len() - k,
    {
        assert(cs@[k as int].in_range(reps@.len()));
        if let SymbolConstraint::NotEqual(a, b) = cs[k] {
            let ra = reps[a as usize];
            let rb = reps[b as usize];
            assert(ireps[a as int] == ra && ireps[b as int] == rb);
            if ra == rb {
                assert(unequal_clash_at(cs@, ireps, k as int));
                return true;
            }
            if let Some(sa) = pins[ra] {
                if let Some(sb) = pins[rb] {
                    if sa == sb {
                        assert(pinned_to(cs@, ireps, ra as int, sa));
                        assert(pinned_to(cs@, ireps, rb as int, sa));
                        assert(unequal_clash_at(cs@, ireps, k as int));
                        return true;
                    }
                }
            }
            assert(!unequal_clash_at(cs@, ireps, k as int)) by {
                if unequal_clash_at(cs@, ireps, k as int) {
                    let s = choose|s: u32| #[trigger]
                        pinned_to(cs@, ireps, ra as int, s) && pinned_to(cs@, ireps, rb as int, s);
                    assert(pins@[ra as int] == Some(s));
                    assert(pins@[rb as int] == Some(s));
                }
            }
        }
        k = k + 1;
    }
    false
}

/// One repair pass. Returns whether any two sets had one symbol, or `None`
/// where the pass has no result.
fn repair_once(
    symbols: &mut Vec<u32>,
    cs: &Vec<SymbolConstraint>,
    reps: &Vec<usize>,
    pins: &Vec<Option<u32>>,
) -> (r: Option<bool>)
    requires
        constraints_in_range(cs@, reps@.len()),
        pins@.len() == reps@.len(),
        old(symbols)@.len() == reps@.len(),
        forall|j: int| 0 <= j < reps@.len() ==> #[trigger] reps@[j] < reps@.len(),
        forall|j: int|
            0 <= j < pins@.len() && #[trigger] pins@[j] is Some ==> old(symbols)@[j]
                == pins@[j]->Some_0,
    ensures
        final(symbols)@.len() == reps@.len(),
        match repair_pass(old(symbols)@, pins@, as_ints(reps@), cs@, cs@.len() as int) {
            None => r is None,
            Some((next, moved)) => r == Some(moved) && final(symbols)@ == next,
        },
        forall|j: int|
            0 <= j < pins@.len() && #[trigger] pins@[j] is Some ==> final(symbols)@[j]
                == pins@[j]->Some_0,
        r == Some(false) ==> final(symbols)@ == old(symbols)@ && forall|k: int|
            0 <= k < cs@.len() && #[trigger] cs@[k] is NotEqual ==> old(symbols)@[reps@[cs@[k]->NotEqual_0 as int] as int]
                != old(symbols)@[reps@[cs@[k]->NotEqual_1 as int] as int],
{
    let ghost ireps = as_ints(reps@);
    let ghost start = symbols@;
    let mut moved = false;
    let mut k: usize = 0;
    while k < cs.len()
        invariant
            k <= cs.len(),
            ireps == as_ints(reps@),
            start == old(symbols)@,
            constraints_in_range(cs@, reps@.len()),
            pins@.len() == reps@.len(),
            symbols@.len() == reps@.len(),
            forall|j: int| 0 <= j < reps@.len() ==> #[trigger] reps@[j] < reps@.len(),
            repair_pass(start, pins@, ireps, cs@, k as int) == Some((symbols@, moved)),
            forall|j: int|
                0 <= j < pins@.len() && #[trigger] pins@[j] is Some ==> symbols@[j]
                    == pins@[j]->Some_0,
            !moved ==> symbols@ == start && forall|q: int|
                0 <= q < k && #[trigger] cs@[q] is NotEqual ==> start[reps@[cs@[q]->NotEqual_0 as int] as int]
                    != start[reps@[cs@[q]->NotEqual_1 as int] as int],
        decreases cs.len() - k,
    {
        assert(cs@[k as int].in_range(reps@.len()));
        let ghost before = symbols@;
        let mut hit = false;
        if let SymbolConstraint::NotEqual(a, b) = cs[k] {
            let ra = reps[a as usize];
            let rb = reps[b as usize];
            assert(ireps[a as int] == ra && ireps[b as int] == rb);
            if symbols[ra] == symbols[rb] {
                hit = true;
                if pins[ra].is_none() {
                    if symbols[ra] == u32::MAX {
                        proof {
                            lemma_repair_pass_stays_none(start, pins@, ireps, cs@, k + 1, cs@.len() as int);
                        }
                        return None;
                    }
                    let next = symbols[ra] + 1;
                    symbols[ra] = next;
                } else if pins[rb].is_none() {
                    if symbols[rb] == u32::MAX {
                        proof {
                            lemma_repair_pass_stays_none(start, pins@, ireps, cs@, k + 1, cs@.len() as int);
                        }
                        return None;
                    }
                    let next = symbols[rb] + 1;
                    symbols[rb] = next;
                }
            }
        }
        assert(repair_step(before, pins@, ireps, cs@[k as int]) == Some((symbols@, hit)));
        moved = moved || hit;
        k = k + 1;
    }
    Some(moved)
}

/// Once a pass has no result over some constraints, it has none over more.
proof fn lemma_repair_pass_stays_none(
    symbols: Seq<u32>,
    pins: Seq<Option<u32>>,
    reps: Seq<int>,
    cs: Seq<SymbolConstraint>,
    a: int,
    b: int,
)
    requires
        repair_pass(symbols, pins, reps, cs, a) is None,
        a <= b,
    ensures
        repair_pass(symbols, pins, reps, cs, b) is None,
    decreases b - a,
{
    if a < b {
        lemma_repair_pass_stays_none(symbols, pins, reps, cs, a, b - 1);
    }
}

/// Chooses a symbol for each of `n` nodes so that every constraint holds.
///
/// The constraints are `TypeConflict` where they contradict each other: a
/// set of nodes joined by `Equal` is pinned to two symbols, a `NotEqual`
/// names two nodes of one set, or two sets pinned to one symbol. Else the
/// symbols are those of `solution`, or `Limit` where it has none.
pub fn solve_symbols(n: usize, cs: &Vec<SymbolConstraint>) -> (r: Result<Vec<u32>, CompileError>)
    requires
        constraints_in_range(cs@, n as nat),
    ensures
        r == Err::<Vec<u32>, CompileError>(CompileError::TypeConflict) <==> clash(cs@, n as nat),
        !clash(cs@, n as nat) ==> match solution(cs@, n as nat) {
            Some(symbols) => r is Ok && r->Ok_0@ == symbols,
            None => r == Err::<Vec<u32>, CompileError>(CompileError::Limit),
        },
        r is Ok ==> r->Ok_0@.len() == n && satisfies(r->Ok_0@, cs@),
{
    let reps = build_classes(n, cs);
    let ghost ireps = as_ints(reps@);
    let pins = match pin_symbols(cs, &reps) {
        None => {
            return Err(CompileError::TypeConflict);
        },
        Some(pins) => pins,
    };
    if find_unequal_clash(cs, &reps, &pins) {
        return Err(CompileError::TypeConflict);
    }
    let mut symbols: Vec<u32> = Vec::with_capacity(n);
    let mut j: usize = 0;
    while j < n
        invariant
            j <= n,
            pins@.len() == n,
            symbols@.len() == j,
            forall|q: int|
                0 <= q < j ==> #[trigger] symbols@[q] == match pins@[q] {
                    Some(s) => s,
                    None => 0u32,
                },
        decreases n - j,
    {
        symbols.push(
            match pins[j] {
                Some(s) => s,
                None => 0,
            },
        );
        j = j + 1;
    }
    assert(symbols@ =~= start_symbols(pins@));
    let mut left: usize = usize::MAX;
    assert(!clash(cs@, n as nat));
    loop
        invariant
            reps@.len() == n,
            pins@.len() == n,
            symbols@.len() == n,
            ireps == as_ints(reps@),
            ireps == classes(cs@, n as nat),
            pins@ == pins_upto(cs@, ireps, cs@.len() as int),
            !clash(cs@, n as nat),
            constraints_in_range(cs@, n as nat),
            forall|q: int| 0 <= q < reps@.len() ==> #[trigger] reps@[q] < reps@.len(),
            forall|q: int|
                0 <= q < pins@.len() && #[trigger] pins@[q] is Some ==> symbols@[q]
                    == pins@[q]->Some_0,
            repair(start_symbols(pins@), pins@, ireps, cs@, usize::MAX as nat) == repair(
                symbols@,
                pins@,
                ireps,
                cs@,
                left as nat,
            ),
        ensures
            repair(start_symbols(pins@), pins@, ireps, cs@, usize::MAX as nat) == Some(symbols@),
            forall|k: int|
                0 <= k < cs@.len() && #[trigger] cs@[k] is NotEqual ==> symbols@[reps@[cs@[k]->NotEqual_0 as int] as int]
                    != symbols@[reps@[cs@[k]->NotEqual_1 as int] as int],
        decreases left,
    {
        match repair_once(&mut symbols, cs, &reps, &pins) {
            None => {
                return Err(CompileError::Limit);
            },
            Some(moved) => {
                if !moved {
                    break ;
                }
                if left == 0 {
                    return Err(CompileError::Limit);
                }
                left = left - 1;
            },
        }
    }
    let mut out: Vec<u32> = Vec::with_capacity(n);
    let mut i: usize = 0;
    while i < n
        invariant
            i <= n,
            reps@.len() == n,
            symbols@.len() == n,
            out@.len() == i,
            forall|q: int| 0 <= q < reps@.len() ==> #[trigger] reps@[q] < reps@.len(),
            forall|q: int| 0 <= q < i ==> #[trigger] out@[q] == symbols@[reps@[q] as int],
        decreases n - i,
    {
        out.push(symbols[reps[i]]);
        i = i + 1;
    }
    proof {
        assert(out@ =~= Seq::new(n as nat, |i: int| symbols@[ireps[i]]));
        assert forall|k: int| 0 <= k < cs@.len() implies (#[trigger] cs@[k]).holds(out@) by {
            assert(cs@[k].in_range(n as nat));
            match cs@[k] {
                SymbolConstraint::Equal(a, b) => {},
                SymbolConstraint::NotEqual(a, b) => {},
                SymbolConstraint::EqualSymbol(i, s) => {
                    assert(pinned_to(cs@, ireps, ireps[i as int], s));
                },
            }
        }
    }
    Ok(out)
}

/// `Equal(target, i)` for each link among the operands `args[..k]` of the
/// multi-driver `i`.
pub open spec fn driver_constraints(args: Seq<IRArg>, i: int, k: int) -> Seq<SymbolConstraint>
    decreases k,
{
    if k <= 0 {
        seq![]
    } else {
        let prev = driver_constraints(args, i, k - 1);
        match args[k - 1] {
            IRArg::Link(t, _) => prev.push(SymbolConstraint::Equal(t, i as u32)),
            IRArg::Constant(_) => prev,
        }
    }
}

/// What node `i` demands of the symbols: a typed input has its symbol; a
/// typed return pins the node it forwards, or itself where it holds a
/// number; two linked operands of one combinator differ; a decider that
/// copies its input has the symbol of what it lets through; a multi-driver
/// has the symbol of each of its drivers.
pub open spec fn node_constraints(
    node: Node,
    i: int,
    arg_types: Seq<Option<u32>>,
    ret_types: Option<Seq<Option<u32>>>,
) -> Seq<SymbolConstraint> {
    match node {
        Node::Input(n) => if n < arg_types.len() && arg_types[n as int] is Some {
            seq![SymbolConstraint::EqualSymbol(i as u32, arg_types[n as int]->Some_0)]
        } else {
            seq![]
        },
        Node::Output(n, arg) => if ret_types is Some && n < ret_types->Some_0.len()
            && ret_types->Some_0[n as int] is Some {
            let symbol = ret_types->Some_0[n as int]->Some_0;
            match arg {
                IRArg::Link(t, _) => seq![SymbolConstraint::EqualSymbol(t, symbol)],
                IRArg::Constant(_) => seq![SymbolConstraint::EqualSymbol(i as u32, symbol)],
            }
        } else {
            seq![]
        },
        Node::BinOp(l, _, r) => if l is Link && r is Link {
            seq![SymbolConstraint::NotEqual(l->Link_0, r->Link_0)]
        } else {
            seq![]
        },
        Node::BinOpCmpGate(l, _, _, gated) => if l is Link && gated is Link {
            seq![
                SymbolConstraint::NotEqual(l->Link_0, gated->Link_0),
                SymbolConstraint::Equal(gated->Link_0, i as u32),
            ]
        } else {
            seq![]
        },
        Node::MultiDriver(args) => driver_constraints(args, i, args.len() as int),
        _ => seq![],
    }
}

/// The constraints of the first `k` nodes, node by node.
pub open spec fn constraints_upto(
    g: Seq<Node>,
    arg_types: Seq<Option<u32>>,
    ret_types: Option<Seq<Option<u32>>>,
    k: int,
) -> Seq<SymbolConstraint>
    decreases k,
{
    if k <= 0 {
        seq![]
    } else {
        constraints_upto(g, arg_types, ret_types, k - 1) + node_constraints(
            g[k - 1],
            k - 1,
            arg_types,
            ret_types,
        )
    }
}

/// Some node is a gate that was not lowered or a slot that was not filled.
pub open spec fn has_unlowered(g: Seq<Node>) -> bool {
    exists|i: int| 0 <= i < g.len() && (#[trigger] g[i] is Gate || g[i] is PlaceHolder)
}

/// The symbol constraints of a graph: `EmitInvalid` where a gate or an
/// empty slot is left in it, else those of all its nodes in order.
pub fn symbol_constraints(
    nodes: &Vec<IRNode>,
    arg_types: &Vec<Option<u32>>,
    ret_types: &Option<Vec<Option<u32>>>,
) -> (r: Result<Vec<SymbolConstraint>, CompileError>)
    requires
        graph_wf(graph_of(nodes@)),
    ensures
        match r {
            Ok(cs) => {
                &&& !has_unlowered(graph_of(nodes@))
                &&& cs@ == constraints_upto(
                    graph_of(nodes@),
                    arg_types@,
                    returns_of(*ret_types),
                    nodes@.len() as int,
                )
                &&& constraints_in_range(cs@, nodes@.len())
            },
            Err(e) => e == CompileError::EmitInvalid && has_unlowered(graph_of(nodes@)),
        },
{
    let ghost g = graph_of(nodes@);
    let ghost rt = returns_of(*ret_types);
    let mut out: Vec<SymbolConstraint> = Vec::new();
    let mut i: usize = 0;
    while i < nodes.len()
        invariant
            i <= nodes.len(),
            g == graph_of(nodes@),
            rt == returns_of(*ret_types),
            graph_wf(g),
            out@ == constraints_upto(g, arg_types@, rt, i as int),
            constraints_in_range(out@, nodes@.len()),
            forall|q: int| 0 <= q < i ==> !(#[trigger] g[q] is Gate || g[q] is PlaceHolder),
        decreases nodes.len() - i,
    {
        let ghost before = out@;
        let ghost node = g[i as int];
        assert(node.links_in_range(g.len()));
        match &nodes[i] {
            IRNode::Input(n) => {
                let n = *n as usize;
                if n < arg_types.len() {
                    if let Some(symbol) = arg_types[n] {
                        out.push(SymbolConstraint::EqualSymbol(i as u32, symbol));
                    }
                }
            },
            IRNode::Output(n, arg) => {
                assert(node.args()[0] == *arg);
                if let Some(types) = ret_types {
                    let n = *n as usize;
                    if n < types.len() {
                        if let Some(symbol) = types[n] {
                            match arg {
                                IRArg::Link(t, _) => {
                                    out.push(SymbolConstraint::EqualSymbol(*t, symbol));
                                },
                                IRArg::Constant(_) => {
                                    out.push(SymbolConstraint::EqualSymbol(i as u32, symbol));
                                },
                            }
                        }
                    }
                }
            },
            IRNode::BinOp(l, _, r) => {
                assert(node.args()[0] == *l && node.args()[1] == *r);
                if let IRArg::Link(a, _) = l {
                    if let IRArg::Link(b, _) = r {
                        out.push(SymbolConstraint::NotEqual(*a, *b));
                    }
                }
            },
            IRNode::BinOpCmpGate(l, _, _, gated) => {
                assert(node.args()[0] == *l && node.args()[1] == *gated);
                if let IRArg::Link(a, _) = l {
                    if let IRArg::Link(b, _) = gated {
                        out.push(SymbolConstraint::NotEqual(*a, *b));
                        out.push(SymbolConstraint::Equal(*b, i as u32));
                    }
                }
            },
            IRNode::MultiDriver(args) => {
                let mut k: usize = 0;
                assert(before + driver_constraints(args@, i as int, 0) =~= before);
                while k < args.len()
                    invariant
                        k <= args.len(),
                        i < nodes.len(),
                        nodes@.len() <= u32::MAX,
                        node == Node::MultiDriver(args@),
                        node.links_in_range(nodes@.len()),
                        out@ == before + driver_constraints(args@, i as int, k as int),
                        constraints_in_range(out@, nodes@.len()),
                    decreases args.len() - k,
                {
                    assert(node.args()[k as int] == args@[k as int]);
                    if let IRArg::Link(t, _) = args[k] {
                        out.push(SymbolConstraint::Equal(t, i as u32));
                    }
                    assert(out@ =~= before + driver_constraints(args@, i as int, k + 1));
                    k = k + 1;
                }
            },
            IRNode::Gate(_, _, _) => {
                return Err(CompileError::EmitInvalid);
            },
            IRNode::PlaceHolder => {
                return Err(CompileError::EmitInvalid);
            },
            _ => {},
        }
        assert(out@ =~= before + node_constraints(node, i as int, arg_types@, rt));
        i = i + 1;
    }
    Ok(out)
}

impl IRModule {
    /// The symbol constraints of the module.
    pub open spec fn constraints(&self) -> Seq<SymbolConstraint> {
        constraints_upto(
            self.graph(),
            self.arg_types@,
            returns_of(self.ret_types),
            self.nodes@.len() as int,
        )
    }

    /// Chooses the symbol that each node puts out, so that every constraint
    /// of the module holds.
    ///
    /// The result is `EmitInvalid` where a gate or an empty slot is left in
    /// the graph; `TypeConflict` where the constraints contradict each
    /// other; else the symbols are those of `solution`, or `Limit` where it
    /// has none.
    pub fn select_symbols(&mut self) -> (r: Result<(), CompileError>)
        requires
            old(self).wf(),
        ensures
            final(self).same_program(old(self)),
            final(self).grid == old(self).grid,
            final(self).links == old(self).links,
            r == Err::<(), CompileError>(CompileError::EmitInvalid) <==> has_unlowered(
                old(self).graph(),
            ),
            !has_unlowered(old(self).graph()) ==> {
                let cs = old(self).constraints();
                let n = old(self).nodes@.len();
                &&& r == Err::<(), CompileError>(CompileError::TypeConflict) <==> clash(cs, n)
                &&& !clash(cs, n) ==> match solution(cs, n) {
                    Some(symbols) => r is Ok && final(self).out_symbols@ == symbols,
                    None => r == Err::<(), CompileError>(CompileError::Limit),
                }
            },
            r is Ok ==> final(self).out_symbols@.len() == final(self).nodes@.len() && satisfies(
                final(self).out_symbols@,
                final(self).constraints(),
            ),
            r is Err ==> final(self).out_symbols == old(self).out_symbols,
    {
        let constraints = match symbol_constraints(&self.nodes, &self.arg_types, &self.ret_types) {
            Err(e) => {
                return Err(e);
            },
            Ok(constraints) => constraints,
        };
        match solve_symbols(self.nodes.len(), &constraints) {
            Err(e) => Err(e),
            Ok(symbols) => {
                self.out_symbols = symbols;
                Ok(())
            },
        }
    }
}

} // verus!
