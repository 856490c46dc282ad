use vstd::prelude::*;

verus! {

/// A partition of `0..len` into disjoint sets, each named by one of its
/// members. Lookups shorten the paths they walk.
pub struct DisjointSet {
    parent: Vec<usize>,
    rank: Ghost<Seq<nat>>,
}

impl DisjointSet {
    /// The number of elements.
    pub closed spec fn spec_len(&self) -> nat {
        self.parent@.len()
    }

    /// Every parent is an element, and the rank falls along each parent step.
    pub closed spec fn wf(&self) -> bool {
        &&& self.rank@.len() == self.parent@.len()
        &&& forall|i: int|
            0 <= i < self.parent@.len() ==> {
                &&& 0 <= #[trigger] self.parent@[i] < self.parent@.len()
                &&& (self.parent@[i] != i ==> self.rank@[self.parent@[i] as int] < self.rank@[i])
            }
    }

    /// A bound on the number of parent steps from `i` to the name of its set.
    pub closed spec fn height(&self, i: int) -> nat {
        self.rank@[i]
    }

    /// The member that names the set of `i`.
    pub closed spec fn find(&self, i: int) -> int
        decreases self.height(i),
        when self.wf() && 0 <= i < self.spec_len()
    {
        if self.parent@[i] == i {
            i
        } else {
            self.find(self.parent@[i] as int)
        }
    }

    /// How many of the first `upto` elements name their own set.
    pub open spec fn count_roots(&self, upto: int) -> nat
        decreases upto,
    {
        if upto <= 0 {
            0
        } else {
            self.count_roots(upto - 1) + if self.find(upto - 1) == upto - 1 {
                1nat
            } else {
                0nat
            }
        }
    }

    /// The number of sets in the partition.
    pub open spec fn spec_count_sets(&self) -> nat {
        self.count_roots(self.spec_len() as int)
    }

    /// The name of a set is a member of it and names itself.
    pub proof fn lemma_find_is_member(&self, i: int)
        requires
            self.wf(),
            0 <= i < self.spec_len(),
        ensures
            0 <= self.find(i) < self.spec_len(),
            self.find(self.find(i)) == self.find(i),
    {
        self.lemma_find_root(i);
    }

    proof fn lemma_find_root(&self, i: int)
        requires
            self.wf(),
            0 <= i < self.parent@.len(),
        ensures
            0 <= self.find(i) < self.parent@.len(),
            self.parent@[self.find(i)] == self.find(i),
            self.find(self.find(i)) == self.find(i),
            self.rank@[self.find(i)] <= self.rank@[i],
            self.parent@[i] != i ==> self.rank@[self.find(i)] < self.rank@[i],
        decreases self.rank@[i],
    {
        if self.parent@[i] != i {
            self.lemma_find_root(self.parent@[i] as int);
        }
    }

    /// `after` is `self` with the parent of `i` set to the name of its set:
    /// no element changes its set.
    proof fn lemma_shortcut_keeps_sets(&self, after: &DisjointSet, i: int, j: int)
        requires
            self.wf(),
            after.wf(),
            0 <= i < self.parent@.len(),
            0 <= j < self.parent@.len(),
            after.rank@ == self.rank@,
            after.parent@ == self.parent@.update(i, self.find(i) as usize),
        ensures
            after.find(j) == self.find(j),
        decreases self.rank@[j],
    {
        self.lemma_find_root(i);
        let r = self.find(i);
        if j == i {
            if self.parent@[i] != i {
                assert(after.parent@[i] == r);
                if r != i {
                    self.lemma_shortcut_keeps_sets(after, i, r);
                    assert(after.find(r) == self.find(r));
                }
            }
        } else if self.parent@[j] != j {
            self.lemma_shortcut_keeps_sets(after, i, self.parent@[j] as int);
        }
    }

    /// `after` is `self` with the root `ra` hung below the root `rb`: the set
    /// of `ra` joins that of `rb`, and no other element changes its set.
    proof fn lemma_link_joins_sets(&self, after: &DisjointSet, ra: int, rb: int, j: int)
        requires
            self.wf(),
            after.wf(),
            0 <= ra < self.parent@.len(),
            0 <= rb < self.parent@.len(),
            0 <= j < self.parent@.len(),
            ra != rb,
            self.parent@[ra] == ra,
            self.parent@[rb] == rb,
            after.parent@ == self.parent@.update(ra, rb as usize),
        ensures
            after.find(j) == if self.find(j) == ra {
                rb
            } else {
                self.find(j)
            },
        decreases self.rank@[j],
    {
        if j == ra {
            assert(after.parent@[rb] == rb);
            assert(after.find(rb) == rb);
            assert(after.find(ra) == after.find(rb));
        } else if self.parent@[j] != j {
            self.lemma_link_joins_sets(after, ra, rb, self.parent@[j] as int);
        }
    }

    /// There are no more sets than elements.
    pub proof fn lemma_count_bound(&self, upto: int)
        requires
            0 <= upto,
        ensures
            self.count_roots(upto) <= upto,
        decreases upto,
    {
        if upto > 0 {
            self.lemma_count_bound(upto - 1);
        }
    }

    /// Two partitions that name every set alike have as many sets.
    pub proof fn lemma_count_by_names(&self, other: &DisjointSet, upto: int)
        requires
            forall|i: int| 0 <= i < upto ==> self.find(i) == other.find(i),
        ensures
            self.count_roots(upto) == other.count_roots(upto),
        decreases upto,
    {
        if upto > 0 {
            self.lemma_count_by_names(other, upto - 1);
        }
    }

    /// `after` names the sets as `self` does, but for the set named `ra`,
    /// which it names `rb`: below `upto` it has one name less where `ra` is
    /// below `upto`.
    proof fn lemma_count_after_join(&self, after: &DisjointSet, ra: int, rb: int, upto: int)
        requires
            ra != rb,
            self.find(ra) == ra,
            self.find(rb) == rb,
            0 <= ra,
            forall|j: int|
                0 <= j < upto ==> after.find(j) == if self.find(j) == ra {
                    rb
                } else {
                    self.find(j)
                },
        ensures
            after.count_roots(upto) + (if ra < upto {
                1nat
            } else {
                0nat
            }) == self.count_roots(upto),
        decreases upto,
    {
        if upto > 0 {
            self.lemma_count_after_join(after, ra, rb, upto - 1);
        }
    }

    /// A name below `upto` is counted.
    proof fn lemma_root_counted(&self, r: int, upto: int)
        requires
            0 <= r < upto,
            self.find(r) == r,
        ensures
            self.count_roots(upto) >= 1,
        decreases upto,
    {
        if r < upto - 1 {
            self.lemma_root_counted(r, upto - 1);
        }
    }

    /// Two names below `upto` are counted twice.
    proof fn lemma_two_roots_counted(&self, r1: int, r2: int, upto: int)
        requires
            0 <= r1 < r2 < upto,
            self.find(r1) == r1,
            self.find(r2) == r2,
        ensures
            self.count_roots(upto) >= 2,
        decreases upto,
    {
        if r2 < upto - 1 {
            self.lemma_two_roots_counted(r1, r2, upto - 1);
        } else {
            self.lemma_root_counted(r1, upto - 1);
        }
    }

    /// Where two are counted, two names exist.
    proof fn lemma_two_counted_roots(&self, upto: int) -> (r: (int, int))
        requires
            self.count_roots(upto) >= 2,
        ensures
            0 <= r.0 < r.1 < upto,
            self.find(r.0) == r.0,
            self.find(r.1) == r.1,
        decreases upto,
    {
        if upto <= 0 {
            (0, 0)
        } else if self.count_roots(upto - 1) >= 2 {
            self.lemma_two_counted_roots(upto - 1)
        } else {
            let first = self.lemma_one_counted_root(upto - 1);
            (first, upto - 1)
        }
    }

    proof fn lemma_one_counted_root(&self, upto: int) -> (r: int)
        requires
            self.count_roots(upto) >= 1,
        ensures
            0 <= r < upto,
            self.find(r) == r,
        decreases upto,
    {
        if upto <= 0 {
            0
        } else if self.find(upto - 1) == upto - 1 {
            upto - 1
        } else {
            self.lemma_one_counted_root(upto - 1)
        }
    }

    /// Where the count of sets is one, all elements lie in one set.
    pub proof fn lemma_one_set(&self, i: int, j: int)
        requires
            self.wf(),
            self.spec_count_sets() == 1,
            0 <= i < self.spec_len(),
            0 <= j < self.spec_len(),
        ensures
            self.find(i) == self.find(j),
    {
        self.lemma_find_root(i);
        self.lemma_find_root(j);
        let a = self.find(i);
        let b = self.find(j);
        if a < b {
            self.lemma_two_roots_counted(a, b, self.spec_len() as int);
        } else if b < a {
            self.lemma_two_roots_counted(b, a, self.spec_len() as int);
        }
    }

    /// Where there are elements and the count of sets is not one, two
    /// elements lie in different sets.
    pub proof fn lemma_many_sets(&self) -> (r: (int, int))
        requires
            self.wf(),
            self.spec_len() >= 1,
            self.spec_count_sets() != 1,
        ensures
            0 <= r.0 < self.spec_len(),
            0 <= r.1 < self.spec_len(),
            self.find(r.0) != self.find(r.1),
    {
        self.lemma_find_root(0);
        self.lemma_root_counted(self.find(0), self.spec_len() as int);
        self.lemma_two_counted_roots(self.spec_len() as int)
    }

    /// A partition of `size` elements in which each element is alone.
    pub fn new(size: usize) -> (r: Self)
        ensures
            r.wf(),
            r.spec_len() == size,
            forall|i: int| 0 <= i < size ==> r.find(i) == i,
    {
        let mut parent: Vec<usize> = Vec::with_capacity(size);
        let mut i: usize = 0;
        while i < size
            invariant
                i <= size,
                parent@.len() == i,
                forall|k: int| 0 <= k < i ==> parent@[k] == k,
            decreases size - i,
        {
            parent.push(i);
            i = i + 1;
        }
        DisjointSet { parent, rank: Ghost(Seq::new(size as nat, |k: int| 0nat)) }
    }

    /// The number of elements.
    pub fn len(&self) -> (r: usize)
        ensures
            r == self.spec_len(),
    {
        self.parent.len()
    }

    fn get_inner(&mut self, i: usize) -> (r: usize)
        requires
            old(self).wf(),
            i < old(self).parent@.len(),
        ensures
            final(self).wf(),
            final(self).parent@.len() == old(self).parent@.len(),
            final(self).rank@ == old(self).rank@,
            r == old(self).find(i as int),
            forall|j: int|
                0 <= j < old(self).parent@.len() ==> final(self).find(j) == old(self).find(j),
        decreases old(self).rank@[i as int],
    {
        let p = self.parent[i];
        if p == i {
            i
        } else {
            let r = self.get_inner(p);
            let ghost mid = *self;
            proof {
                mid.lemma_find_root(i as int);
                mid.lemma_find_root(p as int);
                assert(mid.find(i as int) == old(self).find(i as int));
                assert(old(self).find(i as int) == old(self).find(p as int));
            }
            self.parent[i] = r;
            proof {
                assert(self.parent@ == mid.parent@.update(i as int, r));
                assert(self.wf());
                assert forall|j: int| 0 <= j < old(self).parent@.len() implies self.find(j) == old(
                    self,
                ).find(j) by {
                    mid.lemma_shortcut_keeps_sets(self, i as int, j);
                }
            }
            r
        }
    }

    /// The name of the set of `i`. The partition stays as it is.
    pub fn get(&mut self, i: usize) -> (r: usize)
        requires
            old(self).wf(),
            i < old(self).spec_len(),
        ensures
            final(self).wf(),
            final(self).spec_len() == old(self).spec_len(),
            r == old(self).find(i as int),
            r < old(self).spec_len(),
            forall|j: int|
                0 <= j < old(self).spec_len() ==> final(self).find(j) == old(self).find(j),
            final(self).spec_count_sets() == old(self).spec_count_sets(),
    {
        proof {
            self.lemma_find_root(i as int);
        }
        let r = self.get_inner(i);
        proof {
            self.lemma_count_by_names(old(self), self.spec_len() as int);
        }
        r
    }

    /// Joins the set of `a` into the set of `b`.
    pub fn merge(&mut self, a: usize, b: usize)
        requires
            old(self).wf(),
            a < old(self).spec_len(),
            b < old(self).spec_len(),
        ensures
            final(self).wf(),
            final(self).spec_len() == old(self).spec_len(),
            forall|j: int|
                0 <= j < old(self).spec_len() ==> final(self).find(j) == if old(self).find(j)
                    == old(self).find(a as int) {
                    old(self).find(b as int)
                } else {
                    old(self).find(j)
                },
            final(self).spec_count_sets() + (if old(self).find(a as int) != old(self).find(
                b as int,
            ) {
                1nat
            } else {
                0nat
            }) == old(self).spec_count_sets(),
    {
        let ra = self.get_inner(a);
        let rb = self.get_inner(b);
        let ghost mid = *self;
        proof {
            old(self).lemma_find_root(a as int);
            old(self).lemma_find_root(b as int);
            mid.lemma_find_root(a as int);
            mid.lemma_find_root(b as int);
        }
        if ra != rb {
            self.parent[ra] = rb;
            proof {
                let bump = mid.rank@[rb as int] + 1;
                self.rank@ = Seq::new(
                    mid.rank@.len(),
                    |k: int|
                        if mid.find(k) == ra {
                            mid.rank@[k] + bump
                        } else {
                            mid.rank@[k]
                        },
                );
                assert forall|k: int| 0 <= k < self.parent@.len() implies {
                    &&& 0 <= #[trigger] self.parent@[k] < self.parent@.len()
                    &&& (self.parent@[k] != k ==> self.rank@[self.parent@[k] as int]
                        < self.rank@[k])
                } by {
                    if k != ra && mid.parent@[k] != k {
                        assert(mid.find(k) == mid.find(mid.parent@[k] as int));
                    }
                }
                assert(self.wf());
                assert forall|j: int| 0 <= j < old(self).spec_len() implies self.find(j) == if old(
                    self,
                ).find(j) == old(self).find(a as int) {
                    old(self).find(b as int)
                } else {
                    old(self).find(j)
                } by {
                    mid.lemma_link_joins_sets(self, ra as int, rb as int, j);
                }
                old(self).lemma_count_after_join(self, ra as int, rb as int, self.spec_len() as int);
            }
        } else {
            proof {
                self.lemma_count_by_names(old(self), self.spec_len() as int);
            }
        }
    }

    /// The number of sets.
    pub fn count_sets(&self) -> (r: u32)
        requires
            self.wf(),
            self.spec_len() <= u32::MAX,
        ensures
            r == self.spec_count_sets(),
    {
        let mut count: u32 = 0;
        let mut i: usize = 0;
        while i < self.parent.len()
            invariant
                self.wf(),
                i <= self.parent@.len() <= u32::MAX,
                count == self.count_roots(i as int),
                count <= i,
            decreases self.parent@.len() - i,
        {
            if self.parent[i] == i {
                count = count + 1;
            } else {
                proof {
                    self.lemma_find_root(i as int);
                }
            }
            i = i + 1;
        }
        count
    }
}

} // verus!
