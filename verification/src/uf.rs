//! A minimal union-find over dense node numbers, with path halving.
//!
//! Its meaning is the root each node reaches by following parents; a ghost
//! rank that strictly grows along every parent link shows that the walk
//! always ends.

use vstd::prelude::*;

verus! {

/// Parents stay in range and every non-root link climbs to a strictly
/// higher rank, all ranks bounded by `b`.
pub open spec fn uf_inv(p: Seq<usize>, rank: Seq<nat>, b: nat) -> bool {
    &&& rank.len() == p.len()
    &&& forall|x: int|
        0 <= x < p.len() ==> {
            &&& (#[trigger] p[x] as int) < p.len()
            &&& rank[x] <= b
            &&& (p[x] as int != x ==> rank[p[x] as int] > rank[x])
        }
}

/// Follow parent links at most `f` times.
pub open spec fn root_fuel(p: Seq<usize>, x: int, f: nat) -> int
    decreases f,
{
    if f == 0 {
        x
    } else if p[x] as int == x {
        x
    } else {
        root_fuel(p, p[x] as int, (f - 1) as nat)
    }
}

/// The root of `x`: with ranks bounded by `b`, `b + 1` steps always suffice.
pub open spec fn root_of(p: Seq<usize>, b: nat, x: int) -> int {
    root_fuel(p, x, b + 1)
}

/// Any fuel past the rank distance reaches the same node, and it is a root.
pub proof fn lemma_root_fuel(p: Seq<usize>, rank: Seq<nat>, b: nat, x: int, f1: nat, f2: nat)
    requires
        uf_inv(p, rank, b),
        0 <= x < p.len(),
        f1 >= b + 1 - rank[x],
        f2 >= b + 1 - rank[x],
    ensures
        root_fuel(p, x, f1) == root_fuel(p, x, f2),
        0 <= root_fuel(p, x, f1) < p.len(),
        p[root_fuel(p, x, f1)] as int == root_fuel(p, x, f1),
    decreases b + 1 - rank[x],
{
    assert((p[x] as int) < p.len());
    if p[x] as int != x {
        let px = p[x] as int;
        assert((p[px] as int) < p.len());
        assert(rank[px] > rank[x]);
        assert(rank[px] <= b);
        lemma_root_fuel(p, rank, b, px, (f1 - 1) as nat, (f2 - 1) as nat);
    }
}

/// The root of a non-root is the root of its parent.
pub proof fn lemma_root_step(p: Seq<usize>, rank: Seq<nat>, b: nat, x: int)
    requires
        uf_inv(p, rank, b),
        0 <= x < p.len(),
    ensures
        0 <= root_of(p, b, x) < p.len(),
        p[root_of(p, b, x)] as int == root_of(p, b, x),
        p[x] as int == x ==> root_of(p, b, x) == x,
        p[x] as int != x ==> root_of(p, b, x) == root_of(p, b, p[x] as int),
{
    lemma_root_fuel(p, rank, b, x, b + 1, b + 1);
    assert((p[x] as int) < p.len());
    if p[x] as int != x {
        let px = p[x] as int;
        assert(rank[px] >= 1);
        lemma_root_fuel(p, rank, b, px, b, b + 1);
    }
}

/// Path halving keeps the invariant and every node's root.
pub proof fn lemma_halving(p: Seq<usize>, rank: Seq<nat>, b: nat, x: int, y: int)
    requires
        uf_inv(p, rank, b),
        0 <= x < p.len(),
        0 <= y < p.len(),
    ensures
        uf_inv(p.update(x, p[p[x] as int]), rank, b),
        root_of(p.update(x, p[p[x] as int]), b, y) == root_of(p, b, y),
    decreases b + 1 - rank[y],
{
    let q = p.update(x, p[p[x] as int]);
    assert((p[x] as int) < p.len());
    let px = p[x] as int;
    assert((p[px] as int) < p.len());
    assert forall|z: int| 0 <= z < q.len() implies {
        &&& (#[trigger] q[z] as int) < q.len()
        &&& rank[z] <= b
        &&& (q[z] as int != z ==> rank[q[z] as int] > rank[z])
    } by {
        assert((p[z] as int) < p.len());
        if z == x {
            if px != x {
                assert(rank[px] > rank[x]);
                if p[px] as int != px {
                    assert(rank[p[px] as int] > rank[px]);
                }
            }
        }
    }
    lemma_root_step(q, rank, b, y);
    lemma_root_step(p, rank, b, y);
    assert((p[y] as int) < p.len());
    if q[y] as int != y {
        let qy = q[y] as int;
        assert(rank[qy] > rank[y]);
        lemma_halving(p, rank, b, x, qy);
        if y == x {
            lemma_root_step(p, rank, b, px);
            if px != x {
                if p[px] as int == px {
                    assert(qy == px);
                } else {
                }
            }
        }
    } else {
        if y == x {
            assert(p[px] as int == x);
            if px != x {
                assert(rank[px] > rank[x]);
                assert(rank[p[px] as int] > rank[px]);
                assert(false);
            }
        }
    }
}

/// Linking root `ra` under root `rb` (with `rb`'s rank raised above
/// `ra`'s) sends every node of `ra`'s tree to `rb` and leaves others alone.
pub proof fn lemma_link(p: Seq<usize>, rank: Seq<nat>, b: nat, ra: int, rb: int, y: int)
    requires
        uf_inv(p, rank, b),
        0 <= ra < p.len(),
        0 <= rb < p.len(),
        0 <= y < p.len(),
        ra != rb,
        p[ra] as int == ra,
        p[rb] as int == rb,
    ensures
        ({
            let q = p.update(ra, rb as usize);
            let rank2 = rank.update(rb, if rank[rb] > rank[ra] { rank[rb] } else { rank[ra] + 1 });
            &&& uf_inv(q, rank2, b + 1)
            &&& root_of(q, b + 1, y) == if root_of(p, b, y) == ra {
                rb
            } else {
                root_of(p, b, y)
            }
        }),
    decreases b + 1 - rank[y],
{
    let q = p.update(ra, rb as usize);
    let rank2 = rank.update(rb, if rank[rb] > rank[ra] { rank[rb] } else { rank[ra] + 1 });
    assert forall|z: int| 0 <= z < q.len() implies {
        &&& (#[trigger] q[z] as int) < q.len()
        &&& rank2[z] <= b + 1
        &&& (q[z] as int != z ==> rank2[q[z] as int] > rank2[z])
    } by {
        assert((p[z] as int) < p.len());
        assert(rank[z] <= b);
    }
    lemma_root_step(q, rank2, b + 1, y);
    lemma_root_step(p, rank, b, y);
    assert((p[y] as int) < p.len());
    if y == ra {
        lemma_root_step(q, rank2, b + 1, rb);
    } else if p[y] as int != y {
        let py = p[y] as int;
        assert(rank[py] > rank[y]);
        lemma_link(p, rank, b, ra, rb, py);
    }
}

/// A disjoint-set forest over `0..n`.
pub struct UnionFind {
    parent: Vec<usize>,
    rank: Ghost<Seq<nat>>,
    bound: Ghost<nat>,
}

impl UnionFind {
    pub closed spec fn parents(&self) -> Seq<usize> {
        self.parent@
    }

    pub closed spec fn inv(&self) -> bool {
        uf_inv(self.parent@, self.rank@, self.bound@)
    }

    pub closed spec fn len_spec(&self) -> nat {
        self.parent@.len()
    }

    /// The representative of `x`'s set.
    pub closed spec fn root(&self, x: int) -> int {
        root_of(self.parent@, self.bound@, x)
    }

    /// Roots are members and are their own roots.
    pub proof fn lemma_root(&self, x: int)
        requires
            self.inv(),
            0 <= x < self.len_spec(),
        ensures
            0 <= self.root(x) < self.len_spec(),
            self.root(self.root(x)) == self.root(x),
    {
        lemma_root_step(self.parent@, self.rank@, self.bound@, x);
        lemma_root_step(self.parent@, self.rank@, self.bound@, self.root(x));
    }

    /// `n` singleton sets.
    pub fn new(n: usize) -> (uf: Self)
        ensures
            uf.inv(),
            uf.len_spec() == n,
            forall|x: int| 0 <= x < n ==> #[trigger] uf.root(x) == x,
    {
        let mut parent: Vec<usize> = Vec::new();
        let mut i: usize = 0;
        while i < n
            invariant
                i <= n,
                parent@.len() == i,
                forall|j: int| 0 <= j < i ==> parent@[j] == j,
            decreases n - i,
        {
            parent.push(i);
            i += 1;
        }
        let uf = UnionFind { parent, rank: Ghost(Seq::new(n as nat, |j: int| 0nat)), bound: Ghost(0) };
        proof {
            assert forall|x: int| 0 <= x < n implies #[trigger] uf.root(x) == x by {
                lemma_root_step(uf.parent@, uf.rank@, uf.bound@, x);
            }
        }
        uf
    }

    /// The representative of `x`'s set; halves the path on the way. No
    /// node changes sets.
    pub fn find(&mut self, x: usize) -> (r: usize)
        requires
            old(self).inv(),
            x < old(self).len_spec(),
        ensures
            final(self).inv(),
            final(self).len_spec() == old(self).len_spec(),
            r as int == old(self).root(x as int),
            forall|y: int| 0 <= y < old(self).len_spec() ==> #[trigger] final(self).root(y) == old(self).root(y),
    {
        let mut x = x;
        let ghost x0 = x as int;
        proof {
            lemma_root_step(self.parent@, self.rank@, self.bound@, x as int);
        }
        while self.parent[x] != x
            invariant
                self.inv(),
                self.len_spec() == old(self).len_spec(),
                self.bound@ == old(self).bound@,
                self.rank@ == old(self).rank@,
                x < self.len_spec(),
                self.root(x as int) == old(self).root(x0),
                forall|y: int| 0 <= y < old(self).len_spec() ==> #[trigger] self.root(y) == old(self).root(y),
            decreases self.bound@ + 1 - self.rank@[x as int],
        {
            let ghost p = self.parent@;
            proof {
                assert((p[x as int] as int) < p.len());
                assert((p[p[x as int] as int] as int) < p.len());
                assert forall|y: int| 0 <= y < p.len() implies #[trigger] root_of(p.update(x as int, p[p[x as int] as int]), self.bound@, y) == root_of(p, self.bound@, y) by {
                    lemma_halving(p, self.rank@, self.bound@, x as int, y);
                }
                lemma_halving(p, self.rank@, self.bound@, x as int, 0);
                lemma_root_step(p, self.rank@, self.bound@, x as int);
                lemma_root_step(p, self.rank@, self.bound@, p[x as int] as int);
                assert forall|y: int| 0 <= y < p.len() implies #[trigger] root_of(p, self.bound@, y) == old(self).root(y) by {
                    assert(self.root(y) == old(self).root(y));
                }
            }
            let gp = self.parent[self.parent[x]];
            self.parent.set(x, gp);
            proof {
                assert(self.parent@ == p.update(x as int, p[p[x as int] as int]));
                assert forall|y: int| 0 <= y < old(self).len_spec() implies #[trigger] self.root(y) == old(self).root(y) by {
                    lemma_halving(p, self.rank@, self.bound@, x as int, y);
                    assert(root_of(p, self.bound@, y) == old(self).root(y));
                }
                let px = p[x as int] as int;
                assert(self.rank@[px] > self.rank@[x as int]);
                if p[px] as int != px {
                    assert(self.rank@[p[px] as int] > self.rank@[px]);
                }
            }
            x = self.parent[x];
        }
        proof {
            lemma_root_step(self.parent@, self.rank@, self.bound@, x as int);
        }
        x
    }

    /// Merge the sets of `a` and `b`: every node of `a`'s set joins `b`'s.
    pub fn union(&mut self, a: usize, b: usize)
        requires
            old(self).inv(),
            a < old(self).len_spec(),
            b < old(self).len_spec(),
        ensures
            final(self).inv(),
            final(self).len_spec() == old(self).len_spec(),
            forall|y: int|
                0 <= y < old(self).len_spec() ==> #[trigger] final(self).root(y) == if old(self).root(y)
                    == old(self).root(a as int) {
                    old(self).root(b as int)
                } else {
                    old(self).root(y)
                },
    {
        let ghost s0 = *self;
        let ra = self.find(a);
        let ghost s1 = *self;
        let rb = self.find(b);
        proof {
            assert forall|y: int| 0 <= y < s0.len_spec() implies #[trigger] self.root(y) == s0.root(y) by {
                assert(self.root(y) == s1.root(y));
                assert(s1.root(y) == s0.root(y));
            }
        }
        proof {
            self.lemma_root(a as int);
            self.lemma_root(b as int);
            lemma_root_step(self.parent@, self.rank@, self.bound@, ra as int);
            lemma_root_step(self.parent@, self.rank@, self.bound@, rb as int);
        }
        let ghost s2 = *self;
        proof {
            assert(s1.root(b as int) == s0.root(b as int));
        }
        if ra != rb {
            let ghost p = self.parent@;
            let ghost rank = self.rank@;
            let ghost bd = self.bound@;
            self.parent.set(ra, rb);
            proof {
                let rank2 = rank.update(rb as int, if rank[rb as int] > rank[ra as int] { rank[rb as int] } else { rank[ra as int] + 1 });
                self.rank = Ghost(rank2);
                self.bound = Ghost(bd + 1);
                assert(self.parent@ == p.update(ra as int, rb));
                assert forall|y: int| 0 <= y < p.len() implies #[trigger] self.root(y) == if root_of(p, bd, y) == ra as int {
                    rb as int
                } else {
                    root_of(p, bd, y)
                } by {
                    lemma_link(p, rank, bd, ra as int, rb as int, y);
                    assert(s2.root(y) == s0.root(y));
                }
                lemma_link(p, rank, bd, ra as int, rb as int, 0);
                assert forall|y: int| 0 <= y < s0.len_spec() implies #[trigger] self.root(y) == if s0.root(y) == s0.root(a as int) {
                    s0.root(b as int)
                } else {
                    s0.root(y)
                } by {
                    lemma_link(p, rank, bd, ra as int, rb as int, y);
                    assert(s2.root(y) == s0.root(y));
                }
            }
        } else {
            proof {
                assert forall|y: int| 0 <= y < s0.len_spec() implies #[trigger] self.root(y) == if s0.root(y) == s0.root(a as int) {
                    s0.root(b as int)
                } else {
                    s0.root(y)
                } by {
                }
            }
        }
    }
}

} // verus!
