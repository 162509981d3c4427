//! Disjoint sets over grid cells, each set carrying a liberty counter.
//!
//! Every node has a parent link; following the links ends at the set's root,
//! which holds the set's size and liberty count. A ghost rank that strictly
//! grows along every parent link proves that the walk to the root ends.
use vstd::prelude::*;

verus! {

/// Liberty count of a fresh or reset node: one per cardinal neighbour.
pub const DEFAULT_LIBERTIES: usize = 4;

/// `parent` is a forest: every link stays in range and climbs in `rank`,
/// and no rank exceeds `max_rank`.
pub open spec fn forest_wf(parent: Seq<usize>, rank: Seq<nat>, max_rank: nat) -> bool {
    &&& rank.len() == parent.len()
    &&& forall|i: int| 0 <= i < parent.len() ==> (#[trigger] parent[i] as int) < parent.len()
    &&& forall|i: int| 0 <= i < rank.len() ==> #[trigger] rank[i] <= max_rank
    &&& forall|i: int|
        0 <= i < parent.len() && #[trigger] parent[i] != i ==> rank[i] < rank[parent[i] as int]
}

/// The root reached from `i` by following parent links.
pub open spec fn root_of(parent: Seq<usize>, rank: Seq<nat>, max_rank: nat, i: int) -> int
    decreases max_rank - rank[i],
{
    if 0 <= i < parent.len() && i < rank.len() && parent[i] != i && (parent[i] as int)
        < rank.len() && rank[i] < rank[parent[i] as int] && rank[parent[i] as int] <= max_rank {
        root_of(parent, rank, max_rank, parent[i] as int)
    } else {
        i
    }
}

/// `l + delta`, held within `0 ..= usize::MAX`.
pub open spec fn add_signed_sat(l: usize, delta: isize) -> usize {
    if l + delta < 0 {
        0
    } else if l + delta > usize::MAX {
        usize::MAX
    } else {
        (l + delta) as usize
    }
}

/// `a + b`, held at `usize::MAX`.
pub open spec fn add_sat(a: usize, b: usize) -> usize {
    if a + b > usize::MAX {
        usize::MAX
    } else {
        (a + b) as usize
    }
}

/// `a - 1`, held at zero.
pub open spec fn dec_sat(a: usize) -> usize {
    if a == 0 {
        0
    } else {
        (a - 1) as usize
    }
}

/// The root of `i` is a root, lies in range, and outranks `i` unless it is `i`.
pub proof fn lemma_root_facts(parent: Seq<usize>, rank: Seq<nat>, max_rank: nat, i: int)
    requires
        forest_wf(parent, rank, max_rank),
        0 <= i < parent.len(),
    ensures
        0 <= root_of(parent, rank, max_rank, i) < parent.len(),
        parent[root_of(parent, rank, max_rank, i)] == root_of(parent, rank, max_rank, i),
        root_of(parent, rank, max_rank, i) != i ==> rank[i] < rank[root_of(
            parent,
            rank,
            max_rank,
            i,
        )],
        parent[i] != i ==> root_of(parent, rank, max_rank, i) == root_of(
            parent,
            rank,
            max_rank,
            parent[i] as int,
        ),
        parent[i] == i ==> root_of(parent, rank, max_rank, i) == i,
    decreases max_rank - rank[i],
{
    let p = parent[i] as int;
    if p != i {
        assert(rank[i] < rank[p] && rank[p] <= max_rank);
        lemma_root_facts(parent, rank, max_rank, p);
    }
}

/// Pointing `x` straight at its root keeps the forest and every root.
proof fn lemma_compress(parent: Seq<usize>, rank: Seq<nat>, max_rank: nat, x: int)
    requires
        forest_wf(parent, rank, max_rank),
        0 <= x < parent.len(),
    ensures
        forest_wf(
            parent.update(x, root_of(parent, rank, max_rank, x) as usize),
            rank,
            max_rank,
        ),
        forall|i: int|
            0 <= i < parent.len() ==> #[trigger] root_of(
                parent.update(x, root_of(parent, rank, max_rank, x) as usize),
                rank,
                max_rank,
                i,
            ) == root_of(parent, rank, max_rank, i),
{
    let r = root_of(parent, rank, max_rank, x);
    lemma_root_facts(parent, rank, max_rank, x);
    let linked = parent.update(x, r as usize);
    assert forall|i: int| 0 <= i < parent.len() && #[trigger] linked[i] != i implies rank[i] < rank[linked[i] as int] by {
        if i != x {
            assert(linked[i] == parent[i]);
        }
    }
    assert forall|i: int| 0 <= i < parent.len() implies (#[trigger] linked[i] as int) < parent.len() by {
    }
    assert forall|i: int| 0 <= i < parent.len() implies #[trigger] root_of(linked, rank, max_rank, i)
        == root_of(parent, rank, max_rank, i) by {
        lemma_compress_root(parent, rank, max_rank, x, i);
    }
}

proof fn lemma_compress_root(parent: Seq<usize>, rank: Seq<nat>, max_rank: nat, x: int, i: int)
    requires
        forest_wf(parent, rank, max_rank),
        0 <= x < parent.len(),
        0 <= i < parent.len(),
        forest_wf(
            parent.update(x, root_of(parent, rank, max_rank, x) as usize),
            rank,
            max_rank,
        ),
    ensures
        root_of(parent.update(x, root_of(parent, rank, max_rank, x) as usize), rank, max_rank, i)
            == root_of(parent, rank, max_rank, i),
    decreases max_rank - rank[i],
{
    let r = root_of(parent, rank, max_rank, x);
    let linked = parent.update(x, r as usize);
    lemma_root_facts(parent, rank, max_rank, x);
    lemma_root_facts(parent, rank, max_rank, i);
    lemma_root_facts(linked, rank, max_rank, i);
    if i == x {
        if r != x {
            lemma_root_facts(linked, rank, max_rank, r);
            assert(linked[r] == parent[r]);
        }
    } else {
        assert(linked[i] == parent[i]);
        if parent[i] != i {
            lemma_compress_root(parent, rank, max_rank, x, parent[i] as int);
        }
    }
}

/// Hanging root `l` under root `w` (raising `w`'s rank above `l`'s) keeps a
/// forest, sends `l`'s set to `w` and leaves every other root alone.
proof fn lemma_link(parent: Seq<usize>, rank: Seq<nat>, max_rank: nat, l: int, w: int)
    requires
        forest_wf(parent, rank, max_rank),
        0 <= l < parent.len(),
        0 <= w < parent.len(),
        l != w,
        parent[l] == l,
        parent[w] == w,
    ensures
        ({
            let rank2 = rank.update(w, if rank[w] > rank[l] { rank[w] } else { rank[l] + 1 });
            let max2 = if max_rank >= rank2[w] { max_rank } else { rank2[w] };
            let linked = parent.update(l, w as usize);
            &&& forest_wf(linked, rank2, max2)
            &&& forall|i: int|
                0 <= i < parent.len() ==> #[trigger] root_of(linked, rank2, max2, i) == if root_of(
                    parent,
                    rank,
                    max_rank,
                    i,
                ) == l {
                    w
                } else {
                    root_of(parent, rank, max_rank, i)
                }
        }),
{
    let rank2 = rank.update(w, if rank[w] > rank[l] { rank[w] } else { rank[l] + 1 });
    let max2 = if max_rank >= rank2[w] { max_rank } else { rank2[w] };
    let linked = parent.update(l, w as usize);
    assert forall|i: int| 0 <= i < parent.len() && #[trigger] linked[i] != i implies rank2[i]
        < rank2[linked[i] as int] by {
        if i != l {
            assert(linked[i] == parent[i]);
        }
    }
    assert forall|i: int| 0 <= i < parent.len() implies (#[trigger] linked[i] as int) < parent.len() by {
    }
    assert forall|i: int| 0 <= i < rank2.len() implies #[trigger] rank2[i] <= max2 by {
    }
    assert forall|i: int| 0 <= i < parent.len() implies #[trigger] root_of(linked, rank2, max2, i)
        == if root_of(parent, rank, max_rank, i) == l {
        w
    } else {
        root_of(parent, rank, max_rank, i)
    } by {
        lemma_link_root(parent, rank, max_rank, l, w, i);
    }
}

proof fn lemma_link_root(parent: Seq<usize>, rank: Seq<nat>, max_rank: nat, l: int, w: int, i: int)
    requires
        forest_wf(parent, rank, max_rank),
        0 <= l < parent.len(),
        0 <= w < parent.len(),
        0 <= i < parent.len(),
        l != w,
        parent[l] == l,
        parent[w] == w,
        ({
            let rank2 = rank.update(w, if rank[w] > rank[l] { rank[w] } else { rank[l] + 1 });
            let max2 = if max_rank >= rank2[w] { max_rank } else { rank2[w] };
            forest_wf(parent.update(l, w as usize), rank2, max2)
        }),
    ensures
        ({
            let rank2 = rank.update(w, if rank[w] > rank[l] { rank[w] } else { rank[l] + 1 });
            let max2 = if max_rank >= rank2[w] { max_rank } else { rank2[w] };
            root_of(parent.update(l, w as usize), rank2, max2, i) == if root_of(
                parent,
                rank,
                max_rank,
                i,
            ) == l {
                w
            } else {
                root_of(parent, rank, max_rank, i)
            }
        }),
    decreases max_rank - rank[i],
{
    let rank2 = rank.update(w, if rank[w] > rank[l] { rank[w] } else { rank[l] + 1 });
    let max2 = if max_rank >= rank2[w] { max_rank } else { rank2[w] };
    let linked = parent.update(l, w as usize);
    lemma_root_facts(parent, rank, max_rank, i);
    lemma_root_facts(linked, rank2, max2, i);
    if i == l {
        lemma_root_facts(linked, rank2, max2, w);
    } else if i != w {
        assert(linked[i] == parent[i]);
        if parent[i] != i {
            lemma_link_root(parent, rank, max_rank, l, w, parent[i] as int);
        }
    }
}

/// What a union-find means: the root of each node's group, and the
/// liberty and size counters of each node (read at roots).
pub struct Groups {
    pub roots: Seq<int>,
    pub libs: Seq<usize>,
    pub sizes: Seq<usize>,
}

impl Groups {
    pub open spec fn len(self) -> nat {
        self.roots.len()
    }

    /// Liberty count of the group that holds `x`.
    pub open spec fn liberties_of(self, x: int) -> usize {
        self.libs[self.roots[x]]
    }

    /// One liberty less for `x`'s group, held at zero.
    pub open spec fn subtract(self, x: int) -> Groups {
        Groups { libs: self.libs.update(self.roots[x], dec_sat(self.liberties_of(x))), ..self }
    }

    /// `x`'s group's liberty count moved by `n`, held within `0 ..= usize::MAX`.
    pub open spec fn add(self, x: int, n: isize) -> Groups {
        Groups { libs: self.libs.update(self.roots[x], add_signed_sat(self.liberties_of(x), n)), ..self }
    }

    /// The groups of `x` and `y` merged: the smaller goes under the larger
    /// (`x`'s root winning ties), and the survivor's counters gain the other's.
    pub open spec fn union(self, x: int, y: int) -> Groups {
        let rx = self.roots[x];
        let ry = self.roots[y];
        let (w, l) = if self.sizes[rx] < self.sizes[ry] {
            (ry, rx)
        } else {
            (rx, ry)
        };
        if rx == ry {
            self
        } else {
            Groups {
                roots: Seq::new(self.roots.len(), |i: int| if self.roots[i] == l { w } else { self.roots[i] }),
                libs: self.libs.update(w, add_sat(self.libs[w], self.libs[l])),
                sizes: self.sizes.update(w, add_sat(self.sizes[w], self.sizes[l])),
            }
        }
    }
}

/// A partition of the nodes `0 .. node_count` into groups, each group with a
/// size and a liberty count kept at its root.
pub struct UnionFind {
    parent: Vec<usize>,
    size: Vec<usize>,
    liberties: Vec<usize>,
    rank: Ghost<Seq<nat>>,
    max_rank: Ghost<nat>,
}

impl View for UnionFind {
    type V = Groups;

    /// The groups and counters, without the parent links that reach the roots.
    open spec fn view(&self) -> Groups {
        Groups {
            roots: Seq::new(self.len(), |i: int| self.root(i)),
            libs: self.libs(),
            sizes: self.sizes(),
        }
    }
}

impl UnionFind {
    /// Parent link of each node.
    pub closed spec fn parents(&self) -> Seq<usize> {
        self.parent@
    }

    /// Size counter of each node; meaningful at roots.
    pub closed spec fn sizes(&self) -> Seq<usize> {
        self.size@
    }

    /// Liberty counter of each node; meaningful at roots.
    pub closed spec fn libs(&self) -> Seq<usize> {
        self.liberties@
    }

    pub closed spec fn ranks(&self) -> Seq<nat> {
        self.rank@
    }

    pub closed spec fn max_rank(&self) -> nat {
        self.max_rank@
    }

    pub open spec fn len(&self) -> nat {
        self.parents().len()
    }

    pub open spec fn wf(&self) -> bool {
        &&& forest_wf(self.parents(), self.ranks(), self.max_rank())
        &&& self.sizes().len() == self.len()
        &&& self.libs().len() == self.len()
    }

    /// The root of the group that holds node `i`.
    pub open spec fn root(&self, i: int) -> int {
        root_of(self.parents(), self.ranks(), self.max_rank(), i)
    }

    /// The liberty count of the group that holds node `i`.
    pub open spec fn group_liberties(&self, i: int) -> usize {
        self.libs()[self.root(i)]
    }

    /// The same groups with the same counters: all that path compression may change
    /// is how the parent links reach the roots.
    pub open spec fn same_groups(&self, other: &Self) -> bool {
        &&& self.len() == other.len()
        &&& self.libs() == other.libs()
        &&& self.sizes() == other.sizes()
        &&& forall|i: int| 0 <= i < self.len() ==> #[trigger] self.root(i) == other.root(i)
    }

    pub proof fn lemma_same_groups_view(&self, other: &Self)
        requires
            self.same_groups(other),
        ensures
            self@ == other@,
    {
        assert(self@.roots =~= other@.roots);
    }

    pub proof fn lemma_wf_root(&self, i: int)
        requires
            self.wf(),
            0 <= i < self.len(),
        ensures
            0 <= self.root(i) < self.len(),
            self.parents()[self.root(i)] == self.root(i),
            self.root(self.root(i)) == self.root(i),
            self.parents()[i] == i ==> self.root(i) == i,
    {
        lemma_root_facts(self.parents(), self.ranks(), self.max_rank(), i);
        lemma_root_facts(self.parents(), self.ranks(), self.max_rank(), self.root(i));
    }

    /// `width * height` singleton groups, each with the default liberty count.
    pub fn new(width: usize, height: usize) -> (r: Self)
        requires
            width * height <= usize::MAX,
        ensures
            r.wf(),
            r.len() == width * height,
            forall|i: int|
                0 <= i < r.len() ==> #[trigger] r.parents()[i] == i && r.sizes()[i] == 1
                    && r.libs()[i] == DEFAULT_LIBERTIES,
            forall|i: int| 0 <= i < r.len() ==> #[trigger] r.root(i) == i,
            r@.roots == Seq::new((width * height) as nat, |i: int| i),
            r@.libs == Seq::new((width * height) as nat, |i: int| DEFAULT_LIBERTIES),
            r@.sizes == Seq::new((width * height) as nat, |i: int| 1usize),
    {
        let n = width * height;
        let mut parent: Vec<usize> = Vec::new();
        let mut size: Vec<usize> = Vec::new();
        let mut liberties: Vec<usize> = Vec::new();
        let mut i: usize = 0;
        while i < n
            invariant
                i <= n,
                parent@.len() == i,
                size@.len() == i,
                liberties@.len() == i,
                forall|j: int| 0 <= j < i ==> #[trigger] parent@[j] == j,
                forall|j: int| 0 <= j < i ==> #[trigger] size@[j] == 1,
                forall|j: int| 0 <= j < i ==> #[trigger] liberties@[j] == DEFAULT_LIBERTIES,
            decreases n - i,
        {
            parent.push(i);
            size.push(1);
            liberties.push(DEFAULT_LIBERTIES);
            i = i + 1;
        }
        let r = UnionFind {
            parent,
            size,
            liberties,
            rank: Ghost(Seq::new(n as nat, |j: int| 0nat)),
            max_rank: Ghost(0nat),
        };
        assert forall|i: int| 0 <= i < r.len() implies #[trigger] r.parents()[i] == i && r.sizes()[i]
            == 1 && r.libs()[i] == DEFAULT_LIBERTIES by {
            assert(r.parent@[i] == i);
        }
        assert forall|i: int| 0 <= i < r.len() implies #[trigger] r.root(i) == i by {
            assert(r.parent@[i] == i);
            r.lemma_wf_root(i);
        }
        assert(r@.roots =~= Seq::new(n as nat, |i: int| i));
        assert(r@.libs =~= Seq::new(n as nat, |i: int| DEFAULT_LIBERTIES));
        assert(r@.sizes =~= Seq::new(n as nat, |i: int| 1usize));
        r
    }

    /// Number of nodes.
    pub fn node_count(&self) -> (r: usize)
        ensures
            r == self.len(),
    {
        self.parent.len()
    }

    /// The root of `x`'s group. Every node passed on the way is relinked
    /// straight to the root.
    pub fn find(&mut self, x: usize) -> (r: usize)
        requires
            old(self).wf(),
            x < old(self).len(),
        ensures
            final(self).wf(),
            final(self).same_groups(old(self)),
            final(self)@ == old(self)@,
            final(self).ranks() == old(self).ranks(),
            final(self).max_rank() == old(self).max_rank(),
            r == old(self).root(x as int),
            final(self).parents()[x as int] == r,
        decreases old(self).max_rank() - old(self).ranks()[x as int],
    {
        proof {
            self.lemma_wf_root(x as int);
        }
        let p = self.parent[x];
        if p != x {
            proof {
                lemma_root_facts(self.parent@, self.rank@, self.max_rank@, x as int);
            }
            let ghost s0 = *old(self);
            let r = self.find(p);
            let ghost s1 = *self;
            proof {
                lemma_root_facts(self.parent@, self.rank@, self.max_rank@, x as int);
                lemma_compress(self.parent@, self.rank@, self.max_rank@, x as int);
            }
            proof {
                assert(s1.root(x as int) == s0.root(x as int));
            }
            self.parent.set(x, r);
            proof {
                assert(self.parent@ == s1.parent@.update(x as int, r));
                assert forall|i: int| 0 <= i < s0.len() implies #[trigger] self.root(i) == s0.root(i) by {
                    assert(self.root(i) == s1.root(i));
                    assert(s1.root(i) == s0.root(i));
                }
                self.lemma_same_groups_view(&s0);
            }
            r
        } else {
            proof {
                self.lemma_same_groups_view(old(self));
            }
            x
        }
    }

    /// Merges the groups of `x` and `y`. The smaller group (by node count)
    /// goes under the root of the larger, `x`'s root winning ties; the
    /// surviving root's size and liberty count gain the other's (held at
    /// `usize::MAX`).
    pub fn union(&mut self, x: usize, y: usize)
        requires
            old(self).wf(),
            x < old(self).len(),
            y < old(self).len(),
        ensures
            final(self).wf(),
            final(self).len() == old(self).len(),
            final(self)@ == old(self)@.union(x as int, y as int),
            ({
                let rx = old(self).root(x as int);
                let ry = old(self).root(y as int);
                let (w, l) = if old(self).sizes()[rx] < old(self).sizes()[ry] {
                    (ry, rx)
                } else {
                    (rx, ry)
                };
                if rx == ry {
                    final(self).same_groups(old(self))
                } else {
                    &&& final(self).libs() == old(self).libs().update(
                        w,
                        add_sat(old(self).libs()[w], old(self).libs()[l]),
                    )
                    &&& final(self).sizes() == old(self).sizes().update(
                        w,
                        add_sat(old(self).sizes()[w], old(self).sizes()[l]),
                    )
                    &&& forall|i: int|
                        0 <= i < old(self).len() ==> #[trigger] final(self).root(i) == if old(
                            self,
                        ).root(i) == l {
                            w
                        } else {
                            old(self).root(i)
                        }
                }
            }),
    {
        let ghost s0 = *self;
        let rx = self.find(x);
        let ghost s1 = *self;
        let ry = self.find(y);
        let ghost s2 = *self;
        proof {
            s0.lemma_wf_root(x as int);
            s0.lemma_wf_root(y as int);
            assert(s2.root(rx as int) == s1.root(rx as int));
            s2.lemma_wf_root(rx as int);
            s2.lemma_wf_root(ry as int);
            assert forall|i: int| 0 <= i < s0.len() implies #[trigger] s2.root(i) == s0.root(i) by {
                assert(s2.root(i) == s1.root(i));
                assert(s1.root(i) == s0.root(i));
            }
        }
        if rx != ry {
            if self.size[rx] < self.size[ry] {
                self.link(rx, ry);
            } else {
                self.link(ry, rx);
            }
            proof {
                assert forall|i: int| 0 <= i < s0.len() implies #[trigger] self.root(i) == if s0.root(i)
                    == (if s0.sizes()[rx as int] < s0.sizes()[ry as int] { rx as int } else { ry as int }) {
                    if s0.sizes()[rx as int] < s0.sizes()[ry as int] { ry as int } else { rx as int }
                } else {
                    s0.root(i)
                } by {
                    assert(s2.root(i) == s0.root(i));
                }
                assert(self@.roots =~= s0@.union(x as int, y as int).roots);
            }
        } else {
            proof {
                assert forall|i: int| 0 <= i < s0.len() implies #[trigger] self.root(i) == s0.root(i) by {
                    assert(s2.root(i) == s1.root(i));
                    assert(s1.root(i) == s0.root(i));
                }
                self.lemma_same_groups_view(&s0);
            }
        }
    }

    /// Hangs root `l` under root `w`, moving `l`'s counters onto `w`.
    fn link(&mut self, l: usize, w: usize)
        requires
            old(self).wf(),
            l < old(self).len(),
            w < old(self).len(),
            l != w,
            old(self).parents()[l as int] == l,
            old(self).parents()[w as int] == w,
        ensures
            final(self).wf(),
            final(self).len() == old(self).len(),
            final(self).libs() == old(self).libs().update(
                w as int,
                add_sat(old(self).libs()[w as int], old(self).libs()[l as int]),
            ),
            final(self).sizes() == old(self).sizes().update(
                w as int,
                add_sat(old(self).sizes()[w as int], old(self).sizes()[l as int]),
            ),
            forall|i: int|
                0 <= i < old(self).len() ==> #[trigger] final(self).root(i) == if old(self).root(i)
                    == l {
                    w as int
                } else {
                    old(self).root(i)
                },
    {
        let ghost s0 = *self;
        proof {
            lemma_link(self.parent@, self.rank@, self.max_rank@, l as int, w as int);
        }
        let ghost rank2 = self.rank@.update(
            w as int,
            if self.rank@[w as int] > self.rank@[l as int] {
                self.rank@[w as int]
            } else {
                self.rank@[l as int] + 1
            },
        );
        let ghost max2 = if self.max_rank@ >= rank2[w as int] {
            self.max_rank@
        } else {
            rank2[w as int]
        };
        self.parent.set(l, w);
        let s = self.size[w].saturating_add(self.size[l]);
        self.size.set(w, s);
        let lib = self.liberties[w].saturating_add(self.liberties[l]);
        self.liberties.set(w, lib);
        self.rank = Ghost(rank2);
        self.max_rank = Ghost(max2);
        proof {
            assert(self.parent@ == s0.parent@.update(l as int, w));
            assert forall|i: int| 0 <= i < s0.len() implies #[trigger] self.root(i) == if s0.root(i)
                == l {
                w as int
            } else {
                s0.root(i)
            } by {
                assert(self.root(i) == root_of(s0.parent@.update(l as int, w), rank2, max2, i));
                assert(s0.parent@.update(l as int, w) == s0.parent@.update(l as int, (w as int) as usize));
                lemma_link_root(s0.parent@, s0.rank@, s0.max_rank@, l as int, w as int, i);
            }
        }
    }

    /// Takes one liberty from `x`'s group, never going below zero.
    pub fn subtract_liberty(&mut self, x: usize)
        requires
            old(self).wf(),
            x < old(self).len(),
        ensures
            final(self).wf(),
            final(self).len() == old(self).len(),
            final(self).sizes() == old(self).sizes(),
            forall|i: int| 0 <= i < old(self).len() ==> #[trigger] final(self).root(i) == old(self).root(i),
            final(self).libs() == old(self).libs().update(
                old(self).root(x as int),
                dec_sat(old(self).group_liberties(x as int)),
            ),
            final(self)@ == old(self)@.subtract(x as int),
    {
        let ghost s0 = *self;
        let r = self.find(x);
        let ghost s1 = *self;
        let l = self.liberties[r];
        let l2 = if l == 0 {
            0
        } else {
            l - 1
        };
        self.liberties.set(r, l2);
        proof {
            assert forall|i: int| 0 <= i < s0.len() implies #[trigger] self.root(i) == s0.root(i) by {
                assert(self.root(i) == s1.root(i));
                assert(s1.root(i) == s0.root(i));
            }
            assert(self@.roots =~= s0@.roots);
            assert(s0@.roots[x as int] == r);
            assert(self@.libs =~= s0@.libs.update(r as int, l2));
        }
    }

    /// Moves the liberty count of `group`'s group by `n`, held within
    /// `0 ..= usize::MAX`.
    pub fn add_liberty(&mut self, group: usize, n: isize)
        requires
            old(self).wf(),
            group < old(self).len(),
        ensures
            final(self).wf(),
            final(self).len() == old(self).len(),
            final(self).sizes() == old(self).sizes(),
            forall|i: int| 0 <= i < old(self).len() ==> #[trigger] final(self).root(i) == old(self).root(i),
            final(self).libs() == old(self).libs().update(
                old(self).root(group as int),
                add_signed_sat(old(self).group_liberties(group as int), n),
            ),
            final(self)@ == old(self)@.add(group as int, n),
    {
        let ghost s0 = *self;
        let r = self.find(group);
        let ghost s1 = *self;
        let l = self.liberties[r];
        let l2 = if n >= 0 {
            l.saturating_add(n as usize)
        } else {
            let d: usize = ((-(n + 1)) as usize) + 1;
            l.saturating_sub(d)
        };
        self.liberties.set(r, l2);
        proof {
            assert forall|i: int| 0 <= i < s0.len() implies #[trigger] self.root(i) == s0.root(i) by {
                assert(self.root(i) == s1.root(i));
                assert(s1.root(i) == s0.root(i));
            }
            assert(self@.roots =~= s0@.roots);
            assert(s0@.roots[group as int] == r);
            assert(self@.libs =~= s0@.libs.update(r as int, l2));
        }
    }

    /// The liberty count of `x`'s group.
    pub fn get_liberties(&mut self, x: usize) -> (r: usize)
        requires
            old(self).wf(),
            x < old(self).len(),
        ensures
            final(self).wf(),
            final(self)@ == old(self)@,
            r == old(self)@.liberties_of(x as int),
    {
        let root = self.find(x);
        self.liberties[root]
    }

    /// Makes `x` a root of its own again, with size 1 and the default
    /// liberty count. Only `x`'s own entries change: nodes whose parent
    /// links ran through `x` now end at `x`.
    pub fn reset_node(&mut self, x: usize)
        requires
            old(self).wf(),
            x < old(self).len(),
        ensures
            final(self).wf(),
            final(self).parents() == old(self).parents().update(x as int, x),
            final(self).sizes() == old(self).sizes().update(x as int, 1),
            final(self).libs() == old(self).libs().update(x as int, DEFAULT_LIBERTIES),
            final(self).root(x as int) == x,
            final(self)@.roots[x as int] == x,
            final(self)@.liberties_of(x as int) == DEFAULT_LIBERTIES,
    {
        self.parent.set(x, x);
        self.size.set(x, 1);
        self.liberties.set(x, DEFAULT_LIBERTIES);
        proof {
            self.lemma_wf_root(x as int);
        }
    }
}

} // verus!
