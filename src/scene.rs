//! An arena scene graph. Nodes are addressed by their index in the arena and
//! linked into a forest by parent and child indices. A ghost rank, larger for a
//! parent than for each of its children, shows that no node lies below itself.
use vstd::prelude::*;

verus! {

/// One node of the scene graph: its local transform attributes, the drawable
/// geometry bound to it, and its place in the tree.
pub struct SceneNode<A> {
    /// The local transform attributes (position, rotation, pivot).
    pub local: A,
    /// Handle of the GPU geometry; 0 for a grouping node.
    pub vao_id: u32,
    /// Number of indices to draw; a node with a count of 0 or less is not drawn.
    pub index_count: i32,
    /// The node that owns this one, if any.
    pub parent: Option<usize>,
    /// The nodes this one owns, in the order they were added.
    pub children: Vec<usize>,
}

/// Why `add_child` refused to link two nodes.
#[derive(Debug, Clone, Copy, PartialEq, Eq, Structural)]
pub enum SceneError {
    /// One of the two indices names no node.
    NoSuchNode,
    /// The child already has a parent.
    AlreadyOwned,
    /// The parent lies in the child's subtree (or is the child), so the link
    /// would close a cycle.
    WouldCycle,
}

/// A scene graph over local attributes `A` and transforms `M`.
pub struct SceneGraph<A, M> {
    pub nodes: Vec<SceneNode<A>>,
    /// The world transform of each node, once a propagation pass reached it.
    pub worlds: Vec<Option<M>>,
    /// A rank for each node, larger for a parent than for its children.
    pub rank: Ghost<Seq<nat>>,
    /// A bound above every rank.
    pub bound: Ghost<nat>,
}

impl<A, M> SceneGraph<A, M> {
    pub open spec fn len(&self) -> int {
        self.nodes@.len() as int
    }

    pub open spec fn parent_of(&self, i: int) -> Option<usize> {
        self.nodes@[i].parent
    }

    pub open spec fn children_of(&self, i: int) -> Seq<usize> {
        self.nodes@[i].children@
    }

    pub open spec fn rank_of(&self, i: int) -> nat {
        self.rank@[i]
    }

    pub open spec fn is_drawable(&self, i: int) -> bool {
        self.nodes@[i].index_count > 0
    }

    /// The tree invariant: parent and child links agree, a parent outranks its
    /// children (so the links form no cycle), and no child is listed twice.
    pub open spec fn wf(&self) -> bool {
        &&& self.worlds@.len() == self.nodes@.len()
        &&& self.rank@.len() == self.nodes@.len()
        &&& self.nodes@.len() <= usize::MAX
        &&& forall|i: int| 0 <= i < self.len() ==> #[trigger] self.rank_of(i) < self.bound@
        &&& forall|i: int|
            0 <= i < self.len() ==> match #[trigger] self.parent_of(i) {
                Some(p) => p < self.len() && self.rank_of(i) < self.rank_of(p as int)
                    && self.children_of(p as int).contains(i as usize),
                None => true,
            }
        &&& forall|i: int, j: int|
            0 <= i < self.len() && 0 <= j < self.children_of(i).len() ==> {
                let c = #[trigger] self.children_of(i)[j];
                &&& c < self.len()
                &&& self.parent_of(c as int) == Some(i as usize)
            }
        &&& forall|i: int, j: int, k: int|
            0 <= i < self.len() && 0 <= j < k < self.children_of(i).len() ==> #[trigger] self.children_of(
                i,
            )[j] != #[trigger] self.children_of(i)[k]
    }

    /// `x` lies in the subtree rooted at `r` (a node lies in its own subtree).
    pub open spec fn is_desc(&self, x: int, r: int) -> bool
        decreases self.bound@ - self.rank_of(x),
    {
        if x == r {
            0 <= x < self.len()
        } else if 0 <= x < self.len() {
            match self.parent_of(x) {
                Some(p) => p < self.len() && self.rank_of(x) < self.rank_of(p as int) < self.bound@
                    && self.is_desc(p as int, r),
                None => false,
            }
        } else {
            false
        }
    }

    /// The nodes drawn by a traversal from `n`: `n` itself when it is drawable,
    /// then the subtrees of its children in order.
    pub open spec fn draw_order(&self, n: int) -> Seq<usize>
        decreases self.rank_of(n), self.children_of(n).len() + 1,
    {
        if 0 <= n < self.len() {
            let own = if self.is_drawable(n) {
                seq![n as usize]
            } else {
                Seq::empty()
            };
            own + self.draw_order_from(n, 0)
        } else {
            Seq::empty()
        }
    }

    /// The draw orders of the subtrees of `n`'s children from the `k`-th on.
    pub open spec fn draw_order_from(&self, n: int, k: int) -> Seq<usize>
        decreases self.rank_of(n), self.children_of(n).len() - k,
    {
        if 0 <= n < self.len() && 0 <= k < self.children_of(n).len() {
            let c = self.children_of(n)[k] as int;
            let first = if c < self.len() && self.rank_of(c) < self.rank_of(n) {
                self.draw_order(c)
            } else {
                Seq::empty()
            };
            first + self.draw_order_from(n, k + 1)
        } else {
            Seq::empty()
        }
    }
}

impl<A, M> SceneGraph<A, M> {
    /// An empty scene graph.
    pub fn new() -> (r: Self)
        ensures
            r.wf(),
            r.len() == 0,
    {
        SceneGraph { nodes: Vec::new(), worlds: Vec::new(), rank: Ghost(Seq::empty()), bound: Ghost(0) }
    }

    /// Adds an unlinked node and returns its index. A node with an `index_count`
    /// of 0 or less is a grouping node that only carries a transform.
    pub fn add_drawable(&mut self, local: A, vao_id: u32, index_count: i32) -> (r: usize)
        requires
            old(self).wf(),
        ensures
            final(self).wf(),
            r == old(self).len(),
            final(self).nodes@ == old(self).nodes@.push(
                (SceneNode { local, vao_id, index_count, parent: None, children: final(self).nodes@[r as int].children }),
            ),
            final(self).children_of(r as int).len() == 0,
            final(self).worlds@ == old(self).worlds@.push(None),
    {
        let r = self.nodes.len();
        let node = SceneNode { local, vao_id, index_count, parent: None, children: Vec::new() };
        self.nodes.push(node);
        let _ = self.nodes.len();
        self.worlds.push(None);
        proof {
            self.rank = Ghost(self.rank@.push(0));
            self.bound = Ghost(self.bound@ + 1);
            assert forall|i: int| 0 <= i < self.len() implies #[trigger] self.rank_of(i) < self.bound@ by {
                if i < r {
                    assert(old(self).rank_of(i) < old(self).bound@);
                }
            }
            assert forall|i: int|
                0 <= i < self.len() implies match #[trigger] self.parent_of(i) {
                Some(p) => p < self.len() && self.rank_of(i) < self.rank_of(p as int)
                    && self.children_of(p as int).contains(i as usize),
                None => true,
            } by {
                if i < r {
                    assert(self.nodes@[i] == old(self).nodes@[i]);
                    if let Some(p) = self.parent_of(i) {
                        assert(old(self).parent_of(i) == Some(p));
                        assert(self.nodes@[p as int] == old(self).nodes@[p as int]);
                    }
                }
            }
            assert forall|i: int, j: int|
                0 <= i < self.len() && 0 <= j < self.children_of(i).len() implies {
                let c = #[trigger] self.children_of(i)[j];
                &&& c < self.len()
                &&& self.parent_of(c as int) == Some(i as usize)
            } by {
                assert(i < r);
                assert(self.nodes@[i] == old(self).nodes@[i]);
                let c = old(self).children_of(i)[j];
                assert(self.nodes@[c as int] == old(self).nodes@[c as int]);
            }
            assert forall|i: int, j: int, k: int|
                0 <= i < self.len() && 0 <= j < k < self.children_of(i).len() implies
                #[trigger] self.children_of(i)[j] != #[trigger] self.children_of(i)[k] by {
                assert(i < r);
                assert(self.nodes@[i] == old(self).nodes@[i]);
                assert(old(self).children_of(i)[j] != old(self).children_of(i)[k]);
            }
        }
        r
    }

    /// Adds an unlinked grouping node (nothing to draw) and returns its index.
    pub fn add_node(&mut self, local: A) -> (r: usize)
        requires
            old(self).wf(),
        ensures
            final(self).wf(),
            r == old(self).len(),
            final(self).nodes@ == old(self).nodes@.push(
                (SceneNode { local, vao_id: 0, index_count: 0, parent: None, children: final(self).nodes@[r as int].children }),
            ),
            final(self).children_of(r as int).len() == 0,
            final(self).worlds@ == old(self).worlds@.push(None),
    {
        self.add_drawable(local, 0, 0)
    }

    /// Whether `x` lies in the subtree of `r`, found by walking up from `x`.
    fn in_subtree(&self, x: usize, r: usize) -> (b: bool)
        requires
            self.wf(),
            x < self.len(),
            r < self.len(),
        ensures
            b == self.is_desc(x as int, r as int),
    {
        let mut cur = x;
        loop
            invariant
                self.wf(),
                cur < self.len(),
                r < self.len(),
                self.is_desc(x as int, r as int) == self.is_desc(cur as int, r as int),
            decreases self.bound@ - self.rank_of(cur as int),
        {
            if cur == r {
                return true;
            }
            match self.nodes[cur].parent {
                None => {
                    return false;
                },
                Some(p) => {
                    assert(self.parent_of(cur as int) == Some(p));
                    assert(self.rank_of(p as int) < self.bound@);
                    cur = p;
                },
            }
        }
    }

    /// Makes `child` the last child of `parent`. Nothing else changes: no
    /// transform attribute and no world transform is touched. The link is
    /// refused when either index names no node, when the child already has a
    /// parent, or when the parent lies in the child's subtree.
    pub fn add_child(&mut self, parent: usize, child: usize) -> (r: Result<(), SceneError>)
        requires
            old(self).wf(),
        ensures
            final(self).wf(),
            final(self).worlds@ == old(self).worlds@,
            final(self).len() == old(self).len(),
            parent >= old(self).len() || child >= old(self).len() ==> r == Err::<(), SceneError>(SceneError::NoSuchNode),
            parent < old(self).len() && child < old(self).len() && old(self).parent_of(child as int).is_some()
                ==> r == Err::<(), SceneError>(SceneError::AlreadyOwned),
            parent < old(self).len() && child < old(self).len() && old(self).parent_of(child as int).is_none()
                && old(self).is_desc(parent as int, child as int) ==> r == Err::<(), SceneError>(SceneError::WouldCycle),
            parent < old(self).len() && child < old(self).len() && old(self).parent_of(child as int).is_none()
                && !old(self).is_desc(parent as int, child as int) ==> r == Ok::<(), SceneError>(()),
            r.is_err() ==> final(self).nodes@ == old(self).nodes@,
            r.is_ok() ==> {
                &&& final(self).parent_of(child as int) == Some(parent)
                &&& final(self).children_of(parent as int) == old(self).children_of(parent as int).push(child)
                &&& forall|i: int| 0 <= i < old(self).len() ==> {
                    &&& (#[trigger] final(self).nodes@[i]).local == old(self).nodes@[i].local
                    &&& final(self).nodes@[i].vao_id == old(self).nodes@[i].vao_id
                    &&& final(self).nodes@[i].index_count == old(self).nodes@[i].index_count
                    &&& i != child ==> final(self).nodes@[i].parent == old(self).nodes@[i].parent
                    &&& i != parent ==> final(self).nodes@[i].children == old(self).nodes@[i].children
                }
            },
    {
        if parent >= self.nodes.len() || child >= self.nodes.len() {
            return Err(SceneError::NoSuchNode);
        }
        if self.nodes[child].parent.is_some() {
            return Err(SceneError::AlreadyOwned);
        }
        if self.in_subtree(parent, child) {
            return Err(SceneError::WouldCycle);
        }
        let ghost o = *self;
        proof {
            assert forall|j: int| 0 <= j < o.children_of(parent as int).len()
                implies #[trigger] o.children_of(parent as int)[j] != child by {
                let c = o.children_of(parent as int)[j];
                assert(o.parent_of(c as int) == Some(parent));
            }
            assert(o.is_desc(parent as int, parent as int));
        }
        self.nodes[child].parent = Some(parent);
        self.nodes[parent].children.push(child);
        proof {
            if o.rank_of(child as int) >= o.rank_of(parent as int) {
                let shift = o.rank_of(child as int) + 1 - o.rank_of(parent as int);
                self.rank = Ghost(
                    Seq::new(
                        o.rank@.len(),
                        |y: int|
                            if o.is_desc(parent as int, y) {
                                (o.rank_of(y) + shift) as nat
                            } else {
                                o.rank_of(y)
                            },
                    ),
                );
                self.bound = Ghost((o.bound@ + shift) as nat);
            }
            assert(self.rank_of(child as int) == o.rank_of(child as int));
            assert(self.rank_of(child as int) < self.rank_of(parent as int));
            assert forall|i: int| 0 <= i < self.len() implies #[trigger] self.rank_of(i) < self.bound@ by {
                assert(o.rank_of(i) < o.bound@);
            }
            assert forall|i: int|
                0 <= i < self.len() implies match #[trigger] self.parent_of(i) {
                Some(p) => p < self.len() && self.rank_of(i) < self.rank_of(p as int)
                    && self.children_of(p as int).contains(i as usize),
                None => true,
            } by {
                if i == child {
                    assert(self.children_of(parent as int).last() == child);
                } else if let Some(p) = self.parent_of(i) {
                    assert(o.parent_of(i) == Some(p));
                    assert(o.children_of(p as int).contains(i as usize));
                    let j = choose|j: int| 0 <= j < o.children_of(p as int).len() && o.children_of(p as int)[j] == i;
                    assert(self.children_of(p as int)[j] == i);
                    assert(o.rank_of(p as int) < o.bound@);
                    assert(o.is_desc(i, p as int)) by {
                        assert(o.is_desc(p as int, p as int));
                    }
                    if o.is_desc(parent as int, i) {
                        o.lemma_desc_trans(parent as int, i, p as int);
                    }
                }
            }
            assert forall|i: int, j: int|
                0 <= i < self.len() && 0 <= j < self.children_of(i).len() implies {
                let c = #[trigger] self.children_of(i)[j];
                &&& c < self.len()
                &&& self.parent_of(c as int) == Some(i as usize)
            } by {
                if i == parent && j == o.children_of(i).len() {
                } else {
                    assert(self.children_of(i)[j] == o.children_of(i)[j]);
                }
            }
            assert forall|i: int, j: int, k: int|
                0 <= i < self.len() && 0 <= j < k < self.children_of(i).len() implies
                #[trigger] self.children_of(i)[j] != #[trigger] self.children_of(i)[k] by {
                if i == parent && k == o.children_of(i).len() {
                    assert(o.children_of(parent as int)[j] != child);
                } else {
                    assert(self.children_of(i)[j] == o.children_of(i)[j]);
                    assert(self.children_of(i)[k] == o.children_of(i)[k]);
                }
            }
        }
        Ok(())
    }
}

impl<A, M> SceneGraph<A, M> {
    /// The subtree relation is transitive.
    pub proof fn lemma_desc_trans(&self, x: int, y: int, z: int)
        requires
            self.wf(),
            self.is_desc(x, y),
            self.is_desc(y, z),
        ensures
            self.is_desc(x, z),
        decreases self.bound@ - self.rank_of(x),
    {
        if x != y {
            let p = self.parent_of(x).unwrap();
            self.lemma_desc_trans(p as int, y, z);
        }
    }

    /// A node of the subtree of `r` ranks no higher than `r`.
    pub proof fn lemma_desc_rank(&self, x: int, r: int)
        requires
            self.wf(),
            self.is_desc(x, r),
        ensures
            self.rank_of(x) <= self.rank_of(r),
            0 <= r < self.len(),
            0 <= x < self.len(),
        decreases self.bound@ - self.rank_of(x),
    {
        if x != r {
            let p = self.parent_of(x).unwrap();
            self.lemma_desc_rank(p as int, r);
        }
    }

    /// The nodes above a node form a chain: of two of them, one lies below the other.
    pub proof fn lemma_desc_chain(&self, x: int, a: int, b: int)
        requires
            self.wf(),
            self.is_desc(x, a),
            self.is_desc(x, b),
        ensures
            self.is_desc(a, b) || self.is_desc(b, a),
        decreases self.bound@ - self.rank_of(x),
    {
        if x != a && x != b {
            let p = self.parent_of(x).unwrap();
            self.lemma_desc_chain(p as int, a, b);
        }
    }

    /// The subtrees of two different children of one node share no node.
    proof fn lemma_siblings_disjoint(&self, n: int, j: int, k: int, x: int)
        requires
            self.wf(),
            0 <= n < self.len(),
            0 <= j < self.children_of(n).len(),
            0 <= k < self.children_of(n).len(),
            j != k,
            self.is_desc(x, self.children_of(n)[j] as int),
        ensures
            !self.is_desc(x, self.children_of(n)[k] as int),
    {
        let a = self.children_of(n)[j] as int;
        let b = self.children_of(n)[k] as int;
        if self.is_desc(x, b) {
            self.lemma_desc_chain(x, a, b);
            assert(a != b);
            if self.is_desc(a, b) {
                assert(self.parent_of(a) == Some(n as usize));
                self.lemma_desc_rank(n, b);
            } else {
                assert(self.parent_of(b) == Some(n as usize));
                self.lemma_desc_rank(n, a);
            }
        }
    }

    proof fn lemma_child_is_desc(&self, n: int, k: int)
        requires
            self.wf(),
            0 <= n < self.len(),
            0 <= k < self.children_of(n).len(),
        ensures
            self.is_desc(self.children_of(n)[k] as int, n),
    {
        let c = self.children_of(n)[k] as int;
        assert(self.parent_of(c) == Some(n as usize));
        assert(self.rank_of(c) < self.rank_of(n) < self.bound@);
        assert(self.is_desc(n, n));
    }

    /// Everything a traversal from `n` draws is a drawable node of `n`'s subtree.
    proof fn lemma_draw_order_sound(&self, n: int)
        requires
            self.wf(),
            0 <= n < self.len(),
        ensures
            forall|x: usize| #[trigger]
                self.draw_order(n).contains(x) ==> self.is_desc(x as int, n) && self.is_drawable(x as int),
        decreases self.rank_of(n), self.children_of(n).len() + 1,
    {
        self.lemma_draw_order_from_sound(n, 0);
        let own = if self.is_drawable(n) {
            seq![n as usize]
        } else {
            Seq::<usize>::empty()
        };
        assert(self.draw_order(n) == own + self.draw_order_from(n, 0));
        assert forall|x: usize| #[trigger] self.draw_order(n).contains(x) implies self.is_desc(x as int, n)
            && self.is_drawable(x as int) by {
            let i = choose|i: int| 0 <= i < self.draw_order(n).len() && self.draw_order(n)[i] == x;
            assert((own + self.draw_order_from(n, 0))[i] == x);
            if i < own.len() {
                assert(x == n);
            } else {
                assert(self.draw_order_from(n, 0)[i - own.len()] == x);
                assert(self.draw_order_from(n, 0).contains(x));
            }
        }
    }

    proof fn lemma_draw_order_from_sound(&self, n: int, k: int)
        requires
            self.wf(),
            0 <= n < self.len(),
            0 <= k,
        ensures
            forall|x: usize| #[trigger]
                self.draw_order_from(n, k).contains(x) ==> self.is_desc(x as int, n) && self.is_drawable(
                    x as int,
                ),
        decreases self.rank_of(n), self.children_of(n).len() - k,
    {
        if k < self.children_of(n).len() {
            let c = self.children_of(n)[k] as int;
            assert(self.parent_of(c) == Some(n as usize));
            self.lemma_child_is_desc(n, k);
            self.lemma_draw_order_sound(c);
            self.lemma_draw_order_from_sound(n, k + 1);
            let first = self.draw_order(c);
            assert(self.draw_order_from(n, k) == first + self.draw_order_from(n, k + 1));
            assert forall|x: usize| #[trigger] self.draw_order_from(n, k).contains(x) implies self.is_desc(
                x as int,
                n,
            ) && self.is_drawable(x as int) by {
                let i = choose|i: int|
                    0 <= i < self.draw_order_from(n, k).len() && self.draw_order_from(n, k)[i] == x;
                assert((first + self.draw_order_from(n, k + 1))[i] == x);
                if i < first.len() {
                    assert(first[i] == x);
                    assert(first.contains(x));
                    self.lemma_desc_trans(x as int, c, n);
                } else {
                    assert(self.draw_order_from(n, k + 1)[i - first.len()] == x);
                    assert(self.draw_order_from(n, k + 1).contains(x));
                }
            }
        }
    }

    proof fn lemma_draw_order_from_covers(&self, n: int, k: int, j: int)
        requires
            self.wf(),
            0 <= n < self.len(),
            0 <= k <= j < self.children_of(n).len(),
        ensures
            forall|x: usize| #[trigger]
                self.draw_order(self.children_of(n)[j] as int).contains(x) ==> self.draw_order_from(
                    n,
                    k,
                ).contains(x),
        decreases j - k,
    {
        let c = self.children_of(n)[k] as int;
        assert(self.parent_of(c) == Some(n as usize));
        let first = self.draw_order(c);
        let rest = self.draw_order_from(n, k + 1);
        assert(self.draw_order_from(n, k) == first + rest);
        if k < j {
            self.lemma_draw_order_from_covers(n, k + 1, j);
        }
        assert forall|x: usize| #[trigger]
            self.draw_order(self.children_of(n)[j] as int).contains(x) implies self.draw_order_from(
            n,
            k,
        ).contains(x) by {
            if k == j {
                let i = choose|i: int| 0 <= i < first.len() && first[i] == x;
                assert((first + rest)[i] == x);
            } else {
                assert(rest.contains(x));
                let i = choose|i: int| 0 <= i < rest.len() && rest[i] == x;
                assert((first + rest)[first.len() + i] == x);
            }
        }
    }

    /// A traversal from `r` draws everything that one from a node of its subtree draws.
    proof fn lemma_draw_order_covers(&self, x: int, r: int)
        requires
            self.wf(),
            self.is_desc(x, r),
        ensures
            forall|y: usize| #[trigger] self.draw_order(x).contains(y) ==> self.draw_order(r).contains(y),
        decreases self.bound@ - self.rank_of(x),
    {
        if x != r {
            let p = self.parent_of(x).unwrap() as int;
            assert(0 <= x < self.len());
            self.lemma_draw_order_covers(p, r);
            assert(self.children_of(p).contains(x as usize));
            let j = choose|j: int| 0 <= j < self.children_of(p).len() && self.children_of(p)[j] == x as usize;
            self.lemma_draw_order_from_covers(p, 0, j);
            let own = if self.is_drawable(p) {
                seq![p as usize]
            } else {
                Seq::<usize>::empty()
            };
            assert forall|y: usize| #[trigger] self.draw_order(x).contains(y) implies self.draw_order(
                r,
            ).contains(y) by {
                let rest = self.draw_order_from(p, 0);
                assert(self.draw_order(p) == own + rest);
                assert(rest.contains(y));
                let i = choose|i: int| 0 <= i < rest.len() && rest[i] == y;
                assert((own + rest)[own.len() + i] == y);
                assert(self.draw_order(p).contains(y));
            }
        }
    }

    /// A traversal from `r` draws exactly the drawable nodes of `r`'s subtree: a
    /// node with an index count of 0 or less is never drawn, and it does not keep
    /// its descendants from being drawn.
    pub proof fn lemma_draw_order_exact(&self, r: int)
        requires
            self.wf(),
            0 <= r < self.len(),
        ensures
            forall|x: usize| #[trigger]
                self.draw_order(r).contains(x) <==> self.is_desc(x as int, r) && self.is_drawable(x as int),
    {
        self.lemma_draw_order_sound(r);
        assert forall|x: usize| self.is_desc(x as int, r) && self.is_drawable(x as int) implies #[trigger]
            self.draw_order(r).contains(x) by {
            self.lemma_draw_order_covers(x as int, r);
            self.lemma_desc_rank(x as int, r);
            assert(self.draw_order(x as int) == seq![x] + self.draw_order_from(x as int, 0));
            assert(self.draw_order(x as int)[0] == x);
            assert(self.draw_order(x as int).contains(x));
        }
    }

    fn draw_into(&self, n: usize, out: &mut Vec<usize>)
        requires
            self.wf(),
            n < self.len(),
        ensures
            final(out)@ == old(out)@ + self.draw_order(n as int),
        decreases self.rank_of(n as int),
    {
        let ghost own = if self.is_drawable(n as int) {
            seq![n]
        } else {
            Seq::<usize>::empty()
        };
        if self.nodes[n].index_count > 0 {
            out.push(n);
        }
        assert(out@ == old(out)@ + own);
        let mut k: usize = 0;
        while k < self.nodes[n].children.len()
            invariant
                self.wf(),
                n < self.len(),
                k <= self.children_of(n as int).len(),
                out@ + self.draw_order_from(n as int, k as int) == old(out)@ + self.draw_order(n as int),
            decreases self.children_of(n as int).len() - k,
        {
            let c = self.nodes[n].children[k];
            assert(self.parent_of(c as int) == Some(n));
            assert(c < self.len() && self.rank_of(c as int) < self.rank_of(n as int));
            let ghost before = out@;
            self.draw_into(c, out);
            assert(self.draw_order_from(n as int, k as int) == self.draw_order(c as int)
                + self.draw_order_from(n as int, k as int + 1));
            assert(out@ + self.draw_order_from(n as int, k as int + 1) =~= before
                + self.draw_order_from(n as int, k as int));
            k += 1;
        }
        assert(self.draw_order_from(n as int, k as int) == Seq::<usize>::empty());
        assert(out@ =~= out@ + Seq::<usize>::empty());
    }

    /// The nodes to draw from `root`, in depth-first order: a node comes before
    /// its descendants, and the subtrees of its children follow one another in
    /// the order the children were added. A node whose index count is 0 or less
    /// is left out, but its descendants are still visited.
    pub fn draw_scene(&self, root: usize) -> (r: Vec<usize>)
        requires
            self.wf(),
            root < self.len(),
        ensures
            r@ == self.draw_order(root as int),
            forall|x: usize| #[trigger]
                r@.contains(x) <==> self.is_desc(x as int, root as int) && self.is_drawable(x as int),
    {
        let mut out: Vec<usize> = Vec::new();
        self.draw_into(root, &mut out);
        assert(out@ =~= self.draw_order(root as int));
        proof {
            self.lemma_draw_order_exact(root as int);
        }
        out
    }
}

impl<A, M> SceneGraph<A, M> {
    /// The transform that node `i` inherits in a pass from `root`: the one handed
    /// to the pass for `root` itself, its parent's world transform otherwise.
    pub open spec fn inherited_by(&self, root: int, inherited: M, i: int) -> Option<M> {
        if i == root {
            Some(inherited)
        } else {
            match self.parent_of(i) {
                Some(p) => self.worlds@[p as int],
                None => None,
            }
        }
    }

    /// Node `i` holds the world transform that `step` gives for what it inherits
    /// and its own local attributes.
    pub open spec fn is_propagated<F: Fn(&M, &A) -> M>(&self, step: F, root: int, inherited: M, i: int) -> bool {
        match (self.inherited_by(root, inherited, i), self.worlds@[i]) {
            (Some(m), Some(w)) => call_ensures(step, (&m, &self.nodes@[i].local), w),
            _ => false,
        }
    }

    proof fn lemma_desc_same_nodes(&self, other: &Self, x: int, r: int)
        requires
            other.nodes@ == self.nodes@,
            other.rank == self.rank,
            other.bound == self.bound,
        ensures
            self.is_desc(x, r) == other.is_desc(x, r),
        decreases self.bound@ - self.rank_of(x),
    {
        if x != r && 0 <= x < self.len() {
            if let Some(p) = self.parent_of(x) {
                if p < self.len() && self.rank_of(x) < self.rank_of(p as int) < self.bound@ {
                    self.lemma_desc_same_nodes(other, p as int, r);
                }
            }
        }
    }

    /// The invariant reads only the links between nodes and the number of world
    /// transforms.
    proof fn lemma_wf_frame(&self, other: &Self)
        requires
            self.wf(),
            other.len() == self.len(),
            forall|i: int|
                #![trigger other.parent_of(i)]
                #![trigger other.children_of(i)]
                0 <= i < self.len() ==> other.parent_of(i) == self.parent_of(i) && other.children_of(i)
                    == self.children_of(i),
            other.worlds@.len() == self.worlds@.len(),
            other.rank == self.rank,
            other.bound == self.bound,
        ensures
            other.wf(),
    {
        assert forall|i: int| 0 <= i < other.len() implies #[trigger] other.rank_of(i) < other.bound@ by {
            assert(self.rank_of(i) < self.bound@);
        }
        assert forall|i: int|
            0 <= i < other.len() implies match #[trigger] other.parent_of(i) {
            Some(p) => p < other.len() && other.rank_of(i) < other.rank_of(p as int)
                && other.children_of(p as int).contains(i as usize),
            None => true,
        } by {
            assert(self.parent_of(i) == other.parent_of(i));
            if let Some(p) = self.parent_of(i) {
                assert(self.children_of(p as int) == other.children_of(p as int));
            }
        }
        assert forall|i: int, j: int|
            0 <= i < other.len() && 0 <= j < other.children_of(i).len() implies {
            let c = #[trigger] other.children_of(i)[j];
            &&& c < other.len()
            &&& other.parent_of(c as int) == Some(i as usize)
        } by {
            assert(self.children_of(i) == other.children_of(i));
            let c = self.children_of(i)[j];
            assert(self.parent_of(c as int) == other.parent_of(c as int));
        }
        assert forall|i: int, j: int, k: int|
            0 <= i < other.len() && 0 <= j < k < other.children_of(i).len() implies
            #[trigger] other.children_of(i)[j] != #[trigger] other.children_of(i)[k] by {
            assert(self.children_of(i) == other.children_of(i));
            assert(self.children_of(i)[j] != self.children_of(i)[k]);
        }
    }

    /// Node `i`'s world transform is what `step` gives for its parent's world
    /// transform and its own local attributes.
    pub open spec fn follows_parent<F: Fn(&M, &A) -> M>(&self, step: F, i: int) -> bool {
        match self.parent_of(i) {
            Some(p) => match (self.worlds@[p as int], self.worlds@[i]) {
                (Some(m), Some(w)) => call_ensures(step, (&m, &self.nodes@[i].local), w),
                _ => false,
            },
            None => false,
        }
    }

    /// Recomputes the world transforms of the nodes below `n` from `n`'s own,
    /// each node before its children.
    #[verifier::rlimit(80)]
    fn propagate_below<F: Fn(&M, &A) -> M>(&mut self, n: usize, step: &F)
        requires
            old(self).wf(),
            n < old(self).len(),
            old(self).worlds@[n as int].is_some(),
            forall|m: &M, a: &A| #[trigger] call_requires(*step, (m, a)),
        ensures
            final(self).wf(),
            final(self).nodes@ == old(self).nodes@,
            final(self).rank == old(self).rank,
            final(self).bound == old(self).bound,
            forall|x: int|
                #![trigger final(self).worlds@[x]]
                #![trigger final(self).follows_parent(*step, x)]
                0 <= x < final(self).len() ==> if x != n && final(self).is_desc(x, n as int) {
                    final(self).follows_parent(*step, x)
                } else {
                    final(self).worlds@[x] == old(self).worlds@[x]
                },
        decreases old(self).rank_of(n as int),
    {
        let ghost o = *self;
        let mut k: usize = 0;
        while k < self.nodes[n].children.len()
            invariant
                self.wf(),
                n < self.len(),
                self.nodes@ == o.nodes@,
                self.rank == o.rank,
                self.bound == o.bound,
                o.rank == old(self).rank,
                o.worlds@[n as int].is_some(),
                k <= self.children_of(n as int).len(),
                forall|m: &M, a: &A| #[trigger] call_requires(*step, (m, a)),
                forall|x: int|
                    #![trigger self.worlds@[x]]
                    #![trigger self.follows_parent(*step, x)]
                    0 <= x < self.len() ==> if exists|j: int|
                        0 <= j < k && #[trigger] self.is_desc(x, self.children_of(n as int)[j] as int) {
                        self.follows_parent(*step, x)
                    } else {
                        self.worlds@[x] == o.worlds@[x]
                    },
            decreases self.children_of(n as int).len() - k,
        {
            let c = self.nodes[n].children[k];
            let ghost before = *self;
            assert(self.parent_of(c as int) == Some(n));
            assert(!(exists|j: int| 0 <= j < k && #[trigger] self.is_desc(n as int, self.children_of(n as int)[j] as int))) by {
                assert forall|j: int| 0 <= j < k implies !#[trigger] self.is_desc(n as int, self.children_of(n as int)[j] as int) by {
                    let cj = self.children_of(n as int)[j] as int;
                    assert(self.parent_of(cj) == Some(n));
                    if self.is_desc(n as int, cj) {
                        self.lemma_desc_rank(n as int, cj);
                    }
                }
            }
            assert(self.worlds@[n as int] == o.worlds@[n as int]);
            let w = match &self.worlds[n] {
                Some(pw) => step(pw, &self.nodes[c].local),
                None => {
                    assert(false);
                    return;
                },
            };
            self.worlds[c] = Some(w);
            proof {
                before.lemma_wf_frame(self);
            }
            let ghost mid = *self;
            assert(mid.follows_parent(*step, c as int));
            assert(self.rank_of(c as int) < old(self).rank_of(n as int));
            self.propagate_below(c, step);
            k += 1;
            proof {
                assert(self.worlds@[n as int] == mid.worlds@[n as int]) by {
                    if self.is_desc(n as int, c as int) {
                        self.lemma_desc_rank(n as int, c as int);
                    }
                }
                assert forall|x: int|
                    #![trigger self.worlds@[x]]
                    #![trigger self.follows_parent(*step, x)]
                    0 <= x < self.len() implies if exists|j: int|
                    0 <= j < k && #[trigger] self.is_desc(x, self.children_of(n as int)[j] as int) {
                    self.follows_parent(*step, x)
                } else {
                    self.worlds@[x] == o.worlds@[x]
                } by {
                    let _ = before.worlds@[x];
                    assert forall|j: int| 0 <= j < k implies #[trigger] self.is_desc(x, self.children_of(n as int)[j] as int)
                        == before.is_desc(x, before.children_of(n as int)[j] as int) by {
                        before.lemma_desc_same_nodes(self, x, self.children_of(n as int)[j] as int);
                    }
                    let in_c = self.is_desc(x, c as int);
                    let _ = self.worlds@[x];
                    let _ = mid.worlds@[x];
                    if in_c {
                        if x == c {
                            assert(self.worlds@[x] == mid.worlds@[x]);
                            assert(self.follows_parent(*step, x));
                        } else {
                            assert(self.follows_parent(*step, x));
                        }
                        assert(self.is_desc(x, self.children_of(n as int)[k - 1] as int));
                    } else {
                        assert(self.worlds@[x] == mid.worlds@[x]);
                        assert(x != c);
                        assert(mid.worlds@[x] == before.worlds@[x]);
                        if exists|j: int| 0 <= j < k - 1 && #[trigger] self.is_desc(x, self.children_of(n as int)[j] as int) {
                            let j = choose|j: int| 0 <= j < k - 1 && #[trigger] self.is_desc(x, self.children_of(n as int)[j] as int);
                            let cj = self.children_of(n as int)[j] as int;
                            assert(before.is_desc(x, before.children_of(n as int)[j] as int));
                            assert(before.follows_parent(*step, x));
                            let q = self.parent_of(x).unwrap() as int;
                            if x != cj {
                                assert(self.is_desc(q, cj));
                                self.lemma_siblings_disjoint(n as int, j, k - 1, q);
                            } else {
                                assert(self.parent_of(cj) == Some(n));
                            }
                            let _ = self.worlds@[q];
                            let _ = mid.worlds@[q];
                            assert(q != c as int) by {
                                if q == c as int {
                                    assert(self.is_desc(c as int, c as int));
                                }
                            }
                            assert(self.worlds@[q] == mid.worlds@[q]);
                            assert(self.worlds@[q] == before.worlds@[q]);
                            assert(self.follows_parent(*step, x));
                        } else {
                            assert forall|j: int| 0 <= j < k - 1 implies !#[trigger] before.is_desc(x, before.children_of(n as int)[j] as int) by {
                                before.lemma_desc_same_nodes(self, x, self.children_of(n as int)[j] as int);
                                assert(!self.is_desc(x, self.children_of(n as int)[j] as int));
                            }
                            assert(before.worlds@[x] == o.worlds@[x]);
                            assert(!exists|j: int| 0 <= j < k && #[trigger] self.is_desc(x, self.children_of(n as int)[j] as int));
                        }
                    }
                }
            }
        }
        proof {
            assert forall|x: int| 0 <= x < self.len() implies if x != n && self.is_desc(x, n as int) {
                #[trigger] self.follows_parent(*step, x)
            } else {
                self.worlds@[x] == o.worlds@[x]
            } by {
                assert(k == self.children_of(n as int).len());
                let _ = self.worlds@[x];
                if x != n && self.is_desc(x, n as int) {
                    self.lemma_below_some_child(x, n as int);
                }
                if exists|j: int| 0 <= j < k && #[trigger] self.is_desc(x, self.children_of(n as int)[j] as int) {
                    let j = choose|j: int| 0 <= j < k && #[trigger] self.is_desc(x, self.children_of(n as int)[j] as int);
                    self.lemma_child_is_desc(n as int, j);
                    self.lemma_desc_trans(x, self.children_of(n as int)[j] as int, n as int);
                    let cj = self.children_of(n as int)[j] as int;
                    assert(self.parent_of(cj) == Some(n));
                    if x == n {
                        self.lemma_desc_rank(n as int, cj);
                    }
                }
            }
        }
    }

    /// A node strictly below `n` lies in the subtree of one of `n`'s children.
    proof fn lemma_below_some_child(&self, x: int, n: int)
        requires
            self.wf(),
            self.is_desc(x, n),
            x != n,
        ensures
            exists|j: int|
                0 <= j < self.children_of(n).len() && #[trigger] self.is_desc(x, self.children_of(n)[j] as int),
        decreases self.bound@ - self.rank_of(x),
    {
        let p = self.parent_of(x).unwrap() as int;
        if p == n {
            assert(self.children_of(n).contains(x as usize));
            let j = choose|j: int| 0 <= j < self.children_of(n).len() && self.children_of(n)[j] == x as usize;
            assert(self.is_desc(x, self.children_of(n)[j] as int));
        } else {
            self.lemma_below_some_child(p, n);
            let j = choose|j: int|
                0 <= j < self.children_of(n).len() && #[trigger] self.is_desc(p, self.children_of(n)[j] as int);
            assert(self.is_desc(x, p)) by {
                assert(self.rank_of(p) < self.bound@);
                assert(self.is_desc(p, p));
            }
            self.lemma_desc_trans(x, p, self.children_of(n)[j] as int);
        }
    }

    /// Recomputes the world transform of every node of the subtree of `root`, a
    /// parent strictly before its children: `step(m, a)` composes an inherited
    /// transform `m` with the local transform that attributes `a` describe.
    /// `root` inherits `inherited`; every other node its parent's fresh world
    /// transform. Nodes outside the subtree keep theirs.
    pub fn update_node_transformations<F: Fn(&M, &A) -> M>(&mut self, root: usize, inherited: M, step: &F)
        requires
            old(self).wf(),
            root < old(self).len(),
            forall|m: &M, a: &A| #[trigger] call_requires(*step, (m, a)),
        ensures
            final(self).wf(),
            final(self).nodes@ == old(self).nodes@,
            forall|i: int|
                #![trigger final(self).worlds@[i]]
                #![trigger final(self).is_propagated(*step, root as int, inherited, i)]
                0 <= i < final(self).len() ==> if final(self).is_desc(i, root as int) {
                    final(self).is_propagated(*step, root as int, inherited, i)
                } else {
                    final(self).worlds@[i] == old(self).worlds@[i]
                },
    {
        let w = step(&inherited, &self.nodes[root].local);
        let ghost start = *self;
        self.worlds[root] = Some(w);
        proof {
            start.lemma_wf_frame(self);
        }
        let ghost mid = *self;
        self.propagate_below(root, step);
        proof {
            assert forall|i: int| 0 <= i < self.len() implies if self.is_desc(i, root as int) {
                #[trigger] self.is_propagated(*step, root as int, inherited, i)
            } else {
                self.worlds@[i] == old(self).worlds@[i]
            } by {
                assert(self.is_desc(i, root as int) == mid.is_desc(i, root as int)) by {
                    mid.lemma_desc_same_nodes(self, i, root as int);
                }
                assert(self.is_desc(i, root as int) == start.is_desc(i, root as int)) by {
                    start.lemma_desc_same_nodes(self, i, root as int);
                }
                let _ = self.worlds@[i];
                if i == root {
                    assert(self.is_desc(root as int, root as int));
                    assert(self.worlds@[i] == mid.worlds@[i]);
                    assert(mid.worlds@[i] == Some(w));
                } else if self.is_desc(i, root as int) {
                    assert(self.follows_parent(*step, i));
                } else {
                    assert(self.worlds@[i] == mid.worlds@[i]);
                    assert(mid.worlds@[i] == start.worlds@[i]);
                }
            }
        }
    }
}

impl<A, M> SceneGraph<A, M> {
    /// The number of nodes.
    pub fn node_count(&self) -> (r: usize)
        ensures
            r == self.len(),
    {
        self.nodes.len()
    }

    /// Node `i`.
    pub fn node(&self, i: usize) -> (r: &SceneNode<A>)
        requires
            i < self.len(),
        ensures
            *r == self.nodes@[i as int],
    {
        &self.nodes[i]
    }

    /// The world transform of node `i`, once a propagation pass has reached it.
    pub fn world(&self, i: usize) -> (r: &Option<M>)
        requires
            self.wf(),
            i < self.len(),
        ensures
            *r == self.worlds@[i as int],
    {
        &self.worlds[i]
    }

    /// Replaces the local transform attributes of node `i`. The world transforms
    /// stay as they are until the next propagation pass.
    pub fn set_local(&mut self, i: usize, local: A)
        requires
            old(self).wf(),
            i < old(self).len(),
        ensures
            final(self).wf(),
            final(self).worlds@ == old(self).worlds@,
            final(self).len() == old(self).len(),
            final(self).nodes@[i as int].local == local,
            forall|j: int|
                0 <= j < old(self).len() ==> {
                    &&& (#[trigger] final(self).nodes@[j]).parent == old(self).nodes@[j].parent
                    &&& final(self).nodes@[j].children == old(self).nodes@[j].children
                    &&& final(self).nodes@[j].vao_id == old(self).nodes@[j].vao_id
                    &&& final(self).nodes@[j].index_count == old(self).nodes@[j].index_count
                    &&& j != i ==> final(self).nodes@[j].local == old(self).nodes@[j].local
                },
    {
        self.nodes[i].local = local;
        proof {
            let o = old(self);
            assert forall|j: int|
                0 <= j < o.len() implies #[trigger] self.parent_of(j) == o.parent_of(j) && self.children_of(j)
                == o.children_of(j) by {
                if j != i {
                    assert(self.nodes@[j] == o.nodes@[j]);
                }
            }
            o.lemma_wf_frame(self);
        }
    }
}

} // verus!
