//! The ordered tree: an arena of parent-linked nodes with a synthetic root.
//!
//! Nodes live in one growable store and are addressed by stable integer
//! handles; parent/child relations are handle pairs. Handle 0 is always the
//! synthetic root. A position (`Pos`) is an optional handle, so that "absent"
//! positions can flow through the same queries that valid ones do.

use vstd::prelude::*;

verus! {

/// One heading of a document: its nesting level (1 = top-level) and its
/// display text. The synthetic root carries level 0 and the title `"ROOT"`;
/// placeholder nodes bridging a level gap carry level 0 and the title `"[]"`.
pub struct Heading {
    pub level: usize,
    pub title: String,
}

impl Heading {
    /// Just a humble Heading builder.
    pub fn new(title: String, level: usize) -> (h: Heading)
        ensures
            h.title == title,
            h.level == level,
    {
        Heading { level, title }
    }
}

/// A position in the tree: a node handle, or absent.
pub type Pos = Option<usize>;

/// One node of the arena: an optional back-link to its parent, the handles of
/// its children in insertion order, and its payload.
pub struct Node {
    pub parent: Option<usize>,
    pub children: Vec<usize>,
    pub data: Option<Heading>,
}

impl Node {
    /// Builds a fresh, detached node around a payload.
    pub fn build(data: Option<Heading>) -> (n: Node)
        ensures
            n.parent is None,
            n.children@ == Seq::<usize>::empty(),
            n.data == data,
    {
        Node { parent: None, children: Vec::new(), data }
    }
}

/// The contiguous sequence of integers `a, a + 1, ..., b - 1`.
pub open spec fn range_seq(a: int, b: int) -> Seq<int> {
    if a <= b {
        Seq::new((b - a) as nat, |m: int| a + m)
    } else {
        Seq::empty()
    }
}

/// A positional, linked general tree: a node arena whose handle 0 is the
/// synthetic root, plus the number of nodes attached so far (root included).
pub struct GenTree {
    pub nodes: Vec<Node>,
    pub size: usize,
}

impl GenTree {
    /// Number of nodes in the arena (attached or not).
    pub open spec fn n_nodes(self) -> int {
        self.nodes@.len() as int
    }

    /// Is `i` a handle into the arena?
    pub open spec fn valid(self, i: int) -> bool {
        0 <= i < self.n_nodes()
    }

    /// The parent handle stored at node `i`.
    pub open spec fn parent_idx(self, i: int) -> Option<usize> {
        self.nodes@[i].parent
    }

    /// The children handles stored at node `i`, in insertion order.
    pub open spec fn child_seq(self, i: int) -> Seq<usize> {
        self.nodes@[i].children@
    }

    /// The payload stored at node `i`.
    pub open spec fn data_at(self, i: int) -> Option<Heading> {
        self.nodes@[i].data
    }

    /// The title characters of the payload at node `i`.
    pub open spec fn title_at(self, i: int) -> Seq<char> {
        self.data_at(i).unwrap().title@
    }

    /// A node attached under a parent points back at it, stands strictly
    /// after it in the arena, and its parent's child list records it.
    pub open spec fn link_ok(self, j: int) -> bool {
        &&& self.parent_idx(j) matches Some(p)
        &&& (p as int) < j
        &&& self.valid(p as int)
        &&& self.child_seq(p as int).contains(j as usize)
    }

    /// Well-formedness of the arena: one root without a parent, every payload
    /// present, child lists strictly increasing and consistent with the
    /// parent back-links in both directions. Allocation order respects the
    /// tree order (a child's handle is strictly larger than its parent's),
    /// which is what makes every walk terminate.
    pub open spec fn wf(self) -> bool {
        &&& 1 <= self.n_nodes()
        &&& self.parent_idx(0) is None
        &&& forall|i: int|
            0 <= i < self.n_nodes() ==> (#[trigger] self.data_at(i)) is Some
        &&& forall|i: int, k: int|
            0 <= i < self.n_nodes() && 0 <= k < self.child_seq(i).len() ==> {
                &&& i < #[trigger] self.child_seq(i)[k] as int
                &&& (self.child_seq(i)[k] as int) < self.n_nodes()
                &&& self.parent_idx(self.child_seq(i)[k] as int) == Some(i as usize)
            }
        &&& forall|i: int, k1: int, k2: int|
            0 <= i < self.n_nodes() && 0 <= k1 < k2 < self.child_seq(i).len()
                ==> #[trigger] self.child_seq(i)[k1] < #[trigger] self.child_seq(i)[k2]
        &&& forall|j: int|
            1 <= j < self.n_nodes() && (#[trigger] self.parent_idx(j)) is Some ==> self.link_ok(j)
    }

    /// Is node `i` reachable from the root through parent links?
    pub open spec fn attached(self, i: int) -> bool
        decreases i,
    {
        if i == 0 {
            true
        } else {
            match self.parent_idx(i) {
                Some(p) => (p as int) < i && self.attached(p as int),
                None => false,
            }
        }
    }

    /// Number of nodes on the path from the root to `i`, both included;
    /// the root itself has depth 1.
    pub open spec fn depth(self, i: int) -> int
        decreases i,
    {
        if i == 0 {
            1
        } else {
            match self.parent_idx(i) {
                Some(p) => if (p as int) < i {
                    1 + self.depth(p as int)
                } else {
                    1
                },
                None => 1,
            }
        }
    }

    /// Height of the subtree under `i`: 1 for a childless node, otherwise
    /// 1 plus the largest height among the children.
    pub open spec fn height(self, i: int) -> int
        decreases self.n_nodes() - i, self.child_seq(i).len() + 1,
            when self.wf() && 0 <= i < self.n_nodes()
    {
        1 + self.kids_height(i, 0)
    }

    /// The largest height among the children `k, k + 1, ...` of node `i`,
    /// and 0 where there are none.
    pub open spec fn kids_height(self, i: int, k: int) -> int
        decreases self.n_nodes() - i, self.child_seq(i).len() - k,
            when self.wf() && 0 <= i < self.n_nodes() && 0 <= k <= self.child_seq(i).len()
    {
        if k >= self.child_seq(i).len() {
            0
        } else {
            let hc = self.height(self.child_seq(i)[k] as int);
            let rest = self.kids_height(i, k + 1);
            if hc >= rest {
                hc
            } else {
                rest
            }
        }
    }

    /// The handles of the subtree under `i`, in preorder: `i` first, then
    /// each child's subtree, children in insertion order.
    pub open spec fn preorder(self, i: int) -> Seq<int>
        decreases self.n_nodes() - i, self.child_seq(i).len() + 1,
            when self.wf() && 0 <= i < self.n_nodes()
    {
        seq![i] + self.kids_preorder(i, 0)
    }

    /// The concatenated preorders of the children `k, k + 1, ...` of node `i`.
    pub open spec fn kids_preorder(self, i: int, k: int) -> Seq<int>
        decreases self.n_nodes() - i, self.child_seq(i).len() - k,
            when self.wf() && 0 <= i < self.n_nodes() && 0 <= k <= self.child_seq(i).len()
    {
        if k >= self.child_seq(i).len() {
            Seq::empty()
        } else {
            self.preorder(self.child_seq(i)[k] as int) + self.kids_preorder(i, k + 1)
        }
    }

    /// Heights are positive and bounded by the number of arena slots below.
    pub proof fn lemma_height_bound(self, i: int)
        requires
            self.wf(),
            0 <= i < self.n_nodes(),
        ensures
            1 <= self.height(i) <= self.n_nodes() - i,
        decreases self.n_nodes() - i, self.child_seq(i).len() + 1,
    {
        self.lemma_kids_height_bound(i, 0);
    }

    /// Bound for the running maximum over a child suffix.
    pub proof fn lemma_kids_height_bound(self, i: int, k: int)
        requires
            self.wf(),
            0 <= i < self.n_nodes(),
            0 <= k <= self.child_seq(i).len(),
        ensures
            0 <= self.kids_height(i, k) <= self.n_nodes() - i - 1,
        decreases self.n_nodes() - i, self.child_seq(i).len() - k,
    {
        if k < self.child_seq(i).len() {
            let c = self.child_seq(i)[k] as int;
            self.lemma_height_bound(c);
            self.lemma_kids_height_bound(i, k + 1);
        }
    }

    /// Instantiates a new tree holding only the synthetic root.
    pub fn new() -> (t: GenTree)
        ensures
            t.wf(),
            t.n_nodes() == 1,
            t.size == 1,
            t.child_seq(0) == Seq::<usize>::empty(),
            (t.data_at(0) matches Some(h) && h.title@ == "ROOT"@ && h.level == 0),
    {
        let mut nodes: Vec<Node> = Vec::new();
        let data = Heading::new(String::from_str("ROOT"), 0);
        nodes.push(Node { parent: None, children: Vec::new(), data: Some(data) });
        let t = GenTree { nodes, size: 1 };
        proof {
            assert forall|i: int| 0 <= i < t.n_nodes() implies (#[trigger] t.data_at(i)) is Some by {
                assert(i == 0);
            }
        }
        t
    }

    /// The position of the tree's root.
    pub fn root(&self) -> (r: Pos)
        ensures
            r == Some(0usize),
    {
        Some(0)
    }

    /// Stores a freshly built, detached node in the arena and hands back its
    /// handle. The node is not yet part of the tree: `size` is unchanged
    /// until `add_child` links it under a parent.
    pub fn store(&mut self, node: Node) -> (i: usize)
        requires
            old(self).wf(),
            node.parent is None,
            node.children@ == Seq::<usize>::empty(),
            node.data is Some,
        ensures
            final(self).wf(),
            final(self).nodes@ == old(self).nodes@.push(node),
            i as int == old(self).n_nodes(),
            final(self).n_nodes() == old(self).n_nodes() + 1,
            final(self).n_nodes() <= usize::MAX,
            final(self).size == old(self).size,
            final(self).parent_idx(i as int) is None,
            final(self).child_seq(i as int) == Seq::<usize>::empty(),
            final(self).data_at(i as int) == node.data,
    {
        let i = self.nodes.len();
        self.nodes.push(node);
        let n = self.nodes.len();
        proof {
            assert(self.n_nodes() == n as int);
            let new = *self;
            let old_t = *old(self);
            let m = old_t.n_nodes();
            assert(new.nodes@[m] == node);
            assert forall|x: int| 0 <= x < new.n_nodes() implies (#[trigger] new.data_at(x)) is Some by {
                if x < m {
                    assert(new.data_at(x) == old_t.data_at(x));
                } else {
                    assert(new.data_at(x) == node.data);
                }
            }
            assert forall|a: int, k: int|
                0 <= a < new.n_nodes() && 0 <= k < new.child_seq(a).len() implies {
                    &&& a < #[trigger] new.child_seq(a)[k] as int
                    &&& (new.child_seq(a)[k] as int) < new.n_nodes()
                    &&& new.parent_idx(new.child_seq(a)[k] as int) == Some(a as usize)
                } by {
                if a == m {
                    assert(new.child_seq(a) == node.children@);
                } else {
                    assert(new.child_seq(a) == old_t.child_seq(a));
                    let c = old_t.child_seq(a)[k] as int;
                    assert(c < m);
                    assert(new.parent_idx(c) == old_t.parent_idx(c));
                }
            }
            assert forall|a: int, k1: int, k2: int|
                0 <= a < new.n_nodes() && 0 <= k1 < k2 < new.child_seq(a).len()
                    implies new.child_seq(a)[k1] < new.child_seq(a)[k2] by {
                if a == m {
                    assert(new.child_seq(a) == node.children@);
                } else {
                    assert(new.child_seq(a) == old_t.child_seq(a));
                }
            }
            assert forall|j: int|
                1 <= j < new.n_nodes() && (#[trigger] new.parent_idx(j)) is Some implies new.link_ok(j) by {
                assert(j < m);
                assert(new.parent_idx(j) == old_t.parent_idx(j));
                assert(old_t.link_ok(j));
                let p = old_t.parent_idx(j).unwrap() as int;
                let kw = choose|k: int|
                    0 <= k < old_t.child_seq(p).len() && old_t.child_seq(p)[k] == j as usize;
                assert(new.child_seq(p) == old_t.child_seq(p));
                assert(new.child_seq(p)[kw] == j as usize);
                assert(new.child_seq(p).contains(j as usize));
            }
        }
        i
    }

    /// Returns an immutable reference to a position's payload, or nothing
    /// when the position is absent or outside the arena.
    pub fn get<'a>(&'a self, node: &Pos) -> (r: Option<&'a Heading>)
        ensures
            (match (*node, r) {
                (Some(n), Some(h)) => self.valid(n as int) && self.data_at(n as int) == Some(*h),
                (Some(n), None) => !self.valid(n as int) || self.data_at(n as int) is None,
                (None, None) => true,
                (None, Some(_)) => false,
            }),
    {
        match node {
            Some(n) => {
                if *n < self.nodes.len() {
                    self.nodes[*n].data.as_ref()
                } else {
                    None
                }
            }
            None => None,
        }
    }

    /// Returns the parent position of a given position, if the position is
    /// present in the arena: the root yields `Some(None)`, and an absent or
    /// out-of-range position yields `None`.
    pub fn parent(&self, node: Pos) -> (r: Option<Pos>)
        ensures
            r == (match node {
                Some(n) => if self.valid(n as int) {
                    Some(self.parent_idx(n as int))
                } else {
                    None::<Pos>
                },
                None => None::<Pos>,
            }),
    {
        match node {
            Some(n) => {
                if n < self.nodes.len() {
                    Some(self.nodes[n].parent)
                } else {
                    None
                }
            }
            None => None,
        }
    }

    /// Appends `node` to `ancestor`'s child list and points `node`'s parent
    /// link back at `ancestor`. Only freshly stored, still-detached nodes may
    /// be attached, and only under an ancestor that was stored before them.
    /// With an absent ancestor nothing is attached and `size` does not move:
    /// a no-op attach leaves the tree exactly as it was.
    pub fn add_child(&mut self, ancestor: Pos, node: Pos)
        requires
            old(self).wf(),
            old(self).size < usize::MAX,
            (ancestor matches Some(a) ==> {
                &&& old(self).valid(a as int)
                &&& node matches Some(n)
                &&& old(self).valid(n as int)
                &&& (a as int) < (n as int)
                &&& old(self).parent_idx(n as int) is None
                &&& forall|k: int|
                    0 <= k < old(self).child_seq(a as int).len()
                        ==> #[trigger] old(self).child_seq(a as int)[k] < n
            }),
        ensures
            final(self).wf(),
            (match ancestor {
                Some(a) => {
                    let n = node.unwrap();
                    &&& final(self).n_nodes() == old(self).n_nodes()
                    &&& final(self).size == old(self).size + 1
                    &&& final(self).child_seq(a as int) == old(self).child_seq(a as int).push(n)
                    &&& final(self).parent_idx(n as int) == Some(a)
                    &&& final(self).parent_idx(a as int) == old(self).parent_idx(a as int)
                    &&& final(self).data_at(a as int) == old(self).data_at(a as int)
                    &&& final(self).child_seq(n as int) == old(self).child_seq(n as int)
                    &&& final(self).data_at(n as int) == old(self).data_at(n as int)
                    &&& forall|i: int|
                        0 <= i < final(self).n_nodes() && i != a as int && i != n as int
                            ==> #[trigger] final(self).nodes@[i] == old(self).nodes@[i]
                }
                None => *final(self) == *old(self),
            }),
    {
        if let Some(a) = ancestor {
            let n = node.unwrap();
            self.nodes[a].children.push(n);
            self.nodes[n].parent = Some(a);
            self.size = self.size + 1;
            proof {
                let new = *self;
                let old_t = *old(self);
                let ai = a as int;
                let ni = n as int;
                assert(new.child_seq(ai) == old_t.child_seq(ai).push(n));
                assert forall|i: int| 0 <= i < new.n_nodes() implies (#[trigger] new.data_at(i)) is Some by {
                    assert(new.data_at(i) == old_t.data_at(i));
                }
                assert forall|i: int, k: int|
                    0 <= i < new.n_nodes() && 0 <= k < new.child_seq(i).len() implies {
                        &&& i < #[trigger] new.child_seq(i)[k] as int
                        &&& (new.child_seq(i)[k] as int) < new.n_nodes()
                        &&& new.parent_idx(new.child_seq(i)[k] as int) == Some(i as usize)
                    } by {
                    if i == ai && k == old_t.child_seq(ai).len() {
                        assert(new.child_seq(i)[k] == n);
                    } else {
                        assert(old_t.child_seq(i)[k] == new.child_seq(i)[k]);
                        assert(old_t.child_seq(i)[k] as int != ni) by {
                            if old_t.child_seq(i)[k] as int == ni {
                                assert(old_t.parent_idx(ni) == Some(i as usize));
                            }
                        }
                    }
                }
                assert forall|i: int, k1: int, k2: int|
                    0 <= i < new.n_nodes() && 0 <= k1 < k2 < new.child_seq(i).len()
                        implies new.child_seq(i)[k1] < new.child_seq(i)[k2] by {
                    if i == ai && k2 == old_t.child_seq(ai).len() {
                        assert(new.child_seq(i)[k1] == old_t.child_seq(ai)[k1]);
                    } else {
                        assert(new.child_seq(i)[k1] == old_t.child_seq(i)[k1]);
                        assert(new.child_seq(i)[k2] == old_t.child_seq(i)[k2]);
                    }
                }
                assert forall|j: int|
                    1 <= j < new.n_nodes() && (#[trigger] new.parent_idx(j)) is Some implies new.link_ok(j) by {
                    if j == ni {
                        assert(new.child_seq(ai)[old_t.child_seq(ai).len() as int] == n);
                        assert(new.child_seq(ai).contains(j as usize));
                    } else {
                        assert(new.parent_idx(j) == old_t.parent_idx(j));
                        assert(old_t.link_ok(j));
                        let p = old_t.parent_idx(j).unwrap() as int;
                        let kw = choose|k: int|
                            0 <= k < old_t.child_seq(p).len() && old_t.child_seq(p)[k] == j as usize;
                        assert(new.child_seq(p)[kw] == j as usize);
                        assert(new.child_seq(p).contains(j as usize));
                    }
                }
            }
        }
    }

    /// Returns a reference to the child handles of a present position, or
    /// nothing for an absent or out-of-range one.
    pub fn _children<'a>(&'a self, node: Pos) -> (r: Option<&'a Vec<usize>>)
        ensures
            (match (node, r) {
                (Some(n), Some(v)) => self.valid(n as int) && v@ == self.child_seq(n as int),
                (Some(n), None) => !self.valid(n as int),
                (None, None) => true,
                (None, Some(_)) => false,
            }),
    {
        match node {
            Some(n) => {
                if n < self.nodes.len() {
                    Some(&self.nodes[n].children)
                } else {
                    None
                }
            }
            None => None,
        }
    }

    /// Returns true if the given position is the tree's root.
    pub fn _is_root(&self, node: Pos) -> (r: bool)
        ensures
            r == (node == Some(0usize)),
    {
        match node {
            Some(n) => n == 0,
            None => false,
        }
    }

    /// Does this position name a node that hangs off the root?
    pub open spec fn present(self, node: Pos) -> bool {
        node matches Some(n) && self.valid(n as int) && self.attached(n as int)
    }

    /// Returns the depth for a given node, walking the parent links up to
    /// the root, or nothing when the position is absent, out of range, or
    /// not attached.
    pub fn _depth(&self, node: Pos) -> (r: Option<usize>)
        requires
            self.wf(),
        ensures
            r == (if self.present(node) {
                Some(self.depth(node.unwrap() as int) as usize)
            } else {
                None::<usize>
            }),
    {
        let total = self.nodes.len();
        let mut d: usize = 1;
        let mut cursor: Pos = node;
        while !self._is_root(cursor)
            invariant
                self.wf(),
                total as int == self.n_nodes(),
                1 <= d,
                (self.present(node) ==> {
                    &&& cursor matches Some(c)
                    &&& self.valid(c as int)
                    &&& self.attached(c as int)
                    &&& self.depth(node.unwrap() as int) == self.depth(c as int) + d - 1
                }),
                (!self.present(node) ==> (match cursor {
                    Some(c) => !self.valid(c as int) || !self.attached(c as int),
                    None => true,
                })),
                (cursor matches Some(c) ==> (self.valid(c as int) ==> d + c <= usize::MAX)),
            decreases (match cursor {
                Some(c) => c as int + 1,
                None => 0int,
            }),
        {
            let ghost pre = cursor;
            match self.parent(cursor) {
                Some(next) => {
                    proof {
                        assert(pre matches Some(c0) && self.valid(c0 as int) && c0 != 0);
                        if self.present(node) {
                            let c = pre.unwrap() as int;
                            assert(self.attached(c) && c != 0);
                            assert(self.link_ok(c));
                        }
                    }
                    cursor = next;
                    proof {
                        let c0 = pre.unwrap();
                        assert(self.valid(c0 as int) && c0 >= 1);
                        assert(d + c0 <= usize::MAX);
                        assert(d < usize::MAX);
                    }
                    d = d + 1;
                }
                None => {
                    return None;
                }
            }
        }
        Some(d)
    }

    /// Returns the height of the sub-tree at a given position: 1 for a
    /// childless node, one more than the tallest child otherwise. An absent
    /// position counts as an empty sub-tree of height 1.
    pub fn _height(&self, node: Pos) -> (r: Option<usize>)
        requires
            self.wf(),
            (node matches Some(n) ==> self.valid(n as int)),
        ensures
            r == Some((match node {
                Some(n) => self.height(n as int),
                None => 1int,
            }) as usize),
        decreases (match node {
            Some(n) => self.n_nodes() - n as int,
            None => 0int,
        }),
    {
        let total = self.nodes.len();
        let mut h: usize = 0;
        if let Some(n) = node {
            let ghost ni = n as int;
            proof {
                self.lemma_kids_height_bound(ni, 0);
            }
            let num = self.nodes[n].children.len();
            let mut k: usize = 0;
            while k < num
                invariant
                    self.wf(),
                    self.valid(ni),
                    node == Some(n),
                    n as int == ni,
                    total as int == self.n_nodes(),
                    num == self.child_seq(ni).len(),
                    k <= num,
                    h as int <= self.n_nodes() - ni - 1,
                    self.kids_height(ni, 0) == (if h as int >= self.kids_height(ni, k as int) {
                        h as int
                    } else {
                        self.kids_height(ni, k as int)
                    }),
                decreases num - k,
            {
                let c = self.nodes[n].children[k];
                proof {
                    assert(self.child_seq(ni)[k as int] == c);
                    self.lemma_height_bound(c as int);
                    self.lemma_kids_height_bound(ni, k as int + 1);
                }
                let hc = self._height(Some(c));
                let hcv = hc.unwrap();
                if hcv > h {
                    h = hcv;
                }
                k = k + 1;
            }
        }
        Some(h + 1)
    }
}

} // verus!
