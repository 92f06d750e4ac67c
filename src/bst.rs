use vstd::prelude::*;
use crate::lemmas::{
    extends, lemma_child_in_sub, lemma_extends, lemma_outside_subtree, lemma_root_of,
    lemma_sub_trans,
};

verus! {

/// One vertex of a tree. `left` and `right` name the node's children,
/// `parent` the node that holds it in one of those slots; all three are
/// indices into the arena that stores the node.
#[derive(Clone, Copy, Debug)]
pub struct BstNode {
    pub key: Option<i32>,
    pub parent: Option<usize>,
    pub left: Option<usize>,
    pub right: Option<usize>,
}

/// Storage for the nodes of one or more trees. A node's handle is its
/// index; nodes are never removed, so a handle stays valid for the life of
/// the arena.
pub struct BstArena {
    nodes: Vec<BstNode>,
}

/// Why a child could not be attached.
#[derive(Clone, Copy, Debug, PartialEq, Eq, Structural)]
pub enum AttachError {
    /// The requested child slot already holds a node.
    SlotOccupied,
}

impl View for BstArena {
    type V = Seq<BstNode>;

    closed spec fn view(&self) -> Seq<BstNode> {
        self.nodes@
    }
}

/// A node as it is made: key `v`, the given parent, no children.
pub open spec fn fresh_node(v: i32, parent: Option<usize>) -> BstNode {
    BstNode { key: Some(v), parent, left: None, right: None }
}

/// The index held by an optional slot, as a mathematical integer.
pub open spec fn slot_is(slot: Option<usize>, c: int) -> bool {
    match slot {
        Some(i) => i as int == c,
        None => false,
    }
}

/// An optional handle as an optional mathematical integer.
pub open spec fn as_index(o: Option<usize>) -> Option<int> {
    match o {
        Some(i) => Some(i as int),
        None => None,
    }
}

impl BstArena {
    /// The number of nodes.
    pub open spec fn len(self) -> int {
        self@.len() as int
    }

    /// `i` is the handle of a node of the arena.
    pub open spec fn valid(self, i: int) -> bool {
        0 <= i < self.len()
    }

    /// The key of node `i` (every node of a well-formed arena has one).
    pub open spec fn key_at(self, i: int) -> int {
        self@[i].key.unwrap() as int
    }

    /// The links around node `i` agree with each other: a child sits after
    /// its parent in the arena and points back to it, and a parent holds the
    /// node in one of its two slots.
    pub open spec fn node_wf(self, i: int) -> bool {
        let n = self@[i];
        &&& n.key is Some
        &&& n.parent matches Some(p) ==> {
            &&& (p as int) < i
            &&& slot_is(self@[p as int].left, i) || slot_is(self@[p as int].right, i)
        }
        &&& n.left matches Some(l) ==> {
            &&& i < l && l < self.len()
            &&& slot_is(self@[l as int].parent, i)
        }
        &&& n.right matches Some(r) ==> {
            &&& i < r && r < self.len()
            &&& slot_is(self@[r as int].parent, i)
        }
        &&& !(n.left is Some && n.left == n.right)
    }

    pub open spec fn wf(self) -> bool {
        forall|i: int| 0 <= i < self.len() ==> #[trigger] self.node_wf(i)
    }

    /// Node `j` lies in the subtree rooted at node `r` (`r` included).
    pub open spec fn in_sub(self, r: int, j: int) -> bool
        decreases self.len() - r,
    {
        if !(0 <= r < self.len()) {
            false
        } else if r == j {
            true
        } else {
            (match self@[r].left {
                Some(l) => r < l && l < self.len() && self.in_sub(l as int, j),
                None => false,
            }) || (match self@[r].right {
                Some(c) => r < c && c < self.len() && self.in_sub(c as int, j),
                None => false,
            })
        }
    }

    /// Node `j` lies in the left subtree of node `a`.
    pub open spec fn in_left(self, a: int, j: int) -> bool {
        match self@[a].left {
            Some(l) => self.in_sub(l as int, j),
            None => false,
        }
    }

    /// Node `j` lies in the right subtree of node `a`.
    pub open spec fn in_right(self, a: int, j: int) -> bool {
        match self@[a].right {
            Some(c) => self.in_sub(c as int, j),
            None => false,
        }
    }

    /// The ordering of a search tree, at every node of the arena: keys in
    /// the left subtree are smaller, keys in the right subtree larger.
    pub open spec fn is_bst(self) -> bool {
        &&& forall|a: int, j: int|
            0 <= a < self.len() && #[trigger] self.in_left(a, j) ==> self.key_at(j) < self.key_at(a)
        &&& forall|a: int, j: int|
            0 <= a < self.len() && #[trigger] self.in_right(a, j) ==> self.key_at(j) > self.key_at(a)
    }

    /// The node reached from `i` by following parent links to the end.
    pub open spec fn root_of(self, i: int) -> int
        decreases i,
    {
        if 0 <= i < self.len() {
            match self@[i].parent {
                Some(p) => if (p as int) < i {
                    self.root_of(p as int)
                } else {
                    i
                },
                None => i,
            }
        } else {
            i
        }
    }

    /// The end of the chain of left children that starts at `i`.
    pub open spec fn leftmost(self, i: int) -> int
        decreases self.len() - i,
    {
        if 0 <= i < self.len() {
            match self@[i].left {
                Some(l) => if i < l && l < self.len() {
                    self.leftmost(l as int)
                } else {
                    i
                },
                None => i,
            }
        } else {
            i
        }
    }

    /// The end of the chain of right children that starts at `i`.
    pub open spec fn rightmost(self, i: int) -> int
        decreases self.len() - i,
    {
        if 0 <= i < self.len() {
            match self@[i].right {
                Some(c) => if i < c && c < self.len() {
                    self.rightmost(c as int)
                } else {
                    i
                },
                None => i,
            }
        } else {
            i
        }
    }

    /// Where a descent from `i` towards key `v` ends: at the node holding
    /// `v`, or at `None` when it would have to enter an empty slot.
    pub open spec fn descend(self, i: int, v: int) -> Option<int>
        decreases self.len() - i,
    {
        if !(0 <= i < self.len()) {
            None
        } else if self.key_at(i) == v {
            Some(i)
        } else {
            let next = if v > self.key_at(i) {
                self@[i].right
            } else {
                self@[i].left
            };
            match next {
                Some(c) => if i < c && c < self.len() {
                    self.descend(c as int, v)
                } else {
                    None
                },
                None => None,
            }
        }
    }

    /// Climbing from `y` for as long as the node climbed from is a right
    /// child: the first parent reached from a left child, if any.
    pub open spec fn first_left_ancestor(self, y: int) -> Option<int>
        decreases y,
    {
        if 0 <= y < self.len() {
            match self@[y].parent {
                Some(p) => if (p as int) < y {
                    if slot_is(self@[p as int].right, y) {
                        self.first_left_ancestor(p as int)
                    } else {
                        Some(p as int)
                    }
                } else {
                    None
                },
                None => None,
            }
        } else {
            None
        }
    }

    /// The in-order successor of `x` as the tree's links give it: the
    /// leftmost node of the right subtree, else the first ancestor reached
    /// from a left child.
    pub open spec fn successor_of(self, x: int) -> Option<int> {
        match self@[x].right {
            Some(c) => Some(self.leftmost(c as int)),
            None => self.first_left_ancestor(x),
        }
    }

    /// A new node with key `v` placed under node `p` keeps the ordering
    /// with respect to every ancestor of that place.
    pub open spec fn fits_under(self, p: int, v: int) -> bool {
        &&& forall|a: int| 0 <= a < self.len() && #[trigger] self.in_left(a, p) ==> v < self.key_at(a)
        &&& forall|a: int| 0 <= a < self.len() && #[trigger] self.in_right(a, p) ==> v > self.key_at(a)
    }

    /// `s` is the in-order successor of `x` within the tree that holds `x`:
    /// the node of that tree with the smallest key above `x`'s key.
    pub open spec fn is_successor(self, x: int, s: int) -> bool {
        let r = self.root_of(x);
        &&& self.in_sub(r, s)
        &&& self.key_at(s) > self.key_at(x)
        &&& forall|j: int|
            #[trigger] self.in_sub(r, j) && self.key_at(j) > self.key_at(x) ==> self.key_at(s)
                <= self.key_at(j)
    }

    /// No node of the tree that holds `x` has a key above `x`'s key.
    pub open spec fn is_greatest(self, x: int) -> bool {
        forall|j: int| #[trigger] self.in_sub(self.root_of(x), j) ==> self.key_at(j) <= self.key_at(x)
    }

    /// The nodes after a new node with key `v` is appended and placed in
    /// the left (`on_left`) or right slot of node `p`.
    pub open spec fn with_child(self, p: int, v: i32, on_left: bool) -> Seq<BstNode> {
        let n = self.len();
        let old_p = self@[p];
        let new_p = if on_left {
            BstNode { left: Some(n as usize), ..old_p }
        } else {
            BstNode { right: Some(n as usize), ..old_p }
        };
        self@.update(p, new_p).push(fresh_node(v, Some(p as usize)))
    }

    /// A key `v` may go in the left (`on_left`) or right slot of node `p`
    /// without breaking the search-tree ordering.
    pub open spec fn can_attach(self, p: int, v: int, on_left: bool) -> bool {
        &&& if on_left {
            v < self.key_at(p)
        } else {
            v > self.key_at(p)
        }
        &&& self.fits_under(p, v)
    }

    /// An arena with no nodes.
    pub fn new() -> (r: BstArena)
        ensures
            r.wf(),
            r.is_bst(),
            r@ == Seq::<BstNode>::empty(),
    {
        BstArena { nodes: Vec::new() }
    }

    /// How many nodes the arena holds.
    pub fn node_count(&self) -> (r: usize)
        ensures
            r as int == self.len(),
    {
        self.nodes.len()
    }

    /// A copy of the node with handle `i`.
    pub fn node(&self, i: usize) -> (r: BstNode)
        requires
            self.valid(i as int),
        ensures
            r == self@[i as int],
    {
        self.nodes[i]
    }
}

impl BstNode {
    fn new(key: i32) -> (r: BstNode)
        ensures
            r == fresh_node(key, None),
    {
        BstNode { key: Some(key), left: None, right: None, parent: None }
    }

    fn new_with_parent(parent: usize, value: i32) -> (r: BstNode)
        ensures
            r == fresh_node(value, Some(parent)),
    {
        let mut node = BstNode::new(value);
        node.parent = Some(parent);
        node
    }

    /// Adds a new root with key `value` to the arena and returns its handle.
    pub fn new_bst_nodelink(tree: &mut BstArena, value: i32) -> (r: usize)
        requires
            old(tree).wf(),
        ensures
            final(tree).wf(),
            r as int == old(tree).len(),
            final(tree)@ == old(tree)@.push(fresh_node(value, None)),
            old(tree).is_bst() ==> final(tree).is_bst(),
    {
        let ghost before = *tree;
        let n = tree.nodes.len();
        tree.nodes.push(BstNode::new(value));
        proof {
            assert(extends(before, *tree, None, value as int));
            lemma_extends(before, *tree, None, value as int);
        }
        n
    }

    /// A copy of this node, links included.
    pub fn get_bst_nodelink_copy(&self) -> (r: BstNode)
        ensures
            r == *self,
    {
        *self
    }

    /// Shared body of `add_left_child` and `add_right_child`.
    fn attach_child(
        tree: &mut BstArena,
        parent: usize,
        value: i32,
        on_left: bool,
    ) -> (r: Result<usize, AttachError>)
        requires
            old(tree).wf(),
            old(tree).valid(parent as int),
        ensures
            final(tree).wf(),
            match r {
                Ok(c) => {
                    &&& (if on_left {
                        old(tree)@[parent as int].left
                    } else {
                        old(tree)@[parent as int].right
                    }) is None
                    &&& c as int == old(tree).len()
                    &&& final(tree)@ == old(tree).with_child(parent as int, value, on_left)
                },
                Err(e) => {
                    &&& (if on_left {
                        old(tree)@[parent as int].left
                    } else {
                        old(tree)@[parent as int].right
                    }) is Some
                    &&& e == AttachError::SlotOccupied
                    &&& final(tree)@ == old(tree)@
                },
            },
            old(tree).is_bst() && old(tree).can_attach(parent as int, value as int, on_left)
                ==> final(tree).is_bst(),
    {
        let ghost before = *tree;
        let mut pn = tree.nodes[parent];
        let slot = if on_left {
            pn.left
        } else {
            pn.right
        };
        if slot.is_some() {
            return Err(AttachError::SlotOccupied);
        }
        let n = tree.nodes.len();
        if on_left {
            pn.left = Some(n);
        } else {
            pn.right = Some(n);
        }
        tree.nodes.set(parent, pn);
        tree.nodes.push(BstNode::new_with_parent(parent, value));
        proof {
            assert(tree@ == before.with_child(parent as int, value, on_left));
            assert(before.node_wf(parent as int));
            assert(extends(before, *tree, Some(parent as int), value as int));
            lemma_extends(before, *tree, Some(parent as int), value as int);
        }
        Ok(n)
    }

    /// Makes a new node with key `value` the left child of `parent`.
    /// Refuses with `SlotOccupied`, changing nothing, when that slot is
    /// taken. The key is not checked against the tree: the ordering is kept
    /// when the caller picks a place where the key fits.
    pub fn add_left_child(tree: &mut BstArena, parent: usize, value: i32) -> (r: Result<usize, AttachError>)
        requires
            old(tree).wf(),
            old(tree).valid(parent as int),
        ensures
            final(tree).wf(),
            match r {
                Ok(c) => {
                    &&& old(tree)@[parent as int].left is None
                    &&& c as int == old(tree).len()
                    &&& final(tree)@ == old(tree).with_child(parent as int, value, true)
                },
                Err(e) => {
                    &&& old(tree)@[parent as int].left is Some
                    &&& e == AttachError::SlotOccupied
                    &&& final(tree)@ == old(tree)@
                },
            },
            old(tree).is_bst() && old(tree).can_attach(parent as int, value as int, true)
                ==> final(tree).is_bst(),
    {
        BstNode::attach_child(tree, parent, value, true)
    }

    /// Makes a new node with key `value` the right child of `parent`.
    /// Refuses with `SlotOccupied`, changing nothing, when that slot is
    /// taken. The key is not checked against the tree: the ordering is kept
    /// when the caller picks a place where the key fits.
    pub fn add_right_child(tree: &mut BstArena, parent: usize, value: i32) -> (r: Result<usize, AttachError>)
        requires
            old(tree).wf(),
            old(tree).valid(parent as int),
        ensures
            final(tree).wf(),
            match r {
                Ok(c) => {
                    &&& old(tree)@[parent as int].right is None
                    &&& c as int == old(tree).len()
                    &&& final(tree)@ == old(tree).with_child(parent as int, value, false)
                },
                Err(e) => {
                    &&& old(tree)@[parent as int].right is Some
                    &&& e == AttachError::SlotOccupied
                    &&& final(tree)@ == old(tree)@
                },
            },
            old(tree).is_bst() && old(tree).can_attach(parent as int, value as int, false)
                ==> final(tree).is_bst(),
    {
        BstNode::attach_child(tree, parent, value, false)
    }

    /// Finds a node of the subtree rooted at `node` whose key is `value`,
    /// descending left or right by comparison with each key on the way.
    pub fn tree_search(tree: &BstArena, node: usize, value: i32) -> (r: Option<usize>)
        requires
            tree.wf(),
            tree.valid(node as int),
        ensures
            as_index(r) == tree.descend(node as int, value as int),
            r matches Some(i) ==> tree.in_sub(node as int, i as int) && tree.key_at(i as int)
                == value,
            tree.is_bst() ==> (r is Some <==> exists|j: int|
                #[trigger] tree.in_sub(node as int, j) && tree.key_at(j) == value),
    {
        let mut cur = node;
        assert(tree.in_sub(node as int, node as int));
        loop
            invariant
                tree.wf(),
                tree.valid(cur as int),
                tree.in_sub(node as int, cur as int),
                tree.descend(cur as int, value as int) == tree.descend(node as int, value as int),
                tree.is_bst() ==> forall|j: int|
                    #[trigger] tree.in_sub(node as int, j) && tree.key_at(j) == value
                        ==> tree.in_sub(cur as int, j),
            decreases tree.len() - cur,
        {
            let n = tree.nodes[cur];
            assert(tree.node_wf(cur as int));
            let k = n.key.unwrap();
            if k == value {
                return Some(cur);
            }
            let next = if value > k {
                n.right
            } else {
                n.left
            };
            match next {
                Some(c) => {
                    proof {
                        assert(tree.in_sub(c as int, c as int));
                        lemma_sub_trans(*tree, node as int, cur as int, c as int);
                        if tree.is_bst() {
                            assert forall|j: int|
                                #[trigger] tree.in_sub(node as int, j) && tree.key_at(j) == value
                                    implies tree.in_sub(c as int, j) by {
                                assert(tree.in_sub(cur as int, j));
                                if value > k {
                                    assert(!tree.in_left(cur as int, j));
                                } else {
                                    assert(!tree.in_right(cur as int, j));
                                }
                            }
                        }
                    }
                    cur = c;
                },
                None => {
                    proof {
                        if tree.is_bst() {
                            assert forall|j: int|
                                #[trigger] tree.in_sub(node as int, j) implies tree.key_at(j)
                                    != value by {
                                if tree.key_at(j) == value {
                                    assert(tree.in_sub(cur as int, j));
                                    if value > k {
                                        assert(!tree.in_left(cur as int, j));
                                    } else {
                                        assert(!tree.in_right(cur as int, j));
                                    }
                                }
                            }
                        }
                    }
                    return None;
                },
            }
        }
    }

    /// The node of the subtree rooted at `node` reached by following left
    /// children to the end: in a search tree, the one with the smallest key.
    pub fn minimum(tree: &BstArena, node: usize) -> (r: usize)
        requires
            tree.wf(),
            tree.valid(node as int),
        ensures
            r as int == tree.leftmost(node as int),
            tree.in_sub(node as int, r as int),
            tree@[r as int].left is None,
            tree.is_bst() ==> forall|j: int|
                #[trigger] tree.in_sub(node as int, j) ==> tree.key_at(r as int) <= tree.key_at(j),
    {
        let mut cur = node;
        assert(tree.in_sub(node as int, node as int));
        loop
            invariant
                tree.wf(),
                tree.valid(cur as int),
                tree.in_sub(node as int, cur as int),
                tree.leftmost(cur as int) == tree.leftmost(node as int),
                tree.is_bst() ==> forall|j: int|
                    #[trigger] tree.in_sub(node as int, j) && !tree.in_sub(cur as int, j)
                        ==> tree.key_at(j) > tree.key_at(cur as int),
            decreases tree.len() - cur,
        {
            assert(tree.node_wf(cur as int));
            match tree.nodes[cur].left {
                Some(l) => {
                    proof {
                        assert(tree.in_sub(l as int, l as int));
                        assert(tree.in_left(cur as int, l as int));
                        lemma_sub_trans(*tree, node as int, cur as int, l as int);
                        if tree.is_bst() {
                            assert forall|j: int|
                                #[trigger] tree.in_sub(node as int, j) && !tree.in_sub(l as int, j)
                                    implies tree.key_at(j) > tree.key_at(l as int) by {
                                if tree.in_sub(cur as int, j) && j != cur {
                                    assert(tree.in_right(cur as int, j));
                                }
                            }
                        }
                    }
                    cur = l;
                },
                None => {
                    proof {
                        if tree.is_bst() {
                            assert forall|j: int| #[trigger] tree.in_sub(node as int, j) implies tree.key_at(
                                cur as int,
                            ) <= tree.key_at(j) by {
                                if tree.in_sub(cur as int, j) && j != cur {
                                    assert(tree.in_right(cur as int, j));
                                }
                            }
                        }
                    }
                    return cur;
                },
            }
        }
    }

    /// The node of the subtree rooted at `node` reached by following right
    /// children to the end: in a search tree, the one with the largest key.
    pub fn maximum(tree: &BstArena, node: usize) -> (r: usize)
        requires
            tree.wf(),
            tree.valid(node as int),
        ensures
            r as int == tree.rightmost(node as int),
            tree.in_sub(node as int, r as int),
            tree@[r as int].right is None,
            tree.is_bst() ==> forall|j: int|
                #[trigger] tree.in_sub(node as int, j) ==> tree.key_at(j) <= tree.key_at(r as int),
    {
        let mut cur = node;
        assert(tree.in_sub(node as int, node as int));
        loop
            invariant
                tree.wf(),
                tree.valid(cur as int),
                tree.in_sub(node as int, cur as int),
                tree.rightmost(cur as int) == tree.rightmost(node as int),
                tree.is_bst() ==> forall|j: int|
                    #[trigger] tree.in_sub(node as int, j) && !tree.in_sub(cur as int, j)
                        ==> tree.key_at(j) < tree.key_at(cur as int),
            decreases tree.len() - cur,
        {
            assert(tree.node_wf(cur as int));
            match tree.nodes[cur].right {
                Some(c) => {
                    proof {
                        assert(tree.in_sub(c as int, c as int));
                        assert(tree.in_right(cur as int, c as int));
                        lemma_sub_trans(*tree, node as int, cur as int, c as int);
                        if tree.is_bst() {
                            assert forall|j: int|
                                #[trigger] tree.in_sub(node as int, j) && !tree.in_sub(c as int, j)
                                    implies tree.key_at(j) < tree.key_at(c as int) by {
                                if tree.in_sub(cur as int, j) && j != cur {
                                    assert(tree.in_left(cur as int, j));
                                }
                            }
                        }
                    }
                    cur = c;
                },
                None => {
                    proof {
                        if tree.is_bst() {
                            assert forall|j: int| #[trigger] tree.in_sub(node as int, j) implies tree.key_at(
                                j,
                            ) <= tree.key_at(cur as int) by {
                                if tree.in_sub(cur as int, j) && j != cur {
                                    assert(tree.in_left(cur as int, j));
                                }
                            }
                        }
                    }
                    return cur;
                },
            }
        }
    }

    /// The in-order successor of `x`: the minimum of its right subtree if it
    /// has one, else the nearest ancestor whose left subtree holds `x`.
    /// `None` when no such ancestor exists, that is when `x` holds the
    /// largest key of its tree.
    pub fn tree_successor(tree: &BstArena, x: usize) -> (r: Option<usize>)
        requires
            tree.wf(),
            tree.valid(x as int),
        ensures
            as_index(r) == tree.successor_of(x as int),
            r matches Some(s) ==> tree.in_sub(tree.root_of(x as int), s as int),
            tree.is_bst() ==> match r {
                Some(s) => tree.is_successor(x as int, s as int),
                None => tree.is_greatest(x as int),
            },
    {
        let ghost root = tree.root_of(x as int);
        proof {
            lemma_root_of(*tree, x as int);
            assert(tree.node_wf(x as int));
        }
        match tree.nodes[x].right {
            Some(c) => {
                let s = Self::minimum(tree, c);
                proof {
                    assert(tree.in_sub(c as int, c as int));
                    assert(tree.in_right(x as int, c as int));
                    lemma_sub_trans(*tree, x as int, c as int, s as int);
                    lemma_sub_trans(*tree, root, x as int, s as int);
                    if tree.is_bst() {
                        assert(tree.in_right(x as int, s as int));
                        assert forall|j: int|
                            #[trigger] tree.in_sub(root, j) && tree.key_at(j) > tree.key_at(x as int)
                                implies tree.key_at(s as int) <= tree.key_at(j) by {
                            if tree.in_sub(x as int, j) {
                                assert(!tree.in_left(x as int, j));
                                assert(tree.in_right(x as int, j));
                            } else {
                                lemma_outside_subtree(*tree, root, x as int, j);
                                assert(tree.in_sub(x as int, x as int));
                            }
                        }
                    }
                }
                return Some(s);
            },
            None => {},
        }
        let mut y = x;
        assert(tree.in_sub(x as int, x as int));
        proof {
            if tree.is_bst() {
                assert forall|j: int| #[trigger] tree.in_sub(x as int, j) implies tree.key_at(j)
                    <= tree.key_at(x as int) by {
                    if j != x {
                        assert(tree.in_left(x as int, j));
                    }
                }
            }
        }
        loop
            invariant
                tree.wf(),
                tree.valid(y as int),
                tree.in_sub(y as int, x as int),
                tree.root_of(y as int) == root,
                root == tree.root_of(x as int),
                tree@[x as int].right is None,
                tree.first_left_ancestor(y as int) == tree.first_left_ancestor(x as int),
                tree.is_bst() ==> forall|j: int|
                    #[trigger] tree.in_sub(y as int, j) ==> tree.key_at(j) <= tree.key_at(x as int),
            decreases y,
        {
            assert(tree.node_wf(y as int));
            match tree.nodes[y].parent {
                None => {
                    assert(tree.root_of(y as int) == y as int);
                    return None;
                },
                Some(p) => {
                    proof {
                        assert(tree.node_wf(p as int));
                        lemma_child_in_sub(*tree, y as int);
                        lemma_sub_trans(*tree, p as int, y as int, x as int);
                    }
                    let from_right = match tree.nodes[p].right {
                        Some(c) => c == y,
                        None => false,
                    };
                    if from_right {
                        proof {
                            if tree.is_bst() {
                                assert(tree.in_right(p as int, x as int));
                                assert forall|j: int| #[trigger] tree.in_sub(p as int, j) implies tree.key_at(
                                    j,
                                ) <= tree.key_at(x as int) by {
                                    if j != p && !tree.in_right(p as int, j) {
                                        assert(tree.in_left(p as int, j));
                                    }
                                }
                            }
                        }
                        y = p;
                    } else {
                        proof {
                            lemma_root_of(*tree, p as int);
                            if tree.is_bst() {
                                assert(tree.in_left(p as int, x as int));
                                assert forall|j: int|
                                    #[trigger] tree.in_sub(root, j) && tree.key_at(j) > tree.key_at(
                                        x as int,
                                    ) implies tree.key_at(p as int) <= tree.key_at(j) by {
                                    if tree.in_sub(p as int, j) {
                                        if j != p && !tree.in_right(p as int, j) {
                                            assert(tree.in_left(p as int, j));
                                        }
                                    } else {
                                        lemma_outside_subtree(*tree, root, p as int, j);
                                        assert(tree.in_sub(p as int, p as int));
                                    }
                                }
                            }
                        }
                        return Some(p);
                    }
                },
            }
        }
    }

    /// Whether two nodes hold the same key. This compares values, not
    /// handles: two different nodes with equal keys match.
    pub fn is_node_match(anode: &BstNode, bnode: &BstNode) -> (r: bool)
        ensures
            r == (anode.key == bnode.key),
    {
        match (anode.key, bnode.key) {
            (Some(a), Some(b)) => a == b,
            (None, None) => true,
            _ => false,
        }
    }

    /// `is_node_match` lifted to optional nodes: two absent nodes match, an
    /// absent and a present one do not.
    pub fn is_node_match_option(node1: Option<BstNode>, node2: Option<BstNode>) -> (r: bool)
        ensures
            r == match (node1, node2) {
                (None, None) => true,
                (Some(a), Some(b)) => a.key == b.key,
                _ => false,
            },
    {
        match (node1, node2) {
            (None, None) => true,
            (Some(a), Some(b)) => BstNode::is_node_match(&a, &b),
            _ => false,
        }
    }

    /// The root of the tree that holds `node`, found by following parent
    /// links upward; a root is its own root.
    pub fn get_root(tree: &BstArena, node: usize) -> (r: usize)
        requires
            tree.wf(),
            tree.valid(node as int),
        ensures
            r as int == tree.root_of(node as int),
            tree.valid(r as int),
            tree@[r as int].parent is None,
            tree.in_sub(r as int, node as int),
    {
        let mut cur = node;
        loop
            invariant
                tree.wf(),
                tree.valid(cur as int),
                tree.root_of(cur as int) == tree.root_of(node as int),
            decreases cur,
        {
            assert(tree.node_wf(cur as int));
            match tree.nodes[cur].parent {
                Some(p) => {
                    cur = p;
                },
                None => {
                    assert(tree.root_of(cur as int) == cur as int);
                    proof {
                        lemma_root_of(*tree, node as int);
                    }
                    return cur;
                },
            }
        }
    }
}

} // verus!
