use vstd::prelude::*;
use crate::bst::{BstArena, slot_is};

verus! {

/// Subtrees nest: what lies under `b` lies under every node above `b`.
pub proof fn lemma_sub_trans(t: BstArena, a: int, b: int, c: int)
    requires
        t.wf(),
        t.in_sub(a, b),
        t.in_sub(b, c),
    ensures
        t.in_sub(a, c),
    decreases t.len() - a,
{
    if a != b {
        assert(t.node_wf(a));
        match t@[a].left {
            Some(l) => {
                if t.in_sub(l as int, b) {
                    lemma_sub_trans(t, l as int, b, c);
                }
            },
            None => {},
        }
        match t@[a].right {
            Some(r) => {
                if t.in_sub(r as int, b) {
                    lemma_sub_trans(t, r as int, b, c);
                }
            },
            None => {},
        }
    }
}

/// A node of a subtree is a node of the arena, at or after the subtree's root.
pub proof fn lemma_sub_range(t: BstArena, r: int, j: int)
    requires
        t.in_sub(r, j),
    ensures
        r <= j < t.len(),
    decreases t.len() - r,
{
    if r != j {
        match t@[r].left {
            Some(l) => if r < l && l < t.len() && t.in_sub(l as int, j) {
                lemma_sub_range(t, l as int, j);
            },
            None => {},
        }
        match t@[r].right {
            Some(c) => if r < c && c < t.len() && t.in_sub(c as int, j) {
                lemma_sub_range(t, c as int, j);
            },
            None => {},
        }
    }
}

/// A node strictly below `r` has a parent, and that parent is under `r` too.
pub proof fn lemma_sub_parent(t: BstArena, r: int, u: int)
    requires
        t.wf(),
        t.in_sub(r, u),
        u != r,
    ensures
        t@[u].parent is Some,
        t.in_sub(r, t@[u].parent.unwrap() as int),
    decreases t.len() - r,
{
    assert(t.node_wf(r));
    let c: int = if t.in_left(r, u) {
        t@[r].left.unwrap() as int
    } else {
        t@[r].right.unwrap() as int
    };
    assert(t.in_sub(c, u));
    assert(t.node_wf(c));
    if u != c {
        lemma_sub_parent(t, c, u);
        assert(t.in_sub(c, c));
        assert(t.in_sub(r, c));
        let p = t@[u].parent.unwrap() as int;
        lemma_sub_trans(t, r, c, p);
    }
}

/// A child lies in the subtree of its parent.
pub proof fn lemma_child_in_sub(t: BstArena, c: int)
    requires
        t.wf(),
        t.valid(c),
        t@[c].parent is Some,
    ensures
        t.in_sub(t@[c].parent.unwrap() as int, c),
{
    assert(t.node_wf(c));
    let p = t@[c].parent.unwrap() as int;
    assert(t.node_wf(p));
    assert(t.in_sub(c, c));
}

/// Following parent links from `i` ends at a node without a parent whose
/// subtree holds `i`, and starting over from there goes nowhere.
pub proof fn lemma_root_of(t: BstArena, i: int)
    requires
        t.wf(),
        t.valid(i),
    ensures
        t.valid(t.root_of(i)),
        t@[t.root_of(i)].parent is None,
        t.in_sub(t.root_of(i), i),
        t.root_of(t.root_of(i)) == t.root_of(i),
    decreases i,
{
    assert(t.node_wf(i));
    match t@[i].parent {
        Some(p) => {
            lemma_root_of(t, p as int);
            lemma_child_in_sub(t, i);
            lemma_sub_trans(t, t.root_of(i), p as int, i);
        },
        None => {},
    }
}

/// Finding the root is idempotent: the root of a node's root is that root,
/// and a node without a parent is its own root.
pub proof fn lemma_root_idempotent(t: BstArena, x: int)
    requires
        t.wf(),
        t.valid(x),
    ensures
        t.root_of(t.root_of(x)) == t.root_of(x),
        t@[x].parent is None ==> t.root_of(x) == x,
{
    lemma_root_of(t, x);
}

/// In a search tree, the leftmost node under `i` holds the smallest key of
/// the subtree.
pub proof fn lemma_leftmost_is_min(t: BstArena, i: int, j: int)
    requires
        t.wf(),
        t.is_bst(),
        t.in_sub(i, j),
    ensures
        t.key_at(t.leftmost(i)) <= t.key_at(j),
    decreases t.len() - i,
{
    assert(t.node_wf(i));
    match t@[i].left {
        Some(l) => {
            let l = l as int;
            assert(t.in_sub(l, l));
            lemma_leftmost_is_min(t, l, l);
            assert(t.in_left(i, l));
            if t.in_sub(l, j) {
                lemma_leftmost_is_min(t, l, j);
            } else if j != i {
                assert(t.in_right(i, j));
            }
        },
        None => {
            if j != i {
                assert(t.in_right(i, j));
            }
        },
    }
}

/// In a search tree, the rightmost node under `i` holds the largest key of
/// the subtree.
pub proof fn lemma_rightmost_is_max(t: BstArena, i: int, j: int)
    requires
        t.wf(),
        t.is_bst(),
        t.in_sub(i, j),
    ensures
        t.key_at(j) <= t.key_at(t.rightmost(i)),
    decreases t.len() - i,
{
    assert(t.node_wf(i));
    match t@[i].right {
        Some(c) => {
            let c = c as int;
            assert(t.in_sub(c, c));
            lemma_rightmost_is_max(t, c, c);
            assert(t.in_right(i, c));
            if t.in_sub(c, j) {
                lemma_rightmost_is_max(t, c, j);
            } else if j != i {
                assert(t.in_left(i, j));
            }
        },
        None => {
            if j != i {
                assert(t.in_left(i, j));
            }
        },
    }
}

/// Every key of a search tree lies between the key that `minimum` finds
/// and the key that `maximum` finds.
pub proof fn lemma_keys_between_min_and_max(t: BstArena, root: int, n: int)
    requires
        t.wf(),
        t.is_bst(),
        t.in_sub(root, n),
    ensures
        t.key_at(t.leftmost(root)) <= t.key_at(n) <= t.key_at(t.rightmost(root)),
{
    lemma_leftmost_is_min(t, root, n);
    lemma_rightmost_is_max(t, root, n);
}

/// In a search tree, a node `j` outside the subtree of `u` (both in the
/// tree rooted at `r`) is larger than every key of that subtree or smaller
/// than every one.
pub proof fn lemma_outside_subtree(t: BstArena, r: int, u: int, j: int)
    requires
        t.wf(),
        t.is_bst(),
        t.in_sub(r, u),
        t.in_sub(r, j),
        !t.in_sub(u, j),
    ensures
        (forall|i: int| #[trigger] t.in_sub(u, i) ==> t.key_at(i) < t.key_at(j))
            || (forall|i: int| #[trigger] t.in_sub(u, i) ==> t.key_at(i) > t.key_at(j)),
    decreases u,
{
    lemma_sub_range(t, r, u);
    lemma_sub_parent(t, r, u);
    let p = t@[u].parent.unwrap() as int;
    assert(t.node_wf(u));
    assert(t.node_wf(p));
    assert(t.in_sub(p, u)) by {
        lemma_child_in_sub(t, u);
    }
    if slot_is(t@[p].left, u) {
        assert forall|i: int| #[trigger] t.in_sub(u, i) implies t.key_at(i) < t.key_at(p) by {
            assert(t.in_left(p, i));
        }
        if !t.in_sub(p, j) {
            lemma_outside_subtree(t, r, p, j);
            assert forall|i: int| #[trigger] t.in_sub(u, i) implies t.in_sub(p, i) by {
                lemma_sub_trans(t, p, u, i);
            }
        } else if j != p {
            assert(t.in_right(p, j));
        }
    } else {
        assert forall|i: int| #[trigger] t.in_sub(u, i) implies t.key_at(i) > t.key_at(p) by {
            assert(t.in_right(p, i));
        }
        if !t.in_sub(p, j) {
            lemma_outside_subtree(t, r, p, j);
            assert forall|i: int| #[trigger] t.in_sub(u, i) implies t.in_sub(p, i) by {
                lemma_sub_trans(t, p, u, i);
            }
        } else if j != p {
            assert(t.in_left(p, j));
        }
    }
}

/// `new` is `old` with one more node at the end, without children, whose
/// key is `v`; with `link == Some(p)` it is placed in a free slot of node
/// `p`, and no other node changes.
pub open spec fn extends(old: BstArena, new: BstArena, link: Option<int>, v: int) -> bool {
    let n = old.len();
    &&& new.len() == n + 1
    &&& new@[n].key == Some(v as i32)
    &&& new.key_at(n) == v
    &&& new@[n].left is None
    &&& new@[n].right is None
    &&& forall|i: int| 0 <= i < n && link != Some(i) ==> #[trigger] new@[i] == old@[i]
    &&& match link {
        Some(p) => {
            &&& 0 <= p < n
            &&& slot_is(new@[n].parent, p)
            &&& new@[p].key == old@[p].key
            &&& new@[p].parent == old@[p].parent
            &&& {
                ||| old@[p].left is None && slot_is(new@[p].left, n) && new@[p].right == old@[p].right
                ||| old@[p].right is None && slot_is(new@[p].right, n) && new@[p].left == old@[p].left
            }
        },
        None => new@[n].parent is None,
    }
}

/// The key `v` of the added leaf fits where it was placed.
pub open spec fn keeps_order(old: BstArena, new: BstArena, link: Option<int>, v: int) -> bool {
    match link {
        Some(p) => {
            &&& old.fits_under(p, v)
            &&& if slot_is(new@[p].left, old.len()) {
                v < old.key_at(p)
            } else {
                v > old.key_at(p)
            }
        },
        None => true,
    }
}

/// Subtrees after a leaf is added: the same as before, with the new node
/// joining every subtree that holds its parent.
proof fn lemma_extends_sub(old: BstArena, new: BstArena, link: Option<int>, v: int, a: int, j: int)
    requires
        old.wf(),
        extends(old, new, link, v),
        0 <= a <= old.len(),
    ensures
        new.in_sub(a, j) == if a == old.len() {
            j == a
        } else {
            old.in_sub(a, j) || (j == old.len() && (link matches Some(p) && old.in_sub(a, p)))
        },
    decreases new.len() - a,
{
    let n = old.len();
    if a < n {
        assert(old.node_wf(a));
        if link == Some(a) {
            assert(old.in_sub(a, a));
        }
        match new@[a].left {
            Some(l) => if l < n {
                lemma_extends_sub(old, new, link, v, l as int, j);
            } else if l == n {
                lemma_extends_sub(old, new, link, v, n, j);
            },
            None => {},
        }
        match new@[a].right {
            Some(r) => if r < n {
                lemma_extends_sub(old, new, link, v, r as int, j);
            } else if r == n {
                lemma_extends_sub(old, new, link, v, n, j);
            },
            None => {},
        }
        match link {
            Some(p) => if old.in_sub(a, p) && a != p {
                assert(old.in_left(a, p) || old.in_right(a, p));
            },
            None => {},
        }
    }
}

/// Adding a leaf keeps the arena well formed; it keeps the search-tree
/// ordering when the new key fits the place it is given.
pub proof fn lemma_extends(old: BstArena, new: BstArena, link: Option<int>, v: int)
    requires
        old.wf(),
        extends(old, new, link, v),
    ensures
        new.wf(),
        old.is_bst() && keeps_order(old, new, link, v) ==> new.is_bst(),
{
    let n = old.len();
    assert forall|i: int| 0 <= i < new.len() implies #[trigger] new.node_wf(i) by {
        if i < n {
            assert(old.node_wf(i));
            match old@[i].parent {
                Some(q) => {
                    assert(old.node_wf(q as int));
                },
                None => {},
            }
            match old@[i].left {
                Some(l) => {
                    assert(old.node_wf(l as int));
                },
                None => {},
            }
            match old@[i].right {
                Some(r) => {
                    assert(old.node_wf(r as int));
                },
                None => {},
            }
        }
    }
    if old.is_bst() && keeps_order(old, new, link, v) {
        assert forall|a: int, j: int|
            0 <= a < new.len() && #[trigger] new.in_left(a, j) implies new.key_at(j) < new.key_at(a) by {
            let l = new@[a].left.unwrap() as int;
            assert(new.node_wf(a));
            lemma_extends_sub(old, new, link, v, l, j);
            lemma_sub_range(new, l, j);
            if j < n {
                assert(old.in_left(a, j));
            } else if l != n {
                if old.in_sub(l, j) {
                    lemma_sub_range(old, l, j);
                }
                let p = link.unwrap();
                assert(old.in_sub(l, p));
                assert(old@[a].left == new@[a].left);
                assert(old.in_left(a, p));
            }
        }
        assert forall|a: int, j: int|
            0 <= a < new.len() && #[trigger] new.in_right(a, j) implies new.key_at(j) > new.key_at(a) by {
            let r = new@[a].right.unwrap() as int;
            assert(new.node_wf(a));
            lemma_extends_sub(old, new, link, v, r, j);
            lemma_sub_range(new, r, j);
            if j < n {
                assert(old.in_right(a, j));
            } else if r != n {
                if old.in_sub(r, j) {
                    lemma_sub_range(old, r, j);
                }
                let p = link.unwrap();
                assert(old.in_sub(r, p));
                assert(old@[a].right == new@[a].right);
                assert(old.in_right(a, p));
            }
        }
    }
}

} // verus!
