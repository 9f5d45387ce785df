//! An unbalanced binary search tree mapping `i64` keys to values.
//!
//! The tree is modelled two ways at the specification level: as the
//! in-order sequence of its entries (`entries`), and as a finite map
//! from keys to values (the view `@`). Every public operation is
//! specified against one or both of these models.

use vstd::multiset::Multiset;
use vstd::prelude::*;

verus! {

/// A link to a subtree: either empty or an owned node.
pub type Link<V> = Option<Box<Node<V>>>;

/// One node of the tree: a key, its value, and two subtrees.
pub struct Node<V> {
    key: i64,
    value: V,
    left_child: Link<V>,
    right_child: Link<V>,
}

/// The tree itself: a link to the root node.
pub struct BinarySearchTree<V> {
    root: Link<V>,
}

impl<V> Node<V> {
    /// The in-order entry sequence of the subtree under `link`:
    /// left subtree, then the node itself, then the right subtree.
    pub closed spec fn seq_of(link: Link<V>) -> Seq<(i64, V)>
        decreases link,
    {
        match link {
            None => Seq::empty(),
            Some(node) => {
                Node::seq_of(node.left_child) + seq![(node.key, node.value)]
                    + Node::seq_of(node.right_child)
            },
        }
    }

    /// The key/value map held by the subtree under `link`.
    pub closed spec fn map_of(link: Link<V>) -> Map<i64, V>
        decreases link,
    {
        match link {
            None => Map::empty(),
            Some(node) => Node::map_of(node.left_child).union_prefer_right(
                Node::map_of(node.right_child),
            ).insert(node.key, node.value),
        }
    }

    /// The search-tree ordering invariant: every key under a node's left
    /// link is smaller than the node's key, every key under its right
    /// link is greater, recursively at every node.
    pub closed spec fn ordered(link: Link<V>) -> bool
        decreases link,
    {
        match link {
            None => true,
            Some(node) => {
                &&& forall|k: i64| Node::map_of(node.left_child).dom().contains(k) ==> k
                    < node.key
                &&& forall|k: i64| Node::map_of(node.right_child).dom().contains(k)
                    ==> node.key < k
                &&& Node::ordered(node.left_child)
                &&& Node::ordered(node.right_child)
            },
        }
    }
}

impl<V> View for BinarySearchTree<V> {
    type V = Map<i64, V>;

    closed spec fn view(&self) -> Map<i64, V> {
        Node::map_of(self.root)
    }
}

impl<V> BinarySearchTree<V> {
    /// The in-order entry sequence of the whole tree.
    pub closed spec fn entries(self) -> Seq<(i64, V)> {
        Node::seq_of(self.root)
    }

    /// Every public operation preserves this: the ordering invariant
    /// holds, and the node count stays within the machine's reach.
    pub closed spec fn well_formed(self) -> bool {
        &&& Node::ordered(self.root)
        &&& self.entries().len() <= usize::MAX
    }
}

impl<V: Copy> BinarySearchTree<V> {
    pub fn new() -> (tree: Self)
        ensures
            tree.well_formed(),
            tree@ == Map::<i64, V>::empty(),
            tree.entries() == Seq::<(i64, V)>::empty(),
    {
        BinarySearchTree { root: None }
    }

    fn insert_with_node(node: Link<V>, key: i64, value: V) -> (res: Link<V>)
        requires
            Node::ordered(node),
        ensures
            Node::ordered(res),
            Node::map_of(res) == Node::map_of(node).insert(key, value),
            Node::seq_of(res).len() == Node::seq_of(node).len() + (if Node::map_of(
                node,
            ).dom().contains(key) {
                0int
            } else {
                1int
            }),
        decreases node,
    {
        match node {
            None => Some(
                Box::new(
                    Node { key, value, left_child: None, right_child: None },
                ),
            ),
            Some(mut root) => {
                if key == root.key {
                    root.value = value;
                    assert(Node::map_of(Some(root)) =~= Node::map_of(node).insert(key, value));
                } else if key < root.key {
                    proof {
                        assert(!Node::map_of(root.right_child).dom().contains(key));
                    }
                    let taken = root.left_child.take();
                    root.left_child = Self::insert_with_node(taken, key, value);
                    assert(Node::map_of(Some(root)) =~= Node::map_of(node).insert(key, value));
                } else {
                    proof {
                        assert(!Node::map_of(root.left_child).dom().contains(key));
                    }
                    let taken = root.right_child.take();
                    root.right_child = Self::insert_with_node(taken, key, value);
                    assert(Node::map_of(Some(root)) =~= Node::map_of(node).insert(key, value));
                }
                Some(root)
            },
        }
    }

    /// The in-order sequence, the map and the ordering invariant agree:
    /// the map holds exactly the entries of the sequence, one per key,
    /// and the sequence is strictly increasing in its keys.
    proof fn lemma_link_model(link: Link<V>)
        requires
            Node::ordered(link),
        ensures
            Node::map_of(link).dom().finite(),
            Node::map_of(link).dom().len() == Node::seq_of(link).len(),
            forall|i: int|
                0 <= i < Node::seq_of(link).len() ==> Node::map_of(link).dom().contains(
                    (#[trigger] Node::seq_of(link)[i]).0,
                ) && Node::map_of(link)[Node::seq_of(link)[i].0] == Node::seq_of(link)[i].1,
            forall|k: i64|
                Node::map_of(link).dom().contains(k) ==> exists|i: int|
                    0 <= i < Node::seq_of(link).len() && (#[trigger] Node::seq_of(link)[i]).0
                        == k,
            forall|i: int, j: int|
                0 <= i < j < Node::seq_of(link).len() ==> (#[trigger] Node::seq_of(link)[i]).0
                    < (#[trigger] Node::seq_of(link)[j]).0,
        decreases link,
    {
        match link {
            None => {
                assert(Node::map_of(link).dom() =~= Set::<i64>::empty());
            },
            Some(node) => {
                Self::lemma_link_model(node.left_child);
                Self::lemma_link_model(node.right_child);
                let lm = Node::map_of(node.left_child);
                let rm = Node::map_of(node.right_child);
                let ls = Node::seq_of(node.left_child);
                let rs = Node::seq_of(node.right_child);
                let whole = Node::seq_of(link);
                assert(lm.dom().disjoint(rm.dom()));
                assert(Node::map_of(link).dom() =~= (lm.dom() + rm.dom()).insert(node.key));
                vstd::set_lib::lemma_set_disjoint_lens(lm.dom(), rm.dom());
                assert(!(lm.dom() + rm.dom()).contains(node.key));
                assert forall|i: int| 0 <= i < whole.len() implies Node::map_of(
                    link,
                ).dom().contains((#[trigger] whole[i]).0) && Node::map_of(link)[whole[i].0]
                    == whole[i].1 by {
                    if i < ls.len() {
                        assert(whole[i] == ls[i]);
                        assert(!rm.dom().contains(ls[i].0));
                    } else if i == ls.len() {
                        assert(whole[i] == (node.key, node.value));
                    } else {
                        assert(whole[i] == rs[i - ls.len() - 1]);
                    }
                }
                assert forall|k: i64| Node::map_of(link).dom().contains(k) implies exists|i: int|
                    0 <= i < whole.len() && (#[trigger] whole[i]).0 == k by {
                    if k == node.key {
                        assert(whole[ls.len() as int].0 == k);
                    } else if lm.dom().contains(k) {
                        let i = choose|i: int| 0 <= i < ls.len() && (#[trigger] ls[i]).0 == k;
                        assert(whole[i].0 == k);
                    } else {
                        let i = choose|i: int| 0 <= i < rs.len() && (#[trigger] rs[i]).0 == k;
                        assert(whole[i + ls.len() + 1].0 == k);
                    }
                }
                assert forall|i: int, j: int| 0 <= i < j < whole.len() implies (
                #[trigger] whole[i]).0 < (#[trigger] whole[j]).0 by {
                    if j < ls.len() {
                        assert(whole[i] == ls[i] && whole[j] == ls[j]);
                    } else if i > ls.len() {
                        assert(whole[i] == rs[i - ls.len() - 1]);
                        assert(whole[j] == rs[j - ls.len() - 1]);
                    } else {
                        if i < ls.len() {
                            assert(whole[i] == ls[i]);
                            assert(lm.dom().contains(ls[i].0));
                        }
                        if j > ls.len() {
                            assert(whole[j] == rs[j - ls.len() - 1]);
                            assert(rm.dom().contains(rs[j - ls.len() - 1].0));
                        }
                    }
                }
            },
        }
    }

    fn get_with_node<'a>(node: &'a Link<V>, key: &i64) -> (r: Option<&'a V>)
        requires
            Node::ordered(*node),
        ensures
            match r {
                Some(v) => Node::map_of(*node).dom().contains(*key) && *v == Node::map_of(
                    *node,
                )[*key],
                None => !Node::map_of(*node).dom().contains(*key),
            },
        decreases *node,
    {
        match node {
            None => None,
            Some(root) => {
                if *key == root.key {
                    Some(&root.value)
                } else if *key < root.key {
                    proof {
                        assert(!Node::map_of(root.right_child).dom().contains(*key));
                    }
                    Self::get_with_node(&root.left_child, key)
                } else {
                    proof {
                        assert(!Node::map_of(root.left_child).dom().contains(*key));
                    }
                    Self::get_with_node(&root.right_child, key)
                }
            },
        }
    }

    /// Looks a key up; a copy of the stored value comes back, or nothing
    /// when the key is absent. The tree is never changed.
    pub fn get(&self, key: &i64) -> (r: Option<V>)
        requires
            self.well_formed(),
        ensures
            r == (if self@.dom().contains(*key) {
                Some(self@[*key])
            } else {
                None::<V>
            }),
    {
        match Self::get_with_node(&self.root, key) {
            Some(v) => Some(*v),
            None => None,
        }
    }

    fn len_of_node(node: &Link<V>) -> (r: usize)
        requires
            Node::ordered(*node),
            Node::seq_of(*node).len() <= usize::MAX,
        ensures
            r == Node::seq_of(*node).len(),
        decreases *node,
    {
        match node {
            None => 0,
            Some(root) => {
                let left = Self::len_of_node(&root.left_child);
                let right = Self::len_of_node(&root.right_child);
                left + 1 + right
            },
        }
    }

    /// Counts the nodes by a full recursive walk; the count equals both
    /// the length of the in-order sequence and the size of the map.
    pub fn len(&self) -> (r: usize)
        requires
            self.well_formed(),
        ensures
            r == self.entries().len(),
            r == self@.dom().len(),
    {
        proof {
            Self::lemma_link_model(self.root);
        }
        Self::len_of_node(&self.root)
    }

    fn min_of_node(node: &Link<V>) -> (r: Option<(i64, V)>)
        requires
            Node::ordered(*node),
        ensures
            match r {
                None => Node::seq_of(*node).len() == 0,
                Some(kv) => Node::seq_of(*node).len() > 0 && kv == Node::seq_of(*node)[0]
                    && Node::map_of(*node).dom().contains(kv.0) && Node::map_of(*node)[kv.0]
                    == kv.1 && forall|k: i64|
                    Node::map_of(*node).dom().contains(k) ==> kv.0 <= k,
            },
        decreases *node,
    {
        match node {
            None => None,
            Some(root) => {
                if root.left_child.is_none() {
                    proof {
                        assert(Node::seq_of(root.left_child) == Seq::<(i64, V)>::empty());
                        assert(Node::map_of(root.left_child) == Map::<i64, V>::empty());
                        assert(Node::seq_of(*node)[0] == (root.key, root.value));
                        assert forall|k: i64| Node::map_of(*node).dom().contains(k) implies root.key
                            <= k by {
                            if k != root.key {
                                assert(Node::map_of(root.right_child).dom().contains(k));
                            }
                        }
                    }
                    Some((root.key, root.value))
                } else {
                    let r = Self::min_of_node(&root.left_child);
                    proof {
                        let ls = Node::seq_of(root.left_child);
                        assert(ls.len() > 0);
                        assert(Node::seq_of(*node)[0] == ls[0]);
                        let kv = r.unwrap();
                        assert(Node::map_of(root.left_child).dom().contains(kv.0));
                        assert(!Node::map_of(root.right_child).dom().contains(kv.0));
                        assert forall|k: i64| Node::map_of(*node).dom().contains(k) implies kv.0
                            <= k by {
                            if k != root.key && !Node::map_of(root.left_child).dom().contains(k) {
                                assert(Node::map_of(root.right_child).dom().contains(k));
                            }
                        }
                    }
                    r
                }
            },
        }
    }

    /// The value stored under the smallest key, or nothing on an empty
    /// tree: the value of the first in-order entry.
    pub fn min(&self) -> (r: Option<V>)
        requires
            self.well_formed(),
        ensures
            r == (if self.entries().len() == 0 {
                None::<V>
            } else {
                Some(self.entries()[0].1)
            }),
    {
        match Self::min_of_node(&self.root) {
            Some(kv) => Some(kv.1),
            None => None,
        }
    }

    fn max_of_node(node: &Link<V>) -> (r: Option<(i64, V)>)
        requires
            Node::ordered(*node),
        ensures
            match r {
                None => Node::seq_of(*node).len() == 0,
                Some(kv) => Node::seq_of(*node).len() > 0 && kv == Node::seq_of(*node).last()
                    && Node::map_of(*node).dom().contains(kv.0) && Node::map_of(*node)[kv.0]
                    == kv.1 && forall|k: i64|
                    Node::map_of(*node).dom().contains(k) ==> k <= kv.0,
            },
        decreases *node,
    {
        match node {
            None => None,
            Some(root) => {
                if root.right_child.is_none() {
                    proof {
                        assert(Node::seq_of(root.right_child) == Seq::<(i64, V)>::empty());
                        assert(Node::map_of(root.right_child) == Map::<i64, V>::empty());
                        assert(Node::seq_of(*node).last() == (root.key, root.value));
                        assert forall|k: i64| Node::map_of(*node).dom().contains(k) implies k
                            <= root.key by {
                            if k != root.key {
                                assert(Node::map_of(root.left_child).dom().contains(k));
                            }
                        }
                    }
                    Some((root.key, root.value))
                } else {
                    let r = Self::max_of_node(&root.right_child);
                    proof {
                        let rs = Node::seq_of(root.right_child);
                        assert(rs.len() > 0);
                        assert(Node::seq_of(*node).last() == rs.last());
                        let kv = r.unwrap();
                        assert(Node::map_of(root.right_child).dom().contains(kv.0));
                        assert(!Node::map_of(root.left_child).dom().contains(kv.0));
                        assert forall|k: i64| Node::map_of(*node).dom().contains(k) implies k
                            <= kv.0 by {
                            if k != root.key && !Node::map_of(root.right_child).dom().contains(k) {
                                assert(Node::map_of(root.left_child).dom().contains(k));
                            }
                        }
                    }
                    r
                }
            },
        }
    }

    /// The value stored under the greatest key, or nothing on an empty
    /// tree: the value of the last in-order entry.
    pub fn max(&self) -> (r: Option<V>)
        requires
            self.well_formed(),
        ensures
            r == (if self.entries().len() == 0 {
                None::<V>
            } else {
                Some(self.entries().last().1)
            }),
    {
        match Self::max_of_node(&self.root) {
            Some(kv) => Some(kv.1),
            None => None,
        }
    }

    fn inorder_by_node(node: &Link<V>, out: &mut Vec<(i64, V)>)
        ensures
            final(out)@ == old(out)@ + Node::seq_of(*node),
        decreases *node,
    {
        match node {
            None => {
                proof {
                    assert(out@ =~= out@ + Node::seq_of(*node));
                }
            },
            Some(root) => {
                Self::inorder_by_node(&root.left_child, out);
                out.push((root.key, root.value));
                Self::inorder_by_node(&root.right_child, out);
                proof {
                    assert(out@ =~= old(out)@ + Node::seq_of(*node));
                }
            },
        }
    }

    /// The full entry sequence in ascending key order: left subtree,
    /// node, right subtree, at every node.
    pub fn inorder(&self) -> (r: Vec<(i64, V)>)
        ensures
            r@ == self.entries(),
    {
        let mut out: Vec<(i64, V)> = Vec::new();
        Self::inorder_by_node(&self.root, &mut out);
        out
    }

    fn remove_in_node(node: Link<V>, remove_key: &i64) -> (r: (bool, Link<V>))
        requires
            Node::ordered(node),
        ensures
            Node::ordered(r.1),
            r.0 == Node::map_of(node).dom().contains(*remove_key),
            Node::map_of(r.1) == Node::map_of(node).remove(*remove_key),
            Node::seq_of(r.1).len() == Node::seq_of(node).len() - (if Node::map_of(
                node,
            ).dom().contains(*remove_key) {
                1int
            } else {
                0int
            }),
        decreases node,
    {
        match node {
            None => {
                proof {
                    assert(Node::map_of(node).remove(*remove_key) =~= Map::empty());
                }
                (false, None)
            },
            Some(mut root) => {
                if *remove_key < root.key {
                    proof {
                        assert(!Node::map_of(root.right_child).dom().contains(*remove_key));
                    }
                    let taken = root.left_child.take();
                    let (removed, new_left) = Self::remove_in_node(taken, remove_key);
                    root.left_child = new_left;
                    assert(Node::map_of(Some(root)) =~= Node::map_of(node).remove(*remove_key));
                    (removed, Some(root))
                } else if *remove_key > root.key {
                    proof {
                        assert(!Node::map_of(root.left_child).dom().contains(*remove_key));
                    }
                    let taken = root.right_child.take();
                    let (removed, new_right) = Self::remove_in_node(taken, remove_key);
                    root.right_child = new_right;
                    assert(Node::map_of(Some(root)) =~= Node::map_of(node).remove(*remove_key));
                    (removed, Some(root))
                } else {
                    let taken_left = root.left_child.take();
                    let taken_right = root.right_child.take();
                    match (taken_left, taken_right) {
                        (None, None) => {
                            proof {
                                assert(Node::map_of(taken_left) == Map::<i64, V>::empty());
                                assert(Node::map_of(taken_right) == Map::<i64, V>::empty());
                                assert(Node::seq_of(taken_left) == Seq::<(i64, V)>::empty());
                                assert(Node::seq_of(taken_right) == Seq::<(i64, V)>::empty());
                                assert(Node::map_of(node).remove(*remove_key) =~= Map::empty());
                            }
                            (true, None)
                        },
                        (Some(left), None) => {
                            proof {
                                assert(Node::map_of(taken_right) == Map::<i64, V>::empty());
                                assert(Node::seq_of(taken_right) == Seq::<(i64, V)>::empty());
                                assert(!Node::map_of(Some(left)).dom().contains(root.key));
                                assert(Node::map_of(Some(left)) =~= Node::map_of(node).remove(
                                    *remove_key,
                                ));
                            }
                            (true, Some(left))
                        },
                        (None, Some(right)) => {
                            proof {
                                assert(Node::map_of(taken_left) == Map::<i64, V>::empty());
                                assert(Node::seq_of(taken_left) == Seq::<(i64, V)>::empty());
                                assert(!Node::map_of(Some(right)).dom().contains(root.key));
                                assert(Node::map_of(Some(right)) =~= Node::map_of(node).remove(
                                    *remove_key,
                                ));
                            }
                            (true, Some(right))
                        },
                        (Some(left), Some(right)) => {
                            // Successor promotion: the smallest entry of the
                            // right subtree replaces this node's entry, and is
                            // removed from the right subtree.
                            let right_link: Link<V> = Some(right);
                            match Self::min_of_node(&right_link) {
                                Some(successor) => {
                                    let (_, new_right) = Self::remove_in_node(
                                        right_link,
                                        &successor.0,
                                    );
                                    root.key = successor.0;
                                    root.value = successor.1;
                                    root.left_child = Some(left);
                                    root.right_child = new_right;
                                    proof {
                                        assert(!Node::map_of(Some(left)).dom().contains(
                                            successor.0,
                                        ));
                                        assert(Node::map_of(Some(root)) =~= Node::map_of(
                                            node,
                                        ).remove(*remove_key));
                                    }
                                    (true, Some(root))
                                },
                                None => {
                                    proof {
                                        assert(false);
                                    }
                                    (true, None)
                                },
                            }
                        },
                    }
                }
            },
        }
    }

    /// Removes the node holding `removed`, restructuring by successor
    /// promotion; tells whether a node was actually removed.
    pub fn remove(&mut self, removed: &i64) -> (r: bool)
        requires
            old(self).well_formed(),
        ensures
            final(self).well_formed(),
            r == old(self)@.dom().contains(*removed),
            final(self)@ == old(self)@.remove(*removed),
            final(self).entries().len() == old(self).entries().len() - (if old(
                self,
            )@.dom().contains(*removed) {
                1int
            } else {
                0int
            }),
    {
        let taken = self.root.take();
        let (was_removed, new_root) = Self::remove_in_node(taken, removed);
        self.root = new_root;
        was_removed
    }

    /// The pair a node itself contributes to a traversal.
    spec fn entry_of(n: Node<V>) -> (i64, V) {
        (n.key, n.value)
    }

    /// The nodes a traversal queue takes up after visiting `n`: its
    /// present children, left before right.
    spec fn child_seq(n: Node<V>) -> Seq<Node<V>> {
        match (n.left_child, n.right_child) {
            (None, None) => seq![],
            (Some(l), None) => seq![*l],
            (None, Some(r)) => seq![*r],
            (Some(l), Some(r)) => seq![*l, *r],
        }
    }

    /// How many entries the subtree rooted at `n` holds.
    spec fn size_of(n: Node<V>) -> nat {
        Node::seq_of(n.left_child).len() + 1 + Node::seq_of(n.right_child).len()
    }

    /// How many entries are still to come out of a traversal queue.
    spec fn pending_count(q: Seq<Node<V>>) -> nat
        decreases q.len(),
    {
        if q.len() == 0 {
            0
        } else {
            Self::size_of(q[0]) + Self::pending_count(q.drop_first())
        }
    }

    proof fn lemma_pending_concat(a: Seq<Node<V>>, b: Seq<Node<V>>)
        ensures
            Self::pending_count(a + b) == Self::pending_count(a) + Self::pending_count(b),
        decreases a.len(),
    {
        if a.len() == 0 {
            assert(a + b =~= b);
        } else {
            assert((a + b).drop_first() =~= a.drop_first() + b);
            Self::lemma_pending_concat(a.drop_first(), b);
        }
    }

    proof fn lemma_child_pending(n: Node<V>)
        ensures
            Self::pending_count(Self::child_seq(n)) == Self::size_of(n) - 1,
    {
        match (n.left_child, n.right_child) {
            (None, None) => {
                assert(Node::seq_of(n.left_child).len() == 0);
                assert(Node::seq_of(n.right_child).len() == 0);
            },
            (Some(l), None) => {
                assert(Self::pending_count(Seq::<Node<V>>::empty()) == 0);
                assert(seq![*l].drop_first() =~= Seq::<Node<V>>::empty());
                assert(Node::seq_of(n.left_child).len() == Self::size_of(*l));
                assert(Node::seq_of(n.right_child).len() == 0);
                assert(Self::pending_count(seq![*l]) == Self::size_of(*l));
            },
            (None, Some(r)) => {
                assert(Self::pending_count(Seq::<Node<V>>::empty()) == 0);
                assert(seq![*r].drop_first() =~= Seq::<Node<V>>::empty());
                assert(Node::seq_of(n.left_child).len() == 0);
                assert(Node::seq_of(n.right_child).len() == Self::size_of(*r));
                assert(Self::pending_count(seq![*r]) == Self::size_of(*r));
            },
            (Some(l), Some(r)) => {
                assert(Self::pending_count(Seq::<Node<V>>::empty()) == 0);
                assert(seq![*l, *r].drop_first() =~= seq![*r]);
                assert(seq![*r].drop_first() =~= Seq::<Node<V>>::empty());
                assert(Node::seq_of(n.left_child).len() == Self::size_of(*l));
                assert(Node::seq_of(n.right_child).len() == Self::size_of(*r));
                assert(Self::pending_count(seq![*r]) == Self::size_of(*r));
                assert(Self::pending_count(seq![*l, *r]) == Self::size_of(*l) + Self::size_of(*r));
            },
        }
    }

    /// The entries a breadth-first walk yields from a queue of pending
    /// nodes: the front node's entry, then whatever the rest of the
    /// queue extended with the front node's children yields.
    spec fn level_seq(q: Seq<Node<V>>) -> Seq<(i64, V)>
        decreases Self::pending_count(q),
            via Self::level_seq_decreases
    {
        if q.len() == 0 {
            seq![]
        } else {
            seq![Self::entry_of(q[0])] + Self::level_seq(q.drop_first() + Self::child_seq(q[0]))
        }
    }

    #[via_fn]
    proof fn level_seq_decreases(q: Seq<Node<V>>) {
        if q.len() > 0 {
            Self::lemma_pending_concat(q.drop_first(), Self::child_seq(q[0]));
            Self::lemma_child_pending(q[0]);
        }
    }

    /// The in-order entry sequence of the tree rooted at `n` itself.
    spec fn node_entries(n: Node<V>) -> Seq<(i64, V)> {
        Node::seq_of(n.left_child) + seq![(n.key, n.value)] + Node::seq_of(n.right_child)
    }

    /// The entries a traversal queue still holds, as a multiset.
    spec fn pending_entries(q: Seq<Node<V>>) -> Multiset<(i64, V)>
        decreases q.len(),
    {
        if q.len() == 0 {
            Multiset::empty()
        } else {
            Self::node_entries(q[0]).to_multiset().add(Self::pending_entries(q.drop_first()))
        }
    }

    proof fn lemma_pending_entries_concat(a: Seq<Node<V>>, b: Seq<Node<V>>)
        ensures
            Self::pending_entries(a + b) == Self::pending_entries(a).add(
                Self::pending_entries(b),
            ),
        decreases a.len(),
    {
        broadcast use vstd::multiset::group_multiset_axioms;

        if a.len() == 0 {
            assert(a + b =~= b);
            assert(Multiset::<(i64, V)>::empty().add(Self::pending_entries(b))
                =~= Self::pending_entries(b));
        } else {
            assert((a + b).drop_first() =~= a.drop_first() + b);
            Self::lemma_pending_entries_concat(a.drop_first(), b);
            assert(Self::node_entries(a[0]).to_multiset().add(
                Self::pending_entries(a.drop_first()).add(Self::pending_entries(b)),
            ) =~= Self::node_entries(a[0]).to_multiset().add(
                Self::pending_entries(a.drop_first()),
            ).add(Self::pending_entries(b)));
        }
    }

    proof fn lemma_child_entries(n: Node<V>)
        ensures
            Self::node_entries(n).to_multiset() == Self::pending_entries(
                Self::child_seq(n),
            ).insert((n.key, n.value)),
    {
        broadcast use vstd::multiset::group_multiset_axioms;
        broadcast use vstd::seq_lib::group_to_multiset_ensures;

        let kv = (n.key, n.value);
        vstd::seq_lib::lemma_multiset_commutative(
            Node::seq_of(n.left_child) + seq![kv],
            Node::seq_of(n.right_child),
        );
        vstd::seq_lib::lemma_multiset_commutative(Node::seq_of(n.left_child), seq![kv]);
        assert(seq![kv] =~= Seq::<(i64, V)>::empty().push(kv));
        assert(seq![kv].to_multiset() =~= Multiset::<(i64, V)>::empty().insert(kv));
        assert(Self::pending_entries(Seq::<Node<V>>::empty()) == Multiset::<(i64, V)>::empty());
        match (n.left_child, n.right_child) {
            (None, None) => {
                assert(Node::seq_of(n.left_child) == Seq::<(i64, V)>::empty());
                assert(Node::seq_of(n.right_child) == Seq::<(i64, V)>::empty());
                assert(Self::node_entries(n).to_multiset() =~= Self::pending_entries(
                    Self::child_seq(n),
                ).insert(kv));
            },
            (Some(l), None) => {
                assert(seq![*l].drop_first() =~= Seq::<Node<V>>::empty());
                assert(Node::seq_of(n.left_child) == Self::node_entries(*l));
                assert(Node::seq_of(n.right_child) == Seq::<(i64, V)>::empty());
                assert(Self::pending_entries(seq![*l]) =~= Self::node_entries(*l).to_multiset());
                assert(Self::node_entries(n).to_multiset() =~= Self::pending_entries(
                    Self::child_seq(n),
                ).insert(kv));
            },
            (None, Some(r)) => {
                assert(seq![*r].drop_first() =~= Seq::<Node<V>>::empty());
                assert(Node::seq_of(n.left_child) == Seq::<(i64, V)>::empty());
                assert(Node::seq_of(n.right_child) == Self::node_entries(*r));
                assert(Self::pending_entries(seq![*r]) =~= Self::node_entries(*r).to_multiset());
                assert(Self::node_entries(n).to_multiset() =~= Self::pending_entries(
                    Self::child_seq(n),
                ).insert(kv));
            },
            (Some(l), Some(r)) => {
                assert(seq![*l, *r].drop_first() =~= seq![*r]);
                assert(seq![*r].drop_first() =~= Seq::<Node<V>>::empty());
                assert(Node::seq_of(n.left_child) == Self::node_entries(*l));
                assert(Node::seq_of(n.right_child) == Self::node_entries(*r));
                assert(Self::pending_entries(seq![*r]) =~= Self::node_entries(*r).to_multiset());
                assert(Self::pending_entries(seq![*l, *r]) =~= Self::node_entries(
                    *l,
                ).to_multiset().add(Self::node_entries(*r).to_multiset()));
                assert(Self::node_entries(n).to_multiset() =~= Self::pending_entries(
                    Self::child_seq(n),
                ).insert(kv));
            },
        }
    }

    proof fn lemma_level_seq_entries(q: Seq<Node<V>>)
        ensures
            Self::level_seq(q).to_multiset() == Self::pending_entries(q),
        decreases Self::pending_count(q),
    {
        broadcast use vstd::multiset::group_multiset_axioms;
        broadcast use vstd::seq_lib::group_to_multiset_ensures;

        if q.len() == 0 {
            assert(Self::level_seq(q).to_multiset().len() == 0);
            assert(Self::level_seq(q).to_multiset() =~= Multiset::<(i64, V)>::empty());
        } else {
            let next = q.drop_first() + Self::child_seq(q[0]);
            Self::lemma_pending_concat(q.drop_first(), Self::child_seq(q[0]));
            Self::lemma_child_pending(q[0]);
            Self::lemma_level_seq_entries(next);
            Self::lemma_pending_entries_concat(q.drop_first(), Self::child_seq(q[0]));
            Self::lemma_child_entries(q[0]);
            let kv = Self::entry_of(q[0]);
            vstd::seq_lib::lemma_multiset_commutative(seq![kv], Self::level_seq(next));
            assert(seq![kv] =~= Seq::<(i64, V)>::empty().push(kv));
            assert(seq![kv].to_multiset() =~= Multiset::<(i64, V)>::empty().insert(kv));
            assert(Self::level_seq(q).to_multiset() =~= Self::pending_entries(q));
        }
    }

    /// The breadth-first walk yields exactly the entries of the
    /// in-order walk — each entry once, only the order differs — and
    /// in particular just as many of them.
    pub proof fn lemma_level_entries_complete(tree: BinarySearchTree<V>)
        ensures
            tree.level_entries().to_multiset() == tree.entries().to_multiset(),
            tree.level_entries().len() == tree.entries().len(),
    {
        broadcast use vstd::multiset::group_multiset_axioms;
        broadcast use vstd::seq_lib::group_to_multiset_ensures;

        Self::lemma_level_seq_entries(Self::root_seq(tree.root));
        match tree.root {
            None => {
                assert(tree.entries().to_multiset().len() == 0);
                assert(tree.entries().to_multiset() =~= Multiset::<(i64, V)>::empty());
            },
            Some(b) => {
                assert(seq![*b].drop_first() =~= Seq::<Node<V>>::empty());
                assert(Self::pending_entries(Seq::<Node<V>>::empty()) == Multiset::<(
                    i64,
                    V,
                )>::empty());
                assert(Self::pending_entries(seq![*b]) =~= Self::node_entries(*b).to_multiset());
                assert(tree.entries() == Self::node_entries(*b));
            },
        }
        assert(tree.level_entries().to_multiset().len() == tree.level_entries().len());
        assert(tree.entries().to_multiset().len() == tree.entries().len());
    }

    /// The seed of the breadth-first walk: the root node, if any.
    spec fn root_seq(link: Link<V>) -> Seq<Node<V>> {
        match link {
            None => seq![],
            Some(n) => seq![*n],
        }
    }

    /// The entry sequence of a breadth-first, left-to-right walk.
    pub closed spec fn level_entries(self) -> Seq<(i64, V)> {
        Self::level_seq(Self::root_seq(self.root))
    }

    /// Visits the nodes breadth first: a queue starts with the root, and
    /// each visited node enqueues its present children, left then right.
    pub fn width_first(&self) -> (r: Vec<(i64, V)>)
        ensures
            r@ == self.level_entries(),
    {
        let mut out: Vec<(i64, V)> = Vec::new();
        let mut queue: Vec<&Node<V>> = Vec::new();
        match &self.root {
            None => {},
            Some(n) => {
                queue.push(&**n);
                proof {
                    assert(queue@.map_values(|p: &Node<V>| *p) =~= Self::root_seq(self.root));
                }
            },
        }
        let mut head: usize = 0;
        proof {
            assert(queue@.skip(head as int).map_values(|p: &Node<V>| *p) =~= queue@.map_values(
                |p: &Node<V>| *p,
            ));
        }
        while head < queue.len()
            invariant
                head <= queue.len(),
                out@ + Self::level_seq(
                    queue@.skip(head as int).map_values(|p: &Node<V>| *p),
                ) == self.level_entries(),
            decreases Self::pending_count(
                queue@.skip(head as int).map_values(|p: &Node<V>| *p),
            ),
        {
            let ghost rem0 = queue@.skip(head as int).map_values(|p: &Node<V>| *p);
            let n: &Node<V> = queue[head];
            head = head + 1;
            out.push((n.key, n.value));
            match &n.left_child {
                None => {},
                Some(l) => queue.push(&**l),
            }
            match &n.right_child {
                None => {},
                Some(r) => queue.push(&**r),
            }
            proof {
                let rem1 = queue@.skip(head as int).map_values(|p: &Node<V>| *p);
                assert(rem0[0] == *n);
                assert(rem1 =~= rem0.drop_first() + Self::child_seq(*n));
                assert(out@ + Self::level_seq(rem1) =~= (out@.drop_last() + seq![
                    Self::entry_of(*n),
                ]) + Self::level_seq(rem1));
                assert((out@.drop_last() + seq![Self::entry_of(*n)]) + Self::level_seq(rem1)
                    =~= out@.drop_last() + (seq![Self::entry_of(*n)] + Self::level_seq(rem1)));
                assert(seq![Self::entry_of(*n)] + Self::level_seq(rem1) == Self::level_seq(rem0));
                Self::lemma_pending_concat(rem0.drop_first(), Self::child_seq(*n));
                Self::lemma_child_pending(*n);
            }
        }
        proof {
            assert(queue@.skip(head as int).map_values(|p: &Node<V>| *p)
                =~= Seq::<Node<V>>::empty());
            assert(out@ + Self::level_seq(Seq::<Node<V>>::empty()) =~= out@);
        }
        out
    }

    /// For any well-formed tree — hence after any sequence of inserts and
    /// removes — the in-order entry sequence is strictly increasing in
    /// its keys, and it has exactly one entry per key of the map.
    pub proof fn lemma_inorder_strictly_sorted(tree: BinarySearchTree<V>)
        requires
            tree.well_formed(),
        ensures
            forall|i: int, j: int|
                0 <= i < j < tree.entries().len() ==> (#[trigger] tree.entries()[i]).0 < (
                #[trigger] tree.entries()[j]).0,
            tree.entries().len() == tree@.dom().len(),
            forall|i: int|
                0 <= i < tree.entries().len() ==> tree@.dom().contains(
                    (#[trigger] tree.entries()[i]).0,
                ) && tree@[tree.entries()[i].0] == tree.entries()[i].1,
    {
        Self::lemma_link_model(tree.root);
    }

    /// Inserting a fresh key grows the map by exactly one entry, while
    /// inserting a present key leaves the domain — hence `len()` —
    /// unchanged; either way only that key's value is (over)written.
    pub proof fn lemma_insert_shape(tree: BinarySearchTree<V>, key: i64, value: V)
        requires
            tree.well_formed(),
        ensures
            !tree@.dom().contains(key) ==> tree@.insert(key, value).dom().len() == tree@.dom().len()
                + 1,
            tree@.dom().contains(key) ==> tree@.insert(key, value).dom().len()
                == tree@.dom().len(),
            tree@.insert(key, value)[key] == value,
            forall|k: i64|
                tree@.dom().contains(k) && k != key ==> tree@.insert(key, value)[k] == tree@[k],
            tree@.insert(key, value).dom() =~= tree@.dom().insert(key),
    {
        Self::lemma_link_model(tree.root);
        if tree@.dom().contains(key) {
            assert(tree@.insert(key, value).dom() =~= tree@.dom());
        }
    }

    /// What the view becomes after a whole run of inserts, first to last.
    pub open spec fn after_inserts(m: Map<i64, V>, kvs: Seq<(i64, V)>) -> Map<i64, V>
        decreases kvs.len(),
    {
        if kvs.len() == 0 {
            m
        } else {
            Self::after_inserts(m, kvs.drop_last()).insert(kvs.last().0, kvs.last().1)
        }
    }

    /// After a run of inserts with distinct keys into a fresh tree the
    /// map holds exactly one entry per insert: with `insert`'s and
    /// `len`'s contracts, `len()` equals the number of inserts.
    pub proof fn lemma_distinct_inserts_len(kvs: Seq<(i64, V)>)
        requires
            forall|i: int, j: int|
                0 <= i < j < kvs.len() ==> (#[trigger] kvs[i]).0 != (#[trigger] kvs[j]).0,
        ensures
            Self::after_inserts(Map::empty(), kvs).dom().finite(),
            Self::after_inserts(Map::empty(), kvs).dom().len() == kvs.len(),
            forall|k: i64|
                Self::after_inserts(Map::empty(), kvs).dom().contains(k) ==> exists|i: int|
                    0 <= i < kvs.len() && (#[trigger] kvs[i]).0 == k,
        decreases kvs.len(),
    {
        if kvs.len() > 0 {
            let shorter = kvs.drop_last();
            assert forall|i: int, j: int|
                0 <= i < j < shorter.len() implies (#[trigger] shorter[i]).0 != (
            #[trigger] shorter[j]).0 by {
                assert(shorter[i] == kvs[i] && shorter[j] == kvs[j]);
            }
            Self::lemma_distinct_inserts_len(shorter);
            let prev = Self::after_inserts(Map::empty(), shorter);
            let key = kvs.last().0;
            assert(kvs.last() == kvs[kvs.len() - 1]);
            if prev.dom().contains(key) {
                let i = choose|i: int|
                    0 <= i < shorter.len() && (#[trigger] shorter[i]).0 == key;
                assert(kvs[i].0 == key);
                assert(false);
            }
            assert forall|k: i64|
                Self::after_inserts(Map::empty(), kvs).dom().contains(k) implies exists|i: int|
                0 <= i < kvs.len() && (#[trigger] kvs[i]).0 == k by {
                if k == key {
                    assert(kvs[kvs.len() - 1].0 == k);
                } else {
                    let i = choose|i: int|
                        0 <= i < shorter.len() && (#[trigger] shorter[i]).0 == k;
                    assert(kvs[i].0 == k);
                }
            }
        }
    }

    /// Removing a present key shrinks the map by exactly one entry, while
    /// removing an absent key changes nothing at all.
    pub proof fn lemma_remove_shape(tree: BinarySearchTree<V>, key: i64)
        requires
            tree.well_formed(),
        ensures
            tree@.dom().contains(key) ==> tree@.remove(key).dom().len() == tree@.dom().len() - 1,
            !tree@.dom().contains(key) ==> tree@.remove(key) == tree@,
            !tree@.remove(key).dom().contains(key),
            forall|k: i64|
                tree@.dom().contains(k) && k != key ==> tree@.remove(key).dom().contains(k)
                    && tree@.remove(key)[k] == tree@[k],
    {
        Self::lemma_link_model(tree.root);
        if !tree@.dom().contains(key) {
            assert(tree@.remove(key) =~= tree@);
        }
    }

    /// The first in-order entry carries the smallest key of the map and
    /// the last one the greatest: what `min()` and `max()` return is the
    /// value under the extreme keys.
    pub proof fn lemma_min_max_entries(tree: BinarySearchTree<V>)
        requires
            tree.well_formed(),
            tree.entries().len() > 0,
        ensures
            tree@.dom().contains(tree.entries()[0].0),
            tree@.dom().contains(tree.entries().last().0),
            forall|k: i64|
                tree@.dom().contains(k) ==> tree.entries()[0].0 <= k && k <= tree.entries().last().0,
    {
        Self::lemma_link_model(tree.root);
        assert forall|k: i64| tree@.dom().contains(k) implies tree.entries()[0].0 <= k && k
            <= tree.entries().last().0 by {
            let i = choose|i: int|
                0 <= i < tree.entries().len() && (#[trigger] tree.entries()[i]).0 == k;
            if i > 0 {
                assert(tree.entries()[0].0 < tree.entries()[i].0);
            }
            if i < tree.entries().len() - 1 {
                assert(tree.entries()[i].0 < tree.entries().last().0);
            }
        }
    }

    /// Inserts `key` with `value`; an already-present key keeps its node
    /// and only has its value overwritten.
    pub fn insert(&mut self, key: i64, value: V)
        requires
            old(self).well_formed(),
            old(self).entries().len() < usize::MAX,
        ensures
            final(self).well_formed(),
            final(self)@ == old(self)@.insert(key, value),
            final(self).entries().len() == old(self).entries().len() + (if old(
                self,
            )@.dom().contains(key) {
                0int
            } else {
                1int
            }),
    {
        let taken = self.root.take();
        self.root = Self::insert_with_node(taken, key, value);
    }
}

} // verus!
