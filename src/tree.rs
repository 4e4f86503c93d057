use vstd::prelude::*;

use crate::key::TreeKey;

verus! {

/// How a node hangs under its parent.
#[derive(Clone, Copy)]
enum NodeStatus {
    IsLeftChild,
    IsRoot,
    IsRightChild,
}

/// Which children a node has, as deletion needs to know.
enum DeletionType {
    LeafNode,
    HasLeftChild,
    HasRightChild,
    HasBothChildren,
}

/// The error of `delete` when the key is not in the tree.
#[derive(Clone, Copy, Debug, PartialEq, Eq, Structural)]
pub struct NotFoundError;

/// A subtree: an owned node, or nothing.
type Link<K, V> = Option<Box<Node<K, V>>>;

/// One key/value record of the tree, with the tag of its place under its
/// parent and its two subtrees.
pub struct Node<K, V> {
    key: K,
    value: V,
    status: NodeStatus,
    right_child: Link<K, V>,
    left_child: Link<K, V>,
}

/// An ordered key-value store. Keys greater than a node's key live in its
/// left subtree and lesser keys in its right subtree.
pub struct BinaryTree<K, V> {
    root: Link<K, V>,
}

/// The entries held in a subtree.
spec fn link_map<K, V>(link: Link<K, V>) -> Map<K, V>
    decreases link,
{
    match link {
        None => Map::empty(),
        Some(node) => link_map(node.right_child).union_prefer_right(
            link_map(node.left_child),
        ).insert(node.key, node.value),
    }
}

/// The number of levels of a subtree.
spec fn height<K, V>(link: Link<K, V>) -> nat
    decreases link,
{
    match link {
        None => 0,
        Some(node) => 1 + vstd::math::max(
            height(node.left_child) as int,
            height(node.right_child) as int,
        ) as nat,
    }
}

/// Every key of `m` comes after `k`.
spec fn all_after<K: TreeKey, V>(m: Map<K, V>, k: K) -> bool {
    forall|j: K| #[trigger] m.contains_key(j) ==> k.less(j)
}

/// Every key of `m` comes before `k`.
spec fn all_before<K: TreeKey, V>(m: Map<K, V>, k: K) -> bool {
    forall|j: K| #[trigger] m.contains_key(j) ==> j.less(k)
}

/// The ordering invariant: at every node of the subtree, the keys of the left
/// subtree are greater and those of the right subtree are lesser than its key.
spec fn ordered<K: TreeKey, V>(link: Link<K, V>) -> bool
    decreases link,
{
    match link {
        None => true,
        Some(node) => {
            &&& all_after(link_map(node.left_child), node.key)
            &&& all_before(link_map(node.right_child), node.key)
            &&& ordered(node.left_child)
            &&& ordered(node.right_child)
        },
    }
}

/// Every node of the subtree carries the tag of its place: `status` at the
/// top, then left and right child tags below.
spec fn tagged<K, V>(link: Link<K, V>, status: NodeStatus) -> bool
    decreases link,
{
    match link {
        None => true,
        Some(node) => {
            &&& node.status == status
            &&& tagged(node.left_child, NodeStatus::IsLeftChild)
            &&& tagged(node.right_child, NodeStatus::IsRightChild)
        },
    }
}

/// The subtree is ordered and tagged as hanging at `status`.
spec fn link_wf<K: TreeKey, V>(link: Link<K, V>, status: NodeStatus) -> bool {
    ordered(link) && tagged(link, status)
}

impl<K: TreeKey, V> Node<K, V> {
    /// Classifies the node by the children it has.
    fn determine_deletion_type(&self) -> (r: DeletionType)
        ensures
            r is LeafNode <==> self.left_child is None && self.right_child is None,
            r is HasLeftChild <==> self.left_child is Some && self.right_child is None,
            r is HasRightChild <==> self.left_child is None && self.right_child is Some,
            r is HasBothChildren <==> self.left_child is Some && self.right_child is Some,
    {
        match (&self.left_child, &self.right_child) {
            (None, None) => DeletionType::LeafNode,
            (Some(_), None) => DeletionType::HasLeftChild,
            (None, Some(_)) => DeletionType::HasRightChild,
            (Some(_), Some(_)) => DeletionType::HasBothChildren,
        }
    }
}

impl<K: TreeKey, V> View for BinaryTree<K, V> {
    type V = Map<K, V>;

    closed spec fn view(&self) -> Map<K, V> {
        link_map(self.root)
    }
}

impl<K: TreeKey, V> BinaryTree<K, V> {
    /// The ordering invariant holds at every node (greater keys to the left,
    /// lesser keys to the right, hence each key at most once), and every node
    /// carries the tag of its place: the root, a left child or a right child.
    pub closed spec fn well_formed(&self) -> bool {
        link_wf(self.root, NodeStatus::IsRoot)
    }

    /// An empty tree.
    pub fn new() -> (r: Self)
        ensures
            r.well_formed(),
            r@ == Map::<K, V>::empty(),
    {
        BinaryTree { root: None }
    }

    /// Whether the tree holds no entry.
    pub fn is_empty(&self) -> (r: bool)
        ensures
            r == (self@ == Map::<K, V>::empty()),
    {
        match &self.root {
            None => true,
            Some(node) => {
                assert(self@.contains_key(node.key));
                false
            },
        }
    }

    /// Stores `value` under `key`, replacing the value an equal key had.
    pub fn insert(&mut self, key: K, value: V)
        requires
            old(self).well_formed(),
        ensures
            final(self).well_formed(),
            final(self)@ == old(self)@.insert(key, value),
    {
        Self::insert_internal(&mut self.root, NodeStatus::IsRoot, key, value);
    }

    /// Inserts `key` with `value` into the subtree in `root`, which hangs at
    /// `status`; an equal key has its value overwritten in place.
    fn insert_internal(root: &mut Link<K, V>, status: NodeStatus, key: K, value: V)
        requires
            link_wf(*old(root), status),
        ensures
            link_wf(*final(root), status),
            link_map(*final(root)) == link_map(*old(root)).insert(key, value),
        decreases *old(root),
    {
        if root.is_none() {
            Self::create_node_at(root, status, key, value);
            return ;
        }
        let mut node = root.take().unwrap();
        let ghost k = node.key;
        let ghost before = link_map(Some(node));
        let ghost left = link_map(node.left_child);
        let ghost right = link_map(node.right_child);
        match node.key.compare(&key) {
            std::cmp::Ordering::Less => {
                proof {
                    if right.contains_key(key) {
                        K::lemma_transitive(key, k, key);
                        K::lemma_irreflexive(key);
                    }
                    K::lemma_irreflexive(k);
                }
                Self::insert_internal(&mut node.left_child, NodeStatus::IsLeftChild, key, value);
            },
            std::cmp::Ordering::Equal => {
                node.value = value;
            },
            std::cmp::Ordering::Greater => {
                proof {
                    if left.contains_key(key) {
                        K::lemma_transitive(key, k, key);
                        K::lemma_irreflexive(key);
                    }
                    K::lemma_irreflexive(k);
                }
                Self::insert_internal(&mut node.right_child, NodeStatus::IsRightChild, key, value);
            },
        }
        *root = Some(node);
        assert(link_map(*root) =~= before.insert(key, value));
    }

    /// Removes the entry under `key`, repairing the tree around the removed
    /// node; fails with `NotFoundError` and changes nothing when `key` is absent.
    pub fn delete(&mut self, key: &K) -> (r: Result<(), NotFoundError>)
        requires
            old(self).well_formed(),
        ensures
            final(self).well_formed(),
            r is Ok == old(self)@.contains_key(*key),
            r is Ok ==> final(self)@ == old(self)@.remove(*key),
            r is Err ==> final(self)@ == old(self)@,
    {
        Self::delete_internal(&mut self.root, NodeStatus::IsRoot, key)
    }

    /// Searches the subtree in `root`, which hangs at `status`, for `key` and
    /// removes the node that holds it.
    fn delete_internal(root: &mut Link<K, V>, status: NodeStatus, key: &K) -> (r: Result<
        (),
        NotFoundError,
    >)
        requires
            link_wf(*old(root), status),
        ensures
            link_wf(*final(root), status),
            r is Ok == link_map(*old(root)).contains_key(*key),
            link_map(*final(root)) == link_map(*old(root)).remove(*key),
        decreases *old(root),
    {
        let order = match root {
            None => {
                assert(link_map(*root) =~= link_map(*root).remove(*key));
                return Err(NotFoundError);
            },
            Some(node) => node.key.compare(key),
        };
        match order {
            std::cmp::Ordering::Equal => {
                Self::perform_deletion(root, status);
                Ok(())
            },
            std::cmp::Ordering::Less => {
                let mut node = root.take().unwrap();
                let ghost k = node.key;
                let ghost before = link_map(Some(node));
                let ghost right = link_map(node.right_child);
                proof {
                    if right.contains_key(*key) {
                        K::lemma_transitive(*key, k, *key);
                        K::lemma_irreflexive(*key);
                    }
                    K::lemma_irreflexive(k);
                }
                let r = Self::delete_internal(&mut node.left_child, NodeStatus::IsLeftChild, key);
                *root = Some(node);
                assert(link_map(*root) =~= before.remove(*key));
                r
            },
            std::cmp::Ordering::Greater => {
                let mut node = root.take().unwrap();
                let ghost k = node.key;
                let ghost before = link_map(Some(node));
                let ghost left = link_map(node.left_child);
                proof {
                    if left.contains_key(*key) {
                        K::lemma_transitive(*key, k, *key);
                        K::lemma_irreflexive(*key);
                    }
                    K::lemma_irreflexive(k);
                }
                let r = Self::delete_internal(&mut node.right_child, NodeStatus::IsRightChild, key);
                *root = Some(node);
                assert(link_map(*root) =~= before.remove(*key));
                r
            },
        }
    }

    /// Removes the node at the top of `delete_me`, which hangs at `status`.
    /// A single child takes the node's place and tag; with two children the
    /// left subtree takes its place and the right subtree is hung below the
    /// rightmost node of the left one.
    fn perform_deletion(delete_me: &mut Link<K, V>, status: NodeStatus)
        requires
            old(delete_me).is_some(),
            link_wf(*old(delete_me), status),
        ensures
            link_wf(*final(delete_me), status),
            link_map(*final(delete_me)) == link_map(*old(delete_me)).remove(
                old(delete_me)->0.key,
            ),
    {
        let mut node = delete_me.take().unwrap();
        let ghost k = node.key;
        let ghost before = link_map(Some(node));
        let ghost left = link_map(node.left_child);
        let ghost right = link_map(node.right_child);
        let ghost old_left = node.left_child;
        let ghost old_right = node.right_child;
        proof {
            K::lemma_irreflexive(k);
            assert(ordered::<K, V>(None) && tagged::<K, V>(None, status));
            assert(ordered(old_left) && ordered(old_right));
            assert(tagged(old_left, NodeStatus::IsLeftChild));
            assert(tagged(old_right, NodeStatus::IsRightChild));
        }
        match node.determine_deletion_type() {
            DeletionType::LeafNode => {
                assert(before.remove(k) =~= Map::<K, V>::empty());
                assert(link_wf(*delete_me, status));
            },
            DeletionType::HasLeftChild => {
                let mut child = node.left_child.take().unwrap();
                child.status = node.status;
                *delete_me = Some(child);
                assert(before.remove(k) =~= left);
            },
            DeletionType::HasRightChild => {
                let mut child = node.right_child.take().unwrap();
                child.status = node.status;
                *delete_me = Some(child);
                assert(before.remove(k) =~= right);
            },
            DeletionType::HasBothChildren => {
                let mut promoted = node.left_child.take().unwrap();
                promoted.status = node.status;
                let mut slot = Some(promoted);
                assert(link_map(slot) == left);
                assert(link_wf(slot, status));
                proof {
                    assert forall|a: K, b: K| right.contains_key(a) && left.contains_key(b) implies a.less(
                        b,
                    ) by {
                        K::lemma_transitive(a, k, b);
                    }
                }
                Self::attach_rightmost(&mut slot, status, node.right_child.take());
                *delete_me = slot;
                proof {
                    assert forall|a: K| right.contains_key(a) implies !left.contains_key(a) by {
                        if left.contains_key(a) {
                            K::lemma_transitive(a, k, a);
                            K::lemma_irreflexive(a);
                        }
                    }
                }
                assert(before.remove(k) =~= left.union_prefer_right(right));
            },
        }
    }

    /// Hangs `sub` as the right child of the rightmost node of the subtree in
    /// `slot`, whose keys all come after those of `sub`.
    fn attach_rightmost(slot: &mut Link<K, V>, status: NodeStatus, sub: Link<K, V>)
        requires
            old(slot).is_some(),
            link_wf(*old(slot), status),
            link_wf(sub, NodeStatus::IsRightChild),
            forall|a: K, b: K|
                #[trigger] link_map(sub).contains_key(a) && #[trigger] link_map(
                    *old(slot),
                ).contains_key(b) ==> a.less(b),
        ensures
            link_wf(*final(slot), status),
            link_map(*final(slot)) == link_map(*old(slot)).union_prefer_right(link_map(sub)),
        decreases *old(slot),
    {
        let mut node = slot.take().unwrap();
        let ghost k = node.key;
        let ghost before = link_map(Some(node));
        let ghost left = link_map(node.left_child);
        let ghost right = link_map(node.right_child);
        let ghost added = link_map(sub);
        proof {
            assert forall|a: K| added.contains_key(a) implies !before.contains_key(a) by {
                if before.contains_key(a) {
                    K::lemma_irreflexive(a);
                }
            }
        }
        proof {
            assert forall|a: K, b: K| added.contains_key(a) && right.contains_key(b) implies a.less(
                b,
            ) by {
                assert(before.contains_key(b));
            }
            assert(before.contains_key(k));
            assert(all_before(added, k));
            assert(ordered(node.left_child) && tagged(node.left_child, NodeStatus::IsLeftChild));
            assert(ordered(node.right_child) && tagged(node.right_child, NodeStatus::IsRightChild));
        }
        if node.right_child.is_none() {
            node.right_child = sub;
        } else {
            Self::attach_rightmost(&mut node.right_child, NodeStatus::IsRightChild, sub);
        }
        *slot = Some(node);
        assert(link_map(*slot) =~= before.union_prefer_right(added));
    }

    /// Puts a new leaf holding `key` and `value` into the empty slot `at_root`.
    fn create_node_at(at_root: &mut Link<K, V>, status: NodeStatus, key: K, value: V)
        requires
            old(at_root).is_none(),
        ensures
            link_map(*final(at_root)) == map![key => value],
            link_wf(*final(at_root), status),
    {
        *at_root = Some(
            Box::new(
                Node { key, value, status, left_child: None, right_child: None },
            ),
        );
        proof {
            let m = link_map(*at_root);
            assert(link_map::<K, V>(None) == Map::<K, V>::empty());
            assert(m =~= map![key => value]);
            assert(ordered::<K, V>(None) && tagged::<K, V>(None, NodeStatus::IsLeftChild));
            assert(tagged::<K, V>(None, NodeStatus::IsRightChild));
        }
    }
}

impl<K: TreeKey, V: Clone> BinaryTree<K, V> {
    /// A copy of the value stored under `key`, if any.
    pub fn find(&self, key: &K) -> (r: Option<V>)
        requires
            self.well_formed(),
        ensures
            r is Some == self@.contains_key(*key),
            r is Some ==> cloned(self@[*key], r->0),
    {
        Self::find_internal(&self.root, key)
    }

    /// Walks down from `root` the way the order points until `key` or an
    /// empty slot is met.
    fn find_internal(root: &Link<K, V>, key: &K) -> (r: Option<V>)
        requires
            ordered(*root),
        ensures
            r is Some == link_map(*root).contains_key(*key),
            r is Some ==> cloned(link_map(*root)[*key], r->0),
    {
        let mut cur: &Link<K, V> = root;
        loop
            invariant
                ordered(*cur),
                link_map(*cur).contains_key(*key) == link_map(*root).contains_key(*key),
                link_map(*cur).contains_key(*key) ==> link_map(*cur)[*key] == link_map(
                    *root,
                )[*key],
            decreases height(*cur),
        {
            match cur {
                None => {
                    return None;
                },
                Some(node) => {
                    let ghost k = node.key;
                    let ghost left = link_map(node.left_child);
                    let ghost right = link_map(node.right_child);
                    match node.key.compare(key) {
                        std::cmp::Ordering::Less => {
                            proof {
                                if right.contains_key(*key) {
                                    K::lemma_transitive(*key, k, *key);
                                    K::lemma_irreflexive(*key);
                                }
                                K::lemma_irreflexive(k);
                            }
                            cur = &node.left_child;
                        },
                        std::cmp::Ordering::Equal => {
                            return Some(node.value.clone());
                        },
                        std::cmp::Ordering::Greater => {
                            proof {
                                if left.contains_key(*key) {
                                    K::lemma_transitive(*key, k, *key);
                                    K::lemma_irreflexive(*key);
                                }
                                K::lemma_irreflexive(k);
                            }
                            cur = &node.right_child;
                        },
                    }
                },
            }
        }
    }
}

} // verus!
