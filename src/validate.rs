use std::cmp::Ordering;
use vstd::prelude::*;

use crate::kv::{Color, Key, KeyValuePtr, Value};
use crate::lemmas::lemma_black_height_le_max;

verus! {

/// The first broken rule that the validator met, with the keys involved.
#[derive(PartialEq, Eq, Debug)]
pub enum ValidationError<K> {
    /// The root is red.
    RootRed,
    /// A red node (its key) has a red parent.
    RedRed(K),
    /// A node (first key) does not rank above its left child (second key).
    LeftOrder(K, K),
    /// A node (first key) does not rank below its right child (second key).
    RightOrder(K, K),
    /// A node's two subtrees differ in black height.
    BlackDepth(K),
    /// Some key lies on the wrong side of an ancestor further up.
    OutOfOrder,
    /// The tree holds `usize::MAX` nodes or more, too many to count.
    TooLarge,
}

impl<K: Key, V: Value> KeyValuePtr<K, V> {
    /// Every node ranks above its left child and below its right child.
    pub open(crate) spec fn locally_ordered(self) -> bool
        decreases self,
    {
        match self.node {
            None => true,
            Some(n) => {
                &&& n.left.locally_ordered()
                &&& n.right.locally_ordered()
                &&& !n.left.spec_is_nil() ==> n.left.spec_key().rank() < n.key.rank()
                &&& !n.right.spec_is_nil() ==> n.key.rank() < n.right.spec_key().rank()
            },
        }
    }

    /// What the validator accepts in a subtree below a parent of the given
    /// color: no red-red edge (the one to the parent included), ordered
    /// children, and equal black heights.
    pub open(crate) spec fn passes_validation(self, parent_red: bool) -> bool {
        &&& parent_red ==> self.spec_is_black()
        &&& self.no_red_red()
        &&& self.locally_ordered()
        &&& self.is_balanced()
    }

    /// The first rule, in the validator's order, broken in this subtree below
    /// a parent of the given color: a red node under a red parent, then a
    /// node not ranked above its left child, then one not ranked below its
    /// right child, then whatever breaks in the left subtree, then in the
    /// right one, and last a node whose subtrees differ in black height.
    pub open(crate) spec fn first_violation(self, parent_red: bool) -> Option<ValidationError<K>>
        decreases self,
    {
        match self.node {
            None => None,
            Some(n) => if parent_red && n.color == Color::Red {
                Some(ValidationError::RedRed(n.key))
            } else if !n.left.spec_is_nil() && !(n.left.spec_key().rank() < n.key.rank()) {
                Some(ValidationError::LeftOrder(n.key, n.left.spec_key()))
            } else if !n.right.spec_is_nil() && !(n.key.rank() < n.right.spec_key().rank()) {
                Some(ValidationError::RightOrder(n.key, n.right.spec_key()))
            } else if n.left.first_violation(n.color == Color::Red) is Some {
                n.left.first_violation(n.color == Color::Red)
            } else if n.right.first_violation(n.color == Color::Red) is Some {
                n.right.first_violation(n.color == Color::Red)
            } else if n.left.black_height() != n.right.black_height() {
                Some(ValidationError::BlackDepth(n.key))
            } else {
                None
            },
        }
    }

    /// The number of nodes.
    pub open(crate) spec fn node_count(self) -> nat
        decreases self,
    {
        match self.node {
            None => 0,
            Some(n) => n.left.node_count() + n.right.node_count() + 1,
        }
    }

    /// The most black nodes on any path down from here.
    pub open(crate) spec fn max_black(self) -> nat
        decreases self,
    {
        match self.node {
            None => 0,
            Some(n) => {
                let (a, b) = (n.left.max_black(), n.right.max_black());
                (if a >= b {
                    a
                } else {
                    b
                }) + if n.color == Color::Black {
                    1nat
                } else {
                    0nat
                }
            },
        }
    }

    /// A search tree whose keys all rank strictly between the bounds given.
    pub open(crate) spec fn is_bst_within(self, lo: Option<K>, hi: Option<K>) -> bool {
        &&& self.is_bst()
        &&& forall|k: K| #[trigger]
            self.content().contains_key(k) ==> (lo is Some ==> lo->Some_0.rank() < k.rank()) && (
            hi is Some ==> k.rank() < hi->Some_0.rank())
    }
}

/// Checks the red-black rules in the subtree at `ptr`, whose parent is red
/// where `parent_red` is set. On success returns one more than its black
/// height, nil counting as one.
pub(crate) fn validate_node<K: Key, V: Value>(ptr: &KeyValuePtr<K, V>, parent_red: bool) -> (r:
    Result<usize, ValidationError<K>>)
    requires
        ptr.max_black() < usize::MAX,
    ensures
        r is Ok <==> ptr.passes_validation(parent_red),
        r is Ok ==> r->Ok_0 == ptr.black_height() + 1,
        match r {
            Ok(_) => ptr.first_violation(parent_red) is None,
            Err(e) => ptr.first_violation(parent_red) == Some(e),
        },
    decreases *ptr,
{
    if ptr.is_nil() {
        return Ok(1);
    }
    let node = ptr.node();
    proof {
        lemma_black_height_le_max(node.left);
    }
    if parent_red && node.is_red() {
        return Err(ValidationError::RedRed(*node.key()));
    }
    if !node.left().is_nil() {
        let left_key = node.left().node().key();
        match node.key().compare(left_key) {
            Ordering::Greater => {},
            _ => {
                return Err(ValidationError::LeftOrder(*node.key(), *left_key));
            },
        }
    }
    if !node.right().is_nil() {
        let right_key = node.right().node().key();
        match node.key().compare(right_key) {
            Ordering::Less => {},
            _ => {
                return Err(ValidationError::RightOrder(*node.key(), *right_key));
            },
        }
    }
    let black_depth = match validate_node(node.left(), node.is_red()) {
        Ok(d) => d,
        Err(e) => {
            return Err(e);
        },
    };
    let right_depth = match validate_node(node.right(), node.is_red()) {
        Ok(d) => d,
        Err(e) => {
            return Err(e);
        },
    };
    if right_depth != black_depth {
        return Err(ValidationError::BlackDepth(*node.key()));
    }
    Ok(
        if node.is_black() {
            black_depth + 1
        } else {
            black_depth
        },
    )
}

/// Whether the subtree at `ptr` is a search tree whose keys rank strictly
/// between the bounds given.
pub(crate) fn check_order<K: Key, V: Value>(ptr: &KeyValuePtr<K, V>, lo: Option<K>, hi: Option<K>) -> (r:
    bool)
    ensures
        r == ptr.is_bst_within(lo, hi),
    decreases *ptr,
{
    if ptr.is_nil() {
        proof {
            assert(ptr.content() =~= Map::<K, V>::empty());
        }
        return true;
    }
    let node = ptr.node();
    let ghost (l, r) = (node.left, node.right);
    proof {
        assert(ptr.content() == l.content().union_prefer_right(r.content()).insert(node.key, node.value));
    }
    let above = match lo {
        None => true,
        Some(b) => match b.compare(node.key()) {
            Ordering::Less => true,
            _ => false,
        },
    };
    let below = match hi {
        None => true,
        Some(b) => match node.key().compare(&b) {
            Ordering::Less => true,
            _ => false,
        },
    };
    if !above || !below {
        proof {
            assert(ptr.content().contains_key(node.key));
        }
        return false;
    }
    let left_ok = check_order(node.left(), lo, Some(*node.key()));
    let right_ok = check_order(node.right(), Some(*node.key()), hi);
    proof {
        if left_ok && right_ok {
            assert forall|k: K| #[trigger] ptr.content().contains_key(k) implies (lo is Some
                ==> lo->Some_0.rank() < k.rank()) && (hi is Some ==> k.rank() < hi->Some_0.rank()) by {
                if k != node.key && !r.content().contains_key(k) {
                    assert(l.content().contains_key(k));
                }
            }
        }
        if ptr.is_bst_within(lo, hi) {
            assert forall|k: K| #[trigger] l.content().contains_key(k) implies (lo is Some
                ==> lo->Some_0.rank() < k.rank()) && k.rank() < node.key.rank() by {
                assert(ptr.content().contains_key(k));
            }
            assert(l.is_bst_within(lo, Some(node.key)));
            assert forall|k: K| #[trigger] r.content().contains_key(k) implies node.key.rank()
                < k.rank() && (hi is Some ==> k.rank() < hi->Some_0.rank()) by {
                assert(ptr.content().contains_key(k));
            }
            assert(r.is_bst_within(Some(node.key), hi));
        }
    }
    left_ok && right_ok
}

/// The number of nodes in the subtree at `ptr`, where it is below
/// `usize::MAX`.
pub(crate) fn count_nodes<K: Key, V: Value>(ptr: &KeyValuePtr<K, V>) -> (r: Option<usize>)
    ensures
        r == (if ptr.node_count() < usize::MAX {
            Some(ptr.node_count() as usize)
        } else {
            None
        }),
    decreases *ptr,
{
    if ptr.is_nil() {
        return Some(0);
    }
    let node = ptr.node();
    let left = match count_nodes(node.left()) {
        Some(c) => c,
        None => {
            return None;
        },
    };
    let right = match count_nodes(node.right()) {
        Some(c) => c,
        None => {
            return None;
        },
    };
    match left.checked_add(right) {
        Some(c) => if c < usize::MAX - 1 {
            Some(c + 1)
        } else {
            None
        },
        None => None,
    }
}

} // verus!
