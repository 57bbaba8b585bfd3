use std::cmp::Ordering;
use vstd::prelude::*;
use vstd::pervasive::cloned;

use crate::kv::{strictly_ascending, Color, Key, KeyValue, KeyValuePtr, Value};
use crate::lemmas::{
    lemma_balanced_black_height,
    lemma_bst_locally_ordered,
    lemma_in_order_ascending,
    lemma_len_is_count,
    lemma_max_black_le_count,
    lemma_painted,
    lemma_rotate_left,
    lemma_rotate_right,
};
use crate::shape::{
    black_sibling_repaired,
    delete_repaired,
    deleted_shape,
    inserted_root,
    inserted_shape,
    insert_repaired,
    leftmost_removed,
    unlinked,
    value_replaced,
};
use crate::validate::{check_order, count_nodes, validate_node, ValidationError};

verus! {

/// A red-black tree that owns its nodes and counts its keys.
pub struct RBTree<K: Key, V: Value> {
    pub(crate) size: usize,
    pub(crate) root: KeyValuePtr<K, V>,
}

impl<K: Key, V: Value> View for RBTree<K, V> {
    type V = Map<K, V>;

    closed spec fn view(&self) -> Map<K, V> {
        self.root.content()
    }
}

impl<K: Key, V: Value> RBTree<K, V> {
    /// The tree's shape satisfies every red-black rule: keys ascend from
    /// left to right, no red node has a red child, every path from a node
    /// down to nil meets as many black nodes, and the root is black.
    pub open(crate) spec fn is_red_black_tree(self) -> bool {
        &&& self.root.is_red_black()
        &&& self.root.spec_is_black()
        &&& strictly_ascending(self.root.in_order())
    }

    #[verifier::type_invariant]
    spec fn inv(self) -> bool {
        &&& self.is_red_black_tree()
        &&& self.size == self.root.content().len()
    }

    /// The root slot.
    pub open(crate) spec fn spec_root(self) -> KeyValuePtr<K, V> {
        self.root
    }

    /// An empty tree.
    pub fn new() -> (r: Self)
        ensures
            r@ == Map::<K, V>::empty(),
            r.spec_root().spec_is_nil(),
            r.is_red_black_tree(),
    {
        RBTree { size: 0, root: KeyValuePtr::nil() }
    }

    /// The number of keys held.
    pub fn size(&self) -> (r: usize)
        ensures
            r == self@.len(),
    {
        proof {
            use_type_invariant(self);
        }
        self.size
    }

    /// The root slot, for reading the shape of the tree.
    pub fn root(&self) -> (r: &KeyValuePtr<K, V>)
        ensures
            *r == self.spec_root(),
            r.content() == self@,
            r.is_red_black(),
            r.spec_is_black(),
            strictly_ascending(r.in_order()),
    {
        proof {
            use_type_invariant(self);
        }
        &self.root
    }

    /// Takes over the tree hanging from `root` where it keeps every
    /// red-black rule, counting its keys. Otherwise reports, in this order:
    /// a red root; a tree of `usize::MAX` nodes or more; the first broken
    /// rule that the validator meets; or `OutOfOrder` where every node ranks
    /// between its children but some key lies on the wrong side of an
    /// ancestor further up.
    pub fn from_root(root: KeyValuePtr<K, V>) -> (r: Result<Self, ValidationError<K>>)
        ensures
            r is Ok <==> root.is_red_black() && root.spec_is_black() && root.node_count() < usize::MAX,
            match r {
                Ok(t) => t.spec_root() == root && t@ == root.content() && t.is_red_black_tree(),
                Err(e) => e == (if !root.spec_is_black() {
                    ValidationError::RootRed
                } else if root.node_count() >= usize::MAX {
                    ValidationError::TooLarge
                } else if root.first_violation(false) is Some {
                    root.first_violation(false)->Some_0
                } else {
                    ValidationError::OutOfOrder
                }),
            },
    {
        if root.is_red() {
            return Err(ValidationError::RootRed);
        }
        let size = match count_nodes(&root) {
            Some(c) => c,
            None => {
                return Err(ValidationError::TooLarge);
            },
        };
        proof {
            lemma_max_black_le_count(root);
        }
        match validate_node(&root, false) {
            Ok(_) => {},
            Err(e) => {
                proof {
                    if root.is_bst() {
                        lemma_bst_locally_ordered(root);
                    }
                }
                return Err(e);
            },
        }
        if !check_order(&root, None, None) {
            return Err(ValidationError::OutOfOrder);
        }
        proof {
            lemma_len_is_count(root);
            lemma_in_order_ascending(root);
        }
        Ok(RBTree { size, root })
    }

    /// Checks every red-black rule over the whole tree, as a defensive
    /// test: root black, no red node under a red parent, each node ranked
    /// between its children, and equal black heights on both sides of each
    /// node. Returns one more than the root's black height (nil counting as
    /// one); the rules always hold, so it never fails.
    pub fn validate(&self) -> (r: Result<usize, ValidationError<K>>)
        ensures
            r == Ok::<usize, ValidationError<K>>((self.spec_root().black_height() + 1) as usize),
            self.spec_root().black_height() < usize::MAX,
    {
        proof {
            use_type_invariant(self);
            lemma_balanced_black_height(self.root);
            lemma_len_is_count(self.root);
            lemma_bst_locally_ordered(self.root);
        }
        if self.root.is_red() {
            return Err(ValidationError::RootRed);
        }
        validate_node(&self.root, false)
    }

    /// The node holding `key`, if any.
    pub fn search(&self, key: &K) -> (r: Option<&KeyValue<K, V>>)
        ensures
            match r {
                None => !self@.contains_key(*key),
                Some(n) => {
                    &&& self@.contains_key(*key)
                    &&& n.spec_key() == *key
                    &&& n.spec_value() == self@[*key]
                },
            },
    {
        proof {
            use_type_invariant(self);
        }
        let mut ptr = &self.root;
        loop
            invariant
                ptr.is_bst(),
                forall|k: K| #[trigger]
                    ptr.content().contains_key(k) ==> self@.contains_key(k) && self@[k]
                        == ptr.content()[k],
                self@.contains_key(*key) ==> ptr.content().contains_key(*key),
            decreases *ptr,
        {
            if ptr.is_nil() {
                return None;
            }
            let node = ptr.node();
            proof {
                assert(ptr.content() == node.left.content().union_prefer_right(
                    node.right.content(),
                ).insert(node.key, node.value));
            }
            match node.key().compare(key) {
                Ordering::Equal => {
                    proof {
                        K::lemma_rank_injective(node.key, *key);
                        assert(ptr.content().contains_key(node.key));
                        assert(ptr.content()[node.key] == node.value);
                        assert(self@.contains_key(*key));
                        assert(self@[*key] == node.value);
                    }
                    return Some(node);
                },
                Ordering::Less => {
                    proof {
                        assert forall|k: K| #[trigger]
                            node.right.content().contains_key(k) implies ptr.content().contains_key(
                            k,
                        ) && ptr.content()[k] == node.right.content()[k] by {}
                        if ptr.content().contains_key(*key) && !node.right.content().contains_key(*key) {
                            assert(node.left.content().contains_key(*key));
                        }
                    }
                    ptr = node.right();
                },
                Ordering::Greater => {
                    proof {
                        assert forall|k: K| #[trigger]
                            node.left.content().contains_key(k) implies ptr.content().contains_key(
                            k,
                        ) && ptr.content()[k] == node.left.content()[k] by {
                            assert(!node.right.content().contains_key(k));
                        }
                        if ptr.content().contains_key(*key) && !node.left.content().contains_key(*key) {
                            assert(node.right.content().contains_key(*key));
                        }
                    }
                    ptr = node.left();
                },
            }
        }
    }

    /// What a repair after insertion expects at a black node whose child on
    /// side `at_left` is red with a red child on side `inserted_at_left`.
    spec fn insert_repair_pre(g: KeyValuePtr<K, V>, at_left: bool, inserted_at_left: bool) -> bool {
        let x = if at_left {
            g.lc()
        } else {
            g.rc()
        };
        let s = if at_left {
            g.rc()
        } else {
            g.lc()
        };
        &&& !g.spec_is_nil()
        &&& g.color() == Color::Black
        &&& g.is_bst()
        &&& g.is_balanced()
        &&& !x.spec_is_nil()
        &&& x.color() == Color::Red
        &&& x.no_red_red_below()
        &&& s.no_red_red()
        &&& inserted_at_left == !x.lc().spec_is_black()
        &&& !inserted_at_left ==> !x.rc().spec_is_black()
        &&& x.lc().spec_is_black() || x.rc().spec_is_black()
    }

    /// Inserts `node`'s key and a clone of its payload into the subtree at
    /// `slot`, or overwrites the payload of the key already there. Returns
    /// whether the key is new. The subtree keeps its black height; a red-red
    /// edge may be left at its top only, for the caller to repair.
    fn do_insert(slot: &mut KeyValuePtr<K, V>, node: &KeyValue<K, V>) -> (inserted: bool)
        requires
            old(slot).is_red_black(),
        ensures
            final(slot).is_bst(),
            final(slot).is_balanced(),
            final(slot).black_height() == old(slot).black_height(),
            final(slot).content() == old(slot).content().insert(
                node.spec_key(),
                final(slot).content()[node.spec_key()],
            ),
            cloned(node.spec_value(), final(slot).content()[node.spec_key()]),
            inserted == !old(slot).content().contains_key(node.spec_key()),
            !final(slot).spec_is_nil(),
            final(slot).no_red_red_below(),
            old(slot).spec_is_black() ==> final(slot).no_red_red(),
            !inserted ==> final(slot).no_red_red() && final(slot).spec_is_black()
                == old(slot).spec_is_black(),
            !old(slot).spec_is_black() ==> !final(slot).spec_is_black() && (
            final(slot).lc().spec_is_black() || final(slot).rc().spec_is_black()),
            *final(slot) == inserted_shape(*old(slot), node.spec_key(), final(slot).content()[node.spec_key()]),
            !inserted ==> *final(slot) == value_replaced(*old(slot), node.spec_key(), final(slot).content()[node.spec_key()]),
        decreases *old(slot),
    {
        if slot.is_nil() {
            let value = node.value.clone();
            *slot = KeyValuePtr::new(KeyValue::new(node.key, value));
            proof {
                let t = *final(slot);
                assert(t.lc().content() == Map::<K, V>::empty());
                assert(t.rc().content() == Map::<K, V>::empty());
                assert(t.content() =~= old(slot).content().insert(node.key, value));
            }
            return true;
        }
        let ghost g = *slot;
        let mut n = slot.node.take().unwrap();
        let ghost l = n.left;
        let ghost r = n.right;
        let inserted: bool;
        let at_left: bool;
        proof {
            assert(g.content() == l.content().union_prefer_right(r.content()).insert(n.key, n.value));
        }
        match n.key.compare(&node.key) {
            Ordering::Equal => {
                n.update(node);
                slot.node = Some(n);
                proof {
                    K::lemma_rank_injective(n.key, node.key);
                    assert(slot.content() =~= g.content().insert(node.key, n.value));
                }
                return false;
            },
            Ordering::Less => {
                inserted = Self::do_insert(&mut n.right, node);
                at_left = false;
                proof {
                    let r2 = n.right;
                    let val = r2.content()[node.key];
                    assert forall|k: K| #[trigger] r2.content().contains_key(k) implies n.key.rank() < k.rank() by {
                        if k != node.key {
                            assert(r.content().contains_key(k));
                        }
                    }
                    assert(!l.content().contains_key(node.key));
                    assert(l.content().union_prefer_right(r2.content()).insert(n.key, n.value) =~= g.content().insert(node.key, val));
                }
            },
            Ordering::Greater => {
                inserted = Self::do_insert(&mut n.left, node);
                at_left = true;
                proof {
                    let l2 = n.left;
                    let val = l2.content()[node.key];
                    assert forall|k: K| #[trigger] l2.content().contains_key(k) implies k.rank() < n.key.rank() by {
                        if k != node.key {
                            assert(l.content().contains_key(k));
                        }
                    }
                    assert(!r.content().contains_key(node.key));
                    assert(l2.content().union_prefer_right(r.content()).insert(n.key, n.value) =~= g.content().insert(node.key, val));
                }
            },
        }
        slot.node = Some(n);
        if inserted {
            let child = if at_left {
                slot.node().left()
            } else {
                slot.node().right()
            };
            if child.is_red() {
                let grandchild = child.node();
                if grandchild.left.is_red() || grandchild.right.is_red() {
                    let inserted_at_left = grandchild.left.is_red();
                    Self::insert_repair(slot, at_left, inserted_at_left);
                }
            }
        }
        inserted
    }

    /// Restores the red rules at a black node one of whose children is red
    /// with a red child: recolors when the other child is red too, else
    /// rotates the red pair up (after straightening a zig-zag).
    fn insert_repair(slot: &mut KeyValuePtr<K, V>, at_left: bool, inserted_at_left: bool)
        requires
            Self::insert_repair_pre(*old(slot), at_left, inserted_at_left),
        ensures
            *final(slot) == insert_repaired(*old(slot), at_left, inserted_at_left),
            final(slot).content() == old(slot).content(),
            final(slot).is_red_black(),
            final(slot).black_height() == old(slot).black_height(),
    {
        let ghost g = *slot;
        let ghost x = if at_left {
            g.lc()
        } else {
            g.rc()
        };
        let ghost s = if at_left {
            g.rc()
        } else {
            g.lc()
        };
        proof {
            assert(g.lc().is_balanced() && g.rc().is_balanced());
            assert(g.lc().is_bst() && g.rc().is_bst());
            assert(x.is_balanced() && x.lc().is_balanced() && x.rc().is_balanced());
            assert(x.lc().black_height() == x.rc().black_height());
            assert(x.black_height() == x.lc().black_height());
            assert(g.black_height() == x.black_height() + 1);
            assert(x.lc().no_red_red() && x.rc().no_red_red());
            assert(s.no_red_red_below());
        }
        let sibling_red = if at_left {
            slot.node().right().is_red()
        } else {
            slot.node().left().is_red()
        };
        let mut n = slot.node.take().unwrap();
        if sibling_red {
            n.left.paint(Color::Black);
            n.right.paint(Color::Black);
            n.color = Color::Red;
            slot.node = Some(n);
            proof {
                lemma_painted(g.lc(), Color::Black);
                lemma_painted(g.rc(), Color::Black);
                let f = *final(slot);
                assert(s.black_height() == s.lc().black_height());
                assert(f.lc().no_red_red());
                assert(f.rc().no_red_red());
                assert(f.is_bst());
                assert(f.content() == g.content());
            }
            return;
        }
        if at_left {
            if !inserted_at_left {
                proof {
                    Self::lemma_straighten_left(x);
                }
                Self::rotate_left(&mut n.left);
            }
            let ghost x1 = n.left;
            n.left.paint(Color::Black);
            n.color = Color::Red;
            slot.node = Some(n);
            proof {
                let g1 = *slot;
                lemma_painted(x1, Color::Black);
                assert(g1.content() == g.content());
                assert(g1.is_bst());
                lemma_rotate_right(g1);
            }
            Self::rotate_right(slot);
            proof {
                let f = *final(slot);
                assert(f.rc().no_red_red());
                assert(f.rc().is_balanced());
                assert(f.lc() == x1.lc());
                assert(f.no_red_red());
                assert(f.is_balanced());
            }
        } else {
            if inserted_at_left {
                proof {
                    Self::lemma_straighten_right(x);
                }
                Self::rotate_right(&mut n.right);
            }
            let ghost x1 = n.right;
            n.right.paint(Color::Black);
            n.color = Color::Red;
            slot.node = Some(n);
            proof {
                let g1 = *slot;
                lemma_painted(x1, Color::Black);
                assert(g1.content() == g.content());
                assert(g1.is_bst());
                lemma_rotate_left(g1);
            }
            Self::rotate_left(slot);
            proof {
                let f = *final(slot);
                assert(f.lc().no_red_red());
                assert(f.lc().is_balanced());
                assert(f.rc() == x1.rc());
                assert(f.no_red_red());
                assert(f.is_balanced());
            }
        }
    }

    /// A red node whose red child hangs on the left, whose other child is
    /// black, and whose subtrees keep the rules.
    spec fn red_pair_left(x: KeyValuePtr<K, V>, h: nat) -> bool {
        &&& !x.spec_is_nil()
        &&& x.color() == Color::Red
        &&& !x.lc().spec_is_nil()
        &&& x.lc().color() == Color::Red
        &&& x.lc().no_red_red()
        &&& x.lc().is_balanced()
        &&& x.lc().black_height() == h
        &&& x.rc().spec_is_black()
        &&& x.rc().no_red_red()
        &&& x.rc().is_balanced()
        &&& x.rc().black_height() == h
    }

    /// The mirror image of `red_pair_left`.
    spec fn red_pair_right(x: KeyValuePtr<K, V>, h: nat) -> bool {
        &&& !x.spec_is_nil()
        &&& x.color() == Color::Red
        &&& !x.rc().spec_is_nil()
        &&& x.rc().color() == Color::Red
        &&& x.rc().no_red_red()
        &&& x.rc().is_balanced()
        &&& x.rc().black_height() == h
        &&& x.lc().spec_is_black()
        &&& x.lc().no_red_red()
        &&& x.lc().is_balanced()
        &&& x.lc().black_height() == h
    }

    /// Rotating a red node whose red child hangs on the right turns the
    /// zig-zag into a left-hanging red pair.
    proof fn lemma_straighten_left(x: KeyValuePtr<K, V>)
        requires
            Self::red_pair_right(x, x.black_height()),
            x.is_bst(),
        ensures
            Self::red_pair_left(x.rotated_left(), x.black_height()),
            x.rotated_left().content() == x.content(),
            x.rotated_left().is_bst(),
    {
        lemma_rotate_left(x);
        let y = x.rc();
        assert(y.lc().spec_is_black() && y.rc().spec_is_black());
        assert(y.lc().no_red_red() && y.rc().no_red_red());
        assert(y.lc().is_balanced() && y.rc().is_balanced());
        assert(y.black_height() == y.lc().black_height());
        let inner = x.rotated_left().lc();
        assert(inner.no_red_red());
        assert(inner.is_balanced());
    }

    /// The mirror image of `lemma_straighten_left`.
    proof fn lemma_straighten_right(x: KeyValuePtr<K, V>)
        requires
            Self::red_pair_left(x, x.black_height()),
            x.is_bst(),
        ensures
            Self::red_pair_right(x.rotated_right(), x.black_height()),
            x.rotated_right().content() == x.content(),
            x.rotated_right().is_bst(),
    {
        lemma_rotate_right(x);
        let y = x.lc();
        assert(y.lc().spec_is_black() && y.rc().spec_is_black());
        assert(y.lc().no_red_red() && y.rc().no_red_red());
        assert(y.lc().is_balanced() && y.rc().is_balanced());
        assert(y.black_height() == y.lc().black_height());
        let inner = x.rotated_right().rc();
        assert(inner.no_red_red());
        assert(inner.is_balanced());
    }

    /// Adds `node`'s key with a clone of its payload, or, where the key is
    /// present, overwrites its payload in place. Returns whether the key
    /// is new.
    pub fn insert(&mut self, node: &KeyValue<K, V>) -> (inserted: bool)
        requires
            !old(self)@.contains_key(node.spec_key()) ==> old(self)@.len() < usize::MAX,
        ensures
            inserted == !old(self)@.contains_key(node.spec_key()),
            final(self)@ == old(self)@.insert(node.spec_key(), final(self)@[node.spec_key()]),
            cloned(node.spec_value(), final(self)@[node.spec_key()]),
            final(self).is_red_black_tree(),
            final(self).spec_root() == inserted_root(old(self).spec_root(), node.spec_key(), final(self)@[node.spec_key()]),
            old(self)@.contains_key(node.spec_key()) ==> final(self).spec_root() == value_replaced(
                old(self).spec_root(),
                node.spec_key(),
                final(self)@[node.spec_key()],
            ),
    {
        proof {
            use_type_invariant(&*self);
        }
        let mut tree = RBTree::new();
        std::mem::swap(self, &mut tree);
        let RBTree { size, mut root } = tree;
        let ghost old_root = root;
        let inserted = Self::do_insert(&mut root, node);
        if inserted && root.is_red() {
            proof {
                lemma_painted(root, Color::Black);
            }
            root.paint(Color::Black);
        }
        proof {
            lemma_len_is_count(old_root);
            K::lemma_rank_injective(node.key, node.key);
        }
        proof {
            lemma_in_order_ascending(root);
        }
        let size = if inserted {
            size + 1
        } else {
            size
        };
        *self = RBTree { size, root };
        inserted
    }

    /// What holds of a subtree after a deletion below `t` left `f`: the
    /// rules hold, and `f` lacks one black node on every path exactly when
    /// `need_repair` is set, which happens only where `t` had a black top.
    spec fn delete_post(t: KeyValuePtr<K, V>, f: KeyValuePtr<K, V>, need_repair: bool) -> bool {
        &&& f.is_red_black()
        &&& f.black_height() + (if need_repair {
            1nat
        } else {
            0nat
        }) == t.black_height()
        &&& need_repair ==> f.spec_is_black() && !t.spec_is_nil() && t.color() == Color::Black
        &&& t.spec_is_black() ==> f.spec_is_black()
    }

    /// What a repair after deletion expects at node `p`: its child on side
    /// `at_left` is black and one black node short of its sibling.
    spec fn delete_repair_pre(p: KeyValuePtr<K, V>, at_left: bool) -> bool {
        let x = if at_left {
            p.lc()
        } else {
            p.rc()
        };
        let s = if at_left {
            p.rc()
        } else {
            p.lc()
        };
        &&& !p.spec_is_nil()
        &&& p.is_bst()
        &&& x.is_red_black()
        &&& s.is_red_black()
        &&& x.spec_is_black()
        &&& s.black_height() == x.black_height() + 1
        &&& p.color() == Color::Red ==> s.spec_is_black()
    }

    /// What holds after a repair at `p` left `f`: the pairs are kept, the
    /// rules hold, and `f` has the black height that `p` was meant to have
    /// (from the sibling's side), less one exactly when `need_repair` is set.
    spec fn delete_repair_post(
        p: KeyValuePtr<K, V>,
        at_left: bool,
        f: KeyValuePtr<K, V>,
        need_repair: bool,
    ) -> bool {
        let s = if at_left {
            p.rc()
        } else {
            p.lc()
        };
        &&& f.content() == p.content()
        &&& f.is_red_black()
        &&& f.black_height() + (if need_repair {
            1nat
        } else {
            0nat
        }) == s.black_height() + (if p.color() == Color::Black {
            1nat
        } else {
            0nat
        })
        &&& need_repair ==> f.spec_is_black() && p.color() == Color::Black
        &&& p.color() == Color::Black ==> f.spec_is_black()
    }

    /// Removes `key` from the subtree at `slot`, moving the removed pair into
    /// `deleted`. Returns whether the subtree came out one black node short.
    fn do_delete(slot: &mut KeyValuePtr<K, V>, key: &K, deleted: &mut KeyValuePtr<K, V>) -> (need_repair: bool)
        requires
            old(slot).is_red_black(),
            old(deleted).spec_is_nil(),
        ensures
            Self::delete_post(*old(slot), *final(slot), need_repair),
            final(slot).content() == old(slot).content().remove(*key),
            (*final(slot), need_repair) == deleted_shape(*old(slot), *key),
            old(slot).content().contains_key(*key) == !final(deleted).spec_is_nil(),
            !old(slot).content().contains_key(*key) ==> *final(slot) == *old(slot) && !need_repair,
            !final(deleted).spec_is_nil() ==> final(deleted).spec_key() == *key
                && final(deleted).spec_value() == old(slot).content()[*key],
        decreases *old(slot),
    {
        if slot.is_nil() {
            proof {
                assert(old(slot).content().remove(*key) =~= old(slot).content());
            }
            return false;
        }
        let ghost t = *slot;
        let mut n = slot.node.take().unwrap();
        let ghost l = n.left;
        let ghost r = n.right;
        proof {
            assert(t.content() == l.content().union_prefer_right(r.content()).insert(n.key, n.value));
            assert(l.is_red_black() && r.is_red_black());
        }
        match n.key.compare(key) {
            Ordering::Equal => {
                proof {
                    K::lemma_rank_injective(n.key, *key);
                }
                if !n.left.is_nil() && !n.right.is_nil() {
                    let need = Self::delete_left_most(&mut n.right, deleted);
                    let mut d = deleted.node.take().unwrap();
                    let ghost m = d.key;
                    proof {
                        let r2 = n.right;
                        assert(r.content().contains_key(m));
                        assert forall|k: K| #[trigger] r2.content().contains_key(k) implies m.rank() < k.rank() by {
                            assert(r.content().contains_key(k));
                            K::lemma_rank_injective(m, k);
                        }
                        assert forall|k: K| #[trigger] l.content().contains_key(k) implies k.rank() < m.rank() by {}
                        assert(!l.content().contains_key(*key));
                        assert(!r.content().contains_key(*key));
                        assert(l.content().union_prefer_right(r2.content()).insert(m, d.value) =~= t.content().remove(*key));
                    }
                    std::mem::swap(&mut n.key, &mut d.key);
                    std::mem::swap(&mut n.value, &mut d.value);
                    deleted.node = Some(d);
                    slot.node = Some(n);
                    if need {
                        Self::delete_repair(slot, false)
                    } else {
                        false
                    }
                } else {
                    slot.node = Some(n);
                    Self::delete_node(slot, deleted)
                }
            },
            Ordering::Less => {
                let need = Self::do_delete(&mut n.right, key, deleted);
                proof {
                    let r2 = n.right;
                    assert forall|k: K| #[trigger] r2.content().contains_key(k) implies n.key.rank() < k.rank() by {
                        assert(r.content().contains_key(k));
                    }
                    assert(!l.content().contains_key(*key));
                    assert(l.content().union_prefer_right(r2.content()).insert(n.key, n.value) =~= t.content().remove(*key));
                }
                slot.node = Some(n);
                if need {
                    Self::delete_repair(slot, false)
                } else {
                    false
                }
            },
            Ordering::Greater => {
                let need = Self::do_delete(&mut n.left, key, deleted);
                proof {
                    let l2 = n.left;
                    assert forall|k: K| #[trigger] l2.content().contains_key(k) implies k.rank() < n.key.rank() by {
                        assert(l.content().contains_key(k));
                    }
                    assert(!r.content().contains_key(*key));
                    assert(l2.content().union_prefer_right(r.content()).insert(n.key, n.value) =~= t.content().remove(*key));
                }
                slot.node = Some(n);
                if need {
                    Self::delete_repair(slot, true)
                } else {
                    false
                }
            },
        }
    }

    /// Removes the smallest key of the subtree at `slot`, moving its pair
    /// into `deleted`. Returns whether the subtree came out one black node
    /// short.
    fn delete_left_most(slot: &mut KeyValuePtr<K, V>, deleted: &mut KeyValuePtr<K, V>) -> (need_repair: bool)
        requires
            !old(slot).spec_is_nil(),
            old(slot).is_red_black(),
            old(deleted).spec_is_nil(),
        ensures
            Self::delete_post(*old(slot), *final(slot), need_repair),
            !final(deleted).spec_is_nil(),
            old(slot).content().contains_key(final(deleted).spec_key()),
            (*final(slot), need_repair, final(deleted).spec_key(), final(deleted).spec_value())
                == leftmost_removed(*old(slot)),
            old(slot).content()[final(deleted).spec_key()] == final(deleted).spec_value(),
            forall|k: K| #[trigger]
                old(slot).content().contains_key(k) ==> final(deleted).spec_key().rank() <= k.rank(),
            final(slot).content() == old(slot).content().remove(final(deleted).spec_key()),
        decreases *old(slot),
    {
        if slot.node().left().is_nil() {
            proof {
                assert forall|k: K| #[trigger]
                    old(slot).content().contains_key(k) implies old(slot).spec_key().rank() <= k.rank() by {
                    assert(old(slot).lc().content() =~= Map::<K, V>::empty());
                    assert(old(slot).content() == old(slot).lc().content().union_prefer_right(
                        old(slot).rc().content(),
                    ).insert(old(slot).spec_key(), old(slot).spec_value()));
                    if k != old(slot).spec_key() {
                        assert(old(slot).rc().content().contains_key(k));
                    }
                }
            }
            return Self::delete_node(slot, deleted);
        }
        let ghost t = *slot;
        let mut n = slot.node.take().unwrap();
        let ghost l = n.left;
        let ghost r = n.right;
        proof {
            assert(t.content() == l.content().union_prefer_right(r.content()).insert(n.key, n.value));
            assert(l.is_red_black() && r.is_red_black());
        }
        let need = Self::delete_left_most(&mut n.left, deleted);
        proof {
            let l2 = n.left;
            let m = deleted.spec_key();
            assert forall|k: K| #[trigger] l2.content().contains_key(k) implies k.rank() < n.key.rank() by {
                assert(l.content().contains_key(k));
            }
            assert forall|k: K| #[trigger] t.content().contains_key(k) implies m.rank() <= k.rank() by {
                if k != n.key && !l.content().contains_key(k) {
                    assert(r.content().contains_key(k));
                }
            }
            assert(!r.content().contains_key(m));
            assert(l2.content().union_prefer_right(r.content()).insert(n.key, n.value) =~= t.content().remove(m));
        }
        slot.node = Some(n);
        if need {
            Self::delete_repair(slot, true)
        } else {
            false
        }
    }

    /// Unlinks the node at `slot`, which has at most one child, moving it
    /// into `deleted`. Returns whether the subtree came out one black node
    /// short.
    fn delete_node(slot: &mut KeyValuePtr<K, V>, deleted: &mut KeyValuePtr<K, V>) -> (need_repair: bool)
        requires
            !old(slot).spec_is_nil(),
            old(slot).is_red_black(),
            old(slot).lc().spec_is_nil() || old(slot).rc().spec_is_nil(),
            old(deleted).spec_is_nil(),
        ensures
            Self::delete_post(*old(slot), *final(slot), need_repair),
            !final(deleted).spec_is_nil(),
            final(deleted).spec_key() == old(slot).spec_key(),
            final(deleted).spec_value() == old(slot).spec_value(),
            final(slot).content() == old(slot).content().remove(old(slot).spec_key()),
            (*final(slot), need_repair) == unlinked(*old(slot)),
    {
        let ghost t = *slot;
        let mut n = slot.node.take().unwrap();
        let c = if !n.left.is_nil() {
            n.left.take()
        } else {
            n.right.take()
        };
        proof {
            assert(t.lc().is_red_black() && t.rc().is_red_black());
            assert(t.lc().content() =~= Map::<K, V>::empty() || t.rc().content() =~= Map::<K, V>::empty());
            assert(c.content() =~= t.content().remove(t.spec_key()));
        }
        *slot = c;
        let red = n.color == Color::Red;
        *deleted = KeyValuePtr { node: Some(n) };
        if red {
            return false;
        }
        if slot.is_red() {
            proof {
                lemma_painted(c, Color::Black);
                assert(c.lc().no_red_red() && c.rc().no_red_red());
            }
            slot.paint(Color::Black);
            return false;
        }
        true
    }

    /// Repairs a subtree whose child on side `at_left` is one black node
    /// short. A red sibling is first rotated up so that the short child gets
    /// a black one. Returns whether the shortage moved up to the parent.
    fn delete_repair(slot: &mut KeyValuePtr<K, V>, at_left: bool) -> (need_repair: bool)
        requires
            Self::delete_repair_pre(*old(slot), at_left),
        ensures
            Self::delete_repair_post(*old(slot), at_left, *final(slot), need_repair),
            (*final(slot), need_repair) == delete_repaired(*old(slot), at_left),
            need_repair == (old(slot).color() == Color::Black && (if at_left {
                old(slot).rc()
            } else {
                old(slot).lc()
            }).spec_is_black() && (if at_left {
                old(slot).rc()
            } else {
                old(slot).lc()
            }).lc().spec_is_black() && (if at_left {
                old(slot).rc()
            } else {
                old(slot).lc()
            }).rc().spec_is_black()),
    {
        let ghost p = *slot;
        let sibling_red = if at_left {
            slot.node().right().is_red()
        } else {
            slot.node().left().is_red()
        };
        if !sibling_red {
            return Self::delete_repair_black_sibling(slot, at_left);
        }
        let mut n = slot.node.take().unwrap();
        n.color = Color::Red;
        if at_left {
            n.right.paint(Color::Black);
            slot.node = Some(n);
            proof {
                lemma_painted(p.rc(), Color::Black);
                assert(slot.is_bst());
                lemma_rotate_left(*slot);
            }
            Self::rotate_left(slot);
            let mut top = slot.node.take().unwrap();
            let need = Self::delete_repair_black_sibling(&mut top.left, true);
            slot.node = Some(top);
            need
        } else {
            n.left.paint(Color::Black);
            slot.node = Some(n);
            proof {
                lemma_painted(p.lc(), Color::Black);
                assert(slot.is_bst());
                lemma_rotate_right(*slot);
            }
            Self::rotate_right(slot);
            let mut top = slot.node.take().unwrap();
            let need = Self::delete_repair_black_sibling(&mut top.right, false);
            slot.node = Some(top);
            need
        }
    }

    /// Repairs a subtree whose child on side `at_left` is one black node
    /// short and whose other child is black: recolors the sibling when both
    /// its children are black, else rotates its red child into place.
    fn delete_repair_black_sibling(slot: &mut KeyValuePtr<K, V>, at_left: bool) -> (need_repair: bool)
        requires
            Self::delete_repair_pre(*old(slot), at_left),
            (if at_left {
                old(slot).rc()
            } else {
                old(slot).lc()
            }).spec_is_black(),
        ensures
            Self::delete_repair_post(*old(slot), at_left, *final(slot), need_repair),
            old(slot).color() == Color::Red ==> !need_repair,
            (*final(slot), need_repair) == black_sibling_repaired(*old(slot), at_left),
            need_repair == (old(slot).color() == Color::Black && (if at_left {
                old(slot).rc()
            } else {
                old(slot).lc()
            }).spec_is_black() && (if at_left {
                old(slot).rc()
            } else {
                old(slot).lc()
            }).lc().spec_is_black() && (if at_left {
                old(slot).rc()
            } else {
                old(slot).lc()
            }).rc().spec_is_black()),
    {
        let ghost p = *slot;
        let ghost x = if at_left {
            p.lc()
        } else {
            p.rc()
        };
        let ghost s = if at_left {
            p.rc()
        } else {
            p.lc()
        };
        proof {
            assert(s.lc().is_red_black() && s.rc().is_red_black());
            assert(s.black_height() == s.lc().black_height() + 1);
            assert(s.lc().black_height() == s.rc().black_height());
            assert(s.lc().is_bst() && s.rc().is_bst());
        }
        let mut n = slot.node.take().unwrap();
        if at_left {
            if n.right.node().left.is_black() && n.right.node().right.is_black() {
                n.right.paint(Color::Red);
                proof {
                    lemma_painted(s, Color::Red);
                    assert(n.right.no_red_red());
                }
                if n.color == Color::Black {
                    slot.node = Some(n);
                    proof {
                        assert(slot.is_bst());
                    }
                    return true;
                }
                n.color = Color::Black;
                slot.node = Some(n);
                proof {
                    assert(slot.is_bst());
                }
                return false;
            }
            if n.right.node().right.is_black() {
                let mut sb = n.right.node.take().unwrap();
                sb.color = Color::Red;
                sb.left.paint(Color::Black);
                n.right.node = Some(sb);
                proof {
                    Self::lemma_normalize_right_sibling(s, n.right);
                }
                Self::rotate_right(&mut n.right);
            }
            let ghost s1 = n.right;
            proof {
                assert(Self::far_red_right(s1, x.black_height()));
                assert(s1.content() == s.content());
            }
            if n.color == Color::Red {
                n.right.paint(Color::Red);
                n.color = Color::Black;
            }
            let mut sb = n.right.node.take().unwrap();
            sb.right.paint(Color::Black);
            n.right.node = Some(sb);
            slot.node = Some(n);
            proof {
                let s2 = slot.rc();
                lemma_painted(s1.rc(), Color::Black);
                assert(s2.lc() == s1.lc());
                assert(s2.content() == s1.content());
                assert(s2.is_bst());
                assert(slot.content() == p.content());
                assert(slot.is_bst());
                lemma_rotate_left(*slot);
            }
            Self::rotate_left(slot);
            proof {
                let f = *final(slot);
                assert(f.lc().no_red_red());
                assert(f.lc().is_balanced());
                assert(f.rc().no_red_red());
                assert(f.rc().is_balanced());
                assert(f.content() == p.content());
                assert(f.is_bst());
                assert(f.no_red_red());
                assert(f.is_balanced());
                assert(f.black_height() == s.black_height() + if p.color() == Color::Black {
                    1nat
                } else {
                    0nat
                });
                assert(p.color() == Color::Black ==> f.spec_is_black());
            }
            false
        } else {
            if n.left.node().right.is_black() && n.left.node().left.is_black() {
                n.left.paint(Color::Red);
                proof {
                    lemma_painted(s, Color::Red);
                    assert(n.left.no_red_red());
                }
                if n.color == Color::Black {
                    slot.node = Some(n);
                    proof {
                        assert(slot.is_bst());
                    }
                    return true;
                }
                n.color = Color::Black;
                slot.node = Some(n);
                proof {
                    assert(slot.is_bst());
                }
                return false;
            }
            if n.left.node().left.is_black() {
                let mut sb = n.left.node.take().unwrap();
                sb.color = Color::Red;
                sb.right.paint(Color::Black);
                n.left.node = Some(sb);
                proof {
                    Self::lemma_normalize_left_sibling(s, n.left);
                }
                Self::rotate_left(&mut n.left);
            }
            let ghost s1 = n.left;
            proof {
                assert(Self::far_red_left(s1, x.black_height()));
                assert(s1.content() == s.content());
            }
            if n.color == Color::Red {
                n.left.paint(Color::Red);
                n.color = Color::Black;
            }
            let mut sb = n.left.node.take().unwrap();
            sb.left.paint(Color::Black);
            n.left.node = Some(sb);
            slot.node = Some(n);
            proof {
                let s2 = slot.lc();
                lemma_painted(s1.lc(), Color::Black);
                assert(s2.rc() == s1.rc());
                assert(s2.content() == s1.content());
                assert(s2.is_bst());
                assert(slot.content() == p.content());
                assert(slot.is_bst());
                lemma_rotate_right(*slot);
            }
            Self::rotate_right(slot);
            proof {
                let f = *final(slot);
                assert(f.lc().no_red_red());
                assert(f.lc().is_balanced());
                assert(f.rc().no_red_red());
                assert(f.rc().is_balanced());
                assert(f.content() == p.content());
                assert(f.is_bst());
                assert(f.no_red_red());
                assert(f.is_balanced());
                assert(f.black_height() == s.black_height() + if p.color() == Color::Black {
                    1nat
                } else {
                    0nat
                });
                assert(p.color() == Color::Black ==> f.spec_is_black());
            }
            false
        }
    }

    /// A black sibling of black height `h + 1` whose right (far) child is
    /// red, all of whose subtrees keep the rules.
    spec fn far_red_right(s: KeyValuePtr<K, V>, h: nat) -> bool {
        &&& !s.spec_is_nil()
        &&& s.color() == Color::Black
        &&& s.is_bst()
        &&& s.lc().no_red_red()
        &&& s.lc().is_balanced()
        &&& s.lc().black_height() == h
        &&& !s.rc().spec_is_nil()
        &&& s.rc().color() == Color::Red
        &&& s.rc().no_red_red()
        &&& s.rc().is_balanced()
        &&& s.rc().black_height() == h
    }

    /// The mirror image of `far_red_right`.
    spec fn far_red_left(s: KeyValuePtr<K, V>, h: nat) -> bool {
        &&& !s.spec_is_nil()
        &&& s.color() == Color::Black
        &&& s.is_bst()
        &&& s.rc().no_red_red()
        &&& s.rc().is_balanced()
        &&& s.rc().black_height() == h
        &&& !s.lc().spec_is_nil()
        &&& s.lc().color() == Color::Red
        &&& s.lc().no_red_red()
        &&& s.lc().is_balanced()
        &&& s.lc().black_height() == h
    }

    /// A black sibling whose only red child is the near (left) one, once
    /// recolored as `mid` and rotated right, has its red child on the far side.
    proof fn lemma_normalize_right_sibling(s: KeyValuePtr<K, V>, mid: KeyValuePtr<K, V>)
        requires
            !s.spec_is_nil(),
            s.color() == Color::Black,
            s.is_red_black(),
            !s.lc().spec_is_black(),
            s.rc().spec_is_black(),
            mid == KeyValuePtr::mk(
                Color::Red,
                s.lc().painted(Color::Black),
                s.spec_key(),
                s.spec_value(),
                s.rc(),
            ),
        ensures
            Self::far_red_right(mid.rotated_right(), (s.black_height() - 1) as nat),
            mid.rotated_right().content() == s.content(),
    {
        let y = s.lc();
        lemma_painted(y, Color::Black);
        assert(s.no_red_red() && s.is_balanced() && s.is_bst());
        assert(y.no_red_red() && y.is_balanced() && y.is_bst());
        assert(y.lc().spec_is_black() && y.rc().spec_is_black());
        assert(y.lc().is_red_black() && y.rc().is_red_black());
        assert(y.black_height() == y.lc().black_height());
        assert(y.lc().black_height() == y.rc().black_height());
        assert(s.rc().is_red_black());
        assert(mid.content() == s.content());
        assert(mid.is_bst());
        lemma_rotate_right(mid);
        let r = mid.rotated_right().rc();
        assert(r.no_red_red());
        assert(r.is_balanced());
    }

    /// The mirror image of `lemma_normalize_right_sibling`.
    proof fn lemma_normalize_left_sibling(s: KeyValuePtr<K, V>, mid: KeyValuePtr<K, V>)
        requires
            !s.spec_is_nil(),
            s.color() == Color::Black,
            s.is_red_black(),
            !s.rc().spec_is_black(),
            s.lc().spec_is_black(),
            mid == KeyValuePtr::mk(
                Color::Red,
                s.lc(),
                s.spec_key(),
                s.spec_value(),
                s.rc().painted(Color::Black),
            ),
        ensures
            Self::far_red_left(mid.rotated_left(), (s.black_height() - 1) as nat),
            mid.rotated_left().content() == s.content(),
    {
        let y = s.rc();
        lemma_painted(y, Color::Black);
        assert(s.no_red_red() && s.is_balanced() && s.is_bst());
        assert(y.no_red_red() && y.is_balanced() && y.is_bst());
        assert(y.lc().spec_is_black() && y.rc().spec_is_black());
        assert(y.lc().is_red_black() && y.rc().is_red_black());
        assert(y.black_height() == y.lc().black_height());
        assert(y.lc().black_height() == y.rc().black_height());
        assert(s.lc().is_red_black());
        assert(s.black_height() == s.lc().black_height() + 1);
        assert(mid.content() == s.content());
        assert(mid.is_bst());
        lemma_rotate_left(mid);
        let l = mid.rotated_left().lc();
        assert(l.no_red_red());
        assert(l.is_balanced());
    }

    /// Removes `key` and its payload. Returns whether the key was present;
    /// where it was not, the tree is left exactly as it was.
    pub fn delete(&mut self, key: &K) -> (deleted: bool)
        ensures
            deleted == old(self)@.contains_key(*key),
            final(self)@ == old(self)@.remove(*key),
            !deleted ==> *final(self) == *old(self),
            final(self).is_red_black_tree(),
            final(self).spec_root() == deleted_shape(old(self).spec_root(), *key).0,
    {
        proof {
            use_type_invariant(&*self);
        }
        let mut tree = RBTree::new();
        std::mem::swap(self, &mut tree);
        let RBTree { size, mut root } = tree;
        let ghost old_root = root;
        let mut deleted_node = KeyValuePtr::nil();
        let _ = Self::do_delete(&mut root, key, &mut deleted_node);
        let deleted = !deleted_node.is_nil();
        proof {
            lemma_len_is_count(old_root);
        }
        proof {
            lemma_in_order_ascending(root);
        }
        let size = if deleted {
            size - 1
        } else {
            size
        };
        *self = RBTree { size, root };
        deleted
    }

    fn rotate_left(ptr: &mut KeyValuePtr<K, V>)
        requires
            !old(ptr).spec_is_nil(),
            !old(ptr).rc().spec_is_nil(),
        ensures
            *final(ptr) == old(ptr).rotated_left(),
    {
        let mut me = ptr.node.take().unwrap();
        let mut r = me.right.node.take().unwrap();
        me.right = r.left.take();
        r.left = KeyValuePtr { node: Some(me) };
        ptr.node = Some(r);
    }

    fn rotate_right(ptr: &mut KeyValuePtr<K, V>)
        requires
            !old(ptr).spec_is_nil(),
            !old(ptr).lc().spec_is_nil(),
        ensures
            *final(ptr) == old(ptr).rotated_right(),
    {
        let mut me = ptr.node.take().unwrap();
        let mut l = me.left.node.take().unwrap();
        me.left = l.right.take();
        l.right = KeyValuePtr { node: Some(me) };
        ptr.node = Some(l);
    }
}

} // verus!
