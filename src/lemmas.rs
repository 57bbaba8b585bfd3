use vstd::prelude::*;

use crate::kv::{strictly_ascending, Color, Key, KeyValuePtr, Value};

verus! {

broadcast use vstd::set::group_set_axioms;

/// The in-order walk of a search tree meets its keys in ascending order.
pub(crate) proof fn lemma_in_order_ascending<K: Key, V: Value>(t: KeyValuePtr<K, V>)
    requires
        t.is_bst(),
    ensures
        strictly_ascending(t.in_order()),
        forall|i: int| 0 <= i < t.in_order().len() ==> t.content().contains_key(#[trigger] t.in_order()[i]),
    decreases t,
{
    if let Some(n) = t.node {
        let (l, r) = (n.left, n.right);
        lemma_in_order_ascending(l);
        lemma_in_order_ascending(r);
        let (a, b) = (l.in_order(), r.in_order());
        let s = t.in_order();
        assert(s == a + seq![n.key] + b);
        assert(t.content() == l.content().union_prefer_right(r.content()).insert(n.key, n.value));
        assert forall|i: int| 0 <= i < s.len() implies t.content().contains_key(#[trigger] s[i]) by {
            if i < a.len() {
                assert(s[i] == a[i]);
            } else if i > a.len() {
                assert(s[i] == b[i - a.len() - 1]);
            }
        }
        assert forall|i: int, j: int| 0 <= i < j < s.len() implies #[trigger] s[i].rank()
            < #[trigger] s[j].rank() by {
            if i < a.len() {
                assert(l.content().contains_key(a[i]));
                assert(s[i] == a[i]);
            }
            if j > a.len() {
                assert(r.content().contains_key(b[j - a.len() - 1]));
                assert(s[j] == b[j - a.len() - 1]);
            }
            if i > a.len() {
                assert(s[i] == b[i - a.len() - 1]);
            }
            if j < a.len() {
                assert(s[j] == a[j]);
            }
        }
    }
}

/// Recoloring a node changes neither its pairs, its order, nor its
/// subtrees.
pub(crate) proof fn lemma_painted<K: Key, V: Value>(t: KeyValuePtr<K, V>, c: Color)
    requires
        !t.spec_is_nil(),
    ensures
        t.painted(c).content() == t.content(),
        t.painted(c).is_bst() == t.is_bst(),
        t.painted(c).is_balanced() == t.is_balanced(),
        t.painted(c).no_red_red_below() == t.no_red_red_below(),
        t.painted(c).black_height() == t.lc().black_height() + if c == Color::Black {
            1nat
        } else {
            0nat
        },
        t.painted(c).lc() == t.lc(),
        t.painted(c).rc() == t.rc(),
        t.painted(c).color() == c,
        !t.painted(c).spec_is_nil(),
{
}

/// Rotating a search tree keeps its pairs and its order.
pub(crate) proof fn lemma_rotate_left<K: Key, V: Value>(t: KeyValuePtr<K, V>)
    requires
        !t.spec_is_nil(),
        !t.rc().spec_is_nil(),
        t.is_bst(),
    ensures
        t.rotated_left().content() == t.content(),
        t.rotated_left().is_bst(),
{
    let r = t.rc();
    let (a, b, c) = (t.lc(), r.lc(), r.rc());
    let (x, y) = (t.spec_key(), r.spec_key());
    let inner = KeyValuePtr::mk(t.color(), a, x, t.spec_value(), b);
    assert(r.content() == b.content().union_prefer_right(c.content()).insert(y, r.spec_value()));
    assert(r.content().contains_key(y));
    assert(r.is_bst());
    assert(x.rank() < y.rank());
    assert forall|k: K| #[trigger] b.content().contains_key(k) implies x.rank() < k.rank() && k.rank()
        < y.rank() by {
        assert(r.content().contains_key(k));
    }
    assert forall|k: K| #[trigger] c.content().contains_key(k) implies x.rank() < k.rank() by {
        assert(r.content().contains_key(k));
    }
    assert(inner.is_bst());
    assert(inner.content() == a.content().union_prefer_right(b.content()).insert(x, t.spec_value()));
    assert(t.rotated_left().content() == inner.content().union_prefer_right(c.content()).insert(
        y,
        r.spec_value(),
    ));
    assert(t.content() == a.content().union_prefer_right(r.content()).insert(x, t.spec_value()));
    assert(t.rotated_left().content() =~= t.content());
    assert forall|k: K| #[trigger] inner.content().contains_key(k) implies k.rank() < y.rank() by {
        if a.content().contains_key(k) {
        }
    }
}

/// Rotating a search tree keeps its pairs and its order.
pub(crate) proof fn lemma_rotate_right<K: Key, V: Value>(t: KeyValuePtr<K, V>)
    requires
        !t.spec_is_nil(),
        !t.lc().spec_is_nil(),
        t.is_bst(),
    ensures
        t.rotated_right().content() == t.content(),
        t.rotated_right().is_bst(),
{
    let l = t.lc();
    let (a, b, c) = (l.lc(), l.rc(), t.rc());
    let (x, y) = (l.spec_key(), t.spec_key());
    let inner = KeyValuePtr::mk(t.color(), b, y, t.spec_value(), c);
    assert(l.content() == a.content().union_prefer_right(b.content()).insert(x, l.spec_value()));
    assert(l.content().contains_key(x));
    assert(l.is_bst());
    assert(x.rank() < y.rank());
    assert forall|k: K| #[trigger] b.content().contains_key(k) implies x.rank() < k.rank() && k.rank()
        < y.rank() by {
        assert(l.content().contains_key(k));
    }
    assert forall|k: K| #[trigger] a.content().contains_key(k) implies k.rank() < y.rank() by {
        assert(l.content().contains_key(k));
    }
    assert(inner.is_bst());
    assert(inner.content() == b.content().union_prefer_right(c.content()).insert(y, t.spec_value()));
    assert(t.rotated_right().content() == a.content().union_prefer_right(inner.content()).insert(
        x,
        l.spec_value(),
    ));
    assert(t.content() == l.content().union_prefer_right(c.content()).insert(y, t.spec_value()));
    assert(t.rotated_right().content() =~= t.content());
    assert forall|k: K| #[trigger] inner.content().contains_key(k) implies x.rank() < k.rank() by {
        if c.content().contains_key(k) {
        }
    }
}
/// A subtree has at least as many nodes as black nodes on any path.
pub(crate) proof fn lemma_max_black_le_count<K: Key, V: Value>(p: KeyValuePtr<K, V>)
    ensures
        p.max_black() <= p.node_count(),
    decreases p,
{
    if let Some(n) = p.node {
        lemma_max_black_le_count(n.left);
        lemma_max_black_le_count(n.right);
    }
}

/// A search tree is ordered between each node and its children.
pub(crate) proof fn lemma_bst_locally_ordered<K: Key, V: Value>(p: KeyValuePtr<K, V>)
    requires
        p.is_bst(),
    ensures
        p.locally_ordered(),
    decreases p,
{
    if let Some(n) = p.node {
        lemma_bst_locally_ordered(n.left);
        lemma_bst_locally_ordered(n.right);
        if !n.left.spec_is_nil() {
            assert(n.left.content().contains_key(n.left.spec_key()));
        }
        if !n.right.spec_is_nil() {
            assert(n.right.content().contains_key(n.right.spec_key()));
        }
    }
}

/// The leftmost path meets no more black nodes than the most on any path.
pub(crate) proof fn lemma_black_height_le_max<K: Key, V: Value>(p: KeyValuePtr<K, V>)
    ensures
        p.black_height() <= p.max_black(),
    decreases p,
{
    if let Some(n) = p.node {
        lemma_black_height_le_max(n.left);
    }
}

/// In a balanced subtree every path meets the same number of black nodes,
/// and there are at least about twice as many nodes.
pub(crate) proof fn lemma_balanced_black_height<K: Key, V: Value>(p: KeyValuePtr<K, V>)
    requires
        p.is_balanced(),
    ensures
        p.max_black() == p.black_height(),
        p.node_count() + 1 >= 2 * p.black_height(),
    decreases p,
{
    if let Some(n) = p.node {
        lemma_balanced_black_height(n.left);
        lemma_balanced_black_height(n.right);
    }
}

/// A search tree holds as many pairs as it has nodes.
pub(crate) proof fn lemma_len_is_count<K: Key, V: Value>(p: KeyValuePtr<K, V>)
    requires
        p.is_bst(),
    ensures
        p.content().dom().finite(),
        p.content().len() == p.node_count(),
    decreases p,
{
    match p.node {
        None => {
            assert(p.content().dom() =~= Set::<K>::empty());
        },
        Some(n) => {
            lemma_len_is_count(n.left);
            lemma_len_is_count(n.right);
            let (a, b) = (n.left.content().dom(), n.right.content().dom());
            assert(a.disjoint(b)) by {
                assert forall|k: K| a.contains(k) implies !b.contains(k) by {
                    assert(n.left.content().contains_key(k));
                    if b.contains(k) {
                        assert(n.right.content().contains_key(k));
                    }
                }
            }
            vstd::set_lib::lemma_set_disjoint_lens(a, b);
            let u = n.left.content().union_prefer_right(n.right.content());
            assert(u.dom() =~= a + b);
            assert(!u.dom().contains(n.key)) by {
                if a.contains(n.key) {
                    assert(n.left.content().contains_key(n.key));
                }
                if b.contains(n.key) {
                    assert(n.right.content().contains_key(n.key));
                }
            }
            assert(p.content().dom() =~= u.dom().insert(n.key));
        },
    }
}

} // verus!
