use vstd::prelude::*;

use crate::kv::{Color, Key, KeyValuePtr, Value};

verus! {

/// The subtree `t` with the payload under `key` replaced by `value`, every
/// node, color and link kept.
pub open(crate) spec fn value_replaced<K: Key, V: Value>(t: KeyValuePtr<K, V>, key: K, value: V) -> KeyValuePtr<K, V>
    decreases t,
{
    match t.node {
        None => t,
        Some(n) => if key.rank() == n.key.rank() {
            KeyValuePtr::mk(n.color, n.left, n.key, value, n.right)
        } else if n.key.rank() < key.rank() {
            KeyValuePtr::mk(n.color, n.left, n.key, n.value, value_replaced(n.right, key, value))
        } else {
            KeyValuePtr::mk(n.color, value_replaced(n.left, key, value), n.key, n.value, n.right)
        },
    }
}

/// The result of the insertion repair at black node `g`, whose child on side
/// `at_left` is red with a red child on side `inserted_at_left`: when the
/// other child is red, both children turn black and `g` red; otherwise a
/// zig-zag is first rotated straight, the child turns black, `g` red, and
/// `g` is rotated toward the other side.
pub open(crate) spec fn insert_repaired<K: Key, V: Value>(
    g: KeyValuePtr<K, V>,
    at_left: bool,
    inserted_at_left: bool,
) -> KeyValuePtr<K, V> {
    let sibling = if at_left {
        g.rc()
    } else {
        g.lc()
    };
    if !sibling.spec_is_black() {
        KeyValuePtr::mk(
            Color::Red,
            g.lc().painted(Color::Black),
            g.spec_key(),
            g.spec_value(),
            g.rc().painted(Color::Black),
        )
    } else if at_left {
        let x = if !inserted_at_left {
            g.lc().rotated_left()
        } else {
            g.lc()
        };
        KeyValuePtr::mk(
            Color::Red,
            x.painted(Color::Black),
            g.spec_key(),
            g.spec_value(),
            g.rc(),
        ).rotated_right()
    } else {
        let x = if inserted_at_left {
            g.rc().rotated_right()
        } else {
            g.rc()
        };
        KeyValuePtr::mk(
            Color::Red,
            g.lc(),
            g.spec_key(),
            g.spec_value(),
            x.painted(Color::Black),
        ).rotated_left()
    }
}

/// Whether a subtree just grown by insertion has a red top with a red child.
pub open(crate) spec fn red_over_red<K: Key, V: Value>(x: KeyValuePtr<K, V>) -> bool {
    !x.spec_is_black() && (!x.lc().spec_is_black() || !x.rc().spec_is_black())
}

/// The subtree that insertion of `key` with `value` makes of `t`: the
/// search path down to a nil slot gains a red node, and on the way back up
/// each node whose new child is red over red is repaired; a key already
/// present only has its payload replaced.
pub open(crate) spec fn inserted_shape<K: Key, V: Value>(t: KeyValuePtr<K, V>, key: K, value: V) -> KeyValuePtr<K, V>
    decreases t,
{
    match t.node {
        None => KeyValuePtr::mk(Color::Red, KeyValuePtr { node: None }, key, value, KeyValuePtr { node: None }),
        Some(n) => if key.rank() == n.key.rank() {
            KeyValuePtr::mk(n.color, n.left, n.key, value, n.right)
        } else if n.key.rank() < key.rank() {
            let r = inserted_shape(n.right, key, value);
            let g = KeyValuePtr::mk(n.color, n.left, n.key, n.value, r);
            if !n.right.content().contains_key(key) && red_over_red(r) {
                insert_repaired(g, false, !r.lc().spec_is_black())
            } else {
                g
            }
        } else {
            let l = inserted_shape(n.left, key, value);
            let g = KeyValuePtr::mk(n.color, l, n.key, n.value, n.right);
            if !n.left.content().contains_key(key) && red_over_red(l) {
                insert_repaired(g, true, !l.lc().spec_is_black())
            } else {
                g
            }
        },
    }
}

/// The whole tree after inserting `key` with `value` into the tree rooted at
/// `t`: the inserted shape, with a red root painted black.
pub open(crate) spec fn inserted_root<K: Key, V: Value>(t: KeyValuePtr<K, V>, key: K, value: V) -> KeyValuePtr<K, V> {
    let r = inserted_shape(t, key, value);
    if !t.content().contains_key(key) && !r.spec_is_black() {
        r.painted(Color::Black)
    } else {
        r
    }
}

/// The subtree left when the top node of `t`, which has at most one child,
/// is unlinked, and whether it comes out one black node short: the child
/// takes its place, painted black when it is red under a removed black node.
pub open(crate) spec fn unlinked<K: Key, V: Value>(t: KeyValuePtr<K, V>) -> (KeyValuePtr<K, V>, bool) {
    let c = if !t.lc().spec_is_nil() {
        t.lc()
    } else {
        t.rc()
    };
    if t.color() == Color::Red {
        (c, false)
    } else if !c.spec_is_black() {
        (c.painted(Color::Black), false)
    } else {
        (c, true)
    }
}

/// The repair at `p` whose child on side `at_left` is one black node short
/// and whose other child (the sibling) is black. Where both nephews are
/// black, the sibling turns red and `p` black, and the shortage moves up
/// exactly when `p` was black. Otherwise a red near nephew is first rotated
/// to the far side (sibling red, nephew black); then the sibling takes the
/// color of `p`, `p` and the far nephew turn black, and `p` is rotated
/// toward the short side.
pub open(crate) spec fn black_sibling_repaired<K: Key, V: Value>(p: KeyValuePtr<K, V>, at_left: bool) -> (
    KeyValuePtr<K, V>,
    bool,
) {
    if at_left {
        let s = p.rc();
        if s.lc().spec_is_black() && s.rc().spec_is_black() {
            (
                KeyValuePtr::mk(Color::Black, p.lc(), p.spec_key(), p.spec_value(), s.painted(Color::Red)),
                p.color() == Color::Black,
            )
        } else {
            let s1 = if s.rc().spec_is_black() {
                KeyValuePtr::mk(
                    Color::Red,
                    s.lc().painted(Color::Black),
                    s.spec_key(),
                    s.spec_value(),
                    s.rc(),
                ).rotated_right()
            } else {
                s
            };
            let s2 = KeyValuePtr::mk(
                p.color(),
                s1.lc(),
                s1.spec_key(),
                s1.spec_value(),
                s1.rc().painted(Color::Black),
            );
            (KeyValuePtr::mk(Color::Black, p.lc(), p.spec_key(), p.spec_value(), s2).rotated_left(), false)
        }
    } else {
        let s = p.lc();
        if s.rc().spec_is_black() && s.lc().spec_is_black() {
            (
                KeyValuePtr::mk(Color::Black, s.painted(Color::Red), p.spec_key(), p.spec_value(), p.rc()),
                p.color() == Color::Black,
            )
        } else {
            let s1 = if s.lc().spec_is_black() {
                KeyValuePtr::mk(
                    Color::Red,
                    s.lc(),
                    s.spec_key(),
                    s.spec_value(),
                    s.rc().painted(Color::Black),
                ).rotated_left()
            } else {
                s
            };
            let s2 = KeyValuePtr::mk(
                p.color(),
                s1.lc().painted(Color::Black),
                s1.spec_key(),
                s1.spec_value(),
                s1.rc(),
            );
            (KeyValuePtr::mk(Color::Black, s2, p.spec_key(), p.spec_value(), p.rc()).rotated_right(), false)
        }
    }
}

/// The repair at `p` whose child on side `at_left` is one black node short:
/// a red sibling is first turned black, `p` red, and `p` rotated toward the
/// short side, after which `p` is repaired one level down against its new,
/// black sibling.
pub open(crate) spec fn delete_repaired<K: Key, V: Value>(p: KeyValuePtr<K, V>, at_left: bool) -> (
    KeyValuePtr<K, V>,
    bool,
) {
    let s = if at_left {
        p.rc()
    } else {
        p.lc()
    };
    if s.spec_is_black() {
        black_sibling_repaired(p, at_left)
    } else if at_left {
        let t = KeyValuePtr::mk(Color::Red, p.lc(), p.spec_key(), p.spec_value(), p.rc().painted(Color::Black)).rotated_left();
        let (l, need) = black_sibling_repaired(t.lc(), true);
        (KeyValuePtr::mk(t.color(), l, t.spec_key(), t.spec_value(), t.rc()), need)
    } else {
        let t = KeyValuePtr::mk(Color::Red, p.lc().painted(Color::Black), p.spec_key(), p.spec_value(), p.rc()).rotated_right();
        let (r, need) = black_sibling_repaired(t.rc(), false);
        (KeyValuePtr::mk(t.color(), t.lc(), t.spec_key(), t.spec_value(), r), need)
    }
}

/// The subtree after removing the leftmost node of `t`, whether it comes out
/// short, and the removed key and payload.
pub open(crate) spec fn leftmost_removed<K: Key, V: Value>(t: KeyValuePtr<K, V>) -> (KeyValuePtr<K, V>, bool, K, V)
    decreases t,
{
    match t.node {
        None => (t, false, arbitrary(), arbitrary()),
        Some(n) => if n.left.spec_is_nil() {
            let (c, need) = unlinked(t);
            (c, need, n.key, n.value)
        } else {
            let (l, need, k, v) = leftmost_removed(n.left);
            let p = KeyValuePtr::mk(n.color, l, n.key, n.value, n.right);
            if need {
                let (f, up) = delete_repaired(p, true);
                (f, up, k, v)
            } else {
                (p, false, k, v)
            }
        },
    }
}

/// The subtree that deletion of `key` makes of `t`, and whether it comes out
/// one black node short. A node with two children takes the key and payload
/// of its successor (the leftmost node of its right subtree), which is the
/// node unlinked; each node on the way back up repairs a short child.
pub open(crate) spec fn deleted_shape<K: Key, V: Value>(t: KeyValuePtr<K, V>, key: K) -> (KeyValuePtr<K, V>, bool)
    decreases t,
{
    match t.node {
        None => (t, false),
        Some(n) => if key.rank() == n.key.rank() {
            if !n.left.spec_is_nil() && !n.right.spec_is_nil() {
                let (r, need, k, v) = leftmost_removed(n.right);
                let p = KeyValuePtr::mk(n.color, n.left, k, v, r);
                if need {
                    delete_repaired(p, false)
                } else {
                    (p, false)
                }
            } else {
                unlinked(t)
            }
        } else if n.key.rank() < key.rank() {
            let (r, need) = deleted_shape(n.right, key);
            let p = KeyValuePtr::mk(n.color, n.left, n.key, n.value, r);
            if need {
                delete_repaired(p, false)
            } else {
                (p, false)
            }
        } else {
            let (l, need) = deleted_shape(n.left, key);
            let p = KeyValuePtr::mk(n.color, l, n.key, n.value, n.right);
            if need {
                delete_repaired(p, true)
            } else {
                (p, false)
            }
        },
    }
}

} // verus!
