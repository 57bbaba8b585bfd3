use std::cmp::Ordering;
use vstd::prelude::*;
use vstd::pervasive::cloned;

verus! {

/// A key type: totally ordered through an injective rank into the integers.
pub trait Key: Copy + Sized {
    /// The position of the key in the order.
    spec fn rank(&self) -> int;

    /// Two keys of the same rank are the same key.
    proof fn lemma_rank_injective(a: Self, b: Self)
        ensures
            a.rank() == b.rank() ==> a == b,
    ;

    /// Three-way comparison by rank.
    fn compare(&self, other: &Self) -> (r: Ordering)
        ensures
            (r == Ordering::Less) == (self.rank() < other.rank()),
            (r == Ordering::Equal) == (self.rank() == other.rank()),
            (r == Ordering::Greater) == (self.rank() > other.rank()),
    ;
}

impl Key for i32 {
    open spec fn rank(&self) -> int {
        *self as int
    }

    proof fn lemma_rank_injective(a: Self, b: Self) {
    }

    fn compare(&self, other: &Self) -> (r: Ordering) {
        if *self < *other {
            Ordering::Less
        } else if *self == *other {
            Ordering::Equal
        } else {
            Ordering::Greater
        }
    }
}

impl Key for i64 {
    open spec fn rank(&self) -> int {
        *self as int
    }

    proof fn lemma_rank_injective(a: Self, b: Self) {
    }

    fn compare(&self, other: &Self) -> (r: Ordering) {
        if *self < *other {
            Ordering::Less
        } else if *self == *other {
            Ordering::Equal
        } else {
            Ordering::Greater
        }
    }
}

impl Key for u32 {
    open spec fn rank(&self) -> int {
        *self as int
    }

    proof fn lemma_rank_injective(a: Self, b: Self) {
    }

    fn compare(&self, other: &Self) -> (r: Ordering) {
        if *self < *other {
            Ordering::Less
        } else if *self == *other {
            Ordering::Equal
        } else {
            Ordering::Greater
        }
    }
}

impl Key for u64 {
    open spec fn rank(&self) -> int {
        *self as int
    }

    proof fn lemma_rank_injective(a: Self, b: Self) {
    }

    fn compare(&self, other: &Self) -> (r: Ordering) {
        if *self < *other {
            Ordering::Less
        } else if *self == *other {
            Ordering::Equal
        } else {
            Ordering::Greater
        }
    }
}

impl Key for usize {
    open spec fn rank(&self) -> int {
        *self as int
    }

    proof fn lemma_rank_injective(a: Self, b: Self) {
    }

    fn compare(&self, other: &Self) -> (r: Ordering) {
        if *self < *other {
            Ordering::Less
        } else if *self == *other {
            Ordering::Equal
        } else {
            Ordering::Greater
        }
    }
}

/// A payload type: anything that can be cloned into a new node.
pub trait Value: Clone {
}

impl<T: Clone> Value for T {
}

#[derive(PartialEq, Eq, Structural, Clone, Copy, Debug)]
pub enum Color {
    Red,
    Black,
}

/// One node of the tree: a key, its payload, a color and two children.
pub struct KeyValue<K: Key, V: Value> {
    pub(crate) left: KeyValuePtr<K, V>,
    pub(crate) right: KeyValuePtr<K, V>,
    pub(crate) color: Color,
    pub(crate) key: K,
    pub(crate) value: V,
}

/// A child slot: either nil or the one node it owns.
pub struct KeyValuePtr<K: Key, V: Value> {
    pub(crate) node: Option<Box<KeyValue<K, V>>>,
}

impl<K: Key, V: Value> KeyValuePtr<K, V> {
    pub open(crate) spec fn holding(node: KeyValue<K, V>) -> Self {
        KeyValuePtr { node: Some(Box::new(node)) }
    }

    pub open(crate) spec fn spec_node(self) -> KeyValue<K, V> {
        *self.node->Some_0
    }

    pub open(crate) spec fn spec_is_nil(self) -> bool {
        self.node is None
    }

    /// A slot holding a fresh node built from the given parts.
    pub open(crate) spec fn mk(color: Color, left: Self, key: K, value: V, right: Self) -> Self {
        KeyValuePtr {
            node: Some(Box::new(KeyValue { left, right, color, key, value })),
        }
    }

    pub open(crate) spec fn lc(self) -> Self {
        self.node->Some_0.left
    }

    pub open(crate) spec fn rc(self) -> Self {
        self.node->Some_0.right
    }

    pub open(crate) spec fn color(self) -> Color {
        self.node->Some_0.color
    }

    pub open(crate) spec fn spec_key(self) -> K {
        self.node->Some_0.key
    }

    pub open(crate) spec fn spec_value(self) -> V {
        self.node->Some_0.value
    }

    /// The same node with another color.
    pub open(crate) spec fn painted(self, c: Color) -> Self {
        Self::mk(c, self.lc(), self.spec_key(), self.spec_value(), self.rc())
    }

    /// The node demoted to the left child of its right child.
    pub open(crate) spec fn rotated_left(self) -> Self {
        let r = self.rc();
        Self::mk(
            r.color(),
            Self::mk(self.color(), self.lc(), self.spec_key(), self.spec_value(), r.lc()),
            r.spec_key(),
            r.spec_value(),
            r.rc(),
        )
    }

    /// The node demoted to the right child of its left child.
    pub open(crate) spec fn rotated_right(self) -> Self {
        let l = self.lc();
        Self::mk(
            l.color(),
            l.lc(),
            l.spec_key(),
            l.spec_value(),
            Self::mk(self.color(), l.rc(), self.spec_key(), self.spec_value(), self.rc()),
        )
    }

    /// The key/payload pairs stored in this subtree.
    pub open(crate) spec fn content(self) -> Map<K, V>
        decreases self,
    {
        match self.node {
            None => Map::empty(),
            Some(n) => n.left.content().union_prefer_right(n.right.content()).insert(n.key, n.value),
        }
    }

    /// Every key of a left subtree ranks below its node's key, every key of
    /// a right subtree above it.
    pub open(crate) spec fn is_bst(self) -> bool
        decreases self,
    {
        match self.node {
            None => true,
            Some(n) => {
                &&& n.left.is_bst()
                &&& n.right.is_bst()
                &&& forall|k: K| #[trigger] n.left.content().contains_key(k) ==> k.rank() < n.key.rank()
                &&& forall|k: K| #[trigger] n.right.content().contains_key(k) ==> n.key.rank() < k.rank()
            },
        }
    }

    /// Nil counts as black.
    pub open(crate) spec fn spec_is_black(self) -> bool {
        match self.node {
            None => true,
            Some(n) => n.color == Color::Black,
        }
    }

    /// Black nodes on the leftmost path, the node itself included.
    pub open(crate) spec fn black_height(self) -> nat
        decreases self,
    {
        match self.node {
            None => 0,
            Some(n) => n.left.black_height() + if n.color == Color::Black {
                1nat
            } else {
                0nat
            },
        }
    }

    /// Both subtrees of every node have the same black height.
    pub open(crate) spec fn is_balanced(self) -> bool
        decreases self,
    {
        match self.node {
            None => true,
            Some(n) => {
                &&& n.left.is_balanced()
                &&& n.right.is_balanced()
                &&& n.left.black_height() == n.right.black_height()
            },
        }
    }

    /// No red node has a red child.
    pub open(crate) spec fn no_red_red(self) -> bool
        decreases self,
    {
        match self.node {
            None => true,
            Some(n) => {
                &&& n.left.no_red_red()
                &&& n.right.no_red_red()
                &&& n.color == Color::Red ==> n.left.spec_is_black() && n.right.spec_is_black()
            },
        }
    }

    /// No red-red edge below the top node (the top node itself may be red
    /// with a red child).
    pub open(crate) spec fn no_red_red_below(self) -> bool {
        match self.node {
            None => true,
            Some(n) => n.left.no_red_red() && n.right.no_red_red(),
        }
    }

    /// The keys met by an in-order walk.
    pub open(crate) spec fn in_order(self) -> Seq<K>
        decreases self,
    {
        match self.node {
            None => Seq::empty(),
            Some(n) => n.left.in_order() + seq![n.key] + n.right.in_order(),
        }
    }

    /// Ordered, balanced in black height, and free of red-red edges.
    pub open(crate) spec fn is_red_black(self) -> bool {
        self.is_bst() && self.is_balanced() && self.no_red_red()
    }
}

impl<K: Key, V: Value> KeyValue<K, V> {
    pub open(crate) spec fn spec_key(self) -> K {
        self.key
    }

    pub open(crate) spec fn spec_value(self) -> V {
        self.value
    }

    pub open(crate) spec fn spec_color(self) -> Color {
        self.color
    }

    pub open(crate) spec fn spec_left(self) -> KeyValuePtr<K, V> {
        self.left
    }

    pub open(crate) spec fn spec_right(self) -> KeyValuePtr<K, V> {
        self.right
    }

    pub open(crate) spec fn with_color(self, c: Color) -> Self {
        KeyValue { color: c, ..self }
    }

    pub open(crate) spec fn with_value(self, value: V) -> Self {
        KeyValue { value, ..self }
    }

    pub open(crate) spec fn with_left(self, child: KeyValuePtr<K, V>) -> Self {
        KeyValue { left: child, ..self }
    }

    pub open(crate) spec fn with_right(self, child: KeyValuePtr<K, V>) -> Self {
        KeyValue { right: child, ..self }
    }

    /// A detached red node holding `key` and `value`.
    pub fn new(key: K, value: V) -> (r: Self)
        ensures
            r.spec_key() == key,
            r.spec_value() == value,
            r.spec_color() == Color::Red,
            r.spec_left().spec_is_nil(),
            r.spec_right().spec_is_nil(),
    {
        KeyValue { left: KeyValuePtr::nil(), right: KeyValuePtr::nil(), color: Color::Red, key, value }
    }

    pub fn value(&self) -> (r: &V)
        ensures
            *r == self.spec_value(),
    {
        &self.value
    }

    pub fn key(&self) -> (r: &K)
        ensures
            *r == self.spec_key(),
    {
        &self.key
    }

    pub fn left(&self) -> (r: &KeyValuePtr<K, V>)
        ensures
            *r == self.spec_left(),
    {
        &self.left
    }

    pub fn right(&self) -> (r: &KeyValuePtr<K, V>)
        ensures
            *r == self.spec_right(),
    {
        &self.right
    }

    pub fn is_black(&self) -> (r: bool)
        ensures
            r == (self.spec_color() == Color::Black),
    {
        self.color == Color::Black
    }

    pub fn is_red(&self) -> (r: bool)
        ensures
            r == (self.spec_color() == Color::Red),
    {
        self.color == Color::Red
    }

    pub fn set_black(&mut self)
        ensures
            *final(self) == old(self).with_color(Color::Black),
    {
        self.color = Color::Black;
    }

    pub fn set_red(&mut self)
        ensures
            *final(self) == old(self).with_color(Color::Red),
    {
        self.color = Color::Red;
    }

    /// Overwrites the payload with a clone of `node`'s, keeping the key, the
    /// color and the children.
    pub fn update(&mut self, node: &KeyValue<K, V>)
        ensures
            *final(self) == old(self).with_value(final(self).spec_value()),
            cloned(node.spec_value(), final(self).spec_value()),
    {
        self.value = node.value.clone();
    }

    /// Attaches `child` as the left subtree, returning the one it replaces.
    pub fn set_left(&mut self, child: KeyValuePtr<K, V>) -> (r: KeyValuePtr<K, V>)
        ensures
            *final(self) == old(self).with_left(child),
            r == old(self).spec_left(),
    {
        let mut child = child;
        std::mem::swap(&mut self.left, &mut child);
        child
    }

    /// Attaches `child` as the right subtree, returning the one it replaces.
    pub fn set_right(&mut self, child: KeyValuePtr<K, V>) -> (r: KeyValuePtr<K, V>)
        ensures
            *final(self) == old(self).with_right(child),
            r == old(self).spec_right(),
    {
        let mut child = child;
        std::mem::swap(&mut self.right, &mut child);
        child
    }
}

impl<K: Key, V: Value> KeyValuePtr<K, V> {
    /// The empty slot.
    pub fn nil() -> (r: Self)
        ensures
            r.spec_is_nil(),
    {
        KeyValuePtr { node: None }
    }

    /// A slot owning `node`.
    pub fn new(node: KeyValue<K, V>) -> (r: Self)
        ensures
            r == Self::holding(node),
    {
        KeyValuePtr { node: Some(Box::new(node)) }
    }

    pub fn is_nil(&self) -> (r: bool)
        ensures
            r == self.spec_is_nil(),
    {
        self.node.is_none()
    }

    /// The node in a slot that is not nil.
    pub fn node(&self) -> (r: &KeyValue<K, V>)
        requires
            !self.spec_is_nil(),
        ensures
            *r == self.spec_node(),
    {
        self.node.as_ref().unwrap()
    }

    /// Nil counts as black.
    pub fn is_black(&self) -> (r: bool)
        ensures
            r == self.spec_is_black(),
    {
        match &self.node {
            None => true,
            Some(n) => n.color == Color::Black,
        }
    }

    pub fn is_red(&self) -> (r: bool)
        ensures
            r == !self.spec_is_black(),
    {
        !self.is_black()
    }

    /// Empties the slot, handing back what it held.
    pub(crate) fn take(&mut self) -> (r: Self)
        ensures
            r == *old(self),
            final(self).spec_is_nil(),
    {
        KeyValuePtr { node: self.node.take() }
    }

    /// Recolors the node in a slot that is not nil.
    pub(crate) fn paint(&mut self, c: Color)
        requires
            !old(self).spec_is_nil(),
        ensures
            *final(self) == old(self).painted(c),
    {
        let mut n = self.node.take().unwrap();
        n.color = c;
        self.node = Some(n);
    }
}

/// Keys that rank strictly upwards.
pub open spec fn strictly_ascending<K: Key>(s: Seq<K>) -> bool {
    forall|i: int, j: int| 0 <= i < j < s.len() ==> #[trigger] s[i].rank() < #[trigger] s[j].rank()
}

} // verus!
