use rbtree::{KeyValue, KeyValuePtr, RBTree, ValidationError};

type KV32 = KeyValue<i32, i32>;
type Ptr32 = KeyValuePtr<i32, i32>;

fn nil() -> Ptr32 {
    Ptr32::nil()
}

fn node(key: i32, black: bool, left: Ptr32, right: Ptr32) -> Ptr32 {
    let mut n = KV32::new(key, key);
    if black {
        n.set_black();
    }
    n.set_left(left);
    n.set_right(right);
    Ptr32::new(n)
}

fn shape(p: &Ptr32, out: &mut String) {
    if p.is_nil() {
        out.push('.');
        return;
    }
    let n = p.node();
    out.push('(');
    shape(n.left(), out);
    out.push_str(&format!(" {}{}={} ", if n.is_black() { 'B' } else { 'R' }, n.key(), n.value()));
    shape(n.right(), out);
    out.push(')');
}

fn snapshot(tree: &RBTree<i32, i32>) -> String {
    let mut s = format!("{}:", tree.size());
    shape(tree.root(), &mut s);
    s
}

fn in_order(p: &Ptr32, out: &mut Vec<i32>) {
    if !p.is_nil() {
        in_order(p.node().left(), out);
        out.push(*p.node().key());
        in_order(p.node().right(), out);
    }
}

#[test]
fn insert_same_key_twice_keeps_size_and_second_payload() {
    let mut tree: RBTree<i32, i32> = RBTree::new();
    for k in [5, 3, 8] {
        tree.insert(&KV32::new(k, k));
    }
    assert!(!tree.insert(&KV32::new(3, 100)));
    assert_eq!(3, tree.size());
    assert!(!tree.insert(&KV32::new(3, 200)));
    assert_eq!(3, tree.size());
    assert_eq!(200, *tree.search(&3).unwrap().value());
    assert_eq!(3, *tree.search(&3).unwrap().key());
}

#[test]
fn insert_all_then_delete_all_in_another_order_empties_the_tree() {
    let keys: Vec<i32> = (0..200).map(|i| (i * 37) % 200).collect();
    let mut tree: RBTree<i32, i32> = RBTree::new();
    for k in keys.iter() {
        assert!(tree.insert(&KV32::new(*k, -*k)));
    }
    assert_eq!(200, tree.size());
    for k in (0..200).rev() {
        assert!(tree.delete(&k));
        assert_eq!(Ok(tree.validate().unwrap()), tree.validate());
    }
    assert_eq!(0, tree.size());
    assert!(tree.root().is_nil());
}

#[test]
fn delete_of_a_missing_key_changes_nothing() {
    let mut tree: RBTree<i32, i32> = RBTree::new();
    for k in [40, 20, 60, 10, 30, 50, 70, 25] {
        tree.insert(&KV32::new(k, k * 2));
    }
    let before = snapshot(&tree);
    assert!(!tree.delete(&35));
    assert!(!tree.delete(&0));
    assert!(!tree.delete(&99));
    assert_eq!(before, snapshot(&tree));
}

#[test]
fn rules_hold_after_every_operation() {
    let mut tree: RBTree<i32, i32> = RBTree::new();
    let mut x: i64 = 7;
    for _ in 0..2000 {
        x = (x * 1103515245 + 12345) % 2147483648;
        let k = (x % 300) as i32;
        if x % 3 == 0 {
            tree.delete(&k);
        } else {
            tree.insert(&KV32::new(k, k));
        }
        assert!(tree.validate().is_ok());
        assert!(tree.root().is_nil() || tree.root().is_black());
        let mut keys = Vec::new();
        in_order(tree.root(), &mut keys);
        assert!(keys.windows(2).all(|w| w[0] < w[1]));
        assert_eq!(keys.len(), tree.size());
    }
}

#[test]
fn empty_tree_finds_and_deletes_nothing() {
    let mut tree: RBTree<i32, i32> = RBTree::new();
    assert_eq!(0, tree.size());
    assert!(tree.search(&1).is_none());
    assert!(!tree.delete(&1));
    assert_eq!(Ok(1), tree.validate());
}

#[test]
fn validate_gives_black_height_plus_one() {
    let mut tree: RBTree<i32, i32> = RBTree::new();
    tree.insert(&KV32::new(64, 0));
    assert_eq!(Ok(2), tree.validate());
    for k in [32, 96, 16] {
        tree.insert(&KV32::new(k, 0));
    }
    assert_eq!(Ok(3), tree.validate());
}

#[test]
fn from_root_rejects_a_key_on_the_wrong_side_of_its_grandparent() {
    let root = node(
        64,
        true,
        node(32, true, nil(), node(70, false, nil(), nil())),
        node(96, true, nil(), nil()),
    );
    assert_eq!(Some(ValidationError::OutOfOrder), RBTree::from_root(root).err());
}

#[test]
fn from_root_counts_keys() {
    let root = node(64, true, node(32, false, nil(), nil()), node(96, false, nil(), nil()));
    let tree = RBTree::from_root(root).unwrap();
    assert_eq!(3, tree.size());
    assert_eq!(96, *tree.search(&96).unwrap().value());
}

#[test]
fn delete_of_a_node_with_two_children_moves_its_successor_up() {
    let mut tree: RBTree<i32, i32> = RBTree::new();
    for k in [50, 30, 70, 60, 80] {
        tree.insert(&KV32::new(k, k + 1));
    }
    assert!(tree.delete(&50));
    assert_eq!(60, *tree.root().node().key());
    assert_eq!(61, *tree.root().node().value());
    assert!(tree.search(&50).is_none());
    for k in [30, 60, 70, 80] {
        assert_eq!(k + 1, *tree.search(&k).unwrap().value());
    }
    assert!(tree.validate().is_ok());
}

#[test]
fn other_integer_keys() {
    let mut tree: RBTree<u64, &str> = RBTree::new();
    tree.insert(&KeyValue::new(u64::MAX, "max"));
    tree.insert(&KeyValue::new(0, "zero"));
    tree.insert(&KeyValue::new(7, "seven"));
    assert_eq!("max", *tree.search(&u64::MAX).unwrap().value());
    assert!(tree.delete(&0));
    assert!(tree.search(&0).is_none());
    let mut signed: RBTree<i64, u8> = RBTree::new();
    signed.insert(&KeyValue::new(-5, 1));
    signed.insert(&KeyValue::new(5, 2));
    assert_eq!(2, *signed.search(&5).unwrap().value());
}

#[test]
fn from_root_reports_the_first_rule_broken_in_validation_order() {
    let root = node(
        64,
        true,
        node(65, false, node(10, false, nil(), nil()), nil()),
        nil(),
    );
    assert_eq!(Some(ValidationError::LeftOrder(64, 65)), RBTree::from_root(root).err());
    let root = node(
        64,
        true,
        node(32, false, node(10, false, nil(), nil()), nil()),
        node(96, true, nil(), node(90, false, nil(), nil())),
    );
    assert_eq!(Some(ValidationError::RedRed(10)), RBTree::from_root(root).err());
}
