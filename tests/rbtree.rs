use rbtree::{KeyValue, KeyValuePtr, RBTree, ValidationError};

type KV32 = KeyValue<i32, i32>;
type Ptr32 = KeyValuePtr<i32, i32>;

fn same(key: i32) -> KV32 {
    KV32::new(key, key)
}

fn nil() -> Ptr32 {
    Ptr32::nil()
}

/// A node of the given color over two subtrees.
fn node(key: i32, black: bool, left: Ptr32, right: Ptr32) -> Ptr32 {
    let mut n = same(key);
    if black {
        n.set_black();
    }
    n.set_left(left);
    n.set_right(right);
    Ptr32::new(n)
}

fn render_node(p: &Ptr32, colors: bool, out: &mut String) {
    let n = p.node();
    out.push('(');
    if !n.left().is_nil() {
        render_node(n.left(), colors, out);
        out.push(',');
    }
    if colors {
        out.push_str(if n.is_black() { "B:" } else { "R:" });
    }
    out.push_str(&n.key().to_string());
    if !n.right().is_nil() {
        out.push(',');
        render_node(n.right(), colors, out);
    }
    out.push(')');
}

fn render_with(tree: &RBTree<i32, i32>, colors: bool) -> String {
    if tree.root().is_nil() {
        return format!("RBTree{{size:{}}}", tree.size());
    }
    let mut s = String::new();
    render_node(tree.root(), colors, &mut s);
    format!("RBTree{{size:{},tree:{}}}", tree.size(), s)
}

fn render(tree: &RBTree<i32, i32>) -> String {
    render_with(tree, true)
}

fn validate(tree: &RBTree<i32, i32>) -> usize {
    tree.validate().unwrap()
}

#[test]
fn it_works() {
    let mut tree: RBTree<i32, i32> = RBTree::new();
    for i in &[64, 32, 96, 16, 48, 80, 112, 8, 24, 40] {
        tree.insert(&KV32::new(*i, 0));
    }
    assert_eq!(
        "RBTree{size:10,tree:((((8),16,(24)),32,((40),48)),64,((80),96,(112)))}",
        render_with(&tree, false)
    );
    assert!(matches!(tree.search(&88), None));
    assert!(matches!(tree.search(&80).unwrap().key(), 80))
}

// delete case 1: a key that is not there
#[test]
fn test_delete_1() {
    let mut tree: RBTree<i32, i32> = RBTree::new();
    tree.insert(&same(64));
    assert_eq!(false, tree.delete(&32));
    assert_eq!("RBTree{size:1,tree:(B:64)}", render(&tree));
}

// delete case 2: a red node
#[test]
fn test_delete_2() {
    let mut tree: RBTree<i32, i32> = RBTree::new();
    tree.insert(&same(64));
    tree.insert(&same(32));
    tree.insert(&same(96));
    assert_eq!("RBTree{size:3,tree:((R:32),B:64,(R:96))}", render(&tree));
    validate(&tree);
    assert_eq!(true, tree.delete(&32));
    validate(&tree);
    assert_eq!("RBTree{size:2,tree:(B:64,(R:96))}", render(&tree));
}

// delete case 3: a black node with a red child
#[test]
fn test_delete_3() {
    let root = node(64, true, node(32, true, nil(), node(48, false, nil(), nil())), node(96, true, nil(), nil()));
    let mut tree = RBTree::from_root(root).unwrap();
    assert_eq!("RBTree{size:4,tree:((B:32,(R:48)),B:64,(B:96))}", render(&tree));
    validate(&tree);
    assert_eq!(true, tree.delete(&32));
    assert_eq!("RBTree{size:3,tree:((B:48),B:64,(B:96))}", render(&tree));
    validate(&tree);
}

// delete case 4: the root, with no children
#[test]
fn test_delete_4() {
    let mut tree: RBTree<i32, i32> = RBTree::new();
    tree.insert(&same(64));
    assert_eq!("RBTree{size:1,tree:(B:64)}", render(&tree));
    validate(&tree);
    assert_eq!(true, tree.delete(&64));
    validate(&tree);
    assert_eq!("RBTree{size:0}", render(&tree));
}

// delete case 5: black replacement and parent, red sibling
#[test]
fn test_delete_5_left() {
    let root = node(
        64,
        true,
        node(32, true, nil(), nil()),
        node(96, false, node(80, true, nil(), nil()), node(112, true, nil(), nil())),
    );
    let mut tree = RBTree::from_root(root).unwrap();
    assert_eq!("RBTree{size:5,tree:((B:32),B:64,((B:80),R:96,(B:112)))}", render(&tree));
    validate(&tree);
    tree.delete(&32);
    assert_eq!("RBTree{size:4,tree:((B:64,(R:80)),B:96,(B:112))}", render(&tree));
    validate(&tree);
}

#[test]
fn test_delete_5_right() {
    let root = node(
        64,
        true,
        node(32, false, node(16, true, nil(), nil()), node(48, true, nil(), nil())),
        node(96, true, nil(), nil()),
    );
    let mut tree = RBTree::from_root(root).unwrap();
    assert_eq!("RBTree{size:5,tree:(((B:16),R:32,(B:48)),B:64,(B:96))}", render(&tree));
    validate(&tree);
    tree.delete(&96);
    assert_eq!("RBTree{size:4,tree:((B:16),B:32,((R:48),B:64))}", render(&tree));
    validate(&tree);
}

// delete case 6: black sibling with black children, red parent absent
#[test]
fn test_delete_6() {
    let root = node(64, true, node(32, true, nil(), nil()), node(96, true, nil(), nil()));
    let mut tree = RBTree::from_root(root).unwrap();
    assert_eq!("RBTree{size:3,tree:((B:32),B:64,(B:96))}", render(&tree));
    validate(&tree);
    tree.delete(&32);
    assert_eq!("RBTree{size:2,tree:(B:64,(R:96))}", render(&tree));
    validate(&tree);
}

// delete case 7: the shortage climbs to the root
#[test]
fn test_delete_7() {
    let root = node(
        64,
        true,
        node(32, true, node(16, true, nil(), nil()), node(48, true, nil(), nil())),
        node(96, true, node(80, true, nil(), nil()), node(112, true, nil(), nil())),
    );
    let mut tree = RBTree::from_root(root).unwrap();
    assert_eq!(
        "RBTree{size:7,tree:(((B:16),B:32,(B:48)),B:64,((B:80),B:96,(B:112)))}",
        render(&tree)
    );
    validate(&tree);
    tree.delete(&16);
    assert_eq!(
        "RBTree{size:6,tree:((B:32,(R:48)),B:64,((B:80),R:96,(B:112)))}",
        render(&tree)
    );
    validate(&tree);
}

// delete case 8: black sibling with a red far child
#[test]
fn test_delete_8_left() {
    let root = node(
        64,
        true,
        node(32, true, nil(), nil()),
        node(96, true, nil(), node(112, false, nil(), nil())),
    );
    let mut tree = RBTree::from_root(root).unwrap();
    assert_eq!("RBTree{size:4,tree:((B:32),B:64,(B:96,(R:112)))}", render(&tree));
    validate(&tree);
    tree.delete(&32);
    assert_eq!("RBTree{size:3,tree:((B:64),B:96,(B:112))}", render(&tree));
    validate(&tree);
}

#[test]
fn test_delete_8_right() {
    let root = node(
        64,
        true,
        node(32, true, node(16, false, nil(), nil()), nil()),
        node(96, true, nil(), nil()),
    );
    let mut tree = RBTree::from_root(root).unwrap();
    assert_eq!("RBTree{size:4,tree:(((R:16),B:32),B:64,(B:96))}", render(&tree));
    validate(&tree);
    tree.delete(&96);
    assert_eq!("RBTree{size:3,tree:((B:16),B:32,(B:64))}", render(&tree));
    validate(&tree);
}

// delete case 9: black sibling with a red near child
#[test]
fn test_delete_9_left() {
    let root = node(
        64,
        true,
        node(32, true, nil(), nil()),
        node(96, true, node(80, false, nil(), nil()), nil()),
    );
    let mut tree = RBTree::from_root(root).unwrap();
    assert_eq!("RBTree{size:4,tree:((B:32),B:64,((R:80),B:96))}", render(&tree));
    validate(&tree);
    tree.delete(&32);
    assert_eq!("RBTree{size:3,tree:((B:64),B:80,(B:96))}", render(&tree));
    validate(&tree);
}

#[test]
fn test_delete_9_right() {
    let root = node(
        64,
        true,
        node(32, true, nil(), node(48, false, nil(), nil())),
        node(96, true, nil(), nil()),
    );
    let mut tree = RBTree::from_root(root).unwrap();
    assert_eq!("RBTree{size:4,tree:((B:32,(R:48)),B:64,(B:96))}", render(&tree));
    validate(&tree);
    tree.delete(&96);
    assert_eq!("RBTree{size:3,tree:((B:32),B:48,(B:64))}", render(&tree));
    validate(&tree);
}

// insert case 1: empty tree
#[test]
fn test_insert_1() {
    let mut tree: RBTree<i32, i32> = RBTree::new();
    tree.insert(&same(64));
    validate(&tree);
    assert_eq!("RBTree{size:1,tree:(B:64)}", render(&tree));
}

// insert case 2: update existing nodes
#[test]
fn test_insert_2() {
    let mut tree: RBTree<i32, i32> = RBTree::new();
    tree.insert(&same(64));
    tree.insert(&same(32));
    tree.insert(&same(96));
    validate(&tree);
    assert_eq!("RBTree{size:3,tree:((R:32),B:64,(R:96))}", render(&tree));

    assert_eq!(64, *tree.search(&64).unwrap().value());
    assert_eq!(32, *tree.search(&32).unwrap().value());
    assert_eq!(96, *tree.search(&96).unwrap().value());

    tree.insert(&KV32::new(64, 0));
    tree.insert(&KV32::new(32, 0));
    tree.insert(&KV32::new(96, 0));
    assert_eq!("RBTree{size:3,tree:((R:32),B:64,(R:96))}", render(&tree));

    assert_eq!(0, *tree.search(&64).unwrap().value());
    assert_eq!(0, *tree.search(&32).unwrap().value());
    assert_eq!(0, *tree.search(&96).unwrap().value());
}

// insert case 3: black parent
#[test]
fn test_insert_3() {
    let mut tree: RBTree<i32, i32> = RBTree::new();
    tree.insert(&same(64));
    tree.insert(&same(32));
    validate(&tree);
    assert_eq!("RBTree{size:2,tree:((R:32),B:64)}", render(&tree));
}

// insert case 4: red parent and uncle
#[test]
fn test_insert_4() {
    let mut tree: RBTree<i32, i32> = RBTree::new();
    tree.insert(&same(64));
    tree.insert(&same(32));
    tree.insert(&same(96));
    tree.insert(&same(16));
    assert_eq!("RBTree{size:4,tree:(((R:16),B:32),B:64,(B:96))}", render(&tree));
    validate(&tree);
}

// insert case 5: red parent, black uncle, node and parent both left children
#[test]
fn test_insert_5() {
    let mut tree: RBTree<i32, i32> = RBTree::new();
    tree.insert(&same(64));
    tree.insert(&same(32));
    tree.insert(&same(16));
    assert_eq!("RBTree{size:3,tree:((R:16),B:32,(R:64))}", render(&tree));
    validate(&tree);
}

// insert case 6: red parent, black uncle, node a right child of a left child
#[test]
fn test_insert_6() {
    let mut index: RBTree<i32, i32> = RBTree::new();
    index.insert(&same(64));
    index.insert(&same(32));
    index.insert(&same(48));
    assert_eq!("RBTree{size:3,tree:((R:32),B:48,(R:64))}", render(&index));
    validate(&index);
}

// insert case 7: red parent, black uncle, node and parent both right children
#[test]
fn test_insert_7() {
    let mut index: RBTree<i32, i32> = RBTree::new();
    index.insert(&same(64));
    index.insert(&same(96));
    index.insert(&same(112));
    assert_eq!("RBTree{size:3,tree:((R:64),B:96,(R:112))}", render(&index));
    validate(&index);
}

// insert case 8: red parent, black uncle, node a left child of a right child
#[test]
fn test_insert_8() {
    let mut index: RBTree<i32, i32> = RBTree::new();
    index.insert(&same(64));
    index.insert(&same(96));
    index.insert(&same(80));
    assert_eq!("RBTree{size:3,tree:((R:64),B:80,(R:96))}", render(&index));
    validate(&index);
}

/// A small xorshift generator, enough to shuffle keys reproducibly.
struct Shuffler(u64);

impl Shuffler {
    fn next(&mut self) -> u64 {
        let mut x = self.0;
        x ^= x << 13;
        x ^= x >> 7;
        x ^= x << 17;
        self.0 = x;
        x
    }

    fn shuffle(&mut self, keys: &mut Vec<i32>) {
        for i in (1..keys.len()).rev() {
            let j = (self.next() % (i as u64 + 1)) as usize;
            keys.swap(i, j);
        }
    }
}

#[test]
fn test_random_operation() {
    let mut rng = Shuffler(0x2545_f491_4f6c_dd1d);
    let mut index: RBTree<i32, i32> = RBTree::new();
    let max_key = 1023;

    let mut keys: Vec<i32> = (0..max_key).collect();

    for _ in 0..10 {
        rng.shuffle(&mut keys);
        for k in keys.iter() {
            assert!(index.insert(&same(*k)));
            validate(&index);
        }

        rng.shuffle(&mut keys);
        for k in keys.iter() {
            assert_eq!(k, index.search(k).unwrap().value());
        }

        rng.shuffle(&mut keys);
        for k in keys.iter() {
            assert!(index.delete(&k));
            validate(&index);
        }
    }
    assert_eq!(0, index.size());
}

#[test]
fn test_validate_1() {
    let root = node(64, false, nil(), nil());
    assert_eq!(Some(ValidationError::RootRed), RBTree::from_root(root).err());
}

#[test]
fn test_validate_2() {
    let root = node(64, true, node(32, false, node(16, false, nil(), nil()), nil()), nil());
    assert_eq!(Some(ValidationError::RedRed(16)), RBTree::from_root(root).err());
}

#[test]
fn test_validate_3() {
    let root = node(64, true, node(65, false, nil(), nil()), nil());
    assert_eq!(Some(ValidationError::LeftOrder(64, 65)), RBTree::from_root(root).err());
}

#[test]
fn test_validate_4() {
    let root = node(64, true, node(66, false, nil(), nil()), nil());
    assert_eq!(Some(ValidationError::LeftOrder(64, 66)), RBTree::from_root(root).err());
}

#[test]
fn test_validate_5() {
    let root = node(64, true, nil(), node(64, false, nil(), nil()));
    assert_eq!(Some(ValidationError::RightOrder(64, 64)), RBTree::from_root(root).err());
}

#[test]
fn test_validate_6() {
    let root = node(64, true, nil(), node(63, false, nil(), nil()));
    assert_eq!(Some(ValidationError::RightOrder(64, 63)), RBTree::from_root(root).err());
}

#[test]
fn test_validate_7() {
    let root = node(
        64,
        true,
        node(32, false, node(16, true, nil(), nil()), nil()),
        node(96, false, nil(), nil()),
    );
    assert_eq!(Some(ValidationError::BlackDepth(32)), RBTree::from_root(root).err());
}
