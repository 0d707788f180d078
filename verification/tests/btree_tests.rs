use btree::btree::{BTree, BTreeBuilder};
use btree::error::Error;
use btree::node::Node;
use btree::node_type::{Key, KeyValuePair, NodeType, Offset};
use btree::page::Page;
use btree::page_layout::PAGE_SIZE;
use btree::pager::Pager;
use btree::wal::Wal;

fn build_tree(b: usize) -> BTree {
    BTreeBuilder::new()
        .path("/tmp/db")
        .b_parameter(b)
        .build()
        .unwrap()
}

#[test]
fn search_works() -> Result<(), Error> {
    let mut btree = BTreeBuilder::new()
        .path("/tmp/db")
        .b_parameter(2)
        .build()?;
    btree.insert(KeyValuePair::new("a".to_string(), "shalom".to_string()))?;
    btree.insert(KeyValuePair::new("b".to_string(), "hello".to_string()))?;
    btree.insert(KeyValuePair::new("c".to_string(), "marhaba".to_string()))?;

    let mut kv = btree.search("b".to_string())?;
    assert_eq!(kv.key, "b");
    assert_eq!(kv.value, "hello");

    kv = btree.search("c".to_string())?;
    assert_eq!(kv.key, "c");
    assert_eq!(kv.value, "marhaba");

    Ok(())
}

#[test]
fn insert_works() -> Result<(), Error> {
    let mut btree = BTreeBuilder::new()
        .path("/tmp/db")
        .b_parameter(2)
        .build()?;
    btree.insert(KeyValuePair::new("a".to_string(), "shalom".to_string()))?;
    btree.insert(KeyValuePair::new("b".to_string(), "hello".to_string()))?;
    btree.insert(KeyValuePair::new("c".to_string(), "marhaba".to_string()))?;
    btree.insert(KeyValuePair::new("d".to_string(), "olah".to_string()))?;
    btree.insert(KeyValuePair::new("e".to_string(), "salam".to_string()))?;
    btree.insert(KeyValuePair::new("f".to_string(), "hallo".to_string()))?;
    btree.insert(KeyValuePair::new("g".to_string(), "Konnichiwa".to_string()))?;
    btree.insert(KeyValuePair::new("h".to_string(), "Ni hao".to_string()))?;
    btree.insert(KeyValuePair::new("i".to_string(), "Ciao".to_string()))?;

    let mut kv = btree.search("a".to_string())?;
    assert_eq!(kv.key, "a");
    assert_eq!(kv.value, "shalom");

    kv = btree.search("b".to_string())?;
    assert_eq!(kv.key, "b");
    assert_eq!(kv.value, "hello");

    kv = btree.search("c".to_string())?;
    assert_eq!(kv.key, "c");
    assert_eq!(kv.value, "marhaba");

    kv = btree.search("d".to_string())?;
    assert_eq!(kv.key, "d");
    assert_eq!(kv.value, "olah");

    kv = btree.search("e".to_string())?;
    assert_eq!(kv.key, "e");
    assert_eq!(kv.value, "salam");

    kv = btree.search("f".to_string())?;
    assert_eq!(kv.key, "f");
    assert_eq!(kv.value, "hallo");

    kv = btree.search("g".to_string())?;
    assert_eq!(kv.key, "g");
    assert_eq!(kv.value, "Konnichiwa");

    kv = btree.search("h".to_string())?;
    assert_eq!(kv.key, "h");
    assert_eq!(kv.value, "Ni hao");

    kv = btree.search("i".to_string())?;
    assert_eq!(kv.key, "i");
    assert_eq!(kv.value, "Ciao");
    Ok(())
}

#[test]
fn search_after_depth_grows() {
    let mut btree = build_tree(2);
    for (k, v) in [
        ("a", "1"),
        ("b", "2"),
        ("c", "3"),
        ("d", "4"),
        ("e", "5"),
        ("f", "6"),
        ("g", "7"),
        ("h", "8"),
        ("i", "9"),
    ] {
        btree.insert(KeyValuePair::new(k.to_string(), v.to_string())).unwrap();
    }
    assert_eq!(btree.search("z".to_string()).unwrap_err(), Error::KeyNotFound);
}

#[test]
fn search_below_all_keys_fails() {
    let mut btree = build_tree(2);
    btree.insert(KeyValuePair::new("m".to_string(), "1".to_string())).unwrap();
    btree.insert(KeyValuePair::new("n".to_string(), "2".to_string())).unwrap();
    assert_eq!(btree.search("a".to_string()).unwrap_err(), Error::KeyNotFound);
}

#[test]
fn search_on_empty_tree_fails() {
    let btree = build_tree(2);
    assert_eq!(btree.search("a".to_string()).unwrap_err(), Error::KeyNotFound);
}

#[test]
fn search_is_repeatable() {
    let mut btree = build_tree(2);
    btree.insert(KeyValuePair::new("a".to_string(), "x".to_string())).unwrap();
    let first = btree.search("a".to_string()).unwrap();
    let second = btree.search("a".to_string()).unwrap();
    assert_eq!(first.key, second.key);
    assert_eq!(first.value, second.value);
    assert_eq!(
        btree.search("q".to_string()).unwrap_err(),
        btree.search("q".to_string()).unwrap_err()
    );
}

#[test]
fn root_split_keeps_all_keys() {
    // with b = 2 the root is full at three pairs; the fourth insert splits it
    let mut btree = build_tree(2);
    for (k, v) in [("a", "1"), ("b", "2"), ("c", "3"), ("d", "4")] {
        btree.insert(KeyValuePair::new(k.to_string(), v.to_string())).unwrap();
    }
    for (k, v) in [("a", "1"), ("b", "2"), ("c", "3"), ("d", "4")] {
        let kv = btree.search(k.to_string()).unwrap();
        assert_eq!(kv.value, v);
    }
}

#[test]
fn ascending_inserts_stay_searchable() {
    // 2b * 2b distinct ascending keys with b = 2
    let mut btree = build_tree(2);
    let keys = [
        "ka", "kb", "kc", "kd", "ke", "kf", "kg", "kh", "ki", "kj", "kk", "kl", "km", "kn",
        "ko", "kp",
    ];
    for (i, k) in keys.iter().enumerate() {
        btree
            .insert(KeyValuePair::new(k.to_string(), format!("v{}", i)))
            .unwrap();
    }
    for (i, k) in keys.iter().enumerate() {
        let kv = btree.search(k.to_string()).unwrap();
        assert_eq!(kv.value, format!("v{}", i));
    }
}

#[test]
fn thousand_keys_round_trip() {
    let mut btree = build_tree(2);
    for i in 0..1000 {
        btree
            .insert(KeyValuePair::new(format!("k{}", i), format!("v{}", i)))
            .unwrap();
    }
    for i in 0..1000 {
        let kv = btree.search(format!("k{}", i)).unwrap();
        assert_eq!(kv.key, format!("k{}", i));
        assert_eq!(kv.value, format!("v{}", i));
    }
}

#[test]
fn build_with_empty_path_fails() {
    let r = BTreeBuilder::new().path("").b_parameter(2).build();
    assert!(matches!(r, Err(Error::UnexpectedError)));
}

#[test]
fn build_with_zero_b_fails() {
    let r = BTreeBuilder::new().path("/tmp/db").b_parameter(0).build();
    assert!(matches!(r, Err(Error::UnexpectedError)));
}

#[test]
fn encode_decode_internal_node() {
    let children = vec![Offset(PAGE_SIZE), Offset(2 * PAGE_SIZE), Offset(3 * PAGE_SIZE)];
    let keys = vec![Key("alpha".to_string()), Key("beta".to_string())];
    let node = Node::new(NodeType::Internal(children, keys), true, None);
    let page = node.encode().unwrap();
    let back = Node::decode(&page).unwrap();
    assert_eq!(back.is_root, true);
    assert!(back.parent_offset.is_none());
    match back.node_type {
        NodeType::Internal(children, keys) => {
            assert_eq!(
                children,
                vec![Offset(PAGE_SIZE), Offset(2 * PAGE_SIZE), Offset(3 * PAGE_SIZE)]
            );
            assert_eq!(keys.len(), 2);
            assert_eq!(keys[0].0, "alpha");
            assert_eq!(keys[1].0, "beta");
        },
        _ => panic!("expected an internal node"),
    }
}

#[test]
fn encode_decode_leaf_node() {
    let pairs = vec![
        KeyValuePair::new("k1".to_string(), "v1".to_string()),
        KeyValuePair::new("k2".to_string(), "v2".to_string()),
    ];
    let node = Node::new(NodeType::Leaf(pairs), false, Some(Offset(PAGE_SIZE)));
    let page = node.encode().unwrap();
    let back = Node::decode(&page).unwrap();
    assert_eq!(back.is_root, false);
    assert_eq!(back.parent_offset, Some(Offset(PAGE_SIZE)));
    match back.node_type {
        NodeType::Leaf(pairs) => {
            assert_eq!(pairs.len(), 2);
            assert_eq!(pairs[0].key, "k1");
            assert_eq!(pairs[0].value, "v1");
            assert_eq!(pairs[1].key, "k2");
            assert_eq!(pairs[1].value, "v2");
        },
        _ => panic!("expected a leaf node"),
    }
}

#[test]
fn encode_oversized_node_fails() {
    let big = "x".repeat(PAGE_SIZE);
    let pairs = vec![KeyValuePair::new(big.clone(), big)];
    let node = Node::new(NodeType::Leaf(pairs), true, None);
    assert_eq!(node.encode().unwrap_err(), Error::UnexpectedError);
}

#[test]
fn decode_oversized_payload_fails() {
    // a leaf page declaring one pair whose key length reaches past the page
    let mut raw = vec![0u8; PAGE_SIZE];
    raw[0] = 0x02;
    raw[1] = 1;
    raw[17] = 1; // one pair, big-endian count
    raw[18] = 0xff;
    raw[19] = 0xff;
    raw[20] = 0xff;
    raw[21] = 0xff; // declared key length far beyond PAGE_SIZE
    let page = Page::new(raw);
    assert_eq!(Node::decode(&page).unwrap_err(), Error::UnexpectedError);
}

#[test]
fn decode_unknown_tag_fails() {
    let mut raw = vec![0u8; PAGE_SIZE];
    raw[0] = 0x07;
    let page = Page::new(raw);
    assert_eq!(Node::decode(&page).unwrap_err(), Error::UnexpectedError);
}

#[test]
fn leaf_split_keeps_median_left() {
    let pairs = vec![
        KeyValuePair::new("a".to_string(), "1".to_string()),
        KeyValuePair::new("b".to_string(), "2".to_string()),
        KeyValuePair::new("c".to_string(), "3".to_string()),
    ];
    let mut node = Node::new(NodeType::Leaf(pairs), true, None);
    let (median, sibling) = node.split(2).unwrap();
    assert_eq!(median.0, "b");
    match node.node_type {
        NodeType::Leaf(left) => {
            assert_eq!(left.len(), 2);
            assert_eq!(left[1].key, "b");
        },
        _ => panic!("expected a leaf node"),
    }
    match sibling.node_type {
        NodeType::Leaf(right) => {
            assert_eq!(right.len(), 1);
            assert_eq!(right[0].key, "c");
        },
        _ => panic!("expected a leaf node"),
    }
}

#[test]
fn split_of_non_full_node_fails() {
    let pairs = vec![KeyValuePair::new("a".to_string(), "1".to_string())];
    let mut node = Node::new(NodeType::Leaf(pairs), true, None);
    assert_eq!(node.split(2).unwrap_err(), Error::UnexpectedError);
}

#[test]
fn pager_appends_at_page_boundaries() {
    let mut pager = Pager::new();
    let zeros = vec![0u8; PAGE_SIZE];
    let first = pager.write_page(Page::new(zeros.clone())).unwrap();
    let second = pager.write_page(Page::new(zeros)).unwrap();
    assert_eq!(first.0, 0);
    assert_eq!(second.0, PAGE_SIZE);
    assert!(pager.get_page(&Offset(0)).is_ok());
    assert_eq!(pager.get_page(&Offset(7)).unwrap_err(), Error::IoError);
    assert_eq!(
        pager.get_page(&Offset(2 * PAGE_SIZE)).unwrap_err(),
        Error::IoError
    );
}

#[test]
fn wal_reports_last_root() {
    let mut wal = Wal::new();
    assert_eq!(wal.get_root_offset().unwrap_err(), Error::UnexpectedError);
    wal.set_root(Offset(0)).unwrap();
    wal.set_root(Offset(PAGE_SIZE)).unwrap();
    assert_eq!(wal.get_root_offset().unwrap().0, PAGE_SIZE);
}
