use rustic::compare::{diff_nodes, merge_nodes, Change, ChangeKind};
use rustic::id::Id;
use rustic::tree::{
    decode_tree, encode_tree, find_node, insert_node, is_sorted, name_lt, same_bytes, Node,
    NodeKind, Snapshot,
};

fn node(name: &str, size: u64) -> Node {
    Node {
        name: name.as_bytes().to_vec(),
        kind: NodeKind::File,
        mode: 0o644,
        uid: 7,
        gid: 8,
        mtime: 9,
        size,
        content: vec![Id::of(name.as_bytes())],
        subtree: None,
        target: Vec::new(),
    }
}

fn names(nodes: &[Node]) -> Vec<String> {
    nodes.iter().map(|n| String::from_utf8(n.name.clone()).unwrap()).collect()
}

#[test]
fn names_are_ordered_as_byte_strings() {
    assert!(name_lt(b"", b"a"));
    assert!(!name_lt(b"a", b""));
    assert!(!name_lt(b"", b""));
    assert!(name_lt(b"a", b"b"));
    assert!(name_lt(b"a", b"aa"));
    assert!(name_lt(b"Z", b"a"));
    assert!(!name_lt(b"abc", b"abc"));
    assert!(name_lt(b"ab", b"b"));
    assert!(name_lt(&[0x7f], &[0x80]));
    assert!(same_bytes(b"abc", b"abc"));
    assert!(!same_bytes(b"abc", b"abd"));
    assert!(!same_bytes(b"abc", b"ab"));
}

#[test]
fn nodes_are_inserted_in_order() {
    let mut nodes = Vec::new();
    for name in ["m", "b", "z", "a", "n"] {
        insert_node(&mut nodes, node(name, 1));
        assert!(is_sorted(&nodes));
    }
    assert_eq!(names(&nodes), ["a", "b", "m", "n", "z"]);
    insert_node(&mut nodes, node("m", 2));
    assert_eq!(names(&nodes), ["a", "b", "m", "n", "z"]);
    assert_eq!(nodes[2].size, 2);
    assert_eq!(find_node(&nodes, b"n"), Some(3));
    assert_eq!(find_node(&nodes, b"o"), None);
}

#[test]
fn a_directory_has_one_listing() {
    let mut one = Vec::new();
    let mut other = Vec::new();
    for name in ["x", "a", "k"] {
        insert_node(&mut one, node(name, 1));
    }
    for name in ["k", "x", "a"] {
        insert_node(&mut other, node(name, 1));
    }
    assert_eq!(one, other);
    assert_eq!(encode_tree(&one), encode_tree(&other));
    assert_eq!(Id::of(&encode_tree(&one)), Id::of(&encode_tree(&other)));
}

#[test]
fn trees_round_trip_through_their_bytes() {
    let mut link = node("link", 0);
    link.kind = NodeKind::Symlink;
    link.target = b"../target".to_vec();
    link.content = Vec::new();
    let mut dir = node("dir", 0);
    dir.kind = NodeKind::Dir;
    dir.subtree = Some(Id::of(b"subtree"));
    dir.content = Vec::new();
    let mut big = node("big", u64::MAX);
    big.mode = u32::MAX;
    big.mtime = u64::MAX;
    big.content = (0u8..5).map(|i| Id::of(&[i])).collect();
    let nodes = vec![big, dir, link, node("", 0)];
    let bytes = encode_tree(&nodes);
    assert_eq!(decode_tree(&bytes), Some(nodes));
    assert_eq!(decode_tree(b""), Some(Vec::new()));
    assert_eq!(decode_tree(&bytes[..bytes.len() - 1]), None);
    assert_eq!(decode_tree(&[1, 0, 0, 0, 0, 0, 0, 0, 9]), None);
    let mut wrong = bytes.clone();
    wrong[8 + 8 + 3 + 8] = 3;
    assert_eq!(decode_tree(&wrong), None);
}

#[test]
fn snapshots_round_trip_through_their_bytes() {
    let s = Snapshot {
        time: 1_700_000_000,
        host: b"host".to_vec(),
        paths: vec![b"/a".to_vec(), b"/b c".to_vec()],
        tags: vec![Vec::new(), b"tag".to_vec()],
        parent: Some(Id::of(b"parent")),
        tree: Id::of(b"tree"),
    };
    let bytes = s.encode();
    assert_eq!(Snapshot::decode(&bytes), Some(s.clone()));
    let mut orphan = s;
    orphan.parent = None;
    assert_eq!(Snapshot::decode(&orphan.encode()), Some(orphan));
    assert_eq!(Snapshot::decode(&bytes[1..]), None);
    assert_eq!(Snapshot::decode(b""), None);
}

#[test]
fn listings_are_compared_by_name() {
    let old = vec![node("a", 1), node("b", 1), node("c", 1)];
    let new = vec![node("b", 1), node("c", 2), node("d", 1)];
    let changes = diff_nodes(&old, &new);
    assert_eq!(
        changes,
        vec![
            Change { name: b"c".to_vec(), kind: ChangeKind::Modified },
            Change { name: b"d".to_vec(), kind: ChangeKind::Added },
            Change { name: b"a".to_vec(), kind: ChangeKind::Removed },
        ]
    );
    assert!(diff_nodes(&old, &old).is_empty());
    assert_eq!(diff_nodes(&Vec::new(), &old).len(), 3);
    assert_eq!(diff_nodes(&old, &Vec::new()).len(), 3);
}

#[test]
fn listings_are_merged_with_the_later_one_on_top() {
    let under = vec![node("a", 1), node("c", 1), node("e", 1)];
    let over = vec![node("b", 2), node("c", 2)];
    let merged = merge_nodes(under.clone(), over.clone());
    assert!(is_sorted(&merged));
    assert_eq!(names(&merged), ["a", "b", "c", "e"]);
    assert_eq!(merged[2].size, 2);
    assert_eq!(merged[0].size, 1);
    assert_eq!(merge_nodes(under.clone(), Vec::new()), under);
    assert_eq!(merge_nodes(Vec::new(), over.clone()), over);
}

#[test]
fn nodes_are_the_same_in_every_field() {
    let a = node("a", 1);
    assert!(a.same(&a.clone()));
    let mut b = a.clone();
    b.mtime += 1;
    assert!(!a.same(&b));
    let mut c = a.clone();
    c.content.push(Id::zero());
    assert!(!a.same(&c));
    let mut d = a.clone();
    d.subtree = Some(Id::zero());
    assert!(!a.same(&d));
    let mut e = a.clone();
    e.target = b"t".to_vec();
    assert!(!a.same(&e));
    let mut f = a.clone();
    f.kind = NodeKind::Symlink;
    assert!(!a.same(&f));
}
