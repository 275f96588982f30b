//! Trees and snapshots, and how they are written.
//!
//! A tree is the listing of one directory: its nodes, sorted by name. A
//! snapshot names the root tree of one backup run. Both are written as
//! lists of fields, so that equal values always give equal bytes.

use crate::codec::{
    fields_bytes, fields_fit, get_u64, ids_bytes, lemma_fields_round_trip, lemma_id_at_concat,
    lemma_ids_len, lemma_ids_round_trip, lemma_u64_at_concat, parse_each, parse_fields,
    parse_ids, put_u64, read_fields, read_ids, u64_at, u64_bytes, write_fields, write_ids,
};
use crate::crypto::append;
use crate::id::{Id, id_at};
use vstd::prelude::*;

verus! {

/// Bytes of the fixed part of a node.
pub const NODE_FIXED: usize = 74;

/// Bytes of the fixed part of a snapshot.
pub const SNAPSHOT_FIXED: usize = 73;

/// What a node stands for.
#[derive(Clone, Copy, Debug, PartialEq, Eq, Structural, Hash)]
pub enum NodeKind {
    File,
    Dir,
    Symlink,
}

impl NodeKind {
    /// The byte that stands for the kind.
    pub open spec fn tag(self) -> u8 {
        match self {
            NodeKind::File => 0,
            NodeKind::Dir => 1,
            NodeKind::Symlink => 2,
        }
    }

    /// The kind that a byte stands for.
    pub open spec fn of_tag(tag: u8) -> NodeKind {
        if tag == 0 {
            NodeKind::File
        } else if tag == 1 {
            NodeKind::Dir
        } else {
            NodeKind::Symlink
        }
    }

    /// The byte that stands for the kind.
    pub fn to_tag(self) -> (t: u8)
        ensures
            t == self.tag(),
    {
        match self {
            NodeKind::File => 0,
            NodeKind::Dir => 1,
            NodeKind::Symlink => 2,
        }
    }

    /// The kind that a byte stands for, where the byte is 0, 1 or 2.
    pub fn from_tag(tag: u8) -> (r: Option<NodeKind>)
        ensures
            r == (if tag <= 2 {
                Some(Self::of_tag(tag))
            } else {
                None
            }),
    {
        if tag == 0 {
            Some(NodeKind::File)
        } else if tag == 1 {
            Some(NodeKind::Dir)
        } else if tag == 2 {
            Some(NodeKind::Symlink)
        } else {
            None
        }
    }
}

/// One entry of a directory.
#[derive(Clone, Debug, PartialEq, Eq)]
pub struct Node {
    pub name: Vec<u8>,
    pub kind: NodeKind,
    pub mode: u32,
    pub uid: u32,
    pub gid: u32,
    /// Seconds since the epoch at which the entry was last modified.
    pub mtime: u64,
    pub size: u64,
    /// The data blobs of a file's content, in order.
    pub content: Vec<Id>,
    /// The tree of a directory.
    pub subtree: Option<Id>,
    /// Where a symlink points.
    pub target: Vec<u8>,
}

/// A node as a mathematical value.
pub struct NodeView {
    pub name: Seq<u8>,
    pub kind: NodeKind,
    pub mode: u32,
    pub uid: u32,
    pub gid: u32,
    pub mtime: u64,
    pub size: u64,
    pub content: Seq<Id>,
    pub subtree: Option<Id>,
    pub target: Seq<u8>,
}

impl View for Node {
    type V = NodeView;

    open spec fn view(&self) -> NodeView {
        NodeView {
            name: self.name@,
            kind: self.kind,
            mode: self.mode,
            uid: self.uid,
            gid: self.gid,
            mtime: self.mtime,
            size: self.size,
            content: self.content@,
            subtree: self.subtree,
            target: self.target@,
        }
    }
}

/// 32 zero bytes.
pub open spec fn zeros32() -> Seq<u8> {
    Seq::new(32, |i: int| 0u8)
}

/// An optional address: a flag, then the address or zeros.
pub open spec fn option_id_bytes(id: Option<Id>) -> Seq<u8> {
    match id {
        Some(i) => seq![1u8] + i@,
        None => seq![0u8] + zeros32(),
    }
}

/// The optional address whose 33 bytes start at `at`.
pub open spec fn option_id_at(b: Seq<u8>, at: int) -> Option<Id> {
    if b[at] == 0 {
        None
    } else {
        Some(id_at(b, at + 1))
    }
}

proof fn lemma_option_id_at_concat(pre: Seq<u8>, id: Option<Id>, post: Seq<u8>)
    ensures
        option_id_bytes(id).len() == 33,
        (pre + option_id_bytes(id) + post)[pre.len() as int] <= 1,
        option_id_at(pre + option_id_bytes(id) + post, pre.len() as int) == id,
{
    let all = pre + option_id_bytes(id) + post;
    match id {
        Some(i) => {
            assert(i@.len() == 32);
            assert(all =~= (pre + seq![1u8]) + i@ + post);
            lemma_id_at_concat(pre + seq![1u8], i, post);
            assert(all[pre.len() as int] == 1u8);
        },
        None => {
            assert(all[pre.len() as int] == 0u8);
        },
    }
}

fn put_option_id(out: &mut Vec<u8>, id: &Option<Id>)
    ensures
        final(out)@ == old(out)@ + option_id_bytes(*id),
{
    match id {
        Some(i) => {
            out.push(1u8);
            i.write(out);
            assert(out@ =~= old(out)@ + option_id_bytes(*id));
        },
        None => {
            out.push(0u8);
            let z = Id::zero();
            z.write(out);
            assert(out@ =~= old(out)@ + option_id_bytes(*id));
        },
    }
}

fn get_option_id(b: &[u8], at: usize) -> (r: Option<Id>)
    requires
        at + 33 <= b.len(),
    ensures
        r == option_id_at(b@, at as int),
{
    if b[at] == 0 {
        None
    } else {
        Some(Id::read(b, at + 1))
    }
}

/// The fixed part of a node: kind, mode, owner, group, time, size and
/// subtree.
pub open spec fn node_fixed_bytes(n: NodeView) -> Seq<u8> {
    seq![n.kind.tag()] + u64_bytes(n.mode as u64) + u64_bytes(n.uid as u64) + u64_bytes(
        n.gid as u64,
    ) + u64_bytes(n.mtime) + u64_bytes(n.size) + option_id_bytes(n.subtree)
}

/// The bytes of a node: name, fixed part, content and target as fields.
pub open spec fn node_bytes(n: NodeView) -> Seq<u8> {
    fields_bytes(seq![n.name, node_fixed_bytes(n), ids_bytes(n.content), n.target])
}

/// Whether four fields are those of a node.
pub open spec fn node_fields_ok(fs: Seq<Seq<u8>>) -> bool {
    &&& fs.len() == 4
    &&& fs[1].len() == NODE_FIXED
    &&& fs[1][0] <= 2
    &&& u64_at(fs[1], 1) <= u32::MAX
    &&& u64_at(fs[1], 9) <= u32::MAX
    &&& u64_at(fs[1], 17) <= u32::MAX
    &&& fs[1][41] <= 1
    &&& fs[2].len() % 32 == 0
}

/// The node that bytes stand for, or `None` where they are malformed.
pub open spec fn parse_node(b: Seq<u8>) -> Option<NodeView> {
    match parse_fields(b) {
        None => None,
        Some(fs) => if node_fields_ok(fs) {
            Some(
                NodeView {
                    name: fs[0],
                    kind: NodeKind::of_tag(fs[1][0]),
                    mode: u64_at(fs[1], 1) as u32,
                    uid: u64_at(fs[1], 9) as u32,
                    gid: u64_at(fs[1], 17) as u32,
                    mtime: u64_at(fs[1], 25),
                    size: u64_at(fs[1], 33),
                    content: parse_ids(fs[2]).unwrap(),
                    subtree: option_id_at(fs[1], 41),
                    target: fs[3],
                },
            )
        } else {
            None
        },
    }
}

/// A node whose variable parts are short enough to be written.
pub open spec fn node_fits(n: NodeView) -> bool {
    &&& n.name.len() <= u64::MAX
    &&& n.target.len() <= u64::MAX
    &&& 32 * n.content.len() <= u64::MAX
}

proof fn lemma_node_fixed(n: NodeView)
    ensures
        node_fixed_bytes(n).len() == NODE_FIXED,
        node_fixed_bytes(n)[0] == n.kind.tag(),
        u64_at(node_fixed_bytes(n), 1) == n.mode as u64,
        u64_at(node_fixed_bytes(n), 9) == n.uid as u64,
        u64_at(node_fixed_bytes(n), 17) == n.gid as u64,
        u64_at(node_fixed_bytes(n), 25) == n.mtime,
        u64_at(node_fixed_bytes(n), 33) == n.size,
        node_fixed_bytes(n)[41] <= 1,
        option_id_at(node_fixed_bytes(n), 41) == n.subtree,
{
    let k = seq![n.kind.tag()];
    let a = u64_bytes(n.mode as u64);
    let b = u64_bytes(n.uid as u64);
    let c = u64_bytes(n.gid as u64);
    let d = u64_bytes(n.mtime);
    let e = u64_bytes(n.size);
    let f = option_id_bytes(n.subtree);
    let all = node_fixed_bytes(n);
    lemma_u64_at_concat(k, n.mode as u64, b + c + d + e + f);
    assert(all =~= k + a + (b + c + d + e + f));
    lemma_u64_at_concat(k + a, n.uid as u64, c + d + e + f);
    assert(all =~= (k + a) + b + (c + d + e + f));
    lemma_u64_at_concat(k + a + b, n.gid as u64, d + e + f);
    assert(all =~= (k + a + b) + c + (d + e + f));
    lemma_u64_at_concat(k + a + b + c, n.mtime, e + f);
    assert(all =~= (k + a + b + c) + d + (e + f));
    lemma_u64_at_concat(k + a + b + c + d, n.size, f);
    assert(all =~= (k + a + b + c + d) + e + f);
    lemma_option_id_at_concat(k + a + b + c + d + e, n.subtree, Seq::empty());
    assert(all =~= (k + a + b + c + d + e) + f + Seq::<u8>::empty());
}

/// Parsing a written node gives the node back.
pub proof fn lemma_node_round_trip(n: NodeView)
    requires
        node_fits(n),
    ensures
        parse_node(node_bytes(n)) == Some(n),
{
    let fs = seq![n.name, node_fixed_bytes(n), ids_bytes(n.content), n.target];
    lemma_node_fixed(n);
    lemma_ids_round_trip(n.content);
    assert(fields_fit(fs));
    lemma_fields_round_trip(fs);
    assert(fs[0] == n.name);
    assert(fs[1] == node_fixed_bytes(n));
    assert(fs[2] == ids_bytes(n.content));
    assert(fs[3] == n.target);
}

impl Node {
    /// Writes the node.
    pub fn encode(&self) -> (out: Vec<u8>)
        ensures
            out@ == node_bytes(self@),
            node_fits(self@),
            parse_node(out@) == Some(self@),
    {
        let mut fixed: Vec<u8> = Vec::new();
        fixed.push(self.kind.to_tag());
        put_u64(&mut fixed, self.mode as u64);
        put_u64(&mut fixed, self.uid as u64);
        put_u64(&mut fixed, self.gid as u64);
        put_u64(&mut fixed, self.mtime);
        put_u64(&mut fixed, self.size);
        put_option_id(&mut fixed, &self.subtree);
        assert(fixed@ =~= node_fixed_bytes(self@));
        let mut name: Vec<u8> = Vec::new();
        append(&mut name, self.name.as_slice());
        let mut target: Vec<u8> = Vec::new();
        append(&mut target, self.target.as_slice());
        assert(name@ =~= self.name@);
        assert(target@ =~= self.target@);
        let mut fields: Vec<Vec<u8>> = Vec::new();
        let ids = write_ids(&self.content);
        proof {
            lemma_ids_len(self.content@);
            assert(ids@.len() == ids.len());
            assert(self.name@.len() == self.name.len());
            assert(self.target@.len() == self.target.len());
            lemma_node_round_trip(self@);
        }
        fields.push(name);
        fields.push(fixed);
        fields.push(ids);
        fields.push(target);
        assert(fields@.map_values(|f: Vec<u8>| f@) =~= seq![
            self@.name,
            node_fixed_bytes(self@),
            ids_bytes(self@.content),
            self@.target,
        ]);
        write_fields(&fields)
    }

    /// Reads a node.
    pub fn decode(b: &[u8]) -> (r: Option<Node>)
        ensures
            match r {
                Some(n) => parse_node(b@) == Some(n@),
                None => parse_node(b@) is None,
            },
    {
        let mut fields = match read_fields(b) {
            Some(f) => f,
            None => {
                return None;
            },
        };
        let ghost fs = fields@.map_values(|f: Vec<u8>| f@);
        if fields.len() != 4 {
            return None;
        }
        assert(fs[0] == fields@[0]@ && fs[1] == fields@[1]@ && fs[2] == fields@[2]@ && fs[3]
            == fields@[3]@);
        if fields[1].len() != NODE_FIXED {
            return None;
        }
        let fixed = fields[1].as_slice();
        let kind = match NodeKind::from_tag(fixed[0]) {
            Some(k) => k,
            None => {
                return None;
            },
        };
        let mode = get_u64(fixed, 1);
        let uid = get_u64(fixed, 9);
        let gid = get_u64(fixed, 17);
        if mode > u32::MAX as u64 || uid > u32::MAX as u64 || gid > u32::MAX as u64 {
            return None;
        }
        let mtime = get_u64(fixed, 25);
        let size = get_u64(fixed, 33);
        if fixed[41] > 1 {
            return None;
        }
        let subtree = get_option_id(fixed, 41);
        let content = match read_ids(fields[2].as_slice()) {
            Some(c) => c,
            None => {
                return None;
            },
        };
        let target = fields.pop().unwrap();
        let _ = fields.pop();
        let _ = fields.pop();
        let name = fields.pop().unwrap();
        Some(
            Node {
                name,
                kind,
                mode: mode as u32,
                uid: uid as u32,
                gid: gid as u32,
                mtime,
                size,
                content,
                subtree,
                target,
            },
        )
    }
}

/// The views of the nodes of a vector.
pub open spec fn node_views(nodes: Seq<Node>) -> Seq<NodeView> {
    nodes.map_values(|n: Node| n@)
}

/// The bytes of a tree: its nodes as fields, in order.
pub open spec fn tree_bytes(nodes: Seq<NodeView>) -> Seq<u8> {
    fields_bytes(nodes.map_values(|n: NodeView| node_bytes(n)))
}

/// The nodes of the tree that bytes stand for, or `None` where they are
/// malformed.
pub open spec fn parse_tree(b: Seq<u8>) -> Option<Seq<NodeView>> {
    match parse_fields(b) {
        None => None,
        Some(fs) => parse_each(fs, |f: Seq<u8>| parse_node(f)),
    }
}

/// Parsing a written tree gives its nodes back.
pub proof fn lemma_tree_round_trip(nodes: Seq<NodeView>)
    requires
        forall|i: int| 0 <= i < nodes.len() ==> node_fits(#[trigger] nodes[i]),
        forall|i: int| 0 <= i < nodes.len() ==> node_bytes(#[trigger] nodes[i]).len() <= u64::MAX,
    ensures
        parse_tree(tree_bytes(nodes)) == Some(nodes),
{
    let fs = nodes.map_values(|n: NodeView| node_bytes(n));
    assert(fields_fit(fs)) by {
        assert forall|i: int| 0 <= i < fs.len() implies (#[trigger] fs[i]).len() <= u64::MAX by {
            assert(fs[i] == node_bytes(nodes[i]));
        }
    }
    lemma_fields_round_trip(fs);
    let parse = |f: Seq<u8>| parse_node(f);
    assert forall|i: int| 0 <= i < fs.len() implies (#[trigger] parse(fs[i])) == Some(
        nodes[i],
    ) by {
        lemma_node_round_trip(nodes[i]);
    }
    assert(parse_each(fs, parse).unwrap() =~= nodes);
}

/// Writes a tree.
pub fn encode_tree(nodes: &Vec<Node>) -> (out: Vec<u8>)
    ensures
        out@ == tree_bytes(node_views(nodes@)),
        parse_tree(out@) == Some(node_views(nodes@)),
{
    let mut fields: Vec<Vec<u8>> = Vec::new();
    let mut i: usize = 0;
    while i < nodes.len()
        invariant
            i <= nodes@.len(),
            fields@.len() == i,
            forall|j: int| 0 <= j < i ==> (#[trigger] fields@[j])@ == node_bytes(nodes@[j]@),
            forall|j: int| 0 <= j < i ==> node_fits(#[trigger] nodes@[j]@),
        decreases nodes@.len() - i,
    {
        fields.push(nodes[i].encode());
        i += 1;
    }
    assert(fields@.map_values(|f: Vec<u8>| f@) =~= node_views(nodes@).map_values(
        |n: NodeView| node_bytes(n),
    ));
    proof {
        let views = node_views(nodes@);
        assert forall|j: int| 0 <= j < views.len() implies node_fits(#[trigger] views[j])
            && node_bytes(views[j]).len() <= u64::MAX by {
            assert(views[j] == nodes@[j]@);
            assert(fields@[j]@ == node_bytes(nodes@[j]@));
            assert(fields@[j]@.len() == fields@[j].len());
        }
        lemma_tree_round_trip(views);
    }
    write_fields(&fields)
}

/// Reads a tree.
pub fn decode_tree(b: &[u8]) -> (r: Option<Vec<Node>>)
    ensures
        match r {
            Some(nodes) => parse_tree(b@) == Some(node_views(nodes@)),
            None => parse_tree(b@) is None,
        },
{
    let fields = match read_fields(b) {
        Some(f) => f,
        None => {
            return None;
        },
    };
    let ghost fs = fields@.map_values(|f: Vec<u8>| f@);
    let ghost parse = |f: Seq<u8>| parse_node(f);
    let mut nodes: Vec<Node> = Vec::new();
    let mut i: usize = 0;
    while i < fields.len()
        invariant
            i <= fields@.len(),
            fs == fields@.map_values(|f: Vec<u8>| f@),
            parse_fields(b@) == Some(fs),
            parse == |f: Seq<u8>| parse_node(f),
            nodes@.len() == i,
            forall|j: int| 0 <= j < i ==> parse(fs[j]) == Some((#[trigger] nodes@[j])@),
        decreases fields@.len() - i,
    {
        match Node::decode(fields[i].as_slice()) {
            Some(n) => {
                assert(parse(fs[i as int]) == Some(n@));
                nodes.push(n);
            },
            None => {
                assert(parse(fs[i as int]) is None);
                return None;
            },
        }
        i += 1;
    }
    assert forall|j: int| 0 <= j < fs.len() implies (#[trigger] parse(fs[j])) is Some by {
        assert(parse(fs[j]) == Some(nodes@[j]@));
    }
    assert(parse_each(fs, parse).unwrap() =~= node_views(nodes@));
    Some(nodes)
}

/// Every address that a node names: its content and its subtree.
pub open spec fn node_names(n: NodeView, id: Id) -> bool {
    n.content.contains(id) || n.subtree == Some(id)
}

/// The addresses that the nodes of a tree name.
pub open spec fn nodes_refs(nodes: Seq<NodeView>) -> Set<Id> {
    Set::new(|id: Id| exists|i: int| 0 <= i < nodes.len() && node_names(#[trigger] nodes[i], id))
}

/// The addresses that a tree blob names, where it can be read as a tree.
pub open spec fn tree_refs(content: Seq<u8>) -> Option<Set<Id>> {
    match parse_tree(content) {
        Some(nodes) => Some(nodes_refs(nodes)),
        None => None,
    }
}

/// Whether `a` comes before `b` in the order of byte strings.
pub open spec fn lex_lt(a: Seq<u8>, b: Seq<u8>) -> bool
    decreases a.len(),
{
    if b.len() == 0 {
        false
    } else if a.len() == 0 {
        true
    } else if a[0] != b[0] {
        a[0] < b[0]
    } else {
        lex_lt(a.skip(1), b.skip(1))
    }
}

/// Whether `a` comes before `b` in the order of byte strings.
pub fn name_lt(a: &[u8], b: &[u8]) -> (r: bool)
    ensures
        r == lex_lt(a@, b@),
{
    let mut i: usize = 0;
    assert(a@.skip(0) =~= a@);
    assert(b@.skip(0) =~= b@);
    loop
        invariant
            i <= a@.len(),
            i <= b@.len(),
            lex_lt(a@, b@) == lex_lt(a@.skip(i as int), b@.skip(i as int)),
        decreases a@.len() - i,
    {
        if i >= b.len() {
            return false;
        }
        if i >= a.len() {
            return true;
        }
        assert(a@.skip(i as int)[0] == a@[i as int]);
        assert(b@.skip(i as int)[0] == b@[i as int]);
        if a[i] != b[i] {
            return a[i] < b[i];
        }
        assert(a@.skip(i as int).skip(1) =~= a@.skip(i + 1));
        assert(b@.skip(i as int).skip(1) =~= b@.skip(i + 1));
        i += 1;
    }
}

/// Of two different byte strings one comes before the other.
pub proof fn lemma_lex_total(a: Seq<u8>, b: Seq<u8>)
    ensures
        lex_lt(a, b) || lex_lt(b, a) || a == b,
        !(lex_lt(a, b) && lex_lt(b, a)),
        !lex_lt(a, a),
    decreases a.len(),
{
    if a.len() > 0 && b.len() > 0 {
        if a[0] == b[0] {
            lemma_lex_total(a.skip(1), b.skip(1));
            if a.skip(1) == b.skip(1) {
                assert(a =~= seq![a[0]] + a.skip(1));
                assert(b =~= seq![b[0]] + b.skip(1));
            }
        }
    } else if a.len() == 0 && b.len() == 0 {
        assert(a =~= b);
    }
    if a.len() > 0 {
        lemma_lex_irreflexive(a);
    }
}

proof fn lemma_lex_irreflexive(a: Seq<u8>)
    ensures
        !lex_lt(a, a),
    decreases a.len(),
{
    if a.len() > 0 {
        lemma_lex_irreflexive(a.skip(1));
    }
}

/// Whether two byte strings are the same.
pub fn same_bytes(a: &[u8], b: &[u8]) -> (r: bool)
    ensures
        r == (a@ == b@),
{
    if a.len() != b.len() {
        return false;
    }
    let mut i: usize = 0;
    while i < a.len()
        invariant
            i <= a@.len(),
            a@.len() == b@.len(),
            forall|j: int| 0 <= j < i ==> a@[j] == b@[j],
        decreases a@.len() - i,
    {
        if a[i] != b[i] {
            return false;
        }
        i += 1;
    }
    assert(a@ =~= b@);
    true
}

/// Whether two lists of addresses are the same.
pub fn same_ids(a: &Vec<Id>, b: &Vec<Id>) -> (r: bool)
    ensures
        r == (a@ == b@),
{
    if a.len() != b.len() {
        return false;
    }
    let mut i: usize = 0;
    while i < a.len()
        invariant
            i <= a@.len(),
            a@.len() == b@.len(),
            forall|j: int| 0 <= j < i ==> a@[j] == b@[j],
        decreases a@.len() - i,
    {
        if !a[i].same(&b[i]) {
            return false;
        }
        i += 1;
    }
    assert(a@ =~= b@);
    true
}

impl Node {
    /// Whether two nodes are the same in every field.
    pub fn same(&self, other: &Node) -> (r: bool)
        ensures
            r == (self@ == other@),
    {
        let subtree = match (&self.subtree, &other.subtree) {
            (Some(a), Some(b)) => a.same(b),
            (None, None) => true,
            _ => false,
        };
        same_bytes(self.name.as_slice(), other.name.as_slice()) && self.kind == other.kind
            && self.mode == other.mode && self.uid == other.uid && self.gid == other.gid
            && self.mtime == other.mtime && self.size == other.size && same_ids(
            &self.content,
            &other.content,
        ) && subtree && same_bytes(self.target.as_slice(), other.target.as_slice())
    }
}

/// Whether some node of the list has the name.
pub open spec fn has_name(nodes: Seq<NodeView>, name: Seq<u8>) -> bool {
    exists|i: int| 0 <= i < nodes.len() && (#[trigger] nodes[i]).name == name
}

/// The position of the first node with the name.
pub fn find_node(nodes: &Vec<Node>, name: &[u8]) -> (r: Option<usize>)
    ensures
        match r {
            Some(i) => i < nodes@.len() && nodes@[i as int]@.name == name@ && forall|j: int|
                0 <= j < i ==> (#[trigger] nodes@[j])@.name != name@,
            None => !has_name(node_views(nodes@), name@),
        },
{
    let mut i: usize = 0;
    while i < nodes.len()
        invariant
            i <= nodes@.len(),
            forall|j: int| 0 <= j < i ==> (#[trigger] nodes@[j])@.name != name@,
        decreases nodes@.len() - i,
    {
        if same_bytes(nodes[i].name.as_slice(), name) {
            return Some(i);
        }
        i += 1;
    }
    proof {
        let views = node_views(nodes@);
        if has_name(views, name@) {
            let k = choose|k: int| 0 <= k < views.len() && (#[trigger] views[k]).name == name@;
            assert(views[k] == nodes@[k]@);
        }
    }
    None
}

/// Puts a node into a list that stands in the strict order of its names,
/// in place of the node with the same name where there is one. The list
/// stays in order.
pub fn insert_node(nodes: &mut Vec<Node>, node: Node)
    requires
        sorted_by_name(node_views(old(nodes)@)),
    ensures
        sorted_by_name(node_views(final(nodes)@)),
        forall|name: Seq<u8>|
            has_name(node_views(final(nodes)@), name) <==> has_name(
                node_views(old(nodes)@),
                name,
            ) || name == node@.name,
        forall|i: int|
            0 <= i < final(nodes)@.len() ==> (#[trigger] final(nodes)@[i])@ == node@
                || exists|j: int|
                0 <= j < old(nodes)@.len() && old(nodes)@[j]@ == final(nodes)@[i]@ && old(nodes)@[j]@.name != node@.name,
        exists|i: int| 0 <= i < final(nodes)@.len() && #[trigger] final(nodes)@[i]@ == node@,
        forall|j: int|
            0 <= j < old(nodes)@.len() && (#[trigger] old(nodes)@[j])@.name != node@.name
                ==> exists|i: int|
                0 <= i < final(nodes)@.len() && #[trigger] final(nodes)@[i]@ == old(nodes)@[j]@,
{
    let ghost before = nodes@;
    let ghost views = node_views(before);
    let ghost nv = node@;
    let mut p: usize = 0;
    while p < nodes.len() && name_lt(nodes[p].name.as_slice(), node.name.as_slice())
        invariant
            p <= nodes@.len(),
            nodes@ == before,
            forall|j: int| 0 <= j < p ==> lex_lt((#[trigger] before[j])@.name, node@.name),
        decreases nodes@.len() - p,
    {
        p += 1;
    }
    let replace = p < nodes.len() && same_bytes(nodes[p].name.as_slice(), node.name.as_slice());
    if replace {
        nodes.set(p, node);
    } else {
        nodes.insert(p, node);
    }
    proof {
        let after = node_views(nodes@);
        assert forall|j: int| 0 <= j < p implies after[j] == views[j] by {}
        assert(after[p as int] == nv);
        if p < before.len() {
            lemma_lex_total(views[p as int].name, nv.name);
            assert(views[p as int] == before[p as int]@);
        }
        assert forall|j: int| 0 <= j < before.len() implies (#[trigger] views[j]).name != nv.name
            || (replace && j == p) by {
            assert(views[j] == before[j]@);
            if j < p {
                lemma_lex_total(views[j].name, nv.name);
            } else if j > p {
                lemma_sorted_gap(views, p as int, j);
                assert(views[p as int] == before[p as int]@);
            }
        }
        if replace {
            assert forall|j: int| 0 <= j < after.len() && j != p implies after[j] == views[j] by {}
            assert forall|i: int| 0 <= i < after.len() - 1 implies lex_lt(
                #[trigger] after[i].name,
                after[i + 1].name,
            ) by {
                assert(lex_lt(views[i].name, views[i + 1].name));
            }
        } else {
            assert forall|j: int| p < j < after.len() implies after[j] == views[j - 1] by {}
            assert forall|i: int| 0 <= i < after.len() - 1 implies lex_lt(
                #[trigger] after[i].name,
                after[i + 1].name,
            ) by {
                if i + 1 < p {
                    assert(lex_lt(views[i].name, views[i + 1].name));
                } else if i + 1 == p {
                    assert(views[i] == before[i]@);
                } else if i == p {
                } else {
                    assert(lex_lt(views[i - 1].name, views[i].name));
                }
            }
        }
        assert forall|name: Seq<u8>|
            has_name(after, name) <==> has_name(views, name) || name == nv.name by {
            if has_name(after, name) {
                let i = choose|i: int| 0 <= i < after.len() && (#[trigger] after[i]).name == name;
                if i != p {
                    let j = if replace || i < p {
                        i
                    } else {
                        i - 1
                    };
                    assert(views[j].name == name);
                }
            }
            if has_name(views, name) && name != nv.name {
                let j = choose|j: int| 0 <= j < views.len() && (#[trigger] views[j]).name == name;
                let i = if replace || j < p {
                    j
                } else {
                    j + 1
                };
                assert(after[i].name == name);
            }
            if name == nv.name {
                assert(after[p as int].name == name);
            }
        }
        assert forall|i: int| 0 <= i < nodes@.len() implies (#[trigger] nodes@[i])@ == nv
            || exists|j: int|
            0 <= j < before.len() && before[j]@ == nodes@[i]@ && before[j]@.name != nv.name by {
            assert(nodes@[i]@ == after[i]);
            if i != p {
                let j = if replace || i < p {
                    i
                } else {
                    i - 1
                };
                assert(before[j]@ == views[j]);
                assert(views[j].name != nv.name || (replace && j == p));
            }
        }
        assert(nodes@[p as int]@ == nv);
        assert forall|j: int|
            0 <= j < before.len() && (#[trigger] before[j])@.name != nv.name implies exists|i: int|
            0 <= i < nodes@.len() && #[trigger] nodes@[i]@ == before[j]@ by {
            let i = if replace || j < p {
                j
            } else {
                j + 1
            };
            assert(views[j] == before[j]@);
            assert(after[i] == views[j]);
            assert(nodes@[i]@ == before[j]@);
        }
    }
}

/// In a list that stands in strict order, a node comes before every later
/// node.
pub proof fn lemma_sorted_gap(nodes: Seq<NodeView>, i: int, j: int)
    requires
        sorted_by_name(nodes),
        0 <= i < j < nodes.len(),
    ensures
        lex_lt(nodes[i].name, nodes[j].name),
    decreases j - i,
{
    if j > i + 1 {
        lemma_sorted_gap(nodes, i, j - 1);
        assert(lex_lt(nodes[j - 1].name, nodes[j].name));
        lemma_lex_trans(nodes[i].name, nodes[j - 1].name, nodes[j].name);
    }
}

/// The order of byte strings is transitive.
pub proof fn lemma_lex_trans(a: Seq<u8>, b: Seq<u8>, c: Seq<u8>)
    requires
        lex_lt(a, b),
        lex_lt(b, c),
    ensures
        lex_lt(a, c),
    decreases a.len(),
{
    if a.len() > 0 && b.len() > 0 && c.len() > 0 {
        if a[0] == b[0] && b[0] == c[0] {
            lemma_lex_trans(a.skip(1), b.skip(1), c.skip(1));
        }
    }
}

/// The nodes stand in the strict order of their names.
pub open spec fn sorted_by_name(nodes: Seq<NodeView>) -> bool {
    forall|i: int| 0 <= i < nodes.len() - 1 ==> lex_lt(#[trigger] nodes[i].name, nodes[i + 1].name)
}

/// Whether the nodes stand in the strict order of their names.
pub fn is_sorted(nodes: &Vec<Node>) -> (r: bool)
    ensures
        r == sorted_by_name(node_views(nodes@)),
{
    if nodes.len() < 2 {
        return true;
    }
    let mut i: usize = 0;
    while i < nodes.len() - 1
        invariant
            nodes@.len() >= 2,
            i <= nodes@.len() - 1,
            forall|j: int|
                0 <= j < i ==> lex_lt(
                    #[trigger] node_views(nodes@)[j].name,
                    node_views(nodes@)[j + 1].name,
                ),
        decreases nodes@.len() - i,
    {
        if !name_lt(nodes[i].name.as_slice(), nodes[i + 1].name.as_slice()) {
            assert(!lex_lt(node_views(nodes@)[i as int].name, node_views(nodes@)[i + 1].name));
            return false;
        }
        i += 1;
    }
    true
}

/// A point-in-time record of a backup run.
#[derive(Clone, Debug, PartialEq, Eq)]
pub struct Snapshot {
    /// Seconds since the epoch at which the backup ran.
    pub time: u64,
    pub host: Vec<u8>,
    /// The paths that were backed up.
    pub paths: Vec<Vec<u8>>,
    pub tags: Vec<Vec<u8>>,
    /// The snapshot that this one continues, if any.
    pub parent: Option<Id>,
    /// The root tree.
    pub tree: Id,
}

/// A snapshot as a mathematical value.
pub struct SnapshotView {
    pub time: u64,
    pub host: Seq<u8>,
    pub paths: Seq<Seq<u8>>,
    pub tags: Seq<Seq<u8>>,
    pub parent: Option<Id>,
    pub tree: Id,
}

impl View for Snapshot {
    type V = SnapshotView;

    open spec fn view(&self) -> SnapshotView {
        SnapshotView {
            time: self.time,
            host: self.host@,
            paths: self.paths@.map_values(|p: Vec<u8>| p@),
            tags: self.tags@.map_values(|t: Vec<u8>| t@),
            parent: self.parent,
            tree: self.tree,
        }
    }
}

/// The fixed part of a snapshot: time, root tree and parent.
pub open spec fn snapshot_fixed_bytes(s: SnapshotView) -> Seq<u8> {
    u64_bytes(s.time) + s.tree@ + option_id_bytes(s.parent)
}

/// The bytes of a snapshot: fixed part, host, paths and tags as fields.
pub open spec fn snapshot_bytes(s: SnapshotView) -> Seq<u8> {
    fields_bytes(seq![snapshot_fixed_bytes(s), s.host, fields_bytes(s.paths), fields_bytes(s.tags)])
}

/// Whether four fields are those of a snapshot.
pub open spec fn snapshot_fields_ok(fs: Seq<Seq<u8>>) -> bool {
    &&& fs.len() == 4
    &&& fs[0].len() == SNAPSHOT_FIXED
    &&& fs[0][40] <= 1
    &&& parse_fields(fs[2]) is Some
    &&& parse_fields(fs[3]) is Some
}

/// The snapshot that bytes stand for, or `None` where they are malformed.
pub open spec fn parse_snapshot(b: Seq<u8>) -> Option<SnapshotView> {
    match parse_fields(b) {
        None => None,
        Some(fs) => if snapshot_fields_ok(fs) {
            Some(
                SnapshotView {
                    time: u64_at(fs[0], 0),
                    host: fs[1],
                    paths: parse_fields(fs[2]).unwrap(),
                    tags: parse_fields(fs[3]).unwrap(),
                    parent: option_id_at(fs[0], 40),
                    tree: id_at(fs[0], 8),
                },
            )
        } else {
            None
        },
    }
}

/// A snapshot whose variable parts are short enough to be written.
pub open spec fn snapshot_fits(s: SnapshotView) -> bool {
    &&& s.host.len() <= u64::MAX
    &&& fields_fit(s.paths)
    &&& fields_fit(s.tags)
    &&& fields_bytes(s.paths).len() <= u64::MAX
    &&& fields_bytes(s.tags).len() <= u64::MAX
}

/// Parsing a written snapshot gives the snapshot back.
pub proof fn lemma_snapshot_round_trip(s: SnapshotView)
    requires
        snapshot_fits(s),
    ensures
        parse_snapshot(snapshot_bytes(s)) == Some(s),
{
    let fixed = snapshot_fixed_bytes(s);
    let fs = seq![fixed, s.host, fields_bytes(s.paths), fields_bytes(s.tags)];
    lemma_u64_at_concat(Seq::empty(), s.time, s.tree@ + option_id_bytes(s.parent));
    assert(fixed =~= Seq::<u8>::empty() + u64_bytes(s.time) + (s.tree@ + option_id_bytes(
        s.parent,
    )));
    lemma_id_at_concat(u64_bytes(s.time), s.tree, option_id_bytes(s.parent));
    assert(s.tree@.len() == 32);
    lemma_option_id_at_concat(u64_bytes(s.time) + s.tree@, s.parent, Seq::empty());
    assert(fixed =~= (u64_bytes(s.time) + s.tree@) + option_id_bytes(s.parent)
        + Seq::<u8>::empty());
    lemma_fields_round_trip(s.paths);
    lemma_fields_round_trip(s.tags);
    assert(fields_fit(fs));
    lemma_fields_round_trip(fs);
    assert(fs[0] == fixed);
    assert(fs[1] == s.host);
    assert(fs[2] == fields_bytes(s.paths));
    assert(fs[3] == fields_bytes(s.tags));
}

impl Snapshot {
    /// Writes the snapshot.
    pub fn encode(&self) -> (out: Vec<u8>)
        ensures
            out@ == snapshot_bytes(self@),
            parse_snapshot(out@) == Some(self@),
    {
        let mut fixed: Vec<u8> = Vec::new();
        put_u64(&mut fixed, self.time);
        self.tree.write(&mut fixed);
        put_option_id(&mut fixed, &self.parent);
        assert(fixed@ =~= snapshot_fixed_bytes(self@));
        let mut host: Vec<u8> = Vec::new();
        append(&mut host, self.host.as_slice());
        assert(host@ =~= self.host@);
        let mut fields: Vec<Vec<u8>> = Vec::new();
        let paths = write_fields(&self.paths);
        let tags = write_fields(&self.tags);
        proof {
            assert(paths@.len() == paths.len());
            assert(tags@.len() == tags.len());
            assert(self.host@.len() == self.host.len());
            assert(fields_fit(self@.paths)) by {
                assert forall|i: int| 0 <= i < self@.paths.len() implies (
                #[trigger] self@.paths[i]).len() <= u64::MAX by {
                    assert(self@.paths[i] == self.paths@[i]@);
                    assert(self.paths@[i]@.len() == self.paths@[i].len());
                }
            }
            assert(fields_fit(self@.tags)) by {
                assert forall|i: int| 0 <= i < self@.tags.len() implies (
                #[trigger] self@.tags[i]).len() <= u64::MAX by {
                    assert(self@.tags[i] == self.tags@[i]@);
                    assert(self.tags@[i]@.len() == self.tags@[i].len());
                }
            }
            lemma_snapshot_round_trip(self@);
        }
        fields.push(fixed);
        fields.push(host);
        fields.push(paths);
        fields.push(tags);
        assert(fields@.map_values(|f: Vec<u8>| f@) =~= seq![
            snapshot_fixed_bytes(self@),
            self@.host,
            fields_bytes(self@.paths),
            fields_bytes(self@.tags),
        ]);
        write_fields(&fields)
    }

    /// Reads a snapshot.
    pub fn decode(b: &[u8]) -> (r: Option<Snapshot>)
        ensures
            match r {
                Some(s) => parse_snapshot(b@) == Some(s@),
                None => parse_snapshot(b@) is None,
            },
    {
        let mut fields = match read_fields(b) {
            Some(f) => f,
            None => {
                return None;
            },
        };
        let ghost fs = fields@.map_values(|f: Vec<u8>| f@);
        if fields.len() != 4 {
            return None;
        }
        assert(fs[0] == fields@[0]@ && fs[1] == fields@[1]@ && fs[2] == fields@[2]@ && fs[3]
            == fields@[3]@);
        if fields[0].len() != SNAPSHOT_FIXED {
            return None;
        }
        let fixed = fields[0].as_slice();
        let time = get_u64(fixed, 0);
        let tree = Id::read(fixed, 8);
        if fixed[40] > 1 {
            return None;
        }
        let parent = get_option_id(fixed, 40);
        let paths = match read_fields(fields[2].as_slice()) {
            Some(p) => p,
            None => {
                return None;
            },
        };
        let tags = match read_fields(fields[3].as_slice()) {
            Some(t) => t,
            None => {
                return None;
            },
        };
        let _ = fields.pop();
        let _ = fields.pop();
        let host = fields.pop().unwrap();
        Some(Snapshot { time, host, paths, tags, parent, tree })
    }
}

} // verus!
