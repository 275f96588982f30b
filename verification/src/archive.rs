//! A whole backup of a directory, and the way back.
//!
//! A directory is saved with the content of each of its files and with
//! its listing; the directories in it are saved before it, from the
//! leaves up. A backup saves a directory and a snapshot that names its
//! listing. A second backup of the same
//! files finds every blob in the repository: it writes a snapshot and
//! nothing else, and its snapshot names the same tree. What was backed up
//! comes back byte for byte.

use crate::access::{all_known, file_saved, known, plains};
use crate::backend::Backend;
use crate::blob::BlobKind;
use crate::chunker::{ChunkerParams, concat, lemma_pieces_concat, pieces};
use crate::crypto::MAX_MESSAGE;
use crate::error::{Error, ErrorKind, FileType};
use crate::id::{digest, Id, lemma_id_ext};
use crate::repair::copy_node;
use crate::repo::Repository;
use crate::store::{
    lemma_carries_trans, lemma_grown_trans, lemma_same, Pending, RepoView, snapshot_in,
};
use crate::world::Blob;
use crate::tree::{
    find_node, has_name, lemma_lex_total, lemma_sorted_gap, lex_lt, name_lt, Node, node_views,
    NodeKind, nodes_refs, NodeView,
    parse_tree, Snapshot, snapshot_bytes, SnapshotView, sorted_by_name, tree_bytes,
};
use vstd::prelude::*;

verus! {

/// An entry of a directory to back up: its node, and for a file its
/// content. The size and the content of the node of a file are set by
/// the backup; a directory comes with the tree that was saved for it.
#[derive(Clone, Debug, PartialEq, Eq)]
pub struct Source {
    pub node: Node,
    pub data: Vec<u8>,
}

/// An entry to back up as a mathematical value.
pub struct SourceView {
    pub node: NodeView,
    pub data: Seq<u8>,
}

impl View for Source {
    type V = SourceView;

    open spec fn view(&self) -> SourceView {
        SourceView { node: self.node@, data: self.data@ }
    }
}

/// The views of the files of a vector.
pub open spec fn source_views(files: Seq<Source>) -> Seq<SourceView> {
    files.map_values(|f: Source| f@)
}

/// The address of `data`.
pub open spec fn address(data: Seq<u8>) -> Id {
    choose|id: Id| id@ == digest(data)
}

/// An address with the digest of `data` is the address of `data`.
pub proof fn lemma_address(id: Id, data: Seq<u8>)
    requires
        id@ == digest(data),
    ensures
        address(data) == id,
{
    lemma_id_ext(address(data), id);
}

/// The addresses of the parts, in order.
pub open spec fn addresses(parts: Seq<Seq<u8>>) -> Seq<Id> {
    parts.map_values(|p: Seq<u8>| address(p))
}

/// The node that a backup makes of an entry. A file gets the size of its
/// content and the addresses of the chunks of the content. A directory,
/// whose tree was saved before, and a symlink are taken as they are.
pub open spec fn node_of(f: SourceView, params: ChunkerParams) -> NodeView {
    if f.node.kind == NodeKind::File {
        NodeView {
            size: f.data.len() as u64,
            content: addresses(pieces(f.data, 0, params)),
            subtree: None,
            ..f.node
        }
    } else {
        f.node
    }
}

/// The listing that a backup makes of the files.
pub open spec fn listing_of(files: Seq<SourceView>, params: ChunkerParams) -> Seq<NodeView> {
    files.map_values(|f: SourceView| node_of(f, params))
}

/// Whether `data` is a chunk of one of the files.
pub open spec fn is_chunk(files: Seq<SourceView>, params: ChunkerParams, data: Seq<u8>) -> bool {
    exists|i: int, k: int|
        0 <= i < files.len() && files[i].node.kind == NodeKind::File && 0 <= k < pieces(
            files[i].data,
            0,
            params,
        ).len() && #[trigger] pieces(files[i].data, 0, params)[k] == data
}

/// Whether `data` is a chunk of one of the files, or their listing.
pub open spec fn is_part(files: Seq<SourceView>, params: ChunkerParams, data: Seq<u8>) -> bool {
    data == tree_bytes(listing_of(files, params)) || is_chunk(files, params, data)
}

/// Whether the blob `x` holds `data` under its address, as a tree where
/// `data` is the listing of the files and as a data blob where it is one
/// of their chunks.
pub open spec fn part_at(
    v: RepoView,
    files: Seq<SourceView>,
    params: ChunkerParams,
    x: Id,
    data: Seq<u8>,
) -> bool {
    &&& is_part(files, params, data)
    &&& x@ == digest(data)
    &&& v.plain(x) == Some(data)
    &&& if v.world()[x].kind == BlobKind::Tree {
        data == tree_bytes(listing_of(files, params))
    } else {
        is_chunk(files, params, data)
    }
}

/// Whether the blob `x` is a data blob that holds a chunk of one of the
/// files, or a tree that holds their listing.
pub open spec fn holds_part(v: RepoView, files: Seq<SourceView>, params: ChunkerParams, x: Id) -> bool {
    exists|data: Seq<u8>| #[trigger] part_at(v, files, params, x, data)
}

/// Whether the repository has a blob under the address of every chunk of
/// the first `upto` files, under the address that the listing gives it.
pub open spec fn chunks_there(v: RepoView, files: Seq<SourceView>, params: ChunkerParams, upto: int) -> bool {
    forall|i: int, k: int|
        0 <= i < upto && files[i].node.kind == NodeKind::File && 0 <= k < pieces(
            files[i].data,
            0,
            params,
        ).len() ==> {
            &&& v.world().contains_key(#[trigger] addresses(pieces(files[i].data, 0, params))[k])
            &&& addresses(pieces(files[i].data, 0, params))[k]@ == digest(
                pieces(files[i].data, 0, params)[k],
            )
        }
}

/// Whether a backup of the files has nothing to save: nothing waits to
/// be packed, and the repository has a blob under the address of every
/// chunk and of the listing.
pub open spec fn repeated(v: RepoView, files: Seq<SourceView>, params: ChunkerParams) -> bool {
    &&& v.pending == Map::<Id, Pending>::empty()
    &&& forall|i: int|
        0 <= i < files.len() && files[i].node.kind == NodeKind::File ==> all_known(
            v,
            #[trigger] pieces(files[i].data, 0, params),
        )
    &&& known(v, tree_bytes(listing_of(files, params)))
}

/// What a backup of the files did, where it succeeded: `sid` is a new
/// snapshot that is `label` with the tree of the listing; nothing waits
/// any more; the repository has the tree and every chunk, each under the
/// address of its content; every blob that is new is a data blob with a
/// chunk or a tree with the listing; every object that was there is
/// there; and where the backup
/// had nothing to save, the snapshot is the only new object.
pub open spec fn archived(
    old: RepoView,
    new: RepoView,
    files: Seq<SourceView>,
    label: SnapshotView,
    params: ChunkerParams,
    sid: Id,
) -> bool {
    let nodes = listing_of(files, params);
    let tree = address(tree_bytes(nodes));
    &&& !old.objects.contains_key((FileType::Snapshot, sid))
    &&& snapshot_in(new.objects, new.key, sid) == Some(SnapshotView { tree, ..label })
    &&& new.pending == Map::<Id, Pending>::empty()
    &&& new.roots() == old.roots().insert(tree)
    &&& new.key == old.key
    &&& sorted_by_name(nodes)
    &&& parse_tree(tree_bytes(nodes)) == Some(nodes)
    &&& tree@ == digest(tree_bytes(nodes))
    &&& new.has_tree(tree)
    &&& chunks_there(new, files, params, files.len() as int)
    &&& new.carries(old)
    &&& forall|x: Id| #[trigger]
        new.world().contains_key(x) && !old.world().contains_key(x) ==> holds_part(
            new,
            files,
            params,
            x,
        )
    &&& forall|k: (FileType, Id)| #[trigger]
        old.objects.contains_key(k) ==> new.objects.contains_key(k) && new.objects[k]
            == old.objects[k]
    &&& repeated(old, files, params) ==> new.index == old.index && new.objects
        == old.objects.insert((FileType::Snapshot, sid), new.objects[(FileType::Snapshot, sid)])
}

/// A second backup of the same files: it names the same tree in a
/// snapshot of its own, the first snapshot is still there, and beside the
/// new snapshot no object was written, no pack and no index file.
pub proof fn law_second_backup(
    a: RepoView,
    b: RepoView,
    c: RepoView,
    files: Seq<SourceView>,
    first: SnapshotView,
    second: SnapshotView,
    params: ChunkerParams,
    s1: Id,
    s2: Id,
)
    requires
        archived(a, b, files, first, params, s1),
        archived(b, c, files, second, params, s2),
    ensures
        s1 != s2,
        snapshot_in(b.objects, b.key, s1).unwrap().tree == snapshot_in(
            c.objects,
            c.key,
            s2,
        ).unwrap().tree,
        c.objects.contains_key((FileType::Snapshot, s1)),
        c.objects == b.objects.insert((FileType::Snapshot, s2), c.objects[(FileType::Snapshot, s2)]),
        c.index == b.index,
{
    let nodes = listing_of(files, params);
    let tree = address(tree_bytes(nodes));
    assert(b.objects.contains_key((FileType::Snapshot, s1)));
    assert(repeated(b, files, params)) by {
        assert(b.world().contains_key(tree));
        assert(known(b, tree_bytes(nodes)));
        assert forall|i: int|
            0 <= i < files.len() && files[i].node.kind == NodeKind::File implies all_known(
            b,
            #[trigger] pieces(files[i].data, 0, params),
        ) by {
            let parts = pieces(files[i].data, 0, params);
            assert forall|k: int| 0 <= k < parts.len() implies known(b, #[trigger] parts[k]) by {
                let x = addresses(parts)[k];
                assert(b.world().contains_key(x) && x@ == digest(parts[k]));
            }
        }
    }
}

/// A backup into a repository without blobs: afterwards the index holds
/// a data blob for every chunk of the files, under the address of the
/// chunk, the tree of the listing, and nothing else. Files with the same
/// content have the same addresses in their nodes.
pub proof fn law_first_backup(
    old: RepoView,
    new: RepoView,
    files: Seq<SourceView>,
    label: SnapshotView,
    params: ChunkerParams,
    sid: Id,
)
    requires
        archived(old, new, files, label, params, sid),
        old.world() == Map::<Id, Blob>::empty(),
    ensures
        forall|x: Id| #[trigger]
            new.index.contains_key(x) ==> if new.index[x].kind == BlobKind::Tree {
                x == address(tree_bytes(listing_of(files, params)))
            } else {
                new.index[x].kind == BlobKind::Data && exists|i: int, k: int|
                    0 <= i < files.len() && 0 <= k < pieces(files[i].data, 0, params).len()
                        && #[trigger] addresses(pieces(files[i].data, 0, params))[k] == x
            },
        forall|i: int, j: int|
            0 <= i < files.len() && 0 <= j < files.len() && files[i].node.kind == NodeKind::File
                && files[j].node.kind == NodeKind::File && files[i].data == files[j].data
                ==> (#[trigger] listing_of(files, params)[i]).content == (#[trigger] listing_of(
                files,
                params,
            )[j]).content,
{
    assert(new.world() =~= new.stored());
    let nodes = listing_of(files, params);
    assert forall|x: Id| #[trigger] new.index.contains_key(x) implies if new.index[x].kind
        == BlobKind::Tree {
        x == address(tree_bytes(nodes))
    } else {
        new.index[x].kind == BlobKind::Data && exists|i: int, k: int|
            0 <= i < files.len() && 0 <= k < pieces(files[i].data, 0, params).len()
                && #[trigger] addresses(pieces(files[i].data, 0, params))[k] == x
    } by {
        assert(new.world().contains_key(x) && !old.world().contains_key(x));
        assert(holds_part(new, files, params, x));
        let data = choose|data: Seq<u8>| #[trigger] part_at(new, files, params, x, data);
        assert(new.world()[x].kind == new.index[x].kind);
        if new.index[x].kind == BlobKind::Tree {
            lemma_address(x, tree_bytes(nodes));
        } else {
            let (i, k) = choose|i: int, k: int|
                0 <= i < files.len() && files[i].node.kind == NodeKind::File && 0 <= k < pieces(
                    files[i].data,
                    0,
                    params,
                ).len() && #[trigger] pieces(files[i].data, 0, params)[k] == data;
            lemma_address(x, data);
            assert(addresses(pieces(files[i].data, 0, params))[k] == x);
        }
    }
}

/// The position of the first node with the name.
pub open spec fn first_named(nodes: Seq<NodeView>, name: Seq<u8>) -> int {
    choose|j: int|
        0 <= j < nodes.len() && nodes[j].name == name && forall|i: int|
            0 <= i < j ==> (#[trigger] nodes[i]).name != name
}

/// Whether the repository can read the blob under each of the addresses.
pub open spec fn all_plain(v: RepoView, ids: Seq<Id>) -> bool {
    forall|k: int| 0 <= k < ids.len() ==> v.plain(#[trigger] ids[k]) is Some
}

/// The content that the snapshot `sid` has for the file `name`: the
/// chunks of the first node of that name in the tree of the snapshot, one
/// after the other. `None` where the snapshot, its tree or one of the
/// chunks cannot be read, or the tree has no node of that name.
pub open spec fn restored(v: RepoView, sid: Id, name: Seq<u8>) -> Option<Seq<u8>> {
    match snapshot_in(v.objects, v.key, sid) {
        None => None,
        Some(s) => match v.plain(s.tree) {
            None => None,
            Some(bytes) => match parse_tree(bytes) {
                None => None,
                Some(nodes) => if has_name(nodes, name) && all_plain(
                    v,
                    nodes[first_named(nodes, name)].content,
                ) {
                    Some(concat(plains(v, nodes[first_named(nodes, name)].content)))
                } else {
                    None
                },
            },
        },
    }
}

/// The position that is the first with the name is `first_named`.
pub proof fn lemma_first_named(nodes: Seq<NodeView>, name: Seq<u8>, j: int)
    requires
        0 <= j < nodes.len(),
        nodes[j].name == name,
        forall|i: int| 0 <= i < j ==> (#[trigger] nodes[i]).name != name,
    ensures
        has_name(nodes, name),
        first_named(nodes, name) == j,
{
    let f = first_named(nodes, name);
    assert(0 <= f < nodes.len() && nodes[f].name == name && forall|i: int|
        0 <= i < f ==> (#[trigger] nodes[i]).name != name);
    if f < j {
        assert(nodes[f].name != name);
    }
    if j < f {
        assert(nodes[j].name != name);
    }
}

/// Whether every blob that the repository has under the address of a
/// chunk of the files, or of their listing, is that chunk or listing.
pub open spec fn honest(v: RepoView, files: Seq<SourceView>, params: ChunkerParams) -> bool {
    forall|data: Seq<u8>, x: Id|
        #![trigger is_part(files, params, data), v.world().contains_key(x)]
        is_part(files, params, data) && v.world().contains_key(x) && x@ == digest(data) ==> v.plain(
            x,
        ) == Some(data)
}

/// Whether no two different chunks of the files, the listing among them,
/// have the same digest.
pub open spec fn unmixed(files: Seq<SourceView>, params: ChunkerParams) -> bool {
    forall|a: Seq<u8>, b: Seq<u8>|
        #![trigger is_part(files, params, a), is_part(files, params, b)]
        is_part(files, params, a) && is_part(files, params, b) && digest(a) == digest(b) ==> a == b
}

/// After a backup, the blob under the address of a chunk or of the
/// listing is that chunk or listing, where digests did not collide.
pub proof fn lemma_part_plain(
    old: RepoView,
    new: RepoView,
    files: Seq<SourceView>,
    label: SnapshotView,
    params: ChunkerParams,
    sid: Id,
    data: Seq<u8>,
    x: Id,
)
    requires
        archived(old, new, files, label, params, sid),
        honest(old, files, params),
        unmixed(files, params),
        is_part(files, params, data),
        new.world().contains_key(x),
        x@ == digest(data),
    ensures
        new.plain(x) == Some(data),
{
    if old.world().contains_key(x) {
        assert(old.plain(x) == Some(data));
    } else {
        assert(holds_part(new, files, params, x));
        let d = choose|d: Seq<u8>| #[trigger] part_at(new, files, params, x, d);
        assert(d == data);
    }
}

/// Round trip: after a backup, the snapshot has for each file of the
/// directory the content that was backed up, byte for byte. This holds where digests
/// did not collide: every blob that the repository had under the address
/// of a chunk was that chunk, and no two different chunks share a digest.
pub proof fn law_restore(
    old: RepoView,
    new: RepoView,
    files: Seq<SourceView>,
    label: SnapshotView,
    params: ChunkerParams,
    sid: Id,
    i: int,
)
    requires
        params.valid(),
        archived(old, new, files, label, params, sid),
        honest(old, files, params),
        unmixed(files, params),
        0 <= i < files.len(),
        files[i].node.kind == NodeKind::File,
    ensures
        restored(new, sid, files[i].node.name) == Some(files[i].data),
{
    let nodes = listing_of(files, params);
    let bytes = tree_bytes(nodes);
    let tree = address(bytes);
    let name = files[i].node.name;
    let parts = pieces(files[i].data, 0, params);
    lemma_part_plain(old, new, files, label, params, sid, bytes, tree);
    assert(nodes[i] == node_of(files[i], params));
    assert forall|j: int| 0 <= j < i implies (#[trigger] nodes[j]).name != name by {
        lemma_sorted_gap(nodes, j, i);
        lemma_lex_total(nodes[j].name, nodes[i].name);
    }
    lemma_first_named(nodes, name, i);
    let ids = nodes[i].content;
    assert(ids == addresses(parts));
    assert forall|k: int| 0 <= k < ids.len() implies new.plain(#[trigger] ids[k]) == Some(
        parts[k],
    ) by {
        assert(new.world().contains_key(addresses(pieces(files[i].data, 0, params))[k]));
        assert(pieces(files[i].data, 0, params)[k] == parts[k]);
        assert(is_part(files, params, parts[k]));
        lemma_part_plain(old, new, files, label, params, sid, parts[k], ids[k]);
    }
    assert(all_plain(new, ids));
    assert(plains(new, ids) =~= parts);
    lemma_pieces_concat(files[i].data, 0, params);
    assert(files[i].data.subrange(0, files[i].data.len() as int) =~= files[i].data);
}

/// Whether the files stand in the strict order of their names.
fn in_order(files: &Vec<Source>, Ghost(params): Ghost<ChunkerParams>) -> (r: bool)
    ensures
        r == sorted_by_name(listing_of(source_views(files@), params)),
{
    let ghost nodes = listing_of(source_views(files@), params);
    assert forall|j: int| 0 <= j < files@.len() implies (#[trigger] nodes[j]).name
        == files@[j].node@.name by {
        assert(nodes[j] == node_of(source_views(files@)[j], params));
    }
    if files.len() < 2 {
        return true;
    }
    let mut i: usize = 0;
    while i < files.len() - 1
        invariant
            files@.len() >= 2,
            i <= files@.len() - 1,
            nodes == listing_of(source_views(files@), params),
            nodes.len() == files@.len(),
            forall|j: int|
                0 <= j < files@.len() ==> (#[trigger] nodes[j]).name == files@[j].node@.name,
            forall|j: int| 0 <= j < i ==> lex_lt(#[trigger] nodes[j].name, nodes[j + 1].name),
        decreases files@.len() - i,
    {
        if !name_lt(files[i].node.name.as_slice(), files[i + 1].node.name.as_slice()) {
            assert(!lex_lt(nodes[i as int].name, nodes[i + 1].name));
            return false;
        }
        i += 1;
    }
    true
}

impl<B: Backend> Repository<B> {
    /// Gives the content that a snapshot has for a file of its tree. On a
    /// reliable backend this fails exactly where the snapshot, its tree
    /// or a chunk of the file cannot be read, or the tree has no node of
    /// that name.
    pub fn restore(&self, sid: &Id, name: &[u8]) -> (r: Result<Vec<u8>, Error>)
        requires
            self.wf(),
        ensures
            match r {
                Ok(d) => restored(self@, *sid, name@) == Some(d@),
                Err(e) => {
                    &&& e.kind == ErrorKind::NotFound || e.kind == ErrorKind::Corrupt || e.kind
                        == ErrorKind::BackendTransient
                    &&& e.kind == ErrorKind::BackendTransient ==> !self.reliable()
                    &&& self.reliable() ==> restored(self@, *sid, name@) is None
                },
            },
    {
        let snapshot = match self.load_snapshot(sid) {
            Ok(s) => s,
            Err(e) => {
                return Err(e);
            },
        };
        let nodes = match self.load_tree(&snapshot.tree) {
            Ok(n) => n,
            Err(e) => {
                return Err(e);
            },
        };
        let ghost views = node_views(nodes@);
        let j = match find_node(&nodes, name) {
            Some(j) => j,
            None => {
                return Err(Error::bare(ErrorKind::NotFound));
            },
        };
        proof {
            assert(views[j as int] == nodes@[j as int]@);
            assert forall|i: int| 0 <= i < j implies (#[trigger] views[i]).name != name@ by {
                assert(views[i] == nodes@[i]@);
            }
            lemma_first_named(views, name@, j as int);
        }
        match self.load_file(&nodes[j].content) {
            Ok(d) => Ok(d),
            Err(e) => {
                if e.kind == ErrorKind::BackendTransient {
                    return Err(e);
                }
                proof {
                    assert(!all_plain(self@, views[j as int].content) || !self.reliable());
                }
                Err(e)
            },
        }
    }

    /// Saves a directory: the content of each of its files, and its
    /// listing. The entries must stand in the strict order of their names.
    /// Gives the address of the listing. Where the repository has every
    /// chunk and the listing already, nothing changes.
    ///
    /// Fails with `Invalid` where the entries are out of order, before
    /// anything is saved, or where the listing is too long to be stored,
    /// and with `NotFound` where a directory or a symlink among the
    /// entries names a blob that the repository does not have; beyond
    /// that only as the backend or the random source fails.
    pub fn save_dir(&mut self, files: &Vec<Source>) -> (r: Result<Id, Error>)
        requires
            old(self).wf(),
        ensures
            final(self).wf(),
            final(self).reliable() == old(self).reliable(),
            final(self).spec_config() == old(self).spec_config(),
            final(self)@.key == old(self)@.key,
            final(self)@.carries(old(self)@),
            final(self)@.grown_from(old(self)@),
            final(self)@.roots() == old(self)@.roots(),
            old(self)@.healthy() ==> final(self)@.healthy(),
            match r {
                Ok(tree) => dir_saved(
                    old(self)@,
                    final(self)@,
                    source_views(files@),
                    old(self).spec_config().chunker,
                    tree,
                ),
                Err(e) => {
                    &&& e.kind == ErrorKind::Invalid || e.kind == ErrorKind::NotFound || e.kind
                        == ErrorKind::Entropy || e.kind == ErrorKind::Conflict || e.kind
                        == ErrorKind::BackendTransient
                    &&& e.kind == ErrorKind::Invalid ==> !sorted_by_name(
                        listing_of(source_views(files@), old(self).spec_config().chunker),
                    ) || tree_bytes(
                        listing_of(source_views(files@), old(self).spec_config().chunker),
                    ).len() >= MAX_MESSAGE
                    &&& e.kind == ErrorKind::NotFound ==> lacking(
                        old(self)@,
                        source_views(files@),
                        old(self).spec_config().chunker,
                    )
                    &&& e.kind == ErrorKind::BackendTransient ==> !old(self).reliable()
                },
            },
            !sorted_by_name(listing_of(source_views(files@), old(self).spec_config().chunker))
                ==> (r matches Err(e) && e.kind == ErrorKind::Invalid) && final(self)@ == old(
                self,
            )@,
    {
        let ghost v0 = self@;
        let ghost params = self.config.chunker;
        let ghost views = source_views(files@);
        proof {
            lemma_same(v0);
        }
        if !in_order(files, Ghost(params)) {
            return Err(Error::bare(ErrorKind::Invalid));
        }
        let mut nodes: Vec<Node> = Vec::new();
        let mut i: usize = 0;
        proof {
            assert(node_views(nodes@) =~= listing_of(views.take(0), params));
        }
        while i < files.len()
            invariant
                i <= files@.len(),
                self.wf(),
                self.reliable() == old(self).reliable(),
                self.spec_config() == old(self).spec_config(),
                params == self.spec_config().chunker,
                views == source_views(files@),
                v0 == old(self)@,
                self@.key == v0.key,
                self@.grown_from(v0),
                self@.roots() == v0.roots(),
                self@.carries(v0),
                v0.healthy() ==> self@.healthy(),
                sorted_by_name(listing_of(views, params)),
                node_views(nodes@) == listing_of(views.take(i as int), params),
                chunks_there(self@, views, params, i as int),
                forall|x: Id| #[trigger]
                    self@.world().contains_key(x) && !v0.world().contains_key(x) ==> holds_part(
                        self@,
                        views,
                        params,
                        x,
                    ),
                repeated(v0, views, params) ==> self@ == v0,
            decreases files@.len() - i,
        {
            let ghost v1 = self@;
            let ghost f = views[i as int];
            let ghost parts = pieces(f.data, 0, params);
            assert(f == files@[i as int]@);
            let mut node = copy_node(&files[i].node);
            if files[i].node.kind == NodeKind::File {
                let ids = match self.save_file(files[i].data.as_slice()) {
                    Ok(ids) => ids,
                    Err(e) => {
                        proof {
                            lemma_carries_trans(v0, v1, self@);
                            lemma_grown_trans(v0, v1, self@);
                        }
                        return Err(e);
                    },
                };
                node.size = files[i].data.len() as u64;
                node.content = ids;
                node.subtree = None;
                proof {
                    lemma_carries_trans(v0, v1, self@);
                    lemma_grown_trans(v0, v1, self@);
                    lemma_saved(v0, v1, self@, views, params, i as int, node.content@);
                }
            } else {
                proof {
                    lemma_passed(v1, views, params, i as int);
                }
            }
            let ghost before = nodes@;
            nodes.push(node);
            proof {
                assert(node@ == node_of(f, params));
                assert(views.take(i + 1) =~= views.take(i as int).push(f));
                assert(nodes@ == before.push(node));
                assert(node_views(before).len() == before.len());
                assert(listing_of(views.take(i as int), params).len() == i);
                assert(before.len() == i);
                assert forall|j: int| 0 <= j < i + 1 implies node_views(nodes@)[j] == listing_of(
                    views.take(i + 1),
                    params,
                )[j] by {
                    assert(node_views(nodes@)[j] == nodes@[j]@);
                    assert(listing_of(views.take(i + 1), params)[j] == node_of(
                        views.take(i + 1)[j],
                        params,
                    ));
                    if j < i {
                        assert(nodes@[j] == before[j]);
                        assert(node_views(before)[j] == before[j]@);
                        assert(listing_of(views.take(i as int), params)[j] == node_of(
                            views.take(i as int)[j],
                            params,
                        ));
                        assert(views.take(i + 1)[j] == views.take(i as int)[j]);
                    } else {
                        assert(nodes@[j] == node);
                        assert(views.take(i + 1)[j] == f);
                    }
                }
                assert(node_views(nodes@) =~= listing_of(views.take(i + 1), params));
            }
            i += 1;
        }
        let ghost v3 = self@;
        let ghost listing = listing_of(views, params);
        proof {
            assert(views.take(i as int) =~= views);
        }
        let tree = match self.save_tree(&nodes) {
            Ok(t) => t,
            Err(e) => {
                proof {
                    lemma_carries_trans(v0, v3, self@);
                    lemma_grown_trans(v0, v3, self@);
                    if e.kind == ErrorKind::NotFound {
                        let id = choose|id: Id|
                            nodes_refs(listing).contains(id) && !v3.world().contains_key(id);
                        assert(nodes_refs(listing).contains(id) && !v0.world().contains_key(id));
                    }
                }
                return Err(e);
            },
        };
        proof {
            let v4 = self@;
            lemma_address(tree, tree_bytes(listing));
            lemma_carries_trans(v0, v3, v4);
            lemma_grown_trans(v0, v3, v4);
            lemma_tree_saved(v0, v3, v4, views, params);
            assert forall|id: Id| nodes_refs(listing).contains(id) implies v4.world().contains_key(
                id,
            ) by {
                assert(v3.world().contains_key(id));
            }
        }
        Ok(tree)
    }

    /// Backs up a directory: saves it, and a snapshot that is `label` with
    /// the tree of the listing. Where the repository has every chunk and
    /// the listing already, the snapshot is the only object that is
    /// written.
    ///
    /// Fails as saving the directory does, with `Invalid` also where the
    /// snapshot is too long to be stored, and with `NotFound` also where
    /// the repository has under the address of the listing a blob that is
    /// no tree.
    pub fn backup(&mut self, files: &Vec<Source>, label: Snapshot) -> (r: Result<Id, Error>)
        requires
            old(self).wf(),
        ensures
            final(self).wf(),
            final(self).reliable() == old(self).reliable(),
            final(self).spec_config() == old(self).spec_config(),
            final(self)@.key == old(self)@.key,
            final(self)@.carries(old(self)@),
            old(self)@.healthy() ==> final(self)@.healthy(),
            match r {
                Ok(sid) => archived(
                    old(self)@,
                    final(self)@,
                    source_views(files@),
                    label@,
                    old(self).spec_config().chunker,
                    sid,
                ),
                Err(e) => {
                    &&& final(self)@.roots() == old(self)@.roots()
                    &&& e.kind == ErrorKind::Invalid || e.kind == ErrorKind::NotFound || e.kind
                        == ErrorKind::Entropy || e.kind == ErrorKind::Conflict || e.kind
                        == ErrorKind::BackendTransient
                    &&& e.kind == ErrorKind::Invalid ==> unfit(
                        source_views(files@),
                        label@,
                        old(self).spec_config().chunker,
                    )
                    &&& e.kind == ErrorKind::NotFound ==> lacking(
                        old(self)@,
                        source_views(files@),
                        old(self).spec_config().chunker,
                    ) || (final(self)@.world().contains_key(
                        address(
                            tree_bytes(
                                listing_of(source_views(files@), old(self).spec_config().chunker),
                            ),
                        ),
                    ) && !final(self)@.has_tree(
                        address(
                            tree_bytes(
                                listing_of(source_views(files@), old(self).spec_config().chunker),
                            ),
                        ),
                    ))
                    &&& e.kind == ErrorKind::BackendTransient ==> !old(self).reliable()
                },
            },
            !sorted_by_name(listing_of(source_views(files@), old(self).spec_config().chunker))
                ==> (r matches Err(e) && e.kind == ErrorKind::Invalid) && final(self)@ == old(
                self,
            )@,
    {
        let ghost v0 = self@;
        let ghost params = self.config.chunker;
        let ghost views = source_views(files@);
        let tree = match self.save_dir(files) {
            Ok(t) => t,
            Err(e) => {
                return Err(e);
            },
        };
        let ghost v4 = self@;
        let mut snapshot = label;
        snapshot.tree = tree;
        assert(snapshot@ == (SnapshotView { tree, ..label@ }));
        match self.commit_snapshot(&snapshot) {
            Ok(sid) => {
                proof {
                    let v5 = self@;
                    lemma_carries_trans(v0, v4, v5);
                    lemma_committed(v0, v4, v5, views, params);
                }
                Ok(sid)
            },
            Err(e) => {
                proof {
                    lemma_carries_trans(v0, v4, self@);
                }
                Err(e)
            },
        }
    }
}

/// What saving a directory did, where it succeeded: `tree` is the address
/// of the listing, which stands in the order of its names; the repository
/// has under it a blob, has every blob that the listing names, and has
/// every chunk of the files under the address of its content; every blob
/// that is new is a data blob with a chunk or a tree with the listing;
/// the objects that were there are there, and beside them only packs and
/// index files; and where there was nothing to save, nothing has changed.
pub open spec fn dir_saved(
    old: RepoView,
    new: RepoView,
    files: Seq<SourceView>,
    params: ChunkerParams,
    tree: Id,
) -> bool {
    let nodes = listing_of(files, params);
    &&& tree == address(tree_bytes(nodes))
    &&& tree@ == digest(tree_bytes(nodes))
    &&& sorted_by_name(nodes)
    &&& parse_tree(tree_bytes(nodes)) == Some(nodes)
    &&& new.world().contains_key(tree)
    &&& forall|id: Id| nodes_refs(nodes).contains(id) ==> new.world().contains_key(id)
    &&& chunks_there(new, files, params, files.len() as int)
    &&& new.carries(old)
    &&& new.grown_from(old)
    &&& forall|x: Id| #[trigger]
        new.world().contains_key(x) && !old.world().contains_key(x) ==> holds_part(
            new,
            files,
            params,
            x,
        )
    &&& repeated(old, files, params) ==> new == old
}

/// Whether the listing of the entries names a blob that the repository
/// does not have.
pub open spec fn lacking(v: RepoView, files: Seq<SourceView>, params: ChunkerParams) -> bool {
    exists|id: Id|
        #[trigger] nodes_refs(listing_of(files, params)).contains(id) && !v.world().contains_key(
            id,
        )
}

/// An entry that is no file leaves the chunks of the files where they
/// are.
pub proof fn lemma_passed(v: RepoView, files: Seq<SourceView>, params: ChunkerParams, i: int)
    requires
        0 <= i < files.len(),
        files[i].node.kind != NodeKind::File,
        chunks_there(v, files, params, i),
    ensures
        chunks_there(v, files, params, i + 1),
{
}

/// Whether a backup of the files cannot be stored: the files are out of
/// order, or the listing or the snapshot is too long.
pub open spec fn unfit(files: Seq<SourceView>, label: SnapshotView, params: ChunkerParams) -> bool {
    let nodes = listing_of(files, params);
    ||| !sorted_by_name(nodes)
    ||| tree_bytes(nodes).len() >= MAX_MESSAGE
    ||| snapshot_bytes(SnapshotView { tree: address(tree_bytes(nodes)), ..label }).len()
        > MAX_MESSAGE
}

/// After the content of the file `i` was saved, the repository has its
/// chunks and those of the files before it, and every new blob is a
/// chunk.
pub proof fn lemma_saved(
    v0: RepoView,
    v1: RepoView,
    v2: RepoView,
    files: Seq<SourceView>,
    params: ChunkerParams,
    i: int,
    ids: Seq<Id>,
)
    requires
        0 <= i < files.len(),
        files[i].node.kind == NodeKind::File,
        v1.carries(v0),
        v2.carries(v1),
        file_saved(v1, v2, pieces(files[i].data, 0, params), ids),
        chunks_there(v1, files, params, i),
        forall|x: Id| #[trigger]
            v1.world().contains_key(x) && !v0.world().contains_key(x) ==> holds_part(
                v1,
                files,
                params,
                x,
            ),
    ensures
        ids == addresses(pieces(files[i].data, 0, params)),
        chunks_there(v2, files, params, i + 1),
        forall|x: Id| #[trigger]
            v2.world().contains_key(x) && !v0.world().contains_key(x) ==> holds_part(
                v2,
                files,
                params,
                x,
            ),
{
    let parts = pieces(files[i].data, 0, params);
    assert forall|k: int| 0 <= k < ids.len() implies ids[k] == addresses(parts)[k] by {
        lemma_address(ids[k], parts[k]);
    }
    assert(ids =~= addresses(parts));
    assert forall|j: int, k: int|
        0 <= j < i + 1 && files[j].node.kind == NodeKind::File && 0 <= k < pieces(
            files[j].data,
            0,
            params,
        ).len() implies {
        &&& v2.world().contains_key(#[trigger] addresses(pieces(files[j].data, 0, params))[k])
        &&& addresses(pieces(files[j].data, 0, params))[k]@ == digest(
            pieces(files[j].data, 0, params)[k],
        )
    } by {
        if j < i {
            assert(v1.world().contains_key(addresses(pieces(files[j].data, 0, params))[k]));
        } else {
            assert(v2.world().contains_key(ids[k]));
        }
    }
    assert forall|x: Id| #[trigger]
        v2.world().contains_key(x) && !v0.world().contains_key(x) implies holds_part(
        v2,
        files,
        params,
        x,
    ) by {
        if v1.world().contains_key(x) {
            let data = choose|data: Seq<u8>| #[trigger] part_at(v1, files, params, x, data);
            assert(v1.world().contains_key(x));
            assert(v2.world()[x].kind == v1.world()[x].kind);
            assert(v2.plain(x) == Some(data));
            assert(part_at(v2, files, params, x, data));
        } else {
            let k = choose|k: int|
                0 <= k < ids.len() && #[trigger] ids[k] == x && v2.world()[x] == (Blob {
                    kind: BlobKind::Data,
                    content: Some(parts[k]),
                });
            assert(pieces(files[i].data, 0, params)[k] == parts[k]);
            assert(is_chunk(files, params, parts[k]));
            assert(part_at(v2, files, params, x, parts[k]));
        }
    }
}

/// After the listing was saved, the repository still has every chunk, and
/// every new blob is a chunk or the listing.
pub proof fn lemma_tree_saved(
    v0: RepoView,
    v3: RepoView,
    v4: RepoView,
    files: Seq<SourceView>,
    params: ChunkerParams,
)
    requires
        v3.carries(v0),
        v4.carries(v3),
        chunks_there(v3, files, params, files.len() as int),
        forall|x: Id| #[trigger]
            v3.world().contains_key(x) && !v0.world().contains_key(x) ==> holds_part(
                v3,
                files,
                params,
                x,
            ),
        forall|x: Id| #[trigger]
            v4.world().contains_key(x) && !v3.world().contains_key(x) ==> v4.world()[x] == (
            crate::world::Blob {
                kind: crate::blob::BlobKind::Tree,
                content: Some(tree_bytes(listing_of(files, params))),
            }) && x@ == digest(tree_bytes(listing_of(files, params))),
    ensures
        chunks_there(v4, files, params, files.len() as int),
        forall|x: Id| #[trigger]
            v4.world().contains_key(x) && !v0.world().contains_key(x) ==> holds_part(
                v4,
                files,
                params,
                x,
            ),
{
    assert forall|j: int, k: int|
        0 <= j < files.len() && files[j].node.kind == NodeKind::File && 0 <= k < pieces(
            files[j].data,
            0,
            params,
        ).len() implies {
        &&& v4.world().contains_key(#[trigger] addresses(pieces(files[j].data, 0, params))[k])
        &&& addresses(pieces(files[j].data, 0, params))[k]@ == digest(
            pieces(files[j].data, 0, params)[k],
        )
    } by {
        assert(v3.world().contains_key(addresses(pieces(files[j].data, 0, params))[k]));
    }
    assert forall|x: Id| #[trigger]
        v4.world().contains_key(x) && !v0.world().contains_key(x) implies holds_part(
        v4,
        files,
        params,
        x,
    ) by {
        if v3.world().contains_key(x) {
            let data = choose|data: Seq<u8>| #[trigger] part_at(v3, files, params, x, data);
            assert(v3.world().contains_key(x));
            assert(v4.world()[x].kind == v3.world()[x].kind);
            assert(v4.plain(x) == Some(data));
            assert(part_at(v4, files, params, x, data));
        } else {
            let data = tree_bytes(listing_of(files, params));
            assert(v4.world()[x].content == Some(data));
            assert(part_at(v4, files, params, x, data));
        }
    }
}

/// After the snapshot was written the blobs are what they were.
pub proof fn lemma_committed(
    v0: RepoView,
    v4: RepoView,
    v5: RepoView,
    files: Seq<SourceView>,
    params: ChunkerParams,
)
    requires
        v4.carries(v0),
        v5.carries(v4),
        forall|id: Id| v5.world().contains_key(id) <==> v4.world().contains_key(id),
        chunks_there(v4, files, params, files.len() as int),
        forall|x: Id| #[trigger]
            v4.world().contains_key(x) && !v0.world().contains_key(x) ==> holds_part(
                v4,
                files,
                params,
                x,
            ),
    ensures
        chunks_there(v5, files, params, files.len() as int),
        forall|x: Id| #[trigger]
            v5.world().contains_key(x) && !v0.world().contains_key(x) ==> holds_part(
                v5,
                files,
                params,
                x,
            ),
{
    assert forall|j: int, k: int|
        0 <= j < files.len() && files[j].node.kind == NodeKind::File && 0 <= k < pieces(
            files[j].data,
            0,
            params,
        ).len() implies {
        &&& v5.world().contains_key(#[trigger] addresses(pieces(files[j].data, 0, params))[k])
        &&& addresses(pieces(files[j].data, 0, params))[k]@ == digest(
            pieces(files[j].data, 0, params)[k],
        )
    } by {
        assert(v4.world().contains_key(addresses(pieces(files[j].data, 0, params))[k]));
    }
    assert forall|x: Id| #[trigger]
        v5.world().contains_key(x) && !v0.world().contains_key(x) implies holds_part(
        v5,
        files,
        params,
        x,
    ) by {
        assert(v4.world().contains_key(x));
        let data = choose|data: Seq<u8>| #[trigger] part_at(v4, files, params, x, data);
            assert(v4.world().contains_key(x));
            assert(v5.world()[x].kind == v4.world()[x].kind);
            assert(v5.plain(x) == Some(data));
            assert(part_at(v5, files, params, x, data));
    }
}

} // verus!
