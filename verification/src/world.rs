//! The blobs of a repository as a graph, and what is reachable in it.
//!
//! The world maps each indexed address to the blob found there. A tree blob
//! names the blobs of its nodes; a blob is reachable where a chain of such
//! names leads to it from a root.

use crate::blob::BlobKind;
use crate::id::{digest, Id};
use crate::tree::{parse_tree, tree_refs};
use vstd::prelude::*;

verus! {

/// What the index and the packs hold for one address: the kind that the
/// index states, and the content where the segment can be read.
pub struct Blob {
    pub kind: BlobKind,
    pub content: Option<Seq<u8>>,
}

/// The blobs of a repository by address.
pub type World = Map<Id, Blob>;

/// The addresses that the blob at `id` names: those of its nodes where it
/// is a readable tree, none otherwise.
pub open spec fn refs(world: World, id: Id) -> Set<Id> {
    if world.contains_key(id) && world[id].kind == BlobKind::Tree {
        match world[id].content {
            Some(c) => match tree_refs(c) {
                Some(r) => r,
                None => Set::empty(),
            },
            None => Set::empty(),
        }
    } else {
        Set::empty()
    }
}

/// A chain of addresses in which each names the next.
pub open spec fn is_path(world: World, path: Seq<Id>) -> bool {
    &&& path.len() > 0
    &&& forall|i: int|
        0 <= i < path.len() - 1 ==> refs(world, #[trigger] path[i]).contains(path[i + 1])
}

/// Whether a chain leads from one of the roots to `id`.
pub open spec fn reachable(world: World, roots: Set<Id>, id: Id) -> bool {
    exists|path: Seq<Id>|
        #![auto]
        is_path(world, path) && roots.contains(path[0]) && path.last() == id
}

/// The blob can be read, has the content that the address stands for, and
/// is a well-formed tree where it is said to be a tree.
pub open spec fn blob_ok(id: Id, blob: Blob) -> bool {
    &&& blob.content is Some
    &&& digest(blob.content.unwrap()) == id@
    &&& blob.kind == BlobKind::Tree ==> parse_tree(blob.content.unwrap()) is Some
}

/// Whether the blob is a tree that can be read.
pub open spec fn readable_tree(blob: Blob) -> bool {
    &&& blob.kind == BlobKind::Tree
    &&& blob.content is Some
    &&& parse_tree(blob.content.unwrap()) is Some
}

/// Every blob can be read, has the content that its address stands for,
/// and is a well-formed tree where the index says it is a tree.
pub open spec fn sound(world: World) -> bool {
    forall|id: Id| #[trigger] world.contains_key(id) ==> blob_ok(id, world[id])
}

/// Every address that a blob names is itself in the world.
pub open spec fn closed(world: World) -> bool {
    forall|id: Id, r: Id| #[trigger] refs(world, id).contains(r) ==> world.contains_key(r)
}

/// Every root is in the world.
pub open spec fn rooted(world: World, roots: Set<Id>) -> bool {
    forall|r: Id| #[trigger] roots.contains(r) ==> world.contains_key(r)
}

/// Every reachable address is in the world: no snapshot misses a blob.
pub open spec fn complete(world: World, roots: Set<Id>) -> bool {
    forall|id: Id| #[trigger] reachable(world, roots, id) ==> world.contains_key(id)
}

/// A root is reachable.
pub proof fn lemma_root_reachable(world: World, roots: Set<Id>, r: Id)
    requires
        roots.contains(r),
    ensures
        reachable(world, roots, r),
{
    let path = seq![r];
    assert(is_path(world, path));
    assert(path[0] == r && path.last() == r);
}

/// What a reachable blob names is reachable.
pub proof fn lemma_step_reachable(world: World, roots: Set<Id>, a: Id, b: Id)
    requires
        reachable(world, roots, a),
        refs(world, a).contains(b),
    ensures
        reachable(world, roots, b),
{
    let path = choose|path: Seq<Id>|
        #![auto]
        is_path(world, path) && roots.contains(path[0]) && path.last() == a;
    let longer = path.push(b);
    assert forall|i: int| 0 <= i < longer.len() - 1 implies refs(
        world,
        #[trigger] longer[i],
    ).contains(longer[i + 1]) by {
        if i < path.len() - 1 {
            assert(longer[i] == path[i]);
            assert(longer[i + 1] == path[i + 1]);
        } else {
            assert(longer[i] == a);
        }
    }
    assert(is_path(world, longer));
    assert(longer[0] == path[0] && longer.last() == b);
}

proof fn lemma_path_stays(world: World, s: Set<Id>, path: Seq<Id>)
    requires
        is_path(world, path),
        s.contains(path[0]),
        forall|a: Id, b: Id| s.contains(a) && #[trigger] refs(world, a).contains(b) ==> s.contains(b),
    ensures
        s.contains(path.last()),
    decreases path.len(),
{
    if path.len() > 1 {
        let front = path.drop_last();
        assert forall|i: int| 0 <= i < front.len() - 1 implies refs(
            world,
            #[trigger] front[i],
        ).contains(front[i + 1]) by {
            assert(front[i] == path[i]);
            assert(front[i + 1] == path[i + 1]);
        }
        assert(front[0] == path[0]);
        lemma_path_stays(world, s, front);
        let k = path.len() - 2;
        assert(front.last() == path[k]);
        assert(refs(world, path[k]).contains(path[k + 1]));
    }
}

/// A set that holds the roots and, with each member, what the member
/// names, holds everything reachable.
pub proof fn lemma_reachable_within(world: World, roots: Set<Id>, s: Set<Id>)
    requires
        forall|r: Id| roots.contains(r) ==> s.contains(r),
        forall|a: Id, b: Id| s.contains(a) && #[trigger] refs(world, a).contains(b) ==> s.contains(b),
    ensures
        forall|id: Id| #[trigger] reachable(world, roots, id) ==> s.contains(id),
{
    assert forall|id: Id| #[trigger] reachable(world, roots, id) implies s.contains(id) by {
        let path = choose|path: Seq<Id>|
            #![auto]
            is_path(world, path) && roots.contains(path[0]) && path.last() == id;
        lemma_path_stays(world, s, path);
    }
}

/// In a closed world that holds its roots no snapshot misses a blob.
pub proof fn lemma_closed_complete(world: World, roots: Set<Id>)
    requires
        closed(world),
        rooted(world, roots),
    ensures
        complete(world, roots),
{
    lemma_reachable_within(world, roots, world.dom());
}

proof fn lemma_path_carries(w1: World, w2: World, roots: Set<Id>, path: Seq<Id>)
    requires
        is_path(w1, path),
        roots.contains(path[0]),
        forall|id: Id| #[trigger] reachable(w1, roots, id) ==> refs(w1, id) == refs(w2, id),
    ensures
        is_path(w2, path),
        reachable(w1, roots, path.last()),
    decreases path.len(),
{
    if path.len() == 1 {
        lemma_root_reachable(w1, roots, path[0]);
        assert(is_path(w2, path));
    } else {
        let front = path.drop_last();
        assert forall|i: int| 0 <= i < front.len() - 1 implies refs(w1, #[trigger] front[i]).contains(
            front[i + 1],
        ) by {
            assert(front[i] == path[i]);
            assert(front[i + 1] == path[i + 1]);
        }
        assert(front[0] == path[0]);
        lemma_path_carries(w1, w2, roots, front);
        let k = path.len() - 2;
        assert(front.last() == path[k]);
        assert(refs(w1, path[k]).contains(path[k + 1]));
        lemma_step_reachable(w1, roots, path[k], path[k + 1]);
        assert forall|i: int| 0 <= i < path.len() - 1 implies refs(w2, #[trigger] path[i]).contains(
            path[i + 1],
        ) by {
            if i < k {
                assert(front[i] == path[i]);
                assert(front[i + 1] == path[i + 1]);
            } else {
                assert(refs(w1, path[k]) == refs(w2, path[k]));
            }
        }
    }
}

/// Where a second world gives every blob that is reachable in the first
/// the same names, everything reachable in the first is reachable in the
/// second.
pub proof fn lemma_reachable_carries(w1: World, w2: World, roots: Set<Id>)
    requires
        forall|id: Id| #[trigger] reachable(w1, roots, id) ==> refs(w1, id) == refs(w2, id),
    ensures
        forall|id: Id| #[trigger] reachable(w1, roots, id) ==> reachable(w2, roots, id),
{
    assert forall|id: Id| #[trigger] reachable(w1, roots, id) implies reachable(
        w2,
        roots,
        id,
    ) by {
        let path = choose|path: Seq<Id>|
            #![auto]
            is_path(w1, path) && roots.contains(path[0]) && path.last() == id;
        lemma_path_carries(w1, w2, roots, path);
    }
}

} // verus!
