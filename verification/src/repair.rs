//! Repairing a repository: rebuilding the index from the packs, and
//! finding the snapshots that miss a blob.

use crate::backend::{Backend, Objects};
use crate::blob::{BlobKind, Entry, Location};
use crate::codec::get_u64;
use crate::crypto::{decrypt, MAX_MESSAGE};
use crate::error::{Error, ErrorKind, FileType};
use crate::id::{digest, Id};
use crate::idmap::IdMap;
use crate::prune::exact;
use crate::reach::{lemma_push_contains, Mark, mark_of};
use crate::repo::{install, names, place, placed, Repository};
use crate::store::{
    indexed, lemma_carries_trans, lemma_grown_trans, lemma_other_removed, lemma_same, lists,
    pack_header, Pending, read_entries, RepoView, roots_at, snapshot_in,
};
use crate::tree::{
    has_name, snapshot_bytes, insert_node, Node, node_names, node_views, nodes_refs, NodeView, parse_tree,
    Snapshot, SnapshotView, sorted_by_name, tree_bytes,
};
use crate::world::{
    complete, is_path, lemma_root_reachable, reachable, readable_tree, refs, World,
};
use vstd::prelude::*;

verus! {

/// Whether the header of the pack that the entry names lists the entry.
pub open spec fn header_lists(objects: Objects, key: Seq<u8>, e: Entry) -> bool {
    &&& objects.contains_key((FileType::Pack, e.loc.pack))
    &&& pack_header(key, objects[(FileType::Pack, e.loc.pack)]) is Some
    &&& placed(pack_header(key, objects[(FileType::Pack, e.loc.pack)]).unwrap(), e.loc.pack).contains(
        e,
    )
}

/// The addresses that the headers of the packs list.
pub open spec fn header_ids(objects: Objects, key: Seq<u8>) -> Set<Id> {
    Set::new(|id: Id| exists|e: Entry| #[trigger] header_lists(objects, key, e) && e.id == id)
}

/// Whether the snapshot cannot be read, or reaches an address under which
/// there is no blob or a tree that cannot be read.
pub open spec fn damaged(v: RepoView, sid: Id) -> bool {
    match snapshot_in(v.objects, v.key, sid) {
        None => true,
        Some(s) => exists|id: Id|
            #[trigger] reachable(v.world(), set![s.tree], id) && mark_of(v.world(), id)
                != Mark::Held,
    }
}

/// What is reachable from some roots is reachable from one of them.
pub proof fn lemma_reachable_from_one(world: World, roots: Set<Id>, id: Id)
    requires
        reachable(world, roots, id),
    ensures
        exists|r: Id| roots.contains(r) && #[trigger] reachable(world, set![r], id),
{
    let path = choose|path: Seq<Id>|
        #![auto]
        is_path(world, path) && roots.contains(path[0]) && path.last() == id;
    assert(set![path[0]].contains(path[0]));
    assert(reachable(world, set![path[0]], id));
}

/// Everything that can be reached from the tree `t` is held: no blob is
/// missing below it, and every tree below it can be read.
pub open spec fn intact(world: World, t: Id) -> bool {
    forall|id: Id| #[trigger] reachable(world, set![t], id) ==> mark_of(world, id) == Mark::Held
}

/// Every blob that the nodes name is intact.
pub open spec fn refs_intact(world: World, nodes: Seq<NodeView>) -> bool {
    forall|j: int, r: Id|
        0 <= j < nodes.len() && #[trigger] node_names(nodes[j], r) ==> intact(world, r)
}

/// Whether the world has a tree under `t` that can be read.
pub open spec fn tree_here(world: World, t: Id) -> bool {
    world.contains_key(t) && readable_tree(world[t])
}

/// The nodes of the tree under `t`.
pub open spec fn listing(world: World, t: Id) -> Seq<NodeView> {
    parse_tree(world[t].content.unwrap()).unwrap()
}

/// Whether the world has, under `t`, a tree with exactly these nodes.
pub open spec fn stored_as(world: World, t: Id, nodes: Seq<NodeView>) -> bool {
    tree_here(world, t) && listing(world, t) == nodes
}

/// Whether the world has a data blob under each of the addresses.
pub open spec fn all_there(world: World, ids: Seq<Id>) -> bool {
    forall|k: int|
        0 <= k < ids.len() ==> world.contains_key(#[trigger] ids[k]) && world[ids[k]].kind
            == BlobKind::Data
}

/// Whether the world has a data blob under every address of the node's
/// content.
pub open spec fn content_ok(world: World, n: NodeView) -> bool {
    all_there(world, n.content)
}

/// Whether `k` is the node `n`, but for the tree that a directory names.
pub open spec fn stems(k: NodeView, n: NodeView) -> bool {
    &&& k == (NodeView { subtree: k.subtree, ..n })
    &&& k.subtree is None <==> n.subtree is None
}

/// Whether every blob that `after` has and `before` lacks is a tree.
pub open spec fn only_trees(before: World, after: World) -> bool {
    forall|x: Id| #[trigger]
        after.contains_key(x) && !before.contains_key(x) ==> after[x].kind == BlobKind::Tree
}

/// Whether the world `b` has grown from the world `a`: it has every blob
/// of `a`, of the same kind and, where it could be read, with the same
/// content, and beyond them only trees.
pub open spec fn grows(a: World, b: World) -> bool {
    &&& forall|id: Id| #[trigger]
        a.contains_key(id) ==> b.contains_key(id) && b[id].kind == a[id].kind && (
        a[id].content is Some ==> b[id].content == a[id].content)
    &&& only_trees(a, b)
}

/// Whether the listing cannot be stored: it is too long for one blob, or
/// the world holds something else under its address.
pub open spec fn refused(world: World, to: Seq<NodeView>) -> bool {
    tree_bytes(to).len() >= MAX_MESSAGE || exists|id: Id|
        id@ == digest(tree_bytes(to)) && world.contains_key(id) && !#[trigger] stored_as(
            world,
            id,
            to,
        )
}

/// What came of the mended listing `to`: `Some` of its address, under
/// which the world then has it, with everything below it intact; `None`
/// where it could not be stored.
pub open spec fn settled(after: World, to: Seq<NodeView>, r: Option<Id>) -> bool {
    match r {
        Some(t) => t@ == digest(tree_bytes(to)) && stored_as(after, t, to) && intact(after, t),
        None => refused(after, to),
    }
}

/// The mending of the tree of one directory: the worlds before and after
/// it, and what it gave.
pub struct Step {
    pub from: World,
    pub to: World,
    pub given: Option<Id>,
}

/// Whether the tree of the node is mended: the node is a directory, and
/// its content is all there.
pub open spec fn descends(before: World, n: NodeView) -> bool {
    content_ok(before, n) && n.subtree is Some
}

/// Whether the node `n` was kept as `k`: its content is all there, `k` is
/// `n` but for the tree that a directory names, and a directory names the
/// tree that the mending of its tree gave.
pub open spec fn became(before: World, n: NodeView, step: Step, k: NodeView) -> bool {
    &&& content_ok(before, n)
    &&& stems(k, n)
    &&& n.subtree is Some ==> k.subtree == step.given
}

/// Whether the node `n` was rightly dropped: some of its content is not
/// there, or it is a directory and the mending of its tree gave nothing.
pub open spec fn gone(before: World, n: NodeView, step: Step) -> bool {
    !content_ok(before, n) || (n.subtree is Some && step.given is None)
}

/// Whether `k` is what one of the first `upto` nodes of `from` became.
pub open spec fn sourced(
    before: World,
    from: Seq<NodeView>,
    steps: Seq<Step>,
    upto: int,
    k: NodeView,
) -> bool {
    exists|j: int| #![trigger from[j]] 0 <= j < upto && became(before, from[j], steps[j], k)
}

/// Whether `to` is mended from the first `upto` nodes of `from`, with
/// `steps[j]` the mending of the tree of the node `j`: the mendings lie
/// between the worlds `before` and `after`; each node of `to` is what one
/// of the nodes became; and each of the nodes has kept its name in `to` or
/// was rightly dropped.
pub open spec fn mended_upto(
    before: World,
    after: World,
    from: Seq<NodeView>,
    steps: Seq<Step>,
    upto: int,
    to: Seq<NodeView>,
) -> bool {
    &&& upto <= steps.len()
    &&& forall|j: int|
        0 <= j < upto && descends(before, #[trigger] from[j]) ==> grows(before, steps[j].from)
            && grows(steps[j].to, after)
    &&& forall|a: int| 0 <= a < to.len() ==> sourced(before, from, steps, upto, #[trigger] to[a])
    &&& forall|j: int|
        0 <= j < upto ==> has_name(to, (#[trigger] from[j]).name) || gone(
            before,
            from[j],
            steps[j],
        )
}

/// What mending the tree `tree` down to `depth` levels does to a world and
/// gives. Where `depth` is 0 or the tree cannot be read, nothing changes
/// and nothing is given. Otherwise the tree of every directory of the
/// listing whose content is all there is mended down to one level less,
/// one after the other; the nodes whose content is all there are kept,
/// a directory with its mended tree and only where that was given; and the
/// listing of what is kept, in the order of the names, is stored and its
/// address given, or nothing is given where it cannot be stored.
pub open spec fn mended(before: World, after: World, tree: Id, depth: nat, r: Option<Id>) -> bool
    decreases depth,
{
    &&& grows(before, after)
    &&& if depth == 0 || !tree_here(before, tree) {
        r is None && after == before
    } else {
        exists|to: Seq<NodeView>, steps: Seq<Step>|
            #![trigger mended_upto(before, after, listing(before, tree), steps, listing(before, tree).len() as int, to)]
            {
                &&& sorted_by_name(to)
                &&& mended_upto(
                    before,
                    after,
                    listing(before, tree),
                    steps,
                    listing(before, tree).len() as int,
                    to,
                )
                &&& settled(after, to, r)
                &&& forall|j: int|
                    0 <= j < listing(before, tree).len() && descends(
                        before,
                        listing(before, tree)[j],
                    ) ==> mended(
                        (#[trigger] steps[j]).from,
                        steps[j].to,
                        listing(before, tree)[j].subtree.unwrap(),
                        (depth - 1) as nat,
                        steps[j].given,
                    )
            }
    }
}

/// Whether between the worlds `before` and `after` the tree `s` was
/// mended down to `depth` levels, with the result `r`.
pub open spec fn done(before: World, after: World, s: Id, depth: nat, r: Option<Id>) -> bool {
    exists|wa: World, wb: World|
        #![trigger grows(before, wa), grows(wb, after)]
        grows(before, wa) && grows(wb, after) && mended(wa, wb, s, depth, r)
}

/// Growing is transitive.
pub proof fn lemma_grows_trans(a: World, b: World, c: World)
    requires
        grows(a, b),
        grows(b, c),
    ensures
        grows(a, c),
{
    assert forall|id: Id| #[trigger] a.contains_key(id) implies c.contains_key(id) && c[id].kind
        == a[id].kind && (a[id].content is Some ==> c[id].content == a[id].content) by {
        assert(b.contains_key(id));
    }
    assert forall|x: Id| #[trigger] c.contains_key(x) && !a.contains_key(x) implies c[x].kind
        == BlobKind::Tree by {
        if b.contains_key(x) {
            assert(b[x].kind == BlobKind::Tree);
        }
    }
}

/// The world of a repository that carries another and has only trees
/// beyond it has grown from the world of the other.
pub proof fn lemma_grows_views(a: RepoView, b: RepoView)
    requires
        b.carries(a),
        only_trees(a.world(), b.world()),
    ensures
        grows(a.world(), b.world()),
{
    assert forall|id: Id| #[trigger] a.world().contains_key(id) implies b.world().contains_key(
        id,
    ) && b.world()[id].kind == a.world()[id].kind && (a.world()[id].content is Some
        ==> b.world()[id].content == a.world()[id].content) by {}
}

/// A listing that is mended from the first nodes is so still in a world
/// that has grown.
pub proof fn lemma_upto_grows(
    before: World,
    a: World,
    b: World,
    from: Seq<NodeView>,
    steps: Seq<Step>,
    upto: int,
    to: Seq<NodeView>,
)
    requires
        mended_upto(before, a, from, steps, upto, to),
        grows(a, b),
    ensures
        mended_upto(before, b, from, steps, upto, to),
{
    assert forall|j: int| 0 <= j < upto && descends(before, #[trigger] from[j]) implies grows(
        before,
        steps[j].from,
    ) && grows(steps[j].to, b) by {
        lemma_grows_trans(steps[j].to, a, b);
    }
}

/// A listing that is mended from the first nodes stays so with one node
/// more, where that node was rightly dropped.
pub proof fn lemma_mended_skip(
    before: World,
    after: World,
    from: Seq<NodeView>,
    steps: Seq<Step>,
    step: Step,
    i: int,
    to: Seq<NodeView>,
)
    requires
        0 <= i < from.len(),
        steps.len() == i,
        mended_upto(before, after, from, steps, i, to),
        gone(before, from[i], step),
        descends(before, from[i]) ==> grows(before, step.from) && grows(step.to, after),
    ensures
        mended_upto(before, after, from, steps.push(step), i + 1, to),
{
    let more = steps.push(step);
    assert forall|j: int| 0 <= j < i implies more[j] == steps[j] by {}
    assert(more[i] == step);
    assert forall|a: int| 0 <= a < to.len() implies sourced(
        before,
        from,
        more,
        i + 1,
        #[trigger] to[a],
    ) by {
        assert(sourced(before, from, steps, i, to[a]));
        let j = choose|j: int|
            #![trigger from[j]]
            0 <= j < i && became(before, from[j], steps[j], to[a]);
        assert(0 <= j < i + 1 && became(before, from[j], more[j], to[a]));
    }
    assert forall|j: int| 0 <= j < i + 1 implies has_name(to, (#[trigger] from[j]).name) || gone(
        before,
        from[j],
        more[j],
    ) by {
        if j < i {
            assert(has_name(to, from[j].name) || gone(before, from[j], steps[j]));
        }
    }
    assert forall|j: int| 0 <= j < i + 1 && descends(before, #[trigger] from[j]) implies grows(
        before,
        more[j].from,
    ) && grows(more[j].to, after) by {
        if j < i {
            assert(grows(before, steps[j].from) && grows(steps[j].to, after));
        }
    }
}

/// A listing that is mended from the first nodes is, with what the next
/// node has become put into it, mended from one node more.
pub proof fn lemma_mended_put(
    before: World,
    after: World,
    from: Seq<NodeView>,
    steps: Seq<Step>,
    step: Step,
    i: int,
    had: Seq<Node>,
    has: Seq<Node>,
    nv: NodeView,
)
    requires
        0 <= i < from.len(),
        steps.len() == i,
        mended_upto(before, after, from, steps, i, node_views(had)),
        became(before, from[i], step, nv),
        descends(before, from[i]) ==> grows(before, step.from) && grows(step.to, after),
        forall|name: Seq<u8>|
            has_name(node_views(has), name) <==> has_name(node_views(had), name) || name
                == nv.name,
        forall|k: int|
            0 <= k < has.len() ==> (#[trigger] has[k])@ == nv || exists|j: int|
                0 <= j < had.len() && had[j]@ == has[k]@ && had[j]@.name != nv.name,
    ensures
        mended_upto(before, after, from, steps.push(step), i + 1, node_views(has)),
{
    let to = node_views(has);
    let was = node_views(had);
    let more = steps.push(step);
    assert forall|j: int| 0 <= j < i implies more[j] == steps[j] by {}
    assert(more[i] == step);
    assert forall|a: int| 0 <= a < to.len() implies sourced(
        before,
        from,
        more,
        i + 1,
        #[trigger] to[a],
    ) by {
        assert(to[a] == has[a]@);
        if has[a]@ == nv {
            assert(0 <= i < i + 1 && became(before, from[i], more[i], to[a]));
        } else {
            let m = choose|m: int|
                0 <= m < had.len() && had[m]@ == has[a]@ && had[m]@.name != nv.name;
            assert(was[m] == had[m]@);
            assert(sourced(before, from, steps, i, was[m]));
            let j = choose|j: int|
                #![trigger from[j]]
                0 <= j < i && became(before, from[j], steps[j], was[m]);
            assert(0 <= j < i + 1 && became(before, from[j], more[j], to[a]));
        }
    }
    assert forall|j: int| 0 <= j < i + 1 implies has_name(to, (#[trigger] from[j]).name) || gone(
        before,
        from[j],
        more[j],
    ) by {
        if j < i {
            assert(has_name(was, from[j].name) || gone(before, from[j], steps[j]));
            if has_name(was, from[j].name) {
                assert(has_name(to, from[j].name));
            }
        } else {
            assert(from[j].name == nv.name);
            assert(has_name(to, nv.name));
        }
    }
    assert forall|j: int| 0 <= j < i + 1 && descends(before, #[trigger] from[j]) implies grows(
        before,
        more[j].from,
    ) && grows(more[j].to, after) by {
        if j < i {
            assert(grows(before, steps[j].from) && grows(steps[j].to, after));
        }
    }
}

/// Where only trees were added, the content of a node is all there
/// exactly where it was before.
pub proof fn lemma_content_same(a: RepoView, b: RepoView, n: NodeView)
    requires
        b.carries(a),
        only_trees(a.world(), b.world()),
    ensures
        content_ok(a.world(), n) == content_ok(b.world(), n),
{
    if content_ok(a.world(), n) {
        assert forall|k: int| 0 <= k < n.content.len() implies b.world().contains_key(
            #[trigger] n.content[k],
        ) && b.world()[n.content[k]].kind == BlobKind::Data by {
            assert(a.world().contains_key(n.content[k]));
        }
    }
    if content_ok(b.world(), n) {
        assert forall|k: int| 0 <= k < n.content.len() implies a.world().contains_key(
            #[trigger] n.content[k],
        ) && a.world()[n.content[k]].kind == BlobKind::Data by {
            assert(b.world().contains_key(n.content[k]));
            if !a.world().contains_key(n.content[k]) {
                assert(b.world()[n.content[k]].kind == BlobKind::Tree);
            }
        }
    }
}

/// Where only trees were added twice, only trees were added.
pub proof fn lemma_only_trees_trans(a: RepoView, b: RepoView, c: RepoView)
    requires
        c.carries(b),
        only_trees(a.world(), b.world()),
        only_trees(b.world(), c.world()),
    ensures
        only_trees(a.world(), c.world()),
{
    assert forall|x: Id| #[trigger]
        c.world().contains_key(x) && !a.world().contains_key(x) implies c.world()[x].kind
        == BlobKind::Tree by {
        if b.world().contains_key(x) {
            assert(b.world()[x].kind == BlobKind::Tree);
        }
    }
}

/// Where the nodes of a list name only intact blobs, and so does a node
/// put into it, the nodes of the new list name only intact blobs.
pub proof fn lemma_intact_put(world: World, before: Seq<Node>, after: Seq<Node>, nv: NodeView)
    requires
        refs_intact(world, node_views(before)),
        forall|r: Id| node_names(nv, r) ==> intact(world, r),
        forall|k: int|
            0 <= k < after.len() ==> (#[trigger] after[k])@ == nv || exists|j: int|
                0 <= j < before.len() && before[j]@ == after[k]@ && before[j]@.name != nv.name,
    ensures
        refs_intact(world, node_views(after)),
{
    assert forall|j: int, r: Id|
        0 <= j < node_views(after).len() && #[trigger] node_names(
            node_views(after)[j],
            r,
        ) implies intact(world, r) by {
        assert(node_views(after)[j] == after[j]@);
        if after[j]@ != nv {
            let m = choose|m: int|
                0 <= m < before.len() && before[m]@ == after[j]@ && before[m]@.name != nv.name;
            assert(node_views(before)[m] == before[m]@);
            assert(node_names(node_views(before)[m], r));
        }
    }
}

/// Where the nodes name only intact blobs, they do so still in a world
/// that carries the old one.
pub proof fn lemma_refs_grow(a: RepoView, b: RepoView, nodes: Seq<NodeView>)
    requires
        b.carries(a),
        refs_intact(a.world(), nodes),
    ensures
        refs_intact(b.world(), nodes),
{
    assert forall|j: int, r: Id|
        0 <= j < nodes.len() && #[trigger] node_names(nodes[j], r) implies intact(
        b.world(),
        r,
    ) by {
        lemma_intact_grows(a.world(), b.world(), r);
    }
}

/// The world has every blob that nodes name which name only intact blobs.
pub proof fn lemma_refs_there(world: World, nodes: Seq<NodeView>)
    requires
        refs_intact(world, nodes),
    ensures
        forall|id: Id| nodes_refs(nodes).contains(id) ==> world.contains_key(id),
{
    assert forall|id: Id| nodes_refs(nodes).contains(id) implies world.contains_key(id) by {
        let j = choose|j: int| 0 <= j < nodes.len() && node_names(#[trigger] nodes[j], id);
        assert(intact(world, id));
        lemma_root_reachable(world, set![id], id);
        assert(mark_of(world, id) == Mark::Held);
    }
}

/// A data blob that is there is intact.
pub proof fn lemma_intact_leaf(world: World, id: Id)
    requires
        world.contains_key(id),
        world[id].kind == BlobKind::Data,
    ensures
        intact(world, id),
{
    assert forall|x: Id| #[trigger] reachable(world, set![id], x) implies mark_of(world, x)
        == Mark::Held by {
        let path = choose|path: Seq<Id>|
            #![auto]
            is_path(world, path) && set![id].contains(path[0]) && path.last() == x;
        if path.len() > 1 {
            assert(refs(world, path[0]).contains(path[1]));
        }
    }
}

/// A tree that can be read and names only intact blobs is intact.
pub proof fn lemma_intact_tree(world: World, t: Id)
    requires
        mark_of(world, t) == Mark::Held,
        forall|r: Id| #[trigger] refs(world, t).contains(r) ==> intact(world, r),
    ensures
        intact(world, t),
{
    assert forall|x: Id| #[trigger] reachable(world, set![t], x) implies mark_of(world, x)
        == Mark::Held by {
        let path = choose|path: Seq<Id>|
            #![auto]
            is_path(world, path) && set![t].contains(path[0]) && path.last() == x;
        if path.len() > 1 {
            let rest = path.skip(1);
            assert(refs(world, path[0]).contains(path[1]));
            assert forall|i: int| 0 <= i < rest.len() - 1 implies refs(
                world,
                #[trigger] rest[i],
            ).contains(rest[i + 1]) by {
                assert(rest[i] == path[i + 1]);
                assert(rest[i + 1] == path[i + 2]);
                assert(refs(world, path[i + 1]).contains(path[i + 2]));
            }
            assert(is_path(world, rest));
            assert(rest[0] == path[1] && rest.last() == x);
            assert(set![path[1]].contains(rest[0]));
            assert(reachable(world, set![path[1]], x));
            assert(intact(world, path[1]));
        }
    }
}

/// What is intact stays intact in a world that has every blob of the old
/// one, of the same kind and, where it could be read, with the same
/// content.
pub proof fn lemma_intact_grows(w1: World, w2: World, t: Id)
    requires
        intact(w1, t),
        forall|id: Id| #[trigger]
            w1.contains_key(id) ==> w2.contains_key(id) && w2[id].kind == w1[id].kind && (
            w1[id].content is Some ==> w2[id].content == w1[id].content),
    ensures
        intact(w2, t),
{
    assert forall|id: Id| #[trigger] reachable(w1, set![t], id) implies refs(w1, id) == refs(
        w2,
        id,
    ) by {
        assert(mark_of(w1, id) == Mark::Held);
        assert(w1.contains_key(id));
    }
    crate::clean::lemma_same_reach(w1, w2, set![t]);
    assert forall|id: Id| #[trigger] reachable(w2, set![t], id) implies mark_of(w2, id)
        == Mark::Held by {
        assert(reachable(w1, set![t], id));
        assert(mark_of(w1, id) == Mark::Held);
        assert(w1.contains_key(id));
    }
}

/// A snapshot that was damaged, and the snapshot that stands in its place,
/// if any.
#[derive(Clone, Copy, Debug, PartialEq, Eq)]
pub struct Mended {
    pub old: Id,
    pub new: Option<Id>,
}

/// Whether the damaged snapshot `sid` can be read, and is with the tree
/// `t` in place of its own too long to be written.
pub open spec fn overlong(v: RepoView, sid: Id, t: Id) -> bool {
    &&& damaged(v, sid)
    &&& snapshot_in(v.objects, v.key, sid) matches Some(s) && snapshot_bytes(
        SnapshotView { tree: t, ..s },
    ).len() > MAX_MESSAGE
}

/// What became of a damaged snapshot, rightly: one that cannot be read
/// has no replacement; one that can has its tree mended down to `depth`
/// levels somewhere between the repositories `old` and `now`, and has a
/// replacement exactly where that gave a tree, which the replacement
/// names.
pub open spec fn fated(old: RepoView, now: RepoView, e: Mended, depth: nat) -> bool {
    match snapshot_in(old.objects, old.key, e.old) {
        None => e.new is None,
        Some(s) => match e.new {
            None => done(old.world(), now.world(), s.tree, depth, None),
            Some(n) => snapshot_in(now.objects, now.key, n) is Some && done(
                old.world(),
                now.world(),
                s.tree,
                depth,
                Some(snapshot_in(now.objects, now.key, n).unwrap().tree),
            ),
        },
    }
}

/// Whether the mending `step` accounts for what became of the snapshot:
/// where the snapshot can be read, its tree was mended in the step, which
/// began in a world grown from that of `old`, and there is a replacement
/// exactly where the mending gave a tree.
pub open spec fn accounts(old: RepoView, e: Mended, step: Step, depth: nat) -> bool {
    match snapshot_in(old.objects, old.key, e.old) {
        None => e.new is None,
        Some(s) => {
            &&& grows(old.world(), step.from)
            &&& mended(step.from, step.to, s.tree, depth, step.given)
            &&& (e.new is None) == (step.given is None)
        },
    }
}

/// What the steps account for is what became of the snapshots, once the
/// world has grown from the worlds in which the steps ended and every
/// replacement names the tree that its step gave.
pub proof fn lemma_fated(
    old: RepoView,
    now: RepoView,
    list: Seq<Mended>,
    steps: Seq<Step>,
    depth: nat,
)
    requires
        steps.len() == list.len(),
        forall|i: int| 0 <= i < list.len() ==> accounts(old, #[trigger] list[i], steps[i], depth),
        forall|i: int| 0 <= i < list.len() ==> grows((#[trigger] steps[i]).to, now.world()),
        forall|i: int|
            0 <= i < list.len() && (#[trigger] list[i]).new is Some ==> snapshot_in(
                now.objects,
                now.key,
                list[i].new.unwrap(),
            ) is Some && Some(
                snapshot_in(now.objects, now.key, list[i].new.unwrap()).unwrap().tree,
            ) == steps[i].given,
    ensures
        forall|i: int| 0 <= i < list.len() ==> fated(old, now, #[trigger] list[i], depth),
{
    assert forall|i: int| 0 <= i < list.len() implies fated(
        old,
        now,
        #[trigger] list[i],
        depth,
    ) by {
        assert(accounts(old, list[i], steps[i], depth));
        assert(grows(steps[i].to, now.world()));
        match snapshot_in(old.objects, old.key, list[i].old) {
            None => {},
            Some(s) => {
                assert(grows(old.world(), steps[i].from) && grows(steps[i].to, now.world())
                    && mended(steps[i].from, steps[i].to, s.tree, depth, steps[i].given));
            },
        }
    }
}

/// The worlds in which the steps ended have grown into any world that
/// has grown from the one into which they had.
pub proof fn lemma_steps_grow(steps: Seq<Step>, a: World, b: World)
    requires
        forall|i: int| 0 <= i < steps.len() ==> grows((#[trigger] steps[i]).to, a),
        grows(a, b),
    ensures
        forall|i: int| 0 <= i < steps.len() ==> grows((#[trigger] steps[i]).to, b),
{
    assert forall|i: int| 0 <= i < steps.len() implies grows((#[trigger] steps[i]).to, b) by {
        lemma_grows_trans(steps[i].to, a, b);
    }
}

/// Whether `new` is the snapshot `old` with another tree.
pub open spec fn replaces(new: SnapshotView, old: SnapshotView) -> bool {
    new == (SnapshotView { tree: new.tree, ..old })
}

/// Every snapshot that can be read has an intact tree, but for the
/// snapshots of `found` from position `j` on.
pub open spec fn mended_to(v: RepoView, found: Seq<Id>, j: int) -> bool {
    forall|sid: Id| #[trigger]
        snapshot_in(v.objects, v.key, sid) is Some ==> intact(
            v.world(),
            snapshot_in(v.objects, v.key, sid).unwrap().tree,
        ) || exists|m: int| j <= m < found.len() && found[m] == sid
}

/// Where every snapshot that can be read has an intact tree, no snapshot
/// misses a blob.
pub proof fn lemma_mended_complete(v: RepoView, found: Seq<Id>)
    requires
        mended_to(v, found, found.len() as int),
    ensures
        complete(v.world(), v.roots()),
{
    assert forall|id: Id| #[trigger] reachable(v.world(), v.roots(), id) implies v.world().contains_key(
        id,
    ) by {
        lemma_reachable_from_one(v.world(), v.roots(), id);
        let t = choose|t: Id| v.roots().contains(t) && #[trigger] reachable(v.world(), set![t], id);
        let sid = choose|sid: Id| #[trigger] roots_at(v.objects, v.key, sid, t);
        assert(snapshot_in(v.objects, v.key, sid) is Some);
        assert(intact(v.world(), t));
        assert(mark_of(v.world(), id) == Mark::Held);
    }
}

/// The snapshots that can be read stay as they are, with intact trees that
/// stay intact, where every object stays, no snapshot is added, and the
/// blobs are carried.
pub proof fn lemma_mended_grows(a: RepoView, b: RepoView, found: Seq<Id>, j: int)
    requires
        mended_to(a, found, j),
        a.key == b.key,
        b.carries(a),
        forall|k: (FileType, Id)| #[trigger]
            b.objects.contains_key(k) && k.0 == FileType::Snapshot ==> a.objects.contains_key(k)
                && a.objects[k] == b.objects[k],
    ensures
        mended_to(b, found, j),
{
    assert forall|sid: Id| #[trigger]
        snapshot_in(b.objects, b.key, sid) is Some implies intact(
        b.world(),
        snapshot_in(b.objects, b.key, sid).unwrap().tree,
    ) || exists|m: int| j <= m < found.len() && found[m] == sid by {
        assert(b.objects.contains_key((FileType::Snapshot, sid)));
        assert(snapshot_in(a.objects, a.key, sid) == snapshot_in(b.objects, b.key, sid));
        let t = snapshot_in(a.objects, a.key, sid).unwrap().tree;
        if intact(a.world(), t) {
            lemma_intact_grows(a.world(), b.world(), t);
        }
    }
}

/// What a repair of the index did.
#[derive(Clone, Debug, PartialEq, Eq)]
pub struct IndexRepair {
    /// Blobs that the index lists after the repair.
    pub blobs: usize,
    /// Packs whose header could not be read.
    pub unreadable: Vec<Id>,
}

impl<B: Backend> Repository<B> {
    /// Reads the header of a pack: its entries, or `None` where the pack
    /// does not end in a header that can be read.
    pub fn read_header(&self, pack: &Id) -> (r: Result<Option<Vec<Entry>>, Error>)
        requires
            self.wf(),
        ensures
            match r {
                Ok(Some(es)) => self@.objects.contains_key((FileType::Pack, *pack)) && pack_header(
                    self@.key,
                    self@.objects[(FileType::Pack, *pack)],
                ) == Some(es@),
                Ok(None) => self@.objects.contains_key((FileType::Pack, *pack)) && pack_header(
                    self@.key,
                    self@.objects[(FileType::Pack, *pack)],
                ) is None,
                Err(e) => {
                    &&& e.kind == ErrorKind::NotFound || e.kind == ErrorKind::BackendTransient
                    &&& e.kind == ErrorKind::NotFound ==> !self@.objects.contains_key(
                        (FileType::Pack, *pack),
                    )
                    &&& e.kind == ErrorKind::BackendTransient ==> !self.reliable()
                },
            },
    {
        let ghost bytes = self@.objects[(FileType::Pack, *pack)];
        let size = match self.backend.size(FileType::Pack, pack) {
            Ok(n) => n,
            Err(e) => {
                return Err(e);
            },
        };
        if size < 8 {
            return Ok(None);
        }
        let tail = match self.backend.read(FileType::Pack, pack, size - 8, 8) {
            Ok(t) => t,
            Err(e) => {
                return Err(Error::at(ErrorKind::BackendTransient, FileType::Pack, *pack));
            },
        };
        let h = get_u64(tail.as_slice(), 0);
        proof {
            assert(tail@.subrange(0, 8) =~= bytes.subrange(bytes.len() - 8, bytes.len() - 8 + 8));
        }
        if h > size - 8 {
            return Ok(None);
        }
        let sealed = match self.backend.read(FileType::Pack, pack, size - 8 - h, h) {
            Ok(s) => s,
            Err(e) => {
                return Err(Error::at(ErrorKind::BackendTransient, FileType::Pack, *pack));
            },
        };
        let plain = match decrypt(&self.key.bytes, sealed.as_slice()) {
            Ok(p) => p,
            Err(e) => {
                return Ok(None);
            },
        };
        Ok(read_entries(plain.as_slice()))
    }

    /// Rebuilds the index from the headers of the packs: writes one index
    /// file that lists what the headers list, then removes the index files
    /// that were there. Packs whose header cannot be read are passed over
    /// and named in the result. Fails with `Invalid` where blobs wait to be
    /// packed or where the headers list more than one index file can hold.
    pub fn repair_index(&mut self) -> (r: Result<IndexRepair, Error>)
        requires
            old(self).wf(),
        ensures
            final(self).wf(),
            final(self).reliable() == old(self).reliable(),
            final(self).spec_config() == old(self).spec_config(),
            final(self)@.key == old(self)@.key,
            final(self)@.pending == old(self)@.pending,
            final(self)@.roots() == old(self)@.roots(),
            forall|k: (FileType, Id)|
                k.0 != FileType::Index ==> (#[trigger] final(self)@.objects.contains_key(k)
                    <==> old(self)@.objects.contains_key(k)),
            forall|k: (FileType, Id)|
                k.0 != FileType::Index && #[trigger] final(self)@.objects.contains_key(k)
                    ==> final(self)@.objects[k] == old(self)@.objects[k],
            match r {
                Ok(s) => {
                    &&& exact(final(self)@)
                    &&& forall|id: Id| #[trigger]
                        final(self)@.index.contains_key(id) ==> header_lists(
                            old(self)@.objects,
                            old(self)@.key,
                            final(self)@.entry(id),
                        )
                    &&& forall|e: Entry| #[trigger]
                        header_lists(old(self)@.objects, old(self)@.key, e)
                            ==> final(self)@.index.contains_key(e.id)
                    &&& forall|p: Id| #[trigger]
                        s.unreadable@.contains(p) <==> old(self)@.objects.contains_key(
                            (FileType::Pack, p),
                        ) && pack_header(old(self)@.key, old(self)@.objects[(FileType::Pack, p)])
                            is None
                    &&& s.blobs == final(self)@.index.dom().len()
                },
                Err(e) => {
                    &&& old(self)@.pending != Map::<Id, Pending>::empty() ==> e.kind
                        == ErrorKind::Invalid && final(self)@ == old(self)@
                    &&& e.kind == ErrorKind::Invalid || e.kind == ErrorKind::Entropy || e.kind
                        == ErrorKind::Conflict || e.kind == ErrorKind::BackendTransient
                    &&& e.kind == ErrorKind::Invalid ==> old(self)@.pending != Map::<
                        Id,
                        Pending,
                    >::empty() || 89 * header_ids(old(self)@.objects, old(self)@.key).len()
                        > MAX_MESSAGE
                    &&& e.kind == ErrorKind::BackendTransient ==> !old(self).reliable()
                },
            },
    {
        if self.queue.len() > 0 {
            proof {
                assert(self.queued@.contains_key(self.queue@[0].id));
                assert(self@.pending.contains_key(self.queue@[0].id));
            }
            return Err(Error::bare(ErrorKind::Invalid));
        }
        assert(self@.pending =~= Map::<Id, Pending>::empty());
        let ghost v0 = self@;
        let packs = match self.backend.list(FileType::Pack) {
            Ok(p) => p,
            Err(e) => {
                return Err(e);
            },
        };
        let mut map: IdMap<Location> = IdMap::new();
        let mut unreadable: Vec<Id> = Vec::new();
        let mut i: usize = 0;
        assert(packs@.take(0) =~= Seq::<Id>::empty());
        while i < packs.len()
            invariant
                i <= packs@.len(),
                self.wf(),
                *self == *old(self),
                v0 == self@,
                v0 == old(self)@,
                v0.pending == Map::<Id, Pending>::empty(),
                map.wf(),
                forall|p: Id| #[trigger]
                    packs@.contains(p) <==> v0.objects.contains_key((FileType::Pack, p)),
                forall|id: Id| #[trigger]
                    map@.contains_key(id) ==> header_lists(
                        v0.objects,
                        v0.key,
                        Entry { id, loc: map@[id] },
                    ),
                forall|e: Entry| #[trigger]
                    header_lists(v0.objects, v0.key, e) && packs@.take(i as int).contains(
                        e.loc.pack,
                    ) ==> map@.contains_key(e.id),
                forall|p: Id| #[trigger]
                    unreadable@.contains(p) <==> packs@.take(i as int).contains(p) && pack_header(
                        v0.key,
                        v0.objects[(FileType::Pack, p)],
                    ) is None,
            decreases packs@.len() - i,
        {
            let p = packs[i];
            assert(packs@.contains(p));
            let ghost m0 = map@;
            let ghost u0 = unreadable@;
            proof {
                lemma_push_contains(packs@.take(i as int), p);
                assert(packs@.take(i + 1) =~= packs@.take(i as int).push(p));
            }
            match self.read_header(&p) {
                Ok(Some(es)) => {
                    let listed = place(&es, p);
                    install(&mut map, &listed);
                    proof {
                        assert forall|id: Id| #[trigger] map@.contains_key(id) implies header_lists(
                            v0.objects,
                            v0.key,
                            Entry { id, loc: map@[id] },
                        ) by {
                            if names(listed@, id) {
                                let j = choose|j: int|
                                    0 <= j < listed@.len() && (#[trigger] listed@[j]).id == id
                                        && map@[id] == listed@[j].loc;
                                assert(listed@[j] == Entry { id, loc: map@[id] });
                                assert(listed@.contains(listed@[j]));
                            } else {
                                assert(m0.contains_key(id));
                            }
                        }
                        assert forall|e: Entry| #[trigger]
                            header_lists(v0.objects, v0.key, e) && packs@.take(i + 1).contains(
                                e.loc.pack,
                            ) implies map@.contains_key(e.id) by {
                            assert(packs@.take(i as int).push(p).contains(e.loc.pack)
                                <==> packs@.take(i as int).contains(e.loc.pack) || e.loc.pack
                                == p);
                            if e.loc.pack == p {
                                let j = choose|j: int| 0 <= j < listed@.len() && listed@[j] == e;
                                assert(listed@[j].id == e.id);
                                assert(names(listed@, e.id));
                            } else {
                                assert(m0.contains_key(e.id));
                            }
                        }
                        assert forall|q: Id| #[trigger]
                            unreadable@.contains(q) <==> packs@.take(i + 1).contains(q)
                                && pack_header(v0.key, v0.objects[(FileType::Pack, q)])
                                is None by {
                            assert(packs@.take(i as int).push(p).contains(q) <==> packs@.take(
                                i as int,
                            ).contains(q) || q == p);
                        }
                    }
                },
                Ok(None) => {
                    unreadable.push(p);
                    proof {
                        lemma_push_contains(u0, p);
                        assert(unreadable@ == u0.push(p));
                        assert forall|q: Id| #[trigger]
                            unreadable@.contains(q) <==> packs@.take(i + 1).contains(q)
                                && pack_header(v0.key, v0.objects[(FileType::Pack, q)])
                                is None by {
                            assert(packs@.take(i as int).push(p).contains(q) <==> packs@.take(
                                i as int,
                            ).contains(q) || q == p);
                            assert(u0.push(p).contains(q) <==> u0.contains(q) || q == p);
                        }
                        assert forall|e: Entry| #[trigger]
                            header_lists(v0.objects, v0.key, e) && packs@.take(i + 1).contains(
                                e.loc.pack,
                            ) implies map@.contains_key(e.id) by {
                            assert(packs@.take(i as int).push(p).contains(e.loc.pack)
                                <==> packs@.take(i as int).contains(e.loc.pack) || e.loc.pack
                                == p);
                        }
                    }
                },
                Err(e) => {
                    return Err(Error::at(ErrorKind::BackendTransient, FileType::Pack, p));
                },
            }
            i += 1;
        }
        assert(packs@.take(packs@.len() as int) =~= packs@);
        let files = match self.backend.list(FileType::Index) {
            Ok(f) => f,
            Err(e) => {
                return Err(e);
            },
        };
        let blobs = map.len();
        proof {
            assert forall|id: Id| map@.dom().contains(id) <==> header_ids(
                v0.objects,
                v0.key,
            ).contains(id) by {
                if map@.contains_key(id) {
                    assert(header_lists(v0.objects, v0.key, Entry { id, loc: map@[id] }));
                }
                if header_ids(v0.objects, v0.key).contains(id) {
                    let e = choose|e: Entry| #[trigger]
                        header_lists(v0.objects, v0.key, e) && e.id == id;
                    assert(packs@.contains(e.loc.pack));
                }
            }
            assert(map@.dom() =~= header_ids(v0.objects, v0.key));
        }
        let n = match self.write_index(map) {
            Ok(n) => n,
            Err(e) => {
                return Err(e);
            },
        };
        let ghost v1 = self@;
        let dropped = self.drop_indexes(&files, &n);
        proof {
            let v2 = self@;
            assert forall|k: (FileType, Id)|
                k.0 != FileType::Index implies (#[trigger] v2.objects.contains_key(k)
                <==> v0.objects.contains_key(k)) by {
                if v0.objects.contains_key(k) {
                    assert(v1.objects.contains_key(k));
                }
                if v2.objects.contains_key(k) {
                    assert(v1.objects.contains_key(k));
                }
            }
            assert forall|k: (FileType, Id)|
                k.0 != FileType::Index && #[trigger] v2.objects.contains_key(k) implies v2.objects[k]
                == v0.objects[k] by {
                assert(v1.objects.contains_key(k));
            }
        }
        match dropped {
            Ok(()) => {},
            Err(e) => {
                return Err(e);
            },
        }
        proof {
            let v2 = self@;
            assert forall|e: Entry| #[trigger]
                indexed(v2.objects, v2.key, e) <==> v2.index.contains_key(e.id) && v2.index[e.id]
                    == e.loc by {
                if indexed(v2.objects, v2.key, e) {
                    let f = choose|f: Id| #[trigger] lists(v2.objects, v2.key, f, e);
                    if f != n {
                        assert(v1.objects.contains_key((FileType::Index, f)));
                        assert(v0.objects.contains_key((FileType::Index, f)));
                        assert(files@.contains(f));
                    }
                }
                if v2.index.contains_key(e.id) && v2.index[e.id] == e.loc {
                    assert(lists(v2.objects, v2.key, n, e));
                }
            }
            assert forall|e: Entry| #[trigger]
                header_lists(v0.objects, v0.key, e) implies v2.index.contains_key(e.id) by {
                assert(packs@.contains(e.loc.pack));
            }
            assert forall|p: Id| #[trigger]
                unreadable@.contains(p) <==> v0.objects.contains_key((FileType::Pack, p))
                    && pack_header(v0.key, v0.objects[(FileType::Pack, p)]) is None by {}
            self.index.lemma_keys();
        }
        Ok(IndexRepair { blobs, unreadable })
    }

    /// The kind of the blob under an address, where the repository has one.
    pub fn kind_of(&self, id: &Id) -> (r: Option<BlobKind>)
        requires
            self.wf(),
        ensures
            r == (if self@.world().contains_key(*id) {
                Some(self@.world()[*id].kind)
            } else {
                None
            }),
    {
        match self.queued.get(id) {
            Some(pos) => Some(self.queue[*pos].kind),
            None => match self.index.get(id) {
                Some(loc) => Some(loc.kind),
                None => None,
            },
        }
    }

    /// Whether the repository has a data blob under each of the addresses.
    pub fn all_data(&self, ids: &Vec<Id>) -> (r: bool)
        requires
            self.wf(),
        ensures
            r == all_there(self@.world(), ids@),
    {
        let mut k: usize = 0;
        while k < ids.len()
            invariant
                k <= ids@.len(),
                self.wf(),
                forall|m: int|
                    0 <= m < k ==> self@.world().contains_key(#[trigger] ids@[m])
                        && self@.world()[ids@[m]].kind == BlobKind::Data,
            decreases ids@.len() - k,
        {
            match self.kind_of(&ids[k]) {
                Some(BlobKind::Data) => {},
                _ => {
                    return false;
                },
            }
            k += 1;
        }
        true
    }

    /// Whether the tree `id` is stored as a tree with exactly these nodes.
    fn holds_tree(&self, id: &Id, nodes: &Vec<Node>) -> (r: Result<bool, Error>)
        requires
            self.wf(),
        ensures
            match r {
                Ok(held) => held == stored_as(self@.world(), *id, node_views(nodes@)),
                Err(e) => e.kind == ErrorKind::BackendTransient && !self.reliable(),
            },
    {
        match self.kind_of(id) {
            Some(BlobKind::Tree) => {},
            _ => {
                return Ok(false);
            },
        }
        let stored = match self.load_tree(id) {
            Ok(n) => n,
            Err(e) => {
                if e.kind == ErrorKind::BackendTransient {
                    return Err(Error::bare(ErrorKind::BackendTransient));
                }
                return Ok(false);
            },
        };
        assert(stored_as(self@.world(), *id, node_views(stored@)));
        if stored.len() != nodes.len() {
            assert(node_views(stored@).len() != node_views(nodes@).len());
            return Ok(false);
        }
        let mut i: usize = 0;
        while i < stored.len()
            invariant
                i <= stored@.len(),
                stored@.len() == nodes@.len(),
                stored_as(self@.world(), *id, node_views(stored@)),
                forall|j: int| 0 <= j < i ==> (#[trigger] stored@[j])@ == nodes@[j]@,
            decreases stored@.len() - i,
        {
            if !stored[i].same(&nodes[i]) {
                assert(node_views(stored@)[i as int] != node_views(nodes@)[i as int]);
                return Ok(false);
            }
            i += 1;
        }
        assert(node_views(stored@) =~= node_views(nodes@));
        Ok(true)
    }

    /// Writes the tree `tree` anew without what is damaged below it. A
    /// node is kept where the repository has a data blob under every
    /// address of its content and, for a directory, where its tree could
    /// be mended one level further down; a kept directory names its mended
    /// tree. The mended tree is intact. Gives `None` where `depth` is 0,
    /// where the tree cannot be read, and where the mended listing cannot
    /// be stored. Only trees are added to the repository. Fails only as
    /// the backend or the random source does, and not at all where
    /// `depth` is 0 or the repository has no tree under the address.
    pub fn mend_tree(&mut self, tree: &Id, depth: u32) -> (r: Result<Option<Id>, Error>)
        requires
            old(self).wf(),
        ensures
            final(self).wf(),
            final(self).reliable() == old(self).reliable(),
            final(self).spec_config() == old(self).spec_config(),
            final(self)@.key == old(self)@.key,
            final(self)@.grown_from(old(self)@),
            final(self)@.roots() == old(self)@.roots(),
            final(self)@.carries(old(self)@),
            old(self)@.healthy() ==> final(self)@.healthy(),
            only_trees(old(self)@.world(), final(self)@.world()),
            depth == 0 || !tree_here(old(self)@.world(), *tree) ==> final(self)@ == old(self)@,
            match r {
                Ok(given) => {
                    &&& mended(
                        old(self)@.world(),
                        final(self)@.world(),
                        *tree,
                        depth as nat,
                        given,
                    )
                    &&& given matches Some(t) ==> tree_here(final(self)@.world(), t) && intact(
                        final(self)@.world(),
                        t,
                    )
                },
                Err(e) => {
                    &&& e.kind == ErrorKind::Entropy || e.kind == ErrorKind::Conflict || e.kind
                        == ErrorKind::BackendTransient
                    &&& e.kind == ErrorKind::BackendTransient ==> !old(self).reliable()
                },
            },
            depth == 0 || !old(self)@.has_tree(*tree) ==> r is Ok,
        decreases depth,
    {
        let ghost v0 = self@;
        proof {
            lemma_same(v0);
            lemma_grows_views(v0, v0);
        }
        if depth == 0 {
            return Ok(None);
        }
        match self.kind_of(tree) {
            Some(BlobKind::Tree) => {},
            _ => {
                return Ok(None);
            },
        }
        let nodes = match self.load_tree(tree) {
            Ok(n) => n,
            Err(e) => {
                if e.kind == ErrorKind::BackendTransient {
                    return Err(e);
                }
                return Ok(None);
            },
        };
        let ghost from = node_views(nodes@);
        let ghost below = (depth - 1) as nat;
        let ghost mut steps: Seq<Step> = Seq::empty();
        assert(stored_as(v0.world(), *tree, from));
        let mut kept: Vec<Node> = Vec::new();
        let mut i: usize = 0;
        while i < nodes.len()
            invariant
                i <= nodes@.len(),
                depth > 0,
                below == (depth - 1) as nat,
                self.wf(),
                self.reliable() == old(self).reliable(),
                self.spec_config() == old(self).spec_config(),
                v0 == old(self)@,
                from == node_views(nodes@),
                stored_as(v0.world(), *tree, from),
                self@.key == v0.key,
                self@.grown_from(v0),
                self@.roots() == v0.roots(),
                self@.carries(v0),
                v0.healthy() ==> self@.healthy(),
                only_trees(v0.world(), self@.world()),
                sorted_by_name(node_views(kept@)),
                refs_intact(self@.world(), node_views(kept@)),
                steps.len() == i,
                mended_upto(v0.world(), self@.world(), from, steps, i as int, node_views(kept@)),
                forall|j: int|
                    0 <= j < i && descends(v0.world(), from[j]) ==> mended(
                        (#[trigger] steps[j]).from,
                        steps[j].to,
                        from[j].subtree.unwrap(),
                        below,
                        steps[j].given,
                    ),
            decreases nodes@.len() - i,
        {
            let ghost v1 = self@;
            let ghost before = kept@;
            let mut node = copy_node(&nodes[i]);
            let ghost was = node@;
            assert(was == from[i as int]);
            let mut keep = self.all_data(&node.content);
            let ghost mut given: Option<Id> = None;
            proof {
                lemma_content_same(v0, v1, was);
                assert(keep == content_ok(v0.world(), was));
                lemma_grows_views(v0, v1);
            }
            if keep {
                match node.subtree {
                    Some(sub) => {
                        match self.mend_tree(&sub, depth - 1) {
                            Ok(Some(m)) => {
                                node.subtree = Some(m);
                                proof {
                                    given = Some(m);
                                }
                            },
                            Ok(None) => {
                                keep = false;
                            },
                            Err(e) => {
                                proof {
                                    lemma_carries_trans(v0, v1, self@);
                                    lemma_grown_trans(v0, v1, self@);
                                    lemma_only_trees_trans(v0, v1, self@);
                                }
                                return Err(e);
                            },
                        }
                    },
                    None => {},
                }
            }
            let ghost v2 = self@;
            let ghost nv = node@;
            let ghost step = Step { from: v1.world(), to: v2.world(), given };
            proof {
                lemma_carries_trans(v0, v1, v2);
                lemma_grown_trans(v0, v1, v2);
                lemma_only_trees_trans(v0, v1, v2);
                lemma_refs_grow(v1, v2, node_views(before));
                lemma_grows_views(v1, v2);
                lemma_grows_views(v2, v2);
                lemma_upto_grows(
                    v0.world(),
                    v1.world(),
                    v2.world(),
                    from,
                    steps,
                    i as int,
                    node_views(before),
                );
                if keep {
                    assert(stems(nv, was));
                    assert(became(v0.world(), was, step, nv));
                    assert forall|r: Id| node_names(nv, r) implies intact(v2.world(), r) by {
                        if nv.content.contains(r) {
                            let k = choose|k: int| 0 <= k < nv.content.len() && nv.content[k] == r;
                            assert(v1.world().contains_key(was.content[k]));
                            lemma_intact_leaf(v2.world(), r);
                        }
                    }
                } else {
                    assert(gone(v0.world(), was, step));
                    lemma_mended_skip(
                        v0.world(),
                        v2.world(),
                        from,
                        steps,
                        step,
                        i as int,
                        node_views(before),
                    );
                }
            }
            if keep {
                insert_node(&mut kept, node);
                proof {
                    lemma_intact_put(v2.world(), before, kept@, nv);
                    lemma_mended_put(
                        v0.world(),
                        v2.world(),
                        from,
                        steps,
                        step,
                        i as int,
                        before,
                        kept@,
                        nv,
                    );
                }
            }
            proof {
                let more = steps.push(step);
                assert forall|j: int| 0 <= j < i + 1 && descends(v0.world(), from[j]) implies mended(
                    (#[trigger] more[j]).from,
                    more[j].to,
                    from[j].subtree.unwrap(),
                    below,
                    more[j].given,
                ) by {
                    if j < i {
                        assert(more[j] == steps[j]);
                    }
                }
                steps = more;
            }
            i += 1;
        }
        let ghost v3 = self@;
        let ghost to = node_views(kept@);
        proof {
            lemma_refs_there(v3.world(), to);
            lemma_grows_views(v0, v3);
        }
        let id = match self.save_tree(&kept) {
            Ok(id) => id,
            Err(e) => {
                proof {
                    lemma_carries_trans(v0, v3, self@);
                    lemma_grown_trans(v0, v3, self@);
                }
                if e.kind == ErrorKind::Invalid || e.kind == ErrorKind::NotFound {
                    proof {
                        assert(e.kind == ErrorKind::Invalid);
                        assert(self@ == v3);
                        assert(refused(v3.world(), to));
                        assert(mended_upto(
                            v0.world(),
                            v3.world(),
                            from,
                            steps,
                            from.len() as int,
                            to,
                        ) && settled(v3.world(), to, None));
                    }
                    return Ok(None);
                }
                proof {
                    lemma_only_trees_trans(v0, v3, self@);
                }
                return Err(e);
            },
        };
        let ghost v4 = self@;
        proof {
            lemma_carries_trans(v0, v3, v4);
            lemma_grown_trans(v0, v3, v4);
            lemma_only_trees_trans(v0, v3, v4);
            lemma_grows_views(v3, v4);
            lemma_grows_views(v0, v4);
            lemma_upto_grows(v0.world(), v3.world(), v4.world(), from, steps, from.len() as int, to);
        }
        match self.holds_tree(&id, &kept) {
            Ok(true) => {
                proof {
                    lemma_refs_grow(v3, v4, to);
                    assert(refs(v4.world(), id) == nodes_refs(to));
                    assert forall|r: Id| #[trigger] refs(v4.world(), id).contains(r) implies intact(
                        v4.world(),
                        r,
                    ) by {
                        let j = choose|j: int| 0 <= j < to.len() && node_names(#[trigger] to[j], r);
                        assert(intact(v4.world(), r));
                    }
                    lemma_intact_tree(v4.world(), id);
                    assert(mended_upto(
                        v0.world(),
                        v4.world(),
                        from,
                        steps,
                        from.len() as int,
                        to,
                    ) && settled(v4.world(), to, Some(id)));
                }
                Ok(Some(id))
            },
            Ok(false) => {
                proof {
                    assert(v4.world().contains_key(id) && !stored_as(v4.world(), id, to));
                    assert(refused(v4.world(), to));
                    assert(mended_upto(
                        v0.world(),
                        v4.world(),
                        from,
                        steps,
                        from.len() as int,
                        to,
                    ) && settled(v4.world(), to, None));
                }
                Ok(None)
            },
            Err(e) => Err(e),
        }
    }

    /// Mends the damaged snapshots: each is replaced by a snapshot of its
    /// tree without what is damaged below it, or removed where it cannot be
    /// read or its tree cannot be mended down to `depth` levels; a
    /// snapshot whose tree can be mended has its replacement. Afterwards
    /// no snapshot misses a blob. Fails with `Invalid` where blobs wait to
    /// be packed, or where a damaged snapshot is with its mended tree too
    /// long to be written; beyond that only as the backend or the random
    /// source fails.
    #[verifier::spinoff_prover]
    #[verifier::rlimit(40)]
    pub fn mend_snapshots(&mut self, depth: u32) -> (r: Result<Vec<Mended>, Error>)
        requires
            old(self).wf(),
        ensures
            final(self).wf(),
            final(self).reliable() == old(self).reliable(),
            final(self).spec_config() == old(self).spec_config(),
            final(self)@.key == old(self)@.key,
            final(self)@.carries(old(self)@),
            forall|k: (FileType, Id)| #[trigger]
                old(self)@.objects.contains_key(k) && k.0 != FileType::Snapshot
                    ==> final(self)@.objects.contains_key(k) && final(self)@.objects[k] == old(
                    self,
                )@.objects[k],
            match r {
                Ok(list) => {
                    &&& complete(final(self)@.world(), final(self)@.roots())
                    &&& forall|i: int|
                        0 <= i < list@.len() ==> {
                            &&& damaged(old(self)@, (#[trigger] list@[i]).old)
                            &&& list@[i].new matches Some(n) ==> {
                                &&& snapshot_in(final(self)@.objects, final(self)@.key, n) is Some
                                &&& snapshot_in(
                                    old(self)@.objects,
                                    old(self)@.key,
                                    list@[i].old,
                                ) is Some
                                &&& replaces(
                                    snapshot_in(final(self)@.objects, final(self)@.key, n).unwrap(),
                                    snapshot_in(
                                        old(self)@.objects,
                                        old(self)@.key,
                                        list@[i].old,
                                    ).unwrap(),
                                )
                                &&& intact(
                                    final(self)@.world(),
                                    snapshot_in(
                                        final(self)@.objects,
                                        final(self)@.key,
                                        n,
                                    ).unwrap().tree,
                                )
                            }
                        }
                    &&& forall|i: int|
                        0 <= i < list@.len() ==> fated(
                            old(self)@,
                            final(self)@,
                            #[trigger] list@[i],
                            depth as nat,
                        )
                    &&& forall|sid: Id|
                        old(self)@.objects.contains_key((FileType::Snapshot, sid)) && damaged(
                            old(self)@,
                            sid,
                        ) ==> !final(self)@.objects.contains_key((FileType::Snapshot, sid))
                            && exists|i: int|
                            0 <= i < list@.len() && (#[trigger] list@[i]).old == sid
                },
                Err(e) => {
                    &&& old(self)@.pending != Map::<Id, Pending>::empty() ==> e.kind
                        == ErrorKind::Invalid && final(self)@ == old(self)@
                    &&& e.kind == ErrorKind::Invalid || e.kind == ErrorKind::Entropy || e.kind
                        == ErrorKind::Conflict || e.kind == ErrorKind::BackendTransient
                    &&& e.kind == ErrorKind::Invalid ==> old(self)@.pending != Map::<
                        Id,
                        Pending,
                    >::empty() || exists|sid: Id, t: Id| #[trigger] overlong(old(self)@, sid, t)
                    &&& e.kind == ErrorKind::BackendTransient ==> !old(self).reliable()
                },
            },
            old(self)@.pending != Map::<Id, Pending>::empty() ==> r is Err,
    {
        let ghost v0 = self@;
        proof {
            lemma_same(v0);
        }
        let found = match self.repair_snapshots(false) {
            Ok(f) => f,
            Err(e) => {
                return Err(e);
            },
        };
        // Nothing waits, or finding the damaged snapshots would have failed.
        assert(self@ == v0);
        assert(v0.pending == Map::<Id, Pending>::empty());
        proof {
            assert(v0.world() =~= v0.stored());
            assert forall|sid: Id| #[trigger]
                snapshot_in(v0.objects, v0.key, sid) is Some implies intact(
                v0.world(),
                snapshot_in(v0.objects, v0.key, sid).unwrap().tree,
            ) || exists|m: int| 0 <= m < found@.len() && found@[m] == sid by {
                if damaged(v0, sid) {
                    assert(found@.contains(sid));
                }
            }
        }
        proof {
            assert forall|m: int| 0 <= m < found@.len() implies v0.objects.contains_key(
                (FileType::Snapshot, #[trigger] found@[m]),
            ) by {
                assert(found@.contains(found@[m]));
            }
        }
        let mut list: Vec<Mended> = Vec::new();
        let ghost mut steps: Seq<Step> = Seq::empty();
        let mut j: usize = 0;
        while j < found.len()
            invariant
                j <= found@.len(),
                self.wf(),
                self.reliable() == old(self).reliable(),
                self.spec_config() == old(self).spec_config(),
                v0 == old(self)@,
                v0.pending == Map::<Id, Pending>::empty(),
                self@.key == v0.key,
                self@.carries(v0),
                list@.len() == j,
                forall|sid: Id| #[trigger]
                    found@.contains(sid) <==> v0.objects.contains_key((FileType::Snapshot, sid))
                        && damaged(v0, sid),
                forall|k: (FileType, Id)| #[trigger]
                    v0.objects.contains_key(k) && k.0 != FileType::Snapshot
                        ==> self@.objects.contains_key(k) && self@.objects[k] == v0.objects[k],
                forall|k: (FileType, Id)| #[trigger]
                    v0.objects.contains_key(k) && !found@.contains(k.1)
                        ==> self@.objects.contains_key(k) && self@.objects[k] == v0.objects[k],
                mended_to(self@, found@, j as int),
                found@.no_duplicates(),
                forall|m: int|
                    j <= m < found@.len() ==> self@.objects.contains_key(
                        (FileType::Snapshot, #[trigger] found@[m]),
                    ),
                only_trees(v0.world(), self@.world()),
                steps.len() == j,
                forall|i: int|
                    0 <= i < j ==> accounts(v0, #[trigger] list@[i], steps[i], depth as nat),
                forall|i: int| 0 <= i < j ==> grows((#[trigger] steps[i]).to, self@.world()),
                forall|k: (FileType, Id)| #[trigger]
                    self@.objects.contains_key(k) && v0.objects.contains_key(k)
                        ==> self@.objects[k] == v0.objects[k],
                forall|m: int|
                    0 <= m < j ==> !self@.objects.contains_key(
                        (FileType::Snapshot, #[trigger] found@[m]),
                    ),
                forall|i: int|
                    0 <= i < j ==> {
                        &&& (#[trigger] list@[i]).old == found@[i]
                        &&& list@[i].new matches Some(n) ==> {
                            &&& snapshot_in(self@.objects, self@.key, n) is Some
                            &&& Some(snapshot_in(self@.objects, self@.key, n).unwrap().tree)
                                == steps[i].given
                            &&& !found@.contains(n)
                            &&& snapshot_in(v0.objects, v0.key, found@[i]) is Some
                            &&& replaces(
                                snapshot_in(self@.objects, self@.key, n).unwrap(),
                                snapshot_in(v0.objects, v0.key, found@[i]).unwrap(),
                            )
                        }
                    },
            decreases found@.len() - j,
        {
            let sid = found[j];
            assert(found@.contains(sid));
            let ghost v1 = self@;
            let ghost done = list@;
            let loaded = match self.load_snapshot(&sid) {
                Ok(s) => Some(s),
                Err(e) => {
                    if e.kind == ErrorKind::BackendTransient {
                        return Err(e);
                    }
                    None
                },
            };
            let mut new: Option<Id> = None;
            let ghost mut was: Option<SnapshotView> = None;
            let ghost mut step = Step { from: v1.world(), to: v1.world(), given: None };
            proof {
                lemma_grows_views(v0, v1);
            }
            match loaded {
                Some(s) => {
                    proof {
                        was = Some(s@);
                        assert(snapshot_in(v1.objects, v1.key, sid) == Some(s@));
                        assert(v1.objects.contains_key((FileType::Snapshot, sid)));
                        assert(v0.objects.contains_key((FileType::Snapshot, sid)));
                        assert(snapshot_in(v0.objects, v0.key, sid) == Some(s@));
                    }
                    let mended = match self.mend_tree(&s.tree, depth) {
                        Ok(m) => m,
                        Err(e) => {
                            proof {
                                lemma_carries_trans(v0, v1, self@);
                            }
                            return Err(e);
                        },
                    };
                    let ghost v2 = self@;
                    proof {
                        lemma_carries_trans(v0, v1, v2);
                        lemma_mended_grows(v1, v2, found@, j as int);
                        lemma_only_trees_trans(v0, v1, v2);
                        step = Step { from: v1.world(), to: v2.world(), given: mended };
                    }
                    match mended {
                        Some(t) => {
                            let fresh = Snapshot {
                                time: s.time,
                                host: s.host,
                                paths: s.paths,
                                tags: s.tags,
                                parent: s.parent,
                                tree: t,
                            };
                            match self.commit_snapshot(&fresh) {
                                Ok(n) => {
                                    if has_id(&found, &n) {
                                        proof {
                                            lemma_carries_trans(v0, v2, self@);
                                        }
                                        return Err(
                                            Error::at(ErrorKind::Conflict, FileType::Snapshot, n),
                                        );
                                    }
                                    proof {
                                        let v3 = self@;
                                        lemma_carries_trans(v0, v2, v3);
                                        lemma_only_trees_trans(v0, v2, v3);
                                        lemma_intact_grows(v2.world(), v3.world(), t);
                                        assert(snapshot_in(v3.objects, v3.key, n) == Some(fresh@));
                                        assert(replaces(fresh@, was.unwrap()));
                                        assert(!v0.objects.contains_key((FileType::Snapshot, n)))
                                            by {
                                            if v0.objects.contains_key((FileType::Snapshot, n)) {
                                                assert(v2.objects.contains_key(
                                                    (FileType::Snapshot, n),
                                                ));
                                            }
                                        }
                                        assert forall|x: Id| #[trigger]
                                            snapshot_in(v3.objects, v3.key, x)
                                                is Some implies intact(
                                            v3.world(),
                                            snapshot_in(v3.objects, v3.key, x).unwrap().tree,
                                        ) || exists|m: int|
                                            j <= m < found@.len() && found@[m] == x by {
                                            if x != n {
                                                assert(v3.objects.contains_key(
                                                    (FileType::Snapshot, x),
                                                ));
                                                assert(v2.objects.contains_key(
                                                    (FileType::Snapshot, x),
                                                ));
                                                assert(snapshot_in(v2.objects, v2.key, x)
                                                    == snapshot_in(v3.objects, v3.key, x));
                                                let tx = snapshot_in(
                                                    v2.objects,
                                                    v2.key,
                                                    x,
                                                ).unwrap().tree;
                                                if intact(v2.world(), tx) {
                                                    lemma_intact_grows(v2.world(), v3.world(), tx);
                                                }
                                            }
                                        }
                                    }
                                    new = Some(n);
                                },
                                Err(e) => {
                                    proof {
                                        lemma_carries_trans(v0, v2, self@);
                                        assert(v2.has_tree(t));
                                        if e.kind == ErrorKind::Invalid {
                                            assert(fresh@ == (SnapshotView { tree: t, ..s@ }));
                                            assert(overlong(v0, sid, t));
                                        }
                                    }
                                    return Err(e);
                                },
                            }
                        },
                        None => {},
                    }
                },
                None => {},
            }
            let ghost v4 = self@;
            match self.backend.remove(FileType::Snapshot, &sid) {
                Ok(()) => {
                    proof {
                        lemma_other_removed(v4, self@, FileType::Snapshot, sid);
                        lemma_carries_trans(v0, v4, self@);
                    }
                },
                Err(e) => {
                    if e.kind != ErrorKind::NotFound {
                        return Err(Error::at(ErrorKind::BackendTransient, FileType::Snapshot, sid));
                    }
                    assert(self@ == v4);
                },
            }
            list.push(Mended { old: sid, new });
            proof {
                let v5 = self@;
                let more = steps.push(step);
                assert(v5.world() == v4.world());
                lemma_carries_trans(v1, v4, v5);
                lemma_grows_views(v1, v5);
                lemma_steps_grow(steps, v1.world(), v5.world());
                assert(grows(step.to, v5.world())) by {
                    if step.to != v1.world() {
                        lemma_same(v5);
                        lemma_grows_views(v5, v5);
                    }
                }
                assert forall|i: int| 0 <= i < j + 1 implies grows(
                    (#[trigger] more[i]).to,
                    v5.world(),
                ) by {
                    if i < j {
                        assert(more[i] == steps[i]);
                    }
                }
                assert forall|i: int| 0 <= i < j + 1 implies accounts(
                    v0,
                    #[trigger] list@[i],
                    more[i],
                    depth as nat,
                ) by {
                    if i < j {
                        assert(list@[i] == done[i]);
                        assert(more[i] == steps[i]);
                    } else {
                        assert(v1.objects.contains_key((FileType::Snapshot, found@[j as int])));
                        assert(v0.objects.contains_key((FileType::Snapshot, sid)));
                        assert(snapshot_in(v0.objects, v0.key, sid) == snapshot_in(
                            v1.objects,
                            v1.key,
                            sid,
                        ));
                        assert(snapshot_in(v0.objects, v0.key, sid) == was);
                    }
                }
                assert forall|m: int| j + 1 <= m < found@.len() implies v5.objects.contains_key(
                    (FileType::Snapshot, #[trigger] found@[m]),
                ) by {
                    assert(found@[m] != found@[j as int]);
                    assert(v1.objects.contains_key((FileType::Snapshot, found@[m])));
                    assert(v4.objects.contains_key((FileType::Snapshot, found@[m])));
                }
                assert(!v5.objects.contains_key((FileType::Snapshot, sid)));
                assert forall|i: int| 0 <= i < j + 1 implies {
                    &&& (#[trigger] list@[i]).old == found@[i]
                    &&& list@[i].new matches Some(n) ==> {
                        &&& snapshot_in(v5.objects, v5.key, n) is Some
                        &&& Some(snapshot_in(v5.objects, v5.key, n).unwrap().tree) == more[i].given
                        &&& !found@.contains(n)
                        &&& snapshot_in(v0.objects, v0.key, found@[i]) is Some
                        &&& replaces(
                            snapshot_in(v5.objects, v5.key, n).unwrap(),
                            snapshot_in(v0.objects, v0.key, found@[i]).unwrap(),
                        )
                    }
                } by {
                    if i < j {
                        assert(list@[i] == done[i]);
                        if done[i].new is Some {
                            let n = done[i].new.unwrap();
                            assert(snapshot_in(v1.objects, v1.key, n) is Some);
                            assert(v1.objects.contains_key((FileType::Snapshot, n)));
                            assert(n != sid);
                            assert(v4.objects.contains_key((FileType::Snapshot, n)));
                            assert(v5.objects.contains_key((FileType::Snapshot, n)));
                            assert(snapshot_in(v5.objects, v5.key, n) == snapshot_in(
                                v1.objects,
                                v1.key,
                                n,
                            ));
                        }
                    } else {
                        if new is Some {
                            let n = new.unwrap();
                            assert(n != sid);
                            assert(snapshot_in(v5.objects, v5.key, n) == snapshot_in(
                                v4.objects,
                                v4.key,
                                n,
                            ));
                        }
                    }
                }
                assert forall|x: Id| #[trigger]
                    snapshot_in(v5.objects, v5.key, x) is Some implies intact(
                    v5.world(),
                    snapshot_in(v5.objects, v5.key, x).unwrap().tree,
                ) || exists|m: int| j + 1 <= m < found@.len() && found@[m] == x by {
                    assert(x != sid);
                    assert(snapshot_in(v4.objects, v4.key, x) == snapshot_in(
                        v5.objects,
                        v5.key,
                        x,
                    ));
                    let tx = snapshot_in(v4.objects, v4.key, x).unwrap().tree;
                    if !intact(v4.world(), tx) {
                        let m = choose|m: int| j <= m < found@.len() && found@[m] == x;
                        assert(m != j);
                    }
                }
            }
            proof {
                steps = steps.push(step);
            }
            j += 1;
        }
        proof {
            lemma_fated(v0, self@, list@, steps, depth as nat);
            assert forall|i: int| 0 <= i < list@.len() && (#[trigger] list@[i]).new is Some implies intact(
                self@.world(),
                snapshot_in(self@.objects, self@.key, list@[i].new.unwrap()).unwrap().tree,
            ) by {
                let n = list@[i].new.unwrap();
                assert(snapshot_in(self@.objects, self@.key, n) is Some);
            }
            lemma_mended_complete(self@, found@);
            assert forall|sid: Id|
                v0.objects.contains_key((FileType::Snapshot, sid)) && damaged(
                    v0,
                    sid,
                ) implies !self@.objects.contains_key((FileType::Snapshot, sid)) && exists|
                i: int,
            |
                0 <= i < list@.len() && (#[trigger] list@[i]).old == sid by {
                assert(found@.contains(sid));
                let m = choose|m: int| 0 <= m < found@.len() && found@[m] == sid;
                assert(list@[m].old == sid);
                assert(!self@.objects.contains_key((FileType::Snapshot, found@[m])));
            }
        }
        Ok(list)
    }

    /// Whether every address of a walk was found held.
    pub fn all_held(seen: &IdMap<Mark>) -> (r: bool)
        requires
            seen.wf(),
        ensures
            r == (forall|id: Id| #[trigger] seen@.contains_key(id) ==> seen@[id] == Mark::Held),
    {
        let keys = seen.keys();
        let mut i: usize = 0;
        while i < keys.len()
            invariant
                i <= keys@.len(),
                seen.wf(),
                forall|k: Id| #[trigger] keys@.contains(k) <==> seen@.contains_key(k),
                forall|j: int| 0 <= j < i ==> seen@[#[trigger] keys@[j]] == Mark::Held,
            decreases keys@.len() - i,
        {
            let k = keys[i];
            assert(keys@.contains(k));
            let mark = match seen.get(&k) {
                Some(m) => *m,
                None => Mark::Held,
            };
            match mark {
                Mark::Held => {},
                _ => {
                    return false;
                },
            }
            i += 1;
        }
        proof {
            assert forall|id: Id| #[trigger] seen@.contains_key(id) implies seen@[id]
                == Mark::Held by {
                assert(keys@.contains(id));
                let j = choose|j: int| 0 <= j < keys@.len() && keys@[j] == id;
                assert(seen@[keys@[j]] == Mark::Held);
            }
        }
        true
    }

    /// Finds the damaged snapshots: those that cannot be read, and those
    /// that reach an address under which there is no blob or a tree that
    /// cannot be read. With `remove` they are removed, and then no
    /// snapshot misses a blob. Fails with `Invalid` exactly where blobs
    /// wait to be packed; on a reliable backend it does not fail
    /// otherwise.
    pub fn repair_snapshots(&mut self, remove: bool) -> (r: Result<Vec<Id>, Error>)
        requires
            old(self).wf(),
        ensures
            final(self).wf(),
            final(self).reliable() == old(self).reliable(),
            final(self).spec_config() == old(self).spec_config(),
            final(self)@.key == old(self)@.key,
            final(self)@.index == old(self)@.index,
            final(self)@.pending == old(self)@.pending,
            final(self)@.world() == old(self)@.world(),
            !remove ==> final(self)@ == old(self)@,
            forall|k: (FileType, Id)| #[trigger]
                final(self)@.objects.contains_key(k) ==> old(self)@.objects.contains_key(k)
                    && final(self)@.objects[k] == old(self)@.objects[k],
            forall|k: (FileType, Id)| #[trigger]
                old(self)@.objects.contains_key(k) && !final(self)@.objects.contains_key(k) ==> k.0
                    == FileType::Snapshot && damaged(old(self)@, k.1),
            match r {
                Ok(found) => {
                    &&& found@.no_duplicates()
                    &&& forall|sid: Id| #[trigger]
                        found@.contains(sid) <==> old(self)@.objects.contains_key(
                            (FileType::Snapshot, sid),
                        ) && damaged(old(self)@, sid)
                    &&& remove ==> forall|sid: Id| #[trigger]
                        found@.contains(sid) ==> !final(self)@.objects.contains_key(
                            (FileType::Snapshot, sid),
                        )
                    &&& remove ==> complete(final(self)@.world(), final(self)@.roots())
                },
                Err(e) => {
                    &&& e.kind == ErrorKind::Invalid || e.kind == ErrorKind::BackendTransient
                    &&& e.kind == ErrorKind::Invalid <==> old(self)@.pending != Map::<
                        Id,
                        Pending,
                    >::empty()
                    &&& e.kind == ErrorKind::Invalid ==> final(self)@ == old(self)@
                    &&& e.kind == ErrorKind::BackendTransient ==> !old(self).reliable()
                },
            },
            old(self)@.pending != Map::<Id, Pending>::empty() ==> r is Err,
            old(self).reliable() && old(self)@.pending == Map::<Id, Pending>::empty() ==> r is Ok,
    {
        if self.queue.len() > 0 {
            proof {
                assert(self.queued@.contains_key(self.queue@[0].id));
                assert(self@.pending.contains_key(self.queue@[0].id));
            }
            return Err(Error::bare(ErrorKind::Invalid));
        }
        assert(self@.pending =~= Map::<Id, Pending>::empty());
        let ghost v0 = self@;
        let ids = match self.backend.list(FileType::Snapshot) {
            Ok(ids) => ids,
            Err(e) => {
                return Err(e);
            },
        };
        let mut found: Vec<Id> = Vec::new();
        let mut i: usize = 0;
        assert(ids@.take(0) =~= Seq::<Id>::empty());
        while i < ids.len()
            invariant
                i <= ids@.len(),
                self.wf(),
                *self == *old(self),
                v0 == self@,
                v0 == old(self)@,
                v0.pending == Map::<Id, Pending>::empty(),
                forall|id: Id| #[trigger]
                    ids@.contains(id) <==> v0.objects.contains_key((FileType::Snapshot, id)),
                forall|sid: Id| #[trigger]
                    found@.contains(sid) <==> ids@.take(i as int).contains(sid) && damaged(v0, sid),
                ids@.no_duplicates(),
                found@.no_duplicates(),
            decreases ids@.len() - i,
        {
            let sid = ids[i];
            assert(ids@.contains(sid));
            let ghost f0 = found@;
            proof {
                lemma_push_contains(ids@.take(i as int), sid);
                assert(ids@.take(i + 1) =~= ids@.take(i as int).push(sid));
            }
            let bad = match self.load_snapshot(&sid) {
                Ok(s) => {
                    let mut root: Vec<Id> = Vec::new();
                    root.push(s.tree);
                    assert(root@ =~= seq![s.tree]);
                    proof {
                        assert forall|x: Id| root@.to_set().contains(x) <==> set![s.tree].contains(
                            x,
                        ) by {
                            if root@.contains(x) {
                                let m = choose|m: int| 0 <= m < root@.len() && root@[m] == x;
                                assert(root@[m] == s.tree);
                            }
                            if x == s.tree {
                                assert(root@[0] == x);
                            }
                        }
                        assert(root@.to_set() =~= set![s.tree]);
                    }
                    let seen = match self.reach(&root) {
                        Ok(seen) => seen,
                        Err(e) => {
                            return Err(e);
                        },
                    };
                    let fine = Self::all_held(&seen);
                    proof {
                        assert(snapshot_in(v0.objects, v0.key, sid) == Some(s@));
                        assert(s@.tree == s.tree);
                        if !fine {
                            let id = choose|id: Id| #[trigger]
                                seen@.contains_key(id) && seen@[id] != Mark::Held;
                            assert(reachable(v0.world(), set![s.tree], id));
                            assert(mark_of(v0.world(), id) != Mark::Held);
                            assert(damaged(v0, sid));
                        } else {
                            assert forall|id: Id| #[trigger]
                                reachable(v0.world(), set![s.tree], id) implies mark_of(
                                v0.world(),
                                id,
                            ) == Mark::Held by {
                                assert(seen@.contains_key(id));
                            }
                            assert(!damaged(v0, sid));
                        }
                    }
                    !fine
                },
                Err(e) => {
                    if e.kind != ErrorKind::Corrupt {
                        return Err(Error::at(ErrorKind::BackendTransient, FileType::Snapshot, sid));
                    }
                    assert(damaged(v0, sid));
                    true
                },
            };
            assert(bad == damaged(v0, sid));
            if bad {
                found.push(sid);
                proof {
                    lemma_push_contains(f0, sid);
                    assert(found@ == f0.push(sid));
                    assert(!f0.contains(sid)) by {
                        if ids@.take(i as int).contains(sid) {
                            let m = choose|m: int|
                                0 <= m < i && ids@.take(i as int)[m] == sid;
                            assert(ids@[m] == ids@[i as int]);
                        }
                    }
                    assert forall|a: int, b: int|
                        0 <= a < found@.len() && 0 <= b < found@.len() && a != b implies found@[a]
                        != found@[b] by {
                        if a < f0.len() && b < f0.len() {
                            assert(f0[a] != f0[b]);
                        } else if a < f0.len() {
                            assert(f0.contains(f0[a]));
                        } else if b < f0.len() {
                            assert(f0.contains(f0[b]));
                        }
                    }
                }
            }
            proof {
                assert forall|x: Id| #[trigger]
                    found@.contains(x) <==> ids@.take(i + 1).contains(x) && damaged(v0, x) by {
                    assert(ids@.take(i as int).push(sid).contains(x) <==> ids@.take(
                        i as int,
                    ).contains(x) || x == sid);
                    if bad {
                        assert(f0.push(sid).contains(x) <==> f0.contains(x) || x == sid);
                    }
                }
            }
            i += 1;
        }
        assert(ids@.take(ids@.len() as int) =~= ids@);
        if !remove {
            return Ok(found);
        }
        let mut j: usize = 0;
        while j < found.len()
            invariant
                j <= found@.len(),
                remove,
                found@.no_duplicates(),
                self.wf(),
                self.reliable() == old(self).reliable(),
                self.spec_config() == old(self).spec_config(),
                v0 == old(self)@,
                v0.pending == Map::<Id, Pending>::empty(),
                self@ == (RepoView { objects: self@.objects, ..v0 }),
                self@.world() == v0.world(),
                forall|sid: Id| #[trigger]
                    found@.contains(sid) <==> v0.objects.contains_key((FileType::Snapshot, sid))
                        && damaged(v0, sid),
                forall|k: (FileType, Id)| #[trigger]
                    self@.objects.contains_key(k) ==> v0.objects.contains_key(k)
                        && self@.objects[k] == v0.objects[k],
                forall|k: (FileType, Id)| #[trigger]
                    v0.objects.contains_key(k) && !self@.objects.contains_key(k) ==> k.0
                        == FileType::Snapshot && found@.contains(k.1),
                forall|m: int|
                    0 <= m < j ==> !self@.objects.contains_key(
                        (FileType::Snapshot, #[trigger] found@[m]),
                    ),
            decreases found@.len() - j,
        {
            let sid = found[j];
            assert(found@.contains(sid));
            let ghost before = self@;
            match self.backend.remove(FileType::Snapshot, &sid) {
                Ok(()) => {
                    proof {
                        lemma_other_removed(before, self@, FileType::Snapshot, sid);
                    }
                },
                Err(e) => {
                    if e.kind != ErrorKind::NotFound {
                        return Err(Error::at(ErrorKind::BackendTransient, FileType::Snapshot, sid));
                    }
                    assert(self@ == before);
                },
            }
            j += 1;
        }
        proof {
            let v1 = self@;
            assert forall|sid: Id| #[trigger] found@.contains(sid) implies !v1.objects.contains_key(
                (FileType::Snapshot, sid),
            ) by {
                let m = choose|m: int| 0 <= m < found@.len() && found@[m] == sid;
                assert(!v1.objects.contains_key((FileType::Snapshot, found@[m])));
            }
            assert forall|id: Id| #[trigger]
                reachable(v1.world(), v1.roots(), id) implies v1.world().contains_key(id) by {
                lemma_reachable_from_one(v1.world(), v1.roots(), id);
                let t = choose|t: Id| v1.roots().contains(t) && #[trigger] reachable(
                    v1.world(),
                    set![t],
                    id,
                );
                let sid = choose|sid: Id| #[trigger] roots_at(v1.objects, v1.key, sid, t);
                assert(v0.objects.contains_key((FileType::Snapshot, sid)));
                assert(snapshot_in(v0.objects, v0.key, sid) == snapshot_in(
                    v1.objects,
                    v1.key,
                    sid,
                ));
                assert(!found@.contains(sid));
                assert(!damaged(v0, sid));
                assert(mark_of(v0.world(), id) == Mark::Held);
            }
        }
        Ok(found)
    }
}

/// Whether the list has the address.
pub fn has_id(ids: &Vec<Id>, id: &Id) -> (r: bool)
    ensures
        r == ids@.contains(*id),
{
    let mut i: usize = 0;
    while i < ids.len()
        invariant
            i <= ids@.len(),
            forall|j: int| 0 <= j < i ==> ids@[j] != *id,
        decreases ids@.len() - i,
    {
        if ids[i].same(id) {
            return true;
        }
        i += 1;
    }
    false
}

/// A copy of a node.
pub fn copy_node(node: &Node) -> (out: Node)
    ensures
        out@ == node@,
{
    let mut content: Vec<Id> = Vec::new();
    let mut i: usize = 0;
    while i < node.content.len()
        invariant
            i <= node.content@.len(),
            content@ == node.content@.take(i as int),
        decreases node.content@.len() - i,
    {
        content.push(node.content[i]);
        assert(node.content@.take(i + 1) =~= node.content@.take(i as int).push(
            node.content@[i as int],
        ));
        i += 1;
    }
    assert(node.content@.take(node.content@.len() as int) =~= node.content@);
    let name = crate::crypto::copy_range(node.name.as_slice(), 0, node.name.len());
    let target = crate::crypto::copy_range(node.target.as_slice(), 0, node.target.len());
    assert(name@ =~= node.name@);
    assert(target@ =~= node.target@);
    Node {
        name,
        kind: node.kind,
        mode: node.mode,
        uid: node.uid,
        gid: node.gid,
        mtime: node.mtime,
        size: node.size,
        content,
        subtree: node.subtree,
        target,
    }
}

} // verus!
