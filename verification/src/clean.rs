//! The health of a store, told from its objects alone.
//!
//! Whatever is in memory is lost when a process ends. What a repository
//! is after it is opened again depends on the objects of its backend and on
//! nothing else; this file says when those objects make a clean
//! repository.

use crate::backend::Objects;
use crate::blob::{blob_at, Entry, Location};
use crate::error::FileType;
use crate::id::Id;
use crate::store::{indexed, lists, Pending, RepoView, roots, roots_at};
use crate::world::{
    Blob, blob_ok, complete, lemma_closed_complete, lemma_reachable_carries,
    lemma_reachable_within, lemma_root_reachable, lemma_step_reachable, reachable, refs, sound,
    World,
};
use vstd::prelude::*;

verus! {

/// Whether some index file lists an entry for `id`.
pub open spec fn held(objects: Objects, key: Seq<u8>, id: Id) -> bool {
    exists|loc: Location| #[trigger] indexed(objects, key, Entry { id, loc })
}

/// Entries that index files list for the same address agree on the kind
/// and on the content of the blob.
pub open spec fn agreeing(objects: Objects, key: Seq<u8>) -> bool {
    forall|a: Entry, b: Entry|
        #[trigger] indexed(objects, key, a) && #[trigger] indexed(objects, key, b) && a.id == b.id
            ==> a.loc.kind == b.loc.kind && blob_at(objects, key, a.loc) == blob_at(
            objects,
            key,
            b.loc,
        )
}

/// Where the index files list the blob `id`: one of the listed places.
pub open spec fn place(objects: Objects, key: Seq<u8>, id: Id) -> Location {
    choose|loc: Location| #[trigger] indexed(objects, key, Entry { id, loc })
}

/// The blobs that the index files list.
pub open spec fn store_world(objects: Objects, key: Seq<u8>) -> World {
    Map::new(
        |id: Id| held(objects, key, id),
        |id: Id|
            Blob {
                kind: place(objects, key, id).kind,
                content: blob_at(objects, key, place(objects, key, id)),
            },
    )
}

/// The store is clean: the index files agree with each other, every blob
/// that they list can be read and is what its address says, and no
/// snapshot reaches an address that they do not list.
pub open spec fn store_clean(objects: Objects, key: Seq<u8>) -> bool {
    &&& agreeing(objects, key)
    &&& sound(store_world(objects, key))
    &&& complete(store_world(objects, key), roots(objects, key))
}

/// Where the index files agree, every synced index gives the blobs that
/// the index files list.
pub proof fn lemma_synced_world(v: RepoView)
    requires
        v.synced(),
        agreeing(v.objects, v.key),
    ensures
        v.stored() == store_world(v.objects, v.key),
        v.coherent(),
{
    let w = store_world(v.objects, v.key);
    assert forall|id: Id| v.stored().contains_key(id) == w.contains_key(id) by {
        if v.index.contains_key(id) {
            assert(indexed(v.objects, v.key, v.entry(id)));
        }
        if held(v.objects, v.key, id) {
            let loc = place(v.objects, v.key, id);
            assert(indexed(v.objects, v.key, Entry { id, loc }));
        }
    }
    assert forall|id: Id| v.stored().contains_key(id) implies v.stored()[id] == w[id] by {
        assert(indexed(v.objects, v.key, v.entry(id)));
        let loc = place(v.objects, v.key, id);
        assert(indexed(v.objects, v.key, Entry { id, loc }));
    }
    assert(v.stored() =~= w);
    assert forall|e: Entry| #[trigger] indexed(v.objects, v.key, e) implies {
        &&& v.index.contains_key(e.id)
        &&& e.loc.kind == v.index[e.id].kind
        &&& blob_at(v.objects, v.key, e.loc) == blob_at(v.objects, v.key, v.index[e.id])
    } by {
        assert(indexed(v.objects, v.key, v.entry(e.id)));
    }
}

/// Crash safety: whoever opens a clean store finds a repository in which
/// every blob can be read and no snapshot misses a blob.
pub proof fn law_reopen_clean(v: RepoView)
    requires
        v.synced(),
        v.pending == Map::<Id, Pending>::empty(),
        store_clean(v.objects, v.key),
    ensures
        sound(v.world()),
        complete(v.world(), v.roots()),
        v.coherent(),
{
    lemma_synced_world(v);
    assert(v.world() =~= v.stored());
}

/// A repository that a check finds clean lives on a clean store, where
/// its index files agree with the index in memory: where every blob can
/// be read and is what its address says, and no snapshot misses a blob.
pub proof fn law_checked_is_clean(v: RepoView)
    requires
        v.backed(),
        v.coherent(),
        v.pending == Map::<Id, Pending>::empty(),
        sound(v.world()),
        complete(v.world(), v.roots()),
    ensures
        v.synced(),
        store_clean(v.objects, v.key),
{
    assert(v.world() =~= v.stored());
    assert forall|a: Entry, b: Entry|
        #[trigger] indexed(v.objects, v.key, a) && #[trigger] indexed(v.objects, v.key, b) && a.id
            == b.id implies a.loc.kind == b.loc.kind && blob_at(v.objects, v.key, a.loc)
        == blob_at(v.objects, v.key, b.loc) by {}
    lemma_synced_world(v);
}

/// Crash safety as a whole. A check found the repository `before`
/// clean: every blob can be read and is what its address says, no
/// snapshot misses a blob, and the index files agree with the index. A
/// prune ran on it and stopped somewhere, at its end or on an error or
/// because the process died between two of its writes, and left the
/// objects of `after`: a prune leaves a clean store clean wherever it
/// stops.
/// Whoever opens what it left, with the index read from the index files,
/// finds that a check is clean again: every blob can be read and is what
/// its address says, and no snapshot misses a blob.
pub proof fn law_crash_safe(before: RepoView, after: RepoView)
    requires
        before.backed(),
        before.coherent(),
        before.pending == Map::<Id, Pending>::empty(),
        sound(before.world()),
        complete(before.world(), before.roots()),
        store_clean(before.objects, before.key) ==> store_clean(after.objects, after.key),
        after.synced(),
        after.pending == Map::<Id, Pending>::empty(),
    ensures
        sound(after.world()),
        complete(after.world(), after.roots()),
        after.coherent(),
{
    law_checked_is_clean(before);
    law_reopen_clean(after);
}

/// A healthy repository in which nothing waits lives on a clean store.
pub proof fn law_healthy_is_clean(v: RepoView)
    requires
        v.backed(),
        v.healthy(),
        v.pending == Map::<Id, Pending>::empty(),
    ensures
        v.synced(),
        store_clean(v.objects, v.key),
{
    assert(v.world() =~= v.stored());
    assert forall|a: Entry, b: Entry|
        #[trigger] indexed(v.objects, v.key, a) && #[trigger] indexed(v.objects, v.key, b) && a.id
            == b.id implies a.loc.kind == b.loc.kind && blob_at(v.objects, v.key, a.loc)
        == blob_at(v.objects, v.key, b.loc) by {}
    lemma_synced_world(v);
    lemma_closed_complete(v.world(), v.roots());
}

proof fn lemma_refs_same(whole: World, part: World, id: Id)
    requires
        part.contains_key(id),
        whole.contains_key(id),
        part[id] == whole[id],
    ensures
        refs(part, id) == refs(whole, id),
{
}

proof fn lemma_part_reaches(whole: World, part: World, roots: Set<Id>)
    requires
        forall|id: Id| #[trigger]
            part.contains_key(id) ==> whole.contains_key(id) && part[id] == whole[id],
        forall|id: Id| #[trigger] reachable(whole, roots, id) ==> part.contains_key(id),
    ensures
        forall|id: Id| #[trigger] reachable(whole, roots, id) ==> reachable(part, roots, id),
{
    assert forall|id: Id| #[trigger] reachable(whole, roots, id) implies refs(whole, id) == refs(
        part,
        id,
    ) by {
        assert(part.contains_key(id));
        lemma_refs_same(whole, part, id);
    }
    lemma_reachable_carries(whole, part, roots);
}

proof fn lemma_part_reached(whole: World, part: World, roots: Set<Id>)
    requires
        forall|id: Id| #[trigger]
            part.contains_key(id) ==> whole.contains_key(id) && part[id] == whole[id],
        forall|id: Id| #[trigger] reachable(whole, roots, id) ==> part.contains_key(id),
    ensures
        forall|id: Id| #[trigger] reachable(part, roots, id) ==> reachable(whole, roots, id),
{
    let s = Set::new(|id: Id| reachable(whole, roots, id));
    assert forall|r: Id| roots.contains(r) implies s.contains(r) by {
        lemma_root_reachable(whole, roots, r);
    }
    assert forall|a: Id, b: Id| s.contains(a) && #[trigger] refs(part, a).contains(b) implies s.contains(
        b,
    ) by {
        assert(reachable(whole, roots, a));
        assert(part.contains_key(a));
        lemma_refs_same(whole, part, a);
        lemma_step_reachable(whole, roots, a, b);
    }
    lemma_reachable_within(part, roots, s);
    assert forall|id: Id| #[trigger] reachable(part, roots, id) implies reachable(
        whole,
        roots,
        id,
    ) by {
        assert(s.contains(id));
    }
}

/// Two worlds in which every blob that the first reaches names the same
/// reach the same.
pub proof fn lemma_same_reach(w1: World, w2: World, roots: Set<Id>)
    requires
        forall|id: Id| #[trigger] reachable(w1, roots, id) ==> refs(w1, id) == refs(w2, id),
    ensures
        forall|id: Id| reachable(w1, roots, id) <==> reachable(w2, roots, id),
{
    lemma_reachable_carries(w1, w2, roots);
    let s = Set::new(|id: Id| reachable(w1, roots, id));
    assert forall|r: Id| roots.contains(r) implies s.contains(r) by {
        lemma_root_reachable(w1, roots, r);
    }
    assert forall|a: Id, b: Id| s.contains(a) && #[trigger] refs(w2, a).contains(b) implies s.contains(
        b,
    ) by {
        assert(reachable(w1, roots, a));
        assert(refs(w1, a) == refs(w2, a));
        lemma_step_reachable(w1, roots, a, b);
    }
    lemma_reachable_within(w2, roots, s);
    assert forall|id: Id| reachable(w1, roots, id) <==> reachable(w2, roots, id) by {
        if reachable(w2, roots, id) {
            assert(s.contains(id));
        }
    }
}

/// In a part of a world that holds everything that the whole reaches, the
/// same is reachable as in the whole, and no snapshot misses a blob.
pub proof fn lemma_part_complete(whole: World, part: World, roots: Set<Id>)
    requires
        forall|id: Id| #[trigger]
            part.contains_key(id) ==> whole.contains_key(id) && part[id] == whole[id],
        forall|id: Id| #[trigger] reachable(whole, roots, id) ==> part.contains_key(id),
    ensures
        complete(part, roots),
        forall|id: Id| reachable(part, roots, id) <==> reachable(whole, roots, id),
{
    lemma_part_reaches(whole, part, roots);
    lemma_part_reached(whole, part, roots);
    assert forall|id: Id| #[trigger] reachable(part, roots, id) implies part.contains_key(id) by {
        assert(reachable(whole, roots, id));
    }
}

/// One step of maintenance keeps a store clean where every entry that is
/// listed after the step agrees with one that was listed before it, and
/// everything that the snapshots reached is still listed.
pub proof fn lemma_store_step(before: Objects, after: Objects, key: Seq<u8>)
    requires
        store_clean(before, key),
        roots(after, key) == roots(before, key),
        forall|e: Entry| #[trigger]
            indexed(after, key, e) ==> exists|old: Entry| #[trigger]
                indexed(before, key, old) && old.id == e.id && old.loc.kind == e.loc.kind
                    && blob_at(before, key, old.loc) == blob_at(after, key, e.loc),
        forall|id: Id| #[trigger]
            reachable(store_world(before, key), roots(before, key), id) ==> held(after, key, id),
    ensures
        store_clean(after, key),
        forall|id: Id| #[trigger]
            held(after, key, id) ==> held(before, key, id) && store_world(after, key)[id]
                == store_world(before, key)[id],
        forall|id: Id|
            reachable(store_world(after, key), roots(after, key), id) <==> reachable(
                store_world(before, key),
                roots(before, key),
                id,
            ),
{
    let w1 = store_world(before, key);
    let w2 = store_world(after, key);
    assert forall|a: Entry, b: Entry|
        #[trigger] indexed(after, key, a) && #[trigger] indexed(after, key, b) && a.id
            == b.id implies a.loc.kind == b.loc.kind && blob_at(after, key, a.loc) == blob_at(
        after,
        key,
        b.loc,
    ) by {
        let oa = choose|old: Entry| #[trigger]
            indexed(before, key, old) && old.id == a.id && old.loc.kind == a.loc.kind && blob_at(
                before,
                key,
                old.loc,
            ) == blob_at(after, key, a.loc);
        let ob = choose|old: Entry| #[trigger]
            indexed(before, key, old) && old.id == b.id && old.loc.kind == b.loc.kind && blob_at(
                before,
                key,
                old.loc,
            ) == blob_at(after, key, b.loc);
        assert(indexed(before, key, oa) && indexed(before, key, ob));
    }
    assert forall|id: Id| #[trigger] held(after, key, id) implies held(before, key, id) && w2[id]
        == w1[id] by {
        let loc = place(after, key, id);
        let e = Entry { id, loc };
        assert(indexed(after, key, e));
        let o = choose|old: Entry| #[trigger]
            indexed(before, key, old) && old.id == e.id && old.loc.kind == e.loc.kind && blob_at(
                before,
                key,
                old.loc,
            ) == blob_at(after, key, e.loc);
        assert(o == Entry { id, loc: o.loc });
        assert(indexed(before, key, Entry { id, loc: o.loc }));
        let p = place(before, key, id);
        assert(indexed(before, key, Entry { id, loc: p }));
    }
    assert forall|id: Id| #[trigger] w2.contains_key(id) implies w1.contains_key(id) && w2[id]
        == w1[id] by {
        assert(held(after, key, id));
    }
    assert forall|id: Id| #[trigger] reachable(w1, roots(before, key), id) implies w2.contains_key(
        id,
    ) by {
        assert(held(after, key, id));
    }
    lemma_part_complete(w1, w2, roots(before, key));
    assert forall|id: Id| #[trigger] w2.contains_key(id) implies blob_ok(id, w2[id]) by {
        assert(w1.contains_key(id));
    }
}

/// `after` has every object of `before`, unchanged, and besides them only
/// packs.
pub open spec fn packs_added(before: Objects, after: Objects) -> bool {
    &&& forall|k: (FileType, Id)| #[trigger]
        before.contains_key(k) ==> after.contains_key(k) && after[k] == before[k]
    &&& forall|k: (FileType, Id)| #[trigger]
        after.contains_key(k) && !before.contains_key(k) ==> k.0 == FileType::Pack
}

/// New packs change neither what the index files list nor the roots nor
/// any segment of a pack that was there.
pub proof fn lemma_packs_added(before: Objects, after: Objects, key: Seq<u8>)
    requires
        packs_added(before, after),
    ensures
        forall|e: Entry| #[trigger] indexed(after, key, e) == indexed(before, key, e),
        roots(after, key) == roots(before, key),
        forall|loc: Location|
            before.contains_key((FileType::Pack, loc.pack)) ==> #[trigger] blob_at(after, key, loc)
                == blob_at(before, key, loc),
        store_clean(before, key) ==> store_clean(after, key),
{
    assert forall|e: Entry| #[trigger] indexed(after, key, e) == indexed(before, key, e) by {
        if indexed(after, key, e) {
            let f = choose|f: Id| #[trigger] lists(after, key, f, e);
            assert(before.contains_key((FileType::Index, f)));
            assert(lists(before, key, f, e));
        }
        if indexed(before, key, e) {
            let f = choose|f: Id| #[trigger] lists(before, key, f, e);
            assert(lists(after, key, f, e));
        }
    }
    assert forall|t: Id| roots(after, key).contains(t) == roots(before, key).contains(t) by {
        if roots(after, key).contains(t) {
            let sid = choose|sid: Id| #[trigger] roots_at(after, key, sid, t);
            assert(before.contains_key((FileType::Snapshot, sid)));
            assert(roots_at(before, key, sid, t));
        }
        if roots(before, key).contains(t) {
            let sid = choose|sid: Id| #[trigger] roots_at(before, key, sid, t);
            assert(roots_at(after, key, sid, t));
        }
    }
    assert(roots(after, key) =~= roots(before, key));
    if store_clean(before, key) {
        assert forall|e: Entry| #[trigger] indexed(after, key, e) implies exists|old: Entry| #[trigger]
            indexed(before, key, old) && old.id == e.id && old.loc.kind == e.loc.kind && blob_at(
                before,
                key,
                old.loc,
            ) == blob_at(after, key, e.loc) by {
            assert(indexed(before, key, e));
            lemma_listed_resolves(before, key, e);
        }
        assert forall|id: Id| #[trigger]
            reachable(store_world(before, key), roots(before, key), id) implies held(
            after,
            key,
            id,
        ) by {
            assert(store_world(before, key).contains_key(id));
            let loc = place(before, key, id);
            assert(indexed(before, key, Entry { id, loc }));
            assert(indexed(after, key, Entry { id, loc }));
        }
        lemma_store_step(before, after, key);
    }
}

/// In a clean store every listed entry resolves to a blob.
pub proof fn lemma_listed_resolves(objects: Objects, key: Seq<u8>, e: Entry)
    requires
        store_clean(objects, key),
        indexed(objects, key, e),
    ensures
        blob_at(objects, key, e.loc) is Some,
        objects.contains_key((FileType::Pack, e.loc.pack)),
        blob_ok(e.id, Blob { kind: e.loc.kind, content: blob_at(objects, key, e.loc) }),
        store_world(objects, key).contains_key(e.id),
        store_world(objects, key)[e.id] == (Blob {
            kind: e.loc.kind,
            content: blob_at(objects, key, e.loc),
        }),
{
    assert(e == Entry { id: e.id, loc: e.loc });
    assert(held(objects, key, e.id));
    let p = place(objects, key, e.id);
    assert(indexed(objects, key, Entry { id: e.id, loc: p }));
    assert(store_world(objects, key).contains_key(e.id));
}

} // verus!
