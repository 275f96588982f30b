//! Laws that relate several operations of a repository.

use crate::access::{file_saved, plains};
use crate::backend::Objects;
use crate::blob::{BlobKind, segment};
use crate::chunker::{ChunkerParams, concat, lemma_pieces_concat, pieces};
use crate::error::FileType;
use crate::id::{digest, Id, zero_id};
use crate::prune::{lemma_others_kept, others_same};
use crate::repo::parse_config;
use crate::store::{
    bad_index, file_entries, key_gives, locked, Pending, RepoView, unreadable,
};
use crate::clean::store_clean;
use crate::world::{Blob, complete, reachable, sound};
use vstd::prelude::*;

verus! {

/// No two of the parts that differ have the same address.
pub open spec fn distinct_digests(parts: Seq<Seq<u8>>) -> bool {
    forall|j: int, k: int|
        0 <= j < parts.len() && 0 <= k < parts.len() && digest(#[trigger] parts[j]) == digest(
            #[trigger] parts[k],
        ) ==> parts[j] == parts[k]
}

/// Where the repository had a blob under the address of a part, the blob
/// was that part.
pub open spec fn no_collision(old: RepoView, parts: Seq<Seq<u8>>, ids: Seq<Id>) -> bool {
    forall|k: int|
        0 <= k < ids.len() && old.world().contains_key(#[trigger] ids[k]) ==> old.plain(ids[k])
            == Some(parts[k])
}

/// Round trip: after the content of a file was saved, loading the blobs
/// under the addresses that saving gave yields the content, byte for byte.
/// This holds where no two different chunks, of the file or of what the
/// repository held before, share an address.
pub proof fn law_round_trip(
    old: RepoView,
    new: RepoView,
    data: Seq<u8>,
    ids: Seq<Id>,
    params: ChunkerParams,
)
    requires
        params.valid(),
        file_saved(old, new, pieces(data, 0, params), ids),
        new.carries(old),
        no_collision(old, pieces(data, 0, params), ids),
        distinct_digests(pieces(data, 0, params)),
    ensures
        forall|k: int| 0 <= k < ids.len() ==> new.plain(#[trigger] ids[k]) == Some(
            pieces(data, 0, params)[k],
        ),
        concat(plains(new, ids)) == data,
{
    let parts = pieces(data, 0, params);
    assert forall|k: int| 0 <= k < ids.len() implies new.plain(#[trigger] ids[k]) == Some(
        parts[k],
    ) by {
        let x = ids[k];
        assert(new.world().contains_key(x));
        if old.world().contains_key(x) {
            assert(old.plain(x) == Some(parts[k]));
        } else {
            let j = choose|j: int|
                0 <= j < ids.len() && #[trigger] ids[j] == x && new.world()[x] == (Blob {
                    kind: BlobKind::Data,
                    content: Some(parts[j]),
                });
            assert(ids[j]@ == digest(parts[j]));
            assert(ids[k]@ == digest(parts[k]));
        }
    }
    assert(plains(new, ids) =~= parts);
    lemma_pieces_concat(data, 0, params);
    assert(data.subrange(0, data.len() as int) =~= data);
}

/// Saving the same content again gives the same addresses.
pub proof fn law_same_addresses(
    a: RepoView,
    b: RepoView,
    c: RepoView,
    parts: Seq<Seq<u8>>,
    first: Seq<Id>,
    second: Seq<Id>,
)
    requires
        file_saved(a, b, parts, first),
        file_saved(b, c, parts, second),
    ensures
        first == second,
        forall|k: int| 0 <= k < parts.len() ==> b.world().contains_key(#[trigger] second[k]),
{
    assert forall|k: int| 0 <= k < first.len() implies first[k] == second[k] by {
        crate::id::lemma_id_ext(first[k], second[k]);
    }
    assert(first =~= second);
}

/// After a prune a check finds no missing blob, and the index lists
/// nothing that only removed snapshots named: where the index lists
/// exactly what the snapshots reach, whatever a check reports as missing is
/// nothing, and no unreachable address is listed.
pub proof fn law_pruned_is_complete(v: RepoView, missing: Seq<Id>)
    requires
        v.pending == Map::<Id, Pending>::empty(),
        forall|id: Id| v.index.contains_key(id) <==> reachable(v.world(), v.roots(), id),
        forall|id: Id| #[trigger]
            missing.contains(id) <==> reachable(v.world(), v.roots(), id)
                && !v.world().contains_key(id),
    ensures
        missing.len() == 0,
        complete(v.world(), v.roots()),
        forall|id: Id| !reachable(v.world(), v.roots(), id) ==> !v.world().contains_key(id),
{
    if missing.len() > 0 {
        assert(missing.contains(missing[0]));
    }
}

/// Re-opening after a prune. What holds beside packs and index files
/// what a store held that could be unlocked and read, and has only index
/// files that can be read under the master key, can be unlocked and read
/// as well. So on a reliable backend it opens under the password. This
/// holds where every key record that opens under the password gives up
/// the master key.
pub proof fn law_reopens(before: Objects, after: Objects, key: Seq<u8>, password: Seq<u8>)
    requires
        !locked(before, password),
        before.contains_key((FileType::Config, zero_id())),
        !unreadable(before, password),
        others_same(before, after),
        !bad_index(after, key),
        forall|rid: Id| #[trigger]
            key_gives(before, rid, password) is Some ==> key_gives(before, rid, password) == Some(
                key,
            ),
    ensures
        !locked(after, password),
        after.contains_key((FileType::Config, zero_id())),
        !unreadable(after, password),
{
    lemma_others_kept(before, after);
    assert forall|rid: Id| #[trigger] key_gives(after, rid, password) == key_gives(
        before,
        rid,
        password,
    ) by {
        assert(after.contains_key((FileType::Key, rid)) <==> before.contains_key(
            (FileType::Key, rid),
        ));
    }
    let rid = choose|rid: Id| #[trigger] key_gives(before, rid, password) is Some;
    assert(key_gives(after, rid, password) is Some);
    assert(after.contains_key((FileType::Config, zero_id())));
    if unreadable(after, password) {
        if after.contains_key((FileType::Config, zero_id())) && parse_config(
            after[(FileType::Config, zero_id())],
        ) is None {
            assert(parse_config(before[(FileType::Config, zero_id())]) is None);
        } else {
            let (r, f) = choose|r: Id, f: Id|
                key_gives(after, r, password) is Some && after.contains_key(
                    (FileType::Index, f),
                ) && #[trigger] file_entries(
                    key_gives(after, r, password).unwrap(),
                    after[(FileType::Index, f)],
                ) is None;
            assert(key_gives(before, r, password) == Some(key));
            assert(file_entries(key, after[(FileType::Index, f)]) is None);
        }
    }
}

/// Crash safety of a prune, from a clean check to a clean check. The
/// repository `before` was opened under the password, and a check found
/// it clean. A prune ran on it and stopped somewhere, at its end, on an
/// error or because the process died between two of its writes, and left
/// the objects `left`; `after` is the repository that is opened on them.
/// Then what was left can be unlocked and read, so that on a reliable
/// backend it opens under the password; and in the repository that was
/// opened every blob can be read and is what its address says, no
/// snapshot misses a blob, and the index files agree with the index: a
/// check is clean again. This holds where every key record that opens
/// under the password gives up the master key.
pub proof fn law_prune_crash(before: RepoView, left: Objects, after: RepoView, password: Seq<u8>)
    requires
        before.backed(),
        before.coherent(),
        before.pending == Map::<Id, Pending>::empty(),
        sound(before.world()),
        complete(before.world(), before.roots()),
        !locked(before.objects, password),
        before.objects.contains_key((FileType::Config, zero_id())),
        !unreadable(before.objects, password),
        forall|rid: Id| #[trigger]
            key_gives(before.objects, rid, password) is Some ==> key_gives(
                before.objects,
                rid,
                password,
            ) == Some(before.key),
        store_clean(before.objects, before.key) ==> store_clean(left, before.key),
        others_same(before.objects, left),
        !bad_index(before.objects, before.key) ==> !bad_index(left, before.key),
        after.objects == left,
        after.key == before.key,
        after.synced(),
        after.pending == Map::<Id, Pending>::empty(),
    ensures
        !locked(left, password),
        left.contains_key((FileType::Config, zero_id())),
        !unreadable(left, password),
        sound(after.world()),
        complete(after.world(), after.roots()),
        after.coherent(),
{
    let rid = choose|rid: Id| #[trigger] key_gives(before.objects, rid, password) is Some;
    assert(key_gives(before.objects, rid, password) == Some(before.key));
    if bad_index(before.objects, before.key) {
        let f = choose|f: Id|
            before.objects.contains_key((FileType::Index, f)) && #[trigger] file_entries(
                before.key,
                before.objects[(FileType::Index, f)],
            ) is None;
        assert(file_entries(
            key_gives(before.objects, rid, password).unwrap(),
            before.objects[(FileType::Index, f)],
        ) is None);
    }
    law_reopens(before.objects, left, before.key, password);
    crate::clean::law_crash_safe(before, after);
}

/// After a prune everything that the snapshots reach has its place
/// inside a pack that is there: where the index lists exactly what the
/// snapshots reach, and every place of the index lies inside its pack,
/// every reachable address has an entry whose place lies inside a pack of
/// the backend.
pub proof fn law_pruned_is_placed(v: RepoView)
    requires
        forall|id: Id| v.index.contains_key(id) <==> reachable(v.world(), v.roots(), id),
        forall|id: Id| #[trigger]
            v.index.contains_key(id) ==> segment(v.objects, v.index[id]) is Some,
    ensures
        forall|id: Id| #[trigger]
            reachable(v.world(), v.roots(), id) ==> v.index.contains_key(id)
                && v.objects.contains_key((FileType::Pack, v.index[id].pack)) && v.index[id].offset
                + v.index[id].length <= v.objects[(FileType::Pack, v.index[id].pack)].len(),
{
    assert forall|id: Id| #[trigger] reachable(v.world(), v.roots(), id) implies v.index.contains_key(
        id,
    ) && v.objects.contains_key((FileType::Pack, v.index[id].pack)) && v.index[id].offset
        + v.index[id].length <= v.objects[(FileType::Pack, v.index[id].pack)].len() by {
        assert(v.index.contains_key(id));
        assert(segment(v.objects, v.index[id]) is Some);
    }
}

} // verus!
