//! Comparing and merging the listings of directories.

use crate::tree::{
    find_node, has_name, insert_node, lemma_lex_total, lemma_sorted_gap, lex_lt, Node,
    node_views, NodeView, sorted_by_name,
};
use vstd::prelude::*;

verus! {

/// How an entry of a directory changed.
#[derive(Clone, Copy, Debug, PartialEq, Eq, Structural, Hash)]
pub enum ChangeKind {
    /// The entry is in the new listing only.
    Added,
    /// The entry is in the old listing only.
    Removed,
    /// The entry is in both listings and not the same in both.
    Modified,
}

/// The change of one entry.
#[derive(Clone, Debug, PartialEq, Eq)]
pub struct Change {
    pub name: Vec<u8>,
    pub kind: ChangeKind,
}

/// Whether the list has the node.
pub open spec fn has_node(nodes: Seq<NodeView>, n: NodeView) -> bool {
    exists|i: int| 0 <= i < nodes.len() && #[trigger] nodes[i] == n
}

/// How the entry with the given name changed from the old listing to the
/// new one, if it changed.
pub open spec fn change_between(old: Seq<NodeView>, new: Seq<NodeView>, name: Seq<u8>) -> Option<
    ChangeKind,
> {
    if has_name(new, name) && !has_name(old, name) {
        Some(ChangeKind::Added)
    } else if has_name(old, name) && !has_name(new, name) {
        Some(ChangeKind::Removed)
    } else if has_name(old, name) && exists|i: int|
        0 <= i < new.len() && (#[trigger] new[i]).name == name && !has_node(old, new[i]) {
        Some(ChangeKind::Modified)
    } else {
        None
    }
}

/// Whether the list of changes says that the entry `name` changed in the
/// way `kind`.
pub open spec fn says(changes: Seq<Change>, name: Seq<u8>, kind: ChangeKind) -> bool {
    exists|i: int| 0 <= i < changes.len() && (#[trigger] changes[i]).name@ == name && changes[i].kind
        == kind
}

/// In a list in strict order no two nodes have the same name.
pub proof fn lemma_names_once(nodes: Seq<NodeView>, i: int, j: int)
    requires
        sorted_by_name(nodes),
        0 <= i < nodes.len(),
        0 <= j < nodes.len(),
        nodes[i].name == nodes[j].name,
    ensures
        i == j,
{
    if i < j {
        lemma_sorted_gap(nodes, i, j);
        lemma_lex_total(nodes[i].name, nodes[j].name);
    } else if j < i {
        lemma_sorted_gap(nodes, j, i);
        lemma_lex_total(nodes[j].name, nodes[i].name);
    }
}

proof fn lemma_push_says(done: Seq<Change>, c: Change)
    ensures
        forall|name: Seq<u8>, kind: ChangeKind| #[trigger]
            says(done.push(c), name, kind) <==> says(done, name, kind) || (c.name@ == name
                && c.kind == kind),
{
    assert forall|name: Seq<u8>, kind: ChangeKind| #[trigger]
        says(done.push(c), name, kind) <==> says(done, name, kind) || (c.name@ == name && c.kind
            == kind) by {
        let all = done.push(c);
        if says(all, name, kind) {
            let i = choose|i: int|
                0 <= i < all.len() && (#[trigger] all[i]).name@ == name && all[i].kind == kind;
            if i < done.len() {
                assert(done[i] == all[i]);
            }
        }
        if says(done, name, kind) {
            let i = choose|i: int|
                0 <= i < done.len() && (#[trigger] done[i]).name@ == name && done[i].kind == kind;
            assert(all[i] == done[i]);
        }
        if c.name@ == name && c.kind == kind {
            assert(all[done.len() as int] == c);
        }
    }
}

fn copy_name(name: &Vec<u8>) -> (out: Vec<u8>)
    ensures
        out@ == name@,
{
    let out = crate::crypto::copy_range(name.as_slice(), 0, name.len());
    assert(out@ =~= name@);
    out
}

/// Compares two listings that stand in the strict order of their names:
/// lists the entries that were added, removed or modified.
pub fn diff_nodes(old: &Vec<Node>, new: &Vec<Node>) -> (changes: Vec<Change>)
    requires
        sorted_by_name(node_views(old@)),
        sorted_by_name(node_views(new@)),
    ensures
        forall|name: Seq<u8>, kind: ChangeKind| #[trigger]
            says(changes@, name, kind) <==> change_between(
                node_views(old@),
                node_views(new@),
                name,
            ) == Some(kind),
{
    let ghost ov = node_views(old@);
    let ghost nv = node_views(new@);
    let mut changes: Vec<Change> = Vec::new();
    let mut i: usize = 0;
    while i < new.len()
        invariant
            i <= new@.len(),
            ov == node_views(old@),
            nv == node_views(new@),
            sorted_by_name(ov),
            sorted_by_name(nv),
            forall|name: Seq<u8>, kind: ChangeKind| #[trigger]
                says(changes@, name, kind) <==> kind != ChangeKind::Removed && has_name(
                    nv.take(i as int),
                    name,
                ) && change_between(ov, nv, name) == Some(kind),
        decreases new@.len() - i,
    {
        let node = &new[i];
        let ghost done = changes@;
        let ghost name = node@.name;
        proof {
            assert(nv[i as int] == node@);
            assert(nv.take(i + 1) =~= nv.take(i as int).push(node@));
            assert forall|other: Seq<u8>|
                has_name(nv.take(i + 1), other) <==> has_name(nv.take(i as int), other) || other
                    == name by {
                if has_name(nv.take(i + 1), other) {
                    let k = choose|k: int|
                        0 <= k < i + 1 && (#[trigger] nv.take(i + 1)[k]).name == other;
                    if k < i {
                        assert(nv.take(i as int)[k].name == other);
                    }
                }
                if has_name(nv.take(i as int), other) {
                    let k = choose|k: int|
                        0 <= k < i && (#[trigger] nv.take(i as int)[k]).name == other;
                    assert(nv.take(i + 1)[k].name == other);
                }
                if other == name {
                    assert(nv.take(i + 1)[i as int].name == other);
                }
            }
            assert(has_name(nv, name));
            assert forall|k: int| 0 <= k < nv.len() && (#[trigger] nv[k]).name == name implies k
                == i by {
                lemma_names_once(nv, k, i as int);
            }
        }
        let found = find_node(old, node.name.as_slice());
        let kind = match found {
            None => Some(ChangeKind::Added),
            Some(j) => {
                proof {
                    assert(ov[j as int] == old@[j as int]@);
                    assert(has_name(ov, name));
                    assert forall|k: int| 0 <= k < ov.len() && (#[trigger] ov[k]).name
                        == name implies k == j by {
                        lemma_names_once(ov, k, j as int);
                    }
                    if has_node(ov, node@) {
                        let k = choose|k: int| 0 <= k < ov.len() && #[trigger] ov[k] == node@;
                        assert(ov[k].name == name);
                    }
                }
                if old[j].same(node) {
                    proof {
                        assert(has_node(ov, node@));
                    }
                    None
                } else {
                    Some(ChangeKind::Modified)
                }
            },
        };
        assert(change_between(ov, nv, name) == kind || (kind is None && change_between(
            ov,
            nv,
            name,
        ) is None));
        match kind {
            Some(k) => {
                let c = Change { name: copy_name(&node.name), kind: k };
                proof {
                    lemma_push_says(done, c);
                }
                changes.push(c);
            },
            None => {},
        }
        i += 1;
    }
    assert(nv.take(new@.len() as int) =~= nv);
    let ghost first = changes@;
    let mut j: usize = 0;
    while j < old.len()
        invariant
            j <= old@.len(),
            ov == node_views(old@),
            nv == node_views(new@),
            sorted_by_name(ov),
            sorted_by_name(nv),
            forall|name: Seq<u8>, kind: ChangeKind| #[trigger]
                says(changes@, name, kind) <==> (kind != ChangeKind::Removed && change_between(
                    ov,
                    nv,
                    name,
                ) == Some(kind)) || (kind == ChangeKind::Removed && has_name(
                    ov.take(j as int),
                    name,
                ) && change_between(ov, nv, name) == Some(kind)),
        decreases old@.len() - j,
    {
        let node = &old[j];
        let ghost done = changes@;
        let ghost name = node@.name;
        proof {
            assert(ov[j as int] == node@);
            assert(ov.take(j + 1) =~= ov.take(j as int).push(node@));
            assert forall|other: Seq<u8>|
                has_name(ov.take(j + 1), other) <==> has_name(ov.take(j as int), other) || other
                    == name by {
                if has_name(ov.take(j + 1), other) {
                    let k = choose|k: int|
                        0 <= k < j + 1 && (#[trigger] ov.take(j + 1)[k]).name == other;
                    if k < j {
                        assert(ov.take(j as int)[k].name == other);
                    }
                }
                if has_name(ov.take(j as int), other) {
                    let k = choose|k: int|
                        0 <= k < j && (#[trigger] ov.take(j as int)[k]).name == other;
                    assert(ov.take(j + 1)[k].name == other);
                }
                if other == name {
                    assert(ov.take(j + 1)[j as int].name == other);
                }
            }
            assert(has_name(ov, name));
        }
        match find_node(new, node.name.as_slice()) {
            None => {
                let c = Change { name: copy_name(&node.name), kind: ChangeKind::Removed };
                proof {
                    lemma_push_says(done, c);
                }
                changes.push(c);
            },
            Some(k) => {
                proof {
                    assert(nv[k as int] == new@[k as int]@);
                    assert(has_name(nv, name));
                }
            },
        }
        j += 1;
    }
    proof {
        assert(ov.take(old@.len() as int) =~= ov);
        assert forall|name: Seq<u8>, kind: ChangeKind| #[trigger]
            says(changes@, name, kind) <==> change_between(ov, nv, name) == Some(kind) by {
            if change_between(ov, nv, name) == Some(kind) && kind == ChangeKind::Removed {
                assert(has_name(ov, name));
            }
        }
    }
    changes
}

/// Merges two listings that stand in the strict order of their names:
/// every entry of either, and of two entries with the same name the one of
/// `over`. The result stands in order.
pub fn merge_nodes(under: Vec<Node>, over: Vec<Node>) -> (merged: Vec<Node>)
    requires
        sorted_by_name(node_views(under@)),
        sorted_by_name(node_views(over@)),
    ensures
        sorted_by_name(node_views(merged@)),
        forall|name: Seq<u8>|
            has_name(node_views(merged@), name) <==> has_name(node_views(under@), name)
                || has_name(node_views(over@), name),
        forall|n: NodeView|
            has_node(node_views(merged@), n) <==> has_node(node_views(over@), n) || (has_node(
                node_views(under@),
                n,
            ) && !has_name(node_views(over@), n.name)),
{
    let ghost uv = node_views(under@);
    let ghost ov = node_views(over@);
    let ghost all = over@;
    let mut merged = under;
    let mut rest = over;
    proof {
        assert(ov.skip(all.len() as int) =~= Seq::<NodeView>::empty());
        assert(rest@ =~= all.take(all.len() as int));
    }
    while rest.len() > 0
        invariant
            ov == node_views(all),
            sorted_by_name(ov),
            sorted_by_name(node_views(merged@)),
            rest@ == all.take(rest@.len() as int),
            rest@.len() <= all.len(),
            forall|name: Seq<u8>| #[trigger]
                has_name(node_views(merged@), name) <==> has_name(uv, name) || has_name(
                    ov.skip(rest@.len() as int),
                    name,
                ),
            forall|x: NodeView| #[trigger]
                has_node(node_views(merged@), x) <==> has_node(ov.skip(rest@.len() as int), x) || (
                has_node(uv, x) && !has_name(ov.skip(rest@.len() as int), x.name)),
        decreases rest@.len(),
    {
        let ghost before = merged@;
        let ghost bv = node_views(before);
        let ghost k = rest@.len() - 1;
        let ghost tail = ov.skip(rest@.len() as int);
        let node = rest.pop().unwrap();
        let ghost nv = node@;
        proof {
            assert(rest@ =~= all.take(k));
            assert(nv == ov[k]);
            assert(ov.skip(k) =~= seq![nv] + tail);
            assert forall|name: Seq<u8>| #[trigger]
                has_name(ov.skip(k), name) <==> has_name(tail, name) || name == nv.name by {
                if has_name(ov.skip(k), name) {
                    let m = choose|m: int|
                        0 <= m < ov.skip(k).len() && (#[trigger] ov.skip(k)[m]).name == name;
                    if m > 0 {
                        assert(tail[m - 1].name == name);
                    }
                }
                if has_name(tail, name) {
                    let m = choose|m: int| 0 <= m < tail.len() && (#[trigger] tail[m]).name == name;
                    assert(ov.skip(k)[m + 1].name == name);
                }
                if name == nv.name {
                    assert(ov.skip(k)[0].name == name);
                }
            }
            assert forall|x: NodeView| #[trigger]
                has_node(ov.skip(k), x) <==> has_node(tail, x) || x == nv by {
                if has_node(ov.skip(k), x) {
                    let m = choose|m: int| 0 <= m < ov.skip(k).len() && #[trigger] ov.skip(k)[m] == x;
                    if m > 0 {
                        assert(tail[m - 1] == x);
                    }
                }
                if has_node(tail, x) {
                    let m = choose|m: int| 0 <= m < tail.len() && #[trigger] tail[m] == x;
                    assert(ov.skip(k)[m + 1] == x);
                }
                if x == nv {
                    assert(ov.skip(k)[0] == x);
                }
            }
            assert(!has_name(tail, nv.name)) by {
                if has_name(tail, nv.name) {
                    let m = choose|m: int|
                        0 <= m < tail.len() && (#[trigger] tail[m]).name == nv.name;
                    assert(ov[k + 1 + m] == tail[m]);
                    lemma_names_once(ov, k, k + 1 + m);
                }
            }
        }
        insert_node(&mut merged, node);
        proof {
            let av = node_views(merged@);
            assert forall|name: Seq<u8>| #[trigger]
                has_name(av, name) <==> has_name(uv, name) || has_name(ov.skip(k), name) by {
                assert(has_name(bv, name) <==> has_name(uv, name) || has_name(tail, name));
                assert(has_name(av, name) <==> has_name(bv, name) || name == nv.name);
                assert(has_name(ov.skip(k), name) <==> has_name(tail, name) || name == nv.name);
            }
            assert forall|x: NodeView| #[trigger]
                has_node(av, x) <==> has_node(ov.skip(k), x) || (has_node(uv, x) && !has_name(
                    ov.skip(k),
                    x.name,
                )) by {
                assert(has_node(bv, x) <==> has_node(tail, x) || (has_node(uv, x) && !has_name(
                    tail,
                    x.name,
                )));
                assert(has_node(ov.skip(k), x) <==> has_node(tail, x) || x == nv);
                assert(has_name(ov.skip(k), x.name) <==> has_name(tail, x.name) || x.name
                    == nv.name);
                if has_node(av, x) {
                    let m = choose|m: int| 0 <= m < av.len() && #[trigger] av[m] == x;
                    assert(av[m] == merged@[m]@);
                    if merged@[m]@ != nv {
                        let j = choose|j: int|
                            0 <= j < before.len() && before[j]@ == merged@[m]@ && before[j]@.name
                                != nv.name;
                        assert(bv[j] == x);
                        assert(has_node(bv, x));
                    }
                }
                if x == nv {
                    let m = choose|m: int| 0 <= m < merged@.len() && #[trigger] merged@[m]@ == nv;
                    assert(av[m] == x);
                }
                if has_node(bv, x) && x.name != nv.name {
                    let j = choose|j: int| 0 <= j < bv.len() && #[trigger] bv[j] == x;
                    assert(before[j]@ == x);
                    let m = choose|m: int|
                        0 <= m < merged@.len() && #[trigger] merged@[m]@ == before[j]@;
                    assert(av[m] == x);
                }
                if has_node(tail, x) {
                    let m = choose|m: int| 0 <= m < tail.len() && #[trigger] tail[m] == x;
                    assert(has_name(tail, x.name));
                }
            }
        }
    }
    proof {
        assert(ov.skip(0) =~= ov);
    }
    merged
}

/// A directory has one listing: two lists that stand in the strict order
/// of their names and have the same nodes are the same list. So whatever
/// the order in which the entries of a directory are found, its tree gets
/// the same bytes and the same address.
pub proof fn law_one_listing(a: Seq<NodeView>, b: Seq<NodeView>)
    requires
        sorted_by_name(a),
        sorted_by_name(b),
        forall|n: NodeView| has_node(a, n) <==> has_node(b, n),
    ensures
        a == b,
    decreases a.len(),
{
    if a.len() == 0 {
        if b.len() > 0 {
            assert(has_node(b, b[0]));
            let i = choose|i: int| 0 <= i < a.len() && #[trigger] a[i] == b[0];
        }
        assert(a =~= b);
    } else {
        let x = a.last();
        assert(has_node(a, x));
        let j = choose|j: int| 0 <= j < b.len() && #[trigger] b[j] == x;
        let y = b.last();
        assert(has_node(b, y));
        let i = choose|i: int| 0 <= i < a.len() && #[trigger] a[i] == y;
        if j < b.len() - 1 {
            lemma_sorted_gap(b, j, b.len() - 1);
            if i < a.len() - 1 {
                lemma_sorted_gap(a, i, a.len() - 1);
            }
            lemma_lex_total(x.name, y.name);
        }
        assert(x == y);
        let fa = a.drop_last();
        let fb = b.drop_last();
        assert forall|k: int| 0 <= k < fa.len() - 1 implies lex_lt(
            #[trigger] fa[k].name,
            fa[k + 1].name,
        ) by {
            assert(lex_lt(a[k].name, a[k + 1].name));
        }
        assert forall|k: int| 0 <= k < fb.len() - 1 implies lex_lt(
            #[trigger] fb[k].name,
            fb[k + 1].name,
        ) by {
            assert(lex_lt(b[k].name, b[k + 1].name));
        }
        assert forall|n: NodeView| has_node(fa, n) <==> has_node(fb, n) by {
            if has_node(fa, n) {
                let k = choose|k: int| 0 <= k < fa.len() && #[trigger] fa[k] == n;
                assert(a[k] == n);
                assert(has_node(a, n));
                let m = choose|m: int| 0 <= m < b.len() && #[trigger] b[m] == n;
                if m == b.len() - 1 {
                    lemma_names_once(a, k, a.len() - 1);
                }
                assert(fb[m] == n);
            }
            if has_node(fb, n) {
                let k = choose|k: int| 0 <= k < fb.len() && #[trigger] fb[k] == n;
                assert(b[k] == n);
                assert(has_node(b, n));
                let m = choose|m: int| 0 <= m < a.len() && #[trigger] a[m] == n;
                if m == a.len() - 1 {
                    lemma_names_once(b, k, b.len() - 1);
                }
                assert(fa[m] == n);
            }
        }
        law_one_listing(fa, fb);
        assert(a =~= fa.push(x));
        assert(b =~= fb.push(y));
    }
}

} // verus!
