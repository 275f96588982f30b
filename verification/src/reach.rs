//! Walking the blobs that the snapshots reach.

use crate::backend::Backend;
use crate::blob::BlobKind;
use crate::error::{Error, ErrorKind};
use crate::id::Id;
use crate::idmap::IdMap;
use crate::repo::Repository;
use crate::store::Pending;
use crate::tree::{Node, node_names, node_views, nodes_refs};
use crate::world::{
    lemma_reachable_within, lemma_root_reachable, lemma_step_reachable, reachable,
    readable_tree, refs, World,
};
use vstd::prelude::*;

verus! {

/// What a walk found under an address.
#[derive(Clone, Copy, Debug, PartialEq, Eq, Structural)]
pub enum Mark {
    /// The repository has no blob under the address.
    Absent,
    /// A data blob, or a tree that could be read.
    Held,
    /// A tree that could not be read: its segment is gone or damaged, or
    /// its content is no well-formed tree.
    Unreadable,
}

/// The mark that an address gets in a world.
pub open spec fn mark_of(world: World, id: Id) -> Mark {
    if !world.contains_key(id) {
        Mark::Absent
    } else if world[id].kind == BlobKind::Tree && !readable_tree(world[id]) {
        Mark::Unreadable
    } else {
        Mark::Held
    }
}

/// A pushed element is in the sequence, and so is all that was in it.
pub proof fn lemma_push_contains(s: Seq<Id>, v: Id)
    ensures
        forall|x: Id| #[trigger] s.push(v).contains(x) <==> s.contains(x) || x == v,
{
    assert forall|x: Id| s.push(v).contains(x) <==> s.contains(x) || x == v by {
        if s.contains(x) {
            let i = choose|i: int| 0 <= i < s.len() && s[i] == x;
            assert(s.push(v)[i] == x);
        }
        if x == v {
            assert(s.push(v)[s.len() as int] == v);
        }
        if s.push(v).contains(x) {
            let i = choose|i: int| 0 <= i < s.push(v).len() && s.push(v)[i] == x;
            if i < s.len() {
                assert(s[i] == x);
            }
        }
    }
}

/// What was in a sequence is its last element or in the rest.
pub proof fn lemma_drop_last_contains(s: Seq<Id>)
    requires
        s.len() > 0,
    ensures
        forall|x: Id| #[trigger] s.contains(x) <==> s.drop_last().contains(x) || x == s.last(),
{
    assert forall|x: Id| s.contains(x) <==> s.drop_last().contains(x) || x == s.last() by {
        if s.contains(x) {
            let i = choose|i: int| 0 <= i < s.len() && s[i] == x;
            if i < s.len() - 1 {
                assert(s.drop_last()[i] == x);
            }
        }
        if s.drop_last().contains(x) {
            let i = choose|i: int| 0 <= i < s.drop_last().len() && s.drop_last()[i] == x;
            assert(s[i] == x);
        }
    }
}

/// Pushes every address of a list.
fn push_all(stack: &mut Vec<Id>, ids: &Vec<Id>)
    ensures
        forall|x: Id| final(stack)@.contains(x) <==> old(stack)@.contains(x) || ids@.contains(x),
{
    let mut i: usize = 0;
    assert(ids@.take(0) =~= Seq::<Id>::empty());
    while i < ids.len()
        invariant
            i <= ids@.len(),
            forall|x: Id|
                stack@.contains(x) <==> old(stack)@.contains(x) || ids@.take(i as int).contains(x),
        decreases ids@.len() - i,
    {
        let ghost s0 = stack@;
        stack.push(ids[i]);
        proof {
            let v = ids@[i as int];
            lemma_push_contains(s0, v);
            lemma_push_contains(ids@.take(i as int), v);
            assert(stack@ == s0.push(v));
            assert(ids@.take(i + 1) =~= ids@.take(i as int).push(v));
            assert forall|x: Id|
                stack@.contains(x) <==> old(stack)@.contains(x) || ids@.take(i + 1).contains(
                    x,
                ) by {
                assert(s0.push(v).contains(x) <==> s0.contains(x) || x == v);
                assert(ids@.take(i as int).push(v).contains(x) <==> ids@.take(i as int).contains(x)
                    || x == v);
            }
        }
        i += 1;
    }
    assert(ids@.take(ids@.len() as int) =~= ids@);
}

/// Pushes every address that the nodes name.
fn push_refs(stack: &mut Vec<Id>, nodes: &Vec<Node>)
    ensures
        forall|x: Id|
            final(stack)@.contains(x) <==> old(stack)@.contains(x) || nodes_refs(
                node_views(nodes@),
            ).contains(x),
{
    let ghost views = node_views(nodes@);
    let mut i: usize = 0;
    while i < nodes.len()
        invariant
            i <= nodes@.len(),
            views == node_views(nodes@),
            forall|x: Id|
                stack@.contains(x) <==> old(stack)@.contains(x) || exists|j: int|
                    0 <= j < i && node_names(#[trigger] views[j], x),
        decreases nodes@.len() - i,
    {
        let node = &nodes[i];
        let ghost s0 = stack@;
        assert(views[i as int] == node@);
        match node.subtree {
            Some(t) => {
                stack.push(t);
                proof {
                    lemma_push_contains(s0, t);
                    assert(stack@ == s0.push(t));
                }
            },
            None => {},
        }
        let ghost s1 = stack@;
        push_all(stack, &node.content);
        proof {
            assert forall|x: Id|
                stack@.contains(x) <==> old(stack)@.contains(x) || exists|j: int|
                    0 <= j < i + 1 && node_names(#[trigger] views[j], x) by {
                if s0.contains(x) {
                    assert(s1.contains(x));
                }
                if node.subtree == Some(x) {
                    assert(s1.contains(x));
                }
                if s1.contains(x) && !s0.contains(x) {
                    assert(node.subtree == Some(x));
                    assert(node_names(views[i as int], x));
                }
                if node.content@.contains(x) {
                    assert(node_names(views[i as int], x));
                }
                if exists|j: int| 0 <= j < i + 1 && node_names(#[trigger] views[j], x) {
                    let j = choose|j: int| 0 <= j < i + 1 && node_names(#[trigger] views[j], x);
                    if j < i {
                        assert(s0.contains(x));
                    }
                }
            }
        }
        i += 1;
    }
    proof {
        assert forall|x: Id|
            stack@.contains(x) <==> old(stack)@.contains(x) || nodes_refs(views).contains(x) by {
            if nodes_refs(views).contains(x) {
                let j = choose|j: int| 0 <= j < views.len() && node_names(#[trigger] views[j], x);
            }
        }
    }
}

impl<B: Backend> Repository<B> {
    /// Walks everything that can be reached from the roots. The result
    /// maps each reachable address to what was found under it. Trees that
    /// cannot be read count as leaves. Nothing may wait to be packed.
    pub fn reach(&self, roots: &Vec<Id>) -> (r: Result<IdMap<Mark>, Error>)
        requires
            self.wf(),
            self@.pending == Map::<Id, Pending>::empty(),
        ensures
            match r {
                Ok(seen) => {
                    &&& seen.wf()
                    &&& forall|id: Id| #[trigger]
                        seen@.contains_key(id) <==> reachable(
                            self@.world(),
                            roots@.to_set(),
                            id,
                        )
                    &&& forall|id: Id| #[trigger]
                        seen@.contains_key(id) ==> seen@[id] == mark_of(self@.world(), id)
                },
                Err(e) => e.kind == ErrorKind::BackendTransient && !self.reliable(),
            },
    {
        let ghost world = self@.world();
        let ghost root_set = roots@.to_set();
        let mut seen: IdMap<Mark> = IdMap::new();
        let mut stack: Vec<Id> = Vec::new();
        push_all(&mut stack, roots);
        let ghost mut present: Set<Id> = Set::empty();
        let total = self.index.len();
        let mut found: usize = 0;
        proof {
            self.index.lemma_keys();
            assert(world.dom() =~= self@.index.dom());
            assert forall|x: Id| stack@.contains(x) implies reachable(world, root_set, x) by {
                lemma_root_reachable(world, root_set, x);
            }
        }
        while stack.len() > 0
            invariant
                self.wf(),
                self@.pending == Map::<Id, Pending>::empty(),
                world == self@.world(),
                root_set == roots@.to_set(),
                seen.wf(),
                world.dom().finite(),
                total == world.dom().len(),
                present.finite(),
                found == present.len(),
                forall|x: Id| present.contains(x) ==> world.contains_key(x),
                forall|x: Id|
                    present.contains(x) <==> seen@.contains_key(x) && seen@[x] != Mark::Absent,
                forall|x: Id| #[trigger] seen@.contains_key(x) ==> seen@[x] == mark_of(world, x),
                forall|x: Id| stack@.contains(x) ==> reachable(world, root_set, x),
                forall|x: Id| #[trigger] seen@.contains_key(x) ==> reachable(world, root_set, x),
                forall|x: Id| root_set.contains(x) ==> seen@.contains_key(x) || stack@.contains(x),
                forall|a: Id, b: Id|
                    seen@.contains_key(a) && #[trigger] refs(world, a).contains(b)
                        ==> seen@.contains_key(b) || stack@.contains(b),
            decreases total - found, stack@.len(),
        {
            let ghost before = stack@;
            let x = stack.pop().unwrap();
            proof {
                lemma_drop_last_contains(before);
            }
            if seen.contains(&x) {
                continue ;
            }
            let kind = match self.index.get(&x) {
                Some(loc) => Some(loc.kind),
                None => None,
            };
            match kind {
                None => {
                    seen.insert(x, Mark::Absent);
                    assert(refs(world, x) =~= Set::<Id>::empty());
                },
                Some(k) => {
                    proof {
                        vstd::set_lib::lemma_len_subset(present.insert(x), world.dom());
                        present = present.insert(x);
                    }
                    found = found + 1;
                    if k == BlobKind::Tree {
                        match self.load_tree(&x) {
                            Ok(nodes) => {
                                seen.insert(x, Mark::Held);
                                assert(refs(world, x) == nodes_refs(node_views(nodes@)));
                                let ghost s0 = stack@;
                                push_refs(&mut stack, &nodes);
                                proof {
                                    assert forall|y: Id| stack@.contains(y) implies reachable(
                                        world,
                                        root_set,
                                        y,
                                    ) by {
                                        if !s0.contains(y) {
                                            lemma_step_reachable(world, root_set, x, y);
                                        }
                                    }
                                }
                            },
                            Err(e) => {
                                if e.kind == ErrorKind::BackendTransient {
                                    return Err(Error::bare(ErrorKind::BackendTransient));
                                }
                                seen.insert(x, Mark::Unreadable);
                                assert(refs(world, x) =~= Set::<Id>::empty());
                            },
                        }
                    } else {
                        seen.insert(x, Mark::Held);
                        assert(refs(world, x) =~= Set::<Id>::empty());
                    }
                },
            }
        }
        proof {
            assert forall|x: Id| !stack@.contains(x) by {
                if stack@.contains(x) {
                    let i = choose|i: int| 0 <= i < stack@.len() && stack@[i] == x;
                }
            }
            lemma_reachable_within(world, root_set, seen@.dom());
        }
        Ok(seen)
    }
}

} // verus!
