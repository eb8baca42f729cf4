use vstd::prelude::*;

use crate::dag::attach_ext;
use crate::dag::build_tree;
use crate::dag::chunks_of;
use crate::dag::cids_of;
use crate::dag::leaf_node;
use crate::dag::leaves_of;
use crate::dag::lemma_chunks_concat;
use crate::dag::lemma_chunks_lens;
use crate::dag::merkle_tree_spec;
use crate::dag::node_wf;
use crate::dag::nodes_wf;
use crate::dag::upper_nodes;
use crate::hashing::cid_of;
use crate::node_codec::lemma_encode_injective;
use crate::reassemble::nm_backed;
use crate::reassemble::root_stored;
use crate::node_codec::encode_node;
use crate::reassemble::leaf_datas;
use crate::store::put_spec;
use crate::store::stored_spec;
use crate::dag::dup_of;
use crate::dag::pad_even;
use crate::dag::parent_node;
use crate::dag::reduce_level;
use crate::dag::NodeV;
use crate::reassemble::bfs_collect;
use crate::store::key_of;

verus! {

/// More fuel never changes a finished traversal.
pub proof fn lemma_bfs_fuel_mono(
    nm: Map<Seq<u8>, NodeV>,
    queue: Seq<Seq<u8>>,
    visited: Set<Seq<u8>>,
    f1: nat,
    f2: nat,
)
    requires
        f1 <= f2,
        bfs_collect(nm, queue, visited, f1) is Some,
    ensures
        bfs_collect(nm, queue, visited, f2) == bfs_collect(nm, queue, visited, f1),
    decreases f1,
{
    if queue.len() == 0 {
    } else {
        let c = queue.first();
        if visited.contains(key_of(c)) {
            lemma_bfs_fuel_mono(nm, queue.drop_first(), visited, (f1 - 1) as nat, (f2 - 1) as nat);
        } else {
            let n = nm[c];
            let visited2 = visited.insert(key_of(c));
            if n.is_dup {
                lemma_bfs_fuel_mono(
                    nm,
                    queue.drop_first(),
                    visited2,
                    (f1 - 1) as nat,
                    (f2 - 1) as nat,
                );
            } else if n.links.len() == 0 {
                lemma_bfs_fuel_mono(
                    nm,
                    queue.drop_first(),
                    visited2,
                    (f1 - 1) as nat,
                    (f2 - 1) as nat,
                );
            } else {
                lemma_bfs_fuel_mono(
                    nm,
                    queue.drop_first() + n.links,
                    visited2,
                    (f1 - 1) as nat,
                    (f2 - 1) as nat,
                );
            }
        }
    }
}

/// The children of the nodes of a level, in order.
pub open spec fn links_concat(ns: Seq<NodeV>) -> Seq<Seq<u8>>
    decreases ns.len(),
{
    if ns.len() == 0 {
        Seq::empty()
    } else {
        ns.first().links + links_concat(ns.drop_first())
    }
}

/// The children of the parents of an even level are exactly that level's
/// identifiers, in order.
pub proof fn lemma_links_concat_reduce(p: Seq<NodeV>)
    requires
        p.len() % 2 == 0,
    ensures
        links_concat(reduce_level(p)) == cids_of(p),
    decreases p.len(),
{
    if p.len() == 0 {
        assert(reduce_level(p) =~~= Seq::<NodeV>::empty());
        assert(links_concat(reduce_level(p)) =~~= cids_of(p));
    } else {
        lemma_links_concat_reduce(p.skip(2));
        let r = reduce_level(p);
        assert(r.first() == parent_node(p[0], p[1]));
        assert(r.drop_first() =~~= reduce_level(p.skip(2)));
        assert forall|i: int| 0 <= i < p.skip(2).len() implies cids_of(p.skip(2))[i] == cids_of(
            p,
        )[i + 2] by {
            assert(p.skip(2)[i] == p[i + 2]);
        }
        assert(links_concat(r) =~~= seq![p[0].cid, p[1].cid] + cids_of(p.skip(2)));
        assert(links_concat(r) =~~= cids_of(p));
    }
}

/// The storage keys of a level's nodes.
pub open spec fn level_keys(ns: Seq<NodeV>) -> Set<Seq<u8>> {
    Set::new(
        |k: Seq<u8>|
            exists|i: int| 0 <= i < ns.len() && #[trigger] key_of(ns[i].cid) == k,
    )
}

/// Draining one leaf level: the original leaves are collected in order;
/// trailing padding identifiers, whose keys are visited by the time they
/// are reached, are skipped.
proof fn lemma_leaf_level(
    nm: Map<Seq<u8>, NodeV>,
    rest: Seq<NodeV>,
    tail: Seq<Seq<u8>>,
    visited: Set<Seq<u8>>,
    fuel: nat,
)
    requires
        fuel >= rest.len() + tail.len(),
        forall|i: int|
            0 <= i < rest.len() ==> !(#[trigger] rest[i]).is_dup && rest[i].links.len() == 0
                && nm.contains_key(rest[i].cid) && nm[rest[i].cid] == rest[i],
        forall|i: int| 0 <= i < rest.len() ==> !visited.contains(key_of((#[trigger] rest[i]).cid)),
        forall|i: int, j: int|
            0 <= i < j < rest.len() ==> key_of((#[trigger] rest[i]).cid) != key_of(
                (#[trigger] rest[j]).cid,
            ),
        forall|t: int|
            0 <= t < tail.len() ==> visited.contains(key_of(#[trigger] tail[t])) || exists|i: int|
                0 <= i < rest.len() && (#[trigger] rest[i]).cid == tail[t],
    ensures
        bfs_collect(nm, cids_of(rest) + tail, visited, fuel) == Some(rest),
    decreases rest.len() + tail.len(),
{
    let q = cids_of(rest) + tail;
    if rest.len() > 0 {
        let n = rest.first();
        assert(q.first() == n.cid);
        assert(q.drop_first() =~~= cids_of(rest.drop_first()) + tail);
        let visited2 = visited.insert(key_of(n.cid));
        assert forall|t: int|
            0 <= t < tail.len() implies visited2.contains(key_of(#[trigger] tail[t])) || exists|
            i: int,
        |
            0 <= i < rest.drop_first().len() && (#[trigger] rest.drop_first()[i]).cid
                == tail[t] by {
            if !visited.contains(key_of(tail[t])) {
                let i = choose|i: int| 0 <= i < rest.len() && (#[trigger] rest[i]).cid == tail[t];
                if i == 0 {
                    assert(visited2.contains(key_of(tail[t])));
                } else {
                    assert(rest.drop_first()[i - 1].cid == tail[t]);
                }
            }
        }
        lemma_leaf_level(nm, rest.drop_first(), tail, visited2, (fuel - 1) as nat);
        assert(bfs_collect(nm, q, visited, fuel) == Some(seq![n] + rest.drop_first()));
        assert(seq![n] + rest.drop_first() =~~= rest);
    } else if tail.len() > 0 {
        assert(q.first() == tail[0]);
        assert(visited.contains(key_of(tail[0])));
        assert(q.drop_first() =~~= cids_of(rest) + tail.drop_first());
        lemma_leaf_level(nm, rest, tail.drop_first(), visited, (fuel - 1) as nat);
        assert(bfs_collect(nm, q, visited, fuel) == Some(rest));
    } else {
        assert(q.len() == 0);
        assert(bfs_collect(nm, q, visited, fuel) =~~= Some(Seq::<NodeV>::empty()));
        assert(rest =~~= Seq::<NodeV>::empty());
    }
}

/// Draining one internal level: each original node is expanded exactly
/// once, appending its children behind the pending queue; trailing
/// padding identifiers are skipped; nothing is collected.
proof fn lemma_internal_level(
    nm: Map<Seq<u8>, NodeV>,
    rest: Seq<NodeV>,
    tail: Seq<Seq<u8>>,
    produced: Seq<Seq<u8>>,
    visited: Set<Seq<u8>>,
    fuel: nat,
)
    requires
        fuel >= rest.len() + tail.len(),
        forall|i: int|
            0 <= i < rest.len() ==> !(#[trigger] rest[i]).is_dup && rest[i].links.len() > 0
                && nm.contains_key(rest[i].cid) && nm[rest[i].cid] == rest[i],
        forall|i: int| 0 <= i < rest.len() ==> !visited.contains(key_of((#[trigger] rest[i]).cid)),
        forall|i: int, j: int|
            0 <= i < j < rest.len() ==> key_of((#[trigger] rest[i]).cid) != key_of(
                (#[trigger] rest[j]).cid,
            ),
        forall|t: int|
            0 <= t < tail.len() ==> visited.contains(key_of(#[trigger] tail[t])) || exists|i: int|
                0 <= i < rest.len() && (#[trigger] rest[i]).cid == tail[t],
    ensures
        bfs_collect(nm, cids_of(rest) + tail + produced, visited, fuel) == bfs_collect(
            nm,
            produced + links_concat(rest),
            visited.union(level_keys(rest)),
            (fuel - rest.len() - tail.len()) as nat,
        ),
    decreases rest.len() + tail.len(),
{
    let q = cids_of(rest) + tail + produced;
    if rest.len() > 0 {
        let n = rest.first();
        assert(q.first() == n.cid);
        let visited2 = visited.insert(key_of(n.cid));
        assert(q.drop_first() + n.links =~~= cids_of(rest.drop_first()) + tail + (produced
            + n.links));
        assert forall|t: int|
            0 <= t < tail.len() implies visited2.contains(key_of(#[trigger] tail[t])) || exists|
            i: int,
        |
            0 <= i < rest.drop_first().len() && (#[trigger] rest.drop_first()[i]).cid
                == tail[t] by {
            if !visited.contains(key_of(tail[t])) {
                let i = choose|i: int| 0 <= i < rest.len() && (#[trigger] rest[i]).cid == tail[t];
                if i == 0 {
                    assert(visited2.contains(key_of(tail[t])));
                } else {
                    assert(rest.drop_first()[i - 1].cid == tail[t]);
                }
            }
        }
        lemma_internal_level(
            nm,
            rest.drop_first(),
            tail,
            produced + n.links,
            visited2,
            (fuel - 1) as nat,
        );
        assert(produced + n.links + links_concat(rest.drop_first()) =~~= produced + links_concat(
            rest,
        ));
        assert forall|k: Seq<u8>| #[trigger] level_keys(rest).contains(k) implies visited2.union(
            level_keys(rest.drop_first()),
        ).contains(k) by {
            let i = choose|i: int| 0 <= i < rest.len() && #[trigger] key_of(rest[i].cid) == k;
            if i == 0 {
                assert(visited2.contains(k));
            } else {
                assert(key_of(rest.drop_first()[i - 1].cid) == k);
                assert(level_keys(rest.drop_first()).contains(k));
            }
        }
        assert forall|k: Seq<u8>| #[trigger]
            level_keys(rest.drop_first()).contains(k) implies level_keys(rest).contains(k) by {
            let i = choose|i: int|
                0 <= i < rest.drop_first().len() && #[trigger] key_of(rest.drop_first()[i].cid)
                    == k;
            assert(key_of(rest[i + 1].cid) == k);
        }
        assert(key_of(rest[0].cid) == key_of(n.cid));
        assert(level_keys(rest).contains(key_of(n.cid)));
        assert(visited2.union(level_keys(rest.drop_first())) =~= visited.union(level_keys(rest)));
        assert(bfs_collect(nm, q, visited, fuel) == bfs_collect(
            nm,
            q.drop_first() + n.links,
            visited2,
            (fuel - 1) as nat,
        ));
    } else if tail.len() > 0 {
        assert(q.first() == tail[0]);
        assert(visited.contains(key_of(tail[0])));
        assert(q.drop_first() =~~= cids_of(rest) + tail.drop_first() + produced);
        lemma_internal_level(nm, rest, tail.drop_first(), produced, visited, (fuel - 1) as nat);
        assert(bfs_collect(nm, q, visited, fuel) == bfs_collect(
            nm,
            q.drop_first(),
            visited,
            (fuel - 1) as nat,
        ));
    } else {
        assert(q =~~= produced + links_concat(rest));
        assert(visited.union(level_keys(rest)) =~= visited);
    }
}

/// The total number of queue entries that draining a stack of padded
/// levels consumes.
pub open spec fn total_padded(ls: Seq<Seq<NodeV>>) -> nat
    decreases ls.len(),
{
    if ls.len() == 0 {
        0
    } else {
        total_padded(ls.drop_last()) + pad_even(ls.last()).len()
    }
}

/// A well-formed stack of levels for a traversal: every level is
/// non-empty; each level above the first holds the parents of the padded
/// level below it; the first level holds only leaves; every node is an
/// original (not a padding duplicate) that the node map holds under its
/// identifier; all storage keys across the stack are pairwise distinct
/// and none was visited yet.
pub open spec fn stack_wf(nm: Map<Seq<u8>, NodeV>, ls: Seq<Seq<NodeV>>, visited: Set<Seq<u8>>) -> bool {
    &&& forall|k: int| 0 <= k < ls.len() ==> (#[trigger] ls[k]).len() >= 1
    &&& forall|k: int|
        0 <= k < ls.len() - 1 ==> ls[k + 1] == reduce_level(pad_even(#[trigger] ls[k]))
    &&& forall|i: int| 0 <= i < ls[0].len() ==> (#[trigger] ls[0][i]).links.len() == 0
    &&& forall|k: int, i: int|
        0 <= k < ls.len() && 0 <= i < ls[k].len() ==> !(#[trigger] ls[k][i]).is_dup
            && nm.contains_key(ls[k][i].cid) && nm[ls[k][i].cid] == ls[k][i]
    &&& forall|k: int, i: int, k2: int, i2: int|
        0 <= k < ls.len() && 0 <= i < ls[k].len() && 0 <= k2 < ls.len() && 0 <= i2 < ls[k2].len()
            && (k != k2 || i != i2) ==> key_of((#[trigger] ls[k][i]).cid) != key_of(
            (#[trigger] ls[k2][i2]).cid,
        )
    &&& forall|k: int, i: int|
        0 <= k < ls.len() && 0 <= i < ls[k].len() ==> !visited.contains(
            key_of((#[trigger] ls[k][i]).cid),
        )
}

/// Draining a whole stack of levels, top padded level first, collects
/// exactly the first level: the original leaves, in order.
#[verifier::rlimit(40)]
pub proof fn lemma_descend(
    nm: Map<Seq<u8>, NodeV>,
    ls: Seq<Seq<NodeV>>,
    visited: Set<Seq<u8>>,
    fuel: nat,
)
    requires
        ls.len() >= 1,
        stack_wf(nm, ls, visited),
        fuel >= total_padded(ls),
    ensures
        bfs_collect(nm, cids_of(pad_even(ls.last())), visited, fuel) == Some(ls[0]),
    decreases ls.len(),
{
    let lv = ls.last();
    let tl: Seq<Seq<u8>> = if lv.len() % 2 == 1 {
        seq![lv.last().cid]
    } else {
        seq![]
    };
    assert(cids_of(pad_even(lv)) =~~= cids_of(lv) + tl);
    assert(total_padded(ls) == total_padded(ls.drop_last()) + pad_even(ls.last()).len());
    assert forall|i: int, j: int|
        0 <= i < j < lv.len() implies key_of((#[trigger] lv[i]).cid) != key_of(
        (#[trigger] lv[j]).cid,
    ) by {
        assert(lv[i] == ls[ls.len() - 1][i] && lv[j] == ls[ls.len() - 1][j]);
    }
    assert forall|i: int| 0 <= i < lv.len() implies !(#[trigger] lv[i]).is_dup
        && nm.contains_key(lv[i].cid) && nm[lv[i].cid] == lv[i] && !visited.contains(
        key_of(lv[i].cid),
    ) by {
        assert(lv[i] == ls[ls.len() - 1][i]);
    }
    assert(forall|t: int|
        0 <= t < tl.len() ==> visited.contains(key_of(#[trigger] tl[t])) || exists|i: int|
            0 <= i < lv.len() && (#[trigger] lv[i]).cid == tl[t]) by {
        if lv.len() % 2 == 1 {
            assert(lv[lv.len() - 1].cid == tl[0]);
        }
    }
    if ls.len() == 1 {
        assert(total_padded(ls.drop_last()) == 0) by {
            assert(ls.drop_last().len() == 0);
        }
        assert forall|i: int| 0 <= i < lv.len() implies (#[trigger] lv[i]).links.len() == 0 by {
            assert(lv[i] == ls[0][i]);
        }
        lemma_leaf_level(nm, lv, tl, visited, fuel);
        assert(bfs_collect(nm, cids_of(pad_even(lv)), visited, fuel) == Some(lv));
        assert(lv == ls[0]);
    } else {
        let below = ls[ls.len() - 2];
        let pb = pad_even(below);
        assert(lv == reduce_level(pb));
        assert(pb.len() % 2 == 0);
        assert forall|i: int| 0 <= i < lv.len() implies (#[trigger] lv[i]).links.len() > 0 by {
            assert(lv[i] == parent_node(pb[2 * i], pb[2 * i + 1]));
        }
        lemma_internal_level(nm, lv, tl, Seq::empty(), visited, fuel);
        assert(cids_of(lv) + tl + Seq::<Seq<u8>>::empty() =~~= cids_of(pad_even(lv)));
        lemma_links_concat_reduce(pb);
        assert(Seq::<Seq<u8>>::empty() + links_concat(lv) =~~= cids_of(pb));
        let visited2 = visited.union(level_keys(lv));
        let fuel2 = (fuel - lv.len() - tl.len()) as nat;
        assert(lv.len() + tl.len() == pad_even(lv).len());
        let ls2 = ls.drop_last();
        assert(ls2.len() >= 1);
        assert(ls2[0] == ls[0]);
        assert(ls2.last() == below);
        assert(stack_wf(nm, ls2, visited2)) by {
            assert forall|k: int| 0 <= k < ls2.len() implies (#[trigger] ls2[k]).len() >= 1 by {
                assert(ls2[k] == ls[k]);
            }
            assert forall|k: int|
                0 <= k < ls2.len() - 1 implies ls2[k + 1] == reduce_level(
                pad_even(#[trigger] ls2[k]),
            ) by {
                assert(ls2[k] == ls[k] && ls2[k + 1] == ls[k + 1]);
            }
            assert forall|i: int|
                0 <= i < ls2[0].len() implies (#[trigger] ls2[0][i]).links.len() == 0 by {
                assert(ls2[0] == ls[0]);
            }
            assert forall|k: int, i: int|
                0 <= k < ls2.len() && 0 <= i < ls2[k].len() implies !(#[trigger] ls2[k][i]).is_dup
                && nm.contains_key(ls2[k][i].cid) && nm[ls2[k][i].cid] == ls2[k][i] by {
                assert(ls2[k] == ls[k]);
            }
            assert forall|k: int, i: int, k2: int, i2: int|
                0 <= k < ls2.len() && 0 <= i < ls2[k].len() && 0 <= k2 < ls2.len() && 0 <= i2
                    < ls2[k2].len() && (k != k2 || i != i2) implies key_of(
                (#[trigger] ls2[k][i]).cid,
            ) != key_of((#[trigger] ls2[k2][i2]).cid) by {
                assert(ls2[k] == ls[k] && ls2[k2] == ls[k2]);
            }
            assert forall|k: int, i: int|
                0 <= k < ls2.len() && 0 <= i < ls2[k].len() implies !visited2.contains(
                key_of((#[trigger] ls2[k][i]).cid),
            ) by {
                assert(ls2[k] == ls[k]);
                assert(!visited.contains(key_of(ls[k][i].cid)));
                if level_keys(lv).contains(key_of(ls[k][i].cid)) {
                    let j = choose|j: int|
                        0 <= j < lv.len() && #[trigger] key_of(lv[j].cid) == key_of(ls[k][i].cid);
                    assert(lv[j] == ls[ls.len() - 1][j]);
                    assert(key_of(ls[ls.len() - 1][j].cid) != key_of(ls[k][i].cid));
                }
            }
        }
        lemma_descend(nm, ls2, visited2, fuel2);
        assert(bfs_collect(nm, cids_of(pad_even(lv)), visited, fuel) == bfs_collect(
            nm,
            cids_of(pb),
            visited2,
            fuel2,
        ));
        assert(bfs_collect(nm, cids_of(pad_even(ls2.last())), visited2, fuel2) == Some(ls2[0]));
    }
}

/// The levels of the reduction strictly below the root: the leaves
/// first, then each level of parents, up to (and including) the last
/// level of two nodes whose parent is the root.
pub open spec fn levels_below_root(level: Seq<NodeV>) -> Seq<Seq<NodeV>>
    decreases level.len(),
{
    if level.len() <= 1 {
        seq![]
    } else {
        seq![level] + levels_below_root(reduce_level(pad_even(level)))
    }
}

/// Structure of the level stack: every level is non-empty, consecutive
/// levels are linked by the padded reduction, the first level is the
/// starting one, and the reduction of the last level's padding is the
/// single root.
pub proof fn lemma_levels_structure(level: Seq<NodeV>)
    requires
        level.len() >= 2,
    ensures
        levels_below_root(level).len() >= 1,
        levels_below_root(level)[0] == level,
        forall|k: int|
            0 <= k < levels_below_root(level).len() ==> (#[trigger] levels_below_root(
                level,
            )[k]).len() >= 2,
        forall|k: int|
            0 <= k < levels_below_root(level).len() - 1 ==> levels_below_root(level)[k + 1]
                == reduce_level(pad_even(#[trigger] levels_below_root(level)[k])),
        reduce_level(pad_even(levels_below_root(level).last())).len() == 1,
    decreases level.len(),
{
    let next = reduce_level(pad_even(level));
    let ls = levels_below_root(level);
    if next.len() <= 1 {
        assert(ls =~~= seq![level]);
        assert(next.len() == 1);
    } else {
        lemma_levels_structure(next);
        let ls2 = levels_below_root(next);
        assert(ls =~~= seq![level] + ls2);
        assert forall|k: int| 0 <= k < ls.len() implies (#[trigger] ls[k]).len() >= 2 by {
            if k > 0 {
                assert(ls[k] == ls2[k - 1]);
            }
        }
        assert forall|k: int|
            0 <= k < ls.len() - 1 implies ls[k + 1] == reduce_level(
            pad_even(#[trigger] ls[k]),
        ) by {
            if k == 0 {
                assert(ls[1] == ls2[0]);
            } else {
                assert(ls[k] == ls2[k - 1] && ls[k + 1] == ls2[k]);
            }
        }
        assert(ls.last() == ls2.last());
    }
}

/// The last node of the built tree is the root: the parent of the padded
/// last level below it, so its links are exactly that level's
/// identifiers.
#[verifier::rlimit(60)]
pub proof fn lemma_build_root(leaves: Seq<NodeV>)
    requires
        leaves.len() >= 2,
    ensures
        build_tree(leaves).last() == reduce_level(pad_even(levels_below_root(leaves).last()))[0],
        build_tree(leaves).last().links == cids_of(pad_even(levels_below_root(leaves).last())),
    decreases leaves.len(),
{
    lemma_levels_structure(leaves);
    let parents = reduce_level(pad_even(leaves));
    let ls = levels_below_root(leaves);
    let dups: Seq<NodeV> = if leaves.len() % 2 == 1 {
        seq![dup_of(leaves.last())]
    } else {
        seq![]
    };
    assert(upper_nodes(leaves) == dups + parents + upper_nodes(parents));
    if parents.len() == 1 {
        assert(ls =~~= seq![leaves]);
        assert(upper_nodes(parents) =~~= Seq::<NodeV>::empty());
        assert(upper_nodes(leaves).last() == parents[0]);
        assert(build_tree(leaves).last() == upper_nodes(leaves).last());
        let pl = pad_even(leaves);
        assert(parents[0] == parent_node(pl[0], pl[1]));
        assert(pl.len() == 2);
        assert(parents[0].links =~~= cids_of(pl));
    } else {
        lemma_build_root(parents);
        assert(ls =~~= seq![leaves] + levels_below_root(parents));
        assert(ls.last() == levels_below_root(parents).last());
        assert(upper_nodes(parents).len() > 0) by {
            assert(build_tree(parents).last() == reduce_level(
                pad_even(levels_below_root(parents).last()),
            )[0]);
            assert(build_tree(parents).len() == parents.len() + upper_nodes(parents).len());
            if upper_nodes(parents).len() == 0 {
                assert(build_tree(parents) =~~= parents);
            }
        }
        assert(upper_nodes(leaves).last() == upper_nodes(parents).last());
        assert(build_tree(leaves).last() == upper_nodes(leaves).last());
        assert(build_tree(parents).last() == upper_nodes(parents).last()) by {
            assert(upper_nodes(parents).len() > 0);
        }
    }
}

/// The data of the leaf nodes of a buffer, concatenated in order, is the
/// buffer itself.
pub proof fn lemma_leaf_datas_of(data: Seq<u8>, size: nat)
    requires
        size > 0,
    ensures
        leaf_datas(leaves_of(data, size)) == data,
{
    lemma_chunks_concat(data, size);
    lemma_leaf_datas_flatten(chunks_of(data, size));
}

/// Concatenating the data of chunk leaves is concatenating the chunks.
proof fn lemma_leaf_datas_flatten(cs: Seq<Seq<u8>>)
    ensures
        leaf_datas(cs.map_values(|c: Seq<u8>| leaf_node(c))) == cs.flatten(),
    decreases cs.len(),
{
    let lv = cs.map_values(|c: Seq<u8>| leaf_node(c));
    if cs.len() == 0 {
        assert(leaf_datas(lv) =~= cs.flatten());
    } else {
        lemma_leaf_datas_flatten(cs.drop_first());
        assert(lv.drop_first() =~~= cs.drop_first().map_values(|c: Seq<u8>| leaf_node(c)));
        assert(lv.first() == leaf_node(cs.first()));
        assert(leaf_datas(lv) =~= cs.first() + leaf_datas(lv.drop_first()));
        assert(cs.flatten() == cs.first() + cs.drop_first().flatten());
    }
}

/// Round trip of the storage core, at the level of the stored graph.
///
/// For a buffer of at least two chunks, let the Merkle DAG be built over
/// its leaves and the extension attached to the root.  If node lookups
/// return the original node of every level (`stack_wf`: in particular,
/// no two distinct nodes share a storage key, the collision-freeness
/// that content addressing assumes), then the breadth-first traversal
/// from the root's links returns exactly the original leaves, whose
/// concatenated data is the original buffer, and the root's data decodes
/// to the extension.
pub proof fn lemma_round_trip(
    data: Seq<u8>,
    size: nat,
    ext: Seq<char>,
    nm: Map<Seq<u8>, NodeV>,
    root: NodeV,
    fuel: nat,
)
    requires
        size > 0,
        data.len() > size,
        root == merkle_tree_spec(leaves_of(data, size), ext).last(),
        stack_wf(nm, levels_below_root(leaves_of(data, size)), Set::empty()),
        fuel >= total_padded(levels_below_root(leaves_of(data, size))),
    ensures
        bfs_collect(nm, root.links, Set::empty(), fuel) == Some(leaves_of(data, size)),
        leaf_datas(leaves_of(data, size)) == data,
        root.data == Some(vstd::utf8::encode_utf8(ext)),
{
    let leaves = leaves_of(data, size);
    assert(chunks_of(data, size).len() >= 2) by {
        lemma_chunks_lens(data.skip(size as int), size);
        assert(chunks_of(data, size) == seq![data.take(size as int)] + chunks_of(
            data.skip(size as int),
            size,
        ));
        assert(data.skip(size as int).len() > 0);
    }
    assert(leaves.len() >= 2);
    lemma_levels_structure(leaves);
    lemma_build_root(leaves);
    let ls = levels_below_root(leaves);
    let tree = build_tree(leaves);
    assert(tree.len() == leaves.len() + upper_nodes(leaves).len());
    assert(tree.len() >= 2);
    assert(upper_nodes(leaves).len() >= 1) by {
        if upper_nodes(leaves).len() == 0 {
            assert(tree =~~= leaves);
            assert(tree.last() == leaves.last());
            assert(reduce_level(pad_even(ls.last()))[0] == parent_node(
                pad_even(ls.last())[0],
                pad_even(ls.last())[1],
            ));
        }
    }
    assert(merkle_tree_spec(leaves, ext) == attach_ext(tree, ext));
    assert(root.links == tree.last().links);
    assert(root.data == Some(vstd::utf8::encode_utf8(ext)));
    assert(root.links == cids_of(pad_even(ls.last())));
    lemma_descend(nm, ls, Set::empty(), fuel);
    assert(bfs_collect(nm, root.links, Set::empty(), fuel) == Some(ls[0]));
    assert(ls[0] == leaves);
    lemma_leaf_datas_of(data, size);
}

/// Persisting a concatenation persists the two parts in turn.
pub proof fn lemma_stored_concat(m: Map<Seq<u8>, Seq<u8>>, a: Seq<NodeV>, b: Seq<NodeV>)
    ensures
        stored_spec(m, a + b) == stored_spec(stored_spec(m, a), b),
    decreases a.len(),
{
    if a.len() == 0 {
        assert(a + b =~~= b);
    } else {
        lemma_stored_concat(put_spec(m, a.first()), a.drop_first(), b);
        assert((a + b).first() == a.first());
        assert((a + b).drop_first() =~~= a.drop_first() + b);
    }
}

/// Write-once persistence never changes a binding that is already there.
pub proof fn lemma_stored_preserves(m: Map<Seq<u8>, Seq<u8>>, ns: Seq<NodeV>, k: Seq<u8>)
    requires
        m.contains_key(k),
    ensures
        stored_spec(m, ns).contains_key(k),
        stored_spec(m, ns)[k] == m[k],
    decreases ns.len(),
{
    if ns.len() > 0 {
        lemma_stored_preserves(put_spec(m, ns.first()), ns.drop_first(), k);
    }
}

/// Persisting a level of nodes with fresh, pairwise distinct keys stores
/// each node under its own key, touches nothing else, and adds exactly
/// the level's keys.
pub proof fn lemma_store_level(m: Map<Seq<u8>, Seq<u8>>, ns: Seq<NodeV>)
    requires
        forall|i: int, j: int|
            0 <= i < j < ns.len() ==> key_of((#[trigger] ns[i]).cid) != key_of(
                (#[trigger] ns[j]).cid,
            ),
        forall|i: int| 0 <= i < ns.len() ==> !m.contains_key(key_of((#[trigger] ns[i]).cid)),
    ensures
        forall|i: int|
            0 <= i < ns.len() ==> stored_spec(m, ns).contains_key(
                key_of((#[trigger] ns[i]).cid),
            ) && stored_spec(m, ns)[key_of(ns[i].cid)] == encode_node(ns[i]),
        forall|k: Seq<u8>| #[trigger]
            m.contains_key(k) ==> stored_spec(m, ns).contains_key(k) && stored_spec(m, ns)[k]
                == m[k],
        forall|k: Seq<u8>| #[trigger]
            stored_spec(m, ns).contains_key(k) ==> m.contains_key(k) || level_keys(ns).contains(
                k,
            ),
    decreases ns.len(),
{
    if ns.len() > 0 {
        let n = ns.first();
        let m1 = put_spec(m, n);
        assert(m1 == m.insert(key_of(n.cid), encode_node(n)));
        lemma_store_level(m1, ns.drop_first());
        assert(stored_spec(m, ns) == stored_spec(m1, ns.drop_first()));
        assert forall|k: Seq<u8>| #[trigger]
            m.contains_key(k) implies stored_spec(m, ns).contains_key(k) && stored_spec(m, ns)[k]
            == m[k] by {
            assert(k != key_of(n.cid));
            assert(m1.contains_key(k) && m1[k] == m[k]);
        }
        assert forall|i: int|
            0 <= i < ns.len() implies stored_spec(m, ns).contains_key(
            key_of((#[trigger] ns[i]).cid),
        ) && stored_spec(m, ns)[key_of(ns[i].cid)] == encode_node(ns[i]) by {
            if i == 0 {
                assert(m1.contains_key(key_of(n.cid)));
                lemma_stored_preserves(m1, ns.drop_first(), key_of(n.cid));
            } else {
                assert(ns.drop_first()[i - 1] == ns[i]);
            }
        }
        assert forall|k: Seq<u8>| #[trigger]
            stored_spec(m, ns).contains_key(k) implies m.contains_key(k) || level_keys(
            ns,
        ).contains(k) by {
            if !m.contains_key(k) {
                if k == key_of(n.cid) {
                    assert(key_of(ns[0].cid) == k);
                    assert(level_keys(ns).contains(k));
                } else {
                    assert(stored_spec(m1, ns.drop_first()).contains_key(k));
                    if m1.contains_key(k) {
                        assert(k == key_of(n.cid) || m.contains_key(k));
                    }
                    assert(level_keys(ns.drop_first()).contains(k));
                    let i = choose|i: int|
                        0 <= i < ns.drop_first().len() && #[trigger] key_of(
                            ns.drop_first()[i].cid,
                        ) == k;
                    assert(key_of(ns[i + 1].cid) == k);
                    assert(level_keys(ns).contains(k));
                }
            }
        }
    }
}

/// Persisting nodes whose keys are all already present changes nothing:
/// this is how padding duplicates, stored after their originals, become
/// no-ops.
pub proof fn lemma_store_noop(m: Map<Seq<u8>, Seq<u8>>, ns: Seq<NodeV>)
    requires
        forall|i: int| 0 <= i < ns.len() ==> m.contains_key(key_of((#[trigger] ns[i]).cid)),
    ensures
        stored_spec(m, ns) == m,
    decreases ns.len(),
{
    if ns.len() > 0 {
        assert(put_spec(m, ns.first()) == m);
        lemma_store_noop(m, ns.drop_first());
    }
}

/// The nodes above a level as the builder persists them, with the root
/// (the last node) replaced by its extension-carrying form.
pub open spec fn upper_ext(level: Seq<NodeV>, rext: NodeV) -> Seq<NodeV>
    decreases level.len(),
{
    if level.len() <= 1 {
        seq![]
    } else {
        let dups: Seq<NodeV> = if level.len() % 2 == 1 {
            seq![dup_of(level.last())]
        } else {
            seq![]
        };
        let parents = reduce_level(pad_even(level));
        if parents.len() == 1 {
            dups + seq![rext]
        } else {
            dups + parents + upper_ext(parents, rext)
        }
    }
}

/// Replacing the last of the upper nodes gives the extension form.
proof fn lemma_upper_update(level: Seq<NodeV>, rext: NodeV)
    requires
        level.len() >= 2,
    ensures
        upper_nodes(level).len() >= 1,
        upper_nodes(level).update(upper_nodes(level).len() - 1, rext) == upper_ext(level, rext),
    decreases level.len(),
{
    let dups: Seq<NodeV> = if level.len() % 2 == 1 {
        seq![dup_of(level.last())]
    } else {
        seq![]
    };
    let parents = reduce_level(pad_even(level));
    assert(upper_nodes(level) == dups + parents + upper_nodes(parents));
    if parents.len() == 1 {
        assert(upper_nodes(parents) =~~= Seq::<NodeV>::empty());
        assert(upper_nodes(level) =~~= dups + parents);
        assert(upper_nodes(level).update(upper_nodes(level).len() - 1, rext) =~~= dups + seq![
            rext,
        ]);
    } else {
        lemma_upper_update(parents, rext);
        assert(upper_nodes(level).update(upper_nodes(level).len() - 1, rext) =~~= dups + parents
            + upper_nodes(parents).update(upper_nodes(parents).len() - 1, rext));
    }
}

/// The root node carrying the encoded extension.
pub open spec fn root_ext(leaves: Seq<NodeV>, ext: Seq<char>) -> NodeV {
    NodeV {
        cid: build_tree(leaves).last().cid,
        links: build_tree(leaves).last().links,
        data: Some(vstd::utf8::encode_utf8(ext)),
        is_dup: build_tree(leaves).last().is_dup,
    }
}

/// The finished tree is the leaves followed by the upper nodes with the
/// extension-carrying root in last place.
proof fn lemma_attach_is_upper_ext(leaves: Seq<NodeV>, ext: Seq<char>)
    requires
        leaves.len() >= 2,
    ensures
        merkle_tree_spec(leaves, ext) == leaves + upper_ext(leaves, root_ext(leaves, ext)),
{
    lemma_upper_update(leaves, root_ext(leaves, ext));
    let tree = build_tree(leaves);
    assert(tree.last() == upper_nodes(leaves).last());
    assert(merkle_tree_spec(leaves, ext) =~~= leaves + upper_nodes(leaves).update(
        upper_nodes(leaves).len() - 1,
        root_ext(leaves, ext),
    ));
}

/// Freshness of everything above a level: no upper node's key, nor the
/// root's, is bound in the store yet.
pub open spec fn upper_fresh(m: Map<Seq<u8>, Seq<u8>>, ls: Seq<Seq<NodeV>>, rext: NodeV) -> bool {
    &&& forall|k: int, i: int|
        1 <= k < ls.len() && 0 <= i < ls[k].len() ==> !m.contains_key(
            key_of((#[trigger] ls[k][i]).cid),
        )
    &&& !m.contains_key(key_of(rext.cid))
}

/// Distinctness of the keys of everything above the first level,
/// together with the root's key.
pub open spec fn upper_distinct(ls: Seq<Seq<NodeV>>, rext: NodeV) -> bool {
    &&& forall|k: int, i: int, k2: int, i2: int|
        1 <= k < ls.len() && 0 <= i < ls[k].len() && 1 <= k2 < ls.len() && 0 <= i2 < ls[k2].len()
            && (k != k2 || i != i2) ==> key_of((#[trigger] ls[k][i]).cid) != key_of(
            (#[trigger] ls[k2][i2]).cid,
        )
    &&& forall|k: int, i: int|
        1 <= k < ls.len() && 0 <= i < ls[k].len() ==> key_of((#[trigger] ls[k][i]).cid) != key_of(
            rext.cid,
        )
}

/// The store holds every node above the first level, and the
/// extension-carrying root, each under its own key.
pub open spec fn upper_stored(m: Map<Seq<u8>, Seq<u8>>, ls: Seq<Seq<NodeV>>, rext: NodeV) -> bool {
    &&& forall|k: int, i: int|
        1 <= k < ls.len() && 0 <= i < ls[k].len() ==> m.contains_key(
            key_of((#[trigger] ls[k][i]).cid),
        ) && m[key_of(ls[k][i].cid)] == encode_node(ls[k][i])
    &&& m.contains_key(key_of(rext.cid))
    &&& m[key_of(rext.cid)] == encode_node(rext)
}

/// Whether a key belongs to a node above the first level, or to the root.
pub open spec fn upper_key(ls: Seq<Seq<NodeV>>, rext: NodeV, x: Seq<u8>) -> bool {
    x == key_of(rext.cid) || exists|k: int, i: int|
        1 <= k < ls.len() && 0 <= i < ls[k].len() && x == key_of((#[trigger] ls[k][i]).cid)
}

/// Persisting the upper nodes over an already-persisted level stores
/// every parent level once and the extension-carrying root last; the
/// padding duplicates are no-ops because their originals stand below.
#[verifier::rlimit(60)]
proof fn lemma_store_upper(m: Map<Seq<u8>, Seq<u8>>, level: Seq<NodeV>, rext: NodeV)
    requires
        level.len() >= 2,
        upper_fresh(m, levels_below_root(level), rext),
        upper_distinct(levels_below_root(level), rext),
        forall|i: int| 0 <= i < level.len() ==> m.contains_key(key_of((#[trigger] level[i]).cid)),
    ensures
        upper_stored(stored_spec(m, upper_ext(level, rext)), levels_below_root(level), rext),
        forall|x: Seq<u8>| #[trigger]
            m.contains_key(x) ==> stored_spec(m, upper_ext(level, rext)).contains_key(x)
                && stored_spec(m, upper_ext(level, rext))[x] == m[x],
        forall|x: Seq<u8>| #[trigger]
            stored_spec(m, upper_ext(level, rext)).contains_key(x) ==> m.contains_key(x)
                || upper_key(levels_below_root(level), rext, x),
    decreases level.len(),
{
    let ls = levels_below_root(level);
    lemma_levels_structure(level);
    let dups: Seq<NodeV> = if level.len() % 2 == 1 {
        seq![dup_of(level.last())]
    } else {
        seq![]
    };
    let parents = reduce_level(pad_even(level));
    assert forall|i: int|
        0 <= i < dups.len() implies m.contains_key(key_of((#[trigger] dups[i]).cid)) by {
        assert(dups[i] == dup_of(level.last()));
        assert(level[level.len() - 1].cid == dups[i].cid);
    }
    lemma_store_noop(m, dups);
    if parents.len() == 1 {
        assert(ls =~~= seq![level]);
        assert(upper_ext(level, rext) == dups + seq![rext]);
        lemma_stored_concat(m, dups, seq![rext]);
        let m2 = stored_spec(m, upper_ext(level, rext));
        assert(m2 == put_spec(m, rext)) by {
            assert(stored_spec(m, dups + seq![rext]) == stored_spec(
                stored_spec(m, dups),
                seq![rext],
            ));
            assert(seq![rext].first() == rext);
            assert(seq![rext].drop_first() =~~= Seq::<NodeV>::empty());
            assert(stored_spec(m, seq![rext]) == stored_spec(
                put_spec(m, rext),
                seq![rext].drop_first(),
            ));
            assert(stored_spec(put_spec(m, rext), Seq::<NodeV>::empty()) == put_spec(m, rext));
            assert(stored_spec(put_spec(m, rext), seq![rext].drop_first()) == stored_spec(
                put_spec(m, rext),
                Seq::<NodeV>::empty(),
            ));
        }
        assert(m2 == m.insert(key_of(rext.cid), encode_node(rext)));
    } else {
        let ls2 = levels_below_root(parents);
        assert(ls =~~= seq![level] + ls2);
        lemma_levels_structure(parents);
        assert(ls2[0] == parents);
        assert(ls[1] == parents);
        assert(upper_ext(level, rext) == dups + parents + upper_ext(parents, rext));
        lemma_stored_concat(m, dups, parents + upper_ext(parents, rext));
        lemma_stored_concat(m, parents, upper_ext(parents, rext));
        assert(stored_spec(m, upper_ext(level, rext)) == stored_spec(
            stored_spec(m, parents),
            upper_ext(parents, rext),
        )) by {
            assert(dups + parents + upper_ext(parents, rext) =~~= dups + (parents + upper_ext(
                parents,
                rext,
            )));
            lemma_stored_concat(m, dups, parents + upper_ext(parents, rext));
        }
        assert forall|i: int, j: int|
            0 <= i < j < parents.len() implies key_of((#[trigger] parents[i]).cid) != key_of(
            (#[trigger] parents[j]).cid,
        ) by {
            assert(ls[1][i] == parents[i] && ls[1][j] == parents[j]);
        }
        assert forall|i: int|
            0 <= i < parents.len() implies !m.contains_key(
            key_of((#[trigger] parents[i]).cid),
        ) by {
            assert(ls[1][i] == parents[i]);
        }
        lemma_store_level(m, parents);
        let m1 = stored_spec(m, parents);
        assert(upper_fresh(m1, ls2, rext)) by {
            assert forall|k: int, i: int|
                1 <= k < ls2.len() && 0 <= i < ls2[k].len() implies !m1.contains_key(
                key_of((#[trigger] ls2[k][i]).cid),
            ) by {
                assert(ls[k + 1] == ls2[k]);
                assert(!m.contains_key(key_of(ls[k + 1][i].cid)));
                if m1.contains_key(key_of(ls2[k][i].cid)) {
                    assert(level_keys(parents).contains(key_of(ls2[k][i].cid)));
                    let j = choose|j: int|
                        0 <= j < parents.len() && #[trigger] key_of(parents[j].cid) == key_of(
                            ls2[k][i].cid,
                        );
                    assert(ls[1][j] == parents[j]);
                }
            }
            assert(!m1.contains_key(key_of(rext.cid))) by {
                if m1.contains_key(key_of(rext.cid)) {
                    assert(level_keys(parents).contains(key_of(rext.cid)));
                    let j = choose|j: int|
                        0 <= j < parents.len() && #[trigger] key_of(parents[j].cid) == key_of(
                            rext.cid,
                        );
                    assert(ls[1][j] == parents[j]);
                }
            }
        }
        assert(upper_distinct(ls2, rext)) by {
            assert forall|k: int, i: int, k2: int, i2: int|
                1 <= k < ls2.len() && 0 <= i < ls2[k].len() && 1 <= k2 < ls2.len() && 0 <= i2
                    < ls2[k2].len() && (k != k2 || i != i2) implies key_of(
                (#[trigger] ls2[k][i]).cid,
            ) != key_of((#[trigger] ls2[k2][i2]).cid) by {
                assert(ls[k + 1] == ls2[k] && ls[k2 + 1] == ls2[k2]);
            }
            assert forall|k: int, i: int|
                1 <= k < ls2.len() && 0 <= i < ls2[k].len() implies key_of(
                (#[trigger] ls2[k][i]).cid,
            ) != key_of(rext.cid) by {
                assert(ls[k + 1] == ls2[k]);
            }
        }
        assert(forall|i: int|
            0 <= i < parents.len() ==> m1.contains_key(key_of((#[trigger] parents[i]).cid)));
        lemma_store_upper(m1, parents, rext);
        let m2 = stored_spec(m1, upper_ext(parents, rext));
        assert(upper_stored(m2, ls, rext)) by {
            assert forall|k: int, i: int|
                1 <= k < ls.len() && 0 <= i < ls[k].len() implies m2.contains_key(
                key_of((#[trigger] ls[k][i]).cid),
            ) && m2[key_of(ls[k][i].cid)] == encode_node(ls[k][i]) by {
                if k == 1 {
                    assert(ls[1][i] == parents[i]);
                    assert(m1.contains_key(key_of(parents[i].cid)) && m1[key_of(parents[i].cid)]
                        == encode_node(parents[i]));
                } else {
                    assert(ls[k] == ls2[k - 1]);
                }
            }
        }
        assert forall|x: Seq<u8>| #[trigger]
            stored_spec(m, upper_ext(level, rext)).contains_key(x) implies m.contains_key(x)
            || upper_key(ls, rext, x) by {
            if !m.contains_key(x) {
                if m1.contains_key(x) {
                    assert(level_keys(parents).contains(x));
                    let j = choose|j: int|
                        0 <= j < parents.len() && #[trigger] key_of(parents[j].cid) == x;
                    assert(ls[1][j] == parents[j]);
                    assert(upper_key(ls, rext, x));
                } else {
                    assert(upper_key(ls2, rext, x));
                    if x != key_of(rext.cid) {
                        let (k, i) = choose|k: int, i: int|
                            1 <= k < ls2.len() && 0 <= i < ls2[k].len() && x == key_of(
                                (#[trigger] ls2[k][i]).cid,
                            );
                        assert(ls[k + 1] == ls2[k]);
                        assert(1 <= k + 1 < ls.len() && x == key_of(ls[k + 1][i].cid));
                        assert(upper_key(ls, rext, x));
                    }
                }
            }
        }
    }
}

/// Keys of every level node and of the root, pairwise distinct: the
/// collision-freeness that content addressing assumes.
pub open spec fn tree_keys_distinct(ls: Seq<Seq<NodeV>>, rext: NodeV) -> bool {
    &&& forall|k: int, i: int, k2: int, i2: int|
        0 <= k < ls.len() && 0 <= i < ls[k].len() && 0 <= k2 < ls.len() && 0 <= i2 < ls[k2].len()
            && (k != k2 || i != i2) ==> key_of((#[trigger] ls[k][i]).cid) != key_of(
            (#[trigger] ls[k2][i2]).cid,
        )
    &&& forall|k: int, i: int|
        0 <= k < ls.len() && 0 <= i < ls[k].len() ==> key_of((#[trigger] ls[k][i]).cid) != key_of(
            rext.cid,
        )
}

/// Persisting a whole built tree into an empty store binds exactly one
/// key per node: each level node and the extension-carrying root under
/// their own keys, and nothing else.
pub proof fn lemma_store_tree(leaves: Seq<NodeV>, ext: Seq<char>)
    requires
        leaves.len() >= 2,
        tree_keys_distinct(levels_below_root(leaves), root_ext(leaves, ext)),
    ensures
        ({
            let m = stored_spec(Map::<Seq<u8>, Seq<u8>>::empty(), merkle_tree_spec(leaves, ext));
            let ls = levels_below_root(leaves);
            let rext = root_ext(leaves, ext);
            &&& forall|k: int, i: int|
                0 <= k < ls.len() && 0 <= i < ls[k].len() ==> m.contains_key(
                    key_of((#[trigger] ls[k][i]).cid),
                ) && m[key_of(ls[k][i].cid)] == encode_node(ls[k][i])
            &&& m.contains_key(key_of(rext.cid))
            &&& m[key_of(rext.cid)] == encode_node(rext)
            &&& forall|x: Seq<u8>| #[trigger]
                m.contains_key(x) ==> x == key_of(rext.cid) || exists|k: int, i: int|
                    0 <= k < ls.len() && 0 <= i < ls[k].len() && x == key_of(
                        (#[trigger] ls[k][i]).cid,
                    )
        }),
{
    let ls = levels_below_root(leaves);
    let rext = root_ext(leaves, ext);
    let m0 = Map::<Seq<u8>, Seq<u8>>::empty();
    lemma_levels_structure(leaves);
    lemma_attach_is_upper_ext(leaves, ext);
    lemma_stored_concat(m0, leaves, upper_ext(leaves, rext));
    assert forall|i: int, j: int|
        0 <= i < j < leaves.len() implies key_of((#[trigger] leaves[i]).cid) != key_of(
        (#[trigger] leaves[j]).cid,
    ) by {
        assert(ls[0][i] == leaves[i] && ls[0][j] == leaves[j]);
    }
    lemma_store_level(m0, leaves);
    let m1 = stored_spec(m0, leaves);
    assert(upper_fresh(m1, ls, rext)) by {
        assert forall|k: int, i: int|
            1 <= k < ls.len() && 0 <= i < ls[k].len() implies !m1.contains_key(
            key_of((#[trigger] ls[k][i]).cid),
        ) by {
            if m1.contains_key(key_of(ls[k][i].cid)) {
                assert(level_keys(leaves).contains(key_of(ls[k][i].cid)));
                let j = choose|j: int|
                    0 <= j < leaves.len() && #[trigger] key_of(leaves[j].cid) == key_of(
                        ls[k][i].cid,
                    );
                assert(ls[0][j] == leaves[j]);
            }
        }
        assert(!m1.contains_key(key_of(rext.cid))) by {
            if m1.contains_key(key_of(rext.cid)) {
                assert(level_keys(leaves).contains(key_of(rext.cid)));
                let j = choose|j: int|
                    0 <= j < leaves.len() && #[trigger] key_of(leaves[j].cid) == key_of(rext.cid);
                assert(ls[0][j] == leaves[j]);
            }
        }
    }
    assert(upper_distinct(ls, rext));
    assert forall|i: int|
        0 <= i < leaves.len() implies m1.contains_key(key_of((#[trigger] leaves[i]).cid)) by {}
    lemma_store_upper(m1, leaves, rext);
    let m = stored_spec(m1, upper_ext(leaves, rext));
    assert(m == stored_spec(m0, merkle_tree_spec(leaves, ext)));
    assert forall|k: int, i: int|
        0 <= k < ls.len() && 0 <= i < ls[k].len() implies m.contains_key(
        key_of((#[trigger] ls[k][i]).cid),
    ) && m[key_of(ls[k][i].cid)] == encode_node(ls[k][i]) by {
        if k == 0 {
            assert(ls[0][i] == leaves[i]);
            assert(m1.contains_key(key_of(leaves[i].cid)) && m1[key_of(leaves[i].cid)]
                == encode_node(leaves[i]));
        }
    }
    assert forall|x: Seq<u8>| #[trigger]
        m.contains_key(x) implies x == key_of(rext.cid) || exists|k: int, i: int|
        0 <= k < ls.len() && 0 <= i < ls[k].len() && x == key_of((#[trigger] ls[k][i]).cid) by {
        if !m1.contains_key(x) {
            assert(upper_key(ls, rext, x));
        } else {
            assert(level_keys(leaves).contains(x));
            let j = choose|j: int| 0 <= j < leaves.len() && #[trigger] key_of(leaves[j].cid) == x;
            assert(ls[0][j] == leaves[j]);
            assert(0 <= 0 < ls.len() && 0 <= j < ls[0].len() && x == key_of(ls[0][j].cid));
        }
    }
}

/// Every node of every level is well formed and an original, not a
/// padding duplicate.
pub proof fn lemma_levels_props(level: Seq<NodeV>)
    requires
        nodes_wf(level),
        forall|i: int| 0 <= i < level.len() ==> !(#[trigger] level[i]).is_dup,
    ensures
        forall|k: int, i: int|
            0 <= k < levels_below_root(level).len() && 0 <= i < levels_below_root(
                level,
            )[k].len() ==> node_wf((#[trigger] levels_below_root(level)[k][i])) && !levels_below_root(
                level,
            )[k][i].is_dup,
    decreases level.len(),
{
    let ls = levels_below_root(level);
    if level.len() >= 2 {
        let pl = pad_even(level);
        let parents = reduce_level(pl);
        assert forall|i: int|
            0 <= i < parents.len() implies node_wf(#[trigger] parents[i]) && !parents[i].is_dup by {
            assert(parents[i] == parent_node(pl[2 * i], pl[2 * i + 1]));
            assert(node_wf(pl[2 * i]) && node_wf(pl[2 * i + 1])) by {
                if level.len() % 2 == 1 && 2 * i + 1 == pl.len() - 1 {
                    assert(pl[2 * i + 1] == dup_of(level.last()));
                }
            }
            crate::hashing::lemma_cid_of_wf(pl[2 * i].cid + pl[2 * i + 1].cid);
        }
        lemma_levels_props(parents);
        let ls2 = levels_below_root(parents);
        assert forall|k: int, i: int|
            0 <= k < ls.len() && 0 <= i < ls[k].len() implies node_wf(
            (#[trigger] ls[k][i]),
        ) && !ls[k][i].is_dup by {
            if parents.len() <= 1 {
                assert(ls =~~= seq![level]);
            } else {
                assert(ls =~~= seq![level] + ls2);
                if k > 0 {
                    assert(ls[k] == ls2[k - 1]);
                }
            }
        }
    }
}

/// The cid-to-node map of a built tree: every level node and the
/// extension-carrying root, under its own identifier.
pub open spec fn tree_node_map(ls: Seq<Seq<NodeV>>, rext: NodeV) -> Map<Seq<u8>, NodeV> {
    Map::new(
        |c: Seq<u8>|
            c == rext.cid || exists|k: int, i: int|
                0 <= k < ls.len() && 0 <= i < ls[k].len() && (#[trigger] ls[k][i]).cid == c,
        |c: Seq<u8>|
            if c == rext.cid {
                rext
            } else {
                let (k, i) = choose|k: int, i: int|
                    0 <= k < ls.len() && 0 <= i < ls[k].len() && (#[trigger] ls[k][i]).cid == c;
                ls[k][i]
            },
    )
}

/// The leaves of a buffer longer than one chunk: at least two of them,
/// all well formed, none a duplicate, none with links.
proof fn lemma_leaves_shape(data: Seq<u8>, size: nat)
    requires
        size > 0,
        size <= 0xFFFF_0000,
        data.len() > size,
    ensures
        leaves_of(data, size).len() >= 2,
        nodes_wf(leaves_of(data, size)),
        forall|i: int|
            0 <= i < leaves_of(data, size).len() ==> !(#[trigger] leaves_of(data, size)[i]).is_dup
                && leaves_of(data, size)[i].links.len() == 0,
{
    let leaves = leaves_of(data, size);
    lemma_chunks_lens(data, size);
    lemma_chunks_lens(data.skip(size as int), size);
    assert(chunks_of(data, size) == seq![data.take(size as int)] + chunks_of(
        data.skip(size as int),
        size,
    ));
    assert(data.skip(size as int).len() > 0);
    assert(chunks_of(data, size).len() >= 2);
    assert forall|i: int|
        0 <= i < leaves.len() implies node_wf(#[trigger] leaves[i]) && !leaves[i].is_dup
        && leaves[i].links.len() == 0 by {
        assert(leaves[i] == leaf_node(chunks_of(data, size)[i]));
        crate::hashing::lemma_cid_of_wf(chunks_of(data, size)[i]);
    }
}

/// Shape of the extension-carrying root: the parent of the padded top
/// level, well formed whenever the encoded extension fits a store value.
proof fn lemma_root_ext_shape(leaves: Seq<NodeV>, ext: Seq<char>)
    requires
        leaves.len() >= 2,
        nodes_wf(leaves),
        forall|i: int| 0 <= i < leaves.len() ==> !(#[trigger] leaves[i]).is_dup,
        vstd::utf8::encode_utf8(ext).len() <= 0xFFFF_0000,
    ensures
        root_ext(leaves, ext).links == cids_of(pad_even(levels_below_root(leaves).last())),
        node_wf(root_ext(leaves, ext)),
        root_ext(leaves, ext).data == Some(vstd::utf8::encode_utf8(ext)),
{
    let ls = levels_below_root(leaves);
    let rext = root_ext(leaves, ext);
    lemma_levels_structure(leaves);
    lemma_build_root(leaves);
    lemma_levels_props(leaves);
    let top = ls.last();
    let pt = pad_even(top);
    assert(build_tree(leaves).last() == reduce_level(pt)[0]);
    assert(reduce_level(pt)[0] == parent_node(pt[0], pt[1]));
    assert(rext.cid == cid_of(pt[0].cid + pt[1].cid) && rext.links == seq![pt[0].cid, pt[1].cid]);
    assert(pt.len() == 2) by {
        assert(reduce_level(pt).len() == 1);
    }
    assert(rext.links =~~= cids_of(pt));
    crate::hashing::lemma_cid_of_wf(pt[0].cid + pt[1].cid);
    assert(node_wf(top[0]));
    assert(crate::hashing::cid_wf(pt[0].cid) && crate::hashing::cid_wf(pt[1].cid)) by {
        assert(pt[0] == top[0]);
        if top.len() % 2 == 1 {
            assert(pt[1] == dup_of(top.last()));
            assert(node_wf(top[top.len() - 1]));
        } else {
            assert(pt[1] == top[1]);
            assert(node_wf(top[1]));
        }
    }
    assert forall|i: int| 0 <= i < rext.links.len() implies crate::hashing::cid_wf(
        #[trigger] rext.links[i],
    ) by {}
}

/// The tree's own node map holds every level node and the root, each
/// under its identifier.
proof fn lemma_tree_node_map_props(ls: Seq<Seq<NodeV>>, rext: NodeV)
    requires
        tree_keys_distinct(ls, rext),
    ensures
        forall|k: int, i: int|
            0 <= k < ls.len() && 0 <= i < ls[k].len() ==> tree_node_map(ls, rext).contains_key(
                (#[trigger] ls[k][i]).cid,
            ) && tree_node_map(ls, rext)[ls[k][i].cid] == ls[k][i],
        tree_node_map(ls, rext).contains_key(rext.cid),
        tree_node_map(ls, rext)[rext.cid] == rext,
{
    let nmg = tree_node_map(ls, rext);
    assert forall|k: int, i: int|
        0 <= k < ls.len() && 0 <= i < ls[k].len() implies nmg.contains_key(
        (#[trigger] ls[k][i]).cid,
    ) && nmg[ls[k][i].cid] == ls[k][i] by {
        let c = ls[k][i].cid;
        assert(c != rext.cid) by {
            if c == rext.cid {
                assert(key_of(ls[k][i].cid) == key_of(rext.cid));
            }
        }
        let (k2, i2) = choose|k2: int, i2: int|
            0 <= k2 < ls.len() && 0 <= i2 < ls[k2].len() && (#[trigger] ls[k2][i2]).cid == c;
        assert((k2, i2) == (k, i)) by {
            if k2 != k || i2 != i {
                assert(key_of(ls[k][i].cid) != key_of(ls[k2][i2].cid));
            }
        }
    }
}

/// A traversal observes only identifiers the tree map knows (the queue
/// holds such identifiers and links never leave them), so a map that
/// agrees with the tree map on those identifiers drives the traversal to
/// the same result.
proof fn lemma_bfs_agree(
    nmx: Map<Seq<u8>, NodeV>,
    nmg: Map<Seq<u8>, NodeV>,
    queue: Seq<Seq<u8>>,
    visited: Set<Seq<u8>>,
    fuel: nat,
)
    requires
        forall|t: int| 0 <= t < queue.len() ==> nmg.contains_key(#[trigger] queue[t]),
        forall|c: Seq<u8>| #[trigger]
            nmg.contains_key(c) ==> forall|j: int|
                0 <= j < nmg[c].links.len() ==> nmg.contains_key(#[trigger] nmg[c].links[j]),
        forall|c: Seq<u8>|
            nmg.contains_key(c) && #[trigger] nmx.contains_key(c) ==> nmx[c] == nmg[c],
        bfs_collect(nmx, queue, visited, fuel) is Some,
    ensures
        bfs_collect(nmg, queue, visited, fuel) == bfs_collect(nmx, queue, visited, fuel),
    decreases fuel,
{
    if queue.len() == 0 {
    } else {
        let c = queue.first();
        assert(nmg.contains_key(c));
        if visited.contains(key_of(c)) {
            lemma_bfs_agree(nmx, nmg, queue.drop_first(), visited, (fuel - 1) as nat);
        } else {
            assert(nmx.contains_key(c));
            let n = nmx[c];
            assert(n == nmg[c]);
            let visited2 = visited.insert(key_of(c));
            if n.is_dup {
                lemma_bfs_agree(nmx, nmg, queue.drop_first(), visited2, (fuel - 1) as nat);
            } else if n.links.len() == 0 {
                lemma_bfs_agree(nmx, nmg, queue.drop_first(), visited2, (fuel - 1) as nat);
            } else {
                assert forall|t: int|
                    0 <= t < (queue.drop_first() + n.links).len() implies nmg.contains_key(
                    #[trigger] (queue.drop_first() + n.links)[t],
                ) by {
                    if t >= queue.drop_first().len() {
                        assert((queue.drop_first() + n.links)[t] == nmg[c].links[t
                            - queue.drop_first().len()]);
                    }
                }
                lemma_bfs_agree(nmx, nmg, queue.drop_first() + n.links, visited2, (fuel - 1) as nat);
            }
        }
    }
}

/// A node map backed by a store that holds exactly a built tree agrees
/// with the tree's own node map on every identifier the tree knows.
proof fn lemma_backed_agrees(
    m: Map<Seq<u8>, Seq<u8>>,
    ls: Seq<Seq<NodeV>>,
    rext: NodeV,
    nmx: Map<Seq<u8>, NodeV>,
)
    requires
        tree_keys_distinct(ls, rext),
        node_wf(rext),
        forall|k: int, i: int|
            0 <= k < ls.len() && 0 <= i < ls[k].len() ==> node_wf(#[trigger] ls[k][i]),
        forall|k: int, i: int|
            0 <= k < ls.len() && 0 <= i < ls[k].len() ==> m.contains_key(
                key_of((#[trigger] ls[k][i]).cid),
            ) && m[key_of(ls[k][i].cid)] == encode_node(ls[k][i]),
        m.contains_key(key_of(rext.cid)),
        m[key_of(rext.cid)] == encode_node(rext),
        nm_backed(m, nmx),
    ensures
        forall|c: Seq<u8>|
            tree_node_map(ls, rext).contains_key(c) && #[trigger] nmx.contains_key(c) ==> nmx[c]
                == tree_node_map(ls, rext)[c],
{
    let nmg = tree_node_map(ls, rext);
    lemma_tree_node_map_props(ls, rext);
    assert forall|c: Seq<u8>|
        nmg.contains_key(c) && #[trigger] nmx.contains_key(c) implies nmx[c] == nmg[c] by {
        assert(m.contains_key(key_of(c)) && m[key_of(c)] == encode_node(nmx[c]));
        if c == rext.cid {
            lemma_encode_injective(nmx[c], rext);
        } else {
            let (k, i) = choose|k: int, i: int|
                0 <= k < ls.len() && 0 <= i < ls[k].len() && (#[trigger] ls[k][i]).cid == c;
            assert(nmg[c] == ls[k][i]);
            assert(m[key_of(ls[k][i].cid)] == encode_node(ls[k][i]));
            lemma_encode_injective(nmx[c], ls[k][i]);
        }
    }
}

/// Every link of a node of the tree map leads back into the tree map.
/// One internal node's links lead back into the tree map.
proof fn lemma_internal_links_good(ls: Seq<Seq<NodeV>>, rext: NodeV, k: int, i: int, j: int)
    requires
        1 <= k < ls.len(),
        0 <= i < ls[k].len(),
        ls[k - 1].len() >= 1,
        ls[k] == reduce_level(pad_even(ls[k - 1])),
        0 <= j < 2,
    ensures
        ls[k][i].links.len() == 2,
        tree_node_map(ls, rext).contains_key(ls[k][i].links[j]),
{
    let pb = pad_even(ls[k - 1]);
    assert(ls[k][i] == parent_node(pb[2 * i], pb[2 * i + 1]));
    assert(ls[k][i].links =~~= seq![pb[2 * i].cid, pb[2 * i + 1].cid]);
    assert(ls[k][i].links[j] == pb[2 * i + j].cid);
    lemma_pad_cid_in_level(ls, k - 1, 2 * i + j, rext);
}

/// Every link of a node of the tree map leads back into the tree map.
#[verifier::spinoff_prover]
proof fn lemma_tree_node_map_closed(leaves: Seq<NodeV>, ext: Seq<char>)
    requires
        leaves.len() >= 2,
        nodes_wf(leaves),
        forall|i: int|
            0 <= i < leaves.len() ==> !(#[trigger] leaves[i]).is_dup && leaves[i].links.len() == 0,
        vstd::utf8::encode_utf8(ext).len() <= 0xFFFF_0000,
        tree_keys_distinct(levels_below_root(leaves), root_ext(leaves, ext)),
    ensures
        ({
            let ls = levels_below_root(leaves);
            let rext = root_ext(leaves, ext);
            let nmg = tree_node_map(ls, rext);
            forall|c: Seq<u8>| #[trigger]
                nmg.contains_key(c) ==> forall|j: int|
                    0 <= j < nmg[c].links.len() ==> nmg.contains_key(#[trigger] nmg[c].links[j])
        }),
{
    let ls = levels_below_root(leaves);
    let rext = root_ext(leaves, ext);
    let nmg = tree_node_map(ls, rext);
    lemma_levels_structure(leaves);
    lemma_root_ext_shape(leaves, ext);
    lemma_tree_node_map_props(ls, rext);
    assert forall|j: int| 0 <= j < rext.links.len() implies nmg.contains_key(
        #[trigger] rext.links[j],
    ) by {
        assert(rext.links[j] == cids_of(pad_even(ls.last()))[j]);
        assert(rext.links[j] == pad_even(ls.last())[j].cid);
        lemma_pad_cid_in_level(ls, ls.len() - 1, j, rext);
    }
    assert forall|c: Seq<u8>| #[trigger] nmg.contains_key(c) implies forall|j: int|
        0 <= j < nmg[c].links.len() ==> nmg.contains_key(#[trigger] nmg[c].links[j]) by {
        if c != rext.cid {
            let (k, i) = choose|k: int, i: int|
                0 <= k < ls.len() && 0 <= i < ls[k].len() && (#[trigger] ls[k][i]).cid == c;
            assert(nmg[c] == ls[k][i]);
            if k == 0 {
                assert(ls[0][i] == leaves[i]);
                assert(nmg[c].links.len() == 0);
            } else {
                lemma_internal_links_good(ls, rext, k, i, 0);
                lemma_internal_links_good(ls, rext, k, i, 1);
                assert forall|j: int| 0 <= j < nmg[c].links.len() implies nmg.contains_key(
                    #[trigger] nmg[c].links[j],
                ) by {
                    lemma_internal_links_good(ls, rext, k, i, j);
                }
            }
        } else {
            assert(nmg[c] == rext);
        }
    }
}

/// The identifier of any node of a padded level is the identifier of an
/// original node of that level, so the tree map knows it.
proof fn lemma_pad_cid_in_level(ls: Seq<Seq<NodeV>>, k: int, j: int, rext: NodeV)
    requires
        0 <= k < ls.len(),
        0 <= j < pad_even(ls[k]).len(),
        ls[k].len() >= 1,
    ensures
        tree_node_map(ls, rext).contains_key(pad_even(ls[k])[j].cid),
{
    let lvl = ls[k];
    let p = pad_even(lvl);
    if j < lvl.len() {
        assert(p[j] == lvl[j]);
        assert(ls[k][j].cid == p[j].cid);
    } else {
        assert(p[j] == dup_of(lvl.last()));
        assert(ls[k][lvl.len() - 1].cid == p[j].cid);
    }
}

/// Round trip through the persisted store.
///
/// Store the Merkle DAG built over a buffer of at least two chunks into
/// an empty store.  Then any traversal that runs against that store —
/// any node map backed by it, any stored root under the root's key, and
/// any fuel — returns exactly the original ordered leaves, whose
/// concatenated data is the original buffer; and the root found in the
/// store carries exactly the encoded extension.  The only assumption is
/// the collision-freeness of content addressing: no two distinct nodes
/// of the tree share a storage key.
#[verifier::rlimit(100)]
pub proof fn lemma_stored_round_trip(
    data: Seq<u8>,
    size: nat,
    ext: Seq<char>,
    cs: Seq<char>,
    nmx: Map<Seq<u8>, NodeV>,
    root_found: NodeV,
    fuel: nat,
    out: Seq<NodeV>,
)
    requires
        size > 0,
        size <= 0xFFFF_0000,
        data.len() > size,
        vstd::utf8::encode_utf8(ext).len() <= 0xFFFF_0000,
        tree_keys_distinct(
            levels_below_root(leaves_of(data, size)),
            root_ext(leaves_of(data, size), ext),
        ),
        vstd::utf8::encode_utf8(cs) == key_of(root_ext(leaves_of(data, size), ext).cid),
        root_stored(
            stored_spec(
                Map::<Seq<u8>, Seq<u8>>::empty(),
                merkle_tree_spec(leaves_of(data, size), ext),
            ),
            cs,
            root_found,
        ),
        nm_backed(
            stored_spec(
                Map::<Seq<u8>, Seq<u8>>::empty(),
                merkle_tree_spec(leaves_of(data, size), ext),
            ),
            nmx,
        ),
        bfs_collect(nmx, root_found.links, Set::empty(), fuel) == Some(out),
    ensures
        out == leaves_of(data, size),
        leaf_datas(out) == data,
        root_found.data == Some(vstd::utf8::encode_utf8(ext)),
{
    let leaves = leaves_of(data, size);
    let ls = levels_below_root(leaves);
    let rext = root_ext(leaves, ext);
    let m = stored_spec(Map::<Seq<u8>, Seq<u8>>::empty(), merkle_tree_spec(leaves, ext));
    lemma_leaves_shape(data, size);
    lemma_levels_structure(leaves);
    lemma_store_tree(leaves, ext);
    lemma_levels_props(leaves);
    lemma_root_ext_shape(leaves, ext);
    assert(root_found == rext) by {
        assert(m[key_of(rext.cid)] == encode_node(rext));
        assert(m[vstd::utf8::encode_utf8(cs)] == encode_node(root_found));
        lemma_encode_injective(root_found, rext);
    }
    let nmg = tree_node_map(ls, rext);
    lemma_tree_node_map_props(ls, rext);
    lemma_backed_agrees(m, ls, rext, nmx);
    lemma_tree_node_map_closed(leaves, ext);
    assert(stack_wf(nmg, ls, Set::empty())) by {
        assert forall|i: int|
            0 <= i < ls[0].len() implies (#[trigger] ls[0][i]).links.len() == 0 by {
            assert(ls[0][i] == leaves[i]);
        }
    }
    let bigfuel = fuel + total_padded(ls);
    lemma_descend(nmg, ls, Set::empty(), total_padded(ls));
    assert(root_found.links == cids_of(pad_even(ls.last())));
    assert forall|t: int| 0 <= t < root_found.links.len() implies nmg.contains_key(
        #[trigger] root_found.links[t],
    ) by {
        assert(root_found.links[t] == pad_even(ls.last())[t].cid);
        lemma_pad_cid_in_level(ls, ls.len() - 1, t, rext);
    }
    lemma_bfs_agree(nmx, nmg, root_found.links, Set::empty(), fuel);
    lemma_bfs_fuel_mono(nmg, root_found.links, Set::empty(), fuel, bigfuel);
    lemma_bfs_fuel_mono(nmg, root_found.links, Set::empty(), total_padded(ls), bigfuel);
    assert(Some(out) == Some(ls[0]));
    assert(ls[0] == leaves);
    lemma_leaf_datas_of(data, size);
}

} // verus!