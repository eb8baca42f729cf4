use vstd::prelude::*;

use crate::dag::node_wf;
use crate::dag::nodes_view;
use crate::dag::MerkleNode;
use crate::dag::NodeV;
use crate::hashing::cid_wf;
use crate::hashing::copy_bytes;
use crate::hashing::ContentId;
use crate::node_codec::decode_node_bytes;
use crate::node_codec::encode_node;
use crate::store::fetch_value;
use crate::store::key_of;
use crate::store::stored_node_count;
use crate::store::NodeStore;
use queues::IsQueue;
use vstd::set_lib::lemma_len_subset;
use vstd::string::StrSliceExecFns;
use vstd::utf8::encode_utf8;
use vstd::utf8::is_ascii_chars_encode_utf8;

verus! {

/// Errors of the reassembler.
#[derive(Debug, PartialEq, Eq, Structural)]
pub enum ReassembleErrors {
    /// The root node with this cid does not exist here.
    RootNodeNotFoundError,
    /// A node reached during traversal does not exist here.
    NotFoundError,
    /// A store fault, an undecodable stored value, or a malformed root.
    UnknownError,
}

#[verifier::external_type_specification]
#[verifier::external_body]
#[verifier::reject_recursive_types(T)]
pub struct ExQueue<T: Clone>(queues::Queue<T>);

/// What the traversal queue holds, oldest first.
pub uninterp spec fn queue_elems(q: queues::Queue<Vec<u8>>) -> Seq<Seq<u8>>;

/// Relies on queues' `Queue::new`: a new queue is empty.
#[verifier::external_body]
fn q_new() -> (r: queues::Queue<Vec<u8>>)
    ensures
        queue_elems(r) == Seq::<Seq<u8>>::empty(),
{
    queues::Queue::new()
}

/// Relies on queues' `Queue::add` (of its `IsQueue` trait): it appends
/// the value at the back and always returns `Ok(None)` for this
/// unbounded queue, so the result carries nothing and is dropped.
#[verifier::external_body]
fn q_add(q: &mut queues::Queue<Vec<u8>>, v: Vec<u8>)
    ensures
        queue_elems(*final(q)) == queue_elems(*old(q)).push(v@),
{
    let _ = q.add(v);
}

/// Relies on queues' `Queue::remove` (of its `IsQueue` trait): it removes
/// and returns the oldest element, failing only on an empty queue, which
/// is excluded here.
#[verifier::external_body]
fn q_remove(q: &mut queues::Queue<Vec<u8>>) -> (r: Vec<u8>)
    requires
        queue_elems(*old(q)).len() > 0,
    ensures
        r@ == queue_elems(*old(q)).first(),
        queue_elems(*final(q)) == queue_elems(*old(q)).drop_first(),
{
    q.remove().expect("the queue is non-empty")
}

/// Relies on queues' `Queue::size` (of its `IsQueue` trait): the number
/// of queued elements.
#[verifier::external_body]
fn q_size(q: &queues::Queue<Vec<u8>>) -> (r: usize)
    ensures
        r == queue_elems(*q).len(),
{
    q.size()
}

/// Compares two byte vectors for equality.
fn bytes_eq(a: &Vec<u8>, b: &Vec<u8>) -> (r: bool)
    ensures
        r == (a@ == b@),
{
    if a.len() != b.len() {
        return false;
    }
    let mut i: usize = 0;
    while i < a.len()
        invariant
            a@.len() == b@.len(),
            i <= a@.len(),
            forall|j: int| 0 <= j < i ==> a@[j] == b@[j],
        decreases a@.len() - i,
    {
        if a[i] != b[i] {
            return false;
        }
        i = i + 1;
    }
    proof {
        assert(a@ =~= b@);
    }
    true
}

/// Whether a byte vector is among the already seen ones.
fn seen_contains(seen: &Vec<Vec<u8>>, x: &Vec<u8>) -> (r: bool)
    ensures
        r == exists|t: int| 0 <= t < seen@.len() && (#[trigger] seen@[t])@ == x@,
{
    let mut i: usize = 0;
    while i < seen.len()
        invariant
            i <= seen@.len(),
            forall|j: int| 0 <= j < i ==> (#[trigger] seen@[j])@ != x@,
        decreases seen@.len() - i,
    {
        if bytes_eq(&seen[i], x) {
            return true;
        }
        i = i + 1;
    }
    false
}

/// The breadth-first collection of leaf nodes from a queue of pending
/// identifiers, following links left to right.  A node whose storage key
/// was already visited is skipped, so repeated or padded content is never
/// collected twice; a duplicate-marked node's subtree is not re-explored;
/// a leaf (no links) is collected in visitation order; a missing node
/// aborts the whole traversal.
pub open spec fn bfs_collect(
    nm: Map<Seq<u8>, NodeV>,
    queue: Seq<Seq<u8>>,
    visited: Set<Seq<u8>>,
    fuel: nat,
) -> Option<Seq<NodeV>>
    decreases fuel,
{
    if queue.len() == 0 {
        Some(seq![])
    } else if fuel == 0 {
        None
    } else {
        let c = queue.first();
        if visited.contains(key_of(c)) {
            bfs_collect(nm, queue.drop_first(), visited, (fuel - 1) as nat)
        } else if !nm.contains_key(c) {
            None
        } else {
            let n = nm[c];
            let visited2 = visited.insert(key_of(c));
            if n.is_dup {
                bfs_collect(nm, queue.drop_first(), visited2, (fuel - 1) as nat)
            } else if n.links.len() == 0 {
                match bfs_collect(nm, queue.drop_first(), visited2, (fuel - 1) as nat) {
                    None => None,
                    Some(rest) => Some(seq![n] + rest),
                }
            } else {
                bfs_collect(nm, queue.drop_first() + n.links, visited2, (fuel - 1) as nat)
            }
        }
    }
}

/// A node map that agrees with the store: every entry is a well-formed
/// node whose serialized form the store holds under the node's key.
pub open spec fn nm_backed(m: Map<Seq<u8>, Seq<u8>>, nm: Map<Seq<u8>, NodeV>) -> bool {
    forall|c: Seq<u8>|
        #[trigger] nm.contains_key(c) ==> node_wf(nm[c]) && m.contains_key(key_of(c))
            && m[key_of(c)] == encode_node(nm[c])
}

/// The second node map holds every entry of the first, unchanged.
pub open spec fn nm_extends(nm1: Map<Seq<u8>, NodeV>, nm2: Map<Seq<u8>, NodeV>) -> bool {
    forall|c: Seq<u8>| #[trigger] nm1.contains_key(c) ==> nm2.contains_key(c) && nm2[c] == nm1[c]
}

/// The store holds, under the UTF-8 bytes of the given CID string, the
/// serialized form of this well-formed root node.
pub open spec fn root_stored(m: Map<Seq<u8>, Seq<u8>>, cid_string: Seq<char>, root: NodeV) -> bool {
    m.contains_key(encode_utf8(cid_string)) && m[encode_utf8(cid_string)] == encode_node(root)
        && node_wf(root)
}

/// Fetches and decodes one node by its canonical CID string.  Absence,
/// a store fault and an undecodable value all yield `None`, as callers
/// that only need presence expect.
pub fn return_node_from_db(store: &NodeStore, cid_string: String) -> (r: Option<MerkleNode>)
    ensures
        r matches Some(n) ==> root_stored(store@, cid_string@, n@),
        !store@.contains_key(encode_utf8(cid_string@)) ==> r is None,
{
    let key = cid_string.as_str().as_bytes_vec();
    let fetched = match fetch_value(store, &key) {
        Ok(v) => v,
        Err(_) => {
            return None;
        },
    };
    let bytes = match fetched {
        Some(b) => b,
        None => {
            return None;
        },
    };
    decode_node_bytes(&bytes)
}

/// The traversal's continuation property: whatever the rest of the
/// traversal yields on the pending queue, the whole traversal from the
/// root's links yields what was collected so far followed by that rest.
pub open spec fn continuation_ok(
    nmg: Map<Seq<u8>, NodeV>,
    qel: Seq<Seq<u8>>,
    visg: Set<Seq<u8>>,
    root_links: Seq<Seq<u8>>,
    collected: Seq<NodeV>,
) -> bool {
    forall|nm2: Map<Seq<u8>, NodeV>, f: nat|
        (nm_extends(nmg, nm2) && (#[trigger] bfs_collect(nm2, qel, visg, f)) is Some)
            ==> exists|bf: nat|
            bfs_collect(nm2, root_links, Set::empty(), bf) == Some(
                collected + bfs_collect(nm2, qel, visg, f)->Some_0,
            )
}

/// Starting point of the traversal: nothing collected, the pending queue
/// is the root's links.
proof fn lemma_cont_init(rl: Seq<Seq<u8>>)
    ensures
        continuation_ok(Map::empty(), rl, Set::empty(), rl, Seq::<NodeV>::empty()),
{
    assert forall|nm2: Map<Seq<u8>, NodeV>, f: nat|
        (nm_extends(Map::empty(), nm2) && (#[trigger] bfs_collect(
            nm2,
            rl,
            Set::empty(),
            f,
        )) is Some) implies exists|bf: nat|
        bfs_collect(nm2, rl, Set::empty(), bf) == Some(
            Seq::<NodeV>::empty() + bfs_collect(nm2, rl, Set::empty(), f)->Some_0,
        ) by {
        let rest = bfs_collect(nm2, rl, Set::empty(), f)->Some_0;
        assert(Seq::<NodeV>::empty() + rest =~~= rest);
        assert(bfs_collect(nm2, rl, Set::empty(), f) == Some(Seq::<NodeV>::empty() + rest));
    }
}

/// A pending identifier whose key was already visited is dropped without
/// any other effect.
proof fn lemma_cont_skip(
    nm0: Map<Seq<u8>, NodeV>,
    q0: Seq<Seq<u8>>,
    vis0: Set<Seq<u8>>,
    rl: Seq<Seq<u8>>,
    res0: Seq<NodeV>,
)
    requires
        q0.len() > 0,
        vis0.contains(key_of(q0.first())),
        continuation_ok(nm0, q0, vis0, rl, res0),
    ensures
        continuation_ok(nm0, q0.drop_first(), vis0, rl, res0),
{
    assert forall|nm2: Map<Seq<u8>, NodeV>, f: nat|
        (nm_extends(nm0, nm2) && (#[trigger] bfs_collect(
            nm2,
            q0.drop_first(),
            vis0,
            f,
        )) is Some) implies exists|bf: nat|
        bfs_collect(nm2, rl, Set::empty(), bf) == Some(
            res0 + bfs_collect(nm2, q0.drop_first(), vis0, f)->Some_0,
        ) by {
        let rest = bfs_collect(nm2, q0.drop_first(), vis0, f)->Some_0;
        assert(bfs_collect(nm2, q0, vis0, f + 1) == bfs_collect(nm2, q0.drop_first(), vis0, f));
        assert(bfs_collect(nm2, q0, vis0, f + 1) is Some);
        let bf1 = choose|bf: nat|
            bfs_collect(nm2, rl, Set::empty(), bf) == Some(
                res0 + bfs_collect(nm2, q0, vis0, f + 1)->Some_0,
            );
        assert(bfs_collect(nm2, rl, Set::empty(), bf1) == Some(res0 + rest));
    }
}

/// Visiting a fresh node: a duplicate-marked node is dropped, a leaf is
/// collected, an internal node has its children appended to the queue;
/// in every case the node's key becomes visited and the node is
/// remembered.
proof fn lemma_cont_visit(
    nm0: Map<Seq<u8>, NodeV>,
    q0: Seq<Seq<u8>>,
    vis0: Set<Seq<u8>>,
    rl: Seq<Seq<u8>>,
    res0: Seq<NodeV>,
    n: NodeV,
)
    requires
        q0.len() > 0,
        !vis0.contains(key_of(q0.first())),
        !nm0.contains_key(q0.first()),
        continuation_ok(nm0, q0, vis0, rl, res0),
    ensures
        n.is_dup ==> continuation_ok(
            nm0.insert(q0.first(), n),
            q0.drop_first(),
            vis0.insert(key_of(q0.first())),
            rl,
            res0,
        ),
        !n.is_dup && n.links.len() == 0 ==> continuation_ok(
            nm0.insert(q0.first(), n),
            q0.drop_first(),
            vis0.insert(key_of(q0.first())),
            rl,
            res0.push(n),
        ),
        !n.is_dup && n.links.len() > 0 ==> continuation_ok(
            nm0.insert(q0.first(), n),
            q0.drop_first() + n.links,
            vis0.insert(key_of(q0.first())),
            rl,
            res0,
        ),
{
    let c = q0.first();
    let nm1 = nm0.insert(c, n);
    let vis1 = vis0.insert(key_of(c));
    let q_drop = q0.drop_first();
    let q_link = q0.drop_first() + n.links;
    assert(nm_extends(nm0, nm1));
    if n.is_dup {
        assert forall|nm2: Map<Seq<u8>, NodeV>, f: nat|
            (nm_extends(nm1, nm2) && (#[trigger] bfs_collect(nm2, q_drop, vis1, f)) is Some)
            implies exists|bf: nat|
            bfs_collect(nm2, rl, Set::empty(), bf) == Some(
                res0 + bfs_collect(nm2, q_drop, vis1, f)->Some_0,
            ) by {
            let rest = bfs_collect(nm2, q_drop, vis1, f)->Some_0;
            assert(nm1.contains_key(c) && nm1[c] == n);
            assert(nm2.contains_key(c) && nm2[c] == n);
            assert(bfs_collect(nm2, q0, vis0, f + 1) == bfs_collect(nm2, q_drop, vis1, f));
            assert(nm_extends(nm0, nm2));
            assert(bfs_collect(nm2, q0, vis0, f + 1) is Some);
            let bf1 = choose|bf: nat|
                bfs_collect(nm2, rl, Set::empty(), bf) == Some(
                    res0 + bfs_collect(nm2, q0, vis0, f + 1)->Some_0,
                );
            assert(bfs_collect(nm2, rl, Set::empty(), bf1) == Some(res0 + rest));
        }
    } else if n.links.len() == 0 {
        assert forall|nm2: Map<Seq<u8>, NodeV>, f: nat|
            (nm_extends(nm1, nm2) && (#[trigger] bfs_collect(nm2, q_drop, vis1, f)) is Some)
            implies exists|bf: nat|
            bfs_collect(nm2, rl, Set::empty(), bf) == Some(
                res0.push(n) + bfs_collect(nm2, q_drop, vis1, f)->Some_0,
            ) by {
            let rest = bfs_collect(nm2, q_drop, vis1, f)->Some_0;
            assert(nm1.contains_key(c) && nm1[c] == n);
            assert(nm2.contains_key(c) && nm2[c] == n);
            assert(bfs_collect(nm2, q0, vis0, f + 1) == Some(seq![n] + rest));
            assert(nm_extends(nm0, nm2));
            assert(bfs_collect(nm2, q0, vis0, f + 1) is Some);
            let bf1 = choose|bf: nat|
                bfs_collect(nm2, rl, Set::empty(), bf) == Some(
                    res0 + bfs_collect(nm2, q0, vis0, f + 1)->Some_0,
                );
            assert(res0 + (seq![n] + rest) =~~= res0.push(n) + rest);
            assert(bfs_collect(nm2, rl, Set::empty(), bf1) == Some(res0.push(n) + rest));
        }
    } else {
        assert forall|nm2: Map<Seq<u8>, NodeV>, f: nat|
            (nm_extends(nm1, nm2) && (#[trigger] bfs_collect(nm2, q_link, vis1, f)) is Some)
            implies exists|bf: nat|
            bfs_collect(nm2, rl, Set::empty(), bf) == Some(
                res0 + bfs_collect(nm2, q_link, vis1, f)->Some_0,
            ) by {
            let rest = bfs_collect(nm2, q_link, vis1, f)->Some_0;
            assert(nm1.contains_key(c) && nm1[c] == n);
            assert(nm2.contains_key(c) && nm2[c] == n);
            assert(bfs_collect(nm2, q0, vis0, f + 1) == bfs_collect(nm2, q_link, vis1, f));
            assert(nm_extends(nm0, nm2));
            assert(bfs_collect(nm2, q0, vis0, f + 1) is Some);
            let bf1 = choose|bf: nat|
                bfs_collect(nm2, rl, Set::empty(), bf) == Some(
                    res0 + bfs_collect(nm2, q0, vis0, f + 1)->Some_0,
                );
            assert(bfs_collect(nm2, rl, Set::empty(), bf1) == Some(res0 + rest));
        }
    }
}

/// An emptied queue: the whole traversal from the root's links yields
/// exactly what was collected.
proof fn lemma_cont_finish(
    nm0: Map<Seq<u8>, NodeV>,
    vis0: Set<Seq<u8>>,
    rl: Seq<Seq<u8>>,
    res0: Seq<NodeV>,
    qel: Seq<Seq<u8>>,
)
    requires
        qel.len() == 0,
        continuation_ok(nm0, qel, vis0, rl, res0),
    ensures
        exists|bf: nat| bfs_collect(nm0, rl, Set::empty(), bf) == Some(res0),
{
    assert(bfs_collect(nm0, qel, vis0, 0) == Some(Seq::<NodeV>::empty()));
    assert(nm_extends(nm0, nm0));
    assert(bfs_collect(nm0, qel, vis0, 0) is Some);
    let bf1 = choose|bf: nat|
        bfs_collect(nm0, rl, Set::empty(), bf) == Some(
            res0 + bfs_collect(nm0, qel, vis0, 0)->Some_0,
        );
    assert(res0 + Seq::<NodeV>::empty() =~~= res0);
    assert(bfs_collect(nm0, rl, Set::empty(), bf1) == Some(res0));
}

/// Recovers the ordered leaf nodes under a root CID by a breadth-first
/// traversal of the stored DAG.  Sibling order is preserved, an already
/// visited key is never expanded or collected again, and any node missing
/// during the traversal aborts the whole reconstruction: partial results
/// are never returned.  Traversal work is bounded by the number of nodes
/// the store holds, so a corrupted link set cannot cycle forever.
#[verifier::rlimit(60)]
pub fn get_leaves_from_root_node_cid(store: &NodeStore, cid_string: String) -> (r: Result<
    Vec<MerkleNode>,
    ReassembleErrors,
>)
    ensures
        r matches Ok(v) ==> exists|root: NodeV, nm: Map<Seq<u8>, NodeV>, fuel: nat|
            root_stored(store@, cid_string@, root) && nm_backed(store@, nm) && #[trigger]
            bfs_collect(nm, root.links, Set::empty(), fuel) == Some(nodes_view(v@)),
        r matches Err(e) ==> (e == ReassembleErrors::RootNodeNotFoundError
            ==> !store@.contains_key(encode_utf8(cid_string@))),
        r matches Err(e) ==> (e == ReassembleErrors::NotFoundError ==> store@.contains_key(
            encode_utf8(cid_string@),
        )),
{
    let root_key = cid_string.as_str().as_bytes_vec();
    let fetched = match fetch_value(store, &root_key) {
        Ok(v) => v,
        Err(_) => {
            return Err(ReassembleErrors::UnknownError);
        },
    };
    let root_bytes = match fetched {
        Some(b) => b,
        None => {
            return Err(ReassembleErrors::RootNodeNotFoundError);
        },
    };
    let root = match decode_node_bytes(&root_bytes) {
        Some(n) => n,
        None => {
            return Err(ReassembleErrors::UnknownError);
        },
    };
    let total = match stored_node_count(store) {
        Ok(n) => n,
        Err(_) => {
            return Err(ReassembleErrors::UnknownError);
        },
    };
    let ghost rootv: NodeV = root@;

    let mut q = q_new();
    let mut i: usize = 0;
    while i < root.links.len()
        invariant
            i <= root.links@.len(),
            node_wf(rootv),
            rootv == root@,
            queue_elems(q) =~~= rootv.links.take(i as int),
        decreases root.links@.len() - i,
    {
        q_add(&mut q, copy_bytes(&root.links[i].bytes));
        proof {
            assert(rootv.links.take(i + 1) =~~= rootv.links.take(i as int).push(
                rootv.links[i as int],
            ));
        }
        i = i + 1;
    }
    proof {
        assert(queue_elems(q) =~~= rootv.links);
    }

    let mut res: Vec<MerkleNode> = Vec::new();
    let mut seen: Vec<Vec<u8>> = Vec::new();
    let ghost mut visg: Set<Seq<u8>> = Set::empty();
    let ghost mut nmg: Map<Seq<u8>, NodeV> = Map::empty();
    proof {
        lemma_cont_init(rootv.links);
        assert(nodes_view(res@) =~~= Seq::<NodeV>::empty());
        assert(queue_elems(q) == rootv.links);
        assert(continuation_ok(nmg, queue_elems(q), visg, rootv.links, nodes_view(res@)));
    }
    while q_size(&q) != 0
        invariant
            store@.dom().finite(),
            total == store@.dom().len(),
            store@.contains_key(encode_utf8(cid_string@)),
            visg.finite(),
            visg.subset_of(store@.dom()),
            forall|t: int| 0 <= t < seen@.len() ==> visg.contains((#[trigger] seen@[t])@),
            forall|k: Seq<u8>| #[trigger]
                visg.contains(k) ==> exists|t: int|
                    0 <= t < seen@.len() && (#[trigger] seen@[t])@ == k,
            forall|t: int|
                0 <= t < queue_elems(q).len() ==> cid_wf(#[trigger] queue_elems(q)[t]),
            nm_backed(store@, nmg),
            forall|c2: Seq<u8>| #[trigger] nmg.contains_key(c2) ==> visg.contains(key_of(c2)),
            continuation_ok(nmg, queue_elems(q), visg, rootv.links, nodes_view(res@)),
        decreases 3 * (total - visg.len()) + queue_elems(q).len(),
    {
        let ghost q0: Seq<Seq<u8>> = queue_elems(q);
        let ghost vis0: Set<Seq<u8>> = visg;
        let ghost nm0: Map<Seq<u8>, NodeV> = nmg;
        let ghost res0: Seq<NodeV> = nodes_view(res@);
        let ghost seen0: Seq<Vec<u8>> = seen@;
        proof {
            lemma_len_subset(visg, store@.dom());
        }
        let cid_bytes = q_remove(&mut q);
        let cobj = ContentId { bytes: cid_bytes };
        let ghost c: Seq<u8> = cobj@;
        proof {
            assert(c == q0.first());
            assert(cid_wf(c));
        }
        let key_string = cobj.to_string_form();
        let key = key_string.as_str().as_bytes_vec();
        proof {
            is_ascii_chars_encode_utf8(key_string@);
            assert(key@ =~= key_of(c));
        }
        if seen_contains(&seen, &key) {
            proof {
                assert(vis0.contains(key_of(c)));
                lemma_cont_skip(nm0, q0, vis0, rootv.links, res0);
                assert(continuation_ok(nmg, queue_elems(q), visg, rootv.links, nodes_view(res@)));
            }
        } else {
            let fetched = match fetch_value(store, &key) {
                Ok(v) => v,
                Err(_) => {
                    return Err(ReassembleErrors::UnknownError);
                },
            };
            let node_bytes = match fetched {
                Some(b) => b,
                None => {
                    return Err(ReassembleErrors::NotFoundError);
                },
            };
            let node = match decode_node_bytes(&node_bytes) {
                Some(n) => n,
                None => {
                    return Err(ReassembleErrors::UnknownError);
                },
            };
            proof {
                assert(!vis0.contains(key_of(c)));
                assert(!nm0.contains_key(c));
                visg = visg.insert(key_of(c));
                nmg = nmg.insert(c, node@);
                lemma_len_subset(visg, store@.dom());
                assert(visg.len() == vis0.len() + 1);
                assert(nm_extends(nm0, nmg));
            }
            seen.push(key);
            proof {
                assert forall|k: Seq<u8>| #[trigger] visg.contains(k) implies exists|t: int|
                    0 <= t < seen@.len() && (#[trigger] seen@[t])@ == k by {
                    if k == key_of(c) {
                        assert(seen@[seen@.len() - 1]@ == k);
                    } else {
                        assert(vis0.contains(k));
                        let t0 = choose|t: int|
                            0 <= t < seen0.len() && (#[trigger] seen0[t])@ == k;
                        assert(seen@[t0]@ == k);
                    }
                }
            }
            if node.is_dup {
                proof {
                    lemma_cont_visit(nm0, q0, vis0, rootv.links, res0, node@);
                    assert(continuation_ok(
                        nmg,
                        queue_elems(q),
                        visg,
                        rootv.links,
                        nodes_view(res@),
                    ));
                }
            } else if node.links.len() == 0 {
                res.push(node);
                proof {
                    assert(nodes_view(res@) =~~= res0.push(node@));
                    lemma_cont_visit(nm0, q0, vis0, rootv.links, res0, node@);
                    assert(continuation_ok(
                        nmg,
                        queue_elems(q),
                        visg,
                        rootv.links,
                        nodes_view(res@),
                    ));
                }
            } else {
                let ghost q1: Seq<Seq<u8>> = queue_elems(q);
                let mut li: usize = 0;
                while li < node.links.len()
                    invariant
                        li <= node.links@.len(),
                        node_wf(node@),
                        queue_elems(q) =~~= q1 + node@.links.take(li as int),
                    decreases node.links@.len() - li,
                {
                    q_add(&mut q, copy_bytes(&node.links[li].bytes));
                    proof {
                        assert(node@.links.take(li + 1) =~~= node@.links.take(li as int).push(
                            node@.links[li as int],
                        ));
                        assert(queue_elems(q) =~~= q1 + node@.links.take(li + 1));
                    }
                    li = li + 1;
                }
                proof {
                    assert(node@.links.take(node.links@.len() as int) =~~= node@.links);
                    assert(queue_elems(q) =~~= q0.drop_first() + node@.links);
                    lemma_cont_visit(nm0, q0, vis0, rootv.links, res0, node@);
                    assert(continuation_ok(
                        nmg,
                        queue_elems(q),
                        visg,
                        rootv.links,
                        nodes_view(res@),
                    ));
                }
            }
        }
    }
    proof {
        assert(queue_elems(q).len() == 0);
        lemma_cont_finish(nmg, visg, rootv.links, nodes_view(res@), queue_elems(q));
        let bf1 = choose|bf: nat|
            bfs_collect(nmg, rootv.links, Set::empty(), bf) == Some(nodes_view(res@));
        assert(root_stored(store@, cid_string@, rootv) && nm_backed(store@, nmg) && bfs_collect(
            nmg,
            rootv.links,
            Set::empty(),
            bf1,
        ) == Some(nodes_view(res@)));
    }
    Ok(res)
}

/// The concatenated data of a sequence of leaf nodes, in order.
pub open spec fn leaf_datas(ns: Seq<NodeV>) -> Seq<u8>
    decreases ns.len(),
{
    if ns.len() == 0 {
        Seq::empty()
    } else {
        (match ns.first().data {
            Some(d) => d,
            None => Seq::empty(),
        }) + leaf_datas(ns.drop_first())
    }
}

/// Appending one leaf appends its data.
pub proof fn lemma_leaf_datas_push(ns: Seq<NodeV>, n: NodeV)
    ensures
        leaf_datas(ns.push(n)) == leaf_datas(ns) + (match n.data {
            Some(d) => d,
            None => Seq::<u8>::empty(),
        }),
    decreases ns.len(),
{
    if ns.len() == 0 {
        assert(ns.push(n).drop_first() =~~= ns);
        assert(ns.push(n).first() == n);
        assert(leaf_datas(ns.push(n)) =~= leaf_datas(ns) + (match n.data {
            Some(d) => d,
            None => Seq::<u8>::empty(),
        }));
    } else {
        lemma_leaf_datas_push(ns.drop_first(), n);
        assert(ns.push(n).drop_first() =~~= ns.drop_first().push(n));
        assert(ns.push(n).first() == ns.first());
        assert(leaf_datas(ns.push(n)) =~= leaf_datas(ns) + (match n.data {
            Some(d) => d,
            None => Seq::<u8>::empty(),
        }));
    }
}

/// What the MIME sniffing collaborator reports for a byte buffer.  infer
/// matches the buffer against a fixed table of signatures, so the result
/// is a pure function of the bytes.
pub uninterp spec fn sniff_of(data: Seq<u8>) -> Option<Seq<char>>;

/// Classifies file content by its magic bytes, independent of the stored
/// extension tag.
///
/// Relies on infer's `get`, which scans its fixed matcher table in order
/// and is deterministic in the buffer, and on `Type::mime_type`, which
/// returns the matched type's MIME string.
#[verifier::external_body]
pub fn detect_file_type(file_data: &[u8]) -> (r: Option<String>)
    ensures
        r matches Some(s) ==> sniff_of(file_data@) matches Some(m) && s@ == m,
        r is None ==> sniff_of(file_data@) is None,
{
    match infer::get(file_data) {
        Some(val) => Some(val.mime_type().to_string()),
        None => None,
    }
}

/// Reconstructs the original file bytes and the stored file extension
/// from a root CID string: the root is fetched, the leaves under it are
/// collected breadth first, their data is concatenated in order, and the
/// root's own data is decoded as the extension.  A missing node aborts
/// with an error: truncated bytes are never returned.
pub fn reassemble(store: &NodeStore, root_cid_string: String) -> (r: Result<
    (Vec<u8>, String),
    ReassembleErrors,
>)
    ensures
        r matches Ok(p) ==> exists|root: NodeV, nm: Map<Seq<u8>, NodeV>, fuel: nat, lvs: Seq<
            NodeV,
        >|
            #![trigger bfs_collect(nm, root.links, Set::empty(), fuel), leaf_datas(lvs)]
            root_stored(store@, root_cid_string@, root) && nm_backed(store@, nm) && bfs_collect(
                nm,
                root.links,
                Set::empty(),
                fuel,
            ) == Some(lvs) && p.0@ == leaf_datas(lvs) && (root.data matches Some(d)
                && vstd::utf8::valid_utf8(d) && p.1@ == vstd::utf8::decode_utf8(d)),
        r matches Err(e) ==> (e == ReassembleErrors::RootNodeNotFoundError
            ==> !store@.contains_key(encode_utf8(root_cid_string@))),
{
    let root_key = root_cid_string.as_str().as_bytes_vec();
    let fetched = match fetch_value(store, &root_key) {
        Ok(v) => v,
        Err(_) => {
            return Err(ReassembleErrors::UnknownError);
        },
    };
    let root_bytes = match fetched {
        Some(b) => b,
        None => {
            return Err(ReassembleErrors::RootNodeNotFoundError);
        },
    };
    let root = match decode_node_bytes(&root_bytes) {
        Some(n) => n,
        None => {
            return Err(ReassembleErrors::UnknownError);
        },
    };
    let ext_raw = match &root.data {
        Some(d) => copy_bytes(d),
        None => {
            return Err(ReassembleErrors::UnknownError);
        },
    };
    let ext = match crate::helpers::convert_raw_to_file_extension(ext_raw) {
        Some(s2) => s2,
        None => {
            return Err(ReassembleErrors::UnknownError);
        },
    };
    let leaves = match get_leaves_from_root_node_cid(store, root_cid_string) {
        Ok(v) => v,
        Err(e) => {
            return Err(e);
        },
    };
    let mut out: Vec<u8> = Vec::new();
    let mut i: usize = 0;
    while i < leaves.len()
        invariant
            i <= leaves@.len(),
            out@ == leaf_datas(nodes_view(leaves@).take(i as int)),
        decreases leaves@.len() - i,
    {
        match &leaves[i].data {
            Some(d) => {
                let mut piece = copy_bytes(d);
                out.append(&mut piece);
            },
            None => {
            },
        }
        proof {
            lemma_leaf_datas_push(
                nodes_view(leaves@).take(i as int),
                nodes_view(leaves@)[i as int],
            );
            assert(nodes_view(leaves@).take(i + 1) =~~= nodes_view(leaves@).take(
                i as int,
            ).push(nodes_view(leaves@)[i as int]));
            assert(nodes_view(leaves@)[i as int] == leaves@[i as int]@);
            assert(out@ =~= leaf_datas(nodes_view(leaves@).take(i + 1)));
        }
        i = i + 1;
    }
    proof {
        assert(nodes_view(leaves@).take(leaves@.len() as int) =~~= nodes_view(leaves@));
        let (root2, nm, fuel) = choose|root2: NodeV, nm: Map<Seq<u8>, NodeV>, fuel: nat|
            root_stored(store@, root_cid_string@, root2) && nm_backed(store@, nm) && #[trigger]
            bfs_collect(nm, root2.links, Set::empty(), fuel) == Some(nodes_view(leaves@));
        crate::node_codec::lemma_encode_injective(root2, root@);
        assert(root2 == root@);
        assert(root_stored(store@, root_cid_string@, root@) && nm_backed(store@, nm)
            && bfs_collect(nm, root@.links, Set::empty(), fuel) == Some(nodes_view(leaves@))
            && out@ == leaf_datas(nodes_view(leaves@)) && (root@.data matches Some(d)
            && vstd::utf8::valid_utf8(d) && ext@ == vstd::utf8::decode_utf8(d)));
    }
    Ok((out, ext))
}

} // verus!
