use vstd::prelude::*;

use crate::dag::node_wf;
use crate::dag::nodes_view;
use crate::dag::nodes_wf;
use crate::dag::MerkleNode;
use crate::dag::NodeV;
use crate::hashing::cid_str_of;
use crate::node_codec::encode_node;
use crate::node_codec::encode_node_bytes;
use crate::node_codec::lemma_enc_links_parts;
use vstd::string::StrSliceExecFns;
use vstd::utf8::encode_utf8;
use vstd::utf8::is_ascii_chars_encode_utf8;

verus! {

/// Errors of the node store, distinguished from a plain lookup miss.
#[derive(Debug, PartialEq, Eq, Structural)]
pub enum StoreError {
    /// The backing key-value store reported an input/output fault.
    IoError,
}

#[verifier::external_type_specification]
#[verifier::external_body]
pub struct ExDatabase(fjall::Database);

#[verifier::external_type_specification]
#[verifier::external_body]
pub struct ExKeyspace(fjall::Keyspace);

#[verifier::external_type_specification]
#[verifier::external_body]
pub struct ExFjallError(fjall::Error);

/// What the backing keyspace holds: its key-value pairs, as byte
/// sequences.
pub uninterp spec fn keyspace_view(ks: fjall::Keyspace) -> Map<Seq<u8>, Seq<u8>>;

/// A handle on the content-addressed node store: one database opened on a
/// directory, with a single keyspace holding every persisted node under
/// its canonical CID string.
pub struct NodeStore {
    db: fjall::Database,
    ks: fjall::Keyspace,
}

impl View for NodeStore {
    type V = Map<Seq<u8>, Seq<u8>>;

    closed spec fn view(&self) -> Map<Seq<u8>, Seq<u8>> {
        keyspace_view(self.ks)
    }
}

/// The storage key of the node with binary identifier `cid`: the UTF-8
/// bytes of the canonical CID string.
pub open spec fn key_of(cid: Seq<u8>) -> Seq<u8> {
    encode_utf8(cid_str_of(cid))
}

/// Write-once insertion of one node: a key that is already present is
/// left untouched, which is what makes repeated writes idempotent and
/// shared subtrees deduplicated.
pub open spec fn put_spec(m: Map<Seq<u8>, Seq<u8>>, n: NodeV) -> Map<Seq<u8>, Seq<u8>> {
    if m.contains_key(key_of(n.cid)) {
        m
    } else {
        m.insert(key_of(n.cid), encode_node(n))
    }
}

/// The store contents after persisting every node of the sequence, in
/// order.
pub open spec fn stored_spec(m: Map<Seq<u8>, Seq<u8>>, ns: Seq<NodeV>) -> Map<Seq<u8>, Seq<u8>>
    decreases ns.len(),
{
    if ns.len() == 0 {
        m
    } else {
        stored_spec(put_spec(m, ns.first()), ns.drop_first())
    }
}

/// Persisting one more node at the end persists it into the result of
/// persisting the others.
pub proof fn lemma_stored_spec_push(m: Map<Seq<u8>, Seq<u8>>, ns: Seq<NodeV>, n: NodeV)
    ensures
        stored_spec(m, ns.push(n)) == put_spec(stored_spec(m, ns), n),
    decreases ns.len(),
{
    if ns.len() == 0 {
        assert(ns.push(n).drop_first() =~~= ns);
        assert(ns.push(n).first() == n);
        assert(stored_spec(put_spec(m, n), ns.push(n).drop_first()) == put_spec(m, n));
        assert(stored_spec(m, ns) == m);
        assert(stored_spec(m, ns.push(n)) == put_spec(stored_spec(m, ns), n));
    } else {
        lemma_stored_spec_push(put_spec(m, ns.first()), ns.drop_first(), n);
        assert(ns.push(n).drop_first() =~~= ns.drop_first().push(n));
        assert(ns.push(n).first() == ns.first());
    }
}

/// Relies on fjall's `Database::builder(..).open()`, which creates or
/// opens the directory, and `Database::keyspace`, which creates or opens
/// the keyspace of that name ("slices" is a non-empty name of fewer than
/// 256 bytes, so the call does not panic).  What an existing directory
/// already holds is unknown, so nothing is said of the contents.
#[verifier::external_body]
fn open_store(path: &str) -> (r: Result<NodeStore, fjall::Error>)
{
    let db = fjall::Database::builder(path).open()?;
    let ks = db.keyspace("slices", fjall::KeyspaceCreateOptions::default)?;
    Ok(NodeStore { db, ks })
}

/// Relies on fjall's `Keyspace::contains_key`: whether the key is
/// present; `Err` only on an input/output fault.
#[verifier::external_body]
fn kv_contains(store: &NodeStore, key: &Vec<u8>) -> (r: Result<bool, fjall::Error>)
    ensures
        r matches Ok(b) ==> b == keyspace_view(store.ks).contains_key(key@),
{
    match store.ks.contains_key(key.as_slice()) {
        Ok(b) => Ok(b),
        Err(e) => Err(e),
    }
}

/// Relies on fjall's `Keyspace::insert`: persists the pair, overwriting
/// any existing value under the key; on an input/output fault it returns
/// `Err` before the pair reaches the tree, so the visible contents are
/// unchanged.  Keys are limited to 65536 bytes, values to 2^32 bytes.
#[verifier::external_body]
fn kv_insert(store: &mut NodeStore, key: &Vec<u8>, value: &Vec<u8>) -> (r: Result<
    (),
    fjall::Error,
>)
    requires
        key@.len() <= 65536,
        value@.len() <= 0xFFFF_FFFF,
    ensures
        r is Ok ==> keyspace_view(final(store).ks) == keyspace_view(old(store).ks).insert(
            key@,
            value@,
        ),
        r is Err ==> keyspace_view(final(store).ks) == keyspace_view(old(store).ks),
{
    match store.ks.insert(key.as_slice(), value.as_slice()) {
        Ok(()) => Ok(()),
        Err(e) => Err(e),
    }
}

/// Relies on fjall's `Keyspace::get`: the value stored under the key, or
/// `None` where the key is absent; `Err` only on an input/output fault.
#[verifier::external_body]
fn kv_get(store: &NodeStore, key: &Vec<u8>) -> (r: Result<Option<Vec<u8>>, fjall::Error>)
    ensures
        r matches Ok(v) ==> (match v {
            Some(bytes) => keyspace_view(store.ks).contains_key(key@) && bytes@ == keyspace_view(
                store.ks,
            )[key@],
            None => !keyspace_view(store.ks).contains_key(key@),
        }),
{
    match store.ks.get(key.as_slice()) {
        Ok(Some(v)) => Ok(Some(v.as_ref().to_vec())),
        Ok(None) => Ok(None),
        Err(e) => Err(e),
    }
}

/// Relies on fjall's `Keyspace::len`: it scans the keyspace and returns
/// the number of stored pairs; `Err` only on an input/output fault.
#[verifier::external_body]
fn kv_len(store: &NodeStore) -> (r: Result<usize, fjall::Error>)
    ensures
        r matches Ok(n) ==> keyspace_view(store.ks).dom().finite() && n == keyspace_view(
            store.ks,
        ).dom().len(),
{
    match store.ks.len() {
        Ok(n) => Ok(n),
        Err(e) => Err(e),
    }
}

/// Opens (creating it if needed) the node store under the given
/// directory path.
pub fn init_db(path: &str) -> (r: Result<NodeStore, StoreError>)
{
    match open_store(path) {
        Ok(s) => Ok(s),
        Err(_) => Err(StoreError::IoError),
    }
}

/// The serialized form of a well-formed node fits a store value.
proof fn lemma_encode_len(n: NodeV)
    requires
        node_wf(n),
    ensures
        encode_node(n).len() <= 0xFFFF_FFFF,
{
    lemma_enc_links_parts(n.links);
}

/// Persists one node under its canonical CID string, write-once: a key
/// that is already present is left untouched, so re-inserting a node is
/// an idempotent no-op and shared nodes are stored exactly once.
pub fn put_node(store: &mut NodeStore, node: &MerkleNode) -> (r: Result<(), StoreError>)
    requires
        node_wf(node@),
    ensures
        r is Ok ==> final(store)@ == put_spec(old(store)@, node@),
        r is Err ==> final(store)@ == old(store)@,
{
    let key_string = node.cid.to_string_form();
    let key = key_string.as_str().as_bytes_vec();
    proof {
        is_ascii_chars_encode_utf8(key_string@);
        assert(key@.len() == 59);
        assert(key@ == key_of(node@.cid));
    }
    let present = match kv_contains(store, &key) {
        Ok(b) => b,
        Err(_) => {
            return Err(StoreError::IoError);
        },
    };
    if present {
        return Ok(());
    }
    let value = encode_node_bytes(node);
    proof {
        lemma_encode_len(node@);
    }
    match kv_insert(store, &key, &value) {
        Ok(()) => Ok(()),
        Err(_) => Err(StoreError::IoError),
    }
}

/// Persists every node of a built tree, leaves first and root last, so
/// that a failed run never leaves the root addressable without its
/// subtree: on an error the store holds exactly the nodes of some proper
/// prefix of the tree.
pub fn store_file(store: &mut NodeStore, tree: &Vec<MerkleNode>) -> (r: Result<(), StoreError>)
    requires
        nodes_wf(nodes_view(tree@)),
    ensures
        r is Ok ==> final(store)@ == stored_spec(old(store)@, nodes_view(tree@)),
        r is Err ==> exists|i: int|
            0 <= i < nodes_view(tree@).len() && final(store)@ == stored_spec(
                old(store)@,
                nodes_view(tree@).take(i),
            ),
{
    let mut i: usize = 0;
    while i < tree.len()
        invariant
            i <= tree.len(),
            nodes_wf(nodes_view(tree@)),
            store@ == stored_spec(old(store)@, nodes_view(tree@).take(i as int)),
        decreases tree.len() - i,
    {
        let ghost views: Seq<NodeV> = nodes_view(tree@);
        proof {
            assert(node_wf(views[i as int]));
            assert(tree@[i as int]@ == views[i as int]);
        }
        match put_node(store, &tree[i]) {
            Ok(()) => {
            },
            Err(_) => {
                proof {
                    assert((i as int) < nodes_view(tree@).len() && store@ == stored_spec(
                        old(store)@,
                        nodes_view(tree@).take(i as int),
                    ));
                }
                return Err(StoreError::IoError);
            },
        }
        proof {
            lemma_stored_spec_push(old(store)@, views.take(i as int), views[i as int]);
            assert(views.take(i + 1) =~~= views.take(i as int).push(views[i as int]));
        }
        i = i + 1;
    }
    proof {
        assert(nodes_view(tree@).take(tree@.len() as int) =~~= nodes_view(tree@));
    }
    Ok(())
}

/// Scans the store and returns how many nodes it holds.
pub fn stored_node_count(store: &NodeStore) -> (r: Result<usize, StoreError>)
    ensures
        r matches Ok(n) ==> store@.dom().finite() && n == store@.dom().len(),
{
    match kv_len(store) {
        Ok(n) => Ok(n),
        Err(_) => Err(StoreError::IoError),
    }
}

/// Fetches the raw stored value under a key, for the reassembler.
pub(crate) fn fetch_value(store: &NodeStore, key: &Vec<u8>) -> (r: Result<
    Option<Vec<u8>>,
    StoreError,
>)
    ensures
        r matches Ok(v) ==> (match v {
            Some(bytes) => store@.contains_key(key@) && bytes@ == store@[key@],
            None => !store@.contains_key(key@),
        }),
{
    match kv_get(store, key) {
        Ok(v) => Ok(v),
        Err(_) => Err(StoreError::IoError),
    }
}

/// Persisting the same node twice leaves the store exactly as persisting
/// it once does.
pub proof fn lemma_put_idempotent(m: Map<Seq<u8>, Seq<u8>>, n: NodeV)
    ensures
        put_spec(put_spec(m, n), n) == put_spec(m, n),
{
}

/// The keys of the nodes of a sequence.
pub open spec fn keys_of(ns: Seq<NodeV>) -> Set<Seq<u8>> {
    ns.map_values(|n: NodeV| key_of(n.cid)).to_set()
}

/// Content addressing deduplicates: after persisting a sequence of nodes
/// the store's keys are its old keys together with one key per distinct
/// node identifier, however often a node repeats in the sequence.
pub proof fn lemma_store_dedup(m: Map<Seq<u8>, Seq<u8>>, ns: Seq<NodeV>)
    ensures
        stored_spec(m, ns).dom() == m.dom().union(keys_of(ns)),
    decreases ns.len(),
{
    let ks = ns.map_values(|n: NodeV| key_of(n.cid));
    if ns.len() == 0 {
        assert(keys_of(ns) =~= Set::<Seq<u8>>::empty());
        assert(stored_spec(m, ns).dom() =~= m.dom().union(keys_of(ns)));
    } else {
        let ks_rest = ns.drop_first().map_values(|n: NodeV| key_of(n.cid));
        lemma_store_dedup(put_spec(m, ns.first()), ns.drop_first());
        assert forall|k: Seq<u8>| keys_of(ns).contains(k) implies put_spec(
            m,
            ns.first(),
        ).dom().union(keys_of(ns.drop_first())).contains(k) by {
            let i = choose|i: int| 0 <= i < ks.len() && #[trigger] ks[i] == k;
            if i == 0 {
                assert(put_spec(m, ns.first()).dom().contains(k));
            } else {
                assert(ks_rest[i - 1] == k);
                assert(keys_of(ns.drop_first()).contains(k));
            }
        }
        assert forall|k: Seq<u8>|
            put_spec(m, ns.first()).dom().union(keys_of(ns.drop_first())).contains(k)
                && !m.dom().contains(k) implies keys_of(ns).contains(k) by {
            if put_spec(m, ns.first()).dom().contains(k) {
                assert(k == key_of(ns.first().cid));
                assert(ks[0] == k);
            } else {
                let i = choose|i: int| 0 <= i < ks_rest.len() && #[trigger] ks_rest[i] == k;
                assert(ks[i + 1] == k);
            }
        }
        assert(stored_spec(m, ns).dom() =~= m.dom().union(keys_of(ns)));
    }
}

} // verus!
