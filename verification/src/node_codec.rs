use vstd::prelude::*;

use crate::dag::node_wf;
use crate::dag::MerkleNode;
use crate::dag::NodeV;
use crate::hashing::copy_bytes;
use crate::hashing::ContentId;
use vstd::slice::slice_subrange;
use vstd::slice::slice_to_vec;

verus! {

/// The eight little-endian bytes of a 64-bit length field.
pub open spec fn u64_le_seq(x: u64) -> Seq<u8> {
    seq![
        (x & 0xff) as u8,
        ((x >> 8) & 0xff) as u8,
        ((x >> 16) & 0xff) as u8,
        ((x >> 24) & 0xff) as u8,
        ((x >> 32) & 0xff) as u8,
        ((x >> 40) & 0xff) as u8,
        ((x >> 48) & 0xff) as u8,
        ((x >> 56) & 0xff) as u8,
    ]
}

/// Two equal little-endian length fields come from equal values.
pub proof fn lemma_u64_le_inj(x: u64, y: u64)
    requires
        u64_le_seq(x) == u64_le_seq(y),
    ensures
        x == y,
{
    assert(u64_le_seq(x)[0] == u64_le_seq(y)[0]);
    assert(u64_le_seq(x)[1] == u64_le_seq(y)[1]);
    assert(u64_le_seq(x)[2] == u64_le_seq(y)[2]);
    assert(u64_le_seq(x)[3] == u64_le_seq(y)[3]);
    assert(u64_le_seq(x)[4] == u64_le_seq(y)[4]);
    assert(u64_le_seq(x)[5] == u64_le_seq(y)[5]);
    assert(u64_le_seq(x)[6] == u64_le_seq(y)[6]);
    assert(u64_le_seq(x)[7] == u64_le_seq(y)[7]);
    assert((x & 0xff) as u8 == (y & 0xff) as u8 && ((x >> 8) & 0xff) as u8 == ((y >> 8)
        & 0xff) as u8 && ((x >> 16) & 0xff) as u8 == ((y >> 16) & 0xff) as u8 && ((x >> 24)
        & 0xff) as u8 == ((y >> 24) & 0xff) as u8 && ((x >> 32) & 0xff) as u8 == ((y >> 32)
        & 0xff) as u8 && ((x >> 40) & 0xff) as u8 == ((y >> 40) & 0xff) as u8 && ((x >> 48)
        & 0xff) as u8 == ((y >> 48) & 0xff) as u8 && ((x >> 56) & 0xff) as u8 == ((y >> 56)
        & 0xff) as u8 ==> x == y) by (bit_vector);
}

/// The concatenation of the links of a node, each its 36 canonical bytes.
pub open spec fn enc_links(links: Seq<Seq<u8>>) -> Seq<u8>
    decreases links.len(),
{
    if links.len() == 0 {
        Seq::empty()
    } else {
        links.first() + enc_links(links.drop_first())
    }
}

/// Appending one link appends its bytes.
pub proof fn lemma_enc_links_push(links: Seq<Seq<u8>>, link: Seq<u8>)
    ensures
        enc_links(links.push(link)) == enc_links(links) + link,
    decreases links.len(),
{
    if links.len() == 0 {
        assert(links.push(link).drop_first() =~~= links);
        assert(enc_links(links.push(link)) =~= enc_links(links) + link);
    } else {
        lemma_enc_links_push(links.drop_first(), link);
        assert(links.push(link).drop_first() =~~= links.drop_first().push(link));
        assert(links.push(link).first() == links.first());
        assert(enc_links(links.push(link)) =~= enc_links(links) + link);
    }
}

/// Where every link has its canonical 36 bytes, the concatenation has
/// 36 bytes per link and each link stands at its own offset.
pub proof fn lemma_enc_links_parts(links: Seq<Seq<u8>>)
    requires
        forall|i: int| 0 <= i < links.len() ==> (#[trigger] links[i]).len() == 36,
    ensures
        enc_links(links).len() == 36 * links.len(),
        forall|i: int, k: int|
            0 <= i < links.len() && 0 <= k < 36 ==> enc_links(links)[36 * i + k] == (
            #[trigger] links[i][k]),
    decreases links.len(),
{
    if links.len() > 0 {
        lemma_enc_links_parts(links.drop_first());
        assert forall|i: int, k: int|
            0 <= i < links.len() && 0 <= k < 36 implies enc_links(links)[36 * i + k] == (
        #[trigger] links[i][k]) by {
            if i > 0 {
                assert(links.drop_first()[i - 1] == links[i]);
                assert(enc_links(links)[36 * i + k] == enc_links(links.drop_first())[36 * (i - 1)
                    + k]);
            }
        }
    }
}

/// The serialized form of a node: its duplicate flag, its own identifier
/// (36 bytes), a data tag with a little-endian length and the data bytes,
/// then a little-endian link count and the links' identifiers.
pub open spec fn encode_node(n: NodeV) -> Seq<u8> {
    seq![if n.is_dup { 1u8 } else { 0u8 }] + n.cid + (match n.data {
        None => seq![0u8] + u64_le_seq(0),
        Some(d) => seq![1u8] + u64_le_seq(d.len() as u64) + d,
    }) + u64_le_seq(n.links.len() as u64) + enc_links(n.links)
}

/// Two well-formed nodes with the same serialized form are the same node.
pub proof fn lemma_encode_injective(n1: NodeV, n2: NodeV)
    requires
        node_wf(n1),
        node_wf(n2),
        encode_node(n1) == encode_node(n2),
    ensures
        n1 == n2,
{
    let e1 = encode_node(n1);
    let e2 = encode_node(n2);
    assert(e1[0] == e2[0]);
    assert(n1.is_dup == n2.is_dup);
    assert forall|k: int| 0 <= k < 36 implies n1.cid[k] == n2.cid[k] by {
        assert(e1[1 + k] == e2[1 + k]);
    }
    assert(n1.cid =~= n2.cid);
    assert(e1[37] == e2[37]);
    let dlen1: int = match n1.data {
        None => 0,
        Some(d) => d.len() as int,
    };
    let dlen2: int = match n2.data {
        None => 0,
        Some(d) => d.len() as int,
    };
    match (n1.data, n2.data) {
        (Some(d1), Some(d2)) => {
            assert forall|k: int| 0 <= k < 8 implies #[trigger] u64_le_seq(d1.len() as u64)[k]
                == u64_le_seq(d2.len() as u64)[k] by {
                assert(e1[38 + k] == e2[38 + k]);
            }
            assert(u64_le_seq(d1.len() as u64) =~= u64_le_seq(d2.len() as u64));
            lemma_u64_le_inj(d1.len() as u64, d2.len() as u64);
            assert(d1.len() == d2.len());
            assert forall|k: int| 0 <= k < d1.len() implies d1[k] == d2[k] by {
                assert(e1[46 + k] == e2[46 + k]);
            }
            assert(d1 =~= d2);
        },
        (None, None) => {
        },
        (Some(d1), None) => {
            assert(e1[37] == 1u8);
            assert(e2[37] == 0u8);
        },
        (None, Some(d2)) => {
            assert(e1[37] == 0u8);
            assert(e2[37] == 1u8);
        },
    }
    assert(n1.data == n2.data);
    assert(dlen1 == dlen2);
    let base: int = 46 + dlen1;
    assert forall|k: int| 0 <= k < 8 implies #[trigger] u64_le_seq(n1.links.len() as u64)[k]
        == u64_le_seq(n2.links.len() as u64)[k] by {
        assert(e1[base + k] == e2[base + k]);
    }
    assert(u64_le_seq(n1.links.len() as u64) =~= u64_le_seq(n2.links.len() as u64));
    lemma_u64_le_inj(n1.links.len() as u64, n2.links.len() as u64);
    assert(n1.links.len() == n2.links.len());
    lemma_enc_links_parts(n1.links);
    lemma_enc_links_parts(n2.links);
    assert forall|i: int| 0 <= i < n1.links.len() implies n1.links[i] == n2.links[i] by {
        assert forall|k: int| 0 <= k < 36 implies n1.links[i][k] == n2.links[i][k] by {
            assert(enc_links(n1.links)[36 * i + k] == e1[base + 8 + 36 * i + k]);
            assert(enc_links(n2.links)[36 * i + k] == e2[base + 8 + 36 * i + k]);
        }
        assert(n1.links[i] =~= n2.links[i]);
    }
    assert(n1.links =~~= n2.links);
    assert(n1 =~~= n2);
}

/// The layout of a well-formed node's serialized form: total length and
/// the position and content of every field.
proof fn lemma_encode_layout(n: NodeV)
    requires
        node_wf(n),
    ensures
        encode_node(n).len() == 54 + (match n.data {
            Some(d) => d.len() as int,
            None => 0,
        }) + 36 * n.links.len(),
        encode_node(n)[0] == (if n.is_dup {
            1u8
        } else {
            0u8
        }),
        forall|k: int| 0 <= k < 36 ==> encode_node(n)[1 + k] == n.cid[k],
        encode_node(n)[37] == (match n.data {
            Some(_) => 1u8,
            None => 0u8,
        }),
        encode_node(n).subrange(38, 46) == u64_le_seq(
            (match n.data {
                Some(d) => d.len() as u64,
                None => 0u64,
            }),
        ),
        ({
            let dlen: int = match n.data {
                Some(d) => d.len() as int,
                None => 0,
            };
            encode_node(n).subrange(46 + dlen, 54 + dlen) == u64_le_seq(n.links.len() as u64)
        }),
        forall|i: int, k: int|
            0 <= i < n.links.len() && 0 <= k < 36 ==> encode_node(n)[54 + (match n.data {
                Some(d) => d.len() as int,
                None => 0,
            }) + 36 * i + k] == (#[trigger] n.links[i][k]),
{
    lemma_enc_links_parts(n.links);
    let e = encode_node(n);
    let dlen: int = match n.data {
        Some(d) => d.len() as int,
        None => 0,
    };
    assert(e.subrange(38, 46) =~= u64_le_seq(
        (match n.data {
            Some(d) => d.len() as u64,
            None => 0u64,
        }),
    ));
    assert(e.subrange(46 + dlen, 54 + dlen) =~= u64_le_seq(n.links.len() as u64));
}

/// No well-formed node has this byte sequence as its serialized form.
pub open spec fn no_wf_encoding(bytes: Seq<u8>) -> bool {
    forall|n: NodeV| node_wf(n) ==> #[trigger] encode_node(n) != bytes
}

/// Rejections that need no length fields: a short buffer, a bad flag or
/// tag byte, or a non-canonical node identifier.
proof fn lemma_reject_head(bytes: Seq<u8>)
    requires
        bytes.len() < 54 || bytes[0] > 1 || (bytes.len() >= 54 && !crate::hashing::cid_wf(
            bytes.subrange(1, 37),
        )) || (bytes.len() >= 54 && bytes[37] > 1),
    ensures
        no_wf_encoding(bytes),
{
    assert forall|n: NodeV| node_wf(n) implies #[trigger] encode_node(n) != bytes by {
        if encode_node(n) == bytes {
            lemma_encode_layout(n);
            assert(bytes.len() >= 54);
            assert(bytes[0] == 0 || bytes[0] == 1);
            assert(bytes[37] == 0 || bytes[37] == 1);
            assert(bytes.subrange(1, 37) =~= n.cid);
        }
    }
}

/// For any node whose serialized form these bytes are, the data-length
/// field read from them is the node's own data length.
proof fn lemma_match_dlen(bytes: Seq<u8>, n: NodeV, dlen64: u64)
    requires
        node_wf(n),
        encode_node(n) == bytes,
        bytes.len() >= 54,
        u64_le_seq(dlen64) == bytes.subrange(38, 46),
    ensures
        (match n.data {
            Some(d) => d.len() as int,
            None => 0,
        }) == dlen64 as int,
{
    lemma_encode_layout(n);
    lemma_u64_le_inj(
        dlen64,
        (match n.data {
            Some(d) => d.len() as u64,
            None => 0u64,
        }),
    );
}

/// Rejections decided by the data-length field: an empty-data tag with a
/// non-zero length, an oversized length, or a buffer too short for it.
proof fn lemma_reject_data(bytes: Seq<u8>, dlen64: u64)
    requires
        bytes.len() >= 54,
        u64_le_seq(dlen64) == bytes.subrange(38, 46),
        (bytes[37] == 0 && dlen64 != 0) || dlen64 > 0xFFFF_0000 || bytes.len() < 54 + dlen64,
    ensures
        no_wf_encoding(bytes),
{
    assert forall|n: NodeV| node_wf(n) implies #[trigger] encode_node(n) != bytes by {
        if encode_node(n) == bytes {
            lemma_encode_layout(n);
            lemma_match_dlen(bytes, n, dlen64);
            if bytes[37] == 0 {
                assert(n.data is None);
            }
        }
    }
}

/// Rejections decided by the link-count field: more links than a node
/// may have, or a buffer whose length does not match the count exactly.
proof fn lemma_reject_links(bytes: Seq<u8>, dlen64: u64, nlinks64: u64)
    requires
        bytes.len() >= 54,
        u64_le_seq(dlen64) == bytes.subrange(38, 46),
        bytes.len() >= 54 + dlen64,
        u64_le_seq(nlinks64) == bytes.subrange(46 + dlen64 as int, 54 + dlen64 as int),
        nlinks64 > 2 || bytes.len() != 54 + dlen64 + 36 * (nlinks64 as int),
    ensures
        no_wf_encoding(bytes),
{
    assert forall|n: NodeV| node_wf(n) implies #[trigger] encode_node(n) != bytes by {
        if encode_node(n) == bytes {
            lemma_encode_layout(n);
            lemma_match_dlen(bytes, n, dlen64);
            lemma_u64_le_inj(nlinks64, n.links.len() as u64);
        }
    }
}

/// Rejection of a non-canonical link identifier.
proof fn lemma_reject_bad_link(bytes: Seq<u8>, dlen64: u64, nlinks64: u64, i: int)
    requires
        bytes.len() >= 54,
        u64_le_seq(dlen64) == bytes.subrange(38, 46),
        bytes.len() == 54 + dlen64 + 36 * (nlinks64 as int),
        u64_le_seq(nlinks64) == bytes.subrange(46 + dlen64 as int, 54 + dlen64 as int),
        0 <= i < nlinks64 as int,
        !crate::hashing::cid_wf(
            bytes.subrange(54 + dlen64 + 36 * i, 54 + dlen64 + 36 * i + 36),
        ),
    ensures
        no_wf_encoding(bytes),
{
    assert forall|n: NodeV| node_wf(n) implies #[trigger] encode_node(n) != bytes by {
        if encode_node(n) == bytes {
            lemma_encode_layout(n);
            lemma_match_dlen(bytes, n, dlen64);
            lemma_u64_le_inj(nlinks64, n.links.len() as u64);
            assert(bytes.subrange(54 + dlen64 + 36 * i, 54 + dlen64 + 36 * i + 36)
                =~= n.links[i]);
        }
    }
}

/// Appends the eight little-endian bytes of a length field.
fn push_u64_le(out: &mut Vec<u8>, x: u64)
    ensures
        final(out)@ == old(out)@ + u64_le_seq(x),
{
    out.push((x & 0xff) as u8);
    out.push(((x >> 8) & 0xff) as u8);
    out.push(((x >> 16) & 0xff) as u8);
    out.push(((x >> 24) & 0xff) as u8);
    out.push(((x >> 32) & 0xff) as u8);
    out.push(((x >> 40) & 0xff) as u8);
    out.push(((x >> 48) & 0xff) as u8);
    out.push(((x >> 56) & 0xff) as u8);
    assert(out@ =~= old(out)@ + u64_le_seq(x));
}

/// Reads a little-endian length field at the given position.
fn read_u64_le(bytes: &[u8], pos: usize) -> (r: u64)
    requires
        pos + 8 <= bytes@.len(),
    ensures
        u64_le_seq(r) == bytes@.subrange(pos as int, pos as int + 8),
{
    let b0 = bytes[pos];
    let b1 = bytes[pos + 1];
    let b2 = bytes[pos + 2];
    let b3 = bytes[pos + 3];
    let b4 = bytes[pos + 4];
    let b5 = bytes[pos + 5];
    let b6 = bytes[pos + 6];
    let b7 = bytes[pos + 7];
    let r: u64 = (b0 as u64) | ((b1 as u64) << 8) | ((b2 as u64) << 16) | ((b3 as u64) << 24) | (
    (b4 as u64) << 32) | ((b5 as u64) << 40) | ((b6 as u64) << 48) | ((b7 as u64) << 56);
    proof {
        assert((r & 0xff) as u8 == b0 && ((r >> 8) & 0xff) as u8 == b1 && ((r >> 16)
            & 0xff) as u8 == b2 && ((r >> 24) & 0xff) as u8 == b3 && ((r >> 32) & 0xff) as u8 == b4
            && ((r >> 40) & 0xff) as u8 == b5 && ((r >> 48) & 0xff) as u8 == b6 && ((r >> 56)
            & 0xff) as u8 == b7) by (bit_vector)
            requires
                r == (b0 as u64) | ((b1 as u64) << 8) | ((b2 as u64) << 16) | ((b3 as u64) << 24)
                    | ((b4 as u64) << 32) | ((b5 as u64) << 40) | ((b6 as u64) << 48) | ((
                b7 as u64) << 56),
        ;
        assert(u64_le_seq(r) =~= bytes@.subrange(pos as int, pos as int + 8));
    }
    r
}

/// Serializes a node into the byte form that the store persists.
pub fn encode_node_bytes(n: &MerkleNode) -> (r: Vec<u8>)
    ensures
        r@ == encode_node(n@),
{
    let mut out: Vec<u8> = Vec::new();
    out.push(if n.is_dup { 1 } else { 0 });
    let mut cid_bytes = copy_bytes(&n.cid.bytes);
    out.append(&mut cid_bytes);
    match &n.data {
        Some(d) => {
            out.push(1);
            push_u64_le(&mut out, d.len() as u64);
            let mut data_bytes = copy_bytes(d);
            out.append(&mut data_bytes);
        },
        None => {
            out.push(0);
            push_u64_le(&mut out, 0);
        },
    }
    push_u64_le(&mut out, n.links.len() as u64);
    let ghost head: Seq<u8> = out@;
    let mut i: usize = 0;
    while i < n.links.len()
        invariant
            i <= n.links.len(),
            out@ == head + enc_links(n@.links.take(i as int)),
        decreases n.links.len() - i,
    {
        let mut link_bytes = copy_bytes(&n.links[i].bytes);
        out.append(&mut link_bytes);
        proof {
            lemma_enc_links_push(n@.links.take(i as int), n@.links[i as int]);
            assert(n@.links.take(i + 1) =~~= n@.links.take(i as int).push(n@.links[i as int]));
            assert(out@ =~= head + enc_links(n@.links.take(i + 1)));
        }
        i = i + 1;
    }
    proof {
        assert(n@.links.take(n.links@.len() as int) =~~= n@.links);
        assert(out@ =~= encode_node(n@));
    }
    out
}

/// Checks that a byte vector is a well-formed canonical CID.
pub fn check_cid_wf(bytes: &Vec<u8>) -> (r: bool)
    ensures
        r == crate::hashing::cid_wf(bytes@),
{
    bytes.len() == 36 && bytes[0] == 1 && bytes[1] == 0x55 && bytes[2] == 0x12 && bytes[3] == 0x20
}

/// Deserializes a stored byte value back into a node.  Returns `None` on
/// any malformed input: a bad flag or tag byte, a truncated field, bytes
/// left over, an oversized field, or an identifier that is not in
/// canonical form.
pub fn decode_node_bytes(bytes: &Vec<u8>) -> (r: Option<MerkleNode>)
    ensures
        r matches Some(n) ==> encode_node(n@) == bytes@ && node_wf(n@),
        r is None ==> no_wf_encoding(bytes@),
{
    if bytes.len() < 54 {
        proof {
            lemma_reject_head(bytes@);
        }
        return None;
    }
    let dup_byte = bytes[0];
    if dup_byte > 1 {
        proof {
            lemma_reject_head(bytes@);
        }
        return None;
    }
    let is_dup = dup_byte == 1;
    let cid_vec = slice_to_vec(slice_subrange(bytes.as_slice(), 1, 37));
    if !check_cid_wf(&cid_vec) {
        proof {
            lemma_reject_head(bytes@);
        }
        return None;
    }
    let tag = bytes[37];
    if tag > 1 {
        proof {
            lemma_reject_head(bytes@);
        }
        return None;
    }
    let dlen64 = read_u64_le(bytes.as_slice(), 38);
    if tag == 0 && dlen64 != 0 {
        proof {
            lemma_reject_data(bytes@, dlen64);
        }
        return None;
    }
    if dlen64 > 0xFFFF_0000 {
        proof {
            lemma_reject_data(bytes@, dlen64);
        }
        return None;
    }
    let dlen = dlen64 as usize;
    if bytes.len() - 46 < dlen {
        proof {
            lemma_reject_data(bytes@, dlen64);
        }
        return None;
    }
    let data_vec = slice_to_vec(slice_subrange(bytes.as_slice(), 46, 46 + dlen));
    let nl_pos = 46 + dlen;
    if bytes.len() - nl_pos < 8 {
        proof {
            lemma_reject_data(bytes@, dlen64);
        }
        return None;
    }
    let nlinks64 = read_u64_le(bytes.as_slice(), nl_pos);
    if nlinks64 > 2 {
        proof {
            lemma_reject_links(bytes@, dlen64, nlinks64);
        }
        return None;
    }
    let nlinks = nlinks64 as usize;
    let links_pos = nl_pos + 8;
    if bytes.len() - links_pos != 36 * nlinks {
        proof {
            lemma_reject_links(bytes@, dlen64, nlinks64);
        }
        return None;
    }
    let mut links: Vec<ContentId> = Vec::new();
    let mut i: usize = 0;
    while i < nlinks
        invariant
            i <= nlinks,
            nlinks <= 2,
            nlinks == nlinks64,
            dlen == dlen64,
            nl_pos == 46 + dlen,
            links_pos == nl_pos + 8,
            bytes@.len() >= 54,
            bytes@.len() == 54 + dlen64 + 36 * (nlinks64 as int),
            u64_le_seq(dlen64) == bytes@.subrange(38, 46),
            u64_le_seq(nlinks64) == bytes@.subrange(46 + dlen64 as int, 54 + dlen64 as int),
            links_pos + 36 * nlinks <= bytes@.len(),
            links_pos + 36 * nlinks <= usize::MAX,
            links@.len() == i,
            forall|j: int|
                0 <= j < i ==> (#[trigger] links@[j])@ == bytes@.subrange(
                    links_pos + 36 * j,
                    links_pos + 36 * j + 36,
                ) && crate::hashing::cid_wf(links@[j]@),
        decreases nlinks - i,
    {
        let link_vec = slice_to_vec(
            slice_subrange(bytes.as_slice(), links_pos + 36 * i, links_pos + 36 * i + 36),
        );
        if !check_cid_wf(&link_vec) {
            proof {
                lemma_reject_bad_link(bytes@, dlen64, nlinks64, i as int);
            }
            return None;
        }
        links.push(ContentId { bytes: link_vec });
        i = i + 1;
    }
    let data: Option<Vec<u8>> = if tag == 1 {
        Some(data_vec)
    } else {
        None
    };
    let n = MerkleNode { cid: ContentId { bytes: cid_vec }, links, data, is_dup };
    proof {
        let lv = n@.links;
        assert forall|j: int| 0 <= j < lv.len() implies (#[trigger] lv[j]).len() == 36 by {}
        lemma_enc_links_parts(lv);
        assert(u64_le_seq(dlen64) == bytes@.subrange(38, 46));
        assert(u64_le_seq(nlinks64) == bytes@.subrange(nl_pos as int, nl_pos as int + 8));
        assert(n@.links.len() as u64 == nlinks64);
        assert(match n@.data {
            Some(d) => d.len() as u64 == dlen64,
            None => true,
        });
        assert forall|k: int| 0 <= k < bytes@.len() implies encode_node(n@)[k] == bytes@[k] by {
            if 38 <= k < 46 {
                assert(encode_node(n@)[k] == u64_le_seq(dlen64)[k - 38]);
                assert(u64_le_seq(dlen64)[k - 38] == bytes@.subrange(38, 46)[k - 38]);
            } else if nl_pos <= k < nl_pos + 8 {
                assert(encode_node(n@)[k] == u64_le_seq(nlinks64)[k - nl_pos]);
                assert(u64_le_seq(nlinks64)[k - nl_pos] == bytes@.subrange(
                    nl_pos as int,
                    nl_pos as int + 8,
                )[k - nl_pos]);
            } else if links_pos <= k {
                let j = (k - links_pos) / 36;
                let o = (k - links_pos) % 36;
                assert(k - links_pos == 36 * j + o) by (nonlinear_arith)
                    requires
                        j == (k - links_pos) / 36,
                        o == (k - links_pos) % 36,
                        k >= links_pos,
                ;
                assert(0 <= j < lv.len() && 0 <= o < 36) by (nonlinear_arith)
                    requires
                        j == (k - links_pos) / 36,
                        o == (k - links_pos) % 36,
                        links_pos <= k < links_pos + 36 * lv.len(),
                ;
                assert(enc_links(lv)[36 * j + o] == lv[j][o]);
                assert(lv[j][o] == bytes@.subrange(
                    links_pos + 36 * j,
                    links_pos + 36 * j + 36,
                )[o]);
                assert(encode_node(n@)[k] == enc_links(lv)[k - links_pos]);
            }
        }
        assert(encode_node(n@) =~= bytes@);
    }
    Some(n)
}

} // verus!
