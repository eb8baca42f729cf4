use vstd::prelude::*;

use sha2::Digest;

verus! {

/// The digest that sha2's `Sha256::digest` computes for a byte sequence.
/// SHA-256 is a pure function of its input, so the result may be named.
pub uninterp spec fn sha256_of(data: Seq<u8>) -> Seq<u8>;

/// The canonical binary form of the CID of `data`: a CIDv1 with the raw
/// codec whose multihash is the SHA-256 digest of `data`.  Version (1),
/// codec (0x55), hash code (0x12) and digest length (32) are each encoded
/// as a single varint byte, followed by the 32 digest bytes.
pub open spec fn cid_of(data: Seq<u8>) -> Seq<u8> {
    seq![1u8, 0x55u8, 0x12u8, 0x20u8] + Seq::new(32, |i: int| sha256_of(data)[i])
}

/// The shapes that `cid_of` can produce: 36 bytes starting with the fixed
/// version, codec, hash code and digest length bytes.
pub open spec fn cid_wf(c: Seq<u8>) -> bool {
    c.len() == 36 && c[0] == 1u8 && c[1] == 0x55u8 && c[2] == 0x12u8 && c[3] == 0x20u8
}

/// Every CID in canonical binary form is well formed.
pub proof fn lemma_cid_of_wf(data: Seq<u8>)
    ensures
        cid_wf(cid_of(data)),
{
}

/// The canonical string form of a binary CID, as cid's `Display`
/// implementation renders it (multibase base32-lower for CIDv1).
pub uninterp spec fn cid_str_of(cid_bytes: Seq<u8>) -> Seq<char>;

/// A content identifier in its canonical binary form.
#[derive(Clone, Debug, PartialEq, Eq)]
pub struct ContentId {
    pub bytes: Vec<u8>,
}

impl View for ContentId {
    type V = Seq<u8>;

    open spec fn view(&self) -> Seq<u8> {
        self.bytes@
    }
}

/// Relies on sha2's `Sha256::digest` (a 32-byte SHA-256 digest of the
/// input), multihash's `Multihash::<64>::wrap` (varint hash code and
/// digest length followed by the digest; it only fails for digests longer
/// than 64 bytes) and cid's `Cid::new_v1` / `Cid::to_bytes` (varint
/// version and codec followed by the multihash bytes).
#[verifier::external_body]
fn cid_bytes_from_data(data: &[u8]) -> (r: Vec<u8>)
    ensures
        r@ == cid_of(data@),
        r@.len() == 36,
        forall|i: int| 0 <= i < 32 ==> r@[4 + i] == sha256_of(data@)[i],
{
    let digest = sha2::Sha256::digest(data);
    let hash = multihash::Multihash::<64>::wrap(0x12, &digest)
        .expect("a 32-byte digest fits in a 64-byte multihash");
    cid::Cid::new_v1(0x55, hash).to_bytes()
}

/// Relies on cid's `Cid::try_from` (parsing succeeds on the canonical
/// 36-byte CIDv1 form, whose digest fits the 64-byte allocation) and on
/// `Cid::to_string` (multibase base32-lower of the binary form for CIDv1:
/// a `b` prefix and 58 unpadded base32 digits for 36 bytes, so 59 ASCII
/// characters in all).
#[verifier::external_body]
fn cid_string_from_bytes(bytes: &Vec<u8>) -> (r: String)
    requires
        cid_wf(bytes@),
    ensures
        r@ == cid_str_of(bytes@),
        r@.len() == 59,
        vstd::utf8::is_ascii_chars(r@),
{
    let c = cid::Cid::try_from(bytes.as_slice()).expect("well-formed CID bytes parse");
    c.to_string()
}

/// Copies a byte vector element by element.
pub fn copy_bytes(v: &Vec<u8>) -> (r: Vec<u8>)
    ensures
        r@ == v@,
{
    let mut out: Vec<u8> = Vec::new();
    let mut i: usize = 0;
    while i < v.len()
        invariant
            i <= v.len(),
            out@ == v@.take(i as int),
        decreases v.len() - i,
    {
        out.push(v[i]);
        i = i + 1;
        assert(out@ == v@.take(i as int));
    }
    assert(v@.take(v.len() as int) == v@);
    out
}

impl ContentId {
    /// The canonical string form of this identifier, used as its storage key.
    pub fn to_string_form(&self) -> (r: String)
        requires
            cid_wf(self@),
        ensures
            r@ == cid_str_of(self@),
            r@.len() == 59,
            vstd::utf8::is_ascii_chars(r@),
    {
        cid_string_from_bytes(&self.bytes)
    }

    /// A copy of this identifier with the same binary form.
    pub fn duplicate(&self) -> (r: ContentId)
        ensures
            r@ == self@,
    {
        ContentId { bytes: copy_bytes(&self.bytes) }
    }
}

/// Generates the content identifier of a byte buffer: deterministic in the
/// buffer alone, so equal content always receives an equal identifier.
pub fn generate_cid(data: &[u8]) -> (r: ContentId)
    ensures
        r@ == cid_of(data@),
{
    ContentId { bytes: cid_bytes_from_data(data) }
}

/// The identifier of a buffer depends on nothing but the buffer's content:
/// two buffers with equal bytes receive the same identifier.
pub proof fn lemma_generate_cid_deterministic(b1: Seq<u8>, b2: Seq<u8>)
    requires
        b1 == b2,
    ensures
        cid_of(b1) == cid_of(b2),
{
}

} // verus!
