//! Identities of nodes.
use crate::digest::{hex_encode, sha256};
#[allow(unused_imports)]
use crate::digest::{hex_text, hex_value, law_hexadecimal_reads_back, sha256_digest};
use crate::ordered_map::MapKey;
use crate::views::Duplicate;
use vstd::prelude::*;
#[allow(unused_imports)]
use vstd::utf8::encode_utf8;

verus! {

/// A node identity: an address of twenty bytes.
#[derive(Clone, Copy, Debug, PartialEq, Eq, Hash)]
pub struct NodeId {
    inner: [u8; 20],
}

impl View for NodeId {
    type V = Seq<u8>;

    closed spec fn view(&self) -> Seq<u8> {
        self.inner@
    }
}

impl MapKey for NodeId {
    fn same_key(&self, other: &Self) -> (same: bool) {
        let mut i: usize = 0;
        while i < 20
            invariant
                i <= 20,
                forall|j: int| 0 <= j < i ==> self.inner@[j] == other.inner@[j],
            decreases 20 - i,
        {
            if self.inner[i] != other.inner[i] {
                assert(self@[i as int] != other@[i as int]);
                return false;
            }
            i += 1;
        }
        assert(self@ =~= other@);
        true
    }
}

impl Duplicate for NodeId {
    fn duplicate(&self) -> (copy: Self) {
        *self
    }
}

impl NodeId {
    /// The identity with the given address.
    pub fn from_array(inner: [u8; 20]) -> (id: NodeId)
        ensures
            id@ == inner@,
    {
        NodeId { inner }
    }

    /// The address of the identity.
    pub fn into_array(&self) -> (inner: [u8; 20])
        ensures
            inner@ == self@,
    {
        self.inner
    }

    /// The identity as text: `0x` and the address in hexadecimal.
    pub fn to_text(&self) -> (text: String)
        ensures
            text@ == node_text(self@),
    {
        let mut text = "0x".to_string();
        let hex = hex_encode(self.inner.as_slice());
        text.append(hex.as_str());
        text
    }
}

/// How an identity is written: `0x` and its address in hexadecimal.
pub open spec fn node_text(id: Seq<u8>) -> Seq<char> {
    "0x"@ + hex_text(id)
}

/// The address that stands for a name: the first twenty bytes of its digest.
pub open spec fn named_node(name: Seq<char>) -> Seq<u8> {
    sha256_digest(encode_utf8(name)).take(20)
}

/// An identity that depends on a name alone.
pub fn create_node_id(name: &str) -> (id: NodeId)
    ensures
        id@ == named_node(name@),
{
    let hash = sha256(name.as_bytes());
    node_of_digest(hash.as_slice())
}

/// The identity whose address is the start of a digest.
pub fn node_of_digest(hash: &[u8]) -> (id: NodeId)
    requires
        hash@.len() >= 20,
    ensures
        id@ == hash@.take(20),
{
    let mut inner: [u8; 20] = [0; 20];
    let mut i: usize = 0;
    while i < 20
        invariant
            i <= 20,
            hash@.len() >= 20,
            inner@.len() == 20,
            forall|j: int| 0 <= j < i ==> inner@[j] == hash@[j],
        decreases 20 - i,
    {
        inner[i] = hash[i];
        i += 1;
    }
    assert(inner@ =~= hash@.take(20));
    NodeId { inner }
}

// ---------------------------------------------------------------- laws

/// An identity is written as `0x` and two hexadecimal digits for each byte, from
/// which the byte can be read back.
pub proof fn law_identity_reads_back(id: Seq<u8>, i: int)
    requires
        0 <= i < id.len(),
    ensures
        ({
            let text = node_text(id);
            &&& text.len() == 2 * id.len() + 2
            &&& text[0] == '0'
            &&& text[1] == 'x'
            &&& 16 * hex_value(text[2 * i + 2]) + hex_value(text[2 * i + 3]) == id[i]
        }),
{
    reveal_strlit("0x");
    law_hexadecimal_reads_back(id, i);
    assert(node_text(id)[2 * i + 2] == hex_text(id)[2 * i]);
    assert(node_text(id)[2 * i + 3] == hex_text(id)[2 * i + 1]);
}

/// The address that stands for a name has twenty bytes, those that the digest of
/// the name begins with.
pub proof fn law_name_gives_the_address(name: Seq<char>)
    ensures
        ({
            let digest = sha256_digest(encode_utf8(name));
            digest.len() >= 20 ==> {
                &&& named_node(name).len() == 20
                &&& forall|i: int| 0 <= i < 20 ==> #[trigger] named_node(name)[i] == digest[i]
            }
        }),
{
}

} // verus!
