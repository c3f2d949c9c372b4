//! Identifiers of peers, held as the bytes of their multihash.
use vstd::prelude::*;

verus! {

/// The peer id that `libp2p_core::PeerId::from_bytes` reads from `bytes`, as its `to_bytes`
/// writes it, or `None` when it refuses them. Reading drops the bits of a tenth varint byte
/// that do not fit in 64 bits, so several byte strings can stand for one peer id.
pub uninterp spec fn peer_id_bytes(bytes: Seq<u8>) -> Option<Seq<u8>>;

/// Whether libp2p accepts `bytes` as a peer id.
pub open spec fn peer_id_valid(bytes: Seq<u8>) -> bool {
    peer_id_bytes(bytes) is Some
}

/// The bytes of the peer id that `bytes` stand for, as libp2p writes it.
pub open spec fn peer_id_of(bytes: Seq<u8>) -> Seq<u8> {
    match peer_id_bytes(bytes) {
        Some(c) => c,
        None => bytes,
    }
}

/// Whether `bytes` are a peer id as libp2p writes it.
pub open spec fn peer_id_canonical(bytes: Seq<u8>) -> bool {
    peer_id_bytes(bytes) == Some(bytes)
}

/// `libp2p_core::PeerId::from_bytes`, then `to_bytes` on the peer id read: the bytes of the
/// peer id as libp2p writes it, which depend on the bytes alone and read back as themselves;
/// `None` when the bytes are refused, which no bytes at all always are, since a multihash
/// starts with the varint of its code.
#[verifier::external_body]
fn peer_id_reencode(bytes: &[u8]) -> (r: Option<Vec<u8>>)
    ensures
        match r {
            Some(c) => peer_id_bytes(bytes@) == Some(c@),
            None => peer_id_bytes(bytes@) is None,
        },
        bytes@.len() == 0 ==> r is None,
        r matches Some(c) ==> peer_id_bytes(c@) == Some(c@),
{
    match libp2p_core::PeerId::from_bytes(bytes) {
        Ok(p) => Some(p.to_bytes()),
        Err(_) => None,
    }
}

/// Identifier of a peer of the network: the bytes of a multihash that libp2p accepts as a
/// peer id, as libp2p writes it.
#[derive(Debug, PartialEq, Eq, Hash)]
pub struct PeerId {
    bytes: Vec<u8>,
}

impl View for PeerId {
    type V = Seq<u8>;

    closed spec fn view(&self) -> Seq<u8> {
        self.bytes@
    }
}

impl PeerId {
    #[verifier::type_invariant]
    closed spec fn valid(self) -> bool {
        peer_id_canonical(self.bytes@)
    }

    /// Parses a peer id from bytes: `None` when libp2p does not accept them.
    pub fn from_bytes(bytes: &[u8]) -> (r: Option<PeerId>)
        ensures
            r is Some <==> peer_id_valid(bytes@),
            r matches Some(p) ==> p@ == peer_id_of(bytes@),
            bytes@.len() == 0 ==> r is None,
    {
        match peer_id_reencode(bytes) {
            Some(v) => Some(PeerId { bytes: v }),
            None => None,
        }
    }

    /// The bytes of this peer id.
    pub fn to_bytes(&self) -> (r: Vec<u8>)
        ensures
            r@ == self@,
            peer_id_canonical(r@),
    {
        proof {
            use_type_invariant(self);
        }
        vstd::slice::slice_to_vec(self.bytes.as_slice())
    }

    /// A copy of this peer id.
    pub fn duplicate(&self) -> (r: PeerId)
        ensures
            r@ == self@,
    {
        proof {
            use_type_invariant(self);
        }
        PeerId { bytes: vstd::slice::slice_to_vec(self.bytes.as_slice()) }
    }

    /// Whether both peer ids are the same.
    pub fn same(&self, other: &PeerId) -> (r: bool)
        ensures
            r == (self@ == other@),
    {
        let a = self.bytes.as_slice();
        let b = other.bytes.as_slice();
        if a.len() != b.len() {
            return false;
        }
        let mut i: usize = 0;
        while i < a.len()
            invariant
                a@.len() == b@.len(),
                a@ == self@,
                b@ == other@,
                i <= a@.len(),
                forall|j: int| 0 <= j < i ==> a@[j] == b@[j],
            decreases a@.len() - i,
        {
            if a[i] != b[i] {
                return false;
            }
            i += 1;
        }
        assert(a@ =~= b@);
        true
    }
}

impl Clone for PeerId {
    fn clone(&self) -> (r: PeerId) {
        self.duplicate()
    }
}

} // verus!
