//! The staging store: blobs received over gossip, awaiting confirmation.
use vstd::prelude::*;
use crate::store::BlobMap;

verus! {

/// The SHA-256 digest of a byte string.
pub uninterp spec fn sha256_of(data: Seq<u8>) -> Seq<u8>;

/// Relies on bitcoin_hashes' `sha256::Hash::hash` and `to_byte_array`: the
/// SHA-256 digest of `data`, which is 32 bytes long.
#[verifier::external_body]
fn sha256_digest(data: &[u8]) -> (r: Vec<u8>)
    ensures
        r@ == sha256_of(data@),
        r@.len() == 32,
{
    let h = <bitcoin_hashes::sha256::Hash as bitcoin_hashes::Hash>::hash(data);
    <bitcoin_hashes::sha256::Hash as bitcoin_hashes::Hash>::to_byte_array(h).to_vec()
}

/// The content hash that identifies a blob: the SHA-256 of its payload.
pub fn content_hash(payload: &[u8]) -> (r: Vec<u8>)
    ensures
        r@ == sha256_of(payload@),
        r@.len() == 32,
{
    sha256_digest(payload)
}

/// Staged blobs, keyed by content hash.
pub struct Mempool {
    blobs: BlobMap,
}

impl View for Mempool {
    type V = Map<Seq<u8>, Seq<u8>>;

    closed spec fn view(&self) -> Map<Seq<u8>, Seq<u8>> {
        self.blobs@
    }
}

impl Mempool {
    /// The staging map is well formed.
    pub closed spec fn wf(&self) -> bool {
        self.blobs.wf()
    }

    /// An empty staging store.
    pub fn new() -> (r: Mempool)
        ensures
            r.wf(),
            r@ == Map::<Seq<u8>, Seq<u8>>::empty(),
    {
        Mempool { blobs: BlobMap::new() }
    }

    /// Stages `blob` under `hash`, replacing any earlier entry. The retention
    /// timestamp is accepted for a future pruning policy and not consulted.
    pub fn add_blob(&mut self, hash: &[u8], blob: &[u8], _timestamp: u64)
        requires
            old(self).wf(),
        ensures
            final(self).wf(),
            final(self)@ == old(self)@.insert(hash@, blob@),
    {
        self.blobs.insert(hash, blob);
    }

    /// The payload staged under `hash`, if any.
    pub fn get_blob(&self, hash: &[u8]) -> (r: Option<Vec<u8>>)
        requires
            self.wf(),
        ensures
            match r {
                Some(v) => self@.contains_key(hash@) && v@ == self@[hash@],
                None => !self@.contains_key(hash@),
            },
    {
        self.blobs.get(hash)
    }

    /// Removes the entry under `hash`; an absent hash is not an error.
    pub fn remove_blob(&mut self, hash: &[u8])
        requires
            old(self).wf(),
        ensures
            final(self).wf(),
            final(self)@ == old(self)@.remove(hash@),
    {
        self.blobs.remove(hash);
    }

    /// Retention policy hook: no entry is evicted.
    pub fn prune(&self)
    {
    }

    /// Handles one payload delivered by the gossip transport: stages it under
    /// its content hash, with retention timestamp 0.
    pub fn receive_gossip(&mut self, payload: &[u8])
        requires
            old(self).wf(),
        ensures
            final(self).wf(),
            final(self)@ == old(self)@.insert(sha256_of(payload@), payload@),
    {
        let hash = content_hash(payload);
        self.add_blob(hash.as_slice(), payload, 0);
    }
}

} // verus!
