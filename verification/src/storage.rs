//! Content-addressed storage of documents and final transactions.
//!
//! A store knows nothing of what it holds: bytes are put, fetched and deleted by the digest of
//! their content. Since the address is that digest, whoever fetches bytes can verify them.

use vstd::prelude::*;

use crate::bytes::bytes_equal;
use crate::primitives::{sha256, PsbtHash};

verus! {

/// A store of byte strings under the digests of their contents.
pub trait BlobStore {
    /// What is stored.
    spec fn blobs(&self) -> Map<PsbtHash, Seq<u8>>;

    /// Stores bytes and gives their address.
    fn put(&mut self, bytes: &[u8]) -> (r: PsbtHash)
        ensures
            r@ == sha256(bytes@),
            final(self).blobs() == old(self).blobs().insert(r, bytes@),
    ;

    /// The bytes at an address, if there are any.
    fn get(&self, hash: &PsbtHash) -> (r: Option<Vec<u8>>)
        ensures
            match r {
                Some(b) => self.blobs().dom().contains(*hash) && self.blobs()[*hash] == b@,
                None => !self.blobs().dom().contains(*hash),
            },
    ;

    /// Deletes the bytes at an address; tells whether there were any.
    fn delete(&mut self, hash: &PsbtHash) -> (r: bool)
        ensures
            r == old(self).blobs().dom().contains(*hash),
            final(self).blobs() == old(self).blobs().remove(*hash),
    ;
}

/// A store in memory.
#[derive(Debug)]
pub struct InMemoryBlobStore {
    entries: Vec<(PsbtHash, Vec<u8>)>,
}

/// What entries hold, the later ones in place of the earlier ones.
pub open spec fn entries_map(entries: Seq<(PsbtHash, Vec<u8>)>) -> Map<PsbtHash, Seq<u8>>
    decreases entries.len(),
{
    if entries.len() == 0 {
        Map::empty()
    } else {
        entries_map(entries.drop_last()).insert(entries.last().0, entries.last().1@)
    }
}

impl Default for InMemoryBlobStore {
    fn default() -> (r: InMemoryBlobStore)
        ensures
            r.blobs() == Map::<PsbtHash, Seq<u8>>::empty(),
    {
        InMemoryBlobStore { entries: Vec::new() }
    }
}

impl InMemoryBlobStore {
    /// Leaves out what is stored at an address; tells whether there was anything.
    fn remove(&mut self, hash: &PsbtHash) -> (r: bool)
        ensures
            r == old(self).blobs().dom().contains(*hash),
            final(self).blobs() == old(self).blobs().remove(*hash),
    {
        let mut kept: Vec<(PsbtHash, Vec<u8>)> = Vec::new();
        let mut found: bool = false;
        let mut i: usize = 0;
        assert(entries_map(kept@) =~= entries_map(self.entries@.take(0)).remove(*hash));
        while i < self.entries.len()
            invariant
                i <= self.entries@.len(),
                self.entries@ == old(self).entries@,
                found == entries_map(self.entries@.take(i as int)).dom().contains(*hash),
                entries_map(kept@) == entries_map(self.entries@.take(i as int)).remove(*hash),
            decreases self.entries@.len() - i,
        {
            let ghost before = kept@;
            assert(self.entries@.take(i + 1).drop_last() =~= self.entries@.take(i as int));
            if self.entries[i].0 == *hash {
                found = true;
            } else {
                kept.push((self.entries[i].0, self.entries[i].1.clone()));
                assert(kept@.drop_last() =~= before);
            }
            assert(entries_map(kept@) =~= entries_map(self.entries@.take(i + 1)).remove(*hash));
            i += 1;
        }
        assert(self.entries@.take(i as int) =~= self.entries@);
        self.entries = kept;
        found
    }

    /// A store with these entries, which are taken as they are: whether the bytes have the digest
    /// that an address says shows when they are fetched.
    pub fn from_entries(entries: Vec<(PsbtHash, Vec<u8>)>) -> (r: Self)
        ensures
            r.blobs() == entries_map(entries@),
    {
        InMemoryBlobStore { entries }
    }

    /// What is stored, as a list.
    pub fn into_entries(self) -> (r: Vec<(PsbtHash, Vec<u8>)>)
        ensures
            entries_map(r@) == self.blobs(),
    {
        self.entries
    }
}

impl BlobStore for InMemoryBlobStore {
    closed spec fn blobs(&self) -> Map<PsbtHash, Seq<u8>> {
        entries_map(self.entries@)
    }

    fn put(&mut self, bytes: &[u8]) -> (r: PsbtHash) {
        let hash: PsbtHash = PsbtHash::digest_of(bytes);
        let _ = self.remove(&hash);
        let ghost before = self.entries@;
        let content: Vec<u8> = crate::bytes::copy_range(bytes, 0, bytes.len());
        assert(content@ =~= bytes@);
        self.entries.push((hash, content));
        assert(self.entries@.drop_last() =~= before);
        assert(self.blobs() =~= old(self).blobs().insert(hash, bytes@));
        hash
    }

    fn get(&self, hash: &PsbtHash) -> (r: Option<Vec<u8>>) {
        let mut i: usize = self.entries.len();
        assert(self.entries@.take(i as int) =~= self.entries@);
        while i > 0
            invariant
                i <= self.entries@.len(),
                self.blobs().dom().contains(*hash) == entries_map(
                    self.entries@.take(i as int),
                ).dom().contains(*hash),
                self.blobs().dom().contains(*hash) ==> self.blobs()[*hash] == entries_map(
                    self.entries@.take(i as int),
                )[*hash],
            decreases i,
        {
            assert(self.entries@.take(i as int).drop_last() =~= self.entries@.take(i - 1));
            i -= 1;
            if self.entries[i].0 == *hash {
                return Some(self.entries[i].1.clone());
            }
        }
        assert(self.entries@.take(0) =~= Seq::<(PsbtHash, Vec<u8>)>::empty());
        None
    }

    fn delete(&mut self, hash: &PsbtHash) -> (r: bool) {
        self.remove(hash)
    }
}

/// Why stored bytes cannot be had.
#[derive(Debug, Clone, Copy)]
pub enum BlobFetchError {
    /// Nothing is stored at an address that was recorded.
    Missing(PsbtHash),
    /// What is stored at an address does not have that digest.
    Integrity(PsbtHash),
}

/// What bytes that were fetched from an address, if any, come to.
pub open spec fn fetched(hash: PsbtHash, found: Option<Seq<u8>>) -> Result<
    Seq<u8>,
    BlobFetchError,
> {
    match found {
        None => Err(BlobFetchError::Missing(hash)),
        Some(b) => if sha256(b) == hash@ {
            Ok(b)
        } else {
            Err(BlobFetchError::Integrity(hash))
        },
    }
}

/// Verifies bytes that were fetched from an address against it.
pub fn verify_fetched(hash: &PsbtHash, found: Option<Vec<u8>>) -> (r: Result<
    Vec<u8>,
    BlobFetchError,
>)
    ensures
        ({
            let bytes: Option<Seq<u8>> = match found {
                Some(b) => Some(b@),
                None => None,
            };
            match r {
                Ok(b) => fetched(*hash, bytes) == Ok::<Seq<u8>, BlobFetchError>(b@),
                Err(e) => fetched(*hash, bytes) == Err::<Seq<u8>, BlobFetchError>(e),
            }
        }),
{
    match found {
        None => Err(BlobFetchError::Missing(*hash)),
        Some(b) => {
            let digest: PsbtHash = PsbtHash::digest_of(b.as_slice());
            if bytes_equal(digest.0.as_slice(), hash.0.as_slice()) {
                Ok(b)
            } else {
                Err(BlobFetchError::Integrity(*hash))
            }
        },
    }
}

/// The bytes that a store holds at an address.
pub open spec fn stored(blobs: Map<PsbtHash, Seq<u8>>, hash: PsbtHash) -> Option<Seq<u8>> {
    if blobs.dom().contains(hash) {
        Some(blobs[hash])
    } else {
        None
    }
}

/// Fetches bytes and verifies them against their address.
pub fn fetch_verified<B: BlobStore>(blobs: &B, hash: &PsbtHash) -> (r: Result<
    Vec<u8>,
    BlobFetchError,
>)
    ensures
        match r {
            Ok(b) => fetched(*hash, stored(blobs.blobs(), *hash)) == Ok::<Seq<u8>, BlobFetchError>(
                b@,
            ),
            Err(e) => fetched(*hash, stored(blobs.blobs(), *hash)) == Err::<
                Seq<u8>,
                BlobFetchError,
            >(e),
        },
{
    verify_fetched(hash, blobs.get(hash))
}

/// What was put is fetched: under its digest a store then holds the bytes, and they verify.
pub proof fn law_fetch_after_put(blobs: Map<PsbtHash, Seq<u8>>, hash: PsbtHash, bytes: Seq<u8>)
    requires
        hash@ == sha256(bytes),
    ensures
        fetched(hash, stored(blobs.insert(hash, bytes), hash)) == Ok::<Seq<u8>, BlobFetchError>(
            bytes,
        ),
{
}

/// What was deleted is missing, and nothing else is.
pub proof fn law_fetch_after_delete(
    blobs: Map<PsbtHash, Seq<u8>>,
    hash: PsbtHash,
    other: PsbtHash,
)
    ensures
        fetched(hash, stored(blobs.remove(hash), hash)) == Err::<Seq<u8>, BlobFetchError>(
            BlobFetchError::Missing(hash),
        ),
        other != hash ==> stored(blobs.remove(hash), other) == stored(blobs, other),
{
}

/// Putting the same bytes again changes nothing, and putting bytes leaves what is stored at
/// other addresses alone.
pub proof fn law_put_is_idempotent(
    blobs: Map<PsbtHash, Seq<u8>>,
    hash: PsbtHash,
    bytes: Seq<u8>,
    other: PsbtHash,
)
    ensures
        blobs.insert(hash, bytes).insert(hash, bytes) == blobs.insert(hash, bytes),
        other != hash ==> stored(blobs.insert(hash, bytes), other) == stored(blobs, other),
{
    assert(blobs.insert(hash, bytes).insert(hash, bytes) =~= blobs.insert(hash, bytes));
}

/// Whatever is fetched has the digest that its address says: corrupted or exchanged bytes are
/// never handed out.
pub proof fn law_fetched_bytes_are_authentic(hash: PsbtHash, found: Option<Seq<u8>>)
    requires
        fetched(hash, found) is Ok,
    ensures
        sha256(fetched(hash, found)->Ok_0) == hash@,
{
}

/// Bytes are handed out exactly where there are any at the address and they have that digest; else
/// the answer tells which of the two fails.
pub proof fn law_fetch_is_judged_by_the_digest(hash: PsbtHash, found: Option<Seq<u8>>)
    ensures
        match found {
            None => fetched(hash, found) == Err::<Seq<u8>, BlobFetchError>(
                BlobFetchError::Missing(hash),
            ),
            Some(bytes) => if sha256(bytes) == hash@ {
                fetched(hash, found) == Ok::<Seq<u8>, BlobFetchError>(bytes)
            } else {
                fetched(hash, found) == Err::<Seq<u8>, BlobFetchError>(
                    BlobFetchError::Integrity(hash),
                )
            },
        },
{
}

/// A store that is made of entries holds at an address what the last entry for it says, and
/// nothing where there is none.
pub proof fn law_last_entry_for_an_address_counts(
    entries: Seq<(PsbtHash, Vec<u8>)>,
    hash: PsbtHash,
    i: int,
)
    ensures
        (forall|j: int| 0 <= j < entries.len() ==> (#[trigger] entries[j]).0 != hash)
            ==> !entries_map(entries).dom().contains(hash),
        0 <= i < entries.len() && entries[i].0 == hash && (forall|j: int|
            i < j < entries.len() ==> (#[trigger] entries[j]).0 != hash) ==> entries_map(
            entries,
        ).dom().contains(hash) && entries_map(entries)[hash] == entries[i].1@,
    decreases entries.len(),
{
    if entries.len() > 0 {
        let init = entries.drop_last();
        law_last_entry_for_an_address_counts(init, hash, i);
        assert forall|j: int| 0 <= j < init.len() implies init[j] == #[trigger] entries[j] by {}
        assert(entries.last() == entries[entries.len() - 1]);
    }
}

} // verus!
