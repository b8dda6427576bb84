//! The persistent record of alerts already seen: guid bytes to link bytes.

use vstd::prelude::*;
use vstd::utf8::encode_utf8;

verus! {

#[verifier::external_type_specification]
#[verifier::external_body]
pub struct ExTree(sled::Tree);

#[verifier::external_type_specification]
#[verifier::external_body]
pub struct ExSledError(sled::Error);

/// Names the entries that a sled tree holds.
pub uninterp spec fn tree_entries(t: sled::Tree) -> Map<Seq<u8>, Seq<u8>>;

/// Relies on `sled::Tree::compare_and_swap` with no expected value: it writes
/// `value` under `key` exactly when the key is absent, in one atomic step, and
/// reports a present key as a failed swap without writing. An error may come
/// before the write or after it (the log reservation and the page-out that
/// follow the link can fail), so on error the key may or may not be written.
#[verifier::external_body]
fn insert_if_absent(t: &mut sled::Tree, key: &[u8], value: &[u8]) -> (r: Result<bool, sled::Error>)
    ensures
        match r {
            Ok(true) => !tree_entries(*old(t)).contains_key(key@) && tree_entries(*final(t))
                == tree_entries(*old(t)).insert(key@, value@),
            Ok(false) => tree_entries(*old(t)).contains_key(key@) && tree_entries(*final(t))
                == tree_entries(*old(t)),
            Err(_) => tree_entries(*final(t)) == tree_entries(*old(t)) || (!tree_entries(
                *old(t),
            ).contains_key(key@) && tree_entries(*final(t)) == tree_entries(*old(t)).insert(
                key@,
                value@,
            )),
        },
{
    match t.compare_and_swap(key, None::<&[u8]>, Some(value)) {
        Ok(Ok(())) => Ok(true),
        Ok(Err(_)) => Ok(false),
        Err(e) => Err(e),
    }
}

/// The store could not be read or written.
#[derive(Clone, Copy, Debug, PartialEq, Eq, Structural)]
pub struct StoreError;

/// What a claim of guid `g` with link `l` does to the entries `m0`, giving `m1`.
pub open spec fn claim_post(
    m0: Map<Seq<u8>, Seq<u8>>,
    g: Seq<char>,
    l: Seq<char>,
    r: Result<bool, StoreError>,
    m1: Map<Seq<u8>, Seq<u8>>,
) -> bool {
    let k = encode_utf8(g);
    match r {
        Ok(true) => !m0.contains_key(k) && m1 == m0.insert(k, encode_utf8(l)),
        Ok(false) => m0.contains_key(k) && m1 == m0,
        Err(_) => m1 == m0 || (!m0.contains_key(k) && m1 == m0.insert(k, encode_utf8(l))),
    }
}

/// The record of seen alerts. Claims take `&mut self`: callers that run
/// concurrently share one cache behind a lock, so claims happen one at a time.
pub struct DedupCache {
    tree: sled::Tree,
}

impl DedupCache {
    /// The entries of the record: guid bytes to link bytes.
    pub closed spec fn entries(&self) -> Map<Seq<u8>, Seq<u8>> {
        tree_entries(self.tree)
    }

    pub fn new(tree: sled::Tree) -> (r: DedupCache)
        ensures
            r.entries() == tree_entries(tree),
    {
        DedupCache { tree }
    }

    /// Records `guid` with `link` if and only if `guid` is not recorded yet;
    /// `Ok(true)` means it was new. On an error the guid may have been recorded
    /// all the same, so the caller cannot tell whether it was new.
    pub fn try_claim(&mut self, guid: &str, link: &str) -> (r: Result<bool, StoreError>)
        ensures
            claim_post(old(self).entries(), guid@, link@, r, final(self).entries()),
    {
        match insert_if_absent(&mut self.tree, guid.as_bytes(), link.as_bytes()) {
            Ok(b) => Ok(b),
            Err(_) => Err(StoreError),
        }
    }
}

/// A claim never removes or changes an entry that was there before it.
pub proof fn lemma_claim_keeps_entries(
    m0: Map<Seq<u8>, Seq<u8>>,
    g: Seq<char>,
    l: Seq<char>,
    r: Result<bool, StoreError>,
    m1: Map<Seq<u8>, Seq<u8>>,
    k: Seq<u8>,
)
    requires
        claim_post(m0, g, l, r, m1),
        m0.contains_key(k),
    ensures
        m1.contains_key(k),
        m1[k] == m0[k],
{
}

/// Once a guid is recorded, every later claim of it returns `false` (or fails),
/// whatever its link; a successful claim records its guid.
pub proof fn lemma_claim_at_most_once(
    m0: Map<Seq<u8>, Seq<u8>>,
    g: Seq<char>,
    l: Seq<char>,
    r: Result<bool, StoreError>,
    m1: Map<Seq<u8>, Seq<u8>>,
)
    requires
        claim_post(m0, g, l, r, m1),
    ensures
        r == Ok::<bool, StoreError>(true) ==> m1.contains_key(encode_utf8(g)),
        m0.contains_key(encode_utf8(g)) ==> r != Ok::<bool, StoreError>(true),
{
}

} // verus!
