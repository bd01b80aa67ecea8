//! The header chain, as the `murmel` crate keeps it.
use bitcoin::BitcoinHash;
use bitcoin_hashes::{sha256d, Hash as Digest};
use murmel::chaindb::ChainDB;
use vstd::arithmetic::power2::{lemma2_to64, lemma_pow2_unfold, pow2};
use vstd::prelude::*;

use crate::types::{BlockHeader, Hash256, StoredHeader};

verus! {

/// The chain database.
#[verifier::external_type_specification]
#[verifier::external_body]
pub struct ExChainDB(murmel::chaindb::ChainDB);

/// The headers that the database has in its cache, by block hash.
pub uninterp spec fn chain_headers(db: ChainDB) -> Map<Hash256, StoredHeader>;

/// The trunk, which leads to the tip of most work: block hashes in the order in
/// which the database lists them, the tip last.
pub uninterp spec fn chain_trunk(db: ChainDB) -> Seq<Hash256>;

/// Calls `murmel::chaindb::ChainDB::get_header`: the cached header with that
/// hash, if there is one.
#[verifier::external_body]
pub(crate) fn get_header(db: &ChainDB, id: &Hash256) -> (r: Option<StoredHeader>)
    ensures
        r == (if chain_headers(*db).contains_key(*id) {
            Some(chain_headers(*db)[*id])
        } else {
            None
        }),
{
    db.get_header(&sha256d::Hash::from_inner(id.bytes)).map(|h| StoredHeader {
        header: BlockHeader {
            version: h.stored.header.version,
            prev_blockhash: Hash256 { bytes: h.stored.header.prev_blockhash.into_inner() },
            merkle_root: Hash256 { bytes: h.stored.header.merkle_root.into_inner() },
            time: h.stored.header.time,
            bits: h.stored.header.bits,
            nonce: h.stored.header.nonce,
        },
        height: h.stored.height,
    })
}

/// Calls `murmel::chaindb::ChainDB::header_tip` and hands out the hash of
/// the cached header: the last hash of the trunk. There is none where the
/// trunk is empty, or where its last hash is not in the cache.
#[verifier::external_body]
pub(crate) fn tip_hash(db: &ChainDB) -> (r: Option<Hash256>)
    ensures
        r == (if chain_trunk(*db).len() > 0
            && chain_headers(*db).contains_key(chain_trunk(*db).last()) {
            Some(chain_trunk(*db).last())
        } else {
            None
        }),
{
    db.header_tip().map(|h| Hash256 { bytes: h.bitcoin_hash().into_inner() })
}

/// How far back from the tip a locator has its hash in place `n`: the tip and
/// the ten hashes before it, then one hash after each step of 1, 2, 4 and so on.
pub open spec fn locator_distance(n: nat) -> nat {
    if n <= 10 {
        n
    } else {
        9 + pow2((n - 10) as nat)
    }
}

/// Whether these are the hashes of a trunk that a getheaders message names: one
/// at every distance, as far as the trunk reaches.
pub open spec fn is_locator(trunk: Seq<Hash256>, hashes: Seq<Hash256>) -> bool {
    &&& forall|n: int|
        0 <= n < hashes.len() ==> locator_distance(n as nat) < trunk.len() && #[trigger] hashes[n]
            == trunk[trunk.len() - 1 - locator_distance(n as nat)]
    &&& trunk.len() <= locator_distance(hashes.len())
}

/// A trunk has one locator. It begins with the tip, and is empty exactly where
/// the trunk is.
pub proof fn law_one_locator(trunk: Seq<Hash256>, a: Seq<Hash256>, b: Seq<Hash256>)
    requires
        is_locator(trunk, a),
        is_locator(trunk, b),
    ensures
        a == b,
        a.len() == 0 <==> trunk.len() == 0,
        a.len() > 0 ==> a[0] == trunk.last(),
{
    let end = trunk.len() - 1;
    if a.len() < b.len() {
        assert(b[a.len() as int] == trunk[end - locator_distance(a.len())]);
    }
    if b.len() < a.len() {
        assert(a[b.len() as int] == trunk[end - locator_distance(b.len())]);
    }
    if a.len() > 0 {
        assert(a[0] == trunk[end - locator_distance(0)]);
    }
    assert forall|n: int| 0 <= n < a.len() implies a[n] == b[n] by {
        assert(a[n] == trunk[end - locator_distance(n as nat)]);
        assert(b[n] == trunk[end - locator_distance(n as nat)]);
    }
    assert(a =~= b);
}

/// A locator has the tip first and each of the ten hashes before it, and steps
/// back by one more from there; after that each step is twice the one before.
pub proof fn law_locator_steps(n: nat)
    ensures
        locator_distance(0) == 0,
        n <= 10 ==> locator_distance(n + 1) == locator_distance(n) + 1,
        n >= 10 ==> locator_distance(n + 2) - locator_distance(n + 1) == 2 * (locator_distance(
            n + 1,
        ) - locator_distance(n)),
{
    lemma2_to64();
    if n >= 10 {
        lemma_pow2_unfold((n + 1 - 10) as nat);
        lemma_pow2_unfold((n + 2 - 10) as nat);
    }
}

/// The most hashes that a trunk may have for a locator to be computed. The
/// computation steps back by 1, 1, 2, 4, and so on, from the eleventh hash on,
/// and keeps the next step in a signed number of 32 bits.
pub const MAX_LOCATABLE: u32 = 0x4000_0009;

/// Calls `murmel::chaindb::ChainDB::header_locators`: the hashes of the trunk
/// that [`is_locator`] describes, from the tip back.
#[verifier::external_body]
pub(crate) fn header_locators(db: &ChainDB) -> (r: Vec<Hash256>)
    requires
        chain_trunk(*db).len() <= MAX_LOCATABLE,
    ensures
        is_locator(chain_trunk(*db), r@),
{
    db.header_locators().iter().map(|h| Hash256 { bytes: h.into_inner() }).collect()
}

/// Calls `murmel::chaindb::ChainDB::iter_trunk` and hands out the hash of the
/// first header that it gives: the trunk in place `from`, if the trunk reaches
/// as far.
#[verifier::external_body]
pub(crate) fn trunk_hash(db: &ChainDB, from: u32) -> (r: Option<Hash256>)
    ensures
        r == (if from < chain_trunk(*db).len() {
            Some(chain_trunk(*db)[from as int])
        } else {
            None
        }),
{
    db.iter_trunk(from).next().map(|h| Hash256 { bytes: h.bitcoin_hash().into_inner() })
}

} // verus!
