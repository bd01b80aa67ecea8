//! Which blocks of a header chain are still to be downloaded.
use vstd::prelude::*;

use crate::types::{zero_hash, Hash256, StoredHeader};

verus! {

/// The blocks from `hash`, whose header is `at`, back towards the genesis
/// block, oldest first: down to the block after `stop`, or to the oldest
/// block before which all headers were made earlier than `birth`. Nothing
/// where a predecessor is not among the headers, or where the end is not met
/// within `fuel` steps.
pub open spec fn walk_back(
    headers: Map<Hash256, StoredHeader>,
    hash: Hash256,
    at: StoredHeader,
    stop: Hash256,
    birth: u64,
    fuel: nat,
) -> Option<Seq<(Hash256, u32)>>
    decreases fuel,
{
    let prev = at.header.prev_blockhash;
    let entry = (hash, at.height);
    if hash == stop {
        Some(Seq::empty())
    } else if fuel == 0 {
        None
    } else if prev != zero_hash() && !headers.contains_key(prev) {
        None
    } else if prev != zero_hash() && headers[prev].header.time < birth {
        Some(seq![entry])
    } else {
        let next = if prev != zero_hash() {
            headers[prev]
        } else {
            at
        };
        match walk_back(headers, prev, next, stop, birth, (fuel - 1) as nat) {
            Some(older) => Some(older.push(entry)),
            None => None,
        }
    }
}

/// The blocks to download for the chain that ends in the last hash of
/// `trunk`, within `fuel` steps: those after the processed block that
/// [`walk_back`] meets, where the tip was made after `birth`; else none.
pub open spec fn wanted_within(
    headers: Map<Hash256, StoredHeader>,
    trunk: Seq<Hash256>,
    processed: Option<Hash256>,
    birth: u64,
    fuel: nat,
) -> Option<Seq<(Hash256, u32)>> {
    if trunk.len() > 0 && headers.contains_key(trunk.last())
        && headers[trunk.last()].header.time > birth {
        walk_back(headers, trunk.last(), headers[trunk.last()], stop_hash(processed), birth, fuel)
    } else {
        Some(Seq::empty())
    }
}

/// The hash at which the walk stops: the processed block, or the hash that
/// the genesis block has for a predecessor.
pub open spec fn stop_hash(processed: Option<Hash256>) -> Hash256 {
    match processed {
        Some(hash) => hash,
        None => zero_hash(),
    }
}

/// The blocks to download at the start. Nothing where the chain breaks off,
/// or never meets the processed block.
pub open spec fn wanted_at_start(
    headers: Map<Hash256, StoredHeader>,
    trunk: Seq<Hash256>,
    processed: Option<Hash256>,
    birth: u64,
) -> Option<Seq<(Hash256, u32)>> {
    if exists|fuel: nat| #[trigger] wanted_within(headers, trunk, processed, birth, fuel) is Some {
        let fuel = choose|fuel: nat| #[trigger]
            wanted_within(headers, trunk, processed, birth, fuel) is Some;
        wanted_within(headers, trunk, processed, birth, fuel)
    } else {
        None
    }
}

/// More fuel does not change where a walk ends.
pub proof fn lemma_walk_fuel(
    headers: Map<Hash256, StoredHeader>,
    hash: Hash256,
    at: StoredHeader,
    stop: Hash256,
    birth: u64,
    fuel: nat,
    more: nat,
)
    requires
        fuel <= more,
        walk_back(headers, hash, at, stop, birth, fuel) is Some,
    ensures
        walk_back(headers, hash, at, stop, birth, more) == walk_back(
            headers,
            hash,
            at,
            stop,
            birth,
            fuel,
        ),
    decreases fuel,
{
    let prev = at.header.prev_blockhash;
    if hash == stop || fuel == 0 {
    } else if prev != zero_hash() {
        if headers.contains_key(prev) && !(headers[prev].header.time < birth) {
            lemma_walk_fuel(
                headers,
                prev,
                headers[prev],
                stop,
                birth,
                (fuel - 1) as nat,
                (more - 1) as nat,
            );
        }
    } else {
        lemma_walk_fuel(headers, prev, at, stop, birth, (fuel - 1) as nat, (more - 1) as nat);
    }
}

/// What the walk gives within some number of steps is what it gives.
pub proof fn lemma_wanted_within(
    headers: Map<Hash256, StoredHeader>,
    trunk: Seq<Hash256>,
    processed: Option<Hash256>,
    birth: u64,
    fuel: nat,
)
    requires
        wanted_within(headers, trunk, processed, birth, fuel) is Some,
    ensures
        wanted_at_start(headers, trunk, processed, birth) == wanted_within(
            headers,
            trunk,
            processed,
            birth,
            fuel,
        ),
{
    let chosen = choose|f: nat| #[trigger]
        wanted_within(headers, trunk, processed, birth, f) is Some;
    if trunk.len() > 0 && headers.contains_key(trunk.last())
        && headers[trunk.last()].header.time > birth {
        let at = headers[trunk.last()];
        let stop = stop_hash(processed);
        if chosen <= fuel {
            lemma_walk_fuel(headers, trunk.last(), at, stop, birth, chosen, fuel);
        } else {
            lemma_walk_fuel(headers, trunk.last(), at, stop, birth, fuel, chosen);
        }
    }
}

/// The walk from `from` passes the listed blocks in so many steps, and then goes
/// on from `hash`.
#[verifier::opaque]
pub open spec fn leads_to(
    headers: Map<Hash256, StoredHeader>,
    from: Hash256,
    hash: Hash256,
    stop: Hash256,
    birth: u64,
    steps: nat,
    passed: Seq<(Hash256, u32)>,
) -> bool {
    forall|fuel: nat|
        #![trigger walk_back(headers, hash, headers[hash], stop, birth, fuel)]
        walk_back(headers, from, headers[from], stop, birth, fuel + steps) == match walk_back(
            headers,
            hash,
            headers[hash],
            stop,
            birth,
            fuel,
        ) {
            Some(older) => Some(older + passed),
            None => None,
        }
}

/// What [`leads_to`] says of one number of steps.
pub proof fn lemma_leads_within(
    headers: Map<Hash256, StoredHeader>,
    from: Hash256,
    hash: Hash256,
    stop: Hash256,
    birth: u64,
    steps: nat,
    passed: Seq<(Hash256, u32)>,
    fuel: nat,
)
    requires
        leads_to(headers, from, hash, stop, birth, steps, passed),
    ensures
        walk_back(headers, from, headers[from], stop, birth, fuel + steps) == match walk_back(
            headers,
            hash,
            headers[hash],
            stop,
            birth,
            fuel,
        ) {
            Some(older) => Some(older + passed),
            None => None,
        },
{
    reveal(leads_to);
}

/// No step leads a walk to where it is.
pub proof fn lemma_leads_nowhere(
    headers: Map<Hash256, StoredHeader>,
    hash: Hash256,
    stop: Hash256,
    birth: u64,
)
    ensures
        leads_to(headers, hash, hash, stop, birth, 0, Seq::empty()),
{
    reveal(leads_to);
    assert forall|fuel: nat|
        #![trigger walk_back(headers, hash, headers[hash], stop, birth, fuel)]
        walk_back(headers, hash, headers[hash], stop, birth, fuel + 0) == match walk_back(
            headers,
            hash,
            headers[hash],
            stop,
            birth,
            fuel,
        ) {
            Some(older) => Some(older + Seq::<(Hash256, u32)>::empty()),
            None => None,
        } by {
        if let Some(older) = walk_back(headers, hash, headers[hash], stop, birth, fuel) {
            assert(older + Seq::<(Hash256, u32)>::empty() =~= older);
        }
    }
}

/// One more step passes one more block.
pub proof fn lemma_leads_on(
    headers: Map<Hash256, StoredHeader>,
    from: Hash256,
    hash: Hash256,
    stop: Hash256,
    birth: u64,
    steps: nat,
    passed: Seq<(Hash256, u32)>,
)
    requires
        leads_to(headers, from, hash, stop, birth, steps, passed),
        hash != stop,
        headers[hash].header.prev_blockhash != zero_hash(),
        headers.contains_key(headers[hash].header.prev_blockhash),
        headers[headers[hash].header.prev_blockhash].header.time >= birth,
    ensures
        leads_to(
            headers,
            from,
            headers[hash].header.prev_blockhash,
            stop,
            birth,
            steps + 1,
            seq![(hash, headers[hash].height)] + passed,
        ),
{
    let prev = headers[hash].header.prev_blockhash;
    let entry = (hash, headers[hash].height);
    reveal(leads_to);
    assert forall|fuel: nat|
        #![trigger walk_back(headers, prev, headers[prev], stop, birth, fuel)]
        walk_back(headers, from, headers[from], stop, birth, fuel + (steps + 1)) == match walk_back(
            headers,
            prev,
            headers[prev],
            stop,
            birth,
            fuel,
        ) {
            Some(older) => Some(older + (seq![entry] + passed)),
            None => None,
        } by {
        let here = walk_back(headers, hash, headers[hash], stop, birth, fuel + 1);
        lemma_leads_within(headers, from, hash, stop, birth, steps, passed, fuel + 1);
        assert(fuel + (steps + 1) == (fuel + 1) + steps);
        if let Some(older) = walk_back(headers, prev, headers[prev], stop, birth, fuel) {
            assert(here == Some(older.push(entry)));
            assert(older.push(entry) + passed =~= older + (seq![entry] + passed));
        }
    }
}

/// A walk that comes back to where it was does not end.
pub proof fn lemma_walk_circles(
    headers: Map<Hash256, StoredHeader>,
    hash: Hash256,
    stop: Hash256,
    birth: u64,
    steps: nat,
    passed: Seq<(Hash256, u32)>,
    fuel: nat,
)
    requires
        leads_to(headers, hash, hash, stop, birth, steps, passed),
        steps > 0,
        hash != stop,
    ensures
        walk_back(headers, hash, headers[hash], stop, birth, fuel) is None,
    decreases fuel,
{
    let at = headers[hash];
    if fuel < steps {
        lemma_leads_within(headers, hash, hash, stop, birth, steps, passed, 0);
        if walk_back(headers, hash, at, stop, birth, fuel) is Some {
            lemma_walk_fuel(headers, hash, at, stop, birth, fuel, steps);
        }
    } else {
        let less = (fuel - steps) as nat;
        lemma_walk_circles(headers, hash, stop, birth, steps, passed, less);
        lemma_leads_within(headers, hash, hash, stop, birth, steps, passed, less);
    }
}

/// A walk that leads to one that does not end does not end.
pub proof fn lemma_walk_lost(
    headers: Map<Hash256, StoredHeader>,
    from: Hash256,
    hash: Hash256,
    stop: Hash256,
    birth: u64,
    steps: nat,
    passed: Seq<(Hash256, u32)>,
)
    requires
        leads_to(headers, from, hash, stop, birth, steps, passed),
        forall|fuel: nat| #[trigger]
            walk_back(headers, hash, headers[hash], stop, birth, fuel) is None,
    ensures
        forall|fuel: nat| #[trigger]
            walk_back(headers, from, headers[from], stop, birth, fuel) is None,
{
    assert forall|fuel: nat| #[trigger]
        walk_back(headers, from, headers[from], stop, birth, fuel) is None by {
        lemma_leads_within(headers, from, hash, stop, birth, steps, passed, fuel);
        if walk_back(headers, from, headers[from], stop, birth, fuel) is Some {
            lemma_walk_fuel(headers, from, headers[from], stop, birth, fuel, fuel + steps);
        }
    }
}

proof fn lemma_walk_linked(
    headers: Map<Hash256, StoredHeader>,
    hash: Hash256,
    at: StoredHeader,
    stop: Hash256,
    birth: u64,
    fuel: nat,
)
    requires
        walk_back(headers, hash, at, stop, birth, fuel) is Some,
        headers.contains_key(hash),
        headers[hash] == at,
    ensures
        ({
            let blocks = walk_back(headers, hash, at, stop, birth, fuel)->0;
            &&& is_linked(headers, blocks)
            &&& hash == stop <==> blocks.len() == 0
            &&& blocks.len() > 0 ==> blocks.last().0 == hash
            &&& blocks.len() > 0 ==> begins_at(headers, blocks[0].0, stop, birth)
            &&& forall|i: int| 0 <= i < blocks.len() ==> (#[trigger] blocks[i]).0 != stop
            &&& forall|i: int|
                0 <= i < blocks.len() - 1 ==> headers[(#[trigger] blocks[i]).0].header.time
                    >= birth
            &&& blocks.len() > 0 ==> is_whole(headers, hash, stop, birth, blocks)
        }),
    decreases fuel,
{
    let prev = at.header.prev_blockhash;
    let blocks = walk_back(headers, hash, at, stop, birth, fuel)->0;
    if hash == stop {
    } else if prev == zero_hash() {
        if stop == zero_hash() {
            assert(walk_back(headers, prev, at, stop, birth, (fuel - 1) as nat) == Some(
                Seq::<(Hash256, u32)>::empty(),
            ));
        } else {
            lemma_walk_stays(headers, at, stop, birth, (fuel - 1) as nat);
        }
        assert(blocks =~= seq![(hash, at.height)]);
    } else if headers[prev].header.time < birth {
        assert(blocks =~= seq![(hash, at.height)]);
    } else {
        lemma_walk_linked(headers, prev, headers[prev], stop, birth, (fuel - 1) as nat);
        let older = walk_back(headers, prev, headers[prev], stop, birth, (fuel - 1) as nat)->0;
        assert(blocks =~= older.push((hash, at.height)));
        assert forall|i: int| 0 < i < blocks.len() implies headers[(
        #[trigger] blocks[i]).0].header.prev_blockhash == blocks[i - 1].0 by {
            if i < older.len() {
                assert(older[i] == blocks[i]);
                assert(older[i - 1] == blocks[i - 1]);
            }
        }
        assert forall|i: int| 0 <= i < blocks.len() implies headers.contains_key(
            (#[trigger] blocks[i]).0,
        ) && headers[blocks[i].0].height == blocks[i].1 && blocks[i].0 != stop by {
            if i < older.len() {
                assert(older[i] == blocks[i]);
            }
        }
        assert forall|i: int| 0 <= i < blocks.len() - 1 implies headers[(
        #[trigger] blocks[i]).0].header.time >= birth && blocks[i].0 != zero_hash() by {
            assert(older[i] == blocks[i]);
            if i == older.len() - 1 {
                assert(older.last() == older[i]);
            }
        }
    }
}

/// A walk that has passed the end of the chain does not end.
pub proof fn lemma_walk_stays(
    headers: Map<Hash256, StoredHeader>,
    at: StoredHeader,
    stop: Hash256,
    birth: u64,
    fuel: nat,
)
    requires
        stop != zero_hash(),
        at.header.prev_blockhash == zero_hash(),
    ensures
        walk_back(headers, zero_hash(), at, stop, birth, fuel) is None,
    decreases fuel,
{
    if fuel > 0 {
        lemma_walk_stays(headers, at, stop, birth, (fuel - 1) as nat);
    }
}

/// Each block but the first has the one before it for a predecessor, and all
/// are listed with their heights.
pub open spec fn is_linked(
    headers: Map<Hash256, StoredHeader>,
    blocks: Seq<(Hash256, u32)>,
) -> bool {
    &&& forall|i: int|
        0 <= i < blocks.len() ==> headers.contains_key((#[trigger] blocks[i]).0)
            && headers[blocks[i].0].height == blocks[i].1
    &&& forall|i: int|
        0 < i < blocks.len() ==> headers[(#[trigger] blocks[i]).0].header.prev_blockhash
            == blocks[i - 1].0
}

/// A block from which blocks are to be downloaded: the one after `stop`, or
/// one whose predecessor was made before `birth`.
pub open spec fn begins_at(
    headers: Map<Hash256, StoredHeader>,
    hash: Hash256,
    stop: Hash256,
    birth: u64,
) -> bool {
    let prev = headers[hash].header.prev_blockhash;
    ||| prev == stop
    ||| prev != zero_hash() && headers.contains_key(prev) && headers[prev].header.time < birth
}

/// A whole piece of the chain, of any length: known headers with their heights,
/// each the predecessor of the next, up to `tip`. It comes after `stop`, which is
/// the hash of no block where it begins with the genesis block, or after a block
/// that was made before `birth`; in between it holds neither.
pub open spec fn is_whole(
    headers: Map<Hash256, StoredHeader>,
    tip: Hash256,
    stop: Hash256,
    birth: u64,
    blocks: Seq<(Hash256, u32)>,
) -> bool {
    let first = headers[blocks[0].0].header.prev_blockhash;
    &&& blocks.len() > 0
    &&& blocks.last().0 == tip
    &&& is_linked(headers, blocks)
    &&& forall|i: int| 0 <= i < blocks.len() ==> (#[trigger] blocks[i]).0 != stop
    &&& forall|i: int|
        0 <= i < blocks.len() - 1 ==> (#[trigger] blocks[i]).0 != zero_hash()
            && headers[blocks[i].0].header.time >= birth
    &&& if first == zero_hash() {
        stop == zero_hash()
    } else {
        headers.contains_key(first) && (first == stop || headers[first].header.time < birth)
    }
}

/// The walk over a whole piece of the chain gives that piece.
proof fn lemma_walk_whole(
    headers: Map<Hash256, StoredHeader>,
    hash: Hash256,
    stop: Hash256,
    birth: u64,
    blocks: Seq<(Hash256, u32)>,
)
    requires
        is_whole(headers, hash, stop, birth, blocks),
    ensures
        walk_back(headers, hash, headers[hash], stop, birth, blocks.len()) == Some(blocks),
    decreases blocks.len(),
{
    let at = headers[hash];
    let prev = at.header.prev_blockhash;
    let n = blocks.len() - 1;
    assert(blocks[n] == (hash, at.height));
    if n == 0 {
        assert(blocks =~= seq![(hash, at.height)]);
        assert(Seq::<(Hash256, u32)>::empty().push((hash, at.height)) =~= blocks);
        if prev == zero_hash() {
            assert(walk_back(headers, prev, at, stop, birth, 0) == Some(
                Seq::<(Hash256, u32)>::empty(),
            ));
        } else if !(headers[prev].header.time < birth) {
            assert(walk_back(headers, prev, headers[prev], stop, birth, 0) == Some(
                Seq::<(Hash256, u32)>::empty(),
            ));
        }
    } else {
        let older = blocks.drop_last();
        assert(older.last() == blocks[n - 1]);
        assert(prev == blocks[n - 1].0);
        assert(is_whole(headers, prev, stop, birth, older)) by {
            assert forall|i: int| 0 <= i < older.len() implies headers.contains_key(
                (#[trigger] older[i]).0,
            ) && headers[older[i].0].height == older[i].1 && older[i].0 != stop && older[i].0
                != zero_hash() && headers[older[i].0].header.time >= birth by {
                assert(older[i] == blocks[i]);
            }
            assert forall|i: int| 0 < i < older.len() implies headers[(
            #[trigger] older[i]).0].header.prev_blockhash == older[i - 1].0 by {
                assert(older[i] == blocks[i]);
            }
        }
        lemma_walk_whole(headers, prev, stop, birth, older);
        assert(older.push((hash, at.height)) =~= blocks);
    }
}

/// The download starts wherever the chain is whole: a piece of known headers, of
/// any length, from after the processed block, or the genesis block, or a block
/// made before `birth`, to a tip made after `birth`, is just what is wanted.
pub proof fn law_whole_chain_is_wanted(
    headers: Map<Hash256, StoredHeader>,
    trunk: Seq<Hash256>,
    processed: Option<Hash256>,
    birth: u64,
    blocks: Seq<(Hash256, u32)>,
)
    requires
        trunk.len() > 0,
        headers.contains_key(trunk.last()),
        headers[trunk.last()].header.time > birth,
        is_whole(
            headers,
            trunk.last(),
            match processed {
                Some(hash) => hash,
                None => zero_hash(),
            },
            birth,
            blocks,
        ),
    ensures
        wanted_at_start(headers, trunk, processed, birth) == Some(blocks),
{
    lemma_walk_whole(headers, trunk.last(), stop_hash(processed), birth, blocks);
    lemma_wanted_within(headers, trunk, processed, birth, blocks.len());
}

/// The download starts with nothing wanted where there is no tip, where the tip
/// was not made after `birth`, and where it is the processed block.
pub proof fn law_nothing_wanted(
    headers: Map<Hash256, StoredHeader>,
    trunk: Seq<Hash256>,
    processed: Option<Hash256>,
    birth: u64,
)
    requires
        ({
            ||| trunk.len() == 0
            ||| !headers.contains_key(trunk.last())
            ||| headers[trunk.last()].header.time <= birth
            ||| processed == Some(trunk.last())
        }),
    ensures
        wanted_at_start(headers, trunk, processed, birth) == Some(Seq::<(Hash256, u32)>::empty()),
{
    assert(wanted_within(headers, trunk, processed, birth, 0) == Some(
        Seq::<(Hash256, u32)>::empty(),
    ));
    lemma_wanted_within(headers, trunk, processed, birth, 0);
}

/// The blocks to download at the start form a piece of the chain: each is the
/// predecessor of the next, the last is the tip, and the first follows the
/// processed block or a block that was made before `birth`. The processed
/// block is not among them, nor is any that was made before `birth`. There
/// are none exactly where there is no tip, the tip was not made after
/// `birth`, or the tip is the processed block.
pub proof fn law_wanted_is_chain(
    headers: Map<Hash256, StoredHeader>,
    trunk: Seq<Hash256>,
    processed: Option<Hash256>,
    birth: u64,
)
    requires
        wanted_at_start(headers, trunk, processed, birth) is Some,
    ensures
        ({
            let blocks = wanted_at_start(headers, trunk, processed, birth)->0;
            let stop = match processed {
                Some(hash) => hash,
                None => zero_hash(),
            };
            &&& is_linked(headers, blocks)
            &&& blocks.len() > 0 <==> {
                &&& trunk.len() > 0
                &&& headers.contains_key(trunk.last())
                &&& headers[trunk.last()].header.time > birth
                &&& trunk.last() != stop
            }
            &&& blocks.len() > 0 ==> is_whole(headers, trunk.last(), stop, birth, blocks)
            &&& blocks.len() > 0 ==> blocks.last().0 == trunk.last()
            &&& blocks.len() > 0 ==> begins_at(headers, blocks[0].0, stop, birth)
            &&& forall|i: int|
                0 <= i < blocks.len() ==> (#[trigger] blocks[i]).0 != stop
                    && headers[blocks[i].0].header.time >= birth
        }),
{
    let fuel = choose|fuel: nat| #[trigger]
        wanted_within(headers, trunk, processed, birth, fuel) is Some;
    if trunk.len() > 0 && headers.contains_key(trunk.last())
        && headers[trunk.last()].header.time > birth {
        let tip = trunk.last();
        lemma_walk_linked(headers, tip, headers[tip], stop_hash(processed), birth, fuel);
        let blocks = wanted_at_start(headers, trunk, processed, birth)->0;
        assert forall|i: int| 0 <= i < blocks.len() implies headers[(
        #[trigger] blocks[i]).0].header.time >= birth by {
            if i == blocks.len() - 1 {
                assert(blocks.last() == blocks[i]);
            }
        }
    }
}

} // verus!
