//! The choice of peers to dial.
use vstd::prelude::*;

use crate::random::random_u32;
use crate::types::PeerAddress;

verus! {

/// Keeps the number of connections up.
#[derive(Debug)]
pub struct KeepConnected {
    /// Addresses to choose from.
    pub dns: Vec<PeerAddress>,
    /// Addresses that were chosen before.
    pub earlier: Vec<PeerAddress>,
    /// Below this number of connections a further peer is dialled.
    pub min_connections: usize,
}

/// The addresses that were not chosen before, in order.
pub open spec fn eligible(dns: Seq<PeerAddress>, earlier: Seq<PeerAddress>) -> Seq<PeerAddress> {
    dns.filter(|a: PeerAddress| !earlier.contains(a))
}

/// The address that a number points at.
pub open spec fn choice(left: Seq<PeerAddress>, random: u32) -> PeerAddress {
    left[random as int % left.len() as int]
}

/// A number below the number of addresses points at the address in that place,
/// and numbers that are apart by the number of addresses point at the same: so
/// every address can be chosen.
pub proof fn law_choice_goes_round(left: Seq<PeerAddress>, random: u32)
    requires
        left.len() > 0,
    ensures
        random < left.len() ==> choice(left, random) == left[random as int],
        random + left.len() <= u32::MAX ==> choice(left, (random + left.len()) as u32) == choice(
            left,
            random,
        ),
        left.contains(choice(left, random)),
{
    let n = left.len() as int;
    if random < n {
        vstd::arithmetic::div_mod::lemma_small_mod(random as nat, n as nat);
    }
    vstd::arithmetic::div_mod::lemma_mod_add_multiples_vanish(random as int, n);
    assert((n + random) % n == random as int % n);
    vstd::arithmetic::div_mod::lemma_mod_bound(random as int, n);
}

/// Whether an address can be chosen depends on it and on what was chosen before,
/// not on the other addresses: addresses one after another leave what they leave
/// apart, in order.
pub proof fn law_each_address_eligible(
    a: Seq<PeerAddress>,
    b: Seq<PeerAddress>,
    earlier: Seq<PeerAddress>,
    address: PeerAddress,
)
    ensures
        eligible(a + b, earlier) == eligible(a, earlier) + eligible(b, earlier),
        earlier.contains(address) ==> eligible(seq![address], earlier).len() == 0,
        !earlier.contains(address) ==> eligible(seq![address], earlier) == seq![address],
        eligible(Seq::empty(), earlier).len() == 0,
    decreases b.len(),
{
    reveal_with_fuel(Seq::filter, 2);
    assert(seq![address].drop_last() =~= Seq::empty());
    if !earlier.contains(address) {
        assert(eligible(seq![address], earlier) =~= seq![address]);
    }
    if b.len() == 0 {
        assert(a + b =~= a);
        assert(eligible(a, earlier) + eligible(b, earlier) =~= eligible(a, earlier));
    } else {
        law_each_address_eligible(a, b.drop_last(), earlier, address);
        assert((a + b).drop_last() =~= a + b.drop_last());
        assert((a + b).last() == b.last());
        assert(eligible(a + b, earlier) =~= eligible(a, earlier) + eligible(b, earlier));
    }
}

impl KeepConnected {
    /// Nothing was chosen yet.
    pub fn new(dns: Vec<PeerAddress>, min_connections: usize) -> (r: KeepConnected)
        ensures
            r.dns == dns,
            r.earlier@ == Seq::<PeerAddress>::empty(),
            r.min_connections == min_connections,
    {
        KeepConnected { dns, earlier: Vec::new(), min_connections }
    }

    /// The peer to dial, at random, where there are too few connections and
    /// an address is left that was not chosen before.
    pub fn poll(&mut self, connected: usize) -> (r: Option<PeerAddress>)
        ensures
            final(self).dns == old(self).dns,
            final(self).min_connections == old(self).min_connections,
            r is Some <==> connected < old(self).min_connections && eligible(
                old(self).dns@,
                old(self).earlier@,
            ).len() > 0,
            match r {
                Some(choice) => {
                    &&& eligible(old(self).dns@, old(self).earlier@).contains(choice)
                    &&& final(self).earlier@ == old(self).earlier@.push(choice)
                },
                None => final(self).earlier == old(self).earlier,
            },
    {
        if connected < self.min_connections {
            let eligible = self.eligible_addresses();
            if eligible.len() > 0 {
                return Some(self.choose_peer(&eligible, random_u32()));
            }
        }
        None
    }

    /// The peer to dial, for a random number.
    pub fn choose_at(&mut self, connected: usize, random: u32) -> (r: Option<PeerAddress>)
        ensures
            final(self).dns == old(self).dns,
            final(self).min_connections == old(self).min_connections,
            ({
                let left = eligible(old(self).dns@, old(self).earlier@);
                if connected < old(self).min_connections && left.len() > 0 {
                    &&& r == Some(choice(left, random))
                    &&& final(self).earlier@ == old(self).earlier@.push(choice(left, random))
                } else {
                    r is None && final(self).earlier == old(self).earlier
                }
            }),
    {
        if connected < self.min_connections {
            let eligible = self.eligible_addresses();
            if eligible.len() > 0 {
                return Some(self.choose_peer(&eligible, random));
            }
        }
        None
    }

    /// The addresses that were not chosen before.
    fn eligible_addresses(&self) -> (r: Vec<PeerAddress>)
        ensures
            r@ == eligible(self.dns@, self.earlier@),
    {
        let ghost dns = self.dns@;
        let ghost is_left = |a: PeerAddress| !self.earlier@.contains(a);
        let mut left: Vec<PeerAddress> = Vec::new();
        let mut i: usize = 0;
        assert(dns.take(0).filter(is_left) =~= Seq::empty()) by {
            reveal(Seq::filter);
        }
        while i < self.dns.len()
            invariant
                i <= self.dns@.len(),
                dns == self.dns@,
                is_left == (|a: PeerAddress| !self.earlier@.contains(a)),
                left@ == dns.take(i as int).filter(is_left),
            decreases self.dns@.len() - i,
        {
            let address = self.dns[i];
            proof {
                reveal(Seq::filter);
                assert(dns.take(i + 1).drop_last() =~= dns.take(i as int));
                assert(dns.take(i + 1).last() == address);
            }
            if !self.was_chosen(&address) {
                left.push(address);
            }
            i = i + 1;
        }
        assert(dns.take(i as int) =~= dns);
        left
    }

    /// Whether an address was chosen before.
    fn was_chosen(&self, address: &PeerAddress) -> (r: bool)
        ensures
            r == self.earlier@.contains(*address),
    {
        let mut i: usize = 0;
        while i < self.earlier.len()
            invariant
                i <= self.earlier@.len(),
                forall|j: int| 0 <= j < i ==> self.earlier@[j] != *address,
            decreases self.earlier@.len() - i,
        {
            if self.earlier[i] == *address {
                return true;
            }
            i = i + 1;
        }
        false
    }

    /// Takes the address that a number points at, and notes the choice.
    fn choose_peer(&mut self, eligible: &Vec<PeerAddress>, random: u32) -> (r: PeerAddress)
        requires
            eligible@.len() > 0,
        ensures
            r == choice(eligible@, random),
            final(self).dns == old(self).dns,
            final(self).min_connections == old(self).min_connections,
            final(self).earlier@ == old(self).earlier@.push(r),
    {
        let choice = eligible[random as usize % eligible.len()];
        self.earlier.push(choice);
        choice
    }
}

/// A peer is chosen from the known addresses, none is chosen twice, and each
/// choice leaves fewer to choose from.
pub proof fn law_no_peer_twice(
    dns: Seq<PeerAddress>,
    earlier: Seq<PeerAddress>,
    choice: PeerAddress,
)
    requires
        eligible(dns, earlier).contains(choice),
        earlier.no_duplicates(),
    ensures
        dns.contains(choice),
        !earlier.contains(choice),
        earlier.push(choice).no_duplicates(),
        !eligible(dns, earlier.push(choice)).contains(choice),
        eligible(dns, earlier.push(choice)).len() < eligible(dns, earlier).len(),
{
    lemma_eligible(dns, earlier, choice);
    let next = earlier.push(choice);
    lemma_eligible(dns, next, choice);
    assert(next[earlier.len() as int] == choice);
    assert forall|i: int, j: int| 0 <= i < next.len() && 0 <= j < next.len() && i != j implies next[
    i] != next[j] by {
        if i < earlier.len() && j < earlier.len() {
            assert(earlier[i] != earlier[j]);
        }
    }
    lemma_fewer_eligible(dns, earlier, choice);
}

/// An address can be chosen exactly if it is known and was not chosen before.
pub proof fn lemma_eligible(
    dns: Seq<PeerAddress>,
    earlier: Seq<PeerAddress>,
    address: PeerAddress,
)
    ensures
        eligible(dns, earlier).contains(address) <==> dns.contains(address) && !earlier.contains(
            address,
        ),
    decreases dns.len(),
{
    reveal(Seq::filter);
    if dns.len() > 0 {
        let before = dns.drop_last();
        let last = dns.last();
        lemma_eligible(before, earlier, address);
        assert(dns.contains(address) <==> before.contains(address) || address == last) by {
            if before.contains(address) {
                let i = choose|i: int| 0 <= i < before.len() && before[i] == address;
                assert(dns[i] == address);
            }
            if dns.contains(address) {
                let i = choose|i: int| 0 <= i < dns.len() && dns[i] == address;
                if i < before.len() {
                    assert(before[i] == address);
                }
            }
            assert(dns[dns.len() - 1] == last);
        }
        let left = eligible(before, earlier);
        if !earlier.contains(last) {
            let all = left.push(last);
            assert(eligible(dns, earlier) =~= all);
            assert(all[left.len() as int] == last);
            if left.contains(address) {
                let i = choose|i: int| 0 <= i < left.len() && left[i] == address;
                assert(all[i] == address);
            }
            if all.contains(address) {
                let i = choose|i: int| 0 <= i < all.len() && all[i] == address;
                if i < left.len() {
                    assert(left[i] == address);
                }
            }
        }
    }
}

proof fn lemma_fewer_eligible(
    dns: Seq<PeerAddress>,
    earlier: Seq<PeerAddress>,
    choice: PeerAddress,
)
    ensures
        eligible(dns, earlier.push(choice)).len() <= eligible(dns, earlier).len(),
        eligible(dns, earlier).contains(choice) ==> eligible(dns, earlier.push(choice)).len()
            < eligible(dns, earlier).len(),
    decreases dns.len(),
{
    reveal(Seq::filter);
    if dns.len() > 0 {
        let before = dns.drop_last();
        let last = dns.last();
        let next = earlier.push(choice);
        lemma_fewer_eligible(before, earlier, choice);
        assert(next.contains(last) <==> earlier.contains(last) || last == choice) by {
            if earlier.contains(last) {
                let i = choose|i: int| 0 <= i < earlier.len() && earlier[i] == last;
                assert(next[i] == last);
            }
            if next.contains(last) {
                let i = choose|i: int| 0 <= i < next.len() && next[i] == last;
                if i < earlier.len() {
                    assert(earlier[i] == last);
                }
            }
            assert(next[earlier.len() as int] == choice);
        }
        lemma_eligible(dns, earlier, choice);
        lemma_eligible(before, earlier, choice);
        if dns.contains(choice) && last != choice {
            let i = choose|i: int| 0 <= i < dns.len() && dns[i] == choice;
            assert(before[i] == choice);
        }
    }
}

} // verus!
