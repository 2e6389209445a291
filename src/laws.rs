//! Properties of the lease manager that relate several operations or hold
//! of every reachable state, stated over the model of `server`.

use vstd::prelude::*;
use vstd::set_lib::lemma_set_disjoint_lens;
use crate::addr::{ClientAddr, Ipv4};
use crate::lease::{LeaseEvent, LeaseStatus};
use crate::server::{
    addr_index, client_index, discover_step, evict_step, has_addr, has_client, lemma_discover_wf,
    lemma_evict_wf, lemma_index_unique, lemma_step_wf, step, ServerView,
};
use crate::wire::{DeclineReason, MessageView, ReplyView};

verus! {

/// In a well-formed state the available and leased parts are disjoint and
/// together count every managed address once.
pub proof fn lemma_partition_counts(s: ServerView)
    requires
        s.wf(),
    ensures
        s.available.to_set().disjoint(s.leased.to_set()),
        s.available.len() + s.leased.len() == s.managed().len(),
{
    s.available.unique_seq_to_set();
    s.leased.unique_seq_to_set();
    assert(s.available.to_set().disjoint(s.leased.to_set())) by {
        assert forall|a: Ipv4| s.available.to_set().contains(a) implies !s.leased.to_set().contains(a) by {
            assert(s.available.contains(a));
        }
    }
    lemma_set_disjoint_lens(s.available.to_set(), s.leased.to_set());
}

/// Whatever message arrives, or whichever client is evicted, the pool stays
/// split into disjoint available and leased parts whose sizes add up to the
/// number of addresses it was configured with.
pub proof fn pool_partition_is_kept(s: ServerView, m: MessageView, c: ClientAddr, now: u64)
    requires
        s.wf(),
    ensures
        step(s, m, c, now).0.wf(),
        step(s, m, c, now).0.managed() == s.managed(),
        step(s, m, c, now).0.available.to_set().disjoint(step(s, m, c, now).0.leased.to_set()),
        step(s, m, c, now).0.available.len() + step(s, m, c, now).0.leased.len() == s.managed().len(),
        evict_step(s, c, now).0.wf(),
        evict_step(s, c, now).0.managed() == s.managed(),
        evict_step(s, c, now).0.available.to_set().disjoint(evict_step(s, c, now).0.leased.to_set()),
        evict_step(s, c, now).0.available.len() + evict_step(s, c, now).0.leased.len() == s.managed().len(),
{
    lemma_step_wf(s, m, c, now);
    lemma_partition_counts(step(s, m, c, now).0);
    lemma_evict_wf(s, c, now);
    lemma_partition_counts(evict_step(s, c, now).0);
}

/// In a well-formed state no two bound leases reference one address.
pub proof fn bound_address_is_unique(s: ServerView, i: int, j: int)
    requires
        s.wf(),
        0 <= i < s.leases.len(),
        0 <= j < s.leases.len(),
        s.leases[i].status == LeaseStatus::Bound,
        s.leases[j].status == LeaseStatus::Bound,
        s.leases[i].addr == s.leases[j].addr,
    ensures
        i == j,
{
}

/// A client that is offered an address by a discovery and then requests
/// that address is acknowledged.
pub proof fn discover_then_request_is_acked(
    s: ServerView,
    c: ClientAddr,
    hw: Seq<u8>,
    hw2: Seq<u8>,
    now: u64,
    later: u64,
)
    requires
        s.wf(),
    ensures
        match step(s, MessageView::Discover { hw }, c, now) {
            (s1, Some(ReplyView::Offer { addr, hw: _ })) => step(
                s1,
                MessageView::Request { addr, hw: hw2 },
                c,
                later,
            ).1 == Some(ReplyView::Ack { addr, hw: hw2 }),
            _ => true,
        },
{
    let (s1, r1) = discover_step(s, c, hw, now);
    lemma_discover_wf(s, c, hw, now);
    let held = has_client(s.leases, c);
    let i = client_index(s.leases, c);
    if held && s.leases[i].status == LeaseStatus::Bound {
        let a = s.leases[i].addr;
        lemma_index_unique(s.leases, i);
        assert(s.leased.contains(a));
    } else if s1.leases.len() > 0 && r1 != Some(ReplyView::NoAddressAvailable) {
        let k = s1.leases.len() - 1;
        let a = s1.leases[k].addr;
        lemma_index_unique(s1.leases, k);
        assert(s1.leased.contains(a));
    }
}

/// A request for an address bound to another client is declined as in use,
/// and changes nothing.
pub proof fn request_of_bound_address_is_declined(
    s: ServerView,
    a: Ipv4,
    c: ClientAddr,
    hw: Seq<u8>,
    now: u64,
)
    requires
        s.wf(),
        has_addr(s.leases, a),
        s.leases[addr_index(s.leases, a)].status == LeaseStatus::Bound,
        s.leases[addr_index(s.leases, a)].client != c,
    ensures
        step(s, MessageView::Request { addr: a, hw }, c, now) == (s, Some(
            ReplyView::Decline(DeclineReason::AddressInUse),
        )),
{
}

/// A release from a client that holds no lease changes nothing and has no
/// reply.
pub proof fn release_without_lease_is_noop(s: ServerView, c: ClientAddr, now: u64)
    requires
        !has_client(s.leases, c),
    ensures
        step(s, MessageView::Release, c, now) == (s, None::<ReplyView>),
{
}

/// The state after `n` discoveries from client `c`.
pub open spec fn discover_repeatedly(s: ServerView, c: ClientAddr, hw: Seq<u8>, now: u64, n: nat) -> ServerView
    decreases n,
{
    if n == 0 {
        s
    } else {
        discover_repeatedly(discover_step(s, c, hw, now).0, c, hw, now, (n - 1) as nat)
    }
}

/// However often a client repeats its discovery, the pool keeps every
/// address it manages: none leaks and none is duplicated.
pub proof fn repeated_discover_keeps_pool(s: ServerView, c: ClientAddr, hw: Seq<u8>, now: u64, n: nat)
    requires
        s.wf(),
    ensures
        discover_repeatedly(s, c, hw, now, n).wf(),
        discover_repeatedly(s, c, hw, now, n).managed() == s.managed(),
        discover_repeatedly(s, c, hw, now, n).available.len() + discover_repeatedly(s, c, hw, now, n).leased.len()
            == s.available.len() + s.leased.len(),
    decreases n,
{
    lemma_partition_counts(s);
    if n > 0 {
        lemma_discover_wf(s, c, hw, now);
        repeated_discover_keeps_pool(discover_step(s, c, hw, now).0, c, hw, now, (n - 1) as nat);
    }
    lemma_partition_counts(discover_repeatedly(s, c, hw, now, n));
}

} // verus!
