//! The lease manager: pool, lease table and history under one owner, and
//! the handshake's state machine over them.

use vstd::prelude::*;
use crate::addr::{ClientAddr, Ipv4};
use crate::lease::{copy_bytes, HistoryEntry, HistoryView, Lease, LeaseEvent, LeaseStatus, LeaseView};
use crate::pool::{lemma_move, lemma_remove_at, managed_set, partition_wf, IpPool};
use crate::wire::{
    message_of, parse_message, reply_bytes, reply_view, DeclineReason, Message, MessageError, MessageView, Reply,
    ReplyView,
};

verus! {

/// The state of the lease manager as mathematical values.
pub struct ServerView {
    pub available: Seq<Ipv4>,
    pub leased: Seq<Ipv4>,
    pub leases: Seq<LeaseView>,
    pub history: Seq<HistoryView>,
}

/// Whether client `c` holds a lease.
pub open spec fn has_client(ls: Seq<LeaseView>, c: ClientAddr) -> bool {
    exists|i: int| 0 <= i < ls.len() && #[trigger] ls[i].client == c
}

/// The index of the lease of client `c` (meaningful when it has one).
pub open spec fn client_index(ls: Seq<LeaseView>, c: ClientAddr) -> int {
    choose|i: int| 0 <= i < ls.len() && #[trigger] ls[i].client == c
}

/// Whether some lease holds address `a`.
pub open spec fn has_addr(ls: Seq<LeaseView>, a: Ipv4) -> bool {
    exists|i: int| 0 <= i < ls.len() && #[trigger] ls[i].addr == a
}

/// The index of the lease on address `a` (meaningful when there is one).
pub open spec fn addr_index(ls: Seq<LeaseView>, a: Ipv4) -> int {
    choose|i: int| 0 <= i < ls.len() && #[trigger] ls[i].addr == a
}

/// No two leases share a client or an address.
pub open spec fn distinct_leases(ls: Seq<LeaseView>) -> bool {
    &&& forall|i: int, j: int|
        0 <= i < ls.len() && 0 <= j < ls.len() && i != j ==> #[trigger] ls[i].client != #[trigger] ls[j].client
    &&& forall|i: int, j: int|
        0 <= i < ls.len() && 0 <= j < ls.len() && i != j ==> #[trigger] ls[i].addr != #[trigger] ls[j].addr
}

impl ServerView {
    pub open spec fn managed(self) -> Set<Ipv4> {
        managed_set(self.available, self.leased)
    }

    /// The pool is a partition, each client and each address has at most one
    /// lease, and the leased addresses are exactly those that leases hold.
    pub open spec fn wf(self) -> bool {
        &&& partition_wf(self.available, self.leased)
        &&& distinct_leases(self.leases)
        &&& forall|a: Ipv4| #[trigger] self.leased.contains(a) <==> has_addr(self.leases, a)
    }

    /// `wf`, except that address `a`, which the pool manages, is held by no
    /// lease whether or not it is leased.
    pub open spec fn wf_open(self, a: Ipv4) -> bool {
        &&& partition_wf(self.available, self.leased)
        &&& distinct_leases(self.leases)
        &&& self.managed().contains(a)
        &&& !has_addr(self.leases, a)
        &&& forall|x: Ipv4| x != a ==> (#[trigger] self.leased.contains(x) <==> has_addr(self.leases, x))
    }

    /// The lease at index `i` removed.
    pub open spec fn without_lease(self, i: int) -> ServerView {
        ServerView { leases: self.leases.remove(i), ..self }
    }

    /// A lease appended.
    pub open spec fn with_lease(self, l: LeaseView) -> ServerView {
        ServerView { leases: self.leases.push(l), ..self }
    }

    /// A history entry appended.
    pub open spec fn logged(self, c: ClientAddr, a: Ipv4, hw: Seq<u8>, ev: LeaseEvent, now: u64) -> ServerView {
        ServerView {
            history: self.history.push(HistoryView { client: c, addr: a, hw, event: ev, at: now }),
            ..self
        }
    }

    /// Address `a` returned from leased to available, if it is leased.
    pub open spec fn released(self, a: Ipv4) -> ServerView {
        if self.leased.contains(a) {
            ServerView {
                available: self.available.push(a),
                leased: self.leased.remove(self.leased.index_of(a)),
                ..self
            }
        } else {
            self
        }
    }

    /// Address `a` moved from available to leased, if it is available.
    pub open spec fn confirmed(self, a: Ipv4) -> ServerView {
        if self.available.contains(a) {
            ServerView {
                available: self.available.remove(self.available.index_of(a)),
                leased: self.leased.push(a),
                ..self
            }
        } else {
            self
        }
    }

    /// The lease at index `i` deleted, its address returned to the pool and
    /// the transition recorded as `ev`.
    pub open spec fn dropped(self, i: int, ev: LeaseEvent, now: u64) -> ServerView {
        let l = self.leases[i];
        self.without_lease(i).released(l.addr).logged(l.client, l.addr, l.hw, ev, now)
    }
}

/// Discover from `c`: a bound client is offered its own address again;
/// otherwise a stale offer of `c` is withdrawn and the last available address
/// offered.
pub open spec fn discover_step(s: ServerView, c: ClientAddr, hw: Seq<u8>, now: u64) -> (ServerView, Option<ReplyView>) {
    let held = has_client(s.leases, c);
    let l = s.leases[client_index(s.leases, c)];
    if held && l.status == LeaseStatus::Bound {
        (s, Some(ReplyView::Offer { addr: l.addr, hw }))
    } else {
        let s1 = if held { s.dropped(client_index(s.leases, c), LeaseEvent::Withdrawn, now) } else { s };
        if s1.available.len() == 0 {
            (s1, Some(ReplyView::NoAddressAvailable))
        } else {
            let a = s1.available.last();
            let s2 = ServerView {
                available: s1.available.drop_last(),
                leased: s1.leased.push(a),
                ..s1
            };
            (
                s2.with_lease(LeaseView { client: c, addr: a, hw, status: LeaseStatus::Offered, since: now })
                    .logged(c, a, hw, LeaseEvent::Offered, now),
                Some(ReplyView::Offer { addr: a, hw }),
            )
        }
    }
}

/// The state after the unconfirmed holder of `a`, if any, loses its lease.
pub open spec fn request_clear_holder(s: ServerView, c: ClientAddr, a: Ipv4, now: u64) -> ServerView {
    if has_addr(s.leases, a) {
        let j = addr_index(s.leases, a);
        let h = s.leases[j];
        if h.client == c {
            s.without_lease(j)
        } else {
            s.without_lease(j).logged(h.client, a, h.hw, LeaseEvent::Withdrawn, now)
        }
    } else {
        s
    }
}

/// Request of `a` by `c`: declined if `a` is bound to another client or not
/// managed; acknowledged without change if `c` holds it bound already;
/// otherwise any offer of `a` and any other lease of `c` are withdrawn and
/// `a` is bound to `c`.
pub open spec fn request_step(s: ServerView, c: ClientAddr, a: Ipv4, hw: Seq<u8>, now: u64) -> (ServerView, Option<ReplyView>) {
    let held = has_addr(s.leases, a);
    let h = s.leases[addr_index(s.leases, a)];
    if held && h.client != c && h.status == LeaseStatus::Bound {
        (s, Some(ReplyView::Decline(DeclineReason::AddressInUse)))
    } else if !s.managed().contains(a) {
        (s, Some(ReplyView::Decline(DeclineReason::UnknownAddress)))
    } else if held && h.client == c && h.status == LeaseStatus::Bound {
        (s, Some(ReplyView::Ack { addr: a, hw }))
    } else {
        let s1 = request_clear_holder(s, c, a, now);
        let s2 = if has_client(s1.leases, c) {
            s1.dropped(client_index(s1.leases, c), LeaseEvent::Withdrawn, now)
        } else {
            s1
        };
        (
            s2.confirmed(a).with_lease(LeaseView { client: c, addr: a, hw, status: LeaseStatus::Bound, since: now })
                .logged(c, a, hw, LeaseEvent::Bound, now),
            Some(ReplyView::Ack { addr: a, hw }),
        )
    }
}

/// Release by `c`, or eviction of `c` (`ev` tells which): its lease, if
/// any, is deleted and the address returned to the pool.
pub open spec fn release_step(s: ServerView, c: ClientAddr, ev: LeaseEvent, now: u64) -> ServerView {
    if has_client(s.leases, c) {
        s.dropped(client_index(s.leases, c), ev, now)
    } else {
        s
    }
}

/// The effect of message `m` from `c` at time `now`, and the reply.
pub open spec fn step(s: ServerView, m: MessageView, c: ClientAddr, now: u64) -> (ServerView, Option<ReplyView>) {
    match m {
        MessageView::Discover { hw } => discover_step(s, c, hw, now),
        MessageView::Request { addr, hw } => request_step(s, c, addr, hw, now),
        MessageView::Release => (release_step(s, c, LeaseEvent::Released, now), None),
    }
}

/// The effect of evicting `c` at time `now`, and the notification for it.
pub open spec fn evict_step(s: ServerView, c: ClientAddr, now: u64) -> (ServerView, Option<ReplyView>) {
    if has_client(s.leases, c) {
        (
            release_step(s, c, LeaseEvent::Evicted, now),
            Some(ReplyView::ReleasedByAdmin(s.leases[client_index(s.leases, c)].addr)),
        )
    } else {
        (s, None)
    }
}

/// Removing a lease keeps the table distinct and forgets exactly its client
/// and its address.
pub proof fn lemma_remove_lease(ls: Seq<LeaseView>, i: int)
    requires
        distinct_leases(ls),
        0 <= i < ls.len(),
    ensures
        distinct_leases(ls.remove(i)),
        forall|a: Ipv4| #[trigger] has_addr(ls.remove(i), a) <==> (has_addr(ls, a) && a != ls[i].addr),
        forall|c: ClientAddr| #[trigger] has_client(ls.remove(i), c) <==> (has_client(ls, c) && c != ls[i].client),
{
    let r = ls.remove(i);
    ls.remove_ensures(i);
    assert forall|a: Ipv4| #[trigger] has_addr(r, a) <==> (has_addr(ls, a) && a != ls[i].addr) by {
        if has_addr(r, a) {
            let k = choose|k: int| 0 <= k < r.len() && #[trigger] r[k].addr == a;
            if k < i {
                assert(ls[k].addr == a);
            } else {
                assert(ls[k + 1].addr == a);
            }
        }
        if has_addr(ls, a) && a != ls[i].addr {
            let k = choose|k: int| 0 <= k < ls.len() && #[trigger] ls[k].addr == a;
            if k < i {
                assert(r[k].addr == a);
            } else {
                assert(r[k - 1].addr == a);
            }
        }
    }
    assert forall|c: ClientAddr| #[trigger] has_client(r, c) <==> (has_client(ls, c) && c != ls[i].client) by {
        if has_client(r, c) {
            let k = choose|k: int| 0 <= k < r.len() && #[trigger] r[k].client == c;
            if k < i {
                assert(ls[k].client == c);
            } else {
                assert(ls[k + 1].client == c);
            }
        }
        if has_client(ls, c) && c != ls[i].client {
            let k = choose|k: int| 0 <= k < ls.len() && #[trigger] ls[k].client == c;
            if k < i {
                assert(r[k].client == c);
            } else {
                assert(r[k - 1].client == c);
            }
        }
    }
    assert forall|j: int, k: int| 0 <= j < r.len() && 0 <= k < r.len() && j != k implies #[trigger] r[j].client != #[trigger] r[k].client by {
        let jj = if j < i { j } else { j + 1 };
        let kk = if k < i { k } else { k + 1 };
        assert(r[j] == ls[jj] && r[k] == ls[kk]);
        assert(ls[jj].client != ls[kk].client);
    }
    assert forall|j: int, k: int| 0 <= j < r.len() && 0 <= k < r.len() && j != k implies #[trigger] r[j].addr != #[trigger] r[k].addr by {
        let jj = if j < i { j } else { j + 1 };
        let kk = if k < i { k } else { k + 1 };
        assert(r[j] == ls[jj] && r[k] == ls[kk]);
        assert(ls[jj].addr != ls[kk].addr);
    }
}

/// Appending a lease for a new client on a new address keeps the table
/// distinct.
pub proof fn lemma_push_lease(ls: Seq<LeaseView>, l: LeaseView)
    requires
        distinct_leases(ls),
        !has_addr(ls, l.addr),
        !has_client(ls, l.client),
    ensures
        distinct_leases(ls.push(l)),
        forall|a: Ipv4| #[trigger] has_addr(ls.push(l), a) <==> (has_addr(ls, a) || a == l.addr),
        forall|c: ClientAddr| #[trigger] has_client(ls.push(l), c) <==> (has_client(ls, c) || c == l.client),
{
    let r = ls.push(l);
    assert forall|a: Ipv4| #[trigger] has_addr(r, a) <==> (has_addr(ls, a) || a == l.addr) by {
        if has_addr(r, a) {
            let k = choose|k: int| 0 <= k < r.len() && #[trigger] r[k].addr == a;
            if k < ls.len() {
                assert(ls[k].addr == a);
            }
        }
        if has_addr(ls, a) {
            let k = choose|k: int| 0 <= k < ls.len() && #[trigger] ls[k].addr == a;
            assert(r[k].addr == a);
        }
        if a == l.addr {
            assert(r[ls.len() as int].addr == a);
        }
    }
    assert forall|c: ClientAddr| #[trigger] has_client(r, c) <==> (has_client(ls, c) || c == l.client) by {
        if has_client(r, c) {
            let k = choose|k: int| 0 <= k < r.len() && #[trigger] r[k].client == c;
            if k < ls.len() {
                assert(ls[k].client == c);
            }
        }
        if has_client(ls, c) {
            let k = choose|k: int| 0 <= k < ls.len() && #[trigger] ls[k].client == c;
            assert(r[k].client == c);
        }
        if c == l.client {
            assert(r[ls.len() as int].client == c);
        }
    }
    assert forall|j: int, k: int| 0 <= j < r.len() && 0 <= k < r.len() && j != k implies #[trigger] r[j].client != #[trigger] r[k].client by {
        if j < ls.len() && k < ls.len() {
            assert(r[j] == ls[j] && r[k] == ls[k]);
            assert(ls[j].client != ls[k].client);
        } else if j < ls.len() {
            assert(r[j] == ls[j]);
            assert(ls[j].client == r[j].client);
        } else {
            assert(r[k] == ls[k]);
            assert(ls[k].client == r[k].client);
        }
    }
    assert forall|j: int, k: int| 0 <= j < r.len() && 0 <= k < r.len() && j != k implies #[trigger] r[j].addr != #[trigger] r[k].addr by {
        if j < ls.len() && k < ls.len() {
            assert(r[j] == ls[j] && r[k] == ls[k]);
            assert(ls[j].addr != ls[k].addr);
        } else if j < ls.len() {
            assert(r[j] == ls[j]);
            assert(ls[j].addr == r[j].addr);
        } else {
            assert(r[k] == ls[k]);
            assert(ls[k].addr == r[k].addr);
        }
    }
}

/// In a distinct table, the chosen index of a client or address is the one
/// where it stands.
pub proof fn lemma_index_unique(ls: Seq<LeaseView>, i: int)
    requires
        distinct_leases(ls),
        0 <= i < ls.len(),
    ensures
        has_client(ls, ls[i].client),
        has_addr(ls, ls[i].addr),
        client_index(ls, ls[i].client) == i,
        addr_index(ls, ls[i].addr) == i,
{
    assert(ls[i].client == ls[i].client);
    assert(ls[i].addr == ls[i].addr);
    let j = addr_index(ls, ls[i].addr);
    assert(ls[j].addr == ls[i].addr);
    let k = client_index(ls, ls[i].client);
    assert(ls[k].client == ls[i].client);
}

/// Returning a leased address to the pool keeps it a partition of the same
/// set, with that address now available.
pub proof fn lemma_released(s: ServerView, a: Ipv4)
    requires
        partition_wf(s.available, s.leased),
        s.leased.contains(a),
    ensures
        partition_wf(s.released(a).available, s.released(a).leased),
        s.released(a).managed() == s.managed(),
        forall|x: Ipv4| #[trigger] s.released(a).leased.contains(x) <==> (s.leased.contains(x) && x != a),
{
    let k = s.leased.index_of(a);
    lemma_move(s.leased, s.available, k);
    lemma_remove_at(s.leased, k);
}

/// Moving an address into leased keeps the pool a partition of the same set.
pub proof fn lemma_confirmed(s: ServerView, a: Ipv4)
    requires
        partition_wf(s.available, s.leased),
        s.managed().contains(a),
    ensures
        partition_wf(s.confirmed(a).available, s.confirmed(a).leased),
        s.confirmed(a).managed() == s.managed(),
        forall|x: Ipv4| #[trigger] s.confirmed(a).leased.contains(x) <==> (s.leased.contains(x) || x == a),
{
    if s.available.contains(a) {
        let k = s.available.index_of(a);
        lemma_move(s.available, s.leased, k);
        crate::pool::lemma_push_new(s.leased, a);
    }
}

/// Deleting a lease and returning its address keeps the state well formed.
pub proof fn lemma_dropped(s: ServerView, i: int, ev: LeaseEvent, now: u64)
    requires
        s.wf(),
        0 <= i < s.leases.len(),
    ensures
        s.dropped(i, ev, now).wf(),
        s.dropped(i, ev, now).managed() == s.managed(),
        s.dropped(i, ev, now).leases == s.leases.remove(i),
{
    let l = s.leases[i];
    lemma_index_unique(s.leases, i);
    let s1 = s.without_lease(i);
    lemma_remove_lease(s.leases, i);
    lemma_released(s1, l.addr);
    let s2 = s1.released(l.addr);
    assert forall|a: Ipv4| #[trigger] s2.leased.contains(a) <==> has_addr(s2.leases, a) by {
        assert(s.leased.contains(a) <==> has_addr(s.leases, a));
    }
}

/// Deleting a lease on another address than `a` keeps a state open at `a`.
pub proof fn lemma_dropped_open(s: ServerView, i: int, a: Ipv4, ev: LeaseEvent, now: u64)
    requires
        s.wf_open(a),
        0 <= i < s.leases.len(),
    ensures
        s.dropped(i, ev, now).wf_open(a),
        s.dropped(i, ev, now).managed() == s.managed(),
        s.dropped(i, ev, now).leases == s.leases.remove(i),
{
    let l = s.leases[i];
    lemma_index_unique(s.leases, i);
    assert(l.addr != a);
    let s1 = s.without_lease(i);
    lemma_remove_lease(s.leases, i);
    lemma_released(s1, l.addr);
    let s2 = s1.released(l.addr);
    assert forall|x: Ipv4| x != a implies (#[trigger] s2.leased.contains(x) <==> has_addr(s2.leases, x)) by {
        assert(s.leased.contains(x) <==> has_addr(s.leases, x));
    }
}

/// Binding `a`, which no lease holds, to a client without a lease makes an
/// open state well formed again.
pub proof fn lemma_bind(s: ServerView, l: LeaseView)
    requires
        s.wf_open(l.addr),
        !has_client(s.leases, l.client),
    ensures
        s.confirmed(l.addr).with_lease(l).wf(),
        s.confirmed(l.addr).with_lease(l).managed() == s.managed(),
{
    let a = l.addr;
    lemma_confirmed(s, a);
    lemma_push_lease(s.leases, l);
    let s2 = s.confirmed(a).with_lease(l);
    assert forall|x: Ipv4| #[trigger] s2.leased.contains(x) <==> has_addr(s2.leases, x) by {
        if x != a {
            assert(s.leased.contains(x) <==> has_addr(s.leases, x));
        }
    }
}

/// Taking the last available address is confirming it.
pub proof fn lemma_take_last(s: ServerView)
    requires
        partition_wf(s.available, s.leased),
        s.available.len() > 0,
    ensures
        s.confirmed(s.available.last()) == (ServerView {
            available: s.available.drop_last(),
            leased: s.leased.push(s.available.last()),
            ..s
        }),
{
    let k = s.available.len() - 1;
    crate::pool::lemma_index_of_unique(s.available, k);
    assert(s.available.contains(s.available.last()));
    assert(s.available.drop_last() =~= s.available.remove(k));
}

/// A well-formed state without a lease on a managed address `a` is open at
/// `a`.
pub proof fn lemma_open(s: ServerView, a: Ipv4)
    requires
        s.wf(),
        !has_addr(s.leases, a),
        s.managed().contains(a),
    ensures
        s.wf_open(a),
{
}

/// Every transition keeps the state well formed and the managed set as it
/// was.
pub proof fn lemma_step_wf(s: ServerView, m: MessageView, c: ClientAddr, now: u64)
    requires
        s.wf(),
    ensures
        step(s, m, c, now).0.wf(),
        step(s, m, c, now).0.managed() == s.managed(),
{
    match m {
        MessageView::Discover { hw } => lemma_discover_wf(s, c, hw, now),
        MessageView::Request { addr, hw } => lemma_request_wf(s, c, addr, hw, now),
        MessageView::Release => lemma_release_wf(s, c, LeaseEvent::Released, now),
    }
}

/// Release and eviction keep the state well formed.
pub proof fn lemma_release_wf(s: ServerView, c: ClientAddr, ev: LeaseEvent, now: u64)
    requires
        s.wf(),
    ensures
        release_step(s, c, ev, now).wf(),
        release_step(s, c, ev, now).managed() == s.managed(),
{
    if has_client(s.leases, c) {
        lemma_dropped(s, client_index(s.leases, c), ev, now);
    }
}

/// Discovery keeps the state well formed.
pub proof fn lemma_discover_wf(s: ServerView, c: ClientAddr, hw: Seq<u8>, now: u64)
    requires
        s.wf(),
    ensures
        discover_step(s, c, hw, now).0.wf(),
        discover_step(s, c, hw, now).0.managed() == s.managed(),
{
    let held = has_client(s.leases, c);
    let i = client_index(s.leases, c);
    if held && s.leases[i].status == LeaseStatus::Bound {
    } else {
        let s1 = if held { s.dropped(i, LeaseEvent::Withdrawn, now) } else { s };
        if held {
            lemma_dropped(s, i, LeaseEvent::Withdrawn, now);
            lemma_remove_lease(s.leases, i);
        }
        assert(!has_client(s1.leases, c));
        if s1.available.len() > 0 {
            let a = s1.available.last();
            assert(s1.available.contains(a));
            assert(!s1.leased.contains(a));
            lemma_open(s1, a);
            lemma_take_last(s1);
            let l = LeaseView { client: c, addr: a, hw, status: LeaseStatus::Offered, since: now };
            lemma_bind(s1, l);
        }
    }
}

/// A request keeps the state well formed.
pub proof fn lemma_request_wf(s: ServerView, c: ClientAddr, a: Ipv4, hw: Seq<u8>, now: u64)
    requires
        s.wf(),
    ensures
        request_step(s, c, a, hw, now).0.wf(),
        request_step(s, c, a, hw, now).0.managed() == s.managed(),
{
    let held = has_addr(s.leases, a);
    let j = addr_index(s.leases, a);
    let h = s.leases[j];
    if held && h.client != c && h.status == LeaseStatus::Bound {
    } else if !s.managed().contains(a) {
    } else if held && h.client == c && h.status == LeaseStatus::Bound {
    } else {
        let s1 = request_clear_holder(s, c, a, now);
        lemma_clear_holder(s, c, a, now);
        let s2 = if has_client(s1.leases, c) {
            s1.dropped(client_index(s1.leases, c), LeaseEvent::Withdrawn, now)
        } else {
            s1
        };
        if has_client(s1.leases, c) {
            let i = client_index(s1.leases, c);
            lemma_dropped_open(s1, i, a, LeaseEvent::Withdrawn, now);
            lemma_remove_lease(s1.leases, i);
        }
        assert(!has_client(s2.leases, c));
        let l = LeaseView { client: c, addr: a, hw, status: LeaseStatus::Bound, since: now };
        lemma_bind(s2, l);
    }
}

/// Once the unconfirmed holder of a managed address `a` has lost its lease,
/// the state is open at `a`.
pub proof fn lemma_clear_holder(s: ServerView, c: ClientAddr, a: Ipv4, now: u64)
    requires
        s.wf(),
        s.managed().contains(a),
    ensures
        request_clear_holder(s, c, a, now).wf_open(a),
        request_clear_holder(s, c, a, now).managed() == s.managed(),
{
    let s1 = request_clear_holder(s, c, a, now);
    if has_addr(s.leases, a) {
        let j = addr_index(s.leases, a);
        lemma_remove_lease(s.leases, j);
        assert(s1.leases == s.leases.remove(j));
        assert forall|x: Ipv4| x != a implies (#[trigger] s1.leased.contains(x) <==> has_addr(s1.leases, x)) by {
            assert(s.leased.contains(x) <==> has_addr(s.leases, x));
        }
    }
}

/// Eviction keeps the state well formed.
pub proof fn lemma_evict_wf(s: ServerView, c: ClientAddr, now: u64)
    requires
        s.wf(),
    ensures
        evict_step(s, c, now).0.wf(),
        evict_step(s, c, now).0.managed() == s.managed(),
{
    lemma_release_wf(s, c, LeaseEvent::Evicted, now);
}

/// The text of an optional reply.
pub open spec fn text_of_reply(r: Option<ReplyView>) -> Option<Seq<u8>> {
    match r {
        Some(x) => Some(reply_bytes(x)),
        None => None,
    }
}

pub open spec fn bytes_view(b: Option<Vec<u8>>) -> Option<Seq<u8>> {
    match b {
        Some(v) => Some(v@),
        None => None,
    }
}

/// The lease manager: the pool, one lease per client, and the history of
/// lease transitions. Clients are keyed by their transport source address.
pub struct DHCPState {
    pool: IpPool,
    leases: Vec<Lease>,
    history: Vec<HistoryEntry>,
}

pub open spec fn lease_views(ls: Seq<Lease>) -> Seq<LeaseView> {
    ls.map_values(|l: Lease| l@)
}

pub open spec fn history_views(hs: Seq<HistoryEntry>) -> Seq<HistoryView> {
    hs.map_values(|h: HistoryEntry| h@)
}

impl View for DHCPState {
    type V = ServerView;

    closed spec fn view(&self) -> ServerView {
        ServerView {
            available: self.pool.available(),
            leased: self.pool.leased(),
            leases: lease_views(self.leases@),
            history: history_views(self.history@),
        }
    }
}

impl DHCPState {
    /// Well formed; `new` establishes it and every method keeps it.
    pub open spec fn wf(&self) -> bool {
        self@.wf()
    }

    /// A manager of the given addresses, all available, with no lease and
    /// no history.
    pub fn new(ip_pool: Vec<Ipv4>) -> (st: Self)
        requires
            ip_pool@.no_duplicates(),
        ensures
            st.wf(),
            st@.available == ip_pool@,
            st@.leased == Seq::<Ipv4>::empty(),
            st@.leases == Seq::<LeaseView>::empty(),
            st@.history == Seq::<HistoryView>::empty(),
    {
        let st = DHCPState { pool: IpPool::from_addresses(ip_pool), leases: Vec::new(), history: Vec::new() };
        assert(lease_views(st.leases@) =~= Seq::<LeaseView>::empty());
        assert(history_views(st.history@) =~= Seq::<HistoryView>::empty());
        st
    }

    /// The index of the lease of `c`, if it has one.
    fn find_client(&self, c: ClientAddr) -> (r: Option<usize>)
        requires
            distinct_leases(self@.leases),
        ensures
            match r {
                Some(i) => has_client(self@.leases, c) && i == client_index(self@.leases, c) && i < self@.leases.len(),
                None => !has_client(self@.leases, c),
            },
    {
        let mut i: usize = 0;
        while i < self.leases.len()
            invariant
                i <= self.leases@.len(),
                self@.leases == lease_views(self.leases@),
                distinct_leases(self@.leases),
                forall|k: int| 0 <= k < i ==> #[trigger] self@.leases[k].client != c,
            decreases self.leases@.len() - i,
        {
            if self.leases[i].client == c {
                proof {
                    lemma_index_unique(self@.leases, i as int);
                }
                return Some(i);
            }
            i = i + 1;
        }
        None
    }

    /// The index of the lease on `a`, if there is one.
    fn find_addr(&self, a: Ipv4) -> (r: Option<usize>)
        requires
            distinct_leases(self@.leases),
        ensures
            match r {
                Some(i) => has_addr(self@.leases, a) && i == addr_index(self@.leases, a) && i < self@.leases.len(),
                None => !has_addr(self@.leases, a),
            },
    {
        let mut i: usize = 0;
        while i < self.leases.len()
            invariant
                i <= self.leases@.len(),
                self@.leases == lease_views(self.leases@),
                distinct_leases(self@.leases),
                forall|k: int| 0 <= k < i ==> #[trigger] self@.leases[k].addr != a,
            decreases self.leases@.len() - i,
        {
            if self.leases[i].addr == a {
                proof {
                    lemma_index_unique(self@.leases, i as int);
                }
                return Some(i);
            }
            i = i + 1;
        }
        None
    }

    /// Appends a history entry.
    fn log(&mut self, c: ClientAddr, a: Ipv4, hw: Vec<u8>, ev: LeaseEvent, now: u64)
        ensures
            final(self)@ == old(self)@.logged(c, a, hw@, ev, now),
    {
        self.history.push(HistoryEntry { client: c, addr: a, hw, event: ev, at: now });
        assert(history_views(self.history@) =~= old(self)@.history.push(
            HistoryView { client: c, addr: a, hw: hw@, event: ev, at: now },
        ));
    }

    /// Removes the lease at `i` from the table, and hands it back.
    fn take_lease(&mut self, i: usize) -> (l: Lease)
        requires
            i < old(self)@.leases.len(),
        ensures
            l@ == old(self)@.leases[i as int],
            final(self)@ == old(self)@.without_lease(i as int),
    {
        let l = self.leases.remove(i);
        assert(lease_views(self.leases@) =~= old(self)@.leases.remove(i as int));
        l
    }

    /// Appends a lease to the table.
    fn put_lease(&mut self, l: Lease)
        ensures
            final(self)@ == old(self)@.with_lease(l@),
    {
        self.leases.push(l);
        assert(lease_views(self.leases@) =~= old(self)@.leases.push(l@));
    }

    /// Deletes the lease at `i`, returns its address to the pool and records
    /// the transition; hands back the address.
    fn drop_lease(&mut self, i: usize, ev: LeaseEvent, now: u64) -> (a: Ipv4)
        requires
            partition_wf(old(self)@.available, old(self)@.leased),
            i < old(self)@.leases.len(),
        ensures
            a == old(self)@.leases[i as int].addr,
            final(self)@ == old(self)@.dropped(i as int, ev, now),
    {
        let l = self.take_lease(i);
        self.pool.release_ip(l.addr);
        let a = l.addr;
        self.log(l.client, a, l.hw, ev, now);
        a
    }

    /// Handles a discovery from `c`.
    fn discover(&mut self, c: ClientAddr, hw: Vec<u8>, now: u64) -> (r: Reply)
        requires
            old(self).wf(),
        ensures
            (final(self)@, Some(r@)) == discover_step(old(self)@, c, hw@, now),
    {
        proof {
            lemma_discover_wf(old(self)@, c, hw@, now);
        }
        match self.find_client(c) {
            Some(i) => {
                if self.leases[i].status == LeaseStatus::Bound {
                    return Reply::Offer { addr: self.leases[i].addr, hw };
                }
                proof {
                    lemma_dropped(self@, i as int, LeaseEvent::Withdrawn, now);
                }
                self.drop_lease(i, LeaseEvent::Withdrawn, now);
            },
            None => {},
        }
        match self.pool.lease_ip() {
            Some(a) => {
                self.put_lease(Lease { client: c, addr: a, hw: copy_bytes(&hw), status: LeaseStatus::Offered, since: now });
                self.log(c, a, copy_bytes(&hw), LeaseEvent::Offered, now);
                Reply::Offer { addr: a, hw }
            },
            None => Reply::NoAddressAvailable,
        }
    }

    /// Handles a request of `a` from `c`.
    fn request(&mut self, c: ClientAddr, a: Ipv4, hw: Vec<u8>, now: u64) -> (r: Reply)
        requires
            old(self).wf(),
        ensures
            (final(self)@, Some(r@)) == request_step(old(self)@, c, a, hw@, now),
    {
        proof {
            lemma_request_wf(old(self)@, c, a, hw@, now);
        }
        let held = self.find_addr(a);
        if let Some(j) = held {
            if self.leases[j].client != c && self.leases[j].status == LeaseStatus::Bound {
                return Reply::Decline(DeclineReason::AddressInUse);
            }
        }
        if !self.pool.manages(a) {
            return Reply::Decline(DeclineReason::UnknownAddress);
        }
        if let Some(j) = held {
            if self.leases[j].client == c && self.leases[j].status == LeaseStatus::Bound {
                return Reply::Ack { addr: a, hw };
            }
        }
        let ghost s0 = self@;
        if let Some(j) = held {
            proof {
                lemma_remove_lease(self@.leases, j as int);
            }
            let h = self.take_lease(j);
            if h.client != c {
                self.log(h.client, a, h.hw, LeaseEvent::Withdrawn, now);
            }
        }
        assert(self@ == request_clear_holder(s0, c, a, now));
        proof {
            lemma_clear_holder(s0, c, a, now);
        }
        if let Some(i) = self.find_client(c) {
            proof {
                lemma_dropped_open(self@, i as int, a, LeaseEvent::Withdrawn, now);
            }
            self.drop_lease(i, LeaseEvent::Withdrawn, now);
        }
        self.pool.confirm_lease(a);
        self.put_lease(Lease { client: c, addr: a, hw: copy_bytes(&hw), status: LeaseStatus::Bound, since: now });
        self.log(c, a, copy_bytes(&hw), LeaseEvent::Bound, now);
        Reply::Ack { addr: a, hw }
    }

    /// Deletes the lease of `c`, if any, returns its address to the pool and
    /// records `ev`; hands back the address.
    fn release(&mut self, c: ClientAddr, ev: LeaseEvent, now: u64) -> (r: Option<Ipv4>)
        requires
            old(self).wf(),
        ensures
            final(self)@ == release_step(old(self)@, c, ev, now),
            r == (if has_client(old(self)@.leases, c) {
                Some(old(self)@.leases[client_index(old(self)@.leases, c)].addr)
            } else {
                None
            }),
    {
        match self.find_client(c) {
            Some(i) => Some(self.drop_lease(i, ev, now)),
            None => None,
        }
    }

    /// Applies message `m` from client `c` at time `now`, and gives the reply
    /// to send to `c`, if any.
    pub fn handle(&mut self, m: Message, c: ClientAddr, now: u64) -> (r: Option<Reply>)
        requires
            old(self).wf(),
        ensures
            final(self).wf(),
            (final(self)@, reply_view(r)) == step(old(self)@, m@, c, now),
    {
        proof {
            lemma_step_wf(old(self)@, m@, c, now);
        }
        match m {
            Message::Discover { hw } => Some(self.discover(c, hw, now)),
            Message::Request { addr, hw } => Some(self.request(c, addr, hw, now)),
            Message::Release => {
                self.release(c, LeaseEvent::Released, now);
                None
            },
        }
    }

    /// Reads datagram `msg` from client `src` at time `now`, applies the
    /// message and gives the text of the reply to send back, if any. A
    /// datagram that holds no message changes nothing and gives its error.
    pub fn handle_message(&mut self, msg: &[u8], src: ClientAddr, now: u64) -> (r: Result<Option<Vec<u8>>, MessageError>)
        requires
            old(self).wf(),
        ensures
            final(self).wf(),
            match message_of(msg@) {
                Err(e) => r == Err::<Option<Vec<u8>>, MessageError>(e) && final(self)@ == old(self)@,
                Ok(m) => {
                    &&& r is Ok
                    &&& final(self)@ == step(old(self)@, m, src, now).0
                    &&& bytes_view(r->Ok_0) == text_of_reply(step(old(self)@, m, src, now).1)
                },
            },
    {
        match parse_message(msg) {
            Err(e) => Err(e),
            Ok(m) => {
                let reply = self.handle(m, src, now);
                match reply {
                    Some(x) => Ok(Some(x.encode())),
                    None => Ok(None),
                }
            },
        }
    }

    /// Evicts client `c` on an administrator's command: its lease, if any,
    /// is deleted and its address returned to the pool; gives the
    /// notification to send to `c`, or `None` if it held no lease.
    pub fn supprimer_client(&mut self, client: ClientAddr, now: u64) -> (r: Option<Reply>)
        requires
            old(self).wf(),
        ensures
            final(self).wf(),
            (final(self)@, reply_view(r)) == evict_step(old(self)@, client, now),
    {
        proof {
            lemma_evict_wf(old(self)@, client, now);
        }
        match self.release(client, LeaseEvent::Evicted, now) {
            Some(a) => Some(Reply::ReleasedByAdmin(a)),
            None => None,
        }
    }

    /// Evicts whichever client holds a lease on address `a`, as
    /// `supprimer_client` does; gives that client and the notification to
    /// send it, or `None` if no lease holds `a`.
    pub fn evict_address(&mut self, a: Ipv4, now: u64) -> (r: Option<(ClientAddr, Reply)>)
        requires
            old(self).wf(),
        ensures
            final(self).wf(),
            match r {
                Some((c, note)) => {
                    &&& has_addr(old(self)@.leases, a)
                    &&& c == old(self)@.leases[addr_index(old(self)@.leases, a)].client
                    &&& note@ == ReplyView::ReleasedByAdmin(a)
                    &&& final(self)@ == release_step(old(self)@, c, LeaseEvent::Evicted, now)
                },
                None => !has_addr(old(self)@.leases, a) && final(self)@ == old(self)@,
            },
    {
        match self.find_addr(a) {
            Some(j) => {
                let c = self.leases[j].client;
                proof {
                    lemma_index_unique(self@.leases, j as int);
                    lemma_release_wf(self@, c, LeaseEvent::Evicted, now);
                }
                self.drop_lease(j, LeaseEvent::Evicted, now);
                Some((c, Reply::ReleasedByAdmin(a)))
            },
            None => None,
        }
    }

    /// The current leases.
    pub fn afficher_clients(&self) -> (r: &Vec<Lease>)
        ensures
            lease_views(r@) == self@.leases,
    {
        &self.leases
    }

    /// Every recorded transition, oldest first.
    pub fn afficher_historique(&self) -> (r: &Vec<HistoryEntry>)
        ensures
            history_views(r@) == self@.history,
    {
        &self.history
    }

    /// The address pool.
    pub fn pool(&self) -> (r: &IpPool)
        ensures
            r.available() == self@.available,
            r.leased() == self@.leased,
    {
        &self.pool
    }
}

} // verus!
