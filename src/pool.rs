//! The pool of managed addresses, split into an available and a leased part.

use vstd::prelude::*;
use crate::addr::Ipv4;

verus! {

/// The pool: `available` addresses may be handed out, `leased` ones are
/// reserved or bound. Allocation takes the most recently returned address
/// first (last in, first out).
pub struct IpPool {
    available_ips: Vec<Ipv4>,
    leased_ips: Vec<Ipv4>,
}

/// Every address that the pool manages, whatever its state.
pub open spec fn managed_set(available: Seq<Ipv4>, leased: Seq<Ipv4>) -> Set<Ipv4> {
    available.to_set() + leased.to_set()
}

/// Neither part repeats an address and no address is in both.
pub open spec fn partition_wf(available: Seq<Ipv4>, leased: Seq<Ipv4>) -> bool {
    &&& available.no_duplicates()
    &&& leased.no_duplicates()
    &&& forall|a: Ipv4| available.contains(a) ==> !leased.contains(a)
}

/// The addresses `192.168.1.start` to `192.168.1.end`, in increasing order.
pub open spec fn subnet_range(start: u8, end: u8) -> Seq<Ipv4> {
    if start <= end {
        Seq::new((end - start + 1) as nat, |k: int| Ipv4(192, 168, 1, (start + k) as u8))
    } else {
        Seq::empty()
    }
}

/// Where `a` stands in `v`, if anywhere.
fn position_of(v: &Vec<Ipv4>, a: Ipv4) -> (r: Option<usize>)
    ensures
        match r {
            Some(i) => i < v@.len() && v@[i as int] == a,
            None => !v@.contains(a),
        },
{
    let mut i: usize = 0;
    while i < v.len()
        invariant
            i <= v@.len(),
            forall|k: int| 0 <= k < i ==> v@[k] != a,
        decreases v@.len() - i,
    {
        if v[i] == a {
            return Some(i);
        }
        i = i + 1;
    }
    None
}

/// In a sequence without duplicates, the index of an element is the one
/// where it stands.
pub proof fn lemma_index_of_unique(s: Seq<Ipv4>, i: int)
    requires
        s.no_duplicates(),
        0 <= i < s.len(),
    ensures
        s.index_of(s[i]) == i,
{
    assert(s.contains(s[i]));
}

impl IpPool {
    /// The available part, the next address to hand out last.
    pub closed spec fn available(&self) -> Seq<Ipv4> {
        self.available_ips@
    }

    /// The leased part.
    pub closed spec fn leased(&self) -> Seq<Ipv4> {
        self.leased_ips@
    }

    /// Every address of the pool.
    pub open spec fn managed(&self) -> Set<Ipv4> {
        managed_set(self.available(), self.leased())
    }

    /// Neither part repeats an address and no address is in both; every
    /// constructor establishes it and every method keeps it.
    pub open spec fn wf(&self) -> bool {
        partition_wf(self.available(), self.leased())
    }

    /// A pool of `192.168.1.start` to `192.168.1.end` (empty if `start > end`),
    /// all available.
    pub fn new(start: u8, end: u8) -> (pool: Self)
        ensures
            pool.wf(),
            pool.available() == subnet_range(start, end),
            pool.leased() == Seq::<Ipv4>::empty(),
    {
        let mut available_ips: Vec<Ipv4> = Vec::new();
        let mut i: u16 = start as u16;
        while i <= end as u16
            invariant
                start <= i,
                i <= end as u16 + 1 || i == start,
                available_ips@.len() == i - start,
                forall|k: int|
                    0 <= k < available_ips@.len() ==> #[trigger] available_ips@[k] == Ipv4(
                        192,
                        168,
                        1,
                        (start + k) as u8,
                    ),
            decreases end as u16 + 1 - i,
        {
            available_ips.push(Ipv4(192, 168, 1, i as u8));
            i = i + 1;
        }
        let pool = IpPool { available_ips, leased_ips: Vec::new() };
        assert(pool.available() =~= subnet_range(start, end));
        pool
    }

    /// A pool of the given addresses, all available.
    pub fn from_addresses(ips: Vec<Ipv4>) -> (pool: Self)
        requires
            ips@.no_duplicates(),
        ensures
            pool.wf(),
            pool.available() == ips@,
            pool.leased() == Seq::<Ipv4>::empty(),
    {
        IpPool { available_ips: ips, leased_ips: Vec::new() }
    }

    /// Whether the pool manages `ip`, available or leased.
    pub fn manages(&self, ip: Ipv4) -> (r: bool)
        ensures
            r == self.managed().contains(ip),
    {
        position_of(&self.available_ips, ip).is_some() || position_of(&self.leased_ips, ip).is_some()
    }

    /// The addresses that may be handed out, the next one last.
    pub fn available_addresses(&self) -> (r: &Vec<Ipv4>)
        ensures
            r@ == self.available(),
    {
        &self.available_ips
    }

    /// The addresses that are reserved or bound.
    pub fn leased_addresses(&self) -> (r: &Vec<Ipv4>)
        ensures
            r@ == self.leased(),
    {
        &self.leased_ips
    }

    /// Takes the last available address and marks it leased; `None` when
    /// nothing is available.
    pub fn lease_ip(&mut self) -> (r: Option<Ipv4>)
        requires
            old(self).wf(),
        ensures
            final(self).wf(),
            final(self).managed() == old(self).managed(),
            old(self).available().len() == 0 ==> {
                &&& r is None
                &&& final(self).available() == old(self).available()
                &&& final(self).leased() == old(self).leased()
            },
            old(self).available().len() > 0 ==> {
                &&& r == Some(old(self).available().last())
                &&& final(self).available() == old(self).available().drop_last()
                &&& final(self).leased() == old(self).leased().push(old(self).available().last())
            },
    {
        let ghost av = self.available();
        let ghost ls = self.leased();
        match self.available_ips.pop() {
            Some(ip) => {
                self.leased_ips.push(ip);
                proof {
                    assert(av.drop_last() =~= av.remove(av.len() - 1));
                    lemma_move(av, ls, av.len() - 1);
                }
                Some(ip)
            },
            None => None,
        }
    }

    /// Confirms a lease of `ip`: true without change if it is leased already;
    /// moves it from available to leased if it is available; false if the
    /// pool does not manage it.
    pub fn confirm_lease(&mut self, ip: Ipv4) -> (r: bool)
        requires
            old(self).wf(),
        ensures
            final(self).wf(),
            final(self).managed() == old(self).managed(),
            r == old(self).managed().contains(ip),
            final(self).leased().contains(ip) == r,
            !old(self).available().contains(ip) ==> {
                &&& final(self).available() == old(self).available()
                &&& final(self).leased() == old(self).leased()
            },
            old(self).available().contains(ip) ==> {
                &&& final(self).available() == old(self).available().remove(
                    old(self).available().index_of(ip),
                )
                &&& final(self).leased() == old(self).leased().push(ip)
            },
    {
        if position_of(&self.leased_ips, ip).is_some() {
            true
        } else {
            match position_of(&self.available_ips, ip) {
                Some(pos) => {
                    let ghost av = self.available();
                    let ghost ls = self.leased();
                    proof {
                        lemma_index_of_unique(av, pos as int);
                        lemma_move(av, ls, pos as int);
                    }
                    self.available_ips.remove(pos);
                    self.leased_ips.push(ip);
                    assert(self.leased()[self.leased().len() - 1] == ip);
                    true
                },
                None => false,
            }
        }
    }

    /// Returns `ip` from leased to available; nothing happens if it is not
    /// leased.
    pub fn release_ip(&mut self, ip: Ipv4)
        requires
            old(self).wf(),
        ensures
            final(self).wf(),
            final(self).managed() == old(self).managed(),
            !old(self).leased().contains(ip) ==> {
                &&& final(self).available() == old(self).available()
                &&& final(self).leased() == old(self).leased()
            },
            old(self).leased().contains(ip) ==> {
                &&& final(self).leased() == old(self).leased().remove(
                    old(self).leased().index_of(ip),
                )
                &&& final(self).available() == old(self).available().push(ip)
            },
    {
        if let Some(pos) = position_of(&self.leased_ips, ip) {
            let ghost av = self.available();
            let ghost ls = self.leased();
            proof {
                lemma_index_of_unique(ls, pos as int);
                lemma_move(ls, av, pos as int);
            }
            self.leased_ips.remove(pos);
            self.available_ips.push(ip);
        }
    }
}

/// Removing the element at `i` from a sequence without duplicates leaves
/// exactly the other elements, still without duplicates.
pub proof fn lemma_remove_at<A>(s: Seq<A>, i: int)
    requires
        s.no_duplicates(),
        0 <= i < s.len(),
    ensures
        s.remove(i).no_duplicates(),
        forall|a: A| #[trigger] s.remove(i).contains(a) <==> (s.contains(a) && a != s[i]),
{
    let r = s.remove(i);
    assert forall|a: A| #[trigger] r.contains(a) implies s.contains(a) && a != s[i] by {
        let k = choose|k: int| 0 <= k < r.len() && r[k] == a;
        if k < i {
            assert(s[k] == a);
        } else {
            assert(s[k + 1] == a);
        }
    }
    assert forall|a: A| s.contains(a) && a != s[i] implies #[trigger] r.contains(a) by {
        let k = choose|k: int| 0 <= k < s.len() && s[k] == a;
        if k < i {
            assert(r[k] == a);
        } else {
            assert(r[k - 1] == a);
        }
    }
    assert forall|j: int, k: int| 0 <= j < r.len() && 0 <= k < r.len() && j != k implies r[j] != r[k] by {
        let jj = if j < i { j } else { j + 1 };
        let kk = if k < i { k } else { k + 1 };
        assert(r[j] == s[jj] && r[k] == s[kk]);
    }
}

/// Pushing an element that is not there keeps a sequence free of duplicates.
pub proof fn lemma_push_new<A>(s: Seq<A>, x: A)
    requires
        s.no_duplicates(),
        !s.contains(x),
    ensures
        s.push(x).no_duplicates(),
        forall|a: A| #[trigger] s.push(x).contains(a) <==> (s.contains(a) || a == x),
{
    let r = s.push(x);
    assert forall|a: A| #[trigger] r.contains(a) implies s.contains(a) || a == x by {
        let k = choose|k: int| 0 <= k < r.len() && r[k] == a;
        if k < s.len() {
            assert(s[k] == a);
        }
    }
    assert forall|a: A| s.contains(a) || a == x implies #[trigger] r.contains(a) by {
        if a == x {
            assert(r[s.len() as int] == a);
        } else {
            let k = choose|k: int| 0 <= k < s.len() && s[k] == a;
            assert(r[k] == a);
        }
    }
    assert forall|j: int, k: int| 0 <= j < r.len() && 0 <= k < r.len() && j != k implies r[j] != r[k] by {
        if j < s.len() && k < s.len() {
        } else if j < s.len() {
            assert(s.contains(r[j]));
        } else {
            assert(s.contains(r[k]));
        }
    }
}

/// Moving the element at `i` of `from` to the end of `to` keeps the two a
/// partition of the same set of addresses.
pub proof fn lemma_move(from: Seq<Ipv4>, to: Seq<Ipv4>, i: int)
    requires
        partition_wf(from, to) || partition_wf(to, from),
        0 <= i < from.len(),
    ensures
        partition_wf(from.remove(i), to.push(from[i])) || !partition_wf(from, to),
        partition_wf(to.push(from[i]), from.remove(i)) || !partition_wf(to, from),
        managed_set(from.remove(i), to.push(from[i])) == managed_set(from, to),
        managed_set(to.push(from[i]), from.remove(i)) == managed_set(to, from),
{
    let x = from[i];
    assert(from.contains(x));
    lemma_remove_at(from, i);
    lemma_push_new(to, x);
    assert(managed_set(from.remove(i), to.push(x)) =~= managed_set(from, to));
    assert(managed_set(to.push(x), from.remove(i)) =~= managed_set(to, from));
}

} // verus!
