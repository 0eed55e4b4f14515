use vstd::prelude::*;

use std::collections::HashMap;
use std::collections::VecDeque;

verus! {

broadcast use vstd::std_specs::hash::group_hash_axioms;

/// How many clients may be connected from one IP address at the same time.
pub const MAX_CLIENTS_PER_IP: usize = 5;

/// One minute in nanoseconds.
pub const NANOS_PER_MINUTE: u64 = 60000000000;

/// The connections without those at the front that came more than a minute before `now`.
pub open spec fn without_old_connections(recent: Seq<(u64, u128)>, now: u64) -> Seq<(u64, u128)>
    decreases recent.len(),
{
    if recent.len() > 0 && now - recent[0].0 > NANOS_PER_MINUTE {
        without_old_connections(recent.drop_first(), now)
    } else {
        recent
    }
}

/// How many of the connections came from `ip`.
pub open spec fn connections_from(recent: Seq<(u64, u128)>, ip: u128) -> nat
    decreases recent.len(),
{
    if recent.len() == 0 {
        0
    } else {
        connections_from(recent.drop_last(), ip) + if recent.last().1 == ip { 1nat } else { 0nat }
    }
}

/// How many clients an IP address has now.
pub open spec fn client_count(counts: Map<u128, usize>, ip: u128) -> nat {
    if counts.contains_key(ip) {
        counts[ip] as nat
    } else {
        0
    }
}

/// The connections of the last minute (when each came, in nanoseconds from some start,
/// oldest first, and from which IP address, as a number), and how many clients each IP
/// address has now.
pub struct IpTracker {
    pub recent_ips: VecDeque<(u64, u128)>,
    pub client_counts_by_ip: HashMap<u128, usize>,
}

impl IpTracker {
    /// No connections yet.
    pub fn new() -> (r: Self)
        ensures
            r.recent_ips@ == Seq::<(u64, u128)>::empty(),
            r.client_counts_by_ip@ == Map::<u128, usize>::empty(),
    {
        IpTracker { recent_ips: VecDeque::new(), client_counts_by_ip: HashMap::new() }
    }

    /// Records a connection from `ip` at time `now` and forgets the connections at the
    /// front that came more than a minute before it. Returns how many of the remembered
    /// connections came from `ip`, and whether the client may stay: not when the IP
    /// address has 5 clients already; otherwise it has one more.
    pub fn track(&mut self, ip: u128, now: u64) -> (r: (usize, bool))
        ensures
            final(self).recent_ips@ == without_old_connections(old(self).recent_ips@.push((now, ip)), now),
            r.0 == connections_from(final(self).recent_ips@, ip),
            r.1 == (client_count(old(self).client_counts_by_ip@, ip) < MAX_CLIENTS_PER_IP),
            r.1 ==> final(self).client_counts_by_ip@ == old(self).client_counts_by_ip@.insert(
                ip,
                (client_count(old(self).client_counts_by_ip@, ip) + 1) as usize,
            ),
            !r.1 ==> final(self).client_counts_by_ip@ == old(self).client_counts_by_ip@,
    {
        self.recent_ips.push_back((now, ip));
        let ghost all = old(self).recent_ips@.push((now, ip));
        loop
            invariant
                without_old_connections(self.recent_ips@, now) == without_old_connections(all, now),
                self.client_counts_by_ip@ == old(self).client_counts_by_ip@,
            ensures
                self.recent_ips@ == without_old_connections(all, now),
                self.client_counts_by_ip@ == old(self).client_counts_by_ip@,
            decreases self.recent_ips@.len(),
        {
            if self.recent_ips.len() == 0 {
                break;
            }
            let (first, _) = self.recent_ips[0];
            if first <= now && now - first > NANOS_PER_MINUTE {
                let ghost before = self.recent_ips@;
                self.recent_ips.pop_front();
                proof {
                    assert(self.recent_ips@ =~= before.drop_first());
                }
            } else {
                break;
            }
        }
        let mut n: usize = 0;
        let mut i: usize = 0;
        while i < self.recent_ips.len()
            invariant
                i <= self.recent_ips@.len(),
                n == connections_from(self.recent_ips@.take(i as int), ip),
                n <= i,
            decreases self.recent_ips@.len() - i,
        {
            proof {
                assert(self.recent_ips@.take(i + 1).drop_last() =~= self.recent_ips@.take(i as int));
            }
            let (_, recent_ip) = self.recent_ips[i];
            if recent_ip == ip {
                n = n + 1;
            }
            i = i + 1;
        }
        proof {
            assert(self.recent_ips@.take(self.recent_ips@.len() as int) =~= self.recent_ips@);
        }
        let old_count: usize = match self.client_counts_by_ip.get(&ip) {
            Some(c) => *c,
            None => 0,
        };
        if old_count >= MAX_CLIENTS_PER_IP {
            return (n, false);
        }
        self.client_counts_by_ip.insert(ip, old_count + 1);
        (n, true)
    }

    /// Forgets one client of the IP address, which has at least one.
    pub fn forget_client(&mut self, ip: u128)
        requires
            client_count(old(self).client_counts_by_ip@, ip) > 0,
        ensures
            final(self).client_counts_by_ip@ == if client_count(old(self).client_counts_by_ip@, ip) == 1 {
                old(self).client_counts_by_ip@.remove(ip)
            } else {
                old(self).client_counts_by_ip@.insert(ip, (client_count(old(self).client_counts_by_ip@, ip) - 1) as usize)
            },
            final(self).recent_ips@ == old(self).recent_ips@,
    {
        let n: usize = match self.client_counts_by_ip.get(&ip) {
            Some(c) => *c,
            None => 0,
        };
        if n == 1 {
            self.client_counts_by_ip.remove(&ip);
        } else {
            self.client_counts_by_ip.insert(ip, n - 1);
        }
    }
}

} // verus!
