//! Cluster-side bookkeeping: monitored services and their restart
//! budget, the round-robin load balancer, the zero-trust service
//! registry, intrusion traffic logs, and load prediction. Launching,
//! probing or killing processes stays outside the library.

use vstd::prelude::*;

use crate::kvmap::lemma_views_insert;
use crate::kvmap::views_of;
use crate::kvmap::StrMap;
use crate::strutil::str_eq;
use crate::strutil::vec_contains_str;

verus! {

use vstd::string::StrSliceExecFns;
use vstd::string::StringExecFns;

/// How often a failed service may be restarted.
pub const MAX_RESTART_ATTEMPTS: u8 = 3;

/// One monitored service: how to start it and how often a restart has
/// been tried.
pub struct ServiceState {
    pub command: String,
    pub restart_attempts: u8,
}

/// What a monitored service says, with the command as characters.
pub struct ServiceView {
    pub command: Seq<char>,
    pub restart_attempts: u8,
}

impl View for ServiceState {
    type V = ServiceView;

    open spec fn view(&self) -> ServiceView {
        ServiceView { command: self.command@, restart_attempts: self.restart_attempts }
    }
}

/// The services watched for recovery.
pub struct SelfHealingSystem {
    services: StrMap<ServiceState>,
}

impl SelfHealingSystem {
    /// The monitored services as a map from name to state.
    pub closed spec fn table(&self) -> Map<Seq<char>, ServiceView> {
        views_of(self.services@)
    }

    /// Nothing monitored yet.
    pub fn new() -> (r: SelfHealingSystem)
        ensures
            r.table() == Map::<Seq<char>, ServiceView>::empty(),
    {
        let r = SelfHealingSystem { services: StrMap::new() };
        proof {
            assert(r.table() =~= Map::<Seq<char>, ServiceView>::empty());
        }
        r
    }

    /// Starts monitoring a service, with a fresh restart budget.
    pub fn register_service(&mut self, name: &str, command: &str)
        ensures
            final(self).table() == old(self).table().insert(
                name@,
                ServiceView { command: command@, restart_attempts: 0 },
            ),
    {
        let ghost before = self.services@;
        self.services.insert(
            name,
            ServiceState { command: command.to_owned(), restart_attempts: 0 },
        );
        proof {
            lemma_views_insert(before, name@, self.services@[name@]);
        }
    }

    /// Whether the named service may still be restarted, and the
    /// command to do it with.
    pub fn restart_plan(&self, name: &str) -> (r: Option<String>)
        ensures
            match r {
                Some(cmd) => self.table().contains_key(name@)
                    && self.table()[name@].restart_attempts < MAX_RESTART_ATTEMPTS && cmd@
                    == self.table()[name@].command,
                None => !self.table().contains_key(name@)
                    || self.table()[name@].restart_attempts >= MAX_RESTART_ATTEMPTS,
            },
    {
        match self.services.get(name) {
            Some(s) => {
                if s.restart_attempts < MAX_RESTART_ATTEMPTS {
                    Some(s.command.as_str().to_owned())
                } else {
                    None
                }
            },
            None => None,
        }
    }

    /// Records one restart attempt for the named service.
    pub fn record_restart(&mut self, name: &str)
        ensures
            old(self).table().contains_key(name@) ==> final(self).table() == old(
                self,
            ).table().insert(
                name@,
                ServiceView {
                    restart_attempts: if old(self).table()[name@].restart_attempts == u8::MAX {
                        old(self).table()[name@].restart_attempts
                    } else {
                        (old(self).table()[name@].restart_attempts + 1) as u8
                    },
                    ..old(self).table()[name@]
                },
            ),
            !old(self).table().contains_key(name@) ==> final(self).table() == old(self).table(),
    {
        let bumped = match self.services.get(name) {
            Some(s) => ServiceState {
                command: s.command.as_str().to_owned(),
                restart_attempts: if s.restart_attempts == u8::MAX {
                    s.restart_attempts
                } else {
                    s.restart_attempts + 1
                },
            },
            None => {
                return ;
            },
        };
        let ghost before = self.services@;
        self.services.insert(name, bumped);
        proof {
            lemma_views_insert(before, name@, self.services@[name@]);
        }
    }
}

/// A round-robin load balancer over registered services.
pub struct LoadBalancer {
    services: Vec<String>,
    cursor: usize,
}

impl LoadBalancer {
    /// The registered services, in registration order.
    pub closed spec fn pool(&self) -> Seq<Seq<char>> {
        self.services@.map_values(|s: String| s@)
    }

    /// Which service the next request goes to.
    pub closed spec fn spec_cursor(&self) -> usize {
        self.cursor
    }

    /// No services yet.
    pub fn new() -> (r: LoadBalancer)
        ensures
            r.pool() == Seq::<Seq<char>>::empty(),
            r.spec_cursor() == 0,
    {
        let r = LoadBalancer { services: Vec::new(), cursor: 0 };
        proof {
            assert(r.pool() =~= Seq::<Seq<char>>::empty());
        }
        r
    }

    /// Registers a service unless it is already in the pool.
    pub fn register_service(&mut self, service_id: &str)
        ensures
            old(self).pool().contains(service_id@) ==> final(self).pool() == old(self).pool(),
            !old(self).pool().contains(service_id@) ==> final(self).pool() == old(
                self,
            ).pool().push(service_id@),
            final(self).spec_cursor() == old(self).spec_cursor(),
    {
        if !vec_contains_str(&self.services, service_id) {
            proof {
                assert(!old(self).pool().contains(service_id@)) by {
                    if old(self).pool().contains(service_id@) {
                        let k = choose|k: int|
                            0 <= k < old(self).pool().len() && old(self).pool()[k] == service_id@;
                        assert(old(self).services@[k]@ == service_id@);
                    }
                }
            }
            self.services.push(service_id.to_owned());
            proof {
                assert(self.pool() =~= old(self).pool().push(service_id@));
            }
        } else {
            proof {
                let k = choose|k: int|
                    0 <= k < self.services@.len() && (#[trigger] self.services@[k])@ == service_id@;
                assert(self.pool()[k] == service_id@);
            }
        }
    }

    /// The next service in round-robin order, advancing the cursor; an
    /// empty pool has none.
    pub fn get_next_service(&mut self) -> (r: Option<String>)
        ensures
            final(self).pool() == old(self).pool(),
            old(self).pool().len() == 0 ==> r is None && final(self).spec_cursor() == old(
                self,
            ).spec_cursor(),
            old(self).pool().len() > 0 ==> (r matches Some(s) && s@ == old(self).pool()[(
            old(self).spec_cursor() as int) % (old(self).pool().len() as int)]
                && final(self).spec_cursor() as int == (old(self).spec_cursor() + 1) % (
            old(self).pool().len() as int)),
    {
        let n = self.services.len();
        if n == 0 {
            return None;
        }
        let at = self.cursor % n;
        let ghost c = self.cursor as int;
        let chosen = self.services[at].as_str().to_owned();
        self.cursor = (at + 1) % n;
        proof {
            vstd::arithmetic::div_mod::lemma_add_mod_noop(c, 1, n as int);
            assert(chosen@ == old(self).pool()[c % (n as int)]);
            if n == 1 {
                assert(self.cursor as int == (c + 1) % (n as int)) by {
                    assert(self.cursor == 0);
                    assert((c + 1) % 1 == 0);
                }
            } else {
                assert(n >= 2);
                assert(1int % (n as int) == 1) by (nonlinear_arith)
                    requires
                        n as int >= 2,
                ;
                assert(self.cursor as int == (c + 1) % (n as int));
            }
        }
        Some(chosen)
    }
}

/// The zero-trust service registry: which services may talk, and the
/// key each one authenticates with.
pub struct NetworkPolicyManager {
    allowed_services: Vec<String>,
    service_keys: StrMap<String>,
}

impl NetworkPolicyManager {
    /// The services allowed to communicate.
    pub closed spec fn allowed(&self) -> Seq<Seq<char>> {
        self.allowed_services@.map_values(|s: String| s@)
    }

    /// The authentication keys, keyed by service name.
    pub closed spec fn keys(&self) -> Map<Seq<char>, Seq<char>> {
        views_of(self.service_keys@)
    }

    /// An empty registry.
    pub fn new() -> (r: NetworkPolicyManager)
        ensures
            r.allowed().len() == 0,
            r.keys() == Map::<Seq<char>, Seq<char>>::empty(),
    {
        let r = NetworkPolicyManager { allowed_services: Vec::new(), service_keys: StrMap::new() };
        proof {
            assert(r.keys() =~= Map::<Seq<char>, Seq<char>>::empty());
        }
        r
    }

    /// Admits a service with its authentication key.
    pub fn register_service(&mut self, service_name: &str, auth_key: &str)
        ensures
            final(self).allowed() == old(self).allowed() || final(self).allowed() == old(
                self,
            ).allowed().push(service_name@),
            final(self).keys() == old(self).keys().insert(service_name@, auth_key@),
            final(self).allowed().contains(service_name@),
    {
        if !vec_contains_str(&self.allowed_services, service_name) {
            self.allowed_services.push(service_name.to_owned());
            proof {
                assert(self.allowed() =~= old(self).allowed().push(service_name@));
                assert(self.allowed()[self.allowed().len() - 1] == service_name@);
            }
        } else {
            proof {
                let k = choose|k: int|
                    0 <= k < self.allowed_services@.len() && (#[trigger] self.allowed_services@[
                    k])@ == service_name@;
                assert(self.allowed()[k] == service_name@);
            }
        }
        let ghost before = self.service_keys@;
        self.service_keys.insert(service_name, auth_key.to_owned());
        proof {
            lemma_views_insert(before, service_name@, self.service_keys@[service_name@]);
        }
    }

    /// Whether a service presents the key it registered with.
    pub fn validate_authentication(&self, service_name: &str, auth_key: &str) -> (r: bool)
        ensures
            r == (self.keys().contains_key(service_name@) && self.keys()[service_name@]
                == auth_key@),
    {
        match self.service_keys.get(service_name) {
            Some(stored) => str_eq(stored.as_str(), auth_key),
            None => false,
        }
    }
}

/// Network traffic observations, per source.
pub struct IntrusionDetectionSystem {
    traffic_counts: StrMap<u64>,
    blocked_ips: Vec<String>,
}

impl IntrusionDetectionSystem {
    /// How many packets each source has sent.
    pub closed spec fn counts(&self) -> Map<Seq<char>, u64> {
        self.traffic_counts@
    }

    /// The sources blocked so far.
    pub closed spec fn blocked(&self) -> Seq<Seq<char>> {
        self.blocked_ips@.map_values(|s: String| s@)
    }

    /// Nothing observed yet.
    pub fn new() -> (r: IntrusionDetectionSystem)
        ensures
            r.counts() == Map::<Seq<char>, u64>::empty(),
            r.blocked().len() == 0,
    {
        IntrusionDetectionSystem { traffic_counts: StrMap::new(), blocked_ips: Vec::new() }
    }

    /// Counts one packet from `source_ip`.
    pub fn log_traffic(&mut self, source_ip: &str)
        ensures
            final(self).counts() == old(self).counts().insert(
                source_ip@,
                if old(self).counts().contains_key(source_ip@) {
                    if old(self).counts()[source_ip@] == u64::MAX {
                        old(self).counts()[source_ip@]
                    } else {
                        (old(self).counts()[source_ip@] + 1) as u64
                    }
                } else {
                    1
                },
            ),
            final(self).blocked() == old(self).blocked(),
    {
        let next: u64 = match self.traffic_counts.get(source_ip) {
            Some(c) => {
                if *c == u64::MAX {
                    *c
                } else {
                    *c + 1
                }
            },
            None => 1,
        };
        self.traffic_counts.insert(source_ip, next);
    }

    /// Blocks a source.
    pub fn block_ip(&mut self, source_ip: &str)
        ensures
            final(self).blocked() == old(self).blocked().push(source_ip@),
            final(self).counts() == old(self).counts(),
    {
        self.blocked_ips.push(source_ip.to_owned());
        proof {
            assert(self.blocked() =~= old(self).blocked().push(source_ip@));
        }
    }

    /// Whether a source has been blocked.
    pub fn is_blocked(&self, source_ip: &str) -> (r: bool)
        ensures
            r == self.blocked().contains(source_ip@),
    {
        let r = vec_contains_str(&self.blocked_ips, source_ip);
        proof {
            if r {
                let k = choose|k: int|
                    0 <= k < self.blocked_ips@.len() && (#[trigger] self.blocked_ips@[k])@
                        == source_ip@;
                assert(self.blocked()[k] == source_ip@);
            } else {
                if self.blocked().contains(source_ip@) {
                    let k = choose|k: int|
                        0 <= k < self.blocked().len() && self.blocked()[k] == source_ip@;
                    assert(self.blocked_ips@[k]@ == source_ip@);
                }
            }
        }
        r
    }
}

/// The sum of a sequence of counters.
pub open spec fn sum_of(s: Seq<u64>) -> int
    decreases s.len(),
{
    if s.len() == 0 {
        0
    } else {
        sum_of(s.drop_last()) + s.last()
    }
}

proof fn lemma_sum_bound(s: Seq<u64>)
    ensures
        0 <= sum_of(s) <= s.len() * u64::MAX,
    decreases s.len(),
{
    if s.len() > 0 {
        lemma_sum_bound(s.drop_last());
        assert((s.len() - 1) * u64::MAX + u64::MAX == s.len() * u64::MAX) by (nonlinear_arith);
    }
}

/// The average of the observed load samples, rounded down.
pub fn predict_load(trends: &[u64]) -> (r: u64)
    requires
        trends@.len() > 0,
    ensures
        r == sum_of(trends@) / (trends@.len() as int),
{
    let n = trends.len();
    let mut acc: u128 = 0;
    let mut i: usize = 0;
    while i < n
        invariant
            i <= n == trends@.len(),
            n > 0,
            acc == sum_of(trends@.subrange(0, i as int)),
            acc <= (i as int) * (u64::MAX as int),
        decreases n - i,
    {
        proof {
            let pre = trends@.subrange(0, i + 1);
            assert(pre.drop_last() =~= trends@.subrange(0, i as int));
            lemma_sum_bound(trends@.subrange(0, i as int));
            assert((i as int) * (u64::MAX as int) + (u64::MAX as int) == (i + 1)
                * (u64::MAX as int)) by (nonlinear_arith);
            assert((n as int) * (u64::MAX as int) <= (usize::MAX as int) * (u64::MAX as int))
                by (nonlinear_arith)
                requires
                    n <= usize::MAX,
            ;
        }
        acc = acc + trends[i] as u128;
        i += 1;
    }
    proof {
        assert(trends@.subrange(0, n as int) =~= trends@);
        lemma_sum_bound(trends@);
        assert(sum_of(trends@) / (n as int) <= u64::MAX) by (nonlinear_arith)
            requires
                0 <= sum_of(trends@) <= (n as int) * (u64::MAX as int),
                n > 0,
        ;
        assert(acc as int / (n as int) == sum_of(trends@) / (n as int));
    }
    (acc / (n as u128)) as u64
}

} // verus!
