//! The allocation table: the authoritative map from port to live worker
//! instance, bounded by the configured dynamic port range.

use vstd::prelude::*;
use vstd::string::*;

use crate::decimal::{dec_rep, format_decimal};

verus! {

/// A client address, reduced to the 128-bit value the admission policy
/// counts by. Callers map IPv4 addresses into this space canonically.
#[derive(Clone, Copy, PartialEq, Eq, Structural, Debug, Hash)]
pub struct ClientIp {
    pub bits: u128,
}

/// One running (or just-finished) worker bound to a specific port.
#[derive(Clone, Copy, PartialEq, Eq, Structural, Debug)]
pub struct Instance {
    /// The port the worker is bound to; unique within the table.
    pub port: u16,
    /// Seconds-resolution timestamp captured at creation.
    pub spawn_time: u64,
    /// The client the instance was created for.
    pub owner: ClientIp,
    /// Whether a process handle is still held for this instance.
    pub has_process: bool,
}

/// Why an allocation request was refused.
#[derive(Clone, Copy, PartialEq, Eq, Structural, Debug)]
pub enum AllocError {
    /// The requesting client already holds the per-client maximum.
    Denied,
    /// Every port of the dynamic range is occupied.
    Exhausted,
}

/// The allocation table plus the immutable launch configuration.
pub struct PortTable {
    /// The live instances; ports are unique and lie in range.
    pub instances: Vec<Instance>,
    /// First port of the dynamic range.
    pub start_port: u16,
    /// Last port of the dynamic range; at least `start_port`.
    pub end_port: u16,
    /// Per-client cap on concurrently live instances.
    pub max_instances_by_ip: u8,
    /// Path of the worker executable.
    pub worker_path: String,
    /// Extra arguments forwarded verbatim to every worker.
    pub worker_params: Vec<String>,
    /// The address workers bind; the wildcard marker means all.
    pub bind_address: String,
}

impl PortTable {
    /// Well-formedness: the range is non-empty, every port is in range,
    /// and no two instances share a port.
    pub open spec fn wf(&self) -> bool {
        &&& self.start_port <= self.end_port
        &&& forall|i: int|
            0 <= i < self.instances@.len() ==> self.in_range(
                (#[trigger] self.instances@[i]).port,
            )
        &&& forall|i: int, j: int|
            0 <= i < j < self.instances@.len() ==> (#[trigger] self.instances@[i]).port != (
            #[trigger] self.instances@[j]).port
    }

    /// Whether `p` lies in the dynamic port range.
    pub open spec fn in_range(&self, p: u16) -> bool {
        self.start_port <= p <= self.end_port
    }

    /// Whether some instance currently holds port `p`.
    pub open spec fn occupied(&self, p: u16) -> bool {
        exists|i: int|
            0 <= i < self.instances@.len() && (#[trigger] self.instances@[i]).port == p
    }

    /// Constructs an empty table over `[start_port, end_port]`.
    /// Fails exactly when the range is empty; nothing else is touched
    /// first.
    pub fn new(
        max_instances_by_ip: u8,
        start_port: u16,
        end_port: u16,
        worker_path: String,
        worker_params: Vec<String>,
        bind_address: String,
    ) -> (r: Result<PortTable, &'static str>)
        ensures
            r is Ok <==> start_port <= end_port,
            r matches Ok(t) ==> {
                &&& t.wf()
                &&& t.instances@ =~= Seq::<Instance>::empty()
                &&& t.start_port == start_port
                &&& t.end_port == end_port
                &&& t.max_instances_by_ip == max_instances_by_ip
                &&& t.worker_path == worker_path
                &&& t.worker_params == worker_params
                &&& t.bind_address == bind_address
            },
    {
        if end_port < start_port {
            Err("End port must be bigger than start port")
        } else {
            Ok(
                PortTable {
                    instances: Vec::new(),
                    start_port,
                    end_port,
                    max_instances_by_ip,
                    worker_path,
                    worker_params,
                    bind_address,
                },
            )
        }
    }

    /// The lowest free port at or above `p`, if any.
    pub open spec fn lowest_free_from(&self, p: int) -> Option<u16>
        decreases self.end_port + 1 - p,
    {
        if p < self.start_port || p > self.end_port {
            None
        } else if !self.occupied(p as u16) {
            Some(p as u16)
        } else {
            self.lowest_free_from(p + 1)
        }
    }

    /// The lowest currently-free port of the range, if any.
    pub open spec fn lowest_free(&self) -> Option<u16> {
        self.lowest_free_from(self.start_port as int)
    }

    /// Whether some instance holds port `p`.
    pub fn contains_port(&self, p: u16) -> (r: bool)
        ensures
            r == self.occupied(p),
    {
        let mut i: usize = 0;
        while i < self.instances.len()
            invariant
                i <= self.instances@.len(),
                forall|j: int| 0 <= j < i ==> (#[trigger] self.instances@[j]).port != p,
            decreases self.instances@.len() - i,
        {
            if self.instances[i].port == p {
                return true;
            }
            i = i + 1;
        }
        false
    }

    /// The free-port search: returns the lowest free port of the range,
    /// or `None` when the range is saturated.
    pub fn get_next_free_port(&self) -> (r: Option<u16>)
        ensures
            r == self.lowest_free(),
            r matches Some(p) ==> self.in_range(p) && !self.occupied(p) && forall|q: u16|
                self.start_port <= q < p ==> self.occupied(q),
            r is None ==> forall|q: u16| self.in_range(q) ==> self.occupied(q),
    {
        let mut p: u16 = self.start_port;
        if self.end_port < self.start_port {
            proof {
                reveal_with_fuel(PortTable::lowest_free_from, 1);
            }
            return None;
        }
        loop
            invariant
                self.start_port <= p <= self.end_port || p == self.end_port + 1,
                self.start_port <= self.end_port,
                forall|q: u16| self.start_port <= q < p ==> self.occupied(q),
                self.lowest_free() == self.lowest_free_from(p as int),
            decreases self.end_port + 1 - p,
        {
            if p > self.end_port {
                proof {
                    reveal_with_fuel(PortTable::lowest_free_from, 1);
                }
                return None;
            }
            if !self.contains_port(p) {
                proof {
                    reveal_with_fuel(PortTable::lowest_free_from, 1);
                }
                return Some(p);
            }
            proof {
                reveal_with_fuel(PortTable::lowest_free_from, 2);
            }
            if p == self.end_port {
                proof {
                    reveal_with_fuel(PortTable::lowest_free_from, 1);
                }
                return None;
            }
            p = p + 1;
        }
    }

    /// The instances owned by `ip`, as the predicate the admission
    /// policy filters by.
    pub open spec fn owned_by(ip: ClientIp) -> spec_fn(Instance) -> bool {
        |inst: Instance| inst.owner == ip
    }

    /// How many live instances `ip` owns.
    pub open spec fn count_by_ip_spec(&self, ip: ClientIp) -> nat {
        self.instances@.filter(PortTable::owned_by(ip)).len()
    }

    /// Counts the live instances owned by `ip`.
    pub fn get_instance_count_by_ip(&self, ip: ClientIp) -> (n: usize)
        ensures
            n == self.count_by_ip_spec(ip),
    {
        let mut n: usize = 0;
        let mut i: usize = 0;
        while i < self.instances.len()
            invariant
                i <= self.instances@.len(),
                n == self.instances@.take(i as int).filter(PortTable::owned_by(ip)).len(),
                n <= i,
            decreases self.instances@.len() - i,
        {
            proof {
                assert(self.instances@.take(i + 1) =~= self.instances@.take(i as int).push(
                    self.instances@[i as int],
                ));
                self.instances@.take(i as int).lemma_filter_push(
                    self.instances@[i as int],
                    PortTable::owned_by(ip),
                );
            }
            if self.instances[i].owner == ip {
                n = n + 1;
            }
            i = i + 1;
        }
        proof {
            assert(self.instances@.take(self.instances@.len() as int) =~= self.instances@);
        }
        n
    }

    /// The admission-and-allocation decision: denies a client at its
    /// cap, reports exhaustion when no port is free, and otherwise
    /// chooses the lowest free port. Pure: the caller starts the worker
    /// and then records the instance.
    pub fn try_allocate(&self, ip: ClientIp) -> (r: Result<u16, AllocError>)
        ensures
            r == Err::<u16, AllocError>(AllocError::Denied) <==> self.count_by_ip_spec(ip)
                >= self.max_instances_by_ip,
            self.count_by_ip_spec(ip) < self.max_instances_by_ip ==> r == match self.lowest_free() {
                Some(p) => Ok::<u16, AllocError>(p),
                None => Err::<u16, AllocError>(AllocError::Exhausted),
            },
    {
        if self.get_instance_count_by_ip(ip) >= self.max_instances_by_ip as usize {
            return Err(AllocError::Denied);
        }
        match self.get_next_free_port() {
            Some(p) => Ok(p),
            None => Err(AllocError::Exhausted),
        }
    }

    /// Records a freshly started instance under `port`. Succeeds exactly
    /// when `port` is in range and currently free; otherwise the table
    /// is unchanged.
    pub fn register_instance(&mut self, port: u16, ip: ClientIp, now: u64) -> (ok: bool)
        requires
            old(self).wf(),
        ensures
            final(self).wf(),
            ok <==> old(self).in_range(port) && !old(self).occupied(port),
            ok ==> final(self).instances@ =~= old(self).instances@.push(
                Instance { port, spawn_time: now, owner: ip, has_process: true },
            ),
            ok ==> forall|q: u16| final(self).occupied(q) <==> (old(self).occupied(q) || q == port),
            !ok ==> final(self).instances@ =~= old(self).instances@,
            final(self).start_port == old(self).start_port,
            final(self).end_port == old(self).end_port,
            final(self).max_instances_by_ip == old(self).max_instances_by_ip,
            final(self).worker_path == old(self).worker_path,
            final(self).worker_params == old(self).worker_params,
            final(self).bind_address == old(self).bind_address,
    {
        if port < self.start_port || port > self.end_port {
            return false;
        }
        if self.contains_port(port) {
            return false;
        }
        self.instances.push(
            Instance { port, spawn_time: now, owner: ip, has_process: true },
        );
        proof {
            let pushed = self.instances@;
            let orig = old(self).instances@;
            assert forall|q: u16| self.occupied(q) <==> (old(self).occupied(q) || q
                == port) by {
                if old(self).occupied(q) {
                    let i = choose|i: int| 0 <= i < orig.len() && orig[i].port == q;
                    assert(pushed[i].port == q);
                }
                if q == port {
                    assert(pushed[orig.len() as int].port == q);
                }
                if self.occupied(q) {
                    let i = choose|i: int| 0 <= i < pushed.len() && pushed[i].port == q;
                    if i < orig.len() {
                        assert(orig[i].port == q);
                    }
                }
            }
        }
        true
    }
}

/// Age of an instance at time `now`, in seconds; zero if the clock
/// reads earlier than the spawn time.
pub open spec fn age_of(inst: Instance, now: u64) -> nat {
    if now >= inst.spawn_time {
        (now - inst.spawn_time) as nat
    } else {
        0
    }
}

/// Whether an instance has reached the maximum age at time `now`.
pub open spec fn is_expired(inst: Instance, now: u64, max_age_seconds: u64) -> bool {
    age_of(inst, now) >= max_age_seconds
}

/// Whether a sweep at time `now` releases the instance: it is overdue,
/// or its process has already exited.
pub open spec fn released_by_sweep(
    inst: Instance,
    now: u64,
    max_age_seconds: u64,
    exited: Seq<u16>,
) -> bool {
    is_expired(inst, now, max_age_seconds) || (inst.has_process && exited.contains(inst.port))
}

/// The instances a sweep keeps, as the predicate the sweep filters by.
pub open spec fn kept_by_sweep(now: u64, max_age_seconds: u64, exited: Seq<u16>) -> spec_fn(
    Instance,
) -> bool {
    |inst: Instance| !released_by_sweep(inst, now, max_age_seconds, exited)
}

/// The instances a sweep must force-terminate: overdue ones whose
/// process handle is still held.
pub open spec fn killed_by_sweep(now: u64, max_age_seconds: u64) -> spec_fn(Instance) -> bool {
    |inst: Instance| is_expired(inst, now, max_age_seconds) && inst.has_process
}

/// The port an instance holds.
pub open spec fn port_of(inst: Instance) -> u16 {
    inst.port
}

/// A filter of a sequence with pairwise-distinct ports again has
/// pairwise-distinct ports.
proof fn lemma_filter_distinct_ports(s: Seq<Instance>, pred: spec_fn(Instance) -> bool)
    requires
        forall|i: int, j: int| 0 <= i < j < s.len() ==> s[i].port != s[j].port,
    ensures
        forall|i: int, j: int|
            0 <= i < j < s.filter(pred).len() ==> s.filter(pred)[i].port != s.filter(pred)[j].port,
    decreases s.len(),
{
    reveal(Seq::filter);
    if s.len() > 0 {
        let rest = s.drop_last();
        lemma_filter_distinct_ports(rest, pred);
        if pred(s.last()) {
            assert forall|i: int|
                0 <= i < rest.filter(pred).len() implies rest.filter(pred)[i].port
                != s.last().port by {
                assert(rest.filter(pred).contains(rest.filter(pred)[i]));
                rest.lemma_filter_contains_rev(pred, rest.filter(pred)[i]);
                let j = choose|j: int|
                    0 <= j < rest.len() && rest[j] == rest.filter(pred)[i];
                assert(s[j] == rest[j] && s[j].port != s.last().port);
            }
        }
    }
}

/// Every element of a filtered sequence stands somewhere in the
/// original sequence.
proof fn lemma_filter_elem_of(s: Seq<Instance>, pred: spec_fn(Instance) -> bool, k: int)
    requires
        0 <= k < s.filter(pred).len(),
    ensures
        exists|j: int| 0 <= j < s.len() && s[j] == s.filter(pred)[k],
{
    assert(s.filter(pred).contains(s.filter(pred)[k]));
    s.lemma_filter_contains_rev(pred, s.filter(pred)[k]);
}

/// Whether `v` holds `x`.
fn vec_contains_port(v: &Vec<u16>, x: u16) -> (r: bool)
    ensures
        r == v@.contains(x),
{
    let mut i: usize = 0;
    while i < v.len()
        invariant
            i <= v@.len(),
            forall|j: int| 0 <= j < i ==> v@[j] != x,
        decreases v@.len() - i,
    {
        if v[i] == x {
            return true;
        }
        i = i + 1;
    }
    false
}

impl PortTable {
    /// One sweep of the reaper at time `now`: releases every instance
    /// whose process has exited and every instance at or past the
    /// maximum age, and returns the ports of the overdue instances
    /// whose process must still be force-terminated. `exited` lists the
    /// ports whose process the caller found already exited.
    pub fn cleanup(&mut self, now: u64, max_age_seconds: u64, exited: &Vec<u16>) -> (to_kill: Vec<
        u16,
    >)
        requires
            old(self).wf(),
        ensures
            final(self).wf(),
            final(self).instances@ =~= old(self).instances@.filter(
                kept_by_sweep(now, max_age_seconds, exited@),
            ),
            to_kill@ =~= old(self).instances@.filter(
                killed_by_sweep(now, max_age_seconds),
            ).map_values(|inst: Instance| port_of(inst)),
            final(self).start_port == old(self).start_port,
            final(self).end_port == old(self).end_port,
            final(self).max_instances_by_ip == old(self).max_instances_by_ip,
            final(self).worker_path == old(self).worker_path,
            final(self).worker_params == old(self).worker_params,
            final(self).bind_address == old(self).bind_address,
    {
        let ghost orig = self.instances@;
        let ghost keep_pred = kept_by_sweep(now, max_age_seconds, exited@);
        let ghost kill_pred = killed_by_sweep(now, max_age_seconds);
        let mut kept: Vec<Instance> = Vec::new();
        let mut to_kill: Vec<u16> = Vec::new();
        let mut i: usize = 0;
        while i < self.instances.len()
            invariant
                i <= self.instances@.len(),
                self.instances@ == orig,
                keep_pred == kept_by_sweep(now, max_age_seconds, exited@),
                kill_pred == killed_by_sweep(now, max_age_seconds),
                kept@ == orig.take(i as int).filter(keep_pred),
                to_kill@ == orig.take(i as int).filter(kill_pred).map_values(
                    |inst: Instance| port_of(inst),
                ),
            decreases self.instances@.len() - i,
        {
            let inst = self.instances[i];
            proof {
                assert(orig.take(i + 1) =~= orig.take(i as int).push(orig[i as int]));
                orig.take(i as int).lemma_filter_push(orig[i as int], keep_pred);
                orig.take(i as int).lemma_filter_push(orig[i as int], kill_pred);
                orig.take(i as int).filter(kill_pred).lemma_push_map_commute(
                    |inst: Instance| port_of(inst),
                    orig[i as int],
                );
            }
            let age: u64 = if now >= inst.spawn_time {
                now - inst.spawn_time
            } else {
                0
            };
            let expired = age >= max_age_seconds;
            let gone = inst.has_process && vec_contains_port(exited, inst.port);
            proof {
                assert(age as nat == age_of(inst, now));
                assert(expired == is_expired(inst, now, max_age_seconds));
                assert(keep_pred(inst) == !(expired || gone));
                assert(kill_pred(inst) == (expired && inst.has_process));
            }
            if expired {
                if inst.has_process {
                    to_kill.push(inst.port);
                }
            } else if !gone {
                kept.push(inst);
            }
            i = i + 1;
        }
        proof {
            assert(orig.take(orig.len() as int) =~= orig);
            lemma_filter_distinct_ports(orig, keep_pred);
            assert forall|k: int|
                0 <= k < orig.filter(keep_pred).len() implies old(self).in_range(
                (#[trigger] orig.filter(keep_pred)[k]).port,
            ) by {
                lemma_filter_elem_of(orig, keep_pred, k);
            }
        }
        self.instances = kept;
        to_kill
    }
}

/// The wildcard bind address: when configured, no bind argument is
/// passed to the worker.
pub open spec fn bind_all_marker() -> Seq<char> {
    "[::]"@
}

/// Exec view of the wildcard bind address.
pub fn bind_all_text() -> (s: &'static str)
    ensures
        s@ == bind_all_marker(),
{
    "[::]"
}

/// The views of a sequence of strings.
pub open spec fn string_views(v: Seq<String>) -> Seq<Seq<char>> {
    v.map_values(|s: String| s@)
}

/// The argument list a worker is launched with: server mode, a single
/// session, the chosen port in decimal, the bind address unless it is
/// the wildcard, then the configured extra parameters verbatim.
pub open spec fn worker_args_spec(bind: Seq<char>, params: Seq<Seq<char>>, port: u16) -> Seq<
    Seq<char>,
> {
    let base = seq!["-s"@, "-1"@, "-p"@, dec_rep(port as nat)];
    let with_bind = if bind == bind_all_marker() {
        base
    } else {
        base + seq!["-B"@, bind]
    };
    with_bind + params
}

impl PortTable {
    /// Builds the argument list for a worker bound to `port`.
    pub fn worker_command_args(&self, port: u16) -> (args: Vec<String>)
        ensures
            string_views(args@) == worker_args_spec(
                self.bind_address@,
                string_views(self.worker_params@),
                port,
            ),
    {
        let mut args: Vec<String> = Vec::new();
        args.push(String::from_str("-s"));
        args.push(String::from_str("-1"));
        args.push(String::from_str("-p"));
        args.push(format_decimal(port));
        let all = String::from_str(bind_all_text());
        if !(self.bind_address == all) {
            args.push(String::from_str("-B"));
            args.push(self.bind_address.clone());
        }
        let ghost head = string_views(args@);
        let ghost goal = worker_args_spec(
            self.bind_address@,
            string_views(self.worker_params@),
            port,
        );
        proof {
            if self.bind_address@ == bind_all_marker() {
                assert(head =~= seq!["-s"@, "-1"@, "-p"@, dec_rep(port as nat)]);
            } else {
                assert(head =~= seq!["-s"@, "-1"@, "-p"@, dec_rep(port as nat)] + seq![
                    "-B"@,
                    self.bind_address@,
                ]);
            }
            assert(goal == head + string_views(self.worker_params@));
        }
        let mut i: usize = 0;
        while i < self.worker_params.len()
            invariant
                i <= self.worker_params@.len(),
                goal == head + string_views(self.worker_params@),
                goal == worker_args_spec(
                    self.bind_address@,
                    string_views(self.worker_params@),
                    port,
                ),
                string_views(args@) == head + string_views(self.worker_params@.take(i as int)),
            decreases self.worker_params@.len() - i,
        {
            let ghost prev = args@;
            args.push(self.worker_params[i].clone());
            proof {
                assert(string_views(args@) =~= string_views(prev).push(
                    self.worker_params@[i as int]@,
                ));
                assert(string_views(self.worker_params@.take(i + 1)) =~= string_views(
                    self.worker_params@.take(i as int),
                ).push(self.worker_params@[i as int]@));
                assert(string_views(args@) =~= head + string_views(
                    self.worker_params@.take(i + 1),
                ));
            }
            i = i + 1;
        }
        proof {
            assert(self.worker_params@.take(self.worker_params@.len() as int)
                =~= self.worker_params@);
        }
        args
    }
}

/// No two live instances of a well-formed table hold the same port.
pub proof fn lemma_no_port_collision(t: PortTable, i: int, j: int)
    requires
        t.wf(),
        0 <= i < j < t.instances@.len(),
    ensures
        t.instances@[i].port != t.instances@[j].port,
{
}

/// If every port of `[m, p)` is occupied and `p` itself is free, the
/// search from `m` lands exactly on `p`.
proof fn lemma_lowest_free_from(t: PortTable, m: int, p: u16)
    requires
        t.wf(),
        t.start_port <= m <= p,
        t.in_range(p),
        !t.occupied(p),
        forall|q: u16| m <= q < p ==> t.occupied(q),
    ensures
        t.lowest_free_from(m) == Some(p),
    decreases p - m,
{
    if m < p {
        lemma_lowest_free_from(t, m + 1, p);
        assert(t.occupied(m as u16));
    }
}

/// If every port of `[m, end_port]` is occupied, the search from `m`
/// finds nothing.
proof fn lemma_lowest_free_from_none(t: PortTable, m: int)
    requires
        t.wf(),
        t.start_port <= m,
        forall|q: u16| m <= q <= t.end_port ==> t.occupied(q),
    ensures
        t.lowest_free_from(m) is None,
    decreases t.end_port + 1 - m,
{
    if m <= t.end_port {
        assert(t.occupied(m as u16));
        lemma_lowest_free_from_none(t, m + 1);
    }
}

/// The free-port search returns exactly the lowest free port: if `p`
/// is free and everything below it is occupied, the next allocation
/// chooses `p`. In particular a freshly released low port is
/// rediscovered before the high-water mark grows.
pub proof fn lemma_lowest_free_unique(t: PortTable, p: u16)
    requires
        t.wf(),
        t.in_range(p),
        !t.occupied(p),
        forall|q: u16| t.start_port <= q < p ==> t.occupied(q),
    ensures
        t.lowest_free() == Some(p),
{
    lemma_lowest_free_from(t, t.start_port as int, p);
}

/// A free start port is always the next port handed out, whatever else
/// is occupied.
pub proof fn lemma_start_port_hole(t: PortTable)
    requires
        t.wf(),
        !t.occupied(t.start_port),
    ensures
        t.lowest_free() == Some(t.start_port),
{
    lemma_lowest_free_unique(t, t.start_port);
}

/// Allocation without releases walks the range in order: when the
/// occupied ports are exactly `[start_port, start_port + k)`, the next
/// allocation chooses `start_port + k`, until the range is exhausted,
/// at which point the search reports `None`. Together with the
/// occupancy clause of `register_instance`, this pins the whole
/// allocation sequence: recording the chosen port extends the occupied
/// prefix by one.
pub proof fn lemma_allocation_sequence(t: PortTable, k: nat)
    requires
        t.wf(),
        forall|q: u16| t.in_range(q) ==> (t.occupied(q) <==> q < t.start_port + k),
    ensures
        t.start_port + k <= t.end_port ==> t.lowest_free() == Some((t.start_port + k) as u16),
        t.start_port + k > t.end_port ==> t.lowest_free() is None,
{
    if t.start_port + k <= t.end_port {
        let p = (t.start_port + k) as u16;
        assert(!t.occupied(p));
        lemma_lowest_free_unique(t, p);
    } else {
        lemma_lowest_free_from_none(t, t.start_port as int);
    }
}

/// A sweep with a zero maximum age releases every instance, whatever
/// its process state, and force-terminates every instance whose
/// process handle is still held.
pub proof fn lemma_sweep_zero_age(s: Seq<Instance>, now: u64, exited: Seq<u16>)
    ensures
        s.filter(kept_by_sweep(now, 0, exited)) =~= Seq::<Instance>::empty(),
        forall|j: int|
            0 <= j < s.len() && (#[trigger] s[j]).has_process ==> s.filter(
                killed_by_sweep(now, 0),
            ).contains(s[j]),
{
    broadcast use vstd::seq_lib::group_filter_ensures;

    let kept = s.filter(kept_by_sweep(now, 0, exited));
    if kept.len() > 0 {
        assert(kept_by_sweep(now, 0, exited)(kept[0]));
        assert(false);
    }
    assert forall|j: int|
        0 <= j < s.len() && (#[trigger] s[j]).has_process implies s.filter(
        killed_by_sweep(now, 0),
    ).contains(s[j]) by {
        assert(killed_by_sweep(now, 0)(s[j]));
    }
}

/// An instance whose process has already exited is gone after the very
/// next sweep, even when its age is still below the threshold.
pub proof fn lemma_exited_instance_released(
    s: Seq<Instance>,
    now: u64,
    max_age_seconds: u64,
    exited: Seq<u16>,
    j: int,
)
    requires
        0 <= j < s.len(),
        s[j].has_process,
        exited.contains(s[j].port),
    ensures
        !s.filter(kept_by_sweep(now, max_age_seconds, exited)).contains(s[j]),
{
    broadcast use vstd::seq_lib::group_filter_ensures;

    let kept = s.filter(kept_by_sweep(now, max_age_seconds, exited));
    if kept.contains(s[j]) {
        let k = choose|k: int| 0 <= k < kept.len() && kept[k] == s[j];
        assert(kept_by_sweep(now, max_age_seconds, exited)(kept[k]));
        assert(false);
    }
}

/// The instances a sweep releases that belong to `ip`.
pub open spec fn released_owned_by(
    now: u64,
    max_age_seconds: u64,
    exited: Seq<u16>,
    ip: ClientIp,
) -> spec_fn(Instance) -> bool {
    |inst: Instance| released_by_sweep(inst, now, max_age_seconds, exited) && inst.owner == ip
}

/// A sweep decrements the effective per-client count by exactly the
/// number of released instances the client owned: the kept instances
/// of `ip` plus the released instances of `ip` account for every
/// instance `ip` owned before the sweep.
pub proof fn lemma_sweep_decrements_count(
    s: Seq<Instance>,
    now: u64,
    max_age_seconds: u64,
    exited: Seq<u16>,
    ip: ClientIp,
)
    ensures
        s.filter(kept_by_sweep(now, max_age_seconds, exited)).filter(
            PortTable::owned_by(ip),
        ).len() + s.filter(released_owned_by(now, max_age_seconds, exited, ip)).len() == s.filter(
            PortTable::owned_by(ip),
        ).len(),
    decreases s.len(),
{
    reveal(Seq::filter);
    if s.len() > 0 {
        let rest = s.drop_last();
        let last = s.last();
        lemma_sweep_decrements_count(rest, now, max_age_seconds, exited, ip);
        if kept_by_sweep(now, max_age_seconds, exited)(last) {
            rest.filter(kept_by_sweep(now, max_age_seconds, exited)).lemma_filter_push(
                last,
                PortTable::owned_by(ip),
            );
        }
    }
}

} // verus!
