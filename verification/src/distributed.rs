//! The plain parts of the distributed search: how root moves are dealt to workers, and
//! the settings the coordinator and the workers hold.
use vstd::prelude::*;
use vstd::string::*;
use crate::config::AppConfig;
use crate::models::Move;
use crate::movegen::{MoveView, views};

verus! {

/// The moves at positions `c`, `c + n`, `c + 2n`, ... of `s`.
pub open spec fn dealt(s: Seq<MoveView>, n: nat, c: nat) -> Seq<MoveView> {
    Seq::new(((s.len() + n - 1 - c) / n as int) as nat, |k: int| s[c + k * n])
}

/// Deals the moves round-robin into `n` chunks: move `i` goes to chunk `i % n`, in order.
pub fn partition_moves(moves: Vec<Move>, n: usize) -> (r: Vec<Vec<Move>>)
    requires
        moves.len() > 0 ==> n > 0,
    ensures
        r.len() == n,
        forall|c: int| 0 <= c < n ==> views((#[trigger] r@[c])@) == dealt(views(moves@), n as nat, c as nat),
{
    let ghost s = views(moves@);
    let mut chunks: Vec<Vec<Move>> = Vec::new();
    let mut c: usize = 0;
    while c < n
        invariant
            c <= n,
            moves.len() > 0 ==> n > 0,
            s == views(moves@),
            chunks.len() == c,
            forall|j: int| 0 <= j < c ==> views((#[trigger] chunks@[j])@) == dealt(s, n as nat, j as nat),
        decreases n - c,
    {
        let mut chunk: Vec<Move> = Vec::new();
        let mut i: usize = c;
        let ghost full = dealt(s, n as nat, c as nat);
        proof {
            assert(n > 0);
            assert((i - c) % (n as int) == 0 && (i - c) / (n as int) == 0) by (nonlinear_arith)
                requires
                    i == c,
                    n > 0,
            ;
            if c >= moves.len() {
                assert(full.len() == 0) by (nonlinear_arith)
                    requires
                        c >= s.len(),
                        c < n,
                        full.len() == ((s.len() + n - 1 - c) / n as int) as nat,
                ;
                assert(views(chunk@) =~= full);
            } else {
                assert(views(chunk@) =~= full.take(0));
            }
        }
        while i < moves.len()
            invariant
                c < n,
                n > 0,
                s == views(moves@),
                full == dealt(s, n as nat, c as nat),
                c <= i,
                i < moves.len() ==> (i - c) % (n as int) == 0,
                i < moves.len() ==> views(chunk@) == full.take((i - c) / (n as int)),
                i >= moves.len() ==> views(chunk@) == full,
            decreases moves.len() - i,
        {
            let ghost k = (i - c) / (n as int);
            proof {
                assert(c + k * n == i) by (nonlinear_arith)
                    requires
                        (i - c) % (n as int) == 0,
                        k == (i - c) / (n as int),
                        n > 0,
                ;
                lemma_dealt_len(s.len(), n as nat, c as nat, i as nat, k);
            }
            let m = moves[i].duplicate();
            proof {
                crate::movegen::lemma_views_push(chunk@, m);
                assert(full[k] == s[i as int]);
                assert(full.take(k + 1) =~= full.take(k).push(full[k]));
            }
            chunk.push(m);
            if n >= moves.len() - i {
                proof {
                    assert(full.take(k + 1) =~= full);
                }
                i = moves.len();
            } else {
                proof {
                    assert((i + n - c) % (n as int) == 0 && (i + n - c) / (n as int) == k + 1)
                        by (nonlinear_arith)
                        requires
                            c + k * n == i,
                            n > 0,
                            i >= c,
                    ;
                }
                i = i + n;
            }
        }
        chunks.push(chunk);
        c += 1;
    }
    chunks
}

/// The number of moves dealt to a chunk, counted from its first move.
proof fn lemma_dealt_len(len: nat, n: nat, c: nat, i: nat, k: int)
    requires
        n > 0,
        c < n,
        c <= i < len,
        c + k * n == i,
        k >= 0,
    ensures
        k < (len + n - 1 - c) / n as int,
        (len + n - 1 - c) / n as int >= 0,
        i + n >= len ==> k + 1 == (len + n - 1 - c) / n as int,
{
    assert(k < (len + n - 1 - c) / n as int) by (nonlinear_arith)
        requires
            n > 0,
            c + k * n < len,
            k >= 0,
            c < n,
    ;
    assert(i + n >= len ==> k + 1 == (len + n - 1 - c) / n as int) by (nonlinear_arith)
        requires
            n > 0,
            c + k * n == i,
            i < len,
            k >= 0,
            c < n,
    ;
}

/// Finds the worker endpoints of a service, leaving out this pod.
pub struct WorkerDiscovery {
    service_dns: String,
    grpc_port: u16,
    own_pod_ip: String,
}

impl WorkerDiscovery {
    /// The service name.
    pub closed spec fn spec_service_dns(&self) -> Seq<char> {
        self.service_dns@
    }

    /// The port of the workers.
    pub closed spec fn spec_grpc_port(&self) -> u16 {
        self.grpc_port
    }

    /// The address of this pod.
    pub closed spec fn spec_own_pod_ip(&self) -> Seq<char> {
        self.own_pod_ip@
    }

    /// Discovery of `service_dns` workers on `grpc_port`, this pod being `own_pod_ip`.
    pub fn new(service_dns: String, grpc_port: u16, own_pod_ip: String) -> (r: Self)
        ensures
            r.spec_service_dns() == service_dns@,
            r.spec_grpc_port() == grpc_port,
            r.spec_own_pod_ip() == own_pod_ip@,
    {
        WorkerDiscovery { service_dns, grpc_port, own_pod_ip }
    }

    /// The service name.
    pub fn service_dns(&self) -> (r: &String)
        ensures
            r@ == self.spec_service_dns(),
    {
        &self.service_dns
    }

    /// The port of the workers.
    pub fn grpc_port(&self) -> (r: u16)
        ensures
            r == self.spec_grpc_port(),
    {
        self.grpc_port
    }

    /// Whether a resolved address is another pod's: it differs from this pod's address.
    pub fn is_other_worker(&self, ip: &str) -> (r: bool)
        ensures
            r == (ip@ != self.spec_own_pod_ip()),
    {
        let n = ip.unicode_len();
        let own = self.own_pod_ip.as_str();
        if n != own.unicode_len() {
            return true;
        }
        let mut i: usize = 0;
        while i < n
            invariant
                i <= n,
                n == ip@.len(),
                n == own@.len(),
                own@ == self.own_pod_ip@,
                forall|k: int| 0 <= k < i ==> ip@[k] == own@[k],
            decreases n - i,
        {
            if ip.get_char(i) != own.get_char(i) {
                return true;
            }
            i += 1;
        }
        proof {
            assert(ip@ =~= own@);
        }
        false
    }
}

/// The coordinator of a distributed search: the settings and the worker discovery.
pub struct DistributedSearch {
    pub config: AppConfig,
    pub discovery: WorkerDiscovery,
}

impl DistributedSearch {
    /// A coordinator with `config`, discovering the workers of its worker service and port;
    /// this pod is `own_pod_ip`.
    pub fn new(config: &AppConfig, own_pod_ip: String) -> (r: Self)
        ensures
            r.discovery.spec_service_dns() == config.distributed.worker_dns@,
            r.discovery.spec_grpc_port() == config.distributed.grpc_port,
            r.discovery.spec_own_pod_ip() == own_pod_ip@,
    {
        let discovery = WorkerDiscovery::new(
            config.distributed.worker_dns.clone(),
            config.distributed.grpc_port,
            own_pod_ip,
        );
        DistributedSearch { config: config.clone(), discovery }
    }
}

/// The search service a worker runs, with its settings.
pub struct SearchWorkerService {
    pub config: AppConfig,
}

} // verus!
