//! The scan coordinator's data and its deterministic model.
//!
//! A real run spawns one thread per worker and fans the discoveries into a
//! channel; which ports turn out open is the network's answer. The logic of
//! the run — which ports are tried, and what the final report holds for a
//! given set of open ports — is modelled here over plain values, so it can
//! be stated and proved exactly: the report is the ascending, duplicate-free
//! sequence of exactly those open ports that the partition reaches.

use crate::collect::sort_ports;
use crate::collect::sorted;
use crate::partition::as_int_seq;
use crate::partition::lemma_partition_coverage;
use crate::partition::lemma_partition_disjoint;
use crate::partition::lemma_worker_ports_strictly_increasing;
use crate::partition::lemma_worker_visits_iff;
use crate::partition::scanned;
use crate::partition::worker_ports;
use crate::partition::worker_ports_spec;
use crate::partition::worker_visits;
use vstd::prelude::*;

verus! {

/// A target address, held as the plain values that identify it. The scan
/// never looks inside an address; it only carries it to every connect
/// attempt, so the eight groups of a v6 address and the four octets of a v4
/// address are all there is to hold.
#[derive(Clone, Copy, PartialEq, Eq, Structural, Debug)]
pub enum IpAddress {
    V4(u8, u8, u8, u8),
    V6(u16, u16, u16, u16, u16, u16, u16, u16),
}

/// The validated input of one scan: the target and how many workers share
/// the port range. Immutable once built.
#[derive(Clone, Copy, PartialEq, Eq, Structural, Debug)]
pub struct ScanRequest {
    pub target: IpAddress,
    pub worker_count: u16,
}

impl ScanRequest {
    /// A well-formed request has at least one worker.
    pub open spec fn wf(self) -> bool {
        1 <= self.worker_count
    }
}

/// What the final report holds for a target whose open ports are `open`:
/// exactly the open ports that some worker's stride reaches.
pub open spec fn reported(open: Seq<u16>, count: int, p: u16) -> bool {
    open.contains(p) && scanned(count, p as int)
}

/// Determinism of the report: the final sequence is a function of the true
/// set of open ports and the worker count alone. Any two sequences that are
/// sorted ascending and hold each reported port exactly once — the two
/// things the scan's contract guarantees of its result — are the same
/// sequence, whatever interleaving delivered the discoveries.
pub proof fn lemma_scan_report_deterministic(open: Seq<u16>, count: int, a: Seq<u16>, b: Seq<u16>)
    requires
        sorted(a),
        sorted(b),
        forall|p: u16|
            #![trigger a.to_multiset().count(p)]
            a.to_multiset().count(p) == (if reported(open, count, p) {
                1nat
            } else {
                0nat
            }),
        forall|p: u16|
            #![trigger b.to_multiset().count(p)]
            b.to_multiset().count(p) == (if reported(open, count, p) {
                1nat
            } else {
                0nat
            }),
    ensures
        a == b,
{
    broadcast use vstd::multiset::group_multiset_axioms;

    assert(a.to_multiset() =~= b.to_multiset());
    crate::collect::lemma_sorted_result_unique(a, b);
}

/// Port `p` is discovered by one of the first `upto` workers.
spec fn found_by_first(open: Seq<u16>, count: int, upto: int, p: u16) -> bool {
    open.contains(p) && (exists|w: int| 0 <= w < upto && worker_visits(w, count, p as int))
}

/// Port `p` stands among the first `upto` entries of `ports`.
spec fn in_prefix(ports: Seq<u16>, upto: int, p: u16) -> bool {
    exists|m: int| 0 <= m < upto && ports[m] == p
}

/// How often the report should list `p` once the first `upto` workers are
/// done and the running worker has tried its first `tried` ports.
spec fn due_count(open: Seq<u16>, count: int, upto: int, ports: Seq<u16>, tried: int, p: u16) -> nat {
    if found_by_first(open, count, upto, p) || (open.contains(p) && in_prefix(ports, tried, p)) {
        1nat
    } else {
        0nat
    }
}

/// Whether `v` holds the port `p`.
fn contains_port(v: &Vec<u16>, p: u16) -> (r: bool)
    ensures
        r == v@.contains(p),
{
    let mut k: usize = 0;
    while k < v.len()
        invariant
            k <= v@.len(),
            forall|m: int| 0 <= m < k ==> v@[m] != p,
        decreases v@.len() - k,
    {
        if v[k] == p {
            return true;
        }
        k = k + 1;
    }
    false
}

/// One whole scan against a target whose open ports are known: every
/// worker's probes against `open`, fanned in and sorted. The result is the
/// same whatever order the workers would have delivered their discoveries
/// in, and holds each reachable open port exactly once — the partition
/// leaves no room for duplicates.
pub fn simulate_scan(open: &Vec<u16>, count: u16) -> (r: Vec<u16>)
    requires
        1 <= count,
    ensures
        sorted(r@),
        forall|p: u16|
            #![trigger r@.to_multiset().count(p)]
            r@.to_multiset().count(p) == (if reported(open@, count as int, p) {
                1nat
            } else {
                0nat
            }),
        forall|p: u16| #![trigger r@.contains(p)] r@.contains(p) <==> reported(open@, count as int, p),
{
    broadcast use vstd::seq_lib::group_to_multiset_ensures;
    broadcast use vstd::multiset::group_multiset_axioms;

    let mut found: Vec<u16> = Vec::new();
    let mut i: u16 = 0;
    while i < count
        invariant
            1 <= count,
            i <= count,
            forall|p: u16|
                #![trigger found@.to_multiset().count(p)]
                found@.to_multiset().count(p) == (if found_by_first(open@, count as int, i as int, p) {
                    1nat
                } else {
                    0nat
                }),
        decreases count - i,
    {
        broadcast use vstd::seq_lib::group_to_multiset_ensures;
        broadcast use vstd::multiset::group_multiset_axioms;

        let ports = worker_ports(i, count);
        let mut k: usize = 0;
        while k < ports.len()
            invariant
                1 <= count,
                i < count,
                k <= ports@.len(),
                as_int_seq(ports@) == worker_ports_spec(i as int, count as int),
                forall|p: u16|
                    #![trigger found@.to_multiset().count(p)]
                    found@.to_multiset().count(p) == due_count(
                        open@,
                        count as int,
                        i as int,
                        ports@,
                        k as int,
                        p,
                    ),
            decreases ports@.len() - k,
        {
            broadcast use vstd::seq_lib::group_to_multiset_ensures;
            broadcast use vstd::multiset::group_multiset_axioms;

            let p = ports[k];
            proof {
                assert(as_int_seq(ports@)[k as int] == ports@[k as int] as int);
                assert(worker_ports_spec(i as int, count as int)[k as int] == p as int);
            }
            if contains_port(open, p) {
                proof {
                    assert(worker_visits(i as int, count as int, p as int)) by {
                        assert(worker_ports_spec(i as int, count as int)[k as int] == p as int);
                    }
                    assert(!found_by_first(open@, count as int, i as int, p)) by {
                        if exists|w: int| 0 <= w < i && worker_visits(w, count as int, p as int) {
                            let w = choose|w: int|
                                0 <= w < i && worker_visits(w, count as int, p as int);
                            lemma_partition_disjoint(count as int, w, i as int, p as int);
                        }
                    }
                    assert(!in_prefix(ports@, k as int, p)) by {
                        lemma_worker_ports_strictly_increasing(i as int, count as int);
                        assert forall|m: int| 0 <= m < k implies ports@[m] != p by {
                            assert(as_int_seq(ports@)[m] == ports@[m] as int);
                            assert(worker_ports_spec(i as int, count as int)[m] < worker_ports_spec(
                                i as int,
                                count as int,
                            )[k as int]);
                        }
                    }
                    assert(found@.to_multiset().count(p) == 0nat);
                }
                let ghost prev = found@;
                found.push(p);
                proof {
                    assert(found@.to_multiset() == prev.to_multiset().insert(p));
                    assert forall|q: u16|
                        #![trigger found@.to_multiset().count(q)]
                        found@.to_multiset().count(q) == due_count(
                            open@,
                            count as int,
                            i as int,
                            ports@,
                            k as int + 1,
                            q,
                        ) by {
                        assert(prev.to_multiset().count(q) == due_count(
                            open@,
                            count as int,
                            i as int,
                            ports@,
                            k as int,
                            q,
                        ));
                        if q == p {
                            assert(in_prefix(ports@, k as int + 1, q)) by {
                                assert(ports@[k as int] == q);
                            }
                            assert(found@.to_multiset().count(q) == 1nat);
                        } else {
                            assert(found@.to_multiset().count(q) == prev.to_multiset().count(q));
                            assert(in_prefix(ports@, k as int + 1, q) == in_prefix(
                                ports@,
                                k as int,
                                q,
                            )) by {
                                if in_prefix(ports@, k as int + 1, q) {
                                    let m = choose|m: int|
                                        0 <= m < k as int + 1 && ports@[m] == q;
                                    assert(ports@[k as int] == p);
                                    assert(0 <= m < k as int && ports@[m] == q);
                                }
                                if in_prefix(ports@, k as int, q) {
                                    let m = choose|m: int| 0 <= m < k as int && ports@[m] == q;
                                    assert(0 <= m < k as int + 1 && ports@[m] == q);
                                }
                            }
                        }
                    }
                }
            } else {
                proof {
                    assert forall|q: u16|
                        #![trigger found@.to_multiset().count(q)]
                        found@.to_multiset().count(q) == due_count(
                            open@,
                            count as int,
                            i as int,
                            ports@,
                            k as int + 1,
                            q,
                        ) by {
                        assert(found@.to_multiset().count(q) == due_count(
                            open@,
                            count as int,
                            i as int,
                            ports@,
                            k as int,
                            q,
                        ));
                        if q == p {
                            assert(!open@.contains(q));
                        } else {
                            assert(in_prefix(ports@, k as int + 1, q) == in_prefix(
                                ports@,
                                k as int,
                                q,
                            )) by {
                                if in_prefix(ports@, k as int + 1, q) {
                                    let m = choose|m: int|
                                        0 <= m < k as int + 1 && ports@[m] == q;
                                    assert(ports@[k as int] == p);
                                    assert(0 <= m < k as int && ports@[m] == q);
                                }
                                if in_prefix(ports@, k as int, q) {
                                    let m = choose|m: int| 0 <= m < k as int && ports@[m] == q;
                                    assert(0 <= m < k as int + 1 && ports@[m] == q);
                                }
                            }
                        }
                    }
                }
            }
            k = k + 1;
        }
        proof {
            assert forall|q: u16|
                #![trigger found@.to_multiset().count(q)]
                found@.to_multiset().count(q) == (if found_by_first(
                    open@,
                    count as int,
                    i as int + 1,
                    q,
                ) {
                    1nat
                } else {
                    0nat
                }) by {
                assert(found@.to_multiset().count(q) == due_count(
                    open@,
                    count as int,
                    i as int,
                    ports@,
                    k as int,
                    q,
                ));
                assert(in_prefix(ports@, k as int, q) == worker_visits(
                    i as int,
                    count as int,
                    q as int,
                )) by {
                    if in_prefix(ports@, k as int, q) {
                        let m = choose|m: int| 0 <= m < k as int && ports@[m] == q;
                        assert(as_int_seq(ports@)[m] == q as int);
                        assert(worker_ports_spec(i as int, count as int)[m] == q as int);
                    }
                    if worker_visits(i as int, count as int, q as int) {
                        let m = choose|m: int|
                            0 <= m < worker_ports_spec(i as int, count as int).len()
                                && worker_ports_spec(i as int, count as int)[m] == q as int;
                        assert(as_int_seq(ports@)[m] == q as int);
                        assert(ports@[m] == q);
                    }
                }
                if found_by_first(open@, count as int, i as int + 1, q) {
                    let w = choose|w: int|
                        0 <= w < i as int + 1 && worker_visits(w, count as int, q as int);
                    if w < i as int {
                        assert(found_by_first(open@, count as int, i as int, q));
                    } else {
                        assert(worker_visits(i as int, count as int, q as int));
                    }
                }
            }
        }
        i = i + 1;
    }
    proof {
        assert forall|q: u16|
            #![trigger found@.to_multiset().count(q)]
            found@.to_multiset().count(q) == (if reported(open@, count as int, q) {
                1nat
            } else {
                0nat
            }) by {
            if exists|w: int| 0 <= w < count && worker_visits(w, count as int, q as int) {
                let w = choose|w: int| 0 <= w < count && worker_visits(w, count as int, q as int);
                lemma_worker_visits_iff(w, count as int, q as int);
                lemma_partition_coverage(count as int, q as int);
            }
            if scanned(count as int, q as int) {
                lemma_partition_coverage(count as int, q as int);
            }
        }
    }
    sort_ports(&mut found);
    proof {
        assert forall|p: u16| #![trigger found@.contains(p)] found@.contains(p) <==> reported(
            open@,
            count as int,
            p,
        ) by {
            assert(found@.contains(p) <==> found@.to_multiset().count(p) > 0);
        }
    }
    found
}

} // verus!
