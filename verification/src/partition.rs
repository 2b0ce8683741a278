//! The stride partition of the port range.
//!
//! Worker `index` out of `count` probes ports `index + 1`, `index + 1 + count`,
//! `index + 1 + 2 * count`, ... and stops right after the first port within
//! `count` of the top of the range. The lemmas here pin down exactly which
//! ports each worker visits, that no port is visited by two workers, and that
//! together the workers cover the whole range up to `MAX_PORT - 1` (the top
//! port itself is reached only when every port has a worker of its own).

use vstd::arithmetic::div_mod::lemma_fundamental_div_mod;
use vstd::arithmetic::div_mod::lemma_mod_add_multiples_vanish;
use vstd::arithmetic::div_mod::lemma_mod_decreases;
use vstd::arithmetic::div_mod::lemma_mod_division_less_than_divisor;
use vstd::arithmetic::div_mod::lemma_mod_multiples_basic;
use vstd::arithmetic::div_mod::lemma_small_mod;
use vstd::prelude::*;

verus! {

/// The highest TCP port number.
pub const MAX_PORT: u16 = 65535;

/// The ports a worker visits from `start` on, advancing by `count` and
/// stopping right after the first port within `count` of `MAX_PORT`.
pub open spec fn ports_from(start: int, count: int) -> Seq<int>
    decreases MAX_PORT - start
        when 1 <= count && start <= MAX_PORT
{
    if MAX_PORT - start <= count {
        seq![start]
    } else {
        seq![start] + ports_from(start + count, count)
    }
}

/// The ports visited by worker `index` out of `count` workers.
pub open spec fn worker_ports_spec(index: int, count: int) -> Seq<int> {
    ports_from(index + 1, count)
}

/// Whether some worker out of `count` reaches port `p` at all: every port
/// below the top is reached, and the top port only when `count` is the whole
/// range, so that the worker that starts there visits it before stopping.
pub open spec fn scanned(count: int, p: int) -> bool {
    1 <= p <= MAX_PORT - 1 || (p == MAX_PORT && count == MAX_PORT)
}

/// Whether worker `index` out of `count` visits port `p`.
pub open spec fn worker_visits(index: int, count: int, p: int) -> bool {
    worker_ports_spec(index, count).contains(p)
}

/// A sequence of ports, read as mathematical integers.
pub open spec fn as_int_seq(s: Seq<u16>) -> Seq<int> {
    s.map_values(|x: u16| x as int)
}

/// The ports worker `index` out of `count` visits, in the order it tries
/// them: `index + 1`, then steps of `count`, stopping right after the first
/// port within `count` of the top. The loop provably terminates, so a worker
/// given a closed target always finishes and releases its channel handle.
pub fn worker_ports(index: u16, count: u16) -> (r: Vec<u16>)
    requires
        1 <= count,
        index < count,
    ensures
        as_int_seq(r@) == worker_ports_spec(index as int, count as int),
{
    let mut r: Vec<u16> = Vec::new();
    let mut port: u16 = index + 1;
    proof {
        assert(as_int_seq(r@) + ports_from(port as int, count as int) =~= worker_ports_spec(
            index as int,
            count as int,
        ));
    }
    while MAX_PORT - port > count
        invariant
            1 <= count <= MAX_PORT,
            1 <= port <= MAX_PORT,
            as_int_seq(r@) + ports_from(port as int, count as int) == worker_ports_spec(
                index as int,
                count as int,
            ),
        decreases MAX_PORT - port,
    {
        proof {
            assert(ports_from(port as int, count as int) == seq![port as int] + ports_from(
                port as int + count as int,
                count as int,
            ));
        }
        let ghost prev = r@;
        r.push(port);
        proof {
            assert(as_int_seq(r@) + ports_from(port as int + count as int, count as int)
                =~= as_int_seq(prev) + ports_from(port as int, count as int));
        }
        port = port + count;
    }
    proof {
        assert(ports_from(port as int, count as int) == seq![port as int]);
    }
    let ghost prev = r@;
    r.push(port);
    proof {
        assert(as_int_seq(r@) =~= as_int_seq(prev) + ports_from(port as int, count as int));
    }
    r
}

/// The `k`-th port a worker visits from `start` on is `start + k * count`.
pub proof fn lemma_ports_from_index(start: int, count: int)
    requires
        1 <= count,
        1 <= start <= MAX_PORT,
    ensures
        ports_from(start, count).len() >= 1,
        forall|k: int|
            0 <= k < ports_from(start, count).len() ==> ports_from(start, count)[k] == start + k
                * count,
    decreases MAX_PORT - start,
{
    if MAX_PORT - start <= count {
        assert(ports_from(start, count) == seq![start]);
        assert forall|k: int| 0 <= k < ports_from(start, count).len() implies ports_from(
            start,
            count,
        )[k] == start + k * count by {
            assert(k == 0);
            assert(ports_from(start, count)[0] == start);
        }
    } else {
        lemma_ports_from_index(start + count, count);
        assert(ports_from(start, count) == seq![start] + ports_from(start + count, count));
        assert forall|k: int| 0 <= k < ports_from(start, count).len() implies ports_from(
            start,
            count,
        )[k] == start + k * count by {
            if k == 0 {
                assert(ports_from(start, count)[0] == start);
            } else {
                assert(ports_from(start, count)[k] == ports_from(start + count, count)[k - 1]);
                assert((start + count) + (k - 1) * count == start + k * count) by (nonlinear_arith);
            }
        }
    }
}

/// A positive multiple of `c` is at least `c`.
proof fn lemma_positive_multiple_at_least(a: int, c: int)
    requires
        1 <= c,
        0 < a,
        a % c == 0,
    ensures
        a >= c,
{
    lemma_fundamental_div_mod(a, c);
    if a / c <= 0 {
        assert(c * (a / c) <= 0) by (nonlinear_arith)
            requires
                1 <= c,
                a / c <= 0,
        ;
    }
    assert(c * (a / c) >= c) by (nonlinear_arith)
        requires
            1 <= c,
            a / c >= 1,
    ;
}

/// Exactly which ports stand in `ports_from(start, count)`: the ports that
/// match the stride from `start`, up to but not including the top port --
/// except that the very first port is visited even when it is the top one.
pub proof fn lemma_ports_from_contains(start: int, count: int, p: int)
    requires
        1 <= count <= MAX_PORT,
        1 <= start <= MAX_PORT,
    ensures
        ports_from(start, count).contains(p) <==> (start <= p && (p - start) % count == 0 && (p
            == start || p < MAX_PORT)),
    decreases MAX_PORT - start,
{
    lemma_mod_multiples_basic(0, count);
    if MAX_PORT - start <= count {
        assert(ports_from(start, count) == seq![start]);
        assert(ports_from(start, count).contains(start)) by {
            assert(ports_from(start, count)[0] == start);
        }
        if start <= p && (p - start) % count == 0 && p != start && p < MAX_PORT {
            lemma_positive_multiple_at_least(p - start, count);
            assert(false);
        }
    } else {
        lemma_ports_from_contains(start + count, count, p);
        let rest = ports_from(start + count, count);
        let whole = ports_from(start, count);
        assert(whole == seq![start] + rest);
        assert(whole.contains(p) <==> (p == start || rest.contains(p))) by {
            if whole.contains(p) {
                let idx = choose|idx: int| 0 <= idx < whole.len() && whole[idx] == p;
                if idx > 0 {
                    assert(rest[idx - 1] == p);
                    assert(rest.contains(p));
                }
            }
            if p == start {
                assert(whole[0] == p);
            }
            if rest.contains(p) {
                let idx = choose|idx: int| 0 <= idx < rest.len() && rest[idx] == p;
                assert(whole[idx + 1] == p);
            }
        }
        lemma_mod_add_multiples_vanish(p - start - count, count);
        if start <= p && (p - start) % count == 0 && p != start {
            lemma_positive_multiple_at_least(p - start, count);
        }
    }
}

/// Which ports worker `index` out of `count` visits, in closed form.
pub proof fn lemma_worker_visits_iff(index: int, count: int, p: int)
    requires
        1 <= count <= MAX_PORT,
        0 <= index < count,
    ensures
        worker_visits(index, count, p) <==> (index + 1 <= p && (p - (index + 1)) % count == 0 && (
        p == index + 1 || p < MAX_PORT)),
{
    lemma_ports_from_contains(index + 1, count, p);
}

/// Each worker tries its ports in strictly ascending order, so no worker
/// ever tries the same port twice.
pub proof fn lemma_worker_ports_strictly_increasing(index: int, count: int)
    requires
        1 <= count <= MAX_PORT,
        0 <= index < count,
    ensures
        forall|a: int, b: int|
            0 <= a < b < worker_ports_spec(index, count).len() ==> worker_ports_spec(index, count)[a]
                < worker_ports_spec(index, count)[b],
{
    lemma_ports_from_index(index + 1, count);
    assert forall|a: int, b: int|
        0 <= a < b < worker_ports_spec(index, count).len() implies worker_ports_spec(index, count)[a]
        < worker_ports_spec(index, count)[b] by {
        assert(a * count < b * count) by (nonlinear_arith)
            requires
                1 <= count,
                a < b,
        ;
    }
}

/// Partition disjointness: no port is ever visited by two distinct workers.
pub proof fn lemma_partition_disjoint(count: int, i: int, j: int, p: int)
    requires
        1 <= count <= MAX_PORT,
        0 <= i < count,
        0 <= j < count,
        i != j,
    ensures
        !(worker_visits(i, count, p) && worker_visits(j, count, p)),
{
    if worker_visits(i, count, p) && worker_visits(j, count, p) {
        lemma_worker_visits_iff(i, count, p);
        lemma_worker_visits_iff(j, count, p);
        let a = p - (i + 1);
        let b = p - (j + 1);
        lemma_fundamental_div_mod(a, count);
        lemma_fundamental_div_mod(b, count);
        let d = a / count - b / count;
        assert(j - i == count * d) by (nonlinear_arith)
            requires
                a == count * (a / count),
                b == count * (b / count),
                d == a / count - b / count,
                a - b == j - i,
        ;
        if d == 0 {
            assert(false);
        } else if d >= 1 {
            assert(count * d >= count) by (nonlinear_arith)
                requires
                    1 <= count,
                    d >= 1,
            ;
            assert(false);
        } else {
            assert(count * d <= -count) by (nonlinear_arith)
                requires
                    1 <= count,
                    d <= -1,
            ;
            assert(false);
        }
    }
}

/// Partition coverage: a port is visited by some worker exactly when the
/// boundary policy reaches it, so the union of all the workers' strides is
/// the whole range below the top port, and the top port joins it only when
/// there are as many workers as ports.
pub proof fn lemma_partition_coverage(count: int, p: int)
    requires
        1 <= count <= MAX_PORT,
        1 <= p <= MAX_PORT,
    ensures
        (exists|i: int| 0 <= i < count && worker_visits(i, count, p)) <==> scanned(count, p),
{
    if exists|i: int| 0 <= i < count && worker_visits(i, count, p) {
        let i = choose|i: int| 0 <= i < count && worker_visits(i, count, p);
        lemma_worker_visits_iff(i, count, p);
        if p == MAX_PORT {
            assert(p == i + 1 || p < MAX_PORT);
            assert(i + 1 == MAX_PORT);
            assert(count == MAX_PORT);
        }
    }
    if scanned(count, p) {
        let i = (p - 1) % count;
        lemma_mod_division_less_than_divisor(p - 1, count);
        lemma_fundamental_div_mod(p - 1, count);
        assert(p - (i + 1) == count * ((p - 1) / count));
        lemma_mod_multiples_basic((p - 1) / count, count);
        assert((p - (i + 1)) % count == 0);
        lemma_mod_decreases((p - 1) as nat, count as nat);
        assert(i + 1 <= p);
        if p == MAX_PORT {
            assert(count == MAX_PORT);
            lemma_small_mod((p - 1) as nat, count as nat);
            assert(i + 1 == p);
        }
        lemma_worker_visits_iff(i, count, p);
        assert(worker_visits(i, count, p));
    }
}

} // verus!
