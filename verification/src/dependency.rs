//! Dependency resolution: a deterministic start order for a set of service
//! definitions, or a validation failure.
//!
//! The order is computed with Kahn's algorithm and lexicographic
//! tie-breaking: the initially ready services are queued sorted by name,
//! and every batch of services that become ready together is sorted by
//! name before it is appended to the queue.

use vstd::prelude::*;
use vstd::string::StringExecFns;

use crate::config::{knows_name, distinct_names, ServiceConfig};
use crate::lex::{lex_leq, lemma_lex_leq_total, lemma_lex_leq_trans, str_leq};

verus! {

/// Every dependency entry of every service names a service of the set.
pub open spec fn all_deps_known(ss: Seq<ServiceConfig>) -> bool {
    forall|i: int, j: int|
        0 <= i < ss.len() && 0 <= j < ss[i].depends_on@.len() ==> knows_name(
            ss,
            #[trigger] ss[i].depends_on@[j]@,
        )
}

/// Dependency entry `j` of service `i` is the first (by service, then by
/// entry) that names no service of the set.
pub open spec fn is_first_unknown_dep(ss: Seq<ServiceConfig>, i: int, j: int) -> bool {
    &&& 0 <= i < ss.len()
    &&& 0 <= j < ss[i].depends_on@.len()
    &&& !knows_name(ss, ss[i].depends_on@[j]@)
    &&& forall|i2: int, j2: int|
        0 <= i2 < ss.len() && 0 <= j2 < ss[i2].depends_on@.len() && (i2 < i || (i2 == i && j2 < j))
            ==> knows_name(ss, #[trigger] ss[i2].depends_on@[j2]@)
}

/// `a` stands strictly before `b` in `order`.
pub open spec fn placed_before(order: Seq<Seq<char>>, a: Seq<char>, b: Seq<char>) -> bool {
    exists|p: int, q: int| 0 <= p < q < order.len() && order[p] == a && order[q] == b
}

/// `order` lists each service name of the set exactly once.
pub open spec fn is_permutation_of_names(ss: Seq<ServiceConfig>, order: Seq<Seq<char>>) -> bool {
    &&& order.len() == ss.len()
    &&& order.no_duplicates()
    &&& forall|k: int| 0 <= k < order.len() ==> knows_name(ss, #[trigger] order[k])
    &&& forall|i: int| 0 <= i < ss.len() ==> order.contains(#[trigger] ss[i].name@)
}

/// Every service stands after each of its dependencies.
pub open spec fn respects_dependencies(ss: Seq<ServiceConfig>, order: Seq<Seq<char>>) -> bool {
    forall|i: int, j: int|
        0 <= i < ss.len() && 0 <= j < ss[i].depends_on@.len() ==> placed_before(
            order,
            #[trigger] ss[i].depends_on@[j]@,
            ss[i].name@,
        )
}

/// The service named `n` has a dependency that is itself named in `ns`.
pub open spec fn has_dependency_in(ss: Seq<ServiceConfig>, n: Seq<char>, ns: Seq<Seq<char>>) -> bool {
    exists|i: int, j: int|
        0 <= i < ss.len() && ss[i].name@ == n && 0 <= j < ss[i].depends_on@.len() && ns.contains(
            ss[i].depends_on@[j]@,
        )
}

/// A non-empty set of service names each of which depends on another name
/// of the set: no member can ever become ready, so none has a place in any
/// start order.
pub open spec fn cyclic_remainder(ss: Seq<ServiceConfig>, ns: Seq<Seq<char>>) -> bool {
    &&& ns.len() > 0
    &&& ns.no_duplicates()
    &&& forall|k: int| 0 <= k < ns.len() ==> knows_name(ss, #[trigger] ns[k])
    &&& forall|k: int| 0 <= k < ns.len() ==> has_dependency_in(ss, #[trigger] ns[k], ns)
}

/// The service named `n` can be brought up after finitely many rounds:
/// it is known, and every dependency can be brought up in fewer rounds.
pub open spec fn startable_within(ss: Seq<ServiceConfig>, n: Seq<char>, fuel: nat) -> bool
    decreases fuel,
{
    &&& knows_name(ss, n)
    &&& fuel > 0
    &&& forall|j: int|
        0 <= j < ss[service_index(ss, n)].depends_on@.len() ==> startable_within(
            ss,
            #[trigger] ss[service_index(ss, n)].depends_on@[j]@,
            (fuel - 1) as nat,
        )
}

/// The service named `n` has some place in a start order: its dependency
/// chain bottoms out instead of looping.
pub open spec fn startable(ss: Seq<ServiceConfig>, n: Seq<char>) -> bool {
    exists|fuel: nat| startable_within(ss, n, fuel)
}

/// The views of a list of names.
pub open spec fn name_views(names: Seq<String>) -> Seq<Seq<char>> {
    names.map_values(|s: String| s@)
}

/// Why no start order could be produced.
#[derive(Debug)]
pub enum ResolveError {
    /// `service` depends on `dependency`, which no service of the set is
    /// named after.
    UnknownDependency { service: String, dependency: String },
    /// The services named in `names` depend on one another in a cycle (or
    /// on a cycle); they can never be ordered.
    CircularDependency { names: Vec<String> },
}

/// The names joined with a comma and a space.
pub open spec fn joined_names(ns: Seq<Seq<char>>) -> Seq<char>
    decreases ns.len(),
{
    if ns.len() == 0 {
        Seq::empty()
    } else if ns.len() == 1 {
        ns[0]
    } else {
        joined_names(ns.drop_last()) + ", "@ + ns.last()
    }
}

impl ResolveError {
    /// A human-readable description of the failure, naming the services
    /// involved.
    pub fn message(&self) -> (r: String)
        ensures
            match self {
                ResolveError::UnknownDependency { service, dependency } => r@ == "service '"@
                    + service@ + "' depends on unknown service '"@ + dependency@ + "'"@,
                ResolveError::CircularDependency { names } => r@
                    == "circular dependency detected involving: "@ + joined_names(
                    name_views(names@),
                ),
            },
    {
        match self {
            ResolveError::UnknownDependency { service, dependency } => {
                let mut r = String::from_str("service '");
                r.append(service.as_str());
                r.append("' depends on unknown service '");
                r.append(dependency.as_str());
                r.append("'");
                r
            },
            ResolveError::CircularDependency { names } => {
                let mut r = String::from_str("circular dependency detected involving: ");
                let n = names.len();
                let mut i: usize = 0;
                while i < n
                    invariant
                        n == names@.len(),
                        i <= n,
                        r@ == "circular dependency detected involving: "@ + joined_names(
                            name_views(names@.take(i as int)),
                        ),
                    decreases n - i,
                {
                    if i > 0 {
                        r.append(", ");
                    }
                    r.append(names[i].as_str());
                    proof {
                        let prefix = name_views(names@.take(i as int));
                        let prefix1 = name_views(names@.take(i as int + 1));
                        assert(prefix1.drop_last() =~= prefix);
                        assert(prefix1.last() == names@[i as int]@);
                        if i == 0 {
                            assert(joined_names(prefix1) =~= names@[0]@);
                            assert(r@ =~= "circular dependency detected involving: "@
                                + joined_names(prefix1));
                        } else {
                            assert(joined_names(prefix1) == joined_names(prefix) + ", "@
                                + names@[i as int]@);
                            assert(r@ =~= "circular dependency detected involving: "@
                                + joined_names(prefix1));
                        }
                    }
                    i = i + 1;
                }
                proof {
                    assert(names@.take(n as int) =~= names@);
                }
                r
            },
        }
    }
}

/// Position of the service named `n` in the set.
pub open spec fn service_index(ss: Seq<ServiceConfig>, n: Seq<char>) -> int {
    choose|i: int| 0 <= i < ss.len() && ss[i].name@ == n
}

/// With distinct names, a name determines its service's position.
proof fn lemma_service_index_is(ss: Seq<ServiceConfig>, n: Seq<char>, i: int)
    requires
        distinct_names(ss),
        0 <= i < ss.len(),
        ss[i].name@ == n,
    ensures
        service_index(ss, n) == i,
        knows_name(ss, n),
{
    assert(knows_name(ss, n));
    let p = service_index(ss, n);
    assert(0 <= p < ss.len() && ss[p].name@ == n);
    if p < i {
        assert(ss[p].name@ != ss[i].name@);
    } else if i < p {
        assert(ss[i].name@ != ss[p].name@);
    }
}

/// The distinct positions held in `q`, as a set of integers.
spec fn position_set(q: Seq<usize>) -> Set<int> {
    q.map_values(|u: usize| u as int).to_set()
}

/// A duplicate-free sequence of positions below `n` has at most `n`
/// entries; with exactly `n` entries it holds every position, with fewer
/// it misses one.
proof fn lemma_nodup_bounded_positions(q: Seq<usize>, n: int)
    requires
        q.no_duplicates(),
        forall|p: int| 0 <= p < q.len() ==> (q[p] as int) < n,
        0 <= n,
    ensures
        q.len() <= n,
        q.len() == n ==> forall|w: int| 0 <= w < n ==> #[trigger] position_set(q).contains(w),
        q.len() < n ==> exists|w: int| 0 <= w < n && !(#[trigger] position_set(q).contains(w)),
{
    let m = q.map_values(|u: usize| u as int);
    assert(m.no_duplicates()) by {
        assert forall|a: int, b: int| 0 <= a < b < m.len() implies m[a] != m[b] by {
            assert(q[a] != q[b]);
        }
    }
    m.unique_seq_to_set();
    let s = m.to_set();
    let range = vstd::set_lib::set_int_range(0, n);
    vstd::set_lib::lemma_int_range(0, n);
    assert(s.subset_of(range)) by {
        assert forall|w: int| s.contains(w) implies range.contains(w) by {
            let p = choose|p: int| 0 <= p < m.len() && m[p] == w;
        }
    }
    vstd::set_lib::lemma_len_subset(s, range);
    if q.len() == n {
        assert forall|w: int| 0 <= w < n implies #[trigger] position_set(q).contains(w) by {
            if !m.contains(w) {
                assert(!s.contains(w));
                assert(s.subset_of(range.remove(w)));
                assert(range.remove(w).len() == n - 1);
                vstd::set_lib::lemma_len_subset(s, range.remove(w));
            }
            assert(s.contains(w));
        }
    }
    if q.len() < n {
        assert(exists|w: int| 0 <= w < n && !m.contains(w)) by {
            if forall|w: int| 0 <= w < n ==> #[trigger] m.contains(w) {
                assert forall|w: int| range.contains(w) implies s.contains(w) by {
                    assert(m.contains(w));
                    let p = choose|p: int| 0 <= p < m.len() && m[p] == w;
                }
                vstd::set_lib::lemma_len_subset(range, s);
            }
        }
        let w = choose|w: int| 0 <= w < n && !m.contains(w);
        assert(!s.contains(w));
        assert(0 <= w < n && !position_set(q).contains(w));
    }
}

/// Membership in the position set is membership in the sequence.
proof fn lemma_position_set_contains(q: Seq<usize>, w: int)
    ensures
        position_set(q).contains(w) <==> exists|t: int| 0 <= t < q.len() && (q[t] as int) == w,
{
    let m = q.map_values(|u: usize| u as int);
    if m.contains(w) {
        let t = choose|t: int| 0 <= t < m.len() && m[t] == w;
        assert(0 <= t < q.len() && (q[t] as int) == w);
    }
    if exists|t: int| 0 <= t < q.len() && (q[t] as int) == w {
        let t = choose|t: int| 0 <= t < q.len() && (q[t] as int) == w;
        assert(m[t] == w);
        assert(m.contains(w));
    }
}

/// The name at position `k` of the set.
pub open spec fn name_at(ss: Seq<ServiceConfig>, k: usize) -> Seq<char> {
    ss[k as int].name@
}

/// Sort service positions by service name, in the code-point order of
/// `lex_leq`. Keeps exactly the given positions.
fn sort_positions_by_name(services: &Vec<ServiceConfig>, v: &mut Vec<usize>)
    requires
        forall|k: int| 0 <= k < old(v)@.len() ==> (old(v)@[k] as int) < services@.len(),
        old(v)@.no_duplicates(),
    ensures
        final(v)@.len() == old(v)@.len(),
        final(v)@.no_duplicates(),
        forall|u: usize| final(v)@.contains(u) == old(v)@.contains(u),
        forall|k: int| 0 <= k < final(v)@.len() ==> (final(v)@[k] as int) < services@.len(),
        forall|p: int, q: int|
            #![trigger final(v)@[p], final(v)@[q]]
            0 <= p < q < final(v)@.len() ==> lex_leq(
                name_at(services@, final(v)@[p]),
                name_at(services@, final(v)@[q]),
            ),
{
    let ghost v0 = v@;
    let mut out: Vec<usize> = Vec::new();
    while v.len() > 0
        invariant
            out@.len() + v@.len() == v0.len(),
            out@.no_duplicates(),
            v@.no_duplicates(),
            forall|u: usize| #[trigger] out@.contains(u) ==> !v@.contains(u),
            forall|u: usize| v0.contains(u) == (out@.contains(u) || v@.contains(u)),
            forall|k: int| 0 <= k < out@.len() ==> (out@[k] as int) < services@.len(),
            forall|k: int| 0 <= k < v@.len() ==> (v@[k] as int) < services@.len(),
            forall|p: int, q: int|
                #![trigger out@[p], out@[q]]
                0 <= p < q < out@.len() ==> lex_leq(
                    name_at(services@, out@[p]),
                    name_at(services@, out@[q]),
                ),
            forall|p: int, q: int|
                #![trigger out@[p], v@[q]]
                0 <= p < out@.len() && 0 <= q < v@.len() ==> lex_leq(
                    name_at(services@, out@[p]),
                    name_at(services@, v@[q]),
                ),
        decreases v@.len(),
    {
        // find the position of the least remaining name
        proof {
            crate::lex::lemma_lex_leq_refl(name_at(services@, v@[0]));
        }
        let mut m: usize = 0;
        let mut k: usize = 1;
        while k < v.len()
            invariant
                0 < v@.len(),
                m < k,
                k <= v@.len(),
                forall|k: int| 0 <= k < v@.len() ==> (v@[k] as int) < services@.len(),
                forall|t: int|
                    0 <= t < k ==> lex_leq(
                        name_at(services@, v@[m as int]),
                        name_at(services@, #[trigger] v@[t]),
                    ),
            decreases v@.len() - k,
        {
            let a = v[k];
            let b = v[m];
            if str_leq(services[a].name.as_str(), services[b].name.as_str()) {
                proof {
                    assert forall|t: int|
                        0 <= t < k + 1 implies lex_leq(
                        name_at(services@, v@[k as int]),
                        name_at(services@, #[trigger] v@[t]),
                    ) by {
                        if t < k {
                            lemma_lex_leq_trans(
                                name_at(services@, v@[k as int]),
                                name_at(services@, v@[m as int]),
                                name_at(services@, v@[t]),
                            );
                        } else {
                            crate::lex::lemma_lex_leq_refl(name_at(services@, v@[k as int]));
                        }
                    }
                }
                m = k;
            } else {
                proof {
                    lemma_lex_leq_total(
                        name_at(services@, v@[k as int]),
                        name_at(services@, v@[m as int]),
                    );
                }
            }
            k = k + 1;
        }
        let ghost v_pre = v@;
        let ghost out_pre = out@;
        let x = v.remove(m);
        out.push(x);
        proof {
            assert(v_pre[m as int] == x);
            assert(v_pre.contains(x));
            assert(!out_pre.contains(x));
            // the removed element is gone: names are positions, held once
            assert(!v@.contains(x)) by {
                if v@.contains(x) {
                    let t = choose|t: int| 0 <= t < v@.len() && v@[t] == x;
                    if t < m {
                        assert(v_pre[t] == x);
                    } else {
                        assert(v_pre[t + 1] == x);
                    }
                }
            }
            assert forall|u: usize| #[trigger] v@.contains(u) implies v_pre.contains(u) by {
                let t = choose|t: int| 0 <= t < v@.len() && v@[t] == u;
                if t < m {
                    assert(v_pre[t] == u);
                } else {
                    assert(v_pre[t + 1] == u);
                }
            }
            assert forall|u: usize| v_pre.contains(u) && u != x implies v@.contains(u) by {
                let t = choose|t: int| 0 <= t < v_pre.len() && v_pre[t] == u;
                if t < m {
                    assert(v@[t] == u);
                } else {
                    assert(v@[t - 1] == u);
                }
            }
            assert(out@.no_duplicates()) by {
                assert forall|a: int, b: int| 0 <= a < b < out@.len() implies out@[a] != out@[b]
                    by {
                    if b == out@.len() - 1 {
                        assert(out@[a] == out_pre[a]);
                        assert(out_pre.contains(out_pre[a]));
                    }
                }
            }
            assert forall|u: usize| #[trigger] out@.contains(u) implies !v@.contains(u) by {
                let t = choose|t: int| 0 <= t < out@.len() && out@[t] == u;
                if t < out_pre.len() {
                    assert(out_pre.contains(u));
                    if v@.contains(u) {
                        assert(v_pre.contains(u));
                    }
                } else {
                    assert(u == x);
                }
            }
            assert(v@.no_duplicates()) by {
                assert forall|a: int, b: int| 0 <= a < b < v@.len() implies v@[a] != v@[b] by {
                    let pa = if a < m { a } else { a + 1 };
                    let pb = if b < m { b } else { b + 1 };
                    assert(v@[a] == v_pre[pa]);
                    assert(v@[b] == v_pre[pb]);
                }
            }
            assert forall|u: usize| v0.contains(u) implies (out@.contains(u) || v@.contains(
                u,
            )) by {
                if u == x {
                    assert(out@[out@.len() - 1] == x);
                } else if v_pre.contains(u) {
                    assert(v@.contains(u));
                } else {
                    assert(out_pre.contains(u));
                    let t = choose|t: int| 0 <= t < out_pre.len() && out_pre[t] == u;
                    assert(out@[t] == u);
                }
            }
            assert forall|u: usize| (out@.contains(u) || v@.contains(u)) implies v0.contains(
                u,
            ) by {
                if out@.contains(u) {
                    let t = choose|t: int| 0 <= t < out@.len() && out@[t] == u;
                    if t < out_pre.len() {
                        assert(out_pre[t] == u);
                    } else {
                        assert(u == x);
                        assert(v_pre.contains(u));
                    }
                }
            }
            assert forall|p: int, q: int|
                #![trigger out@[p], out@[q]]
                0 <= p < q < out@.len() implies lex_leq(
                name_at(services@, out@[p]),
                name_at(services@, out@[q]),
            ) by {
                if q == out@.len() - 1 {
                    assert(out@[q] == x);
                    assert(out_pre[p] == out@[p]);
                    assert(v_pre.contains(x));
                }
            }
            assert forall|p: int, q: int|
                #![trigger out@[p], v@[q]]
                0 <= p < out@.len() && 0 <= q < v@.len() implies lex_leq(
                name_at(services@, out@[p]),
                name_at(services@, v@[q]),
            ) by {
                let pq = if q < m { q } else { q + 1 };
                assert(v@[q] == v_pre[pq]);
                if p == out@.len() - 1 {
                    assert(out@[p] == x);
                } else {
                    assert(out_pre[p] == out@[p]);
                }
            }
        }
    }
    *v = out;
    proof {
        assert forall|u: usize| v@.contains(u) == v0.contains(u) by {}
    }
}

/// Being startable within some rounds is monotone in the round count.
proof fn lemma_startable_mono(ss: Seq<ServiceConfig>, n: Seq<char>, f1: nat, f2: nat)
    requires
        startable_within(ss, n, f1),
        f1 <= f2,
    ensures
        startable_within(ss, n, f2),
    decreases f1,
{
    assert forall|j: int|
        0 <= j < ss[service_index(ss, n)].depends_on@.len() implies startable_within(
        ss,
        #[trigger] ss[service_index(ss, n)].depends_on@[j]@,
        (f2 - 1) as nat,
    ) by {
        lemma_startable_mono(
            ss,
            ss[service_index(ss, n)].depends_on@[j]@,
            (f1 - 1) as nat,
            (f2 - 1) as nat,
        );
    }
}

fn find_service(services: &Vec<ServiceConfig>, name: &String) -> (r: Option<usize>)
    ensures
        match r {
            Some(i) => i < services@.len() && services@[i as int].name@ == name@,
            None => !knows_name(services@, name@),
        },
{
    let n = services.len();
    let mut i: usize = 0;
    while i < n
        invariant
            n == services@.len(),
            i <= n,
            forall|k: int| 0 <= k < i ==> services@[k].name@ != name@,
        decreases n - i,
    {
        if services[i].name == *name {
            return Some(i);
        }
        i = i + 1;
    }
    None
}

/// Every dependency of service `w` has its service placed.
spec fn ready(ss: Seq<ServiceConfig>, w: int, placed: Seq<bool>) -> bool {
    forall|j: int|
        0 <= j < ss[w].depends_on@.len() ==> placed[service_index(
            ss,
            #[trigger] ss[w].depends_on@[j]@,
        )]
}

/// Position `w` occurs among the first `h` entries of `q`.
spec fn in_prefix(q: Seq<usize>, h: int, w: int) -> bool {
    exists|t: int| 0 <= t < h && (q[t] as int) == w
}

/// The name `d` belongs to a service queued before position `p`.
spec fn name_in_prefix(ss: Seq<ServiceConfig>, q: Seq<usize>, p: int, d: Seq<char>) -> bool {
    exists|t: int| 0 <= t < p && ss[q[t] as int].name@ == d
}

/// Every dependency of the service at queue position `p` is named by a
/// service queued earlier.
spec fn deps_in_prefix(ss: Seq<ServiceConfig>, q: Seq<usize>, p: int) -> bool {
    forall|j: int|
        0 <= j < ss[q[p] as int].depends_on@.len() ==> name_in_prefix(
            ss,
            q,
            p,
            #[trigger] ss[q[p] as int].depends_on@[j]@,
        )
}

/// A queued service is startable: its dependencies stand earlier in the
/// queue and are startable in fewer rounds.
proof fn lemma_queue_member_startable(ss: Seq<ServiceConfig>, q: Seq<usize>, t: int)
    requires
        distinct_names(ss),
        forall|p: int| 0 <= p < q.len() ==> (q[p] as int) < ss.len(),
        forall|p: int| 0 <= p < q.len() ==> deps_in_prefix(ss, q, p),
        0 <= t < q.len(),
    ensures
        startable_within(ss, ss[q[t] as int].name@, (t + 1) as nat),
    decreases t,
{
    let w = q[t] as int;
    let n = ss[w].name@;
    lemma_service_index_is(ss, n, w);
    assert(deps_in_prefix(ss, q, t));
    assert forall|j: int|
        0 <= j < ss[w].depends_on@.len() implies startable_within(
        ss,
        #[trigger] ss[w].depends_on@[j]@,
        t as nat,
    ) by {
        assert(name_in_prefix(ss, q, t, ss[w].depends_on@[j]@));
        let t2 = choose|t2: int| 0 <= t2 < t && ss[q[t2] as int].name@ == ss[w].depends_on@[j]@;
        lemma_queue_member_startable(ss, q, t2);
        lemma_startable_mono(ss, ss[w].depends_on@[j]@, (t2 + 1) as nat, t as nat);
    }
}

/// A service left out of the finished queue is not startable in any
/// number of rounds: some dependency of it is also left out.
proof fn lemma_blocked_not_startable(
    ss: Seq<ServiceConfig>,
    q: Seq<usize>,
    enq: Seq<bool>,
    pl: Seq<bool>,
    w: int,
    fuel: nat,
)
    requires
        distinct_names(ss),
        all_deps_known(ss),
        enq.len() == ss.len(),
        pl.len() == ss.len(),
        forall|p: int| 0 <= p < q.len() ==> (q[p] as int) < ss.len(),
        forall|ww: usize| (ww as int) < ss.len() ==> (enq[ww as int] == q.contains(ww)),
        forall|ww: usize|
            (ww as int) < ss.len() ==> (pl[ww as int] == in_prefix(q, q.len() as int, ww as int)),
        forall|ww: usize| (ww as int) < ss.len() && ready(ss, ww as int, pl) ==> enq[ww as int],
        ss.len() <= usize::MAX,
        0 <= w < ss.len(),
        !enq[w],
    ensures
        !startable_within(ss, ss[w].name@, fuel),
    decreases fuel,
{
    if startable_within(ss, ss[w].name@, fuel) {
        let n = ss[w].name@;
        lemma_service_index_is(ss, n, w);
        let wu = w as usize;
        assert(wu as int == w);
        assert(!ready(ss, w, pl)) by {
            if ready(ss, w, pl) {
                assert(ready(ss, wu as int, pl));
                assert(enq[wu as int]);
            }
        }
        let j = choose|j: int|
            0 <= j < ss[w].depends_on@.len() && !pl[service_index(ss, ss[w].depends_on@[j]@)];
        let d = ss[w].depends_on@[j]@;
        let k = service_index(ss, d);
        assert(knows_name(ss, d));
        assert(0 <= k < ss.len() && ss[k].name@ == d);
        let ku = k as usize;
        assert(ku as int == k);
        assert(!q.contains(ku)) by {
            if q.contains(ku) {
                let t = choose|t: int| 0 <= t < q.len() && q[t] == ku;
                assert((q[t] as int) == k);
                assert(in_prefix(q, q.len() as int, k));
                assert(pl[ku as int]);
            }
        }
        assert(enq[ku as int] == q.contains(ku));
        assert(!enq[k]);
        assert(startable_within(ss, d, (fuel - 1) as nat));
        lemma_blocked_not_startable(ss, q, enq, pl, k, (fuel - 1) as nat);
    }
}

fn depends_on(svc: &ServiceConfig, name: &String) -> (r: bool)
    ensures
        r == svc.dep_views().contains(name@),
{
    let n = svc.depends_on.len();
    let mut j: usize = 0;
    while j < n
        invariant
            n == svc.depends_on@.len(),
            j <= n,
            forall|t: int| 0 <= t < j ==> svc.depends_on@[t]@ != name@,
        decreases n - j,
    {
        if svc.depends_on[j] == *name {
            proof {
                assert(svc.dep_views()[j as int] == name@);
            }
            return true;
        }
        j = j + 1;
    }
    proof {
        if svc.dep_views().contains(name@) {
            let t = choose|t: int| 0 <= t < svc.dep_views().len() && svc.dep_views()[t] == name@;
            assert(svc.depends_on@[t]@ == name@);
        }
    }
    false
}

#[verifier::loop_isolation(false)]
fn all_deps_placed(services: &Vec<ServiceConfig>, w: usize, placed: &Vec<bool>) -> (r: bool)
    requires
        distinct_names(services@),
        w < services@.len(),
        placed@.len() == services@.len(),
        forall|j: int|
            0 <= j < services@[w as int].depends_on@.len() ==> knows_name(
                services@,
                #[trigger] services@[w as int].depends_on@[j]@,
            ),
    ensures
        r == ready(services@, w as int, placed@),
{
    let deps_len = services[w].depends_on.len();
    let mut j: usize = 0;
    while j < deps_len
        invariant
            deps_len == services@[w as int].depends_on@.len(),
            j <= deps_len,
            forall|t: int|
                0 <= t < j ==> placed@[service_index(
                    services@,
                    #[trigger] services@[w as int].depends_on@[t]@,
                )],
        decreases deps_len - j,
    {
        match find_service(services, &services[w].depends_on[j]) {
            None => {
                proof {
                    assert(knows_name(services@, services@[w as int].depends_on@[j as int]@));
                    assert(false);
                }
                return false;
            },
            Some(k) => {
                proof {
                    lemma_service_index_is(
                        services@,
                        services@[w as int].depends_on@[j as int]@,
                        k as int,
                    );
                }
                if !placed[k] {
                    return false;
                }
            },
        }
        j = j + 1;
    }
    true
}

/// Set one flag of a flag table.
fn set_flag(flags: &mut Vec<bool>, i: usize)
    requires
        i < old(flags)@.len(),
    ensures
        final(flags)@ == old(flags)@.update(i as int, true),
{
    let ghost f0 = flags@;
    flags.remove(i);
    flags.insert(i, true);
    proof {
        assert(flags@ =~= f0.update(i as int, true));
    }
}

/// Compute a valid start order for the services.
///
/// Every name appears exactly once, each strictly after all of the
/// services it depends on. Services that become ready together are queued
/// in lexicographic name order, so the result is reproducible.
///
/// Fails with `UnknownDependency` exactly when some dependency entry
/// names no service of the set (reporting the first such entry), and with
/// `CircularDependency` when every dependency is known but the relation
/// has a cycle, listing exactly the names that no order can place.
#[verifier::loop_isolation(false)]
#[verifier::rlimit(100)]
pub fn resolve_start_order(services: &Vec<ServiceConfig>) -> (r: Result<
    Vec<String>,
    ResolveError,
>)
    requires
        distinct_names(services@),
        forall|i: int| 0 <= i < services@.len() ==> (#[trigger] services@[i]).wf(),
    ensures
        match r {
            Ok(order) => is_permutation_of_names(services@, name_views(order@))
                && respects_dependencies(services@, name_views(order@)),
            Err(ResolveError::UnknownDependency { service, dependency }) => exists|i: int, j: int|
                is_first_unknown_dep(services@, i, j) && service@ == services@[i].name@
                    && dependency@ == #[trigger] services@[i].depends_on@[j]@,
            Err(ResolveError::CircularDependency { names }) => all_deps_known(services@)
                && cyclic_remainder(services@, name_views(names@)) && (forall|i: int|
                0 <= i < services@.len() ==> (#[trigger] startable(services@, services@[i].name@)
                    <==> !name_views(names@).contains(services@[i].name@))),
        },
        (r matches Err(ResolveError::UnknownDependency { .. })) == !all_deps_known(services@),
{
    let ghost ss = services@;
    let n = services.len();

    // Validation: every dependency entry must name a known service.
    let mut i: usize = 0;
    while i < n
        invariant
            i <= n,
            forall|i2: int, j2: int|
                0 <= i2 < i && 0 <= j2 < ss[i2].depends_on@.len() ==> knows_name(
                    ss,
                    #[trigger] ss[i2].depends_on@[j2]@,
                ),
        decreases n - i,
    {
        let deps_len = services[i].depends_on.len();
        let mut j: usize = 0;
        while j < deps_len
            invariant
                j <= deps_len,
                forall|j2: int|
                    0 <= j2 < j ==> knows_name(ss, #[trigger] ss[i as int].depends_on@[j2]@),
            decreases deps_len - j,
        {
            if find_service(services, &services[i].depends_on[j]).is_none() {
                proof {
                    assert(is_first_unknown_dep(ss, i as int, j as int));
                }
                return Err(ResolveError::UnknownDependency {
                    service: services[i].name.clone(),
                    dependency: services[i].depends_on[j].clone(),
                });
            }
            j = j + 1;
        }
        i = i + 1;
    }
    assert(all_deps_known(ss));

    // The initially ready services: those with no dependencies, by name.
    let mut queue: Vec<usize> = Vec::new();
    let mut enqueued: Vec<bool> = vec![false; n];
    let mut w0: usize = 0;
    while w0 < n
        invariant
            w0 <= n,
            enqueued@.len() == n,
            queue@.no_duplicates(),
            forall|p: int| 0 <= p < queue@.len() ==> (queue@[p] as int) < w0,
            forall|ww: usize| ww < n ==> (enqueued@[ww as int] == queue@.contains(ww)),
            forall|ww: usize|
                ww < w0 && ss[ww as int].depends_on@.len() == 0 ==> enqueued@[ww as int],
            forall|p: int| 0 <= p < queue@.len() ==> ss[queue@[p] as int].depends_on@.len() == 0,
        decreases n - w0,
    {
        if services[w0].depends_on.len() == 0 {
            let ghost q0 = queue@;
            queue.push(w0);
            set_flag(&mut enqueued, w0);
            proof {
                assert forall|ww: usize| ww < n implies (enqueued@[ww as int] == queue@.contains(
                    ww,
                )) by {
                    if ww == w0 {
                        assert(queue@[queue@.len() - 1] == w0);
                    } else {
                        if queue@.contains(ww) {
                            let t = choose|t: int| 0 <= t < queue@.len() && queue@[t] == ww;
                            assert(t < q0.len());
                            assert(q0[t] == ww);
                        }
                        if q0.contains(ww) {
                            let t = choose|t: int| 0 <= t < q0.len() && q0[t] == ww;
                            assert(queue@[t] == ww);
                        }
                    }
                }
                assert(queue@.no_duplicates()) by {
                    assert forall|a: int, b: int|
                        0 <= a < b < queue@.len() implies queue@[a] != queue@[b] by {
                        if b == queue@.len() - 1 {
                            assert((queue@[a] as int) < w0 as int);
                        }
                    }
                }
            }
        }
        w0 = w0 + 1;
    }
    sort_positions_by_name(services, &mut queue);
    proof {
        assert forall|p: int|
            0 <= p < queue@.len() implies ss[queue@[p] as int].depends_on@.len() == 0 by {
            assert(queue@.contains(queue@[p]));
        }
        lemma_nodup_bounded_positions(queue@, n as int);
    }

    // Kahn's algorithm: place the head of the queue, then enqueue the
    // services its placement made ready, sorted by name.
    let mut placed: Vec<bool> = vec![false; n];
    let mut order: Vec<String> = Vec::new();
    let mut head: usize = 0;
    proof {
        assert forall|ww: usize| ww < n implies (enqueued@[ww as int] == queue@.contains(ww)) by {
        }
        assert forall|ww: usize|
            ww < n && ready(ss, ww as int, placed@) implies enqueued@[ww as int] by {
            if ss[ww as int].depends_on@.len() > 0 {
                let k = service_index(ss, ss[ww as int].depends_on@[0]@);
                assert(knows_name(ss, ss[ww as int].depends_on@[0]@));
                assert(0 <= k < n);
                assert(!placed@[k]);
                assert(!ready(ss, ww as int, placed@));
            }
        }
        assert forall|ww: usize| ww < n implies (placed@[ww as int] == in_prefix(
            queue@,
            0,
            ww as int,
        )) by {
        }
    }
    while head < queue.len()
        invariant
            head <= queue@.len(),
            queue@.len() <= n,
            placed@.len() == n,
            enqueued@.len() == n,
            order@.len() == head,
            queue@.no_duplicates(),
            forall|p: int| 0 <= p < queue@.len() ==> (queue@[p] as int) < n,
            forall|ww: usize| ww < n ==> (enqueued@[ww as int] == queue@.contains(ww)),
            forall|ww: usize|
                ww < n ==> (placed@[ww as int] == in_prefix(queue@, head as int, ww as int)),
            forall|t: int| 0 <= t < head ==> order@[t]@ == ss[queue@[t] as int].name@,
            forall|p: int| 0 <= p < queue@.len() ==> deps_in_prefix(ss, queue@, p),
            forall|ww: usize|
                ww < n && ready(ss, ww as int, placed@) ==> enqueued@[ww as int],
        decreases n - head,
    {
        let u = queue[head];
        let ghost placed0 = placed@;
        head = head + 1;
        set_flag(&mut placed, u);
        order.push(services[u].name.clone());
        proof {
            assert forall|ww: usize|
                ww < n implies (placed@[ww as int] == in_prefix(queue@, head as int, ww as int)) by {
                if ww == u {
                    assert(queue@[head - 1] == u);
                } else {
                    if in_prefix(queue@, head as int, ww as int) {
                        let t = choose|t: int|
                            0 <= t < head && (queue@[t] as int) == ww as int;
                        assert(t != head - 1);
                        assert(in_prefix(queue@, head as int - 1, ww as int));
                    }
                    if in_prefix(queue@, head as int - 1, ww as int) {
                        let t = choose|t: int|
                            0 <= t < head - 1 && (queue@[t] as int) == ww as int;
                        assert(in_prefix(queue@, head as int, ww as int));
                    }
                }
            }
        }
        // which services has this placement made ready?
        let mut batch: Vec<usize> = Vec::new();
        let mut w: usize = 0;
        while w < n
            invariant
                w <= n,
                batch@.no_duplicates(),
                forall|b: int| 0 <= b < batch@.len() ==> (batch@[b] as int) < w,
                forall|b: int| 0 <= b < batch@.len() ==> !enqueued@[batch@[b] as int],
                forall|b: int| 0 <= b < batch@.len() ==> ready(ss, batch@[b] as int, placed@),
                forall|ww: usize|
                    ww < w && !enqueued@[ww as int] && ready(ss, ww as int, placed@)
                        ==> batch@.contains(ww),
            decreases n - w,
        {
            if !enqueued[w] {
                let dep_on_u = depends_on(&services[w], &services[u].name);
                let rdy = all_deps_placed(services, w, &placed);
                if dep_on_u && rdy {
                    let ghost batch0 = batch@;
                    batch.push(w);
                    proof {
                        assert(batch@[batch@.len() - 1] == w);
                        assert(batch@.contains(w));
                        assert forall|ww: usize| batch0.contains(ww) implies batch@.contains(
                            ww,
                        ) by {
                            let t = choose|t: int| 0 <= t < batch0.len() && batch0[t] == ww;
                            assert(batch@[t] == ww);
                        }
                        assert(batch@.no_duplicates()) by {
                            assert forall|a: int, b: int|
                                0 <= a < b < batch@.len() implies batch@[a] != batch@[b] by {
                                if b == batch@.len() - 1 {
                                    assert((batch@[a] as int) < w as int);
                                }
                            }
                        }
                    }
                } else {
                    proof {
                        if ready(ss, w as int, placed@) {
                            // w was already ready before this placement,
                            // so it would have been enqueued earlier.
                            assert(!dep_on_u);
                            assert(!services@[w as int].dep_views().contains(ss[u as int].name@));
                            assert(ready(ss, w as int, placed0)) by {
                                assert forall|j: int|
                                    0 <= j < ss[w as int].depends_on@.len() implies placed0[
                                service_index(ss, #[trigger] ss[w as int].depends_on@[j]@)] by {
                                    let d = ss[w as int].depends_on@[j]@;
                                    let k = service_index(ss, d);
                                    assert(knows_name(ss, d));
                                    assert(0 <= k < ss.len() && ss[k].name@ == d);
                                    if k == u as int {
                                        assert(services@[w as int].dep_views()[j] == d);
                                        assert(services@[w as int].dep_views().contains(
                                            ss[u as int].name@,
                                        ));
                                        assert(false);
                                    }
                                    assert(placed@[k] == placed0[k]);
                                    assert(placed@[k]);
                                }
                            }
                            assert(enqueued@[w as int]);
                            assert(false);
                        }
                    }
                }
            }
            w = w + 1;
        }
        let ghost batch_pre = batch@;
        sort_positions_by_name(services, &mut batch);
        proof {
            assert forall|t: int|
                0 <= t < batch@.len() implies !enqueued@[batch@[t] as int] && ready(
                ss,
                batch@[t] as int,
                placed@,
            ) by {
                assert(batch@.contains(batch@[t]));
                assert(batch_pre.contains(batch@[t]));
                let t0 = choose|t0: int| 0 <= t0 < batch_pre.len() && batch_pre[t0] == batch@[t];
            }
            assert forall|ww: usize|
                ww < n && ready(ss, ww as int, placed@) && !enqueued@[ww as int] implies exists|
                    t: int,
                |
                    0 <= t < batch@.len() && batch@[t] == ww by {
                assert(batch_pre.contains(ww));
                assert(batch@.contains(ww));
                let t = choose|t: int| 0 <= t < batch@.len() && batch@[t] == ww;
            }
        }
        // append the newly ready services in name order
        let ghost batch_s = batch@;
        let mut b: usize = 0;
        while b < batch.len()
            invariant
                b <= batch@.len(),
                batch@ == batch_s,
                queue@.len() <= n,
                head <= queue@.len(),
                enqueued@.len() == n,
                queue@.no_duplicates(),
                forall|p: int| 0 <= p < queue@.len() ==> (queue@[p] as int) < n,
                forall|ww: usize| ww < n ==> (enqueued@[ww as int] == queue@.contains(ww)),
                forall|ww: usize|
                    ww < n ==> (placed@[ww as int] == in_prefix(queue@, head as int, ww as int)),
                forall|t: int| 0 <= t < head ==> order@[t]@ == ss[queue@[t] as int].name@,
                forall|p: int| 0 <= p < queue@.len() ==> deps_in_prefix(ss, queue@, p),
                batch@.no_duplicates(),
                forall|t: int| 0 <= t < batch@.len() ==> (batch@[t] as int) < n,
                forall|t: int| b <= t < batch@.len() ==> !enqueued@[batch@[t] as int],
                forall|t: int| 0 <= t < batch@.len() ==> ready(ss, batch@[t] as int, placed@),
                forall|ww: usize|
                    ww < n && ready(ss, ww as int, placed@) ==> (enqueued@[ww as int] || exists|t: int|
                        b <= t < batch@.len() && batch@[t] == ww),
            decreases batch@.len() - b,
    {
            let x = batch[b];
            let ghost q0 = queue@;
            queue.push(x);
            set_flag(&mut enqueued, x);
            proof {
                assert(queue@[queue@.len() - 1] == x);
                assert(queue@.no_duplicates()) by {
                    assert forall|a2: int, b2: int|
                        0 <= a2 < b2 < queue@.len() implies queue@[a2] != queue@[b2] by {
                        if b2 == queue@.len() - 1 {
                            assert(q0.contains(q0[a2]) == false || true);
                            if queue@[a2] == x {
                                assert(q0[a2] == x);
                                assert(q0.contains(x));
                                assert(enqueued@.len() == n);
                            }
                        }
                    }
                }
                lemma_nodup_bounded_positions(queue@, n as int);
                assert forall|ww: usize| ww < n implies (enqueued@[ww as int] == queue@.contains(
                    ww,
                )) by {
                    if ww == x {
                        assert(queue@[queue@.len() - 1] == x);
                    } else {
                        if queue@.contains(ww) {
                            let t = choose|t: int| 0 <= t < queue@.len() && queue@[t] == ww;
                            assert(t < q0.len());
                            assert(q0[t] == ww);
                        }
                        if q0.contains(ww) {
                            let t = choose|t: int| 0 <= t < q0.len() && q0[t] == ww;
                            assert(queue@[t] == ww);
                        }
                    }
                }
                assert forall|ww: usize|
                    ww < n implies (placed@[ww as int] == in_prefix(
                    queue@,
                    head as int,
                    ww as int,
                )) by {
                    if in_prefix(queue@, head as int, ww as int) {
                        let t = choose|t: int| 0 <= t < head && (queue@[t] as int) == ww as int;
                        assert(q0[t] == queue@[t]);
                        assert(in_prefix(q0, head as int, ww as int));
                    }
                    if in_prefix(q0, head as int, ww as int) {
                        let t = choose|t: int| 0 <= t < head && (q0[t] as int) == ww as int;
                        assert(queue@[t] == q0[t]);
                        assert(in_prefix(queue@, head as int, ww as int));
                    }
                }
                assert forall|p: int| 0 <= p < queue@.len() implies deps_in_prefix(
                    ss,
                    queue@,
                    p,
                ) by {
                    if p < queue@.len() - 1 {
                        assert(deps_in_prefix(ss, q0, p));
                        assert forall|j: int|
                            0 <= j < ss[queue@[p] as int].depends_on@.len() implies name_in_prefix(
                            ss,
                            queue@,
                            p,
                            #[trigger] ss[queue@[p] as int].depends_on@[j]@,
                        ) by {
                            assert(name_in_prefix(ss, q0, p, ss[q0[p] as int].depends_on@[j]@));
                            let t = choose|t: int|
                                0 <= t < p && ss[q0[t] as int].name@ == ss[q0[p] as int]
                                    .depends_on@[j]@;
                            assert(queue@[t] == q0[t]);
                        }
                    } else {
                        // the new entry: each dependency is placed, so its
                        // service stands in the dequeued prefix
                        assert(ready(ss, x as int, placed@));
                        assert forall|j: int|
                            0 <= j < ss[x as int].depends_on@.len() implies name_in_prefix(
                            ss,
                            queue@,
                            p,
                            #[trigger] ss[x as int].depends_on@[j]@,
                        ) by {
                            let d = ss[x as int].depends_on@[j]@;
                            let k = service_index(ss, d);
                            assert(knows_name(ss, d));
                            assert(placed@[k]);
                            assert(0 <= k < n);
                            assert(in_prefix(queue@, head as int, k));
                            let t = choose|t: int| 0 <= t < head && (queue@[t] as int) == k;
                            assert(ss[queue@[t] as int].name@ == d);
                        }
                    }
                }
            }
            b = b + 1;
        }
    }

    if queue.len() == n {
        proof {
            lemma_nodup_bounded_positions(queue@, n as int);
            let ov = name_views(order@);
            assert(ov.len() == n);
            assert forall|k: int| 0 <= k < ov.len() implies knows_name(ss, #[trigger] ov[k]) by {
                assert(ov[k] == ss[queue@[k] as int].name@);
            }
            assert(ov.no_duplicates()) by {
                assert forall|a: int, b2: int| 0 <= a < b2 < ov.len() implies ov[a] != ov[b2] by {
                    assert(ov[a] == ss[queue@[a] as int].name@);
                    assert(ov[b2] == ss[queue@[b2] as int].name@);
                    assert(queue@[a] != queue@[b2]);
                }
            }
            assert forall|i2: int| 0 <= i2 < ss.len() implies ov.contains(#[trigger] ss[i2].name@) by {
                assert(position_set(queue@).contains(i2));
                lemma_position_set_contains(queue@, i2);
                let t = choose|t: int| 0 <= t < queue@.len() && (queue@[t] as int) == i2;
                assert(ov[t] == ss[i2].name@);
            }
            assert forall|i2: int, j2: int|
                0 <= i2 < ss.len() && 0 <= j2 < ss[i2].depends_on@.len() implies placed_before(
                ov,
                #[trigger] ss[i2].depends_on@[j2]@,
                ss[i2].name@,
            ) by {
                assert(position_set(queue@).contains(i2));
                lemma_position_set_contains(queue@, i2);
                let tq = choose|t: int| 0 <= t < queue@.len() && (queue@[t] as int) == i2;
                assert(deps_in_prefix(ss, queue@, tq));
                let d = ss[i2].depends_on@[j2]@;
                assert(name_in_prefix(ss, queue@, tq, d));
                let tp = choose|t: int| 0 <= t < tq && ss[queue@[t] as int].name@ == d;
                assert(ov[tp] == d);
                assert(ov[tq] == ss[i2].name@);
            }
        }
        return Ok(order);
    }

    // some services could never become ready: they wait on one another
    let mut names: Vec<String> = Vec::new();
    let ghost mut srcs: Seq<int> = Seq::empty();
    let mut w2: usize = 0;
    while w2 < n
        invariant
            w2 <= n,
            srcs.len() == names@.len(),
            forall|k: int|
                0 <= k < srcs.len() ==> 0 <= #[trigger] srcs[k] < w2 && !enqueued@[srcs[k]]
                    && names@[k]@ == ss[srcs[k]].name@,
            forall|k1: int, k2: int| 0 <= k1 < k2 < srcs.len() ==> srcs[k1] < srcs[k2],
            forall|ww: int|
                0 <= ww < w2 && !enqueued@[ww] ==> name_views(names@).contains(
                    #[trigger] ss[ww].name@,
                ),
        decreases n - w2,
    {
        if !enqueued[w2] {
            let ghost names0 = names@;
            names.push(services[w2].name.clone());
            proof {
                srcs = srcs.push(w2 as int);
                assert(names@[names@.len() - 1]@ == ss[w2 as int].name@);
                assert forall|ww: int|
                    0 <= ww < w2 + 1 && !enqueued@[ww] implies name_views(names@).contains(
                    #[trigger] ss[ww].name@,
                ) by {
                    if ww < w2 {
                        assert(name_views(names0).contains(ss[ww].name@));
                        let k = choose|k: int|
                            0 <= k < names0.len() && name_views(names0)[k] == ss[ww].name@;
                        assert(name_views(names@)[k] == ss[ww].name@);
                    } else {
                        assert(name_views(names@)[names@.len() - 1] == ss[ww].name@);
                    }
                }
            }
        }
        w2 = w2 + 1;
    }
    proof {
        let ns = name_views(names@);
        assert(head == queue@.len());
        assert(queue@.len() < n);
        lemma_nodup_bounded_positions(queue@, n as int);
        let missing = choose|ww: int| 0 <= ww < n && !position_set(queue@).contains(ww);
        lemma_position_set_contains(queue@, missing);
        assert(!queue@.contains(missing as usize)) by {
            if queue@.contains(missing as usize) {
                let t = choose|t: int| 0 <= t < queue@.len() && queue@[t] == missing as usize;
                assert((queue@[t] as int) == missing);
            }
        }
        assert(!enqueued@[missing]);
        assert(ns.contains(ss[missing].name@));
        assert(ns.len() > 0);
        assert(ns.no_duplicates()) by {
            assert forall|a: int, b2: int| 0 <= a < b2 < ns.len() implies ns[a] != ns[b2] by {
                assert(srcs[a] < srcs[b2]);
                assert(ss[srcs[a]].name@ != ss[srcs[b2]].name@);
            }
        }
        assert forall|k: int| 0 <= k < ns.len() implies knows_name(ss, #[trigger] ns[k]) by {
            let ww = srcs[k];
            assert(ss[ww].name@ == ns[k]);
        }
        assert forall|k: int| 0 <= k < ns.len() implies has_dependency_in(
            ss,
            #[trigger] ns[k],
            ns,
        ) by {
            let ww = srcs[k];
            assert(0 <= ww < n && !enqueued@[ww] && names@[k]@ == ss[ww].name@);
            assert(!ready(ss, ww, placed@));
            let j = choose|j: int|
                0 <= j < ss[ww].depends_on@.len() && !placed@[service_index(
                    ss,
                    ss[ww].depends_on@[j]@,
                )];
            let d = ss[ww].depends_on@[j]@;
            let k2 = service_index(ss, d);
            assert(knows_name(ss, d));
            assert(0 <= k2 < n && ss[k2].name@ == d);
            assert(!in_prefix(queue@, head as int, k2));
            assert(!queue@.contains(k2 as usize)) by {
                if queue@.contains(k2 as usize) {
                    let t = choose|t: int| 0 <= t < queue@.len() && queue@[t] == k2 as usize;
                    assert(in_prefix(queue@, head as int, k2));
                }
            }
            assert(!enqueued@[k2]);
            assert(ns.contains(ss[k2].name@));
            assert(ns.contains(d));
            assert(ss[ww].name@ == ns[k]);
        }
        assert(cyclic_remainder(ss, ns));
        // the listed names are exactly the services that can never start
        assert forall|i2: int|
            0 <= i2 < ss.len() implies (#[trigger] startable(ss, ss[i2].name@) <==> !ns.contains(
            ss[i2].name@,
        )) by {
            if enqueued@[i2] {
                assert((i2 as usize) as int == i2);
                assert(enqueued@[(i2 as usize) as int] == queue@.contains(i2 as usize));
                assert(queue@.contains(i2 as usize));
                let t = choose|t: int| 0 <= t < queue@.len() && queue@[t] == i2 as usize;
                lemma_queue_member_startable(ss, queue@, t);
                assert(startable_within(ss, ss[i2].name@, (t + 1) as nat));
                assert(startable(ss, ss[i2].name@));
                assert(!ns.contains(ss[i2].name@)) by {
                    if ns.contains(ss[i2].name@) {
                        let k = choose|k: int| 0 <= k < ns.len() && ns[k] == ss[i2].name@;
                        let ww = srcs[k];
                        assert(!enqueued@[ww] && ss[ww].name@ == ss[i2].name@);
                        if ww < i2 {
                            assert(ss[ww].name@ != ss[i2].name@);
                        } else if i2 < ww {
                            assert(ss[i2].name@ != ss[ww].name@);
                        }
                    }
                }
            } else {
                assert(ns.contains(ss[i2].name@));
                assert forall|fuel: nat|
                    !(#[trigger] startable_within(ss, ss[i2].name@, fuel)) by {
                    lemma_blocked_not_startable(ss, queue@, enqueued@, placed@, i2, fuel);
                }
                assert(!startable(ss, ss[i2].name@));
            }
        }
    }
    Err(ResolveError::CircularDependency { names })
}

/// Index of a least value of a non-empty sequence of integers.
spec fn min_index(vals: Seq<int>) -> int
    decreases vals.len(),
{
    if vals.len() <= 1 {
        0
    } else {
        let m = min_index(vals.drop_last());
        if vals.last() < vals[m] {
            vals.len() - 1
        } else {
            m
        }
    }
}

proof fn lemma_min_index(vals: Seq<int>)
    requires
        vals.len() > 0,
    ensures
        0 <= min_index(vals) < vals.len(),
        forall|k: int| 0 <= k < vals.len() ==> vals[min_index(vals)] <= #[trigger] vals[k],
    decreases vals.len(),
{
    if vals.len() > 1 {
        lemma_min_index(vals.drop_last());
        let m = min_index(vals.drop_last());
        assert forall|k: int|
            0 <= k < vals.len() implies vals[min_index(vals)] <= #[trigger] vals[k] by {
            if k < vals.len() - 1 {
                assert(vals.drop_last()[m] <= vals.drop_last()[k]);
            }
        }
    }
}

/// No start order can exist for a configuration set with a cyclic
/// remainder: any order that lists every name once would have to place
/// some member of the remainder first among them, yet that member depends
/// on another member, which would have to stand before it. So resolution
/// with a cycle can never produce an order, only the circular-dependency
/// failure.
#[verifier::rlimit(50)]
pub proof fn lemma_cycle_defeats_any_order(
    ss: Seq<ServiceConfig>,
    order: Seq<Seq<char>>,
    ns: Seq<Seq<char>>,
)
    requires
        distinct_names(ss),
        is_permutation_of_names(ss, order),
        cyclic_remainder(ss, ns),
    ensures
        !respects_dependencies(ss, order),
{
    if !respects_dependencies(ss, order) {
        return;
    }
    let positions = Seq::new(
        ns.len(),
        |k: int| choose|p: int| 0 <= p < order.len() && order[p] == ns[k],
    );
    assert forall|k: int|
        0 <= k < ns.len() implies 0 <= #[trigger] positions[k] < order.len()
            && order[positions[k]] == ns[k] by {
        assert(knows_name(ss, ns[k]));
        let i = choose|i: int| 0 <= i < ss.len() && ss[i].name@ == ns[k];
        assert(order.contains(ss[i].name@));
        let p0 = choose|p: int| 0 <= p < order.len() && order[p] == ns[k];
        assert(0 <= p0 < order.len() && order[p0] == ns[k]);
    }
    lemma_min_index(positions);
    let kstar = min_index(positions);
    assert(has_dependency_in(ss, ns[kstar], ns));
    let (i, j) = choose|i: int, j: int|
        0 <= i < ss.len() && ss[i].name@ == ns[kstar] && 0 <= j < ss[i].depends_on@.len()
            && ns.contains(ss[i].depends_on@[j]@);
    let d = ss[i].depends_on@[j]@;
    let k2 = choose|k2: int| 0 <= k2 < ns.len() && ns[k2] == d;
    assert(placed_before(order, d, ss[i].name@));
    let (p, q) = choose|p: int, q: int|
        0 <= p < q < order.len() && order[p] == d && order[q] == ss[i].name@;
    assert(q == positions[kstar]) by {
        if q < positions[kstar] {
            assert(order[q] != order[positions[kstar]]);
        } else if positions[kstar] < q {
            assert(order[positions[kstar]] != order[q]);
        }
    }
    assert(p == positions[k2]) by {
        if p < positions[k2] {
            assert(order[p] != order[positions[k2]]);
        } else if positions[k2] < p {
            assert(order[positions[k2]] != order[p]);
        }
    }
    assert(positions[kstar] <= positions[k2]);
    assert(false);
}

} // verus!
