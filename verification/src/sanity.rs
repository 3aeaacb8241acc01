//! Cycle detection on the resolved `before`/`after` graph.
//!
//! A topological emission pass (repeatedly emit every unit whose `after`
//! predecessors are all emitted) either drains the table, which yields a
//! witness that no cycle exists, or gets stuck; every stuck unit has an
//! unemitted predecessor, so walking predecessors inside the stuck set must
//! revisit a node and exhibits a genuine cycle.  The reported cycles are
//! simple, pairwise node-disjoint, and there is at least one; rejection is
//! exact (`Ok` exactly when no cycle exists).  One report stands for each
//! family of overlapping cycles the walk meets, so when several cycles
//! share a node the contract does not promise that every distinct simple
//! cycle appears in the report.

use crate::units::{contains_id, no_dup, Unit, UnitId, UnitTable};
use vstd::prelude::*;

verus! {

/// Dependency validation failure: the ordering graph has cycles; each
/// reported list of ids is one cycle.
#[derive(Debug)]
pub enum SanityCheckError {
    CirclesFound(Vec<Vec<UnitId>>),
}

/// `p` is an `after` predecessor of the unit with id `u`: `u` may only start
/// once `p` has been handled.
pub open spec fn is_pred(t: UnitTable, u: UnitId, p: UnitId) -> bool {
    t.has_id(u) && t.unit_of(u).install.after@.contains(p)
}

/// The id list `c` forms a cycle in the predecessor graph: each entry's
/// successor in the list (wrapping around) is one of its predecessors.
pub open spec fn is_cycle(t: UnitTable, c: Seq<UnitId>) -> bool {
    c.len() >= 1 && forall|m: int|
        0 <= m < c.len() ==> is_pred(t, #[trigger] c[m], c[(m + 1) % (c.len() as int)])
}

/// Every `after` predecessor named by any unit is itself a unit of the table.
pub open spec fn after_closed(t: UnitTable) -> bool {
    forall|i: int, x: UnitId|
        0 <= i < t.units@.len() && #[trigger] t.units@[i].install.after@.contains(x)
            ==> t.has_id(x)
}

/// `em` is a valid emission order: every predecessor of an emitted unit was
/// emitted strictly earlier.
pub open spec fn emit_order_ok(t: UnitTable, em: Seq<UnitId>) -> bool {
    forall|k: int, p: UnitId|
        0 <= k < em.len() && #[trigger] is_pred(t, em[k], p) ==> exists|m: int|
            0 <= m < k && em[m] == p
}

/// The emission pass can make no progress: every unemitted unit has an
/// unemitted predecessor.
pub open spec fn emission_stuck(t: UnitTable, em: Seq<UnitId>) -> bool {
    forall|i: int|
        0 <= i < t.units@.len() && !em.contains((#[trigger] t.units@[i]).id) ==> exists|p: UnitId|
            t.units@[i].install.after@.contains(p) && !em.contains(p)
}

/// Position of `x` in `em`.
pub open spec fn idx_in(em: Seq<UnitId>, x: UnitId) -> int {
    choose|k: int| 0 <= k < em.len() && em[k] == x
}

proof fn lemma_idx_in(em: Seq<UnitId>, x: UnitId)
    requires
        em.contains(x),
    ensures
        0 <= idx_in(em, x) < em.len(),
        em[idx_in(em, x)] == x,
{
}

/// A duplicate-free list of unit ids is no longer than the table.
proof fn lemma_ids_bound(t: UnitTable, s: Seq<UnitId>)
    requires
        no_dup(s),
        forall|k: int| 0 <= k < s.len() ==> t.has_id(#[trigger] s[k]),
    ensures
        s.len() <= t.units@.len(),
{
    broadcast use vstd::seq_lib::seq_to_set_is_finite;

    let ids = t.units@.map_values(|u: Unit| u.id);
    assert forall|i: int, j: int|
        0 <= i < s.len() && 0 <= j < s.len() && i != j implies s[i] != s[j] by {
        if i < j {
        } else {
        }
    }
    assert(s.no_duplicates());
    s.unique_seq_to_set();
    assert forall|x: UnitId| s.to_set().contains(x) implies ids.to_set().contains(x) by {
        assert(s.contains(x));
        let k = choose|k: int| 0 <= k < s.len() && s[k] == x;
        assert(t.has_id(s[k]));
        let i = choose|i: int| 0 <= i < t.units@.len() && t.units@[i].id == x;
        assert(ids[i] == x);
        assert(ids.contains(x));
    }
    assert(s.to_set().subset_of(ids.to_set()));
    vstd::set_lib::lemma_len_subset(s.to_set(), ids.to_set());
    ids.lemma_cardinality_of_set();
}

/// Walking one predecessor step inside a valid emission order strictly
/// decreases the emission position.
proof fn lemma_emit_step(t: UnitTable, em: Seq<UnitId>, u: UnitId, p: UnitId)
    requires
        no_dup(em),
        emit_order_ok(t, em),
        em.contains(u),
        is_pred(t, u, p),
    ensures
        em.contains(p),
        idx_in(em, p) < idx_in(em, u),
{
    lemma_idx_in(em, u);
    let k = idx_in(em, u);
    assert(is_pred(t, em[k], p));
    let m = choose|m: int| 0 <= m < k && em[m] == p;
    assert(em.contains(p));
    lemma_idx_in(em, p);
    assert(idx_in(em, p) == m);
}

/// Along a cycle, emission positions would have to decrease without bound.
proof fn lemma_cycle_desc(t: UnitTable, em: Seq<UnitId>, c: Seq<UnitId>, m: int)
    requires
        no_dup(em),
        emit_order_ok(t, em),
        forall|x: UnitId| t.has_id(x) ==> em.contains(x),
        is_cycle(t, c),
        0 <= m < c.len(),
    ensures
        em.contains(c[m]),
        idx_in(em, c[m]) + m <= idx_in(em, c[0]),
    decreases m,
{
    broadcast use vstd::arithmetic::div_mod::group_div_basics;

    assert(is_pred(t, c[m], c[(m + 1) % (c.len() as int)]));
    assert(t.has_id(c[m]));
    assert(em.contains(c[m]));
    if m > 0 {
        lemma_cycle_desc(t, em, c, m - 1);
        assert(is_pred(t, c[m - 1], c[m % (c.len() as int)]));
        vstd::arithmetic::div_mod::lemma_small_mod(m as nat, c.len());
        assert(m % (c.len() as int) == m);
        lemma_emit_step(t, em, c[m - 1], c[m]);
    }
}

/// No cycle survives a complete emission: if every unit was emitted in a
/// valid order, the predecessor graph is acyclic.
proof fn lemma_complete_emission_acyclic(t: UnitTable, em: Seq<UnitId>, c: Seq<UnitId>)
    requires
        no_dup(em),
        emit_order_ok(t, em),
        forall|x: UnitId| t.has_id(x) ==> em.contains(x),
    ensures
        !is_cycle(t, c),
{
    if is_cycle(t, c) {
        let n = c.len() as int;
        lemma_cycle_desc(t, em, c, n - 1);
        assert(is_pred(t, c[n - 1], c[n % n]));
        assert(n % n == 0) by {
            vstd::arithmetic::div_mod::lemma_mod_self_0(n);
        }
        lemma_emit_step(t, em, c[n - 1], c[0]);
    }
}

/// Some id of `v` that is missing from `em`.
fn find_missing(v: &Vec<UnitId>, em: &Vec<UnitId>) -> (r: Option<UnitId>)
    ensures
        match r {
            Some(p) => v@.contains(p) && !em@.contains(p),
            None => forall|k: int| 0 <= k < v@.len() ==> em@.contains(#[trigger] v@[k]),
        },
{
    let mut k: usize = 0;
    while k < v.len()
        invariant
            k <= v@.len(),
            forall|j: int| 0 <= j < k ==> em@.contains(#[trigger] v@[j]),
        decreases v@.len() - k,
    {
        let p = v[k];
        if !contains_id(em, p) {
            assert(v@[k as int] == p);
            return Some(p);
        }
        k += 1;
    }
    None
}

/// Index of `x` in `v`, if present.
fn index_of_id(v: &Vec<UnitId>, x: UnitId) -> (r: Option<usize>)
    ensures
        match r {
            Some(j) => j < v@.len() && v@[j as int] == x,
            None => !v@.contains(x),
        },
{
    let mut k: usize = 0;
    while k < v.len()
        invariant
            k <= v@.len(),
            forall|j: int| 0 <= j < k ==> v@[j] != x,
        decreases v@.len() - k,
    {
        if v[k] == x {
            return Some(k);
        }
        k += 1;
    }
    None
}

/// One pass of the emission: emit every unit whose predecessors are all
/// emitted.  Reports whether anything was emitted.
fn kahn_pass(t: &UnitTable, em: &mut Vec<UnitId>) -> (progress: bool)
    requires
        t.wf(),
        no_dup(old(em)@),
        forall|k: int| 0 <= k < old(em)@.len() ==> t.has_id(#[trigger] old(em)@[k]),
        emit_order_ok(*t, old(em)@),
    ensures
        no_dup(final(em)@),
        forall|k: int| 0 <= k < final(em)@.len() ==> t.has_id(#[trigger] final(em)@[k]),
        emit_order_ok(*t, final(em)@),
        progress ==> final(em)@.len() > old(em)@.len(),
        !progress ==> final(em)@ == old(em)@ && emission_stuck(*t, final(em)@),
{
    let ghost em0 = em@;
    let mut progress = false;
    let mut i: usize = 0;
    let n = t.units.len();
    while i < n
        invariant
            i <= n,
            n == t.units@.len(),
            t.wf(),
            no_dup(em@),
            forall|k: int| 0 <= k < em@.len() ==> t.has_id(#[trigger] em@[k]),
            emit_order_ok(*t, em@),
            progress ==> em@.len() > em0.len(),
            !progress ==> em@ == em0,
            !progress ==> forall|j: int|
                0 <= j < i && !em@.contains((#[trigger] t.units@[j]).id) ==> exists|p: UnitId|
                    t.units@[j].install.after@.contains(p) && !em@.contains(p),
        decreases n - i,
    {
        let id = t.units[i].id;
        if !contains_id(em, id) {
            match find_missing(&t.units[i].install.after, em) {
                None => {
                    let ghost prev = em@;
                    em.push(id);
                    progress = true;
                    proof {
                        assert(em@ == prev.push(id));
                        assert forall|k: int|
                            0 <= k < em@.len() implies t.has_id(#[trigger] em@[k]) by {
                            if k < prev.len() {
                                assert(em@[k] == prev[k]);
                            } else {
                                assert(em@[k] == id);
                                assert(t.units@[i as int].id == id);
                            }
                        }
                        assert forall|k: int, p: UnitId|
                            0 <= k < em@.len() && #[trigger] is_pred(
                                *t,
                                em@[k],
                                p,
                            ) implies exists|m: int| 0 <= m < k && em@[m] == p by {
                            if k < prev.len() {
                                assert(em@[k] == prev[k]);
                                assert(is_pred(*t, prev[k], p));
                                let m = choose|m: int| 0 <= m < k && prev[m] == p;
                                assert(em@[m] == p);
                            } else {
                                assert(em@[k] == id);
                                assert(t.has_id(id));
                                let w = choose|w: int|
                                    0 <= w < t.units@.len() && t.units@[w].id == id;
                                assert(t.unit_of(id) == t.units@[w]);
                                assert(w == i as int);
                                assert(t.unit_of(id).install.after@.contains(p));
                                let g = choose|g: int|
                                    0 <= g < t.units@[i as int].install.after@.len()
                                        && t.units@[i as int].install.after@[g] == p;
                                assert(prev.contains(p));
                                let m = choose|m: int| 0 <= m < prev.len() && prev[m] == p;
                                assert(em@[m] == p);
                            }
                        }
                    }
                },
                Some(_) => {},
            }
        }
        i += 1;
    }
    progress
}

proof fn lemma_contains_concat(a: Seq<UnitId>, b: Seq<UnitId>, x: UnitId)
    ensures
        (a + b).contains(x) <==> (a.contains(x) || b.contains(x)),
{
    if (a + b).contains(x) {
        let k = choose|k: int| 0 <= k < (a + b).len() && (a + b)[k] == x;
        if k < a.len() {
            assert(a[k] == x);
        } else {
            assert(b[k - a.len()] == x);
        }
    }
    if a.contains(x) {
        let k = choose|k: int| 0 <= k < a.len() && a[k] == x;
        assert((a + b)[k] == x);
    }
    if b.contains(x) {
        let k = choose|k: int| 0 <= k < b.len() && b[k] == x;
        assert((a + b)[a.len() + k] == x);
    }
}

/// Append every id of `src` to `dst`.
fn append_ids(dst: &mut Vec<UnitId>, src: &Vec<UnitId>)
    ensures
        final(dst)@ == old(dst)@ + src@,
{
    let ghost dst0 = dst@;
    let mut k: usize = 0;
    while k < src.len()
        invariant
            k <= src@.len(),
            dst@ =~= dst0 + src@.subrange(0, k as int),
        decreases src@.len() - k,
    {
        dst.push(src[k]);
        proof {
            assert(dst@ =~= dst0 + src@.subrange(0, k + 1 as int));
        }
        k += 1;
    }
    proof {
        assert(src@.subrange(0, src@.len() as int) =~= src@);
        assert(dst@ =~= dst0 + src@);
        assert(dst0 == old(dst)@);
    }
}

/// Index of the first unit whose id is not in `em`.
fn find_unemitted_index(t: &UnitTable, em: &Vec<UnitId>) -> (r: Option<usize>)
    ensures
        match r {
            Some(i) => i < t.units@.len() && !em@.contains(t.units@[i as int].id),
            None => forall|i: int|
                0 <= i < t.units@.len() ==> em@.contains((#[trigger] t.units@[i]).id),
        },
{
    let mut i: usize = 0;
    let n = t.units.len();
    while i < n
        invariant
            i <= n,
            n == t.units@.len(),
            forall|j: int| 0 <= j < i ==> em@.contains((#[trigger] t.units@[j]).id),
        decreases n - i,
    {
        if !contains_id(em, t.units[i].id) {
            return Some(i);
        }
        i += 1;
    }
    None
}

/// Copy the tail of the walk path from position `j` on: it is a cycle, the
/// closing edge being the one from the path's last node back to `path[j]`.
fn extract_cycle(
    t: &UnitTable,
    em: &Vec<UnitId>,
    visited: &Vec<UnitId>,
    path: &Vec<UnitId>,
    j: usize,
) -> (c: Vec<UnitId>)
    requires
        j < path@.len(),
        no_dup(path@),
        forall|k: int|
            0 <= k < path@.len() ==> t.has_id(#[trigger] path@[k]) && !em@.contains(path@[k])
                && !visited@.contains(path@[k]),
        forall|k: int| 0 <= k < path@.len() - 1 ==> is_pred(*t, #[trigger] path@[k], path@[k + 1]),
        is_pred(*t, path@[path@.len() - 1], path@[j as int]),
    ensures
        is_cycle(*t, c@),
        no_dup(c@),
        forall|x: UnitId|
            #![trigger c@.contains(x)]
            c@.contains(x) ==> !visited@.contains(x) && !em@.contains(x),
{
    let mut c: Vec<UnitId> = Vec::new();
    let mut k: usize = j;
    let plen = path.len();
    while k < plen
        invariant
            j <= k <= plen,
            plen == path@.len(),
            c@ =~= path@.subrange(j as int, k as int),
        decreases plen - k,
    {
        c.push(path[k]);
        proof {
            assert(c@ =~= path@.subrange(j as int, k + 1 as int));
        }
        k += 1;
    }
    proof {
        let ghost cl = c@.len() as int;
        assert(c@ =~= path@.subrange(j as int, path@.len() as int));
        assert(cl == path@.len() - j);
        assert(cl >= 1);
        assert(c@[0] == path@[j as int]);
        assert(c@[cl - 1] == path@[path@.len() - 1]);
        assert forall|m1: int, m2: int| 0 <= m1 < m2 < cl implies c@[m1] != c@[m2] by {
            assert(c@[m1] == path@[j + m1]);
            assert(c@[m2] == path@[j + m2]);
        }
        assert forall|x: UnitId| #![trigger c@.contains(x)]
            c@.contains(x) implies !visited@.contains(x) && !em@.contains(x) by {
            let m = choose|m: int| 0 <= m < cl && c@[m] == x;
            assert(path@[j + m] == x);
            assert(t.has_id(path@[j + m]) && !em@.contains(path@[j + m]) && !visited@.contains(
                path@[j + m],
            ));
        }
        assert forall|m: int|
            0 <= m < cl implies is_pred(*t, #[trigger] c@[m], c@[(m + 1) % cl]) by {
            if m < cl - 1 {
                vstd::arithmetic::div_mod::lemma_small_mod((m + 1) as nat, cl as nat);
                assert((m + 1) % cl == m + 1);
                assert(c@[m] == path@[j + m]);
                assert(c@[m + 1] == path@[j + m + 1]);
                assert(is_pred(*t, path@[j + m], path@[j + m + 1]));
            } else {
                vstd::arithmetic::div_mod::lemma_mod_self_0(cl);
                assert((m + 1) % cl == 0);
                assert(c@[m] == path@[path@.len() - 1]);
                assert(c@[0] == path@[j as int]);
            }
        }
        assert(is_cycle(*t, c@));
    }
    c
}

/// Walk predecessors of `start` inside the stuck set.  Either the walk bites
/// its own tail and a fresh simple cycle is returned, or it reaches a node
/// of an already reported cycle and nothing new is returned.
#[verifier::rlimit(80)]
fn walk_cycle(t: &UnitTable, em: &Vec<UnitId>, visited: &Vec<UnitId>, start: UnitId) -> (r: Option<
    Vec<UnitId>,
>)
    requires
        t.wf(),
        after_closed(*t),
        emission_stuck(*t, em@),
        t.has_id(start),
        !em@.contains(start),
        !visited@.contains(start),
    ensures
        match r {
            Some(c) => is_cycle(*t, c@) && no_dup(c@) && forall|x: UnitId|
                #![trigger c@.contains(x)]
                c@.contains(x) ==> !visited@.contains(x) && !em@.contains(x),
            None => visited@.len() >= 1,
        },
{
    let mut path: Vec<UnitId> = Vec::new();
    path.push(start);
    proof {
        lemma_ids_bound(*t, path@);
    }
    loop
        invariant
            t.wf(),
            after_closed(*t),
            emission_stuck(*t, em@),
            path@.len() >= 1,
            no_dup(path@),
            forall|k: int|
                0 <= k < path@.len() ==> t.has_id(#[trigger] path@[k]) && !em@.contains(path@[k])
                    && !visited@.contains(path@[k]),
            forall|k: int| 0 <= k < path@.len() - 1 ==> is_pred(*t, #[trigger] path@[k], path@[k + 1]),
            path@.len() <= t.units@.len(),
        decreases t.units@.len() - path@.len(),
    {
        let u = path[path.len() - 1];
        let unit = match t.get(u) {
            Some(unit) => unit,
            None => {
                proof {
                    assert(path@[path@.len() - 1] == u);
                    assert(false);
                }
                vstd::pervasive::unreached()
            },
        };
        proof {
            assert(path@[path@.len() - 1] == u);
            assert(t.has_id(u));
            let w = choose|w: int| 0 <= w < t.units@.len() && t.units@[w].id == u;
            assert(t.idx_of(u) == w);
            assert(*unit == t.units@[w]);
            assert(!em@.contains(t.units@[w].id));
        }
        match find_missing(&unit.install.after, em) {
            None => {
                proof {
                    let w = choose|w: int| 0 <= w < t.units@.len() && t.units@[w].id == u;
                    assert(exists|p: UnitId|
                        t.units@[w].install.after@.contains(p) && !em@.contains(p));
                    let p = choose|p: UnitId|
                        t.units@[w].install.after@.contains(p) && !em@.contains(p);
                    let g = choose|g: int|
                        0 <= g < unit.install.after@.len() && unit.install.after@[g] == p;
                    assert(em@.contains(unit.install.after@[g]));
                    assert(false);
                }
                vstd::pervasive::unreached()
            },
            Some(p) => {
                proof {
                    let w = choose|w: int| 0 <= w < t.units@.len() && t.units@[w].id == u;
                    assert(t.units@[w].install.after@.contains(p));
                    assert(t.has_id(p));
                    assert(t.unit_of(u) == t.units@[w]);
                    assert(is_pred(*t, u, p));
                }
                if contains_id(visited, p) {
                    proof {
                        let k = choose|k: int| 0 <= k < visited@.len() && visited@[k] == p;
                    }
                    return None;
                }
                match index_of_id(&path, p) {
                    Some(j) => {
                        proof {
                            assert(path@[path@.len() - 1] == u);
                            assert(path@[j as int] == p);
                        }
                        let c = extract_cycle(t, em, visited, &path, j);
                        return Some(c);
                    },
                    None => {
                        path.push(p);
                        proof {
                            lemma_ids_bound(*t, path@);
                            assert forall|k: int|
                                0 <= k < path@.len() - 1 implies is_pred(
                                *t,
                                #[trigger] path@[k],
                                path@[k + 1],
                            ) by {
                                if k < path@.len() - 2 {
                                } else {
                                    assert(path@[k] == u);
                                    assert(path@[k + 1] == p);
                                }
                            }
                        }
                    },
                }
            },
        }
    }
}

/// Validate that the resolved `before`/`after` graph is a DAG.  `Ok` is
/// returned exactly when the graph has no cycle; otherwise every reported
/// list is a genuine simple cycle, the reported cycles are pairwise
/// node-disjoint, and at least one is reported.  The report is not promised
/// to be complete: cycles that overlap a reported one may go unlisted, so a
/// caller may rely on "some cycle" and on each listed cycle being real, but
/// not on seeing every simple cycle of the graph.
pub fn sanity_check_dependencies(t: &UnitTable) -> (r: Result<(), SanityCheckError>)
    requires
        t.wf(),
        after_closed(*t),
    ensures
        r is Ok ==> forall|c: Seq<UnitId>| !is_cycle(*t, c),
        match r {
            Ok(()) => true,
            Err(SanityCheckError::CirclesFound(cs)) => {
                &&& cs@.len() >= 1
                &&& forall|i: int|
                    0 <= i < cs@.len() ==> is_cycle(*t, (#[trigger] cs@[i])@) && no_dup(cs@[i]@)
                &&& forall|i: int, j: int, x: UnitId|
                    #![trigger cs@[i]@.contains(x), cs@[j]@.contains(x)]
                    0 <= i < j < cs@.len() ==> !(cs@[i]@.contains(x) && cs@[j]@.contains(x))
            },
        },
        r is Err <==> exists|c: Seq<UnitId>| is_cycle(*t, c),
{
    let n = t.units.len();
    let mut em: Vec<UnitId> = Vec::new();
    let mut progress = true;
    while progress
        invariant
            n == t.units@.len(),
            t.wf(),
            after_closed(*t),
            no_dup(em@),
            forall|k: int| 0 <= k < em@.len() ==> t.has_id(#[trigger] em@[k]),
            emit_order_ok(*t, em@),
            em@.len() <= n,
            !progress ==> emission_stuck(*t, em@),
        decreases (n - em@.len()) + (if progress {
            1int
        } else {
            0int
        }),
    {
        progress = kahn_pass(t, &mut em);
        proof {
            lemma_ids_bound(*t, em@);
        }
    }
    match find_unemitted_index(t, &em) {
        None => {
            proof {
                assert forall|c: Seq<UnitId>| !is_cycle(*t, c) by {
                    assert forall|x: UnitId| t.has_id(x) implies em@.contains(x) by {
                        let w = choose|w: int| 0 <= w < t.units@.len() && t.units@[w].id == x;
                        assert(em@.contains(t.units@[w].id));
                    }
                    lemma_complete_emission_acyclic(*t, em@, c);
                }
            }
            Ok(())
        },
        Some(i0) => {
            let ghost stuck_id = t.units@[i0 as int].id;
            let mut cycles: Vec<Vec<UnitId>> = Vec::new();
            let mut visited: Vec<UnitId> = Vec::new();
            let mut i: usize = 0;
            while i < n
                invariant
                    n == t.units@.len(),
                    t.wf(),
                    after_closed(*t),
                    emission_stuck(*t, em@),
                    forall|i2: int|
                        0 <= i2 < cycles@.len() ==> is_cycle(*t, (#[trigger] cycles@[i2])@)
                            && no_dup(cycles@[i2]@),
                    forall|i2: int, x: UnitId|
                        #![trigger cycles@[i2]@.contains(x)]
                        0 <= i2 < cycles@.len() && cycles@[i2]@.contains(x) ==> visited@.contains(
                            x,
                        ),
                    forall|i2: int, j2: int, x: UnitId|
                        #![trigger cycles@[i2]@.contains(x), cycles@[j2]@.contains(x)]
                        0 <= i2 < j2 < cycles@.len() ==> !(cycles@[i2]@.contains(x)
                            && cycles@[j2]@.contains(x)),
                    cycles@.len() == 0 ==> visited@.len() == 0,
                    i0 < n,
                    !em@.contains(t.units@[i0 as int].id),
                    i > i0 ==> cycles@.len() >= 1,
                decreases n - i,
            {
                let id = t.units[i].id;
                if !contains_id(&em, id) && !contains_id(&visited, id) {
                    proof {
                        assert(t.units@[i as int].id == id);
                        assert(t.has_id(id));
                    }
                    match walk_cycle(t, &em, &visited, id) {
                        Some(c) => {
                            let ghost visited0 = visited@;
                            let ghost cycles0 = cycles@;
                            append_ids(&mut visited, &c);
                            cycles.push(c);
                            proof {
                                assert(cycles@ == cycles0.push(c));
                                assert(visited@ == visited0 + c@);
                                assert forall|i2: int|
                                    0 <= i2 < cycles@.len() implies is_cycle(
                                    *t,
                                    (#[trigger] cycles@[i2])@,
                                ) && no_dup(cycles@[i2]@) by {
                                    if i2 < cycles0.len() {
                                        assert(cycles@[i2] == cycles0[i2]);
                                    } else {
                                        assert(cycles@[i2] == c);
                                    }
                                }
                                assert forall|i2: int, x: UnitId|
                                    #![trigger cycles@[i2]@.contains(x)]
                                    0 <= i2 < cycles@.len() && cycles@[i2]@.contains(
                                        x,
                                    ) implies visited@.contains(x) by {
                                    lemma_contains_concat(visited0, c@, x);
                                    if i2 < cycles0.len() {
                                        assert(cycles@[i2] == cycles0[i2]);
                                        assert(visited0.contains(x));
                                    } else {
                                        assert(cycles@[i2] == c);
                                    }
                                }
                                assert forall|i2: int, j2: int, x: UnitId|
                                    #![trigger cycles@[i2]@.contains(x), cycles@[j2]@.contains(x)]
                                    0 <= i2 < j2 < cycles@.len() implies !(cycles@[i2]@.contains(
                                    x,
                                ) && cycles@[j2]@.contains(x)) by {
                                    if j2 < cycles0.len() {
                                        assert(cycles@[i2] == cycles0[i2]);
                                        assert(cycles@[j2] == cycles0[j2]);
                                    } else {
                                        assert(cycles@[j2] == c);
                                        assert(cycles@[i2] == cycles0[i2]);
                                        if cycles@[i2]@.contains(x) && cycles@[j2]@.contains(x) {
                                            assert(visited0.contains(x));
                                            assert(!visited0.contains(x));
                                        }
                                    }
                                }
                            }
                        },
                        None => {
                            proof {
                                assert(visited@.len() >= 1);
                                assert(cycles@.len() >= 1) by {
                                    if cycles@.len() == 0 {
                                        assert(visited@.len() == 0);
                                    }
                                }
                            }
                        },
                    }
                } else {
                    proof {
                        if i as int == i0 as int {
                            assert(t.units@[i0 as int].id == id);
                            assert(visited@.contains(id));
                            assert(visited@.len() >= 1) by {
                                let k = choose|k: int|
                                    0 <= k < visited@.len() && visited@[k] == id;
                            }
                            assert(cycles@.len() >= 1) by {
                                if cycles@.len() == 0 {
                                    assert(visited@.len() == 0);
                                }
                            }
                        }
                    }
                }
                i += 1;
            }
            proof {
                assert(cycles@.len() >= 1);
                assert(is_cycle(*t, cycles@[0]@));
            }
            Err(SanityCheckError::CirclesFound(cycles))
        },
    }
}

} // verus!
