//! Socket/service pairing: a socket unit and a service unit belong together
//! when they share a file stem, when the service names the socket in its
//! configuration, or when the socket names the service.  Pairing adds the
//! implicit ordering edges (socket before service) and hands the socket's id
//! to the service so its descriptors are passed at exec time.

use crate::deps::Edge;
use crate::units::{no_dup, str_eq, Unit, UnitId, UnitSpecialized, UnitTable};
use vstd::prelude::*;

verus! {

/// The socket unit at `si` pairs with the service unit at `vi`.
pub open spec fn pairs_at(t: UnitTable, si: int, vi: int) -> bool {
    &&& 0 <= si < t.units@.len()
    &&& 0 <= vi < t.units@.len()
    &&& t.units@[si].specialized is Socket
    &&& t.units@[vi].specialized is Service
    &&& {
        let su = t.units@[si];
        let vu = t.units@[vi];
        let sock = su.specialized->Socket_0;
        let srv = vu.specialized->Service_0;
        ||| vu.conf.spec_name_without_suffix() == su.conf.spec_name_without_suffix()
        ||| (match srv.service_config {
            Some(c) => exists|k: int|
                0 <= k < c.sockets@.len() && (#[trigger] c.sockets@[k])@ == su.conf.spec_name(),
            None => false,
        })
        ||| exists|k: int|
            0 <= k < sock.services@.len() && (#[trigger] sock.services@[k])@
                == vu.conf.spec_name()
    }
}

/// The socket with id `a` pairs with the service with id `b`.
pub open spec fn pairs_ids(t: UnitTable, a: UnitId, b: UnitId) -> bool {
    exists|si: int, vi: int|
        #![trigger pairs_at(t, si, vi)]
        pairs_at(t, si, vi) && t.units@[si].id == a && t.units@[vi].id == b
}

/// Some string of the list reads exactly like `s`.
fn contains_str(v: &Vec<String>, s: &str) -> (r: bool)
    ensures
        r == exists|k: int| 0 <= k < v@.len() && (#[trigger] v@[k])@ == s@,
{
    let mut k: usize = 0;
    while k < v.len()
        invariant
            k <= v@.len(),
            forall|j: int| 0 <= j < k ==> (#[trigger] v@[j])@ != s@,
        decreases v@.len() - k,
    {
        if str_eq(v[k].as_str(), s) {
            assert(v@[k as int]@ == s@);
            return true;
        }
        k += 1;
    }
    false
}

/// Decide whether the units at `si` and `vi` pair up.
fn socket_matches(t: &UnitTable, si: usize, vi: usize) -> (r: bool)
    requires
        si < t.units@.len(),
        vi < t.units@.len(),
    ensures
        r == pairs_at(*t, si as int, vi as int),
{
    let su = &t.units[si];
    let vu = &t.units[vi];
    let sock = match &su.specialized {
        UnitSpecialized::Socket(sock) => sock,
        _ => {
            return false;
        },
    };
    let srv = match &vu.specialized {
        UnitSpecialized::Service(srv) => srv,
        _ => {
            return false;
        },
    };
    let sstem = su.conf.name_without_suffix();
    let vstem = vu.conf.name_without_suffix();
    if str_eq(vstem.as_str(), sstem.as_str()) {
        return true;
    }
    let sname = su.conf.name();
    if match &srv.service_config {
        Some(c) => contains_str(&c.sockets, sname.as_str()),
        None => false,
    } {
        return true;
    }
    let vname = vu.conf.name();
    if contains_str(&sock.services, vname.as_str()) {
        return true;
    }
    false
}

/// Collect `(socket id, service id)` for every pairing of the socket at `si`.
fn pairs_of_socket(t: &UnitTable, si: usize, out: &mut Vec<Edge>)
    requires
        si < t.units@.len(),
    ensures
        forall|a: UnitId, b: UnitId|
            #![trigger final(out)@.contains((a, b))]
            final(out)@.contains((a, b)) <==> (old(out)@.contains((a, b)) || exists|vi: int|
                #![trigger pairs_at(*t, si as int, vi)]
                pairs_at(*t, si as int, vi) && t.units@[si as int].id == a && t.units@[vi].id
                    == b),
{
    let ghost out0 = out@;
    let n = t.units.len();
    let mut vi: usize = 0;
    while vi < n
        invariant
            vi <= n,
            n == t.units@.len(),
            si < t.units@.len(),
            forall|a: UnitId, b: UnitId|
                #![trigger out@.contains((a, b))]
                out@.contains((a, b)) <==> (out0.contains((a, b)) || exists|w: int|
                    #![trigger pairs_at(*t, si as int, w)]
                    0 <= w < vi && pairs_at(*t, si as int, w) && t.units@[si as int].id == a
                        && t.units@[w].id == b),
        decreases n - vi,
    {
        if socket_matches(t, si, vi) {
            let e: Edge = (t.units[si].id, t.units[vi].id);
            let ghost prev = out@;
            out.push(e);
            proof {
                assert forall|a: UnitId, b: UnitId| #![trigger out@.contains((a, b))]
                    out@.contains((a, b)) <==> (out0.contains((a, b)) || exists|w: int|
                        #![trigger pairs_at(*t, si as int, w)]
                        0 <= w < vi + 1 && pairs_at(*t, si as int, w) && t.units@[si as int].id
                            == a && t.units@[w].id == b) by {
                    crate::deps::lemma_edge_contains_push(prev, e, (a, b));
                    if (a, b) == e {
                        assert(pairs_at(*t, si as int, vi as int) && t.units@[si as int].id == a
                            && t.units@[vi as int].id == b);
                        assert(0 <= (vi as int) && (vi as int) < vi + 1);
                    }
                    if exists|w: int|
                        #![trigger pairs_at(*t, si as int, w)]
                        0 <= w < vi + 1 && pairs_at(*t, si as int, w) && t.units@[si as int].id
                            == a && t.units@[w].id == b {
                        let w = choose|w: int|
                            #![trigger pairs_at(*t, si as int, w)]
                            0 <= w < vi + 1 && pairs_at(*t, si as int, w) && t.units@[si as
                                int].id == a && t.units@[w].id == b;
                        if w < vi {
                            assert(prev.contains((a, b)));
                        } else {
                            assert((a, b) == e);
                        }
                    }
                }
            }
        } else {
            proof {
                assert forall|a: UnitId, b: UnitId| #![trigger out@.contains((a, b))]
                    out@.contains((a, b)) <==> (out0.contains((a, b)) || exists|w: int|
                        #![trigger pairs_at(*t, si as int, w)]
                        0 <= w < vi + 1 && pairs_at(*t, si as int, w) && t.units@[si as int].id
                            == a && t.units@[w].id == b) by {
                    if exists|w: int|
                        #![trigger pairs_at(*t, si as int, w)]
                        0 <= w < vi + 1 && pairs_at(*t, si as int, w) && t.units@[si as int].id
                            == a && t.units@[w].id == b {
                        let w = choose|w: int|
                            #![trigger pairs_at(*t, si as int, w)]
                            0 <= w < vi + 1 && pairs_at(*t, si as int, w) && t.units@[si as
                                int].id == a && t.units@[w].id == b;
                        assert(w < vi);
                    }
                }
            }
        }
        vi += 1;
    }
}

/// Collect the whole pairing relation as `(socket id, service id)` edges.
fn collect_pairings(t: &UnitTable) -> (out: Vec<Edge>)
    ensures
        forall|a: UnitId, b: UnitId|
            #![trigger out@.contains((a, b))]
            out@.contains((a, b)) <==> pairs_ids(*t, a, b),
{
    let mut out: Vec<Edge> = Vec::new();
    let n = t.units.len();
    let mut si: usize = 0;
    while si < n
        invariant
            si <= n,
            n == t.units@.len(),
            forall|a: UnitId, b: UnitId|
                #![trigger out@.contains((a, b))]
                out@.contains((a, b)) <==> (exists|s: int, w: int|
                    #![trigger pairs_at(*t, s, w)]
                    0 <= s < si && pairs_at(*t, s, w) && t.units@[s].id == a && t.units@[w].id
                        == b),
        decreases n - si,
    {
        let ghost prev = out@;
        pairs_of_socket(t, si, &mut out);
        proof {
            assert forall|a: UnitId, b: UnitId| #![trigger out@.contains((a, b))]
                out@.contains((a, b)) <==> (exists|s: int, w: int|
                    #![trigger pairs_at(*t, s, w)]
                    0 <= s < si + 1 && pairs_at(*t, s, w) && t.units@[s].id == a && t.units@[w].id
                        == b) by {
                assert(out@.contains((a, b)) <==> (prev.contains((a, b)) || exists|vi: int|
                    #![trigger pairs_at(*t, si as int, vi)]
                    pairs_at(*t, si as int, vi) && t.units@[si as int].id == a && t.units@[vi].id
                        == b));
                if prev.contains((a, b)) {
                    let (s, w) = choose|s: int, w: int|
                        #![trigger pairs_at(*t, s, w)]
                        0 <= s < si && pairs_at(*t, s, w) && t.units@[s].id == a && t.units@[w].id
                            == b;
                    assert(0 <= s < si + 1 && pairs_at(*t, s, w) && t.units@[s].id == a
                        && t.units@[w].id == b);
                }
                if exists|vi: int|
                    #![trigger pairs_at(*t, si as int, vi)]
                    pairs_at(*t, si as int, vi) && t.units@[si as int].id == a && t.units@[vi].id
                        == b {
                    let vi = choose|vi: int|
                        #![trigger pairs_at(*t, si as int, vi)]
                        pairs_at(*t, si as int, vi) && t.units@[si as int].id == a
                            && t.units@[vi].id == b;
                    assert(0 <= (si as int) && (si as int) < si + 1 && pairs_at(*t, si as int, vi)
                        && t.units@[si as int].id == a && t.units@[vi].id == b);
                }
                if exists|s: int, w: int|
                    #![trigger pairs_at(*t, s, w)]
                    0 <= s < si + 1 && pairs_at(*t, s, w) && t.units@[s].id == a && t.units@[w].id
                        == b {
                    let (s, w) = choose|s: int, w: int|
                        #![trigger pairs_at(*t, s, w)]
                        0 <= s < si + 1 && pairs_at(*t, s, w) && t.units@[s].id == a
                            && t.units@[w].id == b;
                    if s < si {
                        assert(prev.contains((a, b)));
                    }
                }
            }
        }
        si += 1;
    }
    proof {
        assert forall|a: UnitId, b: UnitId| #![trigger out@.contains((a, b))]
            out@.contains((a, b)) <==> pairs_ids(*t, a, b) by {
            if out@.contains((a, b)) {
                let (s, w) = choose|s: int, w: int|
                    #![trigger pairs_at(*t, s, w)]
                    0 <= s < si && pairs_at(*t, s, w) && t.units@[s].id == a && t.units@[w].id
                        == b;
                assert(pairs_at(*t, s, w) && t.units@[s].id == a && t.units@[w].id == b);
            }
            if pairs_ids(*t, a, b) {
                let (s, w) = choose|s: int, w: int|
                    #![trigger pairs_at(*t, s, w)]
                    pairs_at(*t, s, w) && t.units@[s].id == a && t.units@[w].id == b;
                assert(0 <= s < si && pairs_at(*t, s, w) && t.units@[s].id == a && t.units@[w].id
                    == b);
            }
        }
    }
    out
}

/// Add every id of `add` that `dst` does not already hold.
fn merge_ids(dst: &mut Vec<UnitId>, add: &Vec<UnitId>)
    ensures
        forall|x: UnitId|
            #![trigger final(dst)@.contains(x)]
            final(dst)@.contains(x) <==> (old(dst)@.contains(x) || add@.contains(x)),
        no_dup(old(dst)@) ==> no_dup(final(dst)@),
{
    let ghost dst0 = dst@;
    let mut k: usize = 0;
    while k < add.len()
        invariant
            k <= add@.len(),
            no_dup(dst0) ==> no_dup(dst@),
            forall|x: UnitId|
                #![trigger dst@.contains(x)]
                dst@.contains(x) <==> (dst0.contains(x) || add@.subrange(0, k as int).contains(
                    x,
                )),
        decreases add@.len() - k,
    {
        let x = add[k];
        let ghost prev = dst@;
        if !crate::units::contains_id(dst, x) {
            dst.push(x);
        }
        proof {
            assert forall|y: UnitId| #![trigger dst@.contains(y)]
                dst@.contains(y) <==> (dst0.contains(y) || add@.subrange(0, k + 1 as int).contains(
                    y,
                )) by {
                if dst@.contains(y) {
                    if prev.contains(y) {
                        if !dst0.contains(y) {
                            let m = choose|m: int|
                                0 <= m < k && add@.subrange(0, k as int)[m] == y;
                            assert(add@.subrange(0, k + 1 as int)[m] == y);
                        }
                    } else {
                        let j = choose|j: int| 0 <= j < dst@.len() && dst@[j] == y;
                        assert(j == prev.len());
                        assert(y == x);
                        assert(add@.subrange(0, k + 1 as int)[k as int] == y);
                    }
                }
                if dst0.contains(y) {
                    let j = choose|j: int| 0 <= j < dst0.len() && dst0[j] == y;
                    assert(prev.contains(y));
                    let j2 = choose|j2: int| 0 <= j2 < prev.len() && prev[j2] == y;
                    assert(dst@[j2] == y);
                }
                if add@.subrange(0, k + 1 as int).contains(y) {
                    let m = choose|m: int|
                        0 <= m <= k && #[trigger] add@.subrange(0, k + 1 as int)[m] == y;
                    if m < k {
                        assert(add@.subrange(0, k as int)[m] == y);
                        assert(prev.contains(y));
                        let j2 = choose|j2: int| 0 <= j2 < prev.len() && prev[j2] == y;
                        assert(dst@[j2] == y);
                    } else {
                        assert(y == x);
                        if prev.contains(x) {
                            let j2 = choose|j2: int| 0 <= j2 < prev.len() && prev[j2] == x;
                            assert(dst@[j2] == y);
                        } else {
                            assert(dst@[prev.len() as int] == x);
                        }
                    }
                }
            }
        }
        k += 1;
    }
    proof {
        assert(add@.subrange(0, add@.len() as int) =~= add@);
    }
}

/// The unit with id `a` pairs with two distinct services.
pub open spec fn two_paired(t: UnitTable, a: UnitId) -> bool {
    exists|b1: UnitId, b2: UnitId|
        #![trigger pairs_ids(t, a, b1), pairs_ids(t, a, b2)]
        pairs_ids(t, a, b1) && pairs_ids(t, a, b2) && b1 != b2
}

/// Some socket pairs with two distinct services.
pub open spec fn socket_overloaded(t: UnitTable) -> bool {
    exists|a: UnitId, b1: UnitId, b2: UnitId|
        #![trigger pairs_ids(t, a, b1), pairs_ids(t, a, b2)]
        pairs_ids(t, a, b1) && pairs_ids(t, a, b2) && b1 != b2
}

/// Two distinct sockets pair with the unit with id `b`.
pub open spec fn two_sockets_for(t: UnitTable, b: UnitId) -> bool {
    exists|a1: UnitId, a2: UnitId|
        #![trigger pairs_ids(t, a1, b), pairs_ids(t, a2, b)]
        pairs_ids(t, a1, b) && pairs_ids(t, a2, b) && a1 != a2
}

/// Some service is paired with two distinct sockets.
pub open spec fn service_overloaded(t: UnitTable) -> bool {
    exists|a1: UnitId, a2: UnitId, b: UnitId|
        #![trigger pairs_ids(t, a1, b), pairs_ids(t, a2, b)]
        pairs_ids(t, a1, b) && pairs_ids(t, a2, b) && a1 != a2
}

/// One unit after the implicit ordering edges were added against the input
/// table `t0`: `after` gains exactly the paired sockets, `before` exactly the
/// paired services, and nothing else changes.
pub open spec fn unit_implicitly_ordered(t0: UnitTable, u: Unit, u0: Unit) -> bool {
    &&& u.id == u0.id
    &&& u.conf == u0.conf
    &&& u.status == u0.status
    &&& u.specialized == u0.specialized
    &&& u.install.install_config == u0.install.install_config
    &&& u.install.wants == u0.install.wants
    &&& u.install.wanted_by == u0.install.wanted_by
    &&& u.install.requires == u0.install.requires
    &&& u.install.required_by == u0.install.required_by
    &&& forall|x: UnitId|
        #![trigger u.install.after@.contains(x)]
        u.install.after@.contains(x) <==> (u0.install.after@.contains(x) || pairs_ids(
            t0,
            x,
            u0.id,
        ))
    &&& forall|x: UnitId|
        #![trigger u.install.before@.contains(x)]
        u.install.before@.contains(x) <==> (u0.install.before@.contains(x) || pairs_ids(
            t0,
            u0.id,
            x,
        ))
    &&& (no_dup(u0.install.after@) ==> no_dup(u.install.after@))
    &&& (no_dup(u0.install.before@) ==> no_dup(u.install.before@))
}

/// Add the implicit ordering edges: each paired socket is ordered before its
/// service.
pub fn add_implicit_before_after(table: &mut UnitTable)
    ensures
        final(table).units@.len() == old(table).units@.len(),
        forall|i: int|
            0 <= i < final(table).units@.len() ==> unit_implicitly_ordered(
                *old(table),
                #[trigger] final(table).units@[i],
                old(table).units@[i],
            ),
{
    let ghost t0 = *table;
    let plist = collect_pairings(&*table);
    let n = table.units.len();
    proof {
        assert(n == t0.units@.len());
    }
    let mut new_units: Vec<Unit> = Vec::new();
    let mut done: usize = 0;
    while table.units.len() > 0
        invariant
            done + table.units@.len() == t0.units@.len(),
            t0.units@.len() <= usize::MAX,
            new_units@.len() == done,
            table.units@ =~= t0.units@.subrange(done as int, t0.units@.len() as int),
            forall|a: UnitId, b: UnitId|
                #![trigger plist@.contains((a, b))]
                plist@.contains((a, b)) <==> pairs_ids(t0, a, b),
            forall|j: int|
                0 <= j < done ==> unit_implicitly_ordered(
                    t0,
                    #[trigger] new_units@[j],
                    t0.units@[j],
                ),
        decreases table.units@.len(),
    {
        let mut u = table.units.remove(0);
        proof {
            assert(u == t0.units@[done as int]);
            assert(table.units@ =~= t0.units@.subrange(done + 1 as int, t0.units@.len() as int));
        }
        let id = u.id;
        let add_after = crate::deps::collect_adjacent(&plist, id, false);
        let add_before = crate::deps::collect_adjacent(&plist, id, true);
        merge_ids(&mut u.install.after, &add_after);
        merge_ids(&mut u.install.before, &add_before);
        proof {
            assert forall|x: UnitId| #![trigger u.install.after@.contains(x)]
                u.install.after@.contains(x) <==> (t0.units@[done as int].install.after@.contains(
                    x,
                ) || pairs_ids(t0, x, id)) by {
                assert(add_after@.contains(x) <==> plist@.contains((x, id)));
            }
            assert forall|x: UnitId| #![trigger u.install.before@.contains(x)]
                u.install.before@.contains(x) <==> (t0.units@[done
                    as int].install.before@.contains(x) || pairs_ids(t0, id, x)) by {
                assert(add_before@.contains(x) <==> plist@.contains((id, x)));
            }
            assert(unit_implicitly_ordered(t0, u, t0.units@[done as int]));
        }
        new_units.push(u);
        done += 1;
    }
    table.units = new_units;
    proof {
        assert forall|i: int|
            0 <= i < table.units@.len() implies unit_implicitly_ordered(
            t0,
            #[trigger] table.units@[i],
            t0.units@[i],
        ) by {
            assert(table.units@[i] == new_units@[i]);
            assert(unit_implicitly_ordered(t0, new_units@[i], t0.units@[i]));
        }
    }
}

/// The implicit edges keep the table fit for cycle detection: ids are
/// unchanged, so uniqueness survives, and every id added to an `after` set is
/// a paired socket's id and therefore a unit of the table.
pub proof fn lemma_implicit_edges_keep_closedness(t0: UnitTable, t: UnitTable)
    requires
        t.units@.len() == t0.units@.len(),
        forall|i: int|
            0 <= i < t.units@.len() ==> unit_implicitly_ordered(
                t0,
                #[trigger] t.units@[i],
                t0.units@[i],
            ),
        crate::sanity::after_closed(t0),
        t0.wf(),
    ensures
        crate::sanity::after_closed(t),
        t.wf(),
{
    assert forall|i: int, x: UnitId|
        0 <= i < t.units@.len() && #[trigger] t.units@[i].install.after@.contains(
            x,
        ) implies t.has_id(x) by {
        assert(unit_implicitly_ordered(t0, t.units@[i], t0.units@[i]));
        if t0.units@[i].install.after@.contains(x) {
            assert(t0.has_id(x));
            let w = choose|w: int| 0 <= w < t0.units@.len() && t0.units@[w].id == x;
            assert(unit_implicitly_ordered(t0, t.units@[w], t0.units@[w]));
            assert(t.units@[w].id == x);
        } else {
            assert(pairs_ids(t0, x, t0.units@[i].id));
            let (si, vi) = choose|si: int, vi: int|
                #![trigger pairs_at(t0, si, vi)]
                pairs_at(t0, si, vi) && t0.units@[si].id == x && t0.units@[vi].id
                    == t0.units@[i].id;
            assert(unit_implicitly_ordered(t0, t.units@[si], t0.units@[si]));
            assert(t.units@[si].id == x);
        }
    }
    assert forall|i: int, j: int|
        0 <= i < j < t.units@.len() implies t.units@[i].id != t.units@[j].id by {
        assert(unit_implicitly_ordered(t0, t.units@[i], t0.units@[i]));
        assert(unit_implicitly_ordered(t0, t.units@[j], t0.units@[j]));
    }
}

/// Socket application preserves the same shape: [`unit_socketed`] changes
/// `after` sets in the same way as the implicit edges do.
pub proof fn lemma_socketed_keeps_closedness(t0: UnitTable, t: UnitTable)
    requires
        t.units@.len() == t0.units@.len(),
        forall|i: int|
            0 <= i < t.units@.len() ==> unit_socketed(t0, #[trigger] t.units@[i], t0.units@[i]),
        crate::sanity::after_closed(t0),
        t0.wf(),
    ensures
        crate::sanity::after_closed(t),
        t.wf(),
{
    assert forall|i: int, x: UnitId|
        0 <= i < t.units@.len() && #[trigger] t.units@[i].install.after@.contains(
            x,
        ) implies t.has_id(x) by {
        assert(unit_socketed(t0, t.units@[i], t0.units@[i]));
        if t0.units@[i].install.after@.contains(x) {
            assert(t0.has_id(x));
            let w = choose|w: int| 0 <= w < t0.units@.len() && t0.units@[w].id == x;
            assert(unit_socketed(t0, t.units@[w], t0.units@[w]));
            assert(t.units@[w].id == x);
        } else {
            assert(pairs_ids(t0, x, t0.units@[i].id));
            let (si, vi) = choose|si: int, vi: int|
                #![trigger pairs_at(t0, si, vi)]
                pairs_at(t0, si, vi) && t0.units@[si].id == x && t0.units@[vi].id
                    == t0.units@[i].id;
            assert(unit_socketed(t0, t.units@[si], t0.units@[si]));
            assert(t.units@[si].id == x);
        }
    }
    assert forall|i: int, j: int|
        0 <= i < j < t.units@.len() implies t.units@[i].id != t.units@[j].id by {
        assert(unit_socketed(t0, t.units@[i], t0.units@[i]));
        assert(unit_socketed(t0, t.units@[j], t0.units@[j]));
    }
}

/// One unit after socket application: the ordering edges as in
/// [`unit_implicitly_ordered`], and a service's `socket_ids` additionally
/// gains exactly the ids of its paired sockets.
pub open spec fn unit_socketed(t0: UnitTable, u: Unit, u0: Unit) -> bool {
    &&& u.id == u0.id
    &&& u.conf == u0.conf
    &&& u.status == u0.status
    &&& u.install.install_config == u0.install.install_config
    &&& u.install.wants == u0.install.wants
    &&& u.install.wanted_by == u0.install.wanted_by
    &&& u.install.requires == u0.install.requires
    &&& u.install.required_by == u0.install.required_by
    &&& forall|x: UnitId|
        #![trigger u.install.after@.contains(x)]
        u.install.after@.contains(x) <==> (u0.install.after@.contains(x) || pairs_ids(
            t0,
            x,
            u0.id,
        ))
    &&& forall|x: UnitId|
        #![trigger u.install.before@.contains(x)]
        u.install.before@.contains(x) <==> (u0.install.before@.contains(x) || pairs_ids(
            t0,
            u0.id,
            x,
        ))
    &&& (no_dup(u0.install.after@) ==> no_dup(u.install.after@))
    &&& (no_dup(u0.install.before@) ==> no_dup(u.install.before@))
    &&& match (u.specialized, u0.specialized) {
        (UnitSpecialized::Service(s), UnitSpecialized::Service(s0)) => {
            &&& s.pid == s0.pid
            &&& s.process_group == s0.process_group
            &&& s.status == s0.status
            &&& s.service_config == s0.service_config
            &&& s.file_descriptors == s0.file_descriptors
            &&& s.status_msgs == s0.status_msgs
            &&& s.signaled_ready == s0.signaled_ready
            &&& s.notifications_path == s0.notifications_path
            &&& s.stdout == s0.stdout
            &&& s.stderr == s0.stderr
            &&& s.notifications_buffer == s0.notifications_buffer
            &&& s.stdout_buffer == s0.stdout_buffer
            &&& s.stderr_buffer == s0.stderr_buffer
            &&& forall|x: UnitId|
                #![trigger s.socket_ids@.contains(x)]
                s.socket_ids@.contains(x) <==> (s0.socket_ids@.contains(x) || pairs_ids(
                    t0,
                    x,
                    u0.id,
                ))
            &&& (no_dup(s0.socket_ids@) ==> no_dup(s.socket_ids@))
        },
        (sp, sp0) => sp == sp0,
    }
}

/// Pair every socket with its services: record the socket's id on the
/// service and add the implicit ordering edges.  A socket that pairs with
/// more than one service is an error, and that is the only error; the table
/// is then left untouched.
pub fn apply_sockets_to_services(table: &mut UnitTable) -> (r: Result<(), String>)
    ensures
        match r {
            Ok(()) => {
                &&& !socket_overloaded(*old(table))
                &&& !service_overloaded(*old(table))
                &&& final(table).units@.len() == old(table).units@.len()
                &&& forall|i: int|
                    0 <= i < final(table).units@.len() ==> unit_socketed(
                        *old(table),
                        #[trigger] final(table).units@[i],
                        old(table).units@[i],
                    )
            },
            Err(_) => (socket_overloaded(*old(table)) || service_overloaded(*old(table)))
                && *final(table) == *old(table),
        },
{
    let ghost t0 = *table;
    let plist = collect_pairings(&*table);
    let n = table.units.len();
    let mut si: usize = 0;
    while si < n
        invariant
            si <= n,
            n == table.units@.len(),
            *table == t0,
            forall|a: UnitId, b: UnitId|
                #![trigger plist@.contains((a, b))]
                plist@.contains((a, b)) <==> pairs_ids(t0, a, b),
            forall|j: int|
                0 <= j < si ==> !two_paired(t0, (#[trigger] t0.units@[j]).id),
            forall|j: int|
                0 <= j < si ==> !two_sockets_for(t0, (#[trigger] t0.units@[j]).id),
        decreases n - si,
    {
        let sid = table.units[si].id;
        let served = crate::deps::collect_adjacent(&plist, sid, true);
        if served.len() > 1 {
            proof {
                assert(served@[0] != served@[1]);
                assert(served@.contains(served@[0]));
                assert(served@.contains(served@[1]));
                assert(pairs_ids(t0, sid, served@[0]));
                assert(pairs_ids(t0, sid, served@[1]));
                assert(two_paired(t0, sid));
                assert(socket_overloaded(t0));
            }
            return Err("socket unit pairs with more than one service (at most one)".to_owned());
        }
        let serving = crate::deps::collect_adjacent(&plist, sid, false);
        if serving.len() > 1 {
            proof {
                assert(serving@[0] != serving@[1]);
                assert(serving@.contains(serving@[0]));
                assert(serving@.contains(serving@[1]));
                assert(pairs_ids(t0, serving@[0], sid));
                assert(pairs_ids(t0, serving@[1], sid));
                assert(two_sockets_for(t0, sid));
                assert(service_overloaded(t0));
            }
            return Err(
                "service unit is paired with more than one socket (at most one)".to_owned(),
            );
        }
        proof {
            assert forall|b1: UnitId, b2: UnitId|
                !(pairs_ids(t0, sid, b1) && pairs_ids(t0, sid, b2) && b1 != b2) by {
                if pairs_ids(t0, sid, b1) && pairs_ids(t0, sid, b2) && b1 != b2 {
                    assert(served@.contains(b1));
                    assert(served@.contains(b2));
                    let k1 = choose|k1: int| 0 <= k1 < served@.len() && served@[k1] == b1;
                    let k2 = choose|k2: int| 0 <= k2 < served@.len() && served@[k2] == b2;
                    assert(false);
                }
            }
            assert(!two_paired(t0, t0.units@[si as int].id));
            assert forall|a1: UnitId, a2: UnitId|
                !(pairs_ids(t0, a1, sid) && pairs_ids(t0, a2, sid) && a1 != a2) by {
                if pairs_ids(t0, a1, sid) && pairs_ids(t0, a2, sid) && a1 != a2 {
                    assert(serving@.contains(a1));
                    assert(serving@.contains(a2));
                    let k1 = choose|k1: int| 0 <= k1 < serving@.len() && serving@[k1] == a1;
                    let k2 = choose|k2: int| 0 <= k2 < serving@.len() && serving@[k2] == a2;
                    assert(false);
                }
            }
            assert(!two_sockets_for(t0, t0.units@[si as int].id));
        }
        si += 1;
    }
    proof {
        assert(!socket_overloaded(t0)) by {
            if socket_overloaded(t0) {
                let (a, b1, b2) = choose|a: UnitId, b1: UnitId, b2: UnitId|
                    #![trigger pairs_ids(t0, a, b1), pairs_ids(t0, a, b2)]
                    pairs_ids(t0, a, b1) && pairs_ids(t0, a, b2) && b1 != b2;
                let (s, w) = choose|s: int, w: int|
                    #![trigger pairs_at(t0, s, w)]
                    pairs_at(t0, s, w) && t0.units@[s].id == a && t0.units@[w].id == b1;
                assert(two_paired(t0, a));
                assert(!two_paired(t0, t0.units@[s].id));
            }
        }
        assert(!service_overloaded(t0)) by {
            if service_overloaded(t0) {
                let (a1, a2, b) = choose|a1: UnitId, a2: UnitId, b: UnitId|
                    #![trigger pairs_ids(t0, a1, b), pairs_ids(t0, a2, b)]
                    pairs_ids(t0, a1, b) && pairs_ids(t0, a2, b) && a1 != a2;
                let (s, w) = choose|s: int, w: int|
                    #![trigger pairs_at(t0, s, w)]
                    pairs_at(t0, s, w) && t0.units@[s].id == a1 && t0.units@[w].id == b;
                assert(two_sockets_for(t0, b));
                assert(!two_sockets_for(t0, t0.units@[w].id));
            }
        }
    }
    let mut new_units: Vec<Unit> = Vec::new();
    let mut done: usize = 0;
    while table.units.len() > 0
        invariant
            done + table.units@.len() == t0.units@.len(),
            t0.units@.len() <= usize::MAX,
            new_units@.len() == done,
            table.units@ =~= t0.units@.subrange(done as int, t0.units@.len() as int),
            forall|a: UnitId, b: UnitId|
                #![trigger plist@.contains((a, b))]
                plist@.contains((a, b)) <==> pairs_ids(t0, a, b),
            forall|j: int|
                0 <= j < done ==> unit_socketed(t0, #[trigger] new_units@[j], t0.units@[j]),
        decreases table.units@.len(),
    {
        let mut u = table.units.remove(0);
        proof {
            assert(u == t0.units@[done as int]);
            assert(table.units@ =~= t0.units@.subrange(done + 1 as int, t0.units@.len() as int));
        }
        let id = u.id;
        let add_after = crate::deps::collect_adjacent(&plist, id, false);
        let add_before = crate::deps::collect_adjacent(&plist, id, true);
        merge_ids(&mut u.install.after, &add_after);
        merge_ids(&mut u.install.before, &add_before);
        proof {
            assert forall|x: UnitId| #![trigger u.install.after@.contains(x)]
                u.install.after@.contains(x) <==> (t0.units@[done as int].install.after@.contains(
                    x,
                ) || pairs_ids(t0, x, id)) by {
                assert(add_after@.contains(x) <==> plist@.contains((x, id)));
            }
            assert forall|x: UnitId| #![trigger u.install.before@.contains(x)]
                u.install.before@.contains(x) <==> (t0.units@[done
                    as int].install.before@.contains(x) || pairs_ids(t0, id, x)) by {
                assert(add_before@.contains(x) <==> plist@.contains((id, x)));
            }
        }
        match &mut u.specialized {
            UnitSpecialized::Service(srv) => {
                merge_ids(&mut srv.socket_ids, &add_after);
                proof {
                    assert forall|x: UnitId| #![trigger srv.socket_ids@.contains(x)]
                        srv.socket_ids@.contains(x) <==> ((t0.units@[done
                            as int].specialized->Service_0).socket_ids@.contains(x) || pairs_ids(
                            t0,
                            x,
                            id,
                        )) by {
                        assert(add_after@.contains(x) <==> plist@.contains((x, id)));
                    }
                }
            },
            _ => {},
        }
        proof {
            assert(unit_socketed(t0, u, t0.units@[done as int]));
        }
        new_units.push(u);
        done += 1;
    }
    table.units = new_units;
    proof {
        assert forall|i: int|
            0 <= i < table.units@.len() implies unit_socketed(
            t0,
            #[trigger] table.units@[i],
            t0.units@[i],
        ) by {
            assert(table.units@[i] == new_units@[i]);
            assert(unit_socketed(t0, new_units@[i], t0.units@[i]));
        }
    }
    Ok(())
}

} // verus!
