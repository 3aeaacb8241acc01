//! Dependency resolution: translate the name-based dependency lists of every
//! unit into id sets, apply the symmetric closure (`wants`/`wanted_by`,
//! `requires`/`required_by`, `before`/`after`), and deduplicate.
//!
//! The resolved sets are characterized exactly by the edge relations
//! [`ord_edge`], [`want_edge`] and [`req_edge`] over the *input* table, which
//! makes edge symmetry and determinism of resolution provable facts.

use crate::units::{contains_id, no_dup, Unit, UnitId, UnitTable};
use vstd::prelude::*;

verus! {

/// Resolution failure: a declared dependency name matches no unit.
#[derive(Clone, PartialEq, Eq, Debug)]
pub enum ResolveError {
    UnknownName(String),
}

/// A directed pair of units.  For ordering, `(a, b)` reads "a before b"; for
/// wants/requires, `(a, b)` reads "a wants b" / "a requires b".
pub type Edge = (UnitId, UnitId);

/// The prefix `upto` of the name list `names` declares an edge between the
/// fixed unit and the unit each name resolves to; `(a, b)` is declared when
/// the fixed unit takes the source role (`fixed_is_source`) and a name
/// resolves to `b`, or the target role and a name resolves to `a`.
pub open spec fn declares_edge(
    t: UnitTable,
    names: Seq<String>,
    upto: int,
    fixed_is_source: bool,
    fixed: UnitId,
    a: UnitId,
    b: UnitId,
) -> bool {
    exists|k: int|
        0 <= k < upto && t.has_name(#[trigger] names[k]@) && (if fixed_is_source {
            a == fixed && b == t.id_of_name(names[k]@)
        } else {
            b == fixed && a == t.id_of_name(names[k]@)
        })
}

/// The unit at index `i` declares the ordering edge "a before b": through its
/// `before` list, its `after` list, or an install section (a unit is ordered
/// before everything it installs itself into).
pub open spec fn unit_ord_edge(t: UnitTable, i: int, a: UnitId, b: UnitId) -> bool {
    let u = t.units@[i];
    ||| declares_edge(t, u.conf.before@, u.conf.before@.len() as int, true, u.id, a, b)
    ||| declares_edge(t, u.conf.after@, u.conf.after@.len() as int, false, u.id, a, b)
    ||| (match u.install.install_config {
        Some(c) => declares_edge(t, c.wanted_by@, c.wanted_by@.len() as int, true, u.id, a, b)
            || declares_edge(t, c.required_by@, c.required_by@.len() as int, true, u.id, a, b),
        None => false,
    })
}

/// The unit at index `i` declares "a wants b": through its own `wants` list,
/// or through an install `wanted_by` naming the wanting unit.
pub open spec fn unit_want_edge(t: UnitTable, i: int, a: UnitId, b: UnitId) -> bool {
    let u = t.units@[i];
    ||| declares_edge(t, u.conf.wants@, u.conf.wants@.len() as int, true, u.id, a, b)
    ||| (match u.install.install_config {
        Some(c) => declares_edge(t, c.wanted_by@, c.wanted_by@.len() as int, false, u.id, a, b),
        None => false,
    })
}

/// The unit at index `i` declares "a requires b".
pub open spec fn unit_req_edge(t: UnitTable, i: int, a: UnitId, b: UnitId) -> bool {
    let u = t.units@[i];
    ||| declares_edge(t, u.conf.requires@, u.conf.requires@.len() as int, true, u.id, a, b)
    ||| (match u.install.install_config {
        Some(c) => declares_edge(t, c.required_by@, c.required_by@.len() as int, false, u.id, a, b),
        None => false,
    })
}

/// Some unit of `t` declares the ordering edge "a before b".
pub open spec fn ord_edge(t: UnitTable, a: UnitId, b: UnitId) -> bool {
    exists|i: int| 0 <= i < t.units@.len() && unit_ord_edge(t, i, a, b)
}

/// Some unit of `t` declares "a wants b".
pub open spec fn want_edge(t: UnitTable, a: UnitId, b: UnitId) -> bool {
    exists|i: int| 0 <= i < t.units@.len() && unit_want_edge(t, i, a, b)
}

/// Some unit of `t` declares "a requires b".
pub open spec fn req_edge(t: UnitTable, a: UnitId, b: UnitId) -> bool {
    exists|i: int| 0 <= i < t.units@.len() && unit_req_edge(t, i, a, b)
}

/// The unit at index `i` references a dependency name no unit carries.
pub open spec fn unit_has_unknown_name(t: UnitTable, i: int) -> bool {
    let u = t.units@[i];
    ||| (exists|k: int| 0 <= k < u.conf.before@.len() && !t.has_name(#[trigger] u.conf.before@[k]@))
    ||| (exists|k: int| 0 <= k < u.conf.after@.len() && !t.has_name(#[trigger] u.conf.after@[k]@))
    ||| (exists|k: int| 0 <= k < u.conf.wants@.len() && !t.has_name(#[trigger] u.conf.wants@[k]@))
    ||| (exists|k: int|
        0 <= k < u.conf.requires@.len() && !t.has_name(#[trigger] u.conf.requires@[k]@))
    ||| (match u.install.install_config {
        Some(c) => (exists|k: int|
            0 <= k < c.wanted_by@.len() && !t.has_name(#[trigger] c.wanted_by@[k]@)) || (exists|
            k: int,
        |
            0 <= k < c.required_by@.len() && !t.has_name(#[trigger] c.required_by@[k]@)),
        None => false,
    })
}

/// The unit at index `i` declares `n` as a dependency name, in one of its
/// six name lists.
pub open spec fn declares_name(t: UnitTable, i: int, n: Seq<char>) -> bool {
    let u = t.units@[i];
    ||| (exists|k: int| 0 <= k < u.conf.before@.len() && (#[trigger] u.conf.before@[k]@) == n)
    ||| (exists|k: int| 0 <= k < u.conf.after@.len() && (#[trigger] u.conf.after@[k]@) == n)
    ||| (exists|k: int| 0 <= k < u.conf.wants@.len() && (#[trigger] u.conf.wants@[k]@) == n)
    ||| (exists|k: int| 0 <= k < u.conf.requires@.len() && (#[trigger] u.conf.requires@[k]@) == n)
    ||| (match u.install.install_config {
        Some(c) => (exists|k: int|
            0 <= k < c.wanted_by@.len() && (#[trigger] c.wanted_by@[k]@) == n) || (exists|k: int|
            0 <= k < c.required_by@.len() && (#[trigger] c.required_by@[k]@) == n),
        None => false,
    })
}

proof fn lemma_declares_intro(
    t: UnitTable,
    names: Seq<String>,
    upto: int,
    k: int,
    fixed_is_source: bool,
    fixed: UnitId,
    a: UnitId,
    b: UnitId,
)
    requires
        0 <= k < upto,
        t.has_name(names[k]@),
        fixed_is_source ==> a == fixed && b == t.id_of_name(names[k]@),
        !fixed_is_source ==> b == fixed && a == t.id_of_name(names[k]@),
    ensures
        declares_edge(t, names, upto, fixed_is_source, fixed, a, b),
{
}

proof fn lemma_declares_mono(
    t: UnitTable,
    names: Seq<String>,
    upto1: int,
    upto2: int,
    fixed_is_source: bool,
    fixed: UnitId,
    a: UnitId,
    b: UnitId,
)
    requires
        0 <= upto1 <= upto2,
        declares_edge(t, names, upto1, fixed_is_source, fixed, a, b),
    ensures
        declares_edge(t, names, upto2, fixed_is_source, fixed, a, b),
{
    let k = choose|k: int|
        0 <= k < upto1 && t.has_name(#[trigger] names[k]@) && (if fixed_is_source {
            a == fixed && b == t.id_of_name(names[k]@)
        } else {
            b == fixed && a == t.id_of_name(names[k]@)
        });
    lemma_declares_intro(t, names, upto2, k, fixed_is_source, fixed, a, b);
}

proof fn lemma_declares_step(
    t: UnitTable,
    names: Seq<String>,
    i: int,
    fixed_is_source: bool,
    fixed: UnitId,
    a: UnitId,
    b: UnitId,
)
    requires
        0 <= i,
        declares_edge(t, names, i + 1, fixed_is_source, fixed, a, b),
        !declares_edge(t, names, i, fixed_is_source, fixed, a, b),
    ensures
        t.has_name(names[i]@),
        fixed_is_source ==> a == fixed && b == t.id_of_name(names[i]@),
        !fixed_is_source ==> b == fixed && a == t.id_of_name(names[i]@),
{
    let k = choose|k: int|
        0 <= k < i + 1 && t.has_name(#[trigger] names[k]@) && (if fixed_is_source {
            a == fixed && b == t.id_of_name(names[k]@)
        } else {
            b == fixed && a == t.id_of_name(names[k]@)
        });
    if k < i {
        lemma_declares_intro(t, names, i, k, fixed_is_source, fixed, a, b);
    }
    assert(k == i);
}

pub(crate) proof fn lemma_edge_contains_push(s: Seq<Edge>, e: Edge, x: Edge)
    ensures
        s.push(e).contains(x) <==> (s.contains(x) || x == e),
{
    if s.push(e).contains(x) {
        let k = choose|k: int| 0 <= k < s.push(e).len() && s.push(e)[k] == x;
        if k < s.len() {
            assert(s[k] == x);
        }
    }
    if s.contains(x) {
        let k = choose|k: int| 0 <= k < s.len() && s[k] == x;
        assert(s.push(e)[k] == x);
    }
    if x == e {
        assert(s.push(e)[s.len() as int] == x);
    }
}

/// `out1` extends `out0` by exactly the edges the prefix `upto` of `names`
/// declares for the fixed unit.
pub open spec fn edges_upto(
    t: UnitTable,
    names: Seq<String>,
    upto: int,
    fixed_is_source: bool,
    fixed: UnitId,
    out0: Seq<Edge>,
    out1: Seq<Edge>,
) -> bool {
    forall|a: UnitId, b: UnitId|
        #![trigger out1.contains((a, b))]
        out1.contains((a, b)) <==> (out0.contains((a, b)) || declares_edge(
            t,
            names,
            upto,
            fixed_is_source,
            fixed,
            a,
            b,
        ))
}

/// Every name in the list names some unit of the table.
pub open spec fn all_names_known(t: UnitTable, names: Seq<String>) -> bool {
    forall|k: int| 0 <= k < names.len() ==> t.has_name(#[trigger] names[k]@)
}

/// Translate one name list into edges and append them to `out`.
fn append_edges(
    t: &UnitTable,
    names: &Vec<String>,
    fixed_is_source: bool,
    fixed: UnitId,
    out: &mut Vec<Edge>,
) -> (r: Result<(), ResolveError>)
    requires
        t.unique_names(),
    ensures
        match r {
            Ok(()) => edges_upto(
                *t,
                names@,
                names@.len() as int,
                fixed_is_source,
                fixed,
                old(out)@,
                final(out)@,
            ) && all_names_known(*t, names@),
            Err(ResolveError::UnknownName(n)) => exists|k: int|
                0 <= k < names@.len() && (#[trigger] names@[k]@) == n@ && !t.has_name(n@),
        },
{
    let ghost out0 = out@;
    let mut i: usize = 0;
    while i < names.len()
        invariant
            i <= names@.len(),
            t.unique_names(),
            forall|k: int| 0 <= k < i ==> t.has_name(#[trigger] names@[k]@),
            forall|a: UnitId, b: UnitId|
                out@.contains((a, b)) <==> (out0.contains((a, b)) || declares_edge(
                    *t,
                    names@,
                    i as int,
                    fixed_is_source,
                    fixed,
                    a,
                    b,
                )),
        decreases names@.len() - i,
    {
        let name = &names[i];
        match t.find_id_by_name(name.as_str()) {
            Some(id) => {
                let e: Edge = if fixed_is_source {
                    (fixed, id)
                } else {
                    (id, fixed)
                };
                let ghost prev = out@;
                out.push(e);
                proof {
                    assert forall|a: UnitId, b: UnitId|
                        out@.contains((a, b)) <==> (out0.contains((a, b)) || declares_edge(
                            *t,
                            names@,
                            i + 1 as int,
                            fixed_is_source,
                            fixed,
                            a,
                            b,
                        )) by {
                        lemma_edge_contains_push(prev, e, (a, b));
                        if declares_edge(*t, names@, i as int, fixed_is_source, fixed, a, b) {
                            lemma_declares_mono(
                                *t,
                                names@,
                                i as int,
                                i + 1 as int,
                                fixed_is_source,
                                fixed,
                                a,
                                b,
                            );
                        }
                        if (a, b) == e {
                            lemma_declares_intro(
                                *t,
                                names@,
                                i + 1 as int,
                                i as int,
                                fixed_is_source,
                                fixed,
                                a,
                                b,
                            );
                        }
                        if declares_edge(*t, names@, i + 1 as int, fixed_is_source, fixed, a, b)
                            && !declares_edge(
                            *t,
                            names@,
                            i as int,
                            fixed_is_source,
                            fixed,
                            a,
                            b,
                        ) {
                            lemma_declares_step(
                                *t,
                                names@,
                                i as int,
                                fixed_is_source,
                                fixed,
                                a,
                                b,
                            );
                            assert((a, b) == e);
                        }
                    }
                }
            },
            None => {
                return Err(ResolveError::UnknownName(name.clone()));
            },
        }
        i += 1;
    }
    proof {
        assert(out0 == old(out)@);
        assert(edges_upto(
            *t,
            names@,
            names@.len() as int,
            fixed_is_source,
            fixed,
            old(out)@,
            out@,
        )) by {
            assert forall|a: UnitId, b: UnitId| #![trigger out@.contains((a, b))]
                out@.contains((a, b)) <==> (old(out)@.contains((a, b)) || declares_edge(
                    *t,
                    names@,
                    names@.len() as int,
                    fixed_is_source,
                    fixed,
                    a,
                    b,
                )) by {
                assert(out@.contains((a, b)) <==> (out0.contains((a, b)) || declares_edge(
                    *t,
                    names@,
                    i as int,
                    fixed_is_source,
                    fixed,
                    a,
                    b,
                )));
                assert(out0.contains((a, b)) == old(out)@.contains((a, b)));
                assert(declares_edge(*t, names@, i as int, fixed_is_source, fixed, a, b)
                    == declares_edge(
                    *t,
                    names@,
                    names@.len() as int,
                    fixed_is_source,
                    fixed,
                    a,
                    b,
                ));
            }
        }
        assert(all_names_known(*t, names@));
    }
    Ok(())
}

/// `out1` extends `out0` by exactly the ordering edges unit `i` declares.
pub open spec fn ord_edges_extended(t: UnitTable, i: int, out0: Seq<Edge>, out1: Seq<Edge>) -> bool {
    forall|a: UnitId, b: UnitId|
        #![trigger out1.contains((a, b))]
        out1.contains((a, b)) <==> (out0.contains((a, b)) || unit_ord_edge(t, i, a, b))
}

/// `out1` extends `out0` by exactly the want edges unit `i` declares.
pub open spec fn want_edges_extended(
    t: UnitTable,
    i: int,
    out0: Seq<Edge>,
    out1: Seq<Edge>,
) -> bool {
    forall|a: UnitId, b: UnitId|
        #![trigger out1.contains((a, b))]
        out1.contains((a, b)) <==> (out0.contains((a, b)) || unit_want_edge(t, i, a, b))
}

/// `out1` extends `out0` by exactly the require edges unit `i` declares.
pub open spec fn req_edges_extended(
    t: UnitTable,
    i: int,
    out0: Seq<Edge>,
    out1: Seq<Edge>,
) -> bool {
    forall|a: UnitId, b: UnitId|
        #![trigger out1.contains((a, b))]
        out1.contains((a, b)) <==> (out0.contains((a, b)) || unit_req_edge(t, i, a, b))
}

/// Collect the edges one unit declares, appending to the three edge lists.
fn collect_unit_edges(
    t: &UnitTable,
    i: usize,
    ord: &mut Vec<Edge>,
    want: &mut Vec<Edge>,
    req: &mut Vec<Edge>,
) -> (r: Result<(), ResolveError>)
    requires
        t.unique_names(),
        i < t.units@.len(),
    ensures
        match r {
            Ok(()) => ord_edges_extended(*t, i as int, old(ord)@, final(ord)@)
                && want_edges_extended(*t, i as int, old(want)@, final(want)@)
                && req_edges_extended(*t, i as int, old(req)@, final(req)@)
                && !unit_has_unknown_name(*t, i as int),
            Err(ResolveError::UnknownName(n)) => unit_has_unknown_name(*t, i as int)
                && !t.has_name(n@) && declares_name(*t, i as int, n@),
        },
{
    let u = &t.units[i];
    let ghost ord0 = ord@;
    let ghost want0 = want@;
    let ghost req0 = req@;
    match append_edges(t, &u.conf.before, true, u.id, ord) {
        Ok(()) => {},
        Err(e) => {
            proof {
                let n = e->UnknownName_0;
                let k = choose|k: int|
                    0 <= k < u.conf.before@.len() && (#[trigger] u.conf.before@[k]@) == n@
                        && !t.has_name(n@);
                assert(!t.has_name(u.conf.before@[k]@));
                assert(declares_name(*t, i as int, n@));
            }
            return Err(e);
        },
    }
    let ghost ord1 = ord@;
    match append_edges(t, &u.conf.after, false, u.id, ord) {
        Ok(()) => {},
        Err(e) => {
            proof {
                let n = e->UnknownName_0;
                let k = choose|k: int|
                    0 <= k < u.conf.after@.len() && (#[trigger] u.conf.after@[k]@) == n@
                        && !t.has_name(n@);
                assert(!t.has_name(u.conf.after@[k]@));
                assert(declares_name(*t, i as int, n@));
            }
            return Err(e);
        },
    }
    let ghost ord2 = ord@;
    match append_edges(t, &u.conf.wants, true, u.id, want) {
        Ok(()) => {},
        Err(e) => {
            proof {
                let n = e->UnknownName_0;
                let k = choose|k: int|
                    0 <= k < u.conf.wants@.len() && (#[trigger] u.conf.wants@[k]@) == n@
                        && !t.has_name(n@);
                assert(!t.has_name(u.conf.wants@[k]@));
                assert(declares_name(*t, i as int, n@));
            }
            return Err(e);
        },
    }
    let ghost want1 = want@;
    match append_edges(t, &u.conf.requires, true, u.id, req) {
        Ok(()) => {},
        Err(e) => {
            proof {
                let n = e->UnknownName_0;
                let k = choose|k: int|
                    0 <= k < u.conf.requires@.len() && (#[trigger] u.conf.requires@[k]@) == n@
                        && !t.has_name(n@);
                assert(!t.has_name(u.conf.requires@[k]@));
                assert(declares_name(*t, i as int, n@));
            }
            return Err(e);
        },
    }
    let ghost req1 = req@;
    match &u.install.install_config {
        Some(c) => {
            match append_edges(t, &c.wanted_by, true, u.id, ord) {
                Ok(()) => {},
                Err(e) => {
                    proof {
                        let n = e->UnknownName_0;
                        let k = choose|k: int|
                            0 <= k < c.wanted_by@.len() && (#[trigger] c.wanted_by@[k]@) == n@
                                && !t.has_name(n@);
                        assert(!t.has_name(c.wanted_by@[k]@));
                        assert(declares_name(*t, i as int, n@));
                    }
                    return Err(e);
                },
            }
            let ghost ord3 = ord@;
            match append_edges(t, &c.required_by, true, u.id, ord) {
                Ok(()) => {},
                Err(e) => {
                    proof {
                        let n = e->UnknownName_0;
                        let k = choose|k: int|
                            0 <= k < c.required_by@.len() && (#[trigger] c.required_by@[k]@)
                                == n@ && !t.has_name(n@);
                        assert(!t.has_name(c.required_by@[k]@));
                    }
                    return Err(e);
                },
            }
            match append_edges(t, &c.wanted_by, false, u.id, want) {
                Ok(()) => {},
                Err(e) => {
                    proof {
                        let n = e->UnknownName_0;
                        let k = choose|k: int|
                            0 <= k < c.wanted_by@.len() && (#[trigger] c.wanted_by@[k]@) == n@
                                && !t.has_name(n@);
                        assert(!t.has_name(c.wanted_by@[k]@));
                        assert(declares_name(*t, i as int, n@));
                    }
                    return Err(e);
                },
            }
            match append_edges(t, &c.required_by, false, u.id, req) {
                Ok(()) => {},
                Err(e) => {
                    proof {
                        let n = e->UnknownName_0;
                        let k = choose|k: int|
                            0 <= k < c.required_by@.len() && (#[trigger] c.required_by@[k]@)
                                == n@ && !t.has_name(n@);
                        assert(!t.has_name(c.required_by@[k]@));
                    }
                    return Err(e);
                },
            }
            proof {
                assert forall|a: UnitId, b: UnitId| #![trigger ord@.contains((a, b))]
                    ord@.contains((a, b)) <==> (ord0.contains((a, b)) || unit_ord_edge(
                        *t,
                        i as int,
                        a,
                        b,
                    )) by {
                    assert(ord1.contains((a, b)) <==> (ord0.contains((a, b)) || declares_edge(
                        *t,
                        u.conf.before@,
                        u.conf.before@.len() as int,
                        true,
                        u.id,
                        a,
                        b,
                    )));
                    assert(ord2.contains((a, b)) <==> (ord1.contains((a, b)) || declares_edge(
                        *t,
                        u.conf.after@,
                        u.conf.after@.len() as int,
                        false,
                        u.id,
                        a,
                        b,
                    )));
                    assert(ord3.contains((a, b)) <==> (ord2.contains((a, b)) || declares_edge(
                        *t,
                        c.wanted_by@,
                        c.wanted_by@.len() as int,
                        true,
                        u.id,
                        a,
                        b,
                    )));
                    assert(ord@.contains((a, b)) <==> (ord3.contains((a, b)) || declares_edge(
                        *t,
                        c.required_by@,
                        c.required_by@.len() as int,
                        true,
                        u.id,
                        a,
                        b,
                    )));
                }
                assert forall|a: UnitId, b: UnitId| #![trigger want@.contains((a, b))]
                    want@.contains((a, b)) <==> (want0.contains((a, b)) || unit_want_edge(
                        *t,
                        i as int,
                        a,
                        b,
                    )) by {
                    assert(want1.contains((a, b)) <==> (want0.contains((a, b)) || declares_edge(
                        *t,
                        u.conf.wants@,
                        u.conf.wants@.len() as int,
                        true,
                        u.id,
                        a,
                        b,
                    )));
                    assert(want@.contains((a, b)) <==> (want1.contains((a, b)) || declares_edge(
                        *t,
                        c.wanted_by@,
                        c.wanted_by@.len() as int,
                        false,
                        u.id,
                        a,
                        b,
                    )));
                }
                assert forall|a: UnitId, b: UnitId| #![trigger req@.contains((a, b))]
                    req@.contains((a, b)) <==> (req0.contains((a, b)) || unit_req_edge(
                        *t,
                        i as int,
                        a,
                        b,
                    )) by {
                    assert(req1.contains((a, b)) <==> (req0.contains((a, b)) || declares_edge(
                        *t,
                        u.conf.requires@,
                        u.conf.requires@.len() as int,
                        true,
                        u.id,
                        a,
                        b,
                    )));
                    assert(req@.contains((a, b)) <==> (req1.contains((a, b)) || declares_edge(
                        *t,
                        c.required_by@,
                        c.required_by@.len() as int,
                        false,
                        u.id,
                        a,
                        b,
                    )));
                }
            }
        },
        None => {
            proof {
                assert forall|a: UnitId, b: UnitId| #![trigger ord@.contains((a, b))]
                    ord@.contains((a, b)) <==> (ord0.contains((a, b)) || unit_ord_edge(
                        *t,
                        i as int,
                        a,
                        b,
                    )) by {
                    assert(ord1.contains((a, b)) <==> (ord0.contains((a, b)) || declares_edge(
                        *t,
                        u.conf.before@,
                        u.conf.before@.len() as int,
                        true,
                        u.id,
                        a,
                        b,
                    )));
                    assert(ord2.contains((a, b)) <==> (ord1.contains((a, b)) || declares_edge(
                        *t,
                        u.conf.after@,
                        u.conf.after@.len() as int,
                        false,
                        u.id,
                        a,
                        b,
                    )));
                }
                assert forall|a: UnitId, b: UnitId| #![trigger want@.contains((a, b))]
                    want@.contains((a, b)) <==> (want0.contains((a, b)) || unit_want_edge(
                        *t,
                        i as int,
                        a,
                        b,
                    )) by {
                    assert(want1.contains((a, b)) <==> (want0.contains((a, b)) || declares_edge(
                        *t,
                        u.conf.wants@,
                        u.conf.wants@.len() as int,
                        true,
                        u.id,
                        a,
                        b,
                    )));
                }
                assert forall|a: UnitId, b: UnitId| #![trigger req@.contains((a, b))]
                    req@.contains((a, b)) <==> (req0.contains((a, b)) || unit_req_edge(
                        *t,
                        i as int,
                        a,
                        b,
                    )) by {
                    assert(req1.contains((a, b)) <==> (req0.contains((a, b)) || declares_edge(
                        *t,
                        u.conf.requires@,
                        u.conf.requires@.len() as int,
                        true,
                        u.id,
                        a,
                        b,
                    )));
                }
            }
        },
    }
    Ok(())
}

/// The ids reachable from `key` in the edge list: every `x` with `(key, x)`
/// when `key_is_source`, else every `x` with `(x, key)`; duplicate-free.
pub(crate) fn collect_adjacent(edges: &Vec<Edge>, key: UnitId, key_is_source: bool) -> (r: Vec<UnitId>)
    ensures
        no_dup(r@),
        key_is_source ==> forall|x: UnitId|
            #![trigger r@.contains(x)]
            r@.contains(x) <==> edges@.contains((key, x)),
        !key_is_source ==> forall|x: UnitId|
            #![trigger r@.contains(x)]
            r@.contains(x) <==> edges@.contains((x, key)),
{
    let mut r: Vec<UnitId> = Vec::new();
    let mut k: usize = 0;
    while k < edges.len()
        invariant
            k <= edges@.len(),
            no_dup(r@),
            forall|x: UnitId|
                #![trigger r@.contains(x)]
                r@.contains(x) <==> exists|m: int|
                    0 <= m < k && #[trigger] edges@[m] == (if key_is_source {
                        (key, x)
                    } else {
                        (x, key)
                    }),
        decreases edges@.len() - k,
    {
        let e = edges[k];
        let hit = if key_is_source {
            e.0 == key
        } else {
            e.1 == key
        };
        if hit {
            let x = if key_is_source {
                e.1
            } else {
                e.0
            };
            if !contains_id(&r, x) {
                let ghost prev = r@;
                r.push(x);
                proof {
                    assert forall|y: UnitId| #![trigger r@.contains(y)]
                        r@.contains(y) <==> exists|m: int|
                            0 <= m < k + 1 && #[trigger] edges@[m] == (if key_is_source {
                                (key, y)
                            } else {
                                (y, key)
                            }) by {
                        assert(r@ == prev.push(x));
                        if r@.contains(y) {
                            let j = choose|j: int| 0 <= j < r@.len() && r@[j] == y;
                            if j < prev.len() {
                                assert(prev[j] == y);
                                assert(prev.contains(y));
                                let m = choose|m: int|
                                    0 <= m < k && #[trigger] edges@[m] == (if key_is_source {
                                        (key, y)
                                    } else {
                                        (y, key)
                                    });
                                assert(edges@[m] == (if key_is_source {
                                    (key, y)
                                } else {
                                    (y, key)
                                }));
                            } else {
                                assert(y == x);
                                assert(edges@[k as int] == (if key_is_source {
                                    (key, y)
                                } else {
                                    (y, key)
                                }));
                            }
                        }
                        if exists|m: int|
                            0 <= m < k + 1 && #[trigger] edges@[m] == (if key_is_source {
                                (key, y)
                            } else {
                                (y, key)
                            }) {
                            let m = choose|m: int|
                                0 <= m < k + 1 && #[trigger] edges@[m] == (if key_is_source {
                                    (key, y)
                                } else {
                                    (y, key)
                                });
                            if m < k {
                                assert(prev.contains(y));
                                let j = choose|j: int| 0 <= j < prev.len() && prev[j] == y;
                                assert(r@[j] == y);
                            } else {
                                assert(y == x);
                                assert(r@[prev.len() as int] == y);
                            }
                        }
                    }
                }
            } else {
                proof {
                    assert forall|y: UnitId| #![trigger r@.contains(y)]
                        r@.contains(y) <==> exists|m: int|
                            0 <= m < k + 1 && #[trigger] edges@[m] == (if key_is_source {
                                (key, y)
                            } else {
                                (y, key)
                            }) by {
                        if exists|m: int|
                            0 <= m < k + 1 && #[trigger] edges@[m] == (if key_is_source {
                                (key, y)
                            } else {
                                (y, key)
                            }) {
                            let m = choose|m: int|
                                0 <= m < k + 1 && #[trigger] edges@[m] == (if key_is_source {
                                    (key, y)
                                } else {
                                    (y, key)
                                });
                            if m == k {
                                assert(y == x);
                            }
                        }
                    }
                }
            }
        } else {
            proof {
                assert forall|y: UnitId| #![trigger r@.contains(y)]
                    r@.contains(y) <==> exists|m: int|
                        0 <= m < k + 1 && #[trigger] edges@[m] == (if key_is_source {
                            (key, y)
                        } else {
                            (y, key)
                        }) by {
                    if exists|m: int|
                        0 <= m < k + 1 && #[trigger] edges@[m] == (if key_is_source {
                            (key, y)
                        } else {
                            (y, key)
                        }) {
                        let m = choose|m: int|
                            0 <= m < k + 1 && #[trigger] edges@[m] == (if key_is_source {
                                (key, y)
                            } else {
                                (y, key)
                            });
                        assert(m < k);
                    }
                }
            }
        }
        k += 1;
    }
    proof {
        if key_is_source {
            assert forall|x: UnitId| #![trigger r@.contains(x)]
                r@.contains(x) <==> edges@.contains((key, x)) by {
                assert(r@.contains(x) <==> exists|m: int|
                    0 <= m < k && #[trigger] edges@[m] == (if key_is_source {
                        (key, x)
                    } else {
                        (x, key)
                    }));
                if edges@.contains((key, x)) {
                    let m = choose|m: int| 0 <= m < edges@.len() && edges@[m] == (key, x);
                    assert(edges@[m] == (if key_is_source {
                        (key, x)
                    } else {
                        (x, key)
                    }));
                }
                if exists|m: int|
                    0 <= m < k && #[trigger] edges@[m] == (if key_is_source {
                        (key, x)
                    } else {
                        (x, key)
                    }) {
                    let m = choose|m: int|
                        0 <= m < k && #[trigger] edges@[m] == (if key_is_source {
                            (key, x)
                        } else {
                            (x, key)
                        });
                    assert(edges@.contains((key, x)));
                }
            }
        } else {
            assert forall|x: UnitId| #![trigger r@.contains(x)]
                r@.contains(x) <==> edges@.contains((x, key)) by {
                assert(r@.contains(x) <==> exists|m: int|
                    0 <= m < k && #[trigger] edges@[m] == (if key_is_source {
                        (key, x)
                    } else {
                        (x, key)
                    }));
                if edges@.contains((x, key)) {
                    let m = choose|m: int| 0 <= m < edges@.len() && edges@[m] == (x, key);
                    assert(edges@[m] == (if key_is_source {
                        (key, x)
                    } else {
                        (x, key)
                    }));
                }
                if exists|m: int|
                    0 <= m < k && #[trigger] edges@[m] == (if key_is_source {
                        (key, x)
                    } else {
                        (x, key)
                    }) {
                    let m = choose|m: int|
                        0 <= m < k && #[trigger] edges@[m] == (if key_is_source {
                            (key, x)
                        } else {
                            (x, key)
                        });
                    assert(edges@.contains((x, key)));
                }
            }
        }
    }
    r
}

/// The edge list holds exactly the edges declared by the first `upto` units.
pub open spec fn ord_collected(t0: UnitTable, upto: int, es: Seq<Edge>) -> bool {
    forall|a: UnitId, b: UnitId|
        #![trigger es.contains((a, b))]
        es.contains((a, b)) <==> exists|j: int| 0 <= j < upto && unit_ord_edge(t0, j, a, b)
}

pub open spec fn want_collected(t0: UnitTable, upto: int, es: Seq<Edge>) -> bool {
    forall|a: UnitId, b: UnitId|
        #![trigger es.contains((a, b))]
        es.contains((a, b)) <==> exists|j: int| 0 <= j < upto && unit_want_edge(t0, j, a, b)
}

pub open spec fn req_collected(t0: UnitTable, upto: int, es: Seq<Edge>) -> bool {
    forall|a: UnitId, b: UnitId|
        #![trigger es.contains((a, b))]
        es.contains((a, b)) <==> exists|j: int| 0 <= j < upto && unit_req_edge(t0, j, a, b)
}

/// One unit of the resolved table, against the input table `t0`: identity,
/// configuration and status unchanged, and each dependency set duplicate-free
/// and holding exactly the ids its edge relation prescribes.
pub open spec fn unit_resolved(t0: UnitTable, u: Unit, u0: Unit) -> bool {
    &&& u.id == u0.id
    &&& u.conf == u0.conf
    &&& u.specialized == u0.specialized
    &&& u.status == u0.status
    &&& u.install.install_config == u0.install.install_config
    &&& no_dup(u.install.before@)
    &&& no_dup(u.install.after@)
    &&& no_dup(u.install.wants@)
    &&& no_dup(u.install.wanted_by@)
    &&& no_dup(u.install.requires@)
    &&& no_dup(u.install.required_by@)
    &&& forall|x: UnitId|
        #![trigger u.install.before@.contains(x)]
        u.install.before@.contains(x) <==> ord_edge(t0, u.id, x)
    &&& forall|x: UnitId|
        #![trigger u.install.after@.contains(x)]
        u.install.after@.contains(x) <==> ord_edge(t0, x, u.id)
    &&& forall|x: UnitId|
        #![trigger u.install.wants@.contains(x)]
        u.install.wants@.contains(x) <==> want_edge(t0, u.id, x)
    &&& forall|x: UnitId|
        #![trigger u.install.wanted_by@.contains(x)]
        u.install.wanted_by@.contains(x) <==> want_edge(t0, x, u.id)
    &&& forall|x: UnitId|
        #![trigger u.install.requires@.contains(x)]
        u.install.requires@.contains(x) <==> req_edge(t0, u.id, x)
    &&& forall|x: UnitId|
        #![trigger u.install.required_by@.contains(x)]
        u.install.required_by@.contains(x) <==> req_edge(t0, x, u.id)
}

/// `t` is the resolution of the input table `t0`.
pub open spec fn resolved_from(t: UnitTable, t0: UnitTable) -> bool {
    &&& t.units@.len() == t0.units@.len()
    &&& forall|i: int|
        0 <= i < t.units@.len() ==> unit_resolved(t0, #[trigger] t.units@[i], t0.units@[i])
}

/// Resolve every unit's declared dependencies into id sets.  On success the
/// table is resolved exactly as [`resolved_from`] states: edges are
/// symmetric by construction, every set is duplicate-free, and the result is
/// a function of the input table alone.  The table is untouched when a
/// dependency name is unknown, and that is the only error.
pub fn fill_dependencies(table: &mut UnitTable) -> (r: Result<(), ResolveError>)
    requires
        old(table).wf(),
        old(table).unique_names(),
    ensures
        match r {
            Ok(()) => resolved_from(*final(table), *old(table)) && final(table).wf()
                && final(table).unique_names(),
            Err(ResolveError::UnknownName(n)) => *final(table) == *old(table) && !old(
                table,
            ).has_name(n@) && exists|i: int|
                0 <= i < old(table).units@.len() && #[trigger] declares_name(
                    *old(table),
                    i,
                    n@,
                ),
        },
        r is Err <==> exists|i: int|
            0 <= i < old(table).units@.len() && unit_has_unknown_name(*old(table), i),
{
    let ghost t0 = *table;
    let mut ord: Vec<Edge> = Vec::new();
    let mut want: Vec<Edge> = Vec::new();
    let mut req: Vec<Edge> = Vec::new();
    let n = table.units.len();
    let mut i: usize = 0;
    while i < n
        invariant
            i <= n,
            n == table.units@.len(),
            *table == t0,
            t0.wf(),
            t0.unique_names(),
            ord_collected(t0, i as int, ord@),
            want_collected(t0, i as int, want@),
            req_collected(t0, i as int, req@),
            forall|j: int| 0 <= j < i ==> !unit_has_unknown_name(t0, j),
        decreases n - i,
    {
        let ghost ord_prev = ord@;
        let ghost want_prev = want@;
        let ghost req_prev = req@;
        match collect_unit_edges(&*table, i, &mut ord, &mut want, &mut req) {
            Ok(()) => {},
            Err(e) => {
                proof {
                    assert(unit_has_unknown_name(t0, i as int));
                    let n = e->UnknownName_0;
                    assert(declares_name(t0, i as int, n@));
                }
                return Err(e);
            },
        }
        proof {
            assert forall|a: UnitId, b: UnitId| #![trigger ord@.contains((a, b))]
                ord@.contains((a, b)) <==> exists|j: int|
                    0 <= j < i + 1 && unit_ord_edge(t0, j, a, b) by {
                assert(ord@.contains((a, b)) <==> (ord_prev.contains((a, b)) || unit_ord_edge(
                    t0,
                    i as int,
                    a,
                    b,
                )));
                assert(ord_prev.contains((a, b)) <==> exists|j: int|
                    0 <= j < i && unit_ord_edge(t0, j, a, b));
                if exists|j: int| 0 <= j < i && unit_ord_edge(t0, j, a, b) {
                    let j = choose|j: int| 0 <= j < i && unit_ord_edge(t0, j, a, b);
                    assert(0 <= j < i + 1 && unit_ord_edge(t0, j, a, b));
                }
                if unit_ord_edge(t0, i as int, a, b) {
                    assert(0 <= (i as int) && (i as int) < i + 1 && unit_ord_edge(t0, i as int, a, b));
                }
                if exists|j: int| 0 <= j < i + 1 && unit_ord_edge(t0, j, a, b) {
                    let j = choose|j: int| 0 <= j < i + 1 && unit_ord_edge(t0, j, a, b);
                    if j < i {
                        assert(0 <= j < i && unit_ord_edge(t0, j, a, b));
                    }
                }
            }
            assert forall|a: UnitId, b: UnitId| #![trigger want@.contains((a, b))]
                want@.contains((a, b)) <==> exists|j: int|
                    0 <= j < i + 1 && unit_want_edge(t0, j, a, b) by {
                assert(want@.contains((a, b)) <==> (want_prev.contains((a, b)) || unit_want_edge(
                    t0,
                    i as int,
                    a,
                    b,
                )));
                assert(want_prev.contains((a, b)) <==> exists|j: int|
                    0 <= j < i && unit_want_edge(t0, j, a, b));
                if exists|j: int| 0 <= j < i && unit_want_edge(t0, j, a, b) {
                    let j = choose|j: int| 0 <= j < i && unit_want_edge(t0, j, a, b);
                    assert(0 <= j < i + 1 && unit_want_edge(t0, j, a, b));
                }
                if unit_want_edge(t0, i as int, a, b) {
                    assert(0 <= (i as int) && (i as int) < i + 1 && unit_want_edge(t0, i as int, a, b));
                }
                if exists|j: int| 0 <= j < i + 1 && unit_want_edge(t0, j, a, b) {
                    let j = choose|j: int| 0 <= j < i + 1 && unit_want_edge(t0, j, a, b);
                    if j < i {
                        assert(0 <= j < i && unit_want_edge(t0, j, a, b));
                    }
                }
            }
            assert forall|a: UnitId, b: UnitId| #![trigger req@.contains((a, b))]
                req@.contains((a, b)) <==> exists|j: int|
                    0 <= j < i + 1 && unit_req_edge(t0, j, a, b) by {
                assert(req@.contains((a, b)) <==> (req_prev.contains((a, b)) || unit_req_edge(
                    t0,
                    i as int,
                    a,
                    b,
                )));
                assert(req_prev.contains((a, b)) <==> exists|j: int|
                    0 <= j < i && unit_req_edge(t0, j, a, b));
                if exists|j: int| 0 <= j < i && unit_req_edge(t0, j, a, b) {
                    let j = choose|j: int| 0 <= j < i && unit_req_edge(t0, j, a, b);
                    assert(0 <= j < i + 1 && unit_req_edge(t0, j, a, b));
                }
                if unit_req_edge(t0, i as int, a, b) {
                    assert(0 <= (i as int) && (i as int) < i + 1 && unit_req_edge(t0, i as int, a, b));
                }
                if exists|j: int| 0 <= j < i + 1 && unit_req_edge(t0, j, a, b) {
                    let j = choose|j: int| 0 <= j < i + 1 && unit_req_edge(t0, j, a, b);
                    if j < i {
                        assert(0 <= j < i && unit_req_edge(t0, j, a, b));
                    }
                }
            }
        }
        i += 1;
    }
    let mut new_units: Vec<crate::units::Unit> = Vec::new();
    let mut done: usize = 0;
    while table.units.len() > 0
        invariant
            done + table.units@.len() == t0.units@.len(),
            t0.units@.len() <= usize::MAX,
            new_units@.len() == done,
            table.units@ =~= t0.units@.subrange(done as int, t0.units@.len() as int),
            t0.wf(),
            t0.unique_names(),
            ord_collected(t0, t0.units@.len() as int, ord@),
            want_collected(t0, t0.units@.len() as int, want@),
            req_collected(t0, t0.units@.len() as int, req@),
            forall|j: int|
                0 <= j < done ==> unit_resolved(t0, #[trigger] new_units@[j], t0.units@[j]),
        decreases table.units@.len(),
    {
        let mut u = table.units.remove(0);
        proof {
            assert(u == t0.units@[done as int]);
            assert(table.units@ =~= t0.units@.subrange(done + 1 as int, t0.units@.len() as int));
        }
        let id = u.id;
        u.install.before = collect_adjacent(&ord, id, true);
        u.install.after = collect_adjacent(&ord, id, false);
        u.install.wants = collect_adjacent(&want, id, true);
        u.install.wanted_by = collect_adjacent(&want, id, false);
        u.install.requires = collect_adjacent(&req, id, true);
        u.install.required_by = collect_adjacent(&req, id, false);
        proof {
            let nlen = t0.units@.len() as int;
            assert forall|x: UnitId| #![trigger u.install.before@.contains(x)]
                u.install.before@.contains(x) <==> ord_edge(t0, id, x) by {
                assert(u.install.before@.contains(x) <==> ord@.contains((id, x)));
                assert(ord@.contains((id, x)) <==> exists|j: int|
                    0 <= j < nlen && unit_ord_edge(t0, j, id, x));
            }
            assert forall|x: UnitId| #![trigger u.install.after@.contains(x)]
                u.install.after@.contains(x) <==> ord_edge(t0, x, id) by {
                assert(u.install.after@.contains(x) <==> ord@.contains((x, id)));
                assert(ord@.contains((x, id)) <==> exists|j: int|
                    0 <= j < nlen && unit_ord_edge(t0, j, x, id));
            }
            assert forall|x: UnitId| #![trigger u.install.wants@.contains(x)]
                u.install.wants@.contains(x) <==> want_edge(t0, id, x) by {
                assert(u.install.wants@.contains(x) <==> want@.contains((id, x)));
                assert(want@.contains((id, x)) <==> exists|j: int|
                    0 <= j < nlen && unit_want_edge(t0, j, id, x));
            }
            assert forall|x: UnitId| #![trigger u.install.wanted_by@.contains(x)]
                u.install.wanted_by@.contains(x) <==> want_edge(t0, x, id) by {
                assert(u.install.wanted_by@.contains(x) <==> want@.contains((x, id)));
                assert(want@.contains((x, id)) <==> exists|j: int|
                    0 <= j < nlen && unit_want_edge(t0, j, x, id));
            }
            assert forall|x: UnitId| #![trigger u.install.requires@.contains(x)]
                u.install.requires@.contains(x) <==> req_edge(t0, id, x) by {
                assert(u.install.requires@.contains(x) <==> req@.contains((id, x)));
                assert(req@.contains((id, x)) <==> exists|j: int|
                    0 <= j < nlen && unit_req_edge(t0, j, id, x));
            }
            assert forall|x: UnitId| #![trigger u.install.required_by@.contains(x)]
                u.install.required_by@.contains(x) <==> req_edge(t0, x, id) by {
                assert(u.install.required_by@.contains(x) <==> req@.contains((x, id)));
                assert(req@.contains((x, id)) <==> exists|j: int|
                    0 <= j < nlen && unit_req_edge(t0, j, x, id));
            }
            assert(unit_resolved(t0, u, t0.units@[done as int]));
        }
        new_units.push(u);
        done += 1;
    }
    table.units = new_units;
    proof {
        assert forall|i2: int|
            0 <= i2 < table.units@.len() implies unit_resolved(
            t0,
            #[trigger] table.units@[i2],
            t0.units@[i2],
        ) by {
            assert(table.units@[i2] == new_units@[i2]);
            assert(unit_resolved(t0, new_units@[i2], t0.units@[i2]));
        }
        assert(resolved_from(*table, t0));
        assert forall|i2: int, j2: int|
            0 <= i2 < j2 < table.units@.len() implies table.units@[i2].id
            != table.units@[j2].id by {
            assert(unit_resolved(t0, table.units@[i2], t0.units@[i2]));
            assert(unit_resolved(t0, table.units@[j2], t0.units@[j2]));
        }
        assert forall|i2: int, j2: int|
            0 <= i2 < j2 < table.units@.len() implies table.units@[i2].conf.spec_name()
            != table.units@[j2].conf.spec_name() by {
            assert(unit_resolved(t0, table.units@[i2], t0.units@[i2]));
            assert(unit_resolved(t0, table.units@[j2], t0.units@[j2]));
        }
    }
    Ok(())
}

/// Edge symmetry: in a resolved table, a unit lists another in `before`
/// exactly when that other unit lists it in `after`; the same holds for the
/// `wants`/`wanted_by` and `requires`/`required_by` pairs.
pub proof fn lemma_edge_symmetry(t0: UnitTable, t: UnitTable, i: int, j: int)
    requires
        resolved_from(t, t0),
        0 <= i < t.units@.len(),
        0 <= j < t.units@.len(),
    ensures
        t.units@[i].install.before@.contains(t.units@[j].id) <==> t.units@[j].install.after@
            .contains(t.units@[i].id),
        t.units@[i].install.wants@.contains(t.units@[j].id) <==> t.units@[j].install.wanted_by@
            .contains(t.units@[i].id),
        t.units@[i].install.requires@.contains(t.units@[j].id) <==> t.units@[j].install
            .required_by@.contains(t.units@[i].id),
{
    assert(unit_resolved(t0, t.units@[i], t0.units@[i]));
    assert(unit_resolved(t0, t.units@[j], t0.units@[j]));
    let a = t.units@[i].id;
    let b = t.units@[j].id;
    assert(t.units@[i].install.before@.contains(b) <==> ord_edge(t0, a, b));
    assert(t.units@[j].install.after@.contains(a) <==> ord_edge(t0, a, b));
    assert(t.units@[i].install.wants@.contains(b) <==> want_edge(t0, a, b));
    assert(t.units@[j].install.wanted_by@.contains(a) <==> want_edge(t0, a, b));
    assert(t.units@[i].install.requires@.contains(b) <==> req_edge(t0, a, b));
    assert(t.units@[j].install.required_by@.contains(a) <==> req_edge(t0, a, b));
}

/// Determinism of resolution: two tables resolved from the same input have
/// identical dependency sets, element for element.
pub proof fn lemma_resolution_deterministic(
    t0: UnitTable,
    t1: UnitTable,
    t2: UnitTable,
    i: int,
    x: UnitId,
)
    requires
        resolved_from(t1, t0),
        resolved_from(t2, t0),
        0 <= i < t1.units@.len(),
    ensures
        t1.units@[i].install.before@.contains(x) == t2.units@[i].install.before@.contains(x),
        t1.units@[i].install.after@.contains(x) == t2.units@[i].install.after@.contains(x),
        t1.units@[i].install.wants@.contains(x) == t2.units@[i].install.wants@.contains(x),
        t1.units@[i].install.wanted_by@.contains(x) == t2.units@[i].install.wanted_by@.contains(x),
        t1.units@[i].install.requires@.contains(x) == t2.units@[i].install.requires@.contains(x),
        t1.units@[i].install.required_by@.contains(x) == t2.units@[i].install.required_by@
            .contains(x),
{
    assert(unit_resolved(t0, t1.units@[i], t0.units@[i]));
    assert(unit_resolved(t0, t2.units@[i], t0.units@[i]));
    assert(t1.units@[i].install.before@.contains(x) <==> ord_edge(t0, t0.units@[i].id, x));
    assert(t2.units@[i].install.before@.contains(x) <==> ord_edge(t0, t0.units@[i].id, x));
    assert(t1.units@[i].install.after@.contains(x) <==> ord_edge(t0, x, t0.units@[i].id));
    assert(t2.units@[i].install.after@.contains(x) <==> ord_edge(t0, x, t0.units@[i].id));
    assert(t1.units@[i].install.wants@.contains(x) <==> want_edge(t0, t0.units@[i].id, x));
    assert(t2.units@[i].install.wants@.contains(x) <==> want_edge(t0, t0.units@[i].id, x));
    assert(t1.units@[i].install.wanted_by@.contains(x) <==> want_edge(t0, x, t0.units@[i].id));
    assert(t2.units@[i].install.wanted_by@.contains(x) <==> want_edge(t0, x, t0.units@[i].id));
    assert(t1.units@[i].install.requires@.contains(x) <==> req_edge(t0, t0.units@[i].id, x));
    assert(t2.units@[i].install.requires@.contains(x) <==> req_edge(t0, t0.units@[i].id, x));
    assert(t1.units@[i].install.required_by@.contains(x) <==> req_edge(t0, x, t0.units@[i].id));
    assert(t2.units@[i].install.required_by@.contains(x) <==> req_edge(t0, x, t0.units@[i].id));
}

proof fn lemma_id_of_name_has_id(t0: UnitTable, name: Seq<char>)
    requires
        t0.unique_names(),
        t0.has_name(name),
    ensures
        t0.has_id(t0.id_of_name(name)),
{
    let c = choose|i: int| 0 <= i < t0.units@.len() && t0.units@[i].conf.spec_name() == name;
    assert(0 <= c < t0.units@.len() && t0.units@[c].conf.spec_name() == name);
    assert(t0.id_of_name(name) == t0.units@[c].id) by {
        let d = choose|i: int|
            0 <= i < t0.units@.len() && t0.units@[i].conf.spec_name() == name;
        if c < d {
            assert(t0.units@[c].conf.spec_name() != t0.units@[d].conf.spec_name());
        }
        if d < c {
            assert(t0.units@[d].conf.spec_name() != t0.units@[c].conf.spec_name());
        }
    }
    assert(t0.has_id(t0.units@[c].id));
}

proof fn lemma_ord_edge_source_has_id(t0: UnitTable, a: UnitId, b: UnitId)
    requires
        t0.unique_names(),
        ord_edge(t0, a, b),
    ensures
        t0.has_id(a),
{
    let i = choose|i: int| 0 <= i < t0.units@.len() && unit_ord_edge(t0, i, a, b);
    let u = t0.units@[i];
    if declares_edge(t0, u.conf.after@, u.conf.after@.len() as int, false, u.id, a, b) {
        let k = choose|k: int|
            0 <= k < u.conf.after@.len() && t0.has_name(#[trigger] u.conf.after@[k]@) && (
            if false {
                a == u.id && b == t0.id_of_name(u.conf.after@[k]@)
            } else {
                b == u.id && a == t0.id_of_name(u.conf.after@[k]@)
            });
        lemma_id_of_name_has_id(t0, u.conf.after@[k]@);
    } else {
        assert(a == u.id);
        assert(t0.has_id(a)) by {
            assert(t0.units@[i].id == a);
        }
    }
}

/// A resolved table is closed: every id in an `after` set names a unit of
/// the table, which is what cycle detection requires of its input.
pub proof fn lemma_resolved_after_closed(t0: UnitTable, t: UnitTable)
    requires
        t0.unique_names(),
        resolved_from(t, t0),
    ensures
        crate::sanity::after_closed(t),
{
    assert forall|i: int, x: UnitId|
        0 <= i < t.units@.len() && #[trigger] t.units@[i].install.after@.contains(
            x,
        ) implies t.has_id(x) by {
        assert(unit_resolved(t0, t.units@[i], t0.units@[i]));
        assert(ord_edge(t0, x, t.units@[i].id));
        assert(t.units@[i].id == t0.units@[i].id);
        lemma_ord_edge_source_has_id(t0, x, t0.units@[i].id);
        let w = choose|w: int| 0 <= w < t0.units@.len() && t0.units@[w].id == x;
        assert(unit_resolved(t0, t.units@[w], t0.units@[w]));
        assert(t.units@[w].id == x);
        assert(t.has_id(x));
    }
}

/// No duplicates: in a resolved table every dependency set of every unit is
/// free of repeated ids.
pub proof fn lemma_resolved_no_duplicates(t0: UnitTable, t: UnitTable, i: int)
    requires
        resolved_from(t, t0),
        0 <= i < t.units@.len(),
    ensures
        no_dup(t.units@[i].install.wants@),
        no_dup(t.units@[i].install.requires@),
        no_dup(t.units@[i].install.wanted_by@),
        no_dup(t.units@[i].install.required_by@),
        no_dup(t.units@[i].install.before@),
        no_dup(t.units@[i].install.after@),
{
    assert(unit_resolved(t0, t.units@[i], t0.units@[i]));
}

} // verus!

