//! The activation scheduler's decision core: which units may start now.
//!
//! Activation walks the resolved DAG.  A unit's gate is open when every
//! `after` predecessor that is also required has reached a started substate,
//! and every other `after` predecessor is at least past `NeverStarted`.  A
//! unit whose gate is closed is simply skipped: it will be revisited when
//! whichever predecessor completes last fans out to its successors.

use crate::sanity::after_closed;
use crate::units::{contains_id, UnitId, UnitTable};
use vstd::prelude::*;

verus! {

/// An activation or teardown failure, tagged with the unit it concerns.
#[derive(Debug)]
pub struct UnitOperationError {
    pub reason: UnitOperationErrorReason,
    pub unit_name: String,
    pub unit_id: UnitId,
}

/// What went wrong with a unit operation.
#[derive(Clone, PartialEq, Eq, Hash, Debug)]
pub enum UnitOperationErrorReason {
    GenericStartError(String),
    GenericStopError(String),
    SocketOpenError(String),
    SocketCloseError(String),
    ServiceStartError(crate::services::ServiceErrorReason),
    ServiceStopError(crate::services::ServiceErrorReason),
}

/// Scheduler outcome for one activation attempt: the unit started and these
/// successors should be scheduled next, or it waits for its dependencies.
#[derive(Debug)]
pub enum StartResult {
    Started(Vec<UnitId>),
    WaitForDependencies,
}

/// The activation gate of the unit at index `i`: every required `after`
/// predecessor has reached a started substate, and every other `after`
/// predecessor is past `NeverStarted`.
pub open spec fn gate_open(t: UnitTable, i: int) -> bool {
    let u = t.units@[i];
    forall|k: int|
        0 <= k < u.install.after@.len() ==> {
            let d = #[trigger] u.install.after@[k];
            t.has_id(d) && (if u.install.requires@.contains(d) {
                t.unit_of(d).status.spec_is_started()
            } else {
                !t.unit_of(d).status.spec_is_never_started()
            })
        }
}

/// Copy of an id list.
pub fn copy_ids(v: &Vec<UnitId>) -> (r: Vec<UnitId>)
    ensures
        r@ == v@,
{
    let mut r: Vec<UnitId> = Vec::new();
    let mut k: usize = 0;
    while k < v.len()
        invariant
            k <= v@.len(),
            r@ =~= v@.subrange(0, k as int),
        decreases v@.len() - k,
    {
        r.push(v[k]);
        proof {
            assert(r@ =~= v@.subrange(0, k + 1 as int));
        }
        k += 1;
    }
    proof {
        assert(v@.subrange(0, v@.len() as int) =~= v@);
    }
    r
}

/// Try to activate one unit.  An unknown unit is an error, and that is the
/// only error.  The unit waits in exactly three situations: its gate is
/// closed; it is already `Started(Running)`, so a repeated visit — two
/// predecessors may each enqueue the same successor — is a silent no-op and
/// the unit is never started twice; or it sits in
/// `Started(WaitingForSocket)` while `allow_ignore` marks an ordinary
/// scheduler visit rather than socket traffic.  Otherwise the unit may start
/// with its gate open, and the ids to schedule next are exactly the unit's
/// `before` successors.
pub fn activate_unit(table: &UnitTable, id_to_start: UnitId, allow_ignore: bool) -> (r: Result<
    StartResult,
    UnitOperationError,
>)
    requires
        table.wf(),
        after_closed(*table),
    ensures
        match r {
            Err(e) => !table.has_id(id_to_start) && e.unit_id == id_to_start
                && e.reason is GenericStartError,
            Ok(StartResult::WaitForDependencies) => table.has_id(id_to_start) && (!gate_open(
                *table,
                table.idx_of(id_to_start),
            ) || table.unit_of(id_to_start).status.spec_is_running() || (allow_ignore
                && table.unit_of(id_to_start).status.spec_is_waiting_for_socket())),
            Ok(StartResult::Started(next)) => table.has_id(id_to_start) && gate_open(
                *table,
                table.idx_of(id_to_start),
            ) && !table.unit_of(id_to_start).status.spec_is_running() && !(allow_ignore
                && table.unit_of(id_to_start).status.spec_is_waiting_for_socket()) && next@
                == table.unit_of(id_to_start).install.before@,
        },
{
    let unit = match table.get(id_to_start) {
        Some(unit) => unit,
        None => {
            return Err(
                UnitOperationError {
                    reason: UnitOperationErrorReason::GenericStartError(
                        "tried to activate a unit that cannot be found".to_owned(),
                    ),
                    unit_name: String::new(),
                    unit_id: id_to_start,
                },
            );
        },
    };
    let ghost i = table.idx_of(id_to_start);
    proof {
        assert(table.units@[i] == *unit);
    }
    let mut k: usize = 0;
    let deps = unit.install.after.len();
    while k < deps
        invariant
            k <= deps,
            deps == unit.install.after@.len(),
            table.wf(),
            after_closed(*table),
            table.has_id(id_to_start),
            i == table.idx_of(id_to_start),
            *unit == table.units@[i],
            0 <= i < table.units@.len(),
            forall|j: int|
                0 <= j < k ==> {
                    let d = #[trigger] unit.install.after@[j];
                    table.has_id(d) && (if unit.install.requires@.contains(d) {
                        table.unit_of(d).status.spec_is_started()
                    } else {
                        !table.unit_of(d).status.spec_is_never_started()
                    })
                },
        decreases deps - k,
    {
        let d = unit.install.after[k];
        proof {
            assert(table.units@[i].install.after@.contains(d)) by {
                assert(table.units@[i].install.after@[k as int] == d);
            }
            assert(table.has_id(d));
        }
        let required = contains_id(&unit.install.requires, d);
        let dep_unit = match table.get(d) {
            Some(x) => x,
            None => {
                proof {
                    assert(false);
                }
                vstd::pervasive::unreached()
            },
        };
        let ready = if required {
            dep_unit.status.is_started()
        } else {
            !dep_unit.status.is_never_started()
        };
        if !ready {
            proof {
                assert(!gate_open(*table, i)) by {
                    assert(table.units@[i].install.after@[k as int] == d);
                    assert(*dep_unit == table.unit_of(d));
                }
            }
            return Ok(StartResult::WaitForDependencies);
        }
        k += 1;
    }
    proof {
        assert(gate_open(*table, i));
    }
    if unit.status.is_running() {
        return Ok(StartResult::WaitForDependencies);
    }
    if allow_ignore && unit.status.is_waiting_for_socket() {
        return Ok(StartResult::WaitForDependencies);
    }
    let next = copy_ids(&unit.install.before);
    Ok(StartResult::Started(next))
}

/// The root units of the DAG: those with no `after` predecessor.  These form
/// the initial frontier of an activation run.
pub fn find_root_units(table: &UnitTable) -> (r: Vec<UnitId>)
    ensures
        forall|x: UnitId|
            #![trigger r@.contains(x)]
            r@.contains(x) <==> exists|i: int|
                0 <= i < table.units@.len() && (#[trigger] table.units@[i]).id == x
                    && table.units@[i].install.after@.len() == 0,
{
    let mut r: Vec<UnitId> = Vec::new();
    let n = table.units.len();
    let mut i: usize = 0;
    while i < n
        invariant
            i <= n,
            n == table.units@.len(),
            forall|x: UnitId|
                #![trigger r@.contains(x)]
                r@.contains(x) <==> exists|j: int|
                    0 <= j < i && (#[trigger] table.units@[j]).id == x
                        && table.units@[j].install.after@.len() == 0,
        decreases n - i,
    {
        let ghost prev = r@;
        if table.units[i].install.after.len() == 0 {
            r.push(table.units[i].id);
        }
        proof {
            assert forall|x: UnitId| #![trigger r@.contains(x)]
                r@.contains(x) <==> exists|j: int|
                    0 <= j < i + 1 && (#[trigger] table.units@[j]).id == x
                        && table.units@[j].install.after@.len() == 0 by {
                if r@.contains(x) {
                    if prev.contains(x) {
                        let j = choose|j: int|
                            0 <= j < i && (#[trigger] table.units@[j]).id == x
                                && table.units@[j].install.after@.len() == 0;
                        assert(0 <= j < i + 1 && table.units@[j].id == x
                            && table.units@[j].install.after@.len() == 0);
                    } else {
                        let m = choose|m: int| 0 <= m < r@.len() && r@[m] == x;
                        assert(m == prev.len());
                        assert(table.units@[i as int].id == x);
                        assert(0 <= (i as int) && (i as int) < i + 1 && table.units@[i
                            as int].id == x && table.units@[i as int].install.after@.len() == 0);
                    }
                }
                if exists|j: int|
                    0 <= j < i + 1 && (#[trigger] table.units@[j]).id == x
                        && table.units@[j].install.after@.len() == 0 {
                    let j = choose|j: int|
                        0 <= j < i + 1 && (#[trigger] table.units@[j]).id == x
                            && table.units@[j].install.after@.len() == 0;
                    if j < i {
                        assert(prev.contains(x));
                        let m = choose|m: int| 0 <= m < prev.len() && prev[m] == x;
                        assert(r@[m] == x);
                    } else {
                        assert(r@[r@.len() - 1] == x);
                    }
                }
            }
        }
        i += 1;
    }
    r
}

} // verus!
