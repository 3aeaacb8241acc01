//! Dependency resolution and cycle detection on small unit graphs.

use rustysd::activate::{activate_unit, find_root_units, StartResult};
use rustysd::deps::fill_dependencies;
use rustysd::sanity::{sanity_check_dependencies, SanityCheckError};
use rustysd::sockets::add_implicit_before_after;
use rustysd::units::{Install, StatusStarted, Unit, UnitConfig, UnitSpecialized, UnitStatus, UnitTable};

fn empty_install() -> Install {
    Install {
        wants: Vec::new(),
        requires: Vec::new(),
        wanted_by: Vec::new(),
        required_by: Vec::new(),
        before: Vec::new(),
        after: Vec::new(),
        install_config: None,
    }
}

fn target_unit(
    id: u64,
    path: &str,
    before: &[&str],
    after: &[&str],
    required_by: &[&str],
) -> Unit {
    let mut install = empty_install();
    if !required_by.is_empty() {
        install.install_config = Some(rustysd::units::InstallConfig {
            wanted_by: Vec::new(),
            required_by: required_by.iter().map(|s| s.to_string()).collect(),
        });
    }
    Unit {
        id,
        conf: UnitConfig {
            filepath: path.to_string(),
            wants: Vec::new(),
            requires: Vec::new(),
            before: before.iter().map(|s| s.to_string()).collect(),
            after: after.iter().map(|s| s.to_string()).collect(),
        },
        specialized: UnitSpecialized::Target,
        install,
        status: UnitStatus::NeverStarted,
    }
}

fn unit_by_id(table: &UnitTable, id: u64) -> &Unit {
    table.units.iter().find(|u| u.id == id).unwrap()
}

#[test]
fn test_unit_ordering() {
    let mut table = UnitTable::new();
    table.units.push(target_unit(
        1,
        "/path/to/1.target",
        &["2.target"],
        &[],
        &["2.target"],
    ));
    table.units.push(target_unit(
        2,
        "/path/to/2.target",
        &[],
        &["1.target"],
        &["3.target"],
    ));
    table
        .units
        .push(target_unit(3, "/path/to/3.target", &[], &["1.target"], &[]));

    fill_dependencies(&mut table).unwrap();
    add_implicit_before_after(&mut table);
    for u in table.units.iter_mut() {
        u.dedup_dependencies();
    }
    sanity_check_dependencies(&table).unwrap();

    // before/after of 1.target
    assert!(unit_by_id(&table, 1).install.after.is_empty());
    assert_eq!(unit_by_id(&table, 1).install.before.len(), 2);
    assert!(unit_by_id(&table, 1).install.before.contains(&2));
    assert!(unit_by_id(&table, 1).install.before.contains(&3));

    // before/after of 2.target
    assert_eq!(unit_by_id(&table, 2).install.before.len(), 1);
    assert!(unit_by_id(&table, 2).install.before.contains(&3));
    assert_eq!(unit_by_id(&table, 2).install.after.len(), 1);
    assert!(unit_by_id(&table, 2).install.after.contains(&1));

    // before/after of 3.target
    assert!(unit_by_id(&table, 3).install.before.is_empty());
    assert_eq!(unit_by_id(&table, 3).install.after.len(), 2);
    assert!(unit_by_id(&table, 3).install.after.contains(&1));
    assert!(unit_by_id(&table, 3).install.after.contains(&2));
}

#[test]
fn test_circle() {
    let mut table = UnitTable::new();
    table
        .units
        .push(target_unit(1, "/path/to/1.target", &[], &["3.target"], &[]));
    table
        .units
        .push(target_unit(2, "/path/to/2.target", &[], &["1.target"], &[]));
    table
        .units
        .push(target_unit(3, "/path/to/3.target", &[], &["2.target"], &[]));

    fill_dependencies(&mut table).unwrap();
    add_implicit_before_after(&mut table);
    for u in table.units.iter_mut() {
        u.dedup_dependencies();
    }

    if let Err(SanityCheckError::CirclesFound(circles)) = sanity_check_dependencies(&table) {
        if circles.len() == 1 {
            let circle = &circles[0];
            assert_eq!(circle.len(), 3);
            assert!(circle.contains(&1));
            assert!(circle.contains(&2));
            assert!(circle.contains(&3));
        } else {
            panic!("more than one circle found but there is only one");
        }
    } else {
        panic!("No circle found but there is one");
    }
}

#[test]
fn empty_table_resolves_and_has_no_cycles() {
    let mut table = UnitTable::new();
    assert!(fill_dependencies(&mut table).is_ok());
    assert!(sanity_check_dependencies(&table).is_ok());
    assert!(find_root_units(&table).is_empty());
}

#[test]
fn edge_symmetry_on_concrete_graph() {
    let mut table = UnitTable::new();
    table.units.push(target_unit(
        7,
        "/units/a.target",
        &["b.target"],
        &[],
        &[],
    ));
    table
        .units
        .push(target_unit(8, "/units/b.target", &[], &[], &[]));
    fill_dependencies(&mut table).unwrap();
    // a lists b in before exactly as b lists a in after
    assert!(unit_by_id(&table, 7).install.before.contains(&8));
    assert!(unit_by_id(&table, 8).install.after.contains(&7));
    assert!(!unit_by_id(&table, 8).install.before.contains(&7));
    assert!(!unit_by_id(&table, 7).install.after.contains(&8));
}

#[test]
fn unknown_dependency_name_is_rejected() {
    let mut table = UnitTable::new();
    table.units.push(target_unit(
        1,
        "/units/a.target",
        &["missing.target"],
        &[],
        &[],
    ));
    let r = fill_dependencies(&mut table);
    match r {
        Err(rustysd::deps::ResolveError::UnknownName(n)) => {
            assert_eq!(n, "missing.target");
        }
        _ => panic!("an unknown name must be rejected"),
    }
}

#[test]
fn duplicate_edges_are_deduplicated() {
    // the same ordering edge declared from both sides appears once
    let mut table = UnitTable::new();
    table.units.push(target_unit(
        1,
        "/units/a.target",
        &["b.target", "b.target"],
        &[],
        &[],
    ));
    table
        .units
        .push(target_unit(2, "/units/b.target", &[], &["a.target"], &[]));
    fill_dependencies(&mut table).unwrap();
    assert_eq!(unit_by_id(&table, 1).install.before, vec![2]);
    assert_eq!(unit_by_id(&table, 2).install.after, vec![1]);
}

#[test]
fn diamond_gate_order() {
    let mut table = UnitTable::new();
    table.units.push(target_unit(
        1,
        "/units/a.target",
        &["b.target", "c.target"],
        &[],
        &[],
    ));
    table.units.push(target_unit(
        2,
        "/units/b.target",
        &["d.target"],
        &["a.target"],
        &[],
    ));
    table.units.push(target_unit(
        3,
        "/units/c.target",
        &["d.target"],
        &["a.target"],
        &[],
    ));
    table.units.push(target_unit(
        4,
        "/units/d.target",
        &[],
        &["b.target", "c.target"],
        &[],
    ));
    fill_dependencies(&mut table).unwrap();
    sanity_check_dependencies(&table).unwrap();

    let roots = find_root_units(&table);
    assert_eq!(roots, vec![1]);

    // d's gate is closed while b and c have not started
    assert!(matches!(
        activate_unit(&table, 4, true),
        Ok(StartResult::WaitForDependencies)
    ));
    // a has no predecessors: it may start, and fans out to b and c
    match activate_unit(&table, 1, true) {
        Ok(StartResult::Started(next)) => {
            assert!(next.contains(&2));
            assert!(next.contains(&3));
        }
        _ => panic!("the root must start"),
    }
    // after a runs, b and c are eligible; d still waits for both
    for u in table.units.iter_mut() {
        if u.id == 1 {
            u.status = UnitStatus::Started(StatusStarted::Running);
        }
    }
    // revisiting the already-running root is a silent no-op: a unit is never
    // started twice even when two predecessors enqueue it
    assert!(matches!(
        activate_unit(&table, 1, true),
        Ok(StartResult::WaitForDependencies)
    ));
    assert!(matches!(
        activate_unit(&table, 2, true),
        Ok(StartResult::Started(_))
    ));
    assert!(matches!(
        activate_unit(&table, 4, true),
        Ok(StartResult::WaitForDependencies)
    ));
    for u in table.units.iter_mut() {
        if u.id == 2 || u.id == 3 {
            u.status = UnitStatus::Started(StatusStarted::Running);
        }
    }
    match activate_unit(&table, 4, true) {
        Ok(StartResult::Started(next)) => assert!(next.is_empty()),
        _ => panic!("d must start once b and c are running"),
    }
    // a unit that is not in the table is an error
    assert!(activate_unit(&table, 99, true).is_err());
}
