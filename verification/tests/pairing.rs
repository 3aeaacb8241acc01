//! Socket/service pairing: shared stems, explicit references, the implicit
//! ordering edges, and the one-service-per-socket rule.

use rustysd::sockets::{add_implicit_before_after, apply_sockets_to_services};
use rustysd::units::{
    find_sock_with_name, Install, NotifyKind, ServiceConfig, ServiceType, Socket, Unit,
    UnitConfig, UnitSpecialized, UnitStatus, UnitTable,
};

fn empty_install() -> Install {
    Install {
        wants: Vec::new(),
        requires: Vec::new(),
        wanted_by: Vec::new(),
        required_by: Vec::new(),
        before: Vec::new(),
        after: Vec::new(),
        install_config: None,
    }
}

fn socket_unit(id: u64, path: &str, activates: &[&str]) -> Unit {
    let name = path.rsplit('/').next().unwrap().to_string();
    Unit {
        id,
        conf: UnitConfig {
            filepath: path.to_string(),
            wants: Vec::new(),
            requires: Vec::new(),
            before: Vec::new(),
            after: Vec::new(),
        },
        specialized: UnitSpecialized::Socket(Socket {
            name,
            sockets: Vec::new(),
            services: activates.iter().map(|s| s.to_string()).collect(),
        }),
        install: empty_install(),
        status: UnitStatus::NeverStarted,
    }
}

fn service_unit(id: u64, path: &str, named_sockets: &[&str]) -> Unit {
    Unit {
        id,
        conf: UnitConfig {
            filepath: path.to_string(),
            wants: Vec::new(),
            requires: Vec::new(),
            before: Vec::new(),
            after: Vec::new(),
        },
        specialized: UnitSpecialized::Service(rustysd::services::Service {
            pid: None,
            process_group: None,
            status: rustysd::services::ServiceStatus::NeverRan,
            service_config: Some(ServiceConfig {
                keep_alive: false,
                accept: false,
                notifyaccess: NotifyKind::Main,
                exec_cmd: "/bin/true".to_string(),
                stop: Vec::new(),
                startpre: Vec::new(),
                startpost: Vec::new(),
                stoppost: Vec::new(),
                srcv_type: ServiceType::Simple,
                sockets: named_sockets.iter().map(|s| s.to_string()).collect(),
                starttimeout: None,
                stoptimeout: None,
                generaltimeout: None,
            }),
            socket_ids: Vec::new(),
            file_descriptors: Vec::new(),
            status_msgs: Vec::new(),
            signaled_ready: false,
            notifications_path: None,
            stdout: None,
            stderr: None,
            notifications_buffer: String::new(),
            stdout_buffer: Vec::new(),
            stderr_buffer: Vec::new(),
        }),
        install: empty_install(),
        status: UnitStatus::NeverStarted,
    }
}

fn unit_by_id(table: &UnitTable, id: u64) -> &Unit {
    table.units.iter().find(|u| u.id == id).unwrap()
}

#[test]
fn shared_stem_pairs_socket_and_service() {
    let mut table = UnitTable::new();
    table.units.push(socket_unit(1, "/units/web.socket", &[]));
    table.units.push(service_unit(2, "/units/web.service", &[]));
    apply_sockets_to_services(&mut table).unwrap();
    let srv = match &unit_by_id(&table, 2).specialized {
        UnitSpecialized::Service(s) => s,
        _ => panic!("unit two is the service"),
    };
    assert_eq!(srv.socket_ids, vec![1]);
    assert!(unit_by_id(&table, 2).install.after.contains(&1));
    assert!(unit_by_id(&table, 1).install.before.contains(&2));
    // the descriptor is recorded once even though pairing is checked per rule
    assert_eq!(srv.socket_ids.len(), 1);
}

#[test]
fn implicit_edges_without_socket_bookkeeping() {
    let mut table = UnitTable::new();
    table.units.push(socket_unit(1, "/units/db.socket", &[]));
    table
        .units
        .push(service_unit(2, "/units/db.service", &["db.socket"]));
    add_implicit_before_after(&mut table);
    assert!(unit_by_id(&table, 2).install.after.contains(&1));
    assert!(unit_by_id(&table, 1).install.before.contains(&2));
    let srv = match &unit_by_id(&table, 2).specialized {
        UnitSpecialized::Service(s) => s,
        _ => panic!("unit two is the service"),
    };
    assert!(srv.socket_ids.is_empty());
}

#[test]
fn socket_with_two_services_is_refused() {
    let mut table = UnitTable::new();
    table.units.push(socket_unit(
        1,
        "/units/shared.socket",
        &["a.service", "b.service"],
    ));
    table.units.push(service_unit(2, "/units/a.service", &[]));
    table.units.push(service_unit(3, "/units/b.service", &[]));
    let before = table.units.len();
    assert!(apply_sockets_to_services(&mut table).is_err());
    // the table is untouched on the error
    assert_eq!(table.units.len(), before);
    let srv = match &unit_by_id(&table, 2).specialized {
        UnitSpecialized::Service(s) => s,
        _ => panic!("unit two is the service"),
    };
    assert!(srv.socket_ids.is_empty());
}

#[test]
fn service_with_two_sockets_is_refused() {
    let mut table = UnitTable::new();
    // one socket shares the service's stem, a second is named explicitly
    table.units.push(socket_unit(1, "/units/web.socket", &[]));
    table.units.push(socket_unit(2, "/units/extra.socket", &[]));
    table
        .units
        .push(service_unit(3, "/units/web.service", &["extra.socket"]));
    assert!(apply_sockets_to_services(&mut table).is_err());
    let srv = match &unit_by_id(&table, 3).specialized {
        UnitSpecialized::Service(s) => s,
        _ => panic!("unit three is the service"),
    };
    assert!(srv.socket_ids.is_empty());
}

#[test]
fn sockets_are_found_by_their_own_name() {
    let mut table = UnitTable::new();
    table.units.push(socket_unit(1, "/units/one.socket", &[]));
    table.units.push(socket_unit(2, "/units/two.socket", &[]));
    table.units.push(service_unit(3, "/units/one.service", &[]));
    let s = find_sock_with_name("one.socket", &table).unwrap();
    assert_eq!(s.name, "one.socket");
    assert!(find_sock_with_name("three.socket", &table).is_none());
    // a duplicated name is ambiguous
    table.units.push(socket_unit(4, "/more/one.socket", &[]));
    assert!(find_sock_with_name("one.socket", &table).is_none());
}
