//! The service lifecycle decisions: start preflight, fork bookkeeping, the
//! PID table, the stop sequence, the exit bridge and the keep-alive policy.

use rustysd::pid_table::{
    handle_child_termination, helper_wait_poll, next_backoff, ExitEvent, HelperWaitOutcome,
    PidEntry, PidTable,
};
use rustysd::services::{
    classify_helper_outcome, classify_phase, compose_phase_error, phase_commands, phase_timeout,
    service_exit_handler, ChildTermination, ExitAction, HelperOutcome, HelperPhase, RunCmdError,
    Service, ServiceErrorReason, ServiceStatus, StartDecision, StartPhase,
};
use rustysd::units::{NotifyKind, ServiceConfig, ServiceType, Timeout};

fn service_config() -> ServiceConfig {
    ServiceConfig {
        keep_alive: false,
        accept: false,
        notifyaccess: NotifyKind::Main,
        exec_cmd: "/bin/true".to_string(),
        stop: Vec::new(),
        startpre: Vec::new(),
        startpost: Vec::new(),
        stoppost: Vec::new(),
        srcv_type: ServiceType::Simple,
        sockets: Vec::new(),
        starttimeout: None,
        stoptimeout: None,
        generaltimeout: None,
    }
}

fn fresh_service() -> Service {
    Service {
        pid: None,
        process_group: None,
        status: ServiceStatus::NeverRan,
        service_config: None,
        socket_ids: Vec::new(),
        file_descriptors: Vec::new(),
        status_msgs: Vec::new(),
        signaled_ready: false,
        notifications_path: None,
        stdout: None,
        stderr: None,
        notifications_buffer: String::new(),
        stdout_buffer: Vec::new(),
        stderr_buffer: Vec::new(),
    }
}

#[test]
fn prestart_and_poststop_failures_are_paired() {
    let bad1 = RunCmdError::BadExitCode("startpre".to_string(), ChildTermination::Exit(1));
    let bad2 = RunCmdError::BadExitCode("stoppost".to_string(), ChildTermination::Exit(1));
    let composed = compose_phase_error(StartPhase::Prestart, bad1.clone(), Err(bad2.clone()));
    assert_eq!(
        composed,
        ServiceErrorReason::PrestartAndPoststopFailed(bad1.clone(), bad2)
    );
    let alone = compose_phase_error(StartPhase::Prestart, bad1.clone(), Ok(()));
    assert_eq!(alone, ServiceErrorReason::PrestartFailed(bad1));
}

#[test]
fn helper_outcome_classification() {
    let cmd = rustysd::commands::parse_commandline("/bin/false now").unwrap();
    assert!(classify_helper_outcome(&cmd, &HelperOutcome::Exited(ChildTermination::Exit(0))).is_ok());
    match classify_helper_outcome(&cmd, &HelperOutcome::Exited(ChildTermination::Exit(3))) {
        Err(RunCmdError::BadExitCode(desc, term)) => {
            assert_eq!(desc, "/bin/false now");
            assert_eq!(term, ChildTermination::Exit(3));
        }
        _ => panic!("a bad exit code must be reported"),
    }
    // a failure-tolerant command swallows the bad exit
    let tolerant = rustysd::commands::parse_commandline("-/bin/false now").unwrap();
    assert_eq!(tolerant.cmd, "/bin/false");
    assert!(
        classify_helper_outcome(&tolerant, &HelperOutcome::Exited(ChildTermination::Exit(3)))
            .is_ok()
    );
    assert!(matches!(
        classify_helper_outcome(&cmd, &HelperOutcome::TimedOut),
        Err(RunCmdError::Timeout(_, _))
    ));
    assert!(matches!(
        classify_helper_outcome(&cmd, &HelperOutcome::SpawnFailed("no such file".to_string())),
        Err(RunCmdError::SpawnError(_, _))
    ));
    assert!(matches!(
        classify_helper_outcome(&cmd, &HelperOutcome::WaitFailed("gone".to_string())),
        Err(RunCmdError::WaitError(_, _))
    ));
}

#[test]
fn start_preflight_rejects_running_service() {
    let conf = service_config();
    let mut srvc = fresh_service();
    assert!(matches!(
        srvc.start_preflight(&conf, false),
        Ok(StartDecision::Proceed)
    ));
    let mut table = PidTable::new();
    srvc.record_fork(&mut table, 9, ServiceType::Simple, 4242);
    assert_eq!(srvc.pid, Some(4242));
    assert_eq!(srvc.process_group, Some(4242));
    // a second start attempt cannot reach another fork
    assert!(matches!(
        srvc.start_preflight(&conf, false),
        Err(ServiceErrorReason::AlreadyHasPID(4242))
    ));
    // inetd-style accepting is refused
    let mut accepting = service_config();
    accepting.accept = true;
    let idle = fresh_service();
    match idle.start_preflight(&accepting, false) {
        Err(ServiceErrorReason::Generic(msg)) => {
            assert_eq!(msg, "Inetd style activation is not supported");
        }
        _ => panic!("inetd-style accepting must be refused"),
    }
    // a service with sockets defers to socket activation
    let mut socketed = service_config();
    socketed.sockets.push("foo.socket".to_string());
    assert!(matches!(
        idle.start_preflight(&socketed, false),
        Ok(StartDecision::WaitForSocket)
    ));
    assert!(matches!(
        idle.start_preflight(&socketed, true),
        Ok(StartDecision::Proceed)
    ));
}

#[test]
fn pid_table_holds_one_entry_per_pid() {
    let mut table = PidTable::new();
    table.insert(100, PidEntry::Service(1, ServiceType::Simple));
    table.insert(100, PidEntry::Service(2, ServiceType::Notify));
    assert_eq!(table.entries.len(), 1);
    assert!(matches!(
        table.get(100),
        Some(PidEntry::Service(2, ServiceType::Notify))
    ));
    table.insert(101, PidEntry::Helper(2, "prestart".to_string()));
    assert_eq!(table.entries.len(), 2);
    assert!(matches!(table.remove(100), Some(PidEntry::Service(2, _))));
    assert!(table.get(100).is_none());
    assert!(table.get(101).is_some());
}

#[test]
fn exit_bridge_translates_entries() {
    let mut table = PidTable::new();
    table.insert(50, PidEntry::Service(3, ServiceType::Simple));
    table.insert(51, PidEntry::Helper(3, "stop".to_string()));
    // unknown pid: ignored
    assert_eq!(
        handle_child_termination(&mut table, 999, ChildTermination::Exit(0)),
        ExitEvent::UnknownPid
    );
    // live service: becomes ServiceExited
    assert_eq!(
        handle_child_termination(&mut table, 50, ChildTermination::Exit(1)),
        ExitEvent::MainExited(3, ServiceType::Simple)
    );
    assert!(matches!(
        table.get(50),
        Some(PidEntry::ServiceExited(ChildTermination::Exit(1)))
    ));
    // stale entry: dropped
    assert_eq!(
        handle_child_termination(&mut table, 50, ChildTermination::Exit(1)),
        ExitEvent::StaleDropped
    );
    assert!(table.get(50).is_none());
    // live helper: becomes HelperExited, then the poll consumes it
    assert!(matches!(
        helper_wait_poll(&mut table, 51),
        HelperWaitOutcome::KeepWaiting
    ));
    assert_eq!(
        handle_child_termination(&mut table, 51, ChildTermination::Signal(9)),
        ExitEvent::HelperDone(3, "stop".to_string())
    );
    assert_eq!(
        helper_wait_poll(&mut table, 51),
        HelperWaitOutcome::Done(ChildTermination::Signal(9))
    );
    assert!(table.get(51).is_none());
}

#[test]
fn helper_wait_backoff_doubles_and_caps() {
    assert_eq!(next_backoff(1), (50, 2));
    assert_eq!(next_backoff(2), (100, 4));
    assert_eq!(next_backoff(128), (6400, 256));
    assert_eq!(next_backoff(256), (10000, 256));
}

#[test]
fn phase_stops_at_first_failing_command() {
    let cmds = vec![
        rustysd::commands::parse_commandline("/bin/a").unwrap(),
        rustysd::commands::parse_commandline("/bin/b").unwrap(),
        rustysd::commands::parse_commandline("/bin/c").unwrap(),
    ];
    let outcomes = vec![
        HelperOutcome::Exited(ChildTermination::Exit(0)),
        HelperOutcome::Exited(ChildTermination::Exit(5)),
        HelperOutcome::TimedOut,
    ];
    match classify_phase(&cmds, &outcomes) {
        Err(RunCmdError::BadExitCode(desc, ChildTermination::Exit(5))) => {
            assert_eq!(desc, "/bin/b");
        }
        _ => panic!("the first failing command is the reported one"),
    }
    let all_ok = vec![
        HelperOutcome::Exited(ChildTermination::Exit(0)),
        HelperOutcome::Exited(ChildTermination::Exit(0)),
        HelperOutcome::Exited(ChildTermination::Exit(0)),
    ];
    assert!(classify_phase(&cmds, &all_ok).is_ok());
}

#[test]
fn kill_on_stopped_service_is_a_no_op() {
    let conf = service_config();
    let mut srvc = fresh_service();
    let (result, group) = srvc.kill(&conf, None);
    assert!(result.is_ok());
    assert!(group.is_none());
    assert_eq!(srvc.status, ServiceStatus::NeverRan);
}

#[test]
fn kill_combines_stop_and_poststop_failures() {
    let conf = service_config();
    let mut srvc = fresh_service();
    let mut table = PidTable::new();
    srvc.record_fork(&mut table, 4, ServiceType::Simple, 77);
    let stop_err = RunCmdError::BadExitCode("stop".to_string(), ChildTermination::Exit(2));
    let post_err = RunCmdError::Timeout("stoppost".to_string(), "timeout reached".to_string());
    let (result, group) = srvc.kill(&conf, Some((Err(stop_err.clone()), Err(post_err.clone()))));
    assert_eq!(
        result,
        Err(ServiceErrorReason::StopAndPoststopFailed(stop_err, post_err))
    );
    // the non-oneshot process group is handed back for the SIGKILL
    assert_eq!(group, Some(77));
    assert!(srvc.pid.is_none());
    assert!(srvc.process_group.is_none());
    // killing again is now a no-op
    let (again, group2) = srvc.kill(&conf, None);
    assert!(again.is_ok());
    assert!(group2.is_none());
}

#[test]
fn keep_alive_service_restarts_with_new_pid() {
    let mut conf = service_config();
    conf.keep_alive = true;
    let mut srvc = fresh_service();
    let mut table = PidTable::new();
    srvc.record_fork(&mut table, 6, ServiceType::Simple, 500);
    assert_eq!(srvc.status, ServiceStatus::Running);

    // the main process exits; the policy asks for a restart
    let action = service_exit_handler(500, &mut table, &mut srvc, &conf, &Vec::new());
    assert_eq!(action, Some(ExitAction::Restart));
    assert_eq!(srvc.status, ServiceStatus::Stopped);
    assert!(table.get(500).is_none());

    // within one restart cycle the table holds a new entry for the same unit
    srvc.record_fork(&mut table, 6, ServiceType::Simple, 501);
    assert_eq!(srvc.status, ServiceStatus::Running);
    assert!(matches!(
        table.get(501),
        Some(PidEntry::Service(6, ServiceType::Simple))
    ));
}

#[test]
fn exit_of_plain_service_tears_down_dependents() {
    let conf = service_config();
    let mut srvc = fresh_service();
    let mut table = PidTable::new();
    srvc.record_fork(&mut table, 6, ServiceType::Simple, 500);
    let action = service_exit_handler(500, &mut table, &mut srvc, &conf, &vec![8, 9]);
    assert_eq!(action, Some(ExitAction::KillDependents(vec![8, 9])));
    // an unknown pid is ignored
    let none = service_exit_handler(444, &mut table, &mut srvc, &conf, &vec![8, 9]);
    assert!(none.is_none());
}

#[test]
fn timeouts_fall_back_to_general_then_default() {
    let srvc = fresh_service();
    let mut conf = service_config();
    assert_eq!(srvc.get_start_timeout(&conf), Some(1000));
    assert_eq!(srvc.get_stop_timeout(&conf), Some(1000));
    conf.generaltimeout = Some(Timeout::Duration(2500));
    assert_eq!(srvc.get_start_timeout(&conf), Some(2500));
    conf.starttimeout = Some(Timeout::Duration(300));
    assert_eq!(srvc.get_start_timeout(&conf), Some(300));
    assert_eq!(srvc.get_stop_timeout(&conf), Some(2500));
    conf.stoptimeout = Some(Timeout::Infinity);
    assert_eq!(srvc.get_stop_timeout(&conf), None);
}

#[test]
fn helper_phases_pick_their_commands_and_limits() {
    let mut conf = service_config();
    conf.startpre.push("/bin/pre".to_string());
    conf.stoppost.push("/bin/post".to_string());
    conf.stoptimeout = Some(Timeout::Duration(700));
    assert_eq!(
        phase_commands(&conf, HelperPhase::Prestart),
        &vec!["/bin/pre".to_string()]
    );
    assert_eq!(
        phase_commands(&conf, HelperPhase::Poststop),
        &vec!["/bin/post".to_string()]
    );
    assert!(phase_commands(&conf, HelperPhase::Stop).is_empty());
    assert_eq!(phase_timeout(&conf, HelperPhase::Prestart), Some(1000));
    assert_eq!(phase_timeout(&conf, HelperPhase::Poststop), Some(700));
}

#[test]
fn notify_datagram_sets_readiness_and_status() {
    let mut srvc = fresh_service();
    rustysd::notify::handle_notification_datagram(&mut srvc, "STATUS=starting up\n");
    assert!(!srvc.signaled_ready);
    assert_eq!(srvc.status_msgs, vec!["starting up".to_string()]);
    rustysd::notify::handle_notification_datagram(&mut srvc, "READY=1\nSTATUS=serving\0EXTRA=1");
    assert!(srvc.signaled_ready);
    assert_eq!(
        srvc.status_msgs,
        vec![
            "starting up".to_string(),
            "serving".to_string(),
            "EXTRA=1".to_string()
        ]
    );
    // an empty datagram changes nothing
    let before = srvc.status_msgs.clone();
    rustysd::notify::handle_notification_datagram(&mut srvc, "");
    assert_eq!(srvc.status_msgs, before);
}
