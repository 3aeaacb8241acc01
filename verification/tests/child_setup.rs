//! What the forked child is given: command splitting, the environment, the
//! descriptor remap plan, and the forwarded output lines.

use rustysd::activate::{UnitOperationError, UnitOperationErrorReason};
use rustysd::child_env::{child_environment, fd_remap_plan, u64_to_dec_string, FdStep};
use rustysd::commands::parse_commandline;
use rustysd::iobuffer::{flush_lines, log_prefix};
use rustysd::services::{ChildTermination, RunCmdError};
use rustysd::units::{StatusStarted, UnitConfig, UnitStatus};

#[test]
fn command_lines_split_on_spaces() {
    let c = parse_commandline("/bin/echo hello   world").unwrap();
    assert_eq!(c.cmd, "/bin/echo");
    assert_eq!(c.args, vec!["hello".to_string(), "world".to_string()]);
    assert!(c.prefixes.is_empty());
    assert_eq!(c.describe(), "/bin/echo hello world");

    let tolerant = parse_commandline("-/usr/bin/cleanup --fast").unwrap();
    assert_eq!(tolerant.cmd, "/usr/bin/cleanup");
    assert_eq!(tolerant.prefixes.len(), 1);
    assert!(tolerant.ignores_failure());

    assert!(parse_commandline("   ").is_none());
    assert!(parse_commandline("").is_none());
}

#[test]
fn decimal_rendering_is_exact() {
    assert_eq!(u64_to_dec_string(0), "0");
    assert_eq!(u64_to_dec_string(7), "7");
    assert_eq!(u64_to_dec_string(12345), "12345");
    assert_eq!(u64_to_dec_string(u64::MAX), "18446744073709551615");
}

#[test]
fn child_environment_names_the_listeners() {
    let env = child_environment(2, 4321, "/run/notify/foo.socket");
    assert_eq!(env.len(), 3);
    assert_eq!(env[0].0, "LISTEN_FDS");
    assert_eq!(env[0].1, "2");
    assert_eq!(env[1].0, "LISTEN_PID");
    assert_eq!(env[1].1, "4321");
    assert_eq!(env[2].0, "NOTIFY_SOCKET");
    assert_eq!(env[2].1, "/run/notify/foo.socket");
}

#[test]
fn fd_plan_moves_listeners_to_three_and_four() {
    let plan = fd_remap_plan(&vec![17, 25]);
    assert_eq!(
        plan,
        vec![
            FdStep::CloseTarget(3),
            FdStep::Dup(17, 3),
            FdStep::CloseOld(17),
            FdStep::ClearCloexec(3),
            FdStep::CloseTarget(4),
            FdStep::Dup(25, 4),
            FdStep::CloseOld(25),
            FdStep::ClearCloexec(4),
        ]
    );
    // a listener already in place is only stripped of its close-on-exec flag
    let plan2 = fd_remap_plan(&vec![3]);
    assert_eq!(plan2, vec![FdStep::ClearCloexec(3)]);
}

#[test]
fn flushing_emits_complete_lines_and_keeps_the_tail() {
    let prefix = log_prefix(&b"foo.service".to_vec(), &b"Running".to_vec(), false);
    assert_eq!(prefix, b"[foo.service][Running] ".to_vec());
    let mut buf = b"hello\nwor".to_vec();
    let out = flush_lines(&mut buf, &prefix);
    assert_eq!(out, b"[foo.service][Running] hello\n".to_vec());
    assert_eq!(buf, b"wor".to_vec());
    // the rest of the line arrives, plus an empty line that is skipped
    buf.extend_from_slice(b"ld\n\n");
    let out2 = flush_lines(&mut buf, &prefix);
    assert_eq!(out2, b"[foo.service][Running] world\n".to_vec());
    assert!(buf.is_empty());

    let err_prefix = log_prefix(&b"foo.service".to_vec(), &b"Running".to_vec(), true);
    assert_eq!(err_prefix, b"[foo.service][Running][STDERR] ".to_vec());
}

#[test]
fn unit_names_come_from_the_file_path() {
    let conf = UnitConfig {
        filepath: "/etc/units/web.service".to_string(),
        wants: Vec::new(),
        requires: Vec::new(),
        before: Vec::new(),
        after: Vec::new(),
    };
    assert_eq!(conf.name(), "web.service");
    assert_eq!(conf.name_without_suffix(), "web");
    let bare = UnitConfig {
        filepath: "plain".to_string(),
        wants: Vec::new(),
        requires: Vec::new(),
        before: Vec::new(),
        after: Vec::new(),
    };
    assert_eq!(bare.name(), "plain");
    assert_eq!(bare.name_without_suffix(), "plain");
}

#[test]
fn error_messages_are_pinned() {
    let e = RunCmdError::Generic("boom".to_string());
    assert_eq!(e.describe(), "error: boom");
    let bad = RunCmdError::BadExitCode("/bin/x".to_string(), ChildTermination::Exit(-1));
    assert_eq!(bad.describe(), "/bin/x exited with: exit code -1");
    let sig = ChildTermination::Signal(9);
    assert_eq!(sig.describe(), "signal 9");

    let op = UnitOperationError {
        reason: UnitOperationErrorReason::GenericStartError("nowhere".to_string()),
        unit_name: "a.service".to_string(),
        unit_id: 12,
    };
    assert_eq!(
        op.describe(),
        "unit a.service (id 12) failed to start because: nowhere"
    );

    assert_eq!(UnitStatus::Started(StatusStarted::Running).tag(), "Running");
    assert_eq!(UnitStatus::NeverStarted.tag(), "NeverStarted");
    assert_eq!(UnitStatus::Failed("why".to_string()).tag(), "Failed: why");
}
