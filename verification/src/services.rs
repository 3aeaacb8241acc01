//! The service payload: runtime bookkeeping for a supervised process, its
//! standard stream sinks, and the errors its lifecycle can produce.

use crate::commands::{spec_joined, Commandline, CommandlinePrefix};
use crate::units::{ServiceConfig, ServiceType, Timeout, UnitId};
use vstd::prelude::*;

verus! {

/// Lifecycle of a service's main process, as the old-style start path and the
/// child-exit handler track it.
#[derive(Clone, Copy, PartialEq, Eq, Structural, Debug)]
pub enum ServiceStatus {
    NeverRan,
    Starting,
    Running,
    Stopped,
}

/// Where a service's stdout or stderr goes: a file, a pipe (read end, write
/// end), or the null device.  Values are raw descriptor numbers held by the
/// supervisor.
#[derive(Clone, Copy, PartialEq, Eq, Structural, Debug)]
pub enum StdIo {
    File(i32),
    Piped(i32, i32),
    Null(i32),
}

impl StdIo {
    pub open spec fn spec_write_fd(&self) -> i32 {
        match self {
            StdIo::File(f) => *f,
            StdIo::Null(f) => *f,
            StdIo::Piped(_r, w) => *w,
        }
    }

    pub open spec fn spec_read_fd(&self) -> i32 {
        match self {
            StdIo::File(f) => *f,
            StdIo::Null(f) => *f,
            StdIo::Piped(r, _w) => *r,
        }
    }

    /// The descriptor a child should write into.
    #[verifier::when_used_as_spec(spec_write_fd)]
    pub fn write_fd(&self) -> (r: i32)
        ensures
            r == self.spec_write_fd(),
    {
        match self {
            StdIo::File(f) => *f,
            StdIo::Null(f) => *f,
            StdIo::Piped(_r, w) => *w,
        }
    }

    /// The descriptor the supervisor reads forwarded output from.
    #[verifier::when_used_as_spec(spec_read_fd)]
    pub fn read_fd(&self) -> (r: i32)
        ensures
            r == self.spec_read_fd(),
    {
        match self {
            StdIo::File(f) => *f,
            StdIo::Null(f) => *f,
            StdIo::Piped(r, _w) => *r,
        }
    }
}

/// How a reaped child ended: a normal exit with a code, or death by signal.
#[derive(Clone, Copy, PartialEq, Eq, Structural, Hash, Debug)]
pub enum ChildTermination {
    Exit(i32),
    Signal(i32),
}

impl ChildTermination {
    pub open spec fn spec_success(&self) -> bool {
        *self == ChildTermination::Exit(0i32)
    }

    /// A clean exit.
    #[verifier::when_used_as_spec(spec_success)]
    pub fn success(&self) -> (r: bool)
        ensures
            r == self.spec_success(),
    {
        match self {
            ChildTermination::Exit(c) => *c == 0,
            ChildTermination::Signal(_) => false,
        }
    }
}

/// Why running one helper command failed.
#[derive(Clone, PartialEq, Eq, Hash, Debug)]
pub enum RunCmdError {
    Timeout(String, String),
    SpawnError(String, String),
    WaitError(String, String),
    BadExitCode(String, ChildTermination),
    ExitBeforeNotify(ChildTermination),
    Generic(String),
}

/// Outcome of a service start request.
#[derive(Debug)]
pub enum StartResult {
    Started,
    WaitingForSocket,
}

/// Why a service operation failed; the paired variants carry a cleanup
/// failure beside the primary cause.
#[derive(Clone, PartialEq, Eq, Hash, Debug)]
pub enum ServiceErrorReason {
    PrestartFailed(RunCmdError),
    PoststartFailed(RunCmdError),
    StartFailed(RunCmdError),
    PoststopFailed(RunCmdError),
    StopFailed(RunCmdError),
    PrestartAndPoststopFailed(RunCmdError, RunCmdError),
    PoststartAndPoststopFailed(RunCmdError, RunCmdError),
    StartAndPoststopFailed(RunCmdError, RunCmdError),
    StopAndPoststopFailed(RunCmdError, RunCmdError),
    PreparingFailed(String),
    Generic(String),
    AlreadyHasPID(u64),
    AlreadyHasPGID(u64),
}

/// Runtime bookkeeping for one service.
#[derive(Clone, Debug)]
pub struct Service {
    pub pid: Option<u64>,
    pub process_group: Option<u64>,
    pub status: ServiceStatus,
    pub service_config: Option<ServiceConfig>,
    pub socket_ids: Vec<UnitId>,
    pub file_descriptors: Vec<i32>,
    pub status_msgs: Vec<String>,
    pub signaled_ready: bool,
    pub notifications_path: Option<String>,
    pub stdout: Option<StdIo>,
    pub stderr: Option<StdIo>,
    pub notifications_buffer: String,
    pub stdout_buffer: Vec<u8>,
    pub stderr_buffer: Vec<u8>,
}

/// Time limit used when a unit file configures none, in milliseconds.
pub const DEFAULT_TIMEOUT_MS: u64 = 1000;

/// The configured limit for the start phases: the start timeout if set, else
/// the general timeout, else the default.  `None` means no limit.
pub open spec fn spec_start_timeout(conf: ServiceConfig) -> Option<u64> {
    match conf.starttimeout {
        Some(Timeout::Duration(d)) => Some(d),
        Some(Timeout::Infinity) => None,
        None => match conf.generaltimeout {
            Some(Timeout::Duration(d)) => Some(d),
            Some(Timeout::Infinity) => None,
            None => Some(DEFAULT_TIMEOUT_MS),
        },
    }
}

/// The configured limit for the stop phases, with the same fallback chain.
pub open spec fn spec_stop_timeout(conf: ServiceConfig) -> Option<u64> {
    match conf.stoptimeout {
        Some(Timeout::Duration(d)) => Some(d),
        Some(Timeout::Infinity) => None,
        None => match conf.generaltimeout {
            Some(Timeout::Duration(d)) => Some(d),
            Some(Timeout::Infinity) => None,
            None => Some(DEFAULT_TIMEOUT_MS),
        },
    }
}

impl Service {
    /// Milliseconds allowed for prestart, the start itself, and poststart.
    pub fn get_start_timeout(&self, conf: &ServiceConfig) -> (r: Option<u64>)
        ensures
            r == spec_start_timeout(*conf),
    {
        if let Some(timeout) = &conf.starttimeout {
            match timeout {
                Timeout::Duration(dur) => Some(*dur),
                Timeout::Infinity => None,
            }
        } else {
            if let Some(timeout) = &conf.generaltimeout {
                match timeout {
                    Timeout::Duration(dur) => Some(*dur),
                    Timeout::Infinity => None,
                }
            } else {
                Some(DEFAULT_TIMEOUT_MS)
            }
        }
    }

    /// Milliseconds allowed for stop and poststop.
    pub fn get_stop_timeout(&self, conf: &ServiceConfig) -> (r: Option<u64>)
        ensures
            r == spec_stop_timeout(*conf),
    {
        if let Some(timeout) = &conf.stoptimeout {
            match timeout {
                Timeout::Duration(dur) => Some(*dur),
                Timeout::Infinity => None,
            }
        } else {
            if let Some(timeout) = &conf.generaltimeout {
                match timeout {
                    Timeout::Duration(dur) => Some(*dur),
                    Timeout::Infinity => None,
                }
            } else {
                Some(DEFAULT_TIMEOUT_MS)
            }
        }
    }
}

/// How one helper command run ended, as the unverified runner reports it:
/// the spawn failed, the wait failed, the deadline passed, or the child was
/// reaped with a termination.
#[derive(Clone, PartialEq, Eq, Debug)]
pub enum HelperOutcome {
    SpawnFailed(String),
    WaitFailed(String),
    TimedOut,
    Exited(ChildTermination),
}

/// Classify the end of one helper command run.  A clean exit succeeds; a
/// non-zero exit succeeds only for a failure-tolerant command (`-` prefix);
/// everything else maps to the matching error, carrying the command line.
pub fn classify_helper_outcome(cmdline: &Commandline, outcome: &HelperOutcome) -> (r: Result<
    (),
    RunCmdError,
>)
    ensures
        ({
            let desc = spec_joined(cmdline.cmd@, cmdline.args@.map_values(|a: String| a@));
            match *outcome {
                HelperOutcome::SpawnFailed(m) => r matches Err(RunCmdError::SpawnError(c, m2))
                    && c@ == desc && m2 == m,
                HelperOutcome::WaitFailed(m) => r matches Err(RunCmdError::WaitError(c, m2)) && c@
                    == desc && m2 == m,
                HelperOutcome::TimedOut => r matches Err(RunCmdError::Timeout(c, m2)) && c@
                    == desc && m2@ == "timeout reached"@,
                HelperOutcome::Exited(t) => if t.spec_success() || cmdline.prefixes@.contains(
                    CommandlinePrefix::Minus,
                ) {
                    r is Ok
                } else {
                    r matches Err(RunCmdError::BadExitCode(c, t2)) && c@ == desc && t2 == t
                },
            }
        }),
{
    match outcome {
        HelperOutcome::SpawnFailed(m) => Err(
            RunCmdError::SpawnError(cmdline.describe(), m.clone()),
        ),
        HelperOutcome::WaitFailed(m) => Err(
            RunCmdError::WaitError(cmdline.describe(), m.clone()),
        ),
        HelperOutcome::TimedOut => Err(
            RunCmdError::Timeout(cmdline.describe(), "timeout reached".to_owned()),
        ),
        HelperOutcome::Exited(t) => {
            if t.success() {
                Ok(())
            } else if cmdline.ignores_failure() {
                Ok(())
            } else {
                Err(RunCmdError::BadExitCode(cmdline.describe(), *t))
            }
        },
    }
}

/// The lifecycle phase whose failure is being reported.
#[derive(Clone, Copy, PartialEq, Eq, Structural, Debug)]
pub enum StartPhase {
    Prestart,
    Start,
    Poststart,
    Stop,
}

/// The composite error for a failed phase: cleanup (`poststop`) runs after
/// the failure, and its own failure is paired with the primary cause rather
/// than replacing it.
pub open spec fn spec_compose_phase_error(
    phase: StartPhase,
    primary: RunCmdError,
    poststop_result: Result<(), RunCmdError>,
) -> ServiceErrorReason {
    match (phase, poststop_result) {
        (StartPhase::Prestart, Ok(())) => ServiceErrorReason::PrestartFailed(primary),
        (StartPhase::Prestart, Err(p)) => ServiceErrorReason::PrestartAndPoststopFailed(
            primary,
            p,
        ),
        (StartPhase::Start, Ok(())) => ServiceErrorReason::StartFailed(primary),
        (StartPhase::Start, Err(p)) => ServiceErrorReason::StartAndPoststopFailed(primary, p),
        (StartPhase::Poststart, Ok(())) => ServiceErrorReason::PoststartFailed(primary),
        (StartPhase::Poststart, Err(p)) => ServiceErrorReason::PoststartAndPoststopFailed(
            primary,
            p,
        ),
        (StartPhase::Stop, Ok(())) => ServiceErrorReason::StopFailed(primary),
        (StartPhase::Stop, Err(p)) => ServiceErrorReason::StopAndPoststopFailed(primary, p),
    }
}

/// Pair a phase failure with the result of the cleanup that followed it.
pub fn compose_phase_error(
    phase: StartPhase,
    primary: RunCmdError,
    poststop_result: Result<(), RunCmdError>,
) -> (r: ServiceErrorReason)
    ensures
        r == spec_compose_phase_error(phase, primary, poststop_result),
{
    match (phase, poststop_result) {
        (StartPhase::Prestart, Ok(())) => ServiceErrorReason::PrestartFailed(primary),
        (StartPhase::Prestart, Err(p)) => ServiceErrorReason::PrestartAndPoststopFailed(
            primary,
            p,
        ),
        (StartPhase::Start, Ok(())) => ServiceErrorReason::StartFailed(primary),
        (StartPhase::Start, Err(p)) => ServiceErrorReason::StartAndPoststopFailed(primary, p),
        (StartPhase::Poststart, Ok(())) => ServiceErrorReason::PoststartFailed(primary),
        (StartPhase::Poststart, Err(p)) => ServiceErrorReason::PoststartAndPoststopFailed(
            primary,
            p,
        ),
        (StartPhase::Stop, Ok(())) => ServiceErrorReason::StopFailed(primary),
        (StartPhase::Stop, Err(p)) => ServiceErrorReason::StopAndPoststopFailed(primary, p),
    }
}

/// The service may fork a main process: none is recorded yet.
pub open spec fn may_fork(s: Service) -> bool {
    s.pid is None && s.process_group is None
}

/// The step from `pre` to `post` recorded the fork of `child`.
pub open spec fn records_fork(pre: Service, post: Service, child: u64) -> bool {
    may_fork(pre) && post.pid == Some(child) && post.process_group == Some(child)
}

/// Single-start: a fork can be recorded only for a service without a main
/// process, and recording one leaves the service with a main process; so no
/// service is forked twice in one activation run — its PID would first have
/// to be cleared by the stop path or the exit handler.
pub proof fn lemma_single_start(s0: Service, s1: Service, p1: u64)
    requires
        records_fork(s0, s1, p1),
    ensures
        forall|s2: Service, p2: u64| !(#[trigger] records_fork(s1, s2, p2)),
{
}

/// Outcome of the start preflight: go ahead and fork, or defer to socket
/// activation.
#[derive(Clone, Copy, PartialEq, Eq, Structural, Debug)]
pub enum StartDecision {
    Proceed,
    WaitForSocket,
}

impl Service {
    /// The start preconditions: no main process and no process group may be
    /// recorded, and inetd-style `accept` is not supported.  A service that
    /// owns sockets defers its start until socket traffic unless this call
    /// originates from it.
    pub fn start_preflight(&self, conf: &ServiceConfig, source_is_socket: bool) -> (r: Result<
        StartDecision,
        ServiceErrorReason,
    >)
        ensures
            match r {
                Err(ServiceErrorReason::AlreadyHasPID(p)) => self.pid == Some(p),
                Err(ServiceErrorReason::AlreadyHasPGID(g)) => self.pid is None
                    && self.process_group == Some(g),
                Err(ServiceErrorReason::Generic(m)) => may_fork(*self) && conf.accept && m@
                    == "Inetd style activation is not supported"@,
                Err(_) => false,
                Ok(StartDecision::WaitForSocket) => may_fork(*self) && !conf.accept
                    && !source_is_socket && conf.sockets@.len() > 0,
                Ok(StartDecision::Proceed) => may_fork(*self) && !conf.accept && (source_is_socket
                    || conf.sockets@.len() == 0),
            },
    {
        if let Some(p) = self.pid {
            return Err(ServiceErrorReason::AlreadyHasPID(p));
        }
        if let Some(g) = self.process_group {
            return Err(ServiceErrorReason::AlreadyHasPGID(g));
        }
        if conf.accept {
            return Err(
                ServiceErrorReason::Generic("Inetd style activation is not supported".to_owned()),
            );
        }
        if source_is_socket || conf.sockets.len() == 0 {
            Ok(StartDecision::Proceed)
        } else {
            Ok(StartDecision::WaitForSocket)
        }
    }

    /// Immediately after the fork, still under the PID-table lock: record
    /// the child as the service's main process and process-group leader, and
    /// register the PID before anything can reap it.
    pub fn record_fork(
        &mut self,
        pid_table: &mut crate::pid_table::PidTable,
        id: UnitId,
        stype: ServiceType,
        child: u64,
    )
        requires
            may_fork(*old(self)),
            old(pid_table).wf(),
        ensures
            records_fork(*old(self), *final(self), child),
            final(self).status == ServiceStatus::Running,
            final(self).service_config == old(self).service_config,
            final(self).socket_ids == old(self).socket_ids,
            final(self).file_descriptors == old(self).file_descriptors,
            final(self).status_msgs == old(self).status_msgs,
            final(self).signaled_ready == old(self).signaled_ready,
            final(self).notifications_path == old(self).notifications_path,
            final(self).stdout == old(self).stdout,
            final(self).stderr == old(self).stderr,
            final(self).notifications_buffer == old(self).notifications_buffer,
            final(self).stdout_buffer == old(self).stdout_buffer,
            final(self).stderr_buffer == old(self).stderr_buffer,
            final(pid_table).wf(),
            final(pid_table).spec_contains(child),
            final(pid_table).entry_of(child) == crate::pid_table::PidEntry::Service(id, stype),
            forall|q: u64|
                q != child ==> (#[trigger] final(pid_table).spec_contains(q)) == old(pid_table).spec_contains(q),
            forall|q: u64|
                q != child && old(pid_table).spec_contains(q) ==> (#[trigger] final(pid_table).entry_of(q)) == old(pid_table).entry_of(q),
    {
        self.pid = Some(child);
        self.process_group = Some(child);
        self.status = ServiceStatus::Running;
        pid_table.insert(child, crate::pid_table::PidEntry::Service(id, stype));
    }

    /// Finish the poststop phase: clear the recorded main process and process
    /// group, and hand back the process group the caller must `SIGKILL` (a
    /// one-shot service's processes have already exited).
    pub fn run_poststop_finish(&mut self, conf: &ServiceConfig, cmds_result: Result<
        (),
        RunCmdError,
    >) -> (r: (Result<(), RunCmdError>, Option<u64>))
        ensures
            final(self).pid is None,
            final(self).process_group is None,
            final(self).status == old(self).status,
            final(self).service_config == old(self).service_config,
            final(self).socket_ids == old(self).socket_ids,
            final(self).file_descriptors == old(self).file_descriptors,
            final(self).status_msgs == old(self).status_msgs,
            final(self).signaled_ready == old(self).signaled_ready,
            final(self).notifications_path == old(self).notifications_path,
            final(self).stdout == old(self).stdout,
            final(self).stderr == old(self).stderr,
            final(self).notifications_buffer == old(self).notifications_buffer,
            final(self).stdout_buffer == old(self).stdout_buffer,
            final(self).stderr_buffer == old(self).stderr_buffer,
            r.0 == cmds_result,
            r.1 == if conf.srcv_type != ServiceType::OneShot {
                old(self).process_group
            } else {
                None::<u64>
            },
    {
        let group = if !matches!(conf.srcv_type, ServiceType::OneShot) {
            self.process_group
        } else {
            None
        };
        self.pid = None;
        self.process_group = None;
        (cmds_result, group)
    }

    /// The stop sequence.  On a service that is already stopped (no main
    /// process, no process group) this is a no-op that succeeds, and the
    /// caller runs nothing; otherwise the caller hands in the results of the
    /// stop and poststop command phases, the bookkeeping is cleared, and the
    /// process group to `SIGKILL` is returned beside the combined result.
    pub fn kill(&mut self, conf: &ServiceConfig, helper_results: Option<
        (Result<(), RunCmdError>, Result<(), RunCmdError>),
    >) -> (r: (Result<(), ServiceErrorReason>, Option<u64>))
        requires
            (old(self).pid is None && old(self).process_group is None) <==> helper_results
                is None,
        ensures
            final(self).pid is None,
            final(self).process_group is None,
            may_fork(*old(self)) ==> r.0 is Ok && r.1 is None && *final(self) == *old(self),
            final(self).status == old(self).status,
            final(self).service_config == old(self).service_config,
            final(self).socket_ids == old(self).socket_ids,
            final(self).status_msgs == old(self).status_msgs,
            final(self).signaled_ready == old(self).signaled_ready,
            final(self).stdout_buffer == old(self).stdout_buffer,
            final(self).stderr_buffer == old(self).stderr_buffer,
            match helper_results {
                None => r.0 is Ok && r.1 is None,
                Some((stop_result, poststop_result)) => {
                    &&& r.0 == (match (stop_result, poststop_result) {
                        (Ok(()), Ok(())) => Ok::<(), ServiceErrorReason>(()),
                        (Ok(()), Err(p)) => Err(ServiceErrorReason::PoststopFailed(p)),
                        (Err(e), Ok(())) => Err(ServiceErrorReason::StopFailed(e)),
                        (Err(e), Err(p)) => Err(
                            ServiceErrorReason::StopAndPoststopFailed(e, p),
                        ),
                    })
                    &&& r.1 == (if conf.srcv_type != ServiceType::OneShot {
                        old(self).process_group
                    } else {
                        None::<u64>
                    })
                },
            },
    {
        match helper_results {
            None => (Ok(()), None),
            Some((stop_result, poststop_result)) => {
                let group = if !matches!(conf.srcv_type, ServiceType::OneShot) {
                    self.process_group
                } else {
                    None
                };
                self.pid = None;
                self.process_group = None;
                let combined = match (stop_result, poststop_result) {
                    (Ok(()), Ok(())) => Ok(()),
                    (Ok(()), Err(p)) => Err(ServiceErrorReason::PoststopFailed(p)),
                    (Err(e), Ok(())) => Err(ServiceErrorReason::StopFailed(e)),
                    (Err(e), Err(p)) => Err(ServiceErrorReason::StopAndPoststopFailed(e, p)),
                };
                (combined, group)
            },
        }
    }
}

/// What the supervisor must do after a service's main process exited.
#[derive(Clone, PartialEq, Eq, Debug)]
pub enum ExitAction {
    Restart,
    KillDependents(Vec<UnitId>),
}

/// Handle the exit of a supervised service's main process: drop its PID from
/// the table, mark the service stopped, and decide the policy — a keep-alive
/// service is restarted in place, otherwise every unit that requires it is
/// torn down.  An exit of an unknown PID is ignored.
pub fn service_exit_handler(
    pid: u64,
    pid_table: &mut crate::pid_table::PidTable,
    srvc: &mut Service,
    conf: &ServiceConfig,
    required_by: &Vec<UnitId>,
) -> (r: Option<ExitAction>)
    requires
        old(pid_table).wf(),
    ensures
        final(pid_table).wf(),
        !old(pid_table).spec_contains(pid) ==> r is None && *final(pid_table) == *old(pid_table)
            && *final(srvc) == *old(srvc),
        old(pid_table).spec_contains(pid) ==> {
            &&& !final(pid_table).spec_contains(pid)
            &&& forall|q: u64|
                q != pid ==> (#[trigger] final(pid_table).spec_contains(q)) == old(pid_table).spec_contains(q)
            &&& final(srvc).status == ServiceStatus::Stopped
            &&& final(srvc).pid is None
            &&& final(srvc).process_group is None
            &&& final(srvc).service_config == old(srvc).service_config
            &&& final(srvc).socket_ids == old(srvc).socket_ids
            &&& final(srvc).file_descriptors == old(srvc).file_descriptors
            &&& (conf.keep_alive ==> r == Some(ExitAction::Restart))
            &&& (!conf.keep_alive ==> (r matches Some(ExitAction::KillDependents(v)) && v@
                == required_by@))
        },
{
    match pid_table.remove(pid) {
        None => None,
        Some(_entry) => {
            srvc.status = ServiceStatus::Stopped;
            srvc.pid = None;
            srvc.process_group = None;
            if conf.keep_alive {
                Some(ExitAction::Restart)
            } else {
                Some(ExitAction::KillDependents(crate::activate::copy_ids(required_by)))
            }
        },
    }
}

/// The outcome alone decides failure: anything but an exit ends the phase,
/// and a non-zero exit ends it unless the command is failure-tolerant.
pub open spec fn outcome_fails(tolerant: bool, o: HelperOutcome) -> bool {
    match o {
        HelperOutcome::Exited(t) => !t.spec_success() && !tolerant,
        _ => true,
    }
}

/// Classify a whole phase: its commands run serially and the phase stops at
/// the first failing command, whose classification it reports; the phase
/// succeeds exactly when no command fails.
pub fn classify_phase(cmds: &Vec<Commandline>, outcomes: &Vec<HelperOutcome>) -> (r: Result<
    (),
    RunCmdError,
>)
    requires
        cmds@.len() == outcomes@.len(),
    ensures
        r is Ok <==> forall|k: int|
            0 <= k < cmds@.len() ==> !outcome_fails(
                (#[trigger] cmds@[k]).prefixes@.contains(CommandlinePrefix::Minus),
                outcomes@[k],
            ),
        r is Err ==> exists|k: int|
            #![trigger cmds@[k]]
            0 <= k < cmds@.len() && outcome_fails(
                cmds@[k].prefixes@.contains(CommandlinePrefix::Minus),
                outcomes@[k],
            ) && (forall|j: int|
                0 <= j < k ==> !outcome_fails(
                    (#[trigger] cmds@[j]).prefixes@.contains(CommandlinePrefix::Minus),
                    outcomes@[j],
                )),
{
    let n = cmds.len();
    let mut k: usize = 0;
    while k < n
        invariant
            k <= n,
            n == cmds@.len(),
            n == outcomes@.len(),
            forall|j: int|
                0 <= j < k ==> !outcome_fails(
                    (#[trigger] cmds@[j]).prefixes@.contains(CommandlinePrefix::Minus),
                    outcomes@[j],
                ),
        decreases n - k,
    {
        match classify_helper_outcome(&cmds[k], &outcomes[k]) {
            Ok(()) => {},
            Err(e) => {
                proof {
                    assert(outcome_fails(
                        cmds@[k as int].prefixes@.contains(CommandlinePrefix::Minus),
                        outcomes@[k as int],
                    ));
                }
                return Err(e);
            },
        }
        k += 1;
    }
    Ok(())
}

/// A helper-command phase of the lifecycle.
#[derive(Clone, Copy, PartialEq, Eq, Structural, Debug)]
pub enum HelperPhase {
    Prestart,
    Poststart,
    Stop,
    Poststop,
}

/// The command list a helper phase runs; an empty list means the phase is
/// skipped.
pub fn phase_commands<'a>(conf: &'a ServiceConfig, phase: HelperPhase) -> (r: &'a Vec<String>)
    ensures
        *r == match phase {
            HelperPhase::Prestart => conf.startpre,
            HelperPhase::Poststart => conf.startpost,
            HelperPhase::Stop => conf.stop,
            HelperPhase::Poststop => conf.stoppost,
        },
{
    match phase {
        HelperPhase::Prestart => &conf.startpre,
        HelperPhase::Poststart => &conf.startpost,
        HelperPhase::Stop => &conf.stop,
        HelperPhase::Poststop => &conf.stoppost,
    }
}

/// The time limit a helper phase runs under: the start limit around the
/// start, the stop limit around the teardown.
pub fn phase_timeout(conf: &ServiceConfig, phase: HelperPhase) -> (r: Option<u64>)
    ensures
        r == match phase {
            HelperPhase::Prestart => spec_start_timeout(*conf),
            HelperPhase::Poststart => spec_start_timeout(*conf),
            HelperPhase::Stop => spec_stop_timeout(*conf),
            HelperPhase::Poststop => spec_stop_timeout(*conf),
        },
{
    let use_stop_limit = match phase {
        HelperPhase::Stop => true,
        HelperPhase::Poststop => true,
        _ => false,
    };
    let chosen = if use_stop_limit {
        &conf.stoptimeout
    } else {
        &conf.starttimeout
    };
    if let Some(timeout) = chosen {
        match timeout {
            Timeout::Duration(dur) => Some(*dur),
            Timeout::Infinity => None,
        }
    } else {
        if let Some(timeout) = &conf.generaltimeout {
            match timeout {
                Timeout::Duration(dur) => Some(*dur),
                Timeout::Infinity => None,
            }
        } else {
            Some(DEFAULT_TIMEOUT_MS)
        }
    }
}

} // verus!
