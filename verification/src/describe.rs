//! Human-readable renderings of statuses and errors.  Each method returns a
//! `String` whose contents are pinned exactly by a spec-level concatenation,
//! so callers (and tests) know the message character for character.

use crate::activate::{UnitOperationError, UnitOperationErrorReason};
use crate::child_env::{spec_dec, u64_to_dec_string};
use crate::services::{ChildTermination, RunCmdError, ServiceErrorReason};
use crate::units::UnitStatus;
use vstd::prelude::*;

verus! {

/// The decimal rendering of a signed code.
pub open spec fn spec_dec_signed(c: int) -> Seq<char> {
    if c < 0 {
        seq!['-'] + spec_dec((-c) as nat)
    } else {
        spec_dec(c as nat)
    }
}

/// A signed code written in decimal.
pub fn i32_to_dec_string(c: i32) -> (r: String)
    ensures
        r@ == spec_dec_signed(c as int),
{
    if c >= 0 {
        let r = u64_to_dec_string(c as u64);
        r
    } else {
        let mut r = String::new();
        r.append("-");
        let mag = (-(c as i64)) as u64;
        let digits = u64_to_dec_string(mag);
        r.append(digits.as_str());
        proof {
            reveal_strlit("-");
            assert(r@ =~= spec_dec_signed(c as int));
        }
        r
    }
}

impl ChildTermination {
    /// How the child ended, in words.
    pub open spec fn spec_describe(&self) -> Seq<char> {
        match self {
            ChildTermination::Exit(c) => "exit code "@ + spec_dec_signed(*c as int),
            ChildTermination::Signal(sig) => "signal "@ + spec_dec_signed(*sig as int),
        }
    }

    pub fn describe(&self) -> (r: String)
        ensures
            r@ == self.spec_describe(),
    {
        match self {
            ChildTermination::Exit(c) => {
                let mut r = "exit code ".to_owned();
                let d = i32_to_dec_string(*c);
                r.append(d.as_str());
                r
            },
            ChildTermination::Signal(sig) => {
                let mut r = "signal ".to_owned();
                let d = i32_to_dec_string(*sig);
                r.append(d.as_str());
                r
            },
        }
    }
}

impl RunCmdError {
    /// Why the command run failed, in words.
    pub open spec fn spec_describe(&self) -> Seq<char> {
        match self {
            RunCmdError::BadExitCode(cmd, exit) => cmd@ + " exited with: "@
                + exit.spec_describe(),
            RunCmdError::ExitBeforeNotify(exit) => "service exited before signalling readiness: "@
                + exit.spec_describe(),
            RunCmdError::SpawnError(cmd, err) => cmd@ + " failed to spawn with: "@ + err@,
            RunCmdError::WaitError(cmd, err) => cmd@ + " could not be waited on because: "@
                + err@,
            RunCmdError::Timeout(cmd, err) => cmd@ + " reached its timeout: "@ + err@,
            RunCmdError::Generic(err) => "error: "@ + err@,
        }
    }

    pub fn describe(&self) -> (r: String)
        ensures
            r@ == self.spec_describe(),
    {
        match self {
            RunCmdError::BadExitCode(cmd, exit) => {
                let mut r = cmd.clone();
                r.append(" exited with: ");
                let e = exit.describe();
                r.append(e.as_str());
                r
            },
            RunCmdError::ExitBeforeNotify(exit) => {
                let mut r = "service exited before signalling readiness: ".to_owned();
                let e = exit.describe();
                r.append(e.as_str());
                r
            },
            RunCmdError::SpawnError(cmd, err) => {
                let mut r = cmd.clone();
                r.append(" failed to spawn with: ");
                r.append(err.as_str());
                r
            },
            RunCmdError::WaitError(cmd, err) => {
                let mut r = cmd.clone();
                r.append(" could not be waited on because: ");
                r.append(err.as_str());
                r
            },
            RunCmdError::Timeout(cmd, err) => {
                let mut r = cmd.clone();
                r.append(" reached its timeout: ");
                r.append(err.as_str());
                r
            },
            RunCmdError::Generic(err) => {
                let mut r = "error: ".to_owned();
                r.append(err.as_str());
                r
            },
        }
    }
}

impl ServiceErrorReason {
    /// Why the service operation failed, in words; paired variants name both
    /// the primary cause and the cleanup failure.
    pub open spec fn spec_describe(&self) -> Seq<char> {
        match self {
            ServiceErrorReason::PrestartFailed(e) => "prestart failed: "@ + e.spec_describe(),
            ServiceErrorReason::PoststartFailed(e) => "poststart failed: "@ + e.spec_describe(),
            ServiceErrorReason::StartFailed(e) => "start failed: "@ + e.spec_describe(),
            ServiceErrorReason::StopFailed(e) => "stop failed: "@ + e.spec_describe(),
            ServiceErrorReason::PoststopFailed(e) => "poststop failed: "@ + e.spec_describe(),
            ServiceErrorReason::PrestartAndPoststopFailed(e, e2) => "prestart failed: "@
                + e.spec_describe() + " and poststop failed too: "@ + e2.spec_describe(),
            ServiceErrorReason::PoststartAndPoststopFailed(e, e2) => "poststart failed: "@
                + e.spec_describe() + " and poststop failed too: "@ + e2.spec_describe(),
            ServiceErrorReason::StartAndPoststopFailed(e, e2) => "start failed: "@
                + e.spec_describe() + " and poststop failed too: "@ + e2.spec_describe(),
            ServiceErrorReason::StopAndPoststopFailed(e, e2) => "stop failed: "@
                + e.spec_describe() + " and poststop failed too: "@ + e2.spec_describe(),
            ServiceErrorReason::Generic(e) => "service error: "@ + e@,
            ServiceErrorReason::AlreadyHasPID(p) => "tried to start an already running service (pid "@
                + spec_dec(*p as nat) + ")"@,
            ServiceErrorReason::AlreadyHasPGID(g) => "tried to start an already running service (process group "@
                + spec_dec(*g as nat) + ")"@,
            ServiceErrorReason::PreparingFailed(e) => "preparing of the service failed because: "@
                + e@,
        }
    }

    pub fn describe(&self) -> (r: String)
        ensures
            r@ == self.spec_describe(),
    {
        match self {
            ServiceErrorReason::PrestartFailed(e) => {
                let mut r = "prestart failed: ".to_owned();
                let d = e.describe();
                r.append(d.as_str());
                r
            },
            ServiceErrorReason::PoststartFailed(e) => {
                let mut r = "poststart failed: ".to_owned();
                let d = e.describe();
                r.append(d.as_str());
                r
            },
            ServiceErrorReason::StartFailed(e) => {
                let mut r = "start failed: ".to_owned();
                let d = e.describe();
                r.append(d.as_str());
                r
            },
            ServiceErrorReason::StopFailed(e) => {
                let mut r = "stop failed: ".to_owned();
                let d = e.describe();
                r.append(d.as_str());
                r
            },
            ServiceErrorReason::PoststopFailed(e) => {
                let mut r = "poststop failed: ".to_owned();
                let d = e.describe();
                r.append(d.as_str());
                r
            },
            ServiceErrorReason::PrestartAndPoststopFailed(e, e2) => {
                let mut r = "prestart failed: ".to_owned();
                let d = e.describe();
                r.append(d.as_str());
                r.append(" and poststop failed too: ");
                let d2 = e2.describe();
                r.append(d2.as_str());
                r
            },
            ServiceErrorReason::PoststartAndPoststopFailed(e, e2) => {
                let mut r = "poststart failed: ".to_owned();
                let d = e.describe();
                r.append(d.as_str());
                r.append(" and poststop failed too: ");
                let d2 = e2.describe();
                r.append(d2.as_str());
                r
            },
            ServiceErrorReason::StartAndPoststopFailed(e, e2) => {
                let mut r = "start failed: ".to_owned();
                let d = e.describe();
                r.append(d.as_str());
                r.append(" and poststop failed too: ");
                let d2 = e2.describe();
                r.append(d2.as_str());
                r
            },
            ServiceErrorReason::StopAndPoststopFailed(e, e2) => {
                let mut r = "stop failed: ".to_owned();
                let d = e.describe();
                r.append(d.as_str());
                r.append(" and poststop failed too: ");
                let d2 = e2.describe();
                r.append(d2.as_str());
                r
            },
            ServiceErrorReason::Generic(e) => {
                let mut r = "service error: ".to_owned();
                r.append(e.as_str());
                r
            },
            ServiceErrorReason::AlreadyHasPID(p) => {
                let mut r = "tried to start an already running service (pid ".to_owned();
                let d = u64_to_dec_string(*p);
                r.append(d.as_str());
                r.append(")");
                r
            },
            ServiceErrorReason::AlreadyHasPGID(g) => {
                let mut r = "tried to start an already running service (process group ".to_owned();
                let d = u64_to_dec_string(*g);
                r.append(d.as_str());
                r.append(")");
                r
            },
            ServiceErrorReason::PreparingFailed(e) => {
                let mut r = "preparing of the service failed because: ".to_owned();
                r.append(e.as_str());
                r
            },
        }
    }
}

impl UnitOperationError {
    /// One line naming the unit, its id and what went wrong.
    pub open spec fn spec_describe(&self) -> Seq<char> {
        let head = "unit "@ + self.unit_name@ + " (id "@ + spec_dec(self.unit_id as nat)
            + ") "@;
        match &self.reason {
            UnitOperationErrorReason::GenericStartError(msg) => head + "failed to start because: "@
                + msg@,
            UnitOperationErrorReason::GenericStopError(msg) => head
                + "failed to stop cleanly because: "@ + msg@,
            UnitOperationErrorReason::SocketOpenError(msg) => head + "failed to open because: "@
                + msg@,
            UnitOperationErrorReason::SocketCloseError(msg) => head
                + "failed to close cleanly because: "@ + msg@,
            UnitOperationErrorReason::ServiceStartError(e) => head + "failed to start because: "@
                + e.spec_describe(),
            UnitOperationErrorReason::ServiceStopError(e) => head
                + "failed to stop cleanly because: "@ + e.spec_describe(),
        }
    }

    pub fn describe(&self) -> (r: String)
        ensures
            r@ == self.spec_describe(),
    {
        let mut r = "unit ".to_owned();
        r.append(self.unit_name.as_str());
        r.append(" (id ");
        let d = u64_to_dec_string(self.unit_id);
        r.append(d.as_str());
        r.append(") ");
        match &self.reason {
            UnitOperationErrorReason::GenericStartError(msg) => {
                r.append("failed to start because: ");
                r.append(msg.as_str());
            },
            UnitOperationErrorReason::GenericStopError(msg) => {
                r.append("failed to stop cleanly because: ");
                r.append(msg.as_str());
            },
            UnitOperationErrorReason::SocketOpenError(msg) => {
                r.append("failed to open because: ");
                r.append(msg.as_str());
            },
            UnitOperationErrorReason::SocketCloseError(msg) => {
                r.append("failed to close cleanly because: ");
                r.append(msg.as_str());
            },
            UnitOperationErrorReason::ServiceStartError(e) => {
                r.append("failed to start because: ");
                let d2 = e.describe();
                r.append(d2.as_str());
            },
            UnitOperationErrorReason::ServiceStopError(e) => {
                r.append("failed to stop cleanly because: ");
                let d2 = e.describe();
                r.append(d2.as_str());
            },
        }
        r
    }
}

impl UnitStatus {
    /// The short tag of this status, as the forwarding prefix shows it.
    pub open spec fn spec_tag(&self) -> Seq<char> {
        match self {
            UnitStatus::NeverStarted => "NeverStarted"@,
            UnitStatus::Starting => "Starting"@,
            UnitStatus::Started(crate::units::StatusStarted::Running) => "Running"@,
            UnitStatus::Started(crate::units::StatusStarted::WaitingForSocket) => "WaitingForSocket"@,
            UnitStatus::Stopped => "Stopped"@,
            UnitStatus::Failed(m) => "Failed: "@ + m@,
        }
    }

    pub fn tag(&self) -> (r: String)
        ensures
            r@ == self.spec_tag(),
    {
        match self {
            UnitStatus::NeverStarted => "NeverStarted".to_owned(),
            UnitStatus::Starting => "Starting".to_owned(),
            UnitStatus::Started(crate::units::StatusStarted::Running) => "Running".to_owned(),
            UnitStatus::Started(crate::units::StatusStarted::WaitingForSocket) => {
                "WaitingForSocket".to_owned()
            },
            UnitStatus::Stopped => "Stopped".to_owned(),
            UnitStatus::Failed(m) => {
                let mut r = "Failed: ".to_owned();
                r.append(m.as_str());
                r
            },
        }
    }
}

} // verus!
