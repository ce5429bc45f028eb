//! Structured events built from regrouped log lines, with their models.

use vstd::prelude::*;
use vstd::std_specs::convert::FromSpecImpl;
use crate::text::views;
use crate::outside::{json_of_args, opt_views, json_text};

verus! {

/// An auditd execution event: one program run, described by the SYSCALL,
/// EXECVE, CWD, PATH and PROCTITLE records of one audit event.
#[derive(PartialEq, Debug)]
pub struct AuditdExecutionLog {
    pub cwd: String,
    pub exe: String,
    pub binary: String,
    pub loader: String,
    pub owner: String,
    pub permissions: String,
    pub command: String,
    /// The arguments of the executed command, in order; `None` (JSON `null`)
    /// while no EXECVE record has been read.
    pub args: Option<Vec<String>>,
    pub success: bool,
    pub proctitle: String,
    pub uid: String,
}

/// The model of an `AuditdExecutionLog`.
pub struct ExecutionRecord {
    pub cwd: Seq<char>,
    pub exe: Seq<char>,
    pub binary: Seq<char>,
    pub loader: Seq<char>,
    pub owner: Seq<char>,
    pub permissions: Seq<char>,
    pub command: Seq<char>,
    pub args: Option<Seq<Seq<char>>>,
    pub success: bool,
    pub proctitle: Seq<char>,
    pub uid: Seq<char>,
}

impl View for AuditdExecutionLog {
    type V = ExecutionRecord;

    open spec fn view(&self) -> ExecutionRecord {
        ExecutionRecord {
            cwd: self.cwd@,
            exe: self.exe@,
            binary: self.binary@,
            loader: self.loader@,
            owner: self.owner@,
            permissions: self.permissions@,
            command: self.command@,
            args: match self.args {
                Some(a) => Some(views(a@)),
                None => None,
            },
            success: self.success,
            proctitle: self.proctitle@,
            uid: self.uid@,
        }
    }
}

impl AuditdExecutionLog {
    /// The arguments as the JSON text that is stored with the event: `null`
    /// while no EXECVE record was read, else an array of strings.
    pub fn args_json(&self) -> (r: String)
        ensures
            r@ == json_of_args(self@.args),
    {
        json_text(&self.args)
    }
}

/// The record with every text empty, no arguments (`None`) and no success.
pub open spec fn empty_execution() -> ExecutionRecord {
    ExecutionRecord {
        cwd: seq![],
        exe: seq![],
        binary: seq![],
        loader: seq![],
        owner: seq![],
        permissions: seq![],
        command: seq![],
        args: None,
        success: false,
        proctitle: seq![],
        uid: seq![],
    }
}

impl Default for AuditdExecutionLog {
    fn default() -> (r: Self)
        ensures
            r@ == empty_execution(),
    {
        let r = AuditdExecutionLog {
            cwd: String::new(),
            exe: String::new(),
            binary: String::new(),
            loader: String::new(),
            owner: String::new(),
            permissions: String::new(),
            command: String::new(),
            args: None,
            success: false,
            proctitle: String::new(),
            uid: String::new(),
        };
        r
    }
}

/// An auditd user login event.
#[derive(PartialEq, Debug)]
pub struct AuditdUserLoginLog {
    pub address: String,
    pub exe: String,
    pub result: String,
    pub user_id: String,
}

/// The model of an `AuditdUserLoginLog`.
pub struct LoginRecord {
    pub address: Seq<char>,
    pub exe: Seq<char>,
    pub result: Seq<char>,
    pub user_id: Seq<char>,
}

impl View for AuditdUserLoginLog {
    type V = LoginRecord;

    open spec fn view(&self) -> LoginRecord {
        LoginRecord {
            address: self.address@,
            exe: self.exe@,
            result: self.result@,
            user_id: self.user_id@,
        }
    }
}

impl Default for AuditdUserLoginLog {
    fn default() -> (r: Self)
        ensures
            r@.address == Seq::<char>::empty(),
            r@.exe == Seq::<char>::empty(),
            r@.result == Seq::<char>::empty(),
            r@.user_id == Seq::<char>::empty(),
    {
        AuditdUserLoginLog {
            address: String::new(),
            exe: String::new(),
            result: String::new(),
            user_id: String::new(),
        }
    }
}

/// The auditd events that the pipeline understands.
#[derive(PartialEq, Debug)]
pub enum AuditdLogType {
    Execution(AuditdExecutionLog),
    UserLogin(AuditdUserLoginLog),
}

/// The model of an `AuditdLogType`.
pub enum AuditdEvent {
    Execution(ExecutionRecord),
    UserLogin(LoginRecord),
}

impl View for AuditdLogType {
    type V = AuditdEvent;

    open spec fn view(&self) -> AuditdEvent {
        match self {
            AuditdLogType::Execution(e) => AuditdEvent::Execution(e@),
            AuditdLogType::UserLogin(l) => AuditdEvent::UserLogin(l@),
        }
    }
}

/// The content of a log, by the service that emitted it.
#[derive(PartialEq, Debug)]
pub enum ServiceLogType {
    Auditd(AuditdLogType),
    NotSupported(()),
}

/// The model of a `ServiceLogType`.
pub enum ServiceContent {
    Auditd(AuditdEvent),
    NotSupported,
}

impl View for ServiceLogType {
    type V = ServiceContent;

    open spec fn view(&self) -> ServiceContent {
        match self {
            ServiceLogType::Auditd(a) => ServiceContent::Auditd(a@),
            ServiceLogType::NotSupported(_) => ServiceContent::NotSupported,
        }
    }
}

/// One event of one machine: who sent it, when, from which service, and what.
#[derive(PartialEq, Debug)]
pub struct Log {
    pub ip: String,
    pub timestamp: i32,
    pub hostname: String,
    pub service: String,
    pub content: ServiceLogType,
}

/// The model of a `Log`.
pub struct LogRecord {
    pub ip: Seq<char>,
    pub timestamp: i32,
    pub hostname: Seq<char>,
    pub service: Seq<char>,
    pub content: ServiceContent,
}

impl View for Log {
    type V = LogRecord;

    open spec fn view(&self) -> LogRecord {
        LogRecord {
            ip: self.ip@,
            timestamp: self.timestamp,
            hostname: self.hostname@,
            service: self.service@,
            content: self.content@,
        }
    }
}

impl From<AuditdExecutionLog> for AuditdLogType {
    fn from(log: AuditdExecutionLog) -> (r: Self) {
        AuditdLogType::Execution(log)
    }
}

impl FromSpecImpl<AuditdExecutionLog> for AuditdLogType {
    open spec fn obeys_from_spec() -> bool {
        true
    }

    open spec fn from_spec(log: AuditdExecutionLog) -> Self {
        AuditdLogType::Execution(log)
    }
}

impl From<AuditdUserLoginLog> for AuditdLogType {
    fn from(log: AuditdUserLoginLog) -> (r: Self) {
        AuditdLogType::UserLogin(log)
    }
}

impl FromSpecImpl<AuditdUserLoginLog> for AuditdLogType {
    open spec fn obeys_from_spec() -> bool {
        true
    }

    open spec fn from_spec(log: AuditdUserLoginLog) -> Self {
        AuditdLogType::UserLogin(log)
    }
}

impl From<AuditdLogType> for ServiceLogType {
    fn from(log: AuditdLogType) -> (r: Self) {
        ServiceLogType::Auditd(log)
    }
}

impl FromSpecImpl<AuditdLogType> for ServiceLogType {
    open spec fn obeys_from_spec() -> bool {
        true
    }

    open spec fn from_spec(log: AuditdLogType) -> Self {
        ServiceLogType::Auditd(log)
    }
}

} // verus!
