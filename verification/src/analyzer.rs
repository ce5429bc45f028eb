//! Scoring of structured logs: which machine a log belongs to, and how much
//! the log adds to that machine's suspicion score.

use vstd::prelude::*;
use vstd::utf8::encode_utf8;
use crate::types::{Log, LogRecord, ServiceLogType, ServiceContent, AuditdLogType, AuditdEvent, ExecutionRecord};
use crate::text::same_text;
use crate::outside::{sha256, sha256_digest};

verus! {

/// The score every machine starts with, and the score of a log that
/// carries no sign of privilege.
pub const BASE_SCORE: i16 = 100;

/// A machine whose score exceeds this is reported.
pub const ALERT_THRESHOLD: i16 = 100;

/// The big-endian value of 8 bytes.
pub open spec fn be_u64(b: Seq<u8>) -> int {
    b[0] * 0x100000000000000 + b[1] * 0x1000000000000 + b[2] * 0x10000000000 + b[3] * 0x100000000
        + b[4] * 0x1000000 + b[5] * 0x10000 + b[6] * 0x100 + b[7]
}

/// The two's-complement reading of a 64-bit value (`i64::from_be_bytes`).
pub open spec fn as_signed(v: int) -> int {
    if v >= 0x8000000000000000 {
        v - 0x10000000000000000
    } else {
        v
    }
}

/// The identifier of a machine: the first 8 bytes of the SHA-256 of its
/// address followed by its host name (UTF-8), read as a big-endian `i64`.
pub open spec fn machine_id(ip: Seq<char>, hostname: Seq<char>) -> int {
    as_signed(be_u64(sha256(encode_utf8(ip) + encode_utf8(hostname))))
}

/// The score change of an execution: 100, times 1.5 for `sudo`, times 1.1
/// when run from `/`, negated when run as root (uid 0), truncated toward
/// zero. In integers: 100 or 150, then 110 or 165, then possibly negated.
pub open spec fn execution_delta(sudo: bool, root_dir: bool, root_user: bool) -> int {
    let a: int = if sudo { 150 } else { 100 };
    let b: int = if root_dir { a * 11 / 10 } else { a };
    if root_user { -b } else { b }
}

/// The score change of a log.
pub open spec fn log_delta(l: LogRecord) -> int {
    match l.content {
        ServiceContent::Auditd(AuditdEvent::Execution(e)) => execution_delta(
            e.exe == seq!['s', 'u', 'd', 'o'],
            e.cwd == seq!['/'],
            e.uid == seq!['0'],
        ),
        _ => BASE_SCORE as int,
    }
}

/// What analysing a log yields: whose score changes, and by how much.
#[derive(PartialEq, Debug, Clone, Copy)]
pub struct Analysis {
    pub user_id: i64,
    pub delta: i16,
}

/// The machine identifier of an address and a host name.
pub fn user_id(ip: &str, hostname: &str) -> (r: i64)
    ensures
        r == machine_id(ip@, hostname@),
{
    let a = ip.as_bytes();
    let b = hostname.as_bytes();
    let mut data: Vec<u8> = Vec::new();
    let mut k: usize = 0;
    while k < a.len()
        invariant
            a@ == encode_utf8(ip@),
            k <= a@.len(),
            data@ == a@.take(k as int),
        decreases a@.len() - k,
    {
        data.push(a[k]);
        proof {
            assert(a@.take(k + 1) =~= a@.take(k as int).push(a@[k as int]));
        }
        k = k + 1;
    }
    let mut j: usize = 0;
    while j < b.len()
        invariant
            a@ == encode_utf8(ip@),
            b@ == encode_utf8(hostname@),
            j <= b@.len(),
            data@ == a@ + b@.take(j as int),
        decreases b@.len() - j,
    {
        data.push(b[j]);
        proof {
            assert(a@ + b@.take(j + 1) =~= (a@ + b@.take(j as int)).push(b@[j as int]));
        }
        j = j + 1;
    }
    proof {
        assert(a@.take(a@.len() as int) =~= a@);
        assert(b@.take(b@.len() as int) =~= b@);
    }
    let digest = sha256_digest(data.as_slice());
    let v: u64 = digest[0] as u64 * 0x100000000000000 + digest[1] as u64 * 0x1000000000000
        + digest[2] as u64 * 0x10000000000 + digest[3] as u64 * 0x100000000 + digest[4] as u64
        * 0x1000000 + digest[5] as u64 * 0x10000 + digest[6] as u64 * 0x100 + digest[7] as u64;
    if v >= 0x8000000000000000 {
        (v as i128 - 0x10000000000000000) as i64
    } else {
        v as i64
    }
}

/// The score change of a log (see `log_delta`).
pub fn score_delta(log: &Log) -> (r: i16)
    ensures
        r == log_delta(log@),
{
    match &log.content {
        ServiceLogType::Auditd(AuditdLogType::Execution(e)) => {
            let (sudo_name, root_path, root_uid) = ("sudo", "/", "0");
            proof {
                reveal_strlit("sudo");
                reveal_strlit("/");
                reveal_strlit("0");
                assert(sudo_name@ =~= seq!['s', 'u', 'd', 'o']);
                assert(root_path@ =~= seq!['/']);
                assert(root_uid@ =~= seq!['0']);
            }
            let sudo = same_text(e.exe.as_str(), sudo_name);
            let root_dir = same_text(e.cwd.as_str(), root_path);
            let root_user = same_text(e.uid.as_str(), root_uid);
            let a: i16 = if sudo {
                150
            } else {
                100
            };
            let b: i16 = if root_dir {
                a * 11 / 10
            } else {
                a
            };
            if root_user {
                -b
            } else {
                b
            }
        },
        _ => BASE_SCORE,
    }
}

/// Analyses a log: the machine it comes from and its score change.
pub fn analyze_log(log: &Log) -> (r: Analysis)
    ensures
        r.user_id == machine_id(log.ip@, log.hostname@),
        r.delta == log_delta(log@),
{
    Analysis { user_id: user_id(log.ip.as_str(), log.hostname.as_str()), delta: score_delta(log) }
}

/// Whether a machine with this score is reported.
pub fn is_alert(score: i16) -> (r: bool)
    ensures
        r == (score > ALERT_THRESHOLD),
{
    score > ALERT_THRESHOLD
}


/// An execution run as root lowers the score, any other raises it; the size
/// of the change is 100, raised by half for `sudo` and by a tenth when run
/// from `/`.
pub proof fn law_execution_delta(sudo: bool, root_dir: bool, root_user: bool)
    ensures
        (execution_delta(sudo, root_dir, root_user) < 0) == root_user,
        root_user ==> -165 <= execution_delta(sudo, root_dir, root_user) <= -100,
        !root_user ==> 100 <= execution_delta(sudo, root_dir, root_user) <= 165,
        !root_user ==> execution_delta(sudo, root_dir, root_user) == (if sudo { 150int } else { 100 }) * (
        if root_dir { 11int } else { 10 }) / 10,
{
}


/// The log of an execution record, the other fields as in `l`.
pub open spec fn with_execution(l: LogRecord, e: ExecutionRecord) -> LogRecord {
    LogRecord { content: ServiceContent::Auditd(AuditdEvent::Execution(e)), ..l }
}

/// Only the executable `sudo` raises the score change by half: any other
/// executable scores as `ls` does with the same directory and user, and
/// `sudo` scores exactly one and a half times that.
pub proof fn law_only_sudo_raises(l: LogRecord, e: ExecutionRecord)
    ensures
        e.exe != seq!['s', 'u', 'd', 'o'] ==> log_delta(with_execution(l, e)) == log_delta(
            with_execution(l, ExecutionRecord { exe: seq!['l', 's'], ..e }),
        ),
        e.exe == seq!['s', 'u', 'd', 'o'] ==> 2 * log_delta(with_execution(l, e)) == 3 * log_delta(
            with_execution(l, ExecutionRecord { exe: seq!['l', 's'], ..e }),
        ),
{
    assert(seq!['l', 's'] != seq!['s', 'u', 'd', 'o']) by {
        assert(seq!['l', 's'].len() != seq!['s', 'u', 'd', 'o'].len());
    }
}

/// The score change of an execution from `/` is a tenth more than from any
/// other directory; run as root (uid `0`) it is negated; an execution with
/// none of `sudo`, `/` or uid `0` scores the base.
pub proof fn law_directory_and_user(l: LogRecord, e: ExecutionRecord)
    ensures
        e.exe != seq!['s', 'u', 'd', 'o'] && e.cwd != seq!['/'] && e.uid != seq!['0'] ==> log_delta(
            with_execution(l, e),
        ) == BASE_SCORE,
        e.cwd == seq!['/'] ==> 10 * log_delta(with_execution(l, e)) == 11 * log_delta(
            with_execution(l, ExecutionRecord { cwd: seq!['h'], ..e }),
        ),
        e.uid == seq!['0'] ==> log_delta(with_execution(l, e)) == -log_delta(
            with_execution(l, ExecutionRecord { uid: seq!['1'], ..e }),
        ),
{
    assert(seq!['h'] != seq!['/']) by {
        assert(seq!['h'][0] != seq!['/'][0]);
    }
    assert(seq!['1'] != seq!['0']) by {
        assert(seq!['1'][0] != seq!['0'][0]);
    }
}

} // verus!
