use sha2::{Digest, Sha256};
use soc_pipeline::analyzer::{analyze_log, score_delta, user_id, is_alert, Analysis};
use soc_pipeline::types::{AuditdExecutionLog, AuditdLogType, Log, ServiceLogType};

fn exec_log(exe: &str, cwd: &str, uid: &str) -> Log {
    let mut e = AuditdExecutionLog::default();
    e.exe = exe.to_string();
    e.cwd = cwd.to_string();
    e.uid = uid.to_string();
    Log {
        ip: "192.168.1.60".to_string(),
        timestamp: 1,
        hostname: "raspberrypi".to_string(),
        service: "auditd:".to_string(),
        content: ServiceLogType::Auditd(AuditdLogType::Execution(e)),
    }
}

fn float_delta(sudo: bool, root_dir: bool, root_user: bool) -> i16 {
    let mut score: f64 = 100.0;
    if sudo {
        score *= 1.5;
    }
    if root_dir {
        score *= 1.1;
    }
    if root_user {
        score *= -1.0;
    }
    score as i16
}

#[test]
fn delta_equals_the_float_computation() {
    for sudo in [false, true] {
        for root_dir in [false, true] {
            for root_user in [false, true] {
                let log = exec_log(
                    if sudo { "sudo" } else { "ls" },
                    if root_dir { "/" } else { "h" },
                    if root_user { "0" } else { "1000" },
                );
                assert_eq!(score_delta(&log), float_delta(sudo, root_dir, root_user));
            }
        }
    }
    assert_eq!(score_delta(&exec_log("sudo", "/", "0")), -165);
}

#[test]
fn unsupported_logs_score_the_base() {
    let log = Log {
        ip: "1.2.3.4".to_string(),
        timestamp: 0,
        hostname: "h".to_string(),
        service: "cron:".to_string(),
        content: ServiceLogType::NotSupported(()),
    };
    assert_eq!(score_delta(&log), 100);
}

#[test]
fn user_id_is_the_head_of_the_digest() {
    let mut hasher = Sha256::new();
    hasher.update("192.168.1.60".as_bytes());
    hasher.update("raspberrypi".as_bytes());
    let digest = hasher.finalize();
    let expected = i64::from_be_bytes(digest[0..8].try_into().unwrap());
    assert_eq!(user_id("192.168.1.60", "raspberrypi"), expected);
    assert_ne!(user_id("192.168.1.61", "raspberrypi"), expected);
    let a = analyze_log(&exec_log("sudo", "/", "0"));
    assert_eq!(a, Analysis { user_id: expected, delta: -165 });
}

#[test]
fn alert_threshold() {
    assert!(!is_alert(100));
    assert!(is_alert(101));
    assert!(!is_alert(-300));
}
