use soc_pipeline::groups::EventGroups;
use soc_pipeline::parser::{parse, parse_with_id, try_parse, parse_check, organize, try_organize};
use soc_pipeline::auditd::{try_auditd_log_organize, auditd_log_organize, execve_summary};
use soc_pipeline::types::{AuditdExecutionLog, AuditdLogType, ServiceLogType};
use soc_pipeline::text::split_whitespace;
use soc_pipeline::server::{frame_lines, stamp_line};

const HEAD: &str = "192.168.1.60 1777474222 <174>Apr 29 16:50:22 raspberrypi auditd:";

fn line(record: &str) -> String {
    format!("{} {}", HEAD, record)
}

fn event_lines() -> Vec<String> {
    vec![
        line("type=SYSCALL msg=audit(1777474222.322:1408665): arch=c00000b7 syscall=221 success=yes exit=0 a0=400046fd10 items=2 ppid=1530 pid=15232 auid=4294967295 uid=0 gid=0 euid=0 comm=\"sudo\" exe=\"/usr/bin/sudo\" key=\"user-commands\""),
        line("type=EXECVE msg=audit(1777474222.322:1408665): argc=3 a0=\"sudo\" a1=\"ls\" a2=\"-la\""),
        line("type=CWD msg=audit(1777474222.322:1408665): cwd=\"/root\""),
        line("type=PATH msg=audit(1777474222.322:1408665): item=0 name=\"/usr/bin/sudo\" inode=4242 dev=b3:02 mode=0104755 ouid=0 ogid=0 rdev=00:00 nametype=NORMAL cap_fp=0 cap_fi=0 cap_fe=0 cap_fver=0 cap_frootid=0 OUID=\"root\" OGID=\"root\""),
        line("type=PATH msg=audit(1777474222.322:1408665): item=1 name=\"/lib/ld-linux-aarch64.so.1\" inode=99"),
        line("type=PROCTITLE msg=audit(1777474222.322:1408665): proctitle=7375646F006C73002D6C61"),
    ]
}

fn event_tokens() -> Vec<String> {
    let mut groups = EventGroups::new();
    for l in event_lines() {
        assert!(parse_with_id(&l, &mut groups, 5, 0).is_some());
    }
    assert_eq!(groups.len(), 1);
    groups.get("1408665").unwrap().0
}

#[test]
fn test_parse_auditd_log_inserted_in_map() {
    let mut map = EventGroups::new();
    let log = "192.168.1.60 1777474222 <174>Apr 29 16:50:22 raspberrypi auditd: type=SYSCALL msg=audit(1777474222.322:1408665): arch=c00000b7 syscall=221 success=yes exit=0 a0=400046fd10 a1=400020fc80 a2=4000302460 a3=0 items=2 ppid=1530 pid=15232 auid=4294967295 uid=0 gid=0 euid=0 suid=0 fsuid=0 egid=0 sgid=0 fsgid=0 tty=(none) ses=4294967295 comm=\"runc\" exe=\"/usr/bin/runc\" key=\"user-commands\"\u{1d}ARCH=aarch64 SYSCALL=execve AUID=\"unset\" UID=\"root\" GID=\"root\" EUID=\"root\" SUID=\"root\" FSUID=\"root\" EGID=\"root\" SGID=\"root\" FSGID=\"root\"".to_string();

    let gathered = parse(&log, &mut map, 0);

    assert_eq!(gathered, map.get("1408665").unwrap().0);
    assert!(map.get("1408665").is_some());
    assert_eq!(map.get("1408665").unwrap().0[0], "192.168.1.60");
}

#[test]
fn test_parse_non_auditd_log_inserted_in_map() {
    let mut map = EventGroups::new();
    let log = "192.168.1.60 1777474221 <30>Apr 29 16:50:21 raspberrypi systemd[1]: Started rsyslog.service - System Logging Service.".to_string();

    let gathered = parse(&log, &mut map, 0);

    assert_eq!(gathered, log.split_whitespace().map(|t| t.to_string()).collect::<Vec<_>>());
    assert_eq!(map.len(), 1);
    let entry = map.group_at(0);
    assert_eq!(entry.lines[0], "192.168.1.60");
    assert_eq!(entry.lines[1], "1777474221");
    assert_eq!(entry.lines[5], "raspberrypi");
    assert_eq!(entry.lines[6], "systemd[1]:");
    assert!(!entry.id.is_empty());
    assert!(entry.id.parse::<u128>().is_ok());
}

#[test]
fn non_auditd_lines_are_keyed_by_the_number_given() {
    let mut map = EventGroups::new();
    let log = "10.0.0.1 5 <30>Apr 29 16:50:21 host cron[2]: job";
    assert!(parse_with_id(log, &mut map, 7, 340282366920938463463374607431768211455).is_some());
    assert_eq!(map.get("340282366920938463463374607431768211455").unwrap().1, 7);
}

#[test]
fn lines_of_one_event_are_gathered_in_order() {
    let tokens = event_tokens();
    let mut expected: Vec<String> = Vec::new();
    for l in event_lines() {
        expected.extend(l.split_whitespace().map(|t| t.to_string()));
    }
    assert_eq!(tokens, expected);
}

#[test]
fn lines_the_pipeline_cannot_key_are_refused() {
    let mut map = EventGroups::new();
    assert!(try_parse("too few tokens here", &mut map, 0).is_none());
    assert!(!parse_check("a b c d e f auditd: type=SYSCALL no-event-id"));
    assert!(try_parse("a b c d e f auditd: type=SYSCALL no-event-id", &mut map, 0).is_none());
    assert!(map.is_empty());
    assert_eq!(try_parse("a b c d e f auditd: msg=audit(1.2:77)", &mut map, 0).unwrap().len(), 8);
    assert_eq!(map.get("77").unwrap().0.len(), 8);
}

#[test]
fn organize_builds_the_execution_event() {
    let tokens = event_tokens();
    let log = organize(&tokens);
    assert_eq!(log.ip, "192.168.1.60");
    assert_eq!(log.timestamp, 1777474222);
    assert_eq!(log.hostname, "raspberrypi");
    assert_eq!(log.service, "auditd:");
    let expected = AuditdExecutionLog {
        cwd: "/".to_string(),
        exe: "sudo".to_string(),
        binary: "/usr/bin/sudo".to_string(),
        loader: "/lib/ld-linux-aarch64.so.1".to_string(),
        owner: "root".to_string(),
        permissions: "0104755".to_string(),
        command: "sudo ls -la".to_string(),
        args: Some(vec!["sudo".to_string(), "ls".to_string(), "-la".to_string()]),
        success: true,
        proctitle: "7375646F006C73002D6C61".to_string(),
        uid: "0".to_string(),
    };
    assert_eq!(log.content, ServiceLogType::Auditd(AuditdLogType::Execution(expected)));
}

#[test]
fn auditd_event_without_execve_is_not_supported() {
    let l = line("type=LOGIN msg=audit(1777474222.322:12): pid=1 uid=0");
    let tokens = split_whitespace(&l);
    assert_eq!(try_auditd_log_organize(&tokens), Some(None));
    assert_eq!(auditd_log_organize(&tokens), None);
    assert_eq!(organize(&tokens).content, ServiceLogType::NotSupported(()));
}

#[test]
fn other_services_are_not_supported() {
    let tokens = split_whitespace("10.0.0.1 -17 <30>Apr 29 16:50:21 host cron[2]: job");
    let log = try_organize(&tokens).unwrap();
    assert_eq!(log.timestamp, -17);
    assert_eq!(log.service, "cron[2]:");
    assert_eq!(log.content, ServiceLogType::NotSupported(()));
}

#[test]
fn events_the_pipeline_panics_on_are_refused() {
    // too few tokens
    assert!(try_organize(&split_whitespace("1 2 3")).is_none());
    // timestamp out of i32
    assert!(try_organize(&split_whitespace("1 4294967296 a b c host svc")).is_none());
    // EXECVE without argument
    let t = split_whitespace(&line("type=EXECVE msg=audit(1.2:3): argc=0"));
    assert_eq!(try_auditd_log_organize(&t), None);
    assert!(try_organize(&t).is_none());
    // EXECVE announcing more arguments than there are
    let t = split_whitespace(&line("type=EXECVE msg=audit(1.2:3): argc=2 a0=\"ls\""));
    assert_eq!(try_auditd_log_organize(&t), None);
    // SYSCALL in an execution event without any uid= token
    let t = split_whitespace(&line("type=EXECVE msg=audit(1.2:3): argc=1 a0=\"ls\" auditd: type=SYSCALL x y"));
    assert_eq!(try_auditd_log_organize(&t), None);
    // a record type as the last token
    let t = split_whitespace(&line("type=EXECVE msg=audit(1.2:3): argc=1 a0=\"ls\" auditd:"));
    assert_eq!(try_auditd_log_organize(&t), None);
}

#[test]
fn execve_arguments_are_read_through_the_pattern() {
    let t = split_whitespace(&line("type=EXECVE msg=audit(1.2:3): argc=2 a0=\"/bin/echo\" a1=hello\0world uid=1000"));
    match try_auditd_log_organize(&t) {
        Some(Some(AuditdLogType::Execution(e))) => {
            assert_eq!(e.args, Some(vec!["/bin/echo".to_string(), "hello".to_string()]));
            assert_eq!(e.exe, "echo");
            assert_eq!(e.command, "/bin/echo hello");
            assert!(!e.success);
            assert_eq!(e.uid, "");
        },
        other => panic!("unexpected {:?}", other),
    }
}

#[test]
fn execve_summary_joins_and_names() {
    let args = vec!["/usr/bin/sudo".to_string(), "ls".to_string()];
    let (exe, command) = execve_summary(&args);
    assert_eq!(exe, "sudo");
    assert_eq!(command, "/usr/bin/sudo ls");
    let (exe, command) = execve_summary(&vec!["".to_string()]);
    assert_eq!(exe, "");
    assert_eq!(command, "");
}

#[test]
fn stamped_lines_flow_into_one_log() {
    let received = "<174>Apr 29 16:50:22 raspberrypi auditd: type=SYSCALL msg=audit(1777474222.322:7): uid=1000 success=yes\n<174>Apr 29 16:50:22 raspberrypi auditd: type=EXECVE msg=audit(1777474222.322:7): argc=1 a0=\"/bin/true\"\n<30>Apr 29 16:50:23 raspberrypi cron[1]: tick\n";
    let (lines, rest) = frame_lines(received);
    assert_eq!(rest, "");
    let mut groups = EventGroups::new();
    for (k, raw) in lines.iter().enumerate() {
        let stamped = stamp_line("10.1.2.3", 1777474230, raw);
        assert!(parse_with_id(&stamped, &mut groups, k as u64, 99).is_some());
    }
    assert_eq!(groups.len(), 2);
    assert!(groups.take_stale(1_999_999_999).is_empty());
    let complete = groups.take_stale(2_000_000_002);
    assert_eq!(complete.len(), 2);
    assert!(groups.is_empty());
    let event = try_organize(&complete[0].lines).unwrap();
    assert_eq!(event.ip, "10.1.2.3");
    assert_eq!(event.timestamp, 1777474230);
    match event.content {
        ServiceLogType::Auditd(AuditdLogType::Execution(e)) => {
            assert_eq!(e.exe, "true");
            assert_eq!(e.uid, "1000");
            assert!(e.success);
        },
        other => panic!("unexpected {:?}", other),
    }
    let cron = try_organize(&complete[1].lines).unwrap();
    assert_eq!(complete[1].id, "99");
    assert_eq!(cron.service, "cron[1]:");
    assert_eq!(cron.content, ServiceLogType::NotSupported(()));
}

#[test]
fn parse_returns_all_lines_of_the_event() {
    let mut map = EventGroups::new();
    let first = "1 2 a b c host auditd: type=SYSCALL msg=audit(9.1:5): uid=0";
    let second = "1 2 a b c host auditd: type=CWD msg=audit(9.1:5): cwd=\"/\"";
    let one = parse_with_id(first, &mut map, 0, 0).unwrap();
    assert_eq!(one, first.split_whitespace().map(|t| t.to_string()).collect::<Vec<_>>());
    let both = parse(second, &mut map, 1);
    let mut expected = one.clone();
    expected.extend(second.split_whitespace().map(|t| t.to_string()));
    assert_eq!(both, expected);
    assert_eq!(map.get("5").unwrap(), (expected, 1));
}

#[test]
fn execution_without_execve_record_keeps_null_arguments() {
    let t = split_whitespace(&line("type=SYSCALL msg=audit(1.2:3): uid=5 note=xtype=EXECVEx"));
    match try_auditd_log_organize(&t) {
        Some(Some(AuditdLogType::Execution(e))) => {
            assert_eq!(e.args, None);
            assert_eq!(e.exe, "");
            assert_eq!(e.command, "");
            assert_eq!(e.uid, "5");
            assert!(e.success);
        },
        other => panic!("unexpected {:?}", other),
    }
    assert_eq!(AuditdExecutionLog::default().args, None);
}

#[test]
fn arguments_are_stored_as_json() {
    let mut e = AuditdExecutionLog::default();
    assert_eq!(e.args_json(), "null");
    assert_eq!(e.args_json(), serde_json::to_string(&serde_json::Value::Null).unwrap());
    let list = vec!["echo".to_string(), "a \"quoted\" \\ word".to_string(), "tab\there".to_string()];
    e.args = Some(list.clone());
    let expected = serde_json::to_string(&serde_json::Value::from(list)).unwrap();
    assert_eq!(e.args_json(), expected);
    assert_eq!(e.args_json(), "[\"echo\",\"a \\\"quoted\\\" \\\\ word\",\"tab\\there\"]");
    e.args = Some(Vec::new());
    assert_eq!(e.args_json(), "[]");
}
