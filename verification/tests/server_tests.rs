use soc_pipeline::server::{frame_lines, stamp_line};

#[test]
fn test_single_line() {
    let buffer = "<174>Apr 29 16:50:22 raspberrypi auditd: type=SYSCALL msg=audit(1777474222.322:1408665):\n";
    let (lines, rest) = frame_lines(buffer);
    assert_eq!(lines.len(), 1);
    assert_eq!(rest, "");
    let unix_time: i64 = 1777474230;
    let msg = stamp_line("127.0.0.1", unix_time, &lines[0]);
    assert_eq!(
        msg,
        format!(
            "127.0.0.1 {} <174>Apr 29 16:50:22 raspberrypi auditd: type=SYSCALL msg=audit(1777474222.322:1408665):",
            unix_time
        )
    );
}

#[test]
fn test_multiple_lines() {
    let buffer = "<174>Apr 29 16:50:22 raspberrypi auditd: type=SYSCALL msg=audit(1777474222.322:1408665):\n<174>Apr 29 16:50:22 raspberrypi auditd: type=CWD msg=audit(1777474222.322:1408665):";
    let (lines, rest) = frame_lines(buffer);
    assert_eq!(lines.len(), 1);
    let unix_time: i64 = 1777474230;
    let msg = stamp_line("127.0.0.1", unix_time, &lines[0]);
    assert_eq!(
        msg,
        format!(
            "127.0.0.1 {} <174>Apr 29 16:50:22 raspberrypi auditd: type=SYSCALL msg=audit(1777474222.322:1408665):",
            unix_time
        )
    );
    assert_eq!(rest, "<174>Apr 29 16:50:22 raspberrypi auditd: type=CWD msg=audit(1777474222.322:1408665):");
}

#[test]
fn framing_keeps_every_character() {
    for buffer in ["", "\n", "a\n\nb", "x\ny\nz\n", "no newline"] {
        let (lines, rest) = frame_lines(buffer);
        let mut joined = lines.join("\n");
        if !lines.is_empty() {
            joined.push('\n');
        }
        joined.push_str(&rest);
        assert_eq!(joined, buffer);
        assert_eq!(lines.len(), buffer.matches('\n').count());
        assert!(!rest.contains('\n'));
    }
}

#[test]
fn stamp_of_negative_time() {
    assert_eq!(stamp_line("::1", -5, "x y"), "::1 -5 x y");
}

#[test]
fn framing_does_not_depend_on_read_boundaries() {
    let stream = "first line\nsecond li";
    let chunk = "ne\nthird\npartial";
    let (mut lines, rest) = frame_lines(stream);
    let (more, rest2) = frame_lines(&format!("{}{}", rest, chunk));
    lines.extend(more);
    let (whole, whole_rest) = frame_lines(&format!("{}{}", stream, chunk));
    assert_eq!(lines, whole);
    assert_eq!(rest2, whole_rest);
    assert_eq!(whole, vec!["first line", "second line", "third"]);
    assert_eq!(whole_rest, "partial");
}

#[test]
fn framing_read_by_read_matches_any_split() {
    let stream = "a b\ncd\n\nlong line here\ntail";
    let whole = frame_lines(stream);
    for cut1 in 0..=stream.len() {
        for cut2 in cut1..=stream.len() {
            let mut leftover = String::new();
            let mut lines = soc_pipeline::server::frame_chunk(&mut leftover, &stream[..cut1]);
            lines.extend(soc_pipeline::server::frame_chunk(&mut leftover, &stream[cut1..cut2]));
            lines.extend(soc_pipeline::server::frame_chunk(&mut leftover, &stream[cut2..]));
            assert_eq!(lines, whole.0);
            assert_eq!(leftover, whole.1);
        }
    }
}
