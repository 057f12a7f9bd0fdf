use daedalus::{ivl_invocation, vvp_invocation, ConsumerAction, ConsumerEvent, ConsumerState};

#[test]
fn consumer_reports_ready_once() {
    let mut c = ConsumerState::new();
    assert!(matches!(c.step(ConsumerEvent::Nothing), ConsumerAction::SignalReady));
    assert!(matches!(c.step(ConsumerEvent::Nothing), ConsumerAction::Wait));
    assert!(c.ready);
}

#[test]
fn consumer_message_order() {
    let mut c = ConsumerState::new();
    let m = |s: &str| ConsumerEvent::Message(Some(s.as_bytes().to_vec()));
    assert!(matches!(c.step(m("hello")), ConsumerAction::Skip));
    match c.step(m("$var wire 1 ! a $end")) {
        ConsumerAction::Header(t) => assert_eq!(t, "$var wire 1 ! a $end"),
        _ => panic!("expected the header"),
    }
    match c.step(m("#5\n1!")) {
        ConsumerAction::Body(t) => assert_eq!(t, "#5\n1!"),
        _ => panic!("expected a body"),
    }
    assert_eq!(c.msg_count, 3);
    assert!(matches!(c.step(ConsumerEvent::Message(Some(vec![0xff, 0xfe]))), ConsumerAction::NotUtf8));
    assert!(matches!(c.step(ConsumerEvent::Message(None)), ConsumerAction::MissingPayload));
    assert!(matches!(c.step(ConsumerEvent::Message(Some(vec![4]))), ConsumerAction::Finish));
    assert_eq!(c.msg_count, 6);
    assert!(!c.ready);
}

fn ss(v: &[&str]) -> Vec<String> {
    v.iter().map(|s| s.to_string()).collect()
}

#[test]
fn iverilog_command_line() {
    let inv = ivl_invocation(
        &vec![Some("top.v".to_string()), None, Some("lib.v".to_string())],
        &Some("out.vvp".to_string()),
        &ss(&["-g2012  -Wall", ""]),
        &Some("/opt/bin/".to_string()),
        "-13",
    );
    assert_eq!(inv.program, "/opt/bin/iverilog-13");
    assert_eq!(inv.args, ss(&["-g2012", "-Wall", "-o", "out.vvp", "top.v", "lib.v"]));
    let inv = ivl_invocation(&vec![], &None, &vec![], &None, "");
    assert_eq!(inv.program, "iverilog");
    assert_eq!(inv.args, ss(&["-o", "a.vpp"]));
}

#[test]
fn vvp_command_line() {
    let inv = vvp_invocation(
        &Some("bin/".to_string()),
        &Some("a.vvp".to_string()),
        &ss(&["-n  -v"]),
        &ss(&["-stream", "", "x y"]),
    );
    assert_eq!(inv.program, "bin/vvp");
    assert_eq!(inv.args, ss(&["-n", "-v", "a.vvp", "-stream", "x y"]));
    let inv = vvp_invocation(&None, &None, &vec![], &vec![]);
    assert_eq!(inv.program, "vvp");
    assert_eq!(inv.args, ss(&["a.out"]));
}

#[test]
fn tools_directory_without_trailing_separator() {
    let dir = Some("/usr/local/bin".to_string());
    let inv = ivl_invocation(&vec![Some("top.v".to_string())], &None, &vec![], &dir, "");
    assert_eq!(inv.program, "/usr/local/bin/iverilog");
    let inv = ivl_invocation(&vec![], &None, &vec![], &dir, "-12");
    assert_eq!(inv.program, "/usr/local/bin/iverilog-12");
    let inv = vvp_invocation(&dir, &None, &vec![], &vec![]);
    assert_eq!(inv.program, "/usr/local/bin/vvp");
    let inv = vvp_invocation(&Some(String::new()), &None, &vec![], &vec![]);
    assert_eq!(inv.program, "vvp");
}
