use watchbind::exec::{dispatch, output_result, shell_args, split_lines, unblock_event, Event, RequestedAction};
use watchbind::operations::Command;

#[test]
fn blocking_command_blocks_and_reports() {
    let cmd = Command { command: "false".to_string(), blocking: true };
    let d = dispatch(&cmd);
    assert_eq!(d.action, RequestedAction::Block);
    assert!(d.notify_on_exit);
}

#[test]
fn non_blocking_command_continues_silently() {
    let cmd = Command { command: "false".to_string(), blocking: false };
    let d = dispatch(&cmd);
    assert_eq!(d.action, RequestedAction::Continue);
    assert!(!d.notify_on_exit);
}

#[test]
fn unblock_events() {
    assert!(matches!(unblock_event(true, "ignored".to_string()), Event::Unblock(Ok(()))));
    match unblock_event(false, "boom\n".to_string()) {
        Event::Unblock(Err(e)) => assert_eq!(e, "boom\n"),
        other => panic!("unexpected {:?}", other),
    }
}

#[test]
fn shell_invocation() {
    assert_eq!(shell_args("echo hi"), vec!["sh".to_string(), "-c".to_string(), "echo hi".to_string()]);
}

#[test]
fn output_split_into_lines() {
    assert_eq!(split_lines("a\r\nb\n"), vec!["a".to_string(), "b".to_string()]);
    assert_eq!(split_lines(""), Vec::<String>::new());
    assert_eq!(split_lines("\n"), vec![String::new()]);
    assert_eq!(split_lines("x\n\ny"), vec!["x".to_string(), String::new(), "y".to_string()]);
    assert_eq!(split_lines("one"), vec!["one".to_string()]);
    assert_eq!(split_lines("a\r"), vec!["a\r".to_string()]);
    assert_eq!(split_lines("a\r\nb\r"), vec!["a".to_string(), "b\r".to_string()]);
}

#[test]
fn output_result_by_status() {
    assert_eq!(output_result(true, "a\nb", "err".to_string()), Ok(vec!["a".to_string(), "b".to_string()]));
    assert_eq!(output_result(false, "a\nb", "err".to_string()), Err("err".to_string()));
}
