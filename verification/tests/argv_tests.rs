use zhtta::argv::{parse_argv, parse_single_cmd, split_pipeline, CmdAction, Redirect, RedirectKind, SingleCmd};

fn words(ws: &[&str]) -> Vec<Vec<u8>> {
    ws.iter().map(|w| w.as_bytes().to_vec()).collect()
}

#[test]
fn argv_split_at_spaces() {
    assert_eq!(parse_argv(b"ls -l  /tmp"), words(&["ls", "-l", "/tmp"]));
    assert_eq!(parse_argv(b"  ls  "), words(&["ls"]));
    assert_eq!(parse_argv(b""), words(&[]));
    assert_eq!(parse_argv(b"   "), words(&[]));
}

#[test]
fn argv_keeps_quoted_text() {
    assert_eq!(parse_argv(b"echo \"hello world\" x"), words(&["echo", "hello world", "x"]));
    assert_eq!(parse_argv(b"echo \"a b\"c d\"e f\""), words(&["echo", "a b", "c", "d", "e f"]));
}

#[test]
fn argv_empty_quotes_separate_arguments() {
    assert_eq!(parse_argv(b"a\"\"b c"), words(&["a", "b", "c"]));
    assert_eq!(parse_argv(b"\"\""), words(&[]));
}

#[test]
fn argv_line_starting_with_quoted_part() {
    assert_eq!(parse_argv(b"\"a b\" c"), words(&["a b", "c"]));
    assert_eq!(parse_argv(b"\"x y\""), words(&["x y"]));
}

#[test]
fn argv_has_no_empty_or_quoted_arguments() {
    for line in [&b"x \"\" y"[..], b"\"\"\"", b"a\" b \"c", b" \" \" "] {
        for a in parse_argv(line) {
            assert!(!a.is_empty());
            assert!(!a.contains(&b'"'));
        }
    }
}

#[test]
fn pipeline_ignores_unicode_white_space() {
    assert_eq!(split_pipeline("\u{a0}ls\u{3000}| wc\u{2028}"), words(&["ls\u{3000}", " wc"]));
    assert_eq!(split_pipeline("\u{85}\u{200a}"), words(&[]));
}

#[test]
fn pipeline_empty_stages_and_outer_white_space() {
    assert_eq!(split_pipeline("ls -l||wc"), split_pipeline("ls -l|wc"));
    assert_eq!(split_pipeline(" ls | wc \n"), split_pipeline("ls | wc"));
    assert_eq!(split_pipeline("  echo hello  "), words(&["echo hello"]));
}

#[test]
fn pipeline_stages() {
    assert_eq!(split_pipeline("  ls -l | grep x ||wc  "), words(&["ls -l ", " grep x ", "wc"]));
    assert_eq!(split_pipeline("\t\n"), words(&[]));
    assert_eq!(split_pipeline("date\n"), words(&["date"]));
    assert_eq!(split_pipeline("|"), words(&[]));
}

fn redirect(kind: RedirectKind, file: &str) -> Redirect {
    Redirect { kind, file: file.as_bytes().to_vec() }
}

#[test]
fn single_cmd_output_redirect() {
    assert_eq!(
        parse_single_cmd(b"sort > out"),
        SingleCmd {
            redirects: vec![redirect(RedirectKind::Output, "out")],
            action: CmdAction::Run { program: b"sort".to_vec(), args: words(&[]) },
        }
    );
}

#[test]
fn single_cmd_redirect_after_redirect_is_passed_over() {
    assert_eq!(
        parse_single_cmd(b"cat < in > out"),
        SingleCmd {
            redirects: vec![redirect(RedirectKind::Input, "in")],
            action: CmdAction::Run { program: b"cat".to_vec(), args: words(&[">", "out"]) },
        }
    );
}

#[test]
fn single_cmd_redirect_without_file_aborts() {
    assert_eq!(parse_single_cmd(b"ls >"), SingleCmd { redirects: vec![], action: CmdAction::Abort });
    assert_eq!(
        parse_single_cmd(b"wc < a x <"),
        SingleCmd { redirects: vec![redirect(RedirectKind::Input, "a")], action: CmdAction::Abort }
    );
}

#[test]
fn single_cmd_cd() {
    assert_eq!(
        parse_single_cmd(b"cd /tmp"),
        SingleCmd { redirects: vec![], action: CmdAction::ChangeDir(Some(b"/tmp".to_vec())) }
    );
    assert_eq!(parse_single_cmd(b"cd"), SingleCmd { redirects: vec![], action: CmdAction::ChangeDir(None) });
}

#[test]
fn single_cmd_nothing() {
    assert_eq!(parse_single_cmd(b"  "), SingleCmd { redirects: vec![], action: CmdAction::Nothing });
    assert_eq!(
        parse_single_cmd(b"> f"),
        SingleCmd { redirects: vec![redirect(RedirectKind::Output, "f")], action: CmdAction::Nothing }
    );
}

#[test]
fn single_cmd_run_with_quoted_args() {
    assert_eq!(
        parse_single_cmd(b"grep \"a b\" file"),
        SingleCmd {
            redirects: vec![],
            action: CmdAction::Run { program: b"grep".to_vec(), args: words(&["a b", "file"]) },
        }
    );
}

#[test]
fn redirects_take_two_arguments_each() {
    let line = b"prog a > o1 b < i1 c";
    let argv = parse_argv(line);
    let cmd = parse_single_cmd(line);
    match cmd.action {
        CmdAction::Run { args, .. } => assert_eq!(args.len() + 1 + 2 * cmd.redirects.len(), argv.len()),
        _ => panic!("expected a program to run"),
    }
}

#[test]
fn pipeline_stages_are_nonempty_without_bars() {
    for line in ["a||b", " | x |", "ls|wc -l|", "||||", "one"] {
        for stage in split_pipeline(line) {
            assert!(!stage.is_empty());
            assert!(!stage.contains(&b'|'));
        }
    }
}
