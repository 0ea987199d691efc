use rush::commands::{
    builtin_of, pipeline_stages, cd_missing, cd_target, command_not_found, complete_builtin, echo_output,
    is_builtin, job_command_text, job_line, job_started, path_candidates, path_dirs, plan_line,
    type_report, Builtin, LinePlan,
};
use rush::table::StringTable;

fn strs(v: &[&str]) -> Vec<String> {
    v.iter().map(|s| s.to_string()).collect()
}

#[test]
fn blank_and_empty_lines_run_nothing() {
    assert!(matches!(plan_line("   \t "), LinePlan::Nothing));
    assert!(matches!(plan_line("&"), LinePlan::Nothing));
    assert!(matches!(plan_line("> out"), LinePlan::Nothing));
    assert!(matches!(plan_line("''"), LinePlan::Nothing));
}

#[test]
fn trailing_operator_is_stuck() {
    assert!(matches!(plan_line("echo hi >"), LinePlan::Stuck));
    assert!(matches!(plan_line("echo 2>>"), LinePlan::Stuck));
}

#[test]
fn plan_reads_command_arguments_and_redirections() {
    match plan_line("  echo 'a  b' c > out.txt 2>> err.log  ") {
        LinePlan::Run(c) => {
            assert_eq!(c.command, "echo");
            assert_eq!(c.args, strs(&["a  b", "c"]));
            assert!(!c.background);
            assert_eq!(c.stdout, Some(("out.txt".to_string(), false)));
            assert_eq!(c.stderr, Some(("err.log".to_string(), true)));
        }
        _ => panic!("expected a command"),
    }
}

#[test]
fn trailing_ampersand_runs_in_background() {
    match plan_line("sleep 5 &") {
        LinePlan::Run(c) => {
            assert_eq!(c.command, "sleep");
            assert_eq!(c.args, strs(&["5"]));
            assert!(c.background);
        }
        _ => panic!("expected a command"),
    }
    match plan_line("echo '&'") {
        LinePlan::Run(c) => assert!(c.background),
        _ => panic!("expected a command"),
    }
}

#[test]
fn builtins_are_recognised() {
    assert!(matches!(builtin_of("exit"), Some(Builtin::Exit)));
    assert!(matches!(builtin_of("echo"), Some(Builtin::Echo)));
    assert!(matches!(builtin_of("type"), Some(Builtin::Type)));
    assert!(matches!(builtin_of("pwd"), Some(Builtin::Pwd)));
    assert!(matches!(builtin_of("cd"), Some(Builtin::Cd)));
    assert!(matches!(builtin_of("jobs"), Some(Builtin::Jobs)));
    assert!(matches!(builtin_of("complete"), Some(Builtin::Complete)));
    assert!(matches!(builtin_of("declare"), Some(Builtin::Declare)));
    assert!(matches!(builtin_of("history"), Some(Builtin::History)));
    assert!(builtin_of("ls").is_none());
    assert!(builtin_of("Echo").is_none());
    assert!(is_builtin("cd"));
    assert!(!is_builtin("cat"));
}

#[test]
fn echo_joins_with_single_spaces() {
    assert_eq!(echo_output(&strs(&["a", "b  c", "d"])), "a b  c d");
    assert_eq!(echo_output(&strs(&[])), "");
}

#[test]
fn type_reports() {
    assert_eq!(type_report("echo", None), "echo is a shell builtin");
    assert_eq!(type_report("ls", Some("/bin/ls".to_string())), "ls is /bin/ls");
    assert_eq!(type_report("nope", None), "nope: not found");
}

#[test]
fn not_found_and_cd_messages() {
    assert_eq!(command_not_found("frob"), "frob: command not found");
    assert_eq!(cd_missing("/no/where"), "cd: /no/where: No such file or directory");
}

#[test]
fn cd_tilde_goes_home() {
    assert_eq!(cd_target("~", Some("/home/u".to_string())), "/home/u");
    assert_eq!(cd_target("~", None), "");
    assert_eq!(cd_target("/tmp", Some("/home/u".to_string())), "/tmp");
    assert_eq!(cd_target("~/x", Some("/home/u".to_string())), "~/x");
}

#[test]
fn job_texts() {
    assert_eq!(job_started(1, 1234), "[1] 1234");
    assert_eq!(job_started(12, 0), "[12] 0");
    assert_eq!(job_command_text("sleep", &strs(&["5"])), "sleep 5");
    assert_eq!(job_command_text("ls", &strs(&[])), "ls");
    assert_eq!(job_line(2, 1, 2, false, "sleep 5"), "[2]+  Running                 sleep 5 &");
    assert_eq!(job_line(1, 0, 2, true, "ls"), "[1]-  Done                    ls");
    assert_eq!(job_line(1, 0, 3, false, "x"), "[1]   Running                 x &");
    assert_eq!(
        job_line(3, 0, 1, true, "x"),
        format!("[3]+  {:<24}{}", "Done", "x")
    );
}

#[test]
fn path_splitting() {
    assert_eq!(path_dirs("/bin:/usr/bin"), strs(&["/bin", "/usr/bin"]));
    assert_eq!(path_dirs(""), strs(&[""]));
    assert_eq!(path_dirs("a::b:"), strs(&["a", "", "b", ""]));
    assert_eq!(path_candidates("/bin:/usr/bin", "ls"), strs(&["/bin/ls", "/usr/bin/ls"]));
}

#[test]
fn complete_builtin_register_print_remove() {
    let mut t = StringTable::new();
    assert_eq!(
        complete_builtin(&mut t, &strs(&["-p", "git"])),
        Some("complete: git: no completion specification".to_string())
    );
    assert_eq!(complete_builtin(&mut t, &strs(&["-C", "/usr/bin/gitc", "git"])), None);
    assert_eq!(
        complete_builtin(&mut t, &strs(&["-p", "git"])),
        Some("complete -C '/usr/bin/gitc' git".to_string())
    );
    assert_eq!(t.get("git"), Some("/usr/bin/gitc".to_string()));
    assert_eq!(complete_builtin(&mut t, &strs(&["-C", "/other", "git"])), None);
    assert_eq!(t.get("git"), Some("/other".to_string()));
    assert_eq!(complete_builtin(&mut t, &strs(&["-r", "git"])), None);
    assert_eq!(
        complete_builtin(&mut t, &strs(&["-p", "git"])),
        Some("complete: git: no completion specification".to_string())
    );
    assert_eq!(complete_builtin(&mut t, &strs(&["-p"])), None);
    assert_eq!(complete_builtin(&mut t, &strs(&["-C", "only"])), None);
    assert_eq!(t.get("only"), None);
    assert_eq!(complete_builtin(&mut t, &strs(&["-x", "a"])), None);
    assert_eq!(complete_builtin(&mut t, &strs(&[])), None);
}

#[test]
fn table_keeps_other_commands() {
    let mut t = StringTable::new();
    t.insert("a".to_string(), "sa".to_string());
    t.insert("b".to_string(), "sb".to_string());
    t.remove("a");
    assert_eq!(t.get("a"), None);
    assert_eq!(t.get("b"), Some("sb".to_string()));
    t.remove("zzz");
    assert_eq!(t.get("b"), Some("sb".to_string()));
}

#[test]
fn pipeline_stages_split_at_unquoted_bars() {
    assert_eq!(pipeline_stages("ls | wc -l"), strs(&["ls ", " wc -l"]));
    assert_eq!(pipeline_stages("echo 'a|b' \"c|d\" e\\|f"), strs(&["echo 'a|b' \"c|d\" e\\|f"]));
    assert_eq!(pipeline_stages("a|b|c"), strs(&["a", "b", "c"]));
    assert_eq!(pipeline_stages("echo hi"), strs(&["echo hi"]));
    assert_eq!(pipeline_stages(""), strs(&[""]));
}

#[test]
fn type_knows_new_builtins() {
    assert_eq!(type_report("history", None), "history is a shell builtin");
    assert_eq!(type_report("declare", None), "declare is a shell builtin");
}
