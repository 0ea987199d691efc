use rush::history::{History, HistoryAction};
use rush::jobs::{first_accepted, JobTable};
use rush::lexer::parse_args;
use rush::params::{declare_builtin, expand_variables};
use rush::table::StringTable;

fn strs(v: &[&str]) -> Vec<String> {
    v.iter().map(|s| s.to_string()).collect()
}

fn vars_with(pairs: &[(&str, &str)]) -> StringTable {
    let mut t = StringTable::new();
    for (k, v) in pairs {
        t.insert(k.to_string(), v.to_string());
    }
    t
}

#[test]
fn variables_expand_outside_single_quotes() {
    let v = vars_with(&[("NAME", "world"), ("X", "a b")]);
    assert_eq!(parse_args(&expand_variables("echo hello $NAME", &v)), strs(&["echo", "hello", "world"]));
    assert_eq!(parse_args(&expand_variables("echo ${NAME}s", &v)), strs(&["echo", "worlds"]));
    assert_eq!(parse_args(&expand_variables("echo '$NAME'", &v)), strs(&["echo", "$NAME"]));
    assert_eq!(parse_args(&expand_variables("echo \"[$NAME]\"", &v)), strs(&["echo", "[world]"]));
    assert_eq!(parse_args(&expand_variables("echo \\$NAME", &v)), strs(&["echo", "$NAME"]));
}

#[test]
fn unquoted_values_split_at_blanks_quoted_ones_do_not() {
    let v = vars_with(&[("X", "a b")]);
    assert_eq!(parse_args(&expand_variables("echo $X", &v)), strs(&["echo", "a", "b"]));
    assert_eq!(parse_args(&expand_variables("echo \"$X\"", &v)), strs(&["echo", "a b"]));
}

#[test]
fn values_are_taken_literally() {
    let v = vars_with(&[("Q", "it's \"x\" \\ $HOME")]);
    assert_eq!(
        parse_args(&expand_variables("echo \"$Q\"", &v)),
        strs(&["echo", "it's \"x\" \\ $HOME"])
    );
    assert_eq!(
        parse_args(&expand_variables("echo $Q", &v)),
        strs(&["echo", "it's", "\"x\"", "\\", "$HOME"])
    );
}

#[test]
fn unset_variables_are_empty() {
    let v = vars_with(&[]);
    assert_eq!(parse_args(&expand_variables("echo $NOPE end", &v)), strs(&["echo", "end"]));
    assert_eq!(expand_variables("echo ${NOPE}", &v), "echo ");
}

#[test]
fn dollar_without_name_stays() {
    let v = vars_with(&[("A", "1")]);
    assert_eq!(expand_variables("cost $5 and $ and ${", &v), "cost $5 and $ and ${");
    assert_eq!(expand_variables("x ${A", &v), "x ${A");
    assert_eq!(expand_variables("no dollars here", &v), "no dollars here");
}

#[test]
fn declare_sets_and_prints() {
    let mut v = StringTable::new();
    assert_eq!(declare_builtin(&mut v, &strs(&["GREETING=hello world", "N=1"])), strs(&[]));
    assert_eq!(v.get("GREETING"), Some("hello world".to_string()));
    assert_eq!(v.get("N"), Some("1".to_string()));
    assert_eq!(
        declare_builtin(&mut v, &strs(&["-p", "GREETING", "MISSING"])),
        strs(&["declare -- GREETING=\"hello world\"", "declare: MISSING: not found"])
    );
    assert_eq!(
        declare_builtin(&mut v, &strs(&["1X=2", "=y"])),
        strs(&["declare: `1X=2': not a valid identifier", "declare: `=y': not a valid identifier"])
    );
    assert_eq!(declare_builtin(&mut v, &strs(&["E="])), strs(&[]));
    assert_eq!(v.get("E"), Some(String::new()));
    assert_eq!(declare_builtin(&mut v, &strs(&["A=b=c"])), strs(&[]));
    assert_eq!(v.get("A"), Some("b=c".to_string()));
    assert_eq!(parse_args(&expand_variables("echo $GREETING", &v)), strs(&["echo", "hello", "world"]));
}

fn printed(a: HistoryAction) -> Vec<String> {
    match a {
        HistoryAction::Print(lines) => lines,
        _ => panic!("expected lines to print"),
    }
}

#[test]
fn history_lists_entries() {
    let mut h = History::new();
    h.record("echo hello");
    h.record("   ");
    h.record("ls");
    h.record("history");
    assert_eq!(printed(h.run(&strs(&[]))), strs(&["    1  echo hello", "    2  ls", "    3  history"]));
    assert_eq!(printed(h.run(&strs(&["2"]))), strs(&["    2  ls", "    3  history"]));
    assert_eq!(printed(h.run(&strs(&["99"]))).len(), 3);
    assert_eq!(printed(h.run(&strs(&["0"]))).len(), 0);
    assert_eq!(printed(h.run(&strs(&["x"]))), strs(&["history: x: numeric argument required"]));
}

#[test]
fn history_files() {
    let mut h = History::new();
    h.add_text("a\n\nb\r\n  \nc");
    h.mark_saved();
    h.record("d");
    assert_eq!(h.text(), "a\nb\nc\nd\n");
    match h.run(&strs(&["-a", "f"])) {
        HistoryAction::Append(p, t) => {
            assert_eq!(p, "f");
            assert_eq!(t, "d\n");
        }
        _ => panic!("expected an append"),
    }
    match h.run(&strs(&["-a", "f"])) {
        HistoryAction::Append(_, t) => assert_eq!(t, ""),
        _ => panic!("expected an append"),
    }
    match h.run(&strs(&["-w", "g"])) {
        HistoryAction::Write(p, t) => {
            assert_eq!(p, "g");
            assert_eq!(t, "a\nb\nc\nd\n");
        }
        _ => panic!("expected a write"),
    }
    match h.run(&strs(&["-r", "h"])) {
        HistoryAction::Read(p) => assert_eq!(p, "h"),
        _ => panic!("expected a read"),
    }
    assert!(matches!(h.run(&strs(&["-w"])), HistoryAction::Nothing));
}

#[test]
fn jobs_are_numbered_and_reaped() {
    let mut t = JobTable::new();
    assert!(t.can_start());
    assert_eq!(t.start("sleep 5".to_string()), 1);
    assert_eq!(t.start("sleep 6".to_string()), 2);
    assert_eq!(t.start("sleep 7".to_string()), 3);
    assert_eq!(
        t.report(&[false, true, false]),
        strs(&[
            "[1]   Running                 sleep 5 &",
            "[2]-  Done                    sleep 6",
            "[3]+  Running                 sleep 7 &",
        ])
    );
    assert_eq!(t.len(), 2);
    assert_eq!(
        t.report(&[true, false]),
        strs(&["[1]-  Done                    sleep 5", "[3]+  Running                 sleep 7 &"])
    );
    assert_eq!(t.start("ls".to_string()), 4);
    assert_eq!(t.len(), 2);
}

#[test]
fn first_accepted_candidate() {
    assert_eq!(first_accepted(&[false, true, true]), Some(1));
    assert_eq!(first_accepted(&[false, false]), None);
    assert_eq!(first_accepted(&[]), None);
}
