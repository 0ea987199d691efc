use rush::completion::{Lookup, Reply, ShellHelper};
use rush::table::StringTable;

fn strs(v: &[&str]) -> Vec<String> {
    v.iter().map(|s| s.to_string()).collect()
}

fn completed(r: Reply) -> (String, String) {
    match r {
        Reply::Complete(c) => (c.display, c.replacement),
        _ => panic!("expected a completion"),
    }
}

fn helper_with(cmd: &str, script: &str) -> ShellHelper {
    let mut t = StringTable::new();
    t.insert(cmd.to_string(), script.to_string());
    ShellHelper::new(t)
}

#[test]
fn lookup_without_space_completes_commands() {
    let h = ShellHelper::new(StringTable::new());
    assert!(matches!(h.lookup("ec"), Lookup::Commands));
    assert!(matches!(h.lookup(""), Lookup::Commands));
}

#[test]
fn lookup_finds_completion_script() {
    let h = helper_with("git", "/usr/bin/gitc");
    match h.lookup("git ch") {
        Lookup::Script { script, command, current_word, previous_word, comp_point } => {
            assert_eq!(script, "/usr/bin/gitc");
            assert_eq!(command, "git");
            assert_eq!(current_word, "ch");
            assert_eq!(previous_word, "git");
            assert_eq!(comp_point, "6");
        }
        _ => panic!("expected a script lookup"),
    }
    match h.lookup("git commit ") {
        Lookup::Script { current_word, previous_word, comp_point, .. } => {
            assert_eq!(current_word, "");
            assert_eq!(previous_word, "commit");
            assert_eq!(comp_point, "11");
        }
        _ => panic!("expected a script lookup"),
    }
}

#[test]
fn lookup_lists_directory_of_file_prefix() {
    let h = ShellHelper::new(StringTable::new());
    match h.lookup("cat src/ma") {
        Lookup::Files { read_path } => assert_eq!(read_path, "src/"),
        _ => panic!("expected a file lookup"),
    }
    match h.lookup("cat ma") {
        Lookup::Files { read_path } => assert_eq!(read_path, "."),
        _ => panic!("expected a file lookup"),
    }
    match h.lookup("cd /") {
        Lookup::Files { read_path } => assert_eq!(read_path, "/"),
        _ => panic!("expected a file lookup"),
    }
}

#[test]
fn matches_are_sorted_distinct_builtins_and_executables() {
    let h = ShellHelper::new(StringTable::new());
    assert_eq!(h.get_matches("e", &strs(&["ed", "echo", "xargs"])), strs(&["echo", "ed", "exit"]));
    assert_eq!(h.get_matches("", &strs(&[])), strs(&["cd", "complete", "declare", "echo", "exit", "history", "jobs", "pwd", "type"]));
    assert_eq!(h.get_matches("zz", &strs(&["zzb", "zza", "zzb"])), strs(&["zza", "zzb"]));
}

#[test]
fn single_command_match_completes_with_space() {
    let mut h = ShellHelper::new(StringTable::new());
    let (d, r) = completed(h.complete_commands("ech", &strs(&[])));
    assert_eq!(d, "echo");
    assert_eq!(r, "echo ");
    assert!(matches!(h.complete_commands("qq", &strs(&[])), Reply::Nothing));
}

#[test]
fn longer_common_prefix_is_completed() {
    let mut h = ShellHelper::new(StringTable::new());
    let (d, r) = completed(h.complete_commands("j", &strs(&["jobsx"])));
    assert_eq!(d, "jobs");
    assert_eq!(r, "jobs");
}

#[test]
fn ambiguous_presses_alternate_bell_and_listing() {
    let mut h = ShellHelper::new(StringTable::new());
    assert!(matches!(h.complete_commands("e", &strs(&[])), Reply::Bell));
    match h.complete_commands("e", &strs(&[])) {
        Reply::Show(t) => assert_eq!(t, "\necho  exit\n$ e"),
        _ => panic!("expected a listing"),
    }
    assert!(matches!(h.complete_commands("e", &strs(&[])), Reply::Bell));
    assert!(matches!(h.complete_commands("c", &strs(&[])), Reply::Bell));
    assert!(matches!(h.complete_commands("e", &strs(&[])), Reply::Bell));
}

#[test]
fn completion_clears_the_press_count() {
    let mut h = ShellHelper::new(StringTable::new());
    assert!(matches!(h.complete_commands("e", &strs(&[])), Reply::Bell));
    let _ = completed(h.complete_commands("ech", &strs(&[])));
    assert!(matches!(h.complete_commands("e", &strs(&[])), Reply::Bell));
}

#[test]
fn script_candidates() {
    let mut h = helper_with("git", "/g");
    let (d, r) = completed(h.complete_from_script("git ch", Some("checkout\ncherry-pick\n".to_string())));
    assert_eq!(d, "che");
    assert_eq!(r, "git che");
    let (d, r) = completed(h.complete_from_script("git ch", Some("checkout\r\n".to_string())));
    assert_eq!(d, "checkout");
    assert_eq!(r, "git checkout ");
    assert!(matches!(h.complete_from_script("git ch", None), Reply::Nothing));
    assert!(matches!(h.complete_from_script("git ch", Some(String::new())), Reply::Nothing));
}

#[test]
fn script_ambiguous_candidates_list_sorted() {
    let mut h = helper_with("git", "/g");
    assert!(matches!(h.complete_from_script("git c", Some("commit\ncheckout\n".to_string())), Reply::Bell));
    match h.complete_from_script("git c", Some("commit\ncheckout\n".to_string())) {
        Reply::Show(t) => assert_eq!(t, "\ncheckout  commit\n$ git c"),
        _ => panic!("expected a listing"),
    }
}

#[test]
fn file_candidates() {
    let mut h = ShellHelper::new(StringTable::new());
    let entries = vec![("src".to_string(), true), ("Cargo.toml".to_string(), false)];
    let (d, r) = completed(h.complete_files("cat sr", &entries));
    assert_eq!(d, "src");
    assert_eq!(r, "cat src/");
    let (d, r) = completed(h.complete_files("cat Ca", &entries));
    assert_eq!(d, "Cargo.toml");
    assert_eq!(r, "cat Cargo.toml ");
    assert!(matches!(h.complete_files("cat zz", &entries), Reply::Nothing));
}

#[test]
fn file_candidates_in_subdirectory() {
    let mut h = ShellHelper::new(StringTable::new());
    let entries = vec![("mod.rs".to_string(), false), ("main.rs".to_string(), false), ("bin".to_string(), true)];
    assert!(matches!(h.complete_files("cat src/m", &entries), Reply::Bell));
    match h.complete_files("cat src/m", &entries) {
        Reply::Show(t) => assert_eq!(t, "\nsrc/main.rs  src/mod.rs\n$ cat src/m"),
        _ => panic!("expected a listing"),
    }
    let (d, r) = completed(h.complete_files("cat src/ma", &entries));
    assert_eq!(d, "src/main.rs");
    assert_eq!(r, "cat src/main.rs ");
    match h.complete_files("ls src/", &entries) {
        Reply::Bell => {}
        _ => panic!("expected the bell"),
    }
    match h.complete_files("ls src/", &entries) {
        Reply::Show(t) => assert_eq!(t, "\nsrc/bin/  src/main.rs  src/mod.rs\n$ ls src/"),
        _ => panic!("expected a listing"),
    }
}

#[test]
fn file_common_prefix_completes() {
    let mut h = ShellHelper::new(StringTable::new());
    let entries = vec![("readme.md".to_string(), false), ("readme.txt".to_string(), false)];
    let (d, r) = completed(h.complete_files("cat r", &entries));
    assert_eq!(d, "readme.");
    assert_eq!(r, "cat readme.");
}

#[test]
fn cut_inside_a_character_is_reported() {
    let mut h = ShellHelper::new(StringTable::new());
    let entries = vec![("éa".to_string(), false), ("éb".to_string(), false)];
    assert!(matches!(h.complete_files("cat ", &entries), Reply::CutInsideChar));
}

#[test]
fn complete_builtin_through_helper() {
    let mut h = ShellHelper::new(StringTable::new());
    assert_eq!(h.complete_builtin(&strs(&["-C", "/g", "git"])), None);
    assert!(matches!(h.lookup("git x"), Lookup::Script { .. }));
    assert_eq!(h.complete_builtin(&strs(&["-p", "git"])), Some("complete -C '/g' git".to_string()));
    assert_eq!(h.complete_builtin(&strs(&["-r", "git"])), None);
    assert!(matches!(h.lookup("git x"), Lookup::Files { .. }));
}
