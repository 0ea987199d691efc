//! What the shell does with a line once it is read: which command runs, with which
//! words and redirections, and the text that the builtins print.
use vstd::prelude::*;
use vstd::string::StringExecFns;
use crate::text::{
    chars_equal, chars_of, decimal, decimal_string, join_strings, join_with, str_is, string_of,
    trim, trim_chars,
};
use crate::lexer::{parse_args, spec_parse_args};
use crate::redirect::{extract_redirect, is_redirect_op, redirects_complete, split_redirects, target_view};
use crate::table::StringTable;

verus! {

/// The names the shell runs itself, in the order the completer offers them.
pub open spec fn builtin_names() -> Seq<Seq<char>> {
    seq![
        "echo"@,
        "exit"@,
        "type"@,
        "pwd"@,
        "cd"@,
        "complete"@,
        "jobs"@,
        "declare"@,
        "history"@,
    ]
}

/// The builtin names as strings, in the order of [`builtin_names`].
pub fn builtins() -> (names: Vec<String>)
    ensures
        names.deep_view() == builtin_names(),
{
    let names: Vec<String> = vec![
        String::from_str("echo"),
        String::from_str("exit"),
        String::from_str("type"),
        String::from_str("pwd"),
        String::from_str("cd"),
        String::from_str("complete"),
        String::from_str("jobs"),
        String::from_str("declare"),
        String::from_str("history"),
    ];
    assert(names.deep_view() == builtin_names());
    names
}

/// Whether `name` is one of the builtins.
pub fn is_builtin(name: &str) -> (b: bool)
    ensures
        b == builtin_names().contains(name@),
{
    let names = builtins();
    let mut i: usize = 0;
    while i < names.len()
        invariant
            names.deep_view() == builtin_names(),
            i <= names@.len(),
            forall|j: int| 0 <= j < i ==> builtin_names()[j] != name@,
        decreases names@.len() - i,
    {
        let n = chars_of(names[i].as_str());
        let t = chars_of(name);
        if chars_equal(n.as_slice(), t.as_slice()) {
            assert(builtin_names()[i as int] == name@);
            return true;
        }
        i = i + 1;
    }
    false
}

/// The commands the shell runs itself.
pub enum Builtin {
    Exit,
    Echo,
    Type,
    Pwd,
    Cd,
    Jobs,
    Complete,
    Declare,
    History,
}

pub open spec fn spec_builtin_of(name: Seq<char>) -> Option<Builtin> {
    if name == "exit"@ {
        Some(Builtin::Exit)
    } else if name == "echo"@ {
        Some(Builtin::Echo)
    } else if name == "type"@ {
        Some(Builtin::Type)
    } else if name == "pwd"@ {
        Some(Builtin::Pwd)
    } else if name == "cd"@ {
        Some(Builtin::Cd)
    } else if name == "jobs"@ {
        Some(Builtin::Jobs)
    } else if name == "complete"@ {
        Some(Builtin::Complete)
    } else if name == "declare"@ {
        Some(Builtin::Declare)
    } else if name == "history"@ {
        Some(Builtin::History)
    } else {
        None
    }
}

proof fn lemma_builtin_spellings()
    ensures
        "exit"@ == seq!['e', 'x', 'i', 't'],
        "echo"@ == seq!['e', 'c', 'h', 'o'],
        "type"@ == seq!['t', 'y', 'p', 'e'],
        "pwd"@ == seq!['p', 'w', 'd'],
        "cd"@ == seq!['c', 'd'],
        "jobs"@ == seq!['j', 'o', 'b', 's'],
        "complete"@ == seq!['c', 'o', 'm', 'p', 'l', 'e', 't', 'e'],
        "declare"@ == seq!['d', 'e', 'c', 'l', 'a', 'r', 'e'],
        "history"@ == seq!['h', 'i', 's', 't', 'o', 'r', 'y'],
{
    reveal_strlit("exit");
    reveal_strlit("echo");
    reveal_strlit("type");
    reveal_strlit("pwd");
    reveal_strlit("cd");
    reveal_strlit("jobs");
    reveal_strlit("complete");
    reveal_strlit("declare");
    reveal_strlit("history");
    assert("exit"@ =~= seq!['e', 'x', 'i', 't']);
    assert("echo"@ =~= seq!['e', 'c', 'h', 'o']);
    assert("type"@ =~= seq!['t', 'y', 'p', 'e']);
    assert("pwd"@ =~= seq!['p', 'w', 'd']);
    assert("cd"@ =~= seq!['c', 'd']);
    assert("jobs"@ =~= seq!['j', 'o', 'b', 's']);
    assert("complete"@ =~= seq!['c', 'o', 'm', 'p', 'l', 'e', 't', 'e']);
    assert("declare"@ =~= seq!['d', 'e', 'c', 'l', 'a', 'r', 'e']);
    assert("history"@ =~= seq!['h', 'i', 's', 't', 'o', 'r', 'y']);
}

/// Which builtin `name` names, if any.
pub fn builtin_of(name: &str) -> (b: Option<Builtin>)
    ensures
        b == spec_builtin_of(name@),
{
    proof {
        lemma_builtin_spellings();
    }
    if str_is(name, &['e', 'x', 'i', 't']) {
        Some(Builtin::Exit)
    } else if str_is(name, &['e', 'c', 'h', 'o']) {
        Some(Builtin::Echo)
    } else if str_is(name, &['t', 'y', 'p', 'e']) {
        Some(Builtin::Type)
    } else if str_is(name, &['p', 'w', 'd']) {
        Some(Builtin::Pwd)
    } else if str_is(name, &['c', 'd']) {
        Some(Builtin::Cd)
    } else if str_is(name, &['j', 'o', 'b', 's']) {
        Some(Builtin::Jobs)
    } else if str_is(name, &['c', 'o', 'm', 'p', 'l', 'e', 't', 'e']) {
        Some(Builtin::Complete)
    } else if str_is(name, &['d', 'e', 'c', 'l', 'a', 'r', 'e']) {
        Some(Builtin::Declare)
    } else if str_is(name, &['h', 'i', 's', 't', 'o', 'r', 'y']) {
        Some(Builtin::History)
    } else {
        None
    }
}

/// A command ready to run: its name, its arguments, whether it goes to the
/// background, and where its standard output and standard error go.
pub struct CommandLine {
    pub command: String,
    pub args: Vec<String>,
    pub background: bool,
    pub stdout: Option<(String, bool)>,
    pub stderr: Option<(String, bool)>,
}

/// What to do with one input line.
pub enum LinePlan {
    /// Nothing to run: a blank line, a lone `&`, or only redirections.
    Nothing,
    /// A redirection operator has no file name after it; the shell's scan of the
    /// words never ends on such a line.
    Stuck,
    Run(CommandLine),
}

/// The words of a line with a trailing `&` word taken off, and whether there was one.
pub open spec fn without_background(words: Seq<Seq<char>>) -> (Seq<Seq<char>>, bool) {
    if words.len() > 0 && words.last() == "&"@ {
        (words.drop_last(), true)
    } else {
        (words, false)
    }
}

/// What the shell does with `line`: it trims white space, splits the rest into
/// words, takes a trailing `&` as "run in the background", then pulls out the
/// redirections; the first remaining word is the command.
pub open spec fn spec_plan_line(line: Seq<char>) -> Option<Option<(
    Seq<Seq<char>>,
    bool,
    Option<(Seq<char>, bool)>,
    Option<(Seq<char>, bool)>,
)>> {
    let (words, background) = without_background(spec_parse_args(trim(line)));
    if words.len() == 0 {
        Some(None)
    } else if !redirects_complete(words) {
        None
    } else {
        let (args, out, err) = split_redirects(words);
        if args.len() == 0 {
            Some(None)
        } else {
            Some(Some((args, background, out, err)))
        }
    }
}

/// Whether a scan for redirections over `parts` ends (see [`redirects_complete`]).
pub fn redirects_well_formed(parts: &[String]) -> (ok: bool)
    ensures
        ok == redirects_complete(parts.deep_view()),
{
    let ghost all = parts.deep_view();
    let mut i: usize = 0;
    assert(all.skip(0) == all);
    while i < parts.len()
        invariant
            all == parts.deep_view(),
            i <= parts@.len(),
            redirects_complete(all) == redirects_complete(all.skip(i as int)),
        decreases parts@.len() - i,
    {
        let ghost rest = all.skip(i as int);
        let p = parts[i].as_str();
        assert(rest[0] == p@);
        let gt: [char; 1] = ['>'];
        assert(gt@ =~= seq!['>']);
        let op = str_is(p, &['>', '>']) || str_is(p, &['1', '>', '>']) || str_is(p, &gt)
            || str_is(p, &['1', '>']) || str_is(p, &['2', '>', '>']) || str_is(p, &['2', '>']);
        assert(op == is_redirect_op(p@));
        if op {
            if i + 1 >= parts.len() {
                return false;
            }
            assert(rest.skip(2) == all.skip(i + 2));
            i = i + 2;
        } else {
            assert(rest.skip(1) == all.skip(i + 1));
            i = i + 1;
        }
    }
    assert(all.skip(i as int).len() == 0);
    true
}

/// Reads one input line as the shell does before running it.
pub fn plan_line(line: &str) -> (plan: LinePlan)
    ensures
        match plan {
            LinePlan::Nothing => spec_plan_line(line@) == Some(
                None::<(Seq<Seq<char>>, bool, Option<(Seq<char>, bool)>, Option<(Seq<char>, bool)>)>,
            ),
            LinePlan::Stuck => spec_plan_line(line@) is None,
            LinePlan::Run(c) => spec_plan_line(line@) == Some(
                Some((seq![c.command@] + c.args.deep_view(), c.background, target_view(c.stdout), target_view(c.stderr))),
            ),
        },
{
    let chars = chars_of(line);
    let trimmed = trim_chars(chars.as_slice());
    let input = string_of(trimmed.as_slice());
    let mut parts = parse_args(input.as_str());
    let ghost all = parts.deep_view();
    let mut background = false;
    proof {
        reveal_strlit("&");
        assert("&"@ =~= seq!['&']);
    }
    if parts.len() > 0 {
        let n = parts.len();
        let amp: [char; 1] = ['&'];
        assert(amp@ =~= seq!['&']);
        if str_is(parts[n - 1].as_str(), &amp) {
            assert(all.last() == parts@[n - 1]@);
            background = true;
            parts.pop();
            assert(parts.deep_view() == all.drop_last());
        }
    }
    assert((parts.deep_view(), background) == without_background(all));
    if parts.len() == 0 {
        return LinePlan::Nothing;
    }
    if !redirects_well_formed(parts.as_slice()) {
        return LinePlan::Stuck;
    }
    let (mut args, stdout, stderr) = extract_redirect(parts.as_slice());
    if args.len() == 0 {
        return LinePlan::Nothing;
    }
    let ghost av = args.deep_view();
    let command = args.remove(0);
    assert(av == seq![command@] + args.deep_view());
    LinePlan::Run(CommandLine { command, args, background, stdout, stderr })
}

/// The line that `echo` prints: its arguments separated by single spaces.
pub fn echo_output(args: &[String]) -> (out: String)
    ensures
        out@ == join_with(args.deep_view(), " "@),
{
    join_strings(args, " ")
}

/// What `type` says of `name`, where `found` is the first executable of that name on
/// the search path, if any.
pub open spec fn spec_type_report(name: Seq<char>, found: Option<Seq<char>>) -> Seq<char> {
    if builtin_names().contains(name) {
        name + " is a shell builtin"@
    } else {
        match found {
            Some(path) => name + " is "@ + path,
            None => name + ": not found"@,
        }
    }
}

pub fn type_report(name: &str, found: Option<String>) -> (out: String)
    ensures
        out@ == spec_type_report(name@, match found { Some(p) => Some(p@), None => None }),
{
    let mut out = String::from_str(name);
    if is_builtin(name) {
        out.append(" is a shell builtin");
    } else {
        match found {
            Some(path) => {
                out.append(" is ");
                out.append(path.as_str());
            },
            None => {
                out.append(": not found");
            },
        }
    }
    out
}

/// What the shell says of a command it cannot find.
pub fn command_not_found(command: &str) -> (out: String)
    ensures
        out@ == command@ + ": command not found"@,
{
    let mut out = String::from_str(command);
    out.append(": command not found");
    out
}

/// Where `cd` goes: `~` stands for the home directory (empty when unknown).
pub fn cd_target(dir: &str, home: Option<String>) -> (target: String)
    ensures
        target@ == (if dir@ == "~"@ {
            match home { Some(h) => h@, None => Seq::<char>::empty() }
        } else {
            dir@
        }),
{
    let tilde: [char; 1] = ['~'];
    assert(tilde@ =~= seq!['~']);
    proof {
        reveal_strlit("~");
        assert("~"@ =~= seq!['~']);
    }
    if str_is(dir, &tilde) {
        match home {
            Some(h) => h,
            None => String::new(),
        }
    } else {
        String::from_str(dir)
    }
}

/// What `cd` says when its target does not exist.
pub fn cd_missing(dir: &str) -> (out: String)
    ensures
        out@ == "cd: "@ + dir@ + ": No such file or directory"@,
{
    let mut out = String::from_str("cd: ");
    out.append(dir);
    out.append(": No such file or directory");
    out
}

/// What the shell prints when it starts job `number` as process `pid`.
pub fn job_started(number: usize, pid: u32) -> (out: String)
    ensures
        out@ == "["@ + decimal(number as nat) + "] "@ + decimal(pid as nat),
{
    let mut out = String::from_str("[");
    out.append(decimal_string(number).as_str());
    out.append("] ");
    out.append(decimal_string(pid as usize).as_str());
    out
}

/// How `jobs` lists a background command: its name and arguments separated by
/// spaces, white space trimmed.
pub fn job_command_text(command: &str, args: &[String]) -> (out: String)
    ensures
        out@ == trim(command@ + " "@ + join_with(args.deep_view(), " "@)),
{
    let mut s = String::from_str(command);
    s.append(" ");
    s.append(join_strings(args, " ").as_str());
    let cs = chars_of(s.as_str());
    let t = trim_chars(cs.as_slice());
    string_of(t.as_slice())
}

/// The mark of the `index`-th of `total` jobs: `+` for the most recent, `-` for the
/// one before it, a space for the others.
pub open spec fn job_marker(index: nat, total: nat) -> char {
    if index + 1 == total { '+' } else if index + 2 == total { '-' } else { ' ' }
}

/// One line of the `jobs` listing.
pub open spec fn spec_job_line(number: nat, index: nat, total: nat, done: bool, command: Seq<char>) -> Seq<char> {
    let head = "["@ + decimal(number) + "]"@ + seq![job_marker(index, total)] + "  "@;
    if done {
        head + "Done                    "@ + command
    } else {
        head + "Running                 "@ + command + " &"@
    }
}

pub fn job_line(number: usize, index: usize, total: usize, done: bool, command: &str) -> (out: String)
    ensures
        out@ == spec_job_line(number as nat, index as nat, total as nat, done, command@),
{
    let mut out = String::from_str("[");
    out.append(decimal_string(number).as_str());
    out.append("]");
    let marker = if index < total && index == total - 1 {
        '+'
    } else if index < total && total >= 2 && index == total - 2 {
        '-'
    } else {
        ' '
    };
    out.push(marker);
    out.append("  ");
    if done {
        out.append("Done                    ");
        out.append(command);
    } else {
        out.append("Running                 ");
        out.append(command);
        out.append(" &");
    }
    out
}

/// The `complete` builtin on a table: the line it prints, if any, and the table
/// after it. `-p CMD` reports the script registered for CMD, `-C SCRIPT CMD`
/// registers SCRIPT for CMD, `-r CMD` removes CMD's script; anything else, or too
/// few arguments, does nothing.
pub open spec fn spec_complete_builtin(before: Map<Seq<char>, Seq<char>>, a: Seq<Seq<char>>) -> (
    Option<Seq<char>>,
    Map<Seq<char>, Seq<char>>,
) {
    if a.len() >= 1 && a[0] == "-p"@ {
        if a.len() >= 2 {
            (Some(if before.contains_key(a[1]) {
                "complete -C '"@ + before[a[1]] + "' "@ + a[1]
            } else {
                "complete: "@ + a[1] + ": no completion specification"@
            }), before)
        } else {
            (None, before)
        }
    } else if a.len() >= 1 && a[0] == "-C"@ {
        (None, if a.len() >= 3 { before.insert(a[2], a[1]) } else { before })
    } else if a.len() >= 1 && a[0] == "-r"@ {
        (None, if a.len() >= 2 { before.remove(a[1]) } else { before })
    } else {
        (None, before)
    }
}

/// Runs the `complete` builtin; the result is the line to print, if any.
pub fn complete_builtin(table: &mut StringTable, args: &[String]) -> (out: Option<String>)
    ensures
        (match out { Some(o) => Some(o@), None => None }, final(table).view())
            == spec_complete_builtin(old(table).view(), args.deep_view()),
{
    let ghost a = args.deep_view();
    if args.len() == 0 {
        return None;
    }
    assert(a[0] == args@[0]@);
    proof {
        reveal_strlit("-p");
        reveal_strlit("-C");
        reveal_strlit("-r");
        assert("-p"@ =~= seq!['-', 'p']);
        assert("-C"@ =~= seq!['-', 'C']);
        assert("-r"@ =~= seq!['-', 'r']);
    }
    let flag = args[0].as_str();
    let dash_p: [char; 2] = ['-', 'p'];
    let dash_c: [char; 2] = ['-', 'C'];
    let dash_r: [char; 2] = ['-', 'r'];
    assert(dash_p@ =~= seq!['-', 'p']);
    assert(dash_c@ =~= seq!['-', 'C']);
    assert(dash_r@ =~= seq!['-', 'r']);
    if str_is(flag, &dash_p) {
        assert(a[0] == "-p"@);
        if args.len() >= 2 {
            let cmd = args[1].as_str();
            assert(a[1] == cmd@);
            match table.get(cmd) {
                Some(path) => {
                    let mut out = String::from_str("complete -C '");
                    out.append(path.as_str());
                    out.append("' ");
                    out.append(cmd);
                    return Some(out);
                },
                None => {
                    let mut out = String::from_str("complete: ");
                    out.append(cmd);
                    out.append(": no completion specification");
                    return Some(out);
                },
            }
        }
        None
    } else if str_is(flag, &dash_c) {
        assert(a[0] != "-p"@);
        if args.len() >= 3 {
            assert(a[1] == args@[1]@ && a[2] == args@[2]@);
            table.insert(args[2].clone(), args[1].clone());
        }
        None
    } else if str_is(flag, &dash_r) {
        assert(a[0] != "-p"@ && a[0] != "-C"@);
        if args.len() >= 2 {
            assert(a[1] == args@[1]@);
            table.remove(args[1].as_str());
        }
        None
    } else {
        assert(a[0] != "-p"@ && a[0] != "-C"@ && a[0] != "-r"@);
        None
    }
}

/// The pieces of `s` between the occurrences of `sep` (empty pieces included), as
/// `str::split` with a character gives them.
pub open spec fn split_on(s: Seq<char>, sep: char) -> Seq<Seq<char>>
    decreases s.len(),
{
    split_on_from(s, sep, seq![], seq![])
}

pub open spec fn split_on_from(s: Seq<char>, sep: char, done: Seq<Seq<char>>, piece: Seq<char>) -> Seq<Seq<char>>
    decreases s.len(),
{
    if s.len() == 0 {
        done.push(piece)
    } else if s[0] == sep {
        split_on_from(s.drop_first(), sep, done.push(piece), seq![])
    } else {
        split_on_from(s.drop_first(), sep, done, piece.push(s[0]))
    }
}

/// The directories of a `PATH` value, in order.
pub fn path_dirs(path_var: &str) -> (dirs: Vec<String>)
    ensures
        dirs.deep_view() == split_on(path_var@, ':'),
{
    let cs = chars_of(path_var);
    let mut dirs: Vec<String> = Vec::new();
    let mut piece: Vec<char> = Vec::new();
    let mut i: usize = 0;
    assert(cs@.skip(0) == cs@);
    assert(dirs.deep_view() == Seq::<Seq<char>>::empty());
    assert(piece@ == Seq::<char>::empty());
    while i < cs.len()
        invariant
            cs@ == path_var@,
            i <= cs@.len(),
            split_on(path_var@, ':') == split_on_from(cs@.skip(i as int), ':', dirs.deep_view(), piece@),
        decreases cs@.len() - i,
    {
        let ghost rest = cs@.skip(i as int);
        assert(rest[0] == cs@[i as int]);
        assert(rest.drop_first() == cs@.skip(i + 1));
        if cs[i] == ':' {
            let ghost old_dirs = dirs.deep_view();
            dirs.push(string_of(piece.as_slice()));
            assert(dirs.deep_view() == old_dirs.push(piece@));
            piece = Vec::new();
            assert(piece@ == Seq::<char>::empty());
        } else {
            piece.push(cs[i]);
        }
        i = i + 1;
    }
    assert(cs@.skip(i as int).len() == 0);
    let ghost old_dirs = dirs.deep_view();
    dirs.push(string_of(piece.as_slice()));
    assert(dirs.deep_view() == old_dirs.push(piece@));
    dirs
}

/// The paths at which the shell looks for `command`, one per `PATH` directory, in
/// order: `dir/command`.
pub fn path_candidates(path_var: &str, command: &str) -> (paths: Vec<String>)
    ensures
        paths@.len() == split_on(path_var@, ':').len(),
        forall|i: int| 0 <= i < paths@.len() ==> (#[trigger] paths@[i])@
            == split_on(path_var@, ':')[i] + "/"@ + command@,
{
    let dirs = path_dirs(path_var);
    let mut paths: Vec<String> = Vec::new();
    let mut i: usize = 0;
    while i < dirs.len()
        invariant
            dirs.deep_view() == split_on(path_var@, ':'),
            i <= dirs@.len(),
            paths@.len() == i,
            forall|j: int| 0 <= j < i ==> (#[trigger] paths@[j])@ == split_on(path_var@, ':')[j] + "/"@ + command@,
        decreases dirs@.len() - i,
    {
        let mut p = dirs[i].clone();
        assert(p@ == split_on(path_var@, ':')[i as int]);
        p.append("/");
        p.append(command);
        paths.push(p);
        i = i + 1;
    }
    paths
}


/// After `complete -C SCRIPT CMD`, `complete -p CMD` reports SCRIPT for CMD; the
/// registration of any other command is unchanged.
pub proof fn law_register_then_print(table: Map<Seq<char>, Seq<char>>, script: Seq<char>, cmd: Seq<char>, other: Seq<char>)
    requires
        other != cmd,
    ensures
        ({
            let (_, t1) = spec_complete_builtin(table, seq!["-C"@, script, cmd]);
            let (out, t2) = spec_complete_builtin(t1, seq!["-p"@, cmd]);
            &&& out == Some("complete -C '"@ + script + "' "@ + cmd)
            &&& t2 == t1
            &&& t1.contains_key(other) == table.contains_key(other)
            &&& table.contains_key(other) ==> t1[other] == table[other]
        }),
{
    reveal_strlit("-C");
    reveal_strlit("-p");
    reveal_strlit("-r");
    assert("-C"@ != "-p"@) by {
        assert("-C"@[1] != "-p"@[1]);
    }
    let a = seq!["-C"@, script, cmd];
    assert(a[0] == "-C"@ && a[1] == script && a[2] == cmd);
    let b = seq!["-p"@, cmd];
    assert(b[0] == "-p"@ && b[1] == cmd);
}

/// After `complete -r CMD`, `complete -p CMD` reports that CMD has no completion
/// specification.
pub proof fn law_remove_then_print(table: Map<Seq<char>, Seq<char>>, cmd: Seq<char>)
    ensures
        ({
            let (_, t1) = spec_complete_builtin(table, seq!["-r"@, cmd]);
            let (out, _) = spec_complete_builtin(t1, seq!["-p"@, cmd]);
            out == Some("complete: "@ + cmd + ": no completion specification"@)
        }),
{
    reveal_strlit("-C");
    reveal_strlit("-p");
    reveal_strlit("-r");
    assert("-r"@ != "-p"@) by {
        assert("-r"@[1] != "-p"@[1]);
    }
    assert("-r"@ != "-C"@) by {
        assert("-r"@[1] != "-C"@[1]);
    }
    let a = seq!["-r"@, cmd];
    assert(a[0] == "-r"@ && a[1] == cmd);
    let b = seq!["-p"@, cmd];
    assert(b[0] == "-p"@ && b[1] == cmd);
}

/// `complete -p` changes nothing.
pub proof fn law_print_changes_nothing(table: Map<Seq<char>, Seq<char>>, args: Seq<Seq<char>>)
    requires
        args.len() >= 1,
        args[0] == "-p"@,
    ensures
        spec_complete_builtin(table, args).1 == table,
{
}


/// The stages of a pipeline read from `s` after the finished stages `done` and the
/// partial stage `cur`: a `|` outside quotes ends a stage; quotes and backslash
/// escapes are kept as they are for the lexer, and protect a `|`.
pub open spec fn stages_from(s: Seq<char>, done: Seq<Seq<char>>, cur: Seq<char>, in_single: bool, in_double: bool) -> Seq<Seq<char>>
    decreases s.len(),
{
    if s.len() == 0 {
        done.push(cur)
    } else {
        let c = s[0];
        let rest = s.drop_first();
        if in_single {
            stages_from(rest, done, cur.push(c), c != '\'', false)
        } else if c == '\\' {
            if rest.len() == 0 {
                stages_from(rest, done, cur.push(c), false, in_double)
            } else {
                stages_from(rest.drop_first(), done, cur.push(c).push(rest[0]), false, in_double)
            }
        } else if c == '\'' && !in_double {
            stages_from(rest, done, cur.push(c), true, false)
        } else if c == '"' {
            stages_from(rest, done, cur.push(c), false, !in_double)
        } else if c == '|' && !in_double {
            stages_from(rest, done.push(cur), seq![], false, false)
        } else {
            stages_from(rest, done, cur.push(c), false, in_double)
        }
    }
}

/// The stages of the pipeline `line`: its pieces between `|` signs outside quotes.
pub open spec fn spec_pipeline_stages(line: Seq<char>) -> Seq<Seq<char>> {
    stages_from(line, seq![], seq![], false, false)
}

/// Splits a line into the stages of a pipeline.
pub fn pipeline_stages(line: &str) -> (stages: Vec<String>)
    ensures
        stages.deep_view() == spec_pipeline_stages(line@),
{
    let cs = chars_of(line);
    let n = cs.len();
    let mut stages: Vec<String> = Vec::new();
    let mut cur: Vec<char> = Vec::new();
    let mut in_single = false;
    let mut in_double = false;
    let mut i: usize = 0;
    assert(cs@.skip(0) == cs@);
    assert(stages.deep_view() == Seq::<Seq<char>>::empty());
    assert(cur@ == Seq::<char>::empty());
    while i < n
        invariant
            n == cs@.len(),
            cs@ == line@,
            i <= n,
            !(in_single && in_double),
            spec_pipeline_stages(line@) == stages_from(cs@.skip(i as int), stages.deep_view(), cur@, in_single, in_double),
        decreases n - i,
    {
        let ghost rest = cs@.skip(i as int);
        let c = cs[i];
        assert(rest[0] == c);
        assert(rest.drop_first() == cs@.skip(i + 1));
        if in_single {
            cur.push(c);
            in_single = c != '\'';
            i = i + 1;
        } else if c == '\\' {
            cur.push(c);
            if i + 1 < n {
                cur.push(cs[i + 1]);
                assert(rest.drop_first()[0] == cs@[i + 1]);
                assert(rest.drop_first().drop_first() == cs@.skip(i + 2));
                i = i + 2;
            } else {
                i = i + 1;
            }
        } else if c == '\'' && !in_double {
            cur.push(c);
            in_single = true;
            i = i + 1;
        } else if c == '"' {
            cur.push(c);
            in_double = !in_double;
            i = i + 1;
        } else if c == '|' && !in_double {
            let ghost old_stages = stages.deep_view();
            stages.push(string_of(cur.as_slice()));
            assert(stages.deep_view() == old_stages.push(cur@));
            cur = Vec::new();
            assert(cur@ == Seq::<char>::empty());
            i = i + 1;
        } else {
            cur.push(c);
            i = i + 1;
        }
    }
    assert(cs@.skip(n as int).len() == 0);
    let ghost old_stages = stages.deep_view();
    stages.push(string_of(cur.as_slice()));
    assert(stages.deep_view() == old_stages.push(cur@));
    stages
}


proof fn lemma_stages_no_bar(s: Seq<char>, done: Seq<Seq<char>>, cur: Seq<char>, in_single: bool, in_double: bool)
    requires
        !s.contains('|'),
    ensures
        stages_from(s, done, cur, in_single, in_double) == done.push(cur + s),
    decreases s.len(),
{
    if s.len() == 0 {
        assert(cur + s == cur);
    } else {
        let c = s[0];
        let rest = s.drop_first();
        assert(c != '|') by {
            if c == '|' {
                assert(s.contains('|'));
            }
        }
        assert(!rest.contains('|')) by {
            if rest.contains('|') {
                let j = choose|j: int| 0 <= j < rest.len() && rest[j] == '|';
                assert(s[j + 1] == '|');
            }
        }
        if !in_single && c == '\\' && rest.len() > 0 {
            assert(!rest.drop_first().contains('|')) by {
                if rest.drop_first().contains('|') {
                    let j = choose|j: int| 0 <= j < rest.drop_first().len() && rest.drop_first()[j] == '|';
                    assert(s[j + 2] == '|');
                }
            }
            lemma_stages_no_bar(rest.drop_first(), done, cur.push(c).push(rest[0]), false, in_double);
            assert(cur.push(c).push(rest[0]) + rest.drop_first() == cur + s);
        } else {
            let st = if in_single { c != '\'' } else if c == '\'' && !in_double { true } else { false };
            let dt = if in_single { false } else if c == '\'' && !in_double { false } else if c == '"' { !in_double } else { in_double };
            lemma_stages_no_bar(rest, done, cur.push(c), st, dt);
            assert(cur.push(c) + rest == cur + s);
        }
    }
}

/// A line without `|` is one stage: the line itself.
pub proof fn law_no_bar_single_stage(line: Seq<char>)
    requires
        !line.contains('|'),
    ensures
        spec_pipeline_stages(line) == seq![line],
{
    lemma_stages_no_bar(line, seq![], seq![], false, false);
    assert(Seq::<char>::empty() + line == line);
}

/// Whether `c` means anything to the splitting of a pipeline: a quote, a backslash
/// or a `|`.
pub open spec fn is_pipeline_special(c: char) -> bool {
    c == '"' || c == '\'' || c == '\\' || c == '|'
}

proof fn lemma_stages_plain(u: Seq<char>, t: Seq<char>, done: Seq<Seq<char>>, cur: Seq<char>)
    requires
        forall|i: int| 0 <= i < u.len() ==> !is_pipeline_special(#[trigger] u[i]),
    ensures
        stages_from(u + t, done, cur, false, false) == stages_from(t, done, cur + u, false, false),
    decreases u.len(),
{
    if u.len() == 0 {
        assert(u + t == t);
        assert(cur + u == cur);
    } else {
        assert((u + t)[0] == u[0]);
        assert(!is_pipeline_special(u[0]));
        assert((u + t).drop_first() == u.drop_first() + t);
        assert forall|i: int| 0 <= i < u.drop_first().len() implies !is_pipeline_special(#[trigger] u.drop_first()[i]) by {
            assert(u.drop_first()[i] == u[i + 1]);
        }
        lemma_stages_plain(u.drop_first(), t, done, cur.push(u[0]));
        assert(cur.push(u[0]) + u.drop_first() == cur + u);
    }
}

proof fn lemma_stages_in_double(x: Seq<char>, t: Seq<char>, done: Seq<Seq<char>>, cur: Seq<char>)
    requires
        forall|i: int| 0 <= i < x.len() ==> #[trigger] x[i] != '"' && x[i] != '\\',
    ensures
        stages_from(x + t, done, cur, false, true) == stages_from(t, done, cur + x, false, true),
    decreases x.len(),
{
    if x.len() == 0 {
        assert(x + t == t);
        assert(cur + x == cur);
    } else {
        assert((x + t)[0] == x[0]);
        assert(x[0] != '"' && x[0] != '\\');
        assert((x + t).drop_first() == x.drop_first() + t);
        assert forall|i: int| 0 <= i < x.drop_first().len() implies #[trigger] x.drop_first()[i] != '"' && x.drop_first()[i] != '\\' by {
            assert(x.drop_first()[i] == x[i + 1]);
        }
        lemma_stages_in_double(x.drop_first(), t, done, cur.push(x[0]));
        assert(cur.push(x[0]) + x.drop_first() == cur + x);
    }
}

/// Inside double quotes a `'` or a `|` is an ordinary character: `u "x" | v`, with
/// `u` and `v` free of quotes, backslashes and `|` and `x` free of `"` and
/// backslashes, is two stages, split at the `|` after the closing quote.
pub proof fn law_double_quotes_hold_quote_and_bar(u: Seq<char>, x: Seq<char>, v: Seq<char>)
    requires
        forall|i: int| 0 <= i < u.len() ==> !is_pipeline_special(#[trigger] u[i]),
        forall|i: int| 0 <= i < v.len() ==> !is_pipeline_special(#[trigger] v[i]),
        forall|i: int| 0 <= i < x.len() ==> #[trigger] x[i] != '"' && x[i] != '\\',
    ensures
        spec_pipeline_stages(u + seq!['"'] + x + seq!['"', ' ', '|', ' '] + v)
            == seq![u + seq!['"'] + x + seq!['"', ' '], seq![' '] + v],
{
    let e = Seq::<char>::empty();
    let nil = Seq::<Seq<char>>::empty();
    let t3 = seq!['"', ' ', '|', ' '] + v;
    let t2 = x + t3;
    let t1 = seq!['"'] + t2;
    let line = u + seq!['"'] + x + seq!['"', ' ', '|', ' '] + v;
    assert(line == u + t1);
    lemma_stages_plain(u, t1, nil, e);
    assert(e + u == u);
    // the opening quote
    assert(t1[0] == '"');
    assert(t1.drop_first() == t2);
    assert(stages_from(t1, nil, u, false, false) == stages_from(t2, nil, u.push('"'), false, true));
    lemma_stages_in_double(x, t3, nil, u.push('"'));
    let c1 = u.push('"') + x;
    // the closing quote, a space, the bar, a space
    assert(t3[0] == '"');
    let t4 = t3.drop_first();
    assert(t4 == seq![' ', '|', ' '] + v);
    assert(stages_from(t3, nil, c1, false, true) == stages_from(t4, nil, c1.push('"'), false, false));
    assert(t4[0] == ' ');
    let t5 = t4.drop_first();
    assert(t5 == seq!['|', ' '] + v);
    assert(stages_from(t4, nil, c1.push('"'), false, false) == stages_from(t5, nil, c1.push('"').push(' '), false, false));
    let first = c1.push('"').push(' ');
    assert(t5[0] == '|');
    let t6 = t5.drop_first();
    assert(t6 == seq![' '] + v);
    assert(stages_from(t5, nil, first, false, false) == stages_from(t6, nil.push(first), e, false, false));
    assert(t6[0] == ' ');
    assert(t6.drop_first() == v);
    assert(stages_from(t6, nil.push(first), e, false, false) == stages_from(v, nil.push(first), e.push(' '), false, false));
    assert(v == v + e);
    lemma_stages_plain(v, e, nil.push(first), e.push(' '));
    assert(e.push(' ') + v == seq![' '] + v);
    assert(stages_from(e, nil.push(first), seq![' '] + v, false, false) == nil.push(first).push(seq![' '] + v));
    assert(first == u + seq!['"'] + x + seq!['"', ' ']);
}

proof fn lemma_stages_in_single(x: Seq<char>, t: Seq<char>, done: Seq<Seq<char>>, cur: Seq<char>)
    requires
        forall|i: int| 0 <= i < x.len() ==> #[trigger] x[i] != '\'',
    ensures
        stages_from(x + t, done, cur, true, false) == stages_from(t, done, cur + x, true, false),
    decreases x.len(),
{
    if x.len() == 0 {
        assert(x + t == t);
        assert(cur + x == cur);
    } else {
        assert((x + t)[0] == x[0]);
        assert(x[0] != '\'');
        assert((x + t).drop_first() == x.drop_first() + t);
        assert forall|i: int| 0 <= i < x.drop_first().len() implies #[trigger] x.drop_first()[i] != '\'' by {
            assert(x.drop_first()[i] == x[i + 1]);
        }
        lemma_stages_in_single(x.drop_first(), t, done, cur.push(x[0]));
        assert(cur.push(x[0]) + x.drop_first() == cur + x);
    }
}

/// A `|` outside quotes splits the line: `u|v`, with `u` and `v` free of quotes,
/// backslashes and `|`, is the two stages `u` and `v`.
pub proof fn law_bar_splits(u: Seq<char>, v: Seq<char>)
    requires
        forall|i: int| 0 <= i < u.len() ==> !is_pipeline_special(#[trigger] u[i]),
        forall|i: int| 0 <= i < v.len() ==> !is_pipeline_special(#[trigger] v[i]),
    ensures
        spec_pipeline_stages(u + seq!['|'] + v) == seq![u, v],
{
    let e = Seq::<char>::empty();
    let nil = Seq::<Seq<char>>::empty();
    let t = seq!['|'] + v;
    assert(u + seq!['|'] + v == u + t);
    lemma_stages_plain(u, t, nil, e);
    assert(e + u == u);
    assert(t[0] == '|');
    assert(t.drop_first() == v);
    assert(stages_from(t, nil, u, false, false) == stages_from(v, nil.push(u), e, false, false));
    assert(v == v + e);
    lemma_stages_plain(v, e, nil.push(u), e);
    assert(e + v == v);
    assert(stages_from(e, nil.push(u), v, false, false) == nil.push(u).push(v));
}

/// Inside single quotes a `|` or a `"` is an ordinary character: `u'x'|v`, with `u`
/// and `v` free of quotes, backslashes and `|` and `x` free of `'`, is two stages,
/// split at the `|` after the closing quote.
pub proof fn law_single_quotes_hold_bar(u: Seq<char>, x: Seq<char>, v: Seq<char>)
    requires
        forall|i: int| 0 <= i < u.len() ==> !is_pipeline_special(#[trigger] u[i]),
        forall|i: int| 0 <= i < v.len() ==> !is_pipeline_special(#[trigger] v[i]),
        forall|i: int| 0 <= i < x.len() ==> #[trigger] x[i] != '\'',
    ensures
        spec_pipeline_stages(u + seq!['\''] + x + seq!['\'', '|'] + v) == seq![u + seq!['\''] + x + seq!['\''], v],
{
    let e = Seq::<char>::empty();
    let nil = Seq::<Seq<char>>::empty();
    let t3 = seq!['\'', '|'] + v;
    let t2 = x + t3;
    let t1 = seq!['\''] + t2;
    assert(u + seq!['\''] + x + seq!['\'', '|'] + v == u + t1);
    lemma_stages_plain(u, t1, nil, e);
    assert(e + u == u);
    assert(t1[0] == '\'');
    assert(t1.drop_first() == t2);
    assert(stages_from(t1, nil, u, false, false) == stages_from(t2, nil, u.push('\''), true, false));
    lemma_stages_in_single(x, t3, nil, u.push('\''));
    let c1 = u.push('\'') + x;
    assert(t3[0] == '\'');
    let t4 = t3.drop_first();
    assert(t4 == seq!['|'] + v);
    assert(stages_from(t3, nil, c1, true, false) == stages_from(t4, nil, c1.push('\''), false, false));
    let first = c1.push('\'');
    assert(t4[0] == '|');
    assert(t4.drop_first() == v);
    assert(stages_from(t4, nil, first, false, false) == stages_from(v, nil.push(first), e, false, false));
    assert(v == v + e);
    lemma_stages_plain(v, e, nil.push(first), e);
    assert(e + v == v);
    assert(stages_from(e, nil.push(first), v, false, false) == nil.push(first).push(v));
    assert(first == u + seq!['\''] + x + seq!['\'']);
}

/// A `|` after a backslash does not split: `u\|v`, with `u` and `v` free of quotes,
/// backslashes and `|`, is one stage, kept as it is.
pub proof fn law_escaped_bar_kept(u: Seq<char>, v: Seq<char>)
    requires
        forall|i: int| 0 <= i < u.len() ==> !is_pipeline_special(#[trigger] u[i]),
        forall|i: int| 0 <= i < v.len() ==> !is_pipeline_special(#[trigger] v[i]),
    ensures
        spec_pipeline_stages(u + seq!['\\', '|'] + v) == seq![u + seq!['\\', '|'] + v],
{
    let e = Seq::<char>::empty();
    let nil = Seq::<Seq<char>>::empty();
    let t = seq!['\\', '|'] + v;
    assert(u + seq!['\\', '|'] + v == u + t);
    lemma_stages_plain(u, t, nil, e);
    assert(e + u == u);
    assert(t[0] == '\\');
    assert(t.drop_first()[0] == '|');
    assert(t.drop_first().drop_first() == v);
    let c1 = u.push('\\').push('|');
    assert(stages_from(t, nil, u, false, false) == stages_from(v, nil, c1, false, false));
    assert(v == v + e);
    lemma_stages_plain(v, e, nil, c1);
    assert(stages_from(e, nil, c1 + v, false, false) == nil.push(c1 + v));
    assert(c1 + v == u + seq!['\\', '|'] + v);
}

} // verus!
