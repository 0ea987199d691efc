//! Tab completion: what a press of the tab key offers, given the text before the
//! cursor, the completion table, and what the outside world says (the executables on
//! the search path, the files of a directory, or a completion script's output).
//!
//! Completing is split in two steps around the outside work: [`ShellHelper::lookup`]
//! says what to ask the outside world, then `complete_commands`,
//! `complete_from_script` or `complete_files` takes the answer and decides.
use vstd::prelude::*;
use vstd::string::StringExecFns;
use vstd::utf8::{decode_utf8, encode_utf8, is_char_boundary, encode_utf8_decode_utf8};
use crate::text::{
    byte_len, chars_of, decimal, decimal_string, has_prefix, join_strings, join_with, lines,
    lines_of, sort_by_key, sort_entries, sort_seqs, sorted, lemma_sort_by_key, sort_strings, split_whitespace_chars,
    split_ws, split_ws_from, push_word, is_white_space, sorted_by_key, str_is, string_of, entries_view, entry_view,
};
use crate::prefix::{lcp_cut, lcp_cut_on_char_boundary, lcp_text, longest_common_prefix};
use crate::table::StringTable;
use crate::commands::{builtin_names, builtins, complete_builtin, spec_complete_builtin};

verus! {

/// What the shell offers for the word before the cursor: what to show, and what
/// the line up to the cursor becomes.
pub struct Candidate {
    pub display: String,
    pub replacement: String,
}

/// The answer to one press of the tab key.
pub enum Reply {
    /// Nothing to offer.
    Nothing,
    /// Replace the line up to the cursor.
    Complete(Candidate),
    /// Ring the bell: several candidates, and this is the first press.
    Bell,
    /// Print this text (a new line, the candidates, a new prompt with the line).
    Show(String),
    /// The shell would cut a string at a byte offset inside a character here, which
    /// it cannot do.
    CutInsideChar,
}

pub enum ReplyView {
    Nothing,
    Complete(Seq<char>, Seq<char>),
    Bell,
    Show(Seq<char>),
    CutInsideChar,
}

impl View for Reply {
    type V = ReplyView;

    open spec fn view(&self) -> ReplyView {
        match self {
            Reply::Nothing => ReplyView::Nothing,
            Reply::Complete(c) => ReplyView::Complete(c.display@, c.replacement@),
            Reply::Bell => ReplyView::Bell,
            Reply::Show(t) => ReplyView::Show(t@),
            Reply::CutInsideChar => ReplyView::CutInsideChar,
        }
    }
}

/// What to ask the outside world before completing.
pub enum Lookup {
    /// The line has no space: complete a command name from the builtins and the
    /// executables on the search path.
    Commands,
    /// The command has a completion script: run `script` with the arguments `command`,
    /// `current_word`, `previous_word` and the environment `COMP_LINE` (the line up to
    /// the cursor) and `COMP_POINT` (`comp_point`), and read its standard output.
    Script {
        script: String,
        command: String,
        current_word: String,
        previous_word: String,
        comp_point: String,
    },
    /// Complete a file name: list the directory `read_path`.
    Files { read_path: String },
}

pub enum LookupView {
    Commands,
    Script(Seq<char>, Seq<char>, Seq<char>, Seq<char>, Seq<char>),
    Files(Seq<char>),
}

impl View for Lookup {
    type V = LookupView;

    open spec fn view(&self) -> LookupView {
        match self {
            Lookup::Commands => LookupView::Commands,
            Lookup::Script { script, command, current_word, previous_word, comp_point } =>
                LookupView::Script(script@, command@, current_word@, previous_word@, comp_point@),
            Lookup::Files { read_path } => LookupView::Files(read_path@),
        }
    }
}

/// The characters of `s` before its first `c` (all of `s` if there is none).
pub open spec fn before_first(s: Seq<char>, c: char) -> Seq<char>
    decreases s.len(),
{
    if s.len() == 0 {
        s
    } else if s[0] == c {
        seq![]
    } else {
        seq![s[0]] + before_first(s.drop_first(), c)
    }
}

/// The characters of `s` after its last `c` (all of `s` if there is none).
pub open spec fn after_last(s: Seq<char>, c: char) -> Seq<char>
    decreases s.len(),
{
    if s.len() == 0 {
        s
    } else if s.last() == c {
        seq![]
    } else {
        after_last(s.drop_last(), c).push(s.last())
    }
}

/// The command word: the text before the first space.
pub open spec fn command_word(prefix: Seq<char>) -> Seq<char> {
    before_first(prefix, ' ')
}

/// The word being completed, for file names: the text after the last space.
pub open spec fn arg_prefix(prefix: Seq<char>) -> Seq<char> {
    after_last(prefix, ' ')
}

pub open spec fn ends_with_space(prefix: Seq<char>) -> bool {
    prefix.len() > 0 && prefix.last() == ' '
}

/// The word being completed, for a completion script: empty after a space, else the
/// last white-space separated word.
pub open spec fn current_word(prefix: Seq<char>) -> Seq<char> {
    let ws = split_ws(prefix);
    if ends_with_space(prefix) || ws.len() == 0 { seq![] } else { ws.last() }
}

/// The word before the one being completed, for a completion script.
pub open spec fn previous_word(prefix: Seq<char>) -> Seq<char> {
    let ws = split_ws(prefix);
    if ends_with_space(prefix) {
        if ws.len() > 0 { ws.last() } else { seq![] }
    } else if ws.len() >= 2 {
        ws[ws.len() - 2]
    } else {
        seq![]
    }
}

/// The directory part of a file-name prefix, up to and including its last `/`.
pub open spec fn file_dir(arg: Seq<char>) -> Seq<char> {
    arg.take(arg.len() - after_last(arg, '/').len())
}

/// The file-name part of a file-name prefix, after its last `/`.
pub open spec fn file_name_prefix(arg: Seq<char>) -> Seq<char> {
    after_last(arg, '/')
}

/// The directory to list: the directory part, or `.` when there is none.
pub open spec fn read_path(arg: Seq<char>) -> Seq<char> {
    if file_dir(arg).len() == 0 { "."@ } else { file_dir(arg) }
}

/// The characters of `s` whose UTF-8 encoding is the first `n` bytes of that of `s`;
/// `None` when `n` is no character boundary.
pub open spec fn byte_prefix(s: Seq<char>, n: int) -> Option<Seq<char>> {
    if is_char_boundary(encode_utf8(s), n) {
        Some(decode_utf8(encode_utf8(s).subrange(0, n)))
    } else {
        None
    }
}

/// The line up to the cursor without the bytes of the word being completed.
pub open spec fn before_word(prefix: Seq<char>, word: Seq<char>) -> Option<Seq<char>> {
    if encode_utf8(word).len() <= encode_utf8(prefix).len() {
        byte_prefix(prefix, encode_utf8(prefix).len() - encode_utf8(word).len())
    } else {
        None
    }
}

/// What to ask the outside world for the line `prefix` up to the cursor.
pub open spec fn spec_lookup(table: Map<Seq<char>, Seq<char>>, prefix: Seq<char>) -> LookupView {
    if !prefix.contains(' ') {
        LookupView::Commands
    } else if table.contains_key(command_word(prefix)) {
        LookupView::Script(
            table[command_word(prefix)],
            command_word(prefix),
            current_word(prefix),
            previous_word(prefix),
            decimal(encode_utf8(prefix).len()),
        )
    } else {
        LookupView::Files(read_path(arg_prefix(prefix)))
    }
}

/// The words of `s` that start with `p`, in order.
pub open spec fn keep_prefixed(s: Seq<Seq<char>>, p: Seq<char>) -> Seq<Seq<char>>
    decreases s.len(),
{
    if s.len() == 0 {
        seq![]
    } else if p.is_prefix_of(s.last()) {
        keep_prefixed(s.drop_last(), p).push(s.last())
    } else {
        keep_prefixed(s.drop_last(), p)
    }
}

/// `s` with every repetition of an earlier element dropped.
pub open spec fn dedup(s: Seq<Seq<char>>) -> Seq<Seq<char>>
    decreases s.len(),
{
    if s.len() == 0 {
        seq![]
    } else if dedup(s.drop_last()).contains(s.last()) {
        dedup(s.drop_last())
    } else {
        dedup(s.drop_last()).push(s.last())
    }
}

/// The command names that complete `prefix`: the builtins and the executables that
/// start with it, each once, in ascending order.
pub open spec fn spec_matches(prefix: Seq<char>, executables: Seq<Seq<char>>) -> Seq<Seq<char>> {
    sort_seqs(dedup(keep_prefixed(builtin_names() + executables, prefix)))
}

/// The directory entries whose names start with `name_prefix`, named `dir` + name.
pub open spec fn keep_files(entries: Seq<(Seq<char>, bool)>, dir: Seq<char>, name_prefix: Seq<char>) -> Seq<(Seq<char>, bool)>
    decreases entries.len(),
{
    if entries.len() == 0 {
        seq![]
    } else if name_prefix.is_prefix_of(entries.last().0) {
        keep_files(entries.drop_last(), dir, name_prefix).push((dir + entries.last().0, entries.last().1))
    } else {
        keep_files(entries.drop_last(), dir, name_prefix)
    }
}

/// The file candidates for `prefix`, sorted by path.
pub open spec fn spec_file_matches(prefix: Seq<char>, entries: Seq<(Seq<char>, bool)>) -> Seq<(Seq<char>, bool)> {
    let arg = arg_prefix(prefix);
    sort_by_key(keep_files(entries, file_dir(arg), file_name_prefix(arg)), |e: (Seq<char>, bool)| e.0)
}

/// What the shell prints to list candidates: a new line, the listing, then a new
/// prompt with the line up to the cursor.
pub open spec fn show_text(listing: Seq<char>, prefix: Seq<char>) -> Seq<char> {
    "\n"@ + listing + "\n$ "@ + prefix
}

/// A press of tab with several candidates and nothing to add: the first press on a
/// line rings the bell, the next one lists the candidates, and so on in turn.
/// Gives the reply and the new remembered line and press count.
pub open spec fn spec_ring(last: Seq<char>, count: nat, prefix: Seq<char>, listing: Seq<char>) -> (ReplyView, Seq<char>, nat) {
    let count1 = if last == prefix { count + 1 } else { 1 };
    if count1 == 1 {
        (ReplyView::Bell, prefix, 1)
    } else {
        (ReplyView::Show(show_text(listing, prefix)), prefix, 0)
    }
}

/// Several candidates: complete their common prefix when it is longer (in bytes)
/// than the `typed` word, else ring or list.
pub open spec fn spec_pick(
    last: Seq<char>,
    count: nat,
    prefix: Seq<char>,
    cands: Seq<Seq<char>>,
    typed: Seq<char>,
    before: Option<Seq<char>>,
    listing: Seq<char>,
) -> (ReplyView, Seq<char>, nat) {
    if !is_char_boundary(encode_utf8(cands[0]), lcp_cut(cands) as int) {
        (ReplyView::CutInsideChar, last, count)
    } else if encode_utf8(lcp_text(cands)).len() > encode_utf8(typed).len() {
        match before {
            Some(b) => (ReplyView::Complete(lcp_text(cands), b + lcp_text(cands)), seq![], 0),
            None => (ReplyView::CutInsideChar, last, count),
        }
    } else {
        spec_ring(last, count, prefix, listing)
    }
}

/// Completing a command name.
pub open spec fn spec_complete_commands(last: Seq<char>, count: nat, prefix: Seq<char>, executables: Seq<Seq<char>>) -> (ReplyView, Seq<char>, nat) {
    let m = spec_matches(prefix, executables);
    if m.len() == 0 {
        (ReplyView::Nothing, last, count)
    } else if m.len() == 1 {
        (ReplyView::Complete(m[0], m[0] + " "@), seq![], 0)
    } else {
        spec_pick(last, count, prefix, m, prefix, Some(seq![]), join_with(m, "  "@))
    }
}

/// Completing from a completion script's output (`None` when it could not be run).
pub open spec fn spec_complete_script(last: Seq<char>, count: nat, prefix: Seq<char>, output: Option<Seq<char>>) -> (ReplyView, Seq<char>, nat) {
    match output {
        None => (ReplyView::Nothing, last, count),
        Some(out) => {
            let c = sort_seqs(lines(out));
            let before = before_word(prefix, current_word(prefix));
            if c.len() == 0 {
                (ReplyView::Nothing, last, count)
            } else if c.len() == 1 {
                match before {
                    Some(b) => (ReplyView::Complete(c[0], b + c[0] + " "@), last, count),
                    None => (ReplyView::CutInsideChar, last, count),
                }
            } else {
                spec_pick(last, count, prefix, c, current_word(prefix), before, join_with(c, "  "@))
            }
        },
    }
}

pub open spec fn entry_names(m: Seq<(Seq<char>, bool)>) -> Seq<Seq<char>> {
    m.map_values(|e: (Seq<char>, bool)| e.0)
}

/// How a file candidate is listed: directories get a trailing `/`.
pub open spec fn entry_displays(m: Seq<(Seq<char>, bool)>) -> Seq<Seq<char>> {
    m.map_values(|e: (Seq<char>, bool)| if e.1 { e.0 + "/"@ } else { e.0 })
}

/// Completing a file name from the entries of the directory to list.
pub open spec fn spec_complete_files(last: Seq<char>, count: nat, prefix: Seq<char>, entries: Seq<(Seq<char>, bool)>) -> (ReplyView, Seq<char>, nat) {
    let arg = arg_prefix(prefix);
    let m = spec_file_matches(prefix, entries);
    let head = prefix.take(prefix.len() - arg.len());
    if m.len() == 0 {
        (ReplyView::Nothing, last, count)
    } else if m.len() == 1 {
        (ReplyView::Complete(m[0].0, head + m[0].0 + (if m[0].1 { "/"@ } else { " "@ })), seq![], 0)
    } else {
        spec_pick(last, count, prefix, entry_names(m), arg, Some(head), join_with(entry_displays(m), "  "@))
    }
}


proof fn lemma_before_first(s: Seq<char>, c: char, i: int)
    requires
        0 <= i <= s.len(),
        forall|j: int| 0 <= j < i ==> s[j] != c,
        i == s.len() || s[i] == c,
    ensures
        before_first(s, c) == s.take(i),
    decreases i,
{
    if i > 0 {
        assert forall|j: int| 0 <= j < i - 1 implies s.drop_first()[j] != c by {
            assert(s.drop_first()[j] == s[j + 1]);
        }
        if i < s.len() {
            assert(s.drop_first()[i - 1] == s[i]);
        }
        lemma_before_first(s.drop_first(), c, i - 1);
        assert(seq![s[0]] + s.drop_first().take(i - 1) == s.take(i));
    } else {
        assert(s.take(0) == Seq::<char>::empty());
        if s.len() == 0 {
            assert(s == Seq::<char>::empty());
        }
    }
}

proof fn lemma_after_last(s: Seq<char>, c: char, k: int)
    requires
        0 <= k <= s.len(),
        forall|j: int| k <= j < s.len() ==> s[j] != c,
        k == 0 || s[k - 1] == c,
    ensures
        after_last(s, c) == s.skip(k),
    decreases s.len() - k,
{
    if k < s.len() {
        assert(s.last() != c);
        assert forall|j: int| k <= j < s.drop_last().len() implies s.drop_last()[j] != c by {
            assert(s.drop_last()[j] == s[j]);
        }
        lemma_after_last(s.drop_last(), c, k);
        assert(s.drop_last().skip(k).push(s.last()) == s.skip(k));
    } else {
        assert(s.skip(k) == Seq::<char>::empty());
        if s.len() > 0 {
            assert(s.last() == c);
        } else {
            assert(s == Seq::<char>::empty());
        }
    }
}

/// The characters of `s` before its first `c`.
pub(crate) fn before_first_chars(s: &[char], c: char) -> (r: Vec<char>)
    ensures
        r@ == before_first(s@, c),
{
    let mut r: Vec<char> = Vec::new();
    let mut i: usize = 0;
    while i < s.len() && s[i] != c
        invariant
            i <= s@.len(),
            forall|j: int| 0 <= j < i ==> s@[j] != c,
            r@ == s@.take(i as int),
        decreases s@.len() - i,
    {
        r.push(s[i]);
        i = i + 1;
        assert(r@ == s@.take(i as int));
    }
    proof {
        lemma_before_first(s@, c, i as int);
    }
    r
}

/// The characters of `s` after its last `c`.
fn after_last_chars(s: &[char], c: char) -> (r: Vec<char>)
    ensures
        r@ == after_last(s@, c),
        r@.len() <= s@.len(),
        r@ == s@.skip(s@.len() - r@.len()),
{
    let mut k: usize = s.len();
    while k > 0 && s[k - 1] != c
        invariant
            k <= s@.len(),
            forall|j: int| k <= j < s@.len() ==> s@[j] != c,
        decreases k,
    {
        k = k - 1;
    }
    proof {
        lemma_after_last(s@, c, k as int);
    }
    let mut r: Vec<char> = Vec::new();
    let mut i: usize = k;
    while i < s.len()
        invariant
            k <= i <= s@.len(),
            r@ == s@.subrange(k as int, i as int),
        decreases s@.len() - i,
    {
        r.push(s[i]);
        i = i + 1;
        assert(r@ == s@.subrange(k as int, i as int));
    }
    assert(s@.subrange(k as int, s@.len() as int) == s@.skip(k as int));
    r
}

/// The first `n` characters of `s`.
fn take_chars(s: &[char], n: usize) -> (r: Vec<char>)
    requires
        n <= s@.len(),
    ensures
        r@ == s@.take(n as int),
{
    let mut r: Vec<char> = Vec::new();
    let mut i: usize = 0;
    while i < n
        invariant
            n <= s@.len(),
            i <= n,
            r@ == s@.take(i as int),
        decreases n - i,
    {
        r.push(s[i]);
        i = i + 1;
        assert(r@ == s@.take(i as int));
    }
    r
}

/// The characters of `s` whose UTF-8 encoding is its first `n` bytes, if `n` is a
/// character boundary.
fn cut_bytes(s: &str, n: usize) -> (r: Option<String>)
    ensures
        match r {
            Some(t) => byte_prefix(s@, n as int) == Some(t@),
            None => byte_prefix(s@, n as int) is None,
        },
{
    if s.is_char_boundary(n) {
        let (head, _tail) = s.split_at(n);
        let t = head.to_owned();
        proof {
            encode_utf8_decode_utf8(t@);
        }
        Some(t)
    } else {
        None
    }
}

/// The line up to the cursor without the bytes of `word`.
fn before_word_exec(prefix: &str, word: &str) -> (r: Option<String>)
    ensures
        match r {
            Some(t) => before_word(prefix@, word@) == Some(t@),
            None => before_word(prefix@, word@) is None,
        },
{
    let p = byte_len(prefix);
    let w = byte_len(word);
    if w <= p {
        cut_bytes(prefix, p - w)
    } else {
        None
    }
}

/// The words of `s` that start with `p`, in order.
fn keep_prefixed_exec(s: &[String], p: &[char]) -> (r: Vec<String>)
    ensures
        r.deep_view() == keep_prefixed(s.deep_view(), p@),
{
    let ghost dv = s.deep_view();
    let mut r: Vec<String> = Vec::new();
    let mut i: usize = 0;
    assert(dv.take(0) == Seq::<Seq<char>>::empty());
    assert(r.deep_view() == Seq::<Seq<char>>::empty());
    while i < s.len()
        invariant
            dv == s.deep_view(),
            i <= s@.len(),
            r.deep_view() == keep_prefixed(dv.take(i as int), p@),
        decreases s@.len() - i,
    {
        let w = chars_of(s[i].as_str());
        assert(dv.take(i + 1).drop_last() == dv.take(i as int));
        assert(dv.take(i + 1).last() == s@[i as int]@);
        if has_prefix(w.as_slice(), p) {
            let ghost old_r = r.deep_view();
            r.push(s[i].clone());
            assert(r.deep_view() == old_r.push(s@[i as int]@));
        }
        i = i + 1;
    }
    assert(dv.take(s@.len() as int) == dv);
    r
}

/// Whether `w` occurs in `s`.
fn contains_word(s: &[String], w: &str) -> (b: bool)
    ensures
        b == s.deep_view().contains(w@),
{
    let t = chars_of(w);
    let mut i: usize = 0;
    while i < s.len()
        invariant
            t@ == w@,
            i <= s@.len(),
            forall|j: int| 0 <= j < i ==> s.deep_view()[j] != w@,
        decreases s@.len() - i,
    {
        let c = chars_of(s[i].as_str());
        if crate::text::chars_equal(c.as_slice(), t.as_slice()) {
            assert(s.deep_view()[i as int] == w@);
            return true;
        }
        i = i + 1;
    }
    false
}

/// `s` with repetitions dropped.
fn dedup_exec(s: &[String]) -> (r: Vec<String>)
    ensures
        r.deep_view() == dedup(s.deep_view()),
{
    let ghost dv = s.deep_view();
    let mut r: Vec<String> = Vec::new();
    let mut i: usize = 0;
    assert(dv.take(0) == Seq::<Seq<char>>::empty());
    assert(r.deep_view() == Seq::<Seq<char>>::empty());
    while i < s.len()
        invariant
            dv == s.deep_view(),
            i <= s@.len(),
            r.deep_view() == dedup(dv.take(i as int)),
        decreases s@.len() - i,
    {
        assert(dv.take(i + 1).drop_last() == dv.take(i as int));
        assert(dv.take(i + 1).last() == s@[i as int]@);
        if !contains_word(r.as_slice(), s[i].as_str()) {
            let ghost old_r = r.deep_view();
            r.push(s[i].clone());
            assert(r.deep_view() == old_r.push(s@[i as int]@));
        }
        i = i + 1;
    }
    assert(dv.take(s@.len() as int) == dv);
    r
}


/// Whether `s` holds `c`.
pub(crate) fn contains_char(s: &[char], c: char) -> (b: bool)
    ensures
        b == s@.contains(c),
{
    let mut i: usize = 0;
    while i < s.len()
        invariant
            i <= s@.len(),
            forall|j: int| 0 <= j < i ==> s@[j] != c,
        decreases s@.len() - i,
    {
        if s[i] == c {
            return true;
        }
        i = i + 1;
    }
    false
}

/// The word being completed and the one before it, for a completion script.
fn words_at_cursor(prefix: &str) -> (r: (String, String))
    ensures
        r.0@ == current_word(prefix@),
        r.1@ == previous_word(prefix@),
{
    let pc = chars_of(prefix);
    let ws = split_whitespace_chars(pc.as_slice());
    let ends = pc.len() > 0 && pc[pc.len() - 1] == ' ';
    assert(ends == ends_with_space(prefix@));
    let n = ws.len();
    let current = if ends || n == 0 { String::new() } else { ws[n - 1].clone() };
    let previous = if ends {
        if n > 0 { ws[n - 1].clone() } else { String::new() }
    } else if n >= 2 {
        ws[n - 2].clone()
    } else {
        String::new()
    };
    (current, previous)
}

/// The directory entries whose names start with `name_prefix`, named `dir` + name.
fn keep_files_exec(entries: &[(String, bool)], dir: &[char], name_prefix: &[char]) -> (r: Vec<(String, bool)>)
    ensures
        entries_view(r@) == keep_files(entries_view(entries@), dir@, name_prefix@),
{
    let ghost dv = entries_view(entries@);
    let dir_string = string_of(dir);
    let mut r: Vec<(String, bool)> = Vec::new();
    let mut i: usize = 0;
    assert(dv.take(0) == Seq::<(Seq<char>, bool)>::empty());
    assert(entries_view(r@) == Seq::<(Seq<char>, bool)>::empty());
    while i < entries.len()
        invariant
            dv == entries_view(entries@),
            dir_string@ == dir@,
            i <= entries@.len(),
            entries_view(r@) == keep_files(dv.take(i as int), dir@, name_prefix@),
        decreases entries@.len() - i,
    {
        let name = chars_of(entries[i].0.as_str());
        assert(dv.take(i + 1).drop_last() == dv.take(i as int));
        assert(dv.take(i + 1).last() == entry_view(entries@[i as int]));
        if has_prefix(name.as_slice(), name_prefix) {
            let ghost old_r = entries_view(r@);
            let mut path = dir_string.clone();
            path.append(entries[i].0.as_str());
            r.push((path, entries[i].1));
            assert(entries_view(r@) == old_r.push((dir@ + entries@[i as int].0@, entries@[i as int].1)));
        }
        i = i + 1;
    }
    assert(dv.take(entries@.len() as int) == dv);
    r
}

/// The completer's state: the line up to the cursor at the last press of tab that
/// had nothing to add, how many such presses in a row are pending (0 or 1), and the
/// completion table.
pub struct ShellHelper {
    last_prefix: String,
    tab_count: usize,
    completions: StringTable,
}

impl ShellHelper {
    #[verifier::type_invariant]
    closed spec fn presses_bounded(&self) -> bool {
        self.tab_count <= 1
    }

    /// The line remembered from the last press of tab that rang or listed.
    pub closed spec fn remembered_line(&self) -> Seq<char> {
        self.last_prefix@
    }

    /// Pending presses on the remembered line.
    pub closed spec fn presses(&self) -> nat {
        self.tab_count as nat
    }

    /// The completion table.
    pub closed spec fn table(&self) -> Map<Seq<char>, Seq<char>> {
        self.completions.view()
    }

    /// A completer with nothing remembered and the given completion table.
    pub fn new(completions: StringTable) -> (h: Self)
        ensures
            h.remembered_line() == Seq::<char>::empty(),
            h.presses() == 0,
            h.table() == completions.view(),
    {
        ShellHelper { last_prefix: String::new(), tab_count: 0, completions }
    }

    /// What to ask the outside world to complete the line `prefix` up to the cursor.
    pub fn lookup(&self, prefix: &str) -> (l: Lookup)
        ensures
            l@ == spec_lookup(self.table(), prefix@),
    {
        let pc = chars_of(prefix);
        if !contains_char(pc.as_slice(), ' ') {
            return Lookup::Commands;
        }
        let cmd_chars = before_first_chars(pc.as_slice(), ' ');
        let command = string_of(cmd_chars.as_slice());
        match self.completions.get(command.as_str()) {
            Some(script) => {
                let (current_word, previous_word) = words_at_cursor(prefix);
                let comp_point = decimal_string(byte_len(prefix));
                Lookup::Script { script, command, current_word, previous_word, comp_point }
            },
            None => {
                let arg = after_last_chars(pc.as_slice(), ' ');
                let name = after_last_chars(arg.as_slice(), '/');
                let dir = take_chars(arg.as_slice(), arg.len() - name.len());
                let read_path = if dir.len() == 0 {
                    String::from_str(".")
                } else {
                    string_of(dir.as_slice())
                };
                Lookup::Files { read_path }
            },
        }
    }

    /// The command names that complete `prefix`, given the executables found on the
    /// search path.
    pub fn get_matches(&self, prefix: &str, executables: &[String]) -> (m: Vec<String>)
        ensures
            m.deep_view() == spec_matches(prefix@, executables.deep_view()),
    {
        let mut all = builtins();
        let ghost ev = executables.deep_view();
        let mut i: usize = 0;
        assert(ev.take(0) == Seq::<Seq<char>>::empty());
        assert(builtin_names() + ev.take(0) == builtin_names());
        while i < executables.len()
            invariant
                ev == executables.deep_view(),
                i <= executables@.len(),
                all.deep_view() == builtin_names() + ev.take(i as int),
            decreases executables@.len() - i,
        {
            let ghost old_all = all.deep_view();
            all.push(executables[i].clone());
            assert(all.deep_view() == old_all.push(ev[i as int]));
            assert(ev.take(i + 1) == ev.take(i as int).push(ev[i as int]));
            assert(builtin_names() + ev.take(i + 1) == (builtin_names() + ev.take(i as int)).push(ev[i as int]));
            i = i + 1;
        }
        assert(ev.take(executables@.len() as int) == ev);
        let p = chars_of(prefix);
        let kept = keep_prefixed_exec(all.as_slice(), p.as_slice());
        let distinct = dedup_exec(kept.as_slice());
        sort_strings(distinct.as_slice())
    }

    fn reset(&mut self)
        ensures
            final(self).remembered_line() == Seq::<char>::empty(),
            final(self).presses() == 0,
            final(self).table() == old(self).table(),
    {
        self.tab_count = 0;
        self.last_prefix = String::new();
    }

    fn ring(&mut self, prefix: &str, listing: String) -> (r: Reply)
        ensures
            (r@, final(self).remembered_line(), final(self).presses()) == spec_ring(
                old(self).remembered_line(),
                old(self).presses(),
                prefix@,
                listing@,
            ),
            final(self).table() == old(self).table(),
    {
        proof {
            use_type_invariant(&*self);
        }
        let pc = chars_of(prefix);
        let same = str_is(self.last_prefix.as_str(), pc.as_slice());
        let count = if same { self.tab_count + 1 } else { 1 };
        self.last_prefix = String::from_str(prefix);
        if count == 1 {
            self.tab_count = 1;
            Reply::Bell
        } else {
            self.tab_count = 0;
            let mut text = String::from_str("\n");
            text.append(listing.as_str());
            text.append("\n$ ");
            text.append(prefix);
            Reply::Show(text)
        }
    }

    fn pick(&mut self, prefix: &str, cands: &[String], typed: &str, before: Option<String>, listing: String) -> (r: Reply)
        requires
            cands@.len() >= 2,
        ensures
            (r@, final(self).remembered_line(), final(self).presses()) == spec_pick(
                old(self).remembered_line(),
                old(self).presses(),
                prefix@,
                cands.deep_view(),
                typed@,
                match before { Some(b) => Some(b@), None => None },
                listing@,
            ),
            final(self).table() == old(self).table(),
    {
        assert(cands.deep_view()[0] == cands@[0]@);
        if !lcp_cut_on_char_boundary(cands) {
            return Reply::CutInsideChar;
        }
        let lcp = longest_common_prefix(cands);
        if byte_len(lcp.as_str()) > byte_len(typed) {
            match before {
                Some(b) => {
                    self.reset();
                    let mut replacement = b;
                    replacement.append(lcp.as_str());
                    Reply::Complete(Candidate { display: lcp, replacement })
                },
                None => Reply::CutInsideChar,
            }
        } else {
            self.ring(prefix, listing)
        }
    }

    /// A press of tab on a line without a space, given the executables found on the
    /// search path.
    pub fn complete_commands(&mut self, prefix: &str, executables: &[String]) -> (r: Reply)
        ensures
            (r@, final(self).remembered_line(), final(self).presses()) == spec_complete_commands(
                old(self).remembered_line(),
                old(self).presses(),
                prefix@,
                executables.deep_view(),
            ),
            final(self).table() == old(self).table(),
    {
        let matches = self.get_matches(prefix, executables);
        let ghost m = matches.deep_view();
        if matches.len() == 0 {
            return Reply::Nothing;
        }
        assert(m[0] == matches@[0]@);
        if matches.len() == 1 {
            self.reset();
            let display = matches[0].clone();
            let mut replacement = matches[0].clone();
            replacement.append(" ");
            return Reply::Complete(Candidate { display, replacement });
        }
        let listing = join_strings(matches.as_slice(), "  ");
        let empty = String::new();
        self.pick(prefix, matches.as_slice(), prefix, Some(empty), listing)
    }

    /// A press of tab for a command with a completion script, given what the script
    /// printed (`None` when it could not be run).
    pub fn complete_from_script(&mut self, prefix: &str, output: Option<String>) -> (r: Reply)
        ensures
            (r@, final(self).remembered_line(), final(self).presses()) == spec_complete_script(
                old(self).remembered_line(),
                old(self).presses(),
                prefix@,
                match output { Some(o) => Some(o@), None => None },
            ),
            final(self).table() == old(self).table(),
    {
        match output {
            None => Reply::Nothing,
            Some(out) => {
                let ls = lines_of(out.as_str());
                let cands = sort_strings(ls.as_slice());
                let ghost c = cands.deep_view();
                if cands.len() == 0 {
                    return Reply::Nothing;
                }
                assert(c[0] == cands@[0]@);
                let (current, _previous) = words_at_cursor(prefix);
                let before = before_word_exec(prefix, current.as_str());
                if cands.len() == 1 {
                    return match before {
                        Some(b) => {
                            let display = cands[0].clone();
                            let mut replacement = b;
                            replacement.append(cands[0].as_str());
                            replacement.append(" ");
                            Reply::Complete(Candidate { display, replacement })
                        },
                        None => Reply::CutInsideChar,
                    };
                }
                let listing = join_strings(cands.as_slice(), "  ");
                self.pick(prefix, cands.as_slice(), current.as_str(), before, listing)
            },
        }
    }

    /// A press of tab for a file name, given the entries (name, is a directory) of the
    /// directory that [`Lookup::Files`] named.
    pub fn complete_files(&mut self, prefix: &str, entries: &[(String, bool)]) -> (r: Reply)
        ensures
            (r@, final(self).remembered_line(), final(self).presses()) == spec_complete_files(
                old(self).remembered_line(),
                old(self).presses(),
                prefix@,
                entries_view(entries@),
            ),
            final(self).table() == old(self).table(),
    {
        let pc = chars_of(prefix);
        let arg = after_last_chars(pc.as_slice(), ' ');
        let name = after_last_chars(arg.as_slice(), '/');
        let dir = take_chars(arg.as_slice(), arg.len() - name.len());
        let kept = keep_files_exec(entries, dir.as_slice(), name.as_slice());
        let matches = sort_entries(kept.as_slice());
        let ghost m = entries_view(matches@);
        assert(m == spec_file_matches(prefix@, entries_view(entries@)));
        let head_chars = take_chars(pc.as_slice(), pc.len() - arg.len());
        let head = string_of(head_chars.as_slice());
        if matches.len() == 0 {
            return Reply::Nothing;
        }
        assert(m[0] == entry_view(matches@[0]));
        if matches.len() == 1 {
            self.reset();
            let display = matches[0].0.clone();
            let mut replacement = head;
            replacement.append(matches[0].0.as_str());
            if matches[0].1 {
                replacement.append("/");
            } else {
                replacement.append(" ");
            }
            return Reply::Complete(Candidate { display, replacement });
        }
        let mut names: Vec<String> = Vec::new();
        let mut shown: Vec<String> = Vec::new();
        let mut i: usize = 0;
        while i < matches.len()
            invariant
                m == entries_view(matches@),
                i <= matches@.len(),
                names.deep_view() == entry_names(m).take(i as int),
                shown.deep_view() == entry_displays(m).take(i as int),
            decreases matches@.len() - i,
        {
            assert(m[i as int] == entry_view(matches@[i as int]));
            let ghost old_names = names.deep_view();
            let ghost old_shown = shown.deep_view();
            names.push(matches[i].0.clone());
            let mut d = matches[i].0.clone();
            if matches[i].1 {
                d.append("/");
            }
            shown.push(d);
            assert(names.deep_view() == old_names.push(m[i as int].0));
            assert(entry_names(m).take(i + 1) == entry_names(m).take(i as int).push(m[i as int].0));
            assert(entry_displays(m).take(i + 1) == entry_displays(m).take(i as int).push(entry_displays(m)[i as int]));
            assert(shown.deep_view() == old_shown.push(entry_displays(m)[i as int]));
            i = i + 1;
        }
        assert(entry_names(m).take(m.len() as int) == entry_names(m));
        assert(entry_displays(m).take(m.len() as int) == entry_displays(m));
        let listing = join_strings(shown.as_slice(), "  ");
        let typed = string_of(arg.as_slice());
        self.pick(prefix, names.as_slice(), typed.as_str(), Some(head), listing)
    }

    /// Runs the `complete` builtin on the completion table (see
    /// [`spec_complete_builtin`]); the result is the line to print, if any.
    pub fn complete_builtin(&mut self, args: &[String]) -> (out: Option<String>)
        ensures
            (match out { Some(o) => Some(o@), None => None }, final(self).table())
                == spec_complete_builtin(old(self).table(), args.deep_view()),
            final(self).remembered_line() == old(self).remembered_line(),
            final(self).presses() == old(self).presses(),
    {
        proof {
            use_type_invariant(&*self);
        }
        let mut table = StringTable::new();
        std::mem::swap(&mut table, &mut self.completions);
        let out = complete_builtin(&mut table, args);
        self.completions = table;
        out
    }
}


/// Pressing tab again on the same line after the bell lists the candidates, and
/// pressing again after a listing rings the bell: the two alternate. A press on a
/// line other than the remembered one always rings the bell.
pub proof fn law_ring_alternates(last: Seq<char>, count: nat, prefix: Seq<char>, listing: Seq<char>)
    requires
        count <= 1,
    ensures
        ({
            let (r1, last1, count1) = spec_ring(last, count, prefix, listing);
            let (r2, _last2, _count2) = spec_ring(last1, count1, prefix, listing);
            &&& r1 is Bell ==> r2 == ReplyView::Show(show_text(listing, prefix))
            &&& r1 is Show ==> r2 is Bell
            &&& last != prefix ==> r1 is Bell
        }),
{
}

/// After a completion the state is cleared, so the next press that has nothing to
/// add rings the bell.
pub proof fn law_bell_after_reset(prefix: Seq<char>, listing: Seq<char>)
    ensures
        spec_ring(seq![], 0, prefix, listing).0 is Bell,
{
}

proof fn lemma_keep_prefixed(s: Seq<Seq<char>>, p: Seq<char>)
    ensures
        forall|w: Seq<char>| #[trigger] keep_prefixed(s, p).contains(w) <==> (s.contains(w) && p.is_prefix_of(w)),
    decreases s.len(),
{
    if s.len() > 0 {
        let init = s.drop_last();
        lemma_keep_prefixed(init, p);
        assert(s == init.push(s.last()));
        assert forall|w: Seq<char>| #[trigger] keep_prefixed(s, p).contains(w) <==> (s.contains(w) && p.is_prefix_of(w)) by {
            let k = keep_prefixed(init, p);
            if p.is_prefix_of(s.last()) {
                assert(keep_prefixed(s, p) == k.push(s.last()));
                if k.push(s.last()).contains(w) {
                    let j = choose|j: int| 0 <= j < k.push(s.last()).len() && k.push(s.last())[j] == w;
                    if j < k.len() {
                        assert(k.contains(w));
                    }
                }
                if k.contains(w) {
                    let j = choose|j: int| 0 <= j < k.len() && k[j] == w;
                    assert(k.push(s.last())[j] == w);
                }
                assert(k.push(s.last())[k.len() as int] == s.last());
            }
            if s.contains(w) {
                let j = choose|j: int| 0 <= j < s.len() && s[j] == w;
                if j < init.len() {
                    assert(init[j] == w);
                }
            }
            if init.contains(w) {
                let j = choose|j: int| 0 <= j < init.len() && init[j] == w;
                assert(s[j] == w);
            }
        }
    }
}

proof fn lemma_dedup(s: Seq<Seq<char>>)
    ensures
        dedup(s).no_duplicates(),
        forall|w: Seq<char>| #[trigger] dedup(s).contains(w) <==> s.contains(w),
    decreases s.len(),
{
    if s.len() > 0 {
        let init = s.drop_last();
        lemma_dedup(init);
        let d = dedup(init);
        assert(s == init.push(s.last()));
        if !d.contains(s.last()) {
            let e = d.push(s.last());
            assert forall|i: int, j: int| 0 <= i < e.len() && 0 <= j < e.len() && i != j implies e[i] != e[j] by {
                if i == d.len() as int {
                    assert(d[j] == e[j]);
                } else if j == d.len() as int {
                    assert(d[i] == e[i]);
                }
            }
        }
        assert forall|w: Seq<char>| #[trigger] dedup(s).contains(w) <==> s.contains(w) by {
            if d.push(s.last()).contains(w) {
                let j = choose|j: int| 0 <= j < d.push(s.last()).len() && d.push(s.last())[j] == w;
                if j < d.len() {
                    assert(d.contains(w));
                }
            }
            if d.contains(w) {
                let j = choose|j: int| 0 <= j < d.len() && d[j] == w;
                assert(d.push(s.last())[j] == w);
            }
            assert(d.push(s.last())[d.len() as int] == s.last());
            if s.contains(w) {
                let j = choose|j: int| 0 <= j < s.len() && s[j] == w;
                if j < init.len() {
                    assert(init[j] == w);
                }
            }
            if init.contains(w) {
                let j = choose|j: int| 0 <= j < init.len() && init[j] == w;
                assert(s[j] == w);
            }
        }
    }
}

/// The command completions of `prefix` are in strictly ascending order, and they
/// are exactly the builtins and the executables that start with `prefix`.
pub proof fn law_matches(prefix: Seq<char>, executables: Seq<Seq<char>>)
    ensures
        sorted(spec_matches(prefix, executables)),
        spec_matches(prefix, executables).no_duplicates(),
        forall|w: Seq<char>| #[trigger] spec_matches(prefix, executables).contains(w) <==> (
            (builtin_names().contains(w) || executables.contains(w)) && prefix.is_prefix_of(w)),
{
    let all = builtin_names() + executables;
    let k = keep_prefixed(all, prefix);
    let d = dedup(k);
    let m = spec_matches(prefix, executables);
    lemma_keep_prefixed(all, prefix);
    lemma_dedup(k);
    lemma_sort_by_key(d, |w: Seq<char>| w);
    d.lemma_multiset_has_no_duplicates();
    assert forall|w: Seq<char>| m.to_multiset().contains(w) implies m.to_multiset().count(w) == 1 by {
        assert(d.to_multiset().contains(w));
    }
    m.lemma_multiset_has_no_duplicates_conv();
    assert forall|w: Seq<char>| #[trigger] m.contains(w) <==> d.contains(w) by {
        vstd::seq_lib::to_multiset_contains(m, w);
        vstd::seq_lib::to_multiset_contains(d, w);
    }
    assert forall|w: Seq<char>| #[trigger] all.contains(w) <==> (builtin_names().contains(w) || executables.contains(w)) by {
        if all.contains(w) {
            let j = choose|j: int| 0 <= j < all.len() && all[j] == w;
            if j < builtin_names().len() {
                assert(builtin_names()[j] == w);
            } else {
                assert(executables[j - builtin_names().len()] == w);
            }
        }
        if builtin_names().contains(w) {
            let j = choose|j: int| 0 <= j < builtin_names().len() && builtin_names()[j] == w;
            assert(all[j] == w);
        }
        if executables.contains(w) {
            let j = choose|j: int| 0 <= j < executables.len() && executables[j] == w;
            assert(all[j + builtin_names().len()] == w);
        }
    }
}

/// With a single file candidate, a directory is completed with a trailing `/` and
/// anything else with a trailing space, after the words before it.
pub proof fn law_single_file_candidate(last: Seq<char>, count: nat, prefix: Seq<char>, entries: Seq<(Seq<char>, bool)>)
    requires
        spec_file_matches(prefix, entries).len() == 1,
    ensures
        ({
            let m = spec_file_matches(prefix, entries)[0];
            let head = prefix.take(prefix.len() - arg_prefix(prefix).len());
            &&& spec_complete_files(last, count, prefix, entries).0 == ReplyView::Complete(
                m.0,
                head + m.0 + (if m.1 { "/"@ } else { " "@ }),
            )
            &&& spec_complete_files(last, count, prefix, entries).1 == Seq::<char>::empty()
        }),
{
}

/// With several file candidates, a completion puts the candidates' common prefix in
/// place of the word being completed: what is shown is that common prefix, and the
/// line up to the cursor becomes the text before the word followed by it. The
/// completion comes exactly when the common prefix is longer, in bytes, than the
/// word typed. A listing shows the candidates two spaces apart, directories with a
/// trailing `/`, then a new prompt with the line.
pub proof fn law_file_common_prefix(last: Seq<char>, count: nat, prefix: Seq<char>, entries: Seq<(Seq<char>, bool)>)
    requires
        spec_file_matches(prefix, entries).len() >= 2,
    ensures
        ({
            let names = entry_names(spec_file_matches(prefix, entries));
            let word = arg_prefix(prefix);
            let reply = spec_complete_files(last, count, prefix, entries).0;
            &&& reply is Complete <==> (
                is_char_boundary(encode_utf8(names[0]), lcp_cut(names) as int)
                && encode_utf8(lcp_text(names)).len() > encode_utf8(word).len())
            &&& reply matches ReplyView::Complete(shown, line) ==> (
                shown == lcp_text(names)
                && line == prefix.take(prefix.len() - word.len()) + lcp_text(names))
            &&& reply matches ReplyView::Show(text) ==> text == "\n"@ + join_with(
                Seq::new(names.len(), |k: int| if spec_file_matches(prefix, entries)[k].1 { names[k] + "/"@ } else { names[k] }),
                "  "@,
            ) + "\n$ "@ + prefix
        }),
{
    let m = spec_file_matches(prefix, entries);
    let names = entry_names(m);
    assert(entry_displays(m) == Seq::new(names.len(), |k: int| if m[k].1 { names[k] + "/"@ } else { names[k] }));
}

proof fn lemma_split_ws_any(a: Seq<char>, t: Seq<char>, words: Seq<Seq<char>>, word: Seq<char>) -> (r: (Seq<Seq<char>>, Seq<char>))
    ensures
        split_ws_from(a + t, words, word) == split_ws_from(t, r.0, r.1),
    decreases a.len(),
{
    if a.len() == 0 {
        assert(a + t == t);
        (words, word)
    } else {
        assert((a + t)[0] == a[0]);
        assert((a + t).drop_first() == a.drop_first() + t);
        if is_white_space(a[0]) {
            lemma_split_ws_any(a.drop_first(), t, push_word(words, word), seq![])
        } else {
            lemma_split_ws_any(a.drop_first(), t, words, word.push(a[0]))
        }
    }
}

proof fn lemma_split_ws_word(w: Seq<char>, t: Seq<char>, words: Seq<Seq<char>>, word: Seq<char>)
    requires
        forall|i: int| 0 <= i < w.len() ==> !is_white_space(#[trigger] w[i]),
    ensures
        split_ws_from(w + t, words, word) == split_ws_from(t, words, word + w),
    decreases w.len(),
{
    if w.len() == 0 {
        assert(w + t == t);
        assert(word + w == word);
    } else {
        assert((w + t)[0] == w[0]);
        assert((w + t).drop_first() == w.drop_first() + t);
        assert forall|i: int| 0 <= i < w.drop_first().len() implies !is_white_space(#[trigger] w.drop_first()[i]) by {
            assert(w.drop_first()[i] == w[i + 1]);
        }
        lemma_split_ws_word(w.drop_first(), t, words, word.push(w[0]));
        assert(word.push(w[0]) + w.drop_first() == word + w);
    }
}

/// A completion script is told, as the word being completed, the last word of the
/// line and, as the previous word, the one right before it; after a trailing space
/// the word being completed is empty and the previous word is the last one typed.
pub proof fn law_script_words(
    table: Map<Seq<char>, Seq<char>>,
    before: Seq<char>,
    w1: Seq<char>,
    w2: Seq<char>,
)
    requires
        w1.len() > 0,
        w2.len() > 0,
        forall|i: int| 0 <= i < w1.len() ==> !is_white_space(#[trigger] w1[i]),
        forall|i: int| 0 <= i < w2.len() ==> !is_white_space(#[trigger] w2[i]),
    ensures
        ({
            let line = before + seq![' '] + w1 + seq![' '] + w2;
            &&& current_word(line) == w2
            &&& previous_word(line) == w1
            &&& spec_lookup(table, line) matches LookupView::Script(_, _, cw, pw, _) ==> cw == w2 && pw == w1
        }),
        ({
            let line = before + seq![' '] + w1 + seq![' '];
            &&& current_word(line) == Seq::<char>::empty()
            &&& previous_word(line) == w1
            &&& spec_lookup(table, line) matches LookupView::Script(_, _, cw, pw, _) ==> cw.len() == 0 && pw == w1
        }),
{
    let e = Seq::<char>::empty();
    let tail = seq![' '] + w1 + seq![' '] + w2;
    let line = before + seq![' '] + w1 + seq![' '] + w2;
    assert(line == before + tail);
    let (x, y) = lemma_split_ws_any(before, tail, seq![], seq![]);
    let p = push_word(x, y);
    // the space before w1
    assert(tail[0] == ' ');
    assert(tail.drop_first() == w1 + (seq![' '] + w2));
    assert(split_ws_from(tail, x, y) == split_ws_from(w1 + (seq![' '] + w2), p, e));
    lemma_split_ws_word(w1, seq![' '] + w2, p, e);
    assert(e + w1 == w1);
    // the space before w2
    let t2 = seq![' '] + w2;
    assert(t2[0] == ' ');
    assert(t2.drop_first() == w2);
    assert(split_ws_from(t2, p, w1) == split_ws_from(w2, p.push(w1), e));
    assert(w2 == w2 + e);
    lemma_split_ws_word(w2, e, p.push(w1), e);
    assert(e + w2 == w2);
    let ws = split_ws(line);
    assert(ws == p.push(w1).push(w2));
    assert(line.last() == w2.last());
    assert(!ends_with_space(line));
    assert(ws[ws.len() - 2] == w1);

    let tail2 = seq![' '] + w1 + seq![' '];
    let line2 = before + seq![' '] + w1 + seq![' '];
    assert(line2 == before + tail2);
    let (x2, y2) = lemma_split_ws_any(before, tail2, seq![], seq![]);
    let p2 = push_word(x2, y2);
    assert(tail2[0] == ' ');
    assert(tail2.drop_first() == w1 + seq![' ']);
    assert(split_ws_from(tail2, x2, y2) == split_ws_from(w1 + seq![' '], p2, e));
    lemma_split_ws_word(w1, seq![' '], p2, e);
    let t3 = seq![' '];
    assert(t3.drop_first() == e);
    assert(split_ws_from(t3, p2, w1) == split_ws_from(e, p2.push(w1), e));
    let ws2 = split_ws(line2);
    assert(ws2 == p2.push(w1));
    assert(line2.last() == ' ');
    assert(ends_with_space(line2));
    assert(line.contains(' ')) by {
        assert(line[before.len() as int] == ' ');
    }
    assert(line2.contains(' ')) by {
        assert(line2[before.len() as int] == ' ');
    }
}

proof fn lemma_after_last_suffix(s: Seq<char>, c: char)
    ensures
        after_last(s, c).len() <= s.len(),
        after_last(s, c) == s.skip(s.len() - after_last(s, c).len()),
    decreases s.len(),
{
    if s.len() > 0 {
        lemma_after_last_suffix(s.drop_last(), c);
        if s.last() != c {
            let a = after_last(s.drop_last(), c);
            let k = s.len() - 1 - a.len();
            assert(s.drop_last().skip(k).push(s.last()) == s.skip(k));
        } else {
            assert(s.skip(s.len() as int) == Seq::<char>::empty());
        }
    } else {
        assert(s.skip(0) == s);
    }
}

/// Whether `c` is `dir` followed by the name of an entry whose name starts with
/// `name_prefix`, with that entry's directory flag.
pub open spec fn names_entry(entries: Seq<(Seq<char>, bool)>, dir: Seq<char>, name_prefix: Seq<char>, c: (Seq<char>, bool)) -> bool {
    exists|j: int| 0 <= j < entries.len() && name_prefix.is_prefix_of(entries[j].0)
        && c.0 == dir + entries[j].0 && c.1 == entries[j].1
}

proof fn lemma_keep_files(entries: Seq<(Seq<char>, bool)>, dir: Seq<char>, name_prefix: Seq<char>)
    ensures
        forall|k: int| 0 <= k < keep_files(entries, dir, name_prefix).len()
            ==> names_entry(entries, dir, name_prefix, #[trigger] keep_files(entries, dir, name_prefix)[k]),
        forall|j: int| 0 <= j < entries.len() && name_prefix.is_prefix_of(#[trigger] entries[j].0) ==>
            keep_files(entries, dir, name_prefix).contains((dir + entries[j].0, entries[j].1)),
    decreases entries.len(),
{
    if entries.len() > 0 {
        let init = entries.drop_last();
        let last = entries.last();
        lemma_keep_files(init, dir, name_prefix);
        let r0 = keep_files(init, dir, name_prefix);
        let r = keep_files(entries, dir, name_prefix);
        assert forall|k: int| 0 <= k < r.len() implies names_entry(entries, dir, name_prefix, #[trigger] r[k]) by {
            if k < r0.len() {
                assert(r[k] == r0[k]);
                assert(names_entry(init, dir, name_prefix, r0[k]));
                let j = choose|j: int| 0 <= j < init.len() && name_prefix.is_prefix_of(init[j].0)
                    && r0[k].0 == dir + init[j].0 && r0[k].1 == init[j].1;
                assert(entries[j] == init[j]);
            } else {
                assert(name_prefix.is_prefix_of(last.0));
                assert(r[k] == (dir + last.0, last.1));
                assert(entries[entries.len() - 1] == last);
            }
        }
        assert forall|j: int| 0 <= j < entries.len() && name_prefix.is_prefix_of(#[trigger] entries[j].0) implies
            r.contains((dir + entries[j].0, entries[j].1)) by {
            if j < init.len() {
                assert(init[j] == entries[j]);
                assert(name_prefix.is_prefix_of(init[j].0));
                assert(r0.contains((dir + init[j].0, init[j].1)));
                let k = choose|k: int| 0 <= k < r0.len() && r0[k] == (dir + init[j].0, init[j].1);
                if name_prefix.is_prefix_of(last.0) {
                    assert(r[k] == r0[k]);
                }
            } else {
                assert(entries[j] == last);
                assert(r[r.len() - 1] == (dir + last.0, last.1));
            }
        }
    }
}

/// The file candidates are in ascending order of path; each is an entry of the
/// directory whose name starts with the typed file-name part, named by the typed
/// directory part followed by the entry's name, so that it starts with the word
/// being completed; and every such entry is a candidate.
pub proof fn law_file_candidates(prefix: Seq<char>, entries: Seq<(Seq<char>, bool)>)
    ensures
        ({
            let word = arg_prefix(prefix);
            let m = spec_file_matches(prefix, entries);
            &&& sorted_by_key(m, |e: (Seq<char>, bool)| e.0)
            &&& forall|k: int| 0 <= k < m.len() ==> word.is_prefix_of(#[trigger] m[k].0)
            &&& forall|k: int| 0 <= k < m.len() ==> names_entry(entries, file_dir(word), file_name_prefix(word), #[trigger] m[k])
            &&& forall|j: int| 0 <= j < entries.len() && file_name_prefix(word).is_prefix_of(#[trigger] entries[j].0)
                ==> m.contains((file_dir(word) + entries[j].0, entries[j].1))
        }),
{
    let word = arg_prefix(prefix);
    let dir = file_dir(word);
    let np = file_name_prefix(word);
    let key = |e: (Seq<char>, bool)| e.0;
    let kept = keep_files(entries, dir, np);
    let m = spec_file_matches(prefix, entries);
    lemma_keep_files(entries, dir, np);
    lemma_sort_by_key(kept, key);
    lemma_after_last_suffix(word, '/');
    assert(dir + np == word);
    assert forall|k: int| 0 <= k < m.len() implies names_entry(entries, dir, np, #[trigger] m[k]) by {
        assert(m.contains(m[k]));
        vstd::seq_lib::to_multiset_contains(m, m[k]);
        vstd::seq_lib::to_multiset_contains(kept, m[k]);
        let i = choose|i: int| 0 <= i < kept.len() && kept[i] == m[k];
        assert(names_entry(entries, dir, np, kept[i]));
    }
    assert forall|k: int| 0 <= k < m.len() implies word.is_prefix_of(#[trigger] m[k].0) by {
        assert(names_entry(entries, dir, np, m[k]));
        let j = choose|j: int| 0 <= j < entries.len() && np.is_prefix_of(entries[j].0)
            && m[k].0 == dir + entries[j].0 && m[k].1 == entries[j].1;
        let name = entries[j].0;
        assert forall|i: int| 0 <= i < word.len() implies m[k].0[i] == word[i] by {
            if i < dir.len() {
                assert(m[k].0[i] == dir[i]);
                assert(word[i] == dir[i]);
            } else {
                assert(m[k].0[i] == name[i - dir.len()]);
                assert(name[i - dir.len()] == np[i - dir.len()]);
                assert(word[i] == np[i - dir.len()]);
            }
        }
    }
    assert forall|j: int| 0 <= j < entries.len() && np.is_prefix_of(#[trigger] entries[j].0) implies
        m.contains((dir + entries[j].0, entries[j].1)) by {
        let c = (dir + entries[j].0, entries[j].1);
        assert(kept.contains(c));
        vstd::seq_lib::to_multiset_contains(kept, c);
        vstd::seq_lib::to_multiset_contains(m, c);
    }
}

/// With no file candidate, a press of tab offers nothing and changes nothing.
pub proof fn law_no_file_candidate(last: Seq<char>, count: nat, prefix: Seq<char>, entries: Seq<(Seq<char>, bool)>)
    requires
        forall|j: int| 0 <= j < entries.len() ==> !file_name_prefix(arg_prefix(prefix)).is_prefix_of(#[trigger] entries[j].0),
    ensures
        spec_complete_files(last, count, prefix, entries) == (ReplyView::Nothing, last, count),
{
    let word = arg_prefix(prefix);
    let kept = keep_files(entries, file_dir(word), file_name_prefix(word));
    lemma_keep_files(entries, file_dir(word), file_name_prefix(word));
    lemma_sort_by_key(kept, |e: (Seq<char>, bool)| e.0);
    if kept.len() > 0 {
        assert(names_entry(entries, file_dir(word), file_name_prefix(word), kept[0]));
    }
}

} // verus!
