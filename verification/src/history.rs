//! The command history: the lines entered, the `history` builtin's listing and its
//! reading, writing and appending of history files.
use vstd::prelude::*;
use vstd::string::StringExecFns;
use crate::text::{chars_of, decimal, decimal_string, digit_char, lines, lines_of, str_is, string_of, trim, trim_chars};

verus! {

/// `s` right-aligned in five columns.
pub open spec fn pad5(s: Seq<char>) -> Seq<char> {
    if s.len() < 5 { Seq::new((5 - s.len()) as nat, |_i: int| ' ') + s } else { s }
}

/// Line `index` (counted from 0) of the `history` listing.
pub open spec fn history_line(index: nat, entry: Seq<char>) -> Seq<char> {
    pad5(decimal(index + 1)) + "  "@ + entry
}

/// The listing of the entries from `from` on, each numbered by its place.
pub open spec fn history_lines(entries: Seq<Seq<char>>, from: nat) -> Seq<Seq<char>> {
    Seq::new((entries.len() - from) as nat, |k: int| history_line((from + k) as nat, entries[from + k]))
}

pub open spec fn is_digit(c: char) -> bool {
    '0' <= c && c <= '9'
}

/// The number that decimal digits stand for.
pub open spec fn digits_value(s: Seq<char>) -> nat
    decreases s.len(),
{
    if s.len() == 0 { 0 } else { digits_value(s.drop_last()) * 10 + (s.last() as nat - '0' as nat) as nat }
}

pub open spec fn all_digits(s: Seq<char>) -> bool {
    s.len() > 0 && forall|i: int| 0 <= i < s.len() ==> is_digit(#[trigger] s[i])
}

/// The entries as a history file holds them: one per line.
pub open spec fn file_text(entries: Seq<Seq<char>>) -> Seq<char>
    decreases entries.len(),
{
    if entries.len() == 0 { seq![] } else { file_text(entries.drop_last()) + entries.last() + "\n"@ }
}

/// The non-blank lines of a history file's text.
pub open spec fn file_entries(text: Seq<char>) -> Seq<Seq<char>> {
    keep_nonblank(lines(text))
}

pub open spec fn keep_nonblank(ls: Seq<Seq<char>>) -> Seq<Seq<char>>
    decreases ls.len(),
{
    if ls.len() == 0 {
        seq![]
    } else if trim(ls.last()).len() == 0 {
        keep_nonblank(ls.drop_last())
    } else {
        keep_nonblank(ls.drop_last()).push(ls.last())
    }
}

/// What the `history` builtin asks for.
pub enum HistoryAction {
    /// Print these lines.
    Print(Vec<String>),
    /// Read the file at this path and add its lines (see [`History::add_text`]).
    Read(String),
    /// Write this text to the file at this path, replacing it.
    Write(String, String),
    /// Append this text to the file at this path.
    Append(String, String),
    /// Do nothing.
    Nothing,
}

pub enum HistoryActionView {
    Print(Seq<Seq<char>>),
    Read(Seq<char>),
    Write(Seq<char>, Seq<char>),
    Append(Seq<char>, Seq<char>),
    Nothing,
}

impl View for HistoryAction {
    type V = HistoryActionView;

    open spec fn view(&self) -> HistoryActionView {
        match self {
            HistoryAction::Print(ls) => HistoryActionView::Print(ls.deep_view()),
            HistoryAction::Read(p) => HistoryActionView::Read(p@),
            HistoryAction::Write(p, t) => HistoryActionView::Write(p@, t@),
            HistoryAction::Append(p, t) => HistoryActionView::Append(p@, t@),
            HistoryAction::Nothing => HistoryActionView::Nothing,
        }
    }
}

/// What `history ARGS` does, given the entries and how many of them are already in
/// the file that `-a` appends to: the action and the new count.
/// `history` lists every entry, `history N` the last N; `-r FILE` reads FILE,
/// `-w FILE` writes all entries to it, `-a FILE` appends those not yet appended;
/// anything else that is not a number is refused.
pub open spec fn spec_history(entries: Seq<Seq<char>>, appended: nat, args: Seq<Seq<char>>) -> (HistoryActionView, nat) {
    if args.len() == 0 {
        (HistoryActionView::Print(history_lines(entries, 0)), appended)
    } else if args[0] == "-r"@ {
        if args.len() >= 2 { (HistoryActionView::Read(args[1]), appended) } else { (HistoryActionView::Nothing, appended) }
    } else if args[0] == "-w"@ {
        if args.len() >= 2 {
            (HistoryActionView::Write(args[1], file_text(entries)), entries.len())
        } else {
            (HistoryActionView::Nothing, appended)
        }
    } else if args[0] == "-a"@ {
        if args.len() >= 2 {
            (HistoryActionView::Append(args[1], file_text(entries.skip(appended as int))), entries.len())
        } else {
            (HistoryActionView::Nothing, appended)
        }
    } else if all_digits(args[0]) {
        let n = if digits_value(args[0]) < entries.len() { digits_value(args[0]) } else { entries.len() };
        (HistoryActionView::Print(history_lines(entries, (entries.len() - n) as nat)), appended)
    } else {
        (HistoryActionView::Print(seq!["history: "@ + args[0] + ": numeric argument required"@]), appended)
    }
}

/// The lines entered, oldest first, and how many of them `history -a` has already
/// appended to a file.
pub struct History {
    entries: Vec<String>,
    appended: usize,
}

impl History {
    #[verifier::type_invariant]
    closed spec fn appended_within(&self) -> bool {
        self.appended <= self.entries.len()
    }

    pub closed spec fn entries(&self) -> Seq<Seq<char>> {
        self.entries.deep_view()
    }

    pub closed spec fn appended(&self) -> nat {
        self.appended as nat
    }

    /// An empty history.
    pub fn new() -> (h: Self)
        ensures
            h.entries() == Seq::<Seq<char>>::empty(),
            h.appended() == 0,
    {
        let h = History { entries: Vec::new(), appended: 0 };
        assert(h.entries() == Seq::<Seq<char>>::empty());
        h
    }

    /// Records an entered line, unless it is blank.
    pub fn record(&mut self, line: &str)
        ensures
            final(self).entries() == (if trim(line@).len() == 0 { old(self).entries() } else { old(self).entries().push(line@) }),
            final(self).appended() == old(self).appended(),
    {
        proof {
            use_type_invariant(&*self);
        }
        let cs = chars_of(line);
        let t = trim_chars(cs.as_slice());
        if t.len() > 0 {
            let saved = self.appended;
            self.appended = 0;
            let mut entries: Vec<String> = Vec::new();
            std::mem::swap(&mut entries, &mut self.entries);
            let ghost old_entries = entries.deep_view();
            entries.push(String::from_str(line));
            assert(entries.deep_view() == old_entries.push(line@));
            self.entries = entries;
            self.appended = saved;
        }
    }

    /// Adds the non-blank lines of a history file's text.
    pub fn add_text(&mut self, text: &str)
        ensures
            final(self).entries() == old(self).entries() + file_entries(text@),
            final(self).appended() == old(self).appended(),
    {
        proof {
            use_type_invariant(&*self);
        }
        let ls = lines_of(text);
        let ghost lv = ls.deep_view();
        let saved = self.appended;
        self.appended = 0;
        let mut entries: Vec<String> = Vec::new();
        std::mem::swap(&mut entries, &mut self.entries);
        let ghost start = entries.deep_view();
        let mut i: usize = 0;
        assert(lv.take(0) == Seq::<Seq<char>>::empty());
        assert(start + keep_nonblank(Seq::<Seq<char>>::empty()) == start);
        while i < ls.len()
            invariant
                lv == ls.deep_view(),
                i <= lv.len(),
                entries.deep_view() == start + keep_nonblank(lv.take(i as int)),
            decreases lv.len() - i,
        {
            assert(lv.take(i + 1).drop_last() == lv.take(i as int));
            assert(lv.take(i + 1).last() == ls@[i as int]@);
            let cs = chars_of(ls[i].as_str());
            let t = trim_chars(cs.as_slice());
            if t.len() > 0 {
                let ghost old_entries = entries.deep_view();
                entries.push(ls[i].clone());
                assert(entries.deep_view() == old_entries.push(ls@[i as int]@));
                assert(start + keep_nonblank(lv.take(i as int)).push(ls@[i as int]@)
                    == (start + keep_nonblank(lv.take(i as int))).push(ls@[i as int]@));
            }
            i = i + 1;
        }
        assert(lv.take(lv.len() as int) == lv);
        self.entries = entries;
        self.appended = saved;
    }

    /// Counts every entry as already in the file that `-a` appends to (after the
    /// history was loaded from that file).
    pub fn mark_saved(&mut self)
        ensures
            final(self).entries() == old(self).entries(),
            final(self).appended() == old(self).entries().len(),
    {
        self.appended = self.entries.len();
    }

    /// The text of all entries, one per line, as written to a history file.
    pub fn text(&self) -> (t: String)
        ensures
            t@ == file_text(self.entries()),
    {
        assert(self.entries().skip(0) == self.entries());
        text_of(self.entries.as_slice(), 0)
    }

    /// The `history` builtin.
    pub fn run(&mut self, args: &[String]) -> (action: HistoryAction)
        ensures
            (action@, final(self).appended()) == spec_history(old(self).entries(), old(self).appended(), args.deep_view()),
            final(self).entries() == old(self).entries(),
    {
        proof {
            use_type_invariant(&*self);
            reveal_strlit("-r");
            reveal_strlit("-w");
            reveal_strlit("-a");
            assert("-r"@ =~= seq!['-', 'r']);
            assert("-w"@ =~= seq!['-', 'w']);
            assert("-a"@ =~= seq!['-', 'a']);
        }
        let ghost a = args.deep_view();
        let ghost es = self.entries();
        let n = self.entries.len();
        if args.len() == 0 {
            return HistoryAction::Print(listing(self.entries.as_slice(), 0));
        }
        assert(a[0] == args@[0]@);
        let first = args[0].as_str();
        let dash_r: [char; 2] = ['-', 'r'];
        let dash_w: [char; 2] = ['-', 'w'];
        let dash_a: [char; 2] = ['-', 'a'];
        assert(dash_r@ =~= seq!['-', 'r']);
        assert(dash_w@ =~= seq!['-', 'w']);
        assert(dash_a@ =~= seq!['-', 'a']);
        if str_is(first, &dash_r) {
            if args.len() >= 2 {
                assert(a[1] == args@[1]@);
                return HistoryAction::Read(args[1].clone());
            }
            return HistoryAction::Nothing;
        }
        if str_is(first, &dash_w) {
            assert(a[0] != "-r"@);
            if args.len() >= 2 {
                assert(a[1] == args@[1]@);
                let t = text_of(self.entries.as_slice(), 0);
                assert(es.skip(0) == es);
                self.appended = n;
                return HistoryAction::Write(args[1].clone(), t);
            }
            return HistoryAction::Nothing;
        }
        if str_is(first, &dash_a) {
            assert(a[0] != "-r"@ && a[0] != "-w"@);
            if args.len() >= 2 {
                assert(a[1] == args@[1]@);
                let t = text_of(self.entries.as_slice(), self.appended);
                self.appended = n;
                return HistoryAction::Append(args[1].clone(), t);
            }
            return HistoryAction::Nothing;
        }
        assert(a[0] != "-r"@ && a[0] != "-w"@ && a[0] != "-a"@);
        let fc = chars_of(first);
        match capped_value(fc.as_slice(), n) {
            Some(count) => HistoryAction::Print(listing(self.entries.as_slice(), n - count)),
            None => {
                let mut line = String::from_str("history: ");
                line.append(first);
                line.append(": numeric argument required");
                let mut out: Vec<String> = Vec::new();
                out.push(line);
                assert(out.deep_view() == seq!["history: "@ + a[0] + ": numeric argument required"@]);
                HistoryAction::Print(out)
            },
        }
    }
}

/// `s` right-aligned in five columns.
fn pad5_exec(s: String) -> (r: String)
    ensures
        r@ == pad5(s@),
{
    let cs = chars_of(s.as_str());
    if cs.len() < 5 {
        let mut r = String::new();
        let mut k: usize = 0;
        while k < 5 - cs.len()
            invariant
                cs@.len() < 5,
                k <= 5 - cs@.len(),
                r@ == Seq::new(k as nat, |_i: int| ' '),
            decreases 5 - cs@.len() - k,
        {
            r.push(' ');
            k = k + 1;
            assert(r@ == Seq::new(k as nat, |_i: int| ' '));
        }
        r.append(s.as_str());
        r
    } else {
        s
    }
}

/// The listing of `entries[from..]`.
fn listing(entries: &[String], from: usize) -> (ls: Vec<String>)
    requires
        from <= entries@.len(),
    ensures
        ls.deep_view() == history_lines(entries.deep_view(), from as nat),
{
    let ghost es = entries.deep_view();
    let mut ls: Vec<String> = Vec::new();
    let mut i = from;
    while i < entries.len()
        invariant
            es == entries.deep_view(),
            from <= i <= entries@.len(),
            ls@.len() == i - from,
            forall|k: int| 0 <= k < i - from ==> (#[trigger] ls@[k])@ == history_line((from + k) as nat, es[from + k]),
        decreases entries@.len() - i,
    {
        assert(i + 1 <= entries@.len());
        let mut line = pad5_exec(decimal_string(i + 1));
        line.append("  ");
        line.append(entries[i].as_str());
        assert(es[i as int] == entries@[i as int]@);
        ls.push(line);
        i = i + 1;
    }
    assert(ls.deep_view() == history_lines(es, from as nat));
    ls
}

/// The text of `entries[from..]`, one entry per line.
fn text_of(entries: &[String], from: usize) -> (t: String)
    requires
        from <= entries@.len(),
    ensures
        t@ == file_text(entries.deep_view().skip(from as int)),
{
    let ghost es = entries.deep_view();
    let mut t = String::new();
    let mut i = from;
    assert(es.skip(from as int).take(0) == Seq::<Seq<char>>::empty());
    while i < entries.len()
        invariant
            es == entries.deep_view(),
            from <= i <= entries@.len(),
            t@ == file_text(es.skip(from as int).take(i - from)),
        decreases entries@.len() - i,
    {
        t.append(entries[i].as_str());
        t.append("\n");
        let ghost part = es.skip(from as int).take(i + 1 - from);
        assert(part.drop_last() == es.skip(from as int).take(i - from));
        assert(part.last() == entries@[i as int]@);
        i = i + 1;
    }
    assert(es.skip(from as int).take(entries@.len() - from) == es.skip(from as int));
    t
}

proof fn lemma_cap_step(v: nat, cap: nat, d: nat)
    ensures
        ({
            let a = if v < cap { v } else { cap };
            let x = a * 10 + d;
            let y = v * 10 + d;
            (if x < cap { x } else { cap }) == (if y < cap { y } else { cap })
        }),
{
    if v >= cap {
        assert(cap * 10 + d >= cap) by (nonlinear_arith);
        assert(v * 10 + d >= cap) by (nonlinear_arith)
            requires
                v >= cap,
        ;
    }
}

/// The smaller of `cap` and the number that the decimal digits `s` stand for;
/// `None` when `s` is empty or holds something else.
fn capped_value(s: &[char], cap: usize) -> (r: Option<usize>)
    ensures
        match r {
            Some(v) => all_digits(s@) && v == (if digits_value(s@) < cap { digits_value(s@) } else { cap as nat }),
            None => !all_digits(s@),
        },
{
    if s.len() == 0 {
        return None;
    }
    let mut acc: usize = 0;
    let mut i: usize = 0;
    assert(s@.take(0) == Seq::<char>::empty());
    while i < s.len()
        invariant
            i <= s@.len(),
            forall|j: int| 0 <= j < i ==> is_digit(#[trigger] s@[j]),
            acc == (if digits_value(s@.take(i as int)) < cap { digits_value(s@.take(i as int)) } else { cap as nat }),
            acc <= cap,
        decreases s@.len() - i,
    {
        let c = s[i];
        if !('0' <= c && c <= '9') {
            return None;
        }
        let d = (c as u32 - '0' as u32) as u128;
        let x: u128 = (acc as u128) * 10 + d;
        let next: usize = if x < cap as u128 { x as usize } else { cap };
        proof {
            let p = s@.take(i + 1);
            assert(p.drop_last() == s@.take(i as int));
            assert(p.last() == c);
            lemma_cap_step(digits_value(s@.take(i as int)), cap as nat, d as nat);
        }
        acc = next;
        i = i + 1;
    }
    assert(s@.take(s@.len() as int) == s@);
    Some(acc)
}


/// `history` lists every entry, numbered from 1 in the order entered.
pub proof fn law_history_lists_all(entries: Seq<Seq<char>>, appended: nat)
    ensures
        ({
            let (action, after) = spec_history(entries, appended, seq![]);
            &&& after == appended
            &&& action == HistoryActionView::Print(history_lines(entries, 0))
            &&& history_lines(entries, 0).len() == entries.len()
            &&& forall|i: int| 0 <= i < entries.len() ==> #[trigger] history_lines(entries, 0)[i]
                == pad5(decimal((i + 1) as nat)) + "  "@ + entries[i]
        }),
{
}

/// Right after `history -w FILE` (or `-a FILE`), `history -a FILE` has nothing
/// left to append.
pub proof fn law_append_after_write(entries: Seq<Seq<char>>, appended: nat, file: Seq<char>, flag: Seq<char>)
    requires
        appended <= entries.len(),
        flag == "-w"@ || flag == "-a"@,
    ensures
        ({
            let (_, after) = spec_history(entries, appended, seq![flag, file]);
            spec_history(entries, after, seq!["-a"@, file]) == (
                HistoryActionView::Append(file, Seq::<char>::empty()),
                entries.len(),
            )
        }),
{
    reveal_strlit("-r");
    reveal_strlit("-w");
    reveal_strlit("-a");
    assert("-r"@ =~= seq!['-', 'r']);
    assert("-w"@ =~= seq!['-', 'w']);
    assert("-a"@ =~= seq!['-', 'a']);
    let args = seq![flag, file];
    assert(args[0] == flag && args[1] == file);
    let args2 = seq!["-a"@, file];
    assert(args2[0] == "-a"@ && args2[1] == file);
    assert(entries.skip(entries.len() as int) == Seq::<Seq<char>>::empty());
}

proof fn lemma_digit_char(d: nat)
    requires
        d < 10,
    ensures
        is_digit(digit_char(d)),
        digit_char(d) as nat - '0' as nat == d,
{
}

/// The digits of `n` in decimal are digits, and stand for `n`.
proof fn lemma_decimal_value(n: nat)
    ensures
        all_digits(decimal(n)),
        digits_value(decimal(n)) == n,
    decreases n,
{
    if n < 10 {
        lemma_digit_char(n);
        let s = decimal(n);
        assert(s.drop_last() == Seq::<char>::empty());
        assert(s.last() == digit_char(n));
        assert(digits_value(s) == digits_value(s.drop_last()) * 10 + n);
    } else {
        lemma_decimal_value(n / 10);
        lemma_digit_char(n % 10);
        let s = decimal(n);
        assert(s == decimal(n / 10).push(digit_char(n % 10)));
        assert(s.drop_last() == decimal(n / 10));
        assert forall|i: int| 0 <= i < s.len() implies is_digit(#[trigger] s[i]) by {
            if i < s.len() - 1 {
                assert(s[i] == decimal(n / 10)[i]);
            }
        }
        assert(s.last() == digit_char(n % 10));
        assert((s.last() as nat - '0' as nat) as nat == n % 10);
        assert(digits_value(s) == digits_value(decimal(n / 10)) * 10 + n % 10);
        assert(n == (n / 10) * 10 + n % 10);
    }
}

/// `history N`, with N written in decimal, lists the last N entries (every entry
/// when there are no more than N), each numbered by its place, oldest first.
pub proof fn law_history_last_n(entries: Seq<Seq<char>>, appended: nat, n: nat)
    ensures
        ({
            let (action, after) = spec_history(entries, appended, seq![decimal(n)]);
            let shown: nat = if n < entries.len() { n } else { entries.len() };
            let from = entries.len() - shown;
            &&& after == appended
            &&& action matches HistoryActionView::Print(ls)
            &&& ls.len() == shown
            &&& forall|k: int| 0 <= k < shown ==> #[trigger] ls[k] == history_line((from + k) as nat, entries[from + k])
        }),
{
    reveal_strlit("-r");
    reveal_strlit("-w");
    reveal_strlit("-a");
    assert("-r"@ =~= seq!['-', 'r']);
    assert("-w"@ =~= seq!['-', 'w']);
    assert("-a"@ =~= seq!['-', 'a']);
    lemma_decimal_value(n);
    let args = seq![decimal(n)];
    assert(args[0] == decimal(n));
    assert(is_digit(decimal(n)[0]));
    assert(args[0] != "-r"@ && args[0] != "-w"@ && args[0] != "-a"@) by {
        assert("-r"@[0] == '-');
    }
}

} // verus!
