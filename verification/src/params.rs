//! Shell variables: `$NAME` and `${NAME}` expansion, and the `declare` builtin.
use vstd::prelude::*;
use vstd::string::StringExecFns;
use crate::text::{chars_of, string_of};
use crate::lexer::{is_blank, escape_word, lex, LexState, spec_parse_args, law_escaped_words_round_trip};
use crate::table::StringTable;
use crate::completion::{before_first, before_first_chars, contains_char};

verus! {

pub open spec fn is_name_start(c: char) -> bool {
    c == '_' || ('a' <= c && c <= 'z') || ('A' <= c && c <= 'Z')
}

pub open spec fn is_name_char(c: char) -> bool {
    is_name_start(c) || ('0' <= c && c <= '9')
}

/// A variable name: a letter or `_`, then letters, digits or `_`.
pub open spec fn is_name(s: Seq<char>) -> bool {
    s.len() > 0 && is_name_start(s[0]) && forall|i: int| 0 <= i < s.len() ==> is_name_char(#[trigger] s[i])
}

/// How many leading characters of `s` may stand in a name.
pub open spec fn name_len(s: Seq<char>) -> nat
    decreases s.len(),
{
    if s.len() > 0 && is_name_char(s[0]) { 1 + name_len(s.drop_first()) } else { 0 }
}

/// A variable's value, empty when it is not set.
pub open spec fn value_of(vars: Map<Seq<char>, Seq<char>>, name: Seq<char>) -> Seq<char> {
    if vars.contains_key(name) { vars[name] } else { seq![] }
}

/// A value put into a line outside quotes: every character but blanks is
/// backslash-escaped, so the value is split into words at blanks and taken
/// literally otherwise.
pub open spec fn escape_unquoted(v: Seq<char>) -> Seq<char>
    decreases v.len(),
{
    if v.len() == 0 {
        seq![]
    } else if is_blank(v[0]) {
        seq![v[0]] + escape_unquoted(v.drop_first())
    } else {
        seq!['\\', v[0]] + escape_unquoted(v.drop_first())
    }
}

/// A value put into a line inside double quotes: `"` and `\` are escaped.
pub open spec fn escape_in_double(v: Seq<char>) -> Seq<char>
    decreases v.len(),
{
    if v.len() == 0 {
        seq![]
    } else if v[0] == '"' || v[0] == '\\' {
        seq!['\\', v[0]] + escape_in_double(v.drop_first())
    } else {
        seq![v[0]] + escape_in_double(v.drop_first())
    }
}

pub open spec fn insert_value(vars: Map<Seq<char>, Seq<char>>, name: Seq<char>, in_double: bool) -> Seq<char> {
    if in_double { escape_in_double(value_of(vars, name)) } else { escape_unquoted(value_of(vars, name)) }
}

/// Whether `s` (what follows a `$`) starts with `{NAME}`.
pub open spec fn braced_name_at(s: Seq<char>) -> bool {
    &&& s.len() >= 3
    &&& s[0] == '{'
    &&& is_name_start(s[1])
    &&& s.len() > name_len(s.drop_first()) + 1
    &&& s[name_len(s.drop_first()) + 1int] == '}'
}

/// `line` with its variables replaced, read from the quoting state given: outside
/// single quotes `$NAME` and `${NAME}` become the variable's value (empty when it is
/// not set), escaped so that the lexer takes it literally (outside double quotes it
/// is still split into words at blanks); a `$` not followed by a name stays; a
/// backslash keeps the next character as it is; everything else is copied.
pub open spec fn expand_from(s: Seq<char>, vars: Map<Seq<char>, Seq<char>>, in_single: bool, in_double: bool) -> Seq<char>
    decreases s.len(),
{
    if s.len() == 0 {
        seq![]
    } else {
        let c = s[0];
        let rest = s.drop_first();
        if in_single {
            seq![c] + expand_from(rest, vars, c != '\'', false)
        } else if c == '\\' {
            if rest.len() == 0 {
                seq![c]
            } else {
                seq![c, rest[0]] + expand_from(rest.drop_first(), vars, false, in_double)
            }
        } else if c == '\'' && !in_double {
            seq![c] + expand_from(rest, vars, true, false)
        } else if c == '"' {
            seq![c] + expand_from(rest, vars, false, !in_double)
        } else if c == '$' && braced_name_at(rest) {
            let k = name_len(rest.drop_first()) as int;
            insert_value(vars, rest.subrange(1, k + 1), in_double) + expand_from(rest.skip(k + 2), vars, false, in_double)
        } else if c == '$' && rest.len() > 0 && is_name_start(rest[0]) {
            let k = name_len(rest);
            proof {
                lemma_name_len_bound(rest);
            }
            insert_value(vars, rest.take(k as int), in_double) + expand_from(rest.skip(k as int), vars, false, in_double)
        } else {
            seq![c] + expand_from(rest, vars, false, in_double)
        }
    }
}

pub open spec fn spec_expand(line: Seq<char>, vars: Map<Seq<char>, Seq<char>>) -> Seq<char> {
    expand_from(line, vars, false, false)
}

/// A name never runs past the end of the text.
pub proof fn lemma_name_len_bound(s: Seq<char>)
    ensures
        name_len(s) <= s.len(),
    decreases s.len(),
{
    if s.len() > 0 && is_name_char(s[0]) {
        lemma_name_len_bound(s.drop_first());
    }
}

fn name_start(c: char) -> (b: bool)
    ensures
        b == is_name_start(c),
{
    c == '_' || ('a' <= c && c <= 'z') || ('A' <= c && c <= 'Z')
}

fn name_char(c: char) -> (b: bool)
    ensures
        b == is_name_char(c),
{
    name_start(c) || ('0' <= c && c <= '9')
}

proof fn lemma_name_len(s: Seq<char>, k: int)
    requires
        0 <= k <= s.len(),
        forall|j: int| 0 <= j < k ==> is_name_char(#[trigger] s[j]),
        k == s.len() || !is_name_char(s[k]),
    ensures
        name_len(s) == k,
    decreases k,
{
    if k > 0 {
        assert forall|j: int| 0 <= j < k - 1 implies is_name_char(#[trigger] s.drop_first()[j]) by {
            assert(s.drop_first()[j] == s[j + 1]);
        }
        if k < s.len() {
            assert(s.drop_first()[k - 1] == s[k]);
        }
        lemma_name_len(s.drop_first(), k - 1);
    }
}

/// The number of name characters at `s[from..]`.
fn count_name_chars(s: &[char], from: usize) -> (k: usize)
    requires
        from <= s@.len(),
    ensures
        k == name_len(s@.skip(from as int)),
        from + k <= s@.len(),
{
    let mut k: usize = 0;
    while k < s.len() - from && name_char(s[from + k])
        invariant
            from + k <= s@.len(),
            forall|j: int| 0 <= j < k ==> is_name_char(#[trigger] s@.skip(from as int)[j]),
        decreases s@.len() - from - k,
    {
        assert(s@.skip(from as int)[k as int] == s@[from + k]);
        k = k + 1;
    }
    proof {
        if from + k < s@.len() {
            assert(s@.skip(from as int)[k as int] == s@[from + k]);
        }
        lemma_name_len(s@.skip(from as int), k as int);
    }
    k
}

/// Appends `v` to `out`, escaped as [`insert_value`] says.
fn push_value(out: &mut Vec<char>, v: &[char], in_double: bool)
    ensures
        final(out)@ == old(out)@ + (if in_double { escape_in_double(v@) } else { escape_unquoted(v@) }),
{
    let ghost start = out@;
    let mut i: usize = 0;
    assert(v@.skip(0) == v@);
    while i < v.len()
        invariant
            i <= v@.len(),
            start + (if in_double { escape_in_double(v@) } else { escape_unquoted(v@) })
                == out@ + (if in_double { escape_in_double(v@.skip(i as int)) } else { escape_unquoted(v@.skip(i as int)) }),
        decreases v@.len() - i,
    {
        let c = v[i];
        let ghost rest = v@.skip(i as int);
        assert(rest[0] == c);
        assert(rest.drop_first() == v@.skip(i + 1));
        let ghost before = out@;
        if in_double {
            if c == '"' || c == '\\' {
                out.push('\\');
            }
            out.push(c);
        } else {
            if !(c == ' ' || c == '\t') {
                out.push('\\');
            }
            out.push(c);
        }
        proof {
            let tail = if in_double { escape_in_double(v@.skip(i + 1)) } else { escape_unquoted(v@.skip(i + 1)) };
            if in_double {
                if c == '"' || c == '\\' {
                    assert(out@ == before + seq!['\\', c]);
                    assert(escape_in_double(rest) == seq!['\\', c] + tail);
                } else {
                    assert(out@ == before + seq![c]);
                    assert(escape_in_double(rest) == seq![c] + tail);
                }
            } else {
                if !(c == ' ' || c == '\t') {
                    assert(out@ == before + seq!['\\', c]);
                    assert(escape_unquoted(rest) == seq!['\\', c] + tail);
                } else {
                    assert(out@ == before + seq![c]);
                    assert(escape_unquoted(rest) == seq![c] + tail);
                }
            }
        }
        i = i + 1;
    }
    assert(v@.skip(v@.len() as int) == Seq::<char>::empty());
    assert(out@ + Seq::<char>::empty() == out@);
}

/// Appends the value of the variable `name` (its characters are `name_chars`) to
/// `out`, escaped for the quoting state.
fn push_variable(out: &mut Vec<char>, vars: &StringTable, name_chars: &[char], in_double: bool)
    ensures
        final(out)@ == old(out)@ + insert_value(vars@, name_chars@, in_double),
{
    let name = string_of(name_chars);
    match vars.get(name.as_str()) {
        Some(v) => {
            let vc = chars_of(v.as_str());
            push_value(out, vc.as_slice(), in_double);
        },
        None => {
            let empty: Vec<char> = Vec::new();
            push_value(out, empty.as_slice(), in_double);
            assert(escape_in_double(Seq::<char>::empty()) == Seq::<char>::empty());
        },
    }
}

fn sub_chars(s: &[char], from: usize, to: usize) -> (r: Vec<char>)
    requires
        from <= to <= s@.len(),
    ensures
        r@ == s@.subrange(from as int, to as int),
{
    let mut r: Vec<char> = Vec::new();
    let mut i = from;
    while i < to
        invariant
            from <= i <= to <= s@.len(),
            r@ == s@.subrange(from as int, i as int),
        decreases to - i,
    {
        r.push(s[i]);
        i = i + 1;
        assert(r@ == s@.subrange(from as int, i as int));
    }
    r
}

/// `line` with its shell variables expanded (see [`expand_from`]).
pub fn expand_variables(line: &str, vars: &StringTable) -> (out: String)
    ensures
        out@ == spec_expand(line@, vars@),
{
    let s = chars_of(line);
    let n = s.len();
    let mut out: Vec<char> = Vec::new();
    let mut in_single = false;
    let mut in_double = false;
    let mut i: usize = 0;
    assert(s@.skip(0) == s@);
    while i < n
        invariant
            n == s@.len(),
            s@ == line@,
            i <= n,
            !(in_single && in_double),
            spec_expand(line@, vars@) == out@ + expand_from(s@.skip(i as int), vars@, in_single, in_double),
        decreases n - i,
    {
        let ghost rest = s@.skip(i as int);
        let ghost before = out@;
        let ghost (sq, dq) = (in_single, in_double);
        let c = s[i];
        assert(rest[0] == c);
        assert(rest.drop_first() == s@.skip(i + 1));
        if in_single {
            out.push(c);
            in_single = c != '\'';
            i = i + 1;
            assert(out@ == before + seq![c]);
        } else if c == '\\' {
            if i + 1 < n {
                out.push(c);
                out.push(s[i + 1]);
                assert(rest.drop_first()[0] == s@[i + 1]);
                assert(rest.drop_first().drop_first() == s@.skip(i + 2));
                assert(out@ == before + seq![c, s@[i + 1]]);
                i = i + 2;
            } else {
                out.push(c);
                assert(out@ == before + seq![c]);
                i = i + 1;
                assert(s@.skip(i as int) == Seq::<char>::empty());
            }
        } else if c == '\'' && !in_double {
            out.push(c);
            in_single = true;
            i = i + 1;
            assert(out@ == before + seq![c]);
        } else if c == '"' {
            out.push(c);
            in_double = !in_double;
            i = i + 1;
            assert(out@ == before + seq![c]);
        } else if c == '$' && n - i > 2 && s[i + 1] == '{' && name_start(s[i + 2])
            && count_name_chars(s.as_slice(), i + 2) < n - i - 2
            && s[i + 2 + count_name_chars(s.as_slice(), i + 2)] == '}' {
            let k = count_name_chars(s.as_slice(), i + 2);
            proof {
                let r = rest.drop_first();
                assert(r.drop_first() == s@.skip(i + 2));
                assert(r[0] == s@[i + 1] && r[1] == s@[i + 2]);
                assert(r[k + 1] == s@[i + 2 + k]);
                assert(braced_name_at(r));
                assert(r.subrange(1, k + 1) == s@.subrange(i + 2, i + 2 + k));
                assert(r.skip(k + 2) == s@.skip(i + 3 + k));
            }
            let name = sub_chars(s.as_slice(), i + 2, i + 2 + k);
            push_variable(&mut out, vars, name.as_slice(), in_double);
            i = i + 3 + k;
        } else if c == '$' && i + 1 < n && name_start(s[i + 1]) {
            let k = count_name_chars(s.as_slice(), i + 1);
            proof {
                let r = rest.drop_first();
                assert(r == s@.skip(i + 1));
                assert(r[0] == s@[i + 1]);
                if r.len() >= 3 && r[0] == '{' {
                    assert(false);
                }
                assert(!braced_name_at(r));
                assert(r.take(k as int) == s@.subrange(i + 1, i + 1 + k));
                assert(r.skip(k as int) == s@.skip(i + 1 + k));
            }
            let name = sub_chars(s.as_slice(), i + 1, i + 1 + k);
            push_variable(&mut out, vars, name.as_slice(), in_double);
            i = i + 1 + k;
        } else {
            proof {
                if c == '$' {
                    let r = rest.drop_first();
                    if braced_name_at(r) {
                        assert(r == s@.skip(i + 1));
                        assert(r.drop_first() == s@.skip(i + 2));
                        assert(r[0] == s@[i + 1] && r[1] == s@[i + 2]);
                        let k = name_len(r.drop_first()) as int;
                        assert(r[k + 1] == s@[i + 2 + k]);
                        assert(false);
                    }
                    if r.len() > 0 {
                        assert(r[0] == s@[i + 1]);
                    }
                }
            }
            out.push(c);
            i = i + 1;
            assert(out@ == before + seq![c]);
        }
    }
    assert(s@.skip(n as int) == Seq::<char>::empty());
    assert(out@ + Seq::<char>::empty() == out@);
    string_of(out.as_slice())
}


/// What `declare NAME=VALUE` (or `declare NAME`, or an invalid argument) does to
/// the variables, and the message it prints, if any.
pub open spec fn declare_one(vars: Map<Seq<char>, Seq<char>>, arg: Seq<char>) -> (Map<Seq<char>, Seq<char>>, Option<Seq<char>>) {
    let name = before_first(arg, '=');
    if !is_name(name) {
        (vars, Some("declare: `"@ + arg + "': not a valid identifier"@))
    } else if arg.contains('=') {
        (vars.insert(name, arg.skip(name.len() + 1int)), None)
    } else {
        (vars, None)
    }
}

/// `declare` with each argument in turn.
pub open spec fn declare_all(vars: Map<Seq<char>, Seq<char>>, args: Seq<Seq<char>>) -> (Map<Seq<char>, Seq<char>>, Seq<Seq<char>>)
    decreases args.len(),
{
    if args.len() == 0 {
        (vars, seq![])
    } else {
        let (v, msgs) = declare_all(vars, args.drop_last());
        let (v2, m) = declare_one(v, args.last());
        (v2, match m { Some(t) => msgs.push(t), None => msgs })
    }
}

/// What `declare -p NAME` prints.
pub open spec fn declare_print(vars: Map<Seq<char>, Seq<char>>, name: Seq<char>) -> Seq<char> {
    if vars.contains_key(name) {
        "declare -- "@ + name + "=\""@ + vars[name] + "\""@
    } else {
        "declare: "@ + name + ": not found"@
    }
}

/// The `declare` builtin: `declare -p NAME...` prints each variable, otherwise each
/// argument `NAME=VALUE` sets a variable; the lines to print and the variables after.
pub open spec fn spec_declare(vars: Map<Seq<char>, Seq<char>>, args: Seq<Seq<char>>) -> (Seq<Seq<char>>, Map<Seq<char>, Seq<char>>) {
    if args.len() > 0 && args[0] == "-p"@ {
        (args.skip(1).map_values(|n: Seq<char>| declare_print(vars, n)), vars)
    } else {
        (declare_all(vars, args).1, declare_all(vars, args).0)
    }
}

pub fn declare_builtin(vars: &mut StringTable, args: &[String]) -> (lines: Vec<String>)
    ensures
        (lines.deep_view(), final(vars)@) == spec_declare(old(vars)@, args.deep_view()),
{
    let ghost a = args.deep_view();
    proof {
        reveal_strlit("-p");
        assert("-p"@ =~= seq!['-', 'p']);
    }
    let dash_p: [char; 2] = ['-', 'p'];
    assert(dash_p@ =~= seq!['-', 'p']);
    let mut lines: Vec<String> = Vec::new();
    if args.len() > 0 && crate::text::str_is(args[0].as_str(), &dash_p) {
        assert(a[0] == args@[0]@);
        let ghost v = vars@;
        let mut i: usize = 1;
        assert(a.skip(1).take(0) == Seq::<Seq<char>>::empty());
        assert(lines.deep_view() == Seq::<Seq<char>>::empty());
        while i < args.len()
            invariant
                a == args.deep_view(),
                v == vars@,
                1 <= i <= args@.len(),
                lines.deep_view() == a.skip(1).take(i - 1).map_values(|n: Seq<char>| declare_print(v, n)),
            decreases args@.len() - i,
        {
            let name = args[i].as_str();
            assert(a[i as int] == name@);
            let mut line;
            match vars.get(name) {
                Some(value) => {
                    line = String::from_str("declare -- ");
                    line.append(name);
                    line.append("=\"");
                    line.append(value.as_str());
                    line.append("\"");
                },
                None => {
                    line = String::from_str("declare: ");
                    line.append(name);
                    line.append(": not found");
                },
            }
            let ghost old_lines = lines.deep_view();
            lines.push(line);
            assert(lines.deep_view() == old_lines.push(declare_print(v, a[i as int])));
            assert(a.skip(1).take(i as int) == a.skip(1).take(i - 1).push(a[i as int]));
            i = i + 1;
        }
        assert(a.skip(1).take(args@.len() - 1) == a.skip(1));
        return lines;
    }
    proof {
        if a.len() > 0 {
            assert(a[0] == args@[0]@);
        }
    }
    let mut i: usize = 0;
    assert(a.take(0) == Seq::<Seq<char>>::empty());
    assert(lines.deep_view() == Seq::<Seq<char>>::empty());
    let ghost start = vars@;
    while i < args.len()
        invariant
            a == args.deep_view(),
            i <= args@.len(),
            (vars@, lines.deep_view()) == declare_all(start, a.take(i as int)),
        decreases args@.len() - i,
    {
        let arg = args[i].as_str();
        assert(a[i as int] == arg@);
        assert(a.take(i + 1).drop_last() == a.take(i as int));
        assert(a.take(i + 1).last() == arg@);
        let ac = chars_of(arg);
        let name_chars = before_first_chars(ac.as_slice(), '=');
        let valid = is_name_exec(name_chars.as_slice());
        if !valid {
            let mut line = String::from_str("declare: `");
            line.append(arg);
            line.append("': not a valid identifier");
            let ghost old_lines = lines.deep_view();
            lines.push(line);
            assert(lines.deep_view() == old_lines.push("declare: `"@ + arg@ + "': not a valid identifier"@));
        } else if contains_char(ac.as_slice(), '=') {
            proof {
                lemma_before_first_len(ac@, '=');
                assert(name_chars@ == before_first(ac@, '='));
                assert(name_chars@.len() < ac@.len());
            }
            let total = ac.len();
            let value_chars = sub_chars(ac.as_slice(), name_chars.len() + 1, total);
            assert(value_chars@ == ac@.skip(name_chars@.len() + 1int));
            vars.insert(string_of(name_chars.as_slice()), string_of(value_chars.as_slice()));
        }
        i = i + 1;
    }
    assert(a.take(args@.len() as int) == a);
    lines
}

proof fn lemma_before_first_len(s: Seq<char>, c: char)
    requires
        s.contains(c),
    ensures
        before_first(s, c).len() < s.len(),
        s[before_first(s, c).len() as int] == c,
    decreases s.len(),
{
    if s[0] != c {
        let j = choose|j: int| 0 <= j < s.len() && s[j] == c;
        assert(s.drop_first()[j - 1] == c);
        lemma_before_first_len(s.drop_first(), c);
    }
}

fn is_name_exec(s: &[char]) -> (b: bool)
    ensures
        b == is_name(s@),
{
    if s.len() == 0 || !name_start(s[0]) {
        return false;
    }
    let mut i: usize = 0;
    while i < s.len()
        invariant
            i <= s@.len(),
            forall|j: int| 0 <= j < i ==> is_name_char(#[trigger] s@[j]),
        decreases s@.len() - i,
    {
        if !name_char(s[i]) {
            return false;
        }
        i = i + 1;
    }
    true
}


proof fn lemma_expand_no_dollar(s: Seq<char>, vars: Map<Seq<char>, Seq<char>>, in_single: bool, in_double: bool)
    requires
        !s.contains('$'),
    ensures
        expand_from(s, vars, in_single, in_double) == s,
    decreases s.len(),
{
    if s.len() > 0 {
        let rest = s.drop_first();
        assert(!rest.contains('$')) by {
            if rest.contains('$') {
                let j = choose|j: int| 0 <= j < rest.len() && rest[j] == '$';
                assert(s[j + 1] == '$');
            }
        }
        assert(s[0] != '$') by {
            if s[0] == '$' {
                assert(s.contains('$'));
            }
        }
        let c = s[0];
        if in_single {
            lemma_expand_no_dollar(rest, vars, c != '\'', false);
        } else if c == '\\' {
            if rest.len() > 0 {
                assert(!rest.drop_first().contains('$')) by {
                    if rest.drop_first().contains('$') {
                        let j = choose|j: int| 0 <= j < rest.drop_first().len() && rest.drop_first()[j] == '$';
                        assert(s[j + 2] == '$');
                    }
                }
                lemma_expand_no_dollar(rest.drop_first(), vars, false, in_double);
                assert(seq![c, rest[0]] + rest.drop_first() == s);
            } else {
                assert(s == seq![c]);
            }
        } else if c == '\'' && !in_double {
            lemma_expand_no_dollar(rest, vars, true, false);
        } else if c == '"' {
            lemma_expand_no_dollar(rest, vars, false, !in_double);
        } else {
            lemma_expand_no_dollar(rest, vars, false, in_double);
        }
        if !(c == '\\' && !in_single) {
            assert(seq![c] + rest == s);
        }
    }
}

/// A line without `$` is left as it is by expansion.
pub proof fn law_no_dollar_unchanged(line: Seq<char>, vars: Map<Seq<char>, Seq<char>>)
    requires
        !line.contains('$'),
    ensures
        spec_expand(line, vars) == line,
{
    lemma_expand_no_dollar(line, vars, false, false);
}

proof fn lemma_escape_unquoted_no_blank(v: Seq<char>)
    requires
        forall|i: int| 0 <= i < v.len() ==> !is_blank(#[trigger] v[i]),
    ensures
        escape_unquoted(v) == escape_word(v),
    decreases v.len(),
{
    if v.len() > 0 {
        assert(!is_blank(v[0]));
        assert forall|i: int| 0 <= i < v.drop_first().len() implies !is_blank(#[trigger] v.drop_first()[i]) by {
            assert(v.drop_first()[i] == v[i + 1]);
        }
        lemma_escape_unquoted_no_blank(v.drop_first());
    }
}

proof fn lemma_expand_lone_variable(name: Seq<char>, vars: Map<Seq<char>, Seq<char>>)
    requires
        is_name(name),
    ensures
        spec_expand(seq!['$'] + name, vars) == escape_unquoted(value_of(vars, name)),
{
    let s = seq!['$'] + name;
    assert(s[0] == '$');
    assert(s.drop_first() == name);
    assert(!(name[0] == '{'));
    lemma_name_len(name, name.len() as int);
    assert(name.take(name.len() as int) == name);
    assert(name.skip(name.len() as int) == Seq::<char>::empty());
    assert(!braced_name_at(name));
    assert(is_name_start(name[0]));
    assert(name_len(name) == name.len());
    assert(expand_from(Seq::<char>::empty(), vars, false, false) == Seq::<char>::empty());
    assert(expand_from(s, vars, false, false) == insert_value(vars, name.take(name_len(name) as int), false)
        + expand_from(name.skip(name_len(name) as int), vars, false, false));
    assert(escape_unquoted(value_of(vars, name)) + Seq::<char>::empty() == escape_unquoted(value_of(vars, name)));
}

/// A variable whose value is non-empty and free of blanks reaches the command as
/// exactly that one word, whatever quotes or backslashes the value holds.
pub proof fn law_variable_is_one_word(name: Seq<char>, vars: Map<Seq<char>, Seq<char>>)
    requires
        is_name(name),
        vars.contains_key(name),
        vars[name].len() > 0,
        forall|i: int| 0 <= i < vars[name].len() ==> !is_blank(#[trigger] vars[name][i]),
    ensures
        spec_parse_args(spec_expand(seq!['$'] + name, vars)) == seq![vars[name]],
{
    lemma_expand_lone_variable(name, vars);
    lemma_escape_unquoted_no_blank(vars[name]);
    let ws = seq![vars[name]];
    law_escaped_words_round_trip(ws);
    let enc = ws.map_values(|w: Seq<char>| escape_word(w));
    assert(enc.len() == 1 && enc[0] == escape_word(vars[name]));
    assert(crate::lexer::join_words(enc) == enc[0]);
}

proof fn lemma_before_first_no_sep(name: Seq<char>, rest: Seq<char>, c: char)
    requires
        !name.contains(c),
    ensures
        before_first(name + seq![c] + rest, c) == name,
    decreases name.len(),
{
    let s = name + seq![c] + rest;
    if name.len() == 0 {
        assert(s[0] == c);
    } else {
        assert(s[0] == name[0]);
        assert(name[0] != c) by {
            if name[0] == c {
                assert(name.contains(c));
            }
        }
        assert(!name.drop_first().contains(c)) by {
            if name.drop_first().contains(c) {
                let j = choose|j: int| 0 <= j < name.drop_first().len() && name.drop_first()[j] == c;
                assert(name[j + 1] == c);
            }
        }
        assert(s.drop_first() == name.drop_first() + seq![c] + rest);
        lemma_before_first_no_sep(name.drop_first(), rest, c);
        assert(seq![name[0]] + name.drop_first() == name);
    }
}

/// After `declare NAME=VALUE`, `$NAME` stands for VALUE: with a value free of
/// blanks, it reaches the command as that one word.
pub proof fn law_declare_then_expand(vars: Map<Seq<char>, Seq<char>>, name: Seq<char>, value: Seq<char>)
    requires
        is_name(name),
        value.len() > 0,
        forall|i: int| 0 <= i < value.len() ==> !is_blank(#[trigger] value[i]),
    ensures
        ({
            let (lines, after) = spec_declare(vars, seq![name + "="@ + value]);
            &&& lines == Seq::<Seq<char>>::empty()
            &&& after == vars.insert(name, value)
            &&& spec_parse_args(spec_expand(seq!['$'] + name, after)) == seq![value]
        }),
{
    reveal_strlit("=");
    reveal_strlit("-p");
    assert("="@ =~= seq!['=']);
    let arg = name + "="@ + value;
    assert(!name.contains('=')) by {
        if name.contains('=') {
            let j = choose|j: int| 0 <= j < name.len() && name[j] == '=';
            assert(is_name_char(name[j]));
        }
    }
    lemma_before_first_no_sep(name, value, '=');
    assert(arg.contains('=')) by {
        assert(arg[name.len() as int] == '=');
    }
    assert(arg.skip(name.len() + 1int) == value);
    let args = seq![arg];
    assert(args[0] != "-p"@) by {
        if args[0] == "-p"@ {
            assert("-p"@ =~= seq!['-', 'p']);
            assert(arg[0] == '-');
            assert(is_name_start(name[0]));
        }
    }
    assert(args.drop_last() == Seq::<Seq<char>>::empty());
    let after = vars.insert(name, value);
    assert(before_first(arg, '=') == name);
    assert(declare_one(vars, arg) == (after, None::<Seq<char>>));
    assert(declare_all(vars, args.drop_last()) == (vars, Seq::<Seq<char>>::empty()));
    assert(args.last() == arg);
    assert(declare_all(vars, args) == (after, Seq::<Seq<char>>::empty()));
    law_variable_is_one_word(name, after);
}

proof fn lemma_lex_in_double(v: Seq<char>, tail: Seq<char>, words: Seq<Seq<char>>, cur: Seq<char>)
    ensures
        lex(escape_in_double(v) + tail, LexState { words, current: cur, in_single: false, in_double: true })
            == lex(tail, LexState { words, current: cur + v, in_single: false, in_double: true }),
    decreases v.len(),
{
    if v.len() == 0 {
        assert(escape_in_double(v) + tail == tail);
        assert(cur + v == cur);
    } else {
        let inner = escape_in_double(v.drop_first()) + tail;
        lemma_lex_in_double(v.drop_first(), tail, words, cur.push(v[0]));
        assert(cur.push(v[0]) + v.drop_first() == cur + v);
        if v[0] == '"' || v[0] == '\\' {
            let input = seq!['\\', v[0]] + inner;
            assert(escape_in_double(v) + tail == input);
            assert(input[0] == '\\');
            assert(input.drop_first()[0] == v[0]);
            assert(input.drop_first().drop_first() == inner);
        } else {
            let input = seq![v[0]] + inner;
            assert(escape_in_double(v) + tail == input);
            assert(input[0] == v[0]);
            assert(input.drop_first() == inner);
        }
    }
}

proof fn lemma_expand_variable(name: Seq<char>, tail: Seq<char>, vars: Map<Seq<char>, Seq<char>>, in_double: bool)
    requires
        is_name(name),
        tail.len() == 0 || !is_name_char(tail[0]),
    ensures
        expand_from(seq!['$', '{'] + name + seq!['}'] + tail, vars, false, in_double)
            == insert_value(vars, name, in_double) + expand_from(tail, vars, false, in_double),
        expand_from(seq!['$'] + name + tail, vars, false, in_double)
            == insert_value(vars, name, in_double) + expand_from(tail, vars, false, in_double),
{
    let k = name.len() as int;
    // `${NAME}`
    let s = seq!['$', '{'] + name + seq!['}'] + tail;
    let rest = s.drop_first();
    assert(s[0] == '$');
    assert(rest == seq!['{'] + name + seq!['}'] + tail);
    let inner = rest.drop_first();
    assert(inner == name + (seq!['}'] + tail));
    assert forall|j: int| 0 <= j < k implies is_name_char(#[trigger] inner[j]) by {
        assert(inner[j] == name[j]);
    }
    assert(inner[k] == '}');
    lemma_name_len(inner, k);
    assert(rest[1] == name[0]);
    assert(rest[k + 1] == '}');
    assert(braced_name_at(rest));
    assert(rest.subrange(1, k + 1) == name);
    assert(rest.skip(k + 2) == tail);
    // `$NAME`
    let p = seq!['$'] + name + tail;
    let prest = p.drop_first();
    assert(p[0] == '$');
    assert(prest == name + tail);
    assert forall|j: int| 0 <= j < k implies is_name_char(#[trigger] prest[j]) by {
        assert(prest[j] == name[j]);
    }
    if tail.len() > 0 {
        assert(prest[k] == tail[0]);
    }
    lemma_name_len(prest, k);
    assert(prest[0] == name[0]);
    assert(!braced_name_at(prest));
    assert(prest.take(k) == name);
    assert(prest.skip(k) == tail);
}

/// `${NAME}` expands exactly as `$NAME` does, inside double quotes and outside,
/// whatever follows it that cannot continue the name.
pub proof fn law_braced_same_as_plain(name: Seq<char>, tail: Seq<char>, vars: Map<Seq<char>, Seq<char>>, in_double: bool)
    requires
        is_name(name),
        tail.len() == 0 || !is_name_char(tail[0]),
    ensures
        expand_from(seq!['$', '{'] + name + seq!['}'] + tail, vars, false, in_double)
            == expand_from(seq!['$'] + name + tail, vars, false, in_double),
{
    lemma_expand_variable(name, tail, vars, in_double);
}

/// Between double quotes, `"$NAME"` and `"${NAME}"` reach the command as one word,
/// exactly the variable's value, whatever blanks, quotes or backslashes it holds.
pub proof fn law_quoted_variable_is_one_word(name: Seq<char>, vars: Map<Seq<char>, Seq<char>>)
    requires
        is_name(name),
        vars.contains_key(name),
        vars[name].len() > 0,
    ensures
        spec_parse_args(spec_expand(seq!['"', '$'] + name + seq!['"'], vars)) == seq![vars[name]],
        spec_parse_args(spec_expand(seq!['"', '$', '{'] + name + seq!['}', '"'], vars)) == seq![vars[name]],
{
    let q = seq!['"'];
    let e = Seq::<char>::empty();
    let v = vars[name];
    let enc = escape_in_double(v);
    assert(!is_name_char('"'));
    lemma_expand_variable(name, q, vars, true);
    assert(q.drop_first() == e);
    assert(q[0] == '"');
    assert(expand_from(e, vars, false, false) == e);
    assert(seq![q[0]] + e == q);
    assert(expand_from(q, vars, false, true) == q);
    let expanded = q + (enc + q);
    // `"$NAME"`
    let l1 = seq!['"', '$'] + name + seq!['"'];
    assert(l1[0] == '"');
    assert(l1.drop_first() == seq!['$'] + name + q);
    assert(spec_expand(l1, vars) == q + expand_from(seq!['$'] + name + q, vars, false, true));
    assert(spec_expand(l1, vars) == expanded);
    // `"${NAME}"`
    let l2 = seq!['"', '$', '{'] + name + seq!['}', '"'];
    assert(l2[0] == '"');
    assert(l2.drop_first() == seq!['$', '{'] + name + seq!['}'] + q);
    assert(spec_expand(l2, vars) == q + expand_from(seq!['$', '{'] + name + seq!['}'] + q, vars, false, true));
    assert(spec_expand(l2, vars) == expanded);
    // the lexer
    assert(expanded[0] == '"');
    assert(expanded.drop_first() == enc + q);
    let nil = Seq::<Seq<char>>::empty();
    lemma_lex_in_double(v, q, nil, e);
    assert(e + v == v);
    assert(lex(q, LexState { words: nil, current: v, in_single: false, in_double: true })
        == lex(e, LexState { words: nil, current: v, in_single: false, in_double: false }));
    assert(spec_parse_args(expanded) == seq![v]);
}

/// An unset variable, `$NAME` or `${NAME}`, expands to nothing, inside double quotes
/// and outside.
pub proof fn law_unset_variable_vanishes(name: Seq<char>, tail: Seq<char>, vars: Map<Seq<char>, Seq<char>>, in_double: bool)
    requires
        is_name(name),
        !vars.contains_key(name),
        tail.len() == 0 || !is_name_char(tail[0]),
    ensures
        expand_from(seq!['$'] + name + tail, vars, false, in_double) == expand_from(tail, vars, false, in_double),
        expand_from(seq!['$', '{'] + name + seq!['}'] + tail, vars, false, in_double)
            == expand_from(tail, vars, false, in_double),
{
    lemma_expand_variable(name, tail, vars, in_double);
    let e = Seq::<char>::empty();
    assert(value_of(vars, name) == e);
    assert(insert_value(vars, name, in_double) == e);
    assert(e + expand_from(tail, vars, false, in_double) == expand_from(tail, vars, false, in_double));
}

proof fn lemma_expand_in_single(x: Seq<char>, t: Seq<char>, vars: Map<Seq<char>, Seq<char>>)
    requires
        forall|i: int| 0 <= i < x.len() ==> #[trigger] x[i] != '\'',
    ensures
        expand_from(x + t, vars, true, false) == x + expand_from(t, vars, true, false),
    decreases x.len(),
{
    if x.len() == 0 {
        assert(x + t == t);
        assert(x + expand_from(t, vars, true, false) == expand_from(t, vars, true, false));
    } else {
        assert((x + t)[0] == x[0]);
        assert(x[0] != '\'');
        assert((x + t).drop_first() == x.drop_first() + t);
        assert forall|i: int| 0 <= i < x.drop_first().len() implies #[trigger] x.drop_first()[i] != '\'' by {
            assert(x.drop_first()[i] == x[i + 1]);
        }
        lemma_expand_in_single(x.drop_first(), t, vars);
        assert(seq![x[0]] + (x.drop_first() + expand_from(t, vars, true, false)) == x + expand_from(t, vars, true, false));
    }
}

/// Between single quotes nothing is expanded: `'x'`, with `x` free of `'`, is kept
/// as it is, and expansion goes on after the closing quote.
pub proof fn law_single_quotes_literal(x: Seq<char>, tail: Seq<char>, vars: Map<Seq<char>, Seq<char>>)
    requires
        forall|i: int| 0 <= i < x.len() ==> #[trigger] x[i] != '\'',
    ensures
        spec_expand(seq!['\''] + x + seq!['\''] + tail, vars) == seq!['\''] + x + seq!['\''] + spec_expand(tail, vars),
{
    let q = seq!['\''];
    let s = seq!['\''] + x + seq!['\''] + tail;
    assert(s[0] == '\'');
    assert(s.drop_first() == x + (q + tail));
    lemma_expand_in_single(x, q + tail, vars);
    assert((q + tail)[0] == '\'');
    assert((q + tail).drop_first() == tail);
    assert(expand_from(q + tail, vars, true, false) == q + expand_from(tail, vars, false, false));
    assert(spec_expand(s, vars) == q + (x + (q + expand_from(tail, vars, false, false))));
    assert(q + (x + (q + expand_from(tail, vars, false, false))) == seq!['\''] + x + seq!['\''] + spec_expand(tail, vars));
}

} // verus!
