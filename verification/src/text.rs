//! Character-level helpers shared by the lexer, the completer and the builtins.
use vstd::prelude::*;
use vstd::string::StringExecFns;

verus! {

/// `String::push` appends one character to the end of the string
/// (std documents it as "Appends the given char to the end of this String").
pub assume_specification[ String::push ](s: &mut String, ch: char)
    ensures
        final(s)@ == old(s)@.push(ch),
;

/// The characters of `s`, in order.
pub fn chars_of(s: &str) -> (v: Vec<char>)
    ensures
        v@ == s@,
{
    let mut v: Vec<char> = Vec::new();
    for c in it: s.chars()
        invariant
            it.seq() == s@,
            v@ == it.seq().take(it.index() as int),
    {
        v.push(c);
    }
    v
}

/// A `String` holding exactly the characters of `v`.
pub fn string_of(v: &[char]) -> (s: String)
    ensures
        s@ == v@,
{
    let mut s = String::new();
    let mut i: usize = 0;
    while i < v.len()
        invariant
            i <= v@.len(),
            s@ == v@.take(i as int),
        decreases v@.len() - i,
    {
        s.push(v[i]);
        i = i + 1;
        assert(v@.take(i as int) == v@.take((i - 1) as int).push(v@[i - 1]));
    }
    assert(v@.take(v@.len() as int) == v@);
    s
}


/// Whether two character slices hold the same characters.
pub fn chars_equal(a: &[char], b: &[char]) -> (eq: bool)
    ensures
        eq == (a@ == b@),
{
    if a.len() != b.len() {
        return false;
    }
    let mut i: usize = 0;
    while i < a.len()
        invariant
            a@.len() == b@.len(),
            i <= a@.len(),
            forall|j: int| 0 <= j < i ==> a@[j] == b@[j],
        decreases a@.len() - i,
    {
        if a[i] != b[i] {
            return false;
        }
        i = i + 1;
    }
    assert(a@ == b@);
    true
}

/// Whether the characters of `s` are exactly those of `lit`.
pub fn str_is(s: &str, lit: &[char]) -> (eq: bool)
    ensures
        eq == (s@ == lit@),
{
    let cs = chars_of(s);
    chars_equal(cs.as_slice(), lit)
}


/// The number of bytes in the UTF-8 encoding of `s`.
pub fn byte_len(s: &str) -> (n: usize)
    ensures
        n == vstd::utf8::encode_utf8(s@).len(),
{
    let b = s.as_bytes();
    b.len()
}

/// The Unicode `White_Space` property, which `char::is_whitespace`, `str::trim` and
/// `str::split_whitespace` go by.
pub open spec fn is_white_space(c: char) -> bool {
    ||| ('\u{9}' <= c && c <= '\u{d}')
    ||| c == ' '
    ||| c == '\u{85}'
    ||| c == '\u{a0}'
    ||| c == '\u{1680}'
    ||| ('\u{2000}' <= c && c <= '\u{200a}')
    ||| c == '\u{2028}'
    ||| c == '\u{2029}'
    ||| c == '\u{202f}'
    ||| c == '\u{205f}'
    ||| c == '\u{3000}'
}

pub fn white_space(c: char) -> (b: bool)
    ensures
        b == is_white_space(c),
{
    ('\u{9}' <= c && c <= '\u{d}') || c == ' ' || c == '\u{85}' || c == '\u{a0}' || c == '\u{1680}'
        || ('\u{2000}' <= c && c <= '\u{200a}') || c == '\u{2028}' || c == '\u{2029}' || c
        == '\u{202f}' || c == '\u{205f}' || c == '\u{3000}'
}

/// `s` without its leading white space.
pub open spec fn trim_start(s: Seq<char>) -> Seq<char>
    decreases s.len(),
{
    if s.len() > 0 && is_white_space(s[0]) { trim_start(s.drop_first()) } else { s }
}

/// `s` without its trailing white space.
pub open spec fn trim_end(s: Seq<char>) -> Seq<char>
    decreases s.len(),
{
    if s.len() > 0 && is_white_space(s.last()) { trim_end(s.drop_last()) } else { s }
}

/// `s` without leading and trailing white space, as `str::trim` gives it.
pub open spec fn trim(s: Seq<char>) -> Seq<char> {
    trim_end(trim_start(s))
}

proof fn lemma_trim_start_skip(s: Seq<char>, i: int)
    requires
        0 <= i <= s.len(),
        forall|j: int| 0 <= j < i ==> is_white_space(#[trigger] s[j]),
    ensures
        trim_start(s) == trim_start(s.skip(i)),
    decreases i,
{
    if i > 0 {
        assert(s.skip(1) == s.drop_first());
        assert forall|j: int| 0 <= j < i - 1 implies is_white_space(#[trigger] s.drop_first()[j]) by {
            assert(s[j + 1] == s.drop_first()[j]);
        }
        lemma_trim_start_skip(s.drop_first(), i - 1);
        assert(s.drop_first().skip(i - 1) == s.skip(i));
    } else {
        assert(s.skip(0) == s);
    }
}

proof fn lemma_trim_end_take(s: Seq<char>, i: int)
    requires
        0 <= i <= s.len(),
        forall|j: int| i <= j < s.len() ==> is_white_space(#[trigger] s[j]),
    ensures
        trim_end(s) == trim_end(s.take(i)),
    decreases s.len() - i,
{
    if i < s.len() {
        assert forall|j: int| i <= j < s.drop_last().len() implies is_white_space(#[trigger] s.drop_last()[j]) by {
            assert(s[j] == s.drop_last()[j]);
        }
        lemma_trim_end_take(s.drop_last(), i);
        assert(s.drop_last().take(i) == s.take(i));
    } else {
        assert(s.take(i) == s);
    }
}

/// The characters of `s` without leading and trailing white space.
pub fn trim_chars(s: &[char]) -> (t: Vec<char>)
    ensures
        t@ == trim(s@),
{
    let mut start: usize = 0;
    while start < s.len() && white_space(s[start])
        invariant
            start <= s@.len(),
            forall|j: int| 0 <= j < start ==> is_white_space(#[trigger] s@[j]),
        decreases s@.len() - start,
    {
        start = start + 1;
    }
    proof {
        lemma_trim_start_skip(s@, start as int);
    }
    let ghost rest = s@.skip(start as int);
    assert(trim_start(rest) == rest);
    let mut end: usize = s.len();
    while end > start && white_space(s[end - 1])
        invariant
            start <= end <= s@.len(),
            forall|j: int| end <= j < s@.len() ==> is_white_space(#[trigger] s@[j]),
        decreases end - start,
    {
        end = end - 1;
    }
    proof {
        assert forall|j: int| end - start <= j < rest.len() implies is_white_space(#[trigger] rest[j]) by {
            assert(rest[j] == s@[j + start]);
        }
        lemma_trim_end_take(rest, end - start);
        assert(rest.take(end - start) == s@.subrange(start as int, end as int));
    }
    let mut t: Vec<char> = Vec::new();
    let mut k: usize = start;
    while k < end
        invariant
            start <= k <= end <= s@.len(),
            t@ == s@.subrange(start as int, k as int),
        decreases end - k,
    {
        t.push(s[k]);
        k = k + 1;
        assert(t@ == s@.subrange(start as int, k as int));
    }
    t
}

/// Pushes `word` onto `words` unless it is empty.
pub open spec fn push_word(words: Seq<Seq<char>>, word: Seq<char>) -> Seq<Seq<char>> {
    if word.len() == 0 { words } else { words.push(word) }
}

/// The white-space separated words of `s`, read after `words` and the partial `word`.
pub open spec fn split_ws_from(s: Seq<char>, words: Seq<Seq<char>>, word: Seq<char>) -> Seq<Seq<char>>
    decreases s.len(),
{
    if s.len() == 0 {
        push_word(words, word)
    } else if is_white_space(s[0]) {
        split_ws_from(s.drop_first(), push_word(words, word), seq![])
    } else {
        split_ws_from(s.drop_first(), words, word.push(s[0]))
    }
}

/// The non-empty runs of non-white-space characters of `s`, as `str::split_whitespace`
/// gives them.
pub open spec fn split_ws(s: Seq<char>) -> Seq<Seq<char>> {
    split_ws_from(s, seq![], seq![])
}

pub fn split_whitespace_chars(s: &[char]) -> (words: Vec<String>)
    ensures
        words.deep_view() == split_ws(s@),
{
    let mut words: Vec<String> = Vec::new();
    let mut word: Vec<char> = Vec::new();
    let mut i: usize = 0;
    assert(s@.skip(0) == s@);
    assert(words.deep_view() == Seq::<Seq<char>>::empty());
    assert(word@ == Seq::<char>::empty());
    while i < s.len()
        invariant
            i <= s@.len(),
            split_ws(s@) == split_ws_from(s@.skip(i as int), words.deep_view(), word@),
        decreases s@.len() - i,
    {
        let ghost rest = s@.skip(i as int);
        assert(rest[0] == s@[i as int]);
        assert(rest.drop_first() == s@.skip(i + 1));
        if white_space(s[i]) {
            if word.len() > 0 {
                let ghost old_words = words.deep_view();
                let w = string_of(word.as_slice());
                words.push(w);
                assert(words.deep_view() == old_words.push(word@));
            }
            word = Vec::new();
            assert(word@ == Seq::<char>::empty());
        } else {
            word.push(s[i]);
        }
        i = i + 1;
    }
    assert(s@.skip(i as int).len() == 0);
    if word.len() > 0 {
        let ghost old_words = words.deep_view();
        words.push(string_of(word.as_slice()));
        assert(words.deep_view() == old_words.push(word@));
    }
    words
}


/// A line as `str::lines` yields it: a `\r` right before the `\n` that ends it is dropped.
pub open spec fn strip_cr(line: Seq<char>) -> Seq<char> {
    if line.len() > 0 && line.last() == '\r' { line.drop_last() } else { line }
}

/// The lines of `s`, read after the finished `done` and the partial `line`: a `\n`
/// ends a line (dropping a `\r` just before it), and a final line is kept only if
/// non-empty, so a trailing `\n` adds no empty line.
pub open spec fn lines_from(s: Seq<char>, done: Seq<Seq<char>>, line: Seq<char>) -> Seq<Seq<char>>
    decreases s.len(),
{
    if s.len() == 0 {
        if line.len() == 0 { done } else { done.push(line) }
    } else if s[0] == '\n' {
        lines_from(s.drop_first(), done.push(strip_cr(line)), seq![])
    } else {
        lines_from(s.drop_first(), done, line.push(s[0]))
    }
}

/// The lines of `s`, as `str::lines` gives them.
pub open spec fn lines(s: Seq<char>) -> Seq<Seq<char>> {
    lines_from(s, seq![], seq![])
}

pub fn lines_of(s: &str) -> (ls: Vec<String>)
    ensures
        ls.deep_view() == lines(s@),
{
    let cs = chars_of(s);
    let mut ls: Vec<String> = Vec::new();
    let mut line: Vec<char> = Vec::new();
    let mut i: usize = 0;
    assert(cs@.skip(0) == cs@);
    assert(ls.deep_view() == Seq::<Seq<char>>::empty());
    assert(line@ == Seq::<char>::empty());
    while i < cs.len()
        invariant
            cs@ == s@,
            i <= cs@.len(),
            lines(s@) == lines_from(cs@.skip(i as int), ls.deep_view(), line@),
        decreases cs@.len() - i,
    {
        let ghost rest = cs@.skip(i as int);
        assert(rest[0] == cs@[i as int]);
        assert(rest.drop_first() == cs@.skip(i + 1));
        if cs[i] == '\n' {
            let ghost old_ls = ls.deep_view();
            let ghost old_line = line@;
            let n = line.len();
            if n > 0 && line[n - 1] == '\r' {
                line.pop();
            }
            assert(line@ == strip_cr(old_line));
            ls.push(string_of(line.as_slice()));
            assert(ls.deep_view() == old_ls.push(line@));
            line = Vec::new();
            assert(line@ == Seq::<char>::empty());
        } else {
            line.push(cs[i]);
        }
        i = i + 1;
    }
    assert(cs@.skip(i as int).len() == 0);
    if line.len() > 0 {
        let ghost old_ls = ls.deep_view();
        ls.push(string_of(line.as_slice()));
        assert(ls.deep_view() == old_ls.push(line@));
    }
    ls
}


/// The words joined, `sep` between each two, as `[String]::join` gives them.
pub open spec fn join_with(ws: Seq<Seq<char>>, sep: Seq<char>) -> Seq<char>
    decreases ws.len(),
{
    if ws.len() == 0 {
        seq![]
    } else if ws.len() == 1 {
        ws[0]
    } else {
        join_with(ws.drop_last(), sep) + sep + ws.last()
    }
}

pub fn join_strings(ws: &[String], sep: &str) -> (res: String)
    ensures
        res@ == join_with(ws.deep_view(), sep@),
{
    let ghost v = ws.deep_view();
    let mut res = String::new();
    if ws.len() == 0 {
        return res;
    }
    res.append(ws[0].as_str());
    assert(v.take(1).drop_last() == v.take(0));
    assert(res@ == join_with(v.take(1), sep@));
    let mut k: usize = 1;
    while k < ws.len()
        invariant
            v == ws.deep_view(),
            1 <= k <= ws@.len(),
            res@ == join_with(v.take(k as int), sep@),
        decreases ws@.len() - k,
    {
        res.append(sep);
        res.append(ws[k].as_str());
        assert(v.take(k + 1).drop_last() == v.take(k as int));
        assert(v[k as int] == ws@[k as int]@);
        k = k + 1;
    }
    assert(v.take(ws@.len() as int) == v);
    res
}

pub open spec fn digit_char(d: nat) -> char {
    if d == 0 { '0' } else if d == 1 { '1' } else if d == 2 { '2' } else if d == 3 { '3' }
    else if d == 4 { '4' } else if d == 5 { '5' } else if d == 6 { '6' } else if d == 7 { '7' }
    else if d == 8 { '8' } else { '9' }
}

/// The decimal digits of `n`, most significant first.
pub open spec fn decimal(n: nat) -> Seq<char>
    decreases n,
{
    if n < 10 { seq![digit_char(n)] } else { decimal(n / 10).push(digit_char(n % 10)) }
}

fn digit(d: usize) -> (c: char)
    requires
        d < 10,
    ensures
        c == digit_char(d as nat),
{
    if d == 0 { '0' } else if d == 1 { '1' } else if d == 2 { '2' } else if d == 3 { '3' }
    else if d == 4 { '4' } else if d == 5 { '5' } else if d == 6 { '6' } else if d == 7 { '7' }
    else if d == 8 { '8' } else { '9' }
}

/// `n` written in decimal, as `usize::to_string` gives it.
pub fn decimal_string(n: usize) -> (s: String)
    ensures
        s@ == decimal(n as nat),
    decreases n,
{
    if n < 10 {
        let mut s = String::new();
        s.push(digit(n));
        assert(s@ == seq![digit_char(n as nat)]);
        s
    } else {
        let mut s = decimal_string(n / 10);
        s.push(digit(n % 10));
        s
    }
}

/// Whether `p` is a prefix of `s`.
pub fn has_prefix(s: &[char], p: &[char]) -> (b: bool)
    ensures
        b == p@.is_prefix_of(s@),
{
    if p.len() > s.len() {
        return false;
    }
    let mut i: usize = 0;
    while i < p.len()
        invariant
            p@.len() <= s@.len(),
            i <= p@.len(),
            forall|j: int| 0 <= j < i ==> p@[j] == s@[j],
        decreases p@.len() - i,
    {
        if p[i] != s[i] {
            return false;
        }
        i = i + 1;
    }
    true
}

/// Strict lexicographic order on character sequences, by code point; for UTF-8
/// strings this is the byte-wise order in which `str` compares.
pub open spec fn seq_lt(a: Seq<char>, b: Seq<char>) -> bool
    decreases a.len(),
{
    if a.len() == 0 {
        b.len() > 0
    } else if b.len() == 0 {
        false
    } else if a[0] != b[0] {
        a[0] < b[0]
    } else {
        seq_lt(a.drop_first(), b.drop_first())
    }
}

/// Nothing comes before itself.
pub proof fn lemma_seq_lt_irreflexive(a: Seq<char>)
    ensures
        !seq_lt(a, a),
    decreases a.len(),
{
    if a.len() > 0 {
        lemma_seq_lt_irreflexive(a.drop_first());
    }
}

/// The order is transitive.
pub proof fn lemma_seq_lt_transitive(a: Seq<char>, b: Seq<char>, c: Seq<char>)
    requires
        seq_lt(a, b),
        seq_lt(b, c),
    ensures
        seq_lt(a, c),
    decreases a.len(),
{
    if a.len() > 0 && b.len() > 0 && c.len() > 0 && a[0] == b[0] && b[0] == c[0] {
        lemma_seq_lt_transitive(a.drop_first(), b.drop_first(), c.drop_first());
    }
}

/// Of two different sequences one comes before the other.
pub proof fn lemma_seq_lt_total(a: Seq<char>, b: Seq<char>)
    ensures
        a == b || seq_lt(a, b) || seq_lt(b, a),
    decreases a.len(),
{
    if a.len() > 0 && b.len() > 0 {
        if a[0] == b[0] {
            lemma_seq_lt_total(a.drop_first(), b.drop_first());
            if a.drop_first() == b.drop_first() {
                assert(a == seq![a[0]] + a.drop_first());
                assert(b == seq![b[0]] + b.drop_first());
            }
        }
    } else if a.len() == 0 && b.len() == 0 {
        assert(a == b);
    }
}

/// Whether `a` comes strictly before `b`.
pub fn chars_lt(a: &[char], b: &[char]) -> (lt: bool)
    ensures
        lt == seq_lt(a@, b@),
{
    let mut i: usize = 0;
    assert(a@.skip(0) == a@);
    assert(b@.skip(0) == b@);
    while i < a.len() && i < b.len() && a[i] == b[i]
        invariant
            i <= a@.len(),
            i <= b@.len(),
            seq_lt(a@, b@) == seq_lt(a@.skip(i as int), b@.skip(i as int)),
        decreases a@.len() - i,
    {
        assert(a@.skip(i as int).drop_first() == a@.skip(i + 1));
        assert(b@.skip(i as int).drop_first() == b@.skip(i + 1));
        i = i + 1;
    }
    if i == a.len() {
        i < b.len()
    } else if i == b.len() {
        false
    } else {
        a[i] < b[i]
    }
}

pub fn str_lt(a: &str, b: &str) -> (lt: bool)
    ensures
        lt == seq_lt(a@, b@),
{
    let ca = chars_of(a);
    let cb = chars_of(b);
    chars_lt(ca.as_slice(), cb.as_slice())
}

/// No element's key comes strictly before an earlier element's key.
pub open spec fn sorted_by_key<T>(s: Seq<T>, key: spec_fn(T) -> Seq<char>) -> bool {
    forall|i: int, j: int| 0 <= i < j < s.len() ==> !seq_lt(key(#[trigger] s[j]), key(#[trigger] s[i]))
}

/// No element comes strictly before an earlier one.
pub open spec fn sorted(s: Seq<Seq<char>>) -> bool {
    sorted_by_key(s, |w: Seq<char>| w)
}

/// Where `x` goes in `r`: before the first element whose key is strictly greater, so
/// after every element with an equal key.
pub open spec fn insert_pos<T>(r: Seq<T>, x: T, key: spec_fn(T) -> Seq<char>) -> nat
    decreases r.len(),
{
    if r.len() == 0 {
        0
    } else if seq_lt(key(x), key(r[0])) {
        0
    } else {
        1 + insert_pos(r.drop_first(), x, key)
    }
}

/// `s` stably sorted by `key`: elements with equal keys keep their order.
pub open spec fn sort_by_key<T>(s: Seq<T>, key: spec_fn(T) -> Seq<char>) -> Seq<T>
    decreases s.len(),
{
    if s.len() == 0 {
        seq![]
    } else {
        let r = sort_by_key(s.drop_last(), key);
        r.insert(insert_pos(r, s.last(), key) as int, s.last())
    }
}

/// Character sequences in ascending order, as `sort` orders strings.
pub open spec fn sort_seqs(s: Seq<Seq<char>>) -> Seq<Seq<char>> {
    sort_by_key(s, |w: Seq<char>| w)
}

proof fn lemma_insert_pos<T>(r: Seq<T>, x: T, key: spec_fn(T) -> Seq<char>, p: int)
    requires
        0 <= p <= r.len(),
        forall|k: int| 0 <= k < p ==> !seq_lt(key(x), key(#[trigger] r[k])),
        p == r.len() || seq_lt(key(x), key(r[p])),
    ensures
        insert_pos(r, x, key) == p,
    decreases p,
{
    if p > 0 {
        assert(!seq_lt(key(x), key(r[0])));
        assert forall|k: int| 0 <= k < p - 1 implies !seq_lt(key(x), key(#[trigger] r.drop_first()[k])) by {
            assert(r.drop_first()[k] == r[k + 1]);
        }
        if p < r.len() {
            assert(r.drop_first()[p - 1] == r[p]);
        }
        lemma_insert_pos(r.drop_first(), x, key, p - 1);
    }
}

/// Inserting at the first strictly greater key keeps a sorted sequence sorted.
proof fn lemma_insert_sorted<T>(r: Seq<T>, x: T, key: spec_fn(T) -> Seq<char>, p: int)
    requires
        sorted_by_key(r, key),
        0 <= p <= r.len(),
        forall|k: int| 0 <= k < p ==> !seq_lt(key(x), key(#[trigger] r[k])),
        p == r.len() || seq_lt(key(x), key(r[p])),
    ensures
        sorted_by_key(r.insert(p, x), key),
{
    let n = r.insert(p, x);
    assert forall|k: int| p <= k < r.len() implies !seq_lt(key(#[trigger] r[k]), key(x)) by {
        if seq_lt(key(r[k]), key(x)) {
            if k == p {
                lemma_seq_lt_transitive(key(r[k]), key(x), key(r[k]));
                lemma_seq_lt_irreflexive(key(r[k]));
            } else {
                assert(!seq_lt(key(r[k]), key(r[p])));
                lemma_seq_lt_transitive(key(r[k]), key(x), key(r[p]));
            }
        }
    }
    assert forall|i: int, j: int| 0 <= i < j < n.len() implies !seq_lt(key(#[trigger] n[j]), key(#[trigger] n[i])) by {
        if i < p && j < p {
            assert(n[i] == r[i] && n[j] == r[j]);
        } else if i < p && j == p {
            assert(n[i] == r[i] && n[j] == x);
        } else if i < p {
            assert(n[i] == r[i] && n[j] == r[j - 1]);
        } else if i == p {
            assert(n[i] == x && n[j] == r[j - 1]);
        } else {
            assert(n[i] == r[i - 1] && n[j] == r[j - 1]);
        }
    }
}

/// A stable sort keeps the multiset of elements and orders them by key.
pub proof fn lemma_sort_by_key<T>(s: Seq<T>, key: spec_fn(T) -> Seq<char>)
    ensures
        sorted_by_key(sort_by_key(s, key), key),
        sort_by_key(s, key).to_multiset() == s.to_multiset(),
        sort_by_key(s, key).len() == s.len(),
    decreases s.len(),
{
    if s.len() > 0 {
        let r = sort_by_key(s.drop_last(), key);
        lemma_sort_by_key(s.drop_last(), key);
        let x = s.last();
        let p = insert_pos(r, x, key) as int;
        lemma_insert_pos_props(r, x, key);
        lemma_insert_sorted(r, x, key, p);
        vstd::seq_lib::to_multiset_insert(r, p, x);
        vstd::seq_lib::to_multiset_build(s.drop_last(), x);
        assert(s.drop_last().push(x) == s);
    } else {
        assert(s == Seq::<T>::empty());
    }
}

proof fn lemma_insert_pos_props<T>(r: Seq<T>, x: T, key: spec_fn(T) -> Seq<char>)
    ensures
        insert_pos(r, x, key) <= r.len(),
        forall|k: int| 0 <= k < insert_pos(r, x, key) ==> !seq_lt(key(x), key(#[trigger] r[k])),
        insert_pos(r, x, key) == r.len() || seq_lt(key(x), key(r[insert_pos(r, x, key) as int])),
    decreases r.len(),
{
    if r.len() > 0 && !seq_lt(key(x), key(r[0])) {
        lemma_insert_pos_props(r.drop_first(), x, key);
        let q = insert_pos(r.drop_first(), x, key) as int;
        assert forall|k: int| 0 <= k < q + 1 implies !seq_lt(key(x), key(#[trigger] r[k])) by {
            if k > 0 {
                assert(r[k] == r.drop_first()[k - 1]);
            }
        }
        if q < r.drop_first().len() {
            assert(r[q + 1] == r.drop_first()[q]);
        }
    }
}

/// The strings in ascending order (equal ones keep their relative order), as
/// `sort` on strings gives them.
pub fn sort_strings(v: &[String]) -> (r: Vec<String>)
    ensures
        r.deep_view() == sort_seqs(v.deep_view()),
{
    let ghost dv = v.deep_view();
    let ghost key = |w: Seq<char>| w;
    let mut r: Vec<String> = Vec::new();
    let mut i: usize = 0;
    assert(dv.take(0) == Seq::<Seq<char>>::empty());
    assert(r.deep_view() == Seq::<Seq<char>>::empty());
    while i < v.len()
        invariant
            dv == v.deep_view(),
            i <= v@.len(),
            r.deep_view() == sort_by_key(dv.take(i as int), key),
            key == (|w: Seq<char>| w),
        decreases v@.len() - i,
    {
        let x = v[i].clone();
        assert(x@ == dv[i as int]);
        let ghost rv = r.deep_view();
        let mut p: usize = 0;
        while p < r.len() && !str_lt(x.as_str(), r[p].as_str())
            invariant
                rv == r.deep_view(),
                p <= r@.len(),
                key == (|w: Seq<char>| w),
                forall|k: int| 0 <= k < p ==> !seq_lt(key(x@), key(#[trigger] rv[k])),
            decreases r@.len() - p,
        {
            p = p + 1;
        }
        proof {
            lemma_insert_pos(rv, x@, key, p as int);
            assert(dv.take(i + 1).drop_last() == dv.take(i as int));
            assert(dv.take(i + 1).last() == x@);
        }
        r.insert(p, x);
        assert(r.deep_view() == rv.insert(p as int, x@));
        i = i + 1;
    }
    assert(dv.take(v@.len() as int) == dv);
    r
}

/// The view of a named entry: its name and whether it is a directory.
pub open spec fn entry_view(e: (String, bool)) -> (Seq<char>, bool) {
    (e.0@, e.1)
}

pub open spec fn entries_view(v: Seq<(String, bool)>) -> Seq<(Seq<char>, bool)> {
    v.map_values(|e: (String, bool)| entry_view(e))
}

/// Entries stably sorted by name, as `sort_by` comparing the names gives them.
pub fn sort_entries(v: &[(String, bool)]) -> (r: Vec<(String, bool)>)
    ensures
        entries_view(r@) == sort_by_key(entries_view(v@), |e: (Seq<char>, bool)| e.0),
{
    let ghost dv = entries_view(v@);
    let ghost key = |e: (Seq<char>, bool)| e.0;
    let mut r: Vec<(String, bool)> = Vec::new();
    let mut i: usize = 0;
    assert(dv.take(0) == Seq::<(Seq<char>, bool)>::empty());
    assert(entries_view(r@) == Seq::<(Seq<char>, bool)>::empty());
    while i < v.len()
        invariant
            dv == entries_view(v@),
            i <= v@.len(),
            entries_view(r@) == sort_by_key(dv.take(i as int), key),
            key == (|e: (Seq<char>, bool)| e.0),
        decreases v@.len() - i,
    {
        let x = (v[i].0.clone(), v[i].1);
        assert(entry_view(x) == dv[i as int]);
        let ghost rv = entries_view(r@);
        let mut p: usize = 0;
        while p < r.len() && !str_lt(x.0.as_str(), r[p].0.as_str())
            invariant
                rv == entries_view(r@),
                p <= r@.len(),
                key == (|e: (Seq<char>, bool)| e.0),
                forall|k: int| 0 <= k < p ==> !seq_lt(key(entry_view(x)), key(#[trigger] rv[k])),
            decreases r@.len() - p,
        {
            assert(rv[p as int] == entry_view(r@[p as int]));
            p = p + 1;
        }
        proof {
            if p < r@.len() {
                assert(rv[p as int] == entry_view(r@[p as int]));
            }
            lemma_insert_pos(rv, entry_view(x), key, p as int);
            assert(dv.take(i + 1).drop_last() == dv.take(i as int));
            assert(dv.take(i + 1).last() == entry_view(x));
        }
        r.insert(p, x);
        assert(entries_view(r@) == rv.insert(p as int, entry_view(x)));
        i = i + 1;
    }
    assert(dv.take(v@.len() as int) == dv);
    r
}

} // verus!
