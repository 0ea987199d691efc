//! Splitting a command line into words, honouring quotes and backslash escapes.
use vstd::prelude::*;
use crate::text::{chars_of, string_of};

verus! {

/// Where the lexer stands between two characters of the input: the words
/// finished so far, the word being built, and which kind of quote is open.
pub struct LexState {
    pub words: Seq<Seq<char>>,
    pub current: Seq<char>,
    pub in_single: bool,
    pub in_double: bool,
}

pub open spec fn is_blank(c: char) -> bool {
    c == ' ' || c == '\t'
}

/// The state before the first character.
pub open spec fn lex_start() -> LexState {
    LexState { words: seq![], current: seq![], in_single: false, in_double: false }
}

/// Closes the word being built, if it holds any character.
pub open spec fn flush(words: Seq<Seq<char>>, current: Seq<char>) -> Seq<Seq<char>> {
    if current.len() == 0 { words } else { words.push(current) }
}

pub open spec fn with_current(st: LexState, current: Seq<char>) -> LexState {
    LexState { current, ..st }
}

/// The words of `input`, read from state `st`:
/// - outside quotes a backslash takes the next character literally (a backslash at the
///   very end is dropped), blanks (space, tab) end a word, `'` and `"` open a quote;
/// - inside single quotes every character but the closing `'` is literal;
/// - inside double quotes a backslash escapes only `"` and `\` (before any other
///   character it stays, a backslash at the very end is dropped), and every other
///   character but the closing `"` is literal;
/// - empty words are never produced, so `''` alone yields nothing.
pub open spec fn lex(input: Seq<char>, st: LexState) -> Seq<Seq<char>>
    decreases input.len(),
{
    if input.len() == 0 {
        flush(st.words, st.current)
    } else {
        let c = input[0];
        let rest = input.drop_first();
        if c == '\\' && !st.in_single && !st.in_double {
            if rest.len() == 0 {
                lex(rest, st)
            } else {
                lex(rest.drop_first(), with_current(st, st.current.push(rest[0])))
            }
        } else if c == '\\' && st.in_double {
            if rest.len() == 0 {
                lex(rest, st)
            } else if rest[0] == '"' || rest[0] == '\\' {
                lex(rest.drop_first(), with_current(st, st.current.push(rest[0])))
            } else {
                lex(rest.drop_first(), with_current(st, st.current.push('\\').push(rest[0])))
            }
        } else if c == '\'' && !st.in_single && !st.in_double {
            lex(rest, LexState { in_single: true, ..st })
        } else if c == '\'' && st.in_single {
            lex(rest, LexState { in_single: false, ..st })
        } else if c == '"' && !st.in_single && !st.in_double {
            lex(rest, LexState { in_double: true, ..st })
        } else if c == '"' && st.in_double {
            lex(rest, LexState { in_double: false, ..st })
        } else if is_blank(c) && !st.in_single && !st.in_double {
            lex(rest, LexState { words: flush(st.words, st.current), current: seq![], ..st })
        } else {
            lex(rest, with_current(st, st.current.push(c)))
        }
    }
}

/// The words of a whole command line.
pub open spec fn spec_parse_args(input: Seq<char>) -> Seq<Seq<char>> {
    lex(input, lex_start())
}

/// Splits `input` into words as a POSIX-ish shell does: quotes group, backslashes
/// escape, unquoted spaces and tabs separate.
pub fn parse_args(input: &str) -> (args: Vec<String>)
    ensures
        args.deep_view() == spec_parse_args(input@),
{
    let chars = chars_of(input);
    let mut args: Vec<String> = Vec::new();
    let mut current: Vec<char> = Vec::new();
    let mut in_single_quote = false;
    let mut in_double_quote = false;
    let mut i: usize = 0;
    let n = chars.len();
    assert(chars@.skip(0) == chars@);
    assert(args.deep_view() == Seq::<Seq<char>>::empty());
    assert(current@ == Seq::<char>::empty());
    while i < n
        invariant
            n == chars@.len(),
            chars@ == input@,
            i <= n,
            lex(input@, lex_start()) == lex(
                chars@.skip(i as int),
                LexState {
                    words: args.deep_view(),
                    current: current@,
                    in_single: in_single_quote,
                    in_double: in_double_quote,
                },
            ),
            !(in_single_quote && in_double_quote),
        decreases n - i,
    {
        let ghost rest = chars@.skip(i as int);
        let ghost st = LexState {
            words: args.deep_view(),
            current: current@,
            in_single: in_single_quote,
            in_double: in_double_quote,
        };
        let c = chars[i];
        i = i + 1;
        assert(rest.drop_first() == chars@.skip(i as int));
        if c == '\\' && !in_single_quote && !in_double_quote {
            if i < n {
                assert(rest.drop_first().drop_first() == chars@.skip(i + 1));
                current.push(chars[i]);
                i = i + 1;
            }
        } else if c == '\\' && in_double_quote {
            if i < n {
                assert(rest.drop_first().drop_first() == chars@.skip(i + 1));
                let next = chars[i];
                i = i + 1;
                if next == '"' || next == '\\' {
                    current.push(next);
                } else {
                    current.push('\\');
                    current.push(next);
                }
            }
        } else if c == '\'' && !in_single_quote && !in_double_quote {
            in_single_quote = true;
        } else if c == '\'' && in_single_quote {
            in_single_quote = false;
        } else if c == '"' && !in_single_quote && !in_double_quote {
            in_double_quote = true;
        } else if c == '"' && in_double_quote {
            in_double_quote = false;
        } else if (c == ' ' || c == '\t') && !in_single_quote && !in_double_quote {
            if current.len() > 0 {
                let ghost old_words = args.deep_view();
                args.push(string_of(current.as_slice()));
                assert(args.deep_view() == old_words.push(current@));
                current = Vec::new();
            }
            assert(current@ =~= Seq::<char>::empty());
        } else {
            current.push(c);
        }
        assert(lex(rest, st) == lex(
            chars@.skip(i as int),
            LexState {
                words: args.deep_view(),
                current: current@,
                in_single: in_single_quote,
                in_double: in_double_quote,
            },
        ));
    }
    assert(chars@.skip(n as int).len() == 0);
    if current.len() > 0 {
        let ghost old_words = args.deep_view();
        args.push(string_of(current.as_slice()));
        assert(args.deep_view() == old_words.push(current@));
    }
    args
}


/// A lexer state outside any quote.
pub open spec fn unquoted(words: Seq<Seq<char>>, current: Seq<char>) -> LexState {
    LexState { words, current, in_single: false, in_double: false }
}

/// A lexer state inside single quotes.
pub open spec fn single_quoted(words: Seq<Seq<char>>, current: Seq<char>) -> LexState {
    LexState { words, current, in_single: true, in_double: false }
}

/// Words separated by one space each.
pub open spec fn join_words(ws: Seq<Seq<char>>) -> Seq<char>
    decreases ws.len(),
{
    if ws.len() == 0 {
        seq![]
    } else if ws.len() == 1 {
        ws[0]
    } else {
        ws[0] + seq![' '] + join_words(ws.drop_first())
    }
}

/// Every character of `w` preceded by a backslash.
pub open spec fn escape_word(w: Seq<char>) -> Seq<char>
    decreases w.len(),
{
    if w.len() == 0 {
        seq![]
    } else {
        seq!['\\', w[0]] + escape_word(w.drop_first())
    }
}

/// `w` between single quotes.
pub open spec fn single_quote_word(w: Seq<char>) -> Seq<char> {
    seq!['\''] + w + seq!['\'']
}

/// A character that the lexer treats specially outside quotes.
pub open spec fn is_special(c: char) -> bool {
    is_blank(c) || c == '\\' || c == '\'' || c == '"'
}

pub open spec fn all_nonempty(ws: Seq<Seq<char>>) -> bool {
    forall|i: int| 0 <= i < ws.len() ==> #[trigger] ws[i].len() > 0
}

proof fn lemma_lex_escaped(w: Seq<char>, tail: Seq<char>, words: Seq<Seq<char>>, cur: Seq<char>)
    ensures
        lex(escape_word(w) + tail, unquoted(words, cur)) == lex(tail, unquoted(words, cur + w)),
    decreases w.len(),
{
    if w.len() == 0 {
        assert(escape_word(w) + tail == tail);
        assert(cur + w == cur);
    } else {
        let inner = escape_word(w.drop_first()) + tail;
        assert(escape_word(w) + tail == seq!['\\', w[0]] + inner);
        let input = seq!['\\', w[0]] + inner;
        assert(input.drop_first().drop_first() == inner);
        assert(input[0] == '\\');
        assert(input.drop_first()[0] == w[0]);
        lemma_lex_escaped(w.drop_first(), tail, words, cur.push(w[0]));
        assert(cur.push(w[0]) + w.drop_first() == cur + w);
    }
}

proof fn lemma_lex_plain(w: Seq<char>, tail: Seq<char>, words: Seq<Seq<char>>, cur: Seq<char>)
    requires
        forall|i: int| 0 <= i < w.len() ==> !is_special(#[trigger] w[i]),
    ensures
        lex(w + tail, unquoted(words, cur)) == lex(tail, unquoted(words, cur + w)),
    decreases w.len(),
{
    if w.len() == 0 {
        assert(w + tail == tail);
        assert(cur + w == cur);
    } else {
        let input = w + tail;
        assert(input[0] == w[0]);
        assert(input.drop_first() == w.drop_first() + tail);
        lemma_lex_plain(w.drop_first(), tail, words, cur.push(w[0]));
        assert(cur.push(w[0]) + w.drop_first() == cur + w);
    }
}

proof fn lemma_lex_inside_single(w: Seq<char>, tail: Seq<char>, words: Seq<Seq<char>>, cur: Seq<char>)
    requires
        !w.contains('\''),
    ensures
        lex(w + tail, single_quoted(words, cur)) == lex(tail, single_quoted(words, cur + w)),
    decreases w.len(),
{
    if w.len() == 0 {
        assert(w + tail == tail);
        assert(cur + w == cur);
    } else {
        let input = w + tail;
        assert(input[0] == w[0]);
        assert(w[0] != '\'') by {
            if w[0] == '\'' {
                assert(w.contains('\''));
            }
        }
        assert(input.drop_first() == w.drop_first() + tail);
        assert(!w.drop_first().contains('\'')) by {
            if w.drop_first().contains('\'') {
                let k = choose|k: int| 0 <= k < w.drop_first().len() && w.drop_first()[k] == '\'';
                assert(w[k + 1] == '\'');
            }
        }
        lemma_lex_inside_single(w.drop_first(), tail, words, cur.push(w[0]));
        assert(cur.push(w[0]) + w.drop_first() == cur + w);
    }
}

proof fn lemma_lex_single_quoted(w: Seq<char>, tail: Seq<char>, words: Seq<Seq<char>>, cur: Seq<char>)
    requires
        !w.contains('\''),
    ensures
        lex(single_quote_word(w) + tail, unquoted(words, cur)) == lex(tail, unquoted(words, cur + w)),
{
    let after_open = w + (seq!['\''] + tail);
    let input = single_quote_word(w) + tail;
    assert(input == seq!['\''] + after_open);
    assert(input[0] == '\'');
    assert(input.drop_first() == after_open);
    lemma_lex_inside_single(w, seq!['\''] + tail, words, cur);
    let closing = seq!['\''] + tail;
    assert(closing[0] == '\'');
    assert(closing.drop_first() == tail);
}

proof fn lemma_lex_blank(tail: Seq<char>, words: Seq<Seq<char>>, cur: Seq<char>)
    requires
        cur.len() > 0,
    ensures
        lex(seq![' '] + tail, unquoted(words, cur)) == lex(tail, unquoted(words.push(cur), seq![])),
{
    let input = seq![' '] + tail;
    assert(input[0] == ' ');
    assert(input.drop_first() == tail);
}

/// Joining words, each written with every character escaped by a backslash, with
/// single spaces, and lexing the result gives the words back (words are never empty:
/// the lexer drops empty ones).
pub proof fn law_escaped_words_round_trip(ws: Seq<Seq<char>>)
    requires
        all_nonempty(ws),
    ensures
        spec_parse_args(join_words(ws.map_values(|w: Seq<char>| escape_word(w)))) == ws,
{
    lemma_join_escaped(ws, seq![]);
    assert(Seq::<Seq<char>>::empty() + ws == ws);
}

proof fn lemma_join_escaped(ws: Seq<Seq<char>>, words: Seq<Seq<char>>)
    requires
        all_nonempty(ws),
    ensures
        lex(join_words(ws.map_values(|w: Seq<char>| escape_word(w))), unquoted(words, seq![]))
            == words + ws,
    decreases ws.len(),
{
    let enc = ws.map_values(|w: Seq<char>| escape_word(w));
    if ws.len() == 0 {
        assert(words + ws == words);
        assert(flush(words, seq![]) == words);
    } else if ws.len() == 1 {
        assert(ws[0].len() > 0);
        lemma_lex_escaped(ws[0], seq![], words, seq![]);
        assert(enc[0] + Seq::<char>::empty() == enc[0]);
        assert(Seq::<char>::empty() + ws[0] == ws[0]);
        assert(words + ws == words.push(ws[0]));
    } else {
        let rest = ws.drop_first();
        assert(ws[0].len() > 0);
        assert(all_nonempty(rest)) by {
            assert forall|i: int| 0 <= i < rest.len() implies #[trigger] rest[i].len() > 0 by {
                assert(rest[i] == ws[i + 1]);
            }
        }
        assert(enc.drop_first() == rest.map_values(|w: Seq<char>| escape_word(w)));
        let tail = join_words(rest.map_values(|w: Seq<char>| escape_word(w)));
        assert(join_words(enc) == enc[0] + (seq![' '] + tail));
        lemma_lex_escaped(ws[0], seq![' '] + tail, words, seq![]);
        assert(Seq::<char>::empty() + ws[0] == ws[0]);
        lemma_lex_blank(tail, words, ws[0]);
        lemma_join_escaped(rest, words.push(ws[0]));
        assert(words.push(ws[0]) + rest == words + ws);
    }
}

/// Joining words that hold no `'`, each put between single quotes, with single
/// spaces, and lexing the result gives the words back.
pub proof fn law_single_quoted_words_round_trip(ws: Seq<Seq<char>>)
    requires
        all_nonempty(ws),
        forall|i: int| 0 <= i < ws.len() ==> !(#[trigger] ws[i]).contains('\''),
    ensures
        spec_parse_args(join_words(ws.map_values(|w: Seq<char>| single_quote_word(w)))) == ws,
{
    lemma_join_single_quoted(ws, seq![]);
    assert(Seq::<Seq<char>>::empty() + ws == ws);
}

proof fn lemma_join_single_quoted(ws: Seq<Seq<char>>, words: Seq<Seq<char>>)
    requires
        all_nonempty(ws),
        forall|i: int| 0 <= i < ws.len() ==> !(#[trigger] ws[i]).contains('\''),
    ensures
        lex(join_words(ws.map_values(|w: Seq<char>| single_quote_word(w))), unquoted(words, seq![]))
            == words + ws,
    decreases ws.len(),
{
    let enc = ws.map_values(|w: Seq<char>| single_quote_word(w));
    if ws.len() == 0 {
        assert(words + ws == words);
        assert(flush(words, seq![]) == words);
    } else if ws.len() == 1 {
        assert(ws[0].len() > 0);
        assert(!ws[0].contains('\''));
        lemma_lex_single_quoted(ws[0], seq![], words, seq![]);
        assert(enc[0] + Seq::<char>::empty() == enc[0]);
        assert(Seq::<char>::empty() + ws[0] == ws[0]);
        assert(words + ws == words.push(ws[0]));
    } else {
        let rest = ws.drop_first();
        assert(ws[0].len() > 0);
        assert(!ws[0].contains('\''));
        assert(all_nonempty(rest)) by {
            assert forall|i: int| 0 <= i < rest.len() implies #[trigger] rest[i].len() > 0 by {
                assert(rest[i] == ws[i + 1]);
            }
        }
        assert forall|i: int| 0 <= i < rest.len() implies !(#[trigger] rest[i]).contains('\'') by {
            assert(rest[i] == ws[i + 1]);
        }
        assert(enc.drop_first() == rest.map_values(|w: Seq<char>| single_quote_word(w)));
        let tail = join_words(rest.map_values(|w: Seq<char>| single_quote_word(w)));
        assert(join_words(enc) == enc[0] + (seq![' '] + tail));
        lemma_lex_single_quoted(ws[0], seq![' '] + tail, words, seq![]);
        assert(Seq::<char>::empty() + ws[0] == ws[0]);
        lemma_lex_blank(tail, words, ws[0]);
        lemma_join_single_quoted(rest, words.push(ws[0]));
        assert(words.push(ws[0]) + rest == words + ws);
    }
}

/// Words free of blanks, quotes and backslashes, joined with single spaces, lex back
/// to themselves: plain words are split on spaces.
pub proof fn law_plain_words_round_trip(ws: Seq<Seq<char>>)
    requires
        all_nonempty(ws),
        forall|i: int, j: int|
            0 <= i < ws.len() && 0 <= j < ws[i].len() ==> !is_special(#[trigger] ws[i][j]),
    ensures
        spec_parse_args(join_words(ws)) == ws,
{
    lemma_join_plain(ws, seq![]);
    assert(Seq::<Seq<char>>::empty() + ws == ws);
}

proof fn lemma_join_plain(ws: Seq<Seq<char>>, words: Seq<Seq<char>>)
    requires
        all_nonempty(ws),
        forall|i: int, j: int|
            0 <= i < ws.len() && 0 <= j < ws[i].len() ==> !is_special(#[trigger] ws[i][j]),
    ensures
        lex(join_words(ws), unquoted(words, seq![])) == words + ws,
    decreases ws.len(),
{
    if ws.len() == 0 {
        assert(words + ws == words);
        assert(flush(words, seq![]) == words);
    } else {
        let w = ws[0];
        assert(w.len() > 0);
        assert forall|j: int| 0 <= j < w.len() implies !is_special(#[trigger] w[j]) by {
            assert(!is_special(ws[0][j]));
        }
        if ws.len() == 1 {
            lemma_lex_plain(w, seq![], words, seq![]);
            assert(w + Seq::<char>::empty() == w);
            assert(Seq::<char>::empty() + w == w);
            assert(words + ws == words.push(w));
        } else {
            let rest = ws.drop_first();
            assert(all_nonempty(rest)) by {
                assert forall|i: int| 0 <= i < rest.len() implies #[trigger] rest[i].len() > 0 by {
                    assert(rest[i] == ws[i + 1]);
                }
            }
            assert forall|i: int, j: int|
                0 <= i < rest.len() && 0 <= j < rest[i].len() implies !is_special(#[trigger] rest[i][j]) by {
                assert(rest[i] == ws[i + 1]);
                assert(!is_special(ws[i + 1][j]));
            }
            let tail = join_words(rest);
            assert(join_words(ws) == w + (seq![' '] + tail));
            lemma_lex_plain(w, seq![' '] + tail, words, seq![]);
            assert(Seq::<char>::empty() + w == w);
            lemma_lex_blank(tail, words, w);
            lemma_join_plain(rest, words.push(w));
            assert(words.push(w) + rest == words + ws);
        }
    }
}

/// The lexer never produces an empty word.
pub proof fn law_words_nonempty(input: Seq<char>)
    ensures
        all_nonempty(spec_parse_args(input)),
{
    lemma_lex_nonempty(input, lex_start());
}

proof fn lemma_lex_nonempty(input: Seq<char>, st: LexState)
    requires
        all_nonempty(st.words),
    ensures
        all_nonempty(lex(input, st)),
    decreases input.len(),
{
    if input.len() == 0 {
    } else {
        let c = input[0];
        let rest = input.drop_first();
        if c == '\\' && !st.in_single && !st.in_double {
            if rest.len() == 0 {
                lemma_lex_nonempty(rest, st);
            } else {
                lemma_lex_nonempty(rest.drop_first(), with_current(st, st.current.push(rest[0])));
            }
        } else if c == '\\' && st.in_double {
            if rest.len() == 0 {
                lemma_lex_nonempty(rest, st);
            } else if rest[0] == '"' || rest[0] == '\\' {
                lemma_lex_nonempty(rest.drop_first(), with_current(st, st.current.push(rest[0])));
            } else {
                lemma_lex_nonempty(
                    rest.drop_first(),
                    with_current(st, st.current.push('\\').push(rest[0])),
                );
            }
        } else if c == '\'' && !st.in_single && !st.in_double {
            lemma_lex_nonempty(rest, LexState { in_single: true, ..st });
        } else if c == '\'' && st.in_single {
            lemma_lex_nonempty(rest, LexState { in_single: false, ..st });
        } else if c == '"' && !st.in_single && !st.in_double {
            lemma_lex_nonempty(rest, LexState { in_double: true, ..st });
        } else if c == '"' && st.in_double {
            lemma_lex_nonempty(rest, LexState { in_double: false, ..st });
        } else if is_blank(c) && !st.in_single && !st.in_double {
            lemma_lex_nonempty(rest, LexState { words: flush(st.words, st.current), current: seq![], ..st });
        } else {
            lemma_lex_nonempty(rest, with_current(st, st.current.push(c)));
        }
    }
}

} // verus!
