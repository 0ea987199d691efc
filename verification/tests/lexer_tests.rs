use rush::lexer::parse_args;
use rush::redirect::extract_redirect;

fn words(v: &[&str]) -> Vec<String> {
    v.iter().map(|s| s.to_string()).collect()
}

#[test]
fn plain_words_split_on_blanks() {
    assert_eq!(parse_args("echo hello world"), words(&["echo", "hello", "world"]));
    assert_eq!(parse_args("  a\t b  "), words(&["a", "b"]));
}

#[test]
fn single_quotes_keep_everything_literal() {
    assert_eq!(parse_args("echo 'hello   world'"), words(&["echo", "hello   world"]));
    assert_eq!(parse_args("echo 'a\\b'"), words(&["echo", "a\\b"]));
    assert_eq!(parse_args("echo 'say \"hi\"'"), words(&["echo", "say \"hi\""]));
}

#[test]
fn double_quotes_group_and_escape_only_quote_and_backslash() {
    assert_eq!(parse_args("echo \"a  b\" c"), words(&["echo", "a  b", "c"]));
    assert_eq!(parse_args("echo \"a\\\"b\""), words(&["echo", "a\"b"]));
    assert_eq!(parse_args("echo \"a\\\\b\""), words(&["echo", "a\\b"]));
    assert_eq!(parse_args("echo \"a\\nb\""), words(&["echo", "a\\nb"]));
    assert_eq!(parse_args("echo \"it's\""), words(&["echo", "it's"]));
}

#[test]
fn backslash_outside_quotes_takes_next_character() {
    assert_eq!(parse_args("echo a\\ b"), words(&["echo", "a b"]));
    assert_eq!(parse_args("echo \\'x\\'"), words(&["echo", "'x'"]));
    assert_eq!(parse_args("ab\\"), words(&["ab"]));
}

#[test]
fn adjacent_quoted_parts_join_into_one_word() {
    assert_eq!(parse_args("'it''s'"), words(&["its"]));
    assert_eq!(parse_args("a\"b\"'c'"), words(&["abc"]));
}

#[test]
fn empty_quotes_give_no_word() {
    assert_eq!(parse_args("''"), words(&[]));
    assert_eq!(parse_args("a '' \"\""), words(&["a"]));
    assert_eq!(parse_args(""), words(&[]));
}

#[test]
fn escaped_words_round_trip() {
    let ws = words(&["a b", "c'd", "\\\"", "é"]);
    let encoded: Vec<String> = ws
        .iter()
        .map(|w| w.chars().flat_map(|c| ['\\', c]).collect::<String>())
        .collect();
    assert_eq!(parse_args(&encoded.join(" ")), ws);
}

#[test]
fn single_quoted_words_round_trip() {
    let ws = words(&["a b", "c\"d", "\\n", "  "]);
    let encoded: Vec<String> = ws.iter().map(|w| format!("'{}'", w)).collect();
    assert_eq!(parse_args(&encoded.join(" ")), ws);
}

#[test]
fn redirect_stdout_truncate() {
    let (args, out, err) = extract_redirect(&words(&["echo", "hi", ">", "out.txt"]));
    assert_eq!(args, words(&["echo", "hi"]));
    assert_eq!(out, Some(("out.txt".to_string(), false)));
    assert_eq!(err, None);
}

#[test]
fn redirect_both_streams() {
    let (args, out, err) = extract_redirect(&words(&["ls", "1>>", "f", "x", "2>", "e"]));
    assert_eq!(args, words(&["ls", "x"]));
    assert_eq!(out, Some(("f".to_string(), true)));
    assert_eq!(err, Some(("e".to_string(), false)));
    let (_, out, err) = extract_redirect(&words(&["ls", "2>>", "log", "1>", "o"]));
    assert_eq!(out, Some(("o".to_string(), false)));
    assert_eq!(err, Some(("log".to_string(), true)));
}

#[test]
fn last_redirect_wins() {
    let (args, out, _) = extract_redirect(&words(&["a", ">", "x", ">>", "y"]));
    assert_eq!(args, words(&["a"]));
    assert_eq!(out, Some(("y".to_string(), true)));
}

#[test]
fn file_name_after_operator_may_look_like_operator() {
    let (args, out, err) = extract_redirect(&words(&["a", ">", ">", "b"]));
    assert_eq!(args, words(&["a", "b"]));
    assert_eq!(out, Some((">".to_string(), false)));
    assert_eq!(err, None);
}

#[test]
fn no_operators_pass_through() {
    let (args, out, err) = extract_redirect(&words(&["grep", "-n", "x>y"]));
    assert_eq!(args, words(&["grep", "-n", "x>y"]));
    assert_eq!(out, None);
    assert_eq!(err, None);
}
