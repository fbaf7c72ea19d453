//! What words evaluate to.

use rust_shell::lexer::{lex_cmd_buf, LexerState};
use rust_shell::token::{Tkn, TknSpan};
use rust_shell::vars::ShellVars;
use rust_shell::word::{clean_args, escape, eval_dquote, eval_envvar, eval_word, Word};
use std::borrow::Cow;

fn vars() -> ShellVars {
    let mut vars = ShellVars::new();
    vars.put_env_var("a".to_string(), "1".to_string());
    vars.put_env_var("long_name".to_string(), "two words".to_string());
    vars.put_env_var("{a}".to_string(), "braced".to_string());
    vars
}

/// The value of the first word of a command.
fn value(cmd: &str) -> String {
    let mut state = LexerState::new(cmd);
    let (tkns, _) = lex_cmd_buf(&mut state, cmd).unwrap();
    match &tkns[0].kind {
        Tkn::Word(w) => eval_word(w, cmd, &vars()),
        _ => panic!("no word"),
    }
}

#[test]
fn escapes_are_replaced() {
    assert_eq!(escape("a\\nb\\tc\\rd"), "a\nb\tc\rd");
    assert_eq!(escape("\\\\ \\\" \\` \\$"), "\\ \" ` $");
    assert_eq!(escape("\\a\\é"), "\\a\\é");
    assert_eq!(escape("end\\"), "end\\");
    assert_eq!(escape("\\\\\\"), "\\\\");
    assert_eq!(escape(""), "");
}

#[test]
fn escaping_does_not_lengthen() {
    for text in ["", "\\", "a\\nb", "\\é\\\\", "\\q\\$", "é\\té"] {
        assert!(escape(text).len() <= text.len());
    }
    assert_eq!(escape("\\é\\\\").len(), 4);
}

#[test]
fn text_without_escapes_is_borrowed() {
    assert!(matches!(escape("plain é"), Cow::Borrowed("plain é")));
    assert!(matches!(escape("a\\n"), Cow::Owned(_)));
}

#[test]
fn quotes_are_read() {
    assert_eq!(value("'a $b \\n \"c\"'\n"), "a $b \\n \"c\"");
    assert_eq!(value("\"plain text\"\n"), "plain text");
    assert_eq!(value("\"\"\n"), "");
    assert_eq!(value("''\n"), "");
    assert_eq!(value("\"x$a\\ty\"\n"), "x1\ty");
    assert_eq!(value("b'c'\"d\"$a\n"), "bcd1");
    assert_eq!(value("\"`long_name`\"\n"), "two words");
}

#[test]
fn expansions_read_variables() {
    assert_eq!(eval_envvar("$a", &vars()), "1");
    assert_eq!(eval_envvar("`a`", &vars()), "1");
    assert_eq!(eval_envvar("$unset", &vars()), "");
    assert_eq!(eval_envvar("$", &vars()), "$");
    assert_eq!(eval_envvar("${a}", &vars()), "braced");
    assert_eq!(eval_envvar("``", &vars()), "");
    assert_eq!(value("$a$long_name\n"), "1two words");
    assert_eq!(value("x$\n"), "x$");
}

#[test]
fn names_may_be_of_any_alphabet() {
    let mut vars = ShellVars::new();
    vars.put_env_var("ñ2".to_string(), "yes".to_string());
    let cmd = "$ñ2€\n";
    let mut state = LexerState::new(cmd);
    let (tkns, _) = lex_cmd_buf(&mut state, cmd).unwrap();
    match &tkns[0].kind {
        Tkn::Word(w) => assert_eq!(eval_word(w, cmd, &vars), "yes€"),
        _ => panic!("no word"),
    }
}

#[test]
fn a_plain_double_quote_is_borrowed() {
    let spans = vec![TknSpan { kind: Tkn::Literal, span: 1..4 }];
    assert!(matches!(eval_dquote(&spans, "\"abc\"", &vars()), Cow::Borrowed("abc")));
    let two = vec![
        TknSpan { kind: Tkn::Literal, span: 1..3 },
        TknSpan { kind: Tkn::Expansion, span: 3..5 },
    ];
    assert_eq!(eval_dquote(&two, "\"\\n$a\"", &vars()), "\n1");
}

#[test]
fn joined_words_join_their_values() {
    let cmd = "b'c'$a\"d\" ";
    let mut state = LexerState::new(cmd);
    let (tkns, _) = lex_cmd_buf(&mut state, cmd).unwrap();
    if let Tkn::Word(w) = &tkns[0].kind {
        for i in 0..w.len() + 1 {
            let front: Word = w[..i].to_vec();
            let back: Word = w[i..].to_vec();
            let both = eval_word(&front, cmd, &vars()) + &eval_word(&back, cmd, &vars());
            assert_eq!(both, "bc1d");
        }
    }
}

#[test]
fn plain_arguments_are_borrowed() {
    let cmd = "ls '-l' $a\n";
    let mut state = LexerState::new(cmd);
    let (tkns, _) = lex_cmd_buf(&mut state, cmd).unwrap();
    let mut args: Vec<Word> = Vec::new();
    for t in tkns {
        if let Tkn::Word(w) = t.kind {
            args.push(w);
        }
    }
    let vars = vars();
    let cleaned = clean_args(&args, cmd, &vars);
    assert_eq!(cleaned, vec!["ls", "-l", "1"]);
    assert!(matches!(cleaned[0], Cow::Borrowed(_)));
    assert!(matches!(cleaned[1], Cow::Owned(_)));
}

#[test]
fn variables_read_back() {
    let mut vars = ShellVars::new();
    assert_eq!(vars.get_env_var("x"), "");
    vars.put_env_var("x".to_string(), "1".to_string());
    vars.put_env_var("y".to_string(), "2".to_string());
    vars.put_env_var("x".to_string(), "3".to_string());
    assert_eq!(vars.get_env_var("x"), "3");
    assert_eq!(vars.get_env_var("y"), "2");
    assert_eq!(vars.get_env_var("z"), "");
}
