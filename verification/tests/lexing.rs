//! Command buffers and the tokens that they are split into.

use rust_shell::lexer::{lex_cmd_buf, LexerState};
use rust_shell::token::{get_token_at, Tkn, TknSpan};

/// The names of the tokens and the texts that they cover.
fn tokens(cmd: &str) -> Vec<(&'static str, String)> {
    let mut state = LexerState::new(cmd);
    let (tkns, _) = lex_cmd_buf(&mut state, cmd).unwrap();
    tkns.iter().map(|t| (t.kind.name(), get_token_at(t, cmd).to_string())).collect()
}

fn refused(cmd: &str) -> LexerState<'_> {
    let mut state = LexerState::new(cmd);
    assert!(lex_cmd_buf(&mut state, cmd).is_none());
    state
}

fn closer(cmd: &str) -> String {
    let state = refused(cmd);
    assert!(state.wants_more());
    state.expected_closer.unwrap()
}

fn heredocs(cmd: &str) -> Vec<String> {
    let mut state = LexerState::new(cmd);
    let (_, docs) = lex_cmd_buf(&mut state, cmd).unwrap();
    docs.iter().map(|d| d.to_string()).collect()
}

#[test]
fn every_operator_has_its_token() {
    let found = tokens("a<b >c >>d|e&&f||g;h&i=j(k)\\l\n");
    let names: Vec<&str> = found.iter().map(|t| t.0).collect();
    assert_eq!(
        names,
        vec![
            "word", "<", "word", "space", ">", "word", "space", ">>", "word", "|", "word", "&&",
            "word", "||", "word", ";", "word", "&", "word", "=", "word", "(", "word", ")", "\\",
            "word", "newline",
        ]
    );
}

#[test]
fn tokens_spell_the_buffer() {
    for cmd in [
        "echo 'a b' \"c $d\" | cat < in.txt >> out.txt && (ls; pwd)\n",
        "cat <<A <<B\none\nA\ntwo\nB\nécho ñandú ${x} `y`\n",
        "",
        " \t\x0c\n\n",
    ] {
        let spelled: String = tokens(cmd).into_iter().map(|t| t.1).collect();
        assert_eq!(spelled, cmd);
    }
}

#[test]
fn parts_that_touch_make_one_word() {
    let cmd = "a'b'\"c$d e\"$f`g` h\n";
    let mut state = LexerState::new(cmd);
    let (tkns, docs) = lex_cmd_buf(&mut state, cmd).unwrap();
    assert_eq!(docs.len(), 0);
    assert_eq!(tkns.len(), 4);
    assert_eq!(tkns[0].span, 0..16);
    if let Tkn::Word(parts) = &tkns[0].kind {
        let shown: Vec<(&str, &str)> =
            parts.iter().map(|p| (p.kind.name(), get_token_at(p, cmd))).collect();
        assert_eq!(
            shown,
            vec![
                ("literal", "a"),
                ("single quote", "'b'"),
                ("double quote", "\"c$d e\""),
                ("expansion", "$f"),
                ("expansion", "`g`"),
            ]
        );
        if let Tkn::DoubleQuote(inner) = &parts[2].kind {
            let texts: Vec<&str> = inner.iter().map(|p| get_token_at(p, cmd)).collect();
            assert_eq!(texts, vec!["c", "$d", " e"]);
        } else {
            panic!("no double quote");
        }
    } else {
        panic!("no word");
    }
}

#[test]
fn escapes_hide_what_ends_a_double_quote() {
    let cmd = "\"a\\\"b\\$c\\é\"\n";
    let mut state = LexerState::new(cmd);
    let (tkns, _) = lex_cmd_buf(&mut state, cmd).unwrap();
    if let Tkn::Word(parts) = &tkns[0].kind {
        if let Tkn::DoubleQuote(inner) = &parts[0].kind {
            let texts: Vec<&str> = inner.iter().map(|p| get_token_at(p, cmd)).collect();
            assert_eq!(texts, vec!["a", "\\\"", "b", "\\$", "c", "\\é"]);
            return;
        }
    }
    panic!("no double quote");
}

#[test]
fn expansions_end_where_the_name_does() {
    for (cmd, expected) in [
        ("$abc_1-x\n", "$abc_1"),
        ("${a b}c\n", "${a b}"),
        ("$(a (b) c)d\n", "$(a (b) c)"),
        ("$1a\n", "$1"),
        ("$?a\n", "$?"),
        ("$$a\n", "$$"),
        ("$-a\n", "$"),
        ("$ñé\n", "$ñé"),
        ("$ñ7_٣é€\n", "$ñ7_٣é"),
        ("$_٣x\n", "$_٣x"),
        ("$٣\n", "$"),
        ("`a\\`b`c\n", "`a\\`b`"),
    ] {
        let mut state = LexerState::new(cmd);
        let (tkns, _) = lex_cmd_buf(&mut state, cmd).unwrap();
        if let Tkn::Word(parts) = &tkns[0].kind {
            assert_eq!(get_token_at(&parts[0], cmd), expected);
            assert_eq!(parts[0].kind, Tkn::Expansion);
        } else {
            panic!("no word in {}", cmd);
        }
    }
}

#[test]
fn a_dollar_sign_at_the_end_is_an_expansion() {
    assert_eq!(tokens("a$"), vec![("word", "a$".to_string())]);
}

#[test]
fn what_is_open_is_named() {
    assert_eq!(closer("echo 'a\n"), "'");
    assert_eq!(closer("echo \"a\n"), "\"");
    assert_eq!(closer("echo `a\n"), "`");
    assert_eq!(closer("echo ${a\n"), "}");
    assert_eq!(closer("echo $(a (b)\n"), "$)");
    assert_eq!(closer("(echo a\n"), ")");
    assert_eq!(closer("echo \"`a\"\n"), "`");
    assert_eq!(closer("echo \"${a\"\n"), "}");
    assert_eq!(closer("echo \"$(a\"\n"), "$)");
    assert_eq!(closer("((echo a)\n"), ")");
    assert_eq!(closer("(echo ')'\n"), ")");
    assert_eq!(closer("cat << EOF\nbody\n"), "EOF");
    assert_eq!(closer("cat << EOF\nbody\nEOF"), "EOF");
    assert_eq!(closer("cat << EOF"), "EOF");
    assert_eq!(closer("cat << A << B\none\nA\ntwo\n"), "B");
}

#[test]
fn operators_at_the_end_want_more() {
    for (cmd, operator) in [
        ("a |\n", "|"),
        ("a && \n \n", "&&"),
        ("a ||", "||"),
        ("echo a \\\n", "\\"),
        ("a\\ \n", "\\"),
    ] {
        let state = refused(cmd);
        assert!(state.wants_more());
        assert_eq!(state.continuation_for.unwrap(), operator);
        assert!(state.expected_closer.is_none());
    }
}

#[test]
fn redirections_want_a_target() {
    for (cmd, message) in [
        ("a >\n", "not a valid delimiter for >"),
        ("a >> | b\n", "not a valid delimiter for >>"),
        ("a < ;\n", "not a valid delimiter for <"),
        ("a << &\n", "not a valid delimiter for <<"),
        ("a <", "not a valid delimiter for <"),
    ] {
        let state = refused(cmd);
        assert!(!state.wants_more());
        assert_eq!(state.syntax_err.unwrap(), message);
    }
    let state = refused("a > \"b\n");
    assert!(state.wants_more());
    assert_eq!(state.expected_closer.unwrap(), "\"");
    assert_eq!(state.syntax_err.unwrap(), "not a valid delimiter for >");
}

#[test]
fn a_bare_brace_is_refused() {
    for cmd in ["{ a; }\n", "a }\n"] {
        let state = refused(cmd);
        assert!(!state.wants_more());
        assert!(state.syntax_err.is_none());
    }
}

#[test]
fn heredocs_are_taken_as_they_stand() {
    assert_eq!(heredocs("cat << EOF\nhello\nworld\nEOF\n"), vec!["hello\nworld\n"]);
    assert_eq!(heredocs("cat << EOF\nEOF\n"), vec![""]);
    assert_eq!(heredocs("cat << A << B\n a 'x\nA \t\n\"b\nB\nls\n"), vec![" a 'x\n", "\"b\n"]);
    assert_eq!(heredocs("cat <<'a b'\nx\na b\n"), vec!["x\n"]);
    assert_eq!(heredocs("cat <<\"a\\\"$b\"\nx\na\"$b\n"), vec!["x\n"]);
    assert_eq!(heredocs("cat <<$x\ny\n$x\n"), vec!["y\n"]);
    assert_eq!(heredocs("cat <<EOF\n EOF\nEOF2\nEOF\u{a0}\n"), vec![" EOF\nEOF2\n"]);
    assert_eq!(heredocs("cat <<A\nx\nA\u{85}\u{1680}\u{2003}\u{2028}\u{3000}\r\n"), vec!["x\n"]);
    assert_eq!(heredocs("cat <<A\nA\u{200b}\nA\n"), vec!["A\u{200b}\n"]);
}

#[test]
fn newline_tokens_cover_their_heredocs() {
    let found = tokens("cat << EOF\nbody\nEOF\nls\n");
    assert_eq!(found[4], ("word", "EOF".to_string()));
    assert_eq!(found[5], ("newline", "\nbody\nEOF\n".to_string()));
    assert_eq!(found[6], ("word", "ls".to_string()));
}

#[test]
fn tokens_are_compared_with_their_parts() {
    let part = |end: usize| TknSpan { kind: Tkn::Literal, span: 0..end };
    assert_eq!(Tkn::Word(vec![part(1)]), Tkn::Word(vec![part(1)]));
    assert_ne!(Tkn::Word(vec![part(1)]), Tkn::Word(vec![part(2)]));
    assert_ne!(Tkn::Word(vec![part(1)]), Tkn::DoubleQuote(vec![part(1)]));
    assert_ne!(Tkn::Word(vec![part(1)]), Tkn::Word(vec![]));
    assert_ne!(Tkn::Pipe, Tkn::CmdOr);
    assert_eq!(part(3).clone(), part(3));
    assert_eq!(Tkn::Word(vec![part(1)]).clone(), Tkn::Word(vec![part(1)]));
}
