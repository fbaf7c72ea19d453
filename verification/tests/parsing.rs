//! Command buffers and the trees that they are read as.

use rust_shell::ast::{AstNode, Redir};
use rust_shell::lexer::{lex_cmd_buf, LexerState};
use rust_shell::parser::{Parser, SyntaxErr};
use rust_shell::token::{Tkn, TknSpan};
use rust_shell::vars::ShellVars;
use rust_shell::word::{eval_word, Word};
use std::borrow::Cow;
use std::collections::VecDeque;

fn word(w: &Word, cmd: &str) -> String {
    eval_word(w, cmd, &ShellVars::new())
}

/// A tree in one line.
fn show(node: &AstNode<'_>, cmd: &str) -> String {
    let words = |args: &Vec<Word>| -> String {
        let all: Vec<String> = args.iter().map(|w| word(w, cmd)).collect();
        all.join(",")
    };
    let redirects = |rs: &Vec<rust_shell::ast::Redirect>| -> String {
        rs.iter()
            .map(|r| match r.dir {
                Redir::In => format!(" <{}", word(&r.file, cmd)),
                Redir::Out => format!(" >{}", word(&r.file, cmd)),
                Redir::Append => format!(" >>{}", word(&r.file, cmd)),
                Redir::Heredoc => format!(" <<{:?}", r.heredoc_file.as_ref().unwrap()),
            })
            .collect()
    };
    let sets = |env: &Vec<rust_shell::ast::Assignment>| -> String {
        env.iter().map(|a| format!("{}:={} ", word(&a.lhs, cmd), word(&a.rhs, cmd))).collect()
    };
    match node {
        AstNode::Prog(p) => format!(
            "{}{}{}{}",
            sets(&p.env_vars),
            words(&p.args),
            redirects(&p.redirect_ins),
            redirects(&p.redirect_outs)
        ),
        AstNode::Builtin(p) => {
            format!("builtin {}{}", words(&p.args), redirects(&p.redirect_outs))
        }
        AstNode::Logical { lhs, operator, rhs } => {
            format!("[{} {} {}]", show(lhs, cmd), operator.name(), show(rhs, cmd))
        }
        AstNode::Pipeline(ps) => {
            let all: Vec<String> = ps.iter().map(|p| show(p, cmd)).collect();
            all.join(" | ")
        }
        AstNode::Subshell(s) => {
            let all: Vec<String> = s.inner_ast.iter().map(|n| show(n, cmd)).collect();
            format!("({}){}{}", all.join("; "), redirects(&s.redirect_ins), redirects(&s.redirect_outs))
        }
        AstNode::Assignments { assignments, .. } => sets(assignments).trim_end().to_string(),
    }
}

fn parse(cmd: &str) -> Result<Vec<String>, String> {
    let vars = ShellVars::new();
    let mut state = LexerState::new(cmd);
    let (tkns, docs) = lex_cmd_buf(&mut state, cmd).unwrap();
    let mut parser = Parser::new(&tkns, docs, cmd, &vars);
    match parser.parse() {
        Ok(nodes) => Ok(nodes.iter().map(|n| show(n, cmd)).collect()),
        Err(e) => Err(e.message()),
    }
}

fn ok(cmd: &str) -> Vec<String> {
    parse(cmd).unwrap()
}

fn err(cmd: &str) -> String {
    parse(cmd).unwrap_err()
}

#[test]
fn commands_are_set_apart() {
    assert_eq!(ok("a b; c\nd 'e f' ;;\n\n g\n"), vec!["a,b", "c", "d,e f", "g"]);
    assert_eq!(ok(""), Vec::<String>::new());
    assert_eq!(ok(" \n;\n"), Vec::<String>::new());
}

#[test]
fn separators_between_commands_are_interchangeable() {
    let expected = vec!["a,b", "[c && d]", "(e; f)"];
    for cmd in [
        "a b; c && d; (e; f);",
        "a b\nc && d\n(e\nf)\n",
        "a b;\n c && d\n;(e\nf);",
        ";\n a b ;;\n\n ;c && d\n \n(e; ;f)\n\n",
    ] {
        assert_eq!(ok(cmd), expected);
    }
    assert_eq!(err("a; ) ;b\n"), err("a\n)\n;b;"));
}

#[test]
fn operators_bind_to_the_left_and_pipes_bind_tighter() {
    assert_eq!(ok("a && b || c && d\n"), vec!["[[[a && b] || c] && d]"]);
    assert_eq!(ok("a | b && c | d | e\n"), vec!["[a | b && c | d | e]"]);
    assert_eq!(ok("a &&\n\n b |\n c\n"), vec!["[a && b | c]"]);
}

#[test]
fn builtin_commands_are_known_by_their_value() {
    assert_eq!(ok("pwd; 'cd' x; \"history\"; exit; pwdx\n"), vec![
        "builtin pwd",
        "builtin cd,x",
        "builtin history",
        "builtin exit",
        "pwdx",
    ]);
    let mut vars = ShellVars::new();
    vars.put_env_var("c".to_string(), "pwd".to_string());
    let cmd = "$c\n";
    let mut state = LexerState::new(cmd);
    let (tkns, docs) = lex_cmd_buf(&mut state, cmd).unwrap();
    let nodes = Parser::new(&tkns, docs, cmd, &vars).parse().unwrap();
    assert!(matches!(*nodes[0], AstNode::Builtin(_)));
}

#[test]
fn blanks_around_an_equals_sign_do_not_matter() {
    for cmd in ["a=1\n", "a =1\n", "a= 1\n", "a  =  1\n", "a\t=\t1 ;"] {
        assert_eq!(ok(cmd), vec!["a:=1"]);
    }
    assert_eq!(ok("a=1 b = 2 c\n"), vec!["a:=1 b:=2 c"]);
    assert_eq!(ok("a=\n"), vec!["a:="]);
    assert_eq!(ok("a=;b\n"), vec!["a:=", "b"]);
    assert_eq!(ok("a=$x'y'\"z\"\n"), vec!["a:=yz"]);
}

#[test]
fn variables_for_builtin_commands_are_dropped() {
    assert_eq!(ok("a=1 pwd\n"), vec!["builtin pwd"]);
}

#[test]
fn redirections_may_stand_anywhere() {
    let expected = vec!["cat,x <in >out >>more"];
    assert_eq!(ok("cat x < in > out >> more\n"), expected);
    assert_eq!(ok("<in cat>out x>>more\n"), expected);
    assert_eq!(ok("> out < in >> more cat x\n"), expected);
    assert_eq!(ok("cat < a < b > c > d\n"), vec!["cat <a <b >c >d"]);
}

#[test]
fn parts_of_a_command_keep_their_order() {
    assert_eq!(
        ok(">o1 v = 1 a <i1 b w=2 >>o2 <<D c<i2 d x=\ndoc\nD\n"),
        vec!["v:=1 w:=2 x:= a,b,c,d <i1 <<\"doc\\n\" <i2 >o1 >>o2"]
    );
    assert_eq!(ok("a b = c d\n"), vec!["b:=c a,d"]);
    assert_eq!(ok("x=1 y >o\n"), vec!["x:=1 y >o"]);
}

#[test]
fn only_the_first_word_makes_a_command_builtin() {
    assert_eq!(ok("echo pwd; a | cd; (exit) && 'p'wd x\n"), vec![
        "echo,pwd",
        "a | builtin cd",
        "[(builtin exit) && builtin pwd,x]",
    ]);
    assert_eq!(ok(">o pwd\n"), vec!["builtin pwd >o"]);
    assert_eq!(ok("pwd=1\n"), vec!["pwd:=1"]);
}

/// Whether every node of a tree borrows exactly `cmd`.
fn borrows(node: &AstNode<'_>, cmd: &str) -> bool {
    let same = |buf: &Cow<'_, str>| match buf {
        Cow::Borrowed(s) => std::ptr::eq(*s, cmd),
        Cow::Owned(_) => false,
    };
    match node {
        AstNode::Prog(p) => same(&p.cmd_buf),
        AstNode::Builtin(p) => same(&p.cmd_buf),
        AstNode::Logical { lhs, rhs, .. } => borrows(lhs, cmd) && borrows(rhs, cmd),
        AstNode::Pipeline(ps) => ps.iter().all(|p| borrows(p, cmd)),
        AstNode::Subshell(s) => same(&s.cmd_buf) && s.inner_ast.iter().all(|n| borrows(n, cmd)),
        AstNode::Assignments { cmd_buf, .. } => same(cmd_buf),
    }
}

#[test]
fn trees_borrow_the_command_buffer() {
    let cmd = "a = 1\npwd > f | (b; c=2 && (cd)) || x=1 d <<E\nE\n";
    let vars = ShellVars::new();
    let mut state = LexerState::new(cmd);
    let (tkns, docs) = lex_cmd_buf(&mut state, cmd).unwrap();
    let nodes = Parser::new(&tkns, docs, cmd, &vars).parse().unwrap();
    assert_eq!(nodes.len(), 2);
    assert!(nodes.iter().all(|n| borrows(n, cmd)));
}

#[test]
fn one_command_is_read_at_a_time() {
    let cmd = "a = 1\n'pwd' >o x; ";
    let vars = ShellVars::new();
    let mut state = LexerState::new(cmd);
    let (tkns, docs) = lex_cmd_buf(&mut state, cmd).unwrap();
    let mut parser = Parser::new(&tkns, docs, cmd, &vars);
    let first = parser.expr().unwrap();
    assert_eq!(show(&first, cmd), "a:=1");
    assert!(borrows(&first, cmd));
    let second = parser.expr().unwrap();
    assert_eq!(show(&second, cmd), "builtin pwd,x >o");
    assert_eq!(parser.expr().err().unwrap().message(), "Syntax Err: empty args");
}

#[test]
fn heredocs_go_to_their_operators() {
    assert_eq!(
        ok("cat << A < f << B | cat <<C\none\nA\ntwo\nB\nthree\nC\n"),
        vec!["cat <<\"one\\n\" <f <<\"two\\n\" | cat <<\"three\\n\""]
    );
}

#[test]
fn subshells_hold_commands() {
    assert_eq!(ok("(a; b && c\n d | e) < f > g\n"), vec!["(a; [b && c]; d | e) <f >g"]);
    assert_eq!(ok("((a))\n"), vec!["((a))"]);
    assert_eq!(ok("(a;\n) && b\n"), vec!["[(a) && b]"]);
    assert_eq!(ok("(a)(b)\n"), vec!["(b)"]);
    assert_eq!(ok("a )\n"), vec!["a"]);
}

#[test]
fn commands_that_make_no_sense_are_refused() {
    assert_eq!(err("a=>b\n"), "Syntax ERR: > is an invalid token for assignment");
    assert_eq!(err("a=b"), "unreachable");
    assert_eq!(err("=b\n"), "Syntax Err: invalid assignment");
    assert_eq!(err("cat <=x\n"), "Couldn't find infile after >");
    assert_eq!(err("cat >=x\n"), "Couldn't find outfile after >");
    assert_eq!(err("cat >>=x\n"), "Couldn't find outfile after >>");
    assert_eq!(err("cat <<=x\n=x\n"), "unreachable: Invalid delimiter for heredoc");
    assert_eq!(err("'echo' x (ls)\n"), "Syntax Err: found ''echo'...' before subshell start");
    assert_eq!(err("a & b\n"), "Syntax Err: unexpected tkn in expression");
    assert_eq!(err("a \\ b\n"), "Syntax Err: unexpected tkn in expression");
    assert_eq!(err("| a\n"), "Syntax Err: empty args");
    assert_eq!(err("()\n"), "Syntax Err: empty args");
    assert_eq!(err("< f\n"), "Syntax Err: empty args");
    assert_eq!(err("a=1 (b)\n"), "Syntax Err: inline assignment outside of subshell");
    assert_eq!(err("a"), "Syntax Err");
}

#[test]
fn a_missing_delimiter_is_noticed() {
    let vars = ShellVars::new();
    let tkns = vec![TknSpan { kind: Tkn::Heredoc, span: 0..2 }];
    let e = Parser::new(&tkns, VecDeque::new(), "<<", &vars).parse().err().unwrap();
    assert_eq!(e.message(), "unreachable: Expected heredoc delimiter, found EOF");
}

#[test]
fn an_operator_without_a_document_reads_nothing() {
    let vars = ShellVars::new();
    let part = |r: std::ops::Range<usize>| TknSpan { kind: Tkn::Literal, span: r };
    let tkns = vec![
        TknSpan { kind: Tkn::Word(vec![part(0..1)]), span: 0..1 },
        TknSpan { kind: Tkn::Heredoc, span: 1..3 },
        TknSpan { kind: Tkn::Word(vec![part(3..4)]), span: 3..4 },
        TknSpan { kind: Tkn::Newline, span: 4..5 },
    ];
    let cmd = "a<<b\n";
    let nodes = Parser::new(&tkns, VecDeque::new(), cmd, &vars).parse().ok().unwrap();
    assert_eq!(show(&nodes[0], cmd), "a <<\"\"");
}

#[test]
fn errors_that_name_tokens() {
    let found = SyntaxErr::WrongToken { expected: Tkn::Assign, found: Tkn::Space };
    assert_eq!(found.message(), "Syntax err: expected token of kind = but got 'space'");
    let missing = SyntaxErr::MissingToken { expected: Tkn::RParen };
    assert_eq!(missing.message(), "Syntax err: missing token RParen");
    let separator = SyntaxErr::ExpectedSeparator(Tkn::Pipe);
    assert_eq!(
        separator.message(),
        "Syntax Err: expected \\n, ;, ||, or && but got '|'"
    );
    let end = SyntaxErr::ExpectedEnd(Tkn::CmdAnd);
    assert_eq!(
        end.message(),
        "Syntax Err:\nwhile parsing, expected '\\n', ';', or ')', but got '&&'"
    );
}
