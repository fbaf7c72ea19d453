//! Runs of trees and what commands ask of the system.

use rust_shell::ast::{AstNode, ChildPr, Redir, Redirect, Subsh};
use rust_shell::builtins::BuiltinCmd;
use rust_shell::executor::{
    execute_ast, execute_cmd_buf, Action, ChildEnd, Execution, Outcome,
};
use rust_shell::lexer::{lex_cmd_buf, LexerState};
use rust_shell::spawn::{
    check_infiles, redirect_outs, spawn_pipeline, Destination, Feed, OutFile, Stream, Work,
};
use rust_shell::token::{Tkn, TknSpan};
use rust_shell::validate::{check_tree, check_trees};
use rust_shell::vars::ShellVars;
use std::borrow::Cow;

/// Runs a command whose programs are named by their exit codes; the names that were run.
fn run(cmd: &str, vars: &mut ShellVars) -> (Vec<String>, Option<i32>) {
    let mut state = LexerState::new(cmd);
    let (tkns, docs) = lex_cmd_buf(&mut state, cmd).unwrap();
    let mut run = execute_cmd_buf(cmd, &tkns, docs, vars).ok().unwrap();
    let mut done: Vec<String> = Vec::new();
    loop {
        let outcome = match run.next(vars) {
            Action::Done(code) => return (done, Some(code)),
            Action::Prog(p) => {
                let plan = p.status(vars);
                done.push(plan.program.clone());
                match plan.program.parse() {
                    Ok(code) => Outcome::Exited(Some(code)),
                    Err(_) => {
                        if plan.program == "signal" {
                            Outcome::Exited(None)
                        } else {
                            Outcome::Failed
                        }
                    }
                }
            }
            Action::Builtin(b) => {
                done.push(format!("{:?}", b.command(vars).unwrap()));
                Outcome::Builtin
            }
            Action::Pipeline(ps) => {
                done.push(format!("{} stages", ps.len()));
                Outcome::Pipeline(vec![
                    ChildEnd::Exited(Some(0)),
                    ChildEnd::Exited(Some(4)),
                ])
            }
            Action::Subshell(s) => {
                done.push(format!("{} commands", s.inner_ast.len()));
                Outcome::Exited(Some(0))
            }
            Action::InvalidOperator => return (done, None),
        };
        if !run.report(&outcome) {
            return (done, None);
        }
    }
}

fn names(cmd: &str) -> (Vec<String>, Option<i32>) {
    run(cmd, &mut ShellVars::new())
}

fn first(cmd: &str) -> (String, Vec<TknSpan>) {
    let mut state = LexerState::new(cmd);
    let (tkns, _) = lex_cmd_buf(&mut state, cmd).unwrap();
    (cmd.to_string(), tkns)
}

/// The first thing that a command asks for.
fn first_action<'a>(cmd: &'a str, tkns: &'a Vec<TknSpan>, vars: &mut ShellVars) -> Action<'a> {
    let mut state = LexerState::new(cmd);
    let (_, docs) = lex_cmd_buf(&mut state, cmd).unwrap();
    let mut run = execute_cmd_buf(cmd, tkns, docs, vars).ok().unwrap();
    run.next(vars)
}

#[test]
fn logical_operators_look_at_the_exit_code() {
    assert_eq!(names("0 && 3\n"), (vec!["0".to_string(), "3".to_string()], Some(3)));
    assert_eq!(names("3 && 0\n"), (vec!["3".to_string()], Some(3)));
    assert_eq!(names("0 || 3\n"), (vec!["0".to_string()], Some(0)));
    assert_eq!(names("3 || 5\n"), (vec!["3".to_string(), "5".to_string()], Some(5)));
    let (done, code) = names("2 || 0 && 7 && 0 || 6\n");
    assert_eq!(done, vec!["2", "0", "7", "6"]);
    assert_eq!(code, Some(6));
}

#[test]
fn commands_run_one_after_the_other() {
    assert_eq!(names("0; 1; 2\n").0, vec!["0", "1", "2"]);
    assert_eq!(names("0; 1; 2\n").1, Some(2));
    assert_eq!(names("").1, Some(0));
    assert_eq!(names("3; a=1\n").1, Some(0));
    assert_eq!(names("pwd || 0\n").0, vec!["Pwd"]);
}

#[test]
fn exit_codes_of_all_outcomes() {
    assert_eq!(Outcome::Builtin.code(), Some(0));
    assert_eq!(Outcome::Exited(Some(7)).code(), Some(7));
    assert_eq!(Outcome::Exited(None).code(), Some(1));
    assert_eq!(Outcome::Pipeline(vec![]).code(), Some(0));
    assert_eq!(
        Outcome::Pipeline(vec![ChildEnd::Lost, ChildEnd::Exited(Some(3))]).code(),
        Some(3)
    );
    assert_eq!(Outcome::Pipeline(vec![ChildEnd::Exited(None)]).code(), Some(1));
    assert_eq!(
        Outcome::Pipeline(vec![ChildEnd::Exited(Some(0)), ChildEnd::Lost]).code(),
        Some(1)
    );
    assert_eq!(Outcome::Failed.code(), None);
    assert_eq!(names("signal || 9\n").1, Some(9));
    assert_eq!(names("0 | 0 && 5\n"), (vec!["2 stages".to_string()], Some(4)));
}

#[test]
fn nothing_runs_after_a_failure() {
    assert_eq!(names("0; nowhere || 1; 2\n"), (vec!["0".to_string(), "nowhere".to_string()], None));
}

#[test]
fn assignments_stay_in_the_session() {
    let mut vars = ShellVars::new();
    run("a=1; b=$a$a c=$b\n", &mut vars);
    assert_eq!(vars.get_env_var("b"), "11");
    assert_eq!(vars.get_env_var("c"), "11");
    run("a=5 0; (a=6); a=7 | 0\n", &mut vars);
    assert_eq!(vars.get_env_var("a"), "1");
    run("9 && a=2; 0 && b=3\n", &mut vars);
    assert_eq!(vars.get_env_var("a"), "1");
    assert_eq!(vars.get_env_var("b"), "3");
}

#[test]
fn a_program_gets_its_words_variables_and_files() {
    let mut vars = ShellVars::new();
    vars.put_env_var("x".to_string(), "1".to_string());
    let (cmd, tkns) = first("k=$x k=v grep 'a b' $x < in <<E > out >> more\nbody\nE\n");
    match first_action(&cmd, &tkns, &mut vars) {
        Action::Prog(p) => {
            let plan = p.spawn(Stream::Pipe, Stream::Inherit, &vars);
            assert_eq!(plan.program, "grep");
            assert_eq!(plan.args, vec!["a b", "1"]);
            assert_eq!(
                plan.env,
                vec![("k".to_string(), "1".to_string()), ("k".to_string(), "v".to_string())]
            );
            assert_eq!(plan.stdin, Stream::Shell);
            assert_eq!(plan.stdout, Stream::Shell);
            assert!(matches!(&plan.feeds[0], Feed::File { path, shown } if path == "in" && shown == "in"));
            assert!(matches!(&plan.feeds[1], Feed::Text(t) if t == "body\n"));
            assert!(matches!(&plan.outs[0], OutFile::Truncate(f) if f == "out"));
            assert!(matches!(&plan.outs[1], OutFile::Append(f) if f == "more"));
            assert_eq!((plan.feeds.len(), plan.outs.len()), (2, 2));
        }
        _ => panic!("no program"),
    }
}

#[test]
fn a_program_without_redirections_keeps_its_streams() {
    let mut vars = ShellVars::new();
    let (cmd, tkns) = first("ls\n");
    match first_action(&cmd, &tkns, &mut vars) {
        Action::Prog(p) => {
            let plan = p.spawn(Stream::Pipe, Stream::Inherit, &vars);
            assert_eq!((plan.stdin, plan.stdout), (Stream::Pipe, Stream::Inherit));
            let plan = p.status(&vars);
            assert_eq!((plan.stdin, plan.stdout), (Stream::Inherit, Stream::Inherit));
            assert_eq!(plan.args.len(), 0);
        }
        _ => panic!("no program"),
    }
}

#[test]
fn the_first_file_that_is_missing_is_named() {
    let feeds = vec![
        Feed::File { path: "a".to_string(), shown: "a".to_string() },
        Feed::Text("t".to_string()),
        Feed::File { path: "b c".to_string(), shown: "\"b c\"".to_string() },
        Feed::File { path: "d".to_string(), shown: "d".to_string() },
    ];
    assert_eq!(check_infiles(&feeds, &vec![true, true, true, true]), None);
    assert_eq!(check_infiles(&feeds, &vec![true, false, true, true]), None);
    assert_eq!(
        check_infiles(&feeds, &vec![true, true, false, false]),
        Some("ERR: \"b c\"... is not a valid file".to_string())
    );
}

#[test]
fn a_redirection_of_the_input_is_no_output() {
    let vars = ShellVars::new();
    let redirects = vec![Redirect { dir: Redir::In, file: Vec::new(), heredoc_file: None }];
    let outs = redirect_outs(&redirects, "", &vars);
    assert!(matches!(outs[0], OutFile::NotOutput));
}

#[test]
fn pipes_join_neighbours() {
    let mut vars = ShellVars::new();
    let (cmd, tkns) = first("a | pwd | (b) | x=1 | c\n");
    match first_action(&cmd, &tkns, &mut vars) {
        Action::Pipeline(ps) => {
            let stages = spawn_pipeline(ps);
            let streams: Vec<(Stream, Stream)> =
                stages.iter().map(|s| (s.stdin, s.stdout)).collect();
            assert_eq!(
                streams,
                vec![
                    (Stream::Inherit, Stream::Pipe),
                    (Stream::Pipe, Stream::Pipe),
                    (Stream::Pipe, Stream::Pipe),
                    (Stream::Pipe, Stream::Pipe),
                    (Stream::Pipe, Stream::Inherit),
                ]
            );
            assert!(matches!(stages[0].work, Work::Prog(_)));
            assert!(matches!(stages[1].work, Work::Builtin(_)));
            assert!(matches!(stages[2].work, Work::Subshell(_)));
            assert!(matches!(stages[3].work, Work::Nothing));
        }
        _ => panic!("no pipeline"),
    }
    let invalid = spawn_pipeline(vec![Box::new(AstNode::Pipeline(Vec::new()))]);
    assert!(matches!(invalid[0].work, Work::Invalid));
    assert_eq!((invalid[0].stdin, invalid[0].stdout), (Stream::Inherit, Stream::Inherit));
}

#[test]
fn the_first_command_of_a_subshell_reads_its_input() {
    let mut vars = ShellVars::new();
    let (cmd, tkns) = first("((cat < a | b) && c; d) < e < f > g\n");
    match first_action(&cmd, &tkns, &mut vars) {
        Action::Subshell(s) => {
            let plan = s.spawn(Stream::Pipe, Stream::Pipe, &vars);
            assert_eq!((plan.stdin, plan.stdout), (Stream::Shell, Stream::Shell));
            assert!(matches!(&plan.outs[0], OutFile::Truncate(f) if f == "g"));
            assert_eq!(plan.inner_ast.len(), 2);
            assert!(check_trees(&cmd, &plan.inner_ast));
            match &*plan.inner_ast[0] {
                AstNode::Logical { lhs, .. } => match &**lhs {
                    AstNode::Subshell(inner) => {
                        assert_eq!(inner.redirect_ins.len(), 2);
                        let again = Subsh {
                            cmd_buf: Cow::Borrowed(&cmd),
                            inner_ast: Vec::new(),
                            redirect_ins: Vec::new(),
                            redirect_outs: Vec::new(),
                        };
                        let streams = again.status(&vars);
                        assert_eq!(streams.stdin, Stream::Inherit);
                    }
                    _ => panic!("no subshell"),
                },
                _ => panic!("no logical node"),
            }
        }
        _ => panic!("no subshell"),
    }
}

#[test]
fn what_is_fed_comes_after_what_was_there() {
    let mut vars = ShellVars::new();
    let (cmd, tkns) = first("(cat < a | b) < e\n");
    match first_action(&cmd, &tkns, &mut vars) {
        Action::Subshell(s) => {
            let plan = s.status(&vars);
            match &*plan.inner_ast[0] {
                AstNode::Pipeline(ps) => match &*ps[0] {
                    AstNode::Prog(p) => {
                        let feeds = p.status(&vars).feeds;
                        let paths: Vec<&str> = feeds
                            .iter()
                            .map(|f| match f {
                                Feed::File { path, .. } => path.as_str(),
                                Feed::Text(t) => t.as_str(),
                            })
                            .collect();
                        assert_eq!(paths, vec!["a", "e"]);
                    }
                    _ => panic!("no program"),
                },
                _ => panic!("no pipeline"),
            }
        }
        _ => panic!("no subshell"),
    }
}

#[test]
fn builtin_commands_write_to_files_first() {
    let mut vars = ShellVars::new();
    let (cmd, tkns) = first("cd 'a b' > out\n");
    match first_action(&cmd, &tkns, &mut vars) {
        Action::Builtin(b) => {
            let call = b.exec_builtin(true, &vars);
            assert_eq!(call.cmd, BuiltinCmd::Cd);
            assert_eq!(call.args, vec!["cd", "a b"]);
            assert!(matches!(call.dest, Destination::Files(_)));
        }
        _ => panic!("no builtin command"),
    }
    let (cmd, tkns) = first("pwd\n");
    match first_action(&cmd, &tkns, &mut vars) {
        Action::Builtin(b) => {
            assert!(matches!(b.exec_builtin(true, &vars).dest, Destination::Pipe));
            assert!(matches!(b.exec_builtin(false, &vars).dest, Destination::Stdout));
        }
        _ => panic!("no builtin command"),
    }
}

#[test]
fn a_name_that_is_no_longer_builtin_is_noticed() {
    let mut vars = ShellVars::new();
    vars.put_env_var("c".to_string(), "pwd".to_string());
    let (cmd, tkns) = first("c=ls; $c\n");
    match first_action(&cmd, &tkns, &mut vars) {
        Action::Builtin(b) => assert_eq!(b.command(&vars), None),
        _ => panic!("no builtin command"),
    }
}

#[test]
fn trees_made_by_hand() {
    let empty = || -> Box<AstNode<'static>> {
        Box::new(AstNode::Prog(ChildPr {
            args: Vec::new(),
            cmd_buf: Cow::Borrowed(""),
            redirect_ins: Vec::new(),
            redirect_outs: Vec::new(),
            env_vars: Vec::new(),
        }))
    };
    let mut vars = ShellVars::new();
    let mut run: Execution<'static> = execute_ast(vec![empty()]);
    assert!(matches!(run.next(&mut vars), Action::Done(0)));
    let odd = AstNode::Logical { lhs: empty(), operator: Tkn::Pipe, rhs: empty() };
    let mut run = execute_ast(vec![Box::new(odd)]);
    assert!(matches!(run.next(&mut vars), Action::InvalidOperator));
}

#[test]
fn trees_of_another_text_do_not_fit() {
    let cmd = "(echo 'a' $b < c; d=1) > e | f\n";
    let vars = ShellVars::new();
    let mut state = LexerState::new(cmd);
    let (tkns, docs) = lex_cmd_buf(&mut state, cmd).unwrap();
    let nodes = rust_shell::parser::Parser::new(&tkns, docs, cmd, &vars).parse().ok().unwrap();
    assert!(check_trees(cmd, &nodes));
    assert!(!check_trees("(echo", &nodes));
    let prog = |kind: Tkn, span: std::ops::Range<usize>| -> AstNode<'static> {
        AstNode::Prog(ChildPr {
            args: vec![vec![TknSpan { kind, span }]],
            cmd_buf: Cow::Borrowed("`é'x'"),
            redirect_ins: Vec::new(),
            redirect_outs: Vec::new(),
            env_vars: Vec::new(),
        })
    };
    assert!(check_tree("`é'x'", &prog(Tkn::Literal, 0..3)));
    assert!(!check_tree("`é'x'", &prog(Tkn::Literal, 0..2)));
    assert!(!check_tree("`é'x'", &prog(Tkn::Literal, 3..9)));
    assert!(!check_tree("`é'x'", &prog(Tkn::Literal, 3..1)));
    assert!(!check_tree("`é'x'", &prog(Tkn::Expansion, 0..1)));
    assert!(check_tree("`é'x'", &prog(Tkn::SingleQuote, 3..6)));
    assert!(!check_tree("`é'x'", &prog(Tkn::SingleQuote, 3..4)));
}
