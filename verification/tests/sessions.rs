//! Whole sessions: command lines are split, parsed and run against programs, files and
//! directories that are kept in memory.

use rust_shell::builtins::{
    get_history, history_cleared, set_cwd, show_history, BuiltinCmd, CdTarget, HistoryRequest,
};
use rust_shell::executor::{execute_ast, execute_cmd_buf, Action, ChildEnd, Execution, Outcome};
use rust_shell::lexer::{lex_cmd_buf, LexerState};
use rust_shell::spawn::{
    check_infiles, spawn_pipeline, Destination, Feed, OutFile, Spawn, Stream, SubshSpawn, Work,
};
use rust_shell::vars::ShellVars;
use std::collections::HashMap;

struct Session {
    vars: ShellVars,
    files: HashMap<String, String>,
    cwd: String,
    history: Vec<String>,
    stdin: String,
    out: String,
    err: String,
}

const HOME: &str = "/home/user";

impl Session {
    fn new() -> Session {
        Session {
            vars: ShellVars::new(),
            files: HashMap::new(),
            cwd: "/home/user/project".to_string(),
            history: Vec::new(),
            stdin: String::new(),
            out: String::new(),
            err: String::new(),
        }
    }

    /// Types some lines; a command that is not complete goes on in the next line.
    fn enter(&mut self, input: &str) {
        let mut buf = String::new();
        for line in input.lines() {
            buf.push_str(line);
            buf.push('\n');
            let mut state = LexerState::new(&buf);
            if let Some((tkns, docs)) = lex_cmd_buf(&mut state, &buf) {
                self.history.push(buf.trim_end().to_string());
                match execute_cmd_buf(&buf, &tkns, docs, &self.vars) {
                    Ok(run) => {
                        self.drive(run);
                    }
                    Err(e) => self.err.push_str(&e.message()),
                }
                buf = String::new();
            } else if !state.wants_more() {
                self.err.push_str(&state.syntax_err.unwrap_or_default());
                buf = String::new();
            }
        }
        assert!(buf.is_empty(), "not complete: {}", buf);
    }

    fn drive(&mut self, mut run: Execution<'_>) -> Option<i32> {
        loop {
            let outcome = match run.next(&mut self.vars) {
                Action::Done(code) => return Some(code),
                Action::InvalidOperator => return None,
                Action::Builtin(b) => {
                    let text = self.builtin(&b, false);
                    self.out.push_str(&text);
                    Outcome::Builtin
                }
                Action::Prog(p) => {
                    let plan = p.status(&self.vars);
                    match self.program(&plan, None) {
                        Some((_, code)) => Outcome::Exited(Some(code)),
                        None => Outcome::Failed,
                    }
                }
                Action::Subshell(s) => {
                    let plan = s.status(&self.vars);
                    let (_, code) = self.subshell(plan, None);
                    Outcome::Exited(Some(code))
                }
                Action::Pipeline(ps) => {
                    let mut ends: Vec<ChildEnd> = Vec::new();
                    let mut pipe = String::new();
                    let mut failed = false;
                    for stage in spawn_pipeline(ps) {
                        let input = if stage.stdin == Stream::Pipe { Some(pipe.clone()) } else { None };
                        pipe = String::new();
                        match stage.work {
                            Work::Builtin(b) => {
                                let text = self.builtin(&b, stage.stdout == Stream::Pipe);
                                if stage.stdout == Stream::Pipe {
                                    pipe = text;
                                } else {
                                    self.out.push_str(&text);
                                }
                            }
                            Work::Prog(p) => {
                                let plan = p.spawn(stage.stdin, stage.stdout, &self.vars);
                                match self.program(&plan, input) {
                                    Some((text, code)) => {
                                        pipe = text;
                                        ends.push(ChildEnd::Exited(Some(code)));
                                    }
                                    None => {
                                        failed = true;
                                        break;
                                    }
                                }
                            }
                            Work::Subshell(s) => {
                                let plan = s.spawn(stage.stdin, stage.stdout, &self.vars);
                                let (text, code) = self.subshell(plan, input);
                                pipe = text;
                                ends.push(ChildEnd::Exited(Some(code)));
                            }
                            Work::Nothing => {}
                            Work::Invalid => panic!("not a stage"),
                        }
                    }
                    if failed { Outcome::Failed } else { Outcome::Pipeline(ends) }
                }
            };
            if !run.report(&outcome) {
                return None;
            }
        }
    }

    /// The text that a builtin command hands to a pipe or shows.
    fn builtin(&mut self, b: &rust_shell::ast::Builtin<'_>, piped: bool) -> String {
        assert!(b.command(&self.vars).is_some());
        let call = b.exec_builtin(piped, &self.vars);
        let result = match call.cmd {
            BuiltinCmd::Pwd => Ok(self.cwd.clone()),
            BuiltinCmd::Cd => match set_cwd(&call.args) {
                Ok(CdTarget::Home) => {
                    self.cwd = HOME.to_string();
                    Ok(String::new())
                }
                Ok(CdTarget::UnderHome(p)) => {
                    self.cwd = format!("{}/{}", HOME, p);
                    Ok(String::new())
                }
                Ok(CdTarget::Path(p)) => {
                    self.change_directory(&p);
                    Ok(String::new())
                }
                Err(e) => Err(e),
            },
            BuiltinCmd::History => match get_history(&call.args) {
                Ok(HistoryRequest::Show) => Ok(show_history(&self.history)),
                Ok(HistoryRequest::Clear) => {
                    self.history = Vec::new();
                    history_cleared(true)
                }
                Err(e) => Err(e),
            },
            BuiltinCmd::Exit => Ok(String::new()),
        };
        match result {
            Ok(text) => match call.dest {
                Destination::Files(outs) => {
                    self.write_outs(&outs, &text);
                    String::new()
                }
                Destination::Pipe => text,
                Destination::Stdout => format!("{}\n", text),
            },
            Err(e) => {
                self.err.push_str(&e);
                String::new()
            }
        }
    }

    fn change_directory(&mut self, path: &str) {
        if path.starts_with('/') {
            self.cwd = path.to_string();
            return;
        }
        for part in path.split('/') {
            if part == ".." {
                let end = self.cwd.rfind('/').unwrap_or(0);
                self.cwd.truncate(end);
            } else if !part.is_empty() && part != "." {
                self.cwd = format!("{}/{}", self.cwd, part);
            }
        }
    }

    fn write_outs(&mut self, outs: &Vec<OutFile>, text: &str) {
        for out in outs {
            match out {
                OutFile::Truncate(f) => {
                    self.files.insert(f.clone(), text.to_string());
                }
                OutFile::Append(f) => {
                    self.files.entry(f.clone()).or_default().push_str(text);
                }
                OutFile::NotOutput => panic!("no output"),
            }
        }
    }

    /// Runs a program: the text for the pipe after it, and its exit code.
    fn program(&mut self, plan: &Spawn, pipe: Option<String>) -> Option<(String, i32)> {
        let input = match plan.stdin {
            Stream::Inherit => std::mem::take(&mut self.stdin),
            Stream::Pipe => pipe.unwrap(),
            Stream::Shell => {
                let mut text = String::new();
                let mut readable: Vec<bool> = Vec::new();
                for feed in &plan.feeds {
                    match feed {
                        Feed::Text(t) => {
                            text.push_str(t);
                            readable.push(true);
                        }
                        Feed::File { path, .. } => {
                            readable.push(self.files.contains_key(path));
                            text.push_str(self.files.get(path).map_or("", |t| t));
                        }
                    }
                }
                if let Some(e) = check_infiles(&plan.feeds, &readable) {
                    self.err.push_str(&e);
                    return None;
                }
                text
            }
        };
        let (text, code) = self.run_named(plan, &input)?;
        match plan.stdout {
            Stream::Inherit => {
                self.out.push_str(&text);
                Some((String::new(), code))
            }
            Stream::Pipe => Some((text, code)),
            Stream::Shell => {
                self.write_outs(&plan.outs, &text);
                Some((String::new(), code))
            }
        }
    }

    fn run_named(&mut self, plan: &Spawn, input: &str) -> Option<(String, i32)> {
        let args: Vec<&str> = plan.args.iter().map(|a| a.as_str()).collect();
        let text = match plan.program.as_str() {
            "echo" => format!("{}\n", args.join(" ")),
            "true" => String::new(),
            "false" => return Some((String::new(), 1)),
            "printf" => args[0].replace("\\n", "\n"),
            "cat" => {
                if args.is_empty() {
                    input.to_string()
                } else {
                    let mut text = String::new();
                    for a in &args {
                        text.push_str(self.files.get(*a)?);
                    }
                    text
                }
            }
            "rm" => {
                for a in &args {
                    self.files.remove(*a);
                }
                String::new()
            }
            "grep" => {
                let mut text = String::new();
                for line in input.lines().filter(|l| l.contains(args[0])) {
                    text.push_str(line);
                    text.push('\n');
                }
                let code = if text.is_empty() { 1 } else { 0 };
                return Some((text, code));
            }
            "tr" => input.replace(args[0], &args[1].replace("\\n", "\n")),
            "rev" => {
                let mut text = String::new();
                for line in input.lines() {
                    text.extend(line.chars().rev());
                    text.push('\n');
                }
                text
            }
            "seq" => {
                let (from, to): (i32, i32) = (args[0].parse().unwrap(), args[1].parse().unwrap());
                (from..to + 1).map(|n| format!("{}\n", n)).collect()
            }
            "head" => {
                let n: usize = args[1].parse().unwrap();
                input.lines().take(n).map(|l| format!("{}\n", l)).collect()
            }
            "wc" => {
                let n = match args[0] {
                    "-l" => input.matches('\n').count(),
                    "-w" => input.split_whitespace().count(),
                    _ => input.len(),
                };
                format!("{}\n", n)
            }
            "sh" => {
                let mut inner = Session::new();
                for (k, v) in &plan.env {
                    inner.vars.put_env_var(k.clone(), v.clone());
                }
                inner.enter(args[1]);
                inner.out
            }
            _ => {
                self.err.push_str("no such program");
                return None;
            }
        };
        Some((text, 0))
    }

    /// Runs commands in a shell of their own, which shares the files only.
    fn subshell(&mut self, plan: SubshSpawn<'_>, pipe: Option<String>) -> (String, i32) {
        let mut inner = Session::new();
        inner.cwd = self.cwd.clone();
        inner.files = std::mem::take(&mut self.files);
        inner.stdin = match plan.stdin {
            Stream::Inherit => std::mem::take(&mut self.stdin),
            Stream::Pipe => pipe.unwrap(),
            Stream::Shell => String::new(),
        };
        let code = inner.drive(execute_ast(plan.inner_ast)).unwrap_or(1);
        self.files = std::mem::take(&mut inner.files);
        self.err.push_str(&inner.err);
        match plan.stdout {
            Stream::Inherit => {
                self.out.push_str(&inner.out);
                (String::new(), code)
            }
            Stream::Pipe => (inner.out, code),
            Stream::Shell => {
                self.write_outs(&plan.outs, &inner.out);
                (String::new(), code)
            }
        }
    }
}

/// Runs each command in a session of its own that shares the files with those before it.
fn run_all(tests: &[(&str, &str)]) {
    let mut files: HashMap<String, String> = HashMap::new();
    run_all_with(&mut files, tests);
}

fn run_all_with(files: &mut HashMap<String, String>, tests: &[(&str, &str)]) {
    for (cmd, expected) in tests {
        let mut session = Session::new();
        session.files = std::mem::take(files);
        session.enter(cmd);
        assert_eq!(session.out.trim(), expected.trim(), "{}", cmd);
        *files = session.files;
    }
}

#[test]
fn session_quotes() {
    run_all(&[("echo 'hello world'", "hello world")]);
}

#[test]
fn session_builtins() {
    run_all(&[
        ("pwd", "/home/user/project"),
        ("cd ../ && pwd", "\n/home/user"),
        ("cd ~/&&pwd", "\n/home/user"),
        ("cd && pwd", "\n/home/user"),
        ("cd ~/a/b && pwd", "\n/home/user/a/b"),
        ("pwd | cat", "/home/user/project"),
    ]);
}

#[test]
fn session_pipelines() {
    run_all(&[
        ("echo 'apple banana cherry' | tr ' ' '\\n' | grep a\n", "apple\nbanana"),
        ("printf 'line1\\nline2\\nline3\\n' | wc -l\n", "3"),
        ("echo 'reverse me' | rev\n", "em esrever"),
        ("false | echo 'survived'\n", "survived"),
        ("seq 1 1000 | head -n 3\n", "1\n2\n3"),
    ]);
}

#[test]
fn session_heredocs() {
    run_all(&[
        ("cat << EOF\nhello\nworld\nEOF\n", "hello\nworld"),
        ("cat << EOF\nEOF\n", ""),
        (
            "cat << EOF\n  nested line\n    deeply nested line\nEOF\n",
            "  nested line\n    deeply nested line",
        ),
        (
            "cat << EOF | grep target\nignore this line\nthis is the target\nskip this too\nEOF\n",
            "this is the target",
        ),
        ("cat << EOF | wc -w\nrust language shell execution\nEOF\n", "4"),
        (
            "cat << EOF\necho \"hello\"\nprint('world')\nEOF\n",
            "echo \"hello\"\nprint('world')",
        ),
        (
            "cat << A << B << C\nFirst\nA\nSecond\nB\nThird\nC\n",
            "First\nSecond\nThird",
        ),
        ("cat <<eof\nThis should work!\neof\n", "This should work!"),
        ("cat <<'asdf'\nThis\nshould work!\nasdf\n", "This\nshould work!"),
        ("cat <<\"as\\\"df\"\nHello world\nas\"df\n", "Hello world"),
        (
            "cat << A | cat << B | cat << C\nApples\nA\nBananas\nB\nCherries\nC\n",
            "Cherries",
        ),
    ]);
}

#[test]
fn session_redirects() {
    let content = "binturong bin\nbinder\nbingchilling";
    run_all(&[
        ("echo \"binturong bin\nbinder\nbingchilling\" > temp.txt", ""),
        ("<temp.txt cat\n", content),
        ("grep 'binturong' < temp.txt\n", "binturong bin"),
        ("wc -l < temp.txt\n", "3"),
        ("cat   <     temp.txt    \n", content),
        ("pwd > temp.txt\n", ""),
        ("history > temp.txt\n", ""),
        ("history >>temp.txt >temp2.txt\n", ""),
        ("rm temp.txt temp2.txt\n", ""),
    ]);
    let appended = "binturong bin\nbinder\nbingchilling\nappended content";
    let mut files: HashMap<String, String> = HashMap::new();
    files.insert("temp.txt".to_string(), format!("{}\n", content));
    run_all_with(
        &mut files,
        &[
            (">> temp.txt echo 'appended content'\n", ""),
            ("<temp.txt cat\n", appended),
            ("< temp.txt >> temp2.txt cat \n", ""),
            ("cat < temp2.txt\n", appended),
            (">temp2.txt cat << EOF\nwowzers\nEOF\n", ""),
            ("cat <temp2.txt\n", "wowzers"),
            ("echo 'binturong' > temp.txt\n", ""),
            ("cat < temp.txt < temp.txt\n", "binturong\nbinturong"),
            ("cat <temp.txt <<EOF\nbingchilling\nEOF\n", "binturong\nbingchilling"),
            ("echo 'duplicated' > temp.txt >temp2.txt\n", ""),
            ("cat <temp.txt < temp2.txt\n", "duplicated\nduplicated"),
            ("<<EOF < temp.txt cat >> temp2.txt > temp3.txt\nbinturong\nEOF\n", ""),
            ("cat < temp2.txt\n", "duplicated\nbinturong\nduplicated"),
            ("cat < temp3.txt\n", "binturong\nduplicated"),
        ],
    );
}

#[test]
fn session_logicals() {
    run_all(&[
        ("true && echo \"second ran\"\n", "second ran\n"),
        ("false && echo \"should not run\"\n", ""),
        ("true||echo \"should not run\"\n", ""),
        ("false||echo \"fallback ran\"\n", "fallback ran\n"),
        (
            "true && true && echo \"chain complete\" || echo \"failed\"\n",
            "chain complete\n",
        ),
        (
            "true && false && echo \"skipped\" ||echo \"recovered\"\n",
            "recovered\n",
        ),
        (
            "false ||true && echo \"step 3\"&& false || echo \"final escape\"\n",
            "step 3\nfinal escape\n",
        ),
    ]);
}

#[test]
fn session_subshells() {
    run_all(&[
        ("(echo hello)\n", "hello\n"),
        ("(echo alpha && echo beta)\n", "alpha\nbeta\n"),
        ("(echo outer && (echo inner))\n", "outer\ninner\n"),
        ("((((echo deep))))\n", "deep\n"),
        ("x=1\n(x=2)\necho $x\n", "1\n"),
    ]);
}

#[test]
fn session_escapes() {
    run_all(&[
        ("echo 'hello\\nworld'\n", "hello\\nworld\n"),
        ("echo 'foo $BAR \"baz\"'\n", "foo $BAR \"baz\"\n"),
        ("echo \"hello\\nworld\"\n", "hello\nworld\n"),
        ("echo \"tab\\ttest\\r\"\n", "tab\ttest\r\n"),
        (
            "echo \"escaped \\\"quotes\\\" and \\\\ backslash\"\n",
            "escaped \"quotes\" and \\ backslash\n",
        ),
        ("echo \"hello \\a world\"\n", "hello \\a world\n"),
        ("(echo \"inner \\\"quoted\\\" value\")\n", "inner \"quoted\" value\n"),
    ]);
}

#[test]
fn session_assignments() {
    run_all(&[
        ("foo=bar\n", ""),
        ("foo=bar\necho $foo\n", "bar\n"),
        ("foo=bar; baz=1\necho $foo$baz\n", "bar1\n"),
        ("foo=bar; baz=1; echo $foo$baz\n", "bar1\n"),
        ("a = 1\nb=  2\nc   =3\necho $a $b $c\n", "1 2 3\n"),
        ("foo=hello\necho \"$foo world\"\n", "hello world\n"),
        ("foo=hello\necho '$foo'\n", "$foo\n"),
        (
            "foo=hello\nfoo=hello$foo\"world\"\"$foo\"'asdf'\necho $foo\n",
            "hellohelloworldhelloasdf\n",
        ),
        ("FOO=bar sh -c 'echo $FOO'\necho $FOO\n", "bar\n\n"),
    ]);
}

#[test]
fn session_combined_operators() {
    let log = "2026-07-19 SUCCESS: Database connected successfully.\n\
               2026-07-19 ERROR: Failed to bind to interface on port 8080.\n\
               2026-07-19 WARN: High disk latency detected.\n";
    let mut files: HashMap<String, String> = HashMap::new();
    files.insert("errors.log".to_string(), log.to_string());
    files.insert("system.log".to_string(), log.to_string());
    files.insert("audit.log".to_string(), "AUDIT\n".to_string());
    run_all_with(
        &mut files,
        &[
            (
                "cat << EOF | grep 'match'\nignore\nmatch this\nignore again\nEOF\n",
                "match this",
            ),
            ("(cd ../ && pwd) && pwd\n", "\n/home/user\n/home/user/project"),
            (
                "echo \"test data\" | grep \"match\" && echo \"found\" || echo \"not found\"\n",
                "not found",
            ),
            (
                "(cat | grep \"critical\") <errors.log>result.txt || echo pipeline fail\n",
                "pipeline fail",
            ),
            ("cat result.txt\n", ""),
            (
                "cat << EOF1 << EOF2 | grep \"target\" && echo \"triggered\"\nalpha\ntarget\nEOF1\nbeta\nEOF2\n",
                "target\ntriggered",
            ),
            (
                "(false || echo \"recovered output\") > file1.txt > file2.txt || echo \"failed completely\"\n",
                "",
            ),
            ("cat < file1.txt < file2.txt\n", "recovered output\nrecovered output"),
            (
                "(grep \"ERROR\" && echo \"found errors\"\n) < system.log >> audit.log || echo \"audit failed\"\n",
                "",
            ),
            (
                "cat audit.log\n",
                "AUDIT\n2026-07-19 ERROR: Failed to bind to interface on port 8080.\nfound errors",
            ),
            ("cat audit.log |\n wc -c\n", "79"),
            ("(true && (false || echo \"nested fallback\"))\n", "nested fallback"),
            (
                "echo \"data stream\" | (cat | grep \"data\" && (echo \"deep match\"))\n",
                "data stream\ndeep match",
            ),
            (
                "((grep \"ERROR\") && echo \"inner execution complete\") < errors.log > nested_test.txt\n",
                "",
            ),
            (
                "cat nested_test.txt\n",
                "2026-07-19 ERROR: Failed to bind to interface on port 8080.\ninner execution complete\n",
            ),
            (
                "(echo \"line 1\" && echo 'line 2') > test_out.txt && cat test_out.txt\n",
                "line 1\nline 2\n",
            ),
            (
                "echo \"redirected input\" > test_in.txt && (cat < test_in.txt)\n",
                "redirected input\n",
            ),
            (
                "echo \"first\" > test_app.txt && (echo \"second \\\"quoted\\\"\" >> test_app.txt) && cat test_app.txt\n",
                "first\nsecond \"quoted\"\n",
            ),
            ("echo \"arg1 | arg2\"\n", "arg1 | arg2\n"),
            ("echo \"hello world\" | (grep \"hello\")\n", "hello world\n"),
            (
                "(echo \"foo\\nbar\" | grep \"foo\") && (echo 'baz' | grep 'baz')\n",
                "foo\nbaz\n",
            ),
            (
                "echo \"content\" > \"my file.txt\" && (cat < \"my file.txt\")\n",
                "content\n",
            ),
        ],
    );
}

#[test]
fn session_failures_stop_the_line() {
    let mut session = Session::new();
    session.enter("cat < nowhere.txt; echo after\n");
    assert_eq!(session.out, "");
    assert_eq!(session.err, "ERR: nowhere.txt... is not a valid file");
    session.enter("cd a b c\n");
    assert!(session.err.ends_with("ERR cd: too many arguments for cd; b is invalid"));
    session.enter("history CLEAR\n");
    assert_eq!(session.history.len(), 0);
    assert_eq!(session.out, "command history cleared\n");
    session.enter("history Sort\n");
    assert!(session.err.ends_with("unrecognized history parameter Sort"));
}
