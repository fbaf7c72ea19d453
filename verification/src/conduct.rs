//! What single operations are for, said of all their inputs: exit codes, the order of commands,
//! the builtin commands, and what a command asks of the system.

use crate::ast::{AssignmentView, AstView, CommandView, Redir, RedirectView, SubshView};
use crate::builtins::{
    builtin_table, cd_request, cleared_answer, lines, parameter_request, recent, without_lead,
    BuiltinCmd, CdTargetView, HistoryRequest,
};
use crate::executor::{
    code_of, driven, law_driving_runs_the_trees, next_action, ran, ran_all, started, vars_after,
    ActionView, ChildEnd, Fate, OutcomeView, RunView, World,
};
use crate::spawn::{
    destination_of, env_of, fed, feeds_of, infile_error, outs_of, spawn_of, stages_of,
    subsh_spawn_of, DestinationView, FeedView, OutFileView, Stream, WorkView,
};
use crate::token::{token_text, TknView};
use crate::vars::{var_value, VarMap};
use crate::word::{args_value, word_value};
use vstd::prelude::*;
use vstd::string::*;
use vstd::utf8::*;

verus! {

broadcast use vstd::seq::group_seq_axioms;

/// A pipeline ends as its last child process does, however the others have ended: its code, or
/// 1 where it has none or cannot be waited for.
pub proof fn law_pipelines_end_as_their_last_child(ends: Seq<ChildEnd>, e: ChildEnd, code: i32)
    ensures
        code_of(OutcomeView::Pipeline(ends.push(e))) == code_of(OutcomeView::Pipeline(seq![e])),
        code_of(OutcomeView::Pipeline(ends.push(ChildEnd::Exited(Some(code))))) == Some(code),
        code_of(OutcomeView::Pipeline(ends.push(ChildEnd::Exited(None)))) == Some(1i32),
        code_of(OutcomeView::Pipeline(ends.push(ChildEnd::Lost))) == Some(1i32),
        code_of(OutcomeView::Pipeline(Seq::empty())) == Some(0i32),
{
    assert(ends.push(e).last() == e);
    assert(seq![e].last() == e);
    assert(ends.push(ChildEnd::Exited(Some(code))).last() == ChildEnd::Exited(Some(code)));
    assert(ends.push(ChildEnd::Exited(None)).last() == ChildEnd::Exited(None));
    assert(ends.push(ChildEnd::Lost).last() == ChildEnd::Lost);
}

/// A program or a subshell has the exit code that its process has, as it would at the end of a
/// pipeline; a builtin command has 0; what could not be carried out has none.
pub proof fn law_commands_end_as_their_process(end: Option<i32>, code: i32)
    ensures
        code_of(OutcomeView::Exited(Some(code))) == Some(code),
        code_of(OutcomeView::Exited(None)) == Some(1i32),
        code_of(OutcomeView::Exited(end)) == code_of(
            OutcomeView::Pipeline(seq![ChildEnd::Exited(end)]),
        ),
        code_of(OutcomeView::Builtin) == Some(0i32),
        code_of(OutcomeView::Failed) is None,
{
    assert(seq![ChildEnd::Exited(end)].last() == ChildEnd::Exited(end));
}

/// Whether a tree is run as one command.
pub open spec fn is_command(n: AstView) -> bool {
    match n {
        AstView::Prog(p) => p.args.len() > 0,
        AstView::Builtin(_) | AstView::Pipeline(_) | AstView::Subshell(_) => true,
        AstView::Logical { .. } | AstView::Assignments { .. } => false,
    }
}

/// A command is run once, after all that ran before it, and its code is that of its outcome.
/// It sets no variable of the session.
pub proof fn law_commands_run_once(n: AstView, w: World, fate: Fate)
    requires
        is_command(n),
    ensures
        ran(n, w, fate).0.done == w.done.push(n),
        ran(n, w, fate).0.vars == w.vars,
        ran(n, w, fate).1 == code_of(fate(w.done.len() as int)),
{
}

/// Assignments run no command, set each variable in turn, and succeed.
pub proof fn law_assignments_run_no_command(
    text: Seq<char>,
    env: Seq<AssignmentView>,
    a: AssignmentView,
    w: World,
    fate: Fate,
)
    ensures
        ({
            let b = encode_utf8(text);
            let none = AstView::Assignments { text, assignments: Seq::empty() };
            let some = AstView::Assignments { text, assignments: env };
            let more = AstView::Assignments { text, assignments: env.push(a) };
            let vars = ran(some, w, fate).0.vars;
            &&& ran(none, w, fate) == (w, Some(0i32))
            &&& ran(more, w, fate).1 == Some(0i32)
            &&& ran(more, w, fate).0.done == w.done
            &&& ran(more, w, fate).0.vars == vars.insert(
                word_value(a.lhs, b, vars),
                word_value(a.rhs, b, vars),
            )
        }),
{
    assert(env.push(a).drop_last() =~= env);
    assert(vars_after(w.vars, Seq::empty(), encode_utf8(text)) == w.vars);
}

/// Trees run in their order and the code is that of the last: running two lists of trees is
/// running the one and then the other, and the code of the first has no say in that.
pub proof fn law_trees_run_in_their_order(
    ns: Seq<AstView>,
    ms: Seq<AstView>,
    w: World,
    code: i32,
    fate: Fate,
)
    ensures
        ran_all(Seq::empty(), w, code, fate) == (w, Some(code)),
        ns.len() == 1 ==> ran_all(ns, w, code, fate) == ran(ns[0], w, fate),
        ran_all(ns + ms, w, code, fate) == match ran_all(ns, w, code, fate) {
            (w1, Some(c)) => ran_all(ms, w1, c, fate),
            (w1, None) => (w1, None),
        },
    decreases ns.len(),
{
    if ns.len() == 0 {
        assert(ns + ms =~= ms);
    } else {
        reveal_with_fuel(ran_all, 2);
        assert((ns + ms).skip(1) =~= ns.skip(1) + ms);
        assert((ns + ms)[0] == ns[0]);
        if let (w1, Some(c)) = ran(ns[0], w, fate) {
            law_trees_run_in_their_order(ns.skip(1), ms, w1, c, fate);
        }
        if ns.len() == 1 {
            assert(ns.skip(1) =~= Seq::empty());
        }
    }
}

/// A pipeline before `&&` or `||` decides by its last child process: after `&&` the next command
/// is run exactly if that one has the code 0, and after `||` exactly if it has another.
pub proof fn law_the_last_child_decides(
    ps: Seq<AstView>,
    rhs: AstView,
    ends: Seq<ChildEnd>,
    code: i32,
    w: World,
    fate: Fate,
)
    requires
        fate(w.done.len() as int) == OutcomeView::Pipeline(
            ends.push(ChildEnd::Exited(Some(code))),
        ),
    ensures
        ({
            let both = AstView::Logical {
                lhs: Box::new(AstView::Pipeline(ps)),
                operator: TknView::CmdAnd,
                rhs: Box::new(rhs),
            };
            let either = AstView::Logical {
                lhs: Box::new(AstView::Pipeline(ps)),
                operator: TknView::CmdOr,
                rhs: Box::new(rhs),
            };
            let then = World { done: w.done.push(AstView::Pipeline(ps)), ..w };
            &&& driven(started(seq![both]), w, fate) == if code == 0 {
                ran(rhs, then, fate)
            } else {
                (then, Some(code))
            }
            &&& driven(started(seq![either]), w, fate) == if code != 0 {
                ran(rhs, then, fate)
            } else {
                (then, Some(0i32))
            }
        }),
{
    law_pipelines_end_as_their_last_child(ends, ChildEnd::Exited(Some(code)), code);
    let both = AstView::Logical {
        lhs: Box::new(AstView::Pipeline(ps)),
        operator: TknView::CmdAnd,
        rhs: Box::new(rhs),
    };
    let either = AstView::Logical {
        lhs: Box::new(AstView::Pipeline(ps)),
        operator: TknView::CmdOr,
        rhs: Box::new(rhs),
    };
    law_driving_runs_the_trees(seq![both], w, fate);
    law_driving_runs_the_trees(seq![either], w, fate);
    law_trees_run_in_their_order(seq![both], Seq::empty(), w, 0, fate);
    law_trees_run_in_their_order(seq![either], Seq::empty(), w, 0, fate);
    law_commands_run_once(AstView::Pipeline(ps), w, fate);
    reveal_with_fuel(ran, 2);
}

/// A run asks for its trees in their order: for the first one if that is a command, with the
/// others left for later; and where none is left it is done, with the code of the last command.
pub proof fn law_runs_ask_in_order(n: AstView, ns: Seq<AstView>, vars: VarMap, code: i32)
    requires
        is_command(n),
    ensures
        next_action(started(seq![n] + ns), vars) == (started(ns), vars, ActionView::Run(n)),
        next_action(RunView { stack: Seq::empty(), res: code }, vars).2 == ActionView::Done(code),
        next_action(started(Seq::empty()), vars).2 == ActionView::Done(0),
{
    let all = seq![n] + ns;
    assert(started(all).stack.drop_last() =~= started(ns).stack);
    assert(all[0] == n);
    assert(started(Seq::<AstView>::empty()).stack.len() == 0);
}

/// A path that does not begin with a tilde is changed to as it stands, and so is one whose tilde
/// begins a longer name. The word that `cd` was called by has no say.
pub proof fn law_cd_takes_paths_as_they_stand(name: Seq<char>, p: Seq<char>)
    ensures
        p.len() == 0 || p[0] != '~' ==> cd_request(seq![name, p]) == Ok::<CdTargetView, Seq<char>>(
            CdTargetView::Path(p),
        ),
        p.len() > 1 && p[0] == '~' && p[1] != '/' ==> cd_request(seq![name, p]) == Ok::<
            CdTargetView,
            Seq<char>,
        >(CdTargetView::Path(p)),
{
    assert(seq![name, p][1] == p);
}

/// `cd` alone and `cd ~` change to the home directory. What stands after `~/` is taken below the
/// home directory, as it stands where it begins with a name; separators and lone dots before
/// that make no difference.
pub proof fn law_cd_expands_the_tilde(name: Seq<char>, q: Seq<char>)
    ensures
        cd_request(seq![name]) == Ok::<CdTargetView, Seq<char>>(CdTargetView::Home),
        cd_request(seq![name, seq!['~']]) == Ok::<CdTargetView, Seq<char>>(CdTargetView::Home),
        cd_request(seq![name, seq!['~', '/']]) == Ok::<CdTargetView, Seq<char>>(CdTargetView::Home),
        cd_request(seq![name, seq!['~', '/', '.']]) == Ok::<CdTargetView, Seq<char>>(
            CdTargetView::Home,
        ),
        q.len() > 0 && q[0] != '/' && (q[0] != '.' || (q.len() > 1 && q[1] != '/')) ==> cd_request(
            seq![name, seq!['~', '/'] + q],
        ) == Ok::<CdTargetView, Seq<char>>(CdTargetView::UnderHome(q)),
        cd_request(seq![name, seq!['~', '/', '/'] + q]) == cd_request(
            seq![name, seq!['~', '/'] + q],
        ),
        cd_request(seq![name, seq!['~', '/', '.', '/'] + q]) == cd_request(
            seq![name, seq!['~', '/'] + q],
        ),
{
    let none = Seq::<char>::empty();
    reveal_with_fuel(without_lead, 4);
    assert(seq!['~'].skip(1) =~= none);
    assert(seq!['~', '/'].skip(1) =~= seq!['/']);
    assert(seq!['/'].skip(1) =~= none);
    assert(seq!['~', '/', '.'].skip(1) =~= seq!['/', '.']);
    assert(seq!['/', '.'].skip(1) =~= seq!['.']);
    assert(seq!['.'].skip(1) =~= none);
    let one = seq!['~', '/'] + q;
    let two = seq!['~', '/', '/'] + q;
    let dot = seq!['~', '/', '.', '/'] + q;
    assert(one.skip(1).skip(1) =~= q);
    assert(one.skip(1)[0] == '/');
    assert(two.skip(1).skip(1) =~= one.skip(1));
    assert(two.skip(1)[0] == '/');
    assert(dot.skip(1)[0] == '/');
    assert(dot.skip(1).skip(1)[0] == '.' && dot.skip(1).skip(1)[1] == '/');
    assert(dot.skip(1).skip(1).skip(1) =~= one.skip(1));
    assert(without_lead(two.skip(1)) == without_lead(one.skip(1)));
    assert(without_lead(dot.skip(1)) == without_lead(dot.skip(1).skip(1)));
    assert(without_lead(dot.skip(1)) == without_lead(one.skip(1)));
    assert(without_lead(one.skip(1)) == without_lead(q));
    assert(seq![name, seq!['~']][1] == seq!['~']);
    assert(seq![name, seq!['~', '/']][1] == seq!['~', '/']);
    assert(seq![name, seq!['~', '/', '.']][1] == seq!['~', '/', '.']);
    assert(seq![name, one][1] == one);
    assert(seq![name, two][1] == two);
    assert(seq![name, dot][1] == dot);
}

/// More than one argument of `cd` is refused, and the second one is named.
pub proof fn law_cd_takes_one_argument(args: Seq<Seq<char>>)
    requires
        args.len() > 2,
    ensures
        cd_request(args) == Err::<CdTargetView, Seq<char>>(
            "ERR cd: too many arguments for cd; "@ + args[2] + " is invalid"@,
        ),
{
}

/// The builtin commands are `pwd`, `cd`, `history` and `exit`, and no other name is one.
pub proof fn law_builtin_names(name: Seq<char>)
    ensures
        builtin_table().contains_key(name) <==> name == "pwd"@ || name == "cd"@ || name
            == "history"@ || name == "exit"@,
        builtin_table()["pwd"@] == BuiltinCmd::Pwd,
        builtin_table()["cd"@] == BuiltinCmd::Cd,
        builtin_table()["history"@] == BuiltinCmd::History,
        builtin_table()["exit"@] == BuiltinCmd::Exit,
{
    reveal_strlit("pwd");
    reveal_strlit("cd");
    reveal_strlit("history");
    reveal_strlit("exit");
    assert("pwd"@.len() == 3 && "cd"@.len() == 2 && "history"@.len() == 7 && "exit"@.len() == 4);
}

/// The history shows its last fifteen entries, or all where there are fewer, with a line feed
/// between each two of them and none at the end.
pub proof fn law_history_shows_fifteen_lines(entries: Seq<Seq<char>>, more: Seq<Seq<char>>)
    ensures
        entries.len() <= 15 ==> recent(entries) == entries,
        more.len() == 15 ==> recent(entries + more) == more,
        lines(Seq::empty()) == Seq::<char>::empty(),
        entries.len() == 1 ==> lines(entries) == entries[0],
        entries.len() > 0 && more.len() > 0 ==> lines(entries + more) == lines(entries) + seq!['\n']
            + lines(more),
    decreases more.len(),
{
    assert(more.len() == 15 ==> recent(entries + more) =~= more);
    if entries.len() > 0 && more.len() > 0 {
        reveal_strlit("\n");
        assert("\n"@ =~= seq!['\n']);
        let all = entries + more;
        assert(all.drop_last() =~= entries + more.drop_last());
        assert(all.last() == more.last());
        if more.len() == 1 {
            assert(entries + more.drop_last() =~= entries);
            assert(lines(all) =~= lines(entries) + seq!['\n'] + lines(more));
        } else {
            law_history_shows_fifteen_lines(entries, more.drop_last());
            assert(lines(all) =~= lines(entries) + seq!['\n'] + lines(more));
        }
    }
}

/// `history` knows one parameter, `clear` in any case, and refuses every other by its name. The
/// answer to it says whether the history has been cleared.
pub proof fn law_history_knows_one_parameter(lowered: Seq<char>, given: Seq<char>)
    ensures
        lowered == "clear"@ ==> parameter_request(lowered, given) == Ok::<
            HistoryRequest,
            Seq<char>,
        >(HistoryRequest::Clear),
        lowered != "clear"@ ==> parameter_request(lowered, given) == Err::<
            HistoryRequest,
            Seq<char>,
        >("unrecognized history parameter "@ + given),
        cleared_answer(true) == Ok::<Seq<char>, Seq<char>>("command history cleared"@),
        cleared_answer(false) == Err::<Seq<char>, Seq<char>>("Failed to clear history"@),
{
}

/// A variable that was never set reads as the empty text, and one that was as its value.
pub proof fn law_variables_hold_their_values(vars: VarMap, key: Seq<char>)
    ensures
        vars.contains_key(key) ==> var_value(vars, key) == vars[key],
        !vars.contains_key(key) ==> var_value(vars, key) == Seq::<char>::empty(),
{
}

/// Each pair that is handed to a process comes from one assignment: its name from the left word,
/// its value from the right one, both read with the variables of the session. What is set by the
/// one is not seen by another.
pub proof fn law_each_assignment_makes_its_pair(
    env: Seq<AssignmentView>,
    b: Seq<u8>,
    vars: VarMap,
    i: int,
)
    requires
        0 <= i < env.len(),
    ensures
        env_of(env, b, vars).len() == env.len(),
        env_of(env, b, vars)[i].0 == word_value(env[i].lhs, b, vars),
        env_of(env, b, vars)[i].1 == word_value(env[i].rhs, b, vars),
        env_of(env, b, vars)[i] == env_of(seq![env[i]], b, vars)[0],
{
}

/// Each redirection of the output leads to the file that its word reads as with the variables of
/// the session: `>` replaces what it holds, and `>>` adds to it.
pub proof fn law_outputs_go_to_their_files(
    rs: Seq<RedirectView>,
    b: Seq<u8>,
    vars: VarMap,
    i: int,
)
    requires
        0 <= i < rs.len(),
    ensures
        outs_of(rs, b, vars).len() == rs.len(),
        rs[i].dir == Redir::Out ==> outs_of(rs, b, vars)[i] == OutFileView::Truncate(
            word_value(rs[i].file, b, vars),
        ),
        rs[i].dir == Redir::Append ==> outs_of(rs, b, vars)[i] == OutFileView::Append(
            word_value(rs[i].file, b, vars),
        ),
{
}

/// Each redirection of the input gives its file, which its word names with the variables of the
/// session, or its here-document, after what those before it give.
pub proof fn law_inputs_come_from_their_files(
    rs: Seq<RedirectView>,
    r: RedirectView,
    b: Seq<u8>,
    vars: VarMap,
)
    ensures
        feeds_of(Seq::empty(), b, vars) == Seq::<FeedView>::empty(),
        r.dir == Redir::In ==> feeds_of(rs.push(r), b, vars) == feeds_of(rs, b, vars).push(
            FeedView::File { path: word_value(r.file, b, vars), shown: token_text(b, r.file[0]) },
        ),
        r.dir == Redir::Heredoc ==> (r.heredoc matches Some(t) ==> feeds_of(rs.push(r), b, vars)
            == feeds_of(rs, b, vars).push(FeedView::Text(t))),
{
    assert(rs.push(r).drop_last() =~= rs);
    if r.dir == Redir::In {
        assert(feeds_of(rs.push(r), b, vars) =~= feeds_of(rs, b, vars).push(
            FeedView::File { path: word_value(r.file, b, vars), shown: token_text(b, r.file[0]) },
        ));
    }
    if r.dir == Redir::Heredoc {
        if let Some(t) = r.heredoc {
            assert(feeds_of(rs.push(r), b, vars) =~= feeds_of(rs, b, vars).push(
                FeedView::Text(t),
            ));
        }
    }
}

/// The user is told of the first file that cannot be read from, and of nothing where there is
/// none: once one has been found it stays, and until then only a file that cannot be read from is
/// one. Here-documents can always be read.
pub proof fn law_the_first_missing_file_is_named(
    feeds: Seq<FeedView>,
    readable: Seq<bool>,
    f: FeedView,
    ok: bool,
)
    requires
        feeds.len() == readable.len(),
    ensures
        infile_error(Seq::empty(), readable) is None,
        ({
            let now = infile_error(feeds.push(f), readable.push(ok));
            match infile_error(feeds, readable) {
                Some(e) => now == Some(e),
                None => match f {
                    FeedView::File { path, shown } => if ok {
                        now is None
                    } else {
                        now == Some("ERR: "@ + shown + "... is not a valid file"@)
                    },
                    FeedView::Text(_) => now is None,
                },
            }
        }),
{
    assert(feeds.push(f).drop_last() =~= feeds);
    assert(feeds.push(f).last() == f);
    assert(readable.push(ok)[feeds.len() as int] == ok);
    lemma_readable_prefix(feeds, readable, readable.push(ok));
}

/// Only the entries for the feeds themselves are looked at.
proof fn lemma_readable_prefix(feeds: Seq<FeedView>, r: Seq<bool>, q: Seq<bool>)
    requires
        feeds.len() <= r.len(),
        feeds.len() <= q.len(),
        forall|i: int| 0 <= i < feeds.len() ==> r[i] == q[i],
    ensures
        infile_error(feeds, r) == infile_error(feeds, q),
    decreases feeds.len(),
{
    if feeds.len() > 0 {
        lemma_readable_prefix(feeds.drop_last(), r, q);
    }
}

/// The words of a command, read with the variables of the session, are the name of the program
/// and its arguments in their order. What is set for the process alone does not change them, nor
/// its files.
pub proof fn law_words_name_the_program(
    p: CommandView,
    env: Seq<AssignmentView>,
    stdin: Stream,
    stdout: Stream,
    vars: VarMap,
)
    requires
        p.args.len() > 0,
    ensures
        ({
            let b = encode_utf8(p.text);
            let s = spawn_of(p, stdin, stdout, vars);
            let t = spawn_of(CommandView { env, ..p }, stdin, stdout, vars);
            &&& s.program == word_value(p.args[0], b, vars)
            &&& s.args.len() == p.args.len() - 1
            &&& forall|i: int|
                0 < i < p.args.len() ==> s.args[i - 1] == word_value(#[trigger] p.args[i], b, vars)
            &&& s.env == env_of(p.env, b, vars)
            &&& s.feeds == feeds_of(p.ins, b, vars)
            &&& s.outs == outs_of(p.outs, b, vars)
            &&& t.env == env_of(env, b, vars)
            &&& t.program == s.program && t.args == s.args && t.feeds == s.feeds && t.outs == s.outs
            &&& t.stdin == s.stdin && t.stdout == s.stdout
        }),
{
    assert(args_value(p.args, encode_utf8(p.text), vars).len() == p.args.len());
}

/// Files take the place of the streams that a process is given: it reads from the shell exactly
/// if its input is redirected, and writes to the shell exactly if its output is. Else it has the
/// stream that it was given.
pub proof fn law_files_take_the_place_of_streams(
    p: CommandView,
    s: SubshView,
    stdin: Stream,
    stdout: Stream,
    vars: VarMap,
)
    ensures
        p.ins.len() == 0 ==> spawn_of(p, stdin, stdout, vars).stdin == stdin,
        p.ins.len() > 0 ==> spawn_of(p, stdin, stdout, vars).stdin == Stream::Shell,
        p.outs.len() == 0 ==> spawn_of(p, stdin, stdout, vars).stdout == stdout,
        p.outs.len() > 0 ==> spawn_of(p, stdin, stdout, vars).stdout == Stream::Shell,
        s.ins.len() == 0 ==> subsh_spawn_of(s, stdin, stdout, vars).stdin == stdin,
        s.ins.len() > 0 ==> subsh_spawn_of(s, stdin, stdout, vars).stdin == Stream::Shell,
        s.outs.len() == 0 ==> subsh_spawn_of(s, stdin, stdout, vars).stdout == stdout,
        s.outs.len() > 0 ==> subsh_spawn_of(s, stdin, stdout, vars).stdout == Stream::Shell,
{
}

/// What a builtin command shows goes to its files where it has some, read with the variables of
/// the session; else into the pipe that it stands before; else to where the shell writes.
pub proof fn law_builtins_write_to_their_files(p: CommandView, piped: bool, vars: VarMap)
    ensures
        p.outs.len() > 0 ==> destination_of(p, piped, vars) == DestinationView::Files(
            outs_of(p.outs, encode_utf8(p.text), vars),
        ),
        p.outs.len() == 0 && piped ==> destination_of(p, piped, vars) == DestinationView::Pipe,
        p.outs.len() == 0 && !piped ==> destination_of(p, piped, vars) == DestinationView::Stdout,
{
}

/// Every stage of a pipeline runs its own command, in its place; an assignment runs nothing.
pub proof fn law_stages_run_their_commands(ps: Seq<AstView>, i: int)
    requires
        0 <= i < ps.len(),
    ensures
        stages_of(ps).len() == ps.len(),
        ps[i] is Prog || ps[i] is Builtin || ps[i] is Subshell ==> stages_of(ps)[i].work
            == WorkView::Run(ps[i]),
        ps[i] is Assignments ==> stages_of(ps)[i].work == WorkView::Nothing,
        ps[i] is Logical || ps[i] is Pipeline ==> stages_of(ps)[i].work == WorkView::Invalid,
        stages_of(ps)[i].stdin == if i == 0 {
            Stream::Inherit
        } else {
            Stream::Pipe
        },
        stages_of(ps)[i].stdout == if i == ps.len() - 1 {
            Stream::Inherit
        } else {
            Stream::Pipe
        },
{
}

/// A subshell hands its commands on as they are, in their order; only the first of them is given
/// what the subshell's input is redirected from, and its own output goes to its own files.
pub proof fn law_subshells_hand_on_their_commands(
    s: SubshView,
    stdin: Stream,
    stdout: Stream,
    vars: VarMap,
    i: int,
)
    requires
        0 <= i < s.inner.len(),
    ensures
        ({
            let r = subsh_spawn_of(s, stdin, stdout, vars);
            &&& r.inner.len() == s.inner.len()
            &&& i > 0 || s.ins.len() == 0 ==> r.inner[i] == s.inner[i]
            &&& r.inner[0] == fed(s.inner[0], s.ins)
            &&& r.outs == outs_of(s.outs, encode_utf8(s.text), vars)
        }),
{
    law_feeding_reaches_one_command(s.inner[0], s.ins, s.ins);
}

/// Giving a tree more to read changes nothing but what its first command reads: that command
/// reads it after what it already reads. Nothing to read changes nothing, and giving twice is
/// giving all at once.
pub proof fn law_feeding_reaches_one_command(
    n: AstView,
    rs: Seq<RedirectView>,
    qs: Seq<RedirectView>,
)
    ensures
        rs.len() == 0 ==> fed(n, rs) == n,
        fed(fed(n, rs), qs) == fed(n, rs + qs),
        match n {
            AstView::Prog(p) => fed(n, rs) == AstView::Prog(CommandView { ins: p.ins + rs, ..p }),
            AstView::Builtin(p) => fed(n, rs) == AstView::Builtin(
                CommandView { ins: p.ins + rs, ..p },
            ),
            AstView::Subshell(s) => fed(n, rs) == AstView::Subshell(
                SubshView { ins: s.ins + rs, ..s },
            ),
            AstView::Assignments { .. } => fed(n, rs) == n,
            AstView::Logical { lhs, operator, rhs } => fed(n, rs) == AstView::Logical {
                lhs: Box::new(fed(*lhs, rs)),
                operator,
                rhs,
            },
            AstView::Pipeline(ps) => ps.len() > 0 ==> fed(n, rs) == AstView::Pipeline(
                seq![fed(ps[0], rs)] + ps.skip(1),
            ),
        },
    decreases n,
{
    match n {
        AstView::Prog(p) => {
            if rs.len() == 0 {
                assert(p.ins + rs =~= p.ins);
            }
            assert(p.ins + rs + qs =~= p.ins + (rs + qs));
        },
        AstView::Builtin(p) => {
            if rs.len() == 0 {
                assert(p.ins + rs =~= p.ins);
            }
            assert(p.ins + rs + qs =~= p.ins + (rs + qs));
        },
        AstView::Subshell(s) => {
            if rs.len() == 0 {
                assert(s.ins + rs =~= s.ins);
            }
            assert(s.ins + rs + qs =~= s.ins + (rs + qs));
        },
        AstView::Logical { lhs, operator, rhs } => {
            law_feeding_reaches_one_command(*lhs, rs, qs);
        },
        AstView::Pipeline(ps) => {
            if ps.len() > 0 {
                law_feeding_reaches_one_command(ps[0], rs, qs);
                let once = ps.update(0, fed(ps[0], rs));
                assert(once =~= seq![fed(ps[0], rs)] + ps.skip(1));
                assert(once.update(0, fed(once[0], qs)) =~= ps.update(0, fed(ps[0], rs + qs)));
                if rs.len() == 0 {
                    assert(once =~= ps);
                }
            }
        },
        AstView::Assignments { .. } => {},
    }
}

} // verus!
