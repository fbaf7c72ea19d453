//! What the functions that a program calls answer, said of the calls themselves: whatever the
//! contract of a function allows it to answer is what is meant.

use crate::ast::{
    lemma_inner_view, nodes_view, redirects_view, wf_ast, AstNode, AstView, Builtin, ChildPr,
    CommandView, Redir, Redirect, RedirectView, Subsh,
};
use crate::builtins::{
    get_history, history_cleared, lower_case, set_cwd, show_history, BuiltinCmd, CdTarget,
    HistoryRequest,
};
use crate::conduct::{
    is_command, law_builtin_names, law_builtins_write_to_their_files, law_cd_expands_the_tilde,
    law_each_assignment_makes_its_pair, law_feeding_reaches_one_command,
    law_files_take_the_place_of_streams, law_history_shows_fifteen_lines,
    law_stages_run_their_commands, law_subshells_hand_on_their_commands, law_words_name_the_program,
};
use crate::executor::{
    execute_cmd_buf, started, Action, ActionView, ChildEnd, Execution, Frame, Outcome,
};
use crate::grammar::{parsed, simple, Cursor, Source};
use crate::laws::law_words_join;
use crate::lexer::{lex_cmd_buf, lexed, strs_view, LexerState};
use crate::parser::{Parser, SyntaxErr};
use crate::spawn::{
    check_infiles, feed_of, feeds_of, feeds_view, infile_error, outs_view, redirect_feeds,
    redirect_outs, spawn_pipeline, stages_view, texts_view, BuiltinRun, Destination, Feed, OutFile,
    Spawn, Stage, Stream, SubshSpawn, Work,
};
use crate::spelling::law_quoted_parts_join;
use crate::text::{name_continue, name_start, str_eq, text_of};
use crate::token::{
    clone_spans, get_token_at, lemma_parts_view, same_spans, same_tkn, spans_view, Tkn, TknSpan,
};
use crate::validate::{all_fit, check_tree, check_trees, fits, law_parsed_trees_fit};
use crate::vars::{ShellVars, VarMap};
use crate::word::{
    clean_args, cows_view, dquote_value, escape, eval_dquote, eval_envvar, eval_word, inner_value,
    part_value, word_value, words_view, Word,
};
use std::borrow::Cow;
use std::collections::VecDeque;
use vstd::prelude::*;
use vstd::string::*;
use vstd::utf8::*;

verus! {

broadcast use {vstd::string::group_string_axioms, vstd::seq::group_seq_axioms};

/// A variable that is set reads as its value, and every other one as before; in a new session
/// all read as the empty text.
pub proof fn law_variables_are_set_and_read(
    vars: &mut ShellVars,
    key: String,
    val: String,
    name: &str,
    before: String,
    after: String,
    fresh: ShellVars,
    unset: String,
)
    requires
        call_ensures(ShellVars::get_env_var, (&*vars, name), before),
        call_ensures(ShellVars::put_env_var, (vars, key, val), ()),
        call_ensures(ShellVars::get_env_var, (&*final(vars), name), after),
        call_ensures(ShellVars::new, (), fresh),
        call_ensures(ShellVars::get_env_var, (&fresh, name), unset),
    ensures
        name@ == key@ ==> after@ == val@,
        name@ != key@ ==> after@ == before@,
        unset@ == Seq::<char>::empty(),
{
}

/// The exit code that an outcome has: 0 for a builtin command, that of the process for a program
/// or a subshell, that of the last process for a pipeline, 1 where a process has none, and none
/// for what could not be carried out.
pub proof fn law_outcomes_answer_their_codes(o: Outcome, r: Option<i32>)
    requires
        call_ensures(Outcome::code, (&o,), r),
    ensures
        match o {
            Outcome::Builtin => r == Some(0i32),
            Outcome::Exited(Some(c)) => r == Some(c),
            Outcome::Exited(None) => r == Some(1i32),
            Outcome::Pipeline(ends) => if ends@.len() == 0 {
                r == Some(0i32)
            } else {
                match ends@[ends@.len() - 1] {
                    ChildEnd::Exited(Some(c)) => r == Some(c),
                    ChildEnd::Exited(None) | ChildEnd::Lost => r == Some(1i32),
                }
            },
            Outcome::Failed => r is None,
        },
{
}

/// A run takes note of the exit code of the command that it asked for and goes on; where the
/// command could not be carried out, nothing is left to do.
pub proof fn law_reports_are_taken_note_of<'a>(
    run: &mut Execution<'a>,
    o: Outcome,
    code: Option<i32>,
    r: bool,
)
    requires
        call_ensures(Outcome::code, (&o,), code),
        call_ensures(Execution::report, (run, &o), r),
    ensures
        r <==> code is Some,
        code matches Some(c) ==> final(run).res == c && final(run)@.stack == old(run)@.stack,
        code is None ==> final(run).stack@.len() == 0 && final(run).res == old(run).res,
{
    if code is None {
        assert(final(run)@.stack.len() == final(run).stack@.len());
    }
}

/// A run asks for the command that is next and leaves the others for later; where nothing is left
/// it is done, with the exit code of the last command. Neither changes a variable.
pub proof fn law_runs_ask_for_what_is_next<'a>(
    run: &mut Execution<'a>,
    vars: &mut ShellVars,
    r: Action<'a>,
)
    requires
        call_ensures(Execution::next, (run, vars), r),
    ensures
        old(run).stack@.len() == 0 ==> r@ == ActionView::Done(old(run).res) && final(vars)@ == old(
            vars,
        )@,
        old(run).stack@.len() > 0 ==> (old(run).stack@.last() matches Frame::Node(n) ==> is_command(
            n@,
        ) ==> {
            &&& r@ == ActionView::Run(n@)
            &&& final(run)@.stack == old(run)@.stack.drop_last()
            &&& final(run).res == old(run).res
            &&& final(vars)@ == old(vars)@
        }),
{
    if old(run).stack@.len() > 0 {
        assert(old(run)@.stack.last() == old(run).stack@.last()@);
    }
}

/// A command buffer is refused exactly if its tokens are, for the same reason; else its trees are
/// run, from the first one on.
pub proof fn law_buffers_run_as_they_are_parsed<'a, 'v>(
    cmd_buf: &'a str,
    tkns: &'a [TknSpan],
    heredocs: VecDeque<&'a str>,
    vars: &'v ShellVars,
    parser: &mut Parser<'a, 'v>,
    trees: Result<Vec<Box<AstNode<'a>>>, SyntaxErr>,
    r: Result<Execution<'a>, SyntaxErr>,
)
    requires
        call_ensures(Parser::new, (tkns, heredocs, cmd_buf, vars), *parser),
        call_ensures(Parser::parse, (parser,), trees),
        call_ensures(execute_cmd_buf, (cmd_buf, tkns, heredocs, vars), r),
    ensures
        match trees {
            Ok(ns) => {
                &&& r matches Ok(run)
                &&& run.res == 0
                &&& run.stack@.len() == ns@.len()
                &&& forall|i: int|
                    0 <= i < ns@.len() ==> #[trigger] run@.stack[ns@.len() - 1 - i] == (
                    Frame::Node(ns@[i]))@
            },
            Err(e) => r matches Err(f) && f@ == e@,
        },
{
    if let Ok(ns) = trees {
        if let Ok(run) = r {
            assert(run@ == started(nodes_view(ns@)));
            assert(run@.stack.len() == run.stack@.len());
            assert forall|i: int| 0 <= i < ns@.len() implies #[trigger] run@.stack[ns@.len() - 1
                - i] == (Frame::Node(ns@[i]))@ by {
                assert(nodes_view(ns@)[i] == ns@[i]@);
            }
        }
    }
}

/// A new lexer has found nothing and wants nothing. One wants more exactly if something is open
/// or its command ends with something that wants more after it.
pub proof fn law_lexers_want_more<'a>(
    cmd_buf: &'a str,
    fresh: LexerState<'a>,
    lexer: LexerState<'a>,
    r: bool,
)
    requires
        call_ensures(LexerState::new, (cmd_buf,), fresh),
        call_ensures(LexerState::wants_more, (&lexer,), r),
    ensures
        fresh.cmd_buf == cmd_buf,
        fresh.delimiters@.len() == 0 && fresh.heredocs@.len() == 0,
        fresh.syntax_err is None && fresh.expected_closer is None,
        fresh.continuation_for is None,
        r <==> lexer.expected_closer is Some || lexer.continuation_for is Some,
{
    assert(fresh@.delimiters.len() == fresh.delimiters@.len());
    assert(fresh@.heredocs.len() == fresh.heredocs@.len());
}

/// `history` alone shows the history; `clear`, in any case, clears it; another parameter is
/// refused by its name.
pub proof fn law_history_is_asked_for(args: Vec<String>, r: Result<HistoryRequest, String>)
    requires
        call_ensures(get_history, (&args,), r),
    ensures
        args@.len() <= 1 ==> r == Ok::<HistoryRequest, String>(HistoryRequest::Show),
        args@.len() > 1 && lower_case(args@[1]@) == "clear"@ ==> r == Ok::<HistoryRequest, String>(
            HistoryRequest::Clear,
        ),
        args@.len() > 1 && lower_case(args@[1]@) != "clear"@ ==> (r matches Err(e) && e@
            == "unrecognized history parameter "@ + args@[1]@),
{
}

/// Clearing the history is answered by whether that has been done.
pub proof fn law_clearing_is_answered(cleared: bool, r: Result<String, String>)
    requires
        call_ensures(history_cleared, (cleared,), r),
    ensures
        cleared ==> (r matches Ok(t) && t@ == "command history cleared"@),
        !cleared ==> (r matches Err(t) && t@ == "Failed to clear history"@),
{
}

/// No entries are shown as nothing and one entry as itself. One more entry, up to fifteen, is a
/// line more at the end; of more than fifteen entries only the last fifteen are shown.
pub proof fn law_history_is_shown(
    some: Vec<String>,
    more: Vec<String>,
    shown: String,
    then: String,
)
    requires
        call_ensures(show_history, (&some,), shown),
        call_ensures(show_history, (&more,), then),
    ensures
        some@.len() == 0 ==> shown@ == Seq::<char>::empty(),
        some@.len() == 1 ==> shown@ == some@[0]@,
        0 < some@.len() < 15 && more@.len() == some@.len() + 1 && (forall|i: int|
            0 <= i < some@.len() ==> (#[trigger] more@[i])@ == some@[i]@) ==> then@ == shown@
            + seq!['\n'] + more@[some@.len() as int]@,
        some@.len() == 15 && more@.len() > 15 && (forall|i: int|
            0 <= i < 15 ==> (#[trigger] some@[i])@ == more@[more@.len() - 15 + i]@) ==> then@
            == shown@,
{
    let es = texts_view(some@);
    let fs = texts_view(more@);
    law_history_shows_fifteen_lines(es, Seq::empty());
    law_history_shows_fifteen_lines(fs, Seq::empty());
    assert(es.len() == some@.len() && fs.len() == more@.len());
    if some@.len() == 0 {
        assert(es =~= Seq::empty());
    }
    if some@.len() == 1 {
        assert(es[0] == some@[0]@);
    }
    if 0 < some@.len() < 15 && more@.len() == some@.len() + 1 && (forall|i: int|
        0 <= i < some@.len() ==> (#[trigger] more@[i])@ == some@[i]@) {
        let last = seq![more@[some@.len() as int]@];
        assert(fs =~= es + last);
        law_history_shows_fifteen_lines(es, last);
        law_history_shows_fifteen_lines(last, Seq::empty());
    }
    if some@.len() == 15 && more@.len() > 15 && (forall|i: int|
        0 <= i < 15 ==> (#[trigger] some@[i])@ == more@[more@.len() - 15 + i]@) {
        let before = fs.take(fs.len() - 15);
        assert(fs =~= before + es);
        law_history_shows_fifteen_lines(before, es);
    }
}

/// `cd` alone and `cd ~` change to the home directory, what stands after `~/` is taken below it,
/// and every other path is changed to as it stands. A second argument is refused by its name.
pub proof fn law_cd_is_asked_for(args: Vec<String>, r: Result<CdTarget, String>)
    requires
        call_ensures(set_cwd, (&args,), r),
    ensures
        args@.len() == 1 ==> r == Ok::<CdTarget, String>(CdTarget::Home),
        args@.len() == 2 ==> {
            let p = args@[1]@;
            let q = p.skip(2);
            &&& p == seq!['~'] ==> r == Ok::<CdTarget, String>(CdTarget::Home)
            &&& p == seq!['~', '/'] ==> r == Ok::<CdTarget, String>(CdTarget::Home)
            &&& p.len() == 0 || p[0] != '~' ==> (r matches Ok(CdTarget::Path(t)) && t@ == p)
            &&& p.len() > 1 && p[0] == '~' && p[1] != '/' ==> (r matches Ok(CdTarget::Path(t)) && t@
                == p)
            &&& p.len() > 2 && p[0] == '~' && p[1] == '/' && q[0] != '/' && q[0] != '.' ==> (
            r matches Ok(CdTarget::UnderHome(t)) && t@ == q)
        },
        args@.len() > 2 ==> (r matches Err(e) && e@ == "ERR cd: too many arguments for cd; "@
            + args@[2]@ + " is invalid"@),
{
    let ts = texts_view(args@);
    assert(ts.len() == args@.len());
    if args@.len() == 2 {
        let p = args@[1]@;
        let q = p.skip(2);
        assert(ts =~= seq![ts[0], p]);
        law_cd_expands_the_tilde(ts[0], q);
        if p.len() > 2 && p[0] == '~' && p[1] == '/' {
            assert(p =~= seq!['~', '/'] + q);
        }
    }
    if args@.len() == 1 {
        assert(ts =~= seq![ts[0]]);
        law_cd_expands_the_tilde(ts[0], ts[0]);
    }
}

/// A variable is read by what stands after its dollar sign, or between its backticks. A dollar
/// sign alone stands for itself.
pub proof fn law_expansions_read_variables(
    expr: &str,
    name: &str,
    vars: &ShellVars,
    r: String,
    value: String,
)
    requires
        call_ensures(eval_envvar, (expr, vars), r),
        call_ensures(ShellVars::get_env_var, (vars, name), value),
    ensures
        name@.len() > 0 && expr@ == seq!['$'] + name@ ==> r@ == value@,
        expr@ == seq!['`'] + name@ + seq!['`'] ==> r@ == value@,
        expr@ == seq!['$'] ==> r@ == seq!['$'],
{
    reveal_strlit("$");
    if expr@ == seq!['$'] + name@ {
        assert(expr@.skip(1) =~= name@);
    }
    if expr@ == seq!['`'] + name@ + seq!['`'] {
        assert(expr@.subrange(1, expr@.len() - 1) =~= name@);
    }
    if expr@ == seq!['$'] {
        assert("$"@ =~= seq!['$']);
    }
}

/// Inside double quotes the value of a variable stands as it is, whatever it holds, and escapes
/// are replaced in the text around it alone.
pub proof fn law_quotes_take_values_as_they_are(
    parts: &[TknSpan],
    cmd_buf: &str,
    vars: &ShellVars,
    text: &str,
    value: String,
    plain: Cow<'_, str>,
    r: Cow<'_, str>,
)
    requires
        parts@.len() == 1,
        call_ensures(get_token_at, (&parts@[0], cmd_buf), text),
        call_ensures(eval_envvar, (text, vars), value),
        call_ensures(escape, (text,), plain),
        call_ensures(eval_dquote, (parts, cmd_buf, vars), r),
    ensures
        parts@[0].kind is Expansion ==> r@ == value@,
        parts@[0].kind is Literal ==> r@ == plain@,
{
    let ps = spans_view(parts@);
    assert(ps[0] == parts@[0]@);
    assert(ps.drop_last() =~= Seq::empty());
    reveal_with_fuel(dquote_value, 2);
    assert(r@ =~= inner_value(ps[0], cmd_buf.spec_bytes(), vars@));
}

/// What stands in double quotes is read part by part.
pub proof fn law_quotes_read_part_by_part(
    all: &[TknSpan],
    some: &[TknSpan],
    more: &[TknSpan],
    cmd_buf: &str,
    vars: &ShellVars,
    r: Cow<'_, str>,
    first: Cow<'_, str>,
    second: Cow<'_, str>,
)
    requires
        spans_view(all@) == spans_view(some@) + spans_view(more@),
        call_ensures(eval_dquote, (all, cmd_buf, vars), r),
        call_ensures(eval_dquote, (some, cmd_buf, vars), first),
        call_ensures(eval_dquote, (more, cmd_buf, vars), second),
    ensures
        r@ == first@ + second@,
{
    law_quoted_parts_join(spans_view(some@), spans_view(more@), cmd_buf.spec_bytes(), vars@);
}

/// A word of one part reads as that part: bare text as it stands, text in single quotes without
/// them, text in double quotes and variables as they are read for themselves.
pub proof fn law_parts_of_words(
    w: Word,
    inner: Vec<TknSpan>,
    slice: &[TknSpan],
    cmd_buf: &str,
    vars: &ShellVars,
    text: &str,
    value: String,
    quoted: Cow<'_, str>,
    r: String,
)
    requires
        w@.len() == 1,
        slice@ == inner@,
        call_ensures(get_token_at, (&w@[0], cmd_buf), text),
        call_ensures(eval_envvar, (text, vars), value),
        call_ensures(eval_dquote, (slice, cmd_buf, vars), quoted),
        call_ensures(eval_word, (&w, cmd_buf, vars), r),
    ensures
        w@[0].kind is Literal ==> r@ == text@,
        w@[0].kind is Expansion ==> r@ == value@,
        w@[0].kind == Tkn::DoubleQuote(inner) ==> r@ == quoted@,
        w@[0].kind is SingleQuote ==> r@ == text_of(
            cmd_buf.spec_bytes(),
            w@[0].span.start + 1,
            w@[0].span.end - 1,
        ),
{
    let ps = spans_view(w@);
    assert(ps[0] == w@[0]@);
    assert(ps.drop_last() =~= Seq::empty());
    reveal_with_fuel(word_value, 2);
    assert(r@ =~= part_value(ps[0], cmd_buf.spec_bytes(), vars@));
    lemma_parts_view(inner);
}

/// A word is read part by part.
pub proof fn law_words_read_part_by_part(
    all: Word,
    some: Word,
    more: Word,
    cmd_buf: &str,
    vars: &ShellVars,
    r: String,
    first: String,
    second: String,
)
    requires
        spans_view(all@) == spans_view(some@) + spans_view(more@),
        call_ensures(eval_word, (&all, cmd_buf, vars), r),
        call_ensures(eval_word, (&some, cmd_buf, vars), first),
        call_ensures(eval_word, (&more, cmd_buf, vars), second),
    ensures
        r@ == first@ + second@,
{
    law_words_join(spans_view(some@), spans_view(more@), cmd_buf.spec_bytes(), vars@);
}

/// The arguments of a command are its words, each read for itself, in their order.
pub proof fn law_arguments_are_read_one_by_one<'a>(
    args: Vec<Word>,
    cmd_buf: &'a str,
    vars: &ShellVars,
    r: Vec<Cow<'a, str>>,
    i: int,
    word: String,
)
    requires
        call_ensures(clean_args, (&args, cmd_buf, vars), r),
        0 <= i < args@.len(),
        call_ensures(eval_word, (&args@[i], cmd_buf, vars), word),
    ensures
        r@.len() == args@.len(),
        r@[i]@ == word@,
{
    assert(cows_view(r@).len() == r@.len());
    assert(words_view(args@)[i] == spans_view(args@[i]@));
    assert(cows_view(r@)[i] == r@[i]@);
}

/// Each redirection of the output leads to the file that its word reads as: `>` replaces what the
/// file holds, and `>>` adds to it.
pub proof fn law_outputs_are_named_by_their_words(
    redirects: Vec<Redirect>,
    cmd_buf: &str,
    vars: &ShellVars,
    r: Vec<OutFile>,
    i: int,
    file: String,
)
    requires
        call_ensures(redirect_outs, (&redirects, cmd_buf, vars), r),
        0 <= i < redirects@.len(),
        call_ensures(eval_word, (&redirects@[i].file, cmd_buf, vars), file),
    ensures
        r@.len() == redirects@.len(),
        redirects@[i].dir == Redir::Out ==> (r@[i] matches OutFile::Truncate(f) && f@ == file@),
        redirects@[i].dir == Redir::Append ==> (r@[i] matches OutFile::Append(f) && f@ == file@),
{
    assert(outs_view(r@).len() == r@.len());
    assert(redirects_view(redirects@)[i] == redirects@[i]@);
    assert(outs_view(r@)[i] == r@[i]@);
}

/// Whether redirections are of the input, and those from here-documents have their text.
pub open spec fn all_inputs(rs: Seq<RedirectView>) -> bool {
    forall|i: int|
        0 <= i < rs.len() ==> (#[trigger] rs[i]).dir == Redir::In || (rs[i].dir == Redir::Heredoc
            && rs[i].heredoc is Some)
}

/// Each redirection of the input gives one thing to read, in its place.
proof fn lemma_one_feed_each(rs: Seq<RedirectView>, b: Seq<u8>, vars: VarMap, i: int)
    requires
        all_inputs(rs),
        0 <= i < rs.len(),
    ensures
        feeds_of(rs, b, vars).len() == rs.len(),
        feed_of(rs[i], b, vars) == seq![feeds_of(rs, b, vars)[i]],
    decreases rs.len(),
{
    let init = rs.drop_last();
    assert(rs[rs.len() - 1] == rs.last());
    assert(feed_of(rs.last(), b, vars).len() == 1);
    assert(all_inputs(init)) by {
        assert forall|k: int| 0 <= k < init.len() implies (#[trigger] init[k]).dir == Redir::In || (
        init[k].dir == Redir::Heredoc && init[k].heredoc is Some) by {
            assert(init[k] == rs[k]);
        }
    }
    if init.len() > 0 {
        lemma_one_feed_each(init, b, vars, if i < init.len() { i } else { 0 });
    }
    assert(feeds_of(init, b, vars).len() == init.len());
    assert(feed_of(rs[i], b, vars) =~= seq![feeds_of(rs, b, vars)[i]]);
}

/// Each redirection of the input gives the file that its word reads as, or its here-document, in
/// its place. Messages call the file by the first part of its word.
pub proof fn law_inputs_are_named_by_their_words(
    redirects: Vec<Redirect>,
    cmd_buf: &str,
    vars: &ShellVars,
    r: Vec<Feed>,
    i: int,
    file: String,
    part: &str,
)
    requires
        call_ensures(redirect_feeds, (&redirects, cmd_buf, vars), r),
        all_inputs(redirects_view(redirects@)),
        0 <= i < redirects@.len(),
        redirects@[i].dir == Redir::In ==> redirects@[i].file@.len() > 0 && call_ensures(
            eval_word,
            (&redirects@[i].file, cmd_buf, vars),
            file,
        ) && call_ensures(get_token_at, (&redirects@[i].file@[0], cmd_buf), part),
    ensures
        r@.len() == redirects@.len(),
        redirects@[i].dir == Redir::In ==> (r@[i] matches Feed::File { path, shown } && path@
            == file@ && shown@ == part@),
        redirects@[i].dir == Redir::Heredoc ==> (redirects@[i].heredoc_file matches Some(t) && (
        r@[i] matches Feed::Text(u) && u@ == t@)),
{
    let rs = redirects_view(redirects@);
    let b = cmd_buf.spec_bytes();
    assert(rs.len() == redirects@.len());
    lemma_one_feed_each(rs, b, vars@, i);
    assert(feeds_view(r@).len() == r@.len());
    assert(feeds_view(r@)[i] == r@[i]@);
    assert(rs[i] == redirects@[i]@);
    assert(feed_of(rs[i], b, vars@)[0] == r@[i]@);
    if redirects@[i].dir == Redir::In {
        assert(rs[i].file[0] == redirects@[i].file@[0]@);
    }
}

/// A file that cannot be read from.
pub open spec fn is_missing(feeds: Seq<Feed>, readable: Seq<bool>, i: int) -> bool {
    feeds[i] is File && !readable[i]
}

/// The first file that cannot be read from is the one that the user is told of.
proof fn lemma_first_missing(feeds: Seq<Feed>, readable: Seq<bool>, n: int)
    requires
        feeds.len() == readable.len(),
        0 <= n <= feeds.len(),
    ensures
        ({
            let told = infile_error(feeds_view(feeds).take(n), readable);
            &&& told is None <==> forall|i: int| 0 <= i < n ==> !#[trigger] is_missing(
                feeds,
                readable,
                i,
            )
            &&& forall|i: int|
                0 <= i < n && #[trigger] is_missing(feeds, readable, i) && (forall|k: int|
                    0 <= k < i ==> !#[trigger] is_missing(feeds, readable, k)) ==> told == Some(
                    "ERR: "@ + feeds[i]->shown@ + "... is not a valid file"@,
                )
        }),
    decreases n,
{
    let fs = feeds_view(feeds);
    if n > 0 {
        lemma_first_missing(feeds, readable, n - 1);
        assert(fs.take(n).drop_last() =~= fs.take(n - 1));
        assert(fs.take(n).last() == feeds[n - 1]@);
        assert(is_missing(feeds, readable, n - 1) <==> feeds[n - 1] is File && !readable[n - 1]);
    }
}

/// The user is told of the first file that cannot be read from, by the name that messages call it
/// by, and of nothing exactly if there is none.
pub proof fn law_missing_files_are_told_of(
    feeds: Vec<Feed>,
    readable: Vec<bool>,
    r: Option<String>,
    i: int,
)
    requires
        feeds@.len() == readable@.len(),
        call_ensures(check_infiles, (&feeds, &readable), r),
    ensures
        r is None <==> forall|k: int|
            0 <= k < feeds@.len() ==> !#[trigger] is_missing(feeds@, readable@, k),
        0 <= i < feeds@.len() && is_missing(feeds@, readable@, i) && (forall|k: int|
            0 <= k < i ==> !#[trigger] is_missing(feeds@, readable@, k)) ==> (r matches Some(e)
            && e@ == "ERR: "@ + feeds@[i]->shown@ + "... is not a valid file"@),
{
    let fs = feeds_view(feeds@);
    lemma_first_missing(feeds@, readable@, feeds@.len() as int);
    assert(fs.take(fs.len() as int) =~= fs);
}

/// A command asks for the program that its first word reads as, with its other words as the
/// arguments.
pub proof fn law_programs_are_named_by_their_words<'a>(
    p: ChildPr<'a>,
    cmd_buf: &str,
    stdin: Stream,
    stdout: Stream,
    vars: &ShellVars,
    r: Spawn,
    name: String,
    i: int,
    arg: String,
)
    requires
        cmd_buf@ == p.cmd_buf@,
        0 < i < p.args@.len(),
        call_ensures(ChildPr::spawn, (&p, stdin, stdout, vars), r),
        call_ensures(eval_word, (&p.args@[0], cmd_buf, vars), name),
        call_ensures(eval_word, (&p.args@[i], cmd_buf, vars), arg),
    ensures
        r.program@ == name@,
        r.args@.len() == p.args@.len() - 1,
        r.args@[i - 1]@ == arg@,
{
    law_words_name_the_program(p@, Seq::empty(), stdin, stdout, vars@);
    assert(p@.args[0] == spans_view(p.args@[0]@));
    assert(p@.args[i] == spans_view(p.args@[i]@));
    assert(r@.args.len() == r.args@.len());
    assert(r@.args[i - 1] == r.args@[i - 1]@);
}

/// A command sets, for its process alone, each variable that an assignment of its own names, to
/// the value that this assignment gives.
pub proof fn law_assignments_are_handed_on_one_by_one<'a>(
    p: ChildPr<'a>,
    cmd_buf: &str,
    stdin: Stream,
    stdout: Stream,
    vars: &ShellVars,
    r: Spawn,
    i: int,
    name: String,
    value: String,
)
    requires
        cmd_buf@ == p.cmd_buf@,
        0 <= i < p.env_vars@.len(),
        call_ensures(ChildPr::spawn, (&p, stdin, stdout, vars), r),
        call_ensures(eval_word, (&p.env_vars@[i].lhs, cmd_buf, vars), name),
        call_ensures(eval_word, (&p.env_vars@[i].rhs, cmd_buf, vars), value),
    ensures
        r.env@.len() == p.env_vars@.len(),
        r.env@[i].0@ == name@,
        r.env@[i].1@ == value@,
{
    law_each_assignment_makes_its_pair(p@.env, encode_utf8(p@.text), vars@, i);
    assert(p@.env[i] == p.env_vars@[i]@);
    assert(r@.env.len() == r.env@.len());
    assert(r@.env[i] == (r.env@[i].0@, r.env@[i].1@));
}

/// A command reads from its files and writes to them, as its redirections say; the shell passes
/// on what those ask for. Without them it has the streams that it is given, and on its own those
/// of the shell.
pub proof fn law_commands_have_their_streams<'a>(
    p: ChildPr<'a>,
    cmd_buf: &str,
    stdin: Stream,
    stdout: Stream,
    vars: &ShellVars,
    r: Spawn,
    alone: Spawn,
    inherited: Spawn,
    feeds: Vec<Feed>,
    outs: Vec<OutFile>,
)
    requires
        cmd_buf@ == p.cmd_buf@,
        call_ensures(ChildPr::spawn, (&p, stdin, stdout, vars), r),
        call_ensures(ChildPr::status, (&p, vars), alone),
        call_ensures(ChildPr::spawn, (&p, Stream::Inherit, Stream::Inherit, vars), inherited),
        call_ensures(redirect_feeds, (&p.redirect_ins, cmd_buf, vars), feeds),
        call_ensures(redirect_outs, (&p.redirect_outs, cmd_buf, vars), outs),
    ensures
        r.stdin == if p.redirect_ins@.len() > 0 {
            Stream::Shell
        } else {
            stdin
        },
        r.stdout == if p.redirect_outs@.len() > 0 {
            Stream::Shell
        } else {
            stdout
        },
        feeds_view(r.feeds@) == feeds_view(feeds@),
        outs_view(r.outs@) == outs_view(outs@),
        alone@ == inherited@,
{
    assert(p@.ins.len() == p.redirect_ins@.len());
    assert(p@.outs.len() == p.redirect_outs@.len());
    law_files_take_the_place_of_streams(p@, arbitrary(), stdin, stdout, vars@);
}

/// A subshell runs its commands as they are, in their order, but for the first one, which reads
/// what the subshell's input is redirected from. It has its own files for its output, and streams
/// as a command has them.
pub proof fn law_subshells_ask_for_their_commands<'a>(
    s: Subsh<'a>,
    cmd_buf: &str,
    stdin: Stream,
    stdout: Stream,
    vars: &ShellVars,
    r: SubshSpawn<'a>,
    alone: SubshSpawn<'a>,
    inherited: SubshSpawn<'a>,
    outs: Vec<OutFile>,
    i: int,
)
    requires
        cmd_buf@ == s.cmd_buf@,
        0 <= i < s.inner_ast@.len(),
        call_ensures(Subsh::spawn, (s, stdin, stdout, vars), r),
        call_ensures(Subsh::status, (s, vars), alone),
        call_ensures(Subsh::spawn, (s, Stream::Inherit, Stream::Inherit, vars), inherited),
        call_ensures(redirect_outs, (&s.redirect_outs, cmd_buf, vars), outs),
    ensures
        r.inner_ast@.len() == s.inner_ast@.len(),
        i > 0 || s.redirect_ins@.len() == 0 ==> r.inner_ast@[i]@ == s.inner_ast@[i]@,
        s.inner_ast@[0]@ matches AstView::Prog(p) ==> r.inner_ast@[0]@ == AstView::Prog(
            CommandView { ins: p.ins + redirects_view(s.redirect_ins@), ..p },
        ),
        outs_view(r.outs@) == outs_view(outs@),
        r.stdin == if s.redirect_ins@.len() > 0 {
            Stream::Shell
        } else {
            stdin
        },
        r.stdout == if s.redirect_outs@.len() > 0 {
            Stream::Shell
        } else {
            stdout
        },
        alone@ == inherited@,
{
    assert(s@.inner.len() == s.inner_ast@.len());
    assert(s@.ins.len() == s.redirect_ins@.len() && s@.outs.len() == s.redirect_outs@.len());
    law_subshells_hand_on_their_commands(s@, stdin, stdout, vars@, i);
    law_feeding_reaches_one_command(s@.inner[0], s@.ins, Seq::empty());
    law_files_take_the_place_of_streams(arbitrary(), s@, stdin, stdout, vars@);
    assert(r@.inner.len() == r.inner_ast@.len());
    assert(r@.inner[i] == r.inner_ast@[i]@ && r@.inner[0] == r.inner_ast@[0]@);
    assert(s@.inner[i] == s.inner_ast@[i]@ && s@.inner[0] == s.inner_ast@[0]@);
}

/// Every stage of a pipeline runs its own command, in its place: it reads from a pipe unless it
/// is the first, and writes to one unless it is the last. An assignment runs nothing.
pub proof fn law_pipelines_ask_for_their_stages<'a>(
    progs: Vec<Box<AstNode<'a>>>,
    r: Vec<Stage<'a>>,
    i: int,
)
    requires
        call_ensures(spawn_pipeline, (progs,), r),
        0 <= i < progs@.len(),
    ensures
        r@.len() == progs@.len(),
        match *progs@[i] {
            AstNode::Prog(p) => r@[i].work matches Work::Prog(q) && q@ == p@,
            AstNode::Builtin(p) => r@[i].work matches Work::Builtin(q) && q@ == p@,
            AstNode::Subshell(s) => r@[i].work matches Work::Subshell(t) && t@ == s@,
            AstNode::Assignments { .. } => r@[i].work is Nothing,
            AstNode::Logical { .. } | AstNode::Pipeline(_) => r@[i].work is Invalid,
        },
        r@[i].stdin == if i > 0 {
            Stream::Pipe
        } else {
            Stream::Inherit
        },
        r@[i].stdout == if i + 1 < progs@.len() {
            Stream::Pipe
        } else {
            Stream::Inherit
        },
{
    let ps = nodes_view(progs@);
    law_stages_run_their_commands(ps, i);
    assert(stages_view(r@).len() == r@.len());
    assert(stages_view(r@)[i] == r@[i]@);
    assert(ps[i] == progs@[i]@);
    if let AstNode::Subshell(s) = *progs@[i] {
        lemma_inner_view(s);
    }
}

/// A builtin command is known by what its first word reads as: `pwd`, `cd`, `history` or `exit`.
pub proof fn law_builtins_answer_to_their_names<'a>(
    p: Builtin<'a>,
    cmd_buf: &str,
    vars: &ShellVars,
    name: String,
    r: Option<BuiltinCmd>,
)
    requires
        cmd_buf@ == p.cmd_buf@,
        p.args@.len() > 0,
        call_ensures(eval_word, (&p.args@[0], cmd_buf, vars), name),
        call_ensures(Builtin::command, (&p, vars), r),
    ensures
        name@ == "pwd"@ ==> r == Some(BuiltinCmd::Pwd),
        name@ == "cd"@ ==> r == Some(BuiltinCmd::Cd),
        name@ == "history"@ ==> r == Some(BuiltinCmd::History),
        name@ == "exit"@ ==> r == Some(BuiltinCmd::Exit),
        r is Some ==> name@ == "pwd"@ || name@ == "cd"@ || name@ == "history"@ || name@ == "exit"@,
{
    law_builtin_names(name@);
    assert(p@.args[0] == spans_view(p.args@[0]@));
}

/// A builtin command runs under its name, with all its words, its own name first. What it shows
/// goes to its files where it has some, else into the pipe that it stands before, else to where
/// the shell writes.
pub proof fn law_builtins_run_with_their_words<'a>(
    p: Builtin<'a>,
    cmd_buf: &str,
    piped: bool,
    vars: &ShellVars,
    cmd: Option<BuiltinCmd>,
    outs: Vec<OutFile>,
    i: int,
    word: String,
    r: BuiltinRun,
)
    requires
        cmd_buf@ == p.cmd_buf@,
        0 <= i < p.args@.len(),
        call_ensures(eval_word, (&p.args@[i], cmd_buf, vars), word),
        call_ensures(redirect_outs, (&p.redirect_outs, cmd_buf, vars), outs),
        call_ensures(Builtin::command, (&p, vars), cmd),
        call_ensures(Builtin::exec_builtin, (&p, piped, vars), r),
    ensures
        cmd matches Some(c) ==> r.cmd == c,
        r.args@.len() == p.args@.len(),
        r.args@[i]@ == word@,
        if p.redirect_outs@.len() > 0 {
            r.dest matches Destination::Files(fs) && outs_view(fs@) == outs_view(outs@)
        } else if piped {
            r.dest is Pipe
        } else {
            r.dest is Stdout
        },
{
    law_builtins_write_to_their_files(p@, piped, vars@);
    assert(p@.outs.len() == p.redirect_outs@.len());
    assert(p@.args[i] == spans_view(p.args@[i]@));
    assert(texts_view(r.args@).len() == r.args@.len());
    assert(texts_view(r.args@)[i] == r.args@[i]@);
}

/// A command buffer is split into the tokens and here-documents that it is made of, in their
/// order, and not at all where it is not complete; the lexer is left knowing why.
pub proof fn law_buffers_are_split_as_they_are_made<'a>(
    lexer: &mut LexerState<'a>,
    cmd_buf: &'a str,
    r: Option<(Vec<TknSpan>, VecDeque<&'a str>)>,
)
    requires
        call_ensures(lex_cmd_buf, (lexer, cmd_buf), r),
    ensures
        ({
            let (after, made) = lexed(cmd_buf.spec_bytes(), old(lexer)@);
            &&& final(lexer)@ == after
            &&& r is Some <==> made is Some
            &&& r matches Some((tkns, docs)) ==> (made matches Some((ts, ds)) && {
                &&& tkns@.len() == ts.len() && docs@.len() == ds.len()
                &&& forall|i: int| 0 <= i < ts.len() ==> (#[trigger] tkns@[i])@ == ts[i]
                &&& forall|i: int| 0 <= i < ds.len() ==> (#[trigger] docs@[i])@ == ds[i]
            })
        }),
{
    if let Some((tkns, docs)) = r {
        assert(spans_view(tkns@).len() == tkns@.len());
        assert(strs_view(docs@).len() == docs@.len());
        assert forall|i: int| 0 <= i < tkns@.len() implies (#[trigger] tkns@[i])@ == spans_view(
            tkns@,
        )[i] by {}
        assert forall|i: int| 0 <= i < docs@.len() implies (#[trigger] docs@[i])@ == strs_view(
            docs@,
        )[i] by {}
    }
}

/// Tokens are read from the first one on, with the command buffer, the here-documents and the
/// variables that the parser was given, as the trees that the grammar makes of them.
pub proof fn law_tokens_are_parsed_as_the_grammar_says<'a, 'v>(
    tkns: &'a [TknSpan],
    heredocs: VecDeque<&'a str>,
    cmd_buf: &'a str,
    vars: &'v ShellVars,
    parser: &mut Parser<'a, 'v>,
    r: Result<Vec<Box<AstNode<'a>>>, SyntaxErr>,
)
    requires
        call_ensures(Parser::new, (tkns, heredocs, cmd_buf, vars), *parser),
        call_ensures(Parser::parse, (parser,), r),
    ensures
        ({
            let c = Source { ts: spans_view(tkns@), text: cmd_buf@, vars: vars@ };
            let s = Cursor { pos: 0, cur: None, docs: strs_view(heredocs@) };
            match parsed(c, s).1 {
                Ok(ns) => r matches Ok(nodes) && nodes@.len() == ns.len() && forall|i: int|
                    0 <= i < ns.len() ==> (#[trigger] nodes@[i])@ == ns[i],
                Err(e) => r matches Err(f) && f@ == e,
            }
        }),
{
    if let Ok(nodes) = r {
        assert(nodes_view(nodes@).len() == nodes@.len());
        assert forall|i: int| 0 <= i < nodes@.len() implies (#[trigger] nodes@[i])@ == nodes_view(
            nodes@,
        )[i] by {}
    }
}

/// One simple command is read as the grammar says, from where the parser stands.
pub proof fn law_expressions_are_parsed_as_the_grammar_says<'a, 'v>(
    parser: &mut Parser<'a, 'v>,
    r: Result<Box<AstNode<'a>>, SyntaxErr>,
)
    requires
        call_ensures(Parser::expr, (parser,), r),
    ensures
        final(parser)@ == simple(old(parser).source(), old(parser)@).0,
        match simple(old(parser).source(), old(parser)@).1 {
            Ok(n) => r matches Ok(node) && node@ == n,
            Err(e) => r matches Err(f) && f@ == e,
        },
{
}

/// A tree is let through exactly if it speaks of the text and can be carried out, and trees
/// exactly if each of them is.
pub proof fn law_trees_are_checked<'a>(
    text: &str,
    nodes: Vec<Box<AstNode<'a>>>,
    r: bool,
    i: int,
    one: bool,
)
    requires
        call_ensures(check_trees, (text, &nodes), r),
        0 <= i < nodes@.len(),
        call_ensures(check_tree, (text, &*nodes@[i]), one),
    ensures
        r ==> one,
        nodes@.len() == 1 ==> r == one,
        one <==> fits(text@, nodes@[i]@),
        wf_ast(text@, nodes@[i]@) ==> one,
{
    assert(nodes_view(nodes@)[i] == nodes@[i]@);
    if wf_ast(text@, nodes@[i]@) {
        law_parsed_trees_fit(text@, nodes@[i]@);
    }
    if nodes@.len() == 1 && one {
        assert(all_fit(text@, nodes_view(nodes@)));
    }
}

/// The name that a token goes by in messages: an operator is shown as it is written.
pub proof fn law_tokens_go_by_their_names(t: Tkn, r: &'static str)
    requires
        call_ensures(Tkn::name, (&t,), r),
    ensures
        match t {
            Tkn::RedirectIn => r@ == "<"@,
            Tkn::RedirectOut => r@ == ">"@,
            Tkn::RedirectAppend => r@ == ">>"@,
            Tkn::Heredoc => r@ == "<<"@,
            Tkn::Pipe => r@ == "|"@,
            Tkn::Backslash => r@ == "\\"@,
            Tkn::CmdAnd => r@ == "&&"@,
            Tkn::CmdOr => r@ == "||"@,
            Tkn::Semicolon => r@ == ";"@,
            Tkn::And => r@ == "&"@,
            Tkn::Assign => r@ == "="@,
            Tkn::LParen => r@ == "("@,
            Tkn::RParen => r@ == ")"@,
            Tkn::Literal => r@ == "literal"@,
            Tkn::DoubleQuote(_) => r@ == "double quote"@,
            Tkn::SingleQuote => r@ == "single quote"@,
            Tkn::Expansion => r@ == "expansion"@,
            Tkn::Newline => r@ == "newline"@,
            Tkn::Space => r@ == "space"@,
            Tkn::Word(_) => r@ == "word"@,
        },
{
}

/// What the user is told of a refusal. A token goes by its name, and a text is shown as it is.
pub proof fn law_refusals_are_told(e: SyntaxErr, k: Tkn, name: &'static str, r: String)
    requires
        call_ensures(Tkn::name, (&k,), name),
        call_ensures(SyntaxErr::message, (&e,), r),
    ensures
        match e {
            SyntaxErr::WrongToken { expected, found } => {
                &&& expected is Assign && found == k ==> r@
                    == "Syntax err: expected token of kind "@ + "="@ + " but got '"@ + name@ + "'"@
                &&& found is Assign && expected == k ==> r@
                    == "Syntax err: expected token of kind "@ + name@ + " but got '"@ + "="@ + "'"@
            },
            SyntaxErr::MissingToken { expected } => expected is Assign ==> r@
                == "Syntax err: missing token "@ + "Assign"@,
            SyntaxErr::InvalidForAssignment(t) => r@ == "Syntax ERR: "@ + t@
                + " is an invalid token for assignment"@,
            SyntaxErr::UnendedAssignment => r@ == "unreachable"@,
            SyntaxErr::InvalidAssignment => r@ == "Syntax Err: invalid assignment"@,
            SyntaxErr::NoInfile => r@ == "Couldn't find infile after >"@,
            SyntaxErr::NoOutfile => r@ == "Couldn't find outfile after >"@,
            SyntaxErr::NoAppendFile => r@ == "Couldn't find outfile after >>"@,
            SyntaxErr::InvalidDelimiter => r@ == "unreachable: Invalid delimiter for heredoc"@,
            SyntaxErr::MissingDelimiter => r@
                == "unreachable: Expected heredoc delimiter, found EOF"@,
            SyntaxErr::BeforeSubshell(t) => r@ == "Syntax Err: found '"@ + t@
                + "...' before subshell start"@,
            SyntaxErr::UnexpectedToken => r@ == "Syntax Err: unexpected tkn in expression"@,
            SyntaxErr::EmptyArgs => r@ == "Syntax Err: empty args"@,
            SyntaxErr::AssignmentToSubshell => r@
                == "Syntax Err: inline assignment outside of subshell"@,
            SyntaxErr::Incomplete => r@ == "Syntax Err"@,
            SyntaxErr::ExpectedSeparator(t) => t == k ==> r@
                == "Syntax Err: expected \\n, ;, ||, or && but got '"@ + name@ + "'"@,
            SyntaxErr::ExpectedEnd(t) => t == k ==> r@
                == "Syntax Err:\nwhile parsing, expected '\\n', ';', or ')', but got '"@ + name@
                + "'"@,
        },
{
}

/// Two tokens are the same exactly if they are seen alike, and a copy is seen as what it was
/// copied from.
pub proof fn law_tokens_are_compared_whole(
    a: Tkn,
    b: Tkn,
    same: bool,
    v: Vec<TknSpan>,
    w: Vec<TknSpan>,
    alike: bool,
    copy: Vec<TknSpan>,
    text: &str,
    other: &str,
    equal: bool,
)
    requires
        call_ensures(same_tkn, (&a, &b), same),
        call_ensures(same_spans, (&v, &w), alike),
        call_ensures(clone_spans, (&v,), copy),
        call_ensures(str_eq, (text, other), equal),
    ensures
        same <==> a@ == b@,
        alike <==> spans_view(v@) == spans_view(w@),
        copy@.len() == v@.len(),
        forall|i: int| 0 <= i < v@.len() ==> (#[trigger] copy@[i])@ == v@[i]@,
        equal <==> text@ == other@,
{
    assert(spans_view(copy@).len() == copy@.len() && spans_view(v@).len() == v@.len());
    assert forall|i: int| 0 <= i < v@.len() implies (#[trigger] copy@[i])@ == v@[i]@ by {
        assert(spans_view(copy@)[i] == copy@[i]@ && spans_view(v@)[i] == v@[i]@);
    }
}

/// Of the ASCII characters, letters and the underscore begin a name, and digits may follow.
pub proof fn law_names_are_letters_digits_and_underscores(c: char, first: bool, later: bool)
    requires
        c as u32 <= 0x7f,
        call_ensures(name_start, (c,), first),
        call_ensures(name_continue, (c,), later),
    ensures
        first <==> 'a' <= c <= 'z' || 'A' <= c <= 'Z' || c == '_',
        later <==> first || '0' <= c <= '9',
{
}

} // verus!
