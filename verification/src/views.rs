//! What the contracts see of a value: every field of it, as it is.

use crate::ast::{
    assignments_view, lemma_inner_view, lemma_stages_view, nodes_view, redirects_view, Assignment,
    AstNode, AstView, Builtin, ChildPr, Redirect, Subsh,
};
use crate::builtins::{CdTarget, CdTargetView};
use crate::executor::{
    Action, ActionView, ChildEnd, Execution, Frame, FrameView, Outcome, OutcomeView,
};
use crate::grammar::SyntaxErrView;
use crate::lexer::{strs_view, LexerState};
use crate::parser::{error_message, kind_word};
use crate::spawn::{
    feeds_view, outs_view, pairs_view, stages_view, texts_view, Destination, DestinationView, Feed,
    FeedView, OutFile, OutFileView, Spawn, Stage, SubshSpawn, Work, WorkView,
};
use crate::token::{lemma_parts_view, spans_view, tkn_name, Tkn, TknSpan, TknView};
use crate::word::{words_view, Word};
use std::borrow::Cow;
use vstd::prelude::*;
use vstd::string::*;

verus! {

broadcast use vstd::seq::group_seq_axioms;

/// A token is seen with its kind, its parts and the bytes that it covers.
pub proof fn law_tokens_are_seen_whole(t: TknSpan, v: Seq<TknSpan>, parts: Vec<TknSpan>, i: int)
    ensures
        t@.kind == t.kind@ && t@.start == t.span.start as int && t@.end == t.span.end as int,
        spans_view(v).len() == v.len(),
        0 <= i < v.len() ==> spans_view(v)[i] == v[i]@,
        Tkn::Word(parts)@ == TknView::Word(spans_view(parts@)),
        Tkn::DoubleQuote(parts)@ == TknView::DoubleQuote(spans_view(parts@)),
        Tkn::Literal@ is Literal && Tkn::SingleQuote@ is SingleQuote,
        Tkn::Expansion@ is Expansion,
        Tkn::RedirectIn@ is RedirectIn && Tkn::RedirectOut@ is RedirectOut,
        Tkn::RedirectAppend@ is RedirectAppend && Tkn::Heredoc@ is Heredoc,
        Tkn::Pipe@ is Pipe && Tkn::CmdAnd@ is CmdAnd && Tkn::CmdOr@ is CmdOr && Tkn::And@ is And,
        Tkn::Semicolon@ is Semicolon && Tkn::Newline@ is Newline && Tkn::Space@ is Space,
        Tkn::Assign@ is Assign && Tkn::Backslash@ is Backslash,
        Tkn::LParen@ is LParen && Tkn::RParen@ is RParen,
{
    lemma_parts_view(parts);
}

/// A redirection is seen with its direction, its file and its here-document, and an assignment
/// with both its words; lists of them item by item.
pub proof fn law_redirections_are_seen_whole(
    r: Redirect,
    a: Assignment,
    rs: Seq<Redirect>,
    env: Seq<Assignment>,
    ws: Seq<Word>,
    i: int,
)
    ensures
        r@.dir == r.dir,
        r@.file == spans_view(r.file@),
        r.heredoc_file matches Some(t) ==> r@.heredoc == Some(t@),
        r.heredoc_file is None ==> r@.heredoc is None,
        a@.lhs == spans_view(a.lhs@) && a@.rhs == spans_view(a.rhs@),
        redirects_view(rs).len() == rs.len() && assignments_view(env).len() == env.len(),
        words_view(ws).len() == ws.len(),
        0 <= i < rs.len() ==> redirects_view(rs)[i] == rs[i]@,
        0 <= i < env.len() ==> assignments_view(env)[i] == env[i]@,
        0 <= i < ws.len() ==> words_view(ws)[i] == spans_view(ws[i]@),
{
}

/// A tree is seen with all that its nodes hold.
pub proof fn law_trees_are_seen_whole<'a>(
    p: ChildPr<'a>,
    q: Builtin<'a>,
    s: Subsh<'a>,
    ps: Vec<Box<AstNode<'a>>>,
    lhs: Box<AstNode<'a>>,
    operator: Tkn,
    rhs: Box<AstNode<'a>>,
    assignments: Vec<Assignment>,
    cmd_buf: Cow<'a, str>,
    i: int,
)
    ensures
        p@.text == p.cmd_buf@ && p@.args == words_view(p.args@),
        p@.ins == redirects_view(p.redirect_ins@) && p@.outs == redirects_view(p.redirect_outs@),
        p@.env == assignments_view(p.env_vars@),
        q@.text == q.cmd_buf@ && q@.args == words_view(q.args@),
        q@.ins == redirects_view(q.redirect_ins@) && q@.outs == redirects_view(q.redirect_outs@),
        q@.env.len() == 0,
        s@.text == s.cmd_buf@ && s@.inner == nodes_view(s.inner_ast@),
        s@.ins == redirects_view(s.redirect_ins@) && s@.outs == redirects_view(s.redirect_outs@),
        AstNode::Prog(p)@ == AstView::Prog(p@),
        AstNode::Builtin(q)@ == AstView::Builtin(q@),
        AstNode::Subshell(s)@ == AstView::Subshell(s@),
        AstNode::Pipeline(ps)@ == AstView::Pipeline(nodes_view(ps@)),
        nodes_view(ps@).len() == ps@.len(),
        0 <= i < ps@.len() ==> nodes_view(ps@)[i] == ps@[i]@,
        (AstNode::Logical { lhs, operator, rhs })@ == (AstView::Logical {
            lhs: Box::new(lhs@),
            operator: operator@,
            rhs: Box::new(rhs@),
        }),
        (AstNode::Assignments { assignments, cmd_buf })@ == (AstView::Assignments {
            text: cmd_buf@,
            assignments: assignments_view(assignments@),
        }),
{
    lemma_inner_view(s);
    lemma_stages_view(ps);
}

/// What a command asks for is seen field by field.
pub proof fn law_requests_are_seen_whole<'a>(
    s: Spawn,
    u: SubshSpawn<'a>,
    path: String,
    shown: String,
    feeds: Seq<Feed>,
    outs: Seq<OutFile>,
    texts: Seq<String>,
    pairs: Seq<(String, String)>,
    i: int,
)
    ensures
        s@.program == s.program@ && s@.args == texts_view(s.args@) && s@.env == pairs_view(s.env@),
        s@.stdin == s.stdin && s@.stdout == s.stdout,
        s@.feeds == feeds_view(s.feeds@) && s@.outs == outs_view(s.outs@),
        u@.inner == nodes_view(u.inner_ast@) && u@.outs == outs_view(u.outs@),
        u@.stdin == u.stdin && u@.stdout == u.stdout,
        (Feed::File { path, shown })@ == (FeedView::File { path: path@, shown: shown@ }),
        Feed::Text(path)@ == FeedView::Text(path@),
        OutFile::Truncate(path)@ == OutFileView::Truncate(path@),
        OutFile::Append(path)@ == OutFileView::Append(path@),
        OutFile::NotOutput@ is NotOutput,
        feeds_view(feeds).len() == feeds.len() && outs_view(outs).len() == outs.len(),
        texts_view(texts).len() == texts.len() && pairs_view(pairs).len() == pairs.len(),
        0 <= i < feeds.len() ==> feeds_view(feeds)[i] == feeds[i]@,
        0 <= i < outs.len() ==> outs_view(outs)[i] == outs[i]@,
        0 <= i < texts.len() ==> texts_view(texts)[i] == texts[i]@,
        0 <= i < pairs.len() ==> pairs_view(pairs)[i] == (pairs[i].0@, pairs[i].1@),
{
}

/// The stages of a pipeline and the places that output goes to are seen as they are.
pub proof fn law_stages_are_seen_whole<'a>(
    p: ChildPr<'a>,
    q: Builtin<'a>,
    s: Subsh<'a>,
    stage: Stage<'a>,
    stages: Seq<Stage<'a>>,
    files: Vec<OutFile>,
    path: String,
    i: int,
)
    ensures
        Work::Prog(p)@ == WorkView::Run(AstView::Prog(p@)),
        Work::Builtin(q)@ == WorkView::Run(AstView::Builtin(q@)),
        Work::Subshell(s)@ == WorkView::Run(AstView::Subshell(s@)),
        Work::<'a>::Nothing@ is Nothing && Work::<'a>::Invalid@ is Invalid,
        stage@.work == stage.work@ && stage@.stdin == stage.stdin && stage@.stdout == stage.stdout,
        stages_view(stages).len() == stages.len(),
        0 <= i < stages.len() ==> stages_view(stages)[i] == stages[i]@,
        Destination::Files(files)@ == DestinationView::Files(outs_view(files@)),
        Destination::Pipe@ is Pipe && Destination::Stdout@ is Stdout,
        CdTarget::Home@ is Home,
        CdTarget::UnderHome(path)@ == CdTargetView::UnderHome(path@),
        CdTarget::Path(path)@ == CdTargetView::Path(path@),
{
}

/// A run is seen with all that is still to be done, and an action and an outcome as they are.
pub proof fn law_runs_are_seen_whole<'a>(
    run: Execution<'a>,
    n: Box<AstNode<'a>>,
    operator: Tkn,
    p: ChildPr<'a>,
    q: Builtin<'a>,
    s: Subsh<'a>,
    ps: Vec<Box<AstNode<'a>>>,
    code: i32,
    end: Option<i32>,
    ends: Vec<ChildEnd>,
    i: int,
)
    ensures
        run@.res == run.res && run@.stack.len() == run.stack@.len(),
        0 <= i < run.stack@.len() ==> run@.stack[i] == run.stack@[i]@,
        Frame::Node(n)@ == FrameView::Node(n@),
        (Frame::Then { operator, rhs: n })@ == (FrameView::Then { operator: operator@, rhs: n@ }),
        Action::Prog(p)@ == ActionView::Run(AstView::Prog(p@)),
        Action::Builtin(q)@ == ActionView::Run(AstView::Builtin(q@)),
        Action::Subshell(s)@ == ActionView::Run(AstView::Subshell(s@)),
        Action::Pipeline(ps)@ == ActionView::Run(AstView::Pipeline(nodes_view(ps@))),
        Action::<'a>::Done(code)@ == ActionView::Done(code),
        Action::<'a>::InvalidOperator@ is InvalidOperator,
        Outcome::Builtin@ is Builtin && Outcome::Failed@ is Failed,
        Outcome::Exited(end)@ == OutcomeView::Exited(end),
        Outcome::Pipeline(ends)@ == OutcomeView::Pipeline(ends@),
{
}

/// The state of the lexer is seen field by field.
pub proof fn law_lexers_are_seen_whole<'a>(st: LexerState<'a>, strs: Seq<&str>, i: int)
    ensures
        st@.delimiters.len() == st.delimiters@.len(),
        0 <= i < st.delimiters@.len() ==> st@.delimiters[i] == st.delimiters@[i]@,
        st@.heredocs.len() == st.heredocs@.len(),
        0 <= i < st.heredocs@.len() ==> st@.heredocs[i] == (
            st.heredocs@[i].0 as int,
            st.heredocs@[i].1 as int,
        ),
        st.syntax_err matches Some(t) ==> st@.syntax_err == Some(t@),
        st.syntax_err is None ==> st@.syntax_err is None,
        st.expected_closer matches Some(t) ==> st@.expected_closer == Some(t@),
        st.expected_closer is None ==> st@.expected_closer is None,
        st.continuation_for matches Some(t) ==> st@.continuation_for == Some(t@),
        st.continuation_for is None ==> st@.continuation_for is None,
        strs_view(strs).len() == strs.len(),
        0 <= i < strs.len() ==> strs_view(strs)[i] == strs[i]@,
{
}

/// What the user is told of a command that makes no sense: the message names the token, or the
/// text, that it is about.
pub proof fn law_messages_name_what_is_wrong(k: TknView, found: TknView, t: Seq<char>)
    ensures
        error_message(SyntaxErrView::WrongToken { expected: k, found })
            == "Syntax err: expected token of kind "@ + tkn_name(k) + " but got '"@
            + tkn_name(found) + "'"@,
        error_message(SyntaxErrView::MissingToken { expected: k }) == "Syntax err: missing token "@
            + kind_word(k),
        error_message(SyntaxErrView::InvalidForAssignment(t)) == "Syntax ERR: "@ + t
            + " is an invalid token for assignment"@,
        error_message(SyntaxErrView::BeforeSubshell(t)) == "Syntax Err: found '"@ + t
            + "...' before subshell start"@,
        error_message(SyntaxErrView::ExpectedSeparator(k))
            == "Syntax Err: expected \\n, ;, ||, or && but got '"@ + tkn_name(k) + "'"@,
        error_message(SyntaxErrView::ExpectedEnd(k))
            == "Syntax Err:\nwhile parsing, expected '\\n', ';', or ')', but got '"@ + tkn_name(k)
            + "'"@,
        error_message(SyntaxErrView::InvalidAssignment) == "Syntax Err: invalid assignment"@,
        error_message(SyntaxErrView::NoInfile) == "Couldn't find infile after >"@,
        error_message(SyntaxErrView::NoOutfile) == "Couldn't find outfile after >"@,
        error_message(SyntaxErrView::NoAppendFile) == "Couldn't find outfile after >>"@,
        error_message(SyntaxErrView::UnexpectedToken)
            == "Syntax Err: unexpected tkn in expression"@,
        error_message(SyntaxErrView::EmptyArgs) == "Syntax Err: empty args"@,
        error_message(SyntaxErrView::AssignmentToSubshell)
            == "Syntax Err: inline assignment outside of subshell"@,
        error_message(SyntaxErrView::Incomplete) == "Syntax Err"@,
        tkn_name(TknView::RedirectIn) == "<"@ && tkn_name(TknView::RedirectOut) == ">"@,
        tkn_name(TknView::RedirectAppend) == ">>"@ && tkn_name(TknView::Heredoc) == "<<"@,
        tkn_name(TknView::Pipe) == "|"@ && tkn_name(TknView::CmdOr) == "||"@,
        tkn_name(TknView::And) == "&"@ && tkn_name(TknView::CmdAnd) == "&&"@,
        tkn_name(TknView::Semicolon) == ";"@ && tkn_name(TknView::Assign) == "="@,
        tkn_name(TknView::LParen) == "("@ && tkn_name(TknView::RParen) == ")"@,
        tkn_name(TknView::Backslash) == "\\"@ && tkn_name(TknView::Newline) == "newline"@,
        tkn_name(TknView::Space) == "space"@,
        k is Word ==> tkn_name(k) == "word"@,
{
}

} // verus!
