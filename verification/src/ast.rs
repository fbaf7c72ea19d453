//! The syntax tree of a command.

use crate::token::{spans_view, wf_word, Tkn, TknSpanView, TknView};
use crate::word::{words_view, Word};
use std::borrow::Cow;
use vstd::prelude::*;
use vstd::string::*;
use vstd::utf8::*;

verus! {

/// Where a redirection leads.
#[derive(Debug, Clone, Copy, PartialEq, Eq, Structural)]
pub enum Redir {
    /// `<`: the input comes from a file.
    In,
    /// `>`: the output replaces what a file holds.
    Out,
    /// `>>`: the output goes to the end of a file.
    Append,
    /// `<<`: the input stands in the command buffer.
    Heredoc,
}

/// One redirection. `heredoc_file` is the text of a here-document.
pub struct Redirect {
    pub dir: Redir,
    pub file: Word,
    pub heredoc_file: Option<String>,
}

/// The assignment of a word to a word.
pub struct Assignment {
    pub lhs: Word,
    pub rhs: Word,
}

/// A command that the shell runs itself.
pub struct Builtin<'a> {
    pub args: Vec<Word>,
    pub cmd_buf: Cow<'a, str>,
    pub redirect_ins: Vec<Redirect>,
    pub redirect_outs: Vec<Redirect>,
}

/// A program that runs as a child process.
pub struct ChildPr<'a> {
    pub args: Vec<Word>,
    pub cmd_buf: Cow<'a, str>,
    pub redirect_ins: Vec<Redirect>,
    pub redirect_outs: Vec<Redirect>,
    /// Variables that are set for this process alone.
    pub env_vars: Vec<Assignment>,
}

/// Commands that run one after the other in a shell of their own.
pub struct Subsh<'a> {
    pub cmd_buf: Cow<'a, str>,
    pub inner_ast: Vec<Box<AstNode<'a>>>,
    pub redirect_ins: Vec<Redirect>,
    pub redirect_outs: Vec<Redirect>,
}

/// A node of the syntax tree.
pub enum AstNode<'a> {
    Prog(ChildPr<'a>),
    Builtin(Builtin<'a>),
    Logical { lhs: Box<AstNode<'a>>, operator: Tkn, rhs: Box<AstNode<'a>> },
    Pipeline(Vec<Box<AstNode<'a>>>),
    Subshell(Subsh<'a>),
    /// Variables that are set for the session.
    Assignments { assignments: Vec<Assignment>, cmd_buf: Cow<'a, str> },
}

/// The mathematical value of a [`Redirect`].
#[verifier::ext_equal]
pub struct RedirectView {
    pub dir: Redir,
    pub file: Seq<TknSpanView>,
    pub heredoc: Option<Seq<char>>,
}

/// The mathematical value of an [`Assignment`].
#[verifier::ext_equal]
pub struct AssignmentView {
    pub lhs: Seq<TknSpanView>,
    pub rhs: Seq<TknSpanView>,
}

/// The mathematical value of a simple command. `text` is the command buffer that its spans
/// speak of.
#[verifier::ext_equal]
pub struct CommandView {
    pub text: Seq<char>,
    pub args: Seq<Seq<TknSpanView>>,
    pub ins: Seq<RedirectView>,
    pub outs: Seq<RedirectView>,
    pub env: Seq<AssignmentView>,
}

/// The mathematical value of a [`Subsh`].
#[verifier::ext_equal]
pub struct SubshView {
    pub text: Seq<char>,
    pub inner: Seq<AstView>,
    pub ins: Seq<RedirectView>,
    pub outs: Seq<RedirectView>,
}

/// The mathematical value of an [`AstNode`].
#[verifier::ext_equal]
pub enum AstView {
    Prog(CommandView),
    Builtin(CommandView),
    Logical { lhs: Box<AstView>, operator: TknView, rhs: Box<AstView> },
    Pipeline(Seq<AstView>),
    Subshell(SubshView),
    Assignments { text: Seq<char>, assignments: Seq<AssignmentView> },
}

impl View for Redirect {
    type V = RedirectView;

    open spec fn view(&self) -> RedirectView {
        RedirectView {
            dir: self.dir,
            file: spans_view(self.file@),
            heredoc: match self.heredoc_file {
                Some(s) => Some(s@),
                None => None,
            },
        }
    }
}

impl View for Assignment {
    type V = AssignmentView;

    open spec fn view(&self) -> AssignmentView {
        AssignmentView { lhs: spans_view(self.lhs@), rhs: spans_view(self.rhs@) }
    }
}

/// The values of some redirections.
pub open spec fn redirects_view(v: Seq<Redirect>) -> Seq<RedirectView> {
    Seq::new(v.len(), |i: int| v[i]@)
}

/// The values of some assignments.
pub open spec fn assignments_view(v: Seq<Assignment>) -> Seq<AssignmentView> {
    Seq::new(v.len(), |i: int| v[i]@)
}

impl<'a> View for Builtin<'a> {
    type V = CommandView;

    open spec fn view(&self) -> CommandView {
        CommandView {
            text: self.cmd_buf@,
            args: words_view(self.args@),
            ins: redirects_view(self.redirect_ins@),
            outs: redirects_view(self.redirect_outs@),
            env: Seq::empty(),
        }
    }
}

impl<'a> View for ChildPr<'a> {
    type V = CommandView;

    open spec fn view(&self) -> CommandView {
        CommandView {
            text: self.cmd_buf@,
            args: words_view(self.args@),
            ins: redirects_view(self.redirect_ins@),
            outs: redirects_view(self.redirect_outs@),
            env: assignments_view(self.env_vars@),
        }
    }
}

/// The value of a node.
pub open spec fn ast_view(n: AstNode<'_>) -> AstView
    decreases n,
{
    match n {
        AstNode::Prog(p) => AstView::Prog(p@),
        AstNode::Builtin(p) => AstView::Builtin(p@),
        AstNode::Logical { lhs, operator, rhs } => AstView::Logical {
            lhs: Box::new(ast_view(*lhs)),
            operator: operator@,
            rhs: Box::new(ast_view(*rhs)),
        },
        AstNode::Pipeline(ps) => AstView::Pipeline(
            Seq::new(
                ps@.len(),
                |i: int|
                    if 0 <= i < ps@.len() {
                        ast_view(*ps@[i])
                    } else {
                        arbitrary()
                    },
            ),
        ),
        AstNode::Subshell(s) => AstView::Subshell(
            SubshView {
                text: s.cmd_buf@,
                inner: Seq::new(
                    s.inner_ast@.len(),
                    |i: int|
                        if 0 <= i < s.inner_ast@.len() {
                            ast_view(*s.inner_ast@[i])
                        } else {
                            arbitrary()
                        },
                ),
                ins: redirects_view(s.redirect_ins@),
                outs: redirects_view(s.redirect_outs@),
            },
        ),
        AstNode::Assignments { assignments, cmd_buf } => AstView::Assignments {
            text: cmd_buf@,
            assignments: assignments_view(assignments@),
        },
    }
}

impl<'a> View for AstNode<'a> {
    type V = AstView;

    open spec fn view(&self) -> AstView {
        ast_view(*self)
    }
}

/// The values of some nodes.
pub open spec fn nodes_view(v: Seq<Box<AstNode<'_>>>) -> Seq<AstView> {
    Seq::new(v.len(), |i: int| ast_view(*v[i]))
}

impl<'a> View for Subsh<'a> {
    type V = SubshView;

    open spec fn view(&self) -> SubshView {
        SubshView {
            text: self.cmd_buf@,
            inner: nodes_view(self.inner_ast@),
            ins: redirects_view(self.redirect_ins@),
            outs: redirects_view(self.redirect_outs@),
        }
    }
}

/// What a pipeline is made of is read by [`nodes_view`].
pub proof fn lemma_stages_view<'a>(stages: Vec<Box<AstNode<'a>>>)
    ensures
        AstNode::Pipeline(stages)@ == AstView::Pipeline(nodes_view(stages@)),
{
    assert(AstNode::Pipeline(stages)@->Pipeline_0 =~= nodes_view(stages@));
}

/// What a subshell is made of is read by [`nodes_view`].
pub proof fn lemma_inner_view<'a>(sub: Subsh<'a>)
    ensures
        AstNode::Subshell(sub)@ == AstView::Subshell(sub@),
{
    assert(AstNode::Subshell(sub)@->Subshell_0.inner =~= sub@.inner);
}

/// Whether every node of a tree borrows its command buffer, so that none holds a copy of it.
pub open spec fn borrows(n: AstNode<'_>) -> bool
    decreases n,
{
    match n {
        AstNode::Prog(p) => p.cmd_buf is Borrowed,
        AstNode::Builtin(p) => p.cmd_buf is Borrowed,
        AstNode::Logical { lhs, operator, rhs } => borrows(*lhs) && borrows(*rhs),
        AstNode::Pipeline(ps) => forall|i: int|
            0 <= i < ps@.len() ==> borrows(*#[trigger] ps@[i]),
        AstNode::Subshell(s) => s.cmd_buf is Borrowed && forall|i: int|
            0 <= i < s.inner_ast@.len() ==> borrows(*#[trigger] s.inner_ast@[i]),
        AstNode::Assignments { assignments, cmd_buf } => cmd_buf is Borrowed,
    }
}

/// Whether every node of some trees borrows its command buffer.
pub open spec fn all_borrow(v: Seq<Box<AstNode<'_>>>) -> bool {
    forall|i: int| 0 <= i < v.len() ==> borrows(*#[trigger] v[i])
}

/// A pipeline borrows what its stages borrow.
pub proof fn lemma_stages_borrow<'a>(stages: Vec<Box<AstNode<'a>>>)
    ensures
        borrows(AstNode::Pipeline(stages)) == all_borrow(stages@),
{
    let n = AstNode::Pipeline(stages);
    if borrows(n) {
        assert forall|i: int| 0 <= i < stages@.len() implies borrows(*#[trigger] stages@[i]) by {
            assert(n->Pipeline_0 == stages);
        }
    } else {
        assert(exists|i: int| 0 <= i < stages@.len() && !borrows(*#[trigger] stages@[i]));
    }
}

/// A subshell borrows what it and its commands borrow.
pub proof fn lemma_inner_borrow<'a>(sub: Subsh<'a>)
    ensures
        borrows(AstNode::Subshell(sub)) == (sub.cmd_buf is Borrowed && all_borrow(
            sub.inner_ast@,
        )),
{
}

/// A word that can be read and is not empty.
pub open spec fn wf_full_word(text: Seq<char>, w: Seq<TknSpanView>) -> bool {
    w.len() > 0 && wf_word(encode_utf8(text), w)
}

/// Redirections of the input: each has a file or a here-document.
pub open spec fn wf_ins(text: Seq<char>, rs: Seq<RedirectView>) -> bool {
    forall|i: int|
        0 <= i < rs.len() ==> match (#[trigger] rs[i]).dir {
            Redir::In => wf_full_word(text, rs[i].file),
            Redir::Heredoc => rs[i].heredoc is Some,
            _ => false,
        }
}

/// Redirections of the output: each has a file.
pub open spec fn wf_outs(text: Seq<char>, rs: Seq<RedirectView>) -> bool {
    forall|i: int|
        0 <= i < rs.len() ==> match (#[trigger] rs[i]).dir {
            Redir::Out | Redir::Append => wf_full_word(text, rs[i].file),
            _ => false,
        }
}

/// Assignments that can be carried out: each has a name.
pub open spec fn wf_assignments(text: Seq<char>, env: Seq<AssignmentView>) -> bool {
    forall|i: int|
        0 <= i < env.len() ==> wf_full_word(text, (#[trigger] env[i]).lhs) && wf_word(
            encode_utf8(text),
            env[i].rhs,
        )
}

/// A command over `text` that can be run: it has a name.
pub open spec fn wf_command(text: Seq<char>, p: CommandView) -> bool {
    &&& p.text == text
    &&& p.args.len() > 0
    &&& forall|i: int| 0 <= i < p.args.len() ==> wf_full_word(text, #[trigger] p.args[i])
    &&& wf_ins(text, p.ins)
    &&& wf_outs(text, p.outs)
    &&& wf_assignments(text, p.env)
}

/// A node that can be a stage of a pipeline.
pub open spec fn is_stage(n: AstView) -> bool {
    !(n is Logical) && !(n is Pipeline)
}

/// A tree over `text` that can be run. A pipeline has at least two stages, and none of them
/// is a pipeline or a logical node; the right side of a logical node is not a logical node;
/// a subshell holds at least one command.
pub open spec fn wf_ast(text: Seq<char>, n: AstView) -> bool
    decreases n,
{
    match n {
        AstView::Prog(p) => wf_command(text, p),
        AstView::Builtin(p) => wf_command(text, p) && p.env.len() == 0,
        AstView::Logical { lhs, operator, rhs } => {
            &&& wf_ast(text, *lhs)
            &&& wf_ast(text, *rhs)
            &&& !(*rhs is Logical)
            &&& operator is CmdOr || operator is CmdAnd
        },
        AstView::Pipeline(ps) => {
            &&& ps.len() >= 2
            &&& forall|i: int|
                0 <= i < ps.len() ==> wf_ast(text, #[trigger] ps[i]) && is_stage(ps[i])
        },
        AstView::Subshell(s) => {
            &&& s.text == text
            &&& s.inner.len() > 0
            &&& forall|i: int| 0 <= i < s.inner.len() ==> wf_ast(text, #[trigger] s.inner[i])
            &&& wf_ins(text, s.ins)
            &&& wf_outs(text, s.outs)
        },
        AstView::Assignments { text: t, assignments } => {
            &&& t == text
            &&& assignments.len() > 0
            &&& wf_assignments(text, assignments)
        },
    }
}

/// Trees over `text` that can be run.
pub open spec fn wf_nodes(text: Seq<char>, ns: Seq<AstView>) -> bool {
    forall|i: int| 0 <= i < ns.len() ==> wf_ast(text, #[trigger] ns[i])
}

} // verus!
