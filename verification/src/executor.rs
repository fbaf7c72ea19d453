//! Running a tree: which command comes next, given how the ones before it have ended.

use crate::ast::{
    all_borrow, assignments_view, borrows, lemma_inner_borrow, lemma_inner_view,
    lemma_stages_borrow, lemma_stages_view, nodes_view, wf_ast, wf_nodes, Assignment,
    AssignmentView, AstNode, AstView, Builtin, ChildPr, Subsh,
};
use crate::grammar::{parsed, Cursor, Source};
use crate::lexer::strs_view;
use crate::parser::{Parser, SyntaxErr};
use crate::token::{spans_view, wf_tokens, wf_word, Tkn, TknSpan, TknView};
use crate::vars::{ShellVars, VarMap};
use crate::word::{cow_str, eval_word, word_value};
use std::collections::VecDeque;
use vstd::prelude::*;
use vstd::string::*;
use vstd::utf8::*;

verus! {

broadcast use {vstd::string::group_string_axioms, vstd::seq::group_seq_axioms};

/// How a child process has ended.
#[derive(Debug, Clone, Copy, PartialEq, Eq, Structural)]
pub enum ChildEnd {
    /// It has exited with a code, or without one where a signal has ended it.
    Exited(Option<i32>),
    /// Waiting for it has failed.
    Lost,
}

/// What became of a command.
#[derive(Debug)]
pub enum Outcome {
    /// A builtin command has run.
    Builtin,
    /// A program or a subshell has ended.
    Exited(Option<i32>),
    /// The child processes of a pipeline, in their order, have ended.
    Pipeline(Vec<ChildEnd>),
    /// The command could not be carried out.
    Failed,
}

/// The mathematical value of an [`Outcome`].
pub enum OutcomeView {
    Builtin,
    Exited(Option<i32>),
    Pipeline(Seq<ChildEnd>),
    Failed,
}

impl View for Outcome {
    type V = OutcomeView;

    open spec fn view(&self) -> OutcomeView {
        match *self {
            Outcome::Builtin => OutcomeView::Builtin,
            Outcome::Exited(c) => OutcomeView::Exited(c),
            Outcome::Pipeline(ends) => OutcomeView::Pipeline(ends@),
            Outcome::Failed => OutcomeView::Failed,
        }
    }
}

/// The exit code of a process that has ended: its own, or 1 where it has none.
pub open spec fn code_or_one(code: Option<i32>) -> i32 {
    match code {
        Some(c) => c,
        None => 1,
    }
}

/// The exit code of a command. A builtin command has 0, and a pipeline that of its last
/// child process, or 0 where it has none.
pub open spec fn code_of(o: OutcomeView) -> Option<i32> {
    match o {
        OutcomeView::Builtin => Some(0),
        OutcomeView::Exited(code) => Some(code_or_one(code)),
        OutcomeView::Pipeline(ends) => if ends.len() == 0 {
            Some(0)
        } else {
            match ends.last() {
                ChildEnd::Exited(code) => Some(code_or_one(code)),
                ChildEnd::Lost => Some(1),
            }
        },
        OutcomeView::Failed => None,
    }
}

/// The exit code of a process that has ended.
fn exit_code(code: Option<i32>) -> (r: i32)
    ensures
        r == code_or_one(code),
{
    match code {
        Some(c) => c,
        None => 1,
    }
}

impl Outcome {
    /// The exit code of the command, if it could be carried out.
    pub fn code(&self) -> (r: Option<i32>)
        ensures
            r == code_of(self@),
    {
        match self {
            Outcome::Builtin => Some(0),
            Outcome::Exited(code) => Some(exit_code(*code)),
            Outcome::Pipeline(ends) => {
                let n: usize = ends.len();
                if n == 0 {
                    return Some(0);
                }
                match ends[n - 1] {
                    ChildEnd::Exited(code) => Some(exit_code(code)),
                    ChildEnd::Lost => Some(1),
                }
            },
            Outcome::Failed => None,
        }
    }
}

/// The variables after some assignments, each of which sees those before it.
pub open spec fn vars_after(vars: VarMap, env: Seq<AssignmentView>, b: Seq<u8>) -> VarMap
    decreases env.len(),
{
    if env.len() == 0 {
        vars
    } else {
        let before = vars_after(vars, env.drop_last(), b);
        before.insert(
            word_value(env.last().lhs, b, before),
            word_value(env.last().rhs, b, before),
        )
    }
}

/// Assignments whose words can be read.
pub open spec fn readable_assignments(text: Seq<char>, env: Seq<AssignmentView>) -> bool {
    forall|i: int|
        0 <= i < env.len() ==> wf_word(encode_utf8(text), (#[trigger] env[i]).lhs) && wf_word(
            encode_utf8(text),
            env[i].rhs,
        )
}

/// Carries out assignments, one after the other.
fn assign(vars: &mut ShellVars, assignments: &Vec<Assignment>, cmd_buf: &str)
    requires
        readable_assignments(cmd_buf@, assignments_view(assignments@)),
    ensures
        final(vars)@ == vars_after(
            old(vars)@,
            assignments_view(assignments@),
            cmd_buf.spec_bytes(),
        ),
{
    let ghost b = cmd_buf.spec_bytes();
    let ghost env = assignments_view(assignments@);
    let mut i: usize = 0;
    assert(env.take(0) =~= Seq::empty());
    while i < assignments.len()
        invariant
            i <= assignments@.len(),
            b == cmd_buf.spec_bytes(),
            env == assignments_view(assignments@),
            readable_assignments(cmd_buf@, env),
            vars@ == vars_after(old(vars)@, env.take(i as int), b),
        decreases assignments@.len() - i,
    {
        assert(env[i as int] == assignments@[i as int]@);
        let key = eval_word(&assignments[i].lhs, cmd_buf, vars);
        let val = eval_word(&assignments[i].rhs, cmd_buf, vars);
        vars.put_env_var(key, val);
        assert(env.take(i + 1).drop_last() =~= env.take(i as int));
        i += 1;
    }
    assert(env.take(env.len() as int) =~= env);
}

/// Something that is still to be done.
pub enum Frame<'a> {
    /// A tree is to be run.
    Node(Box<AstNode<'a>>),
    /// What stood before `operator` has run, and `rhs` may be due.
    Then { operator: Tkn, rhs: Box<AstNode<'a>> },
}

/// The mathematical value of a [`Frame`].
pub enum FrameView {
    Node(AstView),
    Then { operator: TknView, rhs: AstView },
}

impl<'a> View for Frame<'a> {
    type V = FrameView;

    open spec fn view(&self) -> FrameView {
        match *self {
            Frame::Node(n) => FrameView::Node(n@),
            Frame::Then { operator, rhs } => FrameView::Then { operator: operator@, rhs: rhs@ },
        }
    }
}

/// A run of some trees: what is still to be done, the next thing last, and the exit code of
/// the last command.
pub struct Execution<'a> {
    pub stack: Vec<Frame<'a>>,
    pub res: i32,
}

/// The mathematical value of an [`Execution`].
pub struct RunView {
    pub stack: Seq<FrameView>,
    pub res: i32,
}

/// The values of some frames.
pub open spec fn frames_view(v: Seq<Frame<'_>>) -> Seq<FrameView> {
    Seq::new(v.len(), |i: int| v[i]@)
}

impl<'a> View for Execution<'a> {
    type V = RunView;

    open spec fn view(&self) -> RunView {
        RunView { stack: frames_view(self.stack@), res: self.res }
    }
}

/// Whether all trees that are still to be run borrow their command buffer.
pub open spec fn frames_borrow(v: Seq<Frame<'_>>) -> bool {
    forall|i: int|
        0 <= i < v.len() ==> match #[trigger] v[i] {
            Frame::Node(n) => borrows(*n),
            Frame::Then { operator, rhs } => borrows(*rhs),
        }
}

/// What is to be done next.
pub enum Action<'a> {
    Builtin(Builtin<'a>),
    Prog(ChildPr<'a>),
    Pipeline(Vec<Box<AstNode<'a>>>),
    Subshell(Subsh<'a>),
    /// All commands have run.
    Done(i32),
    /// A logical node has an operator that is neither `&&` nor `||`.
    InvalidOperator,
}

/// The mathematical value of an [`Action`].
pub enum ActionView {
    /// Run this command and report how it has ended.
    Run(AstView),
    Done(i32),
    InvalidOperator,
}

impl<'a> View for Action<'a> {
    type V = ActionView;

    open spec fn view(&self) -> ActionView {
        match *self {
            Action::Builtin(p) => ActionView::Run(AstView::Builtin(p@)),
            Action::Prog(p) => ActionView::Run(AstView::Prog(p@)),
            Action::Pipeline(ps) => ActionView::Run(AstView::Pipeline(nodes_view(ps@))),
            Action::Subshell(s) => ActionView::Run(AstView::Subshell(s@)),
            Action::Done(c) => ActionView::Done(c),
            Action::InvalidOperator => ActionView::InvalidOperator,
        }
    }
}

/// Whether what is to be done borrows its command buffer.
pub open spec fn action_borrows(a: Action<'_>) -> bool {
    match a {
        Action::Builtin(p) => p.cmd_buf is Borrowed,
        Action::Prog(p) => p.cmd_buf is Borrowed,
        Action::Pipeline(ps) => all_borrow(ps@),
        Action::Subshell(s) => s.cmd_buf is Borrowed && all_borrow(s.inner_ast@),
        Action::Done(_) | Action::InvalidOperator => true,
    }
}

/// How many steps a tree can take.
pub open spec fn weight(n: AstView) -> nat
    decreases n,
{
    match n {
        AstView::Logical { lhs, operator, rhs } => weight(*lhs) + weight(*rhs) + 2,
        _ => 1,
    }
}

/// How many steps a frame can take.
pub open spec fn frame_weight(f: FrameView) -> nat {
    match f {
        FrameView::Node(n) => weight(n),
        FrameView::Then { operator, rhs } => weight(rhs) + 1,
    }
}

/// How many steps are left.
pub open spec fn stack_weight(s: Seq<FrameView>) -> nat
    decreases s.len(),
{
    if s.len() == 0 {
        0
    } else {
        stack_weight(s.drop_last()) + frame_weight(s.last())
    }
}

/// One more frame.
pub proof fn lemma_weight_push(s: Seq<FrameView>, f: FrameView)
    ensures
        stack_weight(s.push(f)) == stack_weight(s) + frame_weight(f),
{
    assert(s.push(f).drop_last() =~= s);
}

/// What is done next, and the run and the variables when it is. The left side of a logical
/// node comes first; after `||` the right side follows a code other than 0, after `&&` it
/// follows the code 0. Assignments are carried out on the way.
pub open spec fn next_action(st: RunView, vars: VarMap) -> (RunView, VarMap, ActionView)
    decreases stack_weight(st.stack),
{
    if st.stack.len() == 0 {
        (st, vars, ActionView::Done(st.res))
    } else {
        let below = st.stack.drop_last();
        match st.stack.last() {
            FrameView::Node(node) => match node {
                AstView::Logical { lhs, operator, rhs } => {
                    let later = FrameView::Then { operator, rhs: *rhs };
                    let first = FrameView::Node(*lhs);
                    proof {
                        lemma_weight_push(below, later);
                        lemma_weight_push(below.push(later), first);
                    }
                    next_action(RunView { stack: below.push(later).push(first), ..st }, vars)
                },
                AstView::Assignments { text, assignments } => next_action(
                    RunView { stack: below, res: 0 },
                    vars_after(vars, assignments, encode_utf8(text)),
                ),
                AstView::Prog(p) => if p.args.len() == 0 {
                    next_action(RunView { stack: below, res: 0 }, vars)
                } else {
                    (RunView { stack: below, ..st }, vars, ActionView::Run(node))
                },
                _ => (RunView { stack: below, ..st }, vars, ActionView::Run(node)),
            },
            FrameView::Then { operator, rhs } => if !(operator is CmdOr) && !(operator is CmdAnd) {
                (RunView { stack: below, ..st }, vars, ActionView::InvalidOperator)
            } else if (operator is CmdOr) == (st.res != 0) {
                proof {
                    lemma_weight_push(below, FrameView::Node(rhs));
                }
                next_action(RunView { stack: below.push(FrameView::Node(rhs)), ..st }, vars)
            } else {
                next_action(RunView { stack: below, ..st }, vars)
            },
        }
    }
}

/// A tree whose assignments can be carried out.
pub open spec fn runnable(n: AstView) -> bool
    decreases n,
{
    match n {
        AstView::Logical { lhs, operator, rhs } => runnable(*lhs) && runnable(*rhs),
        AstView::Assignments { text, assignments } => readable_assignments(text, assignments),
        _ => true,
    }
}

/// Trees whose assignments can be carried out.
pub open spec fn all_runnable(ns: Seq<AstView>) -> bool {
    forall|i: int| 0 <= i < ns.len() ==> runnable(#[trigger] ns[i])
}

/// A frame whose assignments can be carried out.
pub open spec fn runnable_frame(f: FrameView) -> bool {
    match f {
        FrameView::Node(n) => runnable(n),
        FrameView::Then { operator, rhs } => runnable(rhs),
    }
}

/// A run whose assignments can be carried out.
pub open spec fn runnable_stack(s: Seq<FrameView>) -> bool {
    forall|i: int| 0 <= i < s.len() ==> runnable_frame(#[trigger] s[i])
}

/// A run before its first step.
pub open spec fn started(ns: Seq<AstView>) -> RunView {
    RunView { stack: Seq::new(ns.len(), |i: int| FrameView::Node(ns[ns.len() - 1 - i])), res: 0 }
}

/// The run of some trees, one after the other.
pub fn execute_ast<'a>(executables: Vec<Box<AstNode<'a>>>) -> (r: Execution<'a>)
    requires
        all_runnable(nodes_view(executables@)),
    ensures
        r@ == started(nodes_view(executables@)),
        runnable_stack(r@.stack),
        all_borrow(executables@) ==> frames_borrow(r.stack@),
{
    let ghost ns = nodes_view(executables@);
    let mut left = executables;
    let mut stack: Vec<Frame<'a>> = Vec::new();
    while left.len() > 0
        invariant
            nodes_view(left@) == ns.take(left@.len() as int),
            stack@.len() + left@.len() == ns.len(),
            forall|i: int|
                0 <= i < stack@.len() ==> (#[trigger] stack@[i])@ == FrameView::Node(
                    ns[ns.len() - 1 - i],
                ),
            all_borrow(executables@) ==> all_borrow(left@) && frames_borrow(stack@),
        decreases left@.len(),
    {
        let ghost n = left@.len();
        let ghost whole = left@;
        if let Some(node) = left.pop() {
            assert(node == whole[n - 1]);
            assert(node@ == ns.take(n as int)[n - 1]) by {
                assert(nodes_view(left@.push(node))[n - 1] == node@);
            }
            stack.push(Frame::Node(node));
        }
        assert(nodes_view(left@) =~= ns.take(left@.len() as int));
    }
    let r = Execution { stack, res: 0 };
    assert(r@.stack =~= started(ns).stack);
    r
}

impl<'a> Execution<'a> {
    /// What is to be done next. Assignments on the way there are carried out on `vars`.
    pub fn next(&mut self, vars: &mut ShellVars) -> (r: Action<'a>)
        requires
            runnable_stack(old(self)@.stack),
        ensures
            (final(self)@, final(vars)@, r@) == next_action(old(self)@, old(vars)@),
            runnable_stack(final(self)@.stack),
            frames_borrow(old(self).stack@) ==> frames_borrow(final(self).stack@)
                && action_borrows(r),
    {
        let ghost st0 = self@;
        let ghost vars0 = vars@;
        loop
            invariant
                st0 == old(self)@,
                vars0 == old(vars)@,
                runnable_stack(self@.stack),
                next_action(self@, vars@) == next_action(st0, vars0),
                frames_borrow(old(self).stack@) ==> frames_borrow(self.stack@),
            decreases stack_weight(self@.stack),
        {
            let ghost st = self@;
            let ghost below = st.stack.drop_last();
            let ghost whole = self.stack@;
            let frame = match self.stack.pop() {
                Some(f) => f,
                None => {
                    assert(self@.stack =~= st.stack);
                    return Action::Done(self.res);
                },
            };
            proof {
                assert(self@.stack =~= below);
                assert(st.stack.last() == frame@);
                assert(whole[whole.len() - 1] == frame);
                assert(runnable_frame(st.stack.last()));
            }
            match frame {
                Frame::Node(node) => match *node {
                    AstNode::Logical { lhs, operator, rhs } => {
                        let ghost later = FrameView::Then { operator: operator@, rhs: rhs@ };
                        let ghost first = FrameView::Node(lhs@);
                        self.stack.push(Frame::Then { operator, rhs });
                        self.stack.push(Frame::Node(lhs));
                        proof {
                            assert(self@.stack =~= below.push(later).push(first));
                            lemma_weight_push(below, later);
                            lemma_weight_push(below.push(later), first);
                        }
                    },
                    AstNode::Assignments { assignments, cmd_buf } => {
                        assign(vars, &assignments, cow_str(&cmd_buf));
                        self.res = 0;
                    },
                    AstNode::Prog(p) => {
                        if p.args.len() > 0 {
                            return Action::Prog(p);
                        }
                        self.res = 0;
                    },
                    AstNode::Builtin(p) => {
                        return Action::Builtin(p);
                    },
                    AstNode::Pipeline(ps) => {
                        proof {
                            lemma_stages_view(ps);
                            lemma_stages_borrow(ps);
                        }
                        return Action::Pipeline(ps);
                    },
                    AstNode::Subshell(s) => {
                        proof {
                            lemma_inner_view(s);
                            lemma_inner_borrow(s);
                        }
                        return Action::Subshell(s);
                    },
                },
                Frame::Then { operator, rhs } => {
                    let wanted = match operator {
                        Tkn::CmdOr => self.res != 0,
                        Tkn::CmdAnd => self.res == 0,
                        _ => {
                            return Action::InvalidOperator;
                        },
                    };
                    if wanted {
                        let ghost due = FrameView::Node(rhs@);
                        self.stack.push(Frame::Node(rhs));
                        proof {
                            assert(self@.stack =~= below.push(due));
                            lemma_weight_push(below, due);
                        }
                    }
                },
            }
        }
    }

    /// Takes note of how the last command has ended. Nothing is left to do where it could
    /// not be carried out; the result says whether it could.
    pub fn report(&mut self, outcome: &Outcome) -> (r: bool)
        requires
            runnable_stack(old(self)@.stack),
        ensures
            runnable_stack(final(self)@.stack),
            frames_borrow(old(self).stack@) ==> frames_borrow(final(self).stack@),
            r == (code_of(outcome@) is Some),
            final(self)@ == match code_of(outcome@) {
                Some(c) => RunView { res: c, ..old(self)@ },
                None => RunView { stack: Seq::empty(), ..old(self)@ },
            },
    {
        match outcome.code() {
            Some(c) => {
                self.res = c;
                assert(self@.stack =~= old(self)@.stack);
                true
            },
            None => {
                self.stack = Vec::new();
                assert(self@.stack =~= Seq::empty());
                false
            },
        }
    }
}

/// Reads the tokens of a command buffer and begins to run them.
pub fn execute_cmd_buf<'w, 'v>(
    cmd_buf: &'w str,
    tkns: &'w [TknSpan],
    heredocs: VecDeque<&'w str>,
    vars: &'v ShellVars,
) -> (r: Result<Execution<'w>, SyntaxErr>)
    requires
        wf_tokens(cmd_buf.spec_bytes(), spans_view(tkns@)),
    ensures
        ({
            let c = Source { ts: spans_view(tkns@), text: cmd_buf@, vars: vars@ };
            let s = Cursor { pos: 0, cur: None, docs: strs_view(heredocs@) };
            match parsed(c, s).1 {
                Ok(nodes) => {
                    &&& wf_nodes(cmd_buf@, nodes)
                    &&& r matches Ok(run)
                    &&& run@ == started(nodes)
                    &&& runnable_stack(run@.stack)
                    &&& frames_borrow(run.stack@)
                },
                Err(e) => r matches Err(err) && err@ == e,
            }
        }),
{
    let mut parser = Parser::new(tkns, heredocs, cmd_buf, vars);
    match parser.parse() {
        Ok(executables) => {
            proof {
                lemma_nodes_runnable(cmd_buf@, nodes_view(executables@));
            }
            Ok(execute_ast(executables))
        },
        Err(e) => Err(e),
    }
}

/// The assignments of a tree that can be run can be carried out.
pub proof fn lemma_runnable(text: Seq<char>, n: AstView)
    requires
        wf_ast(text, n),
    ensures
        runnable(n),
    decreases n,
{
    match n {
        AstView::Logical { lhs, operator, rhs } => {
            lemma_runnable(text, *lhs);
            lemma_runnable(text, *rhs);
        },
        _ => {},
    }
}

/// The assignments of trees that can be run can be carried out.
pub proof fn lemma_nodes_runnable(text: Seq<char>, ns: Seq<AstView>)
    requires
        wf_nodes(text, ns),
    ensures
        all_runnable(ns),
{
    assert forall|i: int| 0 <= i < ns.len() implies runnable(#[trigger] ns[i]) by {
        lemma_runnable(text, ns[i]);
    }
}

/// Whether a property of trees holds of the sides of a logical node where it holds of the node.
pub open spec fn passes_down(p: spec_fn(AstView) -> bool) -> bool {
    forall|lhs: AstView, operator: TknView, rhs: AstView|
        #[trigger] p(AstView::Logical { lhs: Box::new(lhs), operator, rhs: Box::new(rhs) }) ==> p(
            lhs,
        ) && p(rhs)
}

/// Whether a property holds of all trees that are still to be run.
pub open spec fn all_left(p: spec_fn(AstView) -> bool, s: Seq<FrameView>) -> bool {
    forall|i: int|
        0 <= i < s.len() ==> match #[trigger] s[i] {
            FrameView::Node(n) => p(n),
            FrameView::Then { operator, rhs } => p(rhs),
        }
}

/// A property of the trees of a run that passes down to the sides of logical nodes is one of
/// every command that the run asks for, and of all that is left to do then.
pub proof fn law_runs_pass_on_what_trees_have(
    st: RunView,
    vars: VarMap,
    p: spec_fn(AstView) -> bool,
)
    requires
        passes_down(p),
        all_left(p, st.stack),
    ensures
        all_left(p, next_action(st, vars).0.stack),
        next_action(st, vars).2 matches ActionView::Run(n) ==> p(n),
    decreases stack_weight(st.stack),
{
    if st.stack.len() > 0 {
        let below = st.stack.drop_last();
        let top = st.stack[st.stack.len() - 1];
        assert(all_left(p, below)) by {
            assert forall|i: int| 0 <= i < below.len() implies match #[trigger] below[i] {
                FrameView::Node(n) => p(n),
                FrameView::Then { operator, rhs } => p(rhs),
            } by {
                assert(below[i] == st.stack[i]);
            }
        }
        match top {
            FrameView::Node(node) => match node {
                AstView::Logical { lhs, operator, rhs } => {
                    assert(node == AstView::Logical {
                        lhs: Box::new(*lhs),
                        operator,
                        rhs: Box::new(*rhs),
                    });
                    let later = FrameView::Then { operator, rhs: *rhs };
                    let first = FrameView::Node(*lhs);
                    lemma_weight_push(below, later);
                    lemma_weight_push(below.push(later), first);
                    law_runs_pass_on_what_trees_have(
                        RunView { stack: below.push(later).push(first), ..st },
                        vars,
                        p,
                    );
                },
                AstView::Assignments { text, assignments } => {
                    law_runs_pass_on_what_trees_have(
                        RunView { stack: below, res: 0 },
                        vars_after(vars, assignments, encode_utf8(text)),
                        p,
                    );
                },
                AstView::Prog(prog) => {
                    if prog.args.len() == 0 {
                        law_runs_pass_on_what_trees_have(
                            RunView { stack: below, res: 0 },
                            vars,
                            p,
                        );
                    }
                },
                _ => {},
            },
            FrameView::Then { operator, rhs } => {
                lemma_weight_push(below, FrameView::Node(rhs));
                law_runs_pass_on_what_trees_have(
                    RunView { stack: below.push(FrameView::Node(rhs)), ..st },
                    vars,
                    p,
                );
                law_runs_pass_on_what_trees_have(RunView { stack: below, ..st }, vars, p);
            },
        }
    }
}

/// The variables of a session and the commands that have been run in it, in their order.
pub struct World {
    pub vars: VarMap,
    pub done: Seq<AstView>,
}

/// How the commands of a run end: the first, the second, and so on.
pub type Fate = spec_fn(int) -> OutcomeView;

/// A session after one more command.
pub open spec fn ran_leaf(n: AstView, w: World, fate: Fate) -> (World, Option<i32>) {
    (World { done: w.done.push(n), ..w }, code_of(fate(w.done.len() as int)))
}

/// A session after a tree has been run, and the tree's exit code; there is none where a
/// command could not be carried out, and nothing is run after that.
pub open spec fn ran(n: AstView, w: World, fate: Fate) -> (World, Option<i32>)
    decreases n,
{
    match n {
        AstView::Logical { lhs, operator, rhs } => match ran(*lhs, w, fate) {
            (w1, None) => (w1, None),
            (w1, Some(code)) => if operator is CmdOr {
                if code != 0 {
                    ran(*rhs, w1, fate)
                } else {
                    (w1, Some(0))
                }
            } else if operator is CmdAnd {
                if code == 0 {
                    ran(*rhs, w1, fate)
                } else {
                    (w1, Some(code))
                }
            } else {
                (w1, None)
            },
        },
        AstView::Assignments { text, assignments } => (
            World { vars: vars_after(w.vars, assignments, encode_utf8(text)), ..w },
            Some(0),
        ),
        AstView::Prog(p) => if p.args.len() == 0 {
            (w, Some(0))
        } else {
            ran_leaf(n, w, fate)
        },
        _ => ran_leaf(n, w, fate),
    }
}

/// A session after some trees have been run, one after the other, and the exit code of the
/// last; `code` where there are none.
pub open spec fn ran_all(ns: Seq<AstView>, w: World, code: i32, fate: Fate) -> (World, Option<i32>)
    decreases ns.len(),
{
    if ns.len() == 0 {
        (w, Some(code))
    } else {
        match ran(ns[0], w, fate) {
            (w1, None) => (w1, None),
            (w1, Some(c)) => ran_all(ns.skip(1), w1, c, fate),
        }
    }
}

/// Asking for one step makes the run lighter.
pub proof fn lemma_next_action(st: RunView, vars: VarMap)
    ensures
        next_action(st, vars).2 is Run ==> stack_weight(next_action(st, vars).0.stack)
            < stack_weight(st.stack),
    decreases stack_weight(st.stack),
{
    if st.stack.len() > 0 {
        let below = st.stack.drop_last();
        match st.stack.last() {
            FrameView::Node(node) => match node {
                AstView::Logical { lhs, operator, rhs } => {
                    let later = FrameView::Then { operator, rhs: *rhs };
                    let first = FrameView::Node(*lhs);
                    lemma_weight_push(below, later);
                    lemma_weight_push(below.push(later), first);
                    lemma_next_action(
                        RunView { stack: below.push(later).push(first), ..st },
                        vars,
                    );
                },
                AstView::Assignments { text, assignments } => {
                    lemma_next_action(
                        RunView { stack: below, res: 0 },
                        vars_after(vars, assignments, encode_utf8(text)),
                    );
                },
                AstView::Prog(p) => {
                    if p.args.len() == 0 {
                        lemma_next_action(RunView { stack: below, res: 0 }, vars);
                    }
                },
                _ => {},
            },
            FrameView::Then { operator, rhs } => {
                lemma_weight_push(below, FrameView::Node(rhs));
                lemma_next_action(
                    RunView { stack: below.push(FrameView::Node(rhs)), ..st },
                    vars,
                );
                lemma_next_action(RunView { stack: below, ..st }, vars);
            },
        }
    }
}

/// A session after a run has been driven to its end: each command that it asks for is run
/// and its outcome reported.
pub open spec fn driven(st: RunView, w: World, fate: Fate) -> (World, Option<i32>)
    decreases stack_weight(st.stack),
{
    proof {
        lemma_next_action(st, w.vars);
    }
    match next_action(st, w.vars) {
        (_, vars, ActionView::Done(code)) => (World { vars, ..w }, Some(code)),
        (_, vars, ActionView::InvalidOperator) => (World { vars, ..w }, None),
        (after, vars, ActionView::Run(n)) => match ran_leaf(n, World { vars, ..w }, fate) {
            (w1, None) => (w1, None),
            (w1, Some(code)) => driven(RunView { res: code, ..after }, w1, fate),
        },
    }
}

/// What is left of a run, done by running its frames from the last to the first.
pub open spec fn rest_of(st: RunView, w: World, fate: Fate) -> (World, Option<i32>)
    decreases st.stack.len(),
{
    if st.stack.len() == 0 {
        (w, Some(st.res))
    } else {
        let below = st.stack.drop_last();
        let step = match st.stack.last() {
            FrameView::Node(n) => ran(n, w, fate),
            FrameView::Then { operator, rhs } => if !(operator is CmdOr) && !(operator is CmdAnd) {
                (w, None)
            } else if (operator is CmdOr) == (st.res != 0) {
                ran(rhs, w, fate)
            } else {
                (w, Some(st.res))
            },
        };
        match step {
            (w1, None) => (w1, None),
            (w1, Some(code)) => rest_of(RunView { stack: below, res: code }, w1, fate),
        }
    }
}

/// Driving a run does what is left of it.
pub proof fn lemma_driven(st: RunView, w: World, fate: Fate)
    ensures
        driven(st, w, fate) == rest_of(st, w, fate),
    decreases stack_weight(st.stack), 1int,
{
    lemma_next_action(st, w.vars);
    if st.stack.len() > 0 {
        let below = st.stack.drop_last();
        match st.stack.last() {
            FrameView::Node(node) => match node {
                AstView::Logical { lhs, operator, rhs } => {
                    let later = FrameView::Then { operator, rhs: *rhs };
                    let first = FrameView::Node(*lhs);
                    lemma_weight_push(below, later);
                    lemma_weight_push(below.push(later), first);
                    let st1 = RunView { stack: below.push(later).push(first), ..st };
                    lemma_driven(st1, w, fate);
                    assert(driven(st, w, fate) == driven(st1, w, fate));
                    assert(st1.stack.drop_last() =~= below.push(later));
                    if let (w1, Some(code)) = ran(*lhs, w, fate) {
                        let st2 = RunView { stack: below.push(later), res: code };
                        assert(st2.stack.drop_last() =~= below);
                        assert(rest_of(st1, w, fate) == rest_of(st2, w1, fate));
                    }
                },
                AstView::Assignments { text, assignments } => {
                    let vars = vars_after(w.vars, assignments, encode_utf8(text));
                    lemma_driven(RunView { stack: below, res: 0 }, World { vars, ..w }, fate);
                },
                AstView::Prog(p) => {
                    if p.args.len() == 0 {
                        lemma_driven(RunView { stack: below, res: 0 }, w, fate);
                    } else {
                        lemma_driven_leaf(st, w, fate);
                    }
                },
                _ => {
                    lemma_driven_leaf(st, w, fate);
                },
            },
            FrameView::Then { operator, rhs } => {
                let due = FrameView::Node(rhs);
                lemma_weight_push(below, due);
                let st1 = RunView { stack: below.push(due), ..st };
                lemma_driven(st1, w, fate);
                assert(st1.stack.drop_last() =~= below);
                lemma_driven(RunView { stack: below, ..st }, w, fate);
            },
        }
    }
}

/// Driving a run whose next step is a command.
proof fn lemma_driven_leaf(st: RunView, w: World, fate: Fate)
    requires
        st.stack.len() > 0,
        st.stack.last() matches FrameView::Node(n) && !(n is Logical) && !(n is Assignments) && (
        n matches AstView::Prog(p) ==> p.args.len() > 0),
    ensures
        driven(st, w, fate) == rest_of(st, w, fate),
    decreases stack_weight(st.stack), 0int,
{
    let below = st.stack.drop_last();
    if let FrameView::Node(n) = st.stack.last() {
        if let (w1, Some(code)) = ran_leaf(n, w, fate) {
            lemma_driven(RunView { stack: below, res: code }, w1, fate);
        }
    }
}

/// Doing what is left of a run that has just begun is running its trees in their order.
proof fn lemma_rest_of_started(ns: Seq<AstView>, k: int, w: World, code: i32, fate: Fate)
    requires
        0 <= k <= ns.len(),
    ensures
        rest_of(
            RunView { stack: started(ns).stack.take(ns.len() - k), res: code },
            w,
            fate,
        ) == ran_all(ns.skip(k), w, code, fate),
    decreases ns.len() - k,
{
    let stack = started(ns).stack.take(ns.len() - k);
    if k < ns.len() {
        assert(stack.last() == FrameView::Node(ns[k]));
        assert(stack.drop_last() =~= started(ns).stack.take(ns.len() - k - 1));
        assert(ns.skip(k).skip(1) =~= ns.skip(k + 1));
        assert(ns.skip(k)[0] == ns[k]);
        if let (w1, Some(c)) = ran(ns[k], w, fate) {
            lemma_rest_of_started(ns, k + 1, w1, c, fate);
        }
    }
}

/// Driving a run to its end runs exactly the commands that the trees call for, in their
/// order, and gives their exit code and their variables, however the commands end.
pub proof fn law_driving_runs_the_trees(ns: Seq<AstView>, w: World, fate: Fate)
    ensures
        driven(started(ns), w, fate) == ran_all(ns, w, 0, fate),
{
    lemma_driven(started(ns), w, fate);
    lemma_rest_of_started(ns, 0, w, 0, fate);
    assert(started(ns).stack.take(ns.len() as int) =~= started(ns).stack);
    assert(ns.skip(0) =~= ns);
}

} // verus!
