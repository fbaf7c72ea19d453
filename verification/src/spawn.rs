//! What a command asks of the system: programs with their arguments and variables, streams,
//! files to read from and files to write to.

use crate::ast::{
    all_borrow, assignments_view, borrows, lemma_inner_borrow, lemma_inner_view,
    lemma_stages_borrow, lemma_stages_view, nodes_view, redirects_view, AssignmentView, AstNode,
    AstView, Builtin, ChildPr, CommandView, Redir, Redirect, RedirectView, Subsh, SubshView,
};
use crate::builtins::{builtin_table, get_builtins, BuiltinCmd};
use crate::executor::readable_assignments;
use crate::token::{get_token_at, token_text, wf_part, wf_word};
use crate::vars::{ShellVars, VarMap};
use crate::word::{args_value, clean_args, cow_str, cows_view, eval_word, wf_words, word_value};
use std::borrow::Cow;
use vstd::prelude::*;
use vstd::string::*;
use vstd::utf8::*;

verus! {

broadcast use {vstd::string::group_string_axioms, vstd::seq::group_seq_axioms};

/// Where a process reads from or writes to.
#[derive(Debug, Clone, Copy, PartialEq, Eq, Structural)]
pub enum Stream {
    /// Where the shell itself does.
    Inherit,
    /// The pipe to its neighbour in a pipeline.
    Pipe,
    /// A pipe to the shell, which passes on what redirections ask for.
    Shell,
}

/// Something that a process is given to read.
#[derive(Debug)]
pub enum Feed {
    /// What a file holds. `shown` is what messages call the file.
    File { path: String, shown: String },
    /// A text.
    Text(String),
}

/// The mathematical value of a [`Feed`].
pub enum FeedView {
    File { path: Seq<char>, shown: Seq<char> },
    Text(Seq<char>),
}

impl View for Feed {
    type V = FeedView;

    open spec fn view(&self) -> FeedView {
        match *self {
            Feed::File { path, shown } => FeedView::File { path: path@, shown: shown@ },
            Feed::Text(t) => FeedView::Text(t@),
        }
    }
}

/// The values of some feeds.
pub open spec fn feeds_view(v: Seq<Feed>) -> Seq<FeedView> {
    Seq::new(v.len(), |i: int| v[i]@)
}

/// A file that output goes to.
#[derive(Debug)]
pub enum OutFile {
    /// What the file holds is replaced.
    Truncate(String),
    /// The output goes to the end of the file.
    Append(String),
    /// The redirection is none of output.
    NotOutput,
}

/// The mathematical value of an [`OutFile`].
pub enum OutFileView {
    Truncate(Seq<char>),
    Append(Seq<char>),
    NotOutput,
}

impl View for OutFile {
    type V = OutFileView;

    open spec fn view(&self) -> OutFileView {
        match *self {
            OutFile::Truncate(f) => OutFileView::Truncate(f@),
            OutFile::Append(f) => OutFileView::Append(f@),
            OutFile::NotOutput => OutFileView::NotOutput,
        }
    }
}

/// The values of some output files.
pub open spec fn outs_view(v: Seq<OutFile>) -> Seq<OutFileView> {
    Seq::new(v.len(), |i: int| v[i]@)
}

/// What one redirection of the input gives a process to read.
pub open spec fn feed_of(r: RedirectView, b: Seq<u8>, vars: VarMap) -> Seq<FeedView> {
    match r.dir {
        Redir::In => seq![
            FeedView::File { path: word_value(r.file, b, vars), shown: token_text(b, r.file[0]) },
        ],
        Redir::Heredoc => match r.heredoc {
            Some(t) => seq![FeedView::Text(t)],
            None => Seq::empty(),
        },
        _ => Seq::empty(),
    }
}

/// What redirections of the input give a process to read, in their order.
pub open spec fn feeds_of(rs: Seq<RedirectView>, b: Seq<u8>, vars: VarMap) -> Seq<FeedView>
    decreases rs.len(),
{
    if rs.len() == 0 {
        Seq::empty()
    } else {
        feeds_of(rs.drop_last(), b, vars) + feed_of(rs.last(), b, vars)
    }
}

/// The file that a redirection of the output leads to.
pub open spec fn out_of(r: RedirectView, b: Seq<u8>, vars: VarMap) -> OutFileView {
    match r.dir {
        Redir::Out => OutFileView::Truncate(word_value(r.file, b, vars)),
        Redir::Append => OutFileView::Append(word_value(r.file, b, vars)),
        _ => OutFileView::NotOutput,
    }
}

/// The files that redirections of the output lead to, in their order.
pub open spec fn outs_of(rs: Seq<RedirectView>, b: Seq<u8>, vars: VarMap) -> Seq<OutFileView> {
    Seq::new(rs.len(), |i: int| out_of(rs[i], b, vars))
}

/// Redirections of the input whose words can be read.
pub open spec fn readable_ins(b: Seq<u8>, rs: Seq<RedirectView>) -> bool {
    forall|i: int|
        0 <= i < rs.len() && (#[trigger] rs[i]).dir == Redir::In ==> rs[i].file.len() > 0
            && wf_word(b, rs[i].file)
}

/// Redirections of the output whose words can be read.
pub open spec fn readable_outs(b: Seq<u8>, rs: Seq<RedirectView>) -> bool {
    forall|i: int| 0 <= i < rs.len() ==> wf_word(b, (#[trigger] rs[i]).file)
}

/// What redirections of the input give a process to read.
pub fn redirect_feeds(redirects: &Vec<Redirect>, cmd_buf: &str, vars: &ShellVars) -> (r: Vec<Feed>)
    requires
        readable_ins(cmd_buf.spec_bytes(), redirects_view(redirects@)),
    ensures
        feeds_view(r@) == feeds_of(redirects_view(redirects@), cmd_buf.spec_bytes(), vars@),
{
    let ghost b = cmd_buf.spec_bytes();
    let ghost rs = redirects_view(redirects@);
    let mut feeds: Vec<Feed> = Vec::new();
    let mut i: usize = 0;
    assert(rs.take(0) =~= Seq::empty());
    assert(feeds_view(feeds@) =~= Seq::empty());
    while i < redirects.len()
        invariant
            i <= redirects@.len(),
            b == cmd_buf.spec_bytes(),
            rs == redirects_view(redirects@),
            readable_ins(b, rs),
            feeds_view(feeds@) == feeds_of(rs.take(i as int), b, vars@),
        decreases redirects@.len() - i,
    {
        let redirect = &redirects[i];
        let ghost before = feeds_view(feeds@);
        assert(rs[i as int] == redirect@);
        match redirect.dir {
            Redir::In => {
                assert(wf_part(b, rs[i as int].file[0]));
                let path = eval_word(&redirect.file, cmd_buf, vars);
                let shown = get_token_at(&redirect.file[0], cmd_buf).to_string();
                feeds.push(Feed::File { path, shown });
            },
            Redir::Heredoc => {
                if let Some(text) = &redirect.heredoc_file {
                    feeds.push(Feed::Text(text.clone()));
                }
            },
            _ => {},
        }
        assert(feeds_view(feeds@) =~= before + feed_of(rs[i as int], b, vars@));
        assert(rs.take(i + 1).drop_last() =~= rs.take(i as int));
        i += 1;
    }
    assert(rs.take(rs.len() as int) =~= rs);
    feeds
}

/// The files that redirections of the output lead to.
pub fn redirect_outs(redirects: &Vec<Redirect>, cmd_buf: &str, vars: &ShellVars) -> (r: Vec<
    OutFile,
>)
    requires
        readable_outs(cmd_buf.spec_bytes(), redirects_view(redirects@)),
    ensures
        outs_view(r@) == outs_of(redirects_view(redirects@), cmd_buf.spec_bytes(), vars@),
{
    let ghost b = cmd_buf.spec_bytes();
    let ghost rs = redirects_view(redirects@);
    let mut outs: Vec<OutFile> = Vec::new();
    let mut i: usize = 0;
    while i < redirects.len()
        invariant
            i <= redirects@.len(),
            b == cmd_buf.spec_bytes(),
            rs == redirects_view(redirects@),
            readable_outs(b, rs),
            outs@.len() == i,
            forall|k: int| 0 <= k < i ==> (#[trigger] outs@[k])@ == out_of(rs[k], b, vars@),
        decreases redirects@.len() - i,
    {
        let redirect = &redirects[i];
        assert(rs[i as int] == redirect@);
        let filename = eval_word(&redirect.file, cmd_buf, vars);
        match redirect.dir {
            Redir::Out => {
                outs.push(OutFile::Truncate(filename));
            },
            Redir::Append => {
                outs.push(OutFile::Append(filename));
            },
            _ => {
                outs.push(OutFile::NotOutput);
            },
        }
        i += 1;
    }
    assert(outs_view(outs@) =~= outs_of(rs, b, vars@));
    outs
}

/// What the user is told of the first file that cannot be read from, where `readable` says of
/// each feed whether it can.
pub open spec fn infile_error(feeds: Seq<FeedView>, readable: Seq<bool>) -> Option<Seq<char>>
    decreases feeds.len(),
{
    if feeds.len() == 0 {
        None
    } else {
        match infile_error(feeds.drop_last(), readable) {
            Some(e) => Some(e),
            None => match feeds.last() {
                FeedView::File { shown, .. } => if !readable[feeds.len() - 1] {
                    Some("ERR: "@ + shown + "... is not a valid file"@)
                } else {
                    None
                },
                FeedView::Text(_) => None,
            },
        }
    }
}

/// What the user is told of the first file that cannot be read from, where `readable` says of
/// each feed whether it can.
pub fn check_infiles(feeds: &Vec<Feed>, readable: &Vec<bool>) -> (r: Option<String>)
    requires
        feeds@.len() == readable@.len(),
    ensures
        infile_error(feeds_view(feeds@), readable@) == match r {
            Some(e) => Some(e@),
            None => None,
        },
{
    let ghost fs = feeds_view(feeds@);
    let mut i: usize = 0;
    assert(fs.take(0) =~= Seq::empty());
    while i < feeds.len()
        invariant
            i <= feeds@.len(),
            fs == feeds_view(feeds@),
            feeds@.len() == readable@.len(),
            infile_error(fs.take(i as int), readable@) is None,
        decreases feeds@.len() - i,
    {
        assert(fs.take(i + 1).drop_last() =~= fs.take(i as int));
        assert(fs.take(i + 1).last() == feeds@[i as int]@);
        if let Feed::File { shown, .. } = &feeds[i] {
            if !readable[i] {
                let e = invalid_infile(shown.as_str());
                proof {
                    lemma_infile_error(fs, readable@, i + 1);
                }
                return Some(e);
            }
        }
        i += 1;
    }
    assert(fs.take(fs.len() as int) =~= fs);
    None
}

/// The first file that cannot be read from decides.
proof fn lemma_infile_error(feeds: Seq<FeedView>, readable: Seq<bool>, k: int)
    requires
        0 <= k <= feeds.len(),
        infile_error(feeds.take(k), readable) is Some,
    ensures
        infile_error(feeds, readable) == infile_error(feeds.take(k), readable),
    decreases feeds.len(),
{
    if k == feeds.len() {
        assert(feeds.take(k) =~= feeds);
    } else {
        assert(feeds.drop_last().take(k) =~= feeds.take(k));
        lemma_infile_error(feeds.drop_last(), readable, k);
    }
}

/// What the user is told of a file that cannot be read from.
fn invalid_infile(shown: &str) -> (r: String)
    ensures
        r@ == "ERR: "@ + shown@ + "... is not a valid file"@,
{
    let mut r = "ERR: ".to_string();
    r.append(shown);
    r.append("... is not a valid file");
    r
}

/// A program to be run as a child process.
#[derive(Debug)]
pub struct Spawn {
    pub program: String,
    pub args: Vec<String>,
    /// Variables that are set for the process alone. A later one takes the place of an
    /// earlier one of the same name.
    pub env: Vec<(String, String)>,
    pub stdin: Stream,
    pub stdout: Stream,
    /// What the process is given to read, where its input is redirected.
    pub feeds: Vec<Feed>,
    /// Where its output goes, where that is redirected.
    pub outs: Vec<OutFile>,
}

/// The mathematical value of a [`Spawn`].
#[verifier::ext_equal]
pub struct SpawnView {
    pub program: Seq<char>,
    pub args: Seq<Seq<char>>,
    pub env: Seq<(Seq<char>, Seq<char>)>,
    pub stdin: Stream,
    pub stdout: Stream,
    pub feeds: Seq<FeedView>,
    pub outs: Seq<OutFileView>,
}

/// The texts of some strings.
pub open spec fn texts_view(v: Seq<String>) -> Seq<Seq<char>> {
    Seq::new(v.len(), |i: int| v[i]@)
}

/// The texts of some pairs of strings.
pub open spec fn pairs_view(v: Seq<(String, String)>) -> Seq<(Seq<char>, Seq<char>)> {
    Seq::new(v.len(), |i: int| (v[i].0@, v[i].1@))
}

impl View for Spawn {
    type V = SpawnView;

    open spec fn view(&self) -> SpawnView {
        SpawnView {
            program: self.program@,
            args: texts_view(self.args@),
            env: pairs_view(self.env@),
            stdin: self.stdin,
            stdout: self.stdout,
            feeds: feeds_view(self.feeds@),
            outs: outs_view(self.outs@),
        }
    }
}

/// The stream of a process: that of its redirections, if it has any.
pub open spec fn stream_of(redirects: Seq<RedirectView>, given: Stream) -> Stream {
    if redirects.len() > 0 {
        Stream::Shell
    } else {
        given
    }
}

/// Names and values of variables, each read on its own.
pub open spec fn env_of(env: Seq<AssignmentView>, b: Seq<u8>, vars: VarMap) -> Seq<
    (Seq<char>, Seq<char>),
> {
    Seq::new(
        env.len(),
        |i: int| (word_value(env[i].lhs, b, vars), word_value(env[i].rhs, b, vars)),
    )
}

/// What a command asks for: its first word names the program and the others are its
/// arguments. Files take the place of the streams that it is given.
pub open spec fn spawn_of(
    p: CommandView,
    stdin: Stream,
    stdout: Stream,
    vars: VarMap,
) -> SpawnView {
    let b = encode_utf8(p.text);
    let words = args_value(p.args, b, vars);
    SpawnView {
        program: words[0],
        args: words.skip(1),
        env: env_of(p.env, b, vars),
        stdin: stream_of(p.ins, stdin),
        stdout: stream_of(p.outs, stdout),
        feeds: feeds_of(p.ins, b, vars),
        outs: outs_of(p.outs, b, vars),
    }
}

/// A command whose words can be read.
pub open spec fn readable_command(p: CommandView) -> bool {
    let b = encode_utf8(p.text);
    &&& wf_words(b, p.args)
    &&& readable_ins(b, p.ins)
    &&& readable_outs(b, p.outs)
    &&& readable_assignments(p.text, p.env)
}

/// Copies of texts.
fn owned(v: &Vec<Cow<'_, str>>, from: usize) -> (r: Vec<String>)
    requires
        from <= v@.len(),
    ensures
        texts_view(r@) == cows_view(v@).skip(from as int),
{
    let mut r: Vec<String> = Vec::new();
    let mut i: usize = from;
    while i < v.len()
        invariant
            from <= i <= v@.len(),
            r@.len() == i - from,
            forall|k: int| 0 <= k < r@.len() ==> (#[trigger] r@[k])@ == v@[from + k]@,
        decreases v@.len() - i,
    {
        r.push(cow_str(&v[i]).to_string());
        i += 1;
    }
    assert(texts_view(r@) =~= cows_view(v@).skip(from as int));
    r
}

impl<'a> ChildPr<'a> {
    /// What is to be run, with the streams that it is given.
    pub fn spawn(&self, stdin: Stream, stdout: Stream, vars: &ShellVars) -> (r: Spawn)
        requires
            self@.args.len() > 0,
            readable_command(self@),
        ensures
            r@ == spawn_of(self@, stdin, stdout, vars@),
    {
        let cmd_buf = cow_str(&self.cmd_buf);
        let words = clean_args(&self.args, cmd_buf, vars);
        let ghost b = cmd_buf.spec_bytes();
        let ghost vals = args_value(self@.args, b, vars@);
        assert(vals.len() == words@.len());
        let program = cow_str(&words[0]).to_string();
        assert(program@ == vals[0]);
        let args = owned(&words, 1);
        let env = self.apply_env_vars(vars);
        let feeds = redirect_feeds(&self.redirect_ins, cmd_buf, vars);
        let outs = redirect_outs(&self.redirect_outs, cmd_buf, vars);
        Spawn {
            program,
            args,
            env,
            stdin: if self.redirect_ins.len() > 0 {
                Stream::Shell
            } else {
                stdin
            },
            stdout: if self.redirect_outs.len() > 0 {
                Stream::Shell
            } else {
                stdout
            },
            feeds,
            outs,
        }
    }

    /// The variables that are set for the process alone.
    fn apply_env_vars(&self, vars: &ShellVars) -> (r: Vec<(String, String)>)
        requires
            readable_assignments(self@.text, self@.env),
        ensures
            pairs_view(r@) == env_of(self@.env, encode_utf8(self@.text), vars@),
    {
        let cmd_buf = cow_str(&self.cmd_buf);
        let ghost b = cmd_buf.spec_bytes();
        let ghost env = self@.env;
        let mut pairs: Vec<(String, String)> = Vec::new();
        let mut i: usize = 0;
        while i < self.env_vars.len()
            invariant
                i <= self.env_vars@.len(),
                b == cmd_buf.spec_bytes(),
                cmd_buf@ == self@.text,
                env == assignments_view(self.env_vars@),
                readable_assignments(cmd_buf@, env),
                pairs@.len() == i,
                forall|k: int|
                    0 <= k < i ==> (#[trigger] pairs@[k]).0@ == word_value(env[k].lhs, b, vars@)
                        && pairs@[k].1@ == word_value(env[k].rhs, b, vars@),
            decreases self.env_vars@.len() - i,
        {
            assert(env[i as int] == self.env_vars@[i as int]@);
            let key = eval_word(&self.env_vars[i].lhs, cmd_buf, vars);
            let val = eval_word(&self.env_vars[i].rhs, cmd_buf, vars);
            pairs.push((key, val));
            i += 1;
        }
        assert(pairs_view(pairs@) =~= env_of(env, b, vars@));
        pairs
    }

    /// What is to be run and waited for, with the streams of the shell.
    pub fn status(&self, vars: &ShellVars) -> (r: Spawn)
        requires
            self@.args.len() > 0,
            readable_command(self@),
        ensures
            r@ == spawn_of(self@, Stream::Inherit, Stream::Inherit, vars@),
    {
        self.spawn(Stream::Inherit, Stream::Inherit, vars)
    }
}

/// A tree whose first command reads `rs` after what it already reads. Assignments read
/// nothing.
pub open spec fn fed(n: AstView, rs: Seq<RedirectView>) -> AstView
    decreases n,
{
    match n {
        AstView::Subshell(s) => AstView::Subshell(SubshView { ins: s.ins + rs, ..s }),
        AstView::Prog(p) => AstView::Prog(CommandView { ins: p.ins + rs, ..p }),
        AstView::Builtin(p) => AstView::Builtin(CommandView { ins: p.ins + rs, ..p }),
        AstView::Logical { lhs, operator, rhs } => AstView::Logical {
            lhs: Box::new(fed(*lhs, rs)),
            operator,
            rhs,
        },
        AstView::Pipeline(ps) => if ps.len() > 0 {
            AstView::Pipeline(ps.update(0, fed(ps[0], rs)))
        } else {
            n
        },
        AstView::Assignments { .. } => n,
    }
}

/// A tree that has a first command.
pub open spec fn has_first(n: AstView) -> bool
    decreases n,
{
    match n {
        AstView::Logical { lhs, operator, rhs } => has_first(*lhs),
        AstView::Pipeline(ps) => ps.len() > 0 && has_first(ps[0]),
        _ => true,
    }
}

/// Commands to be run in a shell of their own.
pub struct SubshSpawn<'a> {
    pub inner_ast: Vec<Box<AstNode<'a>>>,
    pub stdin: Stream,
    pub stdout: Stream,
    /// Where the output goes, where it is redirected.
    pub outs: Vec<OutFile>,
}

/// The mathematical value of a [`SubshSpawn`].
#[verifier::ext_equal]
pub struct SubshSpawnView {
    pub inner: Seq<AstView>,
    pub stdin: Stream,
    pub stdout: Stream,
    pub outs: Seq<OutFileView>,
}

impl<'a> View for SubshSpawn<'a> {
    type V = SubshSpawnView;

    open spec fn view(&self) -> SubshSpawnView {
        SubshSpawnView {
            inner: nodes_view(self.inner_ast@),
            stdin: self.stdin,
            stdout: self.stdout,
            outs: outs_view(self.outs@),
        }
    }
}

/// What a subshell asks for: its first command reads what its input is redirected from, and
/// its own output goes where it is redirected to.
pub open spec fn subsh_spawn_of(
    s: SubshView,
    stdin: Stream,
    stdout: Stream,
    vars: VarMap,
) -> SubshSpawnView {
    SubshSpawnView {
        inner: if s.ins.len() > 0 {
            s.inner.update(0, fed(s.inner[0], s.ins))
        } else {
            s.inner
        },
        stdin: stream_of(s.ins, stdin),
        stdout: stream_of(s.outs, stdout),
        outs: outs_of(s.outs, encode_utf8(s.text), vars),
    }
}

/// A subshell that can be run: a command is there to read what its input is redirected from.
pub open spec fn spawnable(s: SubshView) -> bool {
    &&& s.ins.len() > 0 ==> s.inner.len() > 0 && has_first(s.inner[0])
    &&& readable_outs(encode_utf8(s.text), s.outs)
}

impl<'a> Subsh<'a> {
    /// Has the first command of a tree read `redirects` after what it already reads.
    fn apply_redirect_in(redirects: Vec<Redirect>, first_node: Box<AstNode<'a>>) -> (r: Box<
        AstNode<'a>,
    >)
        requires
            has_first(first_node@),
        ensures
            r@ == fed(first_node@, redirects_view(redirects@)),
            borrows(*first_node) ==> borrows(*r),
        decreases first_node,
    {
        let ghost rs = redirects_view(redirects@);
        match *first_node {
            AstNode::Subshell(s) => {
                let mut sub = s;
                let mut more = redirects;
                proof {
                    lemma_inner_view(sub);
                }
                sub.redirect_ins.append(&mut more);
                proof {
                    lemma_inner_view(sub);
                    lemma_inner_borrow(s);
                    lemma_inner_borrow(sub);
                    assert(redirects_view(sub.redirect_ins@) =~= redirects_view(s.redirect_ins@)
                        + rs);
                }
                Box::new(AstNode::Subshell(sub))
            },
            AstNode::Prog(p) => {
                let mut prog = p;
                let mut more = redirects;
                prog.redirect_ins.append(&mut more);
                assert(redirects_view(prog.redirect_ins@) =~= redirects_view(p.redirect_ins@) + rs);
                Box::new(AstNode::Prog(prog))
            },
            AstNode::Builtin(p) => {
                let mut builtin = p;
                let mut more = redirects;
                builtin.redirect_ins.append(&mut more);
                assert(redirects_view(builtin.redirect_ins@) =~= redirects_view(p.redirect_ins@)
                    + rs);
                Box::new(AstNode::Builtin(builtin))
            },
            AstNode::Logical { lhs, operator, rhs } => Box::new(
                AstNode::Logical { lhs: Self::apply_redirect_in(redirects, lhs), operator, rhs },
            ),
            AstNode::Pipeline(ps) => {
                let ghost before = nodes_view(ps@);
                let mut stages = ps;
                proof {
                    lemma_stages_view(stages);
                    lemma_stages_borrow(stages);
                }
                let first = stages.remove(0);
                let fed_first = Self::apply_redirect_in(redirects, first);
                stages.insert(0, fed_first);
                proof {
                    lemma_stages_view(stages);
                    lemma_stages_borrow(stages);
                    assert(nodes_view(stages@) =~= before.update(0, fed(before[0], rs)));
                }
                Box::new(AstNode::Pipeline(stages))
            },
            AstNode::Assignments { assignments, cmd_buf } => Box::new(
                AstNode::Assignments { assignments, cmd_buf },
            ),
        }
    }

    /// What is to be run, with the streams that it is given.
    pub fn spawn(self, stdin: Stream, stdout: Stream, vars: &ShellVars) -> (r: SubshSpawn<'a>)
        requires
            spawnable(self@),
        ensures
            r@ == subsh_spawn_of(self@, stdin, stdout, vars@),
            all_borrow(self.inner_ast@) ==> all_borrow(r.inner_ast@),
    {
        let ghost s = self@;
        let outs = redirect_outs(&self.redirect_outs, cow_str(&self.cmd_buf), vars);
        let own_out = self.redirect_outs.len() > 0;
        let own_in = self.redirect_ins.len() > 0;
        let mut inner_ast = self.inner_ast;
        if own_in {
            let first = inner_ast.remove(0);
            assert(first@ == s.inner[0]);
            let fed_first = Self::apply_redirect_in(self.redirect_ins, first);
            inner_ast.insert(0, fed_first);
            assert(nodes_view(inner_ast@) =~= s.inner.update(0, fed(s.inner[0], s.ins)));
        }
        SubshSpawn {
            inner_ast,
            stdin: if own_in {
                Stream::Shell
            } else {
                stdin
            },
            stdout: if own_out {
                Stream::Shell
            } else {
                stdout
            },
            outs,
        }
    }

    /// What is to be run and waited for, with the streams of the shell.
    pub fn status(self, vars: &ShellVars) -> (r: SubshSpawn<'a>)
        requires
            spawnable(self@),
        ensures
            r@ == subsh_spawn_of(self@, Stream::Inherit, Stream::Inherit, vars@),
    {
        self.spawn(Stream::Inherit, Stream::Inherit, vars)
    }
}

/// What a stage of a pipeline runs.
pub enum Work<'a> {
    Builtin(Builtin<'a>),
    Prog(ChildPr<'a>),
    Subshell(Subsh<'a>),
    /// An assignment in a pipeline sets nothing.
    Nothing,
    /// A pipeline or a logical node cannot be a stage.
    Invalid,
}

/// The mathematical value of a [`Work`].
pub enum WorkView {
    Run(AstView),
    Nothing,
    Invalid,
}

impl<'a> View for Work<'a> {
    type V = WorkView;

    open spec fn view(&self) -> WorkView {
        match *self {
            Work::Builtin(p) => WorkView::Run(AstView::Builtin(p@)),
            Work::Prog(p) => WorkView::Run(AstView::Prog(p@)),
            Work::Subshell(s) => WorkView::Run(AstView::Subshell(s@)),
            Work::Nothing => WorkView::Nothing,
            Work::Invalid => WorkView::Invalid,
        }
    }
}

/// A stage of a pipeline with its streams.
pub struct Stage<'a> {
    pub work: Work<'a>,
    pub stdin: Stream,
    pub stdout: Stream,
}

/// The mathematical value of a [`Stage`].
pub struct StageView {
    pub work: WorkView,
    pub stdin: Stream,
    pub stdout: Stream,
}

impl<'a> View for Stage<'a> {
    type V = StageView;

    open spec fn view(&self) -> StageView {
        StageView { work: self.work@, stdin: self.stdin, stdout: self.stdout }
    }
}

/// The values of some stages.
pub open spec fn stages_view(v: Seq<Stage<'_>>) -> Seq<StageView> {
    Seq::new(v.len(), |i: int| v[i]@)
}

/// What a node runs as a stage of a pipeline.
pub open spec fn work_of(n: AstView) -> WorkView {
    match n {
        AstView::Builtin(_) | AstView::Prog(_) | AstView::Subshell(_) => WorkView::Run(n),
        AstView::Assignments { .. } => WorkView::Nothing,
        _ => WorkView::Invalid,
    }
}

/// Whether what a stage runs borrows its command buffer.
pub open spec fn work_borrows(w: Work<'_>) -> bool {
    match w {
        Work::Builtin(p) => p.cmd_buf is Borrowed,
        Work::Prog(p) => p.cmd_buf is Borrowed,
        Work::Subshell(s) => s.cmd_buf is Borrowed && all_borrow(s.inner_ast@),
        Work::Nothing | Work::Invalid => true,
    }
}

/// The pipe of a pipeline, where there is one.
pub open spec fn pipe_if(piped: bool) -> Stream {
    if piped {
        Stream::Pipe
    } else {
        Stream::Inherit
    }
}

/// The stages of a pipeline: every stage but the first reads from a pipe, and every stage
/// but the last writes to one.
pub open spec fn stages_of(ps: Seq<AstView>) -> Seq<StageView> {
    Seq::new(
        ps.len(),
        |i: int|
            StageView {
                work: work_of(ps[i]),
                stdin: pipe_if(i > 0),
                stdout: pipe_if(i + 1 < ps.len()),
            },
    )
}

/// The streams of a stage, the output first, given which pipes it has.
fn convert_pipe_fds(pipe_w: bool, pipe_r: bool) -> (r: (Stream, Stream))
    ensures
        r == (pipe_if(pipe_w), pipe_if(pipe_r)),
{
    (
        if pipe_w {
            Stream::Pipe
        } else {
            Stream::Inherit
        },
        if pipe_r {
            Stream::Pipe
        } else {
            Stream::Inherit
        },
    )
}

/// What a node runs as a stage of a pipeline.
fn stage_work<'a>(node: Box<AstNode<'a>>) -> (r: Work<'a>)
    ensures
        r@ == work_of(node@),
        borrows(*node) ==> work_borrows(r),
{
    match *node {
        AstNode::Builtin(p) => Work::Builtin(p),
        AstNode::Prog(p) => Work::Prog(p),
        AstNode::Subshell(s) => {
            proof {
                lemma_inner_view(s);
                lemma_inner_borrow(s);
            }
            Work::Subshell(s)
        },
        AstNode::Assignments { .. } => Work::Nothing,
        _ => Work::Invalid,
    }
}

/// The stages of a pipeline.
pub fn spawn_pipeline<'a>(progs: Vec<Box<AstNode<'a>>>) -> (r: Vec<Stage<'a>>)
    ensures
        stages_view(r@) == stages_of(nodes_view(progs@)),
        all_borrow(progs@) ==> forall|k: int|
            0 <= k < r@.len() ==> work_borrows((#[trigger] r@[k]).work),
{
    let ghost ps = nodes_view(progs@);
    let num_prog: usize = progs.len();
    let mut left = progs;
    let mut stages: Vec<Stage<'a>> = Vec::new();
    let mut i: usize = 0;
    while i < num_prog
        invariant
            i <= num_prog == ps.len(),
            left@.len() == num_prog - i,
            nodes_view(left@) == ps.skip(i as int),
            stages@.len() == i,
            forall|k: int| 0 <= k < i ==> (#[trigger] stages@[k])@ == stages_of(ps)[k],
            all_borrow(progs@) ==> all_borrow(left@) && forall|k: int|
                0 <= k < i ==> work_borrows((#[trigger] stages@[k]).work),
        decreases num_prog - i,
    {
        let ghost before = left@;
        let node = left.remove(0);
        proof {
            assert(node@ == nodes_view(before)[0]);
            assert(nodes_view(left@) =~= nodes_view(before).skip(1));
            assert(ps.skip(i as int).skip(1) =~= ps.skip(i + 1));
        }
        let last_child = i == num_prog - 1;
        let (stdout, stdin) = convert_pipe_fds(!last_child, i > 0);
        stages.push(Stage { work: stage_work(node), stdin, stdout });
        i += 1;
    }
    assert(stages_view(stages@) =~= stages_of(ps));
    stages
}

/// Where the output of a builtin command goes.
#[derive(Debug)]
pub enum Destination {
    Files(Vec<OutFile>),
    Pipe,
    Stdout,
}

/// The mathematical value of a [`Destination`].
pub enum DestinationView {
    Files(Seq<OutFileView>),
    Pipe,
    Stdout,
}

impl View for Destination {
    type V = DestinationView;

    open spec fn view(&self) -> DestinationView {
        match *self {
            Destination::Files(v) => DestinationView::Files(outs_view(v@)),
            Destination::Pipe => DestinationView::Pipe,
            Destination::Stdout => DestinationView::Stdout,
        }
    }
}

/// A builtin command with the words that it was called with, its own name first.
#[derive(Debug)]
pub struct BuiltinRun {
    pub cmd: BuiltinCmd,
    pub args: Vec<String>,
    pub dest: Destination,
}

/// Where the output of a builtin command goes: to files if it is redirected, else to the
/// pipe if there is one, else to where the shell writes.
pub open spec fn destination_of(p: CommandView, piped: bool, vars: VarMap) -> DestinationView {
    if p.outs.len() > 0 {
        DestinationView::Files(outs_of(p.outs, encode_utf8(p.text), vars))
    } else if piped {
        DestinationView::Pipe
    } else {
        DestinationView::Stdout
    }
}

impl<'a> Builtin<'a> {
    /// The builtin command that the first word names, if it names one.
    pub fn command(&self, vars: &ShellVars) -> (r: Option<BuiltinCmd>)
        requires
            self@.args.len() > 0,
            wf_word(encode_utf8(self@.text), self@.args[0]),
        ensures
            r == builtin_table().get(word_value(self@.args[0], encode_utf8(self@.text), vars@)),
    {
        let name = eval_word(&self.args[0], cow_str(&self.cmd_buf), vars);
        match get_builtins().get(name.as_str()) {
            Some(cmd) => Some(*cmd),
            None => None,
        }
    }

    /// What is to be run, and where its output goes.
    pub fn exec_builtin(&self, piped: bool, vars: &ShellVars) -> (r: BuiltinRun)
        requires
            self@.args.len() > 0,
            wf_words(encode_utf8(self@.text), self@.args),
            readable_outs(encode_utf8(self@.text), self@.outs),
            builtin_table().contains_key(
                word_value(self@.args[0], encode_utf8(self@.text), vars@),
            ),
        ensures
            r.cmd == builtin_table()[word_value(
                self@.args[0],
                encode_utf8(self@.text),
                vars@,
            )],
            texts_view(r.args@) == args_value(self@.args, encode_utf8(self@.text), vars@),
            r.dest@ == destination_of(self@, piped, vars@),
    {
        let cmd_buf = cow_str(&self.cmd_buf);
        let words = clean_args(&self.args, cmd_buf, vars);
        let args = owned(&words, 0);
        let ghost vals = args_value(self@.args, encode_utf8(self@.text), vars@);
        assert(vals.skip(0) =~= vals);
        assert(args@[0]@ == vals[0]);
        let builtins = get_builtins();
        let cmd = match builtins.get(args[0].as_str()) {
            Some(cmd) => *cmd,
            None => {
                assert(false);
                BuiltinCmd::Exit
            },
        };
        let dest = if self.redirect_outs.len() > 0 {
            Destination::Files(redirect_outs(&self.redirect_outs, cmd_buf, vars))
        } else if piped {
            Destination::Pipe
        } else {
            Destination::Stdout
        };
        BuiltinRun { cmd, args, dest }
    }
}

} // verus!
