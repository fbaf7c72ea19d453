//! The shell's grammar: which tree a sequence of tokens is read as, and why it is refused.
//!
//! The rules refer to one another. Each of them goes on only where reading has [`moved`], which
//! shows that they come to an end; the lemmas below show that it always has.

use crate::ast::{
    is_stage, wf_assignments, wf_ast, wf_full_word, wf_ins, wf_nodes, wf_outs, AssignmentView,
    AstView, CommandView, Redir, RedirectView, SubshView,
};
use crate::builtins::builtin_table;
use crate::token::{token_text, wf_token, wf_tokens, wf_word, TknSpanView, TknView};
use crate::vars::VarMap;
use crate::word::word_value;
use vstd::prelude::*;
use vstd::string::*;
use vstd::utf8::*;

verus! {

broadcast use vstd::seq::group_seq_axioms;

/// Why a sequence of tokens is refused.
pub enum SyntaxErrView {
    /// Another token was wanted.
    WrongToken { expected: TknView, found: TknView },
    /// A token was wanted and the command has ended.
    MissingToken { expected: TknView },
    /// This text cannot be assigned.
    InvalidForAssignment(Seq<char>),
    /// The command ends before an assignment does.
    UnendedAssignment,
    /// Nothing stands before an assignment.
    InvalidAssignment,
    /// No file stands after `<`.
    NoInfile,
    /// No file stands after `>`.
    NoOutfile,
    /// No file stands after `>>`.
    NoAppendFile,
    /// What stands after `<<` is no delimiter.
    InvalidDelimiter,
    /// Nothing stands after `<<`.
    MissingDelimiter,
    /// This text stands before a subshell.
    BeforeSubshell(Seq<char>),
    /// A token has no meaning in a command.
    UnexpectedToken,
    /// A command is empty.
    EmptyArgs,
    /// Variables are set for a subshell.
    AssignmentToSubshell,
    /// The command ends too early.
    Incomplete,
    /// This token stands where a command could end.
    ExpectedSeparator(TknView),
    /// This token stands where the commands could end.
    ExpectedEnd(TknView),
}

/// The tokens to be read, the text that they cover, and the variables that are set.
pub struct Source {
    pub ts: Seq<TknSpanView>,
    pub text: Seq<char>,
    pub vars: VarMap,
}

/// How far the tokens have been read: `pos` of them, the last attempt brought `cur`, and
/// these here-documents are left.
pub struct Cursor {
    pub pos: int,
    pub cur: Option<TknView>,
    pub docs: Seq<Seq<char>>,
}

/// Where reading has come to, and what was read or why it was refused.
pub type Parsed<T> = (Cursor, Result<T, SyntaxErrView>);

/// The kind of the next token.
pub open spec fn next_kind(c: Source, s: Cursor) -> Option<TknView> {
    if 0 <= s.pos < c.ts.len() {
        Some(c.ts[s.pos].kind)
    } else {
        None
    }
}

/// One token further.
pub open spec fn stepped(c: Source, s: Cursor) -> Cursor {
    Cursor {
        pos: if 0 <= s.pos < c.ts.len() {
            s.pos + 1
        } else {
            s.pos
        },
        cur: next_kind(c, s),
        docs: s.docs,
    }
}

/// Past a blank token, if one is next.
pub open spec fn past_blank(c: Source, s: Cursor) -> Cursor {
    if next_kind(c, s) == Some(TknView::Space) {
        stepped(c, s)
    } else {
        s
    }
}

/// A token that commands may be set apart by.
pub open spec fn is_separator(k: TknView) -> bool {
    k is Newline || k is Semicolon || k is Space
}

/// Past all separators that are next.
pub open spec fn past_separators(c: Source, s: Cursor) -> Cursor
    decreases c.ts.len() - s.pos,
{
    match next_kind(c, s) {
        Some(k) => if is_separator(k) {
            past_separators(c, stepped(c, s))
        } else {
            s
        },
        None => s,
    }
}

/// Skipping separators does not go back, and stays within the tokens.
pub proof fn lemma_past_separators(c: Source, s: Cursor)
    ensures
        s.pos <= past_separators(c, s).pos,
        s.pos <= c.ts.len() ==> past_separators(c, s).pos <= c.ts.len(),
        s.pos > c.ts.len() ==> past_separators(c, s) == s,
        past_separators(c, s).docs == s.docs,
        match next_kind(c, past_separators(c, s)) {
            Some(k) => !is_separator(k),
            None => true,
        },
        past_separators(c, s).cur == s.cur || {
            &&& past_separators(c, s).cur matches Some(k)
            &&& is_separator(k)
        },
    decreases c.ts.len() - s.pos,
{
    if let Some(k) = next_kind(c, s) {
        if is_separator(k) {
            lemma_past_separators(c, stepped(c, s));
        }
    }
}

/// A token that ends a simple command.
pub open spec fn ends_command(k: TknView) -> bool {
    k is Newline || k is Semicolon || k is CmdOr || k is CmdAnd || k is RParen || k is Pipe
}

/// A token that ends a list of commands joined by `&&`, `||` and `|`.
pub open spec fn ends_list(k: TknView) -> bool {
    k is Newline || k is Semicolon || k is RParen
}

/// Takes the next token, which must be of the kind `k`.
pub open spec fn eaten(c: Source, s: Cursor, k: TknView) -> Parsed<()> {
    let s1 = stepped(c, s);
    match s1.cur {
        Some(found) => if found == k {
            (s1, Ok(()))
        } else {
            (s1, Err(SyntaxErrView::WrongToken { expected: k, found }))
        },
        None => (s1, Err(SyntaxErrView::MissingToken { expected: k })),
    }
}

/// What is assigned to `lhs`: the next word, or nothing where the command ends first.
pub open spec fn assigned(
    c: Source,
    s: Cursor,
    lhs: Seq<TknSpanView>,
    rhs: Seq<TknSpanView>,
) -> Parsed<AssignmentView>
    decreases c.ts.len() - s.pos,
{
    match next_kind(c, s) {
        None => (s, Err(SyntaxErrView::UnendedAssignment)),
        Some(TknView::Word(w)) => assigned(c, stepped(c, s), lhs, w),
        Some(TknView::Space) => if rhs.len() > 0 {
            (s, Ok(AssignmentView { lhs, rhs }))
        } else {
            assigned(c, stepped(c, s), lhs, rhs)
        },
        Some(k) => if ends_command(k) {
            (s, Ok(AssignmentView { lhs, rhs }))
        } else {
            (
                s,
                Err(
                    SyntaxErrView::InvalidForAssignment(
                        token_text(encode_utf8(c.text), c.ts[s.pos]),
                    ),
                ),
            )
        },
    }
}

/// Reading what is assigned does not go back, and stays within the tokens.
pub proof fn lemma_assigned(
    c: Source,
    s: Cursor,
    lhs: Seq<TknSpanView>,
    rhs: Seq<TknSpanView>,
)
    ensures
        s.pos <= assigned(c, s, lhs, rhs).0.pos,
        s.pos <= c.ts.len() ==> assigned(c, s, lhs, rhs).0.pos <= c.ts.len(),
    decreases c.ts.len() - s.pos,
{
    match next_kind(c, s) {
        Some(TknView::Word(w)) => {
            lemma_assigned(c, stepped(c, s), lhs, w);
        },
        Some(TknView::Space) => {
            if rhs.len() == 0 {
                lemma_assigned(c, stepped(c, s), lhs, rhs);
            }
        },
        _ => {},
    }
}

/// An assignment to `lhs`, from its equals sign on.
pub open spec fn assignment(c: Source, s: Cursor, lhs: Seq<TknSpanView>) -> Parsed<AssignmentView> {
    match eaten(c, s, TknView::Assign) {
        (s1, Ok(_)) => assigned(c, s1, lhs, Seq::empty()),
        (s1, Err(e)) => (s1, Err(e)),
    }
}

/// What a simple command has been found to hold.
pub struct Items {
    pub args: Seq<Seq<TknSpanView>>,
    pub ins: Seq<RedirectView>,
    pub outs: Seq<RedirectView>,
    pub inner: Option<Seq<AstView>>,
    pub env: Seq<AssignmentView>,
}

/// A simple command that nothing has been found of.
pub open spec fn no_items() -> Items {
    Items {
        args: Seq::empty(),
        ins: Seq::empty(),
        outs: Seq::empty(),
        inner: None,
        env: Seq::empty(),
    }
}

/// A redirection to or from a file.
pub open spec fn to_file(dir: Redir, file: Seq<TknSpanView>) -> RedirectView {
    RedirectView { dir, file, heredoc: None }
}

/// A redirection from a here-document.
pub open spec fn from_doc(doc: Seq<char>) -> RedirectView {
    RedirectView { dir: Redir::Heredoc, file: Seq::empty(), heredoc: Some(doc) }
}

/// The file that stands after a redirection operator, or `missing`.
pub open spec fn file_name(c: Source, s: Cursor, missing: SyntaxErrView) -> Parsed<
    Seq<TknSpanView>,
> {
    let s1 = stepped(c, past_blank(c, s));
    match s1.cur {
        Some(TknView::Word(f)) => (s1, Ok(f)),
        _ => (s1, Err(missing)),
    }
}

/// The first here-document that is left; the empty text where none is.
pub open spec fn first_doc(s: Cursor) -> Seq<char> {
    if s.docs.len() > 0 {
        s.docs[0]
    } else {
        Seq::empty()
    }
}

/// Takes the first here-document that is left.
pub open spec fn past_doc(s: Cursor) -> Cursor {
    Cursor {
        docs: if s.docs.len() > 0 {
            s.docs.skip(1)
        } else {
            s.docs
        },
        ..s
    }
}

/// Past the delimiter that stands after `<<`.
pub open spec fn past_delimiter(c: Source, s: Cursor) -> Parsed<()> {
    let s1 = past_blank(c, s);
    match next_kind(c, s1) {
        Some(TknView::Word(_)) => (stepped(c, s1), Ok(())),
        Some(_) => (s1, Err(SyntaxErrView::InvalidDelimiter)),
        None => (s1, Err(SyntaxErrView::MissingDelimiter)),
    }
}

/// Whether reading has come from `s` to a later place `t`.
pub open spec fn moved(c: Source, s: Cursor, t: Cursor) -> bool {
    s.pos < t.pos <= c.ts.len()
}

/// What the rest of a simple command adds to `it`, up to and with the token that ends it.
pub open spec fn items(c: Source, s: Cursor, it: Items) -> Parsed<Items>
    decreases c.ts.len() - s.pos, 0int,
{
    let s1 = stepped(c, s);
    match s1.cur {
        None => (s1, Ok(it)),
        Some(TknView::Word(w)) => {
            let s2 = past_blank(c, s1);
            if next_kind(c, s2) == Some(TknView::Assign) {
                proof {
                    lemma_assigned(c, stepped(c, s2), w, Seq::empty());
                }
                match assignment(c, s2, w) {
                    (s3, Ok(a)) => items(c, s3, Items { env: it.env.push(a), ..it }),
                    (s3, Err(e)) => (s3, Err(e)),
                }
            } else {
                items(c, s2, Items { args: it.args.push(w), ..it })
            }
        },
        Some(TknView::Assign) => (s1, Err(SyntaxErrView::InvalidAssignment)),
        Some(TknView::RedirectIn) => match file_name(c, s1, SyntaxErrView::NoInfile) {
            (s2, Ok(f)) => items(c, s2, Items { ins: it.ins.push(to_file(Redir::In, f)), ..it }),
            (s2, Err(e)) => (s2, Err(e)),
        },
        Some(TknView::RedirectOut) => match file_name(c, s1, SyntaxErrView::NoOutfile) {
            (s2, Ok(f)) => items(c, s2, Items { outs: it.outs.push(to_file(Redir::Out, f)), ..it }),
            (s2, Err(e)) => (s2, Err(e)),
        },
        Some(TknView::RedirectAppend) => match file_name(c, s1, SyntaxErrView::NoAppendFile) {
            (s2, Ok(f)) => items(
                c,
                s2,
                Items { outs: it.outs.push(to_file(Redir::Append, f)), ..it },
            ),
            (s2, Err(e)) => (s2, Err(e)),
        },
        Some(TknView::Heredoc) => match past_delimiter(c, past_doc(s1)) {
            (s2, Ok(_)) => items(
                c,
                s2,
                Items { ins: it.ins.push(from_doc(first_doc(s1))), ..it },
            ),
            (s2, Err(e)) => (s2, Err(e)),
        },
        Some(TknView::LParen) => if it.args.len() > 0 {
            (
                s1,
                Err(
                    SyntaxErrView::BeforeSubshell(
                        token_text(encode_utf8(c.text), it.args[0][0]),
                    ),
                ),
            )
        } else {
            match subshell(c, s1, Seq::empty()) {
                (s2, Ok(inner)) => if moved(c, s, s2) {
                    items(c, s2, Items { inner: Some(inner), ..it })
                } else {
                    (s2, Err(SyntaxErrView::Incomplete))
                },
                (s2, Err(e)) => (s2, Err(e)),
            }
        },
        Some(TknView::Space) => items(c, s1, it),
        Some(k) => if ends_command(k) {
            (s1, Ok(it))
        } else {
            (s1, Err(SyntaxErrView::UnexpectedToken))
        },
    }
}

/// The node that a simple command makes.
pub open spec fn node_of(c: Source, it: Items) -> Result<AstView, SyntaxErrView> {
    let command = CommandView {
        text: c.text,
        args: it.args,
        ins: it.ins,
        outs: it.outs,
        env: it.env,
    };
    if it.args.len() == 0 && it.inner is None && it.env.len() == 0 {
        Err(SyntaxErrView::EmptyArgs)
    } else if it.inner is Some && it.env.len() > 0 {
        Err(SyntaxErrView::AssignmentToSubshell)
    } else if let Some(inner) = it.inner {
        Ok(AstView::Subshell(SubshView { text: c.text, inner, ins: it.ins, outs: it.outs }))
    } else if it.args.len() == 0 {
        Ok(AstView::Assignments { text: c.text, assignments: it.env })
    } else if builtin_table().contains_key(word_value(it.args[0], encode_utf8(c.text), c.vars)) {
        Ok(AstView::Builtin(CommandView { env: Seq::empty(), ..command }))
    } else {
        Ok(AstView::Prog(command))
    }
}

/// A simple command, an assignment or a subshell.
pub open spec fn simple(c: Source, s: Cursor) -> Parsed<AstView>
    decreases c.ts.len() - s.pos, 1int,
{
    match items(c, s, no_items()) {
        (s1, Ok(it)) => (s1, node_of(c, it)),
        (s1, Err(e)) => (s1, Err(e)),
    }
}

/// The commands of a subshell, after `acc`, up to and with its closing parenthesis.
pub open spec fn subshell(c: Source, s: Cursor, acc: Seq<AstView>) -> Parsed<Seq<AstView>>
    decreases c.ts.len() - s.pos, 4int,
{
    if s.cur is None || s.cur == Some(TknView::RParen) {
        (s, Ok(acc))
    } else {
        match list(c, s) {
            (s1, Err(e)) => (s1, Err(e)),
            (s1, Ok(node)) => if s1.cur == Some(TknView::RParen) {
                (s1, Ok(acc.push(node)))
            } else {
                let s2 = past_separators(c, s1);
                if next_kind(c, s2) == Some(TknView::RParen) {
                    (stepped(c, s2), Ok(acc.push(node)))
                } else if moved(c, s, s2) {
                    subshell(c, s2, acc.push(node))
                } else {
                    (s2, Err(SyntaxErrView::Incomplete))
                }
            },
        }
    }
}

/// A simple command, or several of them joined by `|`.
pub open spec fn pipeline(c: Source, s: Cursor) -> Parsed<AstView>
    decreases c.ts.len() - s.pos, 2int,
{
    match simple(c, s) {
        (s1, Err(e)) => (s1, Err(e)),
        (s1, Ok(node)) => if s1.cur != Some(TknView::Pipe) {
            (s1, Ok(node))
        } else if moved(c, s, s1) {
            stages(c, s1, seq![node])
        } else {
            (s1, Err(SyntaxErrView::Incomplete))
        },
    }
}

/// The rest of a pipeline that begins with `acc`.
pub open spec fn stages(c: Source, s: Cursor, acc: Seq<AstView>) -> Parsed<AstView>
    decreases c.ts.len() - s.pos, 2int,
{
    if s.cur != Some(TknView::Pipe) {
        (s, Ok(AstView::Pipeline(acc)))
    } else {
        let s0 = past_separators(c, s);
        proof {
            lemma_past_separators(c, s);
        }
        match simple(c, s0) {
            (s1, Err(e)) => (s1, Err(e)),
            (s1, Ok(node)) => if moved(c, s, s1) {
                stages(c, s1, acc.push(node))
            } else {
                (s1, Err(SyntaxErrView::Incomplete))
            },
        }
    }
}

/// Pipelines joined by `&&` and `||`, each operator taking all that stands before it as its
/// left side.
pub open spec fn list(c: Source, s: Cursor) -> Parsed<AstView>
    decreases c.ts.len() - s.pos, 3int,
{
    match pipeline(c, s) {
        (s1, Err(e)) => (s1, Err(e)),
        (s1, Ok(node)) => if moved(c, s, s1) {
            joined(c, s1, node)
        } else {
            (s1, Err(SyntaxErrView::Incomplete))
        },
    }
}

/// The rest of a list that begins with `node`.
pub open spec fn joined(c: Source, s: Cursor, node: AstView) -> Parsed<AstView>
    decreases c.ts.len() - s.pos, 3int,
{
    match s.cur {
        None => (s, Err(SyntaxErrView::Incomplete)),
        Some(k) => if ends_list(k) {
            (s, Ok(node))
        } else if k is CmdOr || k is CmdAnd {
            let s0 = past_separators(c, s);
            proof {
                lemma_past_separators(c, s);
            }
            match pipeline(c, s0) {
                (s1, Err(e)) => (s1, Err(e)),
                (s1, Ok(rhs)) => if moved(c, s, s1) {
                    joined(
                        c,
                        s1,
                        AstView::Logical { lhs: Box::new(node), operator: k, rhs: Box::new(rhs) },
                    )
                } else {
                    (s1, Err(SyntaxErrView::Incomplete))
                },
            }
        } else {
            (s, Err(SyntaxErrView::ExpectedSeparator(k)))
        },
    }
}

/// All commands that are left, after `acc`.
pub open spec fn program(c: Source, s: Cursor, acc: Seq<AstView>) -> Parsed<Seq<AstView>>
    decreases c.ts.len() - s.pos,
{
    if next_kind(c, s) is None {
        (s, Ok(acc))
    } else {
        match list(c, s) {
            (s1, Err(e)) => (s1, Err(e)),
            (s1, Ok(node)) => match s1.cur {
                None => (s1, Err(SyntaxErrView::Incomplete)),
                Some(k) => if !ends_list(k) {
                    (s1, Err(SyntaxErrView::ExpectedEnd(k)))
                } else {
                    let s2 = past_separators(c, s1);
                    if moved(c, s, s2) {
                        program(c, s2, acc.push(node))
                    } else {
                        (s2, Err(SyntaxErrView::Incomplete))
                    }
                },
            },
        }
    }
}

/// The commands that the tokens from `s` on are read as.
pub open spec fn parsed(c: Source, s: Cursor) -> Parsed<Seq<AstView>> {
    program(c, past_separators(c, s), Seq::empty())
}

/// A source whose tokens can be read.
pub open spec fn wf_source(c: Source) -> bool {
    wf_tokens(encode_utf8(c.text), c.ts)
}

/// Whether `t` is a place within the tokens and not before `s`.
pub open spec fn steady(c: Source, s: Cursor, t: Cursor) -> bool {
    s.pos <= t.pos <= c.ts.len()
}

/// What a simple command holds can be run.
pub open spec fn wf_items(text: Seq<char>, it: Items) -> bool {
    &&& forall|i: int| 0 <= i < it.args.len() ==> wf_full_word(text, #[trigger] it.args[i])
    &&& wf_ins(text, it.ins)
    &&& wf_outs(text, it.outs)
    &&& wf_assignments(text, it.env)
    &&& it.inner matches Some(inner) ==> inner.len() > 0 && wf_nodes(text, inner)
}

/// A word among the tokens can be read.
pub proof fn lemma_word(c: Source, s: Cursor)
    requires
        wf_source(c),
    ensures
        next_kind(c, s) matches Some(TknView::Word(w)) ==> wf_full_word(c.text, w),
{
    if 0 <= s.pos < c.ts.len() {
        assert(wf_token(encode_utf8(c.text), c.ts[s.pos]));
    }
}

/// What is assigned can be read.
pub proof fn lemma_assigned_wf(
    c: Source,
    s: Cursor,
    lhs: Seq<TknSpanView>,
    rhs: Seq<TknSpanView>,
)
    requires
        wf_source(c),
        wf_word(encode_utf8(c.text), rhs),
    ensures
        assigned(c, s, lhs, rhs).1 matches Ok(a) ==> a.lhs == lhs && wf_word(
            encode_utf8(c.text),
            a.rhs,
        ),
    decreases c.ts.len() - s.pos,
{
    lemma_word(c, s);
    match next_kind(c, s) {
        Some(TknView::Word(w)) => {
            lemma_assigned_wf(c, stepped(c, s), lhs, w);
        },
        Some(TknView::Space) => {
            if rhs.len() == 0 {
                lemma_assigned_wf(c, stepped(c, s), lhs, rhs);
            }
        },
        _ => {},
    }
}

/// A simple command is read without going back, and what it holds can be run.
pub proof fn lemma_items(c: Source, s: Cursor, it: Items)
    requires
        0 <= s.pos <= c.ts.len(),
        wf_source(c),
        wf_items(c.text, it),
    ensures
        steady(c, s, items(c, s, it).0),
        items(c, s, it).1 matches Ok(r) ==> {
            &&& wf_items(c.text, r)
            &&& s.pos < items(c, s, it).0.pos || r == it
            &&& items(c, s, it).0.cur matches Some(k) ==> ends_command(k)
        },
    decreases c.ts.len() - s.pos, 0int,
{
    let s1 = stepped(c, s);
    lemma_word(c, s);
    match s1.cur {
        Some(TknView::Word(w)) => {
            let s2 = past_blank(c, s1);
            if next_kind(c, s2) == Some(TknView::Assign) {
                let s3 = stepped(c, s2);
                lemma_assigned(c, s3, w, Seq::empty());
                lemma_assigned_wf(c, s3, w, Seq::empty());
                if let (s4, Ok(a)) = assignment(c, s2, w) {
                    let next = Items { env: it.env.push(a), ..it };
                    assert(wf_assignments(c.text, next.env));
                    lemma_items(c, s4, next);
                }
            } else {
                lemma_items(c, s2, Items { args: it.args.push(w), ..it });
            }
        },
        Some(TknView::RedirectIn) => {
            lemma_word(c, past_blank(c, s1));
            if let (s2, Ok(f)) = file_name(c, s1, SyntaxErrView::NoInfile) {
                let next = Items { ins: it.ins.push(to_file(Redir::In, f)), ..it };
                assert(wf_ins(c.text, next.ins));
                lemma_items(c, s2, next);
            }
        },
        Some(TknView::RedirectOut) => {
            lemma_word(c, past_blank(c, s1));
            if let (s2, Ok(f)) = file_name(c, s1, SyntaxErrView::NoOutfile) {
                let next = Items { outs: it.outs.push(to_file(Redir::Out, f)), ..it };
                assert(wf_outs(c.text, next.outs));
                lemma_items(c, s2, next);
            }
        },
        Some(TknView::RedirectAppend) => {
            lemma_word(c, past_blank(c, s1));
            if let (s2, Ok(f)) = file_name(c, s1, SyntaxErrView::NoAppendFile) {
                let next = Items { outs: it.outs.push(to_file(Redir::Append, f)), ..it };
                assert(wf_outs(c.text, next.outs));
                lemma_items(c, s2, next);
            }
        },
        Some(TknView::Heredoc) => {
            if let (s2, Ok(_)) = past_delimiter(c, past_doc(s1)) {
                let next = Items { ins: it.ins.push(from_doc(first_doc(s1))), ..it };
                assert(wf_ins(c.text, next.ins));
                lemma_items(c, s2, next);
            }
        },
        Some(TknView::LParen) => {
            if it.args.len() == 0 {
                lemma_subshell(c, s1, Seq::empty());
                if let (s2, Ok(inner)) = subshell(c, s1, Seq::empty()) {
                    lemma_items(c, s2, Items { inner: Some(inner), ..it });
                }
            }
        },
        Some(TknView::Space) => {
            lemma_items(c, s1, it);
        },
        _ => {},
    }
}

/// A simple command takes at least one token, and its node can be run.
pub proof fn lemma_simple(c: Source, s: Cursor)
    requires
        0 <= s.pos <= c.ts.len(),
        wf_source(c),
    ensures
        steady(c, s, simple(c, s).0),
        simple(c, s).1 matches Ok(node) ==> {
            &&& moved(c, s, simple(c, s).0)
            &&& wf_ast(c.text, node)
            &&& is_stage(node)
            &&& simple(c, s).0.cur matches Some(k) ==> ends_command(k)
        },
    decreases c.ts.len() - s.pos, 1int,
{
    lemma_items(c, s, no_items());
}

/// A subshell holds at least one command.
pub proof fn lemma_subshell(c: Source, s: Cursor, acc: Seq<AstView>)
    requires
        0 <= s.pos <= c.ts.len(),
        wf_source(c),
        wf_nodes(c.text, acc),
        s.cur matches Some(k) && !(k is RParen),
    ensures
        steady(c, s, subshell(c, s, acc).0),
        subshell(c, s, acc).1 matches Ok(inner) ==> {
            &&& moved(c, s, subshell(c, s, acc).0)
            &&& inner.len() > 0
            &&& wf_nodes(c.text, inner)
        },
    decreases c.ts.len() - s.pos, 4int,
{
    lemma_list(c, s);
    if let (s1, Ok(node)) = list(c, s) {
        assert(wf_nodes(c.text, acc.push(node)));
        lemma_past_separators(c, s1);
        let s2 = past_separators(c, s1);
        if s1.cur != Some(TknView::RParen) && next_kind(c, s2) != Some(TknView::RParen) {
            lemma_subshell(c, s2, acc.push(node));
        }
    }
}

/// A pipeline takes at least one token, and its node can be run.
pub proof fn lemma_pipeline(c: Source, s: Cursor)
    requires
        0 <= s.pos <= c.ts.len(),
        wf_source(c),
    ensures
        steady(c, s, pipeline(c, s).0),
        pipeline(c, s).1 matches Ok(node) ==> {
            &&& moved(c, s, pipeline(c, s).0)
            &&& wf_ast(c.text, node)
            &&& !(node is Logical)
            &&& pipeline(c, s).0.cur matches Some(k) ==> ends_command(k) && !(k is Pipe)
        },
    decreases c.ts.len() - s.pos, 2int,
{
    lemma_simple(c, s);
    if let (s1, Ok(node)) = simple(c, s) {
        if s1.cur == Some(TknView::Pipe) {
            lemma_stages(c, s1, seq![node]);
        }
    }
}

/// Stages that have been read.
pub open spec fn wf_stages(text: Seq<char>, acc: Seq<AstView>) -> bool {
    forall|i: int| 0 <= i < acc.len() ==> wf_ast(text, #[trigger] acc[i]) && is_stage(acc[i])
}

/// The rest of a pipeline makes a node that can be run.
pub proof fn lemma_stages(c: Source, s: Cursor, acc: Seq<AstView>)
    requires
        0 <= s.pos <= c.ts.len(),
        wf_source(c),
        wf_stages(c.text, acc),
        s.cur == Some(TknView::Pipe) ==> acc.len() >= 1,
        s.cur != Some(TknView::Pipe) ==> acc.len() >= 2,
        s.cur matches Some(k) ==> ends_command(k),
    ensures
        steady(c, s, stages(c, s, acc).0),
        stages(c, s, acc).1 matches Ok(node) ==> {
            &&& wf_ast(c.text, node)
            &&& node is Pipeline
            &&& stages(c, s, acc).0.cur matches Some(k) ==> ends_command(k) && !(k is Pipe)
        },
    decreases c.ts.len() - s.pos, 2int,
{
    if s.cur == Some(TknView::Pipe) {
        lemma_past_separators(c, s);
        let s0 = past_separators(c, s);
        lemma_simple(c, s0);
        if let (s1, Ok(node)) = simple(c, s0) {
            assert(wf_stages(c.text, acc.push(node)));
            lemma_stages(c, s1, acc.push(node));
        }
    }
}

/// A list takes at least one token, ends at a newline, a semicolon or a closing parenthesis,
/// and its node can be run.
pub proof fn lemma_list(c: Source, s: Cursor)
    requires
        0 <= s.pos <= c.ts.len(),
        wf_source(c),
    ensures
        steady(c, s, list(c, s).0),
        list(c, s).1 matches Ok(node) ==> {
            &&& moved(c, s, list(c, s).0)
            &&& wf_ast(c.text, node)
            &&& list(c, s).0.cur matches Some(k)
            &&& ends_list(k)
        },
    decreases c.ts.len() - s.pos, 3int,
{
    lemma_pipeline(c, s);
    if let (s1, Ok(node)) = pipeline(c, s) {
        lemma_joined(c, s1, node);
    }
}

/// The rest of a list makes a node that can be run.
pub proof fn lemma_joined(c: Source, s: Cursor, node: AstView)
    requires
        0 <= s.pos <= c.ts.len(),
        wf_source(c),
        wf_ast(c.text, node),
    ensures
        steady(c, s, joined(c, s, node).0),
        joined(c, s, node).1 matches Ok(n) ==> {
            &&& wf_ast(c.text, n)
            &&& joined(c, s, node).0.cur matches Some(k)
            &&& ends_list(k)
        },
    decreases c.ts.len() - s.pos, 3int,
{
    if let Some(k) = s.cur {
        if k is CmdOr || k is CmdAnd {
            lemma_past_separators(c, s);
            let s0 = past_separators(c, s);
            lemma_pipeline(c, s0);
            if let (s1, Ok(rhs)) = pipeline(c, s0) {
                lemma_joined(
                    c,
                    s1,
                    AstView::Logical { lhs: Box::new(node), operator: k, rhs: Box::new(rhs) },
                );
            }
        }
    }
}

/// The commands that are read can be run, and all tokens have been read.
pub proof fn lemma_program(c: Source, s: Cursor, acc: Seq<AstView>)
    requires
        0 <= s.pos <= c.ts.len(),
        wf_source(c),
        wf_nodes(c.text, acc),
    ensures
        steady(c, s, program(c, s, acc).0),
        program(c, s, acc).1 matches Ok(nodes) ==> {
            &&& wf_nodes(c.text, nodes)
            &&& program(c, s, acc).0.pos == c.ts.len()
        },
    decreases c.ts.len() - s.pos,
{
    if next_kind(c, s) is Some {
        lemma_list(c, s);
        if let (s1, Ok(node)) = list(c, s) {
            lemma_past_separators(c, s1);
            assert(wf_nodes(c.text, acc.push(node)));
            lemma_program(c, past_separators(c, s1), acc.push(node));
        }
    }
}

} // verus!
