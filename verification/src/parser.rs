//! A recursive descent parser for the shell's grammar.

use crate::ast::{
    all_borrow, assignments_view, borrows, lemma_inner_borrow, lemma_inner_view,
    lemma_stages_borrow, lemma_stages_view, nodes_view, redirects_view, wf_full_word, wf_nodes,
    Assignment, AstNode, AstView, Builtin, ChildPr, Redir, Redirect, Subsh,
};
use crate::builtins::get_builtins;
use crate::commands::{
    all_known, command_end, holds_in_order, known_by_name,
    law_builtins_are_known_by_their_first_word, law_commands_keep_their_order,
    law_parsed_builtins_are_known_by_name, no_paren, words_apart,
};
use crate::grammar::{
    assigned, assignment, eaten, file_name, first_doc, from_doc, items, joined, lemma_assigned,
    lemma_assigned_wf, lemma_items, lemma_list, lemma_past_separators, lemma_pipeline,
    lemma_program, lemma_simple, lemma_subshell, lemma_word, list, next_kind, no_items, parsed,
    past_blank, past_delimiter, past_doc, past_separators, pipeline, program, simple, stages,
    stepped, subshell, to_file, wf_items, wf_source, Cursor, Items, Source, SyntaxErrView,
};
use crate::lexer::strs_view;
use crate::token::{
    clone_spans, get_token_at, lemma_parts_view, spans_view, tkn_name, wf_part, wf_token, wf_tokens,
    Tkn, TknSpan, TknView,
};
use crate::vars::ShellVars;
use crate::word::{eval_word, words_view, Word};
use std::borrow::Cow;
use std::collections::VecDeque;
use vstd::prelude::*;
use vstd::string::*;
use vstd::utf8::*;

verus! {

broadcast use {vstd::string::group_string_axioms, vstd::seq::group_seq_axioms};

/// Why a sequence of tokens is refused.
#[derive(Debug)]
pub enum SyntaxErr {
    WrongToken { expected: Tkn, found: Tkn },
    MissingToken { expected: Tkn },
    InvalidForAssignment(String),
    UnendedAssignment,
    InvalidAssignment,
    NoInfile,
    NoOutfile,
    NoAppendFile,
    InvalidDelimiter,
    MissingDelimiter,
    BeforeSubshell(String),
    UnexpectedToken,
    EmptyArgs,
    AssignmentToSubshell,
    Incomplete,
    ExpectedSeparator(Tkn),
    ExpectedEnd(Tkn),
}

impl View for SyntaxErr {
    type V = SyntaxErrView;

    open spec fn view(&self) -> SyntaxErrView {
        match *self {
            SyntaxErr::WrongToken { expected, found } => SyntaxErrView::WrongToken {
                expected: expected@,
                found: found@,
            },
            SyntaxErr::MissingToken { expected } => SyntaxErrView::MissingToken {
                expected: expected@,
            },
            SyntaxErr::InvalidForAssignment(t) => SyntaxErrView::InvalidForAssignment(t@),
            SyntaxErr::UnendedAssignment => SyntaxErrView::UnendedAssignment,
            SyntaxErr::InvalidAssignment => SyntaxErrView::InvalidAssignment,
            SyntaxErr::NoInfile => SyntaxErrView::NoInfile,
            SyntaxErr::NoOutfile => SyntaxErrView::NoOutfile,
            SyntaxErr::NoAppendFile => SyntaxErrView::NoAppendFile,
            SyntaxErr::InvalidDelimiter => SyntaxErrView::InvalidDelimiter,
            SyntaxErr::MissingDelimiter => SyntaxErrView::MissingDelimiter,
            SyntaxErr::BeforeSubshell(t) => SyntaxErrView::BeforeSubshell(t@),
            SyntaxErr::UnexpectedToken => SyntaxErrView::UnexpectedToken,
            SyntaxErr::EmptyArgs => SyntaxErrView::EmptyArgs,
            SyntaxErr::AssignmentToSubshell => SyntaxErrView::AssignmentToSubshell,
            SyntaxErr::Incomplete => SyntaxErrView::Incomplete,
            SyntaxErr::ExpectedSeparator(k) => SyntaxErrView::ExpectedSeparator(k@),
            SyntaxErr::ExpectedEnd(k) => SyntaxErrView::ExpectedEnd(k@),
        }
    }
}

/// The word that a kind of token goes by where one is missing.
pub open spec fn kind_word(k: TknView) -> Seq<char> {
    match k {
        TknView::Literal => "Literal"@,
        TknView::RedirectIn => "RedirectIn"@,
        TknView::RedirectOut => "RedirectOut"@,
        TknView::RedirectAppend => "RedirectAppend"@,
        TknView::Heredoc => "Heredoc"@,
        TknView::Pipe => "Pipe"@,
        TknView::Backslash => "Backslash"@,
        TknView::CmdAnd => "CmdAnd"@,
        TknView::CmdOr => "CmdOr"@,
        TknView::Semicolon => "Semicolon"@,
        TknView::And => "And"@,
        TknView::Assign => "Assign"@,
        TknView::DoubleQuote(_) => "DoubleQuote"@,
        TknView::SingleQuote => "SingleQuote"@,
        TknView::Expansion => "Expansion"@,
        TknView::LParen => "LParen"@,
        TknView::RParen => "RParen"@,
        TknView::Newline => "Newline"@,
        TknView::Space => "Space"@,
        TknView::Word(_) => "Word"@,
    }
}

/// The word that a kind of token goes by where one is missing.
fn word_for(k: &Tkn) -> (r: &'static str)
    ensures
        r@ == kind_word(k@),
{
    match k {
        Tkn::Literal => "Literal",
        Tkn::RedirectIn => "RedirectIn",
        Tkn::RedirectOut => "RedirectOut",
        Tkn::RedirectAppend => "RedirectAppend",
        Tkn::Heredoc => "Heredoc",
        Tkn::Pipe => "Pipe",
        Tkn::Backslash => "Backslash",
        Tkn::CmdAnd => "CmdAnd",
        Tkn::CmdOr => "CmdOr",
        Tkn::Semicolon => "Semicolon",
        Tkn::And => "And",
        Tkn::Assign => "Assign",
        Tkn::DoubleQuote(_) => "DoubleQuote",
        Tkn::SingleQuote => "SingleQuote",
        Tkn::Expansion => "Expansion",
        Tkn::LParen => "LParen",
        Tkn::RParen => "RParen",
        Tkn::Newline => "Newline",
        Tkn::Space => "Space",
        Tkn::Word(_) => "Word",
    }
}

/// What the user is told of an error.
pub open spec fn error_message(e: SyntaxErrView) -> Seq<char> {
    match e {
        SyntaxErrView::WrongToken { expected, found } => "Syntax err: expected token of kind "@
            + tkn_name(expected) + " but got '"@ + tkn_name(found) + "'"@,
        SyntaxErrView::MissingToken { expected } => "Syntax err: missing token "@ + kind_word(
            expected,
        ),
        SyntaxErrView::InvalidForAssignment(t) => "Syntax ERR: "@ + t
            + " is an invalid token for assignment"@,
        SyntaxErrView::UnendedAssignment => "unreachable"@,
        SyntaxErrView::InvalidAssignment => "Syntax Err: invalid assignment"@,
        SyntaxErrView::NoInfile => "Couldn't find infile after >"@,
        SyntaxErrView::NoOutfile => "Couldn't find outfile after >"@,
        SyntaxErrView::NoAppendFile => "Couldn't find outfile after >>"@,
        SyntaxErrView::InvalidDelimiter => "unreachable: Invalid delimiter for heredoc"@,
        SyntaxErrView::MissingDelimiter => "unreachable: Expected heredoc delimiter, found EOF"@,
        SyntaxErrView::BeforeSubshell(t) => "Syntax Err: found '"@ + t
            + "...' before subshell start"@,
        SyntaxErrView::UnexpectedToken => "Syntax Err: unexpected tkn in expression"@,
        SyntaxErrView::EmptyArgs => "Syntax Err: empty args"@,
        SyntaxErrView::AssignmentToSubshell =>
            "Syntax Err: inline assignment outside of subshell"@,
        SyntaxErrView::Incomplete => "Syntax Err"@,
        SyntaxErrView::ExpectedSeparator(k) => "Syntax Err: expected \\n, ;, ||, or && but got '"@
            + tkn_name(k) + "'"@,
        SyntaxErrView::ExpectedEnd(k) =>
            "Syntax Err:\nwhile parsing, expected '\\n', ';', or ')', but got '"@ + tkn_name(k)
            + "'"@,
    }
}

/// Three texts, one after the other.
fn sandwich(before: &str, text: &str, after: &str) -> (r: String)
    ensures
        r@ == before@ + text@ + after@,
{
    let mut r = before.to_string();
    r.append(text);
    r.append(after);
    r
}

impl SyntaxErr {
    /// What the user is told of the error.
    pub fn message(&self) -> (r: String)
        ensures
            r@ == error_message(self@),
    {
        match self {
            SyntaxErr::WrongToken { expected, found } => {
                let mut r = sandwich(
                    "Syntax err: expected token of kind ",
                    expected.name(),
                    " but got '",
                );
                r.append(found.name());
                r.append("'");
                r
            },
            SyntaxErr::MissingToken { expected } => {
                let mut r = "Syntax err: missing token ".to_string();
                r.append(word_for(expected));
                r
            },
            SyntaxErr::InvalidForAssignment(t) => sandwich(
                "Syntax ERR: ",
                t.as_str(),
                " is an invalid token for assignment",
            ),
            SyntaxErr::UnendedAssignment => "unreachable".to_string(),
            SyntaxErr::InvalidAssignment => "Syntax Err: invalid assignment".to_string(),
            SyntaxErr::NoInfile => "Couldn't find infile after >".to_string(),
            SyntaxErr::NoOutfile => "Couldn't find outfile after >".to_string(),
            SyntaxErr::NoAppendFile => "Couldn't find outfile after >>".to_string(),
            SyntaxErr::InvalidDelimiter => "unreachable: Invalid delimiter for heredoc".to_string(),
            SyntaxErr::MissingDelimiter =>
                "unreachable: Expected heredoc delimiter, found EOF".to_string(),
            SyntaxErr::BeforeSubshell(t) => sandwich(
                "Syntax Err: found '",
                t.as_str(),
                "...' before subshell start",
            ),
            SyntaxErr::UnexpectedToken => "Syntax Err: unexpected tkn in expression".to_string(),
            SyntaxErr::EmptyArgs => "Syntax Err: empty args".to_string(),
            SyntaxErr::AssignmentToSubshell =>
                "Syntax Err: inline assignment outside of subshell".to_string(),
            SyntaxErr::Incomplete => "Syntax Err".to_string(),
            SyntaxErr::ExpectedSeparator(k) => sandwich(
                "Syntax Err: expected \\n, ;, ||, or && but got '",
                k.name(),
                "'",
            ),
            SyntaxErr::ExpectedEnd(k) => sandwich(
                "Syntax Err:\nwhile parsing, expected '\\n', ';', or ')', but got '",
                k.name(),
                "'",
            ),
        }
    }
}

/// The value of what a parsing function returns.
pub open spec fn outcome<T: View>(r: Result<T, SyntaxErr>) -> Result<T::V, SyntaxErrView> {
    match r {
        Ok(t) => Ok(t@),
        Err(e) => Err(e@),
    }
}

/// The value of what a parsing function returns that reads several nodes.
pub open spec fn outcomes<'a>(r: Result<Vec<Box<AstNode<'a>>>, SyntaxErr>) -> Result<
    Seq<AstView>,
    SyntaxErrView,
> {
    match r {
        Ok(v) => Ok(nodes_view(v@)),
        Err(e) => Err(e@),
    }
}

/// A parser over the tokens of a command buffer.
pub struct Parser<'a, 'v> {
    tkns: &'a [TknSpan],
    pos: usize,
    cur_tkn: Option<&'a TknSpan>,
    heredocs: VecDeque<&'a str>,
    cmd_buf: &'a str,
    vars: &'v ShellVars,
}

impl<'a, 'v> View for Parser<'a, 'v> {
    type V = Cursor;

    closed spec fn view(&self) -> Cursor {
        Cursor {
            pos: self.pos as int,
            cur: match self.cur_tkn {
                Some(t) => Some(t.kind@),
                None => None,
            },
            docs: strs_view(self.heredocs@),
        }
    }
}

impl<'a, 'v> Parser<'a, 'v> {
    /// What the parser reads.
    pub closed spec fn source(&self) -> Source {
        Source { ts: spans_view(self.tkns@), text: self.cmd_buf@, vars: self.vars@ }
    }

    /// The parser stands within tokens that can be read.
    pub open spec fn wf(&self) -> bool {
        &&& 0 <= self@.pos <= self.source().ts.len()
        &&& wf_source(self.source())
    }

    /// A parser before the first token.
    pub fn new(
        tkns: &'a [TknSpan],
        heredocs: VecDeque<&'a str>,
        cmd_buf: &'a str,
        vars: &'v ShellVars,
    ) -> (r: Self)
        requires
            wf_tokens(cmd_buf.spec_bytes(), spans_view(tkns@)),
        ensures
            r.wf(),
            r.source() == (Source { ts: spans_view(tkns@), text: cmd_buf@, vars: vars@ }),
            r@ == (Cursor { pos: 0, cur: None, docs: strs_view(heredocs@) }),
    {
        Parser { tkns, pos: 0, cur_tkn: None, heredocs, cmd_buf, vars }
    }

    /// The kind of the next token.
    fn peek(&self) -> (r: Option<&'a Tkn>)
        requires
            self.wf(),
        ensures
            match r {
                Some(k) => next_kind(self.source(), self@) == Some(k@),
                None => next_kind(self.source(), self@) is None,
            },
    {
        if self.pos < self.tkns.len() {
            Some(&self.tkns[self.pos].kind)
        } else {
            None
        }
    }

    /// Takes the next token.
    fn advance(&mut self) -> (r: Option<&'a TknSpan>)
        requires
            old(self).wf(),
        ensures
            final(self).wf(),
            final(self).source() == old(self).source(),
            final(self)@ == stepped(old(self).source(), old(self)@),
            match r {
                Some(t) => final(self)@.cur == Some(t.kind@),
                None => final(self)@.cur is None,
            },
    {
        if self.pos < self.tkns.len() {
            self.cur_tkn = Some(&self.tkns[self.pos]);
            self.pos += 1;
        } else {
            self.cur_tkn = None;
        }
        self.cur_tkn
    }

    /// Takes the next token, which must be `expected_type`.
    fn eat(&mut self, expected_type: Tkn) -> (r: Result<(), SyntaxErr>)
        requires
            old(self).wf(),
        ensures
            final(self).wf(),
            final(self).source() == old(self).source(),
            (final(self)@, outcome(r)) == eaten(old(self).source(), old(self)@, expected_type@),
    {
        match self.advance() {
            Some(tkn) => {
                if tkn.kind != expected_type {
                    return Err(
                        SyntaxErr::WrongToken { expected: expected_type, found: tkn.kind.clone() },
                    );
                }
                Ok(())
            },
            None => Err(SyntaxErr::MissingToken { expected: expected_type }),
        }
    }

    /// Takes the next token if it is blank.
    fn skip_blank(&mut self)
        requires
            old(self).wf(),
        ensures
            final(self).wf(),
            final(self).source() == old(self).source(),
            final(self)@ == past_blank(old(self).source(), old(self)@),
    {
        if let Some(Tkn::Space) = self.peek() {
            self.advance();
        }
    }

    /// Takes all separators that are next.
    fn ignore_next_program_delims(&mut self)
        requires
            old(self).wf(),
        ensures
            final(self).wf(),
            final(self).source() == old(self).source(),
            final(self)@ == past_separators(old(self).source(), old(self)@),
    {
        let ghost c = self.source();
        loop
            invariant
                self.wf(),
                self.source() == c,
                c == old(self).source(),
                past_separators(c, self@) == past_separators(c, old(self)@),
            ensures
                self.wf(),
                self.source() == c,
                self@ == past_separators(c, old(self)@),
            decreases c.ts.len() - self@.pos,
        {
            match self.peek() {
                Some(Tkn::Newline) | Some(Tkn::Semicolon) | Some(Tkn::Space) => {
                    self.advance();
                },
                _ => {
                    break;
                },
            }
        }
    }

    /// What is assigned to `lhs`, from the equals sign on.
    fn assign_to(&mut self, lhs: Word) -> (r: Result<Assignment, SyntaxErr>)
        requires
            old(self).wf(),
        ensures
            final(self).wf(),
            final(self).source() == old(self).source(),
            (final(self)@, outcome(r)) == assignment(
                old(self).source(),
                old(self)@,
                spans_view(lhs@),
            ),
    {
        let ghost c = self.source();
        let ghost l = spans_view(lhs@);
        match self.eat(Tkn::Assign) {
            Ok(_) => {},
            Err(e) => {
                return Err(e);
            },
        }
        let ghost s1 = self@;
        let mut rhs: Word = Vec::new();
        assert(spans_view(rhs@) =~= Seq::empty());
        loop
            invariant
                self.wf(),
                self.source() == c,
                c == old(self).source(),
                l == spans_view(lhs@),
                assignment(c, old(self)@, l) == assigned(c, s1, l, Seq::empty()),
                assigned(c, self@, l, spans_view(rhs@)) == assigned(c, s1, l, Seq::empty()),
            decreases c.ts.len() - self@.pos,
        {
            match self.peek() {
                None => {
                    return Err(SyntaxErr::UnendedAssignment);
                },
                Some(Tkn::Word(parts)) => {
                    proof {
                        lemma_parts_view(*parts);
                    }
                    rhs = clone_spans(parts);
                    self.advance();
                },
                Some(Tkn::Space) => {
                    if rhs.len() > 0 {
                        return Ok(Assignment { lhs, rhs });
                    }
                    self.advance();
                },
                Some(
                    Tkn::Newline
                    | Tkn::Semicolon
                    | Tkn::CmdOr
                    | Tkn::CmdAnd
                    | Tkn::RParen
                    | Tkn::Pipe,
                ) => {
                    return Ok(Assignment { lhs, rhs });
                },
                Some(_) => {
                    assert(wf_token(self.cmd_buf.spec_bytes(), c.ts[self@.pos]));
                    let text = get_token_at(&self.tkns[self.pos], self.cmd_buf);
                    return Err(SyntaxErr::InvalidForAssignment(text.to_string()));
                },
            }
        }
    }

    /// The file that stands after a redirection operator, or `missing`.
    fn redirect_file(&mut self, missing: SyntaxErr) -> (r: Result<Word, SyntaxErr>)
        requires
            old(self).wf(),
        ensures
            final(self).wf(),
            final(self).source() == old(self).source(),
            final(self)@ == file_name(old(self).source(), old(self)@, missing@).0,
            file_name(old(self).source(), old(self)@, missing@).1 == match r {
                Ok(w) => Ok(spans_view(w@)),
                Err(e) => Err(e@),
            },
    {
        self.skip_blank();
        match self.advance() {
            Some(t) => match &t.kind {
                Tkn::Word(parts) => {
                    proof {
                        lemma_parts_view(*parts);
                    }
                    Ok(clone_spans(parts))
                },
                _ => Err(missing),
            },
            None => Err(missing),
        }
    }

    /// The first here-document that is left.
    fn take_heredoc(&mut self) -> (r: String)
        requires
            old(self).wf(),
        ensures
            final(self).wf(),
            final(self).source() == old(self).source(),
            final(self)@ == past_doc(old(self)@),
            r@ == first_doc(old(self)@),
    {
        let ghost docs = self.heredocs@;
        match self.heredocs.pop_front() {
            Some(doc) => {
                assert(strs_view(self.heredocs@) =~= strs_view(docs).skip(1));
                doc.to_string()
            },
            None => {
                assert(strs_view(self.heredocs@) =~= strs_view(docs));
                String::new()
            },
        }
    }

    /// Takes the delimiter that stands after `<<`.
    fn skip_delimiter(&mut self) -> (r: Result<(), SyntaxErr>)
        requires
            old(self).wf(),
        ensures
            final(self).wf(),
            final(self).source() == old(self).source(),
            (final(self)@, outcome(r)) == past_delimiter(old(self).source(), old(self)@),
    {
        self.skip_blank();
        match self.peek() {
            Some(Tkn::Word(parts)) => {
                proof {
                    lemma_parts_view(*parts);
                }
                self.advance();
                Ok(())
            },
            Some(_) => Err(SyntaxErr::InvalidDelimiter),
            None => Err(SyntaxErr::MissingDelimiter),
        }
    }

    /// A simple command, an assignment or a subshell. It borrows the command buffer; it is
    /// builtin exactly if the value of its first word names a builtin command; and without a
    /// parenthesis its parts stand in the order of the tokens.
    #[verifier::rlimit(30)]
    pub fn expr(&mut self) -> (r: Result<Box<AstNode<'a>>, SyntaxErr>)
        requires
            old(self).wf(),
        ensures
            final(self).wf(),
            final(self).source() == old(self).source(),
            (final(self)@, outcome(r)) == simple(old(self).source(), old(self)@),
            r matches Ok(n) ==> borrows(*n),
            r matches Ok(n) ==> known_by_name(old(self).source().vars, n@),
            r matches Ok(n) ==> words_apart(old(self).source().ts) && no_paren(
                old(self).source().ts,
                old(self)@.pos,
                command_end(final(self)@),
            ) ==> holds_in_order(
                n@,
                old(self).source(),
                old(self)@,
                command_end(final(self)@),
            ),
        decreases old(self).source().ts.len() - old(self)@.pos, 1int,
    {
        let ghost c = self.source();
        let ghost b = self.cmd_buf.spec_bytes();
        let ghost s0 = self@;
        let mut redirect_ins: Vec<Redirect> = Vec::new();
        let mut redirect_outs: Vec<Redirect> = Vec::new();
        let mut args: Vec<Word> = Vec::new();
        let mut inner_ast: Option<Vec<Box<AstNode<'a>>>> = None;
        let mut env_vars: Vec<Assignment> = Vec::new();
        proof {
            assert(words_view(args@) =~= Seq::empty());
            assert(redirects_view(redirect_ins@) =~= Seq::empty());
            assert(redirects_view(redirect_outs@) =~= Seq::empty());
            assert(assignments_view(env_vars@) =~= Seq::empty());
            lemma_items(c, s0, no_items());
            law_builtins_are_known_by_their_first_word(c, s0);
            if words_apart(c.ts) && simple(c, s0).1 is Ok && no_paren(
                c.ts,
                s0.pos,
                command_end(simple(c, s0).0),
            ) {
                law_commands_keep_their_order(c, s0);
            }
        }
        loop
            invariant_except_break
                inner_ast matches Some(v) ==> all_borrow(v@),
                self.wf(),
                self.source() == c,
                self.cmd_buf.spec_bytes() == b,
                c == old(self).source(),
                s0 == old(self)@,
                s0.pos <= self@.pos,
                wf_items(
                    c.text,
                    found(&args, &redirect_ins, &redirect_outs, &inner_ast, &env_vars),
                ),
                items(
                    c,
                    self@,
                    found(&args, &redirect_ins, &redirect_outs, &inner_ast, &env_vars),
                ) == items(c, s0, no_items()),
            ensures
                inner_ast matches Some(v) ==> all_borrow(v@),
                self.wf(),
                self.source() == c,
                self.cmd_buf.spec_bytes() == b,
                wf_items(
                    c.text,
                    found(&args, &redirect_ins, &redirect_outs, &inner_ast, &env_vars),
                ),
                items(c, s0, no_items()).0 == self@,
                items(c, s0, no_items()).1 == Ok::<Items, SyntaxErrView>(
                    found(&args, &redirect_ins, &redirect_outs, &inner_ast, &env_vars),
                ),
            decreases c.ts.len() - self@.pos,
        {
            let ghost s = self@;
            let ghost it = found(&args, &redirect_ins, &redirect_outs, &inner_ast, &env_vars);
            let cur_tkn = match self.advance() {
                Some(t) => t,
                None => {
                    break;
                },
            };
            let ghost s1 = self@;
            proof {
                lemma_word(c, s);
                lemma_word(c, past_blank(c, s1));
            }
            match &cur_tkn.kind {
                Tkn::Word(parts) => {
                    proof {
                        lemma_parts_view(*parts);
                    }
                    let word: Word = clone_spans(parts);
                    self.skip_blank();
                    let ghost w = spans_view(word@);
                    if let Some(Tkn::Assign) = self.peek() {
                        proof {
                            lemma_assigned(c, stepped(c, self@), w, Seq::empty());
                            lemma_assigned_wf(c, stepped(c, self@), w, Seq::empty());
                        }
                        match self.assign_to(word) {
                            Ok(a) => {
                                env_vars.push(a);
                                assert(assignments_view(env_vars@) =~= it.env.push(a@));
                            },
                            Err(e) => {
                                return Err(e);
                            },
                        }
                    } else {
                        args.push(word);
                        assert(words_view(args@) =~= it.args.push(w));
                    }
                },
                Tkn::Assign => {
                    return Err(SyntaxErr::InvalidAssignment);
                },
                Tkn::RedirectIn => {
                    match self.redirect_file(SyntaxErr::NoInfile) {
                        Ok(file) => {
                            redirect_ins.push(
                                Redirect { dir: Redir::In, file, heredoc_file: None },
                            );
                            assert(redirects_view(redirect_ins@) =~= it.ins.push(
                                to_file(Redir::In, spans_view(file@)),
                            ));
                        },
                        Err(e) => {
                            return Err(e);
                        },
                    }
                },
                Tkn::RedirectOut => {
                    match self.redirect_file(SyntaxErr::NoOutfile) {
                        Ok(file) => {
                            redirect_outs.push(
                                Redirect { dir: Redir::Out, file, heredoc_file: None },
                            );
                            assert(redirects_view(redirect_outs@) =~= it.outs.push(
                                to_file(Redir::Out, spans_view(file@)),
                            ));
                        },
                        Err(e) => {
                            return Err(e);
                        },
                    }
                },
                Tkn::RedirectAppend => {
                    match self.redirect_file(SyntaxErr::NoAppendFile) {
                        Ok(file) => {
                            redirect_outs.push(
                                Redirect { dir: Redir::Append, file, heredoc_file: None },
                            );
                            assert(redirects_view(redirect_outs@) =~= it.outs.push(
                                to_file(Redir::Append, spans_view(file@)),
                            ));
                        },
                        Err(e) => {
                            return Err(e);
                        },
                    }
                },
                Tkn::Heredoc => {
                    let content = self.take_heredoc();
                    match self.skip_delimiter() {
                        Ok(_) => {
                            redirect_ins.push(
                                Redirect {
                                    dir: Redir::Heredoc,
                                    file: Vec::new(),
                                    heredoc_file: Some(content),
                                },
                            );
                            assert(redirects_view(redirect_ins@).last().file =~= Seq::empty());
                            assert(redirects_view(redirect_ins@) =~= it.ins.push(
                                from_doc(content@),
                            ));
                        },
                        Err(e) => {
                            return Err(e);
                        },
                    }
                },
                Tkn::LParen => {
                    if args.len() > 0 {
                        assert(words_view(args@)[0] == spans_view(args@[0]@));
                        assert(wf_full_word(c.text, it.args[0]));
                        assert(wf_part(b, it.args[0][0]));
                        let text = get_token_at(&args[0][0], self.cmd_buf);
                        return Err(SyntaxErr::BeforeSubshell(text.to_string()));
                    }
                    proof {
                        lemma_subshell(c, self@, Seq::empty());
                    }
                    match self.build_subshell() {
                        Ok(inner) => {
                            inner_ast = Some(inner);
                        },
                        Err(e) => {
                            return Err(e);
                        },
                    }
                },
                Tkn::Newline
                | Tkn::Semicolon
                | Tkn::CmdOr
                | Tkn::CmdAnd
                | Tkn::RParen
                | Tkn::Pipe => {
                    break;
                },
                Tkn::Space => {},
                _ => {
                    return Err(SyntaxErr::UnexpectedToken);
                },
            }
        }
        if args.len() == 0 && inner_ast.is_none() && env_vars.len() == 0 {
            return Err(SyntaxErr::EmptyArgs);
        }
        if inner_ast.is_some() && env_vars.len() > 0 {
            return Err(SyntaxErr::AssignmentToSubshell);
        }
        if let Some(inner_ast) = inner_ast {
            let sub = Subsh {
                cmd_buf: Cow::Borrowed(self.cmd_buf),
                inner_ast,
                redirect_ins,
                redirect_outs,
            };
            proof {
                lemma_inner_view(sub);
                lemma_inner_borrow(sub);
            }
            return Ok(Box::new(AstNode::Subshell(sub)));
        }
        if args.len() == 0 {
            return Ok(
                Box::new(
                    AstNode::Assignments {
                        assignments: env_vars,
                        cmd_buf: Cow::Borrowed(self.cmd_buf),
                    },
                ),
            );
        }
        assert(words_view(args@)[0] == spans_view(args@[0]@));
        let name = eval_word(&args[0], self.cmd_buf, self.vars);
        if get_builtins().contains_key(name.as_str()) {
            return Ok(
                Box::new(
                    AstNode::Builtin(
                        Builtin {
                            args,
                            cmd_buf: Cow::Borrowed(self.cmd_buf),
                            redirect_ins,
                            redirect_outs,
                        },
                    ),
                ),
            );
        }
        Ok(
            Box::new(
                AstNode::Prog(
                    ChildPr {
                        args,
                        cmd_buf: Cow::Borrowed(self.cmd_buf),
                        redirect_ins,
                        redirect_outs,
                        env_vars,
                    },
                ),
            ),
        )
    }

    /// The commands of a subshell, up to and with its closing parenthesis.
    fn build_subshell(&mut self) -> (r: Result<Vec<Box<AstNode<'a>>>, SyntaxErr>)
        requires
            old(self).wf(),
        ensures
            final(self).wf(),
            final(self).source() == old(self).source(),
            (final(self)@, outcomes(r)) == subshell(
                old(self).source(),
                old(self)@,
                Seq::empty(),
            ),
            r matches Ok(nodes) ==> all_borrow(nodes@),
        decreases old(self).source().ts.len() - old(self)@.pos, 4int,
    {
        let ghost c = self.source();
        let ghost s0 = self@;
        let mut subsh: Vec<Box<AstNode<'a>>> = Vec::new();
        assert(nodes_view(subsh@) =~= Seq::empty());
        loop
            invariant_except_break
                self.wf(),
                self.source() == c,
                c == old(self).source(),
                s0 == old(self)@,
                s0.pos <= self@.pos,
                subshell(c, self@, nodes_view(subsh@)) == subshell(c, s0, Seq::empty()),
                all_borrow(subsh@),
            ensures
                all_borrow(subsh@),
                self.wf(),
                self.source() == c,
                subshell(c, s0, Seq::empty()).0 == self@,
                subshell(c, s0, Seq::empty()).1 == Ok::<Seq<AstView>, SyntaxErrView>(
                    nodes_view(subsh@),
                ),
            decreases c.ts.len() - self@.pos,
        {
            let ghost s = self@;
            let ghost acc = nodes_view(subsh@);
            match self.cur_tkn {
                None => {
                    break;
                },
                Some(t) => {
                    if t.kind == Tkn::RParen {
                        break;
                    }
                },
            }
            proof {
                lemma_list(c, s);
            }
            match self.build_ast() {
                Ok(node) => {
                    subsh.push(node);
                    assert(nodes_view(subsh@) =~= acc.push(node@));
                },
                Err(e) => {
                    return Err(e);
                },
            }
            if let Some(t) = self.cur_tkn {
                if t.kind == Tkn::RParen {
                    break;
                }
            }
            proof {
                lemma_past_separators(c, self@);
            }
            self.ignore_next_program_delims();
            if let Some(Tkn::RParen) = self.peek() {
                match self.eat(Tkn::RParen) {
                    Ok(_) => {},
                    Err(e) => {
                        return Err(e);
                    },
                }
            }
        }
        Ok(subsh)
    }

    /// A simple command, or several of them joined by `|`.
    fn build_pipeline(&mut self) -> (r: Result<Box<AstNode<'a>>, SyntaxErr>)
        requires
            old(self).wf(),
        ensures
            final(self).wf(),
            final(self).source() == old(self).source(),
            (final(self)@, outcome(r)) == pipeline(old(self).source(), old(self)@),
            r matches Ok(n) ==> borrows(*n),
        decreases old(self).source().ts.len() - old(self)@.pos, 2int,
    {
        let ghost c = self.source();
        let ghost s0 = self@;
        proof {
            lemma_simple(c, s0);
        }
        let node = match self.expr() {
            Ok(node) => node,
            Err(e) => {
                return Err(e);
            },
        };
        let piped = match self.cur_tkn {
            Some(t) => t.kind == Tkn::Pipe,
            None => false,
        };
        if !piped {
            return Ok(node);
        }
        let ghost s1 = self@;
        let ghost first = seq![node@];
        let mut progs: Vec<Box<AstNode<'a>>> = Vec::new();
        progs.push(node);
        assert(nodes_view(progs@) =~= first);
        loop
            invariant_except_break
                self.wf(),
                self.source() == c,
                c == old(self).source(),
                s0 == old(self)@,
                s0.pos < s1.pos <= self@.pos,
                stages(c, self@, nodes_view(progs@)) == stages(c, s1, first),
                pipeline(c, s0) == stages(c, s1, first),
                all_borrow(progs@),
            ensures
                all_borrow(progs@),
                self.wf(),
                self.source() == c,
                stages(c, s1, first).0 == self@,
                stages(c, s1, first).1 == Ok::<AstView, SyntaxErrView>(
                    AstView::Pipeline(nodes_view(progs@)),
                ),
            decreases c.ts.len() - self@.pos,
        {
            let ghost s = self@;
            let ghost acc = nodes_view(progs@);
            match self.cur_tkn {
                None => {
                    break;
                },
                Some(t) => {
                    if t.kind != Tkn::Pipe {
                        break;
                    }
                },
            }
            proof {
                lemma_past_separators(c, s);
            }
            self.ignore_next_program_delims();
            proof {
                lemma_simple(c, self@);
            }
            match self.expr() {
                Ok(node) => {
                    progs.push(node);
                    assert(nodes_view(progs@) =~= acc.push(node@));
                },
                Err(e) => {
                    return Err(e);
                },
            }
        }
        proof {
            lemma_stages_view(progs);
            lemma_stages_borrow(progs);
        }
        Ok(Box::new(AstNode::Pipeline(progs)))
    }

    /// Pipelines joined by `&&` and `||`.
    fn build_ast(&mut self) -> (r: Result<Box<AstNode<'a>>, SyntaxErr>)
        requires
            old(self).wf(),
        ensures
            final(self).wf(),
            final(self).source() == old(self).source(),
            (final(self)@, outcome(r)) == list(old(self).source(), old(self)@),
            r matches Ok(n) ==> borrows(*n),
        decreases old(self).source().ts.len() - old(self)@.pos, 3int,
    {
        let ghost c = self.source();
        let ghost s0 = self@;
        proof {
            lemma_pipeline(c, s0);
        }
        let mut node = match self.build_pipeline() {
            Ok(node) => node,
            Err(e) => {
                return Err(e);
            },
        };
        let ghost s1 = self@;
        let ghost first = node@;
        loop
            invariant
                self.wf(),
                self.source() == c,
                c == old(self).source(),
                s0 == old(self)@,
                s0.pos < s1.pos <= self@.pos,
                joined(c, self@, node@) == joined(c, s1, first),
                list(c, s0) == joined(c, s1, first),
                borrows(*node),
            decreases c.ts.len() - self@.pos,
        {
            let ghost s = self@;
            let tkn_kind = match self.cur_tkn {
                None => {
                    return Err(SyntaxErr::Incomplete);
                },
                Some(t) => t.kind.clone(),
            };
            match &tkn_kind {
                Tkn::Newline | Tkn::Semicolon | Tkn::RParen => {
                    return Ok(node);
                },
                Tkn::CmdOr | Tkn::CmdAnd => {
                    proof {
                        lemma_past_separators(c, s);
                    }
                    self.ignore_next_program_delims();
                    proof {
                        lemma_pipeline(c, self@);
                    }
                    let rhs = match self.build_pipeline() {
                        Ok(rhs) => rhs,
                        Err(e) => {
                            return Err(e);
                        },
                    };
                    node = Box::new(AstNode::Logical { lhs: node, operator: tkn_kind, rhs });
                },
                _ => {
                    return Err(SyntaxErr::ExpectedSeparator(tkn_kind));
                },
            }
        }
    }

    /// All commands that the tokens are read as. They borrow the command buffer, and those of
    /// them are builtin whose first word has the value of a builtin command's name.
    pub fn parse(&mut self) -> (r: Result<Vec<Box<AstNode<'a>>>, SyntaxErr>)
        requires
            old(self).wf(),
        ensures
            final(self).wf(),
            final(self).source() == old(self).source(),
            (final(self)@, outcomes(r)) == parsed(old(self).source(), old(self)@),
            r matches Ok(nodes) ==> wf_nodes(old(self).source().text, nodes_view(nodes@)),
            r matches Ok(nodes) ==> all_borrow(nodes@),
            r matches Ok(nodes) ==> all_known(old(self).source().vars, nodes_view(nodes@)),
    {
        let ghost c = self.source();
        let mut executables: Vec<Box<AstNode<'a>>> = Vec::new();
        assert(nodes_view(executables@) =~= Seq::empty());
        self.ignore_next_program_delims();
        let ghost s0 = self@;
        proof {
            lemma_program(c, s0, Seq::empty());
            law_parsed_builtins_are_known_by_name(c, old(self)@);
        }
        loop
            invariant_except_break
                self.wf(),
                self.source() == c,
                c == old(self).source(),
                program(c, self@, nodes_view(executables@)) == program(c, s0, Seq::empty()),
                parsed(c, old(self)@) == program(c, s0, Seq::empty()),
                all_borrow(executables@),
            ensures
                all_borrow(executables@),
                self.wf(),
                self.source() == c,
                program(c, s0, Seq::empty()).0 == self@,
                program(c, s0, Seq::empty()).1 == Ok::<Seq<AstView>, SyntaxErrView>(
                    nodes_view(executables@),
                ),
            decreases c.ts.len() - self@.pos,
        {
            let ghost s = self@;
            let ghost acc = nodes_view(executables@);
            if self.peek().is_none() {
                break;
            }
            proof {
                lemma_list(c, s);
            }
            let node = match self.build_ast() {
                Ok(node) => node,
                Err(e) => {
                    return Err(e);
                },
            };
            match self.cur_tkn {
                None => {
                    return Err(SyntaxErr::Incomplete);
                },
                Some(t) => match &t.kind {
                    Tkn::Newline | Tkn::Semicolon | Tkn::RParen => {
                        executables.push(node);
                        assert(nodes_view(executables@) =~= acc.push(node@));
                        proof {
                            lemma_past_separators(c, self@);
                        }
                        self.ignore_next_program_delims();
                    },
                    _ => {
                        return Err(SyntaxErr::ExpectedEnd(t.kind.clone()));
                    },
                },
            }
        }
        Ok(executables)
    }
}

/// What a simple command has been found to hold.
spec fn found<'a>(
    args: &Vec<Word>,
    ins: &Vec<Redirect>,
    outs: &Vec<Redirect>,
    inner: &Option<Vec<Box<AstNode<'a>>>>,
    env: &Vec<Assignment>,
) -> Items {
    Items {
        args: words_view(args@),
        ins: redirects_view(ins@),
        outs: redirects_view(outs@),
        inner: match inner {
            Some(v) => Some(nodes_view(v@)),
            None => None,
        },
        env: assignments_view(env@),
    }
}

} // verus!
