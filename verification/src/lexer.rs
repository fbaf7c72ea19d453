//! From a command buffer to tokens.

use crate::ascii::{
    AMPERSAND, BACKSLASH, BACKTICK, BAR, DOLLAR, DOUBLE_QUOTE, EQUALS, GREATER, LEFT_PAREN, LESS,
    LINE_FEED, RIGHT_PAREN, SEMICOLON, SINGLE_QUOTE,
};
use crate::scan::{
    backtick, backtick_end, delimiter_line, double_quote, dquote, expansion_end, find_byte,
    find_delimiter_line, find_run_end, find_target, has_class, in_class, lemma_backtick_end,
    lemma_delimiter_line, lemma_dquote, lemma_expansion_end, lemma_find_byte,
    lemma_not_lone_backtick, lemma_run_end, parse_expansion, position_of, run_end, target_at,
    ByteClass, Target, TargetView,
};
use crate::text::{good_span, lemma_ascii_boundary, lemma_str_bytes, slice_str, text_of};
use crate::token::{
    get_token_at, lemma_parts_view, spans_view, token_text, wf_inner, wf_inners, wf_part, wf_token,
    wf_tokens, wf_word, Tkn, TknSpan, TknSpanView, TknView,
};
use crate::word::{cow_str, escape, escaped};
use std::collections::VecDeque;
use vstd::prelude::*;
use vstd::string::*;
use vstd::utf8::*;

verus! {

broadcast use {vstd::string::group_string_axioms, vstd::seq::group_seq_axioms};

/// What a lexer knows besides its place: here-documents that are due and found, and why it
/// stopped.
#[derive(Debug, Clone)]
pub struct LexerState<'a> {
    pub cmd_buf: &'a str,
    /// The delimiters of the here-documents that are due.
    pub delimiters: VecDeque<String>,
    /// Where the bodies of the here-documents begin and end.
    pub heredocs: Vec<(usize, usize)>,
    /// What is wrong with the command.
    pub syntax_err: Option<String>,
    /// The text that would close what is still open.
    pub expected_closer: Option<String>,
    /// What the command ends with and that wants more after it: `&&`, `||`, `|` or a backslash.
    pub continuation_for: Option<String>,
}

/// The mathematical value of a [`LexerState`].
pub struct LexView {
    /// The delimiters of the here-documents that are due, first one first.
    pub delimiters: Seq<Seq<char>>,
    /// Where the bodies of the here-documents lie.
    pub heredocs: Seq<(int, int)>,
    pub syntax_err: Option<Seq<char>>,
    pub expected_closer: Option<Seq<char>>,
    pub continuation_for: Option<Seq<char>>,
}

/// The text behind an optional string.
pub open spec fn opt_text(s: Option<String>) -> Option<Seq<char>> {
    match s {
        Some(s) => Some(s@),
        None => None,
    }
}

impl<'a> View for LexerState<'a> {
    type V = LexView;

    open spec fn view(&self) -> LexView {
        LexView {
            delimiters: Seq::new(self.delimiters@.len(), |i: int| self.delimiters@[i]@),
            heredocs: Seq::new(
                self.heredocs@.len(),
                |i: int| (self.heredocs@[i].0 as int, self.heredocs@[i].1 as int),
            ),
            syntax_err: opt_text(self.syntax_err),
            expected_closer: opt_text(self.expected_closer),
            continuation_for: opt_text(self.continuation_for),
        }
    }
}

/// The state that nothing has happened in yet.
pub open spec fn fresh_state() -> LexView {
    LexView {
        delimiters: Seq::empty(),
        heredocs: Seq::empty(),
        syntax_err: None,
        expected_closer: None,
        continuation_for: None,
    }
}

/// Bodies of here-documents that lie well in the text.
pub open spec fn wf_docs(b: Seq<u8>, docs: Seq<(int, int)>) -> bool {
    forall|i: int|
        0 <= i < docs.len() ==> good_span(b, (#[trigger] docs[i]).0, docs[i].1)
}

/// A state with the text that is missing noted.
pub open spec fn with_closer(st: LexView, c: Seq<char>) -> LexView {
    LexView { expected_closer: Some(c), ..st }
}

/// A token of one kind over a range of bytes.
pub open spec fn token(kind: TknView, start: int, end: int) -> Option<TknSpanView> {
    Some(TknSpanView { kind, start, end })
}

/// A state after a redirection operator has found no target.
pub open spec fn bad_target(
    st: LexView,
    operator: Seq<char>,
    closer: Option<Seq<char>>,
) -> LexView {
    LexView {
        syntax_err: Some("not a valid delimiter for "@ + operator),
        expected_closer: if closer is Some {
            closer
        } else {
            st.expected_closer
        },
        ..st
    }
}

/// A redirection operator of `width` bytes at `i`: it wants a target after it.
pub open spec fn redirect_at(
    b: Seq<u8>,
    i: int,
    width: int,
    kind: TknView,
    operator: Seq<char>,
    st: LexView,
) -> (LexView, Option<TknSpanView>) {
    match target_at(b, i + width) {
        TargetView::Bad(c) => (bad_target(st, operator, c), None),
        _ => (st, token(kind, i, i + width)),
    }
}

/// What a double-quoted delimiter reads as: escapes are replaced and expansions stand for
/// themselves.
pub open spec fn quoted_delimiter(ps: Seq<TknSpanView>, b: Seq<u8>) -> Seq<char>
    decreases ps.len(),
{
    if ps.len() == 0 {
        Seq::empty()
    } else {
        quoted_delimiter(ps.drop_last(), b) + (if ps.last().kind is Literal {
            escaped(token_text(b, ps.last()))
        } else {
            token_text(b, ps.last())
        })
    }
}

/// A state with one more here-document due.
pub open spec fn with_delimiter(st: LexView, d: Seq<char>) -> LexView {
    LexView { delimiters: st.delimiters.push(d), ..st }
}

/// A here-document operator at `i`: what stands after it is the delimiter.
pub open spec fn heredoc_at(b: Seq<u8>, i: int, st: LexView) -> (LexView, Option<TknSpanView>) {
    let t = token(TknView::Heredoc, i, i + 2);
    match target_at(b, i + 2) {
        TargetView::Plain(s, e) => (with_delimiter(st, text_of(b, s, e)), t),
        TargetView::DoubleQuote(ps) => (with_delimiter(st, quoted_delimiter(ps, b)), t),
        TargetView::SingleQuote(s, e) => (with_delimiter(st, text_of(b, s + 1, e - 1)), t),
        TargetView::Bad(c) => (bad_target(st, "<<"@, c), None),
    }
}

/// The bodies of the here-documents that are due, which begin at `i`, and where the text
/// after them begins; `None` where one has no end.
pub open spec fn bodies_at(b: Seq<u8>, i: int, st: LexView) -> (LexView, Option<int>)
    decreases st.delimiters.len(),
{
    if st.delimiters.len() == 0 {
        (st, Some(i))
    } else {
        let d = st.delimiters[0];
        let rest = LexView { delimiters: st.delimiters.skip(1), ..st };
        match delimiter_line(b, i, d) {
            None => (with_closer(rest, d), None),
            Some((end, next)) => bodies_at(
                b,
                next,
                LexView { heredocs: rest.heredocs.push((i, end)), ..rest },
            ),
        }
    }
}

/// The token that begins at `i`, and the state after it. There is none where something is
/// never closed, a redirection has no target, or a brace stands bare.
#[verifier::opaque]
pub open spec fn token_at(b: Seq<u8>, i: int, st: LexView) -> (LexView, Option<TknSpanView>) {
    let x = b[i];
    let doubled = i + 1 < b.len() && b[i + 1] == x;
    if in_class(ByteClass::Literal, x) {
        (st, token(TknView::Literal, i, run_end(b, i, ByteClass::Literal)))
    } else if in_class(ByteClass::Blank, x) {
        (st, token(TknView::Space, i, run_end(b, i, ByteClass::Blank)))
    } else if x == LESS {
        if doubled {
            heredoc_at(b, i, st)
        } else {
            redirect_at(b, i, 1, TknView::RedirectIn, "<"@, st)
        }
    } else if x == GREATER {
        if doubled {
            redirect_at(b, i, 2, TknView::RedirectAppend, ">>"@, st)
        } else {
            redirect_at(b, i, 1, TknView::RedirectOut, ">"@, st)
        }
    } else if x == BAR {
        (st, if doubled { token(TknView::CmdOr, i, i + 2) } else { token(TknView::Pipe, i, i + 1) })
    } else if x == AMPERSAND {
        (st, if doubled { token(TknView::CmdAnd, i, i + 2) } else { token(TknView::And, i, i + 1) })
    } else if x == BACKSLASH {
        (st, token(TknView::Backslash, i, i + 1))
    } else if x == SEMICOLON {
        (st, token(TknView::Semicolon, i, i + 1))
    } else if x == EQUALS {
        (st, token(TknView::Assign, i, i + 1))
    } else if x == DOUBLE_QUOTE {
        match dquote(b, i + 1) {
            Ok((ps, end)) => (st, token(TknView::DoubleQuote(ps), i, end)),
            Err(c) => (with_closer(st, c), None),
        }
    } else if x == SINGLE_QUOTE {
        match find_byte(b, i + 1, SINGLE_QUOTE) {
            Some(j) => (st, token(TknView::SingleQuote, i, j + 1)),
            None => (with_closer(st, "'"@), None),
        }
    } else if x == BACKTICK {
        match backtick_end(b, i + 1) {
            Some(j) => (st, token(TknView::Expansion, i, j + 1)),
            None => (with_closer(st, "`"@), None),
        }
    } else if x == DOLLAR {
        match expansion_end(b, i + 1) {
            Ok(end) => (st, token(TknView::Expansion, i, end)),
            Err(c) => (with_closer(st, c), None),
        }
    } else if x == LEFT_PAREN {
        if find_byte(b, i + 1, RIGHT_PAREN) is Some {
            (st, token(TknView::LParen, i, i + 1))
        } else {
            (with_closer(st, ")"@), None)
        }
    } else if x == RIGHT_PAREN {
        (st, token(TknView::RParen, i, i + 1))
    } else if x == LINE_FEED {
        match bodies_at(b, i + 1, st) {
            (after, Some(end)) => (after, token(TknView::Newline, i, end)),
            (after, None) => (after, None),
        }
    } else {
        (st, None)
    }
}

/// Bodies of here-documents lie between where they may begin and the end of the text.
pub proof fn lemma_bodies_at(b: Seq<u8>, i: int, st: LexView)
    requires
        0 <= i <= b.len(),
    ensures
        bodies_at(b, i, st).1 matches Some(end) ==> i <= end <= b.len(),
        valid_utf8(b) && is_char_boundary(b, i) && wf_docs(b, st.heredocs) ==> {
            &&& wf_docs(b, bodies_at(b, i, st).0.heredocs)
            &&& bodies_at(b, i, st).1 matches Some(end) ==> is_char_boundary(b, end)
        },
    decreases st.delimiters.len(),
{
    if st.delimiters.len() > 0 {
        let d = st.delimiters[0];
        lemma_delimiter_line(b, i, d);
        if let Some((end, next)) = delimiter_line(b, i, d) {
            let rest = LexView { delimiters: st.delimiters.skip(1), ..st };
            let after = LexView { heredocs: rest.heredocs.push((i, end)), ..rest };
            lemma_bodies_at(b, next, after);
            if valid_utf8(b) && is_char_boundary(b, i) && wf_docs(b, st.heredocs) {
                assert forall|k: int| 0 <= k < after.heredocs.len() implies good_span(
                    b,
                    (#[trigger] after.heredocs[k]).0,
                    after.heredocs[k].1,
                ) by {
                    if k < st.heredocs.len() {
                        assert(after.heredocs[k] == st.heredocs[k]);
                    }
                }
            }
        }
    }
}

/// A token covers at least one byte and stays in the text. It is not yet a word.
pub proof fn lemma_token_bounds(b: Seq<u8>, i: int, st: LexView)
    requires
        0 <= i < b.len(),
    ensures
        token_at(b, i, st).1 matches Some(t) ==> t.start == i && i < t.end <= b.len() && !(t.kind
            is Word),
{
    reveal(token_at);
    lemma_run_end(b, i, ByteClass::Literal);
    lemma_run_end(b, i, ByteClass::Blank);
    lemma_run_end(b, i + 1, ByteClass::Literal);
    lemma_run_end(b, i + 1, ByteClass::Blank);
    lemma_dquote(b, i + 1);
    lemma_find_byte(b, i + 1, SINGLE_QUOTE);
    lemma_backtick_end(b, i + 1);
    lemma_expansion_end(b, i + 1);
    lemma_bodies_at(b, i + 1, st);
}

/// A token of valid text can be read, and so can the here-documents that it brings.
pub proof fn lemma_token_wf(b: Seq<u8>, i: int, st: LexView)
    requires
        valid_utf8(b),
        0 <= i < b.len(),
        is_char_boundary(b, i),
        wf_docs(b, st.heredocs),
    ensures
        wf_docs(b, token_at(b, i, st).0.heredocs),
        token_at(b, i, st).1 matches Some(t) ==> wf_part(b, t),
{
    reveal(token_at);
    lemma_token_bounds(b, i, st);
    lemma_run_end(b, i, ByteClass::Literal);
    lemma_run_end(b, i, ByteClass::Blank);
    let x = b[i];
    if x <= 0x7f {
        lemma_ascii_boundary(b, i);
        if i + 1 < b.len() && b[i + 1] == x {
            lemma_ascii_boundary(b, i + 1);
        }
    }
    lemma_dquote(b, i + 1);
    lemma_find_byte(b, i + 1, SINGLE_QUOTE);
    lemma_backtick_end(b, i + 1);
    lemma_expansion_end(b, i + 1);
    lemma_bodies_at(b, i + 1, st);
    if let Some(j) = find_byte(b, i + 1, SINGLE_QUOTE) {
        lemma_ascii_boundary(b, j);
    }
    if let Some(j) = backtick_end(b, i + 1) {
        lemma_ascii_boundary(b, j);
    }
    if let Some(t) = token_at(b, i, st).1 {
        if t.kind is Expansion {
            lemma_not_lone_backtick(b, i, t.end);
        }
    }
}

impl<'a> LexerState<'a> {
    /// A state that belongs to its buffer.
    pub open spec fn wf(&self) -> bool {
        wf_docs(self.cmd_buf.spec_bytes(), self@.heredocs)
    }

    /// The state before the first token of `cmd_buf`.
    pub fn new(cmd_buf: &'a str) -> (r: Self)
        ensures
            r.cmd_buf == cmd_buf,
            r@ == fresh_state(),
            r.wf(),
    {
        let r = LexerState {
            cmd_buf,
            delimiters: VecDeque::new(),
            heredocs: Vec::new(),
            syntax_err: None,
            expected_closer: None,
            continuation_for: None,
        };
        assert(r@.delimiters =~= Seq::empty());
        assert(r@.heredocs =~= Seq::empty());
        r
    }

    /// Whether more input can complete the command: something is still open, or what it ends
    /// with wants more after it.
    pub fn wants_more(&self) -> (r: bool)
        ensures
            r == (self@.expected_closer is Some || self@.continuation_for is Some),
    {
        self.expected_closer.is_some() || self.continuation_for.is_some()
    }

    /// Notes the text that is missing.
    fn expect(&mut self, closer: &str)
        ensures
            final(self).cmd_buf == old(self).cmd_buf,
            final(self)@ == with_closer(old(self)@, closer@),
    {
        self.expected_closer = Some(closer.to_string());
        assert(self@.delimiters =~= old(self)@.delimiters);
        assert(self@.heredocs =~= old(self)@.heredocs);
    }

    /// Notes that a redirection operator has found no target.
    fn reject_target(&mut self, operator: &str, closer: Option<&'static str>)
        ensures
            final(self).cmd_buf == old(self).cmd_buf,
            final(self)@ == bad_target(
                old(self)@,
                operator@,
                match closer {
                    Some(c) => Some(c@),
                    None => None,
                },
            ),
    {
        let mut message = "not a valid delimiter for ".to_string();
        message.append(operator);
        self.syntax_err = Some(message);
        if let Some(c) = closer {
            self.expected_closer = Some(c.to_string());
        }
        assert(self@.delimiters =~= old(self)@.delimiters);
        assert(self@.heredocs =~= old(self)@.heredocs);
    }

    /// A redirection operator at `i`.
    fn redirect(&mut self, i: usize, end: usize, kind: Tkn, operator: &str) -> (r: Option<TknSpan>)
        requires
            i <= end <= old(self).cmd_buf.spec_bytes().len(),
            is_char_boundary(old(self).cmd_buf.spec_bytes(), end as int),
        ensures
            final(self).cmd_buf == old(self).cmd_buf,
            (final(self)@, opt_token(r)) == redirect_at(
                old(self).cmd_buf.spec_bytes(),
                i as int,
                end - i,
                kind@,
                operator@,
                old(self)@,
            ),
    {
        match find_target(self.cmd_buf, end) {
            Target::Bad(c) => {
                self.reject_target(operator, c);
                None
            },
            _ => Some(TknSpan { kind, span: i..end }),
        }
    }

    /// Notes that one more here-document is due.
    fn push_delimiter(&mut self, d: String)
        ensures
            final(self).cmd_buf == old(self).cmd_buf,
            final(self)@ == with_delimiter(old(self)@, d@),
    {
        self.delimiters.push_back(d);
        assert(self@.delimiters =~= old(self)@.delimiters.push(d@));
        assert(self@.heredocs =~= old(self)@.heredocs);
    }

    /// A here-document operator at `i`.
    fn heredoc(&mut self, i: usize, end: usize) -> (r: Option<TknSpan>)
        requires
            end == i + 2,
            end <= old(self).cmd_buf.spec_bytes().len(),
            is_char_boundary(old(self).cmd_buf.spec_bytes(), end as int),
        ensures
            final(self).cmd_buf == old(self).cmd_buf,
            (final(self)@, opt_token(r)) == heredoc_at(
                old(self).cmd_buf.spec_bytes(),
                i as int,
                old(self)@,
            ),
    {
        match find_target(self.cmd_buf, end) {
            Target::Plain(s, e) => {
                let d = slice_str(self.cmd_buf, s, e);
                self.push_delimiter(d.to_string());
            },
            Target::DoubleQuote(parts) => {
                let d = read_delimiter(&parts, self.cmd_buf);
                self.push_delimiter(d);
            },
            Target::SingleQuote(s, e) => {
                let d = slice_str(self.cmd_buf, s + 1, e - 1);
                self.push_delimiter(d.to_string());
            },
            Target::Bad(c) => {
                self.reject_target("<<", c);
                return None;
            },
        }
        Some(TknSpan { kind: Tkn::Heredoc, span: i..end })
    }

    /// The bodies of the here-documents that are due, from `i` on; where they end.
    fn newline(&mut self, i: usize) -> (r: Option<usize>)
        requires
            i <= old(self).cmd_buf.spec_bytes().len(),
            is_char_boundary(old(self).cmd_buf.spec_bytes(), i as int),
        ensures
            final(self).cmd_buf == old(self).cmd_buf,
            final(self)@ == bodies_at(
                old(self).cmd_buf.spec_bytes(),
                i as int,
                old(self)@,
            ).0,
            match r {
                Some(end) => bodies_at(
                    old(self).cmd_buf.spec_bytes(),
                    i as int,
                    old(self)@,
                ).1 == Some(end as int),
                None => bodies_at(
                    old(self).cmd_buf.spec_bytes(),
                    i as int,
                    old(self)@,
                ).1 is None,
            },
    {
        let cmd_buf = self.cmd_buf;
        let ghost b = cmd_buf.spec_bytes();
        let ghost first = self@;
        proof {
            lemma_str_bytes(cmd_buf);
        }
        let mut at: usize = i;
        loop
            invariant
                self.cmd_buf == cmd_buf,
                cmd_buf == old(self).cmd_buf,
                b == cmd_buf.spec_bytes(),
                first == old(self)@,
                valid_utf8(b),
                at <= b.len(),
                is_char_boundary(b, at as int),
                bodies_at(b, at as int, self@) == bodies_at(b, i as int, first),
            decreases self@.delimiters.len(),
        {
            let ghost before = self@;
            let ghost dels = self.delimiters@;
            match self.delimiters.pop_front() {
                None => {
                    assert(self@.delimiters =~= before.delimiters);
                    assert(self@ == before);
                    assert(before.delimiters.len() == 0);
                    return Some(at);
                },
                Some(delim) => {
                    let ghost rest = LexView { delimiters: before.delimiters.skip(1), ..before };
                    proof {
                        assert(before.delimiters[0] == delim@);
                        assert(self@.delimiters =~= before.delimiters.skip(1));
                        assert(self@.heredocs =~= before.heredocs);
                        assert(self@ == rest);
                        lemma_delimiter_line(b, at as int, delim@);
                    }
                    match find_delimiter_line(cmd_buf, at, delim.as_str()) {
                        None => {
                            self.expect(delim.as_str());
                            return None;
                        },
                        Some((end, next)) => {
                            self.heredocs.push((at, end));
                            proof {
                                assert(self@.delimiters =~= rest.delimiters);
                                assert(self@.heredocs =~= rest.heredocs.push(
                                    (at as int, end as int),
                                ));
                            }
                            at = next;
                        },
                    }
                },
            }
        }
    }

    /// The token that begins at `i`.
    pub fn next_token(&mut self, i: usize) -> (r: Option<TknSpan>)
        requires
            i < old(self).cmd_buf.spec_bytes().len(),
            is_char_boundary(old(self).cmd_buf.spec_bytes(), i as int),
        ensures
            final(self).cmd_buf == old(self).cmd_buf,
            (final(self)@, opt_token(r)) == token_at(
                old(self).cmd_buf.spec_bytes(),
                i as int,
                old(self)@,
            ),
    {
        let cmd_buf = self.cmd_buf;
        let bytes = cmd_buf.as_bytes();
        let ghost b = cmd_buf.spec_bytes();
        let n: usize = bytes.len();
        let x = bytes[i];
        let doubled = n - i >= 2 && bytes[i + 1] == x;
        proof {
            reveal(token_at);
            lemma_str_bytes(cmd_buf);
            if x <= 0x7f {
                lemma_ascii_boundary(b, i as int);
                if doubled {
                    lemma_ascii_boundary(b, i + 1);
                }
            }
        }
        if has_class(ByteClass::Literal, x) {
            Some(
                TknSpan { kind: Tkn::Literal, span: i..find_run_end(bytes, i, ByteClass::Literal) },
            )
        } else if has_class(ByteClass::Blank, x) {
            Some(TknSpan { kind: Tkn::Space, span: i..find_run_end(bytes, i, ByteClass::Blank) })
        } else if x == LESS {
            if doubled {
                self.heredoc(i, i + 2)
            } else {
                self.redirect(i, i + 1, Tkn::RedirectIn, "<")
            }
        } else if x == GREATER {
            if doubled {
                self.redirect(i, i + 2, Tkn::RedirectAppend, ">>")
            } else {
                self.redirect(i, i + 1, Tkn::RedirectOut, ">")
            }
        } else if x == BAR {
            if doubled {
                Some(TknSpan { kind: Tkn::CmdOr, span: i..i + 2 })
            } else {
                Some(TknSpan { kind: Tkn::Pipe, span: i..i + 1 })
            }
        } else if x == AMPERSAND {
            if doubled {
                Some(TknSpan { kind: Tkn::CmdAnd, span: i..i + 2 })
            } else {
                Some(TknSpan { kind: Tkn::And, span: i..i + 1 })
            }
        } else if x == BACKSLASH {
            Some(TknSpan { kind: Tkn::Backslash, span: i..i + 1 })
        } else if x == SEMICOLON {
            Some(TknSpan { kind: Tkn::Semicolon, span: i..i + 1 })
        } else if x == EQUALS {
            Some(TknSpan { kind: Tkn::Assign, span: i..i + 1 })
        } else if x == DOUBLE_QUOTE {
            match double_quote(cmd_buf, i + 1) {
                Ok((parts, end)) => {
                    proof {
                        lemma_parts_view(parts);
                    }
                    Some(TknSpan { kind: Tkn::DoubleQuote(parts), span: i..end })
                },
                Err(c) => {
                    self.expect(c);
                    None
                },
            }
        } else if x == SINGLE_QUOTE {
            match position_of(bytes, i + 1, SINGLE_QUOTE) {
                Some(j) => Some(TknSpan { kind: Tkn::SingleQuote, span: i..j + 1 }),
                None => {
                    self.expect("'");
                    None
                },
            }
        } else if x == BACKTICK {
            match backtick(bytes, i + 1) {
                Some(j) => Some(TknSpan { kind: Tkn::Expansion, span: i..j + 1 }),
                None => {
                    self.expect("`");
                    None
                },
            }
        } else if x == DOLLAR {
            match parse_expansion(cmd_buf, i + 1) {
                Ok(end) => Some(TknSpan { kind: Tkn::Expansion, span: i..end }),
                Err(c) => {
                    self.expect(c);
                    None
                },
            }
        } else if x == LEFT_PAREN {
            match position_of(bytes, i + 1, RIGHT_PAREN) {
                Some(_) => Some(TknSpan { kind: Tkn::LParen, span: i..i + 1 }),
                None => {
                    self.expect(")");
                    None
                },
            }
        } else if x == RIGHT_PAREN {
            Some(TknSpan { kind: Tkn::RParen, span: i..i + 1 })
        } else if x == LINE_FEED {
            match self.newline(i + 1) {
                Some(end) => Some(TknSpan { kind: Tkn::Newline, span: i..end }),
                None => None,
            }
        } else {
            None
        }
    }
}

/// The value of an optional token.
pub open spec fn opt_token(t: Option<TknSpan>) -> Option<TknSpanView> {
    match t {
        Some(t) => Some(t@),
        None => None,
    }
}

/// What a double-quoted delimiter reads as.
fn read_delimiter(parts: &Vec<TknSpan>, cmd_buf: &str) -> (r: String)
    requires
        wf_inners(cmd_buf.spec_bytes(), spans_view(parts@)),
    ensures
        r@ == quoted_delimiter(spans_view(parts@), cmd_buf.spec_bytes()),
{
    let ghost b = cmd_buf.spec_bytes();
    let ghost ps = spans_view(parts@);
    let mut delim = String::new();
    let mut i: usize = 0;
    assert(ps.take(0) =~= Seq::empty());
    while i < parts.len()
        invariant
            i <= parts@.len(),
            b == cmd_buf.spec_bytes(),
            ps == spans_view(parts@),
            wf_inners(b, ps),
            delim@ == quoted_delimiter(ps.take(i as int), b),
        decreases parts@.len() - i,
    {
        assert(wf_inner(b, ps[i as int]));
        let text = get_token_at(&parts[i], cmd_buf);
        match &parts[i].kind {
            Tkn::Literal => {
                let plain = escape(text);
                delim.append(cow_str(&plain));
            },
            _ => delim.append(text),
        }
        assert(ps.take(i + 1).drop_last() =~= ps.take(i as int));
        i += 1;
    }
    assert(ps.take(ps.len() as int) =~= ps);
    delim
}

/// The tokens from `i` to the end of the text, one after the other, and the state after them.
pub open spec fn raw_tokens(b: Seq<u8>, i: int, st: LexView) -> (LexView, Option<Seq<TknSpanView>>)
    decreases b.len() - i,
{
    if !(0 <= i < b.len()) {
        (st, Some(Seq::empty()))
    } else {
        proof {
            lemma_token_bounds(b, i, st);
        }
        match token_at(b, i, st) {
            (after, None) => (after, None),
            (after, Some(t)) => match raw_tokens(b, t.end, after) {
                (last, None) => (last, None),
                (last, Some(rest)) => (last, Some(seq![t] + rest)),
            },
        }
    }
}

/// A token that is a part of a word.
pub open spec fn is_part(k: TknView) -> bool {
    k is Literal || k is SingleQuote || k is Expansion || k is DoubleQuote
}

/// The word made of some parts; no parts make no word.
pub open spec fn word_of(parts: Seq<TknSpanView>) -> Seq<TknSpanView> {
    if parts.len() == 0 {
        Seq::empty()
    } else {
        seq![
            TknSpanView {
                kind: TknView::Word(parts),
                start: parts[0].start,
                end: parts.last().end,
            },
        ]
    }
}

/// The tokens with every run of parts made one word. `open` are the parts of a word that has
/// begun before them.
pub open spec fn grouped(ts: Seq<TknSpanView>, open: Seq<TknSpanView>) -> Seq<TknSpanView>
    decreases ts.len(),
{
    if ts.len() == 0 {
        word_of(open)
    } else if is_part(ts[0].kind) {
        grouped(ts.skip(1), open.push(ts[0]))
    } else {
        word_of(open) + seq![ts[0]] + grouped(ts.skip(1), Seq::empty())
    }
}

/// The last token, spaces and line ends aside, if it wants more after it: an operator that
/// wants another command, or a backslash.
pub open spec fn dangling(ts: Seq<TknSpanView>) -> Option<TknSpanView>
    decreases ts.len(),
{
    if ts.len() == 0 {
        None
    } else {
        match ts.last().kind {
            TknView::Space | TknView::Newline => dangling(ts.drop_last()),
            TknView::Pipe
            | TknView::CmdOr
            | TknView::CmdAnd
            | TknView::Backslash => Some(ts.last()),
            _ => None,
        }
    }
}

/// How many parentheses are open after some tokens.
pub open spec fn open_parens(ts: Seq<TknSpanView>) -> nat
    decreases ts.len(),
{
    if ts.len() == 0 {
        0
    } else {
        let before = open_parens(ts.drop_last());
        match ts.last().kind {
            TknView::LParen => before + 1,
            TknView::RParen => if before > 0 {
                (before - 1) as nat
            } else {
                0
            },
            _ => before,
        }
    }
}

/// The texts of the here-documents.
pub open spec fn doc_texts(b: Seq<u8>, docs: Seq<(int, int)>) -> Seq<Seq<char>> {
    Seq::new(docs.len(), |i: int| text_of(b, docs[i].0, docs[i].1))
}

/// What a command buffer is made of: its tokens and its here-documents, and the state that
/// the lexer is left in. There are no tokens where the command is not complete: it ends with
/// an operator or a backslash, a here-document has not begun, or a parenthesis is open.
pub open spec fn lexed(b: Seq<u8>, st: LexView) -> (
    LexView,
    Option<(Seq<TknSpanView>, Seq<Seq<char>>)>,
) {
    match raw_tokens(b, 0, st) {
        (after, None) => (after, None),
        (after, Some(raw)) => {
            let ts = grouped(raw, Seq::empty());
            match dangling(ts) {
                Some(t) => (
                    LexView { continuation_for: Some(token_text(b, t)), ..after },
                    None,
                ),
                None => if after.delimiters.len() > 0 {
                    (with_closer(after, after.delimiters[0]), None)
                } else if open_parens(ts) > 0 {
                    (with_closer(after, ")"@), None)
                } else {
                    (after, Some((ts, doc_texts(b, after.heredocs))))
                },
            }
        },
    }
}

/// Tokens that cover the bytes from `i` to `j` without a gap or an overlap.
pub open spec fn tiles(ts: Seq<TknSpanView>, i: int, j: int) -> bool
    decreases ts.len(),
{
    if ts.len() == 0 {
        i == j
    } else {
        ts[0].start == i && i < ts[0].end && tiles(ts.skip(1), ts[0].end, j)
    }
}

/// Tilings join.
pub proof fn lemma_tiles_join(a: Seq<TknSpanView>, c: Seq<TknSpanView>, i: int, j: int, k: int)
    requires
        tiles(a, i, j),
        tiles(c, j, k),
    ensures
        tiles(a + c, i, k),
        i <= j,
        a.len() > 0 ==> a[0].start == i && a.last().end == j && i < j,
    decreases a.len(),
{
    if a.len() == 0 {
        assert(a + c =~= c);
    } else {
        lemma_tiles_join(a.skip(1), c, a[0].end, j, k);
        assert((a + c).skip(1) =~= a.skip(1) + c);
    }
}

/// A word tiles what its parts tile.
proof fn lemma_word_of(b: Seq<u8>, parts: Seq<TknSpanView>, i: int, j: int)
    requires
        tiles(parts, i, j),
        wf_word(b, parts),
    ensures
        tiles(word_of(parts), i, j),
        wf_tokens(b, word_of(parts)),
{
    reveal_with_fuel(tiles, 2);
    lemma_tiles_join(parts, Seq::empty(), i, j, j);
    if parts.len() > 0 {
        assert(wf_part(b, parts[0]));
        assert(wf_part(b, parts.last()));
        assert(word_of(parts).skip(1) =~= Seq::empty());
    }
}

/// Grouping keeps a tiling, and keeps tokens readable.
proof fn lemma_grouped(
    b: Seq<u8>,
    ts: Seq<TknSpanView>,
    open: Seq<TknSpanView>,
    i: int,
    j: int,
    k: int,
)
    requires
        tiles(open, i, j),
        tiles(ts, j, k),
        wf_word(b, open),
        wf_word(b, ts),
        forall|m: int| 0 <= m < ts.len() ==> !((#[trigger] ts[m]).kind is Word),
    ensures
        tiles(grouped(ts, open), i, k),
        wf_tokens(b, grouped(ts, open)),
    decreases ts.len(),
{
    if ts.len() == 0 {
        lemma_word_of(b, open, i, j);
    } else {
        let t = ts[0];
        let rest = ts.skip(1);
        assert(wf_part(b, ts[0]));
        assert forall|m: int| 0 <= m < rest.len() implies #[trigger] wf_part(b, rest[m]) by {
            assert(wf_part(b, ts[m + 1]));
        }
        let one = seq![t];
        assert(tiles(one, j, t.end)) by {
            reveal_with_fuel(tiles, 2);
            assert(one.skip(1) =~= Seq::empty());
        }
        if is_part(t.kind) {
            lemma_tiles_join(open, one, i, j, t.end);
            assert(open.push(t) =~= open + one);
            assert forall|m: int| 0 <= m < open.push(t).len() implies #[trigger] wf_part(
                b,
                open.push(t)[m],
            ) by {
                if m < open.len() {
                    assert(wf_part(b, open[m]));
                }
            }
            lemma_grouped(b, rest, open.push(t), i, t.end, k);
        } else {
            let w = word_of(open);
            let g = grouped(rest, Seq::empty());
            lemma_word_of(b, open, i, j);
            lemma_grouped(b, rest, Seq::empty(), t.end, t.end, k);
            lemma_tiles_join(w, one, i, j, t.end);
            lemma_tiles_join(w + one, g, i, t.end, k);
            let all = w + one + g;
            assert forall|m: int| 0 <= m < all.len() implies #[trigger] wf_token(b, all[m]) by {
                if m < w.len() {
                    assert(wf_token(b, w[m]));
                } else if m > w.len() {
                    assert(wf_token(b, g[m - w.len() - 1]));
                }
            }
        }
    }
}

/// The tokens of a valid text tile it and can be read.
proof fn lemma_raw_tokens(b: Seq<u8>, i: int, st: LexView)
    requires
        valid_utf8(b),
        0 <= i <= b.len(),
        is_char_boundary(b, i),
        wf_docs(b, st.heredocs),
    ensures
        wf_docs(b, raw_tokens(b, i, st).0.heredocs),
        raw_tokens(b, i, st).1 matches Some(ts) ==> {
            &&& tiles(ts, i, b.len() as int)
            &&& wf_word(b, ts)
            &&& forall|m: int| 0 <= m < ts.len() ==> !((#[trigger] ts[m]).kind is Word)
        },
    decreases b.len() - i,
{
    if i < b.len() {
        lemma_token_bounds(b, i, st);
        lemma_token_wf(b, i, st);
        if let (after, Some(t)) = token_at(b, i, st) {
            lemma_raw_tokens(b, t.end, after);
            if let (_, Some(rest)) = raw_tokens(b, t.end, after) {
                let ts = seq![t] + rest;
                assert(ts.skip(1) =~= rest);
                assert forall|m: int| 0 <= m < ts.len() implies #[trigger] wf_part(b, ts[m]) by {
                    if m > 0 {
                        assert(wf_part(b, rest[m - 1]));
                    }
                }
            }
        }
    }
}

/// The tokens that the lexer finds cover the whole buffer, in order and without a gap or an
/// overlap, and each of them can be read. So can the here-documents.
pub proof fn law_tokens_cover_the_buffer(b: Seq<u8>, st: LexView)
    requires
        valid_utf8(b),
        wf_docs(b, st.heredocs),
    ensures
        wf_docs(b, lexed(b, st).0.heredocs),
        lexed(b, st).1 matches Some((ts, _)) ==> tiles(ts, 0, b.len() as int) && wf_tokens(b, ts),
{
    is_char_boundary_start_end_of_seq(b);
    lemma_raw_tokens(b, 0, st);
    if let (_, Some(raw)) = raw_tokens(b, 0, st) {
        lemma_grouped(b, raw, Seq::empty(), 0, 0, b.len() as int);
    }
}

/// Closes the word that is open, if one is.
fn close_word(tkns: &mut Vec<TknSpan>, word_parts: Vec<TknSpan>)
    ensures
        spans_view(final(tkns)@) == spans_view(old(tkns)@) + word_of(spans_view(word_parts@)),
{
    let ghost parts = spans_view(word_parts@);
    let n: usize = word_parts.len();
    if n > 0 {
        let start = word_parts[0].span.start;
        let end = word_parts[n - 1].span.end;
        proof {
            lemma_parts_view(word_parts);
        }
        tkns.push(TknSpan { kind: Tkn::Word(word_parts), span: start..end });
    }
    assert(spans_view(tkns@) =~= spans_view(old(tkns)@) + word_of(parts));
}

/// The operator or the backslash that the command ends with and that wants more after it.
fn dangling_operator(tkns: &Vec<TknSpan>) -> (r: Option<usize>)
    ensures
        match r {
            Some(i) => i < tkns@.len() && dangling(spans_view(tkns@)) == Some(tkns@[i as int]@),
            None => dangling(spans_view(tkns@)) is None,
        },
{
    let ghost ts = spans_view(tkns@);
    let mut i: usize = tkns.len();
    assert(ts.take(i as int) =~= ts);
    while i > 0
        invariant
            i <= tkns@.len(),
            ts == spans_view(tkns@),
            dangling(ts) == dangling(ts.take(i as int)),
        decreases i,
    {
        assert(ts.take(i as int).drop_last() =~= ts.take(i - 1));
        assert(ts.take(i as int).last() == tkns@[i - 1]@);
        match &tkns[i - 1].kind {
            Tkn::Space | Tkn::Newline => {
                i -= 1;
            },
            Tkn::Pipe | Tkn::CmdOr | Tkn::CmdAnd | Tkn::Backslash => {
                return Some(i - 1);
            },
            _ => {
                return None;
            },
        }
    }
    None
}

/// Whether a parenthesis is open after some tokens.
fn has_open_paren(tkns: &Vec<TknSpan>) -> (r: bool)
    ensures
        r == (open_parens(spans_view(tkns@)) > 0),
{
    let ghost ts = spans_view(tkns@);
    let mut depth: usize = 0;
    let mut i: usize = 0;
    assert(ts.take(0) =~= Seq::empty());
    while i < tkns.len()
        invariant
            i <= tkns@.len(),
            ts == spans_view(tkns@),
            depth <= i,
            depth == open_parens(ts.take(i as int)),
        decreases tkns@.len() - i,
    {
        assert(ts.take(i + 1).drop_last() =~= ts.take(i as int));
        assert(ts.take(i + 1).last() == tkns@[i as int]@);
        match &tkns[i].kind {
            Tkn::LParen => {
                depth += 1;
            },
            Tkn::RParen => {
                if depth > 0 {
                    depth -= 1;
                }
            },
            _ => {},
        }
        i += 1;
    }
    assert(ts.take(ts.len() as int) =~= ts);
    depth > 0
}

/// The values of a queue of texts.
pub open spec fn strs_view(v: Seq<&str>) -> Seq<Seq<char>> {
    Seq::new(v.len(), |i: int| v[i]@)
}

/// Splits a command buffer into tokens and here-documents. `None` where the command is not
/// complete or not valid; the state then says what is missing.
pub fn lex_cmd_buf<'a>(lexer: &mut LexerState<'a>, cmd_buf: &'a str) -> (r: Option<
    (Vec<TknSpan>, VecDeque<&'a str>),
>)
    requires
        old(lexer).cmd_buf == cmd_buf,
        old(lexer).wf(),
    ensures
        final(lexer).cmd_buf == cmd_buf,
        final(lexer).wf(),
        final(lexer)@ == lexed(cmd_buf.spec_bytes(), old(lexer)@).0,
        match r {
            Some((tkns, heredocs)) => {
                &&& lexed(cmd_buf.spec_bytes(), old(lexer)@).1 == Some(
                    (spans_view(tkns@), strs_view(heredocs@)),
                )
                &&& wf_tokens(cmd_buf.spec_bytes(), spans_view(tkns@))
            },
            None => lexed(cmd_buf.spec_bytes(), old(lexer)@).1 is None,
        },
{
    let ghost b = cmd_buf.spec_bytes();
    let ghost first = lexer@;
    let n: usize = cmd_buf.as_bytes().len();
    let mut tkns: Vec<TknSpan> = Vec::new();
    let mut word_parts: Vec<TknSpan> = Vec::new();
    let mut i: usize = 0;
    proof {
        lemma_str_bytes(cmd_buf);
        law_tokens_cover_the_buffer(b, first);
        assert(spans_view(tkns@) =~= Seq::empty());
        assert(spans_view(word_parts@) =~= Seq::empty());
        is_char_boundary_start_end_of_seq(b);
        lemma_raw_tokens(b, 0, first);
        if let (_, Some(raw)) = raw_tokens(b, 0, first) {
            assert(grouped(raw, Seq::empty()) =~= Seq::empty() + grouped(raw, Seq::empty()));
            lemma_grouped(b, raw, Seq::empty(), 0, 0, b.len() as int);
        }
    }
    while i < n
        invariant
            lexer.cmd_buf == cmd_buf,
            b == cmd_buf.spec_bytes(),
            n == b.len(),
            valid_utf8(b),
            i <= n,
            is_char_boundary(b, i as int),
            wf_docs(b, lexer@.heredocs),
            first == old(lexer)@,
            wf_docs(b, lexed(b, first).0.heredocs),
            match raw_tokens(b, i as int, lexer@) {
                (last, None) => raw_tokens(b, 0, first) == (last, None::<Seq<TknSpanView>>),
                (last, Some(rest)) => {
                    &&& raw_tokens(b, 0, first).0 == last
                    &&& raw_tokens(b, 0, first).1 matches Some(raw)
                    &&& wf_tokens(b, grouped(raw, Seq::empty()))
                    &&& grouped(raw, Seq::empty()) == spans_view(tkns@) + grouped(
                        rest,
                        spans_view(word_parts@),
                    )
                },
            },
        decreases n - i,
    {
        let ghost st = lexer@;
        proof {
            lemma_token_bounds(b, i as int, st);
            lemma_token_wf(b, i as int, st);
        }
        let next = lexer.next_token(i);
        match next {
            None => {
                return None;
            },
            Some(t) => {
                let ghost tv = t@;
                let ghost done = spans_view(tkns@);
                let ghost open = spans_view(word_parts@);
                i = t.span.end;
                let part = match &t.kind {
                    Tkn::Literal | Tkn::SingleQuote | Tkn::Expansion | Tkn::DoubleQuote(_) => true,
                    _ => false,
                };
                if part {
                    word_parts.push(t);
                    assert(spans_view(word_parts@) =~= open.push(tv));
                } else {
                    close_word(&mut tkns, word_parts);
                    tkns.push(t);
                    word_parts = Vec::new();
                    assert(spans_view(word_parts@) =~= Seq::empty());
                    assert(spans_view(tkns@) =~= done + word_of(open) + seq![tv]);
                }
                proof {
                    if let (_, Some(rest)) = raw_tokens(b, i as int, lexer@) {
                        let all = seq![tv] + rest;
                        assert(all.skip(1) =~= rest);
                        if !part {
                            assert(done + (word_of(open) + seq![tv] + grouped(rest, Seq::empty()))
                                =~= spans_view(tkns@) + grouped(rest, Seq::empty()));
                        }
                    }
                }
            },
        }
    }
    close_word(&mut tkns, word_parts);
    if let Some(k) = dangling_operator(&tkns) {
        assert(wf_token(b, spans_view(tkns@)[k as int]));
        let operator = get_token_at(&tkns[k], cmd_buf);
        lexer.continuation_for = Some(operator.to_string());
        return None;
    }
    let ghost after = lexer@;
    if lexer.delimiters.len() > 0 {
        let delim = lexer.delimiters[0].clone();
        assert(delim@ == after.delimiters[0]);
        lexer.expect(delim.as_str());
        return None;
    }
    if has_open_paren(&tkns) {
        lexer.expect(")");
        return None;
    }
    let ghost docs = lexer@.heredocs;
    let mut heredocs: VecDeque<&'a str> = VecDeque::new();
    let mut d: usize = 0;
    while d < lexer.heredocs.len()
        invariant
            b == cmd_buf.spec_bytes(),
            docs == lexer@.heredocs,
            wf_docs(b, docs),
            d <= lexer.heredocs@.len(),
            heredocs@.len() == d,
            forall|k: int|
                0 <= k < d ==> (#[trigger] heredocs@[k])@ == text_of(b, docs[k].0, docs[k].1),
        decreases lexer.heredocs@.len() - d,
    {
        let (doc_start, doc_end) = lexer.heredocs[d];
        assert(good_span(b, docs[d as int].0, docs[d as int].1));
        heredocs.push_back(slice_str(cmd_buf, doc_start, doc_end));
        d += 1;
    }
    assert(strs_view(heredocs@) =~= doc_texts(b, docs));
    Some((tkns, heredocs))
}

} // verus!
