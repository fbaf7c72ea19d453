//! Tokens of a command line and the mathematical values that they stand for.

use crate::text::{good_span, slice_str, text_of};
use std::ops::Range;
use vstd::prelude::*;
use vstd::string::*;
use vstd::utf8::*;

verus! {

/// One token. `Word` and `DoubleQuote` hold the spans that they are made of.
#[derive(Debug)]
pub enum Tkn {
    Literal,
    RedirectIn,
    RedirectOut,
    RedirectAppend,
    Heredoc,
    Pipe,
    Backslash,
    CmdAnd,
    CmdOr,
    Semicolon,
    And,
    Assign,
    DoubleQuote(Vec<TknSpan>),
    SingleQuote,
    Expansion,
    LParen,
    RParen,
    Newline,
    Space,
    Word(Vec<TknSpan>),
}

/// A token and the range of bytes that it covers in the command buffer.
#[derive(Debug)]
pub struct TknSpan {
    pub kind: Tkn,
    pub span: Range<usize>,
}

/// The mathematical value of a [`Tkn`].
#[verifier::ext_equal]
pub enum TknView {
    Literal,
    RedirectIn,
    RedirectOut,
    RedirectAppend,
    Heredoc,
    Pipe,
    Backslash,
    CmdAnd,
    CmdOr,
    Semicolon,
    And,
    Assign,
    DoubleQuote(Seq<TknSpanView>),
    SingleQuote,
    Expansion,
    LParen,
    RParen,
    Newline,
    Space,
    Word(Seq<TknSpanView>),
}

/// The mathematical value of a [`TknSpan`].
#[verifier::ext_equal]
pub struct TknSpanView {
    pub kind: TknView,
    pub start: int,
    pub end: int,
}

/// The value of a token.
pub open spec fn tkn_view(t: Tkn) -> TknView
    decreases t,
{
    match t {
        Tkn::Literal => TknView::Literal,
        Tkn::RedirectIn => TknView::RedirectIn,
        Tkn::RedirectOut => TknView::RedirectOut,
        Tkn::RedirectAppend => TknView::RedirectAppend,
        Tkn::Heredoc => TknView::Heredoc,
        Tkn::Pipe => TknView::Pipe,
        Tkn::Backslash => TknView::Backslash,
        Tkn::CmdAnd => TknView::CmdAnd,
        Tkn::CmdOr => TknView::CmdOr,
        Tkn::Semicolon => TknView::Semicolon,
        Tkn::And => TknView::And,
        Tkn::Assign => TknView::Assign,
        Tkn::DoubleQuote(parts) => TknView::DoubleQuote(
            Seq::new(
                parts@.len(),
                |i: int|
                    if 0 <= i < parts@.len() {
                        tknspan_view(parts@[i])
                    } else {
                        arbitrary()
                    },
            ),
        ),
        Tkn::SingleQuote => TknView::SingleQuote,
        Tkn::Expansion => TknView::Expansion,
        Tkn::LParen => TknView::LParen,
        Tkn::RParen => TknView::RParen,
        Tkn::Newline => TknView::Newline,
        Tkn::Space => TknView::Space,
        Tkn::Word(parts) => TknView::Word(
            Seq::new(
                parts@.len(),
                |i: int|
                    if 0 <= i < parts@.len() {
                        tknspan_view(parts@[i])
                    } else {
                        arbitrary()
                    },
            ),
        ),
    }
}

/// The value of a token with its span.
pub open spec fn tknspan_view(t: TknSpan) -> TknSpanView
    decreases t,
{
    TknSpanView { kind: tkn_view(t.kind), start: t.span.start as int, end: t.span.end as int }
}

/// The values of a sequence of tokens.
pub open spec fn spans_view(w: Seq<TknSpan>) -> Seq<TknSpanView> {
    Seq::new(w.len(), |i: int| tknspan_view(w[i]))
}

/// What a token is made of is read by [`spans_view`].
pub proof fn lemma_parts_view(parts: Vec<TknSpan>)
    ensures
        Tkn::Word(parts)@ == TknView::Word(spans_view(parts@)),
        Tkn::DoubleQuote(parts)@ == TknView::DoubleQuote(spans_view(parts@)),
{
    assert(Tkn::Word(parts)@->Word_0 =~= spans_view(parts@));
    assert(Tkn::DoubleQuote(parts)@->DoubleQuote_0 =~= spans_view(parts@));
}

impl View for Tkn {
    type V = TknView;

    open spec fn view(&self) -> TknView {
        tkn_view(*self)
    }
}

impl View for TknSpan {
    type V = TknSpanView;

    open spec fn view(&self) -> TknSpanView {
        tknspan_view(*self)
    }
}

impl Clone for Tkn {
    fn clone(&self) -> (r: Self)
        ensures
            r@ == self@,
        decreases self,
    {
        match self {
            Tkn::Literal => Tkn::Literal,
            Tkn::RedirectIn => Tkn::RedirectIn,
            Tkn::RedirectOut => Tkn::RedirectOut,
            Tkn::RedirectAppend => Tkn::RedirectAppend,
            Tkn::Heredoc => Tkn::Heredoc,
            Tkn::Pipe => Tkn::Pipe,
            Tkn::Backslash => Tkn::Backslash,
            Tkn::CmdAnd => Tkn::CmdAnd,
            Tkn::CmdOr => Tkn::CmdOr,
            Tkn::Semicolon => Tkn::Semicolon,
            Tkn::And => Tkn::And,
            Tkn::Assign => Tkn::Assign,
            Tkn::DoubleQuote(parts) => {
                let copy = clone_spans(parts);
                proof {
                    lemma_parts_view(*parts);
                    lemma_parts_view(copy);
                }
                Tkn::DoubleQuote(copy)
            },
            Tkn::SingleQuote => Tkn::SingleQuote,
            Tkn::Expansion => Tkn::Expansion,
            Tkn::LParen => Tkn::LParen,
            Tkn::RParen => Tkn::RParen,
            Tkn::Newline => Tkn::Newline,
            Tkn::Space => Tkn::Space,
            Tkn::Word(parts) => {
                let copy = clone_spans(parts);
                proof {
                    lemma_parts_view(*parts);
                    lemma_parts_view(copy);
                }
                Tkn::Word(copy)
            },
        }
    }
}

impl Clone for TknSpan {
    fn clone(&self) -> (r: Self)
        ensures
            r@ == self@,
        decreases self,
    {
        TknSpan { kind: self.kind.clone(), span: self.span.start..self.span.end }
    }
}

/// A copy of a sequence of tokens.
pub fn clone_spans(parts: &Vec<TknSpan>) -> (r: Vec<TknSpan>)
    ensures
        spans_view(r@) == spans_view(parts@),
    decreases parts,
{
    let mut r: Vec<TknSpan> = Vec::new();
    let mut i: usize = 0;
    while i < parts.len()
        invariant
            i <= parts@.len(),
            r@.len() == i,
            forall|k: int| 0 <= k < i ==> (#[trigger] r@[k])@ == parts@[k]@,
        decreases parts@.len() - i,
    {
        let t = parts[i].clone();
        r.push(t);
        i += 1;
    }
    assert(spans_view(r@) =~= spans_view(parts@));
    r
}

/// Whether two tokens are equal.
pub fn same_tkn(a: &Tkn, b: &Tkn) -> (r: bool)
    ensures
        r == (a@ == b@),
    decreases a,
{
    match (a, b) {
        (Tkn::Literal, Tkn::Literal) => true,
        (Tkn::RedirectIn, Tkn::RedirectIn) => true,
        (Tkn::RedirectOut, Tkn::RedirectOut) => true,
        (Tkn::RedirectAppend, Tkn::RedirectAppend) => true,
        (Tkn::Heredoc, Tkn::Heredoc) => true,
        (Tkn::Pipe, Tkn::Pipe) => true,
        (Tkn::Backslash, Tkn::Backslash) => true,
        (Tkn::CmdAnd, Tkn::CmdAnd) => true,
        (Tkn::CmdOr, Tkn::CmdOr) => true,
        (Tkn::Semicolon, Tkn::Semicolon) => true,
        (Tkn::And, Tkn::And) => true,
        (Tkn::Assign, Tkn::Assign) => true,
        (Tkn::DoubleQuote(p), Tkn::DoubleQuote(q)) => {
            proof {
                lemma_parts_view(*p);
                lemma_parts_view(*q);
            }
            same_spans(p, q)
        },
        (Tkn::SingleQuote, Tkn::SingleQuote) => true,
        (Tkn::Expansion, Tkn::Expansion) => true,
        (Tkn::LParen, Tkn::LParen) => true,
        (Tkn::RParen, Tkn::RParen) => true,
        (Tkn::Newline, Tkn::Newline) => true,
        (Tkn::Space, Tkn::Space) => true,
        (Tkn::Word(p), Tkn::Word(q)) => {
            proof {
                lemma_parts_view(*p);
                lemma_parts_view(*q);
            }
            same_spans(p, q)
        },
        _ => false,
    }
}

/// Whether two sequences of tokens are equal.
pub fn same_spans(a: &Vec<TknSpan>, b: &Vec<TknSpan>) -> (r: bool)
    ensures
        r == (spans_view(a@) == spans_view(b@)),
    decreases a,
{
    if a.len() != b.len() {
        assert(spans_view(a@).len() != spans_view(b@).len());
        return false;
    }
    let mut i: usize = 0;
    while i < a.len()
        invariant
            i <= a@.len() == b@.len(),
            forall|k: int| 0 <= k < i ==> (#[trigger] a@[k])@ == b@[k]@,
        decreases a@.len() - i,
    {
        if a[i].span.start != b[i].span.start || a[i].span.end != b[i].span.end || !same_tkn(
            &a[i].kind,
            &b[i].kind,
        ) {
            assert(spans_view(a@)[i as int] != spans_view(b@)[i as int]);
            return false;
        }
        i += 1;
    }
    assert(spans_view(a@) =~= spans_view(b@));
    true
}

impl PartialEq for Tkn {
    fn eq(&self, other: &Self) -> (r: bool) {
        same_tkn(self, other)
    }
}

impl vstd::std_specs::cmp::PartialEqSpecImpl for Tkn {
    open spec fn obeys_eq_spec() -> bool {
        true
    }

    open spec fn eq_spec(&self, other: &Self) -> bool {
        self@ == other@
    }
}

impl PartialEq for TknSpan {
    fn eq(&self, other: &Self) -> (r: bool) {
        self.span.start == other.span.start && self.span.end == other.span.end && same_tkn(
            &self.kind,
            &other.kind,
        )
    }
}

impl vstd::std_specs::cmp::PartialEqSpecImpl for TknSpan {
    open spec fn obeys_eq_spec() -> bool {
        true
    }

    open spec fn eq_spec(&self, other: &Self) -> bool {
        self@ == other@
    }
}

/// The name of a token's kind.
pub open spec fn tkn_name(t: TknView) -> Seq<char> {
    match t {
        TknView::Literal => "literal"@,
        TknView::RedirectIn => "<"@,
        TknView::RedirectOut => ">"@,
        TknView::RedirectAppend => ">>"@,
        TknView::Heredoc => "<<"@,
        TknView::Pipe => "|"@,
        TknView::Backslash => "\\"@,
        TknView::CmdAnd => "&&"@,
        TknView::CmdOr => "||"@,
        TknView::Semicolon => ";"@,
        TknView::And => "&"@,
        TknView::Assign => "="@,
        TknView::DoubleQuote(_) => "double quote"@,
        TknView::SingleQuote => "single quote"@,
        TknView::Expansion => "expansion"@,
        TknView::LParen => "("@,
        TknView::RParen => ")"@,
        TknView::Newline => "newline"@,
        TknView::Space => "space"@,
        TknView::Word(_) => "word"@,
    }
}

impl Tkn {
    /// The name of the token's kind, as it is shown in messages.
    pub fn name(&self) -> (r: &'static str)
        ensures
            r@ == tkn_name(self@),
    {
        match self {
            Tkn::Literal => "literal",
            Tkn::RedirectIn => "<",
            Tkn::RedirectOut => ">",
            Tkn::RedirectAppend => ">>",
            Tkn::Heredoc => "<<",
            Tkn::Pipe => "|",
            Tkn::Backslash => "\\",
            Tkn::CmdAnd => "&&",
            Tkn::CmdOr => "||",
            Tkn::Semicolon => ";",
            Tkn::And => "&",
            Tkn::Assign => "=",
            Tkn::DoubleQuote(_) => "double quote",
            Tkn::SingleQuote => "single quote",
            Tkn::Expansion => "expansion",
            Tkn::LParen => "(",
            Tkn::RParen => ")",
            Tkn::Newline => "newline",
            Tkn::Space => "space",
            Tkn::Word(_) => "word",
        }
    }
}

/// A span inside double quotes that can be read: it lies well in the text, and an expansion
/// is not a lone backtick.
pub open spec fn wf_inner(b: Seq<u8>, p: TknSpanView) -> bool {
    &&& good_span(b, p.start, p.end)
    &&& p.kind is Expansion ==> text_of(b, p.start, p.end) != seq!['`']
}

/// A part of a word that can be read.
pub open spec fn wf_part(b: Seq<u8>, p: TknSpanView) -> bool {
    &&& wf_inner(b, p)
    &&& p.kind is SingleQuote ==> good_span(b, p.start + 1, p.end - 1)
    &&& p.kind matches TknView::DoubleQuote(inner) ==> wf_inners(b, inner)
}

/// Spans inside double quotes that can be read.
pub open spec fn wf_inners(b: Seq<u8>, inner: Seq<TknSpanView>) -> bool {
    forall|i: int| 0 <= i < inner.len() ==> #[trigger] wf_inner(b, inner[i])
}

/// A word that can be read.
pub open spec fn wf_word(b: Seq<u8>, w: Seq<TknSpanView>) -> bool {
    forall|i: int| 0 <= i < w.len() ==> #[trigger] wf_part(b, w[i])
}

/// A token that can be read. Words are not empty.
pub open spec fn wf_token(b: Seq<u8>, t: TknSpanView) -> bool {
    &&& good_span(b, t.start, t.end)
    &&& t.kind matches TknView::Word(w) ==> w.len() > 0 && wf_word(b, w)
}

/// Tokens that can be read.
pub open spec fn wf_tokens(b: Seq<u8>, ts: Seq<TknSpanView>) -> bool {
    forall|i: int| 0 <= i < ts.len() ==> #[trigger] wf_token(b, ts[i])
}

/// The text that a token covers.
pub open spec fn token_text(b: Seq<u8>, t: TknSpanView) -> Seq<char> {
    text_of(b, t.start, t.end)
}

/// The text that a token covers in the command buffer.
pub fn get_token_at<'a>(tkn_span: &TknSpan, cmd_buf: &'a str) -> (r: &'a str)
    requires
        good_span(cmd_buf.spec_bytes(), tkn_span@.start, tkn_span@.end),
    ensures
        r@ == token_text(cmd_buf.spec_bytes(), tkn_span@),
        r.spec_bytes() == cmd_buf.spec_bytes().subrange(tkn_span@.start, tkn_span@.end),
{
    slice_str(cmd_buf, tkn_span.span.start, tkn_span.span.end)
}

} // verus!
