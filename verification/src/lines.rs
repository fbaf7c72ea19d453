//! What holds of whole lines, from their bytes to the commands that they run.

use crate::ascii::{EQUALS, LESS, LINE_FEED, SPACE};
use crate::ast::{AssignmentView, AstView, CommandView};
use crate::builtins::builtin_table;
use crate::executor::{
    driven, law_driving_runs_the_trees, ran, ran_all, started, vars_after, Fate, World,
};
use crate::grammar::{
    from_doc, is_separator, items, joined, list, next_kind, no_items, node_of, parsed, past_blank,
    past_separators, pipeline, program, simple, stepped, Cursor, Items, Source, SyntaxErrView,
};
use crate::laws::{
    law_blanks_around_assignments, law_heredoc_is_taken_verbatim, law_heredocs_are_taken_in_order,
};
use crate::lexer::{
    dangling, doc_texts, fresh_state, grouped, is_part, lexed, open_parens, raw_tokens, token_at,
    word_of, LexView,
};
use crate::scan::{delimiter_line, in_class, run_end, ByteClass};
use crate::spawn::{feeds_of, spawn_of, FeedView, Stream};
use crate::text::text_of;
use crate::token::{TknSpanView, TknView};
use crate::vars::VarMap;
use crate::word::{args_value, part_value, word_value};
use vstd::prelude::*;
use vstd::string::*;
use vstd::utf8::*;

verus! {

broadcast use vstd::seq::group_seq_axioms;

/// Bytes that are all of one class.
pub open spec fn all_of(class: ByteClass, s: Seq<u8>) -> bool {
    forall|k: int| 0 <= k < s.len() ==> in_class(class, #[trigger] s[k])
}

/// Where a run ends.
pub proof fn lemma_run_is(b: Seq<u8>, i: int, e: int, class: ByteClass)
    requires
        0 <= i <= e <= b.len(),
        forall|k: int| i <= k < e ==> in_class(class, b[k]),
        e < b.len() ==> !in_class(class, b[e]),
    ensures
        run_end(b, i, class) == e,
    decreases e - i,
{
    if i < e {
        lemma_run_is(b, i + 1, e, class);
    }
}

/// A run of literal bytes is a literal.
proof fn lemma_literal(b: Seq<u8>, i: int, e: int, st: LexView)
    requires
        0 <= i < e < b.len(),
        forall|k: int| i <= k < e ==> in_class(ByteClass::Literal, b[k]),
        !in_class(ByteClass::Literal, b[e]),
    ensures
        token_at(b, i, st) == (
            st,
            Some(TknSpanView { kind: TknView::Literal, start: i, end: e }),
        ),
{
    reveal(token_at);
    lemma_run_is(b, i, e, ByteClass::Literal);
}

/// A run of blanks is a space.
pub proof fn lemma_blanks(b: Seq<u8>, i: int, e: int, st: LexView)
    requires
        0 <= i < e < b.len(),
        forall|k: int| i <= k < e ==> in_class(ByteClass::Blank, b[k]),
        !in_class(ByteClass::Blank, b[e]),
    ensures
        token_at(b, i, st) == (
            st,
            Some(TknSpanView { kind: TknView::Space, start: i, end: e }),
        ),
{
    reveal(token_at);
    lemma_run_is(b, i, e, ByteClass::Blank);
}

/// A line feed is a line end where no here-document is due.
pub proof fn lemma_line_feed(b: Seq<u8>, i: int, st: LexView)
    requires
        0 <= i < b.len(),
        b[i] == LINE_FEED,
        st.delimiters.len() == 0,
    ensures
        token_at(b, i, st) == (
            st,
            Some(TknSpanView { kind: TknView::Newline, start: i, end: i + 1 }),
        ),
{
    reveal(token_at);
}

/// The token of a plain word.
pub open spec fn plain_word(start: int, end: int) -> TknSpanView {
    let part = TknSpanView { kind: TknView::Literal, start, end };
    TknSpanView { kind: TknView::Word(seq![part]), start, end }
}

/// The bytes of some words, each with a space before it, and a line feed.
pub open spec fn tail_bytes(ws: Seq<Seq<u8>>) -> Seq<u8>
    decreases ws.len(),
{
    if ws.len() == 0 {
        seq![LINE_FEED]
    } else {
        seq![SPACE] + ws[0] + tail_bytes(ws.skip(1))
    }
}

/// The bytes of a line: words with a space between each two of them, and a line feed.
pub open spec fn line_bytes(ws: Seq<Seq<u8>>) -> Seq<u8> {
    ws[0] + tail_bytes(ws.skip(1))
}

/// A word that is plain: literal bytes, and at least one of them.
pub open spec fn plain(w: Seq<u8>) -> bool {
    w.len() > 0 && all_of(ByteClass::Literal, w)
}

/// The tokens of some words that begin at `i`, each with a space before it, and a line end.
spec fn tail_raw(ws: Seq<Seq<u8>>, i: int) -> Seq<TknSpanView>
    decreases ws.len(),
{
    if ws.len() == 0 {
        seq![TknSpanView { kind: TknView::Newline, start: i, end: i + 1 }]
    } else {
        let e = i + 1 + ws[0].len();
        seq![
            TknSpanView { kind: TknView::Space, start: i, end: i + 1 },
            TknSpanView { kind: TknView::Literal, start: i + 1, end: e },
        ] + tail_raw(ws.skip(1), e)
    }
}

/// The same with every literal made a word.
spec fn tail_tokens(ws: Seq<Seq<u8>>, i: int) -> Seq<TknSpanView>
    decreases ws.len(),
{
    if ws.len() == 0 {
        seq![TknSpanView { kind: TknView::Newline, start: i, end: i + 1 }]
    } else {
        let e = i + 1 + ws[0].len();
        seq![
            TknSpanView { kind: TknView::Space, start: i, end: i + 1 },
            plain_word(i + 1, e),
        ] + tail_tokens(ws.skip(1), e)
    }
}

/// A word and what stands after it, in the tail of a line.
proof fn lemma_tail_parts(b: Seq<u8>, i: int, w: Seq<u8>, tail: Seq<u8>)
    requires
        0 <= i <= b.len(),
        b.skip(i) == seq![SPACE] + w + tail,
    ensures
        i + 1 + w.len() + tail.len() == b.len(),
        b[i] == SPACE || b.len() == i,
        b.subrange(i + 1, i + 1 + w.len()) == w,
        b.skip(i + 1 + w.len()) == tail,
{
    let r = b.skip(i);
    assert(r.len() == b.len() - i);
    assert(b[i] == r[0]);
    assert forall|m: int| 0 <= m < w.len() implies b[i + 1 + m] == w[m] by {
        assert(b[i + 1 + m] == r[1 + m]);
    }
    assert(b.subrange(i + 1, i + 1 + w.len()) =~= w);
    let e = i + 1 + w.len();
    assert forall|m: int| 0 <= m < tail.len() implies b[e + m] == tail[m] by {
        assert(b[e + m] == r[1 + w.len() + m]);
    }
    assert(b.skip(e) =~= tail);
}

/// Splitting the tail of a line.
proof fn lemma_tail_raw(b: Seq<u8>, i: int, ws: Seq<Seq<u8>>, st: LexView)
    requires
        0 <= i <= b.len(),
        b.skip(i) == tail_bytes(ws),
        forall|k: int| 0 <= k < ws.len() ==> plain(#[trigger] ws[k]),
        st.delimiters.len() == 0,
    ensures
        raw_tokens(b, i, st) == (st, Some(tail_raw(ws, i))),
    decreases ws.len(),
{
    assert(b.skip(i).len() == b.len() - i);
    if ws.len() == 0 {
        assert(b[i] == b.skip(i)[0]);
        lemma_line_feed(b, i, st);
        reveal_with_fuel(raw_tokens, 2);
        let t = TknSpanView { kind: TknView::Newline, start: i, end: i + 1 };
        assert(seq![t] + Seq::<TknSpanView>::empty() =~= tail_raw(ws, i));
    } else {
        let w = ws[0];
        let rest = ws.skip(1);
        let e = i + 1 + w.len();
        assert(plain(ws[0]));
        let tail = tail_bytes(rest);
        assert(tail.len() > 0 && (tail[0] == SPACE || tail[0] == LINE_FEED));
        assert(b.skip(i) == seq![SPACE] + w + tail);
        lemma_tail_parts(b, i, w, tail);
        assert(b[i] == b.skip(i)[0]);
        assert forall|k: int| i + 1 <= k < e implies in_class(ByteClass::Literal, b[k]) by {
            assert(b[k] == b.subrange(i + 1, e)[k - i - 1]);
        }
        assert(b[e] == b.skip(e)[0]);
        assert(in_class(ByteClass::Literal, b[i + 1]));
        lemma_blanks(b, i, i + 1, st);
        lemma_literal(b, i + 1, e, st);
        assert forall|k: int| 0 <= k < rest.len() implies plain(#[trigger] rest[k]) by {
            assert(plain(ws[k + 1]));
        }
        lemma_tail_raw(b, e, rest, st);
        let space = TknSpanView { kind: TknView::Space, start: i, end: i + 1 };
        let literal = TknSpanView { kind: TknView::Literal, start: i + 1, end: e };
        assert(raw_tokens(b, i + 1, st) == (st, Some(seq![literal] + tail_raw(rest, e))));
        assert(raw_tokens(b, i, st) == (
            st,
            Some(seq![space] + (seq![literal] + tail_raw(rest, e))),
        ));
        assert(seq![space] + (seq![literal] + tail_raw(rest, e)) =~= tail_raw(ws, i));
    }
}

/// Grouping the tail of a line.
proof fn lemma_tail_grouped(ws: Seq<Seq<u8>>, i: int, open: Seq<TknSpanView>)
    ensures
        grouped(tail_raw(ws, i), open) == word_of(open) + tail_tokens(ws, i),
    decreases ws.len(),
{
    let raw = tail_raw(ws, i);
    if ws.len() == 0 {
        reveal_with_fuel(grouped, 2);
        assert(raw.skip(1) =~= Seq::empty());
        assert(grouped(raw, open) =~= word_of(open) + tail_tokens(ws, i));
    } else {
        let e = i + 1 + ws[0].len();
        let rest = tail_raw(ws.skip(1), e);
        let literal = TknSpanView { kind: TknView::Literal, start: i + 1, end: e };
        let none = Seq::<TknSpanView>::empty();
        assert(raw.skip(1) =~= seq![literal] + rest);
        assert((seq![literal] + rest).skip(1) =~= rest);
        assert(none.push(literal) =~= seq![literal]);
        lemma_tail_grouped(ws.skip(1), e, seq![literal]);
        assert(grouped(raw.skip(1), none) == grouped(rest, seq![literal]));
        assert(word_of(seq![literal]) =~= seq![plain_word(i + 1, e)]);
        assert(grouped(raw, open) =~= word_of(open) + tail_tokens(ws, i));
    }
}

/// The tail of a line neither ends with an operator nor holds a parenthesis.
proof fn lemma_tail_closed(ws: Seq<Seq<u8>>, i: int, front: Seq<TknSpanView>)
    requires
        open_parens(front) == 0,
        front.len() > 0,
        front.last().kind is Word,
    ensures
        open_parens(front + tail_tokens(ws, i)) == 0,
        dangling(front + tail_tokens(ws, i)) is None,
    decreases ws.len(),
{
    reveal_with_fuel(open_parens, 3);
    reveal_with_fuel(dangling, 2);
    let ts = tail_tokens(ws, i);
    if ws.len() == 0 {
        let all = front + ts;
        assert(all.drop_last() =~= front);
    } else {
        let e = i + 1 + ws[0].len();
        let space = TknSpanView { kind: TknView::Space, start: i, end: i + 1 };
        let word = plain_word(i + 1, e);
        let next = front.push(space).push(word);
        assert(front.push(space).drop_last() =~= front);
        assert(next.drop_last() =~= front.push(space));
        lemma_tail_closed(ws.skip(1), e, next);
        assert(front + ts =~= next + tail_tokens(ws.skip(1), e));
    }
}

/// What the words of a line read as.
pub open spec fn texts_of(ws: Seq<Seq<u8>>) -> Seq<Seq<char>> {
    Seq::new(ws.len(), |k: int| decode_utf8(ws[k]))
}

/// The tokens of a line.
spec fn line_tokens(ws: Seq<Seq<u8>>) -> Seq<TknSpanView> {
    seq![plain_word(0, ws[0].len() as int)] + tail_tokens(ws.skip(1), ws[0].len() as int)
}

/// A line of plain words is split into those words.
proof fn lemma_line_lexed(ws: Seq<Seq<u8>>)
    requires
        ws.len() > 0,
        forall|k: int| 0 <= k < ws.len() ==> plain(#[trigger] ws[k]),
    ensures
        lexed(line_bytes(ws), fresh_state()).1 == Some(
            (line_tokens(ws), Seq::<Seq<char>>::empty()),
        ),
{
    let b = line_bytes(ws);
    let st = fresh_state();
    let w = ws[0];
    let rest = ws.skip(1);
    let tail = tail_bytes(rest);
    let n = w.len() as int;
    assert(plain(ws[0]));
    assert(tail.len() > 0 && (tail[0] == SPACE || tail[0] == LINE_FEED));
    assert forall|k: int| 0 <= k < n implies in_class(ByteClass::Literal, b[k]) by {
        assert(b[k] == w[k]);
    }
    assert(b[n] == tail[0]);
    lemma_literal(b, 0, n, st);
    assert(b.skip(n) =~= tail);
    assert forall|k: int| 0 <= k < rest.len() implies plain(#[trigger] rest[k]) by {
        assert(plain(ws[k + 1]));
    }
    lemma_tail_raw(b, n, rest, st);
    let literal = TknSpanView { kind: TknView::Literal, start: 0, end: n };
    let raw = seq![literal] + tail_raw(rest, n);
    assert(raw_tokens(b, 0, st) == (st, Some(raw)));
    assert(raw.skip(1) =~= tail_raw(rest, n));
    let none = Seq::<TknSpanView>::empty();
    assert(none.push(literal) =~= seq![literal]);
    lemma_tail_grouped(rest, n, seq![literal]);
    assert(grouped(raw, none) == grouped(tail_raw(rest, n), seq![literal]));
    assert(word_of(seq![literal]) =~= seq![plain_word(0, n)]);
    let front = seq![plain_word(0, n)];
    assert(front.drop_last() =~= none);
    reveal_with_fuel(open_parens, 2);
    lemma_tail_closed(rest, n, front);
    assert(doc_texts(b, st.heredocs) =~= Seq::empty());
}

/// Whether a token is a plain word that covers `w`.
spec fn covers(t: TknSpanView, b: Seq<u8>, w: Seq<u8>) -> bool {
    &&& t == plain_word(t.start, t.end)
    &&& 0 <= t.start <= t.end <= b.len()
    &&& b.subrange(t.start, t.end) == w
}

/// Whether token `2 k` is a space and the one after it covers word `k`.
spec fn covers_word(ts: Seq<TknSpanView>, b: Seq<u8>, ws: Seq<Seq<u8>>, k: int) -> bool {
    ts[2 * k].kind == TknView::Space && covers(ts[2 * k + 1], b, ws[k])
}

/// The tokens of the tail of a line cover its words.
proof fn lemma_tail_covers(b: Seq<u8>, i: int, ws: Seq<Seq<u8>>, ts: Seq<TknSpanView>)
    requires
        0 <= i <= b.len(),
        b.skip(i) == tail_bytes(ws),
        ts == tail_tokens(ws, i),
    ensures
        ts.len() == 2 * ws.len() + 1,
        ts.last().kind == TknView::Newline,
        forall|k: int| 0 <= k < ws.len() ==> #[trigger] covers_word(ts, b, ws, k),
    decreases ws.len(),
{
    assert(b.skip(i).len() == b.len() - i);
    if ws.len() > 0 {
        let w = ws[0];
        let rest = ws.skip(1);
        let e = i + 1 + w.len();
        let tail = tail_bytes(rest);
        assert(b.skip(i) == seq![SPACE] + w + tail);
        lemma_tail_parts(b, i, w, tail);
        let more = tail_tokens(rest, e);
        lemma_tail_covers(b, e, rest, more);
        assert(ts.last() == more.last());
        assert forall|k: int| 0 <= k < ws.len() implies #[trigger] covers_word(ts, b, ws, k) by {
            if k > 0 {
                assert(covers_word(more, b, rest, k - 1));
                assert(rest[k - 1] == ws[k]);
                assert(ts[2 * k] == more[2 * (k - 1)]);
                assert(ts[2 * k + 1] == more[2 * (k - 1) + 1]);
            } else {
                assert(ts[0].kind == TknView::Space);
                assert(ts[1] == plain_word(i + 1, e));
            }
        }
    }
}

/// Tokens that are `n` words with spaces between them and a line end.
spec fn is_line(ts: Seq<TknSpanView>, n: int) -> bool {
    &&& n > 0
    &&& ts.len() == 2 * n
    &&& ts[2 * n - 1].kind == TknView::Newline
    &&& forall|k: int| 0 <= k < n ==> (#[trigger] ts[2 * k]).kind is Word
    &&& forall|k: int| 0 <= k < n - 1 ==> #[trigger] ts[2 * k + 1].kind == TknView::Space
}

/// The words of such tokens, from word `k` on.
spec fn words_from(ts: Seq<TknSpanView>, n: int, k: int) -> Seq<Seq<TknSpanView>> {
    Seq::new((n - k) as nat, |m: int| ts[2 * (k + m)].kind->Word_0)
}

/// A line of words adds them to a command.
proof fn lemma_line_items(c: Source, n: int, k: int, s: Cursor, it: Items)
    requires
        is_line(c.ts, n),
        0 <= k < n,
        s.pos == 2 * k,
    ensures
        items(c, s, it) == (
            Cursor { pos: 2 * n, cur: Some(TknView::Newline), docs: s.docs },
            Ok::<Items, SyntaxErrView>(
                Items { args: it.args + words_from(c.ts, n, k), ..it },
            ),
        ),
    decreases n - k,
{
    let s1 = stepped(c, s);
    assert(c.ts[2 * k].kind is Word);
    let w = c.ts[2 * k].kind->Word_0;
    let more = Items { args: it.args.push(w), ..it };
    let s2 = past_blank(c, s1);
    if k + 1 < n {
        assert(c.ts[2 * k + 1].kind == TknView::Space);
        assert(c.ts[2 * (k + 1)].kind is Word);
        assert(s2.pos == 2 * (k + 1));
        assert(next_kind(c, s2) == Some(c.ts[2 * (k + 1)].kind));
        lemma_line_items(c, n, k + 1, s2, more);
        assert(it.args.push(w) + words_from(c.ts, n, k + 1) =~= it.args + words_from(c.ts, n, k));
    } else {
        assert(s1.pos == 2 * n - 1);
        assert(next_kind(c, s1) == Some(TknView::Newline));
        assert(s2 == s1);
        let s3 = stepped(c, s2);
        assert(s3.cur == Some(TknView::Newline));
        assert(items(c, s2, more) == (s3, Ok::<Items, SyntaxErrView>(more)));
        assert(it.args.push(w) =~= it.args + words_from(c.ts, n, k));
    }
}

/// What a command is read as that takes all tokens and ends with a line end.
pub proof fn lemma_one_command(c: Source, s: Cursor, it: Items, node: AstView)
    requires
        s.pos == 0,
        c.ts.len() > 0,
        !is_separator(c.ts[0].kind),
        items(c, s, no_items()).0.pos == c.ts.len(),
        items(c, s, no_items()).0.cur == Some(TknView::Newline),
        items(c, s, no_items()).1 == Ok::<Items, SyntaxErrView>(it),
        node_of(c, it) == Ok::<AstView, SyntaxErrView>(node),
    ensures
        parsed(c, s).1 == Ok::<Seq<AstView>, SyntaxErrView>(seq![node]),
{
    let end = items(c, s, no_items()).0;
    assert(past_separators(c, s) == s);
    assert(simple(c, s) == (end, Ok::<AstView, SyntaxErrView>(node)));
    assert(pipeline(c, s) == (end, Ok::<AstView, SyntaxErrView>(node)));
    assert(joined(c, end, node) == (end, Ok::<AstView, SyntaxErrView>(node)));
    assert(list(c, s) == (end, Ok::<AstView, SyntaxErrView>(node)));
    assert(past_separators(c, end) == end);
    let none = Seq::<AstView>::empty();
    assert(none.push(node) =~= seq![node]);
    assert(program(c, end, none.push(node)) == (
        end,
        Ok::<Seq<AstView>, SyntaxErrView>(none.push(node)),
    ));
}

/// A line of valid words is valid.
proof fn lemma_tail_valid(ws: Seq<Seq<u8>>)
    requires
        forall|k: int| 0 <= k < ws.len() ==> valid_utf8(#[trigger] ws[k]),
    ensures
        valid_utf8(tail_bytes(ws)),
    decreases ws.len(),
{
    if ws.len() == 0 {
        let lf = seq!['\n'];
        is_ascii_chars_encode_utf8(lf);
        encode_utf8_valid_utf8(lf);
        assert(encode_utf8(lf) =~= tail_bytes(ws));
    } else {
        let rest = ws.skip(1);
        assert forall|k: int| 0 <= k < rest.len() implies valid_utf8(#[trigger] rest[k]) by {
            assert(valid_utf8(ws[k + 1]));
        }
        lemma_tail_valid(rest);
        let space = seq![' '];
        is_ascii_chars_encode_utf8(space);
        encode_utf8_valid_utf8(space);
        assert(encode_utf8(space) =~= seq![SPACE]);
        assert(valid_utf8(ws[0]));
        valid_utf8_concat(seq![SPACE], ws[0]);
        valid_utf8_concat(seq![SPACE] + ws[0], tail_bytes(rest));
    }
}

/// A line of plain words is one command with these words: a builtin command if the first of
/// them names one, else a program.
pub proof fn law_plain_lines_are_commands(ws: Seq<Seq<u8>>, vars: VarMap)
    requires
        ws.len() > 0,
        forall|k: int| 0 <= k < ws.len() ==> plain(#[trigger] ws[k]) && valid_utf8(ws[k]),
    ensures
        ({
            let b = line_bytes(ws);
            let text = decode_utf8(b);
            &&& lexed(b, fresh_state()).1 matches Some((ts, docs))
            &&& parsed(Source { ts, text, vars }, Cursor { pos: 0, cur: None, docs }).1 matches Ok(
                nodes,
            )
            &&& nodes.len() == 1
            &&& match nodes[0] {
                AstView::Prog(p) => {
                    &&& !builtin_table().contains_key(texts_of(ws)[0])
                    &&& args_value(p.args, encode_utf8(p.text), vars) == texts_of(ws)
                    &&& p.ins.len() == 0 && p.outs.len() == 0 && p.env.len() == 0
                },
                AstView::Builtin(p) => {
                    &&& builtin_table().contains_key(texts_of(ws)[0])
                    &&& args_value(p.args, encode_utf8(p.text), vars) == texts_of(ws)
                    &&& p.ins.len() == 0 && p.outs.len() == 0
                },
                _ => false,
            }
        }),
{
    let b = line_bytes(ws);
    let text = decode_utf8(b);
    let n = ws.len() as int;
    let ts = line_tokens(ws);
    let docs = Seq::<Seq<char>>::empty();
    let rest = ws.skip(1);
    lemma_line_lexed(ws);
    assert forall|k: int| 0 <= k < rest.len() implies valid_utf8(#[trigger] rest[k]) by {
        assert(valid_utf8(ws[k + 1]));
    }
    lemma_tail_valid(rest);
    assert(plain(ws[0]) && valid_utf8(ws[0]));
    valid_utf8_concat(ws[0], tail_bytes(rest));
    decode_utf8_encode_utf8(b);
    let w0 = ws[0].len() as int;
    assert(b.skip(w0) =~= tail_bytes(rest));
    let tail = tail_tokens(rest, w0);
    lemma_tail_covers(b, w0, rest, tail);
    assert(ts[0] == plain_word(0, w0));
    assert(b.subrange(0, w0) =~= ws[0]);
    assert forall|k: int| 0 <= k < n implies covers(#[trigger] ts[2 * k], b, ws[k]) by {
        if k > 0 {
            assert(covers_word(tail, b, rest, k - 1));
            assert(rest[k - 1] == ws[k]);
            assert(ts[2 * k] == tail[2 * (k - 1) + 1]);
        }
    }
    assert forall|k: int| 0 <= k < n - 1 implies #[trigger] ts[2 * k + 1].kind
        == TknView::Space by {
        assert(covers_word(tail, b, rest, k));
        assert(ts[2 * k + 1] == tail[2 * k]);
    }
    assert(ts[2 * n - 1] == tail.last());
    assert(is_line(ts, n)) by {
        assert forall|k: int| 0 <= k < n implies (#[trigger] ts[2 * k]).kind is Word by {
            assert(covers(ts[2 * k], b, ws[k]));
        }
    }
    let c = Source { ts, text, vars };
    let s = Cursor { pos: 0, cur: None, docs };
    lemma_line_items(c, n, 0, s, no_items());
    let words = words_from(ts, n, 0);
    assert(no_items().args + words =~= words);
    let it = Items { args: words, ..no_items() };
    reveal_with_fuel(word_value, 2);
    assert forall|k: int| 0 <= k < n implies word_value(#[trigger] words[k], b, vars)
        == decode_utf8(ws[k]) by {
        assert(covers(ts[2 * k], b, ws[k]));
        let t = ts[2 * k];
        let part = TknSpanView { kind: TknView::Literal, start: t.start, end: t.end };
        assert(words[k] == seq![part]);
        assert(words[k].drop_last() =~= Seq::empty());
        assert(part_value(part, b, vars) == text_of(b, t.start, t.end));
        assert(word_value(words[k], b, vars) =~= part_value(part, b, vars));
    }
    assert(args_value(words, b, vars) =~= texts_of(ws));
    assert(word_value(words[0], b, vars) == texts_of(ws)[0]);
    let node = node_of(c, it)->Ok_0;
    lemma_one_command(c, s, it, node);
}

/// The bytes of an assignment: a name, blanks, an equals sign, blanks, a value and a line feed.
pub open spec fn assignment_bytes(k: Seq<u8>, s1: Seq<u8>, s2: Seq<u8>, v: Seq<u8>) -> Seq<u8> {
    k + s1 + seq![EQUALS] + s2 + v + seq![LINE_FEED]
}

/// A space, where there are blanks.
spec fn space_if(i: int, e: int) -> Seq<TknSpanView> {
    if i < e {
        seq![TknSpanView { kind: TknView::Space, start: i, end: e }]
    } else {
        Seq::empty()
    }
}

/// The tokens of an assignment.
spec fn assignment_tokens(p1: int, p2: int, p3: int, p4: int) -> Seq<TknSpanView> {
    seq![plain_word(0, p1)] + space_if(p1, p2) + seq![
        TknSpanView { kind: TknView::Assign, start: p2, end: p2 + 1 },
    ] + space_if(p2 + 1, p3) + seq![
        plain_word(p3, p4),
        TknSpanView { kind: TknView::Newline, start: p4, end: p4 + 1 },
    ]
}

/// An equals sign is a token of its own.
pub proof fn lemma_equals(b: Seq<u8>, i: int, st: LexView)
    requires
        0 <= i < b.len(),
        b[i] == EQUALS,
    ensures
        token_at(b, i, st) == (
            st,
            Some(TknSpanView { kind: TknView::Assign, start: i, end: i + 1 }),
        ),
{
    reveal(token_at);
}

/// Splitting goes on after a token.
pub proof fn lemma_step(
    b: Seq<u8>,
    i: int,
    st: LexView,
    t: TknSpanView,
    after: LexView,
    last: LexView,
    rest: Seq<TknSpanView>,
)
    requires
        0 <= i < b.len(),
        token_at(b, i, st) == (after, Some(t)),
        raw_tokens(b, t.end, after) == (last, Some(rest)),
    ensures
        raw_tokens(b, i, st) == (last, Some(seq![t] + rest)),
{
}

/// Grouping a token that is no part of a word.
pub proof fn lemma_group_other(t: TknSpanView, rest: Seq<TknSpanView>, open: Seq<TknSpanView>)
    requires
        !is_part(t.kind),
    ensures
        grouped(seq![t] + rest, open) == word_of(open) + seq![t] + grouped(rest, Seq::empty()),
{
    assert((seq![t] + rest).skip(1) =~= rest);
}

/// Grouping a literal that begins a word.
proof fn lemma_group_literal(t: TknSpanView, rest: Seq<TknSpanView>)
    requires
        t.kind is Literal,
    ensures
        grouped(seq![t] + rest, Seq::empty()) == grouped(rest, seq![t]),
{
    assert((seq![t] + rest).skip(1) =~= rest);
    assert(Seq::<TknSpanView>::empty().push(t) =~= seq![t]);
}

/// Grouping blanks, where there are some.
proof fn lemma_group_blanks(
    i: int,
    e: int,
    t: TknSpanView,
    rest: Seq<TknSpanView>,
    open: Seq<TknSpanView>,
)
    requires
        !is_part(t.kind),
    ensures
        grouped(space_if(i, e) + (seq![t] + rest), open) == word_of(open) + space_if(i, e) + seq![t]
            + grouped(rest, Seq::empty()),
{
    let more = seq![t] + rest;
    lemma_group_other(t, rest, Seq::empty());
    lemma_group_other(t, rest, open);
    if i < e {
        let space = TknSpanView { kind: TknView::Space, start: i, end: e };
        lemma_group_other(space, more, open);
        assert(word_of(Seq::<TknSpanView>::empty()) =~= Seq::empty());
        assert(grouped(space_if(i, e) + more, open) =~= word_of(open) + space_if(i, e) + seq![t]
            + grouped(rest, Seq::empty()));
    } else {
        assert(space_if(i, e) + more =~= more);
        assert(word_of(open) + space_if(i, e) =~= word_of(open));
    }
}

/// An assignment is split into its name, its equals sign and its value.
proof fn lemma_assignment_lexed(k: Seq<u8>, s1: Seq<u8>, s2: Seq<u8>, v: Seq<u8>)
    requires
        plain(k),
        plain(v),
        all_of(ByteClass::Blank, s1),
        all_of(ByteClass::Blank, s2),
    ensures
        ({
            let p1 = k.len() as int;
            let p2 = p1 + s1.len();
            let p3 = p2 + 1 + s2.len();
            let p4 = p3 + v.len();
            lexed(assignment_bytes(k, s1, s2, v), fresh_state()).1 == Some(
                (assignment_tokens(p1, p2, p3, p4), Seq::<Seq<char>>::empty()),
            )
        }),
{
    let b = assignment_bytes(k, s1, s2, v);
    let st = fresh_state();
    let none = Seq::<TknSpanView>::empty();
    let p1 = k.len() as int;
    let p2 = p1 + s1.len();
    let p3 = p2 + 1 + s2.len();
    let p4 = p3 + v.len();
    assert forall|i: int| 0 <= i < p1 implies in_class(ByteClass::Literal, b[i]) by {
        assert(b[i] == k[i]);
    }
    assert forall|i: int| p1 <= i < p2 implies in_class(ByteClass::Blank, b[i]) by {
        assert(b[i] == s1[i - p1]);
    }
    assert(b[p2] == EQUALS);
    assert forall|i: int| p2 + 1 <= i < p3 implies in_class(ByteClass::Blank, b[i]) by {
        assert(b[i] == s2[i - p2 - 1]);
    }
    assert forall|i: int| p3 <= i < p4 implies in_class(ByteClass::Literal, b[i]) by {
        assert(b[i] == v[i - p3]);
    }
    assert(b[p4] == LINE_FEED);
    assert(b.len() == p4 + 1);
    assert(in_class(ByteClass::Literal, b[p3]));

    let key = TknSpanView { kind: TknView::Literal, start: 0, end: p1 };
    let eq = TknSpanView { kind: TknView::Assign, start: p2, end: p2 + 1 };
    let val = TknSpanView { kind: TknView::Literal, start: p3, end: p4 };
    let nl = TknSpanView { kind: TknView::Newline, start: p4, end: p4 + 1 };
    let sp1 = space_if(p1, p2);
    let sp2 = space_if(p2 + 1, p3);

    lemma_line_feed(b, p4, st);
    assert(raw_tokens(b, p4 + 1, st) == (st, Some(none)));
    lemma_step(b, p4, st, nl, st, st, none);
    let r4 = seq![nl] + none;
    lemma_literal(b, p3, p4, st);
    lemma_step(b, p3, st, val, st, st, r4);
    let r3 = seq![val] + r4;
    let r2s = sp2 + r3;
    if p2 + 1 < p3 {
        lemma_blanks(b, p2 + 1, p3, st);
        lemma_step(b, p2 + 1, st, sp2[0], st, st, r3);
    } else {
        assert(r2s =~= r3);
    }
    assert(raw_tokens(b, p2 + 1, st) == (st, Some(r2s)));
    lemma_equals(b, p2, st);
    lemma_step(b, p2, st, eq, st, st, r2s);
    let r2 = seq![eq] + r2s;
    let r1 = sp1 + r2;
    if p1 < p2 {
        lemma_blanks(b, p1, p2, st);
        lemma_step(b, p1, st, sp1[0], st, st, r2);
    } else {
        assert(r1 =~= r2);
    }
    assert(raw_tokens(b, p1, st) == (st, Some(r1)));
    assert(!in_class(ByteClass::Literal, b[p1]));
    lemma_literal(b, 0, p1, st);
    lemma_step(b, 0, st, key, st, st, r1);
    let r0 = seq![key] + r1;

    lemma_group_literal(key, r1);
    lemma_group_blanks(p1, p2, eq, r2s, seq![key]);
    assert(word_of(seq![key]) =~= seq![plain_word(0, p1)]);
    lemma_group_other(nl, none, seq![val]);
    assert(word_of(none) =~= none);
    assert(word_of(seq![val]) =~= seq![plain_word(p3, p4)]);
    lemma_group_literal(val, r4);
    let g3 = grouped(r3, none);
    assert(g3 =~= seq![plain_word(p3, p4), nl]);
    if p2 + 1 < p3 {
        lemma_group_other(sp2[0], r3, none);
    }
    assert(grouped(r2s, none) =~= sp2 + g3);
    let ts = assignment_tokens(p1, p2, p3, p4);
    assert(grouped(r0, none) =~= ts);

    lemma_no_parens(ts);
    assert(ts.last() == nl);
    assert(ts.drop_last().last() == plain_word(p3, p4));
    reveal_with_fuel(dangling, 2);
    assert(doc_texts(b, st.heredocs) =~= Seq::empty());
}

/// Tokens among which no parenthesis is leave none open.
pub proof fn lemma_no_parens(ts: Seq<TknSpanView>)
    requires
        forall|i: int| 0 <= i < ts.len() ==> !((#[trigger] ts[i]).kind is LParen),
    ensures
        open_parens(ts) == 0,
    decreases ts.len(),
{
    if ts.len() > 0 {
        lemma_no_parens(ts.drop_last());
    }
}

/// A line that assigns a plain value to a plain name sets that variable to that value, and
/// nothing else. Blanks on either side of the equals sign make no difference.
pub proof fn law_assignment_lines_set_variables(
    k: Seq<u8>,
    s1: Seq<u8>,
    s2: Seq<u8>,
    v: Seq<u8>,
    w: World,
    fate: Fate,
)
    requires
        valid_utf8(assignment_bytes(k, s1, s2, v)),
        plain(k),
        plain(v),
        all_of(ByteClass::Blank, s1),
        all_of(ByteClass::Blank, s2),
    ensures
        ({
            let b = assignment_bytes(k, s1, s2, v);
            let text = decode_utf8(b);
            &&& lexed(b, fresh_state()).1 matches Some((ts, docs))
            &&& parsed(
                Source { ts, text, vars: w.vars },
                Cursor { pos: 0, cur: None, docs },
            ).1 matches Ok(nodes)
            &&& driven(started(nodes), w, fate) == (
                World { vars: w.vars.insert(decode_utf8(k), decode_utf8(v)), ..w },
                Some(0i32),
            )
        }),
{
    let b = assignment_bytes(k, s1, s2, v);
    let text = decode_utf8(b);
    decode_utf8_encode_utf8(b);
    let p1 = k.len() as int;
    let p2 = p1 + s1.len();
    let p3 = p2 + 1 + s2.len();
    let p4 = p3 + v.len();
    let ts = assignment_tokens(p1, p2, p3, p4);
    let docs = Seq::<Seq<char>>::empty();
    lemma_assignment_lexed(k, s1, s2, v);
    let c = Source { ts, text, vars: w.vars };
    let s = Cursor { pos: 0, cur: None, docs };
    let key = seq![TknSpanView { kind: TknView::Literal, start: 0, end: p1 }];
    let val = seq![TknSpanView { kind: TknView::Literal, start: p3, end: p4 }];
    let before = s1.len() > 0;
    let after = s2.len() > 0;
    let eq = 1 + (if before { 1int } else { 0 });
    let at = eq + 1 + (if after { 1int } else { 0 });
    assert(ts.len() == at + 2);
    assert(ts[0].kind == TknView::Word(key));
    assert(ts[eq].kind == TknView::Assign);
    assert(ts[at].kind == TknView::Word(val));
    assert(ts[at + 1].kind == TknView::Newline);
    law_blanks_around_assignments(c, s, no_items(), key, val, before, after);
    let set = AssignmentView { lhs: key, rhs: val };
    let it = Items { env: no_items().env.push(set), ..no_items() };
    let node = AstView::Assignments { text, assignments: it.env };
    assert(node_of(c, it) == Ok::<AstView, SyntaxErrView>(node));
    lemma_one_command(c, s, it, node);
    law_driving_runs_the_trees(seq![node], w, fate);
    assert(seq![node].skip(1) =~= Seq::empty());
    reveal_with_fuel(ran_all, 2);
    reveal_with_fuel(vars_after, 2);
    reveal_with_fuel(word_value, 2);
    assert(it.env.drop_last() =~= Seq::empty());
    assert(key.drop_last() =~= Seq::empty());
    assert(val.drop_last() =~= Seq::empty());
    assert(b.subrange(0, p1) =~= k);
    assert(b.subrange(p3, p4) =~= v);
    assert(word_value(key, b, w.vars) =~= decode_utf8(k));
    assert(word_value(val, b, w.vars) =~= decode_utf8(v));
    assert(ran(node, w, fate).0.vars == w.vars.insert(decode_utf8(k), decode_utf8(v)));
}

/// The bytes of a command with a here-document: a word, the operator, a delimiter, and all
/// that stands in the lines after it.
pub open spec fn heredoc_bytes(w: Seq<u8>, d: Seq<u8>, lines: Seq<u8>) -> Seq<u8> {
    w + seq![SPACE, LESS, LESS, SPACE] + d + seq![LINE_FEED] + lines
}

/// A here-document operator whose delimiter is a plain word.
proof fn lemma_heredoc_operator(b: Seq<u8>, i: int, e: int, st: LexView)
    requires
        0 <= i,
        i + 3 < e < b.len(),
        b[i] == LESS,
        b[i + 1] == LESS,
        b[i + 2] == SPACE,
        forall|k: int| i + 3 <= k < e ==> in_class(ByteClass::Literal, b[k]),
        b[e] == LINE_FEED,
    ensures
        token_at(b, i, st) == (
            LexView { delimiters: st.delimiters.push(text_of(b, i + 3, e)), ..st },
            Some(TknSpanView { kind: TknView::Heredoc, start: i, end: i + 2 }),
        ),
{
    reveal(token_at);
    assert(in_class(ByteClass::Literal, b[i + 3]));
    lemma_run_is(b, i + 2, i + 3, ByteClass::Blank);
    assert forall|k: int| i + 3 <= k < e implies in_class(ByteClass::Target, b[k]) by {
        assert(in_class(ByteClass::Literal, b[k]));
    }
    lemma_run_is(b, i + 3, e, ByteClass::Target);
}

/// The tokens of a command with a here-document.
spec fn heredoc_tokens(p1: int, p2: int, end: int) -> Seq<TknSpanView> {
    seq![
        plain_word(0, p1),
        TknSpanView { kind: TknView::Space, start: p1, end: p1 + 1 },
        TknSpanView { kind: TknView::Heredoc, start: p1 + 1, end: p1 + 3 },
        TknSpanView { kind: TknView::Space, start: p1 + 3, end: p1 + 4 },
        plain_word(p1 + 4, p2),
        TknSpanView { kind: TknView::Newline, start: p2, end },
    ]
}

/// A command with a here-document is split into its words and its here-document.
proof fn lemma_heredoc_lexed(w: Seq<u8>, d: Seq<u8>, lines: Seq<u8>, s: int)
    requires
        plain(w),
        plain(d),
        ({
            let b = heredoc_bytes(w, d, lines);
            let body = (w.len() + d.len() + 5) as int;
            delimiter_line(b, body, decode_utf8(d)) == Some((s, b.len() as int))
        }),
    ensures
        ({
            let b = heredoc_bytes(w, d, lines);
            let p1 = w.len() as int;
            let p2 = p1 + 4 + d.len();
            lexed(b, fresh_state()).1 == Some(
                (heredoc_tokens(p1, p2, b.len() as int), seq![text_of(b, p2 + 1, s)]),
            )
        }),
{
    let b = heredoc_bytes(w, d, lines);
    let st = fresh_state();
    let none = Seq::<TknSpanView>::empty();
    let p1 = w.len() as int;
    let p2 = p1 + 4 + d.len();
    let end = b.len() as int;
    assert forall|i: int| 0 <= i < p1 implies in_class(ByteClass::Literal, b[i]) by {
        assert(b[i] == w[i]);
    }
    assert(b[p1] == SPACE && b[p1 + 1] == LESS && b[p1 + 2] == LESS && b[p1 + 3] == SPACE);
    assert forall|i: int| p1 + 4 <= i < p2 implies in_class(ByteClass::Literal, b[i]) by {
        assert(b[i] == d[i - p1 - 4]);
    }
    assert(b[p2] == LINE_FEED);
    assert(b.subrange(p1 + 4, p2) =~= d);
    assert(in_class(ByteClass::Literal, b[p1 + 4]));

    let ts = heredoc_tokens(p1, p2, end);
    let word = TknSpanView { kind: TknView::Literal, start: 0, end: p1 };
    let delim = TknSpanView { kind: TknView::Literal, start: p1 + 4, end: p2 };
    let name = decode_utf8(d);
    let due = LexView { delimiters: st.delimiters.push(name), ..st };
    let done = LexView {
        delimiters: Seq::empty(),
        heredocs: due.heredocs.push((p2 + 1, s)),
        ..due
    };
    assert(due.delimiters =~= seq![name]);
    law_heredoc_is_taken_verbatim(b, p2, due, name);
    assert(raw_tokens(b, end, done) == (done, Some(none)));
    lemma_step(b, p2, due, ts[5], done, done, none);
    let r4 = seq![ts[5]] + none;
    lemma_literal(b, p1 + 4, p2, due);
    lemma_step(b, p1 + 4, due, delim, due, done, r4);
    let r3 = seq![delim] + r4;
    lemma_blanks(b, p1 + 3, p1 + 4, due);
    lemma_step(b, p1 + 3, due, ts[3], due, done, r3);
    let r2 = seq![ts[3]] + r3;
    lemma_heredoc_operator(b, p1 + 1, p2, st);
    lemma_step(b, p1 + 1, st, ts[2], due, done, r2);
    let r1 = seq![ts[2]] + r2;
    lemma_blanks(b, p1, p1 + 1, st);
    lemma_step(b, p1, st, ts[1], st, done, r1);
    let r0 = seq![ts[1]] + r1;
    lemma_literal(b, 0, p1, st);
    lemma_step(b, 0, st, word, st, done, r0);
    let raw = seq![word] + r0;

    lemma_group_literal(word, r0);
    lemma_group_other(ts[1], r1, seq![word]);
    lemma_group_other(ts[2], r2, none);
    lemma_group_other(ts[3], r3, none);
    lemma_group_literal(delim, r4);
    lemma_group_other(ts[5], none, seq![delim]);
    assert(word_of(none) =~= none);
    assert(word_of(seq![word]) =~= seq![ts[0]]);
    assert(word_of(seq![delim]) =~= seq![ts[4]]);
    assert(grouped(raw, none) =~= ts);

    lemma_no_parens(ts);
    assert(ts.drop_last().last() == ts[4]);
    reveal_with_fuel(dangling, 2);
    assert(doc_texts(b, done.heredocs) =~= seq![text_of(b, p2 + 1, s)]);
}

/// A word with a here-document after it is one command, which is given to read exactly what
/// stands between its line and the line of the delimiter.
pub proof fn law_heredoc_lines_feed_their_command(
    w: Seq<u8>,
    d: Seq<u8>,
    lines: Seq<u8>,
    s: int,
    vars: VarMap,
)
    requires
        valid_utf8(heredoc_bytes(w, d, lines)),
        plain(w),
        plain(d),
        !builtin_table().contains_key(decode_utf8(w)),
        ({
            let b = heredoc_bytes(w, d, lines);
            let body = (w.len() + d.len() + 5) as int;
            delimiter_line(b, body, decode_utf8(d)) == Some((s, b.len() as int))
        }),
    ensures
        ({
            let b = heredoc_bytes(w, d, lines);
            let text = decode_utf8(b);
            let body = (w.len() + d.len() + 5) as int;
            &&& lexed(b, fresh_state()).1 matches Some((ts, docs))
            &&& parsed(Source { ts, text, vars }, Cursor { pos: 0, cur: None, docs }).1 matches Ok(
                nodes,
            )
            &&& nodes.len() == 1
            &&& nodes[0] matches AstView::Prog(p)
            &&& spawn_of(p, Stream::Inherit, Stream::Inherit, vars).program == decode_utf8(w)
            &&& spawn_of(p, Stream::Inherit, Stream::Inherit, vars).feeds == seq![
                FeedView::Text(text_of(b, body, s)),
            ]
        }),
{
    let b = heredoc_bytes(w, d, lines);
    let text = decode_utf8(b);
    decode_utf8_encode_utf8(b);
    let p1 = w.len() as int;
    let p2 = p1 + 4 + d.len();
    let ts = heredoc_tokens(p1, p2, b.len() as int);
    lemma_heredoc_lexed(w, d, lines, s);
    let doc = text_of(b, p2 + 1, s);
    let docs = seq![doc];
    let c = Source { ts, text, vars };
    let s0 = Cursor { pos: 0, cur: None, docs };
    let word = seq![TknSpanView { kind: TknView::Literal, start: 0, end: p1 }];
    let delim = seq![TknSpanView { kind: TknView::Literal, start: p1 + 4, end: p2 }];
    assert(ts[0].kind == TknView::Word(word));
    assert(ts[4].kind == TknView::Word(delim));
    let it1 = Items { args: no_items().args.push(word), ..no_items() };
    let s1 = stepped(c, s0);
    let s2 = past_blank(c, s1);
    assert(next_kind(c, s2) == Some(TknView::Heredoc));
    assert(items(c, s0, no_items()) == items(c, s2, it1));
    law_heredocs_are_taken_in_order(c, s2, it1, delim, true);
    let it2 = Items { ins: it1.ins.push(from_doc(doc)), ..it1 };
    let left = docs.skip(1);
    let s3 = Cursor { pos: 5, cur: Some(TknView::Word(delim)), docs: left };
    assert(items(c, s2, it1) == items(c, s3, it2));
    let end = Cursor { pos: 6, cur: Some(TknView::Newline), docs: left };
    assert(stepped(c, s3) == end);
    assert(items(c, s3, it2) == (end, Ok::<Items, SyntaxErrView>(it2)));
    reveal_with_fuel(word_value, 2);
    assert(word.drop_last() =~= Seq::empty());
    assert(b.subrange(0, p1) =~= w);
    assert(word_value(word, b, vars) =~= decode_utf8(w));
    let p = CommandView { text, args: it2.args, ins: it2.ins, outs: it2.outs, env: it2.env };
    let node = AstView::Prog(p);
    assert(it2.args[0] == word);
    assert(node_of(c, it2) == Ok::<AstView, SyntaxErrView>(node));
    lemma_one_command(c, s0, it2, node);
    reveal_with_fuel(feeds_of, 2);
    assert(it2.ins.drop_last() =~= Seq::empty());
    assert(feeds_of(p.ins, b, vars) =~= seq![FeedView::Text(doc)]);
}

} // verus!
