//! What whole lines ask for: from the characters of a command to the program, the arguments, the
//! variables and the files that it asks the system for.

use crate::ast::{AssignmentView, AstView, CommandView, Redir};
use crate::builtins::builtin_table;
use crate::executor::{
    driven, law_driving_runs_the_trees, ran, ran_all, started, vars_after, Fate, World,
};
use crate::grammar::{
    items, next_kind, no_items, node_of, parsed, past_blank, stepped, to_file, Cursor, Items,
    Source, SyntaxErrView,
};
use crate::laws::{law_blanks_around_assignments, law_redirections_stand_anywhere};
use crate::lexer::{
    dangling, doc_texts, fresh_state, grouped, is_part, lexed, raw_tokens, token_at, word_of,
    LexView,
};
use crate::lines::{
    lemma_blanks, lemma_equals, lemma_group_other, lemma_line_feed, lemma_no_parens,
    lemma_one_command, lemma_step,
};
use crate::scan::{run_end, target_at, ByteClass};
use crate::spawn::{env_of, feeds_of, outs_of, spawn_of, FeedView, OutFileView, SpawnView, Stream};
use crate::spelling::{
    atom_text, bare_char, chunks_value, ends_word, good_chunks, good_word, has_target, held,
    is_name, law_bytes_of_words_and_blanks, law_words_read_as_they_are_spelled, lemma_says_ascii,
    lemma_says_boundary, lemma_says_first, lemma_says_join, lemma_width, says_at, spelled_value,
    width, word_text, Atom, Chunk,
};
use crate::splitting::lemma_parts_grouped;
use crate::text::lemma_ascii_boundary;
use crate::token::{token_text, TknSpanView, TknView};
use crate::vars::VarMap;
use crate::word::{args_value, word_value};
use crate::written::{lemma_any_cur, lemma_read_blank, lemma_read_end, stand_at};
use vstd::prelude::*;
use vstd::string::*;
use vstd::utf8::*;

verus! {

broadcast use vstd::seq::group_seq_axioms;

/// One piece of a command.
pub enum Piece {
    /// The name of the command, or an argument.
    Arg(Seq<Atom>),
    /// `>` and a file.
    Out(Seq<Atom>),
    /// `>>` and a file.
    Append(Seq<Atom>),
    /// `<` and a file.
    In(Seq<Atom>),
    /// A name, an equals sign and a value.
    Put(Seq<char>, Seq<Atom>),
}

/// The word of a piece.
pub open spec fn piece_word(p: Piece) -> Seq<Atom> {
    match p {
        Piece::Arg(w) => w,
        Piece::Out(w) => w,
        Piece::Append(w) => w,
        Piece::In(w) => w,
        Piece::Put(_, w) => w,
    }
}

/// What stands before the word of a piece.
pub open spec fn piece_lead(p: Piece) -> Seq<char> {
    match p {
        Piece::Arg(_) => Seq::empty(),
        Piece::Out(_) => seq!['>', ' '],
        Piece::Append(_) => seq!['>', '>', ' '],
        Piece::In(_) => seq!['<', ' '],
        Piece::Put(k, _) => k + seq!['='],
    }
}

/// How a piece is written.
pub open spec fn piece_text(p: Piece) -> Seq<char> {
    piece_lead(p) + word_text(piece_word(p))
}

/// What stands after the first of some pieces.
pub open spec fn after_first(ps: Seq<Piece>) -> char {
    if ps.len() == 1 {
        '\n'
    } else {
        ' '
    }
}

/// A line: pieces with a space between each two of them, and a line feed.
pub open spec fn line_text(ps: Seq<Piece>) -> Seq<char>
    decreases ps.len(),
{
    if ps.len() == 0 {
        Seq::empty()
    } else {
        piece_text(ps[0]) + (seq![after_first(ps)] + line_text(ps.skip(1)))
    }
}

/// Whether pieces can be written.
pub open spec fn good_pieces(ps: Seq<Piece>) -> bool
    decreases ps.len(),
{
    ps.len() > 0 ==> {
        &&& good_pieces(ps.skip(1))
        &&& piece_word(ps[0]).len() > 0
        &&& good_word(piece_word(ps[0]), after_first(ps))
        &&& ps[0] matches Piece::Put(k, _) ==> good_word(seq![Atom::Bare(k)], '=')
    }
}

/// What the arguments read as.
pub open spec fn arg_values(ps: Seq<Piece>, vars: VarMap) -> Seq<Seq<char>>
    decreases ps.len(),
{
    if ps.len() == 0 {
        Seq::empty()
    } else {
        let more = arg_values(ps.skip(1), vars);
        match ps[0] {
            Piece::Arg(w) => seq![spelled_value(w, vars)] + more,
            _ => more,
        }
    }
}

/// The names and values that are set, each read on its own.
pub open spec fn set_pairs(ps: Seq<Piece>, vars: VarMap) -> Seq<(Seq<char>, Seq<char>)>
    decreases ps.len(),
{
    if ps.len() == 0 {
        Seq::empty()
    } else {
        let more = set_pairs(ps.skip(1), vars);
        match ps[0] {
            Piece::Put(k, w) => seq![(k, spelled_value(w, vars))] + more,
            _ => more,
        }
    }
}

/// The variables after all that is set, one after the other.
pub open spec fn set_in_turn(ps: Seq<Piece>, vars: VarMap) -> VarMap
    decreases ps.len(),
{
    if ps.len() == 0 {
        vars
    } else {
        match ps[0] {
            Piece::Put(k, w) => set_in_turn(ps.skip(1), vars.insert(k, spelled_value(w, vars))),
            _ => set_in_turn(ps.skip(1), vars),
        }
    }
}

/// The files that output goes to.
pub open spec fn out_files(ps: Seq<Piece>, vars: VarMap) -> Seq<OutFileView>
    decreases ps.len(),
{
    if ps.len() == 0 {
        Seq::empty()
    } else {
        let more = out_files(ps.skip(1), vars);
        match ps[0] {
            Piece::Out(w) => seq![OutFileView::Truncate(spelled_value(w, vars))] + more,
            Piece::Append(w) => seq![OutFileView::Append(spelled_value(w, vars))] + more,
            _ => more,
        }
    }
}

/// The files that input comes from, each called by what its word begins with.
pub open spec fn in_files(ps: Seq<Piece>, vars: VarMap) -> Seq<FeedView>
    decreases ps.len(),
{
    if ps.len() == 0 {
        Seq::empty()
    } else {
        let more = in_files(ps.skip(1), vars);
        match ps[0] {
            Piece::In(w) => seq![
                FeedView::File { path: spelled_value(w, vars), shown: atom_text(w[0]) },
            ] + more,
            _ => more,
        }
    }
}

/// Whether a token is a word that reads as `w` stands for.
pub open spec fn is_word(t: TknSpanView, b: Seq<u8>, w: Seq<Atom>) -> bool {
    &&& t.kind matches TknView::Word(q)
    &&& q.len() > 0
    &&& token_text(b, q[0]) == atom_text(w[0])
    &&& forall|vars: VarMap| #[trigger] word_value(q, b, vars) == spelled_value(w, vars)
}

/// The token after the first of some pieces.
spec fn sep_kind(ps: Seq<Piece>) -> TknView {
    if ps.len() == 1 {
        TknView::Newline
    } else {
        TknView::Space
    }
}

/// How many tokens a piece is made of, with the one after it.
spec fn piece_len(p: Piece) -> int {
    if p is Arg {
        2
    } else {
        4
    }
}

/// Whether tokens are those of a piece and of what stands after it.
spec fn is_piece(ts: Seq<TknSpanView>, b: Seq<u8>, ps: Seq<Piece>) -> bool {
    &&& ts.len() >= piece_len(ps[0])
    &&& match ps[0] {
        Piece::Arg(w) => is_word(ts[0], b, w) && ts[1].kind == sep_kind(ps),
        Piece::Out(w) => {
            &&& ts[0].kind is RedirectOut && ts[1].kind is Space
            &&& is_word(ts[2], b, w) && ts[3].kind == sep_kind(ps)
        },
        Piece::Append(w) => {
            &&& ts[0].kind is RedirectAppend && ts[1].kind is Space
            &&& is_word(ts[2], b, w) && ts[3].kind == sep_kind(ps)
        },
        Piece::In(w) => {
            &&& ts[0].kind is RedirectIn && ts[1].kind is Space
            &&& is_word(ts[2], b, w) && ts[3].kind == sep_kind(ps)
        },
        Piece::Put(k, w) => {
            &&& is_word(ts[0], b, seq![Atom::Bare(k)]) && ts[1].kind is Assign
            &&& is_word(ts[2], b, w) && ts[3].kind == sep_kind(ps)
        },
    }
}

/// Whether tokens are those of a line.
spec fn laid_out(ts: Seq<TknSpanView>, b: Seq<u8>, ps: Seq<Piece>) -> bool
    decreases ps.len(),
{
    if ps.len() == 0 {
        ts.len() == 0
    } else {
        is_piece(ts, b, ps) && laid_out(ts.skip(piece_len(ps[0])), b, ps.skip(1))
    }
}

/// A word with a token after it, split and grouped.
proof fn lemma_word_then(
    b: Seq<u8>,
    i: int,
    w: Seq<Atom>,
    after: char,
    st: LexView,
    t: TknSpanView,
    raw: Seq<TknSpanView>,
    ts: Seq<TknSpanView>,
) -> (r: (Seq<TknSpanView>, TknSpanView))
    requires
        valid_utf8(b),
        is_char_boundary(b, i),
        says_at(b, i, word_text(w) + seq![after]),
        ends_word(after),
        w.len() > 0,
        good_word(w, after),
        !is_part(t.kind),
        raw_tokens(b, i + width(word_text(w)), st) == (st, Some(seq![t] + raw)),
        grouped(raw, Seq::empty()) == ts,
    ensures
        raw_tokens(b, i, st) == (st, Some(r.0 + (seq![t] + raw))),
        grouped(r.0 + (seq![t] + raw), Seq::empty()) == seq![r.1] + (seq![t] + ts),
        is_word(r.1, b, w),
        run_end(b, i, ByteClass::Blank) == i,
        has_target(b, i),
{
    let none = Seq::<TknSpanView>::empty();
    let parts = law_words_read_as_they_are_spelled(b, i, w, after, st, st, seq![t] + raw);
    lemma_parts_grouped(parts, seq![t] + raw, none);
    assert(none + parts =~= parts);
    lemma_group_other(t, raw, parts);
    let word = TknSpanView {
        kind: TknView::Word(parts),
        start: parts[0].start,
        end: parts.last().end,
    };
    assert(word_of(parts) =~= seq![word]);
    assert(word_of(parts) + seq![t] + ts =~= seq![word] + (seq![t] + ts));
    (parts, word)
}

/// One token that is no part of a word, split and grouped.
proof fn lemma_token_then(
    b: Seq<u8>,
    i: int,
    st: LexView,
    t: TknSpanView,
    raw: Seq<TknSpanView>,
    ts: Seq<TknSpanView>,
)
    requires
        0 <= i < b.len(),
        token_at(b, i, st) == (st, Some(t)),
        !is_part(t.kind),
        raw_tokens(b, t.end, st) == (st, Some(raw)),
        grouped(raw, Seq::empty()) == ts,
    ensures
        raw_tokens(b, i, st) == (st, Some(seq![t] + raw)),
        grouped(seq![t] + raw, Seq::empty()) == seq![t] + ts,
{
    lemma_step(b, i, st, t, st, st, raw);
    lemma_group_other(t, raw, Seq::empty());
    assert(word_of(Seq::<TknSpanView>::empty()) =~= Seq::empty());
    assert(Seq::<TknSpanView>::empty() + seq![t] + ts =~= seq![t] + ts);
}

/// A redirection operator with a blank and a target after it.
proof fn lemma_operator(b: Seq<u8>, i: int, n: int, st: LexView) -> (t: TknSpanView)
    requires
        0 <= i,
        n == 1 || n == 2,
        i + n + 1 < b.len(),
        b[i] == '<' as u8 || b[i] == '>' as u8,
        n == 2 ==> b[i] == '>' as u8 && b[i + 1] == '>' as u8,
        b[i + n] == ' ' as u8,
        run_end(b, i + n + 1, ByteClass::Blank) == i + n + 1,
        has_target(b, i + n + 1),
    ensures
        token_at(b, i, st) == (st, Some(t)),
        t.end == i + n,
        t.kind == if b[i] == '<' as u8 {
            TknView::RedirectIn
        } else if n == 1 {
            TknView::RedirectOut
        } else {
            TknView::RedirectAppend
        },
        token_at(b, i + n, st) == (
            st,
            Some(TknSpanView { kind: TknView::Space, start: i + n, end: i + n + 1 }),
        ),
{
    reveal(token_at);
    law_bytes_of_words_and_blanks(b[i]);
    law_bytes_of_words_and_blanks(b[i + n]);
    law_bytes_of_words_and_blanks(b[i + n + 1]);
    assert(run_end(b, i + n, ByteClass::Blank) == i + n + 1);
    assert(target_at(b, i + n) == target_at(b, i + n + 1));
    token_at(b, i, st).1->Some_0
}

/// What begins a piece is no blank.
proof fn lemma_piece_first(ps: Seq<Piece>)
    requires
        ps.len() > 0,
        good_pieces(ps),
    ensures
        line_text(ps).len() > 0,
        line_text(ps)[0] != ' ' && line_text(ps)[0] != '\t' && line_text(ps)[0] != '\u{c}',
{
    let w = piece_word(ps[0]);
    assert(word_text(w).len() > 0 && word_text(w)[0] == atom_text(w[0])[0]) by {
        assert(atom_text(w[0]).len() > 0);
    }
    let x = piece_text(ps[0]);
    assert(line_text(ps)[0] == x[0]);
    match ps[0] {
        Piece::Arg(_) => {
            assert(x =~= word_text(w));
        },
        Piece::Put(k, _) => {
            let one = seq![Atom::Bare(k)];
            assert(one[0] == Atom::Bare(k));
            assert(bare_char(k[0]));
            assert(x[0] == k[0]);
        },
        _ => {},
    }
}

/// What stands before the word of a piece, as tokens.
spec fn is_lead(ts: Seq<TknSpanView>, b: Seq<u8>, p: Piece) -> bool {
    match p {
        Piece::Arg(_) => ts.len() == 0,
        Piece::Out(_) => ts.len() == 2 && ts[0].kind is RedirectOut && ts[1].kind is Space,
        Piece::Append(_) => ts.len() == 2 && ts[0].kind is RedirectAppend && ts[1].kind is Space,
        Piece::In(_) => ts.len() == 2 && ts[0].kind is RedirectIn && ts[1].kind is Space,
        Piece::Put(k, _) => ts.len() == 2 && is_word(ts[0], b, seq![Atom::Bare(k)]) && ts[1].kind
            is Assign,
    }
}

/// What stands before the word of a piece is split into its tokens.
proof fn lemma_lead(
    b: Seq<u8>,
    i: int,
    p: Piece,
    st: LexView,
    raw: Seq<TknSpanView>,
    ts: Seq<TknSpanView>,
) -> (r: (Seq<TknSpanView>, Seq<TknSpanView>))
    requires
        valid_utf8(b),
        is_char_boundary(b, i),
        says_at(b, i, piece_lead(p)),
        i + width(piece_lead(p)) < b.len(),
        raw_tokens(b, i + width(piece_lead(p)), st) == (st, Some(raw)),
        grouped(raw, Seq::empty()) == ts,
        run_end(b, i + width(piece_lead(p)), ByteClass::Blank) == i + width(piece_lead(p)),
        has_target(b, i + width(piece_lead(p))),
        p matches Piece::Put(k, _) ==> good_word(seq![Atom::Bare(k)], '='),
    ensures
        raw_tokens(b, i, st) == (st, Some(r.0)),
        grouped(r.0, Seq::empty()) == r.1 + ts,
        is_lead(r.1, b, p),
{
    let lead = piece_lead(p);
    let m = i + width(lead);
    let none = Seq::<TknSpanView>::empty();
    match p {
        Piece::Arg(_) => {
            lemma_width(lead);
            assert(none + ts =~= ts);
            (raw, none)
        },
        Piece::Put(k, _) => {
            lemma_says_join(b, i, k, seq!['=']);
            let q = i + width(k);
            lemma_says_ascii(b, q, '=');
            lemma_equals(b, q, st);
            let eq = TknSpanView { kind: TknView::Assign, start: q, end: q + 1 };
            lemma_token_then(b, q, st, eq, raw, ts);
            let name = seq![Atom::Bare(k)];
            assert(name.skip(1) =~= Seq::<Atom>::empty());
            reveal_with_fuel(word_text, 2);
            assert(word_text(name) =~= k);
            let (parts0, word0) = lemma_word_then(b, i, name, '=', st, eq, raw, ts);
            let front = seq![word0, eq];
            assert(front + ts =~= seq![word0] + (seq![eq] + ts));
            (parts0 + (seq![eq] + raw), front)
        },
        _ => {
            let n: int = if p is Append {
                2
            } else {
                1
            };
            let c0 = lead[0];
            assert(c0 == '<' || c0 == '>');
            if n == 1 {
                assert(lead =~= seq![c0] + seq![' ']);
                lemma_says_join(b, i, seq![c0], seq![' ']);
                lemma_says_ascii(b, i, c0);
                lemma_says_ascii(b, i + 1, ' ');
            } else {
                assert(lead =~= seq!['>'] + (seq!['>'] + seq![' ']));
                lemma_says_join(b, i, seq!['>'], seq!['>'] + seq![' ']);
                lemma_says_join(b, i + 1, seq!['>'], seq![' ']);
                lemma_says_ascii(b, i, '>');
                lemma_says_ascii(b, i + 1, '>');
                lemma_says_ascii(b, i + 2, ' ');
            }
            assert(m == i + n + 1);
            let t = lemma_operator(b, i, n, st);
            let space = TknSpanView { kind: TknView::Space, start: i + n, end: i + n + 1 };
            lemma_token_then(b, i + n, st, space, raw, ts);
            lemma_token_then(b, i, st, t, seq![space] + raw, seq![space] + ts);
            let front = seq![t, space];
            assert(front + ts =~= seq![t] + (seq![space] + ts));
            (seq![t] + (seq![space] + raw), front)
        },
    }
}

/// A line is split into the tokens of its pieces.
proof fn lemma_line(
    b: Seq<u8>,
    i: int,
    ps: Seq<Piece>,
    st: LexView,
) -> (r: (Seq<TknSpanView>, Seq<TknSpanView>))
    requires
        valid_utf8(b),
        is_char_boundary(b, i),
        says_at(b, i, line_text(ps)),
        i + width(line_text(ps)) == b.len(),
        good_pieces(ps),
        st.delimiters.len() == 0,
    ensures
        raw_tokens(b, i, st) == (st, Some(r.0)),
        grouped(r.0, Seq::empty()) == r.1,
        laid_out(r.1, b, ps),
        forall|k: int| 0 <= k < r.1.len() ==> !((#[trigger] r.1[k]).kind is LParen),
        ps.len() > 0 ==> {
            &&& r.1.len() >= 2
            &&& r.1.last().kind is Newline
            &&& r.1[r.1.len() - 2].kind is Word
        },
    decreases ps.len(),
{
    let none = Seq::<TknSpanView>::empty();
    if ps.len() == 0 {
        lemma_width(line_text(ps));
        assert(word_of(none) =~= none);
        (none, none)
    } else {
        let p = ps[0];
        let w = piece_word(p);
        let lead = piece_lead(p);
        let after = after_first(ps);
        let rest = ps.skip(1);
        let tail = line_text(rest);
        let wt = word_text(w);
        assert(line_text(ps) =~= lead + (wt + (seq![after] + tail)));
        lemma_says_join(b, i, lead, wt + (seq![after] + tail));
        let m = i + width(lead);
        lemma_says_boundary(b, i, lead);
        lemma_says_join(b, m, wt, seq![after] + tail);
        let e = m + width(wt);
        lemma_says_boundary(b, m, wt);
        lemma_says_join(b, e, seq![after], tail);
        lemma_says_ascii(b, e, after);
        lemma_says_join(b, m, wt, seq![after]);
        lemma_says_boundary(b, e, seq![after]);
        let (raw1, ts1) = lemma_line(b, e + 1, rest, st);
        let sep = TknSpanView { kind: sep_kind(ps), start: e, end: e + 1 };
        lemma_separator(b, e, ps, st);
        lemma_token_then(b, e, st, sep, raw1, ts1);
        let (parts, word) = lemma_word_then(b, m, w, after, st, sep, raw1, ts1);
        let raw2 = parts + (seq![sep] + raw1);
        let ts2 = seq![word] + (seq![sep] + ts1);
        lemma_width(wt);
        let (raw3, front) = lemma_lead(b, i, p, st, raw2, ts2);
        let ts3 = front + ts2;
        lemma_laid_out(b, ps, front, word, sep, ts1);
        (raw3, ts3)
    }
}

/// What stands after a piece is one token.
proof fn lemma_separator(b: Seq<u8>, e: int, ps: Seq<Piece>, st: LexView)
    requires
        valid_utf8(b),
        0 <= e < b.len(),
        is_char_boundary(b, e + 1),
        ps.len() > 0,
        good_pieces(ps),
        b[e] == after_first(ps) as u8,
        says_at(b, e + 1, line_text(ps.skip(1))),
        st.delimiters.len() == 0,
    ensures
        token_at(b, e, st) == (
            st,
            Some(TknSpanView { kind: sep_kind(ps), start: e, end: e + 1 }),
        ),
{
    if ps.len() == 1 {
        lemma_line_feed(b, e, st);
    } else {
        let rest = ps.skip(1);
        let tail = line_text(rest);
        lemma_piece_first(rest);
        lemma_says_first(b, e + 1, tail);
        if b[e + 1] <= 0x7f {
            lemma_ascii_boundary(b, e + 1);
        }
        law_bytes_of_words_and_blanks(b[e]);
        law_bytes_of_words_and_blanks(b[e + 1]);
        lemma_blanks(b, e, e + 1, st);
    }
}

/// The tokens of a piece before the tokens of the others.
proof fn lemma_laid_out(
    b: Seq<u8>,
    ps: Seq<Piece>,
    front: Seq<TknSpanView>,
    word: TknSpanView,
    sep: TknSpanView,
    ts1: Seq<TknSpanView>,
)
    requires
        ps.len() > 0,
        is_lead(front, b, ps[0]),
        is_word(word, b, piece_word(ps[0])),
        sep.kind == sep_kind(ps),
        laid_out(ts1, b, ps.skip(1)),
        forall|k: int| 0 <= k < ts1.len() ==> !((#[trigger] ts1[k]).kind is LParen),
        ps.len() > 1 ==> ts1.len() >= 2 && ts1.last().kind is Newline && ts1[ts1.len() - 2].kind
            is Word,
    ensures
        ({
            let ts = front + (seq![word] + (seq![sep] + ts1));
            &&& laid_out(ts, b, ps)
            &&& forall|k: int| 0 <= k < ts.len() ==> !((#[trigger] ts[k]).kind is LParen)
            &&& ts.len() >= 2
            &&& ts.last().kind is Newline
            &&& ts[ts.len() - 2].kind is Word
        }),
{
    let ts = front + (seq![word] + (seq![sep] + ts1));
    let n = piece_len(ps[0]);
    assert(front.len() == n - 2);
    assert(ts[n - 2] == word && ts[n - 1] == sep);
    if n == 4 {
        assert(ts[0] == front[0] && ts[1] == front[1]);
    }
    assert(ts.skip(n) =~= ts1);
    assert(is_piece(ts, b, ps));
    assert forall|k: int| 0 <= k < ts.len() implies !((#[trigger] ts[k]).kind is LParen) by {
        if k >= n {
            assert(ts[k] == ts1[k - n]);
        }
    }
    if ps.len() > 1 {
        assert(ts.last() == ts1.last());
        assert(ts[ts.len() - 2] == ts1[ts1.len() - 2]);
    } else {
        assert(ts1.len() == 0);
    }
}

/// What the pieces of a line add to a command.
spec fn adds(b: Seq<u8>, it: Items, r: Items, ps: Seq<Piece>, vars: VarMap) -> bool {
    &&& args_value(r.args, b, vars) == args_value(it.args, b, vars) + arg_values(ps, vars)
    &&& env_of(r.env, b, vars) == env_of(it.env, b, vars) + set_pairs(ps, vars)
    &&& outs_of(r.outs, b, vars) == outs_of(it.outs, b, vars) + out_files(ps, vars)
    &&& feeds_of(r.ins, b, vars) == feeds_of(it.ins, b, vars) + in_files(ps, vars)
    &&& vars_after(vars, r.env, b) == set_in_turn(ps, vars_after(vars, it.env, b))
}

/// What one piece adds to a command.
spec fn with_piece(it: Items, ts: Seq<TknSpanView>, p: Piece) -> Items {
    match p {
        Piece::Arg(_) => Items { args: it.args.push(ts[0].kind->Word_0), ..it },
        Piece::Out(_) => Items {
            outs: it.outs.push(to_file(Redir::Out, ts[2].kind->Word_0)),
            ..it
        },
        Piece::Append(_) => Items {
            outs: it.outs.push(to_file(Redir::Append, ts[2].kind->Word_0)),
            ..it
        },
        Piece::In(_) => Items { ins: it.ins.push(to_file(Redir::In, ts[2].kind->Word_0)), ..it },
        Piece::Put(_, _) => Items {
            env: it.env.push(
                AssignmentView { lhs: ts[0].kind->Word_0, rhs: ts[2].kind->Word_0 },
            ),
            ..it
        },
    }
}

/// One piece adds what it says.
proof fn lemma_adds_one(
    b: Seq<u8>,
    it: Items,
    ts: Seq<TknSpanView>,
    ps: Seq<Piece>,
    r: Items,
    vars: VarMap,
)
    requires
        ps.len() > 0,
        is_piece(ts, b, ps),
        adds(b, with_piece(it, ts, ps[0]), r, ps.skip(1), vars),
    ensures
        adds(b, it, r, ps, vars),
{
    let p = ps[0];
    let rest = ps.skip(1);
    let w = piece_word(p);
    let one = with_piece(it, ts, p);
    match p {
        Piece::Arg(_) => {
            let q = ts[0].kind->Word_0;
            assert(word_value(q, b, vars) == spelled_value(w, vars));
            assert(args_value(one.args, b, vars) =~= args_value(it.args, b, vars).push(
                spelled_value(w, vars),
            ));
            assert(args_value(one.args, b, vars) + arg_values(rest, vars) =~= args_value(
                it.args,
                b,
                vars,
            ) + arg_values(ps, vars));
        },
        Piece::Out(_) => {
            let q = ts[2].kind->Word_0;
            assert(word_value(q, b, vars) == spelled_value(w, vars));
            assert(outs_of(one.outs, b, vars) =~= outs_of(it.outs, b, vars).push(
                OutFileView::Truncate(spelled_value(w, vars)),
            ));
            assert(outs_of(one.outs, b, vars) + out_files(rest, vars) =~= outs_of(it.outs, b, vars)
                + out_files(ps, vars));
        },
        Piece::Append(_) => {
            let q = ts[2].kind->Word_0;
            assert(word_value(q, b, vars) == spelled_value(w, vars));
            assert(outs_of(one.outs, b, vars) =~= outs_of(it.outs, b, vars).push(
                OutFileView::Append(spelled_value(w, vars)),
            ));
            assert(outs_of(one.outs, b, vars) + out_files(rest, vars) =~= outs_of(it.outs, b, vars)
                + out_files(ps, vars));
        },
        Piece::In(_) => {
            let q = ts[2].kind->Word_0;
            assert(word_value(q, b, vars) == spelled_value(w, vars));
            assert(one.ins.drop_last() =~= it.ins);
            let f = FeedView::File { path: spelled_value(w, vars), shown: atom_text(w[0]) };
            assert(feeds_of(one.ins, b, vars) =~= feeds_of(it.ins, b, vars).push(f));
            assert(feeds_of(one.ins, b, vars) + in_files(rest, vars) =~= feeds_of(it.ins, b, vars)
                + in_files(ps, vars));
        },
        Piece::Put(k, _) => {
            let name = seq![Atom::Bare(k)];
            let q0 = ts[0].kind->Word_0;
            let q = ts[2].kind->Word_0;
            reveal_with_fuel(spelled_value, 2);
            assert(name.skip(1) =~= Seq::<Atom>::empty());
            assert forall|vs: VarMap| #[trigger] word_value(q0, b, vs) == k by {
                assert(spelled_value(name, vs) =~= k);
            }
            assert(word_value(q, b, vars) == spelled_value(w, vars));
            assert(env_of(one.env, b, vars) =~= env_of(it.env, b, vars).push(
                (k, spelled_value(w, vars)),
            ));
            assert(env_of(one.env, b, vars) + set_pairs(rest, vars) =~= env_of(it.env, b, vars)
                + set_pairs(ps, vars));
            assert(one.env.drop_last() =~= it.env);
            let before = vars_after(vars, it.env, b);
            assert(word_value(q, b, before) == spelled_value(w, before));
            assert(word_value(q0, b, before) == k);
            assert(vars_after(vars, one.env, b) == before.insert(k, spelled_value(w, before)));
        },
    }
}

/// A line is read as a command with all its pieces.
proof fn lemma_line_read(
    c: Source,
    s: Cursor,
    it: Items,
    ps: Seq<Piece>,
    b: Seq<u8>,
) -> (r: Items)
    requires
        ps.len() > 0,
        0 <= s.pos <= c.ts.len(),
        laid_out(c.ts.skip(s.pos), b, ps),
    ensures
        items(c, s, it) == (
            Cursor { pos: c.ts.len() as int, cur: Some(TknView::Newline), docs: s.docs },
            Ok::<Items, SyntaxErrView>(r),
        ),
        forall|vars: VarMap| #[trigger] adds(b, it, r, ps, vars),
        r.inner == it.inner,
    decreases ps.len(),
{
    let ts = c.ts.skip(s.pos);
    let p = ps[0];
    let rest = ps.skip(1);
    let n = piece_len(p);
    let one = with_piece(it, ts, p);
    assert forall|k: int| 0 <= k < ts.len() implies c.ts[s.pos + k] == #[trigger] ts[k] by {}
    let end = s.pos + n - 1;
    let s1 = Cursor { pos: end, ..s };
    assert(c.ts[s.pos] == ts[0] && c.ts[s.pos + 1] == ts[1]);
    assert(c.ts[end] == ts[n - 1]);
    assert(ts.skip(n) =~= c.ts.skip(end + 1));
    assert(laid_out(ts.skip(n), b, rest));
    if rest.len() > 0 {
        assert(is_piece(c.ts.skip(end + 1), b, rest));
        assert(c.ts.skip(end + 1)[0] == c.ts[end + 1]);
    } else {
        assert(ts.skip(n).len() == 0);
        assert(end + 1 == c.ts.len());
    }
    match p {
        Piece::Arg(_) => {
            let q = ts[0].kind->Word_0;
            let t1 = stepped(c, s);
            let t2 = past_blank(c, t1);
            assert(t1.pos == s.pos + 1);
            if rest.len() > 0 {
                assert(t2.pos == s.pos + 2);
                assert(next_kind(c, t2) == Some(c.ts[s.pos + 2].kind));
                lemma_any_cur(c, t2, s.cur, one);
            } else {
                assert(t2 == t1);
                lemma_any_cur(c, t2, s.cur, one);
            }
            assert(items(c, s, it) == items(c, t2, one));
        },
        Piece::Put(_, _) => {
            assert(c.ts[s.pos + 2] == ts[2]);
            let q0 = ts[0].kind->Word_0;
            let q = ts[2].kind->Word_0;
            law_blanks_around_assignments(c, s, it, q0, q, false, false);
            lemma_any_cur(c, s1, Some(TknView::Word(q)), one);
        },
        _ => {
            assert(c.ts[s.pos + 2] == ts[2]);
            let q = ts[2].kind->Word_0;
            law_redirections_stand_anywhere(c, s, it, q, true);
            lemma_any_cur(c, s1, Some(TknView::Word(q)), one);
        },
    }
    if rest.len() == 0 {
        assert(stand_at(c, end, seq![TknView::Newline])) by {
            assert(c.ts[end + 0].kind == TknView::Newline);
        }
        lemma_read_end(c, s1, one, TknView::Newline);
        assert forall|vars: VarMap| #[trigger] adds(b, it, one, ps, vars) by {
            assert(arg_values(rest, vars) =~= Seq::empty());
            assert(adds(b, one, one, rest, vars)) by {
                assert(args_value(one.args, b, vars) + arg_values(rest, vars) =~= args_value(
                    one.args,
                    b,
                    vars,
                ));
                assert(env_of(one.env, b, vars) + set_pairs(rest, vars) =~= env_of(
                    one.env,
                    b,
                    vars,
                ));
                assert(outs_of(one.outs, b, vars) + out_files(rest, vars) =~= outs_of(
                    one.outs,
                    b,
                    vars,
                ));
                assert(feeds_of(one.ins, b, vars) + in_files(rest, vars) =~= feeds_of(
                    one.ins,
                    b,
                    vars,
                ));
            }
            lemma_adds_one(b, it, ts, ps, one, vars);
        }
        one
    } else {
        let s2 = Cursor { pos: end + 1, ..s };
        if !(p is Arg) {
            assert(stand_at(c, end, seq![TknView::Space])) by {
                assert(c.ts[end + 0].kind == TknView::Space);
            }
            lemma_read_blank(c, s1, one);
        }
        assert(items(c, s, it) == items(c, s2, one));
        let r = lemma_line_read(c, s2, one, rest, b);
        assert forall|vars: VarMap| #[trigger] adds(b, it, r, ps, vars) by {
            assert(adds(b, one, r, rest, vars));
            lemma_adds_one(b, it, ts, ps, r, vars);
        }
        r
    }
}

/// The trees that a command buffer is read as, where it is complete and makes sense.
pub open spec fn trees_of(text: Seq<char>, vars: VarMap) -> Option<Seq<AstView>> {
    match lexed(encode_utf8(text), fresh_state()).1 {
        Some((ts, docs)) => match parsed(
            Source { ts, text, vars },
            Cursor { pos: 0, cur: None, docs },
        ).1 {
            Ok(nodes) => Some(nodes),
            Err(_) => None,
        },
        None => None,
    }
}

/// Whether some pieces name a command.
pub open spec fn has_arg(ps: Seq<Piece>) -> bool {
    exists|i: int| 0 <= i < ps.len() && #[trigger] ps[i] is Arg
}

/// Pieces that name a command have at least one argument value.
proof fn lemma_has_arg(ps: Seq<Piece>, vars: VarMap)
    ensures
        has_arg(ps) <==> arg_values(ps, vars).len() > 0,
    decreases ps.len(),
{
    if ps.len() > 0 {
        let rest = ps.skip(1);
        lemma_has_arg(rest, vars);
        if has_arg(rest) {
            let i = choose|i: int| 0 <= i < rest.len() && #[trigger] rest[i] is Arg;
            assert(ps[i + 1] is Arg);
        }
        if has_arg(ps) && !(ps[0] is Arg) {
            let i = choose|i: int| 0 <= i < ps.len() && #[trigger] ps[i] is Arg;
            assert(rest[i - 1] is Arg);
        }
        if ps[0] is Arg {
            assert(has_arg(ps));
        }
    }
}

/// Whether some pieces set a variable.
pub open spec fn has_put(ps: Seq<Piece>) -> bool {
    exists|i: int| 0 <= i < ps.len() && #[trigger] ps[i] is Put
}

/// Pieces that set a variable make at least one pair.
proof fn lemma_has_put(ps: Seq<Piece>, vars: VarMap)
    ensures
        has_put(ps) <==> set_pairs(ps, vars).len() > 0,
    decreases ps.len(),
{
    if ps.len() > 0 {
        let rest = ps.skip(1);
        lemma_has_put(rest, vars);
        if has_put(rest) {
            let i = choose|i: int| 0 <= i < rest.len() && #[trigger] rest[i] is Put;
            assert(ps[i + 1] is Put);
        }
        if has_put(ps) && !(ps[0] is Put) {
            let i = choose|i: int| 0 <= i < ps.len() && #[trigger] ps[i] is Put;
            assert(rest[i - 1] is Put);
        }
        if ps[0] is Put {
            assert(has_put(ps));
        }
    }
}

/// A line is one command with all its pieces.
proof fn lemma_line_command(ps: Seq<Piece>, vars: VarMap) -> (r: Items)
    requires
        ps.len() > 0,
        good_pieces(ps),
        has_arg(ps) || has_put(ps),
    ensures
        ({
            let text = line_text(ps);
            let b = encode_utf8(text);
            let command = CommandView {
                text,
                args: r.args,
                ins: r.ins,
                outs: r.outs,
                env: r.env,
            };
            &&& forall|vs: VarMap| #[trigger] adds(b, no_items(), r, ps, vs)
            &&& trees_of(text, vars) == Some(
                seq![
                    if r.args.len() == 0 {
                        AstView::Assignments { text, assignments: r.env }
                    } else if builtin_table().contains_key(arg_values(ps, vars)[0]) {
                        AstView::Builtin(CommandView { env: Seq::empty(), ..command })
                    } else {
                        AstView::Prog(command)
                    },
                ],
            )
            &&& r.args.len() > 0 <==> has_arg(ps)
        }),
{
    let text = line_text(ps);
    let b = encode_utf8(text);
    let st = fresh_state();
    encode_utf8_valid_utf8(text);
    encode_utf8_decode_utf8(text);
    is_char_boundary_start_end_of_seq(b);
    assert(b.subrange(0, b.len() as int) =~= b);
    let (raw, ts) = lemma_line(b, 0, ps, st);
    lemma_no_parens(ts);
    reveal_with_fuel(dangling, 2);
    assert(ts.drop_last().last() == ts[ts.len() - 2]);
    assert(dangling(ts) is None);
    let docs = Seq::<Seq<char>>::empty();
    assert(doc_texts(b, st.heredocs) =~= docs);
    let c = Source { ts, text, vars };
    let s = Cursor { pos: 0, cur: None, docs };
    assert(ts.skip(0) =~= ts);
    let r = lemma_line_read(c, s, no_items(), ps, b);
    assert(adds(b, no_items(), r, ps, vars));
    lemma_has_arg(ps, vars);
    let none = no_items();
    assert(args_value(none.args, b, vars) + arg_values(ps, vars) =~= arg_values(ps, vars));
    assert(args_value(r.args, b, vars).len() == r.args.len());
    if r.args.len() > 0 {
        assert(args_value(r.args, b, vars)[0] == word_value(r.args[0], b, vars));
    } else {
        assert(env_of(none.env, b, vars) + set_pairs(ps, vars) =~= set_pairs(ps, vars));
        lemma_has_put(ps, vars);
        assert(env_of(r.env, b, vars).len() == r.env.len());
    }
    let node = node_of(c, r)->Ok_0;
    assert(is_piece(ts, b, ps));
    lemma_one_command(c, s, r, node);
    r
}

/// A line asks for what it says: the values of its words in their order, with the variables of
/// the session, are the name of the program and its arguments; each `name=value` is handed to
/// that process alone; each `>`, `>>` and `<` leads to the file that its word stands for. Where
/// the first word names a builtin command, that is run with the same words and files.
pub proof fn law_lines_ask_for_what_they_say(
    ps: Seq<Piece>,
    vars: VarMap,
    stdin: Stream,
    stdout: Stream,
)
    requires
        good_pieces(ps),
        ps.len() > 0,
        has_arg(ps),
    ensures
        ({
            let words = arg_values(ps, vars);
            &&& trees_of(line_text(ps), vars) matches Some(nodes)
            &&& nodes.len() == 1
            &&& match nodes[0] {
                AstView::Prog(p) => {
                    let s = spawn_of(p, stdin, stdout, vars);
                    &&& !builtin_table().contains_key(words[0])
                    &&& s.program == words[0]
                    &&& s.args == words.skip(1)
                    &&& s.env == set_pairs(ps, vars)
                    &&& s.outs == out_files(ps, vars)
                    &&& s.feeds == in_files(ps, vars)
                },
                AstView::Builtin(p) => {
                    let b = encode_utf8(p.text);
                    &&& builtin_table().contains_key(words[0])
                    &&& args_value(p.args, b, vars) == words
                    &&& outs_of(p.outs, b, vars) == out_files(ps, vars)
                },
                _ => false,
            }
        }),
{
    let text = line_text(ps);
    let b = encode_utf8(text);
    let r = lemma_line_command(ps, vars);
    let none = no_items();
    assert(adds(b, none, r, ps, vars));
    assert(args_value(none.args, b, vars) + arg_values(ps, vars) =~= arg_values(ps, vars));
    assert(env_of(none.env, b, vars) + set_pairs(ps, vars) =~= set_pairs(ps, vars));
    assert(outs_of(none.outs, b, vars) + out_files(ps, vars) =~= out_files(ps, vars));
    assert(feeds_of(none.ins, b, vars) + in_files(ps, vars) =~= in_files(ps, vars));
}

/// A line that sets variables and names no command sets each of them to the value of its word,
/// one after the other, so that a later one sees what an earlier one has set; it runs no command
/// and leaves every other variable alone. Redirections on such a line lead nowhere.
pub proof fn law_lines_of_assignments_set_in_turn(ps: Seq<Piece>, w: World, fate: Fate)
    requires
        good_pieces(ps),
        ps.len() > 0,
        !has_arg(ps),
        has_put(ps),
    ensures
        trees_of(line_text(ps), w.vars) matches Some(nodes) && driven(started(nodes), w, fate) == (
            World { vars: set_in_turn(ps, w.vars), ..w },
            Some(0i32),
        ),
{
    let text = line_text(ps);
    let b = encode_utf8(text);
    let r = lemma_line_command(ps, w.vars);
    let none = no_items();
    assert(adds(b, none, r, ps, w.vars));
    let node = AstView::Assignments { text, assignments: r.env };
    law_driving_runs_the_trees(seq![node], w, fate);
    assert(seq![node].skip(1) =~= Seq::empty());
    reveal_with_fuel(ran_all, 2);
    assert(vars_after(w.vars, none.env, b) == w.vars);
    assert(ran(node, w, fate).0.vars == set_in_turn(ps, w.vars));
}

/// A word that is one part.
pub open spec fn one_part(a: Atom) -> Seq<Atom> {
    seq![a]
}

/// A text between double quotes, whatever it holds.
pub open spec fn quoted(t: Seq<char>) -> Atom {
    if t.len() == 0 {
        Atom::Double(Seq::empty())
    } else {
        Atom::Double(seq![Chunk::Text(t)])
    }
}

/// A variable between double quotes.
pub open spec fn quoted_name(k: Seq<char>) -> Atom {
    Atom::Double(seq![Chunk::Name(k)])
}

/// Words of one part: they can be written, and what they stand for.
proof fn lemma_one_part(t: Seq<char>, k: Seq<char>, after: char, vars: VarMap)
    requires
        is_name(k),
        after == ' ' || after == '\n',
    ensures
        good_word(one_part(quoted(t)), after),
        good_word(one_part(quoted_name(k)), after),
        good_word(one_part(Atom::Name(k)), after),
        spelled_value(one_part(quoted(t)), vars) == t,
        spelled_value(one_part(quoted_name(k)), vars) == held(vars, k),
        spelled_value(one_part(Atom::Name(k)), vars) == held(vars, k),
{
    reveal_with_fuel(good_word, 2);
    reveal_with_fuel(good_chunks, 2);
    reveal_with_fuel(spelled_value, 2);
    reveal_with_fuel(chunks_value, 2);
    let none = Seq::<Atom>::empty();
    assert(one_part(quoted(t)).skip(1) =~= none);
    assert(one_part(quoted_name(k)).skip(1) =~= none);
    assert(one_part(Atom::Name(k)).skip(1) =~= none);
    let ct = seq![Chunk::Text(t)];
    let ck = seq![Chunk::Name(k)];
    assert(ct.skip(1) =~= Seq::<Chunk>::empty());
    assert(ck.skip(1) =~= Seq::<Chunk>::empty());
    assert(spelled_value(one_part(quoted(t)), vars) =~= t);
    assert(spelled_value(one_part(quoted_name(k)), vars) =~= held(vars, k));
    assert(spelled_value(one_part(Atom::Name(k)), vars) =~= held(vars, k));
}

/// What the one program of a line asks for, where the line is one program.
pub open spec fn asked(text: Seq<char>, vars: VarMap) -> Option<SpawnView> {
    match trees_of(text, vars) {
        Some(nodes) => if nodes.len() == 1 {
            match nodes[0] {
                AstView::Prog(p) => Some(spawn_of(p, Stream::Inherit, Stream::Inherit, vars)),
                _ => None,
            }
        } else {
            None
        },
        None => None,
    }
}

/// A line of two pieces, the first of them the quoted name of a program.
#[verifier::rlimit(50)]
proof fn lemma_two(prog: Seq<char>, p: Piece, k: Seq<char>, vars: VarMap)
    requires
        !builtin_table().contains_key(prog),
        is_name(k),
        piece_word(p).len() > 0,
        good_word(piece_word(p), '\n'),
        p is Put ==> good_word(seq![Atom::Bare(p->Put_0)], '='),
    ensures
        ({
            let ps = seq![Piece::Arg(one_part(quoted(prog))), p];
            let one = seq![p];
            &&& asked(line_text(ps), vars) matches Some(s)
            &&& s.program == prog
            &&& s.args == arg_values(one, vars)
            &&& s.env == set_pairs(one, vars)
            &&& s.outs == out_files(one, vars)
            &&& s.feeds == in_files(one, vars)
        }),
{
    let first = Piece::Arg(one_part(quoted(prog)));
    let ps = seq![first, p];
    let one = seq![p];
    let none = Seq::<Piece>::empty();
    lemma_one_part(prog, k, ' ', vars);
    reveal_with_fuel(good_pieces, 3);
    assert(ps.skip(1) =~= one);
    assert(one.skip(1) =~= none);
    assert(good_pieces(ps));
    assert(ps[0] is Arg);
    assert(has_arg(ps));
    law_lines_ask_for_what_they_say(ps, vars, Stream::Inherit, Stream::Inherit);
    assert(arg_values(ps, vars).skip(1) =~= arg_values(one, vars));
    assert(arg_values(ps, vars)[0] == prog);
}

/// Where the redirections of a program to one file lead.
#[verifier::rlimit(50)]
proof fn lemma_file(prog: Seq<char>, k: Seq<char>, w: Seq<Atom>, v: Seq<char>, vars: VarMap)
    requires
        !builtin_table().contains_key(prog),
        is_name(k),
        w.len() > 0,
        good_word(w, '\n'),
        spelled_value(w, vars) == v,
    ensures
        ({
            let name = Piece::Arg(one_part(quoted(prog)));
            &&& asked(line_text(seq![name, Piece::Out(w)]), vars) matches Some(s) && s.program
                == prog && s.args.len() == 0 && s.outs == seq![OutFileView::Truncate(v)]
            &&& asked(line_text(seq![name, Piece::Append(w)]), vars) matches Some(s) && s.outs
                == seq![OutFileView::Append(v)]
            &&& asked(line_text(seq![name, Piece::In(w)]), vars) matches Some(s) && s.feeds == seq![
                FeedView::File { path: v, shown: atom_text(w[0]) },
            ]
        }),
{
    let a = Piece::Out(w);
    let b = Piece::Append(w);
    let c = Piece::In(w);
    let none = Seq::<Piece>::empty();
    lemma_two(prog, a, k, vars);
    lemma_two(prog, b, k, vars);
    lemma_two(prog, c, k, vars);
    assert(seq![a].skip(1) =~= none);
    assert(seq![b].skip(1) =~= none);
    assert(seq![c].skip(1) =~= none);
    assert(out_files(none, vars) =~= Seq::empty());
    assert(in_files(none, vars) =~= Seq::empty());
    assert(arg_values(none, vars) =~= Seq::empty());
    assert(out_files(seq![a], vars) =~= seq![OutFileView::Truncate(v)]);
    assert(out_files(seq![b], vars) =~= seq![OutFileView::Append(v)]);
    assert(in_files(seq![c], vars) =~= seq![FeedView::File { path: v, shown: atom_text(w[0]) }]);
}

/// Redirections lead to the file that a variable names: `prog > $k`, `prog >> $k` and
/// `prog < $k` lead to the file whose name is the value of `k`, as `> "v"` does with the value
/// itself, whatever characters it holds.
pub proof fn law_redirections_follow_variables(
    prog: Seq<char>,
    k: Seq<char>,
    v: Seq<char>,
    vars: VarMap,
)
    requires
        !builtin_table().contains_key(prog),
        is_name(k),
        vars.contains_key(k),
        vars[k] == v,
    ensures
        ({
            let name = Piece::Arg(one_part(quoted(prog)));
            let by_name = one_part(Atom::Name(k));
            let by_value = one_part(quoted(v));
            let to_name = asked(line_text(seq![name, Piece::Out(by_name)]), vars);
            let to_value = asked(line_text(seq![name, Piece::Out(by_value)]), vars);
            let onto_name = asked(line_text(seq![name, Piece::Append(by_name)]), vars);
            let onto_value = asked(line_text(seq![name, Piece::Append(by_value)]), vars);
            let from_name = asked(line_text(seq![name, Piece::In(by_name)]), vars);
            let from_value = asked(line_text(seq![name, Piece::In(by_value)]), vars);
            &&& to_name matches Some(s) && s.program == prog && s.outs == seq![
                OutFileView::Truncate(v),
            ] && s.args.len() == 0
            &&& to_value matches Some(s) && s.outs == seq![OutFileView::Truncate(v)]
            &&& onto_name matches Some(s) && s.outs == seq![OutFileView::Append(v)]
            &&& onto_value matches Some(s) && s.outs == seq![OutFileView::Append(v)]
            &&& from_name matches Some(s) && s.feeds == seq![
                FeedView::File { path: v, shown: seq!['$'] + k },
            ]
            &&& from_value matches Some(s) && s.feeds.len() == 1 && s.feeds[0] is File
                && s.feeds[0]->path == v
        }),
{
    lemma_one_part(v, k, '\n', vars);
    lemma_file(prog, k, one_part(Atom::Name(k)), v, vars);
    lemma_file(prog, k, one_part(quoted(v)), v, vars);
}

/// What a variable is set to is what it gives: after the line `k="v"` the argument `"$k"` is
/// exactly `v`, whatever characters that holds, and so is the argument `$k`.
pub proof fn law_values_come_back_as_they_were_set(
    prog: Seq<char>,
    k: Seq<char>,
    v: Seq<char>,
    w: World,
    fate: Fate,
)
    requires
        !builtin_table().contains_key(prog),
        is_name(k),
        good_word(seq![Atom::Bare(k)], '='),
    ensures
        ({
            let put = line_text(seq![Piece::Put(k, one_part(quoted(v)))]);
            let name = Piece::Arg(one_part(quoted(prog)));
            let in_quotes = line_text(seq![name, Piece::Arg(one_part(quoted_name(k)))]);
            let bare = line_text(seq![name, Piece::Arg(one_part(Atom::Name(k)))]);
            &&& trees_of(put, w.vars) matches Some(nodes)
            &&& driven(started(nodes), w, fate) matches (w1, code)
            &&& code == Some(0i32)
            &&& w1.done == w.done
            &&& w1.vars == w.vars.insert(k, v)
            &&& asked(in_quotes, w1.vars) matches Some(s) && s.program == prog && s.args == seq![v]
            &&& asked(bare, w1.vars) matches Some(s) && s.program == prog && s.args == seq![v]
        }),
{
    let put = seq![Piece::Put(k, one_part(quoted(v)))];
    let vars = w.vars.insert(k, v);
    lemma_one_part(v, k, '\n', w.vars);
    lemma_one_part(v, k, '\n', vars);
    reveal_with_fuel(good_pieces, 2);
    reveal_with_fuel(set_in_turn, 2);
    reveal_with_fuel(arg_values, 2);
    assert(put.skip(1) =~= Seq::<Piece>::empty());
    assert(put[0] is Put);
    assert(has_put(put));
    assert(!has_arg(put));
    law_lines_of_assignments_set_in_turn(put, w, fate);
    let a = Piece::Arg(one_part(quoted_name(k)));
    let c = Piece::Arg(one_part(Atom::Name(k)));
    lemma_two(prog, a, k, vars);
    lemma_two(prog, c, k, vars);
    assert(seq![a].skip(1) =~= Seq::<Piece>::empty());
    assert(seq![c].skip(1) =~= Seq::<Piece>::empty());
    assert(arg_values(seq![a], vars) =~= seq![v]);
    assert(arg_values(seq![c], vars) =~= seq![v]);
}

/// Assignments before a program set each its own variable for that process: the line
/// `k1="v1" k2="v2" prog` asks for the program with exactly these two pairs, in this order, and
/// what the variables of the session hold has no say.
pub proof fn law_each_assignment_reaches_the_process(
    prog: Seq<char>,
    k1: Seq<char>,
    v1: Seq<char>,
    k2: Seq<char>,
    v2: Seq<char>,
    vars: VarMap,
)
    requires
        !builtin_table().contains_key(prog),
        is_name(k1),
        is_name(k2),
        good_word(seq![Atom::Bare(k1)], '='),
        good_word(seq![Atom::Bare(k2)], '='),
    ensures
        ({
            let ps = seq![
                Piece::Put(k1, one_part(quoted(v1))),
                Piece::Put(k2, one_part(quoted(v2))),
                Piece::Arg(one_part(quoted(prog))),
            ];
            &&& asked(line_text(ps), vars) matches Some(s)
            &&& s.program == prog
            &&& s.args.len() == 0
            &&& s.env == seq![(k1, v1), (k2, v2)]
        }),
{
    let p1 = Piece::Put(k1, one_part(quoted(v1)));
    let p2 = Piece::Put(k2, one_part(quoted(v2)));
    let p3 = Piece::Arg(one_part(quoted(prog)));
    let ps = seq![p1, p2, p3];
    lemma_one_part(v1, k1, ' ', vars);
    lemma_one_part(v2, k1, ' ', vars);
    lemma_one_part(prog, k1, '\n', vars);
    reveal_with_fuel(good_pieces, 4);
    reveal_with_fuel(arg_values, 4);
    reveal_with_fuel(set_pairs, 4);
    assert(ps.skip(1) =~= seq![p2, p3]);
    assert(seq![p2, p3].skip(1) =~= seq![p3]);
    assert(seq![p3].skip(1) =~= Seq::<Piece>::empty());
    assert(good_pieces(ps));
    assert(ps[2] is Arg);
    assert(has_arg(ps));
    law_lines_ask_for_what_they_say(ps, vars, Stream::Inherit, Stream::Inherit);
    assert(arg_values(ps, vars) =~= seq![prog]);
    assert(set_pairs(ps, vars) =~= seq![(k1, v1), (k2, v2)]);
    assert(arg_values(ps, vars).skip(1).len() == 0);
}

} // verus!
