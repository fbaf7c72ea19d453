//! What holds of the library as a whole.

use crate::ascii::{
    BACKSLASH, DOUBLE_QUOTE, LEFT_BRACE, LEFT_PAREN, LINE_FEED, RIGHT_BRACE, RIGHT_PAREN,
    SINGLE_QUOTE,
};
use crate::ast::{
    is_stage, wf_ast, wf_full_word, wf_ins, wf_nodes, AssignmentView, AstView, Redir, RedirectView,
};
use crate::builtins::{recent, SHOWN_ENTRIES};
use crate::executor::{ran, readable_assignments, vars_after, Fate, World};
use crate::grammar::{
    assigned, assignment, ends_command, from_doc, items, joined, lemma_past_separators,
    lemma_pipeline, lemma_program, next_kind, parsed, past_blank, past_doc, past_separators,
    pipeline, stepped, to_file, wf_source, Cursor, Items, Source, SyntaxErrView,
};
use crate::lexer::{
    bodies_at, dangling, fresh_state, grouped, is_part, law_tokens_cover_the_buffer,
    lemma_token_bounds, lexed, open_parens, raw_tokens, tiles, token_at, word_of, LexView,
};
use crate::scan::{
    delimiter_line, dquote, dquote_part, find_byte, in_class, lemma_dquote_part, lemma_find_byte,
    lemma_run_end, run_end, ByteClass,
};
use crate::spawn::{
    fed, feeds_of, has_first, outs_of, readable_command, spawnable, stages_of, Stream,
};
use crate::text::{
    good_span, lemma_ascii_boundary, lemma_span_valid, lemma_text_split, text_of, trim_end,
};
use crate::token::{token_text, wf_token, wf_tokens, wf_word, TknSpanView, TknView};
use crate::vars::{var_value, VarMap};
use crate::word::{dquote_value, inner_value, law_escaping_keeps_plain_text, part_value, word_value};
use vstd::prelude::*;
use vstd::string::*;
use vstd::utf8::*;

verus! {

broadcast use vstd::seq::group_seq_axioms;

/// A variable reads as what it was last set to, and setting it leaves the others alone.
pub proof fn law_variables_read_back(
    vars: VarMap,
    key: Seq<char>,
    val: Seq<char>,
    other: Seq<char>,
)
    ensures
        var_value(vars.insert(key, val), key) == val,
        other != key ==> var_value(vars.insert(key, val), other) == var_value(vars, other),
{
}

/// After assignments the variable of the last one reads as what was assigned to it, and no
/// other variable has changed by it.
pub proof fn law_assignments_set_variables(
    vars: VarMap,
    env: Seq<AssignmentView>,
    a: AssignmentView,
    b: Seq<u8>,
    other: Seq<char>,
)
    ensures
        ({
            let before = vars_after(vars, env, b);
            let after = vars_after(vars, env.push(a), b);
            let name = word_value(a.lhs, b, before);
            &&& var_value(after, name) == word_value(a.rhs, b, before)
            &&& other != name ==> var_value(after, other) == var_value(before, other)
        }),
{
    assert(env.push(a).drop_last() =~= env);
}

/// A word that is made of two words reads as the one and then the other.
pub proof fn law_words_join(
    v: Seq<TknSpanView>,
    w: Seq<TknSpanView>,
    b: Seq<u8>,
    vars: VarMap,
)
    ensures
        word_value(v + w, b, vars) == word_value(v, b, vars) + word_value(w, b, vars),
    decreases w.len(),
{
    if w.len() == 0 {
        assert(v + w =~= v);
    } else {
        law_words_join(v, w.drop_last(), b, vars);
        assert((v + w).drop_last() =~= v + w.drop_last());
        assert((v + w).last() == w.last());
        assert(word_value(v + w, b, vars) =~= word_value(v, b, vars) + word_value(w, b, vars));
    }
}

/// A tree that no assignment of the session is carried out by.
pub open spec fn sets_nothing(n: AstView) -> bool
    decreases n,
{
    match n {
        AstView::Logical { lhs, operator, rhs } => sets_nothing(*lhs) && sets_nothing(*rhs),
        AstView::Assignments { .. } => false,
        _ => true,
    }
}

/// Programs, builtin commands, pipelines and subshells leave the variables of the session
/// alone, whatever variables are set for them and within them.
pub proof fn law_only_assignments_set_variables(n: AstView, w: World, fate: Fate)
    requires
        sets_nothing(n),
    ensures
        ran(n, w, fate).0.vars == w.vars,
    decreases n,
{
    if let AstView::Logical { lhs, operator, rhs } = n {
        law_only_assignments_set_variables(*lhs, w, fate);
        law_only_assignments_set_variables(*rhs, ran(*lhs, w, fate).0, fate);
    }
}

/// After `&&` a command runs exactly if what stands before has the exit code 0, and after
/// `||` exactly if it has another; else the exit code stays.
pub proof fn law_logical_operators(lhs: AstView, rhs: AstView, w: World, fate: Fate)
    ensures
        ({
            let both = AstView::Logical {
                lhs: Box::new(lhs),
                operator: TknView::CmdAnd,
                rhs: Box::new(rhs),
            };
            let either = AstView::Logical {
                lhs: Box::new(lhs),
                operator: TknView::CmdOr,
                rhs: Box::new(rhs),
            };
            match ran(lhs, w, fate) {
                (w1, Some(code)) => if code == 0 {
                    &&& ran(both, w, fate) == ran(rhs, w1, fate)
                    &&& ran(either, w, fate) == ran(lhs, w, fate)
                } else {
                    &&& ran(both, w, fate) == ran(lhs, w, fate)
                    &&& ran(either, w, fate) == ran(rhs, w1, fate)
                },
                (w1, None) => {
                    &&& ran(both, w, fate) == ran(lhs, w, fate)
                    &&& ran(either, w, fate) == ran(lhs, w, fate)
                },
            }
        }),
{
}

/// In a pipeline every two neighbours are joined by a pipe; the first stage reads where the
/// shell does, and the last one writes where the shell does.
pub proof fn law_pipes_join_neighbours(ps: Seq<AstView>, i: int)
    requires
        0 <= i < ps.len(),
    ensures
        stages_of(ps).len() == ps.len(),
        i + 1 < ps.len() ==> stages_of(ps)[i].stdout == Stream::Pipe && stages_of(ps)[i + 1].stdin
            == Stream::Pipe,
        stages_of(ps)[0].stdin == Stream::Inherit,
        stages_of(ps).last().stdout == Stream::Inherit,
{
}

/// Redirections take effect in their order: what two lists of them give to read, and where
/// they lead, is that of the one and then that of the other.
pub proof fn law_redirections_keep_their_order(
    r: Seq<RedirectView>,
    q: Seq<RedirectView>,
    b: Seq<u8>,
    vars: VarMap,
)
    ensures
        feeds_of(r + q, b, vars) == feeds_of(r, b, vars) + feeds_of(q, b, vars),
        outs_of(r + q, b, vars) == outs_of(r, b, vars) + outs_of(q, b, vars),
    decreases q.len(),
{
    if q.len() == 0 {
        assert(r + q =~= r);
        assert(feeds_of(r + q, b, vars) =~= feeds_of(r, b, vars) + feeds_of(q, b, vars));
    } else {
        law_redirections_keep_their_order(r, q.drop_last(), b, vars);
        assert((r + q).drop_last() =~= r + q.drop_last());
        assert((r + q).last() == q.last());
        assert(feeds_of(r + q, b, vars) =~= feeds_of(r, b, vars) + feeds_of(q, b, vars));
    }
    assert(outs_of(r + q, b, vars) =~= outs_of(r, b, vars) + outs_of(q, b, vars));
}

/// A tree that can be run has a first command, and it can still be run when that command is
/// given more to read.
pub proof fn law_feeding_keeps_trees_runnable(text: Seq<char>, n: AstView, rs: Seq<RedirectView>)
    requires
        wf_ast(text, n),
        wf_ins(text, rs),
    ensures
        has_first(n),
        wf_ast(text, fed(n, rs)),
        n is Logical == fed(n, rs) is Logical,
        n is Pipeline == fed(n, rs) is Pipeline,
    decreases n,
{
    match n {
        AstView::Logical { lhs, operator, rhs } => {
            law_feeding_keeps_trees_runnable(text, *lhs, rs);
        },
        AstView::Pipeline(ps) => {
            assert(wf_ast(text, ps[0]));
            law_feeding_keeps_trees_runnable(text, ps[0], rs);
            let qs = ps.update(0, fed(ps[0], rs));
            assert forall|i: int| 0 <= i < qs.len() implies wf_ast(text, #[trigger] qs[i])
                && is_stage(qs[i]) by {
                if i > 0 {
                    assert(qs[i] == ps[i]);
                }
            }
        },
        AstView::Prog(p) => {
            assert(wf_ins(text, p.ins + rs));
        },
        AstView::Builtin(p) => {
            assert(wf_ins(text, p.ins + rs));
        },
        AstView::Subshell(s) => {
            assert(wf_ins(text, s.ins + rs));
        },
        AstView::Assignments { .. } => {},
    }
}

/// What has been parsed meets what running it asks for: a program and a builtin command have
/// a name and words that can be read, and a subshell has a first command.
pub proof fn law_parsed_commands_can_be_run(text: Seq<char>, n: AstView)
    requires
        wf_ast(text, n),
    ensures
        match n {
            AstView::Prog(p) => p.args.len() > 0 && readable_command(p),
            AstView::Builtin(p) => p.args.len() > 0 && readable_command(p),
            AstView::Subshell(s) => spawnable(s),
            AstView::Assignments { text: t, assignments } => readable_assignments(t, assignments),
            _ => true,
        },
{
    match n {
        AstView::Prog(p) => {
            assert forall|i: int| 0 <= i < p.args.len() implies #[trigger] wf_word(
                encode_utf8(text),
                p.args[i],
            ) by {
                assert(wf_full_word(text, p.args[i]));
            }
        },
        AstView::Builtin(p) => {
            assert forall|i: int| 0 <= i < p.args.len() implies #[trigger] wf_word(
                encode_utf8(text),
                p.args[i],
            ) by {
                assert(wf_full_word(text, p.args[i]));
            }
        },
        AstView::Subshell(s) => {
            assert(wf_ast(text, s.inner[0]));
            law_feeding_keeps_trees_runnable(text, s.inner[0], s.ins);
        },
        _ => {},
    }
}

/// Where parsing succeeds it has read every token, and every tree can be run.
pub proof fn law_parsing_reads_every_token(c: Source, s: Cursor)
    requires
        0 <= s.pos <= c.ts.len(),
        wf_source(c),
    ensures
        parsed(c, s).1 matches Ok(nodes) ==> {
            &&& parsed(c, s).0.pos == c.ts.len()
            &&& wf_nodes(c.text, nodes)
        },
{
    lemma_past_separators(c, s);
    lemma_program(c, past_separators(c, s), Seq::empty());
}

/// An assignment may have blanks on either side of its equals sign, anywhere in a command:
/// it adds the same to the command, which goes on after it.
pub proof fn law_blanks_around_assignments(
    c: Source,
    s: Cursor,
    it: Items,
    key: Seq<TknSpanView>,
    val: Seq<TknSpanView>,
    before: bool,
    after: bool,
)
    requires
        0 <= s.pos,
        ({
            let eq = s.pos + 1 + (if before { 1int } else { 0 });
            let v = eq + 1 + (if after { 1int } else { 0 });
            &&& v + 1 < c.ts.len()
            &&& c.ts[s.pos].kind == TknView::Word(key)
            &&& before ==> c.ts[s.pos + 1].kind == TknView::Space
            &&& c.ts[eq].kind == TknView::Assign
            &&& after ==> c.ts[eq + 1].kind == TknView::Space
            &&& c.ts[v].kind == TknView::Word(val)
            &&& c.ts[v + 1].kind == TknView::Space || ends_command(c.ts[v + 1].kind)
        }),
        val.len() > 0,
    ensures
        ({
            let v = s.pos + 2 + (if before { 1int } else { 0 }) + (if after { 1int } else { 0 });
            let set = AssignmentView { lhs: key, rhs: val };
            items(c, s, it) == items(
                c,
                Cursor { pos: v + 1, cur: Some(TknView::Word(val)), ..s },
                Items { env: it.env.push(set), ..it },
            )
        }),
{
    reveal_with_fuel(assigned, 4);
    let s1 = stepped(c, s);
    let s2 = past_blank(c, s1);
    assert(next_kind(c, s2) == Some(TknView::Assign));
    let s3 = stepped(c, s2);
    let s4 = past_blank(c, s3);
    assert(next_kind(c, s4) == Some(TknView::Word(val)));
    let s5 = stepped(c, s4);
    assert(assigned(c, s3, key, Seq::empty()) == assigned(c, s4, key, Seq::empty()));
    assert(assigned(c, s4, key, Seq::empty()) == assigned(c, s5, key, val));
    assert(assigned(c, s5, key, val) == (
        s5,
        Ok::<AssignmentView, SyntaxErrView>(AssignmentView { lhs: key, rhs: val }),
    ));
    assert(assignment(c, s2, key) == assigned(c, s3, key, Seq::empty()));
}

/// A redirection may stand anywhere in a command: it adds its file and leaves the words of
/// the command alone.
pub proof fn law_redirections_stand_anywhere(
    c: Source,
    s: Cursor,
    it: Items,
    file: Seq<TknSpanView>,
    blank: bool,
)
    requires
        0 <= s.pos,
        ({
            let f = s.pos + 1 + (if blank { 1int } else { 0 });
            let operator = c.ts[s.pos].kind;
            &&& f < c.ts.len()
            &&& operator is RedirectIn || operator is RedirectOut || operator is RedirectAppend
            &&& blank ==> c.ts[s.pos + 1].kind == TknView::Space
            &&& c.ts[f].kind == TknView::Word(file)
        }),
    ensures
        ({
            let f = s.pos + 1 + (if blank { 1int } else { 0 });
            let operator = c.ts[s.pos].kind;
            let t = Cursor { pos: f + 1, cur: Some(TknView::Word(file)), ..s };
            let more = if operator is RedirectIn {
                Items { ins: it.ins.push(to_file(Redir::In, file)), ..it }
            } else if operator is RedirectOut {
                Items { outs: it.outs.push(to_file(Redir::Out, file)), ..it }
            } else {
                Items { outs: it.outs.push(to_file(Redir::Append, file)), ..it }
            };
            items(c, s, it) == items(c, t, more)
        }),
{
    let s1 = stepped(c, s);
    let s2 = past_blank(c, s1);
    assert(next_kind(c, s2) == Some(TknView::Word(file)));
}

/// Here-documents go to their operators in their order: an operator takes the first one that
/// is left, wherever it stands in a command, and leaves the rest.
pub proof fn law_heredocs_are_taken_in_order(
    c: Source,
    s: Cursor,
    it: Items,
    delim: Seq<TknSpanView>,
    blank: bool,
)
    requires
        0 <= s.pos,
        s.docs.len() > 0,
        ({
            let d = s.pos + 1 + (if blank { 1int } else { 0 });
            &&& d < c.ts.len()
            &&& c.ts[s.pos].kind == TknView::Heredoc
            &&& blank ==> c.ts[s.pos + 1].kind == TknView::Space
            &&& c.ts[d].kind == TknView::Word(delim)
        }),
    ensures
        ({
            let d = s.pos + 1 + (if blank { 1int } else { 0 });
            let t = Cursor {
                pos: d + 1,
                cur: Some(TknView::Word(delim)),
                docs: s.docs.skip(1),
            };
            items(c, s, it) == items(
                c,
                t,
                Items { ins: it.ins.push(from_doc(s.docs[0])), ..it },
            )
        }),
{
    let s1 = past_doc(stepped(c, s));
    let s2 = past_blank(c, s1);
    assert(next_kind(c, s2) == Some(TknView::Word(delim)));
}

/// `&&` and `||` bind alike and to the left: an operator takes all that stands before it as
/// its left side and the pipeline after it as its right side.
pub proof fn law_logical_operators_bind_to_the_left(
    c: Source,
    s: Cursor,
    node: AstView,
    operator: TknView,
)
    requires
        wf_source(c),
        0 <= s.pos <= c.ts.len(),
        s.cur == Some(operator),
        operator is CmdAnd || operator is CmdOr,
    ensures
        match pipeline(c, past_separators(c, s)) {
            (t, Ok(rhs)) => joined(c, s, node) == joined(
                c,
                t,
                AstView::Logical { lhs: Box::new(node), operator, rhs: Box::new(rhs) },
            ),
            (t, Err(e)) => joined(c, s, node) == (t, Err::<AstView, SyntaxErrView>(e)),
        },
{
    lemma_past_separators(c, s);
    lemma_pipeline(c, past_separators(c, s));
}

/// The history shows its last entries, and no more than a fixed number of them.
pub proof fn law_history_shows_the_last_entries(entries: Seq<Seq<char>>)
    ensures
        recent(entries).len() <= SHOWN_ENTRIES,
        recent(entries).len() == SHOWN_ENTRIES || recent(entries) == entries,
        exists|older: Seq<Seq<char>>| entries == #[trigger] (older + recent(entries)),
{
    let older = entries.take(entries.len() - recent(entries).len());
    assert(entries =~= older + recent(entries));
}

/// The texts of some tokens, one after the other.
pub open spec fn spelled(ts: Seq<TknSpanView>, b: Seq<u8>) -> Seq<char>
    decreases ts.len(),
{
    if ts.len() == 0 {
        Seq::empty()
    } else {
        token_text(b, ts[0]) + spelled(ts.skip(1), b)
    }
}

/// Tokens that cover a range spell it.
proof fn lemma_spelled(ts: Seq<TknSpanView>, b: Seq<u8>, i: int, j: int)
    requires
        valid_utf8(b),
        wf_tokens(b, ts),
        good_span(b, i, j),
        tiles(ts, i, j),
    ensures
        spelled(ts, b) == text_of(b, i, j),
    decreases ts.len(),
{
    if ts.len() == 0 {
        assert(b.subrange(i, j) =~= Seq::empty());
        assert(text_of(b, i, j) =~= Seq::empty());
    } else {
        let t = ts[0];
        let rest = ts.skip(1);
        assert(wf_token(b, ts[0]));
        assert forall|m: int| 0 <= m < rest.len() implies #[trigger] wf_token(b, rest[m]) by {
            assert(wf_token(b, ts[m + 1]));
        }
        lemma_tiles_ordered(rest, t.end, j);
        lemma_spelled(rest, b, t.end, j);
        lemma_text_split(b, i, t.end, j);
    }
}

/// Tokens that cover a range go forward.
proof fn lemma_tiles_ordered(ts: Seq<TknSpanView>, i: int, j: int)
    requires
        tiles(ts, i, j),
    ensures
        i <= j,
    decreases ts.len(),
{
    if ts.len() > 0 {
        lemma_tiles_ordered(ts.skip(1), ts[0].end, j);
    }
}

/// Nothing of a command buffer is lost or changed by splitting it: its tokens, one after the
/// other, spell it.
pub proof fn law_tokens_spell_the_buffer(b: Seq<u8>)
    requires
        valid_utf8(b),
    ensures
        lexed(b, fresh_state()).1 matches Some((ts, _)) ==> spelled(ts, b) == decode_utf8(b),
{
    law_tokens_cover_the_buffer(b, fresh_state());
    if let Some((ts, _)) = lexed(b, fresh_state()).1 {
        is_char_boundary_start_end_of_seq(b);
        lemma_spelled(ts, b, 0, b.len() as int);
        assert(b.subrange(0, b.len() as int) =~= b);
    }
}

/// Between single quotes everything stands for itself.
pub proof fn law_single_quotes_are_literal(b: Seq<u8>, i: int, j: int, st: LexView, vars: VarMap)
    requires
        0 <= i < j < b.len(),
        b[i] == SINGLE_QUOTE,
        b[j] == SINGLE_QUOTE,
        forall|k: int| i < k < j ==> b[k] != SINGLE_QUOTE,
    ensures
        ({
            let t = TknSpanView { kind: TknView::SingleQuote, start: i, end: j + 1 };
            &&& token_at(b, i, st) == (st, Some(t))
            &&& part_value(t, b, vars) == text_of(b, i + 1, j)
        }),
{
    reveal(token_at);
    lemma_find_byte(b, i + 1, SINGLE_QUOTE);
}

/// Bytes that hold no backslash read as text that holds none.
proof fn lemma_no_backslash(b: Seq<u8>, s: Seq<char>)
    requires
        encode_utf8(s) == b,
        forall|k: int| 0 <= k < b.len() ==> b[k] != BACKSLASH,
    ensures
        !s.contains('\\'),
    decreases s.len(),
{
    if s.len() > 0 {
        let first = encode_scalar(s[0] as u32);
        let rest = encode_utf8(s.drop_first());
        assert(b == first + rest);
        assert forall|k: int| 0 <= k < rest.len() implies rest[k] != BACKSLASH by {
            assert(b[first.len() + k] == rest[k]);
        }
        lemma_no_backslash(rest, s.drop_first());
        if s[0] == '\\' {
            let one = seq!['\\'];
            is_ascii_chars_encode_utf8(one);
            assert(one.drop_first() =~= Seq::empty());
            assert(encode_utf8(Seq::<char>::empty()) =~= Seq::empty());
            assert(encode_utf8(one) =~= first);
            assert(b[0] == first[0]);
            assert(false);
        }
        assert forall|k: int| 0 <= k < s.len() implies s[k] != '\\' by {
            if k > 0 {
                assert(s.drop_first()[k - 1] == s[k]);
                assert(s.drop_first().contains(s.drop_first()[k - 1]));
            }
        }
    }
}

/// Between double quotes text stands for itself where it holds no double quote, backslash,
/// dollar sign or backtick.
pub proof fn law_double_quotes_keep_plain_text(
    b: Seq<u8>,
    i: int,
    j: int,
    st: LexView,
    vars: VarMap,
)
    requires
        valid_utf8(b),
        0 <= i < j < b.len(),
        b[i] == DOUBLE_QUOTE,
        b[j] == DOUBLE_QUOTE,
        forall|k: int| i < k < j ==> in_class(ByteClass::Quoted, b[k]),
    ensures
        token_at(b, i, st).0 == st,
        token_at(b, i, st).1 matches Some(t) && t.kind is DoubleQuote && t.start == i && t.end == j
            + 1 && part_value(t, b, vars) == text_of(b, i + 1, j),
{
    reveal(token_at);
    lemma_ascii_boundary(b, i);
    lemma_ascii_boundary(b, j);
    reveal_with_fuel(dquote, 2);
    reveal_with_fuel(dquote_value, 2);
    lemma_run_end(b, i + 1, ByteClass::Quoted);
    let inner = TknSpanView { kind: TknView::Literal, start: i + 1, end: j };
    if i + 1 == j {
        assert(b.subrange(i + 1, j) =~= Seq::empty());
        assert(text_of(b, i + 1, j) =~= Seq::empty());
    } else {
        let e = run_end(b, i + 1, ByteClass::Quoted);
        assert(!in_class(ByteClass::Quoted, b[j]));
        assert(e == j);
        assert(dquote(b, j) == Ok::<(Seq<TknSpanView>, int), Seq<char>>((Seq::empty(), j + 1)));
        let ps = seq![inner] + Seq::<TknSpanView>::empty();
        assert(dquote(b, i + 1) == Ok::<(Seq<TknSpanView>, int), Seq<char>>((ps, j + 1)));
        assert(ps =~= seq![inner]);
        assert(ps.drop_last() =~= Seq::empty());
        lemma_span_valid(b, i + 1, j);
        lemma_no_backslash(b.subrange(i + 1, j), text_of(b, i + 1, j));
        law_escaping_keeps_plain_text(text_of(b, i + 1, j));
        assert(dquote_value(ps, b, vars) =~= inner_value(inner, b, vars));
    }
}

/// Whether a state says what is wrong or missing.
pub open spec fn has_reason(st: LexView) -> bool {
    st.syntax_err is Some || st.expected_closer is Some || st.continuation_for is Some
}

/// A text that holds a brace.
pub open spec fn holds_brace(b: Seq<u8>) -> bool {
    exists|k: int| 0 <= k < b.len() && (#[trigger] b[k] == LEFT_BRACE || b[k] == RIGHT_BRACE)
}

/// Bodies that are not closed are a reason.
proof fn lemma_bodies_reason(b: Seq<u8>, i: int, st: LexView)
    ensures
        bodies_at(b, i, st).1 is None ==> has_reason(bodies_at(b, i, st).0),
    decreases st.delimiters.len(),
{
    if st.delimiters.len() > 0 {
        if let Some((end, next)) = delimiter_line(b, i, st.delimiters[0]) {
            let rest = LexView { delimiters: st.delimiters.skip(1), ..st };
            lemma_bodies_reason(
                b,
                next,
                LexView { heredocs: rest.heredocs.push((i, end)), ..rest },
            );
        }
    }
}

/// Where a text cannot be split there is a reason, or a brace.
proof fn lemma_raw_reason(b: Seq<u8>, i: int, st: LexView)
    requires
        0 <= i <= b.len(),
    ensures
        raw_tokens(b, i, st).1 is None ==> has_reason(raw_tokens(b, i, st).0) || holds_brace(b),
    decreases b.len() - i,
{
    reveal(token_at);
    if i < b.len() {
        lemma_token_bounds(b, i, st);
        lemma_bodies_reason(b, i + 1, st);
        match token_at(b, i, st) {
            (after, Some(t)) => {
                lemma_raw_reason(b, t.end, after);
            },
            (after, None) => {
                assert(has_reason(after) || b[i] == LEFT_BRACE || b[i] == RIGHT_BRACE);
            },
        }
    }
}

/// A command buffer that is not split has a reason for it: the state says what is wrong, what
/// is missing or what it ends with that wants more. Only a text that holds a brace can be
/// refused without one.
pub proof fn law_refusals_have_a_reason(b: Seq<u8>, st: LexView)
    requires
        lexed(b, st).1 is None,
        !holds_brace(b),
    ensures
        has_reason(lexed(b, st).0),
{
    lemma_raw_reason(b, 0, st);
}

/// Whether splitting `b` from `i` on in the state `st` comes to `j` in the state `later`.
pub open spec fn comes_to(b: Seq<u8>, i: int, st: LexView, j: int, later: LexView) -> bool
    decreases b.len() - i,
{
    if i == j {
        st == later
    } else if 0 <= i < b.len() {
        proof {
            lemma_token_bounds(b, i, st);
        }
        match token_at(b, i, st) {
            (after, Some(t)) => comes_to(b, t.end, after, j, later),
            (_, None) => false,
        }
    } else {
        false
    }
}

/// Splitting goes on from where it has come to.
proof fn lemma_comes_to(b: Seq<u8>, i: int, st: LexView, j: int, later: LexView)
    requires
        comes_to(b, i, st, j, later),
        0 <= j < b.len(),
        token_at(b, j, later).1 is None,
    ensures
        raw_tokens(b, i, st) == (token_at(b, j, later).0, None::<Seq<TknSpanView>>),
    decreases b.len() - i,
{
    if i != j {
        lemma_token_bounds(b, i, st);
        if let (after, Some(t)) = token_at(b, i, st) {
            lemma_comes_to(b, t.end, after, j, later);
        }
    }
}

/// The first token that cannot be read decides: the command buffer is not split, and the
/// state is the one that this token leaves.
pub proof fn law_first_refusal_decides(b: Seq<u8>, st: LexView, j: int, later: LexView)
    requires
        comes_to(b, 0, st, j, later),
        0 <= j < b.len(),
        token_at(b, j, later).1 is None,
    ensures
        lexed(b, st).0 == token_at(b, j, later).0,
        lexed(b, st).1 is None,
{
    lemma_comes_to(b, 0, st, j, later);
}

/// Where the byte `c` does not occur, it is not found.
proof fn lemma_not_found(b: Seq<u8>, i: int, c: u8)
    requires
        0 <= i <= b.len(),
        forall|k: int| i <= k < b.len() ==> b[k] != c,
    ensures
        find_byte(b, i, c) is None,
{
    lemma_find_byte(b, i, c);
}

/// Without a double quote nothing ends a double-quoted text.
proof fn lemma_dquote_unclosed(b: Seq<u8>, i: int)
    requires
        0 <= i <= b.len(),
        forall|k: int| i <= k < b.len() ==> b[k] != DOUBLE_QUOTE,
    ensures
        dquote(b, i) is Err,
    decreases b.len() - i,
{
    if i < b.len() {
        lemma_dquote_part(b, i);
        if let Ok(p) = dquote_part(b, i) {
            lemma_dquote_unclosed(b, p.end);
        }
    }
}

/// A quote, a parenthesis or a here-document that is not closed ends the splitting, and the
/// state names the text that is missing.
pub proof fn law_what_is_open_is_reported(b: Seq<u8>, i: int, st: LexView)
    requires
        0 <= i < b.len(),
    ensures
        b[i] == SINGLE_QUOTE && (forall|k: int| i < k < b.len() ==> b[k] != SINGLE_QUOTE)
            ==> token_at(b, i, st) == (
            LexView { expected_closer: Some("'"@), ..st },
            None::<TknSpanView>,
        ),
        b[i] == LEFT_PAREN && (forall|k: int|
            i < k < b.len() ==> b[k] != RIGHT_PAREN) ==> token_at(b, i, st) == (
            LexView { expected_closer: Some(")"@), ..st },
            None::<TknSpanView>,
        ),
        b[i] == DOUBLE_QUOTE && (forall|k: int| i < k < b.len() ==> b[k] != DOUBLE_QUOTE)
            ==> token_at(b, i, st).1 is None && token_at(b, i, st).0.expected_closer is Some,
        b[i] == LINE_FEED && st.delimiters.len() > 0 && delimiter_line(
            b,
            i + 1,
            st.delimiters[0],
        ) is None ==> token_at(b, i, st).1 is None && token_at(b, i, st).0.expected_closer == Some(
            st.delimiters[0],
        ),
{
    reveal(token_at);
    if forall|k: int| i < k < b.len() ==> b[k] != SINGLE_QUOTE {
        lemma_not_found(b, i + 1, SINGLE_QUOTE);
    }
    if forall|k: int| i < k < b.len() ==> b[k] != RIGHT_PAREN {
        lemma_not_found(b, i + 1, RIGHT_PAREN);
    }
    if forall|k: int| i < k < b.len() ==> b[k] != DOUBLE_QUOTE {
        lemma_dquote_unclosed(b, i + 1);
    }
}

/// A command buffer whose last token, spaces and line ends aside, is `|`, `||`, `&&` or a
/// backslash wants more after it, and the state names that token. One that is split does not
/// end so.
pub proof fn law_operators_want_another_command(b: Seq<u8>, st: LexView)
    ensures
        raw_tokens(b, 0, st).1 matches Some(raw) ==> (dangling(
            grouped(raw, Seq::empty()),
        ) matches Some(t) ==> {
            &&& lexed(b, st).1 is None
            &&& lexed(b, st).0.continuation_for == Some(token_text(b, t))
        }),
        lexed(b, st).1 matches Some((ts, _)) ==> dangling(ts) is None,
{
}

/// In a command buffer that is split every parenthesis is closed. One with a parenthesis that
/// is not closed is refused, and where nothing else is missing the state names the
/// parenthesis.
pub proof fn law_parentheses_are_closed(b: Seq<u8>, st: LexView)
    ensures
        lexed(b, st).1 matches Some((ts, _)) ==> open_parens(ts) == 0,
        raw_tokens(b, 0, st) matches (after, Some(raw)) ==> ({
            let ts = grouped(raw, Seq::empty());
            open_parens(ts) > 0 ==> {
                &&& lexed(b, st).1 is None
                &&& dangling(ts) is None && after.delimiters.len() == 0 ==> lexed(
                    b,
                    st,
                ).0.expected_closer == Some(")"@)
            }
        }),
{
}

/// Where the line that begins at `m` ends, after its line feed.
pub open spec fn line_end(b: Seq<u8>, m: int) -> int {
    match find_byte(b, m, LINE_FEED) {
        Some(j) => j + 1,
        None => b.len() as int,
    }
}

/// A here-document ends before the first line that reads as its delimiter, blank space at the
/// end of the line aside.
pub proof fn law_heredoc_ends_at_its_delimiter(b: Seq<u8>, i: int, d: Seq<char>)
    requires
        0 <= i <= b.len(),
    ensures
        delimiter_line(b, i, d) matches Some((s, e)) ==> {
            &&& i <= s < e <= b.len()
            &&& s == i || b[s - 1] == LINE_FEED
            &&& e == line_end(b, s)
            &&& trim_end(text_of(b, s, e)) == d
            &&& forall|m: int|
                i <= m < s && (m == i || b[m - 1] == LINE_FEED) ==> trim_end(
                    text_of(b, m, #[trigger] line_end(b, m)),
                ) != d
        },
    decreases b.len() - i,
{
    lemma_find_byte(b, i, LINE_FEED);
    if let Some(j) = find_byte(b, i, LINE_FEED) {
        if trim_end(text_of(b, i, j + 1)) != d {
            law_heredoc_ends_at_its_delimiter(b, j + 1, d);
            if let Some((s, e)) = delimiter_line(b, j + 1, d) {
                assert forall|m: int|
                    i <= m < s && (m == i || b[m - 1] == LINE_FEED) implies trim_end(
                    text_of(b, m, #[trigger] line_end(b, m)),
                ) != d by {
                    if m > i {
                        assert(m >= j + 1);
                    }
                }
            }
        }
    }
}

/// A here-document is taken as it stands: from the line after its operator to the line that
/// reads as its delimiter.
pub proof fn law_heredoc_is_taken_verbatim(b: Seq<u8>, i: int, st: LexView, d: Seq<char>)
    requires
        0 <= i < b.len(),
        b[i] == LINE_FEED,
        st.delimiters == seq![d],
    ensures
        delimiter_line(b, i + 1, d) matches Some((s, e)) ==> token_at(b, i, st) == (
            LexView {
                delimiters: Seq::empty(),
                heredocs: st.heredocs.push((i + 1, s)),
                ..st
            },
            Some(TknSpanView { kind: TknView::Newline, start: i, end: e }),
        ),
{
    reveal(token_at);
    reveal_with_fuel(bodies_at, 2);
    assert(st.delimiters.skip(1) =~= Seq::empty());
}

/// How many here-document operators there are among some tokens.
pub open spec fn heredoc_count(ts: Seq<TknSpanView>) -> nat
    decreases ts.len(),
{
    if ts.len() == 0 {
        0
    } else {
        heredoc_count(ts.skip(1)) + (if ts[0].kind is Heredoc {
            1nat
        } else {
            0nat
        })
    }
}

/// Tokens that are joined are counted together.
proof fn lemma_count_joins(v: Seq<TknSpanView>, w: Seq<TknSpanView>)
    ensures
        heredoc_count(v + w) == heredoc_count(v) + heredoc_count(w),
    decreases v.len(),
{
    if v.len() == 0 {
        assert(v + w =~= w);
    } else {
        assert((v + w).skip(1) =~= v.skip(1) + w);
        lemma_count_joins(v.skip(1), w);
    }
}

/// Grouping parts into words leaves the operators alone.
proof fn lemma_grouped_count(ts: Seq<TknSpanView>, open: Seq<TknSpanView>)
    ensures
        heredoc_count(grouped(ts, open)) == heredoc_count(ts),
    decreases ts.len(),
{
    reveal_with_fuel(heredoc_count, 2);
    if ts.len() > 0 {
        let rest = ts.skip(1);
        if is_part(ts[0].kind) {
            lemma_grouped_count(rest, open.push(ts[0]));
        } else {
            let w = word_of(open);
            let one = seq![ts[0]];
            let g = grouped(rest, Seq::empty());
            lemma_grouped_count(rest, Seq::empty());
            lemma_count_joins(w, one);
            lemma_count_joins(w + one, g);
            assert(one.skip(1) =~= Seq::empty());
            if w.len() > 0 {
                assert(w.skip(1) =~= Seq::empty());
            }
        }
    } else if open.len() > 0 {
        assert(word_of(open).skip(1) =~= Seq::empty());
    }
}

/// Bodies that are found are as many as were due.
proof fn lemma_bodies_count(b: Seq<u8>, i: int, st: LexView)
    ensures
        bodies_at(b, i, st).1 is Some ==> {
            &&& bodies_at(b, i, st).0.delimiters.len() == 0
            &&& bodies_at(b, i, st).0.heredocs.len() == st.heredocs.len() + st.delimiters.len()
        },
    decreases st.delimiters.len(),
{
    if st.delimiters.len() > 0 {
        if let Some((end, next)) = delimiter_line(b, i, st.delimiters[0]) {
            let rest = LexView { delimiters: st.delimiters.skip(1), ..st };
            lemma_bodies_count(
                b,
                next,
                LexView { heredocs: rest.heredocs.push((i, end)), ..rest },
            );
        }
    }
}

/// Each here-document operator makes one body due, and each line end finds those that are.
proof fn lemma_raw_count(b: Seq<u8>, i: int, st: LexView)
    requires
        0 <= i <= b.len(),
    ensures
        raw_tokens(b, i, st) matches (last, Some(ts)) ==> heredoc_count(ts) + st.delimiters.len()
            + st.heredocs.len() == last.delimiters.len() + last.heredocs.len(),
    decreases b.len() - i,
{
    reveal(token_at);
    if i < b.len() {
        lemma_token_bounds(b, i, st);
        lemma_bodies_count(b, i + 1, st);
        if let (after, Some(t)) = token_at(b, i, st) {
            lemma_raw_count(b, t.end, after);
            if let (last, Some(rest)) = raw_tokens(b, t.end, after) {
                let ts = seq![t] + rest;
                assert(ts.skip(1) =~= rest);
            }
        }
    }
}

/// In a command buffer that is split every here-document operator has its body.
pub proof fn law_every_heredoc_has_a_body(b: Seq<u8>)
    ensures
        lexed(b, fresh_state()).1 matches Some((ts, docs)) ==> heredoc_count(ts) == docs.len(),
{
    lemma_raw_count(b, 0, fresh_state());
    if let (last, Some(raw)) = raw_tokens(b, 0, fresh_state()) {
        lemma_grouped_count(raw, Seq::empty());
    }
}

} // verus!
