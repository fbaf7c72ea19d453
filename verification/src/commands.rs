//! What a whole command holds: its arguments, redirections and assignments in the order in which
//! they stand, and which commands are builtin.

use crate::ast::{AssignmentView, AstView, Redir, RedirectView};
use crate::builtins::builtin_table;
use crate::grammar::{
    assigned, assignment, ends_command, file_name, first_doc, from_doc, items, joined,
    lemma_assigned, lemma_past_separators, lemma_subshell, list, next_kind, no_items, parsed,
    past_blank, past_delimiter, past_doc, past_separators, pipeline, program, simple, stages,
    stepped, subshell, to_file, wf_source, Cursor, Items, Source, SyntaxErrView,
};
use crate::lexer::{
    grouped, is_part, lemma_token_bounds, lexed, raw_tokens, token_at, word_of, LexView,
};
use crate::token::{wf_token, TknSpanView, TknView};
use crate::vars::VarMap;
use crate::word::word_value;
use vstd::prelude::*;
use vstd::utf8::*;

verus! {

broadcast use vstd::seq::group_seq_axioms;

/// Where the next token that is no blank stands, at or after `i`.
pub open spec fn solid_from(ts: Seq<TknSpanView>, i: int) -> int
    decreases ts.len() - i,
{
    if 0 <= i < ts.len() && ts[i].kind is Space {
        solid_from(ts, i + 1)
    } else {
        i
    }
}

/// Where the last token that is no blank stands, from `lo` on and before `i`; `lo - 1` where
/// there is none.
pub open spec fn solid_before(ts: Seq<TknSpanView>, lo: int, i: int) -> int
    decreases i - lo,
{
    if i <= lo {
        lo - 1
    } else if ts[i - 1].kind is Space {
        solid_before(ts, lo, i - 1)
    } else {
        i - 1
    }
}

/// A token that the word after it belongs to.
pub open spec fn takes_word(k: TknView) -> bool {
    k is RedirectIn || k is RedirectOut || k is RedirectAppend || k is Heredoc || k is Assign
}

/// Whether token `i` of a command that begins at `lo` is a word that belongs to no redirection,
/// is no delimiter, and stands on no side of an equals sign, blanks aside.
pub open spec fn is_argument(ts: Seq<TknSpanView>, lo: int, i: int) -> bool {
    let before = solid_before(ts, lo, i);
    let after = solid_from(ts, i + 1);
    &&& ts[i].kind is Word
    &&& before >= lo ==> !takes_word(ts[before].kind)
    &&& after < ts.len() ==> !(ts[after].kind is Assign)
}

/// The word at or after `i`, blanks aside; no word where another token stands there.
pub open spec fn word_from(ts: Seq<TknSpanView>, i: int) -> Seq<TknSpanView> {
    let j = solid_from(ts, i);
    if 0 <= j < ts.len() && ts[j].kind is Word {
        ts[j].kind->Word_0
    } else {
        Seq::empty()
    }
}

/// The arguments among the tokens from `i` to `hi` of a command that begins at `lo`.
pub open spec fn arguments(ts: Seq<TknSpanView>, lo: int, i: int, hi: int) -> Seq<Seq<TknSpanView>>
    decreases hi - i,
{
    if i >= hi {
        Seq::empty()
    } else {
        (if is_argument(ts, lo, i) {
            seq![ts[i].kind->Word_0]
        } else {
            Seq::empty()
        }) + arguments(ts, lo, i + 1, hi)
    }
}

/// The redirections of the input among the tokens from `i` to `hi`. Each here-document operator
/// takes the next of the here-documents.
pub open spec fn inputs(ts: Seq<TknSpanView>, i: int, hi: int, docs: Seq<Seq<char>>) -> Seq<
    RedirectView,
>
    decreases hi - i,
{
    if i >= hi {
        Seq::empty()
    } else if ts[i].kind is RedirectIn {
        seq![to_file(Redir::In, word_from(ts, i + 1))] + inputs(ts, i + 1, hi, docs)
    } else if ts[i].kind is Heredoc {
        if docs.len() > 0 {
            seq![from_doc(docs[0])] + inputs(ts, i + 1, hi, docs.skip(1))
        } else {
            seq![from_doc(Seq::empty())] + inputs(ts, i + 1, hi, docs)
        }
    } else {
        inputs(ts, i + 1, hi, docs)
    }
}

/// The redirections of the output among the tokens from `i` to `hi`.
pub open spec fn outputs(ts: Seq<TknSpanView>, i: int, hi: int) -> Seq<RedirectView>
    decreases hi - i,
{
    if i >= hi {
        Seq::empty()
    } else if ts[i].kind is RedirectOut {
        seq![to_file(Redir::Out, word_from(ts, i + 1))] + outputs(ts, i + 1, hi)
    } else if ts[i].kind is RedirectAppend {
        seq![to_file(Redir::Append, word_from(ts, i + 1))] + outputs(ts, i + 1, hi)
    } else {
        outputs(ts, i + 1, hi)
    }
}

/// The assignments among the tokens from `i` to `hi` of a command that begins at `lo`.
pub open spec fn settings(ts: Seq<TknSpanView>, lo: int, i: int, hi: int) -> Seq<AssignmentView>
    decreases hi - i,
{
    if i >= hi {
        Seq::empty()
    } else if ts[i].kind is Assign {
        seq![
            AssignmentView {
                lhs: word_from(ts, solid_before(ts, lo, i)),
                rhs: word_from(ts, i + 1),
            },
        ] + settings(ts, lo, i + 1, hi)
    } else {
        settings(ts, lo, i + 1, hi)
    }
}

/// Tokens among which no two words touch.
pub open spec fn words_apart(ts: Seq<TknSpanView>) -> bool {
    forall|i: int|
        0 <= i < ts.len() - 1 && (#[trigger] ts[i]).kind is Word ==> !(ts[i + 1].kind is Word)
}

/// Where a command ends that has been read up to `s`: before the token that ended it.
pub open spec fn command_end(s: Cursor) -> int {
    if s.cur is Some {
        s.pos - 1
    } else {
        s.pos
    }
}

/// No parenthesis opens between two places.
pub open spec fn no_paren(ts: Seq<TknSpanView>, i: int, hi: int) -> bool {
    forall|k: int| i <= k < hi && 0 <= k < ts.len() ==> !((#[trigger] ts[k]).kind is LParen)
}

/// A token that adds nothing to a command by itself.
spec fn silent(ts: Seq<TknSpanView>, lo: int, k: int) -> bool {
    !is_argument(ts, lo, k) && !takes_word(ts[k].kind)
}

/// What a command has been found to hold, with what the tokens from `i` to `hi` add to it.
spec fn with_rest(
    it: Items,
    ts: Seq<TknSpanView>,
    lo: int,
    i: int,
    hi: int,
    docs: Seq<Seq<char>>,
) -> Items {
    Items {
        args: it.args + arguments(ts, lo, i, hi),
        ins: it.ins + inputs(ts, i, hi, docs),
        outs: it.outs + outputs(ts, i, hi),
        env: it.env + settings(ts, lo, i, hi),
        inner: it.inner,
    }
}

/// Tokens that add nothing.
proof fn lemma_silent(
    it: Items,
    ts: Seq<TknSpanView>,
    lo: int,
    i: int,
    j: int,
    hi: int,
    docs: Seq<Seq<char>>,
)
    requires
        i <= j <= hi,
        forall|k: int| i <= k < j ==> #[trigger] silent(ts, lo, k),
    ensures
        with_rest(it, ts, lo, i, hi, docs) == with_rest(it, ts, lo, j, hi, docs),
    decreases j - i,
{
    if i < j {
        assert(silent(ts, lo, i));
        lemma_silent(it, ts, lo, i + 1, j, hi, docs);
        assert(arguments(ts, lo, i, hi) =~= arguments(ts, lo, i + 1, hi));
    }
}

/// A command does not end before where its rest begins.
proof fn lemma_command_end(c: Source, s: Cursor, it: Items)
    requires
        wf_source(c),
        0 <= s.pos <= c.ts.len(),
    ensures
        items(c, s, it).1 is Ok ==> s.pos <= command_end(items(c, s, it).0) <= c.ts.len(),
    decreases c.ts.len() - s.pos,
{
    let s1 = stepped(c, s);
    match s1.cur {
        Some(TknView::Word(w)) => {
            let s2 = past_blank(c, s1);
            if next_kind(c, s2) == Some(TknView::Assign) {
                lemma_assigned(c, stepped(c, s2), w, Seq::empty());
                if let (s3, Ok(a)) = assignment(c, s2, w) {
                    lemma_command_end(c, s3, Items { env: it.env.push(a), ..it });
                }
            } else {
                lemma_command_end(c, s2, Items { args: it.args.push(w), ..it });
            }
        },
        Some(TknView::RedirectIn) => {
            if let (s2, Ok(f)) = file_name(c, s1, SyntaxErrView::NoInfile) {
                let next = Items { ins: it.ins.push(to_file(Redir::In, f)), ..it };
                lemma_command_end(c, s2, next);
            }
        },
        Some(TknView::RedirectOut) => {
            if let (s2, Ok(f)) = file_name(c, s1, SyntaxErrView::NoOutfile) {
                let next = Items { outs: it.outs.push(to_file(Redir::Out, f)), ..it };
                lemma_command_end(c, s2, next);
            }
        },
        Some(TknView::RedirectAppend) => {
            if let (s2, Ok(f)) = file_name(c, s1, SyntaxErrView::NoAppendFile) {
                let next = Items { outs: it.outs.push(to_file(Redir::Append, f)), ..it };
                lemma_command_end(c, s2, next);
            }
        },
        Some(TknView::Heredoc) => {
            if let (s2, Ok(_)) = past_delimiter(c, past_doc(s1)) {
                let next = Items { ins: it.ins.push(from_doc(first_doc(s1))), ..it };
                lemma_command_end(c, s2, next);
            }
        },
        Some(TknView::LParen) => {
            if it.args.len() == 0 {
                lemma_subshell(c, s1, Seq::empty());
                if let (s2, Ok(inner)) = subshell(c, s1, Seq::empty()) {
                    lemma_command_end(c, s2, Items { inner: Some(inner), ..it });
                }
            }
        },
        Some(TknView::Space) => {
            lemma_command_end(c, s1, it);
        },
        _ => {},
    }
}

/// A command whose rest begins with an equals sign, blanks aside, is refused.
proof fn lemma_no_assign(c: Source, s: Cursor, it: Items)
    requires
        0 <= s.pos <= c.ts.len(),
        solid_from(c.ts, s.pos) < c.ts.len(),
        c.ts[solid_from(c.ts, s.pos)].kind is Assign,
    ensures
        items(c, s, it).1 is Err,
    decreases c.ts.len() - s.pos,
{
    if c.ts[s.pos].kind is Space {
        lemma_no_assign(c, stepped(c, s), it);
    }
}

/// Blanks are passed over.
proof fn lemma_solid(ts: Seq<TknSpanView>, lo: int, i: int)
    requires
        lo <= i,
        0 <= i <= ts.len(),
    ensures
        i <= solid_from(ts, i) <= ts.len(),
        forall|k: int| i <= k < solid_from(ts, i) ==> (#[trigger] ts[k]).kind is Space,
        solid_from(ts, i) < ts.len() ==> !(ts[solid_from(ts, i)].kind is Space),
        forall|k: int|
            i <= k <= solid_from(ts, i) ==> #[trigger] solid_before(ts, lo, k) == solid_before(
                ts,
                lo,
                i,
            ),
    decreases ts.len() - i,
{
    if i < ts.len() && ts[i].kind is Space {
        lemma_solid(ts, lo, i + 1);
        assert(solid_before(ts, lo, i + 1) == solid_before(ts, lo, i));
    }
}

/// What is assigned is the next word, blanks aside, if there is one.
proof fn lemma_assigned_word(c: Source, s: Cursor, lhs: Seq<TknSpanView>)
    requires
        wf_source(c),
        words_apart(c.ts),
        0 <= s.pos <= c.ts.len(),
    ensures
        assigned(c, s, lhs, Seq::empty()) matches (t, Ok(a)) ==> {
            let m = solid_from(c.ts, s.pos);
            &&& m < c.ts.len()
            &&& a == AssignmentView { lhs, rhs: word_from(c.ts, s.pos) }
            &&& t.docs == s.docs
            &&& if c.ts[m].kind is Word {
                t.pos == m + 1
            } else {
                t.pos == m && ends_command(c.ts[m].kind)
            }
        },
    decreases c.ts.len() - s.pos,
{
    match next_kind(c, s) {
        Some(TknView::Space) => {
            lemma_assigned_word(c, stepped(c, s), lhs);
        },
        Some(TknView::Word(w)) => {
            assert(wf_token(encode_utf8(c.text), c.ts[s.pos]));
            let s1 = stepped(c, s);
            assert(!(next_kind(c, s1) matches Some(TknView::Word(_))));
            reveal_with_fuel(assigned, 2);
        },
        _ => {},
    }
}

/// Whether a new part of a command can begin at `s`: no token before it still wants a word, or
/// the command ends here.
spec fn at_part(c: Source, lo: int, s: Cursor) -> bool {
    let before = solid_before(c.ts, lo, s.pos);
    ||| before < lo
    ||| c.ts[before].kind is Word
    ||| match next_kind(c, s) {
        Some(k) => ends_command(k),
        None => true,
    }
}

/// The rest of a command adds what its tokens call for, in their order.
proof fn lemma_arranged(c: Source, lo: int, s: Cursor, it: Items)
    requires
        wf_source(c),
        words_apart(c.ts),
        0 <= lo <= s.pos <= c.ts.len(),
        at_part(c, lo, s),
        items(c, s, it).1 is Ok,
        no_paren(c.ts, s.pos, command_end(items(c, s, it).0)),
    ensures
        items(c, s, it).1->Ok_0 == with_rest(
            it,
            c.ts,
            lo,
            s.pos,
            command_end(items(c, s, it).0),
            s.docs,
        ),
    decreases c.ts.len() - s.pos, 1int,
{
    let ts = c.ts;
    let p = s.pos;
    let s1 = stepped(c, s);
    let hi = command_end(items(c, s, it).0);
    let docs = s.docs;
    lemma_command_end(c, s, it);
    match s1.cur {
        None => {
            assert(with_rest(it, ts, lo, p, hi, docs).args =~= it.args);
            assert(with_rest(it, ts, lo, p, hi, docs).ins =~= it.ins);
            assert(with_rest(it, ts, lo, p, hi, docs).outs =~= it.outs);
            assert(with_rest(it, ts, lo, p, hi, docs).env =~= it.env);
        },
        Some(TknView::Word(w)) => {
            lemma_arranged_word(c, lo, s, it, w);
        },
        Some(TknView::RedirectIn) => {
            if let (s2, Ok(f)) = file_name(c, s1, SyntaxErrView::NoInfile) {
                let next = Items { ins: it.ins.push(to_file(Redir::In, f)), ..it };
                lemma_command_end(c, s2, next);
                lemma_target(c, lo, s, s2, f);
                lemma_arranged(c, lo, s2, next);
                lemma_silent(next, ts, lo, p + 1, s2.pos, hi, docs);
                lemma_one_part(ts, lo, p, hi);
                assert(it.ins.push(to_file(Redir::In, f)) + inputs(ts, p + 1, hi, docs) =~= it.ins
                    + inputs(ts, p, hi, docs));
            }
        },
        Some(TknView::RedirectOut) => {
            if let (s2, Ok(f)) = file_name(c, s1, SyntaxErrView::NoOutfile) {
                let next = Items { outs: it.outs.push(to_file(Redir::Out, f)), ..it };
                lemma_command_end(c, s2, next);
                lemma_target(c, lo, s, s2, f);
                lemma_arranged(c, lo, s2, next);
                lemma_silent(next, ts, lo, p + 1, s2.pos, hi, docs);
                lemma_one_part(ts, lo, p, hi);
                assert(it.outs.push(to_file(Redir::Out, f)) + outputs(ts, p + 1, hi) =~= it.outs
                    + outputs(ts, p, hi));
            }
        },
        Some(TknView::RedirectAppend) => {
            if let (s2, Ok(f)) = file_name(c, s1, SyntaxErrView::NoAppendFile) {
                let next = Items { outs: it.outs.push(to_file(Redir::Append, f)), ..it };
                lemma_command_end(c, s2, next);
                lemma_target(c, lo, s, s2, f);
                lemma_arranged(c, lo, s2, next);
                lemma_silent(next, ts, lo, p + 1, s2.pos, hi, docs);
                lemma_one_part(ts, lo, p, hi);
                assert(it.outs.push(to_file(Redir::Append, f)) + outputs(ts, p + 1, hi) =~= it.outs
                    + outputs(ts, p, hi));
            }
        },
        Some(TknView::Heredoc) => {
            if let (s2, Ok(_)) = past_delimiter(c, past_doc(s1)) {
                let doc = from_doc(first_doc(s1));
                let next = Items { ins: it.ins.push(doc), ..it };
                lemma_command_end(c, s2, next);
                let f = ts[s2.pos - 1].kind->Word_0;
                assert(ts[s2.pos - 1].kind == TknView::Word(f));
                lemma_target(c, lo, s, s2, f);
                lemma_arranged(c, lo, s2, next);
                lemma_silent(next, ts, lo, p + 1, s2.pos, hi, s2.docs);
                lemma_one_part(ts, lo, p, hi);
                assert(it.ins.push(doc) + inputs(ts, p + 1, hi, s2.docs) =~= it.ins + inputs(
                    ts,
                    p,
                    hi,
                    docs,
                ));
            }
        },
        Some(TknView::LParen) => {
            if let (s2, Ok(inner)) = subshell(c, s1, Seq::empty()) {
                lemma_subshell(c, s1, Seq::empty());
                lemma_command_end(c, s2, Items { inner: Some(inner), ..it });
                assert(ts[p].kind is LParen);
            }
        },
        Some(TknView::Space) => {
            lemma_command_end(c, s1, it);
            assert(silent(ts, lo, p));
            lemma_silent(it, ts, lo, p, p + 1, hi, docs);
            lemma_arranged(c, lo, s1, it);
        },
        Some(k) => {
            if ends_command(k) {
                assert(with_rest(it, ts, lo, p, hi, docs).args =~= it.args);
                assert(with_rest(it, ts, lo, p, hi, docs).ins =~= it.ins);
                assert(with_rest(it, ts, lo, p, hi, docs).outs =~= it.outs);
                assert(with_rest(it, ts, lo, p, hi, docs).env =~= it.env);
            }
        },
    }
}

/// What stands at `p` is no argument and no assignment.
proof fn lemma_one_part(ts: Seq<TknSpanView>, lo: int, p: int, hi: int)
    requires
        0 <= lo <= p < hi <= ts.len(),
        !(ts[p].kind is Word),
        !(ts[p].kind is Assign),
    ensures
        arguments(ts, lo, p, hi) == arguments(ts, lo, p + 1, hi),
        settings(ts, lo, p, hi) == settings(ts, lo, p + 1, hi),
{
    assert(arguments(ts, lo, p, hi) =~= arguments(ts, lo, p + 1, hi));
}

/// The word that belongs to an operator at `s` is the next one, blanks aside, and adds nothing
/// by itself.
proof fn lemma_target(c: Source, lo: int, s: Cursor, s2: Cursor, f: Seq<TknSpanView>)
    requires
        0 <= lo <= s.pos < c.ts.len(),
        takes_word(c.ts[s.pos].kind),
        s2.pos == s.pos + 2 || (s2.pos == s.pos + 3 && c.ts[s.pos + 1].kind is Space),
        s2.pos <= c.ts.len(),
        c.ts[s2.pos - 1].kind == TknView::Word(f),
    ensures
        word_from(c.ts, s.pos + 1) == f,
        forall|k: int| s.pos + 1 <= k < s2.pos ==> #[trigger] silent(c.ts, lo, k),
        at_part(c, lo, s2),
{
    reveal_with_fuel(solid_from, 3);
    reveal_with_fuel(solid_before, 3);
    assert(silent(c.ts, lo, s2.pos - 1));
    if s2.pos == s.pos + 3 {
        assert(silent(c.ts, lo, s.pos + 1));
    }
}

/// A word adds an argument, or the assignment that it is the name of.
proof fn lemma_arranged_word(c: Source, lo: int, s: Cursor, it: Items, w: Seq<TknSpanView>)
    requires
        wf_source(c),
        words_apart(c.ts),
        0 <= lo <= s.pos < c.ts.len(),
        c.ts[s.pos].kind == TknView::Word(w),
        at_part(c, lo, s),
        items(c, s, it).1 is Ok,
        no_paren(c.ts, s.pos, command_end(items(c, s, it).0)),
    ensures
        items(c, s, it).1->Ok_0 == with_rest(
            it,
            c.ts,
            lo,
            s.pos,
            command_end(items(c, s, it).0),
            s.docs,
        ),
    decreases c.ts.len() - s.pos, 0int,
{
    let ts = c.ts;
    let p = s.pos;
    let s1 = stepped(c, s);
    let s2 = past_blank(c, s1);
    let q = s2.pos;
    let hi = command_end(items(c, s, it).0);
    let docs = s.docs;
    reveal_with_fuel(solid_from, 3);
    reveal_with_fuel(solid_before, 3);
    if next_kind(c, s2) == Some(TknView::Assign) {
        let s3 = stepped(c, s2);
        lemma_assigned(c, s3, w, Seq::empty());
        lemma_assigned_word(c, s3, w);
        lemma_solid(ts, lo, q + 1);
        if let (s4, Ok(a)) = assignment(c, s2, w) {
            let m = solid_from(ts, q + 1);
            let next = Items { env: it.env.push(a), ..it };
            lemma_command_end(c, s4, next);
            assert(solid_from(ts, p + 1) == q);
            assert(!is_argument(ts, lo, p));
            assert(silent(ts, lo, p));
            if q == p + 2 {
                assert(silent(ts, lo, p + 1));
            }
            lemma_silent(it, ts, lo, p, q, hi, docs);
            assert(solid_before(ts, lo, q) == p);
            assert(word_from(ts, p) == w);
            assert(solid_before(ts, lo, q + 1) == q);
            assert(solid_before(ts, lo, m) == q);
            assert forall|k: int| q + 1 <= k < s4.pos implies #[trigger] silent(ts, lo, k) by {
                if k == m {
                    assert(ts[m].kind is Word);
                }
            }
            lemma_silent(next, ts, lo, q + 1, s4.pos, hi, docs);
            assert(at_part(c, lo, s4)) by {
                if ts[m].kind is Word {
                    assert(solid_before(ts, lo, m + 1) == m);
                }
            }
            lemma_arranged(c, lo, s4, next);
            assert(settings(ts, lo, q, hi) == seq![a] + settings(ts, lo, q + 1, hi));
            assert(it.env.push(a) + settings(ts, lo, q + 1, hi) =~= it.env + settings(
                ts,
                lo,
                q,
                hi,
            ));
            assert(arguments(ts, lo, q, hi) =~= arguments(ts, lo, q + 1, hi));
        }
    } else {
        let next = Items { args: it.args.push(w), ..it };
        if solid_from(ts, q) < ts.len() && ts[solid_from(ts, q)].kind is Assign {
            lemma_no_assign(c, s2, next);
        }
        lemma_solid(ts, lo, q);
        lemma_command_end(c, s2, next);
        assert(solid_from(ts, p + 1) == solid_from(ts, q));
        assert(is_argument(ts, lo, p));
        assert(solid_before(ts, lo, p + 1) == p);
        if q == p + 2 {
            assert(silent(ts, lo, p + 1));
        }
        lemma_silent(next, ts, lo, p + 1, q, hi, docs);
        lemma_arranged(c, lo, s2, next);
        assert(it.args.push(w) + arguments(ts, lo, p + 1, hi) =~= it.args + arguments(
            ts,
            lo,
            p,
            hi,
        ));
    }
}

/// Whether a node holds what the tokens from `s` to `hi` call for, part by part in their order.
pub open spec fn holds_in_order(n: AstView, c: Source, s: Cursor, hi: int) -> bool {
    let args = arguments(c.ts, s.pos, s.pos, hi);
    let ins = inputs(c.ts, s.pos, hi, s.docs);
    let outs = outputs(c.ts, s.pos, hi);
    let env = settings(c.ts, s.pos, s.pos, hi);
    match n {
        AstView::Prog(p) => p.args == args && p.ins == ins && p.outs == outs && p.env == env,
        AstView::Builtin(p) => p.args == args && p.ins == ins && p.outs == outs,
        AstView::Assignments { assignments, .. } => args.len() == 0 && assignments == env,
        _ => false,
    }
}

/// A command that holds no parenthesis keeps its parts in their order, wherever its redirections
/// and assignments stand: its arguments are its words that belong to no redirection, are no
/// delimiter and stand on no side of an equals sign; its redirections are those that its
/// operators call for, each here-document operator taking the next here-document.
pub proof fn law_commands_keep_their_order(c: Source, s: Cursor)
    requires
        wf_source(c),
        words_apart(c.ts),
        0 <= s.pos <= c.ts.len(),
        simple(c, s).1 is Ok,
        no_paren(c.ts, s.pos, command_end(simple(c, s).0)),
    ensures
        holds_in_order(simple(c, s).1->Ok_0, c, s, command_end(simple(c, s).0)),
{
    let hi = command_end(simple(c, s).0);
    let none = no_items();
    lemma_arranged(c, s.pos, s, none);
    let all = with_rest(none, c.ts, s.pos, s.pos, hi, s.docs);
    assert(all.args =~= arguments(c.ts, s.pos, s.pos, hi));
    assert(all.ins =~= inputs(c.ts, s.pos, hi, s.docs));
    assert(all.outs =~= outputs(c.ts, s.pos, hi));
    assert(all.env =~= settings(c.ts, s.pos, s.pos, hi));
}

/// Words that grouping makes are set apart by the tokens between them.
proof fn lemma_grouped_apart(ts: Seq<TknSpanView>, open: Seq<TknSpanView>)
    requires
        forall|i: int| 0 <= i < ts.len() ==> !((#[trigger] ts[i]).kind is Word),
    ensures
        words_apart(grouped(ts, open)),
    decreases ts.len(),
{
    if ts.len() > 0 {
        let rest = ts.skip(1);
        assert forall|i: int| 0 <= i < rest.len() implies !((#[trigger] rest[i]).kind is Word) by {
            assert(rest[i] == ts[i + 1]);
        }
        if is_part(ts[0].kind) {
            lemma_grouped_apart(rest, open.push(ts[0]));
        } else {
            let g = grouped(rest, Seq::empty());
            let w = word_of(open);
            lemma_grouped_apart(rest, Seq::empty());
            let all = w + seq![ts[0]] + g;
            assert(!(ts[0].kind is Word));
            assert forall|i: int|
                0 <= i < all.len() - 1 && (#[trigger] all[i]).kind is Word implies !(all[i
                + 1].kind is Word) by {
                if i > w.len() {
                    let k = i - w.len() - 1;
                    assert(all[i] == g[k]);
                    assert(all[i + 1] == g[k + 1]);
                }
            }
        }
    }
}

/// Among the tokens that the lexer finds no two words touch.
pub proof fn law_words_are_set_apart(b: Seq<u8>, st: LexView)
    ensures
        lexed(b, st).1 matches Some((ts, _)) ==> words_apart(ts),
{
    if let (_, Some(raw)) = raw_tokens(b, 0, st) {
        lemma_raw_no_words(b, 0, st);
        lemma_grouped_apart(raw, Seq::empty());
    }
}

/// Before grouping there are no words.
proof fn lemma_raw_no_words(b: Seq<u8>, i: int, st: LexView)
    requires
        0 <= i <= b.len(),
    ensures
        raw_tokens(b, i, st).1 matches Some(ts) ==> forall|m: int|
            0 <= m < ts.len() ==> !((#[trigger] ts[m]).kind is Word),
    decreases b.len() - i,
{
    if i < b.len() {
        lemma_token_bounds(b, i, st);
        if let (after, Some(t)) = token_at(b, i, st) {
            lemma_raw_no_words(b, t.end, after);
        }
    }
}

/// Trees in which a command is builtin exactly if the value of its first word names a builtin
/// command.
pub open spec fn known_by_name(vars: VarMap, n: AstView) -> bool
    decreases n,
{
    match n {
        AstView::Prog(p) => p.args.len() > 0 && !builtin_table().contains_key(
            word_value(p.args[0], encode_utf8(p.text), vars),
        ),
        AstView::Builtin(p) => p.args.len() > 0 && builtin_table().contains_key(
            word_value(p.args[0], encode_utf8(p.text), vars),
        ),
        AstView::Logical { lhs, operator, rhs } => known_by_name(vars, *lhs) && known_by_name(
            vars,
            *rhs,
        ),
        AstView::Pipeline(ps) => forall|i: int|
            0 <= i < ps.len() ==> known_by_name(vars, #[trigger] ps[i]),
        AstView::Subshell(s) => forall|i: int|
            0 <= i < s.inner.len() ==> known_by_name(vars, #[trigger] s.inner[i]),
        AstView::Assignments { .. } => true,
    }
}

/// Such trees.
pub open spec fn all_known(vars: VarMap, ns: Seq<AstView>) -> bool {
    forall|i: int| 0 <= i < ns.len() ==> known_by_name(vars, #[trigger] ns[i])
}

/// The commands of a subshell within a simple command.
proof fn lemma_items_known(c: Source, s: Cursor, it: Items)
    requires
        it.inner matches Some(inner) ==> all_known(c.vars, inner),
    ensures
        items(c, s, it).1 matches Ok(r) ==> (r.inner matches Some(inner) ==> all_known(
            c.vars,
            inner,
        )),
    decreases c.ts.len() - s.pos, 0int,
{
    let s1 = stepped(c, s);
    match s1.cur {
        Some(TknView::Word(w)) => {
            let s2 = past_blank(c, s1);
            if next_kind(c, s2) == Some(TknView::Assign) {
                lemma_assigned(c, stepped(c, s2), w, Seq::empty());
                if let (s3, Ok(a)) = assignment(c, s2, w) {
                    lemma_items_known(c, s3, Items { env: it.env.push(a), ..it });
                }
            } else {
                lemma_items_known(c, s2, Items { args: it.args.push(w), ..it });
            }
        },
        Some(TknView::RedirectIn) => {
            if let (s2, Ok(f)) = file_name(c, s1, SyntaxErrView::NoInfile) {
                let next = Items { ins: it.ins.push(to_file(Redir::In, f)), ..it };
                lemma_items_known(c, s2, next);
            }
        },
        Some(TknView::RedirectOut) => {
            if let (s2, Ok(f)) = file_name(c, s1, SyntaxErrView::NoOutfile) {
                let next = Items { outs: it.outs.push(to_file(Redir::Out, f)), ..it };
                lemma_items_known(c, s2, next);
            }
        },
        Some(TknView::RedirectAppend) => {
            if let (s2, Ok(f)) = file_name(c, s1, SyntaxErrView::NoAppendFile) {
                let next = Items { outs: it.outs.push(to_file(Redir::Append, f)), ..it };
                lemma_items_known(c, s2, next);
            }
        },
        Some(TknView::Heredoc) => {
            if let (s2, Ok(_)) = past_delimiter(c, past_doc(s1)) {
                let next = Items { ins: it.ins.push(from_doc(first_doc(s1))), ..it };
                lemma_items_known(c, s2, next);
            }
        },
        Some(TknView::LParen) => {
            if it.args.len() == 0 {
                lemma_subshell_known(c, s1, Seq::empty());
                if let (s2, Ok(inner)) = subshell(c, s1, Seq::empty()) {
                    if s.pos < s2.pos <= c.ts.len() {
                        lemma_items_known(c, s2, Items { inner: Some(inner), ..it });
                    }
                }
            }
        },
        Some(TknView::Space) => {
            lemma_items_known(c, s1, it);
        },
        _ => {},
    }
}

/// A simple command is builtin exactly if the value of its first word names a builtin command;
/// its other words do not count, nor how the first one is quoted.
pub proof fn law_builtins_are_known_by_their_first_word(c: Source, s: Cursor)
    ensures
        simple(c, s).1 matches Ok(n) ==> known_by_name(c.vars, n),
    decreases c.ts.len() - s.pos, 1int,
{
    lemma_items_known(c, s, no_items());
}

/// The commands of a subshell.
proof fn lemma_subshell_known(c: Source, s: Cursor, acc: Seq<AstView>)
    requires
        all_known(c.vars, acc),
    ensures
        subshell(c, s, acc).1 matches Ok(inner) ==> all_known(c.vars, inner),
    decreases c.ts.len() - s.pos, 4int,
{
    if !(s.cur is None || s.cur == Some(TknView::RParen)) {
        lemma_list_known(c, s);
        if let (s1, Ok(node)) = list(c, s) {
            assert(all_known(c.vars, acc.push(node)));
            let s2 = past_separators(c, s1);
            if s.pos < s2.pos <= c.ts.len() {
                lemma_subshell_known(c, s2, acc.push(node));
            }
        }
    }
}

/// The stages of a pipeline.
proof fn lemma_pipeline_known(c: Source, s: Cursor)
    ensures
        pipeline(c, s).1 matches Ok(n) ==> known_by_name(c.vars, n),
    decreases c.ts.len() - s.pos, 2int,
{
    law_builtins_are_known_by_their_first_word(c, s);
    if let (s1, Ok(node)) = simple(c, s) {
        if s.pos < s1.pos <= c.ts.len() {
            lemma_stages_known(c, s1, seq![node]);
        }
    }
}

/// The rest of a pipeline.
proof fn lemma_stages_known(c: Source, s: Cursor, acc: Seq<AstView>)
    requires
        all_known(c.vars, acc),
    ensures
        stages(c, s, acc).1 matches Ok(n) ==> known_by_name(c.vars, n),
    decreases c.ts.len() - s.pos, 2int,
{
    if s.cur == Some(TknView::Pipe) {
        let s0 = past_separators(c, s);
        lemma_past_separators(c, s);
        law_builtins_are_known_by_their_first_word(c, s0);
        if let (s1, Ok(node)) = simple(c, s0) {
            if s.pos < s1.pos <= c.ts.len() {
                assert(all_known(c.vars, acc.push(node)));
                lemma_stages_known(c, s1, acc.push(node));
            }
        }
    } else {
        lemma_pipeline_of_known(c.vars, acc);
    }
}

/// A pipeline of such trees is such a tree.
proof fn lemma_pipeline_of_known(vars: VarMap, ps: Seq<AstView>)
    requires
        all_known(vars, ps),
    ensures
        known_by_name(vars, AstView::Pipeline(ps)),
{
    assert forall|i: int| 0 <= i < ps.len() implies known_by_name(vars, #[trigger] ps[i]) by {}
}

/// The pipelines of a list.
proof fn lemma_list_known(c: Source, s: Cursor)
    ensures
        list(c, s).1 matches Ok(n) ==> known_by_name(c.vars, n),
    decreases c.ts.len() - s.pos, 3int,
{
    lemma_pipeline_known(c, s);
    if let (s1, Ok(node)) = pipeline(c, s) {
        if s.pos < s1.pos <= c.ts.len() {
            lemma_joined_known(c, s1, node);
        }
    }
}

/// The rest of a list.
proof fn lemma_joined_known(c: Source, s: Cursor, node: AstView)
    requires
        known_by_name(c.vars, node),
    ensures
        joined(c, s, node).1 matches Ok(n) ==> known_by_name(c.vars, n),
    decreases c.ts.len() - s.pos, 3int,
{
    if let Some(k) = s.cur {
        if k is CmdOr || k is CmdAnd {
            let s0 = past_separators(c, s);
            lemma_past_separators(c, s);
            lemma_pipeline_known(c, s0);
            if let (s1, Ok(rhs)) = pipeline(c, s0) {
                if s.pos < s1.pos <= c.ts.len() {
                    lemma_joined_known(
                        c,
                        s1,
                        AstView::Logical { lhs: Box::new(node), operator: k, rhs: Box::new(rhs) },
                    );
                }
            }
        }
    }
}

/// All commands.
proof fn lemma_program_known(c: Source, s: Cursor, acc: Seq<AstView>)
    requires
        all_known(c.vars, acc),
    ensures
        program(c, s, acc).1 matches Ok(ns) ==> all_known(c.vars, ns),
    decreases c.ts.len() - s.pos,
{
    if next_kind(c, s) is Some {
        lemma_list_known(c, s);
        if let (s1, Ok(node)) = list(c, s) {
            let s2 = past_separators(c, s1);
            if s.pos < s2.pos <= c.ts.len() {
                assert(all_known(c.vars, acc.push(node)));
                lemma_program_known(c, s2, acc.push(node));
            }
        }
    }
}

/// In all that is parsed, in pipelines, lists and subshells too, a command is builtin exactly if
/// the value of its first word names a builtin command.
pub proof fn law_parsed_builtins_are_known_by_name(c: Source, s: Cursor)
    ensures
        parsed(c, s).1 matches Ok(ns) ==> all_known(c.vars, ns),
{
    lemma_program_known(c, past_separators(c, s), Seq::empty());
}

} // verus!
