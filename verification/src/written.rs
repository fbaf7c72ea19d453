//! Trees written down as tokens: reading them back gives the same trees.

use crate::ast::{is_stage, AssignmentView, AstView, CommandView, Redir, RedirectView, SubshView};
use crate::builtins::builtin_table;
use crate::conduct::law_builtin_names;
use crate::grammar::{
    assigned, assignment, ends_command, ends_list, from_doc, is_separator, items, joined,
    lemma_past_separators, lemma_simple, list, next_kind, no_items, node_of, parsed, past_blank,
    past_separators, pipeline, program, simple, stages, stepped, subshell, to_file, wf_source,
    Cursor, Items, Source, SyntaxErrView,
};
use crate::laws::{
    law_blanks_around_assignments, law_heredocs_are_taken_in_order, law_redirections_stand_anywhere,
};
use crate::token::{token_text, TknSpanView, TknView};
use crate::word::word_value;
use vstd::prelude::*;
use vstd::string::*;
use vstd::utf8::*;

verus! {

broadcast use vstd::seq::group_seq_axioms;

/// A word.
pub type Parts = Seq<TknSpanView>;

/// Arguments, each with a blank after it.
pub open spec fn written_args(ws: Seq<Parts>) -> Seq<TknView>
    decreases ws.len(),
{
    if ws.len() == 0 {
        Seq::empty()
    } else {
        seq![TknView::Word(ws[0]), TknView::Space] + written_args(ws.skip(1))
    }
}

/// Assignments, each with a blank after it.
pub open spec fn written_env(env: Seq<AssignmentView>) -> Seq<TknView>
    decreases env.len(),
{
    if env.len() == 0 {
        Seq::empty()
    } else {
        seq![
            TknView::Word(env[0].lhs),
            TknView::Assign,
            TknView::Word(env[0].rhs),
            TknView::Space,
        ] + written_env(env.skip(1))
    }
}

/// The operator of a redirection.
pub open spec fn written_operator(dir: Redir) -> TknView {
    match dir {
        Redir::In => TknView::RedirectIn,
        Redir::Out => TknView::RedirectOut,
        Redir::Append => TknView::RedirectAppend,
        Redir::Heredoc => TknView::Heredoc,
    }
}

/// Redirections, each with a blank after it. A here-document has the delimiter `d`.
pub open spec fn written_redirects(rs: Seq<RedirectView>, d: Parts) -> Seq<TknView>
    decreases rs.len(),
{
    if rs.len() == 0 {
        Seq::empty()
    } else {
        let word = if rs[0].dir == Redir::Heredoc {
            d
        } else {
            rs[0].file
        };
        seq![written_operator(rs[0].dir), TknView::Word(word), TknView::Space] + written_redirects(
            rs.skip(1),
            d,
        )
    }
}

/// A tree.
pub open spec fn written(n: AstView, d: Parts) -> Seq<TknView>
    decreases n,
{
    match n {
        AstView::Prog(p) => written_env(p.env) + written_args(p.args) + written_redirects(p.ins, d)
            + written_redirects(p.outs, d),
        AstView::Builtin(p) => written_args(p.args) + written_redirects(p.ins, d)
            + written_redirects(p.outs, d),
        AstView::Assignments { text, assignments } => written_env(assignments),
        AstView::Subshell(s) => seq![TknView::LParen] + written_all(s.inner, d) + seq![
            TknView::RParen,
        ] + written_redirects(s.ins, d) + written_redirects(s.outs, d),
        AstView::Pipeline(ps) => written_stages(ps, d),
        AstView::Logical { lhs, operator, rhs } => written(*lhs, d) + seq![operator] + written(
            *rhs,
            d,
        ),
    }
}

/// Trees, each with a semicolon after it.
pub open spec fn written_all(ns: Seq<AstView>, d: Parts) -> Seq<TknView>
    decreases ns,
{
    if ns.len() == 0 {
        Seq::empty()
    } else {
        written(ns[0], d) + seq![TknView::Semicolon] + written_all(ns.skip(1), d)
    }
}

/// The stages of a pipeline, with a bar between each two of them.
pub open spec fn written_stages(ps: Seq<AstView>, d: Parts) -> Seq<TknView>
    decreases ps,
{
    if ps.len() == 0 {
        Seq::empty()
    } else if ps.len() == 1 {
        written(ps[0], d)
    } else {
        written(ps[0], d) + seq![TknView::Pipe] + written_stages(ps.skip(1), d)
    }
}

/// The here-documents of some redirections, in their order.
pub open spec fn redirect_docs(rs: Seq<RedirectView>) -> Seq<Seq<char>>
    decreases rs.len(),
{
    if rs.len() == 0 {
        Seq::empty()
    } else if rs[0].dir == Redir::Heredoc {
        seq![rs[0].heredoc->Some_0] + redirect_docs(rs.skip(1))
    } else {
        redirect_docs(rs.skip(1))
    }
}

/// The here-documents of a tree, in their order.
pub open spec fn tree_docs(n: AstView) -> Seq<Seq<char>>
    decreases n,
{
    match n {
        AstView::Prog(p) => redirect_docs(p.ins),
        AstView::Builtin(p) => redirect_docs(p.ins),
        AstView::Assignments { .. } => Seq::empty(),
        AstView::Subshell(s) => all_docs(s.inner) + redirect_docs(s.ins),
        AstView::Pipeline(ps) => all_docs(ps),
        AstView::Logical { lhs, operator, rhs } => tree_docs(*lhs) + tree_docs(*rhs),
    }
}

/// The here-documents of some trees, in their order.
pub open spec fn all_docs(ns: Seq<AstView>) -> Seq<Seq<char>>
    decreases ns,
{
    if ns.len() == 0 {
        Seq::empty()
    } else {
        tree_docs(ns[0]) + all_docs(ns.skip(1))
    }
}

/// Redirections of the input: each is from a file or from a here-document.
pub open spec fn from_somewhere(rs: Seq<RedirectView>) -> bool {
    forall|i: int|
        0 <= i < rs.len() ==> {
            ||| (#[trigger] rs[i]).dir == Redir::In && rs[i].heredoc is None
            ||| rs[i].dir == Redir::Heredoc && rs[i].heredoc is Some && rs[i].file.len() == 0
        }
}

/// Redirections of the output: each is to a file.
pub open spec fn to_somewhere(rs: Seq<RedirectView>) -> bool {
    forall|i: int|
        0 <= i < rs.len() ==> ((#[trigger] rs[i]).dir == Redir::Out || rs[i].dir == Redir::Append)
            && rs[i].heredoc is None
}

/// Assignments of some value each.
pub open spec fn of_something(env: Seq<AssignmentView>) -> bool {
    forall|i: int| 0 <= i < env.len() ==> (#[trigger] env[i]).rhs.len() > 0
}

/// Whether a command has a name and is builtin exactly if that names a builtin command.
pub open spec fn named(c: Source, p: CommandView, builtin: bool) -> bool {
    &&& p.text == c.text
    &&& p.args.len() > 0
    &&& builtin_table().contains_key(word_value(p.args[0], encode_utf8(c.text), c.vars)) == builtin
    &&& from_somewhere(p.ins)
    &&& to_somewhere(p.outs)
}

/// Whether a tree over the text of `c` can be written down: commands have names, pipelines have
/// stages, and the right side of `&&` and `||` is no list.
pub open spec fn can_be_written(c: Source, n: AstView) -> bool
    decreases n,
{
    match n {
        AstView::Prog(p) => named(c, p, false) && of_something(p.env),
        AstView::Builtin(p) => named(c, p, true) && p.env.len() == 0,
        AstView::Assignments { text, assignments } => {
            &&& text == c.text
            &&& assignments.len() > 0
            &&& of_something(assignments)
        },
        AstView::Subshell(s) => {
            &&& s.text == c.text
            &&& s.inner.len() > 0
            &&& forall|i: int| 0 <= i < s.inner.len() ==> can_be_written(c, #[trigger] s.inner[i])
            &&& from_somewhere(s.ins)
            &&& to_somewhere(s.outs)
        },
        AstView::Pipeline(ps) => {
            &&& ps.len() >= 2
            &&& forall|i: int|
                0 <= i < ps.len() ==> can_be_written(c, #[trigger] ps[i]) && !(ps[i] is Logical)
                    && !(ps[i] is Pipeline)
        },
        AstView::Logical { lhs, operator, rhs } => {
            &&& can_be_written(c, *lhs)
            &&& can_be_written(c, *rhs)
            &&& !(*rhs is Logical)
            &&& operator is CmdOr || operator is CmdAnd
        },
    }
}

/// Whether tokens of these kinds stand at `pos`.
pub open spec fn stand_at(c: Source, pos: int, ks: Seq<TknView>) -> bool {
    &&& 0 <= pos
    &&& pos + ks.len() <= c.ts.len()
    &&& forall|i: int| 0 <= i < ks.len() ==> #[trigger] c.ts[pos + i].kind == ks[i]
}

/// Tokens that stand one after the other.
proof fn lemma_stand(c: Source, pos: int, v: Seq<TknView>, w: Seq<TknView>)
    ensures
        stand_at(c, pos, v + w) <==> stand_at(c, pos, v) && stand_at(c, pos + v.len(), w),
{
    let all = v + w;
    if stand_at(c, pos, all) {
        assert forall|i: int| 0 <= i < v.len() implies #[trigger] c.ts[pos + i].kind == v[i] by {
            assert(c.ts[pos + i].kind == all[i]);
        }
        assert forall|i: int| 0 <= i < w.len() implies #[trigger] c.ts[pos + v.len() + i].kind
            == w[i] by {
            let k = v.len() + i;
            assert(c.ts[pos + k].kind == all[k]);
        }
    }
    if stand_at(c, pos, v) && stand_at(c, pos + v.len(), w) {
        assert forall|i: int| 0 <= i < all.len() implies #[trigger] c.ts[pos + i].kind
            == all[i] by {
            if i < v.len() {
                assert(c.ts[pos + i].kind == v[i]);
            } else {
                let k = i - v.len();
                assert(c.ts[pos + v.len() + k].kind == w[k]);
            }
        }
    }
}

/// One token.
pub proof fn lemma_one(c: Source, s: Cursor, k: TknView)
    requires
        stand_at(c, s.pos, seq![k]),
    ensures
        next_kind(c, s) == Some(k),
        stepped(c, s) == (Cursor { pos: s.pos + 1, cur: Some(k), docs: s.docs }),
{
    assert(c.ts[s.pos + 0].kind == seq![k][0]);
}

/// What was read last has no say in what a command goes on with.
pub proof fn lemma_any_cur(c: Source, s: Cursor, cur: Option<TknView>, it: Items)
    ensures
        items(c, s, it) == items(c, Cursor { cur, ..s }, it),
{
    let t = Cursor { cur, ..s };
    assert(stepped(c, s) == stepped(c, t));
    assert(next_kind(c, s) == next_kind(c, t));
}

/// A blank adds nothing.
pub proof fn lemma_read_blank(c: Source, s: Cursor, it: Items)
    requires
        stand_at(c, s.pos, seq![TknView::Space]),
    ensures
        items(c, s, it) == items(c, Cursor { pos: s.pos + 1, ..s }, it),
{
    lemma_one(c, s, TknView::Space);
    lemma_any_cur(c, stepped(c, s), s.cur, it);
}

/// Arguments are added.
proof fn lemma_read_args(c: Source, s: Cursor, it: Items, ws: Seq<Parts>)
    requires
        stand_at(c, s.pos, written_args(ws)),
        s.pos + written_args(ws).len() < c.ts.len(),
        !(c.ts[s.pos + written_args(ws).len()].kind is Assign),
    ensures
        items(c, s, it) == items(
            c,
            Cursor { pos: s.pos + written_args(ws).len(), ..s },
            Items { args: it.args + ws, ..it },
        ),
    decreases ws.len(),
{
    if ws.len() == 0 {
        assert(it.args + ws =~= it.args);
    } else {
        let w = ws[0];
        let rest = written_args(ws.skip(1));
        let two = seq![TknView::Word(w), TknView::Space];
        lemma_stand(c, s.pos, two, rest);
        assert(c.ts[s.pos + 0].kind == two[0]);
        assert(c.ts[s.pos + 1].kind == two[1]);
        let s1 = stepped(c, s);
        let s2 = past_blank(c, s1);
        assert(s2.pos == s.pos + 2);
        if ws.len() > 1 {
            assert(c.ts[s2.pos + 0].kind == rest[0]);
        }
        assert(next_kind(c, s2) == Some(c.ts[s2.pos].kind));
        let more = Items { args: it.args.push(w), ..it };
        assert(items(c, s, it) == items(c, s2, more));
        lemma_any_cur(c, s2, s.cur, more);
        lemma_read_args(c, Cursor { pos: s.pos + 2, ..s }, more, ws.skip(1));
        assert(it.args.push(w) + ws.skip(1) =~= it.args + ws);
    }
}

/// Assignments are added.
proof fn lemma_read_env(c: Source, s: Cursor, it: Items, env: Seq<AssignmentView>)
    requires
        stand_at(c, s.pos, written_env(env)),
        of_something(env),
    ensures
        items(c, s, it) == items(
            c,
            Cursor { pos: s.pos + written_env(env).len(), ..s },
            Items { env: it.env + env, ..it },
        ),
    decreases env.len(),
{
    if env.len() == 0 {
        assert(it.env + env =~= it.env);
    } else {
        let a = env[0];
        let rest = written_env(env.skip(1));
        let four = seq![
            TknView::Word(a.lhs),
            TknView::Assign,
            TknView::Word(a.rhs),
            TknView::Space,
        ];
        lemma_stand(c, s.pos, four, rest);
        assert(c.ts[s.pos + 0].kind == four[0]);
        assert(c.ts[s.pos + 1].kind == four[1]);
        assert(c.ts[s.pos + 2].kind == four[2]);
        assert(c.ts[s.pos + 3].kind == four[3]);
        law_blanks_around_assignments(c, s, it, a.lhs, a.rhs, false, false);
        let more = Items { env: it.env.push(a), ..it };
        let s3 = Cursor { pos: s.pos + 3, ..s };
        lemma_any_cur(c, s3, Some(TknView::Word(a.rhs)), more);
        lemma_read_blank(c, s3, more);
        assert forall|i: int| 0 <= i < env.skip(1).len() implies (#[trigger] env.skip(
            1,
        )[i]).rhs.len() > 0 by {
            assert(env.skip(1)[i] == env[i + 1]);
        }
        lemma_read_env(c, Cursor { pos: s.pos + 4, ..s }, more, env.skip(1));
        assert(it.env.push(a) + env.skip(1) =~= it.env + env);
    }
}

/// Redirections of the output are added.
proof fn lemma_read_outs(c: Source, s: Cursor, it: Items, rs: Seq<RedirectView>, d: Parts)
    requires
        stand_at(c, s.pos, written_redirects(rs, d)),
        to_somewhere(rs),
    ensures
        items(c, s, it) == items(
            c,
            Cursor { pos: s.pos + written_redirects(rs, d).len(), ..s },
            Items { outs: it.outs + rs, ..it },
        ),
    decreases rs.len(),
{
    if rs.len() == 0 {
        assert(it.outs + rs =~= it.outs);
    } else {
        let r = rs[0];
        let rest = written_redirects(rs.skip(1), d);
        let three = seq![written_operator(r.dir), TknView::Word(r.file), TknView::Space];
        lemma_stand(c, s.pos, three, rest);
        assert(c.ts[s.pos + 0].kind == three[0]);
        assert(c.ts[s.pos + 1].kind == three[1]);
        assert(c.ts[s.pos + 2].kind == three[2]);
        law_redirections_stand_anywhere(c, s, it, r.file, false);
        let more = Items { outs: it.outs.push(r), ..it };
        let s2 = Cursor { pos: s.pos + 2, ..s };
        lemma_any_cur(c, s2, Some(TknView::Word(r.file)), more);
        lemma_read_blank(c, s2, more);
        assert(to_somewhere(rs.skip(1)));
        lemma_read_outs(c, Cursor { pos: s.pos + 3, ..s }, more, rs.skip(1), d);
        assert(it.outs.push(r) + rs.skip(1) =~= it.outs + rs);
    }
}

/// Redirections of the input are added, and take their here-documents.
proof fn lemma_read_ins(
    c: Source,
    s: Cursor,
    it: Items,
    rs: Seq<RedirectView>,
    d: Parts,
    left: Seq<Seq<char>>,
)
    requires
        stand_at(c, s.pos, written_redirects(rs, d)),
        from_somewhere(rs),
        s.docs == redirect_docs(rs) + left,
    ensures
        items(c, s, it) == items(
            c,
            Cursor { pos: s.pos + written_redirects(rs, d).len(), docs: left, ..s },
            Items { ins: it.ins + rs, ..it },
        ),
    decreases rs.len(),
{
    if rs.len() == 0 {
        assert(it.ins + rs =~= it.ins);
        assert(redirect_docs(rs) + left =~= left);
    } else {
        let r = rs[0];
        let rest = written_redirects(rs.skip(1), d);
        let word = if r.dir == Redir::Heredoc {
            d
        } else {
            r.file
        };
        let three = seq![written_operator(r.dir), TknView::Word(word), TknView::Space];
        lemma_stand(c, s.pos, three, rest);
        assert(c.ts[s.pos + 0].kind == three[0]);
        assert(c.ts[s.pos + 1].kind == three[1]);
        assert(c.ts[s.pos + 2].kind == three[2]);
        let more = Items { ins: it.ins.push(r), ..it };
        let docs = redirect_docs(rs.skip(1)) + left;
        let s2 = Cursor { pos: s.pos + 2, docs, ..s };
        if r.dir == Redir::Heredoc {
            assert(r.file =~= Seq::empty());
            assert(r == from_doc(r.heredoc->Some_0));
        } else {
            assert(r == to_file(Redir::In, r.file));
        }
        if r.dir == Redir::Heredoc {
            assert(s.docs =~= seq![r.heredoc->Some_0] + docs);
            assert(s.docs.skip(1) =~= docs);
            assert(s.docs[0] == r.heredoc->Some_0);
            law_heredocs_are_taken_in_order(c, s, it, d, false);
        } else {
            law_redirections_stand_anywhere(c, s, it, r.file, false);
            assert(s.docs =~= docs);
        }
        lemma_any_cur(c, s2, Some(TknView::Word(word)), more);
        lemma_read_blank(c, s2, more);
        assert(from_somewhere(rs.skip(1)));
        lemma_read_ins(
            c,
            Cursor { pos: s.pos + 3, docs, ..s },
            more,
            rs.skip(1),
            d,
            left,
        );
        assert(it.ins.push(r) + rs.skip(1) =~= it.ins + rs);
    }
}

/// A command ends at the token that ends it.
pub proof fn lemma_read_end(c: Source, s: Cursor, it: Items, e: TknView)
    requires
        stand_at(c, s.pos, seq![e]),
        ends_command(e),
    ensures
        items(c, s, it) == (
            Cursor { pos: s.pos + 1, cur: Some(e), docs: s.docs },
            Ok::<Items, SyntaxErrView>(it),
        ),
{
    lemma_one(c, s, e);
}

/// Both lists of redirections, and the end.
proof fn lemma_read_redirects(
    c: Source,
    s: Cursor,
    it: Items,
    ins: Seq<RedirectView>,
    outs: Seq<RedirectView>,
    d: Parts,
    e: TknView,
    left: Seq<Seq<char>>,
)
    requires
        stand_at(
            c,
            s.pos,
            written_redirects(ins, d) + written_redirects(outs, d) + seq![e],
        ),
        from_somewhere(ins),
        to_somewhere(outs),
        ends_command(e),
        s.docs == redirect_docs(ins) + left,
    ensures
        items(c, s, it) == (
            Cursor {
                pos: s.pos + written_redirects(ins, d).len() + written_redirects(outs, d).len() + 1,
                cur: Some(e),
                docs: left,
            },
            Ok::<Items, SyntaxErrView>(Items { ins: it.ins + ins, outs: it.outs + outs, ..it }),
        ),
{
    let i = written_redirects(ins, d);
    let o = written_redirects(outs, d);
    lemma_stand(c, s.pos, i + o, seq![e]);
    lemma_stand(c, s.pos, i, o);
    lemma_read_ins(c, s, it, ins, d, left);
    let s1 = Cursor { pos: s.pos + i.len(), docs: left, ..s };
    let it1 = Items { ins: it.ins + ins, ..it };
    lemma_read_outs(c, s1, it1, outs, d);
    let s2 = Cursor { pos: s1.pos + o.len(), ..s1 };
    lemma_read_end(c, s2, Items { outs: it1.outs + outs, ..it1 }, e);
}

/// What a tree begins with.
proof fn lemma_first(c: Source, n: AstView, d: Parts)
    requires
        can_be_written(c, n),
    ensures
        written(n, d).len() > 0,
        written(n, d)[0] is Word || written(n, d)[0] is LParen,
    decreases n,
{
    match n {
        AstView::Pipeline(ps) => {
            assert(can_be_written(c, ps[0]));
            lemma_first(c, ps[0], d);
            assert(written(n, d) == written_stages(ps, d));
            assert(written_stages(ps, d)[0] == written(ps[0], d)[0]);
        },
        AstView::Logical { lhs, operator, rhs } => {
            lemma_first(c, *lhs, d);
        },
        _ => {},
    }
}

/// The first token of a tree is no separator.
proof fn lemma_no_separator(c: Source, s: Cursor, ks: Seq<TknView>)
    requires
        stand_at(c, s.pos, ks),
        ks.len() > 0,
        !is_separator(ks[0]),
    ensures
        past_separators(c, s) == s,
        next_kind(c, s) == Some(ks[0]),
{
    assert(c.ts[s.pos + 0].kind == ks[0]);
}

/// A program with its variables, words and redirections is read back.
proof fn lemma_read_prog(
    c: Source,
    s: Cursor,
    p: CommandView,
    d: Parts,
    e: TknView,
    left: Seq<Seq<char>>,
)
    requires
        named(c, p, false),
        of_something(p.env),
        stand_at(c, s.pos, written(AstView::Prog(p), d) + seq![e]),
        ends_command(e),
        s.docs == redirect_docs(p.ins) + left,
    ensures
        simple(c, s) == (
            Cursor {
                pos: s.pos + written(AstView::Prog(p), d).len() + 1,
                cur: Some(e),
                docs: left,
            },
            Ok::<AstView, SyntaxErrView>(AstView::Prog(p)),
        ),
{
    let it0 = no_items();
    let end = seq![e];
    let v = written_env(p.env);
    let a = written_args(p.args);
    let i = written_redirects(p.ins, d);
    let o = written_redirects(p.outs, d);
    assert(written(AstView::Prog(p), d) + end =~= v + (a + (i + o + end)));
    lemma_stand(c, s.pos, v, a + (i + o + end));
    lemma_stand(c, s.pos + v.len(), a, i + o + end);
    lemma_read_env(c, s, it0, p.env);
    assert(it0.env + p.env =~= p.env);
    let s1 = Cursor { pos: s.pos + v.len(), ..s };
    let it1 = Items { env: p.env, ..it0 };
    lemma_not_assign(c, s1.pos + a.len(), p.ins, p.outs, d, e);
    lemma_read_args(c, s1, it1, p.args);
    assert(it1.args + p.args =~= p.args);
    let s2 = Cursor { pos: s1.pos + a.len(), ..s };
    let it2 = Items { args: p.args, ..it1 };
    lemma_read_redirects(c, s2, it2, p.ins, p.outs, d, e, left);
    assert(it2.ins + p.ins =~= p.ins);
    assert(it2.outs + p.outs =~= p.outs);
    let it3 = Items { ins: p.ins, outs: p.outs, ..it2 };
    assert(items(c, s, it0).1 == Ok::<Items, SyntaxErrView>(it3));
    assert(node_of(c, it3) == Ok::<AstView, SyntaxErrView>(AstView::Prog(p)));
}

/// A builtin command with its words and redirections is read back.
proof fn lemma_read_builtin(
    c: Source,
    s: Cursor,
    p: CommandView,
    d: Parts,
    e: TknView,
    left: Seq<Seq<char>>,
)
    requires
        named(c, p, true),
        p.env.len() == 0,
        stand_at(c, s.pos, written(AstView::Builtin(p), d) + seq![e]),
        ends_command(e),
        s.docs == redirect_docs(p.ins) + left,
    ensures
        simple(c, s) == (
            Cursor {
                pos: s.pos + written(AstView::Builtin(p), d).len() + 1,
                cur: Some(e),
                docs: left,
            },
            Ok::<AstView, SyntaxErrView>(AstView::Builtin(p)),
        ),
{
    let it0 = no_items();
    let end = seq![e];
    let a = written_args(p.args);
    let i = written_redirects(p.ins, d);
    let o = written_redirects(p.outs, d);
    assert(written(AstView::Builtin(p), d) + end =~= a + (i + o + end));
    lemma_stand(c, s.pos, a, i + o + end);
    lemma_not_assign(c, s.pos + a.len(), p.ins, p.outs, d, e);
    lemma_read_args(c, s, it0, p.args);
    assert(it0.args + p.args =~= p.args);
    let s2 = Cursor { pos: s.pos + a.len(), ..s };
    let it2 = Items { args: p.args, ..it0 };
    lemma_read_redirects(c, s2, it2, p.ins, p.outs, d, e, left);
    assert(it2.ins + p.ins =~= p.ins);
    assert(it2.outs + p.outs =~= p.outs);
    assert(p.env =~= Seq::empty());
    let it3 = Items { ins: p.ins, outs: p.outs, ..it2 };
    assert(items(c, s, it0).1 == Ok::<Items, SyntaxErrView>(it3));
    assert(node_of(c, it3) == Ok::<AstView, SyntaxErrView>(AstView::Builtin(p)));
}

/// A command, assignments or a subshell is read back.
proof fn lemma_read_simple(
    c: Source,
    s: Cursor,
    n: AstView,
    d: Parts,
    e: TknView,
    left: Seq<Seq<char>>,
)
    requires
        can_be_written(c, n),
        is_stage(n),
        stand_at(c, s.pos, written(n, d) + seq![e]),
        ends_command(e),
        s.docs == tree_docs(n) + left,
    ensures
        simple(c, s) == (
            Cursor { pos: s.pos + written(n, d).len() + 1, cur: Some(e), docs: left },
            Ok::<AstView, SyntaxErrView>(n),
        ),
    decreases n, 0int,
{
    match n {
        AstView::Prog(p) => {
            lemma_read_prog(c, s, p, d, e, left);
        },
        AstView::Builtin(p) => {
            lemma_read_builtin(c, s, p, d, e, left);
        },
        AstView::Assignments { text, assignments } => {
            let v = written_env(assignments);
            let it0 = no_items();
            lemma_stand(c, s.pos, v, seq![e]);
            lemma_read_env(c, s, it0, assignments);
            assert(it0.env + assignments =~= assignments);
            let s1 = Cursor { pos: s.pos + v.len(), ..s };
            lemma_read_end(c, s1, Items { env: assignments, ..it0 }, e);
            assert(tree_docs(n) + left =~= left);
        },
        AstView::Subshell(sub) => {
            let open = seq![TknView::LParen];
            let close = seq![TknView::RParen];
            let inner = written_all(sub.inner, d);
            let tail = written_redirects(sub.ins, d) + written_redirects(sub.outs, d) + seq![e];
            assert(written(n, d) + seq![e] =~= open + ((inner + close) + tail));
            lemma_stand(c, s.pos, open, (inner + close) + tail);
            lemma_stand(c, s.pos + 1, inner + close, tail);
            lemma_one(c, s, TknView::LParen);
            let s1 = stepped(c, s);
            let later = redirect_docs(sub.ins) + left;
            assert(tree_docs(n) == all_docs(sub.inner) + redirect_docs(sub.ins));
            assert(s1.docs =~= all_docs(sub.inner) + later);
            lemma_read_inner(c, s1, sub.inner, d, Seq::empty(), later);
            assert(Seq::<AstView>::empty() + sub.inner =~= sub.inner);
            lemma_read_subshell(c, s, sub, d, e, left);
        },
        _ => {},
    }
}

/// A subshell whose commands are read back is read back.
proof fn lemma_read_subshell(
    c: Source,
    s: Cursor,
    sub: SubshView,
    d: Parts,
    e: TknView,
    left: Seq<Seq<char>>,
)
    requires
        sub.text == c.text,
        from_somewhere(sub.ins),
        to_somewhere(sub.outs),
        ends_command(e),
        stand_at(c, s.pos, seq![TknView::LParen]),
        stand_at(
            c,
            s.pos + written_all(sub.inner, d).len() + 2,
            written_redirects(sub.ins, d) + written_redirects(sub.outs, d) + seq![e],
        ),
        subshell(c, stepped(c, s), Seq::empty()) == (
            Cursor {
                pos: s.pos + written_all(sub.inner, d).len() + 2,
                cur: Some(TknView::RParen),
                docs: redirect_docs(sub.ins) + left,
            },
            Ok::<Seq<AstView>, SyntaxErrView>(sub.inner),
        ),
    ensures
        simple(c, s) == (
            Cursor {
                pos: s.pos + written(AstView::Subshell(sub), d).len() + 1,
                cur: Some(e),
                docs: left,
            },
            Ok::<AstView, SyntaxErrView>(AstView::Subshell(sub)),
        ),
{
    let it0 = no_items();
    lemma_one(c, s, TknView::LParen);
    let s2 = subshell(c, stepped(c, s), Seq::empty()).0;
    let it1 = Items { inner: Some(sub.inner), ..it0 };
    assert(items(c, s, it0) == items(c, s2, it1));
    lemma_read_redirects(c, s2, it1, sub.ins, sub.outs, d, e, left);
    assert(it1.ins + sub.ins =~= sub.ins);
    assert(it1.outs + sub.outs =~= sub.outs);
    let it2 = Items { ins: sub.ins, outs: sub.outs, ..it1 };
    assert(node_of(c, it2) == Ok::<AstView, SyntaxErrView>(AstView::Subshell(sub)));
}

/// Redirections and the end of a command do not begin with an equals sign.
proof fn lemma_not_assign(
    c: Source,
    pos: int,
    ins: Seq<RedirectView>,
    outs: Seq<RedirectView>,
    d: Parts,
    e: TknView,
)
    requires
        stand_at(c, pos, written_redirects(ins, d) + written_redirects(outs, d) + seq![e]),
        ends_command(e),
    ensures
        pos < c.ts.len(),
        !(c.ts[pos].kind is Assign),
{
    let ks = written_redirects(ins, d) + written_redirects(outs, d) + seq![e];
    assert(ks.len() > 0);
    assert(c.ts[pos + 0].kind == ks[0]);
}

/// The commands of a subshell are read back.
proof fn lemma_read_inner(
    c: Source,
    s: Cursor,
    ns: Seq<AstView>,
    d: Parts,
    acc: Seq<AstView>,
    left: Seq<Seq<char>>,
)
    requires
        ns.len() > 0,
        forall|i: int| 0 <= i < ns.len() ==> can_be_written(c, #[trigger] ns[i]),
        stand_at(c, s.pos, written_all(ns, d) + seq![TknView::RParen]),
        s.cur is Some,
        s.cur != Some(TknView::RParen),
        s.docs == all_docs(ns) + left,
    ensures
        subshell(c, s, acc) == (
            Cursor {
                pos: s.pos + written_all(ns, d).len() + 1,
                cur: Some(TknView::RParen),
                docs: left,
            },
            Ok::<Seq<AstView>, SyntaxErrView>(acc + ns),
        ),
    decreases ns, 0int,
{
    let n = ns[0];
    let rest = ns.skip(1);
    let w = written(n, d);
    let semi = seq![TknView::Semicolon];
    let close = seq![TknView::RParen];
    let more = written_all(rest, d);
    assert(written_all(ns, d) + close =~= (w + semi) + (more + close));
    lemma_stand(c, s.pos, w + semi, more + close);
    let later = all_docs(rest) + left;
    assert(s.docs =~= tree_docs(n) + later);
    lemma_read_list(c, s, n, d, TknView::Semicolon, later);
    let s1 = Cursor { pos: s.pos + w.len() + 1, cur: Some(TknView::Semicolon), docs: later };
    assert(list(c, s) == (s1, Ok::<AstView, SyntaxErrView>(n)));
    if rest.len() == 0 {
        assert(more + close =~= close);
        assert(later =~= left);
        lemma_one(c, s1, TknView::RParen);
        lemma_no_separator(c, s1, close);
        assert(acc.push(n) =~= acc + ns);
    } else {
        assert forall|i: int| 0 <= i < rest.len() implies can_be_written(
            c,
            #[trigger] rest[i],
        ) by {
            assert(rest[i] == ns[i + 1]);
        }
        lemma_first(c, rest[0], d);
        assert((more + close)[0] == written(rest[0], d)[0]);
        lemma_no_separator(c, s1, more + close);
        lemma_read_inner(c, s1, rest, d, acc.push(n), left);
        assert(acc.push(n) + rest =~= acc + ns);
    }
}

/// A pipeline or a single stage is read back.
proof fn lemma_read_pipeline(
    c: Source,
    s: Cursor,
    n: AstView,
    d: Parts,
    e: TknView,
    left: Seq<Seq<char>>,
)
    requires
        can_be_written(c, n),
        !(n is Logical),
        stand_at(c, s.pos, written(n, d) + seq![e]),
        ends_command(e),
        !(e is Pipe),
        s.docs == tree_docs(n) + left,
    ensures
        pipeline(c, s) == (
            Cursor { pos: s.pos + written(n, d).len() + 1, cur: Some(e), docs: left },
            Ok::<AstView, SyntaxErrView>(n),
        ),
    decreases n, 1int,
{
    if let AstView::Pipeline(ps) = n {
        let end = seq![e];
        let bar = seq![TknView::Pipe];
        let rest = ps.skip(1);
        let w = written(ps[0], d);
        let more = written_stages(rest, d);
        assert(written(n, d) == written_stages(ps, d));
        assert(written_stages(ps, d) == w + bar + more);
        assert(written(n, d) + end =~= (w + bar) + (more + end));
        lemma_stand(c, s.pos, w + bar, more + end);
        let later = all_docs(rest) + left;
        assert(tree_docs(n) == all_docs(ps));
        assert(all_docs(ps) == tree_docs(ps[0]) + all_docs(rest));
        assert(s.docs =~= tree_docs(ps[0]) + later);
        lemma_read_simple(c, s, ps[0], d, TknView::Pipe, later);
        let s1 = Cursor { pos: s.pos + w.len() + 1, cur: Some(TknView::Pipe), docs: later };
        assert forall|i: int| 0 <= i < rest.len() implies can_be_written(c, #[trigger] rest[i])
            && is_stage(rest[i]) by {
            assert(rest[i] == ps[i + 1]);
        }
        lemma_read_stages(c, s1, rest, d, seq![ps[0]], e, left);
        assert(seq![ps[0]] + rest =~= ps);
    } else {
        lemma_read_simple(c, s, n, d, e, left);
    }
}

/// The later stages of a pipeline are read back.
proof fn lemma_read_stages(
    c: Source,
    s: Cursor,
    ps: Seq<AstView>,
    d: Parts,
    acc: Seq<AstView>,
    e: TknView,
    left: Seq<Seq<char>>,
)
    requires
        ps.len() > 0,
        forall|i: int|
            0 <= i < ps.len() ==> can_be_written(c, #[trigger] ps[i]) && is_stage(ps[i]),
        stand_at(c, s.pos, written_stages(ps, d) + seq![e]),
        ends_command(e),
        !(e is Pipe),
        s.cur == Some(TknView::Pipe),
        s.docs == all_docs(ps) + left,
    ensures
        stages(c, s, acc) == (
            Cursor { pos: s.pos + written_stages(ps, d).len() + 1, cur: Some(e), docs: left },
            Ok::<AstView, SyntaxErrView>(AstView::Pipeline(acc + ps)),
        ),
    decreases ps, 0int,
{
    let n = ps[0];
    let rest = ps.skip(1);
    let w = written(n, d);
    let end = seq![e];
    let later = all_docs(rest) + left;
    assert(s.docs =~= tree_docs(n) + later);
    lemma_first(c, n, d);
    let ks = written_stages(ps, d) + end;
    assert(ks[0] == w[0]);
    lemma_no_separator(c, s, ks);
    reveal_with_fuel(stages, 2);
    if rest.len() == 0 {
        assert(later =~= left);
        lemma_read_simple(c, s, n, d, e, left);
        assert(acc.push(n) =~= acc + ps);
    } else {
        let bar = seq![TknView::Pipe];
        let more = written_stages(rest, d);
        assert(ks =~= (w + bar) + (more + end));
        lemma_stand(c, s.pos, w + bar, more + end);
        lemma_read_simple(c, s, n, d, TknView::Pipe, later);
        let s1 = Cursor { pos: s.pos + w.len() + 1, cur: Some(TknView::Pipe), docs: later };
        assert forall|i: int| 0 <= i < rest.len() implies can_be_written(c, #[trigger] rest[i])
            && is_stage(rest[i]) by {
            assert(rest[i] == ps[i + 1]);
        }
        lemma_read_stages(c, s1, rest, d, acc.push(n), e, left);
        assert(acc.push(n) + rest =~= acc + ps);
    }
}

/// Reading a list goes on after its part `n` as it would with `n` at hand.
proof fn lemma_read_spine(
    c: Source,
    s: Cursor,
    n: AstView,
    d: Parts,
    e: TknView,
    left: Seq<Seq<char>>,
)
    requires
        can_be_written(c, n),
        stand_at(c, s.pos, written(n, d) + seq![e]),
        ends_list(e) || e is CmdOr || e is CmdAnd,
        s.docs == tree_docs(n) + left,
    ensures
        list(c, s) == joined(
            c,
            Cursor { pos: s.pos + written(n, d).len() + 1, cur: Some(e), docs: left },
            n,
        ),
    decreases n, 2int,
{
    if let AstView::Logical { lhs, operator, rhs } = n {
        let end = seq![e];
        let op = seq![operator];
        let l = written(*lhs, d);
        let r = written(*rhs, d);
        assert(written(n, d) + end =~= (l + op) + (r + end));
        lemma_stand(c, s.pos, l + op, r + end);
        let later = tree_docs(*rhs) + left;
        assert(s.docs =~= tree_docs(*lhs) + later);
        lemma_read_spine(c, s, *lhs, d, operator, later);
        let s1 = Cursor { pos: s.pos + l.len() + 1, cur: Some(operator), docs: later };
        lemma_first(c, *rhs, d);
        assert((r + end)[0] == r[0]);
        lemma_no_separator(c, s1, r + end);
        lemma_read_pipeline(c, s1, *rhs, d, e, left);
        assert(n == AstView::Logical { lhs: Box::new(*lhs), operator, rhs: Box::new(*rhs) });
    } else {
        lemma_read_pipeline(c, s, n, d, e, left);
    }
}

/// A list is read back.
proof fn lemma_read_list(
    c: Source,
    s: Cursor,
    n: AstView,
    d: Parts,
    e: TknView,
    left: Seq<Seq<char>>,
)
    requires
        can_be_written(c, n),
        stand_at(c, s.pos, written(n, d) + seq![e]),
        ends_list(e),
        s.docs == tree_docs(n) + left,
    ensures
        list(c, s) == (
            Cursor { pos: s.pos + written(n, d).len() + 1, cur: Some(e), docs: left },
            Ok::<AstView, SyntaxErrView>(n),
        ),
    decreases n, 3int,
{
    lemma_read_spine(c, s, n, d, e, left);
}

/// All trees are read back.
proof fn lemma_read_program(
    c: Source,
    s: Cursor,
    ns: Seq<AstView>,
    d: Parts,
    acc: Seq<AstView>,
    left: Seq<Seq<char>>,
)
    requires
        forall|i: int| 0 <= i < ns.len() ==> can_be_written(c, #[trigger] ns[i]),
        stand_at(c, s.pos, written_all(ns, d)),
        s.pos + written_all(ns, d).len() == c.ts.len(),
        s.docs == all_docs(ns) + left,
    ensures
        past_separators(c, s) == s,
        program(c, s, acc).0.pos == c.ts.len(),
        program(c, s, acc).0.docs == left,
        program(c, s, acc).1 == Ok::<Seq<AstView>, SyntaxErrView>(acc + ns),
    decreases ns.len(),
{
    if ns.len() == 0 {
        assert(acc + ns =~= acc);
        assert(all_docs(ns) + left =~= left);
    } else {
        let n = ns[0];
        let rest = ns.skip(1);
        let w = written(n, d);
        let semi = seq![TknView::Semicolon];
        let more = written_all(rest, d);
        lemma_stand(c, s.pos, w + semi, more);
        lemma_first(c, n, d);
        assert(written_all(ns, d)[0] == w[0]);
        lemma_no_separator(c, s, written_all(ns, d));
        let later = all_docs(rest) + left;
        assert(s.docs =~= tree_docs(n) + later);
        lemma_read_list(c, s, n, d, TknView::Semicolon, later);
        let s1 = Cursor { pos: s.pos + w.len() + 1, cur: Some(TknView::Semicolon), docs: later };
        assert forall|i: int| 0 <= i < rest.len() implies can_be_written(
            c,
            #[trigger] rest[i],
        ) by {
            assert(rest[i] == ns[i + 1]);
        }
        lemma_read_program(c, s1, rest, d, acc.push(n), left);
        assert(acc.push(n) + rest =~= acc + ns);
    }
}

/// Trees that are written down and read again are the same trees: every command with its words,
/// assignments and redirections, every pipeline, list and subshell, in their order. Each
/// here-document goes to its operator, and those that no operator calls for are left.
pub proof fn law_what_is_written_is_read(
    c: Source,
    ns: Seq<AstView>,
    d: Parts,
    left: Seq<Seq<char>>,
)
    requires
        forall|i: int| 0 <= i < ns.len() ==> can_be_written(c, #[trigger] ns[i]),
        c.ts.len() == written_all(ns, d).len(),
        stand_at(c, 0, written_all(ns, d)),
    ensures
        ({
            let s = Cursor { pos: 0, cur: None, docs: all_docs(ns) + left };
            &&& parsed(c, s).1 == Ok::<Seq<AstView>, SyntaxErrView>(ns)
            &&& parsed(c, s).0.docs == left
        }),
{
    let s = Cursor { pos: 0, cur: None, docs: all_docs(ns) + left };
    lemma_read_program(c, s, ns, d, Seq::empty(), left);
    assert(Seq::<AstView>::empty() + ns =~= ns);
}

/// Commands that make no sense are refused, each with its reason, wherever in a command that
/// comes up: an equals sign that nothing stands before, a redirection that no word stands after,
/// blanks aside, a token that has no meaning there, and a parenthesis after words.
pub proof fn law_refused_parts(
    c: Source,
    s: Cursor,
    it: Items,
    k: TknView,
    blank: bool,
    next: Option<TknView>,
)
    requires
        ({
            let gap = if blank {
                seq![TknView::Space]
            } else {
                Seq::empty()
            };
            match next {
                Some(n) => !(n is Word) && !(n is Space) && stand_at(
                    c,
                    s.pos,
                    seq![k] + gap + seq![n],
                ),
                None => stand_at(c, s.pos, seq![k] + gap) && s.pos + 1 + gap.len() == c.ts.len(),
            }
        }),
    ensures
        k is Assign ==> items(c, s, it).1 == Err::<Items, SyntaxErrView>(
            SyntaxErrView::InvalidAssignment,
        ),
        k is RedirectIn ==> items(c, s, it).1 == Err::<Items, SyntaxErrView>(
            SyntaxErrView::NoInfile,
        ),
        k is RedirectOut ==> items(c, s, it).1 == Err::<Items, SyntaxErrView>(
            SyntaxErrView::NoOutfile,
        ),
        k is RedirectAppend ==> items(c, s, it).1 == Err::<Items, SyntaxErrView>(
            SyntaxErrView::NoAppendFile,
        ),
        k is Heredoc ==> items(c, s, it).1 == Err::<Items, SyntaxErrView>(
            if next is Some {
                SyntaxErrView::InvalidDelimiter
            } else {
                SyntaxErrView::MissingDelimiter
            },
        ),
        k is And || k is Backslash || k is Literal || k is SingleQuote || k is DoubleQuote || k
            is Expansion ==> items(c, s, it).1 == Err::<Items, SyntaxErrView>(
            SyntaxErrView::UnexpectedToken,
        ),
        k is LParen && it.args.len() > 0 ==> items(c, s, it).1 == Err::<Items, SyntaxErrView>(
            SyntaxErrView::BeforeSubshell(token_text(encode_utf8(c.text), it.args[0][0])),
        ),
{
    let gap = if blank {
        seq![TknView::Space]
    } else {
        Seq::empty()
    };
    let ks = match next {
        Some(n) => seq![k] + gap + seq![n],
        None => seq![k] + gap,
    };
    assert(c.ts[s.pos + 0].kind == ks[0]);
    if ks.len() > 1 {
        assert(c.ts[s.pos + 1].kind == ks[1]);
    }
    if ks.len() > 2 {
        assert(c.ts[s.pos + 2].kind == ks[2]);
    }
}

/// What a command makes of what it holds: commands in parentheses make a subshell, which variables
/// cannot be set for and other words are nothing to; assignments alone are carried out in the
/// session; words make a builtin command if the value of the first names one, and variables are
/// nothing to that; else they make a program. Nothing at all is refused.
pub proof fn law_what_a_command_makes(c: Source, it: Items)
    ensures
        match it.inner {
            Some(inner) => if it.env.len() > 0 {
                node_of(c, it) == Err::<AstView, SyntaxErrView>(
                    SyntaxErrView::AssignmentToSubshell,
                )
            } else {
                node_of(c, it) == Ok::<AstView, SyntaxErrView>(
                    AstView::Subshell(
                        SubshView { text: c.text, inner, ins: it.ins, outs: it.outs },
                    ),
                )
            },
            None => if it.args.len() == 0 && it.env.len() == 0 {
                node_of(c, it) == Err::<AstView, SyntaxErrView>(SyntaxErrView::EmptyArgs)
            } else if it.args.len() == 0 {
                node_of(c, it) == Ok::<AstView, SyntaxErrView>(
                    AstView::Assignments { text: c.text, assignments: it.env },
                )
            } else {
                let name = word_value(it.args[0], encode_utf8(c.text), c.vars);
                node_of(c, it) matches Ok(n) && if name == "pwd"@ || name == "cd"@ || name
                    == "history"@ || name == "exit"@ {
                    n == AstView::Builtin(
                        CommandView {
                            text: c.text,
                            args: it.args,
                            ins: it.ins,
                            outs: it.outs,
                            env: Seq::empty(),
                        },
                    )
                } else {
                    n == AstView::Prog(
                        CommandView {
                            text: c.text,
                            args: it.args,
                            ins: it.ins,
                            outs: it.outs,
                            env: it.env,
                        },
                    )
                }
            },
        },
{
    if it.args.len() > 0 {
        law_builtin_names(word_value(it.args[0], encode_utf8(c.text), c.vars));
    }
}

/// A refusal is passed on: where a command is refused the pipeline, the list, the subshell and
/// the whole that it stands in are refused for the same reason, and nothing is run.
pub proof fn law_refusals_are_passed_on(c: Source, s: Cursor, acc: Seq<AstView>, e: SyntaxErrView)
    requires
        0 <= s.pos < c.ts.len(),
    ensures
        simple(c, s).1 == Err::<AstView, SyntaxErrView>(e) ==> pipeline(c, s).1 == Err::<
            AstView,
            SyntaxErrView,
        >(e),
        pipeline(c, s).1 == Err::<AstView, SyntaxErrView>(e) ==> list(c, s).1 == Err::<
            AstView,
            SyntaxErrView,
        >(e),
        list(c, s).1 == Err::<AstView, SyntaxErrView>(e) ==> program(c, s, acc).1 == Err::<
            Seq<AstView>,
            SyntaxErrView,
        >(e),
        list(c, s).1 == Err::<AstView, SyntaxErrView>(e) && s.cur is Some && s.cur != Some(
            TknView::RParen,
        ) ==> subshell(c, s, acc).1 == Err::<Seq<AstView>, SyntaxErrView>(e),
{
}

/// After a bar the next command may stand on a later line: separators there mean nothing, and a
/// refusal of that command is one of the pipeline.
pub proof fn law_pipelines_go_on_after_line_ends(c: Source, s: Cursor, acc: Seq<AstView>)
    requires
        wf_source(c),
        0 <= s.pos <= c.ts.len(),
        s.cur == Some(TknView::Pipe),
    ensures
        match simple(c, past_separators(c, s)) {
            (t, Ok(n)) => stages(c, s, acc) == stages(c, t, acc.push(n)),
            (t, Err(e)) => stages(c, s, acc) == (t, Err::<AstView, SyntaxErrView>(e)),
        },
        s.pos <= past_separators(c, s).pos,
{
    lemma_past_separators(c, s);
    lemma_simple(c, past_separators(c, s));
}

/// An operator for which no here-document is left reads the empty text.
pub proof fn law_a_document_that_is_not_there_is_empty(
    c: Source,
    s: Cursor,
    it: Items,
    d: Parts,
)
    requires
        stand_at(c, s.pos, seq![TknView::Heredoc, TknView::Word(d)]),
        s.docs.len() == 0,
    ensures
        items(c, s, it) == items(
            c,
            Cursor { pos: s.pos + 2, ..s },
            Items {
                ins: it.ins.push(
                    RedirectView {
                        dir: Redir::Heredoc,
                        file: Seq::empty(),
                        heredoc: Some(Seq::empty()),
                    },
                ),
                ..it
            },
        ),
{
    let ks = seq![TknView::Heredoc, TknView::Word(d)];
    assert(c.ts[s.pos + 0].kind == ks[0]);
    assert(c.ts[s.pos + 1].kind == ks[1]);
    let more = Items { ins: it.ins.push(from_doc(Seq::empty())), ..it };
    lemma_any_cur(c, Cursor { pos: s.pos + 2, ..s }, Some(TknView::Word(d)), more);
}

/// A command of redirections alone is refused as empty, and so is one of nothing at all.
pub proof fn law_commands_need_more_than_redirections(
    c: Source,
    s: Cursor,
    ins: Seq<RedirectView>,
    outs: Seq<RedirectView>,
    d: Parts,
    e: TknView,
)
    requires
        stand_at(c, s.pos, written_redirects(ins, d) + written_redirects(outs, d) + seq![e]),
        from_somewhere(ins),
        to_somewhere(outs),
        s.docs == redirect_docs(ins),
        e is Newline || e is Semicolon || e is CmdOr || e is CmdAnd || e is RParen || e is Pipe,
    ensures
        simple(c, s).1 == Err::<AstView, SyntaxErrView>(SyntaxErrView::EmptyArgs),
{
    let none = Seq::<Seq<char>>::empty();
    assert(s.docs =~= redirect_docs(ins) + none);
    lemma_read_redirects(c, s, no_items(), ins, outs, d, e, none);
}

/// Variables cannot be set for a subshell: assignments before it are refused.
pub proof fn law_subshells_take_no_assignments(
    c: Source,
    s: Cursor,
    env: Seq<AssignmentView>,
    sub: SubshView,
    d: Parts,
    e: TknView,
)
    requires
        env.len() > 0,
        of_something(env),
        can_be_written(c, AstView::Subshell(sub)),
        stand_at(c, s.pos, written_env(env) + (written(AstView::Subshell(sub), d) + seq![e])),
        s.docs == tree_docs(AstView::Subshell(sub)),
        e is Newline || e is Semicolon || e is CmdOr || e is CmdAnd || e is RParen || e is Pipe,
    ensures
        simple(c, s).1 == Err::<AstView, SyntaxErrView>(SyntaxErrView::AssignmentToSubshell),
{
    let n = AstView::Subshell(sub);
    let none = Seq::<Seq<char>>::empty();
    let v = written_env(env);
    lemma_stand(c, s.pos, v, written(n, d) + seq![e]);
    let it0 = no_items();
    lemma_read_env(c, s, it0, env);
    assert(it0.env + env =~= env);
    let s1 = Cursor { pos: s.pos + v.len(), ..s };
    let it1 = Items { env, ..it0 };
    let open = seq![TknView::LParen];
    let close = seq![TknView::RParen];
    let inner = written_all(sub.inner, d);
    let tail = written_redirects(sub.ins, d) + written_redirects(sub.outs, d) + seq![e];
    assert(written(n, d) + seq![e] =~= open + ((inner + close) + tail));
    lemma_stand(c, s1.pos, open, (inner + close) + tail);
    lemma_stand(c, s1.pos + 1, inner + close, tail);
    lemma_one(c, s1, TknView::LParen);
    let s2 = stepped(c, s1);
    let later = redirect_docs(sub.ins) + none;
    assert(tree_docs(n) == all_docs(sub.inner) + redirect_docs(sub.ins));
    assert(s2.docs =~= all_docs(sub.inner) + later);
    lemma_read_inner(c, s2, sub.inner, d, Seq::empty(), later);
    assert(Seq::<AstView>::empty() + sub.inner =~= sub.inner);
    let s3 = subshell(c, s2, Seq::empty()).0;
    let it2 = Items { inner: Some(sub.inner), ..it1 };
    assert(items(c, s1, it1) == items(c, s3, it2));
    lemma_read_redirects(c, s3, it2, sub.ins, sub.outs, d, e, none);
}

/// What cannot be assigned is refused by its text, and an assignment at which the tokens end is
/// refused too; where the command ends after the equals sign the empty text is assigned.
pub proof fn law_what_can_be_assigned(c: Source, s: Cursor, lhs: Parts, k: TknView)
    requires
        stand_at(c, s.pos, seq![TknView::Assign, k]),
    ensures
        !(k is Word || k is Space || k is Newline || k is Semicolon || k is CmdOr || k is CmdAnd
            || k is RParen || k is Pipe) ==> assignment(c, s, lhs).1 == Err::<
            AssignmentView,
            SyntaxErrView,
        >(
            SyntaxErrView::InvalidForAssignment(
                token_text(encode_utf8(c.text), c.ts[s.pos + 1]),
            ),
        ),
        k is Newline || k is Semicolon || k is CmdOr || k is CmdAnd || k is RParen || k is Pipe
            ==> assignment(c, s, lhs) == (
            Cursor { pos: s.pos + 1, cur: Some(TknView::Assign), docs: s.docs },
            Ok::<AssignmentView, SyntaxErrView>(AssignmentView { lhs, rhs: Seq::empty() }),
        ),
        k is Word && s.pos + 2 == c.ts.len() ==> assignment(c, s, lhs).1 == Err::<
            AssignmentView,
            SyntaxErrView,
        >(SyntaxErrView::UnendedAssignment),
{
    let ks = seq![TknView::Assign, k];
    assert(c.ts[s.pos + 0].kind == ks[0]);
    assert(c.ts[s.pos + 1].kind == ks[1]);
    reveal_with_fuel(assigned, 3);
}

/// A word that the tokens end with, without a line end, a semicolon or a closing parenthesis after
/// it, is not a complete command.
pub proof fn law_words_want_an_end(c: Source, s: Cursor, w: Parts)
    requires
        c.ts.len() == s.pos + 1,
        stand_at(c, s.pos, seq![TknView::Word(w)]),
    ensures
        list(c, s).1 == Err::<AstView, SyntaxErrView>(SyntaxErrView::Incomplete),
{
    lemma_one(c, s, TknView::Word(w));
    reveal_with_fuel(items, 2);
}

} // verus!
