//! Separators between commands: which of them stands there, and how many, makes no difference.

use crate::ast::{AstView, Redir};
use crate::grammar::{
    assigned, file_name, first_doc, from_doc, is_separator, items, joined, lemma_assigned,
    lemma_list, lemma_past_separators, lemma_pipeline, lemma_simple, list, next_kind, no_items,
    parsed, past_blank, past_delimiter, past_doc, past_separators, pipeline, program, simple,
    stages, stepped, subshell, to_file, wf_source, Cursor, Items, Source, SyntaxErrView,
};
use crate::token::{TknSpanView, TknView};
use vstd::prelude::*;

verus! {

broadcast use vstd::seq::group_seq_axioms;

/// A token that ends a line of commands.
pub open spec fn ends_line(k: TknView) -> bool {
    k is Newline || k is Semicolon
}

/// The kind of a token, with a semicolon taken for a line end.
pub open spec fn canon(k: TknView) -> TknView {
    if k is Semicolon {
        TknView::Newline
    } else {
        k
    }
}

/// The kinds of some tokens.
pub open spec fn kinds(ts: Seq<TknSpanView>) -> Seq<TknView> {
    Seq::new(ts.len(), |i: int| ts[i].kind)
}

/// What remains of some kinds of tokens when semicolons are taken for line ends and separators
/// are dropped that follow a line end directly. `fresh` says that one stood before them, or
/// nothing at all.
pub open spec fn essence(ks: Seq<TknView>, fresh: bool) -> Seq<TknView>
    decreases ks.len(),
{
    if ks.len() == 0 {
        Seq::empty()
    } else if fresh && is_separator(ks[0]) {
        essence(ks.skip(1), true)
    } else {
        seq![canon(ks[0])] + essence(ks.skip(1), ends_line(ks[0]))
    }
}

/// Kinds of tokens without the separators at their beginning.
spec fn trimmed(ks: Seq<TknView>) -> Seq<TknView>
    decreases ks.len(),
{
    if ks.len() > 0 && is_separator(ks[0]) {
        trimmed(ks.skip(1))
    } else {
        ks
    }
}

/// Whether two attempts have read the same or have both failed.
pub open spec fn agree<T>(r: Result<T, SyntaxErrView>, q: Result<T, SyntaxErrView>) -> bool {
    match (r, q) {
        (Ok(a), Ok(b)) => a == b,
        (Err(_), Err(_)) => true,
        _ => false,
    }
}

/// The kinds of the tokens that are left.
spec fn left(c: Source, s: Cursor) -> Seq<TknView> {
    kinds(c.ts).skip(s.pos)
}

/// Two sources that differ in their tokens only, all of which can be read.
spec fn akin(c: Source, d: Source) -> bool {
    c.text == d.text && c.vars == d.vars && wf_source(c) && wf_source(d)
}

/// Two places from which the same is left, separators aside.
spec fn alike(c: Source, s: Cursor, d: Source, t: Cursor, fresh: bool) -> bool {
    &&& 0 <= s.pos <= c.ts.len()
    &&& 0 <= t.pos <= d.ts.len()
    &&& s.docs == t.docs
    &&& essence(left(c, s), fresh) == essence(left(d, t), fresh)
}

/// Whether the last token that was read ends a line.
spec fn after_line(s: Cursor) -> bool {
    s.cur matches Some(k) && ends_line(k)
}

/// Whether the last tokens that were read are the same, line ends and semicolons alike.
spec fn same_cur(s: Cursor, t: Cursor) -> bool {
    match (s.cur, t.cur) {
        (Some(k), Some(l)) => canon(k) == canon(l),
        (None, None) => true,
        _ => false,
    }
}

/// Two places to which a command has been read in the same way.
spec fn met(c: Source, s: Cursor, d: Source, t: Cursor) -> bool {
    same_cur(s, t) && alike(c, s, d, t, after_line(s))
}

/// One token further in both.
proof fn lemma_step(c: Source, s: Cursor, d: Source, t: Cursor)
    requires
        alike(c, s, d, t, false),
    ensures
        next_kind(c, s) is Some == next_kind(d, t) is Some,
        next_kind(c, s) is Some ==> canon(next_kind(c, s)->0) == canon(next_kind(d, t)->0),
        met(c, stepped(c, s), d, stepped(d, t)),
{
    let x = left(c, s);
    let y = left(d, t);
    if x.len() > 0 {
        assert(essence(x, false)[0] == canon(x[0]));
        assert(y.len() > 0);
        assert(essence(y, false)[0] == canon(y[0]));
        let xs = essence(x.skip(1), ends_line(x[0]));
        let ys = essence(y.skip(1), ends_line(y[0]));
        assert(xs =~= essence(x, false).skip(1));
        assert(ys =~= essence(y, false).skip(1));
        assert(left(c, stepped(c, s)) =~= x.skip(1));
        assert(left(d, stepped(d, t)) =~= y.skip(1));
    } else if y.len() > 0 {
        assert(essence(y, false).len() > 0);
    }
}

/// Past a blank token in both.
proof fn lemma_blank(c: Source, s: Cursor, d: Source, t: Cursor)
    requires
        alike(c, s, d, t, false),
    ensures
        alike(c, past_blank(c, s), d, past_blank(d, t), false),
{
    lemma_step(c, s, d, t);
}

/// The essence of what is left without the separators at its beginning.
proof fn lemma_essence_trimmed(ks: Seq<TknView>, fresh: bool)
    ensures
        essence(trimmed(ks), false) == trimmed(essence(ks, fresh)),
    decreases ks.len(),
{
    if ks.len() > 0 {
        let rest = ks.skip(1);
        let e = essence(rest, ends_line(ks[0]));
        let all = seq![canon(ks[0])] + e;
        assert(all.skip(1) =~= e);
        if is_separator(ks[0]) {
            lemma_essence_trimmed(rest, true);
            lemma_essence_trimmed(rest, ends_line(ks[0]));
        }
    }
}

/// What is left after the separators that are next.
proof fn lemma_left_past(c: Source, s: Cursor)
    requires
        0 <= s.pos <= c.ts.len(),
    ensures
        left(c, past_separators(c, s)) == trimmed(left(c, s)),
    decreases c.ts.len() - s.pos,
{
    let x = left(c, s);
    if x.len() > 0 && is_separator(x[0]) {
        assert(left(c, stepped(c, s)) =~= x.skip(1));
        lemma_left_past(c, stepped(c, s));
    }
}

/// Past all separators in both.
proof fn lemma_past(c: Source, s: Cursor, d: Source, t: Cursor, fresh: bool)
    requires
        alike(c, s, d, t, fresh),
    ensures
        alike(c, past_separators(c, s), d, past_separators(d, t), false),
{
    lemma_past_separators(c, s);
    lemma_past_separators(d, t);
    lemma_left_past(c, s);
    lemma_left_past(d, t);
    lemma_essence_trimmed(left(c, s), fresh);
    lemma_essence_trimmed(left(d, t), fresh);
}

/// What is assigned in both.
proof fn lemma_assigned_alike(
    c: Source,
    s: Cursor,
    d: Source,
    t: Cursor,
    lhs: Seq<TknSpanView>,
    rhs: Seq<TknSpanView>,
)
    requires
        alike(c, s, d, t, false),
    ensures
        agree(assigned(c, s, lhs, rhs).1, assigned(d, t, lhs, rhs).1),
        assigned(c, s, lhs, rhs).1 is Ok ==> alike(
            c,
            assigned(c, s, lhs, rhs).0,
            d,
            assigned(d, t, lhs, rhs).0,
            false,
        ),
    decreases c.ts.len() - s.pos,
{
    lemma_step(c, s, d, t);
    match next_kind(c, s) {
        Some(TknView::Word(w)) => {
            lemma_assigned_alike(c, stepped(c, s), d, stepped(d, t), lhs, w);
        },
        Some(TknView::Space) => {
            if rhs.len() == 0 {
                lemma_assigned_alike(c, stepped(c, s), d, stepped(d, t), lhs, rhs);
            }
        },
        _ => {},
    }
}

/// The file after a redirection operator in both.
proof fn lemma_file_alike(c: Source, s: Cursor, d: Source, t: Cursor, missing: SyntaxErrView)
    requires
        alike(c, s, d, t, false),
    ensures
        agree(file_name(c, s, missing).1, file_name(d, t, missing).1),
        file_name(c, s, missing).1 is Ok ==> alike(
            c,
            file_name(c, s, missing).0,
            d,
            file_name(d, t, missing).0,
            false,
        ),
{
    lemma_blank(c, s, d, t);
    lemma_step(c, past_blank(c, s), d, past_blank(d, t));
}

/// What a simple command holds in both.
proof fn lemma_items_alike(c: Source, s: Cursor, d: Source, t: Cursor, it: Items)
    requires
        akin(c, d),
        alike(c, s, d, t, false),
    ensures
        agree(items(c, s, it).1, items(d, t, it).1),
        items(c, s, it).1 is Ok ==> met(c, items(c, s, it).0, d, items(d, t, it).0),
    decreases c.ts.len() - s.pos, 0int,
{
    let s1 = stepped(c, s);
    let t1 = stepped(d, t);
    lemma_step(c, s, d, t);
    match s1.cur {
        Some(TknView::Word(w)) => {
            let s2 = past_blank(c, s1);
            let t2 = past_blank(d, t1);
            lemma_blank(c, s1, d, t1);
            lemma_step(c, s2, d, t2);
            if next_kind(c, s2) == Some(TknView::Assign) {
                let s3 = stepped(c, s2);
                let t3 = stepped(d, t2);
                lemma_assigned(c, s3, w, Seq::empty());
                lemma_assigned_alike(c, s3, d, t3, w, Seq::empty());
                if let Ok(a) = assigned(c, s3, w, Seq::empty()).1 {
                    lemma_items_alike(
                        c,
                        assigned(c, s3, w, Seq::empty()).0,
                        d,
                        assigned(d, t3, w, Seq::empty()).0,
                        Items { env: it.env.push(a), ..it },
                    );
                }
            } else {
                lemma_items_alike(c, s2, d, t2, Items { args: it.args.push(w), ..it });
            }
        },
        Some(TknView::RedirectIn) => {
            let e = SyntaxErrView::NoInfile;
            lemma_file_alike(c, s1, d, t1, e);
            if let (s2, Ok(f)) = file_name(c, s1, e) {
                let next = Items { ins: it.ins.push(to_file(Redir::In, f)), ..it };
                lemma_items_alike(c, s2, d, file_name(d, t1, e).0, next);
            }
        },
        Some(TknView::RedirectOut) => {
            let e = SyntaxErrView::NoOutfile;
            lemma_file_alike(c, s1, d, t1, e);
            if let (s2, Ok(f)) = file_name(c, s1, e) {
                let next = Items { outs: it.outs.push(to_file(Redir::Out, f)), ..it };
                lemma_items_alike(c, s2, d, file_name(d, t1, e).0, next);
            }
        },
        Some(TknView::RedirectAppend) => {
            let e = SyntaxErrView::NoAppendFile;
            lemma_file_alike(c, s1, d, t1, e);
            if let (s2, Ok(f)) = file_name(c, s1, e) {
                let next = Items { outs: it.outs.push(to_file(Redir::Append, f)), ..it };
                lemma_items_alike(c, s2, d, file_name(d, t1, e).0, next);
            }
        },
        Some(TknView::Heredoc) => {
            let s2 = past_doc(s1);
            let t2 = past_doc(t1);
            lemma_blank(c, s2, d, t2);
            lemma_step(c, past_blank(c, s2), d, past_blank(d, t2));
            if let (s3, Ok(_)) = past_delimiter(c, s2) {
                let next = Items { ins: it.ins.push(from_doc(first_doc(s1))), ..it };
                lemma_items_alike(c, s3, d, past_delimiter(d, t2).0, next);
            }
        },
        Some(TknView::LParen) => {
            if it.args.len() == 0 {
                let none = Seq::<AstView>::empty();
                lemma_subshell_alike(c, s1, d, t1, none);
                if let (s2, Ok(inner)) = subshell(c, s1, none) {
                    let next = Items { inner: Some(inner), ..it };
                    lemma_items_alike(c, s2, d, subshell(d, t1, none).0, next);
                }
            }
        },
        Some(TknView::Space) => {
            lemma_items_alike(c, s1, d, t1, it);
        },
        _ => {},
    }
}

/// A simple command in both.
proof fn lemma_simple_alike(c: Source, s: Cursor, d: Source, t: Cursor)
    requires
        akin(c, d),
        alike(c, s, d, t, false),
    ensures
        agree(simple(c, s).1, simple(d, t).1),
        simple(c, s).1 is Ok ==> met(c, simple(c, s).0, d, simple(d, t).0),
    decreases c.ts.len() - s.pos, 1int,
{
    lemma_items_alike(c, s, d, t, no_items());
}

/// The commands of a subshell in both.
proof fn lemma_subshell_alike(c: Source, s: Cursor, d: Source, t: Cursor, acc: Seq<AstView>)
    requires
        akin(c, d),
        alike(c, s, d, t, false),
        s.cur matches Some(k) && !(k is RParen),
        t.cur matches Some(k) && !(k is RParen),
    ensures
        agree(subshell(c, s, acc).1, subshell(d, t, acc).1),
        subshell(c, s, acc).1 is Ok ==> {
            &&& s.pos < subshell(c, s, acc).0.pos
            &&& t.pos < subshell(d, t, acc).0.pos
            &&& alike(c, subshell(c, s, acc).0, d, subshell(d, t, acc).0, false)
        },
    decreases c.ts.len() - s.pos, 4int,
{
    lemma_list(c, s);
    lemma_list(d, t);
    lemma_list_alike(c, s, d, t);
    if let (s1, Ok(node)) = list(c, s) {
        let t1 = list(d, t).0;
        if s1.cur != Some(TknView::RParen) {
            let s2 = past_separators(c, s1);
            let t2 = past_separators(d, t1);
            lemma_past_separators(c, s1);
            lemma_past_separators(d, t1);
            lemma_past(c, s1, d, t1, after_line(s1));
            lemma_step(c, s2, d, t2);
            if next_kind(c, s2) != Some(TknView::RParen) {
                lemma_subshell_alike(c, s2, d, t2, acc.push(node));
            }
        }
    }
}

/// A pipeline in both.
proof fn lemma_pipeline_alike(c: Source, s: Cursor, d: Source, t: Cursor)
    requires
        akin(c, d),
        alike(c, s, d, t, false),
    ensures
        agree(pipeline(c, s).1, pipeline(d, t).1),
        pipeline(c, s).1 is Ok ==> met(c, pipeline(c, s).0, d, pipeline(d, t).0),
    decreases c.ts.len() - s.pos, 2int,
{
    lemma_simple(c, s);
    lemma_simple(d, t);
    lemma_simple_alike(c, s, d, t);
    if let (s1, Ok(node)) = simple(c, s) {
        if s1.cur == Some(TknView::Pipe) {
            lemma_stages_alike(c, s1, d, simple(d, t).0, seq![node]);
        }
    }
}

/// The rest of a pipeline in both.
proof fn lemma_stages_alike(c: Source, s: Cursor, d: Source, t: Cursor, acc: Seq<AstView>)
    requires
        akin(c, d),
        met(c, s, d, t),
    ensures
        agree(stages(c, s, acc).1, stages(d, t, acc).1),
        stages(c, s, acc).1 is Ok ==> met(c, stages(c, s, acc).0, d, stages(d, t, acc).0),
    decreases c.ts.len() - s.pos, 2int,
{
    if s.cur == Some(TknView::Pipe) {
        let s0 = past_separators(c, s);
        let t0 = past_separators(d, t);
        lemma_past_separators(c, s);
        lemma_past_separators(d, t);
        lemma_past(c, s, d, t, after_line(s));
        lemma_simple(c, s0);
        lemma_simple(d, t0);
        lemma_simple_alike(c, s0, d, t0);
        if let (s1, Ok(node)) = simple(c, s0) {
            lemma_stages_alike(c, s1, d, simple(d, t0).0, acc.push(node));
        }
    }
}

/// A list in both.
proof fn lemma_list_alike(c: Source, s: Cursor, d: Source, t: Cursor)
    requires
        akin(c, d),
        alike(c, s, d, t, false),
    ensures
        agree(list(c, s).1, list(d, t).1),
        list(c, s).1 is Ok ==> met(c, list(c, s).0, d, list(d, t).0),
    decreases c.ts.len() - s.pos, 3int,
{
    lemma_pipeline(c, s);
    lemma_pipeline(d, t);
    lemma_pipeline_alike(c, s, d, t);
    if let (s1, Ok(node)) = pipeline(c, s) {
        lemma_joined_alike(c, s1, d, pipeline(d, t).0, node);
    }
}

/// The rest of a list in both.
proof fn lemma_joined_alike(c: Source, s: Cursor, d: Source, t: Cursor, node: AstView)
    requires
        akin(c, d),
        met(c, s, d, t),
    ensures
        agree(joined(c, s, node).1, joined(d, t, node).1),
        joined(c, s, node).1 is Ok ==> met(c, joined(c, s, node).0, d, joined(d, t, node).0),
    decreases c.ts.len() - s.pos, 3int,
{
    if let Some(k) = s.cur {
        if k is CmdOr || k is CmdAnd {
            let s0 = past_separators(c, s);
            let t0 = past_separators(d, t);
            lemma_past_separators(c, s);
            lemma_past_separators(d, t);
            lemma_past(c, s, d, t, after_line(s));
            lemma_pipeline(c, s0);
            lemma_pipeline(d, t0);
            lemma_pipeline_alike(c, s0, d, t0);
            if let (s1, Ok(rhs)) = pipeline(c, s0) {
                lemma_joined_alike(
                    c,
                    s1,
                    d,
                    pipeline(d, t0).0,
                    AstView::Logical { lhs: Box::new(node), operator: k, rhs: Box::new(rhs) },
                );
            }
        }
    }
}

/// All commands in both.
proof fn lemma_program_alike(c: Source, s: Cursor, d: Source, t: Cursor, acc: Seq<AstView>)
    requires
        akin(c, d),
        alike(c, s, d, t, false),
    ensures
        agree(program(c, s, acc).1, program(d, t, acc).1),
    decreases c.ts.len() - s.pos,
{
    lemma_step(c, s, d, t);
    if next_kind(c, s) is Some {
        lemma_list(c, s);
        lemma_list(d, t);
        lemma_list_alike(c, s, d, t);
        if let (s1, Ok(node)) = list(c, s) {
            let t1 = list(d, t).0;
            lemma_past_separators(c, s1);
            lemma_past_separators(d, t1);
            lemma_past(c, s1, d, t1, after_line(s1));
            lemma_program_alike(
                c,
                past_separators(c, s1),
                d,
                past_separators(d, t1),
                acc.push(node),
            );
        }
    }
}

/// Two sequences of tokens that have the same essence are read as the same commands, or are
/// both refused: line ends and semicolons are interchangeable, and repeats of them, and blanks
/// after them, mean nothing.
pub proof fn law_separators_are_interchangeable(c: Source, d: Source, docs: Seq<Seq<char>>)
    requires
        c.text == d.text,
        c.vars == d.vars,
        wf_source(c),
        wf_source(d),
        essence(kinds(c.ts), true) == essence(kinds(d.ts), true),
    ensures
        agree(
            parsed(c, Cursor { pos: 0, cur: None, docs }).1,
            parsed(d, Cursor { pos: 0, cur: None, docs }).1,
        ),
{
    let s = Cursor { pos: 0, cur: None, docs };
    assert(left(c, s) =~= kinds(c.ts));
    assert(left(d, s) =~= kinds(d.ts));
    lemma_past(c, s, d, s, true);
    lemma_program_alike(c, past_separators(c, s), d, past_separators(d, s), Seq::empty());
}

/// Exchanging a line end for a semicolon keeps the essence.
proof fn lemma_essence_exchanged(ks: Seq<TknView>, i: int, k: TknView, fresh: bool)
    requires
        0 <= i < ks.len(),
        ends_line(ks[i]),
        ends_line(k),
    ensures
        essence(ks.update(i, k), fresh) == essence(ks, fresh),
    decreases ks.len(),
{
    let new = ks.update(i, k);
    if i == 0 {
        assert(new.skip(1) =~= ks.skip(1));
    } else {
        assert(new.skip(1) =~= ks.skip(1).update(i - 1, k));
        lemma_essence_exchanged(ks.skip(1), i - 1, k, true);
        lemma_essence_exchanged(ks.skip(1), i - 1, k, ends_line(ks[0]));
    }
}

/// A further separator at the beginning, or after a line end, keeps the essence.
proof fn lemma_essence_inserted(ks: Seq<TknView>, i: int, k: TknView, fresh: bool)
    requires
        0 <= i <= ks.len(),
        is_separator(k),
        if i == 0 {
            fresh
        } else {
            ends_line(ks[i - 1])
        },
    ensures
        essence(ks.insert(i, k), fresh) == essence(ks, fresh),
    decreases ks.len(),
{
    let new = ks.insert(i, k);
    if i == 0 {
        assert(new.skip(1) =~= ks);
    } else {
        assert(new.skip(1) =~= ks.skip(1).insert(i - 1, k));
        if fresh && is_separator(ks[0]) {
            lemma_essence_inserted(ks.skip(1), i - 1, k, true);
        } else {
            lemma_essence_inserted(ks.skip(1), i - 1, k, ends_line(ks[0]));
        }
    }
}

/// A semicolon may stand for a line end and a line end for a semicolon: the commands stay the
/// same.
pub proof fn law_line_ends_and_semicolons_are_alike(
    c: Source,
    i: int,
    t: TknSpanView,
    docs: Seq<Seq<char>>,
)
    requires
        wf_source(c),
        wf_source(Source { ts: c.ts.update(i, t), ..c }),
        0 <= i < c.ts.len(),
        ends_line(c.ts[i].kind),
        ends_line(t.kind),
    ensures
        agree(
            parsed(c, Cursor { pos: 0, cur: None, docs }).1,
            parsed(
                Source { ts: c.ts.update(i, t), ..c },
                Cursor { pos: 0, cur: None, docs },
            ).1,
        ),
{
    let d = Source { ts: c.ts.update(i, t), ..c };
    assert(kinds(d.ts) =~= kinds(c.ts).update(i, t.kind));
    lemma_essence_exchanged(kinds(c.ts), i, t.kind, true);
    law_separators_are_interchangeable(c, d, docs);
}

/// A further line end, semicolon or blank at the very beginning, or directly after a line end
/// or a semicolon, means nothing: the commands stay the same.
pub proof fn law_repeated_separators_mean_nothing(
    c: Source,
    i: int,
    t: TknSpanView,
    docs: Seq<Seq<char>>,
)
    requires
        wf_source(c),
        wf_source(Source { ts: c.ts.insert(i, t), ..c }),
        0 <= i <= c.ts.len(),
        i > 0 ==> ends_line(c.ts[i - 1].kind),
        is_separator(t.kind),
    ensures
        agree(
            parsed(c, Cursor { pos: 0, cur: None, docs }).1,
            parsed(
                Source { ts: c.ts.insert(i, t), ..c },
                Cursor { pos: 0, cur: None, docs },
            ).1,
        ),
{
    let d = Source { ts: c.ts.insert(i, t), ..c };
    assert(kinds(d.ts) =~= kinds(c.ts).insert(i, t.kind));
    lemma_essence_inserted(kinds(c.ts), i, t.kind, true);
    law_separators_are_interchangeable(c, d, docs);
}

} // verus!
