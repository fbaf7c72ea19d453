//! Whether a tree fits the text that it speaks of. The trees of the parser do; one that was
//! handed over from another process has to be looked at before it is run.

use crate::ast::{
    assignments_view, lemma_inner_view, lemma_stages_view, nodes_view, redirects_view, wf_ast,
    wf_nodes, Assignment, AstNode, AstView, Builtin, ChildPr, Redir, Redirect, SubshView,
};
use crate::executor::{all_left, passes_down, readable_assignments, runnable, started};
use crate::laws::{law_feeding_keeps_trees_runnable, law_parsed_commands_can_be_run};
use crate::spawn::{
    has_first, readable_command, readable_ins, readable_outs, spawnable, subsh_spawn_of, Stream,
};
use crate::text::{good_span, slice_str, str_eq};
use crate::token::{
    lemma_parts_view, spans_view, wf_inner, wf_inners, wf_part, wf_word, Tkn, TknSpan,
};
use crate::vars::VarMap;
use crate::word::{cow_str, wf_words, words_view, Word};
use vstd::prelude::*;
use vstd::string::*;
use vstd::utf8::*;

verus! {

broadcast use {vstd::string::group_string_axioms, vstd::seq::group_seq_axioms};

/// A tree over `text` whose words can be read, and whose subshells have a first command to
/// read what their input is redirected from.
pub open spec fn fits(text: Seq<char>, n: AstView) -> bool
    decreases n,
{
    match n {
        AstView::Prog(p) => p.text == text && readable_command(p),
        AstView::Builtin(p) => p.text == text && readable_command(p),
        AstView::Logical { lhs, operator, rhs } => fits(text, *lhs) && fits(text, *rhs),
        AstView::Pipeline(ps) => forall|i: int|
            0 <= i < ps.len() ==> fits(text, #[trigger] ps[i]),
        AstView::Subshell(s) => {
            &&& s.text == text
            &&& readable_ins(encode_utf8(text), s.ins)
            &&& spawnable(s)
            &&& forall|i: int| 0 <= i < s.inner.len() ==> fits(text, #[trigger] s.inner[i])
        },
        AstView::Assignments { text: t, assignments } => t == text && readable_assignments(
            t,
            assignments,
        ),
    }
}

/// Trees over `text` that fit it.
pub open spec fn all_fit(text: Seq<char>, ns: Seq<AstView>) -> bool {
    forall|i: int| 0 <= i < ns.len() ==> fits(text, #[trigger] ns[i])
}

/// A pipeline fits a text exactly if its stages do.
proof fn lemma_fits_pipeline(text: Seq<char>, ps: Seq<AstView>)
    ensures
        fits(text, AstView::Pipeline(ps)) == all_fit(text, ps),
{
    let n = AstView::Pipeline(ps);
    if fits(text, n) {
        assert forall|i: int| 0 <= i < ps.len() implies fits(text, #[trigger] ps[i]) by {
            assert(n->Pipeline_0[i] == ps[i]);
            assert(fits(text, n->Pipeline_0[i]));
        }
    }
}

/// A subshell fits a text exactly if it can be run and its commands fit it.
proof fn lemma_fits_subshell(text: Seq<char>, s: SubshView)
    ensures
        fits(text, AstView::Subshell(s)) == (s.text == text && readable_ins(
            encode_utf8(text),
            s.ins,
        ) && spawnable(s) && all_fit(text, s.inner)),
{
}

/// Whether a range lies well in a text.
fn check_span(s: &str, start: usize, end: usize) -> (r: bool)
    ensures
        r == good_span(s.spec_bytes(), start as int, end as int),
{
    start <= end && end <= s.as_bytes().len() && s.is_char_boundary(start) && s.is_char_boundary(
        end,
    )
}

/// Whether a span can be read that may stand inside double quotes.
fn check_inner(s: &str, t: &TknSpan) -> (r: bool)
    ensures
        r == wf_inner(s.spec_bytes(), t@),
{
    if !check_span(s, t.span.start, t.span.end) {
        return false;
    }
    match &t.kind {
        Tkn::Expansion => {
            proof {
                reveal_strlit("`");
                assert("`"@ =~= seq!['`']);
            }
            !str_eq(slice_str(s, t.span.start, t.span.end), "`")
        },
        _ => true,
    }
}

/// Whether the spans inside double quotes can be read.
fn check_inners(s: &str, inner: &Vec<TknSpan>) -> (r: bool)
    ensures
        r == wf_inners(s.spec_bytes(), spans_view(inner@)),
{
    let ghost ps = spans_view(inner@);
    let mut i: usize = 0;
    while i < inner.len()
        invariant
            i <= inner@.len(),
            ps == spans_view(inner@),
            forall|k: int| 0 <= k < i ==> #[trigger] wf_inner(s.spec_bytes(), ps[k]),
        decreases inner@.len() - i,
    {
        if !check_inner(s, &inner[i]) {
            assert(!wf_inner(s.spec_bytes(), ps[i as int]));
            return false;
        }
        i += 1;
    }
    true
}

/// Whether a part of a word can be read.
fn check_part(s: &str, t: &TknSpan) -> (r: bool)
    ensures
        r == wf_part(s.spec_bytes(), t@),
{
    if !check_inner(s, t) {
        return false;
    }
    match &t.kind {
        Tkn::SingleQuote => t.span.end - t.span.start >= 2 && check_span(
            s,
            t.span.start + 1,
            t.span.end - 1,
        ),
        Tkn::DoubleQuote(inner) => {
            proof {
                lemma_parts_view(*inner);
            }
            check_inners(s, inner)
        },
        _ => true,
    }
}

/// Whether a word can be read.
fn check_word(s: &str, w: &Word) -> (r: bool)
    ensures
        r == wf_word(s.spec_bytes(), spans_view(w@)),
{
    let ghost ps = spans_view(w@);
    let mut i: usize = 0;
    while i < w.len()
        invariant
            i <= w@.len(),
            ps == spans_view(w@),
            forall|k: int| 0 <= k < i ==> #[trigger] wf_part(s.spec_bytes(), ps[k]),
        decreases w@.len() - i,
    {
        if !check_part(s, &w[i]) {
            assert(!wf_part(s.spec_bytes(), ps[i as int]));
            return false;
        }
        i += 1;
    }
    true
}

/// Whether words can be read.
fn check_words(s: &str, args: &Vec<Word>) -> (r: bool)
    ensures
        r == wf_words(s.spec_bytes(), words_view(args@)),
{
    let ghost ws = words_view(args@);
    let mut i: usize = 0;
    while i < args.len()
        invariant
            i <= args@.len(),
            ws == words_view(args@),
            forall|k: int| 0 <= k < i ==> #[trigger] wf_word(s.spec_bytes(), ws[k]),
        decreases args@.len() - i,
    {
        if !check_word(s, &args[i]) {
            assert(!wf_word(s.spec_bytes(), ws[i as int]));
            return false;
        }
        i += 1;
    }
    true
}

/// Whether redirections of the input can be read.
fn check_ins(s: &str, ins: &Vec<Redirect>) -> (r: bool)
    ensures
        r == readable_ins(s.spec_bytes(), redirects_view(ins@)),
{
    let ghost rs = redirects_view(ins@);
    let ghost b = s.spec_bytes();
    let mut i: usize = 0;
    while i < ins.len()
        invariant
            i <= ins@.len(),
            b == s.spec_bytes(),
            rs == redirects_view(ins@),
            forall|k: int|
                0 <= k < i && (#[trigger] rs[k]).dir == Redir::In ==> rs[k].file.len() > 0
                    && wf_word(b, rs[k].file),
        decreases ins@.len() - i,
    {
        assert(rs[i as int] == ins@[i as int]@);
        if ins[i].dir == Redir::In && (ins[i].file.len() == 0 || !check_word(s, &ins[i].file)) {
            return false;
        }
        i += 1;
    }
    true
}

/// Whether redirections of the output can be read.
fn check_outs(s: &str, outs: &Vec<Redirect>) -> (r: bool)
    ensures
        r == readable_outs(s.spec_bytes(), redirects_view(outs@)),
{
    let ghost rs = redirects_view(outs@);
    let ghost b = s.spec_bytes();
    let mut i: usize = 0;
    while i < outs.len()
        invariant
            i <= outs@.len(),
            b == s.spec_bytes(),
            rs == redirects_view(outs@),
            forall|k: int| 0 <= k < i ==> wf_word(b, (#[trigger] rs[k]).file),
        decreases outs@.len() - i,
    {
        assert(rs[i as int] == outs@[i as int]@);
        if !check_word(s, &outs[i].file) {
            return false;
        }
        i += 1;
    }
    true
}

/// Whether assignments can be read.
fn check_assignments(s: &str, env: &Vec<Assignment>) -> (r: bool)
    ensures
        r == readable_assignments(s@, assignments_view(env@)),
{
    let ghost es = assignments_view(env@);
    let ghost b = encode_utf8(s@);
    let mut i: usize = 0;
    while i < env.len()
        invariant
            i <= env@.len(),
            b == encode_utf8(s@),
            b == s.spec_bytes(),
            es == assignments_view(env@),
            forall|k: int|
                0 <= k < i ==> wf_word(b, (#[trigger] es[k]).lhs) && wf_word(b, es[k].rhs),
        decreases env@.len() - i,
    {
        assert(es[i as int] == env@[i as int]@);
        if !check_word(s, &env[i].lhs) || !check_word(s, &env[i].rhs) {
            return false;
        }
        i += 1;
    }
    true
}

/// Whether a program is one over `text` that can be read.
fn check_prog<'a>(text: &str, p: &ChildPr<'a>) -> (r: bool)
    ensures
        r == (p@.text == text@ && readable_command(p@)),
{
    if !str_eq(cow_str(&p.cmd_buf), text) {
        return false;
    }
    check_words(text, &p.args) && check_ins(text, &p.redirect_ins) && check_outs(
        text,
        &p.redirect_outs,
    ) && check_assignments(text, &p.env_vars)
}

/// Whether a builtin command is one over `text` that can be read.
fn check_builtin<'a>(text: &str, p: &Builtin<'a>) -> (r: bool)
    ensures
        r == (p@.text == text@ && readable_command(p@)),
{
    if !str_eq(cow_str(&p.cmd_buf), text) {
        return false;
    }
    check_words(text, &p.args) && check_ins(text, &p.redirect_ins) && check_outs(
        text,
        &p.redirect_outs,
    )
}

/// Whether a tree has a first command.
fn check_first<'a>(node: &AstNode<'a>) -> (r: bool)
    ensures
        r == has_first(node@),
    decreases node,
{
    match node {
        AstNode::Logical { lhs, .. } => check_first(lhs),
        AstNode::Pipeline(ps) => {
            proof {
                lemma_stages_view(*ps);
            }
            ps.len() > 0 && check_first(&ps[0])
        },
        _ => true,
    }
}

/// Whether a tree fits `text`.
pub fn check_tree<'a>(text: &str, node: &AstNode<'a>) -> (r: bool)
    ensures
        r == fits(text@, node@),
    decreases node, 0int,
{
    match node {
        AstNode::Prog(p) => check_prog(text, p),
        AstNode::Builtin(p) => check_builtin(text, p),
        AstNode::Logical { lhs, rhs, .. } => check_tree(text, lhs) && check_tree(text, rhs),
        AstNode::Pipeline(ps) => {
            proof {
                lemma_stages_view(*ps);
                lemma_fits_pipeline(text@, nodes_view(ps@));
            }
            check_trees(text, ps)
        },
        AstNode::Subshell(s) => {
            proof {
                lemma_inner_view(*s);
                lemma_fits_subshell(text@, s@);
            }
            str_eq(cow_str(&s.cmd_buf), text) && check_ins(text, &s.redirect_ins) && check_outs(
                text,
                &s.redirect_outs,
            ) && (s.redirect_ins.len() == 0 || (s.inner_ast.len() > 0 && check_first(
                &s.inner_ast[0],
            ))) && check_trees(text, &s.inner_ast)
        },
        AstNode::Assignments { assignments, cmd_buf } => str_eq(cow_str(cmd_buf), text)
            && check_assignments(text, assignments),
    }
}

/// Whether trees fit `text`.
pub fn check_trees<'a>(text: &str, nodes: &Vec<Box<AstNode<'a>>>) -> (r: bool)
    ensures
        r == all_fit(text@, nodes_view(nodes@)),
    decreases nodes, 1int,
{
    let ghost ns = nodes_view(nodes@);
    let mut i: usize = 0;
    while i < nodes.len()
        invariant
            i <= nodes@.len(),
            ns == nodes_view(nodes@),
            forall|k: int| 0 <= k < i ==> fits(text@, #[trigger] ns[k]),
        decreases nodes@.len() - i,
    {
        assert(ns[i as int] == nodes@[i as int]@);
        if !check_tree(text, &nodes[i]) {
            return false;
        }
        i += 1;
    }
    true
}

/// A tree that fits its text can be run.
pub proof fn law_fitting_trees_can_be_run(text: Seq<char>, n: AstView)
    requires
        fits(text, n),
    ensures
        runnable(n),
    decreases n,
{
    if let AstView::Logical { lhs, operator, rhs } = n {
        law_fitting_trees_can_be_run(text, *lhs);
        law_fitting_trees_can_be_run(text, *rhs);
    }
}

/// What fits a text speaks of that text and can be carried out, and every tree of which that is
/// so fits: commands have words that can be read, a subshell has a first command where its input
/// is redirected, and so on for all that stands within.
pub proof fn law_what_fits_can_be_carried_out(text: Seq<char>, n: AstView)
    ensures
        fits(text, n) <==> match n {
            AstView::Prog(p) => p.text == text && readable_command(p),
            AstView::Builtin(p) => p.text == text && readable_command(p),
            AstView::Logical { lhs, operator, rhs } => fits(text, *lhs) && fits(text, *rhs),
            AstView::Pipeline(ps) => all_fit(text, ps),
            AstView::Subshell(s) => {
                &&& s.text == text
                &&& s.ins.len() > 0 ==> s.inner.len() > 0 && has_first(s.inner[0])
                &&& readable_ins(encode_utf8(text), s.ins)
                &&& readable_outs(encode_utf8(text), s.outs)
                &&& all_fit(text, s.inner)
            },
            AstView::Assignments { text: t, assignments } => t == text && readable_assignments(
                text,
                assignments,
            ),
        },
{
    match n {
        AstView::Pipeline(ps) => {
            lemma_fits_pipeline(text, ps);
        },
        AstView::Subshell(s) => {
            if fits(text, n) {
                assert forall|i: int| 0 <= i < s.inner.len() implies fits(
                    text,
                    #[trigger] s.inner[i],
                ) by {
                    assert(n->Subshell_0.inner[i] == s.inner[i]);
                }
            }
        },
        _ => {},
    }
}

/// A tree of the parser fits its text, and so do the commands of a subshell that are handed
/// to a shell of their own.
pub proof fn law_parsed_trees_fit(text: Seq<char>, n: AstView)
    requires
        wf_ast(text, n),
    ensures
        fits(text, n),
        n matches AstView::Subshell(s) ==> forall|stdin: Stream, stdout: Stream, vars: VarMap|
            all_fit(text, (#[trigger] subsh_spawn_of(s, stdin, stdout, vars)).inner),
{
    lemma_parsed_fits(text, n);
    if let AstView::Subshell(s) = n {
        assert forall|stdin: Stream, stdout: Stream, vars: VarMap| all_fit(
            text,
            (#[trigger] subsh_spawn_of(s, stdin, stdout, vars)).inner,
        ) by {
            let inner = subsh_spawn_of(s, stdin, stdout, vars).inner;
            assert forall|i: int| 0 <= i < inner.len() implies fits(text, #[trigger] inner[i]) by {
                assert(wf_ast(text, s.inner[i]));
                law_feeding_keeps_trees_runnable(text, s.inner[i], s.ins);
                assert(wf_ast(text, inner[i]));
                lemma_parsed_fits(text, inner[i]);
            }
        }
    }
}

/// A run of trees that can be run, or that fit a text, keeps asking for commands that do: both
/// properties pass down to the sides of logical nodes and hold of all that a run begins with.
pub proof fn law_runs_keep_what_trees_need(text: Seq<char>, ns: Seq<AstView>)
    ensures
        passes_down(|n: AstView| wf_ast(text, n)),
        passes_down(|n: AstView| fits(text, n)),
        wf_nodes(text, ns) ==> all_left(|n: AstView| wf_ast(text, n), started(ns).stack),
        all_fit(text, ns) ==> all_left(|n: AstView| fits(text, n), started(ns).stack),
{
}

/// A tree of the parser fits its text.
proof fn lemma_parsed_fits(text: Seq<char>, n: AstView)
    requires
        wf_ast(text, n),
    ensures
        fits(text, n),
    decreases n,
{
    law_parsed_commands_can_be_run(text, n);
    match n {
        AstView::Logical { lhs, operator, rhs } => {
            lemma_parsed_fits(text, *lhs);
            lemma_parsed_fits(text, *rhs);
        },
        AstView::Pipeline(ps) => {
            assert forall|i: int| 0 <= i < ps.len() implies fits(text, #[trigger] ps[i]) by {
                assert(wf_ast(text, ps[i]));
                lemma_parsed_fits(text, ps[i]);
            }
        },
        AstView::Subshell(s) => {
            assert forall|i: int| 0 <= i < s.inner.len() implies fits(
                text,
                #[trigger] s.inner[i],
            ) by {
                assert(wf_ast(text, s.inner[i]));
                lemma_parsed_fits(text, s.inner[i]);
            }
        },
        _ => {},
    }
}

} // verus!
