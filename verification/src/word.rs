//! What words evaluate to: quotes, escapes and variables.

use crate::text::{chars_of, slice_str, text_of};
use crate::token::{
    get_token_at, lemma_parts_view, spans_view, token_text, wf_inner, wf_inners, wf_part, wf_word,
    Tkn, TknSpan, TknSpanView, TknView,
};
use crate::vars::{var_value, ShellVars, VarMap};
use std::borrow::Cow;
use vstd::prelude::*;
use vstd::string::*;
use vstd::utf8::*;

verus! {

broadcast use {vstd::string::group_string_axioms, vstd::seq::group_seq_axioms};

/// A word is any combination of literals, single quotes, double quotes and expansions.
pub type Word = Vec<TknSpan>;

/// What a backslash and the character after it stand for inside double quotes.
pub open spec fn escape_pair(c: char) -> Seq<char> {
    if c == 'n' {
        seq!['\n']
    } else if c == 't' {
        seq!['\t']
    } else if c == 'r' {
        seq!['\r']
    } else if c == '\\' || c == '"' || c == '`' || c == '$' {
        seq![c]
    } else {
        seq!['\\', c]
    }
}

/// Text inside double quotes with its escapes replaced. A backslash at the very end stays.
pub open spec fn escaped(s: Seq<char>) -> Seq<char>
    decreases s.len(),
{
    if s.len() == 0 {
        Seq::empty()
    } else if s[0] != '\\' {
        seq![s[0]] + escaped(s.skip(1))
    } else if s.len() == 1 {
        seq!['\\']
    } else {
        escape_pair(s[1]) + escaped(s.skip(2))
    }
}

/// Text without a backslash is left as it is.
pub proof fn law_escaping_keeps_plain_text(s: Seq<char>)
    requires
        !s.contains('\\'),
    ensures
        escaped(s) == s,
    decreases s.len(),
{
    if s.len() > 0 {
        assert(s.contains(s[0]));
        let rest = s.skip(1);
        assert forall|c: char| rest.contains(c) implies s.contains(c) by {
            let i = choose|i: int| 0 <= i < rest.len() && rest[i] == c;
            assert(s[i + 1] == c);
        }
        law_escaping_keeps_plain_text(rest);
        assert(seq![s[0]] + rest =~= s);
    } else {
        assert(escaped(s) =~= s);
    }
}

/// The bytes of two texts together are the bytes of the one and then those of the other.
pub proof fn lemma_bytes_join(s: Seq<char>, t: Seq<char>)
    ensures
        encode_utf8(s + t) == encode_utf8(s) + encode_utf8(t),
    decreases s.len(),
{
    if s.len() == 0 {
        assert(s + t =~= t);
        assert(encode_utf8(s) + encode_utf8(t) =~= encode_utf8(t));
    } else {
        lemma_bytes_join(s.drop_first(), t);
        assert((s + t).drop_first() =~= s.drop_first() + t);
        assert(encode_utf8(s + t) =~= encode_utf8(s) + encode_utf8(t));
    }
}

/// Replacing escapes makes no text longer, neither in characters nor in bytes.
pub proof fn law_escaping_does_not_lengthen(s: Seq<char>)
    ensures
        escaped(s).len() <= s.len(),
        encode_utf8(escaped(s)).len() <= encode_utf8(s).len(),
    decreases s.len(),
{
    if s.len() == 1 && s[0] == '\\' {
        assert(escaped(s) =~= s);
    } else if s.len() > 0 {
        let n: int = if s[0] != '\\' {
            1
        } else {
            2
        };
        let rest = s.skip(n);
        let head = if n == 1 {
            seq![s[0]]
        } else {
            escape_pair(s[1])
        };
        law_escaping_does_not_lengthen(rest);
        lemma_bytes_join(head, escaped(rest));
        lemma_bytes_join(s.take(n), rest);
        assert(s.take(n) + rest =~= s);
        if n == 1 {
            assert(head =~= s.take(1));
        } else {
            reveal_with_fuel(encode_utf8, 3);
            assert(s.take(2).drop_first() =~= seq![s[1]]);
            if head.len() == 2 {
                assert(head =~= s.take(2));
            }
        }
    }
}

/// Whether `s` holds a backslash.
fn has_backslash(s: &str) -> (r: bool)
    ensures
        r == s@.contains('\\'),
{
    for c in it: s.chars()
        invariant
            it.seq() == s@,
            forall|k: int| 0 <= k < it.index() ==> s@[k] != '\\',
    {
        if c == '\\' {
            assert(s@[it.index()] == '\\');
            return true;
        }
    }
    false
}

/// Replaces the escapes of text that stood inside double quotes. Text without a backslash is
/// borrowed.
pub fn escape<'a>(arg: &'a str) -> (r: Cow<'a, str>)
    ensures
        r@ == escaped(arg@),
        r is Borrowed <==> !arg@.contains('\\'),
{
    if !has_backslash(arg) {
        proof {
            law_escaping_keeps_plain_text(arg@);
        }
        return Cow::Borrowed(arg);
    }
    let mut owned = String::new();
    let mut in_escape: bool = false;
    assert(arg@.skip(0) =~= arg@);
    for c in it: arg.chars()
        invariant
            it.seq() == arg@,
            in_escape ==> it.index() > 0 && arg@[it.index() - 1] == '\\',
            !in_escape ==> escaped(arg@) == owned@ + escaped(arg@.skip(it.index())),
            in_escape ==> escaped(arg@) == owned@ + escaped(arg@.skip(it.index() - 1)),
    {
        let ghost i = it.index();
        let ghost before = owned@;
        proof {
            assert(arg@.skip(i).skip(1) =~= arg@.skip(i + 1));
            if in_escape {
                assert(arg@.skip(i - 1).skip(2) =~= arg@.skip(i + 1));
                assert(arg@.skip(i - 1)[1] == c);
            }
        }
        if in_escape {
            match c {
                'n' => owned.push('\n'),
                't' => owned.push('\t'),
                'r' => owned.push('\r'),
                '\\' => owned.push('\\'),
                '"' => owned.push('"'),
                '`' => owned.push('`'),
                '$' => owned.push('$'),
                _ => {
                    owned.push('\\');
                    owned.push(c);
                },
            }
            assert(owned@ =~= before + escape_pair(c));
            in_escape = false;
        } else if c == '\\' {
            in_escape = true;
        } else {
            owned.push(c);
            assert(owned@ =~= before + seq![c]);
        }
    }
    if in_escape {
        assert(arg@.skip(arg@.len() - 1) =~= seq!['\\']);
        owned.push('\\');
    } else {
        assert(arg@.skip(arg@.len() as int) =~= Seq::empty());
    }
    assert(owned@ =~= escaped(arg@));
    Cow::Owned(owned)
}

/// What an expansion reads as. Between backticks stands the name of a variable, and so it
/// does after a dollar sign; a dollar sign alone stands for itself.
pub open spec fn expansion_value(expr: Seq<char>, vars: VarMap) -> Seq<char> {
    if expr.len() > 0 && expr[0] == '`' && expr.last() == '`' {
        var_value(vars, expr.subrange(1, expr.len() - 1))
    } else if expr.len() > 1 && expr[0] == '$' {
        var_value(vars, expr.skip(1))
    } else {
        "$"@
    }
}

/// What a span inside double quotes contributes.
pub open spec fn inner_value(p: TknSpanView, b: Seq<u8>, vars: VarMap) -> Seq<char> {
    match p.kind {
        TknView::Literal => escaped(token_text(b, p)),
        TknView::Expansion => expansion_value(token_text(b, p), vars),
        _ => Seq::empty(),
    }
}

/// What the spans inside double quotes read as, one after the other.
pub open spec fn dquote_value(ps: Seq<TknSpanView>, b: Seq<u8>, vars: VarMap) -> Seq<char>
    decreases ps.len(),
{
    if ps.len() == 0 {
        Seq::empty()
    } else {
        dquote_value(ps.drop_last(), b, vars) + inner_value(ps.last(), b, vars)
    }
}

/// What a part of a word contributes.
pub open spec fn part_value(p: TknSpanView, b: Seq<u8>, vars: VarMap) -> Seq<char> {
    match p.kind {
        TknView::DoubleQuote(inner) => dquote_value(inner, b, vars),
        TknView::SingleQuote => text_of(b, p.start + 1, p.end - 1),
        TknView::Literal => token_text(b, p),
        TknView::Expansion => expansion_value(token_text(b, p), vars),
        _ => Seq::empty(),
    }
}

/// What a word reads as: its parts, one after the other.
pub open spec fn word_value(w: Seq<TknSpanView>, b: Seq<u8>, vars: VarMap) -> Seq<char>
    decreases w.len(),
{
    if w.len() == 0 {
        Seq::empty()
    } else {
        word_value(w.drop_last(), b, vars) + part_value(w.last(), b, vars)
    }
}

/// The characters from `from` to `to`.
pub fn collect(v: &Vec<char>, from: usize, to: usize) -> (r: String)
    requires
        from <= to <= v@.len(),
    ensures
        r@ == v@.subrange(from as int, to as int),
{
    let mut r = String::new();
    let mut i: usize = from;
    while i < to
        invariant
            from <= i <= to <= v@.len(),
            r@ == v@.subrange(from as int, i as int),
        decreases to - i,
    {
        r.push(v[i]);
        i += 1;
        assert(r@ =~= v@.subrange(from as int, i as int));
    }
    r
}

/// What an expansion reads as.
pub fn eval_envvar(expr: &str, vars: &ShellVars) -> (r: String)
    requires
        expr@ != seq!['`'],
    ensures
        r@ == expansion_value(expr@, vars@),
{
    let v = chars_of(expr);
    let n: usize = v.len();
    if n > 0 && v[0] == '`' && v[n - 1] == '`' {
        if n == 1 {
            assert(expr@ =~= seq!['`']);
        }
        let key = collect(&v, 1, n - 1);
        return vars.get_env_var(key.as_str());
    }
    if n > 1 && v[0] == '$' {
        let key = collect(&v, 1, n);
        assert(v@.subrange(1, n as int) =~= expr@.skip(1));
        return vars.get_env_var(key.as_str());
    }
    "$".to_string()
}

/// Whether the spans inside double quotes are one literal without a backslash.
pub open spec fn is_plain_quote(ps: Seq<TknSpanView>, b: Seq<u8>) -> bool {
    ps.len() == 1 && ps[0].kind is Literal && !token_text(b, ps[0]).contains('\\')
}

/// What the spans inside double quotes read as. The text of one literal without a backslash is
/// borrowed from the command buffer.
pub fn eval_dquote<'a>(tknspans: &[TknSpan], cmd_buf: &'a str, vars: &ShellVars) -> (r: Cow<
    'a,
    str,
>)
    requires
        wf_inners(cmd_buf.spec_bytes(), spans_view(tknspans@)),
    ensures
        r@ == dquote_value(spans_view(tknspans@), cmd_buf.spec_bytes(), vars@),
        r is Borrowed <==> is_plain_quote(spans_view(tknspans@), cmd_buf.spec_bytes()),
{
    let ghost b = cmd_buf.spec_bytes();
    let ghost ps = spans_view(tknspans@);
    if tknspans.len() == 1 {
        assert(wf_inner(b, ps[0]));
        let text = get_token_at(&tknspans[0], cmd_buf);
        if let Tkn::Literal = &tknspans[0].kind {
            if !has_backslash(text) {
                proof {
                    law_escaping_keeps_plain_text(text@);
                    reveal_with_fuel(dquote_value, 2);
                    assert(dquote_value(ps, b, vars@) =~= inner_value(ps[0], b, vars@));
                }
                return Cow::Borrowed(text);
            }
        }
    }
    let mut res = String::new();
    let mut i: usize = 0;
    assert(ps.take(0) =~= Seq::empty());
    while i < tknspans.len()
        invariant
            i <= tknspans@.len(),
            b == cmd_buf.spec_bytes(),
            ps == spans_view(tknspans@),
            wf_inners(b, ps),
            res@ == dquote_value(ps.take(i as int), b, vars@),
        decreases tknspans@.len() - i,
    {
        assert(wf_inner(b, ps[i as int]));
        let part = &tknspans[i];
        let text = get_token_at(part, cmd_buf);
        match &part.kind {
            Tkn::Literal => {
                let plain = escape(text);
                res.append(cow_str(&plain));
            },
            Tkn::Expansion => {
                let value = eval_envvar(text, vars);
                res.append(value.as_str());
            },
            _ => (),
        }
        proof {
            assert(ps.take(i + 1).drop_last() =~= ps.take(i as int));
            assert(res@ =~= dquote_value(ps.take(i as int), b, vars@) + inner_value(
                ps[i as int],
                b,
                vars@,
            ));
        }
        i += 1;
    }
    assert(ps.take(ps.len() as int) =~= ps);
    Cow::Owned(res)
}

/// The text behind a `Cow`.
pub fn cow_str<'a>(c: &'a Cow<'a, str>) -> (r: &'a str)
    ensures
        r@ == c@,
{
    match c {
        Cow::Borrowed(s) => s,
        Cow::Owned(s) => s.as_str(),
    }
}

/// What a word reads as.
pub fn eval_word(w: &Word, cmd_buf: &str, vars: &ShellVars) -> (r: String)
    requires
        wf_word(cmd_buf.spec_bytes(), spans_view(w@)),
    ensures
        r@ == word_value(spans_view(w@), cmd_buf.spec_bytes(), vars@),
{
    let ghost b = cmd_buf.spec_bytes();
    let ghost ps = spans_view(w@);
    let mut res = String::new();
    let mut i: usize = 0;
    assert(ps.take(0) =~= Seq::empty());
    while i < w.len()
        invariant
            i <= w@.len(),
            b == cmd_buf.spec_bytes(),
            ps == spans_view(w@),
            wf_word(b, ps),
            res@ == word_value(ps.take(i as int), b, vars@),
        decreases w@.len() - i,
    {
        assert(wf_part(b, ps[i as int]));
        let part = &w[i];
        let text = get_token_at(part, cmd_buf);
        match &part.kind {
            Tkn::DoubleQuote(inner) => {
                proof {
                    lemma_parts_view(*inner);
                }
                let value = eval_dquote(inner.as_slice(), cmd_buf, vars);
                res.append(cow_str(&value));
            },
            Tkn::SingleQuote => {
                let quoted = slice_str(cmd_buf, part.span.start + 1, part.span.end - 1);
                res.append(quoted);
            },
            Tkn::Literal => res.append(text),
            Tkn::Expansion => {
                let value = eval_envvar(text, vars);
                res.append(value.as_str());
            },
            _ => (),
        }
        proof {
            assert(ps.take(i + 1).drop_last() =~= ps.take(i as int));
            assert(res@ =~= word_value(ps.take(i as int), b, vars@) + part_value(
                ps[i as int],
                b,
                vars@,
            ));
        }
        i += 1;
    }
    assert(ps.take(ps.len() as int) =~= ps);
    res
}

/// The values of words, each read on its own.
pub open spec fn args_value(args: Seq<Seq<TknSpanView>>, b: Seq<u8>, vars: VarMap) -> Seq<
    Seq<char>,
> {
    Seq::new(args.len(), |i: int| word_value(args[i], b, vars))
}

/// The values of a list of words.
pub open spec fn words_view(args: Seq<Word>) -> Seq<Seq<TknSpanView>> {
    Seq::new(args.len(), |i: int| spans_view(args[i]@))
}

/// Words that can be read.
pub open spec fn wf_words(b: Seq<u8>, args: Seq<Seq<TknSpanView>>) -> bool {
    forall|i: int| 0 <= i < args.len() ==> #[trigger] wf_word(b, args[i])
}

/// The texts of a list of `Cow`s.
pub open spec fn cows_view(v: Seq<Cow<'_, str>>) -> Seq<Seq<char>> {
    Seq::new(v.len(), |i: int| v[i]@)
}

/// Whether a word is one literal.
pub open spec fn is_plain_word(w: Seq<TknSpanView>) -> bool {
    w.len() == 1 && w[0].kind is Literal
}

/// What the words of a command read as. A word that is one literal is borrowed from the command
/// buffer.
pub fn clean_args<'a>(args: &Vec<Word>, cmd_buf: &'a str, vars: &ShellVars) -> (r: Vec<
    Cow<'a, str>,
>)
    requires
        wf_words(cmd_buf.spec_bytes(), words_view(args@)),
    ensures
        cows_view(r@) == args_value(words_view(args@), cmd_buf.spec_bytes(), vars@),
        forall|i: int|
            0 <= i < r@.len() ==> ((#[trigger] r@[i]) is Borrowed <==> is_plain_word(
                words_view(args@)[i],
            )),
{
    let ghost b = cmd_buf.spec_bytes();
    let ghost ws = words_view(args@);
    let mut cleaned: Vec<Cow<'a, str>> = Vec::new();
    let mut i: usize = 0;
    while i < args.len()
        invariant
            i <= args@.len(),
            b == cmd_buf.spec_bytes(),
            ws == words_view(args@),
            wf_words(b, ws),
            cleaned@.len() == i,
            forall|k: int|
                0 <= k < i ==> (#[trigger] cleaned@[k])@ == word_value(ws[k], b, vars@) && (
                cleaned@[k] is Borrowed <==> is_plain_word(ws[k])),
        decreases args@.len() - i,
    {
        assert(wf_word(b, ws[i as int]));
        let arg = &args[i];
        let mut plain: bool = false;
        if arg.len() == 1 {
            if let Tkn::Literal = &arg[0].kind {
                plain = true;
            }
        }
        if plain {
            assert(wf_part(b, ws[i as int][0]));
            let text = get_token_at(&arg[0], cmd_buf);
            proof {
                reveal_with_fuel(word_value, 2);
                assert(word_value(ws[i as int], b, vars@) =~= part_value(
                    ws[i as int][0],
                    b,
                    vars@,
                ));
            }
            cleaned.push(Cow::Borrowed(text));
        } else {
            cleaned.push(Cow::Owned(eval_word(arg, cmd_buf, vars)));
        }
        i += 1;
    }
    assert(cows_view(cleaned@) =~= args_value(ws, b, vars@));
    cleaned
}

} // verus!
