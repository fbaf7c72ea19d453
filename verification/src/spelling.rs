//! From characters to words: what a word that is spelled in a command buffer reads as.

use crate::laws::law_words_join;
use crate::lexer::{is_part, quoted_delimiter, raw_tokens, token_at, LexView};
use crate::lines::{lemma_run_is, lemma_step};
use crate::scan::{
    backtick_end, dquote, dquote_part, expansion_end, in_class, law_names_are_longest_runs,
    lemma_find_byte, lemma_run_end, name_end, run_end, target_at, ByteClass,
};
use crate::text::{
    char_at, char_end, good_span, lemma_ascii_boundary, lemma_next_boundary, lemma_text_split,
    text_of, unicode_alphabetic, unicode_numeric,
};
use crate::token::{token_text, TknSpanView, TknView};
use crate::vars::VarMap;
use crate::word::{
    dquote_value, escaped, inner_value, law_escaping_keeps_plain_text, lemma_bytes_join, part_value,
    word_value,
};
use vstd::prelude::*;
use vstd::string::*;
use vstd::utf8::*;

verus! {

broadcast use vstd::seq::group_seq_axioms;

/// Whether the bytes from `i` on spell `x`.
pub open spec fn says_at(b: Seq<u8>, i: int, x: Seq<char>) -> bool {
    &&& 0 <= i
    &&& i + width(x) <= b.len()
    &&& b.subrange(i, i + width(x)) == encode_utf8(x)
}

/// How many bytes a text takes.
pub open spec fn width(x: Seq<char>) -> int {
    encode_utf8(x).len() as int
}

/// Two texts that are spelled one after the other.
pub proof fn lemma_says_join(b: Seq<u8>, i: int, x: Seq<char>, y: Seq<char>)
    ensures
        width(x + y) == width(x) + width(y),
        says_at(b, i, x + y) <==> says_at(b, i, x) && says_at(b, i + width(x), y),
{
    lemma_bytes_join(x, y);
    let m = i + width(x);
    let e = m + width(y);
    if says_at(b, i, x + y) {
        let all = b.subrange(i, e);
        assert(all.subrange(0, width(x)) =~= b.subrange(i, m));
        assert(all.subrange(0, width(x)) =~= encode_utf8(x));
        assert(all.subrange(width(x), all.len() as int) =~= b.subrange(m, e));
        assert(all.subrange(width(x), all.len() as int) =~= encode_utf8(y));
    }
    if says_at(b, i, x) && says_at(b, m, y) {
        assert(b.subrange(i, e) =~= b.subrange(i, m) + b.subrange(m, e));
    }
}

/// One ASCII character.
pub proof fn lemma_says_ascii(b: Seq<u8>, i: int, c: char)
    requires
        c <= '\u{7f}',
    ensures
        width(seq![c]) == 1,
        says_at(b, i, seq![c]) <==> 0 <= i < b.len() && b[i] == c as u8,
{
    let one = seq![c];
    is_ascii_chars_encode_utf8(one);
    assert(encode_utf8(one)[0] == one[0] as u8);
    if 0 <= i < b.len() {
        assert(b.subrange(i, i + 1)[0] == b[i]);
        if b[i] == c as u8 {
            assert(b.subrange(i, i + 1) =~= encode_utf8(one));
        }
    }
}

/// A text takes at least as many bytes as it has characters.
pub proof fn lemma_width(x: Seq<char>)
    ensures
        width(x) >= x.len(),
        x.len() == 0 ==> width(x) == 0,
    decreases x.len(),
{
    if x.len() > 0 {
        lemma_width(x.drop_first());
        encode_utf8_first_scalar(x);
    }
}

/// The character that begins a text.
pub proof fn lemma_says_first(b: Seq<u8>, i: int, x: Seq<char>)
    requires
        valid_utf8(b),
        is_char_boundary(b, i),
        says_at(b, i, x),
        x.len() > 0,
    ensures
        i < b.len(),
        char_at(b, i) == x[0],
        char_end(b, i) == i + width(seq![x[0]]),
        is_char_boundary(b, char_end(b, i)),
        says_at(b, char_end(b, i), x.skip(1)),
        width(x) == width(seq![x[0]]) + width(x.skip(1)),
{
    let e = encode_utf8(x);
    encode_utf8_first_scalar(x);
    lemma_width(x);
    let r = b.subrange(i, b.len() as int);
    let m = b.subrange(i, i + width(x));
    assert forall|k: int| 0 <= k < e.len() implies r[k] == e[k] by {
        assert(r[k] == b[i + k]);
        assert(m[k] == b[i + k]);
    }
    lemma_next_boundary(b, i);
    assert(e[0] == b[i]);
    assert(length_of_first_scalar(e) == length_of_first_scalar(r));
    assert(decode_first_scalar(e) == decode_first_scalar(r));
    char_u32_cast(x[0], decode_first_scalar(e));
    let one = seq![x[0]];
    assert(one.drop_first() =~= Seq::empty());
    assert(encode_utf8(Seq::<char>::empty()) =~= Seq::empty());
    assert(encode_utf8(one) == encode_scalar(one[0] as u32) + encode_utf8(one.drop_first()));
    assert(encode_utf8(one) =~= encode_scalar(x[0] as u32));
    assert(one + x.skip(1) =~= x);
    lemma_says_join(b, i, one, x.skip(1));
}

/// A text ends between characters.
pub proof fn lemma_says_boundary(b: Seq<u8>, i: int, x: Seq<char>)
    requires
        valid_utf8(b),
        is_char_boundary(b, i),
        says_at(b, i, x),
    ensures
        is_char_boundary(b, i + width(x)),
        good_span(b, i, i + width(x)),
        text_of(b, i, i + width(x)) == x,
    decreases x.len(),
{
    encode_utf8_decode_utf8(x);
    if x.len() > 0 {
        lemma_says_first(b, i, x);
        lemma_says_boundary(b, char_end(b, i), x.skip(1));
    } else {
        lemma_width(x);
    }
}

/// An ASCII byte of a text is one of its characters.
pub proof fn lemma_ascii_byte(x: Seq<char>, k: int)
    requires
        0 <= k < width(x),
        encode_utf8(x)[k] <= 0x7f,
    ensures
        x.contains(encode_utf8(x)[k] as char),
{
    let b = encode_utf8(x);
    let n = b.len() as int;
    encode_utf8_valid_utf8(x);
    encode_utf8_decode_utf8(x);
    is_char_boundary_start_end_of_seq(b);
    lemma_ascii_boundary(b, k);
    lemma_next_boundary(b, k);
    lemma_text_split(b, 0, k, n);
    assert(b.subrange(0, n) =~= b);
    let front = text_of(b, 0, k);
    let back = text_of(b, k, n);
    assert(x == front + back);
    assert(back[0] == b[k] as char);
    assert(x[front.len() as int] == back[0]);
}

/// Whether a byte is a given ASCII character.
pub open spec fn is_byte(x: u8, c: char) -> bool {
    x as int == c as int
}

/// A character that can stand in a bare word: none of the blanks, quotes and operators.
pub open spec fn bare_char(c: char) -> bool {
    &&& c != ' ' && c != '\t' && c != '\n' && c != '\u{c}'
    &&& c != '\'' && c != '"' && c != '`' && c != '\\' && c != '$'
    &&& c != '|' && c != '&' && c != ';' && c != '<' && c != '>' && c != '='
    &&& c != '(' && c != ')' && c != '{' && c != '}'
}

/// A character that stands for itself between double quotes.
pub open spec fn quotable_char(c: char) -> bool {
    c != '"' && c != '\\' && c != '$' && c != '`'
}

/// Which bytes make bare words, blanks, and text between double quotes: those of the characters
/// that do, and all bytes of characters beyond ASCII in words and quotes.
pub proof fn law_bytes_of_words_and_blanks(x: u8)
    ensures
        in_class(ByteClass::Literal, x) <==> x > 0x7f || bare_char(x as char),
        in_class(ByteClass::Blank, x) <==> is_byte(x, ' ') || is_byte(x, '\t') || is_byte(
            x,
            '\u{c}',
        ),
        in_class(ByteClass::Quoted, x) <==> x > 0x7f || quotable_char(x as char),
        in_class(ByteClass::Target, x) <==> x > 0x7f || bare_char(x as char) || is_byte(x, '\\')
            || is_byte(x, '='),
{
}

/// The bytes of a text whose characters belong to a class.
pub proof fn lemma_class_run(b: Seq<u8>, i: int, x: Seq<char>, class: ByteClass)
    requires
        says_at(b, i, x),
        forall|k: int| 0 <= k < x.len() ==> match class {
            ByteClass::Literal => bare_char(#[trigger] x[k]),
            ByteClass::Quoted => quotable_char(x[k]),
            ByteClass::Target => bare_char(x[k]),
            ByteClass::Blank => x[k] == ' ',
        },
    ensures
        forall|j: int| i <= j < i + width(x) ==> in_class(class, #[trigger] b[j]),
{
    assert forall|j: int| i <= j < i + width(x) implies in_class(class, #[trigger] b[j]) by {
        let y = b[j];
        assert(b.subrange(i, i + width(x))[j - i] == y);
        assert(encode_utf8(x)[j - i] == y);
        law_bytes_of_words_and_blanks(y);
        if y <= 0x7f {
            lemma_ascii_byte(x, j - i);
            let k = choose|k: int| 0 <= k < x.len() && x[k] == y as char;
            assert(x[k] == y as char);
        } else if class is Blank {
            lemma_blank_bytes(x, j - i);
        }
    }
}

/// Spaces are spaces in bytes too.
proof fn lemma_blank_bytes(x: Seq<char>, j: int)
    requires
        forall|k: int| 0 <= k < x.len() ==> #[trigger] x[k] == ' ',
        0 <= j < width(x),
    ensures
        encode_utf8(x)[j] <= 0x7f,
{
    is_ascii_chars_encode_utf8(x);
    assert(encode_utf8(x)[j] == x[j] as u8);
}

/// A character that a variable's name can begin with.
pub open spec fn name_first(c: char) -> bool {
    ||| 'a' <= c <= 'z'
    ||| 'A' <= c <= 'Z'
    ||| c == '_'
    ||| c > '\u{7f}' && unicode_alphabetic(c)
}

/// A character that a variable's name can go on with.
pub open spec fn name_rest(c: char) -> bool {
    ||| name_first(c)
    ||| '0' <= c <= '9'
    ||| c > '\u{7f}' && unicode_numeric(c)
}

/// The name of a variable.
pub open spec fn is_name(k: Seq<char>) -> bool {
    &&& k.len() > 0
    &&& name_first(k[0])
    &&& forall|i: int| 0 <= i < k.len() ==> name_rest(#[trigger] k[i])
}

/// Where a name ends that something else stands after.
proof fn lemma_name_ends(b: Seq<u8>, i: int, k: Seq<char>)
    requires
        valid_utf8(b),
        is_char_boundary(b, i),
        says_at(b, i, k),
        forall|m: int| 0 <= m < k.len() ==> name_rest(#[trigger] k[m]),
        i + width(k) < b.len() ==> !name_rest(char_at(b, i + width(k))),
    ensures
        name_end(b, i) == i + width(k),
    decreases k.len(),
{
    if k.len() == 0 {
        lemma_width(k);
    } else {
        lemma_says_first(b, i, k);
        assert(name_rest(k[0]));
        let rest = k.skip(1);
        assert forall|m: int| 0 <= m < rest.len() implies name_rest(#[trigger] rest[m]) by {
            assert(name_rest(k[m + 1]));
        }
        lemma_name_ends(b, char_end(b, i), rest);
    }
}

/// A name after a dollar sign ends where it ends.
proof fn lemma_dollar_name(b: Seq<u8>, i: int, k: Seq<char>)
    requires
        valid_utf8(b),
        is_char_boundary(b, i),
        says_at(b, i, k),
        is_name(k),
        i + width(k) < b.len() ==> !name_rest(char_at(b, i + width(k))),
    ensures
        expansion_end(b, i) == Ok::<int, Seq<char>>(i + width(k)),
{
    lemma_says_first(b, i, k);
    law_names_are_longest_runs(b, i);
    lemma_name_ends(b, i, k);
}

/// The end of a text between backticks that holds neither a backtick nor a backslash.
proof fn lemma_backtick_text(b: Seq<u8>, i: int, e: int)
    requires
        0 <= i <= e < b.len(),
        forall|j: int| i <= j < e ==> !is_byte(#[trigger] b[j], '`') && !is_byte(b[j], '\\'),
        is_byte(b[e], '`'),
    ensures
        backtick_end(b, i) == Some(e),
    decreases e - i,
{
    if i < e {
        lemma_backtick_text(b, i + 1, e);
    }
}

/// What a variable holds; the empty text where it was never set.
pub open spec fn held(vars: VarMap, k: Seq<char>) -> Seq<char> {
    if vars.contains_key(k) {
        vars[k]
    } else {
        Seq::empty()
    }
}

/// A text as it is written between double quotes: with a backslash before each character that
/// would mean something else.
pub open spec fn masked(t: Seq<char>) -> Seq<char>
    decreases t.len(),
{
    if t.len() == 0 {
        Seq::empty()
    } else if quotable_char(t[0]) {
        seq![t[0]] + masked(t.skip(1))
    } else {
        seq!['\\', t[0]] + masked(t.skip(1))
    }
}

/// One thing between double quotes.
pub enum Chunk {
    /// A text, whatever it is.
    Text(Seq<char>),
    /// A variable, by its name after a dollar sign.
    Name(Seq<char>),
    /// A variable, by its name between backticks.
    Back(Seq<char>),
}

/// How something between double quotes is written.
pub open spec fn chunk_text(c: Chunk) -> Seq<char> {
    match c {
        Chunk::Text(t) => masked(t),
        Chunk::Name(k) => seq!['$'] + k,
        Chunk::Back(k) => seq!['`'] + k + seq!['`'],
    }
}

/// What something between double quotes stands for.
pub open spec fn chunk_value(c: Chunk, vars: VarMap) -> Seq<char> {
    match c {
        Chunk::Text(t) => t,
        Chunk::Name(k) => held(vars, k),
        Chunk::Back(k) => held(vars, k),
    }
}

/// How all that stands between double quotes is written.
pub open spec fn chunks_text(cs: Seq<Chunk>) -> Seq<char>
    decreases cs.len(),
{
    if cs.len() == 0 {
        Seq::empty()
    } else {
        chunk_text(cs[0]) + chunks_text(cs.skip(1))
    }
}

/// What all that stands between double quotes stands for.
pub open spec fn chunks_value(cs: Seq<Chunk>, vars: VarMap) -> Seq<char>
    decreases cs.len(),
{
    if cs.len() == 0 {
        Seq::empty()
    } else {
        chunk_value(cs[0], vars) + chunks_value(cs.skip(1), vars)
    }
}

/// Neither a backtick nor a backslash.
pub open spec fn between_backticks(k: Seq<char>) -> bool {
    forall|i: int| 0 <= i < k.len() ==> #[trigger] k[i] != '`' && k[i] != '\\'
}

/// Whether things can stand between double quotes in this order: a text is not empty and not
/// broken in two, and a name after a dollar sign does not run into a character that would belong
/// to it.
pub open spec fn good_chunks(cs: Seq<Chunk>) -> bool
    decreases cs.len(),
{
    cs.len() > 0 ==> {
        &&& good_chunks(cs.skip(1))
        &&& match cs[0] {
            Chunk::Text(t) => t.len() > 0 && (cs.len() > 1 ==> !(cs[1] is Text)),
            Chunk::Name(k) => is_name(k) && (cs.len() > 1 ==> (cs[1] matches Chunk::Text(t)
                ==> !name_rest(t[0]))),
            Chunk::Back(k) => between_backticks(k),
        }
    }
}

/// How many characters at the beginning of a text stand for themselves between double quotes.
spec fn plain_run(t: Seq<char>) -> nat
    decreases t.len(),
{
    if t.len() > 0 && quotable_char(t[0]) {
        plain_run(t.skip(1)) + 1
    } else {
        0
    }
}

/// The characters at the beginning of a text that stand for themselves.
proof fn lemma_plain_run(t: Seq<char>)
    ensures
        plain_run(t) <= t.len(),
        forall|k: int| 0 <= k < plain_run(t) ==> quotable_char(#[trigger] t[k]),
        masked(t) == t.take(plain_run(t) as int) + masked(t.skip(plain_run(t) as int)),
        plain_run(t) < t.len() ==> !quotable_char(t[plain_run(t) as int]),
    decreases t.len(),
{
    if t.len() > 0 && quotable_char(t[0]) {
        let rest = t.skip(1);
        lemma_plain_run(rest);
        let n = plain_run(rest) as int;
        assert(rest.skip(n) =~= t.skip(n + 1));
        assert(seq![t[0]] + rest.take(n) =~= t.take(n + 1));
        assert(seq![t[0]] + (rest.take(n) + masked(rest.skip(n))) =~= t.take(n + 1) + masked(
            t.skip(n + 1),
        ));
        assert forall|k: int| 0 <= k < plain_run(t) implies quotable_char(#[trigger] t[k]) by {
            if k > 0 {
                assert(quotable_char(rest[k - 1]));
            }
        }
        if n + 1 < t.len() {
            assert(rest[n] == t[n + 1]);
        }
    } else {
        assert(t.skip(0) =~= t);
        assert(t.take(0) =~= Seq::empty());
        assert(masked(t) =~= t.take(0) + masked(t));
    }
}

/// What parts between double quotes read as, from the first one on.
pub proof fn law_quoted_parts_join(
    ps: Seq<TknSpanView>,
    qs: Seq<TknSpanView>,
    b: Seq<u8>,
    vars: VarMap,
)
    ensures
        dquote_value(Seq::empty(), b, vars) == Seq::<char>::empty(),
        ps.len() == 1 ==> dquote_value(ps, b, vars) == inner_value(ps[0], b, vars),
        dquote_value(ps + qs, b, vars) == dquote_value(ps, b, vars) + dquote_value(qs, b, vars),
    decreases qs.len(),
{
    reveal_with_fuel(dquote_value, 2);
    if ps.len() == 1 {
        assert(ps.drop_last() =~= Seq::empty());
        assert(dquote_value(ps, b, vars) =~= inner_value(ps[0], b, vars));
    }
    if qs.len() == 0 {
        assert(ps + qs =~= ps);
        assert(dquote_value(ps + qs, b, vars) =~= dquote_value(ps, b, vars) + dquote_value(
            qs,
            b,
            vars,
        ));
    } else {
        law_quoted_parts_join(ps, qs.drop_last(), b, vars);
        assert((ps + qs).drop_last() =~= ps + qs.drop_last());
        assert((ps + qs).last() == qs.last());
        assert(dquote_value(ps + qs, b, vars) =~= dquote_value(ps, b, vars) + dquote_value(
            qs,
            b,
            vars,
        ));
    }
}

/// What a backslash and a character after it read as between double quotes, and how that goes
/// together with what stands around it: the letters n, t and r give a line feed, a tab and a
/// carriage return, a backslash, double quote, backtick or dollar sign gives itself, and any
/// other character keeps its backslash.
pub proof fn law_escapes(c: char, t: Seq<char>)
    ensures
        c != '\\' ==> escaped(seq![c] + t) == seq![c] + escaped(t),
        escaped(seq!['\\', 'n'] + t) == seq!['\n'] + escaped(t),
        escaped(seq!['\\', 't'] + t) == seq!['\t'] + escaped(t),
        escaped(seq!['\\', 'r'] + t) == seq!['\r'] + escaped(t),
        c == '\\' || c == '"' || c == '`' || c == '$' ==> escaped(seq!['\\', c] + t) == seq![c]
            + escaped(t),
        c != 'n' && c != 't' && c != 'r' && c != '\\' && c != '"' && c != '`' && c != '$'
            ==> escaped(seq!['\\', c] + t) == seq!['\\', c] + escaped(t),
        escaped(seq!['\\']) == seq!['\\'],
        escaped(Seq::empty()) == Seq::<char>::empty(),
{
    assert((seq![c] + t).skip(1) =~= t);
    assert((seq!['\\', 'n'] + t).skip(2) =~= t);
    assert((seq!['\\', 't'] + t).skip(2) =~= t);
    assert((seq!['\\', 'r'] + t).skip(2) =~= t);
    assert((seq!['\\', c] + t).skip(2) =~= t);
}

/// Text between double quotes reads as the text that it was written for.
proof fn lemma_quoted_text(
    b: Seq<u8>,
    i: int,
    t: Seq<char>,
    qs: Seq<TknSpanView>,
    end: int,
) -> (ps: Seq<TknSpanView>)
    requires
        valid_utf8(b),
        is_char_boundary(b, i),
        says_at(b, i, masked(t)),
        i + width(masked(t)) < b.len(),
        !in_class(ByteClass::Quoted, b[i + width(masked(t))]),
        dquote(b, i + width(masked(t))) == Ok::<(Seq<TknSpanView>, int), Seq<char>>((qs, end)),
    ensures
        dquote(b, i) == Ok::<(Seq<TknSpanView>, int), Seq<char>>((ps + qs, end)),
        forall|vars: VarMap| #[trigger] dquote_value(ps, b, vars) == t,
        quoted_delimiter(ps, b) == t,
    decreases t.len(),
{
    let none = Seq::<TknSpanView>::empty();
    let e = i + width(masked(t));
    lemma_width(Seq::<char>::empty());
    if t.len() == 0 {
        assert(none + qs =~= qs);
        assert forall|vars: VarMap| #[trigger] dquote_value(none, b, vars) == t by {
            assert(dquote_value(none, b, vars) =~= t);
        }
        assert(quoted_delimiter(none, b) =~= t);
        none
    } else {
        lemma_plain_run(t);
        let m = plain_run(t) as int;
        let n: int = if m > 0 {
            m
        } else {
            1
        };
        let head = if m > 0 {
            t.take(m)
        } else {
            seq!['\\', t[0]]
        };
        let rest = t.skip(n);
        assert(masked(t) =~= head + masked(rest));
        lemma_says_join(b, i, head, masked(rest));
        let j = i + width(head);
        lemma_says_boundary(b, i, head);
        let p = TknSpanView { kind: TknView::Literal, start: i, end: j };
        assert(token_text(b, p) == head);
        if m > 0 {
            assert forall|k: int| 0 <= k < head.len() implies quotable_char(
                #[trigger] head[k],
            ) by {
                assert(quotable_char(t[k]));
            }
            lemma_class_run(b, i, head, ByteClass::Quoted);
            lemma_width(head);
            assert(in_class(ByteClass::Quoted, b[i]));
            if m < t.len() {
                assert(rest[0] == t[m]);
                assert(masked(rest) =~= seq!['\\'] + (seq![rest[0]] + masked(rest.skip(1))));
                lemma_says_join(b, j, seq!['\\'], seq![rest[0]] + masked(rest.skip(1)));
                lemma_says_ascii(b, j, '\\');
            } else {
                assert(rest =~= Seq::empty());
                assert(j == e);
            }
            law_bytes_of_words_and_blanks(b[j]);
            lemma_run_is(b, i, j, ByteClass::Quoted);
            law_bytes_of_words_and_blanks(b[i]);
            assert(dquote_part(b, i) == Ok::<TknSpanView, Seq<char>>(p));
            assert(!head.contains('\\'));
            law_escaping_keeps_plain_text(head);
        } else {
            assert(seq!['\\'] + seq![t[0]] =~= head);
            lemma_says_join(b, i, seq!['\\'], seq![t[0]]);
            lemma_says_ascii(b, i, '\\');
            lemma_says_ascii(b, i + 1, t[0]);
            lemma_ascii_boundary(b, i + 1);
            assert(dquote_part(b, i) == Ok::<TknSpanView, Seq<char>>(p));
            law_escapes(t[0], Seq::empty());
            assert(head + Seq::<char>::empty() =~= head);
            assert(escaped(head) =~= seq![t[0]]);
        }
        assert(seq![p] + none =~= seq![p]);
        let later = lemma_quoted_text(b, j, rest, qs, end);
        let ps = seq![p] + later;
        assert(b[i] != 0x22);
        assert(dquote(b, i) == Ok::<(Seq<TknSpanView>, int), Seq<char>>(
            (seq![p] + (later + qs), end),
        ));
        assert(seq![p] + (later + qs) =~= ps + qs);
        assert(escaped(head) + rest =~= t);
        assert forall|vars: VarMap| #[trigger] dquote_value(ps, b, vars) == t by {
            law_quoted_parts_join(seq![p], later, b, vars);
            assert(dquote_value(later, b, vars) == rest);
            assert(inner_value(p, b, vars) == escaped(head));
        }
        law_delimiter_parts_join(seq![p], later, b);
        ps
    }
}

/// What the parts of a quoted delimiter read as, from the first one on: literals with their
/// escapes replaced, and expansions as they stand.
pub proof fn law_delimiter_parts_join(ps: Seq<TknSpanView>, qs: Seq<TknSpanView>, b: Seq<u8>)
    ensures
        quoted_delimiter(Seq::empty(), b) == Seq::<char>::empty(),
        ps.len() == 1 && ps[0].kind is Literal ==> quoted_delimiter(ps, b) == escaped(
            token_text(b, ps[0]),
        ),
        ps.len() == 1 && ps[0].kind is Expansion ==> quoted_delimiter(ps, b) == token_text(
            b,
            ps[0],
        ),
        quoted_delimiter(ps + qs, b) == quoted_delimiter(ps, b) + quoted_delimiter(qs, b),
    decreases qs.len(),
{
    reveal_with_fuel(quoted_delimiter, 2);
    if ps.len() == 1 {
        assert(ps.drop_last() =~= Seq::empty());
        if ps[0].kind is Literal {
            assert(quoted_delimiter(ps, b) =~= escaped(token_text(b, ps[0])));
        } else {
            assert(quoted_delimiter(ps, b) =~= token_text(b, ps[0]));
        }
    }
    if qs.len() == 0 {
        assert(ps + qs =~= ps);
        assert(quoted_delimiter(ps + qs, b) =~= quoted_delimiter(ps, b) + quoted_delimiter(qs, b));
    } else {
        law_delimiter_parts_join(ps, qs.drop_last(), b);
        assert((ps + qs).drop_last() =~= ps + qs.drop_last());
        assert((ps + qs).last() == qs.last());
        assert(quoted_delimiter(ps + qs, b) =~= quoted_delimiter(ps, b) + quoted_delimiter(qs, b));
    }
}

/// What stands after something between double quotes does not belong to a name before it.
proof fn lemma_chunks_first(cs: Seq<Chunk>)
    requires
        good_chunks(cs),
        cs.len() > 0 ==> (cs[0] matches Chunk::Text(t) ==> !name_rest(t[0])),
    ensures
        (chunks_text(cs) + seq!['"']).len() > 0,
        !name_rest((chunks_text(cs) + seq!['"'])[0]),
{
    if cs.len() > 0 {
        let x = chunk_text(cs[0]);
        assert(x.len() > 0);
        assert((chunks_text(cs) + seq!['"'])[0] == x[0]);
    }
}

/// What stands between double quotes reads as what it stands for.
proof fn lemma_chunks(b: Seq<u8>, i: int, cs: Seq<Chunk>) -> (ps: Seq<TknSpanView>)
    requires
        valid_utf8(b),
        is_char_boundary(b, i),
        says_at(b, i, chunks_text(cs) + seq!['"']),
        good_chunks(cs),
    ensures
        dquote(b, i) == Ok::<(Seq<TknSpanView>, int), Seq<char>>(
            (ps, i + width(chunks_text(cs)) + 1),
        ),
        forall|vars: VarMap| #[trigger] dquote_value(ps, b, vars) == chunks_value(cs, vars),
    decreases cs.len(),
{
    let quote = seq!['"'];
    if cs.len() == 0 {
        let none = Seq::<TknSpanView>::empty();
        assert(chunks_text(cs) + quote =~= quote);
        lemma_width(chunks_text(cs));
        lemma_says_ascii(b, i, '"');
        assert forall|vars: VarMap| #[trigger] dquote_value(none, b, vars) == chunks_value(
            cs,
            vars,
        ) by {
            assert(dquote_value(none, b, vars) =~= chunks_value(cs, vars));
        }
        none
    } else {
        let x = chunk_text(cs[0]);
        let rest = cs.skip(1);
        let more = chunks_text(rest) + quote;
        assert(chunks_text(cs) + quote =~= x + more);
        lemma_says_join(b, i, x, more);
        lemma_says_join(b, i, x, chunks_text(rest));
        let j = i + width(x);
        lemma_says_boundary(b, i, x);
        let later = lemma_chunks(b, j, rest);
        let end = j + width(chunks_text(rest)) + 1;
        lemma_says_first(b, j, more);
        let ps = match cs[0] {
            Chunk::Text(t) => {
                assert(more[0] == '$' || more[0] == '`' || more[0] == '"') by {
                    if rest.len() > 0 {
                        assert(more[0] == chunk_text(rest[0])[0]);
                    } else {
                        assert(more =~= quote);
                    }
                }
                assert(seq![more[0]] + more.skip(1) =~= more);
                lemma_says_join(b, j, seq![more[0]], more.skip(1));
                lemma_says_ascii(b, j, more[0]);
                law_bytes_of_words_and_blanks(b[j]);
                let mine = lemma_quoted_text(b, i, t, later, end);
                let ps = mine + later;
                assert forall|vars: VarMap| #[trigger] dquote_value(ps, b, vars) == chunks_value(
                    cs,
                    vars,
                ) by {
                    law_quoted_parts_join(mine, later, b, vars);
                    assert(dquote_value(mine, b, vars) == t);
                    assert(dquote_value(later, b, vars) == chunks_value(rest, vars));
                }
                ps
            },
            Chunk::Name(k) => {
                lemma_chunks_first(rest);
                lemma_says_join(b, i, seq!['$'], k);
                lemma_says_ascii(b, i, '$');
                lemma_ascii_boundary(b, i);
                lemma_dollar_name(b, i + 1, k);
                let p = TknSpanView { kind: TknView::Expansion, start: i, end: j };
                assert(dquote_part(b, i) == Ok::<TknSpanView, Seq<char>>(p));
                let ps = seq![p] + later;
                assert forall|vars: VarMap| #[trigger] dquote_value(ps, b, vars) == chunks_value(
                    cs,
                    vars,
                ) by {
                    law_quoted_parts_join(seq![p], later, b, vars);
                    lemma_name_value(b, p, k, vars);
                    assert(dquote_value(later, b, vars) == chunks_value(rest, vars));
                }
                ps
            },
            Chunk::Back(k) => {
                lemma_back(b, i, k);
                let p = TknSpanView { kind: TknView::Expansion, start: i, end: j };
                assert(dquote_part(b, i) == Ok::<TknSpanView, Seq<char>>(p));
                let ps = seq![p] + later;
                assert forall|vars: VarMap| #[trigger] dquote_value(ps, b, vars) == chunks_value(
                    cs,
                    vars,
                ) by {
                    law_quoted_parts_join(seq![p], later, b, vars);
                    lemma_back_value(b, p, k, vars);
                    assert(dquote_value(later, b, vars) == chunks_value(rest, vars));
                }
                ps
            },
        };
        ps
    }
}

/// What a name after a dollar sign reads as.
proof fn lemma_name_value(b: Seq<u8>, p: TknSpanView, k: Seq<char>, vars: VarMap)
    requires
        token_text(b, p) == seq!['$'] + k,
        k.len() > 0,
        p.kind is Expansion,
    ensures
        inner_value(p, b, vars) == held(vars, k),
        part_value(p, b, vars) == held(vars, k),
{
    let x = seq!['$'] + k;
    assert(x.skip(1) =~= k);
}

/// What a name between backticks reads as.
proof fn lemma_back_value(b: Seq<u8>, p: TknSpanView, k: Seq<char>, vars: VarMap)
    requires
        token_text(b, p) == seq!['`'] + k + seq!['`'],
        p.kind is Expansion,
    ensures
        inner_value(p, b, vars) == held(vars, k),
        part_value(p, b, vars) == held(vars, k),
{
    let x = seq!['`'] + k + seq!['`'];
    assert(x.subrange(1, x.len() - 1) =~= k);
    assert(x.last() == '`');
}

/// A text between backticks ends at the second of them.
proof fn lemma_back(b: Seq<u8>, i: int, k: Seq<char>)
    requires
        says_at(b, i, seq!['`'] + k + seq!['`']),
        between_backticks(k),
    ensures
        i < b.len(),
        is_byte(b[i], '`'),
        backtick_end(b, i + 1) == Some(i + 1 + width(k)),
        width(seq!['`'] + k + seq!['`']) == width(k) + 2,
{
    let e = i + 1 + width(k);
    lemma_says_join(b, i, seq!['`'] + k, seq!['`']);
    lemma_says_join(b, i, seq!['`'], k);
    lemma_says_ascii(b, i, '`');
    lemma_says_ascii(b, e, '`');
    assert forall|j: int| i + 1 <= j < e implies !is_byte(#[trigger] b[j], '`') && !is_byte(
        b[j],
        '\\',
    ) by {
        let y = b[j];
        assert(b.subrange(i + 1, e)[j - i - 1] == y);
        if y <= 0x7f {
            lemma_ascii_byte(k, j - i - 1);
            let m = choose|m: int| 0 <= m < k.len() && k[m] == y as char;
            assert(k[m] == y as char);
        }
    }
    lemma_backtick_text(b, i + 1, e);
}

/// A part of a word.
pub enum Atom {
    /// Text without quotes.
    Bare(Seq<char>),
    /// Text between single quotes.
    Single(Seq<char>),
    /// Texts and variables between double quotes.
    Double(Seq<Chunk>),
    /// A variable, by its name after a dollar sign.
    Name(Seq<char>),
    /// A variable, by its name between backticks.
    Back(Seq<char>),
}

/// How a part of a word is written.
pub open spec fn atom_text(a: Atom) -> Seq<char> {
    match a {
        Atom::Bare(t) => t,
        Atom::Single(t) => seq!['\''] + t + seq!['\''],
        Atom::Double(cs) => seq!['"'] + (chunks_text(cs) + seq!['"']),
        Atom::Name(k) => seq!['$'] + k,
        Atom::Back(k) => seq!['`'] + k + seq!['`'],
    }
}

/// What a part of a word stands for.
pub open spec fn atom_value(a: Atom, vars: VarMap) -> Seq<char> {
    match a {
        Atom::Bare(t) => t,
        Atom::Single(t) => t,
        Atom::Double(cs) => chunks_value(cs, vars),
        Atom::Name(k) => held(vars, k),
        Atom::Back(k) => held(vars, k),
    }
}

/// How a word is written.
pub open spec fn word_text(w: Seq<Atom>) -> Seq<char>
    decreases w.len(),
{
    if w.len() == 0 {
        Seq::empty()
    } else {
        atom_text(w[0]) + word_text(w.skip(1))
    }
}

/// What a word stands for.
pub open spec fn spelled_value(w: Seq<Atom>, vars: VarMap) -> Seq<char>
    decreases w.len(),
{
    if w.len() == 0 {
        Seq::empty()
    } else {
        atom_value(w[0], vars) + spelled_value(w.skip(1), vars)
    }
}

/// Whether a part can stand in a word before `next`.
pub open spec fn good_atom(a: Atom, next: char) -> bool {
    match a {
        Atom::Bare(t) => {
            &&& t.len() > 0
            &&& forall|i: int| 0 <= i < t.len() ==> bare_char(#[trigger] t[i])
            &&& !bare_char(next)
        },
        Atom::Single(t) => forall|i: int| 0 <= i < t.len() ==> #[trigger] t[i] != '\'',
        Atom::Double(cs) => good_chunks(cs),
        Atom::Name(k) => is_name(k) && !name_rest(next),
        Atom::Back(k) => between_backticks(k),
    }
}

/// Whether parts can make a word that `after` stands after.
pub open spec fn good_word(w: Seq<Atom>, after: char) -> bool
    decreases w.len(),
{
    w.len() > 0 ==> {
        &&& good_word(w.skip(1), after)
        &&& good_atom(
            w[0],
            if w.len() > 1 {
                atom_text(w[1])[0]
            } else {
                after
            },
        )
    }
}

/// A character that ends a word.
pub open spec fn ends_word(c: char) -> bool {
    c == ' ' || c == '\t' || c == '\n' || c == ';' || c == '|' || c == '&' || c == '<' || c == '>'
        || c == '(' || c == ')' || c == '='
}

/// A part of a word is written with at least one character.
proof fn lemma_atom_text(a: Atom, next: char)
    requires
        good_atom(a, next),
    ensures
        atom_text(a).len() > 0,
        !is_gap(atom_text(a)[0]),
{
}

/// A blank.
pub open spec fn is_gap(c: char) -> bool {
    c == ' ' || c == '\t' || c == '\u{c}'
}

/// Whether a redirection operator finds a target at `i`.
pub open spec fn has_target(b: Seq<u8>, i: int) -> bool {
    !(target_at(b, i) is Bad)
}

/// A part of a word is one token, which reads as what the part stands for.
pub proof fn lemma_atom(b: Seq<u8>, i: int, a: Atom, y: Seq<char>, st: LexView) -> (t: TknSpanView)
    requires
        valid_utf8(b),
        is_char_boundary(b, i),
        says_at(b, i, atom_text(a) + y),
        y.len() > 0,
        good_atom(a, y[0]),
    ensures
        token_at(b, i, st) == (st, Some(t)),
        t.start == i,
        t.end == i + width(atom_text(a)),
        is_part(t.kind),
        token_text(b, t) == atom_text(a),
        forall|vars: VarMap| #[trigger] part_value(t, b, vars) == atom_value(a, vars),
        run_end(b, i, ByteClass::Blank) == i,
        has_target(b, i),
{
    reveal(token_at);
    let x = atom_text(a);
    let e = i + width(x);
    lemma_atom_text(a, y[0]);
    lemma_says_join(b, i, x, y);
    lemma_says_boundary(b, i, x);
    lemma_says_first(b, i, x);
    lemma_says_first(b, e, y);
    lemma_next_boundary(b, i);
    if x[0] <= '\u{7f}' {
        assert(seq![x[0]] + x.skip(1) =~= x);
        lemma_says_join(b, i, seq![x[0]], x.skip(1));
        lemma_says_ascii(b, i, x[0]);
    } else if b[i] <= 0x7f {
        lemma_ascii_boundary(b, i);
    }
    law_bytes_of_words_and_blanks(b[i]);
    lemma_run_end(b, i, ByteClass::Blank);
    match a {
        Atom::Bare(t) => {
            lemma_class_run(b, i, t, ByteClass::Literal);
            assert(seq![y[0]] + y.skip(1) =~= y);
            lemma_says_join(b, e, seq![y[0]], y.skip(1));
            lemma_says_ascii(b, e, y[0]);
            law_bytes_of_words_and_blanks(b[e]);
            lemma_run_is(b, i, e, ByteClass::Literal);
            let r = TknSpanView { kind: TknView::Literal, start: i, end: e };
            assert(bare_char(t[0]));
            r
        },
        Atom::Single(t) => {
            let q = seq!['\''];
            lemma_says_join(b, i, q + t, q);
            lemma_says_join(b, i, q, t);
            lemma_says_ascii(b, i, '\'');
            let j = i + 1 + width(t);
            lemma_says_ascii(b, j, '\'');
            assert forall|k: int| i + 1 <= k < j implies !is_byte(#[trigger] b[k], '\'') by {
                assert(b.subrange(i + 1, j)[k - i - 1] == b[k]);
                if b[k] <= 0x7f {
                    lemma_ascii_byte(t, k - i - 1);
                    let m = choose|m: int| 0 <= m < t.len() && t[m] == b[k] as char;
                    assert(t[m] == b[k] as char);
                }
            }
            lemma_find_byte(b, i + 1, 0x27);
            lemma_ascii_boundary(b, i);
            lemma_says_boundary(b, i + 1, t);
            let r = TknSpanView { kind: TknView::SingleQuote, start: i, end: e };
            r
        },
        Atom::Double(cs) => {
            lemma_says_join(b, i, seq!['"'], chunks_text(cs) + seq!['"']);
            lemma_says_join(b, i + 1, chunks_text(cs), seq!['"']);
            lemma_says_ascii(b, i, '"');
            lemma_ascii_boundary(b, i);
            let ps = lemma_chunks(b, i + 1, cs);
            let r = TknSpanView { kind: TknView::DoubleQuote(ps), start: i, end: e };
            r
        },
        Atom::Name(k) => {
            lemma_says_join(b, i, seq!['$'], k);
            lemma_says_ascii(b, i, '$');
            lemma_ascii_boundary(b, i);
            lemma_dollar_name(b, i + 1, k);
            let r = TknSpanView { kind: TknView::Expansion, start: i, end: e };
            assert forall|vars: VarMap| #[trigger] part_value(r, b, vars) == atom_value(
                a,
                vars,
            ) by {
                lemma_name_value(b, r, k, vars);
            }
            r
        },
        Atom::Back(k) => {
            lemma_back(b, i, k);
            let r = TknSpanView { kind: TknView::Expansion, start: i, end: e };
            assert forall|vars: VarMap| #[trigger] part_value(r, b, vars) == atom_value(
                a,
                vars,
            ) by {
                lemma_back_value(b, r, k, vars);
            }
            r
        },
    }
}

/// A word that begins with one part.
pub proof fn law_words_begin_with_their_parts(
    p: TknSpanView,
    ps: Seq<TknSpanView>,
    b: Seq<u8>,
    vars: VarMap,
)
    ensures
        word_value(Seq::empty(), b, vars) == Seq::<char>::empty(),
        word_value(seq![p] + ps, b, vars) == part_value(p, b, vars) + word_value(ps, b, vars),
{
    law_words_join(seq![p], ps, b, vars);
    reveal_with_fuel(word_value, 2);
    assert(seq![p].drop_last() =~= Seq::empty());
    assert(word_value(seq![p], b, vars) =~= part_value(p, b, vars));
}

/// Whether some tokens are the parts of a word that is spelled from `i` on.
pub open spec fn are_parts(ps: Seq<TknSpanView>, b: Seq<u8>, i: int, w: Seq<Atom>) -> bool {
    &&& ps.len() == w.len()
    &&& forall|k: int| 0 <= k < ps.len() ==> is_part((#[trigger] ps[k]).kind)
    &&& w.len() > 0 ==> ps[0].start == i && ps.last().end == i + width(word_text(w))
    &&& w.len() > 0 ==> token_text(b, ps[0]) == atom_text(w[0])
    &&& forall|vars: VarMap| #[trigger] word_value(ps, b, vars) == spelled_value(w, vars)
}

/// A word is split into its parts, and reads as what they stand for, one after the other:
/// whatever text stands between quotes, and whatever the variables hold.
pub proof fn law_words_read_as_they_are_spelled(
    b: Seq<u8>,
    i: int,
    w: Seq<Atom>,
    after: char,
    st: LexView,
    last: LexView,
    rest: Seq<TknSpanView>,
) -> (ps: Seq<TknSpanView>)
    requires
        valid_utf8(b),
        is_char_boundary(b, i),
        says_at(b, i, word_text(w) + seq![after]),
        ends_word(after),
        good_word(w, after),
        raw_tokens(b, i + width(word_text(w)), st) == (last, Some(rest)),
    ensures
        raw_tokens(b, i, st) == (last, Some(ps + rest)),
        are_parts(ps, b, i, w),
        w.len() > 0 ==> run_end(b, i, ByteClass::Blank) == i && has_target(b, i),
    decreases w.len(),
{
    if w.len() == 0 {
        let none = Seq::<TknSpanView>::empty();
        lemma_width(word_text(w));
        assert(none + rest =~= rest);
        assert forall|vars: VarMap| #[trigger] word_value(none, b, vars) == spelled_value(
            w,
            vars,
        ) by {
            assert(word_value(none, b, vars) =~= spelled_value(w, vars));
        }
        none
    } else {
        let x = atom_text(w[0]);
        let more = w.skip(1);
        let y = word_text(more) + seq![after];
        assert(word_text(w) + seq![after] =~= x + y);
        lemma_says_join(b, i, x, y);
        lemma_says_join(b, i, x, word_text(more));
        assert(good_word(more, after));
        if more.len() > 0 {
            lemma_atom_text(
                more[0],
                if more.len() > 1 {
                    atom_text(more[1])[0]
                } else {
                    after
                },
            );
            assert(y[0] == atom_text(w[1])[0]);
        } else {
            assert(y =~= seq![after]);
        }
        let t = lemma_atom(b, i, w[0], y, st);
        lemma_says_boundary(b, i, x);
        lemma_says_first(b, i, x);
        let later = law_words_read_as_they_are_spelled(b, t.end, more, after, st, last, rest);
        lemma_step(b, i, st, t, st, last, later + rest);
        let ps = seq![t] + later;
        assert(seq![t] + (later + rest) =~= ps + rest);
        assert forall|k: int| 0 <= k < ps.len() implies is_part((#[trigger] ps[k]).kind) by {
            if k > 0 {
                assert(ps[k] == later[k - 1]);
            }
        }
        if more.len() > 0 {
            assert(ps.last() == later.last());
        } else {
            lemma_width(word_text(more));
            assert(ps.last() == t);
        }
        assert forall|vars: VarMap| #[trigger] word_value(ps, b, vars) == spelled_value(
            w,
            vars,
        ) by {
            law_words_begin_with_their_parts(t, later, b, vars);
            assert(word_value(later, b, vars) == spelled_value(more, vars));
            assert(part_value(t, b, vars) == atom_value(w[0], vars));
        }
        ps
    }
}

/// Text between double quotes that is a delimiter reads as the text that it was written for.
pub proof fn lemma_quoted_target(b: Seq<u8>, i: int, t: Seq<char>)
    requires
        valid_utf8(b),
        is_char_boundary(b, i),
        says_at(b, i, masked(t) + seq!['"']),
    ensures
        dquote(b, i) matches Ok((ps, e)) && quoted_delimiter(ps, b) == t,
{
    let j = i + width(masked(t));
    lemma_says_join(b, i, masked(t), seq!['"']);
    lemma_says_ascii(b, j, '"');
    law_bytes_of_words_and_blanks(b[j]);
    let none = Seq::<TknSpanView>::empty();
    assert(dquote(b, j) == Ok::<(Seq<TknSpanView>, int), Seq<char>>((none, j + 1)));
    let ps = lemma_quoted_text(b, i, t, none, j + 1);
    assert(ps + none =~= ps);
}

/// What the parts of a word read as: bare text and text between single quotes as it stands,
/// without the quotes, and a variable as its value. Between double quotes text has its escapes
/// replaced, and a variable is its value there too, which nothing is replaced in.
pub proof fn law_parts_read_as_what_they_are(
    b: Seq<u8>,
    start: int,
    end: int,
    ps: Seq<TknSpanView>,
    vars: VarMap,
)
    ensures
        ({
            let text = text_of(b, start, end);
            let literal = TknSpanView { kind: TknView::Literal, start, end };
            let single = TknSpanView { kind: TknView::SingleQuote, start, end };
            let double = TknSpanView { kind: TknView::DoubleQuote(ps), start, end };
            let variable = TknSpanView { kind: TknView::Expansion, start, end };
            &&& part_value(literal, b, vars) == text
            &&& part_value(single, b, vars) == text_of(b, start + 1, end - 1)
            &&& part_value(double, b, vars) == dquote_value(ps, b, vars)
            &&& inner_value(literal, b, vars) == escaped(text)
            &&& inner_value(variable, b, vars) == part_value(variable, b, vars)
            &&& forall|k: Seq<char>|
                text == #[trigger] (seq!['$'] + k) && k.len() > 0 ==> part_value(variable, b, vars)
                    == held(vars, k)
            &&& forall|k: Seq<char>|
                text == #[trigger] (seq!['`'] + k + seq!['`']) ==> part_value(variable, b, vars)
                    == held(vars, k)
            &&& text == seq!['$'] ==> part_value(variable, b, vars) == seq!['$']
        }),
{
    let variable = TknSpanView { kind: TknView::Expansion, start, end };
    let text = text_of(b, start, end);
    assert forall|k: Seq<char>|
        text == #[trigger] (seq!['$'] + k) && k.len() > 0 implies part_value(variable, b, vars)
        == held(vars, k) by {
        lemma_name_value(b, variable, k, vars);
    }
    assert forall|k: Seq<char>| text == #[trigger] (seq!['`'] + k + seq!['`']) implies part_value(
        variable,
        b,
        vars,
    ) == held(vars, k) by {
        lemma_back_value(b, variable, k, vars);
    }
    reveal_strlit("$");
    assert("$"@ =~= seq!['$']);
}

/// What stands between double quotes: a backslash with the character after it, a variable, or
/// the longest run of text without either; and nothing after the closing quote.
pub proof fn law_double_quotes_hold_parts(b: Seq<u8>, i: int)
    requires
        0 <= i <= b.len(),
    ensures
        i == b.len() ==> dquote(b, i) == Err::<(Seq<TknSpanView>, int), Seq<char>>("\""@),
        i < b.len() && is_byte(b[i], '"') ==> dquote(b, i) == Ok::<
            (Seq<TknSpanView>, int),
            Seq<char>,
        >((Seq::empty(), i + 1)),
        i < b.len() && !is_byte(b[i], '"') ==> dquote(b, i) == match dquote_part(b, i) {
            Ok(p) => match dquote(b, p.end) {
                Ok((rest, end)) => Ok((seq![p] + rest, end)),
                Err(c) => Err(c),
            },
            Err(c) => Err(c),
        },
        i < b.len() && is_byte(b[i], '\\') ==> dquote_part(b, i) == Ok::<TknSpanView, Seq<char>>(
            TknSpanView {
                kind: TknView::Literal,
                start: i,
                end: if i + 1 < b.len() {
                    char_end(b, i + 1)
                } else {
                    i + 1
                },
            },
        ),
        i < b.len() && is_byte(b[i], '$') ==> dquote_part(b, i) == match expansion_end(b, i + 1) {
            Ok(end) => Ok(TknSpanView { kind: TknView::Expansion, start: i, end }),
            Err(c) => Err(c),
        },
        i < b.len() && is_byte(b[i], '`') ==> dquote_part(b, i) == match backtick_end(b, i + 1) {
            Some(j) => Ok(TknSpanView { kind: TknView::Expansion, start: i, end: j + 1 }),
            None => Err("`"@),
        },
        i < b.len() && (b[i] > 0x7f || quotable_char(b[i] as char)) ==> (dquote_part(
            b,
            i,
        ) matches Ok(p) && {
            &&& p.kind is Literal && p.start == i && i < p.end <= b.len()
            &&& forall|k: int|
                i <= k < p.end ==> (#[trigger] b[k]) > 0x7f || quotable_char(b[k] as char)
            &&& p.end < b.len() ==> b[p.end] <= 0x7f && !quotable_char(b[p.end] as char)
        }),
{
    if i < b.len() {
        lemma_run_end(b, i, ByteClass::Quoted);
        law_bytes_of_words_and_blanks(b[i]);
        let e = run_end(b, i, ByteClass::Quoted);
        if in_class(ByteClass::Quoted, b[i]) {
            lemma_run_end(b, i + 1, ByteClass::Quoted);
        }
        assert forall|k: int| i <= k < e implies (#[trigger] b[k]) > 0x7f || quotable_char(
            b[k] as char,
        ) by {
            law_bytes_of_words_and_blanks(b[k]);
        }
        if e < b.len() {
            law_bytes_of_words_and_blanks(b[e]);
        }
    }
}

} // verus!
