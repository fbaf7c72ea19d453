//! How a command buffer is split, said in characters: operators, redirections, expansions,
//! here-documents, and when a command is complete.

use crate::laws::line_end;
use crate::lexer::{
    bodies_at, dangling, grouped, is_part, lexed, open_parens, raw_tokens, token_at, word_of,
    LexView,
};
use crate::lines::{lemma_group_other, lemma_run_is};
use crate::scan::{
    backtick_end, delimiter_line, dquote, expansion_end, find_byte, in_class, lemma_find_byte,
    lemma_run_end, paren_end, run_end, ByteClass,
};
use crate::spelling::{
    atom_text, bare_char, good_atom, is_byte, law_bytes_of_words_and_blanks, lemma_atom,
    lemma_class_run, lemma_quoted_target, lemma_says_ascii, lemma_says_boundary, lemma_says_first,
    lemma_says_join, lemma_width, masked, name_first, says_at, width, Atom,
};
use crate::text::{char_at, is_blank_char, lemma_ascii_boundary, text_of, trim_end};
use crate::token::{token_text, TknSpanView, TknView};
use vstd::prelude::*;
use vstd::string::*;
use vstd::utf8::*;

verus! {

broadcast use vstd::seq::group_seq_axioms;

/// Which characters are operators: `|` and `||`, `&&`, `;`, `=`, `(` where a `)` follows
/// somewhere, `)`, a lone backslash, and a line feed where no here-document is due. A brace is
/// refused.
pub proof fn law_operators(b: Seq<u8>, i: int, st: LexView)
    requires
        0 <= i < b.len(),
    ensures
        is_byte(b[i], '|') && !(i + 1 < b.len() && b[i + 1] == b[i]) ==> token_at(b, i, st) == (
            st,
            Some(TknSpanView { kind: TknView::Pipe, start: i, end: i + 1 }),
        ),
        is_byte(b[i], '|') && i + 1 < b.len() && b[i + 1] == b[i] ==> token_at(b, i, st) == (
            st,
            Some(TknSpanView { kind: TknView::CmdOr, start: i, end: i + 2 }),
        ),
        is_byte(b[i], '&') && !(i + 1 < b.len() && b[i + 1] == b[i]) ==> token_at(b, i, st) == (
            st,
            Some(TknSpanView { kind: TknView::And, start: i, end: i + 1 }),
        ),
        is_byte(b[i], '&') && i + 1 < b.len() && b[i + 1] == b[i] ==> token_at(b, i, st) == (
            st,
            Some(TknSpanView { kind: TknView::CmdAnd, start: i, end: i + 2 }),
        ),
        is_byte(b[i], ';') ==> token_at(b, i, st) == (
            st,
            Some(TknSpanView { kind: TknView::Semicolon, start: i, end: i + 1 }),
        ),
        is_byte(b[i], '=') ==> token_at(b, i, st) == (
            st,
            Some(TknSpanView { kind: TknView::Assign, start: i, end: i + 1 }),
        ),
        is_byte(b[i], '\\') ==> token_at(b, i, st) == (
            st,
            Some(TknSpanView { kind: TknView::Backslash, start: i, end: i + 1 }),
        ),
        is_byte(b[i], ')') ==> token_at(b, i, st) == (
            st,
            Some(TknSpanView { kind: TknView::RParen, start: i, end: i + 1 }),
        ),
        is_byte(b[i], '(') && (exists|k: int| i < k < b.len() && is_byte(#[trigger] b[k], ')'))
            ==> token_at(b, i, st) == (
            st,
            Some(TknSpanView { kind: TknView::LParen, start: i, end: i + 1 }),
        ),
        is_byte(b[i], '\n') && st.delimiters.len() == 0 ==> token_at(b, i, st) == (
            st,
            Some(TknSpanView { kind: TknView::Newline, start: i, end: i + 1 }),
        ),
        is_byte(b[i], '{') || is_byte(b[i], '}') ==> token_at(b, i, st) == (
            st,
            None::<TknSpanView>,
        ),
{
    reveal(token_at);
    law_bytes_of_words_and_blanks(b[i]);
    lemma_find_byte(b, i + 1, 0x29);
}

/// Bare text and blanks: the longest run of their characters is one token.
pub proof fn law_runs_are_one_token(b: Seq<u8>, i: int, e: int, st: LexView)
    requires
        0 <= i < e <= b.len(),
    ensures
        (forall|k: int| i <= k < e ==> (#[trigger] b[k]) > 0x7f || bare_char(b[k] as char)) && (e
            < b.len() ==> b[e] <= 0x7f && !bare_char(b[e] as char)) ==> token_at(b, i, st) == (
            st,
            Some(TknSpanView { kind: TknView::Literal, start: i, end: e }),
        ),
        (forall|k: int|
            i <= k < e ==> is_byte(#[trigger] b[k], ' ') || is_byte(b[k], '\t') || is_byte(
                b[k],
                '\u{c}',
            )) && (e < b.len() ==> !is_byte(b[e], ' ') && !is_byte(b[e], '\t') && !is_byte(
            b[e],
            '\u{c}',
        )) ==> token_at(b, i, st) == (
            st,
            Some(TknSpanView { kind: TknView::Space, start: i, end: e }),
        ),
{
    reveal(token_at);
    assert forall|k: int| i <= k <= e && k < b.len() implies {
        &&& in_class(ByteClass::Literal, #[trigger] b[k]) <==> b[k] > 0x7f || bare_char(
            b[k] as char,
        )
        &&& in_class(ByteClass::Blank, b[k]) <==> is_byte(b[k], ' ') || is_byte(b[k], '\t')
            || is_byte(b[k], '\u{c}')
    } by {
        law_bytes_of_words_and_blanks(b[k]);
    }
    if (forall|k: int| i <= k < e ==> in_class(ByteClass::Literal, #[trigger] b[k])) && (e < b.len()
        ==> !in_class(ByteClass::Literal, b[e])) {
        lemma_run_is(b, i, e, ByteClass::Literal);
        assert(in_class(ByteClass::Literal, b[i]));
    }
    if (forall|k: int| i <= k < e ==> in_class(ByteClass::Blank, #[trigger] b[k])) && (e < b.len()
        ==> !in_class(ByteClass::Blank, b[e])) {
        lemma_run_is(b, i, e, ByteClass::Blank);
        assert(in_class(ByteClass::Blank, b[i]));
    }
}

/// A character that no file and no delimiter begins with.
pub open spec fn is_no_target(x: u8) -> bool {
    ||| is_byte(x, '\n')
    ||| is_byte(x, '|')
    ||| is_byte(x, '&')
    ||| is_byte(x, ';')
    ||| is_byte(x, '<')
    ||| is_byte(x, '>')
    ||| is_byte(x, '(')
    ||| is_byte(x, ')')
    ||| is_byte(x, '{')
    ||| is_byte(x, '}')
}

/// Whether only blanks stand between two places, and none at the second.
pub open spec fn blanks_to(b: Seq<u8>, i: int, k: int) -> bool {
    &&& 0 <= i <= k <= b.len()
    &&& forall|m: int|
        i <= m < k ==> is_byte(#[trigger] b[m], ' ') || is_byte(b[m], '\t') || is_byte(
            b[m],
            '\u{c}',
        )
    &&& k < b.len() ==> !is_byte(b[k], ' ') && !is_byte(b[k], '\t') && !is_byte(b[k], '\u{c}')
}

/// Where blanks end.
proof fn lemma_blanks_to(b: Seq<u8>, i: int, k: int)
    requires
        blanks_to(b, i, k),
    ensures
        run_end(b, i, ByteClass::Blank) == k,
{
    assert forall|m: int| i <= m < k implies in_class(ByteClass::Blank, b[m]) by {
        law_bytes_of_words_and_blanks(b[m]);
    }
    if k < b.len() {
        law_bytes_of_words_and_blanks(b[k]);
    }
    lemma_run_is(b, i, k, ByteClass::Blank);
}

/// A redirection wants a target: where the command ends after it, or an operator follows, blanks
/// aside, the command is refused and the user is told which redirection lacks one. Bare text is a
/// target.
pub proof fn law_redirections_want_a_target(b: Seq<u8>, i: int, k: int, st: LexView)
    requires
        0 <= i < b.len(),
        is_byte(b[i], '<') || is_byte(b[i], '>'),
        ({
            let n: int = if i + 1 < b.len() && b[i + 1] == b[i] {
                2
            } else {
                1
            };
            blanks_to(b, i + n, k)
        }),
    ensures
        ({
            let twice = i + 1 < b.len() && b[i + 1] == b[i];
            let operator = if is_byte(b[i], '<') {
                if twice {
                    "<<"@
                } else {
                    "<"@
                }
            } else if twice {
                ">>"@
            } else {
                ">"@
            };
            let kind = if is_byte(b[i], '<') {
                if twice {
                    TknView::Heredoc
                } else {
                    TknView::RedirectIn
                }
            } else if twice {
                TknView::RedirectAppend
            } else {
                TknView::RedirectOut
            };
            let n: int = if twice {
                2
            } else {
                1
            };
            &&& k == b.len() || is_no_target(b[k]) ==> token_at(b, i, st) == (
                LexView { syntax_err: Some("not a valid delimiter for "@ + operator), ..st },
                None::<TknSpanView>,
            )
            &&& k < b.len() && (b[k] > 0x7f || bare_char(b[k] as char)) ==> token_at(
                b,
                i,
                st,
            ).1 == Some(TknSpanView { kind, start: i, end: i + n })
            &&& !(kind is Heredoc) && token_at(b, i, st).1 is Some ==> token_at(b, i, st) == (
                st,
                Some(TknSpanView { kind, start: i, end: i + n }),
            )
        }),
{
    reveal(token_at);
    law_bytes_of_words_and_blanks(b[i]);
    let n: int = if i + 1 < b.len() && b[i + 1] == b[i] {
        2
    } else {
        1
    };
    lemma_blanks_to(b, i + n, k);
    if k < b.len() {
        law_bytes_of_words_and_blanks(b[k]);
    }
}

/// The delimiter of a here-document is what its word reads as: bare text as it stands, text
/// between single quotes without them, and text between double quotes as it was written for,
/// whatever it holds. It is due after those that are already.
pub proof fn law_delimiters_are_read_without_quotes(
    b: Seq<u8>,
    i: int,
    k: int,
    t: Seq<char>,
    y: Seq<char>,
    st: LexView,
)
    requires
        valid_utf8(b),
        0 <= i,
        i + 1 < b.len(),
        is_byte(b[i], '<'),
        is_byte(b[i + 1], '<'),
        blanks_to(b, i + 2, k),
        k < b.len(),
        is_char_boundary(b, k),
        y.len() > 0,
        t.len() > 0,
    ensures
        ({
            let due = (
                LexView { delimiters: st.delimiters.push(t), ..st },
                Some(TknSpanView { kind: TknView::Heredoc, start: i, end: i + 2 }),
            );
            &&& says_at(b, k, t + y) && good_atom(Atom::Bare(t), y[0]) && y[0] != '=' && y[0]
                != '\\' ==> token_at(b, i, st) == due
            &&& says_at(b, k, seq!['\''] + t + seq!['\''] + y) && good_atom(Atom::Single(t), y[0])
                ==> token_at(b, i, st) == due
            &&& says_at(b, k, seq!['"'] + (masked(t) + seq!['"'])) ==> token_at(b, i, st) == due
        }),
{
    reveal(token_at);
    law_bytes_of_words_and_blanks(b[i]);
    lemma_blanks_to(b, i + 2, k);
    law_bytes_of_words_and_blanks(b[k]);
    if says_at(b, k, t + y) && good_atom(Atom::Bare(t), y[0]) && y[0] != '=' && y[0] != '\\' {
        lemma_says_join(b, k, t, y);
        let e = k + width(t);
        lemma_says_boundary(b, k, t);
        lemma_says_first(b, k, t);
        lemma_width(t);
        lemma_class_run(b, k, t, ByteClass::Target);
        assert(seq![y[0]] + y.skip(1) =~= y);
        lemma_says_join(b, e, seq![y[0]], y.skip(1));
        lemma_says_ascii(b, e, y[0]);
        law_bytes_of_words_and_blanks(b[e]);
        lemma_run_is(b, k, e, ByteClass::Target);
        assert(in_class(ByteClass::Target, b[k]));
    }
    if says_at(b, k, seq!['\''] + t + seq!['\''] + y) && good_atom(Atom::Single(t), y[0]) {
        let q = seq!['\''];
        assert(atom_text(Atom::Single(t)) + y =~= q + t + q + y);
        let r = lemma_atom(b, k, Atom::Single(t), y, st);
        lemma_says_join(b, k, q + t + q, y);
        lemma_says_join(b, k, q + t, q);
        lemma_says_join(b, k, q, t);
        lemma_says_ascii(b, k, '\'');
        lemma_ascii_boundary(b, k);
        lemma_says_boundary(b, k + 1, t);
        law_bytes_of_words_and_blanks(b[k]);
        lemma_says_ascii(b, k + 1 + width(t), '\'');
    }
    if says_at(b, k, seq!['"'] + (masked(t) + seq!['"'])) {
        lemma_says_join(b, k, seq!['"'], masked(t) + seq!['"']);
        lemma_says_ascii(b, k, '"');
        lemma_ascii_boundary(b, k);
        lemma_quoted_target(b, k + 1, t);
    }
}

/// A delimiter that is a variable stands for itself, and a bare one goes on over backslashes and
/// equals signs. A quote or a variable that is not closed is named, here and after every other
/// redirection.
pub proof fn law_targets_that_are_variables_or_open(b: Seq<u8>, i: int, k: int, st: LexView)
    requires
        0 <= i < b.len(),
        is_byte(b[i], '<') || is_byte(b[i], '>'),
        ({
            let n: int = if i + 1 < b.len() && b[i + 1] == b[i] {
                2
            } else {
                1
            };
            blanks_to(b, i + n, k)
        }),
        k < b.len(),
    ensures
        ({
            let heredoc = is_byte(b[i], '<') && i + 1 < b.len() && b[i + 1] == b[i];
            let after = token_at(b, i, st).0;
            let found = token_at(b, i, st).1;
            &&& is_byte(b[k], '$') ==> match expansion_end(b, k + 1) {
                Ok(e) => found is Some && (heredoc ==> after.delimiters == st.delimiters.push(
                    text_of(b, k, e),
                )),
                Err(c) => found is None && after.expected_closer == Some(c) && after.syntax_err
                    is Some,
            }
            &&& is_byte(b[k], '`') ==> match backtick_end(b, k + 1) {
                Some(e) => found is Some && (heredoc ==> after.delimiters == st.delimiters.push(
                    text_of(b, k, e + 1),
                )),
                None => found is None && after.expected_closer == Some("`"@) && after.syntax_err
                    is Some,
            }
            &&& is_byte(b[k], '\'') && (forall|m: int|
                k < m < b.len() ==> !is_byte(#[trigger] b[m], '\'')) ==> found is None
                && after.expected_closer == Some("'"@) && after.syntax_err is Some
            &&& is_byte(b[k], '"') ==> match dquote(b, k + 1) {
                Ok(_) => found is Some,
                Err(c) => found is None && after.expected_closer == Some(c) && after.syntax_err
                    is Some,
            }
            &&& heredoc && (b[k] > 0x7f || bare_char(b[k] as char) || is_byte(b[k], '\\')
                || is_byte(b[k], '=')) ==> found is Some && (exists|e: int|
                k < e <= b.len() && after.delimiters == st.delimiters.push(
                    #[trigger] text_of(b, k, e),
                ) && (forall|m: int|
                    k <= m < e ==> (#[trigger] b[m]) > 0x7f || bare_char(b[m] as char) || is_byte(
                        b[m],
                        '\\',
                    ) || is_byte(b[m], '=')) && (e < b.len() ==> !(b[e] > 0x7f || bare_char(
                    b[e] as char,
                ) || is_byte(b[e], '\\') || is_byte(b[e], '='))))
        }),
{
    reveal(token_at);
    law_bytes_of_words_and_blanks(b[i]);
    let n: int = if i + 1 < b.len() && b[i + 1] == b[i] {
        2
    } else {
        1
    };
    lemma_blanks_to(b, i + n, k);
    law_bytes_of_words_and_blanks(b[k]);
    lemma_find_byte(b, k + 1, 0x27);
    lemma_run_end(b, k, ByteClass::Target);
    let e = run_end(b, k, ByteClass::Target);
    if in_class(ByteClass::Target, b[k]) {
        lemma_run_end(b, k + 1, ByteClass::Target);
        assert forall|m: int| k <= m < e implies (#[trigger] b[m]) > 0x7f || bare_char(b[m] as char)
            || is_byte(b[m], '\\') || is_byte(b[m], '=') by {
            law_bytes_of_words_and_blanks(b[m]);
        }
        if e < b.len() {
            law_bytes_of_words_and_blanks(b[e]);
        }
        if is_byte(b[i], '<') && n == 2 {
            assert(token_at(b, i, st).0.delimiters == st.delimiters.push(text_of(b, k, e)));
        }
    }
}

/// How many parentheses are open, those that were before aside, after the bytes from `i` to `k`.
pub open spec fn nesting(b: Seq<u8>, i: int, k: int) -> int
    decreases k - i,
{
    if k <= i {
        0
    } else {
        nesting(b, i, k - 1) + (if is_byte(b[k - 1], '(') {
            1int
        } else if is_byte(b[k - 1], ')') {
            -1int
        } else {
            0int
        })
    }
}

/// Nesting from the front.
proof fn lemma_nesting(b: Seq<u8>, i: int, k: int)
    requires
        i < k,
    ensures
        nesting(b, i, k) == nesting(b, i + 1, k) + (if is_byte(b[i], '(') {
            1int
        } else if is_byte(b[i], ')') {
            -1int
        } else {
            0int
        }),
    decreases k - i,
{
    if k > i + 1 {
        lemma_nesting(b, i, k - 1);
    } else {
        reveal_with_fuel(nesting, 2);
    }
}

/// The parenthesis that closes an expansion is the first after which fewer are open than before.
pub proof fn law_parentheses_match(b: Seq<u8>, i: int, depth: nat)
    requires
        0 <= i <= b.len(),
        depth > 0,
    ensures
        match paren_end(b, i, depth) {
            Some(j) => {
                &&& i <= j < b.len()
                &&& is_byte(b[j], ')')
                &&& depth + nesting(b, i, j + 1) == 0
                &&& forall|k: int| i <= k <= j ==> depth + #[trigger] nesting(b, i, k) > 0
            },
            None => forall|k: int| i <= k <= b.len() ==> depth + #[trigger] nesting(b, i, k) > 0,
        },
    decreases b.len() - i,
{
    if i < b.len() {
        let d: int = if is_byte(b[i], '(') {
            depth as int + 1
        } else if is_byte(b[i], ')') {
            depth - 1
        } else {
            depth as int
        };
        lemma_nesting(b, i, i + 1);
        if d > 0 {
            law_parentheses_match(b, i + 1, d as nat);
            assert(paren_end(b, i, depth) == paren_end(b, i + 1, d as nat));
            match paren_end(b, i + 1, d as nat) {
                Some(j) => {
                    lemma_nesting(b, i, j + 1);
                    assert forall|k: int| i <= k <= j implies depth + #[trigger] nesting(b, i, k)
                        > 0 by {
                        if k > i {
                            lemma_nesting(b, i, k);
                            assert(d + nesting(b, i + 1, k) > 0);
                        }
                    }
                },
                None => {
                    assert forall|k: int| i <= k <= b.len() implies depth + #[trigger] nesting(
                        b,
                        i,
                        k,
                    ) > 0 by {
                        if k > i {
                            lemma_nesting(b, i, k);
                            assert(d + nesting(b, i + 1, k) > 0);
                        }
                    }
                },
            }
        } else {
            assert(paren_end(b, i, depth) == Some(i));
        }
    }
}

/// Where an expansion ends that is no name: `${` at the first `}` and `$(` at the parenthesis
/// that matches; `$?`, `$*`, `$@`, `$#`, `$$` and a digit after that one character; any other
/// dollar sign stands alone. What is missing is named.
pub proof fn law_expansions_end(b: Seq<u8>, i: int)
    requires
        valid_utf8(b),
        0 <= i <= b.len(),
        is_char_boundary(b, i),
    ensures
        i == b.len() ==> expansion_end(b, i) == Ok::<int, Seq<char>>(i),
        i < b.len() && is_byte(b[i], '{') ==> match expansion_end(b, i) {
            Ok(e) => {
                &&& i < e <= b.len()
                &&& is_byte(b[e - 1], '}')
                &&& forall|k: int| i <= k < e - 1 ==> !is_byte(#[trigger] b[k], '}')
            },
            Err(c) => {
                &&& c == "}"@
                &&& forall|k: int| i <= k < b.len() ==> !is_byte(#[trigger] b[k], '}')
            },
        },
        i < b.len() && is_byte(b[i], '(') ==> match expansion_end(b, i) {
            Ok(e) => {
                &&& i < e <= b.len()
                &&& nesting(b, i, e) == 0
                &&& forall|k: int| i < k < e ==> #[trigger] nesting(b, i, k) > 0
            },
            Err(c) => {
                &&& c == "$)"@
                &&& forall|k: int| i < k <= b.len() ==> #[trigger] nesting(b, i, k) > 0
            },
        },
        i < b.len() && (is_byte(b[i], '?') || is_byte(b[i], '*') || is_byte(b[i], '@') || is_byte(
            b[i],
            '#',
        ) || is_byte(b[i], '$') || '0' as int <= b[i] as int <= '9' as int) ==> expansion_end(b, i)
            == Ok::<int, Seq<char>>(i + 1),
        i < b.len() && !name_first(char_at(b, i)) && !is_byte(b[i], '{') && !is_byte(b[i], '(')
            && !is_byte(b[i], '?') && !is_byte(b[i], '*') && !is_byte(b[i], '@') && !is_byte(
            b[i],
            '#',
        ) && !is_byte(b[i], '$') && !('0' as int <= b[i] as int <= '9' as int) ==> expansion_end(
            b,
            i,
        ) == Ok::<int, Seq<char>>(i),
{
    if i < b.len() {
        lemma_find_byte(b, i, 0x7d);
        if b[i] <= 0x7f {
            lemma_ascii_boundary(b, i);
        }
        if is_byte(b[i], '(') {
            law_parentheses_match(b, i + 1, 1);
            match paren_end(b, i + 1, 1) {
                Some(j) => {
                    lemma_nesting(b, i, j + 1);
                    assert forall|k: int| i < k < j + 1 implies #[trigger] nesting(b, i, k) > 0 by {
                        lemma_nesting(b, i, k);
                        assert(1 + nesting(b, i + 1, k) > 0);
                    }
                },
                None => {
                    assert forall|k: int| i < k <= b.len() implies #[trigger] nesting(b, i, k)
                        > 0 by {
                        lemma_nesting(b, i, k);
                        assert(1 + nesting(b, i + 1, k) > 0);
                    }
                },
            }
        }
    }
}

/// Text between backticks ends at the first backtick that no backslash stands before; a backslash
/// takes the character after it along. Without an end there is none.
pub proof fn law_backticks_end(b: Seq<u8>, i: int)
    requires
        0 <= i,
    ensures
        i >= b.len() ==> backtick_end(b, i) is None,
        i < b.len() && is_byte(b[i], '`') ==> backtick_end(b, i) == Some(i),
        i < b.len() && is_byte(b[i], '\\') ==> backtick_end(b, i) == if i + 1 < b.len() {
            backtick_end(b, i + 2)
        } else {
            None
        },
        i < b.len() && !is_byte(b[i], '`') && !is_byte(b[i], '\\') ==> backtick_end(b, i)
            == backtick_end(b, i + 1),
{
}

/// A variable and a quoted text are one token each, and name what is missing where they are not
/// closed. A line end takes the here-documents along that are due.
pub proof fn law_what_is_closed_is_one_token(b: Seq<u8>, i: int, st: LexView)
    requires
        0 <= i < b.len(),
    ensures
        is_byte(b[i], '$') ==> token_at(b, i, st) == match expansion_end(b, i + 1) {
            Ok(e) => (st, Some(TknSpanView { kind: TknView::Expansion, start: i, end: e })),
            Err(c) => (LexView { expected_closer: Some(c), ..st }, None),
        },
        is_byte(b[i], '`') ==> token_at(b, i, st) == match backtick_end(b, i + 1) {
            Some(j) => (st, Some(TknSpanView { kind: TknView::Expansion, start: i, end: j + 1 })),
            None => (LexView { expected_closer: Some("`"@), ..st }, None),
        },
        is_byte(b[i], '"') ==> token_at(b, i, st) == match dquote(b, i + 1) {
            Ok((ps, end)) => (
                st,
                Some(TknSpanView { kind: TknView::DoubleQuote(ps), start: i, end }),
            ),
            Err(c) => (LexView { expected_closer: Some(c), ..st }, None),
        },
        is_byte(b[i], '\'') ==> forall|j: int|
            i < j < b.len() && is_byte(#[trigger] b[j], '\'') && (forall|k: int|
                i < k < j ==> !is_byte(#[trigger] b[k], '\'')) ==> token_at(b, i, st) == (
                st,
                Some(TknSpanView { kind: TknView::SingleQuote, start: i, end: j + 1 }),
            ),
        is_byte(b[i], '\n') ==> token_at(b, i, st) == match bodies_at(b, i + 1, st) {
            (after, Some(end)) => (
                after,
                Some(TknSpanView { kind: TknView::Newline, start: i, end }),
            ),
            (after, None) => (after, None),
        },
{
    reveal(token_at);
    law_bytes_of_words_and_blanks(b[i]);
    lemma_find_byte(b, i + 1, 0x27);
}

/// Tokens are found one after the other, up to the end of the text or to the first that cannot be
/// read.
pub proof fn law_tokens_follow_one_another(b: Seq<u8>, i: int, st: LexView)
    requires
        0 <= i <= b.len(),
    ensures
        i == b.len() ==> raw_tokens(b, i, st) == (st, Some(Seq::<TknSpanView>::empty())),
        i < b.len() ==> match token_at(b, i, st) {
            (after, None) => raw_tokens(b, i, st) == (after, None::<Seq<TknSpanView>>),
            (after, Some(t)) => match raw_tokens(b, t.end, after) {
                (last, None) => raw_tokens(b, i, st) == (last, None::<Seq<TknSpanView>>),
                (last, Some(rest)) => raw_tokens(b, i, st) == (last, Some(seq![t] + rest)),
            },
        },
{
}

/// Parts that touch make one word, and no other token is changed: parts before a token become
/// the word before it.
pub proof fn law_parts_that_touch_make_one_word(
    parts: Seq<TknSpanView>,
    t: TknSpanView,
    rest: Seq<TknSpanView>,
)
    requires
        forall|k: int|
            0 <= k < parts.len() ==> (#[trigger] parts[k]).kind is Literal || parts[k].kind
                is SingleQuote || parts[k].kind is DoubleQuote || parts[k].kind is Expansion,
        !(t.kind is Literal || t.kind is SingleQuote || t.kind is DoubleQuote || t.kind
            is Expansion),
    ensures
        ({
            let none = Seq::<TknSpanView>::empty();
            let word = TknSpanView {
                kind: TknView::Word(parts),
                start: parts[0].start,
                end: parts.last().end,
            };
            &&& grouped(none, none) == none
            &&& grouped(seq![t] + rest, none) == seq![t] + grouped(rest, none)
            &&& parts.len() > 0 ==> grouped(parts, none) == seq![word]
            &&& parts.len() > 0 ==> grouped(parts + (seq![t] + rest), none) == seq![word, t]
                + grouped(rest, none)
        }),
{
    let none = Seq::<TknSpanView>::empty();
    assert(word_of(none) =~= none);
    lemma_group_other(t, rest, none);
    lemma_group_other(t, rest, parts);
    assert(none + seq![t] + grouped(rest, none) =~= seq![t] + grouped(rest, none));
    lemma_parts_grouped(parts, seq![t] + rest, none);
    lemma_parts_grouped(parts, none, none);
    assert(none + parts =~= parts);
    assert(parts + none =~= parts);
    if parts.len() > 0 {
        let word = TknSpanView {
            kind: TknView::Word(parts),
            start: parts[0].start,
            end: parts.last().end,
        };
        assert(word_of(parts) + seq![t] + grouped(rest, none) =~= seq![word, t] + grouped(
            rest,
            none,
        ));
    }
}

/// Grouping parts that stand together.
pub proof fn lemma_parts_grouped(
    parts: Seq<TknSpanView>,
    more: Seq<TknSpanView>,
    open: Seq<TknSpanView>,
)
    requires
        forall|k: int| 0 <= k < parts.len() ==> is_part((#[trigger] parts[k]).kind),
    ensures
        grouped(parts + more, open) == grouped(more, open + parts),
    decreases parts.len(),
{
    if parts.len() == 0 {
        assert(parts + more =~= more);
        assert(open + parts =~= open);
    } else {
        let rest = parts.skip(1);
        assert((parts + more).skip(1) =~= rest + more);
        assert((parts + more)[0] == parts[0]);
        assert(is_part(parts[0].kind));
        assert forall|k: int| 0 <= k < rest.len() implies is_part((#[trigger] rest[k]).kind) by {
            assert(is_part(parts[k + 1].kind));
        }
        lemma_parts_grouped(rest, more, open.push(parts[0]));
        assert(open.push(parts[0]) + rest =~= open + parts);
    }
}

/// A command wants more exactly if its last token, spaces and line ends aside, is `|`, `||`, `&&`
/// or a backslash.
pub proof fn law_what_wants_more(ts: Seq<TknSpanView>, t: TknSpanView)
    ensures
        dangling(Seq::empty()) is None,
        t.kind is Space || t.kind is Newline ==> dangling(ts.push(t)) == dangling(ts),
        t.kind is Pipe || t.kind is CmdOr || t.kind is CmdAnd || t.kind is Backslash ==> dangling(
            ts.push(t),
        ) == Some(t),
        !(t.kind is Space || t.kind is Newline || t.kind is Pipe || t.kind is CmdOr || t.kind
            is CmdAnd || t.kind is Backslash) ==> dangling(ts.push(t)) is None,
{
    assert(ts.push(t).drop_last() =~= ts);
    assert(ts.push(t).last() == t);
}

/// Parentheses are counted: an opening one makes one more open, a closing one makes one fewer
/// open where there is one, and no other token changes that.
pub proof fn law_parentheses_are_counted(ts: Seq<TknSpanView>, t: TknSpanView)
    ensures
        open_parens(Seq::empty()) == 0,
        t.kind is LParen ==> open_parens(ts.push(t)) == open_parens(ts) + 1,
        t.kind is RParen && open_parens(ts) > 0 ==> open_parens(ts.push(t)) == open_parens(ts) - 1,
        t.kind is RParen && open_parens(ts) == 0 ==> open_parens(ts.push(t)) == 0,
        !(t.kind is LParen || t.kind is RParen) ==> open_parens(ts.push(t)) == open_parens(ts),
{
    assert(ts.push(t).drop_last() =~= ts);
    assert(ts.push(t).last() == t);
}

/// A command buffer is split exactly if every token can be read, it does not end with something
/// that wants more, no here-document is due and no parenthesis is open. Then its tokens are those
/// that were found, its here-documents are the texts that were found for them, in their order,
/// and the state says nothing else.
pub proof fn law_complete_commands_are_split(b: Seq<u8>, st: LexView)
    ensures
        match raw_tokens(b, 0, st) {
            (last, None) => lexed(b, st) == (
                last,
                None::<(Seq<TknSpanView>, Seq<Seq<char>>)>,
            ),
            (last, Some(raw)) => {
                let ts = grouped(raw, Seq::empty());
                &&& dangling(ts) is None && last.delimiters.len() == 0 && open_parens(ts) == 0
                    ==> lexed(b, st).0 == last && (lexed(b, st).1 matches Some((found, docs))
                    && found == ts && docs.len() == last.heredocs.len() && forall|k: int|
                    0 <= k < docs.len() ==> #[trigger] docs[k] == text_of(
                        b,
                        last.heredocs[k].0,
                        last.heredocs[k].1,
                    ))
                &&& dangling(ts) is Some || last.delimiters.len() > 0 || open_parens(ts) > 0
                    ==> lexed(b, st).1 is None
                &&& dangling(ts) matches Some(t) ==> lexed(b, st).0 == (LexView {
                    continuation_for: Some(token_text(b, t)),
                    ..last
                })
                &&& dangling(ts) is None && last.delimiters.len() > 0 ==> lexed(b, st).0
                    == (LexView { expected_closer: Some(last.delimiters[0]), ..last })
                &&& dangling(ts) is None && last.delimiters.len() == 0 && open_parens(ts) > 0
                    ==> lexed(b, st).0 == (LexView { expected_closer: Some(")"@), ..last })
            },
        },
{
}

/// The here-documents that are due are found one after the other, from the line after the command
/// on: each from where the one before it has ended to the line of its delimiter. Where one has no
/// end its delimiter is named.
pub proof fn law_heredocs_are_found_in_turn(b: Seq<u8>, i: int, st: LexView)
    ensures
        st.delimiters.len() == 0 ==> bodies_at(b, i, st) == (st, Some(i)),
        st.delimiters.len() > 0 ==> match delimiter_line(b, i, st.delimiters[0]) {
            Some((end, next)) => bodies_at(b, i, st) == bodies_at(
                b,
                next,
                LexView {
                    delimiters: st.delimiters.skip(1),
                    heredocs: st.heredocs.push((i, end)),
                    ..st
                },
            ),
            None => bodies_at(b, i, st).1 is None && bodies_at(b, i, st).0.expected_closer == Some(
                st.delimiters[0],
            ),
        },
{
}

/// Where no line reads as a delimiter, blank space at its end aside, the here-document has no
/// end; a line is complete only with its line feed.
pub proof fn law_a_missing_delimiter_is_not_found(b: Seq<u8>, i: int, d: Seq<char>)
    requires
        0 <= i <= b.len(),
        delimiter_line(b, i, d) is None,
    ensures
        forall|m: int|
            i <= m < b.len() && (m == i || b[m - 1] == 0x0a) && (exists|k: int|
                m <= k < b.len() && #[trigger] b[k] == 0x0a) ==> trim_end(
                text_of(b, m, #[trigger] line_end(b, m)),
            ) != d,
    decreases b.len() - i,
{
    lemma_find_byte(b, i, 0x0a);
    if let Some(j) = find_byte(b, i, 0x0a) {
        law_a_missing_delimiter_is_not_found(b, j + 1, d);
        assert forall|m: int|
            i <= m < b.len() && (m == i || b[m - 1] == 0x0a) && (exists|k: int|
                m <= k < b.len() && #[trigger] b[k] == 0x0a) implies trim_end(
            text_of(b, m, #[trigger] line_end(b, m)),
        ) != d by {
            if m > i {
                assert(m >= j + 1);
            }
        }
    }
}

/// Blank space at the end of a text is taken off, all of it and nothing else.
pub proof fn law_blank_space_is_taken_off_the_end(s: Seq<char>, c: char)
    ensures
        trim_end(Seq::empty()) == Seq::<char>::empty(),
        is_blank_char(c) ==> trim_end(s.push(c)) == trim_end(s),
        !is_blank_char(c) ==> trim_end(s.push(c)) == s.push(c),
{
    assert(s.push(c).drop_last() =~= s);
    assert(s.push(c).last() == c);
}

} // verus!
