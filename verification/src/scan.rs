//! Finding where things end: runs of bytes, quotes, expansions, redirect targets and the
//! bodies of here-documents.

use crate::ascii::{
    AMPERSAND, AT, BACKSLASH, BACKTICK, BAR, DIGIT_NINE, DIGIT_ZERO, DOLLAR, DOUBLE_QUOTE, EQUALS,
    FORM_FEED, GREATER, HASH, LEFT_BRACE, LEFT_PAREN, LESS, LINE_FEED, QUESTION, RIGHT_BRACE,
    RIGHT_PAREN, SEMICOLON, SINGLE_QUOTE, SPACE, STAR, TAB,
};
use crate::text::{
    char_at, char_end, good_span, is_letter, is_letter_or_digit, lemma_ascii_boundary,
    lemma_next_boundary, lemma_span_valid, lemma_str_bytes, lemma_text_split, name_continue,
    name_start, read_char, read_char_end, slice_str, text_of, trim_end, trimmed_eq,
};
use crate::token::{spans_view, wf_inner, wf_inners, Tkn, TknSpan, TknSpanView, TknView};
use vstd::prelude::*;
use vstd::string::*;
use vstd::utf8::*;

verus! {

/// The classes of bytes that run together.
#[derive(Clone, Copy)]
pub enum ByteClass {
    /// What a bare literal is made of.
    Literal,
    /// Space, tab and form feed.
    Blank,
    /// What the bare target of a redirection is made of.
    Target,
    /// What stands for itself inside double quotes.
    Quoted,
}

/// A byte that ends a bare word wherever it stands.
pub open spec fn is_meta(x: u8) -> bool {
    ||| x == SPACE
    ||| x == BACKTICK
    ||| x == DOUBLE_QUOTE
    ||| x == SINGLE_QUOTE
    ||| x == TAB
    ||| x == LINE_FEED
    ||| x == FORM_FEED
    ||| x == BAR
    ||| x == AMPERSAND
    ||| x == SEMICOLON
    ||| x == LESS
    ||| x == GREATER
    ||| x == LEFT_PAREN
    ||| x == RIGHT_PAREN
    ||| x == LEFT_BRACE
    ||| x == RIGHT_BRACE
    ||| x == DOLLAR
}

/// Whether a byte belongs to a class.
pub open spec fn in_class(class: ByteClass, x: u8) -> bool {
    match class {
        ByteClass::Literal => !is_meta(x) && x != BACKSLASH && x != EQUALS,
        ByteClass::Blank => x == SPACE || x == TAB || x == FORM_FEED,
        ByteClass::Target => !is_meta(x),
        ByteClass::Quoted => x != DOUBLE_QUOTE && x != BACKSLASH && x != DOLLAR && x != BACKTICK,
    }
}

/// Whether a byte belongs to a class.
pub fn has_class(class: ByteClass, x: u8) -> (r: bool)
    ensures
        r == in_class(class, x),
{
    let meta = x == SPACE || x == BACKTICK || x == DOUBLE_QUOTE || x == SINGLE_QUOTE || x == TAB
        || x == LINE_FEED || x == FORM_FEED || x == BAR || x == AMPERSAND || x == SEMICOLON
        || x == LESS || x == GREATER || x == LEFT_PAREN || x == RIGHT_PAREN || x == LEFT_BRACE
        || x == RIGHT_BRACE || x == DOLLAR;
    match class {
        ByteClass::Literal => !meta && x != BACKSLASH && x != EQUALS,
        ByteClass::Blank => x == SPACE || x == TAB || x == FORM_FEED,
        ByteClass::Target => !meta,
        ByteClass::Quoted => x != DOUBLE_QUOTE && x != BACKSLASH && x != DOLLAR && x != BACKTICK,
    }
}

/// Where the run of bytes of a class that begins at `i` ends.
pub open spec fn run_end(b: Seq<u8>, i: int, class: ByteClass) -> int
    decreases b.len() - i,
{
    if 0 <= i < b.len() && in_class(class, b[i]) {
        run_end(b, i + 1, class)
    } else {
        i
    }
}

/// A run stays in the text, is made of its class, and ends between characters.
pub proof fn lemma_run_end(b: Seq<u8>, i: int, class: ByteClass)
    requires
        0 <= i <= b.len(),
    ensures
        i <= run_end(b, i, class) <= b.len(),
        forall|k: int| i <= k < run_end(b, i, class) ==> in_class(class, #[trigger] b[k]),
        run_end(b, i, class) < b.len() ==> !in_class(class, b[run_end(b, i, class)]),
        valid_utf8(b) && is_char_boundary(b, i) ==> is_char_boundary(b, run_end(b, i, class)),
    decreases b.len() - i,
{
    if i < b.len() && in_class(class, b[i]) {
        lemma_run_end(b, i + 1, class);
        let r = run_end(b, i, class);
        if valid_utf8(b) && is_char_boundary(b, i) {
            if r == b.len() {
                is_char_boundary_start_end_of_seq(b);
            } else if b[r] <= 0x7f {
                lemma_ascii_boundary(b, r);
            } else {
                lemma_ascii_boundary(b, i);
            }
        }
    }
}

/// Where the run of bytes of a class that begins at `i` ends.
pub fn find_run_end(bytes: &[u8], i: usize, class: ByteClass) -> (r: usize)
    requires
        i <= bytes@.len(),
    ensures
        r == run_end(bytes@, i as int, class),
        i <= r <= bytes@.len(),
{
    let mut j: usize = i;
    while j < bytes.len() && has_class(class, bytes[j])
        invariant
            i <= j <= bytes@.len(),
            run_end(bytes@, i as int, class) == run_end(bytes@, j as int, class),
        decreases bytes@.len() - j,
    {
        j += 1;
    }
    j
}

/// The first place at or after `i` where the byte `c` stands.
pub open spec fn find_byte(b: Seq<u8>, i: int, c: u8) -> Option<int>
    decreases b.len() - i,
{
    if 0 <= i < b.len() {
        if b[i] == c {
            Some(i)
        } else {
            find_byte(b, i + 1, c)
        }
    } else {
        None
    }
}

/// What [`find_byte`] finds is the first such byte.
pub proof fn lemma_find_byte(b: Seq<u8>, i: int, c: u8)
    requires
        0 <= i <= b.len(),
    ensures
        find_byte(b, i, c) matches Some(j) ==> i <= j < b.len() && b[j] == c && (forall|k: int|
            i <= k < j ==> #[trigger] b[k] != c),
        find_byte(b, i, c) is None ==> (forall|k: int| i <= k < b.len() ==> #[trigger] b[k] != c),
    decreases b.len() - i,
{
    if i < b.len() && b[i] != c {
        lemma_find_byte(b, i + 1, c);
    }
}

/// The first place at or after `i` where the byte `c` stands.
pub fn position_of(bytes: &[u8], i: usize, c: u8) -> (r: Option<usize>)
    requires
        i <= bytes@.len(),
    ensures
        match r {
            Some(j) => find_byte(bytes@, i as int, c) == Some(j as int) && i <= j < bytes@.len(),
            None => find_byte(bytes@, i as int, c) is None,
        },
{
    let mut j: usize = i;
    while j < bytes.len()
        invariant
            i <= j <= bytes@.len(),
            find_byte(bytes@, i as int, c) == find_byte(bytes@, j as int, c),
        decreases bytes@.len() - j,
    {
        if bytes[j] == c {
            return Some(j);
        }
        j += 1;
    }
    None
}

/// The place of the backtick that ends a substitution whose text begins at `i`. A backslash
/// takes its special meaning from the byte after it.
pub open spec fn backtick_end(b: Seq<u8>, i: int) -> Option<int>
    decreases b.len() - i,
{
    if 0 <= i < b.len() {
        if b[i] == BACKTICK {
            Some(i)
        } else if b[i] != BACKSLASH {
            backtick_end(b, i + 1)
        } else if i + 1 < b.len() {
            backtick_end(b, i + 2)
        } else {
            None
        }
    } else {
        None
    }
}

/// The end of a substitution is a backtick inside the text.
pub proof fn lemma_backtick_end(b: Seq<u8>, i: int)
    requires
        0 <= i,
    ensures
        backtick_end(b, i) matches Some(j) ==> i <= j < b.len() && b[j] == BACKTICK,
    decreases b.len() - i,
{
    if i < b.len() {
        lemma_backtick_end(b, i + 1);
        if i + 1 < b.len() {
            lemma_backtick_end(b, i + 2);
        }
    }
}

/// The place of the backtick that ends a substitution whose text begins at `i`.
pub fn backtick(bytes: &[u8], i: usize) -> (r: Option<usize>)
    requires
        i <= bytes@.len(),
    ensures
        match r {
            Some(j) => backtick_end(bytes@, i as int) == Some(j as int) && i <= j < bytes@.len(),
            None => backtick_end(bytes@, i as int) is None,
        },
{
    let mut j: usize = i;
    while j < bytes.len()
        invariant
            i <= j <= bytes@.len(),
            backtick_end(bytes@, i as int) == backtick_end(bytes@, j as int),
        decreases bytes@.len() - j,
    {
        if bytes[j] == BACKTICK {
            return Some(j);
        }
        if bytes[j] == BACKSLASH {
            if bytes.len() - j < 2 {
                return None;
            }
            j += 2;
        } else {
            j += 1;
        }
    }
    None
}

/// The place of the parenthesis that closes the last of `depth` open ones.
pub open spec fn paren_end(b: Seq<u8>, i: int, depth: nat) -> Option<int>
    decreases b.len() - i,
{
    if 0 <= i < b.len() {
        if b[i] == LEFT_PAREN {
            paren_end(b, i + 1, depth + 1)
        } else if b[i] == RIGHT_PAREN {
            if depth <= 1 {
                Some(i)
            } else {
                paren_end(b, i + 1, (depth - 1) as nat)
            }
        } else {
            paren_end(b, i + 1, depth)
        }
    } else {
        None
    }
}

/// What closes the parentheses is a parenthesis inside the text.
pub proof fn lemma_paren_end(b: Seq<u8>, i: int, depth: nat)
    requires
        0 <= i,
    ensures
        paren_end(b, i, depth) matches Some(j) ==> i <= j < b.len() && b[j] == RIGHT_PAREN,
    decreases b.len() - i,
{
    if i < b.len() {
        lemma_paren_end(b, i + 1, depth);
        lemma_paren_end(b, i + 1, depth + 1);
        if depth > 1 {
            lemma_paren_end(b, i + 1, (depth - 1) as nat);
        }
    }
}

/// The place of the parenthesis that closes one that was opened just before `i`.
fn closing_paren(bytes: &[u8], i: usize) -> (r: Option<usize>)
    requires
        1 <= i <= bytes@.len(),
    ensures
        match r {
            Some(j) => paren_end(bytes@, i as int, 1) == Some(j as int) && i <= j < bytes@.len(),
            None => paren_end(bytes@, i as int, 1) is None,
        },
{
    let mut depth: usize = 1;
    let mut j: usize = i;
    while j < bytes.len()
        invariant
            1 <= i <= j <= bytes@.len(),
            1 <= depth <= j - i + 1,
            paren_end(bytes@, i as int, 1) == paren_end(bytes@, j as int, depth as nat),
        decreases bytes@.len() - j,
    {
        if bytes[j] == LEFT_PAREN {
            depth += 1;
        } else if bytes[j] == RIGHT_PAREN {
            depth -= 1;
            if depth == 0 {
                return Some(j);
            }
        }
        j += 1;
    }
    None
}

/// A character that can stand in a name after its first one.
pub open spec fn is_name_char(c: char) -> bool {
    is_letter_or_digit(c) || c == '_'
}

/// Where the name ends whose next character would begin at `i`.
pub open spec fn name_end(b: Seq<u8>, i: int) -> int
    decreases b.len() - i,
{
    if 0 <= i < b.len() && is_name_char(char_at(b, i)) {
        name_end(b, char_end(b, i))
    } else {
        i
    }
}

/// A name stays in the text and ends between characters.
pub proof fn lemma_name_end(b: Seq<u8>, i: int)
    requires
        0 <= i <= b.len(),
    ensures
        i <= name_end(b, i) <= b.len(),
        valid_utf8(b) && is_char_boundary(b, i) ==> is_char_boundary(b, name_end(b, i)),
    decreases b.len() - i,
{
    if i < b.len() && is_name_char(char_at(b, i)) {
        lemma_name_end(b, char_end(b, i));
        if valid_utf8(b) && is_char_boundary(b, i) {
            lemma_next_boundary(b, i);
        }
    }
}

/// Where the name ends whose next character would begin at `i`.
fn find_name_end(cmd_buf: &str, i: usize) -> (r: usize)
    requires
        i <= cmd_buf.spec_bytes().len(),
        is_char_boundary(cmd_buf.spec_bytes(), i as int),
    ensures
        r == name_end(cmd_buf.spec_bytes(), i as int),
        i <= r <= cmd_buf.spec_bytes().len(),
{
    let bytes = cmd_buf.as_bytes();
    let ghost b = cmd_buf.spec_bytes();
    proof {
        lemma_str_bytes(cmd_buf);
    }
    let mut j: usize = i;
    while j < bytes.len() && name_continue(read_char(cmd_buf, j))
        invariant
            bytes@ == b,
            b == cmd_buf.spec_bytes(),
            valid_utf8(b),
            i <= j <= b.len(),
            is_char_boundary(b, j as int),
            name_end(b, i as int) == name_end(b, j as int),
        decreases b.len() - j,
    {
        proof {
            lemma_next_boundary(b, j as int);
        }
        j = read_char_end(bytes, j);
    }
    j
}

/// A character that is a variable's name all by itself.
pub open spec fn is_special_name(x: u8) -> bool {
    x == QUESTION || x == STAR || x == AT || x == HASH || x == DOLLAR || (DIGIT_ZERO <= x
        <= DIGIT_NINE)
}

/// Where the expansion ends whose dollar sign stands just before `i`, or the text that is
/// missing to close it.
pub open spec fn expansion_end(b: Seq<u8>, i: int) -> Result<int, Seq<char>> {
    if i >= b.len() {
        Ok(i)
    } else if b[i] == LEFT_BRACE {
        match find_byte(b, i, RIGHT_BRACE) {
            Some(j) => Ok(j + 1),
            None => Err("}"@),
        }
    } else if b[i] == LEFT_PAREN {
        match paren_end(b, i + 1, 1) {
            Some(j) => Ok(j + 1),
            None => Err("$)"@),
        }
    } else if is_letter(char_at(b, i)) || char_at(b, i) == '_' {
        Ok(name_end(b, char_end(b, i)))
    } else if is_special_name(b[i]) {
        Ok(i + 1)
    } else {
        Ok(i)
    }
}

/// An expansion stays in the text and ends between characters.
pub proof fn lemma_expansion_end(b: Seq<u8>, i: int)
    requires
        0 <= i <= b.len(),
    ensures
        expansion_end(b, i) matches Ok(e) ==> i <= e <= b.len(),
        valid_utf8(b) && is_char_boundary(b, i) ==> (expansion_end(b, i) matches Ok(e)
            ==> is_char_boundary(b, e)),
{
    if i < b.len() {
        lemma_find_byte(b, i, RIGHT_BRACE);
        lemma_paren_end(b, i + 1, 1);
        if b[i] != LEFT_BRACE && b[i] != LEFT_PAREN && (is_letter(char_at(b, i)) || char_at(b, i)
            == '_') {
            lemma_name_end(b, char_end(b, i));
        }
        if valid_utf8(b) && is_char_boundary(b, i) {
            lemma_next_boundary(b, i);
            if let Some(j) = find_byte(b, i, RIGHT_BRACE) {
                lemma_ascii_boundary(b, j);
            }
            if let Some(j) = paren_end(b, i + 1, 1) {
                lemma_ascii_boundary(b, j);
            }
            if is_special_name(b[i]) {
                lemma_ascii_boundary(b, i);
            }
        }
    }
}

/// The text of a name is made of the characters of names.
proof fn lemma_name_text(b: Seq<u8>, i: int)
    requires
        valid_utf8(b),
        0 <= i <= b.len(),
        is_char_boundary(b, i),
    ensures
        name_end(b, i) < b.len() ==> !is_name_char(char_at(b, name_end(b, i))),
        forall|k: int|
            0 <= k < text_of(b, i, name_end(b, i)).len() ==> is_name_char(
                #[trigger] text_of(b, i, name_end(b, i))[k],
            ),
    decreases b.len() - i,
{
    lemma_name_end(b, i);
    let e = name_end(b, i);
    if i < b.len() && is_name_char(char_at(b, i)) {
        let j = char_end(b, i);
        lemma_next_boundary(b, i);
        is_char_boundary_start_end_of_seq(b);
        lemma_name_end(b, j);
        lemma_name_text(b, j);
        lemma_text_split(b, i, j, e);
        lemma_text_split(b, i, j, b.len() as int);
        let first = text_of(b, i, j);
        let rest = text_of(b, j, b.len() as int);
        assert(first =~= seq![char_at(b, i)]) by {
            let whole = text_of(b, i, b.len() as int);
            let one = seq![char_at(b, i)];
            assert(whole == first + rest);
            assert(whole == one + rest);
            assert((first + rest).len() == first.len() + rest.len());
            assert((one + rest).len() == one.len() + rest.len());
            assert(first[0] == (first + rest)[0]);
            assert(one[0] == (one + rest)[0]);
        }
    } else {
        assert(b.subrange(i, e) =~= Seq::empty());
    }
}

/// A name after a dollar sign, whether it begins within ASCII or beyond it, is the longest run of
/// letters, digits and underscores that begins there.
pub proof fn law_names_are_longest_runs(b: Seq<u8>, i: int)
    requires
        valid_utf8(b),
        0 <= i < b.len(),
        is_char_boundary(b, i),
        is_letter(char_at(b, i)) || char_at(b, i) == '_',
    ensures
        expansion_end(b, i) == Ok::<int, Seq<char>>(name_end(b, i)),
        i < name_end(b, i) <= b.len(),
        forall|k: int|
            0 <= k < text_of(b, i, name_end(b, i)).len() ==> is_name_char(
                #[trigger] text_of(b, i, name_end(b, i))[k],
            ),
        name_end(b, i) < b.len() ==> !is_name_char(char_at(b, name_end(b, i))),
{
    if b[i] <= 0x7f {
        lemma_ascii_boundary(b, i);
    }
    lemma_next_boundary(b, i);
    lemma_name_end(b, char_end(b, i));
    lemma_name_text(b, i);
}

/// Where the expansion ends whose dollar sign stands just before `i`: after `${name}`,
/// `$(text)`, `$name` or a special name, and at `i` itself where the dollar sign stands alone.
pub fn parse_expansion(cmd_buf: &str, i: usize) -> (r: Result<usize, &'static str>)
    requires
        i <= cmd_buf.spec_bytes().len(),
        is_char_boundary(cmd_buf.spec_bytes(), i as int),
    ensures
        match r {
            Ok(e) => expansion_end(cmd_buf.spec_bytes(), i as int) == Ok::<int, Seq<char>>(
                e as int,
            ) && i <= e <= cmd_buf.spec_bytes().len(),
            Err(c) => expansion_end(cmd_buf.spec_bytes(), i as int) == Err::<int, Seq<char>>(c@),
        },
{
    let bytes = cmd_buf.as_bytes();
    let ghost b = cmd_buf.spec_bytes();
    proof {
        lemma_str_bytes(cmd_buf);
        lemma_expansion_end(b, i as int);
    }
    if i >= bytes.len() {
        return Ok(i);
    }
    proof {
        lemma_next_boundary(b, i as int);
        if b[i as int] <= 0x7f {
            lemma_ascii_boundary(b, i as int);
        }
    }
    if bytes[i] == LEFT_BRACE {
        return match position_of(bytes, i, RIGHT_BRACE) {
            Some(j) => Ok(j + 1),
            None => Err("}"),
        };
    }
    if bytes[i] == LEFT_PAREN {
        return match closing_paren(bytes, i + 1) {
            Some(j) => Ok(j + 1),
            None => Err("$)"),
        };
    }
    if name_start(read_char(cmd_buf, i)) {
        return Ok(find_name_end(cmd_buf, read_char_end(bytes, i)));
    }
    let x = bytes[i];
    if x == QUESTION || x == STAR || x == AT || x == HASH || x == DOLLAR || (DIGIT_ZERO <= x && x
        <= DIGIT_NINE) {
        Ok(i + 1)
    } else {
        Ok(i)
    }
}

/// A range that is more than a lone backtick does not read as one.
pub proof fn lemma_not_lone_backtick(b: Seq<u8>, start: int, end: int)
    requires
        valid_utf8(b),
        good_span(b, start, end),
        end - start != 1 || b[start] != BACKTICK,
    ensures
        text_of(b, start, end) != seq!['`'],
{
    lemma_span_valid(b, start, end);
    let lone = seq!['`'];
    is_ascii_chars_encode_utf8(lone);
    if text_of(b, start, end) == lone {
        assert(b.subrange(start, end) == encode_utf8(lone));
        assert(b.subrange(start, end).len() == 1);
        assert(b.subrange(start, end)[0] == lone[0] as u8);
    }
}

/// The part of a double-quoted text that begins at `i`, or the text that is missing to close
/// it.
pub open spec fn dquote_part(b: Seq<u8>, i: int) -> Result<TknSpanView, Seq<char>> {
    if b[i] == BACKSLASH {
        let end = if i + 1 < b.len() {
            char_end(b, i + 1)
        } else {
            i + 1
        };
        Ok(TknSpanView { kind: TknView::Literal, start: i, end })
    } else if b[i] == DOLLAR {
        match expansion_end(b, i + 1) {
            Ok(end) => Ok(TknSpanView { kind: TknView::Expansion, start: i, end }),
            Err(c) => Err(c),
        }
    } else if b[i] == BACKTICK {
        match backtick_end(b, i + 1) {
            Some(j) => Ok(TknSpanView { kind: TknView::Expansion, start: i, end: j + 1 }),
            None => Err("`"@),
        }
    } else {
        Ok(TknSpanView { kind: TknView::Literal, start: i, end: run_end(b, i, ByteClass::Quoted) })
    }
}

/// A part of a double-quoted text covers something and can be read.
pub proof fn lemma_dquote_part(b: Seq<u8>, i: int)
    requires
        0 <= i < b.len(),
        b[i] != DOUBLE_QUOTE,
    ensures
        dquote_part(b, i) matches Ok(p) ==> p.start == i && i < p.end <= b.len() && (p.kind
            is Literal || p.kind is Expansion),
        valid_utf8(b) && is_char_boundary(b, i) ==> (dquote_part(b, i) matches Ok(p) ==> wf_inner(
            b,
            p,
        )),
{
    lemma_expansion_end(b, i + 1);
    lemma_backtick_end(b, i + 1);
    lemma_run_end(b, i, ByteClass::Quoted);
    if in_class(ByteClass::Quoted, b[i]) {
        lemma_run_end(b, i + 1, ByteClass::Quoted);
    }
    if valid_utf8(b) && is_char_boundary(b, i) {
        if !in_class(ByteClass::Quoted, b[i]) {
            lemma_ascii_boundary(b, i);
            if i + 1 < b.len() {
                lemma_next_boundary(b, i + 1);
            }
        }
        if b[i] == BACKTICK {
            if let Some(j) = backtick_end(b, i + 1) {
                lemma_ascii_boundary(b, j);
            }
        }
        if let Ok(p) = dquote_part(b, i) {
            if p.kind is Expansion {
                lemma_not_lone_backtick(b, i, p.end);
            }
        }
    }
}

/// The parts of a double-quoted text from `i` on and where it ends, after the closing quote,
/// or the text that is missing to close it.
pub open spec fn dquote(b: Seq<u8>, i: int) -> Result<(Seq<TknSpanView>, int), Seq<char>>
    decreases b.len() - i,
{
    if !(0 <= i < b.len()) {
        Err("\""@)
    } else if b[i] == DOUBLE_QUOTE {
        Ok((Seq::empty(), i + 1))
    } else {
        proof {
            lemma_dquote_part(b, i);
        }
        match dquote_part(b, i) {
            Err(c) => Err(c),
            Ok(p) => match dquote(b, p.end) {
                Err(c) => Err(c),
                Ok((rest, end)) => Ok((seq![p] + rest, end)),
            },
        }
    }
}

/// A double-quoted text ends after a quote, and its parts can be read.
pub proof fn lemma_dquote(b: Seq<u8>, i: int)
    requires
        0 <= i <= b.len(),
    ensures
        dquote(b, i) matches Ok((ps, end)) ==> i < end <= b.len() && b[end - 1] == DOUBLE_QUOTE,
        valid_utf8(b) && is_char_boundary(b, i) ==> (dquote(b, i) matches Ok((ps, end))
            ==> wf_inners(b, ps) && is_char_boundary(b, end)),
    decreases b.len() - i,
{
    if i < b.len() {
        if b[i] == DOUBLE_QUOTE {
            if valid_utf8(b) {
                lemma_ascii_boundary(b, i);
            }
        } else {
            lemma_dquote_part(b, i);
            if let Ok(p) = dquote_part(b, i) {
                lemma_dquote(b, p.end);
                if let Ok((rest, end)) = dquote(b, p.end) {
                    let ps = seq![p] + rest;
                    if valid_utf8(b) && is_char_boundary(b, i) {
                        assert forall|k: int| 0 <= k < ps.len() implies #[trigger] wf_inner(
                            b,
                            ps[k],
                        ) by {
                            if k > 0 {
                                assert(ps[k] == rest[k - 1]);
                                assert(wf_inner(b, rest[k - 1]));
                            }
                        }
                    }
                }
            }
        }
    }
}

/// The parts of a double-quoted text whose opening quote stands just before `i`, and where it
/// ends, or the text that is missing to close it.
pub fn double_quote(cmd_buf: &str, i: usize) -> (r: Result<(Vec<TknSpan>, usize), &'static str>)
    requires
        i <= cmd_buf.spec_bytes().len(),
        is_char_boundary(cmd_buf.spec_bytes(), i as int),
    ensures
        match r {
            Ok((parts, end)) => dquote(cmd_buf.spec_bytes(), i as int) == Ok::<
                (Seq<TknSpanView>, int),
                Seq<char>,
            >((spans_view(parts@), end as int)),
            Err(c) => dquote(cmd_buf.spec_bytes(), i as int) == Err::<
                (Seq<TknSpanView>, int),
                Seq<char>,
            >(c@),
        },
{
    let bytes = cmd_buf.as_bytes();
    let ghost b = cmd_buf.spec_bytes();
    proof {
        lemma_str_bytes(cmd_buf);
    }
    let mut parts: Vec<TknSpan> = Vec::new();
    let mut j: usize = i;
    proof {
        if let Ok((rest, end)) = dquote(b, i as int) {
            assert(spans_view(parts@) + rest =~= rest);
        }
    }
    while j < bytes.len()
        invariant
            bytes@ == b,
            b == cmd_buf.spec_bytes(),
            valid_utf8(b),
            i <= j <= b.len(),
            is_char_boundary(b, j as int),
            match dquote(b, j as int) {
                Ok((rest, end)) => dquote(b, i as int) == Ok::<(Seq<TknSpanView>, int), Seq<char>>(
                    (spans_view(parts@) + rest, end),
                ),
                Err(c) => dquote(b, i as int) == Err::<(Seq<TknSpanView>, int), Seq<char>>(c),
            },
        decreases b.len() - j,
    {
        let x = bytes[j];
        if x == DOUBLE_QUOTE {
            assert(spans_view(parts@) + Seq::<TknSpanView>::empty() =~= spans_view(parts@));
            return Ok((parts, j + 1));
        }
        proof {
            lemma_dquote_part(b, j as int);
            if x <= 0x7f {
                lemma_ascii_boundary(b, j as int);
            }
        }
        let part: TknSpan = if x == BACKSLASH {
            let end = if j + 1 < bytes.len() {
                read_char_end(bytes, j + 1)
            } else {
                j + 1
            };
            TknSpan { kind: Tkn::Literal, span: j..end }
        } else if x == DOLLAR {
            match parse_expansion(cmd_buf, j + 1) {
                Ok(end) => TknSpan { kind: Tkn::Expansion, span: j..end },
                Err(c) => {
                    return Err(c);
                },
            }
        } else if x == BACKTICK {
            match backtick(bytes, j + 1) {
                Some(k) => TknSpan { kind: Tkn::Expansion, span: j..k + 1 },
                None => {
                    return Err("`");
                },
            }
        } else {
            TknSpan { kind: Tkn::Literal, span: j..find_run_end(bytes, j, ByteClass::Quoted) }
        };
        let ghost before = spans_view(parts@);
        let ghost p = part@;
        assert(dquote_part(b, j as int) == Ok::<TknSpanView, Seq<char>>(p));
        j = part.span.end;
        parts.push(part);
        proof {
            assert(spans_view(parts@) =~= before.push(p));
            if let Ok((rest, end)) = dquote(b, j as int) {
                assert(before + (seq![p] + rest) =~= spans_view(parts@) + rest);
            }
        }
    }
    Err("\"")
}

/// What stands where a redirection wants a target.
pub enum TargetView {
    /// A bare word or an expansion.
    Plain(int, int),
    /// A double-quoted text with its parts.
    DoubleQuote(Seq<TknSpanView>),
    /// A single-quoted text, quotes included.
    SingleQuote(int, int),
    /// No target; the text that is missing to close one, if that is what is wrong.
    Bad(Option<Seq<char>>),
}

/// What stands at `i`, after blanks, where a redirection wants a target.
pub open spec fn target_at(b: Seq<u8>, i: int) -> TargetView {
    let k = run_end(b, i, ByteClass::Blank);
    if k >= b.len() {
        TargetView::Bad(None)
    } else if in_class(ByteClass::Target, b[k]) {
        TargetView::Plain(k, run_end(b, k, ByteClass::Target))
    } else if b[k] == DOUBLE_QUOTE {
        match dquote(b, k + 1) {
            Ok((ps, _)) => TargetView::DoubleQuote(ps),
            Err(c) => TargetView::Bad(Some(c)),
        }
    } else if b[k] == SINGLE_QUOTE {
        match find_byte(b, k + 1, SINGLE_QUOTE) {
            Some(j) => TargetView::SingleQuote(k, j + 1),
            None => TargetView::Bad(Some("'"@)),
        }
    } else if b[k] == BACKTICK {
        match backtick_end(b, k + 1) {
            Some(j) => TargetView::Plain(k, j + 1),
            None => TargetView::Bad(Some("`"@)),
        }
    } else if b[k] == DOLLAR {
        match expansion_end(b, k + 1) {
            Ok(e) => TargetView::Plain(k, e),
            Err(c) => TargetView::Bad(Some(c)),
        }
    } else {
        TargetView::Bad(None)
    }
}

/// What stands where a redirection wants a target.
pub enum Target {
    Plain(usize, usize),
    DoubleQuote(Vec<TknSpan>),
    SingleQuote(usize, usize),
    Bad(Option<&'static str>),
}

impl View for Target {
    type V = TargetView;

    open spec fn view(&self) -> TargetView {
        match self {
            Target::Plain(s, e) => TargetView::Plain(*s as int, *e as int),
            Target::DoubleQuote(parts) => TargetView::DoubleQuote(spans_view(parts@)),
            Target::SingleQuote(s, e) => TargetView::SingleQuote(*s as int, *e as int),
            Target::Bad(c) => TargetView::Bad(
                match c {
                    Some(c) => Some(c@),
                    None => None,
                },
            ),
        }
    }
}

/// A target that can be read.
pub open spec fn wf_target(b: Seq<u8>, t: TargetView) -> bool {
    match t {
        TargetView::Plain(s, e) => good_span(b, s, e),
        TargetView::DoubleQuote(ps) => wf_inners(b, ps) && (forall|k: int|
            0 <= k < ps.len() ==> (#[trigger] ps[k]).kind is Literal || ps[k].kind is Expansion),
        TargetView::SingleQuote(s, e) => good_span(b, s + 1, e - 1),
        TargetView::Bad(_) => true,
    }
}

/// The parts of a double-quoted text are literals and expansions.
pub proof fn lemma_dquote_kinds(b: Seq<u8>, i: int)
    requires
        0 <= i <= b.len(),
    ensures
        dquote(b, i) matches Ok((ps, _)) ==> (forall|k: int|
            0 <= k < ps.len() ==> (#[trigger] ps[k]).kind is Literal || ps[k].kind is Expansion),
    decreases b.len() - i,
{
    if i < b.len() && b[i] != DOUBLE_QUOTE {
        lemma_dquote_part(b, i);
        if let Ok(p) = dquote_part(b, i) {
            lemma_dquote_kinds(b, p.end);
        }
    }
}

/// A target that is found can be read.
pub proof fn lemma_target_at(b: Seq<u8>, i: int)
    requires
        valid_utf8(b),
        0 <= i <= b.len(),
        is_char_boundary(b, i),
    ensures
        wf_target(b, target_at(b, i)),
{
    let k = run_end(b, i, ByteClass::Blank);
    lemma_run_end(b, i, ByteClass::Blank);
    if k < b.len() {
        lemma_run_end(b, k, ByteClass::Target);
        if b[k] <= 0x7f {
            lemma_ascii_boundary(b, k);
        }
        lemma_dquote(b, k + 1);
        lemma_dquote_kinds(b, k + 1);
        lemma_find_byte(b, k + 1, SINGLE_QUOTE);
        lemma_backtick_end(b, k + 1);
        lemma_expansion_end(b, k + 1);
        if let Some(j) = find_byte(b, k + 1, SINGLE_QUOTE) {
            lemma_ascii_boundary(b, j);
        }
        if let Some(j) = backtick_end(b, k + 1) {
            lemma_ascii_boundary(b, j);
        }
    }
}

/// What stands at `i`, after blanks, where a redirection wants a target.
pub fn find_target(cmd_buf: &str, i: usize) -> (r: Target)
    requires
        i <= cmd_buf.spec_bytes().len(),
        is_char_boundary(cmd_buf.spec_bytes(), i as int),
    ensures
        r@ == target_at(cmd_buf.spec_bytes(), i as int),
        wf_target(cmd_buf.spec_bytes(), r@),
{
    let bytes = cmd_buf.as_bytes();
    let ghost b = cmd_buf.spec_bytes();
    proof {
        lemma_str_bytes(cmd_buf);
        lemma_target_at(b, i as int);
        lemma_run_end(b, i as int, ByteClass::Blank);
    }
    let k = find_run_end(bytes, i, ByteClass::Blank);
    if k >= bytes.len() {
        return Target::Bad(None);
    }
    proof {
        if b[k as int] <= 0x7f {
            lemma_ascii_boundary(b, k as int);
        }
    }
    let x = bytes[k];
    if has_class(ByteClass::Target, x) {
        Target::Plain(k, find_run_end(bytes, k, ByteClass::Target))
    } else if x == DOUBLE_QUOTE {
        match double_quote(cmd_buf, k + 1) {
            Ok((parts, _)) => Target::DoubleQuote(parts),
            Err(c) => Target::Bad(Some(c)),
        }
    } else if x == SINGLE_QUOTE {
        match position_of(bytes, k + 1, SINGLE_QUOTE) {
            Some(j) => Target::SingleQuote(k, j + 1),
            None => Target::Bad(Some("'")),
        }
    } else if x == BACKTICK {
        match backtick(bytes, k + 1) {
            Some(j) => Target::Plain(k, j + 1),
            None => Target::Bad(Some("`")),
        }
    } else if x == DOLLAR {
        match parse_expansion(cmd_buf, k + 1) {
            Ok(e) => Target::Plain(k, e),
            Err(c) => Target::Bad(Some(c)),
        }
    } else {
        Target::Bad(None)
    }
}

/// The first line at or after `i` that reads as `delim`, blank space at its end aside: where
/// it begins and where the line after it begins. A line ends with a line feed.
pub open spec fn delimiter_line(b: Seq<u8>, i: int, delim: Seq<char>) -> Option<(int, int)>
    decreases b.len() - i,
    when 0 <= i <= b.len()
{
    proof {
        lemma_find_byte(b, i, LINE_FEED);
    }
    match find_byte(b, i, LINE_FEED) {
        None => None,
        Some(j) => if trim_end(text_of(b, i, j + 1)) == delim {
            Some((i, j + 1))
        } else {
            delimiter_line(b, j + 1, delim)
        },
    }
}

/// A line that is found lies in the text, between characters.
pub proof fn lemma_delimiter_line(b: Seq<u8>, i: int, delim: Seq<char>)
    requires
        0 <= i <= b.len(),
    ensures
        delimiter_line(b, i, delim) matches Some((s, e)) ==> i <= s < e <= b.len(),
        valid_utf8(b) && is_char_boundary(b, i) ==> (delimiter_line(b, i, delim) matches Some(
            (s, e),
        ) ==> is_char_boundary(b, s) && is_char_boundary(b, e)),
    decreases b.len() - i,
{
    lemma_find_byte(b, i, LINE_FEED);
    if let Some(j) = find_byte(b, i, LINE_FEED) {
        if valid_utf8(b) {
            lemma_ascii_boundary(b, j);
        }
        if trim_end(text_of(b, i, j + 1)) != delim {
            lemma_delimiter_line(b, j + 1, delim);
        }
    }
}

/// The first line at or after `i` that reads as `delim`.
pub fn find_delimiter_line(cmd_buf: &str, i: usize, delim: &str) -> (r: Option<(usize, usize)>)
    requires
        i <= cmd_buf.spec_bytes().len(),
        is_char_boundary(cmd_buf.spec_bytes(), i as int),
    ensures
        match r {
            Some((s, e)) => delimiter_line(cmd_buf.spec_bytes(), i as int, delim@) == Some(
                (s as int, e as int),
            ),
            None => delimiter_line(cmd_buf.spec_bytes(), i as int, delim@) is None,
        },
{
    let bytes = cmd_buf.as_bytes();
    let ghost b = cmd_buf.spec_bytes();
    proof {
        lemma_str_bytes(cmd_buf);
    }
    let n: usize = bytes.len();
    let mut at: usize = i;
    loop
        invariant
            bytes@ == b,
            n == b.len(),
            b == cmd_buf.spec_bytes(),
            valid_utf8(b),
            i <= at <= b.len(),
            is_char_boundary(b, at as int),
            delimiter_line(b, i as int, delim@) == delimiter_line(b, at as int, delim@),
        decreases b.len() - at,
    {
        proof {
            lemma_find_byte(b, at as int, LINE_FEED);
        }
        match position_of(bytes, at, LINE_FEED) {
            None => {
                return None;
            },
            Some(j) => {
                proof {
                    lemma_ascii_boundary(b, j as int);
                }
                if trimmed_eq(slice_str(cmd_buf, at, j + 1), delim) {
                    return Some((at, j + 1));
                }
                at = j + 1;
            },
        }
    }
}

} // verus!
