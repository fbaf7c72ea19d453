//! Text as bytes and as characters: where characters begin, what a range of bytes reads as,
//! and the character classes that the shell's grammar speaks of.

use vstd::prelude::*;
use vstd::string::*;
use vstd::utf8::*;

verus! {

broadcast use {vstd::string::group_string_axioms, vstd::seq::group_seq_axioms};

/// `String::push` puts a character at the end of a string and leaves the rest as it is.
pub assume_specification[ String::push ](s: &mut String, ch: char)
    ensures
        final(s)@ == old(s)@.push(ch),
;

/// Whether a character has the Unicode property Alphabetic.
pub uninterp spec fn unicode_alphabetic(c: char) -> bool;

/// Whether a character is of one of the Unicode general categories for numbers.
pub uninterp spec fn unicode_numeric(c: char) -> bool;

/// `char::is_alphabetic` tells whether a character has the Unicode property Alphabetic. The
/// answer depends on the character alone.
pub assume_specification[ char::is_alphabetic ](c: char) -> (b: bool)
    ensures
        b == unicode_alphabetic(c),
;

/// `char::is_alphanumeric` tells whether a character is alphabetic or numeric. Both depend on
/// the character alone.
pub assume_specification[ char::is_alphanumeric ](c: char) -> (b: bool)
    ensures
        b == (unicode_alphabetic(c) || unicode_numeric(c)),
;

/// `char::is_whitespace` tells whether a character has the Unicode property White_Space. These
/// are the controls from tab to carriage return, the next-line control, the space, and the
/// separators beyond ASCII, the zero-width ones aside.
pub assume_specification[ char::is_whitespace ](c: char) -> (b: bool)
    ensures
        b == is_blank_char(c),
;

/// An ASCII letter.
pub open spec fn ascii_letter(c: char) -> bool {
    'a' <= c <= 'z' || 'A' <= c <= 'Z'
}

/// An ASCII digit.
pub open spec fn ascii_digit(c: char) -> bool {
    '0' <= c <= '9'
}

/// A letter: within ASCII the 52 letters, beyond it what Unicode calls alphabetic.
pub open spec fn is_letter(c: char) -> bool {
    if c <= '\u{7f}' {
        ascii_letter(c)
    } else {
        unicode_alphabetic(c)
    }
}

/// A letter or a digit.
pub open spec fn is_letter_or_digit(c: char) -> bool {
    if c <= '\u{7f}' {
        ascii_letter(c) || ascii_digit(c)
    } else {
        unicode_alphabetic(c) || unicode_numeric(c)
    }
}

/// Blank space: the characters that have the Unicode property White_Space.
pub open spec fn is_blank_char(c: char) -> bool {
    ||| '\t' <= c <= '\r'
    ||| c == ' '
    ||| c == '\u{85}'
    ||| c == '\u{a0}'
    ||| c == '\u{1680}'
    ||| '\u{2000}' <= c <= '\u{200a}'
    ||| c == '\u{2028}'
    ||| c == '\u{2029}'
    ||| c == '\u{202f}'
    ||| c == '\u{205f}'
    ||| c == '\u{3000}'
}

/// Whether `c` can begin the name of a variable.
pub fn name_start(c: char) -> (b: bool)
    ensures
        b == (is_letter(c) || c == '_'),
{
    if c == '_' {
        true
    } else if c <= '\u{7f}' {
        ('a' <= c && c <= 'z') || ('A' <= c && c <= 'Z')
    } else {
        c.is_alphabetic()
    }
}

/// Whether `c` can continue the name of a variable.
pub fn name_continue(c: char) -> (b: bool)
    ensures
        b == (is_letter_or_digit(c) || c == '_'),
{
    if c == '_' {
        true
    } else if c <= '\u{7f}' {
        ('a' <= c && c <= 'z') || ('A' <= c && c <= 'Z') || ('0' <= c && c <= '9')
    } else {
        c.is_alphanumeric()
    }
}

/// What the bytes from `start` to `end` read as.
pub open spec fn text_of(b: Seq<u8>, start: int, end: int) -> Seq<char> {
    decode_utf8(b.subrange(start, end))
}

/// A range of bytes that begins and ends between characters.
pub open spec fn good_span(b: Seq<u8>, start: int, end: int) -> bool {
    &&& 0 <= start <= end <= b.len()
    &&& is_char_boundary(b, start)
    &&& is_char_boundary(b, end)
}

/// How many bytes a character takes whose first byte is `lead`.
pub open spec fn lead_width(lead: u8) -> int {
    if lead <= 0x7f {
        1
    } else if lead <= 0xdf {
        2
    } else if lead <= 0xef {
        3
    } else {
        4
    }
}

/// Where the character that begins at `i` ends.
pub open spec fn char_end(b: Seq<u8>, i: int) -> int {
    if i + lead_width(b[i]) <= b.len() {
        i + lead_width(b[i])
    } else {
        b.len() as int
    }
}

/// The character that begins at `i`.
pub open spec fn char_at(b: Seq<u8>, i: int) -> char {
    decode_first_scalar(b.subrange(i, b.len() as int)) as char
}

/// A string's bytes are valid UTF-8 and determine its characters.
pub proof fn lemma_str_bytes(s: &str)
    ensures
        valid_utf8(s.spec_bytes()),
        decode_utf8(s.spec_bytes()) == s@,
        is_char_boundary(s.spec_bytes(), 0),
        is_char_boundary(s.spec_bytes(), s.spec_bytes().len() as int),
{
    encode_utf8_valid_utf8(s@);
    encode_utf8_decode_utf8(s@);
    is_char_boundary_start_end_of_seq(s.spec_bytes());
}

/// An ASCII byte is a character of its own.
pub proof fn lemma_ascii_boundary(b: Seq<u8>, i: int)
    requires
        valid_utf8(b),
        0 <= i < b.len(),
        b[i] <= 0x7f,
    ensures
        is_char_boundary(b, i),
        is_char_boundary(b, i + 1),
        char_at(b, i) == b[i] as char,
        char_end(b, i) == i + 1,
{
    is_char_boundary_iff_not_is_continuation_byte(b, i);
    lemma_next_boundary(b, i);
    let s = b.subrange(i, b.len() as int);
    let x = b[i];
    assert(s[0] == x);
    assert((x & 0x7f) == x) by (bit_vector)
        requires
            x <= 0x7f,
    ;
}

/// From one character boundary to the next.
pub proof fn lemma_next_boundary(b: Seq<u8>, i: int)
    requires
        valid_utf8(b),
        0 <= i < b.len(),
        is_char_boundary(b, i),
    ensures
        i < char_end(b, i) <= b.len(),
        char_end(b, i) == i + lead_width(b[i]),
        is_char_boundary(b, char_end(b, i)),
        length_of_first_scalar(b.subrange(i, b.len() as int)) == lead_width(b[i]),
        valid_first_scalar(b.subrange(i, b.len() as int)),
        text_of(b, i, b.len() as int) == seq![char_at(b, i)] + text_of(
            b,
            char_end(b, i),
            b.len() as int,
        ),
{
    let s = b.subrange(i, b.len() as int);
    valid_utf8_split(b, i);
    assert(s[0] == b[i]);
    assert(valid_first_scalar(s));
    let j = i + lead_width(b[i]);
    let r = b.subrange(j, b.len() as int);
    assert(pop_first_scalar(s) =~= r);
    assert(valid_utf8(r));
    if j == b.len() {
        is_char_boundary_start_end_of_seq(b);
    } else {
        assert(r[0] == b[j]);
        assert(valid_first_scalar(r));
        is_char_boundary_iff_not_is_continuation_byte(b, j);
    }
}

/// A boundary of the whole is a boundary of the part that it lies in.
pub proof fn lemma_prefix_boundary(b: Seq<u8>, i: int, end: int)
    requires
        valid_utf8(b),
        0 <= i <= end <= b.len(),
        is_char_boundary(b, i),
        is_char_boundary(b, end),
    ensures
        valid_utf8(b.subrange(0, end)),
        is_char_boundary(b.subrange(0, end), i),
{
    valid_utf8_split(b, end);
    let p = b.subrange(0, end);
    is_char_boundary_start_end_of_seq(p);
    if i < end {
        assert(p[i] == b[i]);
        is_char_boundary_iff_not_is_continuation_byte(b, i);
        is_char_boundary_iff_not_is_continuation_byte(p, i);
    }
}

/// A well placed range of bytes is valid UTF-8.
pub proof fn lemma_span_valid(b: Seq<u8>, start: int, end: int)
    requires
        valid_utf8(b),
        good_span(b, start, end),
    ensures
        valid_utf8(b.subrange(start, end)),
        encode_utf8(text_of(b, start, end)) == b.subrange(start, end),
{
    lemma_prefix_boundary(b, start, end);
    let p = b.subrange(0, end);
    valid_utf8_split(p, start);
    assert(p.subrange(start, end) =~= b.subrange(start, end));
    decode_utf8_encode_utf8(b.subrange(start, end));
}

/// The text of a range is the text of its two halves.
pub proof fn lemma_text_split(b: Seq<u8>, start: int, mid: int, end: int)
    requires
        valid_utf8(b),
        good_span(b, start, mid),
        good_span(b, mid, end),
    ensures
        text_of(b, start, end) == text_of(b, start, mid) + text_of(b, mid, end),
{
    lemma_span_valid(b, start, end);
    lemma_span_valid(b, start, mid);
    lemma_span_valid(b, mid, end);
    let s = b.subrange(start, end);
    is_char_boundary_start_end_of_seq(s);
    if mid < end && mid > start {
        assert(s[mid - start] == b[mid]);
        is_char_boundary_iff_not_is_continuation_byte(b, mid);
        is_char_boundary_iff_not_is_continuation_byte(s, mid - start);
    }
    decode_utf8_split(s, mid - start);
    assert(s.subrange(0, mid - start) =~= b.subrange(start, mid));
    assert(s.subrange(mid - start, s.len() as int) =~= b.subrange(mid, end));
}

/// The part of `s` between two byte offsets.
pub fn slice_str<'a>(s: &'a str, start: usize, end: usize) -> (r: &'a str)
    requires
        good_span(s.spec_bytes(), start as int, end as int),
    ensures
        r@ == text_of(s.spec_bytes(), start as int, end as int),
        r.spec_bytes() == s.spec_bytes().subrange(start as int, end as int),
{
    let ghost b = s.spec_bytes();
    proof {
        lemma_str_bytes(s);
        lemma_prefix_boundary(b, start as int, end as int);
    }
    let (head, _) = s.split_at(end);
    let (_, part) = head.split_at(start);
    proof {
        lemma_str_bytes(part);
        assert(b.subrange(0, end as int).subrange(start as int, end as int) =~= b.subrange(
            start as int,
            end as int,
        ));
    }
    part
}

/// The character that begins at byte `i`.
pub fn read_char(s: &str, i: usize) -> (c: char)
    requires
        is_char_boundary(s.spec_bytes(), i as int),
        0 <= i < s.spec_bytes().len(),
    ensures
        c == char_at(s.spec_bytes(), i as int),
{
    let ghost b = s.spec_bytes();
    proof {
        lemma_str_bytes(s);
        lemma_next_boundary(b, i as int);
    }
    let (_, rest) = s.split_at(i);
    proof {
        lemma_str_bytes(rest);
        assert(rest@ == text_of(b, i as int, b.len() as int));
        assert(rest@.len() > 0);
    }
    let mut it = rest.chars();
    match it.next() {
        Some(c) => c,
        None => ' ',
    }
}

/// Where the character that begins at byte `i` ends.
pub fn read_char_end(s: &[u8], i: usize) -> (j: usize)
    requires
        i < s@.len(),
    ensures
        j == char_end(s@, i as int),
{
    let lead = s[i];
    let width: usize = if lead <= 0x7f {
        1
    } else if lead <= 0xdf {
        2
    } else if lead <= 0xef {
        3
    } else {
        4
    };
    if s.len() - i >= width {
        i + width
    } else {
        s.len()
    }
}

/// Two strings hold the same characters exactly if they hold the same bytes.
pub proof fn lemma_bytes_injective(a: Seq<char>, b: Seq<char>)
    ensures
        (a == b) == (encode_utf8(a) == encode_utf8(b)),
{
    encode_utf8_decode_utf8(a);
    encode_utf8_decode_utf8(b);
}

/// Whether two strings are equal.
pub fn str_eq(a: &str, b: &str) -> (r: bool)
    ensures
        r == (a@ == b@),
{
    proof {
        lemma_bytes_injective(a@, b@);
    }
    let x = a.as_bytes();
    let y = b.as_bytes();
    if x.len() != y.len() {
        return false;
    }
    let mut i: usize = 0;
    while i < x.len()
        invariant
            0 <= i <= x@.len(),
            x@.len() == y@.len(),
            x@ == encode_utf8(a@),
            y@ == encode_utf8(b@),
            (a@ == b@) == (encode_utf8(a@) == encode_utf8(b@)),
            forall|k: int| 0 <= k < i ==> x@[k] == y@[k],
        decreases x@.len() - i,
    {
        if x[i] != y[i] {
            return false;
        }
        i += 1;
    }
    assert(x@ =~= y@);
    true
}

/// The characters of a string.
pub fn chars_of(s: &str) -> (v: Vec<char>)
    ensures
        v@ == s@,
{
    let mut v: Vec<char> = Vec::new();
    for c in it: s.chars()
        invariant
            v@ == it.seq().take(it.index()),
            it.seq() == s@,
    {
        v.push(c);
    }
    v
}

/// `s` without the blank space at its end.
pub open spec fn trim_end(s: Seq<char>) -> Seq<char>
    decreases s.len(),
{
    if s.len() > 0 && is_blank_char(s.last()) {
        trim_end(s.drop_last())
    } else {
        s
    }
}

/// Whether `line`, without the blank space at its end, is `word`.
pub fn trimmed_eq(line: &str, word: &str) -> (r: bool)
    ensures
        r == (trim_end(line@) == word@),
{
    let v = chars_of(line);
    let w = chars_of(word);
    let mut n: usize = v.len();
    assert(v@.take(n as int) =~= v@);
    while n > 0 && v[n - 1].is_whitespace()
        invariant
            n <= v@.len(),
            trim_end(v@) == trim_end(v@.take(n as int)),
        decreases n,
    {
        assert(v@.take(n as int).drop_last() =~= v@.take(n - 1));
        n -= 1;
    }
    assert(trim_end(v@) == v@.take(n as int));
    if n != w.len() {
        return false;
    }
    let mut i: usize = 0;
    while i < n
        invariant
            i <= n == w@.len(),
            n <= v@.len(),
            forall|k: int| 0 <= k < i ==> v@[k] == w@[k],
            trim_end(v@) == v@.take(n as int),
            v@ == line@,
            w@ == word@,
        decreases n - i,
    {
        if v[i] != w[i] {
            assert(v@.take(n as int)[i as int] != w@[i as int]);
            return false;
        }
        i += 1;
    }
    assert(v@.take(n as int) =~= w@);
    true
}

} // verus!
