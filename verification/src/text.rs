//! Text helpers: comparing and slicing UTF-8 strings by byte offset, and
//! writing numbers in decimal.

use vstd::prelude::*;
use vstd::string::StringSliceAdditionalSpecFns;
use vstd::utf8::*;

verus! {

/// The byte that ends a line.
pub const NEWLINE: u8 = 10;

/// The byte that may precede the end of a line.
pub const CARRIAGE_RETURN: u8 = 13;

/// A character starts at an ASCII byte, and the next one behind it.
pub proof fn lemma_boundary_after_ascii(bytes: Seq<u8>, i: int)
    requires
        valid_utf8(bytes),
        0 <= i < bytes.len(),
        bytes[i] <= 0x7f,
    ensures
        is_char_boundary(bytes, i),
        is_char_boundary(bytes, i + 1),
{
    is_char_boundary_iff_not_is_continuation_byte(bytes, i);
    if i + 1 == bytes.len() {
        is_char_boundary_start_end_of_seq(bytes);
    } else {
        valid_utf8_split(bytes, i);
        let suffix = bytes.subrange(i, bytes.len() as int);
        assert(suffix[0] == bytes[i]);
        assert(valid_first_scalar(suffix));
        assert(length_of_first_scalar(suffix) == 1);
        let rest = pop_first_scalar(suffix);
        assert(valid_utf8(rest));
        assert(rest.len() > 0);
        assert(rest[0] == bytes[i + 1]);
        assert(valid_first_scalar(rest));
        assert(!is_continuation_byte(rest[0]));
        is_char_boundary_iff_not_is_continuation_byte(bytes, i + 1);
    }
}

/// A boundary of a text is a boundary of each prefix that reaches it.
pub proof fn lemma_boundary_in_prefix(bytes: Seq<u8>, from: int, to: int)
    requires
        valid_utf8(bytes),
        0 <= from <= to <= bytes.len(),
        is_char_boundary(bytes, from),
        is_char_boundary(bytes, to),
    ensures
        valid_utf8(bytes.subrange(0, to)),
        is_char_boundary(bytes.subrange(0, to), from),
{
    valid_utf8_split(bytes, to);
    let head = bytes.subrange(0, to);
    if from == to {
        is_char_boundary_start_end_of_seq(head);
    } else {
        is_char_boundary_iff_not_is_continuation_byte(bytes, from);
        assert(head[from] == bytes[from]);
        is_char_boundary_iff_not_is_continuation_byte(head, from);
    }
}

/// Two strings with the same bytes hold the same characters.
pub proof fn lemma_same_bytes_same_text(a: Seq<char>, b: Seq<char>)
    requires
        encode_utf8(a) == encode_utf8(b),
    ensures
        a == b,
{
    encode_utf8_decode_utf8(a);
    encode_utf8_decode_utf8(b);
}

/// Whether two byte strings are equal.
pub fn bytes_eq(a: &[u8], b: &[u8]) -> (r: bool)
    ensures
        r == (a@ == b@),
{
    if a.len() != b.len() {
        return false;
    }
    let mut i: usize = 0;
    while i < a.len()
        invariant
            a@.len() == b@.len(),
            i <= a@.len(),
            forall|k: int| 0 <= k < i ==> a@[k] == b@[k],
        decreases a@.len() - i,
    {
        if a[i] != b[i] {
            return false;
        }
        i += 1;
    }
    assert(a@ =~= b@);
    true
}

/// Whether two strings hold the same text.
pub fn str_eq(a: &str, b: &str) -> (r: bool)
    ensures
        r == (a@ == b@),
{
    let r = bytes_eq(a.as_bytes(), b.as_bytes());
    proof {
        if r {
            lemma_same_bytes_same_text(a@, b@);
        }
    }
    r
}

/// The text of `s` between two byte offsets that lie on character boundaries.
pub fn str_slice<'a>(s: &'a str, from: usize, to: usize) -> (r: &'a str)
    requires
        from <= to <= s.spec_bytes().len(),
        is_char_boundary(s.spec_bytes(), from as int),
        is_char_boundary(s.spec_bytes(), to as int),
    ensures
        r.spec_bytes() == s.spec_bytes().subrange(from as int, to as int),
        r@ == decode_utf8(s.spec_bytes().subrange(from as int, to as int)),
{
    proof {
        encode_utf8_valid_utf8(s@);
        lemma_boundary_in_prefix(s.spec_bytes(), from as int, to as int);
    }
    let (head, _) = s.split_at(to);
    let (_, mid) = head.split_at(from);
    proof {
        assert(mid.spec_bytes() =~= s.spec_bytes().subrange(from as int, to as int));
        encode_utf8_decode_utf8(mid@);
    }
    mid
}

/// Whether the bytes of `s` start with those of `prefix`.
pub fn str_starts_with(s: &str, prefix: &str) -> (r: bool)
    ensures
        r == encode_utf8(prefix@).is_prefix_of(encode_utf8(s@)),
{
    let a = s.as_bytes();
    let b = prefix.as_bytes();
    if b.len() > a.len() {
        return false;
    }
    let r = bytes_eq(vstd::slice::slice_subrange(a, 0, b.len()), b);
    proof {
        if r {
            assert(b@ =~= a@.subrange(0, b@.len() as int));
        }
    }
    r
}

/// A text has no more characters than bytes.
pub proof fn lemma_chars_fit(chars: Seq<char>)
    ensures
        chars.len() <= encode_utf8(chars).len(),
    decreases chars.len(),
{
    if chars.len() > 0 {
        lemma_chars_fit(chars.drop_first());
        encode_utf8_first_scalar(chars);
        let bytes = encode_utf8(chars);
        assert(pop_first_scalar(bytes) =~= encode_utf8(chars.drop_first()));
    }
}

/// Where a text occurs in another, a character starts.
pub proof fn lemma_occurrence_boundary(hay: Seq<u8>, needle: Seq<char>, at: int)
    requires
        valid_utf8(hay),
        occurs_at(hay, encode_utf8(needle), at),
        needle.len() > 0 || is_char_boundary(hay, at),
    ensures
        is_char_boundary(hay, at),
{
    if needle.len() > 0 {
        let n = encode_utf8(needle);
        encode_utf8_first_scalar(needle);
        assert(n.len() > 0);
        assert(hay.subrange(at, at + n.len())[0] == n[0]);
        is_char_boundary_iff_not_is_continuation_byte(hay, at);
    }
}

/// Whether `needle` lies in `hay` at offset `i`.
pub open spec fn occurs_at(hay: Seq<u8>, needle: Seq<u8>, i: int) -> bool {
    0 <= i && i + needle.len() <= hay.len() && hay.subrange(i, i + needle.len()) == needle
}

/// The first offset at or behind `from` at which `needle` lies in `hay`.
pub open spec fn first_occurrence(hay: Seq<u8>, needle: Seq<u8>, from: int) -> Option<int>
    decreases hay.len() + 1 - from,
{
    if from < 0 {
        None
    } else if from + needle.len() > hay.len() {
        None
    } else if occurs_at(hay, needle, from) {
        Some(from)
    } else {
        first_occurrence(hay, needle, from + 1)
    }
}

/// The first occurrence is an occurrence, at or behind `from`.
pub proof fn lemma_first_occurrence(hay: Seq<u8>, needle: Seq<u8>, from: int)
    requires
        first_occurrence(hay, needle, from) is Some,
    ensures
        from <= first_occurrence(hay, needle, from)->Some_0,
        occurs_at(hay, needle, first_occurrence(hay, needle, from)->Some_0),
    decreases hay.len() + 1 - from,
{
    if !occurs_at(hay, needle, from) {
        lemma_first_occurrence(hay, needle, from + 1);
    }
}

/// Finds the first offset at or behind `from` at which `needle` lies in
/// `hay`.
pub fn find_bytes(hay: &[u8], needle: &[u8], from: usize) -> (r: Option<usize>)
    ensures
        match r {
            Some(i) => first_occurrence(hay@, needle@, from as int) == Some(i as int),
            None => first_occurrence(hay@, needle@, from as int) is None,
        },
{
    if needle.len() > hay.len() || from > hay.len() - needle.len() {
        return None;
    }
    let last = hay.len() - needle.len();
    let mut i: usize = from;
    loop
        invariant
            from <= i <= last,
            last == hay@.len() - needle@.len(),
            hay@.len() <= usize::MAX,
            first_occurrence(hay@, needle@, from as int) == first_occurrence(
                hay@,
                needle@,
                i as int,
            ),
        decreases last - i,
    {
        if bytes_eq(vstd::slice::slice_subrange(hay, i, i + needle.len()), needle) {
            return Some(i);
        }
        if i == last {
            assert(first_occurrence(hay@, needle@, i + 1) is None);
            return None;
        }
        i += 1;
    }
}

/// Whether a character is a letter or a digit, as Unicode has it.
pub uninterp spec fn char_is_alphanumeric(c: char) -> bool;

/// `char::is_alphanumeric`: whether a character is a letter or a digit,
/// which depends on the character alone.
pub assume_specification[ char::is_alphanumeric ](c: char) -> (r: bool)
    ensures
        r == char_is_alphanumeric(c),
;

/// The characters that a name is made of.
pub open spec fn is_word_char(c: char) -> bool {
    char_is_alphanumeric(c) || c == '_' || c == '-'
}

/// Where the run of name characters that starts at `i` ends.
pub open spec fn word_end(chars: Seq<char>, i: int) -> int
    decreases chars.len() - i,
{
    if 0 <= i < chars.len() && is_word_char(chars[i]) {
        word_end(chars, i + 1)
    } else {
        i
    }
}

/// The name at the start of a text: its longest prefix of name characters.
pub open spec fn leading_word(chars: Seq<char>) -> Seq<char> {
    chars.subrange(0, word_end(chars, 0))
}

/// The name at the start of a text.
pub fn take_word(s: &str) -> (word: &str)
    ensures
        word@ == leading_word(s@),
{
    let n = s.unicode_len();
    let mut i: usize = 0;
    loop
        invariant
            i <= n,
            n == s@.len(),
            word_end(s@, 0) == word_end(s@, i as int),
        ensures
            i <= n,
            n == s@.len(),
            word_end(s@, 0) == i,
        decreases n - i,
    {
        if i == n {
            break ;
        }
        let c = s.get_char(i);
        if !(c.is_alphanumeric() || c == '_' || c == '-') {
            break ;
        }
        i += 1;
    }
    s.substring_char(0, i)
}

/// A string as the `{:?}` format writes it: between double quotes, with
/// escapes.
pub uninterp spec fn str_debug(s: Seq<char>) -> Seq<char>;

/// `format!` with `{:?}` on a string: the string between double quotes, with
/// escapes, which depends on the string alone.
#[verifier::external_body]
pub(crate) fn debug_quoted(s: &str) -> (r: String)
    ensures
        r@ == str_debug(s@),
{
    format!("{:?}", s)
}

/// The character that writes one decimal digit.
pub open spec fn digit_char(d: nat) -> char {
    if d == 0 {
        '0'
    } else if d == 1 {
        '1'
    } else if d == 2 {
        '2'
    } else if d == 3 {
        '3'
    } else if d == 4 {
        '4'
    } else if d == 5 {
        '5'
    } else if d == 6 {
        '6'
    } else if d == 7 {
        '7'
    } else if d == 8 {
        '8'
    } else {
        '9'
    }
}

/// A number written in decimal, without leading zeros.
pub open spec fn decimal(n: nat) -> Seq<char>
    decreases n,
{
    if n < 10 {
        seq![digit_char(n)]
    } else {
        decimal(n / 10).push(digit_char(n % 10))
    }
}

fn digit_str(d: usize) -> (r: &'static str)
    requires
        d < 10,
    ensures
        r@ == seq![digit_char(d as nat)],
{
    proof {
        reveal_strlit("0");
        reveal_strlit("1");
        reveal_strlit("2");
        reveal_strlit("3");
        reveal_strlit("4");
        reveal_strlit("5");
        reveal_strlit("6");
        reveal_strlit("7");
        reveal_strlit("8");
        reveal_strlit("9");
    }
    let r = if d == 0 {
        "0"
    } else if d == 1 {
        "1"
    } else if d == 2 {
        "2"
    } else if d == 3 {
        "3"
    } else if d == 4 {
        "4"
    } else if d == 5 {
        "5"
    } else if d == 6 {
        "6"
    } else if d == 7 {
        "7"
    } else if d == 8 {
        "8"
    } else {
        "9"
    };
    assert(r@ =~= seq![digit_char(d as nat)]);
    r
}

/// Writes a number in decimal.
pub fn decimal_string(n: u64) -> (s: String)
    ensures
        s@ == decimal(n as nat),
    decreases n,
{
    if n < 10 {
        digit_str(n as usize).to_owned()
    } else {
        let mut s = decimal_string(n / 10);
        let d = digit_str((n % 10) as usize);
        s.append(d);
        assert(s@ =~= decimal(n as nat));
        s
    }
}

/// A character repeated.
pub open spec fn repeat(c: char, n: nat) -> Seq<char> {
    Seq::new(n, |i: int| c)
}

/// Appends one-character text `unit` to `s`, `n` times.
pub fn push_repeated(s: &mut String, unit: &str, n: usize)
    requires
        unit@.len() == 1,
    ensures
        final(s)@ == old(s)@ + repeat(unit@[0], n as nat),
{
    let mut i: usize = 0;
    while i < n
        invariant
            i <= n,
            unit@.len() == 1,
            s@ == old(s)@ + repeat(unit@[0], i as nat),
        decreases n - i,
    {
        s.append(unit);
        i += 1;
        assert(s@ =~= old(s)@ + repeat(unit@[0], i as nat));
    }
}

} // verus!
