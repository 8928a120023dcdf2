//! Character-level helpers shared by identifier, path and search code.
//!
//! Strings are handled as sequences of Unicode scalar values (`Seq<char>`,
//! the view of `str` and `String`).  Byte offsets, where the workspace needs
//! them, are derived from the UTF-8 length of each character.
use vstd::prelude::*;

verus! {

/// The characters of a string slice, in order.
pub fn chars_of(s: &str) -> (chars: Vec<char>)
    ensures
        chars@ == s@,
{
    let mut chars: Vec<char> = Vec::new();
    for c in it: s.chars()
        invariant
            chars@ == it.seq().take(it.index() as int),
    {
        chars.push(c);
    }
    chars
}

/// Builds a `String` from characters (`String::from_iter` over `&char`).
#[verifier::external_body]
pub(crate) fn string_from_chars(chars: &Vec<char>) -> (s: String)
    ensures
        s@ == chars@,
{
    String::from_iter(chars.iter())
}

/// What `char::to_lowercase` yields for one character (the Unicode lowercase
/// mapping, which may be several characters long).
pub uninterp spec fn char_lowercase(c: char) -> Seq<char>;

/// Whether `char::is_alphanumeric` holds (Unicode Alphabetic or Numeric).
pub uninterp spec fn char_is_alphanumeric(c: char) -> bool;

/// What `str::to_lowercase` returns for a whole string (context-sensitive for
/// final sigma, so it is named separately from the per-character mapping).
pub uninterp spec fn str_lowercase(s: Seq<char>) -> Seq<char>;

/// Calls `char::to_lowercase` and collects the characters it yields; the
/// result is exactly `char_lowercase(c)`, nothing more is claimed of it.
#[verifier::external_body]
pub(crate) fn lowercase_char(c: char) -> (lower: Vec<char>)
    ensures
        lower@ == char_lowercase(c),
{
    c.to_lowercase().collect()
}

/// Calls `char::is_alphanumeric`; the result is the name `char_is_alphanumeric`.
#[verifier::external_body]
pub(crate) fn is_alphanumeric(c: char) -> (b: bool)
    ensures
        b == char_is_alphanumeric(c),
{
    c.is_alphanumeric()
}

/// Calls `str::to_lowercase`; the result is the name `str_lowercase`.
#[verifier::external_body]
pub(crate) fn lowercase_str(s: &str) -> (lower: String)
    ensures
        lower@ == str_lowercase(s@),
{
    s.to_lowercase()
}

/// The Unicode `White_Space` property (PropList.txt), which is what
/// `char::is_whitespace` tests.
pub open spec fn is_white_space(c: char) -> bool {
    let v = c as u32;
    ||| 0x09 <= v <= 0x0D
    ||| v == 0x20
    ||| v == 0x85
    ||| v == 0xA0
    ||| v == 0x1680
    ||| 0x2000 <= v <= 0x200A
    ||| v == 0x2028
    ||| v == 0x2029
    ||| v == 0x202F
    ||| v == 0x205F
    ||| v == 0x3000
}

/// The Unicode general category `Cc`, which is what `char::is_control` tests.
pub open spec fn is_control_char(c: char) -> bool {
    let v = c as u32;
    v <= 0x1F || (0x7F <= v && v <= 0x9F)
}

/// `char::is_whitespace`.
pub fn is_whitespace(c: char) -> (b: bool)
    ensures
        b == is_white_space(c),
{
    let v = c as u32;
    (0x09 <= v && v <= 0x0D) || v == 0x20 || v == 0x85 || v == 0xA0 || v == 0x1680 || (0x2000
        <= v && v <= 0x200A) || v == 0x2028 || v == 0x2029 || v == 0x202F || v == 0x205F || v
        == 0x3000
}

/// `char::is_control`.
pub fn is_control(c: char) -> (b: bool)
    ensures
        b == is_control_char(c),
{
    let v = c as u32;
    v <= 0x1F || (0x7F <= v && v <= 0x9F)
}

/// The per-character lowercase mapping applied to every character of `s`
/// and concatenated (`chars().flat_map(char::to_lowercase)`).
pub open spec fn lowercase_all(s: Seq<char>) -> Seq<char>
    decreases s.len(),
{
    if s.len() == 0 {
        seq![]
    } else {
        lowercase_all(s.drop_last()) + char_lowercase(s.last())
    }
}

/// Lowercases every character of `chars` with `char::to_lowercase`.
pub fn lowercase_each(chars: &Vec<char>) -> (lower: Vec<char>)
    ensures
        lower@ == lowercase_all(chars@),
{
    let mut lower: Vec<char> = Vec::new();
    let mut i: usize = 0;
    while i < chars.len()
        invariant
            i <= chars.len(),
            lower@ == lowercase_all(chars@.take(i as int)),
        decreases chars.len() - i,
    {
        let mapped = lowercase_char(chars[i]);
        let mut j: usize = 0;
        let ghost before = lower@;
        while j < mapped.len()
            invariant
                j <= mapped.len(),
                lower@ == before + mapped@.take(j as int),
            decreases mapped.len() - j,
        {
            lower.push(mapped[j]);
            assert(mapped@.take(j + 1) == mapped@.take(j as int).push(mapped@[j as int]));
            j = j + 1;
        }
        assert(mapped@.take(mapped.len() as int) == mapped@);
        assert(chars@.take(i + 1).drop_last() == chars@.take(i as int));
        i = i + 1;
    }
    assert(chars@.take(chars.len() as int) == chars@);
    lower
}

/// Number of bytes `c` occupies in UTF-8 (`char::len_utf8`).
pub open spec fn utf8_width(c: char) -> nat {
    let v = c as u32;
    if v < 0x80 {
        1
    } else if v < 0x800 {
        2
    } else if v < 0x10000 {
        3
    } else {
        4
    }
}

/// Number of bytes `s` occupies in UTF-8.
pub open spec fn utf8_len(s: Seq<char>) -> nat
    decreases s.len(),
{
    if s.len() == 0 {
        0
    } else {
        utf8_len(s.drop_last()) + utf8_width(s.last())
    }
}

/// `char::len_utf8`.
pub fn char_utf8_width(c: char) -> (n: usize)
    ensures
        n == utf8_width(c),
        1 <= n <= 4,
{
    let v = c as u32;
    if v < 0x80 {
        1
    } else if v < 0x800 {
        2
    } else if v < 0x10000 {
        3
    } else {
        4
    }
}

/// The UTF-8 length of a prefix never exceeds that of the whole sequence.
pub proof fn lemma_utf8_len_prefix(s: Seq<char>, i: int)
    requires
        0 <= i <= s.len(),
    ensures
        utf8_len(s.take(i)) <= utf8_len(s),
        utf8_len(s.take(i)) >= i,
    decreases s.len() - i,
{
    if i < s.len() {
        lemma_utf8_len_prefix(s, i + 1);
        assert(s.take(i + 1).drop_last() == s.take(i));
        lemma_utf8_len_lower_bound(s.take(i));
    } else {
        assert(s.take(i) == s);
        lemma_utf8_len_lower_bound(s);
    }
}

/// Every character takes at least one byte.
pub proof fn lemma_utf8_len_lower_bound(s: Seq<char>)
    ensures
        utf8_len(s) >= s.len(),
    decreases s.len(),
{
    if s.len() > 0 {
        lemma_utf8_len_lower_bound(s.drop_last());
    }
}

/// Whether a byte range contains `offset`, counting its end as inside.
pub fn contains_inclusive(range: &std::ops::Range<usize>, offset: usize) -> (inside: bool)
    ensures
        inside == (range.start <= offset && offset <= range.end),
{
    range.start <= offset && offset <= range.end
}

/// Whether a byte range contains `offset`, its end excluded.
pub fn contains_component(range: &std::ops::Range<usize>, offset: usize) -> (inside: bool)
    ensures
        inside == (range.start <= offset && offset < range.end),
{
    range.start <= offset && offset < range.end
}

/// Whether the two character vectors are equal.
pub fn chars_equal(a: &Vec<char>, b: &Vec<char>) -> (eq: bool)
    ensures
        eq == (a@ == b@),
{
    if a.len() != b.len() {
        return false;
    }
    let mut i: usize = 0;
    while i < a.len()
        invariant
            i <= a.len(),
            a.len() == b.len(),
            forall|k: int| 0 <= k < i ==> a@[k] == b@[k],
        decreases a.len() - i,
    {
        if a[i] != b[i] {
            return false;
        }
        i = i + 1;
    }
    assert(a@ =~= b@);
    true
}

/// Appends all of `tail` to `out`.
pub fn extend_chars(out: &mut Vec<char>, tail: &Vec<char>)
    ensures
        final(out)@ == old(out)@ + tail@,
{
    let mut j: usize = 0;
    let ghost before = out@;
    while j < tail.len()
        invariant
            j <= tail.len(),
            out@ == before + tail@.take(j as int),
        decreases tail.len() - j,
    {
        out.push(tail[j]);
        assert(tail@.take(j + 1) == tail@.take(j as int).push(tail@[j as int]));
        j = j + 1;
    }
    assert(tail@.take(tail.len() as int) == tail@);
}

} // verus!

verus! {

/// Whether two string slices hold the same characters.
pub fn str_eq(a: &str, b: &str) -> (eq: bool)
    ensures
        eq == (a@ == b@),
{
    let a_chars = chars_of(a);
    let b_chars = chars_of(b);
    chars_equal(&a_chars, &b_chars)
}

/// The UTF-8 length of a text, known to be at most `bound`.
pub(crate) fn utf8_len_exec(s: &Vec<char>, bound: usize) -> (n: usize)
    requires
        utf8_len(s@) <= bound,
    ensures
        n == utf8_len(s@),
{
    let mut n: usize = 0;
    let mut i: usize = 0;
    while i < s.len()
        invariant
            i <= s.len(),
            n == utf8_len(s@.take(i as int)),
            utf8_len(s@) <= bound,
        decreases s.len() - i,
    {
        proof {
            assert(s@.take(i + 1).drop_last() == s@.take(i as int));
            crate::text::lemma_utf8_len_prefix(s@, i + 1);
        }
        n = n + char_utf8_width(s[i]);
        i = i + 1;
    }
    assert(s@.take(s.len() as int) == s@);
    n
}

} // verus!
