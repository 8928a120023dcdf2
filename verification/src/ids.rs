//! Identifiers and inline spellings: slugs, collision-free ids, the
//! characters an id or bare attribute value may hold, escaping of parsed
//! text and the delimiter of inline verbatim spans.
use vstd::prelude::*;
use vstd::seq_lib::*;
use crate::text::{
    char_is_alphanumeric, char_utf8_width, chars_of, is_alphanumeric, is_control,
    is_control_char, is_white_space, is_whitespace, lowercase_all, lowercase_each, str_eq,
    string_from_chars, utf8_len, utf8_width,
};

verus! {

// ---------------------------------------------------------------------------
// Slugs.

/// Whether a lowercased character is kept in a slug.
pub open spec fn slug_char(c: char) -> bool {
    char_is_alphanumeric(c) || c == '_' || c == '-'
}

/// The slug built so far and whether a separator is pending, after the
/// characters of `s` (already lowercased).
pub open spec fn slug_state(s: Seq<char>) -> (Seq<char>, bool)
    decreases s.len(),
{
    if s.len() == 0 {
        (seq![], false)
    } else {
        let (slug, separator) = slug_state(s.drop_last());
        let c = s.last();
        if slug_char(c) {
            let slug = if separator && slug.len() > 0 && slug.last() != '-' {
                slug.push('-')
            } else {
                slug
            };
            (slug.push(c), false)
        } else {
            (slug, true)
        }
    }
}

/// `s` without its trailing `-` characters.
pub open spec fn trim_trailing_dashes(s: Seq<char>) -> Seq<char>
    decreases s.len(),
{
    if s.len() > 0 && s.last() == '-' {
        trim_trailing_dashes(s.drop_last())
    } else {
        s
    }
}

/// The slug of `value`: its lowercased letters, digits, `_` and `-`, runs of
/// other characters between kept ones turned into a single `-`, trailing
/// `-` removed, and `fallback` when nothing is left.
pub open spec fn slugify_spec(value: Seq<char>, fallback: Seq<char>) -> Seq<char> {
    let slug = trim_trailing_dashes(slug_state(lowercase_all(value)).0);
    if slug.len() == 0 {
        fallback
    } else {
        slug
    }
}

proof fn lemma_trim_trailing(s: Seq<char>)
    ensures
        trim_trailing_dashes(s).len() <= s.len(),
        trim_trailing_dashes(s) == s.take(trim_trailing_dashes(s).len() as int),
        trim_trailing_dashes(s).len() > 0 ==> trim_trailing_dashes(s).last() != '-',
    decreases s.len(),
{
    if s.len() > 0 && s.last() == '-' {
        lemma_trim_trailing(s.drop_last());
        let t = trim_trailing_dashes(s.drop_last());
        assert(s.drop_last().take(t.len() as int) == s.take(t.len() as int));
    } else {
        assert(s.take(s.len() as int) == s);
    }
}

proof fn lemma_slug_chars(s: Seq<char>)
    ensures
        forall|i: int| 0 <= i < slug_state(s).0.len() ==> #[trigger] slug_char(slug_state(s).0[i]),
    decreases s.len(),
{
    if s.len() > 0 {
        lemma_slug_chars(s.drop_last());
        let (slug, separator) = slug_state(s.drop_last());
        if slug_char(s.last()) {
            let slug2 = if separator && slug.len() > 0 && slug.last() != '-' {
                slug.push('-')
            } else {
                slug
            };
            assert forall|i: int| 0 <= i < slug2.push(s.last()).len() implies #[trigger] slug_char(
                slug2.push(s.last())[i],
            ) by {
                if i < slug.len() {
                    assert(slug2.push(s.last())[i] == slug[i]);
                }
            }
        }
    }
}

/// Turns `value` into an identifier slug (see `slugify_spec`).  A slug that
/// is not the fallback consists of lowercased letters, digits, `_` and `-`
/// only and does not end with `-`.
pub fn slugify(value: &str, fallback: &str) -> (slug: String)
    ensures
        slug@ == slugify_spec(value@, fallback@),
        slug@ != fallback@ ==> slug@.len() > 0 && slug@.last() != '-' && forall|i: int|
            0 <= i < slug@.len() ==> #[trigger] slug_char(slug@[i]),
{
    let chars = chars_of(value);
    let lower = lowercase_each(&chars);
    let mut slug: Vec<char> = Vec::new();
    let mut separator = false;
    let mut i: usize = 0;
    while i < lower.len()
        invariant
            i <= lower.len(),
            (slug@, separator) == slug_state(lower@.take(i as int)),
        decreases lower.len() - i,
    {
        let c = lower[i];
        proof {
            assert(lower@.take(i + 1).drop_last() == lower@.take(i as int));
            assert(lower@.take(i + 1).last() == c);
        }
        if is_alphanumeric(c) || c == '_' || c == '-' {
            if separator && slug.len() > 0 && slug[slug.len() - 1] != '-' {
                slug.push('-');
            }
            separator = false;
            slug.push(c);
        } else {
            separator = true;
        }
        i = i + 1;
    }
    proof {
        assert(lower@.take(lower.len() as int) == lower@);
        lemma_slug_chars(lower@);
        lemma_trim_trailing(slug@);
    }
    let ghost full = slug@;
    while slug.len() > 0 && slug[slug.len() - 1] == '-'
        invariant
            trim_trailing_dashes(slug@) == trim_trailing_dashes(full),
        decreases slug.len(),
    {
        slug.pop();
    }
    proof {
        let t = trim_trailing_dashes(full);
        assert(slug@ == t);
        assert(full == slug_state(lower@).0);
        assert forall|i: int| 0 <= i < t.len() implies #[trigger] slug_char(t[i]) by {
            assert(t[i] == full[i]);
            assert(slug_char(slug_state(lower@).0[i]));
        }
    }
    if slug.len() == 0 {
        let fb = chars_of(fallback);
        return string_from_chars(&fb);
    }
    string_from_chars(&slug)
}

// ---------------------------------------------------------------------------
// Collision-free identifiers.

/// The decimal digits of `n`.
pub open spec fn decimal(n: nat) -> Seq<char>
    decreases n,
{
    if n < 10 {
        seq![digit_char(n)]
    } else {
        decimal(n / 10).push(digit_char(n % 10))
    }
}

pub open spec fn digit_char(d: nat) -> char {
    (('0' as u32) + d) as char
}

/// The id tried with suffix `k`: `base-k`.
pub open spec fn suffixed(base: Seq<char>, k: nat) -> Seq<char> {
    base + seq!['-'] + decimal(k)
}

/// The characters of each reserved id.
pub open spec fn string_views(v: Seq<String>) -> Seq<Seq<char>> {
    v.map_values(|s: String| s@)
}

/// `base` when it is free, otherwise `base-k` for the least `k >= 2` that is
/// free.
pub open spec fn unique_id_spec(base: Seq<char>, reserved: Seq<Seq<char>>, result: Seq<char>) -> bool {
    if !reserved.contains(base) {
        result == base
    } else {
        exists|k: nat|
            #![trigger suffixed(base, k)]
            2 <= k && result == suffixed(base, k) && !reserved.contains(suffixed(base, k))
                && forall|m: nat| 2 <= m < k ==> reserved.contains(#[trigger] suffixed(base, m))
    }
}

proof fn lemma_decimal_len(n: nat)
    ensures
        decimal(n).len() >= 1,
        n >= 10 ==> decimal(n).len() >= 2,
    decreases n,
{
    if n >= 10 {
        lemma_decimal_len(n / 10);
    }
}

proof fn lemma_decimal_injective(a: nat, b: nat)
    requires
        decimal(a) == decimal(b),
    ensures
        a == b,
    decreases a,
{
    lemma_decimal_len(a);
    lemma_decimal_len(b);
    if a < 10 && b < 10 {
        assert(decimal(a)[0] == digit_char(a));
        assert(decimal(b)[0] == digit_char(b));
    } else if a >= 10 && b >= 10 {
        assert(decimal(a).last() == digit_char(a % 10));
        assert(decimal(b).last() == digit_char(b % 10));
        assert(decimal(a).drop_last() == decimal(a / 10));
        assert(decimal(b).drop_last() == decimal(b / 10));
        lemma_decimal_injective(a / 10, b / 10);
    } else {
        lemma_decimal_len(a / 10);
        lemma_decimal_len(b / 10);
    }
}

proof fn lemma_suffixed_injective(base: Seq<char>, a: nat, b: nat)
    requires
        suffixed(base, a) == suffixed(base, b),
    ensures
        a == b,
{
    let n = base.len() + 1;
    assert(decimal(a) == suffixed(base, a).skip(n as int));
    assert(decimal(b) == suffixed(base, b).skip(n as int));
    lemma_decimal_injective(a, b);
}

/// With every suffix from 2 to `k` taken, there are more than `k - 2`
/// reserved ids.
proof fn lemma_suffixes_bounded(base: Seq<char>, reserved: Seq<Seq<char>>, k: nat)
    requires
        2 <= k,
        forall|m: nat| 2 <= m <= k ==> reserved.contains(#[trigger] suffixed(base, m)),
    ensures
        k - 1 <= reserved.len(),
{
    let cands = Seq::new((k - 1) as nat, |i: int| suffixed(base, (i + 2) as nat));
    assert forall|i: int, j: int| 0 <= i < cands.len() && 0 <= j < cands.len() && i != j implies cands[i]
        != cands[j] by {
        if cands[i] == cands[j] {
            lemma_suffixed_injective(base, (i + 2) as nat, (j + 2) as nat);
        }
    }
    assert(cands.no_duplicates());
    cands.unique_seq_to_set();
    assert forall|x: Seq<char>| cands.to_set().contains(x) implies reserved.to_set().contains(x) by {
        let i = choose|i: int| 0 <= i < cands.len() && cands[i] == x;
        assert(reserved.contains(suffixed(base, (i + 2) as nat)));
    }
    reserved.lemma_cardinality_of_set();
    seq_to_set_is_finite(reserved);
    vstd::set_lib::lemma_len_subset(cands.to_set(), reserved.to_set());
}

fn digit(d: usize) -> (c: char)
    requires
        d < 10,
    ensures
        c == digit_char(d as nat),
{
    ((d as u8) + 48) as char
}

/// The decimal spelling of `n`.
pub fn decimal_chars(n: usize) -> (s: Vec<char>)
    ensures
        s@ == decimal(n as nat),
    decreases n,
{
    if n < 10 {
        vec![digit(n)]
    } else {
        let mut s = decimal_chars(n / 10);
        s.push(digit(n % 10));
        s
    }
}

/// Whether `candidate` is one of the reserved ids.
pub fn is_reserved(reserved: &Vec<String>, candidate: &str) -> (found: bool)
    ensures
        found == string_views(reserved@).contains(candidate@),
{
    let mut i: usize = 0;
    while i < reserved.len()
        invariant
            i <= reserved.len(),
            forall|k: int| 0 <= k < i ==> reserved@[k]@ != candidate@,
        decreases reserved.len() - i,
    {
        if str_eq(reserved[i].as_str(), candidate) {
            assert(string_views(reserved@)[i as int] == candidate@);
            return true;
        }
        i = i + 1;
    }
    proof {
        if string_views(reserved@).contains(candidate@) {
            let k = choose|k: int| 0 <= k < reserved.len() && string_views(reserved@)[k] == candidate@;
            assert(reserved@[k]@ == candidate@);
        }
    }
    false
}

/// `base` when no reserved id equals it, otherwise `base-2`, `base-3`, …,
/// whichever comes first that is free.  The result is never reserved.
pub fn unique_id(base: &str, reserved: &Vec<String>) -> (id: String)
    requires
        reserved.len() + 3 <= usize::MAX,
    ensures
        unique_id_spec(base@, string_views(reserved@), id@),
        !string_views(reserved@).contains(id@),
{
    if !is_reserved(reserved, base) {
        let chars = chars_of(base);
        return string_from_chars(&chars);
    }
    let ghost rs = string_views(reserved@);
    let base_chars = chars_of(base);
    let mut suffix: usize = 2;
    loop
        invariant
            2 <= suffix <= reserved.len() + 2,
            reserved.len() + 3 <= usize::MAX,
            base_chars@ == base@,
            rs == string_views(reserved@),
            rs.contains(base@),
            forall|m: nat| 2 <= m < suffix ==> rs.contains(#[trigger] suffixed(base@, m)),
        decreases reserved.len() + 2 - suffix,
    {
        let mut candidate = base_chars.clone();
        candidate.push('-');
        let digits = decimal_chars(suffix);
        crate::text::extend_chars(&mut candidate, &digits);
        proof {
            assert(candidate@ == suffixed(base@, suffix as nat));
        }
        let text = string_from_chars(&candidate);
        if !is_reserved(reserved, text.as_str()) {
            proof {
                assert(2 <= suffix && text@ == suffixed(base@, suffix as nat));
            }
            return text;
        }
        proof {
            lemma_suffixes_bounded(base@, rs, suffix as nat);
            assert(rs.len() == reserved@.len());
        }
        suffix = suffix + 1;
    }
}

/// The id for a new anchor seeded from `seed` (slug fallback `block`).
pub fn unique_anchor_id(seed: &str, reserved: &Vec<String>) -> (id: String)
    requires
        reserved.len() + 3 <= usize::MAX,
    ensures
        unique_id_spec(slugify_spec(seed@, "block"@), string_views(reserved@), id@),
        !string_views(reserved@).contains(id@),
{
    let slug = slugify(seed, "block");
    unique_id(slug.as_str(), reserved)
}

/// The first `n` bytes of `s` when byte `n` is a character boundary.
pub open spec fn byte_prefix(s: Seq<char>, n: nat) -> Option<Seq<char>> {
    if exists|i: int| 0 <= i <= s.len() && #[trigger] utf8_len(s.take(i)) == n {
        let i = choose|i: int| 0 <= i <= s.len() && #[trigger] utf8_len(s.take(i)) == n;
        Some(s.take(i))
    } else {
        None
    }
}

proof fn lemma_utf8_len_take_step(s: Seq<char>, i: int)
    requires
        0 <= i < s.len(),
    ensures
        utf8_len(s.take(i + 1)) == utf8_len(s.take(i)) + utf8_width(s[i]),
{
    assert(s.take(i + 1).drop_last() == s.take(i));
}

proof fn lemma_utf8_len_take_monotone(s: Seq<char>, i: int, j: int)
    requires
        0 <= i <= j <= s.len(),
    ensures
        utf8_len(s.take(i)) + (j - i) <= utf8_len(s.take(j)),
    decreases j - i,
{
    if i < j {
        lemma_utf8_len_take_monotone(s, i, j - 1);
        lemma_utf8_len_take_step(s, j - 1);
    }
}

/// The first ten bytes of `s` (a date), when byte ten is a boundary.
fn leading_ten_bytes(s: &str) -> (out: Option<Vec<char>>)
    ensures
        match byte_prefix(s@, 10) {
            Some(p) => out matches Some(v) && v@ == p,
            None => out is None,
        },
{
    let chars = chars_of(s);
    let mut i: usize = 0;
    let mut bytes: usize = 0;
    while i < chars.len() && bytes < 10
        invariant
            i <= chars.len(),
            chars@ == s@,
            bytes == utf8_len(chars@.take(i as int)),
            bytes <= 13,
            forall|k: int| 0 <= k < i ==> utf8_len(#[trigger] chars@.take(k)) < 10,
        decreases chars.len() - i,
    {
        proof {
            lemma_utf8_len_take_step(chars@, i as int);
        }
        let w = char_utf8_width(chars[i]);
        bytes = bytes + w;
        i = i + 1;
    }
    if bytes == 10 {
        let mut prefix: Vec<char> = Vec::new();
        let mut j: usize = 0;
        while j < i
            invariant
                j <= i <= chars.len(),
                prefix@ == chars@.take(j as int),
            decreases i - j,
        {
            prefix.push(chars[j]);
            assert(chars@.take(j + 1) == chars@.take(j as int).push(chars@[j as int]));
            j = j + 1;
        }
        proof {
            assert(utf8_len(s@.take(i as int)) == 10);
            let c = choose|c: int| 0 <= c <= s@.len() && #[trigger] utf8_len(s@.take(c)) == 10;
            if c < i {
                assert(utf8_len(chars@.take(c)) < 10);
            } else if c > i {
                lemma_utf8_len_take_monotone(chars@, i as int, c);
            }
        }
        Some(prefix)
    } else {
        proof {
            assert forall|c: int| 0 <= c <= s@.len() implies #[trigger] utf8_len(s@.take(c)) != 10 by {
                if c < i {
                    assert(utf8_len(chars@.take(c)) < 10);
                } else if c > i {
                    lemma_utf8_len_take_monotone(chars@, i as int, c);
                }
            }
        }
        None
    }
}

/// The id for the next instance of a recurring task: the slug of its title
/// (fallback `task`), a `-`, the first ten bytes of its date-time (or
/// `instance` when those are not whole characters), made unique.
pub fn unique_task_instance_id(title: &str, datetime: &str, reserved: &Vec<String>) -> (id: String)
    requires
        reserved.len() + 3 <= usize::MAX,
    ensures
        unique_id_spec(
            slugify_spec(title@, "task"@) + seq!['-'] + match byte_prefix(datetime@, 10) {
                Some(date) => date,
                None => "instance"@,
            },
            string_views(reserved@),
            id@,
        ),
        !string_views(reserved@).contains(id@),
{
    let slug = slugify(title, "task");
    let mut base = chars_of(slug.as_str());
    base.push('-');
    let date = match leading_ten_bytes(datetime) {
        Some(date) => date,
        None => chars_of("instance"),
    };
    crate::text::extend_chars(&mut base, &date);
    let base = string_from_chars(&base);
    proof {
        let expected = slugify_spec(title@, "task"@) + seq!['-'] + match byte_prefix(datetime@, 10) {
            Some(date) => date,
            None => "instance"@,
        };
        assert(base@ == expected);
    }
    unique_id(base.as_str(), reserved)
}

// ---------------------------------------------------------------------------
// Characters allowed in ids and bare values.

/// Whether a character may appear in an anchor id or a bare attribute value.
pub open spec fn bare_char(c: char) -> bool {
    !is_white_space(c) && !is_control_char(c) && !(c == '`' || c == '"' || c == '[' || c == ']'
        || c == '{' || c == '}' || c == '#' || c == '.' || c == '=')
}

/// Whether `s` is nonempty and made of `bare_char`s only.
pub open spec fn valid_bare(s: Seq<char>) -> bool {
    s.len() > 0 && forall|i: int| 0 <= i < s.len() ==> #[trigger] bare_char(s[i])
}

fn all_bare(value: &str) -> (ok: bool)
    ensures
        ok == valid_bare(value@),
{
    let chars = chars_of(value);
    if chars.len() == 0 {
        return false;
    }
    let mut i: usize = 0;
    while i < chars.len()
        invariant
            i <= chars.len(),
            chars@ == value@,
            forall|k: int| 0 <= k < i ==> #[trigger] bare_char(chars@[k]),
        decreases chars.len() - i,
    {
        let c = chars[i];
        if is_whitespace(c) || is_control(c) || c == '`' || c == '"' || c == '[' || c == ']' || c
            == '{' || c == '}' || c == '#' || c == '.' || c == '=' {
            assert(!bare_char(value@[i as int]));
            return false;
        }
        i = i + 1;
    }
    true
}

/// Whether `value` can be written as an anchor id.
pub fn valid_anchor_id(value: &str) -> (ok: bool)
    ensures
        ok == valid_bare(value@),
{
    all_bare(value)
}

/// Whether `value` can be written as an attribute value without quotes.
pub fn valid_bare_attribute_value(value: &str) -> (ok: bool)
    ensures
        ok == valid_bare(value@),
{
    all_bare(value)
}

/// Whether a path may be offered inside an autolink: no `#`, no control
/// character or `\`, and no whitespace but the plain space.
pub open spec fn autolink_path_ok(s: Seq<char>) -> bool {
    forall|i: int|
        0 <= i < s.len() ==> {
            let c = #[trigger] s[i];
            c != '#' && !is_control_char(c) && c != '\\' && (!is_white_space(c) || c == ' ')
        }
}

/// Whether a completion path can stand in an autolink.
pub fn valid_autolink_completion_path(path: &str) -> (ok: bool)
    ensures
        ok == autolink_path_ok(path@),
{
    let chars = chars_of(path);
    let mut i: usize = 0;
    while i < chars.len()
        invariant
            i <= chars.len(),
            chars@ == path@,
            forall|k: int|
                0 <= k < i ==> {
                    let c = #[trigger] chars@[k];
                    c != '#' && !is_control_char(c) && c != '\\' && (!is_white_space(c) || c == ' ')
                },
        decreases chars.len() - i,
    {
        let c = chars[i];
        if c == '#' || is_control(c) || c == '\\' || (is_whitespace(c) && c != ' ') {
            return false;
        }
        i = i + 1;
    }
    true
}

// ---------------------------------------------------------------------------
// Escaping parsed text.

/// Whether a character needs a backtick in front of it in parsed text.
pub open spec fn needs_escape(c: char) -> bool {
    c == '`' || c == '[' || c == ']' || c == '|'
}

/// How one character is spelled in parsed text.
pub open spec fn escape_char(c: char) -> Seq<char> {
    if needs_escape(c) {
        seq!['`', c]
    } else {
        seq![c]
    }
}

/// `s` with a backtick put before each `` ` ``, `[`, `]` and `|`.
pub open spec fn escaped(s: Seq<char>) -> Seq<char>
    decreases s.len(),
{
    if s.len() == 0 {
        seq![]
    } else {
        escape_char(s[0]) + escaped(s.skip(1))
    }
}

/// Reading escaped text back: a backtick takes the next character as is.
pub open spec fn unescaped(s: Seq<char>) -> Seq<char>
    decreases s.len(),
{
    if s.len() == 0 {
        seq![]
    } else if s[0] == '`' && s.len() >= 2 {
        seq![s[1]] + unescaped(s.skip(2))
    } else {
        seq![s[0]] + unescaped(s.skip(1))
    }
}

proof fn lemma_escaped_push(s: Seq<char>, c: char)
    ensures
        escaped(s.push(c)) == escaped(s) + escape_char(c),
    decreases s.len(),
{
    if s.len() == 0 {
        assert(s.push(c).skip(1) == Seq::<char>::empty());
        assert(escaped(Seq::<char>::empty()) == Seq::<char>::empty());
        assert(escape_char(c) + Seq::<char>::empty() == escape_char(c));
    } else {
        assert(s.push(c).skip(1) == s.skip(1).push(c));
        lemma_escaped_push(s.skip(1), c);
        assert(s.push(c)[0] == s[0]);
        assert(escaped(s.push(c)) == escape_char(s[0]) + escaped(s.skip(1).push(c)));
        assert((escape_char(s[0]) + escaped(s.skip(1))) + escape_char(c) == escape_char(s[0]) + (
        escaped(s.skip(1)) + escape_char(c)));
    }
}

/// Reading back escaped text gives the text that was escaped.
pub proof fn lemma_unescape_escaped(s: Seq<char>)
    ensures
        unescaped(escaped(s)) == s,
    decreases s.len(),
{
    if s.len() > 0 {
        lemma_unescape_escaped(s.skip(1));
        let e = escaped(s);
        let rest = escaped(s.skip(1));
        if needs_escape(s[0]) {
            assert(e.skip(2) == rest);
            assert(e[0] == '`' && e[1] == s[0]);
        } else {
            assert(e.skip(1) == rest);
            assert(e[0] == s[0]);
        }
        assert(seq![s[0]] + s.skip(1) == s);
    }
}

/// Escaping never maps two different texts to the same spelling.
pub proof fn lemma_escape_injective(a: Seq<char>, b: Seq<char>)
    requires
        escaped(a) == escaped(b),
    ensures
        a == b,
{
    lemma_unescape_escaped(a);
    lemma_unescape_escaped(b);
}

/// Escapes `value` for use inside parsed text.
pub fn escape_parsed_text(value: &str) -> (out: String)
    ensures
        out@ == escaped(value@),
        unescaped(out@) == value@,
{
    let chars = chars_of(value);
    let mut out: Vec<char> = Vec::new();
    let mut i: usize = 0;
    while i < chars.len()
        invariant
            i <= chars.len(),
            out@ == escaped(chars@.take(i as int)),
        decreases chars.len() - i,
    {
        let c = chars[i];
        proof {
            lemma_escaped_push(chars@.take(i as int), c);
            assert(chars@.take(i + 1) == chars@.take(i as int).push(c));
        }
        if c == '`' || c == '[' || c == ']' || c == '|' {
            out.push('`');
        }
        out.push(c);
        proof {
            if needs_escape(c) {
                assert(escape_char(c) == seq!['`', c]);
            }
        }
        i = i + 1;
    }
    proof {
        assert(chars@.take(chars.len() as int) == chars@);
        lemma_unescape_escaped(value@);
    }
    string_from_chars(&out)
}

// ---------------------------------------------------------------------------
// Inline verbatim delimiters.

/// `n` double quotes.
pub open spec fn quotes(n: nat) -> Seq<char> {
    Seq::new(n, |i: int| '"')
}

/// Whether `pattern` occurs in `s` starting at `i`.
pub open spec fn occurs_at(s: Seq<char>, pattern: Seq<char>, i: int) -> bool {
    0 <= i && i + pattern.len() <= s.len() && s.subrange(i, i + pattern.len()) == pattern
}

/// Whether `pattern` occurs anywhere in `s`.
pub open spec fn contains_pattern(s: Seq<char>, pattern: Seq<char>) -> bool {
    exists|i: int| #[trigger] occurs_at(s, pattern, i)
}

/// The closing delimiter of a verbatim span with `n` quotes.
pub open spec fn verbatim_close(n: nat) -> Seq<char> {
    seq![']'] + quotes(n)
}

/// Whether a payload can sit between delimiters with `n` quotes.
pub open spec fn verbatim_safe(payload: Seq<char>, n: nat) -> bool {
    !contains_pattern(payload, verbatim_close(n))
}

fn occurs_at_exec(s: &Vec<char>, pattern: &Vec<char>, i: usize) -> (b: bool)
    requires
        i + pattern.len() <= s.len(),
    ensures
        b == occurs_at(s@, pattern@, i as int),
{
    let mut k: usize = 0;
    while k < pattern.len()
        invariant
            k <= pattern.len(),
            i + pattern.len() <= s.len(),
            forall|m: int| 0 <= m < k ==> s@[i + m] == pattern@[m],
        decreases pattern.len() - k,
    {
        if s[i + k] != pattern[k] {
            assert(s@.subrange(i as int, i + pattern.len())[k as int] != pattern@[k as int]);
            return false;
        }
        k = k + 1;
    }
    assert(s@.subrange(i as int, i + pattern.len()) =~= pattern@);
    true
}

fn contains_exec(s: &Vec<char>, pattern: &Vec<char>) -> (b: bool)
    ensures
        b == contains_pattern(s@, pattern@),
{
    if pattern.len() > s.len() {
        return false;
    }
    let last = s.len() - pattern.len();
    let mut i: usize = 0;
    loop
        invariant
            pattern.len() <= s.len(),
            last == s.len() - pattern.len(),
            i <= last,
            forall|m: int| 0 <= m < i ==> !#[trigger] occurs_at(s@, pattern@, m),
        decreases last - i,
    {
        if occurs_at_exec(s, pattern, i) {
            return true;
        }
        if i == last {
            assert forall|m: int| !#[trigger] occurs_at(s@, pattern@, m) by {
                if m < i {
                }
            }
            return false;
        }
        i = i + 1;
    }
}

fn quote_chars(n: usize) -> (q: Vec<char>)
    ensures
        q@ == quotes(n as nat),
{
    let mut q: Vec<char> = Vec::new();
    let mut i: usize = 0;
    while i < n
        invariant
            i <= n,
            q@ == quotes(i as nat),
        decreases n - i,
    {
        q.push('"');
        assert(q@ =~= quotes((i + 1) as nat));
        i = i + 1;
    }
    q
}

/// Whether `payload` does not contain `]` followed by `quote_count` quotes,
/// so that it can sit between delimiters with that many quotes.
pub fn verbatim_payload_is_safe(payload: &str, quote_count: usize) -> (safe: bool)
    ensures
        safe == verbatim_safe(payload@, quote_count as nat),
{
    let chars = chars_of(payload);
    let mut close: Vec<char> = vec![']'];
    let q = quote_chars(quote_count);
    crate::text::extend_chars(&mut close, &q);
    assert(close@ == verbatim_close(quote_count as nat));
    !contains_exec(&chars, &close)
}

/// A verbatim span spelled with the fewest quotes that keep `payload` intact:
/// `` ` `` then `n` quotes, `[`, the payload, `]` and `n` quotes, where `n`
/// is the least count for which the payload is safe.
pub fn format_inline_verbatim(payload: &str) -> (out: String)
    ensures
        exists|n: nat|
            #![trigger quotes(n)]
            verbatim_safe(payload@, n) && (forall|m: nat| m < n ==> !verbatim_safe(payload@, m))
                && out@ == seq!['`'] + quotes(n) + seq!['['] + payload@ + seq![']'] + quotes(n),
{
    let chars = chars_of(payload);
    let mut n: usize = 0;
    while !verbatim_payload_is_safe(payload, n)
        invariant
            n <= chars.len(),
            chars@ == payload@,
            forall|m: nat| m < n ==> !verbatim_safe(payload@, m),
        decreases chars.len() - n,
    {
        proof {
            if n == chars.len() {
                let i = choose|i: int| #[trigger] occurs_at(payload@, verbatim_close(n as nat), i);
                assert(false);
            }
        }
        n = n + 1;
    }
    let q = quote_chars(n);
    let mut out: Vec<char> = vec!['`'];
    crate::text::extend_chars(&mut out, &q);
    out.push('[');
    crate::text::extend_chars(&mut out, &chars);
    out.push(']');
    crate::text::extend_chars(&mut out, &q);
    proof {
        assert(quotes(n as nat) == quotes(n as nat));
    }
    string_from_chars(&out)
}

} // verus!
