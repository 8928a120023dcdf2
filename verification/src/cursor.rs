//! Opaque continuation cursors of task pages.
//!
//! A cursor reads `v2:<revision>:<signature>:<document>`: the workspace
//! revision it was issued for, the hex SHA-256 signature of the query it
//! continues, and the hex SHA-256 identity of the last document of the page.
//! Applying a cursor checks the first three against the query and drops the
//! results up to and including the last one of that document.
use sha2::Digest;
use vstd::prelude::*;
use crate::ids::{decimal, digit_char};
use crate::query::WorkspaceQueryError;
use crate::task_sort::TaskSortOrder;
use crate::text::{chars_of, extend_chars, string_from_chars};
use crate::time::Timestamp;

verus! {

// ---------------------------------------------------------------------------
// Bytes.

/// The UTF-8 encoding of one character.
pub open spec fn utf8_char(c: char) -> Seq<u8> {
    let v = c as u32;
    if v < 0x80 {
        seq![v as u8]
    } else if v < 0x800 {
        seq![(0xC0 + v / 64) as u8, (0x80 + v % 64) as u8]
    } else if v < 0x10000 {
        seq![(0xE0 + v / 4096) as u8, (0x80 + (v / 64) % 64) as u8, (0x80 + v % 64) as u8]
    } else {
        seq![
            (0xF0 + v / 262144) as u8,
            (0x80 + (v / 4096) % 64) as u8,
            (0x80 + (v / 64) % 64) as u8,
            (0x80 + v % 64) as u8,
        ]
    }
}

/// The UTF-8 encoding of a string (`str::as_bytes`).
pub open spec fn utf8_encode(s: Seq<char>) -> Seq<u8>
    decreases s.len(),
{
    if s.len() == 0 {
        seq![]
    } else {
        utf8_encode(s.drop_last()) + utf8_char(s.last())
    }
}

fn push_utf8_char(out: &mut Vec<u8>, c: char)
    ensures
        final(out)@ == old(out)@ + utf8_char(c),
{
    let v = c as u32;
    let ghost start = out@;
    if v < 0x80 {
        out.push(v as u8);
    } else if v < 0x800 {
        out.push((0xC0 + v / 64) as u8);
        out.push((0x80 + v % 64) as u8);
    } else if v < 0x10000 {
        out.push((0xE0 + v / 4096) as u8);
        out.push((0x80 + (v / 64) % 64) as u8);
        out.push((0x80 + v % 64) as u8);
    } else {
        out.push((0xF0 + v / 262144) as u8);
        out.push((0x80 + (v / 4096) % 64) as u8);
        out.push((0x80 + (v / 64) % 64) as u8);
        out.push((0x80 + v % 64) as u8);
    }
    assert(out@ =~= start + utf8_char(c));
}

/// The UTF-8 bytes of a string.
pub fn utf8_bytes(s: &str) -> (bytes: Vec<u8>)
    ensures
        bytes@ == utf8_encode(s@),
{
    let chars = chars_of(s);
    let mut out: Vec<u8> = Vec::new();
    let mut i: usize = 0;
    while i < chars.len()
        invariant
            i <= chars.len(),
            out@ == utf8_encode(chars@.take(i as int)),
        decreases chars.len() - i,
    {
        push_utf8_char(&mut out, chars[i]);
        assert(chars@.take(i + 1).drop_last() == chars@.take(i as int));
        i = i + 1;
    }
    assert(chars@.take(chars.len() as int) == chars@);
    out
}

/// The eight little-endian bytes of `v`.
pub open spec fn le_bytes(v: u64) -> Seq<u8> {
    Seq::new(8, |i: int| ((v as int / pow256(i)) % 256) as u8)
}

pub open spec fn pow256(i: int) -> int
    decreases i,
{
    if i <= 0 {
        1
    } else {
        256 * pow256(i - 1)
    }
}

pub(crate) fn le_bytes_exec(v: u64) -> (bytes: Vec<u8>)
    ensures
        bytes@ == le_bytes(v),
{
    let mut bytes: Vec<u8> = Vec::new();
    let mut rest: u64 = v;
    let mut i: usize = 0;
    while i < 8
        invariant
            i <= 8,
            bytes.len() == i,
            rest as int == v as int / pow256(i as int),
            forall|k: int| 0 <= k < i ==> #[trigger] bytes@[k] == ((v as int / pow256(k)) % 256) as u8,
        decreases 8 - i,
    {
        bytes.push((rest % 256) as u8);
        proof {
            assert(pow256(i + 1) == 256 * pow256(i as int));
            lemma_pow256_positive(i as int);
            vstd::arithmetic::div_mod::lemma_div_denominator(v as int, pow256(i as int), 256);
        }
        rest = rest / 256;
        i = i + 1;
    }
    assert(bytes@ =~= le_bytes(v));
    bytes
}

proof fn lemma_pow256_positive(i: int)
    ensures
        pow256(i) > 0,
    decreases i,
{
    if i > 0 {
        lemma_pow256_positive(i - 1);
    }
}

// ---------------------------------------------------------------------------
// SHA-256 and hex.

/// What `sha2::Sha256::digest` returns for a message.
pub uninterp spec fn sha256(message: Seq<u8>) -> Seq<u8>;

/// Hashes a message with `sha2::Sha256::digest`; the result is the name
/// `sha256` of the message, 32 bytes long as every SHA-256 digest is.
#[verifier::external_body]
pub(crate) fn sha256_digest(message: &Vec<u8>) -> (digest: Vec<u8>)
    ensures
        digest@ == sha256(message@),
        digest@.len() == 32,
{
    sha2::Sha256::digest(message.as_slice()).to_vec()
}

/// The lowercase hex digit of a value below 16.
pub open spec fn hex_digit(d: u8) -> char {
    if d < 10 {
        (('0' as int) + d) as char
    } else {
        (('a' as int) + d - 10) as char
    }
}

/// Two lowercase hex digits per byte, high nibble first.
pub open spec fn hex_spec(bytes: Seq<u8>) -> Seq<char>
    decreases bytes.len(),
{
    if bytes.len() == 0 {
        seq![]
    } else {
        hex_spec(bytes.drop_last()) + seq![hex_digit(bytes.last() / 16), hex_digit(bytes.last() % 16)]
    }
}

fn hex_digit_exec(d: u8) -> (c: char)
    requires
        d < 16,
    ensures
        c == hex_digit(d),
{
    if d < 10 {
        (48 + d) as char
    } else {
        (87 + d) as char
    }
}

/// The lowercase hex spelling of bytes.
pub fn hex(bytes: &Vec<u8>) -> (encoded: String)
    ensures
        encoded@ == hex_spec(bytes@),
        encoded@.len() == 2 * bytes.len(),
{
    let mut out: Vec<char> = Vec::new();
    let mut i: usize = 0;
    while i < bytes.len()
        invariant
            i <= bytes.len(),
            out@ == hex_spec(bytes@.take(i as int)),
            out@.len() == 2 * i,
        decreases bytes.len() - i,
    {
        let b = bytes[i];
        out.push(hex_digit_exec(b / 16));
        out.push(hex_digit_exec(b % 16));
        assert(bytes@.take(i + 1).drop_last() == bytes@.take(i as int));
        i = i + 1;
    }
    assert(bytes@.take(bytes.len() as int) == bytes@);
    string_from_chars(&out)
}

proof fn lemma_hex_len(bytes: Seq<u8>)
    ensures
        hex_spec(bytes).len() == 2 * bytes.len(),
    decreases bytes.len(),
{
    if bytes.len() > 0 {
        lemma_hex_len(bytes.drop_last());
    }
}

proof fn lemma_hex_digit_injective(a: u8, b: u8)
    requires
        0 <= a < 16,
        0 <= b < 16,
        hex_digit(a) == hex_digit(b),
    ensures
        a == b,
{
    assert(hex_digit(a) as int == (if a < 10 { 48 + a } else { 87 + a }));
    assert(hex_digit(b) as int == (if b < 10 { 48 + b } else { 87 + b }));
}

/// Different bytes are spelled differently.
pub proof fn lemma_hex_injective(a: Seq<u8>, b: Seq<u8>)
    requires
        hex_spec(a) == hex_spec(b),
    ensures
        a == b,
    decreases a.len(),
{
    lemma_hex_len(a);
    lemma_hex_len(b);
    if a.len() > 0 {
        let ha = hex_spec(a);
        let n = ha.len();
        assert(ha[n - 2] == hex_digit(a.last() / 16) && ha[n - 1] == hex_digit(a.last() % 16));
        assert(hex_spec(b)[n - 2] == hex_digit(b.last() / 16) && hex_spec(b)[n - 1] == hex_digit(b.last() % 16));
        lemma_hex_digit_injective(a.last() / 16, b.last() / 16);
        lemma_hex_digit_injective(a.last() % 16, b.last() % 16);
        assert(hex_spec(a.drop_last()) == ha.take(n - 2));
        assert(hex_spec(b.drop_last()) == hex_spec(b).take(n - 2));
        lemma_hex_injective(a.drop_last(), b.drop_last());
        assert(a == a.drop_last().push(a.last()));
        assert(b == b.drop_last().push(b.last()));
    } else {
        assert(b.len() == 0);
    }
}

/// Hex spellings hold no `:`.
pub(crate) proof fn lemma_hex_no_colon(bytes: Seq<u8>)
    ensures
        forall|i: int| 0 <= i < hex_spec(bytes).len() ==> #[trigger] hex_spec(bytes)[i] != ':',
    decreases bytes.len(),
{
    if bytes.len() > 0 {
        lemma_hex_no_colon(bytes.drop_last());
        let h = hex_spec(bytes);
        let p = hex_spec(bytes.drop_last());
        assert forall|i: int| 0 <= i < h.len() implies #[trigger] h[i] != ':' by {
            if i < p.len() {
                assert(h[i] == p[i]);
            }
        }
    }
}

// ---------------------------------------------------------------------------
// Queries and their signature.

/// One CEL filter of a task query, with where it came from.
#[derive(Debug, Clone, PartialEq, Eq)]
pub struct TaskQueryFilter {
    pub source: String,
    pub expression: String,
}

/// Filters of which a task must pass at least one.
#[derive(Debug, Clone, PartialEq, Eq)]
pub struct TaskQueryFilterGroup {
    pub filters: Vec<TaskQueryFilter>,
}

/// A request for one page of tasks.
#[derive(Debug, Clone)]
pub struct TaskPageQuery {
    pub root: String,
    pub text: String,
    pub filter_groups: Vec<TaskQueryFilterGroup>,
    pub sort: Vec<TaskSortOrder>,
    pub limit: usize,
    pub cursor: Option<String>,
    pub workspace_revision: u64,
    pub now: Timestamp,
}

/// Task counts of one document.
#[derive(Debug, Clone, PartialEq, Eq)]
pub struct TaskDocumentMetrics {
    pub path: String,
    pub tasks: usize,
    pub open_tasks: usize,
}

/// Why a task page could not be produced.
#[derive(Debug, PartialEq, Eq)]
pub enum TaskPageQueryError {
    Filter { source: String, message: String },
    Cursor(String),
    Query(WorkspaceQueryError),
}

impl TaskPageQueryError {
    /// The error as text: the filter's or cursor's message, or the query
    /// error's text.
    pub fn message(&self) -> (text: String)
        ensures
            text@ == match *self {
                TaskPageQueryError::Filter { message, .. } => message@,
                TaskPageQueryError::Cursor(m) => m@,
                TaskPageQueryError::Query(e) => crate::query::query_error_text(e),
            },
    {
        match self {
            TaskPageQueryError::Filter { message, .. } => message.clone(),
            TaskPageQueryError::Cursor(m) => m.clone(),
            TaskPageQueryError::Query(e) => e.message(),
        }
    }
}

/// A hashed field: its length as eight little-endian bytes, then itself.
pub open spec fn framed(value: Seq<u8>) -> Seq<u8> {
    le_bytes(value.len() as u64) + value
}

pub open spec fn order_code(o: TaskSortOrder) -> u8 {
    match o {
        TaskSortOrder::Source => 0,
        TaskSortOrder::Priority => 1,
        TaskSortOrder::Due => 2,
        TaskSortOrder::Relevance => 3,
    }
}

pub open spec fn sort_fields(sort: Seq<TaskSortOrder>) -> Seq<u8>
    decreases sort.len(),
{
    if sort.len() == 0 {
        seq![]
    } else {
        sort_fields(sort.drop_last()) + framed(seq![order_code(sort.last())])
    }
}

pub open spec fn filter_fields(filters: Seq<TaskQueryFilter>) -> Seq<u8>
    decreases filters.len(),
{
    if filters.len() == 0 {
        seq![]
    } else {
        filter_fields(filters.drop_last()) + framed(utf8_encode(filters.last().expression@))
    }
}

pub open spec fn group_fields(groups: Seq<TaskQueryFilterGroup>) -> Seq<u8>
    decreases groups.len(),
{
    if groups.len() == 0 {
        seq![]
    } else {
        group_fields(groups.drop_last()) + framed(utf8_encode("group"@)) + filter_fields(
            groups.last().filters@,
        )
    }
}

/// The SHA-256 identity of a path.
pub open spec fn path_identity_spec(path: Seq<char>) -> Seq<u8> {
    sha256(utf8_encode(path))
}

/// What the signature of a query hashes: the ordering rule's version, whether
/// ancestors are included, the root's identity, the text, the limit, each
/// sort key, and each filter group's expressions, every field framed.
pub open spec fn signature_message(query: TaskPageQuery, include_ancestors: bool) -> Seq<u8> {
    framed(utf8_encode("subtree-focused-first-v1"@)) + framed(seq![if include_ancestors {
        1u8
    } else {
        0u8
    }]) + framed(path_identity_spec(query.root@)) + framed(utf8_encode(query.text@)) + framed(
        le_bytes(query.limit as u64),
    ) + sort_fields(query.sort@) + group_fields(query.filter_groups@)
}

pub(crate) fn push_framed(message: &mut Vec<u8>, value: &Vec<u8>)
    ensures
        final(message)@ == old(message)@ + framed(value@),
{
    let len = le_bytes_exec(value.len() as u64);
    let ghost start = message@;
    let mut i: usize = 0;
    while i < 8
        invariant
            i <= 8,
            len@ == le_bytes(value.len() as u64),
            message@ == start + len@.take(i as int),
        decreases 8 - i,
    {
        message.push(len[i]);
        assert(len@.take(i + 1) == len@.take(i as int).push(len@[i as int]));
        i = i + 1;
    }
    let mut j: usize = 0;
    while j < value.len()
        invariant
            j <= value.len(),
            message@ == start + len@ + value@.take(j as int),
        decreases value.len() - j,
    {
        message.push(value[j]);
        assert(value@.take(j + 1) == value@.take(j as int).push(value@[j as int]));
        j = j + 1;
    }
    assert(len@.take(8) == len@);
    assert(value@.take(value.len() as int) == value@);
    assert(message@ =~= start + framed(value@));
}

/// The SHA-256 identity of a path (of its UTF-8 bytes).
pub fn path_identity(path: &str) -> (identity: Vec<u8>)
    ensures
        identity@ == path_identity_spec(path@),
        identity@.len() == 32,
{
    let bytes = utf8_bytes(path);
    sha256_digest(&bytes)
}

/// The signature of a task query (see `signature_message`).
pub fn query_signature(query: &TaskPageQuery, include_ancestors: bool) -> (signature: Vec<u8>)
    ensures
        signature@ == sha256(signature_message(*query, include_ancestors)),
        signature@.len() == 32,
{
    let mut message: Vec<u8> = Vec::new();
    push_framed(&mut message, &utf8_bytes("subtree-focused-first-v1"));
    let flag: Vec<u8> = vec![if include_ancestors {
        1u8
    } else {
        0u8
    }];
    assert(flag@ == seq![if include_ancestors {
        1u8
    } else {
        0u8
    }]);
    push_framed(&mut message, &flag);
    push_framed(&mut message, &path_identity(query.root.as_str()));
    push_framed(&mut message, &utf8_bytes(query.text.as_str()));
    push_framed(&mut message, &le_bytes_exec(query.limit as u64));
    let ghost head = message@;
    assert(head == framed(utf8_encode("subtree-focused-first-v1"@)) + framed(seq![if include_ancestors {
        1u8
    } else {
        0u8
    }]) + framed(path_identity_spec(query.root@)) + framed(utf8_encode(query.text@)) + framed(
        le_bytes(query.limit as u64),
    ));
    let mut i: usize = 0;
    while i < query.sort.len()
        invariant
            i <= query.sort.len(),
            message@ == head + sort_fields(query.sort@.take(i as int)),
        decreases query.sort.len() - i,
    {
        let code: Vec<u8> = vec![match query.sort[i] {
            TaskSortOrder::Source => 0u8,
            TaskSortOrder::Priority => 1u8,
            TaskSortOrder::Due => 2u8,
            TaskSortOrder::Relevance => 3u8,
        }];
        assert(code@ == seq![order_code(query.sort@[i as int])]);
        push_framed(&mut message, &code);
        assert(query.sort@.take(i + 1).drop_last() == query.sort@.take(i as int));
        i = i + 1;
    }
    assert(query.sort@.take(query.sort.len() as int) == query.sort@);
    let ghost mid = message@;
    let mut g: usize = 0;
    while g < query.filter_groups.len()
        invariant
            g <= query.filter_groups.len(),
            message@ == mid + group_fields(query.filter_groups@.take(g as int)),
        decreases query.filter_groups.len() - g,
    {
        push_framed(&mut message, &utf8_bytes("group"));
        let group = &query.filter_groups[g];
        let ghost before_filters = message@;
        let mut f: usize = 0;
        while f < group.filters.len()
            invariant
                f <= group.filters.len(),
                message@ == before_filters + filter_fields(group.filters@.take(f as int)),
            decreases group.filters.len() - f,
        {
            push_framed(&mut message, &utf8_bytes(group.filters[f].expression.as_str()));
            assert(group.filters@.take(f + 1).drop_last() == group.filters@.take(f as int));
            f = f + 1;
        }
        assert(group.filters@.take(group.filters.len() as int) == group.filters@);
        assert(query.filter_groups@.take(g + 1).drop_last() == query.filter_groups@.take(g as int));
        g = g + 1;
    }
    assert(query.filter_groups@.take(query.filter_groups.len() as int) == query.filter_groups@);
    assert(message@ == head + sort_fields(query.sort@) + group_fields(query.filter_groups@));
    assert(message@ =~= signature_message(*query, include_ancestors));
    sha256_digest(&message)
}

// ---------------------------------------------------------------------------
// Writing and reading cursors.

/// The text of a cursor.
pub open spec fn cursor_text(revision: u64, signature: Seq<u8>, identity: Seq<u8>) -> Seq<char> {
    seq!['v', '2', ':'] + decimal(revision as nat) + seq![':'] + hex_spec(signature) + seq![':']
        + hex_spec(identity)
}

/// The decimal digits of a 64-bit value.
pub fn decimal_u64(n: u64) -> (s: Vec<char>)
    ensures
        s@ == decimal(n as nat),
    decreases n,
{
    if n < 10 {
        vec![((n as u8) + 48) as char]
    } else {
        let mut s = decimal_u64(n / 10);
        s.push((((n % 10) as u8) + 48) as char);
        s
    }
}

/// The cursor that continues `query` after the results of the document at
/// `path`.
pub fn encode_cursor(query: &TaskPageQuery, path: &str, include_ancestors: bool) -> (cursor: String)
    ensures
        cursor@ == cursor_text(
            query.workspace_revision,
            sha256(signature_message(*query, include_ancestors)),
            path_identity_spec(path@),
        ),
{
    let mut out: Vec<char> = vec!['v', '2', ':'];
    let revision = decimal_u64(query.workspace_revision);
    extend_chars(&mut out, &revision);
    out.push(':');
    let signature = hex(&query_signature(query, include_ancestors));
    extend_chars(&mut out, &chars_of(signature.as_str()));
    out.push(':');
    let identity = hex(&path_identity(path));
    extend_chars(&mut out, &chars_of(identity.as_str()));
    string_from_chars(&out)
}

/// The position of the first `:` in `s`.
pub open spec fn first_colon_from(s: Seq<char>, i: int) -> Option<int>
    decreases s.len() - i,
{
    if i < 0 || i >= s.len() {
        None
    } else if s[i] == ':' {
        Some(i)
    } else {
        first_colon_from(s, i + 1)
    }
}

/// `str::splitn(n, ':')`: at most `n` pieces, the last one holding the
/// rest of the text.
pub open spec fn split_parts(s: Seq<char>, n: nat) -> Seq<Seq<char>>
    decreases n,
{
    if n <= 1 {
        seq![s]
    } else {
        match first_colon_from(s, 0) {
            None => seq![s],
            Some(i) => seq![s.take(i)] + split_parts(s.skip(i + 1), (n - 1) as nat),
        }
    }
}

pub(crate) proof fn lemma_first_colon(s: Seq<char>, i: int)
    requires
        0 <= i,
    ensures
        first_colon_from(s, i) matches Some(k) ==> i <= k < s.len() && s[k] == ':' && forall|m: int| i <= m < k ==> s[m] != ':',
        first_colon_from(s, i) is None ==> forall|m: int| i <= m < s.len() ==> s[m] != ':',
    decreases s.len() - i,
{
    if i < s.len() && s[i] != ':' {
        lemma_first_colon(s, i + 1);
    }
}

/// The first colon of `a + [':'] + b` is right after `a` when `a` has none.
pub(crate) proof fn lemma_first_colon_after(a: Seq<char>, b: Seq<char>)
    requires
        forall|m: int| 0 <= m < a.len() ==> a[m] != ':',
    ensures
        first_colon_from(a + seq![':'] + b, 0) == Some(a.len() as int),
{
    let s = a + seq![':'] + b;
    lemma_first_colon(s, 0);
    match first_colon_from(s, 0) {
        Some(k) => {
            if k < a.len() {
                assert(s[k] == a[k]);
            } else if k > a.len() {
                assert(s[a.len() as int] == ':');
            }
        },
        None => {
            assert(s[a.len() as int] == ':');
        },
    }
}

fn first_colon(s: &Vec<char>, start: usize) -> (found: Option<usize>)
    requires
        start <= s.len(),
    ensures
        match first_colon_from(s@, start as int) {
            Some(k) => found == Some(k as usize),
            None => found is None,
        },
{
    let mut i: usize = start;
    while i < s.len()
        invariant
            start <= i <= s.len(),
            first_colon_from(s@, start as int) == first_colon_from(s@, i as int),
        decreases s.len() - i,
    {
        if s[i] == ':' {
            return Some(i);
        }
        i = i + 1;
    }
    None
}

fn sub_chars(s: &Vec<char>, from: usize, to: usize) -> (out: Vec<char>)
    requires
        from <= to <= s.len(),
    ensures
        out@ == s@.subrange(from as int, to as int),
{
    let mut out: Vec<char> = Vec::new();
    let mut i: usize = from;
    while i < to
        invariant
            from <= i <= to <= s.len(),
            out@ == s@.subrange(from as int, i as int),
        decreases to - i,
    {
        out.push(s[i]);
        assert(s@.subrange(from as int, i + 1) == s@.subrange(from as int, i as int).push(s@[i as int]));
        i = i + 1;
    }
    out
}

/// The pieces of a cursor (`splitn(n, ':')`).
pub(crate) fn split_cursor(s: &Vec<char>, n: usize) -> (parts: Vec<Vec<char>>)
    requires
        n >= 1,
    ensures
        parts@.map_values(|p: Vec<char>| p@) == split_parts(s@, n as nat),
{
    let mut parts: Vec<Vec<char>> = Vec::new();
    let mut start: usize = 0;
    let mut left: usize = n;
    let ghost mut done: Seq<Seq<char>> = seq![];
    assert(s@.skip(0) == s@);
    assert(parts@.map_values(|p: Vec<char>| p@) =~= done);
    assert(done + split_parts(s@, n as nat) =~= split_parts(s@, n as nat));
    while left > 1
        invariant
            start <= s.len(),
            1 <= left <= n,
            parts@.map_values(|p: Vec<char>| p@) == done,
            split_parts(s@, n as nat) == done + split_parts(s@.skip(start as int), left as nat),
        decreases left,
    {
        let ghost rest = s@.skip(start as int);
        proof {
            lemma_first_colon(s@, start as int);
            lemma_first_colon(rest, 0);
        }
        match first_colon(s, start) {
            Some(k) => {
                proof {
                    assert(first_colon_from(rest, 0) == Some(k - start)) by {
                        match first_colon_from(rest, 0) {
                            Some(j) => {
                                if j < k - start {
                                    assert(rest[j] == s@[start + j]);
                                } else if j > k - start {
                                    assert(rest[k - start] == s@[k as int]);
                                }
                            },
                            None => {
                                assert(rest[k - start] == s@[k as int]);
                            },
                        }
                    }
                    assert(rest.take(k - start) == s@.subrange(start as int, k as int));
                    assert(rest.skip(k - start + 1) == s@.skip(k + 1));
                }
                let piece = sub_chars(s, start, k);
                let ghost before = parts@;
                parts.push(piece);
                proof {
                    assert(parts@.map_values(|p: Vec<char>| p@) =~= before.map_values(|p: Vec<char>| p@).push(piece@));
                    done = done.push(piece@);
                    assert(split_parts(rest, left as nat) == seq![piece@] + split_parts(s@.skip(k + 1), (left - 1) as nat));
                    assert(done + split_parts(s@.skip(k + 1), (left - 1) as nat) =~= (done.drop_last() + seq![piece@]) + split_parts(s@.skip(k + 1), (left - 1) as nat));
                }
                start = k + 1;
                left = left - 1;
            },
            None => {
                proof {
                    assert(first_colon_from(rest, 0) is None) by {
                        match first_colon_from(rest, 0) {
                            Some(j) => {
                                assert(rest[j] == s@[start + j]);
                            },
                            None => {},
                        }
                    }
                }
                let piece = sub_chars(s, start, s.len());
                let ghost before = parts@;
                parts.push(piece);
                proof {
                    assert(piece@ == rest);
                    assert(parts@.map_values(|p: Vec<char>| p@) =~= done.push(rest));
                    assert(split_parts(rest, left as nat) == seq![rest]);
                }
                return parts;
            },
        }
    }
    let piece = sub_chars(s, start, s.len());
    let ghost before = parts@;
    parts.push(piece);
    proof {
        assert(piece@ == s@.skip(start as int));
        assert(parts@.map_values(|p: Vec<char>| p@) =~= done.push(piece@));
    }
    parts
}

/// The value of a string of decimal digits.
pub open spec fn digits_value(s: Seq<char>) -> int
    decreases s.len(),
{
    if s.len() == 0 {
        0
    } else {
        digits_value(s.drop_last()) * 10 + (s.last() as int - '0' as int)
    }
}

pub open spec fn all_digits(s: Seq<char>) -> bool {
    forall|i: int| 0 <= i < s.len() ==> '0' <= #[trigger] s[i] && s[i] <= '9'
}

/// `u64::from_str`: an optional `+`, then one or more decimal digits whose
/// value fits in 64 bits.
pub open spec fn parse_u64_spec(s: Seq<char>) -> Option<u64> {
    let body = if s.len() > 0 && s[0] == '+' {
        s.skip(1)
    } else {
        s
    };
    if body.len() > 0 && all_digits(body) && digits_value(body) <= u64::MAX {
        Some(digits_value(body) as u64)
    } else {
        None
    }
}

proof fn lemma_digits_value_monotone(s: Seq<char>, i: int)
    requires
        all_digits(s),
        0 <= i <= s.len(),
    ensures
        digits_value(s.take(i)) <= digits_value(s),
        digits_value(s) >= 0,
    decreases s.len() - i,
{
    if i < s.len() {
        lemma_digits_value_monotone(s, i + 1);
        assert(s.take(i + 1).drop_last() == s.take(i));
        assert(all_digits(s.take(i + 1)));
        lemma_digits_nonneg(s.take(i));
    } else {
        assert(s.take(i) == s);
        lemma_digits_nonneg(s);
    }
}

pub(crate) proof fn lemma_digits_nonneg(s: Seq<char>)
    requires
        all_digits(s),
    ensures
        digits_value(s) >= 0,
    decreases s.len(),
{
    if s.len() > 0 {
        assert(all_digits(s.drop_last()));
        lemma_digits_nonneg(s.drop_last());
    }
}

/// Parses a 64-bit unsigned integer as `u64::from_str` does.
pub fn parse_u64(s: &Vec<char>) -> (value: Option<u64>)
    ensures
        value == parse_u64_spec(s@),
{
    let start: usize = if s.len() > 0 && s[0] == '+' {
        1
    } else {
        0
    };
    let ghost body = if s@.len() > 0 && s@[0] == '+' {
        s@.skip(1)
    } else {
        s@
    };
    assert(body == s@.skip(start as int));
    if start == s.len() {
        assert(body.len() == 0);
        return None;
    }
    assert(body.take(0) == Seq::<char>::empty());
    let mut acc: u128 = 0;
    let mut i: usize = start;
    while i < s.len()
        invariant
            start <= i <= s.len(),
            body == s@.skip(start as int),
            body == (if s@.len() > 0 && s@[0] == '+' {
                s@.skip(1)
            } else {
                s@
            }),
            all_digits(body.take(i - start)),
            acc as int == digits_value(body.take(i - start)),
            acc <= u64::MAX,
        decreases s.len() - i,
    {
        let c = s[i];
        assert(body[i - start] == c);
        if c < '0' || c > '9' {
            assert(!('0' <= body[i - start] && body[i - start] <= '9'));
            assert(!all_digits(body));
            return None;
        }
        let d = (c as u32 - 48) as u128;
        acc = acc * 10 + d;
        proof {
            let t = body.take(i + 1 - start);
            assert(t.drop_last() == body.take(i - start));
            assert(t.last() == c);
            assert(d as int == c as int - '0' as int);
            assert(all_digits(t));
            assert(acc as int == digits_value(t));
        }
        if acc > u64::MAX as u128 {
            proof {
                if all_digits(body) {
                    lemma_digits_value_monotone(body, i + 1 - start);
                }
            }
            return None;
        }
        i = i + 1;
    }
    assert(body.take(s.len() - start) == body);
    Some(acc as u64)
}

pub(crate) proof fn lemma_decimal_digits(n: nat)
    ensures
        all_digits(decimal(n)),
        digits_value(decimal(n)) == n,
        decimal(n).len() > 0,
        decimal(n)[0] != '+',
    decreases n,
{
    assert((digit_char(n % 10) as int) == 48 + (n % 10) as int);
    vstd::arithmetic::div_mod::lemma_fundamental_div_mod(n as int, 10);
    if n < 10 {
        assert(decimal(n).drop_last() == Seq::<char>::empty());
        assert(decimal(n).last() == digit_char(n));
        assert(n % 10 == n);
        assert(digits_value(decimal(n)) == digits_value(Seq::<char>::empty()) * 10 + (digit_char(n) as int - '0' as int));
    } else {
        lemma_decimal_digits(n / 10);
        let d = decimal(n);
        assert(d.last() == digit_char(n % 10));
        assert(digits_value(d) == digits_value(d.drop_last()) * 10 + (d.last() as int - '0' as int));
        assert(d.drop_last() == decimal(n / 10));
        assert forall|i: int| 0 <= i < d.len() implies '0' <= #[trigger] d[i] && d[i] <= '9' by {
            if i < d.len() - 1 {
                assert(d[i] == decimal(n / 10)[i]);
            }
        }
    }
}

/// Reading back a decimal spelling gives the number.
pub proof fn lemma_parse_decimal(n: u64)
    ensures
        parse_u64_spec(decimal(n as nat)) == Some(n),
{
    lemma_decimal_digits(n as nat);
}

/// What applying a cursor yields: the results it still leaves, or the
/// error.  A cursor must name this query and revision; its document must be
/// the identity of one of the results' documents, and everything up to the
/// last result of that document is dropped.
pub open spec fn cursor_outcome(
    cursor: Seq<char>,
    paths: Seq<Seq<char>>,
    revision: u64,
    signature: Seq<u8>,
) -> Result<int, Seq<char>> {
    let parts = split_parts(cursor, 4);
    if !(parts.len() == 4 && parts[0] == seq!['v', '2'] && parse_u64_spec(parts[1]) == Some(revision)
        && parts[2] == hex_spec(signature)) {
        Err(stale_cursor_message())
    } else if exists|i: int| 0 <= i < paths.len() && #[trigger] hex_spec(path_identity_spec(paths[i])) == parts[3] {
        Ok(last_of_document(paths, parts[3], paths.len() as int))
    } else {
        Err(lost_cursor_message())
    }
}

pub open spec fn stale_cursor_message() -> Seq<char> {
    "task cursor is stale or does not match this query"@
}

pub open spec fn lost_cursor_message() -> Seq<char> {
    "task cursor no longer identifies a result document"@
}

/// The last position before `end` whose document has identity `document`
/// (or -1).
pub open spec fn last_of_document(paths: Seq<Seq<char>>, document: Seq<char>, end: int) -> int
    decreases end,
{
    if end <= 0 {
        -1
    } else if hex_spec(path_identity_spec(paths[end - 1])) == document {
        end - 1
    } else {
        last_of_document(paths, document, end - 1)
    }
}

proof fn lemma_last_of_document(paths: Seq<Seq<char>>, document: Seq<char>, end: int)
    requires
        0 <= end <= paths.len(),
    ensures
        -1 <= last_of_document(paths, document, end) < end,
        (exists|i: int| 0 <= i < end && #[trigger] hex_spec(path_identity_spec(paths[i])) == document) ==> last_of_document(paths, document, end) >= 0,
        last_of_document(paths, document, end) >= 0 ==> hex_spec(path_identity_spec(paths[last_of_document(paths, document, end)])) == document,
    decreases end,
{
    if end > 0 {
        lemma_last_of_document(paths, document, end - 1);
    }
}

/// A cursor that applies names a position among the paths.
pub(crate) proof fn lemma_cursor_outcome_bounds(cursor: Seq<char>, paths: Seq<Seq<char>>, revision: u64, signature: Seq<u8>)
    ensures
        cursor_outcome(cursor, paths, revision, signature) matches Ok(l) ==> 0 <= l < paths.len(),
{
    let parts = split_parts(cursor, 4);
    if parts.len() == 4 {
        lemma_last_of_document(paths, parts[3], paths.len() as int);
    }
}

pub open spec fn path_texts(paths: Seq<String>) -> Seq<Seq<char>> {
    paths.map_values(|p: String| p@)
}

/// Continues a page after its cursor: `facts[i]` is a result whose
/// document is `paths[i]`.  Without a cursor nothing changes.
pub fn apply_cursor<T>(
    facts: &mut Vec<T>,
    paths: &Vec<String>,
    query: &TaskPageQuery,
    include_ancestors: bool,
) -> (result: Result<(), TaskPageQueryError>)
    requires
        old(facts).len() == paths.len(),
    ensures
        query.cursor is None ==> result is Ok && final(facts)@ == old(facts)@,
        query.cursor matches Some(c) ==> match cursor_outcome(
            c@,
            path_texts(paths@),
            query.workspace_revision,
            sha256(signature_message(*query, include_ancestors)),
        ) {
            Ok(last) => result is Ok && final(facts)@ == old(facts)@.skip(last + 1),
            Err(message) => result matches Err(TaskPageQueryError::Cursor(m)) && m@ == message
                && final(facts)@ == old(facts)@,
        },
{
    let cursor = match &query.cursor {
        Some(c) => c,
        None => {
            return Ok(());
        },
    };
    let text = chars_of(cursor.as_str());
    let parts = split_cursor(&text, 4);
    let expected = query_signature(query, include_ancestors);
    let ghost pv = parts@.map_values(|p: Vec<char>| p@);
    let valid = parts.len() == 4 && crate::text::chars_equal(&parts[0], &vec!['v', '2']) && match parse_u64(&parts[1]) {
        Some(revision) => revision == query.workspace_revision,
        None => false,
    } && crate::text::chars_equal(&parts[2], &chars_of(hex(&expected).as_str()));
    proof {
        if parts.len() == 4 {
            assert(pv[0] == parts@[0]@);
            assert(pv[1] == parts@[1]@);
            assert(pv[2] == parts@[2]@);
            assert(pv[3] == parts@[3]@);
        }
    }
    if !valid {
        return Err(TaskPageQueryError::Cursor("task cursor is stale or does not match this query".to_string()));
    }
    let document = &parts[3];
    let ghost ps = path_texts(paths@);
    let mut end: usize = paths.len();
    let mut found: Option<usize> = None;
    while end > 0
        invariant_except_break
            found is None,
        invariant
            end <= paths.len(),
            ps == path_texts(paths@),
            last_of_document(ps, document@, paths.len() as int) == last_of_document(ps, document@, end as int),
        ensures
            found matches Some(f) ==> f as int == last_of_document(ps, document@, paths.len() as int),
            found is None ==> last_of_document(ps, document@, paths.len() as int) == -1,
        decreases end,
    {
        let identity = hex(&path_identity(paths[end - 1].as_str()));
        assert(ps[end - 1] == paths@[end - 1]@);
        if crate::text::chars_equal(&chars_of(identity.as_str()), document) {
            found = Some(end - 1);
            break;
        }
        end = end - 1;
    }
    proof {
        lemma_last_of_document(ps, document@, paths.len() as int);
    }
    match found {
        Some(last) => {
            let rest = facts.split_off(last + 1);
            *facts = rest;
            Ok(())
        },
        None => {
            proof {
                assert(last_of_document(ps, document@, paths.len() as int) == -1);
            }
            Err(TaskPageQueryError::Cursor("task cursor no longer identifies a result document".to_string()))
        },
    }
}

/// A cursor issued for a query and document, applied to the same query at
/// the same revision, keeps exactly the results after the last one of that
/// document; when no result has that document any more it is refused.
pub proof fn lemma_cursor_round_trip(paths: Seq<Seq<char>>, revision: u64, signature: Seq<u8>, path: Seq<char>)
    requires
        signature.len() == 32,
    ensures
        cursor_outcome(cursor_text(revision, signature, path_identity_spec(path)), paths, revision, signature)
            == (if exists|i: int| 0 <= i < paths.len() && #[trigger] path_identity_spec(paths[i]) == path_identity_spec(path) {
            Ok::<int, Seq<char>>(last_of_document(paths, hex_spec(path_identity_spec(path)), paths.len() as int))
        } else {
            Err::<int, Seq<char>>(lost_cursor_message())
        }),
{
    let dec = decimal(revision as nat);
    let sig = hex_spec(signature);
    let doc = hex_spec(path_identity_spec(path));
    let c = cursor_text(revision, signature, path_identity_spec(path));
    lemma_decimal_digits(revision as nat);
    lemma_hex_no_colon(signature);
    let v2 = seq!['v', '2'];
    assert(c == v2 + seq![':'] + (dec + seq![':'] + sig + seq![':'] + doc));
    lemma_first_colon_after(v2, dec + seq![':'] + sig + seq![':'] + doc);
    let r1 = dec + seq![':'] + (sig + seq![':'] + doc);
    assert(c.skip(3) == r1);
    assert forall|m: int| 0 <= m < dec.len() implies dec[m] != ':' by {
        assert('0' <= dec[m] && dec[m] <= '9');
    }
    lemma_first_colon_after(dec, sig + seq![':'] + doc);
    let r2 = sig + seq![':'] + doc;
    assert(r1.skip(dec.len() as int + 1) == r2);
    lemma_first_colon_after(sig, doc);
    assert(r2.skip(sig.len() as int + 1) == doc);
    assert(c.take(2) == v2);
    assert(r1.take(dec.len() as int) == dec);
    assert(r2.take(sig.len() as int) == sig);
    assert(split_parts(doc, 1) == seq![doc]);
    assert(split_parts(r2, 2) == seq![sig] + split_parts(doc, 1));
    assert(split_parts(r1, 3) == seq![dec] + split_parts(r2, 2));
    assert(split_parts(c, 4) == seq![v2] + split_parts(r1, 3));
    let parts = split_parts(c, 4);
    assert(parts =~= seq![v2, dec, sig, doc]);
    lemma_parse_decimal(revision);
    assert forall|i: int| 0 <= i < paths.len() implies (#[trigger] hex_spec(path_identity_spec(paths[i])) == doc) == (path_identity_spec(paths[i]) == path_identity_spec(path)) by {
        if hex_spec(path_identity_spec(paths[i])) == doc {
            lemma_hex_injective(path_identity_spec(paths[i]), path_identity_spec(path));
        }
    }
}

} // verus!
