//! Bibliography files in CSL JSON: the records a parsed file holds, and
//! where in the file's text each record's id is written.  Parsing the JSON
//! text into a `JsonValue` is the caller's part.
use vstd::prelude::*;
use crate::bibliography::BibliographyRecord;
use crate::cursor::decimal_u64;
use crate::ids::decimal;
use crate::text::{char_utf8_width, chars_of, is_white_space, is_whitespace, str_eq, string_from_chars, utf8_len};
use crate::workflow::opt_view;

verus! {

/// A JSON value; numbers are kept as integers when they fit in `i64`.
#[derive(Debug, PartialEq)]
pub enum JsonValue {
    Null,
    Bool(bool),
    Int(i64),
    /// A number that is not an `i64`.
    Number,
    Str(String),
    Array(Vec<JsonValue>),
    Object(Vec<(String, JsonValue)>),
}

/// What `serde_json::to_string` makes of a string: its JSON spelling, in
/// quotes and escaped; `None` if serialisation fails.
pub uninterp spec fn json_string_text(s: Seq<char>) -> Option<Seq<char>>;

/// Spells a string as a JSON string literal with `serde_json::to_string`.
/// The result is the name `json_string_text` of the string; the escaping
/// rules are serde_json's.
#[verifier::external_body]
fn json_quoted(s: &str) -> (quoted: Option<String>)
    ensures
        opt_view(quoted) == json_string_text(s@),
{
    serde_json::to_string(s).ok()
}

/// The value of the first field named `key`.
pub open spec fn field(fields: Seq<(String, JsonValue)>, key: Seq<char>) -> Option<JsonValue>
    decreases fields.len(),
{
    if fields.len() == 0 {
        None
    } else if fields[0].0@ == key {
        Some(fields[0].1)
    } else {
        field(fields.skip(1), key)
    }
}

/// The field `key` of an object (`Value::get`): none for other values.
pub open spec fn get(v: Option<JsonValue>, key: Seq<char>) -> Option<JsonValue> {
    match v {
        Some(JsonValue::Object(fields)) => field(fields@, key),
        _ => None,
    }
}

/// A string value's text.
pub open spec fn as_text(v: Option<JsonValue>) -> Option<Seq<char>> {
    match v {
        Some(JsonValue::Str(s)) => Some(s@),
        _ => None,
    }
}

/// The first element of an array value.
pub open spec fn first_element(v: Option<JsonValue>) -> Option<JsonValue> {
    match v {
        Some(JsonValue::Array(items)) => if items.len() > 0 {
            Some(items@[0])
        } else {
            None
        },
        _ => None,
    }
}

/// An author's name: the literal name, else the family name.
pub open spec fn author_name(v: JsonValue) -> Option<Seq<char>> {
    match v {
        JsonValue::Object(_) => match as_text(get(Some(v), "literal"@)) {
            Some(n) => Some(n),
            None => as_text(get(Some(v), "family"@)),
        },
        _ => None,
    }
}

/// The names of the authors that have one, in order.
pub open spec fn author_names(items: Seq<JsonValue>) -> Seq<Seq<char>>
    decreases items.len(),
{
    if items.len() == 0 {
        seq![]
    } else {
        let rest = author_names(items.drop_last());
        match author_name(items.last()) {
            Some(n) => rest.push(n),
            None => rest,
        }
    }
}

/// The authors of an item.
pub open spec fn authors_of(item: JsonValue) -> Seq<Seq<char>> {
    match get(Some(item), "author"@) {
        Some(JsonValue::Array(items)) => author_names(items@),
        _ => seq![],
    }
}

/// The decimal spelling of an integer.
pub open spec fn int_text(i: i64) -> Seq<char> {
    if i < 0 {
        seq!['-'] + decimal((-i) as nat)
    } else {
        decimal(i as nat)
    }
}

/// The year of an item: the first part of the first date of `issued`, as
/// an integer or a string.
pub open spec fn year_of(item: JsonValue) -> Option<Seq<char>> {
    match first_element(first_element(get(get(Some(item), "issued"@), "date-parts"@))) {
        Some(JsonValue::Int(i)) => Some(int_text(i)),
        Some(JsonValue::Str(s)) => Some(s@),
        _ => None,
    }
}

// ---------------------------------------------------------------------------
// Where an id is written.

/// Whether `pat` occurs in `t` at `i`.
pub open spec fn occurs(t: Seq<char>, pat: Seq<char>, i: int) -> bool {
    0 <= i && i + pat.len() <= t.len() && t.subrange(i, i + pat.len()) == pat
}

/// The first position at or after `c` where `pat` occurs.
pub open spec fn find_from(t: Seq<char>, pat: Seq<char>, c: int) -> Option<int>
    decreases t.len() + 1 - c,
{
    if c < 0 || c > t.len() {
        None
    } else if occurs(t, pat, c) {
        Some(c)
    } else {
        find_from(t, pat, c + 1)
    }
}

/// The first position at or after `c` that is not whitespace.
pub open spec fn non_space_from(t: Seq<char>, c: int) -> Option<int>
    decreases t.len() - c,
{
    if c < 0 || c >= t.len() {
        None
    } else if !is_white_space(t[c]) {
        Some(c)
    } else {
        non_space_from(t, c + 1)
    }
}

/// The `"id"` key.
pub open spec fn id_key() -> Seq<char> {
    seq!['"', 'i', 'd', '"']
}

/// Where, searching from `c`, an `"id"` key is followed (after `:` and
/// whitespace) by the spelling `v`: the position of the spelling.  A key
/// followed by something else is passed over; the search gives up when no
/// `:` or no non-space character follows a key.
pub open spec fn id_value_at(t: Seq<char>, v: Seq<char>, c: int) -> Option<int>
    decreases t.len() - c,
{
    if c < 0 || c > t.len() {
        None
    } else {
        match find_from(t, id_key(), c) {
            None => None,
            Some(k) => match find_from(t, seq![':'], k + 4) {
                None => None,
                Some(colon) => match non_space_from(t, colon + 1) {
                    None => None,
                    Some(vs) => if occurs(t, v, vs) {
                        Some(vs)
                    } else if k + 4 > c {
                        id_value_at(t, v, k + 4)
                    } else {
                        None
                    },
                },
            },
        }
    }
}

proof fn lemma_find_from_bounds(t: Seq<char>, pat: Seq<char>, c: int)
    ensures
        find_from(t, pat, c) matches Some(i) ==> c <= i && occurs(t, pat, i),
    decreases t.len() + 1 - c,
{
    if 0 <= c <= t.len() && !occurs(t, pat, c) {
        lemma_find_from_bounds(t, pat, c + 1);
    }
}

proof fn lemma_non_space_bounds(t: Seq<char>, c: int)
    ensures
        non_space_from(t, c) matches Some(i) ==> c <= i < t.len(),
    decreases t.len() - c,
{
    if 0 <= c < t.len() && is_white_space(t[c]) {
        lemma_non_space_bounds(t, c + 1);
    }
}

fn occurs_exec(t: &Vec<char>, pat: &Vec<char>, i: usize) -> (found: bool)
    ensures
        found == occurs(t@, pat@, i as int),
{
    if i > t.len() || pat.len() > t.len() - i {
        return false;
    }
    let mut k: usize = 0;
    while k < pat.len()
        invariant
            i + pat.len() <= t.len(),
            k <= pat.len(),
            forall|m: int| 0 <= m < k ==> t@[i + m] == pat@[m],
        decreases pat.len() - k,
    {
        if t[i + k] != pat[k] {
            assert(t@.subrange(i as int, i + pat.len())[k as int] != pat@[k as int]);
            return false;
        }
        k = k + 1;
    }
    assert(t@.subrange(i as int, i + pat.len()) =~= pat@);
    true
}

fn find_from_exec(t: &Vec<char>, pat: &Vec<char>, c: usize) -> (found: Option<usize>)
    ensures
        match find_from(t@, pat@, c as int) {
            Some(i) => found == Some(i as usize) && c <= i <= t.len() && occurs(t@, pat@, i),
            None => found is None,
        },
{
    proof {
        lemma_find_from_bounds(t@, pat@, c as int);
    }
    if c > t.len() {
        return None;
    }
    let mut i = c;
    while i < t.len()
        invariant
            c <= i <= t.len(),
            find_from(t@, pat@, c as int) == find_from(t@, pat@, i as int),
        decreases t.len() - i,
    {
        if occurs_exec(t, pat, i) {
            return Some(i);
        }
        i = i + 1;
    }
    if occurs_exec(t, pat, i) {
        Some(i)
    } else {
        assert(find_from(t@, pat@, i + 1) is None);
        None
    }
}

fn non_space_from_exec(t: &Vec<char>, c: usize) -> (found: Option<usize>)
    ensures
        match non_space_from(t@, c as int) {
            Some(i) => found == Some(i as usize) && c <= i < t.len(),
            None => found is None,
        },
{
    proof {
        lemma_non_space_bounds(t@, c as int);
    }
    let mut i = c;
    while i < t.len()
        invariant
            c <= i,
            non_space_from(t@, c as int) == non_space_from(t@, i as int),
        decreases t.len() - i,
    {
        if !is_whitespace(t[i]) {
            return Some(i);
        }
        i = i + 1;
    }
    None
}

/// Finds where an id's JSON spelling follows an `"id"` key, searching from
/// position `c` (see `id_value_at`).
fn id_value_at_exec(t: &Vec<char>, v: &Vec<char>, c: usize) -> (found: Option<usize>)
    ensures
        match id_value_at(t@, v@, c as int) {
            Some(i) => found == Some(i as usize) && occurs(t@, v@, i),
            None => found is None,
        },
{
    proof {
        lemma_id_value_occurs(t@, v@, c as int);
    }
    let key: Vec<char> = vec!['"', 'i', 'd', '"'];
    let colon: Vec<char> = vec![':'];
    assert(key@ =~= id_key());
    assert(colon@ =~= seq![':']);
    let mut cursor = c;
    if cursor > t.len() {
        return None;
    }
    while cursor <= t.len()
        invariant
            key@ == id_key(),
            colon@ == seq![':'],
            id_value_at(t@, v@, c as int) == id_value_at(t@, v@, cursor as int),
        decreases t.len() + 1 - cursor,
    {
        let k = match find_from_exec(t, &key, cursor) {
            Some(k) => k,
            None => return None,
        };
        let col = match find_from_exec(t, &colon, k + 4) {
            Some(x) => x,
            None => return None,
        };
        let vs = match non_space_from_exec(t, col + 1) {
            Some(x) => x,
            None => return None,
        };
        proof {
            assert(find_from(t@, id_key(), cursor as int) == Some(k as int));
            assert(find_from(t@, seq![':'], k + 4) == Some(col as int));
            assert(non_space_from(t@, col + 1) == Some(vs as int));
        }
        if occurs_exec(t, v, vs) {
            assert(id_value_at(t@, v@, cursor as int) == Some(vs as int));
            return Some(vs);
        }
        if k + 4 > t.len() {
            proof {
                assert(find_from(t@, seq![':'], k + 4) is None);
            }
            return None;
        }
        cursor = k + 4;
    }
    None
}

// ---------------------------------------------------------------------------
// Records.

/// A record as plain values: id, title, authors, year, file and the byte
/// span of the id's spelling.
pub open spec fn record_view(r: BibliographyRecord) -> (Seq<char>, Option<Seq<char>>, Seq<Seq<char>>, Option<Seq<char>>, Seq<char>, int, int) {
    (r.id@, opt_view(r.title), r.authors@.map_values(|a: String| a@), opt_view(r.year), r.path@, r.range.start as int, r.range.end as int)
}

/// The id of an item, when it is a nonempty string.
pub open spec fn item_id(item: JsonValue) -> Option<Seq<char>> {
    match as_text(get(Some(item), "id"@)) {
        Some(id) => if id.len() > 0 {
            Some(id)
        } else {
            None
        },
        None => None,
    }
}

/// The records of the items from the `k`-th on, searching for ids from
/// character `c` of the text, or the first error.
pub open spec fn records_from(
    path: Seq<char>,
    t: Seq<char>,
    items: Seq<JsonValue>,
    k: int,
    c: int,
) -> Result<Seq<(Seq<char>, Option<Seq<char>>, Seq<Seq<char>>, Option<Seq<char>>, Seq<char>, int, int)>, Seq<char>>
    decreases items.len() - k,
{
    if k < 0 || k >= items.len() {
        Ok(seq![])
    } else {
        let item = items[k];
        if !(item is Object) {
            Err("each item must be an object"@)
        } else {
            match item_id(item) {
                None => Err("each item must have a nonempty string id"@),
                Some(id) => match json_string_text(id) {
                    None => Err("cannot locate source for id '"@ + id + seq!['\'']),
                    Some(v) => match id_value_at(t, v, c) {
                        None => Err("cannot locate source for id '"@ + id + seq!['\'']),
                        Some(vs) => match records_from(path, t, items, k + 1, vs + v.len()) {
                            Err(e) => Err(e),
                            Ok(rest) => Ok(
                                seq![(
                                    id,
                                    as_text(get(Some(item), "title"@)),
                                    authors_of(item),
                                    year_of(item),
                                    path,
                                    utf8_len(t.take(vs)) as int,
                                    utf8_len(t.take(vs + v.len())) as int,
                                )] + rest,
                            ),
                        },
                    },
                },
            }
        }
    }
}

/// The records of a CSL JSON file at `path` whose text is `text` and whose
/// parse is `parsed` (the parser's message on failure).
pub open spec fn csl_records_spec(
    path: Seq<char>,
    text: Seq<char>,
    parsed: Result<JsonValue, String>,
) -> Result<Seq<(Seq<char>, Option<Seq<char>>, Seq<Seq<char>>, Option<Seq<char>>, Seq<char>, int, int)>, Seq<char>> {
    match parsed {
        Err(message) => Err(message@),
        Ok(JsonValue::Array(items)) => records_from(path, text, items@, 0, 0),
        Ok(_) => Err("root must be an array"@),
    }
}

fn field_exec<'a>(fields: &'a Vec<(String, JsonValue)>, key: &str) -> (found: Option<&'a JsonValue>)
    ensures
        match field(fields@, key@) {
            Some(x) => found matches Some(r) && *r == x,
            None => found is None,
        },
{
    let mut i: usize = 0;
    assert(fields@.skip(0) == fields@);
    while i < fields.len()
        invariant
            i <= fields.len(),
            field(fields@, key@) == field(fields@.skip(i as int), key@),
        decreases fields.len() - i,
    {
        assert(fields@.skip(i as int)[0] == fields@[i as int]);
        assert(fields@.skip(i as int).skip(1) == fields@.skip(i + 1));
        if str_eq(fields[i].0.as_str(), key) {
            return Some(&fields[i].1);
        }
        i = i + 1;
    }
    None
}

fn get_exec<'a>(v: Option<&'a JsonValue>, key: &str) -> (found: Option<&'a JsonValue>)
    ensures
        match get(match v { Some(x) => Some(*x), None => None }, key@) {
            Some(x) => found matches Some(r) && *r == x,
            None => found is None,
        },
{
    match v {
        Some(JsonValue::Object(fields)) => field_exec(fields, key),
        _ => None,
    }
}

pub open spec fn deref_opt(v: Option<&JsonValue>) -> Option<JsonValue> {
    match v {
        Some(x) => Some(*x),
        None => None,
    }
}

fn as_text_exec(v: Option<&JsonValue>) -> (text: Option<String>)
    ensures
        opt_view(text) == as_text(deref_opt(v)),
{
    match v {
        Some(JsonValue::Str(s)) => Some(s.clone()),
        _ => None,
    }
}

fn first_element_exec<'a>(v: Option<&'a JsonValue>) -> (first: Option<&'a JsonValue>)
    ensures
        deref_opt(first) == first_element(deref_opt(v)),
{
    match v {
        Some(JsonValue::Array(items)) => if items.len() > 0 {
            Some(&items[0])
        } else {
            None
        },
        _ => None,
    }
}

fn author_name_exec(v: &JsonValue) -> (name: Option<String>)
    ensures
        opt_view(name) == author_name(*v),
{
    match v {
        JsonValue::Object(_) => match as_text_exec(get_exec(Some(v), "literal")) {
            Some(n) => Some(n),
            None => as_text_exec(get_exec(Some(v), "family")),
        },
        _ => None,
    }
}

fn authors_exec(item: &JsonValue) -> (names: Vec<String>)
    ensures
        names@.map_values(|a: String| a@) == authors_of(*item),
{
    let mut names: Vec<String> = Vec::new();
    match get_exec(Some(item), "author") {
        Some(JsonValue::Array(items)) => {
            let mut i: usize = 0;
            while i < items.len()
                invariant
                    i <= items.len(),
                    names@.map_values(|a: String| a@) == author_names(items@.take(i as int)),
                decreases items.len() - i,
            {
                proof {
                    assert(items@.take(i + 1).drop_last() == items@.take(i as int));
                    assert(items@.take(i + 1).last() == items@[i as int]);
                }
                let ghost before = names@;
                match author_name_exec(&items[i]) {
                    Some(n) => {
                        names.push(n);
                        assert(names@.map_values(|a: String| a@) =~= before.map_values(|a: String| a@).push(names@.last()@));
                    },
                    None => {},
                }
                i = i + 1;
            }
            assert(items@.take(items.len() as int) == items@);
        },
        _ => {},
    }
    names
}

fn int_text_exec(i: i64) -> (text: Vec<char>)
    ensures
        text@ == int_text(i),
{
    if i < 0 {
        let magnitude: u64 = (-(i as i128)) as u64;
        let mut out: Vec<char> = vec!['-'];
        let digits = decimal_u64(magnitude);
        crate::text::extend_chars(&mut out, &digits);
        assert(out@ =~= seq!['-'] + decimal((-i) as nat));
        out
    } else {
        decimal_u64(i as u64)
    }
}

fn year_exec(item: &JsonValue) -> (year: Option<String>)
    ensures
        opt_view(year) == year_of(*item),
{
    let dates = get_exec(get_exec(Some(item), "issued"), "date-parts");
    match first_element_exec(first_element_exec(dates)) {
        Some(JsonValue::Int(i)) => Some(string_from_chars(&int_text_exec(*i))),
        Some(JsonValue::Str(s)) => Some(s.clone()),
        _ => None,
    }
}

fn prefix_bytes(t: &Vec<char>, n: usize) -> (bytes: usize)
    requires
        n <= t.len(),
        utf8_len(t@) <= usize::MAX,
    ensures
        bytes == utf8_len(t@.take(n as int)),
{
    let mut b: usize = 0;
    let mut i: usize = 0;
    while i < n
        invariant
            n <= t.len(),
            i <= n,
            utf8_len(t@) <= usize::MAX,
            b == utf8_len(t@.take(i as int)),
        decreases n - i,
    {
        proof {
            assert(t@.take(i + 1).drop_last() == t@.take(i as int));
            crate::text::lemma_utf8_len_prefix(t@, i + 1);
        }
        b = b + char_utf8_width(t[i]);
        i = i + 1;
    }
    b
}

/// The records of a CSL JSON file (see `csl_records_spec`): each item must
/// be an object with a nonempty string id whose spelling can be found in
/// the text after the previous record's.
pub fn csl_records(path: &str, text: &str, parsed: &Result<JsonValue, String>) -> (result: Result<
    Vec<BibliographyRecord>,
    String,
>)
    requires
        utf8_len(text@) <= usize::MAX,
    ensures
        match csl_records_spec(path@, text@, *parsed) {
            Ok(rs) => result matches Ok(v) && v@.map_values(|r: BibliographyRecord| record_view(r)) == rs,
            Err(e) => result matches Err(m) && m@ == e,
        },
{
    let items = match parsed {
        Err(message) => return Err(message.clone()),
        Ok(JsonValue::Array(items)) => items,
        Ok(_) => return Err("root must be an array".to_string()),
    };
    let t = chars_of(text);
    let mut records: Vec<BibliographyRecord> = Vec::new();
    let mut c: usize = 0;
    let mut k: usize = 0;
    assert(csl_records_spec(path@, text@, *parsed) == records_from(path@, t@, items@, 0, 0));
    assert(records@.map_values(|r: BibliographyRecord| record_view(r)) =~= seq![]);
    while k < items.len()
        invariant
            csl_records_spec(path@, text@, *parsed) == records_from(path@, t@, items@, 0, 0),
            t@ == text@,
            utf8_len(t@) <= usize::MAX,
            k <= items.len(),
            c <= t.len(),
            records_from(path@, t@, items@, 0, 0) == match records_from(path@, t@, items@, k as int, c as int) {
                Ok(rest) => Ok::<_, Seq<char>>(records@.map_values(|r: BibliographyRecord| record_view(r)) + rest),
                Err(e) => Err(e),
            },
        decreases items.len() - k,
    {
        let item = &items[k];
        let is_object = match item {
            JsonValue::Object(_) => true,
            _ => false,
        };
        if !is_object {
            return Err("each item must be an object".to_string());
        }
        let id = match as_text_exec(get_exec(Some(item), "id")) {
            Some(id) => id,
            None => return Err("each item must have a nonempty string id".to_string()),
        };
        let id_chars = chars_of(id.as_str());
        if id_chars.len() == 0 {
            return Err("each item must have a nonempty string id".to_string());
        }
        let mut lost: Vec<char> = chars_of("cannot locate source for id '");
        crate::text::extend_chars(&mut lost, &id_chars);
        lost.push('\'');
        assert(lost@ =~= "cannot locate source for id '"@ + id@ + seq!['\'']);
        let quoted = match json_quoted(id.as_str()) {
            Some(q) => q,
            None => return Err(string_from_chars(&lost)),
        };
        let v = chars_of(quoted.as_str());
        let vs = match id_value_at_exec(&t, &v, c) {
            Some(vs) => vs,
            None => return Err(string_from_chars(&lost)),
        };
        assert(occurs(t@, v@, vs as int));
        let start = prefix_bytes(&t, vs);
        let end = prefix_bytes(&t, vs + v.len());
        let record = BibliographyRecord {
            id,
            title: as_text_exec(get_exec(Some(item), "title")),
            authors: authors_exec(item),
            year: year_exec(item),
            path: path.to_string(),
            range: std::ops::Range { start, end },
        };
        let ghost before = records@.map_values(|r: BibliographyRecord| record_view(r));
        records.push(record);
        proof {
            assert(records@.map_values(|r: BibliographyRecord| record_view(r)) =~= before.push(record_view(records@.last())));
            let rest = records_from(path@, t@, items@, k + 1, vs + v.len());
            match rest {
                Ok(r) => {
                    assert(before + (seq![record_view(records@.last())] + r) =~= before.push(record_view(records@.last())) + r);
                },
                Err(e) => {},
            }
        }
        c = vs + v.len();
        k = k + 1;
    }
    Ok(records)
}

proof fn lemma_id_value_occurs(t: Seq<char>, v: Seq<char>, c: int)
    ensures
        id_value_at(t, v, c) matches Some(vs) ==> occurs(t, v, vs),
    decreases t.len() - c,
{
    if 0 <= c <= t.len() {
        match find_from(t, id_key(), c) {
            Some(k) => {
                lemma_find_from_bounds(t, id_key(), c);
                match find_from(t, seq![':'], k + 4) {
                    Some(colon) => match non_space_from(t, colon + 1) {
                        Some(vs) => if !occurs(t, v, vs) && k + 4 > c {
                            lemma_id_value_occurs(t, v, k + 4);
                        },
                        None => {},
                    },
                    None => {},
                }
            },
            None => {},
        }
    }
}


// ---------------------------------------------------------------------------
// Parsing the file.

/// The JSON value the text of a file parses to
/// (`serde_json::from_str::<serde_json::Value>`), in the library's form, or
/// the parser's error message.
pub uninterp spec fn json_parsed(text: Seq<char>) -> Result<JsonValue, String>;

#[verifier::external_type_specification]
#[verifier::external_body]
pub struct ExSerdeJsonValue(serde_json::Value);

/// Turns a `serde_json::Value` into the library's form, one variant for one
/// variant (numbers that are `i64` kept); part of `parse_json`'s conversion.
#[verifier::external_body]
fn json_from_serde(value: &serde_json::Value) -> JsonValue {
    match value {
        serde_json::Value::Null => JsonValue::Null,
        serde_json::Value::Bool(b) => JsonValue::Bool(*b),
        serde_json::Value::Number(n) => n.as_i64().map_or(JsonValue::Number, JsonValue::Int),
        serde_json::Value::String(s) => JsonValue::Str(s.clone()),
        serde_json::Value::Array(items) => JsonValue::Array(items.iter().map(json_from_serde).collect()),
        serde_json::Value::Object(fields) => {
            JsonValue::Object(fields.iter().map(|(k, v)| (k.clone(), json_from_serde(v))).collect())
        },
    }
}

/// Parses a text with `serde_json::from_str::<serde_json::Value>`; the
/// result is the name `json_parsed` of the text (the value converted by
/// `json_from_serde`, the error by its `to_string`).
#[verifier::external_body]
fn parse_json(text: &str) -> (parsed: Result<JsonValue, String>)
    ensures
        parsed == json_parsed(text@),
{
    serde_json::from_str::<serde_json::Value>(text).map(|v| json_from_serde(&v)).map_err(|e| e.to_string())
}

/// The records of a CSL JSON file read from `path` with contents `text`:
/// the text is parsed as JSON, then read as `csl_records` does.
pub fn source_records(path: &str, text: &str) -> (result: Result<Vec<BibliographyRecord>, String>)
    requires
        utf8_len(text@) <= usize::MAX,
    ensures
        match csl_records_spec(path@, text@, json_parsed(text@)) {
            Ok(rs) => result matches Ok(v) && v@.map_values(|r: BibliographyRecord| record_view(r)) == rs,
            Err(e) => result matches Err(m) && m@ == e,
        },
{
    let parsed = parse_json(text);
    csl_records(path, text, &parsed)
}

} // verus!
