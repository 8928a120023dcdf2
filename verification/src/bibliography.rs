//! CSL JSON bibliographies: records, how a citation id resolves, where a
//! declared bibliography file may lie, and the order of loaded records.
use vstd::prelude::*;
use crate::order::{push_str_key, sort_by_keys, sorted_permutation, permuted, str_key, unique_sorted, unique_sorted_by};
use crate::paths::{
    components, has_root, normalize_components, path_components, path_key, push_path_key, pushed,
    root_component, views,
};
use crate::text::{chars_equal, chars_of, extend_chars, is_control, is_control_char, str_eq, string_from_chars};

verus! {

/// One entry of a bibliography file.
#[derive(Debug, PartialEq, Eq)]
pub struct BibliographyRecord {
    pub id: String,
    pub title: Option<String>,
    pub authors: Vec<String>,
    pub year: Option<String>,
    pub path: String,
    pub range: std::ops::Range<usize>,
}

/// The texts joined with `sep` between them.
pub open spec fn joined(parts: Seq<Seq<char>>, sep: Seq<char>) -> Seq<char>
    decreases parts.len(),
{
    if parts.len() == 0 {
        seq![]
    } else if parts.len() == 1 {
        parts[0]
    } else {
        joined(parts.drop_last(), sep) + sep + parts.last()
    }
}

pub open spec fn string_texts(v: Seq<String>) -> Seq<Seq<char>> {
    v.map_values(|s: String| s@)
}

/// The parts of a record's detail line: its authors (joined with `, `),
/// its year and its title, each when present.
pub open spec fn detail_parts(r: BibliographyRecord) -> Seq<Seq<char>> {
    let authors: Seq<Seq<char>> = if r.authors.len() > 0 {
        seq![joined(string_texts(r.authors@), seq![',', ' '])]
    } else {
        seq![]
    };
    let year: Seq<Seq<char>> = match r.year {
        Some(y) => seq![y@],
        None => seq![],
    };
    let title: Seq<Seq<char>> = match r.title {
        Some(t) => seq![t@],
        None => seq![],
    };
    authors + year + title
}

/// The detail line of a record: its parts joined with ` · `, or
/// `CSL JSON citation` when it has none.
pub open spec fn detail_spec(r: BibliographyRecord) -> Seq<char> {
    if detail_parts(r).len() == 0 {
        "CSL JSON citation"@
    } else {
        joined(detail_parts(r), seq![' ', '·', ' '])
    }
}

fn join_exec(parts: &Vec<Vec<char>>, sep: &Vec<char>) -> (out: Vec<char>)
    ensures
        out@ == joined(parts@.map_values(|p: Vec<char>| p@), sep@),
{
    let ghost ps = parts@.map_values(|p: Vec<char>| p@);
    let mut out: Vec<char> = Vec::new();
    let mut i: usize = 0;
    while i < parts.len()
        invariant
            i <= parts.len(),
            ps == parts@.map_values(|p: Vec<char>| p@),
            out@ == joined(ps.take(i as int), sep@),
        decreases parts.len() - i,
    {
        let ghost before = out@;
        if i > 0 {
            extend_chars(&mut out, sep);
        }
        extend_chars(&mut out, &parts[i]);
        proof {
            assert(ps.take(i + 1).drop_last() == ps.take(i as int));
            assert(ps.take(i + 1).last() == parts@[i as int]@);
            if i == 0 {
                assert(ps.take(1)[0] == parts@[0]@);
                assert(out@ =~= joined(ps.take(1), sep@));
            }
        }
        i = i + 1;
    }
    assert(ps.take(parts.len() as int) == ps);
    out
}

fn texts_of(v: &Vec<String>) -> (out: Vec<Vec<char>>)
    ensures
        out@.map_values(|p: Vec<char>| p@) == string_texts(v@),
{
    let mut out: Vec<Vec<char>> = Vec::new();
    let mut i: usize = 0;
    while i < v.len()
        invariant
            i <= v.len(),
            out.len() == i,
            forall|k: int| 0 <= k < i ==> #[trigger] out@[k]@ == v@[k]@,
        decreases v.len() - i,
    {
        out.push(chars_of(v[i].as_str()));
        i = i + 1;
    }
    assert(out@.map_values(|p: Vec<char>| p@) =~= string_texts(v@));
    out
}

impl BibliographyRecord {
    /// The line shown with a citation completion (see `detail_spec`).
    pub fn detail(&self) -> (line: String)
        ensures
            line@ == detail_spec(*self),
    {
        let mut parts: Vec<Vec<char>> = Vec::new();
        let ghost mut expected: Seq<Seq<char>> = seq![];
        if self.authors.len() > 0 {
            let names = texts_of(&self.authors);
            parts.push(join_exec(&names, &vec![',', ' ']));
        }
        match &self.year {
            Some(year) => {
                parts.push(chars_of(year.as_str()));
            },
            None => {},
        }
        match &self.title {
            Some(title) => {
                parts.push(chars_of(title.as_str()));
            },
            None => {},
        }
        proof {
            assert(parts@.map_values(|p: Vec<char>| p@) =~= detail_parts(*self));
        }
        if parts.len() == 0 {
            return "CSL JSON citation".to_string();
        }
        let line = join_exec(&parts, &vec![' ', '·', ' ']);
        string_from_chars(&line)
    }
}

/// How a citation id resolves in a bibliography.
#[derive(Debug, PartialEq, Eq)]
pub enum BibliographyResolution<'a> {
    Resolved(&'a BibliographyRecord),
    Ambiguous,
    Unresolved,
}

/// The bibliography declared by a document.
#[derive(Debug)]
pub struct Bibliography {
    pub declared: bool,
    pub sources: Vec<String>,
    pub records: Vec<BibliographyRecord>,
    pub diagnostics: Vec<crate::diagnostics::WorkspaceDiagnostic>,
}

/// The number of records with id `id`.
pub open spec fn id_count(records: Seq<BibliographyRecord>, id: Seq<char>) -> int
    decreases records.len(),
{
    if records.len() == 0 {
        0
    } else {
        id_count(records.drop_last(), id) + if records.last().id@ == id {
            1int
        } else {
            0int
        }
    }
}

pub proof fn lemma_id_count(records: Seq<BibliographyRecord>, id: Seq<char>)
    ensures
        0 <= id_count(records, id) <= records.len(),
        id_count(records, id) == 0 ==> forall|i: int| 0 <= i < records.len() ==> #[trigger] records[i].id@ != id,
    decreases records.len(),
{
    if records.len() > 0 {
        lemma_id_count(records.drop_last(), id);
        if id_count(records, id) == 0 {
            assert forall|i: int| 0 <= i < records.len() implies #[trigger] records[i].id@ != id by {
                if i < records.len() - 1 {
                    assert(records.drop_last()[i] == records[i]);
                }
            }
        }
    }
}

impl Bibliography {
    /// Resolves a citation id: the one record with that id, `Ambiguous` when
    /// several have it, `Unresolved` when none does.
    pub fn resolve(&self, id: &str) -> (resolution: BibliographyResolution<'_>)
        ensures
            id_count(self.records@, id@) == 0 ==> resolution == BibliographyResolution::Unresolved,
            id_count(self.records@, id@) > 1 ==> resolution == BibliographyResolution::Ambiguous,
            id_count(self.records@, id@) == 1 ==> (resolution matches BibliographyResolution::Resolved(r) && exists|i: int|
                0 <= i < self.records.len() && *r == self.records@[i] && r.id@ == id@),
    {
        let mut count: usize = 0;
        let mut found: usize = 0;
        let mut i: usize = 0;
        while i < self.records.len()
            invariant
                i <= self.records.len(),
                count as int == id_count(self.records@.take(i as int), id@),
                count > 0 ==> found < i && self.records@[found as int].id@ == id@,
            decreases self.records.len() - i,
        {
            proof {
                assert(self.records@.take(i + 1).drop_last() == self.records@.take(i as int));
                assert(self.records@.take(i + 1).last() == self.records@[i as int]);
                lemma_id_count(self.records@.take(i as int), id@);
            }
            if str_eq(self.records[i].id.as_str(), id) {
                count = count + 1;
                found = i;
            }
            i = i + 1;
        }
        assert(self.records@.take(self.records.len() as int) == self.records@);
        if count == 0 {
            BibliographyResolution::Unresolved
        } else if count == 1 {
            BibliographyResolution::Resolved(&self.records[found])
        } else {
            BibliographyResolution::Ambiguous
        }
    }
}

// ---------------------------------------------------------------------------
// Where a bibliography file may lie.

/// The directory that relative bibliography paths start from: the
/// document's parent, or the root when the document has none.
pub open spec fn base_components(root: Seq<char>, document: Seq<char>) -> Seq<Seq<char>> {
    let cs = path_components(document);
    if cs.len() == 0 || cs.last() == root_component() {
        path_components(root)
    } else {
        cs.drop_last()
    }
}

/// Whether a declared bibliography path can be used: nonempty, without
/// `\` or control characters, relative, and naming a `.json` file.
pub open spec fn bibliography_value_ok(value: Seq<char>) -> bool {
    &&& value.len() > 0
    &&& forall|i: int| 0 <= i < value.len() ==> #[trigger] value[i] != '\\' && !is_control_char(value[i])
    &&& !has_root(value)
    &&& match crate::paths::file_name(value) {
        Some(name) => crate::paths::name_extension(name) == Some(seq!['j', 's', 'o', 'n']),
        None => false,
    }
}

/// The lexical resolution of a declared bibliography path: the declared
/// path joined to the document's directory and normalised, when it lies
/// under the workspace root.
pub open spec fn bibliography_candidate_spec(root: Seq<char>, document: Seq<char>, value: Seq<char>) -> Option<Seq<char>> {
    let joined = normalize_components(base_components(root, document) + path_components(value));
    let r = path_components(root);
    if bibliography_value_ok(value) && r.len() <= joined.len() && joined.take(r.len() as int) == r {
        Some(pushed(joined))
    } else {
        None
    }
}

fn components_prefix(prefix: &Vec<Vec<char>>, of: &Vec<Vec<char>>) -> (is_prefix: bool)
    ensures
        is_prefix == (prefix.len() <= of.len() && views(of@).take(prefix.len() as int) == views(prefix@)),
{
    if prefix.len() > of.len() {
        return false;
    }
    let mut i: usize = 0;
    while i < prefix.len()
        invariant
            i <= prefix.len() <= of.len(),
            forall|k: int| 0 <= k < i ==> views(prefix@)[k] == views(of@)[k],
        decreases prefix.len() - i,
    {
        assert(views(prefix@)[i as int] == prefix@[i as int]@);
        assert(views(of@)[i as int] == of@[i as int]@);
        if !chars_equal(&prefix[i], &of[i]) {
            assert(views(of@).take(prefix.len() as int)[i as int] != views(prefix@)[i as int]);
            return false;
        }
        i = i + 1;
    }
    assert(views(of@).take(prefix.len() as int) =~= views(prefix@));
    true
}

fn value_ok(value: &str) -> (ok: bool)
    ensures
        ok == bibliography_value_ok(value@),
{
    let chars = chars_of(value);
    if chars.len() == 0 {
        return false;
    }
    let mut i: usize = 0;
    while i < chars.len()
        invariant
            i <= chars.len(),
            chars@ == value@,
            forall|k: int| 0 <= k < i ==> #[trigger] chars@[k] != '\\' && !is_control_char(chars@[k]),
        decreases chars.len() - i,
    {
        if chars[i] == '\\' || is_control(chars[i]) {
            assert(!(value@[i as int] != '\\' && !is_control_char(value@[i as int])));
            return false;
        }
        i = i + 1;
    }
    if chars[0] == '/' {
        return false;
    }
    match crate::paths::extension_of(value) {
        Some(ext) => chars_equal(&ext, &vec!['j', 's', 'o', 'n']),
        None => false,
    }
}

/// The lexical resolution of a declared bibliography path (see
/// `bibliography_candidate_spec`).
pub fn bibliography_candidate(root: &str, document_path: &str, value: &str) -> (candidate: Option<String>)
    ensures
        match bibliography_candidate_spec(root@, document_path@, value@) {
            Some(p) => candidate matches Some(c) && c@ == p,
            None => candidate is None,
        },
{
    if !value_ok(value) {
        return None;
    }
    let mut base = components(document_path);
    let n = base.len();
    let has_parent = n > 0 && !(base[n - 1].len() == 1 && base[n - 1][0] == '/');
    proof {
        if n > 0 {
            let last = base@[n - 1]@;
            assert(views(base@).last() == last);
            if last == root_component() {
                assert(last.len() == 1 && last[0] == '/');
            }
            if last.len() == 1 && last[0] == '/' {
                assert(last =~= root_component());
            }
        }
    }
    if has_parent {
        let ghost before = base@;
        base.pop();
        proof {
            assert(views(base@) =~= views(before).drop_last());
        }
    } else {
        base = components(root);
    }
    let tail = components(value);
    let ghost head = base@;
    let mut i: usize = 0;
    while i < tail.len()
        invariant
            i <= tail.len(),
            views(base@) == views(head) + views(tail@).take(i as int),
        decreases tail.len() - i,
    {
        let ghost before = base@;
        base.push(tail[i].clone());
        proof {
            assert(views(base@) =~= views(before).push(tail@[i as int]@));
            assert(views(tail@).take(i + 1) == views(tail@).take(i as int).push(tail@[i as int]@));
        }
        i = i + 1;
    }
    assert(views(tail@).take(tail.len() as int) == views(tail@));
    let joined = crate::paths::normalize_all(&base);
    let r = components(root);
    if !components_prefix(&r, &joined) {
        return None;
    }
    let buf = crate::paths::push_all(&joined);
    Some(string_from_chars(&buf))
}

/// Where a declared bibliography lies: its lexical resolution, kept when
/// the file cannot be canonicalised (`canonical` is `None`) or when its
/// canonical path lies under the canonical workspace root.
pub fn resolve_source(
    root: &str,
    canonical_root: &str,
    document_path: &str,
    value: &str,
    canonical: Option<String>,
) -> (resolved: Option<String>)
    ensures
        match bibliography_candidate_spec(root@, document_path@, value@) {
            Some(p) => match canonical {
                None => resolved matches Some(c) && c@ == p,
                Some(c) => {
                    let r = path_components(canonical_root@);
                    let cs = path_components(c@);
                    if r.len() <= cs.len() && cs.take(r.len() as int) == r {
                        resolved matches Some(x) && x@ == p
                    } else {
                        resolved is None
                    }
                },
            },
            None => resolved is None,
        },
{
    let candidate = match bibliography_candidate(root, document_path, value) {
        Some(c) => c,
        None => {
            return None;
        },
    };
    match canonical {
        None => Some(candidate),
        Some(c) => {
            let r = components(canonical_root);
            let cs = components(c.as_str());
            if components_prefix(&r, &cs) {
                Some(candidate)
            } else {
                None
            }
        },
    }
}

// ---------------------------------------------------------------------------
// Loaded records.

/// The sort key of a record: its id, then its file's path.
pub open spec fn record_key(r: BibliographyRecord) -> Seq<i128> {
    str_key(r.id@) + path_key(r.path@)
}

pub open spec fn record_keys(records: Seq<BibliographyRecord>) -> Seq<Seq<i128>> {
    records.map_values(|r: BibliographyRecord| record_key(r))
}

/// The ids that more than one record carries, as they occur.
pub open spec fn repeated_ids(records: Seq<BibliographyRecord>, all: Seq<BibliographyRecord>) -> Seq<String>
    decreases records.len(),
{
    if records.len() == 0 {
        seq![]
    } else {
        let rest = repeated_ids(records.drop_last(), all);
        if id_count(all, records.last().id@) > 1 {
            rest.push(records.last().id)
        } else {
            rest
        }
    }
}

pub open spec fn id_keys(ids: Seq<String>) -> Seq<Seq<i128>> {
    ids.map_values(|s: String| str_key(s@))
}

/// Orders loaded records by id, then path (stably), and lists the ids that
/// are defined more than once, each once, in order.
pub fn finish_bibliography(records: Vec<BibliographyRecord>) -> (result: (Vec<BibliographyRecord>, Vec<String>))
    ensures
        exists|perm: Seq<int>| sorted_permutation(record_keys(records@), perm) && permuted(records@, result.0@, perm),
        unique_sorted_by(repeated_ids(records@, records@), id_keys(repeated_ids(records@, records@)), result.1@),
{
    let ghost all = records@;
    let mut repeated: Vec<String> = Vec::new();
    let mut i: usize = 0;
    while i < records.len()
        invariant
            i <= records.len(),
            all == records@,
            repeated@ == repeated_ids(records@.take(i as int), all),
        decreases records.len() - i,
    {
        let mut count: usize = 0;
        let mut j: usize = 0;
        while j < records.len()
            invariant
                j <= records.len(),
                i < records.len(),
                count as int == id_count(records@.take(j as int), records@[i as int].id@),
            decreases records.len() - j,
        {
            proof {
                assert(records@.take(j + 1).drop_last() == records@.take(j as int));
                assert(records@.take(j + 1).last() == records@[j as int]);
                lemma_id_count(records@.take(j as int), records@[i as int].id@);
            }
            if str_eq(records[j].id.as_str(), records[i].id.as_str()) {
                count = count + 1;
            }
            j = j + 1;
        }
        proof {
            assert(records@.take(records.len() as int) == records@);
            assert(records@.take(i + 1).drop_last() == records@.take(i as int));
            assert(records@.take(i + 1).last() == records@[i as int]);
        }
        if count > 1 {
            repeated.push(records[i].id.clone());
        }
        i = i + 1;
    }
    assert(records@.take(records.len() as int) == records@);
    let mut id_key_vec: Vec<Vec<i128>> = Vec::new();
    let mut k: usize = 0;
    while k < repeated.len()
        invariant
            k <= repeated.len(),
            id_key_vec.len() == k,
            forall|x: int| 0 <= x < k ==> #[trigger] id_key_vec@[x]@ == str_key(repeated@[x]@),
        decreases repeated.len() - k,
    {
        let mut key: Vec<i128> = Vec::new();
        push_str_key(&mut key, &chars_of(repeated[k].as_str()));
        assert(key@ =~= str_key(repeated@[k as int]@));
        id_key_vec.push(key);
        k = k + 1;
    }
    proof {
        assert(id_key_vec@.map_values(|x: Vec<i128>| x@) =~= id_keys(repeated@));
    }
    let duplicates = unique_sorted(repeated, &id_key_vec);
    let mut keys: Vec<Vec<i128>> = Vec::new();
    let mut m: usize = 0;
    while m < records.len()
        invariant
            m <= records.len(),
            keys.len() == m,
            forall|x: int| 0 <= x < m ==> #[trigger] keys@[x]@ == record_key(records@[x]),
        decreases records.len() - m,
    {
        let mut key: Vec<i128> = Vec::new();
        push_str_key(&mut key, &chars_of(records[m].id.as_str()));
        push_path_key(&mut key, records[m].path.as_str());
        assert(key@ =~= record_key(records@[m as int]));
        keys.push(key);
        m = m + 1;
    }
    proof {
        assert(keys@.map_values(|x: Vec<i128>| x@) =~= record_keys(records@));
    }
    let sorted = sort_by_keys(records, &keys);
    (sorted, duplicates)
}

} // verus!
