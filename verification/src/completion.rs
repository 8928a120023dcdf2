//! Link completion: the candidates offered for a link being typed, from the
//! documents of the workspace (their paths and titles) or from the explicit
//! anchors of the target document.
use vstd::prelude::*;
use crate::ids::{
    autolink_path_ok, escape_parsed_text, escaped, format_inline_verbatim, quotes, valid_autolink_completion_path,
    valid_bare, valid_bare_attribute_value, verbatim_payload_is_safe, verbatim_safe,
};
use crate::order::{index_before, lex_lt, permuted, push_str_key, sort_by_keys, sorted_permutation, str_key};
use crate::paths::{normalize, normalized, relative_path, relative_path_spec, resolve_relative, resolved_relative};
use crate::query::CompletionCandidate;
use crate::search::{fuzzy_match, fuzzy_match_spec};
use crate::refs::TaskRef;
use crate::cursor::decimal_u64;
use crate::text::{chars_of, extend_chars, str_eq, string_from_chars, utf8_len, utf8_len_exec};
use crate::workflow::TaskWorkflowState;

verus! {

/// The kind of link being completed and the spans a candidate replaces.
#[derive(Debug)]
pub enum LinkCompletionContext {
    /// A labelled link: the candidate writes the whole link.
    Label { replace: std::ops::Range<usize>, query: String },
    /// A link path, in parsed text or as a bare attribute value.
    Path { replace: std::ops::Range<usize>, query: String, parsed: bool },
    /// An autolink path, followed by `suffix` inside verbatim delimiters with
    /// `quote_count` quotes; `envelope` is the whole verbatim span.
    AutolinkPath {
        replace: std::ops::Range<usize>,
        envelope: std::ops::Range<usize>,
        quote_count: usize,
        suffix: String,
        query: String,
    },
    /// An anchor of the document at `path` (empty: the current document).
    Anchor { path: String, replace: std::ops::Range<usize>, query: String },
    /// An anchor inside an autolink.
    AutolinkAnchor { path: String, replace: std::ops::Range<usize>, query: String },
}

/// A copy of a span.
pub fn copy_range(r: &std::ops::Range<usize>) -> (c: std::ops::Range<usize>)
    ensures
        c == *r,
{
    std::ops::Range { start: r.start, end: r.end }
}

/// The title a document is offered under: its own, or its relative path
/// when it has none.
pub open spec fn shown_title(title: Seq<char>, relative: Seq<char>) -> Seq<char> {
    if title.len() == 0 {
        relative
    } else {
        title
    }
}

/// Whether the query matches the document's relative path or shown title.
pub open spec fn document_matches(relative: Seq<char>, title: Seq<char>, query: Seq<char>) -> bool {
    fuzzy_match_spec(relative, query) || fuzzy_match_spec(shown_title(title, relative), query)
}

/// Whether `text` spells `payload` as an inline verbatim span with the
/// fewest quotes that keep it intact.
pub open spec fn inline_verbatim(payload: Seq<char>, text: Seq<char>) -> bool {
    exists|n: nat|
        #![trigger quotes(n)]
        verbatim_safe(payload, n) && (forall|m: nat| m < n ==> !verbatim_safe(payload, m)) && text == seq!['`']
            + quotes(n) + seq!['['] + payload + seq![']'] + quotes(n)
}

/// The text a labelled link to a document is written as.
pub open spec fn label_link_text(title: Seq<char>, relative: Seq<char>) -> Seq<char> {
    "`->["@ + escaped(title) + seq!['|'] + escaped(relative) + seq![']']
}

/// The candidate offered for the document at `path` with `title`, when
/// completing from `from` in `context`: none for the current document, for
/// anchor contexts, or when the query matches neither path nor title.
pub open spec fn document_candidate_ok(
    from: Seq<char>,
    path: Seq<char>,
    title: Seq<char>,
    context: LinkCompletionContext,
    result: Option<CompletionCandidate>,
) -> bool {
    let rel = relative_path_spec(from, path);
    let t = shown_title(title, rel);
    if path == from {
        result is None
    } else {
        match context {
            LinkCompletionContext::Label { replace, query } => if document_matches(rel, title, query@) {
                result matches Some(c) && c.label@ == t && c.detail@ == rel && c.new_text@ == label_link_text(t, rel)
                    && c.replace == replace
            } else {
                result is None
            },
            LinkCompletionContext::Path { replace, query, parsed } => if document_matches(rel, title, query@) && (
            parsed || valid_bare(rel)) {
                result matches Some(c) && c.label@ == rel && c.detail@ == t && c.new_text@ == (if parsed {
                    escaped(rel)
                } else {
                    rel
                }) && c.replace == replace
            } else {
                result is None
            },
            LinkCompletionContext::AutolinkPath { replace, envelope, quote_count, suffix, query } => if autolink_path_ok(
                rel,
            ) && document_matches(rel, title, query@) {
                let payload = rel + suffix@;
                result matches Some(c) && c.label@ == rel && c.detail@ == t && if verbatim_safe(
                    payload,
                    quote_count as nat,
                ) {
                    c.new_text@ == rel && c.replace == replace
                } else {
                    inline_verbatim(payload, c.new_text@) && c.replace == envelope
                }
            } else {
                result is None
            },
            _ => result is None,
        }
    }
}

/// The candidate for one document (see `document_candidate_ok`).
pub fn document_link_candidate(from: &str, path: &str, title: &str, context: &LinkCompletionContext) -> (result: Option<
    CompletionCandidate,
>)
    ensures
        document_candidate_ok(from@, path@, title@, *context, result),
{
    if str_eq(path, from) {
        return None;
    }
    let relative = match relative_path(from, path) {
        Some(r) => r,
        None => return None,
    };
    let shown = if chars_of(title).len() == 0 { relative.clone() } else { title.to_string() };
    let matches = fuzzy_match(relative.as_str(), query_of(context)) || fuzzy_match(shown.as_str(), query_of(context));
    match context {
        LinkCompletionContext::Label { replace, query } => {
            if !matches {
                return None;
            }
            let mut text: Vec<char> = chars_of("`->[");
            let t = chars_of(escape_parsed_text(shown.as_str()).as_str());
            extend_chars(&mut text, &t);
            text.push('|');
            let r = chars_of(escape_parsed_text(relative.as_str()).as_str());
            extend_chars(&mut text, &r);
            text.push(']');
            proof {
                assert(text@ =~= label_link_text(shown@, relative@));
            }
            Some(
                CompletionCandidate {
                    label: shown,
                    detail: relative,
                    new_text: string_from_chars(&text),
                    replace: copy_range(replace),
                },
            )
        },
        LinkCompletionContext::Path { replace, query, parsed } => {
            if !matches {
                return None;
            }
            if !*parsed && !valid_bare_attribute_value(relative.as_str()) {
                return None;
            }
            let new_text = if *parsed { escape_parsed_text(relative.as_str()) } else { relative.clone() };
            Some(CompletionCandidate { label: relative, detail: shown, new_text, replace: copy_range(replace) })
        },
        LinkCompletionContext::AutolinkPath { replace, envelope, quote_count, suffix, query } => {
            if !valid_autolink_completion_path(relative.as_str()) {
                return None;
            }
            if !matches {
                return None;
            }
            let mut payload_chars = chars_of(relative.as_str());
            let s = chars_of(suffix.as_str());
            extend_chars(&mut payload_chars, &s);
            let payload = string_from_chars(&payload_chars);
            if verbatim_payload_is_safe(payload.as_str(), *quote_count) {
                Some(
                    CompletionCandidate {
                        label: relative.clone(),
                        detail: shown,
                        new_text: relative,
                        replace: copy_range(replace),
                    },
                )
            } else {
                let new_text = format_inline_verbatim(payload.as_str());
                Some(CompletionCandidate { label: relative, detail: shown, new_text, replace: copy_range(envelope) })
            }
        },
        _ => None,
    }
}

/// The query of a completion context.
pub open spec fn context_query(context: LinkCompletionContext) -> Seq<char> {
    match context {
        LinkCompletionContext::Label { query, .. } => query@,
        LinkCompletionContext::Path { query, .. } => query@,
        LinkCompletionContext::AutolinkPath { query, .. } => query@,
        LinkCompletionContext::Anchor { query, .. } => query@,
        LinkCompletionContext::AutolinkAnchor { query, .. } => query@,
    }
}

fn query_of(context: &LinkCompletionContext) -> (query: &str)
    ensures
        query@ == context_query(*context),
{
    match context {
        LinkCompletionContext::Label { query, .. } => query.as_str(),
        LinkCompletionContext::Path { query, .. } => query.as_str(),
        LinkCompletionContext::AutolinkPath { query, .. } => query.as_str(),
        LinkCompletionContext::Anchor { query, .. } => query.as_str(),
        LinkCompletionContext::AutolinkAnchor { query, .. } => query.as_str(),
    }
}

// ---------------------------------------------------------------------------
// Anchor candidates.

/// The document whose anchors are offered: the current one for an empty
/// path, otherwise the path resolved against the current document.
pub fn anchor_target(from: &str, path: &str) -> (target: String)
    ensures
        target@ == if path@.len() == 0 {
            from@
        } else {
            resolved_relative(from@, path@)
        },
{
    if chars_of(path).len() == 0 {
        from.to_string()
    } else {
        resolve_relative(from, path)
    }
}

/// The candidate for the explicit anchor `id` of the document shown as
/// `display`.
pub open spec fn anchor_candidate_ok(display: Seq<char>, id: Seq<char>, replace: std::ops::Range<usize>, c: CompletionCandidate) -> bool {
    &&& c.label@ == seq!['#'] + id
    &&& c.detail@ == "explicit anchor in "@ + display
    &&& c.new_text@ == id
    &&& c.replace == replace
}

/// The ids the query matches, in order.
pub open spec fn matching_ids(ids: Seq<String>, query: Seq<char>) -> Seq<Seq<char>>
    decreases ids.len(),
{
    if ids.len() == 0 {
        seq![]
    } else if fuzzy_match_spec(ids.last()@, query) {
        matching_ids(ids.drop_last(), query).push(ids.last()@)
    } else {
        matching_ids(ids.drop_last(), query)
    }
}

/// Whether `out` offers, in order, exactly the anchors the query matches.
pub open spec fn anchor_candidates_ok(
    display: Seq<char>,
    ids: Seq<String>,
    query: Seq<char>,
    replace: std::ops::Range<usize>,
    out: Seq<CompletionCandidate>,
) -> bool {
    &&& out.len() == matching_ids(ids, query).len()
    &&& forall|k: int| 0 <= k < out.len() ==> anchor_candidate_ok(display, matching_ids(ids, query)[k], replace, #[trigger] out[k])
}

/// The candidates for the anchors `ids` of the document shown as `display`.
pub fn anchor_candidates(display: &str, ids: &Vec<String>, query: &str, replace: &std::ops::Range<usize>) -> (out: Vec<
    CompletionCandidate,
>)
    ensures
        anchor_candidates_ok(display@, ids@, query@, *replace, out@),
{
    let mut out: Vec<CompletionCandidate> = Vec::new();
    let mut i: usize = 0;
    while i < ids.len()
        invariant
            i <= ids.len(),
            anchor_candidates_ok(display@, ids@.take(i as int), query@, *replace, out@),
        decreases ids.len() - i,
    {
        let ghost before = out@;
        proof {
            assert(ids@.take(i + 1).drop_last() == ids@.take(i as int));
            assert(ids@.take(i + 1).last() == ids@[i as int]);
        }
        let id = &ids[i];
        if fuzzy_match(id.as_str(), query) {
            let mut label: Vec<char> = vec!['#'];
            let id_chars = chars_of(id.as_str());
            extend_chars(&mut label, &id_chars);
            let mut detail: Vec<char> = chars_of("explicit anchor in ");
            let shown = chars_of(display);
            extend_chars(&mut detail, &shown);
            assert(label@ =~= seq!['#'] + id@);
            assert(detail@ =~= "explicit anchor in "@ + display@);
            let c = CompletionCandidate {
                label: string_from_chars(&label),
                detail: string_from_chars(&detail),
                new_text: id.clone(),
                replace: copy_range(replace),
            };
            let ghost pushed_c = c;
            out.push(c);
            proof {
                let m0 = matching_ids(ids@.take(i as int), query@);
                let m = matching_ids(ids@.take(i + 1), query@);
                assert(m == m0.push(id@));
                assert forall|k: int| 0 <= k < out@.len() implies anchor_candidate_ok(display@, m[k], *replace, #[trigger] out@[k]) by {
                    if k < before.len() {
                        assert(out@[k] == before[k]);
                        assert(anchor_candidate_ok(display@, m0[k], *replace, before[k]));
                        assert(m[k] == m0[k]);
                    } else {
                        assert(m[k] == id@);
                        assert(out@[k] == pushed_c);
                    }
                }
            }
        }
        i = i + 1;
    }
    proof {
        assert(ids@.take(ids.len() as int) == ids@);
    }
    out
}

// ---------------------------------------------------------------------------
// All candidates of a link.

/// Whether `raw` holds, in document order, the candidates that the
/// documents (path, title) give.
pub open spec fn document_candidates_ok(
    from: Seq<char>,
    documents: Seq<(String, String)>,
    context: LinkCompletionContext,
    raw: Seq<CompletionCandidate>,
) -> bool
    decreases documents.len(),
{
    if documents.len() == 0 {
        raw.len() == 0
    } else {
        let d = documents.last();
        ||| document_candidate_ok(from, d.0@, d.1@, context, None) && document_candidates_ok(
            from,
            documents.drop_last(),
            context,
            raw,
        )
        ||| raw.len() > 0 && document_candidate_ok(from, d.0@, d.1@, context, Some(raw.last()))
            && document_candidates_ok(from, documents.drop_last(), context, raw.drop_last())
    }
}

/// Whether `raw` holds the candidates of a link being completed from
/// `from`: for a path or label, those of the documents; for an anchor,
/// those of the target document's anchors `anchor_ids`.
pub open spec fn link_candidates_ok(
    from: Seq<char>,
    context: LinkCompletionContext,
    documents: Seq<(String, String)>,
    anchor_ids: Seq<String>,
    raw: Seq<CompletionCandidate>,
) -> bool {
    match context {
        LinkCompletionContext::Anchor { path, replace, query } => {
            let target = if path@.len() == 0 { from } else { resolved_relative(from, path@) };
            anchor_candidates_ok(target, anchor_ids, query@, replace, raw)
        },
        LinkCompletionContext::AutolinkAnchor { path, replace, query } => {
            let target = if path@.len() == 0 { from } else { resolved_relative(from, path@) };
            anchor_candidates_ok(target, anchor_ids, query@, replace, raw)
        },
        _ => document_candidates_ok(from, documents, context, raw),
    }
}

/// Every candidate of documents comes from one of them whose path is not
/// `from`, and is what that document offers.
pub proof fn lemma_document_candidates_from_others(
    from: Seq<char>,
    documents: Seq<(String, String)>,
    context: LinkCompletionContext,
    raw: Seq<CompletionCandidate>,
)
    requires
        document_candidates_ok(from, documents, context, raw),
    ensures
        forall|k: int|
            0 <= k < raw.len() ==> exists|i: int|
                0 <= i < documents.len() && documents[i].0@ != from && document_candidate_ok(
                    from,
                    documents[i].0@,
                    documents[i].1@,
                    context,
                    Some(#[trigger] raw[k]),
                ),
    decreases documents.len(),
{
    if documents.len() > 0 {
        let d = documents.last();
        let n = documents.len() - 1;
        if document_candidate_ok(from, d.0@, d.1@, context, None) && document_candidates_ok(from, documents.drop_last(), context, raw) {
            lemma_document_candidates_from_others(from, documents.drop_last(), context, raw);
            assert forall|k: int| 0 <= k < raw.len() implies exists|i: int|
                0 <= i < documents.len() && documents[i].0@ != from && document_candidate_ok(
                    from,
                    documents[i].0@,
                    documents[i].1@,
                    context,
                    Some(#[trigger] raw[k]),
                ) by {
                let i = choose|i: int|
                    0 <= i < documents.drop_last().len() && documents.drop_last()[i].0@ != from && document_candidate_ok(
                        from,
                        documents.drop_last()[i].0@,
                        documents.drop_last()[i].1@,
                        context,
                        Some(raw[k]),
                    );
                assert(documents[i] == documents.drop_last()[i]);
            }
        } else {
            let rest = raw.drop_last();
            lemma_document_candidates_from_others(from, documents.drop_last(), context, rest);
            assert forall|k: int| 0 <= k < raw.len() implies exists|i: int|
                0 <= i < documents.len() && documents[i].0@ != from && document_candidate_ok(
                    from,
                    documents[i].0@,
                    documents[i].1@,
                    context,
                    Some(#[trigger] raw[k]),
                ) by {
                if k == raw.len() - 1 {
                    assert(documents[n] == d);
                    assert(d.0@ != from);
                } else {
                    assert(rest[k] == raw[k]);
                    let i = choose|i: int|
                        0 <= i < documents.drop_last().len() && documents.drop_last()[i].0@ != from && document_candidate_ok(
                            from,
                            documents.drop_last()[i].0@,
                            documents.drop_last()[i].1@,
                            context,
                            Some(#[trigger] rest[k]),
                        );
                    assert(documents[i] == documents.drop_last()[i]);
                }
            }
        }
    }
}

/// Link completion comes sorted by label (each label's key at most the
/// next one's), and, for a label, path or autolink path, no candidate
/// comes from the document being edited: each is what another document
/// offers.
pub proof fn lemma_link_completion_sorted_and_excludes_self(
    from: Seq<char>,
    context: LinkCompletionContext,
    documents: Seq<(String, String)>,
    anchor_ids: Seq<String>,
    candidates: Seq<CompletionCandidate>,
)
    requires
        exists|raw: Seq<CompletionCandidate>, perm: Seq<int>|
            link_candidates_ok(normalized(from), context, documents, anchor_ids, raw) && sorted_permutation(
                label_keys(raw),
                perm,
            ) && permuted(raw, candidates, perm),
    ensures
        forall|q1: int, q2: int|
            0 <= q1 < q2 < candidates.len() ==> lex_lt(str_key((#[trigger] candidates[q1]).label@), str_key((#[trigger] candidates[q2]).label@))
                || str_key(candidates[q1].label@) == str_key(candidates[q2].label@),
        context is Label || context is Path || context is AutolinkPath ==> forall|q: int|
            0 <= q < candidates.len() ==> exists|i: int|
                0 <= i < documents.len() && documents[i].0@ != normalized(from) && document_candidate_ok(
                    normalized(from),
                    documents[i].0@,
                    documents[i].1@,
                    context,
                    Some(#[trigger] candidates[q]),
                ),
{
    let (raw, perm) = choose|raw: Seq<CompletionCandidate>, perm: Seq<int>|
        link_candidates_ok(normalized(from), context, documents, anchor_ids, raw) && sorted_permutation(label_keys(raw), perm)
            && permuted(raw, candidates, perm);
    assert forall|q1: int, q2: int| 0 <= q1 < q2 < candidates.len() implies lex_lt(
        str_key((#[trigger] candidates[q1]).label@),
        str_key((#[trigger] candidates[q2]).label@),
    ) || str_key(candidates[q1].label@) == str_key(candidates[q2].label@) by {
        assert(index_before(label_keys(raw), perm[q1], perm[q2]));
    }
    if context is Label || context is Path || context is AutolinkPath {
        lemma_document_candidates_from_others(normalized(from), documents, context, raw);
        assert forall|q: int| 0 <= q < candidates.len() implies exists|i: int|
            0 <= i < documents.len() && documents[i].0@ != normalized(from) && document_candidate_ok(
                normalized(from),
                documents[i].0@,
                documents[i].1@,
                context,
                Some(#[trigger] candidates[q]),
            ) by {
            assert(candidates[q] == raw[perm[q]]);
        }
    }
}

/// The sort keys of candidates: their labels.
pub open spec fn label_keys(cs: Seq<CompletionCandidate>) -> Seq<Seq<i128>> {
    cs.map_values(|c: CompletionCandidate| str_key(c.label@))
}

fn label_key_vecs(cs: &Vec<CompletionCandidate>) -> (keys: Vec<Vec<i128>>)
    ensures
        keys.len() == cs.len(),
        keys@.map_values(|k: Vec<i128>| k@) == label_keys(cs@),
{
    let mut keys: Vec<Vec<i128>> = Vec::new();
    let mut i: usize = 0;
    while i < cs.len()
        invariant
            i <= cs.len(),
            keys.len() == i,
            forall|j: int| 0 <= j < i ==> #[trigger] keys@[j]@ == str_key(cs@[j].label@),
        decreases cs.len() - i,
    {
        let mut key: Vec<i128> = Vec::new();
        let chars = chars_of(cs[i].label.as_str());
        push_str_key(&mut key, &chars);
        assert(key@ =~= str_key(cs@[i as int].label@));
        keys.push(key);
        i = i + 1;
    }
    assert(keys@.map_values(|k: Vec<i128>| k@) =~= label_keys(cs@));
    keys
}

/// The stored documents (path and title) whose path is not among `open`,
/// in order.
pub open spec fn stored_not_open(stored: Seq<(String, String)>, open: Seq<String>) -> Seq<(String, String)>
    decreases stored.len(),
{
    if stored.len() == 0 {
        seq![]
    } else {
        let rest = stored_not_open(stored.drop_last(), open);
        if exists|k: int| 0 <= k < open.len() && (#[trigger] open[k])@ == stored.last().0@ {
            rest
        } else {
            rest.push(stored.last())
        }
    }
}

/// Documents (path and title) as plain text.
pub open spec fn document_views(documents: Seq<(String, String)>) -> Seq<(Seq<char>, Seq<char>)> {
    documents.map_values(|d: (String, String)| (d.0@, d.1@))
}

/// The documents link completion offers: those open in the workspace
/// (`open_documents`, path and title), then the store's documents
/// (`stored`) whose path is not open (`open_paths`): an open document
/// shadows its stored copy.
pub fn link_documents(
    open_documents: &Vec<(String, String)>,
    open_paths: &Vec<String>,
    stored: &Vec<(String, String)>,
) -> (documents: Vec<(String, String)>)
    ensures
        document_views(documents@) == document_views(open_documents@) + document_views(stored_not_open(stored@, open_paths@)),
{
    let mut documents: Vec<(String, String)> = Vec::new();
    let mut i: usize = 0;
    while i < open_documents.len()
        invariant
            i <= open_documents.len(),
            document_views(documents@) == document_views(open_documents@.take(i as int)),
        decreases open_documents.len() - i,
    {
        let ghost before = documents@;
        documents.push((open_documents[i].0.clone(), open_documents[i].1.clone()));
        assert(open_documents@.take(i + 1) =~= open_documents@.take(i as int).push(open_documents@[i as int]));
        assert(documents@ == before.push(documents@[before.len() as int]));
        assert(document_views(documents@) =~= document_views(before).push((open_documents@[i as int].0@, open_documents@[i as int].1@)));
        assert(document_views(open_documents@.take(i + 1)) =~= document_views(open_documents@.take(i as int)).push(
            (open_documents@[i as int].0@, open_documents@[i as int].1@),
        ));
        i = i + 1;
    }
    assert(open_documents@.take(open_documents.len() as int) == open_documents@);
    let mut j: usize = 0;
    while j < stored.len()
        invariant
            j <= stored.len(),
            document_views(documents@) == document_views(open_documents@) + document_views(stored_not_open(stored@.take(j as int), open_paths@)),
        decreases stored.len() - j,
    {
        let ghost before = documents@;
        let ghost bv = document_views(documents@);
        let mut open = false;
        let mut k: usize = 0;
        while k < open_paths.len()
            invariant
                j < stored.len(),
                k <= open_paths.len(),
                open == exists|m: int| 0 <= m < k && (#[trigger] open_paths@[m])@ == stored@[j as int].0@,
            decreases open_paths.len() - k,
        {
            if str_eq(open_paths[k].as_str(), stored[j].0.as_str()) {
                open = true;
            }
            k = k + 1;
        }
        proof {
            let t = stored@.take(j + 1);
            assert(t.drop_last() == stored@.take(j as int));
            assert(t.last() == stored@[j as int]);
        }
        if !open {
            documents.push((stored[j].0.clone(), stored[j].1.clone()));
            assert(documents@ == before.push(documents@[before.len() as int]));
            assert(document_views(documents@) =~= bv.push((stored@[j as int].0@, stored@[j as int].1@)));
        }
        proof {
            let t = stored@.take(j + 1);
            let kept = stored_not_open(stored@.take(j as int), open_paths@);
            if open {
                assert(stored_not_open(t, open_paths@) == kept);
            } else {
                assert(stored_not_open(t, open_paths@) == kept.push(stored@[j as int]));
                assert(document_views(kept.push(stored@[j as int])) =~= document_views(kept).push((stored@[j as int].0@, stored@[j as int].1@)));
                assert(document_views(documents@) =~= document_views(open_documents@) + document_views(kept.push(stored@[j as int])));
            }
        }
        j = j + 1;
    }
    assert(stored@.take(stored.len() as int) == stored@);
    documents
}

/// The candidates for a link being completed in the document at `from`:
/// `documents` lists the workspace's documents (path and title, an empty
/// title for none) and `anchor_ids` the explicit anchors of the document an
/// anchor context names.  They come sorted by label, equal labels in the
/// order they were found.
pub fn complete_link(
    from: &str,
    context: &LinkCompletionContext,
    documents: &Vec<(String, String)>,
    anchor_ids: &Vec<String>,
) -> (candidates: Vec<CompletionCandidate>)
    ensures
        exists|raw: Seq<CompletionCandidate>, perm: Seq<int>|
            link_candidates_ok(normalized(from@), *context, documents@, anchor_ids@, raw) && sorted_permutation(
                label_keys(raw),
                perm,
            ) && permuted(raw, candidates@, perm),
{
    let from = normalize(from);
    let mut raw: Vec<CompletionCandidate> = Vec::new();
    match context {
        LinkCompletionContext::Anchor { path, replace, query } => {
            let target = anchor_target(from.as_str(), path.as_str());
            raw = anchor_candidates(target.as_str(), anchor_ids, query.as_str(), replace);
        },
        LinkCompletionContext::AutolinkAnchor { path, replace, query } => {
            let target = anchor_target(from.as_str(), path.as_str());
            raw = anchor_candidates(target.as_str(), anchor_ids, query.as_str(), replace);
        },
        _ => {
            let mut i: usize = 0;
            while i < documents.len()
                invariant
                    i <= documents.len(),
                    !(context is Anchor),
                    !(context is AutolinkAnchor),
                    document_candidates_ok(from@, documents@.take(i as int), *context, raw@),
                decreases documents.len() - i,
            {
                proof {
                    assert(documents@.take(i + 1).drop_last() == documents@.take(i as int));
                    assert(documents@.take(i + 1).last() == documents@[i as int]);
                }
                let ghost before = raw@;
                match document_link_candidate(from.as_str(), documents[i].0.as_str(), documents[i].1.as_str(), context) {
                    Some(c) => {
                        raw.push(c);
                        proof {
                            assert(raw@.drop_last() == before);
                        }
                    },
                    None => {},
                }
                i = i + 1;
            }
            proof {
                assert(documents@.take(documents.len() as int) == documents@);
            }
        },
    }
    let keys = label_key_vecs(&raw);
    let ghost raw_view = raw@;
    let sorted = sort_by_keys(raw, &keys);
    sorted
}

// ---------------------------------------------------------------------------
// Task dependency completion.

/// A task a dependency may point at.
#[derive(Debug, Clone)]
pub struct DependencyTask {
    pub id: Option<String>,
    pub title: String,
    pub state: TaskWorkflowState,
}

/// Whether `r` names the task `id` of the document at `path`.
pub open spec fn names_task_at(r: TaskRef, path: Seq<char>, id: Seq<char>) -> bool {
    &&& r.path@ == path
    &&& r.id matches Some(i) && i@ == id
}

/// Whether a dependency on task `t` of the document at `path` may be
/// offered: it has an id, is not the task being edited (`owner`) and is
/// not among its dependencies already.
pub open spec fn dependency_eligible(path: Seq<char>, owner: Option<TaskRef>, existing: Seq<TaskRef>, t: DependencyTask) -> bool {
    match t.id {
        Some(id) => {
            &&& match owner {
                Some(o) => !names_task_at(o, path, id@),
                None => true,
            }
            &&& forall|k: int| 0 <= k < existing.len() ==> !names_task_at(#[trigger] existing[k], path, id@)
        },
        None => false,
    }
}

/// Whether some task of the document may be offered.
pub open spec fn any_eligible(path: Seq<char>, owner: Option<TaskRef>, existing: Seq<TaskRef>, tasks: Seq<DependencyTask>) -> bool {
    exists|k: int| 0 <= k < tasks.len() && dependency_eligible(path, owner, existing, #[trigger] tasks[k])
}

/// The position of the last `#` among the first `n` characters.
pub open spec fn last_hash_below(q: Seq<char>, n: int) -> Option<int>
    decreases n,
{
    if n <= 0 {
        None
    } else if q[n - 1] == '#' {
        Some(n - 1)
    } else {
        last_hash_below(q, n - 1)
    }
}

/// The text without its trailing `#` characters.
pub open spec fn trim_hashes(s: Seq<char>) -> Seq<char>
    decreases s.len(),
{
    if s.len() > 0 && s.last() == '#' {
        trim_hashes(s.drop_last())
    } else {
        s
    }
}

/// The upper-case name of a workflow state.
pub open spec fn state_label(state: TaskWorkflowState) -> Seq<char> {
    match state {
        TaskWorkflowState::Ready => "READY"@,
        TaskWorkflowState::Waiting => "WAITING"@,
        TaskWorkflowState::Blocked => "BLOCKED"@,
        TaskWorkflowState::Done => "DONE"@,
        TaskWorkflowState::Canceled => "CANCELED"@,
        TaskWorkflowState::Conflicted => "CONFLICTED"@,
    }
}

/// The candidate offering the tasks of a document (a query without `#`).
pub open spec fn dependency_document_ok(
    from: Seq<char>,
    doc: (String, Vec<DependencyTask>),
    owner: Option<TaskRef>,
    existing: Seq<TaskRef>,
    query: Seq<char>,
    replace: std::ops::Range<usize>,
    result: Option<CompletionCandidate>,
) -> bool {
    let rel = relative_path_spec(from, doc.0@);
    let reference = if doc.0@ == from { seq!['#'] } else { rel + seq!['#'] };
    if any_eligible(doc.0@, owner, existing, doc.1@) && fuzzy_match_spec(trim_hashes(reference), query) {
        result matches Some(c) && c.label@ == reference && c.detail@ == "task document ("@ + rel + seq![')']
            && c.new_text@ == reference && c.replace == replace
    } else {
        result is None
    }
}

/// The candidate offering one task of the target document (a query with
/// `#`, matched against id and title).
pub open spec fn dependency_task_ok(
    target: Seq<char>,
    rel: Seq<char>,
    t: DependencyTask,
    owner: Option<TaskRef>,
    existing: Seq<TaskRef>,
    id_query: Seq<char>,
    replace: std::ops::Range<usize>,
    result: Option<CompletionCandidate>,
) -> bool {
    match t.id {
        Some(id) => if dependency_eligible(target, owner, existing, t) && (fuzzy_match_spec(id@, id_query)
            || fuzzy_match_spec(t.title@, id_query)) {
            result matches Some(c) && c.label@ == id@ && c.new_text@ == id@ && c.replace == replace && c.detail@
                == state_label(t.state) + seq![' ', ' '] + (if t.title@.len() == 0 {
                "Untitled task"@
            } else {
                t.title@
            }) + seq![' ', '('] + rel + seq![')']
        } else {
            result is None
        },
        None => result is None,
    }
}

/// Whether `raw` holds, in order, the candidates the documents give.
pub open spec fn dependency_documents_ok(
    from: Seq<char>,
    docs: Seq<(String, Vec<DependencyTask>)>,
    owner: Option<TaskRef>,
    existing: Seq<TaskRef>,
    query: Seq<char>,
    replace: std::ops::Range<usize>,
    raw: Seq<CompletionCandidate>,
) -> bool
    decreases docs.len(),
{
    if docs.len() == 0 {
        raw.len() == 0
    } else {
        ||| dependency_document_ok(from, docs.last(), owner, existing, query, replace, None)
            && dependency_documents_ok(from, docs.drop_last(), owner, existing, query, replace, raw)
        ||| raw.len() > 0 && dependency_document_ok(from, docs.last(), owner, existing, query, replace, Some(raw.last()))
            && dependency_documents_ok(from, docs.drop_last(), owner, existing, query, replace, raw.drop_last())
    }
}

/// Whether `raw` holds, in order, the candidates the tasks give.
pub open spec fn dependency_tasks_ok(
    target: Seq<char>,
    rel: Seq<char>,
    tasks: Seq<DependencyTask>,
    owner: Option<TaskRef>,
    existing: Seq<TaskRef>,
    id_query: Seq<char>,
    replace: std::ops::Range<usize>,
    raw: Seq<CompletionCandidate>,
) -> bool
    decreases tasks.len(),
{
    if tasks.len() == 0 {
        raw.len() == 0
    } else {
        ||| dependency_task_ok(target, rel, tasks.last(), owner, existing, id_query, replace, None)
            && dependency_tasks_ok(target, rel, tasks.drop_last(), owner, existing, id_query, replace, raw)
        ||| raw.len() > 0 && dependency_task_ok(target, rel, tasks.last(), owner, existing, id_query, replace, Some(raw.last()))
            && dependency_tasks_ok(target, rel, tasks.drop_last(), owner, existing, id_query, replace, raw.drop_last())
    }
}

/// The first document listed at `path`.
pub open spec fn first_document_at(docs: Seq<(String, Vec<DependencyTask>)>, path: Seq<char>) -> Option<int> {
    if exists|i: int| 0 <= i < docs.len() && #[trigger] docs[i].0@ == path {
        Some(choose|i: int| 0 <= i < docs.len() && #[trigger] docs[i].0@ == path && forall|j: int| 0 <= j < i ==> docs[j].0@ != path)
    } else {
        None
    }
}

/// The raw (unsorted) candidates of a dependency being completed in the
/// document `from`: without `#` in the query, the documents that hold a
/// task to offer; with one, the tasks of the document the part before the
/// last `#` names (the current one when empty), matched by the part after.
pub open spec fn dependency_candidates_ok(
    from: Seq<char>,
    owner: Option<TaskRef>,
    existing: Seq<TaskRef>,
    replace: std::ops::Range<usize>,
    query: Seq<char>,
    docs: Seq<(String, Vec<DependencyTask>)>,
    raw: Seq<CompletionCandidate>,
) -> bool {
    match last_hash_below(query, query.len() as int) {
        None => dependency_documents_ok(from, docs, owner, existing, query, replace, raw),
        Some(p) => {
            let path_query = query.take(p);
            let id_query = query.skip(p + 1);
            let target = if path_query.len() == 0 { from } else { resolved_relative(from, path_query) };
            let id_replace = std::ops::Range { start: (replace.start + utf8_len(path_query) + 1) as usize, end: replace.end };
            match first_document_at(docs, target) {
                None => raw.len() == 0,
                Some(i) => dependency_tasks_ok(
                    target,
                    relative_path_spec(from, target),
                    docs[i].1@,
                    owner,
                    existing,
                    id_query,
                    id_replace,
                    raw,
                ),
            }
        },
    }
}

fn names_exec(r: &TaskRef, path: &str, id: &str) -> (named: bool)
    ensures
        named == names_task_at(*r, path@, id@),
{
    str_eq(r.path.as_str(), path) && match &r.id {
        Some(i) => str_eq(i.as_str(), id),
        None => false,
    }
}

fn eligible_exec(path: &str, owner: &Option<TaskRef>, existing: &Vec<TaskRef>, t: &DependencyTask) -> (ok: bool)
    ensures
        ok == dependency_eligible(path@, *owner, existing@, *t),
{
    let id = match &t.id {
        Some(id) => id,
        None => return false,
    };
    match owner {
        Some(o) => if names_exec(o, path, id.as_str()) {
            return false;
        },
        None => {},
    }
    let mut k: usize = 0;
    while k < existing.len()
        invariant
            k <= existing.len(),
            t.id == Some(*id),
            match *owner {
                Some(o) => !names_task_at(o, path@, id@),
                None => true,
            },
            forall|j: int| 0 <= j < k ==> !names_task_at(#[trigger] existing@[j], path@, id@),
        decreases existing.len() - k,
    {
        if names_exec(&existing[k], path, id.as_str()) {
            return false;
        }
        k = k + 1;
    }
    true
}

fn any_eligible_exec(path: &str, owner: &Option<TaskRef>, existing: &Vec<TaskRef>, tasks: &Vec<DependencyTask>) -> (ok: bool)
    ensures
        ok == any_eligible(path@, *owner, existing@, tasks@),
{
    let mut k: usize = 0;
    while k < tasks.len()
        invariant
            k <= tasks.len(),
            forall|j: int| 0 <= j < k ==> !dependency_eligible(path@, *owner, existing@, #[trigger] tasks@[j]),
        decreases tasks.len() - k,
    {
        if eligible_exec(path, owner, existing, &tasks[k]) {
            return true;
        }
        k = k + 1;
    }
    false
}

fn last_hash(q: &Vec<char>) -> (pos: Option<usize>)
    ensures
        pos matches Some(x) ==> x < q.len() && last_hash_below(q@, q.len() as int) == Some(x as int),
        pos is None ==> last_hash_below(q@, q.len() as int) is None,
        match last_hash_below(q@, q.len() as int) {
            Some(p) => pos == Some(p as usize),
            None => pos is None,
        },
{
    let mut n: usize = q.len();
    while n > 0
        invariant
            n <= q.len(),
            last_hash_below(q@, q.len() as int) == last_hash_below(q@, n as int),
        decreases n,
    {
        if q[n - 1] == '#' {
            return Some(n - 1);
        }
        n = n - 1;
    }
    None
}

fn trim_hashes_exec(s: &Vec<char>) -> (t: Vec<char>)
    ensures
        t@ == trim_hashes(s@),
{
    let mut n: usize = s.len();
    assert(s@.take(s.len() as int) == s@);
    while n > 0 && s[n - 1] == '#'
        invariant
            n <= s.len(),
            trim_hashes(s@) == trim_hashes(s@.take(n as int)),
        decreases n,
    {
        assert(s@.take(n as int).drop_last() == s@.take(n - 1));
        n = n - 1;
    }
    let mut t: Vec<char> = Vec::new();
    let mut i: usize = 0;
    while i < n
        invariant
            n <= s.len(),
            i <= n,
            t@ == s@.take(i as int),
        decreases n - i,
    {
        t.push(s[i]);
        assert(s@.take(i + 1) == s@.take(i as int).push(s@[i as int]));
        i = i + 1;
    }
    t
}

fn state_label_exec(state: TaskWorkflowState) -> (label: &'static str)
    ensures
        label@ == state_label(state),
{
    match state {
        TaskWorkflowState::Ready => "READY",
        TaskWorkflowState::Waiting => "WAITING",
        TaskWorkflowState::Blocked => "BLOCKED",
        TaskWorkflowState::Done => "DONE",
        TaskWorkflowState::Canceled => "CANCELED",
        TaskWorkflowState::Conflicted => "CONFLICTED",
    }
}


fn dependency_document_candidate(
    from: &str,
    doc: &(String, Vec<DependencyTask>),
    owner: &Option<TaskRef>,
    existing: &Vec<TaskRef>,
    query: &str,
    replace: &std::ops::Range<usize>,
) -> (result: Option<CompletionCandidate>)
    ensures
        dependency_document_ok(from@, *doc, *owner, existing@, query@, *replace, result),
{
    if !any_eligible_exec(doc.0.as_str(), owner, existing, &doc.1) {
        return None;
    }
    let rel = match relative_path(from, doc.0.as_str()) {
        Some(r) => r,
        None => return None,
    };
    let rel_chars = chars_of(rel.as_str());
    let mut reference: Vec<char> = Vec::new();
    if !str_eq(doc.0.as_str(), from) {
        extend_chars(&mut reference, &rel_chars);
    }
    reference.push('#');
    proof {
        if doc.0@ == from@ {
            assert(reference@ =~= seq!['#']);
        } else {
            assert(reference@ =~= rel@ + seq!['#']);
        }
    }
    let trimmed = string_from_chars(&trim_hashes_exec(&reference));
    if !fuzzy_match(trimmed.as_str(), query) {
        return None;
    }
    let mut detail: Vec<char> = chars_of("task document (");
    extend_chars(&mut detail, &rel_chars);
    detail.push(')');
    assert(detail@ =~= "task document ("@ + rel@ + seq![')']);
    Some(
        CompletionCandidate {
            label: string_from_chars(&reference),
            detail: string_from_chars(&detail),
            new_text: string_from_chars(&reference),
            replace: copy_range(replace),
        },
    )
}

fn dependency_task_candidate(
    target: &str,
    rel: &str,
    t: &DependencyTask,
    owner: &Option<TaskRef>,
    existing: &Vec<TaskRef>,
    id_query: &str,
    replace: &std::ops::Range<usize>,
) -> (result: Option<CompletionCandidate>)
    ensures
        dependency_task_ok(target@, rel@, *t, *owner, existing@, id_query@, *replace, result),
{
    let id = match &t.id {
        Some(id) => id,
        None => return None,
    };
    if !eligible_exec(target, owner, existing, t) {
        return None;
    }
    if !fuzzy_match(id.as_str(), id_query) && !fuzzy_match(t.title.as_str(), id_query) {
        return None;
    }
    let mut detail: Vec<char> = chars_of(state_label_exec(t.state));
    detail.push(' ');
    detail.push(' ');
    let title_chars = chars_of(t.title.as_str());
    let shown = if title_chars.len() == 0 { chars_of("Untitled task") } else { title_chars };
    extend_chars(&mut detail, &shown);
    detail.push(' ');
    detail.push('(');
    let rel_chars = chars_of(rel);
    extend_chars(&mut detail, &rel_chars);
    detail.push(')');
    assert(detail@ =~= state_label(t.state) + seq![' ', ' '] + (if t.title@.len() == 0 {
        "Untitled task"@
    } else {
        t.title@
    }) + seq![' ', '('] + rel@ + seq![')']);
    Some(
        CompletionCandidate {
            label: id.clone(),
            detail: string_from_chars(&detail),
            new_text: id.clone(),
            replace: copy_range(replace),
        },
    )
}

/// The candidates for a task dependency being written in the document at
/// `from` (see `dependency_candidates_ok`): `owner` is the task being
/// edited, `existing` the tasks it already depends on, and `documents` the
/// workspace's documents with their tasks (each task's workflow state taken
/// at the query instant).  They come sorted by label, ties in the order
/// found.
pub fn complete_task_dependency(
    from: &str,
    owner: &Option<TaskRef>,
    existing: &Vec<TaskRef>,
    replace: &std::ops::Range<usize>,
    query: &str,
    documents: &Vec<(String, Vec<DependencyTask>)>,
) -> (candidates: Vec<CompletionCandidate>)
    requires
        match last_hash_below(query@, query@.len() as int) {
            Some(p) => replace.start + utf8_len(query@.take(p)) + 1 <= usize::MAX,
            None => true,
        },
    ensures
        exists|raw: Seq<CompletionCandidate>, perm: Seq<int>|
            dependency_candidates_ok(normalized(from@), *owner, existing@, *replace, query@, documents@, raw)
                && sorted_permutation(label_keys(raw), perm) && permuted(raw, candidates@, perm),
{
    let from = normalize(from);
    let q = chars_of(query);
    let mut raw: Vec<CompletionCandidate> = Vec::new();
    match last_hash(&q) {
        None => {
            let mut i: usize = 0;
            while i < documents.len()
                invariant
                    i <= documents.len(),
                    dependency_documents_ok(from@, documents@.take(i as int), *owner, existing@, query@, *replace, raw@),
                decreases documents.len() - i,
            {
                proof {
                    assert(documents@.take(i + 1).drop_last() == documents@.take(i as int));
                    assert(documents@.take(i + 1).last() == documents@[i as int]);
                }
                let ghost before = raw@;
                match dependency_document_candidate(from.as_str(), &documents[i], owner, existing, query, replace) {
                    Some(c) => {
                        raw.push(c);
                        assert(raw@.drop_last() == before);
                    },
                    None => {},
                }
                i = i + 1;
            }
            assert(documents@.take(documents.len() as int) == documents@);
        },
        Some(p) => {
            let mut path_chars: Vec<char> = Vec::new();
            let mut k: usize = 0;
            while k < p
                invariant
                    p < q.len(),
                    k <= p,
                    path_chars@ == q@.take(k as int),
                decreases p - k,
            {
                path_chars.push(q[k]);
                assert(q@.take(k + 1) == q@.take(k as int).push(q@[k as int]));
                k = k + 1;
            }
            let mut id_chars: Vec<char> = Vec::new();
            let mut k: usize = p + 1;
            while k < q.len()
                invariant
                    p < q.len(),
                    p + 1 <= k <= q.len(),
                    id_chars@ == q@.subrange(p + 1, k as int),
                decreases q.len() - k,
            {
                id_chars.push(q[k]);
                assert(q@.subrange(p + 1, k + 1) == q@.subrange(p + 1, k as int).push(q@[k as int]));
                k = k + 1;
            }
            assert(q@.subrange(p + 1, q.len() as int) == q@.skip(p + 1));
            let path_query = string_from_chars(&path_chars);
            let id_query = string_from_chars(&id_chars);
            let target = if path_chars.len() == 0 {
                from.clone()
            } else {
                resolve_relative(from.as_str(), path_query.as_str())
            };
            assert(path_chars@ == query@.take(p as int));
            assert(q@ == query@);
            assert(last_hash_below(query@, query@.len() as int) == Some(p as int));
            assert(replace.start + utf8_len(query@.take(p as int)) + 1 <= usize::MAX);
            let skipped = utf8_len_exec(&path_chars, usize::MAX - 1 - replace.start);
            let id_replace = std::ops::Range { start: replace.start + skipped + 1, end: replace.end };
            let rel = match relative_path(from.as_str(), target.as_str()) {
                Some(r) => r,
                None => target.clone(),
            };
            let ghost docs = documents@;
            let mut found: Option<usize> = None;
            let mut d: usize = 0;
            while d < documents.len()
                invariant
                    d <= documents.len(),
                    found is None ==> forall|j: int| 0 <= j < d ==> documents@[j].0@ != target@,
                    found matches Some(x) ==> x < documents.len() && documents@[x as int].0@ == target@ && forall|j: int|
                        0 <= j < x ==> documents@[j].0@ != target@,
                decreases documents.len() - d,
            {
                if found.is_none() && str_eq(documents[d].0.as_str(), target.as_str()) {
                    found = Some(d);
                }
                d = d + 1;
            }
            proof {
                match found {
                    Some(x) => {
                        assert(documents@[x as int].0@ == target@);
                        assert(first_document_at(documents@, target@) == Some(x as int));
                    },
                    None => {
                        assert(first_document_at(documents@, target@) is None);
                    },
                }
            }
            match found {
                None => {},
                Some(x) => {
                    let tasks = &documents[x].1;
                    let mut i: usize = 0;
                    while i < tasks.len()
                        invariant
                            i <= tasks.len(),
                            dependency_tasks_ok(target@, rel@, tasks@.take(i as int), *owner, existing@, id_query@, id_replace, raw@),
                        decreases tasks.len() - i,
                    {
                        proof {
                            assert(tasks@.take(i + 1).drop_last() == tasks@.take(i as int));
                            assert(tasks@.take(i + 1).last() == tasks@[i as int]);
                        }
                        let ghost before = raw@;
                        match dependency_task_candidate(
                            target.as_str(),
                            rel.as_str(),
                            &tasks[i],
                            owner,
                            existing,
                            id_query.as_str(),
                            &id_replace,
                        ) {
                            Some(c) => {
                                raw.push(c);
                                assert(raw@.drop_last() == before);
                            },
                            None => {},
                        }
                        i = i + 1;
                    }
                    assert(tasks@.take(tasks.len() as int) == tasks@);
                },
            }
        },
    }
    let keys = label_key_vecs(&raw);
    sort_by_keys(raw, &keys)
}

// ---------------------------------------------------------------------------
// Event title completion.

/// How many event titles are offered at most.
pub const EVENT_TITLE_COMPLETION_LIMIT: usize = 50;

/// Whether `s` starts with `p`.
pub open spec fn starts_with(s: Seq<char>, p: Seq<char>) -> bool {
    p.len() <= s.len() && s.take(p.len() as int) == p
}

/// Whether a title is offered for a query: it extends the query (any title
/// for an empty query).
pub open spec fn title_offered(t: Seq<char>, q: Seq<char>) -> bool {
    starts_with(t, q) && (q.len() == 0 || t != q)
}

/// Whether an open document's event title counts: nonempty, extending the
/// query and not equal to it.
pub open spec fn open_title_counts(t: Seq<char>, q: Seq<char>) -> bool {
    t.len() > 0 && starts_with(t, q) && t != q
}

/// How often `t` occurs among the counted titles of open documents.
pub open spec fn open_count(open: Seq<String>, q: Seq<char>, t: Seq<char>) -> nat
    decreases open.len(),
{
    if open.len() == 0 {
        0
    } else {
        open_count(open.drop_last(), q, t) + if open.last()@ == t && open_title_counts(t, q) {
            1nat
        } else {
            0nat
        }
    }
}

/// The summed counts the store reports for `t`.
pub open spec fn stored_count(stored: Seq<(String, usize)>, t: Seq<char>) -> nat
    decreases stored.len(),
{
    if stored.len() == 0 {
        0
    } else {
        stored_count(stored.drop_last(), t) + if stored.last().0@ == t {
            stored.last().1 as nat
        } else {
            0nat
        }
    }
}

/// Whether `t` was seen at all: counted in an open document or reported
/// by the store.
pub open spec fn title_seen(open: Seq<String>, stored: Seq<(String, usize)>, q: Seq<char>, t: Seq<char>) -> bool {
    (exists|k: int| 0 <= k < open.len() && #[trigger] open[k]@ == t && open_title_counts(t, q))
        || (exists|k: int| 0 <= k < stored.len() && #[trigger] stored[k].0@ == t)
}

/// The sort keys of counted titles: most uses first, then by title.
pub open spec fn title_count_keys(raw: Seq<(String, usize)>) -> Seq<Seq<i128>> {
    raw.map_values(|e: (String, usize)| seq![(-(e.1 as int)) as i128] + str_key(e.0@))
}

/// Whether `raw` lists every offered title seen, once, with its total use
/// count.
pub open spec fn title_counts_ok(open: Seq<String>, stored: Seq<(String, usize)>, q: Seq<char>, raw: Seq<(String, usize)>) -> bool {
    &&& forall|k: int| 0 <= k < raw.len() ==> title_offered(#[trigger] raw[k].0@, q) && title_seen(open, stored, q, raw[k].0@)
        && raw[k].1 as nat == open_count(open, q, raw[k].0@) + stored_count(stored, raw[k].0@)
    &&& forall|k: int, l: int| 0 <= k < l < raw.len() ==> #[trigger] raw[k].0@ != #[trigger] raw[l].0@
    &&& forall|t: Seq<char>| title_offered(t, q) && title_seen(open, stored, q, t) ==> exists|k: int| 0 <= k < raw.len() && #[trigger] raw[k].0@ == t
}

/// The candidate for a title used `count` times.
pub open spec fn title_candidate_ok(title: Seq<char>, count: usize, replace: std::ops::Range<usize>, c: CompletionCandidate) -> bool {
    &&& c.label@ == title
    &&& c.new_text@ == title
    &&& c.detail@ == "event title, "@ + crate::ids::decimal(count as nat) + " uses"@
    &&& c.replace == replace
}

/// Every seen title once, with its use count (before the query filter).
pub open spec fn all_counts_ok(open: Seq<String>, stored: Seq<(String, usize)>, q: Seq<char>, raw: Seq<(String, usize)>) -> bool {
    &&& forall|k: int| 0 <= k < raw.len() ==> title_seen(open, stored, q, #[trigger] raw[k].0@)
        && raw[k].1 as nat == open_count(open, q, raw[k].0@) + stored_count(stored, raw[k].0@)
    &&& forall|k: int, l: int| 0 <= k < l < raw.len() ==> #[trigger] raw[k].0@ != #[trigger] raw[l].0@
    &&& forall|t: Seq<char>| title_seen(open, stored, q, t) ==> exists|k: int| 0 <= k < raw.len() && #[trigger] raw[k].0@ == t
}

/// All counts the store reports.
pub open spec fn stored_total(stored: Seq<(String, usize)>) -> nat
    decreases stored.len(),
{
    if stored.len() == 0 {
        0
    } else {
        stored_total(stored.drop_last()) + stored.last().1 as nat
    }
}

proof fn lemma_open_count_bound(open: Seq<String>, q: Seq<char>, t: Seq<char>)
    ensures
        open_count(open, q, t) <= open.len(),
        !(exists|k: int| 0 <= k < open.len() && #[trigger] open[k]@ == t && open_title_counts(t, q)) ==> open_count(open, q, t) == 0,
    decreases open.len(),
{
    if open.len() > 0 {
        lemma_open_count_bound(open.drop_last(), q, t);
        if !(exists|k: int| 0 <= k < open.len() && #[trigger] open[k]@ == t && open_title_counts(t, q)) {
            assert forall|k: int| 0 <= k < open.len() - 1 implies !(#[trigger] open.drop_last()[k]@ == t && open_title_counts(t, q)) by {
                assert(open.drop_last()[k] == open[k]);
            }
            assert(!(open.last()@ == t && open_title_counts(t, q)));
        }
    }
}

proof fn lemma_stored_count_bound(stored: Seq<(String, usize)>, t: Seq<char>)
    ensures
        stored_count(stored, t) <= stored_total(stored),
        !(exists|k: int| 0 <= k < stored.len() && #[trigger] stored[k].0@ == t) ==> stored_count(stored, t) == 0,
    decreases stored.len(),
{
    if stored.len() > 0 {
        lemma_stored_count_bound(stored.drop_last(), t);
        if !(exists|k: int| 0 <= k < stored.len() && #[trigger] stored[k].0@ == t) {
            assert forall|k: int| 0 <= k < stored.len() - 1 implies !(#[trigger] stored.drop_last()[k].0@ == t) by {
                assert(stored.drop_last()[k] == stored[k]);
            }
            assert(!(stored.last().0@ == t));
        }
    }
}

fn starts_with_exec(s: &Vec<char>, p: &Vec<char>) -> (b: bool)
    ensures
        b == starts_with(s@, p@),
{
    if p.len() > s.len() {
        return false;
    }
    let mut i: usize = 0;
    while i < p.len()
        invariant
            p.len() <= s.len(),
            i <= p.len(),
            forall|j: int| 0 <= j < i ==> s@[j] == p@[j],
        decreases p.len() - i,
    {
        if s[i] != p[i] {
            assert(s@.take(p.len() as int)[i as int] != p@[i as int]);
            return false;
        }
        i = i + 1;
    }
    assert(s@.take(p.len() as int) =~= p@);
    true
}

fn find_title(raw: &Vec<(String, usize)>, t: &str) -> (found: Option<usize>)
    ensures
        match found {
            Some(k) => k < raw.len() && raw@[k as int].0@ == t@,
            None => forall|k: int| 0 <= k < raw.len() ==> #[trigger] raw@[k].0@ != t@,
        },
{
    let mut k: usize = 0;
    while k < raw.len()
        invariant
            k <= raw.len(),
            forall|j: int| 0 <= j < k ==> #[trigger] raw@[j].0@ != t@,
        decreases raw.len() - k,
    {
        if str_eq(raw[k].0.as_str(), t) {
            return Some(k);
        }
        k = k + 1;
    }
    None
}

/// The offered titles (extending the query) with their use counts: each
/// counted title of an open document (`open`) counts once, each store
/// report (`stored`) by its count.
fn merge_title_counts(open: &Vec<String>, stored: &Vec<(String, usize)>, query: &str) -> (raw: Vec<(String, usize)>)
    requires
        open.len() + stored_total(stored@) <= usize::MAX,
    ensures
        all_counts_ok(open@, stored@, query@, raw@),
{
    let q = chars_of(query);
    let mut raw: Vec<(String, usize)> = Vec::new();
    let mut i: usize = 0;
    while i < open.len()
        invariant
            q@ == query@,
            i <= open.len(),
            open.len() + stored_total(stored@) <= usize::MAX,
            all_counts_ok(open@.take(i as int), seq![], query@, raw@),
        decreases open.len() - i,
    {
        let ghost prefix = open@.take(i as int);
        let ghost next = open@.take(i + 1);
        proof {
            assert(next.drop_last() == prefix);
            assert(next.last() == open@[i as int]);
        }
        let title = chars_of(open[i].as_str());
        let counts = title.len() > 0 && starts_with_exec(&title, &q) && !crate::text::chars_equal(&title, &q);
        let ghost before = raw@;
        let ghost mut wk: int = 0;
        if counts {
            match find_title(&raw, open[i].as_str()) {
                Some(k) => {
                    proof {
                        lemma_open_count_bound(prefix, query@, raw@[k as int].0@);
                        lemma_stored_count_bound(seq![], raw@[k as int].0@);
                        wk = k as int;
                    }
                    let name = raw[k].0.clone();
                    let c = raw[k].1;
                    raw.set(k, (name, c + 1));
                },
                None => {
                    proof {
                        lemma_open_count_bound(prefix, query@, open@[i as int]@);
                        if exists|x: int| 0 <= x < prefix.len() && #[trigger] prefix[x]@ == open@[i as int]@ && open_title_counts(open@[i as int]@, query@) {
                            assert(title_seen(prefix, seq![], query@, open@[i as int]@));
                        }
                    }
                    raw.push((open[i].clone(), 1));
                    proof {
                        wk = raw@.len() - 1;
                    }
                },
            }
        }
        proof {
            assert forall|t: Seq<char>| title_seen(next, seq![], query@, t) implies exists|k: int| 0 <= k < raw@.len() && #[trigger] raw@[k].0@ == t by {
                if title_seen(prefix, seq![], query@, t) {
                    let k = choose|k: int| 0 <= k < before.len() && #[trigger] before[k].0@ == t;
                    assert(raw@[k].0@ == t);
                } else {
                    let x = choose|x: int| 0 <= x < next.len() && #[trigger] next[x]@ == t && open_title_counts(t, query@);
                    if x < prefix.len() {
                        assert(prefix[x] == next[x]);
                        assert(title_seen(prefix, seq![], query@, t));
                    } else {
                        assert(counts);
                        assert(raw@[wk].0@ == t);
                    }
                }
            }
            assert forall|k: int| 0 <= k < raw@.len() implies title_seen(next, seq![], query@, #[trigger] raw@[k].0@)
                && raw@[k].1 as nat == open_count(next, query@, raw@[k].0@) + stored_count(seq![], raw@[k].0@) by {
                if k < before.len() {
                    let t = before[k].0@;
                    let x = choose|x: int| 0 <= x < prefix.len() && #[trigger] prefix[x]@ == t && open_title_counts(t, query@);
                    assert(next[x] == prefix[x]);
                } else {
                    assert(next[i as int]@ == raw@[k].0@);
                }
            }
        }
        i = i + 1;
    }
    assert(open@.take(open.len() as int) == open@);
    assert(stored@.take(0) =~= Seq::<(String, usize)>::empty());
    let mut j: usize = 0;
    while j < stored.len()
        invariant
            q@ == query@,
            j <= stored.len(),
            open.len() + stored_total(stored@) <= usize::MAX,
            all_counts_ok(open@, stored@.take(j as int), query@, raw@),
        decreases stored.len() - j,
    {
        let ghost prefix = stored@.take(j as int);
        let ghost next = stored@.take(j + 1);
        proof {
            assert(next.drop_last() == prefix);
            assert(next.last() == stored@[j as int]);
            lemma_stored_total_step(stored@, j as int);
            lemma_stored_prefix_total(stored@, j + 1);
        }
        let ghost before = raw@;
        let ghost mut wk: int = 0;
        let n = stored[j].1;
        match find_title(&raw, stored[j].0.as_str()) {
            Some(k) => {
                proof {
                    lemma_open_count_bound(open@, query@, raw@[k as int].0@);
                    lemma_stored_count_bound(prefix, raw@[k as int].0@);
                    wk = k as int;
                }
                let name = raw[k].0.clone();
                let c = raw[k].1;
                raw.set(k, (name, c + n));
            },
            None => {
                proof {
                    let t = stored@[j as int].0@;
                    lemma_open_count_bound(open@, query@, t);
                    lemma_stored_count_bound(prefix, t);
                    if exists|x: int| 0 <= x < open.len() && #[trigger] open@[x]@ == t && open_title_counts(t, query@) {
                        assert(title_seen(open@, prefix, query@, t));
                    }
                    if exists|x: int| 0 <= x < prefix.len() && #[trigger] prefix[x].0@ == t {
                        assert(title_seen(open@, prefix, query@, t));
                    }
                }
                raw.push((stored[j].0.clone(), n));
                proof {
                    wk = raw@.len() - 1;
                }
            },
        }
        proof {
            assert forall|t: Seq<char>| title_seen(open@, next, query@, t) implies exists|k: int| 0 <= k < raw@.len() && #[trigger] raw@[k].0@ == t by {
                if title_seen(open@, prefix, query@, t) {
                    let k = choose|k: int| 0 <= k < before.len() && #[trigger] before[k].0@ == t;
                    assert(raw@[k].0@ == t);
                } else {
                    if exists|x: int| 0 <= x < next.len() && #[trigger] next[x].0@ == t {
                        let x = choose|x: int| 0 <= x < next.len() && #[trigger] next[x].0@ == t;
                        if x < prefix.len() {
                            assert(prefix[x] == next[x]);
                            assert(title_seen(open@, prefix, query@, t));
                        } else {
                            assert(raw@[wk].0@ == t);
                        }
                    }
                }
            }
            assert forall|k: int| 0 <= k < raw@.len() implies title_seen(open@, next, query@, #[trigger] raw@[k].0@)
                && raw@[k].1 as nat == open_count(open@, query@, raw@[k].0@) + stored_count(next, raw@[k].0@) by {
                if k < before.len() {
                    let t = before[k].0@;
                    if exists|x: int| 0 <= x < prefix.len() && #[trigger] prefix[x].0@ == t {
                        let x = choose|x: int| 0 <= x < prefix.len() && #[trigger] prefix[x].0@ == t;
                        assert(next[x] == prefix[x]);
                    }
                } else {
                    assert(next[j as int].0@ == raw@[k].0@);
                }
            }
        }
        j = j + 1;
    }
    assert(stored@.take(stored.len() as int) == stored@);
    raw
}

fn offered_titles(
    open: &Vec<String>,
    stored: &Vec<(String, usize)>,
    query: &str,
    all: &Vec<(String, usize)>,
) -> (out: Vec<(String, usize)>)
    requires
        all_counts_ok(open@, stored@, query@, all@),
    ensures
        title_counts_ok(open@, stored@, query@, out@),
{
    let q = chars_of(query);
    let mut out: Vec<(String, usize)> = Vec::new();
    let ghost mut idx: Seq<int> = seq![];
    let mut i: usize = 0;
    while i < all.len()
        invariant
            q@ == query@,
            i <= all.len(),
            idx.len() == out.len(),
            forall|m: int| 0 <= m < out.len() ==> 0 <= #[trigger] idx[m] < i && out@[m] == all@[idx[m]],
            forall|m: int, l: int| 0 <= m < l < out.len() ==> #[trigger] idx[m] < #[trigger] idx[l],
            forall|m: int| 0 <= m < out.len() ==> title_offered(#[trigger] out@[m].0@, query@),
            forall|k: int| 0 <= k < i && title_offered(#[trigger] all@[k].0@, query@) ==> exists|m: int| 0 <= m < out.len() && #[trigger] idx[m] == k,
        decreases all.len() - i,
    {
        let title = chars_of(all[i].0.as_str());
        let offered = starts_with_exec(&title, &q) && (q.len() == 0 || !crate::text::chars_equal(&title, &q));
        assert(offered == title_offered(all@[i as int].0@, query@));
        let ghost old_idx = idx;
        if offered {
            out.push((all[i].0.clone(), all[i].1));
            proof {
                idx = idx.push(i as int);
                assert(idx[idx.len() - 1] == i as int);
            }
        }
        proof {
            assert forall|k: int| 0 <= k < i + 1 && title_offered(#[trigger] all@[k].0@, query@) implies exists|m: int| 0 <= m < out.len() && #[trigger] idx[m] == k by {
                if k < i {
                    let m = choose|m: int| 0 <= m < old_idx.len() && #[trigger] old_idx[m] == k;
                    assert(idx[m] == old_idx[m]);
                } else {
                    assert(idx[idx.len() - 1] == k);
                }
            }
        }
        i = i + 1;
    }
    proof {
        assert forall|m: int| 0 <= m < out.len() implies title_offered(#[trigger] out@[m].0@, query@)
            && title_seen(open@, stored@, query@, out@[m].0@)
            && out@[m].1 as nat == open_count(open@, query@, out@[m].0@) + stored_count(stored@, out@[m].0@) by {
            assert(out@[m] == all@[idx[m]]);
        }
        assert forall|m: int, l: int| 0 <= m < l < out.len() implies #[trigger] out@[m].0@ != #[trigger] out@[l].0@ by {
            assert(idx[m] < idx[l]);
            assert(out@[m] == all@[idx[m]]);
            assert(out@[l] == all@[idx[l]]);
        }
        assert forall|t: Seq<char>| title_offered(t, query@) && title_seen(open@, stored@, query@, t) implies exists|m: int| 0 <= m < out.len() && #[trigger] out@[m].0@ == t by {
            let k = choose|k: int| 0 <= k < all.len() && #[trigger] all@[k].0@ == t;
            assert(title_offered(all@[k].0@, query@));
            let m = choose|m: int| 0 <= m < out.len() && #[trigger] idx[m] == k;
            assert(out@[m] == all@[idx[m]]);
        }
    }
    out
}

fn title_key_vecs(raw: &Vec<(String, usize)>) -> (keys: Vec<Vec<i128>>)
    ensures
        keys.len() == raw.len(),
        keys@.map_values(|k: Vec<i128>| k@) == title_count_keys(raw@),
{
    let mut keys: Vec<Vec<i128>> = Vec::new();
    let mut i: usize = 0;
    while i < raw.len()
        invariant
            i <= raw.len(),
            keys.len() == i,
            forall|j: int| 0 <= j < i ==> #[trigger] keys@[j]@ == seq![(-(raw@[j].1 as int)) as i128] + str_key(raw@[j].0@),
        decreases raw.len() - i,
    {
        let count = raw[i].1 as i128;
        let mut key: Vec<i128> = Vec::new();
        key.push(-count);
        let chars = chars_of(raw[i].0.as_str());
        push_str_key(&mut key, &chars);
        keys.push(key);
        i = i + 1;
    }
    assert(keys@.map_values(|k: Vec<i128>| k@) =~= title_count_keys(raw@));
    keys
}

fn title_candidates(titles: &Vec<(String, usize)>, replace: &std::ops::Range<usize>) -> (cs: Vec<CompletionCandidate>)
    ensures
        cs.len() == titles.len(),
        forall|k: int| 0 <= k < cs.len() ==> title_candidate_ok(titles@[k].0@, titles@[k].1, *replace, #[trigger] cs@[k]),
{
    let mut cs: Vec<CompletionCandidate> = Vec::new();
    let mut i: usize = 0;
    while i < titles.len()
        invariant
            i <= titles.len(),
            cs.len() == i,
            forall|k: int| 0 <= k < i ==> title_candidate_ok(titles@[k].0@, titles@[k].1, *replace, #[trigger] cs@[k]),
        decreases titles.len() - i,
    {
        let mut detail = chars_of("event title, ");
        let digits = decimal_u64(titles[i].1 as u64);
        extend_chars(&mut detail, &digits);
        let tail = chars_of(" uses");
        extend_chars(&mut detail, &tail);
        cs.push(
            CompletionCandidate {
                label: titles[i].0.clone(),
                detail: string_from_chars(&detail),
                new_text: titles[i].0.clone(),
                replace: copy_range(replace),
            },
        );
        i = i + 1;
    }
    cs
}

/// The event titles offered for a query: the titles of events in open
/// documents (`open`, one entry per event) and the counts the store
/// reports (`stored`), merged into one use count per title, keeping the
/// titles that extend the query (any title for an empty query), most used
/// first, then by title, at most `EVENT_TITLE_COMPLETION_LIMIT` of them.
/// An open document's event counts only when its title is nonempty and
/// differs from the query.
pub fn complete_event_title(
    query: &str,
    replace: &std::ops::Range<usize>,
    open: &Vec<String>,
    stored: &Vec<(String, usize)>,
) -> (candidates: Vec<CompletionCandidate>)
    requires
        open.len() + stored_total(stored@) <= usize::MAX,
    ensures
        exists|raw: Seq<(String, usize)>, perm: Seq<int>|
            title_counts_ok(open@, stored@, query@, raw) && sorted_permutation(title_count_keys(raw), perm)
                && candidates.len() == (if raw.len() < EVENT_TITLE_COMPLETION_LIMIT {
                raw.len() as int
            } else {
                EVENT_TITLE_COMPLETION_LIMIT as int
            }) && forall|k: int| 0 <= k < candidates.len() ==> title_candidate_ok(
                raw[perm[k]].0@,
                raw[perm[k]].1,
                *replace,
                #[trigger] candidates@[k],
            ),
{
    let all = merge_title_counts(open, stored, query);
    let offered = offered_titles(open, stored, query, &all);
    let keys = title_key_vecs(&offered);
    let ghost raw = offered@;
    let mut sorted = sort_by_keys(offered, &keys);
    let ghost full = sorted@;
    sorted.truncate(EVENT_TITLE_COMPLETION_LIMIT);
    let candidates = title_candidates(&sorted, replace);
    proof {
        let perm = choose|perm: Seq<int>| sorted_permutation(title_count_keys(raw), perm) && permuted(raw, full, perm);
        assert forall|k: int| 0 <= k < candidates.len() implies title_candidate_ok(
            raw[perm[k]].0@,
            raw[perm[k]].1,
            *replace,
            #[trigger] candidates@[k],
        ) by {
            assert(sorted@[k] == full[k]);
        }
    }
    candidates
}

proof fn lemma_stored_total_step(stored: Seq<(String, usize)>, j: int)
    requires
        0 <= j < stored.len(),
    ensures
        stored_total(stored.take(j + 1)) == stored_total(stored.take(j)) + stored[j].1 as nat,
{
    assert(stored.take(j + 1).drop_last() =~= stored.take(j));
    assert(stored.take(j + 1).last() == stored[j]);
}

proof fn lemma_stored_prefix_total(stored: Seq<(String, usize)>, j: int)
    requires
        0 <= j <= stored.len(),
    ensures
        stored_total(stored.take(j)) <= stored_total(stored),
    decreases stored.len() - j,
{
    if j < stored.len() {
        lemma_stored_prefix_total(stored, j + 1);
        lemma_stored_total_step(stored, j);
    } else {
        assert(stored.take(j) =~= stored);
    }
}

} // verus!
