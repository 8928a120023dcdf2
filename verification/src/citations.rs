//! Putting a document's bibliography together from what loading each
//! declared source gave, and the diagnostics of its citations.
use vstd::prelude::*;
use crate::bibliography::{
    finish_bibliography, id_count, id_keys, record_keys, repeated_ids, Bibliography, BibliographyRecord,
    BibliographyResolution,
};
use crate::diagnostics::{DiagnosticSeverity, WorkspaceDiagnostic};
use crate::order::{permuted, sorted_permutation, unique_sorted_by};
use crate::text::{chars_of, extend_chars, string_from_chars};

verus! {

/// What loading one declared bibliography source gave; `range` is where it
/// is declared.
#[derive(Debug)]
pub enum SourceOutcome {
    /// The declared path is not a workspace CSL JSON file.
    InvalidPath { value: String, range: std::ops::Range<usize> },
    /// The file could not be read (the reader's message).
    Unreadable { path: String, error: String, range: std::ops::Range<usize> },
    /// The file is not valid CSL JSON (the reason).
    Malformed { path: String, message: String, range: std::ops::Range<usize> },
    /// The file's records.
    Loaded { path: String, records: Vec<BibliographyRecord>, range: std::ops::Range<usize> },
}

/// A diagnostic as plain values: code, severity, message, span and the
/// number of related spans.
pub open spec fn diagnostic_view(d: WorkspaceDiagnostic) -> (Seq<char>, DiagnosticSeverity, Seq<char>, std::ops::Range<usize>, nat) {
    (d.code@, d.severity, d.message@, d.range, d.related@.len())
}

/// A warning with no related spans.
pub open spec fn warning(code: Seq<char>, message: Seq<char>, range: std::ops::Range<usize>) -> (Seq<char>, DiagnosticSeverity, Seq<char>, std::ops::Range<usize>, nat) {
    (code, DiagnosticSeverity::Warning, message, range, 0)
}

/// The text `'x'`.
pub open spec fn quoted(x: Seq<char>) -> Seq<char> {
    seq!['\''] + x + seq!['\'']
}

/// The diagnostic a source outcome raises, if any.
pub open spec fn outcome_diagnostics(o: SourceOutcome) -> Seq<(Seq<char>, DiagnosticSeverity, Seq<char>, std::ops::Range<usize>, nat)> {
    match o {
        SourceOutcome::InvalidPath { value, range } => seq![warning(
            "citation.invalid-bibliography-path"@,
            "bibliography path "@ + quoted(value@) + " must be a workspace-relative CSL JSON file"@,
            range,
        )],
        SourceOutcome::Unreadable { path, error, range } => seq![warning(
            "citation.unresolved-bibliography"@,
            "cannot read bibliography "@ + quoted(path@) + seq![':', ' '] + error@,
            range,
        )],
        SourceOutcome::Malformed { path, message, range } => seq![warning(
            "citation.invalid-bibliography"@,
            "invalid CSL JSON bibliography "@ + quoted(path@) + seq![':', ' '] + message@,
            range,
        )],
        SourceOutcome::Loaded { .. } => seq![],
    }
}

/// The files a bibliography draws on: each source whose path is valid.
pub open spec fn outcome_sources(os: Seq<SourceOutcome>) -> Seq<Seq<char>>
    decreases os.len(),
{
    if os.len() == 0 {
        seq![]
    } else {
        let rest = outcome_sources(os.drop_last());
        match os.last() {
            SourceOutcome::InvalidPath { .. } => rest,
            SourceOutcome::Unreadable { path, .. } => rest.push(path@),
            SourceOutcome::Malformed { path, .. } => rest.push(path@),
            SourceOutcome::Loaded { path, .. } => rest.push(path@),
        }
    }
}

/// The records of all loaded sources, in order.
pub open spec fn outcome_records(os: Seq<SourceOutcome>) -> Seq<BibliographyRecord>
    decreases os.len(),
{
    if os.len() == 0 {
        seq![]
    } else {
        outcome_records(os.drop_last()) + match os.last() {
            SourceOutcome::Loaded { records, .. } => records@,
            _ => seq![],
        }
    }
}

/// The diagnostics of the sources, in order.
pub open spec fn sources_diagnostics(os: Seq<SourceOutcome>) -> Seq<(Seq<char>, DiagnosticSeverity, Seq<char>, std::ops::Range<usize>, nat)>
    decreases os.len(),
{
    if os.len() == 0 {
        seq![]
    } else {
        sources_diagnostics(os.drop_last()) + outcome_diagnostics(os.last())
    }
}

/// Where the first source is declared.
pub open spec fn outcome_range(o: SourceOutcome) -> std::ops::Range<usize> {
    match o {
        SourceOutcome::InvalidPath { range, .. } => range,
        SourceOutcome::Unreadable { range, .. } => range,
        SourceOutcome::Malformed { range, .. } => range,
        SourceOutcome::Loaded { range, .. } => range,
    }
}

/// One warning per id defined more than once, at `range`.
pub open spec fn duplicate_diagnostics(ids: Seq<String>, range: std::ops::Range<usize>) -> Seq<(Seq<char>, DiagnosticSeverity, Seq<char>, std::ops::Range<usize>, nat)> {
    ids.map_values(|id: String| warning("citation.duplicate-id"@, "citation id "@ + quoted(id@) + " is defined more than once"@, range))
}

fn quote_into(out: &mut Vec<char>, x: &str)
    ensures
        final(out)@ == old(out)@ + quoted(x@),
{
    out.push('\'');
    let chars = chars_of(x);
    extend_chars(out, &chars);
    out.push('\'');
    assert(final(out)@ =~= old(out)@ + quoted(x@));
}

fn copy_range(r: &std::ops::Range<usize>) -> (c: std::ops::Range<usize>)
    ensures
        c == *r,
{
    std::ops::Range { start: r.start, end: r.end }
}

fn warning_exec(code: &str, message: Vec<char>, range: &std::ops::Range<usize>) -> (d: WorkspaceDiagnostic)
    ensures
        diagnostic_view(d) == warning(code@, message@, *range),
{
    WorkspaceDiagnostic {
        code: code.to_string(),
        severity: DiagnosticSeverity::Warning,
        message: string_from_chars(&message),
        range: copy_range(range),
        related: Vec::new(),
    }
}

fn outcome_diagnostic(o: &SourceOutcome) -> (d: Option<WorkspaceDiagnostic>)
    ensures
        match d {
            Some(x) => outcome_diagnostics(*o) == seq![diagnostic_view(x)],
            None => outcome_diagnostics(*o) == Seq::<(Seq<char>, DiagnosticSeverity, Seq<char>, std::ops::Range<usize>, nat)>::empty(),
        },
{
    match o {
        SourceOutcome::InvalidPath { value, range } => {
            let mut m = chars_of("bibliography path ");
            quote_into(&mut m, value.as_str());
            let tail = chars_of(" must be a workspace-relative CSL JSON file");
            extend_chars(&mut m, &tail);
            assert(m@ =~= "bibliography path "@ + quoted(value@) + " must be a workspace-relative CSL JSON file"@);
            Some(warning_exec("citation.invalid-bibliography-path", m, range))
        },
        SourceOutcome::Unreadable { path, error, range } => {
            let mut m = chars_of("cannot read bibliography ");
            quote_into(&mut m, path.as_str());
            m.push(':');
            m.push(' ');
            let e = chars_of(error.as_str());
            extend_chars(&mut m, &e);
            assert(m@ =~= "cannot read bibliography "@ + quoted(path@) + seq![':', ' '] + error@);
            Some(warning_exec("citation.unresolved-bibliography", m, range))
        },
        SourceOutcome::Malformed { path, message, range } => {
            let mut m = chars_of("invalid CSL JSON bibliography ");
            quote_into(&mut m, path.as_str());
            m.push(':');
            m.push(' ');
            let e = chars_of(message.as_str());
            extend_chars(&mut m, &e);
            assert(m@ =~= "invalid CSL JSON bibliography "@ + quoted(path@) + seq![':', ' '] + message@);
            Some(warning_exec("citation.invalid-bibliography", m, range))
        },
        SourceOutcome::Loaded { .. } => None,
    }
}

/// Puts a document's bibliography together from the outcome of each of its
/// declared sources, in order: the sources with a valid path, their
/// records ordered by id then path, a warning per failed source, then one
/// per id defined more than once (at the first declaration).
pub fn assemble_bibliography(outcomes: Vec<SourceOutcome>) -> (b: Bibliography)
    ensures
        b.declared == (outcomes.len() > 0),
        b.sources@.map_values(|s: String| s@) == outcome_sources(outcomes@),
        exists|perm: Seq<int>|
            sorted_permutation(record_keys(outcome_records(outcomes@)), perm) && permuted(outcome_records(outcomes@), b.records@, perm),
        exists|dups: Seq<String>|
            unique_sorted_by(
                repeated_ids(outcome_records(outcomes@), outcome_records(outcomes@)),
                id_keys(repeated_ids(outcome_records(outcomes@), outcome_records(outcomes@))),
                dups,
            ) && b.diagnostics@.map_values(|d: WorkspaceDiagnostic| diagnostic_view(d)) == sources_diagnostics(outcomes@)
                + duplicate_diagnostics(
                dups,
                if outcomes.len() > 0 {
                    outcome_range(outcomes@[0])
                } else {
                    std::ops::Range { start: 0, end: 0 }
                },
            ),
{
    let ghost os = outcomes@;
    let declared = outcomes.len() > 0;
    let declaration_range = if declared {
        match &outcomes[0] {
            SourceOutcome::InvalidPath { range, .. } => copy_range(range),
            SourceOutcome::Unreadable { range, .. } => copy_range(range),
            SourceOutcome::Malformed { range, .. } => copy_range(range),
            SourceOutcome::Loaded { range, .. } => copy_range(range),
        }
    } else {
        std::ops::Range { start: 0, end: 0 }
    };
    let mut sources: Vec<String> = Vec::new();
    let mut records: Vec<BibliographyRecord> = Vec::new();
    let mut diagnostics: Vec<WorkspaceDiagnostic> = Vec::new();
    let mut outcomes = outcomes;
    let mut i: usize = 0;
    let n = outcomes.len();
    while outcomes.len() > 0
        invariant
            n == os.len(),
            outcomes.len() + i == n,
            outcomes@ == os.skip(i as int),
            sources@.map_values(|s: String| s@) == outcome_sources(os.take(i as int)),
            records@ == outcome_records(os.take(i as int)),
            diagnostics@.map_values(|d: WorkspaceDiagnostic| diagnostic_view(d)) == sources_diagnostics(os.take(i as int)),
        decreases outcomes.len(),
    {
        let o = outcomes.remove(0);
        proof {
            assert(o == os[i as int]);
            assert(os.take(i + 1).drop_last() == os.take(i as int));
            assert(os.take(i + 1).last() == os[i as int]);
            assert(outcomes@ == os.skip(i + 1));
        }
        let ghost d0 = diagnostics@.map_values(|d: WorkspaceDiagnostic| diagnostic_view(d));
        match outcome_diagnostic(&o) {
            Some(d) => {
                diagnostics.push(d);
                assert(diagnostics@.map_values(|x: WorkspaceDiagnostic| diagnostic_view(x)) =~= d0 + outcome_diagnostics(o));
            },
            None => {
                assert(d0 + outcome_diagnostics(o) =~= d0);
            },
        }
        let ghost s0 = sources@.map_values(|s: String| s@);
        let ghost r0 = records@;
        match o {
            SourceOutcome::InvalidPath { .. } => {
                assert(r0 + seq![] =~= r0);
            },
            SourceOutcome::Unreadable { path, .. } => {
                sources.push(path);
                assert(sources@.map_values(|s: String| s@) =~= s0.push(sources@.last()@));
                assert(r0 + seq![] =~= r0);
            },
            SourceOutcome::Malformed { path, .. } => {
                sources.push(path);
                assert(sources@.map_values(|s: String| s@) =~= s0.push(sources@.last()@));
                assert(r0 + seq![] =~= r0);
            },
            SourceOutcome::Loaded { path, records: loaded, .. } => {
                sources.push(path);
                assert(sources@.map_values(|s: String| s@) =~= s0.push(sources@.last()@));
                let mut loaded = loaded;
                records.append(&mut loaded);
            },
        }
        i = i + 1;
    }
    assert(os.take(n as int) == os);
    let (sorted, duplicates) = finish_bibliography(records);
    let ghost before = diagnostics@.map_values(|d: WorkspaceDiagnostic| diagnostic_view(d));
    let mut k: usize = 0;
    while k < duplicates.len()
        invariant
            k <= duplicates.len(),
            diagnostics@.map_values(|d: WorkspaceDiagnostic| diagnostic_view(d)) == before + duplicate_diagnostics(
                duplicates@.take(k as int),
                declaration_range,
            ),
        decreases duplicates.len() - k,
    {
        let mut m = chars_of("citation id ");
        quote_into(&mut m, duplicates[k].as_str());
        let tail = chars_of(" is defined more than once");
        extend_chars(&mut m, &tail);
        assert(m@ =~= "citation id "@ + quoted(duplicates@[k as int]@) + " is defined more than once"@);
        let ghost b0 = diagnostics@.map_values(|d: WorkspaceDiagnostic| diagnostic_view(d));
        let d = warning_exec("citation.duplicate-id", m, &declaration_range);
        let ghost dv = diagnostic_view(d);
        diagnostics.push(d);
        assert(duplicates@.take(k + 1) == duplicates@.take(k as int).push(duplicates@[k as int]));
        assert(diagnostics@.map_values(|x: WorkspaceDiagnostic| diagnostic_view(x)) =~= b0.push(dv));
        assert(duplicate_diagnostics(duplicates@.take(k + 1), declaration_range) =~= duplicate_diagnostics(
            duplicates@.take(k as int),
            declaration_range,
        ).push(dv));
        assert(diagnostics@.map_values(|d: WorkspaceDiagnostic| diagnostic_view(d)) =~= before + duplicate_diagnostics(
            duplicates@.take(k + 1),
            declaration_range,
        ));
        k = k + 1;
    }
    assert(duplicates@.take(duplicates.len() as int) == duplicates@);
    Bibliography { declared, sources, records: sorted, diagnostics }
}

/// The diagnostic a citation of `id` at `range` raises: none when the id
/// resolves, otherwise ambiguous or unresolved.
pub open spec fn citation_diagnostic(records: Seq<BibliographyRecord>, id: Seq<char>, range: std::ops::Range<usize>) -> Seq<(Seq<char>, DiagnosticSeverity, Seq<char>, std::ops::Range<usize>, nat)> {
    if id_count(records, id) == 1 {
        seq![]
    } else if id_count(records, id) > 1 {
        seq![warning("citation.ambiguous"@, "citation id "@ + quoted(id) + " is defined more than once"@, range)]
    } else {
        seq![warning("citation.unresolved"@, "citation id "@ + quoted(id) + " is not in the declared bibliography"@, range)]
    }
}

/// The diagnostics of citations, in order.
pub open spec fn citations_diagnostics(records: Seq<BibliographyRecord>, citations: Seq<(String, std::ops::Range<usize>)>) -> Seq<(Seq<char>, DiagnosticSeverity, Seq<char>, std::ops::Range<usize>, nat)>
    decreases citations.len(),
{
    if citations.len() == 0 {
        seq![]
    } else {
        citations_diagnostics(records, citations.drop_last()) + citation_diagnostic(
            records,
            citations.last().0@,
            citations.last().1,
        )
    }
}

impl Bibliography {
    /// The diagnostics of citations (id and span each) against this
    /// bibliography (see `citation_diagnostic`).
    pub fn citation_diagnostics(&self, citations: &Vec<(String, std::ops::Range<usize>)>) -> (diagnostics: Vec<WorkspaceDiagnostic>)
        ensures
            diagnostics@.map_values(|d: WorkspaceDiagnostic| diagnostic_view(d)) == citations_diagnostics(self.records@, citations@),
    {
        let mut diagnostics: Vec<WorkspaceDiagnostic> = Vec::new();
        let mut i: usize = 0;
        while i < citations.len()
            invariant
                i <= citations.len(),
                diagnostics@.map_values(|d: WorkspaceDiagnostic| diagnostic_view(d)) == citations_diagnostics(
                    self.records@,
                    citations@.take(i as int),
                ),
            decreases citations.len() - i,
        {
            proof {
                assert(citations@.take(i + 1).drop_last() == citations@.take(i as int));
                assert(citations@.take(i + 1).last() == citations@[i as int]);
            }
            let (id, range) = (&citations[i].0, &citations[i].1);
            let ghost d0 = diagnostics@.map_values(|d: WorkspaceDiagnostic| diagnostic_view(d));
            proof {
                crate::bibliography::lemma_id_count(self.records@, id@);
            }
            match self.resolve(id.as_str()) {
                BibliographyResolution::Resolved(_) => {
                    assert(d0 + seq![] =~= d0);
                },
                BibliographyResolution::Ambiguous => {
                    let mut m = chars_of("citation id ");
                    quote_into(&mut m, id.as_str());
                    let tail = chars_of(" is defined more than once");
                    extend_chars(&mut m, &tail);
                    assert(m@ =~= "citation id "@ + quoted(id@) + " is defined more than once"@);
                    let d = warning_exec("citation.ambiguous", m, range);
                    let ghost dv = diagnostic_view(d);
                    diagnostics.push(d);
                    assert(diagnostics@.map_values(|x: WorkspaceDiagnostic| diagnostic_view(x)) =~= d0.push(dv));
                    assert(diagnostics@.map_values(|d: WorkspaceDiagnostic| diagnostic_view(d)) =~= d0
                        + citation_diagnostic(self.records@, id@, *range));
                },
                BibliographyResolution::Unresolved => {
                    let mut m = chars_of("citation id ");
                    quote_into(&mut m, id.as_str());
                    let tail = chars_of(" is not in the declared bibliography");
                    extend_chars(&mut m, &tail);
                    assert(m@ =~= "citation id "@ + quoted(id@) + " is not in the declared bibliography"@);
                    let d = warning_exec("citation.unresolved", m, range);
                    let ghost dv = diagnostic_view(d);
                    diagnostics.push(d);
                    assert(diagnostics@.map_values(|x: WorkspaceDiagnostic| diagnostic_view(x)) =~= d0.push(dv));
                    assert(diagnostics@.map_values(|d: WorkspaceDiagnostic| diagnostic_view(d)) =~= d0
                        + citation_diagnostic(self.records@, id@, *range));
                },
            }
            i = i + 1;
        }
        assert(citations@.take(citations.len() as int) == citations@);
        diagnostics
    }
}

} // verus!
