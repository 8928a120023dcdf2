use plumb_workspace::bibliography::{BibliographyRecord, BibliographyResolution};
use plumb_workspace::citations::{assemble_bibliography, SourceOutcome};
use plumb_workspace::csl::source_records;
use plumb_workspace::diagnostics::DiagnosticSeverity;

fn records(text: &str) -> Result<Vec<BibliographyRecord>, String> {
    source_records("/ws/refs.json", text)
}

#[test]
fn plain_csl_json_gives_records_with_details() {
    let text = r#"[{"id":"smith2004","title":"Book","author":[{"family":"Smith"}],"issued":{"date-parts":[[2004]]}}]"#;
    let loaded = records(text).unwrap();
    assert_eq!(loaded.len(), 1);
    assert_eq!(loaded[0].id, "smith2004");
    assert_eq!(loaded[0].detail(), "Smith · 2004 · Book");
    assert_eq!(loaded[0].path, "/ws/refs.json");
    assert_eq!(&text[loaded[0].range.clone()], "\"smith2004\"");
}

#[test]
fn the_id_span_is_the_id_field_not_an_equal_title() {
    let text = r#"[{"title":"same","id":"same"}]"#;
    let loaded = records(text).unwrap();
    assert_eq!(&text[loaded[0].range.clone()], "\"same\"");
    assert!(loaded[0].range.start > text.find("\"same\"").unwrap());
}

#[test]
fn repeated_ids_each_get_their_own_span() {
    let text = r#"[{"id":"same"}, {"id" :  "same"}]"#;
    let loaded = records(text).unwrap();
    assert_eq!(loaded.len(), 2);
    assert_eq!(loaded[0].range, 7..13);
    assert_eq!(&text[loaded[1].range.clone()], "\"same\"");
    assert!(loaded[1].range.start > loaded[0].range.end);
}

#[test]
fn authors_and_years_take_several_shapes() {
    let text = r#"[{"id":"a","author":[{"literal":"ACM","family":"x"},{"given":"y"},{"family":"Doe"}],"issued":{"date-parts":[[-44]]}},
                   {"id":"b","issued":{"date-parts":[["2004"]]}},
                   {"id":"c","issued":{"date-parts":[[2004.5]]}}]"#;
    let loaded = records(text).unwrap();
    assert_eq!(loaded[0].authors, vec!["ACM".to_string(), "Doe".to_string()]);
    assert_eq!(loaded[0].year.as_deref(), Some("-44"));
    assert_eq!(loaded[1].year.as_deref(), Some("2004"));
    assert_eq!(loaded[2].year, None);
    assert_eq!(loaded[2].title, None);
}

#[test]
fn malformed_files_are_refused_with_a_reason() {
    assert_eq!(records("{}"), Err("root must be an array".to_string()));
    assert_eq!(records("[1]"), Err("each item must be an object".to_string()));
    assert_eq!(records(r#"[{"id":""}]"#), Err("each item must have a nonempty string id".to_string()));
    assert_eq!(records(r#"[{"title":"x"}]"#), Err("each item must have a nonempty string id".to_string()));
    assert_eq!(records(r#"[{"id":"\u0061"}]"#), Err("cannot locate source for id 'a'".to_string()));
    assert!(records("[").is_err());
}

fn record(id: &str, path: &str) -> BibliographyRecord {
    BibliographyRecord { id: id.to_string(), title: None, authors: vec![], year: None, path: path.to_string(), range: 0..1 }
}

#[test]
fn a_bibliography_collects_sources_records_and_warnings() {
    let bibliography = assemble_bibliography(vec![
        SourceOutcome::InvalidPath { value: "../x.json".to_string(), range: 0..5 },
        SourceOutcome::Unreadable { path: "/ws/missing.json".to_string(), error: "no such file".to_string(), range: 6..9 },
        SourceOutcome::Malformed { path: "/ws/bad.json".to_string(), message: "root must be an array".to_string(), range: 10..11 },
        SourceOutcome::Loaded {
            path: "/ws/dup.json".to_string(),
            records: vec![record("same", "/ws/dup.json"), record("other", "/ws/dup.json"), record("same", "/ws/dup.json")],
            range: 12..14,
        },
    ]);
    assert!(bibliography.declared);
    assert_eq!(bibliography.sources, vec!["/ws/missing.json", "/ws/bad.json", "/ws/dup.json"]);
    let ids: Vec<&str> = bibliography.records.iter().map(|r| r.id.as_str()).collect();
    assert_eq!(ids, vec!["other", "same", "same"]);
    let codes: Vec<&str> = bibliography.diagnostics.iter().map(|d| d.code.as_str()).collect();
    assert_eq!(
        codes,
        vec![
            "citation.invalid-bibliography-path",
            "citation.unresolved-bibliography",
            "citation.invalid-bibliography",
            "citation.duplicate-id"
        ]
    );
    assert_eq!(bibliography.diagnostics[0].message, "bibliography path '../x.json' must be a workspace-relative CSL JSON file");
    assert_eq!(bibliography.diagnostics[1].message, "cannot read bibliography '/ws/missing.json': no such file");
    assert_eq!(bibliography.diagnostics[2].message, "invalid CSL JSON bibliography '/ws/bad.json': root must be an array");
    assert_eq!(bibliography.diagnostics[3].message, "citation id 'same' is defined more than once");
    assert_eq!(bibliography.diagnostics[3].range, 0..5);
    assert!(bibliography.diagnostics.iter().all(|d| d.severity == DiagnosticSeverity::Warning && d.related.is_empty()));
    assert_eq!(bibliography.resolve("same"), BibliographyResolution::Ambiguous);
}

#[test]
fn citations_are_checked_against_the_bibliography() {
    let bibliography = assemble_bibliography(vec![SourceOutcome::Loaded {
        path: "/ws/refs.json".to_string(),
        records: vec![record("a", "/ws/refs.json"), record("b", "/ws/refs.json"), record("b", "/ws/refs.json")],
        range: 3..4,
    }]);
    let diagnostics = bibliography.citation_diagnostics(&vec![
        ("a".to_string(), 0..1),
        ("b".to_string(), 2..3),
        ("c".to_string(), 4..5),
    ]);
    let found: Vec<(&str, &str)> = diagnostics.iter().map(|d| (d.code.as_str(), d.message.as_str())).collect();
    assert_eq!(
        found,
        vec![
            ("citation.ambiguous", "citation id 'b' is defined more than once"),
            ("citation.unresolved", "citation id 'c' is not in the declared bibliography"),
        ]
    );
    assert_eq!(diagnostics[1].range, 4..5);
}

#[test]
fn diagnoses_citations_without_a_declared_bibliography() {
    let bibliography = assemble_bibliography(vec![]);
    assert!(!bibliography.declared);
    let diagnostics = bibliography.citation_diagnostics(&vec![("smith2004".to_string(), 4..13)]);
    assert_eq!(diagnostics.len(), 1);
    assert_eq!(diagnostics[0].code, "citation.unresolved");
}
