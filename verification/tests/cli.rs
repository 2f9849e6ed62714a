use lexiroot::db::AnalyzerDb;
use lexiroot::format::{format_analysis, format_family, format_root};
use lexiroot::store::{assemble, DecompositionRow, MorphemeRow, SegmentRow, RELEASE_SCHEMA_VERSION};

/// The command line's fixture database, as the rows a release file of the
/// current schema holds.
fn build_fixture_db() -> AnalyzerDb {
    let morpheme = |form: &str, positions: &str, meanings: &str| MorphemeRow {
        form: form.to_string(),
        positions: positions.to_string(),
        meanings: meanings.to_string(),
        variants: "[]".to_string(),
        confidence: 0.95_f32.to_bits(),
        evidence: format!("fixture entry '{form}'"),
    };
    let segment = |word: &str, id: &str, role: &str| SegmentRow {
        word: word.to_string(),
        morpheme_id: id.to_string(),
        role: role.to_string(),
    };
    assemble(
        Some(RELEASE_SCHEMA_VERSION.to_string()),
        vec![morpheme("in", "prefix", r#"["into","not"]"#), morpheme("spect", "root", r#"["look","see"]"#)],
        vec![segment("inspect", "in", "prefix"), segment("inspect", "spect", "root")],
        vec![DecompositionRow {
            word: "inspect".to_string(),
            confidence: 0.95_f32.to_bits(),
            evidence: "source-listed example word, segmented into: in + spect".to_string(),
        }],
    )
    .unwrap()
}

#[test]
fn analyze_prints_precomputed_decomposition() {
    let db = build_fixture_db();
    let d = db.analyze("inspect").unwrap();
    let stdout = format_analysis(&db, &d, &format!("{:.2}", f32::from_bits(d.provenance.confidence())));
    assert!(stdout.contains("Word: inspect"));
    assert!(stdout.contains("Prefix:"));
    assert!(stdout.contains("in = into, not"));
    assert!(stdout.contains("Root:"));
    assert!(stdout.contains("spect = look, see"));
}

#[test]
fn analyze_algorithmic_fallback_for_unlisted_word() {
    let db = build_fixture_db();
    assert!(db.analyze("zzznotaword").is_none());
}

#[test]
fn root_prints_meanings_and_related_words() {
    let db = build_fixture_db();
    let info = db.root("spect").unwrap();
    let stdout = format_root("spect", &info);
    assert!(stdout.contains("look"));
    assert!(stdout.contains("see"));
    assert!(stdout.contains("inspect"));
}

#[test]
fn family_prints_tree_of_related_words() {
    let db = build_fixture_db();
    let words = db.family("spect");
    let stdout = format_family("spect", &words);
    assert!(stdout.contains("inspect"));
}
