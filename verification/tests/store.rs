use lexiroot::morpheme::{MorphemeId, MorphemeKind};
use lexiroot::store::{
    assemble, check_schema_version, decimal_text, record_morpheme, release_meta, DecompositionRow, LoadError, MorphemeRow, SegmentRow,
    RELEASE_SCHEMA_VERSION,
};

fn m(form: &str, positions: &str, meanings: &str, variants: &str) -> MorphemeRow {
    MorphemeRow {
        form: form.to_string(),
        positions: positions.to_string(),
        meanings: meanings.to_string(),
        variants: variants.to_string(),
        confidence: 0.95_f32.to_bits(),
        evidence: format!("fixture entry '{form}'"),
    }
}

fn s(word: &str, id: &str, role: &str) -> SegmentRow {
    SegmentRow { word: word.to_string(), morpheme_id: id.to_string(), role: role.to_string() }
}

fn d(word: &str) -> DecompositionRow {
    DecompositionRow {
        word: word.to_string(),
        confidence: 0.95_f32.to_bits(),
        evidence: "source-listed example word, segmented into: in + spect".to_string(),
    }
}

fn fixture_morphemes() -> Vec<MorphemeRow> {
    vec![
        m("in", "prefix", r#"["into","not"]"#, r#"["im","il"]"#),
        m("spect", "root", r#"["look","see"]"#, "[]"),
    ]
}

fn fixture_segments() -> Vec<SegmentRow> {
    vec![s("inspect", "in", "prefix"), s("inspect", "spect", "root")]
}

fn stamped() -> Option<String> {
    Some(RELEASE_SCHEMA_VERSION.to_string())
}

#[test]
fn assembles_a_release_database() {
    let db = assemble(stamped(), fixture_morphemes(), fixture_segments(), vec![d("inspect")]).unwrap();
    let inspect = db.analyze("inspect").unwrap();
    assert_eq!(inspect.segments.len(), 2);
    assert_eq!(inspect.segments[0].morpheme_id, MorphemeId::new("in"));
    assert_eq!(inspect.segments[1].role, MorphemeKind::Root);
    let spect = db.get_morpheme(&MorphemeId::new("spect")).unwrap();
    assert_eq!(spect.meanings, vec!["look".to_string(), "see".to_string()]);
    let info = db.root("spect").unwrap();
    assert_eq!(info.related_words, vec!["inspect"]);
    // The variants survive the load: `im` is read as the prefix `in`.
    let imspect = db.analyze("imspect").unwrap();
    assert_eq!(imspect.segments[0].morpheme_id, MorphemeId::new("in"));
}

#[test]
fn refuses_a_file_without_the_right_stamp() {
    assert_eq!(
        assemble(None, fixture_morphemes(), fixture_segments(), vec![d("inspect")]).err(),
        Some(LoadError::SchemaVersion(None))
    );
    assert_eq!(
        assemble(Some("1".to_string()), vec![], vec![], vec![]).err(),
        Some(LoadError::SchemaVersion(Some("1".to_string())))
    );
}

#[test]
fn refuses_the_first_bad_row() {
    let bad_positions = vec![m("in", "infix", "[]", "[]")];
    assert_eq!(
        assemble(stamped(), bad_positions, vec![], vec![]).err(),
        Some(LoadError::InvalidPositions("infix".to_string()))
    );
    let bad_json = vec![m("in", "prefix", "not json", "[]")];
    assert_eq!(
        assemble(stamped(), bad_json, vec![], vec![]).err(),
        Some(LoadError::NotAStringList("not json".to_string()))
    );
    let bad_variants = vec![m("in", "prefix", "[]", "[1]")];
    assert_eq!(
        assemble(stamped(), bad_variants, vec![], vec![]).err(),
        Some(LoadError::NotAStringList("[1]".to_string()))
    );
    let bad_role = vec![s("inspect", "in", "prefix"), s("inspect", "spect", "stem")];
    assert_eq!(
        assemble(stamped(), fixture_morphemes(), bad_role, vec![d("inspect")]).err(),
        Some(LoadError::UnknownRole("stem".to_string()))
    );
    let mut bad_confidence = d("inspect");
    bad_confidence.confidence = 1.5_f32.to_bits();
    assert_eq!(
        assemble(stamped(), fixture_morphemes(), fixture_segments(), vec![bad_confidence]).err(),
        Some(LoadError::ConfidenceOutOfRange(1.5_f32.to_bits()))
    );
}

#[test]
fn a_word_without_segment_rows_has_no_segments() {
    let db = assemble(stamped(), fixture_morphemes(), vec![], vec![d("inspect")]).unwrap();
    assert!(db.analyze("inspect").unwrap().segments.is_empty());
}

#[test]
fn record_morpheme_takes_the_read_columns() {
    let row = m("Spect", "root", "ignored", "ignored");
    let rec = record_morpheme(&row, Some(vec!["look".to_string()]), Some(vec![])).unwrap();
    assert_eq!(rec.id.as_str(), "spect");
    assert_eq!(rec.form, "Spect");
    assert_eq!(rec.meanings, vec!["look".to_string()]);
    assert_eq!(record_morpheme(&row, None, Some(vec![])).err(), Some(LoadError::NotAStringList("ignored".to_string())));
}

#[test]
fn stamps_match_what_load_expects() {
    assert_eq!(decimal_text(RELEASE_SCHEMA_VERSION), RELEASE_SCHEMA_VERSION.to_string());
    assert_eq!(decimal_text(0), "0");
    assert_eq!(decimal_text(4_294_967_295), "4294967295");
    let meta = release_meta();
    assert_eq!(meta[0], ("schema_version".to_string(), "2".to_string()));
    assert_eq!(meta[1], ("data_version".to_string(), "0.1.0".to_string()));
}

#[test]
fn checks_the_stamp_alone() {
    assert_eq!(check_schema_version(&Some("2".to_string())), Ok(()));
    assert_eq!(check_schema_version(&Some("02".to_string())), Err(LoadError::SchemaVersion(Some("02".to_string()))));
    assert_eq!(check_schema_version(&None), Err(LoadError::SchemaVersion(None)));
}
