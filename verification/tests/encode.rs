use lexiroot::dataset::RawEntry;
use lexiroot::encode::{decomposition_rows, morpheme_row};
use lexiroot::importer::normalize;
use lexiroot::morpheme::{Morpheme, MorphemeId, MorphemeKind, MorphemePositions};
use lexiroot::provenance::Provenance;
use lexiroot::store::{assemble, RELEASE_SCHEMA_VERSION};

fn strings(v: &[&str]) -> Vec<String> {
    v.iter().map(|s| s.to_string()).collect()
}

fn raw(form: &str, positions: &[&str], meanings: &[&str], examples: &[&str], variants: &[&str]) -> (String, RawEntry) {
    (
        form.to_string(),
        RawEntry {
            positions: strings(positions),
            meanings: strings(meanings),
            examples: strings(examples),
            variants: strings(variants),
        },
    )
}

fn fixture() -> Vec<(String, RawEntry)> {
    vec![
        raw("able", &["suffix"], &["capable of", "worthy"], &[], &[]),
        raw("hand", &["prefix", "suffix"], &["hand"], &[], &[]),
        raw("in", &["prefix"], &["into", "not"], &["Inspect", "invis"], &["im", "il"]),
        raw("spect", &["root"], &["look", "see"], &["inspect"], &[]),
        raw("vis", &["root"], &["see"], &[], &[]),
    ]
}

#[test]
fn morpheme_rows_hold_json_lists_and_storage_positions() {
    let (morphemes, _, _) = normalize(fixture()).unwrap();
    let able = morpheme_row(&morphemes[0]);
    assert_eq!(able.form, "able");
    assert_eq!(able.positions, "suffix");
    assert_eq!(able.meanings, r#"["capable of","worthy"]"#);
    assert_eq!(able.variants, "[]");
    assert_eq!(f32::from_bits(able.confidence), 0.95);
    assert_eq!(able.evidence, "curated dataset entry 'able'");
    let hand = morpheme_row(&morphemes[1]);
    assert_eq!(hand.positions, "prefix|suffix");
    let prefix_in = morpheme_row(&morphemes[2]);
    assert_eq!(prefix_in.variants, r#"["im","il"]"#);
}

#[test]
fn decomposition_rows_list_segments_in_order() {
    let (_, decompositions, _) = normalize(fixture()).unwrap();
    let (row, segments) = decomposition_rows(&decompositions[0]);
    assert_eq!(row.word, "Inspect");
    assert_eq!(f32::from_bits(row.confidence), 0.95);
    assert_eq!(row.evidence, "dataset example word, segmented into: in + spect");
    let listed: Vec<(&str, &str, &str)> =
        segments.iter().map(|s| (s.word.as_str(), s.morpheme_id.as_str(), s.role.as_str())).collect();
    assert_eq!(listed, vec![("Inspect", "in", "prefix"), ("Inspect", "spect", "root")]);
}

#[test]
fn written_rows_load_back_as_the_records() {
    let (morphemes, decompositions, _) = normalize(fixture()).unwrap();
    let morpheme_rows = morphemes.iter().map(|m| morpheme_row(m)).collect();
    let mut segment_rows = Vec::new();
    let mut word_rows = Vec::new();
    for d in &decompositions {
        let (row, segments) = decomposition_rows(d);
        word_rows.push(row);
        segment_rows.extend(segments);
    }
    let db = assemble(Some(RELEASE_SCHEMA_VERSION.to_string()), morpheme_rows, segment_rows, word_rows).unwrap();
    for m in &morphemes {
        assert_eq!(db.get_morpheme(&m.id), Some(m));
    }
    for d in &decompositions {
        assert_eq!(db.analyze(&d.word).as_ref(), Some(d));
    }
    let inspect = db.analyze("inspect").unwrap();
    assert_eq!(inspect.segments[0].morpheme_id, MorphemeId::new("in"));
    assert_eq!(inspect.segments[1].role, MorphemeKind::Root);
}

#[test]
fn json_lists_escape_as_serde_json_writes_them() {
    let meanings = strings(&["a\"b", "c\\d", "e\nf", "\u{1}\t", "é/"]);
    let provenance = Provenance::new(0.95_f32.to_bits(), "fixture".to_string()).unwrap();
    let m = Morpheme::new("Spect", MorphemePositions::from_kind(MorphemeKind::Root), meanings, provenance);
    let row = morpheme_row(&m);
    assert_eq!(row.meanings, r#"["a\"b","c\\d","e\nf","\u0001\t","é/"]"#);
    assert_eq!(row.variants, "[]");
    assert_eq!(row.form, "Spect");
    assert_eq!(row.positions, "root");
}
