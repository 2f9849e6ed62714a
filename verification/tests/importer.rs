use lexiroot::dataset::{parse, DatasetError, RawEntry};
use lexiroot::importer::{build_tables, normalize, ImportError};
use lexiroot::index::MorphemeIndex;
use lexiroot::morpheme::{MorphemeId, MorphemeKind};
use lexiroot::segment::segment;

fn strings(v: &[&str]) -> Vec<String> {
    v.iter().map(|s| s.to_string()).collect()
}

fn raw(form: &str, positions: &[&str], meanings: &[&str], examples: &[&str], variants: &[&str]) -> (String, RawEntry) {
    (
        form.to_string(),
        RawEntry {
            positions: strings(positions),
            meanings: strings(meanings),
            examples: strings(examples),
            variants: strings(variants),
        },
    )
}

/// The dataset as the file's map would hand it over: keys in sorted order.
fn fixture() -> Vec<(String, RawEntry)> {
    vec![
        raw("able", &["suffix"], &["capable of", "worthy"], &[], &[]),
        raw("duc", &["root"], &["lead"], &["duc"], &[]),
        raw("hand", &["prefix", "suffix"], &["hand"], &[], &[]),
        raw("in", &["prefix"], &["into", "not"], &["Inspect", "induc", "invis"], &["im", "il"]),
        raw("spect", &["root"], &["look", "see"], &["inspect", "spectrogram"], &[]),
        raw("vis", &["root"], &["see"], &[], &[]),
    ]
}

#[test]
fn normalize_builds_morphemes_and_precomputed_decompositions() {
    let (morphemes, decompositions, summary) = normalize(fixture()).unwrap();

    assert_eq!(summary.morphemes_written, 6);
    assert_eq!(morphemes.len(), 6);
    assert_eq!(summary.morphemes_with_variants, 1);
    let ids: Vec<&str> = morphemes.iter().map(|m| m.id.as_str()).collect();
    assert_eq!(ids, vec!["able", "duc", "hand", "in", "spect", "vis"]);

    let able = morphemes.iter().find(|m| m.id == MorphemeId::new("able")).unwrap();
    assert_eq!(able.meanings, vec!["capable of".to_string(), "worthy".to_string()]);
    assert_eq!(able.provenance.evidence, "curated dataset entry 'able'");
    assert_eq!(f32::from_bits(able.provenance.confidence()), 0.95);

    let hand = morphemes.iter().find(|m| m.id == MorphemeId::new("hand")).unwrap();
    assert_eq!(hand.positions.to_storage_string(), "prefix|suffix");

    // "Inspect" and "inspect" are one word, first spelling kept; the five
    // distinct words are duc, induc, inspect, invis, spectrogram.
    assert_eq!(summary.example_words_seen, 5);
    assert_eq!(summary.precomputed_decompositions, 4);
    assert_eq!(summary.examples_skipped_partial_segmentation, 1);

    let words: Vec<&str> = decompositions.iter().map(|d| d.word.as_str()).collect();
    assert_eq!(words, vec!["Inspect", "duc", "induc", "invis"]);

    let inspect = &decompositions[0];
    assert_eq!(inspect.segments.len(), 2);
    assert_eq!(inspect.segments[0].morpheme_id, MorphemeId::new("in"));
    assert_eq!(inspect.segments[0].role, MorphemeKind::Prefix);
    assert_eq!(inspect.segments[1].morpheme_id, MorphemeId::new("spect"));
    assert_eq!(inspect.segments[1].role, MorphemeKind::Root);
    assert_eq!(inspect.provenance.evidence, "dataset example word, segmented into: in + spect");

    let duc = decompositions.iter().find(|d| d.word == "duc").unwrap();
    assert_eq!(duc.segments.len(), 1);
    assert_eq!(duc.segments[0].role, MorphemeKind::Root);
}

#[test]
fn dataset_refuses_what_the_file_gets_wrong() {
    assert_eq!(
        parse(vec![raw("spect", &[], &[], &[], &[])]).unwrap_err(),
        DatasetError::NoPositions("spect".to_string())
    );
    let err = parse(vec![raw("spect", &["root", "infix", "body"], &[], &[], &[])]).unwrap_err();
    assert_eq!(err, DatasetError::UnknownPosition("spect".to_string(), "infix".to_string()));
    assert_eq!(err.message(), "entry 'spect' has unknown position 'infix'");
    let err = parse(vec![raw("Spect", &["root"], &[], &[], &[]), raw("spect", &["root"], &[], &[], &[])]).unwrap_err();
    assert_eq!(err, DatasetError::DuplicateId("spect".to_string(), "spect".to_string()));
    assert_eq!(err.message(), "two entries share the id 'spect' (form 'spect')");
    assert_eq!(DatasetError::NoPositions("x".to_string()).message(), "entry 'x' declares no positions");
    assert!(matches!(
        normalize(vec![raw("x", &[], &[], &[], &[])]),
        Err(ImportError::Dataset(DatasetError::NoPositions(_)))
    ));
}

#[test]
fn dataset_skips_empty_forms_and_files_by_id() {
    let d = parse(vec![
        raw("", &[], &[], &[], &[]),
        raw("Trans", &["prefix"], &["across"], &[], &[]),
        raw("able", &["suffix"], &[], &[], &[]),
    ])
    .unwrap();
    assert_eq!(d.len(), 2);
    assert!(d.contains_key(&MorphemeId::new("trans")));
    assert!(!d.contains_key(&MorphemeId("Trans".to_string())));
    let ids: Vec<&str> = d.entries().iter().map(|(id, _)| id.as_str()).collect();
    assert_eq!(ids, vec!["able", "trans"]);
}

#[test]
fn summary_counts_add_up() {
    let dataset = parse(fixture()).unwrap();
    let (_, decompositions, summary) = build_tables(dataset).unwrap();
    assert_eq!(
        summary.precomputed_decompositions + summary.examples_skipped_partial_segmentation,
        summary.example_words_seen
    );
    assert_eq!(summary.precomputed_decompositions, decompositions.len());
}

#[test]
fn recorded_decompositions_are_what_segment_finds() {
    let (_, decompositions, _) = normalize(fixture()).unwrap();
    let (morphemes, _, _) = normalize(fixture()).unwrap();
    let index = MorphemeIndex::build(morphemes);
    for d in &decompositions {
        assert_eq!(segment(&d.word, &index).as_ref(), Some(&d.segments));
        assert_eq!(f32::from_bits(d.provenance.confidence()), 0.95);
    }
    // The one example word left out has no full parse.
    assert!(segment("spectrogram", &index).is_none());
}
