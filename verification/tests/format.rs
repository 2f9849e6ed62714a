use lexiroot::db::AnalyzerDb;
use lexiroot::decomposition::{MorphemeRef, WordDecomposition};
use lexiroot::format::{format_analysis, format_family, format_root};
use lexiroot::morpheme::{Morpheme, MorphemeId, MorphemeKind, MorphemePositions};
use lexiroot::provenance::Provenance;

fn curated(evidence: &str) -> Provenance {
    Provenance::new(0.95_f32.to_bits(), evidence.to_string()).unwrap()
}

fn fixture_db() -> AnalyzerDb {
    let morphemes = vec![
        Morpheme::new(
            "in",
            MorphemePositions::from_kind(MorphemeKind::Prefix),
            vec!["into".to_string(), "not".to_string()],
            curated("fixture entry 'in'"),
        ),
        Morpheme::new(
            "spect",
            MorphemePositions::from_kind(MorphemeKind::Root),
            vec!["look".to_string(), "see".to_string()],
            curated("fixture entry 'spect'"),
        ),
        Morpheme::new("ion", MorphemePositions::from_kind(MorphemeKind::Suffix), vec![], curated("fixture entry 'ion'")),
    ];
    let words = vec![
        WordDecomposition {
            word: "inspect".to_string(),
            segments: vec![
                MorphemeRef { morpheme_id: MorphemeId::new("in"), role: MorphemeKind::Prefix },
                MorphemeRef { morpheme_id: MorphemeId::new("spect"), role: MorphemeKind::Root },
            ],
            provenance: curated("source-listed example word, segmented into: in + spect"),
        },
        WordDecomposition {
            word: "spection".to_string(),
            segments: vec![
                MorphemeRef { morpheme_id: MorphemeId::new("spect"), role: MorphemeKind::Root },
                MorphemeRef { morpheme_id: MorphemeId::new("ion"), role: MorphemeKind::Suffix },
            ],
            provenance: curated("made up"),
        },
    ];
    AnalyzerDb::new(morphemes, words)
}

#[test]
fn analysis_lists_each_slot_in_order() {
    let db = fixture_db();
    let d = db.analyze("inspect").unwrap();
    let text = format_analysis(&db, &d, "0.95");
    assert_eq!(
        text,
        "Word: inspect  (confidence 0.95)\n\nPrefix:\n  in = into, not\n\nRoot:\n  spect = look, see\n\nEvidence: source-listed example word, segmented into: in + spect\n"
    );
    assert!(text.contains("in = into, not"));
    assert!(text.contains("spect = look, see"));
}

#[test]
fn analysis_marks_a_morpheme_without_meanings() {
    let db = fixture_db();
    let d = db.analyze("spection").unwrap();
    let text = format_analysis(&db, &d, "0.95");
    assert!(text.contains("\nSuffix:\n  ion = (no recorded meaning)\n"));
    assert!(text.find("Root:").unwrap() < text.find("Suffix:").unwrap());
}

#[test]
fn root_lists_meanings_and_related_words() {
    let db = fixture_db();
    let info = db.root("spect").unwrap();
    assert_eq!(
        format_root("spect", &info),
        "spect\n\nMeaning:\n  look\n  see\n\nRelated words:\n\ninspect\nspection\n"
    );
    let info = db.root("SPECT").unwrap();
    assert!(format_root("SPECT", &info).starts_with("SPECT\n"));
}

#[test]
fn family_draws_a_tree() {
    let db = fixture_db();
    let words = db.family("spect");
    assert_eq!(format_family("spect", &words), "spect\n├── inspect\n└── spection\n");
    let none = db.family("nothing");
    assert_eq!(
        format_family("nothing", &none),
        "nothing\n  (no known words for this root in this pass's dataset)\n"
    );
}

#[test]
fn root_without_related_words_says_so() {
    let m = Morpheme::new("vis", MorphemePositions::from_kind(MorphemeKind::Root), vec![], curated("x"));
    let info = lexiroot::db::RootInfo { morpheme: &m, related_words: vec![] };
    assert_eq!(format_root("vis", &info), "vis\n\nMeaning:\n\nRelated words:\n\n  (none in this pass's dataset)\n");
}
