use lexiroot::db::AnalyzerDb;
use lexiroot::decomposition::{MorphemeRef, WordDecomposition};
use lexiroot::index::MorphemeIndex;
use lexiroot::morpheme::{Morpheme, MorphemeId, MorphemeKind, MorphemePositions};
use lexiroot::provenance::Provenance;
use lexiroot::segment::{segment, segment_ranked};

fn positions(kinds: &[MorphemeKind]) -> MorphemePositions {
    let mut p = MorphemePositions::empty();
    for k in kinds {
        p.insert(*k);
    }
    p
}

fn curated(evidence: String) -> Provenance {
    Provenance::new(0.95_f32.to_bits(), evidence).unwrap()
}

fn morpheme(form: &str, kinds: &[MorphemeKind], meaning: &str) -> Morpheme {
    Morpheme::new(
        form,
        positions(kinds),
        vec![meaning.to_string()],
        curated(format!("fixture entry '{form}'")),
    )
}

fn morpheme_with_variants(form: &str, kinds: &[MorphemeKind], meaning: &str, variants: &[&str]) -> Morpheme {
    Morpheme::with_variants(
        form,
        positions(kinds),
        vec![meaning.to_string()],
        variants.iter().map(|v| v.to_string()).collect(),
        curated(format!("fixture entry '{form}'")),
    )
}

fn seg(form: &str, role: MorphemeKind) -> MorphemeRef {
    MorphemeRef {
        morpheme_id: MorphemeId::new(form),
        role,
    }
}

fn fixture_morphemes() -> Vec<Morpheme> {
    let (prefix, root, suffix) = (MorphemeKind::Prefix, MorphemeKind::Root, MorphemeKind::Suffix);
    vec![
        morpheme("un", &[prefix], "not"),
        morpheme("believe", &[root], "have faith"),
        morpheme("break", &[root], "separate into pieces"),
        morpheme("able", &[suffix], "capable of"),
        morpheme("trans", &[prefix, root], "across"),
        morpheme("port", &[prefix, root, suffix], "carry"),
        morpheme("ation", &[suffix], "act of"),
        morpheme("scope", &[suffix], "look at"),
        morpheme("micro", &[prefix], "small"),
        morpheme("e", &[prefix, suffix], "noise"),
        morpheme("happy", &[root], "feeling pleasure"),
        morpheme("run", &[root], "move quickly on foot"),
        morpheme("use", &[root], "employ"),
        morpheme("ness", &[suffix], "state of"),
        morpheme("ing", &[suffix], "action of"),
        morpheme_with_variants("admit", &[root], "let in", &["admiss"]),
        morpheme("ion", &[suffix], "act of"),
    ]
}

fn fixture_index() -> MorphemeIndex {
    MorphemeIndex::build(fixture_morphemes())
}

fn fixture_db() -> AnalyzerDb {
    let precomputed = vec![WordDecomposition {
        word: "unbelievable".to_string(),
        segments: vec![
            seg("un", MorphemeKind::Prefix),
            seg("believe", MorphemeKind::Root),
            seg("able", MorphemeKind::Suffix),
        ],
        provenance: curated("example word for 'believe' per fixture".to_string()),
    }];

    AnalyzerDb::new(fixture_morphemes(), precomputed)
}

fn forms(word: &str, index: &MorphemeIndex) -> Option<Vec<(String, MorphemeKind)>> {
    segment(word, index).map(|segments| {
        segments
            .iter()
            .map(|s| (s.morpheme_id.as_str().to_string(), s.role))
            .collect()
    })
}

#[test]
fn tier1_returns_precomputed_decomposition() {
    let db = fixture_db();
    let result = db.analyze("unbelievable").expect("should hit precomputed table");
    assert_eq!(result.segments.len(), 3);
    assert_eq!(f32::from_bits(result.provenance.confidence()), 0.95);
}

#[test]
fn tier1_lookup_is_case_insensitive() {
    let db = fixture_db();
    let result = db.analyze("UnBelievable").expect("should hit precomputed table regardless of case");
    assert_eq!(result.segments.len(), 3);
}

#[test]
fn tier2_falls_back_to_live_algorithmic_segmentation() {
    let db = fixture_db();
    let result = db.analyze("unbreakable").expect("should segment via algorithmic fallback");
    assert_eq!(result.segments.len(), 3);
    assert_eq!(f32::from_bits(result.provenance.confidence()), 0.5);
    assert!(result.provenance.evidence.contains("break"));
}

#[test]
fn tier3_returns_none_when_nothing_matches() {
    let db = fixture_db();
    assert!(db.analyze("zzznotaword").is_none());
}

#[test]
fn prefers_prefix_plus_root_over_root_plus_suffix() {
    let index = fixture_index();
    assert_eq!(
        forms("transport", &index),
        Some(vec![
            ("trans".into(), MorphemeKind::Prefix),
            ("port".into(), MorphemeKind::Root),
        ])
    );
}

#[test]
fn segments_prefix_root_and_suffix_together() {
    let index = fixture_index();
    assert_eq!(
        forms("transportation", &index),
        Some(vec![
            ("trans".into(), MorphemeKind::Prefix),
            ("port".into(), MorphemeKind::Root),
            ("ation".into(), MorphemeKind::Suffix),
        ])
    );
}

#[test]
fn long_affix_only_form_can_stand_in_as_a_root() {
    let index = fixture_index();
    assert_eq!(
        forms("microscope", &index),
        Some(vec![
            ("micro".into(), MorphemeKind::Prefix),
            ("scope".into(), MorphemeKind::Root),
        ])
    );
}

#[test]
fn one_character_affixes_are_never_used() {
    let index = fixture_index();
    let parsed = forms("ebreake", &index);
    assert!(
        parsed.is_none(),
        "should not segment via the one-character affix 'e', got {parsed:?}"
    );
}

#[test]
fn exact_root_match_returns_a_single_segment() {
    let index = fixture_index();
    assert_eq!(forms("break", &index), Some(vec![("break".into(), MorphemeKind::Root)]));
}

#[test]
fn reverses_silent_e_deletion_to_reach_the_stem() {
    let index = fixture_index();
    assert_eq!(
        forms("unbelievable", &index),
        Some(vec![
            ("un".into(), MorphemeKind::Prefix),
            ("believe".into(), MorphemeKind::Root),
            ("able".into(), MorphemeKind::Suffix),
        ])
    );
}

#[test]
fn reverses_y_to_i_and_consonant_doubling() {
    let index = fixture_index();
    assert_eq!(
        forms("unhappiness", &index),
        Some(vec![
            ("un".into(), MorphemeKind::Prefix),
            ("happy".into(), MorphemeKind::Root),
            ("ness".into(), MorphemeKind::Suffix),
        ])
    );
    assert_eq!(
        forms("running", &index),
        Some(vec![
            ("run".into(), MorphemeKind::Root),
            ("ing".into(), MorphemeKind::Suffix),
        ])
    );
}

#[test]
fn finds_a_stem_whose_surface_is_shorter_than_the_root_minimum() {
    let index = fixture_index();
    assert_eq!(
        forms("usable", &index),
        Some(vec![
            ("use".into(), MorphemeKind::Root),
            ("able".into(), MorphemeKind::Suffix),
        ])
    );
}

#[test]
fn resolves_a_listed_variant_to_its_canonical_morpheme() {
    let index = fixture_index();
    assert_eq!(
        forms("admission", &index),
        Some(vec![
            ("admit".into(), MorphemeKind::Root),
            ("ion".into(), MorphemeKind::Suffix),
        ])
    );
}

#[test]
fn every_reported_id_resolves_in_the_morpheme_table() {
    let index = fixture_index();
    for word in ["unbelievable", "unhappiness", "running", "usable", "admission"] {
        let segments = segment(word, &index).unwrap_or_else(|| panic!("{word} should segment"));
        for s in &segments {
            assert!(
                index.get(&s.morpheme_id).is_some(),
                "{word}: id '{}' is not in the morpheme table",
                s.morpheme_id.as_str()
            );
        }
    }
}

#[test]
fn inferred_evidence_names_the_spelling_rule_it_reversed() {
    let db = fixture_db();

    let with_rule = db.analyze("unbreakable").expect("should segment");
    assert!(
        !with_rule.provenance.evidence.contains("reversing"),
        "no rule fired here: {}",
        with_rule.provenance.evidence
    );

    let believable = db.analyze("believable").expect("should segment");
    let evidence = &believable.provenance.evidence;
    assert!(evidence.contains("believe"), "got: {evidence}");
    assert!(evidence.contains("silent-e deletion"), "got: {evidence}");
}

#[test]
fn spelling_rules_do_not_fire_on_a_bare_word() {
    let index = fixture_index();
    assert_eq!(forms("believ", &index), None);
}

#[test]
fn root_returns_meanings_and_related_words() {
    let db = fixture_db();
    let info = db.root("believe").expect("believe is a known root");
    assert_eq!(info.morpheme.meanings, vec!["have faith".to_string()]);
    assert_eq!(info.related_words, vec!["unbelievable"]);
}

#[test]
fn root_returns_none_for_affix_only_form() {
    let db = fixture_db();
    assert!(db.root("scope").is_none());
    assert!(db.root("zzznotaroot").is_none());
}

#[test]
fn family_groups_precomputed_words_by_shared_root() {
    let db = fixture_db();
    let words: Vec<&str> = db.family("believe").iter().map(|d| d.word.as_str()).collect();
    assert_eq!(words, vec!["unbelievable"]);
}

#[test]
fn tier2_evidence_spells_out_the_matched_morphemes() {
    let db = fixture_db();
    let d = db.analyze("unbreakable").unwrap();
    assert_eq!(
        d.provenance.evidence,
        "inferred by stripping known affixes around a matched root: un + break + able"
    );
    let d = db.analyze("believable").unwrap();
    assert_eq!(
        d.provenance.evidence,
        "inferred by stripping known affixes around a matched root: believe + able, after reversing silent-e deletion at the root boundary"
    );
    assert_eq!(d.word, "believable");
}

#[test]
fn ranked_segmentations_are_best_first_and_repeatable() {
    let index = fixture_index();
    let a = segment_ranked("transportation", &index, 5);
    let b = segment_ranked("transportation", &index, 5);
    assert_eq!(a, b);
    assert!(!a.is_empty());
    for w in a.windows(2) {
        assert!(w[0].score >= w[1].score);
    }
    assert!(segment_ranked("transportation", &index, 0).is_empty());
    assert!(segment_ranked("", &index, 3).is_empty());
}

#[test]
fn index_build_ignores_morpheme_order() {
    let mut reversed = fixture_morphemes();
    reversed.reverse();
    let a = fixture_index();
    let b = MorphemeIndex::build(reversed);
    for word in ["transportation", "admission", "unhappiness", "microscope"] {
        assert_eq!(forms(word, &a), forms(word, &b));
    }
    assert_eq!(a.max_prefix_len(), b.max_prefix_len());
    assert_eq!(a.max_suffix_len(), 5);
}

#[test]
fn later_precomputed_row_for_a_word_wins() {
    let first = WordDecomposition {
        word: "Running".to_string(),
        segments: vec![seg("run", MorphemeKind::Root)],
        provenance: curated("first".to_string()),
    };
    let second = WordDecomposition {
        word: "running".to_string(),
        segments: vec![seg("run", MorphemeKind::Root), seg("ing", MorphemeKind::Suffix)],
        provenance: curated("second".to_string()),
    };
    let db = AnalyzerDb::new(fixture_morphemes(), vec![first, second]);
    let d = db.analyze("RUNNING").unwrap();
    assert_eq!(d.provenance.evidence, "second");
    assert_eq!(d.segments.len(), 2);
}

#[test]
fn root_lookup_resolves_a_variant_root() {
    let db = fixture_db();
    let info = db.root("Admiss").expect("admiss is a listed root variant");
    assert_eq!(info.morpheme.form, "admit");
    assert!(info.related_words.is_empty());
    assert!(db.family("zzz").is_empty());
}

#[test]
fn segment_morphemes_lists_known_morphemes_in_order() {
    let db = fixture_db();
    let d = db.analyze("unbelievable").unwrap();
    let forms: Vec<&str> = db.segment_morphemes(&d).iter().map(|m| m.form.as_str()).collect();
    assert_eq!(forms, vec!["un", "believe", "able"]);
    let odd = WordDecomposition {
        word: "x".to_string(),
        segments: vec![seg("nothing", MorphemeKind::Root), seg("able", MorphemeKind::Suffix)],
        provenance: curated("x".to_string()),
    };
    let forms: Vec<&str> = db.segment_morphemes(&odd).iter().map(|m| m.form.as_str()).collect();
    assert_eq!(forms, vec!["able"]);
}

#[test]
fn coverage_counts_plain_lowercase_words() {
    assert!(lexiroot::db::counts_for_coverage("word"));
    assert!(!lexiroot::db::counts_for_coverage("wor"));
    assert!(!lexiroot::db::counts_for_coverage("Word"));
    assert!(!lexiroot::db::counts_for_coverage("naïve"));
    assert!(!lexiroot::db::counts_for_coverage("well-known"));
}

#[test]
fn analyze_off_the_table_gives_what_segment_gives() {
    let db = fixture_db();
    let index = fixture_index();
    for word in ["unbreakable", "transportation", "unhappiness", "admission", "zzznotaword"] {
        let analyzed = db.analyze(word);
        let segmented = segment(word, &index);
        assert_eq!(analyzed.as_ref().map(|d| &d.segments), segmented.as_ref());
        if let Some(d) = analyzed {
            assert_eq!(d.word, word);
            assert_eq!(f32::from_bits(d.provenance.confidence()), 0.5);
        }
    }
    let listed = db.analyze("UNBELIEVABLE").unwrap();
    assert_eq!(listed.word, "unbelievable");
    assert_eq!(f32::from_bits(listed.provenance.confidence()), 0.95);
}

#[test]
fn a_smaller_limit_gives_a_prefix_of_a_larger_one() {
    let index = fixture_index();
    let five = segment_ranked("transportation", &index, 5);
    for k in 0..=6usize {
        let some = segment_ranked("transportation", &index, k);
        let n = k.min(five.len());
        assert_eq!(some.as_slice(), &five[..n]);
    }
}

#[test]
fn lowercasing_the_word_first_changes_no_ranking() {
    let index = fixture_index();
    for word in ["TransPortation", "UNHAPPINESS", "Admission"] {
        let lowered = word.to_lowercase();
        assert_eq!(segment_ranked(&lowered, &index, 3), segment_ranked(word, &index, 3));
    }
}
