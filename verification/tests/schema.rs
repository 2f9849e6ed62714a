use lexiroot::error::CoreError;
use lexiroot::morpheme::{MorphemeId, MorphemeKind, MorphemePositions};
use lexiroot::provenance::Provenance;
use lexiroot::source::SourceId;

fn confidence(c: f32) -> u32 {
    c.to_bits()
}

#[test]
fn provenance_rejects_confidence_out_of_range() {
    assert!(Provenance::new(confidence(-0.01), "x".to_string()).is_err());
    assert!(Provenance::new(confidence(1.01), "x".to_string()).is_err());
}

#[test]
fn provenance_accepts_boundary_confidence() {
    assert!(Provenance::new(confidence(0.0), "x".to_string()).is_ok());
    assert!(Provenance::new(confidence(1.0), "x".to_string()).is_ok());
}

#[test]
fn morpheme_id_is_deterministic_and_lowercased() {
    let a = MorphemeId::new("Spect");
    let b = MorphemeId::new("spect");
    assert_eq!(a, b);
    assert_eq!(a.as_str(), "spect");
}

#[test]
fn positions_merge_and_serialize_canonically() {
    let mut positions = MorphemePositions::from_kind(MorphemeKind::Suffix);
    positions.insert(MorphemeKind::Prefix);
    assert!(positions.contains(MorphemeKind::Prefix));
    assert!(positions.contains(MorphemeKind::Suffix));
    assert!(!positions.contains(MorphemeKind::Root));
    assert_eq!(positions.to_storage_string(), "prefix|suffix");
    assert_eq!(MorphemePositions::parse("prefix|suffix").unwrap(), positions);
    assert!(MorphemePositions::parse("").is_err());
    assert!(MorphemePositions::parse("infix").is_err());
}

#[test]
fn provenance_keeps_what_it_was_given() {
    let p = Provenance::new(confidence(0.5), "why".to_string()).unwrap();
    assert_eq!(f32::from_bits(p.confidence()), 0.5);
    assert_eq!(p.evidence, "why");
    assert_eq!(p.evidence().as_str(), "why");
    assert_eq!(
        Provenance::new(confidence(f32::NAN), "x".to_string()),
        Err(CoreError::ConfidenceOutOfRange(f32::NAN.to_bits()))
    );
    assert!(Provenance::new(confidence(-0.0), "x".to_string()).is_ok());
}

#[test]
fn every_position_set_survives_storage() {
    let kinds = [MorphemeKind::Prefix, MorphemeKind::Root, MorphemeKind::Suffix];
    for mask in 1..8u8 {
        let mut p = MorphemePositions::empty();
        for (i, k) in kinds.iter().enumerate() {
            if mask & (1 << i) != 0 {
                p.insert(*k);
            }
        }
        let stored = p.to_storage_string();
        assert_eq!(MorphemePositions::parse(&stored).unwrap(), p, "{stored}");
    }
    assert_eq!(MorphemePositions::empty().to_storage_string(), "");
    assert_eq!(
        MorphemePositions::parse("root||prefix").unwrap().to_storage_string(),
        "prefix|root"
    );
    assert_eq!(
        MorphemePositions::parse("|"),
        Err(CoreError::InvalidMorphemePositions("|".to_string()))
    );
}

#[test]
fn positions_iterate_in_canonical_order() {
    let mut p = MorphemePositions::from_kind(MorphemeKind::Suffix);
    p.insert(MorphemeKind::Root);
    assert_eq!(p.iter(), vec![MorphemeKind::Root, MorphemeKind::Suffix]);
    let mut q = MorphemePositions::from_kind(MorphemeKind::Prefix);
    q.union(p);
    assert_eq!(q.iter(), vec![MorphemeKind::Prefix, MorphemeKind::Root, MorphemeKind::Suffix]);
    assert!(MorphemePositions::empty().is_empty());
    assert!(!q.is_empty());
}

#[test]
fn kind_and_source_names_round_trip() {
    for k in [MorphemeKind::Prefix, MorphemeKind::Root, MorphemeKind::Suffix] {
        assert_eq!(MorphemeKind::parse(k.as_str()), Some(k));
    }
    assert_eq!(MorphemeKind::parse("infix"), None);
    for s in [
        SourceId::ColinGoldbergMorphemes,
        SourceId::WithEnglishWeCanRoots,
        SourceId::LexirootStems,
        SourceId::Inferred,
    ] {
        assert_eq!(SourceId::parse(s.as_str()), Some(s));
    }
    assert_eq!(SourceId::parse("nope"), None);
}
