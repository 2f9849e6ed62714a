use lexiroot::dataset::RawEntry;
use lexiroot::morpheme::MorphemeKind;
use lexiroot::sources::colingoldberg::{self, ColinEntry, RawForm};
use lexiroot::sources::lexiroot_stems::{self, StemError};
use lexiroot::sources::withenglishwecan::{self, RootEntry};

fn strings(v: &[&str]) -> Vec<String> {
    v.iter().map(|s| s.to_string()).collect()
}

#[test]
fn colingoldberg_keeps_known_locations_only() {
    let raw = vec![(
        "-ably".to_string(),
        ColinEntry {
            forms: vec![
                RawForm { form: "ably".to_string(), loc: "suffix".to_string() },
                RawForm { form: "apt".to_string(), loc: "embedded".to_string() },
                RawForm { form: "".to_string(), loc: "prefix".to_string() },
                RawForm { form: "xx".to_string(), loc: "infix".to_string() },
            ],
            meaning: strings(&["able to"]),
            examples: strings(&["capably"]),
        },
    )];
    let out = colingoldberg::parse(raw);
    assert_eq!(out.len(), 2);
    assert_eq!(out[0].form, "ably");
    assert_eq!(out[0].kind, MorphemeKind::Suffix);
    assert_eq!(out[1].form, "apt");
    assert_eq!(out[1].kind, MorphemeKind::Root);
    assert_eq!(out[1].evidence, "colingoldberg/morphemes entry '-ably'");
    assert_eq!(out[1].meanings, strings(&["able to"]));
    assert!(out[1].variants.is_empty());
}

#[test]
fn withenglishwecan_strips_grade_tags() {
    let raw = vec![
        ("".to_string(), RootEntry { meanings: vec![], examples: vec![] }),
        (
            "dic".to_string(),
            RootEntry {
                meanings: strings(&["say (prefix)"]),
                examples: strings(&[
                    "abdicate - hs",
                    "admission - 6",
                    "long - tagged - words",
                    "edict - ",
                    "verdict - toolong",
                    "dictum",
                    "a - b - c1",
                ]),
            },
        ),
    ];
    let out = withenglishwecan::parse(raw);
    assert_eq!(out.len(), 1);
    assert_eq!(out[0].kind, MorphemeKind::Root);
    assert_eq!(out[0].evidence, "withenglishwecan/generated-english-roots-list entry 'dic'");
    assert_eq!(
        out[0].examples,
        strings(&[
            "abdicate",
            "admission",
            "long - tagged - words",
            "edict - ",
            "verdict - toolong",
            "dictum",
            "a - b",
        ])
    );
}

#[test]
fn lexiroot_stems_gives_one_sighting_per_position() {
    let raw = vec![(
        "hand".to_string(),
        RawEntry {
            positions: strings(&["prefix", "suffix"]),
            meanings: strings(&["hand"]),
            examples: strings(&["handmade"]),
            variants: strings(&["hands"]),
        },
    )];
    let out = lexiroot_stems::parse(raw).unwrap();
    assert_eq!(out.len(), 2);
    assert_eq!(out[0].kind, MorphemeKind::Prefix);
    assert_eq!(out[1].kind, MorphemeKind::Suffix);
    assert_eq!(out[1].evidence, "lexiroot-stems curated entry 'hand'");
    assert_eq!(out[1].variants, strings(&["hands"]));
}

#[test]
fn lexiroot_stems_is_strict() {
    let entry = |positions: &[&str]| RawEntry {
        positions: strings(positions),
        meanings: vec![],
        examples: vec![],
        variants: vec![],
    };
    let err = lexiroot_stems::parse(vec![("x".to_string(), entry(&[]))]).unwrap_err();
    assert_eq!(err, StemError::NoPositions("x".to_string()));
    assert_eq!(err.message(), "lexiroot-stems entry 'x' declares no positions");
    let err = lexiroot_stems::parse(vec![("x".to_string(), entry(&["root", "stem"]))]).unwrap_err();
    assert_eq!(err, StemError::UnknownPosition("x".to_string(), "stem".to_string()));
    assert_eq!(err.message(), "lexiroot-stems entry 'x' has unknown position 'stem'");
    assert!(lexiroot_stems::parse(vec![("".to_string(), entry(&[]))]).unwrap().is_empty());
}
