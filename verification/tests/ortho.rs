use lexiroot::ortho::{underlying_candidates, OrthoRule};

fn candidates(surface: &str, next: Option<char>) -> Vec<String> {
    underlying_candidates(surface, next).into_iter().map(|(f, _)| f).collect()
}

#[test]
fn restores_silent_e_before_a_vowel_initial_suffix() {
    assert!(candidates("believ", Some('a')).contains(&"believe".to_string()));
    assert!(candidates("us", Some('a')).contains(&"use".to_string()));
}

#[test]
fn does_not_restore_silent_e_before_a_consonant_initial_suffix() {
    assert!(!candidates("believ", Some('n')).contains(&"believe".to_string()));
}

#[test]
fn undoubles_only_after_a_single_short_vowel() {
    assert!(candidates("runn", Some('i')).contains(&"run".to_string()));
    assert!(candidates("bigg", Some('e')).contains(&"big".to_string()));
    // Two vowels before the pair: never a doubling site.
    assert!(!candidates("sleepp", Some('i')).contains(&"sleep".to_string()));
    // Undoubling is never proposed before a consonant-initial suffix.
    assert!(!candidates("runn", Some('n')).contains(&"run".to_string()));
}

#[test]
fn never_undoubles_s() {
    assert!(!candidates("class", Some('i')).contains(&"clas".to_string()));
    assert!(!candidates("press", Some('u')).contains(&"pres".to_string()));
}

#[test]
fn rewrites_final_i_back_to_y_except_before_i() {
    assert!(candidates("happi", Some('n')).contains(&"happy".to_string()));
    assert!(candidates("beauti", Some('f')).contains(&"beauty".to_string()));
    assert!(candidates("carri", Some('i')).is_empty());
}

/// A word-final root was never suffixed, so it was never rewritten.
#[test]
fn proposes_nothing_when_the_root_ends_the_word() {
    assert!(candidates("hors", None).is_empty());
    assert!(candidates("happi", None).is_empty());
}

#[test]
fn names_each_rule() {
    let rules: Vec<OrthoRule> = underlying_candidates("believ", Some('a')).into_iter().map(|(_, r)| r).collect();
    assert!(rules.iter().any(|r| r.as_str() == "silent-e deletion"));
}
