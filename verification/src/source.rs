//! Identifiers of the datasets and passes that can produce a record.

use vstd::prelude::*;

use crate::text::{str_chars, chars_eq};

verus! {

/// Identifies which dataset or pass produced a given record.
#[derive(Debug, Clone, Copy, PartialEq, Eq, Structural, Hash)]
pub enum SourceId {
    ColinGoldbergMorphemes,
    WithEnglishWeCanRoots,
    /// The hand-curated free-stem list.
    LexirootStems,
    /// Derived at query time by the analyzer's algorithmic fallback.
    Inferred,
}

/// The storage name of a source.
pub open spec fn source_name(s: SourceId) -> Seq<char> {
    match s {
        SourceId::ColinGoldbergMorphemes => "colingoldberg_morphemes"@,
        SourceId::WithEnglishWeCanRoots => "withenglishwecan_roots"@,
        SourceId::LexirootStems => "lexiroot_stems"@,
        SourceId::Inferred => "inferred"@,
    }
}

/// The source a storage name denotes, if any.
pub open spec fn source_from_name(s: Seq<char>) -> Option<SourceId> {
    if s == "colingoldberg_morphemes"@ {
        Some(SourceId::ColinGoldbergMorphemes)
    } else if s == "withenglishwecan_roots"@ {
        Some(SourceId::WithEnglishWeCanRoots)
    } else if s == "lexiroot_stems"@ {
        Some(SourceId::LexirootStems)
    } else if s == "inferred"@ {
        Some(SourceId::Inferred)
    } else {
        None
    }
}

impl SourceId {
    pub fn as_str(&self) -> (r: &'static str)
        ensures
            r@ == source_name(*self),
    {
        match self {
            SourceId::ColinGoldbergMorphemes => "colingoldberg_morphemes",
            SourceId::WithEnglishWeCanRoots => "withenglishwecan_roots",
            SourceId::LexirootStems => "lexiroot_stems",
            SourceId::Inferred => "inferred",
        }
    }

    pub fn parse(s: &str) -> (r: Option<Self>)
        ensures
            r == source_from_name(s@),
    {
        let c = str_chars(s);
        let a = str_chars("colingoldberg_morphemes");
        let b = str_chars("withenglishwecan_roots");
        let d = str_chars("lexiroot_stems");
        let e = str_chars("inferred");
        if chars_eq(c.as_slice(), a.as_slice()) {
            Some(SourceId::ColinGoldbergMorphemes)
        } else if chars_eq(c.as_slice(), b.as_slice()) {
            Some(SourceId::WithEnglishWeCanRoots)
        } else if chars_eq(c.as_slice(), d.as_slice()) {
            Some(SourceId::LexirootStems)
        } else if chars_eq(c.as_slice(), e.as_slice()) {
            Some(SourceId::Inferred)
        } else {
            None
        }
    }
}

/// Every source's name reads back as that source, and a name only ever reads
/// back as the source it names.
pub proof fn lemma_source_name_round_trip(id: SourceId, s: Seq<char>)
    ensures
        source_from_name(source_name(id)) == Some(id),
        source_from_name(s) == Some(id) ==> source_name(id) == s,
{
    reveal_strlit("colingoldberg_morphemes");
    reveal_strlit("withenglishwecan_roots");
    reveal_strlit("lexiroot_stems");
    reveal_strlit("inferred");
    assert("colingoldberg_morphemes"@.len() == 23);
    assert("withenglishwecan_roots"@.len() == 22);
    assert("lexiroot_stems"@.len() == 14);
    assert("inferred"@.len() == 8);
}

} // verus!
