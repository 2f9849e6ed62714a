//! Readers for the upstream morpheme dictionaries the curated dataset was
//! first assembled from. Each turns one source's entries, already read from
//! its JSON file, into morpheme sightings: one form in one position.

pub mod colingoldberg;
pub mod lexiroot_stems;
pub mod withenglishwecan;

use vstd::prelude::*;

use crate::morpheme::{strings_view, MorphemeKind};
use crate::text::{owned, push_str};

verus! {

/// A single morpheme sighting as read from one source, before merging:
/// `kind` is the one position this sighting attests.
#[derive(Debug)]
pub struct ParsedMorpheme {
    pub form: String,
    pub kind: MorphemeKind,
    pub meanings: Vec<String>,
    pub evidence: String,
    pub examples: Vec<String>,
    /// Irregular surface allomorphs declared by the source; only the
    /// curated stem list supplies these.
    pub variants: Vec<String>,
}

/// The abstract content of a [`ParsedMorpheme`].
pub struct ParsedModel {
    pub form: Seq<char>,
    pub kind: MorphemeKind,
    pub meanings: Seq<Seq<char>>,
    pub evidence: Seq<char>,
    pub examples: Seq<Seq<char>>,
    pub variants: Seq<Seq<char>>,
}

impl View for ParsedMorpheme {
    type V = ParsedModel;

    open spec fn view(&self) -> ParsedModel {
        ParsedModel {
            form: self.form@,
            kind: self.kind,
            meanings: strings_view(self.meanings@),
            evidence: self.evidence@,
            examples: strings_view(self.examples@),
            variants: strings_view(self.variants@),
        }
    }
}

pub open spec fn parsed_view(v: Seq<ParsedMorpheme>) -> Seq<ParsedModel> {
    v.map_values(|p: ParsedMorpheme| p@)
}

/// `lead`, then `key`, then a closing quote.
pub fn quoted(lead: &str, key: &str) -> (r: String)
    ensures
        r@ == lead@ + key@ + "'"@,
{
    let mut s = owned(lead);
    push_str(&mut s, key);
    push_str(&mut s, "'");
    s
}

} // verus!
