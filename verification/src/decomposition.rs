//! A word's decomposition into the morphemes that make it up.

use vstd::prelude::*;

use crate::morpheme::{MorphemeId, MorphemeKind};
use crate::provenance::{Provenance, ProvenanceModel};

verus! {

/// One segment of a word's decomposition, in left-to-right order: which
/// morpheme, and which slot it fills in this word.
#[derive(Debug, PartialEq)]
pub struct MorphemeRef {
    pub morpheme_id: MorphemeId,
    pub role: MorphemeKind,
}

impl View for MorphemeRef {
    type V = (Seq<char>, MorphemeKind);

    open spec fn view(&self) -> (Seq<char>, MorphemeKind) {
        (self.morpheme_id@, self.role)
    }
}

impl Clone for MorphemeRef {
    fn clone(&self) -> (r: Self)
        ensures
            r@ == self@,
    {
        MorphemeRef { morpheme_id: self.morpheme_id.clone(), role: self.role }
    }
}

/// The abstract content of a [`WordDecomposition`].
pub struct DecompositionModel {
    pub word: Seq<char>,
    pub segments: Seq<(Seq<char>, MorphemeKind)>,
    pub provenance: ProvenanceModel,
}

pub open spec fn refs_view(v: Seq<MorphemeRef>) -> Seq<(Seq<char>, MorphemeKind)> {
    v.map_values(|r: MorphemeRef| r@)
}

#[derive(Debug, PartialEq)]
pub struct WordDecomposition {
    pub word: String,
    pub segments: Vec<MorphemeRef>,
    pub provenance: Provenance,
}

impl View for WordDecomposition {
    type V = DecompositionModel;

    open spec fn view(&self) -> DecompositionModel {
        DecompositionModel {
            word: self.word@,
            segments: refs_view(self.segments@),
            provenance: self.provenance@,
        }
    }
}

/// A copy of a list of segments.
pub fn clone_refs(v: &Vec<MorphemeRef>) -> (r: Vec<MorphemeRef>)
    ensures
        refs_view(r@) == refs_view(v@),
{
    let mut r: Vec<MorphemeRef> = Vec::new();
    let mut i: usize = 0;
    while i < v.len()
        invariant
            i <= v@.len(),
            refs_view(r@) == refs_view(v@.take(i as int)),
        decreases v@.len() - i,
    {
        r.push(v[i].clone());
        assert(refs_view(v@.take(i + 1)) =~= refs_view(v@.take(i as int)).push(v@[i as int]@));
        assert(refs_view(r@) =~= refs_view(r@.drop_last()).push(r@.last()@));
        i = i + 1;
    }
    assert(v@.take(v@.len() as int) == v@);
    r
}

impl Clone for WordDecomposition {
    fn clone(&self) -> (r: Self)
        ensures
            r@ == self@,
    {
        WordDecomposition {
            word: self.word.clone(),
            segments: clone_refs(&self.segments),
            provenance: self.provenance.clone(),
        }
    }
}

} // verus!
