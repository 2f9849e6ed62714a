//! Confidence and evidence carried by every analysis result.

use vstd::prelude::*;

use crate::error::CoreError;

verus! {

/// Whether the `f32` with this bit pattern lies in `0.0..=1.0`.
///
/// Non-negative IEEE 754 single-precision numbers are ordered as their bit
/// patterns are, `1.0` is `0x3F80_0000`, and `-0.0` (`0x8000_0000`) compares
/// equal to `0.0`; every other pattern with the sign bit set, and every NaN,
/// lies outside the range.
pub open spec fn confidence_in_range(bits: u32) -> bool {
    bits <= 0x3F80_0000 || bits == 0x8000_0000
}

/// The abstract content of a [`Provenance`].
pub struct ProvenanceModel {
    pub confidence: u32,
    pub evidence: Seq<char>,
}

/// Every analysis result carries a confidence score and supporting evidence.
///
/// The confidence is held as the bit pattern of an `f32` (what
/// `f32::to_bits` returns), and is always within `0.0..=1.0`.
#[derive(Debug, PartialEq)]
pub struct Provenance {
    confidence: u32,
    pub evidence: String,
}

impl View for Provenance {
    type V = ProvenanceModel;

    closed spec fn view(&self) -> ProvenanceModel {
        ProvenanceModel { confidence: self.confidence, evidence: self.evidence@ }
    }
}

impl Clone for Provenance {
    fn clone(&self) -> (r: Self)
        ensures
            r == *self,
    {
        proof {
            use_type_invariant(self);
        }
        Provenance { confidence: self.confidence, evidence: self.evidence.clone() }
    }
}

impl Provenance {
    #[verifier::type_invariant]
    closed spec fn inv(self) -> bool {
        confidence_in_range(self.confidence)
    }

    /// Refuses a confidence outside `0.0..=1.0` (given as `f32` bits).
    pub fn new(confidence: u32, evidence: String) -> (r: Result<Self, CoreError>)
        ensures
            match r {
                Ok(p) => confidence_in_range(confidence) && p@.confidence == confidence
                    && p@.evidence == evidence@,
                Err(e) => !confidence_in_range(confidence) && e == CoreError::ConfidenceOutOfRange(
                    confidence,
                ),
            },
    {
        if !(confidence <= 0x3F80_0000 || confidence == 0x8000_0000) {
            return Err(CoreError::ConfidenceOutOfRange(confidence));
        }
        Ok(Provenance { confidence, evidence })
    }

    /// The evidence text.
    pub fn evidence(&self) -> (r: &String)
        ensures
            r@ == self@.evidence,
    {
        &self.evidence
    }

    /// The confidence, as the bit pattern of an `f32`.
    pub fn confidence(&self) -> (r: u32)
        ensures
            r == self@.confidence,
            confidence_in_range(r),
    {
        proof {
            use_type_invariant(self);
        }
        self.confidence
    }
}

} // verus!
