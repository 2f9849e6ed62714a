//! The rows the library's records are written as, and what reading those
//! rows back gives.

use vstd::prelude::*;

use crate::decomposition::{DecompositionModel, WordDecomposition};
use crate::morpheme::{
    kind_from_name, kind_name, lemma_kind_name_round_trip, lemma_positions_round_trip, storage_string, strings_view,
    Morpheme, MorphemeKind, MorphemeModel,
};
use crate::provenance::{confidence_in_range, ProvenanceModel};
use crate::store::{
    decimal, decompositions_loaded, json_string_list, loaded, morpheme_record, morphemes_loaded, roles_checked,
    segments_of, word_taken, DecompositionRow, DecompositionRowModel, MorphemeRow, MorphemeRowModel, SegmentRow,
    SegmentRowModel, RELEASE_SCHEMA_VERSION,
};
use crate::text::{lowercase, seq_join};

verus! {

/// A hexadecimal digit as serde_json writes it, in lower case.
pub open spec fn hex_char(d: int) -> char {
    if d < 10 {
        (48 + d) as char
    } else {
        (87 + d) as char
    }
}

/// How serde_json writes one character inside a JSON string: `"` and `\`
/// behind a backslash, the control characters with a short escape as that
/// escape, the other control characters as `\u00` and two hex digits, and
/// every other character as itself.
pub open spec fn json_escape(c: char) -> Seq<char> {
    let u = c as u32;
    if c == '"' {
        seq!['\\', '"']
    } else if c == '\\' {
        seq!['\\', '\\']
    } else if u == 0x08 {
        seq!['\\', 'b']
    } else if u == 0x09 {
        seq!['\\', 't']
    } else if u == 0x0A {
        seq!['\\', 'n']
    } else if u == 0x0C {
        seq!['\\', 'f']
    } else if u == 0x0D {
        seq!['\\', 'r']
    } else if u < 0x20 {
        seq!['\\', 'u', '0', '0', hex_char((u as int) / 16), hex_char((u as int) % 16)]
    } else {
        seq![c]
    }
}

/// The characters of `s`, each escaped as serde_json escapes it.
pub open spec fn json_escaped(s: Seq<char>) -> Seq<char>
    decreases s.len(),
{
    if s.len() == 0 {
        Seq::empty()
    } else {
        json_escaped(s.drop_last()) + json_escape(s.last())
    }
}

/// A string as a JSON string literal.
pub open spec fn json_string_text(s: Seq<char>) -> Seq<char> {
    seq!['"'] + json_escaped(s) + seq!['"']
}

/// A list of strings as compact JSON: the string literals between brackets,
/// separated by commas, with no spaces.
pub open spec fn json_list_text(items: Seq<Seq<char>>) -> Seq<char> {
    seq!['['] + seq_join(items.map_values(|s: Seq<char>| json_string_text(s)), seq![',']) + seq![']']
}

/// Calls `serde_json::to_string` on a list of strings. Claims what its
/// compact writer does with one: the list as [`json_list_text`] spells it,
/// and success, since the writer fails only where a `Serialize` impl
/// decides to or a map has keys that are not strings, and a list of strings
/// has neither.
#[verifier::external_body]
fn string_list_to_json(items: &Vec<String>) -> (r: Result<String, serde_json::Error>)
    ensures
        r is Ok,
        r matches Ok(text) ==> text@ == json_list_text(strings_view(items@)),
{
    serde_json::to_string(items)
}

/// The `morphemes` row a morpheme is stored as.
pub open spec fn morpheme_row_of(m: MorphemeModel) -> MorphemeRowModel {
    MorphemeRowModel {
        form: m.form,
        positions: storage_string(m.positions),
        meanings: json_list_text(m.meanings),
        variants: json_list_text(m.variants),
        confidence: m.provenance.confidence,
        evidence: m.provenance.evidence,
    }
}

/// The `morphemes` row of `m`, given the JSON texts its meanings and
/// variants are written as.
pub fn row_with_lists(m: &Morpheme, meanings: String, variants: String) -> (r: MorphemeRow)
    ensures
        r@ == (MorphemeRowModel {
            form: m.form@,
            positions: storage_string(m.positions@),
            meanings: meanings@,
            variants: variants@,
            confidence: m.provenance@.confidence,
            evidence: m.provenance@.evidence,
        }),
{
    MorphemeRow {
        form: m.form.clone(),
        positions: m.positions.to_storage_string(),
        meanings,
        variants,
        confidence: m.provenance.confidence(),
        evidence: m.provenance.evidence().clone(),
    }
}

/// The `morphemes` row of `m`, with its lists written as JSON.
pub fn morpheme_row(m: &Morpheme) -> (r: MorphemeRow)
    ensures
        r@ == morpheme_row_of(m@),
{
    let meanings = match string_list_to_json(&m.meanings) {
        Ok(text) => text,
        Err(_) => vstd::pervasive::unreached(),
    };
    let variants = match string_list_to_json(&m.variants) {
        Ok(text) => text,
        Err(_) => vstd::pervasive::unreached(),
    };
    row_with_lists(m, meanings, variants)
}

/// The `word_decompositions` row a decomposition is stored as.
pub open spec fn decomposition_row_of(d: DecompositionModel) -> DecompositionRowModel {
    DecompositionRowModel { word: d.word, confidence: d.provenance.confidence, evidence: d.provenance.evidence }
}

/// The `word_decomposition_segments` rows of one decomposition, in segment
/// order.
pub open spec fn segment_rows_for(d: DecompositionModel) -> Seq<SegmentRowModel> {
    d.segments.map_values(|s: (Seq<char>, MorphemeKind)| SegmentRowModel { word: d.word, morpheme_id: s.0, role: kind_name(s.1) })
}

/// The segment rows of a list of decompositions, one decomposition after
/// another.
pub open spec fn segment_rows_of(ds: Seq<DecompositionModel>) -> Seq<SegmentRowModel>
    decreases ds.len(),
{
    if ds.len() == 0 {
        Seq::empty()
    } else {
        segment_rows_of(ds.drop_last()) + segment_rows_for(ds.last())
    }
}

/// The rows a decomposition is stored as: its own row and its segment rows.
pub fn decomposition_rows(d: &WordDecomposition) -> (r: (DecompositionRow, Vec<SegmentRow>))
    ensures
        r.0@ == decomposition_row_of(d@),
        r.1@.map_values(|s: SegmentRow| s@) == segment_rows_for(d@),
{
    let row = DecompositionRow {
        word: d.word.clone(),
        confidence: d.provenance.confidence(),
        evidence: d.provenance.evidence().clone(),
    };
    let ghost want = segment_rows_for(d@);
    let mut segments: Vec<SegmentRow> = Vec::new();
    let mut i: usize = 0;
    while i < d.segments.len()
        invariant
            i <= d.segments@.len(),
            want == segment_rows_for(d@),
            segments@.len() == i,
            forall|j: int| 0 <= j < i ==> #[trigger] segments@[j]@ == want[j],
        decreases d.segments@.len() - i,
    {
        let s = &d.segments[i];
        segments.push(
            SegmentRow { word: d.word.clone(), morpheme_id: s.morpheme_id.0.clone(), role: crate::text::owned(s.role.as_str()) },
        );
        i = i + 1;
    }
    assert(segments@.map_values(|s: SegmentRow| s@) =~= want);
    (row, segments)
}

/// A morpheme as the library builds one: its id is its lowercased form, it
/// has a position, and its confidence is in range.
pub open spec fn storable(m: MorphemeModel) -> bool {
    &&& m.id == lowercase(m.form)
    &&& m.positions != Set::<MorphemeKind>::empty()
    &&& confidence_in_range(m.provenance.confidence)
}

/// The JSON reader reads back what the JSON writer wrote for `m`'s lists.
pub open spec fn lists_read_back(m: MorphemeModel) -> bool {
    &&& json_string_list(json_list_text(m.meanings)) == Some(m.meanings)
    &&& json_string_list(json_list_text(m.variants)) == Some(m.variants)
}

/// Decompositions with distinct words and in-range confidences.
pub open spec fn decompositions_storable(ds: Seq<DecompositionModel>) -> bool {
    &&& forall|i: int, j: int| 0 <= i < j < ds.len() ==> (#[trigger] ds[i]).word != (#[trigger] ds[j]).word
    &&& forall|i: int| 0 <= i < ds.len() ==> confidence_in_range((#[trigger] ds[i]).provenance.confidence)
}

proof fn lemma_morpheme_row_read_back(m: MorphemeModel)
    requires
        storable(m),
        lists_read_back(m),
    ensures
        morpheme_record(
            morpheme_row_of(m),
            json_string_list(morpheme_row_of(m).meanings),
            json_string_list(morpheme_row_of(m).variants),
        ) == Ok::<MorphemeModel, crate::store::LoadErrorModel>(m),
{
    lemma_positions_round_trip(m.positions);
    let p = m.provenance;
    assert(p == ProvenanceModel { confidence: p.confidence, evidence: p.evidence });
}

proof fn lemma_morphemes_read_back(ms: Seq<MorphemeModel>)
    requires
        forall|i: int| 0 <= i < ms.len() ==> storable(#[trigger] ms[i]) && lists_read_back(ms[i]),
    ensures
        morphemes_loaded(ms.map_values(|m: MorphemeModel| morpheme_row_of(m))) == Ok::<
            Seq<MorphemeModel>,
            crate::store::LoadErrorModel,
        >(ms),
    decreases ms.len(),
{
    let rows = ms.map_values(|m: MorphemeModel| morpheme_row_of(m));
    if ms.len() > 0 {
        let init = ms.drop_last();
        assert forall|i: int| 0 <= i < init.len() implies storable(#[trigger] init[i]) && lists_read_back(init[i]) by {
            assert(init[i] == ms[i]);
        }
        lemma_morphemes_read_back(init);
        assert(rows.drop_last() =~= init.map_values(|m: MorphemeModel| morpheme_row_of(m)));
        assert(storable(ms[ms.len() - 1]) && lists_read_back(ms[ms.len() - 1]));
        lemma_morpheme_row_read_back(ms.last());
        assert(init.push(ms.last()) =~= ms);
    } else {
        assert(ms =~= Seq::<MorphemeModel>::empty());
    }
}

proof fn lemma_roles_read_back(rows: Seq<SegmentRowModel>)
    requires
        forall|i: int| 0 <= i < rows.len() ==> kind_from_name((#[trigger] rows[i]).role) is Some,
    ensures
        roles_checked(rows) == Ok::<(), crate::store::LoadErrorModel>(()),
    decreases rows.len(),
{
    if rows.len() > 0 {
        let init = rows.drop_last();
        assert forall|i: int| 0 <= i < init.len() implies kind_from_name((#[trigger] init[i]).role) is Some by {
            assert(init[i] == rows[i]);
        }
        lemma_roles_read_back(init);
        assert(kind_from_name(rows[rows.len() - 1].role) is Some);
    }
}

proof fn lemma_segment_rows_name_roles(ds: Seq<DecompositionModel>)
    ensures
        forall|i: int| 0 <= i < segment_rows_of(ds).len() ==> kind_from_name((#[trigger] segment_rows_of(ds)[i]).role) is Some,
    decreases ds.len(),
{
    if ds.len() > 0 {
        let init = ds.drop_last();
        lemma_segment_rows_name_roles(init);
        let a = segment_rows_of(init);
        let b = segment_rows_for(ds.last());
        assert forall|i: int| 0 <= i < segment_rows_of(ds).len() implies kind_from_name((#[trigger] segment_rows_of(ds)[i]).role) is Some by {
            if i >= a.len() {
                let k = ds.last().segments[i - a.len()].1;
                lemma_kind_name_round_trip(k, kind_name(k));
                assert(segment_rows_of(ds)[i] == b[i - a.len()]);
            } else {
                assert(segment_rows_of(ds)[i] == a[i]);
            }
        }
    }
}

proof fn lemma_segments_of_concat(a: Seq<SegmentRowModel>, b: Seq<SegmentRowModel>, w: Seq<char>)
    ensures
        segments_of(a + b, w) == segments_of(a, w) + segments_of(b, w),
    decreases b.len(),
{
    if b.len() == 0 {
        assert(a + b =~= a);
        assert(segments_of(a, w) + segments_of(b, w) =~= segments_of(a, w));
    } else {
        lemma_segments_of_concat(a, b.drop_last(), w);
        assert((a + b).drop_last() =~= a + b.drop_last());
        assert((a + b).last() == b.last());
        if b.last().word == w {
            assert(segments_of(a, w) + segments_of(b, w) =~= (segments_of(a, w) + segments_of(b.drop_last(), w)).push(
                (b.last().morpheme_id, kind_from_name(b.last().role)->0),
            ));
        }
    }
}

proof fn lemma_segments_of_one(d: DecompositionModel, w: Seq<char>)
    ensures
        segments_of(segment_rows_for(d), w) == (if w == d.word {
            d.segments
        } else {
            Seq::empty()
        }),
    decreases d.segments.len(),
{
    let rows = segment_rows_for(d);
    if d.segments.len() == 0 {
        assert(rows.len() == 0);
        assert(d.segments =~= Seq::<(Seq<char>, MorphemeKind)>::empty());
    } else {
        let shorter = DecompositionModel { segments: d.segments.drop_last(), ..d };
        lemma_segments_of_one(shorter, w);
        assert(rows.drop_last() =~= segment_rows_for(shorter));
        let s = d.segments.last();
        lemma_kind_name_round_trip(s.1, kind_name(s.1));
        assert(rows.last() == SegmentRowModel { word: d.word, morpheme_id: s.0, role: kind_name(s.1) });
        if w == d.word {
            assert(d.segments.drop_last().push((s.0, s.1)) =~= d.segments);
        }
    }
}

proof fn lemma_segments_of_rows(ds: Seq<DecompositionModel>, w: Seq<char>)
    requires
        decompositions_storable(ds),
    ensures
        forall|i: int| 0 <= i < ds.len() && (#[trigger] ds[i]).word == w ==> segments_of(segment_rows_of(ds), w) == ds[i].segments,
        (forall|i: int| 0 <= i < ds.len() ==> (#[trigger] ds[i]).word != w) ==> segments_of(segment_rows_of(ds), w)
            == Seq::<(Seq<char>, MorphemeKind)>::empty(),
    decreases ds.len(),
{
    if ds.len() == 0 {
    } else {
        let init = ds.drop_last();
        assert(decompositions_storable(init)) by {
            assert forall|i: int, j: int| 0 <= i < j < init.len() implies (#[trigger] init[i]).word != (#[trigger] init[j]).word by {
                assert(init[i] == ds[i] && init[j] == ds[j]);
            }
            assert forall|i: int| 0 <= i < init.len() implies confidence_in_range((#[trigger] init[i]).provenance.confidence) by {
                assert(init[i] == ds[i]);
            }
        }
        lemma_segments_of_rows(init, w);
        lemma_segments_of_concat(segment_rows_of(init), segment_rows_for(ds.last()), w);
        lemma_segments_of_one(ds.last(), w);
        let n = ds.len() - 1;
        if ds[n].word == w {
            assert forall|i: int| 0 <= i < init.len() implies (#[trigger] init[i]).word != w by {
                assert(init[i] == ds[i]);
            }
            assert(segments_of(segment_rows_of(init), w) + ds[n].segments =~= ds[n].segments);
            assert forall|i: int| 0 <= i < ds.len() && (#[trigger] ds[i]).word == w implies segments_of(segment_rows_of(ds), w)
                == ds[i].segments by {
                if i < n {
                    assert(ds[i].word != ds[n].word);
                }
            }
        } else {
            assert(segments_of(segment_rows_of(init), w) + Seq::<(Seq<char>, MorphemeKind)>::empty() =~= segments_of(segment_rows_of(init), w));
            assert forall|i: int| 0 <= i < ds.len() && (#[trigger] ds[i]).word == w implies segments_of(segment_rows_of(ds), w)
                == ds[i].segments by {
                assert(i < n);
                assert(init[i] == ds[i]);
            }
            if forall|i: int| 0 <= i < ds.len() ==> (#[trigger] ds[i]).word != w {
                assert forall|i: int| 0 <= i < init.len() implies (#[trigger] init[i]).word != w by {
                    assert(init[i] == ds[i]);
                }
            }
        }
    }
}

proof fn lemma_decompositions_read_back(ds: Seq<DecompositionModel>, segs: Seq<SegmentRowModel>)
    requires
        decompositions_storable(ds),
        forall|i: int| 0 <= i < ds.len() ==> segments_of(segs, (#[trigger] ds[i]).word) == ds[i].segments,
    ensures
        decompositions_loaded(ds.map_values(|d: DecompositionModel| decomposition_row_of(d)), segs) == Ok::<
            Seq<DecompositionModel>,
            crate::store::LoadErrorModel,
        >(ds),
    decreases ds.len(),
{
    let rows = ds.map_values(|d: DecompositionModel| decomposition_row_of(d));
    if ds.len() == 0 {
        assert(ds =~= Seq::<DecompositionModel>::empty());
    } else {
        let init = ds.drop_last();
        let n = ds.len() - 1;
        assert(decompositions_storable(init)) by {
            assert forall|i: int, j: int| 0 <= i < j < init.len() implies (#[trigger] init[i]).word != (#[trigger] init[j]).word by {
                assert(init[i] == ds[i] && init[j] == ds[j]);
            }
            assert forall|i: int| 0 <= i < init.len() implies confidence_in_range((#[trigger] init[i]).provenance.confidence) by {
                assert(init[i] == ds[i]);
            }
        }
        assert forall|i: int| 0 <= i < init.len() implies segments_of(segs, (#[trigger] init[i]).word) == init[i].segments by {
            assert(init[i] == ds[i]);
        }
        lemma_decompositions_read_back(init, segs);
        let init_rows = init.map_values(|d: DecompositionModel| decomposition_row_of(d));
        assert(rows.drop_last() =~= init_rows);
        assert(!word_taken(init_rows, ds[n].word)) by {
            if word_taken(init_rows, ds[n].word) {
                let j = choose|j: int| 0 <= j < init_rows.len() && #[trigger] init_rows[j].word == ds[n].word;
                assert(ds[j].word == ds[n].word);
            }
        }
        assert(confidence_in_range(ds[n].provenance.confidence));
        assert(segments_of(segs, ds[n].word) == ds[n].segments);
        let d = ds[n];
        assert(d == DecompositionModel {
            word: d.word,
            segments: d.segments,
            provenance: ProvenanceModel { confidence: d.provenance.confidence, evidence: d.provenance.evidence },
        });
        assert(init.push(d) =~= ds);
    }
}

/// Writing records as rows and loading those rows gives the records back,
/// where the JSON reader reads back what the JSON writer wrote for each
/// morpheme's lists: a release holding the rows of morphemes built by the
/// library and of decompositions with distinct words, stamped with the
/// schema version this build reads, loads as those morphemes and those
/// decompositions, each with its own segments.
pub proof fn lemma_release_round_trip(ms: Seq<MorphemeModel>, ds: Seq<DecompositionModel>)
    requires
        forall|i: int| 0 <= i < ms.len() ==> storable(#[trigger] ms[i]) && lists_read_back(ms[i]),
        decompositions_storable(ds),
    ensures
        loaded(
            Some(decimal(RELEASE_SCHEMA_VERSION as nat)),
            ms.map_values(|m: MorphemeModel| morpheme_row_of(m)),
            segment_rows_of(ds),
            ds.map_values(|d: DecompositionModel| decomposition_row_of(d)),
        ) == Ok::<(Seq<MorphemeModel>, Seq<DecompositionModel>), crate::store::LoadErrorModel>((ms, ds)),
{
    lemma_morphemes_read_back(ms);
    lemma_segment_rows_name_roles(ds);
    lemma_roles_read_back(segment_rows_of(ds));
    assert forall|i: int| 0 <= i < ds.len() implies segments_of(segment_rows_of(ds), (#[trigger] ds[i]).word) == ds[i].segments by {
        lemma_segments_of_rows(ds, ds[i].word);
    }
    lemma_decompositions_read_back(ds, segment_rows_of(ds));
}

} // verus!
