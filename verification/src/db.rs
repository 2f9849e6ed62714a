//! The in-memory query surface: a morpheme index for live segmentation plus
//! the precomputed, dataset-listed decomposition table.

use vstd::hash_map::StringHashMap;
use vstd::prelude::*;

use crate::decomposition::{DecompositionModel, WordDecomposition, refs_view};
use crate::index::{built_from, canonical_of, lemma_index_deterministic, models, IndexModel, MorphemeIndex};
use crate::morpheme::{Morpheme, MorphemeId, MorphemeModel};
use crate::ortho::{rule_name, OrthoRule};
use crate::provenance::Provenance;
use crate::segment::{segment_ranked, ranked_segmentations, SegmentationModel, Segmentation};
use crate::text::{lowercase, owned, push_str, seq_join, str_chars, chars_lt, chars_eq, str_lt, to_lowercase};

verus! {

/// The confidence of a decomposition inferred at query time (`0.5_f32`,
/// as `f32` bits).
pub const INFERRED_CONFIDENCE: u32 = 0x3F00_0000;

/// A root morpheme and the precomputed words built on it.
pub struct RootInfo<'a> {
    pub morpheme: &'a Morpheme,
    pub related_words: Vec<&'a str>,
}

/// The abstract content of an [`AnalyzerDb`].
pub struct DbModel {
    pub index: IndexModel,
    /// Precomputed decompositions by lowercased word.
    pub precomputed: Map<Seq<char>, DecompositionModel>,
}

/// Decompositions by lowercased word; a later one replaces an earlier one
/// for the same key.
pub open spec fn precomputed_of(ds: Seq<DecompositionModel>) -> Map<Seq<char>, DecompositionModel>
    decreases ds.len(),
{
    if ds.len() == 0 {
        Map::empty()
    } else {
        precomputed_of(ds.drop_last()).insert(lowercase(ds.last().word), ds.last())
    }
}

pub open spec fn decomps_view(v: Seq<WordDecomposition>) -> Seq<DecompositionModel> {
    v.map_values(|d: WordDecomposition| d@)
}

/// The forms of the segments' morphemes, skipping ids the table lacks.
pub open spec fn segment_forms(idx: IndexModel, segs: Seq<(Seq<char>, crate::morpheme::MorphemeKind)>) -> Seq<Seq<char>>
    decreases segs.len(),
{
    if segs.len() == 0 {
        Seq::empty()
    } else {
        let rest = segment_forms(idx, segs.drop_last());
        if idx.by_id.contains_key(segs.last().0) {
            rest.push(idx.by_id[segs.last().0].form)
        } else {
            rest
        }
    }
}

/// What reversing a spelling rule adds to the evidence.
pub open spec fn spelling_note(rule: Option<OrthoRule>) -> Seq<char> {
    match rule {
        Some(r) => ", after reversing "@ + rule_name(r) + " at the root boundary"@,
        None => Seq::empty(),
    }
}

/// The evidence of an inferred decomposition.
pub open spec fn inferred_evidence(idx: IndexModel, parse: SegmentationModel) -> Seq<char> {
    "inferred by stripping known affixes around a matched root: "@ + seq_join(segment_forms(idx, parse.segments), " + "@)
        + spelling_note(parse.root_rule)
}

/// The best parse of `word`, if it has one.
pub open spec fn best_parse(word: Seq<char>, idx: IndexModel, best: Option<SegmentationModel>) -> bool {
    exists|out: Seq<SegmentationModel>| ranked_segmentations(word, idx, 1, out) && best == (if out.len() > 0 {
        Some(out[0])
    } else {
        None
    })
}

/// The best parse of `word`, which ranking fixes uniquely.
pub open spec fn best_parse_of(word: Seq<char>, idx: IndexModel) -> Option<SegmentationModel> {
    choose|best: Option<SegmentationModel>| best_parse(word, idx, best)
}

/// A best parse found by running the segmenter is the best parse.
pub proof fn lemma_best_parse_of(word: Seq<char>, idx: IndexModel, best: Option<SegmentationModel>)
    requires
        best_parse(word, idx, best),
    ensures
        best_parse_of(word, idx) == best,
{
    let other = best_parse_of(word, idx);
    assert(best_parse(word, idx, other));
    let a = choose|out: Seq<SegmentationModel>| ranked_segmentations(word, idx, 1, out) && best == (if out.len() > 0 {
        Some(out[0])
    } else {
        None
    });
    let b = choose|out: Seq<SegmentationModel>| ranked_segmentations(word, idx, 1, out) && other == (if out.len() > 0 {
        Some(out[0])
    } else {
        None
    });
    crate::segment::lemma_segment_ranked_deterministic(word, idx, 1, a, b);
}

/// Some segment of `d` is the morpheme `id`.
pub open spec fn mentions(d: DecompositionModel, id: Seq<char>) -> bool {
    exists|i: int| 0 <= i < d.segments.len() && d.segments[i].0 == id
}

/// Some precomputed decomposition is `d`.
pub open spec fn is_precomputed(db: DbModel, d: DecompositionModel) -> bool {
    exists|k: Seq<char>| #[trigger] db.precomputed.contains_key(k) && db.precomputed[k] == d
}

pub struct AnalyzerDb {
    index: MorphemeIndex,
    /// The decompositions, one per lowercased word.
    precomputed: Vec<WordDecomposition>,
    /// Lowercased word -> its position in `precomputed`.
    positions: StringHashMap<usize>,
}

impl View for AnalyzerDb {
    type V = DbModel;

    closed spec fn view(&self) -> DbModel {
        DbModel {
            index: self.index@,
            precomputed: Map::new(
                |k: Seq<char>| self.positions@.contains_key(k),
                |k: Seq<char>| self.precomputed@[self.positions@[k] as int]@,
            ),
        }
    }
}

/// `positions` indexes `list` one-to-one by lowercased word.
spec fn table_ok(list: Seq<WordDecomposition>, positions: Map<Seq<char>, usize>) -> bool {
    &&& forall|k: Seq<char>| #[trigger] positions.contains_key(k) ==> positions[k] < list.len()
        && lowercase(list[positions[k] as int].word@) == k
    &&& forall|i: int| 0 <= i < list.len() ==> #[trigger] positions.contains_key(lowercase(list[i].word@))
        && positions[lowercase(list[i].word@)] == i
}

impl AnalyzerDb {
    #[verifier::type_invariant]
    closed spec fn inv(self) -> bool {
        table_ok(self.precomputed@, self.positions@)
    }

    pub fn new(morphemes: Vec<Morpheme>, precomputed_words: Vec<WordDecomposition>) -> (r: Self)
        ensures
            built_from(r@.index, models(morphemes@)),
            r@.precomputed == precomputed_of(decomps_view(precomputed_words@)),
    {
        let ghost ds = decomps_view(precomputed_words@);
        let mut list: Vec<WordDecomposition> = Vec::new();
        let mut positions: StringHashMap<usize> = StringHashMap::new();
        let ghost words = precomputed_words@;
        for d in it: precomputed_words
            invariant
                it.seq() == words,
                ds == decomps_view(words),
                table_ok(list@, positions@),
                Map::new(|k: Seq<char>| positions@.contains_key(k), |k: Seq<char>| list@[positions@[k] as int]@)
                    == precomputed_of(ds.take(it.index() as int)),
        {
            let ghost k = it.index();
            let ghost before = Map::new(|key: Seq<char>| positions@.contains_key(key), |key: Seq<char>| list@[positions@[key] as int]@);
            let key = to_lowercase(d.word.as_str());
            let ghost dv = d@;
            let ghost old_list = list@;
            let ghost old_pos = positions@;
            match positions.get(key.as_str()) {
                Some(p) => {
                    let p = *p;
                    list.set(p, d);
                    proof {
                        assert(old_pos.contains_key(key@));
                        assert forall|i: int| 0 <= i < list@.len() implies #[trigger] positions@.contains_key(lowercase(list@[i].word@))
                            && positions@[lowercase(list@[i].word@)] == i by {
                            if i != p {
                                assert(list@[i] == old_list[i]);
                                assert(old_pos.contains_key(lowercase(old_list[i].word@)));
                            }
                        }
                        assert forall|q: Seq<char>| #[trigger] positions@.contains_key(q) implies positions@[q] < list@.len()
                            && lowercase(list@[positions@[q] as int].word@) == q by {
                            if positions@[q] != p {
                                assert(list@[positions@[q] as int] == old_list[positions@[q] as int]);
                            }
                        }
                    }
                },
                None => {
                    let p = list.len();
                    list.push(d);
                    positions.insert(key, p);
                    proof {
                        assert forall|i: int| 0 <= i < list@.len() implies #[trigger] positions@.contains_key(lowercase(list@[i].word@))
                            && positions@[lowercase(list@[i].word@)] == i by {
                            if i != p {
                                assert(list@[i] == old_list[i]);
                                assert(old_pos.contains_key(lowercase(old_list[i].word@)));
                            }
                        }
                        assert forall|q: Seq<char>| #[trigger] positions@.contains_key(q) implies positions@[q] < list@.len()
                            && lowercase(list@[positions@[q] as int].word@) == q by {
                            if q != key@ {
                                assert(old_pos.contains_key(q));
                                assert(list@[positions@[q] as int] == old_list[positions@[q] as int]);
                            }
                        }
                    }
                },
            }
            proof {
                let t = ds.take(k + 1);
                assert(t.drop_last() =~= ds.take(k));
                assert(t.last() == dv);
                assert(dv == words[k]@);
                assert(table_ok(list@, positions@));
                assert(Map::new(|key: Seq<char>| positions@.contains_key(key), |key: Seq<char>| list@[positions@[key] as int]@)
                    =~= before.insert(key@, dv));
            }
        }
        assert(ds.take(words.len() as int) =~= ds);
        AnalyzerDb { index: MorphemeIndex::build(morphemes), precomputed: list, positions }
    }
}

/// The decomposition inferred for `word` from its best parse.
pub open spec fn inferred_decomposition(idx: IndexModel, word: Seq<char>, parse: SegmentationModel) -> DecompositionModel {
    DecompositionModel {
        word,
        segments: parse.segments,
        provenance: crate::provenance::ProvenanceModel { confidence: INFERRED_CONFIDENCE, evidence: inferred_evidence(idx, parse) },
    }
}

/// What `analyze` answers for `word`: the precomputed entry of its
/// lowercased form if there is one; else the decomposition inferred from its
/// best parse; else nothing.
pub open spec fn analyzed(db: DbModel, word: Seq<char>, r: Option<DecompositionModel>) -> bool {
    if db.precomputed.contains_key(lowercase(word)) {
        r == Some(db.precomputed[lowercase(word)])
    } else {
        exists|best: Option<SegmentationModel>| #[trigger] best_parse(word, db.index, best) && r == match best {
            None => None,
            Some(b) => Some(inferred_decomposition(db.index, word, b)),
        }
    }
}

pub open spec fn opt_decomp_view(r: Option<WordDecomposition>) -> Option<DecompositionModel> {
    match r {
        Some(d) => Some(d@),
        None => None,
    }
}

/// The lowercased words of a decomposition list are pairwise distinct.
pub open spec fn words_distinct(ds: Seq<DecompositionModel>) -> bool {
    forall|i: int, j: int| 0 <= i < j < ds.len() ==> lowercase(#[trigger] ds[i].word) != lowercase(#[trigger] ds[j].word)
}

/// The table built from a decomposition list has one key per lowercased
/// word of the list; where those words are distinct, each word's entry is its
/// own decomposition.
pub proof fn lemma_precomputed_of(ds: Seq<DecompositionModel>)
    ensures
        forall|k: Seq<char>| #[trigger] precomputed_of(ds).contains_key(k)
            <==> exists|i: int| 0 <= i < ds.len() && lowercase(ds[i].word) == k,
        words_distinct(ds) ==> forall|i: int| 0 <= i < ds.len()
            ==> #[trigger] precomputed_of(ds)[lowercase(ds[i].word)] == ds[i],
    decreases ds.len(),
{
    if ds.len() > 0 {
        let init = ds.drop_last();
        lemma_precomputed_of(init);
        let last = ds[ds.len() - 1];
        assert(precomputed_of(ds) == precomputed_of(init).insert(lowercase(last.word), last));
        assert forall|k: Seq<char>| #[trigger] precomputed_of(ds).contains_key(k)
            implies exists|i: int| 0 <= i < ds.len() && lowercase(ds[i].word) == k by {
            if k != lowercase(ds.last().word) {
                assert(precomputed_of(init).contains_key(k));
                let i = choose|i: int| 0 <= i < init.len() && lowercase(init[i].word) == k;
                assert(ds[i] == init[i]);
            }
        }
        assert forall|k: Seq<char>| (exists|i: int| 0 <= i < ds.len() && lowercase(ds[i].word) == k)
            implies #[trigger] precomputed_of(ds).contains_key(k) by {
            let i = choose|i: int| 0 <= i < ds.len() && lowercase(ds[i].word) == k;
            if i < ds.len() - 1 {
                assert(init[i] == ds[i]);
                assert(precomputed_of(init).contains_key(k));
            }
        }
        if words_distinct(ds) {
            assert(words_distinct(init)) by {
                assert forall|i: int, j: int| 0 <= i < j < init.len() implies lowercase(#[trigger] init[i].word)
                    != lowercase(#[trigger] init[j].word) by {
                    assert(init[i] == ds[i] && init[j] == ds[j]);
                }
            }
            assert forall|i: int| 0 <= i < ds.len() implies #[trigger] precomputed_of(ds)[lowercase(ds[i].word)] == ds[i] by {
                if i < ds.len() - 1 {
                    assert(init[i] == ds[i]);
                    assert(lowercase(ds[i].word) != lowercase(ds[ds.len() - 1].word));
                    assert(precomputed_of(init)[lowercase(init[i].word)] == init[i]);
                }
            }
        }
    }
}

/// `analyze` against a separate call of `segment` on an index built from the
/// same morphemes: a word whose lowercased form is that of a listed
/// decomposition gets that decomposition (the listed words being distinct
/// after lowercasing); any other word gets the inferred decomposition whose
/// segments are what `segment` returns, with the inferred confidence, or
/// nothing exactly when `segment` finds no parse.
pub proof fn lemma_analyze_two_tiers(
    ms: Seq<MorphemeModel>,
    ds: Seq<DecompositionModel>,
    db: DbModel,
    idx: IndexModel,
    word: Seq<char>,
    r: Option<DecompositionModel>,
    segs: Option<Seq<(Seq<char>, crate::morpheme::MorphemeKind)>>,
)
    requires
        built_from(db.index, ms),
        db.precomputed == precomputed_of(ds),
        words_distinct(ds),
        built_from(idx, ms),
        analyzed(db, word, r),
        crate::segment::segmented(word, idx, segs),
    ensures
        forall|i: int| 0 <= i < ds.len() && lowercase(#[trigger] ds[i].word) == lowercase(word) ==> r == Some(ds[i]),
        (forall|i: int| 0 <= i < ds.len() ==> lowercase(#[trigger] ds[i].word) != lowercase(word)) ==> match segs {
            None => r is None,
            Some(s) => r matches Some(d) && d.word == word && d.segments == s
                && d.provenance.confidence == INFERRED_CONFIDENCE
                && d == inferred_decomposition(idx, word, best_parse_of(word, idx).unwrap()),
        },
{
    lemma_index_deterministic(db.index, idx, ms);
    lemma_precomputed_of(ds);
    if forall|i: int| 0 <= i < ds.len() ==> lowercase(#[trigger] ds[i].word) != lowercase(word) {
        assert(!db.precomputed.contains_key(lowercase(word)));
        let best = choose|best: Option<SegmentationModel>| #[trigger] best_parse(word, db.index, best) && r == match best {
            None => None,
            Some(b) => Some(inferred_decomposition(db.index, word, b)),
        };
        lemma_best_parse_of(word, idx, best);
        let a = choose|out: Seq<SegmentationModel>| ranked_segmentations(word, idx, 1, out) && best == (if out.len() > 0 {
            Some(out[0])
        } else {
            None
        });
        let b = choose|out: Seq<SegmentationModel>| #[trigger] ranked_segmentations(word, idx, 1, out) && match segs {
            Some(s) => out.len() > 0 && s == out[0].segments,
            None => out.len() == 0,
        };
        crate::segment::lemma_segment_ranked_deterministic(word, idx, 1, a, b);
    }
}

pub open spec fn strictly_sorted(words: Seq<Seq<char>>) -> bool {
    forall|i: int, j: int| 0 <= i < j < words.len() ==> str_lt(#[trigger] words[i], #[trigger] words[j])
}

pub open spec fn strs_view(v: Seq<&str>) -> Seq<Seq<char>> {
    v.map_values(|s: &str| s@)
}

pub open spec fn decomp_refs_view(v: Seq<&WordDecomposition>) -> Seq<DecompositionModel> {
    v.map_values(|d: &WordDecomposition| d@)
}

/// Whether some segment of `d` is the morpheme spelled `id`.
fn mentions_id(d: &WordDecomposition, id: &Vec<char>) -> (r: bool)
    ensures
        r == mentions(d@, id@),
{
    let mut i: usize = 0;
    while i < d.segments.len()
        invariant
            i <= d.segments@.len(),
            forall|j: int| 0 <= j < i ==> refs_view(d.segments@)[j].0 != id@,
        decreases d.segments@.len() - i,
    {
        let c = str_chars(d.segments[i].morpheme_id.as_str());
        if chars_eq(c.as_slice(), id.as_slice()) {
            assert(0 <= i < d@.segments.len() && d@.segments[i as int].0 == id@);
            return true;
        }
        i = i + 1;
    }
    false
}

/// `lead`, then the forms of the parse's morphemes joined by `" + "`, then
/// the spelling rule reversed at the root boundary, if any.
pub fn describe_parse(index: &MorphemeIndex, parse: &Segmentation, lead: &str) -> (r: String)
    ensures
        r@ == lead@ + seq_join(segment_forms(index@, parse@.segments), " + "@) + spelling_note(parse@.root_rule),
{
    let ghost idx = index@;
    let ghost pv = parse@;
    let mut evidence = owned(lead);
    let mut listed = false;
    let mut i: usize = 0;
    while i < parse.segments.len()
        invariant
            i <= parse.segments@.len(),
            idx == index@,
            pv == parse@,
            listed == (segment_forms(idx, pv.segments.take(i as int)).len() > 0),
            evidence@ == lead@ + seq_join(segment_forms(idx, pv.segments.take(i as int)), " + "@),
        decreases parse.segments@.len() - i,
    {
        let ghost seg = pv.segments[i as int];
        proof {
            let t = pv.segments.take(i + 1);
            assert(t.drop_last() =~= pv.segments.take(i as int));
            assert(t.last() == seg);
            assert(refs_view(parse.segments@)[i as int] == seg);
        }
        match index.get(&parse.segments[i].morpheme_id) {
            Some(m) => {
                let ghost list = segment_forms(idx, pv.segments.take(i as int));
                if listed {
                    push_str(&mut evidence, " + ");
                }
                push_str(&mut evidence, m.form.as_str());
                listed = true;
                proof {
                    let nl = list.push(m.form@);
                    assert(nl.drop_last() =~= list);
                    if list.len() == 0 {
                        assert(seq_join(nl, " + "@) == m.form@);
                    }
                    assert(evidence@ =~= lead@ + seq_join(nl, " + "@));
                }
            },
            None => {},
        }
        i = i + 1;
    }
    assert(pv.segments.take(pv.segments.len() as int) == pv.segments);
    match parse.root_rule {
        Some(rule) => {
            push_str(&mut evidence, ", after reversing ");
            push_str(&mut evidence, rule.as_str());
            push_str(&mut evidence, " at the root boundary");
        },
        None => {},
    }
    assert(evidence@ =~= lead@ + seq_join(segment_forms(idx, pv.segments), " + "@) + spelling_note(pv.root_rule));
    evidence
}

/// The morphemes the segments name, in segment order, skipping ids the
/// table lacks.
pub open spec fn known_morphemes(idx: IndexModel, segs: Seq<(Seq<char>, crate::morpheme::MorphemeKind)>) -> Seq<
    crate::morpheme::MorphemeModel,
>
    decreases segs.len(),
{
    if segs.len() == 0 {
        Seq::empty()
    } else {
        let rest = known_morphemes(idx, segs.drop_last());
        if idx.by_id.contains_key(segs.last().0) {
            rest.push(idx.by_id[segs.last().0])
        } else {
            rest
        }
    }
}

impl AnalyzerDb {
    pub fn get_morpheme(&self, id: &MorphemeId) -> (r: Option<&Morpheme>)
        ensures
            match r {
                Some(m) => self@.index.by_id.contains_key(id@) && m@ == self@.index.by_id[id@],
                None => !self@.index.by_id.contains_key(id@),
            },
    {
        self.index.get(id)
    }

    /// The morphemes a decomposition's segments name, in segment order;
    /// segments whose morpheme the table lacks are left out.
    pub fn segment_morphemes<'a>(&'a self, d: &WordDecomposition) -> (r: Vec<&'a Morpheme>)
        ensures
            r@.map_values(|m: &Morpheme| m@) == known_morphemes(self@.index, d@.segments),
    {
        let ghost idx = self@.index;
        let ghost segs = d@.segments;
        let mut out: Vec<&Morpheme> = Vec::new();
        let mut i: usize = 0;
        while i < d.segments.len()
            invariant
                i <= d.segments@.len(),
                idx == self@.index,
                segs == d@.segments,
                out@.map_values(|m: &Morpheme| m@) == known_morphemes(idx, segs.take(i as int)),
            decreases d.segments@.len() - i,
        {
            proof {
                let t = segs.take(i + 1);
                assert(t.drop_last() =~= segs.take(i as int));
                assert(t.last() == segs[i as int]);
                assert(segs[i as int] == d.segments@[i as int]@);
            }
            match self.get_morpheme(&d.segments[i].morpheme_id) {
                Some(m) => {
                    out.push(m);
                },
                None => {},
            }
            assert(out@.map_values(|m: &Morpheme| m@) =~= known_morphemes(idx, segs.take(i + 1)));
            i = i + 1;
        }
        assert(segs.take(segs.len() as int) =~= segs);
        out
    }

    /// The loaded morpheme index, for running segmentation directly.
    pub fn index(&self) -> (r: &MorphemeIndex)
        ensures
            r@ == self@.index,
    {
        &self.index
    }

    /// Tier 1: exact hit in the precomputed table (case-insensitive).
    /// Tier 2: the best live segmentation, with confidence 0.5 and evidence
    /// naming the matched morphemes and any spelling rule reversed.
    /// Tier 3: `None`.
    pub fn analyze(&self, word: &str) -> (r: Option<WordDecomposition>)
        ensures
            analyzed(self@, word@, opt_decomp_view(r)),
            self@.precomputed.contains_key(lowercase(word@)) ==> (r matches Some(d) && d@ == self@.precomputed[lowercase(word@)]),
            !self@.precomputed.contains_key(lowercase(word@)) ==> exists|best: Option<SegmentationModel>|
                #[trigger] best_parse(word@, self@.index, best) && match best {
                    None => r is None,
                    Some(b) => r matches Some(d) && d@ == inferred_decomposition(self@.index, word@, b),
                },
    {
        proof {
            use_type_invariant(self);
        }
        let word_lc = to_lowercase(word);
        match self.positions.get(word_lc.as_str()) {
            Some(p) => {
                return Some(self.precomputed[*p].clone());
            },
            None => {},
        }
        let mut ranked = segment_ranked(word, &self.index, 1);
        let ghost out = crate::segment::segs_view(ranked@);
        if ranked.len() == 0 {
            assert(best_parse(word@, self@.index, None));
            return None;
        }
        let parse = ranked.swap_remove(0);
        let ghost pv = parse@;
        assert(pv == out[0]);
        assert(best_parse(word@, self@.index, Some(pv)));
        let evidence = describe_parse(&self.index, &parse, "inferred by stripping known affixes around a matched root: ");
        let provenance = match Provenance::new(INFERRED_CONFIDENCE, evidence) {
            Ok(p) => p,
            Err(_) => {
                return None;
            },
        };
        Some(WordDecomposition { word: owned(word), segments: parse.segments, provenance })
    }
}

impl AnalyzerDb {
    /// Positions of the precomputed decompositions that use morpheme `id`,
    /// ordered by word.
    fn related(&self, id: &MorphemeId) -> (r: Vec<usize>)
        ensures
            forall|i: int| 0 <= i < r@.len() ==> #[trigger] r@[i] < self.precomputed@.len(),
            forall|i: int, j: int| 0 <= i < j < r@.len() ==> str_lt(
                #[trigger] self.precomputed@[r@[i] as int].word@,
                #[trigger] self.precomputed@[r@[j] as int].word@,
            ),
            forall|k: usize| #[trigger] r@.contains(k) <==> (k < self.precomputed@.len() && mentions(self.precomputed@[k as int]@, id@)),
    {
        proof {
            use_type_invariant(self);
            crate::index::lemma_str_lt_order();
        }
        let ghost list = self.precomputed@;
        let id_chars = str_chars(id.as_str());
        let mut out: Vec<usize> = Vec::new();
        let mut k: usize = 0;
        while k < self.precomputed.len()
            invariant
                list == self.precomputed@,
                table_ok(list, self.positions@),
                id_chars@ == id@,
                k <= list.len(),
                forall|i: int| 0 <= i < out@.len() ==> #[trigger] out@[i] < k,
                forall|i: int, j: int| 0 <= i < j < out@.len() ==> str_lt(
                    #[trigger] list[out@[i] as int].word@,
                    #[trigger] list[out@[j] as int].word@,
                ),
                forall|x: usize| #[trigger] out@.contains(x) <==> (x < k && mentions(list[x as int]@, id@)),
            decreases list.len() - k,
        {
            proof {
                crate::index::lemma_str_lt_order();
            }
            if mentions_id(&self.precomputed[k], &id_chars) {
                let wk = str_chars(self.precomputed[k].word.as_str());
                let mut p: usize = 0;
                while p < out.len()
                    invariant
                        list == self.precomputed@,
                        table_ok(list, self.positions@),
                        k < list.len(),
                        wk@ == list[k as int].word@,
                        p <= out@.len(),
                        forall|i: int| 0 <= i < out@.len() ==> #[trigger] out@[i] < k,
                        forall|i: int| 0 <= i < p ==> !str_lt(list[k as int].word@, #[trigger] list[out@[i] as int].word@),
                    ensures
                        p <= out@.len(),
                        forall|i: int| 0 <= i < p ==> !str_lt(list[k as int].word@, #[trigger] list[out@[i] as int].word@),
                        p < out@.len() ==> str_lt(list[k as int].word@, list[out@[p as int] as int].word@),
                    decreases out@.len() - p,
                {
                    let wp = str_chars(self.precomputed[out[p]].word.as_str());
                    if chars_lt(wk.as_slice(), wp.as_slice()) {
                        break;
                    }
                    p = p + 1;
                }
                let ghost before = out@;
                proof {
                    assert forall|i: int| 0 <= i < before.len() implies list[#[trigger] before[i] as int].word@ != list[k as int].word@ by {
                        let a = before[i] as int;
                        assert(self.positions@.contains_key(lowercase(list[a].word@)));
                        assert(self.positions@.contains_key(lowercase(list[k as int].word@)));
                        assert(self.positions@[lowercase(list[a].word@)] == a);
                        assert(self.positions@[lowercase(list[k as int].word@)] == k);
                    }
                }
                out.insert(p, k);
                proof {
                    assert forall|i: int, j: int| 0 <= i < j < out@.len() implies str_lt(
                        #[trigger] list[out@[i] as int].word@,
                        #[trigger] list[out@[j] as int].word@,
                    ) by {
                        if j < p {
                            assert(out@[i] == before[i] && out@[j] == before[j]);
                        } else if j == p {
                            assert(out@[i] == before[i]);
                            assert(!str_lt(list[k as int].word@, list[before[i] as int].word@));
                        } else if i == p {
                            assert(out@[i] == k);
                            assert(out@[j] == before[j - 1]);
                            assert(str_lt(list[k as int].word@, list[before[p as int] as int].word@));
                            if j - 1 > p {
                                assert(str_lt(list[before[p as int] as int].word@, list[before[j - 1] as int].word@));
                            }
                        } else if i < p {
                            assert(out@[i] == before[i] && out@[j] == before[j - 1]);
                        } else {
                            assert(out@[i] == before[i - 1] && out@[j] == before[j - 1]);
                        }
                    }
                    assert forall|x: usize| #[trigger] out@.contains(x) <==> (x < k + 1 && mentions(list[x as int]@, id@)) by {
                        if out@.contains(x) {
                            let i = choose|i: int| 0 <= i < out@.len() && out@[i] == x;
                            if i < p {
                                assert(before[i] == x);
                                assert(before.contains(x));
                            } else if i > p {
                                assert(before[i - 1] == x);
                                assert(before.contains(x));
                            }
                        }
                        if x < k + 1 && mentions(list[x as int]@, id@) {
                            if x == k {
                                assert(out@[p as int] == x);
                            } else {
                                assert(before.contains(x));
                                let i = choose|i: int| 0 <= i < before.len() && before[i] == x;
                                if i < p {
                                    assert(out@[i] == x);
                                } else {
                                    assert(out@[i + 1] == x);
                                }
                            }
                        }
                    }
                }
            }
            k = k + 1;
        }
        out
    }

    /// Looks up a morpheme by exact root form (case-insensitive) and returns
    /// it with every precomputed word that uses it, in order.
    pub fn root(&self, text: &str) -> (r: Option<RootInfo<'_>>)
        ensures
            ({
                let lc = lowercase(text@);
                let id = canonical_of(self@.index, lc);
                match r {
                    None => !(self@.index.roots.contains(lc) && self@.index.by_id.contains_key(id)),
                    Some(info) => {
                        &&& self@.index.roots.contains(lc)
                        &&& self@.index.by_id.contains_key(id)
                        &&& info.morpheme@ == self@.index.by_id[id]
                        &&& strictly_sorted(strs_view(info.related_words@))
                        &&& forall|w: Seq<char>| #[trigger] strs_view(info.related_words@).contains(w) <==> exists|d: DecompositionModel|
                            is_precomputed(self@, d) && mentions(d, id) && d.word == w
                    },
                }
            }),
    {
        proof {
            use_type_invariant(self);
        }
        let text_lc = to_lowercase(text);
        let root_id = match self.index.root_id(text_lc.as_str()) {
            Some(id) => id,
            None => {
                return None;
            },
        };
        let morpheme = match self.index.get(&root_id) {
            Some(m) => m,
            None => {
                return None;
            },
        };
        let positions = self.related(&root_id);
        let ghost list = self.precomputed@;
        let mut related_words: Vec<&str> = Vec::new();
        let mut i: usize = 0;
        while i < positions.len()
            invariant
                list == self.precomputed@,
                i <= positions@.len(),
                forall|j: int| 0 <= j < positions@.len() ==> #[trigger] positions@[j] < list.len(),
                related_words@.len() == i,
                forall|j: int| 0 <= j < i ==> #[trigger] related_words@[j]@ == list[positions@[j] as int].word@,
            decreases positions@.len() - i,
        {
            related_words.push(self.precomputed[positions[i]].word.as_str());
            i = i + 1;
        }
        proof {
            use_type_invariant(self);
            let ws = strs_view(related_words@);
            let id = canonical_of(self@.index, lowercase(text@));
            assert(id == root_id@);
            assert forall|a: int, b: int| 0 <= a < b < ws.len() implies str_lt(#[trigger] ws[a], #[trigger] ws[b]) by {
                assert(ws[a] == list[positions@[a] as int].word@);
                assert(ws[b] == list[positions@[b] as int].word@);
            }
            assert forall|w: Seq<char>| #[trigger] ws.contains(w) <==> exists|d: DecompositionModel|
                is_precomputed(self@, d) && mentions(d, id) && d.word == w by {
                if ws.contains(w) {
                    let j = choose|j: int| 0 <= j < ws.len() && ws[j] == w;
                    let x = positions@[j];
                    assert(positions@.contains(x));
                    let d = list[x as int]@;
                    let key = lowercase(list[x as int].word@);
                    assert(0 <= x < list.len());
                    assert(table_ok(list, self.positions@));
                    assert(self.positions@.contains_key(lowercase(list[x as int].word@)));
                    assert(self.positions@.contains_key(key) && self.positions@[key] == x);
                    assert(self@.precomputed.contains_key(key) && self@.precomputed[key] == d);
                    assert(is_precomputed(self@, d) && mentions(d, id) && d.word == w);
                }
                if exists|d: DecompositionModel| is_precomputed(self@, d) && mentions(d, id) && d.word == w {
                    let d = choose|d: DecompositionModel| is_precomputed(self@, d) && mentions(d, id) && d.word == w;
                    let key = choose|key: Seq<char>| #[trigger] self@.precomputed.contains_key(key) && self@.precomputed[key] == d;
                    let x = self.positions@[key];
                    assert(list[x as int]@ == d);
                    assert(positions@.contains(x));
                    let j = choose|j: int| 0 <= j < positions@.len() && positions@[j] == x;
                    assert(ws[j] == w);
                }
            }
        }
        let info = RootInfo { morpheme, related_words };
        assert(strictly_sorted(strs_view(info.related_words@)));
        Some(info)
    }

    /// The precomputed decompositions that use the root spelled `text`
    /// (case-insensitive, exact root forms only), ordered by word.
    pub fn family(&self, text: &str) -> (r: Vec<&WordDecomposition>)
        ensures
            ({
                let lc = lowercase(text@);
                let id = canonical_of(self@.index, lc);
                &&& !self@.index.roots.contains(lc) ==> r@.len() == 0
                &&& self@.index.roots.contains(lc) ==> {
                    &&& strictly_sorted(decomp_refs_view(r@).map_values(|d: DecompositionModel| d.word))
                    &&& forall|d: DecompositionModel| #[trigger] decomp_refs_view(r@).contains(d) <==> (is_precomputed(self@, d)
                        && mentions(d, id))
                }
            }),
    {
        proof {
            use_type_invariant(self);
        }
        let text_lc = to_lowercase(text);
        let root_id = match self.index.root_id(text_lc.as_str()) {
            Some(id) => id,
            None => {
                return Vec::new();
            },
        };
        let positions = self.related(&root_id);
        let ghost list = self.precomputed@;
        let mut words: Vec<&WordDecomposition> = Vec::new();
        let mut i: usize = 0;
        while i < positions.len()
            invariant
                list == self.precomputed@,
                i <= positions@.len(),
                forall|j: int| 0 <= j < positions@.len() ==> #[trigger] positions@[j] < list.len(),
                words@.len() == i,
                forall|j: int| 0 <= j < i ==> #[trigger] words@[j]@ == list[positions@[j] as int]@,
            decreases positions@.len() - i,
        {
            words.push(&self.precomputed[positions[i]]);
            i = i + 1;
        }
        proof {
            let ds = decomp_refs_view(words@);
            let id = canonical_of(self@.index, lowercase(text@));
            assert(id == root_id@);
            let ws = ds.map_values(|d: DecompositionModel| d.word);
            assert forall|a: int, b: int| 0 <= a < b < ws.len() implies str_lt(#[trigger] ws[a], #[trigger] ws[b]) by {
                assert(ws[a] == list[positions@[a] as int].word@);
                assert(ws[b] == list[positions@[b] as int].word@);
            }
            assert forall|d: DecompositionModel| #[trigger] ds.contains(d) <==> (is_precomputed(self@, d) && mentions(d, id)) by {
                if ds.contains(d) {
                    let j = choose|j: int| 0 <= j < ds.len() && ds[j] == d;
                    let x = positions@[j];
                    assert(positions@.contains(x));
                    let key = lowercase(list[x as int].word@);
                    assert(ds[j] == list[x as int]@);
                    assert(self.positions@.contains_key(key));
                    assert(self.positions@[key] == x);
                    assert(self@.precomputed.contains_key(key) && self@.precomputed[key] == d);
                }
                if is_precomputed(self@, d) && mentions(d, id) {
                    let key = choose|key: Seq<char>| #[trigger] self@.precomputed.contains_key(key) && self@.precomputed[key] == d;
                    let x = self.positions@[key];
                    assert(list[x as int]@ == d);
                    assert(positions@.contains(x));
                    let j = choose|j: int| 0 <= j < positions@.len() && positions@[j] == x;
                    assert(ds[j] == d);
                }
            }
        }
        words
    }
}

/// The words a coverage measurement counts: four or more lowercase ASCII
/// letters.
pub open spec fn is_coverage_word(w: Seq<char>) -> bool {
    w.len() >= 4 && forall|i: int| 0 <= i < w.len() ==> 'a' <= #[trigger] w[i] <= 'z'
}

/// Whether a word list entry counts towards a coverage measurement.
pub fn counts_for_coverage(word: &str) -> (r: bool)
    ensures
        r == is_coverage_word(word@),
{
    let chars = str_chars(word);
    if chars.len() < 4 {
        return false;
    }
    let mut i: usize = 0;
    while i < chars.len()
        invariant
            i <= chars@.len(),
            chars@ == word@,
            forall|j: int| 0 <= j < i ==> 'a' <= #[trigger] chars@[j] <= 'z',
        decreases chars@.len() - i,
    {
        let c = chars[i];
        if !('a' <= c && c <= 'z') {
            return false;
        }
        i = i + 1;
    }
    true
}

} // verus!
