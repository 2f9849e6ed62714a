//! Builds the two record tables from the curated dataset: every morpheme,
//! and a precomputed decomposition for each example word that segments with
//! full coverage against them.

use vstd::prelude::*;

use crate::dataset::{keys_sorted, parse, pairs_view, Dataset, DatasetError, EntryModel, RawEntry};
use crate::db::{
    best_parse, best_parse_of, decomps_view, describe_parse, lemma_best_parse_of, segment_forms, spelling_note,
    strictly_sorted,
};
use crate::decomposition::WordDecomposition;
use crate::error::CoreError;
use crate::index::{built_from, models, IndexModel, MorphemeIndex};
use crate::morpheme::{Morpheme, MorphemeModel};
use crate::provenance::{Provenance, ProvenanceModel};
use crate::segment::{segment_ranked, segs_view, SegmentationModel};
use crate::text::{chars_eq, chars_lt, lowercase, owned, push_str, seq_join, str_chars, str_lt, to_lowercase};

verus! {

/// Confidence carried by every curated record (`0.95_f32`, as `f32` bits).
/// The analyzer's query-time fallback uses a lower one.
pub const CURATED_CONFIDENCE: u32 = 0x3F73_3333;

#[derive(Debug, Default, Clone, Copy)]
pub struct ImportSummary {
    pub morphemes_written: usize,
    pub morphemes_with_variants: usize,
    pub example_words_seen: usize,
    pub precomputed_decompositions: usize,
    pub examples_skipped_partial_segmentation: usize,
}

/// Every example of every entry, in entry order, each entry's in the order
/// written.
pub open spec fn all_examples(es: Seq<(Seq<char>, EntryModel)>) -> Seq<Seq<char>>
    decreases es.len(),
{
    if es.len() == 0 {
        Seq::empty()
    } else {
        all_examples(es.drop_last()) + es.last().1.examples
    }
}

/// The first spelling met of each example word, by lowercased word.
pub open spec fn first_spellings(xs: Seq<Seq<char>>) -> Map<Seq<char>, Seq<char>>
    decreases xs.len(),
{
    if xs.len() == 0 {
        Map::empty()
    } else {
        let m = first_spellings(xs.drop_last());
        let k = lowercase(xs.last());
        if m.contains_key(k) {
            m
        } else {
            m.insert(k, xs.last())
        }
    }
}

/// The example words of a dataset, by lowercased word.
pub open spec fn seen_words(es: Seq<(Seq<char>, EntryModel)>) -> Map<Seq<char>, Seq<char>> {
    first_spellings(all_examples(es))
}

/// The morpheme record for a dataset entry.
pub open spec fn curated_morpheme(e: EntryModel) -> MorphemeModel {
    MorphemeModel {
        id: lowercase(e.form),
        form: e.form,
        positions: e.positions,
        meanings: e.meanings,
        variants: e.variants,
        provenance: ProvenanceModel {
            confidence: CURATED_CONFIDENCE,
            evidence: "curated dataset entry '"@ + e.form + "'"@,
        },
    }
}

pub open spec fn curated_morphemes(es: Seq<(Seq<char>, EntryModel)>) -> Seq<MorphemeModel> {
    es.map_values(|p: (Seq<char>, EntryModel)| curated_morpheme(p.1))
}

/// The index a morpheme list builds (building is deterministic).
pub open spec fn index_of(ms: Seq<MorphemeModel>) -> IndexModel {
    choose|idx: IndexModel| built_from(idx, ms)
}

/// The decomposition recorded for an example word from its best parse.
pub open spec fn curated_decomposition(
    idx: IndexModel,
    word: Seq<char>,
    parse: SegmentationModel,
) -> crate::decomposition::DecompositionModel {
    crate::decomposition::DecompositionModel {
        word,
        segments: parse.segments,
        provenance: ProvenanceModel {
            confidence: CURATED_CONFIDENCE,
            evidence: "dataset example word, segmented into: "@ + seq_join(segment_forms(idx, parse.segments), " + "@)
                + spelling_note(parse.root_rule),
        },
    }
}

/// `d` is the decomposition recorded for one of the example words.
pub open spec fn precomputed_for(
    idx: IndexModel,
    seen: Map<Seq<char>, Seq<char>>,
    d: crate::decomposition::DecompositionModel,
) -> bool {
    exists|k: Seq<char>| #[trigger] seen.contains_key(k) && (best_parse_of(seen[k], idx) matches Some(b)
        && d == curated_decomposition(idx, seen[k], b))
}

/// How many morphemes list at least one variant.
pub open spec fn count_with_variants(ms: Seq<MorphemeModel>) -> nat
    decreases ms.len(),
{
    if ms.len() == 0 {
        0
    } else {
        count_with_variants(ms.drop_last()) + (if ms.last().variants.len() > 0 {
            1nat
        } else {
            0nat
        })
    }
}

/// Where key `k` sits in a list of (lowercased word, spelling) pairs.
pub open spec fn spelled_at(s: Seq<(Seq<char>, Seq<char>)>, k: Seq<char>, i: int) -> bool {
    0 <= i < s.len() && s[i].0 == k
}

/// The pairs as a map.
pub open spec fn spelled_map(s: Seq<(Seq<char>, Seq<char>)>) -> Map<Seq<char>, Seq<char>> {
    Map::new(
        |k: Seq<char>| exists|i: int| #[trigger] spelled_at(s, k, i),
        |k: Seq<char>| s[choose|i: int| #[trigger] spelled_at(s, k, i)].1,
    )
}

/// The pairs are in strictly increasing key order, each key the lowercased
/// spelling beside it.
pub open spec fn spelled_ok(s: Seq<(Seq<char>, Seq<char>)>) -> bool {
    &&& forall|i: int, j: int| 0 <= i < j < s.len() ==> str_lt(#[trigger] s[i].0, #[trigger] s[j].0)
    &&& forall|i: int| 0 <= i < s.len() ==> #[trigger] s[i].0 == lowercase(s[i].1)
}

pub open spec fn spelled_view(v: Seq<(String, String)>) -> Seq<(Seq<char>, Seq<char>)> {
    v.map_values(|p: (String, String)| (p.0@, p.1@))
}

proof fn lemma_spelled_at(s: Seq<(Seq<char>, Seq<char>)>, i: int)
    requires
        spelled_ok(s),
        0 <= i < s.len(),
    ensures
        spelled_map(s).contains_key(s[i].0),
        spelled_map(s)[s[i].0] == s[i].1,
{
    crate::index::lemma_str_lt_order();
    assert(spelled_at(s, s[i].0, i));
    let c = choose|j: int| #[trigger] spelled_at(s, s[i].0, j);
    if c < i {
        assert(str_lt(s[c].0, s[i].0));
    } else if c > i {
        assert(str_lt(s[i].0, s[c].0));
    }
}

/// Records `word` under its lowercased form unless an earlier spelling
/// already holds that key.
fn note_spelling(ex: &mut Vec<(String, String)>, word: &String)
    requires
        spelled_ok(spelled_view(old(ex)@)),
    ensures
        spelled_ok(spelled_view(final(ex)@)),
        spelled_map(spelled_view(final(ex)@)) == (if spelled_map(spelled_view(old(ex)@)).contains_key(lowercase(word@)) {
            spelled_map(spelled_view(old(ex)@))
        } else {
            spelled_map(spelled_view(old(ex)@)).insert(lowercase(word@), word@)
        }),
{
    proof {
        crate::index::lemma_str_lt_order();
    }
    let ghost old_s = spelled_view(ex@);
    let key = to_lowercase(word.as_str());
    let ghost k = key@;
    let key_chars = str_chars(key.as_str());
    let mut p: usize = 0;
    while p < ex.len()
        invariant
            p <= old_s.len(),
            old_s == spelled_view(ex@),
            key_chars@ == k,
            forall|j: int| 0 <= j < p ==> str_lt(#[trigger] old_s[j].0, k),
        ensures
            p <= old_s.len(),
            forall|j: int| 0 <= j < p ==> str_lt(#[trigger] old_s[j].0, k),
            p < old_s.len() ==> !str_lt(old_s[p as int].0, k),
        decreases old_s.len() - p,
    {
        let cur = str_chars(ex[p].0.as_str());
        assert(cur@ == old_s[p as int].0);
        if !chars_lt(cur.as_slice(), key_chars.as_slice()) {
            break;
        }
        p = p + 1;
    }
    let mut found = false;
    if p < ex.len() {
        let cur = str_chars(ex[p].0.as_str());
        assert(cur@ == old_s[p as int].0);
        found = chars_eq(cur.as_slice(), key_chars.as_slice());
    }
    if found {
        proof {
            assert(spelled_at(old_s, k, p as int));
        }
        return;
    }
    proof {
        assert forall|i: int| 0 <= i < old_s.len() implies old_s[i].0 != k by {
            if i < p {
                assert(str_lt(old_s[i].0, k));
            } else if i > p {
                assert(str_lt(old_s[p as int].0, old_s[i].0));
            }
        }
        if spelled_map(old_s).contains_key(k) {
            let i = choose|i: int| #[trigger] spelled_at(old_s, k, i);
            assert(old_s[i].0 != k);
        }
    }
    ex.insert(p, (key, word.clone()));
    let ghost new_s = spelled_view(ex@);
    proof {
        let wv = word@;
        assert(new_s =~= old_s.insert(p as int, (k, wv)));
        assert forall|i: int, j: int| 0 <= i < j < new_s.len() implies str_lt(#[trigger] new_s[i].0, #[trigger] new_s[j].0) by {
            if j < p {
                assert(new_s[i] == old_s[i] && new_s[j] == old_s[j]);
            } else if j == p {
                assert(new_s[i] == old_s[i]);
            } else if i == p {
                assert(new_s[j] == old_s[j - 1]);
                assert(old_s[j - 1].0 != k);
                if j - 1 > p {
                    assert(str_lt(old_s[p as int].0, old_s[j - 1].0));
                }
            } else if i < p {
                assert(new_s[i] == old_s[i] && new_s[j] == old_s[j - 1]);
            } else {
                assert(new_s[i] == old_s[i - 1] && new_s[j] == old_s[j - 1]);
            }
        }
        assert forall|i: int| 0 <= i < new_s.len() implies #[trigger] new_s[i].0 == lowercase(new_s[i].1) by {
            if i < p {
                assert(new_s[i] == old_s[i]);
            } else if i > p {
                assert(new_s[i] == old_s[i - 1]);
            }
        }
        assert(spelled_map(new_s) =~= spelled_map(old_s).insert(k, wv)) by {
            assert forall|q: Seq<char>| #[trigger] spelled_map(new_s).contains_key(q) <==> spelled_map(old_s).insert(k, wv).contains_key(q) by {
                if spelled_map(new_s).contains_key(q) {
                    let i = choose|i: int| #[trigger] spelled_at(new_s, q, i);
                    if i < p {
                        assert(spelled_at(old_s, q, i));
                    } else if i > p {
                        assert(spelled_at(old_s, q, i - 1));
                    }
                }
                if spelled_map(old_s).contains_key(q) {
                    let i = choose|i: int| #[trigger] spelled_at(old_s, q, i);
                    if i < p {
                        assert(spelled_at(new_s, q, i));
                    } else {
                        assert(spelled_at(new_s, q, i + 1));
                    }
                }
                if q == k {
                    assert(spelled_at(new_s, q, p as int));
                }
            }
            assert forall|q: Seq<char>| #[trigger] spelled_map(new_s).contains_key(q) implies spelled_map(new_s)[q] == spelled_map(old_s).insert(k, wv)[q] by {
                let i = choose|i: int| #[trigger] spelled_at(new_s, q, i);
                lemma_spelled_at(new_s, i);
                if i < p {
                    assert(spelled_at(old_s, q, i));
                    lemma_spelled_at(old_s, i);
                } else if i > p {
                    assert(spelled_at(old_s, q, i - 1));
                    lemma_spelled_at(old_s, i - 1);
                }
            }
        }
    }
}

/// Every example word of the dataset, each under its lowercased form with
/// the first spelling met, in increasing key order.
fn example_words(entries: &Vec<(crate::morpheme::MorphemeId, crate::dataset::DatasetEntry)>) -> (r: Vec<(String, String)>)
    ensures
        spelled_ok(spelled_view(r@)),
        spelled_map(spelled_view(r@)) == seen_words(pairs_view(entries@)),
{
    let ghost es = pairs_view(entries@);
    let mut ex: Vec<(String, String)> = Vec::new();
    assert(spelled_map(spelled_view(ex@)) =~= Map::<Seq<char>, Seq<char>>::empty());
    let mut i: usize = 0;
    while i < entries.len()
        invariant
            i <= entries@.len(),
            es == pairs_view(entries@),
            spelled_ok(spelled_view(ex@)),
            spelled_map(spelled_view(ex@)) == first_spellings(all_examples(es.take(i as int))),
        decreases entries@.len() - i,
    {
        let examples = &entries[i].1.examples;
        let ghost before = all_examples(es.take(i as int));
        let ghost xs = es[i as int].1.examples;
        assert(xs == crate::morpheme::strings_view(examples@));
        let mut j: usize = 0;
        while j < examples.len()
            invariant
                j <= examples@.len(),
                xs == crate::morpheme::strings_view(examples@),
                spelled_ok(spelled_view(ex@)),
                spelled_map(spelled_view(ex@)) == first_spellings(before + xs.take(j as int)),
            decreases examples@.len() - j,
        {
            note_spelling(&mut ex, &examples[j]);
            proof {
                let t = before + xs.take(j + 1);
                assert(t.drop_last() =~= before + xs.take(j as int));
                assert(t.last() == examples@[j as int]@);
            }
            j = j + 1;
        }
        proof {
            assert(xs.take(xs.len() as int) =~= xs);
            assert(es.take(i + 1).drop_last() =~= es.take(i as int));
            assert(es.take(i + 1).last() == es[i as int]);
        }
        i = i + 1;
    }
    assert(es.take(es.len() as int) =~= es);
    ex
}

/// The words of a list of decompositions.
pub open spec fn words_of(ds: Seq<crate::decomposition::DecompositionModel>) -> Seq<Seq<char>> {
    ds.map_values(|d: crate::decomposition::DecompositionModel| d.word)
}

/// Inserts `d` where its word keeps the list in strictly increasing word
/// order.
fn insert_by_word(v: &mut Vec<WordDecomposition>, d: WordDecomposition)
    requires
        strictly_sorted(words_of(decomps_view(old(v)@))),
        forall|i: int| 0 <= i < old(v)@.len() ==> (#[trigger] old(v)@[i]).word@ != d.word@,
    ensures
        strictly_sorted(words_of(decomps_view(final(v)@))),
        final(v)@.len() == old(v)@.len() + 1,
        forall|x: crate::decomposition::DecompositionModel| #[trigger] decomps_view(final(v)@).contains(x) <==> (decomps_view(
            old(v)@,
        ).contains(x) || x == d@),
{
    proof {
        crate::index::lemma_str_lt_order();
    }
    let ghost old_s = decomps_view(v@);
    let ghost dv = d@;
    let key = str_chars(d.word.as_str());
    let mut p: usize = 0;
    while p < v.len()
        invariant
            p <= old_s.len(),
            old_s == decomps_view(v@),
            key@ == dv.word,
            forall|j: int| 0 <= j < p ==> str_lt(#[trigger] old_s[j].word, dv.word),
        ensures
            p <= old_s.len(),
            forall|j: int| 0 <= j < p ==> str_lt(#[trigger] old_s[j].word, dv.word),
            p < old_s.len() ==> !str_lt(old_s[p as int].word, dv.word),
        decreases old_s.len() - p,
    {
        let cur = str_chars(v[p].word.as_str());
        assert(cur@ == old_s[p as int].word);
        if !chars_lt(cur.as_slice(), key.as_slice()) {
            break;
        }
        p = p + 1;
    }
    v.insert(p, d);
    let ghost new_s = decomps_view(v@);
    proof {
        assert(new_s =~= old_s.insert(p as int, dv));
        assert forall|i: int| 0 <= i < old_s.len() implies old_s[i].word != dv.word by {
            assert(old_s[i].word == old(v)@[i].word@);
        }
        let ws = words_of(new_s);
        assert forall|i: int, j: int| 0 <= i < j < ws.len() implies str_lt(#[trigger] ws[i], #[trigger] ws[j]) by {
            let ows = words_of(old_s);
            if j < p {
                assert(new_s[i] == old_s[i] && new_s[j] == old_s[j]);
                assert(ows[i] == old_s[i].word && ows[j] == old_s[j].word);
            } else if j == p {
                assert(new_s[i] == old_s[i]);
            } else if i == p {
                assert(new_s[j] == old_s[j - 1]);
                assert(old_s[j - 1].word != dv.word);
                if j - 1 > p {
                    assert(ows[p as int] == old_s[p as int].word && ows[j - 1] == old_s[j - 1].word);
                    assert(str_lt(old_s[p as int].word, old_s[j - 1].word));
                }
            } else if i < p {
                assert(new_s[i] == old_s[i] && new_s[j] == old_s[j - 1]);
                assert(ows[i] == old_s[i].word && ows[j - 1] == old_s[j - 1].word);
            } else {
                assert(new_s[i] == old_s[i - 1] && new_s[j] == old_s[j - 1]);
                assert(ows[i - 1] == old_s[i - 1].word && ows[j - 1] == old_s[j - 1].word);
            }
        }
        assert forall|x: crate::decomposition::DecompositionModel| #[trigger] new_s.contains(x) <==> (old_s.contains(x) || x == dv) by {
            if new_s.contains(x) {
                let i = choose|i: int| 0 <= i < new_s.len() && new_s[i] == x;
                if i < p {
                    assert(old_s[i] == x);
                } else if i > p {
                    assert(old_s[i - 1] == x);
                }
            }
            if old_s.contains(x) {
                let i = choose|i: int| 0 <= i < old_s.len() && old_s[i] == x;
                if i < p {
                    assert(new_s[i] == x);
                } else {
                    assert(new_s[i + 1] == x);
                }
            }
            if x == dv {
                assert(new_s[p as int] == x);
            }
        }
    }
}

/// A copy of a morpheme list.
fn clone_morphemes(v: &Vec<Morpheme>) -> (r: Vec<Morpheme>)
    ensures
        models(r@) == models(v@),
{
    let mut r: Vec<Morpheme> = Vec::new();
    let mut i: usize = 0;
    while i < v.len()
        invariant
            i <= v@.len(),
            models(r@) == models(v@.take(i as int)),
        decreases v@.len() - i,
    {
        r.push(v[i].clone());
        assert(models(v@.take(i + 1)) =~= models(v@.take(i as int)).push(v@[i as int]@));
        assert(models(r@) =~= models(r@.drop_last()).push(r@.last()@));
        i = i + 1;
    }
    assert(v@.take(v@.len() as int) == v@);
    r
}

/// The morpheme records for the dataset's entries, in entry order, and how
/// many of them list a variant.
fn curated_records(entries: Vec<(crate::morpheme::MorphemeId, crate::dataset::DatasetEntry)>) -> (r: Result<
    (Vec<Morpheme>, usize),
    CoreError,
>)
    ensures
        r matches Ok((ms, n)) && models(ms@) == curated_morphemes(pairs_view(entries@)) && n == count_with_variants(
            curated_morphemes(pairs_view(entries@)),
        ),
{
    let ghost es = pairs_view(entries@);
    let ghost items = entries@;
    let mut morphemes: Vec<Morpheme> = Vec::new();
    let mut with_variants: usize = 0;
    let total = entries.len();
    assert(curated_morphemes(es.take(0)) =~= Seq::<MorphemeModel>::empty());
    for pair in it: entries
        invariant
            it.seq() == items,
            items.len() == total,
            es == pairs_view(items),
            models(morphemes@) == curated_morphemes(es.take(it.index() as int)),
            with_variants == count_with_variants(curated_morphemes(es.take(it.index() as int))),
            with_variants <= it.index(),
    {
        let ghost n = it.index() as int;
        let (_, entry) = pair;
        let ghost ev = entry@;
        assert(ev == es[n].1);
        let mut evidence = owned("curated dataset entry '");
        push_str(&mut evidence, entry.form.as_str());
        push_str(&mut evidence, "'");
        let provenance = match Provenance::new(CURATED_CONFIDENCE, evidence) {
            Ok(p) => p,
            Err(e) => {
                return Err(e);
            },
        };
        let has_variants = entry.variants.len() > 0;
        let m = Morpheme::with_variants(entry.form.as_str(), entry.positions, entry.meanings, entry.variants, provenance);
        proof {
            assert(m@ == curated_morpheme(ev));
            let t = curated_morphemes(es.take(n + 1));
            assert(t =~= curated_morphemes(es.take(n)).push(curated_morpheme(ev)));
            assert(t.drop_last() =~= curated_morphemes(es.take(n)));
        }
        morphemes.push(m);
        if has_variants {
            with_variants = with_variants + 1;
        }
    }
    assert(es.take(es.len() as int) =~= es);
    Ok((morphemes, with_variants))
}

/// What [`build_tables`] gives for a dataset with entries `es`.
pub open spec fn tables_of(
    es: Seq<(Seq<char>, EntryModel)>,
    ms: Seq<MorphemeModel>,
    ds: Seq<crate::decomposition::DecompositionModel>,
    summary: ImportSummary,
) -> bool {
    let cms = curated_morphemes(es);
    let idx = index_of(cms);
    let seen = seen_words(es);
    &&& ms == cms
    &&& strictly_sorted(words_of(ds))
    &&& forall|d: crate::decomposition::DecompositionModel| #[trigger] ds.contains(d) <==> precomputed_for(idx, seen, d)
    &&& summary.morphemes_written == ms.len()
    &&& summary.morphemes_with_variants == count_with_variants(cms)
    &&& summary.example_words_seen == seen.dom().len()
    &&& summary.precomputed_decompositions == ds.len()
    &&& summary.precomputed_decompositions + summary.examples_skipped_partial_segmentation == summary.example_words_seen
}

/// Builds the two record tables from a dataset: one morpheme per entry, in
/// id order, each credited to its entry; and, for each distinct example
/// word (case-insensitively, first spelling kept), the decomposition its
/// best segmentation against those morphemes gives, in word order. Words
/// without a full segmentation are counted and skipped.
pub fn build_tables(dataset: Dataset) -> (r: Result<(Vec<Morpheme>, Vec<WordDecomposition>, ImportSummary), CoreError>)
    ensures
        keys_sorted(dataset@),
        r matches Ok((ms, ds, summary)) && tables_of(dataset@, models(ms@), decomps_view(ds@), summary),
{
    let ghost es = dataset@;
    let ghost cms = curated_morphemes(es);
    let ex = example_words(dataset.entries());
    let ghost sv = spelled_view(ex@);
    let ghost seen = seen_words(es);
    let (morphemes, with_variants) = match curated_records(dataset.into_entries()) {
        Ok(t) => t,
        Err(e) => {
            return Err(e);
        },
    };
    let index = MorphemeIndex::build(clone_morphemes(&morphemes));
    let ghost idx = index@;
    proof {
        crate::index::lemma_index_deterministic(idx, index_of(cms), cms);
        crate::index::lemma_str_lt_order();
    }
    let mut precomputed: Vec<WordDecomposition> = Vec::new();
    let mut skipped: usize = 0;
    let mut i: usize = 0;
    while i < ex.len()
        invariant
            i <= ex@.len(),
            sv == spelled_view(ex@),
            spelled_ok(sv),
            idx == index@,
            strictly_sorted(words_of(decomps_view(precomputed@))),
            forall|d: crate::decomposition::DecompositionModel| #[trigger] decomps_view(precomputed@).contains(d) <==> exists|m: int|
                0 <= m < i && (best_parse_of(#[trigger] sv[m].1, idx) matches Some(b) && d == curated_decomposition(idx, sv[m].1, b)),
            precomputed@.len() + skipped == i,
        decreases ex@.len() - i,
    {
        proof {
            crate::index::lemma_str_lt_order();
        }
        let word = &ex[i].1;
        assert(word@ == sv[i as int].1);
        let mut ranked = segment_ranked(word.as_str(), &index, 1);
        let ghost out = segs_view(ranked@);
        if ranked.len() == 0 {
            proof {
                assert(best_parse(word@, idx, None));
                lemma_best_parse_of(word@, idx, None);
                assert forall|d: crate::decomposition::DecompositionModel| #[trigger] decomps_view(precomputed@).contains(d) <==> exists|m: int|
                    0 <= m < i + 1 && (best_parse_of(#[trigger] sv[m].1, idx) matches Some(b) && d == curated_decomposition(idx, sv[m].1, b)) by {
                    if exists|m: int| 0 <= m < i + 1 && (best_parse_of(#[trigger] sv[m].1, idx) matches Some(b) && d == curated_decomposition(idx, sv[m].1, b)) {
                        let m = choose|m: int| 0 <= m < i + 1 && (best_parse_of(#[trigger] sv[m].1, idx) matches Some(b) && d == curated_decomposition(idx, sv[m].1, b));
                        assert(m != i);
                    }
                }
            }
            skipped = skipped + 1;
        } else {
            let parse = ranked.swap_remove(0);
            let ghost pv = parse@;
            proof {
                assert(pv == out[0]);
                assert(best_parse(word@, idx, Some(pv)));
                lemma_best_parse_of(word@, idx, Some(pv));
            }
            let evidence = describe_parse(&index, &parse, "dataset example word, segmented into: ");
            let provenance = match Provenance::new(CURATED_CONFIDENCE, evidence) {
                Ok(p) => p,
                Err(e) => {
                    return Err(e);
                },
            };
            let d = WordDecomposition { word: word.clone(), segments: parse.segments, provenance };
            let ghost dv = d@;
            assert(dv == curated_decomposition(idx, sv[i as int].1, pv));
            proof {
                assert forall|j: int| 0 <= j < precomputed@.len() implies (#[trigger] precomputed@[j]).word@ != dv.word by {
                    let x = decomps_view(precomputed@)[j];
                    assert(decomps_view(precomputed@).contains(x));
                    let m = choose|m: int| 0 <= m < i && (best_parse_of(#[trigger] sv[m].1, idx) matches Some(b) && x == curated_decomposition(idx, sv[m].1, b));
                    assert(x.word == sv[m].1);
                    assert(str_lt(sv[m].0, sv[i as int].0));
                    assert(sv[m].0 == lowercase(sv[m].1));
                    assert(sv[i as int].0 == lowercase(sv[i as int].1));
                }
            }
            let ghost before = decomps_view(precomputed@);
            insert_by_word(&mut precomputed, d);
            proof {
                assert forall|x: crate::decomposition::DecompositionModel| #[trigger] decomps_view(precomputed@).contains(x) <==> exists|m: int|
                    0 <= m < i + 1 && (best_parse_of(#[trigger] sv[m].1, idx) matches Some(b) && x == curated_decomposition(idx, sv[m].1, b)) by {
                    if x == dv {
                        assert(0 <= i < i + 1 && (best_parse_of(sv[i as int].1, idx) matches Some(b) && x == curated_decomposition(idx, sv[i as int].1, b)));
                    }
                    if exists|m: int| 0 <= m < i + 1 && (best_parse_of(#[trigger] sv[m].1, idx) matches Some(b) && x == curated_decomposition(idx, sv[m].1, b)) {
                        let m = choose|m: int| 0 <= m < i + 1 && (best_parse_of(#[trigger] sv[m].1, idx) matches Some(b) && x == curated_decomposition(idx, sv[m].1, b));
                        if m < i {
                            assert(before.contains(x));
                        }
                    }
                }
            }
        }
        i = i + 1;
    }
    let ghost ds = decomps_view(precomputed@);
    proof {
        assert(spelled_map(sv) == seen);
        assert forall|d: crate::decomposition::DecompositionModel| #[trigger] ds.contains(d) <==> precomputed_for(idx, seen, d) by {
            if ds.contains(d) {
                let m = choose|m: int| 0 <= m < sv.len() && (best_parse_of(#[trigger] sv[m].1, idx) matches Some(b) && d == curated_decomposition(idx, sv[m].1, b));
                lemma_spelled_at(sv, m);
                assert(seen.contains_key(sv[m].0));
            }
            if precomputed_for(idx, seen, d) {
                let k = choose|k: Seq<char>| #[trigger] seen.contains_key(k) && (best_parse_of(seen[k], idx) matches Some(b)
                    && d == curated_decomposition(idx, seen[k], b));
                let m = choose|m: int| #[trigger] spelled_at(sv, k, m);
                lemma_spelled_at(sv, m);
                assert(0 <= m < sv.len() && (best_parse_of(sv[m].1, idx) matches Some(b) && d == curated_decomposition(idx, sv[m].1, b)));
            }
        }
        let keys = sv.map_values(|p: (Seq<char>, Seq<char>)| p.0);
        assert(keys.no_duplicates()) by {
            assert forall|a: int, b: int| 0 <= a < keys.len() && 0 <= b < keys.len() && a != b implies keys[a] != keys[b] by {
                if a < b {
                    assert(str_lt(sv[a].0, sv[b].0));
                } else {
                    assert(str_lt(sv[b].0, sv[a].0));
                }
            }
        }
        keys.unique_seq_to_set();
        assert(keys.to_set() =~= seen.dom()) by {
            assert forall|k: Seq<char>| keys.to_set().contains(k) <==> seen.dom().contains(k) by {
                if keys.to_set().contains(k) {
                    let m = choose|m: int| 0 <= m < keys.len() && keys[m] == k;
                    assert(spelled_at(sv, k, m));
                }
                if seen.dom().contains(k) {
                    let m = choose|m: int| #[trigger] spelled_at(sv, k, m);
                    assert(keys[m] == k);
                }
            }
        }
    }
    let summary = ImportSummary {
        morphemes_written: morphemes.len(),
        morphemes_with_variants: with_variants,
        example_words_seen: ex.len(),
        precomputed_decompositions: precomputed.len(),
        examples_skipped_partial_segmentation: skipped,
    };
    Ok((morphemes, precomputed, summary))
}

/// Checks the dataset file's entries and builds the tables from them.
pub fn normalize(raw: Vec<(String, RawEntry)>) -> (r: Result<(Vec<Morpheme>, Vec<WordDecomposition>, ImportSummary), ImportError>)
    ensures
        match r {
            Ok((ms, ds, summary)) => crate::dataset::parsed(crate::dataset::raw_view(raw@)) matches Ok(m) && exists|es: Seq<(Seq<char>, EntryModel)>|
                keys_sorted(es) && crate::dataset::entry_map(es) == m && tables_of(es, models(ms@), decomps_view(ds@), summary),
            Err(ImportError::Dataset(e)) => crate::dataset::parsed(crate::dataset::raw_view(raw@)) == Err::<Map<Seq<char>, EntryModel>, crate::dataset::DatasetErrorModel>(e@),
            Err(ImportError::Record(_)) => false,
        },
{
    match parse(raw) {
        Ok(dataset) => {
            match build_tables(dataset) {
                Ok(t) => Ok(t),
                Err(e) => Err(ImportError::Record(e)),
            }
        },
        Err(e) => Err(ImportError::Dataset(e)),
    }
}

/// Why an import failed.
#[derive(Debug, PartialEq)]
pub enum ImportError {
    /// The dataset file was refused.
    Dataset(DatasetError),
    /// A record could not be built.
    Record(CoreError),
}

proof fn lemma_sorted_last_is_max(ws: Seq<Seq<char>>, i: int)
    requires
        strictly_sorted(ws),
        0 <= i < ws.len() - 1,
    ensures
        str_lt(ws[i], ws[ws.len() - 1]),
{
}

/// Two lists in strictly increasing word order holding the same
/// decompositions are the same list.
proof fn lemma_sorted_unique(a: Seq<crate::decomposition::DecompositionModel>, b: Seq<crate::decomposition::DecompositionModel>)
    requires
        strictly_sorted(words_of(a)),
        strictly_sorted(words_of(b)),
        forall|x: crate::decomposition::DecompositionModel| #[trigger] a.contains(x) <==> b.contains(x),
    ensures
        a == b,
    decreases a.len() + b.len(),
{
    crate::index::lemma_str_lt_order();
    if a.len() == 0 {
        if b.len() > 0 {
            assert(b.contains(b[0]));
            assert(a.contains(b[0]));
        }
        assert(a =~= b);
    } else if b.len() == 0 {
        assert(a.contains(a[0]));
        assert(b.contains(a[0]));
    } else {
        let wa = words_of(a);
        let wb = words_of(b);
        let x = a.last();
        let y = b.last();
        assert(a.contains(x));
        assert(b.contains(y));
        assert(b.contains(x));
        assert(a.contains(y));
        assert(wa.len() == a.len() && wb.len() == b.len());
        let i = choose|i: int| 0 <= i < b.len() && b[i] == x;
        let j = choose|j: int| 0 <= j < a.len() && a[j] == y;
        if i < b.len() - 1 {
            lemma_sorted_last_is_max(wb, i);
            assert(str_lt(x.word, y.word));
        }
        if j < a.len() - 1 {
            lemma_sorted_last_is_max(wa, j);
            assert(str_lt(y.word, x.word));
        }
        assert(x == y);
        let a0 = a.drop_last();
        let b0 = b.drop_last();
        assert forall|z: crate::decomposition::DecompositionModel| #[trigger] a0.contains(z) <==> b0.contains(z) by {
            if a0.contains(z) {
                let k = choose|k: int| 0 <= k < a0.len() && a0[k] == z;
                assert(a.contains(z));
                assert(b.contains(z));
                let m = choose|m: int| 0 <= m < b.len() && b[m] == z;
                if m == b.len() - 1 {
                    assert(str_lt(wa[k], wa[a.len() - 1]));
                } else {
                    assert(b0[m] == z);
                }
            }
            if b0.contains(z) {
                let k = choose|k: int| 0 <= k < b0.len() && b0[k] == z;
                assert(b.contains(z));
                assert(a.contains(z));
                let m = choose|m: int| 0 <= m < a.len() && a[m] == z;
                if m == a.len() - 1 {
                    assert(str_lt(wb[k], wb[b.len() - 1]));
                } else {
                    assert(a0[m] == z);
                }
            }
        }
        assert(words_of(a0) =~= wa.drop_last());
        assert(words_of(b0) =~= wb.drop_last());
        lemma_sorted_unique(a0, b0);
        assert(a =~= a0.push(x));
        assert(b =~= b0.push(y));
    }
}

/// Building the tables is deterministic: a dataset fixes the morphemes, the
/// precomputed decompositions and the summary, so the same dataset always
/// gives the same release.
pub proof fn lemma_tables_deterministic(
    es: Seq<(Seq<char>, EntryModel)>,
    ms1: Seq<MorphemeModel>,
    ds1: Seq<crate::decomposition::DecompositionModel>,
    s1: ImportSummary,
    ms2: Seq<MorphemeModel>,
    ds2: Seq<crate::decomposition::DecompositionModel>,
    s2: ImportSummary,
)
    requires
        tables_of(es, ms1, ds1, s1),
        tables_of(es, ms2, ds2, s2),
    ensures
        ms1 == ms2,
        ds1 == ds2,
        s1 == s2,
{
    let idx = index_of(curated_morphemes(es));
    let seen = seen_words(es);
    assert forall|x: crate::decomposition::DecompositionModel| #[trigger] ds1.contains(x) <==> ds2.contains(x) by {
        assert(ds1.contains(x) <==> precomputed_for(idx, seen, x));
        assert(ds2.contains(x) <==> precomputed_for(idx, seen, x));
    }
    lemma_sorted_unique(ds1, ds2);
}

/// The tables against a separate call of `segment` on an index built from
/// the recorded morphemes: each recorded decomposition has the segments that
/// `segment` finds for its word, at the curated confidence; and an example
/// word (in the spelling first met) is recorded exactly when `segment` finds a
/// parse for it.
pub proof fn lemma_tables_agree_with_segment(
    es: Seq<(Seq<char>, EntryModel)>,
    ms: Seq<MorphemeModel>,
    ds: Seq<crate::decomposition::DecompositionModel>,
    summary: ImportSummary,
    idx: IndexModel,
    word: Seq<char>,
    segs: Option<Seq<(Seq<char>, crate::morpheme::MorphemeKind)>>,
)
    requires
        tables_of(es, ms, ds, summary),
        built_from(idx, ms),
        crate::segment::segmented(word, idx, segs),
    ensures
        forall|d: crate::decomposition::DecompositionModel| #[trigger] ds.contains(d) && d.word == word
            ==> segs == Some(d.segments) && d.provenance.confidence == CURATED_CONFIDENCE,
        (exists|k: Seq<char>| #[trigger] seen_words(es).contains_key(k) && seen_words(es)[k] == word) ==> (
            (exists|d: crate::decomposition::DecompositionModel| #[trigger] ds.contains(d) && d.word == word) <==> segs is Some),
{
    let cms = curated_morphemes(es);
    let seen = seen_words(es);
    assert(built_from(idx, cms));
    assert(built_from(index_of(cms), cms));
    crate::index::lemma_index_deterministic(idx, index_of(cms), cms);
    let out = choose|out: Seq<SegmentationModel>| #[trigger] crate::segment::ranked_segmentations(word, idx, 1, out) && match segs {
        Some(s) => out.len() > 0 && s == out[0].segments,
        None => out.len() == 0,
    };
    let best = if out.len() > 0 {
        Some(out[0])
    } else {
        None
    };
    assert(best_parse(word, idx, best));
    lemma_best_parse_of(word, idx, best);
    assert forall|d: crate::decomposition::DecompositionModel| #[trigger] ds.contains(d) && d.word == word
        implies segs == Some(d.segments) && d.provenance.confidence == CURATED_CONFIDENCE by {
        assert(precomputed_for(idx, seen, d));
        let k = choose|k: Seq<char>| #[trigger] seen.contains_key(k) && (best_parse_of(seen[k], idx) matches Some(b)
            && d == curated_decomposition(idx, seen[k], b));
        assert(seen[k] == word);
    }
    if exists|k: Seq<char>| #[trigger] seen_words(es).contains_key(k) && seen_words(es)[k] == word {
        let k = choose|k: Seq<char>| #[trigger] seen_words(es).contains_key(k) && seen_words(es)[k] == word;
        if segs is Some {
            let d = curated_decomposition(idx, word, out[0]);
            assert(precomputed_for(idx, seen, d));
            assert(ds.contains(d) && d.word == word);
        }
    }
}

} // verus!
