//! Lookup structures built once from the full morpheme table: position-keyed
//! sets of surface forms used by the segmenter to enumerate candidate splits.

use vstd::hash_map::StringHashMap;
use vstd::prelude::*;
use vstd::string::*;

use crate::morpheme::{Morpheme, MorphemeId, MorphemeKind, MorphemeModel};
use crate::ortho::{underlying_candidates_of, underlying_forms, OrthoRule, forms_view};
use crate::text::{lowercase, str_chars, str_lt, to_lowercase, chars_lt};

verus! {

/// A form long enough to plausibly carry lexical content even though no
/// source ever labelled it `root`.
pub const MIN_FALLBACK_ROOT_LEN: usize = 4;

/// How a candidate substring matched the root slot.
#[derive(Debug, Clone, Copy, PartialEq, Eq, Structural)]
pub enum RootMatch {
    /// The form is attested as a root.
    Attested,
    /// The form is only attested as a prefix or suffix, but is long enough
    /// to stand in as a root; the segmenter scores it with a penalty.
    AffixOnly,
}

/// A resolved root-slot match: which morpheme it is, how well attested, and
/// which spelling rule (if any) had to be undone to spell it.
#[derive(Debug, PartialEq, Eq)]
pub struct RootHit {
    /// The canonical morpheme, not the surface substring.
    pub id: MorphemeId,
    pub quality: RootMatch,
    /// `Some` when a spelling rule was reversed to reach `id`.
    pub rule: Option<OrthoRule>,
}

impl View for RootHit {
    type V = (Seq<char>, RootMatch, Option<OrthoRule>);

    open spec fn view(&self) -> (Seq<char>, RootMatch, Option<OrthoRule>) {
        (self.id@, self.quality, self.rule)
    }
}

impl Clone for RootHit {
    fn clone(&self) -> (r: Self)
        ensures
            r@ == self@,
    {
        RootHit { id: self.id.clone(), quality: self.quality, rule: self.rule }
    }
}

/// The abstract content of a [`MorphemeIndex`].
pub struct IndexModel {
    pub by_id: Map<Seq<char>, MorphemeModel>,
    pub prefixes: Set<Seq<char>>,
    pub suffixes: Set<Seq<char>>,
    pub roots: Set<Seq<char>>,
    /// Variant surface -> the morpheme it realizes.
    pub canonical: Map<Seq<char>, Seq<char>>,
    pub max_prefix_len: nat,
    pub max_suffix_len: nat,
}

pub open spec fn models(v: Seq<Morpheme>) -> Seq<MorphemeModel> {
    v.map_values(|m: Morpheme| m@)
}

/// The ids of a morpheme list.
pub open spec fn id_set(ms: Seq<MorphemeModel>) -> Set<Seq<char>> {
    Set::new(|s: Seq<char>| exists|i: int| 0 <= i < ms.len() && ms[i].id == s)
}

/// Some morpheme attested in `kind` spells `s` (lowercased) as its own form.
pub open spec fn form_recorded(ms: Seq<MorphemeModel>, kind: MorphemeKind, s: Seq<char>) -> bool {
    exists|i: int| 0 <= i < ms.len() && ms[i].positions.contains(kind) && lowercase(ms[i].form) == s
}

/// Variant `j` of morpheme `i` spells `s` once lowercased.
pub open spec fn variant_of(ms: Seq<MorphemeModel>, i: int, j: int, s: Seq<char>) -> bool {
    0 <= i < ms.len() && 0 <= j < ms[i].variants.len() && lowercase(ms[i].variants[j]) == s
}

/// `s` is a lowercased variant of a morpheme attested in `kind`, and not an
/// id in its own right (a morpheme's own form always wins its spelling).
pub open spec fn variant_recorded(
    ms: Seq<MorphemeModel>,
    ids: Set<Seq<char>>,
    kind: MorphemeKind,
    s: Seq<char>,
) -> bool {
    !ids.contains(s) && exists|i: int, j: int| variant_of(ms, i, j, s) && ms[i].positions.contains(kind)
}

/// Every surface spelling filed under `kind`.
pub open spec fn surfaces(ms: Seq<MorphemeModel>, kind: MorphemeKind) -> Set<Seq<char>> {
    Set::new(|s: Seq<char>| form_recorded(ms, kind, s) || variant_recorded(ms, id_set(ms), kind, s))
}

/// Morphemes by id; a later morpheme with the same id replaces an earlier one.
pub open spec fn by_id_of(ms: Seq<MorphemeModel>) -> Map<Seq<char>, MorphemeModel>
    decreases ms.len(),
{
    if ms.len() == 0 {
        Map::empty()
    } else {
        by_id_of(ms.drop_last()).insert(ms.last().id, ms.last())
    }
}

/// Some morpheme lists `s` (lowercased) among its variants.
pub open spec fn some_variant(ms: Seq<MorphemeModel>, s: Seq<char>) -> bool {
    exists|i: int, j: int| variant_of(ms, i, j, s)
}

/// One of the first `j` of `vs` spells `s` once lowercased.
pub open spec fn among_first(vs: Seq<Seq<char>>, j: int, s: Seq<char>) -> bool {
    exists|jj: int| 0 <= jj < j && lowercase(vs[jj]) == s
}

/// The morpheme with id `id` lists `s` (lowercased) among its variants.
pub open spec fn owns_variant(ms: Seq<MorphemeModel>, id: Seq<char>, s: Seq<char>) -> bool {
    exists|i: int, j: int| variant_of(ms, i, j, s) && ms[i].id == id
}

/// `c` maps every variant surface that is not an id to the least id (in
/// code-point order) among the morphemes listing it, so a surface claimed by
/// two morphemes resolves the same way in every build.
pub open spec fn canonical_ok(ms: Seq<MorphemeModel>, ids: Set<Seq<char>>, c: Map<Seq<char>, Seq<char>>) -> bool {
    &&& forall|s: Seq<char>| #[trigger] c.contains_key(s) <==> (!ids.contains(s) && some_variant(ms, s))
    &&& forall|s: Seq<char>| #[trigger] c.contains_key(s) ==> owns_variant(ms, c[s], s)
    &&& forall|s: Seq<char>, id: Seq<char>| c.contains_key(s) && #[trigger] owns_variant(ms, id, s) ==> !str_lt(id, c[s])
}

/// `n` is the length of the longest member of `set` (0 for an empty set).
pub open spec fn is_max_len(set: Set<Seq<char>>, n: nat) -> bool {
    &&& forall|s: Seq<char>| #[trigger] set.contains(s) ==> s.len() <= n
    &&& (n == 0 || exists|s: Seq<char>| #[trigger] set.contains(s) && s.len() == n)
}

/// The index built from morpheme list `ms`.
pub open spec fn built_from(idx: IndexModel, ms: Seq<MorphemeModel>) -> bool {
    &&& idx.by_id == by_id_of(ms)
    &&& idx.prefixes == surfaces(ms, MorphemeKind::Prefix)
    &&& idx.suffixes == surfaces(ms, MorphemeKind::Suffix)
    &&& idx.roots == surfaces(ms, MorphemeKind::Root)
    &&& canonical_ok(ms, id_set(ms), idx.canonical)
    &&& is_max_len(idx.prefixes, idx.max_prefix_len)
    &&& is_max_len(idx.suffixes, idx.max_suffix_len)
}

/// Building an index is deterministic: the morpheme list alone fixes every
/// part of it, including which morpheme a variant shared by several
/// resolves to.
pub proof fn lemma_index_deterministic(a: IndexModel, b: IndexModel, ms: Seq<MorphemeModel>)
    requires
        built_from(a, ms),
        built_from(b, ms),
    ensures
        a == b,
{
    lemma_str_lt_order();
    assert(a.canonical =~= b.canonical) by {
        assert forall|s: Seq<char>| #[trigger] a.canonical.contains_key(s) implies a.canonical[s] == b.canonical[s] by {
            assert(b.canonical.contains_key(s));
            assert(owns_variant(ms, a.canonical[s], s));
            assert(owns_variant(ms, b.canonical[s], s));
            assert(!str_lt(a.canonical[s], b.canonical[s]));
            assert(!str_lt(b.canonical[s], a.canonical[s]));
        }
    }
    lemma_max_len_unique(a.prefixes, a.max_prefix_len, b.max_prefix_len);
    lemma_max_len_unique(a.suffixes, a.max_suffix_len, b.max_suffix_len);
}

proof fn lemma_max_len_unique(set: Set<Seq<char>>, m: nat, n: nat)
    requires
        is_max_len(set, m),
        is_max_len(set, n),
    ensures
        m == n,
{
    if m != 0 {
        let s = choose|s: Seq<char>| #[trigger] set.contains(s) && s.len() == m;
        assert(s.len() <= n);
    }
    if n != 0 {
        let s = choose|s: Seq<char>| #[trigger] set.contains(s) && s.len() == n;
        assert(s.len() <= m);
    }
}

/// No two morphemes of the list share an id.
pub open spec fn ids_distinct(ms: Seq<MorphemeModel>) -> bool {
    forall|i: int, j: int| 0 <= i < ms.len() && 0 <= j < ms.len() && i != j ==> #[trigger] ms[i].id != #[trigger] ms[j].id
}

proof fn lemma_by_id_of_distinct(ms: Seq<MorphemeModel>)
    requires
        ids_distinct(ms),
    ensures
        forall|k: Seq<char>| #[trigger] by_id_of(ms).contains_key(k) <==> exists|i: int| 0 <= i < ms.len() && ms[i].id == k,
        forall|i: int| 0 <= i < ms.len() ==> by_id_of(ms)[#[trigger] ms[i].id] == ms[i],
    decreases ms.len(),
{
    if ms.len() > 0 {
        let init = ms.drop_last();
        assert(ids_distinct(init)) by {
            assert forall|i: int, j: int| 0 <= i < init.len() && 0 <= j < init.len() && i != j implies #[trigger] init[i].id
                != #[trigger] init[j].id by {
                assert(init[i] == ms[i] && init[j] == ms[j]);
            }
        }
        lemma_by_id_of_distinct(init);
        assert(by_id_of(ms) == by_id_of(init).insert(ms.last().id, ms.last()));
        assert forall|k: Seq<char>| #[trigger] by_id_of(ms).contains_key(k) <==> exists|i: int| 0 <= i < ms.len() && ms[i].id == k by {
            if by_id_of(ms).contains_key(k) && k == ms.last().id {
                assert(ms[ms.len() - 1].id == k);
            }
            if by_id_of(ms).contains_key(k) && k != ms.last().id {
                assert(by_id_of(init).contains_key(k));
                let i = choose|i: int| 0 <= i < init.len() && init[i].id == k;
                assert(ms[i] == init[i]);
            }
            if exists|i: int| 0 <= i < ms.len() && ms[i].id == k {
                let i = choose|i: int| 0 <= i < ms.len() && ms[i].id == k;
                if i < ms.len() - 1 {
                    assert(init[i] == ms[i]);
                    assert(by_id_of(init).contains_key(init[i].id));
                }
            }
        }
        assert forall|i: int| 0 <= i < ms.len() implies by_id_of(ms)[#[trigger] ms[i].id] == ms[i] by {
            if i < ms.len() - 1 {
                assert(init[i] == ms[i]);
                assert(ms[i].id != ms[ms.len() - 1].id);
            }
        }
    }
}

/// Two lists hold the same morphemes.
pub open spec fn same_morphemes(ms: Seq<MorphemeModel>, ns: Seq<MorphemeModel>) -> bool {
    forall|x: MorphemeModel| #[trigger] ms.contains(x) <==> ns.contains(x)
}

proof fn lemma_witness(ms: Seq<MorphemeModel>, ns: Seq<MorphemeModel>, i: int) -> (j: int)
    requires
        same_morphemes(ms, ns),
        0 <= i < ms.len(),
    ensures
        0 <= j < ns.len(),
        ns[j] == ms[i],
{
    assert(ms.contains(ms[i]));
    assert(ns.contains(ms[i]));
    choose|j: int| 0 <= j < ns.len() && ns[j] == ms[i]
}

proof fn lemma_same_by_id(ms: Seq<MorphemeModel>, ns: Seq<MorphemeModel>)
    requires
        same_morphemes(ms, ns),
        same_morphemes(ns, ms),
        ids_distinct(ms),
        ids_distinct(ns),
    ensures
        by_id_of(ms) == by_id_of(ns),
        id_set(ms) == id_set(ns),
{
    lemma_by_id_of_distinct(ms);
    lemma_by_id_of_distinct(ns);
    assert forall|k: Seq<char>| #[trigger] by_id_of(ms).contains_key(k) <==> by_id_of(ns).contains_key(k) by {
        if by_id_of(ms).contains_key(k) {
            let i = choose|i: int| 0 <= i < ms.len() && ms[i].id == k;
            let j = lemma_witness(ms, ns, i);
            assert(ns[j].id == k);
        }
        if by_id_of(ns).contains_key(k) {
            let j = choose|j: int| 0 <= j < ns.len() && ns[j].id == k;
            let i = lemma_witness(ns, ms, j);
            assert(ms[i].id == k);
        }
    }
    assert forall|k: Seq<char>| #[trigger] by_id_of(ms).contains_key(k) implies by_id_of(ms)[k] == by_id_of(ns)[k] by {
        let i = choose|i: int| 0 <= i < ms.len() && ms[i].id == k;
        let j = lemma_witness(ms, ns, i);
        assert(by_id_of(ms)[ms[i].id] == ms[i]);
        assert(by_id_of(ns)[ns[j].id] == ns[j]);
    }
    assert(by_id_of(ms) =~= by_id_of(ns));
    assert forall|k: Seq<char>| id_set(ms).contains(k) <==> id_set(ns).contains(k) by {
        if id_set(ms).contains(k) {
            let i = choose|i: int| 0 <= i < ms.len() && ms[i].id == k;
            let j = lemma_witness(ms, ns, i);
            assert(ns[j].id == k);
        }
        if id_set(ns).contains(k) {
            let j = choose|j: int| 0 <= j < ns.len() && ns[j].id == k;
            let i = lemma_witness(ns, ms, j);
            assert(ms[i].id == k);
        }
    }
    assert(id_set(ms) =~= id_set(ns));
}

proof fn lemma_same_variants(ms: Seq<MorphemeModel>, ns: Seq<MorphemeModel>)
    requires
        same_morphemes(ms, ns),
        same_morphemes(ns, ms),
    ensures
        forall|s: Seq<char>, id: Seq<char>| #[trigger] owns_variant(ms, id, s) <==> owns_variant(ns, id, s),
        forall|s: Seq<char>| #[trigger] some_variant(ms, s) <==> some_variant(ns, s),
{
    assert forall|s: Seq<char>, id: Seq<char>| #[trigger] owns_variant(ms, id, s) <==> owns_variant(ns, id, s) by {
        if owns_variant(ms, id, s) {
            let (i, v) = choose|i: int, v: int| variant_of(ms, i, v, s) && ms[i].id == id;
            let j = lemma_witness(ms, ns, i);
            assert(variant_of(ns, j, v, s));
        }
        if owns_variant(ns, id, s) {
            let (j, v) = choose|j: int, v: int| variant_of(ns, j, v, s) && ns[j].id == id;
            let i = lemma_witness(ns, ms, j);
            assert(variant_of(ms, i, v, s));
        }
    }
    assert forall|s: Seq<char>| #[trigger] some_variant(ms, s) <==> some_variant(ns, s) by {
        if some_variant(ms, s) {
            let (i, v) = choose|i: int, v: int| variant_of(ms, i, v, s);
            let j = lemma_witness(ms, ns, i);
            assert(variant_of(ns, j, v, s));
        }
        if some_variant(ns, s) {
            let (j, v) = choose|j: int, v: int| variant_of(ns, j, v, s);
            let i = lemma_witness(ns, ms, j);
            assert(variant_of(ms, i, v, s));
        }
    }
}

proof fn lemma_same_surfaces(ms: Seq<MorphemeModel>, ns: Seq<MorphemeModel>, kind: MorphemeKind)
    requires
        same_morphemes(ms, ns),
        same_morphemes(ns, ms),
        id_set(ms) == id_set(ns),
    ensures
        surfaces(ms, kind) == surfaces(ns, kind),
{
    assert forall|s: Seq<char>| surfaces(ms, kind).contains(s) <==> surfaces(ns, kind).contains(s) by {
        if form_recorded(ms, kind, s) {
            let i = choose|i: int| 0 <= i < ms.len() && ms[i].positions.contains(kind) && lowercase(ms[i].form) == s;
            let j = lemma_witness(ms, ns, i);
            assert(form_recorded(ns, kind, s));
        }
        if form_recorded(ns, kind, s) {
            let j = choose|j: int| 0 <= j < ns.len() && ns[j].positions.contains(kind) && lowercase(ns[j].form) == s;
            let i = lemma_witness(ns, ms, j);
            assert(form_recorded(ms, kind, s));
        }
        if variant_recorded(ms, id_set(ms), kind, s) {
            let (i, v) = choose|i: int, v: int| variant_of(ms, i, v, s) && ms[i].positions.contains(kind);
            let j = lemma_witness(ms, ns, i);
            assert(variant_of(ns, j, v, s));
        }
        if variant_recorded(ns, id_set(ns), kind, s) {
            let (j, v) = choose|j: int, v: int| variant_of(ns, j, v, s) && ns[j].positions.contains(kind);
            let i = lemma_witness(ns, ms, j);
            assert(variant_of(ms, i, v, s));
        }
    }
    assert(surfaces(ms, kind) =~= surfaces(ns, kind));
}

/// Building an index ignores the order of the morphemes: two lists holding
/// the same morphemes (a permutation, say), each id once, build the same
/// index.
pub proof fn lemma_index_ignores_order(a: IndexModel, b: IndexModel, ms: Seq<MorphemeModel>, ns: Seq<MorphemeModel>)
    requires
        built_from(a, ms),
        built_from(b, ns),
        ids_distinct(ms),
        ids_distinct(ns),
        forall|x: MorphemeModel| #[trigger] ms.contains(x) <==> ns.contains(x),
    ensures
        a == b,
{
    assert(same_morphemes(ns, ms));
    lemma_same_by_id(ms, ns);
    lemma_same_variants(ms, ns);
    lemma_same_surfaces(ms, ns, MorphemeKind::Prefix);
    lemma_same_surfaces(ms, ns, MorphemeKind::Suffix);
    lemma_same_surfaces(ms, ns, MorphemeKind::Root);
    assert(canonical_ok(ns, id_set(ns), a.canonical)) by {
        assert forall|s: Seq<char>, id: Seq<char>| a.canonical.contains_key(s) && #[trigger] owns_variant(ns, id, s) implies !str_lt(
            id,
            a.canonical[s],
        ) by {
            assert(owns_variant(ms, id, s));
        }
        assert forall|s: Seq<char>| #[trigger] a.canonical.contains_key(s) implies owns_variant(ns, a.canonical[s], s) by {
            assert(owns_variant(ms, a.canonical[s], s));
        }
        assert forall|s: Seq<char>| #[trigger] a.canonical.contains_key(s) <==> (!id_set(ns).contains(s) && some_variant(ns, s)) by {
            assert(some_variant(ms, s) <==> some_variant(ns, s));
        }
    }
    assert(built_from(a, ns));
    lemma_index_deterministic(a, b, ns);
}

/// Every morpheme is filed under its id, and lowercasing its id changes
/// nothing: what [`Morpheme::new`] builds from a form whose lowercase form
/// is already lowercase.
pub open spec fn ids_settled(ms: Seq<MorphemeModel>) -> bool {
    forall|i: int| 0 <= i < ms.len() ==> #[trigger] ms[i].id == lowercase(ms[i].form) && lowercase(ms[i].id) == ms[i].id
}

proof fn lemma_by_id_has_ids(ms: Seq<MorphemeModel>)
    ensures
        forall|i: int| 0 <= i < ms.len() ==> by_id_of(ms).contains_key(#[trigger] ms[i].id),
    decreases ms.len(),
{
    if ms.len() > 0 {
        lemma_by_id_has_ids(ms.drop_last());
        assert forall|i: int| 0 <= i < ms.len() implies by_id_of(ms).contains_key(#[trigger] ms[i].id) by {
            if i < ms.len() - 1 {
                assert(ms.drop_last()[i] == ms[i]);
            }
        }
    }
}

/// Any surface spelling the index holds resolves to a morpheme it holds.
pub proof fn lemma_canonical_resolves(idx: IndexModel, ms: Seq<MorphemeModel>, f: Seq<char>)
    requires
        built_from(idx, ms),
        ids_settled(ms),
        idx.prefixes.contains(f) || idx.suffixes.contains(f) || idx.roots.contains(f),
    ensures
        idx.by_id.contains_key(canonical_of(idx, f)),
{
    lemma_by_id_has_ids(ms);
    let k = if idx.prefixes.contains(f) {
        MorphemeKind::Prefix
    } else if idx.suffixes.contains(f) {
        MorphemeKind::Suffix
    } else {
        MorphemeKind::Root
    };
    assert(surfaces(ms, k).contains(f));
    if !idx.by_id.contains_key(lowercase(f)) {
        if form_recorded(ms, k, f) {
            let i = choose|i: int| 0 <= i < ms.len() && ms[i].positions.contains(k) && lowercase(ms[i].form) == f;
            assert(ms[i].id == f);
            assert(lowercase(f) == f);
            assert(by_id_of(ms).contains_key(ms[i].id));
        } else {
            assert(variant_recorded(ms, id_set(ms), k, f));
            assert(idx.canonical.contains_key(f));
            assert(owns_variant(ms, idx.canonical[f], f));
            let (i, j) = choose|i: int, j: int| variant_of(ms, i, j, f) && ms[i].id == idx.canonical[f];
            assert(by_id_of(ms).contains_key(ms[i].id));
        }
    }
}

/// How a surface form matches the root slot using only listed forms.
pub open spec fn listed_match(idx: IndexModel, f: Seq<char>) -> Option<RootMatch> {
    if idx.roots.contains(f) {
        Some(RootMatch::Attested)
    } else if f.len() >= MIN_FALLBACK_ROOT_LEN && (idx.prefixes.contains(f) || idx.suffixes.contains(f)) {
        Some(RootMatch::AffixOnly)
    } else {
        None
    }
}

/// The morpheme a surface form realizes: itself (lowercased) when that is an
/// id, else the morpheme listing it as a variant, else itself.
pub open spec fn canonical_of(idx: IndexModel, f: Seq<char>) -> Seq<char> {
    if idx.by_id.contains_key(lowercase(f)) {
        lowercase(f)
    } else if idx.canonical.contains_key(f) {
        idx.canonical[f]
    } else {
        lowercase(f)
    }
}

/// The first proposed underlying form that is an attested root.
pub open spec fn first_attested(idx: IndexModel, d: Seq<(Seq<char>, OrthoRule)>) -> Option<(Seq<char>, OrthoRule)>
    decreases d.len(),
{
    if d.len() == 0 {
        None
    } else if idx.roots.contains(d[0].0) {
        Some(d[0])
    } else {
        first_attested(idx, d.drop_first())
    }
}

/// The first proposed underlying form that can stand in as an affix-only root.
pub open spec fn first_affix_only(idx: IndexModel, d: Seq<(Seq<char>, OrthoRule)>) -> Option<(Seq<char>, OrthoRule)>
    decreases d.len(),
{
    if d.len() == 0 {
        None
    } else if listed_match(idx, d[0].0) == Some(RootMatch::AffixOnly) {
        Some(d[0])
    } else {
        first_affix_only(idx, d.drop_first())
    }
}

/// The best reading of the root slot `f`: a listed form beats a
/// spelling-derived one, and an attested root beats an affix-only stand-in.
/// The literal reading is only offered when `f` has at least `min_literal`
/// characters.
pub open spec fn root_hit(idx: IndexModel, f: Seq<char>, next: Option<char>, min_literal: nat) -> Option<
    (Seq<char>, RootMatch, Option<OrthoRule>),
> {
    let literal = if f.len() >= min_literal { listed_match(idx, f) } else { None };
    if literal == Some(RootMatch::Attested) {
        Some((canonical_of(idx, f), RootMatch::Attested, None))
    } else {
        let d = underlying_forms(f, next);
        match first_attested(idx, d) {
            Some(p) => Some((canonical_of(idx, p.0), RootMatch::Attested, Some(p.1))),
            None => if literal is Some {
                Some((canonical_of(idx, f), RootMatch::AffixOnly, None))
            } else {
                match first_affix_only(idx, d) {
                    Some(p) => Some((canonical_of(idx, p.0), RootMatch::AffixOnly, Some(p.1))),
                    None => None,
                }
            },
        }
    }
}

/// Reading a root slot as written: a listed root long enough to be read
/// literally is an attested root with no spelling rule; a form of at least
/// [`MIN_FALLBACK_ROOT_LEN`] characters listed only as a prefix or a suffix
/// still stands in as a root; and a reading with no spelling rule only ever
/// comes from one of those two cases.
pub proof fn lemma_root_slot_reads(idx: IndexModel, f: Seq<char>, next: Option<char>, min_literal: nat)
    ensures
        f.len() >= min_literal && idx.roots.contains(f) ==> root_hit(idx, f, next, min_literal) == Some(
            (canonical_of(idx, f), RootMatch::Attested, None::<OrthoRule>),
        ),
        f.len() >= min_literal && f.len() >= MIN_FALLBACK_ROOT_LEN && !idx.roots.contains(f) && (idx.prefixes.contains(f)
            || idx.suffixes.contains(f)) ==> (root_hit(idx, f, next, min_literal) matches Some(h) && (h.1
            == RootMatch::AffixOnly || h.1 == RootMatch::Attested)),
        root_hit(idx, f, next, min_literal) matches Some(h) ==> (h.2 is None ==> f.len() >= min_literal && h.0
            == canonical_of(idx, f) && (idx.roots.contains(f) || (f.len() >= MIN_FALLBACK_ROOT_LEN && h.1
            == RootMatch::AffixOnly && (idx.prefixes.contains(f) || idx.suffixes.contains(f))))),
{
    let d = underlying_forms(f, next);
    lemma_first_attested_rule(idx, d);
    lemma_first_affix_only_rule(idx, d);
}

proof fn lemma_first_attested_rule(idx: IndexModel, d: Seq<(Seq<char>, OrthoRule)>)
    ensures
        first_attested(idx, d) matches Some(p) ==> d.contains(p),
    decreases d.len(),
{
    if d.len() > 0 && !idx.roots.contains(d[0].0) {
        lemma_first_attested_rule(idx, d.drop_first());
        if first_attested(idx, d) is Some {
            let p = first_attested(idx, d)->0;
            let i = choose|i: int| 0 <= i < d.drop_first().len() && d.drop_first()[i] == p;
            assert(d[i + 1] == p);
        }
    } else if d.len() > 0 {
        assert(d[0] == d[0]);
    }
}

proof fn lemma_first_affix_only_rule(idx: IndexModel, d: Seq<(Seq<char>, OrthoRule)>)
    ensures
        first_affix_only(idx, d) matches Some(p) ==> d.contains(p),
    decreases d.len(),
{
    if d.len() > 0 && listed_match(idx, d[0].0) != Some(RootMatch::AffixOnly) {
        lemma_first_affix_only_rule(idx, d.drop_first());
        if first_affix_only(idx, d) is Some {
            let p = first_affix_only(idx, d)->0;
            let i = choose|i: int| 0 <= i < d.drop_first().len() && d.drop_first()[i] == p;
            assert(d[i + 1] == p);
        }
    } else if d.len() > 0 {
        assert(d[0] == d[0]);
    }
}

pub open spec fn hit_view(h: Option<RootHit>) -> Option<(Seq<char>, RootMatch, Option<OrthoRule>)> {
    match h {
        Some(x) => Some(x@),
        None => None,
    }
}

/// Position-keyed form sets built once from the full morpheme table.
pub struct MorphemeIndex {
    by_id: StringHashMap<Morpheme>,
    prefixes: StringHashMap<()>,
    suffixes: StringHashMap<()>,
    roots: StringHashMap<()>,
    canonical: StringHashMap<MorphemeId>,
    max_prefix_len: usize,
    max_suffix_len: usize,
}

impl View for MorphemeIndex {
    type V = IndexModel;

    closed spec fn view(&self) -> IndexModel {
        IndexModel {
            by_id: self.by_id@.map_values(|m: Morpheme| m@),
            prefixes: self.prefixes@.dom(),
            suffixes: self.suffixes@.dom(),
            roots: self.roots@.dom(),
            canonical: self.canonical@.map_values(|id: MorphemeId| id@),
            max_prefix_len: self.max_prefix_len as nat,
            max_suffix_len: self.max_suffix_len as nat,
        }
    }
}

/// The sets grown so far: every morpheme's own form, plus the variants of
/// the first `upto` morphemes.
spec fn sets_upto(idx: IndexModel, ms: Seq<MorphemeModel>, ids: Set<Seq<char>>, upto: int) -> bool {
    &&& idx.prefixes == Set::new(|s: Seq<char>| form_recorded(ms, MorphemeKind::Prefix, s) || variant_recorded(ms.take(upto), ids, MorphemeKind::Prefix, s))
    &&& idx.suffixes == Set::new(|s: Seq<char>| form_recorded(ms, MorphemeKind::Suffix, s) || variant_recorded(ms.take(upto), ids, MorphemeKind::Suffix, s))
    &&& idx.roots == Set::new(|s: Seq<char>| form_recorded(ms, MorphemeKind::Root, s) || variant_recorded(ms.take(upto), ids, MorphemeKind::Root, s))
    &&& is_max_len(idx.prefixes, idx.max_prefix_len)
    &&& is_max_len(idx.suffixes, idx.max_suffix_len)
}

impl MorphemeIndex {
    /// Builds the index: each morpheme's own form first, then its variants
    /// (which occupy the same positions as the morpheme they realize).
    pub fn build(morphemes: Vec<Morpheme>) -> (r: Self)
        ensures
            built_from(r@, models(morphemes@)),
    {
        let ghost ms = models(morphemes@);
        let mut index = MorphemeIndex {
            by_id: StringHashMap::new(),
            prefixes: StringHashMap::new(),
            suffixes: StringHashMap::new(),
            roots: StringHashMap::new(),
            canonical: StringHashMap::new(),
            max_prefix_len: 0,
            max_suffix_len: 0,
        };
        // Pass 1: canonical forms, so a morpheme's own form always wins the
        // surface that spells it.
        let mut i: usize = 0;
        while i < morphemes.len()
            invariant
                i <= morphemes@.len(),
                ms == models(morphemes@),
                index@.prefixes == Set::new(|s: Seq<char>| form_recorded(ms.take(i as int), MorphemeKind::Prefix, s)),
                index@.suffixes == Set::new(|s: Seq<char>| form_recorded(ms.take(i as int), MorphemeKind::Suffix, s)),
                index@.roots == Set::new(|s: Seq<char>| form_recorded(ms.take(i as int), MorphemeKind::Root, s)),
                is_max_len(index@.prefixes, index@.max_prefix_len),
                is_max_len(index@.suffixes, index@.max_suffix_len),
                index@.canonical == Map::<Seq<char>, Seq<char>>::empty(),
                index@.by_id == Map::<Seq<char>, MorphemeModel>::empty(),
            decreases morphemes@.len() - i,
        {
            let m = &morphemes[i];
            let surface = to_lowercase(m.form.as_str());
            let ghost old_idx = index@;
            index.record_surface(&surface, m.positions.contains(MorphemeKind::Prefix),
                m.positions.contains(MorphemeKind::Suffix), m.positions.contains(MorphemeKind::Root));
            proof {
                let t = ms.take(i + 1);
                assert(t.drop_last() == ms.take(i as int));
                assert(t.last() == ms[i as int]);
                assert forall|k: MorphemeKind, s: Seq<char>| form_recorded(t, k, s) == (form_recorded(ms.take(i as int), k, s)
                    || (ms[i as int].positions.contains(k) && lowercase(ms[i as int].form) == s)) by {
                    if form_recorded(t, k, s) {
                        let w = choose|w: int| 0 <= w < t.len() && t[w].positions.contains(k) && lowercase(t[w].form) == s;
                        if w < i {
                            assert(ms.take(i as int)[w] == t[w]);
                        }
                    }
                    if form_recorded(ms.take(i as int), k, s) {
                        let w = choose|w: int| 0 <= w < i && ms.take(i as int)[w].positions.contains(k) && lowercase(ms.take(i as int)[w].form) == s;
                        assert(t[w] == ms.take(i as int)[w]);
                    }
                    if ms[i as int].positions.contains(k) && lowercase(ms[i as int].form) == s {
                        assert(t[i as int] == ms[i as int]);
                    }
                }
                assert(index@.prefixes =~= Set::new(|s: Seq<char>| form_recorded(t, MorphemeKind::Prefix, s)));
                assert(index@.suffixes =~= Set::new(|s: Seq<char>| form_recorded(t, MorphemeKind::Suffix, s)));
                assert(index@.roots =~= Set::new(|s: Seq<char>| form_recorded(t, MorphemeKind::Root, s)));
            }
            i = i + 1;
        }
        assert(ms.take(morphemes@.len() as int) == ms);

        // The set of ids, so a variant that is itself a morpheme is skipped.
        let mut ids: StringHashMap<()> = StringHashMap::new();
        let mut i: usize = 0;
        while i < morphemes.len()
            invariant
                i <= morphemes@.len(),
                ms == models(morphemes@),
                ids@.dom() == id_set(ms.take(i as int)),
            decreases morphemes@.len() - i,
        {
            ids.insert(morphemes[i].id.0.clone(), ());
            proof {
                let t = ms.take(i + 1);
                assert forall|s: Seq<char>| #[trigger] id_set(t).contains(s) == (id_set(ms.take(i as int)).contains(s) || ms[i as int].id == s) by {
                    if id_set(t).contains(s) {
                        let w = choose|w: int| 0 <= w < t.len() && t[w].id == s;
                        if w < i {
                            assert(ms.take(i as int)[w] == t[w]);
                        }
                    }
                    if id_set(ms.take(i as int)).contains(s) {
                        let w = choose|w: int| 0 <= w < i && ms.take(i as int)[w].id == s;
                        assert(t[w] == ms.take(i as int)[w]);
                    }
                    if ms[i as int].id == s {
                        assert(t[i as int] == ms[i as int]);
                    }
                }
                assert(ids@.dom() =~= id_set(t));
            }
            i = i + 1;
        }
        let ghost id_s = id_set(ms);

        // Pass 2: variants.
        let mut i: usize = 0;
        assert(ms.take(0) =~= Seq::<MorphemeModel>::empty());
        assert(index@.prefixes =~= Set::new(|s: Seq<char>| form_recorded(ms, MorphemeKind::Prefix, s) || variant_recorded(ms.take(0), id_s, MorphemeKind::Prefix, s)));
        assert(index@.suffixes =~= Set::new(|s: Seq<char>| form_recorded(ms, MorphemeKind::Suffix, s) || variant_recorded(ms.take(0), id_s, MorphemeKind::Suffix, s)));
        assert(index@.roots =~= Set::new(|s: Seq<char>| form_recorded(ms, MorphemeKind::Root, s) || variant_recorded(ms.take(0), id_s, MorphemeKind::Root, s)));
        while i < morphemes.len()
            invariant
                i <= morphemes@.len(),
                ms == models(morphemes@),
                ids@.dom() == id_s,
                id_s == id_set(ms),
                sets_upto(index@, ms, id_s, i as int),
                canonical_ok(ms.take(i as int), id_s, index@.canonical),
                index@.by_id == Map::<Seq<char>, MorphemeModel>::empty(),
            decreases morphemes@.len() - i,
        {
            index.record_variants(&morphemes[i], &ids, Ghost(ms), Ghost(id_s), Ghost(i as int));
            i = i + 1;
        }
        assert(ms.take(morphemes@.len() as int) == ms);
        assert(index@.prefixes =~= surfaces(ms, MorphemeKind::Prefix));
        assert(index@.suffixes =~= surfaces(ms, MorphemeKind::Suffix));
        assert(index@.roots =~= surfaces(ms, MorphemeKind::Root));

        // Last: the table itself, a later morpheme replacing an earlier one
        // with the same id.
        let ghost mv = morphemes@;
        let mut n: usize = 0;
        for m in it: morphemes
            invariant
                it.seq() == mv,
                ms == models(mv),
                index@.by_id == by_id_of(ms.take(it.index() as int)),
                sets_upto(index@, ms, id_s, ms.len() as int),
                canonical_ok(ms, id_s, index@.canonical),
                index@.prefixes == surfaces(ms, MorphemeKind::Prefix),
                index@.suffixes == surfaces(ms, MorphemeKind::Suffix),
                index@.roots == surfaces(ms, MorphemeKind::Root),
        {
            let ghost k = it.index();
            let key = m.id.0.clone();
            let ghost before = index.by_id@;
            index.by_id.insert(key, m);
            proof {
                let t = ms.take(k + 1);
                assert(t.drop_last() =~= ms.take(k));
                assert(t.last() == ms[k]);
                assert(mv[k]@ == ms[k]);
                assert(index@.by_id =~= by_id_of(t));
            }
        }
        assert(ms.take(ms.len() as int) == ms);
        index
    }

    pub fn get(&self, id: &MorphemeId) -> (r: Option<&Morpheme>)
        ensures
            match r {
                Some(m) => self@.by_id.contains_key(id@) && m@ == self@.by_id[id@],
                None => !self@.by_id.contains_key(id@),
            },
    {
        self.by_id.get(id.as_str())
    }

    pub fn max_prefix_len(&self) -> (r: usize)
        ensures
            r == self@.max_prefix_len,
    {
        self.max_prefix_len
    }

    pub fn max_suffix_len(&self) -> (r: usize)
        ensures
            r == self@.max_suffix_len,
    {
        self.max_suffix_len
    }

    pub fn is_prefix(&self, form_lc: &str) -> (r: bool)
        ensures
            r == self@.prefixes.contains(form_lc@),
    {
        self.prefixes.contains_key(form_lc)
    }

    pub fn is_suffix(&self, form_lc: &str) -> (r: bool)
        ensures
            r == self@.suffixes.contains(form_lc@),
    {
        self.suffixes.contains_key(form_lc)
    }

    /// The morpheme a surface form realizes. Falls back to treating the
    /// surface as its own id, which is the answer for every form that is not
    /// a listed variant.
    pub fn canonical_id(&self, form_lc: &str) -> (r: MorphemeId)
        ensures
            r@ == canonical_of(self@, form_lc@),
    {
        let direct = MorphemeId::new(form_lc);
        if self.by_id.contains_key(direct.as_str()) {
            return direct;
        }
        match self.canonical.get(form_lc) {
            Some(id) => id.clone(),
            None => direct,
        }
    }

    /// Exact root lookup: only forms a source actually called a root.
    pub fn root_id(&self, form_lc: &str) -> (r: Option<MorphemeId>)
        ensures
            match r {
                Some(id) => self@.roots.contains(form_lc@) && id@ == canonical_of(self@, form_lc@),
                None => !self@.roots.contains(form_lc@),
            },
    {
        if self.roots.contains_key(form_lc) {
            Some(self.canonical_id(form_lc))
        } else {
            None
        }
    }

    /// How a surface form matches the root slot using only listed forms.
    fn match_listed(&self, form_lc: &str) -> (r: Option<RootMatch>)
        ensures
            r == listed_match(self@, form_lc@),
    {
        if self.roots.contains_key(form_lc) {
            return Some(RootMatch::Attested);
        }
        let long_enough = form_lc.unicode_len() >= MIN_FALLBACK_ROOT_LEN;
        if long_enough && (self.prefixes.contains_key(form_lc) || self.suffixes.contains_key(form_lc)) {
            return Some(RootMatch::AffixOnly);
        }
        None
    }

    /// Root lookup for segmentation.
    ///
    /// `next_initial` is the first character of the suffix that follows the
    /// root, or `None` if the root ends the word; it gates which spelling
    /// rules could have applied. `min_literal_len` is the shortest surface
    /// accepted as written; below it only a spelling-derived reading is
    /// offered.
    pub fn match_root(&self, form_lc: &str, next_initial: Option<char>, min_literal_len: usize) -> (r: Option<RootHit>)
        ensures
            hit_view(r) == root_hit(self@, form_lc@, next_initial, min_literal_len as nat),
            form_lc@.len() >= min_literal_len && self@.roots.contains(form_lc@) ==> (r matches Some(h) && h.quality
                == RootMatch::Attested && h.rule is None),
            form_lc@.len() >= min_literal_len && form_lc@.len() >= MIN_FALLBACK_ROOT_LEN && (self@.prefixes.contains(
                form_lc@,
            ) || self@.suffixes.contains(form_lc@)) ==> r is Some,
    {
        proof {
            lemma_root_slot_reads(self@, form_lc@, next_initial, min_literal_len as nat);
        }
        let literal = if form_lc.unicode_len() >= min_literal_len {
            self.match_listed(form_lc)
        } else {
            None
        };
        if literal == Some(RootMatch::Attested) {
            return Some(RootHit { id: self.canonical_id(form_lc), quality: RootMatch::Attested, rule: None });
        }
        let chars = str_chars(form_lc);
        let derived = underlying_candidates_of(chars.as_slice(), next_initial);
        let ghost d = underlying_forms(form_lc@, next_initial);
        assert(forms_view(derived@) == d);
        assert(d.skip(0) == d);
        let ghost lit = if form_lc@.len() >= min_literal_len as nat { listed_match(self@, form_lc@) } else { None };
        let mut k: usize = 0;
        while k < derived.len()
            invariant
                k <= derived@.len(),
                forms_view(derived@) == d,
                d == underlying_forms(form_lc@, next_initial),
                literal == lit,
                lit == (if form_lc@.len() >= min_literal_len as nat { listed_match(self@, form_lc@) } else { None }),
                literal != Some(RootMatch::Attested),
                first_attested(self@, d) == first_attested(self@, d.skip(k as int)),
            decreases derived@.len() - k,
        {
            proof {
                assert(d.skip(k as int)[0] == d[k as int]);
                assert(d.skip(k as int).drop_first() == d.skip(k + 1));
            }
            assert(derived@[k as int].0@ == d[k as int].0);
            if self.roots.contains_key(derived[k].0.as_str()) {
                return Some(RootHit {
                    id: self.canonical_id(derived[k].0.as_str()),
                    quality: RootMatch::Attested,
                    rule: Some(derived[k].1),
                });
            }
            k = k + 1;
        }
        assert(d.skip(derived@.len() as int) =~= Seq::<(Seq<char>, OrthoRule)>::empty());
        if literal.is_some() {
            return Some(RootHit { id: self.canonical_id(form_lc), quality: RootMatch::AffixOnly, rule: None });
        }
        let mut k: usize = 0;
        while k < derived.len()
            invariant
                k <= derived@.len(),
                forms_view(derived@) == d,
                d == underlying_forms(form_lc@, next_initial),
                literal is None,
                lit is None,
                lit == (if form_lc@.len() >= min_literal_len as nat { listed_match(self@, form_lc@) } else { None }),
                first_attested(self@, d) is None,
                first_affix_only(self@, d) == first_affix_only(self@, d.skip(k as int)),
            decreases derived@.len() - k,
        {
            proof {
                assert(d.skip(k as int)[0] == d[k as int]);
                assert(d.skip(k as int).drop_first() == d.skip(k + 1));
            }
            assert(derived@[k as int].0@ == d[k as int].0);
            if self.match_listed(derived[k].0.as_str()) == Some(RootMatch::AffixOnly) {
                return Some(RootHit {
                    id: self.canonical_id(derived[k].0.as_str()),
                    quality: RootMatch::AffixOnly,
                    rule: Some(derived[k].1),
                });
            }
            k = k + 1;
        }
        assert(d.skip(derived@.len() as int) =~= Seq::<(Seq<char>, OrthoRule)>::empty());
        None
    }

    /// Files one surface spelling into the position-keyed sets.
    fn record_surface(&mut self, surface_lc: &String, prefix: bool, suffix: bool, root: bool)
        ensures
            final(self)@.prefixes == (if prefix { old(self)@.prefixes.insert(surface_lc@) } else { old(self)@.prefixes }),
            final(self)@.suffixes == (if suffix { old(self)@.suffixes.insert(surface_lc@) } else { old(self)@.suffixes }),
            final(self)@.roots == (if root { old(self)@.roots.insert(surface_lc@) } else { old(self)@.roots }),
            final(self)@.by_id == old(self)@.by_id,
            final(self)@.canonical == old(self)@.canonical,
            is_max_len(old(self)@.prefixes, old(self)@.max_prefix_len) ==> is_max_len(final(self)@.prefixes, final(self)@.max_prefix_len),
            is_max_len(old(self)@.suffixes, old(self)@.max_suffix_len) ==> is_max_len(final(self)@.suffixes, final(self)@.max_suffix_len),
    {
        let len = surface_lc.as_str().unicode_len();
        if prefix {
            if len > self.max_prefix_len {
                self.max_prefix_len = len;
            }
            self.prefixes.insert(surface_lc.clone(), ());
        }
        if suffix {
            if len > self.max_suffix_len {
                self.max_suffix_len = len;
            }
            self.suffixes.insert(surface_lc.clone(), ());
        }
        if root {
            self.roots.insert(surface_lc.clone(), ());
        }
        proof {
            assert(self@.by_id =~= old(self)@.by_id);
            assert(self@.canonical =~= old(self)@.canonical);
            let o = old(self)@;
            let f = self@;
            if is_max_len(o.prefixes, o.max_prefix_len) && prefix {
                assert forall|s: Seq<char>| #[trigger] f.prefixes.contains(s) implies s.len() <= f.max_prefix_len by {
                    if s != surface_lc@ {
                        assert(o.prefixes.contains(s));
                    }
                }
                if f.max_prefix_len != 0 {
                    if f.max_prefix_len == surface_lc@.len() {
                        assert(f.prefixes.contains(surface_lc@));
                    } else {
                        let w = choose|w: Seq<char>| #[trigger] o.prefixes.contains(w) && w.len() == o.max_prefix_len;
                        assert(f.prefixes.contains(w));
                    }
                }
            }
            if is_max_len(o.suffixes, o.max_suffix_len) && suffix {
                assert forall|s: Seq<char>| #[trigger] f.suffixes.contains(s) implies s.len() <= f.max_suffix_len by {
                    if s != surface_lc@ {
                        assert(o.suffixes.contains(s));
                    }
                }
                if f.max_suffix_len != 0 {
                    if f.max_suffix_len == surface_lc@.len() {
                        assert(f.suffixes.contains(surface_lc@));
                    } else {
                        let w = choose|w: Seq<char>| #[trigger] o.suffixes.contains(w) && w.len() == o.max_suffix_len;
                        assert(f.suffixes.contains(w));
                    }
                }
            }
        }
    }

    /// Files the variants of `m`, the morpheme at position `at` of `ms`.
    fn record_variants(
        &mut self,
        m: &Morpheme,
        ids: &StringHashMap<()>,
        Ghost(ms): Ghost<Seq<MorphemeModel>>,
        Ghost(id_s): Ghost<Set<Seq<char>>>,
        Ghost(at): Ghost<int>,
    )
        requires
            0 <= at < ms.len(),
            ms[at] == m@,
            ids@.dom() == id_s,
            sets_upto(old(self)@, ms, id_s, at),
            canonical_ok(ms.take(at), id_s, old(self)@.canonical),
        ensures
            sets_upto(final(self)@, ms, id_s, at + 1),
            canonical_ok(ms.take(at + 1), id_s, final(self)@.canonical),
            final(self)@.by_id == old(self)@.by_id,
    {
        let ghost pre = ms.take(at);
        let ghost vs = m@.variants;
        proof {
            lemma_str_lt_order();
            assert forall|k: MorphemeKind, s: Seq<char>| #![trigger set_of(self@, k).contains(s)]
                set_of(self@, k).contains(s) == (form_recorded(ms, k, s) || variant_recorded(pre, id_s, k, s)
                    || (!id_s.contains(s) && m@.positions.contains(k) && among_first(vs, 0, s))) by {
                match k {
                    MorphemeKind::Prefix => {},
                    MorphemeKind::Suffix => {},
                    MorphemeKind::Root => {},
                }
            }
        }
        let mut j: usize = 0;
        while j < m.variants.len()
            invariant
                0 <= at < ms.len(),
                ms[at] == m@,
                pre == ms.take(at),
                vs == m@.variants,
                ids@.dom() == id_s,
                j <= m.variants@.len(),
                self@.by_id == old(self)@.by_id,
                is_max_len(self@.prefixes, self@.max_prefix_len),
                is_max_len(self@.suffixes, self@.max_suffix_len),
                forall|k: MorphemeKind, s: Seq<char>| #![trigger set_of(self@, k).contains(s)]
                    set_of(self@, k).contains(s) == (form_recorded(ms, k, s) || variant_recorded(pre, id_s, k, s)
                        || (!id_s.contains(s) && m@.positions.contains(k) && among_first(vs, j as int, s))),
                forall|s: Seq<char>| #[trigger] self@.canonical.contains_key(s) <==> (!id_s.contains(s) && (
                    some_variant(pre, s) || among_first(vs, j as int, s))),
                forall|s: Seq<char>| #[trigger] self@.canonical.contains_key(s) ==> (owns_variant(pre, self@.canonical[s], s)
                    || (self@.canonical[s] == m@.id && among_first(vs, j as int, s))),
                forall|s: Seq<char>, id: Seq<char>| self@.canonical.contains_key(s) && #[trigger] owns_variant(pre, id, s)
                    ==> !str_lt(id, self@.canonical[s]),
                forall|s: Seq<char>| #[trigger] self@.canonical.contains_key(s) && among_first(vs, j as int, s)
                    ==> !str_lt(m@.id, self@.canonical[s]),
            decreases m.variants@.len() - j,
        {
            let variant_lc = to_lowercase(m.variants[j].as_str());
            let ghost v = variant_lc@;
            proof {
                assert(v == lowercase(vs[j as int]));
                lemma_among_first_step(vs, j as int);
                lemma_str_lt_order();
            }
            if !ids.contains_key(variant_lc.as_str()) {
                let ghost before = self@;
                self.record_surface(&variant_lc, m.positions.contains(MorphemeKind::Prefix),
                    m.positions.contains(MorphemeKind::Suffix), m.positions.contains(MorphemeKind::Root));
                let ghost mid = self@;
                let owner = &m.id;
                let replace = match self.canonical.get(variant_lc.as_str()) {
                    None => true,
                    Some(existing) => {
                        let a = str_chars(owner.as_str());
                        let b = str_chars(existing.as_str());
                        chars_lt(a.as_slice(), b.as_slice())
                    },
                };
                if replace {
                    self.canonical.insert(variant_lc, owner.clone());
                }
                proof {
                    assert(mid.canonical == before.canonical);
                    assert(self@.prefixes == mid.prefixes);
                    assert(self@.suffixes == mid.suffixes);
                    assert(self@.roots == mid.roots);
                    assert forall|k: MorphemeKind, s: Seq<char>| #![trigger set_of(self@, k).contains(s)]
                        set_of(self@, k).contains(s) == (form_recorded(ms, k, s) || variant_recorded(pre, id_s, k, s)
                            || (!id_s.contains(s) && m@.positions.contains(k) && among_first(vs, j + 1, s))) by {
                        assert(set_of(before, k).contains(s) == (form_recorded(ms, k, s) || variant_recorded(pre, id_s, k, s)
                            || (!id_s.contains(s) && m@.positions.contains(k) && among_first(vs, j as int, s))));
                        match k {
                            MorphemeKind::Prefix => {},
                            MorphemeKind::Suffix => {},
                            MorphemeKind::Root => {},
                        }
                    }
                    if replace {
                        assert(self@.canonical == before.canonical.insert(v, m@.id));
                    } else {
                        assert(self@.canonical == before.canonical);
                        assert(before.canonical.contains_key(v));
                        assert(!str_lt(m@.id, before.canonical[v]));
                    }
                    assert forall|s: Seq<char>, id: Seq<char>| self@.canonical.contains_key(s) && #[trigger] owns_variant(pre, id, s)
                        implies !str_lt(id, self@.canonical[s]) by {
                        if s == v && replace {
                            if before.canonical.contains_key(s) {
                                assert(!str_lt(id, before.canonical[s]));
                            } else {
                                assert(some_variant(pre, s));
                            }
                        }
                    }
                }
            }
            j = j + 1;
        }
        proof {
            lemma_take_split(ms, at);
            let t = ms.take(at + 1);
            let n = vs.len() as int;
            assert forall|k: MorphemeKind, s: Seq<char>| variant_recorded(t, id_s, k, s) == (variant_recorded(pre, id_s, k, s)
                || (!id_s.contains(s) && m@.positions.contains(k) && among_first(vs, n, s))) by {
                if variant_recorded(t, id_s, k, s) {
                    let (i2, j2) = choose|i2: int, j2: int| variant_of(t, i2, j2, s) && t[i2].positions.contains(k);
                    if i2 < at {
                        assert(variant_of(pre, i2, j2, s));
                    } else {
                        assert(0 <= j2 < n && lowercase(vs[j2]) == s);
                    }
                }
                if variant_recorded(pre, id_s, k, s) {
                    let (i2, j2) = choose|i2: int, j2: int| variant_of(pre, i2, j2, s) && pre[i2].positions.contains(k);
                    assert(variant_of(t, i2, j2, s));
                }
                if !id_s.contains(s) && m@.positions.contains(k) && among_first(vs, n, s) {
                    let jj = choose|jj: int| 0 <= jj < n && lowercase(vs[jj]) == s;
                    assert(variant_of(t, at, jj, s));
                }
            }
            assert forall|id: Seq<char>, s: Seq<char>| #[trigger] owns_variant(t, id, s) == (owns_variant(pre, id, s)
                || (id == m@.id && among_first(vs, n, s))) by {
                if owns_variant(t, id, s) {
                    let (i2, j2) = choose|i2: int, j2: int| variant_of(t, i2, j2, s) && t[i2].id == id;
                    if i2 < at {
                        assert(variant_of(pre, i2, j2, s));
                    } else {
                        assert(0 <= j2 < n && lowercase(vs[j2]) == s);
                    }
                }
                if owns_variant(pre, id, s) {
                    let (i2, j2) = choose|i2: int, j2: int| variant_of(pre, i2, j2, s) && pre[i2].id == id;
                    assert(variant_of(t, i2, j2, s));
                }
                if id == m@.id && among_first(vs, n, s) {
                    let jj = choose|jj: int| 0 <= jj < n && lowercase(vs[jj]) == s;
                    assert(variant_of(t, at, jj, s));
                }
            }
            assert forall|s: Seq<char>| #[trigger] some_variant(t, s) == (some_variant(pre, s) || among_first(vs, n, s)) by {
                if some_variant(t, s) {
                    let (i2, j2) = choose|i2: int, j2: int| variant_of(t, i2, j2, s);
                    if i2 < at {
                        assert(variant_of(pre, i2, j2, s));
                    } else {
                        assert(0 <= j2 < n && lowercase(vs[j2]) == s);
                    }
                }
                if some_variant(pre, s) {
                    let (i2, j2) = choose|i2: int, j2: int| variant_of(pre, i2, j2, s);
                    assert(variant_of(t, i2, j2, s));
                }
                if among_first(vs, n, s) {
                    let jj = choose|jj: int| 0 <= jj < n && lowercase(vs[jj]) == s;
                    assert(variant_of(t, at, jj, s));
                }
            }
            assert forall|s: Seq<char>| #![trigger self@.prefixes.contains(s)] self@.prefixes.contains(s) == (form_recorded(ms, MorphemeKind::Prefix, s) || variant_recorded(t, id_s, MorphemeKind::Prefix, s)) by {
                assert(set_of(self@, MorphemeKind::Prefix).contains(s) == self@.prefixes.contains(s));
            }
            assert forall|s: Seq<char>| #![trigger self@.suffixes.contains(s)] self@.suffixes.contains(s) == (form_recorded(ms, MorphemeKind::Suffix, s) || variant_recorded(t, id_s, MorphemeKind::Suffix, s)) by {
                assert(set_of(self@, MorphemeKind::Suffix).contains(s) == self@.suffixes.contains(s));
            }
            assert forall|s: Seq<char>| #![trigger self@.roots.contains(s)] self@.roots.contains(s) == (form_recorded(ms, MorphemeKind::Root, s) || variant_recorded(t, id_s, MorphemeKind::Root, s)) by {
                assert(set_of(self@, MorphemeKind::Root).contains(s) == self@.roots.contains(s));
            }
            assert(self@.prefixes =~= Set::new(|s: Seq<char>| form_recorded(ms, MorphemeKind::Prefix, s) || variant_recorded(t, id_s, MorphemeKind::Prefix, s)));
            assert(self@.suffixes =~= Set::new(|s: Seq<char>| form_recorded(ms, MorphemeKind::Suffix, s) || variant_recorded(t, id_s, MorphemeKind::Suffix, s)));
            assert(self@.roots =~= Set::new(|s: Seq<char>| form_recorded(ms, MorphemeKind::Root, s) || variant_recorded(t, id_s, MorphemeKind::Root, s)));
            assert forall|s: Seq<char>| #[trigger] self@.canonical.contains_key(s) implies owns_variant(t, self@.canonical[s], s) by {
                assert(owns_variant(t, self@.canonical[s], s) == (owns_variant(pre, self@.canonical[s], s)
                    || (self@.canonical[s] == m@.id && among_first(vs, n, s))));
            }
            assert forall|s: Seq<char>, id: Seq<char>| self@.canonical.contains_key(s) && #[trigger] owns_variant(t, id, s)
                implies !str_lt(id, self@.canonical[s]) by {
                assert(owns_variant(t, id, s) == (owns_variant(pre, id, s) || (id == m@.id && among_first(vs, n, s))));
            }
        }
    }
}

proof fn lemma_among_first_step(vs: Seq<Seq<char>>, j: int)
    requires
        0 <= j < vs.len(),
    ensures
        forall|s: Seq<char>| #[trigger] among_first(vs, j + 1, s) == (among_first(vs, j, s) || lowercase(vs[j]) == s),
{
    assert forall|s: Seq<char>| #[trigger] among_first(vs, j + 1, s) == (among_first(vs, j, s) || lowercase(vs[j]) == s) by {
        if among_first(vs, j + 1, s) {
            let jj = choose|jj: int| 0 <= jj < j + 1 && lowercase(vs[jj]) == s;
            if jj < j {
                assert(among_first(vs, j, s));
            }
        }
        if among_first(vs, j, s) {
            let jj = choose|jj: int| 0 <= jj < j && lowercase(vs[jj]) == s;
            assert(0 <= jj < j + 1);
        }
    }
}

/// Splitting off the element at `at` from `ms.take(at + 1)`.
proof fn lemma_take_split(ms: Seq<MorphemeModel>, at: int)
    requires
        0 <= at < ms.len(),
    ensures
        ms.take(at + 1).len() == at + 1,
        ms.take(at + 1)[at] == ms[at],
        forall|i: int| 0 <= i < at ==> ms.take(at + 1)[i] == #[trigger] ms.take(at)[i],
{
}

/// The set filed under a position.
pub open spec fn set_of(idx: IndexModel, k: MorphemeKind) -> Set<Seq<char>> {
    match k {
        MorphemeKind::Prefix => idx.prefixes,
        MorphemeKind::Suffix => idx.suffixes,
        MorphemeKind::Root => idx.roots,
    }
}

/// Code-point order is a strict total order.
pub proof fn lemma_str_lt_order()
    ensures
        forall|a: Seq<char>| !#[trigger] str_lt(a, a),
        forall|a: Seq<char>, b: Seq<char>| a != b ==> #[trigger] str_lt(a, b) || str_lt(b, a),
        forall|a: Seq<char>, b: Seq<char>| #[trigger] str_lt(a, b) ==> !str_lt(b, a),
        forall|a: Seq<char>, b: Seq<char>, c: Seq<char>| #[trigger] str_lt(a, b) && #[trigger] str_lt(b, c) ==> str_lt(a, c),
{
    assert forall|a: Seq<char>| !#[trigger] str_lt(a, a) by {
        lemma_str_lt_irreflexive(a);
    }
    assert forall|a: Seq<char>, b: Seq<char>| a != b implies #[trigger] str_lt(a, b) || str_lt(b, a) by {
        lemma_str_lt_total(a, b);
    }
    assert forall|a: Seq<char>, b: Seq<char>| #[trigger] str_lt(a, b) implies !str_lt(b, a) by {
        lemma_str_lt_asymmetric(a, b);
    }
    assert forall|a: Seq<char>, b: Seq<char>, c: Seq<char>| #[trigger] str_lt(a, b) && #[trigger] str_lt(b, c) implies str_lt(a, c) by {
        lemma_str_lt_transitive(a, b, c);
    }
}

proof fn lemma_str_lt_irreflexive(a: Seq<char>)
    ensures
        !str_lt(a, a),
    decreases a.len(),
{
    if a.len() > 0 {
        lemma_str_lt_irreflexive(a.drop_first());
    }
}

proof fn lemma_str_lt_total(a: Seq<char>, b: Seq<char>)
    requires
        a != b,
    ensures
        str_lt(a, b) || str_lt(b, a),
    decreases a.len(),
{
    if a.len() > 0 && b.len() > 0 {
        if a[0] == b[0] {
            if a.drop_first() == b.drop_first() {
                assert(a =~= seq![a[0]] + a.drop_first());
                assert(b =~= seq![b[0]] + b.drop_first());
            }
            lemma_str_lt_total(a.drop_first(), b.drop_first());
        } else {
            assert((a[0] as u32) != (b[0] as u32)) by {
                vstd::utf8::char_u32_cast(a[0], a[0] as u32);
                vstd::utf8::char_u32_cast(b[0], b[0] as u32);
            }
        }
    } else if a.len() == 0 && b.len() == 0 {
        assert(a =~= b);
    }
}

proof fn lemma_str_lt_asymmetric(a: Seq<char>, b: Seq<char>)
    requires
        str_lt(a, b),
    ensures
        !str_lt(b, a),
    decreases a.len(),
{
    if a.len() > 0 && b.len() > 0 && a[0] == b[0] {
        lemma_str_lt_asymmetric(a.drop_first(), b.drop_first());
    }
}

proof fn lemma_str_lt_transitive(a: Seq<char>, b: Seq<char>, c: Seq<char>)
    requires
        str_lt(a, b),
        str_lt(b, c),
    ensures
        str_lt(a, c),
    decreases a.len(),
{
    if a.len() > 0 && b.len() > 0 && c.len() > 0 && a[0] == b[0] && b[0] == c[0] {
        lemma_str_lt_transitive(a.drop_first(), b.drop_first(), c.drop_first());
    }
}

} // verus!
