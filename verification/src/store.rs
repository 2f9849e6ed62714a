//! Turns the rows of a release database into an [`AnalyzerDb`]. Reading the
//! rows is the caller's job; this is where they are checked and assembled,
//! so the read path exists once for every host.

use vstd::hash_map::StringHashMap;
use vstd::prelude::*;

use crate::db::{decomps_view, precomputed_of, AnalyzerDb};
use crate::decomposition::{clone_refs, refs_view, DecompositionModel, MorphemeRef, WordDecomposition};
use crate::index::{built_from, models};
use crate::morpheme::{
    kind_from_name, positions_from_str, strings_view, Morpheme, MorphemeId, MorphemeKind, MorphemeModel,
    MorphemePositions,
};
use crate::provenance::{confidence_in_range, Provenance, ProvenanceModel};
use crate::text::{lowercase, owned, str_eq, string_from_chars};

verus! {

/// Table layout of the release database. Bumped when a change would stop
/// [`assemble`] from reading an older file; anything else is refused.
pub const RELEASE_SCHEMA_VERSION: u32 = 2;

/// The dataset's own version, independent of the schema version.
pub const RELEASE_DATA_VERSION: &'static str = "0.1.0";

/// `meta` key holding [`RELEASE_SCHEMA_VERSION`].
pub const META_SCHEMA_VERSION: &'static str = "schema_version";

/// `meta` key holding [`RELEASE_DATA_VERSION`].
pub const META_DATA_VERSION: &'static str = "data_version";

/// The character of a decimal digit.
pub open spec fn digit_char(d: nat) -> char {
    if d == 0 { '0' } else if d == 1 { '1' } else if d == 2 { '2' } else if d == 3 { '3' } else if d == 4 { '4' }
    else if d == 5 { '5' } else if d == 6 { '6' } else if d == 7 { '7' } else if d == 8 { '8' } else { '9' }
}

/// `n` written in decimal, without leading zeros.
pub open spec fn decimal(n: nat) -> Seq<char>
    decreases n,
{
    if n < 10 {
        seq![digit_char(n)]
    } else {
        decimal(n / 10).push(digit_char(n % 10))
    }
}

fn digit(d: u32) -> (r: char)
    requires
        d < 10,
    ensures
        r == digit_char(d as nat),
{
    match d {
        0 => '0',
        1 => '1',
        2 => '2',
        3 => '3',
        4 => '4',
        5 => '5',
        6 => '6',
        7 => '7',
        8 => '8',
        _ => '9',
    }
}

fn decimal_chars(n: u32) -> (r: Vec<char>)
    ensures
        r@ == decimal(n as nat),
    decreases n,
{
    if n < 10 {
        let mut v: Vec<char> = Vec::new();
        v.push(digit(n));
        assert(v@ =~= seq![digit_char(n as nat)]);
        v
    } else {
        let mut v = decimal_chars(n / 10);
        v.push(digit(n % 10));
        v
    }
}

/// `n` in decimal, as `u32::to_string` writes it.
pub fn decimal_text(n: u32) -> (r: String)
    ensures
        r@ == decimal(n as nat),
{
    let v = decimal_chars(n);
    string_from_chars(v.as_slice())
}

/// The `meta` rows a release database is stamped with: its schema version
/// and its data version.
pub fn release_meta() -> (r: Vec<(String, String)>)
    ensures
        r@.len() == 2,
        r@[0].0@ == META_SCHEMA_VERSION@,
        r@[0].1@ == decimal(RELEASE_SCHEMA_VERSION as nat),
        r@[1].0@ == META_DATA_VERSION@,
        r@[1].1@ == RELEASE_DATA_VERSION@,
{
    let mut r: Vec<(String, String)> = Vec::new();
    r.push((owned(META_SCHEMA_VERSION), decimal_text(RELEASE_SCHEMA_VERSION)));
    r.push((owned(META_DATA_VERSION), owned(RELEASE_DATA_VERSION)));
    r
}

/// One row of the `morphemes` table.
pub struct MorphemeRow {
    pub form: String,
    /// The storage string of the positions, e.g. `prefix|suffix`.
    pub positions: String,
    /// A JSON array of strings.
    pub meanings: String,
    /// A JSON array of strings.
    pub variants: String,
    /// The stored confidence as `f32` bits.
    pub confidence: u32,
    pub evidence: String,
}

pub struct MorphemeRowModel {
    pub form: Seq<char>,
    pub positions: Seq<char>,
    pub meanings: Seq<char>,
    pub variants: Seq<char>,
    pub confidence: u32,
    pub evidence: Seq<char>,
}

impl View for MorphemeRow {
    type V = MorphemeRowModel;

    open spec fn view(&self) -> MorphemeRowModel {
        MorphemeRowModel {
            form: self.form@,
            positions: self.positions@,
            meanings: self.meanings@,
            variants: self.variants@,
            confidence: self.confidence,
            evidence: self.evidence@,
        }
    }
}

/// One row of the `word_decomposition_segments` table.
pub struct SegmentRow {
    pub word: String,
    pub morpheme_id: String,
    pub role: String,
}

pub struct SegmentRowModel {
    pub word: Seq<char>,
    pub morpheme_id: Seq<char>,
    pub role: Seq<char>,
}

impl View for SegmentRow {
    type V = SegmentRowModel;

    open spec fn view(&self) -> SegmentRowModel {
        SegmentRowModel { word: self.word@, morpheme_id: self.morpheme_id@, role: self.role@ }
    }
}

/// One row of the `word_decompositions` table.
pub struct DecompositionRow {
    pub word: String,
    /// The stored confidence as `f32` bits.
    pub confidence: u32,
    pub evidence: String,
}

pub struct DecompositionRowModel {
    pub word: Seq<char>,
    pub confidence: u32,
    pub evidence: Seq<char>,
}

impl View for DecompositionRow {
    type V = DecompositionRowModel;

    open spec fn view(&self) -> DecompositionRowModel {
        DecompositionRowModel { word: self.word@, confidence: self.confidence, evidence: self.evidence@ }
    }
}

/// Why a release database was refused.
#[derive(Debug, PartialEq, Eq)]
pub enum LoadError {
    /// The file is not stamped with the schema version this build reads;
    /// carries what it is stamped with, if anything.
    SchemaVersion(Option<String>),
    /// A stored positions string does not parse.
    InvalidPositions(String),
    /// A meanings or variants column is not a JSON array of strings.
    NotAStringList(String),
    /// A stored confidence (as `f32` bits) is outside `0.0..=1.0`.
    ConfidenceOutOfRange(u32),
    /// A segment's role is not prefix/root/suffix.
    UnknownRole(String),
}

pub enum LoadErrorModel {
    SchemaVersion(Option<Seq<char>>),
    InvalidPositions(Seq<char>),
    NotAStringList(Seq<char>),
    ConfidenceOutOfRange(u32),
    UnknownRole(Seq<char>),
}

pub open spec fn opt_view(o: Option<String>) -> Option<Seq<char>> {
    match o {
        Some(s) => Some(s@),
        None => None,
    }
}

impl View for LoadError {
    type V = LoadErrorModel;

    open spec fn view(&self) -> LoadErrorModel {
        match self {
            LoadError::SchemaVersion(v) => LoadErrorModel::SchemaVersion(opt_view(*v)),
            LoadError::InvalidPositions(s) => LoadErrorModel::InvalidPositions(s@),
            LoadError::NotAStringList(s) => LoadErrorModel::NotAStringList(s@),
            LoadError::ConfidenceOutOfRange(c) => LoadErrorModel::ConfidenceOutOfRange(*c),
            LoadError::UnknownRole(s) => LoadErrorModel::UnknownRole(s@),
        }
    }
}

/// `serde_json::Error`, carried through as an opaque value: nothing inside
/// it is read.
#[verifier::external_type_specification]
#[verifier::external_body]
pub struct ExJsonError(serde_json::Error);

/// The strings `serde_json::from_str::<Vec<String>>` reads from a JSON
/// text, or `None` where it refuses the text.
pub uninterp spec fn json_string_list(text: Seq<char>) -> Option<Seq<Seq<char>>>;

/// Calls `serde_json::from_str::<Vec<String>>`, which reads JSON text as an
/// array of strings. Claims only that whether the text is accepted, and the
/// strings read from it, depend on the text alone; JSON's grammar is not
/// restated here.
#[verifier::external_body]
fn string_list_from_json(text: &str) -> (r: Result<Vec<String>, serde_json::Error>)
    ensures
        match r {
            Ok(v) => json_string_list(text@) == Some(strings_view(v@)),
            Err(_) => json_string_list(text@) is None,
        },
{
    serde_json::from_str(text)
}

pub open spec fn opt_strings(o: Option<Vec<String>>) -> Option<Seq<Seq<char>>> {
    match o {
        Some(v) => Some(strings_view(v@)),
        None => None,
    }
}

/// The morpheme a row holds, given what its meanings and variants columns
/// read as: the positions are checked first, then the meanings, the
/// variants and the confidence.
pub open spec fn morpheme_record(
    row: MorphemeRowModel,
    meanings: Option<Seq<Seq<char>>>,
    variants: Option<Seq<Seq<char>>>,
) -> Result<MorphemeModel, LoadErrorModel> {
    match positions_from_str(row.positions) {
        None => Err(LoadErrorModel::InvalidPositions(row.positions)),
        Some(ps) => match meanings {
            None => Err(LoadErrorModel::NotAStringList(row.meanings)),
            Some(mv) => match variants {
                None => Err(LoadErrorModel::NotAStringList(row.variants)),
                Some(vv) => if !confidence_in_range(row.confidence) {
                    Err(LoadErrorModel::ConfidenceOutOfRange(row.confidence))
                } else {
                    Ok(
                        MorphemeModel {
                            id: lowercase(row.form),
                            form: row.form,
                            positions: ps,
                            meanings: mv,
                            variants: vv,
                            provenance: ProvenanceModel { confidence: row.confidence, evidence: row.evidence },
                        },
                    )
                },
            },
        },
    }
}

/// Builds the morpheme a row holds, given what its meanings and variants
/// columns were read as (`None` where they are not string lists).
pub fn record_morpheme(row: &MorphemeRow, meanings: Option<Vec<String>>, variants: Option<Vec<String>>) -> (r: Result<
    Morpheme,
    LoadError,
>)
    ensures
        match r {
            Ok(m) => morpheme_record(row@, opt_strings(meanings), opt_strings(variants)) == Ok::<MorphemeModel, LoadErrorModel>(m@),
            Err(e) => morpheme_record(row@, opt_strings(meanings), opt_strings(variants)) == Err::<MorphemeModel, LoadErrorModel>(e@),
        },
{
    let positions = match MorphemePositions::parse(row.positions.as_str()) {
        Ok(p) => p,
        Err(_) => {
            return Err(LoadError::InvalidPositions(row.positions.clone()));
        },
    };
    let meanings = match meanings {
        Some(v) => v,
        None => {
            return Err(LoadError::NotAStringList(row.meanings.clone()));
        },
    };
    let variants = match variants {
        Some(v) => v,
        None => {
            return Err(LoadError::NotAStringList(row.variants.clone()));
        },
    };
    let provenance = match Provenance::new(row.confidence, row.evidence.clone()) {
        Ok(p) => p,
        Err(_) => {
            return Err(LoadError::ConfidenceOutOfRange(row.confidence));
        },
    };
    Ok(Morpheme::with_variants(row.form.as_str(), positions, meanings, variants, provenance))
}

/// Reads one `morphemes` row.
fn read_morpheme(row: &MorphemeRow) -> (r: Result<Morpheme, LoadError>)
    ensures
        match r {
            Ok(m) => morpheme_record(row@, json_string_list(row.meanings@), json_string_list(row.variants@))
                == Ok::<MorphemeModel, LoadErrorModel>(m@),
            Err(e) => morpheme_record(row@, json_string_list(row.meanings@), json_string_list(row.variants@))
                == Err::<MorphemeModel, LoadErrorModel>(e@),
        },
{
    let meanings = match string_list_from_json(row.meanings.as_str()) {
        Ok(v) => Some(v),
        Err(_) => None,
    };
    let variants = match string_list_from_json(row.variants.as_str()) {
        Ok(v) => Some(v),
        Err(_) => None,
    };
    record_morpheme(row, meanings, variants)
}

pub open spec fn morpheme_rows_view(v: Seq<MorphemeRow>) -> Seq<MorphemeRowModel> {
    v.map_values(|r: MorphemeRow| r@)
}

pub open spec fn segment_rows_view(v: Seq<SegmentRow>) -> Seq<SegmentRowModel> {
    v.map_values(|r: SegmentRow| r@)
}

pub open spec fn decomposition_rows_view(v: Seq<DecompositionRow>) -> Seq<DecompositionRowModel> {
    v.map_values(|r: DecompositionRow| r@)
}

/// The morphemes the rows hold, in row order; the first bad row refuses
/// them all.
pub open spec fn morphemes_loaded(rows: Seq<MorphemeRowModel>) -> Result<Seq<MorphemeModel>, LoadErrorModel>
    decreases rows.len(),
{
    if rows.len() == 0 {
        Ok(Seq::empty())
    } else {
        match morphemes_loaded(rows.drop_last()) {
            Err(e) => Err(e),
            Ok(ms) => match morpheme_record(
                rows.last(),
                json_string_list(rows.last().meanings),
                json_string_list(rows.last().variants),
            ) {
                Ok(m) => Ok(ms.push(m)),
                Err(e) => Err(e),
            },
        }
    }
}

/// Every segment row names a role; otherwise the first that does not.
pub open spec fn roles_checked(rows: Seq<SegmentRowModel>) -> Result<(), LoadErrorModel>
    decreases rows.len(),
{
    if rows.len() == 0 {
        Ok(())
    } else {
        match roles_checked(rows.drop_last()) {
            Err(e) => Err(e),
            Ok(_) => if kind_from_name(rows.last().role) is None {
                Err(LoadErrorModel::UnknownRole(rows.last().role))
            } else {
                Ok(())
            },
        }
    }
}

/// The segments the rows list for `word`, in row order.
pub open spec fn segments_of(rows: Seq<SegmentRowModel>, word: Seq<char>) -> Seq<(Seq<char>, MorphemeKind)>
    decreases rows.len(),
{
    if rows.len() == 0 {
        Seq::empty()
    } else {
        let rest = segments_of(rows.drop_last(), word);
        if rows.last().word == word {
            rest.push((rows.last().morpheme_id, kind_from_name(rows.last().role)->0))
        } else {
            rest
        }
    }
}

/// Some row before the end of `rows` is for `word`.
pub open spec fn word_taken(rows: Seq<DecompositionRowModel>, word: Seq<char>) -> bool {
    exists|j: int| 0 <= j < rows.len() && #[trigger] rows[j].word == word
}

/// The decompositions the rows hold, in row order, each with the segments
/// listed for its word (a word's segments go to its first row); the first
/// row with a bad confidence refuses them all.
pub open spec fn decompositions_loaded(
    rows: Seq<DecompositionRowModel>,
    segs: Seq<SegmentRowModel>,
) -> Result<Seq<DecompositionModel>, LoadErrorModel>
    decreases rows.len(),
{
    if rows.len() == 0 {
        Ok(Seq::empty())
    } else {
        match decompositions_loaded(rows.drop_last(), segs) {
            Err(e) => Err(e),
            Ok(ds) => {
                let row = rows.last();
                if !confidence_in_range(row.confidence) {
                    Err(LoadErrorModel::ConfidenceOutOfRange(row.confidence))
                } else {
                    Ok(
                        ds.push(
                            DecompositionModel {
                                word: row.word,
                                segments: if word_taken(rows.drop_last(), row.word) {
                                    Seq::empty()
                                } else {
                                    segments_of(segs, row.word)
                                },
                                provenance: ProvenanceModel { confidence: row.confidence, evidence: row.evidence },
                            },
                        ),
                    )
                }
            },
        }
    }
}

/// What a release database's rows load as: the schema version stamp is
/// checked first, then the morpheme rows, the segment roles and the
/// decomposition rows.
pub open spec fn loaded(
    version: Option<Seq<char>>,
    ms: Seq<MorphemeRowModel>,
    ss: Seq<SegmentRowModel>,
    ds: Seq<DecompositionRowModel>,
) -> Result<(Seq<MorphemeModel>, Seq<DecompositionModel>), LoadErrorModel> {
    if version != Some(decimal(RELEASE_SCHEMA_VERSION as nat)) {
        Err(LoadErrorModel::SchemaVersion(version))
    } else {
        match morphemes_loaded(ms) {
            Err(e) => Err(e),
            Ok(mm) => match roles_checked(ss) {
                Err(e) => Err(e),
                Ok(_) => match decompositions_loaded(ds, ss) {
                    Err(e) => Err(e),
                    Ok(dm) => Ok((mm, dm)),
                },
            },
        }
    }
}

proof fn lemma_morphemes_no_stamp_error(rows: Seq<MorphemeRowModel>)
    ensures
        !(morphemes_loaded(rows) matches Err(LoadErrorModel::SchemaVersion(_))),
    decreases rows.len(),
{
    if rows.len() > 0 {
        lemma_morphemes_no_stamp_error(rows.drop_last());
    }
}

proof fn lemma_roles_no_stamp_error(rows: Seq<SegmentRowModel>)
    ensures
        !(roles_checked(rows) matches Err(LoadErrorModel::SchemaVersion(_))),
    decreases rows.len(),
{
    if rows.len() > 0 {
        lemma_roles_no_stamp_error(rows.drop_last());
    }
}

proof fn lemma_decompositions_no_stamp_error(rows: Seq<DecompositionRowModel>, segs: Seq<SegmentRowModel>)
    ensures
        !(decompositions_loaded(rows, segs) matches Err(LoadErrorModel::SchemaVersion(_))),
    decreases rows.len(),
{
    if rows.len() > 0 {
        lemma_decompositions_no_stamp_error(rows.drop_last(), segs);
    }
}

/// A database stamped with what [`release_meta`] writes is never refused
/// for its schema version, whatever its rows hold.
pub proof fn lemma_release_stamp_accepted(
    ms: Seq<MorphemeRowModel>,
    ss: Seq<SegmentRowModel>,
    ds: Seq<DecompositionRowModel>,
)
    ensures
        !(loaded(Some(decimal(RELEASE_SCHEMA_VERSION as nat)), ms, ss, ds) matches Err(LoadErrorModel::SchemaVersion(_))),
{
    lemma_morphemes_no_stamp_error(ms);
    lemma_roles_no_stamp_error(ss);
    lemma_decompositions_no_stamp_error(ds, ss);
}

proof fn lemma_morphemes_err_prefix(rows: Seq<MorphemeRowModel>, n: int)
    requires
        0 <= n <= rows.len(),
        morphemes_loaded(rows.take(n)) is Err,
    ensures
        morphemes_loaded(rows) == morphemes_loaded(rows.take(n)),
    decreases rows.len(),
{
    if n < rows.len() {
        assert(rows.drop_last().take(n) == rows.take(n));
        lemma_morphemes_err_prefix(rows.drop_last(), n);
    } else {
        assert(rows.take(n) == rows);
    }
}

proof fn lemma_roles_err_prefix(rows: Seq<SegmentRowModel>, n: int)
    requires
        0 <= n <= rows.len(),
        roles_checked(rows.take(n)) is Err,
    ensures
        roles_checked(rows) == roles_checked(rows.take(n)),
    decreases rows.len(),
{
    if n < rows.len() {
        assert(rows.drop_last().take(n) == rows.take(n));
        lemma_roles_err_prefix(rows.drop_last(), n);
    } else {
        assert(rows.take(n) == rows);
    }
}

proof fn lemma_decompositions_err_prefix(rows: Seq<DecompositionRowModel>, segs: Seq<SegmentRowModel>, n: int)
    requires
        0 <= n <= rows.len(),
        decompositions_loaded(rows.take(n), segs) is Err,
    ensures
        decompositions_loaded(rows, segs) == decompositions_loaded(rows.take(n), segs),
    decreases rows.len(),
{
    if n < rows.len() {
        assert(rows.drop_last().take(n) == rows.take(n));
        lemma_decompositions_err_prefix(rows.drop_last(), segs, n);
    } else {
        assert(rows.take(n) == rows);
    }
}

/// The segment lists grouped so far: `map` holds, for each word among the
/// first `n` rows and not yet handed out, the segments the rows list for it.
pub open spec fn grouped(
    map: Map<Seq<char>, Vec<MorphemeRef>>,
    segs: Seq<SegmentRowModel>,
    n: int,
    taken: Seq<DecompositionRowModel>,
) -> bool {
    &&& forall|k: Seq<char>| #[trigger] map.contains_key(k) <==> ((exists|j: int| 0 <= j < n && #[trigger] segs[j].word == k)
        && !word_taken(taken, k))
    &&& forall|k: Seq<char>| #[trigger] map.contains_key(k) ==> refs_view(map[k]@) == segments_of(segs.take(n), k)
}

proof fn lemma_segments_of_step(segs: Seq<SegmentRowModel>, n: int, k: Seq<char>)
    requires
        0 <= n < segs.len(),
    ensures
        segments_of(segs.take(n + 1), k) == (if segs[n].word == k {
            segments_of(segs.take(n), k).push((segs[n].morpheme_id, kind_from_name(segs[n].role)->0))
        } else {
            segments_of(segs.take(n), k)
        }),
{
    assert(segs.take(n + 1).drop_last() =~= segs.take(n));
    assert(segs.take(n + 1).last() == segs[n]);
}

/// Groups the segment rows by word, refusing the first unknown role.
fn group_segments(segments: &Vec<SegmentRow>) -> (r: Result<StringHashMap<Vec<MorphemeRef>>, LoadError>)
    ensures
        match r {
            Ok(map) => roles_checked(segment_rows_view(segments@)) is Ok && grouped(
                map@,
                segment_rows_view(segments@),
                segments@.len() as int,
                Seq::empty(),
            ),
            Err(e) => roles_checked(segment_rows_view(segments@)) == Err::<(), LoadErrorModel>(e@),
        },
{
    let ghost ss = segment_rows_view(segments@);
    let mut map: StringHashMap<Vec<MorphemeRef>> = StringHashMap::new();
    let mut i: usize = 0;
    assert(ss.take(0) =~= Seq::<SegmentRowModel>::empty());
    while i < segments.len()
        invariant
            i <= segments@.len(),
            ss == segment_rows_view(segments@),
            roles_checked(ss.take(i as int)) is Ok,
            grouped(map@, ss, i as int, Seq::<DecompositionRowModel>::empty()),
        decreases segments@.len() - i,
    {
        let row = &segments[i];
        assert(row@ == ss[i as int]);
        proof {
            assert(ss.take(i + 1).drop_last() =~= ss.take(i as int));
            assert(ss.take(i + 1).last() == ss[i as int]);
        }
        let role = match MorphemeKind::parse(row.role.as_str()) {
            Some(k) => k,
            None => {
                proof {
                    lemma_roles_err_prefix(ss, i + 1);
                }
                return Err(LoadError::UnknownRole(row.role.clone()));
            },
        };
        let seg = MorphemeRef { morpheme_id: MorphemeId(row.morpheme_id.clone()), role };
        let ghost old_map = map@;
        let ghost w = row.word@;
        let mut list = match map.get(row.word.as_str()) {
            Some(v) => clone_refs(v),
            None => Vec::new(),
        };
        proof {
            if !old_map.contains_key(w) {
                assert forall|j: int| 0 <= j < i implies ss[j].word != w by {
                    if ss[j].word == w {
                        assert(!word_taken(Seq::<DecompositionRowModel>::empty(), w));
                    }
                }
                assert(segments_of(ss.take(i as int), w) =~= Seq::empty()) by {
                    lemma_segments_of_absent(ss.take(i as int), w);
                }
            }
        }
        list.push(seg);
        map.insert(row.word.clone(), list);
        proof {
            lemma_segments_of_step(ss, i as int, w);
            assert forall|k: Seq<char>| #[trigger] map@.contains_key(k) <==> ((exists|j: int| 0 <= j < i + 1 && #[trigger] ss[j].word == k)
                && !word_taken(Seq::<DecompositionRowModel>::empty(), k)) by {
                if k == w {
                    assert(ss[i as int].word == k);
                }
                if exists|j: int| 0 <= j < i + 1 && #[trigger] ss[j].word == k {
                    let j = choose|j: int| 0 <= j < i + 1 && #[trigger] ss[j].word == k;
                    if j < i {
                        assert(old_map.contains_key(k));
                    }
                }
            }
            assert forall|k: Seq<char>| #[trigger] map@.contains_key(k) implies refs_view(map@[k]@) == segments_of(ss.take(i + 1), k) by {
                lemma_segments_of_step(ss, i as int, k);
                if k == w {
                    assert(refs_view(map@[k]@) =~= segments_of(ss.take(i as int), k).push((ss[i as int].morpheme_id, kind_from_name(ss[i as int].role)->0)));
                }
            }
        }
        i = i + 1;
    }
    assert(ss.take(ss.len() as int) =~= ss);
    Ok(map)
}

proof fn lemma_segments_of_absent(rows: Seq<SegmentRowModel>, w: Seq<char>)
    requires
        forall|j: int| 0 <= j < rows.len() ==> #[trigger] rows[j].word != w,
    ensures
        segments_of(rows, w) == Seq::<(Seq<char>, MorphemeKind)>::empty(),
    decreases rows.len(),
{
    if rows.len() > 0 {
        assert(rows.last().word != w);
        lemma_segments_of_absent(rows.drop_last(), w);
    }
}

/// Checks a database's schema version stamp (what its `meta` table holds
/// under [`META_SCHEMA_VERSION`], if anything): only [`RELEASE_SCHEMA_VERSION`]
/// is read.
pub fn check_schema_version(stamp: &Option<String>) -> (r: Result<(), LoadError>)
    ensures
        r is Ok <==> opt_view(*stamp) == Some(decimal(RELEASE_SCHEMA_VERSION as nat)),
        r matches Err(e) ==> e@ == LoadErrorModel::SchemaVersion(opt_view(*stamp)),
{
    let expected = decimal_text(RELEASE_SCHEMA_VERSION);
    match stamp {
        Some(v) => {
            if str_eq(v.as_str(), expected.as_str()) {
                Ok(())
            } else {
                Err(LoadError::SchemaVersion(Some(v.clone())))
            }
        },
        None => Err(LoadError::SchemaVersion(None)),
    }
}

/// Checks the schema version stamp and assembles the rows of a release
/// database into an [`AnalyzerDb`]. A file stamped with any other version
/// (or none) is refused; so is the first bad row: a positions string that
/// does not parse, a meanings or variants column that is not a JSON array
/// of strings, a confidence outside `0.0..=1.0`, a segment role that is not
/// prefix/root/suffix. Each decomposition gets the segments listed for its
/// word, in row order.
pub fn assemble(
    schema_version: Option<String>,
    morphemes: Vec<MorphemeRow>,
    segments: Vec<SegmentRow>,
    decompositions: Vec<DecompositionRow>,
) -> (r: Result<AnalyzerDb, LoadError>)
    ensures
        match r {
            Ok(db) => loaded(
                opt_view(schema_version),
                morpheme_rows_view(morphemes@),
                segment_rows_view(segments@),
                decomposition_rows_view(decompositions@),
            ) matches Ok((mm, dm)) && built_from(db@.index, mm) && db@.precomputed == precomputed_of(dm),
            Err(e) => loaded(
                opt_view(schema_version),
                morpheme_rows_view(morphemes@),
                segment_rows_view(segments@),
                decomposition_rows_view(decompositions@),
            ) == Err::<(Seq<MorphemeModel>, Seq<DecompositionModel>), LoadErrorModel>(e@),
        },
{
    match check_schema_version(&schema_version) {
        Ok(()) => {},
        Err(e) => {
            return Err(e);
        },
    }
    let ghost ms = morpheme_rows_view(morphemes@);
    let ghost ss = segment_rows_view(segments@);
    let ghost ds = decomposition_rows_view(decompositions@);
    let mut records: Vec<Morpheme> = Vec::new();
    let mut i: usize = 0;
    assert(ms.take(0) =~= Seq::<MorphemeRowModel>::empty());
    assert(models(records@) =~= Seq::<MorphemeModel>::empty());
    while i < morphemes.len()
        invariant
            i <= morphemes@.len(),
            ms == morpheme_rows_view(morphemes@),
            opt_view(schema_version) == Some(decimal(RELEASE_SCHEMA_VERSION as nat)),
            morphemes_loaded(ms.take(i as int)) == Ok::<Seq<MorphemeModel>, LoadErrorModel>(models(records@)),
        decreases morphemes@.len() - i,
    {
        proof {
            assert(ms.take(i + 1).drop_last() =~= ms.take(i as int));
            assert(ms.take(i + 1).last() == ms[i as int]);
            assert(morphemes@[i as int]@ == ms[i as int]);
        }
        match read_morpheme(&morphemes[i]) {
            Ok(m) => {
                let ghost before = models(records@);
                let ghost mv = m@;
                assert(morpheme_record(ms[i as int], json_string_list(ms[i as int].meanings), json_string_list(ms[i as int].variants))
                    == Ok::<MorphemeModel, LoadErrorModel>(mv));
                assert(morphemes_loaded(ms.take(i + 1)) == Ok::<Seq<MorphemeModel>, LoadErrorModel>(before.push(mv)));
                records.push(m);
                assert(models(records@) =~= before.push(mv));
            },
            Err(e) => {
                proof {
                    lemma_morphemes_err_prefix(ms, i + 1);
                }
                return Err(e);
            },
        }
        i = i + 1;
    }
    assert(ms.take(ms.len() as int) =~= ms);
    let mut map = match group_segments(&segments) {
        Ok(m) => m,
        Err(e) => {
            return Err(e);
        },
    };
    let ghost nseg = ss.len() as int;
    let mut words: Vec<WordDecomposition> = Vec::new();
    let ghost drows = decompositions@;
    let total = decompositions.len();
    assert(ds.take(0) =~= Seq::<DecompositionRowModel>::empty());
    assert(decomps_view(words@) =~= Seq::<DecompositionModel>::empty());
    assert(ss.take(nseg) =~= ss);
    for row in it: decompositions
        invariant
            it.seq() == drows,
            drows.len() == total,
            ds == decomposition_rows_view(drows),
            nseg == ss.len(),
            ss.take(nseg) == ss,
            decompositions_loaded(ds.take(it.index() as int), ss) == Ok::<Seq<DecompositionModel>, LoadErrorModel>(decomps_view(words@)),
            grouped(map@, ss, nseg, ds.take(it.index() as int)),
            models(records@) == morphemes_loaded(ms)->Ok_0,
            morphemes_loaded(ms) is Ok,
            roles_checked(ss) is Ok,
            ms == morpheme_rows_view(morphemes@),
            ss == segment_rows_view(segments@),
            opt_view(schema_version) == Some(decimal(RELEASE_SCHEMA_VERSION as nat)),
    {
        let ghost n = it.index() as int;
        let ghost rv = row@;
        proof {
            assert(rv == ds[n]);
            assert(ds.take(n + 1).drop_last() =~= ds.take(n));
            assert(ds.take(n + 1).last() == ds[n]);
        }
        let provenance = match Provenance::new(row.confidence, row.evidence) {
            Ok(p) => p,
            Err(_) => {
                proof {
                    lemma_decompositions_err_prefix(ds, ss, n + 1);
                }
                return Err(LoadError::ConfidenceOutOfRange(row.confidence));
            },
        };
        let ghost old_map = map@;
        let segs = match map.get(row.word.as_str()) {
            Some(v) => {
                let s = clone_refs(v);
                map.remove(row.word.as_str());
                s
            },
            None => Vec::new(),
        };
        proof {
            let w = rv.word;
            if old_map.contains_key(w) {
                assert(!word_taken(ds.take(n), w));
                assert(refs_view(segs@) == segments_of(ss, w));
            } else {
                if !word_taken(ds.take(n), w) {
                    assert forall|j: int| 0 <= j < ss.len() implies #[trigger] ss[j].word != w by {
                        if ss[j].word == w {
                            assert(old_map.contains_key(w));
                        }
                    }
                    lemma_segments_of_absent(ss, w);
                }
                assert(refs_view(segs@) =~= Seq::empty());
            }
            assert(refs_view(segs@) == (if word_taken(ds.take(n), w) {
                Seq::<(Seq<char>, MorphemeKind)>::empty()
            } else {
                segments_of(ss, w)
            }));
            assert forall|k: Seq<char>| word_taken(ds.take(n + 1), k) <==> (word_taken(ds.take(n), k) || k == w) by {
                if word_taken(ds.take(n + 1), k) {
                    let j = choose|j: int| 0 <= j < n + 1 && #[trigger] ds.take(n + 1)[j].word == k;
                    if j < n {
                        assert(ds.take(n)[j].word == k);
                    }
                }
                if word_taken(ds.take(n), k) {
                    let j = choose|j: int| 0 <= j < n && #[trigger] ds.take(n)[j].word == k;
                    assert(ds.take(n + 1)[j].word == k);
                }
                if k == w {
                    assert(ds.take(n + 1)[n].word == k);
                }
            }
        }
        let d = WordDecomposition { word: row.word, segments: segs, provenance };
        let ghost before = decomps_view(words@);
        let ghost dv = d@;
        proof {
            let expect = DecompositionModel {
                word: rv.word,
                segments: if word_taken(ds.take(n), rv.word) {
                    Seq::empty()
                } else {
                    segments_of(ss, rv.word)
                },
                provenance: ProvenanceModel { confidence: rv.confidence, evidence: rv.evidence },
            };
            assert(dv.word == expect.word);
            assert(dv.segments == expect.segments);
            assert(dv.provenance == expect.provenance);
            assert(dv == expect);
            assert(decompositions_loaded(ds.take(n + 1), ss) == Ok::<Seq<DecompositionModel>, LoadErrorModel>(before.push(dv)));
        }
        words.push(d);
        assert(decomps_view(words@) =~= before.push(dv));
    }
    assert(ds.take(ds.len() as int) =~= ds);
    Ok(AnalyzerDb::new(records, words))
}

} // verus!
