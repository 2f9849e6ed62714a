//! LexiRoot's own curated free-stem list: the native core the upstream
//! Greek/Latin root dictionaries omit. Ours, so read strictly.

use vstd::prelude::*;

use crate::dataset::{first_unknown_at, raw_view, RawEntry, RawModel};
use crate::morpheme::{clone_strings, kind_from_name, MorphemeKind};
use crate::sources::{parsed_view, quoted, ParsedModel, ParsedMorpheme};
use crate::text::{owned, push_str};

verus! {

/// Why the stem list was refused.
#[derive(Debug, PartialEq, Eq)]
pub enum StemError {
    /// An entry (by form) lists no positions.
    NoPositions(String),
    /// An entry (by form) lists a position that is not prefix/root/suffix.
    UnknownPosition(String, String),
}

pub enum StemErrorModel {
    NoPositions(Seq<char>),
    UnknownPosition(Seq<char>, Seq<char>),
}

impl View for StemError {
    type V = StemErrorModel;

    open spec fn view(&self) -> StemErrorModel {
        match self {
            StemError::NoPositions(f) => StemErrorModel::NoPositions(f@),
            StemError::UnknownPosition(f, p) => StemErrorModel::UnknownPosition(f@, p@),
        }
    }
}

pub open spec fn stem_error_message(e: StemErrorModel) -> Seq<char> {
    match e {
        StemErrorModel::NoPositions(f) => "lexiroot-stems entry '"@ + f + "' declares no positions"@,
        StemErrorModel::UnknownPosition(f, p) => "lexiroot-stems entry '"@ + f + "' has unknown position '"@ + p + "'"@,
    }
}

impl StemError {
    /// The error as a sentence.
    pub fn message(&self) -> (r: String)
        ensures
            r@ == stem_error_message(self@),
    {
        match self {
            StemError::NoPositions(f) => {
                let mut s = owned("lexiroot-stems entry '");
                push_str(&mut s, f.as_str());
                push_str(&mut s, "' declares no positions");
                s
            },
            StemError::UnknownPosition(f, p) => {
                let mut s = owned("lexiroot-stems entry '");
                push_str(&mut s, f.as_str());
                push_str(&mut s, "' has unknown position '");
                push_str(&mut s, p.as_str());
                push_str(&mut s, "'");
                s
            },
        }
    }
}

/// The sighting of entry `form` in position `kind`.
pub open spec fn stem_sighting(form: Seq<char>, e: RawModel, kind: MorphemeKind) -> ParsedModel {
    ParsedModel {
        form,
        kind,
        meanings: e.meanings,
        evidence: "lexiroot-stems curated entry '"@ + form + "'"@,
        examples: e.examples,
        variants: e.variants,
    }
}

/// One sighting per declared position, in the order declared.
pub open spec fn entry_sightings(form: Seq<char>, e: RawModel, n: int) -> Seq<ParsedModel>
    decreases n,
{
    if n <= 0 {
        Seq::empty()
    } else {
        entry_sightings(form, e, n - 1).push(stem_sighting(form, e, kind_from_name(e.positions[n - 1])->0))
    }
}

/// What reading the entries in order gives: entries with an empty form are
/// skipped, and the first entry with no positions or with a position that
/// is not prefix/root/suffix refuses the list.
pub open spec fn stems_read(raw: Seq<(Seq<char>, RawModel)>) -> Result<Seq<ParsedModel>, StemErrorModel>
    decreases raw.len(),
{
    if raw.len() == 0 {
        Ok(Seq::empty())
    } else {
        match stems_read(raw.drop_last()) {
            Err(e) => Err(e),
            Ok(out) => {
                let (form, e) = raw.last();
                if form.len() == 0 {
                    Ok(out)
                } else if e.positions.len() == 0 {
                    Err(StemErrorModel::NoPositions(form))
                } else if exists|i: int| first_unknown_at(e.positions, i) {
                    Err(StemErrorModel::UnknownPosition(form, e.positions[choose|i: int| first_unknown_at(e.positions, i)]))
                } else {
                    Ok(out + entry_sightings(form, e, e.positions.len() as int))
                }
            },
        }
    }
}

proof fn lemma_stems_err_prefix(raw: Seq<(Seq<char>, RawModel)>, n: int)
    requires
        0 <= n <= raw.len(),
        stems_read(raw.take(n)) is Err,
    ensures
        stems_read(raw) == stems_read(raw.take(n)),
    decreases raw.len(),
{
    if n < raw.len() {
        assert(raw.drop_last().take(n) == raw.take(n));
        lemma_stems_err_prefix(raw.drop_last(), n);
    } else {
        assert(raw.take(n) == raw);
    }
}

/// Reads the stem list in the order given (the file's keys, sorted): one
/// sighting per declared position, which the merge step folds back into a
/// single morpheme carrying every position.
pub fn parse(raw: Vec<(String, RawEntry)>) -> (r: Result<Vec<ParsedMorpheme>, StemError>)
    ensures
        match r {
            Ok(v) => stems_read(raw_view(raw@)) == Ok::<Seq<ParsedModel>, StemErrorModel>(parsed_view(v@)),
            Err(e) => stems_read(raw_view(raw@)) == Err::<Seq<ParsedModel>, StemErrorModel>(e@),
        },
{
    let ghost rv = raw_view(raw@);
    let mut out: Vec<ParsedMorpheme> = Vec::new();
    let mut i: usize = 0;
    assert(parsed_view(out@) =~= Seq::<ParsedModel>::empty());
    assert(rv.take(0) =~= Seq::<(Seq<char>, RawModel)>::empty());
    while i < raw.len()
        invariant
            i <= raw@.len(),
            rv == raw_view(raw@),
            stems_read(rv.take(i as int)) == Ok::<Seq<ParsedModel>, StemErrorModel>(parsed_view(out@)),
        decreases raw@.len() - i,
    {
        let form = &raw[i].0;
        let entry = &raw[i].1;
        let ghost ev = entry@;
        assert(rv[i as int] == (form@, ev));
        proof {
            assert(rv.take(i + 1).drop_last() =~= rv.take(i as int));
            assert(rv.take(i + 1).last() == rv[i as int]);
        }
        if form.unicode_len() > 0 {
            if entry.positions.len() == 0 {
                proof {
                    lemma_stems_err_prefix(rv, i + 1);
                }
                return Err(StemError::NoPositions(form.clone()));
            }
            let ghost ps = ev.positions;
            let ghost before = parsed_view(out@);
            let mut j: usize = 0;
            while j < entry.positions.len()
                invariant
                    i < raw@.len(),
                    rv == raw_view(raw@),
                    rv[i as int] == (form@, ev),
                    form@.len() > 0,
                    ps.len() > 0,
                    stems_read(rv.take(i as int)) == Ok::<Seq<ParsedModel>, StemErrorModel>(before),
                    j <= entry.positions@.len(),
                    ev == entry@,
                    ps == ev.positions,
                    forall|m: int| 0 <= m < j ==> kind_from_name(#[trigger] ps[m]) is Some,
                    parsed_view(out@) == before + entry_sightings(form@, ev, j as int),
                decreases entry.positions@.len() - j,
            {
                assert(ps[j as int] == entry.positions@[j as int]@);
                match MorphemeKind::parse(entry.positions[j].as_str()) {
                    Some(kind) => {
                        let p = ParsedMorpheme {
                            form: form.clone(),
                            kind,
                            meanings: clone_strings(&entry.meanings),
                            evidence: quoted("lexiroot-stems curated entry '", form.as_str()),
                            examples: clone_strings(&entry.examples),
                            variants: clone_strings(&entry.variants),
                        };
                        assert(p@ == stem_sighting(form@, ev, kind));
                        let ghost old_out = parsed_view(out@);
                        let ghost pv = p@;
                        out.push(p);
                        assert(parsed_view(out@) =~= old_out.push(pv));
                        assert(entry_sightings(form@, ev, j + 1) == entry_sightings(form@, ev, j as int).push(pv));
                        assert(parsed_view(out@) =~= before + entry_sightings(form@, ev, j + 1));
                    },
                    None => {
                        proof {
                            assert(first_unknown_at(ps, j as int));
                            let c = choose|c: int| first_unknown_at(ps, c);
                            if c < j {
                                assert(kind_from_name(ps[c]) is Some);
                            } else if c > j {
                                assert(kind_from_name(ps[j as int]) is Some);
                            }
                            assert(rv.take(i + 1).drop_last() =~= rv.take(i as int));
                            assert(rv.take(i + 1).last() == rv[i as int]);
                            assert(stems_read(rv.take(i + 1)) == Err::<Seq<ParsedModel>, StemErrorModel>(
                                StemErrorModel::UnknownPosition(form@, ps[j as int]),
                            ));
                            lemma_stems_err_prefix(rv, i + 1);
                        }
                        return Err(StemError::UnknownPosition(form.clone(), entry.positions[j].clone()));
                    },
                }
                j = j + 1;
            }
            proof {
                if exists|c: int| first_unknown_at(ps, c) {
                    let c = choose|c: int| first_unknown_at(ps, c);
                    assert(kind_from_name(ps[c]) is Some);
                }
            }
        }
        assert(stems_read(rv.take(i + 1)) == Ok::<Seq<ParsedModel>, StemErrorModel>(parsed_view(out@)));
        i = i + 1;
    }
    assert(rv.take(rv.len() as int) =~= rv);
    Ok(out)
}

} // verus!
