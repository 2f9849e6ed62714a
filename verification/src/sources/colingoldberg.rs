//! colingoldberg/morphemes' `morphemes.json`: entries keyed by a label,
//! each listing forms with where they occur.

use vstd::prelude::*;

use crate::morpheme::{clone_strings, strings_view, MorphemeKind};
use crate::sources::{parsed_view, quoted, ParsedModel, ParsedMorpheme};
use crate::text::str_eq;

verus! {

/// One form of an entry and where it occurs (`prefix`, `suffix`,
/// `embedded`, or anything else).
#[derive(Debug)]
pub struct RawForm {
    pub form: String,
    pub loc: String,
}

/// One entry of the file.
#[derive(Debug)]
pub struct ColinEntry {
    pub forms: Vec<RawForm>,
    pub meaning: Vec<String>,
    pub examples: Vec<String>,
}

pub struct ColinModel {
    pub forms: Seq<(Seq<char>, Seq<char>)>,
    pub meaning: Seq<Seq<char>>,
    pub examples: Seq<Seq<char>>,
}

impl View for ColinEntry {
    type V = ColinModel;

    open spec fn view(&self) -> ColinModel {
        ColinModel {
            forms: self.forms@.map_values(|f: RawForm| (f.form@, f.loc@)),
            meaning: strings_view(self.meaning@),
            examples: strings_view(self.examples@),
        }
    }
}

pub open spec fn raw_view(v: Seq<(String, ColinEntry)>) -> Seq<(Seq<char>, ColinModel)> {
    v.map_values(|p: (String, ColinEntry)| (p.0@, p.1@))
}

/// The position a location names: `embedded` is a root.
pub open spec fn kind_of_loc(loc: Seq<char>) -> Option<MorphemeKind> {
    if loc == "prefix"@ {
        Some(MorphemeKind::Prefix)
    } else if loc == "suffix"@ {
        Some(MorphemeKind::Suffix)
    } else if loc == "embedded"@ {
        Some(MorphemeKind::Root)
    } else {
        None
    }
}

fn map_kind(loc: &str) -> (r: Option<MorphemeKind>)
    ensures
        r == kind_of_loc(loc@),
{
    if str_eq(loc, "prefix") {
        Some(MorphemeKind::Prefix)
    } else if str_eq(loc, "suffix") {
        Some(MorphemeKind::Suffix)
    } else if str_eq(loc, "embedded") {
        Some(MorphemeKind::Root)
    } else {
        None
    }
}

/// The sightings of the first `n` forms of entry `key`: one per non-empty
/// form whose location names a position.
pub open spec fn entry_sightings(key: Seq<char>, e: ColinModel, n: int) -> Seq<ParsedModel>
    decreases n,
{
    if n <= 0 {
        Seq::empty()
    } else {
        let rest = entry_sightings(key, e, n - 1);
        let f = e.forms[n - 1];
        match kind_of_loc(f.1) {
            Some(kind) => if f.0.len() > 0 {
                rest.push(
                    ParsedModel {
                        form: f.0,
                        kind,
                        meanings: e.meaning,
                        evidence: "colingoldberg/morphemes entry '"@ + key + "'"@,
                        examples: e.examples,
                        variants: Seq::empty(),
                    },
                )
            } else {
                rest
            },
            None => rest,
        }
    }
}

/// The sightings of all entries, in entry order.
pub open spec fn sightings(raw: Seq<(Seq<char>, ColinModel)>) -> Seq<ParsedModel>
    decreases raw.len(),
{
    if raw.len() == 0 {
        Seq::empty()
    } else {
        sightings(raw.drop_last()) + entry_sightings(raw.last().0, raw.last().1, raw.last().1.forms.len() as int)
    }
}

/// Where the file files a form: `prefix` is a prefix, `suffix` a suffix,
/// `embedded` a root, and no other location names a position.
pub proof fn lemma_locations(loc: Seq<char>)
    ensures
        kind_of_loc("prefix"@) == Some(MorphemeKind::Prefix),
        kind_of_loc("suffix"@) == Some(MorphemeKind::Suffix),
        kind_of_loc("embedded"@) == Some(MorphemeKind::Root),
        kind_of_loc(loc) is Some ==> loc == "prefix"@ || loc == "suffix"@ || loc == "embedded"@,
{
    reveal_strlit("prefix");
    reveal_strlit("suffix");
    reveal_strlit("embedded");
    assert("prefix"@[0] != "suffix"@[0]);
    assert("prefix"@.len() != "embedded"@.len());
    assert("suffix"@.len() != "embedded"@.len());
}

/// The position a named location files a form under.
pub open spec fn located(loc: Seq<char>, kind: MorphemeKind) -> bool {
    ||| loc == "prefix"@ && kind == MorphemeKind::Prefix
    ||| loc == "suffix"@ && kind == MorphemeKind::Suffix
    ||| loc == "embedded"@ && kind == MorphemeKind::Root
}

/// The sighting a form of entry `key` gives under position `kind`.
pub open spec fn sighting_of(key: Seq<char>, e: ColinModel, form: Seq<char>, kind: MorphemeKind) -> ParsedModel {
    ParsedModel {
        form,
        kind,
        meanings: e.meaning,
        evidence: "colingoldberg/morphemes entry '"@ + key + "'"@,
        examples: e.examples,
        variants: Seq::empty(),
    }
}

proof fn lemma_entry_form_sighted(key: Seq<char>, e: ColinModel, n: int, j: int, kind: MorphemeKind)
    requires
        0 <= j < n <= e.forms.len(),
        e.forms[j].0.len() > 0,
        located(e.forms[j].1, kind),
    ensures
        entry_sightings(key, e, n).contains(sighting_of(key, e, e.forms[j].0, kind)),
    decreases n,
{
    lemma_locations(e.forms[j].1);
    let rest = entry_sightings(key, e, n - 1);
    if j < n - 1 {
        lemma_entry_form_sighted(key, e, n - 1, j, kind);
        let k = choose|k: int| 0 <= k < rest.len() && rest[k] == sighting_of(key, e, e.forms[j].0, kind);
        if kind_of_loc(e.forms[n - 1].1) is Some && e.forms[n - 1].0.len() > 0 {
            let p = sighting_of(key, e, e.forms[n - 1].0, kind_of_loc(e.forms[n - 1].1)->0);
            assert(entry_sightings(key, e, n) == rest.push(p));
            assert(rest.push(p)[k] == rest[k]);
        }
    } else {
        let p = sighting_of(key, e, e.forms[j].0, kind);
        assert(entry_sightings(key, e, n) == rest.push(p));
        assert(rest.push(p)[rest.len() as int] == p);
    }
}

/// Every non-empty form filed at `prefix`, `suffix` or `embedded` becomes a
/// sighting of that position, carrying its entry's meanings and examples
/// and naming its entry.
pub proof fn lemma_every_located_form_sighted(raw: Seq<(Seq<char>, ColinModel)>, i: int, j: int, kind: MorphemeKind)
    requires
        0 <= i < raw.len(),
        0 <= j < raw[i].1.forms.len(),
        raw[i].1.forms[j].0.len() > 0,
        located(raw[i].1.forms[j].1, kind),
    ensures
        sightings(raw).contains(sighting_of(raw[i].0, raw[i].1, raw[i].1.forms[j].0, kind)),
    decreases raw.len(),
{
    let want = sighting_of(raw[i].0, raw[i].1, raw[i].1.forms[j].0, kind);
    let init = raw.drop_last();
    let a = sightings(init);
    let last = raw.last();
    let b = entry_sightings(last.0, last.1, last.1.forms.len() as int);
    assert(sightings(raw) == a + b);
    if i < raw.len() - 1 {
        assert(init[i] == raw[i]);
        lemma_every_located_form_sighted(init, i, j, kind);
        let k = choose|k: int| 0 <= k < a.len() && a[k] == want;
        assert((a + b)[k] == want);
    } else {
        lemma_entry_form_sighted(last.0, last.1, last.1.forms.len() as int, j, kind);
        let k = choose|k: int| 0 <= k < b.len() && b[k] == want;
        assert((a + b)[a.len() + k] == want);
    }
}

/// Reads the entries in the order given (the file's keys, sorted): each
/// form with a known location becomes a sighting carrying the entry's
/// meanings and examples; forms with another location, or empty, are
/// skipped.
pub fn parse(raw: Vec<(String, ColinEntry)>) -> (r: Vec<ParsedMorpheme>)
    ensures
        parsed_view(r@) == sightings(raw_view(raw@)),
{
    let ghost rv = raw_view(raw@);
    let mut out: Vec<ParsedMorpheme> = Vec::new();
    let mut i: usize = 0;
    assert(parsed_view(out@) =~= sightings(rv.take(0)));
    while i < raw.len()
        invariant
            i <= raw@.len(),
            rv == raw_view(raw@),
            parsed_view(out@) == sightings(rv.take(i as int)),
        decreases raw@.len() - i,
    {
        let key = &raw[i].0;
        let entry = &raw[i].1;
        let ghost ev = entry@;
        let ghost before = parsed_view(out@);
        assert(rv[i as int] == (key@, ev));
        let mut j: usize = 0;
        while j < entry.forms.len()
            invariant
                j <= entry.forms@.len(),
                ev == entry@,
                parsed_view(out@) == before + entry_sightings(key@, ev, j as int),
            decreases entry.forms@.len() - j,
        {
            let f = &entry.forms[j];
            assert(ev.forms[j as int] == (f.form@, f.loc@));
            match map_kind(f.loc.as_str()) {
                Some(kind) => {
                    if f.form.unicode_len() > 0 {
                        let p = ParsedMorpheme {
                            form: f.form.clone(),
                            kind,
                            meanings: clone_strings(&entry.meaning),
                            evidence: quoted("colingoldberg/morphemes entry '", key.as_str()),
                            examples: clone_strings(&entry.examples),
                            variants: Vec::new(),
                        };
                        assert(strings_view(p.variants@) =~= Seq::<Seq<char>>::empty());
                        assert(p@ == ParsedModel {
                            form: f.form@,
                            kind,
                            meanings: ev.meaning,
                            evidence: "colingoldberg/morphemes entry '"@ + key@ + "'"@,
                            examples: ev.examples,
                            variants: Seq::empty(),
                        });
                        let ghost old_out = parsed_view(out@);
                        let ghost pv = p@;
                        out.push(p);
                        assert(parsed_view(out@) =~= old_out.push(pv));
                        assert(entry_sightings(key@, ev, j + 1) == entry_sightings(key@, ev, j as int).push(pv));
                    }
                },
                None => {},
            }
            assert(parsed_view(out@) =~= before + entry_sightings(key@, ev, j + 1));
            j = j + 1;
        }
        proof {
            assert(rv.take(i + 1).drop_last() =~= rv.take(i as int));
            assert(rv.take(i + 1).last() == rv[i as int]);
        }
        assert(parsed_view(out@) =~= sightings(rv.take(i + 1)));
        i = i + 1;
    }
    assert(rv.take(rv.len() as int) =~= rv);
    out
}

} // verus!
