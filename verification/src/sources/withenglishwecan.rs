//! WithEnglishWeCan/generated-english-roots-list: every entry is a root,
//! keyed by its form.

use vstd::prelude::*;

use crate::morpheme::{clone_strings, strings_view, MorphemeKind};
use crate::sources::{parsed_view, quoted, ParsedModel, ParsedMorpheme};
use crate::text::{owned, str_chars, string_of_range};

verus! {

/// One entry of the file.
#[derive(Debug)]
pub struct RootEntry {
    pub meanings: Vec<String>,
    pub examples: Vec<String>,
}

pub struct RootModel {
    pub meanings: Seq<Seq<char>>,
    pub examples: Seq<Seq<char>>,
}

impl View for RootEntry {
    type V = RootModel;

    open spec fn view(&self) -> RootModel {
        RootModel { meanings: strings_view(self.meanings@), examples: strings_view(self.examples@) }
    }
}

pub open spec fn raw_view(v: Seq<(String, RootEntry)>) -> Seq<(Seq<char>, RootModel)> {
    v.map_values(|p: (String, RootEntry)| (p.0@, p.1@))
}

/// `" - "` starts at `i` in `s`.
pub open spec fn separator_at(s: Seq<char>, i: int) -> bool {
    0 <= i && i + 3 <= s.len() && s[i] == ' ' && s[i + 1] == '-' && s[i + 2] == ' '
}

/// `i` is where the last `" - "` of `s` starts.
pub open spec fn last_separator_at(s: Seq<char>, i: int) -> bool {
    separator_at(s, i) && forall|j: int| i < j ==> !#[trigger] separator_at(s, j)
}

pub open spec fn is_ascii_alphanumeric(c: char) -> bool {
    ('0' <= c <= '9') || ('a' <= c <= 'z') || ('A' <= c <= 'Z')
}

/// A grade tag: one to four ASCII letters or digits.
pub open spec fn is_grade_tag(t: Seq<char>) -> bool {
    0 < t.len() <= 4 && forall|j: int| 0 <= j < t.len() ==> is_ascii_alphanumeric(#[trigger] t[j])
}

/// An example with a trailing grade-level tag (`"abdicate - hs"`) stripped:
/// split at the last `" - "`, and keep what precedes it only when what
/// follows is a grade tag; anything else is left as it is.
pub open spec fn stripped(s: Seq<char>) -> Seq<char> {
    if exists|i: int| last_separator_at(s, i) {
        let i = choose|i: int| last_separator_at(s, i);
        if is_grade_tag(s.skip(i + 3)) {
            s.take(i)
        } else {
            s
        }
    } else {
        s
    }
}

/// A trailing grade tag after `" - "` is stripped, leaving the word before
/// it, whatever that word holds; an example with no `" - "` is kept as it is.
pub proof fn lemma_grade_tag_stripped(w: Seq<char>, t: Seq<char>, s: Seq<char>)
    ensures
        is_grade_tag(t) ==> stripped(w + seq![' ', '-', ' '] + t) == w,
        (forall|j: int| !#[trigger] separator_at(s, j)) ==> stripped(s) == s,
{
    if is_grade_tag(t) {
        let x = w + seq![' ', '-', ' '] + t;
        let i = w.len() as int;
        assert(separator_at(x, i));
        assert forall|j: int| i < j implies !#[trigger] separator_at(x, j) by {
            if separator_at(x, j) {
                if j == i + 1 {
                    assert(x[j] == '-');
                } else if j == i + 2 {
                    assert(x[j + 1] == t[0]);
                } else {
                    assert(x[j] == t[j - i - 3]);
                }
            }
        }
        assert(last_separator_at(x, i));
        let c = choose|c: int| last_separator_at(x, c);
        if c < i {
            assert(separator_at(x, i));
        } else if c > i {
            assert(separator_at(x, c));
        }
        assert(x.skip(i + 3) =~= t);
        assert(x.take(i) =~= w);
    }
    if forall|j: int| !#[trigger] separator_at(s, j) {
        if exists|i: int| last_separator_at(s, i) {
            let i = choose|i: int| last_separator_at(s, i);
            assert(separator_at(s, i));
        }
    }
}

fn is_alnum(c: char) -> (r: bool)
    ensures
        r == is_ascii_alphanumeric(c),
{
    ('0' <= c && c <= '9') || ('a' <= c && c <= 'z') || ('A' <= c && c <= 'Z')
}

/// Where the last `" - "` of `s` starts, if it has one.
fn last_separator(s: &Vec<char>) -> (r: Option<usize>)
    ensures
        match r {
            Some(i) => last_separator_at(s@, i as int),
            None => forall|j: int| !#[trigger] separator_at(s@, j),
        },
{
    let ghost sv = s@;
    let mut end: usize = s.len();
    while end >= 3
        invariant
            end <= sv.len(),
            sv == s@,
            forall|j: int| j + 3 > end ==> !#[trigger] separator_at(sv, j),
        decreases end,
    {
        let i = end - 3;
        if s[i] == ' ' && s[i + 1] == '-' && s[i + 2] == ' ' {
            return Some(i);
        }
        end = end - 1;
    }
    None
}

/// Strips a trailing grade-level tag from an example word.
fn strip_grade_tag(example: &str) -> (r: String)
    ensures
        r@ == stripped(example@),
{
    let s = str_chars(example);
    let ghost sv = s@;
    let i = match last_separator(&s) {
        Some(i) => i,
        None => {
            proof {
                if exists|k: int| last_separator_at(sv, k) {
                    let k = choose|k: int| last_separator_at(sv, k);
                    assert(separator_at(sv, k));
                }
            }
            return owned(example);
        },
    };
    proof {
        let c = choose|c: int| last_separator_at(sv, c);
        if c < i {
            assert(separator_at(sv, i as int));
        } else if c > i {
            assert(separator_at(sv, c));
        }
    }
    let tag_len = s.len() - (i + 3);
    let mut ok = tag_len > 0 && tag_len <= 4;
    let mut k: usize = i + 3;
    while ok && k < s.len()
        invariant
            i + 3 <= k <= sv.len(),
            sv == s@,
            ok ==> forall|j: int| i + 3 <= j < k ==> is_ascii_alphanumeric(#[trigger] sv[j]),
            !ok ==> !is_grade_tag(sv.skip(i + 3)),
            ok ==> 0 < sv.len() - (i + 3) <= 4,
        decreases sv.len() - k,
    {
        if !is_alnum(s[k]) {
            ok = false;
            assert(sv.skip(i + 3)[k - (i + 3)] == sv[k as int]);
        }
        k = k + 1;
    }
    if ok {
        assert(is_grade_tag(sv.skip(i + 3))) by {
            assert forall|j: int| 0 <= j < sv.skip(i + 3).len() implies is_ascii_alphanumeric(#[trigger] sv.skip(i + 3)[j]) by {
                assert(sv.skip(i + 3)[j] == sv[j + i + 3]);
            }
        }
        let r = string_of_range(s.as_slice(), 0, i);
        assert(r@ =~= sv.take(i as int));
        r
    } else {
        owned(example)
    }
}

/// The sightings of the entries: each entry with a non-empty form is one
/// root, its examples stripped of grade tags.
pub open spec fn sightings(raw: Seq<(Seq<char>, RootModel)>) -> Seq<ParsedModel>
    decreases raw.len(),
{
    if raw.len() == 0 {
        Seq::empty()
    } else {
        let rest = sightings(raw.drop_last());
        let (form, e) = raw.last();
        if form.len() == 0 {
            rest
        } else {
            rest.push(
                ParsedModel {
                    form,
                    kind: MorphemeKind::Root,
                    meanings: e.meanings,
                    evidence: "withenglishwecan/generated-english-roots-list entry '"@ + form + "'"@,
                    examples: e.examples.map_values(|x: Seq<char>| stripped(x)),
                    variants: Seq::empty(),
                },
            )
        }
    }
}

/// Reads the entries in the order given (the file's keys, sorted): every
/// entry is a root, whatever its meanings say.
pub fn parse(raw: Vec<(String, RootEntry)>) -> (r: Vec<ParsedMorpheme>)
    ensures
        parsed_view(r@) == sightings(raw_view(raw@)),
{
    let ghost rv = raw_view(raw@);
    let mut out: Vec<ParsedMorpheme> = Vec::new();
    let mut i: usize = 0;
    assert(parsed_view(out@) =~= sightings(rv.take(0)));
    while i < raw.len()
        invariant
            i <= raw@.len(),
            rv == raw_view(raw@),
            parsed_view(out@) == sightings(rv.take(i as int)),
        decreases raw@.len() - i,
    {
        let form = &raw[i].0;
        let entry = &raw[i].1;
        assert(rv[i as int] == (form@, entry@));
        proof {
            assert(rv.take(i + 1).drop_last() =~= rv.take(i as int));
            assert(rv.take(i + 1).last() == rv[i as int]);
        }
        if form.unicode_len() > 0 {
            let ghost xs = strings_view(entry.examples@);
            let mut examples: Vec<String> = Vec::new();
            let mut j: usize = 0;
            while j < entry.examples.len()
                invariant
                    j <= entry.examples@.len(),
                    xs == strings_view(entry.examples@),
                    strings_view(examples@) == xs.take(j as int).map_values(|x: Seq<char>| stripped(x)),
                decreases entry.examples@.len() - j,
            {
                let x = strip_grade_tag(entry.examples[j].as_str());
                assert(xs[j as int] == entry.examples@[j as int]@);
                assert(x@ == stripped(xs[j as int]));
                let ghost old_ex = strings_view(examples@);
                let ghost xv = x@;
                examples.push(x);
                assert(strings_view(examples@) =~= old_ex.push(xv));
                assert(xs.take(j + 1) =~= xs.take(j as int).push(xs[j as int]));
                assert(xs.take(j + 1).map_values(|x: Seq<char>| stripped(x)) =~= xs.take(j as int).map_values(
                    |x: Seq<char>| stripped(x),
                ).push(stripped(xs[j as int])));
                assert(strings_view(examples@) =~= xs.take(j + 1).map_values(|x: Seq<char>| stripped(x)));
                j = j + 1;
            }
            assert(xs.take(xs.len() as int) =~= xs);
            let p = ParsedMorpheme {
                form: form.clone(),
                kind: MorphemeKind::Root,
                meanings: clone_strings(&entry.meanings),
                evidence: quoted("withenglishwecan/generated-english-roots-list entry '", form.as_str()),
                examples,
                variants: Vec::new(),
            };
            assert(strings_view(p.variants@) =~= Seq::<Seq<char>>::empty());
            out.push(p);
        }
        assert(parsed_view(out@) =~= sightings(rv.take(i + 1)));
        i = i + 1;
    }
    assert(rv.take(rv.len() as int) =~= rv);
    out
}

} // verus!
