//! Regular English spelling adjustments at a morpheme boundary, run
//! backwards: given the surface string that landed in the root slot, propose
//! the underlying forms that could have produced it.
//!
//! Only rules that are productive live here — ones that apply to stems the
//! table has never seen. Irregular, stem-specific alternation is listed per
//! morpheme in `Morpheme::variants` instead.

use vstd::prelude::*;

use crate::text::{str_chars, string_from_chars};

verus! {

/// Which rule derived a candidate underlying form.
#[derive(Debug, Clone, Copy, PartialEq, Eq, Structural)]
pub enum OrthoRule {
    /// Silent-e deletion before a vowel-initial suffix:
    /// `believe` + `-able` -> `believable`.
    SilentE,
    /// Final-consonant doubling before a vowel-initial suffix:
    /// `run` + `-ing` -> `running`.
    Undouble,
    /// `y` -> `i` before a suffix that does not itself start with `i`:
    /// `happy` + `-ness` -> `happiness`.
    YToI,
}

/// The name a rule is reported under.
pub open spec fn rule_name(r: OrthoRule) -> Seq<char> {
    match r {
        OrthoRule::SilentE => "silent-e deletion"@,
        OrthoRule::Undouble => "consonant doubling"@,
        OrthoRule::YToI => "y->i"@,
    }
}

impl OrthoRule {
    pub fn as_str(&self) -> (r: &'static str)
        ensures
            r@ == rule_name(*self),
    {
        match self {
            OrthoRule::SilentE => "silent-e deletion",
            OrthoRule::Undouble => "consonant doubling",
            OrthoRule::YToI => "y->i",
        }
    }
}

pub open spec fn spec_is_vowel(c: char) -> bool {
    c == 'a' || c == 'e' || c == 'i' || c == 'o' || c == 'u'
}

/// Consonants English actually doubles before a vowel-initial suffix.
/// `h`, `j`, `k`, `q`, `v`, `w`, `x`, `y` never double, and admitting `s`
/// would rewrite every `-ss` stem into a nonexistent single-`s` root.
pub open spec fn spec_is_doubleable(c: char) -> bool {
    c == 'b' || c == 'd' || c == 'f' || c == 'g' || c == 'l' || c == 'm' || c == 'n' || c == 'p'
        || c == 'r' || c == 't' || c == 'z'
}

/// Underlying forms that could surface as `s` in the root slot, given the
/// first character of the suffix that follows it (`None` when the root ends
/// the word, where no rule applies), in the order they are proposed.
pub open spec fn underlying_forms(s: Seq<char>, next: Option<char>) -> Seq<(Seq<char>, OrthoRule)> {
    match next {
        None => Seq::empty(),
        Some(nx) => if s.len() == 0 {
            Seq::empty()
        } else {
            let n = s.len();
            let last = s[n - 1];
            let e = if spec_is_vowel(nx) && !spec_is_vowel(last) {
                seq![(s.push('e'), OrthoRule::SilentE)]
            } else {
                Seq::empty()
            };
            let d = if spec_is_vowel(nx) && n >= 3 && spec_is_doubleable(last) && s[n - 2] == last
                && spec_is_vowel(s[n - 3]) && (n < 4 || !spec_is_vowel(s[n - 4])) {
                seq![(s.take(n - 1), OrthoRule::Undouble)]
            } else {
                Seq::empty()
            };
            let y = if last == 'i' && nx != 'i' && n >= 2 {
                seq![(s.take(n - 1).push('y'), OrthoRule::YToI)]
            } else {
                Seq::empty()
            };
            e + d + y
        },
    }
}

/// The rules propose at most two underlying forms, and none at all for a
/// root that ends the word.
pub proof fn lemma_few_candidates(s: Seq<char>, next: Option<char>)
    ensures
        underlying_forms(s, next).len() <= 2,
        next is None ==> underlying_forms(s, next).len() == 0,
{
}

/// What each rule proposes for a surface `s` before a suffix starting with
/// `c`: silent-e deletion is undone (adding `e`) before a vowel when `s`
/// ends in a consonant; doubling is undone (dropping the last letter) before
/// a vowel when `s` ends in a doubleable consonant written twice after a
/// single vowel; and y -> i is undone (final `i` back to `y`) before any
/// suffix not starting with `i`, vowel or consonant, when `s` has at least
/// two letters. Each rule proposes nothing else, and nothing is proposed
/// when the root ends the word.
pub proof fn lemma_candidates_by_rule(s: Seq<char>, next: Option<char>, x: Seq<char>)
    ensures
        next is None ==> underlying_forms(s, next).len() == 0,
        next matches Some(c) ==> (underlying_forms(s, next).contains((x, OrthoRule::YToI)) <==> (s.len() >= 2
            && s[s.len() - 1] == 'i' && c != 'i' && x == s.drop_last().push('y'))),
        next matches Some(c) ==> (underlying_forms(s, next).contains((x, OrthoRule::SilentE)) <==> (s.len() >= 1
            && (c == 'a' || c == 'e' || c == 'i' || c == 'o' || c == 'u') && !spec_is_vowel(s[s.len() - 1])
            && x == s.push('e'))),
        next matches Some(c) ==> (underlying_forms(s, next).contains((x, OrthoRule::Undouble)) <==> (s.len() >= 3
            && spec_is_vowel(c) && spec_is_doubleable(s[s.len() - 1]) && s[s.len() - 2] == s[s.len() - 1]
            && spec_is_vowel(s[s.len() - 3]) && (s.len() < 4 || !spec_is_vowel(s[s.len() - 4])) && x == s.drop_last())),
{
    if let Some(c) = next {
        if s.len() > 0 {
            let n = s.len();
            let f = underlying_forms(s, next);
            assert(s.take(n - 1) =~= s.drop_last());
            if s.len() >= 2 && s[n - 1] == 'i' && c != 'i' && x == s.drop_last().push('y') {
                assert(f[f.len() - 1] == (x, OrthoRule::YToI));
            }
            if s.len() >= 1 && spec_is_vowel(c) && !spec_is_vowel(s[n - 1]) && x == s.push('e') {
                assert(f[0] == (x, OrthoRule::SilentE));
            }
            if s.len() >= 3 && spec_is_vowel(c) && spec_is_doubleable(s[n - 1]) && s[n - 2] == s[n - 1]
                && spec_is_vowel(s[n - 3]) && (n < 4 || !spec_is_vowel(s[n - 4])) && x == s.drop_last() {
                assert(!spec_is_vowel(s[n - 1]));
                assert(f[1] == (x, OrthoRule::Undouble));
            }
        }
    }
}

pub open spec fn forms_view(v: Seq<(String, OrthoRule)>) -> Seq<(Seq<char>, OrthoRule)> {
    v.map_values(|p: (String, OrthoRule)| (p.0@, p.1))
}

fn is_vowel(c: char) -> (r: bool)
    ensures
        r == spec_is_vowel(c),
{
    c == 'a' || c == 'e' || c == 'i' || c == 'o' || c == 'u'
}

fn is_doubleable(c: char) -> (r: bool)
    ensures
        r == spec_is_doubleable(c),
{
    c == 'b' || c == 'd' || c == 'f' || c == 'g' || c == 'l' || c == 'm' || c == 'n' || c == 'p'
        || c == 'r' || c == 't' || c == 'z'
}

/// Underlying forms that could surface as `surface` in the root slot, given
/// the first character of whatever suffix follows it.
pub fn underlying_candidates(surface: &str, next_initial: Option<char>) -> (r: Vec<(String, OrthoRule)>)
    ensures
        forms_view(r@) == underlying_forms(surface@, next_initial),
        next_initial matches Some(c) && c != 'i' && surface@.len() >= 2 && surface@[surface@.len() - 1] == 'i'
            ==> forms_view(r@).contains((surface@.drop_last().push('y'), OrthoRule::YToI)),
{
    proof {
        lemma_candidates_by_rule(surface@, next_initial, surface@.drop_last().push('y'));
    }
    let chars = str_chars(surface);
    underlying_candidates_of(chars.as_slice(), next_initial)
}

/// [`underlying_candidates`] over the surface's characters.
pub fn underlying_candidates_of(chars: &[char], next_initial: Option<char>) -> (r: Vec<(String, OrthoRule)>)
    ensures
        forms_view(r@) == underlying_forms(chars@, next_initial),
        next_initial matches Some(c) && c != 'i' && chars@.len() >= 2 && chars@[chars@.len() - 1] == 'i'
            ==> forms_view(r@).contains((chars@.drop_last().push('y'), OrthoRule::YToI)),
{
    proof {
        lemma_candidates_by_rule(chars@, next_initial, chars@.drop_last().push('y'));
    }
    let mut out: Vec<(String, OrthoRule)> = Vec::new();
    let next = match next_initial {
        None => {
            assert(forms_view(out@) =~= underlying_forms(chars@, next_initial));
            return out;
        },
        Some(c) => c,
    };
    let n = chars.len();
    if n == 0 {
        assert(forms_view(out@) =~= underlying_forms(chars@, next_initial));
        return out;
    }
    let last = chars[n - 1];
    let ghost s = chars@;
    let ghost e: Seq<(Seq<char>, OrthoRule)> = if spec_is_vowel(next) && !spec_is_vowel(last) {
        seq![(s.push('e'), OrthoRule::SilentE)]
    } else {
        Seq::empty()
    };
    let ghost d: Seq<(Seq<char>, OrthoRule)> = if spec_is_vowel(next) && n >= 3 && spec_is_doubleable(last)
        && s[n - 2] == last && spec_is_vowel(s[n - 3]) && (n < 4 || !spec_is_vowel(s[n - 4])) {
        seq![(s.take(n - 1), OrthoRule::Undouble)]
    } else {
        Seq::empty()
    };
    if is_vowel(next) {
        if !is_vowel(last) {
            let mut v: Vec<char> = vstd::slice::slice_to_vec(chars);
            v.push('e');
            out.push((string_from_chars(v.as_slice()), OrthoRule::SilentE));
        }
        assert(forms_view(out@) =~= e);
        if n >= 3 && is_doubleable(last) && chars[n - 2] == last {
            let single_short_vowel = is_vowel(chars[n - 3]) && (n < 4 || !is_vowel(chars[n - 4]));
            if single_short_vowel {
                let stem = string_from_chars(&chars[0..n - 1]);
                out.push((stem, OrthoRule::Undouble));
            }
        }
    }
    assert(forms_view(out@) =~= e + d);
    if last == 'i' && next != 'i' && n >= 2 {
        let mut v: Vec<char> = vstd::slice::slice_to_vec(&chars[0..n - 1]);
        v.push('y');
        out.push((string_from_chars(v.as_slice()), OrthoRule::YToI));
    }
    assert(forms_view(out@) =~= underlying_forms(chars@, next_initial));
    out
}

} // verus!
