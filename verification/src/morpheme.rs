//! Morphemes, the positions they occupy, and their identity.

use vstd::prelude::*;

use crate::error::CoreError;
use crate::provenance::{Provenance, ProvenanceModel};
use crate::text::{lowercase, seq_join, str_chars, chars_eq, push_str, owned, to_lowercase};

verus! {

/// Where a morpheme sits inside a word. This is a *position*, not a type:
/// the same form can legitimately occupy more than one of them.
#[derive(Debug, Clone, Copy, PartialEq, Eq, Structural, Hash)]
pub enum MorphemeKind {
    Prefix,
    Root,
    Suffix,
}

/// The storage name of a position.
pub open spec fn kind_name(k: MorphemeKind) -> Seq<char> {
    match k {
        MorphemeKind::Prefix => "prefix"@,
        MorphemeKind::Root => "root"@,
        MorphemeKind::Suffix => "suffix"@,
    }
}

/// The position a storage name denotes, if any.
pub open spec fn kind_from_name(s: Seq<char>) -> Option<MorphemeKind> {
    if s == "prefix"@ {
        Some(MorphemeKind::Prefix)
    } else if s == "root"@ {
        Some(MorphemeKind::Root)
    } else if s == "suffix"@ {
        Some(MorphemeKind::Suffix)
    } else {
        None
    }
}

impl MorphemeKind {
    pub fn as_str(&self) -> (r: &'static str)
        ensures
            r@ == kind_name(*self),
    {
        match self {
            MorphemeKind::Prefix => "prefix",
            MorphemeKind::Root => "root",
            MorphemeKind::Suffix => "suffix",
        }
    }

    pub fn parse(s: &str) -> (r: Option<Self>)
        ensures
            r == kind_from_name(s@),
    {
        let chars = str_chars(s);
        kind_from_chars(chars.as_slice())
    }
}

/// The position named by a character slice, if any.
pub fn kind_from_chars(s: &[char]) -> (r: Option<MorphemeKind>)
    ensures
        r == kind_from_name(s@),
{
    let prefix = str_chars("prefix");
    let root = str_chars("root");
    let suffix = str_chars("suffix");
    if chars_eq(s, prefix.as_slice()) {
        Some(MorphemeKind::Prefix)
    } else if chars_eq(s, root.as_slice()) {
        Some(MorphemeKind::Root)
    } else if chars_eq(s, suffix.as_slice()) {
        Some(MorphemeKind::Suffix)
    } else {
        None
    }
}

/// Every position's name reads back as that position, and a name only ever
/// reads back as the position it names.
pub proof fn lemma_kind_name_round_trip(k: MorphemeKind, s: Seq<char>)
    ensures
        kind_from_name(kind_name(k)) == Some(k),
        kind_from_name(s) == Some(k) ==> kind_name(k) == s,
{
    reveal_strlit("prefix");
    reveal_strlit("root");
    reveal_strlit("suffix");
    assert("prefix"@.len() == 6);
    assert("root"@.len() == 4);
    assert("suffix"@.len() == 6);
    assert("prefix"@[0] != "suffix"@[0]);
}

/// The bit a position occupies in a [`MorphemePositions`] set.
pub open spec fn kind_bit(k: MorphemeKind) -> u8 {
    match k {
        MorphemeKind::Prefix => 1,
        MorphemeKind::Root => 2,
        MorphemeKind::Suffix => 4,
    }
}

/// The positions of a set, always in prefix/root/suffix order.
pub open spec fn ordered_kinds(s: Set<MorphemeKind>) -> Seq<MorphemeKind> {
    (if s.contains(MorphemeKind::Prefix) { seq![MorphemeKind::Prefix] } else { Seq::empty() })
        + (if s.contains(MorphemeKind::Root) { seq![MorphemeKind::Root] } else { Seq::empty() })
        + (if s.contains(MorphemeKind::Suffix) { seq![MorphemeKind::Suffix] } else { Seq::empty() })
}

/// The storage string of a position set: names in canonical order, joined by `|`.
pub open spec fn storage_string(s: Set<MorphemeKind>) -> Seq<char> {
    seq_join(ordered_kinds(s).map_values(|k: MorphemeKind| kind_name(k)), "|"@)
}

/// `s` split at every `sep`, as `str::split` gives it: `n` separators make
/// `n + 1` pieces, empty ones included.
pub open spec fn split_on(s: Seq<char>, sep: char) -> Seq<Seq<char>>
    decreases s.len(),
{
    if s.len() == 0 {
        seq![Seq::empty()]
    } else {
        let p = split_on(s.drop_last(), sep);
        if s.last() == sep {
            p.push(Seq::empty())
        } else {
            p.update(p.len() - 1, p.last().push(s.last()))
        }
    }
}

/// `s` split at every `sep`, as [`split_on`] describes it.
pub fn split_chars(s: &[char], sep: char) -> (r: Vec<Vec<char>>)
    ensures
        r@.map_values(|v: Vec<char>| v@) == split_on(s@, sep),
{
    let mut done: Vec<Vec<char>> = Vec::new();
    let mut cur: Vec<char> = Vec::new();
    let mut i: usize = 0;
    while i < s.len()
        invariant
            i <= s@.len(),
            done@.map_values(|v: Vec<char>| v@).push(cur@) == split_on(s@.take(i as int), sep),
        decreases s@.len() - i,
    {
        let c = s[i];
        proof {
            let t = s@.take(i + 1);
            assert(t.drop_last() == s@.take(i as int));
            assert(t.last() == c);
            lemma_split_on_nonempty(s@.take(i as int), sep);
        }
        if c == sep {
            let piece = cur;
            done.push(piece);
            cur = Vec::new();
            assert(done@.map_values(|v: Vec<char>| v@).push(cur@) =~= split_on(s@.take(i + 1), sep));
        } else {
            cur.push(c);
            assert(done@.map_values(|v: Vec<char>| v@).push(cur@) =~= split_on(s@.take(i + 1), sep));
        }
        i = i + 1;
    }
    assert(s@.take(s@.len() as int) == s@);
    done.push(cur);
    done
}

/// The position set a storage string denotes: every non-empty `|`-separated
/// piece must name a position, and at least one piece must be non-empty.
pub open spec fn positions_from_str(s: Seq<char>) -> Option<Set<MorphemeKind>> {
    let parts = split_on(s, '|');
    if (forall|i: int| 0 <= i < parts.len() && parts[i].len() > 0 ==> kind_from_name(parts[i]) is Some)
        && (exists|i: int| 0 <= i < parts.len() && parts[i].len() > 0) {
        Some(Set::new(|k: MorphemeKind| exists|i: int| 0 <= i < parts.len() && parts[i] == kind_name(k)))
    } else {
        None
    }
}

pub proof fn lemma_split_on_nonempty(s: Seq<char>, sep: char)
    ensures
        split_on(s, sep).len() >= 1,
    decreases s.len(),
{
    if s.len() > 0 {
        lemma_split_on_nonempty(s.drop_last(), sep);
    }
}

proof fn lemma_split_on_tail(x: Seq<char>, b: Seq<char>, sep: char)
    requires
        forall|i: int| 0 <= i < b.len() ==> b[i] != sep,
    ensures
        split_on(x + b, sep) == split_on(x, sep).update(split_on(x, sep).len() - 1, split_on(x, sep).last() + b),
    decreases b.len(),
{
    lemma_split_on_nonempty(x, sep);
    if b.len() == 0 {
        assert(x + b =~= x);
        assert(split_on(x, sep).last() + b =~= split_on(x, sep).last());
        assert(split_on(x, sep).update(split_on(x, sep).len() - 1, split_on(x, sep).last()) =~= split_on(x, sep));
    } else {
        let c = b.last();
        let b0 = b.drop_last();
        assert(c == b[b.len() - 1]);
        assert(c != sep);
        assert forall|i: int| 0 <= i < b0.len() implies b0[i] != sep by {
            assert(b0[i] == b[i]);
        }
        lemma_split_on_tail(x, b0, sep);
        assert((x + b).drop_last() =~= x + b0);
        assert((x + b).last() == c);
        let p = split_on(x, sep);
        let q = split_on(x + b0, sep);
        assert(q.last() == p.last() + b0);
        assert(p.last() + b0 + seq![c] =~= p.last() + b);
        assert(split_on(x + b, sep) =~= q.update(q.len() - 1, q.last().push(c)));
        assert(q.len() == p.len());
        assert(q.last().push(c) =~= p.last() + b);
        assert(q.update(q.len() - 1, p.last() + b) =~= p.update(p.len() - 1, p.last() + b));
        assert(split_on(x + b, sep) =~= p.update(p.len() - 1, p.last() + b));
    }
}

/// Joining pieces that hold no separator and splitting the result again
/// gives the pieces back.
pub proof fn lemma_split_on_join(parts: Seq<Seq<char>>, sep: char)
    requires
        parts.len() > 0,
        forall|i: int, j: int| 0 <= i < parts.len() && 0 <= j < parts[i].len() ==> parts[i][j] != sep,
    ensures
        split_on(seq_join(parts, seq![sep]), sep) == parts,
    decreases parts.len(),
{
    let last = parts.last();
    assert forall|j: int| 0 <= j < last.len() implies last[j] != sep by {
        assert(parts[parts.len() - 1][j] != sep);
    }
    if parts.len() == 1 {
        lemma_split_on_tail(Seq::empty(), last, sep);
        assert(Seq::<char>::empty() + last =~= last);
        assert(split_on(Seq::<char>::empty(), sep) =~= seq![Seq::<char>::empty()]);
        assert(Seq::<char>::empty() + last =~= last);
        assert(split_on(last, sep) =~= seq![last]);
        assert(parts =~= seq![last]);
    } else {
        let init = parts.drop_last();
        lemma_split_on_join(init, sep);
        let head = seq_join(init, seq![sep]) + seq![sep];
        assert(seq_join(parts, seq![sep]) =~= head + last);
        lemma_split_on_tail(head, last, sep);
        assert(head.drop_last() =~= seq_join(init, seq![sep]));
        assert(head.last() == sep);
        assert(split_on(head, sep) =~= init.push(Seq::empty()));
        assert(Seq::<char>::empty() + last =~= last);
        assert(split_on(head + last, sep) =~= init.push(last));
        assert(init.push(last) =~= parts);
    }
}

/// A non-empty position set survives being written as a storage string and
/// read back.
pub proof fn lemma_positions_round_trip(s: Set<MorphemeKind>)
    requires
        s != Set::<MorphemeKind>::empty(),
    ensures
        positions_from_str(storage_string(s)) == Some(s),
{
    reveal_strlit("prefix");
    reveal_strlit("root");
    reveal_strlit("suffix");
    reveal_strlit("|");
    let ks = ordered_kinds(s);
    let names = ks.map_values(|k: MorphemeKind| kind_name(k));
    assert forall|k: MorphemeKind| s.contains(k) <==> ks.contains(k) by {
        if s.contains(k) {
            match k {
                MorphemeKind::Prefix => assert(ks[0] == k),
                MorphemeKind::Root => {
                    if s.contains(MorphemeKind::Prefix) {
                        assert(ks[1] == k);
                    } else {
                        assert(ks[0] == k);
                    }
                },
                MorphemeKind::Suffix => assert(ks.last() == k),
            }
        }
    }
    assert(ks.len() > 0) by {
        if !(exists|k: MorphemeKind| s.contains(k)) {
            assert(s =~= Set::<MorphemeKind>::empty());
        }
        let k = choose|k: MorphemeKind| s.contains(k);
        assert(ks.contains(k));
    }
    assert forall|i: int, j: int| 0 <= i < names.len() && 0 <= j < names[i].len() implies names[i][j] != '|' by {
        lemma_kind_name_round_trip(ks[i], names[i]);
    }
    lemma_split_on_join(names, '|');
    assert("|"@ =~= seq!['|']);
    let parts = split_on(storage_string(s), '|');
    assert(parts == names);
    assert forall|i: int| 0 <= i < parts.len() && parts[i].len() > 0 implies kind_from_name(parts[i]) is Some by {
        lemma_kind_name_round_trip(ks[i], parts[i]);
    }
    assert(parts[0].len() > 0) by {
        lemma_kind_name_round_trip(ks[0], parts[0]);
    }
    assert(Set::new(|k: MorphemeKind| exists|i: int| 0 <= i < parts.len() && parts[i] == kind_name(k)) =~= s) by {
        assert forall|k: MorphemeKind| #[trigger] s.contains(k) <==> exists|i: int| 0 <= i < parts.len() && parts[i] == kind_name(k) by {
            if s.contains(k) {
                let i = choose|i: int| 0 <= i < ks.len() && ks[i] == k;
                assert(parts[i] == kind_name(k));
            }
            if exists|i: int| 0 <= i < parts.len() && parts[i] == kind_name(k) {
                let i = choose|i: int| 0 <= i < parts.len() && parts[i] == kind_name(k);
                lemma_kind_name_round_trip(ks[i], kind_name(k));
                lemma_kind_name_round_trip(k, kind_name(k));
                assert(ks.contains(ks[i]));
            }
        }
    }
}

proof fn lemma_bits(a: u8, b: u8)
    by (bit_vector)
    ensures
        (a | b) & 1 != 0 <==> (a & 1 != 0 || b & 1 != 0),
        (a | b) & 2 != 0 <==> (a & 2 != 0 || b & 2 != 0),
        (a | b) & 4 != 0 <==> (a & 4 != 0 || b & 4 != 0),
        a < 8 && b < 8 ==> (a | b) < 8,
        a < 8 ==> (a == 0 <==> (a & 1 == 0 && a & 2 == 0 && a & 4 == 0)),
        (0u8 & 1 == 0 && 0u8 & 2 == 0 && 0u8 & 4 == 0),
        (1u8 & 1 != 0 && 1u8 & 2 == 0 && 1u8 & 4 == 0),
        (2u8 & 1 == 0 && 2u8 & 2 != 0 && 2u8 & 4 == 0),
        (4u8 & 1 == 0 && 4u8 & 2 == 0 && 4u8 & 4 != 0),
{
}

/// The set of positions a single form is attested in.
#[derive(Debug, Clone, Copy, PartialEq, Eq, Structural, Hash)]
pub struct MorphemePositions(u8);

impl View for MorphemePositions {
    type V = Set<MorphemeKind>;

    closed spec fn view(&self) -> Set<MorphemeKind> {
        Set::new(|k: MorphemeKind| self.0 & kind_bit(k) != 0)
    }
}

impl Default for MorphemePositions {
    fn default() -> (r: Self)
        ensures
            r@ == Set::<MorphemeKind>::empty(),
    {
        Self::empty()
    }
}

impl MorphemePositions {
    pub const PREFIX: u8 = 1;
    pub const ROOT: u8 = 2;
    pub const SUFFIX: u8 = 4;

    #[verifier::type_invariant]
    closed spec fn inv(self) -> bool {
        self.0 < 8
    }

    pub fn empty() -> (r: Self)
        ensures
            r@ == Set::<MorphemeKind>::empty(),
    {
        proof {
            lemma_bits(0, 0);
        }
        let r = Self(0);
        assert(r@ =~= Set::<MorphemeKind>::empty());
        r
    }

    pub fn from_kind(kind: MorphemeKind) -> (r: Self)
        ensures
            r@ == set![kind],
    {
        proof {
            lemma_bits(0, 0);
        }
        let r = Self(Self::bit(kind));
        assert(r@ =~= set![kind]);
        r
    }

    fn bit(kind: MorphemeKind) -> (r: u8)
        ensures
            r == kind_bit(kind),
    {
        match kind {
            MorphemeKind::Prefix => Self::PREFIX,
            MorphemeKind::Root => Self::ROOT,
            MorphemeKind::Suffix => Self::SUFFIX,
        }
    }

    pub fn insert(&mut self, kind: MorphemeKind)
        ensures
            final(self)@ == old(self)@.insert(kind),
    {
        proof {
            use_type_invariant(&*self);
        }
        let b = Self::bit(kind);
        proof {
            lemma_bits(self.0, b);
            lemma_bits(0, 0);
        }
        *self = Self(self.0 | b);
        assert(self@ =~= old(self)@.insert(kind));
    }

    pub fn union(&mut self, other: Self)
        ensures
            final(self)@ == old(self)@.union(other@),
    {
        proof {
            use_type_invariant(&*self);
            use_type_invariant(&other);
            lemma_bits(self.0, other.0);
        }
        *self = Self(self.0 | other.0);
        assert(self@ =~= old(self)@.union(other@));
    }

    pub fn contains(&self, kind: MorphemeKind) -> (r: bool)
        ensures
            r == self@.contains(kind),
    {
        self.0 & Self::bit(kind) != 0
    }

    pub fn is_empty(&self) -> (r: bool)
        ensures
            r == (self@ == Set::<MorphemeKind>::empty()),
    {
        proof {
            use_type_invariant(self);
            lemma_bits(self.0, 0);
            if self.0 != 0 {
                assert(self@.contains(MorphemeKind::Prefix) || self@.contains(MorphemeKind::Root)
                    || self@.contains(MorphemeKind::Suffix));
            } else {
                assert(self@ =~= Set::<MorphemeKind>::empty());
            }
        }
        self.0 == 0
    }

    /// The members, always in prefix/root/suffix order.
    pub fn iter(&self) -> (r: Vec<MorphemeKind>)
        ensures
            r@ == ordered_kinds(self@),
    {
        let mut r: Vec<MorphemeKind> = Vec::new();
        if self.contains(MorphemeKind::Prefix) {
            r.push(MorphemeKind::Prefix);
        }
        if self.contains(MorphemeKind::Root) {
            r.push(MorphemeKind::Root);
        }
        if self.contains(MorphemeKind::Suffix) {
            r.push(MorphemeKind::Suffix);
        }
        assert(r@ =~= ordered_kinds(self@));
        r
    }

    /// The canonical storage string, e.g. `prefix|suffix`.
    pub fn to_storage_string(self) -> (r: String)
        ensures
            r@ == storage_string(self@),
    {
        let kinds = self.iter();
        let ghost names = kinds@.map_values(|k: MorphemeKind| kind_name(k));
        let mut out = String::new();
        let mut i: usize = 0;
        while i < kinds.len()
            invariant
                i <= kinds@.len(),
                names == kinds@.map_values(|k: MorphemeKind| kind_name(k)),
                out@ == seq_join(names.take(i as int), "|"@),
            decreases kinds@.len() - i,
        {
            let name = kinds[i].as_str();
            if i > 0 {
                push_str(&mut out, "|");
            }
            push_str(&mut out, name);
            assert(names.take(i + 1).drop_last() == names.take(i as int));
            if i == 0 {
                assert(names.take(1) == seq![names[0]]);
                assert(out@ == name@);
            }
            i = i + 1;
        }
        assert(names.take(kinds@.len() as int) == names);
        out
    }

    /// Reads a storage string back. Errors unless every non-empty
    /// `|`-separated piece names a position and at least one piece is
    /// non-empty.
    pub fn parse(s: &str) -> (r: Result<Self, CoreError>)
        ensures
            r matches Ok(p) ==> positions_from_str(s@) == Some(p@),
            r is Err ==> positions_from_str(s@) is None,
            r is Err ==> (r->Err_0 matches CoreError::InvalidMorphemePositions(t) && t@ == s@),
    {
        let chars = str_chars(s);
        let done = split_chars(chars.as_slice(), '|');
        let ghost parts = split_on(s@, '|');
        assert(done@.map_values(|v: Vec<char>| v@) == parts);
        let mut out = Self::empty();
        let mut seen_nonempty = false;
        let mut j: usize = 0;
        while j < done.len()
            invariant
                j <= done@.len(),
                parts == split_on(s@, '|'),
                parts.len() == done@.len(),
                forall|k: int| 0 <= k < done@.len() ==> #[trigger] done@[k]@ == parts[k],
                forall|k: int| 0 <= k < j && parts[k].len() > 0 ==> kind_from_name(parts[k]) is Some,
                seen_nonempty == (exists|k: int| 0 <= k < j && parts[k].len() > 0),
                out@ == Set::new(|kd: MorphemeKind| exists|k: int| 0 <= k < j && parts[k] == kind_name(kd)),
            decreases done@.len() - j,
        {
            assert(done@[j as int]@ == parts[j as int]);
            if done[j].len() > 0 {
                match kind_from_chars(done[j].as_slice()) {
                    Some(kind) => {
                        out.insert(kind);
                        seen_nonempty = true;
                        proof {
                            lemma_kind_name_round_trip(kind, parts[j as int]);
                        }
                    },
                    None => {
                        assert(parts[j as int].len() > 0 && kind_from_name(parts[j as int]) is None);
                        assert(parts == split_on(s@, '|'));
                        assert(positions_from_str(s@) is None);
                        return Err(CoreError::InvalidMorphemePositions(owned(s)));
                    },
                }
            }
            proof {
                assert forall|kd: MorphemeKind| #[trigger] out@.contains(kd) == (exists|k: int|
                    0 <= k < j + 1 && parts[k] == kind_name(kd)) by {
                    if parts[j as int] == kind_name(kd) {
                        lemma_kind_name_round_trip(kd, parts[j as int]);
                        reveal_strlit("prefix");
                        reveal_strlit("root");
                        reveal_strlit("suffix");
                    }
                }
            }
            assert(out@ =~= Set::new(|kd: MorphemeKind| exists|k: int| 0 <= k < j + 1 && parts[k] == kind_name(kd)));
            j = j + 1;
        }
        if !seen_nonempty {
            return Err(CoreError::InvalidMorphemePositions(owned(s)));
        }
        Ok(out)
    }
}

/// A deterministic natural key — the lowercased form itself.
#[derive(Debug, PartialEq, Eq, Hash, PartialOrd, Ord)]
pub struct MorphemeId(pub String);

impl View for MorphemeId {
    type V = Seq<char>;

    open spec fn view(&self) -> Seq<char> {
        self.0@
    }
}

impl Clone for MorphemeId {
    fn clone(&self) -> (r: Self)
        ensures
            r == *self,
    {
        MorphemeId(self.0.clone())
    }
}

impl MorphemeId {
    pub fn new(form: &str) -> (r: Self)
        ensures
            r@ == lowercase(form@),
            vstd::utf8::is_ascii_chars(form@) ==> r@ == crate::text::ascii_lower(form@),
    {
        MorphemeId(to_lowercase(form))
    }

    pub fn as_str(&self) -> (r: &str)
        ensures
            r@ == self@,
    {
        self.0.as_str()
    }
}

/// The abstract content of a [`Morpheme`].
pub struct MorphemeModel {
    pub id: Seq<char>,
    pub form: Seq<char>,
    pub positions: Set<MorphemeKind>,
    pub meanings: Seq<Seq<char>>,
    pub variants: Seq<Seq<char>>,
    pub provenance: ProvenanceModel,
}

#[derive(Debug, PartialEq)]
pub struct Morpheme {
    pub id: MorphemeId,
    /// Original casing, e.g. "spect", "trans", "ation".
    pub form: String,
    pub positions: MorphemePositions,
    pub meanings: Vec<String>,
    /// Surface allomorphs of this morpheme that no general spelling rule
    /// predicts (Latin stem alternation, prefix assimilation).
    pub variants: Vec<String>,
    pub provenance: Provenance,
}

pub open spec fn strings_view(v: Seq<String>) -> Seq<Seq<char>> {
    v.map_values(|s: String| s@)
}

impl View for Morpheme {
    type V = MorphemeModel;

    open spec fn view(&self) -> MorphemeModel {
        MorphemeModel {
            id: self.id@,
            form: self.form@,
            positions: self.positions@,
            meanings: strings_view(self.meanings@),
            variants: strings_view(self.variants@),
            provenance: self.provenance@,
        }
    }
}

/// A copy of a list of strings.
pub fn clone_strings(v: &Vec<String>) -> (r: Vec<String>)
    ensures
        r@ == v@,
{
    let mut r: Vec<String> = Vec::new();
    let mut i: usize = 0;
    while i < v.len()
        invariant
            i <= v@.len(),
            r@ == v@.take(i as int),
        decreases v@.len() - i,
    {
        r.push(v[i].clone());
        assert(v@.take(i + 1) == v@.take(i as int).push(v@[i as int]));
        i = i + 1;
    }
    assert(v@.take(v@.len() as int) == v@);
    r
}

impl Clone for Morpheme {
    fn clone(&self) -> (r: Self)
        ensures
            r@ == self@,
    {
        Morpheme {
            id: self.id.clone(),
            form: self.form.clone(),
            positions: self.positions,
            meanings: clone_strings(&self.meanings),
            variants: clone_strings(&self.variants),
            provenance: self.provenance.clone(),
        }
    }
}

impl Morpheme {
    pub fn new(form: &str, positions: MorphemePositions, meanings: Vec<String>, provenance: Provenance) -> (r: Self)
        ensures
            r.id@ == lowercase(form@),
            r.form@ == form@,
            r.positions == positions,
            r.meanings == meanings,
            r.variants@ == Seq::<String>::empty(),
            r.provenance == provenance,
    {
        Self::with_variants(form, positions, meanings, Vec::new(), provenance)
    }

    pub fn with_variants(
        form: &str,
        positions: MorphemePositions,
        meanings: Vec<String>,
        variants: Vec<String>,
        provenance: Provenance,
    ) -> (r: Self)
        ensures
            r.id@ == lowercase(form@),
            r.form@ == form@,
            r.positions == positions,
            r.meanings == meanings,
            r.variants == variants,
            r.provenance == provenance,
    {
        let id = MorphemeId::new(form);
        Morpheme { id, form: owned(form), positions, meanings, variants, provenance }
    }
}

} // verus!
