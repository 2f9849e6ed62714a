//! The curated morpheme dataset: one entry per morpheme, keyed by the
//! morpheme's id, checked strictly on the way in.

use vstd::prelude::*;

use crate::morpheme::{kind_from_name, strings_view, MorphemeId, MorphemeKind, MorphemePositions};
use crate::text::{chars_eq, chars_lt, lowercase, owned, push_str, str_chars, str_lt};

verus! {

/// One entry as the dataset file writes it, before it is checked. The
/// file's key (the morpheme's form) travels beside it.
#[derive(Debug)]
pub struct RawEntry {
    pub positions: Vec<String>,
    pub meanings: Vec<String>,
    pub examples: Vec<String>,
    /// Irregular allomorphs only; regular spelling changes are derived.
    pub variants: Vec<String>,
}

/// The abstract content of a [`RawEntry`].
pub struct RawModel {
    pub positions: Seq<Seq<char>>,
    pub meanings: Seq<Seq<char>>,
    pub examples: Seq<Seq<char>>,
    pub variants: Seq<Seq<char>>,
}

impl View for RawEntry {
    type V = RawModel;

    open spec fn view(&self) -> RawModel {
        RawModel {
            positions: strings_view(self.positions@),
            meanings: strings_view(self.meanings@),
            examples: strings_view(self.examples@),
            variants: strings_view(self.variants@),
        }
    }
}

pub open spec fn raw_view(v: Seq<(String, RawEntry)>) -> Seq<(Seq<char>, RawModel)> {
    v.map_values(|p: (String, RawEntry)| (p.0@, p.1@))
}

/// One morpheme as written in the curated dataset.
#[derive(Debug)]
pub struct DatasetEntry {
    pub form: String,
    pub positions: MorphemePositions,
    pub meanings: Vec<String>,
    pub examples: Vec<String>,
    pub variants: Vec<String>,
}

/// The abstract content of a [`DatasetEntry`].
pub struct EntryModel {
    pub form: Seq<char>,
    pub positions: Set<MorphemeKind>,
    pub meanings: Seq<Seq<char>>,
    pub examples: Seq<Seq<char>>,
    pub variants: Seq<Seq<char>>,
}

impl View for DatasetEntry {
    type V = EntryModel;

    open spec fn view(&self) -> EntryModel {
        EntryModel {
            form: self.form@,
            positions: self.positions@,
            meanings: strings_view(self.meanings@),
            examples: strings_view(self.examples@),
            variants: strings_view(self.variants@),
        }
    }
}

pub open spec fn pairs_view(v: Seq<(MorphemeId, DatasetEntry)>) -> Seq<(Seq<char>, EntryModel)> {
    v.map_values(|p: (MorphemeId, DatasetEntry)| (p.0@, p.1@))
}

/// Keys in strictly increasing code-point order.
pub open spec fn keys_sorted(s: Seq<(Seq<char>, EntryModel)>) -> bool {
    forall|i: int, j: int| 0 <= i < j < s.len() ==> str_lt(#[trigger] s[i].0, #[trigger] s[j].0)
}

/// Every entry is filed under its own id, the lowercased form.
pub open spec fn keyed_by_id(s: Seq<(Seq<char>, EntryModel)>) -> bool {
    forall|i: int| 0 <= i < s.len() ==> #[trigger] s[i].0 == lowercase(s[i].1.form)
}

/// Where key `k` sits in `s`.
pub open spec fn has_key_at(s: Seq<(Seq<char>, EntryModel)>, k: Seq<char>, i: int) -> bool {
    0 <= i < s.len() && s[i].0 == k
}

/// The entries as a map from key to entry.
pub open spec fn entry_map(s: Seq<(Seq<char>, EntryModel)>) -> Map<Seq<char>, EntryModel> {
    Map::new(
        |k: Seq<char>| exists|i: int| #[trigger] has_key_at(s, k, i),
        |k: Seq<char>| s[choose|i: int| #[trigger] has_key_at(s, k, i)].1,
    )
}

/// Why a dataset was refused.
#[derive(Debug, PartialEq, Eq)]
pub enum DatasetError {
    /// An entry (by form) lists no positions.
    NoPositions(String),
    /// An entry (by form) lists a position that is not prefix/root/suffix.
    UnknownPosition(String, String),
    /// Two entries (the id, the later form) collide on the lowercased id.
    DuplicateId(String, String),
}

/// The abstract content of a [`DatasetError`].
pub enum DatasetErrorModel {
    NoPositions(Seq<char>),
    UnknownPosition(Seq<char>, Seq<char>),
    DuplicateId(Seq<char>, Seq<char>),
}

impl View for DatasetError {
    type V = DatasetErrorModel;

    open spec fn view(&self) -> DatasetErrorModel {
        match self {
            DatasetError::NoPositions(f) => DatasetErrorModel::NoPositions(f@),
            DatasetError::UnknownPosition(f, p) => DatasetErrorModel::UnknownPosition(f@, p@),
            DatasetError::DuplicateId(id, f) => DatasetErrorModel::DuplicateId(id@, f@),
        }
    }
}

/// The text the error reads as.
pub open spec fn error_message(e: DatasetErrorModel) -> Seq<char> {
    match e {
        DatasetErrorModel::NoPositions(f) => "entry '"@ + f + "' declares no positions"@,
        DatasetErrorModel::UnknownPosition(f, p) => "entry '"@ + f + "' has unknown position '"@ + p + "'"@,
        DatasetErrorModel::DuplicateId(id, f) => "two entries share the id '"@ + id + "' (form '"@ + f + "')"@,
    }
}

impl DatasetError {
    /// The error as a sentence.
    pub fn message(&self) -> (r: String)
        ensures
            r@ == error_message(self@),
    {
        match self {
            DatasetError::NoPositions(f) => {
                let mut s = owned("entry '");
                push_str(&mut s, f.as_str());
                push_str(&mut s, "' declares no positions");
                s
            },
            DatasetError::UnknownPosition(f, p) => {
                let mut s = owned("entry '");
                push_str(&mut s, f.as_str());
                push_str(&mut s, "' has unknown position '");
                push_str(&mut s, p.as_str());
                push_str(&mut s, "'");
                s
            },
            DatasetError::DuplicateId(id, f) => {
                let mut s = owned("two entries share the id '");
                push_str(&mut s, id.as_str());
                push_str(&mut s, "' (form '");
                push_str(&mut s, f.as_str());
                push_str(&mut s, "')");
                s
            },
        }
    }
}

/// The positions a list of position names declares.
pub open spec fn kinds_of(ps: Seq<Seq<char>>) -> Set<MorphemeKind> {
    Set::new(|k: MorphemeKind| exists|i: int| 0 <= i < ps.len() && kind_from_name(#[trigger] ps[i]) == Some(k))
}

/// `ps[i]` is the first name that is not a position.
pub open spec fn first_unknown_at(ps: Seq<Seq<char>>, i: int) -> bool {
    &&& 0 <= i < ps.len()
    &&& kind_from_name(ps[i]) is None
    &&& forall|j: int| 0 <= j < i ==> kind_from_name(#[trigger] ps[j]) is Some
}

/// What checking one more file entry does to the entries accepted so far.
pub open spec fn entry_step(m: Map<Seq<char>, EntryModel>, form: Seq<char>, e: RawModel) -> Result<
    Map<Seq<char>, EntryModel>,
    DatasetErrorModel,
> {
    if form.len() == 0 {
        Ok(m)
    } else if e.positions.len() == 0 {
        Err(DatasetErrorModel::NoPositions(form))
    } else if exists|i: int| first_unknown_at(e.positions, i) {
        Err(DatasetErrorModel::UnknownPosition(form, e.positions[choose|i: int| first_unknown_at(e.positions, i)]))
    } else if m.contains_key(lowercase(form)) {
        Err(DatasetErrorModel::DuplicateId(lowercase(form), form))
    } else {
        Ok(
            m.insert(
                lowercase(form),
                EntryModel {
                    form,
                    positions: kinds_of(e.positions),
                    meanings: e.meanings,
                    examples: e.examples,
                    variants: e.variants,
                },
            ),
        )
    }
}

/// The dataset the file entries, checked in order, give: the first refusal
/// stops the check.
pub open spec fn parsed(raw: Seq<(Seq<char>, RawModel)>) -> Result<Map<Seq<char>, EntryModel>, DatasetErrorModel>
    decreases raw.len(),
{
    if raw.len() == 0 {
        Ok(Map::empty())
    } else {
        match parsed(raw.drop_last()) {
            Ok(m) => entry_step(m, raw.last().0, raw.last().1),
            Err(e) => Err(e),
        }
    }
}

proof fn lemma_parsed_err_prefix(raw: Seq<(Seq<char>, RawModel)>, n: int)
    requires
        0 <= n <= raw.len(),
        parsed(raw.take(n)) is Err,
    ensures
        parsed(raw) == parsed(raw.take(n)),
    decreases raw.len(),
{
    if n < raw.len() {
        assert(raw.drop_last().take(n) == raw.take(n));
        lemma_parsed_err_prefix(raw.drop_last(), n);
    } else {
        assert(raw.take(n) == raw);
    }
}

/// The whole dataset, keyed by canonical morpheme id, in id order.
#[derive(Debug)]
pub struct Dataset {
    entries: Vec<(MorphemeId, DatasetEntry)>,
}

impl View for Dataset {
    type V = Seq<(Seq<char>, EntryModel)>;

    closed spec fn view(&self) -> Seq<(Seq<char>, EntryModel)> {
        pairs_view(self.entries@)
    }
}

proof fn lemma_key_unique(s: Seq<(Seq<char>, EntryModel)>, k: Seq<char>, i: int, j: int)
    requires
        keys_sorted(s),
        has_key_at(s, k, i),
        has_key_at(s, k, j),
    ensures
        i == j,
{
    crate::index::lemma_str_lt_order();
    if i < j {
        assert(str_lt(s[i].0, s[j].0));
    } else if j < i {
        assert(str_lt(s[j].0, s[i].0));
    }
}

proof fn lemma_entry_map_at(s: Seq<(Seq<char>, EntryModel)>, i: int)
    requires
        keys_sorted(s),
        0 <= i < s.len(),
    ensures
        entry_map(s).contains_key(s[i].0),
        entry_map(s)[s[i].0] == s[i].1,
{
    assert(has_key_at(s, s[i].0, i));
    let c = choose|j: int| #[trigger] has_key_at(s, s[i].0, j);
    lemma_key_unique(s, s[i].0, i, c);
}

impl Dataset {
    #[verifier::type_invariant]
    closed spec fn inv(self) -> bool {
        keys_sorted(pairs_view(self.entries@)) && keyed_by_id(pairs_view(self.entries@))
    }

    /// An empty dataset.
    pub fn new() -> (r: Self)
        ensures
            r@.len() == 0,
    {
        let r = Dataset { entries: Vec::new() };
        assert(pairs_view(r.entries@) =~= Seq::empty());
        r
    }

    /// The number of entries.
    pub fn len(&self) -> (r: usize)
        ensures
            r == self@.len(),
    {
        self.entries.len()
    }

    /// The entries in increasing id order, each under its own id.
    pub fn entries(&self) -> (r: &Vec<(MorphemeId, DatasetEntry)>)
        ensures
            pairs_view(r@) == self@,
            keys_sorted(self@),
            keyed_by_id(self@),
    {
        proof {
            use_type_invariant(self);
        }
        &self.entries
    }

    /// The entries, given up by value, in increasing id order.
    pub fn into_entries(self) -> (r: Vec<(MorphemeId, DatasetEntry)>)
        ensures
            pairs_view(r@) == self@,
            keys_sorted(self@),
            keyed_by_id(self@),
    {
        proof {
            use_type_invariant(&self);
        }
        self.entries
    }

    /// Where `id` would sit: the first position whose key is not below it.
    fn position_of(&self, id: &Vec<char>) -> (r: usize)
        ensures
            r <= self@.len(),
            forall|j: int| 0 <= j < r ==> str_lt(#[trigger] self@[j].0, id@),
            r < self@.len() ==> !str_lt(self@[r as int].0, id@),
    {
        proof {
            use_type_invariant(self);
            crate::index::lemma_str_lt_order();
        }
        let mut p: usize = 0;
        while p < self.entries.len()
            invariant
                p <= self@.len(),
                self@.len() == self.entries@.len(),
                pairs_view(self.entries@) == self@,
                forall|j: int| 0 <= j < p ==> str_lt(#[trigger] self@[j].0, id@),
            decreases self@.len() - p,
        {
            let key = str_chars(self.entries[p].0.as_str());
            assert(key@ == self@[p as int].0);
            if !chars_lt(key.as_slice(), id.as_slice()) {
                return p;
            }
            p = p + 1;
        }
        p
    }

    /// Whether an entry is filed under `id`.
    pub fn contains_key(&self, id: &MorphemeId) -> (r: bool)
        ensures
            r == entry_map(self@).contains_key(id@),
    {
        proof {
            use_type_invariant(self);
            crate::index::lemma_str_lt_order();
        }
        let id_chars = str_chars(id.as_str());
        let p = self.position_of(&id_chars);
        if p < self.entries.len() {
            let key = str_chars(self.entries[p].0.as_str());
            assert(key@ == self@[p as int].0);
            if chars_eq(key.as_slice(), id_chars.as_slice()) {
                assert(has_key_at(self@, id@, p as int));
                return true;
            }
        }
        proof {
            if entry_map(self@).contains_key(id@) {
                let i = choose|i: int| #[trigger] has_key_at(self@, id@, i);
                if i < p {
                    assert(str_lt(self@[i].0, id@));
                } else if i > p {
                    assert(str_lt(self@[p as int].0, self@[i].0));
                }
            }
        }
        false
    }

    /// Files `entry` under its id, replacing and returning any entry already
    /// filed there.
    pub fn insert(&mut self, entry: DatasetEntry) -> (r: Option<DatasetEntry>)
        ensures
            entry_map(final(self)@) == entry_map(old(self)@).insert(lowercase(entry.form@), entry@),
            match r {
                Some(prev) => entry_map(old(self)@).contains_key(lowercase(entry.form@))
                    && prev@ == entry_map(old(self)@)[lowercase(entry.form@)],
                None => !entry_map(old(self)@).contains_key(lowercase(entry.form@)),
            },
            final(self)@.len() == old(self)@.len() + (if r is None { 1int } else { 0int }),
    {
        proof {
            use_type_invariant(&*self);
            crate::index::lemma_str_lt_order();
        }
        let ghost old_s = self@;
        let ghost ev = entry@;
        let id = MorphemeId::new(entry.form.as_str());
        let ghost k = id@;
        let id_chars = str_chars(id.as_str());
        let p = self.position_of(&id_chars);
        let mut found = false;
        if p < self.entries.len() {
            let key = str_chars(self.entries[p].0.as_str());
            assert(key@ == old_s[p as int].0);
            found = chars_eq(key.as_slice(), id_chars.as_slice());
        }
        if found {
            let mut entries = Vec::new();
            std::mem::swap(&mut entries, &mut self.entries);
            let (_, prev) = entries.remove(p);
            entries.insert(p, (id, entry));
            let ghost new_s = pairs_view(entries@);
            proof {
                assert(new_s =~= old_s.update(p as int, (k, ev)));
                lemma_entry_map_at(old_s, p as int);
                assert forall|i: int, j: int| 0 <= i < j < new_s.len() implies str_lt(#[trigger] new_s[i].0, #[trigger] new_s[j].0) by {
                    assert(new_s[i].0 == old_s[i].0 && new_s[j].0 == old_s[j].0);
                }
                assert(keys_sorted(new_s));
                assert(keyed_by_id(new_s));
                assert(entry_map(new_s) =~= entry_map(old_s).insert(k, ev)) by {
                    assert forall|q: Seq<char>| #[trigger] entry_map(new_s).contains_key(q) <==> entry_map(old_s).insert(k, ev).contains_key(q) by {
                        if entry_map(new_s).contains_key(q) {
                            let i = choose|i: int| #[trigger] has_key_at(new_s, q, i);
                            assert(has_key_at(old_s, q, i));
                        }
                        if entry_map(old_s).contains_key(q) {
                            let i = choose|i: int| #[trigger] has_key_at(old_s, q, i);
                            assert(has_key_at(new_s, q, i));
                        }
                        if q == k {
                            assert(has_key_at(new_s, q, p as int));
                        }
                    }
                    assert forall|q: Seq<char>| #[trigger] entry_map(new_s).contains_key(q) implies entry_map(new_s)[q] == entry_map(old_s).insert(k, ev)[q] by {
                        let i = choose|i: int| #[trigger] has_key_at(new_s, q, i);
                        lemma_entry_map_at(new_s, i);
                        if q != k {
                            assert(has_key_at(old_s, q, i));
                            lemma_entry_map_at(old_s, i);
                        }
                    }
                }
            }
            self.entries = entries;
            Some(prev)
        } else {
            let mut entries = Vec::new();
            std::mem::swap(&mut entries, &mut self.entries);
            entries.insert(p, (id, entry));
            let ghost new_s = pairs_view(entries@);
            proof {
                assert(new_s =~= old_s.insert(p as int, (k, ev)));
                assert forall|i: int| 0 <= i < old_s.len() implies old_s[i].0 != k by {
                    if i < p {
                        assert(str_lt(old_s[i].0, k));
                    } else if i > p {
                        assert(str_lt(old_s[p as int].0, old_s[i].0));
                        assert(!str_lt(old_s[p as int].0, k));
                    }
                }
                assert forall|i: int, j: int| 0 <= i < j < new_s.len() implies str_lt(#[trigger] new_s[i].0, #[trigger] new_s[j].0) by {
                    if j < p {
                        assert(new_s[i] == old_s[i] && new_s[j] == old_s[j]);
                    } else if j == p {
                        assert(new_s[i] == old_s[i]);
                    } else if i == p {
                        assert(new_s[j] == old_s[j - 1]);
                        assert(old_s[j - 1].0 != k);
                        if j - 1 > p {
                            assert(str_lt(old_s[p as int].0, old_s[j - 1].0));
                        }
                    } else if i < p {
                        assert(new_s[i] == old_s[i] && new_s[j] == old_s[j - 1]);
                    } else {
                        assert(new_s[i] == old_s[i - 1] && new_s[j] == old_s[j - 1]);
                    }
                }
                assert(keyed_by_id(new_s)) by {
                    assert forall|i: int| 0 <= i < new_s.len() implies #[trigger] new_s[i].0 == lowercase(new_s[i].1.form) by {
                        if i < p {
                            assert(new_s[i] == old_s[i]);
                        } else if i > p {
                            assert(new_s[i] == old_s[i - 1]);
                        }
                    }
                }
                assert(!entry_map(old_s).contains_key(k)) by {
                    if entry_map(old_s).contains_key(k) {
                        let i = choose|i: int| #[trigger] has_key_at(old_s, k, i);
                        assert(old_s[i].0 != k);
                    }
                }
                assert(entry_map(new_s) =~= entry_map(old_s).insert(k, ev)) by {
                    assert forall|q: Seq<char>| #[trigger] entry_map(new_s).contains_key(q) <==> entry_map(old_s).insert(k, ev).contains_key(q) by {
                        if entry_map(new_s).contains_key(q) {
                            let i = choose|i: int| #[trigger] has_key_at(new_s, q, i);
                            if i < p {
                                assert(has_key_at(old_s, q, i));
                            } else if i > p {
                                assert(has_key_at(old_s, q, i - 1));
                            }
                        }
                        if entry_map(old_s).contains_key(q) {
                            let i = choose|i: int| #[trigger] has_key_at(old_s, q, i);
                            if i < p {
                                assert(has_key_at(new_s, q, i));
                            } else {
                                assert(has_key_at(new_s, q, i + 1));
                            }
                        }
                        if q == k {
                            assert(has_key_at(new_s, q, p as int));
                        }
                    }
                    assert forall|q: Seq<char>| #[trigger] entry_map(new_s).contains_key(q) implies entry_map(new_s)[q] == entry_map(old_s).insert(k, ev)[q] by {
                        let i = choose|i: int| #[trigger] has_key_at(new_s, q, i);
                        lemma_entry_map_at(new_s, i);
                        if i < p {
                            assert(has_key_at(old_s, q, i));
                            lemma_entry_map_at(old_s, i);
                        } else if i > p {
                            assert(has_key_at(old_s, q, i - 1));
                            lemma_entry_map_at(old_s, i - 1);
                        }
                    }
                }
            }
            self.entries = entries;
            None
        }
    }
}

/// The positions named in `names`, or the first name that is not one.
fn positions_of(names: &Vec<String>) -> (r: Result<MorphemePositions, usize>)
    ensures
        match r {
            Ok(p) => p@ == kinds_of(strings_view(names@)) && !(exists|i: int| first_unknown_at(strings_view(names@), i)),
            Err(i) => first_unknown_at(strings_view(names@), i as int),
        },
{
    let ghost ps = strings_view(names@);
    let mut positions = MorphemePositions::empty();
    let mut j: usize = 0;
    while j < names.len()
        invariant
            j <= names@.len(),
            ps == strings_view(names@),
            positions@ == kinds_of(ps.take(j as int)),
            forall|m: int| 0 <= m < j ==> kind_from_name(#[trigger] ps[m]) is Some,
        decreases names@.len() - j,
    {
        match MorphemeKind::parse(names[j].as_str()) {
            Some(kind) => {
                positions.insert(kind);
                proof {
                    assert(positions@ =~= kinds_of(ps.take(j + 1))) by {
                        assert forall|k: MorphemeKind| positions@.contains(k) <==> kinds_of(ps.take(j + 1)).contains(k) by {
                            if k == kind {
                                assert(ps.take(j + 1)[j as int] == ps[j as int]);
                            }
                            if kinds_of(ps.take(j + 1)).contains(k) {
                                let i = choose|i: int| 0 <= i < j + 1 && kind_from_name(#[trigger] ps.take(j + 1)[i]) == Some(k);
                                if i < j {
                                    assert(ps.take(j as int)[i] == ps[i]);
                                }
                            }
                            if kinds_of(ps.take(j as int)).contains(k) {
                                let i = choose|i: int| 0 <= i < j && kind_from_name(#[trigger] ps.take(j as int)[i]) == Some(k);
                                assert(ps.take(j + 1)[i] == ps[i]);
                            }
                        }
                    }
                }
            },
            None => {
                return Err(j);
            },
        }
        j = j + 1;
    }
    proof {
        assert(ps.take(ps.len() as int) =~= ps);
        if exists|i: int| first_unknown_at(ps, i) {
            let i = choose|i: int| first_unknown_at(ps, i);
            assert(kind_from_name(ps[i]) is Some);
        }
    }
    Ok(positions)
}

/// Checks the file's entries in order and files each under its id. An
/// entry with an empty form is skipped; an entry with no positions, with a
/// position that is not prefix/root/suffix, or whose id an earlier entry
/// already took, refuses the whole dataset.
pub fn parse(raw: Vec<(String, RawEntry)>) -> (r: Result<Dataset, DatasetError>)
    ensures
        match r {
            Ok(d) => parsed(raw_view(raw@)) == Ok::<Map<Seq<char>, EntryModel>, DatasetErrorModel>(entry_map(d@)),
            Err(e) => parsed(raw_view(raw@)) == Err::<Map<Seq<char>, EntryModel>, DatasetErrorModel>(e@),
        },
{
    let ghost rv = raw_view(raw@);
    let ghost items = raw@;
    let mut dataset = Dataset::new();
    proof {
        assert(rv.take(0) =~= Seq::<(Seq<char>, RawModel)>::empty());
        assert(entry_map(dataset@) =~= Map::<Seq<char>, EntryModel>::empty());
    }
    for pair in it: raw
        invariant
            it.seq() == items,
            rv == raw_view(items),
            parsed(rv.take(it.index() as int)) == Ok::<Map<Seq<char>, EntryModel>, DatasetErrorModel>(entry_map(dataset@)),
    {
        let ghost n = it.index() as int;
        let ghost before = entry_map(dataset@);
        proof {
            let t = rv.take(n + 1);
            assert(t.drop_last() =~= rv.take(n));
            assert(t.last() == rv[n]);
            assert(rv[n] == (items[n].0@, items[n].1@));
        }
        let (form, entry) = pair;
        if form.unicode_len() > 0 {
            if entry.positions.len() == 0 {
                proof {
                    lemma_parsed_err_prefix(rv, n + 1);
                }
                return Err(DatasetError::NoPositions(form));
            }
            let positions = match positions_of(&entry.positions) {
                Ok(p) => p,
                Err(i) => {
                    proof {
                        let ps = strings_view(entry.positions@);
                        let c = choose|c: int| first_unknown_at(ps, c);
                        if c < i {
                            assert(kind_from_name(ps[c]) is Some);
                        } else if c > i {
                            assert(kind_from_name(ps[i as int]) is Some);
                        }
                        lemma_parsed_err_prefix(rv, n + 1);
                    }
                    let name = entry.positions[i].clone();
                    return Err(DatasetError::UnknownPosition(form, name));
                },
            };
            let id = MorphemeId::new(form.as_str());
            if dataset.contains_key(&id) {
                proof {
                    lemma_parsed_err_prefix(rv, n + 1);
                }
                return Err(DatasetError::DuplicateId(id.0, form));
            }
            dataset.insert(
                DatasetEntry {
                    form,
                    positions,
                    meanings: entry.meanings,
                    examples: entry.examples,
                    variants: entry.variants,
                },
            );
        }
    }
    assert(rv.take(items.len() as int) =~= rv);
    Ok(dataset)
}

} // verus!
